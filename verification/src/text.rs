//! Text primitives over character sequences.
//!
//! A string is modelled by the sequence of its characters. Each operation has a
//! specification function on such sequences and an executable function proved
//! equal to it.
use vstd::prelude::*;

verus! {

/// Trusted: `String::push` appends one character.
pub assume_specification[ std::string::String::push ](s: &mut std::string::String, c: char)
    ensures
        final(s)@ == old(s)@.push(c),
;

/// A one-argument test on characters.
pub type CharTest = spec_fn(char) -> bool;

// ---------------------------------------------------------------------------
// Building and comparing strings
// ---------------------------------------------------------------------------

/// The characters of a string.
pub fn chars_of(text: &str) -> (r: Vec<char>)
    ensures
        r@ == text@,
{
    let mut out: Vec<char> = Vec::new();
    for c in it: text.chars()
        invariant
            out@ == it.seq().take(it.index()),
            it.seq() == text@,
    {
        out.push(c);
    }
    out
}

/// The string made of the characters `from..to`.
pub fn string_of(chars: &Vec<char>, from: usize, to: usize) -> (r: String)
    requires
        from <= to <= chars.len(),
    ensures
        r@ == chars@.subrange(from as int, to as int),
{
    let mut out = String::new();
    let mut i: usize = from;
    while i < to
        invariant
            from <= i <= to <= chars.len(),
            out@ == chars@.subrange(from as int, i as int),
        decreases to - i,
    {
        out.push(chars[i]);
        i += 1;
    }
    out
}

/// Whether two strings hold the same characters.
pub fn text_eq(a: &str, b: &str) -> (r: bool)
    ensures
        r == (a@ == b@),
{
    let left = a.to_owned();
    let right = b.to_owned();
    left.eq(&right)
}

/// The concatenation of two strings.
pub fn concat2(a: &str, b: &str) -> (r: String)
    ensures
        r@ == a@ + b@,
{
    let mut out = a.to_owned();
    out.append(b);
    out
}

/// The concatenation of three strings.
pub fn concat3(a: &str, b: &str, c: &str) -> (r: String)
    ensures
        r@ == a@ + b@ + c@,
{
    let mut out = a.to_owned();
    out.append(b);
    out.append(c);
    out
}

/// The concatenation of five strings.
pub fn concat5(a: &str, b: &str, c: &str, d: &str, e: &str) -> (r: String)
    ensures
        r@ == a@ + b@ + c@ + d@ + e@,
{
    let mut out = a.to_owned();
    out.append(b);
    out.append(c);
    out.append(d);
    out.append(e);
    out
}

/// The views of a list of strings.
pub open spec fn views(parts: Seq<String>) -> Seq<Seq<char>> {
    parts.map_values(|s: String| s@)
}

/// The parts joined with a separator between them.
pub open spec fn joined(parts: Seq<Seq<char>>, sep: Seq<char>) -> Seq<char>
    decreases parts.len(),
{
    if parts.len() == 0 {
        Seq::empty()
    } else if parts.len() == 1 {
        parts[0]
    } else {
        joined(parts.drop_last(), sep) + sep + parts.last()
    }
}

/// Joins the parts with a separator between them.
pub fn join(parts: &Vec<String>, sep: &str) -> (r: String)
    ensures
        r@ == joined(views(parts@), sep@),
{
    let mut out = String::new();
    let mut i: usize = 0;
    while i < parts.len()
        invariant
            i <= parts.len(),
            out@ == joined(views(parts@).take(i as int), sep@),
        decreases parts.len() - i,
    {
        if i > 0 {
            out.append(sep);
        }
        out.append(parts[i].as_str());
        proof {
            let next = views(parts@).take(i + 1);
            assert(next.drop_last() =~= views(parts@).take(i as int));
            assert(next.last() == parts@[i as int]@);
        }
        i += 1;
    }
    assert(views(parts@).take(parts.len() as int) =~= views(parts@));
    out
}

// ---------------------------------------------------------------------------
// Character classes
// ---------------------------------------------------------------------------

/// The characters with the Unicode property `White_Space`.
pub open spec fn is_space(c: char) -> bool {
    let n = c as u32;
    ||| 0x09 <= n <= 0x0d
    ||| n == 0x20
    ||| n == 0x85
    ||| n == 0xa0
    ||| n == 0x1680
    ||| 0x2000 <= n <= 0x200a
    ||| n == 0x2028
    ||| n == 0x2029
    ||| n == 0x202f
    ||| n == 0x205f
    ||| n == 0x3000
}

/// Decides whether a character is white space.
pub fn space(c: char) -> (r: bool)
    ensures
        r == is_space(c),
{
    let n = c as u32;
    (0x09 <= n && n <= 0x0d) || n == 0x20 || n == 0x85 || n == 0xa0 || n == 0x1680 || (0x2000 <= n
        && n <= 0x200a) || n == 0x2028 || n == 0x2029 || n == 0x202f || n == 0x205f || n == 0x3000
}

/// The ASCII decimal digits.
pub open spec fn is_digit(c: char) -> bool {
    '0' <= c <= '9'
}

/// Decides whether a character is an ASCII decimal digit.
pub fn digit(c: char) -> (r: bool)
    ensures
        r == is_digit(c),
{
    '0' <= c && c <= '9'
}

/// The ASCII letters.
pub open spec fn is_ascii_letter(c: char) -> bool {
    'a' <= c <= 'z' || 'A' <= c <= 'Z'
}

/// The lower case form of an ASCII letter; any other character is kept.
pub open spec fn lower(c: char) -> char {
    if 'A' <= c <= 'Z' {
        ((c as u32) + 32) as char
    } else {
        c
    }
}

/// The upper case form of an ASCII letter; any other character is kept.
pub open spec fn upper(c: char) -> char {
    if 'a' <= c <= 'z' {
        ((c as u32) - 32) as char
    } else {
        c
    }
}

/// Lower-cases an ASCII letter.
pub fn lower_char(c: char) -> (r: char)
    ensures
        r == lower(c),
{
    if 'A' <= c && c <= 'Z' {
        ((c as u8) + 32) as char
    } else {
        c
    }
}

/// Upper-cases an ASCII letter.
pub fn upper_char(c: char) -> (r: char)
    ensures
        r == upper(c),
{
    if 'a' <= c && c <= 'z' {
        ((c as u8) - 32) as char
    } else {
        c
    }
}

/// Lower-cases the ASCII letters of a string.
pub fn ascii_lower(text: &str) -> (r: String)
    ensures
        r@ == text@.map_values(|c: char| lower(c)),
{
    let chars = chars_of(text);
    let mut out = String::new();
    let mut i: usize = 0;
    while i < chars.len()
        invariant
            i <= chars.len(),
            chars@ == text@,
            out@ == text@.take(i as int).map_values(|c: char| lower(c)),
        decreases chars.len() - i,
    {
        out.push(lower_char(chars[i]));
        i += 1;
    }
    assert(text@.take(chars.len() as int) =~= text@);
    out
}

/// Upper-cases the ASCII letters of a string.
pub fn ascii_upper(text: &str) -> (r: String)
    ensures
        r@ == text@.map_values(|c: char| upper(c)),
{
    let chars = chars_of(text);
    let mut out = String::new();
    let mut i: usize = 0;
    while i < chars.len()
        invariant
            i <= chars.len(),
            chars@ == text@,
            out@ == text@.take(i as int).map_values(|c: char| upper(c)),
        decreases chars.len() - i,
    {
        out.push(upper_char(chars[i]));
        i += 1;
    }
    assert(text@.take(chars.len() as int) =~= text@);
    out
}

// ---------------------------------------------------------------------------
// Trimming
// ---------------------------------------------------------------------------

/// The end of the run of characters that pass the test, starting at `pos`.
pub open spec fn run_end(s: Seq<char>, pos: int, test: CharTest) -> int
    decreases s.len() - pos,
{
    if 0 <= pos < s.len() && test(s[pos]) {
        run_end(s, pos + 1, test)
    } else {
        pos
    }
}

/// The start of the run of characters that pass the test and end before `pos`.
pub open spec fn run_start(s: Seq<char>, pos: int, test: CharTest) -> int
    decreases pos,
{
    if 0 < pos <= s.len() && test(s[pos - 1]) {
        run_start(s, pos - 1, test)
    } else {
        pos
    }
}

/// A run ends between its start and the end of the text.
pub proof fn lemma_run_end(s: Seq<char>, pos: int, test: CharTest)
    requires
        0 <= pos <= s.len(),
    ensures
        pos <= run_end(s, pos, test) <= s.len(),
        forall|i: int| pos <= i < run_end(s, pos, test) ==> test(#[trigger] s[i]),
        run_end(s, pos, test) < s.len() ==> !test(s[run_end(s, pos, test)]),
    decreases s.len() - pos,
{
    if pos < s.len() && test(s[pos]) {
        lemma_run_end(s, pos + 1, test);
    }
}

/// The test for white space.
pub open spec fn space_test() -> CharTest {
    |c: char| is_space(c)
}

/// The text without its leading white space.
pub open spec fn trimmed_start(s: Seq<char>) -> Seq<char> {
    s.skip(run_end(s, 0, space_test()))
}

/// The text without its trailing white space.
pub open spec fn trimmed_end(s: Seq<char>) -> Seq<char> {
    s.take(run_start(s, s.len() as int, space_test()))
}

/// The text without its leading and trailing white space.
pub open spec fn trimmed(s: Seq<char>) -> Seq<char> {
    trimmed_start(trimmed_end(s))
}

/// The index of the first character at or after `from` that is not white space.
pub fn skip_space(chars: &Vec<char>, from: usize) -> (r: usize)
    requires
        from <= chars.len(),
    ensures
        r == run_end(chars@, from as int, space_test()),
        from <= r <= chars.len(),
{
    let mut i: usize = from;
    while i < chars.len() && space(chars[i])
        invariant
            from <= i <= chars.len(),
            run_end(chars@, i as int, space_test()) == run_end(chars@, from as int, space_test()),
        decreases chars.len() - i,
    {
        i += 1;
    }
    i
}

/// Removes trailing white space.
pub fn trim_end(text: &str) -> (r: String)
    ensures
        r@ == trimmed_end(text@),
{
    let chars = chars_of(text);
    let mut i: usize = chars.len();
    while i > 0 && space(chars[i - 1])
        invariant
            i <= chars.len(),
            chars@ == text@,
            run_start(chars@, i as int, space_test()) == run_start(
                chars@,
                chars.len() as int,
                space_test(),
            ),
        decreases i,
    {
        i -= 1;
    }
    string_of(&chars, 0, i)
}

/// Removes leading white space.
pub fn trim_start(text: &str) -> (r: String)
    ensures
        r@ == trimmed_start(text@),
{
    let chars = chars_of(text);
    let i = skip_space(&chars, 0);
    string_of(&chars, i, chars.len())
}

/// Removes leading and trailing white space.
pub fn trim(text: &str) -> (r: String)
    ensures
        r@ == trimmed(text@),
{
    let cut = trim_end(text);
    trim_start(cut.as_str())
}

/// The test for one character.
pub open spec fn char_test(c: char) -> CharTest {
    |x: char| x == c
}

/// The text without the runs of `c` at its ends.
pub open spec fn stripped_of(s: Seq<char>, c: char) -> Seq<char> {
    let test = char_test(c);
    let head = s.take(run_start(s, s.len() as int, test));
    head.skip(run_end(head, 0, test))
}

/// Removes the runs of `c` at the ends of the text.
pub fn trim_matches(text: &str, c: char) -> (r: String)
    ensures
        r@ == stripped_of(text@, c),
{
    let chars = chars_of(text);
    let ghost test = char_test(c);
    let mut i: usize = chars.len();
    while i > 0 && chars[i - 1] == c
        invariant
            i <= chars.len(),
            chars@ == text@,
            test == char_test(c),
            run_start(chars@, i as int, test) == run_start(chars@, chars.len() as int, test),
        decreases i,
    {
        i -= 1;
    }
    let head = string_of(&chars, 0, i);
    let head_chars = chars_of(head.as_str());
    let mut j: usize = 0;
    while j < head_chars.len() && head_chars[j] == c
        invariant
            j <= head_chars.len(),
            test == char_test(c),
            run_end(head_chars@, j as int, test) == run_end(head_chars@, 0, test),
        decreases head_chars.len() - j,
    {
        j += 1;
    }
    string_of(&head_chars, j, head_chars.len())
}

// ---------------------------------------------------------------------------
// Searching
// ---------------------------------------------------------------------------

/// Whether `needle` stands at index `at` of `s`.
pub open spec fn occurs_at(s: Seq<char>, needle: Seq<char>, at: int) -> bool {
    0 <= at && at + needle.len() <= s.len() && s.subrange(at, at + needle.len()) == needle
}

/// Whether `needle` stands anywhere in `s`.
pub open spec fn occurs(s: Seq<char>, needle: Seq<char>) -> bool {
    exists|at: int| occurs_at(s, needle, at)
}

/// The first index at or after `from` at which `needle` stands.
pub open spec fn find_from(s: Seq<char>, needle: Seq<char>, from: int) -> Option<int>
    decreases s.len() + 1 - from,
{
    if from < 0 || from + needle.len() > s.len() {
        None
    } else if occurs_at(s, needle, from) {
        Some(from)
    } else {
        find_from(s, needle, from + 1)
    }
}

/// What the search finds: the first place, or none when there is none.
pub proof fn lemma_find_from(s: Seq<char>, needle: Seq<char>, from: int)
    requires
        0 <= from,
    ensures
        match find_from(s, needle, from) {
            Some(at) => from <= at && occurs_at(s, needle, at) && forall|j: int|
                from <= j < at ==> !occurs_at(s, needle, j),
            None => forall|j: int| from <= j ==> !occurs_at(s, needle, j),
        },
    decreases s.len() + 1 - from,
{
    if from + needle.len() > s.len() {
    } else if occurs_at(s, needle, from) {
    } else {
        lemma_find_from(s, needle, from + 1);
    }
}

/// Decides whether `needle` stands at index `at`.
pub fn matches_at(chars: &Vec<char>, needle: &Vec<char>, at: usize) -> (r: bool)
    requires
        at <= chars.len(),
    ensures
        r == occurs_at(chars@, needle@, at as int),
{
    if needle.len() > chars.len() - at {
        return false;
    }
    let mut i: usize = 0;
    while i < needle.len()
        invariant
            i <= needle.len(),
            at + needle.len() <= chars.len(),
            forall|j: int| 0 <= j < i ==> chars@[at + j] == needle@[j],
        decreases needle.len() - i,
    {
        if chars[at + i] != needle[i] {
            assert(chars@.subrange(at as int, at + needle.len())[i as int] == chars@[at + i]);
            return false;
        }
        i += 1;
    }
    assert(chars@.subrange(at as int, at + needle.len()) =~= needle@);
    true
}

/// Finds the first place of `needle` at or after `from`.
pub fn find(chars: &Vec<char>, needle: &Vec<char>, from: usize) -> (r: Option<usize>)
    requires
        from <= chars.len(),
    ensures
        match r {
            Some(at) => find_from(chars@, needle@, from as int) == Some(at as int) && from <= at
                && at + needle.len() <= chars.len(),
            None => find_from(chars@, needle@, from as int) is None,
        },
{
    let mut i: usize = from;
    while i <= chars.len()
        invariant
            from <= i <= chars.len() + 1,
            find_from(chars@, needle@, i as int) == find_from(chars@, needle@, from as int),
        decreases chars.len() + 1 - i,
    {
        if needle.len() > chars.len() - i {
            return None;
        }
        if matches_at(chars, needle, i) {
            return Some(i);
        }
        if i == chars.len() {
            assert(find_from(chars@, needle@, i + 1) is None);
            return None;
        }
        i += 1;
    }
    None
}

/// Decides whether `needle` stands in `text`.
pub fn contains(text: &str, needle: &str) -> (r: bool)
    ensures
        r == occurs(text@, needle@),
{
    let chars = chars_of(text);
    let pattern = chars_of(needle);
    proof {
        lemma_find_from(text@, needle@, 0);
    }
    match find(&chars, &pattern, 0) {
        Some(at) => {
            assert(occurs_at(text@, needle@, at as int));
            true
        },
        None => false,
    }
}

/// Decides whether the text starts with `prefix`.
pub fn starts_with(text: &str, prefix: &str) -> (r: bool)
    ensures
        r == prefix@.is_prefix_of(text@),
{
    let chars = chars_of(text);
    let pattern = chars_of(prefix);
    matches_at(&chars, &pattern, 0)
}

/// Decides whether the text ends with `suffix`.
pub fn ends_with(text: &str, suffix: &str) -> (r: bool)
    ensures
        r == suffix@.is_suffix_of(text@),
{
    let chars = chars_of(text);
    let pattern = chars_of(suffix);
    if pattern.len() > chars.len() {
        return false;
    }
    matches_at(&chars, &pattern, chars.len() - pattern.len())
}

/// The text behind a prefix, if it starts with it.
pub open spec fn without_prefix(s: Seq<char>, prefix: Seq<char>) -> Option<Seq<char>> {
    if prefix.is_prefix_of(s) {
        Some(s.skip(prefix.len() as int))
    } else {
        None
    }
}

/// The text before a suffix, if it ends with it.
pub open spec fn without_suffix(s: Seq<char>, suffix: Seq<char>) -> Option<Seq<char>> {
    if suffix.is_suffix_of(s) {
        Some(s.take(s.len() - suffix.len()))
    } else {
        None
    }
}

/// The view of an optional string.
pub open spec fn opt_view(s: Option<String>) -> Option<Seq<char>> {
    match s {
        Some(t) => Some(t@),
        None => None,
    }
}

/// Removes a prefix.
pub fn strip_prefix(text: &str, prefix: &str) -> (r: Option<String>)
    ensures
        opt_view(r) == without_prefix(text@, prefix@),
{
    let chars = chars_of(text);
    let pattern = chars_of(prefix);
    if matches_at(&chars, &pattern, 0) {
        Some(string_of(&chars, pattern.len(), chars.len()))
    } else {
        None
    }
}

/// Removes a suffix.
pub fn strip_suffix(text: &str, suffix: &str) -> (r: Option<String>)
    ensures
        opt_view(r) == without_suffix(text@, suffix@),
{
    let chars = chars_of(text);
    let pattern = chars_of(suffix);
    if pattern.len() <= chars.len() && matches_at(&chars, &pattern, chars.len() - pattern.len()) {
        Some(string_of(&chars, 0, chars.len() - pattern.len()))
    } else {
        None
    }
}

// ---------------------------------------------------------------------------
// Splitting and replacing
// ---------------------------------------------------------------------------

/// The parts of the text between the places of a separator that is not empty.
pub open spec fn split_by(s: Seq<char>, sep: Seq<char>) -> Seq<Seq<char>>
    decreases s.len(),
{
    if sep.len() == 0 {
        seq![s]
    } else {
        match find_from(s, sep, 0) {
            Some(at) => if 0 <= at && at + sep.len() <= s.len() {
                seq![s.take(at)] + split_by(s.skip(at + sep.len()), sep)
            } else {
                seq![s]
            },
            None => seq![s],
        }
    }
}

/// The parts of the text at a separator. An empty separator stands before every
/// character and at the end, so it yields an empty part, each character, and an
/// empty part.
pub open spec fn split_parts(s: Seq<char>, sep: Seq<char>) -> Seq<Seq<char>> {
    if sep.len() == 0 {
        seq![Seq::<char>::empty()] + Seq::new(s.len(), |i: int| seq![s[i]]) + seq![
            Seq::<char>::empty(),
        ]
    } else {
        split_by(s, sep)
    }
}

/// Splits the text at a separator.
pub fn split(text: &str, sep: &str) -> (r: Vec<String>)
    ensures
        views(r@) == split_parts(text@, sep@),
{
    let chars = chars_of(text);
    let pattern = chars_of(sep);
    let mut out: Vec<String> = Vec::new();
    if pattern.len() == 0 {
        out.push(String::new());
        let mut i: usize = 0;
        while i < chars.len()
            invariant
                i <= chars.len(),
                chars@ == text@,
                views(out@) == seq![Seq::<char>::empty()] + Seq::new(
                    i as nat,
                    |j: int| seq![text@[j]],
                ),
            decreases chars.len() - i,
        {
            let one = string_of(&chars, i, i + 1);
            assert(one@ =~= seq![text@[i as int]]);
            let ghost before = out@;
            out.push(one);
            assert(views(out@) =~= views(before).push(one@));
            i += 1;
        }
        let ghost before = out@;
        out.push(String::new());
        assert(views(out@) =~= views(before).push(Seq::<char>::empty()));
        return out;
    }
    let mut start: usize = 0;
    assert(text@.skip(0) =~= text@);
    loop
        invariant
            start <= chars.len(),
            chars@ == text@,
            pattern@ == sep@,
            pattern.len() > 0,
            views(out@) + split_by(text@.skip(start as int), sep@) == split_by(text@, sep@),
        decreases chars.len() - start,
    {
        proof {
            lemma_find_shift(text@, sep@, start as int, 0);
        }
        match find(&chars, &pattern, start) {
            Some(at) => {
                let part = string_of(&chars, start, at);
                let ghost before = out@;
                let ghost rest = text@.skip(start as int);
                out.push(part);
                proof {
                    assert(views(out@) =~= views(before).push(part@));
                    assert(rest.take(at - start) =~= part@);
                    assert(rest.skip(at - start + sep@.len()) =~= text@.skip(at + sep@.len()));
                    assert(split_by(rest, sep@) =~= seq![part@] + split_by(
                        text@.skip(at + sep@.len()),
                        sep@,
                    ));
                    assert(views(out@) + split_by(text@.skip(at + sep@.len()), sep@) =~= views(
                        before,
                    ) + split_by(rest, sep@));
                }
                start = at + pattern.len();
            },
            None => {
                let part = string_of(&chars, start, chars.len());
                let ghost before = out@;
                out.push(part);
                proof {
                    assert(views(out@) =~= views(before).push(part@));
                    assert(part@ =~= text@.skip(start as int));
                    assert(views(out@) =~= views(before) + seq![part@]);
                }
                return out;
            },
        }
    }
}

/// Searching a tail of the text is searching the text from there on.
pub proof fn lemma_find_shift(s: Seq<char>, needle: Seq<char>, start: int, from: int)
    requires
        0 <= start <= s.len(),
        0 <= from,
    ensures
        find_from(s.skip(start), needle, from) == (match find_from(s, needle, start + from) {
            Some(at) => Some(at - start),
            None => None::<int>,
        }),
    decreases s.len() + 1 - start - from,
{
    let tail = s.skip(start);
    if from + needle.len() > tail.len() {
    } else {
        assert(tail.subrange(from, from + needle.len()) =~= s.subrange(
            start + from,
            start + from + needle.len(),
        ));
        if !occurs_at(tail, needle, from) {
            lemma_find_shift(s, needle, start, from + 1);
        }
    }
}

/// The text before and behind the first place of a separator.
pub open spec fn cut_at(s: Seq<char>, sep: Seq<char>) -> Option<(Seq<char>, Seq<char>)> {
    match find_from(s, sep, 0) {
        Some(at) => Some((s.take(at), s.skip(at + sep.len()))),
        None => None,
    }
}

/// Splits the text at the first place of a separator.
pub fn split_once(text: &str, sep: &str) -> (r: Option<(String, String)>)
    ensures
        match r {
            Some((a, b)) => cut_at(text@, sep@) == Some((a@, b@)),
            None => cut_at(text@, sep@) is None,
        },
{
    let chars = chars_of(text);
    let pattern = chars_of(sep);
    match find(&chars, &pattern, 0) {
        Some(at) => {
            let head = string_of(&chars, 0, at);
            let tail = string_of(&chars, at + pattern.len(), chars.len());
            Some((head, tail))
        },
        None => None,
    }
}

/// The text with every place of `from` (from left to right, without overlap)
/// replaced by `to`.
pub open spec fn replaced(s: Seq<char>, from: Seq<char>, to: Seq<char>) -> Seq<char> {
    joined(split_by(s, from), to)
}

/// Replaces every place of `from` by `to`.
pub fn replace(text: &str, from: &str, to: &str) -> (r: String)
    requires
        from@.len() > 0,
    ensures
        r@ == replaced(text@, from@, to@),
{
    let parts = split(text, from);
    join(&parts, to)
}

/// `count` copies of the text.
pub open spec fn repeated(s: Seq<char>, count: nat) -> Seq<char>
    decreases count,
{
    if count == 0 {
        Seq::empty()
    } else {
        repeated(s, (count - 1) as nat) + s
    }
}

/// Repeats the text.
pub fn repeat(text: &str, count: usize) -> (r: String)
    ensures
        r@ == repeated(text@, count as nat),
{
    let mut out = String::new();
    let mut i: usize = 0;
    while i < count
        invariant
            i <= count,
            out@ == repeated(text@, i as nat),
        decreases count - i,
    {
        out.append(text);
        i += 1;
    }
    out
}

/// A line without the carriage return at its end.
pub open spec fn without_return(s: Seq<char>) -> Seq<char> {
    if s.len() > 0 && s.last() == '\r' {
        s.drop_last()
    } else {
        s
    }
}

/// The lines of a text. A line ends at a line feed, which may follow a carriage
/// return, or at the end of the text; the last line may be without an end.
pub open spec fn lines_of(s: Seq<char>) -> Seq<Seq<char>>
    decreases s.len(),
{
    if s.len() == 0 {
        Seq::empty()
    } else {
        let end = run_end(s, 0, line_test());
        if 0 <= end < s.len() {
            seq![without_return(s.take(end))] + lines_of(s.skip(end + 1))
        } else {
            seq![s]
        }
    }
}

/// The test for the characters inside a line.
pub open spec fn line_test() -> CharTest {
    |c: char| c != '\n'
}

/// A run in a tail of the text is a run in the text.
proof fn lemma_run_shift(s: Seq<char>, start: int, pos: int, test: CharTest)
    requires
        0 <= start <= s.len(),
        0 <= pos <= s.len() - start,
    ensures
        run_end(s.skip(start), pos, test) == run_end(s, start + pos, test) - start,
    decreases s.len() - start - pos,
{
    if pos < s.len() - start {
        assert(s.skip(start)[pos] == s[start + pos]);
        if test(s[start + pos]) {
            lemma_run_shift(s, start, pos + 1, test);
        }
    }
}

/// Splits a text into lines.
pub fn lines(text: &str) -> (r: Vec<String>)
    ensures
        views(r@) == lines_of(text@),
{
    let chars = chars_of(text);
    let ghost s = text@;
    let mut out: Vec<String> = Vec::new();
    let mut start: usize = 0;
    proof {
        assert(s.skip(0) =~= s);
        assert(views(out@) =~= Seq::empty());
        assert(Seq::<Seq<char>>::empty() + lines_of(s) =~= lines_of(s));
    }
    while start < chars.len()
        invariant
            start <= chars.len(),
            chars@ == s,
            s == text@,
            views(out@) + lines_of(s.skip(start as int)) == lines_of(s),
        decreases chars.len() - start,
    {
        let ghost before = views(out@);
        let ghost rest = s.skip(start as int);
        let mut end: usize = start;
        while end < chars.len() && chars[end] != '\n'
            invariant
                start <= end <= chars.len(),
                chars@ == s,
                run_end(s, end as int, line_test()) == run_end(s, start as int, line_test()),
            decreases chars.len() - end,
        {
            end += 1;
        }
        proof {
            lemma_run_shift(s, start as int, 0, line_test());
            assert(run_end(rest, 0, line_test()) == end - start);
        }
        if end < chars.len() {
            let stop = if end > start && chars[end - 1] == '\r' {
                end - 1
            } else {
                end
            };
            let line = string_of(&chars, start, stop);
            let ghost old_out = out@;
            out.push(line);
            proof {
                let full = rest.take(end - start);
                assert(full =~= s.subrange(start as int, end as int));
                assert(line@ =~= without_return(full));
                assert(rest.skip(end - start + 1) =~= s.skip(end + 1));
                assert(views(out@) =~= before.push(line@));
                assert(before.push(line@) + lines_of(s.skip(end + 1)) =~= before + (seq![line@]
                    + lines_of(s.skip(end + 1))));
            }
            start = end + 1;
        } else {
            let line = string_of(&chars, start, end);
            out.push(line);
            proof {
                assert(line@ =~= rest);
                assert(views(out@) =~= before.push(line@));
                assert(s.skip(end as int) =~= Seq::empty());
                assert(before.push(line@) + lines_of(s.skip(end as int)) =~= before + seq![line@]);
            }
            start = end;
        }
    }
    proof {
        assert(s.skip(start as int) =~= Seq::empty());
        assert(views(out@) + lines_of(s.skip(start as int)) =~= views(out@));
    }
    out
}

/// The first word of a text, if it has one.
pub open spec fn first_word_of(s: Seq<char>) -> Option<Seq<char>> {
    let start = run_end(s, 0, space_test());
    if start == s.len() {
        None
    } else {
        Some(s.subrange(start, run_end(s, start, word_test())))
    }
}

/// The test for the characters of a word.
pub open spec fn word_test() -> CharTest {
    |c: char| !is_space(c)
}

/// Finds the first word of a text.
pub fn first_word(text: &str) -> (r: Option<String>)
    ensures
        opt_view(r) == first_word_of(text@),
{
    let chars = chars_of(text);
    let start = skip_space(&chars, 0);
    if start == chars.len() {
        return None;
    }
    let mut end: usize = start;
    while end < chars.len() && !space(chars[end])
        invariant
            start <= end <= chars.len(),
            chars@ == text@,
            run_end(text@, end as int, word_test()) == run_end(text@, start as int, word_test()),
        decreases chars.len() - end,
    {
        end += 1;
    }
    Some(string_of(&chars, start, end))
}

// ---------------------------------------------------------------------------
// Order
// ---------------------------------------------------------------------------

/// Whether the first text comes strictly before the second: at the first
/// difference the smaller character decides, and a proper prefix comes first.
pub open spec fn text_less(a: Seq<char>, b: Seq<char>) -> bool
    decreases a.len(),
{
    if b.len() == 0 {
        false
    } else if a.len() == 0 {
        true
    } else if a[0] != b[0] {
        a[0] < b[0]
    } else {
        text_less(a.skip(1), b.skip(1))
    }
}

/// Decides the order of two texts.
pub fn less(a: &str, b: &str) -> (r: bool)
    ensures
        r == text_less(a@, b@),
{
    let left = chars_of(a);
    let right = chars_of(b);
    let mut i: usize = 0;
    assert(a@.skip(0) =~= a@);
    assert(b@.skip(0) =~= b@);
    while i < left.len() && i < right.len()
        invariant
            i <= left.len(),
            i <= right.len(),
            left@ == a@,
            right@ == b@,
            text_less(a@.skip(i as int), b@.skip(i as int)) == text_less(a@, b@),
        decreases left.len() - i,
    {
        if left[i] != right[i] {
            return left[i] < right[i];
        }
        assert(a@.skip(i as int).skip(1) =~= a@.skip(i + 1));
        assert(b@.skip(i as int).skip(1) =~= b@.skip(i + 1));
        i += 1;
    }
    i < right.len()
}

/// The order of texts is irreflexive.
pub proof fn lemma_less_irreflexive(a: Seq<char>)
    ensures
        !text_less(a, a),
    decreases a.len(),
{
    if a.len() > 0 {
        lemma_less_irreflexive(a.skip(1));
    }
}

/// The order of texts is transitive.
pub proof fn lemma_less_transitive(a: Seq<char>, b: Seq<char>, c: Seq<char>)
    requires
        text_less(a, b),
        text_less(b, c),
    ensures
        text_less(a, c),
    decreases a.len(),
{
    if a.len() > 0 && a[0] == b[0] && b[0] == c[0] {
        lemma_less_transitive(a.skip(1), b.skip(1), c.skip(1));
    }
}

/// Two different texts are ordered one way or the other.
pub proof fn lemma_less_total(a: Seq<char>, b: Seq<char>)
    ensures
        a == b || text_less(a, b) || text_less(b, a),
    decreases a.len(),
{
    if a.len() == 0 || b.len() == 0 {
        if a.len() == 0 && b.len() == 0 {
            assert(a =~= b);
        }
    } else if a[0] == b[0] {
        lemma_less_total(a.skip(1), b.skip(1));
        if a.skip(1) == b.skip(1) {
            assert(a =~= seq![a[0]] + a.skip(1));
            assert(b =~= seq![b[0]] + b.skip(1));
        }
    }
}

// ---------------------------------------------------------------------------
// Decimal numbers
// ---------------------------------------------------------------------------

/// The character of a digit below sixteen, in lower case.
pub open spec fn digit_char(d: nat) -> char {
    if d < 10 {
        (('0' as u32) + d) as char
    } else {
        (('a' as u32) + (d - 10)) as char
    }
}

/// The decimal notation of a natural number, without leading zeros.
pub open spec fn decimal(n: nat) -> Seq<char>
    decreases n,
{
    if n < 10 {
        seq![digit_char(n)]
    } else {
        decimal(n / 10).push(digit_char(n % 10))
    }
}

/// The decimal notation of an integer.
pub open spec fn decimal_int(n: int) -> Seq<char> {
    if n < 0 {
        seq!['-'] + decimal((-n) as nat)
    } else {
        decimal(n as nat)
    }
}

/// The character of a digit below sixteen.
pub fn digit_of(d: u8) -> (r: char)
    requires
        d < 16,
    ensures
        r == digit_char(d as nat),
{
    if d < 10 {
        (48u8 + d) as char
    } else {
        (87u8 + d) as char
    }
}

/// Writes a natural number in decimal.
pub fn u128_text(n: u128) -> (r: String)
    ensures
        r@ == decimal(n as nat),
    decreases n,
{
    let last = digit_of((n % 10) as u8);
    if n < 10 {
        let mut out = String::new();
        out.push(last);
        out
    } else {
        let mut out = u128_text(n / 10);
        out.push(last);
        out
    }
}

/// Writes an unsigned integer in decimal.
pub fn u64_text(n: u64) -> (r: String)
    ensures
        r@ == decimal(n as nat),
{
    u128_text(n as u128)
}

/// Writes a size in decimal.
pub fn usize_text(n: usize) -> (r: String)
    ensures
        r@ == decimal(n as nat),
{
    u128_text(n as u128)
}

/// Writes a signed integer in decimal.
pub fn i64_text(n: i64) -> (r: String)
    ensures
        r@ == decimal_int(n as int),
{
    if n < 0 {
        let digits = u128_text((-(n as i128)) as u128);
        let mut out = String::new();
        out.push('-');
        out.append(digits.as_str());
        out
    } else {
        u128_text(n as u128)
    }
}

/// The value of a decimal digit.
pub open spec fn digit_value(c: char) -> nat {
    ((c as u32) - ('0' as u32)) as nat
}

/// Whether every character is a decimal digit.
pub open spec fn all_digits(s: Seq<char>) -> bool {
    forall|i: int| 0 <= i < s.len() ==> is_digit(#[trigger] s[i])
}

/// The number that a sequence of decimal digits denotes.
pub open spec fn digits_value(s: Seq<char>) -> nat
    decreases s.len(),
{
    if s.len() == 0 {
        0
    } else {
        digits_value(s.drop_last()) * 10 + digit_value(s.last())
    }
}

/// Reading the decimal notation of a number gives the number back, and the
/// notation holds digits only.
pub proof fn lemma_decimal_reads_back(n: nat)
    ensures
        digits_value(decimal(n)) == n,
        all_digits(decimal(n)),
        decimal(n).len() > 0,
    decreases n,
{
    if n < 10 {
        assert(decimal(n).drop_last() =~= Seq::<char>::empty());
        assert(digits_value(Seq::<char>::empty()) == 0);
    } else {
        lemma_decimal_reads_back(n / 10);
        assert(decimal(n).drop_last() =~= decimal(n / 10));
    }
}

/// The size that a text denotes: digits, after at most one plus sign, whose
/// value fits.
pub open spec fn parsed_usize(s: Seq<char>) -> Option<nat> {
    let body = if s.len() > 0 && s[0] == '+' {
        s.skip(1)
    } else {
        s
    };
    if body.len() > 0 && all_digits(body) && digits_value(body) <= usize::MAX {
        Some(digits_value(body))
    } else {
        None
    }
}

/// Reads a size.
pub fn parse_usize(text: &str) -> (r: Option<usize>)
    ensures
        match r {
            Some(n) => parsed_usize(text@) == Some(n as nat),
            None => parsed_usize(text@) is None,
        },
{
    let all = chars_of(text);
    let from: usize = if all.len() > 0 && all[0] == '+' {
        1
    } else {
        0
    };
    let ghost body = if text@.len() > 0 && text@[0] == '+' {
        text@.skip(1)
    } else {
        text@
    };
    assert(body =~= text@.skip(from as int));
    if from == all.len() {
        return None;
    }
    let mut value: usize = 0;
    let mut i: usize = from;
    let mut fits: bool = true;
    while i < all.len()
        invariant
            from <= i <= all.len(),
            from <= 1,
            all@ == text@,
            body == text@.skip(from as int),
            body == (if text@.len() > 0 && text@[0] == '+' {
                text@.skip(1)
            } else {
                text@
            }),
            forall|j: int| 0 <= j < i - from ==> is_digit(#[trigger] body[j]),
            fits ==> value == digits_value(body.take(i - from)),
            !fits ==> digits_value(body.take(i - from)) > usize::MAX,
        decreases all.len() - i,
    {
        assert(body[i - from] == all@[i as int]);
        if !digit(all[i]) {
            return None;
        }
        let d = all[i] as u32 - '0' as u32;
        proof {
            let next = body.take(i - from + 1);
            assert(next.drop_last() =~= body.take(i - from));
            assert(next.last() == all@[i as int]);
            assert(digits_value(next) == digits_value(body.take(i - from)) * 10 + d);
        }
        if fits {
            match value.checked_mul(10) {
                Some(tens) => match tens.checked_add(d as usize) {
                    Some(sum) => {
                        value = sum;
                    },
                    None => {
                        fits = false;
                    },
                },
                None => {
                    fits = false;
                },
            }
        }
        i += 1;
    }
    assert(body.take(all.len() - from) =~= body);
    if fits {
        Some(value)
    } else {
        None
    }
}

/// The sixteen lower-case hexadecimal digits of a 64-bit word.
pub open spec fn hex16(n: u64) -> Seq<char> {
    Seq::new(16, |i: int| digit_char(((n as nat) / pow16((15 - i) as nat)) % 16))
}

/// Sixteen to the power `k`.
pub open spec fn pow16(k: nat) -> nat
    decreases k,
{
    if k == 0 {
        1
    } else {
        16 * pow16((k - 1) as nat)
    }
}

/// Dividing by sixteen and by a power of sixteen.
proof fn lemma_div_pow16(n: nat, k: nat)
    ensures
        n / pow16(k + 1) == (n / pow16(k)) / 16,
        pow16(k) > 0,
    decreases k,
{
    if k > 0 {
        lemma_div_pow16(n, (k - 1) as nat);
    }
    assert(pow16(k) > 0 ==> pow16(k + 1) == pow16(k) * 16) by {
        assert(pow16(k + 1) == 16 * pow16(k));
    }
    vstd::arithmetic::div_mod::lemma_div_denominator(n as int, pow16(k) as int, 16);
}

/// Writes a 64-bit word as sixteen hexadecimal digits.
pub fn hex16_text(n: u64) -> (r: String)
    ensures
        r@ == hex16(n),
{
    let mut digits: Vec<char> = Vec::new();
    let mut rest: u64 = n;
    proof {
        assert(pow16(0) == 1);
        vstd::arithmetic::div_mod::lemma_div_basics(n as int);
    }
    let mut i: usize = 0;
    while i < 16
        invariant
            i <= 16,
            digits.len() == i,
            rest as nat == (n as nat) / pow16(i as nat),
            forall|j: int|
                0 <= j < i ==> #[trigger] digits@[j] == digit_char(
                    ((n as nat) / pow16(j as nat)) % 16,
                ),
        decreases 16 - i,
    {
        digits.push(digit_of((rest % 16) as u8));
        proof {
            lemma_div_pow16(n as nat, i as nat);
        }
        rest = rest / 16;
        i += 1;
    }
    let mut out = String::new();
    let mut k: usize = 0;
    while k < 16
        invariant
            k <= 16,
            digits.len() == 16,
            forall|j: int|
                0 <= j < 16 ==> #[trigger] digits@[j] == digit_char(
                    ((n as nat) / pow16(j as nat)) % 16,
                ),
            out@ == hex16(n).take(k as int),
        decreases 16 - k,
    {
        assert(digits@[15 - k] == hex16(n)[k as int]);
        out.push(digits[15 - k]);
        k += 1;
    }
    assert(hex16(n).take(16) =~= hex16(n));
    out
}

// ---------------------------------------------------------------------------
// What the operations are for
// ---------------------------------------------------------------------------

/// At the first place where two texts differ the smaller character decides their
/// order, and a text comes before every longer one that starts with it.
pub proof fn law_order_of_texts(a: Seq<char>, b: Seq<char>, k: int)
    requires
        0 <= k <= a.len(),
        k <= b.len(),
        forall|i: int| 0 <= i < k ==> a[i] == b[i],
    ensures
        k < a.len() && k < b.len() && a[k] != b[k] ==> (text_less(a, b) <==> a[k] < b[k]),
        k == a.len() ==> (text_less(a, b) <==> a.len() < b.len()),
        k == b.len() ==> !text_less(a, b),
    decreases k,
{
    if k > 0 {
        assert forall|i: int| 0 <= i < k - 1 implies a.skip(1)[i] == b.skip(1)[i] by {
            assert(a[i + 1] == b[i + 1]);
        }
        law_order_of_texts(a.skip(1), b.skip(1), k - 1);
        if k < a.len() && k < b.len() {
            assert(a.skip(1)[k - 1] == a[k] && b.skip(1)[k - 1] == b[k]);
        }
    }
}

/// Joining a first part and others puts the separator between it and the others.
pub proof fn law_joined_from_front(first: Seq<char>, rest: Seq<Seq<char>>, sep: Seq<char>)
    ensures
        rest.len() == 0 ==> joined(seq![first] + rest, sep) == first,
        rest.len() > 0 ==> joined(seq![first] + rest, sep) == first + sep + joined(rest, sep),
    decreases rest.len(),
{
    let all = seq![first] + rest;
    if rest.len() == 0 {
        assert(all =~= seq![first]);
    } else {
        let head = rest.drop_last();
        law_joined_from_front(first, head, sep);
        assert(all.drop_last() =~= seq![first] + head);
        assert(all.last() == rest.last());
        if head.len() == 0 {
            assert(rest =~= seq![rest.last()]);
        } else {
            assert(first + sep + joined(head, sep) + sep + rest.last() =~= first + sep + (joined(
                head,
                sep,
            ) + sep + rest.last()));
        }
    }
}

/// The parts of a text, joined with the separator at which it was split, are the
/// text, and the separator stands in none of them.
pub proof fn law_split_and_join(s: Seq<char>, sep: Seq<char>)
    requires
        sep.len() > 0,
    ensures
        joined(split_parts(s, sep), sep) == s,
        forall|i: int|
            0 <= i < split_parts(s, sep).len() ==> !occurs(#[trigger] split_parts(s, sep)[i], sep),
    decreases s.len(),
{
    lemma_find_from(s, sep, 0);
    match find_from(s, sep, 0) {
        Some(at) => {
            let first = s.take(at);
            let tail = s.skip(at + sep.len());
            let rest = split_by(tail, sep);
            let all = seq![first] + rest;
            assert(split_parts(s, sep) == all);
            law_split_and_join(tail, sep);
            law_joined_from_front(first, rest, sep);
            assert(rest.len() > 0) by {
                assert(find_from(tail, sep, 0) is Some || find_from(tail, sep, 0) is None);
            }
            assert(s =~= first + sep + tail) by {
                assert(s.subrange(at, at + sep.len()) == sep);
                assert forall|i: int| 0 <= i < s.len() implies s[i] == (first + sep + tail)[i] by {
                    if at <= i < at + sep.len() {
                        assert(s.subrange(at, at + sep.len())[i - at] == s[i]);
                    }
                }
            }
            assert forall|i: int| 0 <= i < all.len() implies !occurs(#[trigger] all[i], sep) by {
                if i == 0 {
                    if occurs(first, sep) {
                        let j = choose|j: int| occurs_at(first, sep, j);
                        assert(first.subrange(j, j + sep.len()) =~= s.subrange(j, j + sep.len()));
                        assert(occurs_at(s, sep, j));
                    }
                } else {
                    assert(all[i] == split_parts(tail, sep)[i - 1]);
                }
            }
        },
        None => {
            assert(split_parts(s, sep) == seq![s]);
            if occurs(s, sep) {
                let j = choose|j: int| occurs_at(s, sep, j);
                assert(occurs_at(s, sep, j) && 0 <= j);
            }
        },
    }
}

/// Copies of a text are as long as all of them together, and each holds the
/// characters of the text in order.
pub proof fn law_repeated(s: Seq<char>, count: nat)
    ensures
        repeated(s, count).len() == count * s.len(),
        forall|k: int, i: int|
            0 <= k < count && 0 <= i < s.len() ==> repeated(s, count)[#[trigger] (k * s.len()
                + i)] == s[i],
    decreases count,
{
    if count == 0 {
        assert(0 * s.len() == 0) by (nonlinear_arith);
    } else {
        let less = (count - 1) as nat;
        law_repeated(s, less);
        assert(count * s.len() == less * s.len() + s.len()) by (nonlinear_arith)
            requires
                count == less + 1,
        ;
        assert forall|k: int, i: int| 0 <= k < count && 0 <= i < s.len() implies repeated(s, count)[
        #[trigger] (k * s.len() + i)] == s[i] by {
            if k < less {
                assert(0 <= k * s.len() + i < less * s.len()) by (nonlinear_arith)
                    requires
                        0 <= k < less,
                        0 <= i < s.len(),
                ;
                assert(repeated(s, less)[k * s.len() + i] == s[i]);
            } else {
                assert(k * s.len() == less * s.len()) by (nonlinear_arith)
                    requires
                        k == less,
                ;
            }
        }
    }
}

/// Trimming takes the white space at both ends away and nothing else.
pub proof fn law_trimmed(s: Seq<char>)
    ensures
        exists|i: int, j: int|
            {
                &&& 0 <= i <= j <= s.len()
                &&& trimmed(s) == #[trigger] s.subrange(i, j)
                &&& forall|k: int| 0 <= k < i || j <= k < s.len() ==> is_space(#[trigger] s[k])
                &&& i < j ==> !is_space(s[i]) && !is_space(s[j - 1])
            },
{
    let j = run_start(s, s.len() as int, space_test());
    lemma_run_start(s, s.len() as int, space_test());
    let t = s.take(j);
    let i = run_end(t, 0, space_test());
    lemma_run_end(t, 0, space_test());
    assert(trimmed(s) =~= s.subrange(i, j));
    assert forall|k: int| 0 <= k < i || j <= k < s.len() implies is_space(#[trigger] s[k]) by {
        if k < i {
            assert(space_test()(t[k]));
            assert(t[k] == s[k]);
        } else {
            assert(space_test()(s[k]));
        }
    }
    if i < j {
        assert(!space_test()(t[i]));
        assert(t[i] == s[i]);
        assert(!space_test()(s[j - 1]));
    }
}

/// A run that ends at a position starts behind the last character that does not
/// pass.
pub proof fn lemma_run_start(s: Seq<char>, pos: int, test: CharTest)
    requires
        0 <= pos <= s.len(),
    ensures
        0 <= run_start(s, pos, test) <= pos,
        forall|k: int| run_start(s, pos, test) <= k < pos ==> test(#[trigger] s[k]),
        run_start(s, pos, test) > 0 ==> !test(s[run_start(s, pos, test) - 1]),
    decreases pos,
{
    if pos > 0 && test(s[pos - 1]) {
        lemma_run_start(s, pos - 1, test);
    }
}

/// Upper and lower case differ for the letters of ASCII, one for one, and any other
/// character has only one form.
pub proof fn law_case(c: char)
    ensures
        'a' <= c <= 'z' ==> lower(c) == c && 'A' <= upper(c) <= 'Z' && lower(upper(c)) == c,
        'A' <= c <= 'Z' ==> upper(c) == c && 'a' <= lower(c) <= 'z' && upper(lower(c)) == c,
        !('a' <= c <= 'z') && !('A' <= c <= 'Z') ==> lower(c) == c && upper(c) == c,
        lower('A') == 'a' && lower('Z') == 'z' && upper('a') == 'A' && upper('z') == 'Z',
{
}

} // verus!
