//! JSON texts as expressions.
//!
//! The compact JSON notation of a value is an expression of the language. Here
//! its tokens and its tree are given, and it is shown that it evaluates to a
//! value equal to the one that was written.
use crate::double::{
    from_int, is_finite, lemma_from_int_finite, lemma_opposite, one, opposite, value,
};
use crate::expressions::ast::{Key, Part, Tree, UnaryOp};
use crate::expressions::error::Failure;
use crate::expressions::eval::{
    eval_all, eval_entries, eval_key, eval_part, eval_parts, eval_tree, grown, object_values,
    objects_of, only, unary_each, unary_of, with_each,
};
use crate::expressions::lexer::{
    Lexeme, Token, blank_end, char_in, double_symbol, hex_digits, hex_end, hex_number, hex_value,
    ident_test, is_ident_part, is_ident_start, mantissa_end, next_batch, number_end, segments,
    single_symbol, string_rest, tokens_from,
};
use crate::expressions::operators::is_equal;
use crate::expressions::parser::{
    is_keyword, joint, p_array, p_base, p_chain, p_chain_rest, p_key, p_name, p_object, p_postfix,
    p_string, p_unary, spliced,
};
use crate::json::{Json, Members, Number};
use crate::number::{
    behind_sign, decimal_number, digit_test, digits_end, exponent_part, fraction, has_minus,
    has_point, has_sign, nearest, whole_end,
};
use crate::text::{
    CharTest, decimal, digit_char, is_ascii_letter, is_digit, is_space, joined,
    lemma_decimal_reads_back, lemma_less_irreflexive, lemma_less_transitive, lemma_run_end,
    run_end, space_test, text_less,
};
use crate::value::{
    double_json, escape, escaped, inserted, is_canonical, is_sorted, is_written, item_texts,
    json_as_double, json_text, lemma_double_json, lookup, member_texts, number_double,
    number_text, quoted,
};
use vstd::arithmetic::power::*;
use vstd::prelude::*;

verus! {

/// Whether a text stands at a position of another.
pub open spec fn stands_at(s: Seq<char>, pos: int, t: Seq<char>) -> bool {
    &&& 0 <= pos
    &&& pos + t.len() <= s.len()
    &&& s.subrange(pos, pos + t.len()) == t
}

/// The characters of a text that stands at a position.
pub proof fn lemma_stands_at(s: Seq<char>, pos: int, t: Seq<char>)
    requires
        stands_at(s, pos, t),
    ensures
        forall|i: int| 0 <= i < t.len() ==> s[pos + i] == #[trigger] t[i],
{
    let w = s.subrange(pos, pos + t.len());
    assert forall|i: int| 0 <= i < t.len() implies s[pos + i] == #[trigger] t[i] by {
        assert(w[i] == s[pos + i]);
    }
}

/// Where the parts of a text stand.
pub proof fn lemma_stands_apart(s: Seq<char>, pos: int, a: Seq<char>, b: Seq<char>)
    requires
        stands_at(s, pos, a + b),
    ensures
        stands_at(s, pos, a),
        stands_at(s, pos + a.len(), b),
{
    lemma_stands_at(s, pos, a + b);
    assert forall|i: int| 0 <= i < a.len() implies s[pos + i] == #[trigger] a[i] by {
        assert((a + b)[i] == a[i]);
    }
    assert forall|i: int| 0 <= i < b.len() implies s[pos + a.len() + i] == #[trigger] b[i] by {
        assert((a + b)[a.len() + i] == b[i]);
    }
    assert(s.subrange(pos, pos + a.len()) =~= a);
    assert(s.subrange(pos + a.len(), pos + a.len() + b.len()) =~= b);
}

/// A run inside a text that stands at a position.
pub proof fn lemma_run_at(s: Seq<char>, pos: int, t: Seq<char>, from: int, test: CharTest)
    requires
        stands_at(s, pos, t),
        0 <= from <= t.len(),
        pos + t.len() < s.len() ==> !test(s[pos + t.len()]),
    ensures
        run_end(s, pos + from, test) == pos + run_end(t, from, test),
    decreases t.len() - from,
{
    lemma_stands_at(s, pos, t);
    if from < t.len() {
        assert(s[pos + from] == t[from]);
        if test(t[from]) {
            lemma_run_at(s, pos, t, from + 1, test);
        }
    }
}

// ---------------------------------------------------------------------------
// Tokens
// ---------------------------------------------------------------------------

/// Tokens put before the tokens of a rest.
pub open spec fn led(head: Seq<Lexeme>, rest: Result<Seq<Lexeme>, Failure>) -> Result<
    Seq<Lexeme>,
    Failure,
> {
    match rest {
        Ok(toks) => Ok(head + toks),
        Err(e) => Err(e),
    }
}

/// Tokens can be put before a rest one after the other.
pub proof fn lemma_led(a: Seq<Lexeme>, b: Seq<Lexeme>, rest: Result<Seq<Lexeme>, Failure>)
    ensures
        led(a, led(b, rest)) == led(a + b, rest),
{
    match rest {
        Ok(toks) => assert(a + (b + toks) =~= (a + b) + toks),
        Err(_) => {},
    }
}

/// Whether a position is at the end of a text or at a character that ends a
/// value inside another.
pub open spec fn ends_value(s: Seq<char>, pos: int) -> bool {
    pos == s.len() || (0 <= pos < s.len() && (s[pos] == ',' || s[pos] == ']' || s[pos] == '}'
        || s[pos] == ')' || s[pos] == ' '))
}

/// Where no white space and no comment starts, nothing is skipped.
pub proof fn lemma_no_blank(s: Seq<char>, pos: int)
    requires
        0 <= pos <= s.len(),
        pos < s.len() ==> !is_space(s[pos]) && s[pos] != '#',
    ensures
        blank_end(s, pos) == pos,
{
}

/// One space before something else is skipped.
pub proof fn lemma_one_blank(s: Seq<char>, pos: int)
    requires
        0 <= pos < s.len(),
        s[pos] == ' ',
        pos + 1 < s.len() ==> !is_space(s[pos + 1]) && s[pos + 1] != '#',
    ensures
        blank_end(s, pos) == pos + 1,
{
    assert(space_test()(s[pos]));
    assert(run_end(s, pos + 1, space_test()) == pos + 1);
}

/// A token of one character.
pub proof fn lemma_single(s: Seq<char>, pos: int, p: int)
    requires
        0 <= pos <= p < s.len(),
        blank_end(s, pos) == p,
        single_symbol(s[p]) is Some,
        p + 1 < s.len() ==> double_symbol(s[p], s[p + 1]) is None,
    ensures
        tokens_from(s, pos) == led(
            seq![Lexeme::Fixed(single_symbol(s[p]).unwrap())],
            tokens_from(s, p + 1),
        ),
{
    let l = Lexeme::Fixed(single_symbol(s[p]).unwrap());
    assert(next_batch(s, pos) == Ok::<(Seq<Lexeme>, int), Failure>((seq![l], p + 1)));
}

/// The end token.
pub proof fn lemma_end(s: Seq<char>, pos: int)
    requires
        0 <= pos <= s.len(),
        blank_end(s, pos) == s.len(),
    ensures
        tokens_from(s, pos) == Ok::<Seq<Lexeme>, Failure>(seq![Lexeme::Fixed(Token::Eof)]),
{
}

/// A word that does not go on behind its end.
pub proof fn lemma_word(s: Seq<char>, pos: int, p: int, name: Seq<char>)
    requires
        0 <= pos <= p,
        blank_end(s, pos) == p,
        stands_at(s, p, name),
        name.len() > 0,
        is_ident_start(name[0]),
        forall|i: int| 0 <= i < name.len() ==> is_ident_part(#[trigger] name[i]),
        p + name.len() < s.len() ==> !is_ident_part(s[p + name.len()]),
    ensures
        tokens_from(s, pos) == led(seq![Lexeme::Ident(name)], tokens_from(s, p + name.len())),
{
    lemma_stands_at(s, p, name);
    assert(s[p + 0] == name[0]);
    lemma_run_at(s, p, name, 0, ident_test());
    lemma_run_full(name, 0, ident_test());
    assert(double_symbol(s[p], s[p + 1]) is None);
    assert(single_symbol(s[p]) is None);
    assert(!is_digit(s[p]));
    assert(next_batch(s, pos) == Ok::<(Seq<Lexeme>, int), Failure>(
        (seq![Lexeme::Ident(name)], p + name.len()),
    ));
}

/// A run of characters that all pass goes to the end.
pub proof fn lemma_run_full(t: Seq<char>, from: int, test: CharTest)
    requires
        0 <= from <= t.len(),
        forall|i: int| from <= i < t.len() ==> test(#[trigger] t[i]),
    ensures
        run_end(t, from, test) == t.len(),
    decreases t.len() - from,
{
    if from < t.len() {
        lemma_run_full(t, from + 1, test);
    }
}

// ---------------------------------------------------------------------------
// Numbers
// ---------------------------------------------------------------------------

/// Whether a text is a decimal number that starts with a digit.
pub open spec fn is_plain_number(t: Seq<char>) -> bool {
    t.len() > 0 && is_digit(t[0]) && decimal_number(t) is Some
}

/// A decimal number inside a text ends where a value ends.
proof fn lemma_number_end(s: Seq<char>, pos: int, t: Seq<char>)
    requires
        stands_at(s, pos, t),
        is_plain_number(t),
        ends_value(s, pos + t.len()),
    ensures
        number_end(s, pos) == pos + t.len(),
{
    lemma_stands_at(s, pos, t);
    assert(behind_sign(t) == t);
    let w = whole_end(t);
    lemma_run_end(t, 0, digit_test());
    lemma_run_at(s, pos, t, 0, digit_test());
    assert(run_end(s, pos, digit_test()) == pos + w);
    assert(char_in(s, pos + w, '.', '.') == has_point(t)) by {
        if w < t.len() {
            assert(s[pos + w] == t[w]);
        }
    }
    if has_point(t) {
        lemma_run_end(t, w + 1, digit_test());
        lemma_run_at(s, pos, t, w + 1, digit_test());
    }
    let d = digits_end(t);
    assert(mantissa_end(s, pos) == pos + d);
    let rest = t.skip(d);
    assert(exponent_part(rest) is Some);
    if rest.len() > 0 {
        assert(t[d] == rest[0]);
        assert(s[pos + d] == t[d]);
        let more = rest.skip(1);
        let body = behind_sign(more);
        assert(more.len() > 0);
        assert(more[0] == t[d + 1]);
        assert(s[pos + d + 1] == t[d + 1]);
        let from = if has_sign(more) {
            d + 2
        } else {
            d + 1
        };
        assert forall|i: int| from <= i < t.len() implies digit_test()(#[trigger] t[i]) by {
            assert(t[i] == body[i - from]);
        }
        lemma_run_full(t, from, digit_test());
        lemma_run_at(s, pos, t, from, digit_test());
    }
}

/// The token of a decimal number inside a text.
pub proof fn lemma_number(s: Seq<char>, pos: int, t: Seq<char>)
    requires
        stands_at(s, pos, t),
        is_plain_number(t),
        ends_value(s, pos + t.len()),
    ensures
        tokens_from(s, pos) == led(
            seq![Lexeme::Number(nearest(decimal_number(t).unwrap()))],
            tokens_from(s, pos + t.len()),
        ),
{
    lemma_stands_at(s, pos, t);
    assert(s[pos + 0] == t[0]);
    lemma_no_blank(s, pos);
    lemma_number_end(s, pos, t);
    assert(pos + 1 < s.len() ==> double_symbol(s[pos], s[pos + 1]) is None);
    assert(single_symbol(s[pos]) is None);
    assert(next_batch(s, pos) == Ok::<(Seq<Lexeme>, int), Failure>(
        (seq![Lexeme::Number(nearest(decimal_number(t).unwrap()))], pos + t.len()),
    ));
}

/// The notation of a number behind its minus sign.
pub open spec fn unsigned_text(n: Number) -> Seq<char> {
    if has_minus(number_text(n)) {
        number_text(n).skip(1)
    } else {
        number_text(n)
    }
}

/// The double that the notation of a number denotes behind its minus sign.
pub open spec fn unsigned_double(n: Number) -> u64 {
    nearest(decimal_number(unsigned_text(n)).unwrap())
}

/// The decimal notation of a natural number denotes the nearest double.
pub proof fn lemma_decimal_denotes(n: nat)
    ensures
        is_plain_number(decimal(n)),
        !has_minus(decimal(n)),
        nearest(decimal_number(decimal(n)).unwrap()) == from_int(n as int),
{
    let t = decimal(n);
    lemma_decimal_reads_back(n);
    assert(is_digit(t[0]));
    assert(behind_sign(t) == t);
    lemma_run_full(t, 0, digit_test());
    assert(t.take(whole_end(t)) + fraction(t) =~= t);
    assert(t.skip(digits_end(t)) =~= Seq::empty());
    lemma_pow0(10);
    assert(n * 1 * one() == n * one()) by (nonlinear_arith);
}

/// What the notation of a number is and denotes.
pub proof fn lemma_number_text(n: Number)
    requires
        is_canonical(Json::Number(n)),
        is_written(Json::Number(n)),
    ensures
        is_plain_number(unsigned_text(n)),
        is_finite(unsigned_double(n)),
        is_finite(number_double(n)),
        value(number_double(n)) == if has_minus(number_text(n)) {
            -value(unsigned_double(n))
        } else {
            value(unsigned_double(n))
        },
{
    match n {
        Number::PosInt(u) => {
            lemma_decimal_denotes(u as nat);
            lemma_from_int_finite(u as int);
        },
        Number::NegInt(i) => {
            let k = (-(i as int)) as nat;
            lemma_decimal_denotes(k);
            lemma_from_int_finite(k as int);
            assert(number_text(n).skip(1) =~= decimal(k));
            lemma_opposite(from_int(k as int));
            assert(opposite(from_int(k as int)) == from_int(i as int));
        },
        Number::Float(bits) => {
            let t = number_text(n);
            let body = unsigned_text(n);
            if has_minus(t) {
                assert(behind_sign(t) == body);
                assert(behind_sign(body) == body);
                lemma_opposite(bits);
                assert(unsigned_double(n) == opposite(bits));
            }
        },
    }
}

/// The tokens of the notation of a number.
pub open spec fn number_tokens(n: Number) -> Seq<Lexeme> {
    if has_minus(number_text(n)) {
        seq![Lexeme::Fixed(Token::Minus), Lexeme::Number(unsigned_double(n))]
    } else {
        seq![Lexeme::Number(unsigned_double(n))]
    }
}

/// Lexing the notation of a number.
pub proof fn lemma_lex_number(n: Number, s: Seq<char>, pos: int)
    requires
        is_canonical(Json::Number(n)),
        is_written(Json::Number(n)),
        stands_at(s, pos, number_text(n)),
        ends_value(s, pos + number_text(n).len()),
    ensures
        tokens_from(s, pos) == led(number_tokens(n), tokens_from(s, pos + number_text(n).len())),
{
    let t = number_text(n);
    let body = unsigned_text(n);
    lemma_number_text(n);
    if has_minus(t) {
        assert(t =~= seq!['-'] + body);
        lemma_stands_apart(s, pos, seq!['-'], body);
        lemma_stands_at(s, pos, t);
        assert(s[pos + 0] == t[0]);
        lemma_no_blank(s, pos);
        lemma_single(s, pos, pos);
        lemma_number(s, pos + 1, body);
        lemma_led(
            seq![Lexeme::Fixed(Token::Minus)],
            seq![Lexeme::Number(unsigned_double(n))],
            tokens_from(s, pos + t.len()),
        );
        assert(seq![Lexeme::Fixed(Token::Minus)] + seq![Lexeme::Number(unsigned_double(n))]
            =~= number_tokens(n));
    } else {
        lemma_number(s, pos, body);
    }
}

// ---------------------------------------------------------------------------
// Strings
// ---------------------------------------------------------------------------

/// The notation of a text starts with that of its first character.
proof fn lemma_escaped_first(w: Seq<char>)
    requires
        w.len() > 0,
    ensures
        escaped(w) == escape(w[0]) + escaped(w.skip(1)),
    decreases w.len(),
{
    if w.len() == 1 {
        assert(w.drop_last() =~= Seq::empty());
        assert(w.skip(1) =~= Seq::empty());
        assert(escaped(w.drop_last()) =~= Seq::empty());
        assert(escaped(w.skip(1)) =~= Seq::empty());
        assert(escaped(w) =~= escape(w[0]) + escaped(w.skip(1)));
    } else {
        lemma_escaped_first(w.drop_last());
        assert(w.drop_last().skip(1) =~= w.skip(1).drop_last());
        assert(w.skip(1).last() == w.last());
        assert(escaped(w) =~= escape(w[0]) + escaped(w.skip(1)));
    }
}

/// The control characters are written with two hexadecimal digits.
proof fn lemma_control(c: char)
    requires
        (c as u32) < 0x20,
    ensures
        hex_number(seq!['0', '0', digit_char((c as nat) / 16), digit_char((c as nat) % 16)])
            == Some(c as nat),
{
    let hi = (c as nat) / 16;
    let lo = (c as nat) % 16;
    let h = digit_char(hi);
    let l = digit_char(lo);
    assert(hex_value(h) == Some(hi));
    assert(hex_value(l) == Some(lo));
    let s0 = Seq::<char>::empty();
    let s1 = seq!['0'];
    let s2 = seq!['0', '0'];
    let s3 = seq!['0', '0', h];
    let s4 = seq!['0', '0', h, l];
    assert(s1.drop_last() =~= s0);
    assert(s2.drop_last() =~= s1);
    assert(s3.drop_last() =~= s2);
    assert(s4.drop_last() =~= s3);
    assert(hex_digits(s0) == Some(0nat));
    assert(hex_value('0') == Some(0nat));
    assert(hex_digits(s1) == Some(0nat));
    assert(hex_digits(s2) == Some(0nat));
    assert(hex_digits(s3) == Some(hi));
    assert(hex_digits(s4) == Some(hi * 16 + lo));
}

/// Reading one character of a string.
proof fn lemma_read_char(s: Seq<char>, pos: int, c: char, literal: Seq<char>)
    requires
        stands_at(s, pos, escape(c)),
        pos + escape(c).len() < s.len(),
    ensures
        string_rest(s, pos, Seq::empty(), literal) == string_rest(
            s,
            pos + escape(c).len(),
            Seq::empty(),
            literal.push(c),
        ),
{
    let e = escape(c);
    lemma_stands_at(s, pos, e);
    assert(s[pos + 0] == e[0]);
    if e.len() > 1 {
        assert(s[pos + 1] == e[1]);
        if e.len() > 2 {
            lemma_control(c);
            let digits = seq!['0', '0', digit_char((c as nat) / 16), digit_char((c as nat) % 16)];
            assert(s.subrange(pos + 2, pos + 6) =~= digits) by {
                assert(s[pos + 2] == e[2]);
                assert(s[pos + 3] == e[3]);
                assert(s[pos + 4] == e[4]);
                assert(s[pos + 5] == e[5]);
            }
            assert(hex_end(s, pos + 2) == pos + 6);
            assert((c as nat) as char == c);
        }
    }
}

/// Reading the characters of a string up to the closing quotation mark.
proof fn lemma_read_string(s: Seq<char>, pos: int, w: Seq<char>, literal: Seq<char>)
    requires
        stands_at(s, pos, escaped(w)),
        pos + escaped(w).len() < s.len(),
        s[pos + escaped(w).len()] == '"',
    ensures
        string_rest(s, pos, Seq::empty(), literal) == Ok::<(Seq<Lexeme>, int), Failure>(
            (seq![Lexeme::Str(literal + w)], pos + escaped(w).len() + 1),
        ),
    decreases w.len(),
{
    if w.len() == 0 {
        assert(literal + w =~= literal);
        if literal.len() == 0 {
            assert(literal =~= Seq::empty());
        }
        assert(segments(Seq::empty(), literal) =~= seq![Lexeme::Str(literal)]);
    } else {
        lemma_escaped_first(w);
        lemma_stands_apart(s, pos, escape(w[0]), escaped(w.skip(1)));
        lemma_read_char(s, pos, w[0], literal);
        lemma_read_string(s, pos + escape(w[0]).len(), w.skip(1), literal.push(w[0]));
        assert(literal.push(w[0]) + w.skip(1) =~= literal + w);
    }
}

/// Lexing the notation of a string.
proof fn lemma_lex_string(w: Seq<char>, s: Seq<char>, pos: int)
    requires
        stands_at(s, pos, quoted(w)),
    ensures
        tokens_from(s, pos) == led(
            seq![Lexeme::Str(w)],
            tokens_from(s, pos + quoted(w).len()),
        ),
{
    let e = escaped(w);
    assert(quoted(w) =~= seq!['"'] + (e + seq!['"']));
    lemma_stands_apart(s, pos, seq!['"'], e + seq!['"']);
    lemma_stands_apart(s, pos + 1, e, seq!['"']);
    lemma_stands_at(s, pos, seq!['"']);
    lemma_stands_at(s, pos + 1 + e.len(), seq!['"']);
    assert(s[pos + 0] == seq!['"'][0]);
    assert(s[pos + 1 + e.len() + 0] == seq!['"'][0]);
    lemma_no_blank(s, pos);
    lemma_read_string(s, pos + 1, w, Seq::empty());
    assert(Seq::<char>::empty() + w =~= w);
    assert(next_batch(s, pos) == Ok::<(Seq<Lexeme>, int), Failure>(
        (seq![Lexeme::Str(w)], pos + quoted(w).len()),
    ));
}

// ---------------------------------------------------------------------------
// Values
// ---------------------------------------------------------------------------

/// The tokens of the notation of a value.
pub open spec fn json_tokens(j: Json) -> Seq<Lexeme>
    decreases j, 1nat,
{
    match j {
        Json::Null => seq![Lexeme::Ident("null"@)],
        Json::Bool(true) => seq![Lexeme::Ident("true"@)],
        Json::Bool(false) => seq![Lexeme::Ident("false"@)],
        Json::Number(n) => number_tokens(n),
        Json::String(s) => seq![Lexeme::Str(s)],
        Json::Array(items) => seq![Lexeme::Fixed(Token::LBracket)] + item_tokens(items) + seq![
            Lexeme::Fixed(Token::RBracket),
        ],
        Json::Object(m) => seq![Lexeme::Fixed(Token::LBrace)] + member_tokens(m) + seq![
            Lexeme::Fixed(Token::RBrace),
        ],
    }
}

/// The tokens of items with commas between them.
pub open spec fn item_tokens(items: Seq<Json>) -> Seq<Lexeme>
    decreases items, 0nat,
{
    if items.len() == 0 {
        Seq::empty()
    } else if items.len() == 1 {
        json_tokens(items[0])
    } else {
        json_tokens(items[0]) + seq![Lexeme::Fixed(Token::Comma)] + item_tokens(items.skip(1))
    }
}

/// The tokens of members with commas between them.
pub open spec fn member_tokens(m: Members) -> Seq<Lexeme>
    decreases m, 0nat,
{
    if m.len() == 0 {
        Seq::empty()
    } else {
        let first = seq![Lexeme::Str(m[0].0), Lexeme::Fixed(Token::Colon)] + json_tokens(m[0].1);
        if m.len() == 1 {
            first
        } else {
            first + seq![Lexeme::Fixed(Token::Comma)] + member_tokens(m.skip(1))
        }
    }
}

/// Parts joined start with the first of them.
proof fn lemma_joined_first(parts: Seq<Seq<char>>, sep: Seq<char>)
    requires
        parts.len() > 1,
    ensures
        joined(parts, sep) == parts[0] + sep + joined(parts.skip(1), sep),
    decreases parts.len(),
{
    let rest = parts.skip(1);
    if parts.len() == 2 {
        assert(joined(parts.drop_last(), sep) == parts[0]);
    } else {
        lemma_joined_first(parts.drop_last(), sep);
        assert(parts.drop_last().skip(1) =~= rest.drop_last());
        assert(joined(parts, sep) =~= parts[0] + sep + joined(rest, sep));
    }
}

/// The texts of items start with that of the first.
proof fn lemma_item_texts(items: Seq<Json>)
    requires
        items.len() > 0,
    ensures
        item_texts(items).len() == items.len(),
        item_texts(items)[0] == json_text(items[0]),
        item_texts(items).skip(1) == item_texts(items.skip(1)),
    decreases items.len(),
{
    if items.len() == 1 {
        assert(items.drop_last() =~= Seq::empty());
        assert(item_texts(items.drop_last()) =~= Seq::empty());
        assert(items.skip(1) =~= Seq::empty());
        assert(item_texts(items).skip(1) =~= item_texts(items.skip(1)));
    } else {
        lemma_item_texts(items.drop_last());
        assert(items.drop_last().skip(1) =~= items.skip(1).drop_last());
        assert(items.skip(1).last() == items.last());
        assert(item_texts(items).skip(1) =~= item_texts(items.skip(1)));
    }
}

/// The notation of a member.
pub open spec fn member_text(e: (Seq<char>, Json)) -> Seq<char> {
    quoted(e.0) + ":"@ + json_text(e.1)
}

/// The texts of members start with that of the first.
proof fn lemma_member_texts(m: Members)
    requires
        m.len() > 0,
    ensures
        member_texts(m).len() == m.len(),
        member_texts(m)[0] == member_text(m[0]),
        member_texts(m).skip(1) == member_texts(m.skip(1)),
    decreases m.len(),
{
    if m.len() == 1 {
        assert(m.drop_last() =~= Seq::empty());
        assert(member_texts(m.drop_last()) =~= Seq::empty());
        assert(m.skip(1) =~= Seq::empty());
        assert(member_texts(m).skip(1) =~= member_texts(m.skip(1)));
    } else {
        lemma_member_texts(m.drop_last());
        assert(m.drop_last().skip(1) =~= m.skip(1).drop_last());
        assert(m.skip(1).last() == m.last());
        assert(member_texts(m).skip(1) =~= member_texts(m.skip(1)));
    }
}

/// A symbol of one character at a position, with tokens before and behind it.
proof fn lemma_lex_symbol(
    s: Seq<char>,
    from: int,
    head: Seq<Lexeme>,
    pos: int,
    symbol: Seq<char>,
    token: Token,
)
    requires
        stands_at(s, pos, symbol),
        symbol.len() == 1,
        single_symbol(symbol[0]) == Some(token),
        symbol[0] == '[' || symbol[0] == ']' || symbol[0] == '{' || symbol[0] == '}' || symbol[0]
            == ',' || symbol[0] == ':',
        tokens_from(s, from) == led(head, tokens_from(s, pos)),
    ensures
        tokens_from(s, pos) == led(seq![Lexeme::Fixed(token)], tokens_from(s, pos + 1)),
        tokens_from(s, from) == led(head + seq![Lexeme::Fixed(token)], tokens_from(s, pos + 1)),
{
    lemma_stands_at(s, pos, symbol);
    assert(s[pos + 0] == symbol[0]);
    lemma_no_blank(s, pos);
    lemma_single(s, pos, pos);
    lemma_led(head, seq![Lexeme::Fixed(token)], tokens_from(s, pos + 1));
}

/// Lexing the notation of a value.
pub proof fn lemma_lex_value(j: Json, s: Seq<char>, pos: int)
    requires
        is_canonical(j),
        is_written(j),
        stands_at(s, pos, json_text(j)),
        ends_value(s, pos + json_text(j).len()),
    ensures
        tokens_from(s, pos) == led(json_tokens(j), tokens_from(s, pos + json_text(j).len())),
    decreases j, 1nat,
{
    match j {
        Json::Null => {
            reveal_strlit("null");
            lemma_lex_word(s, pos, "null"@);
        },
        Json::Bool(true) => {
            reveal_strlit("true");
            lemma_lex_word(s, pos, "true"@);
        },
        Json::Bool(false) => {
            reveal_strlit("false");
            lemma_lex_word(s, pos, "false"@);
        },
        Json::Number(n) => lemma_lex_number(n, s, pos),
        Json::String(w) => lemma_lex_string(w, s, pos),
        Json::Array(items) => lemma_lex_array(items, s, pos),
        Json::Object(m) => lemma_lex_object(m, s, pos),
    }
}

/// Lexing the notation of an array.
proof fn lemma_lex_array(items: Seq<Json>, s: Seq<char>, pos: int)
    requires
        forall|i: int| 0 <= i < items.len() ==> is_canonical(#[trigger] items[i]),
        forall|i: int| 0 <= i < items.len() ==> is_written(#[trigger] items[i]),
        stands_at(s, pos, json_text(Json::Array(items))),
    ensures
        tokens_from(s, pos) == led(
            json_tokens(Json::Array(items)),
            tokens_from(s, pos + json_text(Json::Array(items)).len()),
        ),
    decreases items, 1nat,
{
    let t = json_text(Json::Array(items));
    reveal_strlit("[");
    reveal_strlit("]");
    let body = joined(item_texts(items), ","@);
    assert(t == "["@ + body + "]"@);
    assert(t =~= "["@ + (body + "]"@));
    lemma_stands_apart(s, pos, "["@, body + "]"@);
    lemma_stands_apart(s, pos + 1, body, "]"@);
    let none = Seq::<Lexeme>::empty();
    lemma_led_none(tokens_from(s, pos));
    lemma_lex_symbol(s, pos, none, pos, "["@, Token::LBracket);
    let open = seq![Lexeme::Fixed(Token::LBracket)];
    assert(none + open =~= open);
    let end = pos + 1 + body.len();
    lemma_stands_at(s, end, "]"@);
    assert(s[end + 0] == "]"@[0]);
    lemma_lex_items(items, s, pos + 1);
    lemma_led(open, item_tokens(items), tokens_from(s, end));
    lemma_lex_symbol(s, pos, open + item_tokens(items), end, "]"@, Token::RBracket);
}

/// Lexing the notation of an object.
proof fn lemma_lex_object(m: Members, s: Seq<char>, pos: int)
    requires
        forall|i: int| 0 <= i < m.len() ==> is_canonical((#[trigger] m[i]).1),
        forall|i: int| 0 <= i < m.len() ==> is_written((#[trigger] m[i]).1),
        stands_at(s, pos, json_text(Json::Object(m))),
    ensures
        tokens_from(s, pos) == led(
            json_tokens(Json::Object(m)),
            tokens_from(s, pos + json_text(Json::Object(m)).len()),
        ),
    decreases m, 1nat,
{
    let t = json_text(Json::Object(m));
    reveal_strlit("{");
    reveal_strlit("}");
    let body = joined(member_texts(m), ","@);
    assert(t == "{"@ + body + "}"@);
    assert(t =~= "{"@ + (body + "}"@));
    lemma_stands_apart(s, pos, "{"@, body + "}"@);
    lemma_stands_apart(s, pos + 1, body, "}"@);
    let none = Seq::<Lexeme>::empty();
    lemma_led_none(tokens_from(s, pos));
    lemma_lex_symbol(s, pos, none, pos, "{"@, Token::LBrace);
    let open = seq![Lexeme::Fixed(Token::LBrace)];
    assert(none + open =~= open);
    let end = pos + 1 + body.len();
    lemma_stands_at(s, end, "}"@);
    assert(s[end + 0] == "}"@[0]);
    lemma_lex_members(m, s, pos + 1);
    lemma_led(open, member_tokens(m), tokens_from(s, end));
    lemma_lex_symbol(s, pos, open + member_tokens(m), end, "}"@, Token::RBrace);
}

/// No tokens before a rest.
proof fn lemma_led_none(rest: Result<Seq<Lexeme>, Failure>)
    ensures
        led(Seq::empty(), rest) == rest,
{
    match rest {
        Ok(toks) => assert(Seq::<Lexeme>::empty() + toks =~= toks),
        Err(_) => {},
    }
}

/// Lexing a word of letters.
proof fn lemma_lex_word(s: Seq<char>, pos: int, word: Seq<char>)
    requires
        stands_at(s, pos, word),
        word.len() > 0,
        forall|i: int| 0 <= i < word.len() ==> is_ascii_letter(#[trigger] word[i]),
        ends_value(s, pos + word.len()),
    ensures
        tokens_from(s, pos) == led(seq![Lexeme::Ident(word)], tokens_from(s, pos + word.len())),
{
    lemma_stands_at(s, pos, word);
    assert(s[pos + 0] == word[0]);
    lemma_no_blank(s, pos);
    lemma_word(s, pos, pos, word);
}

/// Lexing the notation of items.
proof fn lemma_lex_items(items: Seq<Json>, s: Seq<char>, pos: int)
    requires
        forall|i: int| 0 <= i < items.len() ==> is_canonical(#[trigger] items[i]),
        forall|i: int| 0 <= i < items.len() ==> is_written(#[trigger] items[i]),
        stands_at(s, pos, joined(item_texts(items), ","@)),
        ends_value(s, pos + joined(item_texts(items), ","@).len()),
    ensures
        tokens_from(s, pos) == led(
            item_tokens(items),
            tokens_from(s, pos + joined(item_texts(items), ","@).len()),
        ),
    decreases items, 0nat,
{
    let texts = item_texts(items);
    if items.len() == 0 {
        lemma_led_none(tokens_from(s, pos));
    } else {
        lemma_item_texts(items);
        if items.len() == 1 {
            lemma_lex_value(items[0], s, pos);
        } else {
            reveal_strlit(",");
            let first = json_text(items[0]);
            let more = joined(texts.skip(1), ","@);
            lemma_joined_first(texts, ","@);
            assert(joined(texts, ","@) =~= first + (","@ + more));
            lemma_stands_apart(s, pos, first, ","@ + more);
            let at = pos + first.len();
            lemma_stands_apart(s, at, ","@, more);
            lemma_stands_at(s, at, ","@);
            assert(s[at + 0] == ","@[0]);
            lemma_lex_value(items[0], s, pos);
            lemma_lex_symbol(s, pos, json_tokens(items[0]), at, ","@, Token::Comma);
            let rest = items.skip(1);
            assert forall|i: int| 0 <= i < rest.len() implies is_canonical(#[trigger] rest[i])
                && is_written(rest[i]) by {
                assert(rest[i] == items[i + 1]);
            }
            lemma_lex_items(rest, s, at + 1);
            lemma_led(
                json_tokens(items[0]) + seq![Lexeme::Fixed(Token::Comma)],
                item_tokens(rest),
                tokens_from(s, pos + joined(texts, ","@).len()),
            );
        }
    }
}

/// Lexing the notation of one member.
proof fn lemma_lex_member(e: (Seq<char>, Json), s: Seq<char>, pos: int)
    requires
        is_canonical(e.1),
        is_written(e.1),
        stands_at(s, pos, member_text(e)),
        ends_value(s, pos + member_text(e).len()),
    ensures
        tokens_from(s, pos) == led(
            seq![Lexeme::Str(e.0), Lexeme::Fixed(Token::Colon)] + json_tokens(e.1),
            tokens_from(s, pos + member_text(e).len()),
        ),
    decreases e, 0nat,
{
    reveal_strlit(":");
    let key = quoted(e.0);
    let text = json_text(e.1);
    assert(member_text(e) =~= key + (":"@ + text));
    lemma_stands_apart(s, pos, key, ":"@ + text);
    lemma_stands_apart(s, pos + key.len(), ":"@, text);
    lemma_lex_string(e.0, s, pos);
    lemma_lex_symbol(s, pos, seq![Lexeme::Str(e.0)], pos + key.len(), ":"@, Token::Colon);
    assert(seq![Lexeme::Str(e.0)] + seq![Lexeme::Fixed(Token::Colon)] =~= seq![
        Lexeme::Str(e.0),
        Lexeme::Fixed(Token::Colon),
    ]);
    lemma_lex_value(e.1, s, pos + key.len() + 1);
    lemma_led(
        seq![Lexeme::Str(e.0), Lexeme::Fixed(Token::Colon)],
        json_tokens(e.1),
        tokens_from(s, pos + member_text(e).len()),
    );
}

/// Lexing the notation of members.
proof fn lemma_lex_members(m: Members, s: Seq<char>, pos: int)
    requires
        forall|i: int| 0 <= i < m.len() ==> is_canonical((#[trigger] m[i]).1),
        forall|i: int| 0 <= i < m.len() ==> is_written((#[trigger] m[i]).1),
        stands_at(s, pos, joined(member_texts(m), ","@)),
        ends_value(s, pos + joined(member_texts(m), ","@).len()),
    ensures
        tokens_from(s, pos) == led(
            member_tokens(m),
            tokens_from(s, pos + joined(member_texts(m), ","@).len()),
        ),
    decreases m, 0nat,
{
    let texts = member_texts(m);
    if m.len() == 0 {
        lemma_led_none(tokens_from(s, pos));
    } else {
        lemma_member_texts(m);
        if m.len() == 1 {
            lemma_lex_member(m[0], s, pos);
        } else {
            reveal_strlit(",");
            let first = member_text(m[0]);
            let more = joined(texts.skip(1), ","@);
            lemma_joined_first(texts, ","@);
            assert(joined(texts, ","@) =~= first + (","@ + more));
            lemma_stands_apart(s, pos, first, ","@ + more);
            let at = pos + first.len();
            lemma_stands_apart(s, at, ","@, more);
            lemma_stands_at(s, at, ","@);
            assert(s[at + 0] == ","@[0]);
            lemma_lex_member(m[0], s, pos);
            let head = seq![Lexeme::Str(m[0].0), Lexeme::Fixed(Token::Colon)] + json_tokens(m[0].1);
            lemma_lex_symbol(s, pos, head, at, ","@, Token::Comma);
            let rest = m.skip(1);
            assert forall|i: int| 0 <= i < rest.len() implies is_canonical((#[trigger] rest[i]).1)
                && is_written(rest[i].1) by {
                assert(rest[i] == m[i + 1]);
            }
            lemma_lex_members(rest, s, at + 1);
            lemma_led(
                head + seq![Lexeme::Fixed(Token::Comma)],
                member_tokens(rest),
                tokens_from(s, pos + joined(texts, ","@).len()),
            );
        }
    }
}

// ---------------------------------------------------------------------------
// Trees
// ---------------------------------------------------------------------------

/// The tree of the notation of a number.
pub open spec fn number_tree(n: Number) -> Tree {
    let literal = Tree::Literal(double_json(unsigned_double(n)));
    if has_minus(number_text(n)) {
        Tree::Unary(UnaryOp::Negate, Box::new(literal))
    } else {
        literal
    }
}

/// The tree of the notation of a value.
pub open spec fn json_tree(j: Json) -> Tree
    decreases j, 1nat,
{
    match j {
        Json::Number(n) => number_tree(n),
        Json::String(s) => Tree::Str(seq![Part::Literal(s)]),
        Json::Array(items) => Tree::Array(item_trees(items)),
        Json::Object(m) => Tree::Object(member_trees(m)),
        _ => Tree::Literal(j),
    }
}

/// The trees of the notations of items.
pub open spec fn item_trees(items: Seq<Json>) -> Seq<Tree>
    decreases items, 0nat,
{
    if items.len() == 0 {
        Seq::empty()
    } else {
        seq![json_tree(items[0])] + item_trees(items.skip(1))
    }
}

/// The keys and trees of the notations of members.
pub open spec fn member_trees(m: Members) -> Seq<(Key, Tree)>
    decreases m, 0nat,
{
    if m.len() == 0 {
        Seq::empty()
    } else {
        seq![(Key::Str(m[0].0), json_tree(m[0].1))] + member_trees(m.skip(1))
    }
}

/// Whether tokens stand at a position of others, before a further one.
pub open spec fn tokens_at(toks: Seq<Lexeme>, pos: int, part: Seq<Lexeme>) -> bool {
    &&& 0 <= pos
    &&& pos + part.len() < toks.len()
    &&& toks.subrange(pos, pos + part.len()) == part
}

/// The tokens that stand at a position.
pub proof fn lemma_tokens_at(toks: Seq<Lexeme>, pos: int, part: Seq<Lexeme>)
    requires
        tokens_at(toks, pos, part),
    ensures
        forall|i: int| 0 <= i < part.len() ==> toks[pos + i] == #[trigger] part[i],
{
    let w = toks.subrange(pos, pos + part.len());
    assert forall|i: int| 0 <= i < part.len() implies toks[pos + i] == #[trigger] part[i] by {
        assert(w[i] == toks[pos + i]);
    }
}

/// Where the parts of tokens stand.
proof fn lemma_tokens_apart(toks: Seq<Lexeme>, pos: int, a: Seq<Lexeme>, b: Seq<Lexeme>)
    requires
        tokens_at(toks, pos, a + b),
    ensures
        tokens_at(toks, pos, a) || b.len() == 0,
        b.len() > 0 ==> toks[pos + a.len()] == b[0],
        tokens_at(toks, pos + a.len(), b),
{
    lemma_tokens_at(toks, pos, a + b);
    assert forall|i: int| 0 <= i < a.len() implies toks[pos + i] == #[trigger] a[i] by {
        assert((a + b)[i] == a[i]);
    }
    assert forall|i: int| 0 <= i < b.len() implies toks[pos + a.len() + i] == #[trigger] b[i] by {
        assert((a + b)[a.len() + i] == b[i]);
    }
    if b.len() > 0 {
        assert(toks[pos + a.len() + 0] == b[0]);
    }
    assert(toks.subrange(pos, pos + a.len()) =~= a);
    assert(toks.subrange(pos + a.len(), pos + a.len() + b.len()) =~= b);
}

/// Whether a token ends an expression.
pub open spec fn is_stop(l: Lexeme) -> bool {
    l == Lexeme::Fixed(Token::Comma) || l == Lexeme::Fixed(Token::RBracket) || l == Lexeme::Fixed(
        Token::RBrace,
    ) || l == Lexeme::Fixed(Token::Eof)
}

/// A unary expression before the end of an expression is an operand at every
/// level.
pub proof fn lemma_lifted(n: nat, toks: Seq<Lexeme>, pos: int, level: nat, t: Tree, p: int)
    requires
        p_unary(n, toks, pos) == Ok::<(Tree, int), Failure>((t, p)),
        0 <= pos < p < toks.len(),
        is_stop(toks[p]),
    ensures
        p_chain(n, toks, pos, level) == Ok::<(Tree, int), Failure>((t, p)),
    decreases level,
{
    if level > 0 {
        lemma_lifted(n, toks, pos, (level - 1) as nat, t, p);
        assert(joint(level, toks[p]) is None);
        assert(p_chain_rest(n, toks, p, level, t) == Ok::<(Tree, int), Failure>((t, p)));
        assert(p_chain(n, toks, pos, level) == p_chain_rest(n, toks, p, level, t));
    } else {
        assert(p_chain(n, toks, pos, 0) == p_unary(n, toks, pos));
    }
}

/// A base before the end of an expression is an operand at every level.
pub proof fn lemma_lifted_base(n: nat, toks: Seq<Lexeme>, pos: int, level: nat, t: Tree, p: int)
    requires
        p_base(n, toks, pos) == Ok::<(Tree, int), Failure>((t, p)),
        0 <= pos < p < toks.len(),
        is_stop(toks[p]),
        !is_keyword(toks[pos], "not"@),
        toks[pos] != Lexeme::Fixed(Token::Minus),
    ensures
        p_unary(n, toks, pos) == Ok::<(Tree, int), Failure>((t, p)),
        p_chain(n, toks, pos, level) == Ok::<(Tree, int), Failure>((t, p)),
{
    assert(p_postfix(n, toks, p, t) == Ok::<(Tree, int), Failure>((t, p)));
    lemma_lifted(n, toks, pos, level, t, p);
}

/// Parsing the notation of a number.
pub proof fn lemma_parse_number(num: Number, n: nat, toks: Seq<Lexeme>, pos: int, level: nat)
    requires
        tokens_at(toks, pos, number_tokens(num)),
        is_stop(toks[pos + number_tokens(num).len()]),
    ensures
        p_chain(n, toks, pos, level) == Ok::<(Tree, int), Failure>(
            (number_tree(num), pos + number_tokens(num).len()),
        ),
{
    let part = number_tokens(num);
    lemma_tokens_at(toks, pos, part);
    assert(toks[pos + 0] == part[0]);
    let literal = Tree::Literal(double_json(unsigned_double(num)));
    if has_minus(number_text(num)) {
        assert(toks[pos + 1] == part[1]);
        assert(p_base(n, toks, pos + 1) == Ok::<(Tree, int), Failure>((literal, pos + 2)));
        lemma_lifted_base(n, toks, pos + 1, 0, literal, pos + 2);
        assert(p_unary(n, toks, pos) == Ok::<(Tree, int), Failure>((number_tree(num), pos + 2)));
        lemma_lifted(n, toks, pos, level, number_tree(num), pos + 2);
    } else {
        assert(p_base(n, toks, pos) == Ok::<(Tree, int), Failure>((literal, pos + 1)));
        lemma_lifted_base(n, toks, pos, level, literal, pos + 1);
    }
}

/// Parsing a word that is a literal.
proof fn lemma_parse_word(j: Json, n: nat, toks: Seq<Lexeme>, pos: int, level: nat)
    requires
        j is Null || j is Bool,
        tokens_at(toks, pos, json_tokens(j)),
        is_stop(toks[pos + 1]),
    ensures
        p_chain(n, toks, pos, level) == Ok::<(Tree, int), Failure>((Tree::Literal(j), pos + 1)),
{
    let part = json_tokens(j);
    assert(part.len() == 1);
    lemma_tokens_at(toks, pos, part);
    assert(toks[pos + 0] == part[0]);
    reveal_strlit("true");
    reveal_strlit("false");
    reveal_strlit("null");
    reveal_strlit("not");
    let name = part[0]->Ident_0;
    assert("null"@[0] != "true"@[0] && "null"@[0] != "false"@[0] && "true"@[0] != "false"@[0]);
    assert("not"@.len() != name.len());
    assert(p_name(n, toks, pos, name) == Ok::<(Tree, int), Failure>((Tree::Literal(j), pos + 1)));
    lemma_lifted_base(n, toks, pos, level, Tree::Literal(j), pos + 1);
}

/// Parsing the notation of a string.
proof fn lemma_parse_string(w: Seq<char>, n: nat, toks: Seq<Lexeme>, pos: int, level: nat)
    requires
        0 <= pos,
        pos + 1 < toks.len(),
        toks[pos] == Lexeme::Str(w),
        is_stop(toks[pos + 1]),
    ensures
        p_chain(n, toks, pos, level) == Ok::<(Tree, int), Failure>(
            (Tree::Str(seq![Part::Literal(w)]), pos + 1),
        ),
{
    let t = Tree::Str(seq![Part::Literal(w)]);
    assert(p_string(n, toks, pos + 1, seq![Part::Literal(w)]) == Ok::<(Tree, int), Failure>(
        (t, pos + 1),
    ));
    lemma_lifted_base(n, toks, pos, level, t, pos + 1);
}

/// The notation of a value starts with a token that no bracket or brace closes.
pub proof fn lemma_first_token(j: Json)
    ensures
        json_tokens(j).len() > 0,
        json_tokens(j)[0] != Lexeme::Fixed(Token::RBracket),
        json_tokens(j)[0] != Lexeme::Fixed(Token::RBrace),
{
}

/// Parsing the notation of a value.
pub proof fn lemma_parse_value(j: Json, n: nat, toks: Seq<Lexeme>, pos: int, level: nat)
    requires
        tokens_at(toks, pos, json_tokens(j)),
        is_stop(toks[pos + json_tokens(j).len()]),
    ensures
        p_chain(n, toks, pos, level) == Ok::<(Tree, int), Failure>(
            (json_tree(j), pos + json_tokens(j).len()),
        ),
    decreases j, 1nat,
{
    let part = json_tokens(j);
    lemma_tokens_at(toks, pos, part);
    match j {
        Json::Number(num) => lemma_parse_number(num, n, toks, pos, level),
        Json::String(w) => {
            assert(toks[pos + 0] == part[0]);
            lemma_parse_string(w, n, toks, pos, level);
        },
        Json::Array(items) => {
            lemma_parse_array(items, n, toks, pos);
            assert(toks[pos + 0] == part[0]);
            lemma_lifted_base(n, toks, pos, level, json_tree(j), pos + part.len());
        },
        Json::Object(m) => {
            lemma_parse_object(m, n, toks, pos);
            assert(toks[pos + 0] == part[0]);
            lemma_lifted_base(n, toks, pos, level, json_tree(j), pos + part.len());
        },
        _ => lemma_parse_word(j, n, toks, pos, level),
    }
}

/// Parsing the notation of an array.
proof fn lemma_parse_array(items: Seq<Json>, n: nat, toks: Seq<Lexeme>, pos: int)
    requires
        tokens_at(toks, pos, json_tokens(Json::Array(items))),
    ensures
        p_base(n, toks, pos) == Ok::<(Tree, int), Failure>(
            (Tree::Array(item_trees(items)), pos + json_tokens(Json::Array(items)).len()),
        ),
    decreases items, 1nat,
{
    let open = seq![Lexeme::Fixed(Token::LBracket)];
    let body = item_tokens(items);
    let close = seq![Lexeme::Fixed(Token::RBracket)];
    let part = json_tokens(Json::Array(items));
    assert(part =~= open + (body + close));
    lemma_tokens_at(toks, pos, part);
    assert(toks[pos + 0] == part[0]);
    lemma_tokens_apart(toks, pos, open, body + close);
    lemma_tokens_apart(toks, pos + 1, body, close);
    if items.len() == 0 {
        assert(body =~= Seq::empty());
        assert(item_trees(items) =~= Seq::empty());
    } else {
        lemma_first_token(items[0]);
        assert(body[0] == json_tokens(items[0])[0]);
        lemma_tokens_at(toks, pos + 1, body);
        assert(toks[pos + 1 + 0] == body[0]);
        lemma_parse_items(items, n, toks, pos + 1, Seq::empty());
        assert(Seq::<Tree>::empty() + item_trees(items) =~= item_trees(items));
    }
}

/// Parsing the notation of items up to the closing bracket.
proof fn lemma_parse_items(
    items: Seq<Json>,
    n: nat,
    toks: Seq<Lexeme>,
    pos: int,
    done: Seq<Tree>,
)
    requires
        items.len() > 0,
        tokens_at(toks, pos, item_tokens(items)),
        toks[pos + item_tokens(items).len()] == Lexeme::Fixed(Token::RBracket),
    ensures
        p_array(n, toks, pos, done) == Ok::<(Tree, int), Failure>(
            (Tree::Array(done + item_trees(items)), pos + item_tokens(items).len() + 1),
        ),
    decreases items, 0nat,
{
    let first = json_tokens(items[0]);
    let rest = items.skip(1);
    let t = json_tree(items[0]);
    assert(spliced(done, t) == done.push(t));
    lemma_first_token(items[0]);
    if items.len() == 1 {
        lemma_parse_value(items[0], n, toks, pos, 6);
        assert(rest =~= Seq::empty());
        assert(item_trees(rest) =~= Seq::empty());
        assert(done.push(t) =~= done + item_trees(items));
    } else {
        let comma = seq![Lexeme::Fixed(Token::Comma)];
        assert(item_tokens(items) =~= first + (comma + item_tokens(rest)));
        lemma_tokens_apart(toks, pos, first, comma + item_tokens(rest));
        lemma_tokens_apart(toks, pos + first.len(), comma, item_tokens(rest));
        assert((comma + item_tokens(rest))[0] == comma[0]);
        lemma_parse_value(items[0], n, toks, pos, 6);
        lemma_parse_items(rest, n, toks, pos + first.len() + 1, done.push(t));
        assert(done.push(t) + item_trees(rest) =~= done + item_trees(items));
    }
}

/// Parsing the notation of an object.
proof fn lemma_parse_object(m: Members, n: nat, toks: Seq<Lexeme>, pos: int)
    requires
        tokens_at(toks, pos, json_tokens(Json::Object(m))),
    ensures
        p_base(n, toks, pos) == Ok::<(Tree, int), Failure>(
            (Tree::Object(member_trees(m)), pos + json_tokens(Json::Object(m)).len()),
        ),
    decreases m, 1nat,
{
    let open = seq![Lexeme::Fixed(Token::LBrace)];
    let body = member_tokens(m);
    let close = seq![Lexeme::Fixed(Token::RBrace)];
    let part = json_tokens(Json::Object(m));
    assert(part =~= open + (body + close));
    lemma_tokens_at(toks, pos, part);
    assert(toks[pos + 0] == part[0]);
    lemma_tokens_apart(toks, pos, open, body + close);
    lemma_tokens_apart(toks, pos + 1, body, close);
    if m.len() == 0 {
        assert(body =~= Seq::empty());
        assert(member_trees(m) =~= Seq::empty());
    } else {
        assert(body[0] == Lexeme::Str(m[0].0));
        lemma_tokens_at(toks, pos + 1, body);
        assert(toks[pos + 1 + 0] == body[0]);
        lemma_parse_members(m, n, toks, pos + 1, Seq::empty());
        assert(Seq::<(Key, Tree)>::empty() + member_trees(m) =~= member_trees(m));
    }
}

/// Parsing the notation of members up to the closing brace.
proof fn lemma_parse_members(
    m: Members,
    n: nat,
    toks: Seq<Lexeme>,
    pos: int,
    done: Seq<(Key, Tree)>,
)
    requires
        m.len() > 0,
        tokens_at(toks, pos, member_tokens(m)),
        toks[pos + member_tokens(m).len()] == Lexeme::Fixed(Token::RBrace),
    ensures
        p_object(n, toks, pos, done) == Ok::<(Tree, int), Failure>(
            (Tree::Object(done + member_trees(m)), pos + member_tokens(m).len() + 1),
        ),
    decreases m, 0nat,
{
    let head = seq![Lexeme::Str(m[0].0), Lexeme::Fixed(Token::Colon)];
    let value = json_tokens(m[0].1);
    let rest = m.skip(1);
    let entry = (Key::Str(m[0].0), json_tree(m[0].1));
    lemma_first_token(m[0].1);
    let comma = seq![Lexeme::Fixed(Token::Comma)];
    let tail = if m.len() == 1 {
        Seq::empty()
    } else {
        comma + member_tokens(rest)
    };
    assert(member_tokens(m) =~= head + (value + tail));
    lemma_tokens_apart(toks, pos, head, value + tail);
    lemma_tokens_at(toks, pos, head);
    assert(toks[pos + 0] == head[0]);
    assert(toks[pos + 1] == head[1]);
    assert(p_key(n, toks, pos) == Ok::<(Key, int), Failure>((entry.0, pos + 1)));
    lemma_tokens_apart(toks, pos + 2, value, tail);
    let q = pos + 2 + value.len();
    if m.len() == 1 {
        assert(value + tail =~= value);
        lemma_parse_value(m[0].1, n, toks, pos + 2, 6);
        assert(rest =~= Seq::empty());
        assert(member_trees(rest) =~= Seq::empty());
        assert(done.push(entry) =~= done + member_trees(m));
    } else {
        assert(tail[0] == comma[0]);
        lemma_tokens_apart(toks, q, comma, member_tokens(rest));
        lemma_parse_value(m[0].1, n, toks, pos + 2, 6);
        lemma_parse_members(rest, n, toks, q + 1, done.push(entry));
        assert(done.push(entry) + member_trees(rest) =~= done + member_trees(m));
    }
}

// ---------------------------------------------------------------------------
// Evaluation
// ---------------------------------------------------------------------------

/// The value that the notation of a number evaluates to.
pub open spec fn number_value(n: Number) -> Json {
    let literal = double_json(unsigned_double(n));
    if has_minus(number_text(n)) {
        match json_as_double(literal) {
            Some(bits) => double_json(opposite(bits)),
            None => literal,
        }
    } else {
        literal
    }
}

/// The value that the notation of a value evaluates to: its numbers are read as
/// doubles.
pub open spec fn reread(j: Json) -> Json
    decreases j, 1nat,
{
    match j {
        Json::Number(n) => number_value(n),
        Json::Array(items) => Json::Array(reread_items(items)),
        Json::Object(m) => Json::Object(reread_members(m)),
        _ => j,
    }
}

/// The values that the notations of items evaluate to.
pub open spec fn reread_items(items: Seq<Json>) -> Seq<Json>
    decreases items, 0nat,
{
    if items.len() == 0 {
        Seq::empty()
    } else {
        seq![reread(items[0])] + reread_items(items.skip(1))
    }
}

/// The members that the notations of members evaluate to.
pub open spec fn reread_members(m: Members) -> Members
    decreases m, 0nat,
{
    if m.len() == 0 {
        Seq::empty()
    } else {
        seq![(m[0].0, reread(m[0].1))] + reread_members(m.skip(1))
    }
}

/// Each item is reread.
proof fn lemma_reread_items(items: Seq<Json>)
    ensures
        reread_items(items).len() == items.len(),
        forall|i: int|
            0 <= i < items.len() ==> #[trigger] reread_items(items)[i] == reread(items[i]),
    decreases items.len(),
{
    if items.len() > 0 {
        let rest = items.skip(1);
        lemma_reread_items(rest);
        assert forall|i: int| 0 <= i < items.len() implies #[trigger] reread_items(items)[i]
            == reread(items[i]) by {
            if i > 0 {
                assert(reread_items(items)[i] == reread_items(rest)[i - 1]);
                assert(rest[i - 1] == items[i]);
            }
        }
    }
}

/// Each member keeps its key and is reread.
proof fn lemma_reread_members(m: Members)
    ensures
        reread_members(m).len() == m.len(),
        forall|i: int|
            0 <= i < m.len() ==> #[trigger] reread_members(m)[i] == (m[i].0, reread(m[i].1)),
    decreases m.len(),
{
    if m.len() > 0 {
        let rest = m.skip(1);
        lemma_reread_members(rest);
        assert forall|i: int| 0 <= i < m.len() implies #[trigger] reread_members(m)[i] == (
            m[i].0,
            reread(m[i].1),
        ) by {
            if i > 0 {
                assert(reread_members(m)[i] == reread_members(rest)[i - 1]);
                assert(rest[i - 1] == m[i]);
            }
        }
    }
}

/// The notation of a number evaluates to an equal number.
pub proof fn lemma_eval_number(n: Number, input: Json, env: Members)
    requires
        is_canonical(Json::Number(n)),
        is_written(Json::Number(n)),
    ensures
        eval_tree(number_tree(n), input, env) == only(number_value(n)),
        is_equal(Json::Number(n), number_value(n)),
{
    let bits = unsigned_double(n);
    let literal = double_json(bits);
    let tree = Tree::Literal(literal);
    lemma_number_text(n);
    lemma_double_json(bits);
    assert(eval_tree(tree, input, env) == only(literal));
    if has_minus(number_text(n)) {
        let read = number_double(literal->Number_0);
        lemma_opposite(read);
        lemma_double_json(opposite(read));
        let s = seq![literal];
        assert(s.skip(1) =~= Seq::empty());
        assert(unary_each(UnaryOp::Negate, s.skip(1)) == Ok::<Seq<Json>, Failure>(Seq::empty()));
        assert(unary_of(UnaryOp::Negate, literal) == Ok::<Json, Failure>(number_value(n)));
        assert(seq![number_value(n)] + Seq::<Json>::empty() =~= seq![number_value(n)]);
        assert(unary_each(UnaryOp::Negate, s) == only(number_value(n)));
    }
}

/// In a sorted list each member is found by its key.
pub proof fn lemma_sorted_lookup(m: Members, i: int)
    requires
        is_sorted(m),
        0 <= i < m.len(),
    ensures
        lookup(m, m[i].0) == Some(m[i].1),
    decreases m.len(),
{
    if i > 0 {
        let rest = m.skip(1);
        assert forall|a: int, b: int| 0 <= a < b < rest.len() implies text_less(
            #[trigger] rest[a].0,
            #[trigger] rest[b].0,
        ) by {
            assert(rest[a] == m[a + 1] && rest[b] == m[b + 1]);
        }
        assert(rest[i - 1] == m[i]);
        lemma_sorted_lookup(rest, i - 1);
        assert(text_less(m[0].0, m[i].0));
        lemma_less_irreflexive(m[i].0);
    }
}

/// A member with a key behind all others is put at the end.
proof fn lemma_inserted_last(m: Members, key: Seq<char>, v: Json)
    requires
        forall|i: int| 0 <= i < m.len() ==> text_less(#[trigger] m[i].0, key),
    ensures
        inserted(m, key, v) == m.push((key, v)),
    decreases m.len(),
{
    if m.len() == 0 {
        assert(inserted(m, key, v) =~= m.push((key, v)));
    } else {
        let first = m[0].0;
        assert(text_less(first, key));
        lemma_less_irreflexive(key);
        if text_less(key, first) {
            lemma_less_transitive(key, first, key);
        }
        let rest = m.skip(1);
        assert forall|i: int| 0 <= i < rest.len() implies text_less(#[trigger] rest[i].0, key) by {
            assert(rest[i] == m[i + 1]);
        }
        lemma_inserted_last(rest, key, v);
        assert(inserted(m, key, v) =~= m.push((key, v)));
    }
}

/// Members as entries with one value each.
pub open spec fn single_entries(m: Members) -> Seq<(Seq<char>, Seq<Json>)> {
    m.map_values(|e: (Seq<char>, Json)| (e.0, seq![e.1]))
}

/// Entries with one value each, sorted by key, make one object.
pub proof fn lemma_one_object(m: Members)
    requires
        is_sorted(m),
    ensures
        objects_of(single_entries(m)) == seq![m],
    decreases m.len(),
{
    let entries = single_entries(m);
    if m.len() == 0 {
        assert(m =~= Seq::empty());
        assert(entries =~= Seq::empty());
    } else {
        let before = m.drop_last();
        let (key, v) = m.last();
        assert(entries.drop_last() =~= single_entries(before));
        assert forall|a: int, b: int| 0 <= a < b < before.len() implies text_less(
            #[trigger] before[a].0,
            #[trigger] before[b].0,
        ) by {
            assert(before[a] == m[a] && before[b] == m[b]);
        }
        lemma_one_object(before);
        assert forall|i: int| 0 <= i < before.len() implies text_less(
            #[trigger] before[i].0,
            key,
        ) by {
            assert(before[i] == m[i]);
            assert(m[m.len() - 1].0 == key);
        }
        lemma_inserted_last(before, key, v);
        let objects = seq![before];
        let values = seq![v];
        assert(entries.last() == (key, values));
        assert(objects.drop_last() =~= Seq::empty());
        assert(grown(objects.drop_last(), key, values) =~= Seq::empty());
        assert(with_each(before, key, values) =~= seq![m]) by {
            assert(before.push((key, v)) =~= m);
        }
        assert(grown(objects, key, values) =~= seq![m]);
    }
}

/// The notation of a value evaluates to an equal value.
pub proof fn lemma_eval_value(j: Json, input: Json, env: Members)
    requires
        is_canonical(j),
        is_written(j),
    ensures
        eval_tree(json_tree(j), input, env) == only(reread(j)),
        is_equal(j, reread(j)),
    decreases j, 1nat,
{
    match j {
        Json::Number(n) => lemma_eval_number(n, input, env),
        Json::String(w) => {
            let parts = seq![Part::Literal(w)];
            assert(parts.skip(1) =~= Seq::empty());
            assert(eval_parts(parts.skip(1), input, env) == Ok::<Seq<char>, Failure>(Seq::empty()));
            assert(w + Seq::<char>::empty() =~= w);
            assert(eval_part(parts[0], input, env) == Ok::<Seq<char>, Failure>(w));
            assert(eval_parts(parts, input, env) == Ok::<Seq<char>, Failure>(w));
        },
        Json::Array(items) => {
            lemma_eval_items(items, input, env);
            lemma_reread_items(items);
        },
        Json::Object(m) => {
            let read = reread_members(m);
            lemma_eval_members(m, input, env);
            lemma_reread_members(m);
            assert forall|a: int, b: int| 0 <= a < b < read.len() implies text_less(
                #[trigger] read[a].0,
                #[trigger] read[b].0,
            ) by {
                assert(text_less(m[a].0, m[b].0));
            }
            lemma_one_object(read);
            assert(object_values(seq![read]) =~= seq![Json::Object(read)]);
            assert forall|i: int| 0 <= i < m.len() implies match lookup(read, (#[trigger] m[i]).0) {
                Some(v) => is_equal(m[i].1, v),
                None => false,
            } by {
                assert(read[i] == (m[i].0, reread(m[i].1)));
                lemma_sorted_lookup(read, i);
            }
        },
        _ => {},
    }
}

/// The notations of items evaluate to equal values.
proof fn lemma_eval_items(items: Seq<Json>, input: Json, env: Members)
    requires
        forall|i: int| 0 <= i < items.len() ==> is_canonical(#[trigger] items[i]),
        forall|i: int| 0 <= i < items.len() ==> is_written(#[trigger] items[i]),
    ensures
        eval_all(item_trees(items), input, env) == Ok::<Seq<Json>, Failure>(reread_items(items)),
        forall|i: int| 0 <= i < items.len() ==> is_equal(#[trigger] items[i], reread(items[i])),
    decreases items, 0nat,
{
    let trees = item_trees(items);
    if items.len() > 0 {
        let rest = items.skip(1);
        assert forall|i: int| 0 <= i < rest.len() implies is_canonical(#[trigger] rest[i])
            && is_written(rest[i]) by {
            assert(rest[i] == items[i + 1]);
        }
        lemma_eval_value(items[0], input, env);
        lemma_eval_items(rest, input, env);
        assert(trees[0] == json_tree(items[0]));
        assert(trees.skip(1) =~= item_trees(rest));
        assert forall|i: int| 0 <= i < items.len() implies is_equal(
            #[trigger] items[i],
            reread(items[i]),
        ) by {
            if i > 0 {
                assert(rest[i - 1] == items[i]);
            }
        }
    }
}

/// The notations of members evaluate to entries with equal values.
proof fn lemma_eval_members(m: Members, input: Json, env: Members)
    requires
        forall|i: int| 0 <= i < m.len() ==> is_canonical((#[trigger] m[i]).1),
        forall|i: int| 0 <= i < m.len() ==> is_written((#[trigger] m[i]).1),
    ensures
        eval_entries(member_trees(m), input, env) == Ok::<Seq<(Seq<char>, Seq<Json>)>, Failure>(
            single_entries(reread_members(m)),
        ),
        forall|i: int| 0 <= i < m.len() ==> is_equal((#[trigger] m[i]).1, reread(m[i].1)),
    decreases m, 0nat,
{
    let trees = member_trees(m);
    if m.len() == 0 {
        assert(single_entries(reread_members(m)) =~= Seq::empty());
    } else {
        let rest = m.skip(1);
        assert forall|i: int| 0 <= i < rest.len() implies is_canonical((#[trigger] rest[i]).1)
            && is_written(rest[i].1) by {
            assert(rest[i] == m[i + 1]);
        }
        let v = reread(m[0].1);
        lemma_eval_value(m[0].1, input, env);
        lemma_eval_members(rest, input, env);
        assert(trees[0] == (Key::Str(m[0].0), json_tree(m[0].1)));
        assert(trees.skip(1) =~= member_trees(rest));
        assert(eval_key(trees[0].0, input, env) == Ok::<Seq<char>, Failure>(m[0].0));
        assert(seq![(m[0].0, seq![v])] + single_entries(reread_members(rest)) =~= single_entries(
            reread_members(m),
        ));
        assert forall|i: int| 0 <= i < m.len() implies is_equal(
            (#[trigger] m[i]).1,
            reread(m[i].1),
        ) by {
            if i > 0 {
                assert(rest[i - 1] == m[i]);
            }
        }
    }
}

} // verus!
