//! Decimal text and double-precision numbers.
//!
//! The grammar of decimal numbers and the exact decimal notation of a double are
//! defined and checked here. Choosing the double nearest to a decimal, and the
//! shortest decimal for a double, is left to `std` and `serde_json`.
use crate::double::{
    HIDDEN, INFINITY, NAN, SIGN, finite, is_finite, is_infinite, is_nan, lemma_rounded_scale,
    lemma_rounded_units, magnitude, negative, one, rounded, scale, sign, signed, significand,
    units, unsigned,
};
use crate::text::{
    CharTest, all_digits, ascii_lower, chars_of, decimal, digit, digit_of, digits_value, is_digit,
    lemma_decimal_reads_back, lemma_run_end, lower, run_end, string_of, text_eq, u64_text,
};
use vstd::arithmetic::mul::*;
use vstd::arithmetic::power2::*;
use vstd::arithmetic::power::*;
use vstd::prelude::*;

verus! {

// ---------------------------------------------------------------------------
// Reading
// ---------------------------------------------------------------------------

/// A decimal number: the digits read as one integer, times a power of ten.
pub ghost struct Decimal {
    pub neg: bool,
    pub digits: Seq<char>,
    pub exponent: int,
}

/// The test for decimal digits.
pub open spec fn digit_test() -> CharTest {
    |c: char| is_digit(c)
}

/// Whether the text starts with a sign.
pub open spec fn has_sign(s: Seq<char>) -> bool {
    s.len() > 0 && (s[0] == '+' || s[0] == '-')
}

/// Whether the text starts with a minus sign.
pub open spec fn has_minus(s: Seq<char>) -> bool {
    s.len() > 0 && s[0] == '-'
}

/// The text behind its sign.
pub open spec fn behind_sign(s: Seq<char>) -> Seq<char> {
    if has_sign(s) {
        s.skip(1)
    } else {
        s
    }
}

/// The exponent that follows the digits: nothing, or an `e` with a signed integer.
pub open spec fn exponent_part(s: Seq<char>) -> Option<int> {
    if s.len() == 0 {
        Some(0)
    } else if s[0] == 'e' || s[0] == 'E' {
        let rest = s.skip(1);
        let body = behind_sign(rest);
        if body.len() > 0 && all_digits(body) {
            if has_minus(rest) {
                Some(-(digits_value(body) as int))
            } else {
                Some(digits_value(body) as int)
            }
        } else {
            None
        }
    } else {
        None
    }
}

/// The end of the digits before the point.
pub open spec fn whole_end(s: Seq<char>) -> int {
    run_end(s, 0, digit_test())
}

/// Whether a decimal point follows the digits.
pub open spec fn has_point(s: Seq<char>) -> bool {
    whole_end(s) < s.len() && s[whole_end(s)] == '.'
}

/// The end of the digits behind the point, or of those before it.
pub open spec fn digits_end(s: Seq<char>) -> int {
    if has_point(s) {
        run_end(s, whole_end(s) + 1, digit_test())
    } else {
        whole_end(s)
    }
}

/// The digits behind the point.
pub open spec fn fraction(s: Seq<char>) -> Seq<char> {
    if has_point(s) {
        s.subrange(whole_end(s) + 1, digits_end(s))
    } else {
        Seq::empty()
    }
}

/// The decimal number that a text denotes: a sign, digits with an optional
/// point (at least one digit in all), and an optional exponent.
pub open spec fn decimal_number(s: Seq<char>) -> Option<Decimal> {
    let body = behind_sign(s);
    let digits = body.take(whole_end(body)) + fraction(body);
    if digits.len() == 0 {
        None
    } else {
        match exponent_part(body.skip(digits_end(body))) {
            Some(x) => Some(
                (Decimal { neg: has_minus(s), digits, exponent: x - fraction(body).len() }),
            ),
            None => None,
        }
    }
}

/// The double nearest to a decimal number.
pub open spec fn nearest(d: Decimal) -> u64 {
    let n = digits_value(d.digits);
    if d.exponent >= 0 {
        signed(d.neg, rounded(n * (pow(10, d.exponent as nat) as nat) * one(), 1))
    } else {
        signed(d.neg, rounded(n * one(), pow(10, (-d.exponent) as nat) as nat))
    }
}

/// The lower case of the ASCII letters of a text.
pub open spec fn lowered(s: Seq<char>) -> Seq<char> {
    s.map_values(|c: char| lower(c))
}

/// The double that a text denotes: a decimal number, an infinity or no number.
pub open spec fn parsed_double(s: Seq<char>) -> Option<u64> {
    match decimal_number(s) {
        Some(d) => Some(nearest(d)),
        None => {
            let word = lowered(behind_sign(s));
            if word == "inf"@ || word == "infinity"@ {
                Some(signed(has_minus(s), INFINITY as nat))
            } else if word == "nan"@ {
                Some(NAN)
            } else {
                None
            }
        },
    }
}

/// Trusted: `str::parse` for doubles returns the double closest to the decimal
/// number that the text denotes, ties to even; `serde_json::Number::from_f64`
/// holds it unchanged when it is finite and refuses it when it is not, and
/// `serde_json::Number::as_f64` hands it back.
#[verifier::external_body]
fn nearest_finite(text: &str) -> (r: Option<u64>)
    requires
        decimal_number(text@) is Some,
    ensures
        r == (if is_finite(nearest(decimal_number(text@).unwrap())) {
            Some(nearest(decimal_number(text@).unwrap()))
        } else {
            None
        }),
{
    text.parse().ok().and_then(serde_json::Number::from_f64).and_then(|n| n.as_f64()).map(
        |x| x.to_bits(),
    )
}

/// The end of the digits that start at `from`.
fn skip_digits(chars: &Vec<char>, from: usize) -> (r: usize)
    requires
        from <= chars.len(),
    ensures
        r == run_end(chars@, from as int, digit_test()),
        from <= r <= chars.len(),
{
    let mut i: usize = from;
    while i < chars.len() && digit(chars[i])
        invariant
            from <= i <= chars.len(),
            run_end(chars@, i as int, digit_test()) == run_end(chars@, from as int, digit_test()),
        decreases chars.len() - i,
    {
        i += 1;
    }
    i
}

/// Decides whether what follows the digits is a valid exponent.
fn valid_exponent(chars: &Vec<char>, from: usize) -> (r: bool)
    requires
        from <= chars.len(),
    ensures
        r == exponent_part(chars@.skip(from as int)) is Some,
{
    if from == chars.len() {
        return true;
    }
    let ghost tail = chars@.skip(from as int);
    if chars[from] != 'e' && chars[from] != 'E' {
        return false;
    }
    let rest = from + 1;
    let start = if rest < chars.len() && (chars[rest] == '+' || chars[rest] == '-') {
        rest + 1
    } else {
        rest
    };
    let ghost body = behind_sign(tail.skip(1));
    proof {
        assert(tail.skip(1) =~= chars@.skip(rest as int));
        assert(body =~= chars@.skip(start as int));
    }
    if start == chars.len() {
        return false;
    }
    let end = skip_digits(chars, start);
    proof {
        lemma_run_end(chars@, start as int, digit_test());
        if end < chars.len() {
            assert(body[end - start] == chars@[end as int]);
        } else {
            assert forall|i: int| 0 <= i < body.len() implies is_digit(#[trigger] body[i]) by {
                assert(body[i] == chars@[start + i]);
            }
        }
    }
    end == chars.len()
}

/// Decides whether a text denotes a decimal number.
fn is_decimal(text: &str) -> (r: bool)
    ensures
        r == decimal_number(text@) is Some,
{
    let all = chars_of(text);
    let from: usize = if all.len() > 0 && (all[0] == '+' || all[0] == '-') {
        1
    } else {
        0
    };
    let tail = string_of(&all, from, all.len());
    let chars = chars_of(tail.as_str());
    assert(chars@ =~= behind_sign(text@));
    let i = skip_digits(&chars, 0);
    let (j, count): (usize, usize) = if i < chars.len() && chars[i] == '.' {
        let j = skip_digits(&chars, i + 1);
        (j, i + (j - (i + 1)))
    } else {
        (i, i)
    };
    proof {
        lemma_run_end(chars@, 0, digit_test());
        if has_point(chars@) {
            lemma_run_end(chars@, i + 1, digit_test());
        }
    }
    if count == 0 {
        return false;
    }
    valid_exponent(&chars, j)
}

/// Reads a double.
pub fn parse_double(text: &str) -> (r: Option<u64>)
    ensures
        r == parsed_double(text@),
{
    let all = chars_of(text);
    let neg = all.len() > 0 && all[0] == '-';
    if is_decimal(text) {
        proof {
            lemma_nearest_range(decimal_number(text@).unwrap());
        }
        return match nearest_finite(text) {
            Some(bits) => Some(bits),
            None => Some(
                if neg {
                    SIGN + INFINITY
                } else {
                    INFINITY
                },
            ),
        };
    }
    let from: usize = if all.len() > 0 && (all[0] == '+' || all[0] == '-') {
        1
    } else {
        0
    };
    let tail = string_of(&all, from, all.len());
    assert(tail@ =~= behind_sign(text@));
    let word = ascii_lower(tail.as_str());
    if text_eq(word.as_str(), "inf") || text_eq(word.as_str(), "infinity") {
        Some(
            if neg {
                SIGN + INFINITY
            } else {
                INFINITY
            },
        )
    } else if text_eq(word.as_str(), "nan") {
        Some(NAN)
    } else {
        None
    }
}

/// The nearest double has the sign of the decimal number and is no larger than
/// infinity.
proof fn lemma_nearest_range(d: Decimal)
    ensures
        negative(nearest(d)) == d.neg,
        magnitude(nearest(d)) <= INFINITY,
        !is_finite(nearest(d)) ==> nearest(d) == signed(d.neg, INFINITY as nat),
{
}

// ---------------------------------------------------------------------------
// Writing
// ---------------------------------------------------------------------------

/// The exact decimal notation of a finite double: an integer, or an integer and
/// a negative power of ten.
pub open spec fn exact_text(bits: u64) -> Seq<char> {
    let m = significand(magnitude(bits));
    let e = scale(magnitude(bits));
    let head = if negative(bits) {
        seq!['-']
    } else {
        Seq::empty()
    };
    if e >= 1074 {
        head + decimal(m * pow2((e - 1074) as nat))
    } else {
        let k = (1074 - e) as nat;
        head + decimal(m * (pow(5, k) as nat)) + seq!['e', '-'] + decimal(k)
    }
}

/// The integer whose decimal digits, lowest first, are given.
pub open spec fn low_first(s: Seq<u8>) -> nat
    decreases s.len(),
{
    if s.len() == 0 {
        0
    } else {
        s[0] as nat + 10 * low_first(s.skip(1))
    }
}

/// Whether every entry is a digit and the highest is not zero.
pub open spec fn is_digits(s: Seq<u8>) -> bool {
    &&& forall|i: int| 0 <= i < s.len() ==> #[trigger] s[i] < 10
    &&& s.len() > 0 ==> s.last() > 0
}

/// The value of digits followed by one more.
proof fn lemma_low_first_push(s: Seq<u8>, d: u8)
    ensures
        low_first(s.push(d)) == low_first(s) + d * (pow(10, s.len()) as nat),
    decreases s.len(),
{
    lemma_pow_positive(10, s.len());
    let t = s.push(d);
    if s.len() == 0 {
        lemma_pow0(10);
        assert(t.skip(1) =~= Seq::<u8>::empty());
        assert(low_first(t.skip(1)) == 0);
        assert(low_first(t) == t[0] as nat + 10 * low_first(t.skip(1)));
    } else {
        lemma_low_first_push(s.skip(1), d);
        assert(t.skip(1) =~= s.skip(1).push(d));
        lemma_pow_positive(10, s.skip(1).len());
        reveal(pow);
        assert(pow(10, s.len()) == 10 * pow(10, (s.len() - 1) as nat));
        assert(10 * (d * pow(10, (s.len() - 1) as nat)) == d * (10 * pow(
            10,
            (s.len() - 1) as nat,
        ))) by (nonlinear_arith);
    }
}

/// Multiplies a number given by its digits with a small factor.
fn scale_digits(digits: &Vec<u8>, factor: u8) -> (r: Vec<u8>)
    requires
        is_digits(digits@),
        1 <= factor <= 10,
    ensures
        is_digits(r@),
        low_first(r@) == low_first(digits@) * factor,
{
    let mut out: Vec<u8> = Vec::new();
    let mut carry: u32 = 0;
    let mut i: usize = 0;
    assert(digits@.skip(0) =~= digits@);
    proof {
        lemma_pow0(10);
    }
    while i < digits.len()
        invariant
            i <= digits.len(),
            out.len() == i,
            is_digits(digits@),
            1 <= factor <= 10,
            carry < 10,
            forall|j: int| 0 <= j < i ==> #[trigger] out@[j] < 10,
            i == digits.len() && i > 0 && carry == 0 ==> out@.last() > 0,
            low_first(out@) + (carry + factor * low_first(digits@.skip(i as int))) * pow(
                10,
                i as nat,
            ) == low_first(digits@) * factor,
        decreases digits.len() - i,
    {
        let ghost before = out@;
        proof {
            lemma_pow_positive(10, i as nat);
        }
        assert(digits@[i as int] * factor <= 90) by (nonlinear_arith)
            requires
                digits@[i as int] < 10,
                factor <= 10,
        ;
        let t = digits[i] as u32 * factor as u32 + carry;
        assert(t <= 99) by (nonlinear_arith)
            requires
                t == digits@[i as int] * factor + carry,
                digits@[i as int] < 10,
                factor <= 10,
                carry < 10,
        ;
        out.push((t % 10) as u8);
        proof {
            let p = pow(10, i as nat);
            let rest = low_first(digits@.skip(i + 1));
            assert(digits@.skip(i as int).skip(1) =~= digits@.skip(i + 1));
            assert(low_first(digits@.skip(i as int)) == digits@[i as int] as nat + 10 * rest);
            lemma_low_first_push(before, (t % 10) as u8);
            reveal(pow);
            assert(pow(10, (i + 1) as nat) == 10 * p);
            assert((t % 10) * p + (t / 10 + factor * rest) * (10 * p) == (carry + factor * (
            digits@[i as int] as nat + 10 * rest)) * p) by (nonlinear_arith)
                requires
                    t == digits@[i as int] * factor + carry,
                    t == 10 * (t / 10) + t % 10,
            ;
            if i + 1 == digits.len() && t / 10 == 0 {
                assert(digits@[i as int] * factor >= 1) by (nonlinear_arith)
                    requires
                        digits@[i as int] >= 1,
                        factor >= 1,
                ;
            }
        }
        carry = t / 10;
        i += 1;
    }
    proof {
        lemma_pow_positive(10, i as nat);
        assert(digits@.skip(i as int) =~= Seq::<u8>::empty());
        assert(low_first(digits@.skip(i as int)) == 0);
        assert((carry + factor * 0) * pow(10, i as nat) == carry * pow(10, i as nat))
            by (nonlinear_arith);
    }
    if carry > 0 {
        proof {
            lemma_low_first_push(out@, carry as u8);
        }
        out.push(carry as u8);
    } else {
        assert(0 * pow(10, i as nat) == 0) by (nonlinear_arith);
    }
    out
}

/// The digits of a word, lowest first.
fn digits_of(n: u64) -> (r: Vec<u8>)
    ensures
        is_digits(r@),
        low_first(r@) == n,
    decreases n,
{
    if n == 0 {
        return Vec::new();
    }
    let mut higher = digits_of(n / 10);
    let ghost before = higher@;
    higher.insert(0, (n % 10) as u8);
    assert(higher@.skip(1) =~= before);
    higher
}

/// A number is zero exactly when it has no digits.
proof fn lemma_low_first_zero(s: Seq<u8>)
    requires
        is_digits(s),
    ensures
        low_first(s) == 0 <==> s.len() == 0,
    decreases s.len(),
{
    if s.len() == 1 {
        assert(s.skip(1) =~= Seq::<u8>::empty());
        assert(low_first(s.skip(1)) == 0);
    } else if s.len() > 1 {
        assert(s.skip(1).last() == s.last());
        lemma_low_first_zero(s.skip(1));
    }
}

/// Writes the digits from index `from` up, highest first.
fn digits_text(digits: &Vec<u8>, from: usize) -> (r: String)
    requires
        is_digits(digits@),
        from < digits.len(),
    ensures
        r@ == decimal(low_first(digits@.skip(from as int))),
{
    let mut out = String::new();
    let mut i: usize = digits.len() - 1;
    out.push(digit_of(digits[i]));
    proof {
        let top = digits@.skip(i as int);
        assert(top.skip(1) =~= Seq::<u8>::empty());
        assert(low_first(top.skip(1)) == 0);
        assert(low_first(top) == digits@[i as int]);
        assert(out@ =~= decimal(low_first(top)));
    }
    while i > from
        invariant
            from <= i < digits.len(),
            is_digits(digits@),
            out@ == decimal(low_first(digits@.skip(i as int))),
        decreases i,
    {
        let ghost above = digits@.skip(i as int);
        i -= 1;
        proof {
            let here = digits@.skip(i as int);
            assert(here.skip(1) =~= above);
            assert(above.last() == digits@.last());
            assert forall|j: int| 0 <= j < above.len() implies #[trigger] above[j] < 10 by {
                assert(above[j] == digits@[i + 1 + j]);
            }
            lemma_low_first_zero(above);
            let n = low_first(here);
            assert(n == digits@[i as int] as nat + 10 * low_first(above));
            assert(n / 10 == low_first(above) && n % 10 == digits@[i as int]);
        }
        out.push(digit_of(digits[i]));
    }
    out
}

/// The decimal notation of a significand times a power of a small base.
fn power_text(m: u64, base: u8, k: u32) -> (r: String)
    requires
        1 <= base <= 10,
    ensures
        r@ == decimal(m as nat * (pow(base as int, k as nat) as nat)),
{
    let mut digits = digits_of(m);
    let mut i: u32 = 0;
    proof {
        lemma_pow0(base as int);
    }
    while i < k
        invariant
            i <= k,
            1 <= base <= 10,
            is_digits(digits@),
            low_first(digits@) == m * pow(base as int, i as nat),
        decreases k - i,
    {
        digits = scale_digits(&digits, base);
        proof {
            reveal(pow);
            assert((m * pow(base as int, i as nat)) * base == m * (base * pow(
                base as int,
                i as nat,
            ))) by (nonlinear_arith);
        }
        i += 1;
    }
    proof {
        lemma_pow_positive(base as int, k as nat);
        lemma_low_first_zero(digits@);
        assert(digits@.skip(0) =~= digits@);
    }
    if digits.len() == 0 {
        u64_text(0)
    } else {
        digits_text(&digits, 0)
    }
}

/// Writes a finite double exactly.
pub fn write_exact(bits: u64) -> (r: String)
    requires
        is_finite(bits),
    ensures
        r@ == exact_text(bits),
{
    let mag = unsigned(bits);
    let (m, e): (u64, u64) = if mag < HIDDEN {
        (mag, 0)
    } else {
        (mag % HIDDEN + HIDDEN, mag / HIDDEN - 1)
    };
    let mut out = String::new();
    if sign(bits) {
        out.push('-');
    }
    if e >= 1074 {
        let digits = power_text(m, 2, (e - 1074) as u32);
        out.append(digits.as_str());
    } else {
        let k = 1074 - e;
        let digits = power_text(m, 5, k as u32);
        out.append(digits.as_str());
        out.push('e');
        out.push('-');
        let tail = u64_text(k);
        out.append(tail.as_str());
        assert(out@ =~= exact_text(bits));
    }
    assert(out@ =~= exact_text(bits));
    out
}

/// The JSON text of the double nearest to a decimal number: what
/// `serde_json::Number` writes for it.
pub uninterp spec fn json_double(decimal: Seq<char>) -> Seq<char>;

/// Whether a text is a decimal number in the notation of JSON, with a digit
/// behind at most a minus sign, and nearest to a double.
pub open spec fn denotes(text: Seq<char>, bits: u64) -> bool {
    let body = if has_minus(text) {
        text.skip(1)
    } else {
        text
    };
    &&& body.len() > 0
    &&& is_digit(body[0])
    &&& match decimal_number(text) {
        Some(d) => nearest(d) == bits,
        None => false,
    }
}

/// Trusted: the text that `serde_json::Number` writes for the double that the
/// given decimal number denotes. It is a correctly rounded decimal, so that it
/// denotes the same double; which of the shortest ones is written is not stated.
#[verifier::external_body]
fn shortest_json(text: &str) -> (r: String)
    requires
        decimal_number(text@) is Some,
        is_finite(nearest(decimal_number(text@).unwrap())),
    ensures
        r@ == json_double(text@),
        denotes(r@, nearest(decimal_number(text@).unwrap())),
{
    text.parse().ok().and_then(serde_json::Number::from_f64).map(
        |n| n.to_string(),
    ).unwrap_or_default()
}

/// The text that `std` displays for the double nearest to a decimal number.
pub uninterp spec fn plain_double(decimal: Seq<char>) -> Seq<char>;

/// Trusted: the text that the `Display` of `std` gives for the double that the
/// given decimal number denotes. Which decimal is displayed is not stated.
#[verifier::external_body]
fn displayed(text: &str) -> (r: String)
    requires
        decimal_number(text@) is Some,
        is_finite(nearest(decimal_number(text@).unwrap())),
    ensures
        r@ == plain_double(text@),
{
    text.parse().ok().and_then(serde_json::Number::from_f64).and_then(|n| n.as_f64()).map(
        |x| x.to_string(),
    ).unwrap_or_default()
}

/// The JSON text of a double. JSON has no notation for the infinities and for
/// what is not a number.
pub open spec fn json_double_text(bits: u64) -> Seq<char> {
    if is_finite(bits) {
        json_double(exact_text(bits))
    } else {
        "null"@
    }
}

/// Writes a double as JSON.
pub fn json_of_double(bits: u64) -> (r: String)
    ensures
        r@ == json_double_text(bits),
        is_finite(bits) ==> denotes(r@, bits),
{
    if !finite(bits) {
        return "null".to_owned();
    }
    let exact = write_exact(bits);
    proof {
        lemma_exact_reads_back(bits);
    }
    shortest_json(exact.as_str())
}

/// The displayed text of a double.
pub open spec fn double_text(bits: u64) -> Seq<char> {
    if is_nan(bits) {
        "NaN"@
    } else if is_infinite(bits) {
        if negative(bits) {
            "-inf"@
        } else {
            "inf"@
        }
    } else {
        plain_double(exact_text(bits))
    }
}

/// Writes a double for display.
pub fn display_double(bits: u64) -> (r: String)
    ensures
        r@ == double_text(bits),
{
    let mag = unsigned(bits);
    if mag > INFINITY {
        "NaN".to_owned()
    } else if mag == INFINITY {
        if sign(bits) {
            "-inf".to_owned()
        } else {
            "inf".to_owned()
        }
    } else {
        let exact = write_exact(bits);
        proof {
            lemma_exact_reads_back(bits);
        }
        displayed(exact.as_str())
    }
}

/// A run of digits ends where something else follows.
proof fn lemma_digit_run(s: Seq<char>, from: int, end: int)
    requires
        0 <= from <= end <= s.len(),
        forall|i: int| from <= i < end ==> is_digit(#[trigger] s[i]),
        end < s.len() ==> !is_digit(s[end]),
    ensures
        run_end(s, from, digit_test()) == end,
    decreases end - from,
{
    if from < end {
        assert(is_digit(s[from]));
        lemma_digit_run(s, from + 1, end);
    }
}

/// Reading the exact decimal notation of a finite double gives the double back.
pub proof fn lemma_exact_reads_back(bits: u64)
    requires
        is_finite(bits),
    ensures
        decimal_number(exact_text(bits)) is Some,
        nearest(decimal_number(exact_text(bits)).unwrap()) == bits,
        parsed_double(exact_text(bits)) == Some(bits),
{
    let mag = magnitude(bits);
    let m = significand(mag);
    let e = scale(mag);
    let s = exact_text(bits);
    let body = behind_sign(s);
    let k = (1074 - e) as nat;
    let n = if e >= 1074 {
        m * pow2((e - 1074) as nat)
    } else {
        m * (pow(5, k) as nat)
    };
    let digits = decimal(n);
    lemma_decimal_reads_back(n);
    lemma_decimal_reads_back(k);
    lemma_pow_positive(5, k);
    let tail = if e >= 1074 {
        Seq::empty()
    } else {
        seq!['e', '-'] + decimal(k)
    };
    assert(is_digit(digits[0]));
    assert(body =~= digits + tail);
    assert forall|i: int| 0 <= i < digits.len() implies is_digit(#[trigger] body[i]) by {
        assert(body[i] == digits[i]);
    }
    lemma_digit_run(body, 0, digits.len() as int);
    assert(body.take(whole_end(body)) =~= digits);
    assert(!has_point(body));
    assert(body.skip(digits_end(body)) =~= tail);
    assert(digits + fraction(body) =~= digits);
    if e < 1074 {
        let rest = tail.skip(1);
        assert(rest =~= seq!['-'] + decimal(k));
        assert(behind_sign(rest) =~= decimal(k));
    }
    let d = decimal_number(s).unwrap();
    lemma_rounded_units(mag);
    if e >= 1074 {
        assert(d.exponent == 0);
        lemma_pow0(10);
        let f = pow2((e - 1074) as nat);
        lemma_pow2_adds((e - 1074) as nat, 1074);
        assert((m * f) * 1 * one() == m * (f * one())) by (nonlinear_arith);
        assert(n * (pow(10, 0) as nat) * one() == units(mag));
    } else {
        assert(d.exponent == -(k as int));
        let den = pow(10, k) as nat;
        lemma_pow_positive(10, k);
        lemma_pow_distributes(2, 5, k);
        lemma_pow2_adds(e, k);
        lemma_pow2(k);
        assert(n * one() == units(mag) * den) by (nonlinear_arith)
            requires
                n == m * pow(5, k),
                one() == pow2(e) * pow2(k),
                units(mag) == m * pow2(e),
                den == pow2(k) * pow(5, k),
        ;
        lemma_rounded_scale(units(mag), 1, den);
        assert(1 * den == den);
    }
}

} // verus!
