//! Double-precision numbers, held as their 64 bits and computed in integers.
//!
//! A finite number is an integer multiple of the smallest positive one, 2^-1074.
//! That integer is its model: every operation is specified as exact integer
//! arithmetic followed by one rounding to nearest, ties to even.
use vstd::arithmetic::div_mod::*;
use vstd::arithmetic::mul::*;
use vstd::arithmetic::power2::*;
use vstd::prelude::*;

verus! {

/// The weight of the sign bit.
pub const SIGN: u64 = 0x8000_0000_0000_0000;

/// The bits of positive infinity.
pub const INFINITY: u64 = 0x7ff0_0000_0000_0000;

/// The bits of the quiet not-a-number that the operations return.
pub const NAN: u64 = 0x7ff8_0000_0000_0000;

/// The weight of the lowest exponent bit.
pub const HIDDEN: u64 = 0x10_0000_0000_0000;

// ---------------------------------------------------------------------------
// Model
// ---------------------------------------------------------------------------

/// The bits without the sign.
pub open spec fn magnitude(bits: u64) -> nat {
    if bits >= SIGN {
        (bits - SIGN) as nat
    } else {
        bits as nat
    }
}

/// Whether the sign bit is set.
pub open spec fn negative(bits: u64) -> bool {
    bits >= SIGN
}

/// Whether the bits denote no number.
pub open spec fn is_nan(bits: u64) -> bool {
    magnitude(bits) > INFINITY
}

/// Whether the bits denote an infinity.
pub open spec fn is_infinite(bits: u64) -> bool {
    magnitude(bits) == INFINITY
}

/// Whether the bits denote a finite number.
pub open spec fn is_finite(bits: u64) -> bool {
    magnitude(bits) < INFINITY
}

/// Whether the bits denote a zero of either sign.
pub open spec fn is_zero(bits: u64) -> bool {
    magnitude(bits) == 0
}

/// The significand of a magnitude, with its leading bit.
pub open spec fn significand(mag: nat) -> nat {
    if mag < HIDDEN {
        mag
    } else {
        mag % (HIDDEN as nat) + HIDDEN as nat
    }
}

/// The power of two by which the significand is scaled.
pub open spec fn scale(mag: nat) -> nat {
    if mag < HIDDEN {
        0
    } else {
        (mag / (HIDDEN as nat) - 1) as nat
    }
}

/// The value of a magnitude in units of 2^-1074.
pub open spec fn units(mag: nat) -> nat {
    significand(mag) * pow2(scale(mag))
}

/// The value of the bits in units of 2^-1074.
pub open spec fn value(bits: u64) -> int {
    if negative(bits) {
        -(units(magnitude(bits)) as int)
    } else {
        units(magnitude(bits)) as int
    }
}

/// The number of units in one.
pub open spec fn one() -> nat {
    pow2(1074)
}

/// The bits with the given sign and magnitude.
pub open spec fn signed(neg: bool, mag: nat) -> u64 {
    if neg {
        (SIGN + mag) as u64
    } else {
        mag as u64
    }
}

/// The quotient rounded to the nearest integer, ties to even.
pub open spec fn nearest_even(num: nat, den: nat) -> nat {
    let q = num / den;
    let r = num % den;
    if 2 * r < den {
        q
    } else if 2 * r > den {
        q + 1
    } else {
        q + q % 2
    }
}

/// The least `t` such that `num / den` is below `2^(t + 53)`.
pub open spec fn fit(num: nat, den: nat) -> nat
    decreases num - den,
{
    if den == 0 || num < den * pow2(53) {
        0
    } else {
        proof {
            lemma2_to64_rest();
            assert(den * pow2(53) >= 2 * den) by (nonlinear_arith)
                requires
                    pow2(53) >= 2,
            ;
        }
        1 + fit(num, 2 * den)
    }
}

/// The magnitude nearest to `num / den` units, ties to the even one. Values too
/// large for a finite number become infinite.
pub open spec fn rounded(num: nat, den: nat) -> nat {
    let t = fit(num, den);
    let mag = t * HIDDEN as nat + nearest_even(num, den * pow2(t));
    if mag > INFINITY {
        INFINITY as nat
    } else {
        mag
    }
}

/// The number nearest to an integer.
pub open spec fn from_int(n: int) -> u64 {
    signed(n < 0, rounded(abs_nat(n) * one(), 1))
}

/// The absolute value.
pub open spec fn abs_nat(n: int) -> nat {
    if n < 0 {
        (-n) as nat
    } else {
        n as nat
    }
}

/// The number nearest to a sum of units that is not zero.
pub open spec fn from_units(n: int) -> u64 {
    signed(n < 0, rounded(abs_nat(n), 1))
}

/// The sum of two numbers.
pub open spec fn sum(a: u64, b: u64) -> u64 {
    if is_nan(a) || is_nan(b) {
        NAN
    } else if is_infinite(a) {
        if is_infinite(b) && negative(a) != negative(b) {
            NAN
        } else {
            a
        }
    } else if is_infinite(b) {
        b
    } else if value(a) + value(b) == 0 {
        signed(negative(a) && negative(b), 0)
    } else {
        from_units(value(a) + value(b))
    }
}

/// The number with the opposite sign.
pub open spec fn opposite(a: u64) -> u64 {
    signed(!negative(a), magnitude(a))
}

/// The difference of two numbers.
pub open spec fn difference(a: u64, b: u64) -> u64 {
    sum(a, opposite(b))
}

/// The product of two numbers.
pub open spec fn product(a: u64, b: u64) -> u64 {
    let neg = negative(a) != negative(b);
    if is_nan(a) || is_nan(b) {
        NAN
    } else if is_infinite(a) || is_infinite(b) {
        if is_zero(a) || is_zero(b) {
            NAN
        } else {
            signed(neg, INFINITY as nat)
        }
    } else {
        signed(neg, rounded(units(magnitude(a)) * units(magnitude(b)), one()))
    }
}

/// The quotient of two numbers.
pub open spec fn quotient(a: u64, b: u64) -> u64 {
    let neg = negative(a) != negative(b);
    if is_nan(a) || is_nan(b) {
        NAN
    } else if is_infinite(a) {
        if is_infinite(b) {
            NAN
        } else {
            signed(neg, INFINITY as nat)
        }
    } else if is_infinite(b) {
        signed(neg, 0)
    } else if is_zero(b) {
        if is_zero(a) {
            NAN
        } else {
            signed(neg, INFINITY as nat)
        }
    } else {
        signed(neg, rounded(units(magnitude(a)) * one(), units(magnitude(b))))
    }
}

/// The remainder of the truncated division; it has the sign of the dividend.
pub open spec fn remainder(a: u64, b: u64) -> u64 {
    if is_nan(a) || is_nan(b) || is_infinite(a) || is_zero(b) {
        NAN
    } else if is_infinite(b) {
        a
    } else {
        signed(negative(a), rounded(units(magnitude(a)) % units(magnitude(b)), 1))
    }
}

/// The largest integer that is not above the number.
pub open spec fn floored(a: u64) -> u64 {
    if !is_finite(a) {
        a
    } else {
        let whole = units(magnitude(a)) / one();
        let part = units(magnitude(a)) % one();
        let n = if negative(a) && part != 0 {
            whole + 1
        } else {
            whole
        };
        signed(negative(a), rounded(n * one(), 1))
    }
}

/// The number cut to an integer and clamped to a range; no number becomes zero.
pub open spec fn truncated(a: u64, low: int, high: int) -> int {
    if is_nan(a) {
        0
    } else if is_infinite(a) {
        if negative(a) {
            low
        } else {
            high
        }
    } else {
        let whole = (units(magnitude(a)) / one()) as int;
        let n = if negative(a) {
            -whole
        } else {
            whole
        };
        if n < low {
            low
        } else if n > high {
            high
        } else {
            n
        }
    }
}

/// Whether the number is an integer of absolute value below 2^53.
pub open spec fn is_safe_integer(a: u64) -> bool {
    &&& is_finite(a)
    &&& units(magnitude(a)) % one() == 0
    &&& units(magnitude(a)) / one() < pow2(53)
}

/// Equality of numbers.
pub open spec fn same(a: u64, b: u64) -> bool {
    !is_nan(a) && !is_nan(b) && value(a) == value(b)
}

/// The strict order of numbers.
pub open spec fn below(a: u64, b: u64) -> bool {
    !is_nan(a) && !is_nan(b) && value(a) < value(b)
}

// ---------------------------------------------------------------------------
// Rounding
// ---------------------------------------------------------------------------

/// What `fit` returns.
proof fn lemma_fit(num: nat, den: nat)
    requires
        den > 0,
    ensures
        num < den * pow2(fit(num, den) + 53),
        fit(num, den) > 0 ==> num >= den * pow2((fit(num, den) + 52) as nat),
    decreases num - den,
{
    lemma2_to64_rest();
    let t = fit(num, den);
    if num < den * pow2(53) {
    } else {
        assert(den * pow2(53) >= 2 * den) by (nonlinear_arith)
            requires
                pow2(53) >= 2,
        ;
        lemma_fit(num, 2 * den);
        let s = fit(num, 2 * den);
        assert(t == s + 1);
        lemma_pow2_unfold((t + 53) as nat);
        lemma_pow2_unfold((t + 52) as nat);
        assert((2 * den) * pow2((s + 53) as nat) == den * (2 * pow2((s + 53) as nat)))
            by (nonlinear_arith);
        if s > 0 {
            assert((2 * den) * pow2((s + 52) as nat) == den * (2 * pow2((s + 52) as nat)))
                by (nonlinear_arith);
        } else {
            assert(t + 52 == 53);
        }
    }
}

/// The two bounds determine what `fit` returns.
proof fn lemma_fit_unique(num: nat, den: nat, t: nat)
    requires
        den > 0,
        num < den * pow2(t + 53),
        t > 0 ==> num >= den * pow2((t + 52) as nat),
    ensures
        fit(num, den) == t,
{
    lemma_fit(num, den);
    let s = fit(num, den);
    if s < t {
        if s + 53 < t + 52 {
            lemma_pow2_strictly_increases((s + 53) as nat, (t + 52) as nat);
        }
        assert(den * pow2((s + 53) as nat) <= den * pow2((t + 52) as nat)) by (nonlinear_arith)
            requires
                pow2((s + 53) as nat) <= pow2((t + 52) as nat),
        ;
    } else if t < s {
        if t + 53 < s + 52 {
            lemma_pow2_strictly_increases((t + 53) as nat, (s + 52) as nat);
        }
        assert(den * pow2((t + 53) as nat) <= den * pow2((s + 52) as nat)) by (nonlinear_arith)
            requires
                pow2((t + 53) as nat) <= pow2((s + 52) as nat),
        ;
    }
}

/// A common factor does not change the rounded quotient.
proof fn lemma_nearest_scale(num: nat, den: nat, k: nat)
    requires
        den > 0,
        k > 0,
    ensures
        nearest_even(num * k, den * k) == nearest_even(num, den),
{
    lemma_mul_is_commutative(num as int, k as int);
    lemma_mul_is_commutative(den as int, k as int);
    lemma_div_multiples_vanish_quotient(k as int, num as int, den as int);
    lemma_mul_strictly_positive(k as int, den as int);
    lemma_truncate_middle(num as int, k as int, den as int);
    let r = num % den;
    assert((num * k) % (den * k) == k * r);
    assert(2 * (k * r) < den * k <==> 2 * r < den) by (nonlinear_arith)
        requires
            k > 0,
    ;
    assert(2 * (k * r) > den * k <==> 2 * r > den) by (nonlinear_arith)
        requires
            k > 0,
    ;
}

/// Rounding a quotient through its integer part and the information whether
/// anything was cut off.
proof fn lemma_nearest_split(a: nat, b: nat, p: nat)
    requires
        b > 0,
        p > 0,
        p % 2 == 0,
    ensures
        ({
            let m = a / b;
            let low = m % p;
            nearest_even(a, b * p) == if low < p / 2 || (low == p / 2 && a % b == 0 && (m / p) % 2
                == 0) {
                m / p
            } else {
                m / p + 1
            }
        }),
{
    let m = a / b;
    let r = a % b;
    let low = m % p;
    lemma_mul_strictly_positive(b as int, p as int);
    lemma_div_denominator(a as int, b as int, p as int);
    lemma_mod_breakdown(a as int, b as int, p as int);
    assert(a % (b * p) == b * low + r);
    let h = p / 2;
    assert(p == 2 * h);
    assert(b * p == 2 * (b * h)) by (nonlinear_arith)
        requires
            p == 2 * h,
    ;
    if low < h {
        assert(b * low + b <= b * h) by (nonlinear_arith)
            requires
                low + 1 <= h,
        ;
    } else if low > h {
        assert(b * low >= b * h + b) by (nonlinear_arith)
            requires
                low >= h + 1,
        ;
    }
}

/// A quotient without a remainder is rounded to itself.
proof fn lemma_nearest_exact(q: nat, den: nat)
    requires
        den > 0,
    ensures
        nearest_even(q * den, den) == q,
{
    lemma_div_by_multiple(q as int, den as int);
    lemma_mod_multiples_basic(q as int, den as int);
}

/// The larger of an integer and zero.
pub open spec fn clamp0(e: int) -> nat {
    if e > 0 {
        e as nat
    } else {
        0
    }
}

/// The relation between a value `num / den` and its first bits: `m` is the
/// integer part of the value divided by `2^e`, and `sticky` tells whether
/// something was cut off.
pub open spec fn holds(m: int, e: int, sticky: bool, num: nat, den: nat) -> bool {
    let a = num * pow2(clamp0(-e));
    let b = den * pow2(clamp0(e));
    a / b == m && sticky == (a % b != 0)
}

/// A power of two that fits in 128 bits.
fn power(k: u32) -> (r: u128)
    requires
        k <= 127,
    ensures
        r == pow2(k as nat),
        r > 0,
{
    let mut out: u128 = 1;
    let mut i: u32 = 0;
    proof {
        lemma2_to64();
        lemma_pow2_127();
    }
    while i < k
        invariant
            i <= k <= 127,
            out == pow2(i as nat),
            out > 0,
            pow2(127) == 0x8000_0000_0000_0000_0000_0000_0000_0000,
        decreases k - i,
    {
        proof {
            lemma_pow2_unfold((i + 1) as nat);
            if i + 1 < 127 {
                lemma_pow2_strictly_increases((i + 1) as nat, 127);
            }
        }
        out = out * 2;
        i += 1;
    }
    out
}

/// The powers of two that the proofs compute with.
proof fn lemma_pow2_127()
    ensures
        pow2(127) == 0x8000_0000_0000_0000_0000_0000_0000_0000,
        pow2(52) == HIDDEN,
        pow2(53) == 0x20_0000_0000_0000,
        pow2(63) == SIGN,
        pow2(64) == 0x1_0000_0000_0000_0000,
{
    lemma2_to64();
    lemma2_to64_rest();
    lemma_pow2_adds(63, 64);
    assert(0x8000_0000_0000_0000 * 0x1_0000_0000_0000_0000
        == 0x8000_0000_0000_0000_0000_0000_0000_0000) by (nonlinear_arith);
}

/// The number of bits of an integer below 2^127.
fn bit_length(m: u128) -> (r: u32)
    requires
        m < pow2(127),
    ensures
        r <= 127,
        m < pow2(r as nat),
        m > 0 ==> r > 0 && m >= pow2((r - 1) as nat),
        m == 0 ==> r == 0,
{
    let mut k: u32 = 0;
    let mut bound: u128 = 1;
    proof {
        lemma2_to64();
        lemma_pow2_127();
    }
    while m >= bound
        invariant
            k <= 127,
            m < pow2(127),
            bound == pow2(k as nat),
            pow2(127) == 0x8000_0000_0000_0000_0000_0000_0000_0000,
            bound >= 1,
            m == 0 ==> k == 0,
            k > 0 ==> m >= pow2((k - 1) as nat),
        decreases 127 - k,
    {
        proof {
            if k < 127 {
                lemma_pow2_unfold((k + 1) as nat);
                if k + 1 < 127 {
                    lemma_pow2_strictly_increases((k + 1) as nat, 127);
                }
            }
        }
        bound = bound * 2;
        k += 1;
    }
    k
}

/// Powers of two grow with the exponent.
proof fn lemma_pow2_le(a: nat, b: nat)
    requires
        a <= b,
    ensures
        pow2(a) <= pow2(b),
{
    if a < b {
        lemma_pow2_strictly_increases(a, b);
    }
}

/// The exponent that `fit` chooses, read off the number of leading bits.
proof fn lemma_fit_of_bits(m: nat, e: int, sticky: bool, num: nat, den: nat, len: nat, t: nat)
    requires
        den > 0,
        m > 0,
        holds(m as int, e, sticky, num, den),
        len > 0,
        pow2((len - 1) as nat) <= m < pow2(len),
        t == clamp0(len + e - 53),
    ensures
        fit(num, den) == t,
{
    let ne = clamp0(-e);
    let pe = clamp0(e);
    let a = num * pow2(ne);
    let b = den * pow2(pe);
    lemma_pow2_pos(pe);
    lemma_pow2_pos(ne);
    lemma_mul_strictly_positive(den as int, pow2(pe) as int);
    lemma_fundamental_div_mod(a as int, b as int);
    lemma_mod_pos_bound(a as int, b as int);
    // Upper bound.
    assert(a < pow2(len) * b) by (nonlinear_arith)
        requires
            a == b * m + a % b,
            a % b < b,
            m + 1 <= pow2(len),
            b > 0,
    ;
    lemma_pow2_adds(len, pe);
    assert(pow2(len) * b == den * pow2(len + pe)) by (nonlinear_arith)
        requires
            b == den * pow2(pe),
            pow2(len + pe) == pow2(len) * pow2(pe),
    ;
    lemma_pow2_le(len + pe, (t + 53 + ne) as nat);
    lemma_pow2_adds((t + 53) as nat, ne);
    assert(den * pow2(len + pe) <= den * pow2((t + 53 + ne) as nat)) by (nonlinear_arith)
        requires
            pow2(len + pe) <= pow2((t + 53 + ne) as nat),
    ;
    assert(num < den * pow2((t + 53) as nat)) by (nonlinear_arith)
        requires
            num * pow2(ne) < den * pow2((t + 53 + ne) as nat),
            pow2((t + 53 + ne) as nat) == pow2((t + 53) as nat) * pow2(ne),
            pow2(ne) > 0,
    ;
    // Lower bound.
    if t > 0 {
        let below = (len - 1) as nat;
        assert(a >= pow2(below) * b) by (nonlinear_arith)
            requires
                a == b * m + a % b,
                a % b >= 0,
                m >= pow2(below),
                b > 0,
        ;
        lemma_pow2_adds(below, pe);
        assert(pow2(below) * b == den * pow2(below + pe)) by (nonlinear_arith)
            requires
                b == den * pow2(pe),
                pow2(below + pe) == pow2(below) * pow2(pe),
        ;
        assert(below + pe == t + 52 + ne);
        lemma_pow2_adds((t + 52) as nat, ne);
        assert(num >= den * pow2((t + 52) as nat)) by (nonlinear_arith)
            requires
                num * pow2(ne) >= den * pow2((t + 52 + ne) as nat),
                pow2((t + 52 + ne) as nat) == pow2((t + 52) as nat) * pow2(ne),
                pow2(ne) > 0,
        ;
    }
    lemma_fit_unique(num, den, t);
}

/// Rounding at an exponent above that of the leading bits.
proof fn lemma_round_right(m: nat, e: int, sticky: bool, num: nat, den: nat, t: nat)
    requires
        den > 0,
        holds(m as int, e, sticky, num, den),
        t > e,
    ensures
        ({
            let p = pow2((t - e) as nat);
            let low = m % p;
            &&& p % 2 == 0
            &&& p / 2 == pow2((t - e - 1) as nat)
            &&& nearest_even(num, den * pow2(t)) == if low < p / 2 || (low == p / 2 && !sticky && (m
                / p) % 2 == 0) {
                m / p
            } else {
                m / p + 1
            }
        }),
{
    let ne = clamp0(-e);
    let pe = clamp0(e);
    let s = (t - e) as nat;
    let p = pow2(s);
    let a = num * pow2(ne);
    let b = den * pow2(pe);
    lemma_pow2_pos(ne);
    lemma_pow2_pos(pe);
    lemma_pow2_pos(t);
    lemma_pow2_pos(s);
    lemma_pow2_unfold(s);
    lemma_mul_strictly_positive(den as int, pow2(pe) as int);
    lemma_mul_strictly_positive(den as int, pow2(t) as int);
    lemma_nearest_scale(num, den * pow2(t), pow2(ne));
    lemma_pow2_adds(t, ne);
    lemma_pow2_adds(pe, s);
    assert(t + ne == pe + s);
    assert((den * pow2(t)) * pow2(ne) == b * p) by (nonlinear_arith)
        requires
            pow2(t) * pow2(ne) == pow2(pe) * p,
            b == den * pow2(pe),
    ;
    lemma_nearest_split(a, b, p);
}

/// Rounding at an exponent that loses nothing.
proof fn lemma_round_left(m: nat, e: int, num: nat, den: nat, t: nat)
    requires
        den > 0,
        holds(m as int, e, false, num, den),
        t <= e,
    ensures
        nearest_even(num, den * pow2(t)) == m * pow2((e - t) as nat),
{
    let ne = clamp0(-e);
    let pe = clamp0(e);
    assert(ne == 0 && pe == e);
    lemma2_to64();
    lemma_pow2_pos(pe);
    lemma_pow2_pos(t);
    lemma_mul_strictly_positive(den as int, pow2(pe) as int);
    lemma_mul_strictly_positive(den as int, pow2(t) as int);
    let b = den * pow2(pe);
    assert(num * pow2(0) == num);
    lemma_fundamental_div_mod(num as int, b as int);
    assert(num == b * m);
    lemma_pow2_adds(t, (e - t) as nat);
    let q = m * pow2((e - t) as nat);
    assert(num == q * (den * pow2(t))) by (nonlinear_arith)
        requires
            num == (den * pow2(pe)) * m,
            pow2(pe) == pow2(t) * pow2((e - t) as nat),
            q == m * pow2((e - t) as nat),
    ;
    lemma_nearest_exact(q, den * pow2(t));
}

/// Rounds a value given by its leading bits.
#[verifier::rlimit(40)]
fn round_bits(
    m: u128,
    e: i32,
    sticky: bool,
    Ghost(num): Ghost<nat>,
    Ghost(den): Ghost<nat>,
) -> (r: u64)
    requires
        den > 0,
        m < pow2(127),
        -5000 <= e <= 5000,
        holds(m as int, e as int, sticky, num, den),
        sticky ==> m >= pow2(54),
    ensures
        r == rounded(num, den),
        r <= INFINITY,
{
    proof {
        lemma_pow2_127();
        lemma_pow2_pos(54);
    }
    if m == 0 {
        proof {
            let ne = clamp0(-e);
            let pe = clamp0(e as int);
            lemma_pow2_pos(ne);
            lemma_pow2_pos(pe);
            lemma_mul_strictly_positive(den as int, pow2(pe) as int);
            lemma_fundamental_div_mod((num * pow2(ne)) as int, (den * pow2(pe)) as int);
            assert(num == 0) by (nonlinear_arith)
                requires
                    num * pow2(ne) == 0,
                    pow2(ne) > 0,
            ;
            assert(den * pow2(53) > 0) by (nonlinear_arith)
                requires
                    den > 0,
                    pow2(53) > 0,
            ;
            assert(fit(num, den) == 0);
            lemma2_to64();
            assert(den * pow2(0) == den);
            lemma_nearest_exact(0, den);
        }
        return 0;
    }
    let len = bit_length(m);
    let top: i32 = len as i32 + e - 53;
    let t: i32 = if top > 0 {
        top
    } else {
        0
    };
    proof {
        lemma_fit_of_bits(m as nat, e as int, sticky, num, den, len as nat, t as nat);
    }
    if t > 2046 {
        proof {
            assert(t * HIDDEN >= 2047 * HIDDEN);
        }
        return INFINITY;
    }
    let mut q: u64 = 0;
    if t > e {
        let s = t - e;
        proof {
            lemma_round_right(m as nat, e as int, sticky, num, den, t as nat);
        }
        if s <= 127 {
            let p = power(s as u32);
            let half = p / 2;
            let low = m % p;
            let high = m / p;
            proof {
                // The part above the cut has at most 53 bits.
                let cut = s as nat;
                lemma_pow2_adds(53, cut);
                lemma_pow2_le(len as nat, 53 + cut);
                assert(high < pow2(53)) by {
                    lemma_fundamental_div_mod(m as int, p as int);
                    lemma_mod_pos_bound(m as int, p as int);
                    assert(high < pow2(53)) by (nonlinear_arith)
                        requires
                            m == p * high + m % p,
                            m % p >= 0,
                            m < pow2(53) * p,
                            p > 0,
                    ;
                }
            }
            q = high as u64;
            if low > half || (low == half && (sticky || q % 2 == 1)) {
                q = q + 1;
            }
        } else {
            proof {
                // Everything is below the cut, and below its half.
                lemma_pow2_le(127, (s - 1) as nat);
                lemma_pow2_strictly_increases((s - 1) as nat, s as nat);
                lemma_small_mod(m as nat, pow2(s as nat));
                lemma_basic_div(m as int, pow2(s as nat) as int);
            }
            q = 0;
        }
    } else {
        let s = e - t;
        proof {
            assert(!sticky) by {
                if sticky {
                    if len <= 54 {
                        lemma_pow2_le(len as nat, 54);
                    }
                }
            }
            lemma_round_left(m as nat, e as int, num, den, t as nat);
            lemma_pow2_adds(len as nat, s as nat);
            lemma_pow2_le((len + s) as nat, 53);
            lemma_pow2_pos(s as nat);
            assert(m * pow2(s as nat) < pow2(len as nat) * pow2(s as nat)) by (nonlinear_arith)
                requires
                    m < pow2(len as nat),
                    pow2(s as nat) > 0,
            ;
        }
        let p = power(s as u32);
        q = (m * p) as u64;
    }
    let out = t as u64 * HIDDEN + q;
    if out > INFINITY {
        INFINITY
    } else {
        out
    }
}

// ---------------------------------------------------------------------------
// Taking numbers apart
// ---------------------------------------------------------------------------

/// The ranges of the significand and of the scale.
proof fn lemma_parts(mag: nat)
    requires
        mag <= INFINITY,
    ensures
        significand(mag) < pow2(53),
        mag >= HIDDEN ==> significand(mag) >= HIDDEN,
        mag < INFINITY ==> scale(mag) <= 2045,
        scale(mag) <= 2046,
        scale(mag) > 0 ==> significand(mag) >= HIDDEN,
        significand(mag) == 0 <==> mag == 0,
        mag == scale(mag) * HIDDEN + significand(mag),
{
    lemma_pow2_127();
}

/// A magnitude and the rounding of its own value are the same.
pub proof fn lemma_rounded_units(mag: nat)
    requires
        mag < INFINITY,
    ensures
        rounded(units(mag), 1) == mag,
{
    lemma_parts(mag);
    lemma_pow2_127();
    let m = significand(mag);
    let t = scale(mag);
    lemma_pow2_pos(t);
    lemma_pow2_adds(53, t);
    lemma_pow2_adds(52, t);
    assert(units(mag) < 1 * pow2(t + 53)) by (nonlinear_arith)
        requires
            units(mag) == m * pow2(t),
            m < pow2(53),
            pow2(t + 53) == pow2(53) * pow2(t),
            pow2(t) > 0,
    ;
    if t > 0 {
        assert(units(mag) >= 1 * pow2(t + 52)) by (nonlinear_arith)
            requires
                units(mag) == m * pow2(t),
                m >= pow2(52),
                pow2(t + 52) == pow2(52) * pow2(t),
                pow2(t) > 0,
        ;
    }
    lemma_fit_unique(units(mag), 1, t);
    lemma_nearest_exact(m, pow2(t));
    assert(1 * pow2(t) == pow2(t));
}

/// A common factor does not change the rounding.
pub proof fn lemma_rounded_scale(num: nat, den: nat, k: nat)
    requires
        den > 0,
        k > 0,
    ensures
        rounded(num * k, den * k) == rounded(num, den),
{
    let t = fit(num, den);
    lemma_fit(num, den);
    lemma_mul_strictly_positive(den as int, k as int);
    lemma_pow2_pos(t);
    let high = pow2(t + 53);
    assert(num * k < (den * k) * high) by (nonlinear_arith)
        requires
            num < den * high,
            k > 0,
    ;
    if t > 0 {
        let low = pow2((t + 52) as nat);
        assert(num * k >= (den * k) * low) by (nonlinear_arith)
            requires
                num >= den * low,
                k > 0,
        ;
    }
    lemma_fit_unique(num * k, den * k, t);
    lemma_mul_strictly_positive(den as int, pow2(t) as int);
    lemma_nearest_scale(num, den * pow2(t), k);
    assert((den * k) * pow2(t) == (den * pow2(t)) * k) by (nonlinear_arith);
}

/// Leading bits without a rest.
proof fn lemma_holds_exact(m: nat, e: int, num: nat, den: nat)
    requires
        den > 0,
        num * pow2(clamp0(-e)) == m * (den * pow2(clamp0(e))),
    ensures
        holds(m as int, e, false, num, den),
{
    let b = den * pow2(clamp0(e));
    lemma_pow2_pos(clamp0(e));
    lemma_mul_strictly_positive(den as int, pow2(clamp0(e)) as int);
    lemma_div_by_multiple(m as int, b as int);
    lemma_mod_multiples_basic(m as int, b as int);
}

/// Leading bits of an integer that is scaled up.
proof fn lemma_holds_integer(m: nat, e: nat)
    ensures
        holds(m as int, e as int, false, m * pow2(e), 1),
{
    lemma2_to64();
    assert((m * pow2(e)) * pow2(0) == m * (1 * pow2(e))) by (nonlinear_arith)
        requires
            pow2(0) == 1,
    ;
    lemma_holds_exact(m, e as int, m * pow2(e), 1);
}

/// A common factor of dividend and divisor.
proof fn lemma_div_factor(x: nat, y: nat, f: nat)
    requires
        y > 0,
        f > 0,
    ensures
        (x * f) / (y * f) == x / y,
        (x * f) % (y * f) == f * (x % y),
        ((x * f) % (y * f) == 0) == (x % y == 0),
        y * f > 0,
{
    lemma_mul_is_commutative(x as int, f as int);
    lemma_mul_is_commutative(y as int, f as int);
    lemma_div_multiples_vanish_quotient(f as int, x as int, y as int);
    lemma_mul_strictly_positive(f as int, y as int);
    lemma_truncate_middle(x as int, f as int, y as int);
    if x % y != 0 {
        lemma_mul_nonzero(f as int, (x % y) as int);
    } else {
        lemma_mul_basics(f as int);
    }
}

/// Leading bits of an integer that is cut at bit `c` and scaled by `2^k`.
proof fn lemma_holds_cut(x: nat, c: nat, k: nat)
    ensures
        holds((x / pow2(c)) as int, (k + c) as int, x % pow2(c) != 0, x * pow2(k), 1),
{
    lemma2_to64();
    lemma_pow2_pos(c);
    lemma_pow2_pos(k);
    lemma_pow2_adds(c, k);
    lemma_div_factor(x, pow2(c), pow2(k));
    let num = x * pow2(k);
    assert(num * pow2(0) == num);
    assert(1 * pow2((k + c) as nat) == pow2(c) * pow2(k));
}

/// The sign of a number.
pub fn sign(bits: u64) -> (r: bool)
    ensures
        r == negative(bits),
{
    bits >= SIGN
}

/// The bits without the sign.
pub fn unsigned(bits: u64) -> (r: u64)
    ensures
        r == magnitude(bits),
        r < SIGN,
{
    if bits >= SIGN {
        bits - SIGN
    } else {
        bits
    }
}

/// Puts a sign to a magnitude.
fn with_sign(neg: bool, mag: u64) -> (r: u64)
    requires
        mag < SIGN,
    ensures
        r == signed(neg, mag as nat),
{
    if neg {
        SIGN + mag
    } else {
        mag
    }
}

/// The significand and the scale of a finite number.
fn parts(bits: u64) -> (r: (u64, i32))
    requires
        is_finite(bits),
    ensures
        r.0 == significand(magnitude(bits)),
        r.1 == scale(magnitude(bits)),
        r.0 < pow2(53),
        0 <= r.1 <= 2045,
        r.1 > 0 ==> r.0 >= HIDDEN,
        r.0 == 0 <==> is_zero(bits),
{
    let mag = unsigned(bits);
    proof {
        lemma_parts(mag as nat);
    }
    if mag < HIDDEN {
        (mag, 0)
    } else {
        (mag % HIDDEN + HIDDEN, (mag / HIDDEN - 1) as i32)
    }
}

/// The magnitude zero has the value zero.
pub proof fn lemma_units_zero()
    ensures
        units(0) == 0,
{
    lemma_mul_basics(pow2(0) as int);
}

/// Larger magnitudes have larger values.
proof fn lemma_units_monotone(a: nat, b: nat)
    requires
        a < b <= INFINITY,
    ensures
        units(a) < units(b),
{
    lemma_parts(a);
    lemma_parts(b);
    lemma_pow2_127();
    let (ma, sa) = (significand(a), scale(a));
    let (mb, sb) = (significand(b), scale(b));
    lemma_pow2_pos(sa);
    lemma_pow2_pos(sb);
    if sa == sb {
        assert(ma * pow2(sa) < mb * pow2(sa)) by (nonlinear_arith)
            requires
                ma < mb,
                pow2(sa) > 0,
        ;
    } else {
        assert(sa < sb);
        lemma_pow2_le(sa + 1, sb);
        lemma_pow2_unfold(sa + 1);
        assert(ma * pow2(sa) < mb * pow2(sb)) by (nonlinear_arith)
            requires
                ma < pow2(53),
                mb >= pow2(52),
                pow2(53) == 2 * pow2(52),
                pow2(sb) >= 2 * pow2(sa),
                pow2(sa) > 0,
        ;
    }
}

// ---------------------------------------------------------------------------
// Operations
// ---------------------------------------------------------------------------

/// Whether the bits denote a finite number.
pub fn finite(a: u64) -> (r: bool)
    ensures
        r == is_finite(a),
{
    unsigned(a) < INFINITY
}

/// Whether the bits denote a zero of either sign.
pub fn zero(a: u64) -> (r: bool)
    ensures
        r == is_zero(a),
{
    unsigned(a) == 0
}

/// Changes the sign.
pub fn negate(a: u64) -> (r: u64)
    ensures
        r == opposite(a),
{
    with_sign(!sign(a), unsigned(a))
}

/// Removes the sign.
pub fn absolute(a: u64) -> (r: u64)
    ensures
        r == signed(false, magnitude(a)),
{
    unsigned(a)
}

/// Decides equality.
pub fn equals(a: u64, b: u64) -> (r: bool)
    ensures
        r == same(a, b),
{
    let x = unsigned(a);
    let y = unsigned(b);
    if x > INFINITY || y > INFINITY {
        return false;
    }
    proof {
        lemma_parts(x as nat);
        lemma_parts(y as nat);
        if x < y {
            lemma_units_monotone(x as nat, y as nat);
        } else if y < x {
            lemma_units_monotone(y as nat, x as nat);
        }
        if x > 0 {
            lemma_units_monotone(0, x as nat);
        }
        if y > 0 {
            lemma_units_monotone(0, y as nat);
        }
        lemma_units_zero();
    }
    x == y && (x == 0 || sign(a) == sign(b))
}

/// Decides the strict order.
pub fn precedes(a: u64, b: u64) -> (r: bool)
    ensures
        r == below(a, b),
{
    let x = unsigned(a);
    let y = unsigned(b);
    if x > INFINITY || y > INFINITY {
        return false;
    }
    proof {
        if x < y {
            lemma_units_monotone(x as nat, y as nat);
        } else if y < x {
            lemma_units_monotone(y as nat, x as nat);
        }
        if x > 0 {
            lemma_units_monotone(0, x as nat);
        }
        if y > 0 {
            lemma_units_monotone(0, y as nat);
        }
        lemma_units_zero();
    }
    if sign(a) {
        if sign(b) {
            y < x
        } else {
            x > 0 || y > 0
        }
    } else {
        if sign(b) {
            false
        } else {
            x < y
        }
    }
}

/// The number nearest to an unsigned integer.
pub fn from_u64(n: u64) -> (r: u64)
    ensures
        r == from_int(n as int),
{
    proof {
        lemma_pow2_127();
        lemma_pow2_le(64, 127);
        lemma_holds_integer(n as nat, 1074);
    }
    round_bits(n as u128, 1074, false, Ghost((n as nat) * one()), Ghost(1))
}

/// The number nearest to a signed integer.
pub fn from_i64(n: i64) -> (r: u64)
    ensures
        r == from_int(n as int),
{
    let m: u64 = if n < 0 {
        (-(n as i128)) as u64
    } else {
        n as u64
    };
    let bits = from_u64(m);
    with_sign(n < 0, unsigned(bits))
}

/// The sum or the difference of two significands at a common scale, with the
/// larger scale first.
#[verifier::rlimit(40)]
fn combine(ma: u64, ea: i32, mb: u64, eb: i32, minus: bool) -> (r: (u64, bool))
    requires
        ma < pow2(53),
        mb < pow2(53),
        0 <= eb <= ea <= 2045,
        ea > 0 ==> ma >= HIDDEN,
    ensures
        ({
            let x = ma * pow2(ea as nat);
            let y = mb * pow2(eb as nat);
            let total = if minus {
                x - y
            } else {
                x + y
            };
            r.0 == rounded(abs_nat(total), 1) && r.1 == (total < 0) && r.0 <= INFINITY
        }),
{
    let d = ea - eb;
    let ghost x = ma * pow2(ea as nat);
    let ghost y = mb * pow2(eb as nat);
    proof {
        lemma_pow2_127();
        lemma_pow2_adds(d as nat, eb as nat);
        lemma_pow2_pos(eb as nat);
    }
    if d <= 64 {
        let p = power(d as u32);
        proof {
            lemma_pow2_le(d as nat, 64);
            lemma_pow2_adds(53, 64);
            lemma_pow2_unfold(118);
            lemma_pow2_le(118, 127);
            lemma_pow2_le(53, 117);
            assert(ma * p <= pow2(53) * pow2(64)) by (nonlinear_arith)
                requires
                    ma < pow2(53),
                    p <= pow2(64),
                    p > 0,
            ;
            assert(x == (ma * p) * pow2(eb as nat)) by (nonlinear_arith)
                requires
                    x == ma * pow2(ea as nat),
                    pow2(ea as nat) == p * pow2(eb as nat),
            ;
        }
        let big = ma as u128 * p;
        let small = mb as u128;
        if minus {
            if big < small {
                let m = small - big;
                proof {
                    lemma_holds_integer(m as nat, eb as nat);
                    assert(m * pow2(eb as nat) == y - x && y - x > 0) by (nonlinear_arith)
                        requires
                            m == mb - big,
                            m > 0,
                            x == big * pow2(eb as nat),
                            y == mb * pow2(eb as nat),
                            pow2(eb as nat) > 0,
                    ;
                }
                let out = round_bits(m, eb, false, Ghost((y - x) as nat), Ghost(1));
                (out, true)
            } else {
                let m = big - small;
                proof {
                    lemma_holds_integer(m as nat, eb as nat);
                    assert(m * pow2(eb as nat) == x - y && x - y >= 0) by (nonlinear_arith)
                        requires
                            m == big - mb,
                            m >= 0,
                            x == big * pow2(eb as nat),
                            y == mb * pow2(eb as nat),
                            pow2(eb as nat) > 0,
                    ;
                }
                let out = round_bits(m, eb, false, Ghost((x - y) as nat), Ghost(1));
                (out, false)
            }
        } else {
            let m = big + small;
            proof {
                lemma_holds_integer(m as nat, eb as nat);
                assert(m * pow2(eb as nat) == x + y && x + y >= 0) by (nonlinear_arith)
                    requires
                        m == big + mb,
                        m >= 0,
                        x == big * pow2(eb as nat),
                        y == mb * pow2(eb as nat),
                        pow2(eb as nat) > 0,
                ;
            }
            let out = round_bits(m, eb, false, Ghost((x + y) as nat), Ghost(1));
            (out, false)
        }
    } else {
        let c = d - 64;
        let (high, low): (u64, bool) = if c <= 63 {
            let p = power(c as u32);
            ((mb as u128 / p) as u64, mb as u128 % p != 0)
        } else {
            proof {
                lemma_pow2_le(53, c as nat);
                lemma_small_mod(mb as nat, pow2(c as nat));
                lemma_basic_div(mb as int, pow2(c as nat) as int);
            }
            (0, mb != 0)
        };
        let ghost p = pow2(c as nat);
        let big = ma as u128 * 0x1_0000_0000_0000_0000;
        let ghost wide = big * p;
        proof {
            lemma_pow2_pos(c as nat);
            assert(high == mb as nat / p && low == (mb as nat % p != 0));
            lemma_fundamental_div_mod(mb as int, p as int);
            lemma_mod_pos_bound(mb as int, p as int);
            assert(high <= mb) by {
                lemma_div_nonincreasing(mb as int, p as int);
            }
            lemma_pow2_adds(64, c as nat);
            assert(x == wide * pow2(eb as nat)) by (nonlinear_arith)
                requires
                    x == ma * pow2(ea as nat),
                    pow2(ea as nat) == pow2(d as nat) * pow2(eb as nat),
                    pow2(d as nat) == 0x1_0000_0000_0000_0000 * p,
                    wide == (ma * 0x1_0000_0000_0000_0000) * p,
            ;
            lemma_pow2_le(64, 127);
            lemma_pow2_adds(53, 64);
            lemma_pow2_unfold(118);
            lemma_pow2_le(118, 127);
            lemma2_to64_rest();
            assert(big >= 0x10_0000_0000_0000 * 0x1_0000_0000_0000_0000);
        }
        if minus {
            let m = if low {
                big - high as u128 - 1
            } else {
                big - high as u128
            };
            proof {
                let whole = (wide - mb) as nat;
                assert(wide >= big) by (nonlinear_arith)
                    requires
                        wide == big * p,
                        p >= 1,
                ;
                assert(wide >= mb);
                if low {
                    assert(whole == m * p + (p - mb as nat % p)) by (nonlinear_arith)
                        requires
                            whole == big * p - mb,
                            mb == p * high + mb as nat % p,
                            m == big - high - 1,
                    ;
                    lemma_fundamental_div_mod_converse(
                        whole as int,
                        p as int,
                        m as int,
                        p - mb as nat % p,
                    );
                } else {
                    assert(whole == m * p) by (nonlinear_arith)
                        requires
                            whole == big * p - mb,
                            mb == p * high,
                            m == big - high,
                    ;
                    lemma_fundamental_div_mod_converse(whole as int, p as int, m as int, 0);
                }
                lemma_holds_cut(whole, c as nat, eb as nat);
                assert(whole * pow2(eb as nat) == x - y && x - y >= 0) by (nonlinear_arith)
                    requires
                        whole == wide - mb,
                        whole >= 0,
                        x == wide * pow2(eb as nat),
                        y == mb * pow2(eb as nat),
                        pow2(eb as nat) > 0,
                ;
            }
            let out = round_bits(m, eb + c, low, Ghost((x - y) as nat), Ghost(1));
            (out, false)
        } else {
            let m = big + high as u128;
            proof {
                let whole = (wide + mb) as nat;
                assert(whole == m * p + mb as nat % p) by (nonlinear_arith)
                    requires
                        whole == big * p + mb,
                        mb == p * high + mb as nat % p,
                        m == big + high,
                ;
                assert(0 <= (mb as nat % p) as int && ((mb as nat % p) as int) < p as int);
                lemma_fundamental_div_mod_converse(
                    whole as int,
                    p as int,
                    m as int,
                    (mb as nat % p) as int,
                );
                lemma_holds_cut(whole, c as nat, eb as nat);
                assert(whole * pow2(eb as nat) == x + y) by (nonlinear_arith)
                    requires
                        whole == wide + mb,
                        x == wide * pow2(eb as nat),
                        y == mb * pow2(eb as nat),
                ;
            }
            let out = round_bits(m, eb + c, low, Ghost((x + y) as nat), Ghost(1));
            (out, false)
        }
    }
}

/// Adds two numbers.
#[verifier::rlimit(40)]
pub fn plus(a: u64, b: u64) -> (r: u64)
    ensures
        r == sum(a, b),
{
    let x = unsigned(a);
    let y = unsigned(b);
    if x > INFINITY || y > INFINITY {
        return NAN;
    }
    if x == INFINITY {
        if y == INFINITY && sign(a) != sign(b) {
            return NAN;
        }
        return a;
    }
    if y == INFINITY {
        return b;
    }
    let (ma, ea) = parts(a);
    let (mb, eb) = parts(b);
    let minus = sign(a) != sign(b);
    let (mag, flipped, lead) = if ea >= eb {
        let (mag, flipped) = combine(ma, ea, mb, eb, minus);
        (mag, flipped, sign(a))
    } else {
        let (mag, flipped) = combine(mb, eb, ma, ea, minus);
        (mag, flipped, sign(b))
    };
    proof {
        lemma_parts(x as nat);
        lemma_parts(y as nat);
        lemma_rounded_units(0);
        lemma_units_zero();
        let total = value(a) + value(b);
        if total != 0 {
            lemma_rounded_positive(abs_nat(total));
        }
    }
    if mag == 0 {
        // Units never round to zero, so the sum itself is zero.
        return with_sign(sign(a) && sign(b), 0);
    }
    with_sign(lead != flipped, mag)
}

/// A positive number of units does not round to zero.
proof fn lemma_rounded_positive(n: nat)
    requires
        n > 0,
    ensures
        rounded(n, 1) > 0,
{
    lemma_fit(n, 1);
    lemma2_to64();
    let t = fit(n, 1);
    if t == 0 {
        assert(1 * pow2(0) == 1);
        lemma_nearest_exact(n, 1);
        assert(n * 1 == n);
    } else {
        assert(t * HIDDEN as nat > 0) by (nonlinear_arith)
            requires
                t > 0,
                HIDDEN > 0,
        ;
    }
}

/// Subtracts two numbers.
pub fn minus(a: u64, b: u64) -> (r: u64)
    ensures
        r == difference(a, b),
{
    plus(a, negate(b))
}

/// Multiplies two numbers.
pub fn times(a: u64, b: u64) -> (r: u64)
    ensures
        r == product(a, b),
{
    let x = unsigned(a);
    let y = unsigned(b);
    let neg = sign(a) != sign(b);
    if x > INFINITY || y > INFINITY {
        return NAN;
    }
    if x == INFINITY || y == INFINITY {
        if x == 0 || y == 0 {
            return NAN;
        }
        return with_sign(neg, INFINITY);
    }
    let (ma, ea) = parts(a);
    let (mb, eb) = parts(b);
    let ghost num = units(x as nat) * units(y as nat);
    proof {
        lemma_pow2_127();
        lemma_pow2_adds(53, 53);
        lemma_pow2_le(106, 127);
        assert(ma * mb < pow2(53) * pow2(53)) by (nonlinear_arith)
            requires
                ma < pow2(53),
                mb < pow2(53),
        ;
        let e = ea + eb - 1074;
        let ne = clamp0(-e);
        let pe = clamp0(e as int);
        lemma_pow2_pos(1074);
        lemma_pow2_adds(ea as nat, eb as nat);
        lemma_pow2_adds((ea + eb) as nat, ne);
        lemma_pow2_adds(1074, pe);
        assert(num * pow2(ne) == (ma * mb) * (one() * pow2(pe))) by (nonlinear_arith)
            requires
                num == (ma * pow2(ea as nat)) * (mb * pow2(eb as nat)),
                (pow2(ea as nat) * pow2(eb as nat)) * pow2(ne) == one() * pow2(pe),
        ;
        lemma_holds_exact((ma * mb) as nat, e as int, num, one());
    }
    let m = ma as u128 * mb as u128;
    let mag = round_bits(m, ea + eb - 1074, false, Ghost(num), Ghost(one()));
    with_sign(neg, mag)
}

/// Divides two numbers.
#[verifier::rlimit(40)]
pub fn divide(a: u64, b: u64) -> (r: u64)
    ensures
        r == quotient(a, b),
{
    let x = unsigned(a);
    let y = unsigned(b);
    let neg = sign(a) != sign(b);
    if x > INFINITY || y > INFINITY {
        return NAN;
    }
    if x == INFINITY {
        if y == INFINITY {
            return NAN;
        }
        return with_sign(neg, INFINITY);
    }
    if y == INFINITY {
        return with_sign(neg, 0);
    }
    if y == 0 {
        if x == 0 {
            return NAN;
        }
        return with_sign(neg, INFINITY);
    }
    let (ma, ea) = parts(a);
    let (mb, eb) = parts(b);
    let ghost num = units(x as nat) * one();
    let ghost den = units(y as nat);
    proof {
        lemma_pow2_pos(eb as nat);
        lemma_pow2_pos(1074);
        lemma_mul_strictly_positive(mb as int, pow2(eb as nat) as int);
    }
    if ma == 0 {
        proof {
            lemma_rounded_zero(den);
            assert(num == 0) by (nonlinear_arith)
                requires
                    num == (0 * pow2(ea as nat)) * one(),
            ;
        }
        return with_sign(neg, 0);
    }
    let len = bit_length_u64(ma);
    let k = 117 - len;
    let p = power(k);
    proof {
        lemma_pow2_127();
        lemma_pow2_adds(k as nat, len as nat);
        lemma_pow2_le(117, 127);
        lemma_pow2_le(116, 127);
        lemma_pow2_unfold(117);
        lemma_pow2_adds(k as nat, (len - 1) as nat);
        assert(pow2(116) <= ma * p < pow2(117)) by (nonlinear_arith)
            requires
                pow2((len - 1) as nat) <= ma < pow2(len as nat),
                p == pow2(k as nat),
                p > 0,
                pow2(k as nat) * pow2(len as nat) == pow2(117),
                pow2(k as nat) * pow2((len - 1) as nat) == pow2(116),
        ;
    }
    let wide = ma as u128 * p;
    let m = wide / mb as u128;
    let sticky = wide % mb as u128 != 0;
    let e = ea + 1074 - k as i32 - eb;
    proof {
        let ne = clamp0(-e);
        let pe = clamp0(e as int);
        let f = pow2((eb + pe) as nat);
        lemma_pow2_pos((eb + pe) as nat);
        lemma_pow2_adds(ea as nat, 1074);
        lemma_pow2_adds((ea + 1074) as nat, ne);
        lemma_pow2_adds(eb as nat, pe);
        lemma_pow2_adds(k as nat, (eb + pe) as nat);
        assert(ea + 1074 + ne == k + eb + pe);
        assert(num * pow2(ne) == wide * f) by (nonlinear_arith)
            requires
                num == (ma * pow2(ea as nat)) * one(),
                (pow2(ea as nat) * one()) * pow2(ne) == p * f,
                wide == ma * p,
        ;
        assert(den * pow2(pe) == mb * f) by (nonlinear_arith)
            requires
                den == mb * pow2(eb as nat),
                f == pow2(eb as nat) * pow2(pe),
        ;
        lemma_div_factor(wide as nat, mb as nat, f);
        assert(m as int == wide as int / mb as int);
        assert(sticky == (wide as nat % mb as nat != 0));
        assert(holds(m as int, e as int, sticky, num, den));
        // The quotient keeps at least 63 bits.
        lemma_pow2_adds(53, 63);
        lemma_pow2_le(54, 63);
        lemma_pow2_le(117, 127);
        lemma_div_nonincreasing(wide as int, mb as int);
        assert(m >= pow2(63) - 1) by {
            lemma_fundamental_div_mod(wide as int, mb as int);
            lemma_mod_pos_bound(wide as int, mb as int);
            assert(m >= pow2(63) - 1) by (nonlinear_arith)
                requires
                    wide == mb * m + wide as int % mb as int,
                    wide as int % mb as int <= mb,
                    wide >= pow2(53) * pow2(63),
                    mb < pow2(53),
                    mb > 0,
            ;
        }
        lemma2_to64_rest();
    }
    let mag = round_bits(m, e, sticky, Ghost(num), Ghost(den));
    with_sign(neg, mag)
}

/// Zero rounds to zero.
proof fn lemma_rounded_zero(den: nat)
    requires
        den > 0,
    ensures
        rounded(0, den) == 0,
{
    lemma_pow2_pos(53);
    lemma_mul_strictly_positive(den as int, pow2(53) as int);
    lemma2_to64();
    assert(den * pow2(0) == den);
    lemma_nearest_exact(0, den);
}

/// The number of bits of a significand.
fn bit_length_u64(m: u64) -> (r: u32)
    requires
        0 < m < pow2(53),
    ensures
        0 < r <= 53,
        pow2((r - 1) as nat) <= m < pow2(r as nat),
{
    proof {
        lemma_pow2_le(53, 127);
    }
    let r = bit_length(m as u128);
    proof {
        if r > 53 {
            lemma_pow2_le(53, (r - 1) as nat);
        }
    }
    r
}

/// `m * 2^d` modulo `n`.
fn shifted_mod(m: u64, d: u32, n: u64) -> (r: u64)
    requires
        0 < n < pow2(53),
    ensures
        r as nat == (m * pow2(d as nat)) as nat % n as nat,
        r < n,
{
    let mut out: u64 = m % n;
    let mut i: u32 = 0;
    proof {
        lemma2_to64();
        lemma_pow2_127();
        assert(m * pow2(0) == m);
    }
    while i < d
        invariant
            i <= d,
            0 < n < pow2(53),
            pow2(53) == 0x20_0000_0000_0000,
            out < n,
            out as nat == (m * pow2(i as nat)) as nat % n as nat,
        decreases d - i,
    {
        proof {
            lemma_pow2_unfold((i + 1) as nat);
            let v = (m * pow2(i as nat)) as int;
            assert(m * pow2((i + 1) as nat) == 2 * v) by (nonlinear_arith)
                requires
                    pow2((i + 1) as nat) == 2 * pow2(i as nat),
                    v == m * pow2(i as nat),
            ;
            lemma_mul_mod_noop_right(2, v, n as int);
        }
        out = (2 * out) % n;
        i += 1;
    }
    out
}

/// The remainder of the truncated division.
#[verifier::rlimit(40)]
pub fn modulo(a: u64, b: u64) -> (r: u64)
    ensures
        r == remainder(a, b),
{
    let x = unsigned(a);
    let y = unsigned(b);
    if x >= INFINITY || y > INFINITY || y == 0 {
        return NAN;
    }
    if y == INFINITY {
        return a;
    }
    let (ma, ea) = parts(a);
    let (mb, eb) = parts(b);
    let ghost ua = units(x as nat);
    let ghost ub = units(y as nat);
    proof {
        lemma_pow2_127();
        lemma_pow2_le(53, 127);
        lemma_pow2_pos(ea as nat);
        lemma_pow2_pos(eb as nat);
    }
    let mag = if ea >= eb {
        let d = ea - eb;
        let m = shifted_mod(ma, d as u32, mb);
        proof {
            lemma_pow2_adds(d as nat, eb as nat);
            let w = (ma * pow2(d as nat)) as nat;
            assert(ua == w * pow2(eb as nat)) by (nonlinear_arith)
                requires
                    ua == ma * pow2(ea as nat),
                    pow2(ea as nat) == pow2(d as nat) * pow2(eb as nat),
                    w == ma * pow2(d as nat),
            ;
            lemma_div_factor(w, mb as nat, pow2(eb as nat));
            lemma_mul_is_commutative(m as int, pow2(eb as nat) as int);
            lemma_holds_integer(m as nat, eb as nat);
        }
        round_bits(m as u128, eb, false, Ghost(ua % ub), Ghost(1))
    } else {
        let d = eb - ea;
        let ghost w = (mb * pow2(d as nat)) as nat;
        proof {
            lemma_pow2_adds(d as nat, ea as nat);
            lemma_pow2_pos(d as nat);
            lemma_mul_strictly_positive(mb as int, pow2(d as nat) as int);
            assert(ub == w * pow2(ea as nat)) by (nonlinear_arith)
                requires
                    ub == mb * pow2(eb as nat),
                    pow2(eb as nat) == pow2(d as nat) * pow2(ea as nat),
                    w == mb * pow2(d as nat),
            ;
            lemma_div_factor(ma as nat, w, pow2(ea as nat));
        }
        let m: u128 = if d <= 64 {
            let p = power(d as u32);
            proof {
                lemma_pow2_le(d as nat, 64);
                lemma_pow2_adds(53, 64);
                lemma_pow2_le(117, 127);
                assert(mb * p <= pow2(53) * pow2(64)) by (nonlinear_arith)
                    requires
                        mb < pow2(53),
                        p <= pow2(64),
                        p > 0,
                ;
            }
            ma as u128 % (mb as u128 * p)
        } else {
            proof {
                lemma_pow2_le(53, d as nat);
                assert(w >= pow2(d as nat)) by (nonlinear_arith)
                    requires
                        w == mb * pow2(d as nat),
                        mb >= 1,
                ;
                lemma_small_mod(ma as nat, w);
            }
            ma as u128
        };
        proof {
            assert(m as nat == ma as nat % w);
            lemma_mod_decreases(ma as nat, w);
            lemma_mul_is_commutative(m as int, pow2(ea as nat) as int);
            lemma_holds_integer(m as nat, ea as nat);
        }
        round_bits(m, ea, false, Ghost(ua % ub), Ghost(1))
    };
    with_sign(sign(a), mag)
}

/// The integer part of a finite number's magnitude, unless it is at least 2^70,
/// and whether a fraction is left.
fn split_whole(a: u64) -> (r: (Option<u128>, bool))
    requires
        is_finite(a),
    ensures
        ({
            let u = units(magnitude(a));
            &&& r.1 == (u % one() != 0)
            &&& match r.0 {
                Some(w) => w == u / one() && w < pow2(127),
                None => u / one() >= pow2(70),
            }
        }),
{
    let (m, e) = parts(a);
    let ghost u = units(magnitude(a));
    proof {
        lemma_pow2_127();
        lemma_pow2_pos(1074);
    }
    if e >= 1074 {
        let d = e - 1074;
        proof {
            lemma_pow2_adds(d as nat, 1074);
            let w = (m * pow2(d as nat)) as nat;
            assert(u == w * one()) by (nonlinear_arith)
                requires
                    u == m * pow2(e as nat),
                    pow2(e as nat) == pow2(d as nat) * one(),
                    w == m * pow2(d as nat),
            ;
            lemma_div_by_multiple(w as int, one() as int);
            lemma_mod_multiples_basic(w as int, one() as int);
        }
        if d <= 70 {
            let p = power(d as u32);
            proof {
                lemma_pow2_le(d as nat, 70);
                lemma_pow2_adds(53, 70);
                lemma_pow2_le(123, 127);
                assert(m * p < pow2(53) * pow2(70)) by (nonlinear_arith)
                    requires
                        m < pow2(53),
                        p <= pow2(70),
                        p > 0,
                ;
            }
            (Some(m as u128 * p), false)
        } else {
            proof {
                lemma_pow2_le(70, d as nat);
                assert(m * pow2(d as nat) >= pow2(70)) by (nonlinear_arith)
                    requires
                        m >= 1,
                        pow2(d as nat) >= pow2(70),
                ;
            }
            (None, false)
        }
    } else {
        let s = 1074 - e;
        proof {
            lemma_pow2_adds(s as nat, e as nat);
            lemma_pow2_pos(s as nat);
            lemma_pow2_pos(e as nat);
            lemma_div_factor(m as nat, pow2(s as nat), pow2(e as nat));
            assert(u == m as nat * pow2(e as nat));
            assert(one() == pow2(s as nat) * pow2(e as nat));
            lemma_pow2_le(53, 127);
        }
        if s <= 64 {
            let p = power(s as u32);
            proof {
                lemma_div_nonincreasing(m as int, p as int);
            }
            (Some(m as u128 / p), m as u128 % p != 0)
        } else {
            proof {
                lemma_pow2_le(53, s as nat);
                lemma_small_mod(m as nat, pow2(s as nat));
                lemma_basic_div(m as int, pow2(s as nat) as int);
            }
            (Some(0), m != 0)
        }
    }
}

/// Rounds down to an integer.
pub fn floor(a: u64) -> (r: u64)
    ensures
        r == floored(a),
{
    if !finite(a) {
        return a;
    }
    let (whole, part) = split_whole(a);
    let ghost u = units(magnitude(a));
    proof {
        lemma_pow2_127();
        lemma_pow2_pos(1074);
        lemma_fundamental_div_mod(u as int, one() as int);
    }
    if !part {
        proof {
            lemma_rounded_units(magnitude(a));
            lemma_mul_is_commutative((u / one()) as int, one() as int);
        }
        return a;
    }
    match whole {
        Some(w) => {
            let n = if sign(a) {
                w + 1
            } else {
                w
            };
            proof {
                // A number with a fraction has fewer than 53 bits before it.
                lemma_small_whole(a);
                lemma_pow2_le(54, 127);
                lemma_pow2_unfold(54);
                lemma_holds_integer(n as nat, 1074);
            }
            let mag = round_bits(n, 1074, false, Ghost((n as nat) * one()), Ghost(1));
            with_sign(sign(a), mag)
        },
        None => {
            proof {
                lemma_small_whole(a);
                lemma_pow2_le(54, 70);
                lemma_pow2_unfold(54);
            }
            a
        },
    }
}

/// A number with a fraction is below 2^53.
proof fn lemma_small_whole(a: u64)
    requires
        is_finite(a),
        units(magnitude(a)) % one() != 0,
    ensures
        units(magnitude(a)) / one() < pow2(53),
{
    let mag = magnitude(a);
    let m = significand(mag);
    let e = scale(mag);
    let u = units(mag);
    lemma_parts(mag);
    lemma_pow2_pos(1074);
    lemma_pow2_pos(e);
    if e >= 1074 {
        let d = (e - 1074) as nat;
        lemma_pow2_adds(d, 1074);
        assert(u == (m * pow2(d)) * one()) by (nonlinear_arith)
            requires
                u == m * pow2(e),
                pow2(e) == pow2(d) * one(),
        ;
        lemma_mod_multiples_basic((m * pow2(d)) as int, one() as int);
    } else {
        lemma_pow2_le(e, 1074);
        assert(u < pow2(53) * one()) by (nonlinear_arith)
            requires
                u == m * pow2(e),
                m < pow2(53),
                pow2(e) <= one(),
                pow2(e) > 0,
        ;
        lemma_multiply_divide_lt(u as int, one() as int, pow2(53) as int);
    }
}

/// An integer of 64 bits is a finite number.
pub proof fn lemma_from_int_finite(n: int)
    requires
        -0x1_0000_0000_0000_0000 < n < 0x1_0000_0000_0000_0000,
    ensures
        is_finite(from_int(n)),
{
    let num = abs_nat(n) * one();
    let t = fit(num, 1);
    lemma_fit(num, 1);
    lemma_pow2_127();
    lemma2_to64();
    lemma2_to64_rest();
    lemma_pow2_pos(1074);
    lemma_pow2_adds(64, 1074);
    assert(num < pow2(1138)) by (nonlinear_arith)
        requires
            num == abs_nat(n) * one(),
            abs_nat(n) < pow2(64),
            one() > 0,
            pow2(1138) == pow2(64) * one(),
    ;
    if t + 52 >= 1138 {
        lemma_pow2_le(1138, t + 52);
    }
    lemma_pow2_pos(t);
    lemma_pow2_adds(53, t);
    let den = 1 * pow2(t);
    let q = num / den;
    assert(num < pow2(53) * den) by (nonlinear_arith)
        requires
            num < 1 * pow2(t + 53),
            pow2(t + 53) == pow2(53) * pow2(t),
            den == 1 * pow2(t),
    ;
    lemma_multiply_divide_lt(num as int, den as int, pow2(53) as int);
    assert(nearest_even(num, den) <= q + 1);
    assert(t * HIDDEN as nat <= 1085 * HIDDEN as nat) by (nonlinear_arith)
        requires
            t <= 1085,
    ;
}

/// The integer that a number holds gives the number back.
pub proof fn lemma_safe_integer(a: u64)
    requires
        is_safe_integer(a),
    ensures
        ({
            let n = truncated(a, i64::MIN as int, i64::MAX as int);
            &&& i64::MIN <= n <= i64::MAX
            &&& is_finite(from_int(n))
            &&& value(from_int(n)) == value(a)
        }),
{
    let mag = magnitude(a);
    let n = truncated(a, i64::MIN as int, i64::MAX as int);
    lemma2_to64();
    lemma2_to64_rest();
    lemma_pow2_pos(1074);
    lemma_fundamental_div_mod(units(mag) as int, one() as int);
    let whole = units(mag) / one();
    assert(abs_nat(n) == whole);
    assert(whole * one() == units(mag)) by (nonlinear_arith)
        requires
            units(mag) == one() * whole + 0,
    ;
    lemma_rounded_units(mag);
    if n == 0 {
        assert(0 * one() == 0) by (nonlinear_arith);
        assert(units(mag) == 0);
    }
}

/// A number of 53 bits, scaled by a power of two, is held exactly.
pub proof fn lemma_exact(m: nat, e: nat)
    requires
        m < pow2(53),
        e <= 2044,
    ensures
        rounded(m * pow2(e), 1) < INFINITY,
        units(rounded(m * pow2(e), 1)) == m * pow2(e),
    decreases e,
{
    lemma_pow2_127();
    lemma2_to64_rest();
    if m >= HIDDEN || e == 0 {
        let mag = e * HIDDEN as nat + m;
        assert(significand(mag) == m && scale(mag) == e && mag < INFINITY) by {
            if mag >= HIDDEN {
                lemma_scaled_parts(e as int, m as int);
            }
        }
        lemma_rounded_units(mag);
    } else {
        let d = (e - 1) as nat;
        lemma_pow2_unfold(e);
        assert(m * pow2(e) == (2 * m) * pow2(d)) by (nonlinear_arith)
            requires
                pow2(e) == 2 * pow2(d),
        ;
        lemma_exact(2 * m, d);
    }
}

/// The quotient of a multiple of the lowest exponent bit and a rest below twice
/// that bit.
proof fn lemma_scaled_parts(e: int, m: int)
    requires
        e >= 0,
        HIDDEN <= m < 2 * HIDDEN,
    ensures
        (e * HIDDEN + m) / (HIDDEN as int) == e + 1,
        (e * HIDDEN + m) % (HIDDEN as int) == m - HIDDEN,
{
    lemma_fundamental_div_mod_converse(
        e * HIDDEN + m,
        HIDDEN as int,
        e + 1,
        m - HIDDEN,
    );
}

/// An integer of 53 bits times 2^-53 is computed exactly.
pub proof fn lemma_unit_product(n: nat)
    requires
        n < pow2(53),
    ensures
        ({
            let r = product(from_int(n as int), 0x3ca0_0000_0000_0000);
            &&& is_finite(r)
            &&& !negative(r)
            &&& value(r) == n * pow2(1021)
            &&& n * pow2(1021) < one()
        }),
{
    let b: u64 = 0x3ca0_0000_0000_0000;
    lemma_pow2_127();
    lemma2_to64_rest();
    lemma_pow2_pos(1074);
    lemma_pow2_pos(1021);
    lemma_exact(n, 1074);
    lemma_exact(n, 1021);
    let a = from_int(n as int);
    assert(units(magnitude(a)) == n * one());
    assert(significand(magnitude(b)) == pow2(52) && scale(magnitude(b)) == 969);
    lemma_pow2_adds(52, 969);
    assert(units(magnitude(b)) == pow2(1021));
    assert((n * one()) * pow2(1021) == (n * pow2(1021)) * one()) by (nonlinear_arith);
    lemma_rounded_scale(n * pow2(1021), 1, one());
    assert(1 * one() == one());
    lemma_pow2_adds(53, 1021);
    assert(n * pow2(1021) < one()) by (nonlinear_arith)
        requires
            n < pow2(53),
            one() == pow2(53) * pow2(1021),
            pow2(1021) > 0,
    ;
}

/// The number zero is an integer.
pub proof fn lemma_zero_double()
    ensures
        from_int(0) == 0,
        is_safe_integer(0),
        truncated(0, i64::MIN as int, i64::MAX as int) == 0,
{
    lemma_units_zero();
    lemma_rounded_units(0);
    lemma_pow2_pos(1074);
    lemma_pow2_pos(53);
    assert(0 * one() == 0) by (nonlinear_arith);
}

/// The opposite number has the opposite value.
pub proof fn lemma_opposite(a: u64)
    ensures
        magnitude(opposite(a)) == magnitude(a),
        value(opposite(a)) == -value(a),
{
}

/// Cuts to a signed integer, clamped to its range.
pub fn to_i64(a: u64) -> (r: i64)
    ensures
        r == truncated(a, i64::MIN as int, i64::MAX as int),
{
    let x = unsigned(a);
    if x > INFINITY {
        return 0;
    }
    if x == INFINITY {
        return if sign(a) {
            i64::MIN
        } else {
            i64::MAX
        };
    }
    let (whole, _part) = split_whole(a);
    proof {
        lemma_pow2_127();
        lemma_pow2_le(64, 70);
    }
    match whole {
        Some(w) => {
            if sign(a) {
                if w >= 0x8000_0000_0000_0000 {
                    i64::MIN
                } else {
                    -(w as i64)
                }
            } else {
                if w >= 0x7fff_ffff_ffff_ffff {
                    i64::MAX
                } else {
                    w as i64
                }
            }
        },
        None => if sign(a) {
            i64::MIN
        } else {
            i64::MAX
        },
    }
}

/// Cuts to a size, clamped to its range.
pub fn to_usize(a: u64) -> (r: usize)
    ensures
        r == truncated(a, 0, usize::MAX as int),
{
    let x = unsigned(a);
    if x > INFINITY {
        return 0;
    }
    if x == INFINITY {
        return if sign(a) {
            0
        } else {
            usize::MAX
        };
    }
    let (whole, _part) = split_whole(a);
    proof {
        lemma_pow2_127();
        lemma_pow2_le(64, 70);
    }
    if sign(a) {
        return 0;
    }
    match whole {
        Some(w) => if w >= usize::MAX as u128 {
            usize::MAX
        } else {
            w as usize
        },
        None => usize::MAX,
    }
}

/// Decides whether the number is an integer of absolute value below 2^53.
pub fn safe_integer(a: u64) -> (r: bool)
    ensures
        r == is_safe_integer(a),
{
    if !finite(a) {
        return false;
    }
    let (whole, part) = split_whole(a);
    proof {
        lemma_pow2_127();
        lemma_pow2_le(53, 70);
    }
    match whole {
        Some(w) => !part && w < 0x20_0000_0000_0000,
        None => false,
    }
}

// ---------------------------------------------------------------------------
// What the operations are for
// ---------------------------------------------------------------------------

/// The value of a sign and a finite magnitude.
proof fn lemma_signed_value(neg: bool, mag: nat)
    requires
        mag < INFINITY,
    ensures
        is_finite(signed(neg, mag)),
        magnitude(signed(neg, mag)) == mag,
        value(signed(neg, mag)) == if neg {
            -(units(mag) as int)
        } else {
            units(mag) as int
        },
{
}

/// An integer of absolute value below 2^53 is held exactly, and is cut to itself.
pub proof fn law_integers_exact(n: int)
    requires
        -0x20_0000_0000_0000 < n < 0x20_0000_0000_0000,
    ensures
        is_finite(from_int(n)),
        value(from_int(n)) == n * pow2(1074),
        is_safe_integer(from_int(n)),
        truncated(from_int(n), i64::MIN as int, i64::MAX as int) == n,
{
    lemma2_to64_rest();
    lemma_pow2_pos(1074);
    let m = abs_nat(n);
    lemma_exact(m, 1074);
    let mag = rounded(m * one(), 1);
    lemma_signed_value(n < 0, mag);
    assert(value(from_int(n)) == n * one()) by (nonlinear_arith)
        requires
            n < 0 ==> value(from_int(n)) == -(m * one()),
            n >= 0 ==> value(from_int(n)) == m * one(),
            n < 0 ==> m == -n,
            n >= 0 ==> m == n,
    ;
    lemma_div_multiples_vanish(m as int, one() as int);
    lemma_mod_multiples_basic(m as int, one() as int);
    assert(one() * m == m * one()) by (nonlinear_arith);
}

/// A sum that is a number is given exactly.
pub proof fn law_sum_exact(a: u64, b: u64, c: u64)
    requires
        is_finite(a),
        is_finite(b),
        is_finite(c),
        value(a) + value(b) == value(c),
    ensures
        is_finite(sum(a, b)),
        value(sum(a, b)) == value(c),
{
    lemma_units_zero();
    lemma_rounded_units(magnitude(c));
    lemma_signed_value(negative(a) && negative(b), 0);
    lemma_signed_value(value(c) < 0, magnitude(c));
    if value(c) != 0 {
        assert(abs_nat(value(c)) == units(magnitude(c)));
    }
}

/// A difference that is a number is given exactly.
pub proof fn law_difference_exact(a: u64, b: u64, c: u64)
    requires
        is_finite(a),
        is_finite(b),
        is_finite(c),
        value(a) - value(b) == value(c),
    ensures
        is_finite(difference(a, b)),
        value(difference(a, b)) == value(c),
{
    lemma_opposite(b);
    law_sum_exact(a, opposite(b), c);
}

/// A product that is a number is given exactly. Values are multiples of 2^-1074.
pub proof fn law_product_exact(a: u64, b: u64, c: u64)
    requires
        is_finite(a),
        is_finite(b),
        is_finite(c),
        value(a) * value(b) == value(c) * pow2(1074),
    ensures
        is_finite(product(a, b)),
        value(product(a, b)) == value(c),
{
    lemma_pow2_pos(1074);
    let (x, y, z) = (units(magnitude(a)), units(magnitude(b)), units(magnitude(c)));
    let neg = negative(a) != negative(b);
    assert(x * y == z * one() && ((z > 0 && neg) ==> value(c) < 0) && ((z > 0 && !neg)
        ==> value(c) > 0)) by (nonlinear_arith)
        requires
            value(a) * value(b) == value(c) * one(),
            value(a) == if negative(a) {
                -(x as int)
            } else {
                x as int
            },
            value(b) == if negative(b) {
                -(y as int)
            } else {
                y as int
            },
            value(c) == if negative(c) {
                -(z as int)
            } else {
                z as int
            },
            neg == (negative(a) != negative(b)),
            one() > 0,
    ;
    lemma_rounded_scale(z, 1, one());
    assert(1 * one() == one());
    lemma_rounded_units(magnitude(c));
    lemma_signed_value(neg, magnitude(c));
}

/// A quotient that is a number is given exactly: dividing undoes multiplying.
pub proof fn law_quotient_exact(a: u64, b: u64, c: u64)
    requires
        is_finite(a),
        is_finite(b),
        is_finite(c),
        value(b) != 0,
        value(c) * value(b) == value(a) * pow2(1074),
    ensures
        is_finite(quotient(a, b)),
        value(quotient(a, b)) == value(c),
{
    lemma_pow2_pos(1074);
    lemma_units_zero();
    let (x, y, z) = (units(magnitude(a)), units(magnitude(b)), units(magnitude(c)));
    let neg = negative(a) != negative(b);
    assert(x * one() == z * y && ((z > 0 && neg) ==> value(c) < 0) && ((z > 0 && !neg)
        ==> value(c) > 0)) by (nonlinear_arith)
        requires
            value(c) * value(b) == value(a) * one(),
            value(a) == if negative(a) {
                -(x as int)
            } else {
                x as int
            },
            value(b) == if negative(b) {
                -(y as int)
            } else {
                y as int
            },
            value(c) == if negative(c) {
                -(z as int)
            } else {
                z as int
            },
            neg == (negative(a) != negative(b)),
            value(b) != 0,
            one() > 0,
    ;
    lemma_rounded_scale(z, 1, y);
    assert(1 * y == y);
    lemma_rounded_units(magnitude(c));
    lemma_signed_value(neg, magnitude(c));
}

/// The floor of a number is an integer that is not above it and less than one below
/// it.
pub proof fn law_floor(a: u64)
    requires
        is_finite(a),
    ensures
        is_finite(floored(a)),
        value(floored(a)) % (pow2(1074) as int) == 0,
        value(floored(a)) <= value(a) < value(floored(a)) + pow2(1074),
{
    lemma_pow2_pos(1074);
    lemma2_to64_rest();
    let u = units(magnitude(a));
    let (whole, part) = (u / one(), u % one());
    lemma_fundamental_div_mod(u as int, one() as int);
    let n = if negative(a) && part != 0 {
        whole + 1
    } else {
        whole
    };
    assert(n * one() == one() * n) by (nonlinear_arith);
    if part == 0 {
        lemma_rounded_units(magnitude(a));
        lemma_signed_value(negative(a), magnitude(a));
    } else {
        lemma_small_whole(a);
        if n < pow2(53) {
            lemma_exact(n, 1074);
        } else {
            lemma_exact(pow2(52), 1075);
            lemma_pow2_unfold(1075);
            assert(n * one() == pow2(52) * pow2(1075)) by (nonlinear_arith)
                requires
                    n == 2 * pow2(52),
                    pow2(1075) == 2 * one(),
            ;
        }
        lemma_signed_value(negative(a), rounded(n * one(), 1));
        assert((whole + 1) * one() == one() * whole + one()) by (nonlinear_arith);
    }
    let f = if negative(a) {
        -(n as int)
    } else {
        n as int
    };
    assert(value(floored(a)) == f * one()) by (nonlinear_arith)
        requires
            value(floored(a)) == if negative(a) {
                -(n * one())
            } else {
                n * one() as int
            },
            f == if negative(a) {
                -(n as int)
            } else {
                n as int
            },
    ;
    lemma_mod_multiples_basic(f, one() as int);
}

/// Of two numbers one is below the other, or they are the same, and only one of the
/// three holds; a number and its opposite cancel.
pub proof fn law_order_of_numbers(a: u64, b: u64)
    requires
        is_finite(a),
        is_finite(b),
    ensures
        below(a, b) <==> value(a) < value(b),
        same(a, b) <==> value(a) == value(b),
        value(opposite(a)) == -value(a),
        value(sum(a, opposite(a))) == 0,
{
    lemma_units_zero();
    lemma_opposite(a);
}

} // verus!
