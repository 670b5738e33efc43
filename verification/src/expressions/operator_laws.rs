//! What holds of the operators on values.
//!
//! The laws speak of what an operator gives on two values, [`applied`], and of the
//! values themselves.
use crate::double::{
    abs_nat, difference, from_int, is_finite, is_safe_integer, law_difference_exact,
    law_integers_exact, law_product_exact, law_quotient_exact, law_sum_exact, lemma_units_zero,
    lemma_zero_double, magnitude, negative, one, product, quotient, sum, truncated, units, value,
};
use crate::expressions::ast::BinOp;
use crate::expressions::error::Failure;
use crate::expressions::laws::{law_order_agrees, law_order_mirrored};
use crate::expressions::operators::{
    Order, Outcome, applied, int_json, int_remainder, is_equal, items_order, items_without,
    order_of, text_items,
};
use crate::json::{Json, Members, Number, Object};
use crate::text::{
    joined, law_order_of_texts, law_repeated, law_split_and_join, lemma_less_irreflexive, occurs,
    split_parts, text_less,
};
use crate::value::{
    double_json, is_canonical, is_sorted, json_text, lemma_double_json, lemma_inserted_lookup,
    lookup, merged, number_double, number_int, same_json,
};
use vstd::arithmetic::div_mod::*;
use vstd::arithmetic::power2::*;
use vstd::prelude::*;

verus! {

/// An integer as a value.
pub open spec fn whole(n: int) -> Json {
    if n < 0 {
        Json::Number(Number::NegInt(n as i64))
    } else {
        Json::Number(Number::PosInt(n as u64))
    }
}

/// Whether an operator gave true.
pub open spec fn holds(r: Outcome) -> bool {
    r == Ok::<Json, Failure>(Json::Bool(true))
}

/// Whether an operator gave false.
pub open spec fn fails(r: Outcome) -> bool {
    r == Ok::<Json, Failure>(Json::Bool(false))
}

// ---------------------------------------------------------------------------
// Comparisons
// ---------------------------------------------------------------------------

/// Two values can be compared by all four operators or by none. Of two values that
/// can be compared, `>=` holds exactly where `<` does not, `<=` exactly where `>`
/// does not, `<` and `>` never both, and each turns round with its operands.
pub proof fn law_comparisons(a: Json, b: Json)
    ensures
        (applied(BinOp::Lt, a, b) is Ok) == (applied(BinOp::Ge, a, b) is Ok),
        (applied(BinOp::Gt, a, b) is Ok) == (applied(BinOp::Ge, a, b) is Ok),
        (applied(BinOp::Le, a, b) is Ok) == (applied(BinOp::Ge, a, b) is Ok),
        (applied(BinOp::Ge, b, a) is Ok) == (applied(BinOp::Ge, a, b) is Ok),
        applied(BinOp::Ge, a, b) is Ok ==> {
            &&& holds(applied(BinOp::Lt, a, b)) != fails(applied(BinOp::Lt, a, b))
            &&& holds(applied(BinOp::Gt, a, b)) != fails(applied(BinOp::Gt, a, b))
            &&& holds(applied(BinOp::Ge, a, b)) == fails(applied(BinOp::Lt, a, b))
            &&& fails(applied(BinOp::Ge, a, b)) == holds(applied(BinOp::Lt, a, b))
            &&& holds(applied(BinOp::Le, a, b)) == fails(applied(BinOp::Gt, a, b))
            &&& fails(applied(BinOp::Le, a, b)) == holds(applied(BinOp::Gt, a, b))
            &&& !(holds(applied(BinOp::Lt, a, b)) && holds(applied(BinOp::Gt, a, b)))
            &&& applied(BinOp::Ge, a, b) == applied(BinOp::Le, b, a)
            &&& applied(BinOp::Gt, a, b) == applied(BinOp::Lt, b, a)
        },
{
    law_order_mirrored(a, b);
}

/// Two values in canonical form that can be compared are equal exactly where neither
/// comes before the other: `>=` is `>` or `==`, and `<=` is `<` or `==`.
pub proof fn law_comparisons_and_equality(a: Json, b: Json)
    requires
        is_canonical(a),
        is_canonical(b),
        applied(BinOp::Ge, a, b) is Ok,
    ensures
        holds(applied(BinOp::Ge, a, b)) <==> holds(applied(BinOp::Gt, a, b)) || holds(
            applied(BinOp::Eq, a, b),
        ),
        holds(applied(BinOp::Le, a, b)) <==> holds(applied(BinOp::Lt, a, b)) || holds(
            applied(BinOp::Eq, a, b),
        ),
        holds(applied(BinOp::Eq, a, b)) <==> fails(applied(BinOp::Lt, a, b)) && fails(
            applied(BinOp::Gt, a, b),
        ),
{
    if order_of(a, b) == Ok::<Order, Failure>(Order::Equal) {
        law_order_agrees(a, b);
    }
    if is_equal(a, b) {
        lemma_equal_order(a, b);
    }
}

/// Equal values that can be compared stand at the same place in the order.
proof fn lemma_equal_order(a: Json, b: Json)
    requires
        is_equal(a, b),
        order_of(a, b) is Ok,
    ensures
        order_of(a, b) == Ok::<Order, Failure>(Order::Equal),
    decreases a, 0nat,
{
    match (a, b) {
        (Json::String(x), Json::String(_)) => lemma_less_irreflexive(x),
        (Json::Array(x), Json::Array(y)) => lemma_equal_items(x, y),
        _ => {},
    }
}

/// Lists of equal items that can be compared stand at the same place in the order.
proof fn lemma_equal_items(x: Seq<Json>, y: Seq<Json>)
    requires
        x.len() == y.len(),
        forall|i: int| 0 <= i < x.len() ==> is_equal(#[trigger] x[i], y[i]),
        items_order(x, y) is Ok,
    ensures
        items_order(x, y) == Ok::<Order, Failure>(Order::Equal),
    decreases x, 1nat,
{
    if x.len() > 0 {
        assert(is_equal(x[0], y[0]));
        lemma_equal_order(x[0], y[0]);
        let (xs, ys) = (x.subrange(1, x.len() as int), y.skip(1));
        assert forall|i: int| 0 <= i < xs.len() implies is_equal(#[trigger] xs[i], ys[i]) by {
            assert(xs[i] == x[i + 1] && ys[i] == y[i + 1]);
        }
        lemma_equal_items(xs, ys);
    }
}

/// The double of an integer below 2^53 has its value.
proof fn lemma_whole(n: int)
    requires
        -0x20_0000_0000_0000 < n < 0x20_0000_0000_0000,
    ensures
        whole(n) == int_json(n as i64),
        whole(n) is Number,
        number_int(whole(n)->Number_0) == Some(n as i64),
        is_finite(number_double(whole(n)->Number_0)),
        value(number_double(whole(n)->Number_0)) == n * pow2(1074),
        double_json(from_int(n)) == whole(n),
        number_double(whole(n)->Number_0) == from_int(n),
{
    law_integers_exact(n);
}

/// Integers below 2^53 are compared as integers.
pub proof fn law_order_of_integers(m: int, n: int)
    requires
        -0x20_0000_0000_0000 < m < 0x20_0000_0000_0000,
        -0x20_0000_0000_0000 < n < 0x20_0000_0000_0000,
    ensures
        applied(BinOp::Lt, whole(m), whole(n)) == Ok::<Json, Failure>(Json::Bool(m < n)),
        applied(BinOp::Le, whole(m), whole(n)) == Ok::<Json, Failure>(Json::Bool(m <= n)),
        applied(BinOp::Gt, whole(m), whole(n)) == Ok::<Json, Failure>(Json::Bool(m > n)),
        applied(BinOp::Ge, whole(m), whole(n)) == Ok::<Json, Failure>(Json::Bool(m >= n)),
        applied(BinOp::Eq, whole(m), whole(n)) == Ok::<Json, Failure>(Json::Bool(m == n)),
        applied(BinOp::Ne, whole(m), whole(n)) == Ok::<Json, Failure>(Json::Bool(m != n)),
{
    lemma_whole(m);
    lemma_whole(n);
    lemma_pow2_pos(1074);
    let u = pow2(1074) as int;
    assert((m * u < n * u <==> m < n) && (n * u < m * u <==> n < m)) by (nonlinear_arith)
        requires
            u > 0,
    ;
}

/// Finite doubles are compared by their values.
pub proof fn law_order_of_doubles(a: u64, b: u64)
    requires
        is_finite(a),
        is_finite(b),
    ensures
        ({
            let (x, y) = (Json::Number(Number::Float(a)), Json::Number(Number::Float(b)));
            &&& applied(BinOp::Lt, x, y) == Ok::<Json, Failure>(Json::Bool(value(a) < value(b)))
            &&& applied(BinOp::Ge, x, y) == Ok::<Json, Failure>(Json::Bool(value(a) >= value(b)))
            &&& applied(BinOp::Eq, x, y) == Ok::<Json, Failure>(Json::Bool(value(a) == value(b)))
        }),
{
}

/// Strings are compared at the first place where they differ, and a string comes
/// before every longer one that starts with it.
pub proof fn law_order_of_strings(x: Seq<char>, y: Seq<char>, k: int)
    requires
        0 <= k <= x.len(),
        k <= y.len(),
        forall|i: int| 0 <= i < k ==> x[i] == y[i],
    ensures
        k < x.len() && k < y.len() && x[k] < y[k] ==> holds(
            applied(BinOp::Lt, Json::String(x), Json::String(y)),
        ) && fails(applied(BinOp::Gt, Json::String(x), Json::String(y))) && fails(
            applied(BinOp::Eq, Json::String(x), Json::String(y)),
        ),
        k == x.len() && k < y.len() ==> holds(
            applied(BinOp::Lt, Json::String(x), Json::String(y)),
        ) && fails(applied(BinOp::Gt, Json::String(x), Json::String(y))) && fails(
            applied(BinOp::Eq, Json::String(x), Json::String(y)),
        ),
        k == x.len() && k == y.len() ==> fails(
            applied(BinOp::Lt, Json::String(x), Json::String(y)),
        ) && fails(applied(BinOp::Gt, Json::String(x), Json::String(y))) && holds(
            applied(BinOp::Eq, Json::String(x), Json::String(y)),
        ),
{
    law_order_of_texts(x, y, k);
    law_order_of_texts(y, x, k);
    if k == x.len() && k == y.len() {
        assert(x =~= y);
    }
}

/// Arrays are compared at the first place where neither item equals the other in the
/// order, and an array comes before every longer one that starts like it.
pub proof fn law_order_of_arrays(x: Seq<Json>, y: Seq<Json>, k: int)
    requires
        0 <= k <= x.len(),
        k <= y.len(),
        forall|i: int|
            0 <= i < k ==> fails(applied(BinOp::Lt, #[trigger] x[i], y[i])) && fails(
                applied(BinOp::Gt, x[i], y[i]),
            ),
    ensures
        k == x.len() ==> applied(BinOp::Lt, Json::Array(x), Json::Array(y)) == Ok::<
            Json,
            Failure,
        >(Json::Bool(x.len() < y.len())),
        k == y.len() ==> applied(BinOp::Gt, Json::Array(x), Json::Array(y)) == Ok::<
            Json,
            Failure,
        >(Json::Bool(x.len() > y.len())),
        k < x.len() && k < y.len() && (holds(applied(BinOp::Lt, x[k], y[k])) || holds(
            applied(BinOp::Gt, x[k], y[k]),
        )) ==> {
            &&& applied(BinOp::Lt, Json::Array(x), Json::Array(y)) == applied(
                BinOp::Lt,
                x[k],
                y[k],
            )
            &&& applied(BinOp::Gt, Json::Array(x), Json::Array(y)) == applied(
                BinOp::Gt,
                x[k],
                y[k],
            )
        },
    decreases k,
{
    if k > 0 {
        assert(fails(applied(BinOp::Lt, x[0], y[0])));
        assert(order_of(x[0], y[0]) == Ok::<Order, Failure>(Order::Equal));
        let (xs, ys) = (x.subrange(1, x.len() as int), y.skip(1));
        assert forall|i: int| 0 <= i < k - 1 implies fails(
            applied(BinOp::Lt, #[trigger] xs[i], ys[i]),
        ) && fails(applied(BinOp::Gt, xs[i], ys[i])) by {
            assert(xs[i] == x[i + 1] && ys[i] == y[i + 1]);
        }
        law_order_of_arrays(xs, ys, k - 1);
        if k < x.len() && k < y.len() {
            assert(xs[k - 1] == x[k] && ys[k - 1] == y[k]);
        }
    }
}

/// Only two numbers, two strings or two arrays can be compared; any other pair is a
/// type error that names both.
pub proof fn law_incomparable(a: Json, b: Json)
    requires
        !(a is Number && b is Number),
        !(a is String && b is String),
        !(a is Array && b is Array),
    ensures
        ({
            let message = "cannot compare `"@ + json_text(a) + "` and `"@ + json_text(b) + "`"@;
            let failure = Err::<Json, Failure>(Failure::TypeError { message });
            &&& applied(BinOp::Lt, a, b) == failure
            &&& applied(BinOp::Le, a, b) == failure
            &&& applied(BinOp::Gt, a, b) == failure
            &&& applied(BinOp::Ge, a, b) == failure
        }),
{
}

// ---------------------------------------------------------------------------
// Equality and truth
// ---------------------------------------------------------------------------

/// Values of different kinds are not equal; booleans, strings and null are equal
/// where they are the same; arrays are equal item by item, and objects member by
/// member.
pub proof fn law_equality(a: Json, b: Json)
    ensures
        holds(applied(BinOp::Ne, a, b)) == fails(applied(BinOp::Eq, a, b)),
        holds(applied(BinOp::Eq, a, b)) != fails(applied(BinOp::Eq, a, b)),
        a is Null ==> (holds(applied(BinOp::Eq, a, b)) <==> b is Null),
        a is Bool ==> (holds(applied(BinOp::Eq, a, b)) <==> a == b),
        a is String ==> (holds(applied(BinOp::Eq, a, b)) <==> a == b),
        a is Number ==> holds(applied(BinOp::Eq, a, b)) ==> b is Number,
        a matches Json::Array(x) ==> (holds(applied(BinOp::Eq, a, b)) <==> {
            &&& b is Array
            &&& b->Array_0.len() == x.len()
            &&& forall|i: int|
                0 <= i < x.len() ==> holds(
                    applied(BinOp::Eq, #[trigger] x[i], b->Array_0[i]),
                )
        }),
        a matches Json::Object(x) ==> (holds(applied(BinOp::Eq, a, b)) <==> {
            &&& b is Object
            &&& b->Object_0.len() == x.len()
            &&& forall|i: int|
                0 <= i < x.len() ==> lookup(b->Object_0, (#[trigger] x[i]).0) is Some && holds(
                    applied(BinOp::Eq, x[i].1, lookup(b->Object_0, x[i].0).unwrap()),
                )
        }),
{
    match (a, b) {
        (Json::Array(x), Json::Array(y)) => {
            if x.len() == y.len() {
                assert forall|i: int| 0 <= i < x.len() implies (holds(
                    applied(BinOp::Eq, #[trigger] x[i], y[i]),
                ) <==> is_equal(x[i], y[i])) by {}
            }
        },
        (Json::Object(x), Json::Object(y)) => {
            assert forall|i: int|
                0 <= i < x.len() && lookup(y, (#[trigger] x[i]).0) is Some implies (holds(applied(BinOp::Eq, x[i].1, lookup(y, x[i].0).unwrap())) <==> is_equal(
                x[i].1,
                lookup(y, x[i].0).unwrap(),
            )) by {}
        },
        _ => {},
    }
}

/// Only null and false count as false, for `and`, `or` and `//`.
pub proof fn law_truth(a: Json, b: Json)
    ensures
        ({
            let x = a != Json::Null && a != Json::Bool(false);
            let y = b != Json::Null && b != Json::Bool(false);
            &&& applied(BinOp::And, a, b) == Ok::<Json, Failure>(Json::Bool(x && y))
            &&& applied(BinOp::Or, a, b) == Ok::<Json, Failure>(Json::Bool(x || y))
            &&& applied(BinOp::Alternative, a, b) == Ok::<Json, Failure>(
                if x {
                    a
                } else {
                    b
                },
            )
        }),
{
}

// ---------------------------------------------------------------------------
// Arithmetic
// ---------------------------------------------------------------------------

/// Sums, differences and products of integers are those of the integers where they
/// fit into 64 bits.
pub proof fn law_integer_arithmetic(m: i64, n: i64)
    ensures
        i64::MIN <= m + n <= i64::MAX ==> applied(BinOp::Add, whole(m as int), whole(n as int))
            == Ok::<Json, Failure>(whole(m + n)),
        i64::MIN <= m - n <= i64::MAX ==> applied(BinOp::Sub, whole(m as int), whole(n as int))
            == Ok::<Json, Failure>(whole(m - n)),
        i64::MIN <= m * n <= i64::MAX ==> applied(BinOp::Mul, whole(m as int), whole(n as int))
            == Ok::<Json, Failure>(whole(m * n)),
{
    assert(whole(m as int) == int_json(m) && whole(n as int) == int_json(n));
}

/// The remainder of integers is what is left of the dividend after taking away a
/// multiple of the divisor: it is smaller than the divisor and has the sign of the
/// dividend.
pub proof fn law_integer_remainder(m: i64, n: i64)
    requires
        n != 0,
    ensures
        exists|q: int, r: int|
            {
                &&& #[trigger] (q * n) + r == m
                &&& -abs_nat(n as int) < r < abs_nat(n as int)
                &&& m >= 0 ==> r >= 0
                &&& m <= 0 ==> r <= 0
                &&& applied(BinOp::Mod, whole(m as int), whole(n as int)) == Ok::<Json, Failure>(
                    #[trigger] whole(r),
                )
            },
{
    let (a, b) = (abs_nat(m as int) as int, abs_nat(n as int) as int);
    lemma_fundamental_div_mod(a, b);
    lemma_mod_bound(a, b);
    lemma_div_pos_is_pos(a, b);
    let d = a / b;
    let r = int_remainder(m as int, n as int);
    let q = if (m < 0) == (n < 0) {
        d
    } else {
        -d
    };
    assert(q * n + r == m) by (nonlinear_arith)
        requires
            a == b * d + a % b,
            m < 0 ==> a == -m && r == -(a % b),
            m >= 0 ==> a == m && r == a % b,
            n < 0 ==> b == -n,
            n >= 0 ==> b == n,
            q == if (m < 0) == (n < 0) {
                d
            } else {
                -d
            },
    ;
    assert(whole(m as int) == int_json(m) && whole(n as int) == int_json(n));
    assert(applied(BinOp::Mod, whole(m as int), whole(n as int)) == Ok::<Json, Failure>(whole(r)));
}

/// Dividing a product of integers by one factor gives the other.
pub proof fn law_integer_quotient(k: int, n: int)
    requires
        n != 0,
        -0x20_0000_0000_0000 < k < 0x20_0000_0000_0000,
        -0x20_0000_0000_0000 < n < 0x20_0000_0000_0000,
        -0x20_0000_0000_0000 < k * n < 0x20_0000_0000_0000,
    ensures
        applied(BinOp::Div, whole(k * n), whole(n)) == Ok::<Json, Failure>(whole(k)),
{
    lemma_whole(k);
    lemma_whole(n);
    lemma_whole(k * n);
    lemma_pow2_pos(1074);
    let u = pow2(1074) as int;
    let (a, b, c) = (from_int(k * n), from_int(n), from_int(k));
    assert((k * u) * (n * u) == ((k * n) * u) * u) by (nonlinear_arith);
    assert(n * u != 0) by (nonlinear_arith)
        requires
            n != 0,
            u > 0,
    ;
    law_quotient_exact(a, b, c);
    lemma_units_zero();
    let q = quotient(a, b);
    law_integers_exact(k);
    lemma_same_integer(q, c);
}

/// Two finite doubles of the same value that are integers are the same value in JSON.
pub proof fn lemma_same_integer(a: u64, b: u64)
    requires
        is_finite(a),
        is_finite(b),
        value(a) == value(b),
        is_safe_integer(b),
    ensures
        double_json(a) == double_json(b),
{
    lemma_pow2_pos(1074);
    let (x, y) = (units(magnitude(a)), units(magnitude(b)));
    assert(x == y);
    if negative(a) != negative(b) {
        assert(x == 0);
        assert(0int / (one() as int) == 0) by (nonlinear_arith)
            requires
                one() > 0,
        ;
    }
}

/// Dividing by zero, and taking a remainder by zero, is an error.
pub proof fn law_zero_divisor(x: Number)
    ensures
        applied(BinOp::Div, Json::Number(x), whole(0)) == Err::<Json, Failure>(
            Failure::Eval { message: "division by zero"@ },
        ),
        applied(BinOp::Mod, Json::Number(x), whole(0)) == Err::<Json, Failure>(
            Failure::Eval { message: "modulo by zero"@ },
        ),
{
    lemma_zero_double();
}

/// Whether an operator gave a number of a value, in units of 2^-1074.
pub open spec fn gives_value(r: Outcome, v: int) -> bool {
    r matches Ok(Json::Number(n)) && is_finite(number_double(n)) && value(number_double(n)) == v
}

/// The sum, difference, product or quotient of two finite doubles that is a double
/// itself is given exactly.
pub proof fn law_double_arithmetic(a: u64, b: u64, c: u64)
    requires
        is_finite(a),
        is_finite(b),
        is_finite(c),
    ensures
        ({
            let (x, y) = (Json::Number(Number::Float(a)), Json::Number(Number::Float(b)));
            let unit = pow2(1074);
            &&& value(a) + value(b) == value(c) ==> gives_value(
                applied(BinOp::Add, x, y),
                value(c),
            )
            &&& value(a) - value(b) == value(c) ==> gives_value(
                applied(BinOp::Sub, x, y),
                value(c),
            )
            &&& value(a) * value(b) == value(c) * unit ==> gives_value(
                applied(BinOp::Mul, x, y),
                value(c),
            )
            &&& value(b) != 0 && value(c) * value(b) == value(a) * unit ==> gives_value(
                applied(BinOp::Div, x, y),
                value(c),
            )
        }),
{
    lemma_units_zero();
    if value(a) + value(b) == value(c) {
        law_sum_exact(a, b, c);
        lemma_double_json(sum(a, b));
    }
    if value(a) - value(b) == value(c) {
        law_difference_exact(a, b, c);
        lemma_double_json(difference(a, b));
    }
    if value(a) * value(b) == value(c) * pow2(1074) {
        law_product_exact(a, b, c);
        lemma_double_json(product(a, b));
    }
    if value(b) != 0 && value(c) * value(b) == value(a) * pow2(1074) {
        law_quotient_exact(a, b, c);
        lemma_double_json(quotient(a, b));
    }
}

// ---------------------------------------------------------------------------
// Texts, arrays and objects
// ---------------------------------------------------------------------------

/// `+` puts strings and arrays one behind the other; a string takes what is no string
/// by its JSON text.
pub proof fn law_concatenation(x: Seq<char>, y: Seq<char>, p: Seq<Json>, q: Seq<Json>, v: Json)
    ensures
        applied(BinOp::Add, Json::String(x), Json::String(y)) == Ok::<Json, Failure>(
            Json::String(x + y),
        ),
        applied(BinOp::Add, Json::Array(p), Json::Array(q)) == Ok::<Json, Failure>(
            Json::Array(p + q),
        ),
        !(v is String) && !(v is Null) ==> applied(BinOp::Add, Json::String(x), v) == Ok::<
            Json,
            Failure,
        >(Json::String(x + json_text(v))) && applied(BinOp::Add, v, Json::String(x)) == Ok::<
            Json,
            Failure,
        >(Json::String(json_text(v) + x)),
        applied(BinOp::Add, Json::Null, v) == Ok::<Json, Failure>(v),
        applied(BinOp::Add, v, Json::Null) == Ok::<Json, Failure>(v),
{
}

/// `+` of two objects has the members of both, and those of the right one where both
/// have a key.
pub proof fn law_object_sum(x: Members, y: Members, key: Seq<char>)
    requires
        is_sorted(y),
    ensures
        applied(BinOp::Add, Json::Object(x), Json::Object(y)) matches Ok(Json::Object(m))
            && lookup(m, key) == (if lookup(y, key) is Some {
            lookup(y, key)
        } else {
            lookup(x, key)
        }),
{
    lemma_merged_lookup(x, y, key);
}

/// What is found after members were set.
proof fn lemma_merged_lookup(x: Members, y: Members, key: Seq<char>)
    requires
        is_sorted(y),
    ensures
        lookup(merged(x, y), key) == (if lookup(y, key) is Some {
            lookup(y, key)
        } else {
            lookup(x, key)
        }),
    decreases y.len(),
{
    if y.len() > 0 {
        let head = y.drop_last();
        let last = y.last();
        assert forall|i: int, j: int| 0 <= i < j < head.len() implies text_less(
            #[trigger] head[i].0,
            #[trigger] head[j].0,
        ) by {
            assert(text_less(y[i].0, y[j].0));
        }
        lemma_merged_lookup(x, head, key);
        lemma_inserted_lookup(merged(x, head), last.0, last.1, key);
        lemma_lookup_push(head, last, key);
        assert(y =~= head.push(last));
        if key == last.0 && lookup(head, key) is Some {
            let k = lemma_lookup_place(head, key);
            assert(text_less(y[k].0, y[y.len() - 1].0));
            lemma_less_irreflexive(key);
        }
    }
}

/// What is found in a list of members and in one more.
proof fn lemma_lookup_push(m: Members, e: (Seq<char>, Json), key: Seq<char>)
    ensures
        lookup(m.push(e), key) == if lookup(m, key) is Some {
            lookup(m, key)
        } else if e.0 == key {
            Some(e.1)
        } else {
            None
        },
    decreases m.len(),
{
    if m.len() > 0 {
        assert(m.push(e).skip(1) =~= m.skip(1).push(e));
        lemma_lookup_push(m.skip(1), e, key);
    } else {
        assert(m.push(e).skip(1) =~= Seq::empty());
        assert(lookup(m.push(e).skip(1), key) is None);
        assert(m.push(e)[0] == e);
    }
}

/// The place of a member that is found.
proof fn lemma_lookup_place(m: Members, key: Seq<char>) -> (k: int)
    requires
        lookup(m, key) is Some,
    ensures
        0 <= k < m.len(),
        m[k].0 == key,
    decreases m.len(),
{
    if m[0].0 == key {
        0
    } else {
        let k = lemma_lookup_place(m.skip(1), key);
        assert(m.skip(1)[k] == m[k + 1]);
        k + 1
    }
}

/// `-` of two arrays keeps exactly the items of the first that do not occur in the
/// second, in their order.
pub proof fn law_array_difference(x: Seq<Json>, y: Seq<Json>, v: Json)
    ensures
        applied(BinOp::Sub, Json::Array(x), Json::Array(y)) matches Ok(Json::Array(r)) && {
            &&& r == x.filter(
                |i: Json| !exists|j: int| 0 <= j < y.len() && same_json(#[trigger] y[j], i),
            )
            &&& r.contains(v) <==> x.contains(v) && !exists|j: int|
                0 <= j < y.len() && same_json(#[trigger] y[j], v)
        },
{
    let keep = |i: Json| !exists|j: int| 0 <= j < y.len() && same_json(#[trigger] y[j], i);
    lemma_items_without(x, y);
    lemma_filter_contains(x, keep, v);
}

/// A string times a count is that many copies of it, on either side of the operator.
pub proof fn law_string_product(s: Seq<char>, n: int)
    requires
        -0x20_0000_0000_0000 < n < 0x20_0000_0000_0000,
        n <= usize::MAX,
    ensures
        ({
            let count = if n < 0 {
                0
            } else {
                n as nat
            };
            &&& applied(BinOp::Mul, Json::String(s), whole(n)) == applied(
                BinOp::Mul,
                whole(n),
                Json::String(s),
            )
            &&& applied(BinOp::Mul, Json::String(s), whole(n)) matches Ok(Json::String(r)) && {
                &&& r.len() == count * s.len()
                &&& forall|k: int, i: int|
                    0 <= k < count && 0 <= i < s.len() ==> r[#[trigger] (k * s.len() + i)] == s[i]
            }
        }),
{
    lemma_whole(n);
    lemma_pow2_pos(1074);
    law_integers_exact(n);
    let d = from_int(n);
    assert(truncated(d, 0, usize::MAX as int) == if n < 0 {
        0
    } else {
        n
    });
    law_repeated(
        s,
        if n < 0 {
            0
        } else {
            n as nat
        },
    );
}

/// A string divided by another is split at it: joining the parts with it gives the
/// string back, and it stands in none of them.
pub proof fn law_string_quotient(s: Seq<char>, sep: Seq<char>)
    requires
        sep.len() > 0,
    ensures
        applied(BinOp::Div, Json::String(s), Json::String(sep)) matches Ok(Json::Array(items))
            && exists|parts: Seq<Seq<char>>|
            {
                &&& #[trigger] joined(parts, sep) == s
                &&& items.len() == parts.len()
                &&& forall|i: int|
                    0 <= i < items.len() ==> #[trigger] items[i] == Json::String(parts[i])
                        && !occurs(parts[i], sep)
            },
{
    law_split_and_join(s, sep);
    let parts = split_parts(s, sep);
    let items = text_items(parts);
    assert(joined(parts, sep) == s);
    assert forall|i: int| 0 <= i < items.len() implies #[trigger] items[i] == Json::String(
        parts[i],
    ) && !occurs(parts[i], sep) by {}
}

/// Arithmetic on values of other kinds is a type error that names both.
pub proof fn law_arithmetic_type_errors(a: Json, b: Json)
    ensures
        !(a is Number && b is Number) && !(a is Array && b is Array) ==> applied(BinOp::Sub, a, b)
            == Err::<Json, Failure>(
            Failure::TypeError {
                message: "cannot subtract `"@ + json_text(b) + "` from `"@ + json_text(a) + "`"@,
            },
        ),
        !(a is Number && b is Number) && !(a is String && b is Number) && !(a is Number
            && b is String) ==> applied(BinOp::Mul, a, b) == Err::<Json, Failure>(
            Failure::TypeError {
                message: "cannot multiply `"@ + json_text(a) + "` and `"@ + json_text(b) + "`"@,
            },
        ),
        !(a is Number && b is Number) && !(a is String && b is String) ==> applied(
            BinOp::Div,
            a,
            b,
        ) == Err::<Json, Failure>(
            Failure::TypeError {
                message: "cannot divide `"@ + json_text(a) + "` by `"@ + json_text(b) + "`"@,
            },
        ),
        !(a is Number && b is Number) ==> applied(BinOp::Mod, a, b) == Err::<Json, Failure>(
            Failure::TypeError {
                message: "cannot take `"@ + json_text(a) + "` modulo `"@ + json_text(b) + "`"@,
            },
        ),
        a is Bool && (b is Bool || b is Number || b is Array || b is Object) ==> applied(
            BinOp::Add,
            a,
            b,
        ) == Err::<Json, Failure>(
            Failure::TypeError {
                message: "cannot add `"@ + json_text(a) + "` and `"@ + json_text(b) + "`"@,
            },
        ),
        a is Object && (b is Bool || b is Number || b is Array) ==> applied(BinOp::Add, a, b)
            is Err,
        a is Array && (b is Bool || b is Number || b is Object) ==> applied(BinOp::Add, a, b)
            is Err,
        a is Number && (b is Bool || b is Array || b is Object) ==> applied(BinOp::Add, a, b)
            is Err,
{
}

/// What passes a filter is what was there and passes its test.
proof fn lemma_filter_contains(x: Seq<Json>, keep: spec_fn(Json) -> bool, v: Json)
    ensures
        x.filter(keep).contains(v) <==> x.contains(v) && keep(v),
    decreases x.len(),
{
    reveal(Seq::filter);
    if x.len() > 0 {
        let head = x.drop_last();
        lemma_filter_contains(head, keep, v);
        let kept = head.filter(keep);
        if x.contains(v) {
            let k = choose|k: int| 0 <= k < x.len() && x[k] == v;
            if k < head.len() {
                assert(head[k] == v);
            }
        }
        if head.contains(v) {
            let k = choose|k: int| 0 <= k < head.len() && head[k] == v;
            assert(x[k] == v);
        }
        assert(x[x.len() - 1] == x.last());
        if keep(x.last()) {
            let out = kept.push(x.last());
            assert(x.filter(keep) == out);
            assert(out[kept.len() as int] == x.last());
            if kept.contains(v) {
                let k = choose|k: int| 0 <= k < kept.len() && kept[k] == v;
                assert(out[k] == v);
            }
            if out.contains(v) {
                let k = choose|k: int| 0 <= k < out.len() && out[k] == v;
                if k < kept.len() {
                    assert(kept[k] == v);
                }
            }
        }
    }
}

/// The items that are kept are those that pass.
proof fn lemma_items_without(x: Seq<Json>, y: Seq<Json>)
    ensures
        items_without(x, y) == x.filter(
            |i: Json| !exists|j: int| 0 <= j < y.len() && same_json(#[trigger] y[j], i),
        ),
    decreases x.len(),
{
    reveal(Seq::filter);
    if x.len() > 0 {
        lemma_items_without(x.drop_last(), y);
    }
}

} // verus!
