//! The operators of the expression language on values.
use crate::double::{
    abs_nat, below, difference, divide, equals, is_zero, minus, modulo, plus, precedes, product,
    quotient, remainder, same, sum, times, to_i64, to_usize, truncated, zero,
};
use crate::expressions::ast::BinOp;
use crate::expressions::error::{ExpressionError, Failure};
use crate::json::{Json, Members, Number, Value, jsons};
use crate::text::{
    chars_of, concat2, concat3, concat5, contains, less, occurs, repeat, repeated, split,
    split_parts, text_eq, text_less, views,
};
use crate::value::{
    append_values, copy_values, double_json, int_number, json_int, json_num, json_text, lookup,
    member, merged, number_double, number_int, plain_text, same_json, to_string, values_same,
    write_json,
};
use vstd::prelude::*;

verus! {

broadcast use crate::json::group_json;

/// What an operator gives.
pub type Outcome = Result<Json, Failure>;

/// The model of what an operator returns.
pub open spec fn outcome(r: Result<Value, ExpressionError>) -> Outcome {
    match r {
        Ok(v) => Ok(v@),
        Err(e) => Err(e@),
    }
}

/// A type error.
pub open spec fn type_failure(message: Seq<char>) -> Failure {
    Failure::TypeError { message }
}

/// An evaluation error.
pub open spec fn eval_failure(message: Seq<char>) -> Failure {
    Failure::Eval { message }
}

/// A type error about two values.
pub open spec fn pair_failure(
    head: Seq<char>,
    a: Json,
    middle: Seq<char>,
    b: Json,
) -> Failure {
    type_failure(head + json_text(a) + middle + json_text(b) + "`"@)
}

/// A type error about one value.
pub open spec fn value_failure(head: Seq<char>, a: Json) -> Failure {
    type_failure(head + json_text(a) + "`"@)
}

/// The error that names two values.
fn pair_error(head: &str, a: &Value, middle: &str, b: &Value) -> (r: ExpressionError)
    ensures
        r@ == pair_failure(head@, a@, middle@, b@),
{
    let left = write_json(a);
    let right = write_json(b);
    let message = concat5(head, left.as_str(), middle, right.as_str(), "`");
    ExpressionError::TypeError { message }
}

/// A type error about one value.
pub(crate) fn value_error(head: &str, a: &Value) -> (r: ExpressionError)
    ensures
        r@ == value_failure(head@, a@),
{
    let text = write_json(a);
    let message = concat3(head, text.as_str(), "`");
    ExpressionError::TypeError { message }
}

// ---------------------------------------------------------------------------
// Truth, equality and order
// ---------------------------------------------------------------------------

/// Only false and null count as false.
pub open spec fn is_truthy(j: Json) -> bool {
    !(j is Null) && j != Json::Bool(false)
}

/// Decides whether a value counts as true.
pub fn truthy(v: &Value) -> (r: bool)
    ensures
        r == is_truthy(v@),
{
    match v {
        Value::Null => false,
        Value::Bool(b) => *b,
        _ => true,
    }
}

/// Equality of values: numbers are compared by their doubles, objects member by
/// member.
pub open spec fn is_equal(a: Json, b: Json) -> bool
    decreases a,
{
    match (a, b) {
        (Json::Number(x), Json::Number(y)) => same(number_double(x), number_double(y)),
        (Json::Array(x), Json::Array(y)) => x.len() == y.len() && forall|i: int|
            0 <= i < x.len() ==> is_equal(#[trigger] x[i], y[i]),
        (Json::Object(x), Json::Object(y)) => x.len() == y.len() && forall|i: int|
            0 <= i < x.len() ==> match lookup(y, (#[trigger] x[i]).0) {
                Some(v) => is_equal(x[i].1, v),
                None => false,
            },
        (Json::Null, Json::Null) => true,
        (Json::Bool(x), Json::Bool(y)) => x == y,
        (Json::String(x), Json::String(y)) => x == y,
        _ => false,
    }
}

/// Decides equality.
pub fn equal(a: &Value, b: &Value) -> (r: bool)
    ensures
        r == is_equal(a@, b@),
    decreases a,
{
    match (a, b) {
        (Value::Number(x), Value::Number(y)) => equals(x.as_double(), y.as_double()),
        (Value::Array(x), Value::Array(y)) => {
            if x.len() != y.len() {
                return false;
            }
            let mut i: usize = 0;
            while i < x.len()
                invariant
                    i <= x.len(),
                    x.len() == y.len(),
                    decreases_to!(a => x),
                    a@ == Json::Array(jsons(x@)),
                    b@ == Json::Array(jsons(y@)),
                    forall|j: int| 0 <= j < i ==> is_equal(#[trigger] jsons(x@)[j], jsons(y@)[j]),
                decreases x.len() - i,
            {
                if !equal(&x[i], &y[i]) {
                    assert(!is_equal(jsons(x@)[i as int], jsons(y@)[i as int]));
                    return false;
                }
                i += 1;
            }
            true
        },
        (Value::Object(x), Value::Object(y)) => {
            if x.entries.len() != y.entries.len() {
                return false;
            }
            let mut i: usize = 0;
            while i < x.entries.len()
                invariant
                    i <= x.entries.len(),
                    x.entries.len() == y.entries.len(),
                    decreases_to!(a => x),
                    a@ == Json::Object(x@),
                    b@ == Json::Object(y@),
                    forall|j: int|
                        0 <= j < i ==> match lookup(y@, (#[trigger] x@[j]).0) {
                            Some(v) => is_equal(x@[j].1, v),
                            None => false,
                        },
                decreases x.entries.len() - i,
            {
                assert(x@[i as int] == (x.entries@[i as int].0@, x.entries@[i as int].1@));
                match y.get(x.entries[i].0.as_str()) {
                    Some(v) => {
                        if !equal(&x.entries[i].1, v) {
                            return false;
                        }
                    },
                    None => {
                        return false;
                    },
                }
                i += 1;
            }
            true
        },
        (Value::Null, Value::Null) => true,
        (Value::Bool(x), Value::Bool(y)) => *x == *y,
        (Value::String(x), Value::String(y)) => text_eq(x.as_str(), y.as_str()),
        _ => false,
    }
}

/// The order of two values.
#[derive(Clone, Copy, PartialEq, Eq, Structural, Debug)]
pub enum Order {
    Less,
    Equal,
    Greater,
}

/// The order that two strict comparisons give.
pub open spec fn order_by(less: bool, greater: bool) -> Order {
    if less {
        Order::Less
    } else if greater {
        Order::Greater
    } else {
        Order::Equal
    }
}

/// The order of two values: of numbers by value, of strings by character, of
/// arrays by the first pair that differs and then by length.
pub open spec fn order_of(a: Json, b: Json) -> Result<Order, Failure>
    decreases a, 0nat,
{
    match (a, b) {
        (Json::Number(x), Json::Number(y)) => Ok(
            order_by(
                below(number_double(x), number_double(y)),
                below(number_double(y), number_double(x)),
            ),
        ),
        (Json::String(x), Json::String(y)) => Ok(order_by(text_less(x, y), text_less(y, x))),
        (Json::Array(x), Json::Array(y)) => items_order(x, y),
        _ => Err(pair_failure("cannot compare `"@, a, "` and `"@, b)),
    }
}

/// The order of two lists.
pub open spec fn items_order(x: Seq<Json>, y: Seq<Json>) -> Result<Order, Failure>
    decreases x, 1nat,
{
    if x.len() == 0 || y.len() == 0 {
        Ok(order_by(x.len() < y.len(), y.len() < x.len()))
    } else {
        match order_of(x[0], y[0]) {
            Ok(Order::Equal) => items_order(x.subrange(1, x.len() as int), y.skip(1)),
            other => other,
        }
    }
}

/// The model of what a comparison returns.
pub open spec fn order_outcome(r: Result<Order, ExpressionError>) -> Result<Order, Failure> {
    match r {
        Ok(o) => Ok(o),
        Err(e) => Err(e@),
    }
}

/// Compares two values.
pub fn compare(a: &Value, b: &Value) -> (r: Result<Order, ExpressionError>)
    ensures
        order_outcome(r) == order_of(a@, b@),
    decreases a,
{
    match (a, b) {
        (Value::Number(x), Value::Number(y)) => {
            let m = x.as_double();
            let n = y.as_double();
            Ok(
                if precedes(m, n) {
                    Order::Less
                } else if precedes(n, m) {
                    Order::Greater
                } else {
                    Order::Equal
                },
            )
        },
        (Value::String(x), Value::String(y)) => {
            Ok(
                if less(x.as_str(), y.as_str()) {
                    Order::Less
                } else if less(y.as_str(), x.as_str()) {
                    Order::Greater
                } else {
                    Order::Equal
                },
            )
        },
        (Value::Array(x), Value::Array(y)) => {
            let mut i: usize = 0;
            let ghost (m, n) = (jsons(x@), jsons(y@));
            assert(m.skip(0) =~= m);
            assert(n.skip(0) =~= n);
            while i < x.len() && i < y.len()
                invariant
                    i <= x.len(),
                    i <= y.len(),
                    decreases_to!(a => x),
                    m == jsons(x@),
                    n == jsons(y@),
                    a@ == Json::Array(m),
                    b@ == Json::Array(n),
                    items_order(m.skip(i as int), n.skip(i as int)) == order_of(a@, b@),
                decreases x.len() - i,
            {
                proof {
                    let rest = m.skip(i as int);
                    assert(rest.subrange(1, rest.len() as int) =~= m.skip(i + 1));
                    assert(n.skip(i as int).skip(1) =~= n.skip(i + 1));
                    assert(rest[0] == x@[i as int]@);
                    assert(n.skip(i as int)[0] == y@[i as int]@);
                }
                match compare(&x[i], &y[i]) {
                    Ok(Order::Equal) => {},
                    other => {
                        return other;
                    },
                }
                i += 1;
            }
            Ok(
                if x.len() < y.len() {
                    Order::Less
                } else if y.len() < x.len() {
                    Order::Greater
                } else {
                    Order::Equal
                },
            )
        },
        _ => Err(pair_error("cannot compare `", a, "` and `", b)),
    }
}

// ---------------------------------------------------------------------------
// Arithmetic
// ---------------------------------------------------------------------------

/// The value of an integer.
pub open spec fn int_json(n: i64) -> Json {
    Json::Number(int_number(n as int))
}

/// The sum of two numbers: of integers it wraps around at 64 bits, otherwise it
/// is that of their doubles.
pub open spec fn number_sum(x: Number, y: Number) -> Json {
    match (number_int(x), number_int(y)) {
        (Some(a), Some(b)) => int_json(a.wrapping_add(b)),
        _ => double_json(sum(number_double(x), number_double(y))),
    }
}

/// The difference of two numbers.
pub open spec fn number_difference(x: Number, y: Number) -> Json {
    match (number_int(x), number_int(y)) {
        (Some(a), Some(b)) => int_json(a.wrapping_sub(b)),
        _ => double_json(difference(number_double(x), number_double(y))),
    }
}

/// The product of two numbers.
pub open spec fn number_product(x: Number, y: Number) -> Json {
    match (number_int(x), number_int(y)) {
        (Some(a), Some(b)) => int_json(a.wrapping_mul(b)),
        _ => double_json(product(number_double(x), number_double(y))),
    }
}

/// The remainder of the truncated division of integers.
pub open spec fn int_remainder(a: int, b: int) -> int {
    let r = (abs_nat(a) % abs_nat(b)) as int;
    if a < 0 {
        -r
    } else {
        r
    }
}

/// What `+` gives. Null is its neutral element; a string takes any other value
/// as text.
pub open spec fn sum_of(a: Json, b: Json) -> Outcome {
    match (a, b) {
        (Json::Null, _) => Ok(b),
        (_, Json::Null) => Ok(a),
        (Json::Number(x), Json::Number(y)) => Ok(number_sum(x, y)),
        (Json::Array(x), Json::Array(y)) => Ok(Json::Array(x + y)),
        (Json::String(x), _) => Ok(Json::String(x + plain_text(b))),
        (_, Json::String(y)) => Ok(Json::String(plain_text(a) + y)),
        (Json::Object(x), Json::Object(y)) => Ok(Json::Object(merged(x, y))),
        _ => Err(pair_failure("cannot add `"@, a, "` and `"@, b)),
    }
}

/// The items that do not occur in a second list.
pub open spec fn items_without(x: Seq<Json>, y: Seq<Json>) -> Seq<Json>
    decreases x.len(),
{
    if x.len() == 0 {
        Seq::empty()
    } else {
        let kept = items_without(x.drop_last(), y);
        if exists|j: int| 0 <= j < y.len() && same_json(#[trigger] y[j], x.last()) {
            kept
        } else {
            kept.push(x.last())
        }
    }
}

/// What `-` gives.
pub open spec fn difference_of(a: Json, b: Json) -> Outcome {
    match (a, b) {
        (Json::Number(x), Json::Number(y)) => Ok(number_difference(x, y)),
        (Json::Array(x), Json::Array(y)) => Ok(Json::Array(items_without(x, y))),
        _ => Err(pair_failure("cannot subtract `"@, b, "` from `"@, a)),
    }
}

/// A string repeated; a count below zero counts as zero.
pub open spec fn repeated_by(s: Seq<char>, n: Number) -> Json {
    Json::String(repeated(s, truncated(number_double(n), 0, usize::MAX as int) as nat))
}

/// What `*` gives.
pub open spec fn product_of(a: Json, b: Json) -> Outcome {
    match (a, b) {
        (Json::Number(x), Json::Number(y)) => Ok(number_product(x, y)),
        (Json::String(s), Json::Number(n)) => Ok(repeated_by(s, n)),
        (Json::Number(n), Json::String(s)) => Ok(repeated_by(s, n)),
        _ => Err(pair_failure("cannot multiply `"@, a, "` and `"@, b)),
    }
}

/// The parts of a text as values.
pub open spec fn text_items(parts: Seq<Seq<char>>) -> Seq<Json> {
    parts.map_values(|s: Seq<char>| Json::String(s))
}

/// What `/` gives. A string divided by a string is split at it.
pub open spec fn quotient_of(a: Json, b: Json) -> Outcome {
    match (a, b) {
        (Json::Number(x), Json::Number(y)) => if is_zero(number_double(y)) {
            Err(eval_failure("division by zero"@))
        } else {
            Ok(double_json(quotient(number_double(x), number_double(y))))
        },
        (Json::String(x), Json::String(y)) => Ok(Json::Array(text_items(split_parts(x, y)))),
        _ => Err(pair_failure("cannot divide `"@, a, "` by `"@, b)),
    }
}

/// What `%` gives.
pub open spec fn remainder_of(a: Json, b: Json) -> Outcome {
    match (a, b) {
        (Json::Number(x), Json::Number(y)) => match (number_int(x), number_int(y)) {
            (Some(m), Some(n)) => if n == 0 {
                Err(eval_failure("modulo by zero"@))
            } else {
                Ok(Json::Number(int_number(int_remainder(m as int, n as int))))
            },
            _ => if is_zero(number_double(y)) {
                Err(eval_failure("modulo by zero"@))
            } else {
                Ok(double_json(remainder(number_double(x), number_double(y))))
            },
        },
        _ => Err(pair_failure("cannot take `"@, a, "` modulo `"@, b)),
    }
}

/// What a comparison gives.
pub open spec fn compared(a: Json, b: Json, less: bool, same: bool, greater: bool) -> Outcome {
    match order_of(a, b) {
        Ok(Order::Less) => Ok(Json::Bool(less)),
        Ok(Order::Equal) => Ok(Json::Bool(same)),
        Ok(Order::Greater) => Ok(Json::Bool(greater)),
        Err(e) => Err(e),
    }
}

/// What an operator that looks at both operands gives.
pub open spec fn applied(op: BinOp, a: Json, b: Json) -> Outcome {
    match op {
        BinOp::Add => sum_of(a, b),
        BinOp::Sub => difference_of(a, b),
        BinOp::Mul => product_of(a, b),
        BinOp::Div => quotient_of(a, b),
        BinOp::Mod => remainder_of(a, b),
        BinOp::Eq => Ok(Json::Bool(is_equal(a, b))),
        BinOp::Ne => Ok(Json::Bool(!is_equal(a, b))),
        BinOp::Lt => compared(a, b, true, false, false),
        BinOp::Le => compared(a, b, true, true, false),
        BinOp::Gt => compared(a, b, false, false, true),
        BinOp::Ge => compared(a, b, false, true, true),
        BinOp::And => Ok(Json::Bool(is_truthy(a) && is_truthy(b))),
        BinOp::Or => Ok(Json::Bool(is_truthy(a) || is_truthy(b))),
        BinOp::Alternative => Ok(
            if is_truthy(a) {
                a
            } else {
                b
            },
        ),
    }
}

/// Adds two values.
pub fn add_values(a: &Value, b: &Value) -> (r: Result<Value, ExpressionError>)
    ensures
        outcome(r) == sum_of(a@, b@),
{
    match (a, b) {
        (Value::Null, _) => Ok(b.clone()),
        (_, Value::Null) => Ok(a.clone()),
        (Value::Number(x), Value::Number(y)) => match (x.as_i64(), y.as_i64()) {
            (Some(m), Some(n)) => Ok(json_int(m.wrapping_add(n))),
            _ => Ok(json_num(plus(x.as_double(), y.as_double()))),
        },
        (Value::Array(x), Value::Array(y)) => {
            let mut out = copy_values(x);
            append_values(&mut out, y);
            Ok(Value::Array(out))
        },
        (Value::String(x), _) => {
            let tail = to_string(b);
            Ok(Value::String(concat2(x.as_str(), tail.as_str())))
        },
        (_, Value::String(y)) => {
            let head = to_string(a);
            Ok(Value::String(concat2(head.as_str(), y.as_str())))
        },
        (Value::Object(x), Value::Object(y)) => {
            let mut out = x.clone();
            out.extend(y);
            Ok(Value::Object(out))
        },
        _ => Err(pair_error("cannot add `", a, "` and `", b)),
    }
}

/// The items of a list that do not occur in another.
fn remove_items(x: &Vec<Value>, y: &Vec<Value>) -> (r: Vec<Value>)
    ensures
        jsons(r@) == items_without(jsons(x@), jsons(y@)),
{
    let mut out: Vec<Value> = Vec::new();
    let ghost (m, n) = (jsons(x@), jsons(y@));
    let mut i: usize = 0;
    while i < x.len()
        invariant
            i <= x.len(),
            m == jsons(x@),
            n == jsons(y@),
            jsons(out@) == items_without(m.take(i as int), n),
        decreases x.len() - i,
    {
        let mut found = false;
        let mut j: usize = 0;
        while j < y.len() && !found
            invariant
                j <= y.len(),
                i < x.len(),
                m == jsons(x@),
                n == jsons(y@),
                found ==> exists|k: int|
                    0 <= k < n.len() && same_json(#[trigger] n[k], m[i as int]),
                !found ==> forall|k: int| 0 <= k < j ==> !same_json(#[trigger] n[k], m[i as int]),
            decreases y.len() - j + (if found {
                0int
            } else {
                1int
            }),
        {
            if values_same(&y[j], &x[i]) {
                assert(same_json(n[j as int], m[i as int]));
                found = true;
            } else {
                j += 1;
            }
        }
        proof {
            let next = m.take(i + 1);
            assert(next.drop_last() =~= m.take(i as int));
            assert(next.last() == m[i as int]);
        }
        if !found {
            out.push(x[i].clone());
        }
        i += 1;
    }
    assert(m.take(x.len() as int) =~= m);
    out
}

/// Subtracts two values.
pub fn subtract_values(a: &Value, b: &Value) -> (r: Result<Value, ExpressionError>)
    ensures
        outcome(r) == difference_of(a@, b@),
{
    match (a, b) {
        (Value::Number(x), Value::Number(y)) => match (x.as_i64(), y.as_i64()) {
            (Some(m), Some(n)) => Ok(json_int(m.wrapping_sub(n))),
            _ => Ok(json_num(minus(x.as_double(), y.as_double()))),
        },
        (Value::Array(x), Value::Array(y)) => Ok(Value::Array(remove_items(x, y))),
        _ => Err(pair_error("cannot subtract `", b, "` from `", a)),
    }
}

/// Multiplies two values.
pub fn multiply_values(a: &Value, b: &Value) -> (r: Result<Value, ExpressionError>)
    ensures
        outcome(r) == product_of(a@, b@),
{
    match (a, b) {
        (Value::Number(x), Value::Number(y)) => match (x.as_i64(), y.as_i64()) {
            (Some(m), Some(n)) => Ok(json_int(m.wrapping_mul(n))),
            _ => Ok(json_num(times(x.as_double(), y.as_double()))),
        },
        (Value::String(s), Value::Number(n)) => {
            let count = to_usize(n.as_double());
            Ok(Value::String(repeat(s.as_str(), count)))
        },
        (Value::Number(n), Value::String(s)) => {
            let count = to_usize(n.as_double());
            Ok(Value::String(repeat(s.as_str(), count)))
        },
        _ => Err(pair_error("cannot multiply `", a, "` and `", b)),
    }
}

/// Wraps texts as string values.
pub(crate) fn string_values(parts: Vec<String>) -> (r: Vec<Value>)
    ensures
        jsons(r@) == text_items(views(parts@)),
{
    let mut out: Vec<Value> = Vec::new();
    let mut i: usize = 0;
    let ghost m = views(parts@);
    assert(jsons(out@) =~= text_items(m.take(0)));
    while i < parts.len()
        invariant
            i <= parts.len(),
            m == views(parts@),
            jsons(out@) == text_items(m.take(i as int)),
        decreases parts.len() - i,
    {
        out.push(Value::String(parts[i].clone()));
        assert(text_items(m.take(i + 1)) =~= text_items(m.take(i as int)).push(
            Json::String(m[i as int]),
        ));
        i += 1;
    }
    assert(m.take(parts.len() as int) =~= m);
    out
}

/// Divides two values.
pub fn divide_values(a: &Value, b: &Value) -> (r: Result<Value, ExpressionError>)
    ensures
        outcome(r) == quotient_of(a@, b@),
{
    match (a, b) {
        (Value::Number(x), Value::Number(y)) => {
            let d = y.as_double();
            if zero(d) {
                Err(ExpressionError::eval("division by zero"))
            } else {
                Ok(json_num(divide(x.as_double(), d)))
            }
        },
        (Value::String(x), Value::String(y)) => {
            let parts = split(x.as_str(), y.as_str());
            Ok(Value::Array(string_values(parts)))
        },
        _ => Err(pair_error("cannot divide `", a, "` by `", b)),
    }
}

/// The absolute value of a signed integer.
fn unsigned_of(n: i64) -> (r: u64)
    ensures
        r == abs_nat(n as int),
{
    if n < 0 {
        (-(n as i128)) as u64
    } else {
        n as u64
    }
}

/// The remainder of two values.
pub fn modulo_values(a: &Value, b: &Value) -> (r: Result<Value, ExpressionError>)
    ensures
        outcome(r) == remainder_of(a@, b@),
{
    match (a, b) {
        (Value::Number(x), Value::Number(y)) => match (x.as_i64(), y.as_i64()) {
            (Some(m), Some(n)) => {
                if n == 0 {
                    return Err(ExpressionError::eval("modulo by zero"));
                }
                let part = unsigned_of(m) % unsigned_of(n);
                if m < 0 {
                    Ok(json_int((-(part as i128)) as i64))
                } else {
                    Ok(json_int(part as i64))
                }
            },
            _ => {
                let d = y.as_double();
                if zero(d) {
                    Err(ExpressionError::eval("modulo by zero"))
                } else {
                    Ok(json_num(modulo(x.as_double(), d)))
                }
            },
        },
        _ => Err(pair_error("cannot take `", a, "` modulo `", b)),
    }
}

/// Compares two values and answers by their order.
fn compare_values(a: &Value, b: &Value, less: bool, same: bool, greater: bool) -> (r: Result<
    Value,
    ExpressionError,
>)
    ensures
        outcome(r) == compared(a@, b@, less, same, greater),
{
    match compare(a, b) {
        Ok(Order::Less) => Ok(Value::Bool(less)),
        Ok(Order::Equal) => Ok(Value::Bool(same)),
        Ok(Order::Greater) => Ok(Value::Bool(greater)),
        Err(e) => Err(e),
    }
}

/// Applies a binary operator to two values.
pub fn apply_binop(op: BinOp, a: &Value, b: &Value) -> (r: Result<Value, ExpressionError>)
    ensures
        outcome(r) == applied(op, a@, b@),
{
    match op {
        BinOp::Add => add_values(a, b),
        BinOp::Sub => subtract_values(a, b),
        BinOp::Mul => multiply_values(a, b),
        BinOp::Div => divide_values(a, b),
        BinOp::Mod => modulo_values(a, b),
        BinOp::Eq => Ok(Value::Bool(equal(a, b))),
        BinOp::Ne => Ok(Value::Bool(!equal(a, b))),
        BinOp::Lt => compare_values(a, b, true, false, false),
        BinOp::Le => compare_values(a, b, true, true, false),
        BinOp::Gt => compare_values(a, b, false, false, true),
        BinOp::Ge => compare_values(a, b, false, true, true),
        BinOp::And => Ok(Value::Bool(truthy(a) && truthy(b))),
        BinOp::Or => Ok(Value::Bool(truthy(a) || truthy(b))),
        BinOp::Alternative => Ok(
            if truthy(a) {
                a.clone()
            } else {
                b.clone()
            },
        ),
    }
}

// ---------------------------------------------------------------------------
// Access
// ---------------------------------------------------------------------------

/// The member of a value that is an object, otherwise null.
pub open spec fn member_of(j: Json, name: Seq<char>) -> Json {
    match j {
        Json::Object(m) => member(m, name),
        _ => Json::Null,
    }
}

/// What `.name` gives: a member of an object, or that of each item of an array.
pub open spec fn field_of(j: Json, name: Seq<char>) -> Json {
    match j {
        Json::Array(items) => Json::Array(items.map_values(|i: Json| member_of(i, name))),
        _ => member_of(j, name),
    }
}

/// The place that a possibly negative index denotes in a list.
pub open spec fn place(n: Number, len: nat) -> Option<int> {
    let i = truncated(number_double(n), i64::MIN as int, i64::MAX as int);
    let spot = if i < 0 {
        len + i
    } else {
        i
    };
    if 0 <= spot < len {
        Some(spot)
    } else {
        None
    }
}

/// What `[index]` gives.
pub open spec fn index_of(j: Json, index: Json) -> Outcome {
    match j {
        Json::Array(items) => match index {
            Json::Number(n) => match place(n, items.len()) {
                Some(i) => Ok(items[i]),
                None => Ok(Json::Null),
            },
            Json::String(_) => Ok(Json::Null),
            _ => Err(value_failure("array index must be a number, got `"@, index)),
        },
        Json::Object(m) => match index {
            Json::String(s) => Ok(member(m, s)),
            Json::Number(_) => Ok(Json::Null),
            _ => Err(value_failure("object index must be a string, got `"@, index)),
        },
        Json::String(s) => match index {
            Json::Number(n) => match place(n, s.len()) {
                Some(i) => Ok(Json::String(seq![s[i]])),
                None => Ok(Json::Null),
            },
            _ => Err(type_failure("string index must be a number"@)),
        },
        _ => Ok(Json::Null),
    }
}

/// The member of a value that is an object.
fn member_value(v: &Value, name: &str) -> (r: Value)
    ensures
        r@ == member_of(v@, name@),
{
    match v {
        Value::Object(m) => m.get_or_null(name),
        _ => Value::Null,
    }
}

/// Selects a field.
pub fn field_access(v: &Value, name: &str) -> (r: Value)
    ensures
        r@ == field_of(v@, name@),
{
    match v {
        Value::Array(items) => {
            let mut out: Vec<Value> = Vec::new();
            let ghost m = jsons(items@);
            let ghost f = |i: Json| member_of(i, name@);
            let mut i: usize = 0;
            assert(jsons(out@) =~= m.take(0).map_values(f));
            while i < items.len()
                invariant
                    i <= items.len(),
                    m == jsons(items@),
                    f == (|i: Json| member_of(i, name@)),
                    jsons(out@) == m.take(i as int).map_values(f),
                decreases items.len() - i,
            {
                out.push(member_value(&items[i], name));
                assert(m.take(i + 1).map_values(f) =~= m.take(i as int).map_values(f).push(
                    member_of(m[i as int], name@),
                ));
                i += 1;
            }
            assert(m.take(items.len() as int) =~= m);
            assert(m.map_values(f) =~= m.map_values(|i: Json| member_of(i, name@)));
            Value::Array(out)
        },
        _ => member_value(v, name),
    }
}

/// The place that an index denotes in a list.
fn find_place(n: &Number, len: usize) -> (r: Option<usize>)
    ensures
        match r {
            Some(i) => place(*n, len as nat) == Some(i as int) && i < len,
            None => place(*n, len as nat) is None,
        },
{
    let i = to_i64(n.as_double());
    let spot: i128 = if i < 0 {
        len as i128 + i as i128
    } else {
        i as i128
    };
    if 0 <= spot && spot < len as i128 {
        Some(spot as usize)
    } else {
        None
    }
}

/// Selects by an index.
pub fn index_access(v: &Value, index: &Value) -> (r: Result<Value, ExpressionError>)
    ensures
        outcome(r) == index_of(v@, index@),
{
    match v {
        Value::Array(items) => match index {
            Value::Number(n) => match find_place(n, items.len()) {
                Some(i) => Ok(items[i].clone()),
                None => Ok(Value::Null),
            },
            Value::String(_) => Ok(Value::Null),
            other => Err(value_error("array index must be a number, got `", other)),
        },
        Value::Object(m) => match index {
            Value::String(s) => Ok(m.get_or_null(s.as_str())),
            Value::Number(_) => Ok(Value::Null),
            other => Err(value_error("object index must be a string, got `", other)),
        },
        Value::String(s) => match index {
            Value::Number(n) => {
                let chars = chars_of(s.as_str());
                match find_place(n, chars.len()) {
                    Some(i) => {
                        let mut one = String::new();
                        one.push(chars[i]);
                        assert(one@ =~= seq![s@[i as int]]);
                        Ok(Value::String(one))
                    },
                    None => Ok(Value::Null),
                }
            },
            _ => Err(ExpressionError::type_error("string index must be a number")),
        },
        _ => Ok(Value::Null),
    }
}

/// Whether a value contains another: a string a substring, an array an item
/// that contains each item of the other, an object each member of the other.
pub open spec fn has_inside(h: Json, n: Json) -> bool
    decreases n, 0nat,
{
    match (h, n) {
        (Json::String(x), Json::String(y)) => occurs(x, y),
        (Json::Array(x), Json::Array(y)) => each_inside(x, y),
        (Json::Object(x), Json::Object(y)) => members_inside(x, y),
        _ => is_equal(h, n),
    }
}

/// Whether some item of a list contains a value.
pub open spec fn any_inside(x: Seq<Json>, n: Json) -> bool
    decreases n, 1 + x.len(),
{
    x.len() > 0 && (any_inside(x.drop_last(), n) || has_inside(x.last(), n))
}

/// Whether each item of the second list is contained in some item of the first.
pub open spec fn each_inside(x: Seq<Json>, y: Seq<Json>) -> bool
    decreases y, 0nat,
{
    y.len() == 0 || (each_inside(x, y.drop_last()) && any_inside(x, y.last()))
}

/// Whether each member of the second list is contained in the member of the
/// first with its key.
pub open spec fn members_inside(x: Members, y: Members) -> bool
    decreases y, 0nat,
{
    y.len() == 0 || (members_inside(x, y.drop_last()) && match lookup(x, y.last().0) {
        Some(v) => has_inside(v, y.last().1),
        None => false,
    })
}

/// The items of a prefix decide no more than the whole list asks.
proof fn lemma_each_inside(x: Seq<Json>, y: Seq<Json>, i: int)
    requires
        0 <= i < y.len(),
        each_inside(x, y),
    ensures
        any_inside(x, y[i]),
    decreases y.len(),
{
    if i < y.len() - 1 {
        lemma_each_inside(x, y.drop_last(), i);
    }
}

/// What holds of all members holds of one.
proof fn lemma_members_inside(x: Members, y: Members, i: int)
    requires
        0 <= i < y.len(),
        members_inside(x, y),
    ensures
        match lookup(x, y[i].0) {
            Some(v) => has_inside(v, y[i].1),
            None => false,
        },
    decreases y.len(),
{
    if i < y.len() - 1 {
        lemma_members_inside(x, y.drop_last(), i);
    }
}

/// What holds of one item holds of some item.
proof fn lemma_any_inside(x: Seq<Json>, n: Json, i: int)
    requires
        0 <= i < x.len(),
        has_inside(x[i], n),
    ensures
        any_inside(x, n),
    decreases x.len(),
{
    if i < x.len() - 1 {
        lemma_any_inside(x.drop_last(), n, i);
    }
}

/// Decides whether a value contains another.
pub fn contains_value(h: &Value, n: &Value) -> (r: bool)
    ensures
        r == has_inside(h@, n@),
    decreases n,
{
    match (h, n) {
        (Value::String(x), Value::String(y)) => contains(x.as_str(), y.as_str()),
        (Value::Array(x), Value::Array(y)) => {
            let ghost (p, q) = (jsons(x@), jsons(y@));
            let mut i: usize = 0;
            while i < y.len()
                invariant
                    i <= y.len(),
                    decreases_to!(n => y),
                    p == jsons(x@),
                    q == jsons(y@),
                    h@ == Json::Array(p),
                    n@ == Json::Array(q),
                    each_inside(p, q.take(i as int)),
                decreases y.len() - i,
            {
                let mut found = false;
                let mut j: usize = 0;
                while j < x.len() && !found
                    invariant
                        j <= x.len(),
                        i < y.len(),
                        decreases_to!(n => y),
                        p == jsons(x@),
                        q == jsons(y@),
                        found ==> any_inside(p, q[i as int]),
                        !found ==> !any_inside(p.take(j as int), q[i as int]),
                    decreases x.len() - j + (if found {
                        0int
                    } else {
                        1int
                    }),
                {
                    if contains_value(&x[j], &y[i]) {
                        proof {
                            lemma_any_inside(p, q[i as int], j as int);
                        }
                        found = true;
                    } else {
                        proof {
                            let next = p.take(j + 1);
                            assert(next.drop_last() =~= p.take(j as int));
                            assert(next.last() == p[j as int]);
                        }
                        j += 1;
                    }
                }
                if !found {
                    proof {
                        assert(p.take(x.len() as int) =~= p);
                        if each_inside(p, q) {
                            lemma_each_inside(p, q, i as int);
                        }
                    }
                    return false;
                }
                proof {
                    let next = q.take(i + 1);
                    assert(next.drop_last() =~= q.take(i as int));
                    assert(next.last() == q[i as int]);
                }
                i += 1;
            }
            assert(q.take(y.len() as int) =~= q);
            true
        },
        (Value::Object(x), Value::Object(y)) => {
            let ghost q = y@;
            let mut i: usize = 0;
            while i < y.entries.len()
                invariant
                    i <= y.entries.len(),
                    decreases_to!(n => y),
                    h@ == Json::Object(x@),
                    n@ == Json::Object(y@),
                    q == y@,
                    members_inside(x@, q.take(i as int)),
                decreases y.entries.len() - i,
            {
                proof {
                    let next = q.take(i + 1);
                    assert(next.drop_last() =~= q.take(i as int));
                    assert(next.last() == q[i as int]);
                    assert(q[i as int] == (y.entries@[i as int].0@, y.entries@[i as int].1@));
                    if members_inside(x@, q) {
                        lemma_members_inside(x@, q, i as int);
                    }
                }
                match x.get(y.entries[i].0.as_str()) {
                    Some(v) => {
                        if !contains_value(v, &y.entries[i].1) {
                            return false;
                        }
                    },
                    None => {
                        return false;
                    },
                }
                i += 1;
            }
            assert(q.take(y.entries.len() as int) =~= q);
            true
        },
        _ => equal(h, n),
    }
}

/// The items of nested arrays, in order.
pub open spec fn leaves(j: Json) -> Seq<Json>
    decreases j, 0nat,
{
    match j {
        Json::Array(items) => all_leaves(items),
        _ => seq![j],
    }
}

/// The leaves of each item, one after the other.
pub open spec fn all_leaves(items: Seq<Json>) -> Seq<Json>
    decreases items, 1nat,
{
    if items.len() == 0 {
        Seq::empty()
    } else {
        all_leaves(items.drop_last()) + leaves(items.last())
    }
}

/// Appends the leaves of a value.
pub fn flatten_into(v: &Value, out: &mut Vec<Value>)
    ensures
        jsons(final(out)@) == jsons(old(out)@) + leaves(v@),
    decreases v,
{
    match v {
        Value::Array(items) => {
            let ghost before = jsons(out@);
            let ghost m = jsons(items@);
            let mut i: usize = 0;
            assert(before + all_leaves(m.take(0)) =~= before);
            while i < items.len()
                invariant
                    i <= items.len(),
                    decreases_to!(v => items),
                    m == jsons(items@),
                    jsons(out@) == before + all_leaves(m.take(i as int)),
                decreases items.len() - i,
            {
                flatten_into(&items[i], out);
                proof {
                    let next = m.take(i + 1);
                    assert(next.drop_last() =~= m.take(i as int));
                    assert(next.last() == items@[i as int]@);
                    assert(before + all_leaves(next) =~= before + all_leaves(m.take(i as int))
                        + leaves(items@[i as int]@));
                }
                i += 1;
            }
            assert(m.take(items.len() as int) =~= m);
        },
        other => {
            out.push(other.clone());
            assert(jsons(out@) =~= jsons(old(out)@) + seq![v@]);
        },
    }
}

} // verus!
