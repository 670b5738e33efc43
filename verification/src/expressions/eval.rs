//! The evaluator of the expression language.
//!
//! An expression maps one input value to a stream of zero or more output values,
//! and a pipe composes such maps.
use crate::double::{
    absolute, floor, floored, from_i64, from_int, from_u64, magnitude, negate, opposite, signed,
    to_i64, to_usize, truncated,
};
use crate::expressions::ast::{
    BinOp, Expr, InterpPart, Key, ObjKey, Part, Tree, UnaryOp, entry_trees, part_trees, trees,
};
use crate::expressions::error::{ExpressionError, Failure};
use crate::expressions::operators::{
    Outcome, add_values, applied, apply_binop, contains_value, eval_failure, field_access,
    field_of, flatten_into, has_inside, index_access, index_of, is_truthy, leaves, outcome,
    string_values, sum_of, text_items, truthy, type_failure, value_error, value_failure,
};
use crate::json::{Json, Members, Number, Object, Value, jsons};
use crate::number::{parse_double, parsed_double};
use crate::text::{
    ascii_lower, ascii_upper, chars_of, concat3, ends_with, join, joined, lower, split,
    split_parts, starts_with, strip_prefix, strip_suffix, text_eq, upper, views, without_prefix,
    without_suffix,
};
use crate::value::{
    append_values, double_json, inserted, json_as_double, json_num, json_text, lookup,
    number_double, option_json, plain_text, to_string, write_json,
};
use vstd::prelude::*;

verus! {

broadcast use {crate::json::group_json, crate::expressions::ast::group_ast};

/// What an expression gives: a stream of values, or the first failure.
pub type Stream = Result<Seq<Json>, Failure>;

/// The model of what the evaluator returns.
pub open spec fn streamed(r: Result<Vec<Value>, ExpressionError>) -> Stream {
    match r {
        Ok(items) => Ok(jsons(items@)),
        Err(e) => Err(e@),
    }
}

/// A stream behind some values.
pub open spec fn prefixed(head: Seq<Json>, rest: Stream) -> Stream {
    match rest {
        Ok(items) => Ok(head + items),
        Err(e) => Err(e),
    }
}

/// Putting values before a stream twice is putting them before it at once.
proof fn lemma_prefixed(a: Seq<Json>, b: Seq<Json>, rest: Stream)
    ensures
        prefixed(a, prefixed(b, rest)) == prefixed(a + b, rest),
{
    match rest {
        Ok(items) => assert(a + (b + items) =~= (a + b) + items),
        Err(_) => {},
    }
}

/// No values before a stream.
proof fn lemma_prefixed_nothing(rest: Stream)
    ensures
        prefixed(Seq::empty(), rest) == rest,
{
    match rest {
        Ok(items) => assert(Seq::<Json>::empty() + items =~= items),
        Err(_) => {},
    }
}

/// The first value of a stream, or null.
pub open spec fn first_or_null(s: Seq<Json>) -> Json {
    if s.len() == 0 {
        Json::Null
    } else {
        s[0]
    }
}

/// The last value of a stream, or null.
pub open spec fn last_or_null(s: Seq<Json>) -> Json {
    if s.len() == 0 {
        Json::Null
    } else {
        s.last()
    }
}

/// An operation on two values.
pub type Operation = spec_fn(Json, Json) -> Outcome;

/// A value combined with each value of a stream.
pub open spec fn row(f: Operation, a: Json, rs: Seq<Json>) -> Stream
    decreases rs.len(),
{
    if rs.len() == 0 {
        Ok(Seq::empty())
    } else {
        match f(a, rs[0]) {
            Ok(v) => prefixed(seq![v], row(f, a, rs.skip(1))),
            Err(e) => Err(e),
        }
    }
}

/// Each value of a stream combined with each value of another.
pub open spec fn cross(f: Operation, ls: Seq<Json>, rs: Seq<Json>) -> Stream
    decreases ls.len(),
{
    if ls.len() == 0 {
        Ok(Seq::empty())
    } else {
        match row(f, ls[0], rs) {
            Ok(first) => prefixed(first, cross(f, ls.skip(1), rs)),
            Err(e) => Err(e),
        }
    }
}

/// A binary operator as an operation.
pub open spec fn operation(op: BinOp) -> Operation {
    |a: Json, b: Json| applied(op, a, b)
}

/// Selection by an index as an operation.
pub open spec fn selection() -> Operation {
    |a: Json, b: Json| index_of(a, b)
}

/// What iteration over a value gives: items, member values, or the value.
pub open spec fn children(j: Json) -> Seq<Json> {
    match j {
        Json::Array(items) => items,
        Json::Object(m) => m.map_values(|e: (Seq<char>, Json)| e.1),
        _ => seq![j],
    }
}

/// The children of each value of a stream.
pub open spec fn all_children(s: Seq<Json>) -> Seq<Json>
    decreases s.len(),
{
    if s.len() == 0 {
        Seq::empty()
    } else {
        all_children(s.drop_last()) + children(s.last())
    }
}

/// What a unary operator gives.
pub open spec fn unary_of(op: UnaryOp, j: Json) -> Outcome {
    match op {
        UnaryOp::Not => Ok(Json::Bool(!is_truthy(j))),
        UnaryOp::Negate => match json_as_double(j) {
            Some(n) => Ok(double_json(opposite(n))),
            None => Err(value_failure("cannot negate non-number `"@, j)),
        },
    }
}

/// A unary operator on each value of a stream.
pub open spec fn unary_each(op: UnaryOp, s: Seq<Json>) -> Stream
    decreases s.len(),
{
    if s.len() == 0 {
        Ok(Seq::empty())
    } else {
        match unary_of(op, s[0]) {
            Ok(v) => prefixed(seq![v], unary_each(op, s.skip(1))),
            Err(e) => Err(e),
        }
    }
}

/// An object extended by a member with each of some values.
pub open spec fn with_each(m: Members, key: Seq<char>, values: Seq<Json>) -> Seq<Members> {
    values.map_values(|v: Json| inserted(m, key, v))
}

/// Each of some objects extended by a member with each of some values.
pub open spec fn grown(objects: Seq<Members>, key: Seq<char>, values: Seq<Json>) -> Seq<Members>
    decreases objects.len(),
{
    if objects.len() == 0 {
        Seq::empty()
    } else {
        grown(objects.drop_last(), key, values) + with_each(objects.last(), key, values)
    }
}

/// The values of an entry; an entry without values has null.
pub open spec fn or_null(values: Seq<Json>) -> Seq<Json> {
    if values.len() == 0 {
        seq![Json::Null]
    } else {
        values
    }
}

/// The objects with one value of each entry, for all choices of values.
pub open spec fn objects_of(entries: Seq<(Seq<char>, Seq<Json>)>) -> Seq<Members>
    decreases entries.len(),
{
    if entries.len() == 0 {
        seq![Seq::<(Seq<char>, Json)>::empty()]
    } else {
        grown(objects_of(entries.drop_last()), entries.last().0, or_null(entries.last().1))
    }
}

/// Objects as values.
pub open spec fn object_values(objects: Seq<Members>) -> Seq<Json> {
    objects.map_values(|m: Members| Json::Object(m))
}

// ---------------------------------------------------------------------------
// Functions of the input alone
// ---------------------------------------------------------------------------

/// The value of a count.
pub open spec fn count_json(n: int) -> Json {
    double_json(from_int(n))
}

/// A stream of one value.
pub open spec fn only(j: Json) -> Stream {
    Ok(seq![j])
}

/// The length of a value: its members, items or characters, or the absolute value of a number.
pub open spec fn f_length(input: Json) -> Stream {
    match input {
        Json::Object(m) => only(count_json(m.len() as int)),
        Json::Array(items) => only(count_json(items.len() as int)),
        Json::String(s) => only(count_json(s.len() as int)),
        Json::Number(n) => only(
            count_json(
                truncated(signed(false, magnitude(number_double(n))), 0, usize::MAX as int),
            ),
        ),
        Json::Null => only(count_json(0)),
        Json::Bool(_) => Err(type_failure("length of unsupported type"@)),
    }
}

/// The values of the integers from `a` up to `b`, without `b`.
pub open spec fn counts(a: int, b: int) -> Seq<Json> {
    Seq::new(
        if a < b {
            (b - a) as nat
        } else {
            0
        },
        |i: int| count_json(a + i),
    )
}

/// The keys of an object, or the indices of an array.
pub open spec fn f_keys(input: Json) -> Stream {
    match input {
        Json::Object(m) => only(
            Json::Array(m.map_values(|e: (Seq<char>, Json)| Json::String(e.0))),
        ),
        Json::Array(items) => only(Json::Array(counts(0, items.len() as int))),
        _ => Err(type_failure("keys of non-object/array"@)),
    }
}

/// A value as a number.
pub open spec fn f_tonumber(input: Json) -> Stream {
    match input {
        Json::Number(n) => only(double_json(number_double(n))),
        Json::String(s) => match parsed_double(s) {
            Some(n) => only(double_json(n)),
            None => Err(eval_failure("cannot parse `"@ + s + "` as a number"@)),
        },
        Json::Bool(b) => only(
            double_json(
                from_int(
                    if b {
                        1
                    } else {
                        0
                    },
                ),
            ),
        ),
        _ => Err(type_failure("cannot convert `"@ + json_text(input) + "` to number"@)),
    }
}

/// The first item of an array, or the value itself.
pub open spec fn f_first(input: Json) -> Stream {
    match input {
        Json::Array(items) => only(first_or_null(items)),
        _ => only(input),
    }
}

/// The last item of an array, or the value itself.
pub open spec fn f_last(input: Json) -> Stream {
    match input {
        Json::Array(items) => only(last_or_null(items)),
        _ => only(input),
    }
}

/// The sum of a value and the items of a list, from left to right.
pub open spec fn total_from(acc: Json, items: Seq<Json>) -> Outcome
    decreases items.len(),
{
    if items.len() == 0 {
        Ok(acc)
    } else {
        match sum_of(acc, items[0]) {
            Ok(next) => total_from(next, items.skip(1)),
            Err(e) => Err(e),
        }
    }
}

/// The sum of the items of an array, or the value itself.
pub open spec fn f_add(input: Json) -> Stream {
    match input {
        Json::Array(items) => match total_from(Json::Null, items) {
            Ok(v) => only(v),
            Err(e) => Err(e),
        },
        _ => only(input),
    }
}

/// The name of a value's type.
pub open spec fn type_word(input: Json) -> Seq<char> {
    match input {
        Json::Null => "null"@,
        Json::Bool(_) => "boolean"@,
        Json::Number(_) => "number"@,
        Json::String(_) => "string"@,
        Json::Array(_) => "array"@,
        Json::Object(_) => "object"@,
    }
}

/// A string with its ASCII letters in lower or upper case.
pub open spec fn f_case(input: Json, down: bool) -> Stream {
    match input {
        Json::String(s) => only(
            Json::String(
                if down {
                    s.map_values(|c: char| lower(c))
                } else {
                    s.map_values(|c: char| upper(c))
                },
            ),
        ),
        _ => Err(type_failure("expects a string"@)),
    }
}

/// The absolute value of a number.
pub open spec fn f_fabs(input: Json) -> Stream {
    match input {
        Json::Number(n) => only(double_json(signed(false, magnitude(number_double(n))))),
        _ => Err(value_failure("fabs of `"@, input)),
    }
}

/// The largest integer that is not above a number.
pub open spec fn f_floor(input: Json) -> Stream {
    match input {
        Json::Number(n) => only(double_json(floored(number_double(n)))),
        _ => Err(value_failure("floor of `"@, input)),
    }
}

/// The input if it passes, otherwise nothing.
pub open spec fn kept(input: Json, keep: bool) -> Stream {
    if keep {
        only(input)
    } else {
        Ok(Seq::empty())
    }
}

/// The functions that look at the input alone.
pub open spec fn plain_call(name: Seq<char>, input: Json) -> Option<Stream> {
    if name == "length"@ {
        Some(f_length(input))
    } else if name == "keys"@ {
        Some(f_keys(input))
    } else if name == "tostring"@ {
        Some(only(Json::String(plain_text(input))))
    } else if name == "tonumber"@ {
        Some(f_tonumber(input))
    } else if name == "empty"@ {
        Some(Ok(Seq::empty()))
    } else if name == "first"@ {
        Some(f_first(input))
    } else if name == "last"@ {
        Some(f_last(input))
    } else if name == "flatten"@ {
        Some(only(Json::Array(leaves(input))))
    } else if name == "add"@ {
        Some(f_add(input))
    } else if name == "type"@ {
        Some(only(Json::String(type_word(input))))
    } else if name == "not"@ {
        Some(only(Json::Bool(!is_truthy(input))))
    } else if name == "ascii_downcase"@ {
        Some(f_case(input, true))
    } else if name == "ascii_upcase"@ {
        Some(f_case(input, false))
    } else if name == "fabs"@ {
        Some(f_fabs(input))
    } else if name == "floor"@ {
        Some(f_floor(input))
    } else if name == "values"@ {
        Some(kept(input, !(input is Null)))
    } else if name == "arrays"@ {
        Some(kept(input, input is Array))
    } else if name == "objects"@ {
        Some(kept(input, input is Object))
    } else if name == "strings"@ {
        Some(kept(input, input is String))
    } else if name == "numbers"@ {
        Some(kept(input, input is Number))
    } else if name == "booleans"@ {
        Some(kept(input, input is Bool))
    } else if name == "nulls"@ {
        Some(kept(input, input is Null))
    } else {
        None
    }
}

// ---------------------------------------------------------------------------
// Functions of the input and the first value of an argument
// ---------------------------------------------------------------------------

/// The text of an optional value, or the empty text.
pub open spec fn text_or_empty(v: Option<Json>) -> Seq<char> {
    match v {
        Some(Json::String(s)) => s,
        _ => Seq::empty(),
    }
}

/// An optional value, or null.
pub open spec fn value_or_null(v: Option<Json>) -> Json {
    match v {
        Some(j) => j,
        None => Json::Null,
    }
}

/// The texts of a list of values.
pub open spec fn plain_texts(items: Seq<Json>) -> Seq<Seq<char>> {
    items.map_values(|j: Json| plain_text(j))
}

/// The texts of the items of an array, joined with a separator.
pub open spec fn f_join(input: Json, arg: Option<Json>) -> Stream {
    match input {
        Json::Array(items) => only(
            Json::String(joined(plain_texts(items), text_or_empty(arg))),
        ),
        _ => Err(value_failure("join expects an array, got `"@, input)),
    }
}

/// Whether a string starts or ends with another.
pub open spec fn f_affix(input: Json, arg: Option<Json>, start: bool) -> Stream {
    match arg {
        Some(Json::String(needle)) => match input {
            Json::String(s) => only(
                Json::Bool(
                    if start {
                        needle.is_prefix_of(s)
                    } else {
                        needle.is_suffix_of(s)
                    },
                ),
            ),
            _ => Err(type_failure("startswith/endswith expects a string input"@)),
        },
        _ => Err(eval_failure("startswith/endswith requires a string"@)),
    }
}

/// The parts of a string between separators.
pub open spec fn f_split(input: Json, arg: Option<Json>) -> Stream {
    match input {
        Json::String(s) => only(Json::Array(text_items(split_parts(s, text_or_empty(arg))))),
        _ => Err(value_failure("split expects a string, got `"@, input)),
    }
}

/// Whether an object has a key, or an array an index.
pub open spec fn f_has(input: Json, arg: Option<Json>) -> Stream {
    only(
        Json::Bool(
            match input {
                Json::Object(m) => lookup(m, text_or_empty(arg)) is Some,
                Json::Array(items) => match value_or_null(arg) {
                    Json::Number(n) => {
                        let d = number_double(n);
                        truncated(d, i64::MIN as int, i64::MAX as int) >= 0 && truncated(
                            d,
                            0,
                            usize::MAX as int,
                        ) < items.len()
                    },
                    _ => false,
                },
                _ => false,
            },
        ),
    )
}

/// A string without a prefix or suffix, or the whole string.
pub open spec fn f_trim(input: Json, arg: Option<Json>, start: bool) -> Stream {
    let s = text_or_empty(Some(input));
    let cut = if start {
        without_prefix(s, text_or_empty(arg))
    } else {
        without_suffix(s, text_or_empty(arg))
    };
    only(
        Json::String(
            match cut {
                Some(rest) => rest,
                None => s,
            },
        ),
    )
}

/// The functions that look at the input and at the first value of an optional
/// argument.
pub open spec fn argument_call(name: Seq<char>, input: Json, arg: Option<Json>) -> Option<Stream> {
    if name == "join"@ {
        Some(f_join(input, arg))
    } else if name == "startswith"@ {
        Some(f_affix(input, arg, true))
    } else if name == "endswith"@ {
        Some(f_affix(input, arg, false))
    } else if name == "contains"@ {
        Some(only(Json::Bool(has_inside(input, value_or_null(arg)))))
    } else if name == "split"@ {
        Some(f_split(input, arg))
    } else if name == "has"@ {
        Some(f_has(input, arg))
    } else if name == "ltrimstr"@ {
        Some(f_trim(input, arg, true))
    } else if name == "rtrimstr"@ {
        Some(f_trim(input, arg, false))
    } else {
        None
    }
}

/// Whether a function takes an optional argument by its first value.
pub open spec fn takes_argument(name: Seq<char>) -> bool {
    argument_call(name, Json::Null, None) is Some
}

/// The integers that the first values of streams are cut to; each has to be a
/// number.
pub open spec fn bounds_of(streams: Seq<Seq<Json>>) -> Option<Seq<int>>
    decreases streams.len(),
{
    if streams.len() == 0 {
        Some(Seq::empty())
    } else {
        match (bounds_of(streams.drop_last()), json_as_double(first_or_null(streams.last()))) {
            (Some(head), Some(d)) => Some(
                head.push(truncated(d, i64::MIN as int, i64::MAX as int)),
            ),
            _ => None,
        }
    }
}

/// The integers from zero, or from the first bound, up to the next bound.
pub open spec fn f_range(streams: Seq<Seq<Json>>) -> Stream {
    match bounds_of(streams) {
        Some(b) => Ok(
            if b.len() == 0 {
                Seq::empty()
            } else if b.len() == 1 {
                counts(0, b[0])
            } else {
                counts(b[0], b[1])
            },
        ),
        None => Err(eval_failure("range requires numbers"@)),
    }
}

// ---------------------------------------------------------------------------
// Evaluation
// ---------------------------------------------------------------------------

/// What an expression gives on an input.
pub open spec fn eval_tree(t: Tree, input: Json, env: Members) -> Stream
    decreases t, 0nat,
{
    match t {
        Tree::Identity => only(input),
        Tree::Literal(v) => only(v),
        Tree::Variable(name) => match lookup(env, name) {
            Some(v) => only(v),
            None => Err(type_failure("undefined variable `$"@ + name + "`"@)),
        },
        Tree::Str(parts) => match eval_parts(parts, input, env) {
            Ok(s) => only(Json::String(s)),
            Err(e) => Err(e),
        },
        Tree::Field(base, name) => match eval_tree(*base, input, env) {
            Ok(s) => Ok(s.map_values(|v: Json| field_of(v, name))),
            Err(e) => Err(e),
        },
        Tree::Index(base, index) => match eval_tree(*base, input, env) {
            Ok(ls) => match eval_tree(*index, input, env) {
                Ok(rs) => cross(selection(), ls, rs),
                Err(e) => Err(e),
            },
            Err(e) => Err(e),
        },
        Tree::Iterate(base) => match eval_tree(*base, input, env) {
            Ok(s) => Ok(all_children(s)),
            Err(e) => Err(e),
        },
        Tree::Binary(op, l, r) => match eval_tree(*l, input, env) {
            Err(e) => Err(e),
            Ok(ls) => if op == BinOp::And && !is_truthy(last_or_null(ls)) {
                only(Json::Bool(false))
            } else if op == BinOp::Or && is_truthy(last_or_null(ls)) {
                only(Json::Bool(true))
            } else if op == BinOp::Alternative && is_truthy(last_or_null(ls)) {
                Ok(ls)
            } else {
                match eval_tree(*r, input, env) {
                    Err(e) => Err(e),
                    Ok(rs) => if op == BinOp::And || op == BinOp::Or {
                        only(Json::Bool(is_truthy(last_or_null(rs))))
                    } else if op == BinOp::Alternative {
                        Ok(rs)
                    } else {
                        cross(operation(op), ls, rs)
                    },
                }
            },
        },
        Tree::Unary(op, inner) => match eval_tree(*inner, input, env) {
            Ok(s) => unary_each(op, s),
            Err(e) => Err(e),
        },
        Tree::Pipe(l, r) => match eval_tree(*l, input, env) {
            Ok(s) => eval_each(*r, s, env),
            Err(e) => Err(e),
        },
        Tree::Array(items) => match eval_all(items, input, env) {
            Ok(s) => only(Json::Array(s)),
            Err(e) => Err(e),
        },
        Tree::Object(entries) => match eval_entries(entries, input, env) {
            Ok(es) => Ok(object_values(objects_of(es))),
            Err(e) => Err(e),
        },
        Tree::If(c, t, f) => match eval_tree(*c, input, env) {
            Ok(s) => if is_truthy(first_or_null(s)) {
                eval_tree(*t, input, env)
            } else {
                eval_tree(*f, input, env)
            },
            Err(e) => Err(e),
        },
        Tree::Call(name, args) => eval_call(name, args, input, env),
        Tree::Stream(items) => eval_all(items, input, env),
    }
}

/// An expression on each of some inputs, one after the other.
pub open spec fn eval_each(t: Tree, inputs: Seq<Json>, env: Members) -> Stream
    decreases t, 1 + inputs.len(),
{
    if inputs.len() == 0 {
        Ok(Seq::empty())
    } else {
        match eval_tree(t, inputs[0], env) {
            Ok(s) => prefixed(s, eval_each(t, inputs.skip(1), env)),
            Err(e) => Err(e),
        }
    }
}

/// Some expressions on one input, one after the other.
pub open spec fn eval_all(items: Seq<Tree>, input: Json, env: Members) -> Stream
    decreases items, 0nat,
{
    if items.len() == 0 {
        Ok(Seq::empty())
    } else {
        match eval_tree(items[0], input, env) {
            Ok(s) => prefixed(s, eval_all(items.skip(1), input, env)),
            Err(e) => Err(e),
        }
    }
}

/// The text of the parts of a string. An interpolated expression gives the text
/// of its last value.
pub open spec fn eval_parts(parts: Seq<Part>, input: Json, env: Members) -> Result<
    Seq<char>,
    Failure,
>
    decreases parts, 0nat,
{
    if parts.len() == 0 {
        Ok(Seq::empty())
    } else {
        match eval_part(parts[0], input, env) {
            Ok(head) => match eval_parts(parts.skip(1), input, env) {
                Ok(rest) => Ok(head + rest),
                Err(e) => Err(e),
            },
            Err(e) => Err(e),
        }
    }
}

/// The text of one part of a string.
pub open spec fn eval_part(part: Part, input: Json, env: Members) -> Result<Seq<char>, Failure>
    decreases part, 0nat,
{
    match part {
        Part::Literal(s) => Ok(s),
        Part::Expr(e) => match eval_tree(*e, input, env) {
            Ok(s) => Ok(plain_text(last_or_null(s))),
            Err(e) => Err(e),
        },
    }
}

/// The text of a key of an object constructor.
pub open spec fn eval_key(key: Key, input: Json, env: Members) -> Result<Seq<char>, Failure>
    decreases key, 0nat,
{
    match key {
        Key::Ident(s) => Ok(s),
        Key::Str(s) => Ok(s),
        Key::Computed(e) => match eval_tree(*e, input, env) {
            Ok(s) => Ok(plain_text(last_or_null(s))),
            Err(e) => Err(e),
        },
    }
}

/// The keys and the values of the entries of an object constructor.
pub open spec fn eval_entries(entries: Seq<(Key, Tree)>, input: Json, env: Members) -> Result<
    Seq<(Seq<char>, Seq<Json>)>,
    Failure,
>
    decreases entries, 0nat,
{
    if entries.len() == 0 {
        Ok(Seq::empty())
    } else {
        match eval_key(entries[0].0, input, env) {
            Err(e) => Err(e),
            Ok(key) => match eval_tree(entries[0].1, input, env) {
                Err(e) => Err(e),
                Ok(values) => match eval_entries(entries.skip(1), input, env) {
                    Err(e) => Err(e),
                    Ok(rest) => Ok(seq![(key, values)] + rest),
                },
            },
        }
    }
}

/// The streams of some expressions on one input.
pub open spec fn eval_streams(args: Seq<Tree>, input: Json, env: Members) -> Result<
    Seq<Seq<Json>>,
    Failure,
>
    decreases args, 0nat,
{
    if args.len() == 0 {
        Ok(Seq::empty())
    } else {
        match eval_tree(args[0], input, env) {
            Err(e) => Err(e),
            Ok(s) => match eval_streams(args.skip(1), input, env) {
                Err(e) => Err(e),
                Ok(rest) => Ok(seq![s] + rest),
            },
        }
    }
}

/// The first value of the first argument.
pub open spec fn eval_argument(args: Seq<Tree>, input: Json, env: Members) -> Result<
    Option<Json>,
    Failure,
>
    decreases args, 0nat,
{
    if args.len() == 0 {
        Ok(None)
    } else {
        match eval_tree(args[0], input, env) {
            Err(e) => Err(e),
            Ok(s) => Ok(
                if s.len() == 0 {
                    None
                } else {
                    Some(s[0])
                },
            ),
        }
    }
}

/// What a function gives.
pub open spec fn eval_call(
    name: Seq<char>,
    args: Seq<Tree>,
    input: Json,
    env: Members,
) -> Stream
    decreases args, 1nat,
{
    match plain_call(name, input) {
        Some(s) => s,
        None => if takes_argument(name) {
            match eval_argument(args, input, env) {
                Ok(arg) => argument_call(name, input, arg).unwrap(),
                Err(e) => Err(e),
            }
        } else if name == "map"@ {
            if args.len() == 0 {
                Err(eval_failure("map requires a filter"@))
            } else {
                match input {
                    Json::Array(items) => match eval_each(args[0], items, env) {
                        Ok(s) => only(Json::Array(s)),
                        Err(e) => Err(e),
                    },
                    _ => Err(value_failure("map expects an array, got `"@, input)),
                }
            }
        } else if name == "select"@ {
            if args.len() == 0 {
                Err(eval_failure("select requires a filter"@))
            } else {
                match eval_tree(args[0], input, env) {
                    Ok(s) => kept(input, is_truthy(first_or_null(s))),
                    Err(e) => Err(e),
                }
            }
        } else if name == "range"@ {
            match eval_streams(args, input, env) {
                Ok(streams) => f_range(streams),
                Err(e) => Err(e),
            }
        } else if name == "error"@ {
            if args.len() == 0 {
                Err(eval_failure(plain_text(input)))
            } else {
                match eval_tree(args[0], input, env) {
                    Ok(s) => Err(eval_failure(plain_text(first_or_null(s)))),
                    Err(e) => Err(e),
                }
            }
        } else {
            Err(Failure::UnsupportedFunction { name })
        },
    }
}

/// Whether a name is that of a function of the language.
#[verifier::opaque]
pub open spec fn is_function(name: Seq<char>) -> bool {
    plain_call(name, Json::Null) is Some || takes_argument(name) || name == "map"@ || name
        == "select"@ || name == "range"@ || name == "error"@
}

/// Decides whether a name is that of a function of the language.
pub fn known_function(name: &str) -> (r: bool)
    ensures
        r == is_function(name@),
{
    reveal(is_function);
    let access = text_eq(name, "length")
        || text_eq(name, "keys")
        || text_eq(name, "tostring")
        || text_eq(name, "tonumber")
        || text_eq(name, "empty")
        || text_eq(name, "first")
        || text_eq(name, "last")
        || text_eq(name, "flatten");
    let shape = text_eq(name, "add")
        || text_eq(name, "type")
        || text_eq(name, "not")
        || text_eq(name, "ascii_downcase")
        || text_eq(name, "ascii_upcase")
        || text_eq(name, "fabs")
        || text_eq(name, "floor");
    let filter = text_eq(name, "values")
        || text_eq(name, "arrays")
        || text_eq(name, "objects")
        || text_eq(name, "strings")
        || text_eq(name, "numbers")
        || text_eq(name, "booleans")
        || text_eq(name, "nulls");
    let argument = text_eq(name, "join")
        || text_eq(name, "startswith")
        || text_eq(name, "endswith")
        || text_eq(name, "contains")
        || text_eq(name, "split")
        || text_eq(name, "has")
        || text_eq(name, "ltrimstr")
        || text_eq(name, "rtrimstr");
    let higher = text_eq(name, "map")
        || text_eq(name, "select")
        || text_eq(name, "range")
        || text_eq(name, "error");
    access || shape || filter || argument || higher
}

// ---------------------------------------------------------------------------
// The evaluator
// ---------------------------------------------------------------------------

/// The variables that an expression can name.
pub struct Env {
    /// The values by name.
    pub variables: Object,
}

impl Env {
    /// An environment with the given variables.
    pub fn new(variables: Object) -> (r: Self)
        ensures
            r.variables@ == variables@,
    {
        Self { variables }
    }
}

/// A list of one value.
fn one_value(v: Value) -> (r: Vec<Value>)
    ensures
        jsons(r@) == seq![v@],
{
    let mut out: Vec<Value> = Vec::new();
    out.push(v);
    assert(jsons(out@) =~= seq![v@]);
    out
}

/// A copy of the first value, or null.
fn first_value(items: &Vec<Value>) -> (r: Value)
    ensures
        r@ == first_or_null(jsons(items@)),
{
    if items.len() == 0 {
        Value::Null
    } else {
        items[0].clone()
    }
}

/// A copy of the last value, or null.
fn last_value(items: &Vec<Value>) -> (r: Value)
    ensures
        r@ == last_or_null(jsons(items@)),
{
    if items.len() == 0 {
        Value::Null
    } else {
        items[items.len() - 1].clone()
    }
}

/// How two values are combined.
#[derive(Debug, Clone, Copy)]
enum Pairing {
    /// By a binary operator.
    Apply(BinOp),
    /// By selection of the second from the first.
    Select,
}

/// A way to combine two values as an operation.
spec fn pairing(how: Pairing) -> Operation {
    match how {
        Pairing::Apply(op) => operation(op),
        Pairing::Select => selection(),
    }
}

/// Combines two values.
fn pair_values(how: Pairing, a: &Value, b: &Value) -> (r: Result<Value, ExpressionError>)
    ensures
        outcome(r) == pairing(how)(a@, b@),
{
    match how {
        Pairing::Apply(op) => apply_binop(op, a, b),
        Pairing::Select => index_access(a, b),
    }
}

/// Combines each pair of values.
fn cross_values(how: Pairing, ls: &Vec<Value>, rs: &Vec<Value>) -> (r: Result<
    Vec<Value>,
    ExpressionError,
>)
    ensures
        streamed(r) == cross(pairing(how), jsons(ls@), jsons(rs@)),
{
    let ghost f = pairing(how);
    let ghost (m, n) = (jsons(ls@), jsons(rs@));
    let ghost total = cross(f, m, n);
    let mut out: Vec<Value> = Vec::new();
    let mut i: usize = 0;
    proof {
        assert(m.skip(0) =~= m);
        lemma_prefixed_nothing(total);
    }
    while i < ls.len()
        invariant
            i <= ls.len(),
            f == pairing(how),
            m == jsons(ls@),
            n == jsons(rs@),
            total == cross(f, m, n),
            total == prefixed(jsons(out@), cross(f, m.skip(i as int), n)),
        decreases ls.len() - i,
    {
        let ghost base = jsons(out@);
        let ghost a = m[i as int];
        let ghost rest = cross(f, m.skip(i + 1), n);
        let mut j: usize = 0;
        proof {
            assert(m.skip(i as int)[0] == a);
            assert(m.skip(i as int).skip(1) =~= m.skip(i + 1));
            assert(n.skip(0) =~= n);
            lemma_prefixed_nothing(row(f, a, n));
            assert(base + Seq::<Json>::empty() =~= base);
        }
        let ghost mut part = Seq::<Json>::empty();
        while j < rs.len()
            invariant
                i < ls.len(),
                j <= rs.len(),
                f == pairing(how),
                m == jsons(ls@),
                n == jsons(rs@),
                a == m[i as int],
                jsons(out@) == base + part,
                row(f, a, n) == prefixed(part, row(f, a, n.skip(j as int))),
                total == cross(f, m, n),
                total == prefixed(
                    base,
                    match row(f, a, n) {
                        Ok(first) => prefixed(first, rest),
                        Err(e) => Err(e),
                    },
                ),
            decreases rs.len() - j,
        {
            proof {
                assert(n.skip(j as int)[0] == n[j as int]);
                assert(n.skip(j as int).skip(1) =~= n.skip(j + 1));
            }
            match pair_values(how, &ls[i], &rs[j]) {
                Ok(v) => {
                    proof {
                        lemma_prefixed(part, seq![v@], row(f, a, n.skip(j + 1)));
                        assert(base + (part + seq![v@]) =~= (base + part).push(v@));
                        part = part + seq![v@];
                    }
                    out.push(v);
                },
                Err(e) => {
                    return Err(e);
                },
            }
            j += 1;
        }
        proof {
            assert(n.skip(j as int) =~= Seq::empty());
            assert(part + Seq::<Json>::empty() =~= part);
            lemma_prefixed(base, part, rest);
        }
        i += 1;
    }
    proof {
        assert(m.skip(i as int) =~= Seq::empty());
        assert(jsons(out@) + Seq::<Json>::empty() =~= jsons(out@));
    }
    Ok(out)
}

/// Selects a field of each value.
fn field_values(items: &Vec<Value>, name: &str) -> (r: Vec<Value>)
    ensures
        jsons(r@) == jsons(items@).map_values(|v: Json| field_of(v, name@)),
{
    let ghost f = |v: Json| field_of(v, name@);
    let ghost m = jsons(items@);
    let mut out: Vec<Value> = Vec::new();
    let mut i: usize = 0;
    assert(jsons(out@) =~= m.take(0).map_values(f));
    while i < items.len()
        invariant
            i <= items.len(),
            m == jsons(items@),
            f == (|v: Json| field_of(v, name@)),
            jsons(out@) == m.take(i as int).map_values(f),
        decreases items.len() - i,
    {
        out.push(field_access(&items[i], name));
        assert(m.take(i + 1).map_values(f) =~= m.take(i as int).map_values(f).push(
            field_of(m[i as int], name@),
        ));
        i += 1;
    }
    assert(m.take(items.len() as int) =~= m);
    assert(m.map_values(f) =~= m.map_values(|v: Json| field_of(v, name@)));
    out
}

/// Appends the children of a value.
fn append_children(v: &Value, out: &mut Vec<Value>)
    ensures
        jsons(final(out)@) == jsons(old(out)@) + children(v@),
{
    match v {
        Value::Array(items) => append_values(out, items),
        Value::Object(o) => {
            let ghost base = jsons(out@);
            let ghost m = o@;
            let ghost f = |e: (Seq<char>, Json)| e.1;
            let mut i: usize = 0;
            assert(base + m.take(0).map_values(f) =~= base);
            while i < o.entries.len()
                invariant
                    i <= o.entries.len(),
                    m == o@,
                    f == (|e: (Seq<char>, Json)| e.1),
                    jsons(out@) == base + m.take(i as int).map_values(f),
                decreases o.entries.len() - i,
            {
                out.push(o.entries[i].1.clone());
                assert(base + m.take(i + 1).map_values(f) =~= (base + m.take(i as int).map_values(
                    f,
                )).push(m[i as int].1));
                i += 1;
            }
            assert(m.take(o.entries.len() as int) =~= m);
            assert(m.map_values(f) =~= m.map_values(|e: (Seq<char>, Json)| e.1));
        },
        other => {
            out.push(other.clone());
            assert(jsons(out@) =~= jsons(old(out)@) + seq![v@]);
        },
    }
}

/// The children of each value.
fn iterate_values(items: &Vec<Value>) -> (r: Vec<Value>)
    ensures
        jsons(r@) == all_children(jsons(items@)),
{
    let ghost m = jsons(items@);
    let mut out: Vec<Value> = Vec::new();
    let mut i: usize = 0;
    while i < items.len()
        invariant
            i <= items.len(),
            m == jsons(items@),
            jsons(out@) == all_children(m.take(i as int)),
        decreases items.len() - i,
    {
        append_children(&items[i], &mut out);
        proof {
            let next = m.take(i + 1);
            assert(next.drop_last() =~= m.take(i as int));
            assert(next.last() == items@[i as int]@);
        }
        i += 1;
    }
    assert(m.take(items.len() as int) =~= m);
    out
}

/// Applies a unary operator to a value.
fn apply_unary(op: UnaryOp, v: &Value) -> (r: Result<Value, ExpressionError>)
    ensures
        outcome(r) == unary_of(op, v@),
{
    match op {
        UnaryOp::Not => Ok(Value::Bool(!truthy(v))),
        UnaryOp::Negate => match v.as_double() {
            Some(n) => Ok(json_num(negate(n))),
            None => Err(value_error("cannot negate non-number `", v)),
        },
    }
}

/// Applies a unary operator to each value.
fn unary_values(op: UnaryOp, items: &Vec<Value>) -> (r: Result<Vec<Value>, ExpressionError>)
    ensures
        streamed(r) == unary_each(op, jsons(items@)),
{
    let ghost m = jsons(items@);
    let mut out: Vec<Value> = Vec::new();
    let mut i: usize = 0;
    proof {
        assert(m.skip(0) =~= m);
        lemma_prefixed_nothing(unary_each(op, m));
    }
    while i < items.len()
        invariant
            i <= items.len(),
            m == jsons(items@),
            unary_each(op, m) == prefixed(jsons(out@), unary_each(op, m.skip(i as int))),
        decreases items.len() - i,
    {
        proof {
            assert(m.skip(i as int)[0] == m[i as int]);
            assert(m.skip(i as int).skip(1) =~= m.skip(i + 1));
        }
        match apply_unary(op, &items[i]) {
            Ok(v) => {
                proof {
                    lemma_prefixed(jsons(out@), seq![v@], unary_each(op, m.skip(i + 1)));
                    assert(jsons(out@) + seq![v@] =~= jsons(out@).push(v@));
                }
                out.push(v);
            },
            Err(e) => {
                return Err(e);
            },
        }
        i += 1;
    }
    proof {
        assert(m.skip(i as int) =~= Seq::empty());
        assert(jsons(out@) + Seq::<Json>::empty() =~= jsons(out@));
    }
    Ok(out)
}

/// The models of a list of objects.
spec fn object_views(objects: Seq<Object>) -> Seq<Members> {
    objects.map_values(|o: Object| o@)
}

/// The models of evaluated entries.
spec fn entry_views(entries: Seq<(String, Vec<Value>)>) -> Seq<(Seq<char>, Seq<Json>)> {
    entries.map_values(|e: (String, Vec<Value>)| (e.0@, jsons(e.1@)))
}

/// Extends each object by a member with each of some values.
fn grow_objects(objects: &Vec<Object>, key: &String, values: &Vec<Value>) -> (r: Vec<Object>)
    ensures
        object_views(r@) == grown(object_views(objects@), key@, jsons(values@)),
{
    let ghost m = object_views(objects@);
    let ghost vs = jsons(values@);
    let mut out: Vec<Object> = Vec::new();
    let mut i: usize = 0;
    assert(object_views(out@) =~= Seq::empty());
    while i < objects.len()
        invariant
            i <= objects.len(),
            m == object_views(objects@),
            vs == jsons(values@),
            object_views(out@) == grown(m.take(i as int), key@, vs),
        decreases objects.len() - i,
    {
        let ghost base = object_views(out@);
        let ghost one = m[i as int];
        let ghost f = |v: Json| inserted(one, key@, v);
        let mut j: usize = 0;
        assert(base + vs.take(0).map_values(f) =~= base);
        while j < values.len()
            invariant
                i < objects.len(),
                j <= values.len(),
                vs == jsons(values@),
                one == objects@[i as int]@,
                f == (|v: Json| inserted(one, key@, v)),
                object_views(out@) == base + vs.take(j as int).map_values(f),
            decreases values.len() - j,
        {
            let mut copy = objects[i].clone();
            copy.insert(key.clone(), values[j].clone());
            let ghost before = object_views(out@);
            out.push(copy);
            proof {
                assert(object_views(out@) =~= before.push(copy@));
                assert(base + vs.take(j + 1).map_values(f) =~= (base + vs.take(
                    j as int,
                ).map_values(f)).push(inserted(one, key@, vs[j as int])));
            }
            j += 1;
        }
        proof {
            assert(vs.take(values.len() as int) =~= vs);
            assert(vs.map_values(f) =~= with_each(one, key@, vs));
            let next = m.take(i + 1);
            assert(next.drop_last() =~= m.take(i as int));
            assert(next.last() == one);
        }
        i += 1;
    }
    assert(m.take(objects.len() as int) =~= m);
    out
}

/// Builds the objects of evaluated entries.
fn build_objects(entries: &Vec<(String, Vec<Value>)>) -> (r: Vec<Value>)
    ensures
        jsons(r@) == object_values(objects_of(entry_views(entries@))),
{
    let ghost m = entry_views(entries@);
    let mut objects: Vec<Object> = Vec::new();
    objects.push(Object::new());
    let mut i: usize = 0;
    assert(object_views(objects@) =~= objects_of(m.take(0)));
    while i < entries.len()
        invariant
            i <= entries.len(),
            m == entry_views(entries@),
            object_views(objects@) == objects_of(m.take(i as int)),
        decreases entries.len() - i,
    {
        proof {
            let next = m.take(i + 1);
            assert(next.drop_last() =~= m.take(i as int));
            assert(next.last() == (entries@[i as int].0@, jsons(entries@[i as int].1@)));
        }
        if entries[i].1.len() == 0 {
            let nothing = one_value(Value::Null);
            objects = grow_objects(&objects, &entries[i].0, &nothing);
        } else {
            objects = grow_objects(&objects, &entries[i].0, &entries[i].1);
        }
        i += 1;
    }
    assert(m.take(entries.len() as int) =~= m);
    let ghost all = object_views(objects@);
    let mut out: Vec<Value> = Vec::new();
    let mut k: usize = 0;
    assert(jsons(out@) =~= object_values(all.take(0)));
    while k < objects.len()
        invariant
            k <= objects.len(),
            all == object_views(objects@),
            jsons(out@) == object_values(all.take(k as int)),
        decreases objects.len() - k,
    {
        out.push(Value::Object(objects[k].clone()));
        assert(object_values(all.take(k + 1)) =~= object_values(all.take(k as int)).push(
            Json::Object(all[k as int]),
        ));
        k += 1;
    }
    assert(all.take(objects.len() as int) =~= all);
    out
}

// ---------------------------------------------------------------------------
// Functions
// ---------------------------------------------------------------------------

/// The value of a count.
fn count_value(n: u64) -> (r: Value)
    ensures
        r@ == count_json(n as int),
{
    json_num(from_u64(n))
}

/// The stream of one value.
fn only_value(v: Value) -> (r: Result<Vec<Value>, ExpressionError>)
    ensures
        streamed(r) == only(v@),
{
    Ok(one_value(v))
}

/// Computes the length of a value.
fn call_length(input: &Value) -> (r: Result<Vec<Value>, ExpressionError>)
    ensures
        streamed(r) == f_length(input@),
{
    match input {
        Value::Object(o) => only_value(count_value(o.len() as u64)),
        Value::Array(items) => only_value(count_value(items.len() as u64)),
        Value::String(s) => {
            let chars = chars_of(s.as_str());
            only_value(count_value(chars.len() as u64))
        },
        Value::Number(n) => only_value(count_value(to_usize(absolute(n.as_double())) as u64)),
        Value::Null => only_value(count_value(0)),
        Value::Bool(_) => Err(ExpressionError::type_error("length of unsupported type")),
    }
}

/// The values of the integers from `a` up to `b`, without `b`.
fn count_values(a: i64, b: i64) -> (r: Vec<Value>)
    ensures
        jsons(r@) == counts(a as int, b as int),
{
    let mut out: Vec<Value> = Vec::new();
    let mut i: i64 = a;
    assert(jsons(out@) =~= counts(a as int, a as int));
    while i < b
        invariant
            a <= i,
            a < b ==> i <= b,
            a >= b ==> i == a,
            jsons(out@) == counts(a as int, i as int),
        decreases b - i,
    {
        out.push(json_num(from_i64(i)));
        assert(counts(a as int, i + 1) =~= counts(a as int, i as int).push(count_json(i as int)));
        i += 1;
    }
    assert(counts(a as int, i as int) =~= counts(a as int, b as int));
    out
}

/// The values of the integers below a size.
fn index_values(len: usize) -> (r: Vec<Value>)
    ensures
        jsons(r@) == counts(0, len as int),
{
    let mut out: Vec<Value> = Vec::new();
    let mut i: usize = 0;
    assert(jsons(out@) =~= counts(0, 0));
    while i < len
        invariant
            i <= len,
            jsons(out@) == counts(0, i as int),
        decreases len - i,
    {
        out.push(count_value(i as u64));
        assert(counts(0, i + 1) =~= counts(0, i as int).push(count_json(i as int)));
        i += 1;
    }
    out
}

/// Lists the keys of a value.
fn call_keys(input: &Value) -> (r: Result<Vec<Value>, ExpressionError>)
    ensures
        streamed(r) == f_keys(input@),
{
    match input {
        Value::Object(o) => {
            let ghost m = o@;
            let ghost f = |e: (Seq<char>, Json)| Json::String(e.0);
            let mut out: Vec<Value> = Vec::new();
            let mut i: usize = 0;
            assert(jsons(out@) =~= m.take(0).map_values(f));
            while i < o.entries.len()
                invariant
                    i <= o.entries.len(),
                    m == o@,
                    f == (|e: (Seq<char>, Json)| Json::String(e.0)),
                    jsons(out@) == m.take(i as int).map_values(f),
                decreases o.entries.len() - i,
            {
                out.push(Value::String(o.entries[i].0.clone()));
                assert(m.take(i + 1).map_values(f) =~= m.take(i as int).map_values(f).push(
                    Json::String(m[i as int].0),
                ));
                i += 1;
            }
            assert(m.take(o.entries.len() as int) =~= m);
            assert(m.map_values(f) =~= m.map_values(
                |e: (Seq<char>, Json)| Json::String(e.0),
            ));
            only_value(Value::Array(out))
        },
        Value::Array(items) => only_value(Value::Array(index_values(items.len()))),
        _ => Err(ExpressionError::type_error("keys of non-object/array")),
    }
}

/// Reads a value as a number.
fn call_tonumber(input: &Value) -> (r: Result<Vec<Value>, ExpressionError>)
    ensures
        streamed(r) == f_tonumber(input@),
{
    match input {
        Value::Number(n) => only_value(json_num(n.as_double())),
        Value::String(s) => match parse_double(s.as_str()) {
            Some(n) => only_value(json_num(n)),
            None => {
                let message = concat3("cannot parse `", s.as_str(), "` as a number");
                Err(ExpressionError::Eval { message })
            },
        },
        Value::Bool(b) => only_value(
            json_num(
                from_u64(
                    if *b {
                        1
                    } else {
                        0
                    },
                ),
            ),
        ),
        other => {
            let text = write_json(other);
            let message = concat3("cannot convert `", text.as_str(), "` to number");
            Err(ExpressionError::TypeError { message })
        },
    }
}

/// Adds the items of an array.
fn call_add(input: &Value) -> (r: Result<Vec<Value>, ExpressionError>)
    ensures
        streamed(r) == f_add(input@),
{
    match input {
        Value::Array(items) => {
            let ghost m = jsons(items@);
            let mut acc = Value::Null;
            let mut i: usize = 0;
            assert(m.skip(0) =~= m);
            while i < items.len()
                invariant
                    i <= items.len(),
                    m == jsons(items@),
                    input@ == Json::Array(m),
                    total_from(Json::Null, m) == total_from(acc@, m.skip(i as int)),
                decreases items.len() - i,
            {
                proof {
                    assert(m.skip(i as int)[0] == m[i as int]);
                    assert(m.skip(i as int).skip(1) =~= m.skip(i + 1));
                }
                match add_values(&acc, &items[i]) {
                    Ok(next) => {
                        acc = next;
                    },
                    Err(e) => {
                        return Err(e);
                    },
                }
                i += 1;
            }
            only_value(acc)
        },
        other => only_value(other.clone()),
    }
}

/// The name of a value's type.
fn type_text(input: &Value) -> (r: &'static str)
    ensures
        r@ == type_word(input@),
{
    match input {
        Value::Null => "null",
        Value::Bool(_) => "boolean",
        Value::Number(_) => "number",
        Value::String(_) => "string",
        Value::Array(_) => "array",
        Value::Object(_) => "object",
    }
}

/// Changes the case of a string.
fn call_case(input: &Value, down: bool) -> (r: Result<Vec<Value>, ExpressionError>)
    ensures
        streamed(r) == f_case(input@, down),
{
    match input {
        Value::String(s) => only_value(
            Value::String(
                if down {
                    ascii_lower(s.as_str())
                } else {
                    ascii_upper(s.as_str())
                },
            ),
        ),
        _ => Err(ExpressionError::type_error("expects a string")),
    }
}

/// The input if it passes, otherwise nothing.
fn keep(input: &Value, pass: bool) -> (r: Result<Vec<Value>, ExpressionError>)
    ensures
        streamed(r) == kept(input@, pass),
{
    if pass {
        only_value(input.clone())
    } else {
        Ok(Vec::new())
    }
}

/// Calls a function that looks at the input alone.
#[verifier::rlimit(40)]
fn call_plain(name: &str, input: &Value) -> (r: Option<Result<Vec<Value>, ExpressionError>>)
    ensures
        match r {
            Some(s) => plain_call(name@, input@) == Some(streamed(s)),
            None => plain_call(name@, input@) is None,
        },
{
    if text_eq(name, "length") {
        Some(call_length(input))
    } else if text_eq(name, "keys") {
        Some(call_keys(input))
    } else if text_eq(name, "tostring") {
        Some(only_value(Value::String(to_string(input))))
    } else if text_eq(name, "tonumber") {
        Some(call_tonumber(input))
    } else if text_eq(name, "empty") {
        Some(Ok(Vec::new()))
    } else if text_eq(name, "first") {
        Some(
            match input {
                Value::Array(items) => only_value(first_value(items)),
                other => only_value(other.clone()),
            },
        )
    } else if text_eq(name, "last") {
        Some(
            match input {
                Value::Array(items) => only_value(last_value(items)),
                other => only_value(other.clone()),
            },
        )
    } else if text_eq(name, "flatten") {
        let mut out: Vec<Value> = Vec::new();
        flatten_into(input, &mut out);
        assert(Seq::<Json>::empty() + leaves(input@) =~= leaves(input@));
        Some(only_value(Value::Array(out)))
    } else if text_eq(name, "add") {
        Some(call_add(input))
    } else if text_eq(name, "type") {
        Some(only_value(Value::text(type_text(input))))
    } else if text_eq(name, "not") {
        Some(only_value(Value::Bool(!truthy(input))))
    } else if text_eq(name, "ascii_downcase") {
        Some(call_case(input, true))
    } else if text_eq(name, "ascii_upcase") {
        Some(call_case(input, false))
    } else if text_eq(name, "fabs") {
        Some(
            match input {
                Value::Number(n) => only_value(json_num(absolute(n.as_double()))),
                other => Err(value_error("fabs of `", other)),
            },
        )
    } else if text_eq(name, "floor") {
        Some(
            match input {
                Value::Number(n) => only_value(json_num(floor(n.as_double()))),
                other => Err(value_error("floor of `", other)),
            },
        )
    } else if text_eq(name, "values") {
        Some(keep(input, !input.is_null()))
    } else if text_eq(name, "arrays") {
        Some(keep(input, matches!(input, Value::Array(_))))
    } else if text_eq(name, "objects") {
        Some(keep(input, matches!(input, Value::Object(_))))
    } else if text_eq(name, "strings") {
        Some(keep(input, matches!(input, Value::String(_))))
    } else if text_eq(name, "numbers") {
        Some(keep(input, matches!(input, Value::Number(_))))
    } else if text_eq(name, "booleans") {
        Some(keep(input, matches!(input, Value::Bool(_))))
    } else if text_eq(name, "nulls") {
        Some(keep(input, input.is_null()))
    } else {
        None
    }
}

/// The text of an optional value, or the empty text.
fn argument_text(arg: &Option<Value>) -> (r: String)
    ensures
        r@ == text_or_empty(option_json(*arg)),
{
    match arg {
        Some(Value::String(s)) => s.clone(),
        _ => String::new(),
    }
}

/// An optional value, or null.
fn argument_value(arg: &Option<Value>) -> (r: Value)
    ensures
        r@ == value_or_null(option_json(*arg)),
{
    match arg {
        Some(v) => v.clone(),
        None => Value::Null,
    }
}

/// Joins the texts of items.
fn call_join(input: &Value, arg: &Option<Value>) -> (r: Result<Vec<Value>, ExpressionError>)
    ensures
        streamed(r) == f_join(input@, option_json(*arg)),
{
    match input {
        Value::Array(items) => {
            let ghost m = jsons(items@);
            let mut texts: Vec<String> = Vec::new();
            let mut i: usize = 0;
            assert(views(texts@) =~= plain_texts(m.take(0)));
            while i < items.len()
                invariant
                    i <= items.len(),
                    m == jsons(items@),
                    views(texts@) == plain_texts(m.take(i as int)),
                decreases items.len() - i,
            {
                let text = to_string(&items[i]);
                let ghost before = texts@;
                texts.push(text);
                assert(views(texts@) =~= views(before).push(text@));
                assert(plain_texts(m.take(i + 1)) =~= plain_texts(m.take(i as int)).push(
                    plain_text(m[i as int]),
                ));
                i += 1;
            }
            assert(m.take(items.len() as int) =~= m);
            let sep = argument_text(arg);
            only_value(Value::String(join(&texts, sep.as_str())))
        },
        other => Err(value_error("join expects an array, got `", other)),
    }
}

/// Decides whether a string starts or ends with another.
fn call_affix(input: &Value, arg: &Option<Value>, start: bool) -> (r: Result<
    Vec<Value>,
    ExpressionError,
>)
    ensures
        streamed(r) == f_affix(input@, option_json(*arg), start),
{
    match arg {
        Some(Value::String(needle)) => match input {
            Value::String(s) => only_value(
                Value::Bool(
                    if start {
                        starts_with(s.as_str(), needle.as_str())
                    } else {
                        ends_with(s.as_str(), needle.as_str())
                    },
                ),
            ),
            _ => Err(ExpressionError::type_error("startswith/endswith expects a string input")),
        },
        _ => Err(ExpressionError::eval("startswith/endswith requires a string")),
    }
}

/// Splits a string.
fn call_split(input: &Value, arg: &Option<Value>) -> (r: Result<Vec<Value>, ExpressionError>)
    ensures
        streamed(r) == f_split(input@, option_json(*arg)),
{
    match input {
        Value::String(s) => {
            let sep = argument_text(arg);
            let parts = split(s.as_str(), sep.as_str());
            only_value(Value::Array(string_values(parts)))
        },
        other => Err(value_error("split expects a string, got `", other)),
    }
}

/// Decides whether a value has a key or an index.
fn call_has(input: &Value, arg: &Option<Value>) -> (r: Result<Vec<Value>, ExpressionError>)
    ensures
        streamed(r) == f_has(input@, option_json(*arg)),
{
    let found = match input {
        Value::Object(o) => {
            let key = argument_text(arg);
            o.contains_key(key.as_str())
        },
        Value::Array(items) => match arg {
            Some(Value::Number(n)) => {
                let d = n.as_double();
                to_i64(d) >= 0 && to_usize(d) < items.len()
            },
            _ => false,
        },
        _ => false,
    };
    only_value(Value::Bool(found))
}

/// Cuts a prefix or a suffix.
fn call_trim(input: &Value, arg: &Option<Value>, start: bool) -> (r: Result<
    Vec<Value>,
    ExpressionError,
>)
    ensures
        streamed(r) == f_trim(input@, option_json(*arg), start),
{
    let s = match input {
        Value::String(s) => s.clone(),
        _ => String::new(),
    };
    let affix = argument_text(arg);
    let cut = if start {
        strip_prefix(s.as_str(), affix.as_str())
    } else {
        strip_suffix(s.as_str(), affix.as_str())
    };
    only_value(
        Value::String(
            match cut {
                Some(rest) => rest,
                None => s,
            },
        ),
    )
}

/// Whether a function takes an optional argument by its first value.
fn wants_argument(name: &str) -> (r: bool)
    ensures
        r == takes_argument(name@),
{
    text_eq(name, "join") || text_eq(name, "startswith") || text_eq(name, "endswith") || text_eq(
        name,
        "contains",
    ) || text_eq(name, "split") || text_eq(name, "has") || text_eq(name, "ltrimstr") || text_eq(
        name,
        "rtrimstr",
    )
}

/// Calls a function that takes an optional argument by its first value.
fn call_with_argument(name: &str, input: &Value, arg: &Option<Value>) -> (r: Result<
    Vec<Value>,
    ExpressionError,
>)
    requires
        takes_argument(name@),
    ensures
        argument_call(name@, input@, option_json(*arg)) == Some(streamed(r)),
{
    if text_eq(name, "join") {
        call_join(input, arg)
    } else if text_eq(name, "startswith") {
        call_affix(input, arg, true)
    } else if text_eq(name, "endswith") {
        call_affix(input, arg, false)
    } else if text_eq(name, "contains") {
        let needle = argument_value(arg);
        only_value(Value::Bool(contains_value(input, &needle)))
    } else if text_eq(name, "split") {
        call_split(input, arg)
    } else if text_eq(name, "has") {
        call_has(input, arg)
    } else if text_eq(name, "ltrimstr") {
        call_trim(input, arg, true)
    } else {
        call_trim(input, arg, false)
    }
}

/// The models of a list of streams.
spec fn stream_views(streams: Seq<Vec<Value>>) -> Seq<Seq<Json>> {
    streams.map_values(|s: Vec<Value>| jsons(s@))
}

/// Lists the integers of a range.
fn call_range(streams: &Vec<Vec<Value>>) -> (r: Result<Vec<Value>, ExpressionError>)
    ensures
        streamed(r) == f_range(stream_views(streams@)),
{
    let ghost m = stream_views(streams@);
    let mut bounds: Vec<i64> = Vec::new();
    let mut valid = true;
    let mut i: usize = 0;
    while i < streams.len()
        invariant
            i <= streams.len(),
            m == stream_views(streams@),
            !valid ==> bounds_of(m.take(i as int)) is None,
            valid ==> bounds_of(m.take(i as int)) == Some(
                bounds@.map_values(|b: i64| b as int),
            ),
        decreases streams.len() - i,
    {
        proof {
            let next = m.take(i + 1);
            assert(next.drop_last() =~= m.take(i as int));
            assert(next.last() == jsons(streams@[i as int]@));
        }
        let first = first_value(&streams[i]);
        match first.as_double() {
            Some(d) => {
                let ghost before = bounds@;
                bounds.push(to_i64(d));
                assert(bounds@.map_values(|b: i64| b as int) =~= before.map_values(
                    |b: i64| b as int,
                ).push(bounds@.last() as int));
            },
            None => {
                valid = false;
            },
        }
        i += 1;
    }
    assert(m.take(streams.len() as int) =~= m);
    if !valid {
        return Err(ExpressionError::eval("range requires numbers"));
    }
    if bounds.len() == 0 {
        Ok(Vec::new())
    } else if bounds.len() == 1 {
        Ok(count_values(0, bounds[0]))
    } else {
        Ok(count_values(bounds[0], bounds[1]))
    }
}

// ---------------------------------------------------------------------------
// Expressions
// ---------------------------------------------------------------------------

/// Evaluates an expression against an input value, giving a stream of outputs.
#[verifier::rlimit(40)]
pub fn eval(expr: &Expr, input: &Value, env: &Env) -> (r: Result<Vec<Value>, ExpressionError>)
    ensures
        streamed(r) == eval_tree(expr@, input@, env.variables@),
    decreases expr, 2nat,
{
    match expr {
        Expr::Identity => only_value(input.clone()),
        Expr::Literal(v) => only_value(v.clone()),
        Expr::Variable(name) => match env.variables.get(name.as_str()) {
            Some(v) => only_value(v.clone()),
            None => {
                let message = concat3("undefined variable `$", name.as_str(), "`");
                Err(ExpressionError::TypeError { message })
            },
        },
        Expr::Str(parts) => eval_string(parts, input, env),
        Expr::Field(base, name) => match eval(base, input, env) {
            Ok(items) => Ok(field_values(&items, name.as_str())),
            Err(e) => Err(e),
        },
        Expr::Index(base, index) => match eval(base, input, env) {
            Ok(ls) => match eval(index, input, env) {
                Ok(rs) => cross_values(Pairing::Select, &ls, &rs),
                Err(e) => Err(e),
            },
            Err(e) => Err(e),
        },
        Expr::Iterate(base) => match eval(base, input, env) {
            Ok(items) => Ok(iterate_values(&items)),
            Err(e) => Err(e),
        },
        Expr::Binary(op, l, r) => eval_binary(*op, l, r, input, env),
        Expr::Unary(op, inner) => match eval(inner, input, env) {
            Ok(items) => unary_values(*op, &items),
            Err(e) => Err(e),
        },
        Expr::Pipe(l, r) => match eval(l, input, env) {
            Ok(items) => eval_inputs(r, &items, env),
            Err(e) => Err(e),
        },
        Expr::Array(items) => match eval_list(items, input, env) {
            Ok(out) => only_value(Value::Array(out)),
            Err(e) => Err(e),
        },
        Expr::Object(entries) => eval_object(entries, input, env),
        Expr::If(c, t, f) => match eval(c, input, env) {
            Ok(items) => {
                let cond = first_value(&items);
                if truthy(&cond) {
                    eval(t, input, env)
                } else {
                    eval(f, input, env)
                }
            },
            Err(e) => Err(e),
        },
        Expr::Call(name, args) => call_function(name.as_str(), args, input, env),
        Expr::Stream(items) => eval_list(items, input, env),
    }
}

/// Evaluates a binary operation. `and`, `or` and `//` evaluate the right side
/// only where it decides.
fn eval_binary(op: BinOp, l: &Box<Expr>, r: &Box<Expr>, input: &Value, env: &Env) -> (out: Result<
    Vec<Value>,
    ExpressionError,
>)
    ensures
        streamed(out) == eval_tree(Expr::Binary(op, *l, *r)@, input@, env.variables@),
    decreases Expr::Binary(op, *l, *r), 1nat,
{
    let ls = match eval(l, input, env) {
        Ok(items) => items,
        Err(e) => {
            return Err(e);
        },
    };
    let last = last_value(&ls);
    let left = truthy(&last);
    match op {
        BinOp::And => if !left {
            return only_value(Value::Bool(false));
        },
        BinOp::Or => if left {
            return only_value(Value::Bool(true));
        },
        BinOp::Alternative => if left {
            return Ok(ls);
        },
        _ => {},
    }
    let rs = match eval(r, input, env) {
        Ok(items) => items,
        Err(e) => {
            return Err(e);
        },
    };
    match op {
        BinOp::And | BinOp::Or => {
            let right = last_value(&rs);
            only_value(Value::Bool(truthy(&right)))
        },
        BinOp::Alternative => Ok(rs),
        _ => cross_values(Pairing::Apply(op), &ls, &rs),
    }
}

/// Evaluates an expression on each of some inputs.
fn eval_inputs(expr: &Expr, inputs: &Vec<Value>, env: &Env) -> (r: Result<
    Vec<Value>,
    ExpressionError,
>)
    ensures
        streamed(r) == eval_each(expr@, jsons(inputs@), env.variables@),
    decreases expr, 3nat,
{
    let ghost m = jsons(inputs@);
    let ghost vars = env.variables@;
    let mut out: Vec<Value> = Vec::new();
    let mut i: usize = 0;
    proof {
        assert(m.skip(0) =~= m);
        lemma_prefixed_nothing(eval_each(expr@, m, vars));
    }
    while i < inputs.len()
        invariant
            i <= inputs.len(),
            m == jsons(inputs@),
            vars == env.variables@,
            eval_each(expr@, m, vars) == prefixed(
                jsons(out@),
                eval_each(expr@, m.skip(i as int), vars),
            ),
        decreases inputs.len() - i,
    {
        proof {
            assert(m.skip(i as int)[0] == m[i as int]);
            assert(m.skip(i as int).skip(1) =~= m.skip(i + 1));
        }
        match eval(expr, &inputs[i], env) {
            Ok(items) => {
                proof {
                    lemma_prefixed(
                        jsons(out@),
                        jsons(items@),
                        eval_each(expr@, m.skip(i + 1), vars),
                    );
                }
                append_values(&mut out, &items);
            },
            Err(e) => {
                return Err(e);
            },
        }
        i += 1;
    }
    proof {
        assert(m.skip(i as int) =~= Seq::empty());
        assert(jsons(out@) + Seq::<Json>::empty() =~= jsons(out@));
    }
    Ok(out)
}

/// Evaluates some expressions on one input.
fn eval_list(items: &Vec<Expr>, input: &Value, env: &Env) -> (r: Result<
    Vec<Value>,
    ExpressionError,
>)
    ensures
        streamed(r) == eval_all(trees(items@), input@, env.variables@),
    decreases items, 0nat,
{
    let ghost m = trees(items@);
    let ghost vars = env.variables@;
    let mut out: Vec<Value> = Vec::new();
    let mut i: usize = 0;
    proof {
        assert(m.skip(0) =~= m);
        lemma_prefixed_nothing(eval_all(m, input@, vars));
    }
    while i < items.len()
        invariant
            i <= items.len(),
            m == trees(items@),
            vars == env.variables@,
            eval_all(m, input@, vars) == prefixed(
                jsons(out@),
                eval_all(m.skip(i as int), input@, vars),
            ),
        decreases items.len() - i,
    {
        proof {
            assert(m.skip(i as int)[0] == items@[i as int]@);
            assert(m.skip(i as int).skip(1) =~= m.skip(i + 1));
        }
        match eval(&items[i], input, env) {
            Ok(found) => {
                proof {
                    lemma_prefixed(
                        jsons(out@),
                        jsons(found@),
                        eval_all(m.skip(i + 1), input@, vars),
                    );
                }
                append_values(&mut out, &found);
            },
            Err(e) => {
                return Err(e);
            },
        }
        i += 1;
    }
    proof {
        assert(m.skip(i as int) =~= Seq::empty());
        assert(jsons(out@) + Seq::<Json>::empty() =~= jsons(out@));
    }
    Ok(out)
}

/// The text of one part of a string.
fn eval_segment(part: &InterpPart, input: &Value, env: &Env) -> (r: Result<
    String,
    ExpressionError,
>)
    ensures
        match r {
            Ok(s) => eval_part(part@, input@, env.variables@) == Ok::<_, Failure>(s@),
            Err(e) => eval_part(part@, input@, env.variables@) == Err::<Seq<char>, _>(e@),
        },
    decreases part, 0nat,
{
    match part {
        InterpPart::Literal(s) => Ok(s.clone()),
        InterpPart::Expr(e) => match eval(e, input, env) {
            Ok(items) => {
                let last = last_value(&items);
                Ok(to_string(&last))
            },
            Err(e) => Err(e),
        },
    }
}

/// Evaluates a string with interpolation.
fn eval_string(parts: &Vec<InterpPart>, input: &Value, env: &Env) -> (r: Result<
    Vec<Value>,
    ExpressionError,
>)
    ensures
        streamed(r) == (match eval_parts(part_trees(parts@), input@, env.variables@) {
            Ok(s) => only(Json::String(s)),
            Err(e) => Err(e),
        }),
    decreases parts, 0nat,
{
    let ghost m = part_trees(parts@);
    let ghost vars = env.variables@;
    let ghost total = eval_parts(m, input@, vars);
    let mut out = String::new();
    let mut i: usize = 0;
    proof {
        assert(m.skip(0) =~= m);
        match total {
            Ok(s) => assert(Seq::<char>::empty() + s =~= s),
            Err(_) => {},
        }
    }
    while i < parts.len()
        invariant
            i <= parts.len(),
            m == part_trees(parts@),
            vars == env.variables@,
            total == eval_parts(m, input@, vars),
            total == (match eval_parts(m.skip(i as int), input@, vars) {
                Ok(rest) => Ok::<Seq<char>, Failure>(out@ + rest),
                Err(e) => Err(e),
            }),
        decreases parts.len() - i,
    {
        let ghost before = out@;
        proof {
            assert(m.skip(i as int)[0] == parts@[i as int]@);
            assert(m.skip(i as int).skip(1) =~= m.skip(i + 1));
        }
        match eval_segment(&parts[i], input, env) {
            Ok(s) => {
                out.append(s.as_str());
                proof {
                    match eval_parts(m.skip(i + 1), input@, vars) {
                        Ok(rest) => assert(before + (s@ + rest) =~= (before + s@) + rest),
                        Err(_) => {},
                    }
                }
            },
            Err(e) => {
                return Err(e);
            },
        }
        i += 1;
    }
    proof {
        assert(m.skip(i as int) =~= Seq::empty());
        assert(out@ + Seq::<char>::empty() =~= out@);
    }
    only_value(Value::String(out))
}

/// The text of a key of an object constructor.
fn eval_object_key(key: &ObjKey, input: &Value, env: &Env) -> (r: Result<String, ExpressionError>)
    ensures
        match r {
            Ok(s) => eval_key(key@, input@, env.variables@) == Ok::<_, Failure>(s@),
            Err(e) => eval_key(key@, input@, env.variables@) == Err::<Seq<char>, _>(e@),
        },
    decreases key, 0nat,
{
    match key {
        ObjKey::Ident(s) => Ok(s.clone()),
        ObjKey::Str(s) => Ok(s.clone()),
        ObjKey::Computed(e) => match eval(e, input, env) {
            Ok(items) => {
                let last = last_value(&items);
                Ok(to_string(&last))
            },
            Err(e) => Err(e),
        },
    }
}

/// Evaluates an object constructor: every choice of values gives an object.
fn eval_object(entries: &Vec<(ObjKey, Expr)>, input: &Value, env: &Env) -> (r: Result<
    Vec<Value>,
    ExpressionError,
>)
    ensures
        streamed(r) == (match eval_entries(entry_trees(entries@), input@, env.variables@) {
            Ok(es) => Ok(object_values(objects_of(es))),
            Err(e) => Err(e),
        }),
    decreases entries, 0nat,
{
    let ghost m = entry_trees(entries@);
    let ghost vars = env.variables@;
    let ghost total = eval_entries(m, input@, vars);
    let mut evaluated: Vec<(String, Vec<Value>)> = Vec::new();
    let mut i: usize = 0;
    proof {
        assert(m.skip(0) =~= m);
        assert(entry_views(evaluated@) =~= Seq::empty());
        match total {
            Ok(es) => assert(Seq::<(Seq<char>, Seq<Json>)>::empty() + es =~= es),
            Err(_) => {},
        }
    }
    while i < entries.len()
        invariant
            i <= entries.len(),
            m == entry_trees(entries@),
            vars == env.variables@,
            total == eval_entries(m, input@, vars),
            total == (match eval_entries(m.skip(i as int), input@, vars) {
                Ok(rest) => Ok::<Seq<(Seq<char>, Seq<Json>)>, Failure>(
                    entry_views(evaluated@) + rest,
                ),
                Err(e) => Err(e),
            }),
        decreases entries.len() - i,
    {
        proof {
            assert(m.skip(i as int)[0] == (entries@[i as int].0@, entries@[i as int].1@));
            assert(m.skip(i as int).skip(1) =~= m.skip(i + 1));
        }
        let key = match eval_object_key(&entries[i].0, input, env) {
            Ok(key) => key,
            Err(e) => {
                return Err(e);
            },
        };
        let values = match eval(&entries[i].1, input, env) {
            Ok(values) => values,
            Err(e) => {
                return Err(e);
            },
        };
        let ghost before = entry_views(evaluated@);
        let ghost entry = (key@, jsons(values@));
        evaluated.push((key, values));
        proof {
            assert(entry_views(evaluated@) =~= before.push(entry));
            match eval_entries(m.skip(i + 1), input@, vars) {
                Ok(rest) => assert(before + (seq![entry] + rest) =~= before.push(entry) + rest),
                Err(_) => {},
            }
        }
        i += 1;
    }
    proof {
        assert(m.skip(i as int) =~= Seq::empty());
        assert(entry_views(evaluated@) + Seq::<(Seq<char>, Seq<Json>)>::empty() =~= entry_views(
            evaluated@,
        ));
    }
    Ok(build_objects(&evaluated))
}

/// Evaluates each argument.
fn eval_arguments(args: &Vec<Expr>, input: &Value, env: &Env) -> (r: Result<
    Vec<Vec<Value>>,
    ExpressionError,
>)
    ensures
        match r {
            Ok(streams) => eval_streams(trees(args@), input@, env.variables@) == Ok::<_, Failure>(
                stream_views(streams@),
            ),
            Err(e) => eval_streams(trees(args@), input@, env.variables@) == Err::<
                Seq<Seq<Json>>,
                _,
            >(e@),
        },
    decreases args, 0nat,
{
    let ghost m = trees(args@);
    let ghost vars = env.variables@;
    let ghost total = eval_streams(m, input@, vars);
    let mut streams: Vec<Vec<Value>> = Vec::new();
    let mut i: usize = 0;
    proof {
        assert(m.skip(0) =~= m);
        assert(stream_views(streams@) =~= Seq::empty());
        match total {
            Ok(s) => assert(Seq::<Seq<Json>>::empty() + s =~= s),
            Err(_) => {},
        }
    }
    while i < args.len()
        invariant
            i <= args.len(),
            m == trees(args@),
            vars == env.variables@,
            total == eval_streams(m, input@, vars),
            total == (match eval_streams(m.skip(i as int), input@, vars) {
                Ok(rest) => Ok::<Seq<Seq<Json>>, Failure>(stream_views(streams@) + rest),
                Err(e) => Err(e),
            }),
        decreases args.len() - i,
    {
        proof {
            assert(m.skip(i as int)[0] == args@[i as int]@);
            assert(m.skip(i as int).skip(1) =~= m.skip(i + 1));
        }
        match eval(&args[i], input, env) {
            Ok(items) => {
                let ghost before = stream_views(streams@);
                let ghost found = jsons(items@);
                streams.push(items);
                proof {
                    assert(stream_views(streams@) =~= before.push(found));
                    match eval_streams(m.skip(i + 1), input@, vars) {
                        Ok(rest) => assert(before + (seq![found] + rest) =~= before.push(found)
                            + rest),
                        Err(_) => {},
                    }
                }
            },
            Err(e) => {
                return Err(e);
            },
        }
        i += 1;
    }
    proof {
        assert(m.skip(i as int) =~= Seq::empty());
        assert(stream_views(streams@) + Seq::<Seq<Json>>::empty() =~= stream_views(streams@));
    }
    Ok(streams)
}

/// The first value of the first argument.
fn eval_first_argument(args: &Vec<Expr>, input: &Value, env: &Env) -> (r: Result<
    Option<Value>,
    ExpressionError,
>)
    ensures
        match r {
            Ok(v) => eval_argument(trees(args@), input@, env.variables@) == Ok::<_, Failure>(
                option_json(v),
            ),
            Err(e) => eval_argument(trees(args@), input@, env.variables@) == Err::<
                Option<Json>,
                _,
            >(e@),
        },
    decreases args, 0nat,
{
    if args.len() == 0 {
        return Ok(None);
    }
    assert(trees(args@)[0] == args@[0]@);
    match eval(&args[0], input, env) {
        Ok(items) => if items.len() == 0 {
            Ok(None)
        } else {
            Ok(Some(items[0].clone()))
        },
        Err(e) => Err(e),
    }
}

/// Calls a function.
#[verifier::rlimit(40)]
fn call_function(name: &str, args: &Vec<Expr>, input: &Value, env: &Env) -> (r: Result<
    Vec<Value>,
    ExpressionError,
>)
    ensures
        streamed(r) == eval_call(name@, trees(args@), input@, env.variables@),
    decreases args, 1nat,
{
    match call_plain(name, input) {
        Some(s) => {
            return s;
        },
        None => {},
    }
    if wants_argument(name) {
        return match eval_first_argument(args, input, env) {
            Ok(arg) => call_with_argument(name, input, &arg),
            Err(e) => Err(e),
        };
    }
    if text_eq(name, "map") {
        if args.len() == 0 {
            return Err(ExpressionError::eval("map requires a filter"));
        }
        assert(trees(args@)[0] == args@[0]@);
        return match input {
            Value::Array(items) => match eval_inputs(&args[0], items, env) {
                Ok(out) => only_value(Value::Array(out)),
                Err(e) => Err(e),
            },
            other => Err(value_error("map expects an array, got `", other)),
        };
    }
    if text_eq(name, "select") {
        if args.len() == 0 {
            return Err(ExpressionError::eval("select requires a filter"));
        }
        assert(trees(args@)[0] == args@[0]@);
        return match eval(&args[0], input, env) {
            Ok(items) => {
                let cond = first_value(&items);
                keep(input, truthy(&cond))
            },
            Err(e) => Err(e),
        };
    }
    if text_eq(name, "range") {
        return match eval_arguments(args, input, env) {
            Ok(streams) => call_range(&streams),
            Err(e) => Err(e),
        };
    }
    if text_eq(name, "error") {
        if args.len() == 0 {
            let message = to_string(input);
            return Err(ExpressionError::Eval { message });
        }
        assert(trees(args@)[0] == args@[0]@);
        return match eval(&args[0], input, env) {
            Ok(items) => {
                let first = first_value(&items);
                let message = to_string(&first);
                Err(ExpressionError::Eval { message })
            },
            Err(e) => Err(e),
        };
    }
    Err(ExpressionError::UnsupportedFunction { name: name.to_owned() })
}

/// The last value that an expression gives on an input, or null.
#[verifier::opaque]
pub open spec fn eval_last(t: Tree, input: Json, env: Members) -> Outcome {
    match eval_tree(t, input, env) {
        Ok(s) => Ok(last_or_null(s)),
        Err(e) => Err(e),
    }
}

/// Evaluates an expression to its last value.
pub fn eval_single(expr: &Expr, input: &Value, env: &Env) -> (r: Result<Value, ExpressionError>)
    ensures
        outcome(r) == eval_last(expr@, input@, env.variables@),
{
    reveal(eval_last);
    match eval(expr, input, env) {
        Ok(items) => Ok(last_value(&items)),
        Err(e) => Err(e),
    }
}

} // verus!
