//! Evaluation keeps values in canonical form.
use crate::double::{
    abs_nat, difference, floored, from_int, is_safe_integer, lemma_safe_integer, magnitude,
    opposite, product, quotient, remainder, signed, sum, truncated,
};
use crate::expressions::ast::{BinOp, Key, Part, Tree, UnaryOp};
use crate::expressions::engine::{evaluated, filled, plan_of, single_block};
use crate::expressions::eval::{
    Operation, Stream, all_children, argument_call, bounds_of, children, counts, cross, eval_all,
    eval_argument, eval_call, eval_each, eval_entries, eval_key, eval_last, eval_streams,
    eval_tree, f_add, f_fabs, f_first, f_floor, f_keys, f_last, f_length, f_range, f_tonumber,
    grown, object_values, objects_of, operation, or_null, plain_call, row, selection,
    takes_argument, text_or_empty, total_from, unary_each, unary_of, with_each,
};
use crate::expressions::lexer::{Lexeme, Token, tokens_of};
use crate::expressions::operators::{
    Outcome, all_leaves, applied, field_of, index_of, int_remainder, items_without, leaves,
    member_of, sum_of, text_items,
};
use crate::expressions::parser::{
    Parsed, at, field_name, is_keyword, joined_trees, joint, p_after, p_args, p_array, p_base,
    p_branch, p_chain, p_chain_rest, p_else, p_expr, p_expr_rest, p_if, p_index, p_interp, p_key,
    p_name, p_object, p_postfix, p_string, p_tail, p_unary, parse_tree, spliced,
};
use crate::json::{Json, Members};
use crate::number::parsed_double;
use crate::text::{split_parts, text_less, trimmed};
use crate::value::{
    double_json, inserted, int_number, is_canonical, json_as_double, lemma_inserted_sorted,
    lookup, member, merged, number_double, number_int,
};
use vstd::prelude::*;

verus! {

/// Whether every value of a list is in canonical form.
pub open spec fn all_canonical(s: Seq<Json>) -> bool {
    forall|i: int| 0 <= i < s.len() ==> is_canonical(#[trigger] s[i])
}

/// Whether a stream, if there is no failure, holds values in canonical form.
pub open spec fn canonical_stream(r: Stream) -> bool {
    match r {
        Ok(s) => all_canonical(s),
        Err(_) => true,
    }
}

/// Whether a value, if there is no failure, is in canonical form.
pub open spec fn canonical_outcome(r: Outcome) -> bool {
    match r {
        Ok(v) => is_canonical(v),
        Err(_) => true,
    }
}

/// Whether the values of members are in canonical form.
pub open spec fn canonical_members(m: Members) -> bool {
    forall|i: int| 0 <= i < m.len() ==> is_canonical((#[trigger] m[i]).1)
}

// ---------------------------------------------------------------------------
// Values
// ---------------------------------------------------------------------------

/// The number of an integer of 64 bits is in canonical form.
proof fn lemma_int_canonical(n: int)
    requires
        i64::MIN <= n <= u64::MAX,
    ensures
        is_canonical(Json::Number(int_number(n))),
{
}

/// The value of a double is in canonical form.
proof fn lemma_double_canonical(bits: u64)
    ensures
        is_canonical(double_json(bits)),
{
    if is_safe_integer(bits) {
        lemma_safe_integer(bits);
        lemma_int_canonical(truncated(bits, i64::MIN as int, i64::MAX as int));
    }
}

/// The members after one was set have canonical values.
proof fn lemma_inserted_canonical(m: Members, key: Seq<char>, v: Json)
    requires
        canonical_members(m),
        is_canonical(v),
    ensures
        canonical_members(inserted(m, key, v)),
    decreases m.len(),
{
    let out = inserted(m, key, v);
    if m.len() == 0 {
    } else if m[0].0 == key {
    } else if text_less(key, m[0].0) {
        assert forall|i: int| 0 <= i < out.len() implies is_canonical((#[trigger] out[i]).1) by {
            if i > 0 {
                assert(out[i] == m[i - 1]);
            }
        }
    } else {
        let rest = m.skip(1);
        assert forall|i: int| 0 <= i < rest.len() implies is_canonical((#[trigger] rest[i]).1) by {
            assert(rest[i] == m[i + 1]);
        }
        lemma_inserted_canonical(rest, key, v);
        let tail = inserted(rest, key, v);
        assert forall|i: int| 0 <= i < out.len() implies is_canonical((#[trigger] out[i]).1) by {
            if i == 0 {
                assert(out[0] == m[0]);
            } else {
                assert(out[i] == tail[i - 1]);
            }
        }
    }
}

/// Setting a member keeps an object in canonical form.
pub proof fn lemma_insert_canonical(m: Members, key: Seq<char>, v: Json)
    requires
        is_canonical(Json::Object(m)),
        is_canonical(v),
    ensures
        is_canonical(Json::Object(inserted(m, key, v))),
{
    lemma_inserted_canonical(m, key, v);
    lemma_inserted_sorted(m, key, v);
}

/// Merging keeps an object in canonical form.
proof fn lemma_merged_canonical(m: Members, more: Members)
    requires
        is_canonical(Json::Object(m)),
        canonical_members(more),
    ensures
        is_canonical(Json::Object(merged(m, more))),
    decreases more.len(),
{
    if more.len() > 0 {
        let head = more.drop_last();
        assert forall|i: int| 0 <= i < head.len() implies is_canonical((#[trigger] head[i]).1) by {
            assert(head[i] == more[i]);
        }
        lemma_merged_canonical(m, head);
        assert(more[more.len() - 1] == more.last());
        lemma_insert_canonical(merged(m, head), more.last().0, more.last().1);
    }
}

/// A member of an object in canonical form is in canonical form.
proof fn lemma_lookup_canonical(m: Members, key: Seq<char>)
    requires
        canonical_members(m),
    ensures
        is_canonical(member(m, key)),
        lookup(m, key) matches Some(v) ==> is_canonical(v),
    decreases m.len(),
{
    if m.len() > 0 {
        assert(is_canonical(m[0].1));
        let rest = m.skip(1);
        assert forall|i: int| 0 <= i < rest.len() implies is_canonical((#[trigger] rest[i]).1) by {
            assert(rest[i] == m[i + 1]);
        }
        lemma_lookup_canonical(rest, key);
    }
}

/// Canonical values one after the other.
proof fn lemma_concat_canonical(x: Seq<Json>, y: Seq<Json>)
    requires
        all_canonical(x),
        all_canonical(y),
    ensures
        all_canonical(x + y),
{
    let out = x + y;
    assert forall|i: int| 0 <= i < out.len() implies is_canonical(#[trigger] out[i]) by {
        if i < x.len() {
            assert(out[i] == x[i]);
        } else {
            assert(out[i] == y[i - x.len()]);
        }
    }
}

/// The rest of canonical values.
proof fn lemma_skip_canonical(s: Seq<Json>)
    requires
        all_canonical(s),
        s.len() > 0,
    ensures
        all_canonical(s.skip(1)),
        all_canonical(s.drop_last()),
        is_canonical(s[0]),
        is_canonical(s.last()),
{
    let rest = s.skip(1);
    assert forall|i: int| 0 <= i < rest.len() implies is_canonical(#[trigger] rest[i]) by {
        assert(rest[i] == s[i + 1]);
    }
    let head = s.drop_last();
    assert forall|i: int| 0 <= i < head.len() implies is_canonical(#[trigger] head[i]) by {
        assert(head[i] == s[i]);
    }
    assert(s[s.len() - 1] == s.last());
}

// ---------------------------------------------------------------------------
// Operators
// ---------------------------------------------------------------------------

/// Addition gives a canonical value.
proof fn lemma_sum_canonical(a: Json, b: Json)
    requires
        is_canonical(a),
        is_canonical(b),
    ensures
        canonical_outcome(sum_of(a, b)),
{
    match (a, b) {
        (Json::Null, _) => {},
        (_, Json::Null) => {},
        (Json::Number(x), Json::Number(y)) => {
            lemma_double_canonical(sum(number_double(x), number_double(y)));
        },
        (Json::Array(x), Json::Array(y)) => lemma_concat_canonical(x, y),
        (Json::Object(x), Json::Object(y)) => lemma_merged_canonical(x, y),
        _ => {},
    }
}

/// The items that are left by subtraction are canonical.
proof fn lemma_without_canonical(x: Seq<Json>, y: Seq<Json>)
    requires
        all_canonical(x),
    ensures
        all_canonical(items_without(x, y)),
    decreases x.len(),
{
    if x.len() > 0 {
        lemma_skip_canonical(x);
        lemma_without_canonical(x.drop_last(), y);
    }
}

/// Texts are canonical values.
proof fn lemma_texts_canonical(parts: Seq<Seq<char>>)
    ensures
        is_canonical(Json::Array(text_items(parts))),
{
    let items = text_items(parts);
    assert forall|i: int| 0 <= i < items.len() implies is_canonical(#[trigger] items[i]) by {
        assert(items[i] == Json::String(parts[i]));
    }
}

/// An operator gives a canonical value.
proof fn lemma_applied_canonical(op: BinOp, a: Json, b: Json)
    requires
        is_canonical(a),
        is_canonical(b),
    ensures
        canonical_outcome(applied(op, a, b)),
{
    match op {
        BinOp::Add => lemma_sum_canonical(a, b),
        BinOp::Sub => match (a, b) {
            (Json::Number(x), Json::Number(y)) => {
                lemma_double_canonical(difference(number_double(x), number_double(y)));
            },
            (Json::Array(x), Json::Array(y)) => lemma_without_canonical(x, y),
            _ => {},
        },
        BinOp::Mul => match (a, b) {
            (Json::Number(x), Json::Number(y)) => {
                lemma_double_canonical(product(number_double(x), number_double(y)));
            },
            _ => {},
        },
        BinOp::Div => match (a, b) {
            (Json::Number(x), Json::Number(y)) => {
                lemma_double_canonical(quotient(number_double(x), number_double(y)));
            },
            (Json::String(x), Json::String(y)) => {
                lemma_texts_canonical(split_parts(x, y));
            },
            _ => {},
        },
        BinOp::Mod => match (a, b) {
            (Json::Number(x), Json::Number(y)) => {
                lemma_double_canonical(remainder(number_double(x), number_double(y)));
                match (number_int(x), number_int(y)) {
                    (Some(m), Some(n)) => if n != 0 {
                        let r = abs_nat(m as int) % abs_nat(n as int);
                        assert(r <= abs_nat(m as int)) by (nonlinear_arith)
                            requires
                                r == abs_nat(m as int) % abs_nat(n as int),
                                abs_nat(n as int) > 0,
                        ;
                        lemma_int_canonical(int_remainder(m as int, n as int));
                    },
                    _ => {},
                }
            },
            _ => {},
        },
        _ => {},
    }
}

/// Selection gives a canonical value.
proof fn lemma_index_canonical(a: Json, b: Json)
    requires
        is_canonical(a),
    ensures
        canonical_outcome(index_of(a, b)),
{
    match (a, b) {
        (Json::Object(m), Json::String(s)) => lemma_lookup_canonical(m, s),
        _ => {},
    }
}

/// A field of a canonical value is canonical.
proof fn lemma_field_canonical(j: Json, name: Seq<char>)
    requires
        is_canonical(j),
    ensures
        is_canonical(field_of(j, name)),
{
    match j {
        Json::Object(m) => lemma_lookup_canonical(m, name),
        Json::Array(items) => {
            let out = items.map_values(|i: Json| member_of(i, name));
            assert forall|i: int| 0 <= i < out.len() implies is_canonical(#[trigger] out[i]) by {
                assert(is_canonical(items[i]));
                match items[i] {
                    Json::Object(m) => lemma_lookup_canonical(m, name),
                    _ => {},
                }
            }
        },
        _ => {},
    }
}

/// Whether an operation gives canonical values for canonical ones.
pub open spec fn keeps_canonical(f: Operation) -> bool {
    forall|a: Json, b: Json|
        is_canonical(a) && is_canonical(b) ==> canonical_outcome(#[trigger] f(a, b))
}

/// A value combined with each of a stream gives canonical values.
proof fn lemma_row_canonical(f: Operation, a: Json, rs: Seq<Json>)
    requires
        keeps_canonical(f),
        is_canonical(a),
        all_canonical(rs),
    ensures
        canonical_stream(row(f, a, rs)),
    decreases rs.len(),
{
    if rs.len() > 0 {
        lemma_skip_canonical(rs);
        lemma_row_canonical(f, a, rs.skip(1));
        match (f(a, rs[0]), row(f, a, rs.skip(1))) {
            (Ok(v), Ok(rest)) => lemma_concat_canonical(seq![v], rest),
            _ => {},
        }
    }
}

/// Each value of a stream combined with each of another gives canonical values.
proof fn lemma_cross_canonical(f: Operation, ls: Seq<Json>, rs: Seq<Json>)
    requires
        keeps_canonical(f),
        all_canonical(ls),
        all_canonical(rs),
    ensures
        canonical_stream(cross(f, ls, rs)),
    decreases ls.len(),
{
    if ls.len() > 0 {
        lemma_skip_canonical(ls);
        lemma_row_canonical(f, ls[0], rs);
        lemma_cross_canonical(f, ls.skip(1), rs);
        match (row(f, ls[0], rs), cross(f, ls.skip(1), rs)) {
            (Ok(first), Ok(rest)) => lemma_concat_canonical(first, rest),
            _ => {},
        }
    }
}

/// The binary operators and selection give canonical values.
proof fn lemma_operations_canonical(op: BinOp)
    ensures
        keeps_canonical(operation(op)),
        keeps_canonical(selection()),
{
    let f = operation(op);
    assert forall|a: Json, b: Json| is_canonical(a) && is_canonical(b) implies canonical_outcome(
        #[trigger] f(a, b),
    ) by {
        lemma_applied_canonical(op, a, b);
    }
    let g = selection();
    assert forall|a: Json, b: Json| is_canonical(a) && is_canonical(b) implies canonical_outcome(
        #[trigger] g(a, b),
    ) by {
        lemma_index_canonical(a, b);
    }
}

/// A unary operator gives canonical values.
proof fn lemma_unary_canonical(op: UnaryOp, s: Seq<Json>)
    ensures
        canonical_stream(unary_each(op, s)),
    decreases s.len(),
{
    if s.len() > 0 {
        lemma_unary_canonical(op, s.skip(1));
        match (unary_of(op, s[0]), unary_each(op, s.skip(1))) {
            (Ok(v), Ok(rest)) => {
                match json_as_double(s[0]) {
                    Some(n) => lemma_double_canonical(opposite(n)),
                    None => {},
                }
                lemma_concat_canonical(seq![v], rest);
            },
            _ => {},
        }
    }
}

/// Iteration gives canonical values.
proof fn lemma_children_canonical(s: Seq<Json>)
    requires
        all_canonical(s),
    ensures
        all_canonical(all_children(s)),
    decreases s.len(),
{
    if s.len() > 0 {
        lemma_skip_canonical(s);
        lemma_children_canonical(s.drop_last());
        let j = s.last();
        let c = children(j);
        assert(all_canonical(c)) by {
            match j {
                Json::Object(m) => {
                    assert forall|i: int| 0 <= i < c.len() implies is_canonical(
                        #[trigger] c[i],
                    ) by {
                        assert(is_canonical(m[i].1));
                    }
                },
                _ => {},
            }
        }
        lemma_concat_canonical(all_children(s.drop_last()), c);
    }
}

/// The leaves of nested arrays are canonical.
proof fn lemma_leaves_canonical(j: Json)
    requires
        is_canonical(j),
    ensures
        all_canonical(leaves(j)),
    decreases j, 0nat,
{
    match j {
        Json::Array(items) => lemma_all_leaves_canonical(items),
        _ => {},
    }
}

/// The leaves of canonical items are canonical.
proof fn lemma_all_leaves_canonical(items: Seq<Json>)
    requires
        all_canonical(items),
    ensures
        all_canonical(all_leaves(items)),
    decreases items, 1nat,
{
    if items.len() > 0 {
        lemma_skip_canonical(items);
        lemma_all_leaves_canonical(items.drop_last());
        lemma_leaves_canonical(items.last());
        lemma_concat_canonical(all_leaves(items.drop_last()), leaves(items.last()));
    }
}

// ---------------------------------------------------------------------------
// Objects
// ---------------------------------------------------------------------------

/// Whether all objects of a list are in canonical form.
pub open spec fn canonical_objects(objects: Seq<Members>) -> bool {
    forall|i: int| 0 <= i < objects.len() ==> is_canonical(Json::Object(#[trigger] objects[i]))
}

/// Objects extended by canonical values are canonical.
proof fn lemma_grown_canonical(objects: Seq<Members>, key: Seq<char>, values: Seq<Json>)
    requires
        canonical_objects(objects),
        all_canonical(values),
    ensures
        canonical_objects(grown(objects, key, values)),
    decreases objects.len(),
{
    if objects.len() > 0 {
        let head = objects.drop_last();
        let last = objects.last();
        assert(objects[objects.len() - 1] == last);
        assert forall|i: int| 0 <= i < head.len() implies is_canonical(
            Json::Object(#[trigger] head[i]),
        ) by {
            assert(head[i] == objects[i]);
        }
        lemma_grown_canonical(head, key, values);
        let more = with_each(last, key, values);
        assert forall|i: int| 0 <= i < more.len() implies is_canonical(
            Json::Object(#[trigger] more[i]),
        ) by {
            lemma_insert_canonical(last, key, values[i]);
        }
        let out = grown(objects, key, values);
        let first = grown(head, key, values);
        assert forall|i: int| 0 <= i < out.len() implies is_canonical(
            Json::Object(#[trigger] out[i]),
        ) by {
            if i < first.len() {
                assert(out[i] == first[i]);
            } else {
                assert(out[i] == more[i - first.len()]);
            }
        }
    }
}

/// Whether the values of entries are in canonical form.
pub open spec fn canonical_entries(entries: Seq<(Seq<char>, Seq<Json>)>) -> bool {
    forall|i: int| 0 <= i < entries.len() ==> all_canonical((#[trigger] entries[i]).1)
}

/// Constructed objects are canonical.
proof fn lemma_objects_canonical(entries: Seq<(Seq<char>, Seq<Json>)>)
    requires
        canonical_entries(entries),
    ensures
        canonical_objects(objects_of(entries)),
        all_canonical(object_values(objects_of(entries))),
    decreases entries.len(),
{
    if entries.len() > 0 {
        let head = entries.drop_last();
        assert forall|i: int| 0 <= i < head.len() implies all_canonical((#[trigger] head[i]).1) by {
            assert(head[i] == entries[i]);
        }
        lemma_objects_canonical(head);
        assert(entries[entries.len() - 1] == entries.last());
        lemma_grown_canonical(objects_of(head), entries.last().0, or_null(entries.last().1));
    }
    let objects = objects_of(entries);
    let values = object_values(objects);
    assert forall|i: int| 0 <= i < values.len() implies is_canonical(#[trigger] values[i]) by {
        assert(values[i] == Json::Object(objects[i]));
    }
}

// ---------------------------------------------------------------------------
// Evaluation
// ---------------------------------------------------------------------------

/// Whether the literals of an expression that can reach its values are in
/// canonical form.
pub open spec fn canonical_tree(t: Tree) -> bool
    decreases t,
{
    match t {
        Tree::Literal(v) => is_canonical(v),
        Tree::Field(base, _) => canonical_tree(*base),
        Tree::Iterate(base) => canonical_tree(*base),
        Tree::Unary(_, inner) => canonical_tree(*inner),
        Tree::Index(base, index) => canonical_tree(*base) && canonical_tree(*index),
        Tree::Binary(_, l, r) => canonical_tree(*l) && canonical_tree(*r),
        Tree::Pipe(l, r) => canonical_tree(*l) && canonical_tree(*r),
        Tree::If(c, t, f) => canonical_tree(*c) && canonical_tree(*t) && canonical_tree(*f),
        Tree::Array(items) => forall|i: int|
            0 <= i < items.len() ==> canonical_tree(#[trigger] items[i]),
        Tree::Stream(items) => forall|i: int|
            0 <= i < items.len() ==> canonical_tree(#[trigger] items[i]),
        Tree::Call(_, args) => forall|i: int|
            0 <= i < args.len() ==> canonical_tree(#[trigger] args[i]),
        Tree::Object(entries) => forall|i: int|
            0 <= i < entries.len() ==> canonical_tree((#[trigger] entries[i]).1),
        _ => true,
    }
}

/// Whether all expressions of a list have canonical literals.
pub open spec fn canonical_trees(items: Seq<Tree>) -> bool {
    forall|i: int| 0 <= i < items.len() ==> canonical_tree(#[trigger] items[i])
}

/// The integers of a range are canonical.
proof fn lemma_counts_canonical(a: int, b: int)
    ensures
        all_canonical(counts(a, b)),
{
    let s = counts(a, b);
    assert forall|i: int| 0 <= i < s.len() implies is_canonical(#[trigger] s[i]) by {
        lemma_double_canonical(from_int(a + i));
    }
}

/// The sum of canonical values is canonical.
proof fn lemma_total_canonical(acc: Json, items: Seq<Json>)
    requires
        is_canonical(acc),
        all_canonical(items),
    ensures
        canonical_outcome(total_from(acc, items)),
    decreases items.len(),
{
    if items.len() > 0 {
        lemma_skip_canonical(items);
        lemma_sum_canonical(acc, items[0]);
        match sum_of(acc, items[0]) {
            Ok(next) => lemma_total_canonical(next, items.skip(1)),
            Err(_) => {},
        }
    }
}

/// The length of a value is canonical.
proof fn lemma_length_canonical(input: Json)
    ensures
        canonical_stream(f_length(input)),
{
    match input {
        Json::Object(m) => lemma_double_canonical(from_int(m.len() as int)),
        Json::Array(items) => lemma_double_canonical(from_int(items.len() as int)),
        Json::String(s) => lemma_double_canonical(from_int(s.len() as int)),
        Json::Number(n) => lemma_double_canonical(
            from_int(truncated(signed(false, magnitude(number_double(n))), 0, usize::MAX as int)),
        ),
        Json::Null => lemma_double_canonical(from_int(0)),
        Json::Bool(_) => {},
    }
}

/// The keys of a value are canonical.
proof fn lemma_keys_canonical(input: Json)
    ensures
        canonical_stream(f_keys(input)),
{
    match input {
        Json::Object(m) => {
            let keys = m.map_values(|e: (Seq<char>, Json)| Json::String(e.0));
            assert forall|i: int| 0 <= i < keys.len() implies is_canonical(#[trigger] keys[i]) by {
                assert(keys[i] == Json::String(m[i].0));
            }
            assert(is_canonical(Json::Array(keys)));
        },
        Json::Array(items) => {
            lemma_counts_canonical(0, items.len() as int);
            assert(is_canonical(Json::Array(counts(0, items.len() as int))));
        },
        _ => {},
    }
}

/// A number read from a value is canonical.
proof fn lemma_tonumber_canonical(input: Json)
    ensures
        canonical_stream(f_tonumber(input)),
{
    match input {
        Json::Number(n) => lemma_double_canonical(number_double(n)),
        Json::String(s) => match parsed_double(s) {
            Some(n) => lemma_double_canonical(n),
            None => {},
        },
        Json::Bool(b) => lemma_double_canonical(
            from_int(
                if b {
                    1
                } else {
                    0
                },
            ),
        ),
        _ => {},
    }
}

/// The functions of numbers give canonical values.
proof fn lemma_rounding_canonical(input: Json)
    ensures
        canonical_stream(f_fabs(input)),
        canonical_stream(f_floor(input)),
{
    match input {
        Json::Number(n) => {
            lemma_double_canonical(signed(false, magnitude(number_double(n))));
            lemma_double_canonical(floored(number_double(n)));
        },
        _ => {},
    }
}

/// The functions of items give canonical values.
proof fn lemma_items_canonical(input: Json)
    requires
        is_canonical(input),
    ensures
        canonical_stream(f_first(input)),
        canonical_stream(f_last(input)),
        canonical_stream(f_add(input)),
        is_canonical(Json::Array(leaves(input))),
{
    lemma_leaves_canonical(input);
    match input {
        Json::Array(items) => {
            if items.len() > 0 {
                lemma_skip_canonical(items);
            }
            lemma_total_canonical(Json::Null, items);
        },
        _ => {},
    }
}

/// The functions of the input alone give canonical values.
proof fn lemma_plain_canonical(name: Seq<char>, input: Json)
    requires
        is_canonical(input),
    ensures
        plain_call(name, input) matches Some(s) ==> canonical_stream(s),
{
    lemma_length_canonical(input);
    lemma_keys_canonical(input);
    lemma_tonumber_canonical(input);
    lemma_rounding_canonical(input);
    lemma_items_canonical(input);
}

/// The functions with an argument give canonical values.
proof fn lemma_argument_canonical(name: Seq<char>, input: Json, arg: Option<Json>)
    ensures
        argument_call(name, input, arg) matches Some(s) ==> canonical_stream(s),
{
    match input {
        Json::String(s) => lemma_texts_canonical(split_parts(s, text_or_empty(arg))),
        _ => {},
    }
}

/// An expression gives canonical values on canonical inputs.
pub proof fn lemma_eval_canonical(t: Tree, input: Json, env: Members)
    requires
        canonical_tree(t),
        is_canonical(input),
        canonical_members(env),
    ensures
        canonical_stream(eval_tree(t, input, env)),
    decreases t, 0nat,
{
    match t {
        Tree::Variable(name) => lemma_lookup_canonical(env, name),
        Tree::Field(base, name) => {
            lemma_eval_canonical(*base, input, env);
            match eval_tree(*base, input, env) {
                Ok(s) => {
                    let out = s.map_values(|v: Json| field_of(v, name));
                    assert forall|i: int| 0 <= i < out.len() implies is_canonical(
                        #[trigger] out[i],
                    ) by {
                        lemma_field_canonical(s[i], name);
                    }
                },
                Err(_) => {},
            }
        },
        Tree::Index(base, index) => {
            lemma_eval_canonical(*base, input, env);
            lemma_eval_canonical(*index, input, env);
            lemma_operations_canonical(BinOp::Add);
            match (eval_tree(*base, input, env), eval_tree(*index, input, env)) {
                (Ok(ls), Ok(rs)) => lemma_cross_canonical(selection(), ls, rs),
                _ => {},
            }
        },
        Tree::Iterate(base) => {
            lemma_eval_canonical(*base, input, env);
            match eval_tree(*base, input, env) {
                Ok(s) => lemma_children_canonical(s),
                Err(_) => {},
            }
        },
        Tree::Binary(op, l, r) => {
            lemma_eval_canonical(*l, input, env);
            lemma_eval_canonical(*r, input, env);
            lemma_operations_canonical(op);
            match (eval_tree(*l, input, env), eval_tree(*r, input, env)) {
                (Ok(ls), Ok(rs)) => lemma_cross_canonical(operation(op), ls, rs),
                _ => {},
            }
        },
        Tree::Unary(op, inner) => match eval_tree(*inner, input, env) {
            Ok(s) => lemma_unary_canonical(op, s),
            Err(_) => {},
        },
        Tree::Pipe(l, r) => {
            lemma_eval_canonical(*l, input, env);
            match eval_tree(*l, input, env) {
                Ok(s) => lemma_each_canonical(*r, s, env),
                Err(_) => {},
            }
        },
        Tree::Array(items) => lemma_all_canonical(items, input, env),
        Tree::Stream(items) => lemma_all_canonical(items, input, env),
        Tree::Object(entries) => {
            lemma_entries_canonical(entries, input, env);
            match eval_entries(entries, input, env) {
                Ok(es) => lemma_objects_canonical(es),
                Err(_) => {},
            }
        },
        Tree::If(_, a, b) => {
            lemma_eval_canonical(*a, input, env);
            lemma_eval_canonical(*b, input, env);
        },
        Tree::Call(name, args) => lemma_call_canonical(name, args, input, env),
        _ => {},
    }
}

/// An expression on each of some canonical inputs gives canonical values.
proof fn lemma_each_canonical(t: Tree, inputs: Seq<Json>, env: Members)
    requires
        canonical_tree(t),
        all_canonical(inputs),
        canonical_members(env),
    ensures
        canonical_stream(eval_each(t, inputs, env)),
    decreases t, 1 + inputs.len(),
{
    if inputs.len() > 0 {
        lemma_skip_canonical(inputs);
        lemma_eval_canonical(t, inputs[0], env);
        lemma_each_canonical(t, inputs.skip(1), env);
        match (eval_tree(t, inputs[0], env), eval_each(t, inputs.skip(1), env)) {
            (Ok(s), Ok(rest)) => lemma_concat_canonical(s, rest),
            _ => {},
        }
    }
}

/// Some expressions on one canonical input give canonical values.
proof fn lemma_all_canonical(items: Seq<Tree>, input: Json, env: Members)
    requires
        canonical_trees(items),
        is_canonical(input),
        canonical_members(env),
    ensures
        canonical_stream(eval_all(items, input, env)),
    decreases items, 0nat,
{
    if items.len() > 0 {
        let rest = items.skip(1);
        assert forall|i: int| 0 <= i < rest.len() implies canonical_tree(#[trigger] rest[i]) by {
            assert(rest[i] == items[i + 1]);
        }
        lemma_eval_canonical(items[0], input, env);
        lemma_all_canonical(rest, input, env);
        match (eval_tree(items[0], input, env), eval_all(rest, input, env)) {
            (Ok(s), Ok(more)) => lemma_concat_canonical(s, more),
            _ => {},
        }
    }
}

/// The entries of an object constructor have canonical values.
proof fn lemma_entries_canonical(entries: Seq<(Key, Tree)>, input: Json, env: Members)
    requires
        forall|i: int| 0 <= i < entries.len() ==> canonical_tree((#[trigger] entries[i]).1),
        is_canonical(input),
        canonical_members(env),
    ensures
        match eval_entries(entries, input, env) {
            Ok(es) => canonical_entries(es),
            Err(_) => true,
        },
    decreases entries, 0nat,
{
    if entries.len() > 0 {
        let rest = entries.skip(1);
        assert forall|i: int| 0 <= i < rest.len() implies canonical_tree(
            (#[trigger] rest[i]).1,
        ) by {
            assert(rest[i] == entries[i + 1]);
        }
        lemma_eval_canonical(entries[0].1, input, env);
        lemma_entries_canonical(rest, input, env);
        match (
            eval_key(entries[0].0, input, env),
            eval_tree(entries[0].1, input, env),
            eval_entries(rest, input, env),
        ) {
            (Ok(key), Ok(values), Ok(more)) => {
                let out = seq![(key, values)] + more;
                assert forall|i: int| 0 <= i < out.len() implies all_canonical(
                    (#[trigger] out[i]).1,
                ) by {
                    if i > 0 {
                        assert(out[i] == more[i - 1]);
                    }
                }
            },
            _ => {},
        }
    }
}

/// A function gives canonical values on a canonical input.
proof fn lemma_call_canonical(name: Seq<char>, args: Seq<Tree>, input: Json, env: Members)
    requires
        canonical_trees(args),
        is_canonical(input),
        canonical_members(env),
    ensures
        canonical_stream(eval_call(name, args, input, env)),
    decreases args, 1nat,
{
    lemma_plain_canonical(name, input);
    if plain_call(name, input) is Some {
    } else if takes_argument(name) {
        match eval_argument(args, input, env) {
            Ok(arg) => lemma_argument_canonical(name, input, arg),
            Err(_) => {},
        }
    } else if name == "map"@ {
        if args.len() > 0 {
            match input {
                Json::Array(items) => lemma_each_canonical(args[0], items, env),
                _ => {},
            }
        }
    } else if name == "range"@ {
        match eval_streams(args, input, env) {
            Ok(streams) => lemma_range_canonical(streams),
            Err(_) => {},
        }
    }
}

/// The values of a range are canonical.
proof fn lemma_range_canonical(streams: Seq<Seq<Json>>)
    ensures
        canonical_stream(f_range(streams)),
{
    match bounds_of(streams) {
        Some(b) => if b.len() == 1 {
            lemma_counts_canonical(0, b[0]);
        } else if b.len() > 1 {
            lemma_counts_canonical(b[0], b[1]);
        },
        None => {},
    }
}

// ---------------------------------------------------------------------------
// Parsing
// ---------------------------------------------------------------------------

/// Whether a production, if it succeeds, gives a tree with canonical literals.
pub open spec fn canonical_parse(r: Parsed) -> bool {
    match r {
        Ok((t, _)) => canonical_tree(t),
        Err(_) => true,
    }
}

/// A further tree with canonical literals.
proof fn lemma_push_canonical(items: Seq<Tree>, t: Tree)
    requires
        canonical_trees(items),
        canonical_tree(t),
    ensures
        canonical_trees(items.push(t)),
        canonical_trees(spliced(items, t)),
{
    match t {
        Tree::Stream(parts) => {
            let out = items + parts;
            assert forall|i: int| 0 <= i < out.len() implies canonical_tree(#[trigger] out[i]) by {
                if i < items.len() {
                    assert(out[i] == items[i]);
                } else {
                    assert(out[i] == parts[i - items.len()]);
                }
            }
        },
        _ => {},
    }
}

proof fn lemma_expr_canonical(n: nat, toks: Seq<Lexeme>, pos: int)
    ensures
        canonical_parse(p_expr(n, toks, pos)),
    decreases 2 * n, toks.len() - pos, 12nat,
{
    lemma_chain_canonical(n, toks, pos, 6);
    match p_chain(n, toks, pos, 6) {
        Ok((t, p)) => if pos < p <= toks.len() {
            lemma_expr_rest_canonical(n, toks, p, seq![t]);
        },
        Err(_) => {},
    }
}

proof fn lemma_expr_rest_canonical(n: nat, toks: Seq<Lexeme>, pos: int, parts: Seq<Tree>)
    requires
        canonical_trees(parts),
    ensures
        canonical_parse(p_expr_rest(n, toks, pos, parts)),
    decreases 2 * n, toks.len() - pos, 11nat,
{
    if at(toks, pos) == Lexeme::Fixed(Token::Comma) && pos < toks.len() {
        lemma_chain_canonical(n, toks, pos + 1, 6);
        match p_chain(n, toks, pos + 1, 6) {
            Ok((t, p)) => if pos < p <= toks.len() {
                lemma_expr_rest_canonical(n, toks, p, parts.push(t));
            },
            Err(_) => {},
        }
    }
}

proof fn lemma_chain_canonical(n: nat, toks: Seq<Lexeme>, pos: int, level: nat)
    ensures
        canonical_parse(p_chain(n, toks, pos, level)),
    decreases 2 * n, toks.len() - pos, 4 + level,
{
    if level == 0 {
        lemma_unary_parse_canonical(n, toks, pos);
    } else {
        lemma_chain_canonical(n, toks, pos, (level - 1) as nat);
        match p_chain(n, toks, pos, (level - 1) as nat) {
            Ok((left, p)) => if pos < p <= toks.len() {
                lemma_chain_rest_canonical(n, toks, p, level, left);
            },
            Err(_) => {},
        }
    }
}

proof fn lemma_chain_rest_canonical(n: nat, toks: Seq<Lexeme>, pos: int, level: nat, left: Tree)
    requires
        canonical_tree(left),
    ensures
        canonical_parse(p_chain_rest(n, toks, pos, level, left)),
    decreases 2 * n, toks.len() - pos, 4 + level,
{
    if 0 < level && 0 <= pos < toks.len() && joint(level, toks[pos]) is Some {
        lemma_chain_canonical(n, toks, pos + 1, (level - 1) as nat);
        match p_chain(n, toks, pos + 1, (level - 1) as nat) {
            Ok((right, p)) => if pos < p <= toks.len() {
                let t = joined_trees(joint(level, toks[pos]).unwrap(), left, right);
                assert(canonical_tree(t));
                lemma_chain_rest_canonical(n, toks, p, level, t);
            },
            Err(_) => {},
        }
    }
}

proof fn lemma_unary_parse_canonical(n: nat, toks: Seq<Lexeme>, pos: int)
    ensures
        canonical_parse(p_unary(n, toks, pos)),
    decreases 2 * n, toks.len() - pos, 3nat,
{
    if pos < toks.len() && (is_keyword(at(toks, pos), "not"@) || at(toks, pos) == Lexeme::Fixed(
        Token::Minus,
    )) {
        lemma_unary_parse_canonical(n, toks, pos + 1);
    } else if 0 <= pos < toks.len() {
        lemma_base_canonical(n, toks, pos);
        match p_base(n, toks, pos) {
            Ok((t, p)) => if pos < p <= toks.len() {
                lemma_postfix_canonical(n, toks, p, t);
            },
            Err(_) => {},
        }
    }
}

proof fn lemma_index_parse_canonical(n: nat, toks: Seq<Lexeme>, pos: int, base: Tree)
    requires
        canonical_tree(base),
    ensures
        canonical_parse(p_index(n, toks, pos, base)),
    decreases 2 * n, toks.len() - pos, 0nat,
{
    if pos < toks.len() && at(toks, pos + 1) != Lexeme::Fixed(Token::RBracket) {
        lemma_expr_canonical(n, toks, pos + 1);
    }
}

proof fn lemma_postfix_canonical(n: nat, toks: Seq<Lexeme>, pos: int, base: Tree)
    requires
        canonical_tree(base),
    ensures
        canonical_parse(p_postfix(n, toks, pos, base)),
    decreases 2 * n, toks.len() - pos, 1nat,
{
    if pos < toks.len() && at(toks, pos) == Lexeme::Fixed(Token::Dot) {
        match field_name(at(toks, pos + 1)) {
            Some(name) => lemma_postfix_canonical(
                n,
                toks,
                pos + 2,
                Tree::Field(Box::new(base), name),
            ),
            None => {},
        }
    } else if at(toks, pos) == Lexeme::Fixed(Token::LBracket) {
        lemma_index_parse_canonical(n, toks, pos, base);
        match p_index(n, toks, pos, base) {
            Ok((t, p)) => if pos < p <= toks.len() {
                lemma_postfix_canonical(n, toks, p, t);
            },
            Err(_) => {},
        }
    }
}

proof fn lemma_base_canonical(n: nat, toks: Seq<Lexeme>, pos: int)
    ensures
        canonical_parse(p_base(n, toks, pos)),
    decreases 2 * n, toks.len() - pos, 2nat,
{
    if 0 <= pos < toks.len() {
        match toks[pos] {
            Lexeme::Fixed(Token::Dot) => assert(canonical_tree(Tree::Identity)),
            Lexeme::Number(bits) => lemma_double_canonical(bits),
            Lexeme::Str(s) => lemma_string_parse_canonical(
                n,
                toks,
                pos + 1,
                seq![Part::Literal(s)],
            ),
            Lexeme::Interp(source) => match p_interp(n, source) {
                Ok(t) => lemma_string_parse_canonical(
                    n,
                    toks,
                    pos + 1,
                    seq![Part::Expr(Box::new(t))],
                ),
                Err(_) => {},
            },
            Lexeme::Fixed(Token::LBracket) => if at(toks, pos + 1) != Lexeme::Fixed(
                Token::RBracket,
            ) {
                lemma_array_parse_canonical(n, toks, pos + 1, Seq::empty());
            },
            Lexeme::Fixed(Token::LBrace) => if at(toks, pos + 1) != Lexeme::Fixed(Token::RBrace) {
                lemma_object_parse_canonical(n, toks, pos + 1, Seq::empty());
            },
            Lexeme::Fixed(Token::LParen) => lemma_expr_canonical(n, toks, pos + 1),
            Lexeme::Ident(name) => lemma_name_canonical(n, toks, pos, name),
            _ => {},
        }
    }
}

proof fn lemma_string_parse_canonical(n: nat, toks: Seq<Lexeme>, pos: int, parts: Seq<Part>)
    ensures
        canonical_parse(p_string(n, toks, pos, parts)),
    decreases 2 * n, toks.len() - pos, 1nat,
{
    if 0 <= pos < toks.len() {
        match toks[pos] {
            Lexeme::Str(s) => lemma_string_parse_canonical(
                n,
                toks,
                pos + 1,
                parts.push(Part::Literal(s)),
            ),
            Lexeme::Interp(source) => match p_interp(n, source) {
                Ok(t) => lemma_string_parse_canonical(
                    n,
                    toks,
                    pos + 1,
                    parts.push(Part::Expr(Box::new(t))),
                ),
                Err(_) => {},
            },
            _ => {},
        }
    }
}

proof fn lemma_array_parse_canonical(n: nat, toks: Seq<Lexeme>, pos: int, items: Seq<Tree>)
    requires
        canonical_trees(items),
    ensures
        canonical_parse(p_array(n, toks, pos, items)),
    decreases 2 * n, toks.len() - pos, 11nat,
{
    lemma_chain_canonical(n, toks, pos, 6);
    match p_chain(n, toks, pos, 6) {
        Ok((t, p)) => {
            lemma_push_canonical(items, t);
            if at(toks, p) == Lexeme::Fixed(Token::Comma) && pos < p && p < toks.len() {
                lemma_array_parse_canonical(n, toks, p + 1, spliced(items, t));
            }
        },
        Err(_) => {},
    }
}

/// Whether the trees of entries have canonical literals.
pub open spec fn canonical_pairs(entries: Seq<(Key, Tree)>) -> bool {
    forall|i: int| 0 <= i < entries.len() ==> canonical_tree((#[trigger] entries[i]).1)
}

/// A further entry with canonical literals.
proof fn lemma_pair_canonical(entries: Seq<(Key, Tree)>, key: Key, t: Tree)
    requires
        canonical_pairs(entries),
        canonical_tree(t),
    ensures
        canonical_pairs(entries.push((key, t))),
        canonical_tree(Tree::Object(entries.push((key, t)))),
{
    let more = entries.push((key, t));
    assert forall|i: int| 0 <= i < more.len() implies canonical_tree((#[trigger] more[i]).1) by {
        if i < entries.len() {
            assert(more[i] == entries[i]);
        }
    }
}

proof fn lemma_object_parse_canonical(
    n: nat,
    toks: Seq<Lexeme>,
    pos: int,
    entries: Seq<(Key, Tree)>,
)
    requires
        canonical_pairs(entries),
    ensures
        canonical_parse(p_object(n, toks, pos, entries)),
    decreases 2 * n, toks.len() - pos, 11nat,
{
    match p_key(n, toks, pos) {
        Ok((key, p)) => if at(toks, p) == Lexeme::Fixed(Token::Colon) && pos < p && p
            < toks.len() {
            lemma_chain_canonical(n, toks, p + 1, 6);
            match p_chain(n, toks, p + 1, 6) {
                Ok((t, q)) => {
                    let more = entries.push((key, t));
                    lemma_pair_canonical(entries, key, t);
                    if at(toks, q) == Lexeme::Fixed(Token::Comma) && p < q && q < toks.len() {
                        lemma_object_parse_canonical(n, toks, q + 1, more);
                    }
                },
                Err(_) => {},
            }
        },
        Err(_) => {},
    }
}

proof fn lemma_name_canonical(n: nat, toks: Seq<Lexeme>, pos: int, name: Seq<char>)
    ensures
        canonical_parse(p_name(n, toks, pos, name)),
    decreases 2 * n, toks.len() - pos, 1nat,
{
    if 0 <= pos < toks.len() {
        if name == "if"@ {
            lemma_if_canonical(n, toks, pos);
        } else if at(toks, pos + 1) == Lexeme::Fixed(Token::LParen) {
            lemma_args_canonical(n, toks, pos + 2, name, Seq::empty());
        }
    }
}

proof fn lemma_args_canonical(
    n: nat,
    toks: Seq<Lexeme>,
    pos: int,
    name: Seq<char>,
    args: Seq<Tree>,
)
    requires
        canonical_trees(args),
    ensures
        canonical_parse(p_args(n, toks, pos, name, args)),
    decreases 2 * n, toks.len() - pos, 11nat,
{
    lemma_chain_canonical(n, toks, pos, 6);
    match p_chain(n, toks, pos, 6) {
        Ok((t, p)) => {
            lemma_push_canonical(args, t);
            if (at(toks, p) == Lexeme::Fixed(Token::Comma) || at(toks, p) == Lexeme::Fixed(
                Token::Semicolon,
            )) && pos < p && p < toks.len() {
                lemma_args_canonical(n, toks, p + 1, name, args.push(t));
            }
        },
        Err(_) => {},
    }
}

proof fn lemma_after_canonical(n: nat, toks: Seq<Lexeme>, pos: int, word: Seq<char>)
    ensures
        canonical_parse(p_after(n, toks, pos, word)),
    decreases 2 * n, toks.len() - pos, 0nat,
{
    if 0 <= pos < toks.len() && is_keyword(toks[pos], word) {
        lemma_expr_canonical(n, toks, pos + 1);
    }
}

proof fn lemma_branch_canonical(n: nat, toks: Seq<Lexeme>, pos: int)
    ensures
        match p_branch(n, toks, pos) {
            Ok((c, t, _)) => canonical_tree(c) && canonical_tree(t),
            Err(_) => true,
        },
    decreases 2 * n, toks.len() - pos, 13nat,
{
    lemma_expr_canonical(n, toks, pos);
    match p_expr(n, toks, pos) {
        Ok((_, p)) => if pos < p <= toks.len() {
            lemma_after_canonical(n, toks, p, "then"@);
        },
        Err(_) => {},
    }
}

proof fn lemma_if_canonical(n: nat, toks: Seq<Lexeme>, pos: int)
    ensures
        canonical_parse(p_if(n, toks, pos)),
    decreases 2 * n, toks.len() - pos, 0nat,
{
    if 0 <= pos < toks.len() {
        lemma_branch_canonical(n, toks, pos + 1);
        match p_branch(n, toks, pos + 1) {
            Ok((_, _, q)) => if pos < q <= toks.len() {
                lemma_tail_canonical(n, toks, q);
            },
            Err(_) => {},
        }
    }
}

proof fn lemma_tail_canonical(n: nat, toks: Seq<Lexeme>, pos: int)
    ensures
        canonical_parse(p_tail(n, toks, pos)),
    decreases 2 * n, toks.len() - pos, 14nat,
{
    if 0 <= pos < toks.len() && is_keyword(toks[pos], "elif"@) {
        lemma_branch_canonical(n, toks, pos + 1);
        match p_branch(n, toks, pos + 1) {
            Ok((_, _, q)) => if pos < q <= toks.len() {
                lemma_else_canonical(n, toks, q);
            },
            Err(_) => {},
        }
    } else {
        lemma_else_canonical(n, toks, pos);
    }
}

proof fn lemma_else_canonical(n: nat, toks: Seq<Lexeme>, pos: int)
    ensures
        canonical_parse(p_else(n, toks, pos)),
    decreases 2 * n, toks.len() - pos, 13nat,
{
    if 0 <= pos < toks.len() && is_keyword(toks[pos], "else"@) {
        lemma_expr_canonical(n, toks, pos + 1);
    } else if is_keyword(at(toks, pos), "elif"@) {
        lemma_expr_canonical(n, toks, pos);
    }
}

/// The literals of a parsed expression are in canonical form.
pub proof fn lemma_parse_canonical(source: Seq<char>)
    ensures
        parse_tree(source) matches Ok(t) ==> canonical_tree(t),
{
    reveal(parse_tree);
    match tokens_of(source) {
        Ok(toks) => lemma_expr_canonical(source.len(), toks, 0),
        Err(_) => {},
    }
}

/// Whatever an expression gives on a value in canonical form, with variables in
/// canonical form, is in canonical form again: doubles are finite, the members of
/// objects sorted with each key once.
pub proof fn law_canonical_values(source: Seq<char>, input: Json, env: Members)
    requires
        is_canonical(input),
        canonical_members(env),
    ensures
        match parse_tree(source) {
            Ok(t) => canonical_stream(eval_tree(t, input, env)) && canonical_outcome(
                eval_last(t, input, env),
            ),
            Err(_) => true,
        },
{
    lemma_parse_canonical(source);
    match parse_tree(source) {
        Ok(t) => {
            reveal(eval_last);
            lemma_eval_canonical(t, input, env);
            match eval_tree(t, input, env) {
                Ok(s) => if s.len() > 0 {
                    lemma_skip_canonical(s);
                },
                Err(_) => {},
            }
        },
        Err(_) => {},
    }
}

/// Whatever the engine gives for a source text is in canonical form.
pub proof fn law_canonical_results(source: Seq<char>, input: Json, env: Members)
    requires
        is_canonical(input),
        canonical_members(env),
    ensures
        match plan_of(source) {
            Ok(plan) => canonical_outcome(evaluated(plan, input, env)) && canonical_outcome(
                filled(plan, input, env),
            ),
            Err(_) => true,
        },
{
    law_canonical_values(source, input, env);
    match single_block(trimmed(source)) {
        Some(inner) => law_canonical_values(inner, input, env),
        None => {},
    }
}

} // verus!
