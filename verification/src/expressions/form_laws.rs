//! What holds of the forms of expressions.
//!
//! The laws speak of the stream of values that an expression gives, [`eval_tree`].
use crate::double::{from_int, law_integers_exact, lemma_opposite, opposite, truncated, value};
use crate::expressions::ast::{BinOp, Key, Part, Tree, UnaryOp};
use crate::expressions::error::Failure;
use crate::expressions::eval::{
    Operation, all_children, children, cross, eval_all, eval_each, eval_entries, eval_key,
    eval_last, eval_part, eval_parts, eval_tree, grown, object_values, objects_of, operation,
    prefixed, row, selection, unary_each, with_each,
};
use crate::expressions::operator_laws::{law_integer_arithmetic, lemma_same_integer, whole};
use crate::expressions::operators::{applied, field_of, member_of};
use crate::expressions::parser::parse_tree;
use crate::expressions::precedence::{Operand, law_product_before_sum, operand_tree};
use crate::json::{Json, Members, Number, Object};
use crate::text::decimal;
use crate::value::{inserted, json_text, lemma_inserted_lookup, lookup, merged, number_double};
use vstd::arithmetic::mul::*;
use vstd::prelude::*;

verus! {

/// Whether an expression gives a stream of values.
pub open spec fn yields(t: Tree, input: Json, env: Members, values: Seq<Json>) -> bool {
    eval_tree(t, input, env) == Ok::<Seq<Json>, Failure>(values)
}

/// Whether a value counts as true: it is neither null nor false.
pub open spec fn counts_as_true(v: Json) -> bool {
    v != Json::Null && v != Json::Bool(false)
}

// ---------------------------------------------------------------------------
// Values, fields and indices
// ---------------------------------------------------------------------------

/// `.` gives the input, a literal its value, and a variable the value that it has. A
/// variable without a value is an error that names it.
pub proof fn law_simple_forms(v: Json, name: Seq<char>, input: Json, env: Members)
    ensures
        yields(Tree::Identity, input, env, seq![input]),
        yields(Tree::Literal(v), input, env, seq![v]),
        lookup(env, name) matches Some(w) ==> yields(Tree::Variable(name), input, env, seq![w]),
        lookup(env, name) is None ==> eval_tree(Tree::Variable(name), input, env) == Err::<
            Seq<Json>,
            Failure,
        >(Failure::TypeError { message: "undefined variable `$"@ + name + "`"@ }),
{
}

/// A field of an object is its member, or null. A field of an array is the array of the
/// fields of its items. Any other value has only null fields.
pub proof fn law_field(base: Tree, name: Seq<char>, input: Json, env: Members, v: Json)
    requires
        yields(base, input, env, seq![v]),
    ensures
        ({
            let field = |j: Json|
                if j is Object && lookup(j->Object_0, name) is Some {
                    lookup(j->Object_0, name).unwrap()
                } else {
                    Json::Null
                };
            yields(
                Tree::Field(Box::new(base), name),
                input,
                env,
                seq![
                    if v is Array {
                        Json::Array(v->Array_0.map_values(field))
                    } else {
                        field(v)
                    },
                ],
            )
        }),
{
    let field = |j: Json|
        if j is Object && lookup(j->Object_0, name) is Some {
            lookup(j->Object_0, name).unwrap()
        } else {
            Json::Null
        };
    assert(seq![v].map_values(|x: Json| field_of(x, name)) =~= seq![field_of(v, name)]);
    match v {
        Json::Array(items) => {
            assert(items.map_values(|i: Json| member_of(i, name)) =~= items.map_values(field));
        },
        _ => {},
    }
}

/// An index selects an item of an array or a character of a string, from the end where
/// it is negative, and null where there is none; a string selects a member of an object.
pub proof fn law_index(base: Tree, index: Tree, input: Json, env: Members, v: Json, k: Json)
    requires
        yields(base, input, env, seq![v]),
        yields(index, input, env, seq![k]),
    ensures
        v matches Json::Array(items) ==> forall|i: int|
            -0x20_0000_0000_0000 < i < 0x20_0000_0000_0000 && k == #[trigger] whole(i) ==> yields(
                Tree::Index(Box::new(base), Box::new(index)),
                input,
                env,
                seq![
                    if 0 <= i < items.len() {
                        items[i]
                    } else if -(items.len() as int) <= i < 0 {
                        items[items.len() + i]
                    } else {
                        Json::Null
                    },
                ],
            ),
        v matches Json::String(s) ==> forall|i: int|
            -0x20_0000_0000_0000 < i < 0x20_0000_0000_0000 && k == #[trigger] whole(i) ==> yields(
                Tree::Index(Box::new(base), Box::new(index)),
                input,
                env,
                seq![
                    if 0 <= i < s.len() {
                        Json::String(seq![s[i]])
                    } else if -(s.len() as int) <= i < 0 {
                        Json::String(seq![s[s.len() + i]])
                    } else {
                        Json::Null
                    },
                ],
            ),
        v matches Json::Object(m) ==> k matches Json::String(name) ==> yields(
            Tree::Index(Box::new(base), Box::new(index)),
            input,
            env,
            seq![
                if lookup(m, name) is Some {
                    lookup(m, name).unwrap()
                } else {
                    Json::Null
                },
            ],
        ),
        v is Null ==> yields(
            Tree::Index(Box::new(base), Box::new(index)),
            input,
            env,
            seq![Json::Null],
        ),
        v is Array && (k is Null || k is Bool || k is Array || k is Object) ==> eval_tree(
            Tree::Index(Box::new(base), Box::new(index)),
            input,
            env,
        ) is Err,
        v is Object && (k is Null || k is Bool || k is Array || k is Object) ==> eval_tree(
            Tree::Index(Box::new(base), Box::new(index)),
            input,
            env,
        ) is Err,
        v is String && !(k is Number) ==> eval_tree(
            Tree::Index(Box::new(base), Box::new(index)),
            input,
            env,
        ) is Err,
{
    let t = Tree::Index(Box::new(base), Box::new(index));
    lemma_single_pair(selection(), v, k);
    assert forall|i: int|
        -0x20_0000_0000_0000 < i < 0x20_0000_0000_0000 && k == #[trigger] whole(
            i,
        ) implies truncated(number_double(k->Number_0), i64::MIN as int, i64::MAX as int) == i by {
        law_integers_exact(i);
    }
}

/// One value combined with one other.
proof fn lemma_single_pair(f: Operation, a: Json, b: Json)
    ensures
        match f(a, b) {
            Ok(v) => cross(f, seq![a], seq![b]) == Ok::<Seq<Json>, Failure>(seq![v]),
            Err(e) => cross(f, seq![a], seq![b]) == Err::<Seq<Json>, Failure>(e),
        },
{
    let none = Seq::<Json>::empty();
    assert(seq![a].skip(1) =~= none);
    assert(seq![b].skip(1) =~= none);
    assert(row(f, a, none) == Ok::<Seq<Json>, Failure>(none));
    assert(cross(f, none, seq![b]) == Ok::<Seq<Json>, Failure>(none));
    match f(a, b) {
        Ok(v) => {
            assert(seq![v] + none =~= seq![v]);
            assert(row(f, a, seq![b]) == Ok::<Seq<Json>, Failure>(seq![v]));
        },
        Err(_) => {},
    }
}

/// Iteration gives the items of an array, the values of an object in the order of its
/// keys, and any other value itself.
pub proof fn law_iteration(base: Tree, input: Json, env: Members, v: Json)
    requires
        yields(base, input, env, seq![v]),
    ensures
        v matches Json::Array(items) ==> yields(
            Tree::Iterate(Box::new(base)),
            input,
            env,
            items,
        ),
        v matches Json::Object(m) ==> yields(
            Tree::Iterate(Box::new(base)),
            input,
            env,
            Seq::new(m.len(), |i: int| m[i].1),
        ),
        !(v is Array) && !(v is Object) ==> yields(
            Tree::Iterate(Box::new(base)),
            input,
            env,
            seq![v],
        ),
{
    let none = Seq::<Json>::empty();
    assert(seq![v].drop_last() =~= none);
    assert(all_children(none) =~= none);
    assert(none + children(v) =~= children(v));
    match v {
        Json::Object(m) => {
            assert(children(v) =~= Seq::new(m.len(), |i: int| m[i].1));
        },
        _ => {},
    }
}

// ---------------------------------------------------------------------------
// Streams
// ---------------------------------------------------------------------------

/// Some expressions one after the other give all their values in that order, and the
/// first failure is that of the whole.
pub proof fn law_stream(first: Tree, rest: Seq<Tree>, input: Json, env: Members)
    ensures
        yields(Tree::Stream(Seq::empty()), input, env, Seq::empty()),
        ({
            let all = eval_tree(Tree::Stream(seq![first] + rest), input, env);
            match (eval_tree(first, input, env), eval_tree(Tree::Stream(rest), input, env)) {
                (Ok(a), Ok(b)) => all == Ok::<Seq<Json>, Failure>(a + b),
                (Err(e), _) => all == Err::<Seq<Json>, Failure>(e),
                (_, Err(e)) => all == Err::<Seq<Json>, Failure>(e),
            }
        }),
{
    let items = seq![first] + rest;
    let none = Seq::<Tree>::empty();
    assert(items.skip(1) =~= rest);
    assert(items[0] == first);
    assert(eval_all(none, input, env) == Ok::<Seq<Json>, Failure>(Seq::empty()));
    assert(eval_tree(Tree::Stream(none), input, env) == eval_all(none, input, env));
    assert(eval_tree(Tree::Stream(rest), input, env) == eval_all(rest, input, env));
    assert(eval_tree(Tree::Stream(items), input, env) == eval_all(items, input, env));
}

/// An array constructor gives one array of all the values of its expressions.
pub proof fn law_array(items: Seq<Tree>, input: Json, env: Members)
    ensures
        match eval_tree(Tree::Stream(items), input, env) {
            Ok(s) => yields(Tree::Array(items), input, env, seq![Json::Array(s)]),
            Err(e) => eval_tree(Tree::Array(items), input, env) == Err::<Seq<Json>, Failure>(e),
        },
{
}

/// A pipe gives to its right side each value of its left side, in order, and gives what
/// comes of each, one after the other.
pub proof fn law_pipe(l: Tree, r: Tree, input: Json, env: Members, v: Json, more: Seq<Json>)
    ensures
        yields(l, input, env, Seq::empty()) ==> yields(
            Tree::Pipe(Box::new(l), Box::new(r)),
            input,
            env,
            Seq::empty(),
        ),
        yields(l, input, env, seq![v]) ==> eval_tree(
            Tree::Pipe(Box::new(l), Box::new(r)),
            input,
            env,
        ) == eval_tree(r, v, env),
        yields(l, input, env, seq![v] + more) && eval_tree(r, v, env) is Ok ==> eval_tree(
            Tree::Pipe(Box::new(l), Box::new(r)),
            input,
            env,
        ) == (match eval_each(r, more, env) {
            Ok(s) => Ok::<Seq<Json>, Failure>(eval_tree(r, v, env)->Ok_0 + s),
            Err(e) => Err(e),
        }),
        eval_tree(l, input, env) matches Err(e) ==> eval_tree(
            Tree::Pipe(Box::new(l), Box::new(r)),
            input,
            env,
        ) == Err::<Seq<Json>, Failure>(e),
{
    let none = Seq::<Json>::empty();
    lemma_first_input(r, v, more, env);
    lemma_first_input(r, v, none, env);
    assert(seq![v] + none =~= seq![v]);
    lemma_piped(l, r, input, env);
    match eval_tree(r, v, env) {
        Ok(s) => assert(s + none =~= s),
        Err(_) => {},
    }
}

/// A pipe is its right side on each value of its left side.
proof fn lemma_piped(l: Tree, r: Tree, input: Json, env: Members)
    ensures
        eval_tree(Tree::Pipe(Box::new(l), Box::new(r)), input, env) == (match eval_tree(
            l,
            input,
            env,
        ) {
            Ok(s) => eval_each(r, s, env),
            Err(e) => Err(e),
        }),
        eval_each(r, Seq::empty(), env) == Ok::<Seq<Json>, Failure>(Seq::empty()),
{
}

/// What the first of some inputs gives comes first.
proof fn lemma_first_input(t: Tree, v: Json, more: Seq<Json>, env: Members)
    ensures
        eval_each(t, Seq::empty(), env) == Ok::<Seq<Json>, Failure>(Seq::empty()),
        eval_each(t, seq![v] + more, env) == (match eval_tree(t, v, env) {
            Ok(s) => prefixed(s, eval_each(t, more, env)),
            Err(e) => Err(e),
        }),
{
    let all = seq![v] + more;
    assert(all.skip(1) =~= more);
    assert(all[0] == v);
}

/// What each of some inputs gives, for as many inputs as there are.
pub proof fn law_each_input(t: Tree, inputs: Seq<Json>, env: Members, outs: Seq<Json>)
    requires
        inputs.len() == outs.len(),
        forall|i: int|
            0 <= i < inputs.len() ==> yields(t, #[trigger] inputs[i], env, seq![outs[i]]),
    ensures
        eval_each(t, inputs, env) == Ok::<Seq<Json>, Failure>(outs),
    decreases inputs.len(),
{
    if inputs.len() == 0 {
        assert(outs =~= Seq::empty());
    } else {
        let (xs, ys) = (inputs.skip(1), outs.skip(1));
        assert forall|i: int| 0 <= i < xs.len() implies yields(
            t,
            #[trigger] xs[i],
            env,
            seq![ys[i]],
        ) by {
            assert(xs[i] == inputs[i + 1] && ys[i] == outs[i + 1]);
        }
        law_each_input(t, xs, env, ys);
        assert(yields(t, inputs[0], env, seq![outs[0]]));
        assert(seq![outs[0]] + ys =~= outs);
    }
}

/// An operator between streams combines each value of the left one with each of the
/// right one: all pairs with the first left value come first.
pub proof fn law_pairs(
    op: BinOp,
    l: Tree,
    r: Tree,
    input: Json,
    env: Members,
    ls: Seq<Json>,
    rs: Seq<Json>,
    outs: Seq<Seq<Json>>,
)
    requires
        op != BinOp::And && op != BinOp::Or && op != BinOp::Alternative,
        yields(l, input, env, ls),
        yields(r, input, env, rs),
        outs.len() == ls.len(),
        forall|i: int| 0 <= i < ls.len() ==> (#[trigger] outs[i]).len() == rs.len(),
        forall|i: int, j: int|
            0 <= i < ls.len() && 0 <= j < rs.len() ==> applied(op, ls[i], rs[j]) == Ok::<
                Json,
                Failure,
            >(#[trigger] outs[i][j]),
    ensures
        yields(Tree::Binary(op, Box::new(l), Box::new(r)), input, env, outs.flatten()),
{
    lemma_cross_flatten(operation(op), ls, rs, outs);
}

/// All pairs of two streams, row by row.
proof fn lemma_cross_flatten(f: Operation, ls: Seq<Json>, rs: Seq<Json>, outs: Seq<Seq<Json>>)
    requires
        outs.len() == ls.len(),
        forall|i: int| 0 <= i < ls.len() ==> (#[trigger] outs[i]).len() == rs.len(),
        forall|i: int, j: int|
            0 <= i < ls.len() && 0 <= j < rs.len() ==> f(ls[i], rs[j]) == Ok::<Json, Failure>(
                #[trigger] outs[i][j],
            ),
    ensures
        cross(f, ls, rs) == Ok::<Seq<Json>, Failure>(outs.flatten()),
    decreases ls.len(),
{
    reveal(Seq::flatten);
    if ls.len() > 0 {
        let (xs, ys) = (ls.skip(1), outs.skip(1));
        assert forall|i: int| 0 <= i < xs.len() implies (#[trigger] ys[i]).len() == rs.len() by {
            assert(ys[i] == outs[i + 1]);
        }
        assert forall|i: int, j: int| 0 <= i < xs.len() && 0 <= j < rs.len() implies f(
            xs[i],
            rs[j],
        ) == Ok::<Json, Failure>(#[trigger] ys[i][j]) by {
            assert(ys[i] == outs[i + 1] && xs[i] == ls[i + 1]);
            assert(outs[i + 1][j] == ys[i][j]);
        }
        lemma_cross_flatten(f, xs, rs, ys);
        lemma_row(f, ls[0], rs, outs[0]);
        assert(outs.drop_first() =~= ys);
        assert(outs.first() == outs[0]);
    }
}

/// One value with each value of a stream.
proof fn lemma_row(f: Operation, a: Json, rs: Seq<Json>, out: Seq<Json>)
    requires
        out.len() == rs.len(),
        forall|j: int| 0 <= j < rs.len() ==> f(a, rs[j]) == Ok::<Json, Failure>(#[trigger] out[j]),
    ensures
        row(f, a, rs) == Ok::<Seq<Json>, Failure>(out),
    decreases rs.len(),
{
    if rs.len() == 0 {
        assert(out =~= Seq::empty());
    } else {
        let (xs, ys) = (rs.skip(1), out.skip(1));
        assert forall|j: int| 0 <= j < xs.len() implies f(a, xs[j]) == Ok::<Json, Failure>(
            #[trigger] ys[j],
        ) by {
            assert(xs[j] == rs[j + 1] && ys[j] == out[j + 1]);
        }
        lemma_row(f, a, xs, ys);
        assert(f(a, rs[0]) == Ok::<Json, Failure>(out[0]));
        assert(seq![out[0]] + ys =~= out);
    }
}

/// An operator between single values is the operator on the two, and its failure is
/// theirs. A failure of the left side comes before one of the right side.
pub proof fn law_binary(op: BinOp, l: Tree, r: Tree, input: Json, env: Members, a: Json, b: Json)
    requires
        op != BinOp::And && op != BinOp::Or && op != BinOp::Alternative,
    ensures
        yields(l, input, env, seq![a]) && yields(r, input, env, seq![b]) ==> eval_tree(
            Tree::Binary(op, Box::new(l), Box::new(r)),
            input,
            env,
        ) == (match applied(op, a, b) {
            Ok(v) => Ok::<Seq<Json>, Failure>(seq![v]),
            Err(e) => Err(e),
        }),
        eval_tree(l, input, env) matches Err(e) ==> eval_tree(
            Tree::Binary(op, Box::new(l), Box::new(r)),
            input,
            env,
        ) == Err::<Seq<Json>, Failure>(e),
        eval_tree(l, input, env) is Ok && eval_tree(r, input, env) is Err ==> eval_tree(
            Tree::Binary(op, Box::new(l), Box::new(r)),
            input,
            env,
        ) == eval_tree(r, input, env),
{
    lemma_single_pair(operation(op), a, b);
}

/// `and`, `or` and `//` look at the right side only where the left side does not
/// decide, and `and` and `or` give a boolean.
pub proof fn law_logic(l: Tree, r: Tree, input: Json, env: Members, a: Json, b: Json)
    requires
        yields(l, input, env, seq![a]),
        yields(r, input, env, seq![b]),
    ensures
        yields(
            Tree::Binary(BinOp::And, Box::new(l), Box::new(r)),
            input,
            env,
            seq![Json::Bool(counts_as_true(a) && counts_as_true(b))],
        ),
        yields(
            Tree::Binary(BinOp::Or, Box::new(l), Box::new(r)),
            input,
            env,
            seq![Json::Bool(counts_as_true(a) || counts_as_true(b))],
        ),
        yields(
            Tree::Binary(BinOp::Alternative, Box::new(l), Box::new(r)),
            input,
            env,
            seq![
                if counts_as_true(a) {
                    a
                } else {
                    b
                },
            ],
        ),
{
}

/// `not` gives the opposite boolean; `-` gives the opposite integer, and is an error on
/// what is no number.
pub proof fn law_unary(inner: Tree, input: Json, env: Members, v: Json)
    requires
        yields(inner, input, env, seq![v]),
    ensures
        yields(
            Tree::Unary(UnaryOp::Not, Box::new(inner)),
            input,
            env,
            seq![Json::Bool(!counts_as_true(v))],
        ),
        forall|n: int|
            -0x20_0000_0000_0000 < n < 0x20_0000_0000_0000 && v == #[trigger] whole(n) ==> yields(
                Tree::Unary(UnaryOp::Negate, Box::new(inner)),
                input,
                env,
                seq![whole(-n)],
            ),
        !(v is Number) ==> eval_tree(Tree::Unary(UnaryOp::Negate, Box::new(inner)), input, env)
            == Err::<Seq<Json>, Failure>(
            Failure::TypeError {
                message: "cannot negate non-number `"@ + json_text(v) + "`"@,
            },
        ),
{
    let none = Seq::<Json>::empty();
    assert(seq![v].skip(1) =~= none);
    assert(unary_each(UnaryOp::Not, none) == Ok::<Seq<Json>, Failure>(none));
    assert(unary_each(UnaryOp::Negate, none) == Ok::<Seq<Json>, Failure>(none));
    let not = Json::Bool(!counts_as_true(v));
    assert(seq![not] + none =~= seq![not]);
    assert forall|n: int|
        -0x20_0000_0000_0000 < n < 0x20_0000_0000_0000 && v == #[trigger] whole(n) implies yields(
        Tree::Unary(UnaryOp::Negate, Box::new(inner)),
        input,
        env,
        seq![whole(-n)],
    ) by {
        law_integers_exact(n);
        law_integers_exact(-n);
        lemma_opposite(from_int(n));
        assert(value(opposite(from_int(n))) == value(from_int(-n))) by (nonlinear_arith)
            requires
                value(opposite(from_int(n))) == -value(from_int(n)),
                value(from_int(n)) == n * vstd::arithmetic::power2::pow2(1074),
                value(from_int(-n)) == (-n) * vstd::arithmetic::power2::pow2(1074),
        ;
        lemma_same_integer(opposite(from_int(n)), from_int(-n));
        assert(seq![whole(-n)] + none =~= seq![whole(-n)]);
    }
}

/// A conditional gives its first branch where the first value of its condition counts
/// as true, and its second branch where it does not or there is none.
pub proof fn law_conditional(c: Tree, t: Tree, f: Tree, input: Json, env: Members, s: Seq<Json>)
    requires
        yields(c, input, env, s),
    ensures
        eval_tree(Tree::If(Box::new(c), Box::new(t), Box::new(f)), input, env) == if s.len() > 0
            && counts_as_true(s[0]) {
            eval_tree(t, input, env)
        } else {
            eval_tree(f, input, env)
        },
{
}

/// A string with interpolation is its segments in order; an expression stands for the
/// text of its last value: a string for itself, any other value for its JSON text.
pub proof fn law_interpolation(first: Part, rest: Seq<Part>, input: Json, env: Members)
    ensures
        yields(Tree::Str(Seq::empty()), input, env, seq![Json::String(Seq::empty())]),
        eval_tree(Tree::Str(rest), input, env) matches Ok(s) ==> s.len() == 1 && s[0] is String,
        eval_tree(Tree::Str(rest), input, env) is Ok ==> {
            let tail = eval_tree(Tree::Str(rest), input, env)->Ok_0[0]->String_0;
            let all = Tree::Str(seq![first] + rest);
            &&& first matches Part::Literal(text) ==> yields(
                all,
                input,
                env,
                seq![Json::String(text + tail)],
            )
            &&& first matches Part::Expr(e) ==> forall|vs: Seq<Json>, v: Json|
                #[trigger] yields(*e, input, env, vs.push(v)) ==> yields(
                    all,
                    input,
                    env,
                    seq![
                        Json::String(
                            (if v is String {
                                v->String_0
                            } else {
                                json_text(v)
                            }) + tail,
                        ),
                    ],
                )
        },
{
    let parts = seq![first] + rest;
    lemma_parts_text(Seq::empty(), input, env);
    lemma_parts_text(rest, input, env);
    lemma_parts_text(parts, input, env);
    lemma_first_part(first, rest, input, env);
    match first {
        Part::Expr(e) => {
            assert forall|vs: Seq<Json>, v: Json| #[trigger]
                yields(*e, input, env, vs.push(v)) implies eval_part(first, input, env) == Ok::<
                Seq<char>,
                Failure,
            >(
                if v is String {
                    v->String_0
                } else {
                    json_text(v)
                },
            ) by {
                lemma_part_text(*e, input, env, vs, v);
            }
        },
        _ => {},
    }
}

/// A string is the text of its parts.
proof fn lemma_parts_text(parts: Seq<Part>, input: Json, env: Members)
    ensures
        eval_tree(Tree::Str(parts), input, env) == (match eval_parts(parts, input, env) {
            Ok(s) => Ok::<Seq<Json>, Failure>(seq![Json::String(s)]),
            Err(e) => Err(e),
        }),
        eval_parts(Seq::empty(), input, env) == Ok::<Seq<char>, Failure>(Seq::empty()),
{
}

/// The text of the first part comes first.
proof fn lemma_first_part(first: Part, rest: Seq<Part>, input: Json, env: Members)
    ensures
        eval_parts(seq![first] + rest, input, env) == (match eval_part(first, input, env) {
            Ok(head) => match eval_parts(rest, input, env) {
                Ok(tail) => Ok(head + tail),
                Err(e) => Err(e),
            },
            Err(e) => Err(e),
        }),
        first matches Part::Literal(text) ==> eval_part(first, input, env) == Ok::<
            Seq<char>,
            Failure,
        >(text),
{
    let parts = seq![first] + rest;
    assert(parts.skip(1) =~= rest);
    assert(parts[0] == first);
}

/// The text of an interpolated expression is that of its last value.
proof fn lemma_part_text(e: Tree, input: Json, env: Members, vs: Seq<Json>, v: Json)
    requires
        yields(e, input, env, vs.push(v)),
    ensures
        eval_part(Part::Expr(Box::new(e)), input, env) == Ok::<Seq<char>, Failure>(
            if v is String {
                v->String_0
            } else {
                json_text(v)
            },
        ),
{
    assert(vs.push(v).last() == v);
}

/// An expression that is asked for one value gives its last one, or null where it gives
/// none.
pub proof fn law_single_value(t: Tree, input: Json, env: Members, vs: Seq<Json>, v: Json)
    ensures
        yields(t, input, env, Seq::empty()) ==> eval_last(t, input, env) == Ok::<Json, Failure>(
            Json::Null,
        ),
        yields(t, input, env, vs.push(v)) ==> eval_last(t, input, env) == Ok::<Json, Failure>(v),
        eval_tree(t, input, env) matches Err(e) ==> eval_last(t, input, env) == Err::<
            Json,
            Failure,
        >(e),
{
    reveal(eval_last);
    assert(vs.push(v).last() == v);
}

/// Arithmetic on written numbers follows precedence: `a + b * c` gives the sum of `a`
/// and the product of `b` and `c`, and `a * b + c` the sum of the product of `a` and
/// `b` and of `c`.
pub proof fn law_arithmetic(a: nat, b: nat, c: nat, input: Json, env: Members)
    requires
        a < 0x20_0000_0000_0000,
        b < 0x20_0000_0000_0000,
        c < 0x20_0000_0000_0000,
        a + b * c <= i64::MAX,
        a * b + c <= i64::MAX,
    ensures
        parse_tree(
            decimal(a) + " "@ + "+"@ + " "@ + decimal(b) + " "@ + "*"@ + " "@ + decimal(c),
        ) matches Ok(t) && eval_last(t, input, env) == Ok::<Json, Failure>(
            whole((a + b * c) as int),
        ),
        parse_tree(
            decimal(a) + " "@ + "*"@ + " "@ + decimal(b) + " "@ + "+"@ + " "@ + decimal(c),
        ) matches Ok(t) && eval_last(t, input, env) == Ok::<Json, Failure>(
            whole((a * b + c) as int),
        ),
{
    let (x, y, z) = (Operand::Count(a), Operand::Count(b), Operand::Count(c));
    let (p, q, r) = (operand_tree(x), operand_tree(y), operand_tree(z));
    law_product_before_sum(x, y, z, "+"@, BinOp::Add, "*"@, BinOp::Mul);
    reveal(eval_last);
    assert(0 <= b * c && 0 <= a * b) by (nonlinear_arith)
        requires
            a >= 0,
            b >= 0,
            c >= 0,
    ;
    law_integer_arithmetic(b as i64, c as i64);
    law_integer_arithmetic(a as i64, (b * c) as i64);
    law_integer_arithmetic(a as i64, b as i64);
    law_integer_arithmetic((a * b) as i64, c as i64);
    law_simple_forms(whole(a as int), Seq::empty(), input, env);
    law_simple_forms(whole(b as int), Seq::empty(), input, env);
    law_simple_forms(whole(c as int), Seq::empty(), input, env);
    let (va, vb, vc) = (whole(a as int), whole(b as int), whole(c as int));
    law_binary(BinOp::Mul, q, r, input, env, vb, vc);
    let right = Tree::Binary(BinOp::Mul, Box::new(q), Box::new(r));
    law_binary(BinOp::Add, p, right, input, env, va, whole((b * c) as int));
    law_binary(BinOp::Mul, p, q, input, env, va, vb);
    let left = Tree::Binary(BinOp::Mul, Box::new(p), Box::new(q));
    law_binary(BinOp::Add, left, r, input, env, whole((a * b) as int), vc);
}

/// The members that keys and values make, set one after the other.
proof fn lemma_single_objects(entries: Seq<(Seq<char>, Seq<Json>)>, m: Members)
    requires
        entries.len() == m.len(),
        forall|i: int|
            0 <= i < m.len() ==> #[trigger] entries[i] == (m[i].0, seq![m[i].1]),
    ensures
        objects_of(entries) == seq![merged(Seq::empty(), m)],
    decreases m.len(),
{
    let none = Seq::<(Seq<char>, Json)>::empty();
    if m.len() == 0 {
        assert(objects_of(entries) =~= seq![none]);
    } else {
        let (es, ms) = (entries.drop_last(), m.drop_last());
        assert forall|i: int| 0 <= i < ms.len() implies #[trigger] es[i] == (
            ms[i].0,
            seq![ms[i].1],
        ) by {
            assert(es[i] == entries[i] && ms[i] == m[i]);
        }
        lemma_single_objects(es, ms);
        let object = merged(none, ms);
        let n = m.len() - 1;
        assert(entries[n] == (m[n].0, seq![m[n].1]));
        let last = entries.last();
        let one = seq![object];
        assert(one.drop_last() =~= Seq::empty());
        assert(grown(one.drop_last(), last.0, last.1) =~= Seq::empty());
        assert(with_each(object, last.0, last.1) =~= seq![inserted(object, m[n].0, m[n].1)]);
        assert(grown(one, last.0, last.1) =~= seq![inserted(object, m[n].0, m[n].1)]);
    }
}

/// The entries of an object constructor whose keys are names and whose values are
/// single.
proof fn lemma_entries(
    entries: Seq<(Key, Tree)>,
    m: Members,
    input: Json,
    env: Members,
)
    requires
        entries.len() == m.len(),
        forall|i: int|
            0 <= i < m.len() ==> (#[trigger] entries[i]).0 == Key::Ident(m[i].0) && yields(
                entries[i].1,
                input,
                env,
                seq![m[i].1],
            ),
    ensures
        eval_entries(entries, input, env) == Ok::<Seq<(Seq<char>, Seq<Json>)>, Failure>(
            Seq::new(m.len(), |i: int| (m[i].0, seq![m[i].1])),
        ),
    decreases m.len(),
{
    let all = Seq::new(m.len(), |i: int| (m[i].0, seq![m[i].1]));
    if m.len() == 0 {
        assert(all =~= Seq::empty());
    } else {
        let (es, ms) = (entries.skip(1), m.skip(1));
        assert forall|i: int| 0 <= i < ms.len() implies (#[trigger] es[i]).0 == Key::Ident(
            ms[i].0,
        ) && yields(es[i].1, input, env, seq![ms[i].1]) by {
            assert(es[i] == entries[i + 1] && ms[i] == m[i + 1]);
        }
        lemma_entries(es, ms, input, env);
        let rest = Seq::new(ms.len(), |i: int| (ms[i].0, seq![ms[i].1]));
        assert(entries[0].0 == Key::Ident(m[0].0));
        assert(eval_key(entries[0].0, input, env) == Ok::<Seq<char>, Failure>(m[0].0));
        assert(seq![(m[0].0, seq![m[0].1])] + rest =~= all);
    }
}

/// An object constructor gives one object: each key has the value of the last entry with
/// that name, and no other key has one.
pub proof fn law_object(
    entries: Seq<(Key, Tree)>,
    m: Members,
    input: Json,
    env: Members,
    key: Seq<char>,
)
    requires
        entries.len() == m.len(),
        forall|i: int|
            0 <= i < m.len() ==> (#[trigger] entries[i]).0 == Key::Ident(m[i].0) && yields(
                entries[i].1,
                input,
                env,
                seq![m[i].1],
            ),
    ensures
        exists|made: Members|
            {
                &&& #[trigger] yields(
                    Tree::Object(entries),
                    input,
                    env,
                    seq![Json::Object(made)],
                )
                &&& forall|i: int|
                    0 <= i < m.len() && (#[trigger] m[i]).0 == key && (forall|j: int|
                        i < j < m.len() ==> (#[trigger] m[j]).0 != key) ==> lookup(made, key)
                        == Some(m[i].1)
                &&& (forall|i: int| 0 <= i < m.len() ==> (#[trigger] m[i]).0 != key) ==> lookup(
                    made,
                    key,
                ) is None
            },
{
    let none = Seq::<(Seq<char>, Json)>::empty();
    let made = merged(none, m);
    let es = Seq::new(m.len(), |i: int| (m[i].0, seq![m[i].1]));
    lemma_entries(entries, m, input, env);
    lemma_single_objects(es, m);
    assert(object_values(seq![made]) =~= seq![Json::Object(made)]);
    lemma_last_member(m, key);
    assert(yields(Tree::Object(entries), input, env, seq![Json::Object(made)]));
}

/// Of members that are set one after the other the last one with a key is found.
proof fn lemma_last_member(m: Members, key: Seq<char>)
    ensures
        forall|i: int|
            0 <= i < m.len() && (#[trigger] m[i]).0 == key && (forall|j: int|
                i < j < m.len() ==> (#[trigger] m[j]).0 != key) ==> lookup(
                merged(Seq::empty(), m),
                key,
            ) == Some(m[i].1),
        (forall|i: int| 0 <= i < m.len() ==> (#[trigger] m[i]).0 != key) ==> lookup(
            merged(Seq::empty(), m),
            key,
        ) is None,
    decreases m.len(),
{
    if m.len() > 0 {
        let head = m.drop_last();
        let n = m.len() - 1;
        lemma_last_member(head, key);
        lemma_inserted_lookup(merged(Seq::empty(), head), m.last().0, m.last().1, key);
        assert(m[n] == m.last());
        assert forall|i: int|
            0 <= i < m.len() && (#[trigger] m[i]).0 == key && (forall|j: int|
                i < j < m.len() ==> (#[trigger] m[j]).0 != key) implies lookup(
            merged(Seq::empty(), m),
            key,
        ) == Some(m[i].1) by {
            if i < n {
                assert(m[n].0 != key);
                assert(head[i] == m[i]);
                assert forall|j: int| i < j < head.len() implies (#[trigger] head[j]).0 != key by {
                    assert(m[j].0 != key);
                }
            }
        }
        if forall|i: int| 0 <= i < m.len() ==> (#[trigger] m[i]).0 != key {
            assert(m[n].0 != key);
            assert forall|i: int| 0 <= i < head.len() implies (#[trigger] head[i]).0 != key by {
                assert(m[i].0 != key);
            }
        }
    }
}

} // verus!
