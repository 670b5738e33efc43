//! What holds of the functions of the expression language.
//!
//! The laws speak of the stream of values that a call gives, [`eval_tree`] of
//! [`Tree::Call`].
use crate::double::{
    floored, is_finite, law_floor, law_integers_exact, magnitude, signed, truncated, value,
};
use crate::expressions::ast::{BinOp, Tree};
use crate::expressions::error::Failure;
use crate::expressions::eval::{
    Stream, argument_call, bounds_of, counts, eval_argument, eval_call, eval_each, eval_streams,
    eval_tree, f_add, f_affix, f_case, f_fabs, f_first, f_floor, f_has, f_join, f_keys, f_last,
    f_length, f_range, f_split, f_tonumber, f_trim, first_or_null, is_function, kept, only,
    plain_call, plain_texts, prefixed, takes_argument, total_from, type_word, value_or_null,
};
use crate::expressions::form_laws::{counts_as_true, law_each_input, yields};
use crate::expressions::literals::lemma_decimal_denotes;
use crate::expressions::operator_laws::whole;
use crate::expressions::operators::{
    all_leaves, any_inside, applied, each_inside, eval_failure, has_inside, is_equal, is_truthy,
    leaves, members_inside, sum_of, value_failure,
};
use crate::json::{Json, Members, Number, Object};
use crate::number::parsed_double;
use crate::text::{
    decimal, joined, law_split_and_join, lower, occurs, occurs_at, split_parts, upper,
};
use crate::value::{json_text, lemma_double_json, lookup, number_double, plain_text};
use vstd::arithmetic::div_mod::*;
use vstd::arithmetic::power2::*;
use vstd::prelude::*;

verus! {

/// What a call of a function gives.
pub open spec fn call(name: Seq<char>, args: Seq<Tree>, input: Json, env: Members) -> Stream {
    eval_tree(Tree::Call(name, args), input, env)
}

/// Whether a call gives one value.
pub open spec fn gives_one(
    name: Seq<char>,
    args: Seq<Tree>,
    input: Json,
    env: Members,
    v: Json,
) -> bool {
    call(name, args, input, env) == Ok::<Seq<Json>, Failure>(seq![v])
}

/// The text that stands for a value: a string for itself, any other by its notation.
pub open spec fn text_of_value(v: Json) -> Seq<char> {
    if v is String {
        v->String_0
    } else {
        json_text(v)
    }
}

/// The functions of the input alone, by their names.
proof fn lemma_plain_access(input: Json)
    ensures
        plain_call("length"@, input) == Some::<Stream>(f_length(input)),
        plain_call("keys"@, input) == Some::<Stream>(f_keys(input)),
        plain_call("tostring"@, input) == Some::<Stream>(only(Json::String(plain_text(input)))),
        plain_call("tonumber"@, input) == Some::<Stream>(f_tonumber(input)),
        plain_call("empty"@, input) == Some::<Stream>(Ok(Seq::empty())),
        plain_call("first"@, input) == Some::<Stream>(f_first(input)),
        plain_call("last"@, input) == Some::<Stream>(f_last(input)),
        plain_call("flatten"@, input) == Some::<Stream>(only(Json::Array(leaves(input)))),
{
    reveal_strlit("length");
    reveal_strlit("keys");
    reveal_strlit("tostring");
    reveal_strlit("tonumber");
    reveal_strlit("empty");
    reveal_strlit("first");
    reveal_strlit("last");
    reveal_strlit("flatten");
    assert("length"@.len() == 6 && "keys"@.len() == 4);
    assert("tostring"@.len() == 8 && "tonumber"@.len() == 8);
    assert("empty"@.len() == 5 && "first"@.len() == 5);
    assert("last"@.len() == 4 && "flatten"@.len() == 7);
    assert("tonumber"@[2] != "tostring"@[2]);
    assert("first"@[0] != "empty"@[0]);
    assert("last"@[0] != "keys"@[0]);
}

/// The functions of the input alone, by their names.
proof fn lemma_plain_shape(input: Json)
    ensures
        plain_call("add"@, input) == Some::<Stream>(f_add(input)),
        plain_call("type"@, input) == Some::<Stream>(only(Json::String(type_word(input)))),
        plain_call("not"@, input) == Some::<Stream>(only(Json::Bool(!is_truthy(input)))),
        plain_call("ascii_downcase"@, input) == Some::<Stream>(f_case(input, true)),
        plain_call("ascii_upcase"@, input) == Some::<Stream>(f_case(input, false)),
        plain_call("fabs"@, input) == Some::<Stream>(f_fabs(input)),
        plain_call("floor"@, input) == Some::<Stream>(f_floor(input)),
{
    reveal_strlit("length");
    reveal_strlit("keys");
    reveal_strlit("tostring");
    reveal_strlit("tonumber");
    reveal_strlit("empty");
    reveal_strlit("first");
    reveal_strlit("last");
    reveal_strlit("flatten");
    reveal_strlit("add");
    reveal_strlit("type");
    reveal_strlit("not");
    reveal_strlit("ascii_downcase");
    reveal_strlit("ascii_upcase");
    reveal_strlit("fabs");
    reveal_strlit("floor");
    assert("length"@.len() == 6 && "keys"@.len() == 4);
    assert("tostring"@.len() == 8 && "tonumber"@.len() == 8);
    assert("empty"@.len() == 5 && "first"@.len() == 5);
    assert("last"@.len() == 4 && "flatten"@.len() == 7);
    assert("add"@.len() == 3 && "type"@.len() == 4);
    assert("not"@.len() == 3 && "ascii_downcase"@.len() == 14);
    assert("ascii_upcase"@.len() == 12 && "fabs"@.len() == 4 && "floor"@.len() == 5);
    assert("type"@[0] != "keys"@[0]);
    assert("type"@[0] != "last"@[0]);
    assert("not"@[0] != "add"@[0]);
    assert("fabs"@[0] != "keys"@[0]);
    assert("fabs"@[0] != "last"@[0]);
    assert("fabs"@[0] != "type"@[0]);
    assert("floor"@[0] != "empty"@[0]);
    assert("floor"@[1] != "first"@[1]);
}

/// The functions of the input alone, by their names.
proof fn lemma_plain_filter(input: Json)
    ensures
        plain_call("values"@, input) == Some::<Stream>(kept(input, !(input is Null))),
        plain_call("arrays"@, input) == Some::<Stream>(kept(input, input is Array)),
        plain_call("objects"@, input) == Some::<Stream>(kept(input, input is Object)),
        plain_call("strings"@, input) == Some::<Stream>(kept(input, input is String)),
        plain_call("numbers"@, input) == Some::<Stream>(kept(input, input is Number)),
        plain_call("booleans"@, input) == Some::<Stream>(kept(input, input is Bool)),
        plain_call("nulls"@, input) == Some::<Stream>(kept(input, input is Null)),
{
    reveal_strlit("length");
    reveal_strlit("keys");
    reveal_strlit("tostring");
    reveal_strlit("tonumber");
    reveal_strlit("empty");
    reveal_strlit("first");
    reveal_strlit("last");
    reveal_strlit("flatten");
    reveal_strlit("add");
    reveal_strlit("type");
    reveal_strlit("not");
    reveal_strlit("ascii_downcase");
    reveal_strlit("ascii_upcase");
    reveal_strlit("fabs");
    reveal_strlit("floor");
    reveal_strlit("values");
    reveal_strlit("arrays");
    reveal_strlit("objects");
    reveal_strlit("strings");
    reveal_strlit("numbers");
    reveal_strlit("booleans");
    reveal_strlit("nulls");
    assert("length"@.len() == 6 && "keys"@.len() == 4);
    assert("tostring"@.len() == 8 && "tonumber"@.len() == 8);
    assert("empty"@.len() == 5 && "first"@.len() == 5);
    assert("last"@.len() == 4 && "flatten"@.len() == 7);
    assert("add"@.len() == 3 && "type"@.len() == 4);
    assert("not"@.len() == 3 && "ascii_downcase"@.len() == 14);
    assert("ascii_upcase"@.len() == 12 && "fabs"@.len() == 4);
    assert("floor"@.len() == 5 && "values"@.len() == 6);
    assert("arrays"@.len() == 6 && "objects"@.len() == 7);
    assert("strings"@.len() == 7 && "numbers"@.len() == 7);
    assert("booleans"@.len() == 8 && "nulls"@.len() == 5);
    assert("values"@[0] != "length"@[0]);
    assert("arrays"@[0] != "length"@[0]);
    assert("arrays"@[0] != "values"@[0]);
    assert("objects"@[0] != "flatten"@[0]);
    assert("strings"@[0] != "flatten"@[0]);
    assert("strings"@[0] != "objects"@[0]);
    assert("numbers"@[0] != "flatten"@[0]);
    assert("numbers"@[0] != "objects"@[0]);
    assert("numbers"@[0] != "strings"@[0]);
    assert("booleans"@[0] != "tostring"@[0]);
    assert("booleans"@[0] != "tonumber"@[0]);
    assert("nulls"@[0] != "empty"@[0]);
    assert("nulls"@[0] != "first"@[0]);
    assert("nulls"@[0] != "floor"@[0]);
}

/// The functions with an argument, by their names.
proof fn lemma_argument_names(input: Json, arg: Option<Json>)
    ensures
        plain_call("join"@, input) is None,
        argument_call("join"@, input, arg) == Some::<Stream>(f_join(input, arg)),
        plain_call("startswith"@, input) is None,
        argument_call("startswith"@, input, arg) == Some::<Stream>(f_affix(input, arg, true)),
        plain_call("endswith"@, input) is None,
        argument_call("endswith"@, input, arg) == Some::<Stream>(f_affix(input, arg, false)),
        plain_call("contains"@, input) is None,
        argument_call("contains"@, input, arg) == Some::<Stream>(only(Json::Bool(has_inside(input, value_or_null(arg))))),
        plain_call("split"@, input) is None,
        argument_call("split"@, input, arg) == Some::<Stream>(f_split(input, arg)),
        plain_call("has"@, input) is None,
        argument_call("has"@, input, arg) == Some::<Stream>(f_has(input, arg)),
        plain_call("ltrimstr"@, input) is None,
        argument_call("ltrimstr"@, input, arg) == Some::<Stream>(f_trim(input, arg, true)),
        plain_call("rtrimstr"@, input) is None,
        argument_call("rtrimstr"@, input, arg) == Some::<Stream>(f_trim(input, arg, false)),
{
    reveal_strlit("length");
    reveal_strlit("keys");
    reveal_strlit("tostring");
    reveal_strlit("tonumber");
    reveal_strlit("empty");
    reveal_strlit("first");
    reveal_strlit("last");
    reveal_strlit("flatten");
    reveal_strlit("add");
    reveal_strlit("type");
    reveal_strlit("not");
    reveal_strlit("ascii_downcase");
    reveal_strlit("ascii_upcase");
    reveal_strlit("fabs");
    reveal_strlit("floor");
    reveal_strlit("values");
    reveal_strlit("arrays");
    reveal_strlit("objects");
    reveal_strlit("strings");
    reveal_strlit("numbers");
    reveal_strlit("booleans");
    reveal_strlit("nulls");
    reveal_strlit("join");
    reveal_strlit("startswith");
    reveal_strlit("endswith");
    reveal_strlit("contains");
    reveal_strlit("split");
    reveal_strlit("has");
    reveal_strlit("ltrimstr");
    reveal_strlit("rtrimstr");
    assert("length"@.len() == 6 && "keys"@.len() == 4);
    assert("tostring"@.len() == 8 && "tonumber"@.len() == 8);
    assert("empty"@.len() == 5 && "first"@.len() == 5);
    assert("last"@.len() == 4 && "flatten"@.len() == 7);
    assert("add"@.len() == 3 && "type"@.len() == 4);
    assert("not"@.len() == 3 && "ascii_downcase"@.len() == 14);
    assert("ascii_upcase"@.len() == 12 && "fabs"@.len() == 4);
    assert("floor"@.len() == 5 && "values"@.len() == 6);
    assert("arrays"@.len() == 6 && "objects"@.len() == 7);
    assert("strings"@.len() == 7 && "numbers"@.len() == 7);
    assert("booleans"@.len() == 8 && "nulls"@.len() == 5);
    assert("join"@.len() == 4 && "startswith"@.len() == 10);
    assert("endswith"@.len() == 8 && "contains"@.len() == 8);
    assert("split"@.len() == 5 && "has"@.len() == 3);
    assert("ltrimstr"@.len() == 8 && "rtrimstr"@.len() == 8);
    assert("join"@[0] != "keys"@[0]);
    assert("join"@[0] != "last"@[0]);
    assert("join"@[0] != "type"@[0]);
    assert("join"@[0] != "fabs"@[0]);
    assert("endswith"@[0] != "tostring"@[0]);
    assert("endswith"@[0] != "tonumber"@[0]);
    assert("endswith"@[0] != "booleans"@[0]);
    assert("contains"@[0] != "tostring"@[0]);
    assert("contains"@[0] != "tonumber"@[0]);
    assert("contains"@[0] != "booleans"@[0]);
    assert("contains"@[0] != "endswith"@[0]);
    assert("split"@[0] != "empty"@[0]);
    assert("split"@[0] != "first"@[0]);
    assert("split"@[0] != "floor"@[0]);
    assert("split"@[0] != "nulls"@[0]);
    assert("has"@[0] != "add"@[0]);
    assert("has"@[0] != "not"@[0]);
    assert("ltrimstr"@[0] != "tostring"@[0]);
    assert("ltrimstr"@[0] != "tonumber"@[0]);
    assert("ltrimstr"@[0] != "booleans"@[0]);
    assert("ltrimstr"@[0] != "endswith"@[0]);
    assert("ltrimstr"@[0] != "contains"@[0]);
    assert("rtrimstr"@[0] != "tostring"@[0]);
    assert("rtrimstr"@[0] != "tonumber"@[0]);
    assert("rtrimstr"@[0] != "booleans"@[0]);
    assert("rtrimstr"@[0] != "endswith"@[0]);
    assert("rtrimstr"@[0] != "contains"@[0]);
    assert("rtrimstr"@[0] != "ltrimstr"@[0]);
}

/// The functions that evaluate their arguments, by their names.
proof fn lemma_higher_names(input: Json)
    ensures
        plain_call("map"@, input) is None && !takes_argument("map"@),
        plain_call("select"@, input) is None && !takes_argument("select"@),
        plain_call("range"@, input) is None && !takes_argument("range"@),
        plain_call("error"@, input) is None && !takes_argument("error"@),
        "error"@ != "range"@ && "error"@ != "map"@ && "error"@ != "select"@,
        "range"@ != "map"@ && "range"@ != "select"@ && "select"@ != "map"@,
{
    reveal_strlit("length");
    reveal_strlit("keys");
    reveal_strlit("tostring");
    reveal_strlit("tonumber");
    reveal_strlit("empty");
    reveal_strlit("first");
    reveal_strlit("last");
    reveal_strlit("flatten");
    reveal_strlit("add");
    reveal_strlit("type");
    reveal_strlit("not");
    reveal_strlit("ascii_downcase");
    reveal_strlit("ascii_upcase");
    reveal_strlit("fabs");
    reveal_strlit("floor");
    reveal_strlit("values");
    reveal_strlit("arrays");
    reveal_strlit("objects");
    reveal_strlit("strings");
    reveal_strlit("numbers");
    reveal_strlit("booleans");
    reveal_strlit("nulls");
    reveal_strlit("join");
    reveal_strlit("startswith");
    reveal_strlit("endswith");
    reveal_strlit("contains");
    reveal_strlit("split");
    reveal_strlit("has");
    reveal_strlit("ltrimstr");
    reveal_strlit("rtrimstr");
    reveal_strlit("map");
    reveal_strlit("select");
    reveal_strlit("range");
    reveal_strlit("error");
    assert("length"@.len() == 6 && "keys"@.len() == 4);
    assert("tostring"@.len() == 8 && "tonumber"@.len() == 8);
    assert("empty"@.len() == 5 && "first"@.len() == 5);
    assert("last"@.len() == 4 && "flatten"@.len() == 7);
    assert("add"@.len() == 3 && "type"@.len() == 4);
    assert("not"@.len() == 3 && "ascii_downcase"@.len() == 14);
    assert("ascii_upcase"@.len() == 12 && "fabs"@.len() == 4);
    assert("floor"@.len() == 5 && "values"@.len() == 6);
    assert("arrays"@.len() == 6 && "objects"@.len() == 7);
    assert("strings"@.len() == 7 && "numbers"@.len() == 7);
    assert("booleans"@.len() == 8 && "nulls"@.len() == 5);
    assert("join"@.len() == 4 && "startswith"@.len() == 10);
    assert("endswith"@.len() == 8 && "contains"@.len() == 8);
    assert("split"@.len() == 5 && "has"@.len() == 3);
    assert("ltrimstr"@.len() == 8 && "rtrimstr"@.len() == 8);
    assert("map"@.len() == 3 && "select"@.len() == 6);
    assert("range"@.len() == 5 && "error"@.len() == 5);
    assert("map"@[0] != "add"@[0]);
    assert("map"@[0] != "not"@[0]);
    assert("map"@[0] != "has"@[0]);
    assert("select"@[0] != "length"@[0]);
    assert("select"@[0] != "values"@[0]);
    assert("select"@[0] != "arrays"@[0]);
    assert("range"@[0] != "empty"@[0]);
    assert("range"@[0] != "first"@[0]);
    assert("range"@[0] != "floor"@[0]);
    assert("range"@[0] != "nulls"@[0]);
    assert("range"@[0] != "split"@[0]);
    assert("error"@[1] != "empty"@[1]);
    assert("error"@[0] != "first"@[0]);
    assert("error"@[0] != "floor"@[0]);
    assert("error"@[0] != "nulls"@[0]);
    assert("error"@[0] != "split"@[0]);
    assert("error"@[0] != "range"@[0]);
}

/// A call of a function of the input alone.
proof fn lemma_plain(name: Seq<char>, args: Seq<Tree>, input: Json, env: Members, s: Stream)
    requires
        plain_call(name, input) == Some(s),
    ensures
        call(name, args, input, env) == s,
{
    assert(eval_call(name, args, input, env) == s);
}

/// A call of a function with an argument.
proof fn lemma_argument(
    name: Seq<char>,
    args: Seq<Tree>,
    input: Json,
    env: Members,
    v: Json,
    s: Stream,
)
    requires
        plain_call(name, input) is None,
        argument_call(name, Json::Null, None) is Some,
        argument_call(name, input, Some(v)) == Some(s),
        args.len() > 0,
        yields(args[0], input, env, seq![v]),
    ensures
        call(name, args, input, env) == s,
{
    assert(eval_argument(args, input, env) == Ok::<Option<Json>, Failure>(Some(v)));
    assert(eval_call(name, args, input, env) == s);
}

// ---------------------------------------------------------------------------
// Sizes, keys and conversions
// ---------------------------------------------------------------------------

/// `length` gives the number of items, members or characters, the absolute value of an
/// integer, and zero for null. A boolean has no length.
pub proof fn law_length(args: Seq<Tree>, input: Json, env: Members)
    ensures
        input matches Json::Array(items) ==> items.len() < 0x20_0000_0000_0000 ==> gives_one(
            "length"@,
            args,
            input,
            env,
            whole(items.len() as int),
        ),
        input matches Json::Object(m) ==> m.len() < 0x20_0000_0000_0000 ==> gives_one(
            "length"@,
            args,
            input,
            env,
            whole(m.len() as int),
        ),
        input matches Json::String(s) ==> s.len() < 0x20_0000_0000_0000 ==> gives_one(
            "length"@,
            args,
            input,
            env,
            whole(s.len() as int),
        ),
        input is Null ==> gives_one("length"@, args, input, env, whole(0)),
        input is Bool ==> call("length"@, args, input, env) == Err::<Seq<Json>, Failure>(
            Failure::TypeError { message: "length of unsupported type"@ },
        ),
{
    lemma_plain_access(input);
    lemma_plain("length"@, args, input, env, f_length(input));
    match input {
        Json::Array(items) => {
            if items.len() < 0x20_0000_0000_0000 {
                law_integers_exact(items.len() as int);
            }
        },
        Json::Object(m) => {
            if m.len() < 0x20_0000_0000_0000 {
                law_integers_exact(m.len() as int);
            }
        },
        Json::String(s) => {
            if s.len() < 0x20_0000_0000_0000 {
                law_integers_exact(s.len() as int);
            }
        },
        _ => law_integers_exact(0),
    }
}

/// `keys` gives the keys of an object in order, or the indices of an array; no other
/// value has keys.
pub proof fn law_keys(args: Seq<Tree>, input: Json, env: Members)
    ensures
        input matches Json::Object(m) ==> gives_one(
            "keys"@,
            args,
            input,
            env,
            Json::Array(Seq::new(m.len(), |i: int| Json::String(m[i].0))),
        ),
        input matches Json::Array(items) ==> items.len() < 0x20_0000_0000_0000 ==> gives_one(
            "keys"@,
            args,
            input,
            env,
            Json::Array(Seq::new(items.len(), |i: int| whole(i))),
        ),
        !(input is Object) && !(input is Array) ==> call("keys"@, args, input, env) == Err::<
            Seq<Json>,
            Failure,
        >(Failure::TypeError { message: "keys of non-object/array"@ }),
{
    lemma_plain_access(input);
    lemma_plain("keys"@, args, input, env, f_keys(input));
    match input {
        Json::Object(m) => {
            assert(m.map_values(|e: (Seq<char>, Json)| Json::String(e.0)) =~= Seq::new(
                m.len(),
                |i: int| Json::String(m[i].0),
            ));
        },
        Json::Array(items) => {
            if items.len() < 0x20_0000_0000_0000 {
                lemma_counts(0, items.len() as int);
                assert(counts(0, items.len() as int) =~= Seq::new(
                    items.len(),
                    |i: int| whole(i),
                ));
            }
        },
        _ => {},
    }
}

/// Counted integers are integers.
proof fn lemma_counts(a: int, b: int)
    requires
        -0x20_0000_0000_0000 < a,
        b < 0x20_0000_0000_0000,
    ensures
        counts(a, b).len() == if a < b {
            b - a
        } else {
            0
        },
        forall|i: int| 0 <= i < counts(a, b).len() ==> #[trigger] counts(a, b)[i] == whole(a + i),
{
    assert forall|i: int| 0 <= i < counts(a, b).len() implies #[trigger] counts(a, b)[i] == whole(
        a + i,
    ) by {
        law_integers_exact(a + i);
    }
}

/// `range` counts from zero, or from its first argument, up to the next one and without
/// it.
pub proof fn law_range(args: Seq<Tree>, input: Json, env: Members, a: int, b: int)
    requires
        -0x20_0000_0000_0000 < a < 0x20_0000_0000_0000,
        -0x20_0000_0000_0000 < b < 0x20_0000_0000_0000,
    ensures
        args.len() == 1 && yields(args[0], input, env, seq![whole(b)]) ==> call(
            "range"@,
            args,
            input,
            env,
        ) == Ok::<Seq<Json>, Failure>(
            Seq::new(
                if 0 < b {
                    b as nat
                } else {
                    0
                },
                |i: int| whole(i),
            ),
        ),
        args.len() == 2 && yields(args[0], input, env, seq![whole(a)]) && yields(
            args[1],
            input,
            env,
            seq![whole(b)],
        ) ==> call("range"@, args, input, env) == Ok::<Seq<Json>, Failure>(
            Seq::new(
                if a < b {
                    (b - a) as nat
                } else {
                    0
                },
                |i: int| whole(a + i),
            ),
        ),
{
    lemma_higher_names(input);
    law_integers_exact(a);
    law_integers_exact(b);
    let nothing = Seq::<Seq<Json>>::empty();
    if args.len() == 1 && yields(args[0], input, env, seq![whole(b)]) {
        lemma_last_stream(args, input, env, seq![whole(b)]);
        let streams = seq![seq![whole(b)]];
        lemma_bound(nothing, Seq::empty(), b);
        assert(nothing.push(seq![whole(b)]) =~= streams);
        assert(eval_call("range"@, args, input, env) == f_range(streams));
        lemma_counts(0, b);
        assert(counts(0, b) =~= Seq::new(
            if 0 < b {
                b as nat
            } else {
                0
            },
            |i: int| whole(i),
        ));
    }
    if args.len() == 2 && yields(args[0], input, env, seq![whole(a)]) && yields(
        args[1],
        input,
        env,
        seq![whole(b)],
    ) {
        let tail = args.skip(1);
        let (x, y) = (seq![whole(a)], seq![whole(b)]);
        assert(tail[0] == args[1]);
        lemma_last_stream(tail, input, env, y);
        let streams = seq![x, y];
        assert(seq![x] + seq![y] =~= streams);
        assert(eval_streams(args, input, env) == Ok::<Seq<Seq<Json>>, Failure>(streams));
        lemma_bound(nothing, Seq::empty(), a);
        assert(nothing.push(x) =~= seq![x]);
        lemma_bound(seq![x], Seq::empty().push(a), b);
        assert(seq![x].push(y) =~= streams);
        assert(eval_call("range"@, args, input, env) == f_range(streams));
        lemma_counts(a, b);
        assert(counts(a, b) =~= Seq::new(
            if a < b {
                (b - a) as nat
            } else {
                0
            },
            |i: int| whole(a + i),
        ));
    }
}

/// The stream of one argument.
proof fn lemma_last_stream(args: Seq<Tree>, input: Json, env: Members, s: Seq<Json>)
    requires
        args.len() == 1,
        yields(args[0], input, env, s),
    ensures
        eval_streams(args, input, env) == Ok::<Seq<Seq<Json>>, Failure>(seq![s]),
{
    let none = Seq::<Tree>::empty();
    assert(args.skip(1) =~= none);
    assert(eval_streams(none, input, env) == Ok::<Seq<Seq<Json>>, Failure>(Seq::empty()));
    assert(seq![s] + Seq::<Seq<Json>>::empty() =~= seq![s]);
}

/// One more bound that is an integer.
proof fn lemma_bound(streams: Seq<Seq<Json>>, bounds: Seq<int>, b: int)
    requires
        streams.len() == 0 ==> bounds.len() == 0,
        streams.len() > 0 ==> bounds_of(streams) == Some(bounds),
        -0x20_0000_0000_0000 < b < 0x20_0000_0000_0000,
    ensures
        bounds_of(streams.push(seq![whole(b)])) == Some(bounds.push(b)),
{
    law_integers_exact(b);
    let all = streams.push(seq![whole(b)]);
    assert(all.drop_last() =~= streams);
    assert(all.last() == seq![whole(b)]);
    assert(first_or_null(all.last()) == whole(b));
    if streams.len() == 0 {
        assert(bounds =~= Seq::empty());
    }
}

/// `tostring` gives a string for itself and any other value by its JSON text; `type`
/// names the kind of a value.
pub proof fn law_text_and_type(args: Seq<Tree>, input: Json, env: Members)
    ensures
        gives_one("tostring"@, args, input, env, Json::String(text_of_value(input))),
        input is Null ==> gives_one("type"@, args, input, env, Json::String("null"@)),
        input is Bool ==> gives_one("type"@, args, input, env, Json::String("boolean"@)),
        input is Number ==> gives_one("type"@, args, input, env, Json::String("number"@)),
        input is String ==> gives_one("type"@, args, input, env, Json::String("string"@)),
        input is Array ==> gives_one("type"@, args, input, env, Json::String("array"@)),
        input is Object ==> gives_one("type"@, args, input, env, Json::String("object"@)),
        gives_one("not"@, args, input, env, Json::Bool(!counts_as_true(input))),
{
    lemma_plain_access(input);
    lemma_plain_shape(input);
    lemma_plain("tostring"@, args, input, env, only(Json::String(plain_text(input))));
    lemma_plain("type"@, args, input, env, only(Json::String(type_word(input))));
    lemma_plain("not"@, args, input, env, only(Json::Bool(!is_truthy(input))));
}

/// `tonumber` gives an integer for itself, reads the decimal notation of one, gives one
/// for true and zero for false, and fails on null, arrays and objects.
pub proof fn law_tonumber(args: Seq<Tree>, n: int, k: nat, v: Json, env: Members)
    requires
        -0x20_0000_0000_0000 < n < 0x20_0000_0000_0000,
        k < 0x20_0000_0000_0000,
    ensures
        gives_one("tonumber"@, args, whole(n), env, whole(n)),
        gives_one("tonumber"@, args, Json::String(decimal(k)), env, whole(k as int)),
        gives_one("tonumber"@, args, Json::Bool(true), env, whole(1)),
        gives_one("tonumber"@, args, Json::Bool(false), env, whole(0)),
        v is Null || v is Array || v is Object ==> call("tonumber"@, args, v, env) == Err::<
            Seq<Json>,
            Failure,
        >(Failure::TypeError { message: "cannot convert `"@ + json_text(v) + "` to number"@ }),
        v matches Json::String(s) ==> parsed_double(s) is None ==> call("tonumber"@, args, v, env)
            == Err::<Seq<Json>, Failure>(
            Failure::Eval { message: "cannot parse `"@ + s + "` as a number"@ },
        ),
{
    law_integers_exact(n);
    law_integers_exact(k as int);
    law_integers_exact(1);
    law_integers_exact(0);
    lemma_decimal_denotes(k);
    let text = Json::String(decimal(k));
    lemma_plain_access(whole(n));
    lemma_plain("tonumber"@, args, whole(n), env, f_tonumber(whole(n)));
    lemma_plain_access(text);
    lemma_plain("tonumber"@, args, text, env, f_tonumber(text));
    lemma_plain_access(Json::Bool(true));
    lemma_plain("tonumber"@, args, Json::Bool(true), env, f_tonumber(Json::Bool(true)));
    lemma_plain_access(Json::Bool(false));
    lemma_plain("tonumber"@, args, Json::Bool(false), env, f_tonumber(Json::Bool(false)));
    lemma_plain_access(v);
    lemma_plain("tonumber"@, args, v, env, f_tonumber(v));
}

/// `fabs` and `floor` of a finite double: the absolute value, and the largest integer
/// that is not above. Values are in units of 2^-1074.
pub proof fn law_fabs_and_floor(args: Seq<Tree>, bits: u64, v: Json, env: Members)
    requires
        is_finite(bits),
    ensures
        ({
            let input = Json::Number(Number::Float(bits));
            let unit = pow2(1074) as int;
            let x = call("fabs"@, args, input, env)->Ok_0[0];
            let y = call("floor"@, args, input, env)->Ok_0[0];
            &&& gives_one("fabs"@, args, input, env, x) && x is Number
            &&& value(number_double(x->Number_0)) == if value(bits) < 0 {
                -value(bits)
            } else {
                value(bits)
            }
            &&& gives_one("floor"@, args, input, env, y) && y is Number
            &&& value(number_double(y->Number_0)) % unit == 0
            &&& value(number_double(y->Number_0)) <= value(bits)
            &&& value(bits) < value(number_double(y->Number_0)) + unit
        }),
        !(v is Number) ==> call("fabs"@, args, v, env) is Err && call("floor"@, args, v, env)
            is Err,
{
    let input = Json::Number(Number::Float(bits));
    lemma_plain_shape(input);
    lemma_plain("fabs"@, args, input, env, f_fabs(input));
    lemma_plain("floor"@, args, input, env, f_floor(input));
    lemma_double_json(signed(false, magnitude(bits)));
    law_floor(bits);
    lemma_double_json(floored(bits));
    lemma_plain_shape(v);
    lemma_plain("fabs"@, args, v, env, f_fabs(v));
    lemma_plain("floor"@, args, v, env, f_floor(v));
}

/// `ascii_downcase` and `ascii_upcase` change the letters of ASCII and nothing else, and
/// fail on what is no string.
pub proof fn law_ascii_case(args: Seq<Tree>, input: Json, env: Members)
    ensures
        input matches Json::String(s) ==> {
            &&& gives_one(
                "ascii_downcase"@,
                args,
                input,
                env,
                Json::String(
                    Seq::new(
                        s.len(),
                        |i: int|
                            if 'A' <= s[i] <= 'Z' {
                                ((s[i] as u32) + 32) as char
                            } else {
                                s[i]
                            },
                    ),
                ),
            )
            &&& gives_one(
                "ascii_upcase"@,
                args,
                input,
                env,
                Json::String(
                    Seq::new(
                        s.len(),
                        |i: int|
                            if 'a' <= s[i] <= 'z' {
                                ((s[i] as u32) - 32) as char
                            } else {
                                s[i]
                            },
                    ),
                ),
            )
        },
        !(input is String) ==> call("ascii_downcase"@, args, input, env) is Err && call(
            "ascii_upcase"@,
            args,
            input,
            env,
        ) is Err,
{
    lemma_plain_shape(input);
    lemma_plain("ascii_downcase"@, args, input, env, f_case(input, true));
    lemma_plain("ascii_upcase"@, args, input, env, f_case(input, false));
    match input {
        Json::String(s) => {
            assert(s.map_values(|c: char| lower(c)) =~= Seq::new(
                s.len(),
                |i: int|
                    if 'A' <= s[i] <= 'Z' {
                        ((s[i] as u32) + 32) as char
                    } else {
                        s[i]
                    },
            ));
            assert(s.map_values(|c: char| upper(c)) =~= Seq::new(
                s.len(),
                |i: int|
                    if 'a' <= s[i] <= 'z' {
                        ((s[i] as u32) - 32) as char
                    } else {
                        s[i]
                    },
            ));
        },
        _ => {},
    }
}

// ---------------------------------------------------------------------------
// Selections
// ---------------------------------------------------------------------------

/// `empty` gives nothing; `first` and `last` give the first and the last item of an
/// array, null where it has none, and any other value itself.
pub proof fn law_ends(args: Seq<Tree>, input: Json, env: Members)
    ensures
        call("empty"@, args, input, env) == Ok::<Seq<Json>, Failure>(Seq::empty()),
        input matches Json::Array(items) ==> {
            &&& gives_one(
                "first"@,
                args,
                input,
                env,
                if items.len() > 0 {
                    items[0]
                } else {
                    Json::Null
                },
            )
            &&& gives_one(
                "last"@,
                args,
                input,
                env,
                if items.len() > 0 {
                    items[items.len() - 1]
                } else {
                    Json::Null
                },
            )
        },
        !(input is Array) ==> gives_one("first"@, args, input, env, input) && gives_one(
            "last"@,
            args,
            input,
            env,
            input,
        ),
{
    lemma_plain_access(input);
    lemma_plain("empty"@, args, input, env, Ok(Seq::empty()));
    lemma_plain("first"@, args, input, env, f_first(input));
    lemma_plain("last"@, args, input, env, f_last(input));
}

/// Whether a call hands on its input where a condition holds, and gives nothing where
/// it does not.
pub open spec fn keeps_if(
    name: Seq<char>,
    args: Seq<Tree>,
    input: Json,
    env: Members,
    condition: bool,
) -> bool {
    call(name, args, input, env) == Ok::<Seq<Json>, Failure>(
        if condition {
            seq![input]
        } else {
            Seq::empty()
        },
    )
}

/// The functions that keep values of one kind.
pub proof fn law_kinds_are_kept(args: Seq<Tree>, input: Json, env: Members)
    ensures
        keeps_if("values"@, args, input, env, !(input is Null)),
        keeps_if("arrays"@, args, input, env, input is Array),
        keeps_if("objects"@, args, input, env, input is Object),
        keeps_if("strings"@, args, input, env, input is String),
        keeps_if("numbers"@, args, input, env, input is Number),
        keeps_if("booleans"@, args, input, env, input is Bool),
        keeps_if("nulls"@, args, input, env, input is Null),
{
    lemma_plain_filter(input);
    lemma_plain("values"@, args, input, env, kept(input, !(input is Null)));
    lemma_plain("arrays"@, args, input, env, kept(input, input is Array));
    lemma_plain("objects"@, args, input, env, kept(input, input is Object));
    lemma_plain("strings"@, args, input, env, kept(input, input is String));
    lemma_plain("numbers"@, args, input, env, kept(input, input is Number));
    lemma_plain("booleans"@, args, input, env, kept(input, input is Bool));
    lemma_plain("nulls"@, args, input, env, kept(input, input is Null));
}

/// `select` keeps its input where the first value of its filter counts as true.
pub proof fn law_select(args: Seq<Tree>, input: Json, env: Members, s: Seq<Json>)
    requires
        args.len() > 0,
        yields(args[0], input, env, s),
    ensures
        keeps_if("select"@, args, input, env, s.len() > 0 && counts_as_true(s[0])),
{
    lemma_higher_names(input);
    assert(eval_call("select"@, args, input, env) == kept(input, is_truthy(first_or_null(s))));
}

/// `map` gives one array of what its filter gives on each item, in order.
pub proof fn law_map(
    args: Seq<Tree>,
    items: Seq<Json>,
    env: Members,
    outs: Seq<Json>,
    v: Json,
)
    requires
        args.len() > 0,
        items.len() == outs.len(),
        forall|i: int|
            0 <= i < items.len() ==> yields(args[0], #[trigger] items[i], env, seq![outs[i]]),
    ensures
        gives_one("map"@, args, Json::Array(items), env, Json::Array(outs)),
        !(v is Array) ==> call("map"@, args, v, env) == Err::<Seq<Json>, Failure>(
            Failure::TypeError { message: "map expects an array, got `"@ + json_text(v) + "`"@ },
        ),
{
    let input = Json::Array(items);
    lemma_higher_names(input);
    lemma_higher_names(v);
    law_each_input(args[0], items, env, outs);
    assert(eval_call("map"@, args, input, env) == only(Json::Array(outs)));
    if !(v is Array) {
        assert(eval_call("map"@, args, v, env) == Err::<Seq<Json>, Failure>(
            value_failure("map expects an array, got `"@, v),
        ));
    }
}

/// Mapping a selection over an array keeps exactly the items on which the condition
/// holds, in order.
pub proof fn law_map_select(
    condition: Tree,
    items: Seq<Json>,
    env: Members,
    test: spec_fn(Json) -> bool,
)
    requires
        forall|i: int|
            0 <= i < items.len() ==> yields(
                condition,
                #[trigger] items[i],
                env,
                seq![Json::Bool(test(items[i]))],
            ),
    ensures
        gives_one(
            "map"@,
            seq![Tree::Call("select"@, seq![condition])],
            Json::Array(items),
            env,
            Json::Array(items.filter(test)),
        ),
{
    let input = Json::Array(items);
    let pick = Tree::Call("select"@, seq![condition]);
    lemma_higher_names(input);
    lemma_picked(condition, items, env, test);
    assert(eval_call("map"@, seq![pick], input, env) == only(Json::Array(items.filter(test))));
}

/// A selection on each of some inputs.
proof fn lemma_picked(
    condition: Tree,
    items: Seq<Json>,
    env: Members,
    test: spec_fn(Json) -> bool,
)
    requires
        forall|i: int|
            0 <= i < items.len() ==> yields(
                condition,
                #[trigger] items[i],
                env,
                seq![Json::Bool(test(items[i]))],
            ),
    ensures
        eval_each(Tree::Call("select"@, seq![condition]), items, env) == Ok::<Seq<Json>, Failure>(
            items.filter(test),
        ),
    decreases items.len(),
{
    let pick = Tree::Call("select"@, seq![condition]);
    if items.len() == 0 {
        reveal(Seq::filter);
        assert(items.filter(test) =~= Seq::empty());
    } else {
        let rest = items.skip(1);
        assert forall|i: int| 0 <= i < rest.len() implies yields(
            condition,
            #[trigger] rest[i],
            env,
            seq![Json::Bool(test(rest[i]))],
        ) by {
            assert(rest[i] == items[i + 1]);
        }
        lemma_picked(condition, rest, env, test);
        let v = items[0];
        assert(yields(condition, v, env, seq![Json::Bool(test(v))]));
        law_select(seq![condition], v, env, seq![Json::Bool(test(v))]);
        assert(items =~= seq![v] + rest);
        lemma_filter_front(v, rest, test);
        assert(eval_each(pick, items, env) == prefixed(
            call("select"@, seq![condition], v, env)->Ok_0,
            eval_each(pick, rest, env),
        ));
    }
}

/// Filtering a list from its front.
proof fn lemma_filter_front(v: Json, rest: Seq<Json>, test: spec_fn(Json) -> bool)
    ensures
        (seq![v] + rest).filter(test) == (if test(v) {
            seq![v]
        } else {
            Seq::empty()
        }) + rest.filter(test),
    decreases rest.len(),
{
    reveal(Seq::filter);
    let head = if test(v) {
        seq![v]
    } else {
        Seq::empty()
    };
    let all = seq![v] + rest;
    if rest.len() == 0 {
        assert(all.drop_last() =~= Seq::empty());
        assert(all.drop_last().filter(test) =~= Seq::empty());
        assert(all.last() == v);
        assert(all.filter(test) =~= head);
        assert(rest.filter(test) =~= Seq::empty());
        assert(head + rest.filter(test) =~= head);
    } else {
        lemma_filter_front(v, rest.drop_last(), test);
        assert(all.drop_last() =~= seq![v] + rest.drop_last());
        assert(all.last() == rest.last());
        assert(all.filter(test) =~= head + rest.filter(test));
    }
}

/// `error` fails with the text of its argument, or of its input where it has none.
pub proof fn law_error(args: Seq<Tree>, input: Json, env: Members, v: Json)
    ensures
        call("error"@, Seq::empty(), input, env) == Err::<Seq<Json>, Failure>(
            Failure::Eval { message: text_of_value(input) },
        ),
        args.len() > 0 && yields(args[0], input, env, seq![v]) ==> call("error"@, args, input, env)
            == Err::<Seq<Json>, Failure>(Failure::Eval { message: text_of_value(v) }),
{
    lemma_higher_names(input);
    let none = Seq::<Tree>::empty();
    assert(eval_call("error"@, none, input, env) == Err::<Seq<Json>, Failure>(
        eval_failure(plain_text(input)),
    ));
    if args.len() > 0 && yields(args[0], input, env, seq![v]) {
        assert(eval_call("error"@, args, input, env) == Err::<Seq<Json>, Failure>(
            eval_failure(plain_text(v)),
        ));
    }
}

// ---------------------------------------------------------------------------
// Sums and nested arrays
// ---------------------------------------------------------------------------

/// `add` of no items is null, and with one more item is the sum so far and that item;
/// any other value than an array is its own sum.
pub proof fn law_add(args: Seq<Tree>, items: Seq<Json>, v: Json, env: Members)
    ensures
        gives_one("add"@, args, Json::Array(Seq::empty()), env, Json::Null),
        call("add"@, args, Json::Array(items), env) matches Ok(s) ==> s.len() == 1,
        call("add"@, args, Json::Array(items), env) is Ok ==> call(
            "add"@,
            args,
            Json::Array(items.push(v)),
            env,
        ) == (match applied(
            BinOp::Add,
            call("add"@, args, Json::Array(items), env)->Ok_0[0],
            v,
        ) {
            Ok(w) => Ok::<Seq<Json>, Failure>(seq![w]),
            Err(e) => Err(e),
        }),
        !(v is Array) ==> gives_one("add"@, args, v, env, v),
{
    let none = Json::Array(Seq::<Json>::empty());
    let (a, b) = (Json::Array(items), Json::Array(items.push(v)));
    lemma_plain_shape(none);
    lemma_plain("add"@, args, none, env, f_add(none));
    lemma_plain_shape(a);
    lemma_plain("add"@, args, a, env, f_add(a));
    lemma_plain_shape(b);
    lemma_plain("add"@, args, b, env, f_add(b));
    lemma_plain_shape(v);
    lemma_plain("add"@, args, v, env, f_add(v));
    lemma_total_push(Json::Null, items, v);
}

/// The sum with one more item.
proof fn lemma_total_push(acc: Json, items: Seq<Json>, v: Json)
    ensures
        total_from(acc, items.push(v)) == (match total_from(acc, items) {
            Ok(t) => sum_of(t, v),
            Err(e) => Err(e),
        }),
    decreases items.len(),
{
    let all = items.push(v);
    if items.len() == 0 {
        assert(all[0] == v);
        assert(all.skip(1) =~= Seq::empty());
        match sum_of(acc, v) {
            Ok(t) => assert(total_from(t, all.skip(1)) == Ok::<Json, Failure>(t)),
            Err(_) => {},
        }
    } else {
        assert(all[0] == items[0]);
        assert(all.skip(1) =~= items.skip(1).push(v));
        match sum_of(acc, items[0]) {
            Ok(t) => lemma_total_push(t, items.skip(1), v),
            Err(_) => {},
        }
    }
}

/// The array that `flatten` gives.
pub open spec fn flat(v: Json, env: Members) -> Seq<Json> {
    call("flatten"@, Seq::empty(), v, env)->Ok_0[0]->Array_0
}

/// `flatten` gives one array without arrays in it: an item that is no array stays, one
/// that is an array gives its own items, at every depth, and the order is kept.
pub proof fn law_flatten(x: Seq<Json>, y: Seq<Json>, v: Json, env: Members)
    ensures
        gives_one("flatten"@, Seq::empty(), v, env, Json::Array(flat(v, env))),
        forall|i: int| 0 <= i < flat(v, env).len() ==> !(#[trigger] flat(v, env)[i] is Array),
        !(v is Array) ==> flat(Json::Array(seq![v]), env) == seq![v],
        flat(Json::Array(seq![Json::Array(x)]), env) == flat(Json::Array(x), env),
        flat(Json::Array(Seq::empty()), env) == Seq::<Json>::empty(),
        flat(Json::Array(x + y), env) == flat(Json::Array(x), env) + flat(Json::Array(y), env),
{
    lemma_flat(v, env);
    lemma_no_arrays(v);
    let none = Seq::<Json>::empty();
    lemma_flat(Json::Array(seq![v]), env);
    lemma_flat(Json::Array(none), env);
    lemma_flat(Json::Array(x), env);
    lemma_flat(Json::Array(y), env);
    lemma_flat(Json::Array(x + y), env);
    lemma_flat(Json::Array(seq![Json::Array(x)]), env);
    assert(all_leaves(none) =~= none);
    assert(seq![v].drop_last() =~= none);
    assert(seq![Json::Array(x)].drop_last() =~= none);
    assert(none + leaves(v) =~= leaves(v));
    assert(none + leaves(Json::Array(x)) =~= leaves(Json::Array(x)));
    assert(all_leaves(seq![Json::Array(x)]) == leaves(Json::Array(x)));
    assert(all_leaves(seq![v]) == leaves(v));
    lemma_leaves_concat(x, y);
}

/// What `flatten` gives are the leaves of a value.
proof fn lemma_flat(v: Json, env: Members)
    ensures
        gives_one("flatten"@, Seq::empty(), v, env, Json::Array(flat(v, env))),
        flat(v, env) == leaves(v),
{
    lemma_plain_access(v);
    lemma_plain("flatten"@, Seq::empty(), v, env, only(Json::Array(leaves(v))));
    assert(seq![Json::Array(leaves(v))][0] == Json::Array(leaves(v)));
}

/// No leaf is an array.
proof fn lemma_no_arrays(v: Json)
    ensures
        forall|i: int| 0 <= i < leaves(v).len() ==> !(#[trigger] leaves(v)[i] is Array),
    decreases v, 0nat,
{
    match v {
        Json::Array(items) => lemma_no_item_arrays(items),
        _ => {},
    }
}

/// No leaf of some items is an array.
proof fn lemma_no_item_arrays(items: Seq<Json>)
    ensures
        forall|i: int|
            0 <= i < all_leaves(items).len() ==> !(#[trigger] all_leaves(items)[i] is Array),
    decreases items, 1nat,
{
    if items.len() > 0 {
        lemma_no_item_arrays(items.drop_last());
        lemma_no_arrays(items.last());
        let (a, b) = (all_leaves(items.drop_last()), leaves(items.last()));
        assert forall|i: int| 0 <= i < (a + b).len() implies !(#[trigger] (a + b)[i] is Array) by {
            if i < a.len() {
                assert(!(a[i] is Array));
            } else {
                assert(!(b[i - a.len()] is Array));
            }
        }
    }
}

/// The leaves of two lists are those of the first and those of the second.
proof fn lemma_leaves_concat(x: Seq<Json>, y: Seq<Json>)
    ensures
        all_leaves(x + y) == all_leaves(x) + all_leaves(y),
    decreases y.len(),
{
    if y.len() == 0 {
        assert(x + y =~= x);
        assert(all_leaves(x) + all_leaves(y) =~= all_leaves(x));
    } else {
        lemma_leaves_concat(x, y.drop_last());
        assert((x + y).drop_last() =~= x + y.drop_last());
        assert((x + y).last() == y.last());
        assert(all_leaves(x + y) =~= all_leaves(x) + all_leaves(y));
    }
}

// ---------------------------------------------------------------------------
// Texts
// ---------------------------------------------------------------------------

/// `join` of no items is the empty string, of one item its text, and with one more item
/// what was joined so far, the separator and the text of the item.
pub proof fn law_join(
    args: Seq<Tree>,
    items: Seq<Json>,
    v: Json,
    sep: Seq<char>,
    env: Members,
)
    requires
        args.len() > 0,
        args[0] == Tree::Literal(Json::String(sep)),
    ensures
        gives_one("join"@, args, Json::Array(Seq::empty()), env, Json::String(Seq::empty())),
        gives_one("join"@, args, Json::Array(seq![v]), env, Json::String(text_of_value(v))),
        items.len() > 0 ==> exists|head: Seq<char>|
            {
                &&& #[trigger] gives_one("join"@, args, Json::Array(items), env, Json::String(head))
                &&& gives_one(
                    "join"@,
                    args,
                    Json::Array(items.push(v)),
                    env,
                    Json::String(head + sep + text_of_value(v)),
                )
            },
        !(v is Array) ==> call("join"@, args, v, env) == Err::<Seq<Json>, Failure>(
            Failure::TypeError { message: "join expects an array, got `"@ + json_text(v) + "`"@ },
        ),
{
    let none = Seq::<Json>::empty();
    lemma_joined_call(args, none, sep, env);
    lemma_joined_call(args, seq![v], sep, env);
    lemma_joined_call(args, items, sep, env);
    lemma_joined_call(args, items.push(v), sep, env);
    assert(plain_texts(none) =~= Seq::empty());
    assert(plain_texts(seq![v]) =~= seq![plain_text(v)]);
    assert(plain_texts(items.push(v)) =~= plain_texts(items).push(plain_text(v)));
    let (a, b) = (plain_texts(items), plain_texts(items).push(plain_text(v)));
    assert(b.drop_last() =~= a);
    assert(b.last() == plain_text(v));
    lemma_argument_names(v, Some(Json::String(sep)));
    lemma_argument_names(Json::Null, None);
    assert(yields(args[0], v, env, seq![Json::String(sep)]));
    lemma_argument(
        "join"@,
        args,
        v,
        env,
        Json::String(sep),
        f_join(v, Some(Json::String(sep))),
    );
}

/// What `join` gives is the joined texts.
proof fn lemma_joined_call(args: Seq<Tree>, items: Seq<Json>, sep: Seq<char>, env: Members)
    requires
        args.len() > 0,
        args[0] == Tree::Literal(Json::String(sep)),
    ensures
        gives_one(
            "join"@,
            args,
            Json::Array(items),
            env,
            Json::String(joined(plain_texts(items), sep)),
        ),
{
    let input = Json::Array(items);
    let arg = Json::String(sep);
    lemma_argument_names(input, Some(arg));
    lemma_argument_names(Json::Null, None);
    assert(yields(args[0], input, env, seq![arg]));
    lemma_argument("join"@, args, input, env, arg, f_join(input, Some(arg)));
}

/// `split` cuts a string at a separator: the parts are strings without the separator,
/// and joined with it they are the string.
pub proof fn law_split(args: Seq<Tree>, s: Seq<char>, sep: Seq<char>, v: Json, env: Members)
    requires
        sep.len() > 0,
        args.len() > 0,
        args[0] == Tree::Literal(Json::String(sep)),
    ensures
        exists|parts: Seq<Seq<char>>|
            {
                &&& #[trigger] joined(parts, sep) == s
                &&& forall|i: int| 0 <= i < parts.len() ==> !occurs(#[trigger] parts[i], sep)
                &&& gives_one(
                    "split"@,
                    args,
                    Json::String(s),
                    env,
                    Json::Array(parts.map_values(|p: Seq<char>| Json::String(p))),
                )
            },
        !(v is String) ==> call("split"@, args, v, env) is Err,
{
    let arg = Json::String(sep);
    let input = Json::String(s);
    lemma_argument_names(input, Some(arg));
    lemma_argument_names(v, Some(arg));
    lemma_argument_names(Json::Null, None);
    assert(yields(args[0], input, env, seq![arg]));
    assert(yields(args[0], v, env, seq![arg]));
    lemma_argument("split"@, args, input, env, arg, f_split(input, Some(arg)));
    lemma_argument("split"@, args, v, env, arg, f_split(v, Some(arg)));
    law_split_and_join(s, sep);
    assert(joined(split_parts(s, sep), sep) == s);
}

/// `startswith` and `endswith` compare the characters at the start or at the end.
pub proof fn law_affixes(args: Seq<Tree>, s: Seq<char>, t: Seq<char>, v: Json, env: Members)
    requires
        args.len() > 0,
        args[0] == Tree::Literal(Json::String(t)),
    ensures
        gives_one(
            "startswith"@,
            args,
            Json::String(s),
            env,
            Json::Bool(t.len() <= s.len() && forall|i: int| 0 <= i < t.len() ==> s[i] == t[i]),
        ),
        gives_one(
            "endswith"@,
            args,
            Json::String(s),
            env,
            Json::Bool(
                t.len() <= s.len() && forall|i: int|
                    0 <= i < t.len() ==> s[s.len() - t.len() + i] == t[i],
            ),
        ),
        !(v is String) ==> call("startswith"@, args, v, env) is Err && call(
            "endswith"@,
            args,
            v,
            env,
        ) is Err,
{
    let arg = Json::String(t);
    let input = Json::String(s);
    lemma_argument_names(input, Some(arg));
    lemma_argument_names(v, Some(arg));
    lemma_argument_names(Json::Null, None);
    assert(yields(args[0], input, env, seq![arg]));
    assert(yields(args[0], v, env, seq![arg]));
    lemma_argument("startswith"@, args, input, env, arg, f_affix(input, Some(arg), true));
    lemma_argument("endswith"@, args, input, env, arg, f_affix(input, Some(arg), false));
    lemma_argument("startswith"@, args, v, env, arg, f_affix(v, Some(arg), true));
    lemma_argument("endswith"@, args, v, env, arg, f_affix(v, Some(arg), false));
    lemma_affix_chars(s, t);
}

/// A prefix and a suffix, character by character.
proof fn lemma_affix_chars(s: Seq<char>, t: Seq<char>)
    ensures
        t.is_prefix_of(s) <==> t.len() <= s.len() && forall|i: int|
            0 <= i < t.len() ==> s[i] == t[i],
        t.is_suffix_of(s) <==> t.len() <= s.len() && forall|i: int|
            0 <= i < t.len() ==> s[s.len() - t.len() + i] == t[i],
{
    if t.len() <= s.len() {
        let n = t.len() as int;
        let d = s.len() - n;
        if forall|i: int| 0 <= i < t.len() ==> s[i] == t[i] {
            assert(s.subrange(0, n) =~= t);
        }
        if t.is_prefix_of(s) {
            assert forall|i: int| 0 <= i < t.len() implies s[i] == t[i] by {
                assert(s.subrange(0, n)[i] == s[i]);
            }
        }
        if forall|i: int| 0 <= i < t.len() ==> s[s.len() - t.len() + i] == t[i] {
            assert(s.subrange(d, s.len() as int) =~= t);
        }
        if t.is_suffix_of(s) {
            assert forall|i: int| 0 <= i < t.len() implies s[s.len() - t.len() + i] == t[i] by {
                assert(s.subrange(d, s.len() as int)[i] == s[d + i]);
            }
        }
    }
}

/// `ltrimstr` takes a prefix away and `rtrimstr` a suffix; a string without it stays as
/// it is.
pub proof fn law_trims(args: Seq<Tree>, s: Seq<char>, t: Seq<char>, rest: Seq<char>, env: Members)
    requires
        args.len() > 0,
        args[0] == Tree::Literal(Json::String(t)),
    ensures
        gives_one("ltrimstr"@, args, Json::String(t + rest), env, Json::String(rest)),
        gives_one("rtrimstr"@, args, Json::String(rest + t), env, Json::String(rest)),
        !(t.len() <= s.len() && s.take(t.len() as int) == t) ==> gives_one(
            "ltrimstr"@,
            args,
            Json::String(s),
            env,
            Json::String(s),
        ),
        !(t.len() <= s.len() && s.skip(s.len() - t.len()) == t) ==> gives_one(
            "rtrimstr"@,
            args,
            Json::String(s),
            env,
            Json::String(s),
        ),
{
    lemma_trim_calls(args, t + rest, t, env);
    lemma_trim_calls(args, rest + t, t, env);
    lemma_trim_calls(args, s, t, env);
    let a = t + rest;
    assert(a.subrange(0, t.len() as int) =~= t);
    assert(a.skip(t.len() as int) =~= rest);
    let b = rest + t;
    assert(b.subrange(b.len() - t.len(), b.len() as int) =~= t);
    assert(b.take(b.len() - t.len()) =~= rest);
    if t.is_prefix_of(s) {
        assert(s.take(t.len() as int) =~= s.subrange(0, t.len() as int));
    }
    if t.is_suffix_of(s) {
        assert(s.skip(s.len() - t.len()) =~= s.subrange(s.len() - t.len(), s.len() as int));
    }
}

/// What the two functions that trim give.
proof fn lemma_trim_calls(args: Seq<Tree>, s: Seq<char>, t: Seq<char>, env: Members)
    requires
        args.len() > 0,
        args[0] == Tree::Literal(Json::String(t)),
    ensures
        call("ltrimstr"@, args, Json::String(s), env) == f_trim(
            Json::String(s),
            Some(Json::String(t)),
            true,
        ),
        call("rtrimstr"@, args, Json::String(s), env) == f_trim(
            Json::String(s),
            Some(Json::String(t)),
            false,
        ),
{
    let arg = Json::String(t);
    let input = Json::String(s);
    lemma_argument_names(input, Some(arg));
    lemma_argument_names(Json::Null, None);
    assert(yields(args[0], input, env, seq![arg]));
    lemma_argument("ltrimstr"@, args, input, env, arg, f_trim(input, Some(arg), true));
    lemma_argument("rtrimstr"@, args, input, env, arg, f_trim(input, Some(arg), false));
}

// ---------------------------------------------------------------------------
// Membership
// ---------------------------------------------------------------------------

/// `has` tells whether an object has a key, and whether an index is one of an array.
pub proof fn law_has(args: Seq<Tree>, input: Json, env: Members, k: Json)
    requires
        args.len() > 0,
        args[0] == Tree::Literal(k),
    ensures
        input matches Json::Object(m) ==> k matches Json::String(key) ==> gives_one(
            "has"@,
            args,
            input,
            env,
            Json::Bool(lookup(m, key) is Some),
        ),
        input matches Json::Array(items) ==> forall|i: int|
            -0x20_0000_0000_0000 < i < 0x20_0000_0000_0000 && i <= usize::MAX
                && k == #[trigger] whole(i) ==> gives_one(
                "has"@,
                args,
                input,
                env,
                Json::Bool(0 <= i < items.len()),
            ),
        !(input is Object) && !(input is Array) ==> gives_one(
            "has"@,
            args,
            input,
            env,
            Json::Bool(false),
        ),
{
    lemma_argument_names(input, Some(k));
    lemma_argument_names(Json::Null, None);
    assert(yields(args[0], input, env, seq![k]));
    lemma_argument("has"@, args, input, env, k, f_has(input, Some(k)));
    assert forall|i: int|
        -0x20_0000_0000_0000 < i < 0x20_0000_0000_0000 && i <= usize::MAX && k == #[trigger] whole(
            i,
        ) implies truncated(number_double(k->Number_0), i64::MIN as int, i64::MAX as int) == i && (
    i >= 0 ==> truncated(number_double(k->Number_0), 0, usize::MAX as int) == i) by {
        law_integers_exact(i);
        lemma_pow2_pos(1074);
    }
}

/// Whether `contains` holds of a value and another.
pub open spec fn containing(v: Json, part: Json, env: Members) -> bool {
    gives_one("contains"@, seq![Tree::Literal(part)], v, env, Json::Bool(true))
}

/// Whether `contains` holds of some item of a list and a value.
pub open spec fn some_containing(x: Seq<Json>, part: Json, env: Members) -> bool {
    exists|i: int| 0 <= i < x.len() && containing(#[trigger] x[i], part, env)
}

/// `contains` holds of a string and each of its substrings; of an array and another
/// whose every item is contained in some item of it; of an object and another whose
/// every member is contained in its member of that key; and otherwise of equal values.
pub proof fn law_contains(v: Json, part: Json, env: Members)
    ensures
        gives_one(
            "contains"@,
            seq![Tree::Literal(part)],
            v,
            env,
            Json::Bool(containing(v, part, env)),
        ),
        v matches Json::String(s) ==> part matches Json::String(t) ==> (containing(v, part, env)
            <==> exists|at: int|
            0 <= at && at + t.len() <= s.len() && #[trigger] s.subrange(at, at + t.len()) == t),
        v matches Json::Array(x) ==> part matches Json::Array(y) ==> (containing(v, part, env)
            <==> forall|j: int|
            0 <= j < y.len() ==> some_containing(x, #[trigger] y[j], env)),
        v matches Json::Object(x) ==> part matches Json::Object(y) ==> (containing(v, part, env)
            <==> forall|j: int|
            0 <= j < y.len() ==> lookup(x, (#[trigger] y[j]).0) is Some && containing(
                lookup(x, y[j].0).unwrap(),
                y[j].1,
                env,
            )),
        v is Null || v is Bool || v is Number || part is Null || part is Bool || part is Number
            ==> containing(v, part, env) == is_equal(v, part),
{
    lemma_containing(v, part, env);
    match (v, part) {
        (Json::String(s), Json::String(t)) => {
            if occurs(s, t) {
                let at = choose|at: int| occurs_at(s, t, at);
                assert(s.subrange(at, at + t.len()) == t);
            }
            if exists|at: int|
                0 <= at && at + t.len() <= s.len() && #[trigger] s.subrange(at, at + t.len())
                    == t {
                let at = choose|at: int|
                    0 <= at && at + t.len() <= s.len() && #[trigger] s.subrange(at, at + t.len())
                        == t;
                assert(occurs_at(s, t, at));
            }
        },
        (Json::Array(x), Json::Array(y)) => {
            lemma_each_contained(x, y, env);
            assert(containing(v, part, env) == each_inside(x, y));
        },
        (Json::Object(x), Json::Object(y)) => {
            lemma_members_contained(x, y, env);
            assert(containing(v, part, env) == members_inside(x, y));
        },
        _ => {},
    }
}

/// `contains` is what its model says.
proof fn lemma_containing(v: Json, part: Json, env: Members)
    ensures
        gives_one(
            "contains"@,
            seq![Tree::Literal(part)],
            v,
            env,
            Json::Bool(has_inside(v, part)),
        ),
        containing(v, part, env) == has_inside(v, part),
{
    let args = seq![Tree::Literal(part)];
    lemma_argument_names(v, Some(part));
    lemma_argument_names(Json::Null, None);
    assert(yields(args[0], v, env, seq![part]));
    lemma_argument(
        "contains"@,
        args,
        v,
        env,
        part,
        only(Json::Bool(has_inside(v, value_or_null(Some(part))))),
    );
    assert(seq![Json::Bool(has_inside(v, part))][0] == Json::Bool(has_inside(v, part)));
    assert(seq![Json::Bool(true)][0] == Json::Bool(true));
}

/// Every item of a list is contained in some item of another.
proof fn lemma_each_contained(x: Seq<Json>, y: Seq<Json>, env: Members)
    ensures
        each_inside(x, y) <==> forall|j: int|
            0 <= j < y.len() ==> some_containing(x, #[trigger] y[j], env),
    decreases y.len(),
{
    if y.len() > 0 {
        let head = y.drop_last();
        let n = y.len() - 1;
        lemma_each_contained(x, head, env);
        lemma_some_contains(x, y.last(), env);
        assert(y[n] == y.last());
        if each_inside(x, y) {
            assert forall|j: int| 0 <= j < y.len() implies some_containing(
                x,
                #[trigger] y[j],
                env,
            ) by {
                if j < n {
                    assert(head[j] == y[j]);
                }
            }
        } else if forall|j: int| 0 <= j < y.len() ==> some_containing(x, #[trigger] y[j], env) {
            assert forall|j: int| 0 <= j < head.len() implies some_containing(
                x,
                #[trigger] head[j],
                env,
            ) by {
                assert(head[j] == y[j]);
            }
            assert(some_containing(x, y[n], env));
        }
    }
}

/// Some item of a list contains a value.
proof fn lemma_some_contains(x: Seq<Json>, v: Json, env: Members)
    ensures
        any_inside(x, v) <==> some_containing(x, v, env),
    decreases x.len(),
{
    if x.len() > 0 {
        let head = x.drop_last();
        let n = x.len() - 1;
        lemma_some_contains(head, v, env);
        lemma_containing(x.last(), v, env);
        assert(x[n] == x.last());
        if any_inside(head, v) {
            let i = choose|i: int| 0 <= i < head.len() && containing(#[trigger] head[i], v, env);
            assert(x[i] == head[i]);
        }
        if exists|i: int| 0 <= i < x.len() && containing(#[trigger] x[i], v, env) {
            let i = choose|i: int| 0 <= i < x.len() && containing(#[trigger] x[i], v, env);
            if i < n {
                assert(head[i] == x[i]);
            }
        }
    }
}

/// Every member of a list is contained in the member of another with its key.
proof fn lemma_members_contained(x: Members, y: Members, env: Members)
    ensures
        members_inside(x, y) <==> forall|j: int|
            0 <= j < y.len() ==> lookup(x, (#[trigger] y[j]).0) is Some && containing(
                lookup(x, y[j].0).unwrap(),
                y[j].1,
                env,
            ),
    decreases y.len(),
{
    if y.len() > 0 {
        let head = y.drop_last();
        let n = y.len() - 1;
        lemma_members_contained(x, head, env);
        assert(y[n] == y.last());
        if lookup(x, y.last().0) is Some {
            lemma_containing(lookup(x, y.last().0).unwrap(), y.last().1, env);
        }
        if members_inside(x, y) {
            assert forall|j: int| 0 <= j < y.len() implies lookup(x, (#[trigger] y[j]).0) is Some
                && containing(lookup(x, y[j].0).unwrap(), y[j].1, env) by {
                if j < n {
                    assert(head[j] == y[j]);
                }
            }
        } else if forall|j: int|
            0 <= j < y.len() ==> lookup(x, (#[trigger] y[j]).0) is Some && containing(
                lookup(x, y[j].0).unwrap(),
                y[j].1,
                env,
            ) {
            assert forall|j: int| 0 <= j < head.len() implies lookup(
                x,
                (#[trigger] head[j]).0,
            ) is Some && containing(lookup(x, head[j].0).unwrap(), head[j].1, env) by {
                assert(head[j] == y[j]);
            }
            assert(lookup(x, y[n].0) is Some);
        }
    }
}

/// The functions of the language are exactly these.
pub proof fn law_function_names(name: Seq<char>)
    ensures
        is_function(name) <==> {
            ||| name == "length"@
            ||| name == "keys"@
            ||| name == "tostring"@
            ||| name == "tonumber"@
            ||| name == "empty"@
            ||| name == "first"@
            ||| name == "last"@
            ||| name == "flatten"@
            ||| name == "add"@
            ||| name == "type"@
            ||| name == "not"@
            ||| name == "ascii_downcase"@
            ||| name == "ascii_upcase"@
            ||| name == "fabs"@
            ||| name == "floor"@
            ||| name == "values"@
            ||| name == "arrays"@
            ||| name == "objects"@
            ||| name == "strings"@
            ||| name == "numbers"@
            ||| name == "booleans"@
            ||| name == "nulls"@
            ||| name == "join"@
            ||| name == "startswith"@
            ||| name == "endswith"@
            ||| name == "contains"@
            ||| name == "split"@
            ||| name == "has"@
            ||| name == "ltrimstr"@
            ||| name == "rtrimstr"@
            ||| name == "map"@
            ||| name == "select"@
            ||| name == "range"@
            ||| name == "error"@
        },
{
    reveal(is_function);
}

} // verus!
