//! Values read from JSON and YAML text.
//!
//! The text is parsed by `serde_json` and `serde_yaml` into a value of `serde_json`,
//! which is opened level by level and rebuilt as a [`Value`].
use crate::double::{finite, is_finite};
use crate::json::{Json, Members, Number, Object, Value, entry_members, jsons};
use crate::number::{decimal_number, lemma_exact_reads_back, nearest, write_exact};
use crate::text::text_less;
use crate::value::{int_number, is_canonical, is_sorted, json_text};
use serde_json::Value as Node;
use vstd::prelude::*;

verus! {

broadcast use crate::json::group_json;

/// A value of `serde_json`.
#[verifier::external_type_specification]
#[verifier::external_body]
pub struct NodeType(Node);

/// What a value of `serde_json` holds.
pub uninterp spec fn node_json(n: Node) -> Json;

/// One level of a value of `serde_json`.
pub enum Shape<'a> {
    Null,
    Bool(bool),
    Number(Number),
    String(&'a String),
    Array(&'a Vec<Node>),
    Object(Vec<(&'a String, &'a Node)>),
}

/// What each item holds.
pub open spec fn node_items(items: Seq<Node>) -> Seq<Json> {
    items.map_values(|n: Node| node_json(n))
}

/// What each member holds.
pub open spec fn node_members(entries: Seq<(&String, &Node)>) -> Members {
    entries.map_values(|e: (&String, &Node)| (e.0@, node_json(*e.1)))
}

/// What a value holds of which one level is known.
pub open spec fn shape_json(s: Shape<'_>) -> Json {
    match s {
        Shape::Null => Json::Null,
        Shape::Bool(b) => Json::Bool(b),
        Shape::Number(n) => Json::Number(n),
        Shape::String(s) => Json::String(s@),
        Shape::Array(items) => Json::Array(node_items(items@)),
        Shape::Object(entries) => Json::Object(node_members(entries@)),
    }
}

/// Trusted: the variants of `serde_json::Value` with what they hold. A
/// `serde_json::Number` is an integer that is not negative, a negative integer or a
/// finite double, as `as_u64`, `as_i64` and `as_f64` tell; a `serde_json::Map`, which
/// is a sorted map where the crate's feature `preserve_order` is off, gives its
/// members in the order of their keys.
#[verifier::external_body]
fn open_node(n: &Node) -> (r: Shape<'_>)
    ensures
        shape_json(r) == node_json(*n),
        is_canonical(shape_json(r)),
{
    match n {
        Node::Null => Shape::Null,
        Node::Bool(b) => Shape::Bool(*b),
        Node::Number(m) => Shape::Number(match (m.as_u64(), m.as_i64()) {
            (Some(u), _) => Number::PosInt(u),
            (None, Some(i)) => Number::NegInt(i),
            _ => Number::Float(m.as_f64().unwrap_or_default().to_bits()),
        }),
        Node::String(s) => Shape::String(s),
        Node::Array(items) => Shape::Array(items),
        Node::Object(map) => Shape::Object(map.iter().collect()),
    }
}

/// Rebuilds a value of `serde_json`.
pub fn from_node(n: &Node) -> (r: Value)
    ensures
        r@ == node_json(*n),
        is_canonical(r@),
    decreases node_json(*n),
{
    match open_node(n) {
        Shape::Null => Value::Null,
        Shape::Bool(b) => Value::Bool(b),
        Shape::Number(m) => Value::Number(m),
        Shape::String(s) => Value::String(s.clone()),
        Shape::Array(items) => {
            let ghost m = node_items(items@);
            let mut out: Vec<Value> = Vec::new();
            let mut i: usize = 0;
            while i < items.len()
                invariant
                    i <= items.len(),
                    m == node_items(items@),
                    node_json(*n) == Json::Array(m),
                    out.len() == i,
                    forall|k: int| 0 <= k < i ==> (#[trigger] out@[k])@ == m[k],
                decreases items.len() - i,
            {
                assert(node_json(items@[i as int]) == m[i as int]);
                assert(decreases_to!(m => m[i as int]));
                assert(decreases_to!(node_json(*n) => node_json(*n)->Array_0));
                out.push(from_node(&items[i]));
                i += 1;
            }
            assert(jsons(out@) =~= m);
            Value::Array(out)
        },
        Shape::Object(members) => {
            let ghost m = node_members(members@);
            let mut entries: Vec<(String, Value)> = Vec::new();
            let mut i: usize = 0;
            while i < members.len()
                invariant
                    i <= members.len(),
                    m == node_members(members@),
                    node_json(*n) == Json::Object(m),
                    entries.len() == i,
                    forall|k: int|
                        0 <= k < i ==> ((#[trigger] entries@[k]).0@, entries@[k].1@) == m[k],
                decreases members.len() - i,
            {
                assert(m[i as int] == (members@[i as int].0@, node_json(*members@[i as int].1)));
                assert(decreases_to!(m => m[i as int]));
                assert(decreases_to!(node_json(*n) => node_json(*n)->Object_0));
                assert(decreases_to!(m[i as int] => m[i as int].1));
                let v = from_node(members[i].1);
                entries.push((members[i].0.clone(), v));
                i += 1;
            }
            assert(entry_members(entries@) =~= m);
            Value::Object(Object { entries })
        },
    }
}

/// The value that `serde_yaml` reads from a text, or the message with which it
/// refuses the text.
pub uninterp spec fn yaml_value(text: Seq<char>) -> Result<Json, Seq<char>>;

/// The value that `serde_json` reads from a text, or the message with which it
/// refuses the text.
pub uninterp spec fn json_value(text: Seq<char>) -> Result<Json, Seq<char>>;

/// Whether a value is nested at most so deep.
pub open spec fn is_nested(j: Json, depth: nat) -> bool
    decreases j,
{
    match j {
        Json::Array(items) => depth > 0 && forall|i: int|
            0 <= i < items.len() ==> is_nested(#[trigger] items[i], (depth - 1) as nat),
        Json::Object(m) => depth > 0 && forall|i: int|
            0 <= i < m.len() ==> is_nested((#[trigger] m[i]).1, (depth - 1) as nat),
        _ => true,
    }
}

/// Whether a value holds no doubles.
pub open spec fn is_whole(j: Json) -> bool
    decreases j,
{
    match j {
        Json::Number(n) => !(n is Float),
        Json::Array(items) => forall|i: int|
            0 <= i < items.len() ==> is_whole(#[trigger] items[i]),
        Json::Object(m) => forall|i: int| 0 <= i < m.len() ==> is_whole((#[trigger] m[i]).1),
        _ => true,
    }
}

/// Whether a value is read back from its JSON text: it is in canonical form, holds
/// no doubles, and is nested no deeper than the parser follows.
pub open spec fn is_readable(j: Json) -> bool {
    is_canonical(j) && is_whole(j) && is_nested(j, 127)
}

/// Trusted: `serde_yaml::from_str` reads a text as one YAML document. Which texts are
/// documents, and what they hold, is not stated; the result depends on the text
/// alone.
#[verifier::external_body]
fn parse_yaml(text: &str) -> (r: Result<Node, String>)
    ensures
        match (r, yaml_value(text@)) {
            (Ok(n), Ok(j)) => node_json(n) == j,
            (Err(e), Err(m)) => e@ == m,
            _ => false,
        },
{
    serde_yaml::from_str(text).map_err(|e| e.to_string())
}

/// Trusted: `serde_json::from_str` reads a text as one JSON value. Which texts are
/// values, and what they hold, is not stated, but that the compact text of a value is
/// read back, where it holds no doubles and is nested at most 127 deep. A double can
/// be read as a neighbour of the one that was written. The result depends on the
/// text alone.
#[verifier::external_body]
fn parse_json(text: &str) -> (r: Result<Node, String>)
    ensures
        match (r, json_value(text@)) {
            (Ok(n), Ok(j)) => node_json(n) == j,
            (Err(e), Err(m)) => e@ == m,
            _ => false,
        },
        forall|j: Json|
            text@ == #[trigger] json_text(j) && is_readable(j) ==> (match r {
                Ok(n) => node_json(n) == j,
                Err(_) => false,
            }),
{
    serde_json::from_str(text).map_err(|e| e.to_string())
}

/// Whether what was read is what a parser gives.
pub open spec fn is_reading(r: Result<Value, String>, value: Result<Json, Seq<char>>) -> bool {
    match (r, value) {
        (Ok(v), Ok(j)) => v@ == j && is_canonical(j),
        (Err(e), Err(m)) => e@ == m,
        _ => false,
    }
}

/// Reads a value from YAML.
pub fn read_yaml(text: &str) -> (r: Result<Value, String>)
    ensures
        is_reading(r, yaml_value(text@)),
{
    match parse_yaml(text) {
        Ok(n) => Ok(from_node(&n)),
        Err(e) => Err(e),
    }
}

/// Reads a value from JSON. A value that was written is read back, where it holds no
/// doubles and is not nested too deep.
pub fn read_json(text: &str) -> (r: Result<Value, String>)
    ensures
        is_reading(r, json_value(text@)),
        forall|j: Json|
            text@ == #[trigger] json_text(j) && is_readable(j) ==> json_value(text@) == Ok::<
                Json,
                Seq<char>,
            >(j),
{
    match parse_json(text) {
        Ok(n) => Ok(from_node(&n)),
        Err(e) => Err(e),
    }
}

// ---------------------------------------------------------------------------
// Values for `serde_json`
// ---------------------------------------------------------------------------

/// One level of a value to build for `serde_json`. A double is given by a decimal
/// text.
pub enum Level {
    Null,
    Bool(bool),
    Unsigned(u64),
    Signed(i64),
    Double(String),
    String(String),
    Array(Vec<Node>),
    Object(Vec<(String, Node)>),
}

/// What each built member holds.
pub open spec fn built_members(entries: Seq<(String, Node)>) -> Members {
    entries.map_values(|e: (String, Node)| (e.0@, node_json(e.1)))
}

/// What a value of one level holds.
pub open spec fn level_json(l: Level) -> Json {
    match l {
        Level::Null => Json::Null,
        Level::Bool(b) => Json::Bool(b),
        Level::Unsigned(u) => Json::Number(Number::PosInt(u)),
        Level::Signed(i) => Json::Number(int_number(i as int)),
        Level::Double(t) => Json::Number(
            Number::Float(nearest(decimal_number(t@).unwrap())),
        ),
        Level::String(s) => Json::String(s@),
        Level::Array(items) => Json::Array(node_items(items@)),
        Level::Object(entries) => Json::Object(built_members(entries@)),
    }
}

/// Trusted: the constructors of `serde_json::Value`, its `From` for integers, and
/// `serde_json::Number::from_f64` on the double that `str::parse` reads. A
/// `serde_json::Map`, which is a sorted map where the crate's feature
/// `preserve_order` is off, keeps its members in the order of their keys.
#[verifier::external_body]
fn close_node(l: Level) -> (r: Node)
    requires
        l matches Level::Double(t) ==> decimal_number(t@) is Some && is_finite(
            nearest(decimal_number(t@).unwrap()),
        ),
        l matches Level::Object(entries) ==> is_sorted(built_members(entries@)),
    ensures
        node_json(r) == level_json(l),
{
    match l {
        Level::Null => Node::Null,
        Level::Bool(b) => Node::Bool(b),
        Level::Unsigned(u) => Node::from(u),
        Level::Signed(i) => Node::from(i),
        Level::Double(t) => t.parse().ok().and_then(serde_json::Number::from_f64).into(),
        Level::String(s) => Node::String(s),
        Level::Array(items) => Node::Array(items),
        Level::Object(entries) => Node::Object(entries.into_iter().collect()),
    }
}

/// What is left of a value in `serde_json`: it has no doubles that are not finite,
/// and no negative form of an integer that is not negative.
pub open spec fn held(j: Json) -> Json
    decreases j,
{
    match j {
        Json::Number(Number::NegInt(i)) => Json::Number(int_number(i as int)),
        Json::Number(Number::Float(bits)) => if is_finite(bits) {
            j
        } else {
            Json::Null
        },
        Json::Array(items) => Json::Array(
            Seq::new(
                items.len(),
                |i: int|
                    if 0 <= i < items.len() {
                        held(items[i])
                    } else {
                        Json::Null
                    },
            ),
        ),
        Json::Object(m) => Json::Object(
            Seq::new(
                m.len(),
                |i: int|
                    if 0 <= i < m.len() {
                        (m[i].0, held(m[i].1))
                    } else {
                        (Seq::empty(), Json::Null)
                    },
            ),
        ),
        _ => j,
    }
}

/// All of a value in canonical form is left.
pub proof fn lemma_held(j: Json)
    requires
        is_canonical(j),
    ensures
        held(j) == j,
    decreases j,
{
    match j {
        Json::Array(items) => {
            assert forall|i: int| 0 <= i < items.len() implies held(#[trigger] items[i])
                == items[i] by {
                lemma_held(items[i]);
            }
            assert(held(j)->Array_0 =~= items);
        },
        Json::Object(m) => {
            assert forall|i: int| 0 <= i < m.len() implies held((#[trigger] m[i]).1)
                == m[i].1 by {
                lemma_held(m[i].1);
            }
            assert(held(j)->Object_0 =~= m);
        },
        _ => {},
    }
}

/// Builds a value of `serde_json`.
pub fn to_node(v: &Value) -> (r: Node)
    ensures
        node_json(r) == held(v@),
    decreases v,
{
    match v {
        Value::Null => close_node(Level::Null),
        Value::Bool(b) => close_node(Level::Bool(*b)),
        Value::Number(Number::PosInt(u)) => close_node(Level::Unsigned(*u)),
        Value::Number(Number::NegInt(i)) => close_node(Level::Signed(*i)),
        Value::Number(Number::Float(bits)) => {
            if finite(*bits) {
                proof {
                    lemma_exact_reads_back(*bits);
                }
                close_node(Level::Double(write_exact(*bits)))
            } else {
                close_node(Level::Null)
            }
        },
        Value::String(s) => close_node(Level::String(s.clone())),
        Value::Array(items) => {
            let ghost m = jsons(items@);
            let mut out: Vec<Node> = Vec::new();
            let mut i: usize = 0;
            while i < items.len()
                invariant
                    i <= items.len(),
                    decreases_to!(v => items),
                    m == jsons(items@),
                    out.len() == i,
                    forall|k: int| 0 <= k < i ==> node_json(#[trigger] out@[k]) == held(m[k]),
                decreases items.len() - i,
            {
                out.push(to_node(&items[i]));
                i += 1;
            }
            assert(node_items(out@) =~= held(Json::Array(m))->Array_0);
            close_node(Level::Array(out))
        },
        Value::Object(o) => {
            let ghost m = o@;
            let mut entries: Vec<(String, Node)> = Vec::new();
            let mut i: usize = 0;
            while i < o.entries.len()
                invariant
                    i <= o.entries.len(),
                    decreases_to!(v => o),
                    m == o@,
                    entries.len() == i,
                    forall|k: int|
                        0 <= k < i ==> (#[trigger] entries@[k]).0@ == m[k].0 && node_json(
                            entries@[k].1,
                        ) == held(m[k].1),
                decreases o.entries.len() - i,
            {
                assert(m[i as int] == (o.entries@[i as int].0@, o.entries@[i as int].1@));
                let n = to_node(&o.entries[i].1);
                entries.push((o.entries[i].0.clone(), n));
                i += 1;
            }
            proof {
                use_type_invariant(o);
                let built = built_members(entries@);
                assert(built =~= held(Json::Object(m))->Object_0);
                assert forall|a: int, b: int| 0 <= a < b < built.len() implies text_less(
                    #[trigger] built[a].0,
                    #[trigger] built[b].0,
                ) by {
                    assert(text_less(m[a].0, m[b].0));
                }
            }
            close_node(Level::Object(entries))
        },
    }
}

/// The YAML text that `serde_yaml` writes for a value, or the message of its failure.
pub uninterp spec fn yaml_text(j: Json) -> Result<Seq<char>, Seq<char>>;

/// The indented JSON text that `serde_json` writes for a value, or the message of its
/// failure.
pub uninterp spec fn pretty_text(j: Json) -> Result<Seq<char>, Seq<char>>;

/// Whether what was written is what a writer gives.
pub open spec fn is_writing(
    r: Result<String, String>,
    text: Result<Seq<char>, Seq<char>>,
) -> bool {
    match (r, text) {
        (Ok(t), Ok(s)) => t@ == s,
        (Err(e), Err(m)) => e@ == m,
        _ => false,
    }
}

/// Trusted: `serde_yaml::to_string` writes a value as YAML. Which text is written is
/// not stated; it depends on the value alone.
#[verifier::external_body]
fn yaml_of(n: &Node) -> (r: Result<String, String>)
    ensures
        is_writing(r, yaml_text(node_json(*n))),
{
    serde_yaml::to_string(n).map_err(|e| e.to_string())
}

/// Trusted: `serde_json::to_string_pretty` writes a value as indented JSON. How it is
/// indented is not stated, but that the text is read back, where the value holds no
/// doubles and is nested at most 127 deep; the text depends on the value alone.
#[verifier::external_body]
fn pretty_of(n: &Node) -> (r: Result<String, String>)
    ensures
        is_writing(r, pretty_text(node_json(*n))),
        is_readable(node_json(*n)) ==> (match r {
            Ok(t) => json_value(t@) == Ok::<Json, Seq<char>>(node_json(*n)),
            Err(_) => false,
        }),
{
    serde_json::to_string_pretty(n).map_err(|e| e.to_string())
}

/// Writes a value as YAML.
pub fn write_yaml(v: &Value) -> (r: Result<String, String>)
    ensures
        is_writing(r, yaml_text(held(v@))),
{
    yaml_of(&to_node(v))
}

/// Writes a value as indented JSON.
pub fn write_pretty(v: &Value) -> (r: Result<String, String>)
    ensures
        is_writing(r, pretty_text(held(v@))),
        is_readable(held(v@)) ==> (match r {
            Ok(t) => json_value(t@) == Ok::<Json, Seq<char>>(held(v@)),
            Err(_) => false,
        }),
{
    pretty_of(&to_node(v))
}

} // verus!
