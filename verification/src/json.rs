//! JSON values.
//!
//! [`Value`] is the executable type and [`Json`] its model. The members of an
//! object are kept sorted by key, each key once.
use crate::value::is_sorted;
use vstd::prelude::*;

verus! {

/// A JSON number: an integer that is not negative, a negative integer, or the
/// bits of a double.
#[derive(Clone, Copy, PartialEq, Eq, Structural, Debug)]
pub enum Number {
    PosInt(u64),
    NegInt(i64),
    Float(u64),
}

/// The model of a JSON value.
pub ghost enum Json {
    Null,
    Bool(bool),
    Number(Number),
    String(Seq<char>),
    Array(Seq<Json>),
    Object(Seq<(Seq<char>, Json)>),
}

/// The model of the members of an object.
pub type Members = Seq<(Seq<char>, Json)>;

/// A JSON value.
#[derive(Debug, PartialEq)]
pub enum Value {
    Null,
    Bool(bool),
    Number(Number),
    String(String),
    Array(Vec<Value>),
    Object(Object),
}

/// The members of a JSON object, sorted by key with each key once.
#[derive(Debug, PartialEq)]
pub struct Object {
    pub(crate) entries: Vec<(String, Value)>,
}

impl Object {
    /// The keys are strictly increasing.
    #[verifier::type_invariant]
    pub(crate) open spec fn is_ordered(self) -> bool {
        is_sorted(self@)
    }
}

/// The model of a value.
pub open(crate) spec fn value_json(v: Value) -> Json
    decreases v,
{
    match v {
        Value::Null => Json::Null,
        Value::Bool(b) => Json::Bool(b),
        Value::Number(n) => Json::Number(n),
        Value::String(s) => Json::String(s@),
        Value::Array(items) => Json::Array(
            Seq::new(
                items@.len(),
                |i: int|
                    if 0 <= i < items@.len() {
                        value_json(items@[i])
                    } else {
                        Json::Null
                    },
            ),
        ),
        Value::Object(o) => Json::Object(
            Seq::new(
                o.entries@.len(),
                |i: int|
                    if 0 <= i < o.entries@.len() {
                        (o.entries@[i].0@, value_json(o.entries@[i].1))
                    } else {
                        (Seq::empty(), Json::Null)
                    },
            ),
        ),
    }
}

impl View for Value {
    type V = Json;

    open spec fn view(&self) -> Json {
        value_json(*self)
    }
}

impl View for Object {
    type V = Members;

    open(crate) spec fn view(&self) -> Members {
        entry_members(self.entries@)
    }
}

/// The model of members that stand in a list.
pub open spec fn entry_members(entries: Seq<(String, Value)>) -> Members {
    entries.map_values(|e: (String, Value)| (e.0@, e.1@))
}

/// The models of a list of values.
pub open spec fn jsons(items: Seq<Value>) -> Seq<Json> {
    items.map_values(|v: Value| v@)
}

/// The model of an array.
pub broadcast proof fn lemma_array_view(items: Vec<Value>)
    ensures
        #[trigger] Value::Array(items)@ == Json::Array(jsons(items@)),
{
    assert(Value::Array(items)@->Array_0 =~= jsons(items@));
}

/// The model of an object.
pub broadcast proof fn lemma_object_view(o: Object)
    ensures
        #[trigger] Value::Object(o)@ == Json::Object(o@),
{
    assert(Value::Object(o)@->Object_0 =~= o@);
}

/// Appending a value appends its model.
pub broadcast proof fn lemma_jsons_push(items: Seq<Value>, v: Value)
    ensures
        #[trigger] jsons(items.push(v)) == jsons(items).push(v@),
{
    assert(jsons(items.push(v)) =~= jsons(items).push(v@));
}

/// The model of no values.
pub broadcast proof fn lemma_jsons_empty()
    ensures
        #[trigger] jsons(Seq::<Value>::empty()) == Seq::<Json>::empty(),
{
    assert(jsons(Seq::<Value>::empty()) =~= Seq::<Json>::empty());
}

pub broadcast group group_json {
    lemma_array_view,
    lemma_object_view,
    lemma_jsons_push,
    lemma_jsons_empty,
}

} // verus!
