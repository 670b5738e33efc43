//! Objects built member by member.
use crate::json::{Json, Members, Object, Value, jsons};
use crate::value::inserted;
use vstd::prelude::*;

verus! {

broadcast use crate::json::group_json;

/// The members of an object, set one after the other.
pub open spec fn members_of(entries: Seq<(Seq<char>, Json)>) -> Members
    decreases entries.len(),
{
    if entries.len() == 0 {
        Seq::empty()
    } else {
        inserted(members_of(entries.drop_last()), entries.last().0, entries.last().1)
    }
}

/// An object with the given members.
pub open spec fn object_of(entries: Seq<(Seq<char>, Json)>) -> Json {
    Json::Object(members_of(entries))
}

/// A text as a member.
pub open spec fn text_entry(key: Seq<char>, s: Seq<char>) -> (Seq<char>, Json) {
    (key, Json::String(s))
}

/// An array of one value.
pub open spec fn singleton(j: Json) -> Json {
    Json::Array(seq![j])
}

/// An object under construction.
pub struct Builder {
    pub object: Object,
    pub entries: Ghost<Seq<(Seq<char>, Json)>>,
}

impl Builder {
    /// The object has the members that were set.
    pub open spec fn wf(self) -> bool {
        self.object@ == members_of(self.entries@)
    }

    /// An object without members.
    pub fn new() -> (r: Self)
        ensures
            r.wf(),
            r.entries@ == Seq::<(Seq<char>, Json)>::empty(),
    {
        Self { object: Object::new(), entries: Ghost(Seq::empty()) }
    }

    /// The object with a member set.
    pub fn with(self, key: &str, v: Value) -> (r: Self)
        requires
            self.wf(),
        ensures
            r.wf(),
            r.entries@ == self.entries@.push((key@, v@)),
    {
        let ghost next = self.entries@.push((key@, v@));
        let mut object = self.object;
        object.insert(key.to_owned(), v);
        assert(next.drop_last() =~= self.entries@);
        Self { object, entries: Ghost(next) }
    }

    /// The object with a text set.
    pub fn with_text(self, key: &str, s: &str) -> (r: Self)
        requires
            self.wf(),
        ensures
            r.wf(),
            r.entries@ == self.entries@.push(text_entry(key@, s@)),
    {
        self.with(key, Value::text(s))
    }

    /// The object as a value.
    pub fn done(self) -> (r: Value)
        requires
            self.wf(),
        ensures
            r@ == object_of(self.entries@),
    {
        Value::Object(self.object)
    }
}

/// An array of one value.
pub fn one_item(v: Value) -> (r: Value)
    ensures
        r@ == singleton(v@),
{
    let mut items: Vec<Value> = Vec::new();
    items.push(v);
    assert(jsons(items@) =~= seq![v@]);
    Value::Array(items)
}

} // verus!
