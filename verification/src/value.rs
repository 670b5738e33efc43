//! Operations on JSON values: copies, members, numbers, equality and text.
use crate::double::{
    equals, finite, from_i64, from_int, from_u64, is_finite, is_safe_integer, lemma_safe_integer,
    safe_integer, same, to_i64, truncated, value,
};
use crate::json::{Json, Members, Number, Object, Value, entry_members, jsons};
use crate::number::{denotes, json_double_text, json_of_double};
use crate::text::{
    concat3, decimal, decimal_int, digit_char, i64_text, join, joined, lemma_less_total,
    lemma_less_transitive, less, opt_view, text_eq, text_less, u64_text, views,
};
use vstd::prelude::*;

verus! {

broadcast use crate::json::group_json;

// ---------------------------------------------------------------------------
// Copies
// ---------------------------------------------------------------------------

impl Clone for Value {
    fn clone(&self) -> (r: Value)
        ensures
            r@ == self@,
        decreases self,
    {
        match self {
            Value::Null => Value::Null,
            Value::Bool(b) => Value::Bool(*b),
            Value::Number(n) => Value::Number(*n),
            Value::String(s) => Value::String(s.clone()),
            Value::Array(items) => {
                let mut out: Vec<Value> = Vec::new();
                let mut i: usize = 0;
                while i < items.len()
                    invariant
                        i <= items.len(),
                        out.len() == i,
                        decreases_to!(self => items),
                        forall|j: int| 0 <= j < i ==> (#[trigger] out@[j])@ == items@[j]@,
                    decreases items.len() - i,
                {
                    let item = items[i].clone();
                    out.push(item);
                    i += 1;
                }
                assert(jsons(out@) =~= jsons(items@));
                Value::Array(out)
            },
            Value::Object(o) => {
                let mut out: Vec<(String, Value)> = Vec::new();
                let mut i: usize = 0;
                while i < o.entries.len()
                    invariant
                        i <= o.entries.len(),
                        out.len() == i,
                        decreases_to!(self => o),
                        forall|j: int| 0 <= j < i ==> (#[trigger] out@[j]).0@ == o.entries@[j].0@,
                        forall|j: int| 0 <= j < i ==> (#[trigger] out@[j]).1@ == o.entries@[j].1@,
                    decreases o.entries.len() - i,
                {
                    let key = o.entries[i].0.clone();
                    let item = o.entries[i].1.clone();
                    out.push((key, item));
                    i += 1;
                }
                proof {
                    use_type_invariant(o);
                    assert(entry_members(out@) =~= o@);
                }
                let copy = Object { entries: out };
                Value::Object(copy)
            },
        }
    }
}

impl Clone for Object {
    fn clone(&self) -> (r: Object)
        ensures
            r@ == self@,
    {
        let mut out: Vec<(String, Value)> = Vec::new();
        let mut i: usize = 0;
        while i < self.entries.len()
            invariant
                i <= self.entries.len(),
                out.len() == i,
                forall|j: int| 0 <= j < i ==> (#[trigger] out@[j]).0@ == self.entries@[j].0@,
                forall|j: int| 0 <= j < i ==> (#[trigger] out@[j]).1@ == self.entries@[j].1@,
            decreases self.entries.len() - i,
        {
            let key = self.entries[i].0.clone();
            let item = self.entries[i].1.clone();
            out.push((key, item));
            i += 1;
        }
        proof {
            use_type_invariant(self);
            assert(entry_members(out@) =~= self@);
        }
        Object { entries: out }
    }
}

/// Copies a list of values.
pub fn copy_values(items: &Vec<Value>) -> (r: Vec<Value>)
    ensures
        jsons(r@) == jsons(items@),
{
    let mut out: Vec<Value> = Vec::new();
    append_values(&mut out, items);
    assert(Seq::<Json>::empty() + jsons(items@) =~= jsons(items@));
    out
}

/// Appends copies of values.
pub fn append_values(out: &mut Vec<Value>, items: &Vec<Value>)
    ensures
        jsons(final(out)@) == jsons(old(out)@) + jsons(items@),
{
    let ghost before = jsons(out@);
    let mut i: usize = 0;
    assert(before + jsons(items@).take(0) =~= before);
    while i < items.len()
        invariant
            i <= items.len(),
            jsons(out@) == before + jsons(items@).take(i as int),
        decreases items.len() - i,
    {
        out.push(items[i].clone());
        assert(jsons(items@).take(i + 1) =~= jsons(items@).take(i as int).push(items@[i as int]@));
        assert(before + jsons(items@).take(i + 1) =~= (before + jsons(items@).take(i as int)).push(
            items@[i as int]@,
        ));
        i += 1;
    }
    assert(jsons(items@).take(items.len() as int) =~= jsons(items@));
}

/// The model of an optional value.
pub open spec fn option_json(v: Option<Value>) -> Option<Json> {
    match v {
        Some(j) => Some(j@),
        None => None,
    }
}

/// Copies an optional value.
pub fn copy_option(v: &Option<Value>) -> (r: Option<Value>)
    ensures
        option_json(r) == option_json(*v),
{
    match v {
        Some(j) => Some(j.clone()),
        None => None,
    }
}

/// Copies an optional text.
pub fn copy_text(s: &Option<String>) -> (r: Option<String>)
    ensures
        opt_view(r) == opt_view(*s),
{
    match s {
        Some(t) => Some(t.clone()),
        None => None,
    }
}

// ---------------------------------------------------------------------------
// Objects
// ---------------------------------------------------------------------------

/// The value of the first member with the key.
pub open spec fn lookup(m: Members, key: Seq<char>) -> Option<Json>
    decreases m.len(),
{
    if m.len() == 0 {
        None
    } else if m[0].0 == key {
        Some(m[0].1)
    } else {
        lookup(m.skip(1), key)
    }
}

/// The value of a member, or null when there is none.
pub open spec fn member(m: Members, key: Seq<char>) -> Json {
    match lookup(m, key) {
        Some(v) => v,
        None => Json::Null,
    }
}

/// The members with one set: its value is replaced, or it is put before the
/// first larger key.
pub open spec fn inserted(m: Members, key: Seq<char>, v: Json) -> Members
    decreases m.len(),
{
    if m.len() == 0 {
        seq![(key, v)]
    } else if m[0].0 == key {
        m.update(0, (key, v))
    } else if text_less(key, m[0].0) {
        seq![(key, v)] + m
    } else {
        seq![m[0]] + inserted(m.skip(1), key, v)
    }
}

/// The members with those of a second list set one after the other.
pub open spec fn merged(m: Members, more: Members) -> Members
    decreases more.len(),
{
    if more.len() == 0 {
        m
    } else {
        inserted(merged(m, more.drop_last()), more.last().0, more.last().1)
    }
}

/// Whether the keys are strictly increasing.
pub open spec fn is_sorted(m: Members) -> bool {
    forall|i: int, j: int| 0 <= i < j < m.len() ==> text_less(#[trigger] m[i].0, #[trigger] m[j].0)
}

/// Whether a value is in canonical form: its doubles are finite, its negative
/// integers are negative, and the members of its objects are sorted.
pub open spec fn is_canonical(j: Json) -> bool
    decreases j,
{
    match j {
        Json::Number(Number::Float(bits)) => is_finite(bits),
        Json::Number(Number::NegInt(i)) => i < 0,
        Json::Array(items) => forall|i: int|
            0 <= i < items.len() ==> is_canonical(#[trigger] items[i]),
        Json::Object(m) => is_sorted(m) && forall|i: int|
            0 <= i < m.len() ==> is_canonical((#[trigger] m[i]).1),
        _ => true,
    }
}

/// Sets a member of a list of members.
fn set_member(entries: &mut Vec<(String, Value)>, key: String, v: Value)
    ensures
        entry_members(final(entries)@) == inserted(entry_members(old(entries)@), key@, v@),
{
    let ghost m = entry_members(entries@);
    let ghost (k, j) = (key@, v@);
    let mut i: usize = 0;
    assert(m.skip(0) =~= m);
    assert(m.take(0) + inserted(m, k, j) =~= inserted(m, k, j));
    while i < entries.len()
        invariant
            i <= entries.len(),
            entry_members(entries@) == m,
            m == entry_members(old(entries)@),
            key@ == k,
            v@ == j,
            m.take(i as int) + inserted(m.skip(i as int), k, j) == inserted(m, k, j),
        decreases entries.len() - i,
    {
        let ghost rest = m.skip(i as int);
        let ghost e = entries@;
        assert(rest[0] == m[i as int] && m[i as int].0 == e[i as int].0@);
        if text_eq(entries[i].0.as_str(), key.as_str()) {
            entries.set(i, (key, v));
            proof {
                assert(entry_members(entries@) =~= m.update(i as int, (k, j)));
                assert(m.take(i as int) + rest.update(0, (k, j)) =~= m.update(
                    i as int,
                    (k, j),
                ));
            }
            return;
        }
        if less(key.as_str(), entries[i].0.as_str()) {
            entries.insert(i, (key, v));
            proof {
                assert(entry_members(entries@) =~= m.take(i as int) + (seq![(k, j)] + rest));
            }
            return;
        }
        proof {
            assert(rest.skip(1) =~= m.skip(i + 1));
            assert(m.take(i + 1) + inserted(m.skip(i + 1), k, j) =~= m.take(i as int) + (seq![
                m[i as int],
            ] + inserted(m.skip(i + 1), k, j)));
        }
        i += 1;
    }
    proof {
        assert(m.skip(i as int) =~= Seq::empty());
        assert(m.take(i as int) =~= m);
    }
    entries.push((key, v));
    assert(entry_members(entries@) =~= m + seq![(k, j)]);
}

impl Object {
    /// An object without members.
    pub fn new() -> (r: Object)
        ensures
            r@ == Seq::<(Seq<char>, Json)>::empty(),
    {
        let r = Object { entries: Vec::new() };
        assert(r@ =~= Seq::<(Seq<char>, Json)>::empty());
        r
    }

    /// The number of members.
    pub fn len(&self) -> (r: usize)
        ensures
            r == self@.len(),
    {
        self.entries.len()
    }

    /// Whether there is no member.
    pub fn is_empty(&self) -> (r: bool)
        ensures
            r == (self@.len() == 0),
    {
        self.entries.len() == 0
    }

    /// The value of a member.
    pub fn get(&self, key: &str) -> (r: Option<&Value>)
        ensures
            match r {
                Some(v) => lookup(self@, key@) == Some(v@),
                None => lookup(self@, key@) is None,
            },
    {
        let mut i: usize = 0;
        assert(self@.skip(0) =~= self@);
        while i < self.entries.len()
            invariant
                i <= self.entries.len(),
                lookup(self@.skip(i as int), key@) == lookup(self@, key@),
            decreases self.entries.len() - i,
        {
            assert(self@.skip(i as int)[0] == self@[i as int]);
            if text_eq(self.entries[i].0.as_str(), key) {
                return Some(&self.entries[i].1);
            }
            assert(self@.skip(i as int).skip(1) =~= self@.skip(i + 1));
            i += 1;
        }
        None
    }

    /// Whether there is a member with the key.
    pub fn contains_key(&self, key: &str) -> (r: bool)
        ensures
            r == lookup(self@, key@) is Some,
    {
        match self.get(key) {
            Some(_) => true,
            None => false,
        }
    }

    /// A copy of the value of a member, or null when there is none.
    pub fn get_or_null(&self, key: &str) -> (r: Value)
        ensures
            r@ == member(self@, key@),
    {
        match self.get(key) {
            Some(v) => v.clone(),
            None => Value::Null,
        }
    }

    /// Sets a member.
    pub fn insert(&mut self, key: String, v: Value)
        ensures
            final(self)@ == inserted(old(self)@, key@, v@),
    {
        let mut whole = Object::new();
        std::mem::swap(self, &mut whole);
        proof {
            use_type_invariant(&whole);
            lemma_inserted_sorted(whole@, key@, v@);
        }
        let mut entries = whole.entries;
        set_member(&mut entries, key, v);
        *self = Object { entries };
    }

    /// The members, sorted by key.
    pub fn entries(&self) -> (r: &Vec<(String, Value)>)
        ensures
            entry_members(r@) == self@,
            is_sorted(self@),
    {
        proof {
            use_type_invariant(self);
        }
        &self.entries
    }

    /// Sets every member of another object.
    pub fn extend(&mut self, other: &Object)
        ensures
            final(self)@ == merged(old(self)@, other@),
    {
        let ghost m = self@;
        let mut i: usize = 0;
        assert(other@.take(0) =~= Seq::empty());
        while i < other.entries.len()
            invariant
                i <= other.entries.len(),
                self@ == merged(m, other@.take(i as int)),
            decreases other.entries.len() - i,
        {
            let key = other.entries[i].0.clone();
            let v = other.entries[i].1.clone();
            self.insert(key, v);
            proof {
                let next = other@.take(i + 1);
                assert(next.drop_last() =~= other@.take(i as int));
                assert(next.last() == other@[i as int]);
            }
            i += 1;
        }
        assert(other@.take(other.entries.len() as int) =~= other@);
    }
}

/// Setting a member keeps the keys sorted.
pub proof fn lemma_inserted_sorted(m: Members, key: Seq<char>, v: Json)
    requires
        is_sorted(m),
    ensures
        is_sorted(inserted(m, key, v)),
        forall|bound: Seq<char>|
            text_less(bound, key) && (forall|i: int|
                0 <= i < m.len() ==> text_less(bound, #[trigger] m[i].0)) ==> (forall|i: int|
                0 <= i < inserted(m, key, v).len() ==> text_less(
                    bound,
                    #[trigger] inserted(m, key, v)[i].0,
                )),
    decreases m.len(),
{
    let out = inserted(m, key, v);
    if m.len() == 0 {
    } else if m[0].0 == key {
        assert forall|i: int, j: int| 0 <= i < j < out.len() implies text_less(
            #[trigger] out[i].0,
            #[trigger] out[j].0,
        ) by {
            assert(out[i].0 == m[i].0);
            assert(out[j].0 == m[j].0);
        }
        assert forall|i: int| 0 <= i < out.len() implies #[trigger] out[i].0 == m[i].0 by {}
    } else if text_less(key, m[0].0) {
        assert forall|i: int, j: int| 0 <= i < j < out.len() implies text_less(
            #[trigger] out[i].0,
            #[trigger] out[j].0,
        ) by {
            assert(out[j] == m[j - 1]);
            if i == 0 {
                if j > 1 {
                    lemma_less_transitive(key, m[0].0, m[j - 1].0);
                }
            } else {
                assert(out[i] == m[i - 1]);
            }
        }
    } else {
        lemma_less_total(key, m[0].0);
        let rest = m.skip(1);
        assert forall|i: int, j: int| 0 <= i < j < rest.len() implies text_less(
            #[trigger] rest[i].0,
            #[trigger] rest[j].0,
        ) by {
            assert(rest[i] == m[i + 1] && rest[j] == m[j + 1]);
        }
        lemma_inserted_sorted(rest, key, v);
        let tail = inserted(rest, key, v);
        assert forall|i: int| 0 <= i < rest.len() implies text_less(
            m[0].0,
            #[trigger] rest[i].0,
        ) by {
            assert(rest[i] == m[i + 1]);
        }
        assert forall|i: int, j: int| 0 <= i < j < out.len() implies text_less(
            #[trigger] out[i].0,
            #[trigger] out[j].0,
        ) by {
            assert(out[j] == tail[j - 1]);
            if i > 0 {
                assert(out[i] == tail[i - 1]);
            }
        }
        assert forall|bound: Seq<char>|
            text_less(bound, key) && (forall|i: int|
                0 <= i < m.len() ==> text_less(bound, #[trigger] m[i].0)) implies (forall|i: int|
            0 <= i < out.len() ==> text_less(bound, #[trigger] out[i].0)) by {
            assert forall|i: int| 0 <= i < rest.len() implies text_less(
                bound,
                #[trigger] rest[i].0,
            ) by {
                assert(rest[i] == m[i + 1]);
            }
            assert forall|i: int| 0 <= i < out.len() implies text_less(
                bound,
                #[trigger] out[i].0,
            ) by {
                if i > 0 {
                    assert(out[i] == tail[i - 1]);
                }
            }
        }
    }
}

/// A member that was set is found, and no other member changes.
pub proof fn lemma_inserted_lookup(m: Members, key: Seq<char>, v: Json, other: Seq<char>)
    ensures
        lookup(inserted(m, key, v), other) == if other == key {
            Some(v)
        } else {
            lookup(m, other)
        },
    decreases m.len(),
{
    let out = inserted(m, key, v);
    if m.len() == 0 {
        assert(out.skip(1) =~= m);
        assert(lookup(out.skip(1), other) is None);
    } else if m[0].0 == key {
        assert(out.skip(1) =~= m.skip(1));
    } else if text_less(key, m[0].0) {
        assert(out.skip(1) =~= m);
    } else {
        lemma_inserted_lookup(m.skip(1), key, v, other);
        assert(out.skip(1) =~= inserted(m.skip(1), key, v));
    }
}

// ---------------------------------------------------------------------------
// Numbers
// ---------------------------------------------------------------------------

/// The double nearest to a number.
pub open spec fn number_double(n: Number) -> u64 {
    match n {
        Number::PosInt(u) => from_int(u as int),
        Number::NegInt(i) => from_int(i as int),
        Number::Float(bits) => bits,
    }
}

/// The number as a signed 64-bit integer, if it is one.
pub open spec fn number_int(n: Number) -> Option<i64> {
    match n {
        Number::PosInt(u) => if u <= i64::MAX {
            Some(u as i64)
        } else {
            None
        },
        Number::NegInt(i) => Some(i),
        Number::Float(_) => None,
    }
}

/// The number of an integer.
pub open spec fn int_number(n: int) -> Number {
    if n >= 0 {
        Number::PosInt(n as u64)
    } else {
        Number::NegInt(n as i64)
    }
}

/// The value of a double: an integer where it is one below 2^53, null where
/// JSON has no number for it.
pub open spec fn double_json(bits: u64) -> Json {
    if is_safe_integer(bits) {
        Json::Number(int_number(truncated(bits, i64::MIN as int, i64::MAX as int)))
    } else if is_finite(bits) {
        Json::Number(Number::Float(bits))
    } else {
        Json::Null
    }
}

/// The value of a finite double is a number with that value.
pub proof fn lemma_double_json(bits: u64)
    requires
        is_finite(bits),
    ensures
        match double_json(bits) {
            Json::Number(n) => is_finite(number_double(n)) && value(number_double(n)) == value(
                bits,
            ),
            _ => false,
        },
{
    if is_safe_integer(bits) {
        lemma_safe_integer(bits);
    }
}

/// The double of a value that is a number.
pub open spec fn json_as_double(j: Json) -> Option<u64> {
    match j {
        Json::Number(n) => Some(number_double(n)),
        _ => None,
    }
}

/// The text of a value that is a string.
pub open spec fn json_as_text(j: Json) -> Option<Seq<char>> {
    match j {
        Json::String(s) => Some(s),
        _ => None,
    }
}

impl Number {
    /// The nearest double.
    pub fn as_double(&self) -> (r: u64)
        ensures
            r == number_double(*self),
    {
        match self {
            Number::PosInt(u) => from_u64(*u),
            Number::NegInt(i) => from_i64(*i),
            Number::Float(bits) => *bits,
        }
    }

    /// The number as a signed integer.
    pub fn as_i64(&self) -> (r: Option<i64>)
        ensures
            r == number_int(*self),
    {
        match self {
            Number::PosInt(u) => if *u <= 0x7fff_ffff_ffff_ffff {
                Some(*u as i64)
            } else {
                None
            },
            Number::NegInt(i) => Some(*i),
            Number::Float(_) => None,
        }
    }

    /// The number of a signed integer.
    pub fn from_i64(n: i64) -> (r: Number)
        ensures
            r == int_number(n as int),
    {
        if n >= 0 {
            Number::PosInt(n as u64)
        } else {
            Number::NegInt(n)
        }
    }
}

/// The value of a signed integer.
pub fn json_int(n: i64) -> (r: Value)
    ensures
        r@ == Json::Number(int_number(n as int)),
{
    Value::Number(Number::from_i64(n))
}

/// The value of a double.
pub fn json_num(bits: u64) -> (r: Value)
    ensures
        r@ == double_json(bits),
{
    if safe_integer(bits) {
        Value::Number(Number::from_i64(to_i64(bits)))
    } else if finite(bits) {
        Value::Number(Number::Float(bits))
    } else {
        Value::Null
    }
}

impl Value {
    /// A string value.
    pub fn text(s: &str) -> (r: Value)
        ensures
            r@ == Json::String(s@),
    {
        Value::String(s.to_owned())
    }

    /// The text of a string value.
    pub fn as_str(&self) -> (r: Option<&str>)
        ensures
            match r {
                Some(s) => json_as_text(self@) == Some(s@),
                None => json_as_text(self@) is None,
            },
    {
        match self {
            Value::String(s) => Some(s.as_str()),
            _ => None,
        }
    }

    /// The double of a number value.
    pub fn as_double(&self) -> (r: Option<u64>)
        ensures
            r == json_as_double(self@),
    {
        match self {
            Value::Number(n) => Some(n.as_double()),
            _ => None,
        }
    }

    /// Whether the value is null.
    pub fn is_null(&self) -> (r: bool)
        ensures
            r == (self@ is Null),
    {
        match self {
            Value::Null => true,
            _ => false,
        }
    }

    /// The member of an object value.
    pub fn get(&self, key: &str) -> (r: Option<&Value>)
        ensures
            match r {
                Some(v) => self@ is Object && lookup(self@->Object_0, key@) == Some(v@),
                None => !(self@ is Object) || lookup(self@->Object_0, key@) is None,
            },
    {
        match self {
            Value::Object(o) => o.get(key),
            _ => None,
        }
    }
}

// ---------------------------------------------------------------------------
// Structural equality
// ---------------------------------------------------------------------------

/// Whether two numbers are of the same kind and equal.
pub open spec fn same_number(a: Number, b: Number) -> bool {
    match (a, b) {
        (Number::PosInt(x), Number::PosInt(y)) => x == y,
        (Number::NegInt(x), Number::NegInt(y)) => x == y,
        (Number::Float(x), Number::Float(y)) => same(x, y),
        _ => false,
    }
}

/// Whether two values have the same structure and equal leaves.
pub open spec fn same_json(a: Json, b: Json) -> bool
    decreases a,
{
    match (a, b) {
        (Json::Null, Json::Null) => true,
        (Json::Bool(x), Json::Bool(y)) => x == y,
        (Json::Number(x), Json::Number(y)) => same_number(x, y),
        (Json::String(x), Json::String(y)) => x == y,
        (Json::Array(x), Json::Array(y)) => x.len() == y.len() && forall|i: int|
            0 <= i < x.len() ==> same_json(#[trigger] x[i], y[i]),
        (Json::Object(x), Json::Object(y)) => x.len() == y.len() && forall|i: int|
            0 <= i < x.len() ==> (#[trigger] x[i]).0 == y[i].0 && same_json(x[i].1, y[i].1),
        _ => false,
    }
}

/// Decides structural equality of numbers.
pub fn numbers_same(a: Number, b: Number) -> (r: bool)
    ensures
        r == same_number(a, b),
{
    match (a, b) {
        (Number::PosInt(x), Number::PosInt(y)) => x == y,
        (Number::NegInt(x), Number::NegInt(y)) => x == y,
        (Number::Float(x), Number::Float(y)) => equals(x, y),
        _ => false,
    }
}

/// Decides structural equality.
pub fn values_same(a: &Value, b: &Value) -> (r: bool)
    ensures
        r == same_json(a@, b@),
    decreases a,
{
    match (a, b) {
        (Value::Null, Value::Null) => true,
        (Value::Bool(x), Value::Bool(y)) => *x == *y,
        (Value::Number(x), Value::Number(y)) => numbers_same(*x, *y),
        (Value::String(x), Value::String(y)) => text_eq(x.as_str(), y.as_str()),
        (Value::Array(x), Value::Array(y)) => {
            if x.len() != y.len() {
                return false;
            }
            let mut i: usize = 0;
            while i < x.len()
                invariant
                    i <= x.len(),
                    x.len() == y.len(),
                    decreases_to!(a => x),
                    a@ == Json::Array(jsons(x@)),
                    b@ == Json::Array(jsons(y@)),
                    forall|j: int| 0 <= j < i ==> same_json(#[trigger] jsons(x@)[j], jsons(y@)[j]),
                decreases x.len() - i,
            {
                if !values_same(&x[i], &y[i]) {
                    assert(!same_json(jsons(x@)[i as int], jsons(y@)[i as int]));
                    return false;
                }
                i += 1;
            }
            true
        },
        (Value::Object(x), Value::Object(y)) => {
            if x.entries.len() != y.entries.len() {
                return false;
            }
            let mut i: usize = 0;
            while i < x.entries.len()
                invariant
                    i <= x.entries.len(),
                    x.entries.len() == y.entries.len(),
                    decreases_to!(a => x),
                    a@ == Json::Object(x@),
                    b@ == Json::Object(y@),
                    forall|j: int|
                        0 <= j < i ==> (#[trigger] x@[j]).0 == y@[j].0 && same_json(
                            x@[j].1,
                            y@[j].1,
                        ),
                decreases x.entries.len() - i,
            {
                assert(x@[i as int] == (x.entries@[i as int].0@, x.entries@[i as int].1@));
                assert(y@[i as int] == (y.entries@[i as int].0@, y.entries@[i as int].1@));
                if !text_eq(x.entries[i].0.as_str(), y.entries[i].0.as_str()) {
                    return false;
                }
                if !values_same(&x.entries[i].1, &y.entries[i].1) {
                    return false;
                }
                i += 1;
            }
            true
        },
        _ => false,
    }
}

// ---------------------------------------------------------------------------
// JSON text
// ---------------------------------------------------------------------------

/// The notation of one character inside a JSON string.
pub open spec fn escape(c: char) -> Seq<char> {
    if c == '"' {
        seq!['\\', '"']
    } else if c == '\\' {
        seq!['\\', '\\']
    } else if c == '\u{8}' {
        seq!['\\', 'b']
    } else if c == '\u{c}' {
        seq!['\\', 'f']
    } else if c == '\n' {
        seq!['\\', 'n']
    } else if c == '\r' {
        seq!['\\', 'r']
    } else if c == '\t' {
        seq!['\\', 't']
    } else if (c as u32) < 0x20 {
        seq![
            '\\',
            'u',
            '0',
            '0',
            digit_char((c as nat) / 16),
            digit_char((c as nat) % 16),
        ]
    } else {
        seq![c]
    }
}

/// The notation of the characters of a text inside a JSON string.
pub open spec fn escaped(s: Seq<char>) -> Seq<char>
    decreases s.len(),
{
    if s.len() == 0 {
        Seq::empty()
    } else {
        escaped(s.drop_last()) + escape(s.last())
    }
}

/// The JSON notation of a string.
pub open spec fn quoted(s: Seq<char>) -> Seq<char> {
    seq!['"'] + escaped(s) + seq!['"']
}

/// Trusted: `serde_json::to_string` puts a string between quotation marks and
/// escapes the quotation mark, the backslash and the control characters below
/// the space, the latter by their short form or by four hexadecimal digits.
#[verifier::external_body]
pub(crate) fn quote(text: &str) -> (r: String)
    ensures
        r@ == quoted(text@),
{
    serde_json::to_string(text).unwrap_or_default()
}

/// The JSON notation of a number.
pub open spec fn number_text(n: Number) -> Seq<char> {
    match n {
        Number::PosInt(u) => decimal(u as nat),
        Number::NegInt(i) => decimal_int(i as int),
        Number::Float(bits) => json_double_text(bits),
    }
}

/// The compact JSON notation of a value.
pub open spec fn json_text(j: Json) -> Seq<char>
    decreases j,
{
    match j {
        Json::Null => "null"@,
        Json::Bool(true) => "true"@,
        Json::Bool(false) => "false"@,
        Json::Number(n) => number_text(n),
        Json::String(s) => quoted(s),
        Json::Array(items) => "["@ + joined(item_texts(items), ","@) + "]"@,
        Json::Object(m) => "{"@ + joined(member_texts(m), ","@) + "}"@,
    }
}

/// Whether every double in a value is written as a decimal that denotes it.
pub open spec fn is_written(j: Json) -> bool
    decreases j,
{
    match j {
        Json::Number(Number::Float(bits)) => is_finite(bits) ==> denotes(
            json_double_text(bits),
            bits,
        ),
        Json::Array(items) => forall|i: int|
            0 <= i < items.len() ==> is_written(#[trigger] items[i]),
        Json::Object(m) => forall|i: int| 0 <= i < m.len() ==> is_written((#[trigger] m[i]).1),
        _ => true,
    }
}

/// The compact JSON notation of each item.
pub open spec fn item_texts(items: Seq<Json>) -> Seq<Seq<char>>
    decreases items,
{
    if items.len() == 0 {
        Seq::empty()
    } else {
        item_texts(items.drop_last()).push(json_text(items.last()))
    }
}

/// The compact JSON notation of each member.
pub open spec fn member_texts(m: Members) -> Seq<Seq<char>>
    decreases m,
{
    if m.len() == 0 {
        Seq::empty()
    } else {
        member_texts(m.drop_last()).push(quoted(m.last().0) + ":"@ + json_text(m.last().1))
    }
}

/// The text of a value as it appears in a message or an interpolated string: a
/// string stands for itself, any other value for its JSON notation.
pub open spec fn plain_text(j: Json) -> Seq<char> {
    match j {
        Json::String(s) => s,
        _ => json_text(j),
    }
}

impl Number {
    /// Writes the number.
    pub fn write(&self) -> (r: String)
        ensures
            r@ == number_text(*self),
            is_written(Json::Number(*self)),
    {
        match self {
            Number::PosInt(u) => u64_text(*u),
            Number::NegInt(i) => i64_text(*i),
            Number::Float(bits) => json_of_double(*bits),
        }
    }
}

/// Writes a value as compact JSON. What is written for a double denotes it.
pub fn write_json(v: &Value) -> (r: String)
    ensures
        r@ == json_text(v@),
        is_written(v@),
    decreases v,
{
    match v {
        Value::Null => "null".to_owned(),
        Value::Bool(b) => if *b {
            "true".to_owned()
        } else {
            "false".to_owned()
        },
        Value::Number(n) => n.write(),
        Value::String(s) => quote(s.as_str()),
        Value::Array(items) => {
            let mut texts: Vec<String> = Vec::new();
            let mut i: usize = 0;
            let ghost m = jsons(items@);
            assert(views(texts@) =~= item_texts(m.take(0)));
            while i < items.len()
                invariant
                    i <= items.len(),
                    decreases_to!(v => items),
                    m == jsons(items@),
                    views(texts@) == item_texts(m.take(i as int)),
                    forall|k: int| 0 <= k < i ==> is_written(#[trigger] m[k]),
                decreases items.len() - i,
            {
                let one = write_json(&items[i]);
                let ghost before = texts@;
                texts.push(one);
                proof {
                    let next = m.take(i + 1);
                    assert(next.drop_last() =~= m.take(i as int));
                    assert(next.last() == items@[i as int]@);
                    assert(views(texts@) =~= views(before).push(one@));
                }
                i += 1;
            }
            assert(m.take(items.len() as int) =~= m);
            let body = join(&texts, ",");
            concat3("[", body.as_str(), "]")
        },
        Value::Object(o) => {
            let mut texts: Vec<String> = Vec::new();
            let mut i: usize = 0;
            let ghost m = o@;
            assert(views(texts@) =~= member_texts(m.take(0)));
            while i < o.entries.len()
                invariant
                    i <= o.entries.len(),
                    decreases_to!(v => o),
                    m == o@,
                    views(texts@) == member_texts(m.take(i as int)),
                    forall|k: int| 0 <= k < i ==> is_written((#[trigger] m[k]).1),
                decreases o.entries.len() - i,
            {
                let key = quote(o.entries[i].0.as_str());
                let one = write_json(&o.entries[i].1);
                let text = concat3(key.as_str(), ":", one.as_str());
                let ghost before = texts@;
                texts.push(text);
                proof {
                    let next = m.take(i + 1);
                    assert(next.drop_last() =~= m.take(i as int));
                    assert(next.last() == (o.entries@[i as int].0@, o.entries@[i as int].1@));
                    assert(views(texts@) =~= views(before).push(text@));
                }
                i += 1;
            }
            assert(m.take(o.entries.len() as int) =~= m);
            let body = join(&texts, ",");
            concat3("{", body.as_str(), "}")
        },
    }
}

/// Writes a value as it appears in an interpolated string.
pub fn to_string(v: &Value) -> (r: String)
    ensures
        r@ == plain_text(v@),
{
    match v {
        Value::String(s) => s.clone(),
        _ => write_json(v),
    }
}

} // verus!
