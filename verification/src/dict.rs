//! A map from text to values, kept as a list sorted by key with each key once.
use crate::text::{
    lemma_less_irreflexive, lemma_less_total, lemma_less_transitive, less, text_eq, text_less,
};
use vstd::prelude::*;

verus! {

/// A map from text to values.
#[derive(Debug)]
pub struct Dict<V> {
    pub(crate) entries: Vec<(String, V)>,
}

impl<V> Dict<V> {
    /// The keys are strictly increasing.
    #[verifier::type_invariant]
    pub(crate) open spec fn is_ordered(self) -> bool {
        keys_increasing(self@)
    }
}

/// The model of a map: its entries, with the keys as character sequences.
pub type Entries<V> = Seq<(Seq<char>, V)>;

impl<V> View for Dict<V> {
    type V = Entries<V>;

    open(crate) spec fn view(&self) -> Entries<V> {
        list_entries(self.entries@)
    }
}

/// The model of entries that stand in a list.
pub open spec fn list_entries<V>(entries: Seq<(String, V)>) -> Entries<V> {
    entries.map_values(|e: (String, V)| (e.0@, e.1))
}

/// The value of the first entry with the key.
pub open spec fn entry<V>(m: Entries<V>, key: Seq<char>) -> Option<V>
    decreases m.len(),
{
    if m.len() == 0 {
        None
    } else if m[0].0 == key {
        Some(m[0].1)
    } else {
        entry(m.skip(1), key)
    }
}

/// The entries with one set: its value is replaced, or it is put before the
/// first larger key.
pub open spec fn with_entry<V>(m: Entries<V>, key: Seq<char>, v: V) -> Entries<V>
    decreases m.len(),
{
    if m.len() == 0 {
        seq![(key, v)]
    } else if m[0].0 == key {
        m.update(0, (key, v))
    } else if text_less(key, m[0].0) {
        seq![(key, v)] + m
    } else {
        seq![m[0]] + with_entry(m.skip(1), key, v)
    }
}

/// The entries with their values by their views.
pub open spec fn entry_views<V: View>(m: Entries<V>) -> Seq<(Seq<char>, V::V)> {
    m.map_values(|e: (Seq<char>, V)| (e.0, e.1@))
}

/// Setting an entry and viewing the values commute.
pub proof fn lemma_view_of_set<V: View>(m: Entries<V>, key: Seq<char>, v: V)
    ensures
        entry_views(with_entry(m, key, v)) == with_entry(entry_views(m), key, v@),
    decreases m.len(),
{
    let out = with_entry(m, key, v);
    let t = entry_views(m);
    if m.len() == 0 {
        assert(entry_views(out) =~= seq![(key, v@)]);
    } else if m[0].0 == key {
        assert(entry_views(out) =~= t.update(0, (key, v@)));
    } else if text_less(key, m[0].0) {
        assert(entry_views(out) =~= seq![(key, v@)] + t);
    } else {
        lemma_view_of_set(m.skip(1), key, v);
        assert(entry_views(m.skip(1)) =~= t.skip(1));
        assert(entry_views(out) =~= seq![t[0]] + entry_views(with_entry(m.skip(1), key, v)));
    }
}

/// Looking an entry up and viewing its value commute.
pub proof fn lemma_view_of_entry<V: View>(m: Entries<V>, key: Seq<char>)
    ensures
        entry(entry_views(m), key) == (match entry(m, key) {
            Some(v) => Some(v@),
            None => None,
        }),
    decreases m.len(),
{
    let t = entry_views(m);
    if m.len() > 0 && m[0].0 != key {
        lemma_view_of_entry(m.skip(1), key);
        assert(entry_views(m.skip(1)) =~= t.skip(1));
    }
}

/// Whether the keys are strictly increasing, so that each stands once.
pub open spec fn keys_increasing<V>(m: Entries<V>) -> bool {
    forall|i: int, j: int| 0 <= i < j < m.len() ==> text_less(#[trigger] m[i].0, #[trigger] m[j].0)
}

/// Setting an entry keeps the keys increasing.
pub proof fn law_keys_stay_increasing<V>(m: Entries<V>, key: Seq<char>, v: V)
    requires
        keys_increasing(m),
    ensures
        keys_increasing(with_entry(m, key, v)),
    decreases m.len(),
{
    lemma_increasing_above(m, key, v, Seq::empty());
}

/// Setting an entry keeps the keys increasing, and keeps them above a bound that
/// the new key is above too.
proof fn lemma_increasing_above<V>(m: Entries<V>, key: Seq<char>, v: V, bound: Seq<char>)
    requires
        keys_increasing(m),
    ensures
        keys_increasing(with_entry(m, key, v)),
        text_less(bound, key) && (forall|i: int|
            0 <= i < m.len() ==> text_less(bound, #[trigger] m[i].0)) ==> (forall|i: int|
            0 <= i < with_entry(m, key, v).len() ==> text_less(
                bound,
                #[trigger] with_entry(m, key, v)[i].0,
            )),
    decreases m.len(),
{
    let out = with_entry(m, key, v);
    if m.len() == 0 {
    } else if m[0].0 == key {
        assert forall|i: int| 0 <= i < out.len() implies #[trigger] out[i].0 == m[i].0 by {}
    } else if text_less(key, m[0].0) {
        assert forall|i: int, j: int| 0 <= i < j < out.len() implies text_less(
            #[trigger] out[i].0,
            #[trigger] out[j].0,
        ) by {
            assert(out[j] == m[j - 1]);
            if i == 0 {
                if j > 1 {
                    lemma_less_transitive(key, m[0].0, m[j - 1].0);
                }
            } else {
                assert(out[i] == m[i - 1]);
            }
        }
    } else {
        lemma_less_total(key, m[0].0);
        let rest = m.skip(1);
        assert forall|i: int, j: int| 0 <= i < j < rest.len() implies text_less(
            #[trigger] rest[i].0,
            #[trigger] rest[j].0,
        ) by {
            assert(rest[i] == m[i + 1] && rest[j] == m[j + 1]);
        }
        let tail = with_entry(rest, key, v);
        lemma_increasing_above(rest, key, v, m[0].0);
        assert forall|i: int| 0 <= i < rest.len() implies text_less(
            m[0].0,
            #[trigger] rest[i].0,
        ) by {
            assert(rest[i] == m[i + 1]);
        }
        assert forall|i: int, j: int| 0 <= i < j < out.len() implies text_less(
            #[trigger] out[i].0,
            #[trigger] out[j].0,
        ) by {
            assert(out[j] == tail[j - 1]);
            if i > 0 {
                assert(out[i] == tail[i - 1]);
            }
        }
        if text_less(bound, key) && (forall|i: int|
            0 <= i < m.len() ==> text_less(bound, #[trigger] m[i].0)) {
            lemma_increasing_above(rest, key, v, bound);
            assert forall|i: int| 0 <= i < rest.len() implies text_less(
                bound,
                #[trigger] rest[i].0,
            ) by {
                assert(rest[i] == m[i + 1]);
            }
            assert forall|i: int| 0 <= i < out.len() implies text_less(
                bound,
                #[trigger] out[i].0,
            ) by {
                if i > 0 {
                    assert(out[i] == tail[i - 1]);
                }
            }
        }
    }
}

/// Where keys increase, each entry is the one that its key finds.
pub proof fn law_each_key_once<V>(m: Entries<V>, i: int)
    requires
        keys_increasing(m),
        0 <= i < m.len(),
    ensures
        entry(m, m[i].0) == Some(m[i].1),
    decreases m.len(),
{
    if i > 0 {
        let rest = m.skip(1);
        assert forall|a: int, b: int| 0 <= a < b < rest.len() implies text_less(
            #[trigger] rest[a].0,
            #[trigger] rest[b].0,
        ) by {
            assert(rest[a] == m[a + 1] && rest[b] == m[b + 1]);
        }
        assert(rest[i - 1] == m[i]);
        law_each_key_once(rest, i - 1);
        assert(text_less(m[0].0, m[i].0));
        lemma_less_irreflexive(m[i].0);
    }
}

/// Setting an entry makes it the one that is found, and changes no other.
pub proof fn lemma_with_entry<V>(m: Entries<V>, key: Seq<char>, v: V, other: Seq<char>)
    ensures
        entry(with_entry(m, key, v), other) == (if other == key {
            Some(v)
        } else {
            entry(m, other)
        }),
    decreases m.len(),
{
    let out = with_entry(m, key, v);
    if m.len() == 0 {
        assert(out.skip(1) =~= m);
        assert(entry(out.skip(1), other) is None);
    } else if m[0].0 == key {
        assert(out.skip(1) =~= m.skip(1));
    } else if text_less(key, m[0].0) {
        assert(out.skip(1) =~= m);
    } else {
        lemma_with_entry(m.skip(1), key, v, other);
        assert(out.skip(1) =~= with_entry(m.skip(1), key, v));
    }
}

/// Sets an entry of a list of entries.
fn set_entry<V>(entries: &mut Vec<(String, V)>, key: String, v: V)
    ensures
        list_entries(final(entries)@) == with_entry(list_entries(old(entries)@), key@, v),
{
    let ghost m = list_entries(entries@);
    let ghost k = key@;
    let mut i: usize = 0;
    assert(m.skip(0) =~= m);
    assert(m.take(0) + with_entry(m, k, v) =~= with_entry(m, k, v));
    while i < entries.len()
        invariant
            i <= entries.len(),
            list_entries(entries@) == m,
            m == list_entries(old(entries)@),
            key@ == k,
            m.take(i as int) + with_entry(m.skip(i as int), k, v) == with_entry(m, k, v),
        decreases entries.len() - i,
    {
        let ghost rest = m.skip(i as int);
        assert(rest[0] == m[i as int] && m[i as int].0 == entries@[i as int].0@);
        if text_eq(entries[i].0.as_str(), key.as_str()) {
            entries.set(i, (key, v));
            proof {
                assert(list_entries(entries@) =~= m.update(i as int, (k, v)));
                assert(m.take(i as int) + rest.update(0, (k, v)) =~= m.update(
                    i as int,
                    (k, v),
                ));
            }
            return;
        }
        if less(key.as_str(), entries[i].0.as_str()) {
            entries.insert(i, (key, v));
            proof {
                assert(list_entries(entries@) =~= m.take(i as int) + (seq![(k, v)] + rest));
            }
            return;
        }
        proof {
            assert(rest.skip(1) =~= m.skip(i + 1));
            assert(m.take(i + 1) + with_entry(m.skip(i + 1), k, v) =~= m.take(i as int) + (
            seq![m[i as int]] + with_entry(m.skip(i + 1), k, v)));
        }
        i += 1;
    }
    proof {
        assert(m.skip(i as int) =~= Seq::empty());
        assert(m.take(i as int) =~= m);
    }
    entries.push((key, v));
    assert(list_entries(entries@) =~= m + seq![(k, v)]);
}

impl<V> Dict<V> {
    /// A map without entries.
    pub fn new() -> (r: Self)
        ensures
            r@ == Seq::<(Seq<char>, V)>::empty(),
            keys_increasing(r@),
    {
        let r = Dict { entries: Vec::new() };
        assert(r@ =~= Seq::<(Seq<char>, V)>::empty());
        r
    }

    /// The number of entries.
    pub fn len(&self) -> (r: usize)
        ensures
            r == self@.len(),
    {
        self.entries.len()
    }

    /// The value of an entry.
    pub fn get(&self, key: &str) -> (r: Option<&V>)
        ensures
            match r {
                Some(v) => entry(self@, key@) == Some(*v),
                None => entry(self@, key@) is None,
            },
    {
        let mut i: usize = 0;
        assert(self@.skip(0) =~= self@);
        while i < self.entries.len()
            invariant
                i <= self.entries.len(),
                entry(self@.skip(i as int), key@) == entry(self@, key@),
            decreases self.entries.len() - i,
        {
            assert(self@.skip(i as int)[0] == self@[i as int]);
            if text_eq(self.entries[i].0.as_str(), key) {
                return Some(&self.entries[i].1);
            }
            assert(self@.skip(i as int).skip(1) =~= self@.skip(i + 1));
            i += 1;
        }
        None
    }

    /// Sets an entry.
    pub fn insert(&mut self, key: String, v: V)
        ensures
            final(self)@ == with_entry(old(self)@, key@, v),
    {
        let mut whole: Dict<V> = Dict::new();
        std::mem::swap(self, &mut whole);
        proof {
            use_type_invariant(&whole);
            law_keys_stay_increasing(whole@, key@, v);
        }
        let mut entries = whole.entries;
        set_entry(&mut entries, key, v);
        *self = Dict { entries };
    }

    /// The entries, sorted by key.
    pub fn entries(&self) -> (r: &Vec<(String, V)>)
        ensures
            list_entries(r@) == self@,
            keys_increasing(self@),
    {
        proof {
            use_type_invariant(self);
        }
        &self.entries
    }
}

} // verus!
