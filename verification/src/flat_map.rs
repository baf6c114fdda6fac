//! The flat map that flattening fills, and the rule by which values that
//! share a key are merged.

use vstd::prelude::*;

verus! {

/// The mathematical model of a flattened value.
pub enum Flat<S> {
    /// The only scalar recorded under a key.
    Scalar(S),
    /// All scalars recorded under a key, in the order in which they came.
    Sequence(Seq<S>),
}

/// The mathematical model of a flat map: its entries in the order in which
/// their keys were first recorded.
pub type Entries<S> = Seq<(Seq<char>, Flat<S>)>;

/// The index of the entry stored under `key`, if there is one.
pub open spec fn position<V>(m: Seq<(Seq<char>, V)>, key: Seq<char>) -> Option<int> {
    if exists|i: int| 0 <= i < m.len() && (#[trigger] m[i]).0 == key {
        Some(choose|i: int| 0 <= i < m.len() && (#[trigger] m[i]).0 == key)
    } else {
        None
    }
}

/// No two entries share a key.
pub open spec fn keys_distinct<V>(m: Seq<(Seq<char>, V)>) -> bool {
    forall|i: int, j: int| 0 <= i < j < m.len() ==> (#[trigger] m[i]).0 != (#[trigger] m[j]).0
}

/// Every sequence holds at least two scalars: a key with a single scalar
/// holds it bare.
pub open spec fn sequences_merged<S>(m: Entries<S>) -> bool {
    forall|i: int|
        0 <= i < m.len() ==> ((#[trigger] m[i]).1 matches Flat::Sequence(xs) ==> xs.len() >= 2)
}

/// The invariant of a flat map.
pub open spec fn well_formed<S>(m: Entries<S>) -> bool {
    keys_distinct(m) && sequences_merged(m)
}

/// What a key holds once `scalar` has joined what it held before.
pub open spec fn merged<S>(current: Flat<S>, scalar: S) -> Flat<S> {
    match current {
        Flat::Scalar(first) => Flat::Sequence(seq![first, scalar]),
        Flat::Sequence(earlier) => Flat::Sequence(earlier.push(scalar)),
    }
}

/// The map after `scalar` was recorded under `key`: a new key is appended
/// with the bare scalar, a known key keeps its place and merges the scalar
/// into what it holds.
pub open spec fn record<S>(m: Entries<S>, key: Seq<char>, scalar: S) -> Entries<S> {
    match position(m, key) {
        None => m.push((key, Flat::Scalar(scalar))),
        Some(i) => m.update(i, (key, merged(m[i].1, scalar))),
    }
}

/// A key that no entry has is stored nowhere.
pub proof fn lemma_position_absent<V>(m: Seq<(Seq<char>, V)>, key: Seq<char>)
    requires
        forall|i: int| 0 <= i < m.len() ==> (#[trigger] m[i]).0 != key,
    ensures
        position(m, key) is None,
{
}

/// Where keys are unique, a key is stored at the one index that has it.
pub proof fn lemma_position_present<V>(m: Seq<(Seq<char>, V)>, key: Seq<char>, at: int)
    requires
        keys_distinct(m),
        0 <= at < m.len(),
        m[at].0 == key,
    ensures
        position(m, key) == Some(at),
{
    let chosen = choose|i: int| 0 <= i < m.len() && (#[trigger] m[i]).0 == key;
    if chosen < at {
        assert(m[chosen].0 != m[at].0);
    } else if chosen > at {
        assert(m[at].0 != m[chosen].0);
    }
}

/// Recording keeps the invariant of a flat map.
pub proof fn lemma_record_well_formed<S>(m: Entries<S>, key: Seq<char>, scalar: S)
    requires
        well_formed(m),
    ensures
        well_formed(record(m, key, scalar)),
{
    let r = record(m, key, scalar);
    match position(m, key) {
        None => {
            assert forall|i: int, j: int| 0 <= i < j < r.len() implies (#[trigger] r[i]).0 != (
            #[trigger] r[j]).0 by {
                if j == m.len() {
                    assert(m[i].0 != key);
                } else {
                    assert(m[i].0 != m[j].0);
                }
            }
            assert forall|i: int| 0 <= i < r.len() implies (
                (#[trigger] r[i]).1 matches Flat::Sequence(xs) ==> xs.len() >= 2
            ) by {
                if i < m.len() {
                    assert(r[i] == m[i]);
                }
            }
        },
        Some(p) => {
            assert forall|i: int, j: int| 0 <= i < j < r.len() implies (#[trigger] r[i]).0 != (
            #[trigger] r[j]).0 by {
                assert(r[i].0 == m[i].0);
                assert(r[j].0 == m[j].0);
            }
            assert forall|i: int| 0 <= i < r.len() implies (
                (#[trigger] r[i]).1 matches Flat::Sequence(xs) ==> xs.len() >= 2
            ) by {
                if i != p {
                    assert(r[i] == m[i]);
                } else {
                    assert(m[p].1 matches Flat::Sequence(xs) ==> xs.len() >= 2);
                }
            }
        },
    }
}

/// A flattened value: a bare scalar, or the sequence of the scalars that
/// were recorded under one key.
#[derive(Debug, PartialEq, Eq)]
pub enum FlatValue<S> {
    /// The only scalar recorded under the key.
    Scalar(S),
    /// All scalars recorded under the key, in the order in which they came.
    Sequence(Vec<S>),
}

impl<S> View for FlatValue<S> {
    type V = Flat<S>;

    open spec fn view(&self) -> Flat<S> {
        match self {
            FlatValue::Scalar(s) => Flat::Scalar(*s),
            FlatValue::Sequence(items) => Flat::Sequence(items@),
        }
    }
}

/// The model of one stored entry.
pub open spec fn entry_view<S>(entry: (String, FlatValue<S>)) -> (Seq<char>, Flat<S>) {
    (entry.0@, entry.1@)
}

/// A map from dotted paths to flattened values, in the order in which the
/// paths were first recorded.
#[derive(Debug, PartialEq, Eq)]
pub struct FlatMap<S> {
    entries: Vec<(String, FlatValue<S>)>,
}

impl<S> View for FlatMap<S> {
    type V = Entries<S>;

    closed spec fn view(&self) -> Entries<S> {
        self.entries@.map_values(|e: (String, FlatValue<S>)| entry_view(e))
    }
}

impl<S> FlatMap<S> {
    /// Keys are unique, and no sequence is shorter than two.
    #[verifier::type_invariant]
    spec fn inv(self) -> bool {
        well_formed(self@)
    }

    /// An empty map.
    pub fn new() -> (m: Self)
        ensures
            m@ == Seq::<(Seq<char>, Flat<S>)>::empty(),
    {
        let entries: Vec<(String, FlatValue<S>)> = Vec::new();
        assert(entries@.map_values(|e: (String, FlatValue<S>)| entry_view(e))
            =~= Seq::<(Seq<char>, Flat<S>)>::empty());
        FlatMap { entries }
    }

    /// The number of keys.
    pub fn len(&self) -> (n: usize)
        ensures
            n == self@.len(),
    {
        self.entries.len()
    }

    /// What is stored under `key`, if anything.
    pub fn get(&self, key: &str) -> (value: Option<&FlatValue<S>>)
        ensures
            well_formed(self@),
            match position(self@, key@) {
                Some(i) => value matches Some(found) && found@ == self@[i].1,
                None => value is None,
            },
    {
        let owned = key.to_owned();
        match self.find(&owned) {
            Some(i) => Some(&self.entries[i].1),
            None => None,
        }
    }

    /// The entries, in the order in which their keys were first recorded.
    pub fn entries(&self) -> (entries: &Vec<(String, FlatValue<S>)>)
        ensures
            entries@.map_values(|e: (String, FlatValue<S>)| entry_view(e)) == self@,
            well_formed(self@),
    {
        proof {
            use_type_invariant(self);
        }
        &self.entries
    }

    /// The entries, in the order in which their keys were first recorded.
    pub fn into_entries(self) -> (entries: Vec<(String, FlatValue<S>)>)
        ensures
            entries@.map_values(|e: (String, FlatValue<S>)| entry_view(e)) == self@,
            well_formed(self@),
    {
        proof {
            use_type_invariant(&self);
        }
        self.entries
    }

    /// Where `key` is stored, searching from the front.
    fn find(&self, key: &String) -> (found: Option<usize>)
        ensures
            well_formed(self@),
            match found {
                Some(i) => position(self@, key@) == Some(i as int) && i < self@.len(),
                None => position(self@, key@) is None,
            },
    {
        proof {
            use_type_invariant(self);
        }
        let mut i: usize = 0;
        while i < self.entries.len()
            invariant
                i <= self.entries.len(),
                well_formed(self@),
                forall|j: int| 0 <= j < i ==> (#[trigger] self@[j]).0 != key@,
            decreases self.entries.len() - i,
        {
            if self.entries[i].0 == *key {
                proof {
                    lemma_position_present(self@, key@, i as int);
                }
                return Some(i);
            }
            i = i + 1;
        }
        None
    }

    /// Records `scalar` under `key`: a new key is appended and holds the
    /// bare scalar; a key that holds a bare scalar is promoted to the pair of
    /// that scalar and the new one; a key that holds a sequence has the
    /// scalar appended.
    pub fn record(&mut self, key: String, scalar: S)
        ensures
            final(self)@ == record(old(self)@, key@, scalar),
            well_formed(final(self)@),
    {
        let found = self.find(&key);
        proof {
            lemma_record_well_formed(self@, key@, scalar);
        }
        let mut entries: Vec<(String, FlatValue<S>)> = Vec::new();
        proof {
            assert(entries@.map_values(|e: (String, FlatValue<S>)| entry_view(e))
                =~= Seq::<(Seq<char>, Flat<S>)>::empty());
        }
        std::mem::swap(&mut entries, &mut self.entries);
        match found {
            None => {
                entries.push((key, FlatValue::Scalar(scalar)));
            },
            Some(i) => {
                let (stored_key, current) = entries.remove(i);
                let next = match current {
                    FlatValue::Scalar(first) => {
                        let mut items = Vec::new();
                        items.push(first);
                        items.push(scalar);
                        assert(items@ =~= seq![first, scalar]);
                        FlatValue::Sequence(items)
                    },
                    FlatValue::Sequence(mut items) => {
                        items.push(scalar);
                        FlatValue::Sequence(items)
                    },
                };
                entries.insert(i, (stored_key, next));
            },
        }
        assert(entries@.map_values(|e: (String, FlatValue<S>)| entry_view(e)) =~= record(
            old(self)@,
            key@,
            scalar,
        ));
        self.entries = entries;
    }
}

} // verus!
