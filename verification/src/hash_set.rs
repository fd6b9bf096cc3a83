//! A set that tells its elements apart by their hash keys alone.

use std::collections::hash_map::DefaultHasher;
use std::hash::{Hash, Hasher};
use vstd::prelude::*;

verus! {

/// `Hash::hash`: feeds a value to a hasher. Nothing is claimed of what
/// the hasher has taken in afterwards.
#[verifier::external_body]
fn feed<V: Hash>(value: &V, hasher: &mut DefaultHasher) {
    value.hash(hasher);
}

/// A set of values, each stored under its hash key. Values with the same
/// key count as the same element: the first one stays.
///
/// Its view is the sequence of the stored keys and values, in the order
/// in which they came.
pub struct HashSet<V: Eq + Hash> {
    data: Vec<(u64, Box<V>)>,
}

/// Some entry of `entries` has the key `key`.
pub open spec fn has_key<V>(entries: Seq<(u64, V)>, key: u64) -> bool {
    exists|i: int| 0 <= i < entries.len() && (#[trigger] entries[i]).0 == key
}

/// No two entries have the same key.
pub open spec fn distinct_keys<V>(entries: Seq<(u64, V)>) -> bool {
    forall|i: int, j: int|
        0 <= i < j < entries.len() ==> (#[trigger] entries[i]).0 != (#[trigger] entries[j]).0
}

/// The entries after a value has come with the key `key`: it joins at the
/// end unless the key is taken.
pub open spec fn with_entry<V>(entries: Seq<(u64, V)>, key: u64, value: V) -> Seq<(u64, V)> {
    if has_key(entries, key) {
        entries
    } else {
        entries.push((key, value))
    }
}

impl<V: Eq + Hash> View for HashSet<V> {
    type V = Seq<(u64, V)>;

    closed spec fn view(&self) -> Seq<(u64, V)> {
        Seq::new(self.data@.len(), |i: int| (self.data@[i].0, *self.data@[i].1))
    }
}

impl<V: Eq + Hash> HashSet<V> {
    /// The invariant of the set: no key is stored twice.
    pub open spec fn wf(&self) -> bool {
        distinct_keys(self@)
    }

    /// The empty set.
    pub fn new() -> (set: Self)
        ensures
            set.wf(),
            set@ == Seq::<(u64, V)>::empty(),
    {
        let set = Self { data: vec![] };
        proof {
            assert(set@ =~= Seq::<(u64, V)>::empty());
        }
        set
    }

    /// Adds `value` under the key `key` unless that key is taken. Returns
    /// whether the set grew.
    pub fn insert_with_key(&mut self, key: u64, value: V) -> (inserted: bool)
        requires
            old(self).wf(),
        ensures
            final(self).wf(),
            inserted == !has_key(old(self)@, key),
            final(self)@ == with_entry(old(self)@, key, value),
    {
        let mut at: usize = 0;
        while at < self.data.len()
            invariant
                at <= self.data.len(),
                *self == *old(self),
                self.wf(),
                forall|i: int| 0 <= i < at ==> (#[trigger] self@[i]).0 != key,
            decreases self.data.len() - at,
        {
            if self.data[at].0 == key {
                proof {
                    assert(self@[at as int].0 == key);
                }
                return false;
            }
            at += 1;
        }
        self.data.push((key, Box::new(value)));
        proof {
            assert(self@ =~= old(self)@.push((key, value)));
        }
        true
    }

    /// Adds `value` under its hash key unless that key is taken. Returns
    /// whether the set grew.
    pub fn insert(&mut self, value: V) -> (inserted: bool)
        requires
            old(self).wf(),
        ensures
            final(self).wf(),
            exists|key: u64|
                inserted == !#[trigger] has_key(old(self)@, key) && final(self)@ == with_entry(
                    old(self)@,
                    key,
                    value,
                ),
    {
        let mut hasher = DefaultHasher::new();
        feed(&value, &mut hasher);

        let key = hasher.finish();

        self.insert_with_key(key, value)
    }

    /// The number of elements.
    pub fn len(&self) -> (count: usize)
        ensures
            count == self@.len(),
    {
        self.data.len()
    }

    /// Whether the set has no element.
    pub fn is_empty(&self) -> (empty: bool)
        ensures
            empty == (self@.len() == 0),
    {
        self.data.is_empty()
    }
}

} // verus!
