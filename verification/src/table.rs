//! Maps that keep their entries in the order in which they were added, so
//! that the order of reported errors never depends on how a hash map
//! happens to be walked.

use crate::GlobalIdent;
use vstd::prelude::*;

verus! {

/// Whether the entries hold the key.
pub open spec fn holds<A, B>(entries: Seq<(A, B)>, key: A) -> bool {
    exists|i: int| 0 <= i < entries.len() && (#[trigger] entries[i]).0 == key
}

/// Whether `i` is the first place at which the entries hold the key.
pub open spec fn is_place<A, B>(entries: Seq<(A, B)>, key: A, i: int) -> bool {
    &&& 0 <= i < entries.len()
    &&& entries[i].0 == key
    &&& forall|j: int| 0 <= j < i ==> (#[trigger] entries[j]).0 != key
}

/// The first place at which the entries hold the key.
pub open spec fn place<A, B>(entries: Seq<(A, B)>, key: A) -> int {
    choose|i: int| is_place(entries, key, i)
}

/// The value that the entries give the key: that of its first entry.
pub open spec fn lookup<A, B>(entries: Seq<(A, B)>, key: A) -> Option<B> {
    if holds(entries, key) {
        Some(entries[place(entries, key)].1)
    } else {
        None
    }
}

/// The entries with the key given the value: in place where the key is
/// held already, at the end where it is not.
pub open spec fn put<A, B>(entries: Seq<(A, B)>, key: A, value: B) -> Seq<(A, B)> {
    if holds(entries, key) {
        entries.update(place(entries, key), (key, value))
    } else {
        entries.push((key, value))
    }
}

/// No key occurs twice in the entries.
pub open spec fn distinct<A, B>(entries: Seq<(A, B)>) -> bool {
    forall|i: int, j: int|
        0 <= i < j < entries.len() ==> (#[trigger] entries[i]).0 != (#[trigger] entries[j]).0
}

/// A key that the entries hold has a first place.
pub proof fn lemma_place<A, B>(entries: Seq<(A, B)>, key: A)
    requires
        holds(entries, key),
    ensures
        is_place(entries, key, place(entries, key)),
    decreases entries.len(),
{
    let i = choose|i: int| 0 <= i < entries.len() && (#[trigger] entries[i]).0 == key;
    if exists|j: int| 0 <= j < i && (#[trigger] entries[j]).0 == key {
        let shorter = entries.take(i);
        let j = choose|j: int| 0 <= j < i && (#[trigger] entries[j]).0 == key;
        assert(shorter[j].0 == key);
        lemma_place(shorter, key);
        let p = place(shorter, key);
        assert(is_place(entries, key, p)) by {
            assert(entries[p] == shorter[p]);
            assert forall|k: int| 0 <= k < p implies (#[trigger] entries[k]).0 != key by {
                assert(entries[k] == shorter[k]);
            }
        }
    } else {
        assert(is_place(entries, key, i));
    }
}

/// What can serve as the key of a [`Table`].
pub trait Key: Sized {
    /// What the key stands for.
    type Model;

    /// What the key stands for: two keys are the same key when these
    /// agree.
    spec fn key_model(&self) -> Self::Model;

    /// Whether two keys are the same key.
    fn same_key(&self, other: &Self) -> (r: bool)
        ensures
            r == (self.key_model() == other.key_model()),
    ;

    /// A copy of the key.
    fn copy_key(&self) -> (r: Self)
        ensures
            r.key_model() == self.key_model(),
    ;
}

impl Key for String {
    type Model = Seq<char>;

    open spec fn key_model(&self) -> Seq<char> {
        self@
    }

    fn same_key(&self, other: &Self) -> (r: bool) {
        *self == *other
    }

    fn copy_key(&self) -> (r: Self) {
        self.clone()
    }
}

impl Key for GlobalIdent {
    type Model = Seq<Seq<char>>;

    open spec fn key_model(&self) -> Seq<Seq<char>> {
        self@
    }

    fn same_key(&self, other: &Self) -> (r: bool) {
        self.same(other)
    }

    fn copy_key(&self) -> (r: Self) {
        self.duplicate()
    }
}

/// The entries with each key replaced by what it stands for.
pub open spec fn keyed<K: Key, V>(entries: Seq<(K, V)>) -> Seq<(K::Model, V)> {
    Seq::new(entries.len(), |i: int| (entries[i].0.key_model(), entries[i].1))
}

/// A map from keys to values that remembers the order of insertion.
#[derive(Debug)]
pub struct Table<K, V> {
    pub entries: Vec<(K, V)>,
}

impl<K: Key, V> Table<K, V> {
    /// The entries, each key replaced by what it stands for.
    pub open spec fn model(&self) -> Seq<(K::Model, V)> {
        keyed(self.entries@)
    }

    /// Whether no key occurs twice.
    pub open spec fn wf(&self) -> bool {
        distinct(self.model())
    }

    /// The empty table.
    pub fn new() -> (r: Self)
        ensures
            r.entries@.len() == 0,
            r.model().len() == 0,
            r.wf(),
    {
        Self { entries: Vec::new() }
    }

    /// The number of entries.
    pub fn len(&self) -> (r: usize)
        ensures
            r == self.entries@.len(),
    {
        self.entries.len()
    }

    /// The first place at which the table holds the key.
    pub fn position(&self, key: &K) -> (r: Option<usize>)
        ensures
            r.is_some() == holds(self.model(), key.key_model()),
            r matches Some(i) ==> is_place(self.model(), key.key_model(), i as int) && i == place(
                self.model(),
                key.key_model(),
            ),
    {
        let mut i: usize = 0;
        while i < self.entries.len()
            invariant
                i <= self.entries@.len(),
                forall|j: int| 0 <= j < i ==> (#[trigger] self.model()[j]).0 != key.key_model(),
            decreases self.entries@.len() - i,
        {
            if self.entries[i].0.same_key(key) {
                assert(is_place(self.model(), key.key_model(), i as int));
                return Some(i);
            }
            i += 1;
        }
        None
    }

    /// Whether the table holds the key.
    pub fn contains_key(&self, key: &K) -> (r: bool)
        ensures
            r == holds(self.model(), key.key_model()),
    {
        self.position(key).is_some()
    }

    /// The value that the table gives the key.
    pub fn get(&self, key: &K) -> (r: Option<&V>)
        ensures
            r.is_some() == holds(self.model(), key.key_model()),
            r matches Some(v) ==> lookup(self.model(), key.key_model()) == Some(*v),
    {
        match self.position(key) {
            Some(i) => {
                assert(self.model()[i as int].1 == self.entries@[i as int].1);
                Some(&self.entries[i].1)
            },
            None => None,
        }
    }

    /// Adds the entry unless the key is held already. Returns whether it
    /// was added.
    pub fn insert_new(&mut self, key: K, value: V) -> (r: bool)
        ensures
            r == !holds(old(self).model(), key.key_model()),
            r ==> final(self).entries@ == old(self).entries@.push((key, value)),
            r ==> final(self).model() == old(self).model().push((key.key_model(), value)),
            !r ==> final(self).entries@ == old(self).entries@,
            old(self).wf() ==> final(self).wf(),
    {
        if self.contains_key(&key) {
            false
        } else {
            self.entries.push((key, value));
            assert(self.model() =~= old(self).model().push((key.key_model(), value)));
            true
        }
    }

    /// Gives the key the value: in place where the key is held already,
    /// at the end where it is not.
    pub fn insert(&mut self, key: K, value: V)
        ensures
            final(self).model() == put(old(self).model(), key.key_model(), value),
            old(self).wf() ==> final(self).wf(),
    {
        match self.position(&key) {
            Some(i) => {
                self.entries[i] = (key, value);
                assert(self.model() =~= old(self).model().update(
                    i as int,
                    (key.key_model(), value),
                ));
            },
            None => {
                self.entries.push((key, value));
                assert(self.model() =~= old(self).model().push((key.key_model(), value)));
            },
        }
    }
}

} // verus!
