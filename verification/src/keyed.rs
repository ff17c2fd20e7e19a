//! Maps with keys of any ordered type, kept as a list of entries in key
//! order.
use vstd::prelude::*;
use crate::ordmap::{
    erase, lemma_erase_absent, lemma_erase_at, lemma_lookup_first, lemma_lookup_none, lemma_put_at,
    lookup, put, Linear,
};
use crate::text;

verus! {

/// A type whose values are ordered.
pub trait Key: Sized {
    /// What the order goes by.
    type O: Linear;

    spec fn rank(&self) -> Self::O;

    fn is_before(&self, other: &Self) -> (r: bool)
        ensures
            r == self.rank().precedes(other.rank()),
    ;

    fn is_same(&self, other: &Self) -> (r: bool)
        ensures
            r == (self.rank() == other.rank()),
    ;

    fn copy_key(&self) -> (r: Self)
        ensures
            r.rank() == self.rank(),
    ;
}

impl Key for String {
    type O = Seq<char>;

    open spec fn rank(&self) -> Seq<char> {
        self@
    }

    fn is_before(&self, other: &Self) -> (r: bool) {
        text::before(self.as_str(), other.as_str())
    }

    fn is_same(&self, other: &Self) -> (r: bool) {
        text::same(self.as_str(), other.as_str())
    }

    fn copy_key(&self) -> (r: Self) {
        self.clone()
    }
}

impl Key for u32 {
    type O = u32;

    open spec fn rank(&self) -> u32 {
        *self
    }

    fn is_before(&self, other: &Self) -> (r: bool) {
        *self < *other
    }

    fn is_same(&self, other: &Self) -> (r: bool) {
        *self == *other
    }

    fn copy_key(&self) -> (r: Self) {
        *self
    }
}

/// Entries in key order.
#[derive(Clone, Debug, PartialEq, Eq)]
pub struct KeyedMap<K, V> {
    pub entries: Vec<(K, V)>,
}

impl<K: Key, V> KeyedMap<K, V> {
    /// The entries by the ranks of their keys.
    pub open spec fn pairs(&self) -> Seq<(K::O, V)> {
        Seq::new(self.entries@.len(), |i: int| (self.entries@[i].0.rank(), self.entries@[i].1))
    }

    /// The empty map.
    pub fn new() -> (r: Self)
        ensures
            r.pairs() == Seq::<(K::O, V)>::empty(),
    {
        let r = KeyedMap { entries: Vec::new() };
        proof {
            assert(r.pairs() =~= Seq::<(K::O, V)>::empty());
        }
        r
    }

    pub fn len(&self) -> (r: usize)
        ensures
            r == self.pairs().len(),
    {
        self.entries.len()
    }

    pub fn is_empty(&self) -> (r: bool)
        ensures
            r == (self.pairs().len() == 0),
    {
        self.entries.len() == 0
    }

    /// Where a key stands, if it is there.
    pub fn position(&self, key: &K) -> (r: Option<usize>)
        ensures
            match r {
                Some(i) => i < self.pairs().len() && self.pairs()[i as int].0 == key.rank() && lookup(
                    self.pairs(),
                    key.rank(),
                ) == Some(self.pairs()[i as int].1) && (forall|j: int|
                    0 <= j < i ==> (#[trigger] self.pairs()[j]).0 != key.rank()),
                None => lookup(self.pairs(), key.rank()) is None && (forall|j: int|
                    0 <= j < self.pairs().len() ==> (#[trigger] self.pairs()[j]).0 != key.rank()),
            },
    {
        let mut i: usize = 0;
        while i < self.entries.len()
            invariant
                i <= self.entries@.len(),
                forall|j: int| 0 <= j < i ==> (#[trigger] self.pairs()[j]).0 != key.rank(),
            decreases self.entries.len() - i,
        {
            if self.entries[i].0.is_same(key) {
                proof {
                    assert(self.pairs()[i as int].0 == key.rank());
                    lemma_lookup_first(self.pairs(), key.rank(), i as int);
                }
                return Some(i);
            }
            i += 1;
        }
        proof {
            lemma_lookup_none(self.pairs(), key.rank());
        }
        None
    }

    /// The value under `key`.
    pub fn get(&self, key: &K) -> (r: Option<&V>)
        ensures
            match r {
                Some(v) => lookup(self.pairs(), key.rank()) == Some(*v),
                None => lookup(self.pairs(), key.rank()) is None,
            },
    {
        match self.position(key) {
            Some(i) => Some(&self.entries[i].1),
            None => None,
        }
    }

    pub fn contains_key(&self, key: &K) -> (r: bool)
        ensures
            r == (lookup(self.pairs(), key.rank()) is Some),
    {
        match self.position(key) {
            Some(_) => true,
            None => false,
        }
    }

    /// Write `value` under `key`.
    pub fn insert(&mut self, key: K, value: V)
        ensures
            final(self).pairs() == put(old(self).pairs(), key.rank(), value),
    {
        let mut p: usize = 0;
        while p < self.entries.len() && self.entries[p].0.is_before(&key)
            invariant
                p <= self.entries@.len(),
                self.pairs() == old(self).pairs(),
                forall|j: int| 0 <= j < p ==> (#[trigger] self.pairs()[j]).0.precedes(key.rank()),
            decreases self.entries.len() - p,
        {
            p += 1;
        }
        proof {
            assert(p < self.pairs().len() ==> self.pairs()[p as int].0
                == self.entries@[p as int].0.rank());
            lemma_put_at(old(self).pairs(), key.rank(), value, p as int);
        }
        if p < self.entries.len() && self.entries[p].0.is_same(&key) {
            self.entries.remove(p);
        }
        let ghost k = key.rank();
        self.entries.insert(p, (key, value));
        proof {
            if p < old(self).pairs().len() && old(self).pairs()[p as int].0 == k {
                assert(self.pairs() =~= old(self).pairs().update(p as int, (k, value)));
            } else {
                assert(self.pairs() =~= old(self).pairs().insert(p as int, (k, value)));
            }
        }
    }

    /// Remove the entry under `key` and return its value.
    pub fn remove(&mut self, key: &K) -> (r: Option<V>)
        ensures
            r == lookup(old(self).pairs(), key.rank()),
            final(self).pairs() == erase(old(self).pairs(), key.rank()),
    {
        match self.position(key) {
            Some(i) => {
                let e = self.entries.remove(i);
                proof {
                    lemma_erase_at(old(self).pairs(), key.rank(), i as int);
                    assert(self.pairs() =~= old(self).pairs().remove(i as int));
                }
                Some(e.1)
            },
            None => {
                proof {
                    lemma_erase_absent(self.pairs(), key.rank());
                }
                None
            },
        }
    }
}

} // verus!
