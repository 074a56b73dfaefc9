//! Tables keyed by byte strings.
use vstd::prelude::*;
use vstd::slice::slice_to_vec;

use crate::paths::{
    ascending, lemma_ascending_no_duplicates, lemma_insert_ascending, locate,
};
use crate::span::byte_rows;

verus! {

/// A map from byte strings, its keys listed in ascending order.
#[derive(Debug)]
pub struct PathTable<V> {
    keys: Vec<Vec<u8>>,
    values: Vec<V>,
}

impl<V> View for PathTable<V> {
    type V = Map<Seq<u8>, V>;

    open spec fn view(&self) -> Map<Seq<u8>, V> {
        Map::new(
            |k: Seq<u8>| self.rows().contains(k),
            |k: Seq<u8>| self.entries()[self.rows().index_of(k)],
        )
    }
}

impl<V> PathTable<V> {
    /// The keys in ascending order.
    pub closed spec fn rows(&self) -> Seq<Seq<u8>> {
        byte_rows(self.keys@)
    }

    /// The values in the order of their keys.
    pub closed spec fn entries(&self) -> Seq<V> {
        self.values@
    }

    /// The keys are listed in ascending order, each once and with one value.
    pub open spec fn wf(&self) -> bool {
        &&& ascending(self.rows())
        &&& self.entries().len() == self.rows().len()
    }

    /// Each listed key maps to the value that stands beside it.
    pub proof fn lemma_entry(&self, i: int)
        requires
            self.wf(),
            0 <= i < self.rows().len(),
        ensures
            self@.contains_key(self.rows()[i]),
            self@[self.rows()[i]] == self.entries()[i],
    {
        lemma_ascending_no_duplicates(self.rows());
        let k = self.rows()[i];
        assert(self.rows().contains(k));
        let j = self.rows().index_of(k);
        assert(0 <= j < self.rows().len() && self.rows()[j] == k);
        assert(i == j);
    }

    /// The empty table.
    pub fn new() -> (t: PathTable<V>)
        ensures
            t.wf(),
            t@ == Map::<Seq<u8>, V>::empty(),
    {
        let t = PathTable { keys: Vec::new(), values: Vec::new() };
        proof {
            assert(t@ =~= Map::empty());
        }
        t
    }

    /// Number of entries.
    pub fn len(&self) -> (n: usize)
        requires
            self.wf(),
        ensures
            n == self@.len(),
            n == self.rows().len(),
            self@.dom().finite(),
    {
        proof {
            lemma_ascending_no_duplicates(self.rows());
            assert(self@.dom() =~= self.rows().to_set());
        }
        self.keys.len()
    }

    /// The key at a place of the ascending order.
    pub fn key_at(&self, i: usize) -> (k: &Vec<u8>)
        requires
            i < self.rows().len(),
        ensures
            k@ == self.rows()[i as int],
    {
        &self.keys[i]
    }

    /// The value beside the key at a place of the ascending order.
    pub fn value_at(&self, i: usize) -> (v: &V)
        requires
            self.wf(),
            i < self.rows().len(),
        ensures
            v == self.entries()[i as int],
            v == self@[self.rows()[i as int]],
    {
        proof {
            self.lemma_entry(i as int);
        }
        &self.values[i]
    }

    /// The value of a key.
    pub fn get(&self, key: &[u8]) -> (r: Option<&V>)
        requires
            self.wf(),
        ensures
            match r {
                Some(v) => self@.contains_key(key@) && *v == self@[key@],
                None => !self@.contains_key(key@),
            },
    {
        let (i, found) = locate(&self.keys, key);
        if found {
            proof {
                self.lemma_entry(i as int);
            }
            Some(&self.values[i])
        } else {
            None
        }
    }

    /// Whether the key has a value.
    pub fn contains(&self, key: &[u8]) -> (r: bool)
        requires
            self.wf(),
        ensures
            r == self@.contains_key(key@),
    {
        locate(&self.keys, key).1
    }

    /// Gives the key a value, in place of the one that it may have had.
    pub fn insert(&mut self, key: &[u8], value: V)
        requires
            old(self).wf(),
        ensures
            final(self).wf(),
            final(self)@ == old(self)@.insert(key@, value),
    {
        let (i, found) = locate(&self.keys, key);
        if found {
            let ghost before = *self;
            self.values.set(i, value);
            proof {
                assert forall|k: Seq<u8>| before.rows().contains(k) implies self@[k]
                    == before@.insert(key@, value)[k] by {
                    let j = before.rows().index_of(k);
                    assert(before.rows()[j] == k);
                    lemma_ascending_no_duplicates(before.rows());
                    assert(self.rows() == before.rows());
                    assert(before.rows()[i as int] == key@);
                    self.lemma_entry(j);
                    before.lemma_entry(j);
                }
                assert(self@ =~= before@.insert(key@, value));
            }
        } else {
            self.insert_absent(i, key, value);
        }
    }

    /// Gives the key a value unless it has one already.
    pub fn insert_if_absent(&mut self, key: &[u8], value: V)
        requires
            old(self).wf(),
        ensures
            final(self).wf(),
            final(self)@ == if old(self)@.contains_key(key@) {
                old(self)@
            } else {
                old(self)@.insert(key@, value)
            },
    {
        let (i, found) = locate(&self.keys, key);
        if !found {
            self.insert_absent(i, key, value);
        }
    }

    /// Places a new key where it stands.
    fn insert_absent(&mut self, i: usize, key: &[u8], value: V)
        requires
            old(self).wf(),
            crate::paths::stands_at(old(self).rows(), key@, i as int),
            !old(self).rows().contains(key@),
        ensures
            final(self).wf(),
            final(self)@ == old(self)@.insert(key@, value),
    {
        let ghost before = *self;
        let k = slice_to_vec(key);
        proof {
            lemma_insert_ascending(before.rows(), key@, i as int);
            assert(byte_rows(before.keys@.insert(i as int, k)) =~= before.rows().insert(
                i as int,
                key@,
            ));
        }
        self.keys.insert(i, k);
        self.values.insert(i, value);
        proof {
            let n = i as int;
            let rows = self.rows();
            assert(rows[n] == key@);
            self.lemma_entry(n);
            assert forall|q: Seq<u8>| #[trigger] self@.contains_key(q) == before@.insert(
                key@,
                value,
            ).contains_key(q) by {
                assert(self.rows().to_set().contains(q) == self.rows().contains(q));
                assert(before.rows().to_set().contains(q) == before.rows().contains(q));
            }
            assert forall|q: Seq<u8>| #[trigger] self@.contains_key(q) implies self@[q]
                == before@.insert(key@, value)[q] by {
                if q != key@ {
                    assert(before.rows().to_set().insert(key@).contains(q));
                    assert(before.rows().contains(q));
                    let j = before.rows().index_of(q);
                    assert(before.rows()[j] == q);
                    before.lemma_entry(j);
                    let j2 = if j < n { j } else { j + 1 };
                    assert(rows[j2] == q);
                    self.lemma_entry(j2);
                }
            }
            assert(self@ =~= before@.insert(key@, value));
        }
    }
}

} // verus!
