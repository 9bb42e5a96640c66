//! The in-memory index: key to (segment id, offset, length) of the most
//! recent live record. Never persisted; always rebuilt from the segments.

use vstd::prelude::*;
use crate::assoc::{
    assoc_find, assoc_map, assoc_remove, assoc_upsert, keys_distinct, lemma_assoc_at,
    lemma_assoc_contains,
};

verus! {

/// Where a key's latest live record sits.
#[derive(Clone, Copy, Debug, PartialEq, Eq, Structural)]
pub struct Pointer {
    pub segment_id: u64,
    pub offset: usize,
    pub length: usize,
}

/// The index proper: an association list with distinct keys.
pub struct Index {
    pub entries: Vec<(Vec<u8>, Pointer)>,
}

impl View for Index {
    type V = Map<Seq<u8>, Pointer>;

    open spec fn view(&self) -> Map<Seq<u8>, Pointer> {
        assoc_map(self.entries@)
    }
}

impl Index {
    /// No two entries carry the same key.
    pub open spec fn wf(self) -> bool {
        keys_distinct(self.entries@)
    }

    /// An empty index.
    pub fn new() -> (r: Index)
        ensures
            r.wf(),
            r@ == Map::<Seq<u8>, Pointer>::empty(),
            r.entries@.len() == 0,
    {
        Index { entries: Vec::new() }
    }

    /// Binds `k` to a pointer, overwriting any earlier binding.
    pub fn insert(&mut self, k: &Vec<u8>, v: Pointer)
        requires
            old(self).wf(),
        ensures
            final(self).wf(),
            final(self)@ == old(self)@.insert(k@, v),
            final(self).entries@.len() <= old(self).entries@.len() + 1,
    {
        assoc_upsert(&mut self.entries, k, v)
    }

    /// Drops the binding of `k`, if any.
    pub fn remove(&mut self, k: &Vec<u8>)
        requires
            old(self).wf(),
        ensures
            final(self).wf(),
            final(self)@ == old(self)@.remove(k@),
            final(self).entries@.len() <= old(self).entries@.len(),
    {
        assoc_remove(&mut self.entries, k)
    }

    /// The pointer bound to `k`, if any.
    pub fn lookup(&self, k: &Vec<u8>) -> (r: Option<Pointer>)
        requires
            self.wf(),
        ensures
            match r {
                Some(p) => self@.contains_key(k@) && self@[k@] == p,
                None => !self@.contains_key(k@),
            },
    {
        match assoc_find(&self.entries, k) {
            Some(i) => {
                proof {
                    lemma_assoc_at(self.entries@, i as int);
                }
                Some(self.entries[i].1)
            },
            None => {
                proof {
                    lemma_assoc_contains(self.entries@, k@);
                }
                None
            },
        }
    }

    /// How many keys the index holds.
    pub fn len(&self) -> (r: usize)
        ensures
            r == self.entries@.len(),
    {
        self.entries.len()
    }
}

} // verus!
