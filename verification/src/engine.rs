//! The engine facade: `get`, `set`, `delete` over the segment log, with the
//! in-memory index as derived state. The segments are the sole source of
//! truth: the store's meaning is the forward replay of its log.

use vstd::prelude::*;
use crate::index::{Index, Pointer};
use crate::manager::{
    datas, lemma_id_unique, log_records, log_view, points_to, step_counts, Manager,
};
use crate::model::{
    fold_records, image_views, lemma_fold_push, lemma_stored_records_congruent, stored_records,
    stored_view,
};
use crate::record::{copy_range, lemma_truncate_exact, records_from, Record, RecordV};
use crate::recovery::rebuild_index;
use crate::replay::Replay;
use crate::segment::Segment;
use crate::KvError;

verus! {

/// One open store: the ordered segments and the derived index.
pub struct Database {
    pub manager: Manager,
    pub idx: Index,
}

impl View for Database {
    type V = Map<Seq<u8>, Seq<u8>>;

    /// What the store holds: the forward replay of all its segments.
    open spec fn view(&self) -> Map<Seq<u8>, Seq<u8>> {
        log_view(self.manager.segments@)
    }
}

impl Database {
    /// The index binds exactly the live keys, and every binding points at a
    /// live record holding the key's current value.
    pub open spec fn wf(self) -> bool {
        &&& self.manager.wf()
        &&& self.idx.wf()
        &&& forall|k: Seq<u8>| #[trigger] self.idx@.contains_key(k) ==> self@.contains_key(k)
        &&& forall|k: Seq<u8>| #[trigger] self@.contains_key(k) ==> self.idx@.contains_key(k)
        &&& forall|k: Seq<u8>| #[trigger] self.idx@.contains_key(k) ==> points_to(
            self.manager.segments@,
            self.idx@[k],
            k,
            self@[k],
        )
    }

    /// The per-segment record counts, in storage order.
    pub open spec fn seg_counts(self) -> Seq<int> {
        self.manager.counts()
    }

    /// A fresh, empty store with the given segment capacity.
    pub fn new(capacity: usize) -> (r: Database)
        requires
            capacity >= 1,
        ensures
            r.wf(),
            r@ == Map::<Seq<u8>, Seq<u8>>::empty(),
            r.seg_counts() == seq![0int],
            r.manager.capacity == capacity,
            r.manager.segments@.len() == 1,
            r.manager.active().record_count == 0,
            r.manager.active().id == 1,
            r.idx@ == Map::<Seq<u8>, Pointer>::empty(),
    {
        let r = Database { manager: Manager::new(capacity), idx: Index::new() };
        proof {
            assert(fold_records(Map::<Seq<u8>, Seq<u8>>::empty(), Seq::<RecordV>::empty())
                == Map::<Seq<u8>, Seq<u8>>::empty());
            assert(r@ == Map::<Seq<u8>, Seq<u8>>::empty());
        }
        r
    }

    /// Binds `key` to `value`: encodes a live record, appends it to the
    /// active segment (rotating first if that segment is at capacity),
    /// then updates the index. Fails with `IoError` only when a needed
    /// rotation has exhausted the id space, leaving the store unchanged.
    pub fn set_by_key(&mut self, key: &Vec<u8>, value: &Vec<u8>) -> (r: Result<(), KvError>)
        requires
            old(self).wf(),
            key@.len() <= u32::MAX,
            value@.len() <= u32::MAX,
        ensures
            match r {
                Ok(()) => {
                    &&& final(self).wf()
                    &&& final(self)@ == old(self)@.insert(key@, value@)
                    &&& final(self).seg_counts() == step_counts(
                        old(self).seg_counts(),
                        old(self).manager.capacity as int,
                    )
                    &&& final(self).manager.capacity == old(self).manager.capacity
                    &&& final(self).manager.segments@.len() == old(self).manager.segments@.len() + (
                    if old(self).manager.active().record_count >= old(self).manager.capacity {
                        1int
                    } else {
                        0int
                    })
                    &&& final(self).idx@.contains_key(key@)
                    &&& final(self).idx@[key@].segment_id == final(self).manager.active().id
                    &&& final(self).manager.active().id == (
                    if old(self).manager.active().record_count >= old(self).manager.capacity {
                        old(self).manager.active().id + 1
                    } else {
                        old(self).manager.active().id as int
                    })
                    &&& final(self).manager.active().record_count == (
                    if old(self).manager.active().record_count >= old(self).manager.capacity {
                        1int
                    } else {
                        old(self).manager.active().record_count + 1
                    })
                },
                Err(e) => {
                    &&& e == KvError::IoError
                    &&& *final(self) == *old(self)
                    &&& old(self).manager.active().record_count >= old(self).manager.capacity
                    &&& old(self).manager.active().id == u64::MAX
                },
            },
    {
        let rec = Record { key: key.clone(), value: value.clone(), tombstone: false };
        let p = match self.manager.append_record(&rec) {
            Ok(p) => p,
            Err(e) => {
                return Err(e);
            },
        };
        proof {
            lemma_fold_push(
                Map::<Seq<u8>, Seq<u8>>::empty(),
                log_records(old(self).manager.segments@),
                rec@,
            );
            assert(log_view(self.manager.segments@) == old(self)@.insert(key@, value@));
        }
        self.idx.insert(key, p);
        proof {
            let newv = old(self)@.insert(key@, value@);
            let segs = self.manager.segments@;
            assert(self@ == newv);
            assert forall|k: Seq<u8>| #[trigger] self.idx@.contains_key(k) implies self@.contains_key(
                k,
            ) by {
                if k != key@ {
                    assert(old(self).idx@.contains_key(k));
                }
            }
            assert forall|k: Seq<u8>| #[trigger] self@.contains_key(k) implies self.idx@.contains_key(
                k,
            ) by {
                if k != key@ {
                    assert(old(self)@.contains_key(k));
                }
            }
            assert forall|k: Seq<u8>| #[trigger] self.idx@.contains_key(k) implies points_to(
                segs,
                self.idx@[k],
                k,
                self@[k],
            ) by {
                if k == key@ {
                    assert(points_to(segs, p, rec@.key, rec@.value));
                    assert(rec@.key == key@ && rec@.value == value@);
                    assert(self@[k] == value@);
                } else {
                    assert(old(self).idx@.contains_key(k));
                    assert(points_to(
                        old(self).manager.segments@,
                        old(self).idx@[k],
                        k,
                        old(self)@[k],
                    ));
                    assert(self.idx@[k] == old(self).idx@[k]);
                    assert(self@[k] == old(self)@[k]);
                }
            }
        }
        Ok(())
    }

    /// Deletes `key`: appends a tombstone (rotating first if the active
    /// segment is at capacity), then drops the index entry. Fails with
    /// `IoError` only when a needed rotation has exhausted the id space,
    /// leaving the store unchanged.
    pub fn delete(&mut self, key: &Vec<u8>) -> (r: Result<(), KvError>)
        requires
            old(self).wf(),
            key@.len() <= u32::MAX,
        ensures
            match r {
                Ok(()) => {
                    &&& final(self).wf()
                    &&& final(self)@ == old(self)@.remove(key@)
                    &&& !final(self)@.contains_key(key@)
                    &&& final(self).seg_counts() == step_counts(
                        old(self).seg_counts(),
                        old(self).manager.capacity as int,
                    )
                    &&& final(self).manager.capacity == old(self).manager.capacity
                    &&& final(self).manager.active().id == (
                    if old(self).manager.active().record_count >= old(self).manager.capacity {
                        old(self).manager.active().id + 1
                    } else {
                        old(self).manager.active().id as int
                    })
                    &&& final(self).manager.active().record_count == (
                    if old(self).manager.active().record_count >= old(self).manager.capacity {
                        1int
                    } else {
                        old(self).manager.active().record_count + 1
                    })
                },
                Err(e) => {
                    &&& e == KvError::IoError
                    &&& *final(self) == *old(self)
                    &&& old(self).manager.active().record_count >= old(self).manager.capacity
                    &&& old(self).manager.active().id == u64::MAX
                },
            },
    {
        let rec = Record { key: key.clone(), value: Vec::new(), tombstone: true };
        match self.manager.append_record(&rec) {
            Ok(_p) => {},
            Err(e) => {
                return Err(e);
            },
        };
        proof {
            lemma_fold_push(
                Map::<Seq<u8>, Seq<u8>>::empty(),
                log_records(old(self).manager.segments@),
                rec@,
            );
            assert(log_view(self.manager.segments@) == old(self)@.remove(key@));
        }
        self.idx.remove(key);
        proof {
            let segs = self.manager.segments@;
            assert(self@ == old(self)@.remove(key@));
            assert forall|k: Seq<u8>| #[trigger] self.idx@.contains_key(k) implies self@.contains_key(
                k,
            ) by {
                assert(k != key@);
                assert(old(self).idx@.contains_key(k));
            }
            assert forall|k: Seq<u8>| #[trigger] self@.contains_key(k) implies self.idx@.contains_key(
                k,
            ) by {
                assert(k != key@);
                assert(old(self)@.contains_key(k));
            }
            assert forall|k: Seq<u8>| #[trigger] self.idx@.contains_key(k) implies points_to(
                segs,
                self.idx@[k],
                k,
                self@[k],
            ) by {
                assert(k != key@);
                assert(old(self).idx@.contains_key(k));
                assert(points_to(
                    old(self).manager.segments@,
                    old(self).idx@[k],
                    k,
                    old(self)@[k],
                ));
                assert(self.idx@[k] == old(self).idx@[k]);
                assert(self@[k] == old(self)@[k]);
            }
        }
        Ok(())
    }

    /// Looks `key` up in the index and reads its record from the owning
    /// segment. Key absence is the empty result, not a failure; with the
    /// index well formed no error can actually come back.
    pub fn get_by_key(&self, key: &Vec<u8>) -> (r: Result<Option<Vec<u8>>, KvError>)
        requires
            self.wf(),
        ensures
            match r {
                Ok(opt) => match opt {
                    Some(v) => self@.contains_key(key@) && v@ == self@[key@],
                    None => !self@.contains_key(key@),
                },
                Err(e) => false,
            },
    {
        let p = match self.idx.lookup(key) {
            Some(p) => p,
            None => {
                return Ok(None);
            },
        };
        let ghost segs = self.manager.segments@;
        proof {
            assert(points_to(segs, p, key@, self@[key@]));
        }
        let seg = match self.manager.segment(p.segment_id) {
            Ok(s) => s,
            Err(e) => {
                proof {
                    let j = choose|j: int|
                        0 <= j < segs.len() && (#[trigger] segs[j]).id == p.segment_id
                            && p.offset + p.length <= segs[j].data@.len()
                            && crate::record::spec_decode(
                            segs[j].data@.subrange(
                                p.offset as int,
                                p.offset as int + p.length as int,
                            ),
                        ) == Some(RecordV { key: key@, value: self@[key@], tombstone: false });
                    assert(segs[j].id == p.segment_id);
                    assert(false);
                }
                return Err(e);
            },
        };
        proof {
            let j1 = choose|j: int|
                0 <= j < segs.len() && (#[trigger] segs[j]).id == p.segment_id
                    && p.offset + p.length <= segs[j].data@.len()
                    && crate::record::spec_decode(
                    segs[j].data@.subrange(p.offset as int, p.offset as int + p.length as int),
                ) == Some(RecordV { key: key@, value: self@[key@], tombstone: false });
            let j2 = choose|j: int| 0 <= j < segs.len() && #[trigger] segs[j] == *seg && seg.id == p.segment_id;
            lemma_id_unique(self.manager, j1, j2);
            assert(*seg == segs[j1]);
        }
        match seg.read_at(p.offset, p.length) {
            Ok(rec) => {
                proof {
                    assert(rec@ == RecordV { key: key@, value: self@[key@], tombstone: false });
                }
                Ok(Some(rec.value))
            },
            Err(e) => {
                proof {
                    assert(false);
                }
                Err(e)
            },
        }
    }

    /// Opens a store from persisted segment images, in ascending id order:
    /// replays every image, treating a framing failure as that image's
    /// logical end, and rebuilds the index. The capacity grows to the
    /// largest recovered segment where an image outgrew the requested one.
    pub fn open(images: Vec<Vec<u8>>, capacity: usize) -> (r: Database)
        requires
            capacity >= 1,
        ensures
            r.wf(),
            r@ == stored_view(image_views(images@)),
            r.manager.capacity >= capacity,
            images@.len() >= 1 ==> r.manager.segments@.len() == images@.len(),
            images@.len() == 0 ==> r.manager.segments@.len() == 1,
            forall|j: int|
                0 <= j < images@.len() ==> (#[trigger] r.manager.segments@[j]).data@
                    == images@[j]@.subrange(0, crate::record::parse_extent(images@[j]@, 0)),
    {
        if images.len() == 0 {
            let r = Database::new(capacity);
            proof {
                assert(image_views(images@) =~= Seq::<Seq<u8>>::empty());
                assert(stored_records(Seq::<Seq<u8>>::empty()) == Seq::<RecordV>::empty());
                assert(stored_view(image_views(images@)) == Map::<Seq<u8>, Seq<u8>>::empty());
            }
            return r;
        }
        let n = images.len();
        let mut segments: Vec<Segment> = Vec::new();
        let mut cap_eff: usize = capacity;
        let mut i: usize = 0;
        while i < n
            invariant
                i <= n,
                n == images@.len(),
                n >= 1,
                cap_eff >= capacity,
                capacity >= 1,
                segments@.len() == i,
                forall|j: int|
                    0 <= j < i ==> {
                        let s = #[trigger] segments@[j];
                        &&& s.wf()
                        &&& s.id == j + 1
                        &&& s.record_count <= cap_eff
                        &&& s.sealed == (j + 1 < n)
                        &&& records_from(s.data@, 0) == records_from(images@[j]@, 0)
                        &&& s.data@ == images@[j]@.subrange(
                            0,
                            crate::record::parse_extent(images@[j]@, 0),
                        )
                    },
            decreases n - i,
        {
            let rp = Replay::new(None).read_database(&images[i]);
            let data = copy_range(&images[i], 0, rp.consumed);
            let count = rp.entries.len();
            if count > cap_eff {
                cap_eff = count;
            }
            let seg = Segment {
                id: (i as u64) + 1,
                data,
                record_count: count,
                sealed: i + 1 < n,
            };
            proof {
                lemma_truncate_exact(images@[i as int]@);
                assert(seg.data@ == images@[i as int]@.subrange(
                    0,
                    crate::record::parse_extent(images@[i as int]@, 0),
                ));
                assert(seg.wf());
            }
            segments.push(seg);
            i = i + 1;
        }
        let idx = rebuild_index(&segments);
        let manager = Manager { segments, capacity: cap_eff };
        let r = Database { manager, idx };
        proof {
            assert(r.manager.wf());
            assert(datas(r.manager.segments@).len() == image_views(images@).len());
            assert forall|j: int| 0 <= j < images@.len() implies records_from(
                #[trigger] datas(r.manager.segments@)[j],
                0,
            ) == records_from(image_views(images@)[j], 0) by {
                assert(datas(r.manager.segments@)[j] == r.manager.segments@[j].data@);
                assert(image_views(images@)[j] == images@[j]@);
            }
            lemma_stored_records_congruent(datas(r.manager.segments@), image_views(images@));
            assert(r@ == stored_view(image_views(images@)));
        }
        r
    }

    /// Hands back every segment's byte image, in storage order. What it
    /// returns replays to exactly this store's content, so reopening from
    /// it loses nothing.
    pub fn close(self) -> (r: Vec<Vec<u8>>)
        ensures
            r@.len() == self.manager.segments@.len(),
            forall|i: int|
                0 <= i < r@.len() ==> (#[trigger] r@[i])@ == self.manager.segments@[i].data@,
            stored_view(image_views(r@)) == self@,
    {
        let mut out: Vec<Vec<u8>> = Vec::new();
        let n = self.manager.segments.len();
        let mut i: usize = 0;
        while i < n
            invariant
                i <= n,
                n == self.manager.segments@.len(),
                out@.len() == i,
                forall|j: int|
                    0 <= j < i ==> (#[trigger] out@[j])@ == self.manager.segments@[j].data@,
            decreases n - i,
        {
            let seg = &self.manager.segments[i];
            let len = seg.data.len();
            let img = copy_range(&seg.data, 0, len);
            proof {
                assert(img@ =~= seg.data@);
            }
            out.push(img);
            i = i + 1;
        }
        proof {
            assert(image_views(out@) =~= datas(self.manager.segments@));
        }
        out
    }
}

} // verus!
