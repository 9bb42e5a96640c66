//! The segment manager: the ordered run of segments, rotation of the active
//! tail, and lookup by id. Replay order is ascending id, which is the
//! storage order.

use vstd::prelude::*;
use crate::index::Pointer;
use crate::model::{lemma_stored_records_decompose, lemma_stored_records_push, stored_records, stored_view};
use crate::record::{fits_frame, records_from, spec_decode, Record, RecordV};
use crate::segment::Segment;
use crate::KvError;

verus! {

/// The byte images of a run of segments, in storage order.
pub open spec fn datas(segs: Seq<Segment>) -> Seq<Seq<u8>> {
    Seq::new(segs.len(), |i: int| segs[i].data@)
}

/// All records the run of segments replays to, in log order.
pub open spec fn log_records(segs: Seq<Segment>) -> Seq<RecordV> {
    stored_records(datas(segs))
}

/// The map the run of segments denotes.
pub open spec fn log_view(segs: Seq<Segment>) -> Map<Seq<u8>, Seq<u8>> {
    stored_view(datas(segs))
}

/// A pointer resolves, in some segment of the run, to a live record holding
/// exactly this key and value.
pub open spec fn points_to(segs: Seq<Segment>, p: Pointer, k: Seq<u8>, v: Seq<u8>) -> bool {
    exists|j: int|
        0 <= j < segs.len() && (#[trigger] segs[j]).id == p.segment_id
            && p.offset + p.length <= segs[j].data@.len()
            && spec_decode(
            segs[j].data@.subrange(p.offset as int, p.offset as int + p.length as int),
        ) == Some(RecordV { key: k, value: v, tombstone: false })
}

/// How one append changes the run of per-segment record counts: a full tail
/// rotates and the record starts a fresh segment, otherwise the tail grows.
pub open spec fn step_counts(c: Seq<int>, cap: int) -> Seq<int> {
    if c.len() == 0 {
        c
    } else if c.last() >= cap {
        c.push(1)
    } else {
        c.update(c.len() - 1, c.last() + 1)
    }
}

/// The ordered set of segments and the record capacity at which the active
/// one is sealed.
pub struct Manager {
    pub segments: Vec<Segment>,
    pub capacity: usize,
}

impl Manager {
    /// Every segment is well formed and within capacity; exactly the tail is
    /// unsealed; ids rise strictly with position, from at least 1.
    pub open spec fn wf(self) -> bool {
        &&& self.capacity >= 1
        &&& self.segments@.len() >= 1
        &&& forall|i: int|
            0 <= i < self.segments@.len() ==> (#[trigger] self.segments@[i]).wf()
        &&& forall|i: int|
            0 <= i < self.segments@.len() ==> (#[trigger] self.segments@[i]).record_count
                <= self.capacity
        &&& forall|i: int| 0 <= i < self.segments@.len() - 1 ==> (#[trigger] self.segments@[i]).sealed
        &&& !self.segments@.last().sealed
        &&& forall|i: int, j: int|
            0 <= i < j < self.segments@.len() ==> (#[trigger] self.segments@[i]).id
                < (#[trigger] self.segments@[j]).id
        &&& forall|i: int| 0 <= i < self.segments@.len() ==> (#[trigger] self.segments@[i]).id >= i + 1
    }

    /// The writable tail segment.
    pub open spec fn active(self) -> Segment {
        self.segments@.last()
    }

    /// The per-segment record counts, in storage order.
    pub open spec fn counts(self) -> Seq<int> {
        Seq::new(self.segments@.len(), |i: int| self.segments@[i].record_count as int)
    }

    /// A fresh manager holding one empty active segment with id 1.
    pub fn new(capacity: usize) -> (r: Manager)
        requires
            capacity >= 1,
        ensures
            r.wf(),
            r.capacity == capacity,
            r.segments@.len() == 1,
            log_records(r.segments@) == Seq::<RecordV>::empty(),
            r.counts() == seq![0int],
            r.active().id == 1,
            r.active().data@ == Seq::<u8>::empty(),
    {
        let mut segments: Vec<Segment> = Vec::new();
        segments.push(Segment::new(1));
        let r = Manager { segments, capacity };
        proof {
            assert(datas(r.segments@).len() == 1);
            assert(datas(r.segments@)[0] == Seq::<u8>::empty());
            assert(datas(r.segments@).skip(1) =~= Seq::<Seq<u8>>::empty());
            assert(stored_records(Seq::<Seq<u8>>::empty()) == Seq::<RecordV>::empty());
            assert(records_from(Seq::<u8>::empty(), 0) == Seq::<RecordV>::empty());
            assert(stored_records(datas(r.segments@))
                == records_from(datas(r.segments@)[0], 0)
                + stored_records(datas(r.segments@).skip(1)));
            assert(log_records(r.segments@) =~= Seq::<RecordV>::empty());
            assert(r.counts() =~= seq![0int]);
        }
        r
    }

    /// The writable tail segment, by reference.
    pub fn active_segment(&self) -> (r: &Segment)
        requires
            self.segments@.len() >= 1,
        ensures
            *r == self.segments@.last(),
    {
        let n = self.segments.len();
        &self.segments[n - 1]
    }

    /// Seals the active segment and starts a new one with the next id. Fails
    /// with `IoError` only when the id space is exhausted, leaving the
    /// manager unchanged.
    pub fn rotate(&mut self) -> (r: Result<(), KvError>)
        requires
            old(self).wf(),
        ensures
            match r {
                Ok(()) => {
                    &&& final(self).wf()
                    &&& final(self).capacity == old(self).capacity
                    &&& final(self).segments@.len() == old(self).segments@.len() + 1
                    &&& log_records(final(self).segments@) == log_records(old(self).segments@)
                    &&& forall|p: Pointer, k: Seq<u8>, v: Seq<u8>|
                        #[trigger] points_to(old(self).segments@, p, k, v)
                            ==> points_to(final(self).segments@, p, k, v)
                    &&& final(self).active().record_count == 0
                    &&& final(self).active().data@ == Seq::<u8>::empty()
                    &&& final(self).active().id == old(self).active().id + 1
                    &&& final(self).counts() == old(self).counts().push(0int)
                    &&& old(self).active().id < u64::MAX
                },
                Err(e) => {
                    &&& e == KvError::IoError
                    &&& *final(self) == *old(self)
                    &&& old(self).active().id == u64::MAX
                },
            },
    {
        let n = self.segments.len();
        if self.segments[n - 1].id == u64::MAX {
            return Err(KvError::IoError);
        }
        let mut active = self.segments.pop().unwrap();
        let new_id = active.id + 1;
        active.seal();
        self.segments.push(active);
        self.segments.push(Segment::new(new_id));
        proof {
            let o = old(self).segments@;
            let s = self.segments@;
            assert(s.len() == o.len() + 1);
            assert(forall|i: int| 0 <= i < o.len() - 1 ==> s[i] == o[i]);
            assert(s[o.len() - 1].data@ == o[o.len() - 1].data@);
            assert(s[o.len() - 1].id == o[o.len() - 1].id);
            assert(s[o.len() - 1].wf());
            assert(datas(s) =~= datas(o).push(Seq::<u8>::empty()));
            lemma_stored_records_push(datas(o), Seq::<u8>::empty());
            assert(records_from(Seq::<u8>::empty(), 0) == Seq::<RecordV>::empty());
            assert(stored_records(datas(o)) + Seq::<RecordV>::empty() =~= stored_records(datas(o)));
            assert(log_records(s) == log_records(o));
            assert(self.counts() =~= old(self).counts().push(0int));
            assert forall|p: Pointer, k: Seq<u8>, v: Seq<u8>|
                #[trigger] points_to(o, p, k, v) implies points_to(s, p, k, v) by {
                let j = choose|j: int|
                    0 <= j < o.len() && (#[trigger] o[j]).id == p.segment_id
                        && p.offset + p.length <= o[j].data@.len()
                        && spec_decode(
                        o[j].data@.subrange(p.offset as int, p.offset as int + p.length as int),
                    ) == Some(RecordV { key: k, value: v, tombstone: false });
                assert(s[j].id == o[j].id);
                assert(s[j].data@ == o[j].data@);
            }
        }
        Ok(())
    }

    /// Appends one record, rotating first if the active segment is at
    /// capacity, and returns the pointer to the appended bytes.
    pub fn append_record(&mut self, rec: &Record) -> (r: Result<Pointer, KvError>)
        requires
            old(self).wf(),
            fits_frame(rec@),
        ensures
            match r {
                Ok(p) => {
                    &&& final(self).wf()
                    &&& final(self).capacity == old(self).capacity
                    &&& log_records(final(self).segments@) == log_records(old(self).segments@).push(
                        rec@,
                    )
                    &&& forall|p2: Pointer, k: Seq<u8>, v: Seq<u8>|
                        #[trigger] points_to(old(self).segments@, p2, k, v)
                            ==> points_to(final(self).segments@, p2, k, v)
                    &&& p.segment_id == final(self).active().id
                    &&& !rec@.tombstone ==> points_to(final(self).segments@, p, rec@.key, rec@.value)
                    &&& final(self).counts() == step_counts(
                        old(self).counts(),
                        old(self).capacity as int,
                    )
                    &&& final(self).segments@.len() == old(self).segments@.len() + (
                    if old(self).active().record_count >= old(self).capacity {
                        1int
                    } else {
                        0int
                    })
                    &&& final(self).active().id == (
                    if old(self).active().record_count >= old(self).capacity {
                        old(self).active().id + 1
                    } else {
                        old(self).active().id as int
                    })
                    &&& final(self).active().record_count == (
                    if old(self).active().record_count >= old(self).capacity {
                        1int
                    } else {
                        old(self).active().record_count + 1
                    })
                },
                Err(e) => {
                    &&& e == KvError::IoError
                    &&& *final(self) == *old(self)
                    &&& old(self).active().record_count >= old(self).capacity
                    &&& old(self).active().id == u64::MAX
                },
            },
    {
        let n = self.segments.len();
        let full = self.segments[n - 1].record_count >= self.capacity;
        if full {
            match self.rotate() {
                Ok(()) => {},
                Err(e) => {
                    return Err(e);
                },
            }
        }
        let ghost mid = *self;
        let mut active = self.segments.pop().unwrap();
        let ghost mid_active = active;
        let (offset, length) = active.append(rec);
        let id = active.id;
        self.segments.push(active);
        proof {
            let m = mid.segments@;
            let s = self.segments@;
            let last = m.len() - 1;
            assert(s.len() == m.len());
            assert(forall|i: int| 0 <= i < last ==> s[i] == m[i]);
            assert(s[last].records() == m[last].records().push(rec@));
            assert(datas(s).drop_last() =~= datas(m).drop_last());
            lemma_stored_records_decompose(datas(s));
            lemma_stored_records_decompose(datas(m));
            assert(datas(s).last() == s[last].data@);
            assert(datas(m).last() == m[last].data@);
            assert(records_from(datas(s).last(), 0) == records_from(datas(m).last(), 0).push(rec@));
            assert(stored_records(datas(m).drop_last()) + records_from(datas(m).last(), 0).push(rec@)
                =~= (stored_records(datas(m).drop_last()) + records_from(datas(m).last(), 0)).push(
                rec@,
            ));
            assert(log_records(s) == log_records(m).push(rec@));
            // counts transition
            if full {
                assert(mid.counts() == old(self).counts().push(0int));
                assert forall|i: int| 0 <= i < s.len() implies self.counts()[i]
                    == old(self).counts().push(1int)[i] by {
                    assert(self.counts()[i] == s[i].record_count as int);
                    assert(mid.counts()[i] == m[i].record_count as int);
                    if i < last {
                        assert(s[i] == m[i]);
                        assert(mid.counts()[i] == old(self).counts()[i]);
                    } else {
                        assert(s[i].record_count == m[last].record_count + 1);
                        assert(mid.counts()[last] == 0);
                    }
                }
                assert(self.counts() =~= old(self).counts().push(1int));
            } else {
                assert(mid == *old(self));
                assert(self.counts() =~= old(self).counts().update(
                    old(self).counts().len() - 1,
                    old(self).counts().last() + 1,
                ));
            }
            // the fresh pointer resolves to the appended record
            if !rec@.tombstone {
                assert(s[last].id == id);
                assert(spec_decode(
                    s[last].data@.subrange(offset as int, offset as int + length as int),
                ) == Some(rec@));
                assert(RecordV { key: rec@.key, value: rec@.value, tombstone: false } =~= rec@);
            }
            // earlier pointers still resolve
            assert forall|p2: Pointer, k: Seq<u8>, v: Seq<u8>|
                #[trigger] points_to(old(self).segments@, p2, k, v) implies points_to(
                s,
                p2,
                k,
                v,
            ) by {
                assert(points_to(m, p2, k, v));
                let j = choose|j: int|
                    0 <= j < m.len() && (#[trigger] m[j]).id == p2.segment_id
                        && p2.offset + p2.length <= m[j].data@.len()
                        && spec_decode(
                        m[j].data@.subrange(p2.offset as int, p2.offset as int + p2.length as int),
                    ) == Some(RecordV { key: k, value: v, tombstone: false });
                if j < last {
                    assert(s[j] == m[j]);
                } else {
                    assert(s[last].id == m[last].id);
                    assert(s[last].data@ == m[last].data@ + crate::record::spec_encode(rec@));
                    assert(s[last].data@.subrange(
                        p2.offset as int,
                        p2.offset as int + p2.length as int,
                    ) =~= m[last].data@.subrange(
                        p2.offset as int,
                        p2.offset as int + p2.length as int,
                    ));
                }
            }
        }
        Ok(Pointer { segment_id: id, offset, length })
    }

    /// The segment with the given id; `SegmentNotFound` if the compactor has
    /// removed it.
    pub fn segment(&self, id: u64) -> (r: Result<&Segment, KvError>)
        ensures
            match r {
                Ok(s) => exists|j: int|
                    0 <= j < self.segments@.len() && #[trigger] self.segments@[j] == *s && s.id
                        == id,
                Err(e) => e == KvError::SegmentNotFound && forall|j: int|
                    0 <= j < self.segments@.len() ==> (#[trigger] self.segments@[j]).id != id,
            },
    {
        let mut i: usize = 0;
        while i < self.segments.len()
            invariant
                i <= self.segments@.len(),
                forall|j: int| 0 <= j < i ==> (#[trigger] self.segments@[j]).id != id,
            decreases self.segments@.len() - i,
        {
            if self.segments[i].id == id {
                return Ok(&self.segments[i]);
            }
            i = i + 1;
        }
        Err(KvError::SegmentNotFound)
    }
}

/// Two positions holding the same id are the same position.
pub proof fn lemma_id_unique(m: Manager, j1: int, j2: int)
    requires
        m.wf(),
        0 <= j1 < m.segments@.len(),
        0 <= j2 < m.segments@.len(),
        m.segments@[j1].id == m.segments@[j2].id,
    ensures
        j1 == j2,
{
    if j1 < j2 {
        assert(m.segments@[j1].id < m.segments@[j2].id);
    } else if j2 < j1 {
        assert(m.segments@[j2].id < m.segments@[j1].id);
    }
}

} // verus!
