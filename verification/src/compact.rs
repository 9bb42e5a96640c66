//! Compaction: merging all sealed segments, keeping only the newest record
//! per key. Since the merge set holds every segment before the active one,
//! no live predecessor survives outside it, so tombstones can be dropped.
//! The replacement segments are built first and installed in one swap; the
//! active segment is never touched.

use vstd::prelude::*;
use crate::assoc::{assoc_map, assoc_remove, assoc_upsert, keys_distinct};
use crate::engine::Database;
use crate::manager::{datas, log_view};
use crate::model::{
    fold_records, lemma_fold_concat, lemma_fold_push, lemma_stored_records_decompose,
    lemma_stored_records_push, stored_records,
};
use crate::record::{fits_frame, lemma_parse_inverse, records_from, Record, RecordV};
use crate::recovery::rebuild_index;
use crate::segment::Segment;
use crate::KvError;

verus! {

/// The byte content of a merge table's map.
pub open spec fn deep_map(m: Map<Seq<u8>, Vec<u8>>) -> Map<Seq<u8>, Seq<u8>> {
    Map::new(|k: Seq<u8>| m.contains_key(k), |k: Seq<u8>| m[k]@)
}

/// Binding a key follows the byte content through.
pub proof fn lemma_deep_insert(m: Map<Seq<u8>, Vec<u8>>, k: Seq<u8>, v: Vec<u8>)
    ensures
        deep_map(m.insert(k, v)) == deep_map(m).insert(k, v@),
{
    assert(deep_map(m.insert(k, v)) =~= deep_map(m).insert(k, v@));
}

/// Dropping a key follows the byte content through.
pub proof fn lemma_deep_remove(m: Map<Seq<u8>, Vec<u8>>, k: Seq<u8>)
    ensures
        deep_map(m.remove(k)) == deep_map(m).remove(k),
{
    assert(deep_map(m.remove(k)) =~= deep_map(m).remove(k));
}

/// The records of every sealed segment of the run, in log order.
pub open spec fn sealed_records(segs: Seq<Segment>) -> Seq<RecordV> {
    stored_records(datas(segs).drop_last())
}

/// No sealed segment holds a tombstone or a superseded record: every
/// sealed record is live and its key occurs once.
pub open spec fn compacted(segs: Seq<Segment>) -> bool {
    let rs = sealed_records(segs);
    &&& forall|i: int| 0 <= i < rs.len() ==> !(#[trigger] rs[i]).tombstone
    &&& forall|i: int, j: int|
        0 <= i < j < rs.len() ==> (#[trigger] rs[i]).key != (#[trigger] rs[j]).key
}

/// The live records a merge table stands for, in table order.
pub open spec fn live_records(s: Seq<(Vec<u8>, Vec<u8>)>) -> Seq<RecordV> {
    s.map_values(|e: (Vec<u8>, Vec<u8>)| RecordV { key: e.0@, value: e.1@, tombstone: false })
}

/// Every key and value of the merge table is representable in the frame.
pub open spec fn table_fits(s: Seq<(Vec<u8>, Vec<u8>)>) -> bool {
    forall|i: int|
        0 <= i < s.len() ==> (#[trigger] s[i]).0@.len() <= u32::MAX && s[i].1@.len() <= u32::MAX
}

/// Replaying a merge table's live records from nothing yields its map.
pub proof fn lemma_fold_live(s: Seq<(Vec<u8>, Vec<u8>)>)
    ensures
        fold_records(Map::<Seq<u8>, Seq<u8>>::empty(), live_records(s)) == deep_map(assoc_map(s)),
    decreases s.len(),
{
    if s.len() == 0 {
        assert(live_records(s) =~= Seq::<RecordV>::empty());
        assert(fold_records(Map::<Seq<u8>, Seq<u8>>::empty(), Seq::<RecordV>::empty())
            == Map::<Seq<u8>, Seq<u8>>::empty());
        assert(deep_map(assoc_map(s)) =~= Map::<Seq<u8>, Seq<u8>>::empty());
    } else {
        let last = RecordV { key: s.last().0@, value: s.last().1@, tombstone: false };
        lemma_fold_live(s.drop_last());
        assert(live_records(s.drop_last()).push(last) =~= live_records(s));
        lemma_fold_push(Map::<Seq<u8>, Seq<u8>>::empty(), live_records(s.drop_last()), last);
        assert(assoc_map(s) == assoc_map(s.drop_last()).insert(s.last().0@, s.last().1));
        lemma_deep_insert(assoc_map(s.drop_last()), s.last().0@, s.last().1);
    }
}

impl Database {
    /// Merges every sealed segment: scans them in ascending order keeping
    /// the newest record per key, drops tombstones (the merge set has no
    /// predecessor outside itself), writes the survivors into fresh sealed
    /// segments within the capacity limit, installs them together with the
    /// untouched active segment, and rebuilds the index. The store's
    /// content is unchanged; the operation cannot fail.
    pub fn compact_segments(&mut self) -> (r: Result<(), KvError>)
        requires
            old(self).wf(),
        ensures
            r == Ok::<(), KvError>(()),
            final(self).wf(),
            final(self)@ == old(self)@,
            final(self).manager.capacity == old(self).manager.capacity,
            final(self).manager.segments@.len() <= old(self).manager.segments@.len(),
            final(self).manager.active() == old(self).manager.active(),
            compacted(final(self).manager.segments@),
    {
        let n = self.manager.segments.len();
        if n == 1 {
            proof {
                assert(datas(self.manager.segments@).drop_last()
                    =~= Seq::<Seq<u8>>::empty());
                assert(sealed_records(self.manager.segments@) == Seq::<RecordV>::empty());
            }
            return Ok(());
        }
        let cap = self.manager.capacity;
        let ghost segsv = self.manager.segments@;
        let ghost empty = Map::<Seq<u8>, Seq<u8>>::empty();

        // Pass 1: fold the sealed segments into a merge table holding the
        // newest record per key, tombstones deleting.
        let mut merge: Vec<(Vec<u8>, Vec<u8>)> = Vec::new();
        let mut si: usize = 0;
        while si < n - 1
            invariant
                si <= n - 1,
                n == segsv.len(),
                n >= 2,
                self.manager.segments@ == segsv,
                self.manager.capacity == cap,
                cap >= 1,
                forall|i: int| 0 <= i < n ==> (#[trigger] segsv[i]).record_count <= cap,
                forall|i: int| 0 <= i < n ==> (#[trigger] segsv[i]).wf(),
                keys_distinct(merge@),
                table_fits(merge@),
                deep_map(assoc_map(merge@)) == fold_records(
                    empty,
                    stored_records(datas(segsv).take(si as int)),
                ),
                merge@.len() <= (si as int) * (cap as int),
            decreases n - si,
        {
            let rp = self.manager.segments[si].iterate();
            let ghost segdata = segsv[si as int].data@;
            let ghost segrecs = records_from(segdata, 0);
            let ghost base = deep_map(assoc_map(merge@));
            let ghost len0 = merge@.len() as int;
            let mut ei: usize = 0;
            while ei < rp.entries.len()
                invariant
                    ei <= rp.entries@.len(),
                    self.manager.segments@ == segsv,
                    si < segsv.len(),
                    segdata == segsv[si as int].data@,
                    segrecs == records_from(segdata, 0),
                    rp.matches(segdata),
                    rp.entries@.len() == segrecs.len(),
                    keys_distinct(merge@),
                    table_fits(merge@),
                    deep_map(assoc_map(merge@)) == fold_records(base, segrecs.take(ei as int)),
                    merge@.len() <= len0 + ei,
                decreases rp.entries@.len() - ei,
            {
                let e = &rp.entries[ei];
                let ghost rv = segrecs[ei as int];
                proof {
                    assert(e.record@ == rv);
                    assert(segrecs.take(ei + 1) =~= segrecs.take(ei as int).push(rv));
                    lemma_fold_push(base, segrecs.take(ei as int), rv);
                    lemma_parse_inverse(segdata, e.offset as int);
                    assert(fits_frame(rv));
                }
                let ghost pre = merge@;
                if e.record.tombstone {
                    assoc_remove(&mut merge, &e.record.key);
                    proof {
                        lemma_deep_remove(assoc_map(pre), rv.key);
                    }
                } else {
                    let value = e.record.value.clone();
                    assoc_upsert(&mut merge, &e.record.key, value);
                    proof {
                        lemma_deep_insert(assoc_map(pre), rv.key, merge@.last().1);
                        assert(merge@.last().1@ == rv.value);
                    }
                }
                proof {
                    assert forall|i: int|
                        0 <= i < merge@.len() implies (#[trigger] merge@[i]).0@.len() <= u32::MAX
                        && merge@[i].1@.len() <= u32::MAX by {
                        if rv.tombstone || i < merge@.len() - 1 {
                            let j = choose|j: int| 0 <= j < pre.len() && merge@[i] == pre[j];
                            assert(pre[j].0@.len() <= u32::MAX && pre[j].1@.len() <= u32::MAX);
                        } else {
                            assert(merge@[i] == merge@.last());
                            assert(merge@.last().0@ == rv.key);
                            assert(merge@.last().1@ == rv.value);
                        }
                    }
                }
                ei = ei + 1;
            }
            proof {
                assert(segrecs.take(segrecs.len() as int) =~= segrecs);
                assert(datas(segsv).take(si + 1) =~= datas(segsv).take(si as int).push(segdata));
                lemma_stored_records_push(datas(segsv).take(si as int), segdata);
                lemma_fold_concat(empty, stored_records(datas(segsv).take(si as int)), segrecs);
                assert(segrecs.len() == segsv[si as int].record_count);
                assert(merge@.len() <= len0 + segrecs.len());
                assert((si as int) * (cap as int) + (cap as int) == ((si as int) + 1) * (
                cap as int)) by (nonlinear_arith);
            }
            si = si + 1;
        }

        // Pass 2: write the survivors into fresh sealed segments, starting
        // a new one at each capacity boundary.
        let total = merge.len();
        let mut outputs: Vec<Segment> = Vec::new();
        let mut current = Segment::new(1);
        let mut wi: usize = 0;
        while wi < total
            invariant
                wi <= total,
                total == merge@.len(),
                cap >= 1,
                keys_distinct(merge@),
                table_fits(merge@),
                forall|j: int| 0 <= j < outputs@.len() ==> (#[trigger] outputs@[j]).wf(),
                forall|j: int| 0 <= j < outputs@.len() ==> (#[trigger] outputs@[j]).sealed,
                forall|j: int| 0 <= j < outputs@.len() ==> (#[trigger] outputs@[j]).id == j + 1,
                forall|j: int|
                    0 <= j < outputs@.len() ==> (#[trigger] outputs@[j]).record_count == cap,
                current.wf(),
                !current.sealed,
                current.id == outputs@.len() + 1,
                current.record_count <= cap,
                wi == outputs@.len() * (cap as int) + current.record_count,
                wi > 0 ==> current.record_count >= 1,
                stored_records(datas(outputs@)) + current.records() == live_records(
                    merge@.take(wi as int),
                ),
            decreases total - wi,
        {
            if current.record_count >= cap {
                let ghost outs0 = outputs@;
                let ghost cur0 = current;
                current.seal();
                outputs.push(current);
                proof {
                    assert(datas(outputs@) =~= datas(outs0).push(cur0.data@));
                    lemma_stored_records_push(datas(outs0), cur0.data@);
                    assert((outs0.len() + 1) * (cap as int) == outs0.len() * (cap as int) + (
                    cap as int)) by (nonlinear_arith);
                    let o1 = outputs@.len() as int;
                    let c = cap as int;
                    assert(o1 * c == wi);
                    assert(o1 <= o1 * c) by (nonlinear_arith)
                        requires
                            c >= 1,
                            o1 >= 0,
                    ;
                    assert(outputs@.len() < total);
                }
                current = Segment::new((outputs.len() as u64) + 1);
                proof {
                    assert(stored_records(datas(outputs@)) + current.records()
                        =~= stored_records(datas(outs0)) + records_from(cur0.data@, 0));
                }
            }
            let rec = Record {
                key: merge[wi].0.clone(),
                value: merge[wi].1.clone(),
                tombstone: false,
            };
            let ghost outs_now = outputs@;
            let ghost cur_pre = current;
            current.append(&rec);
            proof {
                assert(rec@ == RecordV {
                    key: merge@[wi as int].0@,
                    value: merge@[wi as int].1@,
                    tombstone: false,
                });
                assert(live_records(merge@.take(wi + 1)) =~= live_records(
                    merge@.take(wi as int),
                ).push(rec@));
                assert(stored_records(datas(outs_now)) + cur_pre.records().push(rec@)
                    =~= (stored_records(datas(outs_now)) + cur_pre.records()).push(rec@));
            }
            wi = wi + 1;
        }
        if current.record_count > 0 {
            let ghost outs0 = outputs@;
            let ghost cur0 = current;
            current.seal();
            outputs.push(current);
            proof {
                assert(datas(outputs@) =~= datas(outs0).push(cur0.data@));
                lemma_stored_records_push(datas(outs0), cur0.data@);
                assert(stored_records(datas(outputs@))
                    =~= stored_records(datas(outs0)) + records_from(cur0.data@, 0));
            }
        }
        let ghost outs_final = outputs@;
        proof {
            assert(merge@.take(total as int) =~= merge@);
            assert(stored_records(datas(outs_final)) == live_records(merge@)) by {
                if current.record_count == 0 {
                    assert(total == 0);
                    assert(current.records().len() == 0);
                    assert(stored_records(datas(outs_final)) + current.records()
                        =~= stored_records(datas(outs_final)));
                }
            }
            // at most one replacement per merged input, so they sit below
            // the active segment's position and id
            assert(outs_final.len() <= n - 1) by {
                if total > 0 {
                    let o = outs_final.len() - 1;
                    assert(o * (cap as int) < total);
                    assert(total <= ((n - 1) as int) * (cap as int));
                    assert(o < n - 1) by (nonlinear_arith)
                        requires
                            o * (cap as int) < ((n - 1) as int) * (cap as int),
                            cap >= 1,
                    ;
                    assert(outs_final.len() == o + 1);
                } else {
                    assert(outs_final.len() <= 1);
                }
            }
            assert(segsv[n - 1].id >= n);
        }

        // Swap: install the replacements together with the untouched active
        // segment, dropping the old sealed files, then rebuild the index.
        let ghost old_segs = self.manager.segments@;
        let active = self.manager.segments.pop().unwrap();
        let ghost active_v = active;
        outputs.push(active);
        self.manager.segments = outputs;
        proof {
            let s = self.manager.segments@;
            let last = s.len() - 1;
            assert(s[last] == active_v);
            assert(forall|j: int| 0 <= j < last ==> s[j] == outs_final[j]);
            assert(active_v.id >= n);
            assert(last == outs_final.len());
            assert(self.manager.wf()) by {
                assert forall|i: int, j: int| 0 <= i < j < s.len() implies (#[trigger] s[i]).id < (
                #[trigger] s[j]).id by {
                    if j < last {
                        assert(s[i].id == i + 1 && s[j].id == j + 1);
                    } else {
                        if i < last {
                            assert(s[i].id == i + 1);
                            assert(s[i].id <= last);
                            assert(active_v.id > last);
                        }
                    }
                }
                assert forall|i: int| 0 <= i < s.len() implies (#[trigger] s[i]).id >= i + 1 by {
                    if i < last {
                        assert(s[i].id == i + 1);
                    } else {
                        assert(s[i].id == active_v.id);
                        assert(active_v.id >= n);
                        assert(n >= last + 1);
                    }
                }
            }
            // the replayed content is unchanged
            let acts = records_from(active_v.data@, 0);
            lemma_stored_records_decompose(datas(s));
            assert(datas(s).last() == active_v.data@);
            assert(datas(s).drop_last() =~= datas(outs_final));
            assert(stored_records(datas(s)) == live_records(merge@) + acts);
            lemma_fold_concat(empty, live_records(merge@), acts);
            lemma_fold_live(merge@);
            assert(datas(segsv).take((n - 1) as int) =~= datas(old_segs).drop_last());
            lemma_fold_concat(empty, stored_records(datas(old_segs).drop_last()), acts);
            lemma_stored_records_decompose(datas(old_segs));
            assert(datas(old_segs).last() == active_v.data@);
            assert(log_view(s) == log_view(old_segs));
            assert(compacted(s)) by {
                assert(sealed_records(s) == live_records(merge@));
                assert(forall|i: int|
                    0 <= i < merge@.len() ==> (#[trigger] live_records(merge@)[i]).key
                        == merge@[i].0@ && !live_records(merge@)[i].tombstone);
            }
        }
        let idx = rebuild_index(&self.manager.segments);
        self.idx = idx;
        Ok(())
    }
}

} // verus!
