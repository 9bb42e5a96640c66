//! Recovery: rebuilding the index by replaying every segment in ascending
//! id order, records within a segment in file order. A tombstone removes
//! its key, any other record overwrites it, so the final index holds the
//! most recent write per key.

use vstd::prelude::*;
use crate::index::{Index, Pointer};
use crate::manager::{datas, log_records, log_view, points_to};
use crate::model::{
    apply_record, fold_records, lemma_fold_concat, lemma_fold_push, stored_records,
};
use crate::record::{lemma_parse_to_decode, records_from};
use crate::segment::Segment;

verus! {

/// Rebuilds the whole index from the segments: after it, the index binds
/// exactly the live keys of the replayed log, each pointing at the record
/// holding its current value.
pub fn rebuild_index(segments: &Vec<Segment>) -> (r: Index)
    ensures
        r.wf(),
        forall|k: Seq<u8>| #[trigger] r@.contains_key(k) ==> log_view(segments@).contains_key(k),
        forall|k: Seq<u8>| #[trigger] log_view(segments@).contains_key(k) ==> r@.contains_key(k),
        forall|k: Seq<u8>| #[trigger] r@.contains_key(k) ==> points_to(
            segments@,
            r@[k],
            k,
            log_view(segments@)[k],
        ),
{
    let ghost segsv = segments@;
    let ghost empty = Map::<Seq<u8>, Seq<u8>>::empty();
    let mut idx = Index::new();
    let ghost mut cur = empty;
    let mut si: usize = 0;
    while si < segments.len()
        invariant
            si <= segsv.len(),
            segments@ == segsv,
            idx.wf(),
            cur == fold_records(empty, stored_records(datas(segsv).take(si as int))),
            forall|k: Seq<u8>| #[trigger] idx@.contains_key(k) ==> cur.contains_key(k),
            forall|k: Seq<u8>| #[trigger] cur.contains_key(k) ==> idx@.contains_key(k),
            forall|k: Seq<u8>| #[trigger] idx@.contains_key(k) ==> points_to(
                segsv,
                idx@[k],
                k,
                cur[k],
            ),
        decreases segsv.len() - si,
    {
        let seg_id = segments[si].id;
        let rp = segments[si].iterate();
        let ghost segdata = segsv[si as int].data@;
        let ghost segrecs = records_from(segdata, 0);
        let ghost base = cur;
        let mut ei: usize = 0;
        while ei < rp.entries.len()
            invariant
                ei <= rp.entries@.len(),
                segments@ == segsv,
                si < segsv.len(),
                seg_id == segsv[si as int].id,
                segdata == segsv[si as int].data@,
                segrecs == records_from(segdata, 0),
                rp.matches(segdata),
                rp.entries@.len() == segrecs.len(),
                idx.wf(),
                cur == fold_records(base, segrecs.take(ei as int)),
                forall|k: Seq<u8>| #[trigger] idx@.contains_key(k) ==> cur.contains_key(k),
                forall|k: Seq<u8>| #[trigger] cur.contains_key(k) ==> idx@.contains_key(k),
                forall|k: Seq<u8>| #[trigger] idx@.contains_key(k) ==> points_to(
                    segsv,
                    idx@[k],
                    k,
                    cur[k],
                ),
            decreases rp.entries@.len() - ei,
        {
            let e = &rp.entries[ei];
            let ghost rv = segrecs[ei as int];
            proof {
                assert(e.record@ == rv);
                assert(segrecs.take(ei + 1) =~= segrecs.take(ei as int).push(rv));
                lemma_fold_push(base, segrecs.take(ei as int), rv);
            }
            if e.record.tombstone {
                idx.remove(&e.record.key);
                proof {
                    cur = apply_record(cur, rv);
                }
            } else {
                let p = Pointer { segment_id: seg_id, offset: e.offset, length: e.length };
                idx.insert(&e.record.key, p);
                proof {
                    lemma_parse_to_decode(segdata, e.offset as int);
                    cur = apply_record(cur, rv);
                    assert(points_to(segsv, p, rv.key, rv.value)) by {
                        assert(segsv[si as int].id == p.segment_id);
                        assert(segdata.subrange(
                            p.offset as int,
                            p.offset as int + p.length as int,
                        ) == segdata.subrange(e.offset as int, e.offset as int + e.length as int));
                    }
                }
            }
            proof {
                assert forall|k: Seq<u8>| #[trigger] idx@.contains_key(k) implies points_to(
                    segsv,
                    idx@[k],
                    k,
                    cur[k],
                ) by {
                    if rv.tombstone {
                        assert(k != rv.key);
                    } else {
                        if k == rv.key {
                            assert(idx@[k] == Pointer {
                                segment_id: seg_id,
                                offset: e.offset,
                                length: e.length,
                            });
                            assert(cur[k] == rv.value);
                        }
                    }
                }
            }
            ei = ei + 1;
        }
        proof {
            assert(segrecs.take(segrecs.len() as int) =~= segrecs);
            assert(datas(segsv).take(si + 1) =~= datas(segsv).take(si as int).push(segdata));
            crate::model::lemma_stored_records_push(datas(segsv).take(si as int), segdata);
            lemma_fold_concat(empty, stored_records(datas(segsv).take(si as int)), segrecs);
            assert(cur == fold_records(empty, stored_records(datas(segsv).take(si + 1))));
        }
        si = si + 1;
    }
    proof {
        assert(datas(segsv).take(segsv.len() as int) =~= datas(segsv));
    }
    idx
}

} // verus!
