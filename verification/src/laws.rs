//! The store's laws, stated over the same spec functions its contracts use.
//! The codec round trip stands beside the codec itself
//! (`record::lemma_encode_decode`); compaction's content preservation is the
//! `ensures` of `Database::compact_segments`.

use vstd::prelude::*;
use crate::engine::Database;
use crate::manager::step_counts;
use crate::model::{image_views, stored_view};
use crate::record::{
    all_fit, encode_all, encoded_len, fits_frame, lemma_records_of_encode_all,
    lemma_truncated_unparseable, records_from, spec_encode, RecordV,
};

verus! {

/// After a write, a read of the same key yields the written value:
/// `set_by_key` ensures the store's map gains exactly this binding, and
/// `get_by_key` ensures it reads that map.
pub proof fn lemma_set_then_get(m: Map<Seq<u8>, Seq<u8>>, k: Seq<u8>, v: Seq<u8>)
    ensures
        m.insert(k, v).contains_key(k),
        m.insert(k, v)[k] == v,
{
}

/// A second write to the same key wins: the store's map holds the later
/// value.
pub proof fn lemma_set_overwrites(m: Map<Seq<u8>, Seq<u8>>, k: Seq<u8>, v1: Seq<u8>, v2: Seq<u8>)
    ensures
        m.insert(k, v1).insert(k, v2).contains_key(k),
        m.insert(k, v1).insert(k, v2)[k] == v2,
{
}

/// After a delete, the key is absent: `delete` ensures the binding is gone,
/// and `get_by_key` then yields the empty result.
pub proof fn lemma_delete_then_get(m: Map<Seq<u8>, Seq<u8>>, k: Seq<u8>)
    ensures
        !m.remove(k).contains_key(k),
{
}

/// Writes and deletes survive a restart: `close` ensures its images replay
/// to the store's content, `open` ensures the reopened store holds exactly
/// what the images replay to, so the two contracts compose to the same map.
pub proof fn lemma_reopen_same_view(before: Database, images: Seq<Vec<u8>>, after: Database)
    requires
        stored_view(image_views(images)) == before@,
        after@ == stored_view(image_views(images)),
    ensures
        after@ == before@,
{
}

/// The run of per-segment record counts after a number of writes into a
/// fresh store: `Database::new` starts at one empty segment, and each
/// `set_by_key` or `delete` steps the counts by `step_counts`.
pub open spec fn run_counts(n: nat, cap: int) -> Seq<int>
    decreases n,
{
    if n == 0 {
        seq![0int]
    } else {
        step_counts(run_counts((n - 1) as nat, cap), cap)
    }
}

/// Up to its capacity, a fresh store keeps every write in the one initial
/// segment.
pub proof fn lemma_fill_stays_single(n: nat, cap: int)
    requires
        cap >= 1,
        n <= cap,
    ensures
        run_counts(n, cap) == seq![n as int],
    decreases n,
{
    if n != 0 {
        lemma_fill_stays_single((n - 1) as nat, cap);
        assert(seq![(n - 1) as int].last() == n - 1);
        assert(step_counts(seq![(n - 1) as int], cap) =~= seq![(n - 1) as int].update(
            0,
            n as int,
        ));
        assert(seq![(n - 1) as int].update(0, n as int) =~= seq![n as int]);
    }
}

/// With capacity `cap`, the `cap + 1`-th write rotates: exactly two
/// segments, the first sealed full and the second holding one record. That
/// write's key resolves from the second, active segment: `set_by_key`
/// ensures the fresh index entry carries the active segment's id.
pub proof fn lemma_capacity_overflow_rotates(cap: int)
    requires
        cap >= 1,
    ensures
        run_counts((cap + 1) as nat, cap) == seq![cap, 1int],
{
    lemma_fill_stays_single(cap as nat, cap);
    assert(run_counts((cap + 1) as nat, cap) == step_counts(seq![cap], cap));
    assert(seq![cap].last() == cap);
    assert(step_counts(seq![cap], cap) =~= seq![cap].push(1int));
    assert(seq![cap].push(1int) =~= seq![cap, 1int]);
}

/// A torn final append is invisible and contained: a segment holding fully
/// written framed records followed by a strict prefix of one more replays
/// to exactly the fully written records. Recovery completes, and every
/// earlier record is still read.
pub proof fn lemma_torn_tail_recovery(rs: Seq<RecordV>, r: RecordV, j: int)
    requires
        all_fit(rs),
        fits_frame(r),
        0 <= j < encoded_len(r),
    ensures
        records_from(encode_all(rs) + spec_encode(r).take(j), 0) == rs,
{
    lemma_truncated_unparseable(r, j);
    lemma_records_of_encode_all(rs, spec_encode(r).take(j));
    assert(records_from(spec_encode(r).take(j), 0) =~= Seq::<RecordV>::empty());
    assert(rs + Seq::<RecordV>::empty() =~= rs);
}

} // verus!
