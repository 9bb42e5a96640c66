//! The engine's mathematical model: a store is the fold of its log. Records
//! are replayed forward, later writes overwriting earlier ones and tombstones
//! deleting, so a run of segment images denotes one finite map.

use vstd::prelude::*;
use crate::record::{records_from, RecordV};

verus! {

/// One replay step: a tombstone deletes its key, any other record binds it.
pub open spec fn apply_record(m: Map<Seq<u8>, Seq<u8>>, r: RecordV) -> Map<Seq<u8>, Seq<u8>> {
    if r.tombstone {
        m.remove(r.key)
    } else {
        m.insert(r.key, r.value)
    }
}

/// Forward replay of a run of records over a starting map.
pub open spec fn fold_records(m: Map<Seq<u8>, Seq<u8>>, rs: Seq<RecordV>) -> Map<Seq<u8>, Seq<u8>>
    decreases rs.len(),
{
    if rs.len() == 0 {
        m
    } else {
        fold_records(apply_record(m, rs[0]), rs.skip(1))
    }
}

/// The records of a run of segment images, in segment order then file order.
pub open spec fn stored_records(imgs: Seq<Seq<u8>>) -> Seq<RecordV>
    decreases imgs.len(),
{
    if imgs.len() == 0 {
        Seq::empty()
    } else {
        records_from(imgs[0], 0) + stored_records(imgs.skip(1))
    }
}

/// The map a run of segment images denotes: its full forward replay.
pub open spec fn stored_view(imgs: Seq<Seq<u8>>) -> Map<Seq<u8>, Seq<u8>> {
    fold_records(Map::empty(), stored_records(imgs))
}

/// Replaying one more record applies it to the fold so far.
pub proof fn lemma_fold_push(m: Map<Seq<u8>, Seq<u8>>, rs: Seq<RecordV>, r: RecordV)
    ensures
        fold_records(m, rs.push(r)) == apply_record(fold_records(m, rs), r),
    decreases rs.len(),
{
    if rs.len() == 0 {
        assert(rs.push(r)[0] == r);
        assert(rs.push(r).skip(1) =~= Seq::<RecordV>::empty());
        assert(fold_records(m, Seq::<RecordV>::empty()) == m);
        assert(fold_records(apply_record(m, r), Seq::<RecordV>::empty()) == apply_record(m, r));
        assert(fold_records(m, rs.push(r))
            == fold_records(apply_record(m, rs.push(r)[0]), rs.push(r).skip(1)));
    } else {
        assert(rs.push(r)[0] == rs[0]);
        assert(rs.push(r).skip(1) =~= rs.skip(1).push(r));
        lemma_fold_push(apply_record(m, rs[0]), rs.skip(1), r);
    }
}

/// Replay of a concatenation is replay of the parts in order.
pub proof fn lemma_fold_concat(m: Map<Seq<u8>, Seq<u8>>, a: Seq<RecordV>, b: Seq<RecordV>)
    ensures
        fold_records(m, a + b) == fold_records(fold_records(m, a), b),
    decreases a.len(),
{
    if a.len() == 0 {
        assert(a + b =~= b);
    } else {
        assert((a + b)[0] == a[0]);
        assert((a + b).skip(1) =~= a.skip(1) + b);
        lemma_fold_concat(apply_record(m, a[0]), a.skip(1), b);
    }
}

/// One more image appends its records to the stored run.
pub proof fn lemma_stored_records_push(imgs: Seq<Seq<u8>>, d: Seq<u8>)
    ensures
        stored_records(imgs.push(d)) == stored_records(imgs) + records_from(d, 0),
    decreases imgs.len(),
{
    if imgs.len() == 0 {
        assert(imgs.push(d)[0] == d);
        assert(imgs.push(d).skip(1) =~= Seq::<Seq<u8>>::empty());
        assert(stored_records(Seq::<Seq<u8>>::empty()) == Seq::<RecordV>::empty());
        assert(stored_records(imgs.push(d))
            == records_from(d, 0) + stored_records(imgs.push(d).skip(1)));
        assert(stored_records(imgs) == Seq::<RecordV>::empty());
        assert(records_from(d, 0) + Seq::<RecordV>::empty()
            =~= Seq::<RecordV>::empty() + records_from(d, 0));
    } else {
        assert(imgs.push(d)[0] == imgs[0]);
        assert(imgs.push(d).skip(1) =~= imgs.skip(1).push(d));
        lemma_stored_records_push(imgs.skip(1), d);
        assert(records_from(imgs[0], 0) + (stored_records(imgs.skip(1)) + records_from(d, 0))
            =~= (records_from(imgs[0], 0) + stored_records(imgs.skip(1))) + records_from(d, 0));
    }
}

/// The byte views of a run of owned segment images.
pub open spec fn image_views(imgs: Seq<Vec<u8>>) -> Seq<Seq<u8>> {
    Seq::new(imgs.len(), |i: int| imgs[i]@)
}

/// Two runs of images that replay to the same records per image replay to
/// the same records overall.
pub proof fn lemma_stored_records_congruent(a: Seq<Seq<u8>>, b: Seq<Seq<u8>>)
    requires
        a.len() == b.len(),
        forall|i: int| 0 <= i < a.len() ==> records_from(#[trigger] a[i], 0) == records_from(b[i], 0),
    ensures
        stored_records(a) == stored_records(b),
    decreases a.len(),
{
    if a.len() > 0 {
        assert(forall|i: int|
            0 <= i < a.skip(1).len() ==> #[trigger] a.skip(1)[i] == a[i + 1] && b.skip(1)[i] == b[
                i + 1
            ]);
        lemma_stored_records_congruent(a.skip(1), b.skip(1));
        assert(records_from(a[0], 0) == records_from(b[0], 0));
    }
}

/// The stored run splits at the last image.
pub proof fn lemma_stored_records_decompose(imgs: Seq<Seq<u8>>)
    requires
        imgs.len() > 0,
    ensures
        stored_records(imgs) == stored_records(imgs.drop_last()) + records_from(imgs.last(), 0),
{
    lemma_stored_records_push(imgs.drop_last(), imgs.last());
    assert(imgs.drop_last().push(imgs.last()) =~= imgs);
}

} // verus!
