//! Association lists keyed by byte strings, with distinct keys: the shared
//! machinery behind the in-memory index and the compactor's merge table.

use vstd::prelude::*;

verus! {

/// The finite map an association list stands for.
pub open spec fn assoc_map<V>(s: Seq<(Vec<u8>, V)>) -> Map<Seq<u8>, V>
    decreases s.len(),
{
    if s.len() == 0 {
        Map::empty()
    } else {
        assoc_map(s.drop_last()).insert(s.last().0@, s.last().1)
    }
}

/// No two entries share a key.
pub open spec fn keys_distinct<V>(s: Seq<(Vec<u8>, V)>) -> bool {
    forall|i: int, j: int| 0 <= i < j < s.len() ==> (#[trigger] s[i]).0@ != (#[trigger] s[j]).0@
}

/// The map holds a key exactly when some entry carries it.
pub proof fn lemma_assoc_contains<V>(s: Seq<(Vec<u8>, V)>, k: Seq<u8>)
    ensures
        assoc_map(s).contains_key(k) <==> exists|i: int| 0 <= i < s.len() && (#[trigger] s[i]).0@ == k,
    decreases s.len(),
{
    if s.len() > 0 {
        lemma_assoc_contains(s.drop_last(), k);
        if s.last().0@ == k {
            assert(s[s.len() - 1].0@ == k);
        } else {
            if assoc_map(s).contains_key(k) {
                let i = choose|i: int| 0 <= i < s.drop_last().len() && (#[trigger] s.drop_last()[i]).0@ == k;
                assert(s[i].0@ == k);
            }
            if exists|i: int| 0 <= i < s.len() && (#[trigger] s[i]).0@ == k {
                let i = choose|i: int| 0 <= i < s.len() && (#[trigger] s[i]).0@ == k;
                assert(i < s.len() - 1);
                assert(s.drop_last()[i].0@ == k);
            }
        }
    }
}

/// With distinct keys, the map sends each entry's key to its value.
pub proof fn lemma_assoc_at<V>(s: Seq<(Vec<u8>, V)>, i: int)
    requires
        keys_distinct(s),
        0 <= i < s.len(),
    ensures
        assoc_map(s).contains_key(s[i].0@),
        assoc_map(s)[s[i].0@] == s[i].1,
    decreases s.len(),
{
    if i == s.len() - 1 {
    } else {
        assert(s.drop_last()[i] == s[i]);
        lemma_assoc_at(s.drop_last(), i);
        assert(s[i].0@ != s.last().0@);
    }
}

/// Appending an entry with a fresh key inserts it into the map.
pub proof fn lemma_assoc_push<V>(s: Seq<(Vec<u8>, V)>, kv: Vec<u8>, v: V)
    ensures
        assoc_map(s.push((kv, v))) == assoc_map(s).insert(kv@, v),
{
    let p = s.push((kv, v));
    assert(p.drop_last() =~= s);
    assert(p.last() == (kv, v));
}

/// Removing the entry at `i` removes its key from the map, keys staying
/// distinct.
pub proof fn lemma_assoc_remove<V>(s: Seq<(Vec<u8>, V)>, i: int)
    requires
        keys_distinct(s),
        0 <= i < s.len(),
    ensures
        assoc_map(s.remove(i)) == assoc_map(s).remove(s[i].0@),
        keys_distinct(s.remove(i)),
    decreases s.len(),
{
    let k = s[i].0@;
    let r = s.remove(i);
    assert(keys_distinct(r)) by {
        assert(forall|x: int| 0 <= x < r.len() ==> r[x] == (if x < i { s[x] } else { s[x + 1] }));
    }
    if i == s.len() - 1 {
        assert(r =~= s.drop_last());
        lemma_assoc_contains(s.drop_last(), k);
        assert(forall|x: int| 0 <= x < s.drop_last().len() ==> (#[trigger] s.drop_last()[x]).0@ != k);
        assert(!assoc_map(s.drop_last()).contains_key(k));
        assert(assoc_map(s.drop_last()).insert(k, s[i].1).remove(k) =~= assoc_map(s.drop_last()));
    } else {
        let d = s.drop_last();
        assert(r.drop_last() =~= d.remove(i));
        assert(r.last() == s.last());
        lemma_assoc_remove(d, i);
        assert(d[i] == s[i]);
        assert(assoc_map(r) == assoc_map(d).remove(k).insert(s.last().0@, s.last().1));
        assert(s.last().0@ != k);
        assert(assoc_map(d).remove(k).insert(s.last().0@, s.last().1)
            =~= assoc_map(d).insert(s.last().0@, s.last().1).remove(k));
    }
}

/// Byte-for-byte equality of two vectors.
pub fn bytes_eq(a: &Vec<u8>, b: &Vec<u8>) -> (r: bool)
    ensures
        r == (a@ == b@),
{
    if a.len() != b.len() {
        assert(a@ != b@);
        return false;
    }
    let mut i: usize = 0;
    while i < a.len()
        invariant
            i <= a@.len(),
            a@.len() == b@.len(),
            forall|j: int| 0 <= j < i ==> a@[j] == b@[j],
        decreases a@.len() - i,
    {
        if a[i] != b[i] {
            return false;
        }
        i = i + 1;
    }
    assert(a@ =~= b@);
    true
}

/// The position of the entry carrying `k`, if any.
pub fn assoc_find<V>(entries: &Vec<(Vec<u8>, V)>, k: &Vec<u8>) -> (r: Option<usize>)
    ensures
        match r {
            Some(i) => i < entries@.len() && entries@[i as int].0@ == k@,
            None => forall|i: int| 0 <= i < entries@.len() ==> (#[trigger] entries@[i]).0@ != k@,
        },
{
    let mut i: usize = 0;
    while i < entries.len()
        invariant
            i <= entries@.len(),
            forall|j: int| 0 <= j < i ==> (#[trigger] entries@[j]).0@ != k@,
        decreases entries@.len() - i,
    {
        if bytes_eq(&entries[i].0, k) {
            return Some(i);
        }
        i = i + 1;
    }
    None
}

/// Binds `k` to `v`, replacing any entry that carried `k`.
pub fn assoc_upsert<V>(entries: &mut Vec<(Vec<u8>, V)>, k: &Vec<u8>, v: V)
    requires
        keys_distinct(old(entries)@),
    ensures
        keys_distinct(final(entries)@),
        assoc_map(final(entries)@) == assoc_map(old(entries)@).insert(k@, v),
        final(entries)@.len() <= old(entries)@.len() + 1,
        final(entries)@.len() >= 1,
        forall|i: int|
            0 <= i < final(entries)@.len() - 1 ==> exists|j: int|
                0 <= j < old(entries)@.len() && (#[trigger] final(entries)@[i]) == old(entries)@[j],
        final(entries)@.last().0@ == k@,
        final(entries)@.last().1 == v,
{
    let ghost s0 = entries@;
    match assoc_find(entries, k) {
        Some(i) => {
            proof {
                lemma_assoc_remove(s0, i as int);
            }
            entries.remove(i);
            let ghost s1 = entries@;
            proof {
                assert(forall|x: int|
                    0 <= x < s1.len() ==> s1[x] == (if x < i { s0[x] } else { s0[x + 1] }));
            }
            entries.push((k.clone(), v));
            proof {
                assert(forall|x: int| 0 <= x < entries@.len() - 1 ==> entries@[x] == s1[x]);
                lemma_assoc_push(s1, entries@.last().0, v);
                assert(entries@.last().0@ == k@);
                assert(assoc_map(entries@) == assoc_map(s1).insert(k@, v));
                assert(assoc_map(s0).remove(k@).insert(k@, v) =~= assoc_map(s0).insert(k@, v));
                assert(keys_distinct(entries@)) by {
                    assert(forall|x: int| 0 <= x < s1.len() ==> (#[trigger] s1[x]).0@ != k@);
                    assert(forall|x: int| 0 <= x < entries@.len() - 1 ==> entries@[x] == s1[x]);
                }
            }
        },
        None => {
            entries.push((k.clone(), v));
            proof {
                assert(forall|x: int| 0 <= x < entries@.len() - 1 ==> entries@[x] == s0[x]);
                lemma_assoc_push(s0, entries@.last().0, v);
                assert(entries@.last().0@ == k@);
                assert(keys_distinct(entries@)) by {
                    assert(forall|x: int| 0 <= x < entries@.len() - 1 ==> entries@[x] == s0[x]);
                }
            }
        },
    }
}

/// Drops the entry carrying `k`, if any.
pub fn assoc_remove<V>(entries: &mut Vec<(Vec<u8>, V)>, k: &Vec<u8>)
    requires
        keys_distinct(old(entries)@),
    ensures
        keys_distinct(final(entries)@),
        assoc_map(final(entries)@) == assoc_map(old(entries)@).remove(k@),
        final(entries)@.len() <= old(entries)@.len(),
        forall|i: int|
            0 <= i < final(entries)@.len() ==> exists|j: int|
                0 <= j < old(entries)@.len() && (#[trigger] final(entries)@[i]) == old(entries)@[j],
{
    let ghost s0 = entries@;
    match assoc_find(entries, k) {
        Some(i) => {
            proof {
                lemma_assoc_remove(s0, i as int);
            }
            entries.remove(i);
            proof {
                assert(forall|x: int|
                    0 <= x < entries@.len() ==> entries@[x] == (if x < i { s0[x] } else {
                        s0[x + 1]
                    }));
            }
        },
        None => {
            proof {
                lemma_assoc_contains(s0, k@);
                assert(!assoc_map(s0).contains_key(k@));
                assert(assoc_map(s0).remove(k@) =~= assoc_map(s0));
            }
        },
    }
}

} // verus!
