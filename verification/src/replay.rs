//! Replay of one segment's bytes: the finite run of records a greedy forward
//! parse reads, each with its offset and framed length. Recovery and the
//! compactor walk segments through this.

use vstd::prelude::*;
use crate::record::{
    parse_at, parse_extent, records_from, try_parse, Record, RecordV,
};

verus! {

/// One replayed record with its position in the segment.
pub struct ReplayEntry {
    pub offset: usize,
    pub length: usize,
    pub record: Record,
}

/// The parsed content of one segment: records in file order, and the byte
/// extent the parse consumed before stopping.
pub struct Replay {
    pub entries: Vec<ReplayEntry>,
    pub consumed: usize,
}

impl Replay {
    /// The entries agree with the greedy parse of `s`.
    pub open spec fn matches(self, s: Seq<u8>) -> bool {
        &&& self.entries@.len() == records_from(s, 0).len()
        &&& forall|i: int| 0 <= i < self.entries@.len() ==> {
            let e = #[trigger] self.entries@[i];
            &&& e.record@ == records_from(s, 0)[i]
            &&& parse_at(s, e.offset as int) == Some((e.record@, e.length as int))
            &&& e.offset + e.length <= s.len()
        }
        &&& self.consumed == parse_extent(s, 0)
        &&& self.consumed <= s.len()
    }

    /// An empty replay, or one around the given entries.
    pub fn new(value: Option<Vec<ReplayEntry>>) -> (r: Replay)
        ensures
            match value {
                Some(v) => r.entries == v,
                None => r.entries@.len() == 0,
            },
            r.consumed == 0,
    {
        match value {
            Some(v) => Replay { entries: v, consumed: 0 },
            None => Replay { entries: Vec::new(), consumed: 0 },
        }
    }

    /// The key of the record at `index`, if there is one.
    pub fn get_key(&self, index: usize) -> (r: Option<Vec<u8>>)
        ensures
            match r {
                Some(k) => index < self.entries@.len() && k@ == self.entries@[index as int].record@.key,
                None => index >= self.entries@.len(),
            },
    {
        if index < self.entries.len() {
            Some(self.entries[index].record.key.clone())
        } else {
            None
        }
    }

    /// Parses the whole of `content` greedily, reading records in file order
    /// and stopping at the first framing failure.
    pub fn read_database(self, content: &Vec<u8>) -> (r: Replay)
        ensures
            r.matches(content@),
    {
        let ghost all = records_from(content@, 0);
        let total = content.len();
        let mut entries: Vec<ReplayEntry> = Vec::new();
        let mut off: usize = 0;
        let mut keep = true;
        while keep
            invariant
                total == content@.len(),
                off <= content@.len(),
                entries@.len() + records_from(content@, off as int).len() == all.len(),
                records_from(content@, off as int) == all.skip(entries@.len() as int),
                parse_extent(content@, 0) == parse_extent(content@, off as int),
                forall|i: int| 0 <= i < entries@.len() ==> {
                    let e = #[trigger] entries@[i];
                    &&& e.record@ == all[i]
                    &&& parse_at(content@, e.offset as int) == Some((e.record@, e.length as int))
                    &&& e.offset + e.length <= content@.len()
                },
                !keep ==> parse_at(content@, off as int) is None,
            decreases content@.len() - off + (if keep { 1int } else { 0int }),
        {
            match try_parse(content, off) {
                Some((rec, n)) => {
                    let ghost m = entries@.len() as int;
                    proof {
                        assert(records_from(content@, off as int)
                            == seq![rec@] + records_from(content@, off + n));
                        assert(all.skip(m)[0] == rec@);
                        assert(all[m] == rec@);
                        assert((seq![rec@] + records_from(content@, off + n)).skip(1)
                            =~= records_from(content@, off + n));
                        assert(all.skip(m).skip(1) =~= all.skip(m + 1));
                        assert(records_from(content@, off + n) =~= all.skip(m + 1));
                        assert(parse_extent(content@, off as int)
                            == parse_extent(content@, off + n));
                    }
                    entries.push(ReplayEntry { offset: off, length: n, record: rec });
                    off = off + n;
                },
                None => {
                    proof {
                        assert(records_from(content@, off as int) =~= Seq::<RecordV>::empty());
                    }
                    keep = false;
                },
            }
        }
        proof {
            assert(all.skip(entries@.len() as int).len() == 0);
        }
        Replay { entries, consumed: off }
    }
}

} // verus!
