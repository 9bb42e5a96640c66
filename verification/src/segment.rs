//! One append-only log segment, held as a byte image with offset-addressed
//! reads. Only the manager's tail segment is unsealed; all others are
//! immutable.

use vstd::prelude::*;
use crate::record::{
    copy_range, decode, encode, encoded_len, fits_frame, lemma_append_record,
    lemma_records_len_bound, parse_extent, records_from, spec_decode, spec_encode, Record, RecordV,
};
use crate::replay::Replay;
use crate::KvError;

verus! {

/// One append-only segment: its id, its byte image, how many records it
/// holds, and whether it still accepts appends.
pub struct Segment {
    pub id: u64,
    pub data: Vec<u8>,
    pub record_count: usize,
    pub sealed: bool,
}

impl Segment {
    /// The records this segment replays to, in file order.
    pub open spec fn records(self) -> Seq<RecordV> {
        records_from(self.data@, 0)
    }

    /// The byte image is exactly a run of framed records, and the count
    /// matches.
    pub open spec fn wf(self) -> bool {
        &&& parse_extent(self.data@, 0) == self.data@.len()
        &&& self.record_count == self.records().len()
    }

    /// A fresh, empty, unsealed segment.
    pub fn new(id: u64) -> (s: Segment)
        ensures
            s.wf(),
            s.id == id,
            !s.sealed,
            s.record_count == 0,
            s.data@ == Seq::<u8>::empty(),
            s.records() == Seq::<RecordV>::empty(),
    {
        let s = Segment { id, data: Vec::new(), record_count: 0, sealed: false };
        proof {
            assert(s.records() =~= Seq::<RecordV>::empty());
        }
        s
    }

    /// Appends one record at the end of the image, never touching prior
    /// bytes, and returns its offset and framed length.
    pub fn append(&mut self, r: &Record) -> (res: (usize, usize))
        requires
            old(self).wf(),
            !old(self).sealed,
            fits_frame(r@),
        ensures
            final(self).wf(),
            final(self).id == old(self).id,
            final(self).sealed == old(self).sealed,
            final(self).data@ == old(self).data@ + spec_encode(r@),
            final(self).records() == old(self).records().push(r@),
            final(self).record_count == old(self).record_count + 1,
            res.0 == old(self).data@.len(),
            res.1 == encoded_len(r@),
            res.0 + res.1 == final(self).data@.len(),
            spec_decode(final(self).data@.subrange(res.0 as int, res.0 + res.1 as int))
                == Some(r@),
    {
        proof {
            lemma_records_len_bound(self.data@, 0);
        }
        let offset = self.data.len();
        let bytes = encode(r);
        let length = bytes.len();
        crate::record::push_all(&mut self.data, &bytes);
        proof {
            lemma_append_record(old(self).data@, r@);
            crate::record::lemma_encode_decode(r@);
            assert(self.data@.subrange(offset as int, offset + length) =~= spec_encode(r@));
        }
        self.record_count = self.record_count + 1;
        (offset, length)
    }

    /// Reads and decodes exactly `length` bytes at `offset`. A read past the
    /// end fails with `IoError`; a framing violation with `CorruptRecord`.
    pub fn read_at(&self, offset: usize, length: usize) -> (r: Result<Record, KvError>)
        ensures
            match r {
                Ok(rec) => offset + length <= self.data@.len()
                    && spec_decode(self.data@.subrange(offset as int, offset + length))
                        == Some(rec@),
                Err(KvError::IoError) => offset + length > self.data@.len(),
                Err(KvError::CorruptRecord) => offset + length <= self.data@.len()
                    && spec_decode(self.data@.subrange(offset as int, offset + length)) is None,
                Err(KvError::SegmentNotFound) => false,
            },
    {
        if length > self.data.len() || offset > self.data.len() - length {
            return Err(KvError::IoError);
        }
        let bytes = copy_range(&self.data, offset, offset + length);
        decode(&bytes)
    }

    /// Marks the segment immutable.
    pub fn seal(&mut self)
        ensures
            final(self).sealed,
            final(self).id == old(self).id,
            final(self).data == old(self).data,
            final(self).record_count == old(self).record_count,
    {
        self.sealed = true;
    }

    /// Replays the whole segment: its records in file order, each with its
    /// offset and framed length.
    pub fn iterate(&self) -> (r: Replay)
        ensures
            r.matches(self.data@),
            r.entries@.len() == self.records().len(),
    {
        Replay::new(None).read_database(&self.data)
    }
}

} // verus!
