//! The record codec: one key-value (or tombstone) entry, framed as
//! `[key_len: u32 le] [value_len: u32 le] [flags: u8] [key] [value]`.
//! Framing is length-prefixed, so keys and values may hold arbitrary bytes.

use vstd::prelude::*;
use crate::KvError;

verus! {

/// One key-value (or tombstone) entry of the log.
#[derive(Clone, Debug)]
pub struct Record {
    pub key: Vec<u8>,
    pub value: Vec<u8>,
    pub tombstone: bool,
}

/// The mathematical content of a record.
#[verifier::ext_equal]
pub struct RecordV {
    pub key: Seq<u8>,
    pub value: Seq<u8>,
    pub tombstone: bool,
}

impl View for Record {
    type V = RecordV;

    open spec fn view(&self) -> RecordV {
        RecordV { key: self.key@, value: self.value@, tombstone: self.tombstone }
    }
}

/// The key and value lengths are representable in the frame's `u32` fields.
pub open spec fn fits_frame(r: RecordV) -> bool {
    r.key.len() <= u32::MAX && r.value.len() <= u32::MAX
}

/// The four little-endian bytes of a `u32`.
pub open spec fn u32_le_bytes(n: u32) -> Seq<u8> {
    seq![
        (n & 0xff) as u8,
        ((n >> 8) & 0xff) as u8,
        ((n >> 16) & 0xff) as u8,
        ((n >> 24) & 0xff) as u8,
    ]
}

/// The `u32` read from four little-endian bytes.
pub open spec fn u32_from_le(b0: u8, b1: u8, b2: u8, b3: u8) -> u32 {
    (b0 as u32) | ((b1 as u32) << 8) | ((b2 as u32) << 16) | ((b3 as u32) << 24)
}

/// The flags byte: bit 0 marks a tombstone.
pub open spec fn flags_byte(tombstone: bool) -> u8 {
    if tombstone { 1u8 } else { 0u8 }
}

/// The framed bytes of one record.
pub open spec fn spec_encode(r: RecordV) -> Seq<u8> {
    u32_le_bytes(r.key.len() as u32) + u32_le_bytes(r.value.len() as u32)
        + seq![flags_byte(r.tombstone)] + r.key + r.value
}

/// The framed size of one record: a 9-byte header, then key and value.
pub open spec fn encoded_len(r: RecordV) -> int {
    9 + r.key.len() as int + r.value.len() as int
}

/// Greedy parse of one record starting at `off`: the record and its framed
/// length, or `None` where the header is truncated, the declared lengths
/// reach past the end, or the flags byte is invalid.
pub open spec fn parse_at(s: Seq<u8>, off: int) -> Option<(RecordV, int)> {
    if 0 <= off && off + 9 <= s.len() {
        let klen = u32_from_le(s[off], s[off + 1], s[off + 2], s[off + 3]) as int;
        let vlen = u32_from_le(s[off + 4], s[off + 5], s[off + 6], s[off + 7]) as int;
        let total = 9 + klen + vlen;
        if off + total <= s.len() && (s[off + 8] == 0 || s[off + 8] == 1) {
            Some((
                RecordV {
                    key: s.subrange(off + 9, off + 9 + klen),
                    value: s.subrange(off + 9 + klen, off + total),
                    tombstone: s[off + 8] == 1,
                },
                total,
            ))
        } else {
            None
        }
    } else {
        None
    }
}

/// Decode of a byte string holding exactly one record.
pub open spec fn spec_decode(s: Seq<u8>) -> Option<RecordV> {
    match parse_at(s, 0) {
        Some((r, n)) => if n == s.len() { Some(r) } else { None },
        None => None,
    }
}

/// The records read by a greedy forward parse from `off`, stopping at the
/// first framing failure.
pub open spec fn records_from(s: Seq<u8>, off: int) -> Seq<RecordV>
    decreases s.len() - off,
{
    if 0 <= off && off <= s.len() {
        match parse_at(s, off) {
            Some((r, n)) => seq![r] + records_from(s, off + n),
            None => Seq::empty(),
        }
    } else {
        Seq::empty()
    }
}

/// The offset where the greedy forward parse from `off` stops.
pub open spec fn parse_extent(s: Seq<u8>, off: int) -> int
    decreases s.len() - off,
{
    if 0 <= off && off <= s.len() {
        match parse_at(s, off) {
            Some((r, n)) => parse_extent(s, off + n),
            None => off,
        }
    } else {
        off
    }
}

/// The concatenated framed bytes of a run of records.
pub open spec fn encode_all(rs: Seq<RecordV>) -> Seq<u8>
    decreases rs.len(),
{
    if rs.len() == 0 {
        Seq::empty()
    } else {
        spec_encode(rs[0]) + encode_all(rs.skip(1))
    }
}

/// All records of a run are representable in the frame.
pub open spec fn all_fit(rs: Seq<RecordV>) -> bool {
    forall|i: int| 0 <= i < rs.len() ==> fits_frame(#[trigger] rs[i])
}

/// Copies `data[start..end]` into a fresh vector.
pub fn copy_range(data: &Vec<u8>, start: usize, end: usize) -> (r: Vec<u8>)
    requires
        start <= end <= data@.len(),
    ensures
        r@ == data@.subrange(start as int, end as int),
{
    let mut out: Vec<u8> = Vec::new();
    let mut i: usize = start;
    while i < end
        invariant
            start <= i <= end <= data@.len(),
            out@ == data@.subrange(start as int, i as int),
        decreases end - i,
    {
        out.push(data[i]);
        i = i + 1;
        assert(out@ =~= data@.subrange(start as int, i as int));
    }
    out
}

/// Appends every byte of `src` to `dst`.
pub fn push_all(dst: &mut Vec<u8>, src: &Vec<u8>)
    ensures
        final(dst)@ == old(dst)@ + src@,
{
    let mut i: usize = 0;
    while i < src.len()
        invariant
            i <= src@.len(),
            dst@ == old(dst)@ + src@.subrange(0, i as int),
        decreases src@.len() - i,
    {
        dst.push(src[i]);
        i = i + 1;
        assert(dst@ =~= old(dst)@ + src@.subrange(0, i as int));
    }
    assert(dst@ =~= old(dst)@ + src@);
}

/// Encodes one record into its framed bytes.
pub fn encode(r: &Record) -> (out: Vec<u8>)
    requires
        fits_frame(r@),
    ensures
        out@ == spec_encode(r@),
        out@.len() == encoded_len(r@),
{
    let klen = r.key.len() as u32;
    let vlen = r.value.len() as u32;
    let mut out: Vec<u8> = Vec::new();
    out.push((klen & 0xff) as u8);
    out.push(((klen >> 8) & 0xff) as u8);
    out.push(((klen >> 16) & 0xff) as u8);
    out.push(((klen >> 24) & 0xff) as u8);
    out.push((vlen & 0xff) as u8);
    out.push(((vlen >> 8) & 0xff) as u8);
    out.push(((vlen >> 16) & 0xff) as u8);
    out.push(((vlen >> 24) & 0xff) as u8);
    out.push(if r.tombstone { 1 } else { 0 });
    push_all(&mut out, &r.key);
    push_all(&mut out, &r.value);
    assert(out@ =~= spec_encode(r@));
    out
}

/// Reads a `u32` from four little-endian bytes.
pub fn u32_from_le_exec(b0: u8, b1: u8, b2: u8, b3: u8) -> (r: u32)
    ensures
        r == u32_from_le(b0, b1, b2, b3),
{
    (b0 as u32) | ((b1 as u32) << 8) | ((b2 as u32) << 16) | ((b3 as u32) << 24)
}

/// Parses one record at `off`, returning it with its framed length, or
/// `None` at a framing failure.
pub fn try_parse(data: &Vec<u8>, off: usize) -> (r: Option<(Record, usize)>)
    requires
        off <= data@.len(),
    ensures
        match r {
            Some((rec, n)) => {
                &&& parse_at(data@, off as int) == Some((rec@, n as int))
                &&& off + n <= data@.len()
                &&& n >= 9
            },
            None => parse_at(data@, off as int) is None,
        },
{
    let len = data.len();
    if len - off < 9 {
        return None;
    }
    let klen32 = u32_from_le_exec(data[off], data[off + 1], data[off + 2], data[off + 3]);
    let vlen32 = u32_from_le_exec(data[off + 4], data[off + 5], data[off + 6], data[off + 7]);
    let flags = data[off + 8];
    if flags > 1 {
        return None;
    }
    let remaining = len - off - 9;
    let klen = klen32 as usize;
    let vlen = vlen32 as usize;
    if klen > remaining || vlen > remaining - klen {
        assert(parse_at(data@, off as int) is None);
        return None;
    }
    let key = copy_range(data, off + 9, off + 9 + klen);
    let value = copy_range(data, off + 9 + klen, off + 9 + klen + vlen);
    let rec = Record { key, value, tombstone: flags == 1 };
    Some((rec, 9 + klen + vlen))
}

/// The little-endian bytes of a `u32` read back as the same `u32`.
pub proof fn lemma_u32_le_round_trip(n: u32)
    ensures
        u32_from_le(
            (n & 0xff) as u8,
            ((n >> 8) & 0xff) as u8,
            ((n >> 16) & 0xff) as u8,
            ((n >> 24) & 0xff) as u8,
        ) == n,
{
    assert(((n & 0xff) as u8 as u32) | ((((n >> 8) & 0xff) as u8 as u32) << 8)
        | ((((n >> 16) & 0xff) as u8 as u32) << 16) | ((((n >> 24) & 0xff) as u8 as u32) << 24)
        == n) by (bit_vector);
}

/// Four bytes written back from the `u32` they encode are those bytes.
pub proof fn lemma_u32_le_inverse(b0: u8, b1: u8, b2: u8, b3: u8)
    ensures
        u32_le_bytes(u32_from_le(b0, b1, b2, b3)) == seq![b0, b1, b2, b3],
{
    let n = u32_from_le(b0, b1, b2, b3);
    assert(((b0 as u32) | ((b1 as u32) << 8) | ((b2 as u32) << 16) | ((b3 as u32) << 24)) & 0xff
        == b0 as u32) by (bit_vector);
    assert((((b0 as u32) | ((b1 as u32) << 8) | ((b2 as u32) << 16) | ((b3 as u32) << 24)) >> 8)
        & 0xff == b1 as u32) by (bit_vector);
    assert((((b0 as u32) | ((b1 as u32) << 8) | ((b2 as u32) << 16) | ((b3 as u32) << 24)) >> 16)
        & 0xff == b2 as u32) by (bit_vector);
    assert((((b0 as u32) | ((b1 as u32) << 8) | ((b2 as u32) << 16) | ((b3 as u32) << 24)) >> 24)
        & 0xff == b3 as u32) by (bit_vector);
    assert(u32_le_bytes(n) =~= seq![b0, b1, b2, b3]);
}

/// Parsing at the start of a framed record followed by anything yields
/// exactly that record and its framed length.
pub proof fn lemma_parse_encode(r: RecordV, t: Seq<u8>)
    requires
        fits_frame(r),
    ensures
        parse_at(spec_encode(r) + t, 0) == Some((r, encoded_len(r))),
{
    let s = spec_encode(r) + t;
    let kl = r.key.len() as u32;
    let vl = r.value.len() as u32;
    lemma_u32_le_round_trip(kl);
    lemma_u32_le_round_trip(vl);
    assert(s[0] == (kl & 0xff) as u8);
    assert(s[1] == ((kl >> 8) & 0xff) as u8);
    assert(s[2] == ((kl >> 16) & 0xff) as u8);
    assert(s[3] == ((kl >> 24) & 0xff) as u8);
    assert(s[4] == (vl & 0xff) as u8);
    assert(s[5] == ((vl >> 8) & 0xff) as u8);
    assert(s[6] == ((vl >> 16) & 0xff) as u8);
    assert(s[7] == ((vl >> 24) & 0xff) as u8);
    assert(u32_from_le(s[0], s[1], s[2], s[3]) == kl);
    assert(u32_from_le(s[4], s[5], s[6], s[7]) == vl);
    assert(s[8] == flags_byte(r.tombstone));
    let klen = kl as int;
    let vlen = vl as int;
    assert(s.subrange(9, 9 + klen) =~= r.key);
    assert(s.subrange(9 + klen, 9 + klen + vlen) =~= r.value);
    let parsed = parse_at(s, 0).unwrap().0;
    assert(parsed =~= r);
}

/// A framed record decodes back to itself.
pub proof fn lemma_encode_decode(r: RecordV)
    requires
        fits_frame(r),
    ensures
        spec_decode(spec_encode(r)) == Some(r),
{
    lemma_parse_encode(r, Seq::empty());
    assert(spec_encode(r) + Seq::<u8>::empty() =~= spec_encode(r));
}

/// A successful parse reads back exactly a framed record: the consumed bytes
/// are its encoding, and its lengths fit the frame.
pub proof fn lemma_parse_inverse(s: Seq<u8>, off: int)
    requires
        parse_at(s, off) is Some,
    ensures
        ({
            let (r, n) = parse_at(s, off).unwrap();
            &&& fits_frame(r)
            &&& n == encoded_len(r)
            &&& off + n <= s.len()
            &&& s.subrange(off, off + n) == spec_encode(r)
            &&& n >= 9
        }),
{
    let (r, n) = parse_at(s, off).unwrap();
    lemma_u32_le_inverse(s[off], s[off + 1], s[off + 2], s[off + 3]);
    lemma_u32_le_inverse(s[off + 4], s[off + 5], s[off + 6], s[off + 7]);
    assert(r.key.len() == u32_from_le(s[off], s[off + 1], s[off + 2], s[off + 3]) as int);
    assert(r.value.len() == u32_from_le(s[off + 4], s[off + 5], s[off + 6], s[off + 7]) as int);
    assert(s.subrange(off, off + n) =~= spec_encode(r));
}

/// Parsing is a function of the bytes from the offset on: shifting past a
/// prefix does not change the outcome.
pub proof fn lemma_parse_shift(a: Seq<u8>, b: Seq<u8>, k: int)
    requires
        0 <= k,
    ensures
        parse_at(a + b, a.len() + k) == parse_at(b, k),
{
    let s = a + b;
    let off = a.len() + k;
    if k + 9 <= b.len() {
        assert(s[off] == b[k]);
        assert(s[off + 1] == b[k + 1]);
        assert(s[off + 2] == b[k + 2]);
        assert(s[off + 3] == b[k + 3]);
        assert(s[off + 4] == b[k + 4]);
        assert(s[off + 5] == b[k + 5]);
        assert(s[off + 6] == b[k + 6]);
        assert(s[off + 7] == b[k + 7]);
        assert(s[off + 8] == b[k + 8]);
        let klen = u32_from_le(b[k], b[k + 1], b[k + 2], b[k + 3]) as int;
        let vlen = u32_from_le(b[k + 4], b[k + 5], b[k + 6], b[k + 7]) as int;
        let total = 9 + klen + vlen;
        if k + total <= b.len() && (b[k + 8] == 0 || b[k + 8] == 1) {
            assert(s.subrange(off + 9, off + 9 + klen) =~= b.subrange(k + 9, k + 9 + klen));
            assert(s.subrange(off + 9 + klen, off + total)
                =~= b.subrange(k + 9 + klen, k + total));
        }
    }
}

/// The greedy parse past a prefix reads the records of the suffix.
pub proof fn lemma_records_shift(a: Seq<u8>, b: Seq<u8>, k: int)
    requires
        0 <= k,
    ensures
        records_from(a + b, a.len() + k) == records_from(b, k),
        parse_extent(a + b, a.len() + k) == a.len() + parse_extent(b, k),
    decreases b.len() - k,
{
    lemma_parse_shift(a, b, k);
    let s = a + b;
    let off = a.len() + k;
    if k <= b.len() {
        match parse_at(b, k) {
            Some((r, n)) => {
                lemma_parse_inverse(b, k);
                lemma_records_shift(a, b, k + n);
                assert(records_from(s, off) == seq![r] + records_from(s, off + n));
                assert(records_from(b, k) == seq![r] + records_from(b, k + n));
            },
            None => {
                assert(records_from(s, off) =~= Seq::<RecordV>::empty());
            },
        }
    } else {
        assert(records_from(s, off) =~= Seq::<RecordV>::empty());
        assert(records_from(b, k) =~= Seq::<RecordV>::empty());
    }
}

/// The greedy parse of framed records followed by a tail reads those records
/// and then whatever the tail parses to.
#[verifier::rlimit(50)]
pub proof fn lemma_records_of_encode_all(rs: Seq<RecordV>, t: Seq<u8>)
    requires
        all_fit(rs),
    ensures
        records_from(encode_all(rs) + t, 0) == rs + records_from(t, 0),
        parse_extent(encode_all(rs) + t, 0) == encode_all(rs).len() + parse_extent(t, 0),
    decreases rs.len(),
{
    if rs.len() == 0 {
        assert(encode_all(rs) + t =~= t);
        assert(rs + records_from(t, 0) =~= records_from(t, 0));
        lemma_records_shift(Seq::empty(), t, 0);
        assert(Seq::<u8>::empty() + t =~= t);
    } else {
        let r0 = rs[0];
        let rest = rs.skip(1);
        let s = encode_all(rs) + t;
        assert(all_fit(rest)) by {
            assert(forall|i: int| 0 <= i < rest.len() ==> rest[i] == rs[i + 1]);
        }
        assert(s =~= spec_encode(r0) + (encode_all(rest) + t));
        lemma_parse_encode(r0, encode_all(rest) + t);
        assert(parse_at(s, 0) == Some((r0, encoded_len(r0))));
        let n = encoded_len(r0);
        assert(n == spec_encode(r0).len());
        lemma_records_shift(spec_encode(r0), encode_all(rest) + t, 0);
        assert(records_from(s, n) == records_from(encode_all(rest) + t, 0));
        lemma_records_of_encode_all(rest, t);
        assert(records_from(s, 0) == seq![r0] + records_from(s, n));
        assert(seq![r0] + (rest + records_from(t, 0)) =~= rs + records_from(t, 0));
        assert(parse_extent(s, 0) == parse_extent(s, n));
    }
}

/// Bounds of the greedy parse's stopping offset.
pub proof fn lemma_parse_extent_bounds(s: Seq<u8>, off: int)
    requires
        0 <= off <= s.len(),
    ensures
        off <= parse_extent(s, off) <= s.len(),
    decreases s.len() - off,
{
    match parse_at(s, off) {
        Some((r, n)) => {
            lemma_parse_inverse(s, off);
            lemma_parse_extent_bounds(s, off + n);
        },
        None => {},
    }
}

/// The bytes the greedy parse consumes are exactly the framed records it
/// reads.
pub proof fn lemma_parse_prefix(s: Seq<u8>, off: int)
    requires
        0 <= off <= s.len(),
    ensures
        s.subrange(off, parse_extent(s, off)) == encode_all(records_from(s, off)),
        all_fit(records_from(s, off)),
    decreases s.len() - off,
{
    lemma_parse_extent_bounds(s, off);
    match parse_at(s, off) {
        Some((r, n)) => {
            lemma_parse_inverse(s, off);
            lemma_parse_prefix(s, off + n);
            lemma_parse_extent_bounds(s, off + n);
            let ext = parse_extent(s, off);
            assert(ext == parse_extent(s, off + n));
            assert(s.subrange(off, ext)
                =~= s.subrange(off, off + n) + s.subrange(off + n, ext));
            let rs = records_from(s, off);
            assert(rs == seq![r] + records_from(s, off + n));
            assert(rs[0] == r);
            assert(rs.skip(1) =~= records_from(s, off + n));
            assert(encode_all(rs) == spec_encode(r) + encode_all(records_from(s, off + n)));
            assert(all_fit(rs)) by {
                let tail = records_from(s, off + n);
                assert(forall|i: int| 1 <= i < rs.len() ==> rs[i] == tail[i - 1]);
            }
        },
        None => {
            assert(s.subrange(off, off) =~= Seq::<u8>::empty());
            assert(encode_all(records_from(s, off)) =~= Seq::<u8>::empty());
        },
    }
}

/// Framing one more record extends the framed run.
pub proof fn lemma_encode_all_push(rs: Seq<RecordV>, r: RecordV)
    ensures
        encode_all(rs.push(r)) == encode_all(rs) + spec_encode(r),
    decreases rs.len(),
{
    if rs.len() == 0 {
        assert(rs.push(r)[0] == r);
        assert(rs.push(r).skip(1) =~= Seq::<RecordV>::empty());
        assert(encode_all(Seq::<RecordV>::empty()) == Seq::<u8>::empty());
        assert(encode_all(rs.push(r))
            == spec_encode(r) + encode_all(rs.push(r).skip(1)));
        assert(encode_all(rs) == Seq::<u8>::empty());
        assert(spec_encode(r) + Seq::<u8>::empty() =~= Seq::<u8>::empty() + spec_encode(r));
    } else {
        assert(rs.push(r)[0] == rs[0]);
        assert(rs.push(r).skip(1) =~= rs.skip(1).push(r));
        lemma_encode_all_push(rs.skip(1), r);
        assert(spec_encode(rs[0]) + (encode_all(rs.skip(1)) + spec_encode(r))
            =~= (spec_encode(rs[0]) + encode_all(rs.skip(1))) + spec_encode(r));
    }
}

/// Every replayed record takes at least its 9-byte header, so a parse reads
/// at most a ninth of the remaining bytes.
pub proof fn lemma_records_len_bound(s: Seq<u8>, off: int)
    requires
        0 <= off <= s.len(),
    ensures
        9 * records_from(s, off).len() <= s.len() - off,
    decreases s.len() - off,
{
    match parse_at(s, off) {
        Some((r, n)) => {
            lemma_parse_inverse(s, off);
            lemma_records_len_bound(s, off + n);
            assert(records_from(s, off).len() == 1 + records_from(s, off + n).len());
        },
        None => {},
    }
}

/// Appending one framed record to a fully framed byte run replays as one
/// more record.
#[verifier::rlimit(50)]
pub proof fn lemma_append_record(s: Seq<u8>, r: RecordV)
    requires
        parse_extent(s, 0) == s.len(),
        fits_frame(r),
    ensures
        records_from(s + spec_encode(r), 0) == records_from(s, 0).push(r),
        parse_extent(s + spec_encode(r), 0) == s.len() + encoded_len(r),
        spec_encode(r).len() == encoded_len(r),
{
    lemma_parse_prefix(s, 0);
    assert(s.subrange(0, s.len() as int) =~= s);
    let rs = records_from(s, 0);
    assert(s == encode_all(rs));
    lemma_encode_all_push(rs, r);
    assert(encode_all(rs.push(r)) == s + spec_encode(r));
    assert(all_fit(rs.push(r))) by {
        assert forall|i: int| 0 <= i < rs.push(r).len() implies fits_frame(#[trigger] rs.push(r)[i]) by {
            if i < rs.len() {
                assert(rs.push(r)[i] == rs[i]);
            } else {
                assert(rs.push(r)[i] == r);
            }
        }
    }
    lemma_records_of_encode_all(rs.push(r), Seq::empty());
    assert(encode_all(rs.push(r)) + Seq::<u8>::empty() =~= s + spec_encode(r));
    assert(records_from(Seq::<u8>::empty(), 0) == Seq::<RecordV>::empty());
    assert(rs.push(r) + Seq::<RecordV>::empty() =~= rs.push(r));
    assert(records_from(s + spec_encode(r), 0) == rs.push(r));
    assert(parse_extent(s + spec_encode(r), 0)
        == encode_all(rs.push(r)).len() + parse_extent(Seq::<u8>::empty(), 0));
    assert(parse_extent(Seq::<u8>::empty(), 0) == 0);
}

/// A record parsed out of the middle of a byte run decodes from exactly its
/// own bytes.
pub proof fn lemma_parse_to_decode(s: Seq<u8>, off: int)
    requires
        parse_at(s, off) is Some,
    ensures
        ({
            let (r, n) = parse_at(s, off).unwrap();
            spec_decode(s.subrange(off, off + n)) == Some(r)
        }),
{
    let (r, n) = parse_at(s, off).unwrap();
    lemma_parse_inverse(s, off);
    lemma_encode_decode(r);
}

/// Cutting a byte run at the point where its greedy parse stops keeps its
/// records and leaves a run that parses in full.
pub proof fn lemma_truncate_exact(s: Seq<u8>)
    ensures
        0 <= parse_extent(s, 0) <= s.len(),
        records_from(s.subrange(0, parse_extent(s, 0)), 0) == records_from(s, 0),
        parse_extent(s.subrange(0, parse_extent(s, 0)), 0) == parse_extent(s, 0),
{
    lemma_parse_extent_bounds(s, 0);
    lemma_parse_prefix(s, 0);
    let e = parse_extent(s, 0);
    let rs = records_from(s, 0);
    let prefix = s.subrange(0, e);
    assert(prefix == encode_all(rs));
    lemma_records_of_encode_all(rs, Seq::empty());
    assert(encode_all(rs) + Seq::<u8>::empty() =~= prefix);
    assert(records_from(Seq::<u8>::empty(), 0) == Seq::<RecordV>::empty());
    assert(rs + Seq::<RecordV>::empty() =~= rs);
    assert(parse_extent(Seq::<u8>::empty(), 0) == 0);
    assert(prefix.len() == e);
}

/// A strict prefix of a framed record does not parse: the torn tail of an
/// interrupted append is invisible to replay.
pub proof fn lemma_truncated_unparseable(r: RecordV, j: int)
    requires
        fits_frame(r),
        0 <= j < encoded_len(r),
    ensures
        parse_at(spec_encode(r).take(j), 0) is None,
{
    let s = spec_encode(r);
    let t = s.take(j);
    if j >= 9 {
        lemma_parse_encode(r, Seq::empty());
        assert(s + Seq::<u8>::empty() =~= s);
        assert(forall|i: int| 0 <= i < j ==> t[i] == s[i]);
        assert(u32_from_le(t[0], t[1], t[2], t[3]) == u32_from_le(s[0], s[1], s[2], s[3]));
        assert(u32_from_le(t[4], t[5], t[6], t[7]) == u32_from_le(s[4], s[5], s[6], s[7]));
        let klen = u32_from_le(s[0], s[1], s[2], s[3]) as int;
        let vlen = u32_from_le(s[4], s[5], s[6], s[7]) as int;
        assert(9 + klen + vlen == encoded_len(r));
        assert(0 + (9 + klen + vlen) > t.len());
    }
}

/// Decodes a byte string holding exactly one record; fails with
/// `CorruptRecord` on any framing violation or trailing bytes.
pub fn decode(bytes: &Vec<u8>) -> (r: Result<Record, KvError>)
    ensures
        match r {
            Ok(rec) => spec_decode(bytes@) == Some(rec@),
            Err(e) => e == KvError::CorruptRecord && spec_decode(bytes@) is None,
        },
{
    match try_parse(bytes, 0) {
        Some((rec, n)) => {
            if n == bytes.len() {
                Ok(rec)
            } else {
                Err(KvError::CorruptRecord)
            }
        },
        None => Err(KvError::CorruptRecord),
    }
}

} // verus!
