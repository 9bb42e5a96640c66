use deebee::record::{decode, encode, Record};
use deebee::replay::Replay;
use deebee::segment::Segment;
use deebee::KvError;

fn record(key: &[u8], value: &[u8], tombstone: bool) -> Record {
    Record { key: key.to_vec(), value: value.to_vec(), tombstone }
}

#[test]
fn encode_layout_is_length_prefixed() {
    let bytes = encode(&record(b"ab", b"xyz", false));
    assert_eq!(bytes[0..4], [2, 0, 0, 0]);
    assert_eq!(bytes[4..8], [3, 0, 0, 0]);
    assert_eq!(bytes[8], 0);
    assert_eq!(&bytes[9..11], b"ab");
    assert_eq!(&bytes[11..14], b"xyz");
}

#[test]
fn decode_undoes_encode() {
    let r = record(b"some key", b"some value", false);
    let back = decode(&encode(&r)).unwrap();
    assert_eq!(back.key, r.key);
    assert_eq!(back.value, r.value);
    assert_eq!(back.tombstone, r.tombstone);
}

#[test]
fn decode_undoes_encode_tombstone_and_arbitrary_bytes() {
    let r = record(&[0, 44, 255, 10, 44], &[], true);
    let back = decode(&encode(&r)).unwrap();
    assert_eq!(back.key, r.key);
    assert_eq!(back.value, r.value);
    assert!(back.tombstone);
}

#[test]
fn decode_rejects_truncated_header() {
    assert_eq!(decode(&vec![1, 0, 0]).err(), Some(KvError::CorruptRecord));
}

#[test]
fn decode_rejects_lengths_past_end() {
    let mut bytes = encode(&record(b"key", b"value", false));
    bytes.pop();
    assert_eq!(decode(&bytes).err(), Some(KvError::CorruptRecord));
}

#[test]
fn decode_rejects_trailing_bytes() {
    let mut bytes = encode(&record(b"k", b"v", false));
    bytes.push(0);
    assert_eq!(decode(&bytes).err(), Some(KvError::CorruptRecord));
}

#[test]
fn decode_rejects_bad_flags() {
    let mut bytes = encode(&record(b"k", b"v", false));
    bytes[8] = 7;
    assert_eq!(decode(&bytes).err(), Some(KvError::CorruptRecord));
}

#[test]
fn read_database_walks_records_in_file_order() {
    let mut content = encode(&record(b"a", b"1", false));
    content.extend(encode(&record(b"b", b"2", true)));
    content.extend(encode(&record(b"c", b"3", false)));
    let rp = Replay::new(None).read_database(&content);
    assert_eq!(rp.entries.len(), 3);
    assert_eq!(rp.consumed, content.len());
    assert_eq!(rp.entries[0].offset, 0);
    assert_eq!(rp.entries[0].record.key, b"a".to_vec());
    assert!(rp.entries[1].record.tombstone);
    assert_eq!(rp.entries[2].record.value, b"3".to_vec());
}

#[test]
fn read_database_stops_at_torn_record() {
    let mut content = encode(&record(b"a", b"1", false));
    let keep = content.len();
    let torn = encode(&record(b"b", b"2", false));
    content.extend(&torn[0..torn.len() / 2]);
    let rp = Replay::new(None).read_database(&content);
    assert_eq!(rp.entries.len(), 1);
    assert_eq!(rp.consumed, keep);
}

#[test]
fn replay_new_keeps_given_entries() {
    let content = encode(&record(b"k", b"v", false));
    let parsed = Replay::new(None).read_database(&content);
    let again = Replay::new(Some(parsed.entries));
    assert_eq!(again.entries.len(), 1);
    assert_eq!(again.entries[0].record.value, b"v".to_vec());
}

#[test]
fn get_key_returns_key_at_position() {
    let mut content = encode(&record(b"first", b"1", false));
    content.extend(encode(&record(b"second", b"2", false)));
    let rp = Replay::new(None).read_database(&content);
    assert_eq!(rp.get_key(0), Some(b"first".to_vec()));
    assert_eq!(rp.get_key(1), Some(b"second".to_vec()));
    assert_eq!(rp.get_key(2), None);
}

#[test]
fn segment_append_then_read_at() {
    let mut seg = Segment::new(1);
    let (off_a, len_a) = seg.append(&record(b"a", b"1", false));
    let (off_b, len_b) = seg.append(&record(b"bb", b"22", false));
    assert_eq!(off_a, 0);
    assert_eq!(off_b, len_a);
    let a = seg.read_at(off_a, len_a).unwrap();
    let b = seg.read_at(off_b, len_b).unwrap();
    assert_eq!(a.value, b"1".to_vec());
    assert_eq!(b.key, b"bb".to_vec());
}

#[test]
fn segment_read_past_end_is_io_error() {
    let mut seg = Segment::new(1);
    let (off, len) = seg.append(&record(b"a", b"1", false));
    assert_eq!(seg.read_at(off, len + 1).err(), Some(KvError::IoError));
}

#[test]
fn segment_read_misaligned_is_corrupt() {
    let mut seg = Segment::new(1);
    seg.append(&record(b"a", b"1", false));
    seg.append(&record(b"b", b"2", false));
    assert_eq!(seg.read_at(1, 9).err(), Some(KvError::CorruptRecord));
}

#[test]
fn segment_iterate_replays_appends() {
    let mut seg = Segment::new(4);
    seg.append(&record(b"a", b"1", false));
    seg.append(&record(b"b", b"2", true));
    seg.seal();
    let rp = seg.iterate();
    assert_eq!(rp.entries.len(), 2);
    assert_eq!(rp.entries[0].record.key, b"a".to_vec());
    assert!(rp.entries[1].record.tombstone);
}
