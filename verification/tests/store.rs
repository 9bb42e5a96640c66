use std::collections::HashMap;
use deebee::engine::Database;
use deebee::index::{Index, Pointer};
use deebee::record::{encode, Record};
use deebee::KvError;

fn set(db: &mut Database, key: &[u8], value: &[u8]) {
    db.set_by_key(&key.to_vec(), &value.to_vec()).unwrap();
}

fn get(db: &Database, key: &[u8]) -> Option<Vec<u8>> {
    db.get_by_key(&key.to_vec()).unwrap()
}

#[test]
fn set_then_get() {
    let mut db = Database::new(10);
    set(&mut db, b"key", b"value");
    assert_eq!(get(&db, b"key"), Some(b"value".to_vec()));
}

#[test]
fn get_absent_is_empty_not_error() {
    let db = Database::new(10);
    assert_eq!(db.get_by_key(&b"missing".to_vec()), Ok(None));
}

#[test]
fn second_set_wins() {
    let mut db = Database::new(10);
    set(&mut db, b"k", b"first");
    set(&mut db, b"k", b"second");
    assert_eq!(get(&db, b"k"), Some(b"second".to_vec()));
}

#[test]
fn delete_then_get_is_empty() {
    let mut db = Database::new(10);
    set(&mut db, b"k", b"v");
    db.delete(&b"k".to_vec()).unwrap();
    assert_eq!(get(&db, b"k"), None);
}

#[test]
fn set_survives_close_and_reopen() {
    let mut db = Database::new(10);
    set(&mut db, b"k", b"v");
    set(&mut db, b"other", b"w");
    let images = db.close();
    let db2 = Database::open(images, 10);
    assert_eq!(get(&db2, b"k"), Some(b"v".to_vec()));
    assert_eq!(get(&db2, b"other"), Some(b"w".to_vec()));
}

#[test]
fn delete_survives_close_and_reopen() {
    let mut db = Database::new(2);
    set(&mut db, b"a", b"1");
    set(&mut db, b"b", b"2");
    set(&mut db, b"c", b"3");
    db.delete(&b"a".to_vec()).unwrap();
    let db2 = Database::open(db.close(), 2);
    assert_eq!(get(&db2, b"a"), None);
    assert_eq!(get(&db2, b"b"), Some(b"2".to_vec()));
    assert_eq!(get(&db2, b"c"), Some(b"3".to_vec()));
}

#[test]
fn capacity_overflow_rotates_into_second_segment() {
    let capacity = 3;
    let mut db = Database::new(capacity);
    let keys: Vec<Vec<u8>> = (0..capacity as u8 + 1).map(|i| vec![i]).collect();
    for (i, k) in keys.iter().enumerate() {
        db.set_by_key(k, &vec![i as u8]).unwrap();
        let expected_segments = if i < capacity { 1 } else { 2 };
        assert_eq!(db.manager.segments.len(), expected_segments);
    }
    let last = db.manager.segments.last().unwrap();
    assert_eq!(last.record_count, 1);
    assert!(!last.sealed);
    assert!(db.manager.segments[0].sealed);
    assert_eq!(get(&db, &keys[capacity]), Some(vec![capacity as u8]));
}

#[test]
fn fill_exactly_two_segments_scenario() {
    let mut db = Database::new(2);
    set(&mut db, b"a", b"1");
    set(&mut db, b"b", b"2");
    assert_eq!(db.manager.segments.len(), 1);
    set(&mut db, b"c", b"3");
    assert_eq!(db.manager.segments.len(), 2);
    assert_eq!(get(&db, b"a"), Some(b"1".to_vec()));
    assert_eq!(get(&db, b"c"), Some(b"3".to_vec()));
    db.compact_segments().unwrap();
    assert_eq!(get(&db, b"a"), Some(b"1".to_vec()));
    assert_eq!(get(&db, b"b"), Some(b"2".to_vec()));
    assert_eq!(get(&db, b"c"), Some(b"3".to_vec()));
}

#[test]
fn compaction_drops_superseded_and_tombstoned_records() {
    let mut db = Database::new(2);
    set(&mut db, b"a", b"old");
    set(&mut db, b"a", b"new");
    set(&mut db, b"b", b"2");
    set(&mut db, b"c", b"3");
    db.delete(&b"b".to_vec()).unwrap();
    set(&mut db, b"d", b"4");
    let before = db.manager.segments.len();
    db.compact_segments().unwrap();
    assert!(db.manager.segments.len() <= before);
    assert_eq!(get(&db, b"a"), Some(b"new".to_vec()));
    assert_eq!(get(&db, b"b"), None);
    assert_eq!(get(&db, b"c"), Some(b"3".to_vec()));
    assert_eq!(get(&db, b"d"), Some(b"4".to_vec()));
}

#[test]
fn compaction_preserves_randomized_workload() {
    let mut db = Database::new(4);
    let mut model: HashMap<Vec<u8>, Vec<u8>> = HashMap::new();
    let mut state: u64 = 0xdeadbeef;
    let mut rand = move || {
        state = state.wrapping_mul(6364136223846793005).wrapping_add(1442695040888963407);
        (state >> 33) as u32
    };
    for step in 0..400 {
        let key = vec![(rand() % 23) as u8];
        if rand() % 4 == 0 {
            db.delete(&key).unwrap();
            model.remove(&key);
        } else {
            let value = vec![(step % 256) as u8, (rand() % 256) as u8];
            db.set_by_key(&key, &value).unwrap();
            model.insert(key.clone(), value);
        }
        if step % 97 == 0 {
            db.compact_segments().unwrap();
        }
    }
    db.compact_segments().unwrap();
    for k in 0..23u8 {
        let key = vec![k];
        assert_eq!(get(&db, &key), model.get(&key).cloned());
    }
    let db2 = Database::open(db.close(), 4);
    for k in 0..23u8 {
        let key = vec![k];
        assert_eq!(get(&db2, &key), model.get(&key).cloned());
    }
}

#[test]
fn torn_final_append_is_contained_by_recovery() {
    let mut image1 = encode(&Record { key: b"a".to_vec(), value: b"1".to_vec(), tombstone: false });
    image1.extend(encode(&Record { key: b"b".to_vec(), value: b"2".to_vec(), tombstone: false }));
    let mut image2 = encode(&Record { key: b"c".to_vec(), value: b"3".to_vec(), tombstone: false });
    let torn = encode(&Record { key: b"d".to_vec(), value: b"4".to_vec(), tombstone: false });
    image2.extend(&torn[0..torn.len() / 2]);
    let db = Database::open(vec![image1, image2], 2);
    assert_eq!(get(&db, b"a"), Some(b"1".to_vec()));
    assert_eq!(get(&db, b"b"), Some(b"2".to_vec()));
    assert_eq!(get(&db, b"c"), Some(b"3".to_vec()));
    assert_eq!(get(&db, b"d"), None);
}

#[test]
fn reopen_from_empty_images_is_empty() {
    let db = Database::open(Vec::new(), 5);
    assert_eq!(get(&db, b"anything"), None);
    assert_eq!(db.manager.segments.len(), 1);
}

#[test]
fn manager_segment_lookup_fails_for_unknown_id() {
    let db = Database::new(2);
    assert!(db.manager.segment(1).is_ok());
    assert_eq!(db.manager.segment(99).err(), Some(KvError::SegmentNotFound));
}

#[test]
fn index_insert_and_lookup() {
    let mut idx = Index::new();
    let p1 = Pointer { segment_id: 1, offset: 0, length: 11 };
    let p2 = Pointer { segment_id: 2, offset: 7, length: 13 };
    idx.insert(&b"k".to_vec(), p1);
    idx.insert(&b"k".to_vec(), p2);
    idx.insert(&b"other".to_vec(), p1);
    assert_eq!(idx.lookup(&b"k".to_vec()), Some(p2));
    assert_eq!(idx.lookup(&b"other".to_vec()), Some(p1));
    assert_eq!(idx.len(), 2);
    idx.remove(&b"k".to_vec());
    assert_eq!(idx.lookup(&b"k".to_vec()), None);
}
