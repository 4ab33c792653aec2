use kvlog::binary_tree::BinaryTree;
use kvlog::byte_search;
use kvlog::hint::parse_hint;
use kvlog::log_file::{LogFile, StoreError};
use kvlog::memtable::{Color, Node};
use kvlog::record::{decode_at, encode, Decoded, Record};

fn b(s: &str) -> Vec<u8> {
    s.as_bytes().to_vec()
}

fn open_store() -> LogFile {
    let mut store = LogFile::new();
    store.create().unwrap();
    store
}

#[test]
fn empty_key_is_rejected() {
    let mut store = open_store();
    assert_eq!(store.append(&b(""), &b("v")), Err(StoreError::InvalidKey));
    assert_eq!(store.segment_ids(), vec![1]);
    assert_eq!(store.total_size(), 0);
}

#[test]
fn append_before_create_fails() {
    let mut store = LogFile::new();
    assert_eq!(store.append(&b("k"), &b("v")), Err(StoreError::Io));
    assert_eq!(store.update(&b("k"), &b("v")), Err(StoreError::NotFound));
    assert_eq!(store.compact(), Err(StoreError::Io));
}

#[test]
fn simple_round_trip() {
    let mut store = open_store();
    store.append(&b("k1"), &b("v1")).unwrap();
    assert_eq!(store.read(&b("k1")), Ok(b("v1")));
    store.delete(&b("k1")).unwrap();
    assert_eq!(store.read(&b("k1")), Err(StoreError::NotFound));
    assert_eq!(store.delete(&b("k1")), Err(StoreError::NotFound));
}

#[test]
fn overwrite_keeps_last_value() {
    let mut store = open_store();
    store.append(&b("k"), &b("a")).unwrap();
    store.append(&b("k"), &b("b")).unwrap();
    store.append(&b("k"), &b("c")).unwrap();
    assert_eq!(store.read(&b("k")), Ok(b("c")));

    store.compact().unwrap();
    assert_eq!(store.read(&b("k")), Ok(b("c")));
    assert_eq!(store.segment_ids().len(), 1);
}

#[test]
fn update_rejects_missing_keys() {
    let mut store = open_store();
    assert_eq!(store.update(&b("k"), &b("v")), Err(StoreError::NotFound));
    store.append(&b("k"), &b("v")).unwrap();
    store.update(&b("k"), &b("w")).unwrap();
    assert_eq!(store.read(&b("k")), Ok(b("w")));
    assert_eq!(store.update(&b(""), &b("w")), Err(StoreError::InvalidKey));
}

#[test]
fn rotation_spreads_records_over_segments() {
    let mut store = open_store();
    store.set_segment_size_threshold(64);
    for i in 0..10 {
        let key = format!("key-{}", i);
        let value = format!("val-{}", i);
        store.append(&b(&key), &b(&value)).unwrap();
    }
    assert!(store.segment_ids().len() >= 2);
    assert_eq!(store.read(&b("key-7")), Ok(b("val-7")));
    for i in 0..10 {
        let key = format!("key-{}", i);
        let value = format!("val-{}", i);
        assert_eq!(store.read(&b(&key)), Ok(b(&value)));
    }
}

#[test]
fn segment_ids_grow_over_the_lifetime() {
    let mut store = open_store();
    store.set_segment_size_threshold(16);
    let mut seen: Vec<u64> = store.segment_ids();
    for i in 0..6 {
        let key = format!("k{}", i);
        store.append(&b(&key), &b("0123456789abcdef")).unwrap();
        let ids = store.segment_ids();
        for w in ids.windows(2) {
            assert!(w[0] < w[1]);
        }
        assert!(*ids.last().unwrap() >= *seen.last().unwrap());
        seen = ids;
    }
    let before = *store.segment_ids().last().unwrap();
    store.compact().unwrap();
    let after = *store.segment_ids().last().unwrap();
    assert!(after > before);
}

#[test]
fn recovery_restores_every_record() {
    let mut store = open_store();
    for i in 1..=400 {
        let key = format!("123:{}", i);
        let value = format!("age:{}", i);
        store.append(&b(&key), &b(&value)).unwrap();
    }
    let image = store.disk_image();

    let mut reopened = LogFile::new();
    reopened.start(image).unwrap();
    for i in 1..=400 {
        let key = format!("123:{}", i);
        let value = format!("age:{}", i);
        assert_eq!(reopened.read(&b(&key)), Ok(b(&value)));
    }
}

#[test]
fn crash_before_close_loses_nothing() {
    let mut store = open_store();
    store.set_segment_size_threshold(64);
    store.append(&b("alpha"), &b("one")).unwrap();
    store.append(&b("beta"), &b("two")).unwrap();
    store.delete(&b("alpha")).unwrap();
    store.append(&b("gamma"), &b("three")).unwrap();

    // the disk image is all a crash leaves; no orderly shutdown happens
    let mut reopened = LogFile::new();
    reopened.start(store.disk_image()).unwrap();
    assert_eq!(reopened.read(&b("alpha")), Err(StoreError::NotFound));
    assert_eq!(reopened.read(&b("beta")), Ok(b("two")));
    assert_eq!(reopened.read(&b("gamma")), Ok(b("three")));
}

#[test]
fn recovery_tolerates_a_torn_tail() {
    let mut store = open_store();
    store.append(&b("k1"), &b("v1")).unwrap();
    store.append(&b("k2"), &b("v2")).unwrap();
    let mut image = store.disk_image();
    // a crash mid-write leaves half a record at the end of the active file
    let last = image.len() - 1;
    image[last].1.extend_from_slice(&[9, 9, 9, 9, 9]);

    let mut reopened = LogFile::new();
    reopened.start(image).unwrap();
    assert_eq!(reopened.read(&b("k1")), Ok(b("v1")));
    assert_eq!(reopened.read(&b("k2")), Ok(b("v2")));
}

#[test]
fn compaction_after_deletes_shrinks_the_log() {
    let mut store = open_store();
    store.set_segment_size_threshold(128);
    for i in 0..100 {
        let key = format!("key-{}", i);
        let value = format!("value-{}", i);
        store.append(&b(&key), &b(&value)).unwrap();
    }
    for i in 0..50 {
        let key = format!("key-{}", i);
        store.delete(&b(&key)).unwrap();
    }
    store.compact().unwrap();

    let ids = store.segment_ids();
    assert_eq!(ids.len(), 1);
    let data = store.segment_data(ids[0]).unwrap();
    let mut live_bytes = 0;
    for i in 50..100 {
        let key = format!("key-{}", i);
        let value = format!("value-{}", i);
        live_bytes += 24 + key.len() + value.len();
    }
    assert!(data.len() <= live_bytes);
    assert_eq!(data.len() as u64, store.total_size());

    for i in 0..50 {
        let key = format!("key-{}", i);
        assert_eq!(store.read(&b(&key)), Err(StoreError::NotFound));
    }
    for i in 50..100 {
        let key = format!("key-{}", i);
        let value = format!("value-{}", i);
        assert_eq!(store.read(&b(&key)), Ok(b(&value)));
    }
}

#[test]
fn compaction_keeps_the_store_observably_unchanged() {
    let mut store = open_store();
    store.set_segment_size_threshold(32);
    store.append(&b("a"), &b("1")).unwrap();
    store.append(&b("b"), &b("2")).unwrap();
    store.append(&b("a"), &b("3")).unwrap();
    store.delete(&b("b")).unwrap();
    store.compact().unwrap();
    assert_eq!(store.read(&b("a")), Ok(b("3")));
    assert_eq!(store.read(&b("b")), Err(StoreError::NotFound));
    store.append(&b("c"), &b("4")).unwrap();
    store.compact().unwrap();
    assert_eq!(store.read(&b("a")), Ok(b("3")));
    assert_eq!(store.read(&b("c")), Ok(b("4")));
}

#[test]
fn recovery_after_compaction_sees_the_same_store() {
    let mut store = open_store();
    store.append(&b("x"), &b("old")).unwrap();
    store.append(&b("x"), &b("new")).unwrap();
    store.append(&b("y"), &b("kept")).unwrap();
    store.compact().unwrap();

    let mut reopened = LogFile::new();
    reopened.start(store.disk_image()).unwrap();
    assert_eq!(reopened.read(&b("x")), Ok(b("new")));
    assert_eq!(reopened.read(&b("y")), Ok(b("kept")));
}

#[test]
fn hint_bytes_read_back_as_written() {
    let mut store = open_store();
    store.append(&b("one"), &b("1")).unwrap();
    store.append(&b("two"), &b("2")).unwrap();
    store.compact().unwrap();

    let hint = store.hint_data();
    let entries = parse_hint(&hint).unwrap();
    assert_eq!(entries.len(), 2);
    let mut keys: Vec<Vec<u8>> = entries.iter().map(|e| e.key.clone()).collect();
    keys.sort();
    assert_eq!(keys, vec![b("one"), b("two")]);
    for e in &entries {
        assert_eq!(e.file_id, *store.segment_ids().last().unwrap());
    }
}

#[test]
fn hint_rejects_torn_bytes() {
    let mut store = open_store();
    store.append(&b("one"), &b("1")).unwrap();
    store.compact().unwrap();
    let mut hint = store.hint_data();
    hint.pop();
    assert!(parse_hint(&hint).is_none());
}

#[test]
fn record_encoding_lays_fields_out_little_endian() {
    let rec = Record { timestamp: 1, key: b("a"), value: b("b") };
    let bytes = encode(&rec);
    assert_eq!(
        bytes,
        vec![
            1, 0, 0, 0, 0, 0, 0, 0, // timestamp
            1, 0, 0, 0, 0, 0, 0, 0, // key size
            1, 0, 0, 0, 0, 0, 0, 0, // value size
            97, // "a"
            98, // "b"
        ]
    );
}

#[test]
fn record_decoding_reads_back_what_was_encoded() {
    let rec = Record { timestamp: -7, key: b("key"), value: b("value") };
    let bytes = encode(&rec);
    match decode_at(&bytes, 0) {
        Decoded::Item(out, next) => {
            assert_eq!(out.timestamp, -7);
            assert_eq!(out.key, b("key"));
            assert_eq!(out.value, b("value"));
            assert_eq!(next, bytes.len());
        },
        _ => panic!("a whole record was written"),
    }
}

#[test]
fn record_decoding_flags_short_and_lying_headers() {
    let rec = Record { timestamp: 0, key: b("k"), value: b("v") };
    let mut bytes = encode(&rec);
    assert!(matches!(decode_at(&bytes, bytes.len()), Decoded::End));
    bytes.truncate(10);
    assert!(matches!(decode_at(&bytes, 0), Decoded::Corrupt));

    // a header whose sizes run past the end of the file
    let mut lying = vec![0u8; 24];
    lying[8] = 200;
    assert!(matches!(decode_at(&lying, 0), Decoded::Corrupt));
}

#[test]
fn byte_searches_find_their_targets() {
    assert_eq!(byte_search::linear_search(vec![7, 3, 5, 2], 5), 2);
    assert_eq!(byte_search::linear_search(vec![7, 3, 5, 2], 9), 0);
    assert_eq!(byte_search::binary_search(vec![2, 3, 5, 7, 11], 7), 7);
    assert_eq!(byte_search::binary_search(vec![2, 3, 5, 7, 11], 4), 0);
}

#[test]
fn memtable_nodes_start_unlinked() {
    let n: Node<u64, u64> = Node::new(3, 4, Color::Red);
    assert!(matches!(n.color, Color::Red));
    assert!(n.left.is_none() && n.right.is_none() && n.parent.is_none());
    let s: Node<u64, u64> = Node::sentinel();
    assert!(matches!(s.color, Color::Black));
    assert!(s.left.is_none() && s.right.is_none() && s.parent.is_none());
}

#[test]
fn binary_tree_takes_inserts_and_deletes() {
    let mut tree: BinaryTree<u64, u64> = BinaryTree::new();
    tree.insert(5, 50);
    tree.insert(2, 20);
    tree.insert(8, 80);
    tree.insert(5, 55);
    tree.delete(2);
    tree.delete(5);
    tree.delete(9);
    tree.insert(1, 10);
}
