use kvdb::btree::BTree;
use kvdb::snapshot::{Snapshot, SnapshotError};

#[test]
fn save_and_load_roundtrip() {
    let mut tree = BTree::new();
    for i in 0..500 {
        tree.set(format!("k{i}").as_bytes(), format!("v{i}").as_bytes());
    }
    let bytes = Snapshot::encode(&tree);

    let loaded = Snapshot::decode(&bytes).unwrap();
    assert_eq!(loaded.len(), 500);
    for i in 0..500 {
        assert_eq!(loaded.get(format!("k{i}").as_bytes()), Some(format!("v{i}").into_bytes()));
    }
}

#[test]
fn snapshot_layout() {
    let mut tree = BTree::new();
    tree.set(b"k", b"vv");
    let bytes = Snapshot::encode(&tree);
    let mut want = b"KVDBSNP1".to_vec();
    want.extend_from_slice(&1u64.to_le_bytes());
    want.extend_from_slice(&1u32.to_le_bytes());
    want.extend_from_slice(b"k");
    want.extend_from_slice(&2u32.to_le_bytes());
    want.extend_from_slice(b"vv");
    assert_eq!(bytes, want);
    let empty = Snapshot::encode(&BTree::new());
    assert_eq!(empty.len(), 16);
    assert_eq!(Snapshot::decode(&empty).unwrap().len(), 0);
}

#[test]
fn bad_magic_and_truncation() {
    assert_eq!(Snapshot::decode(b"KVDB").err(), Some(SnapshotError::Truncated));
    assert_eq!(Snapshot::decode(b"NOTASNAPSHOT0000").err(), Some(SnapshotError::BadMagic));
    assert_eq!(Snapshot::decode(b"KVDBSNP1\x01").err(), Some(SnapshotError::Truncated));
    let mut tree = BTree::new();
    tree.set(b"key", b"value");
    let bytes = Snapshot::encode(&tree);
    for cut in 16..bytes.len() {
        assert_eq!(Snapshot::decode(&bytes[..cut]).err(), Some(SnapshotError::Truncated));
    }
    let mut longer = bytes.clone();
    longer.extend_from_slice(b"trailing");
    assert_eq!(Snapshot::decode(&longer).unwrap().get(b"key"), Some(b"value".to_vec()));
}

#[test]
fn later_duplicate_entries_win() {
    let mut bytes = b"KVDBSNP1".to_vec();
    bytes.extend_from_slice(&2u64.to_le_bytes());
    for v in [b"1", b"2"] {
        bytes.extend_from_slice(&1u32.to_le_bytes());
        bytes.extend_from_slice(b"k");
        bytes.extend_from_slice(&1u32.to_le_bytes());
        bytes.extend_from_slice(v);
    }
    let t = Snapshot::decode(&bytes).unwrap();
    assert_eq!(t.len(), 1);
    assert_eq!(t.get(b"k"), Some(b"2".to_vec()));
}
