use kvdb::btree::BTree;
use kvdb::snapshot::Snapshot;
use kvdb::wal::{apply_ops, encode_del, encode_set, replay_bytes};

#[test]
fn recovers_from_snapshot_plus_wal() {
    let mut tree = BTree::new();
    tree.set(b"a", b"1");
    tree.set(b"b", b"2");
    let snapshot = Snapshot::encode(&tree);
    // Written after the snapshot: only in the log.
    let mut log = encode_set(b"c", b"3");
    log.extend_from_slice(&encode_del(b"a"));

    // Load the snapshot (a=1, b=2), then replay the log (c=3, del a).
    let mut recovered = Snapshot::decode(&snapshot).unwrap();
    let ops = replay_bytes(&log);
    assert_eq!(apply_ops(&mut recovered, &ops), ops.len());
    assert_eq!(recovered.get(b"a"), None);
    assert_eq!(recovered.get(b"b"), Some(b"2".to_vec()));
    assert_eq!(recovered.get(b"c"), Some(b"3".to_vec()));
    assert_eq!(recovered.len(), 2);
}
