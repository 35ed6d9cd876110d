use kvdb::btree::BTree;
use kvdb::wal::{apply_ops, encode_del, encode_set, replay_bytes, WalOp};

#[test]
fn append_and_replay_roundtrip() {
    let mut log = Vec::new();
    log.extend_from_slice(&encode_set(b"a", b"1"));
    log.extend_from_slice(&encode_set(b"b", b"2"));
    log.extend_from_slice(&encode_del(b"a"));
    let ops = replay_bytes(&log);
    assert_eq!(
        ops,
        vec![
            WalOp::Put(b"a".to_vec(), b"1".to_vec()),
            WalOp::Put(b"b".to_vec(), b"2".to_vec()),
            WalOp::Del(b"a".to_vec()),
        ]
    );
}

#[test]
fn records_are_resp_commands() {
    assert_eq!(encode_set(b"k", b"v"), b"*3\r\n$3\r\nSET\r\n$1\r\nk\r\n$1\r\nv\r\n".to_vec());
    assert_eq!(encode_del(b"k"), b"*2\r\n$3\r\nDEL\r\n$1\r\nk\r\n".to_vec());
}

#[test]
fn replay_of_empty_log_is_empty() {
    assert_eq!(replay_bytes(b""), Vec::new());
}

#[test]
fn replay_stops_at_a_partial_record() {
    let mut log = encode_set(b"a", b"1");
    let second = encode_set(b"b", b"2");
    log.extend_from_slice(&second[..second.len() - 3]);
    assert_eq!(replay_bytes(&log), vec![WalOp::Put(b"a".to_vec(), b"1".to_vec())]);
}

#[test]
fn replay_skips_other_commands_and_ignores_case() {
    let log = b"*1\r\n$4\r\nPING\r\n*3\r\n$3\r\nset\r\n$1\r\nx\r\n$1\r\ny\r\n*2\r\n$3\r\nDeL\r\n$1\r\nx\r\n*2\r\n$3\r\nSET\r\n$1\r\nz\r\n";
    assert_eq!(
        replay_bytes(log),
        vec![WalOp::Put(b"x".to_vec(), b"y".to_vec()), WalOp::Del(b"x".to_vec())]
    );
}

#[test]
fn replay_stops_at_a_frame_that_is_not_a_command() {
    let mut log = encode_del(b"a");
    log.extend_from_slice(b"+OK\r\n");
    log.extend_from_slice(&encode_del(b"b"));
    assert_eq!(replay_bytes(&log), vec![WalOp::Del(b"a".to_vec())]);
    let mut log = encode_del(b"a");
    log.extend_from_slice(b"$-7\r\n");
    log.extend_from_slice(&encode_del(b"b"));
    assert_eq!(replay_bytes(&log), vec![WalOp::Del(b"a".to_vec())]);
}

#[test]
fn apply_ops_replays_writes_on_a_tree() {
    let mut t = BTree::new();
    t.set(b"a", b"0");
    let ops = vec![
        WalOp::Put(b"a".to_vec(), b"1".to_vec()),
        WalOp::Put(b"b".to_vec(), b"2".to_vec()),
        WalOp::Del(b"a".to_vec()),
        WalOp::Put(b"c".to_vec(), b"3".to_vec()),
    ];
    assert_eq!(apply_ops(&mut t, &ops), 4);
    assert_eq!(t.get(b"a"), None);
    assert_eq!(t.get(b"b"), Some(b"2".to_vec()));
    assert_eq!(t.get(b"c"), Some(b"3".to_vec()));
    assert_eq!(t.len(), 2);
}
