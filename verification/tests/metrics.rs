use kvdb::btree::BTreeStats;
use kvdb::metrics::{prometheus_text, Metrics};

#[test]
fn tracks_top_keys() {
    let mut m = Metrics::new();
    for _ in 0..5 {
        m.record_op(b"hot");
    }
    for _ in 0..2 {
        m.record_op(b"warm");
    }
    m.record_op(b"cold");
    assert_eq!(m.total_ops(), 8);
    let top = m.top_keys(2);
    assert_eq!(top[0], (b"hot".to_vec(), 5));
    assert_eq!(top[1], (b"warm".to_vec(), 2));
}

#[test]
fn top_keys_takes_at_most_what_was_seen() {
    let mut m = Metrics::default();
    assert!(m.top_keys(3).is_empty());
    m.record_op(b"b");
    m.record_op(b"a");
    m.record_op(b"a");
    assert_eq!(m.top_keys(10), vec![(b"a".to_vec(), 2), (b"b".to_vec(), 1)]);
    assert!(m.top_keys(0).is_empty());
    assert_eq!(m.total_ops(), 3);
}

#[test]
fn prometheus_page_lists_each_metric() {
    let stats = BTreeStats {
        len: 3,
        arena_capacity_bytes: 4096,
        arena_live_bytes: 120,
        node_count: 1,
    };
    let text = String::from_utf8(prometheus_text(42, &stats)).unwrap();
    let expected = "# HELP kvdb_total_ops Total number of operations processed\n\
# TYPE kvdb_total_ops counter\n\
kvdb_total_ops 42\n\
# HELP kvdb_keys_total Number of keys currently stored\n\
# TYPE kvdb_keys_total gauge\n\
kvdb_keys_total 3\n\
# HELP kvdb_memory_bytes Arena capacity in bytes (includes freed-but-unreleased space)\n\
# TYPE kvdb_memory_bytes gauge\n\
kvdb_memory_bytes 4096\n\
# HELP kvdb_memory_live_bytes Live (non-freed) arena bytes\n\
# TYPE kvdb_memory_live_bytes gauge\n\
kvdb_memory_live_bytes 120\n\
# HELP kvdb_node_count Number of B-Tree nodes in use\n\
# TYPE kvdb_node_count gauge\n\
kvdb_node_count 1\n";
    assert_eq!(text, expected);
}

#[test]
fn top_key_text_replaces_invalid_utf8() {
    let t = kvdb::metrics::TopKey::new(b"caf\xc3\xa9", 3);
    assert_eq!(t.key, "café");
    assert_eq!(t.count, 3);
    let t = kvdb::metrics::TopKey::new(b"a\xffb", 1);
    assert_eq!(t.key, "a\u{FFFD}b");
}
