use kvdb::btree::BTree;
use std::collections::BTreeMap as StdMap;

/// A small deterministic generator (xorshift64*), standing in for a random
/// source.
struct Gen(u64);

impl Gen {
    fn next(&mut self) -> u64 {
        let mut x = self.0;
        x ^= x >> 12;
        x ^= x << 25;
        x ^= x >> 27;
        self.0 = x;
        x.wrapping_mul(0x2545_F491_4F6C_DD1D)
    }

    fn below(&mut self, n: usize) -> usize {
        (self.next() % n as u64) as usize
    }
}

#[test]
fn basic_set_get_del() {
    let mut t = BTree::new();
    assert_eq!(t.get(b"a"), None);
    assert_eq!(t.set(b"a", b"1"), None);
    assert_eq!(t.get(b"a"), Some(b"1".to_vec()));
    assert_eq!(t.set(b"a", b"2"), Some(b"1".to_vec()));
    assert_eq!(t.get(b"a"), Some(b"2".to_vec()));
    assert_eq!(t.del(b"a"), Some(b"2".to_vec()));
    assert_eq!(t.get(b"a"), None);
    assert_eq!(t.del(b"a"), None);
}

#[test]
fn many_inserts_and_split() {
    let mut t = BTree::new();
    for i in 0..5000i32 {
        let k = format!("key{i:06}");
        let v = format!("val{i}");
        t.set(k.as_bytes(), v.as_bytes());
    }
    assert_eq!(t.len(), 5000);
    for i in 0..5000i32 {
        let k = format!("key{i:06}");
        let v = format!("val{i}");
        assert_eq!(t.get(k.as_bytes()), Some(v.into_bytes()));
    }
}

#[test]
fn random_insert_delete_matches_reference() {
    let mut rng = Gen(0x9E37_79B9_7F4A_7C15);
    let mut t = BTree::new();
    let mut reference: StdMap<Vec<u8>, Vec<u8>> = StdMap::new();

    let keys: Vec<Vec<u8>> = (0..3000).map(|i| format!("k{i}").into_bytes()).collect();

    for _ in 0..20000 {
        let k = keys[rng.below(keys.len())].clone();
        if rng.below(10) < 7 {
            let v = format!("v{}", rng.next() as u32).into_bytes();
            let expect = reference.insert(k.clone(), v.clone());
            let got = t.set(&k, &v);
            assert_eq!(got, expect);
        } else {
            let expect = reference.remove(&k);
            let got = t.del(&k);
            assert_eq!(got, expect);
        }
    }

    assert_eq!(t.len(), reference.len());
    for (k, v) in reference.iter() {
        assert_eq!(t.get(k), Some(v.clone()));
    }
}

#[test]
fn keys_glob_pattern() {
    let mut t = BTree::new();
    t.set(b"user:1", b"a");
    t.set(b"user:2", b"b");
    t.set(b"order:1", b"c");
    let mut matched = t.keys_matching(b"user:*");
    matched.sort();
    assert_eq!(matched, vec![b"user:1".to_vec(), b"user:2".to_vec()]);
}

#[test]
fn delete_all_shrinks_to_empty() {
    let mut t = BTree::new();
    for i in 0..2000i32 {
        t.set(format!("k{i}").as_bytes(), b"v");
    }
    let mut keys: Vec<i32> = (0..2000).collect();
    let mut rng = Gen(0x1234_5678_9ABC_DEF1);
    for i in (1..keys.len()).rev() {
        let j = rng.below(i + 1);
        keys.swap(i, j);
    }
    for i in keys {
        assert!(t.del(format!("k{i}").as_bytes()).is_some());
    }
    assert_eq!(t.len(), 0);
    assert!(t.is_empty());
    assert_eq!(t.stats().arena_live_bytes, 0);
}

#[test]
fn for_each_walks_entries_in_key_order() {
    let mut t = BTree::new();
    for i in (0..300i32).rev() {
        t.set(format!("k{i:04}").as_bytes(), format!("v{i}").as_bytes());
    }
    let all = t.for_each();
    assert_eq!(all.len(), 300);
    for (i, (k, v)) in all.iter().enumerate() {
        assert_eq!(k, &format!("k{i:04}").into_bytes());
        assert_eq!(v, &format!("v{i}").into_bytes());
    }
}

#[test]
fn keys_matching_returns_keys_in_order() {
    let mut t = BTree::new();
    for k in ["b:2", "a:1", "b:1", "c:1", "b:10"] {
        t.set(k.as_bytes(), b"x");
    }
    assert_eq!(
        t.keys_matching(b"b:*"),
        vec![b"b:1".to_vec(), b"b:10".to_vec(), b"b:2".to_vec()]
    );
    assert_eq!(t.keys_matching(b"b:?"), vec![b"b:1".to_vec(), b"b:2".to_vec()]);
    assert!(t.keys_matching(b"z*").is_empty());
}

#[test]
fn stats_count_nodes_and_bytes() {
    let mut t = BTree::new();
    let s = t.stats();
    assert_eq!(s.len, 0);
    assert_eq!(s.node_count, 1);
    assert_eq!(s.arena_capacity_bytes, 0);
    assert_eq!(s.arena_live_bytes, 0);
    t.set(b"ab", b"cde");
    let s = t.stats();
    assert_eq!(s.len, 1);
    assert_eq!(s.arena_live_bytes, 5);
    assert_eq!(s.arena_capacity_bytes, 5);
    for i in 0..64i32 {
        t.set(format!("key{i:03}").as_bytes(), b"v");
    }
    // 65 keys overflow one node of at most 63 keys: a root and two leaves.
    assert_eq!(t.stats().node_count, 3);
    assert_eq!(t.len(), 65);
}

#[test]
fn overwrite_reuses_freed_value_space() {
    let mut t = BTree::new();
    t.set(b"k", b"0123456789");
    let cap = t.stats().arena_capacity_bytes;
    assert_eq!(t.set(b"k", b"abcdefghij"), Some(b"0123456789".to_vec()));
    assert_eq!(t.stats().arena_capacity_bytes, cap);
    assert_eq!(t.get(b"k"), Some(b"abcdefghij".to_vec()));
}

#[test]
fn contains_and_empty_values() {
    let mut t = BTree::default();
    assert!(t.is_empty());
    assert!(!t.contains(b""));
    t.set(b"", b"");
    assert!(t.contains(b""));
    assert_eq!(t.get(b""), Some(Vec::new()));
    assert_eq!(t.len(), 1);
    assert_eq!(t.del(b""), Some(Vec::new()));
    assert!(t.is_empty());
}

#[test]
fn room_checks() {
    let mut t = BTree::new();
    assert!(t.has_room_to_set(b"k", b"v"));
    assert!(t.has_room_to_delete());
    t.set(b"k", b"v");
    assert!(t.has_room_to_delete());
}

#[test]
fn deleting_an_absent_key_changes_nothing() {
    let mut t = BTree::new();
    for i in 0..100i32 {
        t.set(format!("k{i}").as_bytes(), b"value");
    }
    t.del(b"k7");
    let before = t.stats();
    let entries = t.for_each();
    assert_eq!(t.del(b"missing"), None);
    assert_eq!(t.del(b"k7"), None);
    let after = t.stats();
    assert_eq!(after.len, before.len);
    assert_eq!(after.arena_capacity_bytes, before.arena_capacity_bytes);
    assert_eq!(after.arena_live_bytes, before.arena_live_bytes);
    assert_eq!(after.node_count, before.node_count);
    assert_eq!(t.for_each(), entries);
}

#[test]
fn live_bytes_are_the_stored_bytes() {
    let mut t = BTree::new();
    let mut g = Gen(7);
    for _ in 0..3000 {
        let k = format!("key{}", g.below(500));
        if g.below(10) < 7 {
            let v = "x".repeat(g.below(20));
            t.set(k.as_bytes(), v.as_bytes());
        } else {
            t.del(k.as_bytes());
        }
        let sum: usize = t.for_each().iter().map(|(k, v)| k.len() + v.len()).sum();
        assert_eq!(t.stats().arena_live_bytes, sum);
    }
}
