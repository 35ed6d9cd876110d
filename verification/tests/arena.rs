use kvdb::arena::{Arena, Ref};

#[test]
fn alloc_read_roundtrip() {
    let mut a = Arena::new();
    let r1 = a.allocate(b"hello");
    let r2 = a.allocate(b"world!!");
    assert_eq!(a.read(r1), b"hello");
    assert_eq!(a.read(r2), b"world!!");
}

#[test]
fn dealloc_reuses_space() {
    let mut a = Arena::new();
    let r1 = a.allocate(b"0123456789");
    let cap_before = a.capacity_bytes();
    a.dealloc(r1);
    let r2 = a.allocate(b"abcdefghij");
    assert_eq!(a.capacity_bytes(), cap_before);
    assert_eq!(a.read(r2), b"abcdefghij");
}

#[test]
fn coalesces_adjacent_free_blocks() {
    let mut a = Arena::new();
    let r1 = a.allocate(b"aaaaa");
    let r2 = a.allocate(b"bbbbb");
    let r3 = a.allocate(b"ccccc");
    a.dealloc(r1);
    a.dealloc(r3);
    a.dealloc(r2);
    assert_eq!(a.free_list_len(), 1);
    assert_eq!(a.free_block(0).1, 15);
}

#[test]
fn empty_allocation_is_the_null_handle() {
    let mut a = Arena::new();
    let r = a.allocate(b"");
    assert_eq!(r, Ref::null());
    assert_eq!(a.read(r), b"");
    assert_eq!(a.capacity_bytes(), 0);
    assert_eq!(a.live_bytes(), 0);
}

#[test]
fn first_fit_takes_the_front_of_a_larger_block() {
    let mut a = Arena::new();
    let r1 = a.allocate(b"0123456789");
    let _r2 = a.allocate(b"xy");
    a.dealloc(r1);
    let r3 = a.allocate(b"abc");
    assert_eq!(r3.offset, 0);
    assert_eq!(r3.len, 3);
    assert_eq!(a.free_list_len(), 1);
    assert_eq!(a.free_block(0), (3, 7));
    assert_eq!(a.capacity_bytes(), 12);
    assert_eq!(a.live_bytes(), 5);
}

#[test]
fn grows_when_no_free_block_fits() {
    let mut a = Arena::new();
    let r1 = a.allocate(b"abc");
    let _r2 = a.allocate(b"d");
    a.dealloc(r1);
    let r3 = a.allocate(b"efgh");
    assert_eq!(r3.offset, 4);
    assert_eq!(a.capacity_bytes(), 8);
    assert_eq!(a.read(r3), b"efgh");
    assert_eq!(a.free_block(0), (0, 3));
}

#[test]
fn dealloc_keeps_other_allocations() {
    let mut a = Arena::new();
    let r1 = a.allocate(b"one");
    let r2 = a.allocate(b"two");
    let r3 = a.allocate(b"three");
    a.dealloc(r2);
    assert_eq!(a.read(r1), b"one");
    assert_eq!(a.read(r3), b"three");
    assert_eq!(a.live_bytes(), 8);
    assert_eq!(a.free_block(0), (3, 3));
}

#[test]
fn default_arena_is_empty() {
    let a = Arena::default();
    assert_eq!(a.capacity_bytes(), 0);
    assert_eq!(a.free_list_len(), 0);
}
