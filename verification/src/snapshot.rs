//! Point-in-time snapshot of the whole tree, as bytes.
//!
//! Format (little-endian):
//! ```text
//! magic:   8 bytes   KVDBSNP1
//! count:   u64
//! entries: repeated { key_len: u32, key: [u8], val_len: u32, val: [u8] }
//! ```
use crate::btree::{entries_map, entry_bytes, pairs_view, BTree};
use crate::btree_model::sorted_c;
use vstd::prelude::*;

verus! {

/// Why bytes are not a snapshot.
#[derive(Debug, Clone, Copy, PartialEq, Eq, Structural)]
pub enum SnapshotError {
    /// The first 8 bytes are not the magic.
    BadMagic,
    /// The bytes end inside the header or an entry.
    Truncated,
    /// The keys and values hold more bytes than the arena can address.
    TooLarge,
}

/// `KVDBSNP1`.
pub open spec fn magic() -> Seq<u8> {
    seq![0x4bu8, 0x56u8, 0x44u8, 0x42u8, 0x53u8, 0x4eu8, 0x50u8, 0x31u8]
}

/// The little-endian bytes of a `u32`.
pub open spec fn le_u32(n: u32) -> Seq<u8> {
    seq![(n % 256) as u8, ((n / 256) % 256) as u8, ((n / 65536) % 256) as u8, ((n / 16777216) % 256) as u8]
}

/// The little-endian bytes of a `u64`.
pub open spec fn le_u64(n: u64) -> Seq<u8> {
    le_u32((n % 0x1_0000_0000) as u32) + le_u32((n / 0x1_0000_0000) as u32)
}

/// The number that little-endian bytes denote.
pub open spec fn read_le(b: Seq<u8>) -> nat
    decreases b.len(),
{
    if b.len() == 0 {
        0
    } else {
        b[0] as nat + 256 * read_le(b.skip(1))
    }
}

/// The bytes of one entry.
pub open spec fn entry_record(e: (Seq<u8>, Seq<u8>)) -> Seq<u8> {
    le_u32(e.0.len() as u32) + e.0 + le_u32(e.1.len() as u32) + e.1
}

/// The bytes of entries, one after another.
pub open spec fn records(es: Seq<(Seq<u8>, Seq<u8>)>) -> Seq<u8>
    decreases es.len(),
{
    if es.len() == 0 {
        Seq::empty()
    } else {
        entry_record(es[0]) + records(es.skip(1))
    }
}

/// The snapshot of entries.
pub open spec fn snapshot_bytes(es: Seq<(Seq<u8>, Seq<u8>)>) -> Seq<u8> {
    magic() + le_u64(es.len() as u64) + records(es)
}

/// Reads `count` entries from the front of `b`; `None` if `b` ends first.
pub open spec fn decode_entries(b: Seq<u8>, count: nat) -> Option<Seq<(Seq<u8>, Seq<u8>)>>
    decreases count,
{
    if count == 0 {
        Some(Seq::empty())
    } else if b.len() < 4 {
        None
    } else {
        let kl = read_le(b.subrange(0, 4)) as int;
        if b.len() < 8 + kl {
            None
        } else {
            let vl = read_le(b.subrange(4 + kl, 8 + kl)) as int;
            if b.len() < 8 + kl + vl {
                None
            } else {
                match decode_entries(b.subrange(8 + kl + vl, b.len() as int), (count - 1) as nat) {
                    Some(rest) => Some(
                        seq![(b.subrange(4, 4 + kl), b.subrange(8 + kl, 8 + kl + vl))] + rest,
                    ),
                    None => None,
                }
            }
        }
    }
}

/// The entries a snapshot holds, in the order written.
pub open spec fn snapshot_spec(b: Seq<u8>) -> Result<Seq<(Seq<u8>, Seq<u8>)>, SnapshotError> {
    if b.len() < 8 {
        Err(SnapshotError::Truncated)
    } else if b.subrange(0, 8) != magic() {
        Err(SnapshotError::BadMagic)
    } else if b.len() < 16 {
        Err(SnapshotError::Truncated)
    } else {
        match decode_entries(b.subrange(16, b.len() as int), read_le(b.subrange(8, 16))) {
            Some(es) => Ok(es),
            None => Err(SnapshotError::Truncated),
        }
    }
}

/// The map after inserting entries in order, later ones winning.
pub open spec fn insert_all(m: Map<Seq<u8>, Seq<u8>>, es: Seq<(Seq<u8>, Seq<u8>)>) -> Map<Seq<u8>, Seq<u8>>
    decreases es.len(),
{
    if es.len() == 0 {
        m
    } else {
        insert_all(m.insert(es[0].0, es[0].1), es.skip(1))
    }
}

/// Little-endian bytes read back as the number.
pub proof fn lemma_le_u32(n: u32)
    ensures
        read_le(le_u32(n)) == n,
{
    let b = le_u32(n);
    let s1 = b.skip(1);
    let s2 = s1.skip(1);
    let s3 = s2.skip(1);
    assert(s3.skip(1) =~= Seq::<u8>::empty());
    assert(read_le(s3.skip(1)) == 0);
    assert(s3[0] == b[3] && s2[0] == b[2] && s1[0] == b[1]);
    assert(read_le(s3) == b[3] as nat);
    assert(read_le(s2) == b[2] as nat + 256 * b[3]);
    assert(read_le(s1) == b[1] as nat + 256 * (b[2] as nat + 256 * b[3]));
    assert(((n % 256) as u8) as int + 256 * ((((n / 256) % 256) as u8) as int + 256 * ((((n / 65536) % 256) as u8)
        as int + 256 * (((n / 16777216) % 256) as u8) as int)) == n) by (bit_vector);
}

/// The value of little-endian bytes split in two.
pub proof fn lemma_read_le_concat(a: Seq<u8>, b: Seq<u8>)
    ensures
        read_le(a + b) == read_le(a) + vstd::arithmetic::power::pow(256, a.len()) * read_le(b),
    decreases a.len(),
{
    vstd::arithmetic::power::lemma_pow0(256);
    if a.len() == 0 {
        assert(a + b =~= b);
    } else {
        lemma_read_le_concat(a.skip(1), b);
        assert((a + b).skip(1) =~= a.skip(1) + b);
        vstd::arithmetic::power::lemma_pow_adds(256, 1, (a.len() - 1) as nat);
        vstd::arithmetic::power::lemma_pow1(256);
        let p = vstd::arithmetic::power::pow(256, (a.len() - 1) as nat);
        assert(256 * (read_le(a.skip(1)) + p * read_le(b)) == 256 * read_le(a.skip(1)) + (256 * p) * read_le(b))
            by (nonlinear_arith);
    }
}

/// Little-endian bytes of a `u64` read back as the number.
pub proof fn lemma_le_u64(n: u64)
    ensures
        read_le(le_u64(n)) == n,
{
    let lo = (n % 0x1_0000_0000) as u32;
    let hi = (n / 0x1_0000_0000) as u32;
    lemma_le_u32(lo);
    lemma_le_u32(hi);
    lemma_read_le_concat(le_u32(lo), le_u32(hi));
    vstd::arithmetic::power::lemma_pow_positive(256, 4);
    assert(vstd::arithmetic::power::pow(256, 4) == 0x1_0000_0000) by {
        reveal_with_fuel(vstd::arithmetic::power::pow, 5);
    }
    assert(lo as int + 0x1_0000_0000 * (hi as int) == n as int) by (bit_vector)
        requires
            lo == (n % 0x1_0000_0000) as u32,
            hi == (n / 0x1_0000_0000) as u32,
    ;
}

/// Entries `es` read before those that `o` describes.
pub open spec fn after_entries(
    es: Seq<(Seq<u8>, Seq<u8>)>,
    o: Option<Seq<(Seq<u8>, Seq<u8>)>>,
) -> Option<Seq<(Seq<u8>, Seq<u8>)>> {
    match o {
        Some(r) => Some(es + r),
        None => None,
    }
}

/// One more entry at the end.
pub proof fn lemma_records_push(es: Seq<(Seq<u8>, Seq<u8>)>, e: (Seq<u8>, Seq<u8>))
    ensures
        records(es.push(e)) == records(es) + entry_record(e),
    decreases es.len(),
{
    if es.len() == 0 {
        assert(es.push(e).skip(1) =~= Seq::<(Seq<u8>, Seq<u8>)>::empty());
        assert(es.push(e)[0] == e);
        assert(records(Seq::<(Seq<u8>, Seq<u8>)>::empty()) == Seq::<u8>::empty());
        assert(records(es.push(e)) =~= records(es) + entry_record(e));
    } else {
        assert(es.push(e).skip(1) =~= es.skip(1).push(e));
        lemma_records_push(es.skip(1), e);
        assert(records(es.push(e)) =~= records(es) + entry_record(e));
    }
}

/// One more insert at the end.
pub proof fn lemma_insert_all_push(m: Map<Seq<u8>, Seq<u8>>, es: Seq<(Seq<u8>, Seq<u8>)>, e: (Seq<u8>, Seq<u8>))
    ensures
        insert_all(m, es.push(e)) == insert_all(m, es).insert(e.0, e.1),
    decreases es.len(),
{
    if es.len() == 0 {
        assert(es.push(e).skip(1) =~= Seq::<(Seq<u8>, Seq<u8>)>::empty());
        assert(es.push(e)[0] == e);
        assert(insert_all(m, es) == m);
        assert(insert_all(m.insert(e.0, e.1), Seq::<(Seq<u8>, Seq<u8>)>::empty()) == m.insert(e.0, e.1));
    } else {
        assert(es.push(e).skip(1) =~= es.skip(1).push(e));
        assert(es.push(e)[0] == es[0]);
        lemma_insert_all_push(m.insert(es[0].0, es[0].1), es.skip(1), e);
    }
}

/// Appends the little-endian bytes of `n`.
fn push_u32_le(out: &mut Vec<u8>, n: u32)
    ensures
        final(out)@ == old(out)@ + le_u32(n),
{
    out.push((n % 256) as u8);
    out.push(((n / 256) % 256) as u8);
    out.push(((n / 65536) % 256) as u8);
    out.push(((n / 16777216) % 256) as u8);
    proof {
        assert(out@ =~= old(out)@ + le_u32(n));
    }
}

/// Appends the little-endian bytes of `n`.
fn push_u64_le(out: &mut Vec<u8>, n: u64)
    ensures
        final(out)@ == old(out)@ + le_u64(n),
{
    push_u32_le(out, (n % 0x1_0000_0000) as u32);
    push_u32_le(out, (n / 0x1_0000_0000) as u32);
    proof {
        assert(out@ =~= old(out)@ + le_u64(n));
    }
}

/// The number that the 4 little-endian bytes at `at` denote.
fn read_u32_le(b: &[u8], at: usize) -> (r: u32)
    requires
        at + 4 <= b@.len(),
    ensures
        r == read_le(b@.subrange(at as int, at + 4)),
{
    let ghost s = b@.subrange(at as int, at + 4);
    proof {
        let s1 = s.skip(1);
        let s2 = s1.skip(1);
        let s3 = s2.skip(1);
        assert(s3.skip(1) =~= Seq::<u8>::empty());
        assert(read_le(s3.skip(1)) == 0);
        assert(read_le(s3) == s[3] as nat);
        assert(read_le(s2) == s[2] as nat + 256 * s[3]);
        assert(read_le(s1) == s[1] as nat + 256 * (s[2] as nat + 256 * s[3]));
    }
    (b[at] as u32) + 256 * (b[at + 1] as u32) + 65536 * (b[at + 2] as u32) + 16777216 * (b[at + 3] as u32)
}

/// The number that the 8 little-endian bytes at `at` denote.
fn read_u64_le(b: &[u8], at: usize) -> (r: u64)
    requires
        at + 8 <= b@.len(),
    ensures
        r == read_le(b@.subrange(at as int, at + 8)),
{
    let n = b.len();
    proof {
        assert(at + 8 <= n);
    }
    let lo = read_u32_le(b, at);
    let hi = read_u32_le(b, at + 4);
    proof {
        let s = b@.subrange(at as int, at + 8);
        assert(s =~= b@.subrange(at as int, at + 4) + b@.subrange(at + 4, at + 8));
        lemma_read_le_concat(b@.subrange(at as int, at + 4), b@.subrange(at + 4, at + 8));
        assert(vstd::arithmetic::power::pow(256, 4) == 0x1_0000_0000) by {
            reveal_with_fuel(vstd::arithmetic::power::pow, 5);
        }
    }
    (lo as u64) + 0x1_0000_0000 * (hi as u64)
}

/// Whether `b` starts with the magic.
fn has_magic(b: &[u8]) -> (r: bool)
    requires
        8 <= b@.len(),
    ensures
        r == (b@.subrange(0, 8) == magic()),
{
    let r = b[0] == 0x4b && b[1] == 0x56 && b[2] == 0x44 && b[3] == 0x42 && b[4] == 0x53 && b[5] == 0x4e && b[6]
        == 0x50 && b[7] == 0x31;
    proof {
        if r {
            assert(b@.subrange(0, 8) =~= magic());
        } else {
            if b@.subrange(0, 8) == magic() {
                assert(b@.subrange(0, 8)[0] == b@[0]);
                assert(b@.subrange(0, 8)[7] == b@[7]);
                assert(b@.subrange(0, 8)[1] == b@[1] && b@.subrange(0, 8)[2] == b@[2] && b@.subrange(0, 8)[3] == b@[3]);
                assert(b@.subrange(0, 8)[4] == b@[4] && b@.subrange(0, 8)[5] == b@[5] && b@.subrange(0, 8)[6] == b@[6]);
            }
        }
    }
    r
}

/// Appends the bytes `b` to `out`.
fn push_bytes(out: &mut Vec<u8>, b: &[u8])
    ensures
        final(out)@ == old(out)@ + b@,
{
    out.extend_from_slice(b);
    proof {
        assert(out@ =~= old(out)@ + b@);
    }
}

/// The point-in-time image of a tree, as bytes.
pub struct Snapshot;

impl Snapshot {
    /// The snapshot of `tree`: its entries in key order.
    pub fn encode(tree: &BTree) -> (out: Vec<u8>)
        requires
            tree.wf(),
        ensures
            out@ == snapshot_bytes(tree.entries()),
    {
        proof {
            tree.lemma_entry_sizes();
            tree.lemma_entries();
        }
        let ghost es = tree.entries();
        let pairs = tree.for_each();
        let mut out: Vec<u8> = vec![0x4bu8, 0x56u8, 0x44u8, 0x42u8, 0x53u8, 0x4eu8, 0x50u8, 0x31u8];
        let n = tree.len();
        push_u64_le(&mut out, n as u64);
        let ghost head = out@;
        proof {
            assert(head =~= magic() + le_u64(es.len() as u64));
            assert(es.take(0) =~= Seq::<(Seq<u8>, Seq<u8>)>::empty());
            assert(head + records(es.take(0)) =~= head);
        }
        let mut i: usize = 0;
        while i < pairs.len()
            invariant
                pairs_view(pairs@) == es,
                forall|q: int| 0 <= q < es.len() ==> #[trigger] es[q].0.len() + es[q].1.len() <= u32::MAX,
                head == magic() + le_u64(es.len() as u64),
                i <= es.len(),
                out@ == head + records(es.take(i as int)),
            decreases es.len() - i,
        {
            let k = pairs[i].0.as_slice();
            let v = pairs[i].1.as_slice();
            proof {
                assert(es[i as int] == (k@, v@));
                assert(es.take(i + 1) =~= es.take(i as int).push(es[i as int]));
                lemma_records_push(es.take(i as int), es[i as int]);
            }
            push_u32_le(&mut out, k.len() as u32);
            push_bytes(&mut out, k);
            push_u32_le(&mut out, v.len() as u32);
            push_bytes(&mut out, v);
            proof {
                assert(out@ =~= head + records(es.take(i + 1)));
            }
            i = i + 1;
        }
        proof {
            assert(es.take(es.len() as int) =~= es);
        }
        out
    }

    /// Loads a snapshot into a fresh tree, inserting its entries in order.
    pub fn decode(bytes: &[u8]) -> (r: Result<BTree, SnapshotError>)
        ensures
            match snapshot_spec(bytes@) {
                Ok(es) => if entry_bytes(es) <= u32::MAX {
                    r matches Ok(t) && t.wf() && t@ == insert_all(Map::empty(), es)
                } else {
                    (r matches Ok(t) && t.wf() && t@ == insert_all(Map::empty(), es)) || r matches Err(
                        SnapshotError::TooLarge,
                    )
                },
                Err(e) => r matches Err(e2) && e2 == e,
            },
    {
        if bytes.len() < 8 {
            return Err(SnapshotError::Truncated);
        }
        if !has_magic(bytes) {
            return Err(SnapshotError::BadMagic);
        }
        if bytes.len() < 16 {
            return Err(SnapshotError::Truncated);
        }
        let count = read_u64_le(bytes, 8);
        let len = bytes.len();
        let ghost total = decode_entries(bytes@.subrange(16, len as int), count as nat);
        let ghost mut es: Seq<(Seq<u8>, Seq<u8>)> = Seq::empty();
        let mut tree = BTree::new();
        let mut cursor: usize = 16;
        let mut i: u64 = 0;
        let mut too_large = false;
        proof {
            assert(bytes@.subrange(16, len as int) == bytes@.subrange(cursor as int, len as int));
            match total {
                Some(r) => {
                    assert(es + r =~= r);
                },
                None => {},
            }
        }
        while i < count
            invariant
                len == bytes@.len(),
                snapshot_spec(bytes@) == match total {
                    Some(all) => Ok::<Seq<(Seq<u8>, Seq<u8>)>, SnapshotError>(all),
                    None => Err(SnapshotError::Truncated),
                },
                16 <= cursor <= len,
                i <= count,
                es.len() == i,
                total == after_entries(es, decode_entries(bytes@.subrange(cursor as int, len as int), (count - i) as nat)),
                tree.wf(),
                !too_large ==> tree@ == insert_all(Map::empty(), es),
                !too_large ==> tree.arena_capacity() <= entry_bytes(es),
                too_large ==> entry_bytes(es) > u32::MAX,
                tree@.len() <= i,
                entry_bytes(es) + 8 * i + 16 <= cursor,
            decreases count - i,
        {
            let ghost b = bytes@.subrange(cursor as int, len as int);
            let rem = len - cursor;
            if rem < 8 {
                proof {
                    if b.len() >= 4 {
                        assert(b.subrange(0, 4) =~= bytes@.subrange(cursor as int, cursor + 4));
                    }
                }
                return Err(SnapshotError::Truncated);
            }
            let kl = read_u32_le(bytes, cursor) as usize;
            proof {
                assert(b.subrange(0, 4) =~= bytes@.subrange(cursor as int, cursor + 4));
            }
            if rem - 8 < kl {
                return Err(SnapshotError::Truncated);
            }
            let vl = read_u32_le(bytes, cursor + 4 + kl) as usize;
            proof {
                assert(b.subrange(4 + kl, 8 + kl) =~= bytes@.subrange(cursor + 4 + kl, cursor + 8 + kl));
            }
            if rem - 8 - kl < vl {
                return Err(SnapshotError::Truncated);
            }
            let key = vstd::slice::slice_subrange(bytes, cursor + 4, cursor + 4 + kl);
            let val = vstd::slice::slice_subrange(bytes, cursor + 8 + kl, cursor + 8 + kl + vl);
            proof {
                tree.lemma_entries();
                assert(key@ =~= b.subrange(4, 4 + kl));
                assert(val@ =~= b.subrange(8 + kl, 8 + kl + vl));
                assert(bytes@.subrange(cursor + 8 + kl + vl, len as int) =~= b.subrange(8 + kl + vl, b.len() as int));
                lemma_insert_all_push(Map::empty(), es, (key@, val@));
                match decode_entries(b.subrange(8 + kl + vl, b.len() as int), (count - i - 1) as nat) {
                    Some(rest) => {
                        assert(es + (seq![(key@, val@)] + rest) =~= es.push((key@, val@)) + rest);
                    },
                    None => {},
                }
            }
            proof {
                assert(es.push((key@, val@)).drop_last() =~= es);
            }
            if too_large || !tree.has_room_to_set(key, val) {
                too_large = true;
            } else {
                tree.set(key, val);
            }
            proof {
                es = es.push((key@, val@));
            }
            cursor = cursor + 8 + kl + vl;
            i = i + 1;
        }
        proof {
            assert(decode_entries(bytes@.subrange(cursor as int, len as int), 0) == Some(Seq::<(Seq<u8>, Seq<u8>)>::empty()));
            assert(es + Seq::<(Seq<u8>, Seq<u8>)>::empty() =~= es);
        }
        if too_large {
            return Err(SnapshotError::TooLarge);
        }
        Ok(tree)
    }
}

/// One entry record, followed by anything, reads as that entry, then what
/// follows.
proof fn lemma_decode_one(e: (Seq<u8>, Seq<u8>), after: Seq<u8>, n: nat)
    requires
        e.0.len() <= u32::MAX,
        e.1.len() <= u32::MAX,
    ensures
        decode_entries(entry_record(e) + after, n + 1) == after_entries(seq![e], decode_entries(after, n)),
{
    let k = e.0;
    let v = e.1;
    let b = entry_record(e) + after;
    let kl = k.len() as int;
    let vl = v.len() as int;
    lemma_le_u32(k.len() as u32);
    lemma_le_u32(v.len() as u32);
    assert(b.subrange(0, 4) =~= le_u32(k.len() as u32));
    assert(b.subrange(4 + kl, 8 + kl) =~= le_u32(v.len() as u32));
    assert(b.subrange(4, 4 + kl) =~= k);
    assert(b.subrange(8 + kl, 8 + kl + vl) =~= v);
    assert(b.subrange(8 + kl + vl, b.len() as int) =~= after);
}

/// The entries written one after another read back, whatever follows.
#[verifier::spinoff_prover]
#[verifier::rlimit(30)]
pub proof fn lemma_decode_records(es: Seq<(Seq<u8>, Seq<u8>)>, rest: Seq<u8>)
    requires
        forall|q: int| 0 <= q < es.len() ==> #[trigger] es[q].0.len() <= u32::MAX && es[q].1.len() <= u32::MAX,
    ensures
        decode_entries(records(es) + rest, es.len()) == Some(es),
    decreases es.len(),
{
    if es.len() == 0 {
        assert(es =~= Seq::<(Seq<u8>, Seq<u8>)>::empty());
    } else {
        let tail = es.skip(1);
        assert forall|q: int| 0 <= q < tail.len() implies #[trigger] tail[q].0.len() <= u32::MAX && tail[q].1.len()
            <= u32::MAX by {
            assert(tail[q] == es[q + 1]);
        }
        lemma_decode_records(tail, rest);
        assert(records(es) + rest =~= entry_record(es[0]) + (records(tail) + rest));
        lemma_decode_one(es[0], records(tail) + rest, tail.len());
        assert(seq![es[0]] + tail =~= es);
    }
}

/// A snapshot of entries reads back as those entries.
pub proof fn lemma_snapshot_roundtrip(es: Seq<(Seq<u8>, Seq<u8>)>)
    requires
        es.len() <= u64::MAX,
        forall|q: int| 0 <= q < es.len() ==> #[trigger] es[q].0.len() <= u32::MAX && es[q].1.len() <= u32::MAX,
    ensures
        snapshot_spec(snapshot_bytes(es)) == Ok::<Seq<(Seq<u8>, Seq<u8>)>, SnapshotError>(es),
{
    let b = snapshot_bytes(es);
    lemma_le_u64(es.len() as u64);
    assert(b.subrange(0, 8) =~= magic());
    assert(b.subrange(8, 16) =~= le_u64(es.len() as u64));
    assert(b.subrange(16, b.len() as int) =~= records(es) + Seq::<u8>::empty());
    lemma_decode_records(es, Seq::empty());
}

/// Inserting sorted entries in order over `m` gives `m` overridden by
/// their map.
pub proof fn lemma_insert_all_sorted(m: Map<Seq<u8>, Seq<u8>>, es: Seq<(Seq<u8>, Seq<u8>)>)
    requires
        sorted_c(es),
    ensures
        insert_all(m, es) == m.union_prefer_right(entries_map(es)),
    decreases es.len(),
{
    if es.len() == 0 {
        assert(entries_map(es) =~= Map::<Seq<u8>, Seq<u8>>::empty());
        assert(m.union_prefer_right(entries_map(es)) =~= m);
    } else {
        let tail = es.skip(1);
        let (k0, v0) = es[0];
        assert(sorted_c(tail)) by {
            assert forall|i: int, j: int| 0 <= i < j < tail.len() implies crate::bytes_order::lex_lt(
                #[trigger] tail[i].0,
                #[trigger] tail[j].0,
            ) by {
                assert(tail[i] == es[i + 1] && tail[j] == es[j + 1]);
            }
        }
        lemma_insert_all_sorted(m.insert(k0, v0), tail);
        crate::btree::lemma_entries_map(es, 0);
        assert forall|k: Seq<u8>| crate::btree_model::has_key_c(es, k) <==> (k == k0 || crate::btree_model::has_key_c(
            tail,
            k,
        )) by {
            if crate::btree_model::has_key_c(tail, k) {
                let x = choose|x: int| 0 <= x < tail.len() && #[trigger] tail[x].0 == k;
                assert(es[x + 1].0 == k);
            }
            if crate::btree_model::has_key_c(es, k) && k != k0 {
                let x = choose|x: int| 0 <= x < es.len() && #[trigger] es[x].0 == k;
                assert(x != 0);
                assert(tail[x - 1].0 == k);
            }
            if k == k0 {
                assert(es[0].0 == k);
            }
        }
        let lhs = m.insert(k0, v0).union_prefer_right(entries_map(tail));
        let rhs = m.union_prefer_right(entries_map(es));
        assert forall|k: Seq<u8>| #[trigger] lhs.contains_key(k) <==> rhs.contains_key(k) by {
            if crate::btree_model::has_key_c(tail, k) {
                let x = choose|x: int| 0 <= x < tail.len() && #[trigger] tail[x].0 == k;
                assert(es[x + 1].0 == k);
            }
            if crate::btree_model::has_key_c(es, k) && k != k0 {
                let x = choose|x: int| 0 <= x < es.len() && #[trigger] es[x].0 == k;
                assert(x != 0);
                assert(tail[x - 1].0 == k);
            }
        }
        assert forall|k: Seq<u8>| #[trigger] lhs.contains_key(k) implies lhs[k] == rhs[k] by {
            if crate::btree_model::has_key_c(tail, k) {
                let x = crate::btree::key_index(tail, k);
                crate::btree::lemma_entries_map(tail, x);
                crate::btree::lemma_entries_map(es, x + 1);
                assert(es[x + 1] == tail[x]);
                if k == k0 {
                    crate::btree_model::lemma_sorted_unique(es, 0, x + 1);
                }
            }
        }
        assert(lhs =~= rhs);
    }
}

/// What `Snapshot::encode` writes of a tree, `Snapshot::decode` reads back
/// as a tree with the same keys and values: the entries read back are
/// those of the tree, small enough for the arena, and insert to its map.
pub proof fn lemma_tree_roundtrip(t: BTree)
    requires
        t.wf(),
    ensures
        snapshot_spec(snapshot_bytes(t.entries())) == Ok::<Seq<(Seq<u8>, Seq<u8>)>, SnapshotError>(t.entries()),
        entry_bytes(t.entries()) <= u32::MAX,
        insert_all(Map::empty(), t.entries()) == t@,
{
    t.lemma_live_bytes();
    t.lemma_entry_sizes();
    t.lemma_entries();
    lemma_snapshot_roundtrip(t.entries());
    lemma_insert_all_sorted(Map::empty(), t.entries());
    assert(Map::<Seq<u8>, Seq<u8>>::empty().union_prefer_right(entries_map(t.entries())) =~= entries_map(t.entries()));
    assert(t@ == entries_map(t.entries()));
}

} // verus!
