//! Write-ahead log records: every mutating command is logged RESP-encoded,
//! exactly like a Redis AOF, before it is applied to the tree. Replaying a
//! log reads the commands back, stopping at a partial record.
use crate::btree::BTree;
use crate::protocol::{
    array_of_bulk_bytes, as_command, bulk_bytes, bulks_bytes, command_of, parse, parse_at, slices_view, Frame,
    Parsed, RespWriter, ParseOutcome,
};
use crate::resp_laws::{bulk_frames, lemma_command_roundtrip};
use crate::snapshot::{insert_all, lemma_tree_roundtrip, snapshot_bytes, snapshot_spec};
use vstd::prelude::*;

verus! {

/// A logged write.
#[derive(Debug, Clone, PartialEq, Eq)]
pub enum WalOp {
    Put(Vec<u8>, Vec<u8>),
    Del(Vec<u8>),
}

/// The bytes of a logged write.
pub enum LoggedOp {
    Put(Seq<u8>, Seq<u8>),
    Del(Seq<u8>),
}

pub open spec fn op_view(op: WalOp) -> LoggedOp {
    match op {
        WalOp::Put(k, v) => LoggedOp::Put(k@, v@),
        WalOp::Del(k) => LoggedOp::Del(k@),
    }
}

pub open spec fn ops_view(ops: Seq<WalOp>) -> Seq<LoggedOp> {
    ops.map_values(|op: WalOp| op_view(op))
}

/// `SET`.
pub open spec fn set_name() -> Seq<u8> {
    seq![0x53u8, 0x45u8, 0x54u8]
}

/// `DEL`.
pub open spec fn del_name() -> Seq<u8> {
    seq![0x44u8, 0x45u8, 0x4cu8]
}

/// ASCII lower case of a byte.
pub open spec fn ascii_lower(b: u8) -> u8 {
    if 0x41 <= b <= 0x5a {
        (b + 0x20) as u8
    } else {
        b
    }
}

/// Two bytes are equal up to ASCII case exactly when they are equal or
/// are the upper- and lower-case forms of one letter.
pub proof fn lemma_byte_case(a: u8, b: u8)
    ensures
        same_ignoring_case(seq![a], seq![b]) <==> (a == b || (0x41 <= a <= 0x5a && b == a + 0x20) || (0x41 <= b
            <= 0x5a && a == b + 0x20)),
{
    assert(seq![a][0] == a && seq![b][0] == b);
}

/// Equal but for ASCII case.
pub open spec fn same_ignoring_case(a: Seq<u8>, b: Seq<u8>) -> bool {
    a.len() == b.len() && forall|i: int| 0 <= i < a.len() ==> ascii_lower(#[trigger] a[i]) == ascii_lower(b[i])
}

/// The record of a logged write: the RESP command that performs it.
pub open spec fn record_bytes(op: LoggedOp) -> Seq<u8> {
    match op {
        LoggedOp::Put(k, v) => array_of_bulk_bytes(seq![set_name(), k, v]),
        LoggedOp::Del(k) => array_of_bulk_bytes(seq![del_name(), k]),
    }
}

/// The records of writes, one after another.
pub open spec fn log_bytes(ops: Seq<LoggedOp>) -> Seq<u8>
    decreases ops.len(),
{
    if ops.len() == 0 {
        Seq::empty()
    } else {
        record_bytes(ops[0]) + log_bytes(ops.skip(1))
    }
}

/// The write that a command's arguments describe: `SET key value` or
/// `DEL key`, the name in any case; none for any other command.
pub open spec fn op_of_args(args: Seq<Seq<u8>>) -> Seq<LoggedOp> {
    if args.len() == 3 && same_ignoring_case(args[0], set_name()) {
        seq![LoggedOp::Put(args[1], args[2])]
    } else if args.len() == 2 && same_ignoring_case(args[0], del_name()) {
        seq![LoggedOp::Del(args[1])]
    } else {
        Seq::empty()
    }
}

/// The writes found by replaying the log `buf`: commands parsed one after
/// another, until the end, a partial record, a protocol error, or a frame
/// that is not a command.
pub open spec fn replay_spec(buf: Seq<u8>) -> Seq<LoggedOp>
    decreases buf.len(),
{
    if buf.len() == 0 {
        Seq::empty()
    } else {
        match parse_at(buf, 0) {
            Parsed::Complete(f, c) => if 0 < c <= buf.len() {
                match command_of(f) {
                    Ok(args) => op_of_args(args) + replay_spec(buf.subrange(c, buf.len() as int)),
                    Err(_) => Seq::empty(),
                }
            } else {
                Seq::empty()
            },
            _ => Seq::empty(),
        }
    }
}

/// Equal but for ASCII case.
pub fn eq_ignore_ascii_case(a: &[u8], b: &[u8]) -> (r: bool)
    ensures
        r == same_ignoring_case(a@, b@),
{
    if a.len() != b.len() {
        return false;
    }
    let mut i: usize = 0;
    while i < a.len()
        invariant
            a@.len() == b@.len(),
            i <= a@.len(),
            forall|j: int| 0 <= j < i ==> ascii_lower(#[trigger] a@[j]) == ascii_lower(b@[j]),
        decreases a@.len() - i,
    {
        let x = a[i];
        let y = b[i];
        let lx = if 0x41 <= x && x <= 0x5a {
            x + 0x20
        } else {
            x
        };
        let ly = if 0x41 <= y && y <= 0x5a {
            y + 0x20
        } else {
            y
        };
        if lx != ly {
            return false;
        }
        i = i + 1;
    }
    true
}

/// `SET`, as bytes.
fn set_name_bytes() -> (v: Vec<u8>)
    ensures
        v@ == set_name(),
{
    let v = vec![0x53u8, 0x45u8, 0x54u8];
    proof {
        assert(v@ =~= set_name());
    }
    v
}

/// `DEL`, as bytes.
fn del_name_bytes() -> (v: Vec<u8>)
    ensures
        v@ == del_name(),
{
    let v = vec![0x44u8, 0x45u8, 0x4cu8];
    proof {
        assert(v@ =~= del_name());
    }
    v
}

/// The record that logs `SET key value`.
pub fn encode_set(key: &[u8], value: &[u8]) -> (r: Vec<u8>)
    ensures
        r@ == record_bytes(LoggedOp::Put(key@, value@)),
{
    let name = set_name_bytes();
    let mut buf: Vec<u8> = Vec::new();
    RespWriter::array_header(&mut buf, 3);
    RespWriter::bulk(&mut buf, name.as_slice());
    RespWriter::bulk(&mut buf, key);
    RespWriter::bulk(&mut buf, value);
    proof {
        let items = seq![set_name(), key@, value@];
        let i2 = seq![set_name(), key@];
        let i1 = seq![set_name()];
        assert(items.drop_last() =~= i2);
        assert(i2.drop_last() =~= i1);
        assert(i1.drop_last() =~= Seq::<Seq<u8>>::empty());
        assert(bulks_bytes(i1) == bulks_bytes(Seq::<Seq<u8>>::empty()) + bulk_bytes(set_name()));
        assert(bulks_bytes(i2) == bulks_bytes(i1) + bulk_bytes(key@));
        assert(bulks_bytes(items) == bulks_bytes(i2) + bulk_bytes(value@));
        assert(buf@ =~= array_of_bulk_bytes(items));
    }
    buf
}

/// The record that logs `DEL key`.
pub fn encode_del(key: &[u8]) -> (r: Vec<u8>)
    ensures
        r@ == record_bytes(LoggedOp::Del(key@)),
{
    let name = del_name_bytes();
    let mut buf: Vec<u8> = Vec::new();
    RespWriter::array_header(&mut buf, 2);
    RespWriter::bulk(&mut buf, name.as_slice());
    RespWriter::bulk(&mut buf, key);
    proof {
        let items = seq![del_name(), key@];
        let i1 = seq![del_name()];
        assert(items.drop_last() =~= i1);
        assert(i1.drop_last() =~= Seq::<Seq<u8>>::empty());
        assert(bulks_bytes(i1) == bulks_bytes(Seq::<Seq<u8>>::empty()) + bulk_bytes(del_name()));
        assert(bulks_bytes(items) == bulks_bytes(i1) + bulk_bytes(key@));
        assert(buf@ =~= array_of_bulk_bytes(items));
    }
    buf
}

/// Parses every command of the log `contents`, in order, up to the first
/// partial or malformed record.
pub fn replay_bytes(contents: &[u8]) -> (ops: Vec<WalOp>)
    ensures
        ops_view(ops@) == replay_spec(contents@),
{
    let ghost buf = contents@;
    let mut ops: Vec<WalOp> = Vec::new();
    let mut cursor: usize = 0;
    proof {
        assert(buf.subrange(0, buf.len() as int) =~= buf);
        assert(ops_view(ops@) + replay_spec(buf) =~= replay_spec(buf));
    }
    while cursor < contents.len()
        invariant
            buf == contents@,
            cursor <= buf.len(),
            replay_spec(buf) == ops_view(ops@) + replay_spec(buf.subrange(cursor as int, buf.len() as int)),
        ensures
            replay_spec(buf) == ops_view(ops@),
        decreases buf.len() - cursor,
    {
        let rest = vstd::slice::slice_subrange(contents, cursor, contents.len());
        let ghost rs = rest@;
        let ghost before = ops@;
        match parse(rest) {
            Ok(ParseOutcome::Complete { value, consumed }) => {
                let cmd = match as_command(&value) {
                    Ok(c) => c,
                    Err(_) => {
                        proof {
                            assert(replay_spec(rs) =~= Seq::<LoggedOp>::empty());
                            assert(ops_view(ops@) + Seq::<LoggedOp>::empty() =~= ops_view(ops@));
                        }
                        break;
                    },
                };
                let ghost args = slices_view(cmd@);
                let is_set = cmd.len() == 3 && eq_ignore_ascii_case(cmd[0], set_name_bytes().as_slice());
                let is_del = !is_set && cmd.len() == 2 && eq_ignore_ascii_case(cmd[0], del_name_bytes().as_slice());
                if is_set {
                    ops.push(WalOp::Put(vstd::slice::slice_to_vec(cmd[1]), vstd::slice::slice_to_vec(cmd[2])));
                } else if is_del {
                    ops.push(WalOp::Del(vstd::slice::slice_to_vec(cmd[1])));
                }
                proof {
                    let tail = buf.subrange(cursor + consumed, buf.len() as int);
                    assert(rs.subrange(consumed as int, rs.len() as int) =~= tail);
                    assert(replay_spec(rs) == op_of_args(args) + replay_spec(tail));
                    if is_set {
                        assert(args[0] == cmd@[0]@ && args[1] == cmd@[1]@ && args[2] == cmd@[2]@);
                        assert(ops_view(ops@) =~= ops_view(before) + op_of_args(args));
                    } else if is_del {
                        assert(args[0] == cmd@[0]@ && args[1] == cmd@[1]@);
                        assert(ops_view(ops@) =~= ops_view(before) + op_of_args(args));
                    } else {
                        assert(op_of_args(args) =~= Seq::<LoggedOp>::empty());
                        assert(ops_view(ops@) =~= ops_view(before) + op_of_args(args));
                    }
                    assert(ops_view(before) + (op_of_args(args) + replay_spec(tail)) =~= ops_view(ops@)
                        + replay_spec(tail));
                }
                cursor = cursor + consumed;
            },
            _ => {
                proof {
                    assert(replay_spec(rs) =~= Seq::<LoggedOp>::empty());
                    assert(ops_view(ops@) + Seq::<LoggedOp>::empty() =~= ops_view(ops@));
                }
                break;
            },
        }
    }
    proof {
        if cursor == buf.len() {
            assert(buf.subrange(cursor as int, buf.len() as int) =~= Seq::<u8>::empty());
            assert(ops_view(ops@) + Seq::<LoggedOp>::empty() =~= ops_view(ops@));
        }
    }
    ops
}

/// The sizes a record can carry.
pub open spec fn op_fits(op: LoggedOp) -> bool {
    match op {
        LoggedOp::Put(k, v) => k.len() <= i64::MAX && v.len() <= i64::MAX,
        LoggedOp::Del(k) => k.len() <= i64::MAX,
    }
}

/// A record followed by anything replays as its write, then the rest.
pub proof fn lemma_replay_record(op: LoggedOp, rest: Seq<u8>)
    requires
        op_fits(op),
    ensures
        replay_spec(record_bytes(op) + rest) == seq![op] + replay_spec(rest),
{
    let items = match op {
        LoggedOp::Put(k, v) => seq![set_name(), k, v],
        LoggedOp::Del(k) => seq![del_name(), k],
    };
    assert forall|i: int| 0 <= i < items.len() implies #[trigger] items[i].len() <= i64::MAX by {}
    lemma_command_roundtrip(items, rest);
    let buf = record_bytes(op) + rest;
    let c = record_bytes(op).len() as int;
    assert(buf.subrange(c, buf.len() as int) =~= rest);
    assert(op_of_args(items) =~= seq![op]);
}

/// Replaying the records of writes, written one after another, gives
/// back those writes.
pub proof fn lemma_replay_log(ops: Seq<LoggedOp>)
    requires
        forall|i: int| 0 <= i < ops.len() ==> op_fits(#[trigger] ops[i]),
    ensures
        replay_spec(log_bytes(ops)) == ops,
    decreases ops.len(),
{
    if ops.len() > 0 {
        let rest = ops.skip(1);
        assert forall|i: int| 0 <= i < rest.len() implies op_fits(#[trigger] rest[i]) by {
            assert(rest[i] == ops[i + 1]);
        }
        lemma_replay_log(rest);
        lemma_replay_record(ops[0], log_bytes(rest));
        assert(seq![ops[0]] + rest =~= ops);
    } else {
        assert(log_bytes(ops) =~= Seq::<u8>::empty());
    }
}

/// The records of writes, followed by anything, replay as those writes,
/// then as what follows.
pub proof fn lemma_replay_log_then(ops: Seq<LoggedOp>, tail: Seq<u8>)
    requires
        forall|i: int| 0 <= i < ops.len() ==> op_fits(#[trigger] ops[i]),
    ensures
        replay_spec(log_bytes(ops) + tail) == ops + replay_spec(tail),
    decreases ops.len(),
{
    if ops.len() > 0 {
        let rest = ops.skip(1);
        assert forall|i: int| 0 <= i < rest.len() implies op_fits(#[trigger] rest[i]) by {
            assert(rest[i] == ops[i + 1]);
        }
        lemma_replay_log_then(rest, tail);
        assert(log_bytes(ops) + tail =~= record_bytes(ops[0]) + (log_bytes(rest) + tail));
        lemma_replay_record(ops[0], log_bytes(rest) + tail);
        assert(seq![ops[0]] + (rest + replay_spec(tail)) =~= ops + replay_spec(tail));
    } else {
        assert(log_bytes(ops) + tail =~= tail);
        assert(ops + replay_spec(tail) =~= replay_spec(tail));
    }
}

/// A log whose last record was torn, so that its tail is not yet a whole
/// frame, replays the complete records before it.
pub proof fn lemma_replay_torn(ops: Seq<LoggedOp>, tail: Seq<u8>)
    requires
        forall|i: int| 0 <= i < ops.len() ==> op_fits(#[trigger] ops[i]),
        parse_at(tail, 0) is Incomplete,
    ensures
        replay_spec(log_bytes(ops) + tail) == ops,
{
    lemma_replay_log_then(ops, tail);
    assert(ops + Seq::<LoggedOp>::empty() =~= ops);
}

/// The map after one write.
pub open spec fn apply_one(m: Map<Seq<u8>, Seq<u8>>, op: LoggedOp) -> Map<Seq<u8>, Seq<u8>> {
    match op {
        LoggedOp::Put(k, v) => m.insert(k, v),
        LoggedOp::Del(k) => m.remove(k),
    }
}

/// The map after writes, in order.
pub open spec fn apply_all(m: Map<Seq<u8>, Seq<u8>>, ops: Seq<LoggedOp>) -> Map<Seq<u8>, Seq<u8>>
    decreases ops.len(),
{
    if ops.len() == 0 {
        m
    } else {
        apply_all(apply_one(m, ops[0]), ops.skip(1))
    }
}

/// One more write at the end.
pub proof fn lemma_apply_push(m: Map<Seq<u8>, Seq<u8>>, ops: Seq<LoggedOp>, op: LoggedOp)
    ensures
        apply_all(m, ops.push(op)) == apply_one(apply_all(m, ops), op),
    decreases ops.len(),
{
    if ops.len() == 0 {
        assert(ops.push(op).skip(1) =~= Seq::<LoggedOp>::empty());
        assert(ops.push(op)[0] == op);
        assert(apply_all(m, ops) == m);
        assert(apply_all(apply_one(m, op), Seq::<LoggedOp>::empty()) == apply_one(m, op));
    } else {
        assert(ops.push(op).skip(1) =~= ops.skip(1).push(op));
        assert(ops.push(op)[0] == ops[0]);
        lemma_apply_push(apply_one(m, ops[0]), ops.skip(1), op);
    }
}

/// The key a write is about.
pub open spec fn op_key(op: LoggedOp) -> Seq<u8> {
    match op {
        LoggedOp::Put(k, _) => k,
        LoggedOp::Del(k) => k,
    }
}

/// After writes ending in `SET k v`, `k` holds `v` and every other key is
/// as the earlier writes left it, whether or not `k` was present before.
pub proof fn lemma_apply_put_last(m: Map<Seq<u8>, Seq<u8>>, ops: Seq<LoggedOp>, k: Seq<u8>, v: Seq<u8>)
    ensures
        apply_all(m, ops.push(LoggedOp::Put(k, v))) == apply_all(m, ops).insert(k, v),
        apply_all(m, ops.push(LoggedOp::Put(k, v))).contains_key(k),
        apply_all(m, ops.push(LoggedOp::Put(k, v)))[k] == v,
{
    lemma_apply_push(m, ops, LoggedOp::Put(k, v));
}

/// After writes ending in `DEL k`, `k` is absent and every other key is as
/// the earlier writes left it.
pub proof fn lemma_apply_del_last(m: Map<Seq<u8>, Seq<u8>>, ops: Seq<LoggedOp>, k: Seq<u8>)
    ensures
        apply_all(m, ops.push(LoggedOp::Del(k))) == apply_all(m, ops).remove(k),
        !apply_all(m, ops.push(LoggedOp::Del(k))).contains_key(k),
{
    lemma_apply_push(m, ops, LoggedOp::Del(k));
}

/// A key that no write is about keeps its value, or stays absent.
pub proof fn lemma_apply_untouched(m: Map<Seq<u8>, Seq<u8>>, ops: Seq<LoggedOp>, k: Seq<u8>)
    requires
        forall|i: int| 0 <= i < ops.len() ==> op_key(#[trigger] ops[i]) != k,
    ensures
        apply_all(m, ops).contains_key(k) == m.contains_key(k),
        m.contains_key(k) ==> apply_all(m, ops)[k] == m[k],
    decreases ops.len(),
{
    if ops.len() > 0 {
        let p = ops.drop_last();
        assert forall|i: int| 0 <= i < p.len() implies op_key(#[trigger] p[i]) != k by {
            assert(p[i] == ops[i]);
        }
        lemma_apply_untouched(m, p, k);
        let last = ops.last();
        assert(op_key(ops[ops.len() - 1]) != k);
        assert(p.push(last) =~= ops);
        lemma_apply_push(m, p, last);
    }
}

/// Applying the writes `a`, then the writes `b`, is applying `a + b`.
pub proof fn lemma_apply_concat(m: Map<Seq<u8>, Seq<u8>>, a: Seq<LoggedOp>, b: Seq<LoggedOp>)
    ensures
        apply_all(apply_all(m, a), b) == apply_all(m, a + b),
    decreases b.len(),
{
    if b.len() == 0 {
        assert(a + b =~= a);
    } else {
        let p = b.drop_last();
        lemma_apply_concat(m, a, p);
        lemma_apply_push(apply_all(m, a), p, b.last());
        assert(p.push(b.last()) =~= b);
        assert((a + p).push(b.last()) =~= a + b);
        lemma_apply_push(m, a + p, b.last());
    }
}

/// Whether the tree has room for the write: 32-bit arena offsets, and a
/// count that fits.
pub open spec fn op_room(t: BTree, op: LoggedOp) -> bool {
    match op {
        LoggedOp::Put(k, v) => t.arena_capacity() + k.len() + v.len() <= u32::MAX && t@.len() < usize::MAX,
        LoggedOp::Del(_) => t.arena_capacity() + t.arena_live() <= u32::MAX,
    }
}

/// Applies the writes `ops` to `tree` in order. Returns how many were
/// applied: all of them, or those before the first for which the tree had
/// no room.
pub fn apply_ops(tree: &mut BTree, ops: &[WalOp]) -> (n: usize)
    requires
        old(tree).wf(),
    ensures
        final(tree).wf(),
        n <= ops@.len(),
        final(tree)@ == apply_all(old(tree)@, ops_view(ops@).take(n as int)),
        n < ops@.len() ==> !op_room(*final(tree), op_view(ops@[n as int])),
{
    let ghost m0 = tree@;
    let mut i: usize = 0;
    proof {
        assert(ops_view(ops@).take(0) =~= Seq::<LoggedOp>::empty());
    }
    while i < ops.len()
        invariant
            tree.wf(),
            m0 == old(tree)@,
            i <= ops@.len(),
            tree@ == apply_all(m0, ops_view(ops@).take(i as int)),
        decreases ops@.len() - i,
    {
        proof {
            assert(ops_view(ops@).take(i + 1) =~= ops_view(ops@).take(i as int).push(op_view(ops@[i as int])));
            lemma_apply_push(m0, ops_view(ops@).take(i as int), op_view(ops@[i as int]));
        }
        match &ops[i] {
            WalOp::Put(k, v) => {
                let n = tree.len();
                if !tree.has_room_to_set(k.as_slice(), v.as_slice()) || n == usize::MAX {
                    return i;
                }
                tree.set(k.as_slice(), v.as_slice());
            },
            WalOp::Del(k) => {
                if !tree.has_room_to_delete() {
                    return i;
                }
                tree.del(k.as_slice());
            },
        }
        i = i + 1;
    }
    i
}

/// Recovery: the snapshot of a tree, read back, with the log of the writes
/// made since replayed over it, gives the tree's map after those writes.
pub proof fn lemma_recovery(t: BTree, ops: Seq<LoggedOp>)
    requires
        t.wf(),
        forall|i: int| 0 <= i < ops.len() ==> op_fits(#[trigger] ops[i]),
    ensures
        snapshot_spec(snapshot_bytes(t.entries())) matches Ok(es) && apply_all(
            insert_all(Map::empty(), es),
            replay_spec(log_bytes(ops)),
        ) == apply_all(t@, ops),
{
    lemma_tree_roundtrip(t);
    lemma_replay_log(ops);
}

} // verus!
