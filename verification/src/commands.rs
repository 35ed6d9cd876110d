//! Client commands: what each asks of the store, and the RESP reply for
//! what the store did.
use crate::protocol::{
    array_of_bulk_bytes, bulk_bytes, concat, crlf_at, error_bytes, integer_bytes, null_bulk_bytes, parse_at,
    simple_bytes, vecs_view, Frame, Parsed, RespWriter,
};
use crate::resp_laws::{
    bulk_frames, lemma_bulk_roundtrip, lemma_command_roundtrip, lemma_error_roundtrip, lemma_integer_roundtrip,
    lemma_null_bulk_roundtrip, lemma_simple_roundtrip, no_crlf,
};
use crate::wal::{ascii_lower, eq_ignore_ascii_case, same_ignoring_case};
use vstd::prelude::*;
use vstd::string::StringSliceAdditionalSpecFns;
use vstd::utf8::{decode_utf8, encode_utf8, valid_utf8};

verus! {

/// What a client command asks for.
pub enum Request<'a> {
    /// Nothing of the store: the reply to send.
    Reply(Vec<u8>),
    /// Store `value` under `key`.
    Put(&'a [u8], &'a [u8]),
    /// The value under a key.
    Get(&'a [u8]),
    /// Remove a key.
    Del(&'a [u8]),
    /// The keys matching a glob pattern.
    Keys(&'a [u8]),
    /// The number of keys.
    DbSize,
}

/// The content of a request.
pub enum Action {
    Reply(Seq<u8>),
    Put(Seq<u8>, Seq<u8>),
    Get(Seq<u8>),
    Del(Seq<u8>),
    Keys(Seq<u8>),
    DbSize,
}

pub open spec fn request_view(r: Request) -> Action {
    match r {
        Request::Reply(b) => Action::Reply(b@),
        Request::Put(k, v) => Action::Put(k@, v@),
        Request::Get(k) => Action::Get(k@),
        Request::Del(k) => Action::Del(k@),
        Request::Keys(p) => Action::Keys(p@),
        Request::DbSize => Action::DbSize,
    }
}

/// The text of bytes, each invalid UTF-8 sequence replaced by U+FFFD.
pub uninterp spec fn utf8_lossy(b: Seq<u8>) -> Seq<char>;

/// `String::from_utf8_lossy`, owned: the text of `b`, with U+FFFD in place
/// of each invalid sequence; valid UTF-8 comes out as it is.
#[verifier::external_body]
pub(crate) fn from_utf8_lossy(b: &[u8]) -> (s: String)
    ensures
        s@ == utf8_lossy(b@),
        valid_utf8(b@) ==> s@ == decode_utf8(b@),
{
    String::from_utf8_lossy(b).into_owned()
}

/// The reply to a command whose name reads as the text `t`.
pub open spec fn unknown_text_reply(t: Seq<char>) -> Seq<u8> {
    error_bytes(encode_utf8("ERR unknown command '"@ + t + "'"@))
}

/// The reply to a command with an unknown name: its text, invalid UTF-8
/// replaced.
pub open spec fn unknown_reply(name: Seq<u8>) -> Seq<u8> {
    unknown_text_reply(utf8_lossy(name))
}

/// What the command with arguments `cmd` asks for: the name is matched
/// without regard to ASCII case; a wrong number of arguments, an empty or
/// an unknown command get an error reply.
pub open spec fn action_of(cmd: Seq<Seq<u8>>) -> Action {
    if cmd.len() == 0 {
        Action::Reply(error_bytes("ERR empty command".spec_bytes()))
    } else if same_ignoring_case(cmd[0], "PING".spec_bytes()) {
        if cmd.len() >= 2 {
            Action::Reply(bulk_bytes(cmd[1]))
        } else {
            Action::Reply(simple_bytes("PONG".spec_bytes()))
        }
    } else if same_ignoring_case(cmd[0], "SET".spec_bytes()) {
        if cmd.len() != 3 {
            Action::Reply(error_bytes("ERR wrong number of arguments for 'SET'".spec_bytes()))
        } else {
            Action::Put(cmd[1], cmd[2])
        }
    } else if same_ignoring_case(cmd[0], "GET".spec_bytes()) {
        if cmd.len() != 2 {
            Action::Reply(error_bytes("ERR wrong number of arguments for 'GET'".spec_bytes()))
        } else {
            Action::Get(cmd[1])
        }
    } else if same_ignoring_case(cmd[0], "DEL".spec_bytes()) {
        if cmd.len() != 2 {
            Action::Reply(error_bytes("ERR wrong number of arguments for 'DEL'".spec_bytes()))
        } else {
            Action::Del(cmd[1])
        }
    } else if same_ignoring_case(cmd[0], "KEYS".spec_bytes()) {
        if cmd.len() != 2 {
            Action::Reply(error_bytes("ERR wrong number of arguments for 'KEYS'".spec_bytes()))
        } else {
            Action::Keys(cmd[1])
        }
    } else if same_ignoring_case(cmd[0], "DBSIZE".spec_bytes()) {
        Action::DbSize
    } else {
        Action::Reply(unknown_reply(cmd[0]))
    }
}

/// The bytes of a list of byte slices.
pub open spec fn args_view(cmd: Seq<&[u8]>) -> Seq<Seq<u8>> {
    cmd.map_values(|a: &[u8]| a@)
}

/// An error reply with a fixed text.
fn error_reply(msg: &str) -> (out: Vec<u8>)
    ensures
        out@ == error_bytes(msg.spec_bytes()),
{
    let mut out: Vec<u8> = Vec::new();
    RespWriter::error(&mut out, msg);
    proof {
        assert(out@ =~= error_bytes(msg.spec_bytes()));
    }
    out
}

/// What the command `cmd` (its name and arguments) asks for.
pub fn request_of<'a>(cmd: &[&'a [u8]]) -> (r: Request<'a>)
    ensures
        request_view(r) == action_of(args_view(cmd@)),
{
    let ghost args = args_view(cmd@);
    if cmd.len() == 0 {
        return Request::Reply(error_reply("ERR empty command"));
    }
    let name = cmd[0];
    proof {
        assert(args[0] == name@);
    }
    if eq_ignore_ascii_case(name, "PING".as_bytes()) {
        let mut out: Vec<u8> = Vec::new();
        if cmd.len() >= 2 {
            RespWriter::bulk(&mut out, cmd[1]);
            proof {
                assert(args[1] == cmd@[1]@);
                assert(out@ =~= bulk_bytes(args[1]));
            }
        } else {
            RespWriter::simple(&mut out, "PONG");
            proof {
                assert(out@ =~= simple_bytes("PONG".spec_bytes()));
            }
        }
        return Request::Reply(out);
    }
    if eq_ignore_ascii_case(name, "SET".as_bytes()) {
        if cmd.len() != 3 {
            return Request::Reply(error_reply("ERR wrong number of arguments for 'SET'"));
        }
        proof {
            assert(args[1] == cmd@[1]@ && args[2] == cmd@[2]@);
        }
        return Request::Put(cmd[1], cmd[2]);
    }
    if eq_ignore_ascii_case(name, "GET".as_bytes()) {
        if cmd.len() != 2 {
            return Request::Reply(error_reply("ERR wrong number of arguments for 'GET'"));
        }
        proof {
            assert(args[1] == cmd@[1]@);
        }
        return Request::Get(cmd[1]);
    }
    if eq_ignore_ascii_case(name, "DEL".as_bytes()) {
        if cmd.len() != 2 {
            return Request::Reply(error_reply("ERR wrong number of arguments for 'DEL'"));
        }
        proof {
            assert(args[1] == cmd@[1]@);
        }
        return Request::Del(cmd[1]);
    }
    if eq_ignore_ascii_case(name, "KEYS".as_bytes()) {
        if cmd.len() != 2 {
            return Request::Reply(error_reply("ERR wrong number of arguments for 'KEYS'"));
        }
        proof {
            assert(args[1] == cmd@[1]@);
        }
        return Request::Keys(cmd[1]);
    }
    if eq_ignore_ascii_case(name, "DBSIZE".as_bytes()) {
        return Request::DbSize;
    }
    let text = from_utf8_lossy(name);
    Request::Reply(unknown_command_reply(text.as_str()))
}

/// The error reply to a command whose name reads as `text`.
pub fn unknown_command_reply(text: &str) -> (out: Vec<u8>)
    ensures
        out@ == unknown_text_reply(text@),
{
    let a = concat("ERR unknown command '", text);
    let msg = concat(a.as_str(), "'");
    error_reply(msg.as_str())
}

/// The name under which an access is counted: the key of a `SET`, `GET` or
/// `DEL`, and `__KEYS__` for a `KEYS`.
pub open spec fn access_key_of(a: Action) -> Option<Seq<u8>> {
    match a {
        Action::Put(k, _) => Some(k),
        Action::Get(k) => Some(k),
        Action::Del(k) => Some(k),
        Action::Keys(_) => Some("__KEYS__".spec_bytes()),
        _ => None,
    }
}

/// The name under which a request's access is counted, once the store has
/// answered it (`stored`: whether the store succeeded): a write counts only
/// when it was stored; reads, deletions and `KEYS` count whatever the store
/// answered; other requests are not counted.
pub open spec fn counted_access_of(a: Action, stored: bool) -> Option<Seq<u8>> {
    match a {
        Action::Put(k, _) => if stored {
            Some(k)
        } else {
            None
        },
        _ => access_key_of(a),
    }
}

/// The name under which the request's access is counted, if any, once the
/// store has answered it; `stored` says whether the store succeeded.
pub fn counted_access(r: &Request, stored: bool) -> (k: Option<Vec<u8>>)
    ensures
        match counted_access_of(request_view(*r), stored) {
            Some(x) => k matches Some(v) && v@ == x,
            None => k is None,
        },
{
    match r {
        Request::Put(k, _) => if stored {
            Some(vstd::slice::slice_to_vec(k))
        } else {
            None
        },
        Request::Get(k) => Some(vstd::slice::slice_to_vec(k)),
        Request::Del(k) => Some(vstd::slice::slice_to_vec(k)),
        Request::Keys(_) => Some(vstd::slice::slice_to_vec("__KEYS__".as_bytes())),
        _ => None,
    }
}

/// What the store did for a request.
pub enum Outcome<'a> {
    /// The value was stored.
    Stored,
    /// The store failed with this message.
    Failed(&'a str),
    /// The value found, if any.
    Found(Option<&'a [u8]>),
    /// Whether a key was removed.
    Removed(bool),
    /// The keys that matched.
    Matches(&'a [Vec<u8>]),
    /// The number of keys.
    Size(usize),
}

/// The reply to what the store did.
pub open spec fn outcome_reply(o: Outcome) -> Seq<u8> {
    match o {
        Outcome::Stored => simple_bytes("OK".spec_bytes()),
        Outcome::Failed(m) => error_bytes(encode_utf8("ERR "@ + m@)),
        Outcome::Found(Some(v)) => bulk_bytes(v@),
        Outcome::Found(None) => null_bulk_bytes(),
        Outcome::Removed(b) => integer_bytes(if b { 1 } else { 0 }),
        Outcome::Matches(ks) => array_of_bulk_bytes(vecs_view(ks@)),
        Outcome::Size(n) => integer_bytes((n as i64) as int),
    }
}

/// Appends the reply to what the store did.
pub fn reply(out: &mut Vec<u8>, o: &Outcome)
    ensures
        final(out)@ == old(out)@ + outcome_reply(*o),
{
    match o {
        Outcome::Stored => RespWriter::simple(out, "OK"),
        Outcome::Failed(m) => {
            let msg = concat("ERR ", m);
            RespWriter::error(out, msg.as_str());
        },
        Outcome::Found(Some(v)) => RespWriter::bulk(out, v),
        Outcome::Found(None) => RespWriter::null_bulk(out),
        Outcome::Removed(b) => RespWriter::integer(
            out,
            if *b {
                1
            } else {
                0
            },
        ),
        Outcome::Matches(ks) => RespWriter::array_of_bulk(out, ks),
        Outcome::Size(n) => RespWriter::integer(out, *n as i64),
    }
}

/// Names equal up to ASCII case are equal up to case to the same names.
proof fn lemma_same_case_with(a: Seq<u8>, b: Seq<u8>, n: Seq<u8>)
    requires
        same_ignoring_case(a, b),
    ensures
        same_ignoring_case(a, n) <==> same_ignoring_case(b, n),
{
    if same_ignoring_case(a, n) {
        assert forall|i: int| 0 <= i < b.len() implies ascii_lower(#[trigger] b[i]) == ascii_lower(n[i]) by {
            assert(ascii_lower(a[i]) == ascii_lower(b[i]));
            assert(ascii_lower(a[i]) == ascii_lower(n[i]));
        }
    }
    if same_ignoring_case(b, n) {
        assert forall|i: int| 0 <= i < a.len() implies ascii_lower(#[trigger] a[i]) == ascii_lower(n[i]) by {
            assert(ascii_lower(a[i]) == ascii_lower(b[i]));
            assert(ascii_lower(b[i]) == ascii_lower(n[i]));
        }
    }
}

/// Command names are matched without regard to ASCII case: two commands
/// whose names differ only in case and whose arguments are the same ask for
/// the same thing, unless neither name is known, when each is refused as an
/// unknown command under its own spelling.
pub proof fn lemma_case_insensitive(a: Seq<Seq<u8>>, b: Seq<Seq<u8>>)
    requires
        a.len() == b.len(),
        a.len() > 0,
        same_ignoring_case(a[0], b[0]),
        forall|i: int| 1 <= i < a.len() ==> #[trigger] a[i] == b[i],
    ensures
        action_of(a) == action_of(b) || (action_of(a) == Action::Reply(unknown_reply(a[0])) && action_of(b)
            == Action::Reply(unknown_reply(b[0]))),
{
    lemma_same_case_with(a[0], b[0], "PING".spec_bytes());
    lemma_same_case_with(a[0], b[0], "SET".spec_bytes());
    lemma_same_case_with(a[0], b[0], "GET".spec_bytes());
    lemma_same_case_with(a[0], b[0], "DEL".spec_bytes());
    lemma_same_case_with(a[0], b[0], "KEYS".spec_bytes());
    lemma_same_case_with(a[0], b[0], "DBSIZE".spec_bytes());
    if a.len() >= 2 {
        assert(a[1] == b[1]);
    }
    if a.len() >= 3 {
        assert(a[2] == b[2]);
    }
}

/// The bytes of the command names.
proof fn lemma_name_bytes()
    ensures
        "PING".spec_bytes() == seq![0x50u8, 0x49u8, 0x4eu8, 0x47u8],
        "SET".spec_bytes() == seq![0x53u8, 0x45u8, 0x54u8],
        "GET".spec_bytes() == seq![0x47u8, 0x45u8, 0x54u8],
        "DEL".spec_bytes() == seq![0x44u8, 0x45u8, 0x4cu8],
        "KEYS".spec_bytes() == seq![0x4bu8, 0x45u8, 0x59u8, 0x53u8],
        "DBSIZE".spec_bytes() == seq![0x44u8, 0x42u8, 0x53u8, 0x49u8, 0x5au8, 0x45u8],
{
    reveal_strlit("PING");
    vstd::string::is_ascii_spec_bytes("PING");
    assert(vstd::string::is_ascii("PING"));
    assert("PING".spec_bytes() =~= seq![0x50u8, 0x49u8, 0x4eu8, 0x47u8]);
    reveal_strlit("SET");
    vstd::string::is_ascii_spec_bytes("SET");
    assert(vstd::string::is_ascii("SET"));
    assert("SET".spec_bytes() =~= seq![0x53u8, 0x45u8, 0x54u8]);
    reveal_strlit("GET");
    vstd::string::is_ascii_spec_bytes("GET");
    assert(vstd::string::is_ascii("GET"));
    assert("GET".spec_bytes() =~= seq![0x47u8, 0x45u8, 0x54u8]);
    reveal_strlit("DEL");
    vstd::string::is_ascii_spec_bytes("DEL");
    assert(vstd::string::is_ascii("DEL"));
    assert("DEL".spec_bytes() =~= seq![0x44u8, 0x45u8, 0x4cu8]);
    reveal_strlit("KEYS");
    vstd::string::is_ascii_spec_bytes("KEYS");
    assert(vstd::string::is_ascii("KEYS"));
    assert("KEYS".spec_bytes() =~= seq![0x4bu8, 0x45u8, 0x59u8, 0x53u8]);
    reveal_strlit("DBSIZE");
    vstd::string::is_ascii_spec_bytes("DBSIZE");
    assert(vstd::string::is_ascii("DBSIZE"));
    assert("DBSIZE".spec_bytes() =~= seq![0x44u8, 0x42u8, 0x53u8, 0x49u8, 0x5au8, 0x45u8]);
}

/// No two command names are equal up to ASCII case.
proof fn lemma_names_distinct()
    ensures
        forall|m: Seq<u8>, n: Seq<u8>|
            #![trigger same_ignoring_case(m, n)]
            command_name(m) && command_name(n) && m != n ==> !same_ignoring_case(m, n),
{
    lemma_name_bytes();
    assert(ascii_lower("PING".spec_bytes()[0]) != ascii_lower("KEYS".spec_bytes()[0]));
    assert(ascii_lower("SET".spec_bytes()[0]) != ascii_lower("GET".spec_bytes()[0]));
    assert(ascii_lower("SET".spec_bytes()[0]) != ascii_lower("DEL".spec_bytes()[0]));
    assert(ascii_lower("GET".spec_bytes()[0]) != ascii_lower("DEL".spec_bytes()[0]));
}

/// One of the command names, in upper case.
pub open spec fn command_name(n: Seq<u8>) -> bool {
    ||| n == "PING".spec_bytes()
    ||| n == "SET".spec_bytes()
    ||| n == "GET".spec_bytes()
    ||| n == "DEL".spec_bytes()
    ||| n == "KEYS".spec_bytes()
    ||| n == "DBSIZE".spec_bytes()
}

/// What each command asks for, its name written in any ASCII case: `PING`
/// answers `PONG` or echoes its argument, `SET k v` stores, `GET k` reads,
/// `DEL k` removes, `KEYS p` lists the keys matching `p`, `DBSIZE` counts;
/// a wrong number of arguments is refused with an error.
pub proof fn lemma_command_actions(cmd: Seq<Seq<u8>>)
    requires
        cmd.len() > 0,
    ensures
        same_ignoring_case(cmd[0], "PING".spec_bytes()) ==> action_of(cmd) == if cmd.len() >= 2 {
            Action::Reply(bulk_bytes(cmd[1]))
        } else {
            Action::Reply(simple_bytes("PONG".spec_bytes()))
        },
        same_ignoring_case(cmd[0], "SET".spec_bytes()) && cmd.len() == 3 ==> action_of(cmd) == Action::Put(
            cmd[1],
            cmd[2],
        ),
        same_ignoring_case(cmd[0], "GET".spec_bytes()) && cmd.len() == 2 ==> action_of(cmd) == Action::Get(cmd[1]),
        same_ignoring_case(cmd[0], "DEL".spec_bytes()) && cmd.len() == 2 ==> action_of(cmd) == Action::Del(cmd[1]),
        same_ignoring_case(cmd[0], "KEYS".spec_bytes()) && cmd.len() == 2 ==> action_of(cmd) == Action::Keys(
            cmd[1],
        ),
        same_ignoring_case(cmd[0], "DBSIZE".spec_bytes()) ==> action_of(cmd) == Action::DbSize,
        same_ignoring_case(cmd[0], "SET".spec_bytes()) && cmd.len() != 3 ==> action_of(cmd) is Reply,
        same_ignoring_case(cmd[0], "GET".spec_bytes()) && cmd.len() != 2 ==> action_of(cmd) is Reply,
        same_ignoring_case(cmd[0], "DEL".spec_bytes()) && cmd.len() != 2 ==> action_of(cmd) is Reply,
        same_ignoring_case(cmd[0], "KEYS".spec_bytes()) && cmd.len() != 2 ==> action_of(cmd) is Reply,
{
    lemma_names_distinct();
    let c = cmd[0];
    let ns = seq!["PING".spec_bytes(), "SET".spec_bytes(), "GET".spec_bytes(), "DEL".spec_bytes(), "KEYS".spec_bytes(), "DBSIZE".spec_bytes()];
    assert forall|i: int, j: int| 0 <= i < 6 && 0 <= j < 6 && i != j && same_ignoring_case(c, #[trigger] ns[i]) implies !same_ignoring_case(c, #[trigger] ns[j]) by {
        lemma_same_case_sym(c, ns[i]);
        lemma_same_case_with(ns[i], c, ns[j]);
        assert(command_name(ns[i]) && command_name(ns[j]));
        lemma_name_bytes();
        assert(ns[i] != ns[j]);
        assert(!same_ignoring_case(ns[i], ns[j]));
    }
    assert(ns[0] == "PING".spec_bytes());
    assert(ns[1] == "SET".spec_bytes());
    assert(ns[2] == "GET".spec_bytes());
    assert(ns[3] == "DEL".spec_bytes());
    assert(ns[4] == "KEYS".spec_bytes());
    assert(ns[5] == "DBSIZE".spec_bytes());
}

/// Equality up to ASCII case is symmetric.
proof fn lemma_same_case_sym(a: Seq<u8>, b: Seq<u8>)
    requires
        same_ignoring_case(a, b),
    ensures
        same_ignoring_case(b, a),
{
    assert forall|i: int| 0 <= i < b.len() implies ascii_lower(#[trigger] b[i]) == ascii_lower(a[i]) by {
        assert(ascii_lower(a[i]) == ascii_lower(b[i]));
    }
}

/// The text `OK`, as bytes.
proof fn lemma_ok_bytes()
    ensures
        "OK".spec_bytes() == seq![0x4fu8, 0x4bu8],
{
    reveal_strlit("OK");
    vstd::string::is_ascii_spec_bytes("OK");
    assert(vstd::string::is_ascii("OK"));
    assert("OK".spec_bytes() =~= seq![0x4fu8, 0x4bu8]);
}

/// Every reply parses back as what the store did, followed by anything:
/// `+OK` after a store, an error after a failure, the value or the null
/// bulk string after a read, `1` or `0` after a removal, an array of exactly
/// the matching keys (none for an empty list) after `KEYS`, and the count
/// after `DBSIZE`.
pub proof fn lemma_reply_parses(o: Outcome, rest: Seq<u8>)
    ensures
        o matches Outcome::Stored ==> parse_at(outcome_reply(o) + rest, 0) == Parsed::Complete(
            Frame::Simple(seq![0x4fu8, 0x4bu8]),
            outcome_reply(o).len() as int,
        ),
        o matches Outcome::Failed(m) ==> (no_crlf(encode_utf8("ERR "@ + m@)) ==> parse_at(outcome_reply(o) + rest, 0)
            == Parsed::Complete(Frame::Error(encode_utf8("ERR "@ + m@)), outcome_reply(o).len() as int)),
        o matches Outcome::Found(Some(v)) ==> (v@.len() <= i64::MAX ==> parse_at(outcome_reply(o) + rest, 0)
            == Parsed::Complete(Frame::Bulk(v@), outcome_reply(o).len() as int)),
        o matches Outcome::Found(None) ==> parse_at(outcome_reply(o) + rest, 0) == Parsed::Complete(
            Frame::NullBulk,
            outcome_reply(o).len() as int,
        ),
        o matches Outcome::Removed(b) ==> parse_at(outcome_reply(o) + rest, 0) == Parsed::Complete(
            Frame::Integer(if b { 1 } else { 0 }),
            outcome_reply(o).len() as int,
        ),
        o matches Outcome::Matches(ks) ==> (ks@.len() <= i64::MAX && (forall|i: int|
            0 <= i < ks@.len() ==> #[trigger] ks@[i]@.len() <= i64::MAX) ==> parse_at(outcome_reply(o) + rest, 0)
            == Parsed::Complete(Frame::Array(bulk_frames(vecs_view(ks@))), outcome_reply(o).len() as int)),
        o matches Outcome::Size(n) ==> (n <= i64::MAX ==> parse_at(outcome_reply(o) + rest, 0) == Parsed::Complete(
            Frame::Integer(n as int),
            outcome_reply(o).len() as int,
        )),
{
    match o {
        Outcome::Stored => {
            lemma_ok_bytes();
            let s = seq![0x4fu8, 0x4bu8];
            assert forall|j: int| !#[trigger] crlf_at(s, j) by {}
            assert(valid_utf8(s)) by {
                assert(s =~= encode_utf8("OK"@)) by {
                    reveal_strlit("OK");
                }
                vstd::utf8::encode_utf8_valid_utf8("OK"@);
            }
            lemma_simple_roundtrip(s, rest);
        },
        Outcome::Failed(m) => {
            let s = encode_utf8("ERR "@ + m@);
            if no_crlf(s) {
                vstd::utf8::encode_utf8_valid_utf8("ERR "@ + m@);
                lemma_error_roundtrip(s, rest);
            }
        },
        Outcome::Found(Some(v)) => {
            if v@.len() <= i64::MAX {
                lemma_bulk_roundtrip(v@, rest);
            }
        },
        Outcome::Found(None) => {
            lemma_null_bulk_roundtrip(rest);
            assert(null_bulk_bytes().len() == 5);
        },
        Outcome::Removed(b) => {
            lemma_integer_roundtrip(if b { 1 } else { 0 }, rest);
        },
        Outcome::Matches(ks) => {
            let items = vecs_view(ks@);
            if ks@.len() <= i64::MAX && (forall|i: int| 0 <= i < ks@.len() ==> #[trigger] ks@[i]@.len() <= i64::MAX) {
                assert forall|i: int| 0 <= i < items.len() implies #[trigger] items[i].len() <= i64::MAX by {
                    assert(items[i] == ks@[i]@);
                }
                lemma_command_roundtrip(items, rest);
            }
        },
        Outcome::Size(n) => {
            if n <= i64::MAX {
                assert((n as i64) as int == n as int);
                lemma_integer_roundtrip(n as int, rest);
            }
        },
    }
}

/// Which access each command counts once the store has answered: the key
/// of a `GET` or `DEL` whatever the answer, the key of a `SET` only when it
/// was stored, `__KEYS__` for `KEYS`; nothing for `PING`, `DBSIZE` or a
/// refused command.
pub proof fn lemma_counted_accesses(cmd: Seq<Seq<u8>>, stored: bool)
    requires
        cmd.len() > 0,
    ensures
        same_ignoring_case(cmd[0], "GET".spec_bytes()) && cmd.len() == 2 ==> counted_access_of(action_of(cmd), stored)
            == Some(cmd[1]),
        same_ignoring_case(cmd[0], "DEL".spec_bytes()) && cmd.len() == 2 ==> counted_access_of(action_of(cmd), stored)
            == Some(cmd[1]),
        same_ignoring_case(cmd[0], "SET".spec_bytes()) && cmd.len() == 3 ==> counted_access_of(action_of(cmd), stored)
            == if stored {
            Some(cmd[1])
        } else {
            None
        },
        same_ignoring_case(cmd[0], "KEYS".spec_bytes()) && cmd.len() == 2 ==> counted_access_of(
            action_of(cmd),
            stored,
        ) == Some(seq![0x5fu8, 0x5fu8, 0x4bu8, 0x45u8, 0x59u8, 0x53u8, 0x5fu8, 0x5fu8]),
        same_ignoring_case(cmd[0], "PING".spec_bytes()) ==> counted_access_of(action_of(cmd), stored) is None,
        same_ignoring_case(cmd[0], "DBSIZE".spec_bytes()) ==> counted_access_of(action_of(cmd), stored) is None,
        action_of(cmd) is Reply ==> counted_access_of(action_of(cmd), stored) is None,
{
    lemma_command_actions(cmd);
    reveal_strlit("__KEYS__");
    vstd::string::is_ascii_spec_bytes("__KEYS__");
    assert(vstd::string::is_ascii("__KEYS__"));
    assert("__KEYS__".spec_bytes() =~= seq![0x5fu8, 0x5fu8, 0x4bu8, 0x45u8, 0x59u8, 0x53u8, 0x5fu8, 0x5fu8]);
}

} // verus!
