use kvdb::commands::{counted_access, reply, request_of, unknown_command_reply, Outcome, Request};

fn reply_of(cmd: &[&[u8]]) -> Vec<u8> {
    match request_of(cmd) {
        Request::Reply(r) => r,
        _ => panic!("expected a direct reply"),
    }
}

#[test]
fn ping_and_errors_are_answered_directly() {
    assert_eq!(reply_of(&[b"PING"]), b"+PONG\r\n".to_vec());
    assert_eq!(reply_of(&[b"ping", b"hey"]), b"$3\r\nhey\r\n".to_vec());
    assert_eq!(reply_of(&[]), b"-ERR empty command\r\n".to_vec());
    assert_eq!(reply_of(&[b"SET", b"k"]), b"-ERR wrong number of arguments for 'SET'\r\n".to_vec());
    assert_eq!(reply_of(&[b"GET"]), b"-ERR wrong number of arguments for 'GET'\r\n".to_vec());
    assert_eq!(reply_of(&[b"DEL", b"a", b"b"]), b"-ERR wrong number of arguments for 'DEL'\r\n".to_vec());
    assert_eq!(reply_of(&[b"KEYS"]), b"-ERR wrong number of arguments for 'KEYS'\r\n".to_vec());
    assert_eq!(reply_of(&[b"FLUSHALL"]), b"-ERR unknown command 'FLUSHALL'\r\n".to_vec());
    assert_eq!(reply_of(&[b"x\xff"]), "-ERR unknown command 'x\u{fffd}'\r\n".as_bytes().to_vec());
}

#[test]
fn store_commands_become_requests() {
    match request_of(&[b"set", b"k", b"v"]) {
        Request::Put(k, v) => {
            assert_eq!(k, b"k");
            assert_eq!(v, b"v");
        }
        _ => panic!("expected a put"),
    }
    assert!(matches!(request_of(&[b"Get", b"k"]), Request::Get(k) if k == b"k"));
    assert!(matches!(request_of(&[b"DEL", b"k"]), Request::Del(k) if k == b"k"));
    assert!(matches!(request_of(&[b"keys", b"u*"]), Request::Keys(p) if p == b"u*"));
    assert!(matches!(request_of(&[b"DBSIZE", b"extra"]), Request::DbSize));
}

#[test]
fn access_keys() {
    assert_eq!(counted_access(&request_of(&[b"SET", b"k", b"v"]), true), Some(b"k".to_vec()));
    assert_eq!(counted_access(&request_of(&[b"SET", b"k", b"v"]), false), None);
    assert_eq!(counted_access(&request_of(&[b"GET", b"g"]), true), Some(b"g".to_vec()));
    assert_eq!(counted_access(&request_of(&[b"DEL", b"d"]), false), Some(b"d".to_vec()));
    assert_eq!(counted_access(&request_of(&[b"KEYS", b"*"]), true), Some(b"__KEYS__".to_vec()));
    assert_eq!(counted_access(&request_of(&[b"DBSIZE"]), true), None);
    assert_eq!(counted_access(&request_of(&[b"PING"]), true), None);
    assert_eq!(counted_access(&request_of(&[b"GET"]), true), None);
}

#[test]
fn replies_to_outcomes() {
    let mut out = Vec::new();
    reply(&mut out, &Outcome::Stored);
    reply(&mut out, &Outcome::Found(Some(b"bar")));
    reply(&mut out, &Outcome::Found(None));
    reply(&mut out, &Outcome::Removed(true));
    reply(&mut out, &Outcome::Removed(false));
    reply(&mut out, &Outcome::Size(42));
    reply(&mut out, &Outcome::Failed("disk full"));
    reply(&mut out, &Outcome::Matches(&[b"a".to_vec(), b"bc".to_vec()]));
    assert_eq!(
        out,
        b"+OK\r\n$3\r\nbar\r\n$-1\r\n:1\r\n:0\r\n:42\r\n-ERR disk full\r\n*2\r\n$1\r\na\r\n$2\r\nbc\r\n".to_vec()
    );
}

#[test]
fn unknown_command_reply_quotes_the_name() {
    assert_eq!(unknown_command_reply("FOO"), b"-ERR unknown command 'FOO'\r\n".to_vec());
    assert_eq!(unknown_command_reply(""), b"-ERR unknown command ''\r\n".to_vec());
}
