use kvdb::protocol::{as_command, parse, ParseError, ParseOutcome, RespValue, RespWriter};

fn complete(buf: &[u8]) -> (RespValue<'_>, usize) {
    match parse(buf).unwrap() {
        ParseOutcome::Complete { value, consumed } => (value, consumed),
        ParseOutcome::Incomplete => panic!("expected complete parse"),
    }
}

fn protocol_error(buf: &[u8]) -> String {
    match parse(buf) {
        Err(ParseError::Protocol(m)) => m,
        _ => panic!("expected a protocol error"),
    }
}

#[test]
fn parses_simple_string() {
    let (v, n) = complete(b"+OK\r\n");
    assert_eq!(v, RespValue::Simple("OK"));
    assert_eq!(n, 5);
}

#[test]
fn parses_bulk_string() {
    let (v, n) = complete(b"$5\r\nhello\r\n");
    assert_eq!(v, RespValue::Bulk(b"hello"));
    assert_eq!(n, 11);
}

#[test]
fn parses_null_bulk() {
    let (v, _) = complete(b"$-1\r\n");
    assert_eq!(v, RespValue::NullBulk);
}

#[test]
fn parses_command_array() {
    let buf = b"*3\r\n$3\r\nSET\r\n$3\r\nfoo\r\n$3\r\nbar\r\n";
    let (v, n) = complete(buf);
    assert_eq!(n, buf.len());
    let cmd = as_command(&v).unwrap();
    assert_eq!(cmd, vec![b"SET".as_ref(), b"foo".as_ref(), b"bar".as_ref()]);
}

#[test]
fn incomplete_buffer_waits() {
    let buf = b"*3\r\n$3\r\nSET\r\n$3\r\nfoo\r\n$3\r\nba";
    match parse(buf).unwrap() {
        ParseOutcome::Incomplete => {}
        ParseOutcome::Complete { .. } => panic!("expected incomplete"),
    }
}

#[test]
fn inline_command() {
    let buf = b"PING\r\n";
    let (v, n) = complete(buf);
    assert_eq!(n, 6);
    let cmd = as_command(&v).unwrap();
    assert_eq!(cmd, vec![b"PING".as_ref()]);
}

#[test]
fn parses_two_frames_back_to_back() {
    let buf = b"*1\r\n$4\r\nPING\r\n*1\r\n$4\r\nPING\r\n";
    let (v1, n1) = complete(buf);
    assert_eq!(as_command(&v1).unwrap(), vec![b"PING".as_ref()]);
    let (v2, n2) = complete(&buf[n1..]);
    assert_eq!(as_command(&v2).unwrap(), vec![b"PING".as_ref()]);
    assert_eq!(n1 + n2, buf.len());
}

#[test]
fn writer_roundtrip() {
    let mut out = Vec::new();
    RespWriter::bulk(&mut out, b"hello");
    assert_eq!(out, b"$5\r\nhello\r\n");
    out.clear();
    RespWriter::array_of_bulk(&mut out, &[b"a".to_vec(), b"bb".to_vec()]);
    assert_eq!(out, b"*2\r\n$1\r\na\r\n$2\r\nbb\r\n");
}

#[test]
fn parses_integers_errors_and_null_array() {
    let (v, n) = complete(b":-42\r\n");
    assert_eq!(v, RespValue::Integer(-42));
    assert_eq!(n, 6);
    let (v, _) = complete(b":+7\r\n");
    assert_eq!(v, RespValue::Integer(7));
    let (v, _) = complete(b"-ERR bad\r\n");
    assert_eq!(v, RespValue::Error("ERR bad"));
    let (v, n) = complete(b"*-1\r\n");
    assert_eq!(v, RespValue::NullArray);
    assert_eq!(n, 5);
    let (v, n) = complete(b"*0\r\n");
    assert_eq!(v, RespValue::Array(Vec::new()));
    assert_eq!(n, 4);
    let (v, _) = complete(b"*2\r\n:1\r\n*1\r\n+x\r\n");
    assert_eq!(
        v,
        RespValue::Array(vec![RespValue::Integer(1), RespValue::Array(vec![RespValue::Simple("x")])])
    );
}

#[test]
fn reports_each_protocol_error() {
    assert_eq!(protocol_error(b":abc\r\n"), "invalid integer: abc");
    assert_eq!(protocol_error(b":99999999999999999999\r\n"), "invalid integer: 99999999999999999999");
    assert_eq!(protocol_error(b"$x\r\n"), "invalid bulk length: x");
    assert_eq!(protocol_error(b"$-2\r\n"), "negative bulk length");
    assert_eq!(protocol_error(b"$3\r\nabcd\r\n"), "bulk string missing trailing CRLF");
    assert_eq!(protocol_error(b"*z\r\n"), "invalid array length: z");
    assert_eq!(protocol_error(b"*-5\r\n"), "negative array length");
    assert_eq!(protocol_error(b"+\xff\r\n"), "invalid utf8 in line");
    assert_eq!(protocol_error(b"G\xffT\r\n"), "invalid utf8 in inline command");
    assert_eq!(protocol_error(b"*1\r\n:q\r\n"), "invalid integer: q");
}

#[test]
fn waits_for_more_in_every_frame_kind() {
    for buf in [&b""[..], b"+OK", b"+OK\r", b"$5\r\nhel", b"$5\r\nhello\r", b"*2\r\n$1\r\na\r\n", b"PING"] {
        match parse(buf).unwrap() {
            ParseOutcome::Incomplete => {}
            ParseOutcome::Complete { .. } => panic!("expected incomplete"),
        }
    }
}

#[test]
fn inline_command_splits_on_white_space() {
    let buf = "  SET\tk \u{a0}v  \r\n".as_bytes();
    let (v, n) = complete(buf);
    assert_eq!(n, buf.len());
    assert_eq!(as_command(&v).unwrap(), vec![b"SET".as_ref(), b"k".as_ref(), b"v".as_ref()]);
    let (v, _) = complete(b"\r\n");
    assert_eq!(as_command(&v).unwrap(), Vec::<&[u8]>::new());
}

#[test]
fn as_command_rejects_other_shapes() {
    let (v, _) = complete(b"+OK\r\n");
    assert_eq!(as_command(&v), Err(ParseError::Protocol("expected array command".to_string())));
    let (v, _) = complete(b"*2\r\n$1\r\na\r\n:1\r\n");
    assert_eq!(
        as_command(&v),
        Err(ParseError::Protocol("command arguments must be bulk strings".to_string()))
    );
}

#[test]
fn writer_encodes_every_kind() {
    let mut out = Vec::new();
    RespWriter::simple(&mut out, "PONG");
    RespWriter::error(&mut out, "ERR x");
    RespWriter::integer(&mut out, -9223372036854775808);
    RespWriter::integer(&mut out, 0);
    RespWriter::null_bulk(&mut out);
    RespWriter::array_header(&mut out, 12);
    RespWriter::bulk(&mut out, b"");
    assert_eq!(
        out,
        b"+PONG\r\n-ERR x\r\n:-9223372036854775808\r\n:0\r\n$-1\r\n*12\r\n$0\r\n\r\n".to_vec()
    );
}

#[test]
fn what_the_writer_writes_parses_back() {
    let mut out = Vec::new();
    RespWriter::integer(&mut out, i64::MIN);
    RespWriter::simple(&mut out, "hi there");
    RespWriter::error(&mut out, "ERR no");
    RespWriter::null_bulk(&mut out);
    let items = vec![b"SET".to_vec(), b"key".to_vec(), vec![0u8, 13, 10, 255]];
    RespWriter::array_of_bulk(&mut out, &items);
    let mut rest = &out[..];
    let (v, n) = complete(rest);
    assert_eq!(v, RespValue::Integer(i64::MIN));
    rest = &rest[n..];
    let (v, n) = complete(rest);
    assert_eq!(v, RespValue::Simple("hi there"));
    rest = &rest[n..];
    let (v, n) = complete(rest);
    assert_eq!(v, RespValue::Error("ERR no"));
    rest = &rest[n..];
    let (v, n) = complete(rest);
    assert_eq!(v, RespValue::NullBulk);
    rest = &rest[n..];
    let (v, n) = complete(rest);
    assert_eq!(n, rest.len());
    let cmd = as_command(&v).unwrap();
    let want: Vec<&[u8]> = items.iter().map(|i| i.as_slice()).collect();
    assert_eq!(cmd, want);
}
