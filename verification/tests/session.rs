use kvdb::protocol::ParseError;
use kvdb::session::{next_step, Step};

#[test]
fn a_command_frame_is_run() {
    let buf = b"*2\r\n$3\r\nGET\r\n$1\r\nk\r\n*1\r\n$4\r\nPING\r\n";
    match next_step(buf) {
        Step::Command(cmd, consumed) => {
            assert_eq!(cmd, vec![&b"GET"[..], &b"k"[..]]);
            assert_eq!(consumed, 20);
        }
        _ => panic!("expected a command"),
    }
}

#[test]
fn a_partial_frame_waits() {
    assert!(matches!(next_step(b""), Step::Wait));
    assert!(matches!(next_step(b"*2\r\n$3\r\nGET\r\n"), Step::Wait));
}

#[test]
fn a_frame_that_is_not_a_command_is_refused() {
    match next_step(b":5\r\nrest") {
        Step::Reject(reply, consumed) => {
            assert_eq!(reply, b"-ERR protocol error: expected array command\r\n".to_vec());
            assert_eq!(consumed, 4);
        }
        _ => panic!("expected a refusal"),
    }
    match next_step(b"*1\r\n:5\r\n") {
        Step::Reject(reply, consumed) => {
            assert_eq!(reply, b"-ERR protocol error: command arguments must be bulk strings\r\n".to_vec());
            assert_eq!(consumed, 8);
        }
        _ => panic!("expected a refusal"),
    }
}

#[test]
fn bytes_that_are_not_resp_end_the_connection() {
    match next_step(b"*x\r\n") {
        Step::Fail(reply) => {
            assert_eq!(reply, b"-ERR protocol error: invalid array length: x\r\n".to_vec());
        }
        _ => panic!("expected a failure"),
    }
}

#[test]
fn parse_error_text() {
    let e = ParseError::Protocol("bad".to_string());
    assert_eq!(e.to_string(), "protocol error: bad");
}
