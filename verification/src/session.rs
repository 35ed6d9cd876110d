//! How a connection consumes its read buffer: one frame at a time, each a
//! command to run, a frame to refuse, a wait for more bytes, or the end of
//! the connection.
use crate::protocol::{
    as_command, command_of, concat, error_bytes, parse, parse_at, slices_view, ParseError, ParseOutcome, Parsed,
    RespWriter,
};
use vstd::prelude::*;
use vstd::utf8::encode_utf8;

verus! {

/// What to do with the front of a connection's read buffer.
pub enum Step<'a> {
    /// Only part of a frame has arrived: read more first.
    Wait,
    /// A command (its name and arguments), and the bytes its frame took.
    Command(Vec<&'a [u8]>, usize),
    /// A frame that is not a command: the error reply, and the bytes the
    /// frame took.
    Reject(Vec<u8>, usize),
    /// Bytes that are not RESP: the error reply, after which the connection
    /// closes.
    Fail(Vec<u8>),
}

/// The error reply to a protocol error with message `m`: `ERR ` and the
/// error's text.
pub open spec fn protocol_error_reply(m: Seq<char>) -> Seq<u8> {
    error_bytes(encode_utf8("ERR "@ + ("protocol error: "@ + m)))
}

/// The error reply to `e`.
fn error_reply_for(e: &ParseError) -> (out: Vec<u8>)
    ensures
        match e {
            ParseError::Protocol(m) => out@ == protocol_error_reply(m@),
        },
{
    let text = concat("ERR ", e.to_string().as_str());
    let mut out: Vec<u8> = Vec::new();
    RespWriter::error(&mut out, text.as_str());
    proof {
        assert(out@ =~= error_bytes(encode_utf8(text@)));
    }
    out
}

/// The next step for a read buffer `buf`, from the frame at its front.
pub fn next_step<'a>(buf: &'a [u8]) -> (r: Step<'a>)
    ensures
        match parse_at(buf@, 0) {
            Parsed::Incomplete => r is Wait,
            Parsed::Failed(m) => r matches Step::Fail(b) && b@ == protocol_error_reply(m),
            Parsed::Complete(f, n) => match command_of(f) {
                Ok(args) => r matches Step::Command(v, c) && slices_view(v@) == args && c == n && 0 < c
                    <= buf@.len(),
                Err(m) => r matches Step::Reject(b, c) && b@ == protocol_error_reply(m) && c == n && 0 < c
                    <= buf@.len(),
            },
        },
{
    match parse(buf) {
        Ok(ParseOutcome::Complete { value, consumed }) => match as_command(&value) {
            Ok(cmd) => Step::Command(cmd, consumed),
            Err(e) => Step::Reject(error_reply_for(&e), consumed),
        },
        Ok(ParseOutcome::Incomplete) => Step::Wait,
        Err(e) => Step::Fail(error_reply_for(&e)),
    }
}

} // verus!
