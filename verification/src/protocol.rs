//! RESP (REdis Serialization Protocol) parser and encoder.
//!
//! Parsing borrows from the input buffer (`RespValue::Bulk(&[u8])`,
//! `RespValue::Simple(&str)`); frames that arrive split across reads parse
//! as `Incomplete` until the rest is there.
use crate::decimal::{
    all_digits, decimal, int_value, is_digit, lemma_decimal, lemma_signed_decimal, parse_i64,
    push_decimal, push_signed_decimal, signed_decimal, MINUS, PLUS, ZERO,
};
use vstd::prelude::*;
use vstd::string::{StringExecFns, StringSliceAdditionalSpecFns};
use vstd::utf8::{decode_utf8, encode_utf8, valid_utf8};

verus! {

/// `\r`.
pub const CR: u8 = 0x0d;

/// `\n`.
pub const LF: u8 = 0x0a;

/// `:`, the integer prefix.
pub const COLON: u8 = 0x3a;

/// `$`, the bulk string prefix.
pub const DOLLAR: u8 = 0x24;

/// `*`, the array prefix.
pub const ASTERISK: u8 = 0x2a;

/// A RESP value, borrowing its text from the parsed buffer.
#[derive(Debug, PartialEq, Eq)]
pub enum RespValue<'a> {
    Simple(&'a str),
    Error(&'a str),
    Integer(i64),
    Bulk(&'a [u8]),
    NullBulk,
    Array(Vec<RespValue<'a>>),
    NullArray,
}

/// Why bytes are not a RESP value, or a value not a command.
#[derive(Debug, PartialEq, Eq)]
pub enum ParseError {
    Protocol(String),
}

impl ParseError {
    /// The error's text, as it is displayed: `protocol error: ` and the
    /// message.
    pub fn to_string(&self) -> (s: String)
        ensures
            match self {
                ParseError::Protocol(m) => s@ == "protocol error: "@ + m@,
            },
    {
        match self {
            ParseError::Protocol(m) => concat("protocol error: ", m.as_str()),
        }
    }
}

/// Result of attempting to parse one RESP frame from a buffer.
pub enum ParseOutcome<'a> {
    /// A complete value was parsed; `consumed` bytes should be dropped from
    /// the front of the buffer.
    Complete { value: RespValue<'a>, consumed: usize },
    /// Not enough data yet; caller should read more bytes and retry.
    Incomplete,
}

/// The content of a RESP value, as bytes and numbers.
pub enum Frame {
    Simple(Seq<u8>),
    Error(Seq<u8>),
    Integer(int),
    Bulk(Seq<u8>),
    NullBulk,
    Array(Seq<Frame>),
    NullArray,
}

/// What parsing from some position yields: a frame and the position just
/// after it, a need for more bytes, or a protocol error with its message.
pub enum Parsed {
    Complete(Frame, int),
    Incomplete,
    Failed(Seq<char>),
}

/// What parsing a run of array items yields.
pub enum ItemsParsed {
    Complete(Seq<Frame>, int),
    Incomplete,
    Failed(Seq<char>),
}

/// The content of a value.
pub open spec fn frame_of(v: RespValue) -> Frame
    decreases v,
{
    match v {
        RespValue::Simple(s) => Frame::Simple(s.spec_bytes()),
        RespValue::Error(s) => Frame::Error(s.spec_bytes()),
        RespValue::Integer(n) => Frame::Integer(n as int),
        RespValue::Bulk(b) => Frame::Bulk(b@),
        RespValue::NullBulk => Frame::NullBulk,
        RespValue::Array(items) => Frame::Array(frames_of(items@)),
        RespValue::NullArray => Frame::NullArray,
    }
}

/// The contents of a sequence of values.
pub open spec fn frames_of(s: Seq<RespValue>) -> Seq<Frame>
    decreases s,
{
    if s.len() == 0 {
        Seq::empty()
    } else {
        frames_of(s.subrange(0, s.len() - 1)).push(frame_of(s[s.len() - 1]))
    }
}

/// A CRLF starts at byte `i`.
pub open spec fn crlf_at(buf: Seq<u8>, i: int) -> bool {
    0 <= i && i + 1 < buf.len() && buf[i] == CR && buf[i + 1] == LF
}

/// The first CRLF at or after byte `start`.
pub open spec fn crlf_from(buf: Seq<u8>, start: int) -> Option<int>
    decreases buf.len() - start,
{
    if start < 0 || start + 1 >= buf.len() {
        None
    } else if crlf_at(buf, start) {
        Some(start)
    } else {
        crlf_from(buf, start + 1)
    }
}

/// `crlf_from` finds the first CRLF at or after `start`, if any.
pub proof fn lemma_crlf_from(buf: Seq<u8>, start: int)
    requires
        0 <= start,
    ensures
        crlf_from(buf, start) matches Some(c) ==> start <= c && crlf_at(buf, c) && forall|j: int|
            start <= j < c ==> !#[trigger] crlf_at(buf, j),
        crlf_from(buf, start) is None ==> forall|j: int| start <= j ==> !#[trigger] crlf_at(buf, j),
    decreases buf.len() - start,
{
    if start + 1 < buf.len() && !crlf_at(buf, start) {
        lemma_crlf_from(buf, start + 1);
    }
}

/// The tokens of `s`: its maximal runs of characters that are not white
/// space, in order (as `str::split_whitespace` gives them).
pub open spec fn whitespace_tokens(s: Seq<char>) -> Seq<Seq<char>> {
    tokens_after(s, Seq::empty())
}

/// The tokens of `s` when the token `cur` is still open before it.
pub open spec fn tokens_after(s: Seq<char>, cur: Seq<char>) -> Seq<Seq<char>>
    decreases s.len(),
{
    let done = if cur.len() > 0 {
        seq![cur]
    } else {
        Seq::empty()
    };
    if s.len() == 0 {
        done
    } else if is_white_space(s[0]) {
        done + tokens_after(s.skip(1), Seq::empty())
    } else {
        tokens_after(s.skip(1), cur.push(s[0]))
    }
}

/// The characters with the Unicode `White_Space` property.
pub open spec fn is_white_space(c: char) -> bool {
    let n = c as u32;
    ||| 0x09 <= n <= 0x0d
    ||| n == 0x20
    ||| n == 0x85
    ||| n == 0xa0
    ||| n == 0x1680
    ||| 0x2000 <= n <= 0x200a
    ||| n == 0x2028
    ||| n == 0x2029
    ||| n == 0x202f
    ||| n == 0x205f
    ||| n == 0x3000
}

/// Parses one RESP value starting at byte `pos` of `buf`.
pub open spec fn parse_at(buf: Seq<u8>, pos: int) -> Parsed
    decreases buf.len() - pos, 0int, 0int,
{
    if pos < 0 || pos >= buf.len() {
        Parsed::Incomplete
    } else if buf[pos] == PLUS || buf[pos] == MINUS || buf[pos] == COLON || buf[pos] == DOLLAR || buf[pos]
        == ASTERISK {
        match crlf_from(buf, pos + 1) {
            None => Parsed::Incomplete,
            Some(c) => {
                let line = buf.subrange(pos + 1, c);
                let next = c + 2;
                if !valid_utf8(line) {
                    Parsed::Failed("invalid utf8 in line"@)
                } else if buf[pos] != ASTERISK {
                    line_value(buf, buf[pos], line, next)
                } else {
                    match int_value(line) {
                        None => Parsed::Failed("invalid array length: "@ + decode_utf8(line)),
                        Some(n) => if n == -1 {
                            Parsed::Complete(Frame::NullArray, next)
                        } else if n < 0 {
                            Parsed::Failed("negative array length"@)
                        } else {
                            proof {
                                lemma_crlf_from(buf, pos + 1);
                            }
                            array_parsed(parse_items(buf, next, n))
                        },
                    }
                }
            },
        }
    } else {
        match crlf_from(buf, pos) {
            None => Parsed::Incomplete,
            Some(c) => {
                let line = buf.subrange(pos, c);
                if !valid_utf8(line) {
                    Parsed::Failed("invalid utf8 in inline command"@)
                } else {
                    Parsed::Complete(Frame::Array(inline_frames(decode_utf8(line))), c + 2)
                }
            },
        }
    }
}

/// An array of the items that `r` describes.
pub open spec fn array_parsed(r: ItemsParsed) -> Parsed {
    match r {
        ItemsParsed::Complete(fs, end) => Parsed::Complete(Frame::Array(fs), end),
        ItemsParsed::Incomplete => Parsed::Incomplete,
        ItemsParsed::Failed(m) => Parsed::Failed(m),
    }
}

/// The value of a `+`, `-`, `:` or `$` line `line` whose CRLF ends just
/// before byte `next`.
pub open spec fn line_value(buf: Seq<u8>, t: u8, line: Seq<u8>, next: int) -> Parsed {
    if t == PLUS {
        Parsed::Complete(Frame::Simple(line), next)
    } else if t == MINUS {
        Parsed::Complete(Frame::Error(line), next)
    } else if t == COLON {
        match int_value(line) {
            Some(n) => Parsed::Complete(Frame::Integer(n), next),
            None => Parsed::Failed("invalid integer: "@ + decode_utf8(line)),
        }
    } else {
        match int_value(line) {
            None => Parsed::Failed("invalid bulk length: "@ + decode_utf8(line)),
            Some(n) => if n == -1 {
                Parsed::Complete(Frame::NullBulk, next)
            } else if n < 0 {
                Parsed::Failed("negative bulk length"@)
            } else if buf.len() < next + n + 2 {
                Parsed::Incomplete
            } else if !crlf_at(buf, next + n) {
                Parsed::Failed("bulk string missing trailing CRLF"@)
            } else {
                Parsed::Complete(Frame::Bulk(buf.subrange(next, next + n)), next + n + 2)
            },
        }
    }
}

/// The bulk strings of an inline command line.
pub open spec fn inline_frames(line: Seq<char>) -> Seq<Frame> {
    whitespace_tokens(line).map_values(|t: Seq<char>| Frame::Bulk(encode_utf8(t)))
}

/// Parses `k` array items one after another from byte `cur` on.
pub open spec fn parse_items(buf: Seq<u8>, cur: int, k: int) -> ItemsParsed
    decreases buf.len() - cur, 1int, k,
{
    if k <= 0 {
        ItemsParsed::Complete(Seq::empty(), cur)
    } else {
        match parse_at(buf, cur) {
            Parsed::Complete(f, next) => if cur < next <= buf.len() {
                match parse_items(buf, next, k - 1) {
                    ItemsParsed::Complete(fs, end) => ItemsParsed::Complete(seq![f] + fs, end),
                    ItemsParsed::Incomplete => ItemsParsed::Incomplete,
                    ItemsParsed::Failed(m) => ItemsParsed::Failed(m),
                }
            } else {
                ItemsParsed::Incomplete
            },
            Parsed::Incomplete => ItemsParsed::Incomplete,
            Parsed::Failed(m) => ItemsParsed::Failed(m),
        }
    }
}

/// `r` is the outcome that `p` describes.
pub open spec fn outcome_is(r: Result<ParseOutcome, ParseError>, p: Parsed) -> bool {
    match p {
        Parsed::Complete(f, c) => r matches Ok(ParseOutcome::Complete { value, consumed }) && frame_of(value) == f
            && consumed == c,
        Parsed::Incomplete => r matches Ok(ParseOutcome::Incomplete),
        Parsed::Failed(m) => r matches Err(ParseError::Protocol(s)) && s@ == m,
    }
}

/// Items `fs` parsed before the items that `r` describes.
pub open spec fn after_items(fs: Seq<Frame>, r: ItemsParsed) -> ItemsParsed {
    match r {
        ItemsParsed::Complete(gs, end) => ItemsParsed::Complete(fs + gs, end),
        ItemsParsed::Incomplete => ItemsParsed::Incomplete,
        ItemsParsed::Failed(m) => ItemsParsed::Failed(m),
    }
}

/// `std::str::from_utf8`: a string slice exactly when the bytes are valid
/// UTF-8, and then one that holds those bytes.
#[verifier::external_body]
fn str_from_utf8<'a>(v: &'a [u8]) -> (r: Option<&'a str>)
    ensures
        r is Some <==> valid_utf8(v@),
        r matches Some(s) ==> s.spec_bytes() == v@,
{
    std::str::from_utf8(v).ok()
}

/// `str::split_whitespace`, collected: the runs of `s` between characters
/// with the Unicode `White_Space` property, in order.
#[verifier::external_body]
fn split_whitespace<'a>(s: &'a str) -> (toks: Vec<&'a str>)
    ensures
        toks@.map_values(|t: &'a str| t@) == whitespace_tokens(s@),
{
    s.split_whitespace().collect()
}

/// The characters of `a`, then those of `b`.
pub(crate) fn concat(a: &str, b: &str) -> (r: String)
    ensures
        r@ == a@ + b@,
{
    let first = String::from_str(a);
    first.concat(b)
}

/// A protocol error with a fixed message.
fn protocol_error(msg: &str) -> (e: ParseError)
    ensures
        e matches ParseError::Protocol(s) && s@ == msg@,
{
    ParseError::Protocol(msg.to_owned())
}

/// The first CRLF at or after byte `start`.
fn find_crlf(buf: &[u8], start: usize) -> (r: Option<usize>)
    ensures
        match r {
            Some(c) => crlf_from(buf@, start as int) == Some(c as int),
            None => crlf_from(buf@, start as int) is None,
        },
{
    let mut i = start;
    while i < buf.len() && buf.len() - i > 1
        invariant
            start <= i,
            crlf_from(buf@, start as int) == crlf_from(buf@, i as int),
        decreases buf@.len() - i,
    {
        if buf[i] == CR && buf[i + 1] == LF {
            return Some(i);
        }
        i = i + 1;
    }
    None
}

/// Reads a CRLF-terminated line starting at `pos`, returning the line and
/// the offset just past the CRLF; `None` if the buffer holds no full line
/// yet.
fn parse_line<'a>(buf: &'a [u8], pos: usize) -> (r: Result<Option<(&'a str, usize)>, ParseError>)
    ensures
        match crlf_from(buf@, pos as int) {
            None => r matches Ok(None),
            Some(c) => if valid_utf8(buf@.subrange(pos as int, c)) {
                r matches Ok(Some((s, e))) && s.spec_bytes() == buf@.subrange(pos as int, c) && e == c + 2
            } else {
                r matches Err(ParseError::Protocol(m)) && m@ == "invalid utf8 in line"@
            },
        },
{
    proof {
        lemma_crlf_from(buf@, pos as int);
    }
    match find_crlf(buf, pos) {
        None => Ok(None),
        Some(crlf) => {
            let len = buf.len();
            proof {
                assert(crlf_at(buf@, crlf as int));
                assert(crlf + 2 <= len);
            }
            let raw = vstd::slice::slice_subrange(buf, pos, crlf);
            match str_from_utf8(raw) {
                None => Err(protocol_error("invalid utf8 in line")),
                Some(s) => Ok(Some((s, crlf + 2))),
            }
        },
    }
}

/// The value of a `+`, `-`, `:` or `$` line with text `s`, whose CRLF ends
/// just before byte `next` of `buf`.
fn line_frame<'a>(buf: &'a [u8], t: u8, s: &'a str, next: usize) -> (r: Result<ParseOutcome<'a>, ParseError>)
    requires
        t == PLUS || t == MINUS || t == COLON || t == DOLLAR,
        next <= buf@.len(),
    ensures
        outcome_is(r, line_value(buf@, t, s.spec_bytes(), next as int)),
        r matches Ok(ParseOutcome::Complete { consumed, .. }) ==> next <= consumed <= buf@.len(),
{
    proof {
        vstd::utf8::encode_utf8_decode_utf8(s@);
    }
    if t == PLUS {
        return Ok(ParseOutcome::Complete { value: RespValue::Simple(s), consumed: next });
    }
    if t == MINUS {
        return Ok(ParseOutcome::Complete { value: RespValue::Error(s), consumed: next });
    }
    let n = parse_i64(s.as_bytes());
    if t == COLON {
        return match n {
            Some(v) => Ok(ParseOutcome::Complete { value: RespValue::Integer(v), consumed: next }),
            None => Err(ParseError::Protocol(concat("invalid integer: ", s))),
        };
    }
    match n {
        None => Err(ParseError::Protocol(concat("invalid bulk length: ", s))),
        Some(len) => {
            if len == -1 {
                return Ok(ParseOutcome::Complete { value: RespValue::NullBulk, consumed: next });
            }
            if len < 0 {
                return Err(protocol_error("negative bulk length"));
            }
            let remaining = buf.len() - next;
            if (len as u64) > (remaining as u64) || (remaining as u64) - (len as u64) < 2 {
                return Ok(ParseOutcome::Incomplete);
            }
            let data_end = next + (len as usize);
            if buf[data_end] != CR || buf[data_end + 1] != LF {
                return Err(protocol_error("bulk string missing trailing CRLF"));
            }
            let data = vstd::slice::slice_subrange(buf, next, data_end);
            Ok(ParseOutcome::Complete { value: RespValue::Bulk(data), consumed: data_end + 2 })
        },
    }
}

/// An inline command: the line from `pos` up to a CRLF, split at white
/// space into bulk strings.
fn inline_frame<'a>(buf: &'a [u8], pos: usize) -> (r: Result<ParseOutcome<'a>, ParseError>)
    requires
        pos < buf@.len(),
    ensures
        outcome_is(
            r,
            match crlf_from(buf@, pos as int) {
                None => Parsed::Incomplete,
                Some(c) => if !valid_utf8(buf@.subrange(pos as int, c)) {
                    Parsed::Failed("invalid utf8 in inline command"@)
                } else {
                    Parsed::Complete(Frame::Array(inline_frames(decode_utf8(buf@.subrange(pos as int, c)))), c + 2)
                },
            },
        ),
        r matches Ok(ParseOutcome::Complete { consumed, .. }) ==> pos < consumed <= buf@.len(),
{
    proof {
        lemma_crlf_from(buf@, pos as int);
    }
    match find_crlf(buf, pos) {
        None => Ok(ParseOutcome::Incomplete),
        Some(crlf) => {
            let len = buf.len();
            proof {
                assert(crlf_at(buf@, crlf as int));
                assert(crlf + 2 <= len);
            }
            let raw = vstd::slice::slice_subrange(buf, pos, crlf);
            match str_from_utf8(raw) {
                None => Err(protocol_error("invalid utf8 in inline command")),
                Some(line) => {
                    let toks = split_whitespace(line);
                    let ghost want = inline_frames(decode_utf8(raw@));
                    proof {
                        vstd::utf8::encode_utf8_decode_utf8(line@);
                        assert(decode_utf8(raw@) == line@);
                        assert(want.len() == toks@.len()) by {
                            assert(toks@.map_values(|t: &'a str| t@).len() == toks@.len());
                        }
                    }
                    let mut items: Vec<RespValue<'a>> = Vec::new();
                    let mut i: usize = 0;
                    while i < toks.len()
                        invariant
                            i <= toks@.len(),
                            want.len() == toks@.len(),
                            want == inline_frames(line@),
                            toks@.map_values(|t: &'a str| t@) == whitespace_tokens(line@),
                            frames_of(items@) == want.subrange(0, i as int),
                            items@.len() == i,
                        decreases toks@.len() - i,
                    {
                        let tok = toks[i];
                        let b = tok.as_bytes();
                        let ghost before = items@;
                        items.push(RespValue::Bulk(b));
                        proof {
                            assert(items@.subrange(0, items@.len() - 1) =~= before);
                            assert(frames_of(items@) == frames_of(before).push(frame_of(RespValue::Bulk(b))));
                            assert(frame_of(RespValue::Bulk(b)) == Frame::Bulk(encode_utf8(tok@)));
                            assert(toks@.map_values(|t: &'a str| t@)[i as int] == tok@);
                            assert(whitespace_tokens(line@)[i as int] == tok@);
                            assert(want[i as int] == Frame::Bulk(encode_utf8(tok@)));
                            assert(frames_of(items@) =~= want.subrange(0, i + 1));
                        }
                        i = i + 1;
                    }
                    proof {
                        assert(want.subrange(0, want.len() as int) =~= want);
                    }
                    Ok(ParseOutcome::Complete { value: RespValue::Array(items), consumed: crlf + 2 })
                },
            }
        },
    }
}

/// Parses one RESP value starting at byte `pos`.
fn parse_value<'a>(buf: &'a [u8], pos: usize) -> (r: Result<ParseOutcome<'a>, ParseError>)
    ensures
        outcome_is(r, parse_at(buf@, pos as int)),
        r matches Ok(ParseOutcome::Complete { consumed, .. }) ==> pos < consumed <= buf@.len(),
    decreases buf@.len() - pos,
{
    if pos >= buf.len() {
        return Ok(ParseOutcome::Incomplete);
    }
    let t = buf[pos];
    if !(t == PLUS || t == MINUS || t == COLON || t == DOLLAR || t == ASTERISK) {
        return inline_frame(buf, pos);
    }
    proof {
        lemma_crlf_from(buf@, pos + 1);
    }
    let (s, next) = match parse_line(buf, pos + 1) {
        Err(e) => {
            return Err(e);
        },
        Ok(None) => {
            return Ok(ParseOutcome::Incomplete);
        },
        Ok(Some(x)) => x,
    };
    if t != ASTERISK {
        return line_frame(buf, t, s, next);
    }
    proof {
        vstd::utf8::encode_utf8_decode_utf8(s@);
    }
    let count = match parse_i64(s.as_bytes()) {
        None => {
            return Err(ParseError::Protocol(concat("invalid array length: ", s)));
        },
        Some(c) => c,
    };
    if count == -1 {
        return Ok(ParseOutcome::Complete { value: RespValue::NullArray, consumed: next });
    }
    if count < 0 {
        return Err(protocol_error("negative array length"));
    }
    let mut items: Vec<RespValue<'a>> = Vec::new();
    let mut cursor = next;
    let mut k: i64 = 0;
    proof {
        assert(frames_of(items@) =~= Seq::<Frame>::empty());
        assert(after_items(Seq::empty(), parse_items(buf@, next as int, count as int)) == parse_items(
            buf@,
            next as int,
            count as int,
        )) by {
            match parse_items(buf@, next as int, count as int) {
                ItemsParsed::Complete(gs, end) => {
                    assert(Seq::<Frame>::empty() + gs =~= gs);
                },
                _ => {},
            }
        }
    }
    proof {
        assert(parse_at(buf@, pos as int) == array_parsed(parse_items(buf@, next as int, count as int)));
    }
    while k < count
        invariant
            parse_at(buf@, pos as int) == array_parsed(parse_items(buf@, next as int, count as int)),
            pos < next <= cursor <= buf@.len(),
            0 <= k <= count,
            parse_items(buf@, next as int, count as int) == after_items(
                frames_of(items@),
                parse_items(buf@, cursor as int, count - k),
            ),
        decreases count - k,
    {
        let ghost fs = frames_of(items@);
        match parse_value(buf, cursor) {
            Err(e) => {
                return Err(e);
            },
            Ok(ParseOutcome::Incomplete) => {
                return Ok(ParseOutcome::Incomplete);
            },
            Ok(ParseOutcome::Complete { value, consumed }) => {
                let ghost f = frame_of(value);
                let ghost before = items@;
                items.push(value);
                proof {
                    assert(items@.subrange(0, items@.len() - 1) =~= before);
                    assert(frames_of(items@) == fs.push(f));
                    let rest = parse_items(buf@, consumed as int, count - k - 1);
                    assert(parse_items(buf@, cursor as int, count - k) == after_items(seq![f], rest));
                    match rest {
                        ItemsParsed::Complete(gs, end) => {
                            assert(fs + (seq![f] + gs) =~= fs.push(f) + gs);
                        },
                        _ => {},
                    }
                }
                cursor = consumed;
            },
        }
        k = k + 1;
    }
    proof {
        assert(frames_of(items@) + Seq::<Frame>::empty() =~= frames_of(items@));
    }
    Ok(ParseOutcome::Complete { value: RespValue::Array(items), consumed: cursor })
}

/// Parses one RESP value from the front of `buf`. Returns `Incomplete` if
/// `buf` doesn't yet contain a full frame (the caller should read more and
/// try again) rather than an error, since frames can arrive split across
/// reads.
pub fn parse<'a>(buf: &'a [u8]) -> (r: Result<ParseOutcome<'a>, ParseError>)
    ensures
        outcome_is(r, parse_at(buf@, 0)),
        r matches Ok(ParseOutcome::Complete { consumed, .. }) ==> 0 < consumed <= buf@.len(),
{
    parse_value(buf, 0)
}

/// Every frame is a bulk string.
pub open spec fn all_bulk(fs: Seq<Frame>) -> bool {
    forall|i: int| 0 <= i < fs.len() ==> #[trigger] fs[i] is Bulk
}

/// The bytes of bulk-string frames.
pub open spec fn bulk_contents(fs: Seq<Frame>) -> Seq<Seq<u8>> {
    fs.map_values(
        |f: Frame|
            match f {
                Frame::Bulk(b) => b,
                _ => Seq::empty(),
            },
    )
}

/// The bytes of a list of byte slices.
pub open spec fn slices_view(args: Seq<&[u8]>) -> Seq<Seq<u8>> {
    args.map_values(|a: &[u8]| a@)
}

/// The arguments of the command that frame `f` holds: the bytes of its
/// items when it is an array of bulk strings, else the error message.
pub open spec fn command_of(f: Frame) -> Result<Seq<Seq<u8>>, Seq<char>> {
    match f {
        Frame::Array(fs) => if all_bulk(fs) {
            Ok(bulk_contents(fs))
        } else {
            Err("command arguments must be bulk strings"@)
        },
        _ => Err("expected array command"@),
    }
}

/// `frames_of` maps each value to its frame.
pub proof fn lemma_frames_of(s: Seq<RespValue>)
    ensures
        frames_of(s).len() == s.len(),
        forall|i: int| 0 <= i < s.len() ==> #[trigger] frames_of(s)[i] == frame_of(s[i]),
    decreases s.len(),
{
    if s.len() > 0 {
        lemma_frames_of(s.subrange(0, s.len() - 1));
    }
}

/// A parsed client command: the array-of-bulk-strings shape every RESP
/// client command takes.
pub fn as_command<'a>(value: &RespValue<'a>) -> (r: Result<Vec<&'a [u8]>, ParseError>)
    ensures
        match command_of(frame_of(*value)) {
            Ok(args) => r matches Ok(v) && slices_view(v@) == args,
            Err(m) => r matches Err(ParseError::Protocol(s)) && s@ == m,
        },
{
    match value {
        RespValue::Array(items) => {
            let ghost fs = frames_of(items@);
            proof {
                lemma_frames_of(items@);
            }
            let mut out: Vec<&'a [u8]> = Vec::new();
            let mut i: usize = 0;
            while i < items.len()
                invariant
                    fs == frames_of(items@),
                    frame_of(*value) == Frame::Array(fs),
                    fs.len() == items@.len(),
                    forall|j: int| 0 <= j < items@.len() ==> #[trigger] fs[j] == frame_of(items@[j]),
                    i <= items@.len(),
                    forall|j: int| 0 <= j < i ==> #[trigger] fs[j] is Bulk,
                    slices_view(out@) == bulk_contents(fs).subrange(0, i as int),
                decreases items@.len() - i,
            {
                match &items[i] {
                    RespValue::Bulk(b) => {
                        let ghost before = out@;
                        out.push(*b);
                        proof {
                            assert(fs[i as int] == Frame::Bulk(b@));
                            assert(bulk_contents(fs)[i as int] == b@);
                            assert(slices_view(out@) == slices_view(before).push(b@)) by {
                                assert(slices_view(out@) =~= slices_view(before).push(b@));
                            }
                            assert(slices_view(out@) =~= bulk_contents(fs).subrange(0, i + 1));
                        }
                    },
                    _ => {
                        proof {
                            assert(!(fs[i as int] is Bulk));
                        }
                        return Err(protocol_error("command arguments must be bulk strings"));
                    },
                }
                i = i + 1;
            }
            proof {
                assert(bulk_contents(fs).subrange(0, fs.len() as int) =~= bulk_contents(fs));
            }
            Ok(out)
        },
        _ => Err(protocol_error("expected array command")),
    }
}

/// CRLF.
pub open spec fn crlf() -> Seq<u8> {
    seq![CR, LF]
}

/// The encoding of a simple string.
pub open spec fn simple_bytes(s: Seq<u8>) -> Seq<u8> {
    seq![PLUS] + s + crlf()
}

/// The encoding of an error string.
pub open spec fn error_bytes(s: Seq<u8>) -> Seq<u8> {
    seq![MINUS] + s + crlf()
}

/// The encoding of an integer.
pub open spec fn integer_bytes(n: int) -> Seq<u8> {
    seq![COLON] + signed_decimal(n) + crlf()
}

/// The encoding of a bulk string.
pub open spec fn bulk_bytes(d: Seq<u8>) -> Seq<u8> {
    seq![DOLLAR] + decimal(d.len()) + crlf() + d + crlf()
}

/// The encoding of the null bulk string.
pub open spec fn null_bulk_bytes() -> Seq<u8> {
    seq![DOLLAR, MINUS, (ZERO + 1) as u8, CR, LF]
}

/// The header of an array of `n` items.
pub open spec fn array_header_bytes(n: nat) -> Seq<u8> {
    seq![ASTERISK] + decimal(n) + crlf()
}

/// The encodings of bulk strings, one after another.
pub open spec fn bulks_bytes(items: Seq<Seq<u8>>) -> Seq<u8>
    decreases items.len(),
{
    if items.len() == 0 {
        Seq::empty()
    } else {
        bulks_bytes(items.drop_last()) + bulk_bytes(items.last())
    }
}

/// The encoding of an array of bulk strings.
pub open spec fn array_of_bulk_bytes(items: Seq<Seq<u8>>) -> Seq<u8> {
    array_header_bytes(items.len()) + bulks_bytes(items)
}

/// The bytes of a list of byte vectors.
pub open spec fn vecs_view(items: Seq<Vec<u8>>) -> Seq<Seq<u8>> {
    items.map_values(|v: Vec<u8>| v@)
}

/// Appends the bytes `b` to `out`.
fn push_bytes(out: &mut Vec<u8>, b: &[u8])
    ensures
        final(out)@ == old(out)@ + b@,
{
    out.extend_from_slice(b);
    proof {
        assert(out@ =~= old(out)@ + b@);
    }
}

/// Appends CRLF to `out`.
fn push_crlf(out: &mut Vec<u8>)
    ensures
        final(out)@ == old(out)@ + crlf(),
{
    out.push(CR);
    out.push(LF);
    proof {
        assert(out@ =~= old(out)@ + crlf());
    }
}

/// Encoders of RESP replies.
pub struct RespWriter;

impl RespWriter {
    /// Appends a simple string: `+`, the text, CRLF.
    pub fn simple(out: &mut Vec<u8>, s: &str)
        ensures
            final(out)@ == old(out)@ + simple_bytes(s.spec_bytes()),
    {
        out.push(PLUS);
        push_bytes(out, s.as_bytes());
        push_crlf(out);
        proof {
            assert(out@ =~= old(out)@ + simple_bytes(s.spec_bytes()));
        }
    }

    /// Appends an error: `-`, the text, CRLF.
    pub fn error(out: &mut Vec<u8>, s: &str)
        ensures
            final(out)@ == old(out)@ + error_bytes(s.spec_bytes()),
    {
        out.push(MINUS);
        push_bytes(out, s.as_bytes());
        push_crlf(out);
        proof {
            assert(out@ =~= old(out)@ + error_bytes(s.spec_bytes()));
        }
    }

    /// Appends an integer: `:`, its decimal text, CRLF.
    pub fn integer(out: &mut Vec<u8>, n: i64)
        ensures
            final(out)@ == old(out)@ + integer_bytes(n as int),
    {
        out.push(COLON);
        push_signed_decimal(out, n);
        push_crlf(out);
        proof {
            assert(out@ =~= old(out)@ + integer_bytes(n as int));
        }
    }

    /// Appends a bulk string: `$`, its length, CRLF, the bytes, CRLF.
    pub fn bulk(out: &mut Vec<u8>, data: &[u8])
        ensures
            final(out)@ == old(out)@ + bulk_bytes(data@),
    {
        out.push(DOLLAR);
        push_decimal(out, data.len() as u64);
        push_crlf(out);
        push_bytes(out, data);
        push_crlf(out);
        proof {
            assert(out@ =~= old(out)@ + bulk_bytes(data@));
        }
    }

    /// Appends the null bulk string `$-1` and CRLF.
    pub fn null_bulk(out: &mut Vec<u8>)
        ensures
            final(out)@ == old(out)@ + null_bulk_bytes(),
    {
        out.push(DOLLAR);
        out.push(MINUS);
        out.push(ZERO + 1);
        push_crlf(out);
        proof {
            assert(out@ =~= old(out)@ + null_bulk_bytes());
        }
    }

    /// Appends an array header: `*`, the number of items, CRLF.
    pub fn array_header(out: &mut Vec<u8>, len: usize)
        ensures
            final(out)@ == old(out)@ + array_header_bytes(len as nat),
    {
        out.push(ASTERISK);
        push_decimal(out, len as u64);
        push_crlf(out);
        proof {
            assert(out@ =~= old(out)@ + array_header_bytes(len as nat));
        }
    }

    /// Appends an array of bulk strings: its header, then each item.
    pub fn array_of_bulk(out: &mut Vec<u8>, items: &[Vec<u8>])
        ensures
            final(out)@ == old(out)@ + array_of_bulk_bytes(vecs_view(items@)),
    {
        Self::array_header(out, items.len());
        let ghost start = out@;
        let ghost all = vecs_view(items@);
        let mut i: usize = 0;
        proof {
            assert(all.subrange(0, 0) =~= Seq::<Seq<u8>>::empty());
            assert(start + bulks_bytes(all.subrange(0, 0)) =~= start);
        }
        while i < items.len()
            invariant
                all == vecs_view(items@),
                i <= items@.len(),
                out@ == start + bulks_bytes(all.subrange(0, i as int)),
            decreases items@.len() - i,
        {
            Self::bulk(out, items[i].as_slice());
            proof {
                let p = all.subrange(0, i + 1);
                assert(p.drop_last() =~= all.subrange(0, i as int));
                assert(p.last() == items@[i as int]@);
                assert(out@ =~= start + bulks_bytes(p));
            }
            i = i + 1;
        }
        proof {
            assert(all.subrange(0, all.len() as int) =~= all);
            assert(out@ =~= old(out)@ + array_of_bulk_bytes(all));
        }
    }
}

} // verus!
