//! What the encoders of `RespWriter` write, the parser reads back.
use crate::decimal::{
    all_digits, decimal, int_value, is_digit, lemma_decimal, lemma_signed_decimal, signed_decimal, MINUS,
    PLUS, ZERO,
};
use crate::protocol::{
    array_header_bytes, array_of_bulk_bytes, bulk_bytes, bulk_contents, bulks_bytes, command_of, crlf,
    crlf_at, crlf_from, error_bytes, integer_bytes, line_value, null_bulk_bytes, parse_at, parse_items,
    simple_bytes, all_bulk, Frame, ItemsParsed, Parsed, ASTERISK, COLON, CR, DOLLAR, LF,
};
use vstd::prelude::*;
use vstd::utf8::{is_leading_byte_width_1, partial_valid_utf8, valid_utf8};

verus! {

/// The frames of bulk strings with the given bytes.
pub open spec fn bulk_frames(items: Seq<Seq<u8>>) -> Seq<Frame> {
    items.map_values(|b: Seq<u8>| Frame::Bulk(b))
}

/// No CRLF inside `s`.
pub open spec fn no_crlf(s: Seq<u8>) -> bool {
    forall|j: int| !#[trigger] crlf_at(s, j)
}

/// ASCII bytes are valid UTF-8.
proof fn lemma_ascii_valid(b: Seq<u8>)
    requires
        forall|i: int| 0 <= i < b.len() ==> #[trigger] b[i] < 0x80,
    ensures
        valid_utf8(b),
{
    assert forall|i: int| 0 <= 0 <= i < b.len() <= b.len() implies #[trigger] is_leading_byte_width_1(b[i]) by {
        assert(b[i] < 0x80);
    }
    assert(b.subrange(0, 0) =~= Seq::<u8>::empty());
    assert(partial_valid_utf8(b, 0));
    vstd::utf8::partial_valid_utf8_extend_ascii_block(b, 0, b.len() as int);
    assert(b.subrange(0, b.len() as int) =~= b);
}

/// The first CRLF from `s` on is at `c` when none starts before it.
pub proof fn lemma_crlf_found(buf: Seq<u8>, s: int, c: int)
    requires
        0 <= s <= c,
        crlf_at(buf, c),
        forall|j: int| s <= j < c ==> !#[trigger] crlf_at(buf, j),
    ensures
        crlf_from(buf, s) == Some(c),
    decreases c - s,
{
    if s < c {
        assert(!crlf_at(buf, s));
        lemma_crlf_found(buf, s + 1, c);
    }
}

/// A line made of the text `line` (no CRLF in it) right after its type byte
/// at `p`, followed by CRLF, reads as that line.
proof fn lemma_line_at(buf: Seq<u8>, p: int, line: Seq<u8>)
    requires
        0 <= p,
        p + 1 + line.len() + 2 <= buf.len(),
        buf.subrange(p + 1, p + 1 + line.len()) == line,
        no_crlf(line),
        forall|i: int| 0 <= i < line.len() - 1 ==> !(#[trigger] line[i] == CR && line[i + 1] == LF),
        buf[p + 1 + line.len()] == CR,
        buf[p + 2 + line.len()] == LF,
    ensures
        crlf_from(buf, p + 1) == Some(p + 1 + line.len()),
        buf.subrange(p + 1, p + 1 + line.len()) == line,
{
    let c = p + 1 + line.len();
    assert forall|j: int| p + 1 <= j < c implies !#[trigger] crlf_at(buf, j) by {
        assert(buf[j] == line[j - p - 1]);
        if j + 1 < c {
            assert(buf[j + 1] == line[j - p]);
            assert(!crlf_at(line, j - p - 1));
        } else {
            assert(buf[j + 1] == CR);
        }
    }
    lemma_crlf_found(buf, p + 1, c);
}

/// Digits hold no CR and are ASCII.
proof fn lemma_digits_line(d: Seq<u8>)
    requires
        all_digits(d),
    ensures
        no_crlf(d),
        forall|i: int| 0 <= i < d.len() - 1 ==> !(#[trigger] d[i] == CR && d[i + 1] == LF),
        valid_utf8(d),
{
    assert forall|j: int| !#[trigger] crlf_at(d, j) by {
        if 0 <= j < d.len() {
            assert(is_digit(d[j]));
        }
    }
    assert forall|i: int| 0 <= i < d.len() - 1 implies !(#[trigger] d[i] == CR && d[i + 1] == LF) by {
        assert(is_digit(d[i]));
    }
    assert forall|i: int| 0 <= i < d.len() implies #[trigger] d[i] < 0x80 by {
        assert(is_digit(d[i]));
    }
    lemma_ascii_valid(d);
}

/// A bulk string written at byte `p` parses back as that bulk string.
pub proof fn lemma_parse_bulk(buf: Seq<u8>, p: int, d: Seq<u8>)
    requires
        0 <= p,
        p + bulk_bytes(d).len() <= buf.len(),
        buf.subrange(p, p + bulk_bytes(d).len()) == bulk_bytes(d),
        d.len() <= i64::MAX,
    ensures
        parse_at(buf, p) == Parsed::Complete(Frame::Bulk(d), p + bulk_bytes(d).len()),
{
    let n = d.len();
    let line = decimal(n);
    let k = line.len() as int;
    let w = bulk_bytes(d);
    lemma_decimal(n);
    lemma_signed_decimal(n as int);
    lemma_digits_line(line);
    assert(w == seq![DOLLAR] + line + crlf() + d + crlf());
    assert(buf[p] == w[0]);
    assert forall|i: int| 0 <= i < k implies buf.subrange(p + 1, p + 1 + k)[i] == #[trigger] line[i] by {
        assert(buf[p + 1 + i] == w[1 + i]);
    }
    assert(buf.subrange(p + 1, p + 1 + k) =~= line);
    assert(buf[p + 1 + k] == w[1 + k]);
    assert(buf[p + 2 + k] == w[2 + k]);
    lemma_line_at(buf, p, line);
    let next = p + 1 + k + 2;
    assert(signed_decimal(n as int) == line);
    assert(int_value(line) == Some(n as int));
    assert forall|i: int| 0 <= i < n implies buf.subrange(next, next + n)[i] == #[trigger] d[i] by {
        assert(buf[next + i] == w[3 + k + i]);
    }
    assert(buf.subrange(next, next + n) =~= d);
    assert(buf[next + n] == w[3 + k + n]);
    assert(buf[next + n + 1] == w[4 + k + n]);
    assert(line_value(buf, DOLLAR, line, next) == Parsed::Complete(Frame::Bulk(d), next + n + 2));
}

/// The encodings of a first bulk string and the rest.
proof fn lemma_bulks_first(items: Seq<Seq<u8>>)
    requires
        items.len() > 0,
    ensures
        bulks_bytes(items) == bulk_bytes(items[0]) + bulks_bytes(items.skip(1)),
    decreases items.len(),
{
    if items.len() == 1 {
        assert(items.drop_last() =~= Seq::<Seq<u8>>::empty());
        assert(items.skip(1) =~= Seq::<Seq<u8>>::empty());
        assert(bulks_bytes(items) =~= bulk_bytes(items[0]) + bulks_bytes(items.skip(1)));
    } else {
        lemma_bulks_first(items.drop_last());
        assert(items.drop_last().skip(1) =~= items.skip(1).drop_last());
        assert(items.skip(1).last() == items.last());
        assert(bulks_bytes(items) =~= bulk_bytes(items[0]) + bulks_bytes(items.skip(1)));
    }
}

/// Bulk strings written one after another from byte `q` parse back as
/// those items.
pub proof fn lemma_parse_bulks(buf: Seq<u8>, q: int, items: Seq<Seq<u8>>)
    requires
        0 <= q,
        q + bulks_bytes(items).len() <= buf.len(),
        buf.subrange(q, q + bulks_bytes(items).len()) == bulks_bytes(items),
        forall|i: int| 0 <= i < items.len() ==> #[trigger] items[i].len() <= i64::MAX,
    ensures
        parse_items(buf, q, items.len() as int) == ItemsParsed::Complete(
            bulk_frames(items),
            q + bulks_bytes(items).len(),
        ),
    decreases items.len(),
{
    if items.len() == 0 {
        assert(bulk_frames(items) =~= Seq::<Frame>::empty());
    } else {
        let first = items[0];
        let rest = items.skip(1);
        lemma_bulks_first(items);
        let w1 = bulk_bytes(first);
        let wr = bulks_bytes(rest);
        let q2 = q + w1.len();
        assert forall|i: int| 0 <= i < w1.len() implies buf.subrange(q, q + w1.len())[i] == #[trigger] w1[i] by {
            assert(buf[q + i] == bulks_bytes(items)[i]);
        }
        assert(buf.subrange(q, q + w1.len()) =~= w1);
        lemma_parse_bulk(buf, q, first);
        assert forall|i: int| 0 <= i < wr.len() implies buf.subrange(q2, q2 + wr.len())[i] == #[trigger] wr[i] by {
            assert(buf[q2 + i] == bulks_bytes(items)[w1.len() + i]);
        }
        assert(buf.subrange(q2, q2 + wr.len()) =~= wr);
        assert forall|i: int| 0 <= i < rest.len() implies #[trigger] rest[i].len() <= i64::MAX by {
            assert(rest[i] == items[i + 1]);
        }
        lemma_parse_bulks(buf, q2, rest);
        assert(seq![Frame::Bulk(first)] + bulk_frames(rest) =~= bulk_frames(items));
    }
}

/// An array of bulk strings written at byte `p` parses back as the array
/// of those bulk strings.
pub proof fn lemma_parse_array_of_bulk(buf: Seq<u8>, p: int, items: Seq<Seq<u8>>)
    requires
        0 <= p,
        p + array_of_bulk_bytes(items).len() <= buf.len(),
        buf.subrange(p, p + array_of_bulk_bytes(items).len()) == array_of_bulk_bytes(items),
        items.len() <= i64::MAX,
        forall|i: int| 0 <= i < items.len() ==> #[trigger] items[i].len() <= i64::MAX,
    ensures
        parse_at(buf, p) == Parsed::Complete(Frame::Array(bulk_frames(items)), p + array_of_bulk_bytes(items).len()),
{
    let m = items.len();
    let line = decimal(m);
    let k = line.len() as int;
    let w = array_of_bulk_bytes(items);
    let h = array_header_bytes(m);
    lemma_decimal(m);
    lemma_signed_decimal(m as int);
    lemma_digits_line(line);
    assert(w == h + bulks_bytes(items));
    assert(h == seq![ASTERISK] + line + crlf());
    assert(buf[p] == w[0]);
    assert forall|i: int| 0 <= i < k implies buf.subrange(p + 1, p + 1 + k)[i] == #[trigger] line[i] by {
        assert(buf[p + 1 + i] == w[1 + i]);
    }
    assert(buf.subrange(p + 1, p + 1 + k) =~= line);
    assert(buf[p + 1 + k] == w[1 + k]);
    assert(buf[p + 2 + k] == w[2 + k]);
    lemma_line_at(buf, p, line);
    let next = p + 1 + k + 2;
    assert(signed_decimal(m as int) == line);
    let wb = bulks_bytes(items);
    assert forall|i: int| 0 <= i < wb.len() implies buf.subrange(next, next + wb.len())[i] == #[trigger] wb[i] by {
        assert(buf[next + i] == w[h.len() + i]);
    }
    assert(buf.subrange(next, next + wb.len()) =~= wb);
    lemma_parse_bulks(buf, next, items);
}

/// The items of an array of bulk strings are the arguments of a command.
pub proof fn lemma_command_of_bulks(items: Seq<Seq<u8>>)
    ensures
        command_of(Frame::Array(bulk_frames(items))) == Ok::<Seq<Seq<u8>>, Seq<char>>(items),
{
    assert(all_bulk(bulk_frames(items)));
    assert(bulk_contents(bulk_frames(items)) =~= items);
}

/// A command written as an array of bulk strings, followed by anything,
/// parses back to a complete frame of exactly its length whose command
/// arguments are the items written.
pub proof fn lemma_command_roundtrip(items: Seq<Seq<u8>>, rest: Seq<u8>)
    requires
        items.len() <= i64::MAX,
        forall|i: int| 0 <= i < items.len() ==> #[trigger] items[i].len() <= i64::MAX,
    ensures
        parse_at(array_of_bulk_bytes(items) + rest, 0) == Parsed::Complete(
            Frame::Array(bulk_frames(items)),
            array_of_bulk_bytes(items).len() as int,
        ),
        command_of(Frame::Array(bulk_frames(items))) == Ok::<Seq<Seq<u8>>, Seq<char>>(items),
{
    let buf = array_of_bulk_bytes(items) + rest;
    assert(buf.subrange(0, array_of_bulk_bytes(items).len() as int) =~= array_of_bulk_bytes(items));
    lemma_parse_array_of_bulk(buf, 0, items);
    lemma_command_of_bulks(items);
}

/// A bulk string followed by anything parses back to that bulk string.
pub proof fn lemma_bulk_roundtrip(d: Seq<u8>, rest: Seq<u8>)
    requires
        d.len() <= i64::MAX,
    ensures
        parse_at(bulk_bytes(d) + rest, 0) == Parsed::Complete(Frame::Bulk(d), bulk_bytes(d).len() as int),
{
    let buf = bulk_bytes(d) + rest;
    assert(buf.subrange(0, bulk_bytes(d).len() as int) =~= bulk_bytes(d));
    lemma_parse_bulk(buf, 0, d);
}

/// An integer followed by anything parses back to that integer.
pub proof fn lemma_integer_roundtrip(n: int, rest: Seq<u8>)
    requires
        i64::MIN <= n <= i64::MAX,
    ensures
        parse_at(integer_bytes(n) + rest, 0) == Parsed::Complete(Frame::Integer(n), integer_bytes(n).len() as int),
{
    let line = signed_decimal(n);
    let buf = integer_bytes(n) + rest;
    let w = integer_bytes(n);
    let k = line.len() as int;
    lemma_signed_decimal(n);
    let o: int = if n < 0 { 1 } else { 0 };
    let dg = line.skip(o);
    if n < 0 {
        assert(line == seq![MINUS] + decimal((-n) as nat));
        lemma_decimal((-n) as nat);
    } else {
        lemma_decimal(n as nat);
    }
    assert forall|j: int| !#[trigger] crlf_at(line, j) by {
        if 0 <= j < line.len() {
            if j >= o {
                assert(line[j] == dg[j - o]);
                assert(is_digit(dg[j - o]));
            }
        }
    }
    assert forall|i: int| 0 <= i < line.len() - 1 implies !(#[trigger] line[i] == CR && line[i + 1] == LF) by {
        assert(line[i + 1] == dg[i + 1 - o]);
        assert(is_digit(dg[i + 1 - o]));
    }
    assert forall|i: int| 0 <= i < line.len() implies #[trigger] line[i] < 0x80 by {
        if i >= o {
            assert(line[i] == dg[i - o]);
            assert(is_digit(dg[i - o]));
        }
    }
    lemma_ascii_valid(line);
    assert(w == seq![COLON] + line + crlf());
    assert(buf[0] == w[0]);
    assert forall|i: int| 0 <= i < k implies buf.subrange(1, 1 + k)[i] == #[trigger] line[i] by {
        assert(buf[1 + i] == w[1 + i]);
    }
    assert(buf.subrange(1, 1 + k) =~= line);
    assert(buf[1 + k] == w[1 + k]);
    assert(buf[2 + k] == w[2 + k]);
    lemma_line_at(buf, 0, line);
}

/// A simple string without CRLF in it, followed by anything, parses back
/// to that string.
pub proof fn lemma_simple_roundtrip(s: Seq<u8>, rest: Seq<u8>)
    requires
        valid_utf8(s),
        no_crlf(s),
    ensures
        parse_at(simple_bytes(s) + rest, 0) == Parsed::Complete(Frame::Simple(s), simple_bytes(s).len() as int),
{
    let buf = simple_bytes(s) + rest;
    let w = simple_bytes(s);
    let k = s.len() as int;
    assert(w == seq![PLUS] + s + crlf());
    assert(buf[0] == w[0]);
    assert forall|i: int| 0 <= i < k implies buf.subrange(1, 1 + k)[i] == #[trigger] s[i] by {
        assert(buf[1 + i] == w[1 + i]);
    }
    assert(buf.subrange(1, 1 + k) =~= s);
    assert(buf[1 + k] == w[1 + k]);
    assert(buf[2 + k] == w[2 + k]);
    assert forall|i: int| 0 <= i < s.len() - 1 implies !(#[trigger] s[i] == CR && s[i + 1] == LF) by {
        assert(!crlf_at(s, i));
    }
    lemma_line_at(buf, 0, s);
}

/// An error string without CRLF in it, followed by anything, parses back to
/// that error.
pub proof fn lemma_error_roundtrip(s: Seq<u8>, rest: Seq<u8>)
    requires
        valid_utf8(s),
        no_crlf(s),
    ensures
        parse_at(error_bytes(s) + rest, 0) == Parsed::Complete(Frame::Error(s), error_bytes(s).len() as int),
{
    let buf = error_bytes(s) + rest;
    let w = error_bytes(s);
    let k = s.len() as int;
    assert(w == seq![MINUS] + s + crlf());
    assert(buf[0] == w[0]);
    assert forall|i: int| 0 <= i < k implies buf.subrange(1, 1 + k)[i] == #[trigger] s[i] by {
        assert(buf[1 + i] == w[1 + i]);
    }
    assert(buf.subrange(1, 1 + k) =~= s);
    assert(buf[1 + k] == w[1 + k]);
    assert(buf[2 + k] == w[2 + k]);
    assert forall|i: int| 0 <= i < s.len() - 1 implies !(#[trigger] s[i] == CR && s[i + 1] == LF) by {
        assert(!crlf_at(s, i));
    }
    lemma_line_at(buf, 0, s);
}

/// The null bulk string, followed by anything, parses back to it.
pub proof fn lemma_null_bulk_roundtrip(rest: Seq<u8>)
    ensures
        parse_at(null_bulk_bytes() + rest, 0) == Parsed::Complete(Frame::NullBulk, 5),
{
    let buf = null_bulk_bytes() + rest;
    let line = seq![MINUS, (ZERO + 1) as u8];
    assert(buf[0] == DOLLAR);
    assert(buf.subrange(1, 3) =~= line);
    assert(buf[3] == CR && buf[4] == LF);
    assert(no_crlf(line));
    assert forall|i: int| 0 <= i < line.len() implies #[trigger] line[i] < 0x80 by {}
    lemma_ascii_valid(line);
    lemma_line_at(buf, 0, line);
    assert(line.skip(1) =~= seq![(ZERO + 1) as u8]);
    assert(line.skip(1).drop_last() =~= Seq::<u8>::empty());
    assert(line.skip(1).last() == 49u8);
    assert(crate::decimal::digits_value(Seq::<u8>::empty()) == 0);
    assert(crate::decimal::digits_value(line.skip(1)) == 1);
    assert(int_value(line) == Some(-1int));
}

} // verus!
