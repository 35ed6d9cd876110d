//! Laws of the parser alone: a complete frame is decided by its own bytes.
use crate::decimal::{int_value, MINUS, PLUS};
use crate::protocol::{
    crlf_at, crlf_from, lemma_crlf_from, line_value, parse_at, parse_items, ItemsParsed, Parsed, ASTERISK, COLON,
    DOLLAR,
};
use crate::resp_laws::lemma_crlf_found;
use vstd::prelude::*;

verus! {

/// `a` and `b` both have at least `n` bytes, and their first `n` agree.
pub open spec fn agree(a: Seq<u8>, b: Seq<u8>, n: int) -> bool {
    &&& n <= a.len()
    &&& n <= b.len()
    &&& forall|i: int| 0 <= i < n ==> #[trigger] a[i] == b[i]
}

/// The first CRLF from `s` on, when it ends within the agreeing bytes, is
/// found at the same place in both buffers.
proof fn lemma_crlf_agree(buf: Seq<u8>, buf2: Seq<u8>, s: int, c: int, n: int)
    requires
        0 <= s,
        crlf_from(buf, s) == Some(c),
        c + 2 <= n,
        agree(buf, buf2, n),
    ensures
        crlf_from(buf2, s) == Some(c),
{
    lemma_crlf_from(buf, s);
    assert forall|j: int| s <= j < c implies !#[trigger] crlf_at(buf2, j) by {
        assert(buf[j] == buf2[j]);
        assert(buf[j + 1] == buf2[j + 1]);
        assert(!crlf_at(buf, j));
    }
    assert(buf[c] == buf2[c]);
    assert(buf[c + 1] == buf2[c + 1]);
    lemma_crlf_found(buf2, s, c);
}

/// A frame read complete at `p` ends after `p` and within the buffer.
pub proof fn lemma_parse_bounds(buf: Seq<u8>, p: int)
    ensures
        parse_at(buf, p) matches Parsed::Complete(_, n) ==> p < n <= buf.len(),
    decreases buf.len() - p, 0int, 0int,
{
    if 0 <= p < buf.len() {
        let t = buf[p];
        if t == PLUS || t == MINUS || t == COLON || t == DOLLAR || t == ASTERISK {
            lemma_crlf_from(buf, p + 1);
            match crlf_from(buf, p + 1) {
                Some(c) => {
                    let line = buf.subrange(p + 1, c);
                    if t == ASTERISK {
                        match int_value(line) {
                            Some(k) => if k >= 0 {
                                lemma_items_bounds(buf, c + 2, k);
                            },
                            None => {},
                        }
                    }
                },
                None => {},
            }
        } else {
            lemma_crlf_from(buf, p);
        }
    }
}

/// Array items read complete from `cur` end at or after `cur`, and within
/// the buffer when there is at least one.
pub proof fn lemma_items_bounds(buf: Seq<u8>, cur: int, k: int)
    ensures
        parse_items(buf, cur, k) matches ItemsParsed::Complete(_, end) ==> cur <= end && (k > 0 ==> end
            <= buf.len()),
    decreases buf.len() - cur, 1int, k,
{
    if k > 0 {
        match parse_at(buf, cur) {
            Parsed::Complete(_, next) => if cur < next <= buf.len() {
                lemma_items_bounds(buf, next, k - 1);
            },
            _ => {},
        }
    }
}

/// A frame read complete at `p`, ending at `n`, is read the same from any
/// buffer whose first `n` bytes are those of `buf`.
pub proof fn lemma_parse_agree(buf: Seq<u8>, buf2: Seq<u8>, p: int)
    requires
        parse_at(buf, p) matches Parsed::Complete(_, n) && agree(buf, buf2, n),
    ensures
        parse_at(buf2, p) == parse_at(buf, p),
        parse_at(buf, p) matches Parsed::Complete(_, n) && p < n <= buf.len(),
    decreases buf.len() - p, 0int, 0int,
{
    let n = match parse_at(buf, p) {
        Parsed::Complete(_, n) => n,
        _ => 0,
    };
    assert(0 <= p < buf.len());
    let t = buf[p];
    if t == PLUS || t == MINUS || t == COLON || t == DOLLAR || t == ASTERISK {
        lemma_crlf_from(buf, p + 1);
        let c = match crlf_from(buf, p + 1) {
            Some(c) => c,
            None => 0,
        };
        let line = buf.subrange(p + 1, c);
        let next = c + 2;
        if t == ASTERISK {
            match int_value(line) {
                Some(k) => if k >= 0 {
                    lemma_items_agree(buf, buf2, next, k);
                },
                None => {},
            }
        }
        assert(next <= n);
        assert(buf2[p] == buf[p]);
        lemma_crlf_agree(buf, buf2, p + 1, c, n);
        assert(buf2.subrange(p + 1, c) =~= line);
        if t != ASTERISK && t == DOLLAR {
            match int_value(line) {
                Some(k) => if k >= 0 {
                    assert(buf[next + k] == buf2[next + k]);
                    assert(buf[next + k + 1] == buf2[next + k + 1]);
                    assert(buf2.subrange(next, next + k) =~= buf.subrange(next, next + k));
                },
                None => {},
            }
            assert(line_value(buf2, t, line, next) == line_value(buf, t, line, next));
        }
    } else {
        lemma_crlf_from(buf, p);
        let c = match crlf_from(buf, p) {
            Some(c) => c,
            None => 0,
        };
        assert(buf2[p] == buf[p]);
        lemma_crlf_agree(buf, buf2, p, c, n);
        assert(buf2.subrange(p, c) =~= buf.subrange(p, c));
    }
}

/// Array items read complete from `cur`, ending at `end`, are read the same
/// from any buffer whose first `end` bytes are those of `buf`.
pub proof fn lemma_items_agree(buf: Seq<u8>, buf2: Seq<u8>, cur: int, k: int)
    requires
        parse_items(buf, cur, k) matches ItemsParsed::Complete(_, end) && agree(buf, buf2, end),
    ensures
        parse_items(buf2, cur, k) == parse_items(buf, cur, k),
        parse_items(buf, cur, k) matches ItemsParsed::Complete(_, end) && cur <= end,
    decreases buf.len() - cur, 1int, k,
{
    if k > 0 {
        let next = match parse_at(buf, cur) {
            Parsed::Complete(_, next) => next,
            _ => 0,
        };
        assert(cur < next <= buf.len());
        lemma_items_agree(buf, buf2, next, k - 1);
        lemma_parse_agree(buf, buf2, cur);
    }
}

/// No CRLF starts from `s` on within the first `m` bytes of `buf`, and
/// `buf2` holds just those bytes: it has no CRLF from `s` on.
proof fn lemma_no_crlf_cut(buf: Seq<u8>, buf2: Seq<u8>, s: int, c: int, m: int)
    requires
        0 <= s,
        crlf_from(buf, s) == Some(c),
        m < c + 2,
        buf2.len() == m,
        agree(buf, buf2, m),
    ensures
        crlf_from(buf2, s) is None,
{
    lemma_crlf_from(buf, s);
    lemma_crlf_from(buf2, s);
    if crlf_from(buf2, s) is Some {
        let c2 = crlf_from(buf2, s)->0;
        assert(crlf_at(buf2, c2));
        assert(buf[c2] == buf2[c2]);
        assert(buf[c2 + 1] == buf2[c2 + 1]);
        assert(crlf_at(buf, c2));
    }
}

/// A frame read complete at `p`, ending at `n`, is still incomplete in a
/// buffer that holds only its first `m < n` bytes.
pub proof fn lemma_parse_cut(buf: Seq<u8>, buf2: Seq<u8>, p: int, m: int)
    requires
        parse_at(buf, p) matches Parsed::Complete(_, n) && m < n,
        0 <= m,
        buf2.len() == m,
        agree(buf, buf2, m),
    ensures
        parse_at(buf2, p) is Incomplete,
    decreases buf.len() - p, 0int, 0int,
{
    lemma_parse_bounds(buf, p);
    if p < m {
        let n = match parse_at(buf, p) {
            Parsed::Complete(_, n) => n,
            _ => 0,
        };
        let t = buf[p];
        assert(buf2[p] == t);
        if t == PLUS || t == MINUS || t == COLON || t == DOLLAR || t == ASTERISK {
            lemma_crlf_from(buf, p + 1);
            let c = match crlf_from(buf, p + 1) {
                Some(c) => c,
                None => 0,
            };
            let line = buf.subrange(p + 1, c);
            let next = c + 2;
            if m < c + 2 {
                lemma_no_crlf_cut(buf, buf2, p + 1, c, m);
            } else {
                lemma_crlf_agree(buf, buf2, p + 1, c, m);
                assert(buf2.subrange(p + 1, c) =~= line);
                if t == ASTERISK {
                    match int_value(line) {
                        Some(k) => if k >= 0 {
                            lemma_items_cut(buf, buf2, next, k, m);
                        },
                        None => {},
                    }
                }
            }
        } else {
            lemma_crlf_from(buf, p);
            let c = match crlf_from(buf, p) {
                Some(c) => c,
                None => 0,
            };
            lemma_no_crlf_cut(buf, buf2, p, c, m);
        }
    }
}

/// Array items read complete from `cur`, ending at `end`, are still
/// incomplete in a buffer that holds only the first `m` bytes, `cur <= m <
/// end`.
pub proof fn lemma_items_cut(buf: Seq<u8>, buf2: Seq<u8>, cur: int, k: int, m: int)
    requires
        parse_items(buf, cur, k) matches ItemsParsed::Complete(_, end) && m < end,
        0 <= cur <= m,
        buf2.len() == m,
        agree(buf, buf2, m),
    ensures
        parse_items(buf2, cur, k) is Incomplete,
    decreases buf.len() - cur, 1int, k,
{
    if k > 0 {
        let next = match parse_at(buf, cur) {
            Parsed::Complete(_, next) => next,
            _ => 0,
        };
        assert(cur < next <= buf.len());
        if m < next {
            lemma_parse_cut(buf, buf2, cur, m);
        } else {
            lemma_parse_agree(buf, buf2, cur);
            lemma_items_cut(buf, buf2, next, k - 1, m);
        }
    }
}

/// Once a frame is complete at the front of `buf`, ending at `n`: every
/// shorter prefix of it is still incomplete, and the frame's bytes followed
/// by anything read as the same frame.
pub proof fn lemma_frame_complete(buf: Seq<u8>, extra: Seq<u8>)
    requires
        parse_at(buf, 0) is Complete,
    ensures
        parse_at(buf, 0) matches Parsed::Complete(_, n) && {
            &&& 0 < n <= buf.len()
            &&& parse_at(buf.take(n) + extra, 0) == parse_at(buf, 0)
            &&& forall|m: int| 0 <= m < n ==> #[trigger] parse_at(buf.take(m), 0) is Incomplete
        },
{
    lemma_parse_bounds(buf, 0);
    let n = match parse_at(buf, 0) {
        Parsed::Complete(_, n) => n,
        _ => 0,
    };
    let b2 = buf.take(n) + extra;
    assert(agree(buf, b2, n)) by {
        assert forall|i: int| 0 <= i < n implies #[trigger] buf[i] == b2[i] by {
            assert(b2[i] == buf.take(n)[i]);
        }
    }
    lemma_parse_agree(buf, b2, 0);
    assert forall|m: int| 0 <= m < n implies #[trigger] parse_at(buf.take(m), 0) is Incomplete by {
        let b3 = buf.take(m);
        assert(agree(buf, b3, m));
        lemma_parse_cut(buf, b3, 0, m);
    }
}

/// `r` with its end position moved by `d`.
pub open spec fn shift_parsed(r: Parsed, d: int) -> Parsed {
    match r {
        Parsed::Complete(f, n) => Parsed::Complete(f, n + d),
        Parsed::Incomplete => Parsed::Incomplete,
        Parsed::Failed(m) => Parsed::Failed(m),
    }
}

/// `r` with its end position moved by `d`.
pub open spec fn shift_items(r: ItemsParsed, d: int) -> ItemsParsed {
    match r {
        ItemsParsed::Complete(fs, n) => ItemsParsed::Complete(fs, n + d),
        ItemsParsed::Incomplete => ItemsParsed::Incomplete,
        ItemsParsed::Failed(m) => ItemsParsed::Failed(m),
    }
}

/// The first CRLF from `s` on in what follows byte `p` is the first from
/// `p + s` on in the whole buffer, moved by `p`.
proof fn lemma_crlf_shift(buf: Seq<u8>, p: int, s: int)
    requires
        0 <= p <= buf.len(),
        0 <= s,
    ensures
        match crlf_from(buf.skip(p), s) {
            Some(c) => crlf_from(buf, p + s) == Some(c + p),
            None => crlf_from(buf, p + s) is None,
        },
    decreases buf.len() - p - s,
{
    let b = buf.skip(p);
    if s + 1 < b.len() {
        assert(b[s] == buf[p + s]);
        assert(b[s + 1] == buf[p + s + 1]);
        if !crlf_at(b, s) {
            lemma_crlf_shift(buf, p, s + 1);
            assert(p + (s + 1) == p + s + 1);
        }
    }
}

/// Parsing from byte `p + q` is parsing from `q` in what follows byte `p`,
/// with positions moved by `p`.
proof fn lemma_parse_shift(buf: Seq<u8>, p: int, q: int)
    requires
        0 <= p <= buf.len(),
        0 <= q,
    ensures
        parse_at(buf, p + q) == shift_parsed(parse_at(buf.skip(p), q), p),
    decreases buf.len() - (p + q), 0int, 0int,
{
    let b = buf.skip(p);
    if p + q < buf.len() {
        let t = b[q];
        assert(t == buf[p + q]);
        if t == PLUS || t == MINUS || t == COLON || t == DOLLAR || t == ASTERISK {
            lemma_crlf_shift(buf, p, q + 1);
            lemma_crlf_from(b, q + 1);
            match crlf_from(b, q + 1) {
                Some(c) => {
                    let line = b.subrange(q + 1, c);
                    assert(buf.subrange(p + q + 1, c + p) =~= line);
                    let next = c + 2;
                    if t == ASTERISK {
                        match int_value(line) {
                            Some(k) => if k >= 0 {
                                lemma_items_shift(buf, p, next, k);
                                assert(p + next == c + p + 2);
                            },
                            None => {},
                        }
                    } else if t == DOLLAR {
                        match int_value(line) {
                            Some(k) => if k >= 0 && b.len() >= next + k + 2 {
                                assert(b[next + k] == buf[p + next + k]);
                                assert(b[next + k + 1] == buf[p + next + k + 1]);
                                assert(buf.subrange(p + next, p + next + k) =~= b.subrange(next, next + k));
                            },
                            None => {},
                        }
                    }
                },
                None => {},
            }
        } else {
            lemma_crlf_shift(buf, p, q);
            lemma_crlf_from(b, q);
            match crlf_from(b, q) {
                Some(c) => {
                    assert(buf.subrange(p + q, c + p) =~= b.subrange(q, c));
                },
                None => {},
            }
        }
    }
}

/// Parsing items from byte `p + q` is parsing them from `q` in what follows
/// byte `p`, with positions moved by `p`.
proof fn lemma_items_shift(buf: Seq<u8>, p: int, q: int, k: int)
    requires
        0 <= p <= buf.len(),
        0 <= q,
    ensures
        parse_items(buf, p + q, k) == shift_items(parse_items(buf.skip(p), q, k), p),
    decreases buf.len() - (p + q), 1int, k,
{
    if k > 0 {
        let b = buf.skip(p);
        lemma_parse_shift(buf, p, q);
        match parse_at(b, q) {
            Parsed::Complete(f, next) => if q < next <= b.len() {
                lemma_items_shift(buf, p, next, k - 1);
                assert(p + next == next + p);
            },
            _ => {},
        }
    }
}

/// Parsing from byte `p` of `buf` is parsing what follows `p`: the same
/// frame, need for more bytes or error, with the end moved by `p`.
pub proof fn lemma_parse_offset(buf: Seq<u8>, p: int)
    requires
        0 <= p <= buf.len(),
    ensures
        parse_at(buf, p) == shift_parsed(parse_at(buf.skip(p), 0), p),
{
    lemma_parse_shift(buf, p, 0);
    assert(p + 0 == p);
}

} // verus!
