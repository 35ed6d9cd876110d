//! Redis-style glob matching on bytes: `*`, `?`, `[abc]`, `[^abc]`, `[a-z]`
//! character ranges, and `\` escaping.
use vstd::prelude::*;

verus! {

/// `*`: any run of bytes.
pub const STAR: u8 = 0x2a;

/// `?`: any one byte.
pub const QUESTION: u8 = 0x3f;

/// `[`: opens a character class.
pub const OPEN: u8 = 0x5b;

/// `]`: closes a character class.
pub const CLOSE: u8 = 0x5d;

/// `^`: negates a class when first in it.
pub const CARET: u8 = 0x5e;

/// `\`: takes the next byte literally.
pub const BACKSLASH: u8 = 0x5c;

/// `-`: a range inside a class.
pub const DASH: u8 = 0x2d;

/// Scans the items of a character class body `p` (after `[` and an optional
/// `^`) for byte `ch`: whether some item holds `ch`, and how many pattern
/// bytes the body takes, its closing `]` included. An unterminated class
/// takes the rest of the pattern.
pub open spec fn class_scan(p: Seq<u8>, ch: u8) -> (bool, nat)
    decreases p.len(),
{
    if p.len() == 0 {
        (false, 0)
    } else if p[0] == CLOSE {
        (false, 1)
    } else if p[0] == BACKSLASH && p.len() > 1 {
        let r = class_scan(p.skip(2), ch);
        (p[1] == ch || r.0, r.1 + 2)
    } else if p.len() > 2 && p[1] == DASH && p[2] != CLOSE {
        let r = class_scan(p.skip(3), ch);
        ((p[0] <= ch && ch <= p[2]) || r.0, r.1 + 3)
    } else {
        let r = class_scan(p.skip(1), ch);
        (p[0] == ch || r.0, r.1 + 1)
    }
}

/// Whether the class whose text follows `[` in `p` admits `ch` (a leading
/// `^` negates it), and how many pattern bytes the class takes after `[`.
pub open spec fn class_match(p: Seq<u8>, ch: u8) -> (bool, nat) {
    let negate = p.len() > 0 && p[0] == CARET;
    let r = class_scan(if negate { p.skip(1) } else { p }, ch);
    (r.0 != negate, r.1 + if negate { 1nat } else { 0nat })
}

/// A class never takes more pattern bytes than there are.
pub proof fn lemma_class_scan_len(p: Seq<u8>, ch: u8)
    ensures
        class_scan(p, ch).1 <= p.len(),
    decreases p.len(),
{
    if p.len() == 0 {
    } else if p[0] == CLOSE {
    } else if p[0] == BACKSLASH && p.len() > 1 {
        lemma_class_scan_len(p.skip(2), ch);
    } else if p.len() > 2 && p[1] == DASH && p[2] != CLOSE {
        lemma_class_scan_len(p.skip(3), ch);
    } else {
        lemma_class_scan_len(p.skip(1), ch);
    }
}

/// A class, negated or not, never takes more pattern bytes than there are.
pub proof fn lemma_class_match_len(p: Seq<u8>, ch: u8)
    ensures
        class_match(p, ch).1 <= p.len(),
{
    if p.len() > 0 && p[0] == CARET {
        lemma_class_scan_len(p.skip(1), ch);
    } else {
        lemma_class_scan_len(p, ch);
    }
}

/// Text `t` matches glob pattern `p`: `*` matches any run of bytes, `?` any
/// one byte, a class one byte it admits, `\x` the byte `x`, and any other
/// byte itself.
pub open spec fn glob_matches(p: Seq<u8>, t: Seq<u8>) -> bool
    decreases p.len(), 0int,
{
    if p.len() == 0 {
        t.len() == 0
    } else if p[0] == STAR {
        star_matches(p.skip(1), t, 0)
    } else if p[0] == QUESTION {
        t.len() > 0 && glob_matches(p.skip(1), t.skip(1))
    } else if p[0] == OPEN {
        &&& t.len() > 0
        &&& class_match(p.skip(1), t[0]).0
        &&& 1 + class_match(p.skip(1), t[0]).1 <= p.len()
        &&& glob_matches(p.skip(1 + class_match(p.skip(1), t[0]).1 as int), t.skip(1))
    } else if p[0] == BACKSLASH && p.len() > 1 {
        t.len() > 0 && t[0] == p[1] && glob_matches(p.skip(2), t.skip(1))
    } else {
        t.len() > 0 && t[0] == p[0] && glob_matches(p.skip(1), t.skip(1))
    }
}

/// The rest `q` of a pattern after a `*` matches the text `t` from some
/// byte `j >= i` on.
pub open spec fn star_matches(q: Seq<u8>, t: Seq<u8>, i: int) -> bool
    decreases q.len(), t.len() + 1 - i,
{
    if i < 0 || i > t.len() {
        false
    } else {
        glob_matches(q, t.skip(i)) || star_matches(q, t, i + 1)
    }
}

/// A `*` matches when the rest matches some suffix of the text.
pub proof fn lemma_star_matches(q: Seq<u8>, t: Seq<u8>, i: int)
    requires
        0 <= i <= t.len(),
    ensures
        star_matches(q, t, i) <==> exists|j: int| i <= j <= t.len() && #[trigger] glob_matches(q, t.skip(j)),
    decreases t.len() - i,
{
    assert(star_matches(q, t, i) == (glob_matches(q, t.skip(i)) || star_matches(q, t, i + 1)));
    if i < t.len() {
        lemma_star_matches(q, t, i + 1);
    } else {
        assert(!star_matches(q, t, i + 1));
    }
    if glob_matches(q, t.skip(i)) {
        assert(exists|j: int| i <= j <= t.len() && #[trigger] glob_matches(q, t.skip(j)));
    }
}

/// Two stars in a row match as one.
proof fn lemma_star_collapse(p: Seq<u8>, t: Seq<u8>)
    requires
        p.len() > 1,
        p[0] == STAR,
        p[1] == STAR,
    ensures
        glob_matches(p, t) == glob_matches(p.skip(1), t),
{
    let q = p.skip(1);
    let q2 = q.skip(1);
    assert(q2 =~= p.skip(2));
    lemma_star_matches(q, t, 0);
    lemma_star_matches(q2, t, 0);
    if glob_matches(q, t) {
        assert(t.skip(0) =~= t);
        assert(glob_matches(q, t.skip(0)));
    }
    if glob_matches(p, t) {
        let i = choose|i: int| 0 <= i <= t.len() && #[trigger] glob_matches(q, t.skip(i));
        lemma_star_matches(q2, t.skip(i), 0);
        let j = choose|j: int| 0 <= j <= t.skip(i).len() && #[trigger] glob_matches(q2, t.skip(i).skip(j));
        assert(t.skip(i).skip(j) =~= t.skip(i + j));
        assert(glob_matches(q2, t.skip(i + j)));
    }
}

/// Whether `text` matches the glob `pattern`.
pub fn glob_match(pattern: &[u8], text: &[u8]) -> (r: bool)
    ensures
        r == glob_matches(pattern@, text@),
{
    proof {
        assert(pattern@.skip(0) =~= pattern@);
        assert(text@.skip(0) =~= text@);
    }
    match_inner(pattern, text, 0, 0)
}

/// Matches the pattern from byte `pstart` on against the text from byte
/// `tstart` on.
fn match_inner(pattern: &[u8], text: &[u8], pstart: usize, tstart: usize) -> (r: bool)
    requires
        pstart <= pattern@.len(),
        tstart <= text@.len(),
    ensures
        r == glob_matches(pattern@.skip(pstart as int), text@.skip(tstart as int)),
    decreases pattern@.len() - pstart,
{
    let ghost goal = glob_matches(pattern@.skip(pstart as int), text@.skip(tstart as int));
    let mut pi = pstart;
    let mut ti = tstart;
    while pi < pattern.len()
        invariant
            pstart <= pi <= pattern@.len(),
            tstart <= ti <= text@.len(),
            goal == glob_matches(pattern@.skip(pi as int), text@.skip(ti as int)),
            goal == glob_matches(pattern@.skip(pstart as int), text@.skip(tstart as int)),
        decreases pattern@.len() - pi,
    {
        let ghost p = pattern@.skip(pi as int);
        let ghost t = text@.skip(ti as int);
        let pc = pattern[pi];
        if pc == STAR {
            pi = pi + 1;
            while pi < pattern.len() && pattern[pi] == STAR
                invariant
                    pstart < pi <= pattern@.len(),
                    tstart <= ti <= text@.len(),
                    pattern@[pi - 1] == STAR,
                    goal == glob_matches(pattern@.skip(pi - 1), text@.skip(ti as int)),
                    goal == glob_matches(pattern@.skip(pstart as int), text@.skip(tstart as int)),
                decreases pattern@.len() - pi,
            {
                proof {
                    lemma_star_collapse(pattern@.skip(pi - 1), text@.skip(ti as int));
                    assert(pattern@.skip(pi - 1).skip(1) =~= pattern@.skip(pi as int));
                }
                pi = pi + 1;
            }
            let ghost rest = pattern@.skip(pi as int);
            let ghost tt = text@.skip(ti as int);
            proof {
                assert(pattern@.skip(pi - 1).skip(1) =~= rest);
            }
            if pi == pattern.len() {
                proof {
                    lemma_star_matches(rest, tt, 0);
                    assert(rest.len() == 0);
                    assert(tt.skip(tt.len() as int).len() == 0);
                    assert(glob_matches(rest, tt.skip(tt.len() as int)));
                }
                return true;
            }
            let mut i = ti;
            loop
                invariant
                    pstart < pi < pattern@.len(),
                    ti <= i <= text@.len(),
                    rest == pattern@.skip(pi as int),
                    tt == text@.skip(ti as int),
                    goal == star_matches(rest, tt, i - ti),
                    goal == glob_matches(pattern@.skip(pstart as int), text@.skip(tstart as int)),
                decreases text@.len() - i,
            {
                proof {
                    assert(tt.skip(i - ti) =~= text@.skip(i as int));
                }
                if match_inner(pattern, text, pi, i) {
                    return true;
                }
                if i == text.len() {
                    proof {
                        assert(!star_matches(rest, tt, i - ti + 1));
                    }
                    return false;
                }
                i = i + 1;
            }
        } else if pc == QUESTION {
            if ti >= text.len() {
                return false;
            }
            proof {
                assert(p.skip(1) =~= pattern@.skip(pi + 1));
                assert(t.skip(1) =~= text@.skip(ti + 1));
            }
            pi = pi + 1;
            ti = ti + 1;
        } else if pc == OPEN {
            if ti >= text.len() {
                return false;
            }
            let (matched, next) = match_class(pattern, pi + 1, text[ti]);
            if !matched {
                proof {
                    assert(p.skip(1) =~= pattern@.skip(pi + 1));
                }
                return false;
            }
            proof {
                assert(p.skip(1) =~= pattern@.skip(pi + 1));
                lemma_class_match_len(p.skip(1), t[0]);
                assert(p.skip(1 + class_match(p.skip(1), t[0]).1 as int) =~= pattern@.skip(next as int));
                assert(t.skip(1) =~= text@.skip(ti + 1));
            }
            pi = next;
            ti = ti + 1;
        } else if pc == BACKSLASH && pattern.len() - pi > 1 {
            if ti >= text.len() || text[ti] != pattern[pi + 1] {
                return false;
            }
            proof {
                assert(p.skip(2) =~= pattern@.skip(pi + 2));
                assert(t.skip(1) =~= text@.skip(ti + 1));
            }
            pi = pi + 2;
            ti = ti + 1;
        } else {
            if ti >= text.len() || text[ti] != pc {
                return false;
            }
            proof {
                assert(p.skip(1) =~= pattern@.skip(pi + 1));
                assert(t.skip(1) =~= text@.skip(ti + 1));
            }
            pi = pi + 1;
            ti = ti + 1;
        }
    }
    proof {
        assert(pattern@.skip(pi as int).len() == 0);
    }
    ti == text.len()
}

/// Reads the class whose text starts at byte `start` of `pattern` (just
/// after its `[`) against byte `ch`. Returns whether the class admits `ch`
/// and where the pattern continues after the class.
fn match_class(pattern: &[u8], start: usize, ch: u8) -> (res: (bool, usize))
    requires
        start <= pattern@.len(),
    ensures
        res.0 == class_match(pattern@.skip(start as int), ch).0,
        res.1 == start + class_match(pattern@.skip(start as int), ch).1,
        res.1 <= pattern@.len(),
{
    let mut pi = start;
    let negate = pi < pattern.len() && pattern[pi] == CARET;
    if negate {
        pi = pi + 1;
    }
    proof {
        if negate {
            assert(pattern@.skip(start as int).skip(1) =~= pattern@.skip(pi as int));
        }
    }
    let ghost q0 = pi;
    let mut found = false;
    loop
        invariant_except_break
            class_scan(pattern@.skip(q0 as int), ch).0 == (found || class_scan(pattern@.skip(pi as int), ch).0),
            class_scan(pattern@.skip(q0 as int), ch).1 == (pi - q0) + class_scan(pattern@.skip(pi as int), ch).1,
        invariant
            q0 <= pi <= pattern@.len(),
        ensures
            q0 <= pi <= pattern@.len(),
            class_scan(pattern@.skip(q0 as int), ch) == (found, (pi - q0) as nat),
        decreases pattern@.len() - pi,
    {
        let ghost p = pattern@.skip(pi as int);
        if pi >= pattern.len() {
            proof {
                assert(p.len() == 0);
            }
            break;
        }
        let c = pattern[pi];
        if c == CLOSE {
            pi = pi + 1;
            break;
        }
        if c == BACKSLASH && pattern.len() - pi > 1 {
            if pattern[pi + 1] == ch {
                found = true;
            }
            proof {
                assert(p.skip(2) =~= pattern@.skip(pi + 2));
            }
            pi = pi + 2;
        } else if pattern.len() - pi > 2 && pattern[pi + 1] == DASH && pattern[pi + 2] != CLOSE {
            if c <= ch && ch <= pattern[pi + 2] {
                found = true;
            }
            proof {
                assert(p.skip(3) =~= pattern@.skip(pi + 3));
            }
            pi = pi + 3;
        } else {
            if c == ch {
                found = true;
            }
            proof {
                assert(p.skip(1) =~= pattern@.skip(pi + 1));
            }
            pi = pi + 1;
        }
    }
    (found != negate, pi)
}

/// A class holding one range `[lo-hi]` matches a one-byte text exactly when
/// its byte lies between `lo` and `hi`, both included.
pub proof fn lemma_range_class(lo: u8, hi: u8, ch: u8)
    requires
        lo != CLOSE,
        lo != BACKSLASH,
        lo != CARET,
        hi != CLOSE,
    ensures
        glob_matches(seq![OPEN, lo, DASH, hi, CLOSE], seq![ch]) <==> lo <= ch <= hi,
{
    let p = seq![OPEN, lo, DASH, hi, CLOSE];
    let t = seq![ch];
    let body = p.skip(1);
    assert(body =~= seq![lo, DASH, hi, CLOSE]);
    assert(body.skip(3) =~= seq![CLOSE]);
    assert(class_scan(body.skip(3), ch) == (false, 1nat));
    assert(class_scan(body, ch) == (lo <= ch && ch <= hi, 4nat));
    assert(class_match(body, ch) == (lo <= ch && ch <= hi, 4nat));
    assert(p.skip(5) =~= Seq::<u8>::empty());
    assert(t.skip(1) =~= Seq::<u8>::empty());
    assert(glob_matches(p.skip(5), t.skip(1)));
    assert(t[0] == ch);
}

/// A negated range `[^lo-hi]` matches a one-byte text exactly when its byte
/// lies outside `lo..=hi`.
pub proof fn lemma_negated_range_class(lo: u8, hi: u8, ch: u8)
    requires
        lo != CLOSE,
        lo != BACKSLASH,
        hi != CLOSE,
    ensures
        glob_matches(seq![OPEN, CARET, lo, DASH, hi, CLOSE], seq![ch]) <==> !(lo <= ch <= hi),
{
    let p = seq![OPEN, CARET, lo, DASH, hi, CLOSE];
    let t = seq![ch];
    let body = p.skip(1);
    assert(body =~= seq![CARET, lo, DASH, hi, CLOSE]);
    assert(body.skip(1) =~= seq![lo, DASH, hi, CLOSE]);
    assert(body.skip(1).skip(3) =~= seq![CLOSE]);
    assert(class_scan(body.skip(1).skip(3), ch) == (false, 1nat));
    assert(class_scan(body.skip(1), ch) == (lo <= ch && ch <= hi, 4nat));
    assert(class_match(body, ch) == (!(lo <= ch && ch <= hi), 5nat));
    assert(p.skip(6) =~= Seq::<u8>::empty());
    assert(t.skip(1) =~= Seq::<u8>::empty());
    assert(glob_matches(p.skip(6), t.skip(1)));
    assert(t[0] == ch);
}

/// A class of one byte `[c]` matches a one-byte text exactly when that
/// byte is `c`.
pub proof fn lemma_single_class(c: u8, ch: u8)
    requires
        c != CLOSE,
        c != BACKSLASH,
        c != CARET,
    ensures
        glob_matches(seq![OPEN, c, CLOSE], seq![ch]) <==> ch == c,
{
    let p = seq![OPEN, c, CLOSE];
    let t = seq![ch];
    let body = p.skip(1);
    assert(body =~= seq![c, CLOSE]);
    assert(body.skip(1) =~= seq![CLOSE]);
    assert(class_scan(body.skip(1), ch) == (false, 1nat));
    assert(class_scan(body, ch) == (c == ch, 2nat));
    assert(p.skip(3) =~= Seq::<u8>::empty());
    assert(t.skip(1) =~= Seq::<u8>::empty());
    assert(glob_matches(p.skip(3), t.skip(1)));
    assert(t[0] == ch);
}

/// `*` alone matches every text.
pub proof fn lemma_star_all(t: Seq<u8>)
    ensures
        glob_matches(seq![STAR], t),
{
    let p = seq![STAR];
    assert(p.skip(1) =~= Seq::<u8>::empty());
    lemma_star_matches(p.skip(1), t, 0);
    assert(t.skip(t.len() as int) =~= Seq::<u8>::empty());
    assert(glob_matches(p.skip(1), t.skip(t.len() as int)));
}

/// `?` alone matches exactly the texts of one byte.
pub proof fn lemma_question_one(t: Seq<u8>)
    ensures
        glob_matches(seq![QUESTION], t) <==> t.len() == 1,
{
    let p = seq![QUESTION];
    assert(p.skip(1) =~= Seq::<u8>::empty());
    if t.len() > 0 {
        assert(glob_matches(p.skip(1), t.skip(1)) == (t.skip(1).len() == 0));
    }
}

/// A byte without a special meaning matches exactly itself.
pub proof fn lemma_literal(c: u8, t: Seq<u8>)
    requires
        c != STAR,
        c != QUESTION,
        c != OPEN,
        c != BACKSLASH,
    ensures
        glob_matches(seq![c], t) <==> t == seq![c],
{
    let p = seq![c];
    assert(p.skip(1) =~= Seq::<u8>::empty());
    if t.len() > 0 {
        assert(glob_matches(p.skip(1), t.skip(1)) == (t.skip(1).len() == 0));
    }
    if t.len() == 1 && t[0] == c {
        assert(t =~= seq![c]);
    }
    if t == seq![c] {
        assert(t.skip(1) =~= Seq::<u8>::empty());
    }
}

/// `\c` matches exactly the byte `c`, whatever `c` is.
pub proof fn lemma_escape(c: u8, t: Seq<u8>)
    ensures
        glob_matches(seq![BACKSLASH, c], t) <==> t == seq![c],
{
    let p = seq![BACKSLASH, c];
    assert(p.skip(2) =~= Seq::<u8>::empty());
    if t.len() > 0 {
        assert(glob_matches(p.skip(2), t.skip(1)) == (t.skip(1).len() == 0));
    }
    if t.len() == 1 && t[0] == c {
        assert(t =~= seq![c]);
    }
    if t == seq![c] {
        assert(t.skip(1) =~= Seq::<u8>::empty());
    }
}

/// Bytes without a special meaning followed by `*` match exactly the texts
/// that start with those bytes.
pub proof fn lemma_prefix_star(s: Seq<u8>, t: Seq<u8>)
    requires
        forall|i: int|
            0 <= i < s.len() ==> #[trigger] s[i] != STAR && s[i] != QUESTION && s[i] != OPEN && s[i] != BACKSLASH,
    ensures
        glob_matches(s.push(STAR), t) <==> (s.len() <= t.len() && t.subrange(0, s.len() as int) == s),
    decreases s.len(),
{
    let p = s.push(STAR);
    if s.len() == 0 {
        assert(p =~= seq![STAR]);
        lemma_star_all(t);
        assert(t.subrange(0, 0) =~= s);
    } else {
        let s1 = s.skip(1);
        assert forall|i: int| 0 <= i < s1.len() implies #[trigger] s1[i] != STAR && s1[i] != QUESTION && s1[i]
            != OPEN && s1[i] != BACKSLASH by {
            assert(s1[i] == s[i + 1]);
        }
        assert(p.skip(1) =~= s1.push(STAR));
        assert(p[0] == s[0]);
        if t.len() > 0 {
            lemma_prefix_star(s1, t.skip(1));
            if s.len() <= t.len() {
                if t.subrange(0, s.len() as int) == s {
                    assert(t.skip(1).subrange(0, s1.len() as int) =~= s1) by {
                        assert forall|i: int| 0 <= i < s1.len() implies t.skip(1).subrange(0, s1.len() as int)[i]
                            == s1[i] by {
                            assert(t[i + 1] == t.subrange(0, s.len() as int)[i + 1]);
                        }
                    }
                    assert(t[0] == t.subrange(0, s.len() as int)[0]);
                }
                if t[0] == s[0] && t.skip(1).subrange(0, s1.len() as int) == s1 {
                    assert(t.subrange(0, s.len() as int) =~= s) by {
                        assert forall|i: int| 0 <= i < s.len() implies t.subrange(0, s.len() as int)[i] == s[i] by {
                            if i > 0 {
                                assert(t.skip(1).subrange(0, s1.len() as int)[i - 1] == s1[i - 1]);
                            }
                        }
                    }
                }
            }
        }
    }
}

} // verus!
