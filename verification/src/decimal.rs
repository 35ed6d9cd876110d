//! Decimal text of integers: formatting, and parsing with the rules of
//! `i64`'s `FromStr` (an optional `+` or `-`, then one or more ASCII
//! digits, within range).
use vstd::prelude::*;

verus! {

/// `0`.
pub const ZERO: u8 = 0x30;

/// `-`.
pub const MINUS: u8 = 0x2d;

/// `+`.
pub const PLUS: u8 = 0x2b;

/// An ASCII digit.
pub open spec fn is_digit(b: u8) -> bool {
    ZERO <= b <= ZERO + 9
}

/// Every byte is an ASCII digit.
pub open spec fn all_digits(d: Seq<u8>) -> bool {
    forall|i: int| 0 <= i < d.len() ==> is_digit(#[trigger] d[i])
}

/// The number written by the digits `d`.
pub open spec fn digits_value(d: Seq<u8>) -> nat
    decreases d.len(),
{
    if d.len() == 0 {
        0
    } else {
        digits_value(d.drop_last()) * 10 + (d.last() - ZERO) as nat
    }
}

/// The decimal digits of `n`, without leading zeros.
pub open spec fn decimal(n: nat) -> Seq<u8>
    decreases n,
{
    if n < 10 {
        seq![(ZERO + n) as u8]
    } else {
        decimal(n / 10).push((ZERO + n % 10) as u8)
    }
}

/// The decimal text of `n`: a `-` before the digits of a negative number.
pub open spec fn signed_decimal(n: int) -> Seq<u8> {
    if n < 0 {
        seq![MINUS] + decimal((-n) as nat)
    } else {
        decimal(n as nat)
    }
}

/// The `i64` that the text `b` denotes, if any: an optional sign, then at
/// least one digit, and a value in the range of `i64`.
pub open spec fn int_value(b: Seq<u8>) -> Option<int> {
    if b.len() > 0 && b[0] == MINUS {
        let d = b.skip(1);
        if d.len() > 0 && all_digits(d) && digits_value(d) <= 0x8000_0000_0000_0000 {
            Some(-digits_value(d))
        } else {
            None
        }
    } else {
        let d = if b.len() > 0 && b[0] == PLUS {
            b.skip(1)
        } else {
            b
        };
        if d.len() > 0 && all_digits(d) && digits_value(d) <= 0x7fff_ffff_ffff_ffff {
            Some(digits_value(d) as int)
        } else {
            None
        }
    }
}

/// The digits of `n` are digits, and denote `n`.
pub proof fn lemma_decimal(n: nat)
    ensures
        decimal(n).len() > 0,
        all_digits(decimal(n)),
        digits_value(decimal(n)) == n,
    decreases n,
{
    if n >= 10 {
        lemma_decimal(n / 10);
        let d = decimal(n);
        assert(d.drop_last() =~= decimal(n / 10));
        assert(d.last() == ZERO + n % 10);
        assert(digits_value(d) == digits_value(d.drop_last()) * 10 + (d.last() - ZERO) as nat);
        assert((n / 10) * 10 + n % 10 == n) by (nonlinear_arith);
    } else {
        assert(decimal(n).drop_last() =~= Seq::<u8>::empty());
        assert(digits_value(Seq::<u8>::empty()) == 0);
    }
}

/// Decimal text reads back as the number it was made from.
pub proof fn lemma_signed_decimal(n: int)
    requires
        i64::MIN <= n <= i64::MAX,
    ensures
        int_value(signed_decimal(n)) == Some(n),
        all_digits(signed_decimal(n).skip(if n < 0 { 1int } else { 0int })),
{
    if n < 0 {
        lemma_decimal((-n) as nat);
        assert((seq![MINUS] + decimal((-n) as nat)).skip(1) =~= decimal((-n) as nat));
    } else {
        lemma_decimal(n as nat);
        assert(decimal(n as nat).skip(0) =~= decimal(n as nat));
    }
}

/// A longer run of digits is worth at least as much.
pub proof fn lemma_digits_prefix(d: Seq<u8>, i: int)
    requires
        0 <= i <= d.len(),
        all_digits(d),
    ensures
        digits_value(d.subrange(0, i)) <= digits_value(d),
    decreases d.len() - i,
{
    if i < d.len() {
        lemma_digits_prefix(d, i + 1);
        let p = d.subrange(0, i + 1);
        assert(p.drop_last() =~= d.subrange(0, i));
        assert(is_digit(d[i]));
    } else {
        assert(d.subrange(0, i) =~= d);
    }
}

/// Appends the decimal digits of `n` to `out`.
pub fn push_decimal(out: &mut Vec<u8>, n: u64)
    ensures
        final(out)@ == old(out)@ + decimal(n as nat),
    decreases n,
{
    if n >= 10 {
        push_decimal(out, n / 10);
    }
    out.push(ZERO + (n % 10) as u8);
    proof {
        if n >= 10 {
            assert(old(out)@ + decimal(n as nat) =~= old(out)@ + decimal((n / 10) as nat) + seq![(ZERO + n % 10) as u8]);
        }
    }
}

/// Appends the decimal text of `n` (with a `-` when negative) to `out`.
pub fn push_signed_decimal(out: &mut Vec<u8>, n: i64)
    ensures
        final(out)@ == old(out)@ + signed_decimal(n as int),
{
    if n < 0 {
        out.push(MINUS);
        let m: u64 = ((-(n + 1)) as u64) + 1;
        push_decimal(out, m);
        proof {
            assert(old(out)@ + signed_decimal(n as int) =~= old(out)@.push(MINUS) + decimal(m as nat));
        }
    } else {
        push_decimal(out, n as u64);
    }
}

/// Parses `b` as the text of an `i64`; `None` where it is not one.
pub fn parse_i64(b: &[u8]) -> (r: Option<i64>)
    ensures
        r is Some <==> int_value(b@) is Some,
        r matches Some(v) ==> int_value(b@) == Some(v as int),
{
    let neg = b.len() > 0 && b[0] == MINUS;
    let start: usize = if neg || (b.len() > 0 && b[0] == PLUS) {
        1
    } else {
        0
    };
    let limit: u64 = if neg {
        0x8000_0000_0000_0000
    } else {
        0x7fff_ffff_ffff_ffff
    };
    let ghost d = b@.skip(start as int);
    proof {
        assert(d.subrange(0, 0) =~= Seq::<u8>::empty());
        if start == 0 {
            assert(d =~= b@);
        }
    }
    if start == b.len() {
        return None;
    }
    let mut acc: u64 = 0;
    let mut i: usize = start;
    while i < b.len()
        invariant
            start <= i <= b@.len(),
            neg == (b@.len() > 0 && b@[0] == MINUS),
            start == (if neg || (b@.len() > 0 && b@[0] == PLUS) { 1usize } else { 0usize }),
            d == b@.skip(start as int),
            start == 0 ==> d == b@,
            d.len() > 0,
            limit == if neg { 0x8000_0000_0000_0000u64 } else { 0x7fff_ffff_ffff_ffffu64 },
            all_digits(d.subrange(0, i - start)),
            acc == digits_value(d.subrange(0, i - start)),
            acc <= limit,
        decreases b@.len() - i,
    {
        let c = b[i];
        let ghost pre = d.subrange(0, i - start);
        let ghost next = d.subrange(0, i - start + 1);
        proof {
            assert(next.drop_last() =~= pre);
            assert(next.last() == c);
        }
        if c < ZERO || c > ZERO + 9 {
            proof {
                assert(!is_digit(d[i - start]));
            }
            return None;
        }
        let dig: u64 = (c - ZERO) as u64;
        if acc > (limit - dig) / 10 {
            proof {
                assert(acc * 10 + dig > limit) by (nonlinear_arith)
                    requires
                        acc > (limit - dig) / 10,
                        dig <= 9,
                        dig <= limit,
                ;
                assert(all_digits(next));
                if all_digits(d) {
                    lemma_digits_prefix(d, i - start + 1);
                }
            }
            return None;
        }
        proof {
            assert(acc * 10 + dig <= limit) by (nonlinear_arith)
                requires
                    acc <= (limit - dig) / 10,
                    dig <= 9,
                    dig <= limit,
            ;
        }
        acc = acc * 10 + dig;
        i = i + 1;
    }
    proof {
        assert(d.subrange(0, d.len() as int) =~= d);
    }
    if neg {
        if acc == 0x8000_0000_0000_0000 {
            Some(i64::MIN)
        } else {
            Some(-(acc as i64))
        }
    } else {
        Some(acc as i64)
    }
}

} // verus!
