//! Decimal integers as they appear in header lines.
//!
//! A number on the wire is a run of ASCII digits, most significant first,
//! with an optional sign in front. This module states what such a run denotes,
//! reads and writes it, and proves that what is written is read back.

use vstd::prelude::*;

verus! {

/// ASCII `+`.
pub const PLUS: u8 = 0x2b;

/// ASCII `-`.
pub const MINUS: u8 = 0x2d;

/// ASCII `0`.
pub const ZERO: u8 = 0x30;

/// Whether `b` is one of the ASCII digits `0` to `9`.
pub open spec fn is_digit(b: u8) -> bool {
    0x30 <= b <= 0x39
}

/// Whether every byte of `s` is an ASCII digit.
pub open spec fn all_digits(s: Seq<u8>) -> bool {
    forall|i: int| 0 <= i < s.len() ==> is_digit(#[trigger] s[i])
}

/// The number that a run of digits denotes, most significant digit first.
pub open spec fn digits_value(s: Seq<u8>) -> nat
    decreases s.len(),
{
    if s.len() == 0 {
        0
    } else {
        digits_value(s.drop_last()) * 10 + (s.last() - 0x30) as nat
    }
}

/// The number that `s` denotes if it is a non-empty run of digits, and `None`
/// for anything else.
pub open spec fn magnitude(s: Seq<u8>) -> Option<nat> {
    if s.len() > 0 && all_digits(s) {
        Some(digits_value(s))
    } else {
        None
    }
}

/// `s` without one leading plus sign.
pub open spec fn without_plus(s: Seq<u8>) -> Seq<u8> {
    if s.len() > 0 && s[0] == PLUS {
        s.drop_first()
    } else {
        s
    }
}

/// The unsigned number that `s` denotes: an optional `+`, then one or more
/// digits whose value fits a `usize`. Anything else denotes nothing.
pub open spec fn usize_of(s: Seq<u8>) -> Option<usize> {
    match magnitude(without_plus(s)) {
        Some(n) => if n <= usize::MAX {
            Some(n as usize)
        } else {
            None
        },
        None => None,
    }
}

/// The signed number that `s` denotes: an optional `+` or `-`, then one or
/// more digits whose signed value fits an `i64`. Anything else denotes nothing.
pub open spec fn i64_of(s: Seq<u8>) -> Option<i64> {
    if s.len() > 0 && s[0] == MINUS {
        match magnitude(s.drop_first()) {
            Some(n) => if n <= 0x8000_0000_0000_0000 {
                Some((-(n as int)) as i64)
            } else {
                None
            },
            None => None,
        }
    } else {
        match magnitude(without_plus(s)) {
            Some(n) => if n <= i64::MAX {
                Some(n as i64)
            } else {
                None
            },
            None => None,
        }
    }
}

/// The digits of `n`, without leading zeros; zero is the single digit `0`.
pub open spec fn digits_of(n: nat) -> Seq<u8>
    decreases n,
{
    if n < 10 {
        seq![(0x30 + n) as u8]
    } else {
        digits_of(n / 10).push((0x30 + n % 10) as u8)
    }
}

/// The text of `i`: its digits, behind a `-` if it is negative.
pub open spec fn text_of(i: int) -> Seq<u8> {
    if i < 0 {
        seq![MINUS] + digits_of((-i) as nat)
    } else {
        digits_of(i as nat)
    }
}

/// A run of digits is worth at least as much as any of its prefixes.
pub proof fn lemma_prefix_value(s: Seq<u8>, k: int)
    requires
        0 <= k <= s.len(),
    ensures
        digits_value(s.take(k)) <= digits_value(s),
    decreases s.len() - k,
{
    if k == s.len() {
        assert(s.take(k) =~= s);
    } else {
        lemma_prefix_value(s.drop_last(), k);
        assert(s.drop_last().take(k) =~= s.take(k));
    }
}

/// The digits of a number are digits, there is at least one of them, and they
/// denote that number.
pub proof fn lemma_digits_of(n: nat)
    ensures
        digits_of(n).len() > 0,
        all_digits(digits_of(n)),
        digits_value(digits_of(n)) == n,
        magnitude(digits_of(n)) == Some(n),
    decreases n,
{
    if n < 10 {
        let s = digits_of(n);
        assert(s.drop_last() =~= Seq::<u8>::empty());
        assert(digits_value(s.drop_last()) == 0);
    } else {
        lemma_digits_of(n / 10);
        let s = digits_of(n);
        assert(s.drop_last() =~= digits_of(n / 10));
        assert forall|i: int| 0 <= i < s.len() implies is_digit(#[trigger] s[i]) by {
            if i < s.len() - 1 {
                assert(s[i] == digits_of(n / 10)[i]);
            }
        }
    }
}

/// The text of a number holds only digits and, in front, at most one `-`.
pub proof fn lemma_text_of_bytes(i: int)
    ensures
        text_of(i).len() > 0,
        forall|k: int|
            0 <= k < text_of(i).len() ==> is_digit(#[trigger] text_of(i)[k]) || (k == 0 && i < 0
                && text_of(i)[k] == MINUS),
        i >= 0 ==> is_digit(text_of(i)[0]),
{
    if i < 0 {
        lemma_digits_of((-i) as nat);
        let d = digits_of((-i) as nat);
        assert forall|k: int| 0 <= k < text_of(i).len() implies is_digit(#[trigger] text_of(i)[k])
            || (k == 0 && i < 0 && text_of(i)[k] == MINUS) by {
            if k > 0 {
                assert(text_of(i)[k] == d[k - 1]);
            }
        }
    } else {
        lemma_digits_of(i as nat);
    }
}

/// Reading the text of an `i64` gives that number back.
pub proof fn lemma_i64_round_trip(i: i64)
    ensures
        i64_of(text_of(i as int)) == Some(i),
{
    let t = text_of(i as int);
    if i < 0 {
        let n = (-(i as int)) as nat;
        lemma_digits_of(n);
        assert(t.drop_first() =~= digits_of(n));
        assert(t[0] == MINUS);
    } else {
        lemma_digits_of(i as nat);
        assert(is_digit(t[0]));
        assert(without_plus(t) == t);
    }
}

/// Reading the text of a `usize` gives that number back.
pub proof fn lemma_usize_round_trip(n: usize)
    ensures
        usize_of(text_of(n as int)) == Some(n),
{
    let t = text_of(n as int);
    lemma_digits_of(n as nat);
    assert(is_digit(t[0]));
    assert(without_plus(t) == t);
}

/// Reads `s[start..]` as a non-empty run of digits worth at most `limit`.
fn read_magnitude(s: &[u8], start: usize, limit: u64) -> (r: Option<u64>)
    requires
        start <= s@.len(),
    ensures
        r == match magnitude(s@.subrange(start as int, s@.len() as int)) {
            Some(n) => if n <= limit {
                Some(n as u64)
            } else {
                None
            },
            None => None,
        },
{
    let end: usize = s.len();
    let ghost run = s@.subrange(start as int, end as int);
    if start == end {
        return None;
    }
    let mut acc: u64 = 0;
    let mut i: usize = start;
    while i < end
        invariant
            start <= i <= end,
            end == s@.len(),
            run == s@.subrange(start as int, end as int),
            all_digits(run.take(i - start)),
            acc == digits_value(run.take(i - start)),
            acc <= limit,
        decreases end - i,
    {
        let b: u8 = s[i];
        if !(ZERO <= b && b <= 0x39) {
            assert(run[i - start] == b);
            return None;
        }
        let d: u64 = (b - ZERO) as u64;
        proof {
            let next = run.take(i - start + 1);
            assert(next.drop_last() =~= run.take(i - start));
            assert(next.last() == b);
            assert(digits_value(next) == acc * 10 + d);
            assert(all_digits(next)) by {
                assert forall|k: int| 0 <= k < next.len() implies is_digit(#[trigger] next[k]) by {
                    if k < i - start {
                        assert(next[k] == run.take(i - start)[k]);
                    }
                }
            }
            lemma_prefix_value(run, i - start + 1);
        }
        if d > limit || acc > (limit - d) / 10 {
            return None;
        }
        acc = acc * 10 + d;
        i = i + 1;
    }
    proof {
        assert(run.take(end - start) =~= run);
    }
    Some(acc)
}

/// Reads an unsigned decimal number.
pub fn read_usize(s: &[u8]) -> (r: Option<usize>)
    ensures
        r == usize_of(s@),
{
    let start: usize = if s.len() > 0 && s[0] == PLUS {
        1
    } else {
        0
    };
    proof {
        assert(without_plus(s@) =~= s@.subrange(start as int, s@.len() as int));
    }
    match read_magnitude(s, start, usize::MAX as u64) {
        Some(n) => Some(n as usize),
        None => None,
    }
}

/// Reads a signed decimal number.
pub fn read_i64(s: &[u8]) -> (r: Option<i64>)
    ensures
        r == i64_of(s@),
{
    if s.len() > 0 && s[0] == MINUS {
        proof {
            assert(s@.drop_first() =~= s@.subrange(1, s@.len() as int));
        }
        match read_magnitude(s, 1, 0x8000_0000_0000_0000) {
            Some(n) => if n == 0x8000_0000_0000_0000 {
                Some(i64::MIN)
            } else {
                Some(-(n as i64))
            },
            None => None,
        }
    } else {
        let start: usize = if s.len() > 0 && s[0] == PLUS {
            1
        } else {
            0
        };
        proof {
            assert(without_plus(s@) =~= s@.subrange(start as int, s@.len() as int));
        }
        match read_magnitude(s, start, 0x7fff_ffff_ffff_ffff) {
            Some(n) => Some(n as i64),
            None => None,
        }
    }
}

/// Appends the digits of `n`.
fn write_digits(dst: &mut Vec<u8>, n: u64)
    ensures
        final(dst)@ == old(dst)@ + digits_of(n as nat),
    decreases n,
{
    if n >= 10 {
        write_digits(dst, n / 10);
    }
    let d: u8 = (n % 10) as u8;
    dst.push(ZERO + d);
    assert(final(dst)@ =~= old(dst)@ + digits_of(n as nat));
}

/// Appends the text of an unsigned number.
pub fn write_usize(dst: &mut Vec<u8>, n: usize)
    ensures
        final(dst)@ == old(dst)@ + text_of(n as int),
{
    write_digits(dst, n as u64);
}

/// Appends the text of a signed number.
pub fn write_i64(dst: &mut Vec<u8>, n: i64)
    ensures
        final(dst)@ == old(dst)@ + text_of(n as int),
{
    if n < 0 {
        dst.push(MINUS);
        let m: u64 = if n == i64::MIN {
            0x8000_0000_0000_0000
        } else {
            (-n) as u64
        };
        write_digits(dst, m);
        proof {
            assert(final(dst)@ =~= old(dst)@ + text_of(n as int));
        }
    } else {
        write_digits(dst, n as u64);
    }
}

} // verus!
