//! Decimal numbers in ASCII: what a run of digits is worth, how a number is
//! written, and that the two agree.

use vstd::prelude::*;

verus! {

/// Whether `b` is one of the ASCII digits `0` to `9`.
pub open spec fn is_digit(b: u8) -> bool {
    48 <= b <= 57
}

/// The first position at or after `pos` that holds no digit.
pub open spec fn digits_end(s: Seq<u8>, pos: int) -> int
    decreases s.len() - pos,
{
    if 0 <= pos < s.len() && is_digit(s[pos]) {
        digits_end(s, pos + 1)
    } else {
        pos
    }
}

/// The number that the digits `s[from..to]` spell.
pub open spec fn digits_value(s: Seq<u8>, from: int, to: int) -> nat
    decreases to - from,
{
    if to <= from {
        0
    } else {
        digits_value(s, from, to - 1) * 10 + (s[to - 1] - 48) as nat
    }
}

/// An unsigned decimal at `pos`: the longest run of digits there, which must
/// not be empty and must spell a number that fits 64 bits. Gives the number
/// and the position after it.
pub open spec fn unsigned_at(s: Seq<u8>, pos: int) -> Option<(u64, int)> {
    let end = digits_end(s, pos);
    if 0 <= pos < end && digits_value(s, pos, end) <= u64::MAX {
        Some((digits_value(s, pos, end) as u64, end))
    } else {
        None
    }
}

/// A signed decimal at `pos`: an optional `+` or `-`, then digits as in
/// `unsigned_at`, the whole within the range of `i64`.
pub open spec fn signed_at(s: Seq<u8>, pos: int) -> Option<(i64, int)> {
    if 0 <= pos < s.len() && s[pos] == 45 {
        let end = digits_end(s, pos + 1);
        if pos + 1 < end && digits_value(s, pos + 1, end) <= 0x8000_0000_0000_0000 {
            Some(((-(digits_value(s, pos + 1, end) as int)) as i64, end))
        } else {
            None
        }
    } else {
        let start = if 0 <= pos < s.len() && s[pos] == 43 {
            pos + 1
        } else {
            pos
        };
        let end = digits_end(s, start);
        if 0 <= start < end && digits_value(s, start, end) <= i64::MAX {
            Some((digits_value(s, start, end) as i64, end))
        } else {
            None
        }
    }
}

/// The digits of `n`, most significant first, without leading zeros.
pub open spec fn decimal(n: nat) -> Seq<u8>
    decreases n,
{
    if n < 10 {
        seq![(48 + n) as u8]
    } else {
        decimal(n / 10).push((48 + n % 10) as u8)
    }
}

/// `n` in decimal, with a `-` in front where it is negative.
pub open spec fn signed_decimal(n: int) -> Seq<u8> {
    if n < 0 {
        seq![45u8] + decimal((-n) as nat)
    } else {
        decimal(n as nat)
    }
}

/// The positions `from..to` of `s` all hold digits.
pub open spec fn all_digits(s: Seq<u8>, from: int, to: int) -> bool {
    forall|i: int| from <= i < to ==> is_digit(#[trigger] s[i])
}

/// A run of digits that ends at `to` is where `digits_end` stops.
pub proof fn lemma_digits_end(s: Seq<u8>, from: int, to: int)
    requires
        0 <= from <= to <= s.len(),
        all_digits(s, from, to),
        to == s.len() || !is_digit(s[to]),
    ensures
        digits_end(s, from) == to,
    decreases to - from,
{
    if from < to {
        lemma_digits_end(s, from + 1, to);
    }
}

/// `digits_end` stops after a run of digits, within the input.
pub proof fn lemma_digits_end_bounds(s: Seq<u8>, pos: int)
    requires
        0 <= pos <= s.len(),
    ensures
        pos <= digits_end(s, pos) <= s.len(),
        all_digits(s, pos, digits_end(s, pos)),
        digits_end(s, pos) == s.len() || !is_digit(s[digits_end(s, pos)]),
    decreases s.len() - pos,
{
    if pos < s.len() && is_digit(s[pos]) {
        lemma_digits_end_bounds(s, pos + 1);
    }
}

/// A longer run of digits is worth at least as much.
pub proof fn lemma_digits_value_grows(s: Seq<u8>, from: int, mid: int, to: int)
    requires
        from <= mid <= to,
        all_digits(s, from, to),
    ensures
        digits_value(s, from, mid) <= digits_value(s, from, to),
    decreases to - mid,
{
    if mid < to {
        lemma_digits_value_grows(s, from, mid, to - 1);
        assert(is_digit(s[to - 1]));
    }
}

/// Whether `s1` from `p1` and `s2` from `p2` hold the same `n` bytes.
pub open spec fn same_run(s1: Seq<u8>, p1: int, s2: Seq<u8>, p2: int, n: int) -> bool {
    &&& 0 <= n
    &&& 0 <= p1
    &&& 0 <= p2
    &&& p1 + n <= s1.len()
    &&& p2 + n <= s2.len()
    &&& forall|i: int| p1 <= i < p1 + n ==> #[trigger] s1[i] == s2[i - p1 + p2]
}

/// Two inputs that hold the same bytes at `p1..` and `p2..`, for `n`
/// positions, spell the same number there.
pub proof fn lemma_digits_value_same(s1: Seq<u8>, p1: int, s2: Seq<u8>, p2: int, n: int)
    requires
        same_run(s1, p1, s2, p2, n),
    ensures
        digits_value(s1, p1, p1 + n) == digits_value(s2, p2, p2 + n),
    decreases n,
{
    if n > 0 {
        lemma_digits_value_same(s1, p1, s2, p2, n - 1);
        assert(s1[p1 + n - 1] == s2[p1 + n - 1 - p1 + p2]);
    }
}

/// The digits of a number are digits, and spell it.
pub proof fn lemma_decimal(n: nat)
    ensures
        decimal(n).len() >= 1,
        all_digits(decimal(n), 0, decimal(n).len() as int),
        digits_value(decimal(n), 0, decimal(n).len() as int) == n,
    decreases n,
{
    if n >= 10 {
        let d = decimal(n / 10);
        let s = decimal(n);
        lemma_decimal(n / 10);
        assert forall|i: int| 0 <= i < s.len() implies is_digit(#[trigger] s[i]) by {
            if i < d.len() {
                assert(s[i] == d[i]);
            }
        }
        assert(same_run(s, 0, d, 0, d.len() as int));
        lemma_digits_value_same(s, 0, d, 0, d.len() as int);
        assert(s.len() - 1 == d.len());
        assert(digits_value(s, 0, s.len() as int) == digits_value(s, 0, s.len() - 1) * 10 + (s[s.len()
            - 1] - 48) as nat);
    } else {
        let s = decimal(n);
        assert(digits_value(s, 0, 1) == digits_value(s, 0, 0) * 10 + (s[0] - 48) as nat);
    }
}

/// Appends the decimal digits of `n` to `out`.
pub fn put_decimal(out: &mut Vec<u8>, n: u64)
    ensures
        final(out)@ == old(out)@ + decimal(n as nat),
    decreases n,
{
    if n >= 10 {
        put_decimal(out, n / 10);
    }
    out.push(48 + (n % 10) as u8);
    assert(out@ =~= old(out)@ + decimal(n as nat));
}

/// Appends `n` in decimal to `out`, with a `-` in front where it is negative.
pub fn put_signed_decimal(out: &mut Vec<u8>, n: i64)
    ensures
        final(out)@ == old(out)@ + signed_decimal(n as int),
{
    if n < 0 {
        out.push(45);
        let magnitude: u64 = if n == i64::MIN {
            0x8000_0000_0000_0000
        } else {
            (-n) as u64
        };
        put_decimal(out, magnitude);
        assert(out@ =~= old(out)@ + signed_decimal(n as int));
    } else {
        put_decimal(out, n as u64);
    }
}

/// Walks over the digits at `pos`. Gives where they end and, where it fits 64
/// bits, what they spell.
fn read_digits(s: &[u8], pos: usize) -> (r: (Option<u64>, usize))
    requires
        pos <= s@.len(),
    ensures
        r.1 == digits_end(s@, pos as int),
        pos <= r.1 <= s@.len(),
        all_digits(s@, pos as int, r.1 as int),
        r.0 is Some <==> digits_value(s@, pos as int, r.1 as int) <= u64::MAX,
        r.0 matches Some(v) ==> v == digits_value(s@, pos as int, r.1 as int),
{
    let mut i: usize = pos;
    let mut value: u64 = 0;
    let mut fits: bool = true;
    while i < s.len() && s[i] >= 48 && s[i] <= 57
        invariant
            pos <= i <= s@.len(),
            all_digits(s@, pos as int, i as int),
            fits ==> value == digits_value(s@, pos as int, i as int),
            !fits ==> digits_value(s@, pos as int, i as int) > u64::MAX,
        decreases s@.len() - i,
    {
        let d: u64 = (s[i] - 48) as u64;
        proof {
            lemma_digits_value_grows(s@, pos as int, i as int, i + 1);
        }
        if fits {
            if value > (u64::MAX - d) / 10 {
                fits = false;
            } else {
                value = value * 10 + d;
            }
        }
        i += 1;
    }
    proof {
        lemma_digits_end(s@, pos as int, i as int);
    }
    if fits {
        (Some(value), i)
    } else {
        (None, i)
    }
}

/// Reads an unsigned decimal at `pos`: the number and where it ends.
pub fn read_unsigned(s: &[u8], pos: usize) -> (r: Option<(u64, usize)>)
    requires
        pos <= s@.len(),
    ensures
        r is Some <==> unsigned_at(s@, pos as int) is Some,
        r matches Some((v, end)) ==> unsigned_at(s@, pos as int) == Some((v, end as int)),
{
    let (value, end) = read_digits(s, pos);
    match value {
        Some(v) => if end > pos {
            Some((v, end))
        } else {
            None
        },
        None => None,
    }
}

/// Reads a signed decimal at `pos`: the number and where it ends.
pub fn read_signed(s: &[u8], pos: usize) -> (r: Option<(i64, usize)>)
    requires
        pos <= s@.len(),
    ensures
        r is Some <==> signed_at(s@, pos as int) is Some,
        r matches Some((v, end)) ==> signed_at(s@, pos as int) == Some((v, end as int)),
{
    if pos < s.len() && s[pos] == 45 {
        let (value, end) = read_digits(s, pos + 1);
        match value {
            Some(v) => if end > pos + 1 && v <= 0x8000_0000_0000_0000 {
                let n: i64 = if v == 0x8000_0000_0000_0000 {
                    i64::MIN
                } else {
                    -(v as i64)
                };
                Some((n, end))
            } else {
                None
            },
            None => None,
        }
    } else {
        let start: usize = if pos < s.len() && s[pos] == 43 {
            pos + 1
        } else {
            pos
        };
        let (value, end) = read_digits(s, start);
        match value {
            Some(v) => if end > start && v <= 0x7fff_ffff_ffff_ffff {
                Some((v as i64, end))
            } else {
                None
            },
            None => None,
        }
    }
}

} // verus!
