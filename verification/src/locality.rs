//! What a value's bytes decide: a value ends inside the input, and the same
//! bytes at another place, or in another input, hold the same value.

use crate::grammar::{entries_at, entry_at, items_at, string_at, value_at};
use crate::number::{
    all_digits, digits_end, digits_value, is_digit, lemma_digits_end, lemma_digits_end_bounds,
    lemma_digits_value_same, same_run, signed_at, unsigned_at,
};
use vstd::prelude::*;

verus! {

/// A number ends after its first byte and inside the input, at a byte that
/// is no digit or at the end.
pub proof fn lemma_unsigned_bounds(s: Seq<u8>, pos: int)
    ensures
        unsigned_at(s, pos) matches Some((_, end)) ==> 0 <= pos < end <= s.len() && (end
            == s.len() || !is_digit(s[end])),
{
    if 0 <= pos <= s.len() {
        lemma_digits_end_bounds(s, pos);
    }
}

/// As `lemma_unsigned_bounds`, for a signed number.
pub proof fn lemma_signed_bounds(s: Seq<u8>, pos: int)
    ensures
        signed_at(s, pos) matches Some((_, end)) ==> 0 <= pos < end <= s.len() && (end == s.len()
            || !is_digit(s[end])),
{
    if 0 <= pos <= s.len() {
        lemma_digits_end_bounds(s, pos);
        if pos < s.len() {
            lemma_digits_end_bounds(s, pos + 1);
        }
    }
}

/// A string ends after its colon and inside the input.
pub proof fn lemma_string_bounds(s: Seq<u8>, pos: int)
    ensures
        string_at(s, pos) matches Some((payload, end)) ==> 0 <= pos && pos + 2 <= end <= s.len()
            && payload.len() <= u64::MAX && payload.len() <= end - pos - 2,
{
    lemma_unsigned_bounds(s, pos);
}

/// A value takes at least one byte and ends inside the input.
pub proof fn lemma_value_bounds(s: Seq<u8>, pos: int)
    ensures
        value_at(s, pos) matches Some((_, end)) ==> 0 <= pos < end <= s.len(),
    decreases s.len() - pos, 0int,
{
    if 0 <= pos < s.len() {
        if s[pos] == 105 {
            lemma_signed_bounds(s, pos + 1);
        } else if s[pos] == 108 {
            lemma_items_bounds(s, pos + 1);
        } else if s[pos] == 100 {
            lemma_entries_bounds(s, pos + 1);
        } else {
            lemma_string_bounds(s, pos);
        }
    }
}

/// A run of values ends at or after its start, inside the input.
pub proof fn lemma_items_bounds(s: Seq<u8>, pos: int)
    requires
        0 <= pos <= s.len(),
    ensures
        pos <= items_at(s, pos).1 <= s.len(),
    decreases s.len() - pos, 1int,
{
    match value_at(s, pos) {
        Some((_, end)) => {
            if pos < end <= s.len() {
                lemma_items_bounds(s, end);
            }
        },
        None => {},
    }
}

/// A run of entries ends at or after its start, inside the input.
pub proof fn lemma_entries_bounds(s: Seq<u8>, pos: int)
    requires
        0 <= pos <= s.len(),
    ensures
        pos <= entries_at(s, pos).1 <= s.len(),
    decreases s.len() - pos, 2int,
{
    match entry_at(s, pos) {
        Some((_, end)) => {
            if pos < end <= s.len() {
                lemma_entries_bounds(s, end);
            }
        },
        None => {},
    }
}

/// An entry takes at least one byte and ends inside the input.
pub proof fn lemma_entry_bounds(s: Seq<u8>, pos: int)
    ensures
        entry_at(s, pos) matches Some((_, end)) ==> 0 <= pos < end <= s.len(),
{
    lemma_string_bounds(s, pos);
    match string_at(s, pos) {
        Some((_, mid)) => {
            lemma_value_bounds(s, mid);
        },
        None => {},
    }
}

/// No value and no entry starts with the byte `e`.
pub proof fn lemma_end_mark_stops(s: Seq<u8>, pos: int)
    requires
        0 <= pos < s.len(),
        s[pos] == 101,
    ensures
        value_at(s, pos) is None,
        entry_at(s, pos) is None,
        items_at(s, pos) == (Seq::<crate::grammar::Value>::empty(), pos),
        entries_at(s, pos) == (Seq::<(Seq<u8>, crate::grammar::Value)>::empty(), pos),
{
    assert(digits_end(s, pos) == pos);
}

/// The same digits, followed by the same byte, end at the same distance and
/// spell the same number.
pub proof fn lemma_digits_same(s1: Seq<u8>, p1: int, s2: Seq<u8>, p2: int)
    requires
        0 <= p1 <= s1.len(),
        digits_end(s1, p1) < s1.len(),
        same_run(s1, p1, s2, p2, digits_end(s1, p1) + 1 - p1),
    ensures
        digits_end(s2, p2) == digits_end(s1, p1) - p1 + p2,
        digits_value(s2, p2, digits_end(s2, p2)) == digits_value(s1, p1, digits_end(s1, p1)),
{
    let e1 = digits_end(s1, p1);
    let e2 = e1 - p1 + p2;
    lemma_digits_end_bounds(s1, p1);
    assert(s1[e1] == s2[e1 - p1 + p2]);
    assert forall|i: int| p2 <= i < e2 implies is_digit(#[trigger] s2[i]) by {
        assert(s1[i - p2 + p1] == s2[i - p2 + p1 - p1 + p2]);
        assert(is_digit(s1[i - p2 + p1]));
    }
    assert(all_digits(s2, p2, e2));
    lemma_digits_end(s2, p2, e2);
    lemma_digits_value_same(s1, p1, s2, p2, e1 - p1);
}

/// The same bytes hold the same string.
pub proof fn lemma_string_same(s1: Seq<u8>, p1: int, s2: Seq<u8>, p2: int)
    requires
        string_at(s1, p1) matches Some((_, e1)) && same_run(s1, p1, s2, p2, e1 - p1),
    ensures
        string_at(s1, p1) matches Some((found, e1)) ==> string_at(s2, p2) == Some((found, e1 - p1 + p2)),
{
    lemma_string_bounds(s1, p1);
    lemma_unsigned_bounds(s1, p1);
    let (len, colon) = unsigned_at(s1, p1)->0;
    lemma_digits_same(s1, p1, s2, p2);
    let colon2 = colon - p1 + p2;
    assert(s1[colon] == s2[colon - p1 + p2]);
    let e1 = colon + 1 + len;
    let a = s1.subrange(colon + 1, e1);
    let b = s2.subrange(colon2 + 1, colon2 + 1 + len);
    assert forall|i: int| 0 <= i < len implies #[trigger] a[i] == b[i] by {
        assert(s1[colon + 1 + i] == s2[colon + 1 + i - p1 + p2]);
    }
    assert(a =~= b);
}

/// The same bytes hold the same signed number, where the byte after it is
/// the same too.
pub proof fn lemma_signed_same(s1: Seq<u8>, p1: int, s2: Seq<u8>, p2: int)
    requires
        signed_at(s1, p1) matches Some((_, e1)) && e1 < s1.len() && same_run(
            s1,
            p1,
            s2,
            p2,
            e1 + 1 - p1,
        ),
    ensures
        signed_at(s1, p1) matches Some((found, e1)) ==> signed_at(s2, p2) == Some((found, e1 - p1 + p2)),
{
    lemma_signed_bounds(s1, p1);
    assert(s1[p1] == s2[p1 - p1 + p2]);
    if s1[p1] == 45 || s1[p1] == 43 {
        lemma_digits_same(s1, p1 + 1, s2, p2 + 1);
    } else {
        lemma_digits_same(s1, p1, s2, p2);
    }
}

/// The same bytes hold the same value: what `value_at` finds at `p1` in `s1`
/// it finds at `p2` in `s2`, where the two inputs agree over the value's
/// bytes.
pub proof fn lemma_value_same(s1: Seq<u8>, p1: int, s2: Seq<u8>, p2: int)
    requires
        value_at(s1, p1) matches Some((_, e1)) && same_run(s1, p1, s2, p2, e1 - p1),
    ensures
        value_at(s1, p1) matches Some((found, e1)) ==> value_at(s2, p2) == Some((found, e1 - p1 + p2)),
    decreases s1.len() - p1, 0int,
{
    lemma_value_bounds(s1, p1);
    assert(s1[p1] == s2[p1 - p1 + p2]);
    if s1[p1] == 105 {
        lemma_signed_bounds(s1, p1 + 1);
        lemma_signed_same(s1, p1 + 1, s2, p2 + 1);
        let end = signed_at(s1, p1 + 1).unwrap().1;
        assert(s1[end] == s2[end - p1 + p2]);
    } else if s1[p1] == 108 {
        let end = items_at(s1, p1 + 1).1;
        lemma_items_same(s1, p1 + 1, s2, p2 + 1);
        assert(s1[end] == s2[end - p1 + p2]);
    } else if s1[p1] == 100 {
        let end = entries_at(s1, p1 + 1).1;
        lemma_entries_same(s1, p1 + 1, s2, p2 + 1);
        assert(s1[end] == s2[end - p1 + p2]);
    } else {
        lemma_string_same(s1, p1, s2, p2);
    }
}

/// The same bytes, up to and with the closing `e`, hold the same run of
/// values.
pub proof fn lemma_items_same(s1: Seq<u8>, p1: int, s2: Seq<u8>, p2: int)
    requires
        0 <= p1 <= items_at(s1, p1).1 < s1.len(),
        s1[items_at(s1, p1).1] == 101,
        same_run(s1, p1, s2, p2, items_at(s1, p1).1 + 1 - p1),
    ensures
        items_at(s2, p2) == (items_at(s1, p1).0, items_at(s1, p1).1 - p1 + p2),
    decreases s1.len() - p1, 1int,
{
    lemma_value_bounds(s1, p1);
    assert(s1[p1] == s2[p1 - p1 + p2]);
    match value_at(s1, p1) {
        Some((_, end)) => {
            lemma_items_bounds(s1, end);
            lemma_value_same(s1, p1, s2, p2);
            lemma_items_same(s1, end, s2, end - p1 + p2);
        },
        None => {
            lemma_end_mark_stops(s2, p2);
        },
    }
}

/// The same bytes hold the same entry.
pub proof fn lemma_entry_same(s1: Seq<u8>, p1: int, s2: Seq<u8>, p2: int)
    requires
        entry_at(s1, p1) matches Some((_, e1)) && same_run(s1, p1, s2, p2, e1 - p1),
    ensures
        entry_at(s1, p1) matches Some((found, e1)) ==> entry_at(s2, p2) == Some((found, e1 - p1 + p2)),
    decreases s1.len() - p1, 1int,
{
    lemma_string_bounds(s1, p1);
    let mid = string_at(s1, p1).unwrap().1;
    lemma_value_bounds(s1, mid);
    lemma_string_same(s1, p1, s2, p2);
    lemma_value_same(s1, mid, s2, mid - p1 + p2);
}

/// The same bytes, up to and with the closing `e`, hold the same run of
/// entries.
pub proof fn lemma_entries_same(s1: Seq<u8>, p1: int, s2: Seq<u8>, p2: int)
    requires
        0 <= p1 <= entries_at(s1, p1).1 < s1.len(),
        s1[entries_at(s1, p1).1] == 101,
        same_run(s1, p1, s2, p2, entries_at(s1, p1).1 + 1 - p1),
    ensures
        entries_at(s2, p2) == (entries_at(s1, p1).0, entries_at(s1, p1).1 - p1 + p2),
    decreases s1.len() - p1, 2int,
{
    lemma_entry_bounds(s1, p1);
    assert(s1[p1] == s2[p1 - p1 + p2]);
    match entry_at(s1, p1) {
        Some((_, end)) => {
            lemma_entries_bounds(s1, end);
            lemma_entry_same(s1, p1, s2, p2);
            lemma_entries_same(s1, end, s2, end - p1 + p2);
        },
        None => {
            lemma_end_mark_stops(s2, p2);
        },
    }
}

/// Span fidelity: the bytes that a value was read from, taken alone, hold
/// that value and nothing else.
pub proof fn lemma_span_alone(s: Seq<u8>, pos: int)
    requires
        value_at(s, pos) is Some,
    ensures
        value_at(s, pos) matches Some((v, end)) ==> value_at(s.subrange(pos, end), 0) == Some(
            (v, end - pos),
        ),
{
    lemma_value_bounds(s, pos);
    let end = value_at(s, pos).unwrap().1;
    let span = s.subrange(pos, end);
    assert(same_run(s, pos, span, 0, end - pos));
    lemma_value_same(s, pos, span, 0);
}

} // verus!
