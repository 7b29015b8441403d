//! How writing and reading fit: what was written is read back as the same
//! value.

use crate::grammar::{
    bind, bytes_of, classify, collect, entries_at, entries_bytes, entry_at, items_at, items_bytes,
    key_index, string_at, string_bytes, value_at, Value,
};
use crate::locality::{
    lemma_end_mark_stops, lemma_string_bounds, lemma_value_bounds, lemma_value_same,
};
use crate::number::{
    all_digits, decimal, digits_end, digits_value, is_digit, lemma_decimal, lemma_digits_end,
    lemma_digits_value_same, same_run, signed_at, signed_decimal,
};
use vstd::prelude::*;
use vstd::utf8::valid_utf8;

verus! {

/// The bytes of a list grow by the bytes of an item put at its end.
pub proof fn lemma_items_bytes_push(items: Seq<Value>, item: Value)
    ensures
        items_bytes(items.push(item)) == items_bytes(items) + bytes_of(item),
    decreases items.len(),
{
    let all = items.push(item);
    if items.len() == 0 {
        assert(all.drop_first() =~= Seq::<Value>::empty());
        assert(items_bytes(all.drop_first()) =~= Seq::<u8>::empty());
        assert(items_bytes(all) =~= bytes_of(item));
        assert(items_bytes(items) + bytes_of(item) =~= bytes_of(item));
    } else {
        assert(all.drop_first() =~= items.drop_first().push(item));
        lemma_items_bytes_push(items.drop_first(), item);
        assert(all[0] == items[0]);
        assert(items_bytes(all) =~= items_bytes(items) + bytes_of(item));
    }
}

/// The bytes of a dictionary grow by the bytes of an entry put at its end.
pub proof fn lemma_entries_bytes_push(entries: Seq<(Seq<u8>, Value)>, entry: (Seq<u8>, Value))
    ensures
        entries_bytes(entries.push(entry)) == entries_bytes(entries) + string_bytes(entry.0)
            + bytes_of(entry.1),
    decreases entries.len(),
{
    let all = entries.push(entry);
    if entries.len() == 0 {
        assert(all.drop_first() =~= Seq::<(Seq<u8>, Value)>::empty());
        assert(entries_bytes(all.drop_first()) =~= Seq::<u8>::empty());
        assert(entries_bytes(all) =~= string_bytes(entry.0) + bytes_of(entry.1));
        assert(entries_bytes(entries) + string_bytes(entry.0) + bytes_of(entry.1) =~= string_bytes(
            entry.0,
        ) + bytes_of(entry.1));
    } else {
        assert(all.drop_first() =~= entries.drop_first().push(entry));
        lemma_entries_bytes_push(entries.drop_first(), entry);
        assert(all[0] == entries[0]);
        assert(entries_bytes(all) =~= entries_bytes(entries) + string_bytes(entry.0) + bytes_of(
            entry.1,
        ));
    }
}

/// Where no earlier entry has the key and the entry at `i`, if there is
/// one, has it, `i` is the key's place.
pub proof fn lemma_key_index(entries: Seq<(Seq<u8>, Value)>, key: Seq<u8>, i: int)
    requires
        0 <= i <= entries.len(),
        forall|j: int| 0 <= j < i ==> (#[trigger] entries[j]).0 != key,
        i < entries.len() ==> entries[i].0 == key,
    ensures
        key_index(entries, key) == i,
    decreases entries.len(),
{
    if entries.len() > 0 && i > 0 {
        let rest = entries.drop_first();
        assert(entries[0].0 != key);
        assert forall|j: int| 0 <= j < i - 1 implies (#[trigger] rest[j]).0 != key by {
            assert(rest[j] == entries[j + 1]);
        }
        lemma_key_index(rest, key, i - 1);
    }
}

/// The place of a key is that of the first entry that has it, or the number
/// of entries where none has.
pub proof fn lemma_key_index_found(entries: Seq<(Seq<u8>, Value)>, key: Seq<u8>)
    ensures
        0 <= key_index(entries, key) <= entries.len(),
        forall|j: int| 0 <= j < key_index(entries, key) ==> (#[trigger] entries[j]).0 != key,
        key_index(entries, key) < entries.len() ==> entries[key_index(entries, key)].0 == key,
    decreases entries.len(),
{
    if entries.len() > 0 && entries[0].0 != key {
        let rest = entries.drop_first();
        lemma_key_index_found(rest, key);
        assert forall|j: int| 0 <= j < key_index(entries, key) implies (#[trigger] entries[j]).0
            != key by {
            if j > 0 {
                assert(entries[j] == rest[j - 1]);
            }
        }
    }
}

/// Whether no two entries have one key.
pub open spec fn distinct_keys(entries: Seq<(Seq<u8>, Value)>) -> bool {
    forall|i: int, j: int|
        0 <= i < j < entries.len() ==> (#[trigger] entries[i]).0 != (#[trigger] entries[j]).0
}

/// Whether a value is one that reading gives: a string is text exactly where
/// its bytes are UTF-8, its length fits 64 bits, a dictionary's keys are
/// text and no two are the same; and so for every value inside it.
pub open spec fn canonical(v: Value) -> bool
    decreases v,
{
    match v {
        Value::Bytes(b) => !valid_utf8(b) && b.len() <= u64::MAX,
        Value::Text(b) => valid_utf8(b) && b.len() <= u64::MAX,
        Value::Int(_) => true,
        Value::List(items) => forall|i: int|
            0 <= i < items.len() ==> canonical(#[trigger] items[i]),
        Value::Dict(entries) => distinct_keys(entries) && forall|i: int|
            0 <= i < entries.len() ==> valid_utf8((#[trigger] entries[i]).0) && entries[i].0.len()
                <= u64::MAX && canonical(entries[i].1),
    }
}

/// Whether every entry has a text key and a canonical value.
pub open spec fn entries_canonical(entries: Seq<(Seq<u8>, Value)>) -> bool {
    forall|i: int|
        0 <= i < entries.len() ==> valid_utf8((#[trigger] entries[i]).0) && entries[i].0.len()
            <= u64::MAX && canonical(entries[i].1)
}

/// Entries with distinct keys make the dictionary that holds just them.
pub proof fn lemma_collect_distinct(entries: Seq<(Seq<u8>, Value)>)
    requires
        distinct_keys(entries),
    ensures
        collect(entries) == entries,
    decreases entries.len(),
{
    if entries.len() > 0 {
        let front = entries.drop_last();
        let last = entries.last();
        assert forall|i: int, j: int| 0 <= i < j < front.len() implies (#[trigger] front[i]).0 != (
        #[trigger] front[j]).0 by {
            assert(front[i] == entries[i]);
            assert(front[j] == entries[j]);
        }
        lemma_collect_distinct(front);
        assert forall|j: int| 0 <= j < front.len() implies (#[trigger] front[j]).0 != last.0 by {
            assert(front[j] == entries[j]);
            assert(entries[j].0 != entries[entries.len() - 1].0);
        }
        lemma_key_index(front, last.0, front.len() as int);
        assert(front.push(last) =~= entries);
    } else {
        assert(collect(entries) =~= entries);
    }
}

/// The dictionary made from entries with text keys and canonical values has
/// distinct keys, text keys and canonical values.
pub proof fn lemma_collect_canonical(raw: Seq<(Seq<u8>, Value)>)
    requires
        entries_canonical(raw),
    ensures
        distinct_keys(collect(raw)),
        entries_canonical(collect(raw)),
    decreases raw.len(),
{
    if raw.len() > 0 {
        let front = raw.drop_last();
        let last = raw.last();
        assert forall|i: int| 0 <= i < front.len() implies valid_utf8((#[trigger] front[i]).0)
            && front[i].0.len() <= u64::MAX && canonical(front[i].1) by {
            assert(front[i] == raw[i]);
        }
        lemma_collect_canonical(front);
        let before = collect(front);
        let after = collect(raw);
        let k = key_index(before, last.0);
        lemma_key_index_found(before, last.0);
        assert(after == bind(before, last.0, last.1));
        assert forall|i: int, j: int| 0 <= i < j < after.len() implies (#[trigger] after[i]).0 != (
        #[trigger] after[j]).0 by {
            if k < before.len() {
                assert(after[i].0 == before[i].0);
                assert(after[j].0 == before[j].0);
            } else if j < before.len() {
                assert(after[i] == before[i]);
                assert(after[j] == before[j]);
            } else {
                assert(after[i] == before[i]);
            }
        }
        assert forall|i: int| 0 <= i < after.len() implies valid_utf8((#[trigger] after[i]).0)
            && after[i].0.len() <= u64::MAX && canonical(after[i].1) by {
            if i == k {
                assert(after[i] == last);
            } else {
                assert(after[i] == before[i]);
            }
        }
    }
}

/// What reading gives is canonical.
pub proof fn lemma_read_canonical(s: Seq<u8>, pos: int)
    ensures
        value_at(s, pos) matches Some((v, _)) ==> canonical(v),
    decreases s.len() - pos, 0int,
{
    if 0 <= pos < s.len() && value_at(s, pos) is Some {
        let v = value_at(s, pos).unwrap().0;
        if s[pos] == 105 {
        } else if s[pos] == 108 {
            let items = items_at(s, pos + 1).0;
            lemma_items_canonical(s, pos + 1);
            assert(v == Value::List(items));
            assert forall|i: int| 0 <= i < items.len() implies canonical(#[trigger] items[i]) by {}
        } else if s[pos] == 100 {
            let raw = entries_at(s, pos + 1).0;
            lemma_entries_canonical(s, pos + 1);
            lemma_collect_canonical(raw);
            assert(v == Value::Dict(collect(raw)));
        } else {
            lemma_string_bounds(s, pos);
        }
    }
}

/// The values of a run that reading gives are canonical.
pub proof fn lemma_items_canonical(s: Seq<u8>, pos: int)
    requires
        0 <= pos <= s.len(),
    ensures
        forall|i: int|
            0 <= i < items_at(s, pos).0.len() ==> canonical(#[trigger] items_at(s, pos).0[i]),
    decreases s.len() - pos, 1int,
{
    match value_at(s, pos) {
        Some((item, end)) => {
            if pos < end <= s.len() {
                lemma_read_canonical(s, pos);
                lemma_items_canonical(s, end);
                let more = items_at(s, end).0;
                let all = items_at(s, pos).0;
                assert forall|i: int| 0 <= i < all.len() implies canonical(#[trigger] all[i]) by {
                    if i > 0 {
                        assert(all[i] == more[i - 1]);
                    }
                }
            }
        },
        None => {},
    }
}

/// The entries of a run that reading gives have text keys and canonical
/// values.
pub proof fn lemma_entries_canonical(s: Seq<u8>, pos: int)
    requires
        0 <= pos <= s.len(),
    ensures
        entries_canonical(entries_at(s, pos).0),
    decreases s.len() - pos, 2int,
{
    match entry_at(s, pos) {
        Some((entry, end)) => {
            if pos < end <= s.len() {
                lemma_string_bounds(s, pos);
                lemma_read_canonical(s, string_at(s, pos).unwrap().1);
                lemma_entries_canonical(s, end);
                let more = entries_at(s, end).0;
                let all = entries_at(s, pos).0;
                assert forall|i: int| 0 <= i < all.len() implies valid_utf8((#[trigger] all[i]).0)
                    && all[i].0.len() <= u64::MAX && canonical(all[i].1) by {
                    if i > 0 {
                        assert(all[i] == more[i - 1]);
                    }
                }
            }
        },
        None => {},
    }
}

/// Digits written at `p`, with no digit after them, are read as the number
/// they were written for.
pub proof fn lemma_decimal_read(n: nat, s: Seq<u8>, p: int)
    requires
        same_run(decimal(n), 0, s, p, decimal(n).len() as int),
        p + decimal(n).len() == s.len() || !is_digit(s[p + decimal(n).len()]),
    ensures
        digits_end(s, p) == p + decimal(n).len(),
        digits_value(s, p, p + decimal(n).len()) == n,
        decimal(n).len() >= 1,
{
    let d = decimal(n);
    let end = p + d.len();
    lemma_decimal(n);
    assert forall|i: int| p <= i < end implies is_digit(#[trigger] s[i]) by {
        assert(d[i - p] == s[i - p - 0 + p]);
    }
    assert(all_digits(s, p, end));
    lemma_digits_end(s, p, end);
    lemma_digits_value_same(d, 0, s, p, d.len() as int);
}

/// Where `s` holds `a + b` from `p`, it holds `a` from `p` and `b` after it.
pub proof fn lemma_same_run_parts(a: Seq<u8>, b: Seq<u8>, s: Seq<u8>, p: int)
    requires
        same_run(a + b, 0, s, p, (a + b).len() as int),
    ensures
        same_run(a, 0, s, p, a.len() as int),
        same_run(b, 0, s, p + a.len(), b.len() as int),
{
    let ab = a + b;
    assert forall|i: int| 0 <= i < 0 + a.len() implies #[trigger] a[i] == s[i - 0 + p] by {
        assert(ab[i] == s[i - 0 + p]);
    }
    assert forall|i: int| 0 <= i < 0 + b.len() implies #[trigger] b[i] == s[i - 0 + (p
        + a.len())] by {
        assert(ab[a.len() + i] == s[a.len() + i - 0 + p]);
    }
}

/// A string written at `p` is read as the string with that payload.
pub proof fn lemma_string_read(payload: Seq<u8>, s: Seq<u8>, p: int)
    requires
        payload.len() <= u64::MAX,
        same_run(string_bytes(payload), 0, s, p, string_bytes(payload).len() as int),
    ensures
        string_at(s, p) == Some((payload, p + string_bytes(payload).len())),
        string_bytes(payload).len() == decimal(payload.len()).len() + 1 + payload.len(),
{
    let d = decimal(payload.len());
    lemma_decimal(payload.len());
    lemma_same_run_parts(d + seq![58u8], payload, s, p);
    lemma_same_run_parts(d, seq![58u8], s, p);
    let colon = p + d.len();
    assert(seq![58u8][0] == s[0 - 0 + colon]);
    lemma_decimal_read(payload.len(), s, p);
    let got = s.subrange(colon + 1, colon + 1 + payload.len());
    assert forall|i: int| 0 <= i < payload.len() implies #[trigger] got[i] == payload[i] by {
        assert(payload[i] == s[i - 0 + (colon + 1)]);
    }
    assert(got =~= payload);
}

/// A signed number written at `p`, with the byte `e` after it, is read as
/// the number it was written for.
pub proof fn lemma_signed_read(n: i64, s: Seq<u8>, p: int)
    requires
        same_run(signed_decimal(n as int), 0, s, p, signed_decimal(n as int).len() as int),
        p + signed_decimal(n as int).len() < s.len(),
        s[p + signed_decimal(n as int).len()] == 101,
    ensures
        signed_at(s, p) == Some((n, p + signed_decimal(n as int).len())),
{
    if n < 0 {
        let m = (-n) as nat;
        lemma_same_run_parts(seq![45u8], decimal(m), s, p);
        assert(seq![45u8][0] == s[0 - 0 + p]);
        lemma_decimal_read(m, s, p + 1);
    } else {
        let d = decimal(n as nat);
        lemma_decimal(n as nat);
        assert(is_digit(d[0]));
        assert(d[0] == s[0 - 0 + p]);
        lemma_decimal_read(n as nat, s, p);
    }
}

/// A payload behind its length and a colon is always read as a string:
/// as text where the payload is UTF-8, as bytes where it is not, and never
/// refused.
pub proof fn lemma_string_value_read(b: Seq<u8>)
    requires
        b.len() <= u64::MAX,
    ensures
        value_at(string_bytes(b), 0) == Some((classify(b), string_bytes(b).len() as int)),
{
    let s = string_bytes(b);
    lemma_decimal(b.len());
    assert(same_run(s, 0, s, 0, s.len() as int));
    lemma_string_read(b, s, 0);
    assert(s[0] == decimal(b.len())[0]);
    assert(is_digit(s[0]));
}

/// Reading what was written for a canonical value gives the value back,
/// and takes all the bytes.
pub proof fn lemma_write_read(v: Value)
    requires
        canonical(v),
    ensures
        value_at(bytes_of(v), 0) == Some((v, bytes_of(v).len() as int)),
    decreases v, 0int,
{
    let s = bytes_of(v);
    assert(same_run(s, 0, s, 0, s.len() as int));
    match v {
        Value::Bytes(b) => {
            lemma_string_value_read(b);
        },
        Value::Text(b) => {
            lemma_string_value_read(b);
        },
        Value::Int(n) => {
            let w = signed_decimal(n as int);
            lemma_same_run_parts(seq![105u8] + w, seq![101u8], s, 0);
            lemma_same_run_parts(seq![105u8], w, s, 0);
            assert(seq![101u8][0] == s[0 - 0 + (1 + w.len())]);
            lemma_signed_read(n, s, 1);
        },
        Value::List(items) => {
            let body = items_bytes(items);
            lemma_same_run_parts(seq![108u8] + body, seq![101u8], s, 0);
            lemma_same_run_parts(seq![108u8], body, s, 0);
            assert(seq![101u8][0] == s[0 - 0 + (1 + body.len())]);
            lemma_items_read(items, s, 1);
        },
        Value::Dict(entries) => {
            let body = entries_bytes(entries);
            lemma_same_run_parts(seq![100u8] + body, seq![101u8], s, 0);
            lemma_same_run_parts(seq![100u8], body, s, 0);
            assert(seq![101u8][0] == s[0 - 0 + (1 + body.len())]);
            lemma_entries_read(entries, s, 1);
            lemma_collect_distinct(entries);
        },
    }
}

/// The bytes of canonical values, written at `p` with the byte `e` after
/// them, are read as those values.
pub proof fn lemma_items_read(items: Seq<Value>, s: Seq<u8>, p: int)
    requires
        forall|i: int| 0 <= i < items.len() ==> canonical(#[trigger] items[i]),
        same_run(items_bytes(items), 0, s, p, items_bytes(items).len() as int),
        p + items_bytes(items).len() < s.len(),
        s[p + items_bytes(items).len()] == 101,
    ensures
        items_at(s, p) == (items, p + items_bytes(items).len()),
    decreases items, 1int,
{
    if items.len() == 0 {
        lemma_end_mark_stops(s, p);
        assert(items =~= Seq::<Value>::empty());
    } else {
        let first = bytes_of(items[0]);
        let rest = items.drop_first();
        assert(canonical(items[0]));
        lemma_write_read(items[0]);
        lemma_value_bounds(first, 0);
        lemma_same_run_parts(first, items_bytes(rest), s, p);
        lemma_value_same(first, 0, s, p);
        let mid = p + first.len();
        assert forall|i: int| 0 <= i < rest.len() implies canonical(#[trigger] rest[i]) by {
            assert(rest[i] == items[i + 1]);
        }
        lemma_items_read(rest, s, mid);
        assert(seq![items[0]] + rest =~= items);
    }
}

/// The bytes of entries with text keys and canonical values, written at `p`
/// with the byte `e` after them, are read as those entries.
pub proof fn lemma_entries_read(entries: Seq<(Seq<u8>, Value)>, s: Seq<u8>, p: int)
    requires
        entries_canonical(entries),
        same_run(entries_bytes(entries), 0, s, p, entries_bytes(entries).len() as int),
        p + entries_bytes(entries).len() < s.len(),
        s[p + entries_bytes(entries).len()] == 101,
    ensures
        entries_at(s, p) == (entries, p + entries_bytes(entries).len()),
    decreases entries, 1int,
{
    if entries.len() == 0 {
        lemma_end_mark_stops(s, p);
        assert(entries =~= Seq::<(Seq<u8>, Value)>::empty());
    } else {
        let key = string_bytes(entries[0].0);
        let first = bytes_of(entries[0].1);
        let rest = entries.drop_first();
        assert(canonical(entries[0].1));
        lemma_same_run_parts(key + first, entries_bytes(rest), s, p);
        lemma_same_run_parts(key, first, s, p);
        lemma_string_read(entries[0].0, s, p);
        let mid = p + key.len();
        lemma_write_read(entries[0].1);
        lemma_value_bounds(first, 0);
        lemma_value_same(first, 0, s, mid);
        let end = mid + first.len();
        assert forall|i: int| 0 <= i < rest.len() implies valid_utf8((#[trigger] rest[i]).0)
            && rest[i].0.len() <= u64::MAX && canonical(rest[i].1) by {
            assert(rest[i] == entries[i + 1]);
        }
        lemma_entries_read(rest, s, end);
        assert(string_at(s, p) == Some((entries[0].0, mid)));
        assert(value_at(s, mid) == Some((entries[0].1, end)));
        assert(entry_at(s, p) == Some((entries[0], end)));
        assert(seq![entries[0]] + rest =~= entries);
    }
}

/// Round trip: where `s` holds a value at its start, the bytes written for
/// that value hold the same value, and nothing after it.
pub proof fn lemma_round_trip(s: Seq<u8>)
    requires
        value_at(s, 0) is Some,
    ensures
        value_at(bytes_of(value_at(s, 0).unwrap().0), 0) == Some(
            (value_at(s, 0).unwrap().0, bytes_of(value_at(s, 0).unwrap().0).len() as int),
        ),
{
    lemma_read_canonical(s, 0);
    lemma_write_read(value_at(s, 0).unwrap().0);
}

} // verus!
