//! The bencode grammar as mathematics: the tree that a value is, the bytes
//! that stand for a tree, and the tree that bytes stand for.
//!
//! A string is `<length>:<bytes>`, an integer `i<number>e`, a list
//! `l<value>*e`, a dictionary `d(<string><value>)*e`.

use crate::number::{decimal, signed_at, signed_decimal, unsigned_at};
use vstd::prelude::*;
use vstd::utf8::valid_utf8;

verus! {

/// A decoded value without its place in the input. A dictionary keeps its
/// entries in the order of their first appearance, each key once.
pub enum Value {
    /// A string whose bytes are not UTF-8.
    Bytes(Seq<u8>),
    /// A string whose bytes are UTF-8: the bytes.
    Text(Seq<u8>),
    Int(i64),
    List(Seq<Value>),
    Dict(Seq<(Seq<u8>, Value)>),
}

/// The string that `payload` is read as: text where it is UTF-8.
pub open spec fn classify(payload: Seq<u8>) -> Value {
    if valid_utf8(payload) {
        Value::Text(payload)
    } else {
        Value::Bytes(payload)
    }
}

/// The place of `key` among `entries`, or their number where it is new.
pub open spec fn key_index(entries: Seq<(Seq<u8>, Value)>, key: Seq<u8>) -> int
    decreases entries.len(),
{
    if entries.len() == 0 {
        0
    } else if entries[0].0 == key {
        0
    } else {
        1 + key_index(entries.drop_first(), key)
    }
}

/// `entries` with `key` bound to `value`: in place of an earlier binding of
/// `key`, else at the end.
pub open spec fn bind(entries: Seq<(Seq<u8>, Value)>, key: Seq<u8>, value: Value) -> Seq<
    (Seq<u8>, Value),
> {
    let i = key_index(entries, key);
    if i < entries.len() {
        entries.update(i, (key, value))
    } else {
        entries.push((key, value))
    }
}

/// The dictionary that a run of entries makes: of two with one key the later
/// one stays.
pub open spec fn collect(raw: Seq<(Seq<u8>, Value)>) -> Seq<(Seq<u8>, Value)>
    decreases raw.len(),
{
    if raw.len() == 0 {
        Seq::empty()
    } else {
        bind(collect(raw.drop_last()), raw.last().0, raw.last().1)
    }
}

/// A string at `pos`: its payload and where it ends.
pub open spec fn string_at(s: Seq<u8>, pos: int) -> Option<(Seq<u8>, int)> {
    match unsigned_at(s, pos) {
        Some((len, colon)) => {
            if colon < s.len() && s[colon] == 58 && colon + 1 + len <= s.len() {
                Some((s.subrange(colon + 1, colon + 1 + len), colon + 1 + len))
            } else {
                None
            }
        },
        None => None,
    }
}

/// The value at `pos` and where it ends, or `None` where none of the four
/// productions matches there.
pub open spec fn value_at(s: Seq<u8>, pos: int) -> Option<(Value, int)>
    decreases s.len() - pos, 0int,
{
    if !(0 <= pos < s.len()) {
        None
    } else if s[pos] == 105 {
        match signed_at(s, pos + 1) {
            Some((n, end)) => if end < s.len() && s[end] == 101 {
                Some((Value::Int(n), end + 1))
            } else {
                None
            },
            None => None,
        }
    } else if s[pos] == 108 {
        let (items, end) = items_at(s, pos + 1);
        if 0 <= end < s.len() && s[end] == 101 {
            Some((Value::List(items), end + 1))
        } else {
            None
        }
    } else if s[pos] == 100 {
        let (raw, end) = entries_at(s, pos + 1);
        if 0 <= end < s.len() && s[end] == 101 {
            Some((Value::Dict(collect(raw)), end + 1))
        } else {
            None
        }
    } else {
        match string_at(s, pos) {
            Some((payload, end)) => Some((classify(payload), end)),
            None => None,
        }
    }
}

/// The values that follow one another from `pos`, up to the first position
/// where no value starts, and that position.
pub open spec fn items_at(s: Seq<u8>, pos: int) -> (Seq<Value>, int)
    decreases s.len() - pos, 1int,
{
    match value_at(s, pos) {
        Some((item, end)) => if pos < end <= s.len() {
            let (more, last) = items_at(s, end);
            (seq![item] + more, last)
        } else {
            (Seq::empty(), pos)
        },
        None => (Seq::empty(), pos),
    }
}

/// A dictionary entry at `pos`: a string that is text, then a value.
pub open spec fn entry_at(s: Seq<u8>, pos: int) -> Option<((Seq<u8>, Value), int)>
    decreases s.len() - pos, 1int,
{
    match string_at(s, pos) {
        Some((key, mid)) => if valid_utf8(key) && pos < mid {
            match value_at(s, mid) {
                Some((value, end)) => Some(((key, value), end)),
                None => None,
            }
        } else {
            None
        },
        None => None,
    }
}

/// The entries that follow one another from `pos`, up to the first position
/// where no entry starts, and that position.
pub open spec fn entries_at(s: Seq<u8>, pos: int) -> (Seq<(Seq<u8>, Value)>, int)
    decreases s.len() - pos, 2int,
{
    match entry_at(s, pos) {
        Some((entry, end)) => if pos < end <= s.len() {
            let (more, last) = entries_at(s, end);
            (seq![entry] + more, last)
        } else {
            (Seq::empty(), pos)
        },
        None => (Seq::empty(), pos),
    }
}

/// The bytes of a string with payload `payload`.
pub open spec fn string_bytes(payload: Seq<u8>) -> Seq<u8> {
    decimal(payload.len()) + seq![58u8] + payload
}

/// The bytes that stand for `v`.
pub open spec fn bytes_of(v: Value) -> Seq<u8>
    decreases v, 0int,
{
    match v {
        Value::Bytes(b) => string_bytes(b),
        Value::Text(b) => string_bytes(b),
        Value::Int(n) => seq![105u8] + signed_decimal(n as int) + seq![101u8],
        Value::List(items) => seq![108u8] + items_bytes(items) + seq![101u8],
        Value::Dict(entries) => seq![100u8] + entries_bytes(entries) + seq![101u8],
    }
}

/// The bytes of the values of a list, one after the other.
pub open spec fn items_bytes(items: Seq<Value>) -> Seq<u8>
    decreases items, 1int,
{
    if items.len() == 0 {
        Seq::empty()
    } else {
        bytes_of(items[0]) + items_bytes(items.drop_first())
    }
}

/// The bytes of the entries of a dictionary, each a key and its value.
pub open spec fn entries_bytes(entries: Seq<(Seq<u8>, Value)>) -> Seq<u8>
    decreases entries, 1int,
{
    if entries.len() == 0 {
        Seq::empty()
    } else {
        string_bytes(entries[0].0) + bytes_of(entries[0].1) + entries_bytes(entries.drop_first())
    }
}

} // verus!
