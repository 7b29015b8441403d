//! Decoded bencode values that remember the bytes they were read from.

use crate::grammar::{
    bind, bytes_of, collect, entries_at, entries_bytes, entry_at, items_at, items_bytes, key_index,
    string_at, string_bytes, value_at, Value,
};
use crate::locality::{
    lemma_string_bounds, lemma_unsigned_bounds, lemma_value_bounds, lemma_value_same,
};
use crate::number::{put_decimal, put_signed_decimal, read_signed, read_unsigned, same_run};
use crate::roundtrip::{lemma_entries_bytes_push, lemma_items_bytes_push, lemma_key_index};
use crate::wire::put_bytes;
use vstd::prelude::*;
use vstd::slice::slice_subrange;
use vstd::string::StringSliceAdditionalSpecFns;
use vstd::utf8::valid_utf8;

verus! {

/// The input holds no value at its start.
#[derive(Debug, Clone, Copy, PartialEq, Eq, Structural)]
pub struct ParseError;

/// A decoded value and the bytes of the input that it was read from.
#[derive(Debug, PartialEq, Eq)]
pub struct Decoded<'a> {
    pub source: Option<&'a [u8]>,
    pub kind: DecodedKind<'a>,
}

/// What a decoded value is. A dictionary is a list of entries, each key once,
/// in the order in which the keys first appeared.
#[derive(Debug, PartialEq, Eq)]
pub enum DecodedKind<'a> {
    Bytes(&'a [u8]),
    String(&'a str),
    Int(i64),
    List(Vec<Decoded<'a>>),
    Dict(Vec<(&'a str, Decoded<'a>)>),
}

impl<'a> DecodedKind<'a> {
    /// The value without the places in the input. (The bounds inside the
    /// two sequences only show that the recursion ends.)
    pub open spec fn tree(self) -> Value
        decreases self,
    {
        match self {
            DecodedKind::Bytes(b) => Value::Bytes(b@),
            DecodedKind::String(s) => Value::Text(s.spec_bytes()),
            DecodedKind::Int(n) => Value::Int(n),
            DecodedKind::List(items) => Value::List(
                Seq::new(
                    items@.len(),
                    |i: int|
                        if 0 <= i < items@.len() {
                            items@[i].kind.tree()
                        } else {
                            Value::Int(0)
                        },
                ),
            ),
            DecodedKind::Dict(entries) => Value::Dict(
                Seq::new(
                    entries@.len(),
                    |i: int|
                        if 0 <= i < entries@.len() {
                            (entries@[i].0.spec_bytes(), entries@[i].1.kind.tree())
                        } else {
                            (Seq::empty(), Value::Int(0))
                        },
                ),
            ),
        }
    }
}

impl<'a> View for DecodedKind<'a> {
    type V = Value;

    open spec fn view(&self) -> Value {
        self.tree()
    }
}

impl<'a> View for Decoded<'a> {
    type V = Value;

    open spec fn view(&self) -> Value {
        self.kind.tree()
    }
}

/// The values of the items of a list.
pub open spec fn item_trees(items: Seq<Decoded>) -> Seq<Value> {
    Seq::new(items.len(), |i: int| items[i]@)
}

/// The keys and values of the entries of a dictionary.
pub open spec fn entry_trees(entries: Seq<(&str, Decoded)>) -> Seq<(Seq<u8>, Value)> {
    Seq::new(entries.len(), |i: int| (entries[i].0.spec_bytes(), entries[i].1@))
}

/// A list is worth the values of its items.
pub proof fn lemma_list_tree(items: Vec<Decoded>)
    ensures
        DecodedKind::List(items)@ == Value::List(item_trees(items@)),
{
    assert(DecodedKind::List(items)@->List_0 =~= item_trees(items@));
}

/// A dictionary is worth the keys and values of its entries.
pub proof fn lemma_dict_tree(entries: Vec<(&str, Decoded)>)
    ensures
        DecodedKind::Dict(entries)@ == Value::Dict(entry_trees(entries@)),
{
    assert(DecodedKind::Dict(entries)@->Dict_0 =~= entry_trees(entries@));
}

impl<'a> Decoded<'a> {
    /// Whether every recorded span, in this value and below it, holds when
    /// read alone exactly the value recorded with it.
    pub open spec fn spans_hold(self) -> bool
        decreases self,
    {
        &&& self.source matches Some(src) && value_at(src@, 0) == Some(
            (self@, src@.len() as int),
        )
        &&& match self.kind {
            DecodedKind::List(items) => forall|i: int|
                0 <= i < items@.len() ==> (#[trigger] items@[i]).spans_hold(),
            DecodedKind::Dict(entries) => forall|i: int|
                0 <= i < entries@.len() ==> (#[trigger] entries@[i]).1.spans_hold(),
            _ => true,
        }
    }
}

/// `std::str::from_utf8`: the text that `bytes` are, where they are UTF-8,
/// and `None` where they are not. The text has exactly these bytes.
#[verifier::external_body]
fn text_of<'a>(bytes: &'a [u8]) -> (r: Option<&'a str>)
    ensures
        r is Some <==> valid_utf8(bytes@),
        r matches Some(text) ==> text.spec_bytes() == bytes@,
{
    match std::str::from_utf8(bytes) {
        Ok(text) => Some(text),
        Err(_) => None,
    }
}

/// Whether two byte strings are the same.
pub fn bytes_equal(a: &[u8], b: &[u8]) -> (r: bool)
    ensures
        r <==> a@ == b@,
{
    if a.len() != b.len() {
        return false;
    }
    let mut i: usize = 0;
    while i < a.len()
        invariant
            a@.len() == b@.len(),
            i <= a@.len(),
            forall|j: int| 0 <= j < i ==> a@[j] == b@[j],
        decreases a@.len() - i,
    {
        if a[i] != b[i] {
            return false;
        }
        i += 1;
    }
    assert(a@ =~= b@);
    true
}

/// Whether `r` is what reading a value at `pos` owes: the value that the
/// grammar finds there and where it ends, with every span recorded, or
/// nothing where the grammar finds none.
pub open spec fn reads_value(input: &[u8], pos: usize, r: Option<(Decoded, usize)>) -> bool {
    &&& r is Some <==> value_at(input@, pos as int) is Some
    &&& r matches Some((d, end)) ==> {
        &&& value_at(input@, pos as int) == Some((d@, end as int))
        &&& pos < end <= input@.len()
        &&& d.source matches Some(src) && src@ == input@.subrange(pos as int, end as int)
        &&& d.spans_hold()
    }
}

/// The payload of the string at `pos`, and where the string ends.
fn payload<'a>(input: &'a [u8], pos: usize) -> (r: Option<(&'a [u8], usize)>)
    requires
        pos <= input@.len(),
    ensures
        r is Some <==> string_at(input@, pos as int) is Some,
        r matches Some((payload, end)) ==> string_at(input@, pos as int) == Some(
            (payload@, end as int),
        ),
{
    match read_unsigned(input, pos) {
        None => None,
        Some((len, colon)) => {
            proof {
                lemma_unsigned_bounds(input@, pos as int);
            }
            if colon < input.len() && input[colon] == 58 && (input.len() - colon - 1) as u64
                >= len {
                let start: usize = colon + 1;
                let end: usize = start + len as usize;
                Some((slice_subrange(input, start, end), end))
            } else {
                None
            }
        },
    }
}

/// Gives a value read at `pos..end` its span.
fn with_span<'a>(input: &'a [u8], pos: usize, end: usize, kind: DecodedKind<'a>) -> (d: Decoded<
    'a,
>)
    requires
        pos < end <= input@.len(),
        value_at(input@, pos as int) == Some((kind@, end as int)),
        kind matches DecodedKind::List(items) ==> forall|i: int|
            0 <= i < items@.len() ==> (#[trigger] items@[i]).spans_hold(),
        kind matches DecodedKind::Dict(entries) ==> forall|i: int|
            0 <= i < entries@.len() ==> (#[trigger] entries@[i]).1.spans_hold(),
    ensures
        d.kind == kind,
        d.source matches Some(src) && src@ == input@.subrange(pos as int, end as int),
        d.spans_hold(),
{
    let src = slice_subrange(input, pos, end);
    proof {
        assert(same_run(input@, pos as int, src@, 0, end - pos));
        lemma_value_same(input@, pos as int, src@, 0);
    }
    Decoded { source: Some(src), kind }
}

/// Binds `key` to `value` in `entries`: in place of an earlier entry with
/// that key, else at the end.
fn put_entry<'a>(entries: &mut Vec<(&'a str, Decoded<'a>)>, key: &'a str, value: Decoded<'a>)
    requires
        value.spans_hold(),
        forall|i: int| 0 <= i < old(entries)@.len() ==> (#[trigger] old(entries)@[i]).1.spans_hold(),
    ensures
        entry_trees(final(entries)@) == bind(entry_trees(old(entries)@), key.spec_bytes(), value@),
        forall|i: int|
            0 <= i < final(entries)@.len() ==> (#[trigger] final(entries)@[i]).1.spans_hold(),
{
    let ghost before = entry_trees(entries@);
    let mut i: usize = 0;
    while i < entries.len() && !bytes_equal(entries[i].0.as_bytes(), key.as_bytes())
        invariant
            i <= entries@.len(),
            before == entry_trees(entries@),
            forall|j: int| 0 <= j < i ==> (#[trigger] before[j]).0 != key.spec_bytes(),
        decreases entries@.len() - i,
    {
        i += 1;
    }
    proof {
        lemma_key_index(before, key.spec_bytes(), i as int);
    }
    if i < entries.len() {
        entries.set(i, (key, value));
        assert(entry_trees(entries@) =~= before.update(i as int, (key.spec_bytes(), value@)));
    } else {
        entries.push((key, value));
        assert(entry_trees(entries@) =~= before.push((key.spec_bytes(), value@)));
    }
}

/// A string at `pos`: text where its payload is UTF-8, bytes where not.
fn string<'a>(input: &'a [u8], pos: usize) -> (r: Option<(Decoded<'a>, usize)>)
    requires
        pos < input@.len(),
        input@[pos as int] != 105,
        input@[pos as int] != 108,
        input@[pos as int] != 100,
    ensures
        reads_value(input, pos, r),
{
    proof {
        lemma_value_bounds(input@, pos as int);
    }
    match payload(input, pos) {
        Some((payload, end)) => {
            let kind = match text_of(payload) {
                Some(text) => DecodedKind::String(text),
                None => DecodedKind::Bytes(payload),
            };
            Some((with_span(input, pos, end, kind), end))
        },
        None => None,
    }
}

/// An integer at `pos`: `i`, a signed decimal, `e`.
fn integer<'a>(input: &'a [u8], pos: usize) -> (r: Option<(Decoded<'a>, usize)>)
    requires
        pos < input@.len(),
        input@[pos as int] == 105,
    ensures
        reads_value(input, pos, r),
{
    proof {
        lemma_value_bounds(input@, pos as int);
    }
    let len: usize = input.len();
    match read_signed(input, pos + 1) {
        Some((n, end)) => {
            if end < len && input[end] == 101 {
                Some((with_span(input, pos, end + 1, DecodedKind::Int(n)), end + 1))
            } else {
                None
            }
        },
        None => None,
    }
}

/// A list at `pos`: `l`, values up to the first position where none starts,
/// `e`.
fn list<'a>(input: &'a [u8], pos: usize) -> (r: Option<(Decoded<'a>, usize)>)
    requires
        pos < input@.len(),
        input@[pos as int] == 108,
    ensures
        reads_value(input, pos, r),
    decreases input@.len() - pos, 0int,
{
    let mut items: Vec<Decoded<'a>> = Vec::new();
    let len: usize = input.len();
    let mut cur: usize = pos + 1;
    assert(item_trees(items@) + items_at(input@, cur as int).0 =~= items_at(input@, cur as int).0);
    loop
        invariant_except_break
            items_at(input@, pos + 1) == (
                item_trees(items@) + items_at(input@, cur as int).0,
                items_at(input@, cur as int).1,
            ),
        invariant
            pos < cur <= input@.len(),
            forall|i: int| 0 <= i < items@.len() ==> (#[trigger] items@[i]).spans_hold(),
        ensures
            items_at(input@, pos + 1) == (item_trees(items@), cur as int),
        decreases input@.len() - cur,
    {
        match value(input, cur) {
            Some((item, end)) => {
                let ghost rest = items_at(input@, end as int).0;
                let ghost before = item_trees(items@);
                let ghost tree = item@;
                items.push(item);
                assert(item_trees(items@) + rest =~= before + (seq![tree] + rest));
                cur = end;
            },
            None => {
                assert(item_trees(items@) + Seq::<Value>::empty() =~= item_trees(items@));
                break ;
            },
        }
    }
    proof {
        lemma_value_bounds(input@, pos as int);
        lemma_list_tree(items);
    }
    if cur < len && input[cur] == 101 {
        Some((with_span(input, pos, cur + 1, DecodedKind::List(items)), cur + 1))
    } else {
        None
    }
}

/// A dictionary entry at `pos`: a string that is text, then a value.
fn dict_entry<'a>(input: &'a [u8], pos: usize) -> (r: Option<(&'a str, Decoded<'a>, usize)>)
    requires
        pos <= input@.len(),
    ensures
        r is Some <==> entry_at(input@, pos as int) is Some,
        r matches Some((key, value, end)) ==> {
            &&& entry_at(input@, pos as int) == Some(((key.spec_bytes(), value@), end as int))
            &&& pos < end <= input@.len()
            &&& value.spans_hold()
        },
    decreases input@.len() - pos, 2int,
{
    proof {
        lemma_string_bounds(input@, pos as int);
    }
    match payload(input, pos) {
        Some((payload, mid)) => match text_of(payload) {
            Some(key) => match value(input, mid) {
                Some((value, end)) => Some((key, value, end)),
                None => None,
            },
            None => None,
        },
        None => None,
    }
}

/// A dictionary at `pos`: `d`, entries up to the first position where none
/// starts, `e`. Of two entries with one key the later one stays.
fn dict<'a>(input: &'a [u8], pos: usize) -> (r: Option<(Decoded<'a>, usize)>)
    requires
        pos < input@.len(),
        input@[pos as int] == 100,
    ensures
        reads_value(input, pos, r),
    decreases input@.len() - pos, 0int,
{
    let mut entries: Vec<(&'a str, Decoded<'a>)> = Vec::new();
    let len: usize = input.len();
    let mut cur: usize = pos + 1;
    let ghost mut raw: Seq<(Seq<u8>, Value)> = Seq::empty();
    assert(raw + entries_at(input@, cur as int).0 =~= entries_at(input@, cur as int).0);
    assert(entry_trees(entries@) =~= collect(raw));
    loop
        invariant_except_break
            entries_at(input@, pos + 1) == (
                raw + entries_at(input@, cur as int).0,
                entries_at(input@, cur as int).1,
            ),
        invariant
            pos < cur <= input@.len(),
            entry_trees(entries@) == collect(raw),
            forall|i: int| 0 <= i < entries@.len() ==> (#[trigger] entries@[i]).1.spans_hold(),
        ensures
            entries_at(input@, pos + 1) == (raw, cur as int),
        decreases input@.len() - cur,
    {
        match dict_entry(input, cur) {
            Some((key, value, end)) => {
                let ghost rest = entries_at(input@, end as int).0;
                let ghost pair = (key.spec_bytes(), value@);
                assert(raw.push(pair).drop_last() =~= raw);
                assert(raw.push(pair) + rest =~= raw + (seq![pair] + rest));
                put_entry(&mut entries, key, value);
                proof {
                    raw = raw.push(pair);
                }
                cur = end;
            },
            None => {
                assert(raw + Seq::<(Seq<u8>, Value)>::empty() =~= raw);
                break ;
            },
        }
    }
    proof {
        lemma_value_bounds(input@, pos as int);
        lemma_dict_tree(entries);
    }
    if cur < len && input[cur] == 101 {
        Some((with_span(input, pos, cur + 1, DecodedKind::Dict(entries)), cur + 1))
    } else {
        None
    }
}

/// The value at `pos`: the first byte tells which of the four it can be.
fn value<'a>(input: &'a [u8], pos: usize) -> (r: Option<(Decoded<'a>, usize)>)
    requires
        pos <= input@.len(),
    ensures
        reads_value(input, pos, r),
    decreases input@.len() - pos, 1int,
{
    if pos >= input.len() {
        return None;
    }
    let first: u8 = input[pos];
    if first == 105 {
        integer(input, pos)
    } else if first == 108 {
        list(input, pos)
    } else if first == 100 {
        dict(input, pos)
    } else {
        string(input, pos)
    }
}

/// Reads the value at the start of `encoded`. Gives what is left of the
/// input and the value; every value in the result records the bytes it was
/// read from. Fails where no value starts the input.
pub fn decode<'a>(encoded: &'a [u8]) -> (r: Result<(&'a [u8], Decoded<'a>), ParseError>)
    ensures
        r is Ok <==> value_at(encoded@, 0) is Some,
        r matches Ok((rest, d)) ==> {
            &&& value_at(encoded@, 0) == Some((d@, encoded@.len() - rest@.len()))
            &&& rest@ == encoded@.skip(encoded@.len() - rest@.len())
            &&& d.source matches Some(src) && src@ == encoded@.take(encoded@.len() - rest@.len())
            &&& d.spans_hold()
        },
{
    match value(encoded, 0) {
        Some((d, end)) => {
            let rest = slice_subrange(encoded, end, encoded.len());
            Ok((rest, d))
        },
        None => Err(ParseError),
    }
}

/// Appends a string with payload `payload`: its length, a colon, the bytes.
fn put_string(writer: &mut Vec<u8>, payload: &[u8])
    ensures
        final(writer)@ == old(writer)@ + string_bytes(payload@),
{
    put_decimal(writer, payload.len() as u64);
    writer.push(58);
    put_bytes(writer, payload);
    assert(writer@ =~= old(writer)@ + string_bytes(payload@));
}

impl<'a> Decoded<'a> {
    /// Appends the bytes that stand for this value to `writer`. The recorded
    /// spans play no part: an integer is written without sign or zeros that
    /// it does not need, a dictionary in the order of its entries.
    pub fn encode(&self, writer: &mut Vec<u8>)
        ensures
            final(writer)@ == old(writer)@ + bytes_of(self@),
        decreases self,
    {
        match &self.kind {
            DecodedKind::Bytes(b) => {
                put_string(writer, b);
            },
            DecodedKind::String(s) => {
                put_string(writer, s.as_bytes());
            },
            DecodedKind::Int(n) => {
                writer.push(105);
                put_signed_decimal(writer, *n);
                writer.push(101);
                assert(writer@ =~= old(writer)@ + bytes_of(self@));
            },
            DecodedKind::List(items) => {
                writer.push(108);
                let ghost trees = item_trees(items@);
                let mut i: usize = 0;
                assert(trees.take(0) =~= Seq::<Value>::empty());
                while i < items.len()
                    invariant
                        i <= items@.len(),
                        trees == item_trees(items@),
                        self.kind == DecodedKind::List(*items),
                        writer@ == old(writer)@ + seq![108u8] + items_bytes(trees.take(i as int)),
                    decreases items@.len() - i,
                {
                    proof {
                        vstd::std_specs::vec::axiom_vec_index_decreases(*items, i as int);
                        assert(self.kind->List_0 == *items);
                        assert(decreases_to!(self.kind => self.kind->List_0));
                    }
                    items[i].encode(writer);
                    proof {
                        lemma_items_bytes_push(trees.take(i as int), trees[i as int]);
                        assert(trees.take(i as int).push(trees[i as int]) =~= trees.take(i + 1));
                        assert(writer@ =~= old(writer)@ + seq![108u8] + items_bytes(
                            trees.take(i + 1),
                        ));
                    }
                    i += 1;
                }
                writer.push(101);
                proof {
                    lemma_list_tree(*items);
                    assert(trees.take(items@.len() as int) =~= trees);
                    assert(writer@ =~= old(writer)@ + bytes_of(self@));
                }
            },
            DecodedKind::Dict(entries) => {
                writer.push(100);
                let ghost trees = entry_trees(entries@);
                let mut i: usize = 0;
                assert(trees.take(0) =~= Seq::<(Seq<u8>, Value)>::empty());
                while i < entries.len()
                    invariant
                        i <= entries@.len(),
                        trees == entry_trees(entries@),
                        self.kind == DecodedKind::Dict(*entries),
                        writer@ == old(writer)@ + seq![100u8] + entries_bytes(
                            trees.take(i as int),
                        ),
                    decreases entries@.len() - i,
                {
                    put_string(writer, entries[i].0.as_bytes());
                    proof {
                        vstd::std_specs::vec::axiom_vec_index_decreases(*entries, i as int);
                        assert(self.kind->Dict_0 == *entries);
                        assert(decreases_to!(self.kind => self.kind->Dict_0));
                    }
                    entries[i].1.encode(writer);
                    proof {
                        lemma_entries_bytes_push(trees.take(i as int), trees[i as int]);
                        assert(trees.take(i as int).push(trees[i as int]) =~= trees.take(i + 1));
                        assert(writer@ =~= old(writer)@ + seq![100u8] + entries_bytes(
                            trees.take(i + 1),
                        ));
                    }
                    i += 1;
                }
                writer.push(101);
                proof {
                    lemma_dict_tree(*entries);
                    assert(trees.take(entries@.len() as int) =~= trees);
                    assert(writer@ =~= old(writer)@ + bytes_of(self@));
                }
            },
        }
    }
}

impl<'a> DecodedKind<'a> {
    /// This kind as a value read from `source`.
    pub fn into_decoded(self, source: &'a [u8]) -> (d: Decoded<'a>)
        ensures
            d.source == Some(source),
            d.kind == self,
    {
        Decoded { source: Some(source), kind: self }
    }
}

/// The value under `key` in `v`, where `v` is a dictionary that has the key.
pub open spec fn field(v: Value, key: Seq<u8>) -> Option<Value> {
    match v {
        Value::Dict(entries) => lookup(entries, key),
        _ => None,
    }
}

/// The value that `key` is bound to in `entries`.
pub open spec fn lookup(entries: Seq<(Seq<u8>, Value)>, key: Seq<u8>) -> Option<Value> {
    let i = key_index(entries, key);
    if i < entries.len() {
        Some(entries[i].1)
    } else {
        None
    }
}

impl<'a> Decoded<'a> {
    /// The entry's value under `key`, where this is a dictionary that has
    /// the key.
    pub open spec fn child(self, key: Seq<u8>) -> Option<Decoded<'a>> {
        match self.kind {
            DecodedKind::Dict(entries) => {
                let i = key_index(entry_trees(entries@), key);
                if i < entries@.len() {
                    Some(entries@[i].1)
                } else {
                    None
                }
            },
            _ => None,
        }
    }

    /// The value under `key`, where this is a dictionary that has the key.
    pub fn get(&self, key: &str) -> (r: Option<&Decoded<'a>>)
        ensures
            r is Some <==> self.child(key.spec_bytes()) is Some,
            r matches Some(d) ==> self.child(key.spec_bytes()) == Some(*d),
            field(self@, key.spec_bytes()) == match r {
                Some(d) => Some(d@),
                None => None,
            },
            r matches Some(d) ==> (self.spans_hold() ==> d.spans_hold()),
    {
        match &self.kind {
            DecodedKind::Dict(entries) => {
                proof {
                    lemma_dict_tree(*entries);
                }
                let ghost trees = entry_trees(entries@);
                let mut i: usize = 0;
                while i < entries.len() && !bytes_equal(entries[i].0.as_bytes(), key.as_bytes())
                    invariant
                        i <= entries@.len(),
                        trees == entry_trees(entries@),
                        forall|j: int| 0 <= j < i ==> (#[trigger] trees[j]).0 != key.spec_bytes(),
                    decreases entries@.len() - i,
                {
                    i += 1;
                }
                proof {
                    lemma_key_index(trees, key.spec_bytes(), i as int);
                }
                if i < entries.len() {
                    Some(&entries[i].1)
                } else {
                    None
                }
            },
            _ => None,
        }
    }

    /// The item at `index`, where this is a list that long.
    pub fn item(&self, index: usize) -> (r: Option<&Decoded<'a>>)
        ensures
            match self@ {
                Value::List(items) => match r {
                    Some(d) => index < items.len() && items[index as int] == d@ && (
                    self.spans_hold() ==> d.spans_hold()),
                    None => index >= items.len(),
                },
                _ => r is None,
            },
    {
        match &self.kind {
            DecodedKind::List(items) => {
                proof {
                    lemma_list_tree(*items);
                }
                if index < items.len() {
                    Some(&items[index])
                } else {
                    None
                }
            },
            _ => None,
        }
    }
}

} // verus!
