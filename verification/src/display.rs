//! A decoded value as text for a reader: bytes in hexadecimal, text as it
//! is, lists in square brackets, dictionaries in braces.

use crate::decode::{entry_trees, item_trees, lemma_dict_tree, lemma_list_tree, Decoded, DecodedKind};
use crate::grammar::Value;
use crate::number::{put_signed_decimal, signed_decimal};
use vstd::prelude::*;
use vstd::string::{StringExecFns, StringSliceAdditionalSpecFns};
use vstd::utf8::decode_utf8;

verus! {

/// The character of the hexadecimal digit `d`.
pub open spec fn hex_char(d: u8) -> char {
    if d < 10 {
        (48 + d) as char
    } else {
        (87 + d) as char
    }
}

/// Each byte as two hexadecimal digits, the higher one first.
pub open spec fn hex_of(bytes: Seq<u8>) -> Seq<char>
    decreases bytes.len(),
{
    if bytes.len() == 0 {
        Seq::empty()
    } else {
        hex_of(bytes.drop_last()) + seq![hex_char(bytes.last() / 16), hex_char(bytes.last() % 16)]
    }
}

/// Each ASCII byte as its character.
pub open spec fn ascii_of(bytes: Seq<u8>) -> Seq<char> {
    Seq::new(bytes.len(), |i: int| bytes[i] as char)
}

/// The text that shows `v`.
pub open spec fn shown(v: Value) -> Seq<char>
    decreases v, 0int,
{
    match v {
        Value::Bytes(b) => seq!['0', 'x'] + hex_of(b),
        Value::Text(b) => decode_utf8(b),
        Value::Int(n) => ascii_of(signed_decimal(n as int)),
        Value::List(items) => seq!['['] + shown_items(items) + seq![']'],
        Value::Dict(entries) => seq!['{'] + shown_entries(entries) + seq!['}'],
    }
}

/// The texts of the items, with a comma and a space between two.
pub open spec fn shown_items(items: Seq<Value>) -> Seq<char>
    decreases items, 1int,
{
    if items.len() == 0 {
        Seq::empty()
    } else if items.len() == 1 {
        shown(items[0])
    } else {
        shown_items(items.drop_last()) + seq![',', ' '] + shown(items.last())
    }
}

/// The texts of the entries, each a key, a colon, a space and the value,
/// with a comma and a space between two.
pub open spec fn shown_entries(entries: Seq<(Seq<u8>, Value)>) -> Seq<char>
    decreases entries, 1int,
{
    if entries.len() == 0 {
        Seq::empty()
    } else if entries.len() == 1 {
        decode_utf8(entries[0].0) + seq![':', ' '] + shown(entries[0].1)
    } else {
        shown_entries(entries.drop_last()) + seq![',', ' '] + decode_utf8(entries.last().0)
            + seq![':', ' '] + shown(entries.last().1)
    }
}

/// The hexadecimal digit `d` as text.
fn hex_digit(d: u8) -> (r: &'static str)
    requires
        d < 16,
    ensures
        r@ == seq![hex_char(d)],
{
    proof {
        reveal_strlit("0");
        reveal_strlit("1");
        reveal_strlit("2");
        reveal_strlit("3");
        reveal_strlit("4");
        reveal_strlit("5");
        reveal_strlit("6");
        reveal_strlit("7");
        reveal_strlit("8");
        reveal_strlit("9");
        reveal_strlit("a");
        reveal_strlit("b");
        reveal_strlit("c");
        reveal_strlit("d");
        reveal_strlit("e");
        reveal_strlit("f");
    }
    let r = match d {
        0 => "0",
        1 => "1",
        2 => "2",
        3 => "3",
        4 => "4",
        5 => "5",
        6 => "6",
        7 => "7",
        8 => "8",
        9 => "9",
        10 => "a",
        11 => "b",
        12 => "c",
        13 => "d",
        14 => "e",
        _ => "f",
    };
    assert(r@ =~= seq![hex_char(d)]);
    r
}

/// Appends each byte as two hexadecimal digits.
fn put_hex(out: &mut String, bytes: &[u8])
    ensures
        final(out)@ == old(out)@ + hex_of(bytes@),
{
    let mut i: usize = 0;
    assert(bytes@.take(0) =~= Seq::<u8>::empty());
    assert(out@ =~= old(out)@ + hex_of(bytes@.take(0)));
    while i < bytes.len()
        invariant
            i <= bytes@.len(),
            out@ == old(out)@ + hex_of(bytes@.take(i as int)),
        decreases bytes@.len() - i,
    {
        let b: u8 = bytes[i];
        let ghost before = out@;
        out.append(hex_digit(b / 16));
        out.append(hex_digit(b % 16));
        proof {
            let now = bytes@.take(i + 1);
            assert(now.drop_last() =~= bytes@.take(i as int));
            assert(now.last() == b);
            assert(out@ =~= old(out)@ + hex_of(now));
        }
        i += 1;
    }
    assert(bytes@.take(bytes@.len() as int) =~= bytes@);
}

/// Appends a number in decimal.
fn put_number(out: &mut String, n: i64)
    ensures
        final(out)@ == old(out)@ + ascii_of(signed_decimal(n as int)),
{
    let mut digits: Vec<u8> = Vec::new();
    put_signed_decimal(&mut digits, n);
    assert(digits@ =~= signed_decimal(n as int));
    proof {
        if n < 0 {
            crate::number::lemma_decimal((-n) as nat);
        } else {
            crate::number::lemma_decimal(n as nat);
        }
        reveal_strlit("-");
    }
    let mut i: usize = 0;
    assert(out@ =~= old(out)@ + ascii_of(digits@.take(0)));
    while i < digits.len()
        invariant
            i <= digits@.len(),
            out@ == old(out)@ + ascii_of(digits@.take(i as int)),
            forall|j: int| 0 <= j < digits@.len() ==> digits@[j] == 45 || 48 <= #[trigger] digits@[j] <= 57,
            "-"@ == seq!['-'],
        decreases digits@.len() - i,
    {
        let b: u8 = digits[i];
        if b == 45 {
            out.append("-");
        } else {
            out.append(hex_digit(b - 48));
        }
        assert(out@ =~= old(out)@ + ascii_of(digits@.take(i + 1)));
        i += 1;
    }
    assert(digits@.take(digits@.len() as int) =~= digits@);
}

impl<'a> Decoded<'a> {
    /// Appends the text that shows this value to `out`.
    pub fn show(&self, out: &mut String)
        ensures
            final(out)@ == old(out)@ + shown(self@),
        decreases self,
    {
        broadcast use vstd::utf8::encode_utf8_decode_utf8;

        proof {
            reveal_strlit("0x");
            reveal_strlit("[");
            reveal_strlit("]");
            reveal_strlit("{");
            reveal_strlit("}");
            reveal_strlit(", ");
            reveal_strlit(": ");
        }
        match &self.kind {
            DecodedKind::Bytes(b) => {
                out.append("0x");
                put_hex(out, b);
                assert(out@ =~= old(out)@ + shown(self@));
            },
            DecodedKind::String(s) => {
                out.append(s);
            },
            DecodedKind::Int(n) => {
                put_number(out, *n);
            },
            DecodedKind::List(items) => {
                out.append("[");
                let ghost trees = item_trees(items@);
                let mut i: usize = 0;
                assert(trees.take(0) =~= Seq::<Value>::empty());
                assert(out@ =~= old(out)@ + seq!['['] + shown_items(trees.take(0)));
                while i < items.len()
                    invariant
                        i <= items@.len(),
                        trees == item_trees(items@),
                        self.kind == DecodedKind::List(*items),
                        out@ == old(out)@ + seq!['['] + shown_items(trees.take(i as int)),
                        ", "@ == seq![',', ' '],
                    decreases items@.len() - i,
                {
                    if i > 0 {
                        out.append(", ");
                    }
                    proof {
                        vstd::std_specs::vec::axiom_vec_index_decreases(*items, i as int);
                        assert(self.kind->List_0 == *items);
                        assert(decreases_to!(self.kind => self.kind->List_0));
                    }
                    items[i].show(out);
                    proof {
                        let now = trees.take(i + 1);
                        assert(now.drop_last() =~= trees.take(i as int));
                        assert(now.last() == trees[i as int]);
                        assert(now[0] == trees[0]);
                        assert(out@ =~= old(out)@ + seq!['['] + shown_items(now));
                    }
                    i += 1;
                }
                out.append("]");
                proof {
                    lemma_list_tree(*items);
                    assert(trees.take(items@.len() as int) =~= trees);
                    assert(out@ =~= old(out)@ + shown(self@));
                }
            },
            DecodedKind::Dict(entries) => {
                out.append("{");
                let ghost trees = entry_trees(entries@);
                let mut i: usize = 0;
                assert(trees.take(0) =~= Seq::<(Seq<u8>, Value)>::empty());
                assert(out@ =~= old(out)@ + seq!['{'] + shown_entries(trees.take(0)));
                while i < entries.len()
                    invariant
                        i <= entries@.len(),
                        trees == entry_trees(entries@),
                        self.kind == DecodedKind::Dict(*entries),
                        out@ == old(out)@ + seq!['{'] + shown_entries(trees.take(i as int)),
                        ", "@ == seq![',', ' '],
                        ": "@ == seq![':', ' '],
                    decreases entries@.len() - i,
                {
                    if i > 0 {
                        out.append(", ");
                    }
                    out.append(entries[i].0);
                    out.append(": ");
                    proof {
                        vstd::std_specs::vec::axiom_vec_index_decreases(*entries, i as int);
                        assert(self.kind->Dict_0 == *entries);
                        assert(decreases_to!(self.kind => self.kind->Dict_0));
                    }
                    entries[i].1.show(out);
                    proof {
                        let now = trees.take(i + 1);
                        assert(now.drop_last() =~= trees.take(i as int));
                        assert(now.last() == trees[i as int]);
                        assert(now[0] == trees[0]);
                        vstd::utf8::encode_utf8_decode_utf8(entries@[i as int].0@);
                        assert(decode_utf8(trees[i as int].0) == entries@[i as int].0@);
                        assert(out@ =~= old(out)@ + seq!['{'] + shown_entries(now));
                    }
                    i += 1;
                }
                out.append("}");
                proof {
                    lemma_dict_tree(*entries);
                    assert(trees.take(entries@.len() as int) =~= trees);
                    assert(out@ =~= old(out)@ + shown(self@));
                }
            },
        }
    }

    /// The text that shows this value: bytes as `0x` and hexadecimal digits,
    /// text as it is, an integer in decimal, a list in square brackets, a
    /// dictionary in braces as `key: value`, the parts of both set apart by
    /// a comma and a space.
    pub fn to_string(&self) -> (r: String)
        ensures
            r@ == shown(self@),
    {
        let mut out: String = String::new();
        self.show(&mut out);
        assert(out@ =~= shown(self@));
        out
    }
}

} // verus!
