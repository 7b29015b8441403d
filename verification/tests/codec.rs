use torrent_core::decode::{decode, Decoded, DecodedKind, ParseError};

fn kind_of<'a>(input: &'a [u8]) -> DecodedKind<'a> {
    let (rest, value) = decode(input).expect("a value");
    assert!(rest.is_empty());
    assert_eq!(value.source, Some(input));
    value.kind
}

fn bare<'a>(value: &Decoded<'a>) -> Decoded<'a> {
    let kind = match &value.kind {
        DecodedKind::Bytes(b) => DecodedKind::Bytes(b),
        DecodedKind::String(s) => DecodedKind::String(s),
        DecodedKind::Int(n) => DecodedKind::Int(*n),
        DecodedKind::List(items) => DecodedKind::List(items.iter().map(bare).collect()),
        DecodedKind::Dict(entries) => {
            DecodedKind::Dict(entries.iter().map(|(k, v)| (*k, bare(v))).collect())
        }
    };
    Decoded { source: None, kind }
}

fn encoded(value: &Decoded) -> Vec<u8> {
    let mut out = Vec::new();
    value.encode(&mut out);
    out
}

#[test]
fn decodes_a_text_string() {
    assert_eq!(kind_of(b"5:hello"), DecodedKind::String("hello"));
    assert_eq!(kind_of(b"0:"), DecodedKind::String(""));
}

#[test]
fn length_may_have_leading_zeros() {
    assert_eq!(kind_of(b"03:abc"), DecodedKind::String("abc"));
    assert_eq!(kind_of(b"000:"), DecodedKind::String(""));
}

#[test]
fn decodes_integers() {
    assert_eq!(kind_of(b"i42e"), DecodedKind::Int(42));
    assert_eq!(kind_of(b"i-42e"), DecodedKind::Int(-42));
    assert_eq!(kind_of(b"i0e"), DecodedKind::Int(0));
    assert_eq!(kind_of(b"i+5e"), DecodedKind::Int(5));
    assert_eq!(kind_of(b"i007e"), DecodedKind::Int(7));
    assert_eq!(kind_of(b"i-0e"), DecodedKind::Int(0));
}

#[test]
fn decodes_the_ends_of_the_integer_range() {
    assert_eq!(kind_of(b"i9223372036854775807e"), DecodedKind::Int(i64::MAX));
    assert_eq!(kind_of(b"i-9223372036854775808e"), DecodedKind::Int(i64::MIN));
    assert_eq!(decode(b"i9223372036854775808e"), Err(ParseError));
    assert_eq!(decode(b"i-9223372036854775809e"), Err(ParseError));
}

#[test]
fn decodes_a_list_left_to_right() {
    let input = b"l4:spami42ee";
    let DecodedKind::List(items) = kind_of(input) else {
        panic!("a list");
    };
    assert_eq!(items.len(), 2);
    assert_eq!(items[0].kind, DecodedKind::String("spam"));
    assert_eq!(items[0].source, Some(&b"4:spam"[..]));
    assert_eq!(items[1].kind, DecodedKind::Int(42));
    assert_eq!(items[1].source, Some(&b"i42e"[..]));
    assert_eq!(kind_of(b"le"), DecodedKind::List(vec![]));
}

#[test]
fn decodes_a_dictionary() {
    let DecodedKind::Dict(entries) = kind_of(b"d3:cow3:moo4:spami3ee") else {
        panic!("a dictionary");
    };
    assert_eq!(entries.len(), 2);
    assert_eq!(entries[0].0, "cow");
    assert_eq!(entries[0].1.kind, DecodedKind::String("moo"));
    assert_eq!(entries[1].0, "spam");
    assert_eq!(entries[1].1.kind, DecodedKind::Int(3));
    assert_eq!(kind_of(b"de"), DecodedKind::Dict(vec![]));
}

#[test]
fn leaves_what_follows_the_value() {
    let (rest, value) = decode(b"i1e4:tail").unwrap();
    assert_eq!(rest, b"4:tail");
    assert_eq!(value.kind, DecodedKind::Int(1));
    assert_eq!(value.source, Some(&b"i1e"[..]));
}

#[test]
fn the_later_of_two_entries_with_one_key_stays() {
    let DecodedKind::Dict(entries) = kind_of(b"d1:ai1e1:bi2e1:ai3ee") else {
        panic!("a dictionary");
    };
    assert_eq!(entries.len(), 2);
    assert_eq!(entries[0].0, "a");
    assert_eq!(entries[0].1.kind, DecodedKind::Int(3));
    assert_eq!(entries[0].1.source, Some(&b"i3e"[..]));
    assert_eq!(entries[1].0, "b");
    assert_eq!(entries[1].1.kind, DecodedKind::Int(2));
}

#[test]
fn span_of_a_nested_value_is_its_exact_bytes() {
    let input = b"d4:infod6:lengthi100eee";
    let (_, value) = decode(input).unwrap();
    let info = value.get("info").expect("info");
    assert_eq!(info.source, Some(&b"d6:lengthi100ee"[..]));
    let (rest, alone) = decode(info.source.unwrap()).unwrap();
    assert!(rest.is_empty());
    assert_eq!(&alone, info);
    let length = info.get("length").expect("length");
    assert_eq!(length.source, Some(&b"i100e"[..]));
    assert_eq!(length.kind, DecodedKind::Int(100));
}

#[test]
fn span_keeps_the_spelling_of_an_integer() {
    let (_, value) = decode(b"li007ee").unwrap();
    let item = value.item(0).unwrap();
    assert_eq!(item.source, Some(&b"i007e"[..]));
    assert_eq!(encoded(item), b"i7e");
}

#[test]
fn utf8_payload_is_text() {
    let input = "5:café".as_bytes();
    assert_eq!(input.len(), 7);
    assert_eq!(kind_of(input), DecodedKind::String("café"));
}

#[test]
fn payload_that_is_not_utf8_is_bytes() {
    assert_eq!(kind_of(b"1:\xff"), DecodedKind::Bytes(&b"\xff"[..]));
    assert_eq!(kind_of(b"3:a\xc3("), DecodedKind::Bytes(&b"a\xc3("[..]));
}

#[test]
fn payload_cut_inside_a_character_is_bytes() {
    let input = "4:café".as_bytes();
    let (rest, value) = decode(input).unwrap();
    assert_eq!(value.kind, DecodedKind::Bytes(&b"caf\xc3"[..]));
    assert_eq!(rest, b"\xa9");
}

#[test]
fn rejects_what_is_no_value() {
    assert_eq!(decode(b""), Err(ParseError));
    assert_eq!(decode(b"x"), Err(ParseError));
    assert_eq!(decode(b"e"), Err(ParseError));
    assert_eq!(decode(b":abc"), Err(ParseError));
    assert_eq!(decode(b"-1:a"), Err(ParseError));
}

#[test]
fn rejects_a_truncated_string() {
    assert_eq!(decode(b"5:abc"), Err(ParseError));
    assert_eq!(decode(b"5"), Err(ParseError));
    assert_eq!(decode(b"5abc"), Err(ParseError));
}

#[test]
fn rejects_a_length_that_does_not_fit() {
    assert_eq!(decode(b"18446744073709551616:a"), Err(ParseError));
    assert_eq!(decode(b"18446744073709551615:a"), Err(ParseError));
}

#[test]
fn rejects_a_malformed_integer() {
    assert_eq!(decode(b"ie"), Err(ParseError));
    assert_eq!(decode(b"i-e"), Err(ParseError));
    assert_eq!(decode(b"i42"), Err(ParseError));
    assert_eq!(decode(b"i4x2e"), Err(ParseError));
    assert_eq!(decode(b"i--1e"), Err(ParseError));
}

#[test]
fn rejects_an_unterminated_list_or_dictionary() {
    assert_eq!(decode(b"l4:spam"), Err(ParseError));
    assert_eq!(decode(b"li1e"), Err(ParseError));
    assert_eq!(decode(b"d1:ai1e"), Err(ParseError));
    assert_eq!(decode(b"l5:abe"), Err(ParseError));
}

#[test]
fn rejects_a_key_that_is_no_string() {
    assert_eq!(decode(b"di1ei2ee"), Err(ParseError));
    assert_eq!(decode(b"dli1eei2ee"), Err(ParseError));
}

#[test]
fn rejects_a_key_that_is_not_utf8() {
    assert_eq!(decode(b"d1:\xffi1ee"), Err(ParseError));
}

#[test]
fn rejects_a_key_without_a_value() {
    assert_eq!(decode(b"d1:ae"), Err(ParseError));
}

#[test]
fn encodes_each_kind() {
    let text = Decoded { source: None, kind: DecodedKind::String("spam") };
    assert_eq!(encoded(&text), b"4:spam");
    let bytes = Decoded { source: None, kind: DecodedKind::Bytes(&[0xff, 0x00]) };
    assert_eq!(encoded(&bytes), b"2:\xff\x00");
    let int = Decoded { source: None, kind: DecodedKind::Int(-7) };
    assert_eq!(encoded(&int), b"i-7e");
    let min = Decoded { source: None, kind: DecodedKind::Int(i64::MIN) };
    assert_eq!(encoded(&min), b"i-9223372036854775808e");
    let list = Decoded { source: None, kind: DecodedKind::List(vec![text, int]) };
    assert_eq!(encoded(&list), b"l4:spami-7ee");
    let dict = Decoded { source: None, kind: DecodedKind::Dict(vec![("k", list), ("z", bytes)]) };
    assert_eq!(encoded(&dict), b"d1:kl4:spami-7ee1:z2:\xff\x00e");
}

#[test]
fn encoding_then_decoding_gives_the_same_tree() {
    let inputs: [&[u8]; 6] = [
        b"d8:announce3:url4:infod6:lengthi100e4:name1:n6:pieces2:\xff\xfeee",
        b"l1:a1:bli1ei2eedee",
        b"i-12e",
        b"0:",
        b"d1:ai1e1:ai2ee",
        b"li+7ei007ee",
    ];
    for input in inputs {
        let (_, first) = decode(input).unwrap();
        let written = encoded(&first);
        let (rest, second) = decode(&written).unwrap();
        assert!(rest.is_empty());
        assert_eq!(bare(&second), bare(&first));
        assert_eq!(encoded(&second), written);
    }
}

#[test]
fn encoding_a_canonical_input_gives_it_back() {
    let input = b"d3:cowl3:mooi-3ee4:spam2:\xc3(e";
    let (_, value) = decode(input).unwrap();
    assert_eq!(encoded(&value), input);
}

#[test]
fn into_decoded_records_the_source() {
    let value = DecodedKind::Int(5).into_decoded(b"i5e");
    assert_eq!(value.source, Some(&b"i5e"[..]));
    assert_eq!(value.kind, DecodedKind::Int(5));
}

#[test]
fn get_and_item_look_inside() {
    let (_, value) = decode(b"d1:al1:x1:ye1:bi2ee").unwrap();
    let list = value.get("a").unwrap();
    assert_eq!(list.item(1).unwrap().kind, DecodedKind::String("y"));
    assert!(list.item(2).is_none());
    assert!(list.get("a").is_none());
    assert!(value.get("c").is_none());
    assert!(value.item(0).is_none());
    assert_eq!(value.get("b").unwrap().kind, DecodedKind::Int(2));
}

#[test]
fn shows_each_kind() {
    assert_eq!(decode(b"5:hello").unwrap().1.to_string(), "hello");
    assert_eq!(decode(b"i-42e").unwrap().1.to_string(), "-42");
    assert_eq!(decode(b"i0e").unwrap().1.to_string(), "0");
    assert_eq!(decode(b"3:\xff\x00\x1a").unwrap().1.to_string(), "0xff001a");
    assert_eq!(decode(b"le").unwrap().1.to_string(), "[]");
    assert_eq!(decode(b"de").unwrap().1.to_string(), "{}");
    assert_eq!(decode(b"l1:ai2el1:bee").unwrap().1.to_string(), "[a, 2, [b]]");
    assert_eq!(
        decode(b"d1:ai1e3:key1:\xab4:listli1ei2eee").unwrap().1.to_string(),
        "{a: 1, key: 0xab, list: [1, 2]}"
    );
    assert_eq!(decode("5:café".as_bytes()).unwrap().1.to_string(), "café");
    assert_eq!(
        decode(b"i-9223372036854775808e").unwrap().1.to_string(),
        "-9223372036854775808"
    );
}

#[test]
fn show_appends() {
    let mut out = String::from("value = ");
    decode(b"li1ee").unwrap().1.show(&mut out);
    assert_eq!(out, "value = [1]");
}
