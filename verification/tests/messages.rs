use torrent_core::message::{Message, ProtocolError, ReadError};

fn frame(message: &Message) -> Vec<u8> {
    let mut out = Vec::new();
    message.write_to(&mut out).expect("a frame");
    out
}

fn all_kinds() -> Vec<Message> {
    vec![
        Message::Choke,
        Message::Unchoke,
        Message::Interested,
        Message::NotInterested,
        Message::Have {},
        Message::Bitfield(vec![0b1010_0000, 0xff]),
        Message::Bitfield(vec![]),
        Message::Request { index: 1, begin: 16384, length: 16384 },
        Message::Request { index: u32::MAX, begin: 0, length: 1 },
        Message::Piece { index: 7, begin: 32768, block: vec![1, 2, 3, 4, 5] },
        Message::Piece { index: 0, begin: 0, block: vec![] },
        Message::Cancel {},
        Message::Port {},
    ]
}

#[test]
fn every_kind_is_read_back_as_written() {
    for message in all_kinds() {
        let bytes = frame(&message);
        let (read, taken) = Message::read_from(&bytes).expect("a message");
        assert_eq!(read, message);
        assert_eq!(taken, bytes.len());
    }
}

#[test]
fn messages_without_payload_have_length_one() {
    let bare = [
        (Message::Choke, 0u8),
        (Message::Unchoke, 1),
        (Message::Interested, 2),
        (Message::NotInterested, 3),
        (Message::Have {}, 4),
        (Message::Cancel {}, 8),
        (Message::Port {}, 9),
    ];
    for (message, tag) in bare {
        assert_eq!(frame(&message), vec![0, 0, 0, 1, tag]);
    }
}

#[test]
fn request_is_three_big_endian_numbers() {
    let message = Message::Request { index: 1, begin: 0x0001_0203, length: 0x4000 };
    assert_eq!(
        frame(&message),
        vec![0, 0, 0, 13, 6, 0, 0, 0, 1, 0, 1, 2, 3, 0, 0, 0x40, 0]
    );
}

#[test]
fn piece_is_two_numbers_and_the_block() {
    let message = Message::Piece { index: 2, begin: 0x4000, block: vec![9, 8, 7] };
    assert_eq!(frame(&message), vec![0, 0, 0, 12, 7, 0, 0, 0, 2, 0, 0, 0x40, 0, 9, 8, 7]);
}

#[test]
fn bitfield_is_its_bytes() {
    let message = Message::Bitfield(vec![0x80, 0x01]);
    assert_eq!(frame(&message), vec![0, 0, 0, 3, 5, 0x80, 0x01]);
}

#[test]
fn write_to_appends() {
    let mut out = vec![0xaa];
    Message::Choke.write_to(&mut out).unwrap();
    Message::Unchoke.write_to(&mut out).unwrap();
    assert_eq!(out, vec![0xaa, 0, 0, 0, 1, 0, 0, 0, 0, 1, 1]);
}

#[test]
fn read_from_leaves_what_follows() {
    let mut bytes = frame(&Message::Interested);
    bytes.extend_from_slice(&frame(&Message::Have {}));
    let (first, taken) = Message::read_from(&bytes).unwrap();
    assert_eq!(first, Message::Interested);
    assert_eq!(taken, 5);
    let (second, taken) = Message::read_from(&bytes[5..]).unwrap();
    assert_eq!(second, Message::Have {});
    assert_eq!(taken, 5);
}

#[test]
fn unknown_tag_is_a_protocol_error() {
    assert_eq!(
        Message::read_from(&[0, 0, 0, 1, 10]),
        Err(ReadError::Protocol(ProtocolError::UnknownTag))
    );
    assert_eq!(Message::parse(255, &[]), Err(ProtocolError::UnknownTag));
}

#[test]
fn short_fixed_payload_is_a_protocol_error() {
    assert_eq!(
        Message::read_from(&[0, 0, 0, 12, 6, 0, 0, 0, 1, 0, 0, 0, 2, 0, 0, 0]),
        Err(ReadError::Protocol(ProtocolError::MalformedPayload))
    );
    assert_eq!(Message::parse(7, &[0, 0, 0, 1, 0, 0, 0]), Err(ProtocolError::MalformedPayload));
}

#[test]
fn empty_frame_is_a_protocol_error() {
    assert_eq!(
        Message::read_from(&[0, 0, 0, 0]),
        Err(ReadError::Protocol(ProtocolError::EmptyFrame))
    );
}

#[test]
fn a_frame_that_is_not_all_there_is_incomplete() {
    assert_eq!(Message::read_from(&[]), Err(ReadError::Incomplete));
    assert_eq!(Message::read_from(&[0, 0, 0]), Err(ReadError::Incomplete));
    assert_eq!(Message::read_from(&[0, 0, 0, 1]), Err(ReadError::Incomplete));
    assert_eq!(Message::read_from(&[0, 0, 0, 3, 5, 1]), Err(ReadError::Incomplete));
}

#[test]
fn extra_payload_is_ignored() {
    assert_eq!(Message::parse(0, &[1, 2, 3]), Ok(Message::Choke));
    assert_eq!(
        Message::parse(6, &[0, 0, 0, 1, 0, 0, 0, 2, 0, 0, 0, 3, 9, 9]),
        Ok(Message::Request { index: 1, begin: 2, length: 3 })
    );
}
