use torrent_core::download::{Download, Step};
use torrent_core::message::{Message, ProtocolError, ReadError};
use torrent_core::peer::{
    handshake_bytes, read_handshake, Client, DataPiece, Piece, SessionState,
};
use torrent_core::torrent::{Torrent, TorrentInfo};

const HASH_A: [u8; 20] = [0xaa; 20];
const HASH_B: [u8; 20] = [0xbb; 20];
const PEER: [u8; 20] = [7; 20];

fn torrent() -> Torrent {
    Torrent {
        announce: "http://tracker".to_string(),
        info: TorrentInfo {
            length: 40000,
            name: "sample".to_string(),
            piece_length: 32768,
            pieces: vec![0; 40],
        },
    }
}

fn idle_client() -> Client {
    let (mut client, _) = Client::connect(torrent(), HASH_A);
    client.handshake(&handshake_bytes(&HASH_A, &PEER)).unwrap();
    client.receive(Message::Bitfield(vec![0xc0])).unwrap();
    client.receive(Message::Unchoke).unwrap();
    client
}

fn block(index: u32, begin: u32, fill: u8) -> Message {
    Message::Piece { index, begin, block: vec![fill; 4] }
}

#[test]
fn handshake_layout() {
    let bytes = handshake_bytes(&HASH_A, &PEER);
    assert_eq!(bytes.len(), 68);
    assert_eq!(bytes[0], 19);
    assert_eq!(&bytes[1..20], b"BitTorrent protocol");
    assert_eq!(&bytes[20..28], &[0u8; 8]);
    assert_eq!(&bytes[28..48], &HASH_A);
    assert_eq!(&bytes[48..68], &PEER);
}

#[test]
fn handshake_is_read_back() {
    assert_eq!(read_handshake(&handshake_bytes(&HASH_A, &PEER), &HASH_A), Ok(PEER));
}

#[test]
fn reserved_bytes_are_not_judged() {
    let mut bytes = handshake_bytes(&HASH_A, &PEER);
    bytes[25] = 0x10;
    bytes[27] = 0x01;
    assert_eq!(read_handshake(&bytes, &HASH_A), Ok(PEER));
}

#[test]
fn handshake_with_another_hash_is_refused() {
    assert_eq!(
        read_handshake(&handshake_bytes(&HASH_B, &PEER), &HASH_A),
        Err(ReadError::Protocol(ProtocolError::InfoHashMismatch))
    );
}

#[test]
fn handshake_with_a_wrong_name_is_refused() {
    let mut bytes = handshake_bytes(&HASH_A, &PEER);
    bytes[0] = 18;
    assert_eq!(
        read_handshake(&bytes, &HASH_A),
        Err(ReadError::Protocol(ProtocolError::ProtocolNameLength))
    );
    assert_eq!(
        read_handshake(&[20], &HASH_A),
        Err(ReadError::Protocol(ProtocolError::ProtocolNameLength))
    );
    let mut bytes = handshake_bytes(&HASH_A, &PEER);
    bytes[5] = b'X';
    assert_eq!(
        read_handshake(&bytes, &HASH_A),
        Err(ReadError::Protocol(ProtocolError::ProtocolName))
    );
}

#[test]
fn handshake_that_is_not_all_there_is_incomplete() {
    let bytes = handshake_bytes(&HASH_A, &PEER);
    assert_eq!(read_handshake(&[], &HASH_A), Err(ReadError::Incomplete));
    assert_eq!(read_handshake(&bytes[..19], &HASH_A), Err(ReadError::Incomplete));
    assert_eq!(read_handshake(&bytes[..47], &HASH_A), Err(ReadError::Incomplete));
    assert_eq!(read_handshake(&bytes[..67], &HASH_A), Err(ReadError::Incomplete));
}

#[test]
fn connect_gives_a_handshake_under_a_fresh_peer_id() {
    let (client, first) = Client::connect(torrent(), HASH_A);
    assert_eq!(client.state, SessionState::Handshaking);
    assert_eq!(client.info_hash, HASH_A);
    assert_eq!(client.bitfield, None);
    assert!(!client.choked);
    assert_eq!(first.len(), 68);
    assert_eq!(&first[..48], &handshake_bytes(&HASH_A, &PEER)[..48]);
    let (_, second) = Client::connect(torrent(), HASH_A);
    assert_eq!(&second[..48], &first[..48]);
    assert!(first[48..] != [0u8; 20] || second[48..] != [0u8; 20]);
    assert_ne!(first[48..], second[48..]);
}

#[test]
fn opening_sequence_reaches_idle() {
    let (mut client, _) = Client::connect(torrent(), HASH_A);
    assert_eq!(client.handshake(&handshake_bytes(&HASH_A, &PEER)), Ok(PEER));
    assert_eq!(client.state, SessionState::AwaitingBitfield);
    assert_eq!(client.receive(Message::Bitfield(vec![0xc0])), Ok(Some(Message::Interested)));
    assert_eq!(client.bitfield, Some(vec![0xc0]));
    assert_eq!(client.state, SessionState::AwaitingUnchoke);
    assert_eq!(client.receive(Message::Unchoke), Ok(None));
    assert_eq!(client.state, SessionState::Idle);
    assert!(!client.choked);
}

#[test]
fn handshake_hash_mismatch_ends_the_session_and_sends_nothing() {
    let (mut client, _) = Client::connect(torrent(), HASH_A);
    assert_eq!(
        client.handshake(&handshake_bytes(&HASH_B, &PEER)),
        Err(ReadError::Protocol(ProtocolError::InfoHashMismatch))
    );
    assert_eq!(client.state, SessionState::Failed);
    assert_eq!(client.receive(Message::Bitfield(vec![1])), Err(ProtocolError::WrongState));
    assert_eq!(client.receive(Message::Unchoke), Err(ProtocolError::WrongState));
    assert_eq!(client.bitfield, None);
    assert_eq!(client.state, SessionState::Failed);
    let mut download = Download::new(vec![Piece { index: 0, begin: 0, length: 4 }]);
    assert_eq!(
        client.request_pieces(&mut download, block(0, 0, 1)),
        Step::Failed(ProtocolError::WrongState)
    );
    assert_eq!(download.undelivered(), vec![0]);
}

#[test]
fn incomplete_handshake_leaves_the_session_waiting() {
    let (mut client, _) = Client::connect(torrent(), HASH_A);
    let bytes = handshake_bytes(&HASH_A, &PEER);
    assert_eq!(client.handshake(&bytes[..30]), Err(ReadError::Incomplete));
    assert_eq!(client.state, SessionState::Handshaking);
    assert_eq!(client.handshake(&bytes), Ok(PEER));
    assert_eq!(
        client.handshake(&bytes),
        Err(ReadError::Protocol(ProtocolError::WrongState))
    );
    assert_eq!(client.state, SessionState::AwaitingBitfield);
}

#[test]
fn first_message_must_be_the_bitfield() {
    let (mut client, _) = Client::connect(torrent(), HASH_A);
    client.handshake(&handshake_bytes(&HASH_A, &PEER)).unwrap();
    assert_eq!(client.receive(Message::Unchoke), Err(ProtocolError::ExpectedBitfield));
    assert_eq!(client.state, SessionState::Failed);
}

#[test]
fn message_after_interest_must_be_unchoke() {
    let (mut client, _) = Client::connect(torrent(), HASH_A);
    client.handshake(&handshake_bytes(&HASH_A, &PEER)).unwrap();
    client.receive(Message::Bitfield(vec![])).unwrap();
    assert_eq!(client.receive(Message::Choke), Err(ProtocolError::ExpectedUnchoke));
    assert_eq!(client.state, SessionState::Failed);
}

#[test]
fn message_before_the_handshake_is_refused() {
    let (mut client, _) = Client::connect(torrent(), HASH_A);
    assert_eq!(client.receive(Message::Bitfield(vec![])), Err(ProtocolError::WrongState));
    assert_eq!(client.state, SessionState::Handshaking);
}

#[test]
fn idle_session_notes_a_choke_and_ignores_an_unchoke() {
    let mut client = idle_client();
    assert_eq!(client.receive(Message::Unchoke), Ok(None));
    assert!(!client.choked);
    assert_eq!(client.receive(Message::Choke), Ok(None));
    assert!(client.choked);
    assert_eq!(client.receive(Message::Choke), Ok(None));
    assert!(client.choked);
    assert_eq!(client.receive(Message::Unchoke), Ok(None));
    assert!(client.choked);
    assert_eq!(client.state, SessionState::Idle);
    assert_eq!(client.receive(Message::Have {}), Err(ProtocolError::UnexpectedMessage));
    assert_eq!(client.state, SessionState::Failed);
}

#[test]
fn requests_are_sent_in_the_order_given() {
    let download = Download::new(vec![
        Piece { index: 2, begin: 16384, length: 100 },
        Piece { index: 0, begin: 0, length: 16384 },
    ]);
    assert_eq!(
        download.requests(),
        vec![
            Message::Request { index: 2, begin: 16384, length: 100 },
            Message::Request { index: 0, begin: 0, length: 16384 },
        ]
    );
}

#[test]
fn choke_draining() {
    let mut client = idle_client();
    let mut download = Download::new(vec![
        Piece { index: 0, begin: 0, length: 4 },
        Piece { index: 0, begin: 16384, length: 4 },
        Piece { index: 1, begin: 0, length: 4 },
    ]);
    assert_eq!(
        client.request_pieces(&mut download, block(0, 0, 0x11)),
        Step::Deliver { slot: 0, piece: DataPiece { index: 0, begin: 0, block: vec![0x11; 4] } }
    );
    assert!(!download.is_complete());
    assert_eq!(download.outcome(&Step::Discard), None);
    let step = client.request_pieces(&mut download, Message::Choke);
    assert_eq!(step, Step::Choked);
    assert_eq!(download.outcome(&step), Some(Ok(true)));
    assert!(client.choked);
    assert_eq!(client.state, SessionState::Idle);
    assert_eq!(download.undelivered(), vec![1, 2]);
}

#[test]
fn out_of_order_delivery() {
    let mut client = idle_client();
    let mut download = Download::new(vec![
        Piece { index: 0, begin: 0, length: 4 },
        Piece { index: 0, begin: 16384, length: 4 },
    ]);
    assert_eq!(
        client.request_pieces(&mut download, block(0, 16384, 2)),
        Step::Deliver { slot: 1, piece: DataPiece { index: 0, begin: 16384, block: vec![2; 4] } }
    );
    assert!(!download.is_complete());
    assert_eq!(download.undelivered(), vec![0]);
    assert_eq!(
        client.request_pieces(&mut download, block(0, 0, 1)),
        Step::Deliver { slot: 0, piece: DataPiece { index: 0, begin: 0, block: vec![1; 4] } }
    );
    assert!(download.is_complete());
    assert_eq!(download.outcome(&Step::Discard), Some(Ok(false)));
    assert_eq!(
        download.outcome(&Step::Failed(ProtocolError::UnexpectedMessage)),
        Some(Err(ProtocolError::UnexpectedMessage))
    );
    assert!(download.undelivered().is_empty());
    assert!(!client.choked);
}

#[test]
fn unsolicited_and_repeated_blocks_are_dropped() {
    let mut download = Download::new(vec![Piece { index: 0, begin: 0, length: 4 }]);
    assert_eq!(download.receive(block(5, 0, 1)), Step::Discard);
    assert_eq!(download.receive(block(0, 4, 1)), Step::Discard);
    assert!(matches!(download.receive(block(0, 0, 1)), Step::Deliver { slot: 0, .. }));
    assert_eq!(download.receive(block(0, 0, 1)), Step::Discard);
    assert!(download.is_complete());
}

#[test]
fn any_other_message_during_a_download_breaks_the_protocol() {
    let others = [
        Message::Unchoke,
        Message::Interested,
        Message::NotInterested,
        Message::Have {},
        Message::Bitfield(vec![1]),
        Message::Request { index: 0, begin: 0, length: 1 },
        Message::Cancel {},
        Message::Port {},
    ];
    for message in others {
        let mut client = idle_client();
        let mut download = Download::new(vec![Piece { index: 0, begin: 0, length: 4 }]);
        assert_eq!(
            client.request_pieces(&mut download, message),
            Step::Failed(ProtocolError::UnexpectedMessage)
        );
        assert_eq!(client.state, SessionState::Failed);
        assert_eq!(download.undelivered(), vec![0]);
    }
}

#[test]
fn of_two_requests_with_one_key_the_later_gets_the_block() {
    let mut download = Download::new(vec![
        Piece { index: 0, begin: 0, length: 4 },
        Piece { index: 1, begin: 0, length: 4 },
        Piece { index: 0, begin: 0, length: 8 },
    ]);
    assert!(matches!(download.receive(block(0, 0, 1)), Step::Deliver { slot: 2, .. }));
    assert!(!download.is_complete());
    assert!(matches!(download.receive(block(1, 0, 1)), Step::Deliver { slot: 1, .. }));
    assert!(download.is_complete());
    assert_eq!(download.undelivered(), vec![0]);
}

#[test]
fn a_download_of_nothing_is_complete() {
    let download = Download::new(vec![]);
    assert!(download.is_complete());
    assert!(download.requests().is_empty());
    assert!(download.undelivered().is_empty());
}

#[test]
fn keys_at_the_ends_of_the_range_are_told_apart() {
    let mut download = Download::new(vec![
        Piece { index: u32::MAX, begin: 0, length: 1 },
        Piece { index: 0, begin: u32::MAX, length: 1 },
        Piece { index: u32::MAX, begin: u32::MAX, length: 1 },
    ]);
    assert!(matches!(download.receive(block(0, u32::MAX, 1)), Step::Deliver { slot: 1, .. }));
    assert!(matches!(download.receive(block(u32::MAX, u32::MAX, 1)), Step::Deliver { slot: 2, .. }));
    assert!(matches!(download.receive(block(u32::MAX, 0, 1)), Step::Deliver { slot: 0, .. }));
    assert!(download.is_complete());
}
