use torrent_core::decode::decode;
use torrent_core::descriptor::get_info_hash;
use torrent_core::peer::Piece;
use torrent_core::torrent::{blocks, PeerAddr, PeersResponse, Torrent, TorrentInfo};

fn info(length: u32, piece_length: u32, pieces: Vec<u8>) -> TorrentInfo {
    TorrentInfo { length, name: "sample".to_string(), piece_length, pieces }
}

#[test]
fn piece_lengths_of_a_thousand_bytes_in_pieces_of_four_hundred() {
    let info = info(1000, 400, vec![0; 60]);
    assert_eq!(info.piece_count(), 3);
    let sizes: Vec<u32> = (0..info.piece_count()).map(|i| info.piece_size(i)).collect();
    assert_eq!(sizes, vec![400, 400, 200]);
    assert_eq!(info.piece_size(3), 0);
}

#[test]
fn last_piece_is_full_where_nothing_is_left_over() {
    let info = info(800, 400, vec![0; 40]);
    assert_eq!(info.piece_count(), 2);
    assert_eq!(info.piece_size(0), 400);
    assert_eq!(info.piece_size(1), 400);
    assert_eq!(info.piece_size(2), 0);
}

#[test]
fn piece_length_zero_makes_no_piece() {
    let info = info(800, 0, vec![]);
    assert_eq!(info.piece_count(), 0);
    assert_eq!(info.piece_size(0), 0);
}

#[test]
fn largest_content_in_pieces_of_one_byte() {
    let info = info(u32::MAX, 1, vec![]);
    assert_eq!(info.piece_count(), u32::MAX);
    assert_eq!(info.piece_size(u32::MAX - 1), 1);
    assert_eq!(info.piece_size(u32::MAX), 0);
}

#[test]
fn pieces_are_the_hashes_in_order() {
    let mut buffer: Vec<u8> = Vec::new();
    buffer.extend(std::iter::repeat(1).take(20));
    buffer.extend(std::iter::repeat(2).take(20));
    let info = info(100, 50, buffer);
    let hashes = info.pieces();
    assert_eq!(hashes.len(), 2);
    assert_eq!(hashes[0], &[1u8; 20][..]);
    assert_eq!(hashes[1], &[2u8; 20][..]);
}

#[test]
fn a_buffer_that_ends_inside_a_hash_gives_a_shorter_chunk() {
    let info = info(100, 50, vec![7; 25]);
    let hashes = info.pieces();
    assert_eq!(hashes.len(), 2);
    assert_eq!(hashes[0].len(), 20);
    assert_eq!(hashes[1], &[7u8; 5][..]);
    assert_eq!(info.pieces().len(), 2);
}

#[test]
fn no_hashes_in_an_empty_buffer() {
    assert!(info(0, 1, vec![]).pieces().is_empty());
}

#[test]
fn blocks_of_a_piece() {
    assert_eq!(
        blocks(3, 40000),
        vec![
            Piece { index: 3, begin: 0, length: 16384 },
            Piece { index: 3, begin: 16384, length: 16384 },
            Piece { index: 3, begin: 32768, length: 7232 },
        ]
    );
    assert_eq!(blocks(0, 16384), vec![Piece { index: 0, begin: 0, length: 16384 }]);
    assert_eq!(blocks(0, 1), vec![Piece { index: 0, begin: 0, length: 1 }]);
    assert!(blocks(0, 0).is_empty());
}

#[test]
fn blocks_of_the_largest_piece() {
    let all = blocks(1, u32::MAX);
    assert_eq!(all.len(), 262144);
    assert_eq!(all[262143], Piece { index: 1, begin: 262143 * 16384, length: 16383 });
}

#[test]
fn peers_are_read_six_bytes_each() {
    let response = PeersResponse {
        interval: 60,
        peers: vec![192, 168, 0, 1, 0x1a, 0xe1, 10, 0, 0, 2, 0, 80, 9, 9],
    };
    assert_eq!(
        response.peers(),
        vec![
            PeerAddr { ip: [192, 168, 0, 1], port: 6881 },
            PeerAddr { ip: [10, 0, 0, 2], port: 80 },
        ]
    );
    assert!(PeersResponse { interval: 0, peers: vec![1, 2, 3, 4, 5] }.peers().is_empty());
}

#[test]
fn descriptor_from_a_decoded_value() {
    let input = b"d8:announce18:http://tracker/ann7:comment1:c4:infod6:lengthi92063e4:name10:sample.txt12:piece lengthi32768e6:pieces3:\xff\x00\xfeee";
    let (_, value) = decode(input).unwrap();
    let torrent = Torrent::from_decoded(&value).expect("a descriptor");
    assert_eq!(torrent.announce, "http://tracker/ann");
    assert_eq!(torrent.info.length, 92063);
    assert_eq!(torrent.info.name, "sample.txt");
    assert_eq!(torrent.info.piece_length, 32768);
    assert_eq!(torrent.info.pieces, vec![0xff, 0x00, 0xfe]);
}

#[test]
fn pieces_that_happen_to_be_text_are_taken_as_bytes() {
    let input = b"d8:announce1:a4:infod6:lengthi1e4:name1:n12:piece lengthi1e6:pieces3:abcee";
    let (_, value) = decode(input).unwrap();
    let torrent = Torrent::from_decoded(&value).unwrap();
    assert_eq!(torrent.info.pieces, b"abc".to_vec());
}

#[test]
fn descriptor_needs_every_field() {
    let inputs: [&[u8]; 8] = [
        b"i1e",
        b"de",
        b"d8:announce1:ae",
        b"d4:infod6:lengthi1e4:name1:n12:piece lengthi1e6:pieces0:ee",
        b"d8:announce1:a4:infod4:name1:n12:piece lengthi1e6:pieces0:ee",
        b"d8:announce1:a4:infod6:lengthi1e12:piece lengthi1e6:pieces0:ee",
        b"d8:announce1:a4:infod6:lengthi1e4:name1:n6:pieces0:ee",
        b"d8:announce1:a4:infod6:lengthi1e4:name1:n12:piece lengthi1eee",
    ];
    for input in inputs {
        let (_, value) = decode(input).unwrap();
        assert_eq!(Torrent::from_decoded(&value), None);
    }
}

#[test]
fn descriptor_refuses_fields_of_the_wrong_kind_or_size() {
    let inputs: [&[u8]; 5] = [
        b"d8:announcei1e4:infod6:lengthi1e4:name1:n12:piece lengthi1e6:pieces0:ee",
        b"d8:announce1:a4:infod6:lengthi-1e4:name1:n12:piece lengthi1e6:pieces0:ee",
        b"d8:announce1:a4:infod6:lengthi4294967296e4:name1:n12:piece lengthi1e6:pieces0:ee",
        b"d8:announce1:a4:infod6:lengthi1e4:name1:\xff12:piece lengthi1e6:pieces0:ee",
        b"d8:announce1:a4:infod6:lengthi1e4:name1:n12:piece lengthi1e6:piecesleee",
    ];
    for input in inputs {
        let (_, value) = decode(input).unwrap();
        assert_eq!(Torrent::from_decoded(&value), None);
    }
    let (_, value) = decode(
        b"d8:announce1:a4:infod6:lengthi4294967295e4:name1:n12:piece lengthi0e6:pieces0:ee",
    )
    .unwrap();
    assert_eq!(Torrent::from_decoded(&value).unwrap().info.length, u32::MAX);
}

#[test]
fn tracker_answer_from_a_decoded_value() {
    let (_, value) = decode(b"d8:intervali1800e5:peers6:\x7f\x00\x00\x01\x1a\xe1e").unwrap();
    let response = PeersResponse::from_decoded(&value).unwrap();
    assert_eq!(response.interval, 1800);
    assert_eq!(response.peers(), vec![PeerAddr { ip: [127, 0, 0, 1], port: 6881 }]);
    let (_, value) = decode(b"d8:intervali-1e5:peers0:e").unwrap();
    assert_eq!(PeersResponse::from_decoded(&value), None);
    let (_, value) = decode(b"d5:peers0:e").unwrap();
    assert_eq!(PeersResponse::from_decoded(&value), None);
}

#[test]
fn info_hash_is_the_digest_of_the_recorded_span() {
    let (_, value) = decode(b"d4:infod6:lengthi100eee").unwrap();
    assert_eq!(
        get_info_hash(&value),
        Some([
            149, 244, 221, 38, 247, 157, 180, 85, 87, 182, 54, 103, 113, 169, 75, 39, 24, 47, 104,
            147
        ])
    );
}

#[test]
fn info_hash_goes_by_the_bytes_as_written() {
    let (_, plain) = decode(b"d4:infod1:ai7eee").unwrap();
    let (_, padded) = decode(b"d4:infod1:ai007eee").unwrap();
    assert_ne!(get_info_hash(&plain), get_info_hash(&padded));
}

#[test]
fn no_info_hash_without_info() {
    let (_, value) = decode(b"d1:ai1ee").unwrap();
    assert_eq!(get_info_hash(&value), None);
    let (_, value) = decode(b"i1e").unwrap();
    assert_eq!(get_info_hash(&value), None);
}
