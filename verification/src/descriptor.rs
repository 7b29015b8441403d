//! From a decoded value to a descriptor or a tracker's answer, and the
//! content hash of a descriptor.

use crate::decode::{field, Decoded, DecodedKind};
use crate::grammar::Value;
use crate::torrent::{PeersResponse, Torrent, TorrentInfo};
use sha1::{Digest, Sha1};
use vstd::prelude::*;
use vstd::string::StringSliceAdditionalSpecFns;
use vstd::utf8::encode_utf8;

verus! {

/// The SHA-1 digest of `bytes`.
pub uninterp spec fn sha1_digest(bytes: Seq<u8>) -> Seq<u8>;

/// `Sha1::digest` of the crate `sha1`: the SHA-1 digest of `bytes`, twenty
/// bytes that depend on `bytes` alone.
#[verifier::external_body]
fn sha1_of(bytes: &[u8]) -> (digest: [u8; 20])
    ensures
        digest@ == sha1_digest(bytes@),
{
    Sha1::digest(bytes).into()
}

/// The bytes of the text under `key` in `v`.
pub open spec fn text_field(v: Value, key: Seq<u8>) -> Option<Seq<u8>> {
    match field(v, key) {
        Some(Value::Text(b)) => Some(b),
        _ => None,
    }
}

/// The bytes of the string under `key` in `v`, text or not.
pub open spec fn bytes_field(v: Value, key: Seq<u8>) -> Option<Seq<u8>> {
    match field(v, key) {
        Some(Value::Text(b)) => Some(b),
        Some(Value::Bytes(b)) => Some(b),
        _ => None,
    }
}

/// The integer under `key` in `v`, where it is from zero to `max`.
pub open spec fn number_field(v: Value, key: Seq<u8>, max: int) -> Option<int> {
    match field(v, key) {
        Some(Value::Int(n)) => if 0 <= n <= max {
            Some(n as int)
        } else {
            None
        },
        _ => None,
    }
}

/// What a descriptor holds, strings as their bytes.
pub struct TorrentFields {
    pub announce: Seq<u8>,
    pub length: u32,
    pub name: Seq<u8>,
    pub piece_length: u32,
    pub pieces: Seq<u8>,
}

/// The descriptor that `v` spells: a dictionary with the text `announce`
/// and the dictionary `info`, which holds the integers `length` and `piece
/// length`, each from zero to the largest 32-bit number, the text `name` and
/// the string `pieces`. Other entries are not looked at.
pub open spec fn torrent_fields(v: Value) -> Option<TorrentFields> {
    match (text_field(v, "announce".spec_bytes()), field(v, "info".spec_bytes())) {
        (Some(announce), Some(info)) => match (
            number_field(info, "length".spec_bytes(), u32::MAX as int),
            text_field(info, "name".spec_bytes()),
            number_field(info, "piece length".spec_bytes(), u32::MAX as int),
            bytes_field(info, "pieces".spec_bytes()),
        ) {
            (Some(length), Some(name), Some(piece_length), Some(pieces)) => Some(
                TorrentFields {
                    announce,
                    length: length as u32,
                    name,
                    piece_length: piece_length as u32,
                    pieces,
                },
            ),
            _ => None,
        },
        _ => None,
    }
}

/// The tracker's answer that `v` spells: a dictionary with the integer
/// `interval`, from zero to the largest `usize`, and the string `peers`.
pub open spec fn peers_fields(v: Value) -> Option<(usize, Seq<u8>)> {
    match (
        number_field(v, "interval".spec_bytes(), usize::MAX as int),
        bytes_field(v, "peers".spec_bytes()),
    ) {
        (Some(interval), Some(peers)) => Some((interval as usize, peers)),
        _ => None,
    }
}

/// The text under `key`.
fn get_text<'a>(d: &Decoded<'a>, key: &str) -> (r: Option<&'a str>)
    ensures
        text_field(d@, key.spec_bytes()) == match r {
            Some(s) => Some(s.spec_bytes()),
            None => None,
        },
{
    match d.get(key) {
        Some(found) => match &found.kind {
            DecodedKind::String(s) => Some(*s),
            _ => None,
        },
        None => None,
    }
}

/// The string under `key`, text or not.
fn get_bytes<'a>(d: &Decoded<'a>, key: &str) -> (r: Option<&'a [u8]>)
    ensures
        bytes_field(d@, key.spec_bytes()) == match r {
            Some(b) => Some(b@),
            None => None,
        },
{
    match d.get(key) {
        Some(found) => match &found.kind {
            DecodedKind::String(s) => Some(s.as_bytes()),
            DecodedKind::Bytes(b) => Some(*b),
            _ => None,
        },
        None => None,
    }
}

/// The integer under `key`, where it is from zero to `max`.
fn get_number(d: &Decoded, key: &str, max: u64) -> (r: Option<u64>)
    ensures
        number_field(d@, key.spec_bytes(), max as int) == match r {
            Some(n) => Some(n as int),
            None => None,
        },
{
    match d.get(key) {
        Some(found) => match &found.kind {
            DecodedKind::Int(n) => {
                if *n >= 0 && *n as u64 <= max {
                    Some(*n as u64)
                } else {
                    None
                }
            },
            _ => None,
        },
        None => None,
    }
}

impl Torrent {
    /// What this descriptor holds, strings as their bytes.
    pub open spec fn fields(self) -> TorrentFields {
        TorrentFields {
            announce: encode_utf8(self.announce@),
            length: self.info.length,
            name: encode_utf8(self.info.name@),
            piece_length: self.info.piece_length,
            pieces: self.info.pieces@,
        }
    }

    /// The descriptor that `value` spells, or `None` where it spells none.
    pub fn from_decoded(value: &Decoded) -> (r: Option<Torrent>)
        ensures
            match torrent_fields(value@) {
                Some(fields) => r matches Some(t) && t.fields() == fields,
                None => r is None,
            },
    {
        let announce = match get_text(value, "announce") {
            Some(s) => s,
            None => {
                return None;
            },
        };
        let info = match value.get("info") {
            Some(d) => d,
            None => {
                return None;
            },
        };
        let length = match get_number(info, "length", 0xffff_ffff) {
            Some(n) => n as u32,
            None => {
                return None;
            },
        };
        let name = match get_text(info, "name") {
            Some(s) => s,
            None => {
                return None;
            },
        };
        let piece_length = match get_number(info, "piece length", 0xffff_ffff) {
            Some(n) => n as u32,
            None => {
                return None;
            },
        };
        let pieces = match get_bytes(info, "pieces") {
            Some(b) => b,
            None => {
                return None;
            },
        };
        Some(
            Torrent {
                announce: announce.to_owned(),
                info: TorrentInfo {
                    length,
                    name: name.to_owned(),
                    piece_length,
                    pieces: vstd::slice::slice_to_vec(pieces),
                },
            },
        )
    }
}

impl PeersResponse {
    /// The tracker's answer that `value` spells, or `None` where it spells
    /// none.
    pub fn from_decoded(value: &Decoded) -> (r: Option<PeersResponse>)
        ensures
            match peers_fields(value@) {
                Some((interval, peers)) => r matches Some(p) && p.interval == interval
                    && p.peers@ == peers,
                None => r is None,
            },
    {
        let interval = match get_number(value, "interval", usize::MAX as u64) {
            Some(n) => n as usize,
            None => {
                return None;
            },
        };
        let peers = match get_bytes(value, "peers") {
            Some(b) => b,
            None => {
                return None;
            },
        };
        Some(PeersResponse { interval, peers: vstd::slice::slice_to_vec(peers) })
    }
}

/// The content hash of a descriptor: the SHA-1 digest of the bytes that the
/// value under `info` was read from. `None` where `value` is no dictionary,
/// has no `info`, or that value records no span.
pub fn get_info_hash(value: &Decoded) -> (r: Option<[u8; 20]>)
    ensures
        match value.child("info".spec_bytes()) {
            Some(info) => match info.source {
                Some(span) => r matches Some(hash) && hash@ == sha1_digest(span@),
                None => r is None,
            },
            None => r is None,
        },
{
    match value.get("info") {
        Some(info) => match info.source {
            Some(span) => Some(sha1_of(span)),
            None => None,
        },
        None => None,
    }
}

} // verus!
