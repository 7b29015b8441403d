//! Core of a peer-to-peer file-transfer client: the bencode codec, the peer
//! wire messages, the session state machine and the block download
//! bookkeeping, each with a machine-checked contract.

pub mod decode;
pub mod descriptor;
pub mod display;
pub mod download;
pub mod grammar;
pub mod locality;
pub mod message;
pub mod number;
pub mod peer;
pub mod roundtrip;
pub mod torrent;
pub mod wire;
