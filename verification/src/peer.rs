//! A session with one peer: the blocks that are asked for and sent back, the
//! handshake, and the states a session goes through.

use crate::download::{received, Download, Step};
use crate::message::{Message, MessageView, ProtocolError, ReadError};
use crate::torrent::Torrent;
use crate::wire::put_bytes;
use rand::RngCore;
use vstd::prelude::*;
use vstd::slice::slice_subrange;

verus! {

/// A block to ask for: `length` bytes of piece `index` from offset `begin`.
#[derive(Debug, Copy, Clone, Hash, PartialEq, Eq, Structural)]
pub struct Piece {
    pub index: u32,
    pub begin: u32,
    pub length: u32,
}

/// A block that a peer sent.
#[derive(Debug, Clone, Hash, PartialEq, Eq)]
pub struct DataPiece {
    pub index: u32,
    pub begin: u32,
    pub block: Vec<u8>,
}

/// The length of a handshake in bytes.
pub const HANDSHAKE_LEN: usize = 68;

/// The name of the protocol, as the handshake spells it: `BitTorrent
/// protocol`.
pub open spec fn protocol_name() -> Seq<u8> {
    seq![
        66u8, 105u8, 116u8, 84u8, 111u8, 114u8, 114u8, 101u8, 110u8, 116u8, 32u8, 112u8, 114u8,
        111u8, 116u8, 111u8, 99u8, 111u8, 108u8,
    ]
}

/// The handshake of a peer with id `peer_id` about the content `info_hash`:
/// nineteen, the protocol's name, eight reserved bytes that are zero, the
/// content hash, the peer's id.
pub open spec fn handshake_of(info_hash: Seq<u8>, peer_id: Seq<u8>) -> Seq<u8> {
    seq![19u8] + protocol_name() + seq![0u8, 0u8, 0u8, 0u8, 0u8, 0u8, 0u8, 0u8] + info_hash
        + peer_id
}

/// What a peer's handshake tells: its id, or why it is refused. The reserved
/// bytes are not looked at. A first byte other than nineteen is refused
/// whatever follows; otherwise each part is judged once it is all there.
pub open spec fn handshake_reply(reply: Seq<u8>, info_hash: Seq<u8>) -> Result<
    Seq<u8>,
    ReadError,
> {
    if reply.len() < 1 {
        Err(ReadError::Incomplete)
    } else if reply[0] != 19 {
        Err(ReadError::Protocol(ProtocolError::ProtocolNameLength))
    } else if reply.len() < 20 {
        Err(ReadError::Incomplete)
    } else if reply.subrange(1, 20) != protocol_name() {
        Err(ReadError::Protocol(ProtocolError::ProtocolName))
    } else if reply.len() < 48 {
        Err(ReadError::Incomplete)
    } else if reply.subrange(28, 48) != info_hash {
        Err(ReadError::Protocol(ProtocolError::InfoHashMismatch))
    } else if reply.len() < 68 {
        Err(ReadError::Incomplete)
    } else {
        Ok(reply.subrange(48, 68))
    }
}

/// The name of the protocol.
fn protocol_name_bytes() -> (name: [u8; 19])
    ensures
        name@ == protocol_name(),
{
    let name: [u8; 19] = [
        66, 105, 116, 84, 111, 114, 114, 101, 110, 116, 32, 112, 114, 111, 116, 111, 99, 111, 108,
    ];
    assert(name@ =~= protocol_name());
    name
}

/// Whether `a[from..from + b.len()]` holds the bytes of `b`.
fn holds_at(a: &[u8], from: usize, b: &[u8]) -> (r: bool)
    requires
        from + b@.len() <= a@.len(),
    ensures
        r <==> a@.subrange(from as int, from + b@.len()) == b@,
{
    if a.len() - from < b.len() {
        return false;
    }
    crate::decode::bytes_equal(slice_subrange(a, from, from + b.len()), b)
}

/// The handshake to send for the content `info_hash` as peer `peer_id`.
pub fn handshake_bytes(info_hash: &[u8; 20], peer_id: &[u8; 20]) -> (out: Vec<u8>)
    ensures
        out@ == handshake_of(info_hash@, peer_id@),
        out@.len() == 68,
{
    let mut out: Vec<u8> = Vec::new();
    out.push(19);
    let name: [u8; 19] = protocol_name_bytes();
    put_bytes(&mut out, name.as_slice());
    let reserved: [u8; 8] = [0, 0, 0, 0, 0, 0, 0, 0];
    put_bytes(&mut out, reserved.as_slice());
    put_bytes(&mut out, info_hash.as_slice());
    put_bytes(&mut out, peer_id.as_slice());
    assert(reserved@ =~= seq![0u8, 0u8, 0u8, 0u8, 0u8, 0u8, 0u8, 0u8]);
    assert(out@ =~= handshake_of(info_hash@, peer_id@));
    out
}

/// Judges the handshake that a peer answered with, and gives the peer's id.
pub fn read_handshake(reply: &[u8], info_hash: &[u8; 20]) -> (r: Result<[u8; 20], ReadError>)
    ensures
        r is Ok <==> handshake_reply(reply@, info_hash@) is Ok,
        r matches Ok(id) ==> handshake_reply(reply@, info_hash@) == Ok::<Seq<u8>, ReadError>(id@),
        r matches Err(e) ==> handshake_reply(reply@, info_hash@) == Err::<Seq<u8>, ReadError>(e),
{
    if reply.len() < 1 {
        return Err(ReadError::Incomplete);
    }
    if reply[0] != 19 {
        return Err(ReadError::Protocol(ProtocolError::ProtocolNameLength));
    }
    if reply.len() < 20 {
        return Err(ReadError::Incomplete);
    }
    let name: [u8; 19] = protocol_name_bytes();
    if !holds_at(reply, 1, name.as_slice()) {
        return Err(ReadError::Protocol(ProtocolError::ProtocolName));
    }
    if reply.len() < 48 {
        return Err(ReadError::Incomplete);
    }
    if !holds_at(reply, 28, info_hash.as_slice()) {
        return Err(ReadError::Protocol(ProtocolError::InfoHashMismatch));
    }
    if reply.len() < 68 {
        return Err(ReadError::Incomplete);
    }
    let mut id: [u8; 20] = [0u8; 20];
    let mut i: usize = 0;
    while i < 20
        invariant
            i <= 20,
            reply@.len() >= 68,
            forall|j: int| 0 <= j < i ==> id@[j] == reply@[48 + j],
        decreases 20 - i,
    {
        id[i] = reply[48 + i];
        i += 1;
    }
    assert(id@ =~= reply@.subrange(48, 68));
    Ok(id)
}

/// What was sent as a handshake is accepted by a peer that serves the same
/// content, and tells the sender's id; with another content hash it is
/// refused as a mismatch.
pub proof fn lemma_handshake_round_trip(info_hash: Seq<u8>, peer_id: Seq<u8>, expected: Seq<u8>)
    requires
        info_hash.len() == 20,
        peer_id.len() == 20,
        expected.len() == 20,
    ensures
        expected == info_hash ==> handshake_reply(handshake_of(info_hash, peer_id), expected)
            == Ok::<Seq<u8>, ReadError>(peer_id),
        expected != info_hash ==> handshake_reply(handshake_of(info_hash, peer_id), expected)
            == Err::<Seq<u8>, ReadError>(ReadError::Protocol(ProtocolError::InfoHashMismatch)),
{
    let h = handshake_of(info_hash, peer_id);
    assert(h.subrange(1, 20) =~= protocol_name());
    assert(h.subrange(28, 48) =~= info_hash);
    assert(h.subrange(48, 68) =~= peer_id);
}

/// `RngCore::fill_bytes` on `rand::thread_rng()`: twenty bytes from the
/// thread's random generator. Nothing is promised of them.
#[verifier::external_body]
fn random_peer_id() -> (id: [u8; 20]) {
    let mut id: [u8; 20] = [0u8; 20];
    rand::thread_rng().fill_bytes(&mut id);
    id
}

/// Where a session stands.
#[derive(Debug, Clone, Copy, PartialEq, Eq, Structural)]
pub enum SessionState {
    /// Our handshake is out, the peer's is awaited.
    Handshaking,
    /// The handshake is done; the peer's first message must be its bitfield.
    AwaitingBitfield,
    /// Our interest is out; the peer's next message must be an unchoke.
    AwaitingUnchoke,
    /// Ready for downloads.
    Idle,
    /// The peer broke the protocol: the session is over.
    Failed,
}

/// One session with one peer, without the connection that carries it.
#[derive(Debug)]
pub struct Client {
    pub data: Torrent,
    pub info_hash: [u8; 20],
    pub bitfield: Option<Vec<u8>>,
    pub choked: bool,
    pub state: SessionState,
}

/// Where a session stands after a message, outside a download.
pub open spec fn state_after(state: SessionState, message: MessageView) -> SessionState {
    match state {
        SessionState::Handshaking => SessionState::Handshaking,
        SessionState::AwaitingBitfield => if message is Bitfield {
            SessionState::AwaitingUnchoke
        } else {
            SessionState::Failed
        },
        SessionState::AwaitingUnchoke => if message is Unchoke {
            SessionState::Idle
        } else {
            SessionState::Failed
        },
        SessionState::Idle => if message is Choke || message is Unchoke {
            SessionState::Idle
        } else {
            SessionState::Failed
        },
        SessionState::Failed => SessionState::Failed,
    }
}

/// What a message, outside a download, asks us to send, or how it breaks the
/// protocol.
pub open spec fn answer_to(state: SessionState, message: MessageView) -> Result<
    Option<MessageView>,
    ProtocolError,
> {
    match state {
        SessionState::Handshaking => Err(ProtocolError::WrongState),
        SessionState::AwaitingBitfield => if message is Bitfield {
            Ok(Some(MessageView::Interested))
        } else {
            Err(ProtocolError::ExpectedBitfield)
        },
        SessionState::AwaitingUnchoke => if message is Unchoke {
            Ok(None)
        } else {
            Err(ProtocolError::ExpectedUnchoke)
        },
        SessionState::Idle => if message is Choke || message is Unchoke {
            Ok(None)
        } else {
            Err(ProtocolError::UnexpectedMessage)
        },
        SessionState::Failed => Err(ProtocolError::WrongState),
    }
}

impl Client {
    /// Starts a session about the content `info_hash`: gives the session and
    /// the handshake to send, under a peer id drawn at random.
    pub fn connect(data: Torrent, info_hash: [u8; 20]) -> (r: (Client, Vec<u8>))
        ensures
            r.0.data == data,
            r.0.info_hash == info_hash,
            r.0.bitfield is None,
            !r.0.choked,
            r.0.state == SessionState::Handshaking,
            exists|id: Seq<u8>| id.len() == 20 && r.1@ == handshake_of(info_hash@, id),
    {
        let id: [u8; 20] = random_peer_id();
        let out: Vec<u8> = handshake_bytes(&info_hash, &id);
        assert(id@.len() == 20 && out@ == handshake_of(info_hash@, id@));
        (
            Client {
                data,
                info_hash,
                bitfield: None,
                choked: false,
                state: SessionState::Handshaking,
            },
            out,
        )
    }

    /// Takes the peer's handshake and gives the peer's id. A handshake that
    /// is refused ends the session; one that is not all there yet leaves it
    /// as it was. Outside the handshaking state nothing is read.
    pub fn handshake(&mut self, reply: &[u8]) -> (r: Result<[u8; 20], ReadError>)
        ensures
            final(self).data == old(self).data,
            final(self).info_hash == old(self).info_hash,
            final(self).bitfield == old(self).bitfield,
            final(self).choked == old(self).choked,
            old(self).state != SessionState::Handshaking ==> r == Err::<[u8; 20], ReadError>(
                ReadError::Protocol(ProtocolError::WrongState),
            ) && final(self).state == old(self).state,
            old(self).state == SessionState::Handshaking ==> match handshake_reply(
                reply@,
                old(self).info_hash@,
            ) {
                Ok(id) => r matches Ok(got) && got@ == id && final(self).state
                    == SessionState::AwaitingBitfield,
                Err(ReadError::Incomplete) => r == Err::<[u8; 20], ReadError>(
                    ReadError::Incomplete,
                ) && final(self).state == SessionState::Handshaking,
                Err(ReadError::Protocol(e)) => r == Err::<[u8; 20], ReadError>(
                    ReadError::Protocol(e),
                ) && final(self).state == SessionState::Failed,
            },
    {
        match self.state {
            SessionState::Handshaking => {},
            _ => {
                return Err(ReadError::Protocol(ProtocolError::WrongState));
            },
        }
        let r = read_handshake(reply, &self.info_hash);
        match r {
            Ok(_) => {
                self.state = SessionState::AwaitingBitfield;
            },
            Err(ReadError::Incomplete) => {},
            Err(ReadError::Protocol(_)) => {
                self.state = SessionState::Failed;
            },
        }
        r
    }

    /// Takes a message that came outside a download. The first after the
    /// handshake must be the peer's bitfield, which is kept and answered
    /// with our interest; the next must be an unchoke. Later a choke is
    /// noted and an unchoke changes nothing. Anything else ends the
    /// session.
    pub fn receive(&mut self, message: Message) -> (r: Result<Option<Message>, ProtocolError>)
        ensures
            final(self).data == old(self).data,
            final(self).info_hash == old(self).info_hash,
            final(self).state == state_after(old(self).state, message@),
            match answer_to(old(self).state, message@) {
                Ok(Some(m)) => r matches Ok(Some(got)) && got@ == m,
                Ok(None) => r matches Ok(None),
                Err(e) => r == Err::<Option<Message>, ProtocolError>(e),
            },
            match (old(self).state, message) {
                (SessionState::AwaitingBitfield, Message::Bitfield(bits)) => final(self).bitfield
                    == Some(bits),
                _ => final(self).bitfield == old(self).bitfield,
            },
            match (old(self).state, message) {
                (SessionState::AwaitingUnchoke, Message::Unchoke) => !final(self).choked,
                (SessionState::Idle, Message::Choke) => final(self).choked,
                _ => final(self).choked == old(self).choked,
            },
    {
        match self.state {
            SessionState::Handshaking => Err(ProtocolError::WrongState),
            SessionState::Failed => Err(ProtocolError::WrongState),
            SessionState::AwaitingBitfield => match message {
                Message::Bitfield(bits) => {
                    self.bitfield = Some(bits);
                    self.state = SessionState::AwaitingUnchoke;
                    Ok(Some(Message::Interested))
                },
                _ => {
                    self.state = SessionState::Failed;
                    Err(ProtocolError::ExpectedBitfield)
                },
            },
            SessionState::AwaitingUnchoke => match message {
                Message::Unchoke => {
                    self.choked = false;
                    self.state = SessionState::Idle;
                    Ok(None)
                },
                _ => {
                    self.state = SessionState::Failed;
                    Err(ProtocolError::ExpectedUnchoke)
                },
            },
            SessionState::Idle => match message {
                Message::Choke => {
                    self.choked = true;
                    Ok(None)
                },
                Message::Unchoke => Ok(None),
                _ => {
                    self.state = SessionState::Failed;
                    Err(ProtocolError::UnexpectedMessage)
                },
            },
        }
    }

    /// Takes a message that came during `download` and says what to do
    /// with it, as `Download::receive` does. A choke is noted in the
    /// session; a message that breaks the protocol ends it. A session that
    /// is not ready for downloads refuses the message and touches nothing.
    pub fn request_pieces(&mut self, download: &mut Download, message: Message) -> (step: Step)
        requires
            old(download).wf(),
        ensures
            final(download).wf(),
            final(self).data == old(self).data,
            final(self).info_hash == old(self).info_hash,
            final(self).bitfield == old(self).bitfield,
            old(self).state != SessionState::Idle ==> step == Step::Failed(
                ProtocolError::WrongState,
            ) && *final(download) == *old(download) && final(self).state == old(self).state
                && final(self).choked == old(self).choked,
            old(self).state == SessionState::Idle ==> {
                &&& received(*old(download), *final(download), message@, step)
                &&& final(self).choked == (old(self).choked || step == Step::Choked)
                &&& final(self).state == if step is Failed {
                    SessionState::Failed
                } else {
                    SessionState::Idle
                }
            },
    {
        match self.state {
            SessionState::Idle => {},
            _ => {
                return Step::Failed(ProtocolError::WrongState);
            },
        }
        let step = download.receive(message);
        match &step {
            Step::Choked => {
                self.choked = true;
            },
            Step::Failed(_) => {
                self.state = SessionState::Failed;
            },
            _ => {},
        }
        step
    }
}

} // verus!
