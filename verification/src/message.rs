//! Peer wire messages and their framing: a four-byte big-endian length, a
//! one-byte tag and the payload, the length counting the tag and the payload.

use crate::wire::{be32, be32_value, copy_range, get_be32, put_be32, put_bytes};
use vstd::prelude::*;

verus! {

/// The ten kinds of message a peer can send.
#[derive(Debug, Clone, PartialEq, Eq)]
pub enum Message {
    Choke,
    Unchoke,
    Interested,
    NotInterested,
    Have {  },
    Bitfield(Vec<u8>),
    Request { index: u32, begin: u32, length: u32 },
    Piece { index: u32, begin: u32, block: Vec<u8> },
    Cancel {  },
    Port {  },
}

/// A message as a mathematical value.
pub enum MessageView {
    Choke,
    Unchoke,
    Interested,
    NotInterested,
    Have,
    Bitfield(Seq<u8>),
    Request { index: u32, begin: u32, length: u32 },
    Piece { index: u32, begin: u32, block: Seq<u8> },
    Cancel,
    Port,
}

impl View for Message {
    type V = MessageView;

    open spec fn view(&self) -> MessageView {
        match self {
            Message::Choke => MessageView::Choke,
            Message::Unchoke => MessageView::Unchoke,
            Message::Interested => MessageView::Interested,
            Message::NotInterested => MessageView::NotInterested,
            Message::Have {  } => MessageView::Have,
            Message::Bitfield(bits) => MessageView::Bitfield(bits@),
            Message::Request { index, begin, length } => MessageView::Request {
                index: *index,
                begin: *begin,
                length: *length,
            },
            Message::Piece { index, begin, block } => MessageView::Piece {
                index: *index,
                begin: *begin,
                block: block@,
            },
            Message::Cancel {  } => MessageView::Cancel,
            Message::Port {  } => MessageView::Port,
        }
    }
}

/// Why a frame or an exchange is not what the protocol allows.
#[derive(Debug, Clone, Copy, PartialEq, Eq, Structural)]
pub enum ProtocolError {
    /// A frame of length zero: it has no tag.
    EmptyFrame,
    /// A tag above nine.
    UnknownTag,
    /// A `Request` payload under twelve bytes or a `Piece` payload under eight.
    MalformedPayload,
    /// A payload whose length plus one does not fit the length prefix.
    MessageTooLong,
    /// The handshake's first byte is not nineteen.
    ProtocolNameLength,
    /// The handshake does not name the protocol.
    ProtocolName,
    /// The peer answered with another content hash.
    InfoHashMismatch,
    /// The first message after the handshake is not a bitfield.
    ExpectedBitfield,
    /// The message after our interest is not an unchoke.
    ExpectedUnchoke,
    /// A message other than a piece or a choke while blocks are outstanding.
    UnexpectedMessage,
    /// The session is closed or failed, or not yet ready for this step.
    WrongState,
}

/// Why no message could be read from a buffer.
#[derive(Debug, Clone, Copy, PartialEq, Eq, Structural)]
pub enum ReadError {
    /// The buffer ends before the frame does.
    Incomplete,
    /// The frame is complete and is no message.
    Protocol(ProtocolError),
}

/// The tag byte of a message.
pub open spec fn tag_of(m: MessageView) -> u8 {
    match m {
        MessageView::Choke => 0,
        MessageView::Unchoke => 1,
        MessageView::Interested => 2,
        MessageView::NotInterested => 3,
        MessageView::Have => 4,
        MessageView::Bitfield(_) => 5,
        MessageView::Request { .. } => 6,
        MessageView::Piece { .. } => 7,
        MessageView::Cancel => 8,
        MessageView::Port => 9,
    }
}

/// The payload of a message: what follows its tag.
pub open spec fn payload_of(m: MessageView) -> Seq<u8> {
    match m {
        MessageView::Bitfield(bits) => bits,
        MessageView::Request { index, begin, length } => be32(index) + be32(begin) + be32(length),
        MessageView::Piece { index, begin, block } => be32(index) + be32(begin) + block,
        _ => Seq::empty(),
    }
}

/// Whether the length prefix can hold the message's length.
pub open spec fn fits_frame(m: MessageView) -> bool {
    payload_of(m).len() + 1 <= u32::MAX
}

/// The bytes of a message on the wire.
pub open spec fn frame_of(m: MessageView) -> Seq<u8>
    recommends
        fits_frame(m),
{
    be32((payload_of(m).len() + 1) as u32) + seq![tag_of(m)] + payload_of(m)
}

/// The message that a tag and a payload stand for.
pub open spec fn message_of(tag: u8, payload: Seq<u8>) -> Result<MessageView, ProtocolError> {
    if tag == 0 {
        Ok(MessageView::Choke)
    } else if tag == 1 {
        Ok(MessageView::Unchoke)
    } else if tag == 2 {
        Ok(MessageView::Interested)
    } else if tag == 3 {
        Ok(MessageView::NotInterested)
    } else if tag == 4 {
        Ok(MessageView::Have)
    } else if tag == 5 {
        Ok(MessageView::Bitfield(payload))
    } else if tag == 6 {
        if payload.len() < 12 {
            Err(ProtocolError::MalformedPayload)
        } else {
            Ok(
                MessageView::Request {
                    index: be32_value(payload.subrange(0, 4)) as u32,
                    begin: be32_value(payload.subrange(4, 8)) as u32,
                    length: be32_value(payload.subrange(8, 12)) as u32,
                },
            )
        }
    } else if tag == 7 {
        if payload.len() < 8 {
            Err(ProtocolError::MalformedPayload)
        } else {
            Ok(
                MessageView::Piece {
                    index: be32_value(payload.subrange(0, 4)) as u32,
                    begin: be32_value(payload.subrange(4, 8)) as u32,
                    block: payload.subrange(8, payload.len() as int),
                },
            )
        }
    } else if tag == 8 {
        Ok(MessageView::Cancel)
    } else if tag == 9 {
        Ok(MessageView::Port)
    } else {
        Err(ProtocolError::UnknownTag)
    }
}

/// The first message in `s` and the number of bytes it takes.
pub open spec fn read_frame(s: Seq<u8>) -> Result<(MessageView, int), ReadError> {
    if s.len() < 4 {
        Err(ReadError::Incomplete)
    } else {
        let len = be32_value(s.subrange(0, 4));
        if len == 0 {
            Err(ReadError::Protocol(ProtocolError::EmptyFrame))
        } else if s.len() < 4 + len {
            Err(ReadError::Incomplete)
        } else {
            match message_of(s[4], s.subrange(5, 4 + len)) {
                Ok(m) => Ok((m, 4 + len)),
                Err(e) => Err(ReadError::Protocol(e)),
            }
        }
    }
}

impl Message {
    /// The message that `tag` and `payload` stand for. Payload bytes beyond
    /// what a kind reads are ignored.
    pub fn parse(tag: u8, payload: &[u8]) -> (r: Result<Message, ProtocolError>)
        ensures
            r is Ok <==> message_of(tag, payload@) is Ok,
            r matches Ok(m) ==> Ok::<MessageView, ProtocolError>(m@) == message_of(
                tag,
                payload@,
            ),
            r matches Err(e) ==> Err::<MessageView, ProtocolError>(e) == message_of(
                tag,
                payload@,
            ),
    {
        match tag {
            0 => Ok(Message::Choke),
            1 => Ok(Message::Unchoke),
            2 => Ok(Message::Interested),
            3 => Ok(Message::NotInterested),
            4 => Ok(Message::Have {  }),
            5 => {
                let bits: Vec<u8> = copy_range(payload, 0, payload.len());
                assert(bits@ =~= payload@);
                Ok(Message::Bitfield(bits))
            },
            6 => {
                if payload.len() < 12 {
                    Err(ProtocolError::MalformedPayload)
                } else {
                    let index: u32 = get_be32(payload, 0);
                    let begin: u32 = get_be32(payload, 4);
                    let length: u32 = get_be32(payload, 8);
                    Ok(Message::Request { index, begin, length })
                }
            },
            7 => {
                if payload.len() < 8 {
                    Err(ProtocolError::MalformedPayload)
                } else {
                    let index: u32 = get_be32(payload, 0);
                    let begin: u32 = get_be32(payload, 4);
                    let block: Vec<u8> = copy_range(payload, 8, payload.len());
                    Ok(Message::Piece { index, begin, block })
                }
            },
            8 => Ok(Message::Cancel {  }),
            9 => Ok(Message::Port {  }),
            _ => Err(ProtocolError::UnknownTag),
        }
    }

    /// Reads the first message of `r` and says how many bytes it took.
    /// `Incomplete` means that `r` ends before the frame that it starts.
    pub fn read_from(r: &[u8]) -> (res: Result<(Message, usize), ReadError>)
        ensures
            res is Ok <==> read_frame(r@) is Ok,
            res matches Ok((m, n)) ==> Ok::<(MessageView, int), ReadError>((m@, n as int))
                == read_frame(r@),
            res matches Err(e) ==> Err::<(MessageView, int), ReadError>(e) == read_frame(r@),
    {
        if r.len() < 4 {
            return Err(ReadError::Incomplete);
        }
        let len: u32 = get_be32(r, 0);
        if len == 0 {
            return Err(ReadError::Protocol(ProtocolError::EmptyFrame));
        }
        if r.len() - 4 < len as usize {
            return Err(ReadError::Incomplete);
        }
        let end: usize = 4 + len as usize;
        let payload = vstd::slice::slice_subrange(r, 5, end);
        match Message::parse(r[4], payload) {
            Ok(m) => Ok((m, end)),
            Err(e) => Err(ReadError::Protocol(e)),
        }
    }

    /// Appends the frame of this message to `w`: the length prefix, the
    /// tag, the payload. A message too long for the prefix leaves `w` as it
    /// was.
    pub fn write_to(&self, w: &mut Vec<u8>) -> (r: Result<(), ProtocolError>)
        ensures
            fits_frame(self@) ==> r is Ok && final(w)@ == old(w)@ + frame_of(self@),
            !fits_frame(self@) ==> r == Err::<(), ProtocolError>(ProtocolError::MessageTooLong)
                && final(w)@ == old(w)@,
    {
        match self {
            Message::Choke => put_bare(w, 0),
            Message::Unchoke => put_bare(w, 1),
            Message::Interested => put_bare(w, 2),
            Message::NotInterested => put_bare(w, 3),
            Message::Have {  } => put_bare(w, 4),
            Message::Bitfield(bits) => {
                if bits.len() > 0xffff_fffe {
                    return Err(ProtocolError::MessageTooLong);
                }
                put_be32(w, bits.len() as u32 + 1);
                w.push(5);
                put_bytes(w, bits.as_slice());
                assert(w@ =~= old(w)@ + frame_of(self@));
            },
            Message::Request { index, begin, length } => {
                put_be32(w, 13);
                w.push(6);
                put_be32(w, *index);
                put_be32(w, *begin);
                put_be32(w, *length);
                assert(w@ =~= old(w)@ + frame_of(self@));
            },
            Message::Piece { index, begin, block } => {
                if block.len() > 0xffff_fff6 {
                    return Err(ProtocolError::MessageTooLong);
                }
                put_be32(w, block.len() as u32 + 9);
                w.push(7);
                put_be32(w, *index);
                put_be32(w, *begin);
                put_bytes(w, block.as_slice());
                assert(w@ =~= old(w)@ + frame_of(self@));
            },
            Message::Cancel {  } => put_bare(w, 8),
            Message::Port {  } => put_bare(w, 9),
        }
        Ok(())
    }
}

/// Appends a frame that holds a tag and nothing else.
fn put_bare(w: &mut Vec<u8>, tag: u8)
    ensures
        final(w)@ == old(w)@ + be32(1) + seq![tag],
{
    put_be32(w, 1);
    w.push(tag);
    assert(w@ =~= old(w)@ + be32(1) + seq![tag]);
}

/// What `write_to` wrote, `read_from` reads back, whatever follows it in the
/// buffer; a message with no payload has the length field one.
pub proof fn lemma_frame_round_trip(m: MessageView, rest: Seq<u8>)
    requires
        fits_frame(m),
    ensures
        read_frame(frame_of(m) + rest) == Ok::<(MessageView, int), ReadError>(
            (m, frame_of(m).len() as int),
        ),
        frame_of(m).len() == 5 + payload_of(m).len(),
        be32_value(frame_of(m).subrange(0, 4)) == 1 + payload_of(m).len(),
{
    let p = payload_of(m);
    let s = frame_of(m) + rest;
    let len = (p.len() + 1) as u32;
    crate::wire::lemma_be32_round_trip(len);
    assert(s.subrange(0, 4) =~= be32(len));
    assert(frame_of(m).subrange(0, 4) =~= be32(len));
    assert(s.subrange(5, 4 + len) =~= p);
    assert(s[4] == tag_of(m));
    match m {
        MessageView::Request { index, begin, length } => {
            crate::wire::lemma_be32_round_trip(index);
            crate::wire::lemma_be32_round_trip(begin);
            crate::wire::lemma_be32_round_trip(length);
            assert(p.subrange(0, 4) =~= be32(index));
            assert(p.subrange(4, 8) =~= be32(begin));
            assert(p.subrange(8, 12) =~= be32(length));
        },
        MessageView::Piece { index, begin, block } => {
            crate::wire::lemma_be32_round_trip(index);
            crate::wire::lemma_be32_round_trip(begin);
            assert(p.subrange(0, 4) =~= be32(index));
            assert(p.subrange(4, 8) =~= be32(begin));
            assert(p.subrange(8, p.len() as int) =~= block);
        },
        _ => {},
    }
}

} // verus!
