//! The bookkeeping of one download: which blocks were asked for, which have
//! come, and what to do with each message that the peer sends meanwhile.
//!
//! Every request has a slot, its place in the list of requests. A slot gets
//! its block at most once; the slots that never got one are told at the end.

use crate::message::{Message, MessageView, ProtocolError};
use crate::peer::{DataPiece, Piece};
use std::collections::HashMap;
use vstd::prelude::*;

verus! {

broadcast use vstd::std_specs::hash::group_hash_axioms;

/// The slot that answers for the key `(index, begin)`: the last request with
/// that key.
pub open spec fn owner(pieces: Seq<Piece>, index: u32, begin: u32) -> Option<int>
    decreases pieces.len(),
{
    if pieces.len() == 0 {
        None
    } else if pieces.last().index == index && pieces.last().begin == begin {
        Some(pieces.len() - 1)
    } else {
        owner(pieces.drop_last(), index, begin)
    }
}

/// The slot that a block with key `(index, begin)` goes to: the key's owner,
/// while it has no block yet.
pub open spec fn wanted(pieces: Seq<Piece>, delivered: Seq<bool>, index: u32, begin: u32) -> Option<
    int,
> {
    match owner(pieces, index, begin) {
        Some(slot) => if 0 <= slot < delivered.len() && !delivered[slot] {
            Some(slot)
        } else {
            None
        },
        None => None,
    }
}

/// Whether some block is still awaited.
pub open spec fn outstanding(pieces: Seq<Piece>, delivered: Seq<bool>) -> bool {
    exists|index: u32, begin: u32| (#[trigger] wanted(pieces, delivered, index, begin)) is Some
}

/// The owner of a key is a request with that key.
pub proof fn lemma_owner(pieces: Seq<Piece>, index: u32, begin: u32)
    ensures
        owner(pieces, index, begin) matches Some(slot) ==> 0 <= slot < pieces.len()
            && pieces[slot].index == index && pieces[slot].begin == begin,
    decreases pieces.len(),
{
    if pieces.len() > 0 {
        lemma_owner(pieces.drop_last(), index, begin);
    }
}

/// What to do with a message that came while blocks are awaited.
#[derive(Debug, Clone, PartialEq, Eq)]
pub enum Step {
    /// Hand `piece` to the one who waits at `slot`, once.
    Deliver { slot: usize, piece: DataPiece },
    /// Nobody waits for this block: drop it.
    Discard,
    /// The peer choked us: stop, and tell those who still wait.
    Choked,
    /// The peer broke the protocol: stop, and tell those who still wait.
    Failed(ProtocolError),
}

/// The key of a block as one number.
pub open spec fn key_of(index: u32, begin: u32) -> u64 {
    (index as int * 0x1_0000_0000 + begin as int) as u64
}

/// The state of one download.
#[derive(Debug)]
pub struct Download {
    pieces: Vec<Piece>,
    delivered: Vec<bool>,
    pending: HashMap<u64, usize>,
}

impl Download {
    /// The requests, in the order in which they were given.
    pub closed spec fn pieces(&self) -> Seq<Piece> {
        self.pieces@
    }

    /// For each slot, whether its block was handed out.
    pub closed spec fn delivered(&self) -> Seq<bool> {
        self.delivered@
    }

    /// What holds of every download: a flag for every slot, and the table of
    /// awaited keys agrees with the flags.
    pub closed spec fn wf(&self) -> bool {
        &&& self.delivered@.len() == self.pieces@.len()
        &&& forall|index: u32, begin: u32|
            self.pending@.contains_key(#[trigger] key_of(index, begin)) <==> wanted(
                self.pieces@,
                self.delivered@,
                index,
                begin,
            ) is Some
        &&& forall|index: u32, begin: u32|
            self.pending@.contains_key(#[trigger] key_of(index, begin)) ==> Some(
                self.pending@[key_of(index, begin)] as int,
            ) == wanted(self.pieces@, self.delivered@, index, begin)
    }

    /// No slot gets a block twice, and none loses the block it got: a
    /// delivery goes to a slot that had none, and every slot that had its
    /// block before a message has it after.
    pub proof fn lemma_delivered_once(self, after: Download, message: MessageView, step: Step)
        requires
            self.wf(),
            received(self, after, message, step),
        ensures
            self.delivered().len() == self.pieces().len(),
            after.delivered().len() == self.delivered().len(),
            step matches Step::Deliver { slot, .. } ==> slot < self.delivered().len()
                && !self.delivered()[slot as int] && after.delivered()[slot as int],
            forall|slot: int|
                0 <= slot < self.delivered().len() && self.delivered()[slot]
                    ==> #[trigger] after.delivered()[slot],
    {
        match message {
            MessageView::Piece { index, begin, block } => {
                lemma_owner(self.pieces@, index, begin);
            },
            _ => {},
        }
    }

    /// Starts a download of `pieces`: nothing has come yet.
    pub fn new(pieces: Vec<Piece>) -> (d: Download)
        ensures
            d.wf(),
            d.pieces() == pieces@,
            d.delivered() == Seq::new(pieces@.len(), |i: int| false),
    {
        let mut pending: HashMap<u64, usize> = HashMap::new();
        let mut delivered: Vec<bool> = Vec::new();
        let mut i: usize = 0;
        while i < pieces.len()
            invariant
                i <= pieces@.len(),
                delivered@ == Seq::new(i as nat, |j: int| false),
                forall|index: u32, begin: u32|
                    pending@.contains_key(#[trigger] key_of(index, begin)) <==> owner(
                        pieces@.take(i as int),
                        index,
                        begin,
                    ) is Some,
                forall|index: u32, begin: u32|
                    pending@.contains_key(#[trigger] key_of(index, begin)) ==> Some(
                        pending@[key_of(index, begin)] as int,
                    ) == owner(pieces@.take(i as int), index, begin),
            decreases pieces@.len() - i,
        {
            let piece: Piece = pieces[i];
            let key: u64 = (piece.index as u64) * 0x1_0000_0000 + piece.begin as u64;
            assert(key == key_of(piece.index, piece.begin));
            pending.insert(key, i);
            delivered.push(false);
            proof {
                let now = pieces@.take(i + 1);
                assert(now.drop_last() =~= pieces@.take(i as int));
                assert(now.last() == piece);
                assert(delivered@ =~= Seq::new((i + 1) as nat, |j: int| false));
            }
            i += 1;
        }
        proof {
            assert(pieces@.take(pieces@.len() as int) =~= pieces@);
            assert forall|index: u32, begin: u32|
                owner(pieces@, index, begin) is Some <==> wanted(
                    pieces@,
                    delivered@,
                    index,
                    begin,
                ) is Some by {
                lemma_owner(pieces@, index, begin);
            }
        }
        Download { pieces, delivered, pending }
    }

    /// The messages that ask for the blocks, in the order of the requests.
    pub fn requests(&self) -> (r: Vec<Message>)
        ensures
            r@.len() == self.pieces().len(),
            forall|i: int|
                0 <= i < r@.len() ==> (#[trigger] r@[i])@ == (MessageView::Request {
                    index: self.pieces()[i].index,
                    begin: self.pieces()[i].begin,
                    length: self.pieces()[i].length,
                }),
    {
        let mut out: Vec<Message> = Vec::new();
        let mut i: usize = 0;
        while i < self.pieces.len()
            invariant
                i <= self.pieces@.len(),
                out@.len() == i,
                forall|j: int|
                    0 <= j < i ==> (#[trigger] out@[j])@ == (MessageView::Request {
                        index: self.pieces@[j].index,
                        begin: self.pieces@[j].begin,
                        length: self.pieces@[j].length,
                    }),
            decreases self.pieces@.len() - i,
        {
            let piece: Piece = self.pieces[i];
            out.push(Message::Request { index: piece.index, begin: piece.begin, length: piece.length });
            i += 1;
        }
        out
    }

    /// Whether every awaited block has come.
    pub fn is_complete(&self) -> (r: bool)
        requires
            self.wf(),
        ensures
            r <==> !outstanding(self.pieces(), self.delivered()),
    {
        let r = self.pending.is_empty();
        proof {
            if r {
                assert forall|index: u32, begin: u32|
                    !((#[trigger] wanted(self.pieces@, self.delivered@, index, begin)) is Some) by {
                    assert(!self.pending@.contains_key(key_of(index, begin)));
                }
            } else {
                let k = choose|k: u64| self.pending@.dom().contains(k);
                let index = (k / 0x1_0000_0000) as u32;
                let begin = (k % 0x1_0000_0000) as u32;
                assert(key_of(index, begin) == k);
                assert(wanted(self.pieces@, self.delivered@, index, begin) is Some);
            }
        }
        r
    }
}

/// How a download and the step to take follow from a message: a block goes
/// to the slot that waits for its key, and to no slot twice; a block that
/// nobody waits for is dropped; a choke stops the download; any other
/// message breaks the protocol. Only a delivery changes the state.
pub open spec fn received(before: Download, after: Download, message: MessageView, step: Step) -> bool {
    &&& after.pieces() == before.pieces()
    &&& match message {
        MessageView::Piece { index, begin, block } => match wanted(
            before.pieces(),
            before.delivered(),
            index,
            begin,
        ) {
            Some(at) => {
                &&& step matches Step::Deliver { slot, piece }
                &&& slot == at
                &&& piece.index == index
                &&& piece.begin == begin
                &&& piece.block@ == block
                &&& after.delivered() == before.delivered().update(at, true)
            },
            None => step == Step::Discard && after.delivered() == before.delivered(),
        },
        MessageView::Choke => step == Step::Choked && after.delivered() == before.delivered(),
        _ => step == Step::Failed(ProtocolError::UnexpectedMessage) && after.delivered()
            == before.delivered(),
    }
}

impl Download {
    /// Takes a message that came while blocks are awaited and says what to
    /// do with it. A block goes to the slot that waits for its key, and to
    /// no slot twice; a block that nobody waits for is dropped; a choke
    /// stops the download; any other message breaks the protocol. Only a
    /// delivery changes the state.
    pub fn receive(&mut self, message: Message) -> (step: Step)
        requires
            old(self).wf(),
        ensures
            final(self).wf(),
            received(*old(self), *final(self), message@, step),
    {
        match message {
            Message::Piece { index, begin, block } => {
                let key: u64 = (index as u64) * 0x1_0000_0000 + begin as u64;
                assert(key == key_of(index, begin));
                match self.pending.remove(&key) {
                    Some(slot) => {
                        proof {
                            lemma_owner(self.pieces@, index, begin);
                        }
                        self.delivered.set(slot, true);
                        proof {
                            assert forall|i: u32, b: u32|
                                self.pending@.contains_key(#[trigger] key_of(i, b)) <==> wanted(
                                    self.pieces@,
                                    self.delivered@,
                                    i,
                                    b,
                                ) is Some by {
                                lemma_owner(self.pieces@, i, b);
                            }
                            assert forall|i: u32, b: u32|
                                self.pending@.contains_key(#[trigger] key_of(i, b)) implies Some(
                                    self.pending@[key_of(i, b)] as int,
                                ) == wanted(self.pieces@, self.delivered@, i, b) by {
                                lemma_owner(self.pieces@, i, b);
                            }
                        }
                        Step::Deliver { slot, piece: DataPiece { index, begin, block } }
                    },
                    None => Step::Discard,
                }
            },
            Message::Choke => Step::Choked,
            _ => Step::Failed(ProtocolError::UnexpectedMessage),
        }
    }

    /// Whether the download is over after `step`, and how: with a choke
    /// (`true`), because every awaited block has come (`false`), or with the
    /// error that broke the protocol. `None` while blocks are awaited.
    pub fn outcome(&self, step: &Step) -> (r: Option<Result<bool, ProtocolError>>)
        requires
            self.wf(),
        ensures
            r == match *step {
                Step::Choked => Some(Ok::<bool, ProtocolError>(true)),
                Step::Failed(e) => Some(Err::<bool, ProtocolError>(e)),
                _ => if outstanding(self.pieces(), self.delivered()) {
                    None
                } else {
                    Some(Ok::<bool, ProtocolError>(false))
                },
            },
    {
        match step {
            Step::Choked => Some(Ok(true)),
            Step::Failed(e) => Some(Err(*e)),
            _ => if self.is_complete() {
                Some(Ok(false))
            } else {
                None
            },
        }
    }

    /// The slots whose block has not come, in rising order: those to tell
    /// that nothing will come.
    pub fn undelivered(&self) -> (r: Vec<usize>)
        requires
            self.wf(),
        ensures
            forall|i: int| 0 <= i < r@.len() ==> (#[trigger] r@[i]) < self.delivered().len()
                && !self.delivered()[r@[i] as int],
            forall|slot: int|
                0 <= slot < self.delivered().len() && !self.delivered()[slot] ==> r@.contains(
                    slot as usize,
                ),
            forall|i: int, j: int| 0 <= i < j < r@.len() ==> r@[i] < r@[j],
    {
        let mut out: Vec<usize> = Vec::new();
        let mut slot: usize = 0;
        while slot < self.delivered.len()
            invariant
                slot <= self.delivered@.len(),
                forall|i: int| 0 <= i < out@.len() ==> (#[trigger] out@[i]) < slot
                    && !self.delivered@[out@[i] as int],
                forall|s: int|
                    0 <= s < slot && !self.delivered@[s] ==> out@.contains(s as usize),
                forall|i: int, j: int| 0 <= i < j < out@.len() ==> out@[i] < out@[j],
            decreases self.delivered@.len() - slot,
        {
            if !self.delivered[slot] {
                let ghost before = out@;
                out.push(slot);
                proof {
                    assert(out@[before.len() as int] == slot);
                    assert forall|s: int|
                        0 <= s < slot + 1 && !self.delivered@[s] implies out@.contains(
                        s as usize,
                    ) by {
                        if s < slot {
                            let i = choose|i: int| 0 <= i < before.len() && before[i] == s as usize;
                            assert(out@[i] == s as usize);
                        }
                    }
                }
            }
            slot += 1;
        }
        out
    }
}

} // verus!
