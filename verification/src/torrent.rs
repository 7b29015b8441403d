//! The descriptor of a download, the tracker's answer, and how the content
//! is cut into pieces and blocks.

use crate::peer::Piece;
use vstd::prelude::*;
use vstd::slice::slice_subrange;

verus! {

/// The size of a block: the unit that is asked for over the wire.
pub const BLOCK_SIZE: u32 = 16384;

/// What a tracker answers.
#[derive(Debug, Clone, PartialEq, Eq)]
pub struct PeersResponse {
    pub interval: usize,
    pub peers: Vec<u8>,
}

/// The info block of a descriptor.
#[derive(Debug, Clone, PartialEq, Eq)]
pub struct TorrentInfo {
    pub length: u32,
    pub name: String,
    pub piece_length: u32,
    pub pieces: Vec<u8>,
}

/// A descriptor: where to ask for peers, and what is to be had.
#[derive(Debug, Clone, PartialEq, Eq)]
pub struct Torrent {
    pub announce: String,
    pub info: TorrentInfo,
}

/// The address of a peer: an IPv4 address and a port.
#[derive(Debug, Clone, Copy, PartialEq, Eq)]
pub struct PeerAddr {
    pub ip: [u8; 4],
    pub port: u16,
}

/// The number of chunks of `size` that `len` bytes make, the last one
/// perhaps shorter.
pub open spec fn chunk_count(len: int, size: int) -> int {
    if size <= 0 || len <= 0 {
        0
    } else {
        (len + size - 1) / size
    }
}

/// The length of chunk `i` of `len` bytes cut into chunks of `size`: `size`
/// for every chunk but the last, which holds what is left, and nothing for
/// a chunk that does not exist.
pub open spec fn chunk_len(len: int, size: int, i: int) -> int {
    if size > 0 && 0 <= i && i * size < len {
        if len - i * size < size {
            len - i * size
        } else {
            size
        }
    } else {
        0
    }
}

/// The chunks that exist are those below the count, and only the last one
/// can be shorter than `size`.
pub proof fn lemma_chunks(len: int, size: int, i: int)
    requires
        len >= 0,
        size > 0,
        i >= 0,
    ensures
        i < chunk_count(len, size) <==> chunk_len(len, size, i) > 0,
        i + 1 < chunk_count(len, size) ==> chunk_len(len, size, i) == size,
        i + 1 == chunk_count(len, size) ==> chunk_len(len, size, i) == len - i * size,
{
    if len > 0 {
        let n = (len + size - 1) / size;
        assert(n * size <= len + size - 1 < n * size + size) by (nonlinear_arith)
            requires
                n == (len + size - 1) / size,
                size > 0,
                len + size - 1 >= 0,
        ;
        assert(i < n <==> i * size < len) by (nonlinear_arith)
            requires
                n * size <= len + size - 1 < n * size + size,
                size > 0,
                i >= 0,
        ;
        assert(i + 1 < n ==> (i + 1) * size < len) by (nonlinear_arith)
            requires
                n * size <= len + size - 1 < n * size + size,
                size > 0,
                i >= 0,
        ;
        assert(i + 1 == n ==> (i + 1) * size >= len) by (nonlinear_arith)
            requires
                n * size <= len + size - 1 < n * size + size,
                size > 0,
                i >= 0,
        ;
        assert((i + 1) * size == i * size + size) by (nonlinear_arith);
    } else {
        assert(i * size >= 0) by (nonlinear_arith)
            requires
                i >= 0,
                size > 0,
        ;
    }
}

/// Whether `addr` is what the six bytes at `6 * i` of `peers` spell.
pub open spec fn is_peer_at(addr: PeerAddr, peers: Seq<u8>, i: int) -> bool {
    &&& addr.ip@ == peers.subrange(6 * i, 6 * i + 4)
    &&& addr.port == peers[6 * i + 4] as int * 256 + peers[6 * i + 5] as int
}

impl PeersResponse {
    /// The addresses in the answer: one for every six bytes, four of address
    /// and two of port, most significant first. Bytes left over at the end
    /// are no address.
    pub fn peers(&self) -> (r: Vec<PeerAddr>)
        ensures
            r@.len() == self.peers@.len() / 6,
            forall|i: int| 0 <= i < r@.len() ==> is_peer_at(#[trigger] r@[i], self.peers@, i),
    {
        let mut out: Vec<PeerAddr> = Vec::new();
        let n: usize = self.peers.len() / 6;
        let mut i: usize = 0;
        while i < n
            invariant
                n == self.peers@.len() / 6,
                6 * n <= self.peers@.len() <= usize::MAX,
                i <= n,
                out@.len() == i,
                forall|j: int| 0 <= j < i ==> is_peer_at(#[trigger] out@[j], self.peers@, j),
            decreases n - i,
        {
            let at: usize = 6 * i;
            let ip: [u8; 4] = [
                self.peers[at],
                self.peers[at + 1],
                self.peers[at + 2],
                self.peers[at + 3],
            ];
            let port: u16 = (self.peers[at + 4] as u16) * 256 + self.peers[at + 5] as u16;
            out.push(PeerAddr { ip, port });
            assert(ip@ =~= self.peers@.subrange(6 * i, 6 * i + 4));
            i += 1;
        }
        out
    }
}

impl TorrentInfo {
    /// The piece hashes: the buffer cut every twenty bytes. A buffer that
    /// ends inside a hash gives a last, shorter chunk.
    pub fn pieces(&self) -> (r: Vec<&[u8]>)
        ensures
            r@.len() == chunk_count(self.pieces@.len() as int, 20),
            forall|i: int|
                0 <= i < r@.len() ==> (#[trigger] r@[i])@ == self.pieces@.subrange(
                    20 * i,
                    20 * i + chunk_len(self.pieces@.len() as int, 20, i),
                ),
    {
        let mut out: Vec<&[u8]> = Vec::new();
        let len: usize = self.pieces.len();
        let mut at: usize = 0;
        while at < len
            invariant
                len == self.pieces@.len(),
                at <= len,
                at < len ==> at == 20 * out@.len(),
                at == len ==> out@.len() == chunk_count(len as int, 20),
                forall|i: int|
                    0 <= i < out@.len() ==> (#[trigger] out@[i])@ == self.pieces@.subrange(
                        20 * i,
                        20 * i + chunk_len(len as int, 20, i),
                    ),
            decreases len - at,
        {
            let end: usize = if len - at < 20 {
                len
            } else {
                at + 20
            };
            out.push(slice_subrange(self.pieces.as_slice(), at, end));
            at = end;
        }
        out
    }

    /// The number of pieces that the content is cut into.
    pub fn piece_count(&self) -> (n: u32)
        ensures
            n == chunk_count(self.length as int, self.piece_length as int),
    {
        if self.piece_length == 0 || self.length == 0 {
            0
        } else {
            let n: u64 = (self.length as u64 + self.piece_length as u64 - 1)
                / self.piece_length as u64;
            assert(n <= self.length) by (nonlinear_arith)
                requires
                    n == (self.length + self.piece_length - 1) / (self.piece_length as int),
                    self.piece_length >= 1,
                    self.length >= 1,
            ;
            n as u32
        }
    }

    /// The length of piece `index`: the piece length for every piece but the
    /// last, which holds what is left of the content; zero for a piece that
    /// does not exist.
    pub fn piece_size(&self, index: u32) -> (n: u32)
        ensures
            n == chunk_len(self.length as int, self.piece_length as int, index as int),
    {
        if self.piece_length == 0 {
            return 0;
        }
        assert(index * self.piece_length <= 0xffff_ffff * 0xffff_ffff) by (nonlinear_arith)
            requires
                index <= 0xffff_ffff,
                self.piece_length <= 0xffff_ffff,
        ;
        let start: u64 = index as u64 * self.piece_length as u64;
        if start >= self.length as u64 {
            0
        } else {
            let left: u64 = self.length as u64 - start;
            if left < self.piece_length as u64 {
                left as u32
            } else {
                self.piece_length
            }
        }
    }
}

/// The block that is number `i` of a piece of `size` bytes.
pub open spec fn block_at(index: u32, size: u32, i: int) -> Piece {
    Piece {
        index,
        begin: (i * 16384) as u32,
        length: chunk_len(size as int, 16384, i) as u32,
    }
}

/// The blocks to ask for to get piece `index` of `size` bytes: one every
/// sixteen kibibytes, the last one holding what is left.
pub fn blocks(index: u32, size: u32) -> (r: Vec<Piece>)
    ensures
        r@.len() == chunk_count(size as int, 16384),
        forall|i: int| 0 <= i < r@.len() ==> #[trigger] r@[i] == block_at(index, size, i),
{
    let mut out: Vec<Piece> = Vec::new();
    let mut begin: u32 = 0;
    while begin < size
        invariant
            begin <= size,
            begin < size ==> begin == 16384 * out@.len(),
            begin == size ==> out@.len() == chunk_count(size as int, 16384),
            forall|i: int| 0 <= i < out@.len() ==> #[trigger] out@[i] == block_at(index, size, i),
        decreases size - begin,
    {
        let length: u32 = if size - begin < BLOCK_SIZE {
            size - begin
        } else {
            BLOCK_SIZE
        };
        out.push(Piece { index, begin, length });
        begin = begin + length;
    }
    out
}

} // verus!
