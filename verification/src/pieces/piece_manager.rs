//! The piece manager: which blocks are wanted, requested and received, and
//! when a piece is whole and verified.

use crate::error::Error;
use crate::hash::{digest_bytes, sha1_digest};
use crate::torrent::{
    count_pieces, lemma_piece_count_bounds, lemma_piece_size_bounds, piece_count, piece_size,
    HASH_LEN,
};
use vstd::prelude::*;

verus! {

/// Largest length of a block, the unit of transfer.
pub const BLOCK_SIZE: usize = 16384;

/// Where a block stands.
#[derive(Clone, Copy, Debug, PartialEq, Eq, Structural)]
pub enum BlockState {
    NotRequested,
    Requested,
    Received,
}

/// Number of blocks of `block_size` bytes that cover `len` bytes.
pub open spec fn blocks_in(len: nat, block_size: nat) -> nat {
    piece_count(len, block_size)
}

/// A piece as the contracts see it.
pub struct PieceView {
    pub index: nat,
    pub data: Seq<u8>,
    pub states: Seq<BlockState>,
    pub complete: bool,
}

/// One piece of the content while it is assembled.
#[derive(Debug)]
pub struct Piece {
    index: usize,
    data: Vec<u8>,
    block_status: Vec<BlockState>,
    is_complete: bool,
}

impl View for Piece {
    type V = PieceView;

    closed spec fn view(&self) -> PieceView {
        PieceView {
            index: self.index as nat,
            data: self.data@,
            states: self.block_status@,
            complete: self.is_complete,
        }
    }
}

impl PieceView {
    /// The piece once its buffer and block states exist: unchanged where the
    /// buffer is not empty, else a zeroed buffer of `piece_len` bytes with
    /// every block not requested.
    pub open spec fn initialised(self, piece_len: nat, block_size: nat) -> PieceView {
        if self.data.len() == 0 {
            PieceView {
                data: Seq::new(piece_len, |i: int| 0u8),
                states: Seq::new(blocks_in(piece_len, block_size), |i: int| BlockState::NotRequested),
                ..self
            }
        } else {
            self
        }
    }
}

impl Piece {
    /// A piece that nothing was requested of yet.
    pub fn new(index: usize) -> (piece: Piece)
        ensures
            piece@ == (PieceView {
                index: index as nat,
                data: Seq::empty(),
                states: Seq::empty(),
                complete: false,
            }),
    {
        Piece { index, data: Vec::new(), block_status: Vec::new(), is_complete: false }
    }

    /// The piece's number.
    pub fn index(&self) -> (index: usize)
        ensures
            index == self@.index,
    {
        self.index
    }

    /// The assembly buffer; empty until the first request and once the
    /// piece is complete.
    pub fn data(&self) -> (data: &Vec<u8>)
        ensures
            data@ == self@.data,
    {
        &self.data
    }

    /// The state of each block; empty until the first request and once the
    /// piece is complete.
    pub fn block_status(&self) -> (states: &Vec<BlockState>)
        ensures
            states@ == self@.states,
    {
        &self.block_status
    }

    /// Whether the piece was verified against its hash.
    pub fn is_complete(&self) -> (complete: bool)
        ensures
            complete == self@.complete,
    {
        self.is_complete
    }

    /// Allocates the buffer and the block states on first use.
    pub fn maybe_init(&mut self, piece_len: usize, block_size: usize)
        requires
            block_size > 0,
        ensures
            final(self)@ == old(self)@.initialised(piece_len as nat, block_size as nat),
    {
        if self.data.is_empty() {
            let num_blocks = count_pieces(piece_len, block_size);
            self.data = vec![0u8; piece_len];
            self.block_status = vec![BlockState::NotRequested; num_blocks];
            assert(self.data@ =~= Seq::new(piece_len as nat, |i: int| 0u8));
            assert(self.block_status@ =~= Seq::new(
                blocks_in(piece_len as nat, block_size as nat),
                |i: int| BlockState::NotRequested,
            ));
        }
    }
}

/// The piece manager as the contracts see it.
pub struct ManagerView {
    pub piece_length: nat,
    pub total_length: nat,
    pub hashes: Seq<Seq<u8>>,
    pub pieces: Seq<PieceView>,
}

/// Index of the first block at or after `from` that is not requested.
pub open spec fn first_unrequested(states: Seq<BlockState>, from: int) -> Option<int>
    decreases states.len() - from,
{
    if from < 0 || from >= states.len() {
        None
    } else if states[from] == BlockState::NotRequested {
        Some(from)
    } else {
        first_unrequested(states, from + 1)
    }
}

/// True when every block of a non-empty state list is received.
pub open spec fn all_received(states: Seq<BlockState>) -> bool {
    &&& states.len() > 0
    &&& forall|k: int| 0 <= k < states.len() ==> states[k] == BlockState::Received
}

impl ManagerView {
    /// Length of piece `i`.
    pub open spec fn piece_len(self, i: int) -> nat {
        piece_size(self.total_length, self.piece_length, i as nat)
    }

    /// Piece `i` is either untouched (or complete) with no buffer, or holds
    /// a buffer of its own length with one state for each of its blocks.
    pub open spec fn piece_wf(self, i: int) -> bool {
        let p = self.pieces[i];
        &&& p.index == i
        &&& self.hashes[i].len() == HASH_LEN
        &&& if p.complete || p.data.len() == 0 {
            p.data.len() == 0 && p.states.len() == 0
        } else {
            &&& p.data.len() == self.piece_len(i)
            &&& p.states.len() == blocks_in(self.piece_len(i), BLOCK_SIZE as nat)
        }
    }

    /// There is one piece and one hash for each piece of the content, and
    /// every piece is well formed.
    pub open spec fn wf(self) -> bool {
        &&& self.piece_length > 0
        &&& self.pieces.len() == piece_count(self.total_length, self.piece_length)
        &&& self.hashes.len() == self.pieces.len()
        &&& forall|i: int| 0 <= i < self.pieces.len() ==> #[trigger] self.piece_wf(i)
    }

    /// Piece `i` with its buffer and block states in place.
    pub open spec fn ready(self, i: int) -> PieceView {
        self.pieces[i].initialised(self.piece_len(i), BLOCK_SIZE as nat)
    }

    /// The peer has piece `i` and we have not completed it.
    pub open spec fn wanted(self, bits: Seq<bool>, i: int) -> bool {
        &&& 0 <= i < self.pieces.len()
        &&& i < bits.len()
        &&& bits[i]
        &&& !self.pieces[i].complete
    }

    /// The first block to ask the peer for, scanning the pieces from `from`
    /// upwards and the blocks of each wanted piece in order.
    pub open spec fn candidate(self, bits: Seq<bool>, from: int) -> Option<(int, int)>
        decreases self.pieces.len() - from,
    {
        if from < 0 || from >= self.pieces.len() {
            None
        } else if self.wanted(bits, from) {
            match first_unrequested(self.ready(from).states, 0) {
                Some(k) => Some((from, k)),
                None => self.candidate(bits, from + 1),
            }
        } else {
            self.candidate(bits, from + 1)
        }
    }

    /// The state with piece `i` replaced.
    pub open spec fn with_piece(self, i: int, piece: PieceView) -> ManagerView {
        ManagerView { pieces: self.pieces.update(i, piece), ..self }
    }

    /// The state after block `k` of piece `i` was handed out.
    pub open spec fn after_request(self, i: int, k: int) -> ManagerView {
        let p = self.ready(i);
        self.with_piece(
            i,
            PieceView { states: p.states.update(k, BlockState::Requested), ..p },
        )
    }

    /// Number of bytes in those of the first `n` pieces that are not complete.
    pub open spec fn left_in(self, n: nat) -> nat
        decreases n,
    {
        if n == 0 {
            0
        } else {
            self.left_in((n - 1) as nat) + if self.pieces[n - 1].complete {
                0
            } else {
                self.piece_len(n - 1)
            }
        }
    }
}

/// What became of a delivered block.
#[derive(Debug)]
pub enum BlockOutcome {
    /// The block was stored; its piece still lacks blocks.
    Stored,
    /// The piece was complete already; nothing was done.
    AlreadyComplete,
    /// The piece was whole but did not match its hash; its blocks are to be
    /// requested again.
    HashMismatch,
    /// The piece was whole and matched its hash; here is its content, to be
    /// written out.
    Verified(Vec<u8>),
}

/// A `BlockOutcome` as the contracts see it.
pub enum OutcomeView {
    Stored,
    AlreadyComplete,
    HashMismatch,
    Verified(Seq<u8>),
}

impl View for BlockOutcome {
    type V = OutcomeView;

    open spec fn view(&self) -> OutcomeView {
        match self {
            BlockOutcome::Stored => OutcomeView::Stored,
            BlockOutcome::AlreadyComplete => OutcomeView::AlreadyComplete,
            BlockOutcome::HashMismatch => OutcomeView::HashMismatch,
            BlockOutcome::Verified(data) => OutcomeView::Verified(data@),
        }
    }
}

/// Index of the block that starts at offset `begin` of its piece.
pub open spec fn block_of(begin: nat) -> int {
    begin as int / BLOCK_SIZE as int
}

/// `buffer` with `data` written over it from `begin` on.
pub open spec fn overwrite(buffer: Seq<u8>, begin: int, data: Seq<u8>) -> Seq<u8> {
    buffer.subrange(0, begin) + data + buffer.subrange(begin + data.len(), buffer.len() as int)
}

impl ManagerView {
    /// A block of `len` bytes at `begin` starts on a block boundary inside
    /// the buffer of piece `i` and ends inside it.
    pub open spec fn block_fits(self, i: int, begin: nat, len: nat) -> bool {
        let p = self.pieces[i];
        &&& begin % BLOCK_SIZE as nat == 0
        &&& begin + len <= p.data.len()
        &&& block_of(begin) < p.states.len()
    }

    /// The state after `data` was copied into piece `i` at `begin` and its
    /// block marked received.
    pub open spec fn after_store(self, i: int, begin: nat, data: Seq<u8>) -> ManagerView {
        let p = self.pieces[i];
        self.with_piece(
            i,
            PieceView {
                data: overwrite(p.data, begin as int, data),
                states: p.states.update(block_of(begin), BlockState::Received),
                ..p
            },
        )
    }

    /// What a delivered block does before any hash is looked at: an error
    /// for a piece that does not exist or a block that does not fit,
    /// nothing for a complete piece, else the block is stored.
    pub open spec fn store(self, i: int, begin: nat, data: Seq<u8>) -> Result<
        (ManagerView, OutcomeView),
        Error,
    > {
        if !(0 <= i < self.pieces.len()) {
            Err(Error::PeerProtocolError)
        } else if self.pieces[i].complete {
            Ok((self, OutcomeView::AlreadyComplete))
        } else if !self.block_fits(i, begin, data.len()) {
            Err(Error::PeerProtocolError)
        } else {
            Ok((self.after_store(i, begin, data), OutcomeView::Stored))
        }
    }

    /// Piece `i` is not complete and every one of its blocks is received.
    pub open spec fn full(self, i: int) -> bool {
        &&& 0 <= i < self.pieces.len()
        &&& !self.pieces[i].complete
        &&& all_received(self.pieces[i].states)
    }

    /// What becomes of piece `i` once the digest of its buffer is known. A
    /// piece that is not full is left as it is. A full piece whose digest is
    /// the expected hash becomes complete and gives up its buffer; any other
    /// full piece has every block set back to not requested.
    pub open spec fn settle(self, i: int, digest: Seq<u8>) -> (ManagerView, OutcomeView) {
        let p = self.pieces[i];
        if !self.full(i) {
            (self, OutcomeView::Stored)
        } else if digest == self.hashes[i] {
            (
                self.with_piece(
                    i,
                    PieceView { data: Seq::empty(), states: Seq::empty(), complete: true, ..p },
                ),
                OutcomeView::Verified(p.data),
            )
        } else {
            (
                self.with_piece(
                    i,
                    PieceView {
                        states: Seq::new(p.states.len(), |k: int| BlockState::NotRequested),
                        ..p
                    },
                ),
                OutcomeView::HashMismatch,
            )
        }
    }

    /// What a delivered block does, given the digest that the buffer of its
    /// piece has once the block is stored.
    pub open spec fn deliver(self, i: int, begin: nat, data: Seq<u8>, digest: Seq<u8>) -> Result<
        (ManagerView, OutcomeView),
        Error,
    > {
        match self.store(i, begin, data) {
            Ok((stored, OutcomeView::Stored)) => Ok(stored.settle(i, digest)),
            other => other,
        }
    }

    /// What a delivered block does: `deliver` with the SHA-1 digest of the
    /// buffer that holds the block.
    pub open spec fn add_block(self, i: int, begin: nat, data: Seq<u8>) -> Result<
        (ManagerView, OutcomeView),
        Error,
    > {
        self.deliver(i, begin, data, sha1_digest(overwrite(self.pieces[i].data, begin as int, data)))
    }
}

/// Shared coordinator of the download: the state of every piece and block.
#[derive(Debug)]
pub struct PieceManager {
    piece_length: usize,
    total_length: usize,
    piece_hashes: Vec<[u8; 20]>,
    pieces: Vec<Piece>,
}

impl View for PieceManager {
    type V = ManagerView;

    closed spec fn view(&self) -> ManagerView {
        ManagerView {
            piece_length: self.piece_length as nat,
            total_length: self.total_length as nat,
            hashes: Seq::new(self.piece_hashes@.len(), |i: int| self.piece_hashes@[i]@),
            pieces: Seq::new(self.pieces@.len(), |i: int| self.pieces@[i]@),
        }
    }
}

impl PieceManager {
    /// The manager's invariant.
    pub open spec fn wf(&self) -> bool {
        self@.wf()
    }

    /// A manager for a content of `total_length` bytes cut into pieces of
    /// `piece_length` bytes, whose hashes are `piece_hashes`, 20 bytes each.
    /// Fails with `MetainfoInvalid` unless the piece length is positive and
    /// there is exactly one whole hash for each piece.
    pub fn new(piece_length: usize, total_length: usize, piece_hashes: &[u8]) -> (made: Result<
        PieceManager,
        Error,
    >)
        ensures
            made.is_ok() <==> {
                &&& piece_length > 0
                &&& piece_hashes@.len() % HASH_LEN as nat == 0
                &&& piece_hashes@.len() / HASH_LEN as nat == piece_count(
                    total_length as nat,
                    piece_length as nat,
                )
            },
            made matches Err(e) ==> e == Error::MetainfoInvalid,
            made matches Ok(pm) ==> {
                &&& pm.wf()
                &&& pm@.piece_length == piece_length
                &&& pm@.total_length == total_length
                &&& pm@.pieces.len() == piece_hashes@.len() / HASH_LEN as nat
                &&& forall|i: int|
                    0 <= i < pm@.pieces.len() ==> #[trigger] pm@.hashes[i]
                        == piece_hashes@.subrange(i * HASH_LEN as int, (i + 1) * HASH_LEN as int)
                &&& forall|i: int|
                    0 <= i < pm@.pieces.len() ==> #[trigger] pm@.pieces[i] == (PieceView {
                        index: i as nat,
                        data: Seq::empty(),
                        states: Seq::empty(),
                        complete: false,
                    })
            },
    {
        if piece_length == 0 || piece_hashes.len() % HASH_LEN != 0 {
            return Err(Error::MetainfoInvalid);
        }
        let num_pieces = piece_hashes.len() / HASH_LEN;
        if num_pieces != count_pieces(total_length, piece_length) {
            return Err(Error::MetainfoInvalid);
        }
        let mut hashes: Vec<[u8; 20]> = Vec::new();
        let mut pieces: Vec<Piece> = Vec::new();
        let mut i: usize = 0;
        while i < num_pieces
            invariant
                i <= num_pieces,
                num_pieces * HASH_LEN == piece_hashes@.len() <= usize::MAX,
                hashes@.len() == i,
                pieces@.len() == i,
                forall|j: int|
                    0 <= j < i ==> #[trigger] hashes@[j]@ == piece_hashes@.subrange(
                        j * HASH_LEN as int,
                        (j + 1) * HASH_LEN as int,
                    ),
                forall|j: int|
                    0 <= j < i ==> #[trigger] pieces@[j]@ == (PieceView {
                        index: j as nat,
                        data: Seq::empty(),
                        states: Seq::empty(),
                        complete: false,
                    }),
            decreases num_pieces - i,
        {
            let mut hash = [0u8; 20];
            let base = i * HASH_LEN;
            let mut j: usize = 0;
            while j < HASH_LEN
                invariant
                    j <= HASH_LEN,
                    base == i * HASH_LEN,
                    base + HASH_LEN <= piece_hashes@.len() <= usize::MAX,
                    forall|m: int| 0 <= m < j ==> hash@[m] == piece_hashes@[base + m],
                decreases HASH_LEN - j,
            {
                hash[j] = piece_hashes[base + j];
                j += 1;
            }
            assert(hash@ =~= piece_hashes@.subrange(
                i * HASH_LEN as int,
                (i + 1) * HASH_LEN as int,
            ));
            hashes.push(hash);
            pieces.push(Piece::new(i));
            i += 1;
        }
        let pm = PieceManager { piece_length, total_length, piece_hashes: hashes, pieces };
        assert forall|i: int| 0 <= i < pm@.pieces.len() implies #[trigger] pm@.piece_wf(i) by {
            assert(pm@.hashes[i] == pm.piece_hashes@[i]@);
        }
        Ok(pm)
    }

    /// Piece `index`, or `None` where there is no such piece.
    pub fn piece(&self, index: usize) -> (piece: Option<&Piece>)
        ensures
            piece.is_some() <==> index < self@.pieces.len(),
            piece matches Some(p) ==> p@ == self@.pieces[index as int],
    {
        if index < self.pieces.len() {
            Some(&self.pieces[index])
        } else {
            None
        }
    }

    /// The expected hash of piece `index`, or `None` where there is no such piece.
    pub fn piece_hash(&self, index: usize) -> (hash: Option<[u8; 20]>)
        ensures
            hash.is_some() <==> index < self@.hashes.len(),
            hash matches Some(h) ==> h@ == self@.hashes[index as int],
    {
        if index < self.piece_hashes.len() {
            Some(self.piece_hashes[index])
        } else {
            None
        }
    }

    /// Number of pieces.
    pub fn num_pieces(&self) -> (n: usize)
        ensures
            n == self@.pieces.len(),
    {
        self.pieces.len()
    }

    /// Nominal length of a piece.
    pub fn piece_length(&self) -> (n: usize)
        ensures
            n == self@.piece_length,
    {
        self.piece_length
    }

    /// Length of the whole content.
    pub fn total_length(&self) -> (n: usize)
        ensures
            n == self@.total_length,
    {
        self.total_length
    }

    /// Number of bytes still to download: the lengths of the pieces that
    /// are not complete, added up.
    pub fn bytes_left(&self) -> (left: usize)
        requires
            self.wf(),
        ensures
            left == self@.left_in(self@.pieces.len()),
            left <= self@.total_length,
    {
        let mut left: usize = 0;
        let mut index: usize = 0;
        while index < self.pieces.len()
            invariant
                self.wf(),
                index <= self.pieces@.len(),
                left == self@.left_in(index as nat),
            decreases self.pieces@.len() - index,
        {
            proof {
                lemma_left_in_bound(self@, index as nat);
                lemma_left_in_bound(self@, (index + 1) as nat);
                lemma_piece_count_bounds(self@.total_length, self@.piece_length);
                assert(self@.piece_wf(index as int));
            }
            if !self.pieces[index].is_complete {
                let len = self.piece_length_of_index(index);
                assert(left + len <= self.total_length);
                left = left + len;
            }
            index += 1;
        }
        proof {
            lemma_left_in_bound(self@, self@.pieces.len());
        }
        left
    }

    /// True iff the peer has some piece that we have not completed.
    pub fn peer_has_piece_we_dont(&self, peer_bitfield: &[bool]) -> (has: bool)
        ensures
            has == exists|i: int| self@.wanted(peer_bitfield@, i),
    {
        let mut index: usize = 0;
        while index < self.pieces.len()
            invariant
                index <= self.pieces@.len(),
                forall|i: int| 0 <= i < index ==> !self@.wanted(peer_bitfield@, i),
            decreases self.pieces@.len() - index,
        {
            if !self.pieces[index].is_complete && index < peer_bitfield.len()
                && peer_bitfield[index] {
                assert(self@.wanted(peer_bitfield@, index as int));
                return true;
            }
            index += 1;
        }
        false
    }

    /// Length of piece `index`: the piece length for every piece but the
    /// last, which holds what the others leave of the content.
    pub fn piece_length_of_index(&self, index: usize) -> (len: usize)
        requires
            self.wf(),
            index < self@.pieces.len(),
        ensures
            len == self@.piece_len(index as int),
            index + 1 < self@.pieces.len() ==> len == self@.piece_length,
            index + 1 == self@.pieces.len() ==> len == self@.total_length - (self@.pieces.len()
                - 1) * self@.piece_length,
            1 <= len <= self@.piece_length,
    {
        proof {
            lemma_piece_count_bounds(self@.total_length, self@.piece_length);
            lemma_piece_size_bounds(self@.total_length, self@.piece_length, index as nat);
        }
        let last = self.pieces.len() - 1;
        if index < last {
            self.piece_length
        } else {
            assert(self.piece_length * last <= self.total_length) by (nonlinear_arith)
                requires
                    (self@.pieces.len() - 1) * self@.piece_length < self@.total_length,
                    last == self@.pieces.len() - 1,
                    self.piece_length == self@.piece_length,
                    self.total_length == self@.total_length,
            ;
            assert(self.piece_length * last == (self@.pieces.len() - 1) * self@.piece_length)
                by (nonlinear_arith)
                requires
                    last == self@.pieces.len() - 1,
                    self.piece_length == self@.piece_length,
            ;
            self.total_length - self.piece_length * last
        }
    }

    /// The next block to request from a peer with the given bitfield:
    /// `(piece_index, offset, piece_length)` of the first block, in
    /// ascending order of piece and offset, that is not requested and lies
    /// in a piece which the peer has and we have not completed. The block
    /// becomes `Requested`; the piece's buffer and block states are
    /// allocated first where they were not. `None`, with nothing changed,
    /// where there is no such block.
    pub fn next_block(&mut self, bitfield: &[bool]) -> (next: Option<(usize, usize, usize)>)
        requires
            old(self).wf(),
        ensures
            final(self).wf(),
            match old(self)@.candidate(bitfield@, 0) {
                Some((i, k)) => {
                    &&& next matches Some((piece_index, offset, piece_len))
                    &&& piece_index == i
                    &&& offset == k * BLOCK_SIZE
                    &&& piece_len == old(self)@.piece_len(i)
                    &&& final(self)@ == old(self)@.after_request(i, k)
                },
                None => next.is_none() && final(self)@ == old(self)@,
            },
    {
        let mut id: usize = 0;
        while id < self.pieces.len()
            invariant
                id <= self.pieces@.len(),
                self.wf(),
                self@ == old(self)@,
                self@.candidate(bitfield@, 0) == self@.candidate(bitfield@, id as int),
            decreases self.pieces@.len() - id,
        {
            if !self.pieces[id].is_complete && id < bitfield.len() && bitfield[id] {
                let curr_len = self.piece_length_of_index(id);
                let ghost before = self@;
                assert(before.piece_wf(id as int));
                assert(before.wanted(bitfield@, id as int));
                let fresh = self.pieces[id].data.is_empty();
                let found = if fresh {
                    proof {
                        lemma_blocks_in_positive(curr_len as nat, BLOCK_SIZE as nat);
                    }
                    Some(0usize)
                } else {
                    find_unrequested(&self.pieces[id].block_status)
                };
                match found {
                    Some(k) => {
                        let piece = &mut self.pieces[id];
                        piece.maybe_init(curr_len, BLOCK_SIZE);
                        piece.block_status[k] = BlockState::Requested;
                        proof {
                            lemma_block_offset_in_piece(
                                curr_len as nat,
                                BLOCK_SIZE as nat,
                                k as nat,
                            );
                            assert(self@.pieces =~= before.after_request(
                                id as int,
                                k as int,
                            ).pieces);
                            assert(self@.hashes =~= before.hashes);
                            assert forall|i: int|
                                0 <= i < self@.pieces.len() implies #[trigger] self@.piece_wf(
                                i,
                            ) by {
                                assert(before.piece_wf(i));
                            }
                        }
                        return Some((id, k * BLOCK_SIZE, curr_len));
                    },
                    None => {},
                }
            }
            id += 1;
        }
        None
    }

    /// Copies `block_data` into the buffer of piece `piece_index` at `begin`
    /// and marks the block received. Nothing is done for a complete piece.
    /// A piece that does not exist, a `begin` off the block boundaries, or a
    /// block that reaches past the end of the buffer is a protocol violation:
    /// `PeerProtocolError`, with nothing changed.
    pub fn store_block(&mut self, piece_index: usize, begin: usize, block_data: &[u8]) -> (stored:
        Result<BlockOutcome, Error>)
        requires
            old(self).wf(),
        ensures
            final(self).wf(),
            match old(self)@.store(piece_index as int, begin as nat, block_data@) {
                Ok((state, outcome)) => {
                    &&& stored matches Ok(o)
                    &&& o@ == outcome
                    &&& final(self)@ == state
                },
                Err(e) => stored matches Err(f) && f == e && final(self)@ == old(self)@,
            },
    {
        if piece_index >= self.pieces.len() {
            return Err(Error::PeerProtocolError);
        }
        if self.pieces[piece_index].is_complete {
            return Ok(BlockOutcome::AlreadyComplete);
        }
        let ghost before = self@;
        assert(before.piece_wf(piece_index as int));
        let block_index = begin / BLOCK_SIZE;
        let buffer_len = self.pieces[piece_index].data.len();
        if begin % BLOCK_SIZE != 0 || block_data.len() > buffer_len || begin > buffer_len
            - block_data.len() || block_index >= self.pieces[piece_index].block_status.len() {
            return Err(Error::PeerProtocolError);
        }
        let piece = &mut self.pieces[piece_index];
        write_at(&mut piece.data, begin, block_data);
        piece.block_status[block_index] = BlockState::Received;
        proof {
            assert(self@.pieces =~= before.after_store(
                piece_index as int,
                begin as nat,
                block_data@,
            ).pieces);
            assert(self@.hashes =~= before.hashes);
            assert forall|i: int| 0 <= i < self@.pieces.len() implies #[trigger] self@.piece_wf(
                i,
            ) by {
                assert(before.piece_wf(i));
            }
        }
        Ok(BlockOutcome::Stored)
    }

    /// True iff piece `piece_index` is not complete and has every block received.
    pub fn is_full(&self, piece_index: usize) -> (full: bool)
        ensures
            full == self@.full(piece_index as int),
    {
        if piece_index >= self.pieces.len() || self.pieces[piece_index].is_complete {
            return false;
        }
        let states = &self.pieces[piece_index].block_status;
        if states.len() == 0 {
            return false;
        }
        let mut k: usize = 0;
        while k < states.len()
            invariant
                k <= states@.len(),
                piece_index < self@.pieces.len(),
                states@ == self@.pieces[piece_index as int].states,
                forall|j: int| 0 <= j < k ==> states@[j] == BlockState::Received,
            decreases states@.len() - k,
        {
            if states[k] != BlockState::Received {
                return false;
            }
            k += 1;
        }
        true
    }

    /// Settles a full piece against `digest`, the digest of its buffer. A
    /// digest equal to the expected hash completes the piece and hands its
    /// content out as `Verified`; any other resets every block of the piece
    /// to not requested and yields `HashMismatch`. A piece that is not full
    /// is left alone (`Stored`).
    pub fn settle_piece(&mut self, piece_index: usize, digest: &[u8; 20]) -> (outcome: BlockOutcome)
        requires
            old(self).wf(),
        ensures
            final(self).wf(),
            (final(self)@, outcome@) == old(self)@.settle(piece_index as int, digest@),
    {
        if !self.is_full(piece_index) {
            return BlockOutcome::Stored;
        }
        let ghost before = self@;
        assert(before.piece_wf(piece_index as int));
        let matches = same_hash(digest, &self.piece_hashes[piece_index]);
        assert(before.hashes[piece_index as int] == self.piece_hashes@[piece_index as int]@);
        let piece = &mut self.pieces[piece_index];
        if matches {
            piece.is_complete = true;
            let mut data: Vec<u8> = Vec::new();
            std::mem::swap(&mut piece.data, &mut data);
            piece.block_status = Vec::new();
            proof {
                assert(self@.pieces =~= before.settle(
                    piece_index as int,
                    digest@,
                ).0.pieces);
                assert(self@.hashes =~= before.hashes);
                assert forall|i: int| 0 <= i < self@.pieces.len() implies #[trigger] self@.piece_wf(
                    i,
                ) by {
                    assert(before.piece_wf(i));
                }
            }
            BlockOutcome::Verified(data)
        } else {
            let count = piece.block_status.len();
            piece.block_status = vec![BlockState::NotRequested; count];
            proof {
                assert(self.pieces@[piece_index as int]@.states =~= Seq::new(
                    count as nat,
                    |k: int| BlockState::NotRequested,
                ));
                assert(self@.pieces =~= before.settle(
                    piece_index as int,
                    digest@,
                ).0.pieces);
                assert(self@.hashes =~= before.hashes);
                assert forall|i: int| 0 <= i < self@.pieces.len() implies #[trigger] self@.piece_wf(
                    i,
                ) by {
                    assert(before.piece_wf(i));
                }
            }
            BlockOutcome::HashMismatch
        }
    }

    /// Takes in a block that a peer delivered. The block is stored as
    /// `store_block` says; a piece that is thereby full is hashed and settled
    /// as `settle_piece` says. A hash mismatch is no error: the piece is
    /// reset and the outcome says so.
    pub fn add_block(&mut self, piece_index: usize, begin: usize, block_data: &[u8]) -> (added:
        Result<BlockOutcome, Error>)
        requires
            old(self).wf(),
        ensures
            final(self).wf(),
            match old(self)@.add_block(piece_index as int, begin as nat, block_data@) {
                Ok((state, outcome)) => {
                    &&& added matches Ok(o)
                    &&& o@ == outcome
                    &&& final(self)@ == state
                },
                Err(e) => added matches Err(f) && f == e && final(self)@ == old(self)@,
            },
    {
        match self.store_block(piece_index, begin, block_data) {
            Ok(BlockOutcome::Stored) => {
                let digest = digest_bytes(self.pieces[piece_index].data.as_slice());
                Ok(self.settle_piece(piece_index, &digest))
            },
            other => other,
        }
    }
}

/// Index of the first block that is not requested.
fn find_unrequested(states: &Vec<BlockState>) -> (found: Option<usize>)
    ensures
        match first_unrequested(states@, 0) {
            Some(k) => found matches Some(at) && at == k && 0 <= k < states@.len(),
            None => found.is_none(),
        },
{
    let mut k: usize = 0;
    while k < states.len()
        invariant
            k <= states@.len(),
            first_unrequested(states@, 0) == first_unrequested(states@, k as int),
        decreases states@.len() - k,
    {
        if states[k] == BlockState::NotRequested {
            return Some(k);
        }
        k += 1;
    }
    None
}

/// Writes `src` over `buffer` from `begin` on.
fn write_at(buffer: &mut Vec<u8>, begin: usize, src: &[u8])
    requires
        begin + src@.len() <= old(buffer)@.len(),
    ensures
        final(buffer)@ == overwrite(old(buffer)@, begin as int, src@),
{
    let size = buffer.len();
    let mut j: usize = 0;
    while j < src.len()
        invariant
            j <= src@.len(),
            begin + src@.len() <= size,
            buffer@.len() == size == old(buffer)@.len(),
            forall|m: int| 0 <= m < begin ==> buffer@[m] == old(buffer)@[m],
            forall|m: int| begin <= m < begin + j ==> buffer@[m] == src@[m - begin],
            forall|m: int| begin + j <= m < buffer@.len() ==> buffer@[m] == old(buffer)@[m],
        decreases src@.len() - j,
    {
        buffer[begin + j] = src[j];
        j += 1;
    }
    assert(buffer@ =~= overwrite(old(buffer)@, begin as int, src@));
}

/// True iff the two hashes hold the same bytes.
fn same_hash(a: &[u8; 20], b: &[u8; 20]) -> (same: bool)
    ensures
        same == (a@ == b@),
{
    let mut j: usize = 0;
    while j < 20
        invariant
            j <= 20,
            forall|m: int| 0 <= m < j ==> a@[m] == b@[m],
        decreases 20 - j,
    {
        if a[j] != b[j] {
            return false;
        }
        j += 1;
    }
    assert(a@ =~= b@);
    true
}

/// A non-empty piece has at least one block.
pub proof fn lemma_blocks_in_positive(len: nat, block_size: nat)
    requires
        len > 0,
        block_size > 0,
    ensures
        blocks_in(len, block_size) > 0,
{
    lemma_piece_count_bounds(len, block_size);
}

/// Every block of a piece starts inside the piece.
pub proof fn lemma_block_offset_in_piece(len: nat, block_size: nat, k: nat)
    requires
        block_size > 0,
        k < blocks_in(len, block_size),
    ensures
        k * block_size < len,
{
    lemma_piece_count_bounds(len, block_size);
    let n = blocks_in(len, block_size) as int;
    let b = block_size as int;
    assert(k * b <= (n - 1) * b) by (nonlinear_arith)
        requires
            0 <= k <= n - 1,
            b > 0,
    ;
}

/// The first `n` pieces hold no more bytes than the part of the content
/// that they cover.
pub proof fn lemma_left_in_bound(s: ManagerView, n: nat)
    requires
        s.piece_length > 0,
        n <= piece_count(s.total_length, s.piece_length),
    ensures
        s.left_in(n) <= n * s.piece_length,
        s.left_in(n) <= s.total_length,
    decreases n,
{
    if n > 0 {
        let m = (n - 1) as nat;
        lemma_left_in_bound(s, m);
        lemma_piece_size_bounds(s.total_length, s.piece_length, m);
        lemma_piece_count_bounds(s.total_length, s.piece_length);
        let p = s.piece_length as int;
        assert(n * p == m * p + p) by (nonlinear_arith)
            requires
                n == m + 1,
        ;
        assert(m * p + s.piece_len(m as int) <= s.total_length);
    }
}

} // verus!
