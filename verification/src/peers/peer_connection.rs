//! The session with one remote peer: the handshake, the messages that
//! come in, and the requests that go out.

use crate::endian::{be_u32, read_be_u32, u32_be_bytes};
use crate::error::Error;
use crate::peers::peer::{Peer, PeerAddr};
use crate::pieces::laws::{lemma_candidate_is_first, lemma_request_takes_one};
use crate::pieces::piece_manager::{
    lemma_block_offset_in_piece, BlockOutcome, BlockState, ManagerView, OutcomeView, PieceManager,
    BLOCK_SIZE,
};
use crate::torrent::lemma_piece_size_bounds;
use vstd::prelude::*;

verus! {

/// Length of a handshake in bytes.
pub const HANDSHAKE_LEN: usize = 68;

/// Most requests that are counted as in flight.
pub const MAX_OUTGOING: u8 = 255;

/// The identifier under which this client introduces itself.
pub const PEER_ID: [u8; 20] = [
    45, 84, 82, 49, 48, 49, 50, 45, 49, 50, 51, 52, 53, 54, 55, 56, 57, 48, 49, 50,
];

/// The name of the protocol as the handshake spells it.
pub const PROTOCOL: [u8; 19] = [
    66, 105, 116, 84, 111, 114, 114, 101, 110, 116, 32, 112, 114, 111, 116, 111, 99, 111, 108,
];

/// A request for one block.
#[derive(Clone, Copy, Debug, PartialEq, Eq, Structural)]
pub struct Request {
    pub piece_index: usize,
    pub begin: usize,
    pub length: usize,
}

/// What the session asks its owner to do after a message.
#[derive(Debug)]
pub enum Action {
    /// Send an `interested` message.
    SendInterested,
    /// Send a `request` message.
    SendRequest(Request),
    /// Hand the verified content of a piece to the writer.
    WritePiece(usize, Vec<u8>),
}

/// An `Action` as the contracts see it.
pub enum ActionView {
    SendInterested,
    SendRequest(Request),
    WritePiece(int, Seq<u8>),
}

impl View for Action {
    type V = ActionView;

    open spec fn view(&self) -> ActionView {
        match self {
            Action::SendInterested => ActionView::SendInterested,
            Action::SendRequest(request) => ActionView::SendRequest(*request),
            Action::WritePiece(index, data) => ActionView::WritePiece(*index as int, data@),
        }
    }
}

/// The views of a list of actions.
pub open spec fn action_views(actions: Seq<Action>) -> Seq<ActionView> {
    Seq::new(actions.len(), |i: int| actions[i]@)
}

/// A session as the contracts see it.
pub struct ConnView {
    pub addr: PeerAddr,
    pub bitfield: Seq<bool>,
    pub info_hash: Seq<u8>,
    pub peer_id: Seq<u8>,
    pub remote_id: Option<Seq<u8>>,
    pub am_choked: bool,
    pub peer_choked: bool,
    pub am_interested: bool,
    pub peer_interested: bool,
    pub in_flight: nat,
}

/// What a message does before any request is sent.
pub struct Reaction {
    pub conn: ConnView,
    pub pm: ManagerView,
    pub actions: Seq<ActionView>,
    /// Whether the request pump runs after the message.
    pub pump: bool,
}

/// The bytes of a handshake: the length and name of the protocol, eight
/// reserved zero bytes, the info hash and the sender's peer id.
pub open spec fn handshake_of(info_hash: Seq<u8>, peer_id: Seq<u8>) -> Seq<u8> {
    seq![19u8] + PROTOCOL@ + Seq::new(8, |i: int| 0u8) + info_hash + peer_id
}

/// Weight of bit `k` of a byte, counted from the most significant.
pub open spec fn bit_weight(k: int) -> int {
    if k == 0 {
        128
    } else if k == 1 {
        64
    } else if k == 2 {
        32
    } else if k == 3 {
        16
    } else if k == 4 {
        8
    } else if k == 5 {
        4
    } else if k == 6 {
        2
    } else {
        1
    }
}

/// Bit `i` of a bitfield payload, most significant bit of each byte first.
pub open spec fn payload_bit(payload: Seq<u8>, i: int) -> bool {
    (payload[i / 8] as int / bit_weight(i % 8)) % 2 == 1
}

/// Number of bytes that hold `n` bits.
pub open spec fn bitfield_bytes(n: nat) -> nat {
    (n + 7) / 8
}

/// `request` asks for block `k` of piece `i`: for a whole block from the
/// block's offset on, or for what is left of the piece where that is less.
pub open spec fn asks_for(request: Request, pm: ManagerView, i: int, k: int) -> bool {
    let begin = k * BLOCK_SIZE as int;
    let left = pm.piece_len(i) - begin;
    &&& request.piece_index == i
    &&& request.begin == begin
    &&& request.length == if left < BLOCK_SIZE as int {
        left
    } else {
        BLOCK_SIZE as int
    }
}

/// The piece manager after `n` calls of `next_block` with the same bitfield.
pub open spec fn after_requests(pm: ManagerView, bits: Seq<bool>, n: nat) -> ManagerView
    decreases n,
{
    if n == 0 {
        pm
    } else {
        let prev = after_requests(pm, bits, (n - 1) as nat);
        match prev.candidate(bits, 0) {
            Some((i, k)) => prev.after_request(i, k),
            None => prev,
        }
    }
}

/// `requests` are what the pump sends for a peer with bitfield `bits`: one
/// for each block that `next_block` hands out, in order, until it hands
/// out none; `after` is the piece manager then.
pub open spec fn pumped(
    before: ManagerView,
    bits: Seq<bool>,
    requests: Seq<Request>,
    after: ManagerView,
) -> bool {
    &&& after == after_requests(before, bits, requests.len())
    &&& after.candidate(bits, 0).is_none()
    &&& forall|j: int|
        0 <= j < requests.len() ==> {
            let at = #[trigger] after_requests(before, bits, j as nat);
            at.candidate(bits, 0) matches Some((i, k)) && asks_for(requests[j], at, i, k)
        }
}

/// `n` more requests in flight, counted up to the most that is counted.
pub open spec fn more_in_flight(in_flight: nat, n: nat) -> nat {
    if in_flight + n > MAX_OUTGOING as nat {
        MAX_OUTGOING as nat
    } else {
        in_flight + n
    }
}

impl ConnView {
    /// A `have` message: the peer has one piece more. A payload under four
    /// bytes, or a piece that does not exist, breaks the protocol.
    pub open spec fn react_have(self, pm: ManagerView, msg: Seq<u8>) -> Result<Reaction, Error> {
        if msg.len() < 5 {
            Err(Error::PeerProtocolError)
        } else {
            let index = be_u32(msg.subrange(1, 5));
            if index >= self.bitfield.len() {
                Err(Error::PeerProtocolError)
            } else {
                Ok(
                    Reaction {
                        conn: ConnView { bitfield: self.bitfield.update(index, true), ..self },
                        pm,
                        actions: Seq::empty(),
                        pump: true,
                    },
                )
            }
        }
    }

    /// A `bitfield` message: the pieces that the peer has. A payload too
    /// short to hold a bit for each piece breaks the protocol; bits past
    /// the last piece are not looked at. We become interested where we were
    /// not and the peer has a piece that we have not completed.
    pub open spec fn react_bitfield(self, pm: ManagerView, msg: Seq<u8>) -> Result<
        Reaction,
        Error,
    > {
        if msg.len() - 1 < bitfield_bytes(self.bitfield.len()) {
            Err(Error::PeerProtocolError)
        } else {
            let payload = msg.subrange(1, msg.len() as int);
            let bits = Seq::new(self.bitfield.len(), |i: int| payload_bit(payload, i));
            let newly = !self.am_interested && exists|i: int| pm.wanted(bits, i);
            Ok(
                Reaction {
                    conn: ConnView {
                        bitfield: bits,
                        am_interested: self.am_interested || newly,
                        ..self
                    },
                    pm,
                    actions: if newly {
                        seq![ActionView::SendInterested]
                    } else {
                        Seq::empty()
                    },
                    pump: true,
                },
            )
        }
    }

    /// A `piece` message: a block arrives and goes to the piece manager. A
    /// payload under eight bytes breaks the protocol, as does a block that
    /// the piece manager refuses. A piece that the block completes and that
    /// matches its hash is handed on to be written.
    pub open spec fn react_piece(self, pm: ManagerView, msg: Seq<u8>) -> Result<Reaction, Error> {
        if msg.len() < 9 {
            Err(Error::PeerProtocolError)
        } else {
            let index = be_u32(msg.subrange(1, 5));
            let begin = be_u32(msg.subrange(5, 9));
            let data = msg.subrange(9, msg.len() as int);
            match pm.add_block(index, begin as nat, data) {
                Err(e) => Err(e),
                Ok((state, outcome)) => Ok(
                    Reaction {
                        conn: ConnView {
                            in_flight: if self.in_flight > 0 {
                                (self.in_flight - 1) as nat
                            } else {
                                0
                            },
                            ..self
                        },
                        pm: state,
                        actions: match outcome {
                            OutcomeView::Verified(content) => seq![
                                ActionView::WritePiece(index, content),
                            ],
                            _ => Seq::empty(),
                        },
                        pump: true,
                    },
                ),
            }
        }
    }

    /// What a message does to the session and the piece manager, by its
    /// first byte, the message id. An empty message and the ids that are
    /// not acted on change nothing.
    pub open spec fn react(self, pm: ManagerView, msg: Seq<u8>) -> Result<Reaction, Error> {
        let unchanged = Reaction { conn: self, pm, actions: Seq::empty(), pump: false };
        if msg.len() == 0 {
            Ok(unchanged)
        } else if msg[0] == 0 {
            Ok(Reaction { conn: ConnView { am_choked: true, ..self }, ..unchanged })
        } else if msg[0] == 1 {
            Ok(
                Reaction {
                    conn: ConnView { am_choked: false, ..self },
                    pump: self.am_interested,
                    ..unchanged
                },
            )
        } else if msg[0] == 2 {
            Ok(Reaction { conn: ConnView { peer_interested: true, ..self }, ..unchanged })
        } else if msg[0] == 3 {
            Ok(Reaction { conn: ConnView { peer_interested: false, ..self }, ..unchanged })
        } else if msg[0] == 4 {
            self.react_have(pm, msg)
        } else if msg[0] == 5 {
            self.react_bitfield(pm, msg)
        } else if msg[0] == 7 {
            self.react_piece(pm, msg)
        } else {
            Ok(unchanged)
        }
    }
}

/// `handled`, `conn` and `pm` are what a reaction amounts to on a session
/// that was `conn_before` with a piece manager that was `pm_before`: an
/// error leaves both as they were; else the session and the piece manager
/// are those of the reaction, and `handled` holds its actions and whether
/// the pump runs.
pub open spec fn reacted(
    reaction: Result<Reaction, Error>,
    conn_before: ConnView,
    pm_before: ManagerView,
    handled: Result<(Vec<Action>, bool), Error>,
    conn: ConnView,
    pm: ManagerView,
) -> bool {
    match reaction {
        Err(e) => {
            &&& handled matches Err(f)
            &&& f == e
            &&& conn == conn_before
            &&& pm == pm_before
        },
        Ok(reaction) => {
            &&& handled matches Ok((actions, pump))
            &&& action_views(actions@) == reaction.actions
            &&& pump == reaction.pump
            &&& conn == reaction.conn
            &&& pm == reaction.pm
        },
    }
}

/// The request that an action sends, for an action that sends one.
pub open spec fn request_of(action: ActionView) -> Request {
    match action {
        ActionView::SendRequest(request) => request,
        _ => Request { piece_index: 0, begin: 0, length: 0 },
    }
}

/// `actions`, `conn` and `pm` are where a message leads whose reaction is
/// `reaction`: the actions of the reaction come first; where the pump runs
/// and we are not choked, the requests of the pump follow, and they are
/// counted as in flight.
pub open spec fn settled(
    reaction: Reaction,
    actions: Seq<ActionView>,
    conn: ConnView,
    pm: ManagerView,
) -> bool {
    if reaction.pump && !reaction.conn.am_choked {
        let first = reaction.actions.len() as int;
        let requests = Seq::new(
            (actions.len() - first) as nat,
            |j: int| request_of(actions[first + j]),
        );
        &&& actions.len() >= first
        &&& actions.subrange(0, first) == reaction.actions
        &&& forall|j: int| first <= j < actions.len() ==> #[trigger] actions[j] is SendRequest
        &&& pumped(reaction.pm, reaction.conn.bitfield, requests, pm)
        &&& conn == (ConnView {
            in_flight: more_in_flight(reaction.conn.in_flight, requests.len()),
            ..reaction.conn
        })
    } else {
        &&& actions == reaction.actions
        &&& conn == reaction.conn
        &&& pm == reaction.pm
    }
}

/// The session with one remote peer.
#[derive(Debug)]
pub struct PeerConnection {
    peer: Peer,
    bitfield: Vec<bool>,
    info_hash: [u8; 20],
    peer_id: [u8; 20],
    remote_id: Option<[u8; 20]>,
    am_choked: bool,
    peer_choked: bool,
    am_interested: bool,
    peer_interested: bool,
    in_flight: u8,
}

impl View for PeerConnection {
    type V = ConnView;

    closed spec fn view(&self) -> ConnView {
        ConnView {
            addr: self.peer.addr,
            bitfield: self.bitfield@,
            info_hash: self.info_hash@,
            peer_id: self.peer_id@,
            remote_id: match self.remote_id {
                Some(id) => Some(id@),
                None => None,
            },
            am_choked: self.am_choked,
            peer_choked: self.peer_choked,
            am_interested: self.am_interested,
            peer_interested: self.peer_interested,
            in_flight: self.in_flight as nat,
        }
    }
}

/// The length that a four-byte prefix announces: `None` for 0, a
/// keep-alive, else the number of bytes of the message that follows.
pub fn message_length(prefix: &[u8; 4]) -> (length: Option<u32>)
    ensures
        length == if be_u32(prefix@) == 0 {
            None
        } else {
            Some(be_u32(prefix@) as u32)
        },
{
    assert(prefix@.subrange(0, 4) =~= prefix@);
    let length = read_be_u32(prefix.as_slice(), 0);
    if length == 0 {
        None
    } else {
        Some(length)
    }
}

/// The bytes of an `interested` message, length prefix included.
pub open spec fn interested_bytes() -> Seq<u8> {
    seq![0u8, 0u8, 0u8, 1u8, 2u8]
}

/// The bytes of a `request` message, length prefix included: each of the
/// three numbers as the four big-endian bytes of its low 32 bits.
pub open spec fn request_bytes(request: Request) -> Seq<u8> {
    seq![0u8, 0u8, 0u8, 13u8, 6u8] + u32_be_bytes(request.piece_index as int) + u32_be_bytes(
        request.begin as int,
    ) + u32_be_bytes(request.length as int)
}

/// The `interested` message.
pub fn encode_interested() -> (bytes: Vec<u8>)
    ensures
        bytes@ == interested_bytes(),
{
    let mut bytes: Vec<u8> = Vec::new();
    bytes.push(0);
    bytes.push(0);
    bytes.push(0);
    bytes.push(1);
    bytes.push(2);
    assert(bytes@ =~= interested_bytes());
    bytes
}

/// Appends the four big-endian bytes of the low 32 bits of `value`.
fn push_low32(out: &mut Vec<u8>, value: usize)
    ensures
        final(out)@ == old(out)@ + u32_be_bytes(value as int),
{
    out.push(((value / 16777216) % 256) as u8);
    out.push(((value / 65536) % 256) as u8);
    out.push(((value / 256) % 256) as u8);
    out.push((value % 256) as u8);
    assert(out@ =~= old(out)@ + u32_be_bytes(value as int));
}

/// The `request` message for `request`.
pub fn encode_request(request: &Request) -> (bytes: Vec<u8>)
    ensures
        bytes@ == request_bytes(*request),
        bytes@.len() == 17,
{
    let mut bytes: Vec<u8> = Vec::new();
    bytes.push(0);
    bytes.push(0);
    bytes.push(0);
    bytes.push(13);
    bytes.push(6);
    assert(bytes@ =~= seq![0u8, 0u8, 0u8, 13u8, 6u8]);
    push_low32(&mut bytes, request.piece_index);
    push_low32(&mut bytes, request.begin);
    push_low32(&mut bytes, request.length);
    bytes
}

/// The weight of bit `k` of a byte, counted from the most significant.
fn weight_of(k: usize) -> (weight: u8)
    requires
        k < 8,
    ensures
        weight == bit_weight(k as int),
{
    if k == 0 {
        128
    } else if k == 1 {
        64
    } else if k == 2 {
        32
    } else if k == 3 {
        16
    } else if k == 4 {
        8
    } else if k == 5 {
        4
    } else if k == 6 {
        2
    } else {
        1
    }
}

impl PeerConnection {
    /// A session with the peer at `peer_addr` in the swarm `info_hash`, for
    /// the content that `pm` assembles. Both sides start choked and not
    /// interested, the peer is taken to have no piece, and nothing is in
    /// flight.
    pub fn new(peer_addr: PeerAddr, info_hash: [u8; 20], pm: &PieceManager) -> (conn:
        PeerConnection)
        ensures
            conn@ == (ConnView {
                addr: peer_addr,
                bitfield: Seq::new(pm@.pieces.len(), |i: int| false),
                info_hash: info_hash@,
                peer_id: PEER_ID@,
                remote_id: None,
                am_choked: true,
                peer_choked: true,
                am_interested: false,
                peer_interested: false,
                in_flight: 0,
            }),
    {
        let num_pieces = pm.num_pieces();
        let bitfield = vec![false; num_pieces];
        assert(bitfield@ =~= Seq::new(pm@.pieces.len(), |i: int| false));
        PeerConnection {
            peer: Peer::new(peer_addr),
            bitfield,
            info_hash,
            peer_id: PEER_ID,
            remote_id: None,
            am_choked: true,
            peer_choked: true,
            am_interested: false,
            peer_interested: false,
            in_flight: 0,
        }
    }

    /// The handshake that opens the session.
    pub fn handshake(&self) -> (bytes: Vec<u8>)
        ensures
            bytes@ == handshake_of(self@.info_hash, self@.peer_id),
            bytes@.len() == HANDSHAKE_LEN,
    {
        let mut bytes: Vec<u8> = Vec::new();
        bytes.push(19);
        let mut i: usize = 0;
        while i < 19
            invariant
                i <= 19,
                bytes@ == seq![19u8] + PROTOCOL@.subrange(0, i as int),
            decreases 19 - i,
        {
            bytes.push(PROTOCOL[i]);
            assert(bytes@ =~= seq![19u8] + PROTOCOL@.subrange(0, i + 1));
            i += 1;
        }
        assert(PROTOCOL@.subrange(0, 19) =~= PROTOCOL@);
        let mut i: usize = 0;
        while i < 8
            invariant
                i <= 8,
                bytes@ == seq![19u8] + PROTOCOL@ + Seq::new(i as nat, |j: int| 0u8),
            decreases 8 - i,
        {
            bytes.push(0);
            assert(bytes@ =~= seq![19u8] + PROTOCOL@ + Seq::new((i + 1) as nat, |j: int| 0u8));
            i += 1;
        }
        let mut i: usize = 0;
        while i < 20
            invariant
                i <= 20,
                bytes@ == seq![19u8] + PROTOCOL@ + Seq::new(8, |j: int| 0u8)
                    + self.info_hash@.subrange(0, i as int),
            decreases 20 - i,
        {
            bytes.push(self.info_hash[i]);
            assert(bytes@ =~= seq![19u8] + PROTOCOL@ + Seq::new(8, |j: int| 0u8)
                + self.info_hash@.subrange(0, i + 1));
            i += 1;
        }
        assert(self.info_hash@.subrange(0, 20) =~= self.info_hash@);
        let mut i: usize = 0;
        while i < 20
            invariant
                i <= 20,
                bytes@ == seq![19u8] + PROTOCOL@ + Seq::new(8, |j: int| 0u8) + self.info_hash@
                    + self.peer_id@.subrange(0, i as int),
            decreases 20 - i,
        {
            bytes.push(self.peer_id[i]);
            assert(bytes@ =~= seq![19u8] + PROTOCOL@ + Seq::new(8, |j: int| 0u8)
                + self.info_hash@ + self.peer_id@.subrange(0, i + 1));
            i += 1;
        }
        assert(self.peer_id@.subrange(0, 20) =~= self.peer_id@);
        bytes
    }

    /// Takes in the handshake of the remote. It is accepted exactly when
    /// its info hash, bytes 28 to 47, is ours; its peer id, bytes 48 to 67,
    /// is then recorded. Else `HandshakeMismatch`, with nothing changed.
    pub fn receive_handshake(&mut self, reply: &[u8; 68]) -> (accepted: Result<(), Error>)
        ensures
            accepted.is_ok() <==> reply@.subrange(28, 48) == old(self)@.info_hash,
            accepted matches Err(e) ==> e == Error::HandshakeMismatch && final(self)@ == old(
                self,
            )@,
            accepted.is_ok() ==> final(self)@ == (ConnView {
                remote_id: Some(reply@.subrange(48, 68)),
                ..old(self)@
            }),
    {
        let mut i: usize = 0;
        while i < 20
            invariant
                i <= 20,
                forall|j: int| 0 <= j < i ==> reply@[28 + j] == self.info_hash@[j],
            decreases 20 - i,
        {
            if reply[28 + i] != self.info_hash[i] {
                assert(reply@.subrange(28, 48)[i as int] != self.info_hash@[i as int]);
                return Err(Error::HandshakeMismatch);
            }
            i += 1;
        }
        assert(reply@.subrange(28, 48) =~= self.info_hash@);
        let mut id = [0u8; 20];
        let mut i: usize = 0;
        while i < 20
            invariant
                i <= 20,
                forall|j: int| 0 <= j < i ==> id@[j] == reply@[48 + j],
            decreases 20 - i,
        {
            id[i] = reply[48 + i];
            i += 1;
        }
        assert(id@ =~= reply@.subrange(48, 68));
        self.remote_id = Some(id);
        Ok(())
    }

    /// Asks the piece manager for blocks and turns each into a request,
    /// until we are choked or the piece manager has none for this peer.
    pub fn maybe_request_next(&mut self, pm: &mut PieceManager) -> (requests: Vec<Request>)
        requires
            old(pm).wf(),
        ensures
            final(pm).wf(),
            old(self)@.am_choked ==> {
                &&& requests@.len() == 0
                &&& final(pm)@ == old(pm)@
                &&& final(self)@ == old(self)@
            },
            !old(self)@.am_choked ==> {
                &&& pumped(old(pm)@, old(self)@.bitfield, requests@, final(pm)@)
                &&& final(self)@ == (ConnView {
                    in_flight: more_in_flight(old(self)@.in_flight, requests@.len()),
                    ..old(self)@
                })
            },
    {
        let mut requests: Vec<Request> = Vec::new();
        if self.am_choked {
            return requests;
        }
        let ghost start = pm@;
        let ghost bits = self.bitfield@;
        let mut more = true;
        while more
            invariant
                pm.wf(),
                bits == self.bitfield@,
                pm@ == after_requests(start, bits, requests@.len()),
                !more ==> pm@.candidate(bits, 0).is_none(),
                self@ == (ConnView {
                    in_flight: more_in_flight(old(self)@.in_flight, requests@.len()),
                    ..old(self)@
                }),
                forall|j: int|
                    0 <= j < requests@.len() ==> {
                        let at = #[trigger] after_requests(start, bits, j as nat);
                        at.candidate(bits, 0) matches Some((i, k)) && asks_for(
                            requests@[j],
                            at,
                            i,
                            k,
                        )
                    },
            decreases
                    pm@.open_blocks(pm@.pieces.len()) + if more {
                        1nat
                    } else {
                        0nat
                    },
        {
            let ghost at = pm@;
            proof {
                lemma_candidate_is_first(at, bits, 0);
                if at.candidate(bits, 0).is_some() {
                    lemma_request_takes_one(at, bits);
                    let (i, k) = at.candidate(bits, 0).unwrap();
                    assert(at.piece_wf(i));
                    lemma_piece_size_bounds(at.total_length, at.piece_length, i as nat);
                    lemma_block_offset_in_piece(at.piece_len(i), BLOCK_SIZE as nat, k as nat);
                }
            }
            match pm.next_block(self.bitfield.as_slice()) {
                None => {
                    more = false;
                },
                Some((piece_index, begin, piece_len)) => {
                    let left = piece_len - begin;
                    let length = if left < BLOCK_SIZE {
                        left
                    } else {
                        BLOCK_SIZE
                    };
                    let ghost sent = requests@;
                    requests.push(Request { piece_index, begin, length });
                    if self.in_flight < MAX_OUTGOING {
                        self.in_flight = self.in_flight + 1;
                    }
                    proof {
                        assert(pm@ == after_requests(start, bits, requests@.len()));
                        assert forall|j: int| 0 <= j < requests@.len() implies {
                            let at = #[trigger] after_requests(start, bits, j as nat);
                            at.candidate(bits, 0) matches Some((i, k)) && asks_for(
                                requests@[j],
                                at,
                                i,
                                k,
                            )
                        } by {
                            if j < sent.len() {
                                assert(requests@[j] == sent[j]);
                            }
                        }
                    }
                },
            }
        }
        requests
    }

    /// Takes in a `have` message.
    fn handle_have(&mut self, msg: &[u8], pm: &PieceManager) -> (handled: Result<
        (Vec<Action>, bool),
        Error,
    >)
        requires
            msg@.len() > 0,
        ensures
            reacted(old(self)@.react_have(pm@, msg@), old(self)@, pm@, handled, final(self)@, pm@),
    {
        if msg.len() < 5 {
            return Err(Error::PeerProtocolError);
        }
        let index = read_be_u32(msg, 1) as usize;
        if index >= self.bitfield.len() {
            return Err(Error::PeerProtocolError);
        }
        self.bitfield[index] = true;
        let actions: Vec<Action> = Vec::new();
        assert(action_views(actions@) =~= Seq::<ActionView>::empty());
        Ok((actions, true))
    }

    /// Takes in a `bitfield` message.
    fn handle_bitfield(&mut self, msg: &[u8], pm: &PieceManager) -> (handled: Result<
        (Vec<Action>, bool),
        Error,
    >)
        requires
            msg@.len() > 0,
        ensures
            reacted(
                old(self)@.react_bitfield(pm@, msg@),
                old(self)@,
                pm@,
                handled,
                final(self)@,
                pm@,
            ),
    {
        let count = self.bitfield.len();
        let needed = count / 8 + if count % 8 == 0 {
            0
        } else {
            1
        };
        assert(needed == bitfield_bytes(count as nat));
        if msg.len() - 1 < needed {
            return Err(Error::PeerProtocolError);
        }
        let ghost payload = msg@.subrange(1, msg@.len() as int);
        let mut i: usize = 0;
        while i < count
            invariant
                i <= count,
                count == self.bitfield@.len(),
                count == old(self)@.bitfield.len(),
                msg@.len() - 1 >= bitfield_bytes(count as nat),
                payload == msg@.subrange(1, msg@.len() as int),
                forall|j: int| 0 <= j < i ==> self.bitfield@[j] == payload_bit(payload, j),
                self@ == (ConnView { bitfield: self.bitfield@, ..old(self)@ }),
            decreases count - i,
        {
            let byte = msg[1 + i / 8];
            let weight = weight_of(i % 8);
            self.bitfield[i] = (byte / weight) % 2 == 1;
            i += 1;
        }
        assert(self.bitfield@ =~= Seq::new(count as nat, |j: int| payload_bit(payload, j)));
        let newly = !self.am_interested && pm.peer_has_piece_we_dont(self.bitfield.as_slice());
        let mut actions: Vec<Action> = Vec::new();
        if newly {
            self.am_interested = true;
            actions.push(Action::SendInterested);
            assert(action_views(actions@) =~= seq![ActionView::SendInterested]);
        } else {
            assert(action_views(actions@) =~= Seq::<ActionView>::empty());
        }
        Ok((actions, true))
    }

    /// Takes in a `piece` message.
    fn handle_piece(&mut self, msg: &[u8], pm: &mut PieceManager) -> (handled: Result<
        (Vec<Action>, bool),
        Error,
    >)
        requires
            msg@.len() > 0,
            old(pm).wf(),
        ensures
            final(pm).wf(),
            reacted(
                old(self)@.react_piece(old(pm)@, msg@),
                old(self)@,
                old(pm)@,
                handled,
                final(self)@,
                final(pm)@,
            ),
    {
        if msg.len() < 9 {
            return Err(Error::PeerProtocolError);
        }
        let piece_index = read_be_u32(msg, 1) as usize;
        let begin = read_be_u32(msg, 5) as usize;
        let data = slice_from(msg, 9);
        match pm.add_block(piece_index, begin, data) {
            Err(e) => Err(e),
            Ok(outcome) => {
                if self.in_flight > 0 {
                    self.in_flight = self.in_flight - 1;
                }
                let mut actions: Vec<Action> = Vec::new();
                match outcome {
                    BlockOutcome::Verified(content) => {
                        actions.push(Action::WritePiece(piece_index, content));
                        assert(action_views(actions@) =~= seq![
                            ActionView::WritePiece(piece_index as int, content@),
                        ]);
                    },
                    _ => {
                        assert(action_views(actions@) =~= Seq::<ActionView>::empty());
                    },
                }
                Ok((actions, true))
            },
        }
    }

    /// Takes in a message that only sets a flag, or none.
    fn handle_flag(&mut self, id: u8) -> (handled: (Vec<Action>, bool))
        ensures
            action_views(handled.0@) == Seq::<ActionView>::empty(),
            handled.1 == (id == 1 && old(self)@.am_interested),
            final(self)@ == if id == 0 {
                ConnView { am_choked: true, ..old(self)@ }
            } else if id == 1 {
                ConnView { am_choked: false, ..old(self)@ }
            } else if id == 2 {
                ConnView { peer_interested: true, ..old(self)@ }
            } else if id == 3 {
                ConnView { peer_interested: false, ..old(self)@ }
            } else {
                old(self)@
            },
    {
        let actions: Vec<Action> = Vec::new();
        assert(action_views(actions@) =~= Seq::<ActionView>::empty());
        let mut pump = false;
        if id == 0 {
            self.am_choked = true;
        } else if id == 1 {
            self.am_choked = false;
            pump = self.am_interested;
        } else if id == 2 {
            self.peer_interested = true;
        } else if id == 3 {
            self.peer_interested = false;
        }
        (actions, pump)
    }

    /// What the message does before any request is sent; says what is to
    /// be sent and written for it, and whether the request pump runs.
    fn dispatch(&mut self, msg: &[u8], pm: &mut PieceManager) -> (handled: Result<
        (Vec<Action>, bool),
        Error,
    >)
        requires
            old(pm).wf(),
        ensures
            final(pm).wf(),
            reacted(
                old(self)@.react(old(pm)@, msg@),
                old(self)@,
                old(pm)@,
                handled,
                final(self)@,
                final(pm)@,
            ),
    {
        if msg.len() == 0 {
            let actions: Vec<Action> = Vec::new();
            assert(action_views(actions@) =~= Seq::<ActionView>::empty());
            return Ok((actions, false));
        }
        let id = msg[0];
        if id == 4 {
            self.handle_have(msg, pm)
        } else if id == 5 {
            self.handle_bitfield(msg, pm)
        } else if id == 7 {
            self.handle_piece(msg, pm)
        } else {
            Ok(self.handle_flag(id))
        }
    }

    /// Takes in one message, its length prefix taken off: updates the
    /// session and the piece manager as the message's id asks, and says
    /// what is to be sent and written. An error ends the session and
    /// leaves both as they were.
    pub fn handle_message(&mut self, msg: &[u8], pm: &mut PieceManager) -> (handled: Result<
        Vec<Action>,
        Error,
    >)
        requires
            old(pm).wf(),
        ensures
            final(pm).wf(),
            match old(self)@.react(old(pm)@, msg@) {
                Err(e) => {
                    &&& handled matches Err(f)
                    &&& f == e
                    &&& final(self)@ == old(self)@
                    &&& final(pm)@ == old(pm)@
                },
                Ok(reaction) => {
                    &&& handled matches Ok(actions)
                    &&& settled(reaction, action_views(actions@), final(self)@, final(pm)@)
                },
            },
    {
        let (mut actions, pump) = match self.dispatch(msg, pm) {
            Err(e) => {
                return Err(e);
            },
            Ok(reacted) => reacted,
        };
        if pump {
            let ghost first = action_views(actions@);
            let ghost choked = self@.am_choked;
            let requests = self.maybe_request_next(pm);
            append_requests(&mut actions, &requests);
            proof {
                let views = action_views(actions@);
                assert(views.subrange(0, first.len() as int) =~= first);
                if !choked {
                    let sent = Seq::new(
                        (views.len() - first.len()) as nat,
                        |m: int| request_of(views[first.len() + m]),
                    );
                    assert(sent =~= requests@);
                } else {
                    assert(views =~= first);
                }
            }
        }
        Ok(actions)
    }

    /// Whether the remote has choked us.
    pub fn am_choked(&self) -> (flag: bool)
        ensures
            flag == self@.am_choked,
    {
        self.am_choked
    }

    /// Whether we have choked the remote.
    pub fn peer_choked(&self) -> (flag: bool)
        ensures
            flag == self@.peer_choked,
    {
        self.peer_choked
    }

    /// Whether we are interested in what the remote has.
    pub fn am_interested(&self) -> (flag: bool)
        ensures
            flag == self@.am_interested,
    {
        self.am_interested
    }

    /// Whether the remote is interested in what we have.
    pub fn peer_interested(&self) -> (flag: bool)
        ensures
            flag == self@.peer_interested,
    {
        self.peer_interested
    }

    /// Number of requests counted as in flight.
    pub fn in_flight(&self) -> (n: u8)
        ensures
            n == self@.in_flight,
    {
        self.in_flight
    }

    /// The pieces that the remote has, as far as it told us.
    pub fn bitfield(&self) -> (bits: &Vec<bool>)
        ensures
            bits@ == self@.bitfield,
    {
        &self.bitfield
    }

    /// The peer id that the remote gave in its handshake, once it is accepted.
    pub fn remote_id(&self) -> (id: Option<[u8; 20]>)
        ensures
            match self@.remote_id {
                Some(bytes) => id matches Some(given) && given@ == bytes,
                None => id.is_none(),
            },
    {
        self.remote_id
    }

    /// The endpoint of the remote.
    pub fn addr(&self) -> (addr: PeerAddr)
        ensures
            addr == self@.addr,
    {
        self.peer.addr
    }
}

/// Appends a `SendRequest` for each of `requests`, in order.
fn append_requests(actions: &mut Vec<Action>, requests: &Vec<Request>)
    ensures
        action_views(final(actions)@) == action_views(old(actions)@) + Seq::new(
            requests@.len(),
            |j: int| ActionView::SendRequest(requests@[j]),
        ),
{
    let ghost first = action_views(actions@);
    let mut j: usize = 0;
    while j < requests.len()
        invariant
            j <= requests@.len(),
            action_views(actions@) == first + Seq::new(
                j as nat,
                |m: int| ActionView::SendRequest(requests@[m]),
            ),
        decreases requests@.len() - j,
    {
        let ghost before = action_views(actions@);
        actions.push(Action::SendRequest(requests[j]));
        assert(action_views(actions@) =~= before.push(
            ActionView::SendRequest(requests@[j as int]),
        ));
        assert(action_views(actions@) =~= first + Seq::new(
            (j + 1) as nat,
            |m: int| ActionView::SendRequest(requests@[m]),
        ));
        j += 1;
    }
}

/// The part of `bytes` from `from` on.
fn slice_from(bytes: &[u8], from: usize) -> (rest: &[u8])
    requires
        from <= bytes@.len(),
    ensures
        rest@ == bytes@.subrange(from as int, bytes@.len() as int),
{
    vstd::slice::slice_subrange(bytes, from, bytes.len())
}

/// What the pump sends is determined by the piece manager and the peer's
/// bitfield: two runs from the same state send the same requests and end
/// in the same state.
pub proof fn law_pump_is_determined(
    before: ManagerView,
    bits: Seq<bool>,
    first: Seq<Request>,
    first_after: ManagerView,
    second: Seq<Request>,
    second_after: ManagerView,
)
    requires
        pumped(before, bits, first, first_after),
        pumped(before, bits, second, second_after),
    ensures
        first == second,
        first_after == second_after,
{
    if first.len() < second.len() {
        let j = first.len() as int;
        assert(after_requests(before, bits, j as nat).candidate(bits, 0).is_some());
    }
    if second.len() < first.len() {
        let j = second.len() as int;
        assert(after_requests(before, bits, j as nat).candidate(bits, 0).is_some());
    }
    assert forall|j: int| 0 <= j < first.len() implies first[j] == second[j] by {
        let at = after_requests(before, bits, j as nat);
        assert(at.candidate(bits, 0).is_some());
    }
    assert(first =~= second);
}

/// Once the pump has run, nothing is left to ask of the peer: every block
/// of every piece that the peer has and we have not completed is requested
/// or received.
pub proof fn law_pump_leaves_nothing(
    before: ManagerView,
    bits: Seq<bool>,
    requests: Seq<Request>,
    after: ManagerView,
    i: int,
    k: int,
)
    requires
        pumped(before, bits, requests, after),
        after.wanted(bits, i),
        after.has_block(i, k),
        after.wf(),
    ensures
        after.block_state(i, k) != BlockState::NotRequested,
{
    lemma_candidate_is_first(after, bits, 0);
    assert(after.piece_wf(i));
}

/// A request asks for a block of the piece: it starts on a block
/// boundary, is at least one byte and at most a block long, and ends inside
/// the piece.
pub proof fn law_request_fits_piece(pm: ManagerView, bits: Seq<bool>)
    requires
        pm.wf(),
        pm.candidate(bits, 0).is_some(),
    ensures
        ({
            let (i, k) = pm.candidate(bits, 0).unwrap();
            let begin = k * BLOCK_SIZE as int;
            let left = pm.piece_len(i) - begin;
            &&& 0 <= i < pm.pieces.len()
            &&& 0 <= begin < pm.piece_len(i)
            &&& 1 <= left
            &&& (if left < BLOCK_SIZE as int {
                left
            } else {
                BLOCK_SIZE as int
            }) + begin <= pm.piece_len(i)
        }),
{
    let (i, k) = pm.candidate(bits, 0).unwrap();
    lemma_candidate_is_first(pm, bits, 0);
    assert(pm.piece_wf(i));
    lemma_piece_size_bounds(pm.total_length, pm.piece_length, i as nat);
    lemma_block_offset_in_piece(pm.piece_len(i), BLOCK_SIZE as nat, k as nat);
}

} // verus!
