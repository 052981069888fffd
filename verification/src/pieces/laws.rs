//! What holds of every run of the piece manager.

use crate::error::Error;
use crate::hash::sha1_digest;
use crate::pieces::piece_manager::{
    all_received, block_of, blocks_in, first_unrequested, lemma_block_offset_in_piece,
    lemma_blocks_in_positive, overwrite, BlockState, ManagerView, OutcomeView, BLOCK_SIZE,
};
use crate::torrent::{lemma_piece_count_bounds, lemma_piece_size_bounds};
use vstd::prelude::*;

verus! {

/// One call on the piece manager.
pub enum Step {
    /// `next_block` with the bitfield of a peer.
    Request(Seq<bool>),
    /// `add_block` with a piece index, an offset and the bytes of a block.
    Deliver(int, nat, Seq<u8>),
}

impl ManagerView {
    /// Where block `k` of piece `i` stands, also while the piece has no
    /// block states of its own: every block of an untouched piece is not
    /// requested, every block of a complete piece is received.
    pub open spec fn block_state(self, i: int, k: int) -> BlockState {
        if self.pieces[i].complete {
            BlockState::Received
        } else {
            self.ready(i).states[k]
        }
    }

    /// Block `k` of piece `i` exists.
    pub open spec fn has_block(self, i: int, k: int) -> bool {
        &&& 0 <= i < self.pieces.len()
        &&& 0 <= k < blocks_in(self.piece_len(i), BLOCK_SIZE as nat)
    }

    /// The state after one call.
    #[verifier::opaque]
    pub open spec fn step(self, step: Step) -> ManagerView {
        match step {
            Step::Request(bits) => match self.candidate(bits, 0) {
                Some((i, k)) => self.after_request(i, k),
                None => self,
            },
            Step::Deliver(i, begin, data) => match self.add_block(i, begin, data) {
                Ok((state, _)) => state,
                Err(_) => self,
            },
        }
    }

    /// The block that the call hands out, if it hands one out.
    pub open spec fn handed_out(self, step: Step) -> Option<(int, int)> {
        match step {
            Step::Request(bits) => self.candidate(bits, 0),
            Step::Deliver(_, _, _) => None,
        }
    }

    /// What the call reports, where it is a delivery that is taken in.
    #[verifier::opaque]
    pub open spec fn outcome(self, step: Step) -> Option<(int, OutcomeView)> {
        match step {
            Step::Request(_) => None,
            Step::Deliver(i, begin, data) => match self.add_block(i, begin, data) {
                Ok((_, outcome)) => Some((i, outcome)),
                Err(_) => None,
            },
        }
    }

    /// The call finds piece `i` whole and not matching its hash.
    pub open spec fn fails_hash(self, step: Step, i: int) -> bool {
        self.outcome(step) == Some((i, OutcomeView::HashMismatch))
    }

    /// What the call forwards of piece `i` to be written, if it forwards it.
    pub open spec fn forwarded(self, step: Step, i: int) -> Option<Seq<u8>> {
        match self.outcome(step) {
            Some((j, OutcomeView::Verified(data))) => if j == i {
                Some(data)
            } else {
                None
            },
            _ => None,
        }
    }

    /// The call forwards the content of piece `i` to be written.
    pub open spec fn forwards(self, step: Step, i: int) -> bool {
        self.forwarded(step, i).is_some()
    }

    /// What call `c` of `steps` forwards of piece `i`, if it forwards it.
    pub open spec fn forwarded_at(self, steps: Seq<Step>, c: int, i: int) -> Option<Seq<u8>> {
        self.run(steps, c as nat).forwarded(steps[c], i)
    }

    /// The state after the first `n` calls of `steps`.
    pub open spec fn run(self, steps: Seq<Step>, n: nat) -> ManagerView
        decreases n,
    {
        if n == 0 {
            self
        } else {
            self.run(steps, (n - 1) as nat).step(steps[n - 1])
        }
    }

    /// How many of the first `n` calls of `steps` forward piece `i`.
    pub open spec fn forward_count(self, steps: Seq<Step>, n: nat, i: int) -> nat
        decreases n,
    {
        if n == 0 {
            0
        } else {
            let before = self.forward_count(steps, (n - 1) as nat, i);
            if self.run(steps, (n - 1) as nat).forwards(steps[n - 1], i) {
                before + 1
            } else {
                before
            }
        }
    }
}

/// The block that `candidate` finds lies in a wanted piece at or after
/// `from`, is not requested, and is the first such block: no wanted piece
/// before it has a block that is not requested, and no block before it in
/// its own piece is. Where `candidate` finds none, there is none.
pub proof fn lemma_candidate_is_first(s: ManagerView, bits: Seq<bool>, from: int)
    requires
        0 <= from,
    ensures
        match s.candidate(bits, from) {
            Some((i, k)) => {
                &&& from <= i
                &&& s.wanted(bits, i)
                &&& 0 <= k < s.ready(i).states.len()
                &&& s.ready(i).states[k] == BlockState::NotRequested
                &&& forall|m: int| 0 <= m < k ==> s.ready(i).states[m] != BlockState::NotRequested
                &&& forall|j: int, m: int|
                    from <= j < i && s.wanted(bits, j) && 0 <= m < s.ready(j).states.len()
                        ==> s.ready(j).states[m] != BlockState::NotRequested
            },
            None => forall|j: int, m: int|
                from <= j && s.wanted(bits, j) && 0 <= m < s.ready(j).states.len() ==> s.ready(
                    j,
                ).states[m] != BlockState::NotRequested,
        },
    decreases s.pieces.len() - from,
{
    if from < s.pieces.len() {
        lemma_candidate_is_first(s, bits, from + 1);
        if s.wanted(bits, from) {
            lemma_first_unrequested(s.ready(from).states, 0);
        }
    }
}

/// `first_unrequested` finds the first block at or after `from` that is not
/// requested, and none where there is none.
pub proof fn lemma_first_unrequested(states: Seq<BlockState>, from: int)
    requires
        0 <= from,
    ensures
        match first_unrequested(states, from) {
            Some(k) => {
                &&& from <= k < states.len()
                &&& states[k] == BlockState::NotRequested
                &&& forall|m: int| from <= m < k ==> states[m] != BlockState::NotRequested
            },
            None => forall|m: int| from <= m < states.len() ==> states[m] != BlockState::NotRequested,
        },
    decreases states.len() - from,
{
    if from < states.len() {
        lemma_first_unrequested(states, from + 1);
    }
}

/// Every call keeps the manager well formed.
pub proof fn lemma_step_keeps_wf(s: ManagerView, step: Step)
    requires
        s.wf(),
    ensures
        s.step(step).wf(),
        s.step(step).pieces.len() == s.pieces.len(),
        s.step(step).hashes == s.hashes,
        s.step(step).total_length == s.total_length,
        s.step(step).piece_length == s.piece_length,
{
    reveal(ManagerView::step);
    reveal(ManagerView::outcome);
    let t = s.step(step);
    match step {
        Step::Request(bits) => {
            lemma_candidate_is_first(s, bits, 0);
            match s.candidate(bits, 0) {
                Some((i, k)) => {
                    assert forall|j: int| 0 <= j < t.pieces.len() implies #[trigger] t.piece_wf(
                        j,
                    ) by {
                        assert(s.piece_wf(j));
                        if j == i {
                            lemma_piece_size_bounds(s.total_length, s.piece_length, i as nat);
                        }
                    }
                },
                None => {},
            }
        },
        Step::Deliver(i, begin, data) => {
            assert forall|j: int| 0 <= j < t.pieces.len() implies #[trigger] t.piece_wf(j) by {
                assert(s.piece_wf(j));
            }
        },
    }
}

/// Every run keeps the manager well formed.
pub proof fn lemma_run_keeps_wf(s: ManagerView, steps: Seq<Step>, n: nat)
    requires
        s.wf(),
        n <= steps.len(),
    ensures
        s.run(steps, n).wf(),
        s.run(steps, n).pieces.len() == s.pieces.len(),
        s.run(steps, n).hashes == s.hashes,
        s.run(steps, n).total_length == s.total_length,
        s.run(steps, n).piece_length == s.piece_length,
    decreases n,
{
    if n > 0 {
        lemma_run_keeps_wf(s, steps, (n - 1) as nat);
        lemma_step_keeps_wf(s.run(steps, (n - 1) as nat), steps[n - 1]);
    }
}

/// A block that is requested or received stays so through every call but
/// a hash failure of its piece.
pub proof fn lemma_claimed_block_stays(s: ManagerView, step: Step, i: int, k: int)
    requires
        s.wf(),
        s.has_block(i, k),
        s.block_state(i, k) != BlockState::NotRequested,
        !s.fails_hash(step, i),
    ensures
        s.step(step).block_state(i, k) != BlockState::NotRequested,
{
    reveal(ManagerView::step);
    reveal(ManagerView::outcome);
    assert(s.piece_wf(i));
    match step {
        Step::Request(bits) => {
            lemma_candidate_is_first(s, bits, 0);
        },
        Step::Deliver(j, begin, data) => {},
    }
}

/// The block that a call hands out was not requested before the call and
/// is requested after it.
pub proof fn lemma_handed_out_block(s: ManagerView, step: Step, i: int, k: int)
    requires
        s.wf(),
        s.handed_out(step) == Some((i, k)),
    ensures
        s.has_block(i, k),
        s.block_state(i, k) == BlockState::NotRequested,
        s.step(step).block_state(i, k) == BlockState::Requested,
{
    reveal(ManagerView::step);
    reveal(ManagerView::outcome);
    match step {
        Step::Request(bits) => {
            lemma_candidate_is_first(s, bits, 0);
            assert(s.piece_wf(i));
        },
        Step::Deliver(j, begin, data) => {},
    }
}

/// Through calls `from..to` without a hash failure of piece `i`, a block of
/// that piece that is requested or received after call `from - 1` is so
/// after call `to - 1` too.
proof fn lemma_claimed_block_through(
    s: ManagerView,
    steps: Seq<Step>,
    from: nat,
    to: nat,
    i: int,
    k: int,
)
    requires
        s.wf(),
        from <= to <= steps.len(),
        s.has_block(i, k),
        s.run(steps, from).block_state(i, k) != BlockState::NotRequested,
        forall|c: nat| from <= c < to ==> !#[trigger] s.run(steps, c).fails_hash(steps[c as int], i),
    ensures
        s.run(steps, to).block_state(i, k) != BlockState::NotRequested,
    decreases to - from,
{
    if from < to {
        let last = (to - 1) as nat;
        lemma_claimed_block_through(s, steps, from, last, i, k);
        lemma_run_keeps_wf(s, steps, last);
        assert(!s.run(steps, last).fails_hash(steps[last as int], i));
        lemma_claimed_block_stays(s.run(steps, last), steps[last as int], i, k);
    }
}

/// `next_block` never hands out the same block twice without a hash
/// failure of its piece in between: where calls `a` and `b` of a run both
/// hand out block `k` of piece `i`, some call between them found piece `i`
/// whole and not matching its hash.
pub proof fn law_no_block_handed_out_twice(
    s: ManagerView,
    steps: Seq<Step>,
    a: nat,
    b: nat,
    i: int,
    k: int,
)
    requires
        s.wf(),
        a < b < steps.len(),
        s.run(steps, a).handed_out(steps[a as int]) == Some((i, k)),
        s.run(steps, b).handed_out(steps[b as int]) == Some((i, k)),
    ensures
        exists|c: nat| a < c < b && #[trigger] s.run(steps, c).fails_hash(steps[c as int], i),
{
    lemma_run_keeps_wf(s, steps, a);
    lemma_run_keeps_wf(s, steps, b);
    lemma_handed_out_block(s.run(steps, a), steps[a as int], i, k);
    lemma_handed_out_block(s.run(steps, b), steps[b as int], i, k);
    assert(s.run(steps, (a + 1) as nat) == s.run(steps, a).step(steps[a as int]));
    if forall|c: nat| a < c < b ==> !#[trigger] s.run(steps, c).fails_hash(steps[c as int], i) {
        lemma_claimed_block_through(s, steps, (a + 1) as nat, b, i, k);
    }
}

/// A piece that is filled with bytes whose digest is not its hash has every
/// block set back to not requested, keeps its buffer, stays incomplete, and
/// nothing is forwarded.
pub proof fn law_hash_mismatch_resets_piece(s: ManagerView, i: int, begin: nat, data: Seq<u8>)
    requires
        s.wf(),
        s.store(i, begin, data) matches Ok((stored, OutcomeView::Stored)) && stored.full(i)
            && sha1_digest(stored.pieces[i].data) != s.hashes[i],
    ensures
        s.add_block(i, begin, data) matches Ok((after, outcome)) && {
            &&& outcome == OutcomeView::HashMismatch
            &&& !after.pieces[i].complete
            &&& after.pieces[i].data == overwrite(s.pieces[i].data, begin as int, data)
            &&& after.pieces[i].states.len() == s.pieces[i].states.len()
            &&& forall|k: int|
                0 <= k < after.pieces[i].states.len() ==> after.pieces[i].states[k]
                    == BlockState::NotRequested
            &&& forall|k: int| s.has_block(i, k) ==> after.block_state(i, k) == BlockState::NotRequested
        },
        !s.forwards(Step::Deliver(i, begin, data), i),
{
    reveal(ManagerView::step);
    reveal(ManagerView::outcome);
    assert(s.piece_wf(i));
}

/// A complete piece stays complete and is never forwarded again: every
/// call leaves it as it is.
pub proof fn law_complete_piece_is_final(s: ManagerView, step: Step, i: int)
    requires
        s.wf(),
        0 <= i < s.pieces.len(),
        s.pieces[i].complete,
    ensures
        s.step(step).pieces[i] == s.pieces[i],
        !s.forwards(step, i),
{
    reveal(ManagerView::step);
    reveal(ManagerView::outcome);
    assert(s.piece_wf(i));
    match step {
        Step::Request(bits) => {
            lemma_candidate_is_first(s, bits, 0);
        },
        Step::Deliver(j, begin, data) => {},
    }
}

/// Blocks that do not overlap can be stored in either order: the buffer
/// and the block states come out the same.
pub proof fn law_stores_commute(
    s: ManagerView,
    i: int,
    first_begin: nat,
    first: Seq<u8>,
    second_begin: nat,
    second: Seq<u8>,
)
    requires
        0 <= i < s.pieces.len(),
        s.block_fits(i, first_begin, first.len()),
        s.block_fits(i, second_begin, second.len()),
        first_begin + first.len() <= second_begin,
        block_of(first_begin) != block_of(second_begin),
    ensures
        s.after_store(i, first_begin, first).after_store(i, second_begin, second) == s.after_store(
            i,
            second_begin,
            second,
        ).after_store(i, first_begin, first),
{
    let one = s.after_store(i, first_begin, first).after_store(i, second_begin, second);
    let other = s.after_store(i, second_begin, second).after_store(i, first_begin, first);
    assert(one.pieces[i].data =~= other.pieces[i].data);
    assert(one.pieces[i].states =~= other.pieces[i].states);
    assert(one.pieces =~= other.pieces);
}

/// A piece becomes complete in one way only: a block is delivered to it
/// that makes it full, and the digest of its buffer is its expected hash.
/// That buffer is then what is forwarded.
pub proof fn law_completion_needs_matching_hash(s: ManagerView, step: Step, i: int)
    requires
        s.wf(),
        0 <= i < s.pieces.len(),
        !s.pieces[i].complete,
        s.step(step).pieces[i].complete,
    ensures
        step matches Step::Deliver(j, begin, data) && {
            let stored = s.after_store(i, begin, data);
            &&& j == i
            &&& s.block_fits(i, begin, data.len())
            &&& all_received(stored.pieces[i].states)
            &&& sha1_digest(stored.pieces[i].data) == s.hashes[i]
            &&& s.forwarded(step, i) == Some(stored.pieces[i].data)
        },
{
    reveal(ManagerView::step);
    reveal(ManagerView::outcome);
    assert(s.piece_wf(i));
    match step {
        Step::Request(bits) => {
            lemma_candidate_is_first(s, bits, 0);
        },
        Step::Deliver(j, begin, data) => {},
    }
}

/// The bytes of block `k` of a piece whose content is `content`.
pub open spec fn block_bytes(content: Seq<u8>, k: int) -> Seq<u8> {
    let start = k * BLOCK_SIZE as int;
    let end = if start + BLOCK_SIZE as int <= content.len() {
        start + BLOCK_SIZE as int
    } else {
        content.len() as int
    };
    content.subrange(start, end)
}

/// The call delivers block `k` of `content` to piece `i`, at its offset.
pub open spec fn delivers_block(step: Step, i: int, k: int, content: Seq<u8>) -> bool {
    step == Step::Deliver(i, (k * BLOCK_SIZE as int) as nat, block_bytes(content, k))
}

/// `buffer` holds the bytes of `content` throughout block `k`.
pub open spec fn block_agrees(buffer: Seq<u8>, content: Seq<u8>, k: int) -> bool {
    forall|m: int|
        k * BLOCK_SIZE as int <= m < (k + 1) * BLOCK_SIZE as int && 0 <= m < content.len()
            ==> #[trigger] buffer[m] == content[m]
}

/// The blocks of `content` that the first `n` calls of `steps` deliver to piece `i`.
pub open spec fn delivered_before(steps: Seq<Step>, n: nat, i: int, content: Seq<u8>) -> Set<int> {
    Set::new(|k: int| exists|c: int| 0 <= c < n && delivers_block(steps[c], i, k, content))
}

impl ManagerView {
    /// Every delivery to piece `i` in `steps` brings a whole block of
    /// `content` and is taken in, and every block of the piece is delivered
    /// by some call.
    pub open spec fn delivered_in_full(self, steps: Seq<Step>, i: int, content: Seq<u8>) -> bool {
        &&& forall|c: int|
            0 <= c < steps.len() && (#[trigger] steps[c] matches Step::Deliver(j, _, _) && j == i)
                ==> {
                &&& exists|k: int| self.has_block(i, k) && delivers_block(steps[c], i, k, content)
                &&& self.run(steps, c as nat).outcome(steps[c]).is_some()
            }
        &&& forall|k: int| #[trigger]
            self.has_block(i, k) ==> delivered_before(steps, steps.len(), i, content).contains(k)
    }

    /// Piece `i` is being assembled from `content`: it is neither complete
    /// nor full, each of its received blocks holds the bytes of `content`,
    /// and every block in `delivered` is received.
    pub open spec fn assembling(self, i: int, content: Seq<u8>, delivered: Set<int>) -> bool {
        &&& !self.pieces[i].complete
        &&& !self.full(i)
        &&& forall|k: int|
            #![trigger self.has_block(i, k)]
            self.has_block(i, k) && self.block_state(i, k) == BlockState::Received
                ==> block_agrees(self.pieces[i].data, content, k)
        &&& forall|k: int|
            #![trigger delivered.contains(k)]
            delivered.contains(k) && self.has_block(i, k) ==> self.block_state(i, k)
                == BlockState::Received
    }

    /// What holds of piece `i` after the first `n` calls of a run that
    /// delivers it in full: whatever was forwarded of it is `content`, and
    /// either it is complete and was forwarded once, or it is being
    /// assembled and was never forwarded.
    pub open spec fn on_track(self, steps: Seq<Step>, n: nat, i: int, content: Seq<u8>) -> bool {
        &&& forall|c: int|
            0 <= c < n && (#[trigger] self.forwarded_at(steps, c, i)).is_some()
                ==> self.forwarded_at(steps, c, i) == Some(content)
        &&& if self.run(steps, n).pieces[i].complete {
            self.forward_count(steps, n, i) == 1
        } else {
            &&& self.forward_count(steps, n, i) == 0
            &&& self.run(steps, n).assembling(i, content, delivered_before(steps, n, i, content))
        }
    }
}

/// A buffer whose every block agrees with `content` is `content`.
proof fn lemma_agreeing_buffer(buffer: Seq<u8>, content: Seq<u8>)
    requires
        buffer.len() == content.len(),
        forall|k: int|
            0 <= k < blocks_in(content.len(), BLOCK_SIZE as nat) ==> block_agrees(
                buffer,
                content,
                k,
            ),
    ensures
        buffer == content,
{
    assert forall|m: int| 0 <= m < content.len() implies buffer[m] == content[m] by {
        let k = m / BLOCK_SIZE as int;
        lemma_piece_count_bounds(content.len(), BLOCK_SIZE as nat);
        assert(0 <= k < blocks_in(content.len(), BLOCK_SIZE as nat)) by (nonlinear_arith)
            requires
                k == m / 16384,
                0 <= m < content.len(),
                blocks_in(content.len(), 16384) * 16384 >= content.len(),
        ;
        assert(block_agrees(buffer, content, k));
    }
    assert(buffer =~= content);
}

/// Storing block `k` of `content` in a piece with a buffer makes that block
/// agree with `content` and leaves the bytes of every other block alone.
proof fn lemma_stored_block_agrees(now: ManagerView, i: int, k: int, content: Seq<u8>)
    requires
        now.wf(),
        now.has_block(i, k),
        content.len() == now.piece_len(i),
        !now.pieces[i].complete,
        now.block_fits(i, (k * BLOCK_SIZE as int) as nat, block_bytes(content, k).len()),
    ensures
        ({
            let stored = now.after_store(
                i,
                (k * BLOCK_SIZE as int) as nat,
                block_bytes(content, k),
            );
            &&& stored.pieces[i].data.len() == content.len()
            &&& stored.pieces[i].states == now.pieces[i].states.update(k, BlockState::Received)
            &&& block_agrees(stored.pieces[i].data, content, k)
            &&& forall|m: int|
                m != k && block_agrees(now.pieces[i].data, content, m) ==> block_agrees(
                    stored.pieces[i].data,
                    content,
                    m,
                )
        }),
{
    assert(now.piece_wf(i));
    let begin = k * BLOCK_SIZE as int;
    let data = block_bytes(content, k);
    let old_buffer = now.pieces[i].data;
    let buffer = overwrite(old_buffer, begin, data);
    lemma_block_offset_in_piece(content.len(), BLOCK_SIZE as nat, k as nat);
    assert(block_of(begin as nat) == k) by (nonlinear_arith)
        requires
            begin == k * 16384,
            block_of(begin as nat) == begin / 16384,
            k >= 0,
    ;
    assert(buffer.len() == content.len());
    assert forall|m: int|
        k * BLOCK_SIZE as int <= m < (k + 1) * BLOCK_SIZE as int && 0 <= m < content.len()
        implies #[trigger] buffer[m] == content[m] by {
        assert(buffer[m] == data[m - begin]);
    }
    assert forall|m: int| m != k && block_agrees(old_buffer, content, m) implies block_agrees(
        buffer,
        content,
        m,
    ) by {
        assert forall|x: int|
            m * BLOCK_SIZE as int <= x < (m + 1) * BLOCK_SIZE as int && 0 <= x < content.len()
            implies #[trigger] buffer[x] == content[x] by {
            assert(x < begin || x >= begin + data.len()) by (nonlinear_arith)
                requires
                    m != k,
                    m * 16384 <= x < (m + 1) * 16384,
                    begin == k * 16384,
                    data.len() <= 16384,
            ;
            assert(buffer[x] == old_buffer[x]);
            assert(old_buffer[x] == content[x]);
        }
    }
}

/// A request leaves a piece that is being assembled in that state, and
/// forwards nothing.
proof fn lemma_assembling_request(
    now: ManagerView,
    bits: Seq<bool>,
    i: int,
    content: Seq<u8>,
    delivered: Set<int>,
)
    requires
        now.wf(),
        0 <= i < now.pieces.len(),
        now.assembling(i, content, delivered),
    ensures
        now.step(Step::Request(bits)).assembling(i, content, delivered),
        now.forwarded(Step::Request(bits), i).is_none(),
{
    reveal(ManagerView::step);
    reveal(ManagerView::outcome);
    let next = now.step(Step::Request(bits));
    lemma_candidate_is_first(now, bits, 0);
    lemma_step_keeps_wf(now, Step::Request(bits));
    assert(now.piece_wf(i));
    assert(next.piece_wf(i));
    lemma_piece_size_bounds(now.total_length, now.piece_length, i as nat);
    lemma_blocks_in_positive(now.piece_len(i), BLOCK_SIZE as nat);
    match now.candidate(bits, 0) {
        Some((p, b)) => {
            if p == i {
                assert(next.pieces[i].states[b] == BlockState::Requested);
                assert forall|k: int|
                    #![trigger next.has_block(i, k)]
                    next.has_block(i, k) && next.block_state(i, k)
                        == BlockState::Received implies block_agrees(
                    next.pieces[i].data,
                    content,
                    k,
                ) by {
                    assert(now.has_block(i, k));
                    assert(now.block_state(i, k) == BlockState::Received);
                }
                assert forall|k: int|
                    #![trigger delivered.contains(k)]
                    delivered.contains(k) && next.has_block(i, k) implies next.block_state(i, k)
                    == BlockState::Received by {
                    assert(now.has_block(i, k));
                    assert(now.block_state(i, k) == BlockState::Received);
                }
            } else {
                assert(next.pieces[i] == now.pieces[i]);
                assert forall|k: int|
                    #![trigger next.has_block(i, k)]
                    next.has_block(i, k) && next.block_state(i, k)
                        == BlockState::Received implies block_agrees(
                    next.pieces[i].data,
                    content,
                    k,
                ) by {
                    assert(now.has_block(i, k));
                }
                assert forall|k: int|
                    #![trigger delivered.contains(k)]
                    delivered.contains(k) && next.has_block(i, k) implies next.block_state(i, k)
                    == BlockState::Received by {
                    assert(now.has_block(i, k));
                }
            }
        },
        None => {},
    }
}

/// A delivery to another piece leaves a piece that is being assembled in
/// that state, and forwards nothing of it.
proof fn lemma_assembling_other(
    now: ManagerView,
    j: int,
    begin: nat,
    data: Seq<u8>,
    i: int,
    content: Seq<u8>,
    delivered: Set<int>,
)
    requires
        now.wf(),
        0 <= i < now.pieces.len(),
        j != i,
        now.assembling(i, content, delivered),
    ensures
        now.step(Step::Deliver(j, begin, data)).assembling(i, content, delivered),
        now.forwarded(Step::Deliver(j, begin, data), i).is_none(),
{
    reveal(ManagerView::step);
    reveal(ManagerView::outcome);
    let next = now.step(Step::Deliver(j, begin, data));
    assert(next.pieces[i] == now.pieces[i]);
    assert(next.piece_len(i) == now.piece_len(i));
    assert forall|k: int|
        #![trigger next.has_block(i, k)]
        next.has_block(i, k) && next.block_state(i, k) == BlockState::Received implies block_agrees(
        next.pieces[i].data,
        content,
        k,
    ) by {
        assert(now.has_block(i, k));
    }
    assert forall|k: int|
        #![trigger delivered.contains(k)]
        delivered.contains(k) && next.has_block(i, k) implies next.block_state(i, k)
        == BlockState::Received by {
        assert(now.has_block(i, k));
    }
}

/// A block of `content` that is taken in for a piece being assembled from
/// it either completes the piece, which is then forwarded as `content`, or
/// leaves it being assembled, with that block received too.
proof fn lemma_assembling_delivery(
    now: ManagerView,
    i: int,
    k: int,
    content: Seq<u8>,
    delivered: Set<int>,
)
    requires
        now.wf(),
        now.has_block(i, k),
        content.len() == now.piece_len(i),
        sha1_digest(content) == now.hashes[i],
        now.assembling(i, content, delivered),
        now.outcome(
            Step::Deliver(i, (k * BLOCK_SIZE as int) as nat, block_bytes(content, k)),
        ).is_some(),
    ensures
        ({
            let step = Step::Deliver(i, (k * BLOCK_SIZE as int) as nat, block_bytes(content, k));
            let next = now.step(step);
            if next.pieces[i].complete {
                now.forwarded(step, i) == Some(content)
            } else {
                &&& now.forwarded(step, i).is_none()
                &&& next.assembling(i, content, delivered.insert(k))
            }
        }),
{
    reveal(ManagerView::step);
    reveal(ManagerView::outcome);
    let begin = (k * BLOCK_SIZE as int) as nat;
    let data = block_bytes(content, k);
    let step = Step::Deliver(i, begin, data);
    let next = now.step(step);
    assert(now.piece_wf(i));
    let stored = now.after_store(i, begin, data);
    assert(now.store(i, begin, data) == Ok::<(ManagerView, OutcomeView), Error>(
        (stored, OutcomeView::Stored),
    ));
    lemma_stored_block_agrees(now, i, k, content);
    assert(stored.piece_len(i) == now.piece_len(i));
    assert forall|m: int|
        #![trigger stored.has_block(i, m)]
        stored.has_block(i, m) && stored.block_state(i, m)
            == BlockState::Received implies block_agrees(stored.pieces[i].data, content, m) by {
        if m != k {
            assert(now.has_block(i, m));
            assert(now.block_state(i, m) == BlockState::Received);
        }
    }
    if stored.full(i) {
        assert forall|m: int|
            0 <= m < blocks_in(content.len(), BLOCK_SIZE as nat) implies block_agrees(
            stored.pieces[i].data,
            content,
            m,
        ) by {
            assert(stored.has_block(i, m));
        }
        lemma_agreeing_buffer(stored.pieces[i].data, content);
        assert(next.pieces[i].complete);
    } else {
        assert(next == stored);
        let wider = delivered.insert(k);
        assert forall|m: int|
            #![trigger wider.contains(m)]
            wider.contains(m) && next.has_block(i, m) implies next.block_state(i, m)
            == BlockState::Received by {
            if m != k {
                assert(delivered.contains(m));
                assert(now.has_block(i, m));
                assert(now.block_state(i, m) == BlockState::Received);
            }
        }
    }
}

/// Blocks that start at the same offset are the same block.
proof fn lemma_same_offset_same_block(k: int, m: int)
    requires
        k >= 0,
        m >= 0,
        (k * BLOCK_SIZE as int) as nat == (m * BLOCK_SIZE as int) as nat,
    ensures
        k == m,
{
    assert(k * 16384 >= 0 && m * 16384 >= 0) by (nonlinear_arith)
        requires
            k >= 0,
            m >= 0,
    ;
}

/// The blocks delivered before call `n + 1` are those delivered before
/// call `n` and the one that call `n` delivers, if it delivers one.
proof fn lemma_delivered_before_next(steps: Seq<Step>, n: nat, i: int, content: Seq<u8>, k: int)
    requires
        n < steps.len(),
        delivered_before(steps, n + 1, i, content).contains(k),
    ensures
        delivered_before(steps, n, i, content).contains(k) || delivers_block(
            steps[n as int],
            i,
            k,
            content,
        ),
{
    let c = choose|c: int| 0 <= c < n + 1 && delivers_block(steps[c], i, k, content);
    if c < n {
        assert(delivered_before(steps, n, i, content).contains(k));
    }
}

/// A narrower set of delivered blocks asks less of a piece being assembled.
proof fn lemma_assembling_subset(
    now: ManagerView,
    i: int,
    content: Seq<u8>,
    wide: Set<int>,
    narrow: Set<int>,
)
    requires
        now.assembling(i, content, wide),
        forall|k: int| narrow.contains(k) && now.has_block(i, k) ==> wide.contains(k),
    ensures
        now.assembling(i, content, narrow),
{
}

/// What one call of a run that delivers piece `i` in full does to the
/// piece: a complete piece stays complete and is not forwarded; a piece
/// being assembled is either completed and forwarded as `content`, or is
/// still being assembled and not forwarded.
proof fn lemma_faithful_step(
    now: ManagerView,
    step: Step,
    i: int,
    content: Seq<u8>,
    before: Set<int>,
    after: Set<int>,
)
    requires
        now.wf(),
        0 <= i < now.pieces.len(),
        content.len() == now.piece_len(i),
        sha1_digest(content) == now.hashes[i],
        now.pieces[i].complete || now.assembling(i, content, before),
        step matches Step::Deliver(j, _, _) && j == i ==> {
            &&& exists|k: int| now.has_block(i, k) && delivers_block(step, i, k, content)
            &&& now.outcome(step).is_some()
        },
        forall|m: int|
            after.contains(m) ==> before.contains(m) || delivers_block(step, i, m, content),
    ensures
        ({
            let next = now.step(step);
            if now.pieces[i].complete {
                next.pieces[i].complete && now.forwarded(step, i).is_none()
            } else if next.pieces[i].complete {
                now.forwarded(step, i) == Some(content)
            } else {
                now.forwarded(step, i).is_none() && next.assembling(i, content, after)
            }
        }),
{
    let next = now.step(step);
    if now.pieces[i].complete {
        law_complete_piece_is_final(now, step, i);
    } else {
        match step {
            Step::Request(bits) => {
                lemma_assembling_request(now, bits, i, content, before);
                lemma_assembling_subset(next, i, content, before, after);
            },
            Step::Deliver(j, begin, data) => {
                if j != i {
                    lemma_assembling_other(now, j, begin, data, i, content, before);
                    lemma_assembling_subset(next, i, content, before, after);
                } else {
                    let k = choose|k: int|
                        now.has_block(i, k) && delivers_block(step, i, k, content);
                    lemma_assembling_delivery(now, i, k, content, before);
                    if !next.pieces[i].complete {
                        assert forall|m: int|
                            after.contains(m) && next.has_block(i, m) implies before.insert(
                            k,
                        ).contains(m) by {
                            if delivers_block(step, i, m, content) {
                                lemma_same_offset_same_block(k, m);
                            }
                        }
                        lemma_assembling_subset(next, i, content, before.insert(k), after);
                    }
                }
            },
        }
    }
}

/// One more call keeps a run on track.
proof fn lemma_on_track_step(s: ManagerView, steps: Seq<Step>, n: nat, i: int, content: Seq<u8>)
    requires
        s.wf(),
        0 <= i < s.pieces.len(),
        content.len() == s.piece_len(i),
        sha1_digest(content) == s.hashes[i],
        s.delivered_in_full(steps, i, content),
        n < steps.len(),
        s.on_track(steps, n, i, content),
    ensures
        s.on_track(steps, n + 1, i, content),
{
    let now = s.run(steps, n);
    let step = steps[n as int];
    let before = delivered_before(steps, n, i, content);
    let after = delivered_before(steps, n + 1, i, content);
    lemma_run_keeps_wf(s, steps, n);
    assert(s.run(steps, n + 1) == now.step(step));
    assert(s.forwarded_at(steps, n as int, i) == now.forwarded(step, i));
    assert forall|m: int| after.contains(m) implies before.contains(m) || delivers_block(
        step,
        i,
        m,
        content,
    ) by {
        lemma_delivered_before_next(steps, n, i, content, m);
    }
    if step matches Step::Deliver(j, _, _) && j == i {
        let k = choose|k: int| s.has_block(i, k) && delivers_block(step, i, k, content);
        assert(now.has_block(i, k) && delivers_block(step, i, k, content));
        assert(s.run(steps, n as int as nat).outcome(steps[n as int]).is_some());
    }
    lemma_faithful_step(now, step, i, content, before, after);
}

/// Such a run is on track after every call.
proof fn lemma_on_track_through(s: ManagerView, steps: Seq<Step>, n: nat, i: int, content: Seq<u8>)
    requires
        s.wf(),
        0 <= i < s.pieces.len(),
        content.len() == s.piece_len(i),
        sha1_digest(content) == s.hashes[i],
        s.delivered_in_full(steps, i, content),
        n <= steps.len(),
        s.on_track(steps, 0, i, content),
    ensures
        s.on_track(steps, n, i, content),
    decreases n,
{
    if n > 0 {
        lemma_on_track_through(s, steps, (n - 1) as nat, i, content);
        lemma_on_track_step(s, steps, (n - 1) as nat, i, content);
    }
}

/// A piece that is being assembled still lacks the delivery of some block:
/// with all of them delivered it would be full.
proof fn lemma_assembling_lacks_block(
    now: ManagerView,
    i: int,
    content: Seq<u8>,
    delivered: Set<int>,
)
    requires
        now.wf(),
        0 <= i < now.pieces.len(),
        now.assembling(i, content, delivered),
    ensures
        exists|k: int| #[trigger] now.has_block(i, k) && !delivered.contains(k),
{
    assert(now.piece_wf(i));
    lemma_piece_size_bounds(now.total_length, now.piece_length, i as nat);
    lemma_blocks_in_positive(now.piece_len(i), BLOCK_SIZE as nat);
    assert(now.has_block(i, 0));
    if forall|k: int| #[trigger] now.has_block(i, k) ==> delivered.contains(k) {
        assert(delivered.contains(0));
        assert(now.block_state(i, 0) == BlockState::Received);
        assert forall|k: int| 0 <= k < now.pieces[i].states.len() implies now.pieces[i].states[k]
            == BlockState::Received by {
            assert(now.has_block(i, k));
            assert(delivered.contains(k));
            assert(now.block_state(i, k) == BlockState::Received);
        }
        assert(now.full(i));
    }
}

/// Where every block of an incomplete piece is delivered with the bytes of
/// the content that its hash stands for, and every such delivery is taken
/// in, the piece is forwarded exactly once, and what is forwarded is that
/// content. The piece starts with no block received; requests and
/// deliveries to other pieces may come in between in any order.
pub proof fn law_whole_piece_forwarded_once(
    s: ManagerView,
    steps: Seq<Step>,
    i: int,
    content: Seq<u8>,
)
    requires
        s.wf(),
        0 <= i < s.pieces.len(),
        !s.pieces[i].complete,
        forall|k: int| s.has_block(i, k) ==> s.block_state(i, k) != BlockState::Received,
        content.len() == s.piece_len(i),
        sha1_digest(content) == s.hashes[i],
        s.delivered_in_full(steps, i, content),
    ensures
        s.forward_count(steps, steps.len(), i) == 1,
        s.run(steps, steps.len()).pieces[i].complete,
        forall|c: int|
            0 <= c < steps.len() && (#[trigger] s.forwarded_at(steps, c, i)).is_some()
                ==> s.forwarded_at(steps, c, i) == Some(content),
{
    assert(s.piece_wf(i));
    lemma_piece_size_bounds(s.total_length, s.piece_length, i as nat);
    lemma_blocks_in_positive(s.piece_len(i), BLOCK_SIZE as nat);
    assert(s.has_block(i, 0));
    assert(s.block_state(i, 0) != BlockState::Received);
    assert(!s.full(i));
    let none = delivered_before(steps, 0, i, content);
    assert forall|k: int| !none.contains(k) by {}
    assert(s.run(steps, 0) == s);
    assert(s.assembling(i, content, none));
    assert(s.on_track(steps, 0, i, content));
    lemma_on_track_through(s, steps, steps.len(), i, content);
    let end = s.run(steps, steps.len());
    lemma_run_keeps_wf(s, steps, steps.len());
    if !end.pieces[i].complete {
        let all = delivered_before(steps, steps.len(), i, content);
        lemma_assembling_lacks_block(end, i, content, all);
        let k = choose|k: int| #[trigger] end.has_block(i, k) && !all.contains(k);
        assert(s.has_block(i, k));
    }
}

/// Number of blocks among the first `n` of `states` that are not requested.
pub open spec fn unrequested_in(states: Seq<BlockState>, n: nat) -> nat
    decreases n,
{
    if n == 0 {
        0
    } else {
        unrequested_in(states, (n - 1) as nat) + if states[n - 1] == BlockState::NotRequested {
            1nat
        } else {
            0nat
        }
    }
}

impl ManagerView {
    /// Number of blocks of piece `i` that can still be handed out.
    pub open spec fn open_in(self, i: int) -> nat {
        if self.pieces[i].complete {
            0
        } else {
            unrequested_in(self.ready(i).states, self.ready(i).states.len())
        }
    }

    /// Number of blocks of the first `n` pieces that can still be handed out.
    pub open spec fn open_blocks(self, n: nat) -> nat
        decreases n,
    {
        if n == 0 {
            0
        } else {
            self.open_blocks((n - 1) as nat) + self.open_in(n - 1)
        }
    }
}

/// Requesting a block that was not requested leaves one fewer to request.
proof fn lemma_unrequested_in_update(states: Seq<BlockState>, k: int, n: nat)
    requires
        0 <= k < states.len(),
        n <= states.len(),
        states[k] == BlockState::NotRequested,
    ensures
        unrequested_in(states.update(k, BlockState::Requested), n) + if k < n {
            1nat
        } else {
            0nat
        } == unrequested_in(states, n),
    decreases n,
{
    if n > 0 {
        lemma_unrequested_in_update(states, k, (n - 1) as nat);
    }
}

/// Handing a block out leaves one block fewer to hand out: a run of
/// requests comes to an end.
pub proof fn lemma_request_takes_one(s: ManagerView, bits: Seq<bool>)
    requires
        s.wf(),
        s.candidate(bits, 0).is_some(),
    ensures
        ({
            let (i, k) = s.candidate(bits, 0).unwrap();
            s.after_request(i, k).open_blocks(s.pieces.len()) + 1 == s.open_blocks(s.pieces.len())
        }),
{
    let (i, k) = s.candidate(bits, 0).unwrap();
    let t = s.after_request(i, k);
    lemma_candidate_is_first(s, bits, 0);
    assert(s.piece_wf(i));
    lemma_unrequested_in_update(s.ready(i).states, k, s.ready(i).states.len());
    assert(t.ready(i).states == s.ready(i).states.update(k, BlockState::Requested));
    assert(t.open_in(i) + 1 == s.open_in(i));
    lemma_open_blocks_after(s, t, i, s.pieces.len());
}

/// Where two states differ in piece `i` alone, which has one block fewer
/// to hand out in the second, so have the first `n` pieces if `i` is among them.
proof fn lemma_open_blocks_after(s: ManagerView, t: ManagerView, i: int, n: nat)
    requires
        0 <= i < s.pieces.len(),
        n <= s.pieces.len(),
        s.pieces.len() == t.pieces.len(),
        s.total_length == t.total_length,
        s.piece_length == t.piece_length,
        forall|j: int| 0 <= j < s.pieces.len() && j != i ==> s.pieces[j] == t.pieces[j],
        t.open_in(i) + 1 == s.open_in(i),
    ensures
        t.open_blocks(n) + if i < n {
            1nat
        } else {
            0nat
        } == s.open_blocks(n),
    decreases n,
{
    if n > 0 {
        lemma_open_blocks_after(s, t, i, (n - 1) as nat);
    }
}

} // verus!
