//! The order in which the peers are served within a block does not show in
//! the result: neither in the mix nor in the peers' states.
//!
//! The peer table hands out its peers in no particular order. Each peer
//! has a decoder of its own, so what a peer's decoder returns during a
//! block depends on that peer alone. The block is therefore described
//! with one series of decoded frames per peer.

use crate::config::MAX_BUFFER_SIZE;
use crate::jitter::{lemma_accept, lemma_poll, PeerState};
use crate::mix::{
    lemma_mix_add_append, lemma_mix_add_commutes, lemma_mix_add_exact, lemma_mix_add_within,
    mix_add, mix_within,
};
use crate::mixer::PipelineState;
use vstd::prelude::*;

verus! {

/// The frames of the peers of `order`, one peer's frames after the
/// other's. Peers not among `known` have none.
pub open spec fn frames_in_order(
    known: Set<u32>,
    order: Seq<u32>,
    frames_for: spec_fn(u32) -> Seq<Seq<i16>>,
) -> Seq<Seq<i16>>
    decreases order.len(),
{
    if order.len() == 0 {
        Seq::empty()
    } else if known.contains(order[0]) {
        frames_for(order[0]) + frames_in_order(known, order.drop_first(), frames_for)
    } else {
        frames_in_order(known, order.drop_first(), frames_for)
    }
}

/// Every frame of the series fits the scratch buffers.
pub open spec fn frames_fit(frames: Seq<Seq<i16>>) -> bool {
    forall|i: int| 0 <= i < frames.len() ==> (#[trigger] frames[i]).len() <= MAX_BUFFER_SIZE
}

impl PeerState {
    /// A peer's turn in a block with `room` positions open, its decoder
    /// answering the peer's jobs with `frames`, one after the other. The
    /// turn ends when the peer asks for nothing more or the frames have run
    /// out. Gives the peer's state after the turn and the samples it put
    /// into the block, in order.
    pub open spec fn fill(self, room: nat, max: nat, frames: Seq<Seq<i16>>) -> (
        PeerState,
        Seq<i16>,
    )
        decreases frames.len(),
    {
        let (polled, first, pick) = self.poll(room, max);
        if pick is Idle || frames.len() == 0 {
            (polled, first)
        } else {
            let (taken, second) = polled.accept(frames[0], (room - first.len()) as nat);
            let (end, rest) = taken.fill(
                (room - first.len() - second.len()) as nat,
                max,
                frames.drop_first(),
            );
            (end, first + second + rest)
        }
    }
}

/// The sample that a run of samples puts at position `i` of a block:
/// silence where the run has ended.
pub open spec fn sample_at(samples: Seq<i16>, i: int) -> int {
    if 0 <= i < samples.len() {
        samples[i] as int
    } else {
        0
    }
}

impl PipelineState {
    /// The samples that peer `id` puts into the block in a turn from the
    /// start of the block. A peer that is not known puts in none.
    pub open spec fn contribution(self, id: u32, frames: Seq<Seq<i16>>) -> Seq<i16> {
        if self.peers.contains_key(id) {
            self.peers[id].fill(self.mix.len(), self.max_jitter, frames).1
        } else {
            Seq::empty()
        }
    }

    /// The sum, at position `i` of the block, of what the peers of `order`
    /// put into the block.
    pub open spec fn sum_at(
        self,
        order: Seq<u32>,
        frames_for: spec_fn(u32) -> Seq<Seq<i16>>,
        i: int,
    ) -> int
        decreases order.len(),
    {
        if order.len() == 0 {
            0
        } else {
            sample_at(self.contribution(order[0], frames_for(order[0])), i) + self.sum_at(
                order.drop_first(),
                frames_for,
                i,
            )
        }
    }

    /// The turn of the peer at the head of the queue, step by step: the
    /// peer is polled, and as long as it asks for a decode the next of
    /// `frames` is handed in and it is polled again.
    pub open spec fn turn(self, frames: Seq<Seq<i16>>) -> PipelineState
        decreases frames.len(),
    {
        let (polled, pick) = self.poll_head();
        if pick is Idle || frames.len() == 0 {
            polled
        } else {
            polled.accept(frames[0]).turn(frames.drop_first())
        }
    }

    /// The decoder answers the jobs of the peer at the head of the queue
    /// with `frames` and the frames are used up exactly: the peer asks for
    /// a decode as often as there are frames.
    pub open spec fn turn_is_exact(self, frames: Seq<Seq<i16>>) -> bool
        decreases frames.len(),
    {
        let (polled, pick) = self.poll_head();
        if frames.len() == 0 {
            pick is Idle
        } else {
            !(pick is Idle) && polled.accept(frames[0]).turn_is_exact(frames.drop_first())
        }
    }

    /// The frames `frames_for(id)` are exactly those that the decoder of
    /// peer `id` is asked for while the queue is served.
    pub open spec fn queue_is_exact(self, frames_for: spec_fn(u32) -> Seq<Seq<i16>>) -> bool
        decreases self.queue.len(),
    {
        if self.queue.len() == 0 {
            true
        } else if !self.peers.contains_key(self.queue[0]) {
            self.next_peer().queue_is_exact(frames_for)
        } else {
            let served = self.turn(frames_for(self.queue[0]));
            &&& self.turn_is_exact(frames_for(self.queue[0]))
            &&& (PipelineState {
                queue: self.queue.drop_first(),
                produced: 0,
                ..served
            }).queue_is_exact(frames_for)
        }
    }

    /// The whole queue is served, peer after peer; the decoder of peer
    /// `id` answers with the frames `frames_for(id)`.
    pub open spec fn serve_queue(self, frames_for: spec_fn(u32) -> Seq<Seq<i16>>) -> PipelineState
        decreases self.queue.len(),
    {
        if self.queue.len() == 0 {
            self
        } else if !self.peers.contains_key(self.queue[0]) {
            self.next_peer().serve_queue(frames_for)
        } else {
            let served = self.turn(frames_for(self.queue[0]));
            (PipelineState { queue: self.queue.drop_first(), produced: 0, ..served }).serve_queue(
                frames_for,
            )
        }
    }

    /// What a complete turn of peer `id` from the start of the block comes
    /// to: the peer's state moves on and its samples are added to the mix.
    pub open spec fn serve_peer(self, id: u32, frames: Seq<Seq<i16>>) -> PipelineState {
        if self.peers.contains_key(id) {
            let (peer, emitted) = self.peers[id].fill(self.mix.len(), self.max_jitter, frames);
            PipelineState {
                peers: self.peers.insert(id, peer),
                mix: mix_add(self.mix, 0, emitted),
                ..self
            }
        } else {
            self
        }
    }

    /// The peers of `order` are served one after the other.
    pub open spec fn serve_in_order(
        self,
        order: Seq<u32>,
        frames_for: spec_fn(u32) -> Seq<Seq<i16>>,
    ) -> PipelineState
        decreases order.len(),
    {
        if order.len() == 0 {
            self
        } else {
            self.serve_peer(order[0], frames_for(order[0])).serve_in_order(
                order.drop_first(),
                frames_for,
            )
        }
    }
}

/// A peer's turn keeps it well formed and puts no more samples into the
/// block than the block has room for.
pub proof fn lemma_fill(state: PeerState, room: nat, max: nat, frames: Seq<Seq<i16>>)
    requires
        state.wf(),
        frames_fit(frames),
    ensures
        state.fill(room, max, frames).0.wf(),
        state.fill(room, max, frames).1.len() <= room,
    decreases frames.len(),
{
    lemma_poll(state, room, max);
    let (polled, first, pick) = state.poll(room, max);
    if !(pick is Idle) && frames.len() > 0 {
        lemma_accept(polled, frames[0], (room - first.len()) as nat);
        let (taken, second) = polled.accept(frames[0], (room - first.len()) as nat);
        let rest = frames.drop_first();
        assert(frames_fit(rest)) by {
            assert forall|i: int| 0 <= i < rest.len() implies (#[trigger] rest[i]).len()
                <= MAX_BUFFER_SIZE by {
                assert(rest[i] == frames[i + 1]);
            }
        }
        lemma_fill(taken, (room - first.len() - second.len()) as nat, max, rest);
    }
}

/// The turn of the peer at the head of the queue, taken step by step,
/// moves that peer through its turn and adds the samples of the turn to
/// the mix behind those the peer has produced before.
pub proof fn lemma_turn(state: PipelineState, frames: Seq<Seq<i16>>)
    requires
        state.wf(),
        state.queue.len() > 0,
        state.peers.contains_key(state.queue[0]),
        frames_fit(frames),
    ensures
        ({
            let id = state.queue[0];
            let (peer, emitted) = state.peers[id].fill(
                (state.mix.len() - state.produced) as nat,
                state.max_jitter,
                frames,
            );
            state.turn(frames) == (PipelineState {
                peers: state.peers.insert(id, peer),
                mix: mix_add(state.mix, state.produced as int, emitted),
                produced: state.produced + emitted.len(),
                ..state
            })
        }),
    decreases frames.len(),
{
    let id = state.queue[0];
    let room = (state.mix.len() - state.produced) as nat;
    let (polled, pick) = state.poll_head();
    let (peer1, first, _pick) = state.peers[id].poll(room, state.max_jitter);
    lemma_poll(state.peers[id], room, state.max_jitter);
    crate::mixer::lemma_poll_head(state);
    if pick is Idle || frames.len() == 0 {
    } else {
        let taken = polled.accept(frames[0]);
        let (peer2, second) = peer1.accept(frames[0], (room - first.len()) as nat);
        lemma_accept(peer1, frames[0], (room - first.len()) as nat);
        crate::mixer::lemma_accept_decoded(polled, frames[0]);
        let rest = frames.drop_first();
        assert(frames_fit(rest)) by {
            assert forall|i: int| 0 <= i < rest.len() implies (#[trigger] rest[i]).len()
                <= MAX_BUFFER_SIZE by {
                assert(rest[i] == frames[i + 1]);
            }
        }
        assert(taken.peers =~= state.peers.insert(id, peer2));
        lemma_turn(taken, rest);
        let (peer3, third) = peer2.fill(
            (room - first.len() - second.len()) as nat,
            state.max_jitter,
            rest,
        );
        lemma_mix_add_append(state.mix, state.produced as int, first, second);
        lemma_mix_add_append(state.mix, state.produced as int, first + second, third);
        assert(taken.peers.insert(id, peer3) =~= state.peers.insert(id, peer3));
    }
}

/// Serving the queue turn by turn is serving its peers one after the
/// other, with the queue used up.
pub proof fn lemma_serve_queue(state: PipelineState, frames_for: spec_fn(u32) -> Seq<Seq<i16>>)
    requires
        state.wf(),
        state.produced == 0,
        forall|id: u32| frames_fit(#[trigger] frames_for(id)),
    ensures
        state.serve_queue(frames_for) == (PipelineState {
            queue: Seq::empty(),
            ..state.serve_in_order(state.queue, frames_for)
        }),
        state.serve_queue(frames_for).wf(),
    decreases state.queue.len(),
{
    if state.queue.len() == 0 {
        assert(state.queue =~= Seq::empty());
    } else {
        let id = state.queue[0];
        if !state.peers.contains_key(id) {
            let next = state.next_peer();
            lemma_serve_queue(next, frames_for);
            lemma_serve_in_order_queue(state, next, next.queue, frames_for);
        } else {
            lemma_turn(state, frames_for(id));
            lemma_fill(state.peers[id], state.mix.len(), state.max_jitter, frames_for(id));
            let turned = state.turn(frames_for(id));
            let next = PipelineState { queue: state.queue.drop_first(), produced: 0, ..turned };
            let served = state.serve_peer(id, frames_for(id));
            assert(next.wf()) by {
                assert(next.peers.dom() =~= state.peers.dom());
            }
            lemma_serve_queue(next, frames_for);
            lemma_serve_in_order_queue(served, next, next.queue, frames_for);
        }
    }
}

/// Serving peers in a given order touches the peers and the mix only, and
/// does not look at the queue or at the served peer's position.
pub proof fn lemma_serve_in_order_queue(
    a: PipelineState,
    b: PipelineState,
    order: Seq<u32>,
    frames_for: spec_fn(u32) -> Seq<Seq<i16>>,
)
    requires
        a.peers == b.peers,
        a.mix == b.mix,
        a.max_jitter == b.max_jitter,
    ensures
        a.serve_in_order(order, frames_for).peers == b.serve_in_order(order, frames_for).peers,
        a.serve_in_order(order, frames_for).mix == b.serve_in_order(order, frames_for).mix,
        a.serve_in_order(order, frames_for).max_jitter == a.max_jitter,
        b.serve_in_order(order, frames_for).max_jitter == b.max_jitter,
        a.serve_in_order(order, frames_for).queue == a.queue,
        a.serve_in_order(order, frames_for).produced == a.produced,
        b.serve_in_order(order, frames_for).queue == b.queue,
        b.serve_in_order(order, frames_for).produced == b.produced,
    decreases order.len(),
{
    if order.len() > 0 {
        lemma_serve_in_order_queue(
            a.serve_peer(order[0], frames_for(order[0])),
            b.serve_peer(order[0], frames_for(order[0])),
            order.drop_first(),
            frames_for,
        );
    }
}

/// Serving a peer keeps the pipeline well formed, leaves the other peers
/// alone, and moves no accumulator by more than the magnitude of a sample.
pub proof fn lemma_serve_peer(state: PipelineState, id: u32, frames: Seq<Seq<i16>>, bound: int)
    requires
        state.wf(),
        frames_fit(frames),
        mix_within(state.mix, bound),
        0 <= bound,
    ensures
        state.serve_peer(id, frames).wf(),
        state.serve_peer(id, frames).peers.dom() == state.peers.dom(),
        state.serve_peer(id, frames).mix.len() == state.mix.len(),
        state.serve_peer(id, frames).max_jitter == state.max_jitter,
        state.serve_peer(id, frames).queue == state.queue,
        state.serve_peer(id, frames).produced == state.produced,
        mix_within(state.serve_peer(id, frames).mix, bound + 0x8000),
        forall|other: u32|
            other != id ==> #[trigger] state.serve_peer(id, frames).peers[other]
                == state.peers[other],
{
    if state.peers.contains_key(id) {
        lemma_fill(state.peers[id], state.mix.len(), state.max_jitter, frames);
        let emitted = state.peers[id].fill(state.mix.len(), state.max_jitter, frames).1;
        lemma_mix_add_within(state.mix, 0, emitted, bound);
        assert(state.serve_peer(id, frames).peers.dom() =~= state.peers.dom());
    }
}

/// Two different peers may be served in either order.
pub proof fn lemma_serve_peer_commutes(
    state: PipelineState,
    a: u32,
    frames_a: Seq<Seq<i16>>,
    b: u32,
    frames_b: Seq<Seq<i16>>,
)
    requires
        state.wf(),
        a != b,
        frames_fit(frames_a),
        frames_fit(frames_b),
        mix_within(state.mix, 0x7ffe_0000),
    ensures
        state.serve_peer(a, frames_a).serve_peer(b, frames_b) == state.serve_peer(
            b,
            frames_b,
        ).serve_peer(a, frames_a),
{
    lemma_serve_peer(state, a, frames_a, 0x7ffe_0000);
    lemma_serve_peer(state, b, frames_b, 0x7ffe_0000);
    let ab = state.serve_peer(a, frames_a).serve_peer(b, frames_b);
    let ba = state.serve_peer(b, frames_b).serve_peer(a, frames_a);
    let emitted_a = state.peers[a].fill(state.mix.len(), state.max_jitter, frames_a).1;
    let emitted_b = state.peers[b].fill(state.mix.len(), state.max_jitter, frames_b).1;
    lemma_mix_add_commutes(state.mix, 0, emitted_a, 0, emitted_b);
    assert(ab.peers =~= ba.peers);
    assert(ab.mix == ba.mix);
}

/// Serving a series of peers is serving the first and then the others.
proof fn lemma_serve_first(
    state: PipelineState,
    order: Seq<u32>,
    frames_for: spec_fn(u32) -> Seq<Seq<i16>>,
)
    requires
        order.len() > 0,
    ensures
        state.serve_in_order(order, frames_for) == state.serve_peer(
            order[0],
            frames_for(order[0]),
        ).serve_in_order(order.drop_first(), frames_for),
{
}

/// The peer at position `j` of the order may as well be served first.
pub proof fn lemma_move_to_front(
    state: PipelineState,
    order: Seq<u32>,
    j: int,
    frames_for: spec_fn(u32) -> Seq<Seq<i16>>,
    bound: int,
)
    requires
        state.wf(),
        order.no_duplicates(),
        0 <= j < order.len(),
        forall|id: u32| frames_fit(#[trigger] frames_for(id)),
        mix_within(state.mix, bound),
        0 <= bound,
        bound + 0x8000 * order.len() <= 0x7fff_0000,
    ensures
        state.serve_in_order(order, frames_for) == state.serve_in_order(
            seq![order[j]] + order.remove(j),
            frames_for,
        ),
    decreases j,
{
    if j == 0 {
        assert(seq![order[0]] + order.remove(0) =~= order);
    } else {
        let x = order[0];
        let y = order[j];
        let rest = order.drop_first();
        let after_x = state.serve_peer(x, frames_for(x));
        lemma_serve_peer(state, x, frames_for(x), bound);
        assert(rest.no_duplicates()) by {
            assert forall|p: int, q: int| 0 <= p < rest.len() && 0 <= q < rest.len() && p != q implies rest[p]
                != rest[q] by {
                assert(rest[p] == order[p + 1] && rest[q] == order[q + 1]);
            }
        }
        assert(rest[j - 1] == y);
        lemma_move_to_front(after_x, rest, j - 1, frames_for, bound + 0x8000);
        let tail = rest.remove(j - 1);
        let moved = seq![y] + tail;
        assert(moved.drop_first() =~= tail);
        assert(moved[0] == y);
        // Served x, then y, then the others ...
        lemma_serve_first(state, order, frames_for);
        lemma_serve_first(after_x, moved, frames_for);
        assert(state.serve_in_order(order, frames_for) == after_x.serve_peer(
            y,
            frames_for(y),
        ).serve_in_order(tail, frames_for));
        // ... which is y, then x, then the others.
        assert(mix_within(state.mix, 0x7ffe_0000));
        lemma_serve_peer_commutes(state, x, frames_for(x), y, frames_for(y));
        let target = seq![y] + order.remove(j);
        let others = order.remove(j);
        assert(target[0] == y);
        assert(target.drop_first() =~= others);
        assert(others[0] == x);
        assert(others.drop_first() =~= tail);
        lemma_serve_first(state, target, frames_for);
        lemma_serve_first(state.serve_peer(y, frames_for(y)), others, frames_for);
    }
}

/// Two orders that list the same peers, each once, give the same result.
pub proof fn lemma_order_irrelevant(
    state: PipelineState,
    first: Seq<u32>,
    second: Seq<u32>,
    frames_for: spec_fn(u32) -> Seq<Seq<i16>>,
    bound: int,
)
    requires
        state.wf(),
        first.no_duplicates(),
        second.no_duplicates(),
        first.to_set() == second.to_set(),
        forall|id: u32| frames_fit(#[trigger] frames_for(id)),
        mix_within(state.mix, bound),
        0 <= bound,
        bound + 0x8000 * first.len() <= 0x7fff_0000,
    ensures
        state.serve_in_order(first, frames_for) == state.serve_in_order(second, frames_for),
    decreases first.len(),
{
    first.unique_seq_to_set();
    second.unique_seq_to_set();
    if first.len() == 0 {
        assert(first =~= second);
    } else {
        let x = first[0];
        assert(first.to_set().contains(x));
        assert(second.contains(x));
        let j = choose|j: int| 0 <= j < second.len() && second[j] == x;
        lemma_move_to_front(state, second, j, frames_for, bound);
        let moved = seq![x] + second.remove(j);
        assert(moved[0] == x);
        assert(moved.drop_first() =~= second.remove(j));
        lemma_serve_first(state, moved, frames_for);
        lemma_serve_first(state, first, frames_for);
        let rest_first = first.drop_first();
        let rest_second = second.remove(j);
        assert(rest_first.no_duplicates()) by {
            assert forall|p: int, q: int|
                0 <= p < rest_first.len() && 0 <= q < rest_first.len() && p != q implies rest_first[p]
                != rest_first[q] by {
                assert(rest_first[p] == first[p + 1] && rest_first[q] == first[q + 1]);
            }
        }
        assert(rest_second.no_duplicates()) by {
            assert forall|p: int, q: int|
                0 <= p < rest_second.len() && 0 <= q < rest_second.len() && p != q implies rest_second[p]
                != rest_second[q] by {
                let pp = if p < j { p } else { p + 1 };
                let qq = if q < j { q } else { q + 1 };
                assert(rest_second[p] == second[pp] && rest_second[q] == second[qq]);
            }
        }
        assert(rest_first.to_set() =~= rest_second.to_set()) by {
            assert forall|id: u32| rest_first.to_set().contains(id) implies rest_second.to_set().contains(
                id,
            ) by {
                let p = choose|p: int| 0 <= p < rest_first.len() && rest_first[p] == id;
                assert(first[p + 1] == id);
                assert(first.to_set().contains(id));
                assert(second.contains(id));
                let q = choose|q: int| 0 <= q < second.len() && second[q] == id;
                assert(q != j);
                let qq = if q < j { q } else { q - 1 };
                assert(rest_second[qq] == id);
            }
            assert forall|id: u32| rest_second.to_set().contains(id) implies rest_first.to_set().contains(
                id,
            ) by {
                let q = choose|q: int| 0 <= q < rest_second.len() && rest_second[q] == id;
                let qq = if q < j { q } else { q + 1 };
                assert(second[qq] == id);
                assert(second.to_set().contains(id));
                assert(first.contains(id));
                let p = choose|p: int| 0 <= p < first.len() && first[p] == id;
                assert(p != 0);
                assert(rest_first[p - 1] == id);
            }
        }
        let after_x = state.serve_peer(x, frames_for(x));
        lemma_serve_peer(state, x, frames_for(x), bound);
        lemma_order_irrelevant(after_x, rest_first, rest_second, frames_for, bound + 0x8000);
    }
}

/// The order in which the peer table hands out the peers does not show in
/// the block: with fewer than 65535 peers, any two service orders lead to
/// the same mix and leave every peer in the same state.
pub proof fn lemma_service_order_irrelevant(
    state: PipelineState,
    len: nat,
    first: Seq<u32>,
    second: Seq<u32>,
    frames_for: spec_fn(u32) -> Seq<Seq<i16>>,
)
    requires
        state.wf(),
        state.is_service_order(first),
        state.is_service_order(second),
        forall|id: u32| frames_fit(#[trigger] frames_for(id)),
        first.len() < 0xffff,
    ensures
        state.begin_block(len, first).serve_queue(frames_for) == state.begin_block(
            len,
            second,
        ).serve_queue(frames_for),
{
    let begun_first = state.begin_block(len, first);
    let begun_second = state.begin_block(len, second);
    crate::block::lemma_step_wf(
        state,
        crate::block::PipelineEvent::BeginBlock { len, order: first },
    );
    crate::block::lemma_step_wf(
        state,
        crate::block::PipelineEvent::BeginBlock { len, order: second },
    );
    lemma_serve_queue(begun_first, frames_for);
    lemma_serve_queue(begun_second, frames_for);
    assert(mix_within(begun_first.mix, 0));
    assert(0x8000 * first.len() <= 0x7fff_0000) by (nonlinear_arith)
        requires
            first.len() < 0xffff,
    ;
    lemma_order_irrelevant(begun_first, first, second, frames_for, 0);
    lemma_serve_in_order_queue(begun_first, begun_second, second, frames_for);
}

/// What peers put into a block depends on their own state, on the length
/// of the block and on the jitter bound only.
proof fn lemma_sum_at_depends_on_peers(
    a: PipelineState,
    b: PipelineState,
    order: Seq<u32>,
    frames_for: spec_fn(u32) -> Seq<Seq<i16>>,
    i: int,
)
    requires
        a.mix.len() == b.mix.len(),
        a.max_jitter == b.max_jitter,
        a.peers.dom() == b.peers.dom(),
        forall|k: int| 0 <= k < order.len() ==> a.peers[#[trigger] order[k]] == b.peers[order[k]],
    ensures
        a.sum_at(order, frames_for, i) == b.sum_at(order, frames_for, i),
    decreases order.len(),
{
    if order.len() > 0 {
        let rest = order.drop_first();
        assert(a.peers[order[0]] == b.peers[order[0]]);
        assert forall|k: int| 0 <= k < rest.len() implies a.peers[#[trigger] rest[k]]
            == b.peers[rest[k]] by {
            assert(rest[k] == order[k + 1]);
        }
        lemma_sum_at_depends_on_peers(a, b, rest, frames_for, i);
    }
}

/// While the accumulators stay inside the 32-bit range, serving a series
/// of peers, each once, adds to every accumulator the sum of what the
/// peers put in at its position.
pub proof fn lemma_mix_is_sum(
    state: PipelineState,
    order: Seq<u32>,
    frames_for: spec_fn(u32) -> Seq<Seq<i16>>,
    bound: int,
)
    requires
        state.wf(),
        order.no_duplicates(),
        forall|id: u32| frames_fit(#[trigger] frames_for(id)),
        mix_within(state.mix, bound),
        0 <= bound,
        bound + 0x8000 * order.len() <= 0x7fff_0000,
    ensures
        state.serve_in_order(order, frames_for).mix.len() == state.mix.len(),
        forall|i: int|
            0 <= i < state.mix.len() ==> #[trigger] state.serve_in_order(order, frames_for).mix[i]
                == state.mix[i] + state.sum_at(order, frames_for, i),
    decreases order.len(),
{
    if order.len() > 0 {
        let x = order[0];
        let rest = order.drop_first();
        let after = state.serve_peer(x, frames_for(x));
        lemma_serve_first(state, order, frames_for);
        lemma_serve_peer(state, x, frames_for(x), bound);
        lemma_mix_add_exact(state.mix, 0, state.contribution(x, frames_for(x)));
        assert(rest.no_duplicates()) by {
            assert forall|p: int, q: int| 0 <= p < rest.len() && 0 <= q < rest.len() && p != q implies rest[p]
                != rest[q] by {
                assert(rest[p] == order[p + 1] && rest[q] == order[q + 1]);
            }
        }
        lemma_mix_is_sum(after, rest, frames_for, bound + 0x8000);
        assert forall|i: int| 0 <= i < state.mix.len() implies #[trigger] state.serve_in_order(
            order,
            frames_for,
        ).mix[i] == state.mix[i] + state.sum_at(order, frames_for, i) by {
            assert forall|k: int| 0 <= k < rest.len() implies after.peers[#[trigger] rest[k]]
                == state.peers[rest[k]] by {
                assert(rest[k] == order[k + 1]);
                assert(order[k + 1] != order[0]);
            }
            lemma_sum_at_depends_on_peers(after, state, rest, frames_for, i);
            assert(after.mix[i] == state.mix[i] + sample_at(
                state.contribution(x, frames_for(x)),
                i,
            ));
        }
    }
}

/// With fewer than 65535 peers, every accumulator of a served block holds
/// the sum of what the peers put in at its position, a peer that put in
/// nothing there counting as silence. The output block is that sum
/// clamped to 16 bits.
pub proof fn lemma_block_is_sum(
    state: PipelineState,
    len: nat,
    order: Seq<u32>,
    frames_for: spec_fn(u32) -> Seq<Seq<i16>>,
)
    requires
        state.wf(),
        state.is_service_order(order),
        forall|id: u32| frames_fit(#[trigger] frames_for(id)),
        order.len() < 0xffff,
    ensures
        ({
            let begun = state.begin_block(len, order);
            let served = begun.serve_queue(frames_for);
            &&& served.mix.len() == len
            &&& forall|i: int|
                0 <= i < len ==> #[trigger] served.mix[i] == begun.sum_at(order, frames_for, i)
        }),
{
    let begun = state.begin_block(len, order);
    crate::block::lemma_step_wf(state, crate::block::PipelineEvent::BeginBlock { len, order });
    lemma_serve_queue(begun, frames_for);
    assert(mix_within(begun.mix, 0));
    assert(0x8000 * order.len() <= 0x7fff_0000) by (nonlinear_arith)
        requires
            order.len() < 0xffff,
    ;
    lemma_mix_is_sum(begun, order, frames_for, 0);
}

/// Asking for jobs and handing in the frames of the served peer's turn,
/// one by one, carries the pipeline through that turn and on to the next
/// peer.
proof fn lemma_jobs_follow_turn(
    state: PipelineState,
    frames: Seq<Seq<i16>>,
    rest: Seq<Seq<i16>>,
)
    requires
        state.wf(),
        state.queue.len() > 0,
        state.peers.contains_key(state.queue[0]),
        frames_fit(frames),
        state.turn_is_exact(frames),
    ensures
        state.serve(frames + rest) == (PipelineState {
            queue: state.queue.drop_first(),
            produced: 0,
            ..state.turn(frames)
        }).serve(rest),
    decreases frames.len(),
{
    crate::mixer::lemma_poll_head(state);
    let (polled, pick) = state.poll_head();
    if frames.len() == 0 {
        assert(frames + rest =~= rest);
        let next = PipelineState { queue: state.queue.drop_first(), produced: 0, ..polled };
        assert(next == polled.next_peer());
        assert(state.next_job() == next.next_job());
    } else {
        let all = frames + rest;
        assert(all[0] == frames[0]);
        assert(all.drop_first() =~= frames.drop_first() + rest);
        let taken = polled.accept(frames[0]);
        crate::mixer::lemma_accept_decoded(polled, frames[0]);
        let later = frames.drop_first();
        assert(frames_fit(later)) by {
            assert forall|i: int| 0 <= i < later.len() implies (#[trigger] later[i]).len()
                <= MAX_BUFFER_SIZE by {
                assert(later[i] == frames[i + 1]);
            }
        }
        lemma_jobs_follow_turn(taken, later, rest);
    }
}

/// The job protocol serves the queue peer after peer: when jobs are asked
/// for one after the other and every job is answered by the decoder of
/// the peer it is for, the pipeline ends where serving the peers in queue
/// order ends, with the block complete.
pub proof fn lemma_jobs_follow_queue(
    state: PipelineState,
    frames_for: spec_fn(u32) -> Seq<Seq<i16>>,
)
    requires
        state.wf(),
        forall|id: u32| frames_fit(#[trigger] frames_for(id)),
        state.queue_is_exact(frames_for),
    ensures
        state.serve(frames_in_order(state.peers.dom(), state.queue, frames_for)) == (
            state.serve_queue(frames_for),
            true,
        ),
    decreases state.queue.len(),
{
    let known = state.peers.dom();
    if state.queue.len() == 0 {
    } else if !state.peers.contains_key(state.queue[0]) {
        let next = state.next_peer();
        lemma_jobs_follow_queue(next, frames_for);
        assert(state.next_job() == next.next_job());
    } else {
        let id = state.queue[0];
        let frames = frames_for(id);
        let rest = frames_in_order(known, state.queue.drop_first(), frames_for);
        lemma_turn(state, frames);
        lemma_fill(
            state.peers[id],
            (state.mix.len() - state.produced) as nat,
            state.max_jitter,
            frames,
        );
        let next = PipelineState {
            queue: state.queue.drop_first(),
            produced: 0,
            ..state.turn(frames)
        };
        assert(next.peers.dom() =~= known);
        assert(next.wf());
        lemma_jobs_follow_turn(state, frames, rest);
        lemma_jobs_follow_queue(next, frames_for);
    }
}

} // verus!
