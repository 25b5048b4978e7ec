//! What holds of the output pipeline over whole blocks and over series of
//! blocks: a block takes finitely many decode jobs, the jitter buffers stay
//! within their bound, and peers that have fallen silent are dropped.

use crate::config::{MAX_BUFFER_SIZE, PEER_SILENCE_LIMIT};
use crate::jitter::{lemma_advance_uses_up, PeerState};
use crate::mixer::{lemma_accept_decoded, lemma_next_job, lemma_poll_head, PipelineState};
use vstd::prelude::*;

verus! {

/// Something that happens to the output pipeline.
pub enum PipelineEvent {
    /// A packet arrived.
    Packet { origin_id: u32, seq: u16, payload: Seq<u8> },
    /// A block of `len` samples began; the peers queued up in `order`.
    BeginBlock { len: nat, order: Seq<u32> },
    /// The next decode job was asked for.
    NextJob,
    /// The decoder's output for the last job was handed in.
    Decoded { samples: Seq<i16> },
    /// The block ended.
    FinishBlock,
}

impl PipelineEvent {
    /// Decoded frames fit the scratch buffers.
    pub open spec fn wf(self) -> bool {
        self matches PipelineEvent::Decoded { samples } ==> samples.len() <= MAX_BUFFER_SIZE
    }

    /// The event is the arrival of a packet from `id`.
    pub open spec fn is_packet_from(self, id: u32) -> bool {
        self matches PipelineEvent::Packet { origin_id, .. } && origin_id == id
    }
}

/// Number of blocks ended in a series of events.
pub open spec fn blocks_ended(events: Seq<PipelineEvent>) -> nat
    decreases events.len(),
{
    if events.len() == 0 {
        0
    } else if events.last() is FinishBlock {
        blocks_ended(events.drop_last()) + 1
    } else {
        blocks_ended(events.drop_last())
    }
}

impl PipelineState {
    /// The effect of one event.
    pub open spec fn step(self, event: PipelineEvent) -> PipelineState {
        match event {
            PipelineEvent::Packet { origin_id, seq, payload } => self.ingest(
                origin_id,
                seq,
                payload,
            ),
            PipelineEvent::BeginBlock { len, order } => self.begin_block(len, order),
            PipelineEvent::NextJob => self.next_job().0,
            PipelineEvent::Decoded { samples } => self.accept(samples),
            PipelineEvent::FinishBlock => self.finish_block(),
        }
    }

    /// The effect of a series of events.
    pub open spec fn run(self, events: Seq<PipelineEvent>) -> PipelineState
        decreases events.len(),
    {
        if events.len() == 0 {
            self
        } else {
            self.run(events.drop_last()).step(events.last())
        }
    }

    /// The block is served: jobs are asked for one after the other, and the
    /// decoder answers each with the next of `frames`. The result says
    /// whether the block was completed, which it is not if the frames run
    /// out first.
    pub open spec fn serve(self, frames: Seq<Seq<i16>>) -> (PipelineState, bool)
        decreases frames.len(),
    {
        let (state, job) = self.next_job();
        if job is Done {
            (state, true)
        } else if frames.len() == 0 {
            (state, false)
        } else {
            state.accept(frames[0]).serve(frames.drop_first())
        }
    }

    /// Packets held by the peer being served.
    pub open spec fn head_held(self) -> nat {
        if self.queue.len() > 0 && self.peers.contains_key(self.queue[0]) {
            self.peers[self.queue[0]].held()
        } else {
            0
        }
    }

    /// Steps from the served peer's playout position to the nearest packet
    /// it holds within the look-ahead window.
    pub open spec fn head_gap(self) -> nat {
        if self.queue.len() > 0 && self.peers.contains_key(self.queue[0]) {
            self.peers[self.queue[0]].gap()
        } else {
            0
        }
    }

    /// The pipeline is nearer the end of the block than it was in state
    /// `before`: fewer peers are queued; or else the served peer holds
    /// fewer packets; or else the served peer is nearer to its next packet.
    pub open spec fn nearer_done(self, before: PipelineState) -> bool {
        ||| self.queue.len() < before.queue.len()
        ||| self.queue.len() == before.queue.len() && self.head_held() < before.head_held()
        ||| self.queue.len() == before.queue.len() && self.head_held() == before.head_held()
            && self.head_gap() < before.head_gap()
    }

    /// Peer `id` is known and holds no more packets than the bound allows.
    pub open spec fn settled(self, id: u32) -> bool {
        self.peers.contains_key(id) && self.peers[id].held() <= self.max_jitter
    }

    /// Peer `id` waits for its turn in the block, and its leftover samples
    /// will not fill the block.
    pub open spec fn pending(self, id: u32) -> bool {
        &&& self.peers.contains_key(id)
        &&& self.queue.contains(id)
        &&& self.peers[id].leftover.len() < self.mix.len()
        &&& (self.queue[0] == id ==> self.produced == 0)
    }

    /// Peer `id` is gone, or within the bound, or yet to be served.
    pub open spec fn bounded_or_pending(self, id: u32) -> bool {
        !self.peers.contains_key(id) || self.settled(id) || self.pending(id)
    }
}

/// A job that is handed out has brought the pipeline nearer the end of
/// the block.
pub proof fn lemma_next_job_makes_progress(state: PipelineState)
    requires
        state.wf(),
        !(state.next_job().1 is Done),
    ensures
        state.next_job().0.nearer_done(state),
    decreases state.queue.len(),
{
    if state.queue.len() == 0 {
    } else if !state.peers.contains_key(state.queue[0]) {
        lemma_next_job_makes_progress(state.next_peer());
    } else {
        lemma_poll_head(state);
        let id = state.queue[0];
        let (polled, pick) = state.poll_head();
        if pick is Idle {
            lemma_next_job_makes_progress(polled.next_peer());
        } else {
            let room = (state.mix.len() - state.produced) as nat;
            let drained = state.peers[id].drain(room).0;
            lemma_advance_uses_up(drained, state.max_jitter);
            assert(drained.gap() == state.peers[id].gap()) by {
                lemma_gap_ignores_leftover(state.peers[id], drained, 0);
            }
        }
    }
}

/// The way to the nearest packet ahead depends on the jitter buffer and
/// the playout position only.
proof fn lemma_gap_ignores_leftover(a: PeerState, b: PeerState, from: nat)
    requires
        a.jitter == b.jitter,
        a.next_expected == b.next_expected,
    ensures
        a.scan_ahead(from) == b.scan_ahead(from),
    decreases crate::config::JITTER_LOOKAHEAD_WINDOW - from,
{
    if from < crate::config::JITTER_LOOKAHEAD_WINDOW && !a.jitter.contains_key(
        crate::sequence::seq_advance(a.horizon(), from),
    ) {
        lemma_gap_ignores_leftover(a, b, from + 1);
    }
}

/// Every round of the job protocol brings the pipeline nearer the end of
/// the block: after a job has been handed out and its frame handed in,
/// fewer peers are queued, or the served peer holds fewer packets, or it
/// is nearer to its next packet. None of the three can shrink for ever,
/// so a block takes finitely many jobs, whatever the decoder returns.
pub proof fn lemma_job_makes_progress(state: PipelineState, decoded: Seq<i16>)
    requires
        state.wf(),
        decoded.len() <= MAX_BUFFER_SIZE,
        !(state.next_job().1 is Done),
    ensures
        state.next_job().0.accept(decoded).nearer_done(state),
{
    lemma_next_job(state);
    lemma_next_job_makes_progress(state);
    let polled = state.next_job().0;
    lemma_accept_decoded(polled, decoded);
    let taken = polled.accept(decoded);
    let id = polled.queue[0];
    lemma_gap_ignores_leftover(polled.peers[id], taken.peers[id], 0);
    assert(taken.peers[id].next_expected == polled.peers[id].next_expected) by {
        crate::jitter::lemma_accept(
            polled.peers[id],
            decoded,
            (polled.mix.len() - polled.produced) as nat,
        );
    }
}

/// Every event keeps the pipeline well formed.
pub proof fn lemma_step_wf(state: PipelineState, event: PipelineEvent)
    requires
        state.wf(),
        event.wf(),
    ensures
        state.step(event).wf(),
{
    match event {
        PipelineEvent::Packet { origin_id, seq, payload } => {
            let next = state.ingest(origin_id, seq, payload);
            assert(next.peers.dom() =~= state.peers.dom().insert(origin_id));
        },
        PipelineEvent::BeginBlock { len, order } => {},
        PipelineEvent::NextJob => {
            lemma_next_job(state);
        },
        PipelineEvent::Decoded { samples } => {
            lemma_accept_decoded(state, samples);
        },
        PipelineEvent::FinishBlock => {
            let next = state.finish_block();
            let ticked = state.peers.map_values(|peer: PeerState| peer.tick());
            assert(ticked.dom() =~= state.peers.dom());
            assert(next.peers.dom() =~= state.peers.dom().difference(state.expiring_peers()));
        },
    }
}

/// Every series of events keeps the pipeline well formed.
pub proof fn lemma_run_wf(state: PipelineState, events: Seq<PipelineEvent>)
    requires
        state.wf(),
        forall|i: int| 0 <= i < events.len() ==> (#[trigger] events[i]).wf(),
    ensures
        state.run(events).wf(),
    decreases events.len(),
{
    if events.len() > 0 {
        lemma_run_wf(state, events.drop_last());
        lemma_step_wf(state.run(events.drop_last()), events.last());
    }
}

/// While no packet arrives from a peer, the peer is not revived once it
/// is dropped, and as long as it is kept its silence counter has grown by
/// the number of blocks ended and has not passed the limit.
pub proof fn lemma_silence_grows(state: PipelineState, events: Seq<PipelineEvent>, id: u32)
    requires
        state.wf(),
        forall|i: int|
            0 <= i < events.len() ==> (#[trigger] events[i]).wf() && !events[i].is_packet_from(id),
    ensures
        !state.peers.contains_key(id) ==> !state.run(events).peers.contains_key(id),
        state.run(events).peers.contains_key(id) ==> {
            &&& state.run(events).peers[id].silence == state.peers[id].silence + blocks_ended(
                events,
            )
            &&& (blocks_ended(events) > 0 ==> state.run(events).peers[id].silence
                <= PEER_SILENCE_LIMIT)
        },
    decreases events.len(),
{
    if events.len() > 0 {
        let before = state.run(events.drop_last());
        lemma_silence_grows(state, events.drop_last(), id);
        lemma_run_wf(state, events.drop_last());
        match events.last() {
            PipelineEvent::Packet { origin_id, seq, payload } => {},
            PipelineEvent::BeginBlock { len, order } => {},
            PipelineEvent::NextJob => {
                lemma_next_job(before);
            },
            PipelineEvent::Decoded { samples } => {
                lemma_accept_decoded(before, samples);
            },
            PipelineEvent::FinishBlock => {},
        }
    }
}

/// A peer from which no packet arrives is dropped: once its silence
/// counter, plus the number of blocks ended since, has passed the limit,
/// the peer is gone.
pub proof fn lemma_silent_peer_is_dropped(
    state: PipelineState,
    events: Seq<PipelineEvent>,
    id: u32,
)
    requires
        state.wf(),
        forall|i: int|
            0 <= i < events.len() ==> (#[trigger] events[i]).wf() && !events[i].is_packet_from(id),
        blocks_ended(events) > 0,
        state.peers.contains_key(id) ==> state.peers[id].silence + blocks_ended(events)
            > PEER_SILENCE_LIMIT,
    ensures
        !state.run(events).peers.contains_key(id),
{
    lemma_silence_grows(state, events, id);
}

/// A peer that is heard from in time is kept: the end of a block leaves a
/// peer in place, one block older, unless the block takes its silence
/// counter past the limit.
pub proof fn lemma_heard_peer_is_kept(state: PipelineState, id: u32)
    requires
        state.peers.contains_key(id),
        state.peers[id].silence < PEER_SILENCE_LIMIT,
    ensures
        state.finish_block().peers.contains_key(id),
        state.finish_block().peers[id] == state.peers[id].tick(),
        state.finish_block().peers[id].silence == state.peers[id].silence + 1,
{
}

/// Serving a block keeps the pipeline well formed, drops and adds no
/// peer, and changes no silence counter.
pub proof fn lemma_serve(state: PipelineState, frames: Seq<Seq<i16>>)
    requires
        state.wf(),
        forall|i: int| 0 <= i < frames.len() ==> (#[trigger] frames[i]).len() <= MAX_BUFFER_SIZE,
    ensures
        state.serve(frames).0.wf(),
        state.serve(frames).0.peers.dom() == state.peers.dom(),
        state.serve(frames).0.max_jitter == state.max_jitter,
        state.serve(frames).0.mix.len() == state.mix.len(),
        forall|id: u32|
            state.peers.contains_key(id) ==> (#[trigger] state.serve(frames).0.peers[id]).silence
                == state.peers[id].silence,
        state.serve(frames).1 ==> state.serve(frames).0.queue.len() == 0,
    decreases frames.len(),
{
    lemma_next_job(state);
    let (polled, job) = state.next_job();
    if !(job is Done) && frames.len() > 0 {
        lemma_accept_decoded(polled, frames[0]);
        let rest = frames.drop_first();
        assert forall|i: int| 0 <= i < rest.len() implies (#[trigger] rest[i]).len()
            <= MAX_BUFFER_SIZE by {
            assert(rest[i] == frames[i + 1]);
        }
        lemma_serve(polled.accept(frames[0]), rest);
    }
}

/// A peer that is within the bound or yet to be served is so still after
/// the next job has been asked for, and it is within the bound if the job
/// is its own.
pub proof fn lemma_next_job_bounds(state: PipelineState, id: u32)
    requires
        state.wf(),
        state.bounded_or_pending(id),
    ensures
        state.next_job().0.bounded_or_pending(id),
        !(state.next_job().1 is Done) && state.next_job().0.queue[0] == id
            ==> state.next_job().0.settled(id),
    decreases state.queue.len(),
{
    if state.queue.len() == 0 {
    } else if !state.peers.contains_key(state.queue[0]) {
        let next = state.next_peer();
        if state.pending(id) {
            let i = choose|i: int| 0 <= i < state.queue.len() && state.queue[i] == id;
            assert(next.queue[i - 1] == id);
        }
        lemma_next_job_bounds(next, id);
    } else {
        lemma_poll_head(state);
        let (polled, pick) = state.poll_head();
        assert(polled.bounded_or_pending(id));
        if pick is Idle {
            let next = polled.next_peer();
            if polled.pending(id) && !polled.settled(id) {
                let i = choose|i: int| 0 <= i < polled.queue.len() && polled.queue[i] == id;
                assert(next.queue[i - 1] == id);
            }
            assert(next.wf());
            lemma_next_job_bounds(next, id);
        }
    }
}

/// A peer that is within the bound or yet to be served before a block is
/// served is within the bound once the block is complete.
pub proof fn lemma_serve_bounds(state: PipelineState, frames: Seq<Seq<i16>>, id: u32)
    requires
        state.wf(),
        state.bounded_or_pending(id),
        forall|i: int| 0 <= i < frames.len() ==> (#[trigger] frames[i]).len() <= MAX_BUFFER_SIZE,
    ensures
        state.serve(frames).0.bounded_or_pending(id),
        state.serve(frames).1 && state.serve(frames).0.peers.contains_key(id) ==> state.serve(
            frames,
        ).0.settled(id),
    decreases frames.len(),
{
    lemma_next_job(state);
    lemma_next_job_bounds(state, id);
    let (polled, job) = state.next_job();
    if job is Done {
    } else if frames.len() == 0 {
    } else {
        lemma_accept_decoded(polled, frames[0]);
        let taken = polled.accept(frames[0]);
        assert(taken.bounded_or_pending(id));
        let rest = frames.drop_first();
        assert forall|i: int| 0 <= i < rest.len() implies (#[trigger] rest[i]).len()
            <= MAX_BUFFER_SIZE by {
            assert(rest[i] == frames[i + 1]);
        }
        lemma_serve_bounds(taken, rest, id);
    }
}

/// After every block that is served to completion, a peer whose leftover
/// samples did not fill the block holds no more packets than the bound
/// allows.
pub proof fn lemma_block_bounds_jitter(
    state: PipelineState,
    len: nat,
    order: Seq<u32>,
    frames: Seq<Seq<i16>>,
    id: u32,
)
    requires
        state.wf(),
        state.is_service_order(order),
        forall|i: int| 0 <= i < frames.len() ==> (#[trigger] frames[i]).len() <= MAX_BUFFER_SIZE,
        state.begin_block(len, order).serve(frames).1,
        state.peers.contains_key(id),
        state.peers[id].leftover.len() < len,
    ensures
        ({
            let end = state.begin_block(len, order).serve(frames).0.finish_block();
            end.peers.contains_key(id) ==> end.peers[id].held() <= state.max_jitter
        }),
{
    let begun = state.begin_block(len, order);
    lemma_step_wf(state, PipelineEvent::BeginBlock { len, order });
    lemma_serve(begun, frames);
    assert(order.to_set().contains(id));
    assert(begun.pending(id));
    lemma_serve_bounds(begun, frames, id);
}

} // verus!
