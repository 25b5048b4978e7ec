//! The output pipeline: inbound packets are sorted to their peers, every
//! peer is served in turn while an output block is filled, the mixed block
//! is clamped to 16 bits, and peers that have fallen silent are dropped.
//!
//! Decoding is not done here. While a block is being filled the pipeline
//! hands out one decode job at a time; the caller runs the codec and gives
//! the decoded samples back. One output block is produced like this:
//!
//! 1. [`OutputPipeline::ingest`] every packet that has arrived;
//! 2. [`OutputPipeline::begin_block`] with the length of the block;
//! 3. ask for [`OutputPipeline::next_job`]; unless it is
//!    [`DecodeJob::Done`], run the decoder of the peer it names and hand
//!    the samples to [`OutputPipeline::accept_decoded`]; repeat;
//! 4. [`OutputPipeline::finish_block`] with the device's buffer.
//!
//! [`PipelineState`] describes the pipeline mathematically; every
//! operation is specified as one of its transitions.

use crate::config::MAX_BUFFER_SIZE;
use crate::jitter::{lemma_accept, lemma_poll, PeerState, Pick};
use crate::mix::{clamp_all, finalize, mix_add, silence, silent_mix};
use crate::peer::{PeerStream, Selection};
use std::collections::hash_map::Entry;
use std::collections::HashMap;
use vstd::prelude::*;
use vstd::std_specs::iter::IteratorSpec;

verus! {

/// A decode job, as the state machine sees it.
pub enum Job {
    /// Decode `payload` with the decoder of `peer`.
    Decode { peer: u32, payload: Seq<u8> },
    /// Let the decoder of `peer` conceal a lost packet.
    Conceal { peer: u32 },
    /// The block is complete.
    Done,
}

/// State of the output pipeline.
pub struct PipelineState {
    /// The peers heard from and not yet dropped, by origin id.
    pub peers: Map<u32, PeerState>,
    /// Packets the jitter buffer of one peer may hold.
    pub max_jitter: nat,
    /// Accumulators of the block being filled.
    pub mix: Seq<i32>,
    /// Peers still to be served in this block; the first is being served.
    pub queue: Seq<u32>,
    /// Samples of the block that the peer being served has produced.
    pub produced: nat,
}

impl PipelineState {
    /// A pipeline without peers and without a block.
    pub open spec fn fresh(max_jitter: nat) -> PipelineState {
        PipelineState {
            peers: Map::empty(),
            max_jitter,
            mix: Seq::empty(),
            queue: Seq::empty(),
            produced: 0,
        }
    }

    /// Every peer is well formed and the served peer has not produced more
    /// than a block.
    pub open spec fn wf(self) -> bool {
        &&& self.peers.dom().finite()
        &&& forall|id: u32| self.peers.contains_key(id) ==> (#[trigger] self.peers[id]).wf()
        &&& self.produced <= self.mix.len()
    }

    /// The state of peer `id`, which is that of a new peer if `id` has not
    /// been heard from.
    pub open spec fn peer_or_fresh(self, id: u32) -> PeerState {
        if self.peers.contains_key(id) {
            self.peers[id]
        } else {
            PeerState::fresh()
        }
    }

    /// A packet arrives: it goes to its sender's jitter buffer; a sender
    /// not heard from before becomes a new peer.
    pub open spec fn ingest(self, origin_id: u32, seq: u16, payload: Seq<u8>) -> PipelineState {
        PipelineState {
            peers: self.peers.insert(origin_id, self.peer_or_fresh(origin_id).insert(seq, payload)),
            ..self
        }
    }

    /// `order` lists every peer once.
    pub open spec fn is_service_order(self, order: Seq<u32>) -> bool {
        &&& order.no_duplicates()
        &&& order.to_set() == self.peers.dom()
    }

    /// A block of `len` samples begins: the mix is silent and the peers
    /// queue up in `order`.
    pub open spec fn begin_block(self, len: nat, order: Seq<u32>) -> PipelineState {
        PipelineState { mix: silence(len), queue: order, produced: 0, ..self }
    }

    /// The pipeline moves on to the next peer in the queue.
    pub open spec fn next_peer(self) -> PipelineState {
        PipelineState { queue: self.queue.drop_first(), produced: 0, ..self }
    }

    /// The served peer is polled: its samples go into the mix, and it asks
    /// for a decode or reports that it is done with the block.
    pub open spec fn poll_head(self) -> (PipelineState, Pick) {
        let id = self.queue[0];
        let (peer, emitted, pick) = self.peers[id].poll(
            (self.mix.len() - self.produced) as nat,
            self.max_jitter,
        );
        (
            PipelineState {
                peers: self.peers.insert(id, peer),
                mix: mix_add(self.mix, self.produced as int, emitted),
                produced: self.produced + emitted.len(),
                ..self
            },
            pick,
        )
    }

    /// The next decode job: peers are polled in queue order until one asks
    /// for a decode; a peer that is done gives way to the next. When the
    /// queue is empty the block is complete.
    pub open spec fn next_job(self) -> (PipelineState, Job)
        decreases self.queue.len(),
    {
        if self.queue.len() == 0 {
            (self, Job::Done)
        } else if !self.peers.contains_key(self.queue[0]) {
            self.next_peer().next_job()
        } else {
            let (polled, pick) = self.poll_head();
            match pick {
                Pick::Play(payload) => (polled, Job::Decode { peer: self.queue[0], payload }),
                Pick::Conceal => (polled, Job::Conceal { peer: self.queue[0] }),
                Pick::Idle => polled.next_peer().next_job(),
            }
        }
    }

    /// A decoded frame arrives for the served peer: what fits the block is
    /// mixed in, the rest is kept by the peer. Without a served peer the
    /// frame is dropped.
    pub open spec fn accept(self, decoded: Seq<i16>) -> PipelineState {
        if self.queue.len() == 0 || !self.peers.contains_key(self.queue[0]) {
            self
        } else {
            let id = self.queue[0];
            let (peer, emitted) = self.peers[id].accept(
                decoded,
                (self.mix.len() - self.produced) as nat,
            );
            PipelineState {
                peers: self.peers.insert(id, peer),
                mix: mix_add(self.mix, self.produced as int, emitted),
                produced: self.produced + emitted.len(),
                ..self
            }
        }
    }

    /// The peers that pass the silence limit with this block.
    pub open spec fn expiring_peers(self) -> Set<u32> {
        Set::new(|id: u32| self.peers.contains_key(id) && self.peers[id].tick().expired())
    }

    /// The block ends: every peer's silence counter goes up by one, the
    /// peers that pass the silence limit with it are dropped, and the queue
    /// is cleared.
    pub open spec fn finish_block(self) -> PipelineState {
        PipelineState {
            peers: self.peers.map_values(|peer: PeerState| peer.tick()).remove_keys(
                self.expiring_peers(),
            ),
            queue: Seq::empty(),
            produced: 0,
            ..self
        }
    }
}

/// Polling the served peer keeps the pipeline well formed and changes no
/// peer but the served one, which loses packets at most.
pub proof fn lemma_poll_head(state: PipelineState)
    requires
        state.wf(),
        state.queue.len() > 0,
        state.peers.contains_key(state.queue[0]),
    ensures
        state.poll_head().0.wf(),
        state.poll_head().0.peers.dom() == state.peers.dom(),
        state.poll_head().0.queue == state.queue,
        state.poll_head().0.max_jitter == state.max_jitter,
        state.poll_head().0.mix.len() == state.mix.len(),
        forall|id: u32|
            id != state.queue[0] ==> #[trigger] state.poll_head().0.peers[id] == state.peers[id],
        forall|id: u32|
            state.peers.contains_key(id) ==> {
                &&& (#[trigger] state.poll_head().0.peers[id]).silence == state.peers[id].silence
                &&& state.poll_head().0.peers[id].held() <= state.peers[id].held()
            },
        state.produced == 0 && state.peers[state.queue[0]].leftover.len() < state.mix.len()
            ==> state.poll_head().0.settled(state.queue[0]),
{
    let id = state.queue[0];
    lemma_poll(state.peers[id], (state.mix.len() - state.produced) as nat, state.max_jitter);
    assert(state.poll_head().0.peers.dom() =~= state.peers.dom());
}

/// Asking for the next job keeps the pipeline well formed. It drops and
/// adds no peer and changes no silence counter; it only takes packets out
/// of jitter buffers. The job that comes back is for the peer then at the
/// head of the queue; when the block is complete the queue is empty.
pub proof fn lemma_next_job(state: PipelineState)
    requires
        state.wf(),
    ensures
        state.next_job().0.wf(),
        state.next_job().0.peers.dom() == state.peers.dom(),
        state.next_job().0.max_jitter == state.max_jitter,
        state.next_job().0.mix.len() == state.mix.len(),
        forall|id: u32|
            state.peers.contains_key(id) ==> {
                &&& (#[trigger] state.next_job().0.peers[id]).silence == state.peers[id].silence
                &&& state.next_job().0.peers[id].held() <= state.peers[id].held()
            },
        state.next_job().1 is Done ==> state.next_job().0.queue.len() == 0,
        !(state.next_job().1 is Done) ==> {
            &&& state.next_job().0.queue.len() > 0
            &&& state.next_job().0.peers.contains_key(state.next_job().0.queue[0])
        },
        state.next_job().1 matches Job::Decode { peer, .. } ==> peer == state.next_job().0.queue[0],
        state.next_job().1 matches Job::Conceal { peer } ==> peer == state.next_job().0.queue[0],
    decreases state.queue.len(),
{
    if state.queue.len() == 0 {
    } else if !state.peers.contains_key(state.queue[0]) {
        lemma_next_job(state.next_peer());
    } else {
        lemma_poll_head(state);
        let (polled, pick) = state.poll_head();
        if pick is Idle {
            lemma_next_job(polled.next_peer());
        }
    }
}

/// Handing in a decoded frame keeps the pipeline well formed and changes
/// neither the set of peers, nor a silence counter, nor a jitter buffer.
pub proof fn lemma_accept_decoded(state: PipelineState, decoded: Seq<i16>)
    requires
        state.wf(),
        decoded.len() <= MAX_BUFFER_SIZE,
    ensures
        state.accept(decoded).wf(),
        state.accept(decoded).peers.dom() == state.peers.dom(),
        state.accept(decoded).queue == state.queue,
        state.accept(decoded).max_jitter == state.max_jitter,
        state.accept(decoded).mix.len() == state.mix.len(),
        forall|id: u32|
            state.peers.contains_key(id) ==> {
                &&& (#[trigger] state.accept(decoded).peers[id]).silence == state.peers[id].silence
                &&& state.accept(decoded).peers[id].jitter == state.peers[id].jitter
            },
        forall|id: u32|
            state.queue.len() > 0 && id != state.queue[0] ==> #[trigger] state.accept(
                decoded,
            ).peers[id] == state.peers[id],
{
    if state.queue.len() == 0 || !state.peers.contains_key(state.queue[0]) {
    } else {
        let id = state.queue[0];
        lemma_accept(state.peers[id], decoded, (state.mix.len() - state.produced) as nat);
        assert(state.accept(decoded).peers.dom() =~= state.peers.dom());
    }
}

/// A decode job handed to the caller.
pub enum DecodeJob {
    /// Decode `payload` with the decoder of `peer` and hand the samples to
    /// [`OutputPipeline::accept_decoded`].
    Decode { peer: u32, payload: Vec<u8> },
    /// Let the decoder of `peer` conceal a lost packet and hand the samples
    /// to [`OutputPipeline::accept_decoded`].
    Conceal { peer: u32 },
    /// The block is complete: call [`OutputPipeline::finish_block`].
    Done,
}

impl View for DecodeJob {
    type V = Job;

    open spec fn view(&self) -> Job {
        match *self {
            DecodeJob::Decode { peer, payload } => Job::Decode { peer, payload: payload@ },
            DecodeJob::Conceal { peer } => Job::Conceal { peer },
            DecodeJob::Done => Job::Done,
        }
    }
}

/// The output side of the engine.
pub struct OutputPipeline {
    peers: HashMap<u32, PeerStream>,
    max_jitter_packets: usize,
    mix: Vec<i32>,
    queue: Vec<u32>,
    cursor: usize,
    produced: usize,
}

impl View for OutputPipeline {
    type V = PipelineState;

    closed spec fn view(&self) -> PipelineState {
        PipelineState {
            peers: self.peers@.map_values(|peer: PeerStream| peer@),
            max_jitter: self.max_jitter_packets as nat,
            mix: self.mix@,
            queue: self.queue@.skip(self.cursor as int),
            produced: self.produced as nat,
        }
    }
}

impl OutputPipeline {
    /// The representation is consistent and every peer is well formed.
    pub closed spec fn wf(&self) -> bool {
        &&& forall|id: u32| self.peers@.contains_key(id) ==> (#[trigger] self.peers@[id]).wf()
        &&& self.cursor <= self.queue@.len()
        &&& self.produced <= self.mix@.len()
    }

    /// A well-formed pipeline satisfies the invariants of the state
    /// machine.
    pub proof fn lemma_wf(&self)
        requires
            self.wf(),
        ensures
            self@.wf(),
    {
        assert(self@.peers.dom() =~= self.peers@.dom());
        assert forall|id: u32| self@.peers.contains_key(id) implies (#[trigger] self@.peers[id]).wf() by {
            self.peers@[id].lemma_wf();
        }
    }

    /// A pipeline without peers whose jitter buffers hold up to
    /// `max_jitter_packets` packets per peer.
    pub fn new(max_jitter_packets: usize) -> (pipeline: OutputPipeline)
        ensures
            pipeline.wf(),
            pipeline@ == PipelineState::fresh(max_jitter_packets as nat),
    {
        let pipeline = OutputPipeline {
            peers: HashMap::new(),
            max_jitter_packets,
            mix: Vec::new(),
            queue: Vec::new(),
            cursor: 0,
            produced: 0,
        };
        assert(pipeline@.peers =~= Map::empty());
        assert(pipeline@.queue =~= Seq::empty());
        pipeline
    }

    /// Number of peers currently known.
    pub fn peer_count(&self) -> (n: usize)
        ensures
            n == self@.peers.dom().len(),
    {
        assert(self@.peers.dom() =~= self.peers@.dom());
        self.peers.len()
    }

    /// Whether a peer with this origin id is currently known.
    pub fn has_peer(&self, origin_id: u32) -> (known: bool)
        ensures
            known == self@.peers.contains_key(origin_id),
    {
        self.peers.contains_key(&origin_id)
    }

    /// The peer with this origin id, if it is currently known.
    pub fn peer(&self, origin_id: u32) -> (found: Option<&PeerStream>)
        requires
            self.wf(),
        ensures
            found is Some == self@.peers.contains_key(origin_id),
            found matches Some(peer) ==> peer.wf() && peer@ == self@.peers[origin_id],
    {
        self.peers.get(&origin_id)
    }

    /// Sorts an arrived packet to its sender's jitter buffer and resets the
    /// sender's silence counter. A sender not heard from before becomes a
    /// new peer.
    pub fn ingest(&mut self, origin_id: u32, seq: u16, payload: Vec<u8>)
        requires
            old(self).wf(),
        ensures
            final(self).wf(),
            final(self)@ == old(self)@.ingest(origin_id, seq, payload@),
    {
        match self.peers.entry(origin_id) {
            Entry::Occupied(occupied) => {
                let peer = occupied.into_mut();
                peer.insert_packet(seq, payload);
            },
            Entry::Vacant(vacant) => {
                let mut peer = PeerStream::new();
                peer.insert_packet(seq, payload);
                vacant.insert(peer);
            },
        }
        assert(self@.peers =~= old(self)@.ingest(origin_id, seq, payload@).peers);
    }

    /// The origin ids of all peers, each once, in the order in which the
    /// peer table walks them.
    fn peer_ids(&self) -> (ids: Vec<u32>)
        ensures
            ids@.no_duplicates(),
            ids@.to_set() == self.peers@.dom(),
    {
        let mut ids: Vec<u32> = Vec::new();
        let ghost keys: Seq<u32> = self.peers.keys().remaining().unref();
        let ghost seen: int = 0;
        assert(keys.no_duplicates()) by {
            let refs = self.peers.keys().remaining();
            assert forall|i: int, j: int| 0 <= i < keys.len() && 0 <= j < keys.len() && i != j implies keys[i]
                != keys[j] by {
                assert(refs[i] != refs[j]);
            }
        }
        for key in it: self.peers.keys()
            invariant
                it.seq().unref() == keys,
                seen == it.index(),
                0 <= seen <= keys.len(),
                ids@ == keys.take(seen),
        {
            ids.push(*key);
            proof {
                assert(keys.take(seen + 1) == keys.take(seen).push(keys[seen]));
                seen = seen + 1;
            }
        }
        assert(keys.take(keys.len() as int) == keys);
        ids
    }

    /// Begins a block of `block_len` samples: the mix is cleared and the
    /// peers queue up to be served, in the order in which the peer table
    /// hands them out.
    pub fn begin_block(&mut self, block_len: usize)
        requires
            old(self).wf(),
        ensures
            final(self).wf(),
            old(self)@.is_service_order(final(self)@.queue),
            final(self)@ == old(self)@.begin_block(block_len as nat, final(self)@.queue),
    {
        let ids = self.peer_ids();
        self.mix = silent_mix(block_len);
        self.queue = ids;
        self.cursor = 0;
        self.produced = 0;
        proof {
            assert(self@.queue == self.queue@);
            assert(old(self)@.peers.dom() =~= old(self).peers@.dom());
        }
    }

    /// Number of samples in the block being filled.
    pub fn block_len(&self) -> (len: usize)
        ensures
            len == self@.mix.len(),
    {
        self.mix.len()
    }

    /// Serves the queued peers until one of them needs the decoder, and
    /// says what it needs. Peers that hold no audio for this block, or have
    /// filled it, give way to the next peer.
    pub fn next_job(&mut self) -> (job: DecodeJob)
        requires
            old(self).wf(),
        ensures
            final(self).wf(),
            (final(self)@, job@) == old(self)@.next_job(),
            final(self)@.mix.len() == old(self)@.mix.len(),
    {
        proof {
            self.lemma_wf();
            lemma_next_job(self@);
        }
        loop
            invariant
                self.wf(),
                self@.next_job() == old(self)@.next_job(),
                old(self)@.next_job().0.mix.len() == old(self)@.mix.len(),
            decreases self.queue@.len() - self.cursor,
        {
            if self.cursor >= self.queue.len() {
                assert(self@.queue.len() == 0);
                return DecodeJob::Done;
            }
            let id = self.queue[self.cursor];
            let ghost before = self@;
            assert(before.queue[0] == id);
            assert(before.peers.dom() =~= self.peers@.dom());
            let total = self.mix.len();
            let mut pick = Selection::Idle;
            let mut count: usize = 0;
            match self.peers.entry(id) {
                Entry::Occupied(occupied) => {
                    let peer = occupied.into_mut();
                    let polled = peer.poll(&mut self.mix, self.produced, self.max_jitter_packets);
                    count = polled.0;
                    pick = polled.1;
                },
                Entry::Vacant(vacant) => {},
            }
            proof {
                if before.peers.contains_key(id) {
                    assert(self.peers@.dom() =~= before.peers.dom());
                }
                assert(count <= total - self.produced);
            }
            self.produced = self.produced + count;
            proof {
                if before.peers.contains_key(id) {
                    assert(self@.peers =~= before.poll_head().0.peers);
                    assert(self@ == before.poll_head().0);
                } else {
                    assert(self@.peers =~= before.peers);
                    assert(self@ == before);
                }
            }
            match pick {
                Selection::Play(payload) => {
                    return DecodeJob::Decode { peer: id, payload };
                },
                Selection::Conceal => {
                    return DecodeJob::Conceal { peer: id };
                },
                Selection::Idle => {
                    let ghost polled = self@;
                    self.cursor = self.cursor + 1;
                    self.produced = 0;
                    assert(self@.queue =~= polled.queue.drop_first());
                    assert(self@ == polled.next_peer());
                },
            }
        }
    }

    /// Takes the samples decoded for the job handed out last: what fits the
    /// block is mixed in at the served peer's position, the rest is kept by
    /// the peer for the next block. A decoder failure is reported as an
    /// empty frame.
    pub fn accept_decoded(&mut self, decoded: &[i16])
        requires
            old(self).wf(),
            decoded@.len() <= MAX_BUFFER_SIZE,
        ensures
            final(self).wf(),
            final(self)@ == old(self)@.accept(decoded@),
            final(self)@.mix.len() == old(self)@.mix.len(),
    {
        proof {
            self.lemma_wf();
            lemma_accept_decoded(self@, decoded@);
        }
        if self.cursor >= self.queue.len() {
            assert(self@.queue.len() == 0);
            return ;
        }
        let id = self.queue[self.cursor];
        let ghost before = self@;
        assert(before.queue[0] == id);
        assert(before.peers.dom() =~= self.peers@.dom());
        let total = self.mix.len();
        let mut count: usize = 0;
        match self.peers.entry(id) {
            Entry::Occupied(occupied) => {
                let peer = occupied.into_mut();
                count = peer.accept_decoded(decoded, &mut self.mix, self.produced);
            },
            Entry::Vacant(vacant) => {},
        }
        proof {
            if before.peers.contains_key(id) {
                assert(self.peers@.dom() =~= before.peers.dom());
            }
            assert(count <= total - self.produced);
        }
        self.produced = self.produced + count;
        proof {
            if before.peers.contains_key(id) {
                assert(self@.peers =~= before.accept(decoded@).peers);
            } else {
                assert(self@.peers =~= before.peers);
            }
        }
    }

    /// Ends the block: the mix is written to `frames`, clamped to 16 bits;
    /// every peer's silence counter goes up by one, and the peers that pass
    /// the silence limit with it are dropped. Returns the origin ids of the
    /// dropped peers.
    pub fn finish_block(&mut self, frames: &mut [i16]) -> (dropped: Vec<u32>)
        requires
            old(self).wf(),
            old(frames)@.len() == old(self)@.mix.len(),
        ensures
            final(self).wf(),
            final(self)@ == old(self)@.finish_block(),
            final(frames)@ == clamp_all(old(self)@.mix),
            dropped@.no_duplicates(),
            dropped@.to_set() == old(self)@.expiring_peers(),
    {
        finalize(&self.mix, frames);
        let ids = self.peer_ids();
        let mut dropped: Vec<u32> = Vec::new();
        let mut i: usize = 0;
        while i < ids.len()
            invariant
                i <= ids@.len(),
                ids@.no_duplicates(),
                ids@.to_set() == old(self).peers@.dom(),
                self.max_jitter_packets == old(self).max_jitter_packets,
                self.mix == old(self).mix,
                forall|id: u32| self.peers@.contains_key(id) ==> old(self).peers@.contains_key(id),
                forall|id: u32| self.peers@.contains_key(id) ==> (#[trigger] self.peers@[id]).wf(),
                forall|k: int|
                    0 <= k < i ==> (self.peers@.contains_key(#[trigger] ids@[k]) <==> !old(
                        self,
                    ).peers@[ids@[k]]@.tick().expired()),
                forall|k: int|
                    0 <= k < i && self.peers@.contains_key(#[trigger] ids@[k])
                        ==> self.peers@[ids@[k]]@ == old(self).peers@[ids@[k]]@.tick(),
                forall|k: int|
                    i <= k < ids@.len() ==> self.peers@.contains_key(#[trigger] ids@[k])
                        && self.peers@[ids@[k]] == old(self).peers@[ids@[k]],
                dropped@.no_duplicates(),
                forall|j: int|
                    0 <= j < dropped@.len() ==> {
                        &&& old(self).peers@[#[trigger] dropped@[j]]@.tick().expired()
                        &&& exists|k: int| 0 <= k < i && ids@[k] == dropped@[j]
                    },
                forall|k: int|
                    0 <= k < i && old(self).peers@[#[trigger] ids@[k]]@.tick().expired()
                        ==> dropped@.contains(ids@[k]),
            decreases ids@.len() - i,
        {
            let id = ids[i];
            let ghost listed = dropped@;
            let ghost before = self.peers@;
            let mut expired = false;
            match self.peers.entry(id) {
                Entry::Occupied(occupied) => {
                    let peer = occupied.into_mut();
                    peer.tick();
                    expired = peer.is_expired();
                },
                Entry::Vacant(vacant) => {
                    assert(false);
                },
            }
            proof {
                assert(self.peers@.dom() =~= before.dom());
            }
            if expired {
                self.peers.remove(&id);
                dropped.push(id);
            }
            proof {
                assert forall|k: int|
                    0 <= k < i + 1 && old(self).peers@[#[trigger] ids@[k]]@.tick().expired() implies dropped@.contains(
                    ids@[k],
                ) by {
                    if k < i {
                        let j = choose|j: int| 0 <= j < listed.len() && listed[j] == ids@[k];
                        assert(dropped@[j] == ids@[k]);
                    } else {
                        assert(dropped@[listed.len() as int] == id);
                    }
                }
            }
            i += 1;
        }
        self.queue = Vec::new();
        self.cursor = 0;
        self.produced = 0;
        proof {
            assert(self@.queue =~= Seq::empty());
            assert(old(self)@.peers.dom() =~= old(self).peers@.dom());
            assert(dropped@.to_set() =~= old(self)@.expiring_peers()) by {
                assert forall|id: u32| old(self)@.expiring_peers().contains(id) implies dropped@.to_set().contains(
                    id,
                ) by {
                    assert(ids@.to_set().contains(id));
                    let k = choose|k: int| 0 <= k < ids@.len() && ids@[k] == id;
                    assert(dropped@.contains(ids@[k]));
                }
                assert forall|id: u32| dropped@.to_set().contains(id) implies old(
                    self,
                )@.expiring_peers().contains(id) by {
                    let j = choose|j: int| 0 <= j < dropped@.len() && dropped@[j] == id;
                    let k = choose|k: int| 0 <= k < ids@.len() && ids@[k] == dropped@[j];
                    assert(ids@.to_set().contains(ids@[k]));
                }
            }
            assert(self@.peers =~= old(self)@.finish_block().peers) by {
                assert forall|id: u32| old(self).peers@.contains_key(id) implies (
                self.peers@.contains_key(id) <==> !old(self).peers@[id]@.tick().expired()) && (
                self.peers@.contains_key(id) ==> self.peers@[id]@ == old(self).peers@[id]@.tick()) by {
                    assert(ids@.to_set().contains(id));
                    let k = choose|k: int| 0 <= k < ids@.len() && ids@[k] == id;
                    assert(self.peers@.contains_key(ids@[k]) <==> !old(
                        self,
                    ).peers@[ids@[k]]@.tick().expired());
                }
            }
        }
        dropped
    }
}

} // verus!
