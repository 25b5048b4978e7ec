//! The per-peer jitter buffer as a mathematical state machine.
//!
//! A peer's state is described by [`PeerState`]; the functions on it say
//! what one step of playout does. The executable peer in [`crate::peer`]
//! is specified against them.

use crate::config::{
    JITTER_BUFFER_START_THRESHOLD, JITTER_LOOKAHEAD_WINDOW, MAX_BUFFER_SIZE, PEER_SILENCE_LIMIT,
};
use crate::sequence::{lemma_distance_advance, seq_advance, seq_distance, seq_succ};
use vstd::prelude::*;

verus! {

/// What a peer asks of the decoder next.
pub enum Pick {
    /// Decode this payload.
    Play(Seq<u8>),
    /// Synthesise a frame for a packet that was lost.
    Conceal,
    /// Nothing: the peer is silent for the rest of the block.
    Idle,
}

/// State of one remote sender.
pub struct PeerState {
    /// Packets received and not yet played, by sequence number.
    pub jitter: Map<u16, Seq<u8>>,
    /// Sequence number that playout expects next, once playout has started.
    pub next_expected: Option<u16>,
    /// Whether the peer is collecting packets before (re)starting playout.
    pub buffering: bool,
    /// Decoded samples that did not fit the previous block.
    pub leftover: Seq<i16>,
    /// Output blocks since the last packet arrived.
    pub silence: nat,
}

/// `k` is the key that plays first from `horizon`: no key of `keys` is
/// fewer steps ahead of `horizon`.
pub open spec fn is_earliest(keys: Set<u16>, horizon: u16, k: u16) -> bool {
    &&& keys.contains(k)
    &&& forall|j: u16| keys.contains(j) ==> seq_distance(horizon, k) <= seq_distance(horizon, j)
}

/// The key of `keys` that plays first from `horizon`.
pub open spec fn earliest_key(keys: Set<u16>, horizon: u16) -> u16 {
    choose|k: u16| is_earliest(keys, horizon, k)
}

impl PeerState {
    /// A peer that has just been seen for the first time.
    pub open spec fn fresh() -> PeerState {
        PeerState {
            jitter: Map::empty(),
            next_expected: None,
            buffering: true,
            leftover: Seq::empty(),
            silence: 0,
        }
    }

    /// The invariants of a peer: finitely many packets, leftover samples
    /// within capacity, and an expected sequence number once playing.
    pub open spec fn wf(self) -> bool {
        &&& self.jitter.dom().finite()
        &&& self.leftover.len() <= MAX_BUFFER_SIZE
        &&& (!self.buffering ==> self.next_expected is Some)
    }

    /// Number of packets held.
    pub open spec fn held(self) -> nat {
        self.jitter.dom().len()
    }

    /// The point from which held sequence numbers are ordered: the expected
    /// number if there is one, else 0, which orders them numerically.
    pub open spec fn horizon(self) -> u16 {
        match self.next_expected {
            Some(expected) => expected,
            None => 0,
        }
    }

    /// The held sequence number that plays first.
    pub open spec fn earliest(self) -> u16 {
        earliest_key(self.jitter.dom(), self.horizon())
    }

    /// A packet arrives: it is stored under its sequence number, replacing
    /// any packet held under the same number, and the peer counts as heard.
    pub open spec fn insert(self, seq: u16, payload: Seq<u8>) -> PeerState {
        PeerState { jitter: self.jitter.insert(seq, payload), silence: 0, ..self }
    }

    /// An output block has gone by: the silence counter goes up by one. A
    /// peer already past the limit stays where it is.
    pub open spec fn tick(self) -> PeerState {
        if self.silence <= PEER_SILENCE_LIMIT {
            PeerState { silence: self.silence + 1, ..self }
        } else {
            self
        }
    }

    /// The peer has been silent for longer than the limit.
    pub open spec fn expired(self) -> bool {
        self.silence > PEER_SILENCE_LIMIT
    }

    /// The earliest packet is dropped and playout expects its successor.
    pub open spec fn drop_earliest(self) -> PeerState {
        let k = self.earliest();
        PeerState { jitter: self.jitter.remove(k), next_expected: Some(seq_succ(k)), ..self }
    }

    /// Overflow is trimmed: while more than `max` packets are held the
    /// earliest is dropped.
    pub open spec fn trim(self, max: nat) -> PeerState
        decreases self.held(),
        when self.jitter.dom().finite()
        via Self::trim_decreases
    {
        if self.held() > max {
            self.drop_earliest().trim(max)
        } else {
            self
        }
    }

    #[via_fn]
    proof fn trim_decreases(self, max: nat) {
        if self.held() > max {
            lemma_earliest_exists(self.jitter.dom(), self.horizon());
        }
    }

    /// A buffering peer that holds enough packets starts playout at the
    /// earliest of them.
    pub open spec fn start_if_ready(self) -> PeerState {
        if self.buffering && self.held() >= JITTER_BUFFER_START_THRESHOLD {
            PeerState { buffering: false, next_expected: Some(self.earliest()), ..self }
        } else {
            self
        }
    }

    /// A packet is held that lies ahead of `expected` by more than zero and
    /// fewer than the look-ahead window's steps.
    pub open spec fn has_future(self, expected: u16) -> bool {
        exists|k: u16| #[trigger]
            self.jitter.contains_key(k) && 0 < seq_distance(expected, k)
                < JITTER_LOOKAHEAD_WINDOW
    }

    /// The next payload of a playing peer: the expected packet if held;
    /// concealment if it is missing and a packet close ahead is held;
    /// underrun, which re-enters buffering, if nothing is held; otherwise a
    /// jump to the earliest held packet.
    pub open spec fn select(self) -> (PeerState, Pick) {
        let expected = self.horizon();
        if self.jitter.contains_key(expected) {
            (
                PeerState {
                    jitter: self.jitter.remove(expected),
                    next_expected: Some(seq_succ(expected)),
                    ..self
                },
                Pick::Play(self.jitter[expected]),
            )
        } else if self.has_future(expected) {
            (PeerState { next_expected: Some(seq_succ(expected)), ..self }, Pick::Conceal)
        } else if self.held() == 0 {
            (PeerState { buffering: true, ..self }, Pick::Idle)
        } else {
            let k = self.earliest();
            (
                PeerState {
                    jitter: self.jitter.remove(k),
                    next_expected: Some(seq_succ(k)),
                    ..self
                },
                Pick::Play(self.jitter[k]),
            )
        }
    }

    /// Steps from the playout position to the nearest packet held at or
    /// ahead of it, looking `from` steps ahead and further, up to the
    /// look-ahead window: the window's width if no such packet is held.
    pub open spec fn scan_ahead(self, from: nat) -> nat
        decreases JITTER_LOOKAHEAD_WINDOW - from,
    {
        if from >= JITTER_LOOKAHEAD_WINDOW {
            JITTER_LOOKAHEAD_WINDOW as nat
        } else if self.jitter.contains_key(seq_advance(self.horizon(), from)) {
            from
        } else {
            self.scan_ahead(from + 1)
        }
    }

    /// Steps from the playout position to the nearest packet held within
    /// the look-ahead window.
    pub open spec fn gap(self) -> nat {
        self.scan_ahead(0)
    }

    /// One round of jitter buffer upkeep and selection: trim overflow, pass
    /// the buffering gate, select the next payload.
    pub open spec fn advance(self, max: nat) -> (PeerState, Pick) {
        let ready = self.trim(max).start_if_ready();
        if ready.buffering {
            (ready, Pick::Idle)
        } else {
            ready.select()
        }
    }

    /// Leftover samples go out first: as many as the block has room for.
    pub open spec fn drain(self, room: nat) -> (PeerState, Seq<i16>) {
        let count = if room < self.leftover.len() {
            room as int
        } else {
            self.leftover.len() as int
        };
        (PeerState { leftover: self.leftover.skip(count), ..self }, self.leftover.take(count))
    }

    /// The peer is asked for samples with `room` positions of the block
    /// still open: leftover samples are emitted, and if the block is not
    /// full after that the jitter buffer is advanced.
    pub open spec fn poll(self, room: nat, max: nat) -> (PeerState, Seq<i16>, Pick) {
        let (drained, emitted) = self.drain(room);
        if emitted.len() >= room {
            (drained, emitted, Pick::Idle)
        } else {
            let (next, pick) = drained.advance(max);
            (next, emitted, pick)
        }
    }

    /// A decoded frame arrives with `room` positions of the block still
    /// open: what fits is emitted, the rest becomes the leftover.
    pub open spec fn accept(self, decoded: Seq<i16>, room: nat) -> (PeerState, Seq<i16>) {
        let count = if room < decoded.len() {
            room as int
        } else {
            decoded.len() as int
        };
        if decoded.len() > count {
            (PeerState { leftover: decoded.skip(count), ..self }, decoded.take(count))
        } else {
            (self, decoded)
        }
    }
}

/// If some key lies within `bound` steps of the horizon, an earliest key
/// exists.
proof fn lemma_earliest_within(keys: Set<u16>, horizon: u16, bound: nat)
    requires
        exists|k: u16| keys.contains(k) && seq_distance(horizon, k) <= bound,
    ensures
        exists|e: u16| is_earliest(keys, horizon, e),
    decreases bound,
{
    if exists|k: u16| keys.contains(k) && seq_distance(horizon, k) < bound {
        let k = choose|k: u16| keys.contains(k) && seq_distance(horizon, k) < bound;
        assert(seq_distance(horizon, k) <= bound - 1);
        lemma_earliest_within(keys, horizon, (bound - 1) as nat);
    } else {
        let k = choose|k: u16| keys.contains(k) && seq_distance(horizon, k) <= bound;
        assert(is_earliest(keys, horizon, k));
    }
}

/// Every non-empty set of sequence numbers has an earliest key, and
/// `earliest_key` names it.
pub proof fn lemma_earliest_exists(keys: Set<u16>, horizon: u16)
    requires
        keys.finite(),
        keys.len() > 0,
    ensures
        is_earliest(keys, horizon, earliest_key(keys, horizon)),
{
    let k = keys.choose();
    assert(keys.contains(k)) by {
        if keys.is_empty() {
            assert(keys =~= Set::empty());
        }
    }
    assert(seq_distance(horizon, k) <= 0xffff);
    lemma_earliest_within(keys, horizon, 0xffff);
}

/// A set of sequence numbers has at most one earliest key.
pub proof fn lemma_earliest_unique(keys: Set<u16>, horizon: u16, a: u16, b: u16)
    requires
        is_earliest(keys, horizon, a),
        is_earliest(keys, horizon, b),
    ensures
        a == b,
        a == earliest_key(keys, horizon),
{
    crate::sequence::lemma_distance_injective(horizon, a, b);
    let e = earliest_key(keys, horizon);
    crate::sequence::lemma_distance_injective(horizon, a, e);
}

/// Trimming leaves no more than `max` packets. It only drops packets, and
/// it touches nothing but the jitter buffer and the playout position.
pub proof fn lemma_trim(state: PeerState, max: nat)
    requires
        state.wf(),
    ensures
        state.trim(max).wf(),
        state.trim(max).held() <= max,
        state.trim(max).held() <= state.held(),
        state.trim(max).jitter.submap_of(state.jitter),
        state.trim(max).buffering == state.buffering,
        state.trim(max).leftover == state.leftover,
        state.trim(max).silence == state.silence,
        state.held() <= max ==> state.trim(max) == state,
    decreases state.held(),
{
    if state.held() > max {
        lemma_earliest_exists(state.jitter.dom(), state.horizon());
        let dropped = state.drop_earliest();
        lemma_trim(dropped, max);
        let trimmed = state.trim(max);
        assert forall|k: u16| trimmed.jitter.dom().contains(k) implies state.jitter.dom().contains(
            k,
        ) && trimmed.jitter[k] == state.jitter[k] by {
            assert(dropped.jitter.dom().contains(k));
            assert(state.jitter.dom().contains(k));
        }
    }
}

/// Selection removes at most one packet and changes neither the leftover
/// samples nor the silence counter. It comes back empty-handed exactly
/// when nothing is held, and then the peer is buffering again.
pub proof fn lemma_select(state: PeerState)
    requires
        state.wf(),
        !state.buffering,
    ensures
        state.select().0.wf(),
        state.select().0.held() <= state.held(),
        state.select().0.jitter.submap_of(state.jitter),
        state.select().0.leftover == state.leftover,
        state.select().0.silence == state.silence,
        state.select().1 is Idle <==> state.held() == 0,
        state.select().1 is Idle ==> state.select().0 == (PeerState { buffering: true, ..state }),
        !(state.select().1 is Idle) ==> !state.select().0.buffering,
{
    let expected = state.horizon();
    if state.jitter.contains_key(expected) {
        assert(state.held() != 0) by {
            if state.held() == 0 {
                assert(state.jitter.dom() =~= Set::empty());
            }
        }
    } else if state.has_future(expected) {
        let k = choose|k: u16| #[trigger]
            state.jitter.contains_key(k) && 0 < seq_distance(expected, k)
                < JITTER_LOOKAHEAD_WINDOW;
        assert(state.held() != 0) by {
            if state.held() == 0 {
                assert(state.jitter.dom() =~= Set::empty());
            }
        }
    } else if state.held() == 0 {
    } else {
        lemma_earliest_exists(state.jitter.dom(), state.horizon());
    }
}

/// One round of upkeep and selection leaves no more than `max` packets,
/// only drops packets, and changes neither the leftover samples nor the
/// silence counter.
pub proof fn lemma_advance(state: PeerState, max: nat)
    requires
        state.wf(),
    ensures
        state.advance(max).0.wf(),
        state.advance(max).0.held() <= max,
        state.advance(max).0.held() <= state.held(),
        state.advance(max).0.jitter.submap_of(state.jitter),
        state.advance(max).0.leftover == state.leftover,
        state.advance(max).0.silence == state.silence,
{
    lemma_trim(state, max);
    let trimmed = state.trim(max);
    let ready = trimmed.start_if_ready();
    if !ready.buffering {
        lemma_select(ready);
    }
    let next = state.advance(max).0;
    assert(ready.jitter == trimmed.jitter);
    assert(next.jitter.submap_of(ready.jitter));
    assert forall|k: u16| next.jitter.dom().contains(k) implies state.jitter.dom().contains(k)
        && next.jitter[k] == state.jitter[k] by {
        assert(ready.jitter.dom().contains(k));
        assert(state.jitter.dom().contains(k));
    }
}

/// Polling a peer emits leftover samples only, never more than the block
/// has room for. It only drops packets and does not touch the silence
/// counter. If the leftover samples do not fill the room, the jitter
/// buffer holds no more than `max` packets afterwards.
pub proof fn lemma_poll(state: PeerState, room: nat, max: nat)
    requires
        state.wf(),
    ensures
        state.poll(room, max).0.wf(),
        state.poll(room, max).1.len() <= room,
        state.poll(room, max).1 == state.leftover.take(state.poll(room, max).1.len() as int),
        state.poll(room, max).0.silence == state.silence,
        state.poll(room, max).0.held() <= state.held(),
        state.poll(room, max).0.jitter.submap_of(state.jitter),
        state.leftover.len() < room ==> state.poll(room, max).0.held() <= max,
        state.leftover.len() >= room ==> state.poll(room, max).2 is Idle,
{
    let (drained, emitted) = state.drain(room);
    if emitted.len() < room {
        lemma_advance(drained, max);
    }
}

/// Taking a decoded frame mixes no more samples than the block has room
/// for and changes nothing but the leftover samples.
pub proof fn lemma_accept(state: PeerState, decoded: Seq<i16>, room: nat)
    requires
        state.wf(),
        decoded.len() <= MAX_BUFFER_SIZE,
    ensures
        state.accept(decoded, room).0.wf(),
        state.accept(decoded, room).1.len() <= room,
        state.accept(decoded, room).1.len() <= decoded.len(),
        state.accept(decoded, room).0.jitter == state.jitter,
        state.accept(decoded, room).0.next_expected == state.next_expected,
        state.accept(decoded, room).0.buffering == state.buffering,
        state.accept(decoded, room).0.silence == state.silence,
{
}

/// When the jitter buffer has run empty in mid-playout, the peer goes
/// back to buffering. It adds nothing to the block but the leftover
/// samples of the last frame it decoded, if any remain.
pub proof fn lemma_underrun_rebuffers(state: PeerState, room: nat, max: nat)
    requires
        state.wf(),
        !state.buffering,
        state.held() == 0,
        state.leftover.len() < room,
    ensures
        state.poll(room, max) == (
            PeerState { buffering: true, leftover: Seq::<i16>::empty(), ..state },
            state.leftover,
            Pick::Idle,
        ),
{
    let drained = state.drain(room).0;
    lemma_trim(drained, max);
    lemma_select(drained);
    assert(state.leftover.skip(state.leftover.len() as int) =~= Seq::<i16>::empty());
    assert(state.leftover.take(state.leftover.len() as int) =~= state.leftover);
}

/// A buffering peer stays buffering, and asks for no decode, for as long
/// as it holds fewer packets than the start threshold. Until then it adds
/// nothing to a block but leftover samples: without leftover samples it is
/// silent.
pub proof fn lemma_buffering_is_silent(state: PeerState, room: nat, max: nat)
    requires
        state.wf(),
        state.buffering,
        state.held() < JITTER_BUFFER_START_THRESHOLD,
    ensures
        state.poll(room, max).0.buffering,
        state.poll(room, max).2 is Idle,
        state.poll(room, max).1.len() <= state.leftover.len(),
        state.poll(room, max).0.leftover.len() <= state.leftover.len(),
{
    let drained = state.drain(room).0;
    lemma_trim(drained, max);
}

/// A buffering peer without leftover samples that holds enough packets,
/// none of them in excess, starts playout with its earliest packet.
pub proof fn lemma_threshold_starts_playout(state: PeerState, room: nat, max: nat)
    requires
        state.wf(),
        state.buffering,
        JITTER_BUFFER_START_THRESHOLD <= state.held() <= max,
        state.leftover.len() == 0,
        room > 0,
    ensures
        state.poll(room, max).2 == Pick::Play(state.jitter[state.earliest()]),
        !state.poll(room, max).0.buffering,
        state.poll(room, max).0.next_expected == Some(seq_succ(state.earliest())),
        state.poll(room, max).0.jitter == state.jitter.remove(state.earliest()),
{
    lemma_trim(state, max);
    lemma_earliest_exists(state.jitter.dom(), state.horizon());
    assert(state.drain(room).0 == state) by {
        assert(state.leftover.skip(0) =~= state.leftover);
    }
}

/// A packet held `at` steps ahead of the playout position, inside the
/// look-ahead window, is found by a scan that starts no later.
proof fn lemma_scan_finds(state: PeerState, from: nat, at: nat)
    requires
        from <= at < JITTER_LOOKAHEAD_WINDOW,
        state.jitter.contains_key(seq_advance(state.horizon(), at)),
    ensures
        from <= state.scan_ahead(from) <= at,
    decreases at - from,
{
    if from < at && !state.jitter.contains_key(seq_advance(state.horizon(), from)) {
        lemma_scan_finds(state, from + 1, at);
    }
}

/// Moving the playout position one step on brings every packet ahead one
/// step nearer.
proof fn lemma_scan_shift(state: PeerState, moved: PeerState, from: nat)
    requires
        moved.jitter == state.jitter,
        moved.next_expected == Some(seq_succ(state.horizon())),
        state.scan_ahead(from + 1) < JITTER_LOOKAHEAD_WINDOW,
    ensures
        moved.scan_ahead(from) + 1 == state.scan_ahead(from + 1),
    decreases JITTER_LOOKAHEAD_WINDOW - from,
{
    assert(seq_advance(moved.horizon(), from) == seq_advance(state.horizon(), from + 1));
    if from + 1 < JITTER_LOOKAHEAD_WINDOW && !state.jitter.contains_key(
        seq_advance(state.horizon(), from + 1),
    ) {
        lemma_scan_shift(state, moved, from + 1);
    }
}

/// Every step of upkeep and selection that asks for the decoder uses
/// something up: a packet, or, when a loss is concealed and no packet is
/// dropped, one step of the way to the nearest packet ahead.
pub proof fn lemma_advance_uses_up(state: PeerState, max: nat)
    requires
        state.wf(),
    ensures
        state.advance(max).1 is Play ==> state.advance(max).0.held() < state.held(),
        state.advance(max).1 is Conceal ==> state.advance(max).0.held() < state.held() || (
        state.advance(max).0.held() == state.held() && state.advance(max).0.gap() < state.gap()),
{
    lemma_trim(state, max);
    let trimmed = state.trim(max);
    let ready = trimmed.start_if_ready();
    if !ready.buffering {
        lemma_select(ready);
        let expected = ready.horizon();
        let (next, pick) = ready.select();
        if ready.jitter.contains_key(expected) {
            assert(next.jitter.dom() =~= ready.jitter.dom().remove(expected));
        } else if ready.has_future(expected) {
            if trimmed.held() == state.held() {
                if trimmed.buffering && trimmed.held() >= JITTER_BUFFER_START_THRESHOLD {
                    lemma_earliest_exists(trimmed.jitter.dom(), trimmed.horizon());
                }
                assert(ready == state);
                let k = choose|k: u16| #[trigger]
                    state.jitter.contains_key(k) && 0 < seq_distance(expected, k)
                        < JITTER_LOOKAHEAD_WINDOW;
                lemma_distance_advance(expected, k, 0);
                lemma_scan_finds(state, 1, seq_distance(expected, k) as nat);
                lemma_distance_advance(expected, expected, 0);
                lemma_scan_shift(state, next, 0);
            }
        } else if ready.held() == 0 {
        } else {
            lemma_earliest_exists(ready.jitter.dom(), ready.horizon());
            assert(next.jitter.dom() =~= ready.jitter.dom().remove(ready.earliest()));
        }
    }
}

} // verus!
