//! One remote sender: its jitter buffer, playout position and leftover
//! samples, advanced step by step as the output block is filled.

use crate::config::{
    JITTER_BUFFER_START_THRESHOLD, JITTER_LOOKAHEAD_WINDOW, MAX_BUFFER_SIZE, PEER_SILENCE_LIMIT,
};
use crate::jitter::{is_earliest, lemma_earliest_unique, PeerState, Pick};
use crate::mix::{accumulate, mix_add};
use crate::sequence::{advance, distance, seq_distance, successor};
use std::collections::BTreeMap;
use vstd::prelude::*;
use vstd::std_specs::iter::IteratorSpec;

verus! {

/// What the decoder is asked to do next for a peer.
pub enum Selection {
    /// Decode this payload.
    Play(Vec<u8>),
    /// Synthesise a frame for a packet that was lost.
    Conceal,
    /// Nothing: the peer is silent for the rest of the block.
    Idle,
}

impl View for Selection {
    type V = Pick;

    open spec fn view(&self) -> Pick {
        match *self {
            Selection::Play(payload) => Pick::Play(payload@),
            Selection::Conceal => Pick::Conceal,
            Selection::Idle => Pick::Idle,
        }
    }
}

/// State kept for one remote sender.
pub struct PeerStream {
    jitter_buffer: BTreeMap<u16, Vec<u8>>,
    next_expected_seq: Option<u16>,
    buffering: bool,
    buffer: [i16; MAX_BUFFER_SIZE],
    buffer_len: usize,
    silence_counter: usize,
}

impl View for PeerStream {
    type V = PeerState;

    closed spec fn view(&self) -> PeerState {
        PeerState {
            jitter: self.jitter_buffer@.map_values(|payload: Vec<u8>| payload@),
            next_expected: self.next_expected_seq,
            buffering: self.buffering,
            leftover: self.buffer@.take(self.buffer_len as int),
            silence: self.silence_counter as nat,
        }
    }
}

impl PeerStream {
    /// The representation is consistent and the peer's invariants hold.
    pub closed spec fn wf(&self) -> bool {
        &&& self.buffer_len <= MAX_BUFFER_SIZE
        &&& self.silence_counter <= PEER_SILENCE_LIMIT + 1
        &&& (!self.buffering ==> self.next_expected_seq is Some)
    }

    /// A well-formed peer satisfies the invariants of the state machine.
    pub proof fn lemma_wf(&self)
        requires
            self.wf(),
        ensures
            self@.wf(),
            self@.silence <= PEER_SILENCE_LIMIT + 1,
    {
        assert(self@.jitter.dom() =~= self.jitter_buffer@.dom());
    }

    /// A peer seen for the first time: nothing buffered, playout not
    /// started.
    pub fn new() -> (peer: PeerStream)
        ensures
            peer.wf(),
            peer@ == PeerState::fresh(),
    {
        let peer = PeerStream {
            jitter_buffer: BTreeMap::new(),
            next_expected_seq: None,
            buffering: true,
            buffer: [0i16; MAX_BUFFER_SIZE],
            buffer_len: 0,
            silence_counter: 0,
        };
        assert(peer@.jitter =~= Map::empty());
        assert(peer@.leftover =~= Seq::empty());
        peer
    }

    /// Whether the peer is collecting packets before playout (re)starts.
    pub fn is_buffering(&self) -> (b: bool)
        ensures
            b == self@.buffering,
    {
        self.buffering
    }

    /// Sequence number that playout expects next, if playout ever started.
    pub fn next_expected_seq(&self) -> (seq: Option<u16>)
        ensures
            seq == self@.next_expected,
    {
        self.next_expected_seq
    }

    /// Number of packets held in the jitter buffer.
    pub fn packets_held(&self) -> (n: usize)
        ensures
            n == self@.held(),
    {
        assert(self@.jitter.dom() =~= self.jitter_buffer@.dom());
        self.jitter_buffer.len()
    }

    /// Number of decoded samples waiting for the next block.
    pub fn leftover_len(&self) -> (n: usize)
        requires
            self.wf(),
        ensures
            n == self@.leftover.len(),
    {
        self.buffer_len
    }

    /// Output blocks since the last packet arrived.
    pub fn silence_counter(&self) -> (n: usize)
        ensures
            n == self@.silence,
    {
        self.silence_counter
    }

    /// Whether the peer has been silent for longer than the limit.
    pub fn is_expired(&self) -> (b: bool)
        ensures
            b == self@.expired(),
    {
        self.silence_counter > PEER_SILENCE_LIMIT
    }

    /// Stores an arrived packet and resets the silence counter.
    pub fn insert_packet(&mut self, seq: u16, payload: Vec<u8>)
        requires
            old(self).wf(),
        ensures
            final(self).wf(),
            final(self)@ == old(self)@.insert(seq, payload@),
    {
        self.jitter_buffer.insert(seq, payload);
        self.silence_counter = 0;
        assert(self@.jitter =~= old(self)@.jitter.insert(seq, payload@));
    }

    /// Counts one more output block without a packet.
    pub fn tick(&mut self)
        requires
            old(self).wf(),
        ensures
            final(self).wf(),
            final(self)@ == old(self)@.tick(),
    {
        if self.silence_counter <= PEER_SILENCE_LIMIT {
            self.silence_counter += 1;
        }
    }

    /// Finds the held sequence number that plays first, if any is held.
    fn find_earliest(&self) -> (found: Option<u16>)
        ensures
            found is None <==> self@.held() == 0,
            found matches Some(k) ==> is_earliest(self@.jitter.dom(), self@.horizon(), k) && k
                == self@.earliest(),
    {
        let horizon: u16 = match self.next_expected_seq {
            Some(expected) => expected,
            None => 0,
        };
        let mut best: Option<u16> = None;
        let ghost keys: Seq<u16> = self.jitter_buffer.keys().remaining().unref();
        let ghost seen: int = 0;
        assert(self@.jitter.dom() =~= self.jitter_buffer@.dom());
        for key in it: self.jitter_buffer.keys()
            invariant
                it.seq().unref() == keys,
                keys.to_set() == self@.jitter.dom(),
                keys.len() == self@.held(),
                seen == it.index(),
                0 <= seen <= keys.len(),
                horizon == self@.horizon(),
                best is None <==> seen == 0,
                best matches Some(b) ==> self@.jitter.contains_key(b) && forall|j: int|
                    0 <= j < seen ==> seq_distance(horizon, b) <= seq_distance(
                        horizon,
                        #[trigger] keys[j],
                    ),
        {
            let candidate: u16 = *key;
            assert(keys[seen] == candidate);
            assert(keys.to_set().contains(candidate));
            match best {
                None => {
                    best = Some(candidate);
                },
                Some(b) => {
                    if distance(horizon, candidate) < distance(horizon, b) {
                        best = Some(candidate);
                    }
                },
            }
            proof {
                seen = seen + 1;
            }
        }
        proof {
            if let Some(b) = best {
                assert forall|j: u16| self@.jitter.dom().contains(j) implies seq_distance(
                    horizon,
                    b,
                ) <= seq_distance(horizon, j) by {
                    assert(keys.to_set().contains(j));
                    let i = choose|i: int| 0 <= i < keys.len() && keys[i] == j;
                    assert(keys[i] == j);
                }
                lemma_earliest_unique(self@.jitter.dom(), horizon, b, b);
            }
        }
        best
    }

    /// Drops the earliest packets until no more than `max_jitter_packets`
    /// are held.
    fn trim_overflow(&mut self, max_jitter_packets: usize)
        requires
            old(self).wf(),
        ensures
            final(self).wf(),
            final(self)@ == old(self)@.trim(max_jitter_packets as nat),
    {
        proof {
            self.lemma_wf();
            assert(self@.jitter.dom() =~= self.jitter_buffer@.dom());
        }
        while self.jitter_buffer.len() > max_jitter_packets
            invariant
                self.wf(),
                self@.jitter.dom().finite(),
                self.jitter_buffer@.len() == self@.held(),
                self@.trim(max_jitter_packets as nat) == old(self)@.trim(max_jitter_packets as nat),
            decreases self@.held(),
        {
            let ghost before = self@;
            match self.find_earliest() {
                Some(first) => {
                    self.jitter_buffer.remove(&first);
                    self.next_expected_seq = Some(successor(first));
                    proof {
                        assert(self@.jitter =~= before.jitter.remove(first));
                        assert(self@ == before.drop_earliest());
                        assert(self@.jitter.dom() =~= self.jitter_buffer@.dom());
                    }
                },
                None => {
                    assert(false);
                },
            }
        }
    }

    /// Tells whether a packet is held shortly ahead of `expected`.
    fn has_future(&self, expected: u16) -> (found: bool)
        ensures
            found == self@.has_future(expected),
    {
        let mut step: u16 = 1;
        while step < JITTER_LOOKAHEAD_WINDOW
            invariant
                1 <= step <= JITTER_LOOKAHEAD_WINDOW,
                forall|k: u16| #[trigger]
                    self@.jitter.contains_key(k) ==> !(0 < seq_distance(expected, k) < step),
            decreases JITTER_LOOKAHEAD_WINDOW - step,
        {
            let candidate = advance(expected, step);
            if self.jitter_buffer.contains_key(&candidate) {
                proof {
                    crate::sequence::lemma_distance_advance(expected, candidate, step as nat);
                    assert(self@.jitter.contains_key(candidate));
                }
                return true;
            }
            proof {
                assert forall|k: u16| #[trigger]
                    self@.jitter.contains_key(k) implies !(0 < seq_distance(expected, k) < step
                    + 1) by {
                    if seq_distance(expected, k) == step {
                        crate::sequence::lemma_distance_advance(expected, k, step as nat);
                        assert(k == candidate);
                    }
                }
            }
            step += 1;
        }
        false
    }

    /// Selects the next payload of a playing peer.
    fn select(&mut self) -> (pick: Selection)
        requires
            old(self).wf(),
            !old(self)@.buffering,
        ensures
            final(self).wf(),
            (final(self)@, pick@) == old(self)@.select(),
    {
        proof {
            self.lemma_wf();
            assert(self@.jitter.dom() =~= self.jitter_buffer@.dom());
        }
        let expected: u16 = match self.next_expected_seq {
            Some(expected) => expected,
            None => 0,
        };
        let ghost before = self@;
        match self.jitter_buffer.remove(&expected) {
            Some(data) => {
                self.next_expected_seq = Some(successor(expected));
                proof {
                    assert(self@.jitter =~= before.jitter.remove(expected));
                }
                Selection::Play(data)
            },
            None => {
                proof {
                    assert(self@.jitter =~= before.jitter);
                }
                if self.has_future(expected) {
                    self.next_expected_seq = Some(successor(expected));
                    Selection::Conceal
                } else if self.jitter_buffer.is_empty() {
                    self.buffering = true;
                    proof {
                        assert(before.jitter.dom() =~= Set::empty());
                    }
                    Selection::Idle
                } else {
                    proof {
                        assert(before.held() != 0) by {
                            if before.held() == 0 {
                                assert(before.jitter.dom() =~= Set::empty());
                                assert(self.jitter_buffer@.dom() =~= Set::empty());
                                assert(self.jitter_buffer@ =~= Map::empty());
                            }
                        }
                    }
                    match self.find_earliest() {
                        Some(first) => {
                            match self.jitter_buffer.remove(&first) {
                                Some(data) => {
                                    self.next_expected_seq = Some(successor(first));
                                    proof {
                                        assert(self@.jitter =~= before.jitter.remove(first));
                                    }
                                    Selection::Play(data)
                                },
                                None => {
                                    assert(false);
                                    Selection::Idle
                                },
                            }
                        },
                        None => {
                            assert(false);
                            Selection::Idle
                        },
                    }
                }
            },
        }
    }

    /// Trims overflow, passes the buffering gate and selects the next
    /// payload.
    fn advance_jitter(&mut self, max_jitter_packets: usize) -> (pick: Selection)
        requires
            old(self).wf(),
        ensures
            final(self).wf(),
            (final(self)@, pick@) == old(self)@.advance(max_jitter_packets as nat),
    {
        self.trim_overflow(max_jitter_packets);
        if self.buffering {
            if self.packets_held() >= JITTER_BUFFER_START_THRESHOLD {
                let first = self.find_earliest();
                match first {
                    Some(k) => {
                        self.buffering = false;
                        self.next_expected_seq = Some(k);
                    },
                    None => {
                        assert(false);
                    },
                }
            } else {
                return Selection::Idle;
            }
        }
        self.select()
    }

    /// Mixes leftover samples into the block, from position `produced` on,
    /// and moves what remains to the front of the scratch. Returns the
    /// number of samples mixed.
    fn drain_leftover(&mut self, mix: &mut Vec<i32>, produced: usize) -> (count: usize)
        requires
            old(self).wf(),
            produced <= old(mix)@.len(),
        ensures
            final(self).wf(),
            ({
                let (state, emitted) = old(self)@.drain((old(mix)@.len() - produced) as nat);
                &&& final(self)@ == state
                &&& count == emitted.len()
                &&& final(mix)@ == mix_add(old(mix)@, produced as int, emitted)
            }),
    {
        let room = mix.len() - produced;
        let to_copy = if room < self.buffer_len {
            room
        } else {
            self.buffer_len
        };
        accumulate(mix, produced, &self.buffer[0..to_copy]);
        assert(self.buffer@.subrange(0, to_copy as int) == old(self)@.leftover.take(
            to_copy as int,
        ));
        let remaining = self.buffer_len - to_copy;
        let mut i: usize = 0;
        while i < remaining
            invariant
                i <= remaining,
                to_copy + remaining <= MAX_BUFFER_SIZE,
                self.buffer_len == old(self).buffer_len,
                self.jitter_buffer == old(self).jitter_buffer,
                self.next_expected_seq == old(self).next_expected_seq,
                self.buffering == old(self).buffering,
                self.silence_counter == old(self).silence_counter,
                forall|j: int| 0 <= j < i ==> self.buffer@[j] == old(self).buffer@[to_copy + j],
                forall|j: int| i <= j < MAX_BUFFER_SIZE ==> self.buffer@[j] == old(self).buffer@[j],
            decreases remaining - i,
        {
            let sample = self.buffer[to_copy + i];
            self.buffer[i] = sample;
            i += 1;
        }
        self.buffer_len = remaining;
        assert(self@.leftover =~= old(self)@.leftover.skip(to_copy as int));
        to_copy
    }

    /// Asks the peer for samples for the block `mix`, of which the first
    /// `produced` positions already hold this peer's samples.
    ///
    /// Leftover samples are mixed in first. If the block is then full the
    /// peer is done. Otherwise the jitter buffer is trimmed, the buffering
    /// gate is passed and the next payload is selected. Returns the number
    /// of samples mixed and what the decoder is to do next.
    pub fn poll(&mut self, mix: &mut Vec<i32>, produced: usize, max_jitter_packets: usize) -> (r: (
        usize,
        Selection,
    ))
        requires
            old(self).wf(),
            produced <= old(mix)@.len(),
        ensures
            final(self).wf(),
            ({
                let (state, emitted, pick) = old(self)@.poll(
                    (old(mix)@.len() - produced) as nat,
                    max_jitter_packets as nat,
                );
                &&& final(self)@ == state
                &&& r.0 == emitted.len()
                &&& r.1@ == pick
                &&& final(mix)@ == mix_add(old(mix)@, produced as int, emitted)
            }),
    {
        let room = mix.len() - produced;
        let count = self.drain_leftover(mix, produced);
        if count >= room {
            return (count, Selection::Idle);
        }
        let pick = self.advance_jitter(max_jitter_packets);
        (count, pick)
    }

    /// Takes a decoded frame for the block `mix`, of which the first
    /// `produced` positions already hold this peer's samples: what fits is
    /// mixed in, the rest is kept as leftover. Returns the number of
    /// samples mixed.
    pub fn accept_decoded(&mut self, decoded: &[i16], mix: &mut Vec<i32>, produced: usize) -> (count:
        usize)
        requires
            old(self).wf(),
            produced <= old(mix)@.len(),
            decoded@.len() <= MAX_BUFFER_SIZE,
        ensures
            final(self).wf(),
            ({
                let (state, emitted) = old(self)@.accept(
                    decoded@,
                    (old(mix)@.len() - produced) as nat,
                );
                &&& final(self)@ == state
                &&& count == emitted.len()
                &&& final(mix)@ == mix_add(old(mix)@, produced as int, emitted)
            }),
    {
        let len = decoded.len();
        let room = mix.len() - produced;
        let to_take = if room < len {
            room
        } else {
            len
        };
        accumulate(mix, produced, &decoded[0..to_take]);
        assert(decoded@.subrange(0, to_take as int) == decoded@.take(to_take as int));
        if len > to_take {
            let remainder = len - to_take;
            let mut i: usize = 0;
            while i < remainder
                invariant
                    i <= remainder,
                    remainder == len - to_take,
                    len == decoded@.len(),
                    len <= MAX_BUFFER_SIZE,
                    self.buffer_len == old(self).buffer_len,
                    self.jitter_buffer == old(self).jitter_buffer,
                    self.next_expected_seq == old(self).next_expected_seq,
                    self.buffering == old(self).buffering,
                    self.silence_counter == old(self).silence_counter,
                    forall|j: int| 0 <= j < i ==> self.buffer@[j] == decoded@[to_take + j],
                decreases remainder - i,
            {
                let sample = decoded[to_take + i];
                self.buffer[i] = sample;
                i += 1;
            }
            self.buffer_len = remainder;
            assert(self@.leftover =~= decoded@.skip(to_take as int));
        } else {
            assert(decoded@.take(to_take as int) == decoded@);
        }
        to_take
    }
}

} // verus!
