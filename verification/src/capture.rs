//! The input pipeline: captured samples are gathered into codec frames,
//! and every encoded frame is stamped with the next sequence number and
//! framed for the transport.
//!
//! Encoding is not done here. The caller hands captured samples in with
//! [`InputPipeline::push_samples`]. Then, for as long as
//! [`InputPipeline::next_action`] does not say to wait, it reads the
//! microphone gate, runs the encoder on [`InputPipeline::pending_frame`] if
//! the microphone is enabled, and reports the outcome to
//! [`InputPipeline::complete_frame`], which hands back the packet to send.
//!
//! [`CaptureState`] describes the pipeline mathematically; every operation
//! is specified as one of its transitions.

use crate::config::MAX_BUFFER_SIZE;
use crate::packet::{header_origin, header_seq, packet_bytes, wrap_packet};
use crate::sequence::{seq_advance, seq_succ, successor};
use vstd::prelude::*;

verus! {

/// Something that happens to the input pipeline.
pub enum CaptureEvent {
    /// The device delivered a block of samples.
    Samples(Seq<i16>),
    /// The buffered frame was dealt with: the microphone gate was read as
    /// `mic_enabled`, and the encoder gave `encoded` (`None` if it was not
    /// run or failed).
    Frame { mic_enabled: bool, encoded: Option<Seq<u8>> },
}

/// State of the input pipeline.
pub struct CaptureState {
    /// Captured samples not yet framed, oldest first.
    pub buffered: Seq<i16>,
    /// Samples in one codec frame.
    pub samples_per_frame: nat,
    /// Sequence number of the next packet.
    pub seq: u16,
    /// Origin id stamped on every packet.
    pub own_node_id: u32,
}

impl CaptureState {
    /// A pipeline that has captured nothing yet and will stamp its first
    /// packet with `seq`.
    pub open spec fn fresh(samples_per_frame: nat, own_node_id: u32, seq: u16) -> CaptureState {
        CaptureState { buffered: Seq::empty(), samples_per_frame, seq, own_node_id }
    }

    /// Frames are not empty and the buffer is within capacity.
    pub open spec fn wf(self) -> bool {
        &&& self.samples_per_frame > 0
        &&& self.buffered.len() <= MAX_BUFFER_SIZE
    }

    /// Samples arrive: they are appended, and what exceeds the capacity is
    /// discarded.
    pub open spec fn push(self, samples: Seq<i16>) -> CaptureState {
        let all = self.buffered + samples;
        let kept = if all.len() <= MAX_BUFFER_SIZE {
            all
        } else {
            all.take(MAX_BUFFER_SIZE as int)
        };
        CaptureState { buffered: kept, ..self }
    }

    /// A complete frame is buffered.
    pub open spec fn frame_ready(self) -> bool {
        self.buffered.len() >= self.samples_per_frame
    }

    /// The oldest buffered frame.
    pub open spec fn frame(self) -> Seq<i16> {
        self.buffered.take(self.samples_per_frame as int)
    }

    /// The oldest frame leaves the buffer.
    pub open spec fn consume(self) -> CaptureState {
        CaptureState { buffered: self.buffered.skip(self.samples_per_frame as int), ..self }
    }

    /// A frame is transmitted: the microphone is enabled and the encoder produced a
    /// payload, which is not empty.
    pub open spec fn transmits(mic_enabled: bool, encoded: Option<Seq<u8>>) -> bool {
        mic_enabled && encoded is Some && encoded->0.len() > 0
    }

    /// The buffered frame is dealt with. Without a complete frame nothing
    /// happens. Otherwise the frame leaves the buffer, and if it is
    /// transmitted its payload is framed under the current sequence number,
    /// which then moves on.
    pub open spec fn complete_frame(self, mic_enabled: bool, encoded: Option<Seq<u8>>) -> (
        CaptureState,
        Option<Seq<u8>>,
    ) {
        if !self.frame_ready() {
            (self, None)
        } else if Self::transmits(mic_enabled, encoded) {
            (
                CaptureState { seq: seq_succ(self.seq), ..self.consume() },
                Some(packet_bytes(self.own_node_id, self.seq, encoded->0)),
            )
        } else {
            (self.consume(), None)
        }
    }

    /// The effect of one event, and the packet it sends if it sends one.
    pub open spec fn step(self, event: CaptureEvent) -> (CaptureState, Option<Seq<u8>>) {
        match event {
            CaptureEvent::Samples(samples) => (self.push(samples), None),
            CaptureEvent::Frame { mic_enabled, encoded } => self.complete_frame(
                mic_enabled,
                encoded,
            ),
        }
    }

    /// The effect of a series of events, and the packets sent, in order.
    pub open spec fn run(self, events: Seq<CaptureEvent>) -> (CaptureState, Seq<Seq<u8>>)
        decreases events.len(),
    {
        if events.len() == 0 {
            (self, Seq::empty())
        } else {
            let (state, sent) = self.run(events.drop_last());
            let (next, packet) = state.step(events.last());
            match packet {
                Some(bytes) => (next, sent.push(bytes)),
                None => (next, sent),
            }
        }
    }
}

/// The packets of a capture session carry the engine's origin id and the
/// sequence numbers `s, s+1, s+2, ...` modulo 2^16, without gaps and
/// without repeats, whatever else happens in between.
pub proof fn lemma_sequence_monotonic(state: CaptureState, events: Seq<CaptureEvent>)
    ensures
        ({
            let (end, sent) = state.run(events);
            &&& end.own_node_id == state.own_node_id
            &&& end.samples_per_frame == state.samples_per_frame
            &&& end.seq == seq_advance(state.seq, sent.len())
            &&& forall|k: int|
                0 <= k < sent.len() ==> {
                    &&& header_origin(#[trigger] sent[k]) == state.own_node_id
                    &&& header_seq(sent[k]) == seq_advance(state.seq, k as nat)
                }
        }),
    decreases events.len(),
{
    if events.len() > 0 {
        lemma_sequence_monotonic(state, events.drop_last());
        let (mid, sent) = state.run(events.drop_last());
        let (next, packet) = mid.step(events.last());
        if let Some(bytes) = packet {
            let payload = events.last()->encoded->0;
            crate::packet::lemma_unwrap_wrap_roundtrip(mid.own_node_id, mid.seq, payload);
            crate::sequence::lemma_advance_succ(state.seq, sent.len());
        }
    } else {
        crate::sequence::lemma_advance_succ(state.seq, 0);
    }
}

/// While the microphone gate is closed no packet is sent and no sequence
/// number is used, however many samples are captured.
pub proof fn lemma_closed_gate_sends_nothing(state: CaptureState, events: Seq<CaptureEvent>)
    requires
        forall|i: int|
            0 <= i < events.len() ==> (#[trigger] events[i] matches CaptureEvent::Frame {
                mic_enabled,
                ..
            } ==> !mic_enabled),
    ensures
        state.run(events).1.len() == 0,
        state.run(events).0.seq == state.seq,
    decreases events.len(),
{
    if events.len() > 0 {
        let init = events.drop_last();
        assert forall|i: int| 0 <= i < init.len() implies (#[trigger] init[i] matches CaptureEvent::Frame {
            mic_enabled,
            ..
        } ==> !mic_enabled) by {
            assert(init[i] == events[i]);
        }
        lemma_closed_gate_sends_nothing(state, init);
        assert(events.last() == events[events.len() - 1]);
    }
}

/// What is to be done about the buffered samples.
#[derive(Debug, Clone, Copy, PartialEq, Eq)]
pub enum CaptureAction {
    /// No complete frame is buffered: wait for more samples.
    Wait,
    /// A frame is complete but the microphone is muted: discard it unencoded.
    Discard,
    /// A frame is complete and the microphone is enabled: encode it.
    Encode,
}

/// The capture side of the engine.
pub struct InputPipeline {
    buffer: [i16; MAX_BUFFER_SIZE],
    buffer_pos: usize,
    samples_per_frame: usize,
    sequence_number: u16,
    own_node_id: u32,
}

impl View for InputPipeline {
    type V = CaptureState;

    closed spec fn view(&self) -> CaptureState {
        CaptureState {
            buffered: self.buffer@.take(self.buffer_pos as int),
            samples_per_frame: self.samples_per_frame as nat,
            seq: self.sequence_number,
            own_node_id: self.own_node_id,
        }
    }
}

impl InputPipeline {
    /// The representation is consistent and the state's invariants hold.
    pub closed spec fn wf(&self) -> bool {
        &&& self.buffer_pos <= MAX_BUFFER_SIZE
        &&& self.samples_per_frame > 0
    }

    /// A well-formed pipeline satisfies the invariants of the state machine.
    pub proof fn lemma_wf(&self)
        requires
            self.wf(),
        ensures
            self@.wf(),
    {
    }

    /// A pipeline for frames of `samples_per_frame` samples that stamps its
    /// packets with `own_node_id`, the first of them with
    /// `sequence_number`.
    pub fn new(samples_per_frame: usize, own_node_id: u32, sequence_number: u16) -> (pipeline:
        InputPipeline)
        requires
            samples_per_frame > 0,
        ensures
            pipeline.wf(),
            pipeline@ == CaptureState::fresh(
                samples_per_frame as nat,
                own_node_id,
                sequence_number,
            ),
    {
        let pipeline = InputPipeline {
            buffer: [0i16; MAX_BUFFER_SIZE],
            buffer_pos: 0,
            samples_per_frame,
            sequence_number,
            own_node_id,
        };
        assert(pipeline@.buffered =~= Seq::empty());
        pipeline
    }

    /// Number of samples buffered.
    pub fn buffered_len(&self) -> (n: usize)
        requires
            self.wf(),
        ensures
            n == self@.buffered.len(),
    {
        self.buffer_pos
    }

    /// Sequence number that the next packet will carry.
    pub fn sequence_number(&self) -> (seq: u16)
        ensures
            seq == self@.seq,
    {
        self.sequence_number
    }

    /// Samples in one codec frame.
    pub fn samples_per_frame(&self) -> (n: usize)
        ensures
            n == self@.samples_per_frame,
    {
        self.samples_per_frame
    }

    /// Origin id stamped on every packet.
    pub fn own_node_id(&self) -> (id: u32)
        ensures
            id == self@.own_node_id,
    {
        self.own_node_id
    }

    /// Appends captured samples. Samples that do not fit the buffer are
    /// discarded.
    pub fn push_samples(&mut self, frames: &[i16])
        requires
            old(self).wf(),
        ensures
            final(self).wf(),
            final(self)@ == old(self)@.push(frames@),
    {
        let n = frames.len();
        let mut i: usize = 0;
        while i < n && self.buffer_pos < MAX_BUFFER_SIZE
            invariant
                n == frames@.len(),
                i <= n,
                self.wf(),
                self.samples_per_frame == old(self).samples_per_frame,
                self.sequence_number == old(self).sequence_number,
                self.own_node_id == old(self).own_node_id,
                self.buffer_pos == old(self).buffer_pos + i,
                self.buffer@.take(self.buffer_pos as int) == old(self)@.buffered + frames@.take(
                    i as int,
                ),
            decreases n - i,
        {
            let ghost before = self.buffer@.take(self.buffer_pos as int);
            self.buffer[self.buffer_pos] = frames[i];
            self.buffer_pos += 1;
            i += 1;
            assert(self.buffer@.take(self.buffer_pos as int) =~= before.push(frames@[i - 1]));
            assert(frames@.take(i as int) =~= frames@.take(i - 1).push(frames@[i - 1]));
        }
        proof {
            let all = old(self)@.buffered + frames@;
            if i == n {
                assert(frames@.take(n as int) =~= frames@);
            } else {
                assert(self@.buffered =~= all.take(MAX_BUFFER_SIZE as int));
            }
        }
    }

    /// Whether a complete frame is buffered.
    pub fn frame_ready(&self) -> (ready: bool)
        requires
            self.wf(),
        ensures
            ready == self@.frame_ready(),
    {
        self.buffer_pos >= self.samples_per_frame
    }

    /// What is to be done next, given the state of the microphone gate: a
    /// frame is encoded only while the microphone is enabled.
    pub fn next_action(&self, mic_enabled: bool) -> (action: CaptureAction)
        requires
            self.wf(),
        ensures
            action == (if !self@.frame_ready() {
                CaptureAction::Wait
            } else if mic_enabled {
                CaptureAction::Encode
            } else {
                CaptureAction::Discard
            }),
    {
        if self.buffer_pos < self.samples_per_frame {
            CaptureAction::Wait
        } else if mic_enabled {
            CaptureAction::Encode
        } else {
            CaptureAction::Discard
        }
    }

    /// The oldest buffered frame, if a complete frame is buffered.
    pub fn pending_frame(&self) -> (frame: Option<&[i16]>)
        requires
            self.wf(),
        ensures
            frame is Some == self@.frame_ready(),
            frame matches Some(samples) ==> samples@ == self@.frame(),
    {
        if self.buffer_pos < self.samples_per_frame {
            None
        } else {
            let samples = &self.buffer[0..self.samples_per_frame];
            assert(samples@ =~= self@.frame());
            Some(samples)
        }
    }

    /// Deals with the buffered frame, given the state of the microphone
    /// gate when the frame was looked at and the encoder's output for it
    /// (`None` if the encoder was not run or failed).
    ///
    /// Without a complete frame nothing happens. Otherwise the frame leaves
    /// the buffer. A packet is returned only if the microphone was enabled and the
    /// encoder produced a non-empty payload; the packet carries the current
    /// sequence number, which then moves on by one, wrapping at 2^16.
    pub fn complete_frame(&mut self, mic_enabled: bool, encoded: Option<&[u8]>) -> (packet: Option<
        Vec<u8>,
    >)
        requires
            old(self).wf(),
        ensures
            final(self).wf(),
            ({
                let payload = match encoded {
                    Some(bytes) => Some(bytes@),
                    None => None,
                };
                let (state, sent) = old(self)@.complete_frame(mic_enabled, payload);
                &&& final(self)@ == state
                &&& packet is Some == sent is Some
                &&& packet matches Some(bytes) ==> bytes@ == sent->0
            }),
            !mic_enabled ==> packet is None && final(self)@.seq == old(self)@.seq,
    {
        if self.buffer_pos < self.samples_per_frame {
            return None;
        }
        let mut packet: Option<Vec<u8>> = None;
        if mic_enabled {
            if let Some(payload) = encoded {
                if payload.len() > 0 {
                    packet = Some(wrap_packet(self.own_node_id, self.sequence_number, payload));
                    self.sequence_number = successor(self.sequence_number);
                }
            }
        }
        self.consume_frame();
        packet
    }

    /// Removes the oldest frame and moves the samples behind it to the
    /// front of the buffer.
    fn consume_frame(&mut self)
        requires
            old(self).wf(),
            old(self)@.frame_ready(),
        ensures
            final(self).wf(),
            final(self)@ == old(self)@.consume(),
    {
        let remaining = self.buffer_pos - self.samples_per_frame;
        let offset = self.samples_per_frame;
        let mut i: usize = 0;
        while i < remaining
            invariant
                i <= remaining,
                offset + remaining <= MAX_BUFFER_SIZE,
                self.buffer_pos == old(self).buffer_pos,
                self.samples_per_frame == old(self).samples_per_frame,
                self.sequence_number == old(self).sequence_number,
                self.own_node_id == old(self).own_node_id,
                forall|j: int| 0 <= j < i ==> self.buffer@[j] == old(self).buffer@[offset + j],
                forall|j: int| i <= j < MAX_BUFFER_SIZE ==> self.buffer@[j] == old(self).buffer@[j],
            decreases remaining - i,
        {
            let sample = self.buffer[offset + i];
            self.buffer[i] = sample;
            i += 1;
        }
        self.buffer_pos = remaining;
        assert(self@.buffered =~= old(self)@.consume().buffered);
    }
}

} // verus!
