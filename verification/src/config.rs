//! Engine configuration, tuning constants and error kinds.

use vstd::prelude::*;

verus! {

/// Capacity, in samples, of every PCM scratch buffer: 120 ms at 48 kHz.
pub const MAX_BUFFER_SIZE: usize = 5760;

/// Capacity, in bytes, of the buffer that receives one encoded frame.
pub const OPUS_OUT_BUFFER_SIZE: usize = 512;

/// Output blocks without a packet after which a peer counts as one timeout
/// unit: 50 frames of 60 ms are about three seconds.
pub const PEER_TIMEOUT_FRAMES: usize = 50;

/// A peer is dropped once its silence counter exceeds this many output
/// blocks: five timeout units, about fifteen seconds.
pub const PEER_SILENCE_LIMIT: usize = PEER_TIMEOUT_FRAMES * 5;

/// Packets a peer must have buffered before its playback starts.
pub const JITTER_BUFFER_START_THRESHOLD: usize = 6;

/// How far past a missing sequence number a held packet may lie for the
/// missing one to count as lost rather than as a jump of the stream.
pub const JITTER_LOOKAHEAD_WINDOW: u16 = 10;

/// Error kinds reported to the host.
#[derive(Debug, Clone, Copy, PartialEq, Eq)]
pub enum AudioError {
    /// A hardware stream could not be opened or started, or failed later.
    DeviceError,
    /// The encoder could not be constructed.
    EncoderError,
    /// A decoder could not be constructed.
    DecoderError,
}

impl AudioError {
    /// Human-readable description of the error.
    pub fn message(&self) -> (text: &'static str)
        ensures
            text@ == match *self {
                AudioError::DeviceError => "Failed to open audio device"@,
                AudioError::EncoderError => "Failed to encode audio"@,
                AudioError::DecoderError => "Failed to decode audio"@,
            },
    {
        match self {
            AudioError::DeviceError => "Failed to open audio device",
            AudioError::EncoderError => "Failed to encode audio",
            AudioError::DecoderError => "Failed to decode audio",
        }
    }
}

/// Sample rates the voice codec accepts.
#[derive(Debug, Clone, Copy, PartialEq, Eq)]
pub enum SampleRate {
    Hz8000,
    Hz12000,
    Hz16000,
    Hz24000,
    Hz48000,
}

impl SampleRate {
    /// The rate in hertz.
    pub open spec fn spec_hz(self) -> int {
        match self {
            SampleRate::Hz8000 => 8000,
            SampleRate::Hz12000 => 12000,
            SampleRate::Hz16000 => 16000,
            SampleRate::Hz24000 => 24000,
            SampleRate::Hz48000 => 48000,
        }
    }

    /// The rate in hertz.
    pub fn hz(self) -> (hz: i32)
        ensures
            hz == self.spec_hz(),
    {
        match self {
            SampleRate::Hz8000 => 8000,
            SampleRate::Hz12000 => 12000,
            SampleRate::Hz16000 => 16000,
            SampleRate::Hz24000 => 24000,
            SampleRate::Hz48000 => 48000,
        }
    }
}

/// The codec rate for a configured rate: the rate itself where the codec
/// accepts it, 48 kHz otherwise.
pub open spec fn spec_map_sample_rate(hz: i32) -> SampleRate {
    if hz == 8000 {
        SampleRate::Hz8000
    } else if hz == 12000 {
        SampleRate::Hz12000
    } else if hz == 16000 {
        SampleRate::Hz16000
    } else if hz == 24000 {
        SampleRate::Hz24000
    } else {
        SampleRate::Hz48000
    }
}

/// Picks the codec rate for a configured rate, falling back to 48 kHz.
pub fn map_sample_rate(hz: i32) -> (rate: SampleRate)
    ensures
        rate == spec_map_sample_rate(hz),
        rate.spec_hz() != hz ==> rate == SampleRate::Hz48000,
{
    match hz {
        8000 => SampleRate::Hz8000,
        12000 => SampleRate::Hz12000,
        16000 => SampleRate::Hz16000,
        24000 => SampleRate::Hz24000,
        _ => SampleRate::Hz48000,
    }
}

/// Settings of an engine, fixed once it is built. A device id of 0 selects
/// the system default device.
#[derive(Debug, Clone, Copy, PartialEq, Eq)]
pub struct AudioConfig {
    pub sample_rate: i32,
    pub frame_size_ms: i32,
    pub jitter_buffer_ms: i32,
    pub input_device_id: i32,
    pub output_device_id: i32,
}

impl AudioConfig {
    /// 48 kHz, 60 ms frames, one second of jitter buffer, default devices.
    pub open spec fn spec_default() -> AudioConfig {
        AudioConfig {
            sample_rate: 48000,
            frame_size_ms: 60,
            jitter_buffer_ms: 1000,
            input_device_id: 0,
            output_device_id: 0,
        }
    }

    /// Samples in one frame: whole samples per millisecond times the frame
    /// duration.
    pub open spec fn spec_samples_per_frame(self) -> int {
        (self.sample_rate / 1000) * self.frame_size_ms
    }

    /// Packets the jitter buffer of one peer may hold.
    pub open spec fn spec_max_jitter_packets(self) -> int {
        self.jitter_buffer_ms / self.frame_size_ms
    }

    /// The derived quantities can be computed: no value is negative, the
    /// frame duration is not zero, and the frame length fits 32 bits.
    pub open spec fn well_formed(self) -> bool {
        &&& self.sample_rate >= 0
        &&& self.frame_size_ms > 0
        &&& self.jitter_buffer_ms >= 0
        &&& self.spec_samples_per_frame() <= i32::MAX
    }

    /// Tells whether the derived quantities can be computed.
    pub fn is_well_formed(&self) -> (ok: bool)
        ensures
            ok == self.well_formed(),
    {
        if self.sample_rate < 0 || self.frame_size_ms <= 0 || self.jitter_buffer_ms < 0 {
            return false;
        }
        let per_ms: i64 = (self.sample_rate / 1000) as i64;
        let frame_ms: i64 = self.frame_size_ms as i64;
        assert(0 <= per_ms * frame_ms <= 0x8000_0000 * 0x8000_0000) by (nonlinear_arith)
            requires
                0 <= per_ms <= 0x8000_0000,
                0 <= frame_ms <= 0x8000_0000,
        ;
        per_ms * frame_ms <= 0x7fff_ffff
    }

    /// Samples in one frame.
    pub fn samples_per_frame(&self) -> (n: usize)
        requires
            self.well_formed(),
        ensures
            n == self.spec_samples_per_frame(),
    {
        let per_ms: i32 = self.sample_rate / 1000;
        assert(0 <= per_ms * self.frame_size_ms) by (nonlinear_arith)
            requires
                0 <= per_ms,
                0 < self.frame_size_ms,
        ;
        (per_ms * self.frame_size_ms) as usize
    }

    /// Packets the jitter buffer of one peer may hold.
    pub fn max_jitter_packets(&self) -> (n: usize)
        requires
            self.well_formed(),
        ensures
            n == self.spec_max_jitter_packets(),
    {
        (self.jitter_buffer_ms / self.frame_size_ms) as usize
    }
}

impl Default for AudioConfig {
    fn default() -> (config: Self)
        ensures
            config == AudioConfig::spec_default(),
    {
        AudioConfig {
            sample_rate: 48000,
            frame_size_ms: 60,
            jitter_buffer_ms: 1000,
            input_device_id: 0,
            output_device_id: 0,
        }
    }
}

} // verus!
