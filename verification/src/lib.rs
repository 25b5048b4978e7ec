//! Realtime voice engine core for a multi-party push-to-talk application.
//!
//! The crate holds the deterministic half of the engine: the on-wire packet
//! framing, the capture-side frame accumulator, the per-peer jitter buffer
//! state machine and the mixer. Audio hardware, the voice codec and the
//! packet transport are driven by the embedding application, which feeds
//! their results into the state machines defined here.
//!
//! * [`packet`]: the wire format.
//! * [`capture`]: captured samples to outgoing packets.
//! * [`peer`] and [`jitter`]: one remote sender, executable and as a
//!   mathematical model.
//! * [`mixer`] and [`mix`]: all senders mixed into one output block.
//! * [`block`] and [`order`]: what holds of whole blocks.
//! * [`config`], [`host`], [`sequence`]: settings, host callbacks and
//!   sequence number arithmetic.

pub mod block;
pub mod capture;
pub mod config;
pub mod host;
pub mod jitter;
pub mod mix;
pub mod mixer;
pub mod order;
pub mod packet;
pub mod peer;
pub mod sequence;

pub use crate::capture::InputPipeline;
pub use crate::config::{AudioConfig, AudioError};
pub use crate::host::{AudioErrorCallback, PacketTransport};
pub use crate::mixer::{DecodeJob, OutputPipeline};
