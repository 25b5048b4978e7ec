//! The callback interfaces that the embedding host implements.

use vstd::prelude::*;

verus! {

/// The host's packet transport. `send_packet` is called from the transport
/// worker, one packet at a time, and may block. The engine does not retry:
/// what becomes of the packet is the transport's business.
pub trait PacketTransport: Send + Sync {
    fn send_packet(&self, data: Vec<u8>);
}

/// The host's error sink. `on_engine_error` receives the audio library's
/// error code when a stream fails after it was started; the host then
/// stops the session.
pub trait AudioErrorCallback: Send + Sync {
    fn on_engine_error(&self, code: i32);
}

} // verus!
