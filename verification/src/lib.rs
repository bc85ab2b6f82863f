//! A reliable-datagram transport core in the KCP family.
//!
//! The library is the deterministic heart of a KCP-style session
//! multiplexer: the per-session ARQ engine, the polled byte-stream
//! state machine around it, the listener-side demultiplexer and the
//! connector-side registry.  Everything here is plain state-machine
//! logic over bytes and integers; sockets, clocks, executors and
//! wakers live outside and hand values in.

use vstd::prelude::*;

pub mod codec;
pub mod engine;
pub mod session;
pub mod registry;
pub mod laws;

verus! {

/// Milliseconds since the Unix epoch, for driving the update loop.
///
/// Relies on `std::time::SystemTime::now`; nothing is promised of
/// the clock's value, and a clock before the epoch reads as 0.
#[verifier::external_body]
pub fn now_mills() -> u64 {
    match std::time::SystemTime::now().duration_since(std::time::UNIX_EPOCH) {
        Ok(d) => d.as_millis() as u64,
        Err(_) => 0,
    }
}

/// Size of a KCP segment header in bytes: every valid datagram
/// carries at least one full header.
pub const KCP_OVERHEAD: usize = 24;

/// Error kinds surfaced by the transport core.
#[derive(Clone, Copy, Debug, PartialEq, Eq, Structural)]
pub enum KcpErr {
    /// No complete message is waiting in the receive queue.
    RecvQueueEmpty,
    /// The head of the receive queue is a fragment of a message whose
    /// remaining fragments have not arrived yet.
    ExpectingFragment,
    /// The caller's buffer is smaller than the next message.
    UserBufTooSmall,
    /// A datagram shorter than `KCP_OVERHEAD`, a header whose length
    /// field overruns the datagram, or an unknown command byte.
    MalformedPacket,
    /// A segment carried a conversation id other than the session's.
    ConvInconsistent,
    /// Backpressure: the message would not fit into the send queue.
    SendQueueFull,
    /// The connector's conversation-id space is exhausted.
    NoMoreConv,
    /// The engine exceeded its maximum resend count on some segment.
    DeadLink,
    /// A close-queue entry referred to a session no longer present.
    Lock,
}

} // verus!
