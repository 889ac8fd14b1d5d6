//! Per-connection data: protocol phase, the outcomes the codec collaborator
//! can report, and the per-event decisions of the state machine.

use vstd::prelude::*;

verus! {

/// Identifies one registration with the poller and one slot in the
/// connection table. Unique among live connections.
pub type ConnectionId = u64;

/// The poller token reserved for the listening socket; connection ids are
/// always strictly greater.
pub const LISTENER_ID: ConnectionId = 0;

/// Protocol phase of one connection. A closed connection has no phase: it is
/// removed from the table instead.
#[derive(Clone, Copy, PartialEq, Eq, Structural, Debug)]
pub enum Phase {
    /// The TCP stream is accepted but the WebSocket opening handshake has not
    /// completed yet; the connection must not be asked to decode frames.
    AwaitingHandshake,
    /// The handshake succeeded and a codec session exists.
    Established,
}

/// One live entry of the connection table.
#[derive(Clone, Copy, PartialEq, Eq, Structural, Debug)]
pub struct Connection {
    pub id: ConnectionId,
    pub phase: Phase,
}

/// What the handshake collaborator reports for a readable event on a
/// connection still awaiting its handshake.
#[derive(Clone, Copy, PartialEq, Eq, Structural, Debug)]
pub enum HandshakeOutcome {
    /// The buffered bytes do not hold a full handshake yet; wait for more.
    NeedMore,
    /// The opening handshake completed and a codec session now exists.
    Done,
    /// The bytes are not a valid handshake; fatal for this connection.
    Reject,
}

/// What the codec session reports when asked to decode one message from an
/// established connection.
pub enum DecodeOutcome {
    /// The read would block or the frame is incomplete; wait for more.
    NeedMore,
    /// A complete text payload was decoded.
    Text(String),
    /// The peer asked to close at the protocol level.
    Close,
    /// A read error (peer reset, end of stream) or a malformed frame.
    Error,
}

/// What the dispatch loop must do after one connection event.
#[derive(PartialEq, Debug)]
pub enum DispatchResult {
    /// Broadcast this text to every established connection.
    Message(String),
    /// The connection just moved to `Established`; nothing to send.
    HandshakeCompleted,
    /// Deregister this connection and remove it from the table.
    Closed,
    /// Nothing to do.
    Noop,
}

/// Which read handling a readable event on a given id calls for.
#[derive(Clone, Copy, PartialEq, Eq, Structural, Debug)]
pub enum ReadAction {
    /// The connection awaits its handshake: drive the handshake collaborator.
    TryHandshake,
    /// The connection is established: ask the codec session for one message.
    DecodeMessage,
    /// The id is not in the table (already removed): tolerate and do nothing.
    Ignore,
}

/// The decision taken on a readable event for a connection that awaits its
/// handshake, given what the handshake collaborator reported. `known` is
/// whether the id still names a table entry in `AwaitingHandshake` phase.
pub open spec fn spec_handshake_result(known: bool, outcome: HandshakeOutcome) -> DispatchResult {
    if !known {
        DispatchResult::Noop
    } else {
        match outcome {
            HandshakeOutcome::NeedMore => DispatchResult::Noop,
            HandshakeOutcome::Done => DispatchResult::HandshakeCompleted,
            HandshakeOutcome::Reject => DispatchResult::Closed,
        }
    }
}

/// The decision taken on a readable event for an established connection,
/// given what the codec session reported. `known` is whether the id still
/// names a table entry in `Established` phase. An empty text payload is an
/// explicit close request and is never broadcast.
pub open spec fn spec_read_result(known: bool, outcome: DecodeOutcome) -> DispatchResult {
    if !known {
        DispatchResult::Noop
    } else {
        match outcome {
            DecodeOutcome::NeedMore => DispatchResult::Noop,
            DecodeOutcome::Text(s) => if s@.len() == 0 {
                DispatchResult::Closed
            } else {
                DispatchResult::Message(s)
            },
            DecodeOutcome::Close => DispatchResult::Closed,
            DecodeOutcome::Error => DispatchResult::Closed,
        }
    }
}

} // verus!
