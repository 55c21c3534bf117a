//! The per-connection session: a state machine over one accepted socket.
//! Waiting for data races the peer's next bytes against the watchdog's
//! shutdown order; processing serves exactly one request; everything else
//! closes the connection. The surrounding I/O loop performs the actions
//! these steps decide.

use vstd::prelude::*;
use crate::err::Error;

verus! {

#[derive(Clone, Copy, Debug, PartialEq, Eq, Structural)]
/// Where a connection stands.
pub enum SessionState {
    /// Waiting for the peer's next request bytes.
    WaitingForData,
    /// Serving one request.
    Processing,
    /// The socket is being dropped; the session ends.
    Closed,
}

#[derive(Clone, Copy, Debug, PartialEq, Eq, Structural)]
/// What ends a wait: new bytes, the peer closing, or the watchdog's
/// shutdown order after the idle timeout.
pub enum WaitEvent {
    DataArrived,
    PeerClosed,
    ShutdownSignal,
}

#[derive(Clone, Copy, Debug, PartialEq, Eq, Structural)]
/// How serving one request went.
pub enum ProcessOutcome {
    /// A response was fully written; the keep-alive loop goes on.
    Served,
    /// The decoder saw a clean end of stream before any request line.
    NoRequest,
    /// A read or write on the socket failed; no further response may be
    /// attempted on it.
    StreamFailed,
    /// The request was malformed, and the 400 answer was written.
    BadRequestSent,
    /// The request was malformed, and even the 400 answer could not be
    /// written.
    BadRequestSendFailed,
}

/// Where a wait ends up: only fresh data moves the session into
/// processing; a closed peer or the shutdown order closes it.
pub open spec fn spec_wait_step(ev: WaitEvent) -> SessionState {
    match ev {
        WaitEvent::DataArrived => SessionState::Processing,
        WaitEvent::PeerClosed => SessionState::Closed,
        WaitEvent::ShutdownSignal => SessionState::Closed,
    }
}

/// Steps the session out of `WaitingForData`.
pub fn wait_step(state: SessionState, ev: WaitEvent) -> (next: SessionState)
    requires
        state == SessionState::WaitingForData,
    ensures
        next == spec_wait_step(ev),
{
    match ev {
        WaitEvent::DataArrived => SessionState::Processing,
        WaitEvent::PeerClosed => SessionState::Closed,
        WaitEvent::ShutdownSignal => SessionState::Closed,
    }
}

/// Where processing ends up: back to waiting after a served response or a
/// recovered bad request, closed on a clean end of stream or any write
/// failure.
pub open spec fn spec_process_step(outcome: ProcessOutcome) -> SessionState {
    match outcome {
        ProcessOutcome::Served => SessionState::WaitingForData,
        ProcessOutcome::NoRequest => SessionState::Closed,
        ProcessOutcome::StreamFailed => SessionState::Closed,
        ProcessOutcome::BadRequestSent => SessionState::WaitingForData,
        ProcessOutcome::BadRequestSendFailed => SessionState::Closed,
    }
}

/// Steps the session out of `Processing`.
pub fn process_step(state: SessionState, outcome: ProcessOutcome) -> (next: SessionState)
    requires
        state == SessionState::Processing,
    ensures
        next == spec_process_step(outcome),
{
    match outcome {
        ProcessOutcome::Served => SessionState::WaitingForData,
        ProcessOutcome::NoRequest => SessionState::Closed,
        ProcessOutcome::StreamFailed => SessionState::Closed,
        ProcessOutcome::BadRequestSent => SessionState::WaitingForData,
        ProcessOutcome::BadRequestSendFailed => SessionState::Closed,
    }
}

/// How the session answers a decode result: protocol errors are answered
/// with a 400 and the connection is kept; an I/O failure is fatal.
pub open spec fn spec_decode_error_policy(e: Error) -> bool {
    match e {
        Error::StreamIoFailure => false,
        _ => true,
    }
}

/// Whether a decode error is recovered with a 400 answer (true) or must
/// close the connection (false, for stream failures).
pub fn decode_error_recoverable(e: Error) -> (r: bool)
    ensures
        r == spec_decode_error_policy(e),
{
    match e {
        Error::StreamIoFailure => false,
        _ => true,
    }
}

} // verus!
