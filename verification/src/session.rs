//! The session's two state machines — the connection and the call
//! membership — and the classification of errors that decides what
//! survives: only a connected session may issue requests, only a
//! client in the call may stream, and a fault is fatal, dropped or
//! merely reported depending on what failed and where.

use vstd::prelude::*;

verus! {

/// The connection's life: disconnected, handshaking, connected.
#[derive(Clone, Copy, PartialEq, Eq, Structural, Debug)]
pub enum ConnectionState {
    Disconnected,
    Connecting,
    Connected,
}

/// What can happen to a connection.
#[derive(Clone, Copy, PartialEq, Eq, Structural, Debug)]
pub enum ConnectionEvent {
    /// The user asked to connect; the handshake starts.
    StartConnect,
    /// The server accepted the handshake.
    HandshakeAccepted,
    /// The server refused the handshake.
    HandshakeRejected,
    /// A fatal stream error: IO, framing, decrypt or deserialize.
    FatalError,
    /// The user logged out.
    Logout,
}

/// The connection transition.  A fatal error or a logout always
/// disconnects; the handshake moves forward only from the state it
/// belongs to; anything else stands still.
pub open spec fn spec_connection_step(s: ConnectionState, e: ConnectionEvent) -> ConnectionState {
    match e {
        ConnectionEvent::StartConnect => match s {
            ConnectionState::Disconnected => ConnectionState::Connecting,
            _ => s,
        },
        ConnectionEvent::HandshakeAccepted => match s {
            ConnectionState::Connecting => ConnectionState::Connected,
            _ => s,
        },
        ConnectionEvent::HandshakeRejected => match s {
            ConnectionState::Connecting => ConnectionState::Disconnected,
            _ => s,
        },
        ConnectionEvent::FatalError => ConnectionState::Disconnected,
        ConnectionEvent::Logout => ConnectionState::Disconnected,
    }
}

pub fn connection_step(s: ConnectionState, e: ConnectionEvent) -> (r: ConnectionState)
    ensures
        r == spec_connection_step(s, e),
{
    match e {
        ConnectionEvent::StartConnect => match s {
            ConnectionState::Disconnected => ConnectionState::Connecting,
            _ => s,
        },
        ConnectionEvent::HandshakeAccepted => match s {
            ConnectionState::Connecting => ConnectionState::Connected,
            _ => s,
        },
        ConnectionEvent::HandshakeRejected => match s {
            ConnectionState::Connecting => ConnectionState::Disconnected,
            _ => s,
        },
        ConnectionEvent::FatalError => ConnectionState::Disconnected,
        ConnectionEvent::Logout => ConnectionState::Disconnected,
    }
}

/// Only a connected session may issue control-protocol requests.
pub fn may_send_requests(s: ConnectionState) -> (r: bool)
    ensures
        r == (s is Connected),
{
    matches!(s, ConnectionState::Connected)
}

/// The client's place in the voice call.
#[derive(Clone, Copy, PartialEq, Eq, Structural, Debug)]
pub enum CallState {
    Idle,
    Joining,
    InCall,
    Leaving,
}

/// What can happen to the call membership.
#[derive(Clone, Copy, PartialEq, Eq, Structural, Debug)]
pub enum CallEvent {
    /// The join request went out.
    ConnectSent,
    /// The server reported the join succeeded.
    JoinAccepted,
    /// The server refused the join.
    JoinRefused,
    /// The user asked to leave, or the session was lost.
    LeaveRequested,
    /// The leave was acknowledged, or the membership timed out.
    LeaveComplete,
}

/// The call transition: joining starts from idle, the call starts
/// from joining, leaving ends in idle.
pub open spec fn spec_call_step(s: CallState, e: CallEvent) -> CallState {
    match e {
        CallEvent::ConnectSent => match s {
            CallState::Idle => CallState::Joining,
            _ => s,
        },
        CallEvent::JoinAccepted => match s {
            CallState::Joining => CallState::InCall,
            _ => s,
        },
        CallEvent::JoinRefused => match s {
            CallState::Joining => CallState::Idle,
            _ => s,
        },
        CallEvent::LeaveRequested => match s {
            CallState::Joining => CallState::Leaving,
            CallState::InCall => CallState::Leaving,
            _ => s,
        },
        CallEvent::LeaveComplete => match s {
            CallState::Leaving => CallState::Idle,
            _ => s,
        },
    }
}

pub fn call_step(s: CallState, e: CallEvent) -> (r: CallState)
    ensures
        r == spec_call_step(s, e),
{
    match e {
        CallEvent::ConnectSent => match s {
            CallState::Idle => CallState::Joining,
            _ => s,
        },
        CallEvent::JoinAccepted => match s {
            CallState::Joining => CallState::InCall,
            _ => s,
        },
        CallEvent::JoinRefused => match s {
            CallState::Joining => CallState::Idle,
            _ => s,
        },
        CallEvent::LeaveRequested => match s {
            CallState::Joining => CallState::Leaving,
            CallState::InCall => CallState::Leaving,
            _ => s,
        },
        CallEvent::LeaveComplete => match s {
            CallState::Leaving => CallState::Idle,
            _ => s,
        },
    }
}

/// Only a client that is in the call may run its voice and video
/// send tasks.
pub fn may_stream(s: CallState) -> (r: bool)
    ensures
        r == (s is InCall),
{
    matches!(s, CallState::InCall)
}

/// The error taxonomy: what failed.
#[derive(Clone, Copy, PartialEq, Eq, Structural, Debug)]
pub enum ErrorKind {
    /// Length bound exceeded, short read.
    Framing,
    /// MAC failure, bad key.
    Crypto,
    /// Unknown variant, missing field.
    Protocol,
    /// Edit or delete not by the author, bad password.
    Authorization,
    /// An index out of range.
    State,
    /// An audio device or camera failure.
    Resource,
}

/// Which transport the error came in on.
#[derive(Clone, Copy, PartialEq, Eq, Structural, Debug)]
pub enum Transport {
    Reliable,
    Datagram,
}

/// What the supervisor does about an error.
#[derive(Clone, Copy, PartialEq, Eq, Structural, Debug)]
pub enum ErrorAction {
    /// Cancel the session and go to Disconnected.
    FatalSession,
    /// Drop the frame, count it, go on; never surfaces.
    DropAndCount,
    /// Surface a notification; state unchanged.
    ReportOnly,
    /// Surface a notification and disable the feature; the session
    /// survives.
    ReportAndDisable,
}

/// The failure rule: framing, crypto and protocol faults kill the
/// session on the reliable stream but are droppable per-frame on
/// the datagram path; authorization and state faults are reported
/// with the state unchanged; resource faults disable their feature.
pub open spec fn spec_error_action(kind: ErrorKind, transport: Transport) -> ErrorAction {
    match kind {
        ErrorKind::Framing | ErrorKind::Crypto | ErrorKind::Protocol => match transport {
            Transport::Reliable => ErrorAction::FatalSession,
            Transport::Datagram => ErrorAction::DropAndCount,
        },
        ErrorKind::Authorization | ErrorKind::State => ErrorAction::ReportOnly,
        ErrorKind::Resource => ErrorAction::ReportAndDisable,
    }
}

pub fn error_action(kind: ErrorKind, transport: Transport) -> (r: ErrorAction)
    ensures
        r == spec_error_action(kind, transport),
{
    match kind {
        ErrorKind::Framing | ErrorKind::Crypto | ErrorKind::Protocol => match transport {
            Transport::Reliable => ErrorAction::FatalSession,
            Transport::Datagram => ErrorAction::DropAndCount,
        },
        ErrorKind::Authorization | ErrorKind::State => ErrorAction::ReportOnly,
        ErrorKind::Resource => ErrorAction::ReportAndDisable,
    }
}

} // verus!
