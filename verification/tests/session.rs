//! Tests of the session state machines and the failure rule.

use matthias_core::session::{
    call_step, connection_step, error_action, may_send_requests, may_stream, CallEvent,
    CallState, ConnectionEvent, ConnectionState, ErrorAction, ErrorKind, Transport,
};

#[test]
fn connection_lifecycle() {
    let s = ConnectionState::Disconnected;
    let s = connection_step(s, ConnectionEvent::StartConnect);
    assert_eq!(s, ConnectionState::Connecting);
    assert!(!may_send_requests(s));
    let s = connection_step(s, ConnectionEvent::HandshakeAccepted);
    assert_eq!(s, ConnectionState::Connected);
    assert!(may_send_requests(s));
    let s = connection_step(s, ConnectionEvent::FatalError);
    assert_eq!(s, ConnectionState::Disconnected);
    assert!(!may_send_requests(s));
}

#[test]
fn connection_rejection_and_logout() {
    let s = connection_step(ConnectionState::Connecting, ConnectionEvent::HandshakeRejected);
    assert_eq!(s, ConnectionState::Disconnected);
    let s = connection_step(ConnectionState::Connected, ConnectionEvent::Logout);
    assert_eq!(s, ConnectionState::Disconnected);
    // A handshake reply out of place changes nothing.
    let s = connection_step(ConnectionState::Disconnected, ConnectionEvent::HandshakeAccepted);
    assert_eq!(s, ConnectionState::Disconnected);
}

#[test]
fn call_lifecycle() {
    let s = CallState::Idle;
    assert!(!may_stream(s));
    let s = call_step(s, CallEvent::ConnectSent);
    assert_eq!(s, CallState::Joining);
    let s = call_step(s, CallEvent::JoinAccepted);
    assert_eq!(s, CallState::InCall);
    assert!(may_stream(s));
    let s = call_step(s, CallEvent::LeaveRequested);
    assert_eq!(s, CallState::Leaving);
    assert!(!may_stream(s));
    let s = call_step(s, CallEvent::LeaveComplete);
    assert_eq!(s, CallState::Idle);
}

#[test]
fn call_join_refused() {
    let s = call_step(CallState::Joining, CallEvent::JoinRefused);
    assert_eq!(s, CallState::Idle);
    // Losing the session while joining leaves the call cleanly.
    let s = call_step(CallState::Joining, CallEvent::LeaveRequested);
    assert_eq!(s, CallState::Leaving);
}

#[test]
fn failure_rule() {
    // Stream faults are fatal on the reliable channel, droppable on
    // datagrams.
    for kind in [ErrorKind::Framing, ErrorKind::Crypto, ErrorKind::Protocol] {
        assert_eq!(error_action(kind, Transport::Reliable), ErrorAction::FatalSession);
        assert_eq!(error_action(kind, Transport::Datagram), ErrorAction::DropAndCount);
    }
    // Validation faults report and leave state alone.
    assert_eq!(
        error_action(ErrorKind::Authorization, Transport::Reliable),
        ErrorAction::ReportOnly
    );
    assert_eq!(error_action(ErrorKind::State, Transport::Reliable), ErrorAction::ReportOnly);
    // Device faults disable the feature; the session survives.
    assert_eq!(
        error_action(ErrorKind::Resource, Transport::Reliable),
        ErrorAction::ReportAndDisable
    );
}
