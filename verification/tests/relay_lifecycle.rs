use ws_relay::conn::{DecodeOutcome, DispatchResult, HandshakeOutcome, Phase, ReadAction};
use ws_relay::relay::Relay;

fn establish_one(relay: &mut Relay) -> u64 {
    let id = relay.accept_connection();
    let r = relay.on_handshake_outcome(id, HandshakeOutcome::Done);
    assert_eq!(r, DispatchResult::HandshakeCompleted);
    id
}

#[test]
fn fresh_relay_is_empty() {
    let relay = Relay::new();
    assert_eq!(relay.connection_count(), 0);
    assert_eq!(relay.registration_count(), 0);
    assert_eq!(relay.established_connections(), 0);
}

#[test]
fn n_connections_all_established() {
    let mut relay = Relay::new();
    for _ in 0..5 {
        establish_one(&mut relay);
    }
    assert_eq!(relay.connection_count(), 5);
    assert_eq!(relay.established_connections(), 5);
    assert_eq!(relay.registration_count(), 5);
}

#[test]
fn accepted_connection_awaits_handshake() {
    let mut relay = Relay::new();
    let id = relay.accept_connection();
    assert_eq!(relay.phase_of(id), Some(Phase::AwaitingHandshake));
    assert!(relay.is_registered(id));
    assert_eq!(relay.established_connections(), 0);
}

#[test]
fn connection_ids_are_fresh_and_increasing() {
    let mut relay = Relay::new();
    let a = relay.accept_connection();
    let b = relay.accept_connection();
    assert!(a < b);
    relay.close_connection(a);
    let c = relay.accept_connection();
    assert!(b < c);
}

#[test]
fn handshake_need_more_keeps_waiting() {
    let mut relay = Relay::new();
    let id = relay.accept_connection();
    let r = relay.on_handshake_outcome(id, HandshakeOutcome::NeedMore);
    assert_eq!(r, DispatchResult::Noop);
    assert_eq!(relay.phase_of(id), Some(Phase::AwaitingHandshake));
}

#[test]
fn handshake_reject_asks_for_closure() {
    let mut relay = Relay::new();
    let id = relay.accept_connection();
    let r = relay.on_handshake_outcome(id, HandshakeOutcome::Reject);
    assert_eq!(r, DispatchResult::Closed);
    assert!(relay.close_connection(id));
    assert_eq!(relay.connection_count(), 0);
    assert_eq!(relay.registration_count(), 0);
}

#[test]
fn read_action_routes_by_phase() {
    let mut relay = Relay::new();
    let waiting = relay.accept_connection();
    let ready = establish_one(&mut relay);
    assert_eq!(relay.read_action(waiting), ReadAction::TryHandshake);
    assert_eq!(relay.read_action(ready), ReadAction::DecodeMessage);
    assert_eq!(relay.read_action(9999), ReadAction::Ignore);
}

#[test]
fn events_for_unknown_ids_are_tolerated() {
    let mut relay = Relay::new();
    let r = relay.on_handshake_outcome(42, HandshakeOutcome::Done);
    assert_eq!(r, DispatchResult::Noop);
    let r = relay.on_established_read(42, DecodeOutcome::Text("hi".to_string()));
    assert_eq!(r, DispatchResult::Noop);
    assert_eq!(relay.connection_count(), 0);
}

#[test]
fn decode_on_awaiting_connection_is_noop() {
    let mut relay = Relay::new();
    let id = relay.accept_connection();
    let r = relay.on_established_read(id, DecodeOutcome::Text("early".to_string()));
    assert_eq!(r, DispatchResult::Noop);
    assert_eq!(relay.phase_of(id), Some(Phase::AwaitingHandshake));
}

#[test]
fn decode_error_closes_connection() {
    let mut relay = Relay::new();
    let id = establish_one(&mut relay);
    let r = relay.on_established_read(id, DecodeOutcome::Error);
    assert_eq!(r, DispatchResult::Closed);
}

#[test]
fn protocol_close_closes_connection() {
    let mut relay = Relay::new();
    let id = establish_one(&mut relay);
    let r = relay.on_established_read(id, DecodeOutcome::Close);
    assert_eq!(r, DispatchResult::Closed);
}

#[test]
fn would_block_is_noop() {
    let mut relay = Relay::new();
    let id = establish_one(&mut relay);
    let r = relay.on_established_read(id, DecodeOutcome::NeedMore);
    assert_eq!(r, DispatchResult::Noop);
    assert_eq!(relay.phase_of(id), Some(Phase::Established));
}

#[test]
fn empty_payload_closes_sender_without_broadcast() {
    let mut relay = Relay::new();
    let sender = establish_one(&mut relay);
    let other = establish_one(&mut relay);
    let r = relay.on_established_read(sender, DecodeOutcome::Text(String::new()));
    assert_eq!(r, DispatchResult::Closed);
    assert!(relay.close_connection(sender));
    assert!(!relay.is_registered(sender));
    assert_eq!(relay.phase_of(sender), None);
    assert_eq!(relay.phase_of(other), Some(Phase::Established));
    assert_eq!(relay.registration_count(), 1);
}

#[test]
fn close_twice_is_noop() {
    let mut relay = Relay::new();
    let id = establish_one(&mut relay);
    let other = establish_one(&mut relay);
    assert!(relay.close_connection(id));
    assert!(!relay.close_connection(id));
    assert!(!relay.close_connection(7777));
    assert_eq!(relay.connection_count(), 1);
    assert_eq!(relay.registration_count(), 1);
    assert_eq!(relay.phase_of(other), Some(Phase::Established));
}
