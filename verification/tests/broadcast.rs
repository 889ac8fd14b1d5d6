use ws_relay::conn::{DecodeOutcome, DispatchResult, HandshakeOutcome, Phase};
use ws_relay::relay::Relay;

fn establish_one(relay: &mut Relay) -> u64 {
    let id = relay.accept_connection();
    let r = relay.on_handshake_outcome(id, HandshakeOutcome::Done);
    assert_eq!(r, DispatchResult::HandshakeCompleted);
    id
}

#[test]
fn broadcast_reaches_all_established_including_sender() {
    let mut relay = Relay::new();
    let a = establish_one(&mut relay);
    let b = establish_one(&mut relay);
    let c = establish_one(&mut relay);
    let r = relay.on_established_read(b, DecodeOutcome::Text("hey".to_string()));
    assert_eq!(r, DispatchResult::Message("hey".to_string()));
    let targets = relay.broadcast_targets();
    assert_eq!(targets, vec![a, b, c]);
}

#[test]
fn broadcast_skips_connections_awaiting_handshake() {
    let mut relay = Relay::new();
    let ready = establish_one(&mut relay);
    let waiting = relay.accept_connection();
    let targets = relay.broadcast_targets();
    assert_eq!(targets, vec![ready]);
    assert!(relay.is_registered(waiting));
}

#[test]
fn two_clients_echo_then_close() {
    let mut relay = Relay::new();
    let a = establish_one(&mut relay);
    let b = establish_one(&mut relay);

    // A sends "hello": both A and B receive it.
    let r = relay.on_established_read(a, DecodeOutcome::Text("hello".to_string()));
    assert_eq!(r, DispatchResult::Message("hello".to_string()));
    assert_eq!(relay.broadcast_targets(), vec![a, b]);

    // A sends "": A is disconnected, B receives nothing from that event.
    let r = relay.on_established_read(a, DecodeOutcome::Text(String::new()));
    assert_eq!(r, DispatchResult::Closed);
    assert!(relay.close_connection(a));
    assert_eq!(relay.phase_of(b), Some(Phase::Established));

    // B sends "ping": only B receives it, A is already removed.
    let r = relay.on_established_read(b, DecodeOutcome::Text("ping".to_string()));
    assert_eq!(r, DispatchResult::Message("ping".to_string()));
    assert_eq!(relay.broadcast_targets(), vec![b]);
}

#[test]
fn failed_send_does_not_disturb_the_others() {
    let mut relay = Relay::new();
    let a = establish_one(&mut relay);
    let b = establish_one(&mut relay);
    let c = establish_one(&mut relay);
    // A broadcast is issued to all three; the send to b fails abruptly.
    assert_eq!(relay.broadcast_targets(), vec![a, b, c]);
    let failed = vec![b];
    relay.remove_failed(&failed);
    assert_eq!(relay.phase_of(a), Some(Phase::Established));
    assert_eq!(relay.phase_of(b), None);
    assert_eq!(relay.phase_of(c), Some(Phase::Established));
    assert!(!relay.is_registered(b));
    assert_eq!(relay.registration_count(), 2);
    // The next broadcast reaches exactly the survivors.
    assert_eq!(relay.broadcast_targets(), vec![a, c]);
}

#[test]
fn remove_failed_with_no_failures_keeps_everyone() {
    let mut relay = Relay::new();
    let a = establish_one(&mut relay);
    let b = establish_one(&mut relay);
    let failed: Vec<u64> = Vec::new();
    relay.remove_failed(&failed);
    assert_eq!(relay.broadcast_targets(), vec![a, b]);
}

#[test]
fn hundred_clients_each_message_reaches_everyone_once() {
    let mut relay = Relay::new();
    let mut ids: Vec<u64> = Vec::new();
    for _ in 0..100 {
        ids.push(establish_one(&mut relay));
    }
    assert_eq!(relay.established_connections(), 100);
    assert_eq!(relay.registration_count(), 100);
    for (k, sender) in ids.iter().enumerate() {
        let text = format!("message {}", k);
        let r = relay.on_established_read(*sender, DecodeOutcome::Text(text.clone()));
        assert_eq!(r, DispatchResult::Message(text));
        let targets = relay.broadcast_targets();
        // Every client, the sender among them, receives this message.
        assert_eq!(targets, ids);
        // The sender's own copy arrives exactly once.
        assert_eq!(targets.iter().filter(|t| **t == *sender).count(), 1);
    }
}
