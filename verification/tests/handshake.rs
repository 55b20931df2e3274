use matchbox_hybrid::handshake::{
    HandshakeClient, HandshakeState, NetworkState, PeerRole, HANDSHAKE_RETRY_INTERVAL_MS, MAX_HANDSHAKE_ATTEMPTS,
};
use matchbox_hybrid::wire::{Outgoing, Payload};
use uuid::Uuid;

fn text(to: u128, s: &str) -> Outgoing {
    Outgoing { to, payload: Payload::Text(s.to_string()) }
}

fn super_client() -> HandshakeClient {
    let mut c = HandshakeClient::new();
    c.determine_role(Some(1), None);
    c
}

#[test]
fn handshake_state_retries_until_acknowledged_or_exhausted() {
    let mut h = HandshakeState::new(100);
    assert_eq!(h.attempts, 0);
    assert!(!h.acknowledged);
    assert_eq!(h.last_attempt, 100);
    assert!(!h.retry_due(HANDSHAKE_RETRY_INTERVAL_MS as u128 - 1));
    assert!(h.retry_due(HANDSHAKE_RETRY_INTERVAL_MS as u128));
    assert!(!h.should_retry(1099));
    assert!(h.should_retry(1100));
    assert!(!h.should_retry(50));
    h.record_attempt(2000);
    assert_eq!(h.last_attempt, 2000);
    assert!(!h.should_retry(2999));
    assert!(h.should_retry(3000));
    for t in 1..MAX_HANDSHAKE_ATTEMPTS {
        h.record_attempt(2000 + t as u128);
    }
    assert_eq!(h.attempts, MAX_HANDSHAKE_ATTEMPTS);
    assert!(!h.retry_due(u128::MAX));
    assert!(!h.should_retry(u128::MAX));

    let mut g = HandshakeState::new(0);
    g.acknowledge();
    assert!(g.acknowledged);
    assert!(!g.retry_due(u128::MAX));
    assert!(!g.should_retry(u128::MAX));
}

#[test]
fn network_state_adds_and_removes_peers() {
    let mut n = NetworkState::new();
    n.add_super_peer(5, "a".to_string());
    n.add_child_peer(6, "b".to_string());
    n.peer_handshake_states.insert(5, HandshakeState::new(0));
    n.remove_peer(5);
    assert!(n.super_peers.is_empty());
    assert!(n.peer_handshake_states.is_empty());
    assert_eq!(n.child_peers.get(&6).map(String::as_str), Some("b"));
    // A fresh handshake is due once the retry interval has passed.
    n.peer_handshake_states.insert(6, HandshakeState::new(0));
    n.peer_handshake_states.insert(7, HandshakeState::new(500));
    assert!(n.get_peers_to_retry(999).is_empty());
    assert_eq!(n.get_peers_to_retry(1000), vec![6]);
    let mut both = n.get_peers_to_retry(1500);
    both.sort();
    assert_eq!(both, vec![6, 7]);
}

#[test]
fn role_is_learnt_once() {
    let mut c = HandshakeClient::new();
    c.determine_role(None, None);
    assert!(!c.initialized);
    c.determine_role(None, Some(9));
    assert!(c.initialized);
    assert_eq!(c.self_role, Some(PeerRole::Child));
    assert_eq!(c.parent_id, Some(9));
    c.determine_role(Some(3), None);
    assert_eq!(c.self_role, Some(PeerRole::Child));
}

#[test]
fn super_peer_greets_every_connecting_peer() {
    let mut c = super_client();
    let out = c.on_peer_connected(7, 0);
    assert_eq!(out, vec![text(7, "super_handshake")]);
    assert_eq!(c.network_state.peer_handshake_states[&7].attempts, 1);
}

#[test]
fn child_greets_only_its_parent() {
    let mut c = HandshakeClient::new();
    c.determine_role(None, Some(9));
    assert!(c.on_peer_connected(8, 0).is_empty());
    assert_eq!(c.network_state.peer_handshake_states[&8].attempts, 0);
    assert_eq!(c.on_peer_connected(9, 0), vec![text(9, "child_handshake")]);
}

#[test]
fn handshakes_are_recorded_and_acknowledged() {
    let mut c = super_client();
    let out = c.on_packet(4, b"super_handshake".to_vec());
    assert_eq!(out, vec![text(4, "super_handshake_ack")]);
    assert_eq!(c.network_state.super_peers[&4], "OtherSuperPeer");

    let out = c.on_packet(5, b"child_handshake".to_vec());
    assert_eq!(out, vec![text(5, "child_handshake_ack")]);
    assert_eq!(c.network_state.child_peers[&5], "ChildPeerInfo");

    let mut child = HandshakeClient::new();
    child.determine_role(None, Some(4));
    child.on_peer_connected(4, 0);
    let out = child.on_packet(4, b"super_handshake".to_vec());
    assert_eq!(out, vec![text(4, "super_handshake_ack")]);
    assert_eq!(child.network_state.super_peers[&4], "SuperPeerInfo");
    assert!(child.on_packet(4, b"child_handshake_ack".to_vec()).is_empty());
    assert!(child.network_state.peer_handshake_states[&4].acknowledged);
}

#[test]
fn greetings_follow_the_role() {
    let me = Uuid::new_v4().as_u128();
    let me_text = Uuid::from_u128(me).to_string();
    let mut c = super_client();
    c.network_state.add_super_peer(4, "x".to_string());
    c.network_state.add_child_peer(5, "y".to_string());
    let out = c.greetings(Some(me));
    assert_eq!(out.len(), 2);
    assert_eq!(out[0], text(4, &format!("hello_super_peer|{me_text}")));
    assert_eq!(out[1], text(5, &format!("hello_super_peer|{me_text}")));
    assert!(c.greetings(None).is_empty());

    let mut child = HandshakeClient::new();
    child.determine_role(None, Some(4));
    child.on_peer_connected(4, 0);
    assert!(child.greetings(Some(me)).is_empty());
    child.on_packet(4, b"child_handshake_ack".to_vec());
    assert_eq!(child.greetings(Some(me)), vec![text(4, &format!("hello_parent|{me_text}"))]);
}

#[test]
fn super_peer_forwards_other_packets() {
    let mut c = super_client();
    c.network_state.add_child_peer(5, String::new());
    c.network_state.add_child_peer(6, String::new());
    c.network_state.add_super_peer(7, String::new());
    let raw = |to: u128| Outgoing { to, payload: Payload::Raw(b"move".to_vec()) };

    let mut out = c.on_packet(5, b"move".to_vec());
    out.sort_by_key(|o| o.to);
    assert_eq!(out, vec![raw(6), raw(7)]);

    let mut out = c.on_packet(7, b"move".to_vec());
    out.sort_by_key(|o| o.to);
    assert_eq!(out, vec![raw(5), raw(6)]);

    assert!(c.on_packet(99, b"move".to_vec()).is_empty());

    let mut child = HandshakeClient::new();
    child.determine_role(None, Some(4));
    assert!(child.on_packet(4, b"move".to_vec()).is_empty());
}

#[test]
fn handshakes_are_sent_again_as_the_role_asks() {
    let mut c = super_client();
    c.on_peer_connected(4, 0);
    c.on_peer_connected(5, 0);
    let out = c.retry_handshakes(&vec![5, 4], 10);
    assert_eq!(out, vec![text(5, "super_handshake"), text(4, "super_handshake")]);
    assert_eq!(c.network_state.peer_handshake_states[&4].attempts, 2);

    let mut child = HandshakeClient::new();
    child.determine_role(None, Some(4));
    child.on_peer_connected(4, 0);
    child.on_peer_connected(5, 0);
    let out = child.retry_handshakes(&vec![5, 4], 10);
    assert_eq!(out, vec![text(4, "child_handshake")]);
    assert_eq!(child.network_state.peer_handshake_states[&5].attempts, 0);

    // Nothing is due before the retry interval has passed; then each is.
    assert!(c.on_timeout(1009).is_empty());
    let mut out = c.on_timeout(1010);
    out.sort_by_key(|o| o.to);
    assert_eq!(out, vec![text(4, "super_handshake"), text(5, "super_handshake")]);
    assert_eq!(c.network_state.peer_handshake_states[&4].last_attempt, 1010);
}

#[test]
fn disconnected_peers_are_forgotten() {
    let mut c = super_client();
    c.on_peer_connected(4, 0);
    c.on_packet(4, b"super_handshake".to_vec());
    c.on_peer_disconnected(4);
    assert!(c.network_state.super_peers.is_empty());
    assert!(c.network_state.peer_handshake_states.is_empty());
}

#[test]
fn handshakes_are_spaced_and_bounded_over_a_connection() {
    let mut c = super_client();
    let mut send_times = vec![0u128];
    c.on_peer_connected(4, 0);
    for t in (0..20_000u128).step_by(250) {
        if !c.on_timeout(t).is_empty() {
            send_times.push(t);
        }
    }
    assert_eq!(send_times.len(), MAX_HANDSHAKE_ATTEMPTS as usize);
    for w in send_times.windows(2) {
        assert!(w[1] >= w[0] + HANDSHAKE_RETRY_INTERVAL_MS as u128);
    }
    let mut d = super_client();
    d.on_peer_connected(4, 0);
    d.on_packet(4, b"super_handshake_ack".to_vec());
    assert!(d.on_timeout(5000).is_empty());
}
