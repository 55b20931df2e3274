use matchbox_hybrid::handshake::PeerRole;
use matchbox_hybrid::super_client::{connection_host, ice_server, split_info, Client, HandshakeState, Session};
use matchbox_hybrid::wire::{Outgoing, Payload};
use uuid::Uuid;

fn text(to: u128, s: &str) -> Outgoing {
    Outgoing { to, payload: Payload::Text(s.to_string()) }
}

fn id_text(id: u128) -> String {
    Uuid::from_u128(id).to_string()
}

fn super_session() -> Session {
    let mut s = Session::new();
    s.determine_role(Some(1), None);
    s
}

fn child_session(parent: u128) -> Session {
    let mut s = Session::new();
    s.determine_role(None, Some(parent));
    s
}

#[test]
fn info_is_kept() {
    let mut c = Client::new();
    assert_eq!(c.info(), "");
    c.set_info("level 3".to_string());
    assert_eq!(c.info(), "level 3");
    c.set_url("ws://example.org:3536/".to_string());
    assert_eq!(c.url, "ws://example.org:3536/");
}

#[test]
fn peers_named_by_uuid_are_recorded_and_removed() {
    let mut c = Client::new();
    let a = Uuid::new_v4().as_u128();
    c.add_peer_info(id_text(a), "hello".to_string());
    c.add_super_peer(id_text(a), "s".to_string());
    c.add_child_peer(id_text(a), "c".to_string());
    assert_eq!(c.all_info(), vec![(id_text(a), "hello".to_string())]);
    assert_eq!(c.super_peers[&a], "s");
    assert_eq!(c.child_peers[&a], "c");
    c.remove_peer(id_text(a));
    assert!(c.peer_info.is_empty());
    assert!(c.super_peers.is_empty());
    assert!(c.child_peers.is_empty());
}

#[test]
fn names_that_are_not_uuids_are_refused() {
    let mut c = Client::new();
    assert!(!c.try_add_peer_info("nope".to_string(), "x".to_string()));
    assert!(!c.try_add_super_peer("nope".to_string(), "x".to_string()));
    assert!(!c.try_add_child_peer("nope".to_string(), "x".to_string()));
    assert!(!c.try_remove_peer("nope".to_string()));
    assert!(c.peer_info.is_empty() && c.super_peers.is_empty() && c.child_peers.is_empty());
    let a = Uuid::new_v4().as_u128();
    assert!(c.try_add_peer_info(id_text(a), "x".to_string()));
    assert!(c.try_remove_peer(id_text(a)));
    assert!(c.peer_info.is_empty());
}

#[test]
fn pending_handshakes_are_listed() {
    let mut c = Client::new();
    let a = Uuid::new_v4().as_u128();
    c.peer_handshake_states.insert(a, HandshakeState { attempts: 0, acknowledged: false });
    c.peer_handshake_states.insert(2, HandshakeState { attempts: 5, acknowledged: false });
    c.peer_handshake_states.insert(3, HandshakeState { attempts: 1, acknowledged: true });
    assert_eq!(c.get_peers_to_retry(), vec![id_text(a)]);
}

#[test]
fn connection_host_checks_the_url() {
    assert_eq!(connection_host("   "), Ok(None));
    assert_eq!(connection_host(" ws://example.org:3536/ "), Ok(Some("example.org".to_string())));
    assert_eq!(connection_host("unix:/run/socket"), Err("No host found in URL".to_string()));
    match connection_host("not a url") {
        Err(e) => assert!(e.starts_with("Invalid URL: ")),
        other => panic!("unexpected {other:?}"),
    }
}

#[test]
fn ice_server_is_used_away_from_this_machine() {
    assert!(ice_server("localhost").is_none());
    assert!(ice_server("127.0.0.1").is_none());
    let s = ice_server("example.org").expect("a server");
    assert_eq!(s.urls, vec!["stun:example.org:3478".to_string(), "turn:example.org:3478".to_string()]);
    assert_eq!(s.username, "youruser");
    assert_eq!(s.credential, "yourpassword");
}

#[test]
fn info_messages_are_split_at_the_first_bar() {
    assert_eq!(split_info(&"info|abc|x|y".to_string()), Some(("abc".to_string(), "x|y".to_string())));
    assert_eq!(split_info(&"info||".to_string()), Some((String::new(), String::new())));
    assert_eq!(split_info(&"info|abc".to_string()), None);
    assert_eq!(split_info(&"inf|abc|d".to_string()), None);
}

#[test]
fn connecting_peers_get_the_handshake_of_the_role() {
    let mut c = Client::new();
    let s = super_session();
    assert_eq!(c.on_peer_connected(&s, 7), vec![text(7, "super_handshake")]);
    assert_eq!(c.peer_handshake_states[&7], HandshakeState { attempts: 1, acknowledged: false });

    let mut d = Client::new();
    let s = child_session(9);
    assert!(d.on_peer_connected(&s, 8).is_empty());
    assert_eq!(d.on_peer_connected(&s, 9), vec![text(9, "child_handshake")]);
}

#[test]
fn losing_the_parent_asks_for_the_role_again() {
    let mut c = Client::new();
    let mut s = child_session(9);
    c.on_peer_connected(&s, 9);
    c.last_seen.insert(9, 10);
    c.on_peer_disconnected(&mut s, 8);
    assert!(s.initialized);
    c.on_peer_disconnected(&mut s, 9);
    assert!(!s.initialized);
    assert_eq!(s.self_role, Some(PeerRole::Child));
    assert!(c.peer_handshake_states.is_empty());
    assert_eq!(c.last_seen.get(&9), Some(&10));
}

#[test]
fn information_goes_to_acknowledged_peers() {
    let me = Uuid::new_v4().as_u128();
    let msg = format!("info|{}|ready", id_text(me));
    let mut c = Client::new();
    c.set_info("ready".to_string());
    let s = super_session();
    c.super_peers.insert(4, String::new());
    c.child_peers.insert(5, String::new());
    c.child_peers.insert(6, String::new());
    c.peer_handshake_states.insert(4, HandshakeState { attempts: 1, acknowledged: true });
    c.peer_handshake_states.insert(5, HandshakeState { attempts: 1, acknowledged: false });
    c.peer_handshake_states.insert(6, HandshakeState { attempts: 1, acknowledged: true });
    assert_eq!(c.info_updates(&s, Some(me)), vec![text(4, &msg), text(6, &msg)]);
    assert!(c.info_updates(&s, None).is_empty());

    let child = child_session(4);
    assert_eq!(c.info_updates(&child, Some(me)), vec![text(4, &msg)]);
    assert!(c.info_updates(&Session::new(), Some(me)).is_empty());
}

#[test]
fn information_messages_are_recorded_and_passed_on() {
    let sender = Uuid::new_v4().as_u128();
    let packet = format!("info|{}|score 10", id_text(sender)).into_bytes();
    let mut c = Client::new();
    let s = super_session();
    c.child_peers.insert(5, String::new());
    c.super_peers.insert(7, String::new());
    let mut out = c.on_packet(&s, 5, packet.clone(), None, 1000);
    out.sort_by_key(|o| o.to);
    assert_eq!(out, vec![Outgoing { to: 7, payload: Payload::Raw(packet.clone()) }]);
    assert_eq!(c.peer_info[&sender], "score 10");
    assert_eq!(c.last_seen[&sender], 1000);

    let mut d = Client::new();
    assert!(d.on_packet(&child_session(5), 5, packet, None, 1).is_empty());
    assert_eq!(d.peer_info[&sender], "score 10");

    let mut e = Client::new();
    assert!(e.on_packet(&s, 5, b"info|nope|x".to_vec(), None, 1).is_empty());
    assert!(e.on_packet(&s, 5, b"info|only".to_vec(), None, 1).is_empty());
    assert!(e.peer_info.is_empty() && e.last_seen.is_empty());
}

#[test]
fn acknowledgements_are_answered_with_information() {
    let me = Uuid::new_v4().as_u128();
    let mut c = Client::new();
    c.set_info("hi".to_string());
    let s = super_session();
    c.on_peer_connected(&s, 4);
    let out = c.on_packet(&s, 4, b"super_handshake_ack".to_vec(), Some(me), 0);
    assert_eq!(out, vec![text(4, &format!("info|{}|hi", id_text(me)))]);
    assert!(c.peer_handshake_states[&4].acknowledged);
    assert_eq!(c.super_peers[&4], "OtherSuperPeer");

    let mut d = Client::new();
    let child = child_session(4);
    d.on_peer_connected(&child, 4);
    assert!(d.on_packet(&child, 4, b"super_handshake_ack".to_vec(), Some(me), 0).is_empty());
    assert!(!d.peer_handshake_states[&4].acknowledged);
    let out = d.on_packet(&child, 4, b"child_handshake_ack".to_vec(), None, 0);
    assert!(out.is_empty());
    assert!(d.peer_handshake_states[&4].acknowledged);

    let out = d.on_packet(&child, 4, b"super_handshake".to_vec(), None, 0);
    assert_eq!(out, vec![text(4, "super_handshake_ack")]);
    assert_eq!(d.super_peers[&4], "SuperPeerInfo");
    let out = c.on_packet(&s, 8, b"child_handshake".to_vec(), None, 0);
    assert_eq!(out, vec![text(8, "child_handshake_ack")]);
    assert_eq!(c.child_peers[&8], "ChildPeerInfo");
}

#[test]
fn timeout_retries_and_forgets_silent_peers() {
    let mut c = Client::new();
    let s = super_session();
    c.on_peer_connected(&s, 4);
    c.on_peer_connected(&s, 5);
    c.peer_handshake_states.insert(5, HandshakeState { attempts: 5, acknowledged: false });
    c.super_peers.insert(6, String::new());
    c.peer_info.insert(6, "old".to_string());
    c.last_seen.insert(6, 1000);
    c.last_seen.insert(4, 5000);

    let out = c.on_timeout(&s, 6001);
    assert_eq!(out, vec![text(4, "super_handshake")]);
    assert_eq!(c.peer_handshake_states[&4].attempts, 2);
    assert_eq!(c.peer_handshake_states[&5].attempts, 5);
    assert!(!c.super_peers.contains_key(&6));
    assert!(!c.peer_info.contains_key(&6));
    assert!(!c.last_seen.contains_key(&6));
    // Exactly the silence limit is not yet too long.
    assert_eq!(c.last_seen[&4], 5000);
    c.on_timeout(&s, 10000);
    assert_eq!(c.last_seen.get(&4), Some(&5000));
    c.on_timeout(&s, 10001);
    assert!(c.last_seen.is_empty());
    assert!(!c.peer_handshake_states.contains_key(&4));
}

#[test]
fn one_clients_information_is_recorded_by_another() {
    let a = Uuid::new_v4().as_u128();
    let b = Uuid::new_v4().as_u128();
    let mut sender = Client::new();
    sender.set_info("name=Ada|level=7".to_string());
    let child = child_session(b);
    sender.on_peer_connected(&child, b);
    sender.on_packet(&child, b, b"child_handshake_ack".to_vec(), None, 0);
    let out = sender.info_updates(&child, Some(a));
    assert_eq!(out.len(), 1);
    let bytes = match &out[0].payload {
        Payload::Text(t) => t.clone().into_bytes(),
        Payload::Raw(r) => r.clone(),
    };

    let mut receiver = Client::new();
    let s = super_session();
    receiver.on_packet(&s, a, bytes, None, 42);
    assert_eq!(receiver.peer_info[&a], "name=Ada|level=7");
    assert_eq!(receiver.last_seen[&a], 42);
}

#[test]
fn handshakes_stop_at_the_attempt_limit() {
    let mut c = Client::new();
    let s = super_session();
    c.on_peer_connected(&s, 4);
    let mut sent = 1;
    for _ in 0..20 {
        sent += c.on_timeout(&s, 0).len();
    }
    assert_eq!(sent, 5);
    assert_eq!(c.peer_handshake_states[&4].attempts, 5);
    assert!(c.get_peers_to_retry().is_empty());
}
