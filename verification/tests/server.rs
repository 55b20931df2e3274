use matchbox_hybrid::peer_id::PeerId;
use matchbox_hybrid::state::{HybridState, Notice, PeerEvent, SignalingError};
use matchbox_hybrid::topology::{HybridTopology, Placement, PEER_RATIO};
use std::collections::HashSet;

fn events_for(notices: &[Notice], to: PeerId) -> Vec<&PeerEvent> {
    notices.iter().filter(|n| n.to == to).map(|n| &n.event).collect()
}

/// A super peer (id 100) with `PEER_RATIO` children (ids 1 to `PEER_RATIO`),
/// with the notices of their joining already delivered.
fn full_super_peer() -> HybridState<u32> {
    let mut state: HybridState<u32> = HybridState::new();
    assert_eq!(HybridTopology::peer_joined(&mut state, 100, 0), Placement::Super);
    for child in 1..=PEER_RATIO as PeerId {
        assert_eq!(HybridTopology::peer_joined(&mut state, child, child as u32), Placement::Child(100));
    }
    state.take_outbox();
    state
}

#[test]
fn super_peer_gets_peer_ratio_children() {
    let mut state: HybridState<u32> = HybridState::new();
    assert_eq!(HybridTopology::peer_joined(&mut state, 100, 0), Placement::Super);
    for child in 1..=PEER_RATIO as PeerId {
        assert_eq!(HybridTopology::peer_joined(&mut state, child, 0), Placement::Child(100));
    }
    let notices = state.take_outbox();
    let received: HashSet<PeerId> = events_for(&notices, 100)
        .into_iter()
        .map(|e| match e {
            PeerEvent::NewPeer(id) => *id,
            other => panic!("unexpected event {other:?}"),
        })
        .collect();
    let expected: HashSet<PeerId> = (1..=PEER_RATIO as PeerId).collect();
    assert_eq!(expected, received, "Super peer did not receive all child's NewPeer events");
}

#[test]
fn new_super_peer_then_rebalance() {
    let mut state = full_super_peer();
    assert_eq!(HybridTopology::peer_joined(&mut state, 200, 0), Placement::Super);
    let notices = state.take_outbox();

    let mut former_children = HashSet::new();
    for event in events_for(&notices, 100) {
        match event {
            PeerEvent::PeerLeft(id) => {
                former_children.insert(*id);
            }
            PeerEvent::NewPeer(id) => assert_eq!(*id, 200),
            other => panic!("unexpected event {other:?}"),
        }
    }
    let mut new_children = HashSet::new();
    for event in events_for(&notices, 200) {
        match event {
            PeerEvent::NewPeer(id) => {
                new_children.insert(*id);
            }
            other => panic!("unexpected event {other:?}"),
        }
    }
    assert_eq!(former_children.len(), PEER_RATIO / 2);
    assert_eq!(former_children, new_children, "Children were not transfered correctly");
    // The children with the lowest ids move, and each hears that it left its parent.
    assert_eq!(former_children, HashSet::from([1, 2]));
    assert_eq!(events_for(&notices, 1), vec![&PeerEvent::PeerLeft(100)]);
    assert_eq!(events_for(&notices, 2), vec![&PeerEvent::PeerLeft(100)]);
    assert!(events_for(&notices, 3).is_empty());
}

#[test]
fn child_peer_disconnecting() {
    let mut state: HybridState<u32> = HybridState::new();
    HybridTopology::peer_joined(&mut state, 100, 0);
    assert_eq!(HybridTopology::peer_joined(&mut state, 7, 0), Placement::Child(100));
    let notices = state.take_outbox();
    assert_eq!(events_for(&notices, 100), vec![&PeerEvent::NewPeer(7)]);

    HybridTopology::peer_left(&mut state, 7);
    let notices = state.take_outbox();
    assert_eq!(events_for(&notices, 100), vec![&PeerEvent::PeerLeft(7)]);
    assert!(!state.is_super_peer(&7));
    assert!(state.channel_of(7).is_none());
}

#[test]
fn super_peer_disconnecting() {
    let mut state = full_super_peer();
    HybridTopology::peer_left(&mut state, 100);
    let notices = state.take_outbox();

    for child in 1..=PEER_RATIO as PeerId {
        let events = events_for(&notices, child);
        assert_eq!(events[0], &PeerEvent::PeerLeft(100));
    }
    // The child with the lowest id takes the super peer's place.
    let new_super: PeerId = 1;
    assert!(state.is_super_peer(&new_super));
    let new_children: HashSet<PeerId> = events_for(&notices, new_super)
        .into_iter()
        .filter_map(|e| match e {
            PeerEvent::NewPeer(id) => Some(*id),
            _ => None,
        })
        .collect();
    let expected: HashSet<PeerId> = (2..=PEER_RATIO as PeerId).collect();
    assert_eq!(expected, new_children);
    assert_eq!(state.get_super_peer_ids(), vec![new_super]);
}

#[test]
fn signals_reach_known_peers_only() {
    let mut state: HybridState<u32> = HybridState::new();
    HybridTopology::peer_joined(&mut state, 100, 0);
    HybridTopology::peer_joined(&mut state, 5, 0);
    state.take_outbox();

    assert_eq!(HybridTopology::signal(&mut state, 5, 100, "{\"sdp\":1}".to_string()), Ok(()));
    assert_eq!(
        state.take_outbox(),
        vec![Notice { to: 100, event: PeerEvent::Signal { sender: 5, data: "{\"sdp\":1}".to_string() } }]
    );
    assert_eq!(
        HybridTopology::signal(&mut state, 5, 999, "x".to_string()),
        Err(SignalingError::UnknownPeer)
    );
    assert!(state.take_outbox().is_empty());
}

#[test]
fn super_peers_are_added_at_the_ratio() {
    let mut state: HybridState<u32> = HybridState::new();
    assert!(state.should_add_super_peer(PEER_RATIO));
    HybridTopology::peer_joined(&mut state, 100, 0);
    for child in 1..PEER_RATIO as PeerId {
        HybridTopology::peer_joined(&mut state, child, 0);
        assert!(!state.should_add_super_peer(PEER_RATIO));
    }
    HybridTopology::peer_joined(&mut state, PEER_RATIO as PeerId, 0);
    assert!(state.should_add_super_peer(PEER_RATIO));
}

#[test]
fn least_loaded_super_peer_breaks_ties_by_lowest_id() {
    let mut state: HybridState<u32> = HybridState::new();
    assert_eq!(state.find_least_loaded_super_peer(), None);
    state.add_super_peer(50, 0);
    state.add_super_peer(40, 0);
    assert_eq!(state.find_least_loaded_super_peer(), Some(40));
    state.add_child_peer(1, 0);
    assert_eq!(state.connect_child(1, 40), Ok(()));
    assert_eq!(state.find_least_loaded_super_peer(), Some(50));
    // A new super peer is announced to the existing super peers.
    let notices = state.take_outbox();
    assert_eq!(events_for(&notices, 50), vec![&PeerEvent::NewPeer(40)]);
    assert_eq!(events_for(&notices, 40), vec![&PeerEvent::NewPeer(1)]);
}

#[test]
fn connecting_needs_a_super_peer_and_a_child() {
    let mut state: HybridState<u32> = HybridState::new();
    state.add_super_peer(50, 0);
    state.add_child_peer(1, 0);
    assert_eq!(state.connect_child(1, 2), Err(SignalingError::UnknownPeer));
    assert_eq!(state.connect_child(1, 1), Err(SignalingError::UnknownPeer));
    assert_eq!(state.connect_child(50, 50), Err(SignalingError::UnknownPeer));
    assert!(state.take_outbox().is_empty());
}

#[test]
fn moving_a_child_notifies_all_three() {
    let mut state: HybridState<u32> = HybridState::new();
    state.add_super_peer(50, 0);
    state.add_super_peer(60, 0);
    state.add_child_peer(3, 0);
    state.add_child_peer(2, 0);
    state.connect_child(3, 50).unwrap();
    state.connect_child(2, 50).unwrap();
    state.take_outbox();
    state.move_child(50, 60);
    assert_eq!(
        state.take_outbox(),
        vec![
            Notice { to: 50, event: PeerEvent::PeerLeft(2) },
            Notice { to: 2, event: PeerEvent::PeerLeft(50) },
            Notice { to: 60, event: PeerEvent::NewPeer(2) },
        ]
    );
    assert_eq!(state.find_least_loaded_super_peer(), Some(50));
}

#[test]
fn removing_unknown_peers_changes_nothing() {
    let mut state = full_super_peer();
    state.remove_child_peer(999);
    state.remove_super_peer(999);
    state.remove_super_peer(1);
    assert!(state.take_outbox().is_empty());
    assert_eq!(state.get_super_peer_ids(), vec![100]);
}

#[test]
fn load_balance_with_one_super_peer_does_nothing() {
    let mut state = full_super_peer();
    state.load_balance();
    assert!(state.take_outbox().is_empty());
}

#[test]
fn rebalancing_moves_each_child_at_most_once() {
    let mut state: HybridState<u32> = HybridState::new();
    state.add_super_peer(100, 0);
    for child in 1..=7 {
        state.add_child_peer(child, 0);
        state.connect_child(child, 100).unwrap();
    }
    state.add_super_peer(200, 0);
    state.add_super_peer(300, 0);
    state.take_outbox();
    state.load_balance();
    let notices = state.take_outbox();
    let mut moved = Vec::new();
    for n in &notices {
        if let PeerEvent::NewPeer(c) = n.event {
            assert!(n.to == 200 || n.to == 300);
            moved.push(c);
        }
    }
    // 7 children over 3 super peers: the one that had them all keeps 2, and
    // the children with the least ids move.
    moved.sort();
    assert_eq!(moved, vec![1, 2, 3, 4, 5]);
    for child in 1..=7 {
        let left = notices.iter().filter(|n| n.to == child).count();
        assert!(left <= 1);
    }
    assert!(events_for(&notices, 100).iter().all(|e| matches!(e, PeerEvent::PeerLeft(_))));
}
