use matchbox_hybrid::client::{Client, LoggedSocket, SocketSender};
use std::cell::RefCell;
use matchbox_hybrid::peer_id::PeerId;
use std::collections::VecDeque;
use uuid::Uuid;

/// A socket that records what is sent instead of sending it.
struct MockWebRtcSocket {
    sent_messages: RefCell<VecDeque<(PeerId, Vec<u8>)>>,
}

impl MockWebRtcSocket {
    fn new() -> Self {
        Self { sent_messages: RefCell::new(VecDeque::new()) }
    }

    /// The last message sent, taken off the record.
    fn get_last_message(&self) -> Option<(PeerId, Vec<u8>)> {
        self.sent_messages.borrow_mut().pop_back()
    }

    /// Every message sent, oldest first.
    fn get_all_messages(&self) -> Vec<(PeerId, Vec<u8>)> {
        self.sent_messages.borrow().clone().into()
    }
}

impl SocketSender for MockWebRtcSocket {
    fn send(&self, peer: PeerId, data: Vec<u8>) {
        self.sent_messages.borrow_mut().push_back((peer, data));
    }
}

/// A mock socket, logged.
fn mock() -> LoggedSocket<MockWebRtcSocket> {
    LoggedSocket::new(MockWebRtcSocket::new())
}

fn new_peer() -> PeerId {
    Uuid::new_v4().as_u128()
}

fn text_of(peer: PeerId) -> String {
    Uuid::from_u128(peer).to_string()
}

/// The names in a peer-list message.
fn peer_list_names(data: &[u8]) -> Vec<String> {
    let value: serde_json::Value = serde_json::from_slice(data).expect("Failed to deserialize");
    match value.get("PeerList") {
        Some(serde_json::Value::Array(items)) => {
            items.iter().map(|v| v.as_str().expect("a name").to_string()).collect()
        }
        _ => panic!("Expected PeerList message"),
    }
}

#[test]
fn client_test_send_peer_list() {
    println!("Running Send Peer List");
    let mut client = Client::new(true);
    let mut mock_socket = mock();

    let peer1 = new_peer();
    let peer2 = new_peer();
    let connected_peer = new_peer();

    client.known_super_peers.push(peer1);
    client.known_super_peers.push(peer2);
    client.connected_peers.push(connected_peer);

    client.send_super_peer_list(&mut mock_socket);

    let (peer, data) = mock_socket.socket().get_last_message().expect("No message was sent");
    let peers = peer_list_names(&data);
    assert_eq!(peers.len(), 2);
    assert!(peers.contains(&text_of(peer1)));
    assert!(peers.contains(&text_of(peer2)));
    assert_eq!(peer, connected_peer);
}

#[test]
fn client_test_broadcast_message() {
    println!("Running Test Broadcast Message");
    let mut client = Client::new(true);
    let mut mock_socket = mock();
    let peer1 = new_peer();
    let peer2 = new_peer();

    client.known_super_peers.push(peer1);
    client.known_super_peers.push(peer2);

    let packet: Vec<u8> = vec![1, 2, 3, 4];
    client.broadcast_message(&mut mock_socket, packet);

    let sent_messages = mock_socket.socket().get_all_messages();
    assert_eq!(sent_messages.len(), 2);

    let recipients: Vec<PeerId> = sent_messages.iter().map(|(peer, _)| *peer).collect();
    assert!(recipients.contains(&peer1));
    assert!(recipients.contains(&peer2));

    for (_, data) in sent_messages {
        assert_eq!(data, vec![1u8, 2, 3, 4]);
    }
}

#[test]
fn client_test_add_super_peers() {
    println!("Running Adding Super Peer to Local List...");
    let mut send_client = Client::new(true);
    let mut recv_client = Client::new(true);
    let mut mock_socket = mock();

    let peer1 = new_peer();
    let peer2 = new_peer();
    let connected_peer = new_peer();
    send_client.known_super_peers.push(peer1);
    send_client.known_super_peers.push(peer2);
    send_client.connected_peers.push(connected_peer);

    send_client.send_super_peer_list(&mut mock_socket);

    let (_peer, data) = mock_socket.socket().get_last_message().expect("No message was sent");

    recv_client.add_super_peer_list(data);

    let send_peers = send_client.known_super_peers.clone();
    let recv_peers = recv_client.known_super_peers.clone();
    assert!(send_peers.len() == recv_peers.len() && send_peers.iter().all(|p| recv_peers.contains(p)));
}

#[test]
fn client_test_constructor() {
    let client = Client::new(false);
    assert_eq!(client.is_super_peer(), false);
    assert_eq!(client.peer_id, None);
    assert_eq!(client.position.x, 10);
    assert_eq!(client.position.y, 20);
    assert_eq!(client.position.x_velocity, 0);
    assert_eq!(client.position.y_velocity, 0);
    assert_eq!(client.connected_peer_count(), 0);
    assert_eq!(client.known_super_peer_count(), 0);

    let super_client = Client::new(true);
    assert_eq!(super_client.is_super_peer(), true);
    assert_eq!(super_client.peer_id, None);
}

#[test]
fn client_test_update_id() {
    let mut client = Client::new(false);

    let valid_uuid = Uuid::new_v4().to_string();
    client.update_id(valid_uuid.clone());
    assert_eq!(client.peer_id_string(), valid_uuid);

    client.update_id("not-a-valid-uuid".to_string());
    assert_eq!(client.peer_id_string(), valid_uuid);
}

#[test]
fn client_test_update_position() {
    let mut client = Client::new(false);

    client.update_position(100, 200, 5, -3);
    assert_eq!(client.x(), 100);
    assert_eq!(client.y(), 200);
    assert_eq!(client.x_velocity(), 5);
    assert_eq!(client.y_velocity(), -3);

    client.update_position(150, 250, 0, 0);
    assert_eq!(client.x(), 150);
    assert_eq!(client.y(), 250);
    assert_eq!(client.x_velocity(), 0);
    assert_eq!(client.y_velocity(), 0);
}

#[test]
fn client_test_position_getters() {
    let mut client = Client::new(false);
    client.update_position(123, 456, 7, 8);

    assert_eq!(client.x(), 123);
    assert_eq!(client.y(), 456);
    assert_eq!(client.x_velocity(), 7);
    assert_eq!(client.y_velocity(), 8);
}

#[test]
fn client_test_get_position_velocity() {
    let mut client = Client::new(false);

    assert_eq!(client.get_position_velocity(), "Error getting Position Velocity");

    let uuid = Uuid::new_v4().to_string();
    client.update_id(uuid.clone());

    client.update_position(42, 99, 3, -1);
    let expected_format = format!("Player {} is at position: X=42, Y=99, X Velocity=3, Y Velocity=-1", uuid);
    assert_eq!(client.get_position_velocity(), expected_format);
}

#[test]
fn client_test_is_super_peer() {
    let regular_client = Client::new(false);
    let super_client = Client::new(true);

    assert_eq!(regular_client.is_super_peer(), false);
    assert_eq!(super_client.is_super_peer(), true);
}

#[test]
fn client_test_peer_id_string() {
    let mut client = Client::new(false);

    assert_eq!(client.peer_id_string(), "Not set");

    let uuid = Uuid::new_v4().to_string();
    client.update_id(uuid.clone());
    assert_eq!(client.peer_id_string(), uuid);
}

#[test]
fn client_test_connected_peer_count() {
    let mut client = Client::new(false);

    assert_eq!(client.connected_peer_count(), 0);

    let peer1 = new_peer();
    let peer2 = new_peer();
    let peer3 = new_peer();

    client.connected_peers.push(peer1);
    assert_eq!(client.connected_peer_count(), 1);

    client.connected_peers.push(peer2);
    client.connected_peers.push(peer3);
    assert_eq!(client.connected_peer_count(), 3);
}

#[test]
fn client_test_known_super_peer_count() {
    let mut regular_client = Client::new(false);
    let peer1 = new_peer();
    regular_client.known_super_peers.push(peer1);
    assert_eq!(regular_client.known_super_peer_count(), 0);

    let mut super_client = Client::new(true);
    assert_eq!(super_client.known_super_peer_count(), 0);

    let peer2 = new_peer();
    let peer3 = new_peer();

    super_client.known_super_peers.push(peer2);
    assert_eq!(super_client.known_super_peer_count(), 1);

    super_client.known_super_peers.push(peer3);
    assert_eq!(super_client.known_super_peer_count(), 2);
}

#[test]
fn negative_and_extreme_positions_are_written_in_decimal() {
    let mut client = Client::new(false);
    let uuid = Uuid::new_v4().to_string();
    client.update_id(uuid.clone());
    client.update_position(i32::MIN, i32::MAX, -10, 0);
    let expected = format!(
        "Player {} is at position: X=-2147483648, Y=2147483647, X Velocity=-10, Y Velocity=0",
        uuid
    );
    assert_eq!(client.get_position_velocity(), expected);
}

#[test]
fn regular_peer_broadcasts_nothing() {
    let mut client = Client::new(false);
    client.known_super_peers.push(new_peer());
    let mut socket = mock();
    client.broadcast_message(&mut socket, vec![9]);
    assert!(socket.socket().get_all_messages().is_empty());
}

#[test]
fn regular_peer_sends_to_its_super_peer_through_its_own_socket() {
    let mut client = Client::new(false);
    let parent = new_peer();
    client.super_peer = Some(parent);
    let mut shared = mock();
    let mut own = Some(mock());
    client.send(&mut shared, &mut own, vec![5, 6]);
    assert!(shared.socket().get_all_messages().is_empty());
    assert_eq!(own.unwrap().socket().get_all_messages(), vec![(parent, vec![5u8, 6])]);

    let mut lone = mock();
    let mut none: Option<LoggedSocket<MockWebRtcSocket>> = None;
    client.send(&mut lone, &mut none, vec![7]);
    assert!(lone.socket().get_all_messages().is_empty());
}

#[test]
fn super_peer_send_is_a_broadcast() {
    let mut client = Client::new(true);
    let a = new_peer();
    let b = new_peer();
    client.known_super_peers.push(a);
    client.known_super_peers.push(b);
    let mut socket = mock();
    let mut own: Option<LoggedSocket<MockWebRtcSocket>> = Some(mock());
    client.send(&mut socket, &mut own, vec![1]);
    assert!(own.unwrap().socket().get_all_messages().is_empty());
    assert_eq!(socket.socket().get_all_messages(), vec![(a, vec![1u8]), (b, vec![1u8])]);
}

#[test]
fn peer_list_message_is_framed_json() {
    let mut client = Client::new(true);
    let a = new_peer();
    client.known_super_peers.push(a);
    let bytes = client.super_peer_list_packet();
    let expected = format!("{{\"PeerList\":[\"{}\"]}}", text_of(a));
    assert_eq!(String::from_utf8(bytes).unwrap(), expected);
}

#[test]
fn regular_peer_sends_no_peer_list() {
    let mut client = Client::new(false);
    client.known_super_peers.push(new_peer());
    client.connected_peers.push(new_peer());
    assert!(client.super_peer_list_packets().is_empty());
}

#[test]
fn malformed_peer_lists_are_refused() {
    let mut client = Client::new(true);
    assert!(!client.try_add_super_peer_list(b"{\"PeerList\":[\"not-a-uuid\"]}".to_vec()));
    assert!(!client.try_add_super_peer_list(b"[1, 2]".to_vec()));
    assert!(!client.try_add_super_peer_list(b"{\"PeerList\":[1]}".to_vec()));
    assert!(client.known_super_peers.is_empty());

    let a = new_peer();
    let good = format!("{{\"PeerList\":[\"{}\"]}}", text_of(a)).into_bytes();
    assert!(client.try_add_super_peer_list(good));
    assert_eq!(client.known_super_peers, vec![a]);

    let b = new_peer();
    let spaced = format!(" {{ \"PeerList\" :\n [ \"{}\" ] }}\r\n", text_of(b)).into_bytes();
    assert!(client.try_add_super_peer_list(spaced));
    assert_eq!(client.known_super_peers, vec![a, b]);
    assert!(!client.try_add_super_peer_list(b"{\"PeerList\":[]}}".to_vec()));
    assert!(!client.try_add_super_peer_list(b"{\"Peerlist\":[]}".to_vec()));

    let mut regular = Client::new(false);
    assert!(regular.try_add_super_peer_list(b"garbage".to_vec()));
    assert!(regular.known_super_peers.is_empty());
}

#[test]
fn all_positions_name_each_player() {
    let mut client = Client::new(false);
    let a = new_peer();
    let b = new_peer();
    client.peer_positions.insert(a, (10, 20, 1, 2));
    client.peer_positions.insert(b, (30, 40, 3, 4));
    let positions = client.all_positions();
    assert_eq!(positions.len(), 2);
    assert!(positions.iter().any(|p| p.peer_id.as_deref() == Some(text_of(a).as_str())
        && p.x == 10
        && p.y == 20
        && p.x_velocity == 1
        && p.y_velocity == 2));
    assert!(positions.iter().any(|p| p.peer_id.as_deref() == Some(text_of(b).as_str())
        && p.x == 30
        && p.y == 40
        && p.x_velocity == 3
        && p.y_velocity == 4));
}
