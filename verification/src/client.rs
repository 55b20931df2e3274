//! The browser game client: its own position, the positions of the other
//! players, and the super peers it knows; a super peer hands its list of
//! super peers to the peers it is connected to, and forwards packets to the
//! other super peers.

use crate::peer_id::{parse_peer_id, peer_id_to_string, uuid_parse, uuid_text, PeerId};
use crate::text::{decimal, push_decimal};
use crate::wire::{keys_of, packets, Outgoing, Payload, PayloadView};
use std::collections::HashMap;
use vstd::prelude::*;
use vstd::string::StringExecFns;

verus! {

broadcast use vstd::std_specs::hash::group_hash_axioms;

/// Sends packets to peers. The browser's WebRTC socket is one; a test's
/// recording socket is another.
pub trait SocketSender {
    /// Send `data` to `peer`.
    fn send(&self, peer: PeerId, data: Vec<u8>);
}

/// A socket, with a record of every packet handed to it, oldest first,
/// each with the peer it is for. The record is ghost: it is kept for the
/// proofs and takes no room in the program.
pub struct LoggedSocket<T> {
    socket: T,
    log: Ghost<Seq<(PeerId, Seq<u8>)>>,
}

impl<T: SocketSender> LoggedSocket<T> {
    /// `socket`, with nothing handed to it yet.
    pub fn new(socket: T) -> (s: Self)
        ensures
            s.inner() == socket,
            s.sent() == Seq::<(PeerId, Seq<u8>)>::empty(),
    {
        LoggedSocket { socket, log: Ghost(Seq::empty()) }
    }

    /// The socket itself.
    pub closed spec fn inner(&self) -> T {
        self.socket
    }

    /// The packets handed to the socket so far, oldest first.
    pub closed spec fn sent(&self) -> Seq<(PeerId, Seq<u8>)> {
        self.log@
    }

    /// The socket itself.
    pub fn socket(&self) -> (r: &T)
        ensures
            *r == self.inner(),
    {
        &self.socket
    }

    /// Hand `data` for `peer` to the socket.
    pub fn send(&mut self, peer: PeerId, data: Vec<u8>)
        ensures
            final(self).sent() == old(self).sent().push((peer, data@)),
            final(self).inner() == old(self).inner(),
    {
        let ghost bytes = data@;
        self.socket.send(peer, data);
        self.log = Ghost(self.log@.push((peer, bytes)));
    }
}

/// A player's position and velocity, and whose it is where it is another's.
pub struct Position {
    pub peer_id: Option<String>,
    pub x: i32,
    pub y: i32,
    pub x_velocity: i32,
    pub y_velocity: i32,
}

/// The abstract content of a position.
pub open spec fn position_view(p: Position) -> (Option<Seq<char>>, i32, i32, i32, i32) {
    (
        match p.peer_id {
            Some(s) => Some(s@),
            None => None,
        },
        p.x,
        p.y,
        p.x_velocity,
        p.y_velocity,
    )
}

/// A game client.
pub struct Client {
    /// Its own id, once known.
    pub peer_id: Option<PeerId>,
    /// Whether it is a super peer.
    pub is_super: bool,
    /// Its own position.
    pub position: Position,
    /// The last known position and velocity of each other player.
    pub peer_positions: HashMap<PeerId, (i32, i32, i32, i32)>,
    /// The other super peers, for a super peer.
    pub known_super_peers: Vec<PeerId>,
    /// The super peer of a regular peer.
    pub super_peer: Option<PeerId>,
    /// The peers it is connected to.
    pub connected_peers: Vec<PeerId>,
}

/// The JSON text that `serde_json::to_vec` writes for a list of strings.
pub uninterp spec fn json_of_strings(list: Seq<Seq<char>>) -> Seq<u8>;

/// The list of strings that `serde_json::from_slice` reads from some bytes,
/// if they are the JSON text of one.
pub uninterp spec fn strings_of_json(bytes: Seq<u8>) -> Option<Seq<Seq<char>>>;

/// The abstract content of a list of strings.
pub open spec fn texts(v: Seq<String>) -> Seq<Seq<char>> {
    v.map_values(|s: String| s@)
}

/// Writes a list of strings as JSON with `serde_json::to_vec`.
///
/// Trusted: the bytes are `json_of_strings` of the list, and
/// `serde_json::from_slice` reads the list back from them. (`to_vec` cannot
/// fail on strings: it writes into a `Vec`, which takes every byte.)
#[verifier::external_body]
fn strings_to_json(list: &Vec<String>) -> (r: Vec<u8>)
    ensures
        r@ == json_of_strings(texts(list@)),
        strings_of_json(r@) == Some(texts(list@)),
{
    match serde_json::to_vec(list) {
        Ok(bytes) => bytes,
        Err(_) => Vec::new(),
    }
}

/// Reads a list of strings from JSON with `serde_json::from_slice`.
///
/// Trusted: the result is `strings_of_json(bytes)`.
#[verifier::external_body]
fn json_to_strings(bytes: &Vec<u8>) -> (r: Option<Vec<String>>)
    ensures
        match r {
            Some(v) => strings_of_json(bytes@) == Some(texts(v@)),
            None => strings_of_json(bytes@) is None,
        },
{
    serde_json::from_slice::<Vec<String>>(bytes).ok()
}

/// The bytes before the list in a peer-list message: `{"PeerList":`.
pub open spec fn peer_list_head() -> Seq<u8> {
    seq![123u8, 34u8, 80u8, 101u8, 101u8, 114u8, 76u8, 105u8, 115u8, 116u8, 34u8, 58u8]
}

/// The peer-list message around the JSON list `json`, as the messages
/// between clients are written: `{"PeerList":` + `json` + `}`.
pub open spec fn peer_list_message(json: Seq<u8>) -> Seq<u8> {
    peer_list_head() + json + seq![125u8]
}

/// Whether a byte is JSON whitespace: space, tab, line feed or carriage return.
pub open spec fn is_json_space(b: u8) -> bool {
    b == 32u8 || b == 9u8 || b == 10u8 || b == 13u8
}

/// The first position from `i` on that holds no JSON whitespace.
pub open spec fn skip_space(b: Seq<u8>, i: int) -> int
    decreases b.len() - i,
{
    if 0 <= i < b.len() && is_json_space(b[i]) {
        skip_space(b, i + 1)
    } else {
        i
    }
}

/// The end of `b.take(e)` once the JSON whitespace at its end is left out.
pub open spec fn trim_space_end(b: Seq<u8>, e: int) -> int
    decreases e,
{
    if 0 < e <= b.len() && is_json_space(b[e - 1]) {
        trim_space_end(b, e - 1)
    } else {
        e
    }
}

/// The key of a peer-list message: `"PeerList"`.
pub open spec fn peer_list_key() -> Seq<u8> {
    seq![34u8, 80u8, 101u8, 101u8, 114u8, 76u8, 105u8, 115u8, 116u8, 34u8]
}

/// The JSON value inside a peer-list message, if the bytes are one: `{`,
/// the key `"PeerList"`, `:`, the value and `}`, with JSON whitespace
/// allowed between them.
pub open spec fn peer_list_body(bytes: Seq<u8>) -> Option<Seq<u8>> {
    let a = skip_space(bytes, 0);
    let k = skip_space(bytes, a + 1);
    let c = skip_space(bytes, k + 10);
    let e = trim_space_end(bytes, bytes.len() as int);
    if a < bytes.len() && bytes[a] == 123u8 && k + 10 <= bytes.len() && bytes.subrange(k, k + 10) == peer_list_key() && c
        < bytes.len() && bytes[c] == 58u8 && c + 1 < e && bytes[e - 1] == 125u8 {
        Some(bytes.subrange(c + 1, e - 1))
    } else {
        None
    }
}

fn is_space_byte(b: u8) -> (r: bool)
    ensures
        r == is_json_space(b),
{
    b == 32u8 || b == 9u8 || b == 10u8 || b == 13u8
}

/// `skip_space(bytes, i)`.
fn skip_space_from(bytes: &Vec<u8>, i: usize) -> (r: usize)
    requires
        i <= bytes@.len(),
    ensures
        r == skip_space(bytes@, i as int),
        i <= r <= bytes@.len(),
{
    let mut j = i;
    while j < bytes.len() && is_space_byte(bytes[j])
        invariant
            i <= j <= bytes@.len(),
            skip_space(bytes@, i as int) == skip_space(bytes@, j as int),
        decreases bytes@.len() - j,
    {
        j = j + 1;
    }
    j
}

/// The JSON value inside a peer-list message (see `peer_list_body`).
fn peer_list_body_of(bytes: &Vec<u8>) -> (r: Option<Vec<u8>>)
    ensures
        match r {
            Some(v) => peer_list_body(bytes@) == Some(v@),
            None => peer_list_body(bytes@) is None,
        },
{
    let n = bytes.len();
    let a = skip_space_from(bytes, 0);
    if a >= n || bytes[a] != 123u8 {
        return None;
    }
    let k = skip_space_from(bytes, a + 1);
    if n < 10 || k > n - 10 {
        return None;
    }
    let key: Vec<u8> = vec![34u8, 80u8, 101u8, 101u8, 114u8, 76u8, 105u8, 115u8, 116u8, 34u8];
    let mut t: usize = 0;
    while t < 10
        invariant
            t <= 10,
            n == bytes@.len(),
            k + 10 <= n,
            a < n,
            bytes@[a as int] == 123u8,
            a == skip_space(bytes@, 0),
            k == skip_space(bytes@, a + 1),
            key@ == peer_list_key(),
            forall|q: int| 0 <= q < t ==> bytes@[k + q] == key@[q],
        decreases 10 - t,
    {
        if bytes[k + t] != key[t] {
            assert(bytes@.subrange(k as int, k + 10)[t as int] != peer_list_key()[t as int]);
            return None;
        }
        t = t + 1;
    }
    assert(bytes@.subrange(k as int, k + 10) =~= peer_list_key());
    let c = skip_space_from(bytes, k + 10);
    if c >= n || bytes[c] != 58u8 {
        return None;
    }
    let mut e = n;
    while e > 0 && is_space_byte(bytes[e - 1])
        invariant
            e <= n,
            n == bytes@.len(),
            trim_space_end(bytes@, n as int) == trim_space_end(bytes@, e as int),
        decreases e,
    {
        e = e - 1;
    }
    if e <= c + 1 || bytes[e - 1] != 125u8 {
        return None;
    }
    let mut body: Vec<u8> = Vec::new();
    let mut j: usize = c + 1;
    while j < e - 1
        invariant
            c + 1 <= j <= e - 1,
            e <= n,
            n == bytes@.len(),
            body@ == bytes@.subrange(c + 1, j as int),
        decreases e - 1 - j,
    {
        body.push(bytes[j]);
        assert(body@ =~= bytes@.subrange(c + 1, j + 1));
        j = j + 1;
    }
    Some(body)
}

/// The peers named in a peer-list message, if the bytes are one and each
/// name is a UUID.
pub open spec fn peer_list_ids(bytes: Seq<u8>) -> Option<Seq<PeerId>> {
    match peer_list_body(bytes) {
        Some(body) => match strings_of_json(body) {
            Some(list) => if forall|i: int| 0 <= i < list.len() ==> (#[trigger] uuid_parse(list[i])) is Some {
                Some(list.map_values(|s: Seq<char>| uuid_parse(s)->0))
            } else {
                None
            },
            None => None,
        },
        None => None,
    }
}

/// The peer-list message that names `peers`.
pub open spec fn peer_list_packet(peers: Seq<PeerId>) -> Seq<u8> {
    peer_list_message(json_of_strings(peers.map_values(|p: PeerId| uuid_text(p))))
}

/// What `get_position_velocity` reports.
pub open spec fn position_report(id: Option<PeerId>, p: Position) -> Seq<char> {
    match id {
        Some(me) => "Player "@ + uuid_text(me) + " is at position: X="@ + decimal(p.x as int) + ", Y="@ + decimal(
            p.y as int,
        ) + ", X Velocity="@ + decimal(p.x_velocity as int) + ", Y Velocity="@ + decimal(p.y_velocity as int),
        None => "Error getting Position Velocity"@,
    }
}

/// The packets that `send` hands to a socket: a super peer sends `packet` to
/// each super peer it knows, in order; a regular peer with a socket of its own
/// sends it to its super peer, if it has one.
pub open spec fn send_plan(c: Client, packet: Seq<u8>, own_socket: bool) -> Seq<(PeerId, PayloadView)> {
    if c.is_super {
        c.known_super_peers@.map_values(|p: PeerId| (p, PayloadView::Raw(packet)))
    } else if own_socket && c.super_peer is Some {
        seq![(c.super_peer->0, PayloadView::Raw(packet))]
    } else {
        Seq::empty()
    }
}

/// The bytes of raw packets, each with the peer it is for.
pub open spec fn raw_sends(v: Seq<(PeerId, PayloadView)>) -> Seq<(PeerId, Seq<u8>)> {
    v.map_values(|o: (PeerId, PayloadView)| (o.0, o.1->Raw_0))
}

/// Hand each packet of `out`, all of them raw, in order, to `socket`.
pub fn deliver<T: SocketSender>(socket: &mut LoggedSocket<T>, out: &Vec<Outgoing>)
    requires
        forall|i: int| 0 <= i < out@.len() ==> (#[trigger] out@[i]).payload is Raw,
    ensures
        final(socket).sent() == old(socket).sent() + raw_sends(packets(out@)),
{
    let mut i: usize = 0;
    while i < out.len()
        invariant
            i <= out@.len(),
            forall|j: int| 0 <= j < out@.len() ==> (#[trigger] out@[j]).payload is Raw,
            socket.sent() == old(socket).sent() + raw_sends(packets(out@.take(i as int))),
        decreases out@.len() - i,
    {
        let o = &out[i];
        let data = match &o.payload {
            Payload::Raw(b) => b.clone(),
            Payload::Text(_) => Vec::new(),
        };
        assert(data@ =~= packets(out@)[i as int].1->Raw_0);
        socket.send(o.to, data);
        proof {
            assert(out@.take(i + 1) =~= out@.take(i as int).push(out@[i as int]));
            assert(raw_sends(packets(out@.take(i + 1))) =~= raw_sends(packets(out@.take(i as int))).push(
                (out@[i as int].to, data@),
            ));
        }
        i = i + 1;
    }
    assert(out@.take(out@.len() as int) =~= out@);
}

/// The packets that a send plans are raw.
proof fn lemma_plan_is_raw(c: Client, packet: Seq<u8>, own_socket: bool, out: Seq<Outgoing>)
    requires
        packets(out) == send_plan(c, packet, own_socket),
    ensures
        forall|i: int| 0 <= i < out.len() ==> (#[trigger] out[i]).payload is Raw,
{
    assert forall|i: int| 0 <= i < out.len() implies (#[trigger] out[i]).payload is Raw by {
        assert(packets(out).len() == out.len());
        assert(packets(out)[i].1 == out[i].payload@);
        if c.is_super {
            assert(c.known_super_peers@.map_values(|p: PeerId| (p, PayloadView::Raw(packet)))[i] == (
                c.known_super_peers@[i],
                PayloadView::Raw(packet),
            ));
        }
        assert(send_plan(c, packet, own_socket)[i].1 == PayloadView::Raw(packet));
        match out[i].payload {
            Payload::Raw(_) => {},
            Payload::Text(_) => {},
        }
    }
}

impl Client {
    /// A client with no id and no peers, at position (10, 20) at rest.
    pub fn new(is_super: bool) -> (c: Client)
        ensures
            c.peer_id is None,
            c.is_super == is_super,
            position_view(c.position) == (None::<Seq<char>>, 10i32, 20i32, 0i32, 0i32),
            c.peer_positions@ == Map::<PeerId, (i32, i32, i32, i32)>::empty(),
            c.known_super_peers@ == Seq::<PeerId>::empty(),
            c.super_peer is None,
            c.connected_peers@ == Seq::<PeerId>::empty(),
    {
        Client {
            peer_id: None,
            is_super,
            super_peer: None,
            connected_peers: Vec::new(),
            known_super_peers: Vec::new(),
            peer_positions: HashMap::new(),
            position: Position { peer_id: None, x: 10, y: 20, x_velocity: 0, y_velocity: 0 },
        }
    }

    /// Take the id written in `new_id`; an id that is not a UUID is ignored.
    pub fn update_id(&mut self, new_id: String)
        ensures
            final(self).peer_id == match uuid_parse(new_id@) {
                Some(id) => Some(id),
                None => old(self).peer_id,
            },
            final(self).is_super == old(self).is_super,
            final(self).position == old(self).position,
            final(self).peer_positions == old(self).peer_positions,
            final(self).known_super_peers == old(self).known_super_peers,
            final(self).super_peer == old(self).super_peer,
            final(self).connected_peers == old(self).connected_peers,
    {
        match parse_peer_id(new_id.as_str()) {
            Some(id) => {
                self.peer_id = Some(id);
            },
            None => {},
        }
    }

    /// Move the client.
    pub fn update_position(&mut self, x: i32, y: i32, x_velocity: i32, y_velocity: i32)
        ensures
            final(self).position.peer_id == old(self).position.peer_id,
            final(self).position.x == x,
            final(self).position.y == y,
            final(self).position.x_velocity == x_velocity,
            final(self).position.y_velocity == y_velocity,
            final(self).peer_id == old(self).peer_id,
            final(self).is_super == old(self).is_super,
            final(self).peer_positions == old(self).peer_positions,
            final(self).known_super_peers == old(self).known_super_peers,
            final(self).super_peer == old(self).super_peer,
            final(self).connected_peers == old(self).connected_peers,
    {
        self.position.x = x;
        self.position.y = y;
        self.position.x_velocity = x_velocity;
        self.position.y_velocity = y_velocity;
    }

    /// "Player <id> is at position: X=<x>, Y=<y>, X Velocity=<vx>, Y
    /// Velocity=<vy>", or an error text while the id is not known.
    pub fn get_position_velocity(&self) -> (s: String)
        ensures
            s@ == position_report(self.peer_id, self.position),
    {
        match self.peer_id {
            Some(id) => {
                let mut s = "Player ".to_owned();
                let id_text = peer_id_to_string(id);
                s.append(id_text.as_str());
                s.append(" is at position: X=");
                push_decimal(&mut s, self.position.x);
                s.append(", Y=");
                push_decimal(&mut s, self.position.y);
                s.append(", X Velocity=");
                push_decimal(&mut s, self.position.x_velocity);
                s.append(", Y Velocity=");
                push_decimal(&mut s, self.position.y_velocity);
                s
            },
            None => "Error getting Position Velocity".to_owned(),
        }
    }

    /// The x coordinate.
    pub fn x(&self) -> (r: i32)
        ensures
            r == self.position.x,
    {
        self.position.x
    }

    /// The y coordinate.
    pub fn y(&self) -> (r: i32)
        ensures
            r == self.position.y,
    {
        self.position.y
    }

    /// The velocity along x.
    pub fn x_velocity(&self) -> (r: i32)
        ensures
            r == self.position.x_velocity,
    {
        self.position.x_velocity
    }

    /// The velocity along y.
    pub fn y_velocity(&self) -> (r: i32)
        ensures
            r == self.position.y_velocity,
    {
        self.position.y_velocity
    }

    /// Whether the client is a super peer.
    pub fn is_super_peer(&self) -> (r: bool)
        ensures
            r == self.is_super,
    {
        self.is_super
    }

    /// The other players' positions, one for each player whose position is
    /// known, in the order the map is walked, each named by its id.
    pub fn all_positions(&self) -> (r: Vec<Position>)
        ensures
            exists|ids: Seq<PeerId>|
                {
                    &&& ids.no_duplicates()
                    &&& ids.to_set() == self.peer_positions@.dom()
                    &&& r@.len() == ids.len()
                    &&& forall|i: int|
                        0 <= i < ids.len() ==> {
                            let v = self.peer_positions@[#[trigger] ids[i]];
                            position_view(r@[i]) == (Some(uuid_text(ids[i])), v.0, v.1, v.2, v.3)
                        }
                },
    {
        let ids = keys_of(&self.peer_positions);
        let mut r: Vec<Position> = Vec::new();
        let mut i: usize = 0;
        while i < ids.len()
            invariant
                i <= ids@.len(),
                ids@.to_set() == self.peer_positions@.dom(),
                r@.len() == i,
                forall|j: int|
                    0 <= j < i ==> {
                        let v = self.peer_positions@[#[trigger] ids@[j]];
                        position_view(r@[j]) == (Some(uuid_text(ids@[j])), v.0, v.1, v.2, v.3)
                    },
            decreases ids@.len() - i,
        {
            let id = ids[i];
            assert(ids@.to_set().contains(id));
            let v = *self.peer_positions.get(&id).unwrap();
            r.push(Position { peer_id: Some(peer_id_to_string(id)), x: v.0, y: v.1, x_velocity: v.2, y_velocity: v.3 });
            i = i + 1;
        }
        r
    }

    /// The client's id as text, or "Not set".
    pub fn peer_id_string(&self) -> (s: String)
        ensures
            s@ == match self.peer_id {
                Some(id) => uuid_text(id),
                None => "Not set"@,
            },
    {
        match self.peer_id {
            Some(id) => peer_id_to_string(id),
            None => "Not set".to_owned(),
        }
    }

    /// How many peers the client is connected to.
    pub fn connected_peer_count(&self) -> (n: usize)
        ensures
            n == self.connected_peers@.len(),
    {
        self.connected_peers.len()
    }

    /// How many super peers a super peer knows; 0 for a regular peer.
    pub fn known_super_peer_count(&self) -> (n: usize)
        ensures
            n == if self.is_super { self.known_super_peers@.len() } else { 0 },
    {
        if self.is_super {
            self.known_super_peers.len()
        } else {
            0
        }
    }

    /// The packets that sending `packet` hands to a socket (see `send_plan`).
    pub fn send_packets(&self, packet: &Vec<u8>, own_socket: bool) -> (out: Vec<Outgoing>)
        ensures
            packets(out@) == send_plan(*self, packet@, own_socket),
    {
        let mut out: Vec<Outgoing> = Vec::new();
        if self.is_super {
            let mut i: usize = 0;
            while i < self.known_super_peers.len()
                invariant
                    self.is_super,
                    i <= self.known_super_peers@.len(),
                    packets(out@) == self.known_super_peers@.take(i as int).map_values(
                        |p: PeerId| (p, PayloadView::Raw(packet@)),
                    ),
                decreases self.known_super_peers@.len() - i,
            {
                let ghost before = packets(out@);
                let c = packet.clone();
                assert(c@ =~= packet@);
                out.push(Outgoing { to: self.known_super_peers[i], payload: Payload::Raw(c) });
                proof {
                    assert(packets(out@) =~= before.push((self.known_super_peers@[i as int], PayloadView::Raw(packet@))));
                    assert(self.known_super_peers@.take(i + 1) =~= self.known_super_peers@.take(i as int).push(
                        self.known_super_peers@[i as int],
                    ));
                    assert(self.known_super_peers@.take(i + 1).map_values(|p: PeerId| (p, PayloadView::Raw(packet@)))
                        =~= self.known_super_peers@.take(i as int).map_values(|p: PeerId| (p, PayloadView::Raw(packet@))).push(
                        (self.known_super_peers@[i as int], PayloadView::Raw(packet@)),
                    ));
                }
                i = i + 1;
            }
            assert(self.known_super_peers@.take(self.known_super_peers@.len() as int) =~= self.known_super_peers@);
        } else if own_socket {
            if let Some(sp) = self.super_peer {
                let c = packet.clone();
                assert(c@ =~= packet@);
                out.push(Outgoing { to: sp, payload: Payload::Raw(c) });
                assert(packets(out@) =~= send_plan(*self, packet@, own_socket));
            } else {
                assert(packets(out@) =~= send_plan(*self, packet@, own_socket));
            }
        } else {
            assert(packets(out@) =~= send_plan(*self, packet@, own_socket));
        }
        out
    }

    /// A super peer sends `packet` to each super peer it knows, in order
    /// (`send_packets(packet, false)`); a regular peer sends nothing.
    pub fn broadcast_message<T: SocketSender>(&mut self, socket: &mut LoggedSocket<T>, packet: Vec<u8>)
        ensures
            *final(self) == *old(self),
            final(socket).sent() == old(socket).sent() + raw_sends(send_plan(*old(self), packet@, false)),
    {
        if self.is_super {
            let out = self.send_packets(&packet, false);
            proof { lemma_plan_is_raw(*self, packet@, false, out@); }
            deliver(socket, &out);
        } else {
            assert(raw_sends(send_plan(*self, packet@, false)) =~= Seq::<(PeerId, Seq<u8>)>::empty());
        }
    }

    /// A super peer broadcasts `packet` (`broadcast_message`); a regular peer
    /// sends it through its own socket, where it has one, to its super peer
    /// (`send_packets(packet, own_socket is Some)`).
    pub fn send<T: SocketSender>(
        &mut self,
        socket: &mut LoggedSocket<T>,
        own_socket: &mut Option<LoggedSocket<T>>,
        packet: Vec<u8>,
    )
        ensures
            *final(self) == *old(self),
            old(self).is_super ==> final(socket).sent() == old(socket).sent() + raw_sends(
                send_plan(*old(self), packet@, false),
            ) && *final(own_socket) == *old(own_socket),
            !old(self).is_super ==> *final(socket) == *old(socket),
            !old(self).is_super ==> ((*final(own_socket)) is Some <==> (*old(own_socket)) is Some),
            !old(self).is_super && (*old(own_socket)) is Some ==> (*final(own_socket))->0.sent() == (
            *old(own_socket))->0.sent() + raw_sends(send_plan(*old(self), packet@, true)),
    {
        if self.is_super {
            self.broadcast_message(socket, packet);
        } else {
            match own_socket {
                Some(own) => {
                    let out = self.send_packets(&packet, true);
                    proof { lemma_plan_is_raw(*self, packet@, true, out@); }
                    deliver(own, &out);
                },
                None => {},
            }
        }
    }

    /// The peer-list message that names the super peers this client knows.
    pub fn super_peer_list_packet(&self) -> (b: Vec<u8>)
        ensures
            b@ == peer_list_packet(self.known_super_peers@),
            peer_list_ids(b@) == Some(self.known_super_peers@),
    {
        let mut names: Vec<String> = Vec::new();
        let mut i: usize = 0;
        while i < self.known_super_peers.len()
            invariant
                i <= self.known_super_peers@.len(),
                texts(names@) == self.known_super_peers@.take(i as int).map_values(|p: PeerId| uuid_text(p)),
                forall|m: int| 0 <= m < i ==> uuid_parse(#[trigger] texts(names@)[m]) == Some(self.known_super_peers@[m]),
            decreases self.known_super_peers@.len() - i,
        {
            let ghost before = names@;
            names.push(peer_id_to_string(self.known_super_peers[i]));
            proof {
                assert(texts(names@) =~= texts(before).push(uuid_text(self.known_super_peers@[i as int])));
                assert(self.known_super_peers@.take(i + 1) =~= self.known_super_peers@.take(i as int).push(
                    self.known_super_peers@[i as int],
                ));
                assert(self.known_super_peers@.take(i + 1).map_values(|p: PeerId| uuid_text(p))
                    =~= self.known_super_peers@.take(i as int).map_values(|p: PeerId| uuid_text(p)).push(
                    uuid_text(self.known_super_peers@[i as int]),
                ));
            }
            i = i + 1;
        }
        assert(self.known_super_peers@.take(self.known_super_peers@.len() as int) =~= self.known_super_peers@);
        let json = strings_to_json(&names);
        let mut b: Vec<u8> = vec![123u8, 34u8, 80u8, 101u8, 101u8, 114u8, 76u8, 105u8, 115u8, 116u8, 34u8, 58u8];
        let mut j: usize = 0;
        while j < json.len()
            invariant
                j <= json@.len(),
                b@ == peer_list_head() + json@.take(j as int),
            decreases json@.len() - j,
        {
            b.push(json[j]);
            assert(json@.take(j + 1) =~= json@.take(j as int).push(json@[j as int]));
            assert(b@ =~= peer_list_head() + json@.take(j + 1));
            j = j + 1;
        }
        b.push(125u8);
        proof {
            let names_v = self.known_super_peers@.map_values(|p: PeerId| uuid_text(p));
            assert(json@.take(json@.len() as int) =~= json@);
            assert(b@ =~= peer_list_message(json@));
            assert(b@.subrange(0, 12) =~= peer_list_head());
            assert(b@.subrange(12, b@.len() - 1) =~= json@);
            assert(skip_space(b@, 0) == 0);
            assert(skip_space(b@, 1) == 1);
            assert(b@.subrange(1, 11) =~= peer_list_key());
            assert(skip_space(b@, 11) == 11);
            assert(trim_space_end(b@, b@.len() as int) == b@.len());
            assert(peer_list_body(b@) == Some(json@));
            assert(strings_of_json(json@) == Some(names_v));
            assert(texts(names@) == names_v);
            assert forall|k: int| 0 <= k < names_v.len() implies (#[trigger] uuid_parse(names_v[k])) == Some(
                self.known_super_peers@[k],
            ) by {
                assert(names_v[k] == texts(names@)[k]);
            }
            assert(names_v.map_values(|s: Seq<char>| uuid_parse(s)->0) =~= self.known_super_peers@);
        }
        b
    }

    /// The packets that `send_super_peer_list` hands to the socket: a super
    /// peer sends the list of super peers it knows to each peer it is
    /// connected to, in order; a regular peer sends nothing.
    pub fn super_peer_list_packets(&self) -> (out: Vec<Outgoing>)
        ensures
            packets(out@) == if self.is_super {
                self.connected_peers@.map_values(
                    |p: PeerId| (p, PayloadView::Raw(peer_list_packet(self.known_super_peers@))),
                )
            } else {
                Seq::empty()
            },
    {
        let mut out: Vec<Outgoing> = Vec::new();
        if self.is_super {
            let packet = self.super_peer_list_packet();
            let ghost m = PayloadView::Raw(peer_list_packet(self.known_super_peers@));
            let mut i: usize = 0;
            while i < self.connected_peers.len()
                invariant
                    i <= self.connected_peers@.len(),
                    packet@ == peer_list_packet(self.known_super_peers@),
                    m == PayloadView::Raw(peer_list_packet(self.known_super_peers@)),
                    packets(out@) == self.connected_peers@.take(i as int).map_values(|p: PeerId| (p, m)),
                decreases self.connected_peers@.len() - i,
            {
                let ghost before = packets(out@);
                let c = packet.clone();
                assert(c@ =~= packet@);
                out.push(Outgoing { to: self.connected_peers[i], payload: Payload::Raw(c) });
                proof {
                    assert(packets(out@) =~= before.push((self.connected_peers@[i as int], m)));
                    assert(self.connected_peers@.take(i + 1) =~= self.connected_peers@.take(i as int).push(
                        self.connected_peers@[i as int],
                    ));
                    assert(self.connected_peers@.take(i + 1).map_values(|p: PeerId| (p, m))
                        =~= self.connected_peers@.take(i as int).map_values(|p: PeerId| (p, m)).push(
                        (self.connected_peers@[i as int], m),
                    ));
                }
                i = i + 1;
            }
            assert(self.connected_peers@.take(self.connected_peers@.len() as int) =~= self.connected_peers@);
        } else {
            assert(packets(out@) =~= Seq::<(PeerId, PayloadView)>::empty());
        }
        out
    }

    /// A super peer sends the list of super peers it knows to each peer it
    /// is connected to (`super_peer_list_packets`).
    pub fn send_super_peer_list<T: SocketSender>(&self, socket: &mut LoggedSocket<T>)
        ensures
            final(socket).sent() == old(socket).sent() + if self.is_super {
                self.connected_peers@.map_values(|p: PeerId| (p, peer_list_packet(self.known_super_peers@)))
            } else {
                Seq::empty()
            },
    {
        let out = self.super_peer_list_packets();
        proof {
            assert forall|i: int| 0 <= i < out@.len() implies (#[trigger] out@[i]).payload is Raw by {
                assert(packets(out@).len() == out@.len());
                assert(packets(out@)[i].1 == out@[i].payload@);
                assert(self.is_super);
                assert(self.connected_peers@.map_values(
                    |p: PeerId| (p, PayloadView::Raw(peer_list_packet(self.known_super_peers@))),
                )[i] == (self.connected_peers@[i], PayloadView::Raw(peer_list_packet(self.known_super_peers@))));
                assert(packets(out@)[i].1 == PayloadView::Raw(peer_list_packet(self.known_super_peers@)));
                match out@[i].payload {
                    Payload::Raw(_) => {},
                    Payload::Text(_) => {},
                }
            }
            let want = if self.is_super {
                self.connected_peers@.map_values(|p: PeerId| (p, peer_list_packet(self.known_super_peers@)))
            } else {
                Seq::empty()
            };
            assert(raw_sends(packets(out@)) =~= want);
        }
        deliver(socket, &out);
    }

    /// A super peer adds the super peers named in a peer-list message to
    /// those it knows, in order; a regular peer ignores the message.
    pub fn add_super_peer_list(&mut self, peer_list: Vec<u8>)
        requires
            old(self).is_super ==> peer_list_ids(peer_list@) is Some,
        ensures
            final(self).known_super_peers@ == if old(self).is_super {
                old(self).known_super_peers@ + peer_list_ids(peer_list@)->0
            } else {
                old(self).known_super_peers@
            },
            final(self).peer_id == old(self).peer_id,
            final(self).is_super == old(self).is_super,
            final(self).position == old(self).position,
            final(self).peer_positions == old(self).peer_positions,
            final(self).super_peer == old(self).super_peer,
            final(self).connected_peers == old(self).connected_peers,
    {
        if self.is_super {
            let ids = read_peer_list(&peer_list);
            match ids {
                Some(v) => {
                    let mut i: usize = 0;
                    let ghost k0 = self.known_super_peers@;
                    while i < v.len()
                        invariant
                            i <= v@.len(),
                            self.known_super_peers@ == k0 + v@.take(i as int),
                            self.peer_id == old(self).peer_id,
                            self.is_super == old(self).is_super,
                            self.position == old(self).position,
                            self.peer_positions == old(self).peer_positions,
                            self.super_peer == old(self).super_peer,
                            self.connected_peers == old(self).connected_peers,
                        decreases v@.len() - i,
                    {
                        self.known_super_peers.push(v[i]);
                        assert(v@.take(i + 1) =~= v@.take(i as int).push(v@[i as int]));
                        assert(self.known_super_peers@ =~= k0 + v@.take(i + 1));
                        i = i + 1;
                    }
                    assert(v@.take(v@.len() as int) =~= v@);
                },
                None => {},
            }
        }
    }

    /// `add_super_peer_list` where the message is a peer list that names
    /// only UUIDs, or the client is a regular peer; otherwise the client is
    /// left as it is. Whether the message was taken is returned.
    pub fn try_add_super_peer_list(&mut self, peer_list: Vec<u8>) -> (taken: bool)
        ensures
            taken == (!old(self).is_super || peer_list_ids(peer_list@) is Some),
            final(self).known_super_peers@ == if old(self).is_super && taken {
                old(self).known_super_peers@ + peer_list_ids(peer_list@)->0
            } else {
                old(self).known_super_peers@
            },
            final(self).peer_id == old(self).peer_id,
            final(self).is_super == old(self).is_super,
            final(self).position == old(self).position,
            final(self).peer_positions == old(self).peer_positions,
            final(self).super_peer == old(self).super_peer,
            final(self).connected_peers == old(self).connected_peers,
    {
        if !self.is_super {
            return true;
        }
        match read_peer_list(&peer_list) {
            Some(_) => {
                self.add_super_peer_list(peer_list);
                true
            },
            None => false,
        }
    }
}

/// The peers named in a peer-list message (see `peer_list_ids`).
pub fn read_peer_list(bytes: &Vec<u8>) -> (r: Option<Vec<PeerId>>)
    ensures
        match r {
            Some(v) => peer_list_ids(bytes@) == Some(v@),
            None => peer_list_ids(bytes@) is None,
        },
{
    let body = match peer_list_body_of(bytes) {
        Some(b) => b,
        None => {
            return None;
        },
    };
    assert(peer_list_body(bytes@) == Some(body@));
    let names = match json_to_strings(&body) {
        Some(v) => v,
        None => {
            return None;
        },
    };
    let mut ids: Vec<PeerId> = Vec::new();
    let mut i: usize = 0;
    while i < names.len()
        invariant
            i <= names@.len(),
            ids@.len() == i,
            forall|m: int| 0 <= m < i ==> uuid_parse(#[trigger] texts(names@)[m]) == Some(ids@[m]),
            peer_list_body(bytes@) == Some(body@),
            strings_of_json(body@) == Some(texts(names@)),
        decreases names@.len() - i,
    {
        match parse_peer_id(names[i].as_str()) {
            Some(id) => {
                ids.push(id);
            },
            None => {
                assert(!(uuid_parse(texts(names@)[i as int]) is Some));
                return None;
            },
        }
        i = i + 1;
    }
    assert(texts(names@).map_values(|s: Seq<char>| uuid_parse(s)->0) =~= ids@);
    Some(ids)
}

} // verus!
