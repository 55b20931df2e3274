//! The handshake between peers of the hybrid topology, as the command-line
//! client runs it: super peers greet every peer that connects, a child greets
//! its parent, greetings are acknowledged and retried until they are, and a
//! super peer forwards what its children and the other super peers send.

use crate::peer_id::{peer_id_to_string, uuid_text, PeerId};
use crate::wire::{
    delivers_once, keys_of, lemma_sends_each_delivers_once, lossy_text, packets, passes_on, send_to_all, sends_each, text,
    utf8_lossy, Outgoing, Payload, PayloadView,
};
use std::collections::HashMap;
use std::time::Instant;
use vstd::prelude::*;
use vstd::std_specs::iter::IteratorSpec;
use vstd::string::StringExecFns;

verus! {

broadcast use vstd::std_specs::hash::group_hash_axioms;

/// How long to wait before a handshake is sent again, in milliseconds.
pub const HANDSHAKE_RETRY_INTERVAL_MS: u64 = 1000;

/// How many times a handshake is sent at most.
pub const MAX_HANDSHAKE_ATTEMPTS: u8 = 5;

#[verifier::external_type_specification]
#[verifier::external_body]
pub struct ExInstant(Instant);

/// The current instant, from `std::time::Instant::now`. Nothing is claimed of it.
#[verifier::external_body]
fn instant_now() -> Instant {
    Instant::now()
}

/// The milliseconds elapsed since `t`, from `std::time::Instant::elapsed`.
/// Nothing is claimed of the value: it depends on the clock.
#[verifier::external_body]
fn millis_since(t: &Instant) -> u128 {
    t.elapsed().as_millis()
}

/// The client's monotonic clock: times are milliseconds since the clock was
/// started.
pub struct Clock {
    origin: Instant,
}

impl Clock {
    /// A clock started now.
    pub fn new() -> (c: Self) {
        Clock { origin: instant_now() }
    }

    /// The milliseconds since the clock was started. It depends on when it
    /// is read; nothing more is claimed of it.
    pub fn now(&self) -> (t: u128) {
        millis_since(&self.origin)
    }
}

/// The role a client plays in the network.
#[derive(Debug, Clone, Copy, PartialEq, Eq, Structural)]
pub enum PeerRole {
    Super,
    Child,
}

/// The state of the handshake with one peer. Times are readings of the
/// client's `Clock`.
#[derive(Debug, Clone, Copy, PartialEq, Eq, Structural)]
pub struct HandshakeState {
    /// How many times the handshake was sent.
    pub attempts: u8,
    /// When it was last sent (or, before it was sent, when it began).
    pub last_attempt: u128,
    /// Whether the peer acknowledged it.
    pub acknowledged: bool,
}

/// The milliseconds from `last` to `now`; none where `now` is earlier, as
/// `Instant::elapsed` saturates.
pub open spec fn elapsed(last: u128, now: u128) -> int {
    if now >= last {
        now - last
    } else {
        0
    }
}

/// Whether the handshake `h` is due again at `now`: it is not acknowledged,
/// was sent fewer than `MAX_HANDSHAKE_ATTEMPTS` times, and the retry interval
/// has passed since it was last sent.
pub open spec fn due_at(h: HandshakeState, now: u128) -> bool {
    !h.acknowledged && h.attempts < MAX_HANDSHAKE_ATTEMPTS && elapsed(h.last_attempt, now) >= HANDSHAKE_RETRY_INTERVAL_MS
}

/// `h` once the handshake was sent again at `now`.
pub open spec fn attempted(h: HandshakeState, now: u128) -> HandshakeState {
    HandshakeState { attempts: (h.attempts + 1) as u8, last_attempt: now, acknowledged: h.acknowledged }
}

impl HandshakeState {
    /// A handshake not yet sent, begun at `now`.
    pub fn new(now: u128) -> (s: Self)
        ensures
            s.attempts == 0,
            !s.acknowledged,
            s.last_attempt == now,
    {
        HandshakeState { attempts: 0, last_attempt: now, acknowledged: false }
    }

    /// Whether the handshake is due again, `elapsed_ms` milliseconds after it
    /// was last sent: it is not acknowledged, was sent fewer than
    /// `MAX_HANDSHAKE_ATTEMPTS` times, and the retry interval has passed.
    pub fn retry_due(&self, elapsed_ms: u128) -> (b: bool)
        ensures
            b == (!self.acknowledged && self.attempts < MAX_HANDSHAKE_ATTEMPTS && elapsed_ms
                >= HANDSHAKE_RETRY_INTERVAL_MS),
    {
        !self.acknowledged && self.attempts < MAX_HANDSHAKE_ATTEMPTS && elapsed_ms
            >= HANDSHAKE_RETRY_INTERVAL_MS as u128
    }

    /// Whether the handshake is due again at `now` (see `due_at`).
    pub fn should_retry(&self, now: u128) -> (b: bool)
        ensures
            b == due_at(*self, now),
    {
        let elapsed_ms: u128 = if now >= self.last_attempt {
            now - self.last_attempt
        } else {
            0
        };
        self.retry_due(elapsed_ms)
    }

    /// Record that the handshake was sent again, at `now`.
    pub fn record_attempt(&mut self, now: u128)
        requires
            old(self).attempts < u8::MAX,
        ensures
            *final(self) == attempted(*old(self), now),
    {
        self.attempts = self.attempts + 1;
        self.last_attempt = now;
    }

    /// Record that the peer acknowledged the handshake.
    pub fn acknowledge(&mut self)
        ensures
            final(self).acknowledged,
            final(self).attempts == old(self).attempts,
            final(self).last_attempt == old(self).last_attempt,
    {
        self.acknowledged = true;
    }
}

/// A handshake sent at `t` is not due again before `t` plus the retry
/// interval, is never due once acknowledged, and not once it was sent
/// `MAX_HANDSHAKE_ATTEMPTS` times.
pub proof fn law_retry_spacing(h: HandshakeState, t: u128, later: u128)
    requires
        h.attempts < u8::MAX,
        t <= later,
    ensures
        due_at(attempted(h, t), later) ==> later - t >= HANDSHAKE_RETRY_INTERVAL_MS,
        due_at(attempted(h, t), later) ==> !h.acknowledged && h.attempts + 1 < MAX_HANDSHAKE_ATTEMPTS,
{
}

/// The peers a client knows of, and the handshakes with them.
pub struct NetworkState {
    /// Super peers, with any additional info.
    pub super_peers: HashMap<PeerId, String>,
    /// Child peers, with any additional info.
    pub child_peers: HashMap<PeerId, String>,
    /// The handshake with each peer.
    pub peer_handshake_states: HashMap<PeerId, HandshakeState>,
}

/// The abstract content of a map of infos.
pub open spec fn infos(m: Map<PeerId, String>) -> Map<PeerId, Seq<char>> {
    m.map_values(|s: String| s@)
}

/// The peers of `h` whose handshake is due at `now`.
pub open spec fn due_peers(h: Map<PeerId, HandshakeState>, now: u128) -> Set<PeerId> {
    h.dom().filter(|k: PeerId| due_at(h[k], now))
}

impl NetworkState {
    /// No peers known.
    pub fn new() -> (s: Self)
        ensures
            s.super_peers@ == Map::<PeerId, String>::empty(),
            s.child_peers@ == Map::<PeerId, String>::empty(),
            s.peer_handshake_states@ == Map::<PeerId, HandshakeState>::empty(),
    {
        NetworkState { super_peers: HashMap::new(), child_peers: HashMap::new(), peer_handshake_states: HashMap::new() }
    }

    /// Record a super peer with its info.
    pub fn add_super_peer(&mut self, peer: PeerId, info: String)
        ensures
            final(self).super_peers@ == old(self).super_peers@.insert(peer, info),
            final(self).child_peers@ == old(self).child_peers@,
            final(self).peer_handshake_states@ == old(self).peer_handshake_states@,
    {
        self.super_peers.insert(peer, info);
    }

    /// Record a child peer with its info.
    pub fn add_child_peer(&mut self, peer: PeerId, info: String)
        ensures
            final(self).child_peers@ == old(self).child_peers@.insert(peer, info),
            final(self).super_peers@ == old(self).super_peers@,
            final(self).peer_handshake_states@ == old(self).peer_handshake_states@,
    {
        self.child_peers.insert(peer, info);
    }

    /// Forget a peer.
    pub fn remove_peer(&mut self, peer: PeerId)
        ensures
            final(self).super_peers@ == old(self).super_peers@.remove(peer),
            final(self).child_peers@ == old(self).child_peers@.remove(peer),
            final(self).peer_handshake_states@ == old(self).peer_handshake_states@.remove(peer),
    {
        self.super_peers.remove(&peer);
        self.child_peers.remove(&peer);
        self.peer_handshake_states.remove(&peer);
    }

    /// The peers whose handshake is due again at `now` (see `due_at`), each
    /// once, in the order the map is walked.
    pub fn get_peers_to_retry(&self, now: u128) -> (r: Vec<PeerId>)
        ensures
            r@.no_duplicates(),
            r@.to_set() == due_peers(self.peer_handshake_states@, now),
    {
        let keys = keys_of(&self.peer_handshake_states);
        let ghost h = self.peer_handshake_states@;
        let mut r: Vec<PeerId> = Vec::new();
        let mut i: usize = 0;
        while i < keys.len()
            invariant
                i <= keys@.len(),
                h == self.peer_handshake_states@,
                keys@.no_duplicates(),
                keys@.to_set() == h.dom(),
                r@.no_duplicates(),
                r@.to_set() == keys@.take(i as int).to_set().filter(|p: PeerId| due_at(h[p], now)),
            decreases keys@.len() - i,
        {
            let k = keys[i];
            let ghost r0 = r@;
            proof {
                assert(keys@.take(i + 1) =~= keys@.take(i as int).push(k));
                keys@.take(i as int).lemma_push_to_set_commute(k);
                assert(!r0.contains(k)) by {
                    if r0.contains(k) {
                        assert(r0.to_set().contains(k));
                        let j = choose|j: int| 0 <= j < i && keys@.take(i as int)[j] == k;
                        assert(keys@[j] == keys@[i as int]);
                    }
                }
                assert(keys@.to_set().contains(k));
            }
            let state = *self.peer_handshake_states.get(&k).unwrap();
            if state.should_retry(now) {
                r.push(k);
                proof {
                    r0.lemma_push_to_set_commute(k);
                }
            }
            assert(r@.to_set() =~= keys@.take(i + 1).to_set().filter(|p: PeerId| due_at(h[p], now)));
            i = i + 1;
        }
        assert(keys@.take(keys@.len() as int) =~= keys@);
        assert(r@.to_set() =~= due_peers(h, now));
        r
    }
}

/// Send a handshake to `peer` at `now`, if a handshake with it is under way:
/// its attempt is recorded and the handshake message queued.
pub fn send_handshake(network_state: &mut NetworkState, peer: PeerId, handshake_msg: &str, now: u128) -> (r: Option<
    Outgoing,
>)
    requires
        old(network_state).peer_handshake_states@.contains_key(peer) ==> old(network_state).peer_handshake_states@[peer].attempts
            < u8::MAX,
    ensures
        final(network_state).super_peers@ == old(network_state).super_peers@,
        final(network_state).child_peers@ == old(network_state).child_peers@,
        !old(network_state).peer_handshake_states@.contains_key(peer) ==> r is None
            && final(network_state).peer_handshake_states@ == old(network_state).peer_handshake_states@,
        old(network_state).peer_handshake_states@.contains_key(peer) ==> {
            &&& r matches Some(o) && o.to == peer && o.payload@ == PayloadView::Text(handshake_msg@)
            &&& final(network_state).peer_handshake_states@ == old(network_state).peer_handshake_states@.insert(
                peer,
                attempted(old(network_state).peer_handshake_states@[peer], now),
            )
        },
{
    let ghost m = network_state.peer_handshake_states@;
    match network_state.peer_handshake_states.remove(&peer) {
        None => {
            assert(network_state.peer_handshake_states@ =~= m);
            None
        },
        Some(mut state) => {
            state.record_attempt(now);
            network_state.peer_handshake_states.insert(peer, state);
            assert(network_state.peer_handshake_states@ =~= m.insert(peer, attempted(m[peer], now)));
            Some(Outgoing { to: peer, payload: text(handshake_msg) })
        },
    }
}

/// The greeting text `prefix` followed by the peer's id.
fn greeting(prefix: &str, my_id: PeerId) -> (s: String)
    ensures
        s@ == prefix@ + uuid_text(my_id),
{
    let mut s = prefix.to_owned();
    let id = peer_id_to_string(my_id);
    s.append(id.as_str());
    s
}

/// `seg` sends `p` once to each peer of `first`, then once to each peer of `second`.
pub open spec fn greets_all(seg: Seq<(PeerId, PayloadView)>, first: Set<PeerId>, second: Set<PeerId>, p: PayloadView) -> bool {
    &&& seg.len() == first.len() + second.len()
    &&& sends_each(seg.subrange(0, first.len() as int), first, p)
    &&& sends_each(seg.subrange(first.len() as int, seg.len() as int), second, p)
}

/// A list that greets each peer of two finite sets passes the payload on
/// to each of them, to no one else, and twice only to a peer in both.
pub proof fn lemma_greets_all_passes_on(out: Seq<(PeerId, PayloadView)>, first: Set<PeerId>, second: Set<PeerId>, p: PayloadView)
    requires
        first.finite(),
        second.finite(),
        greets_all(out, first, second, p),
    ensures
        passes_on(out, first, second, p),
{
    let k = first.len() as int;
    let seg1 = out.subrange(0, k);
    let seg2 = out.subrange(k, out.len() as int);
    lemma_sends_each_delivers_once(seg1, first, p);
    lemma_sends_each_delivers_once(seg2, second, p);
    assert forall|t: PeerId| first.contains(t) || second.contains(t) implies exists|i: int|
        0 <= i < out.len() && #[trigger] out[i] == (t, p) by {
        if first.contains(t) {
            let i = choose|i: int| 0 <= i < seg1.len() && #[trigger] seg1[i] == (t, p);
            assert(out[i] == seg1[i]);
        } else {
            let i = choose|i: int| 0 <= i < seg2.len() && #[trigger] seg2[i] == (t, p);
            assert(out[k + i] == seg2[i]);
        }
    }
    assert forall|i: int| 0 <= i < out.len() implies (first.contains(#[trigger] out[i].0) || second.contains(out[i].0))
        && out[i].1 == p by {
        if i < k {
            assert(out[i] == seg1[i]);
        } else {
            assert(out[i] == seg2[i - k]);
        }
    }
    assert forall|i: int, j: int|
        0 <= i < j < out.len() && #[trigger] out[i].0 == #[trigger] out[j].0 implies first.contains(out[i].0)
            && second.contains(out[i].0) by {
        if j < k {
            assert(out[i] == seg1[i] && out[j] == seg1[j]);
        } else if k <= i {
            assert(out[i] == seg2[i - k] && out[j] == seg2[j - k]);
        } else {
            assert(out[i] == seg1[i] && out[j] == seg2[j - k]);
        }
    }
}

/// The packets of a part of a list are that part of its packets.
pub proof fn lemma_packets_split(v: Seq<Outgoing>, k: int)
    requires
        0 <= k <= v.len(),
    ensures
        packets(v).subrange(0, k) == packets(v.subrange(0, k)),
        packets(v).subrange(k, v.len() as int) == packets(v.subrange(k, v.len() as int)),
{
    assert(packets(v).subrange(0, k) =~= packets(v.subrange(0, k)));
    assert(packets(v).subrange(k, v.len() as int) =~= packets(v.subrange(k, v.len() as int)));
}

/// The handshakes of `h` with the one with `peer`, if any, acknowledged.
pub open spec fn acknowledged_in(h: Map<PeerId, HandshakeState>, peer: PeerId) -> Map<PeerId, HandshakeState> {
    if h.contains_key(peer) {
        h.insert(peer, HandshakeState { acknowledged: true, ..h[peer] })
    } else {
        h
    }
}

/// What handling the packet `packet` from `from` does to a client `c`, giving
/// `n` and the packets `out`.
pub open spec fn packet_handled(
    c: HandshakeClient,
    n: HandshakeClient,
    from: PeerId,
    packet: Seq<u8>,
    out: Seq<(PeerId, PayloadView)>,
) -> bool {
    let m = utf8_lossy(packet);
    let sup = c.self_role == Some(PeerRole::Super);
    let supers = c.network_state.super_peers@;
    let children = c.network_state.child_peers@;
    let hs = c.network_state.peer_handshake_states@;
    if m == "super_handshake"@ {
        &&& infos(n.network_state.super_peers@) == infos(supers).insert(
            from,
            if sup { "OtherSuperPeer"@ } else { "SuperPeerInfo"@ },
        )
        &&& n.network_state.child_peers@ == children
        &&& n.network_state.peer_handshake_states@ == hs
        &&& out == seq![(from, PayloadView::Text("super_handshake_ack"@))]
    } else if m == "super_handshake_ack"@ {
        &&& infos(n.network_state.super_peers@) == (if sup {
            infos(supers).insert(from, "OtherSuperPeer"@)
        } else {
            infos(supers)
        })
        &&& n.network_state.child_peers@ == children
        &&& n.network_state.peer_handshake_states@ == acknowledged_in(hs, from)
        &&& out.len() == 0
    } else if m == "child_handshake"@ {
        &&& n.network_state.super_peers@ == supers
        &&& infos(n.network_state.child_peers@) == infos(children).insert(from, "ChildPeerInfo"@)
        &&& n.network_state.peer_handshake_states@ == hs
        &&& out == seq![(from, PayloadView::Text("child_handshake_ack"@))]
    } else if m == "child_handshake_ack"@ {
        &&& n.network_state.super_peers@ == supers
        &&& n.network_state.child_peers@ == children
        &&& n.network_state.peer_handshake_states@ == acknowledged_in(hs, from)
        &&& out.len() == 0
    } else {
        &&& n.network_state.super_peers@ == supers
        &&& n.network_state.child_peers@ == children
        &&& n.network_state.peer_handshake_states@ == hs
        &&& if sup && children.contains_key(from) {
            greets_all(out, children.dom().remove(from), supers.dom().remove(from), PayloadView::Raw(packet))
        } else if sup && supers.contains_key(from) {
            sends_each(out, children.dom(), PayloadView::Raw(packet))
        } else {
            out.len() == 0
        }
    }
}

/// A packet that is none of the handshake words, which a super peer relays.
pub open spec fn not_a_handshake(m: Seq<char>) -> bool {
    &&& m != "super_handshake"@
    &&& m != "super_handshake_ack"@
    &&& m != "child_handshake"@
    &&& m != "child_handshake_ack"@
}

/// A super peer relays a packet from one of its super peers (that is not
/// also its child) to each of its children, exactly once, and to no one
/// else; the peers it knows and its handshakes stay as they were.
pub proof fn law_relay_from_super_peer(
    c: HandshakeClient,
    n: HandshakeClient,
    from: PeerId,
    packet: Seq<u8>,
    out: Seq<(PeerId, PayloadView)>,
)
    requires
        c.network_state.child_peers@.dom().finite(),
        packet_handled(c, n, from, packet, out),
        c.self_role == Some(PeerRole::Super),
        not_a_handshake(utf8_lossy(packet)),
        c.network_state.super_peers@.contains_key(from),
        !c.network_state.child_peers@.contains_key(from),
    ensures
        n.network_state.super_peers@ == c.network_state.super_peers@,
        n.network_state.child_peers@ == c.network_state.child_peers@,
        n.network_state.peer_handshake_states@ == c.network_state.peer_handshake_states@,
        delivers_once(out, c.network_state.child_peers@.dom(), PayloadView::Raw(packet)),
{
    lemma_sends_each_delivers_once(out, c.network_state.child_peers@.dom(), PayloadView::Raw(packet));
}

/// A super peer relays a packet from one of its children to each other
/// child and each super peer other than the sender, once in each role, and
/// to no one else; the peers it knows and its handshakes stay as they were.
pub proof fn law_relay_from_child(
    c: HandshakeClient,
    n: HandshakeClient,
    from: PeerId,
    packet: Seq<u8>,
    out: Seq<(PeerId, PayloadView)>,
)
    requires
        c.network_state.child_peers@.dom().finite(),
        c.network_state.super_peers@.dom().finite(),
        packet_handled(c, n, from, packet, out),
        c.self_role == Some(PeerRole::Super),
        not_a_handshake(utf8_lossy(packet)),
        c.network_state.child_peers@.contains_key(from),
    ensures
        n.network_state.super_peers@ == c.network_state.super_peers@,
        n.network_state.child_peers@ == c.network_state.child_peers@,
        n.network_state.peer_handshake_states@ == c.network_state.peer_handshake_states@,
        passes_on(
            out,
            c.network_state.child_peers@.dom().remove(from),
            c.network_state.super_peers@.dom().remove(from),
            PayloadView::Raw(packet),
        ),
{
    lemma_greets_all_passes_on(
        out,
        c.network_state.child_peers@.dom().remove(from),
        c.network_state.super_peers@.dom().remove(from),
        PayloadView::Raw(packet),
    );
}

/// The state that the client keeps between events: whether it knows its role
/// yet, the role, its parent when it is a child, and the peers it knows.
pub struct HandshakeClient {
    pub initialized: bool,
    pub network_state: NetworkState,
    pub parent_id: Option<PeerId>,
    pub self_role: Option<PeerRole>,
}

/// The handshake text a client in `role` sends to `peer` when it connects, if any.
pub open spec fn connect_greeting(role: Option<PeerRole>, parent: Option<PeerId>, peer: PeerId) -> Option<Seq<char>> {
    if role == Some(PeerRole::Super) {
        Some("super_handshake"@)
    } else if parent == Some(peer) {
        Some("child_handshake"@)
    } else {
        None
    }
}

/// The handshake text a client in `role` sends again to `peer` whose
/// handshake is due, if any: a super peer sends the super handshake, a child
/// the child handshake, to its parent only.
pub open spec fn retry_greeting(role: Option<PeerRole>, parent: Option<PeerId>, peer: PeerId) -> Option<Seq<char>> {
    match role {
        Some(PeerRole::Super) => Some("super_handshake"@),
        Some(PeerRole::Child) => if parent == Some(peer) {
            Some("child_handshake"@)
        } else {
            None
        },
        None => None,
    }
}

/// The handshakes sent again to the peers of `due` in turn, those of them
/// with a handshake under way (in `known`) that `retry_greeting` picks.
pub open spec fn retries(due: Seq<PeerId>, role: Option<PeerRole>, parent: Option<PeerId>, known: Set<PeerId>) -> Seq<
    (PeerId, PayloadView),
>
    decreases due.len(),
{
    if due.len() == 0 {
        Seq::empty()
    } else {
        let rest = retries(due.drop_last(), role, parent, known);
        let p = due.last();
        match retry_greeting(role, parent, p) {
            Some(t) => if known.contains(p) {
                rest.push((p, PayloadView::Text(t)))
            } else {
                rest
            },
            None => rest,
        }
    }
}

/// The handshakes `h` once those with the peers of `due` that
/// `retry_greeting` picks were sent again at `now`: one attempt more each.
pub open spec fn bumped(
    h: Map<PeerId, HandshakeState>,
    due: Set<PeerId>,
    role: Option<PeerRole>,
    parent: Option<PeerId>,
    now: u128,
) -> Map<PeerId, HandshakeState> {
    Map::new(
        |k: PeerId| h.contains_key(k),
        |k: PeerId|
            if due.contains(k) && retry_greeting(role, parent, k) is Some {
                attempted(h[k], now)
            } else {
                h[k]
            },
    )
}

/// Sending again the handshakes that are due never takes a handshake past
/// `MAX_HANDSHAKE_ATTEMPTS` attempts, never sends one that was acknowledged,
/// and leaves acknowledgements as they were.
pub proof fn law_retries_stay_within_limit(
    h: Map<PeerId, HandshakeState>,
    role: Option<PeerRole>,
    parent: Option<PeerId>,
    now: u128,
)
    ensures
        forall|p: PeerId|
            #[trigger] h.contains_key(p) && h[p].attempts <= MAX_HANDSHAKE_ATTEMPTS ==> bumped(
                h,
                due_peers(h, now),
                role,
                parent,
                now,
            )[p].attempts <= MAX_HANDSHAKE_ATTEMPTS,
        forall|p: PeerId|
            #[trigger] h.contains_key(p) && h[p].acknowledged ==> bumped(h, due_peers(h, now), role, parent, now)[p]
                == h[p],
        forall|p: PeerId|
            #[trigger] h.contains_key(p) ==> bumped(h, due_peers(h, now), role, parent, now)[p].acknowledged
                == h[p].acknowledged,
{
}

/// How one step of the client may change the handshake with a peer, from
/// `a` to `b`, at `now`: it is left alone, or acknowledged, or, where it was
/// due, sent once more (`attempted`).
pub open spec fn handshake_step(a: HandshakeState, b: HandshakeState, now: u128) -> bool {
    ||| b == a
    ||| b == HandshakeState { acknowledged: true, ..a }
    ||| due_at(a, now) && b == attempted(a, now)
}

/// A packet changes the handshake with each peer by a step: it is left
/// alone or acknowledged, whatever the time.
pub proof fn law_packet_is_a_step(c: HandshakeClient, n: HandshakeClient, from: PeerId, packet: Seq<u8>, out: Seq<
    (PeerId, PayloadView),
>, now: u128)
    requires
        packet_handled(c, n, from, packet, out),
    ensures
        forall|p: PeerId|
            #[trigger] c.network_state.peer_handshake_states@.contains_key(p) ==> n.network_state.peer_handshake_states@.contains_key(p)
                && handshake_step(
                c.network_state.peer_handshake_states@[p],
                n.network_state.peer_handshake_states@[p],
                now,
            ),
{
}

/// The retry timer changes the handshake with each peer by a step: the
/// handshakes due are sent once more, the others are left alone.
pub proof fn law_timeout_is_a_step(h: Map<PeerId, HandshakeState>, role: Option<PeerRole>, parent: Option<PeerId>, now: u128)
    ensures
        forall|p: PeerId|
            #[trigger] h.contains_key(p) ==> bumped(h, due_peers(h, now), role, parent, now).contains_key(p)
                && handshake_step(h[p], bumped(h, due_peers(h, now), role, parent, now)[p], now),
{
}

/// Over one connection with a peer: the handshake begins at `times[0]`
/// (sent at most once then, unacknowledged), and each later step, at a time
/// that does not go back, is a `handshake_step`. Then the handshake is sent
/// at most `MAX_HANDSHAKE_ATTEMPTS` times; each time it is sent again it was
/// not acknowledged; and it is sent again no sooner than the retry interval
/// after it was last sent, or after the connection began.
pub proof fn law_connection_handshakes(hs: Seq<HandshakeState>, times: Seq<u128>)
    requires
        hs.len() == times.len(),
        hs.len() >= 1,
        hs[0].attempts <= 1,
        !hs[0].acknowledged,
        hs[0].last_attempt == times[0],
        forall|k: int| 0 <= k < times.len() - 1 ==> #[trigger] times[k] <= times[k + 1],
        forall|k: int| 0 <= k < hs.len() - 1 ==> handshake_step(#[trigger] hs[k], hs[k + 1], times[k + 1]),
    ensures
        forall|k: int| 0 <= k < hs.len() ==> (#[trigger] hs[k]).attempts <= MAX_HANDSHAKE_ATTEMPTS,
        forall|k: int|
            0 <= k < hs.len() - 1 && (#[trigger] hs[k + 1]).attempts != hs[k].attempts ==> !hs[k].acknowledged
                && hs[k + 1].attempts == hs[k].attempts + 1 && hs[k + 1].last_attempt == times[k + 1],
        forall|j: int, k: int|
            0 <= j < k < hs.len() - 1 && (#[trigger] hs[j + 1]).attempts != hs[j].attempts && (#[trigger] hs[k
                + 1]).attempts != hs[k].attempts ==> times[k + 1] >= times[j + 1] + HANDSHAKE_RETRY_INTERVAL_MS,
        forall|k: int|
            0 <= k < hs.len() - 1 && (#[trigger] hs[k + 1]).attempts != hs[k].attempts ==> times[k + 1] >= times[0]
                + HANDSHAKE_RETRY_INTERVAL_MS,
{
    lemma_connection_prefix(hs, times, hs.len() - 1);
    assert forall|j: int, k: int|
        0 <= j < k < hs.len() - 1 && (#[trigger] hs[j + 1]).attempts != hs[j].attempts && (#[trigger] hs[k
            + 1]).attempts != hs[k].attempts implies times[k + 1] >= times[j + 1] + HANDSHAKE_RETRY_INTERVAL_MS by {
        lemma_connection_prefix(hs, times, k);
    }
    assert forall|k: int|
        0 <= k < hs.len() - 1 && (#[trigger] hs[k + 1]).attempts != hs[k].attempts implies times[k + 1] >= times[0]
            + HANDSHAKE_RETRY_INTERVAL_MS by {
        lemma_connection_prefix(hs, times, k);
    }
}

proof fn lemma_connection_prefix(hs: Seq<HandshakeState>, times: Seq<u128>, n: int)
    requires
        hs.len() == times.len(),
        0 <= n < hs.len(),
        hs[0].attempts <= 1,
        !hs[0].acknowledged,
        hs[0].last_attempt == times[0],
        forall|k: int| 0 <= k < times.len() - 1 ==> #[trigger] times[k] <= times[k + 1],
        forall|k: int| 0 <= k < hs.len() - 1 ==> handshake_step(#[trigger] hs[k], hs[k + 1], times[k + 1]),
    ensures
        forall|k: int| 0 <= k <= n ==> (#[trigger] hs[k]).attempts <= MAX_HANDSHAKE_ATTEMPTS,
        forall|k: int| 0 <= k <= n ==> times[0] <= (#[trigger] hs[k]).last_attempt <= times[k],
        forall|k: int|
            0 <= k < n && (#[trigger] hs[k + 1]).attempts != hs[k].attempts ==> !hs[k].acknowledged && hs[k
                + 1].attempts == hs[k].attempts + 1 && hs[k + 1].last_attempt == times[k + 1],
        forall|j: int| 0 <= j < n && (#[trigger] hs[j + 1]).attempts != hs[j].attempts ==> hs[n].last_attempt >= times[j
            + 1],
        n >= 1 && hs[n].attempts != hs[n - 1].attempts ==> times[n] >= hs[n - 1].last_attempt + HANDSHAKE_RETRY_INTERVAL_MS,
    decreases n,
{
    if n > 0 {
        lemma_connection_prefix(hs, times, n - 1);
        assert(handshake_step(hs[n - 1], hs[n], times[n]));
        assert(times[n - 1] <= times[n]);
        assert forall|k: int| 0 <= k <= n implies times[0] <= (#[trigger] hs[k]).last_attempt <= times[k] by {
            if k < n {
            }
        }
    }
}

impl HandshakeClient {
    /// A client that does not know its role yet.
    pub fn new() -> (c: Self)
        ensures
            !c.initialized,
            c.parent_id is None,
            c.self_role is None,
            c.network_state.super_peers@ == Map::<PeerId, String>::empty(),
            c.network_state.child_peers@ == Map::<PeerId, String>::empty(),
            c.network_state.peer_handshake_states@ == Map::<PeerId, HandshakeState>::empty(),
    {
        HandshakeClient { initialized: false, network_state: NetworkState::new(), parent_id: None, self_role: None }
    }

    /// Learn the role, once, from the signaling server: a super peer when it
    /// made this client one, otherwise a child of the parent it assigned.
    pub fn determine_role(&mut self, super_peer: Option<PeerId>, parent_peer: Option<PeerId>)
        ensures
            final(self).network_state == old(self).network_state,
            old(self).initialized || (super_peer is None && parent_peer is None) ==> final(self).initialized
                == old(self).initialized && final(self).self_role == old(self).self_role && final(self).parent_id
                == old(self).parent_id,
            !old(self).initialized && super_peer is Some ==> final(self).initialized && final(self).self_role
                == Some(PeerRole::Super) && final(self).parent_id == old(self).parent_id,
            !old(self).initialized && super_peer is None && parent_peer is Some ==> final(self).initialized
                && final(self).self_role == Some(PeerRole::Child) && final(self).parent_id == parent_peer,
    {
        if !self.initialized {
            if super_peer.is_some() {
                self.self_role = Some(PeerRole::Super);
                self.initialized = true;
            } else if let Some(parent) = parent_peer {
                self.parent_id = Some(parent);
                self.self_role = Some(PeerRole::Child);
                self.initialized = true;
            }
        }
    }

    /// A peer connected: a handshake with it starts; a super peer sends it the
    /// super handshake, a child sends its parent the child handshake.
    pub fn on_peer_connected(&mut self, peer: PeerId, now: u128) -> (out: Vec<Outgoing>)
        ensures
            final(self).initialized == old(self).initialized,
            final(self).self_role == old(self).self_role,
            final(self).parent_id == old(self).parent_id,
            final(self).network_state.super_peers@ == old(self).network_state.super_peers@,
            final(self).network_state.child_peers@ == old(self).network_state.child_peers@,
            final(self).network_state.peer_handshake_states@ == old(self).network_state.peer_handshake_states@.insert(
                peer,
                HandshakeState {
                    attempts: if connect_greeting(old(self).self_role, old(self).parent_id, peer) is Some {
                        1u8
                    } else {
                        0u8
                    },
                    last_attempt: now,
                    acknowledged: false,
                },
            ),
            packets(out@) == match connect_greeting(old(self).self_role, old(self).parent_id, peer) {
                Some(t) => seq![(peer, PayloadView::Text(t))],
                None => Seq::empty(),
            },
    {
        self.network_state.peer_handshake_states.insert(peer, HandshakeState::new(now));
        let mut out: Vec<Outgoing> = Vec::new();
        let is_super = match self.self_role {
            Some(PeerRole::Super) => true,
            _ => false,
        };
        let sent = if is_super {
            send_handshake(&mut self.network_state, peer, "super_handshake", now)
        } else if self.parent_id == Some(peer) {
            send_handshake(&mut self.network_state, peer, "child_handshake", now)
        } else {
            None
        };
        if let Some(o) = sent {
            out.push(o);
        }
        proof {
            assert(self.network_state.peer_handshake_states@ =~= old(self).network_state.peer_handshake_states@.insert(
                peer,
                HandshakeState {
                    attempts: if connect_greeting(old(self).self_role, old(self).parent_id, peer) is Some {
                        1u8
                    } else {
                        0u8
                    },
                    last_attempt: now,
                    acknowledged: false,
                },
            ));
            assert(packets(out@) =~= match connect_greeting(old(self).self_role, old(self).parent_id, peer) {
                Some(t) => seq![(peer, PayloadView::Text(t))],
                None => Seq::empty(),
            });
        }
        out
    }

    /// A peer disconnected: it is forgotten.
    pub fn on_peer_disconnected(&mut self, peer: PeerId)
        ensures
            final(self).initialized == old(self).initialized,
            final(self).self_role == old(self).self_role,
            final(self).parent_id == old(self).parent_id,
            final(self).network_state.super_peers@ == old(self).network_state.super_peers@.remove(peer),
            final(self).network_state.child_peers@ == old(self).network_state.child_peers@.remove(peer),
            final(self).network_state.peer_handshake_states@ == old(self).network_state.peer_handshake_states@.remove(peer),
    {
        self.network_state.remove_peer(peer);
    }

    /// The greetings sent on each turn of the loop, once the client has an
    /// id: a super peer greets every super peer and child it knows, a child
    /// greets its parent once the parent acknowledged the handshake.
    pub fn greetings(&self, my_id: Option<PeerId>) -> (out: Vec<Outgoing>)
        ensures
            my_id is None || self.self_role is None ==> out@.len() == 0,
            my_id is Some && self.self_role == Some(PeerRole::Super) ==> greets_all(
                packets(out@),
                self.network_state.super_peers@.dom(),
                self.network_state.child_peers@.dom(),
                PayloadView::Text("hello_super_peer|"@ + uuid_text(my_id->0)),
            ),
            my_id is Some && self.self_role == Some(PeerRole::Child) ==> packets(out@) == (
            if self.parent_id matches Some(p) && self.network_state.peer_handshake_states@.contains_key(p)
                && self.network_state.peer_handshake_states@[p].acknowledged {
                seq![(self.parent_id->0, PayloadView::Text("hello_parent|"@ + uuid_text(my_id->0)))]
            } else {
                Seq::empty()
            }),
    {
        let mut out: Vec<Outgoing> = Vec::new();
        let me = match my_id {
            None => {
                return out;
            },
            Some(me) => me,
        };
        match self.self_role {
            Some(PeerRole::Super) => {
                let hello = Payload::Text(greeting("hello_super_peer|", me));
                let supers = keys_of(&self.network_state.super_peers);
                send_to_all(&mut out, &supers, None, &hello);
                let ghost out1 = out@;
                let children = keys_of(&self.network_state.child_peers);
                send_to_all(&mut out, &children, None, &hello);
                proof {
                    assert(supers@.to_set().filter(|t: PeerId| None::<PeerId> != Some(t)) =~= self.network_state.super_peers@.dom());
                    assert(children@.to_set().filter(|t: PeerId| None::<PeerId> != Some(t)) =~= self.network_state.child_peers@.dom());
                    lemma_packets_split(out@, out1.len() as int);
                    assert(out1.subrange(0, 0) =~= Seq::<Outgoing>::empty());
                    assert(out1.subrange(0, out1.len() as int) =~= out1);
                }
            },
            Some(PeerRole::Child) => {
                if let Some(parent) = self.parent_id {
                    let acked = match self.network_state.peer_handshake_states.get(&parent) {
                        Some(state) => state.acknowledged,
                        None => false,
                    };
                    if acked {
                        out.push(Outgoing { to: parent, payload: Payload::Text(greeting("hello_parent|", me)) });
                    }
                }
                proof {
                    assert(packets(out@) =~= (if self.parent_id matches Some(p) && self.network_state.peer_handshake_states@.contains_key(p)
                        && self.network_state.peer_handshake_states@[p].acknowledged {
                        seq![(self.parent_id->0, PayloadView::Text("hello_parent|"@ + uuid_text(me)))]
                    } else {
                        Seq::empty()
                    }));
                }
            },
            None => {},
        }
        out
    }

    /// Mark the handshake with `peer` acknowledged, if one is under way.
    fn acknowledge_peer(&mut self, peer: PeerId)
        ensures
            final(self).initialized == old(self).initialized,
            final(self).self_role == old(self).self_role,
            final(self).parent_id == old(self).parent_id,
            final(self).network_state.super_peers@ == old(self).network_state.super_peers@,
            final(self).network_state.child_peers@ == old(self).network_state.child_peers@,
            final(self).network_state.peer_handshake_states@ == acknowledged_in(
                old(self).network_state.peer_handshake_states@,
                peer,
            ),
    {
        let ghost h = self.network_state.peer_handshake_states@;
        match self.network_state.peer_handshake_states.remove(&peer) {
            None => {
                assert(self.network_state.peer_handshake_states@ =~= h);
            },
            Some(mut state) => {
                state.acknowledge();
                self.network_state.peer_handshake_states.insert(peer, state);
            },
        }
        assert(self.network_state.peer_handshake_states@ =~= acknowledged_in(h, peer));
    }

    /// A packet came from `from`. Handshakes are recorded and acknowledged,
    /// acknowledgements recorded; anything else a super peer forwards: from a
    /// child to the other children and the super peers, from a super peer to
    /// the children.
    pub fn on_packet(&mut self, from: PeerId, packet: Vec<u8>) -> (out: Vec<Outgoing>)
        ensures
            final(self).initialized == old(self).initialized,
            final(self).self_role == old(self).self_role,
            final(self).parent_id == old(self).parent_id,
            packet_handled(*old(self), *final(self), from, packet@, packets(out@)),
            old(self).self_role == Some(PeerRole::Super) && not_a_handshake(utf8_lossy(packet@))
                && old(self).network_state.super_peers@.contains_key(from)
                && !old(self).network_state.child_peers@.contains_key(from) ==> delivers_once(
                packets(out@),
                old(self).network_state.child_peers@.dom(),
                PayloadView::Raw(packet@),
            ),
            old(self).self_role == Some(PeerRole::Super) && not_a_handshake(utf8_lossy(packet@))
                && old(self).network_state.child_peers@.contains_key(from) ==> passes_on(
                packets(out@),
                old(self).network_state.child_peers@.dom().remove(from),
                old(self).network_state.super_peers@.dom().remove(from),
                PayloadView::Raw(packet@),
            ),
    {
        let ghost bytes = packet@;
        let message = lossy_text(&packet);
        let is_super = match self.self_role {
            Some(PeerRole::Super) => true,
            _ => false,
        };
        let mut out: Vec<Outgoing> = Vec::new();
        if message.eq(&"super_handshake".to_owned()) {
            if is_super {
                self.network_state.add_super_peer(from, "OtherSuperPeer".to_owned());
            } else {
                self.network_state.add_super_peer(from, "SuperPeerInfo".to_owned());
            }
            out.push(Outgoing { to: from, payload: text("super_handshake_ack") });
            proof {
                assert(infos(self.network_state.super_peers@) =~= infos(old(self).network_state.super_peers@).insert(
                    from,
                    if is_super { "OtherSuperPeer"@ } else { "SuperPeerInfo"@ },
                ));
                assert(packets(out@) =~= seq![(from, PayloadView::Text("super_handshake_ack"@))]);
            }
        } else if message.eq(&"super_handshake_ack".to_owned()) {
            self.acknowledge_peer(from);
            if is_super {
                self.network_state.add_super_peer(from, "OtherSuperPeer".to_owned());
            }
            proof {
                if is_super {
                    assert(infos(self.network_state.super_peers@) =~= infos(old(self).network_state.super_peers@).insert(
                        from,
                        "OtherSuperPeer"@,
                    ));
                }
                assert(packets(out@) =~= Seq::<(PeerId, PayloadView)>::empty());
            }
        } else if message.eq(&"child_handshake".to_owned()) {
            self.network_state.add_child_peer(from, "ChildPeerInfo".to_owned());
            out.push(Outgoing { to: from, payload: text("child_handshake_ack") });
            proof {
                assert(infos(self.network_state.child_peers@) =~= infos(old(self).network_state.child_peers@).insert(
                    from,
                    "ChildPeerInfo"@,
                ));
                assert(packets(out@) =~= seq![(from, PayloadView::Text("child_handshake_ack"@))]);
            }
        } else if message.eq(&"child_handshake_ack".to_owned()) {
            self.acknowledge_peer(from);
            assert(packets(out@) =~= Seq::<(PeerId, PayloadView)>::empty());
        } else if is_super {
            let raw = Payload::Raw(packet);
            if self.network_state.child_peers.contains_key(&from) {
                let children = keys_of(&self.network_state.child_peers);
                send_to_all(&mut out, &children, Some(from), &raw);
                let ghost out1 = out@;
                let supers = keys_of(&self.network_state.super_peers);
                send_to_all(&mut out, &supers, Some(from), &raw);
                proof {
                    assert(children@.to_set().filter(|t: PeerId| Some(from) != Some(t)) =~= self.network_state.child_peers@.dom().remove(from));
                    assert(supers@.to_set().filter(|t: PeerId| Some(from) != Some(t)) =~= self.network_state.super_peers@.dom().remove(from));
                    lemma_packets_split(out@, out1.len() as int);
                    assert(out1.subrange(0, 0) =~= Seq::<Outgoing>::empty());
                    assert(out1.subrange(0, out1.len() as int) =~= out1);
                }
            } else if self.network_state.super_peers.contains_key(&from) {
                let children = keys_of(&self.network_state.child_peers);
                send_to_all(&mut out, &children, None, &raw);
                proof {
                    assert(children@.to_set().filter(|t: PeerId| None::<PeerId> != Some(t)) =~= self.network_state.child_peers@.dom());
                    assert(out@.subrange(0, out@.len() as int) =~= out@);
                    lemma_packets_split(out@, 0);
                }
            }
        }
        proof {
            let o = packets(out@);
            assert(packet_handled(*old(self), *self, from, bytes, o));
            if old(self).self_role == Some(PeerRole::Super) && not_a_handshake(utf8_lossy(bytes)) {
                if old(self).network_state.child_peers@.contains_key(from) {
                    law_relay_from_child(*old(self), *self, from, bytes, o);
                } else if old(self).network_state.super_peers@.contains_key(from) {
                    law_relay_from_super_peer(*old(self), *self, from, bytes, o);
                }
            }
        }
        out
    }

    /// Send the handshake again to each peer of `due`, in turn, as the role
    /// asks (see `retry_greeting`), at `now`; each such handshake counts one
    /// attempt more.
    pub fn retry_handshakes(&mut self, due: &Vec<PeerId>, now: u128) -> (out: Vec<Outgoing>)
        requires
            due@.no_duplicates(),
            forall|i: int|
                0 <= i < due@.len() && old(self).network_state.peer_handshake_states@.contains_key(#[trigger] due@[i])
                    ==> old(self).network_state.peer_handshake_states@[due@[i]].attempts < u8::MAX,
        ensures
            final(self).initialized == old(self).initialized,
            final(self).self_role == old(self).self_role,
            final(self).parent_id == old(self).parent_id,
            final(self).network_state.super_peers@ == old(self).network_state.super_peers@,
            final(self).network_state.child_peers@ == old(self).network_state.child_peers@,
            final(self).network_state.peer_handshake_states@ == bumped(
                old(self).network_state.peer_handshake_states@,
                due@.to_set(),
                old(self).self_role,
                old(self).parent_id,
                now,
            ),
            packets(out@) == retries(
                due@,
                old(self).self_role,
                old(self).parent_id,
                old(self).network_state.peer_handshake_states@.dom(),
            ),
    {
        let ghost h0 = self.network_state.peer_handshake_states@;
        let ghost role = self.self_role;
        let ghost parent = self.parent_id;
        let mut out: Vec<Outgoing> = Vec::new();
        let mut i: usize = 0;
        proof {
            assert(h0 =~= bumped(h0, due@.subrange(0, 0).to_set(), role, parent, now));
            assert(retries(due@.subrange(0, 0), role, parent, h0.dom()) =~= Seq::<(PeerId, PayloadView)>::empty());
        }
        while i < due.len()
            invariant
                i <= due@.len(),
                due@.no_duplicates(),
                forall|j: int|
                    0 <= j < due@.len() && h0.contains_key(#[trigger] due@[j]) ==> h0[due@[j]].attempts < u8::MAX,
                self.initialized == old(self).initialized,
                self.self_role == role,
                self.parent_id == parent,
                role == old(self).self_role,
                parent == old(self).parent_id,
                h0 == old(self).network_state.peer_handshake_states@,
                self.network_state.super_peers@ == old(self).network_state.super_peers@,
                self.network_state.child_peers@ == old(self).network_state.child_peers@,
                self.network_state.peer_handshake_states@ == bumped(
                    h0,
                    due@.subrange(0, i as int).to_set(),
                    role,
                    parent,
                    now,
                ),
                packets(out@) == retries(due@.subrange(0, i as int), role, parent, h0.dom()),
            decreases due@.len() - i,
        {
            let peer = due[i];
            let ghost before = self.network_state.peer_handshake_states@;
            let ghost pre = due@.subrange(0, i as int);
            assert(!pre.to_set().contains(peer)) by {
                if pre.to_set().contains(peer) {
                    let j = choose|j: int| 0 <= j < pre.len() && pre[j] == peer;
                    assert(due@[j] == due@[i as int]);
                }
            }
            assert(before.contains_key(peer) ==> before[peer] == h0[peer]);
            let is_super = match self.self_role {
                Some(PeerRole::Super) => true,
                _ => false,
            };
            let is_child = match self.self_role {
                Some(PeerRole::Child) => true,
                _ => false,
            };
            let sent = if is_super {
                send_handshake(&mut self.network_state, peer, "super_handshake", now)
            } else if is_child && self.parent_id == Some(peer) {
                send_handshake(&mut self.network_state, peer, "child_handshake", now)
            } else {
                None
            };
            if let Some(o) = sent {
                out.push(o);
            }
            proof {
                let next = due@.subrange(0, i + 1);
                assert(next.drop_last() =~= pre);
                assert(next.last() == peer);
                assert(next.to_set() =~= pre.to_set().insert(peer)) by {
                    assert forall|x: PeerId| next.to_set().contains(x) implies pre.to_set().insert(peer).contains(x) by {
                        let j = choose|j: int| 0 <= j < next.len() && next[j] == x;
                        if j < pre.len() {
                            assert(pre[j] == x);
                        }
                    }
                    assert forall|x: PeerId| pre.to_set().insert(peer).contains(x) implies next.to_set().contains(x) by {
                        if x == peer {
                            assert(next[i as int] == x);
                        } else {
                            let j = choose|j: int| 0 <= j < pre.len() && pre[j] == x;
                            assert(next[j] == x);
                        }
                    }
                }
                let after = self.network_state.peer_handshake_states@;
                let want = bumped(h0, next.to_set(), role, parent, now);
                let had = bumped(h0, pre.to_set(), role, parent, now);
                assert(before == had);
                assert forall|k: PeerId| #[trigger] after.contains_key(k) implies after[k] == want[k] by {
                    if k != peer {
                        assert(after[k] == before[k]);
                        assert(had[k] == want[k]);
                    } else if retry_greeting(role, parent, peer) is Some {
                        assert(before[peer] == h0[peer]);
                    } else {
                        assert(sent is None);
                        assert(after[k] == before[k]);
                    }
                }
                assert(after =~= want);
                assert(packets(out@) =~= retries(next, role, parent, h0.dom()));
            }
            i = i + 1;
        }
        assert(due@.subrange(0, due@.len() as int) =~= due@);
        out
    }

    /// The retry timer fired at `now`: each handshake due at `now` (see
    /// `due_at`) is sent again as the role asks, in the order the map is
    /// walked (`retry_handshakes`).
    pub fn on_timeout(&mut self, now: u128) -> (out: Vec<Outgoing>)
        ensures
            final(self).initialized == old(self).initialized,
            final(self).self_role == old(self).self_role,
            final(self).parent_id == old(self).parent_id,
            final(self).network_state.super_peers@ == old(self).network_state.super_peers@,
            final(self).network_state.child_peers@ == old(self).network_state.child_peers@,
            final(self).network_state.peer_handshake_states@ == bumped(
                old(self).network_state.peer_handshake_states@,
                due_peers(old(self).network_state.peer_handshake_states@, now),
                old(self).self_role,
                old(self).parent_id,
                now,
            ),
            exists|due: Seq<PeerId>|
                {
                    &&& due.no_duplicates()
                    &&& due.to_set() == due_peers(old(self).network_state.peer_handshake_states@, now)
                    &&& packets(out@) == retries(
                        due,
                        old(self).self_role,
                        old(self).parent_id,
                        old(self).network_state.peer_handshake_states@.dom(),
                    )
                },
    {
        let due = self.network_state.get_peers_to_retry(now);
        proof {
            assert forall|i: int|
                0 <= i < due@.len() && self.network_state.peer_handshake_states@.contains_key(
                    #[trigger] due@[i],
                ) implies self.network_state.peer_handshake_states@[due@[i]].attempts < u8::MAX by {
                assert(due@.to_set().contains(due@[i]));
            }
        }
        let out = self.retry_handshakes(&due, now);
        out
    }
}

} // verus!
