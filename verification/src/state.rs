//! The signaling server's table of peers for the hybrid topology.
//!
//! Every peer is either a super peer, which keeps the set of its children, or a
//! child, which may have a parent super peer. Messages to peers are not sent
//! from here: each operation appends the notices it would deliver, in order,
//! to an outbox that the caller drains and delivers over the peers' channels.

use crate::balance::{
    assign_goals, by_goal, by_load, by_surplus, distinct_ids, lemma_total_nonneg, lemma_tracks_done,
    lemma_tracks_shift, lemma_tracks_skip_over, lemma_tracks_skip_under, max_load, share_of, shifted,
    sort_by_load, sorted_by_load, split_by_goal, total, tracks, Share,
};
use crate::peer_id::PeerId;
use crate::laws::law_leaving_super_peer_is_announced_to_super_peers;
use std::collections::{HashMap, HashSet};
use vstd::prelude::*;
use vstd::std_specs::iter::IteratorSpec;

verus! {

broadcast use vstd::std_specs::hash::group_hash_axioms;

/// The abstract role of a peer: a child with its optional parent, or a super
/// peer with its set of children.
pub ghost enum RoleView {
    Child(Option<PeerId>),
    Super(Set<PeerId>),
}

/// Whether a peer is a child or a super peer, with the data of that role.
pub enum PeerRole {
    /// Child peer: the ID of its parent super peer, if any.
    Child { parent_id: Option<PeerId> },
    /// Super peer: the set of its child peers.
    Super { children: HashSet<PeerId> },
}

impl View for PeerRole {
    type V = RoleView;

    open spec fn view(&self) -> RoleView {
        match self {
            PeerRole::Child { parent_id } => RoleView::Child(*parent_id),
            PeerRole::Super { children } => RoleView::Super(children@),
        }
    }
}

/// A peer of the table: its id, its role and the channel it is signalled through.
pub struct Peer<C> {
    /// The peer's unique ID.
    pub id: PeerId,
    /// The peer's role (child or super).
    pub role: PeerRole,
    /// Channel to communicate with the peer.
    pub signaling_channel: C,
}

impl<C> Peer<C> {
    /// Create a new peer as a child without a parent (the default role).
    pub fn new_child(id: PeerId, signaling_channel: C) -> (p: Self)
        ensures
            p.id == id,
            p.role@ == RoleView::Child(None),
            p.signaling_channel == signaling_channel,
    {
        Peer { id, role: PeerRole::Child { parent_id: None }, signaling_channel }
    }

    /// Create a new peer as a super peer without children.
    pub fn new_super(id: PeerId, signaling_channel: C) -> (p: Self)
        ensures
            p.id == id,
            p.role@ == RoleView::Super(Set::empty()),
            p.signaling_channel == signaling_channel,
    {
        Peer { id, role: PeerRole::Super { children: HashSet::new() }, signaling_channel }
    }

    /// Returns true if this peer is a super peer.
    pub fn is_super(&self) -> (b: bool)
        ensures
            b == (self.role@ is Super),
    {
        match self.role {
            PeerRole::Super { .. } => true,
            PeerRole::Child { .. } => false,
        }
    }
}

/// The abstract content of an event.
pub ghost enum EventView {
    NewPeer(PeerId),
    PeerLeft(PeerId),
    Signal(PeerId, Seq<char>),
}

/// An event that the server signals to a peer.
#[derive(Debug, PartialEq, Eq)]
pub enum PeerEvent {
    /// A peer joined the recipient's part of the network.
    NewPeer(PeerId),
    /// A peer left the recipient's part of the network.
    PeerLeft(PeerId),
    /// A signal from `sender`, whose payload is the JSON text `data`.
    Signal { sender: PeerId, data: String },
}

impl View for PeerEvent {
    type V = EventView;

    open spec fn view(&self) -> EventView {
        match self {
            PeerEvent::NewPeer(p) => EventView::NewPeer(*p),
            PeerEvent::PeerLeft(p) => EventView::PeerLeft(*p),
            PeerEvent::Signal { sender, data } => EventView::Signal(*sender, data@),
        }
    }
}

impl Clone for PeerEvent {
    fn clone(&self) -> (r: Self)
        ensures
            r@ == self@,
    {
        match self {
            PeerEvent::NewPeer(p) => PeerEvent::NewPeer(*p),
            PeerEvent::PeerLeft(p) => PeerEvent::PeerLeft(*p),
            PeerEvent::Signal { sender, data } => PeerEvent::Signal { sender: *sender, data: data.clone() },
        }
    }
}

/// A message to deliver: the recipient and the event.
#[derive(Debug, PartialEq, Eq)]
pub struct Notice {
    pub to: PeerId,
    pub event: PeerEvent,
}

/// The abstract content of a notice: the recipient and the event.
pub open spec fn notice_view(n: Notice) -> (PeerId, EventView) {
    (n.to, n.event@)
}

/// The abstract content of a sequence of notices.
#[verifier::opaque]
pub open spec fn notice_seq(v: Seq<Notice>) -> Seq<(PeerId, EventView)> {
    v.map_values(|n: Notice| notice_view(n))
}

proof fn lemma_notice_seq_push(v: Seq<Notice>, n: Notice)
    ensures
        notice_seq(v.push(n)) == notice_seq(v).push(notice_view(n)),
{
    reveal(notice_seq);
    assert(notice_seq(v.push(n)) =~= notice_seq(v).push(notice_view(n)));
}

proof fn lemma_notice_seq_empty()
    ensures
        notice_seq(Seq::<Notice>::empty()) == Seq::<(PeerId, EventView)>::empty(),
{
    reveal(notice_seq);
    assert(notice_seq(Seq::<Notice>::empty()) =~= Seq::<(PeerId, EventView)>::empty());
}

/// An error in server logic.
#[derive(Debug, Clone, Copy, PartialEq, Eq)]
pub enum SignalingError {
    /// The peer named is unknown, or does not have the role needed.
    UnknownPeer,
}

// ---------------------------------------------------------------------------
// The model: a map from peer ids to roles.

/// `k` is a super peer of `m`.
pub open spec fn is_super_in(m: Map<PeerId, RoleView>, k: PeerId) -> bool {
    m.contains_key(k) && m[k] is Super
}

/// `k` is a child peer of `m`.
pub open spec fn is_child_in(m: Map<PeerId, RoleView>, k: PeerId) -> bool {
    m.contains_key(k) && m[k] is Child
}

/// The children recorded for a super peer (empty for anything else).
pub open spec fn children_of(m: Map<PeerId, RoleView>, k: PeerId) -> Set<PeerId> {
    match m[k] {
        RoleView::Super(cs) => cs,
        RoleView::Child(_) => Set::empty(),
    }
}

/// The number of children recorded for `k`.
pub open spec fn load_of(m: Map<PeerId, RoleView>, k: PeerId) -> nat {
    children_of(m, k).len()
}

/// The ids of all super peers.
pub open spec fn super_ids(m: Map<PeerId, RoleView>) -> Set<PeerId> {
    m.dom().filter(|k: PeerId| m[k] is Super)
}

/// The ids of all child peers.
pub open spec fn child_ids(m: Map<PeerId, RoleView>) -> Set<PeerId> {
    m.dom().filter(|k: PeerId| m[k] is Child)
}

/// The children that have a parent.
pub open spec fn attached_ids(m: Map<PeerId, RoleView>) -> Set<PeerId> {
    m.dom().filter(|k: PeerId| m[k] matches RoleView::Child(Some(_)))
}

/// The topology is consistent: a super peer's children are exactly the child
/// peers that name it as their parent.
pub open spec fn well_formed(m: Map<PeerId, RoleView>) -> bool {
    &&& m.dom().finite()
    &&& forall|s: PeerId, c: PeerId|
        #![trigger children_of(m, s).contains(c)]
        is_super_in(m, s) && children_of(m, s).contains(c) ==> m.contains_key(c) && m[c]
            == RoleView::Child(Some(s))
    &&& forall|c: PeerId|
        #![trigger m[c]]
        m.contains_key(c) && m[c] is Child && m[c]->Child_0 is Some ==> is_super_in(
            m,
            m[c]->Child_0->0,
        ) && children_of(m, m[c]->Child_0->0).contains(c)
}

/// `seg` notifies every peer of `targets` once, each of the event `ev`.
pub open spec fn notifies_each(
    seg: Seq<(PeerId, EventView)>,
    targets: Set<PeerId>,
    ev: EventView,
) -> bool {
    &&& seg.len() == targets.len()
    &&& forall|i: int| 0 <= i < seg.len() ==> targets.contains(#[trigger] seg[i].0)
    &&& forall|i: int| 0 <= i < seg.len() ==> #[trigger] seg[i].1 == ev
    &&& forall|i: int, j: int| 0 <= i < j < seg.len() ==> seg[i].0 != seg[j].0
}

/// `after` is `before` followed by notices of `ev` to each peer of `targets`, once.
pub open spec fn extends_with_each(
    before: Seq<(PeerId, EventView)>,
    after: Seq<(PeerId, EventView)>,
    targets: Set<PeerId>,
    ev: EventView,
) -> bool {
    &&& before.len() <= after.len()
    &&& after.subrange(0, before.len() as int) == before
    &&& notifies_each(after.subrange(before.len() as int, after.len() as int), targets, ev)
}

/// `a` is less loaded than `b`, or as loaded with an id no higher.
pub open spec fn lighter(m: Map<PeerId, RoleView>, a: PeerId, b: PeerId) -> bool {
    load_of(m, a) < load_of(m, b) || (load_of(m, a) == load_of(m, b) && a <= b)
}

/// `s` is the super peer with the fewest children, the lowest id among those.
pub open spec fn least_loaded(m: Map<PeerId, RoleView>, s: PeerId) -> bool {
    &&& is_super_in(m, s)
    &&& forall|t: PeerId| is_super_in(m, t) ==> lighter(m, s, t)
}

/// The product of two sizes, which always fits in 128 bits.
fn mul_wide(a: usize, b: usize) -> (r: u128)
    ensures
        r == a * b,
{
    assert(a * b <= 0xffff_ffff_ffff_ffff * 0xffff_ffff_ffff_ffffu128) by (nonlinear_arith)
        requires
            a <= 0xffff_ffff_ffff_ffff,
            b <= 0xffff_ffff_ffff_ffff,
    ;
    (a as u128) * (b as u128)
}

/// An entry of a summary: a peer of `m` and, for a super peer, its load.
pub open spec fn entry_matches(e: (PeerId, Option<usize>), m: Map<PeerId, RoleView>) -> bool {
    &&& m.contains_key(e.0)
    &&& (e.1 is Some <==> m[e.0] is Super)
    &&& e.1 matches Some(n) ==> n == load_of(m, e.0)
}

/// `es` lists every peer of `m` once.
pub open spec fn summarizes(es: Seq<(PeerId, Option<usize>)>, m: Map<PeerId, RoleView>) -> bool {
    &&& forall|i: int| 0 <= i < es.len() ==> entry_matches(#[trigger] es[i], m)
    &&& forall|i: int, j: int| 0 <= i < j < es.len() ==> es[i].0 != es[j].0
    &&& forall|k: PeerId| m.contains_key(k) ==> exists|i: int| 0 <= i < es.len() && (#[trigger] es[i]).0 == k
}


/// The least element of a finite, nonempty set of ids.
pub open spec fn set_min(s: Set<PeerId>) -> PeerId {
    choose|x: PeerId| s.contains(x) && forall|y: PeerId| s.contains(y) ==> x <= y
}

/// A finite, nonempty set of ids has a least element.
pub proof fn lemma_set_min(s: Set<PeerId>)
    requires
        s.finite(),
        !s.is_empty(),
    ensures
        s.contains(set_min(s)),
        forall|y: PeerId| s.contains(y) ==> set_min(s) <= y,
    decreases s.len(),
{
    let x = s.choose();
    let rest = s.remove(x);
    if rest.is_empty() {
        assert(forall|y: PeerId| s.contains(y) ==> y == x);
        assert(s.contains(x) && forall|y: PeerId| s.contains(y) ==> x <= y);
    } else {
        lemma_set_min(rest);
        let m = set_min(rest);
        if x < m {
            assert(s.contains(x) && forall|y: PeerId| s.contains(y) ==> x <= y);
        } else {
            assert(s.contains(m) && forall|y: PeerId| s.contains(y) ==> m <= y);
        }
    }
}

/// The table after `connect_child(child, sup)`.
pub open spec fn connected(m: Map<PeerId, RoleView>, child: PeerId, sup: PeerId) -> Map<PeerId, RoleView> {
    if !is_super_in(m, sup) {
        m
    } else {
        let m1 = m.insert(sup, RoleView::Super(children_of(m, sup).insert(child)));
        if is_child_in(m1, child) {
            m1.insert(child, RoleView::Child(Some(sup)))
        } else {
            m1
        }
    }
}

/// `connect_child(child, sup)` succeeds: `sup` is a super peer and `child` a child.
pub open spec fn connect_succeeds(m: Map<PeerId, RoleView>, child: PeerId, sup: PeerId) -> bool {
    is_super_in(m, sup) && is_child_in(m, child)
}

/// The table after `remove_child_peer(c)`.
pub open spec fn child_removed(m: Map<PeerId, RoleView>, c: PeerId) -> Map<PeerId, RoleView> {
    if !m.contains_key(c) {
        m
    } else {
        match m[c] {
            RoleView::Super(_) => m,
            RoleView::Child(None) => m.remove(c),
            RoleView::Child(Some(p)) => {
                let m1 = m.remove(c);
                if is_super_in(m1, p) {
                    m1.insert(p, RoleView::Super(children_of(m1, p).remove(c)))
                } else {
                    m1
                }
            },
        }
    }
}

/// The notices of `remove_child_peer(c)`: the parent, if known, hears that `c` left.
pub open spec fn child_removal_notices(m: Map<PeerId, RoleView>, c: PeerId) -> Seq<(PeerId, EventView)> {
    if m.contains_key(c) && m[c] is Child && m[c]->Child_0 is Some && child_removed(m, c).contains_key(
        m[c]->Child_0->0,
    ) {
        seq![(m[c]->Child_0->0, EventView::PeerLeft(c))]
    } else {
        Seq::empty()
    }
}

/// Whether `remove_child_peer(c)` takes `c` out of the table.
pub open spec fn child_is_removed(m: Map<PeerId, RoleView>, c: PeerId) -> bool {
    m.contains_key(c) && m[c] is Child
}

/// The table after `move_child(g, r)`.
pub open spec fn child_moved(m: Map<PeerId, RoleView>, g: PeerId, r: PeerId) -> Map<PeerId, RoleView> {
    if !is_super_in(m, g) || children_of(m, g).is_empty() {
        m
    } else {
        let c = set_min(children_of(m, g));
        connected(m.insert(g, RoleView::Super(children_of(m, g).remove(c))), c, r)
    }
}

/// The notices of `move_child(g, r)`.
pub open spec fn move_notices(m: Map<PeerId, RoleView>, g: PeerId, r: PeerId) -> Seq<(PeerId, EventView)> {
    if !is_super_in(m, g) || children_of(m, g).is_empty() {
        Seq::empty()
    } else {
        let c = set_min(children_of(m, g));
        let m1 = m.insert(g, RoleView::Super(children_of(m, g).remove(c)));
        seq![(g, EventView::PeerLeft(c))] + (if m1.contains_key(c) {
            seq![(c, EventView::PeerLeft(g))]
        } else {
            Seq::empty()
        }) + (if connect_succeeds(m1, c, r) {
            seq![(r, EventView::NewPeer(c))]
        } else {
            Seq::empty()
        })
    }
}

/// The table and the notices after the children moves `moves`, in order,
/// from `m`: each move takes the child with the least id from the first
/// super peer to the second (see `child_moved` and `move_notices`).
pub open spec fn after_moves(m: Map<PeerId, RoleView>, moves: Seq<(PeerId, PeerId)>) -> (Map<PeerId, RoleView>, Seq<
    (PeerId, EventView),
>)
    decreases moves.len(),
{
    if moves.len() == 0 {
        (m, Seq::empty())
    } else {
        let prev = after_moves(m, moves.drop_last());
        let g = moves.last().0;
        let r = moves.last().1;
        (child_moved(prev.0, g, r), prev.1 + move_notices(prev.0, g, r))
    }
}

/// Each move of `moves`, made in turn from `m`, takes a child from a super
/// peer whose load is above its load in `n` to one whose load is below its
/// load in `n`: loads only ever head for their final value.
pub open spec fn moves_toward(m: Map<PeerId, RoleView>, moves: Seq<(PeerId, PeerId)>, n: Map<PeerId, RoleView>) -> bool {
    forall|i: int|
        0 <= i < moves.len() ==> load_of(after_moves(m, moves.take(i)).0, (#[trigger] moves[i]).0) > load_of(n, moves[i].0)
            && load_of(after_moves(m, moves.take(i)).0, moves[i].1) < load_of(n, moves[i].1)
}

/// The table after the first `k` moves of `moves`, made in turn from `m`.
pub open spec fn after_first_moves(m: Map<PeerId, RoleView>, moves: Seq<(PeerId, PeerId)>, k: int) -> Map<PeerId, RoleView> {
    after_moves(m, moves.take(k)).0
}

/// The moves of `moves` go between distinct super peers of `m`.
pub open spec fn moves_between_supers(m: Map<PeerId, RoleView>, moves: Seq<(PeerId, PeerId)>) -> bool {
    forall|i: int|
        0 <= i < moves.len() ==> is_super_in(m, (#[trigger] moves[i]).0) && is_super_in(m, moves[i].1) && moves[i].0
            != moves[i].1
}

proof fn lemma_take_step(m: Map<PeerId, RoleView>, moves: Seq<(PeerId, PeerId)>, k: int)
    requires
        0 <= k < moves.len(),
    ensures
        after_first_moves(m, moves, k + 1) == child_moved(after_first_moves(m, moves, k), moves[k].0, moves[k].1),
{
    assert(moves.take(k + 1).drop_last() =~= moves.take(k));
    assert(moves.take(k + 1).last() == moves[k]);
}

/// Moves that head for the final loads keep a consistent table consistent,
/// with the same peers and role kinds, after any number of them.
#[verifier::spinoff_prover]
#[verifier::rlimit(40)]
proof fn lemma_first_moves_wf(m: Map<PeerId, RoleView>, moves: Seq<(PeerId, PeerId)>, n: Map<PeerId, RoleView>, k: int)
    requires
        well_formed(m),
        moves_between_supers(m, moves),
        moves_toward(m, moves, n),
        0 <= k <= moves.len(),
    ensures
        well_formed(after_first_moves(m, moves, k)),
        same_shape(m, after_first_moves(m, moves, k)),
    decreases k,
{
    if k == 0 {
        assert(moves.take(0) =~= Seq::<(PeerId, PeerId)>::empty());
    } else {
        lemma_first_moves_wf(m, moves, n, k - 1);
        let st = after_first_moves(m, moves, k - 1);
        let g = moves[k - 1].0;
        let r = moves[k - 1].1;
        lemma_take_step(m, moves, k - 1);
        assert(is_super_in(st, g) && is_super_in(st, r));
        assert(load_of(st, g) > load_of(n, g));
        lemma_children_finite(st, g);
        assert(!children_of(st, g).is_empty()) by {
            if children_of(st, g).is_empty() {
                assert(children_of(st, g) =~= Set::<PeerId>::empty());
            }
        }
        lemma_move_keeps_topology(st, g, r);
    }
}

/// One move changes a super peer's load by one at most: down for the giver,
/// up for the receiver.
proof fn lemma_first_moves_load(
    m: Map<PeerId, RoleView>,
    moves: Seq<(PeerId, PeerId)>,
    n: Map<PeerId, RoleView>,
    k: int,
    x: PeerId,
)
    requires
        well_formed(m),
        moves_between_supers(m, moves),
        moves_toward(m, moves, n),
        0 <= k < moves.len(),
        is_super_in(m, x),
    ensures
        load_of(after_first_moves(m, moves, k + 1), x) == load_of(after_first_moves(m, moves, k), x) - (if x
            == moves[k].0 {
            1int
        } else {
            0int
        }) + (if x == moves[k].1 {
            1int
        } else {
            0int
        }),
{
    lemma_first_moves_wf(m, moves, n, k);
    let st = after_first_moves(m, moves, k);
    let g = moves[k].0;
    let r = moves[k].1;
    lemma_take_step(m, moves, k);
    assert(is_super_in(st, g) && is_super_in(st, r) && is_super_in(st, x));
    assert(load_of(st, g) > load_of(n, g));
    lemma_children_finite(st, g);
    assert(!children_of(st, g).is_empty()) by {
        if children_of(st, g).is_empty() {
            assert(children_of(st, g) =~= Set::<PeerId>::empty());
        }
    }
    lemma_move_keeps_topology(st, g, r);
}

/// From a point where `s` has at least its final load, `s` takes no child.
#[verifier::spinoff_prover]
proof fn lemma_no_receive_after(
    m: Map<PeerId, RoleView>,
    moves: Seq<(PeerId, PeerId)>,
    n: Map<PeerId, RoleView>,
    k: int,
    s: PeerId,
)
    requires
        well_formed(m),
        moves_between_supers(m, moves),
        moves_toward(m, moves, n),
        0 <= k <= moves.len(),
        is_super_in(m, s),
        load_of(after_first_moves(m, moves, k), s) >= load_of(n, s),
    ensures
        forall|j: int| k <= j < moves.len() ==> (#[trigger] moves[j]).1 != s,
    decreases moves.len() - k,
{
    if k < moves.len() {
        assert(moves[k].1 != s) by {
            if moves[k].1 == s {
                assert(load_of(after_moves(m, moves.take(k)).0, moves[k].1) < load_of(n, moves[k].1));
            }
        }
        assert(moves[k].0 == s ==> load_of(after_moves(m, moves.take(k)).0, moves[k].0) > load_of(n, moves[k].0));
        lemma_first_moves_load(m, moves, n, k, s);
        lemma_no_receive_after(m, moves, n, k + 1, s);
        assert forall|j: int| k <= j < moves.len() implies (#[trigger] moves[j]).1 != s by {
            if j > k {
                assert(k + 1 <= j);
            }
        }
    }
}

/// From a point where `s` has at most its final load, `s` gives no child.
#[verifier::spinoff_prover]
proof fn lemma_no_give_after(
    m: Map<PeerId, RoleView>,
    moves: Seq<(PeerId, PeerId)>,
    n: Map<PeerId, RoleView>,
    k: int,
    s: PeerId,
)
    requires
        well_formed(m),
        moves_between_supers(m, moves),
        moves_toward(m, moves, n),
        0 <= k <= moves.len(),
        is_super_in(m, s),
        load_of(after_first_moves(m, moves, k), s) <= load_of(n, s),
    ensures
        forall|j: int| k <= j < moves.len() ==> (#[trigger] moves[j]).0 != s,
    decreases moves.len() - k,
{
    if k < moves.len() {
        assert(moves[k].0 != s) by {
            if moves[k].0 == s {
                assert(load_of(after_moves(m, moves.take(k)).0, moves[k].0) > load_of(n, moves[k].0));
            }
        }
        assert(moves[k].1 == s ==> load_of(after_moves(m, moves.take(k)).0, moves[k].1) < load_of(n, moves[k].1));
        lemma_first_moves_load(m, moves, n, k, s);
        lemma_no_give_after(m, moves, n, k + 1, s);
        assert forall|j: int| k <= j < moves.len() implies (#[trigger] moves[j]).0 != s by {
            if j > k {
                assert(k + 1 <= j);
            }
        }
    }
}

/// In a rebalance of a consistent table whose moves head for the final
/// loads, no super peer both gives and takes children: each gives only, or
/// takes only.
pub proof fn law_rebalance_moves_one_way(m: Map<PeerId, RoleView>, moves: Seq<(PeerId, PeerId)>, n: Map<PeerId, RoleView>)
    requires
        well_formed(m),
        moves_between_supers(m, moves),
        moves_toward(m, moves, n),
    ensures
        forall|i: int, j: int| 0 <= i < moves.len() && 0 <= j < moves.len() ==> (#[trigger] moves[i]).0 != (
        #[trigger] moves[j]).1,
{
    assert forall|i: int, j: int| 0 <= i < moves.len() && 0 <= j < moves.len() implies (#[trigger] moves[i]).0 != (
    #[trigger] moves[j]).1 by {
        let s = moves[i].0;
        if s == moves[j].1 {
            if i < j {
                lemma_first_moves_load(m, moves, n, i, s);
                lemma_no_receive_after(m, moves, n, i + 1, s);
            } else if j < i {
                lemma_first_moves_load(m, moves, n, j, s);
                lemma_no_give_after(m, moves, n, j + 1, s);
            }
        }
    }
}

/// Each move of `moves`, made in turn from `m`, is the one that `steps`
/// names in the plan `p`: from an entry above its goal to one below its goal.
pub open spec fn moves_planned(
    m: Map<PeerId, RoleView>,
    moves: Seq<(PeerId, PeerId)>,
    steps: Seq<(int, int)>,
    p: Seq<Share>,
) -> bool {
    &&& steps.len() == moves.len()
    &&& forall|k: int|
        0 <= k < moves.len() ==> 0 <= (#[trigger] steps[k]).0 < p.len() && 0 <= steps[k].1 < p.len() && moves[k] == (
            p[steps[k].0].0,
            p[steps[k].1].0,
        ) && load_of(after_moves(m, moves.take(k)).0, moves[k].0) > p[steps[k].0].2 && load_of(
            after_moves(m, moves.take(k)).0,
            moves[k].1,
        ) < p[steps[k].1].2
}

proof fn lemma_moves_planned_push(
    m: Map<PeerId, RoleView>,
    moves: Seq<(PeerId, PeerId)>,
    steps: Seq<(int, int)>,
    p: Seq<Share>,
    o: int,
    u: int,
)
    requires
        moves_planned(m, moves, steps, p),
        0 <= o < p.len(),
        0 <= u < p.len(),
        load_of(after_moves(m, moves).0, p[o].0) > p[o].2,
        load_of(after_moves(m, moves).0, p[u].0) < p[u].2,
    ensures
        moves_planned(m, moves.push((p[o].0, p[u].0)), steps.push((o, u)), p),
{
    let moves1 = moves.push((p[o].0, p[u].0));
    let steps1 = steps.push((o, u));
    assert forall|k: int| 0 <= k < moves1.len() implies 0 <= (#[trigger] steps1[k]).0 < p.len() && 0 <= steps1[k].1
        < p.len() && moves1[k] == (p[steps1[k].0].0, p[steps1[k].1].0) && load_of(
        after_moves(m, moves1.take(k)).0,
        moves1[k].0,
    ) > p[steps1[k].0].2 && load_of(after_moves(m, moves1.take(k)).0, moves1[k].1) < p[steps1[k].1].2 by {
        assert(moves1.take(k) =~= moves.take(k) || k == moves.len());
        if k < moves.len() {
            assert(moves1.take(k) =~= moves.take(k));
            assert(steps1[k] == steps[k]);
        } else {
            assert(moves1.take(k) =~= moves);
        }
    }
}

/// With the plan met, the moves planned head for the final loads.
proof fn lemma_moves_planned_toward(
    m: Map<PeerId, RoleView>,
    moves: Seq<(PeerId, PeerId)>,
    steps: Seq<(int, int)>,
    p: Seq<Share>,
    n: Map<PeerId, RoleView>,
)
    requires
        moves_planned(m, moves, steps, p),
        forall|k: int| 0 <= k < p.len() ==> load_of(n, (#[trigger] p[k]).0) == p[k].2,
    ensures
        moves_toward(m, moves, n),
{
    assert forall|i: int| 0 <= i < moves.len() implies load_of(after_moves(m, moves.take(i)).0, (#[trigger] moves[i]).0)
        > load_of(n, moves[i].0) && load_of(after_moves(m, moves.take(i)).0, moves[i].1) < load_of(n, moves[i].1) by {
        assert(0 <= steps[i].0 < p.len());
        assert(load_of(n, p[steps[i].0].0) == p[steps[i].0].2);
        assert(load_of(n, p[steps[i].1].0) == p[steps[i].1].2);
    }
}

proof fn lemma_after_moves_push(
    m: Map<PeerId, RoleView>,
    moves: Seq<(PeerId, PeerId)>,
    g: PeerId,
    r: PeerId,
    base: Seq<(PeerId, EventView)>,
)
    ensures
        after_moves(m, moves.push((g, r))).0 == child_moved(after_moves(m, moves).0, g, r),
        base + after_moves(m, moves.push((g, r))).1 == (base + after_moves(m, moves).1) + move_notices(
            after_moves(m, moves).0,
            g,
            r,
        ),
{
    assert(moves.push((g, r)).drop_last() =~= moves);
    let prev = after_moves(m, moves);
    assert(base + (prev.1 + move_notices(prev.0, g, r)) =~= (base + prev.1) + move_notices(prev.0, g, r));
}

/// The first two notices of a move of `c` away from `g`, given the table `m1`
/// after `c` was taken out of `g`'s set.
pub open spec fn move_first_notices(m1: Map<PeerId, RoleView>, g: PeerId, c: PeerId) -> Seq<(PeerId, EventView)> {
    seq![(g, EventView::PeerLeft(c))] + (if m1.contains_key(c) {
        seq![(c, EventView::PeerLeft(g))]
    } else {
        Seq::empty()
    })
}

/// The notice of `connect_child(c, r)` on `m1`, if it succeeds.
pub open spec fn connect_notice(m1: Map<PeerId, RoleView>, c: PeerId, r: PeerId) -> Seq<(PeerId, EventView)> {
    if connect_succeeds(m1, c, r) {
        seq![(r, EventView::NewPeer(c))]
    } else {
        Seq::empty()
    }
}

proof fn lemma_move_nothing(m: Map<PeerId, RoleView>, g: PeerId, r: PeerId)
    requires
        !is_super_in(m, g) || children_of(m, g).is_empty(),
    ensures
        child_moved(m, g, r) == m,
        move_notices(m, g, r) == Seq::<(PeerId, EventView)>::empty(),
{
}

proof fn lemma_move_unfold(m: Map<PeerId, RoleView>, g: PeerId, r: PeerId)
    requires
        is_super_in(m, g),
        !children_of(m, g).is_empty(),
    ensures
        ({
            let c = set_min(children_of(m, g));
            let m1 = m.insert(g, RoleView::Super(children_of(m, g).remove(c)));
            &&& child_moved(m, g, r) == connected(m1, c, r)
            &&& move_notices(m, g, r) == move_first_notices(m1, g, c) + connect_notice(m1, c, r)
        }),
{
}

/// `a` and `b` have the same peers, and each peer is a super peer in one iff it is in the other.
pub open spec fn same_shape(a: Map<PeerId, RoleView>, b: Map<PeerId, RoleView>) -> bool {
    &&& a.dom() == b.dom()
    &&& forall|k: PeerId| #[trigger] a.contains_key(k) ==> (a[k] is Super <==> b[k] is Super)
}

/// In a consistent table, the children of a super peer are finitely many.
pub proof fn lemma_children_finite(m: Map<PeerId, RoleView>, s: PeerId)
    requires
        well_formed(m),
        is_super_in(m, s),
    ensures
        children_of(m, s).finite(),
        children_of(m, s).subset_of(m.dom()),
{
    assert forall|c: PeerId| children_of(m, s).contains(c) implies m.dom().contains(c) by {}
    vstd::set_lib::lemma_set_subset_finite(m.dom(), children_of(m, s));
}

/// Moving a child between two distinct super peers of a consistent table keeps it
/// consistent, keeps every peer's role kind and the set of attached children, and
/// shifts one child of load from the giver to the receiver.
pub proof fn lemma_move_keeps_topology(m: Map<PeerId, RoleView>, g: PeerId, r: PeerId)
    requires
        well_formed(m),
        is_super_in(m, g),
        is_super_in(m, r),
        g != r,
        !children_of(m, g).is_empty(),
    ensures
        well_formed(child_moved(m, g, r)),
        same_shape(m, child_moved(m, g, r)),
        attached_ids(child_moved(m, g, r)) == attached_ids(m),
        load_of(child_moved(m, g, r), g) + 1 == load_of(m, g),
        load_of(child_moved(m, g, r), r) == load_of(m, r) + 1,
        forall|k: PeerId| k != g && k != r && #[trigger] is_super_in(m, k) ==> load_of(child_moved(m, g, r), k) == load_of(m, k),
{
    let cg = children_of(m, g);
    let cr = children_of(m, r);
    lemma_children_finite(m, g);
    lemma_children_finite(m, r);
    lemma_set_min(cg);
    let c = set_min(cg);
    assert(m[c] == RoleView::Child(Some(g)));
    assert(!cr.contains(c));
    let m1 = m.insert(g, RoleView::Super(cg.remove(c)));
    let m2 = m1.insert(r, RoleView::Super(cr.insert(c)));
    let m3 = m2.insert(c, RoleView::Child(Some(r)));
    assert(child_moved(m, g, r) == m3);
    assert(m3.dom() =~= m.dom());
    assert(attached_ids(m3) =~= attached_ids(m));
    assert(children_of(m3, g) == cg.remove(c));
    assert(children_of(m3, r) == cr.insert(c));
    assert forall|s: PeerId, x: PeerId|
        is_super_in(m3, s) && #[trigger] children_of(m3, s).contains(x) implies m3.contains_key(x) && m3[x]
            == RoleView::Child(Some(s)) by {
        if s == g {
            assert(cg.contains(x) && x != c);
        } else if s == r {
            if x != c {
                assert(cr.contains(x));
            }
        } else {
            assert(children_of(m, s).contains(x));
            assert(x != c);
        }
    }
    assert forall|x: PeerId|
        m3.contains_key(x) && #[trigger] m3[x] is Child && m3[x]->Child_0 is Some implies is_super_in(
            m3,
            m3[x]->Child_0->0,
        ) && children_of(m3, m3[x]->Child_0->0).contains(x) by {
        if x != c {
            assert(m[x] == m3[x]);
            let p = m[x]->Child_0->0;
            assert(children_of(m, p).contains(x));
        }
    }
}

/// A move between any two peers keeps the peers and their role kinds.
pub proof fn lemma_move_same_shape(m: Map<PeerId, RoleView>, g: PeerId, r: PeerId)
    ensures
        same_shape(m, child_moved(m, g, r)),
{
    if is_super_in(m, g) && !children_of(m, g).is_empty() {
        let c = set_min(children_of(m, g));
        let m1 = m.insert(g, RoleView::Super(children_of(m, g).remove(c)));
        assert(child_moved(m, g, r).dom() =~= m.dom());
    }
}

/// After balancing the consistent table `old`, the table `new` is consistent,
/// has the same attached children, every two super peers' loads differ by at
/// most one, and a super peer that had fewer children than another has no
/// fewer than it now.
pub open spec fn balanced_from(old: Map<PeerId, RoleView>, new: Map<PeerId, RoleView>) -> bool {
    &&& well_formed(new)
    &&& attached_ids(new) == attached_ids(old)
    &&& forall|a: PeerId, b: PeerId|
        is_super_in(old, a) && is_super_in(old, b) ==> #[trigger] load_of(new, a) <= #[trigger] load_of(new, b) + 1
    &&& forall|a: PeerId, b: PeerId|
        is_super_in(old, a) && is_super_in(old, b) && load_of(old, a) < load_of(old, b) ==> #[trigger] load_of(new, a)
            >= #[trigger] load_of(new, b)
}

/// `m1` after `r` was made a super peer and the ids of `done` were connected to it.
pub open spec fn promoted(m1: Map<PeerId, RoleView>, r: PeerId, done: Set<PeerId>) -> Map<PeerId, RoleView> {
    Map::new(
        |k: PeerId| m1.contains_key(k),
        |k: PeerId|
            if k == r {
                RoleView::Super(done.remove(r))
            } else if done.contains(k) && m1[k] is Child {
                RoleView::Child(Some(r))
            } else {
                m1[k]
            },
    )
}

proof fn lemma_promote_step(m1: Map<PeerId, RoleView>, r: PeerId, done: Set<PeerId>, c: PeerId)
    requires
        m1.contains_key(r),
        c != r,
        !done.contains(c),
    ensures
        is_super_in(promoted(m1, r, done), r),
        connected(promoted(m1, r, done), c, r) == promoted(m1, r, done.insert(c)),
        connect_succeeds(promoted(m1, r, done), c, r) == is_child_in(m1, c),
{
    let m = promoted(m1, r, done);
    assert(children_of(m, r) == done.remove(r));
    assert(done.remove(r).insert(c) =~= done.insert(c).remove(r));
    let m2 = m.insert(r, RoleView::Super(children_of(m, r).insert(c)));
    if is_child_in(m2, c) {
        assert(m2.insert(c, RoleView::Child(Some(r))) =~= promoted(m1, r, done.insert(c)));
    } else {
        assert(m2 =~= promoted(m1, r, done.insert(c)));
    }
}

proof fn lemma_promote_recruit(m1: Map<PeerId, RoleView>, r: PeerId, done: Set<PeerId>)
    requires
        m1.contains_key(r),
    ensures
        promoted(m1, r, done.insert(r)) == promoted(m1, r, done),
        promoted(m1.insert(r, RoleView::Super(Set::empty())), r, done) == promoted(m1, r, done),
{
    assert(done.insert(r).remove(r) =~= done.remove(r));
    assert(promoted(m1, r, done.insert(r)) =~= promoted(m1, r, done));
    assert(promoted(m1.insert(r, RoleView::Super(Set::empty())), r, done) =~= promoted(m1, r, done));
}

proof fn lemma_three_segments(
    n0: Seq<(PeerId, EventView)>,
    n1: Seq<(PeerId, EventView)>,
    n2: Seq<(PeerId, EventView)>,
    n3: Seq<(PeerId, EventView)>,
    t1: Set<PeerId>,
    t2: Set<PeerId>,
    ev: EventView,
    r: PeerId,
    a: Set<PeerId>,
)
    requires
        extends_with_each(n0, n1, t1, ev),
        extends_with_each(n1, n2, t2, ev),
        n2.len() <= n3.len(),
        n3.subrange(0, n2.len() as int) == n2,
        announces_each(n3.subrange(n2.len() as int, n3.len() as int), r, a),
    ensures
        ({
            let i0 = n0.len() as int;
            let i1 = i0 + t1.len();
            let i2 = i1 + t2.len();
            &&& n3.len() == i2 + a.len()
            &&& n3.subrange(0, i0) == n0
            &&& notifies_each(n3.subrange(i0, i1), t1, ev)
            &&& notifies_each(n3.subrange(i1, i2), t2, ev)
            &&& announces_each(n3.subrange(i2, n3.len() as int), r, a)
        }),
{
    let i0 = n0.len() as int;
    let i1 = i0 + t1.len();
    let i2 = i1 + t2.len();
    assert(n1.subrange(i0, n1.len() as int).len() == t1.len());
    assert(n2.subrange(i1, n2.len() as int).len() == t2.len());
    assert(n3.subrange(0, i0) =~= n0);
    assert(n3.subrange(i0, i1) =~= n1.subrange(i0, n1.len() as int));
    assert(n3.subrange(i1, i2) =~= n2.subrange(i1, n2.len() as int));
}

/// Whether `remove_super_peer(s)` promotes one of the children of `s`.
pub open spec fn recruits(m: Map<PeerId, RoleView>, s: PeerId) -> bool {
    is_super_in(m, s) && !children_of(m, s).is_empty() && m.remove(s).contains_key(
        set_min(children_of(m, s)),
    )
}

/// The table after `remove_super_peer(s)`.
pub open spec fn super_removed(m: Map<PeerId, RoleView>, s: PeerId) -> Map<PeerId, RoleView> {
    if !is_super_in(m, s) {
        m
    } else if recruits(m, s) {
        promoted(m.remove(s), set_min(children_of(m, s)), children_of(m, s))
    } else {
        m.remove(s)
    }
}

/// The children of `s` that `remove_super_peer(s)` reattaches to the recruit.
pub open spec fn adopted(m: Map<PeerId, RoleView>, s: PeerId) -> Set<PeerId> {
    if recruits(m, s) {
        children_of(m, s).remove(set_min(children_of(m, s))).filter(
            |c: PeerId| is_child_in(m.remove(s), c),
        )
    } else {
        Set::empty()
    }
}

/// `seg` tells `to` once of each peer of `subjects` that it is a new peer.
pub open spec fn announces_each(seg: Seq<(PeerId, EventView)>, to: PeerId, subjects: Set<PeerId>) -> bool {
    &&& seg.len() == subjects.len()
    &&& forall|i: int| 0 <= i < seg.len() ==> (#[trigger] seg[i]).0 == to && seg[i].1 is NewPeer
        && subjects.contains(seg[i].1->NewPeer_0)
    &&& forall|i: int, j: int| 0 <= i < j < seg.len() ==> seg[i].1 != seg[j].1
}

/// The notices of `remove_super_peer(s)`, appended to `before` to give `after`:
/// the other super peers hear that `s` left, then its known children do,
/// then the recruit hears of each child reattached to it.
pub open spec fn super_removal_notices(
    m: Map<PeerId, RoleView>,
    s: PeerId,
    before: Seq<(PeerId, EventView)>,
    after: Seq<(PeerId, EventView)>,
) -> bool {
    if !is_super_in(m, s) {
        after == before
    } else {
        let m1 = m.remove(s);
        let n0 = before.len() as int;
        let n1 = n0 + super_ids(m1).len();
        let kids = children_of(m, s).filter(|c: PeerId| m1.contains_key(c));
        let n2 = n1 + kids.len();
        &&& after.len() == n2 + adopted(m, s).len()
        &&& after.subrange(0, n0) == before
        &&& notifies_each(after.subrange(n0, n1), super_ids(m1), EventView::PeerLeft(s))
        &&& notifies_each(after.subrange(n1, n2), kids, EventView::PeerLeft(s))
        &&& announces_each(after.subrange(n2, after.len() as int), set_min(children_of(m, s)), adopted(m, s))
    }
}

/// The least id of a set, if it has any.
pub fn min_id(s: &HashSet<PeerId>) -> (r: Option<PeerId>)
    ensures
        r is None <==> s@.is_empty(),
        r matches Some(m) ==> m == set_min(s@),
{
    let mut best: Option<PeerId> = None;
    for x in it: s.iter()
        invariant
            it.seq().unref().to_set() == s@,
            it.seq().len() == s@.len(),
            forall|x: PeerId| s@.contains(x) ==> exists|k: int| 0 <= k < it.seq().len() && *it.seq()[k] == x,
            best is None <==> it.index() == 0,
            best matches Some(b) ==> s@.contains(b),
            best matches Some(b) ==> forall|k: int| 0 <= k < it.index() ==> b <= *it.seq()[k],
    {
        assert(*x == *it.seq()[it.index() as int]);
        assert(it.seq().unref()[it.index() as int] == *x);
        assert(s@.contains(*x));
        match best {
            None => {
                best = Some(*x);
            },
            Some(b) => {
                if *x < b {
                    best = Some(*x);
                }
            },
        }
    }
    proof {
        if let Some(b) = best {
            lemma_set_min(s@);
            assert(set_min(s@) <= b);
            assert(b <= set_min(s@));
        }
    }
    best
}

// ---------------------------------------------------------------------------
// The state.

/// Signaling server state for hybrid topologies: the peer table and the
/// notices not yet delivered.
pub struct HybridState<C> {
    peers: HashMap<PeerId, Peer<C>>,
    outbox: Vec<Notice>,
}

impl<C> View for HybridState<C> {
    type V = Map<PeerId, RoleView>;

    /// The topology: each peer's role.
    closed spec fn view(&self) -> Map<PeerId, RoleView> {
        Map::new(|k: PeerId| self.peers@.contains_key(k), |k: PeerId| self.peers@[k].role@)
    }
}

impl<C> Default for HybridState<C> {
    /// An empty table with an empty outbox.
    fn default() -> (st: Self)
        ensures
            st.inv(),
            st@ == Map::<PeerId, RoleView>::empty(),
            st.notices() == Seq::<(PeerId, EventView)>::empty(),
    {
        Self::new()
    }
}

impl<C> HybridState<C> {
    /// Each entry of the table is stored under its peer's id.
    pub closed spec fn inv(&self) -> bool {
        forall|k: PeerId| #[trigger] self.peers@.contains_key(k) ==> self.peers@[k].id == k
    }

    /// The channel of each peer.
    pub closed spec fn channels(&self) -> Map<PeerId, C> {
        Map::new(
            |k: PeerId| self.peers@.contains_key(k),
            |k: PeerId| self.peers@[k].signaling_channel,
        )
    }

    /// The notices not yet delivered, oldest first.
    pub closed spec fn notices(&self) -> Seq<(PeerId, EventView)> {
        notice_seq(self.outbox@)
    }

    /// Every table holds finitely many peers, so `well_formed` asks of a
    /// table only that its roles agree.
    pub proof fn lemma_finite(&self)
        ensures
            self@.dom().finite(),
    {
        assert(self@.dom() =~= self.peers@.dom());
    }

    /// An empty table with an empty outbox.
    pub fn new() -> (st: Self)
        ensures
            st.inv(),
            st@ == Map::<PeerId, RoleView>::empty(),
            st.notices() == Seq::<(PeerId, EventView)>::empty(),
    {
        let st = HybridState { peers: HashMap::new(), outbox: Vec::new() };
        assert(st@ =~= Map::<PeerId, RoleView>::empty());
        proof { lemma_notice_seq_empty(); }
        st
    }

    /// The channel of a peer, if the peer is known.
    pub fn channel_of(&self, peer: PeerId) -> (r: Option<&C>)
        ensures
            r is Some <==> self@.contains_key(peer),
            r matches Some(c) ==> *c == self.channels()[peer],
    {
        match self.peers.get(&peer) {
            Some(p) => Some(&p.signaling_channel),
            None => None,
        }
    }

    /// Hand over the notices not yet delivered, oldest first, and empty the outbox.
    pub fn take_outbox(&mut self) -> (r: Vec<Notice>)
        ensures
            notice_seq(r@) == old(self).notices(),
            final(self).notices() == Seq::<(PeerId, EventView)>::empty(),
            final(self)@ == old(self)@,
            final(self).channels() == old(self).channels(),
            final(self).inv() == old(self).inv(),
    {
        let mut r: Vec<Notice> = Vec::new();
        std::mem::swap(&mut r, &mut self.outbox);
        proof { lemma_notice_seq_empty(); }
        r
    }

    /// Check if a given `PeerId` corresponds to a super peer.
    pub fn is_super_peer(&self, peer_id: &PeerId) -> (b: bool)
        ensures
            b == is_super_in(self@, *peer_id),
    {
        match self.peers.get(peer_id) {
            Some(peer) => peer.is_super(),
            None => false,
        }
    }

    /// One entry per peer, in the order the table is walked: the peer's id and,
    /// for a super peer, the number of its children.
    fn summary(&self) -> (r: Vec<(PeerId, Option<usize>)>)
        requires
            self.inv(),
        ensures
            summarizes(r@, self@),
    {
        let mut r: Vec<(PeerId, Option<usize>)> = Vec::new();
        let ghost mut seen: Set<PeerId> = Set::empty();
        for (k, p) in it: self.peers.iter()
            invariant
                self.inv(),
                it.seq().len() == self.peers@.dom().len(),
                forall|i: int|
                    0 <= i < it.seq().len() ==> self.peers@.contains_key(*(#[trigger] it.seq()[i]).0)
                        && self.peers@[*it.seq()[i].0] == *it.seq()[i].1,
                forall|key: PeerId|
                    self.peers@.contains_key(key) ==> exists|i: int|
                        0 <= i < it.seq().len() && *(#[trigger] it.seq()[i]).0 == key,
                forall|key: PeerId|
                    seen.contains(key) <==> exists|i: int|
                        0 <= i < it.index() && *(#[trigger] it.seq()[i]).0 == key,
                it.seq().no_duplicates(),
                seen.subset_of(self.peers@.dom()),
                it.index() == it.seq().len() ==> self.peers@.dom().subset_of(seen),
                forall|i: int, j: int| 0 <= i < j < r@.len() ==> r@[i].0 != r@[j].0,
                forall|i: int| 0 <= i < r@.len() ==> entry_matches(#[trigger] r@[i], self@),
                forall|key: PeerId| seen.contains(key) <==> exists|i: int| 0 <= i < r@.len() && (#[trigger] r@[i]).0 == key,
        {
            let ghost i = it.index() as int;
            assert(*it.seq()[i].0 == *k);
            assert(self.peers@[*k] == *p);
            assert(self@[*k] == p.role@);
            assert(!seen.contains(*k)) by {
                if seen.contains(*k) {
                    let j = choose|j: int| 0 <= j < i && *(#[trigger] it.seq()[j]).0 == *k;
                    assert(it.seq()[j] != it.seq()[i]);
                }
            }
            let load = match &p.role {
                PeerRole::Super { children } => Some(children.len()),
                PeerRole::Child { .. } => None,
            };
            let ghost r0 = r@;
            r.push((*k, load));
            proof {
                seen = seen.insert(*k);
            }
            assert(entry_matches(r@[r@.len() - 1], self@));
            assert forall|key: PeerId| seen.contains(key) <==> exists|j: int| 0 <= j < r@.len() && (#[trigger] r@[j]).0 == key by {
                if key == *k {
                    assert(r@[r@.len() - 1].0 == key);
                } else if seen.contains(key) {
                    let j = choose|j: int| 0 <= j < r0.len() && (#[trigger] r0[j]).0 == key;
                    assert(r@[j] == r0[j]);
                }
            }
            assert forall|key: PeerId| seen.contains(key) <==> exists|j: int|
                0 <= j < i + 1 && *(#[trigger] it.seq()[j]).0 == key by {
                if key == *k { assert(*it.seq()[i].0 == key); }
            }
            assert forall|key: PeerId| i + 1 == it.seq().len() && self.peers@.contains_key(key)
                implies seen.contains(key) by {
                let j = choose|j: int| 0 <= j < it.seq().len() && *(#[trigger] it.seq()[j]).0 == key;
            }
        }
        r
    }

    /// Get all super peer IDs, in the order the table is walked.
    pub fn get_super_peer_ids(&self) -> (r: Vec<PeerId>)
        requires
            self.inv(),
        ensures
            r@.no_duplicates(),
            r@.to_set() == super_ids(self@),
    {
        let entries = self.summary();
        let mut r: Vec<PeerId> = Vec::new();
        let mut i: usize = 0;
        while i < entries.len()
            invariant
                summarizes(entries@, self@),
                i <= entries@.len(),
                r@.no_duplicates(),
                forall|key: PeerId| r@.contains(key) <==> exists|j: int|
                    0 <= j < i && (#[trigger] entries@[j]).0 == key && entries@[j].1 is Some,
            decreases entries@.len() - i,
        {
            let (k, load) = entries[i];
            let ghost r0 = r@;
            if load.is_some() {
                assert(!r@.contains(k)) by {
                    if r@.contains(k) {
                        let j = choose|j: int| 0 <= j < i && (#[trigger] entries@[j]).0 == k && entries@[j].1 is Some;
                    }
                }
                r.push(k);
            }
            assert forall|key: PeerId| r@.contains(key) <==> exists|j: int|
                0 <= j < i + 1 && (#[trigger] entries@[j]).0 == key && entries@[j].1 is Some by {
                if r@.contains(key) && key != k {
                    let j = choose|j: int| 0 <= j < r@.len() && r@[j] == key;
                    assert(r0[j] == key);
                }
                if r0.contains(key) {
                    let j = choose|j: int| 0 <= j < r0.len() && r0[j] == key;
                    assert(r@[j] == key);
                }
                if key == k && load.is_some() {
                    assert(r@[r@.len() - 1] == key);
                }
                if key == k && (exists|j: int| 0 <= j < i + 1 && (#[trigger] entries@[j]).0 == key && entries@[j].1 is Some) {
                    let j = choose|j: int| 0 <= j < i + 1 && (#[trigger] entries@[j]).0 == key && entries@[j].1 is Some;
                    if j == i { assert(load is Some); } else { assert(r0.contains(key)); }
                }
            }
            i = i + 1;
        }
        assert forall|key: PeerId| r@.to_set().contains(key) <==> super_ids(self@).contains(key) by {
            if super_ids(self@).contains(key) {
                let j = choose|j: int| 0 <= j < entries@.len() && (#[trigger] entries@[j]).0 == key;
            }
        }
        assert(r@.to_set() =~= super_ids(self@));
        r
    }

    /// Check if a new super peer should be added: when there is none, or when
    /// there are at least `peer_ratio` child peers per super peer.
    pub fn should_add_super_peer(&self, peer_ratio: usize) -> (b: bool)
        requires
            self.inv(),
        ensures
            b == (super_ids(self@).len() == 0 || child_ids(self@).len() >= peer_ratio * super_ids(
                self@,
            ).len()),
    {
        let entries = self.summary();
        let mut child_count: usize = 0;
        let mut super_count: usize = 0;
        let ghost mut cs: Set<PeerId> = Set::empty();
        let ghost mut ss: Set<PeerId> = Set::empty();
        let mut i: usize = 0;
        while i < entries.len()
            invariant
                summarizes(entries@, self@),
                i <= entries@.len(),
                cs.finite(),
                ss.finite(),
                child_count == cs.len(),
                super_count == ss.len(),
                child_count + super_count == i,
                forall|key: PeerId| cs.contains(key) <==> exists|j: int|
                    0 <= j < i && (#[trigger] entries@[j]).0 == key && entries@[j].1 is None,
                forall|key: PeerId| ss.contains(key) <==> exists|j: int|
                    0 <= j < i && (#[trigger] entries@[j]).0 == key && entries@[j].1 is Some,
            decreases entries@.len() - i,
        {
            let (k, load) = entries[i];
            assert(entry_matches(entries@[i as int], self@));
            assert(!cs.contains(k) && !ss.contains(k)) by {
                if cs.contains(k) || ss.contains(k) {
                    let j = choose|j: int| 0 <= j < i && (#[trigger] entries@[j]).0 == k;
                }
            }
            match load {
                Some(_) => {
                    super_count = super_count + 1;
                    proof { ss = ss.insert(k); }
                }
                None => {
                    child_count = child_count + 1;
                    proof { cs = cs.insert(k); }
                }
            }
            assert forall|key: PeerId| cs.contains(key) <==> exists|j: int|
                0 <= j < i + 1 && (#[trigger] entries@[j]).0 == key && entries@[j].1 is None by {
                if key == k && load is None { assert(entries@[i as int].0 == key); }
            }
            assert forall|key: PeerId| ss.contains(key) <==> exists|j: int|
                0 <= j < i + 1 && (#[trigger] entries@[j]).0 == key && entries@[j].1 is Some by {
                if key == k && load is Some { assert(entries@[i as int].0 == key); }
            }
            i = i + 1;
        }
        assert forall|key: PeerId| cs.contains(key) <==> child_ids(self@).contains(key) by {
            if child_ids(self@).contains(key) {
                let j = choose|j: int| 0 <= j < entries@.len() && (#[trigger] entries@[j]).0 == key;
            }
        }
        assert forall|key: PeerId| ss.contains(key) <==> super_ids(self@).contains(key) by {
            if super_ids(self@).contains(key) {
                let j = choose|j: int| 0 <= j < entries@.len() && (#[trigger] entries@[j]).0 == key;
            }
        }
        assert(cs =~= child_ids(self@));
        assert(ss =~= super_ids(self@));
        if super_count == 0 {
            return true;
        }
        let need: u128 = mul_wide(peer_ratio, super_count);
        (child_count as u128) >= need
    }

    /// The super peer with the fewest children, the lowest id among those.
    pub fn find_least_loaded_super_peer(&self) -> (r: Option<PeerId>)
        requires
            self.inv(),
        ensures
            r is None <==> super_ids(self@).is_empty(),
            r matches Some(s) ==> least_loaded(self@, s),
    {
        let entries = self.summary();
        let mut best: Option<(PeerId, usize)> = None;
        let mut i: usize = 0;
        while i < entries.len()
            invariant
                summarizes(entries@, self@),
                i <= entries@.len(),
                best is None <==> forall|j: int| 0 <= j < i ==> (#[trigger] entries@[j]).1 is None,
                best matches Some(b) ==> is_super_in(self@, b.0) && b.1 == load_of(self@, b.0)
                    && forall|j: int| 0 <= j < i && (#[trigger] entries@[j]).1 is Some ==> lighter(
                        self@,
                        b.0,
                        entries@[j].0,
                    ),
            decreases entries@.len() - i,
        {
            let (k, load) = entries[i];
            assert(entry_matches(entries@[i as int], self@));
            match load {
                Some(n) => {
                    match best {
                        None => {
                            best = Some((k, n));
                        }
                        Some((b, bn)) => {
                            if n < bn || (n == bn && k < b) {
                                best = Some((k, n));
                            }
                        }
                    }
                }
                None => {}
            }
            i = i + 1;
        }
        assert(super_ids(self@).is_empty() ==> best is None) by {
            if let Some(b) = best { assert(super_ids(self@).contains(b.0)); }
        }
        assert(best is None ==> super_ids(self@).is_empty()) by {
            if best is None && !super_ids(self@).is_empty() {
                let k = super_ids(self@).choose();
                let j = choose|j: int| 0 <= j < entries@.len() && (#[trigger] entries@[j]).0 == k;
                assert(entry_matches(entries@[j], self@));
            }
        }
        assert(best matches Some(b) ==> least_loaded(self@, b.0)) by {
            if let Some(b) = best {
                assert forall|t: PeerId| is_super_in(self@, t) implies lighter(self@, b.0, t) by {
                    let j = choose|j: int| 0 <= j < entries@.len() && (#[trigger] entries@[j]).0 == t;
                    assert(entry_matches(entries@[j], self@));
                }
            }
        }
        match best {
            Some((b, _)) => Some(b),
            None => None,
        }
    }

    /// Send `event` to `peer`: the notice is queued if the peer is known.
    pub fn try_send_to_peer(&mut self, peer: PeerId, event: PeerEvent) -> (r: Result<(), SignalingError>)
        ensures
            final(self)@ == old(self)@,
            final(self).channels() == old(self).channels(),
            final(self).inv() == old(self).inv(),
            r is Ok <==> old(self)@.contains_key(peer),
            r is Ok ==> final(self).notices() == old(self).notices().push((peer, event@)),
            r is Err ==> r == Err::<(), SignalingError>(SignalingError::UnknownPeer) && final(self).notices() == old(self).notices(),
    {
        if self.peers.contains_key(&peer) {
            let ghost ev = event@;
            let ghost v0 = self.outbox@;
            let n = Notice { to: peer, event };
            proof { lemma_notice_seq_push(v0, n); }
            self.outbox.push(n);
            Ok(())
        } else {
            Err(SignalingError::UnknownPeer)
        }
    }

    /// Queue `event` for each peer of `targets`, all of which are known.
    fn notify_all(&mut self, targets: &Vec<PeerId>, event: &PeerEvent)
        requires
            forall|i: int| 0 <= i < targets@.len() ==> old(self)@.contains_key(#[trigger] targets@[i]),
        ensures
            final(self)@ == old(self)@,
            final(self).channels() == old(self).channels(),
            final(self).inv() == old(self).inv(),
            final(self).notices().len() == old(self).notices().len() + targets@.len(),
            final(self).notices().subrange(0, old(self).notices().len() as int) == old(self).notices(),
            forall|i: int| #![trigger targets@[i]] 0 <= i < targets@.len() ==> final(self).notices()[old(self).notices().len() + i] == (targets@[i], event@),
    {
        let ghost n0 = self.notices().len();
        let mut i: usize = 0;
        while i < targets.len()
            invariant
                i <= targets@.len(),
                forall|j: int| 0 <= j < targets@.len() ==> old(self)@.contains_key(#[trigger] targets@[j]),
                self@ == old(self)@,
                self.channels() == old(self).channels(),
                self.inv() == old(self).inv(),
                n0 == old(self).notices().len(),
                self.notices().len() == n0 + i,
                self.notices().subrange(0, n0 as int) == old(self).notices(),
                forall|j: int| #![trigger targets@[j]] 0 <= j < i ==> self.notices()[n0 + j] == (targets@[j], event@),
            decreases targets@.len() - i,
        {
            let ghost before = self.notices();
            let r = self.try_send_to_peer(targets[i], event.clone());
            assert(r is Ok);
            assert(self.notices().subrange(0, n0 as int) =~= before.subrange(0, n0 as int));
            i = i + 1;
        }
    }

    /// Add a child peer without a parent.
    pub fn add_child_peer(&mut self, peer: PeerId, sender: C)
        requires
            old(self).inv(),
        ensures
            final(self).inv(),
            final(self)@ == old(self)@.insert(peer, RoleView::Child(None)),
            final(self).channels() == old(self).channels().insert(peer, sender),
            final(self).notices() == old(self).notices(),
    {
        self.peers.insert(peer, Peer::new_child(peer, sender));
        assert(self@ =~= old(self)@.insert(peer, RoleView::Child(None)));
        assert(self.channels() =~= old(self).channels().insert(peer, sender));
    }

    /// Queue `event` for every super peer, in the order the table is walked.
    fn notify_super_peers(&mut self, event: &PeerEvent)
        requires
            old(self).inv(),
        ensures
            final(self)@ == old(self)@,
            final(self).channels() == old(self).channels(),
            final(self).inv(),
            extends_with_each(old(self).notices(), final(self).notices(), super_ids(old(self)@), event@),
    {
        let super_peers = self.get_super_peer_ids();
        assert forall|i: int| 0 <= i < super_peers@.len() implies self@.contains_key(#[trigger] super_peers@[i]) by {
            assert(super_peers@.to_set().contains(super_peers@[i]));
        }
        let ghost before = self.notices();
        self.notify_all(&super_peers, event);
        proof {
            super_peers@.unique_seq_to_set();
            let seg = self.notices().subrange(before.len() as int, self.notices().len() as int);
            assert forall|i: int| 0 <= i < seg.len() implies super_ids(old(self)@).contains(#[trigger] seg[i].0) by {
                assert(seg[i] == self.notices()[before.len() + i]);
                assert(self.notices()[before.len() + i] == (super_peers@[i], event@));
                assert(super_peers@.to_set().contains(super_peers@[i]));
            }
            assert forall|i: int| 0 <= i < seg.len() implies #[trigger] seg[i].1 == event@ by {
                assert(seg[i] == self.notices()[before.len() + i]);
                assert(self.notices()[before.len() + i] == (super_peers@[i], event@));
            }
            assert forall|i: int, j: int| 0 <= i < j < seg.len() implies seg[i].0 != seg[j].0 by {
                assert(seg[i] == self.notices()[before.len() + i]);
                assert(seg[j] == self.notices()[before.len() + j]);
                assert(self.notices()[before.len() + i] == (super_peers@[i], event@));
                assert(self.notices()[before.len() + j] == (super_peers@[j], event@));
            }
        }
    }

    /// Add a new super peer, after telling every super peer of it.
    pub fn add_super_peer(&mut self, peer: PeerId, sender: C)
        requires
            old(self).inv(),
        ensures
            final(self).inv(),
            final(self)@ == old(self)@.insert(peer, RoleView::Super(Set::empty())),
            final(self).channels() == old(self).channels().insert(peer, sender),
            extends_with_each(
                old(self).notices(),
                final(self).notices(),
                super_ids(old(self)@),
                EventView::NewPeer(peer),
            ),
    {
        let event = PeerEvent::NewPeer(peer);
        self.notify_super_peers(&event);
        self.peers.insert(peer, Peer::new_super(peer, sender));
        assert(self@ =~= old(self)@.insert(peer, RoleView::Super(Set::empty())));
        assert(self.channels() =~= old(self).channels().insert(peer, sender));
    }

    /// Connect a child to a super peer: the super peer records the child, the
    /// child records its parent, and the super peer hears of the child.
    pub fn connect_child(&mut self, child_id: PeerId, super_id: PeerId) -> (r: Result<(), SignalingError>)
        requires
            old(self).inv(),
        ensures
            final(self).inv(),
            final(self)@ == connected(old(self)@, child_id, super_id),
            final(self).channels() == old(self).channels(),
            r is Ok <==> connect_succeeds(old(self)@, child_id, super_id),
            r is Ok ==> final(self).notices() == old(self).notices().push(
                (super_id, EventView::NewPeer(child_id)),
            ),
            r is Err ==> r == Err::<(), SignalingError>(SignalingError::UnknownPeer) && final(self).notices()
                == old(self).notices(),
    {
        let ghost m = self@;
        match self.peers.remove(&super_id) {
            None => {
                assert(self@ =~= m);
                return Err(SignalingError::UnknownPeer);
            },
            Some(p) => {
                let Peer { id, role, signaling_channel } = p;
                match role {
                    PeerRole::Super { mut children } => {
                        children.insert(child_id);
                        self.peers.insert(super_id, Peer { id, role: PeerRole::Super { children }, signaling_channel });
                    },
                    PeerRole::Child { parent_id } => {
                        self.peers.insert(super_id, Peer { id, role: PeerRole::Child { parent_id }, signaling_channel });
                        assert(self@ =~= m);
                        assert(self.channels() =~= old(self).channels());
                        return Err(SignalingError::UnknownPeer);
                    },
                }
            },
        }
        let ghost m1 = m.insert(super_id, RoleView::Super(children_of(m, super_id).insert(child_id)));
        assert(self@ =~= m1);
        assert(self.channels() =~= old(self).channels());
        match self.peers.remove(&child_id) {
            None => {
                assert(self@ =~= m1);
                return Err(SignalingError::UnknownPeer);
            },
            Some(p) => {
                let Peer { id, role, signaling_channel } = p;
                match role {
                    PeerRole::Child { .. } => {
                        self.peers.insert(child_id, Peer { id, role: PeerRole::Child { parent_id: Some(super_id) }, signaling_channel });
                    },
                    PeerRole::Super { children } => {
                        self.peers.insert(child_id, Peer { id, role: PeerRole::Super { children }, signaling_channel });
                        assert(self@ =~= m1);
                        assert(self.channels() =~= old(self).channels());
                        return Err(SignalingError::UnknownPeer);
                    },
                }
            },
        }
        assert(self@ =~= m1.insert(child_id, RoleView::Child(Some(super_id))));
        assert(self.channels() =~= old(self).channels());
        let r = self.try_send_to_peer(super_id, PeerEvent::NewPeer(child_id));
        assert(r is Ok);
        Ok(())
    }

    /// Disconnect a child peer: it leaves the table, its parent forgets it and
    /// hears that it left. A super peer, or an unknown id, is left alone.
    pub fn remove_child_peer(&mut self, child_id: PeerId)
        requires
            old(self).inv(),
        ensures
            final(self).inv(),
            final(self)@ == child_removed(old(self)@, child_id),
            final(self).channels() == (if child_is_removed(old(self)@, child_id) {
                old(self).channels().remove(child_id)
            } else {
                old(self).channels()
            }),
            final(self).notices() == old(self).notices() + child_removal_notices(old(self)@, child_id),
    {
        let ghost m = self@;
        let parent: Option<PeerId>;
        match self.peers.remove(&child_id) {
            None => {
                assert(self@ =~= m);
                assert(child_removal_notices(m, child_id) =~= Seq::<(PeerId, EventView)>::empty());
                assert(self.notices() =~= old(self).notices() + child_removal_notices(m, child_id));
                return;
            },
            Some(p) => {
                let Peer { id, role, signaling_channel } = p;
                match role {
                    PeerRole::Super { children } => {
                        self.peers.insert(child_id, Peer { id, role: PeerRole::Super { children }, signaling_channel });
                        assert(self@ =~= m);
                        assert(self.channels() =~= old(self).channels());
                        assert(child_removal_notices(m, child_id) =~= Seq::<(PeerId, EventView)>::empty());
                        assert(self.notices() =~= old(self).notices() + child_removal_notices(m, child_id));
                        return;
                    },
                    PeerRole::Child { parent_id } => {
                        parent = parent_id;
                    },
                }
            },
        }
        let ghost m1 = m.remove(child_id);
        assert(self@ =~= m1);
        assert(self.channels() =~= old(self).channels().remove(child_id));
        match parent {
            None => {
                assert(child_removal_notices(m, child_id) =~= Seq::<(PeerId, EventView)>::empty());
                assert(self.notices() =~= old(self).notices() + child_removal_notices(m, child_id));
            },
            Some(pid) => {
                match self.peers.remove(&pid) {
                    None => {},
                    Some(pp) => {
                        let Peer { id, role, signaling_channel } = pp;
                        match role {
                            PeerRole::Super { mut children } => {
                                children.remove(&child_id);
                                self.peers.insert(pid, Peer { id, role: PeerRole::Super { children }, signaling_channel });
                            },
                            PeerRole::Child { parent_id } => {
                                self.peers.insert(pid, Peer { id, role: PeerRole::Child { parent_id }, signaling_channel });
                            },
                        }
                    },
                }
                assert(self@ =~= child_removed(m, child_id));
                assert(self.channels() =~= old(self).channels().remove(child_id));
                let ghost n = self.notices();
                let r = self.try_send_to_peer(pid, PeerEvent::PeerLeft(child_id));
                if r.is_ok() {
                    assert(self.notices() =~= old(self).notices() + child_removal_notices(m, child_id));
                } else {
                    assert(self.notices() =~= old(self).notices() + child_removal_notices(m, child_id));
                }
            },
        }
    }

    /// Take the child with the least id out of the super peer `giver_id`'s set.
    fn detach_least_child(&mut self, giver_id: PeerId) -> (r: Option<PeerId>)
        requires
            old(self).inv(),
        ensures
            final(self).inv(),
            final(self).channels() == old(self).channels(),
            final(self).notices() == old(self).notices(),
            r is None <==> !is_super_in(old(self)@, giver_id) || children_of(old(self)@, giver_id).is_empty(),
            r is None ==> final(self)@ == old(self)@,
            r matches Some(c) ==> c == set_min(children_of(old(self)@, giver_id)) && final(self)@ == old(self)@.insert(giver_id, RoleView::Super(children_of(old(self)@, giver_id).remove(c))),
    {
        let ghost m = self@;
        match self.peers.remove(&giver_id) {
            None => {
                assert(self@ =~= m);
                None
            },
            Some(p) => {
                let Peer { id, role, signaling_channel } = p;
                match role {
                    PeerRole::Child { parent_id } => {
                        self.peers.insert(giver_id, Peer { id, role: PeerRole::Child { parent_id }, signaling_channel });
                        assert(self@ =~= m);
                        assert(self.channels() =~= old(self).channels());
                        None
                    },
                    PeerRole::Super { mut children } => {
                        match min_id(&children) {
                            None => {
                                self.peers.insert(giver_id, Peer { id, role: PeerRole::Super { children }, signaling_channel });
                                assert(self@ =~= m);
                                assert(self.channels() =~= old(self).channels());
                                None
                            },
                            Some(c) => {
                                children.remove(&c);
                                self.peers.insert(giver_id, Peer { id, role: PeerRole::Super { children }, signaling_channel });
                                assert(self@ =~= m.insert(giver_id, RoleView::Super(children_of(m, giver_id).remove(c))));
                                assert(self.channels() =~= old(self).channels());
                                Some(c)
                            },
                        }
                    },
                }
            },
        }
    }

    /// Transfer the child with the least id from the super peer `giver_id` to
    /// `receiver_id`: the giver hears that the child left, the child hears
    /// that the giver left, then the child is connected to the receiver.
    #[verifier::spinoff_prover]
    #[verifier::rlimit(80)]
    pub fn move_child(&mut self, giver_id: PeerId, receiver_id: PeerId)
        requires
            old(self).inv(),
        ensures
            final(self).inv(),
            final(self)@ == child_moved(old(self)@, giver_id, receiver_id),
            final(self).channels() == old(self).channels(),
            final(self).notices() == old(self).notices() + move_notices(old(self)@, giver_id, receiver_id),
    {
        let ghost m = self@;
        let child_id = match self.detach_least_child(giver_id) {
            None => {
                proof { lemma_move_nothing(m, giver_id, receiver_id); }
                assert(self.notices() =~= old(self).notices() + move_notices(m, giver_id, receiver_id));
                return;
            },
            Some(c) => c,
        };
        let ghost m1 = self@;
        proof { lemma_move_unfold(m, giver_id, receiver_id); }
        let ghost n0 = self.notices();
        let r1 = self.try_send_to_peer(giver_id, PeerEvent::PeerLeft(child_id));
        let ghost n1 = self.notices();
        let r2 = self.try_send_to_peer(child_id, PeerEvent::PeerLeft(giver_id));
        let ghost n2 = self.notices();
        let r3 = self.connect_child(child_id, receiver_id);
        let ghost n3 = self.notices();
        proof {
            let f = move_first_notices(m1, giver_id, child_id);
            let c = connect_notice(m1, child_id, receiver_id);
            assert(n1 == n0.push((giver_id, EventView::PeerLeft(child_id))));
            if m1.contains_key(child_id) {
                assert(n2 == n1.push((child_id, EventView::PeerLeft(giver_id))));
                assert(n2 =~= n0 + f);
            } else {
                assert(n2 == n1);
                assert(n2 =~= n0 + f);
            }
            if connect_succeeds(m1, child_id, receiver_id) {
                assert(n3 =~= n2 + c);
            } else {
                assert(n3 =~= n2 + c);
            }
            assert(n3 =~= n0 + (f + c));
        }
    }

    /// Queue `event` for each peer of `ids` that is known, in the order the set is walked.
    fn notify_known(&mut self, ids: &HashSet<PeerId>, event: &PeerEvent)
        ensures
            final(self)@ == old(self)@,
            final(self).channels() == old(self).channels(),
            final(self).inv() == old(self).inv(),
            extends_with_each(
                old(self).notices(),
                final(self).notices(),
                ids@.filter(|c: PeerId| old(self)@.contains_key(c)),
                event@,
            ),
    {
        let ghost n0 = self.notices();
        let ghost mut done: Set<PeerId> = Set::empty();
        let ghost mut sent: Set<PeerId> = Set::empty();
        assert(sent =~= done.filter(|c: PeerId| old(self)@.contains_key(c)));
        assert(self.notices().subrange(n0.len() as int, self.notices().len() as int) =~= Seq::<(PeerId, EventView)>::empty());
        assert(self.notices().subrange(0, n0.len() as int) =~= n0);
        for x in it: ids.iter()
            invariant
                self@ == old(self)@,
                self.channels() == old(self).channels(),
                self.inv() == old(self).inv(),
                n0 == old(self).notices(),
                it.seq().unref().to_set() == ids@,
                it.seq().no_duplicates(),
                forall|k: PeerId| done.contains(k) <==> exists|j: int| 0 <= j < it.index() && *it.seq()[j] == k,
                it.index() == it.seq().len() ==> ids@.subset_of(done),
                done.subset_of(ids@),
                done.finite(),
                sent == done.filter(|c: PeerId| old(self)@.contains_key(c)),
                n0.len() <= self.notices().len(),
                self.notices().subrange(0, n0.len() as int) == n0,
                notifies_each(self.notices().subrange(n0.len() as int, self.notices().len() as int), sent, event@),
        {
            let ghost i = it.index() as int;
            let ghost before = self.notices();
            assert(it.seq().unref()[i] == *x);
            assert(ids@.contains(*x));
            assert(!done.contains(*x)) by {
                if done.contains(*x) {
                    let j = choose|j: int| 0 <= j < i && *it.seq()[j] == *x;
                    assert(it.seq()[j] != it.seq()[i]);
                }
            }
            let r = self.try_send_to_peer(*x, event.clone());
            proof {
                let k = *x;
                let old_sent = sent;
                done = done.insert(k);
                sent = done.filter(|c: PeerId| old(self)@.contains_key(c));
                assert(self.notices().subrange(0, n0.len() as int) =~= before.subrange(0, n0.len() as int));
                let seg0 = before.subrange(n0.len() as int, before.len() as int);
                let seg = self.notices().subrange(n0.len() as int, self.notices().len() as int);
                if r is Ok {
                    assert(sent =~= old_sent.insert(k));
                    assert(!old_sent.contains(k));
                    assert(seg =~= seg0.push((k, event@)));
                } else {
                    assert(sent =~= old_sent);
                    assert(seg =~= seg0);
                }
            }
            assert forall|key: PeerId| done.contains(key) <==> exists|j: int| 0 <= j < i + 1 && *it.seq()[j] == key by {
                if key == *x { assert(*it.seq()[i] == key); }
            }
            assert forall|key: PeerId| i + 1 == it.seq().len() && ids@.contains(key) implies done.contains(key) by {
                assert(it.seq().unref().to_set().contains(key));
                let j = choose|j: int| 0 <= j < it.seq().unref().len() && it.seq().unref()[j] == key;
                assert(*it.seq()[j] == key);
            }
        }
        assert(done =~= ids@);
    }

    /// Connect each peer of `ids` other than `r` to the super peer `r`, in the
    /// order the set is walked.
    fn adopt_all(&mut self, ids: &HashSet<PeerId>, r: PeerId)
        requires
            old(self).inv(),
            old(self)@.contains_key(r),
            old(self)@[r] == RoleView::Super(Set::empty()),
        ensures
            final(self).inv(),
            final(self)@ == promoted(old(self)@, r, ids@),
            final(self).channels() == old(self).channels(),
            old(self).notices().len() <= final(self).notices().len(),
            final(self).notices().subrange(0, old(self).notices().len() as int) == old(self).notices(),
            announces_each(
                final(self).notices().subrange(old(self).notices().len() as int, final(self).notices().len() as int),
                r,
                ids@.remove(r).filter(|c: PeerId| is_child_in(old(self)@, c)),
            ),
    {
        let ghost m1 = self@;
        let ghost n0 = self.notices();
        let ghost mut done: Set<PeerId> = Set::empty();
        assert(Set::<PeerId>::empty().remove(r) =~= Set::<PeerId>::empty());
        assert(promoted(m1, r, done) =~= m1);
        assert(done.remove(r).filter(|c: PeerId| is_child_in(m1, c)) =~= Set::<PeerId>::empty());
        assert(self.notices().subrange(n0.len() as int, self.notices().len() as int) =~= Seq::<(PeerId, EventView)>::empty());
        assert(self.notices().subrange(0, n0.len() as int) =~= n0);
        for x in it: ids.iter()
            invariant
                self.inv(),
                m1 == old(self)@,
                m1.contains_key(r),
                self@ == promoted(m1, r, done),
                self.channels() == old(self).channels(),
                n0 == old(self).notices(),
                it.seq().unref().to_set() == ids@,
                it.seq().no_duplicates(),
                forall|k: PeerId| done.contains(k) <==> exists|j: int| 0 <= j < it.index() && *it.seq()[j] == k,
                it.index() == it.seq().len() ==> ids@.subset_of(done),
                done.subset_of(ids@),
                done.finite(),
                n0.len() <= self.notices().len(),
                self.notices().subrange(0, n0.len() as int) == n0,
                announces_each(
                    self.notices().subrange(n0.len() as int, self.notices().len() as int),
                    r,
                    done.remove(r).filter(|c: PeerId| is_child_in(m1, c)),
                ),
        {
            let ghost i = it.index() as int;
            let ghost before = self.notices();
            let ghost old_subjects = done.remove(r).filter(|c: PeerId| is_child_in(m1, c));
            assert(it.seq().unref()[i] == *x);
            assert(ids@.contains(*x));
            assert(!done.contains(*x)) by {
                if done.contains(*x) {
                    let j = choose|j: int| 0 <= j < i && *it.seq()[j] == *x;
                    assert(it.seq()[j] != it.seq()[i]);
                }
            }
            if *x != r {
                proof { lemma_promote_step(m1, r, done, *x); }
                let res = self.connect_child(*x, r);
                proof {
                    let k = *x;
                    let subjects = done.insert(k).remove(r).filter(|c: PeerId| is_child_in(m1, c));
                    assert(self.notices().subrange(0, n0.len() as int) =~= before.subrange(0, n0.len() as int));
                    let seg0 = before.subrange(n0.len() as int, before.len() as int);
                    let seg = self.notices().subrange(n0.len() as int, self.notices().len() as int);
                    if res is Ok {
                        assert(subjects =~= old_subjects.insert(k));
                        assert(!old_subjects.contains(k));
                        assert(seg =~= seg0.push((r, EventView::NewPeer(k))));
                    } else {
                        assert(subjects =~= old_subjects);
                        assert(seg =~= seg0);
                    }
                }
            } else {
                proof {
                    lemma_promote_recruit(m1, r, done);
                    assert(done.insert(r).remove(r) =~= done.remove(r));
                }
            }
            proof {
                done = done.insert(*x);
            }
            assert forall|key: PeerId| done.contains(key) <==> exists|j: int| 0 <= j < i + 1 && *it.seq()[j] == key by {
                if key == *x { assert(*it.seq()[i] == key); }
            }
            assert forall|key: PeerId| i + 1 == it.seq().len() && ids@.contains(key) implies done.contains(key) by {
                assert(it.seq().unref().to_set().contains(key));
                let j = choose|j: int| 0 <= j < it.seq().unref().len() && it.seq().unref()[j] == key;
                assert(*it.seq()[j] == key);
            }
        }
        assert(done =~= ids@);
    }

    /// Make the known peer `r` a super peer without children.
    fn make_super(&mut self, r: PeerId)
        requires
            old(self).inv(),
            old(self)@.contains_key(r),
        ensures
            final(self).inv(),
            final(self)@ == old(self)@.insert(r, RoleView::Super(Set::empty())),
            final(self).channels() == old(self).channels(),
            final(self).notices() == old(self).notices(),
    {
        let ghost m = self@;
        match self.peers.remove(&r) {
            None => {},
            Some(p) => {
                let Peer { id, role: _, signaling_channel } = p;
                self.peers.insert(r, Peer { id, role: PeerRole::Super { children: HashSet::new() }, signaling_channel });
            },
        }
        assert(self@ =~= m.insert(r, RoleView::Super(Set::empty())));
        assert(self.channels() =~= old(self).channels());
    }

    /// Take the super peer `super_id` out of the table, and hand over its children.
    fn take_super(&mut self, super_id: PeerId) -> (r: Option<HashSet<PeerId>>)
        requires
            old(self).inv(),
        ensures
            final(self).inv(),
            final(self).notices() == old(self).notices(),
            r is Some <==> is_super_in(old(self)@, super_id),
            r is None ==> final(self)@ == old(self)@ && final(self).channels() == old(self).channels(),
            r matches Some(cs) ==> cs@ == children_of(old(self)@, super_id) && final(self)@ == old(self)@.remove(super_id)
                && final(self).channels() == old(self).channels().remove(super_id),
    {
        let ghost m = self@;
        match self.peers.remove(&super_id) {
            None => {
                assert(self@ =~= m);
                None
            },
            Some(p) => {
                let Peer { id, role, signaling_channel } = p;
                match role {
                    PeerRole::Child { parent_id } => {
                        self.peers.insert(super_id, Peer { id, role: PeerRole::Child { parent_id }, signaling_channel });
                        assert(self@ =~= m);
                        assert(self.channels() =~= old(self).channels());
                        None
                    },
                    PeerRole::Super { children } => {
                        assert(self@ =~= m.remove(super_id));
                        assert(self.channels() =~= old(self).channels().remove(super_id));
                        Some(children)
                    },
                }
            },
        }
    }

    /// Remove a super peer: the other super peers and its children hear that it
    /// left, then its child with the least id becomes a super peer and the
    /// other children are connected to it. A child peer, or an unknown id, is
    /// left alone.
    #[verifier::spinoff_prover]
    #[verifier::rlimit(80)]
    pub fn remove_super_peer(&mut self, super_id: PeerId)
        requires
            old(self).inv(),
        ensures
            final(self).inv(),
            final(self)@ == super_removed(old(self)@, super_id),
            final(self).channels() == (if is_super_in(old(self)@, super_id) {
                old(self).channels().remove(super_id)
            } else {
                old(self).channels()
            }),
            super_removal_notices(old(self)@, super_id, old(self).notices(), final(self).notices()),
            forall|o: PeerId|
                #![trigger super_ids(old(self)@).contains(o)]
                is_super_in(old(self)@, super_id) && super_ids(old(self)@).contains(o) && o != super_id
                    ==> exists|i: int|
                    old(self).notices().len() <= i < final(self).notices().len() && final(self).notices()[i] == (
                        o,
                        EventView::PeerLeft(super_id),
                    ),
            forall|o: PeerId, i: int, j: int|
                #![trigger super_ids(old(self)@).contains(o), final(self).notices()[i], final(self).notices()[j]]
                well_formed(old(self)@) && is_super_in(old(self)@, super_id) && super_ids(old(self)@).contains(o)
                    && o != super_id
                    && old(self).notices().len() <= i < final(self).notices().len()
                    && old(self).notices().len() <= j < final(self).notices().len()
                    && final(self).notices()[i] == (o, EventView::PeerLeft(super_id))
                    && final(self).notices()[j] == (o, EventView::PeerLeft(super_id)) ==> i == j,
    {
        let ghost m = self@;
        let ghost before = self.notices();
        let former_children = match self.take_super(super_id) {
            None => {
                return;
            },
            Some(cs) => cs,
        };
        let ghost m1 = m.remove(super_id);
        let ghost cs = children_of(m, super_id);
        let ghost n0 = self.notices();
        let event = PeerEvent::PeerLeft(super_id);
        // Notify the other super peers that `super_id` left.
        self.notify_super_peers(&event);
        let ghost n1 = self.notices();
        // Notify the children that their super peer is gone.
        self.notify_known(&former_children, &event);
        let ghost n2 = self.notices();
        // Promote the child with the least id, then connect the others to it.
        let recruit = min_id(&former_children);
        if let Some(recruit_id) = recruit {
            if self.peers.contains_key(&recruit_id) {
                self.make_super(recruit_id);
                self.adopt_all(&former_children, recruit_id);
                proof {
                    lemma_promote_recruit(m1, recruit_id, cs);
                    assert(cs.remove(recruit_id).filter(|c: PeerId| is_child_in(m1.insert(recruit_id, RoleView::Super(Set::empty())), c))
                        =~= adopted(m, super_id));
                }
            }
        }
        proof {
            let after = self.notices();
            if !recruits(m, super_id) {
                assert(adopted(m, super_id) =~= Set::<PeerId>::empty());
                assert(after.subrange(n2.len() as int, after.len() as int) =~= Seq::<(PeerId, EventView)>::empty());
                assert(after.subrange(0, n2.len() as int) =~= n2);
            }
            lemma_three_segments(n0, n1, n2, after, super_ids(m1), cs.filter(|c: PeerId| m1.contains_key(c)),
                EventView::PeerLeft(super_id), set_min(cs), adopted(m, super_id));
            assert(super_removal_notices(m, super_id, before, after));
            old(self).lemma_finite();
            law_leaving_super_peer_is_announced_to_super_peers(m, super_id, before, after);
        }
    }

    /// One entry per super peer: its id and its number of children.
    fn super_shares(&self) -> (r: Vec<Share>)
        requires
            self.inv(),
        ensures
            distinct_ids(r@),
            forall|k: int|
                0 <= k < r@.len() ==> is_super_in(self@, (#[trigger] r@[k]).0) && r@[k].1 == load_of(self@, r@[k].0)
                    && r@[k].2 == 0 && r@[k].1 <= max_load(),
            forall|s: PeerId| is_super_in(self@, s) ==> exists|k: int| 0 <= k < r@.len() && (#[trigger] r@[k]).0 == s,
            r@.len() == super_ids(self@).len(),
            r@.len() <= max_load(),
    {
        let entries = self.summary();
        let mut r: Vec<Share> = Vec::new();
        let mut i: usize = 0;
        while i < entries.len()
            invariant
                summarizes(entries@, self@),
                i <= entries@.len(),
                r@.len() <= i,
                distinct_ids(r@),
                forall|k: int|
                    0 <= k < r@.len() ==> is_super_in(self@, (#[trigger] r@[k]).0) && r@[k].1 == load_of(self@, r@[k].0)
                        && r@[k].2 == 0 && r@[k].1 <= max_load(),
                forall|k: int| 0 <= k < r@.len() ==> exists|j: int| 0 <= j < i && (#[trigger] r@[k]).0 == entries@[j].0,
                forall|j: int|
                    0 <= j < i && (#[trigger] entries@[j]).1 is Some ==> exists|k: int| 0 <= k < r@.len() && r@[k].0 == entries@[j].0,
            decreases entries@.len() - i,
        {
            let (k, load) = entries[i];
            assert(entry_matches(entries@[i as int], self@));
            let ghost r0 = r@;
            if let Some(n) = load {
                assert forall|a: int| 0 <= a < r0.len() implies r0[a].0 != k by {
                    let j = choose|j: int| 0 <= j < i && (#[trigger] r0[a]).0 == entries@[j].0;
                }
                r.push((k, n as u128, 0));
                assert(r@[r0.len() as int].0 == entries@[i as int].0);
                assert forall|a: int| 0 <= a < r@.len() implies exists|j: int| 0 <= j < i + 1 && (#[trigger] r@[a]).0 == entries@[j].0 by {
                    if a < r0.len() {
                        assert(r@[a] == r0[a]);
                        let j = choose|j: int| 0 <= j < i && (#[trigger] r0[a]).0 == entries@[j].0;
                    }
                }
                assert forall|j: int| 0 <= j < i + 1 && (#[trigger] entries@[j]).1 is Some implies exists|a: int| 0 <= a < r@.len() && r@[a].0 == entries@[j].0 by {
                    if j < i {
                        let a = choose|a: int| 0 <= a < r0.len() && r0[a].0 == entries@[j].0;
                        assert(r@[a] == r0[a]);
                    }
                }
            }
            i = i + 1;
        }
        proof {
            let ids = r@.map_values(|e: Share| e.0);
            assert forall|a: int, b: int| 0 <= a < b < ids.len() implies ids[a] != ids[b] by {}
            assert(ids.no_duplicates());
            ids.unique_seq_to_set();
            assert forall|x: PeerId| ids.to_set().contains(x) <==> super_ids(self@).contains(x) by {
                if super_ids(self@).contains(x) {
                    let j = choose|j: int| 0 <= j < entries@.len() && (#[trigger] entries@[j]).0 == x;
                    assert(entry_matches(entries@[j], self@));
                    let a = choose|a: int| 0 <= a < r@.len() && r@[a].0 == entries@[j].0;
                    assert(ids[a] == x);
                }
                if ids.to_set().contains(x) {
                    let a = choose|a: int| 0 <= a < ids.len() && ids[a] == x;
                    assert(r@[a].0 == x);
                }
            }
            assert(ids.to_set() =~= super_ids(self@));
            assert forall|s: PeerId| is_super_in(self@, s) implies exists|k: int| 0 <= k < r@.len() && (#[trigger] r@[k]).0 == s by {
                let j = choose|j: int| 0 <= j < entries@.len() && (#[trigger] entries@[j]).0 == s;
                assert(entry_matches(entries@[j], self@));
                let a = choose|a: int| 0 <= a < r@.len() && r@[a].0 == entries@[j].0;
            }
        }
        r
    }

    /// Spread the children evenly over the super peers. The super peers are
    /// ordered by their number of children (those with equally many in the
    /// order the table is walked); of `t` children over `n` super peers, the
    /// first `t % n` in that order are to keep `t / n + 1` and the others
    /// `t / n`. Then, while some super peer is above its share and another
    /// below, the child with the least id moves from the first to the second.
    /// With fewer than two super peers nothing happens.
    #[verifier::rlimit(80)]
    pub fn load_balance(&mut self)
        requires
            old(self).inv(),
        ensures
            final(self).inv(),
            final(self).channels() == old(self).channels(),
            same_shape(old(self)@, final(self)@),
            super_ids(old(self)@).len() < 2 ==> final(self)@ == old(self)@ && final(self).notices() == old(self).notices(),
            old(self).notices().is_prefix_of(final(self).notices()),
            exists|moves: Seq<(PeerId, PeerId)>|
                #![trigger after_moves(old(self)@, moves)]
                {
                    &&& forall|i: int|
                        0 <= i < moves.len() ==> is_super_in(old(self)@, (#[trigger] moves[i]).0) && is_super_in(
                            old(self)@,
                            moves[i].1,
                        ) && moves[i].0 != moves[i].1
                    &&& after_moves(old(self)@, moves).0 == final(self)@
                    &&& final(self).notices() == old(self).notices() + after_moves(old(self)@, moves).1
                    &&& well_formed(old(self)@) ==> moves_toward(old(self)@, moves, final(self)@)
                },
            well_formed(old(self)@) ==> balanced_from(old(self)@, final(self)@),
    {
        let ghost m0 = self@;
        let info = self.super_shares();
        let ghost mut moves: Seq<(PeerId, PeerId)> = Seq::empty();
        let ghost mut steps: Seq<(int, int)> = Seq::empty();
        if info.len() < 2 {
            proof {
                assert(moves_toward(m0, moves, self@));
                assert(old(self).notices().is_prefix_of(self.notices()));
                assert(self.notices() =~= old(self).notices() + after_moves(m0, moves).1);
            }
            return;
        }
        let sorted = sort_by_load(&info);
        proof {
            assert forall|k: int| 0 <= k < sorted@.len() implies is_super_in(m0, (#[trigger] sorted@[k]).0)
                && sorted@[k].1 == load_of(m0, sorted@[k].0) && sorted@[k].1 <= max_load() by {
                assert(sorted@.contains(sorted@[k]));
                vstd::seq_lib::to_multiset_contains(sorted@, sorted@[k]);
                vstd::seq_lib::to_multiset_contains(info@, sorted@[k]);
                let a = choose|a: int| 0 <= a < info@.len() && info@[a] == sorted@[k];
            }
            assert forall|x: PeerId| is_super_in(m0, x) implies exists|k: int| 0 <= k < sorted@.len() && (#[trigger] sorted@[k]).0 == x by {
                let a = choose|a: int| 0 <= a < info@.len() && (#[trigger] info@[a]).0 == x;
                assert(info@.contains(info@[a]));
                vstd::seq_lib::to_multiset_contains(info@, info@[a]);
                vstd::seq_lib::to_multiset_contains(sorted@, info@[a]);
                let k = choose|k: int| 0 <= k < sorted@.len() && sorted@[k] == info@[a];
            }
        }
        let plan0 = assign_goals(&sorted);
        let (over, under) = split_by_goal(&plan0);
        let ghost t = total(sorted@, by_load());
        let ghost n = sorted@.len() as int;
        let ghost p0 = plan0@;
        let mut plan = plan0;
        let mut i: usize = 0;
        let mut j: usize = 0;
        assert(self.notices() =~= old(self).notices() + after_moves(m0, moves).1);
        while i < over.len() && j < under.len()
            invariant
                well_formed(m0) ==> moves_planned(m0, moves, steps, p0),
                forall|k: int|
                    0 <= k < moves.len() ==> is_super_in(m0, (#[trigger] moves[k]).0) && is_super_in(m0, moves[k].1)
                        && moves[k].0 != moves[k].1,
                after_moves(m0, moves).0 == self@,
                self.notices() == old(self).notices() + after_moves(m0, moves).1,
                tracks(p0, plan@, over@, under@, i as int, j as int),
                self.inv(),
                self.channels() == old(self).channels(),
                same_shape(m0, self@),
                m0 == old(self)@,
                old(self).notices().is_prefix_of(self.notices()),
                distinct_ids(p0),
                forall|k: int| 0 <= k < p0.len() ==> is_super_in(m0, (#[trigger] p0[k]).0),
                well_formed(m0) ==> well_formed(self@) && attached_ids(self@) == attached_ids(m0) && forall|k: int|
                    0 <= k < plan@.len() ==> load_of(self@, (#[trigger] plan@[k]).0) == plan@[k].1,
            decreases over@.len() - i + under@.len() - j + total(plan@, by_surplus()),
        {
            proof {
                assert forall|k: int| 0 <= k < plan@.len() implies by_surplus()(#[trigger] plan@[k]) >= 0 by {}
                lemma_total_nonneg(plan@, by_surplus());
            }
            let o = over[i];
            if plan[o].1 <= plan[o].2 {
                proof { lemma_tracks_skip_over(p0, plan@, over@, under@, i as int, j as int); }
                i = i + 1;
                continue;
            }
            let u = under[j];
            if plan[u].1 >= plan[u].2 {
                proof { lemma_tracks_skip_under(p0, plan@, over@, under@, i as int, j as int); }
                j = j + 1;
                continue;
            }
            proof {
                lemma_tracks_shift(p0, plan@, over@, under@, i as int, j as int);
                assert forall|k: int| 0 <= k < plan@.len() implies by_surplus()(#[trigger] plan@[k]) >= 0 by {}
                lemma_total_nonneg(shifted(plan@, o as int, u as int), by_surplus());
            }
            let ghost p = plan@;
            let ghost cur = self@;
            let (go, lo, to) = plan[o];
            let (gu, lu, tu) = plan[u];
            plan.set(o, (go, lo - 1, to));
            plan.set(u, (gu, lu + 1, tu));
            assert(plan@ == shifted(p, o as int, u as int));
            let ghost n_before = self.notices();
            self.move_child(go, gu);
            proof {
                lemma_after_moves_push(m0, moves, go, gu, old(self).notices());
                assert(is_super_in(m0, go) && is_super_in(m0, gu));
                if well_formed(m0) {
                    assert(load_of(cur, p0[o as int].0) == p[o as int].1);
                    assert(load_of(cur, p0[u as int].0) == p[u as int].1);
                    lemma_moves_planned_push(m0, moves, steps, p0, o as int, u as int);
                }
                moves = moves.push((go, gu));
                steps = steps.push((o as int, u as int));
            }
            proof {
                assert(n_before.is_prefix_of(self.notices()));
                lemma_move_same_shape(cur, go, gu);
                assert(go == p0[o as int].0 && gu == p0[u as int].0);
                assert(go != gu);
                if well_formed(m0) {
                    assert(is_super_in(cur, go) && is_super_in(cur, gu));
                    assert(load_of(cur, go) == p[o as int].1);
                    assert(load_of(cur, go) > 0);
                    assert(!children_of(cur, go).is_empty()) by {
                        if children_of(cur, go).is_empty() {
                            assert(children_of(cur, go) =~= Set::<PeerId>::empty());
                        }
                    }
                    lemma_move_keeps_topology(cur, go, gu);
                    assert forall|k: int| 0 <= k < plan@.len() implies load_of(self@, (#[trigger] plan@[k]).0) == plan@[k].1 by {
                        if k != o && k != u {
                            assert(plan@[k] == p[k]);
                            assert(p[k].0 != go && p[k].0 != gu);
                            assert(is_super_in(cur, p[k].0));
                        }
                    }
                }
            }
        }
        proof {
            lemma_tracks_done(p0, plan@, over@, under@, i as int, j as int);
            if well_formed(m0) {
                assert forall|k: int| 0 <= k < p0.len() implies load_of(self@, (#[trigger] p0[k]).0) == p0[k].2 by {
                    assert(plan@[k].0 == p0[k].0 && plan@[k].2 == p0[k].2);
                    assert(load_of(self@, plan@[k].0) == plan@[k].1);
                }
                lemma_moves_planned_toward(m0, moves, steps, p0, self@);
            }
            if well_formed(m0) {
                assert forall|a: PeerId, b: PeerId| is_super_in(m0, a) && is_super_in(m0, b) implies
                    #[trigger] load_of(self@, a) <= #[trigger] load_of(self@, b) + 1
                    && (load_of(m0, a) < load_of(m0, b) ==> load_of(self@, a) >= load_of(self@, b)) by {
                    let ka = choose|k: int| 0 <= k < sorted@.len() && (#[trigger] sorted@[k]).0 == a;
                    let kb = choose|k: int| 0 <= k < sorted@.len() && (#[trigger] sorted@[k]).0 == b;
                    assert(plan@[ka].0 == a && plan@[kb].0 == b);
                    assert(load_of(self@, a) == share_of(t, n, ka));
                    assert(load_of(self@, b) == share_of(t, n, kb));
                    if load_of(m0, a) < load_of(m0, b) {
                        assert(sorted@[ka].1 < sorted@[kb].1);
                        assert(ka < kb);
                    }
                }
            }
            assert(well_formed(m0) ==> moves_toward(m0, moves, self@));
            assert(after_moves(m0, moves).0 == self@);
            assert(self.notices() == old(self).notices() + after_moves(m0, moves).1);
        }
    }
}

} // verus!
