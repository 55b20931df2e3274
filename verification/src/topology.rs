//! The hybrid topology's decisions: where a joining peer goes, what happens
//! when a peer leaves, and where a signal is forwarded. The connection loop
//! that receives requests and delivers the notices runs outside the library.

use crate::laws::{
    law_add_child_keeps_consistency, law_add_super_keeps_consistency, law_connect_keeps_consistency,
    law_remove_child_keeps_consistency, law_remove_super_keeps_consistency,
};
use crate::peer_id::PeerId;
use crate::state::{
    after_moves, balanced_from, child_ids, child_removal_notices, child_removed, connect_succeeds, connected, extends_with_each, is_super_in,
    least_loaded, moves_toward, super_ids, super_removal_notices, super_removed, well_formed, EventView, HybridState, PeerEvent, RoleView, SignalingError,
};
use vstd::prelude::*;

verus! {

/// The number of child peers per super peer above which a joining peer becomes a super peer.
pub const PEER_RATIO: usize = 4;

/// A hybrid network topology.
#[derive(Debug, Default)]
pub struct HybridTopology;

/// Where a joining peer was placed.
#[derive(Debug, Clone, Copy, PartialEq, Eq)]
pub enum Placement {
    /// The peer became a super peer.
    Super,
    /// The peer became a child of the given super peer.
    Child(PeerId),
    /// The peer became a child, but there was no super peer to attach it to.
    Unattached,
}

/// Whether a peer joining the table `m` becomes a super peer: when there is no
/// super peer, or at least `PEER_RATIO` child peers per super peer.
pub open spec fn joins_as_super(m: Map<PeerId, RoleView>) -> bool {
    super_ids(m).len() == 0 || child_ids(m).len() >= PEER_RATIO * super_ids(m).len()
}

/// A peer joining a table with `s` super peers and `c` child peers becomes a
/// super peer exactly when there is no super peer, or when `c` reaches
/// `PEER_RATIO * s`; with at least one super peer, only the ratio decides,
/// however many super peers there are.
pub proof fn law_join_decision(m: Map<PeerId, RoleView>)
    ensures
        joins_as_super(m) <==> (super_ids(m).len() == 0 || child_ids(m).len() >= PEER_RATIO * super_ids(m).len()),
        super_ids(m).len() >= 1 ==> (joins_as_super(m) <==> child_ids(m).len() >= PEER_RATIO * super_ids(m).len()),
        super_ids(m).len() == 0 ==> joins_as_super(m),
{
}

/// The table after `peer` left `m`.
pub open spec fn after_leave(m: Map<PeerId, RoleView>, peer: PeerId) -> Map<PeerId, RoleView> {
    if is_super_in(m, peer) {
        super_removed(m, peer)
    } else {
        child_removed(m, peer)
    }
}

impl HybridTopology {
    /// A peer joins: it becomes a super peer (and the children are spread
    /// evenly again) when there is none yet or when there are `PEER_RATIO`
    /// children per super peer; otherwise it becomes a child of the least
    /// loaded super peer, which hears of it.
    pub fn peer_joined<C>(state: &mut HybridState<C>, peer: PeerId, sender: C) -> (r: Placement)
        requires
            old(state).inv(),
        ensures
            final(state).inv(),
            (r == Placement::Super) <==> (super_ids(old(state)@).len() == 0 || child_ids(old(state)@).len()
                >= PEER_RATIO * super_ids(old(state)@).len()),
            joins_as_super(old(state)@) ==> r == Placement::Super && same_shape_after_super(old(state)@, final(state)@, peer)
                && (well_formed(old(state)@) && !old(state)@.contains_key(peer) ==> balanced_from(
                old(state)@.insert(peer, RoleView::Super(Set::empty())),
                final(state)@,
            )),
            joins_as_super(old(state)@) ==> exists|mid: Seq<(PeerId, EventView)>, moves: Seq<(PeerId, PeerId)>|
                #![trigger extends_with_each(old(state).notices(), mid, super_ids(old(state)@), EventView::NewPeer(peer)), after_moves(old(state)@.insert(peer, RoleView::Super(Set::empty())), moves)]
                {
                    &&& extends_with_each(old(state).notices(), mid, super_ids(old(state)@), EventView::NewPeer(peer))
                    &&& after_moves(old(state)@.insert(peer, RoleView::Super(Set::empty())), moves).0 == final(state)@
                    &&& final(state).notices() == mid + after_moves(
                        old(state)@.insert(peer, RoleView::Super(Set::empty())),
                        moves,
                    ).1
                    &&& well_formed(old(state)@) && !old(state)@.contains_key(peer) ==> moves_toward(
                        old(state)@.insert(peer, RoleView::Super(Set::empty())),
                        moves,
                        final(state)@,
                    )
                },
            !joins_as_super(old(state)@) ==> match r {
                Placement::Child(parent) => {
                    &&& least_loaded(old(state)@.insert(peer, RoleView::Child(None)), parent)
                    &&& final(state)@ == connected(old(state)@.insert(peer, RoleView::Child(None)), peer, parent)
                    &&& final(state).notices() == old(state).notices().push((parent, EventView::NewPeer(peer)))
                },
                Placement::Unattached => {
                    &&& super_ids(old(state)@.insert(peer, RoleView::Child(None))).is_empty()
                    &&& final(state)@ == old(state)@.insert(peer, RoleView::Child(None))
                    &&& final(state).notices() == old(state).notices()
                },
                Placement::Super => false,
            },
            final(state).channels() == old(state).channels().insert(peer, sender),
            well_formed(old(state)@) && !old(state)@.contains_key(peer) ==> well_formed(final(state)@),
    {
        let ghost m = state@;
        if state.should_add_super_peer(PEER_RATIO) {
            state.add_super_peer(peer, sender);
            let ghost mid = state.notices();
            let ghost m1 = state@;
            state.load_balance();
            proof {
                let moves = choose|moves: Seq<(PeerId, PeerId)>|
                    #![trigger after_moves(m1, moves)]
                    {
                        &&& forall|i: int|
                            0 <= i < moves.len() ==> is_super_in(m1, (#[trigger] moves[i]).0) && is_super_in(
                                m1,
                                moves[i].1,
                            ) && moves[i].0 != moves[i].1
                        &&& after_moves(m1, moves).0 == state@
                        &&& state.notices() == mid + after_moves(m1, moves).1
                        &&& well_formed(m1) ==> moves_toward(m1, moves, state@)
                    };
                assert(after_moves(m1, moves).0 == state@);
                if well_formed(m) && !m.contains_key(peer) {
                    law_add_super_keeps_consistency(m, peer);
                    assert(m1 == m.insert(peer, RoleView::Super(Set::empty())));
                }
            }
            proof {
                if well_formed(m) && !m.contains_key(peer) {
                    law_add_super_keeps_consistency(m, peer);
                }
            }
            Placement::Super
        } else {
            state.add_child_peer(peer, sender);
            let ghost m1 = state@;
            match state.find_least_loaded_super_peer() {
                Some(parent) => {
                    let r = state.connect_child(peer, parent);
                    assert(connect_succeeds(m1, peer, parent));
                    proof {
                        if well_formed(m) && !m.contains_key(peer) {
                            law_add_child_keeps_consistency(m, peer);
                            law_connect_keeps_consistency(m1, peer, parent);
                        }
                    }
                    Placement::Child(parent)
                },
                None => {
                    proof {
                        if well_formed(m) && !m.contains_key(peer) {
                            law_add_child_keeps_consistency(m, peer);
                        }
                    }
                    Placement::Unattached
                },
            }
        }
    }

    /// A peer leaves: a super peer is removed (its children hear of it and
    /// one of them takes its place), a child peer is removed (its parent hears of it).
    pub fn peer_left<C>(state: &mut HybridState<C>, peer: PeerId)
        requires
            old(state).inv(),
        ensures
            final(state).inv(),
            final(state)@ == after_leave(old(state)@, peer),
            final(state).channels() == (if old(state)@.contains_key(peer) {
                old(state).channels().remove(peer)
            } else {
                old(state).channels()
            }),
            is_super_in(old(state)@, peer) ==> super_removal_notices(
                old(state)@,
                peer,
                old(state).notices(),
                final(state).notices(),
            ),
            !is_super_in(old(state)@, peer) ==> final(state).notices() == old(state).notices() + child_removal_notices(
                old(state)@,
                peer,
            ),
            well_formed(old(state)@) ==> well_formed(final(state)@),
    {
        let ghost m = state@;
        if state.is_super_peer(&peer) {
            state.remove_super_peer(peer);
            proof {
                if well_formed(m) {
                    law_remove_super_keeps_consistency(m, peer);
                }
            }
        } else {
            state.remove_child_peer(peer);
            proof {
                if well_formed(m) {
                    law_remove_child_keeps_consistency(m, peer);
                }
            }
        }
    }

    /// A peer signals another: the signal is queued for the receiver if it is known.
    pub fn signal<C>(state: &mut HybridState<C>, sender: PeerId, receiver: PeerId, data: String) -> (r: Result<
        (),
        SignalingError,
    >)
        ensures
            final(state)@ == old(state)@,
            r is Ok <==> old(state)@.contains_key(receiver),
            r is Ok ==> final(state).notices() == old(state).notices().push(
                (receiver, EventView::Signal(sender, data@)),
            ),
            r is Err ==> final(state).notices() == old(state).notices(),
    {
        state.try_send_to_peer(receiver, PeerEvent::Signal { sender, data })
    }
}

/// After a peer joined as a super peer, the table has the same peers and role
/// kinds as `m` with the new super peer.
pub open spec fn same_shape_after_super(m: Map<PeerId, RoleView>, n: Map<PeerId, RoleView>, peer: PeerId) -> bool {
    crate::state::same_shape(m.insert(peer, RoleView::Super(Set::empty())), n)
}

} // verus!
