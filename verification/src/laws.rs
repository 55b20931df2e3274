//! Laws of the peer table: every change that the server makes keeps the
//! topology consistent, so that a super peer's children are exactly the child
//! peers that name it as their parent; and a peer that leaves is announced to
//! the peers that knew it, its place taken by its least child where it was a
//! super peer.

use crate::peer_id::PeerId;
use crate::state::{
    adopted, announces_each, child_removal_notices, child_removed, children_of, connected, is_child_in, is_super_in, lemma_children_finite,
    lemma_set_min, notifies_each, promoted, recruits, set_min, super_ids, super_removal_notices, super_removed, well_formed,
    EventView, RoleView,
};
use crate::wire::lemma_recipients_cover;
use vstd::prelude::*;

verus! {

/// Adding a peer that is not yet known, as a child without a parent, keeps the
/// topology consistent.
pub proof fn law_add_child_keeps_consistency(m: Map<PeerId, RoleView>, peer: PeerId)
    requires
        well_formed(m),
        !m.contains_key(peer),
    ensures
        well_formed(m.insert(peer, RoleView::Child(None))),
{
    let m2 = m.insert(peer, RoleView::Child(None));
    assert forall|s: PeerId, c: PeerId|
        is_super_in(m2, s) && #[trigger] children_of(m2, s).contains(c) implies m2.contains_key(c) && m2[c]
            == RoleView::Child(Some(s)) by {
        assert(children_of(m, s).contains(c));
    }
}

/// Adding a peer that is not yet known, as a super peer without children, keeps
/// the topology consistent.
pub proof fn law_add_super_keeps_consistency(m: Map<PeerId, RoleView>, peer: PeerId)
    requires
        well_formed(m),
        !m.contains_key(peer),
    ensures
        well_formed(m.insert(peer, RoleView::Super(Set::empty()))),
{
    let m2 = m.insert(peer, RoleView::Super(Set::empty()));
    assert forall|s: PeerId, c: PeerId|
        is_super_in(m2, s) && #[trigger] children_of(m2, s).contains(c) implies m2.contains_key(c) && m2[c]
            == RoleView::Child(Some(s)) by {
        assert(s != peer);
        assert(children_of(m, s).contains(c));
    }
}

/// Connecting a child without a parent to a super peer keeps the topology
/// consistent.
pub proof fn law_connect_keeps_consistency(m: Map<PeerId, RoleView>, child: PeerId, sup: PeerId)
    requires
        well_formed(m),
        is_super_in(m, sup),
        m.contains_key(child),
        m[child] == RoleView::Child(None),
    ensures
        well_formed(connected(m, child, sup)),
{
    let cs = children_of(m, sup);
    assert(!cs.contains(child));
    let m1 = m.insert(sup, RoleView::Super(cs.insert(child)));
    let m2 = m1.insert(child, RoleView::Child(Some(sup)));
    assert(connected(m, child, sup) == m2);
    assert(m2.dom() =~= m.dom());
    assert forall|s: PeerId, c: PeerId|
        is_super_in(m2, s) && #[trigger] children_of(m2, s).contains(c) implies m2.contains_key(c) && m2[c]
            == RoleView::Child(Some(s)) by {
        if s != sup || c != child {
            assert(children_of(m, s).contains(c));
        }
    }
    assert forall|x: PeerId|
        m2.contains_key(x) && #[trigger] m2[x] is Child && m2[x]->Child_0 is Some implies is_super_in(
            m2,
            m2[x]->Child_0->0,
        ) && children_of(m2, m2[x]->Child_0->0).contains(x) by {
        if x != child {
            assert(m[x] == m2[x]);
            assert(children_of(m, m[x]->Child_0->0).contains(x));
        }
    }
}

/// Removing a child peer keeps the topology consistent.
pub proof fn law_remove_child_keeps_consistency(m: Map<PeerId, RoleView>, c: PeerId)
    requires
        well_formed(m),
    ensures
        well_formed(child_removed(m, c)),
{
    let m2 = child_removed(m, c);
    if m.contains_key(c) && m[c] is Child {
        assert(m2.dom().subset_of(m.dom()));
        vstd::set_lib::lemma_set_subset_finite(m.dom(), m2.dom());
        assert forall|s: PeerId, x: PeerId|
            is_super_in(m2, s) && #[trigger] children_of(m2, s).contains(x) implies m2.contains_key(x) && m2[x]
                == RoleView::Child(Some(s)) by {
            assert(children_of(m, s).contains(x));
            if x == c {
                assert(m[c] == RoleView::Child(Some(s)));
            }
        }
        assert forall|x: PeerId|
            m2.contains_key(x) && #[trigger] m2[x] is Child && m2[x]->Child_0 is Some implies is_super_in(
                m2,
                m2[x]->Child_0->0,
            ) && children_of(m2, m2[x]->Child_0->0).contains(x) by {
            assert(m[x] == m2[x]);
            let p = m[x]->Child_0->0;
            assert(children_of(m, p).contains(x));
            assert(p != c);
        }
    }
}

/// Removing a super peer keeps the topology consistent: its child with the
/// least id becomes a super peer and adopts the other children.
pub proof fn law_remove_super_keeps_consistency(m: Map<PeerId, RoleView>, s: PeerId)
    requires
        well_formed(m),
    ensures
        well_formed(super_removed(m, s)),
{
    if is_super_in(m, s) {
        let cs = children_of(m, s);
        let m1 = m.remove(s);
        assert(m1.dom().subset_of(m.dom()));
        vstd::set_lib::lemma_set_subset_finite(m.dom(), m1.dom());
        if recruits(m, s) {
            lemma_children_finite(m, s);
            lemma_set_min(cs);
            let r = set_min(cs);
            let m2 = promoted(m1, r, cs);
            assert(m2 == super_removed(m, s));
            assert(m2.dom() =~= m1.dom());
            assert forall|t: PeerId, x: PeerId|
                is_super_in(m2, t) && #[trigger] children_of(m2, t).contains(x) implies m2.contains_key(x) && m2[x]
                    == RoleView::Child(Some(t)) by {
                if t == r {
                    assert(cs.contains(x) && x != r);
                    assert(m[x] == RoleView::Child(Some(s)));
                } else {
                    assert(m1[t] == m2[t]);
                    assert(children_of(m, t).contains(x));
                    assert(m[x] == RoleView::Child(Some(t)));
                    assert(!cs.contains(x));
                }
            }
            assert forall|x: PeerId|
                m2.contains_key(x) && #[trigger] m2[x] is Child && m2[x]->Child_0 is Some implies is_super_in(
                    m2,
                    m2[x]->Child_0->0,
                ) && children_of(m2, m2[x]->Child_0->0).contains(x) by {
                if cs.contains(x) && m1[x] is Child {
                    assert(m2[x] == RoleView::Child(Some(r)));
                } else {
                    assert(m2[x] == m1[x]);
                    let p = m[x]->Child_0->0;
                    assert(children_of(m, p).contains(x));
                    if p == s {
                        assert(cs.contains(x));
                    }
                    assert(p != r) by {
                        assert(m[r] == RoleView::Child(Some(s)));
                    }
                    assert(m2[p] == m1[p]);
                }
            }
        } else {
            assert forall|t: PeerId, x: PeerId|
                is_super_in(m1, t) && #[trigger] children_of(m1, t).contains(x) implies m1.contains_key(x) && m1[x]
                    == RoleView::Child(Some(t)) by {
                assert(children_of(m, t).contains(x));
            }
            assert forall|x: PeerId|
                m1.contains_key(x) && #[trigger] m1[x] is Child && m1[x]->Child_0 is Some implies is_super_in(
                    m1,
                    m1[x]->Child_0->0,
                ) && children_of(m1, m1[x]->Child_0->0).contains(x) by {
                let p = m[x]->Child_0->0;
                assert(children_of(m, p).contains(x));
                if p == s {
                    assert(cs.contains(x));
                    lemma_children_finite(m, s);
                    lemma_set_min(cs);
                    assert(m.contains_key(set_min(cs)));
                    assert(cs.contains(set_min(cs)));
                    assert(set_min(cs) != s);
                    assert(false);
                }
            }
        }
    }
}

/// When a super peer `s` with children leaves a consistent table, it is
/// gone, its child `r` with the least id becomes a super peer whose children
/// are the other children of `s`, each of them now names `r` as its parent,
/// and every other peer keeps its role.
pub proof fn law_least_child_takes_over(m: Map<PeerId, RoleView>, s: PeerId)
    requires
        well_formed(m),
        is_super_in(m, s),
        !children_of(m, s).is_empty(),
    ensures
        super_removed(m, s).dom() == m.dom().remove(s),
        exists|r: PeerId|
            #![trigger children_of(m, s).contains(r)]
            {
                &&& children_of(m, s).contains(r)
                &&& forall|c: PeerId| children_of(m, s).contains(c) ==> r <= c
                &&& super_removed(m, s)[r] == RoleView::Super(children_of(m, s).remove(r))
                &&& forall|c: PeerId|
                    #[trigger] children_of(m, s).contains(c) && c != r ==> super_removed(m, s)[c] == RoleView::Child(
                        Some(r),
                    )
            },
        forall|k: PeerId|
            #[trigger] m.contains_key(k) && k != s && !children_of(m, s).contains(k) ==> super_removed(m, s)[k] == m[k],
{
    let cs = children_of(m, s);
    lemma_children_finite(m, s);
    lemma_set_min(cs);
    let r = set_min(cs);
    assert(m[r] == RoleView::Child(Some(s)));
    assert(recruits(m, s));
    let n = super_removed(m, s);
    assert(n.dom() =~= m.dom().remove(s));
    assert forall|c: PeerId| #[trigger] cs.contains(c) && c != r implies n[c] == RoleView::Child(Some(r)) by {
        assert(m[c] == RoleView::Child(Some(s)));
    }
    assert(cs.contains(r));
}

proof fn lemma_removal_child_notices(
    m: Map<PeerId, RoleView>,
    s: PeerId,
    before: Seq<(PeerId, EventView)>,
    after: Seq<(PeerId, EventView)>,
)
    requires
        is_super_in(m, s),
        super_removal_notices(m, s, before, after),
    ensures
        before.len() + super_ids(m.remove(s)).len() + children_of(m, s).filter(|c: PeerId| m.remove(s).contains_key(c)).len()
            <= after.len(),
        notifies_each(
            after.subrange(
                (before.len() + super_ids(m.remove(s)).len()) as int,
                (before.len() + super_ids(m.remove(s)).len() + children_of(m, s).filter(
                    |c: PeerId| m.remove(s).contains_key(c),
                ).len()) as int,
            ),
            children_of(m, s).filter(|c: PeerId| m.remove(s).contains_key(c)),
            EventView::PeerLeft(s),
        ),
{
}

#[verifier::spinoff_prover]
#[verifier::rlimit(60)]
proof fn lemma_removal_last_notices(
    m: Map<PeerId, RoleView>,
    s: PeerId,
    before: Seq<(PeerId, EventView)>,
    after: Seq<(PeerId, EventView)>,
)
    requires
        is_super_in(m, s),
        super_removal_notices(m, s, before, after),
    ensures
        forall|k: int|
            before.len() + super_ids(m.remove(s)).len() + children_of(m, s).filter(
                |c: PeerId| m.remove(s).contains_key(c),
            ).len() <= k < after.len() ==> (#[trigger] after[k]).1 is NewPeer,
{
    let m1 = m.remove(s);
    let n0 = before.len() as int;
    let n1 = n0 + super_ids(m1).len();
    let kids = children_of(m, s).filter(|c: PeerId| m1.contains_key(c));
    let n2 = n1 + kids.len();
    let seg3 = after.subrange(n2, after.len() as int);
    assert(announces_each(seg3, set_min(children_of(m, s)), adopted(m, s)));
    assert forall|k: int| n2 <= k < after.len() implies (#[trigger] after[k]).1 is NewPeer by {
        assert(seg3[k - n2] == after[k]);
    }
}

proof fn lemma_told_exactly_once(
    after: Seq<(PeerId, EventView)>,
    lo: int,
    n1: int,
    n2: int,
    cs: Set<PeerId>,
    ev: EventView,
)
    requires
        0 <= lo <= n1 <= n2 <= after.len(),
        cs.finite(),
        notifies_each(after.subrange(n1, n2), cs, ev),
        forall|k: int| lo <= k < n1 ==> !cs.contains(#[trigger] after[k].0),
        forall|k: int| n2 <= k < after.len() ==> (#[trigger] after[k]).1 != ev,
    ensures
        forall|c: PeerId| #![trigger cs.contains(c)] cs.contains(c) ==> exists|i: int| lo <= i < after.len() && after[i] == (c, ev),
        forall|c: PeerId, i: int, j: int|
            #![trigger cs.contains(c), after[i], after[j]]
            cs.contains(c) && lo <= i < after.len() && lo <= j < after.len() && after[i] == (c, ev) && after[j] == (c, ev)
                ==> i == j,
{
    let seg = after.subrange(n1, n2);
    lemma_recipients_cover(seg, cs);
    assert forall|c: PeerId| #![trigger cs.contains(c)] cs.contains(c) implies exists|i: int|
        lo <= i < after.len() && after[i] == (c, ev) by {
        let k = choose|k: int| 0 <= k < seg.len() && (#[trigger] seg[k]).0 == c;
        assert(after[n1 + k] == seg[k]);
    }
    assert forall|c: PeerId, i: int, j: int|
        #![trigger cs.contains(c), after[i], after[j]]
        cs.contains(c) && lo <= i < after.len() && lo <= j < after.len() && after[i] == (c, ev) && after[j] == (c, ev)
            implies i == j by {
        assert(n1 <= i < n2);
        assert(n1 <= j < n2);
        if i < j {
            assert(seg[i - n1].0 != seg[j - n1].0);
        } else if j < i {
            assert(seg[j - n1].0 != seg[i - n1].0);
        }
    }
}

proof fn lemma_children_stay_listed(m: Map<PeerId, RoleView>, s: PeerId)
    requires
        well_formed(m),
        is_super_in(m, s),
    ensures
        children_of(m, s).filter(|c: PeerId| m.remove(s).contains_key(c)) == children_of(m, s),
        children_of(m, s).finite(),
{
    lemma_children_finite(m, s);
    let cs = children_of(m, s);
    assert forall|c: PeerId| cs.contains(c) implies m.remove(s).contains_key(c) by {
        assert(m[c] == RoleView::Child(Some(s)));
    }
    assert(cs.filter(|c: PeerId| m.remove(s).contains_key(c)) =~= cs);
}

proof fn lemma_super_notices_skip_children(
    m: Map<PeerId, RoleView>,
    s: PeerId,
    after: Seq<(PeerId, EventView)>,
    n0: int,
    n1: int,
)
    requires
        well_formed(m),
        is_super_in(m, s),
        0 <= n0 <= n1 <= after.len(),
        notifies_each(after.subrange(n0, n1), super_ids(m.remove(s)), EventView::PeerLeft(s)),
    ensures
        forall|k: int| n0 <= k < n1 ==> !children_of(m, s).contains(#[trigger] after[k].0),
{
    let seg1 = after.subrange(n0, n1);
    assert forall|k: int| n0 <= k < n1 implies !children_of(m, s).contains(#[trigger] after[k].0) by {
        assert(seg1[k - n0] == after[k]);
        assert(super_ids(m.remove(s)).contains(after[k].0));
        if children_of(m, s).contains(after[k].0) {
            assert(m[after[k].0] == RoleView::Child(Some(s)));
        }
    }
}

/// When a super peer `s` of a consistent table leaves, each of its children
/// is told, exactly once, that `s` left.
#[verifier::spinoff_prover]
#[verifier::rlimit(100)]
pub proof fn law_leaving_super_peer_is_announced_to_children(
    m: Map<PeerId, RoleView>,
    s: PeerId,
    before: Seq<(PeerId, EventView)>,
    after: Seq<(PeerId, EventView)>,
)
    requires
        well_formed(m),
        is_super_in(m, s),
        super_removal_notices(m, s, before, after),
    ensures
        forall|c: PeerId|
            #![trigger children_of(m, s).contains(c)]
            children_of(m, s).contains(c) ==> exists|i: int|
                before.len() <= i < after.len() && after[i] == (c, EventView::PeerLeft(s)),
        forall|c: PeerId, i: int, j: int|
            #![trigger children_of(m, s).contains(c), after[i], after[j]]
            children_of(m, s).contains(c) && before.len() <= i < after.len() && before.len() <= j < after.len()
                && after[i] == (c, EventView::PeerLeft(s)) && after[j] == (c, EventView::PeerLeft(s)) ==> i == j,
{
    let n0 = before.len() as int;
    let n1 = n0 + super_ids(m.remove(s)).len();
    let n2 = n1 + children_of(m, s).len();
    lemma_children_stay_listed(m, s);
    lemma_removal_first_notices(m, s, before, after);
    lemma_removal_child_notices(m, s, before, after);
    lemma_removal_last_notices(m, s, before, after);
    lemma_super_notices_skip_children(m, s, after, n0, n1);
    assert(notifies_each(after.subrange(n1, n2), children_of(m, s), EventView::PeerLeft(s)));
    assert(n2 <= after.len());
    assert(forall|k: int| n2 <= k < after.len() ==> (#[trigger] after[k]).1 != EventView::PeerLeft(s));
    lemma_told_exactly_once(after, n0, n1, n2, children_of(m, s), EventView::PeerLeft(s));
}

/// When a child peer `c` with a parent `p` leaves a consistent table, it is
/// gone, `p` no longer counts it among its children, every other peer keeps
/// its role, and `p` alone is told that `c` left.
pub proof fn law_leaving_child_is_announced_to_parent(m: Map<PeerId, RoleView>, c: PeerId, p: PeerId)
    requires
        well_formed(m),
        m.contains_key(c),
        m[c] == RoleView::Child(Some(p)),
    ensures
        child_removed(m, c).dom() == m.dom().remove(c),
        child_removed(m, c)[p] == RoleView::Super(children_of(m, p).remove(c)),
        forall|k: PeerId| #[trigger] m.contains_key(k) && k != c && k != p ==> child_removed(m, c)[k] == m[k],
        child_removal_notices(m, c) == seq![(p, EventView::PeerLeft(c))],
{
    assert(is_super_in(m, p));
    assert(p != c);
    assert(child_removed(m, c).dom() =~= m.dom().remove(c));
}

proof fn lemma_child_notices_skip_supers(
    m: Map<PeerId, RoleView>,
    s: PeerId,
    seg: Seq<(PeerId, EventView)>,
    kids: Set<PeerId>,
)
    requires
        well_formed(m),
        is_super_in(m, s),
        kids.subset_of(children_of(m, s)),
        notifies_each(seg, kids, EventView::PeerLeft(s)),
    ensures
        forall|k: int| 0 <= k < seg.len() ==> !is_super_in(m, (#[trigger] seg[k]).0),
{
    assert forall|k: int| 0 <= k < seg.len() implies !is_super_in(m, (#[trigger] seg[k]).0) by {
        assert(kids.contains(seg[k].0));
        assert(children_of(m, s).contains(seg[k].0));
    }
}

proof fn lemma_removal_first_notices(
    m: Map<PeerId, RoleView>,
    s: PeerId,
    before: Seq<(PeerId, EventView)>,
    after: Seq<(PeerId, EventView)>,
)
    requires
        is_super_in(m, s),
        super_removal_notices(m, s, before, after),
    ensures
        before.len() + super_ids(m.remove(s)).len() <= after.len(),
        notifies_each(
            after.subrange(before.len() as int, (before.len() + super_ids(m.remove(s)).len()) as int),
            super_ids(m.remove(s)),
            EventView::PeerLeft(s),
        ),
{
}

#[verifier::spinoff_prover]
#[verifier::rlimit(40)]
proof fn lemma_removal_later_notices(
    m: Map<PeerId, RoleView>,
    s: PeerId,
    before: Seq<(PeerId, EventView)>,
    after: Seq<(PeerId, EventView)>,
)
    requires
        well_formed(m),
        is_super_in(m, s),
        super_removal_notices(m, s, before, after),
    ensures
        forall|k: int|
            before.len() + super_ids(m.remove(s)).len() <= k < after.len() && (#[trigger] after[k]).1
                == EventView::PeerLeft(s) ==> !is_super_in(m, after[k].0),
{
    let m1 = m.remove(s);
    let n0 = before.len() as int;
    let n1 = n0 + super_ids(m1).len();
    let kids = children_of(m, s).filter(|c: PeerId| m1.contains_key(c));
    let n2 = n1 + kids.len();
    let seg2 = after.subrange(n1, n2);
    let seg3 = after.subrange(n2, after.len() as int);
    assert(kids.subset_of(children_of(m, s)));
    assert(notifies_each(seg2, kids, EventView::PeerLeft(s)));
    assert(announces_each(seg3, set_min(children_of(m, s)), adopted(m, s)));
    lemma_child_notices_skip_supers(m, s, seg2, kids);
    assert forall|k: int| n1 <= k < after.len() && (#[trigger] after[k]).1 == EventView::PeerLeft(s) implies !is_super_in(
        m,
        after[k].0,
    ) by {
        if k < n2 {
            assert(seg2[k - n1] == after[k]);
        } else {
            assert(seg3[k - n2] == after[k]);
            assert(seg3[k - n2].1 is NewPeer);
        }
    }
}

/// When a super peer `s` leaves, every other super peer of the table is told
/// that `s` left; in a consistent table it is told so exactly once.
pub proof fn law_leaving_super_peer_is_announced_to_super_peers(
    m: Map<PeerId, RoleView>,
    s: PeerId,
    before: Seq<(PeerId, EventView)>,
    after: Seq<(PeerId, EventView)>,
)
    requires
        m.dom().finite(),
        is_super_in(m, s),
        super_removal_notices(m, s, before, after),
    ensures
        forall|o: PeerId|
            #![trigger super_ids(m).contains(o)]
            super_ids(m).contains(o) && o != s ==> exists|i: int|
                before.len() <= i < after.len() && after[i] == (o, EventView::PeerLeft(s)),
        well_formed(m) ==> forall|o: PeerId, i: int, j: int|
            #![trigger super_ids(m).contains(o), after[i], after[j]]
            super_ids(m).contains(o) && o != s && before.len() <= i < after.len() && before.len() <= j < after.len()
                && after[i] == (o, EventView::PeerLeft(s)) && after[j] == (o, EventView::PeerLeft(s)) ==> i == j,
{
    lemma_removal_first_notices(m, s, before, after);
    let m1 = m.remove(s);
    let n0 = before.len() as int;
    let n1 = n0 + super_ids(m1).len();
    let seg1 = after.subrange(n0, n1);
    assert(super_ids(m1).finite()) by {
        vstd::set_lib::lemma_len_subset(super_ids(m1), m1.dom());
    }
    lemma_recipients_cover(seg1, super_ids(m1));
    assert forall|o: PeerId| #![trigger super_ids(m).contains(o)] super_ids(m).contains(o) && o != s implies exists|i: int|
        before.len() <= i < after.len() && after[i] == (o, EventView::PeerLeft(s)) by {
        assert(super_ids(m1).contains(o));
        let k = choose|k: int| 0 <= k < seg1.len() && (#[trigger] seg1[k]).0 == o;
        assert(after[n0 + k] == seg1[k]);
    }
    if well_formed(m) {
        lemma_removal_later_notices(m, s, before, after);
        assert forall|o: PeerId, i: int, j: int|
            #![trigger super_ids(m).contains(o), after[i], after[j]]
            super_ids(m).contains(o) && o != s && before.len() <= i < after.len() && before.len() <= j < after.len()
                && after[i] == (o, EventView::PeerLeft(s)) && after[j] == (o, EventView::PeerLeft(s)) implies i == j by {
            assert(is_super_in(m, o));
            assert(i < n1);
            assert(j < n1);
            if i < j {
                assert(seg1[i - n0].0 != seg1[j - n0].0);
            } else if j < i {
                assert(seg1[j - n0].0 != seg1[i - n0].0);
            }
        }
    }
}

} // verus!
