//! Arithmetic of load balancing: super peers ordered by load, the even share
//! of children each should end with, and the peers above and below it.

use crate::peer_id::PeerId;
use vstd::prelude::*;

verus! {

/// A super peer's entry in a balancing plan: its id, its current number of
/// children and the number it should end with.
pub type Share = (PeerId, u128, u128);

/// The sum of `f` over the entries of `s`.
pub open spec fn total(s: Seq<Share>, f: spec_fn(Share) -> int) -> int
    decreases s.len(),
{
    if s.len() == 0 {
        0
    } else {
        total(s.drop_last(), f) + f(s.last())
    }
}

/// The current load of an entry.
pub open spec fn load(e: Share) -> int {
    e.1 as int
}

/// The final load of an entry.
pub open spec fn goal(e: Share) -> int {
    e.2 as int
}

/// The current load, as a function to sum.
pub open spec fn by_load() -> spec_fn(Share) -> int {
    |e: Share| load(e)
}

/// The final load, as a function to sum.
pub open spec fn by_goal() -> spec_fn(Share) -> int {
    |e: Share| goal(e)
}

/// The surplus, as a function to sum.
pub open spec fn by_surplus() -> spec_fn(Share) -> int {
    |e: Share| surplus(e)
}

/// How far an entry is above its goal.
pub open spec fn surplus(e: Share) -> int {
    if e.1 > e.2 {
        e.1 - e.2
    } else {
        0
    }
}

/// Replacing one entry changes the sum by the difference.
pub proof fn lemma_total_update(s: Seq<Share>, f: spec_fn(Share) -> int, k: int, e: Share)
    requires
        0 <= k < s.len(),
    ensures
        total(s.update(k, e), f) == total(s, f) - f(s[k]) + f(e),
    decreases s.len(),
{
    let t = s.update(k, e);
    if k == s.len() - 1 {
        assert(t.drop_last() =~= s.drop_last());
    } else {
        lemma_total_update(s.drop_last(), f, k, e);
        assert(t.drop_last() =~= s.drop_last().update(k, e));
    }
}

/// The sum of a prefix extended by one entry.
pub proof fn lemma_total_push(s: Seq<Share>, f: spec_fn(Share) -> int, e: Share)
    ensures
        total(s.push(e), f) == total(s, f) + f(e),
{
    assert(s.push(e).drop_last() =~= s);
}

/// Sums of nonnegative terms are nonnegative.
pub proof fn lemma_total_nonneg(s: Seq<Share>, f: spec_fn(Share) -> int)
    requires
        forall|i: int| 0 <= i < s.len() ==> f(#[trigger] s[i]) >= 0,
    ensures
        total(s, f) >= 0,
    decreases s.len(),
{
    if s.len() > 0 {
        lemma_total_nonneg(s.drop_last(), f);
    }
}

/// When no term of `f` exceeds the matching term of `g` and the sums agree,
/// every pair of terms agrees.
pub proof fn lemma_total_le_eq(s: Seq<Share>, f: spec_fn(Share) -> int, g: spec_fn(Share) -> int)
    requires
        forall|i: int| 0 <= i < s.len() ==> f(#[trigger] s[i]) <= g(s[i]),
        total(s, f) == total(s, g),
    ensures
        forall|i: int| 0 <= i < s.len() ==> f(#[trigger] s[i]) == g(s[i]),
    decreases s.len(),
{
    if s.len() > 0 {
        let p = s.drop_last();
        assert forall|i: int| 0 <= i < p.len() implies f(#[trigger] p[i]) <= g(p[i]) by {
            assert(p[i] == s[i]);
        }
        lemma_total_le_bound(p, f, g);
        assert(f(s.last()) <= g(s.last()));
        lemma_total_le_eq(p, f, g);
        assert forall|i: int| 0 <= i < s.len() implies f(#[trigger] s[i]) == g(s[i]) by {
            if i < p.len() {
                assert(p[i] == s[i]);
            }
        }
    }
}

/// When no term of `f` exceeds the matching term of `g`, neither does the sum.
pub proof fn lemma_total_le_bound(s: Seq<Share>, f: spec_fn(Share) -> int, g: spec_fn(Share) -> int)
    requires
        forall|i: int| 0 <= i < s.len() ==> f(#[trigger] s[i]) <= g(s[i]),
    ensures
        total(s, f) <= total(s, g),
    decreases s.len(),
{
    if s.len() > 0 {
        let p = s.drop_last();
        assert forall|i: int| 0 <= i < p.len() implies f(#[trigger] p[i]) <= g(p[i]) by {
            assert(p[i] == s[i]);
        }
        lemma_total_le_bound(p, f, g);
    }
}

/// `s` is ordered by current load, lightest first.
pub open spec fn sorted_by_load(s: Seq<Share>) -> bool {
    forall|a: int, b: int| 0 <= a < b < s.len() ==> s[a].1 <= s[b].1
}

/// The ids of `s` are distinct.
pub open spec fn distinct_ids(s: Seq<Share>) -> bool {
    forall|a: int, b: int| 0 <= a < b < s.len() ==> s[a].0 != s[b].0
}

/// `t` holds the entries of `s`, as often, in some order.
pub open spec fn same_entries(s: Seq<Share>, t: Seq<Share>) -> bool {
    s.to_multiset() == t.to_multiset()
}

proof fn lemma_insert_sorted(r0: Seq<Share>, pos: int, e: Share)
    requires
        0 <= pos <= r0.len(),
        sorted_by_load(r0),
        distinct_ids(r0),
        forall|k: int| 0 <= k < pos ==> r0[k].1 <= e.1,
        forall|k: int| pos <= k < r0.len() ==> r0[k].1 > e.1,
        forall|k: int| 0 <= k < r0.len() ==> r0[k].0 != e.0,
    ensures
        sorted_by_load(r0.insert(pos, e)),
        distinct_ids(r0.insert(pos, e)),
{
    let r = r0.insert(pos, e);
    assert forall|a: int, b: int| 0 <= a < b < r.len() implies r[a].1 <= r[b].1 && r[a].0 != r[b].0 by {
        let ea = if a < pos { r0[a] } else if a == pos { e } else { r0[a - 1] };
        let eb = if b < pos { r0[b] } else if b == pos { e } else { r0[b - 1] };
        assert(r[a] == ea);
        assert(r[b] == eb);
    }
}

/// Order entries by current load, keeping the order of entries of equal load.
pub fn sort_by_load(v: &Vec<Share>) -> (r: Vec<Share>)
    requires
        distinct_ids(v@),
    ensures
        sorted_by_load(r@),
        distinct_ids(r@),
        same_entries(v@, r@),
        r@.len() == v@.len(),
{
    broadcast use vstd::seq_lib::group_to_multiset_ensures;

    let mut r: Vec<Share> = Vec::new();
    let mut i: usize = 0;
    assert(v@.take(0) =~= Seq::<Share>::empty());
    while i < v.len()
        invariant
            i <= v@.len(),
            distinct_ids(v@),
            sorted_by_load(r@),
            distinct_ids(r@),
            r@.len() == i,
            r@.to_multiset() == v@.take(i as int).to_multiset(),
        decreases v@.len() - i,
    {
        let e = v[i];
        let mut pos: usize = 0;
        while pos < r.len() && r[pos].1 <= e.1
            invariant
                pos <= r@.len(),
                forall|k: int| 0 <= k < pos ==> r@[k].1 <= e.1,
            decreases r@.len() - pos,
        {
            pos = pos + 1;
        }
        assert forall|k: int| pos <= k < r@.len() implies r@[k].1 > e.1 by {
            assert(r@[pos as int].1 > e.1);
            if k > pos {
                assert(r@[pos as int].1 <= r@[k].1);
            }
        }
        assert forall|k: int| 0 <= k < r@.len() implies r@[k].0 != e.0 by {
            assert(r@.contains(r@[k]));
            vstd::seq_lib::to_multiset_contains(r@, r@[k]);
            vstd::seq_lib::to_multiset_contains(v@.take(i as int), r@[k]);
            assert(v@.take(i as int).contains(r@[k]));
            let j = choose|j: int| 0 <= j < i && v@.take(i as int)[j] == r@[k];
            assert(v@[j] == r@[k]);
            assert(v@[j].0 != v@[i as int].0);
        }
        let ghost r0 = r@;
        r.insert(pos, e);
        assert(r@ == r0.insert(pos as int, e));
        proof {
            lemma_insert_sorted(r0, pos as int, e);
            assert(v@.take(i + 1) =~= v@.take(i as int).push(e));
            vstd::seq_lib::to_multiset_insert(r0, pos as int, e);
            vstd::seq_lib::to_multiset_build(v@.take(i as int), e);
        }
        i = i + 1;
    }
    assert(v@.take(v@.len() as int) =~= v@);
    r
}

/// The share of entry `k` of `n` when `t` children are spread over `n`
/// super peers: the first `t % n` take one more than the others.
pub open spec fn share_of(t: int, n: int, k: int) -> int {
    if k < t % n {
        t / n + 1
    } else {
        t / n
    }
}

/// The largest load an entry can have.
pub open spec fn max_load() -> int {
    0xffff_ffff_ffff_ffff
}

/// Give each entry, in order, its share of the total load as its goal.
pub fn assign_goals(v: &Vec<Share>) -> (r: Vec<Share>)
    requires
        0 < v@.len() <= max_load(),
        forall|k: int| 0 <= k < v@.len() ==> (#[trigger] v@[k]).1 <= max_load(),
    ensures
        r@.len() == v@.len(),
        forall|k: int|
            0 <= k < r@.len() ==> (#[trigger] r@[k]).0 == v@[k].0 && r@[k].1 == v@[k].1 && r@[k].2
                == share_of(total(v@, by_load()), v@.len() as int, k),
        total(r@, by_load()) == total(r@, by_goal()),
{
    let n = v.len();
    let mut t: u128 = 0;
    let mut i: usize = 0;
    assert(v@.take(0) =~= Seq::<Share>::empty());
    while i < n
        invariant
            n == v@.len(),
            n <= max_load(),
            i <= n,
            forall|k: int| 0 <= k < v@.len() ==> (#[trigger] v@[k]).1 <= max_load(),
            t == total(v@.take(i as int), by_load()),
            t <= i * max_load(),
        decreases n - i,
    {
        proof {
            assert(v@.take(i + 1).drop_last() =~= v@.take(i as int));
            assert((i + 1) * max_load() == i * max_load() + max_load()) by (nonlinear_arith);
            assert((i + 1) * max_load() <= max_load() * max_load()) by (nonlinear_arith)
                requires i + 1 <= max_load();
        }
        t = t + v[i].1;
        i = i + 1;
    }
    assert(v@.take(n as int) =~= v@);
    let nn: u128 = n as u128;
    let avg: u128 = t / nn;
    let rem: u128 = t % nn;
    proof {
        vstd::arithmetic::div_mod::lemma_fundamental_div_mod(t as int, nn as int);
        assert(avg <= t) by (nonlinear_arith) requires avg == t / nn, nn >= 1;
    }
    let mut r: Vec<Share> = Vec::new();
    let mut k: usize = 0;
    while k < n
        invariant
            n == v@.len(),
            nn == n,
            0 < n,
            k <= n,
            t == total(v@, by_load()),
            t <= max_load() * max_load(),
            avg == t / nn,
            rem == t % nn,
            avg <= t,
            t == nn * avg + rem,
            r@.len() == k,
            forall|j: int|
                0 <= j < k ==> (#[trigger] r@[j]).0 == v@[j].0 && r@[j].1 == v@[j].1 && r@[j].2
                    == share_of(t as int, n as int, j),
            total(r@, by_load()) == total(v@.take(k as int), by_load()),
            total(r@, by_goal()) == k * avg + (if k < rem { k as int } else { rem as int }),
        decreases n - k,
    {
        let g: u128 = if (k as u128) < rem { avg + 1 } else { avg };
        let ghost r0 = r@;
        let e: Share = (v[k].0, v[k].1, g);
        r.push(e);
        proof {
            lemma_total_push(r0, by_load(), e);
            lemma_total_push(r0, by_goal(), e);
            assert(v@.take(k + 1).drop_last() =~= v@.take(k as int));
            assert((k + 1) * avg == k * avg + avg) by (nonlinear_arith);
        }
        k = k + 1;
    }
    assert(v@.take(n as int) =~= v@);
    assert(rem < nn);
    r
}

/// `idx` lists, in increasing order, exactly the positions `k` of `plan` with `pick(plan[k])`.
pub open spec fn lists_positions(idx: Seq<usize>, plan: Seq<Share>, pick: spec_fn(Share) -> bool) -> bool {
    &&& forall|a: int, b: int| 0 <= a < b < idx.len() ==> idx[a] < idx[b]
    &&& forall|a: int| 0 <= a < idx.len() ==> (#[trigger] idx[a]) < plan.len() && pick(plan[idx[a] as int])
    &&& forall|k: int| 0 <= k < plan.len() && pick(plan[k]) ==> exists|a: int| 0 <= a < idx.len() && #[trigger] idx[a] == k
}

/// An entry is above its goal.
pub open spec fn above(e: Share) -> bool {
    e.1 > e.2
}

/// An entry is below its goal.
pub open spec fn below(e: Share) -> bool {
    e.1 < e.2
}

/// The positions of the entries above their goal, and of those below it.
pub fn split_by_goal(plan: &Vec<Share>) -> (r: (Vec<usize>, Vec<usize>))
    ensures
        lists_positions(r.0@, plan@, |e: Share| above(e)),
        lists_positions(r.1@, plan@, |e: Share| below(e)),
{
    let mut over: Vec<usize> = Vec::new();
    let mut under: Vec<usize> = Vec::new();
    let mut n: usize = 0;
    while n < plan.len()
        invariant
            n <= plan@.len(),
            forall|a: int, b: int| 0 <= a < b < over@.len() ==> over@[a] < over@[b],
            forall|a: int| 0 <= a < over@.len() ==> (#[trigger] over@[a]) < n && above(plan@[over@[a] as int]),
            forall|k: int| 0 <= k < n && above(plan@[k]) ==> exists|a: int| 0 <= a < over@.len() && #[trigger] over@[a] == k,
            forall|a: int, b: int| 0 <= a < b < under@.len() ==> under@[a] < under@[b],
            forall|a: int| 0 <= a < under@.len() ==> (#[trigger] under@[a]) < n && below(plan@[under@[a] as int]),
            forall|k: int| 0 <= k < n && below(plan@[k]) ==> exists|a: int| 0 <= a < under@.len() && #[trigger] under@[a] == k,
        decreases plan@.len() - n,
    {
        let ghost o0 = over@;
        let ghost u0 = under@;
        if plan[n].1 > plan[n].2 {
            over.push(n);
            assert(over@[o0.len() as int] == n);
        } else if plan[n].1 < plan[n].2 {
            under.push(n);
            assert(under@[u0.len() as int] == n);
        }
        assert forall|k: int| 0 <= k < n + 1 && above(plan@[k]) implies exists|a: int| 0 <= a < over@.len() && #[trigger] over@[a] == k by {
            if k < n {
                let a = choose|a: int| 0 <= a < o0.len() && #[trigger] o0[a] == k;
                assert(over@[a] == o0[a]);
            }
        }
        assert forall|k: int| 0 <= k < n + 1 && below(plan@[k]) implies exists|a: int| 0 <= a < under@.len() && #[trigger] under@[a] == k by {
            if k < n {
                let a = choose|a: int| 0 <= a < u0.len() && #[trigger] u0[a] == k;
                assert(under@[a] == u0[a]);
            }
        }
        n = n + 1;
    }
    (over, under)
}

/// While moving children, `plan` is `plan0` with loads shifted toward the goals:
/// entries above their goal stay at or above it, those below stay at or below
/// it, the first `i` entries listed above and the first `j` listed below have
/// reached it, and the loads still sum to the goals.
pub open spec fn tracks(
    plan0: Seq<Share>,
    plan: Seq<Share>,
    over: Seq<usize>,
    under: Seq<usize>,
    i: int,
    j: int,
) -> bool {
    &&& plan.len() == plan0.len()
    &&& 0 <= i <= over.len()
    &&& 0 <= j <= under.len()
    &&& lists_positions(over, plan0, |e: Share| above(e))
    &&& lists_positions(under, plan0, |e: Share| below(e))
    &&& forall|k: int| 0 <= k < plan.len() ==> (#[trigger] plan[k]).0 == plan0[k].0 && plan[k].2 == plan0[k].2
    &&& forall|k: int|
        0 <= k < plan.len() ==> (above(plan0[k]) ==> (#[trigger] plan[k]).1 >= plan[k].2) && (below(plan0[k])
            ==> plan[k].1 <= plan[k].2) && (!above(plan0[k]) && !below(plan0[k]) ==> plan[k].1 == plan[k].2)
    &&& forall|a: int| 0 <= a < i ==> plan[#[trigger] over[a] as int].1 == plan[over[a] as int].2
    &&& forall|b: int| 0 <= b < j ==> plan[#[trigger] under[b] as int].1 == plan[under[b] as int].2
    &&& total(plan, by_load()) == total(plan, by_goal())
}

/// Once either list is used up, every entry has reached its goal.
pub proof fn lemma_tracks_done(plan0: Seq<Share>, plan: Seq<Share>, over: Seq<usize>, under: Seq<usize>, i: int, j: int)
    requires
        tracks(plan0, plan, over, under, i, j),
        i == over.len() || j == under.len(),
    ensures
        forall|k: int| 0 <= k < plan.len() ==> (#[trigger] plan[k]).1 == plan[k].2,
{
    if i == over.len() {
        assert forall|k: int| 0 <= k < plan.len() implies by_load()(#[trigger] plan[k]) <= by_goal()(plan[k]) by {
            if above(plan0[k]) {
                let a = choose|a: int| 0 <= a < over.len() && #[trigger] over[a] == k;
                assert(plan[over[a] as int].1 == plan[over[a] as int].2);
            }
        }
        lemma_total_le_eq(plan, by_load(), by_goal());
        assert forall|k: int| 0 <= k < plan.len() implies (#[trigger] plan[k]).1 == plan[k].2 by {
            assert(by_load()(plan[k]) == by_goal()(plan[k]));
        }
    } else {
        assert forall|k: int| 0 <= k < plan.len() implies by_goal()(#[trigger] plan[k]) <= by_load()(plan[k]) by {
            if below(plan0[k]) {
                let b = choose|b: int| 0 <= b < under.len() && #[trigger] under[b] == k;
                assert(plan[under[b] as int].1 == plan[under[b] as int].2);
            }
        }
        lemma_total_le_eq(plan, by_goal(), by_load());
        assert forall|k: int| 0 <= k < plan.len() implies (#[trigger] plan[k]).1 == plan[k].2 by {
            assert(by_load()(plan[k]) == by_goal()(plan[k]));
        }
    }
}

/// Skipping an entry listed above its goal that has reached it keeps the tracking.
pub proof fn lemma_tracks_skip_over(plan0: Seq<Share>, plan: Seq<Share>, over: Seq<usize>, under: Seq<usize>, i: int, j: int)
    requires
        tracks(plan0, plan, over, under, i, j),
        i < over.len(),
        plan[over[i] as int].1 <= plan[over[i] as int].2,
    ensures
        tracks(plan0, plan, over, under, i + 1, j),
{
    assert(above(plan0[over[i] as int]));
    assert(plan[over[i] as int].1 >= plan[over[i] as int].2);
}

/// Skipping an entry listed below its goal that has reached it keeps the tracking.
pub proof fn lemma_tracks_skip_under(plan0: Seq<Share>, plan: Seq<Share>, over: Seq<usize>, under: Seq<usize>, i: int, j: int)
    requires
        tracks(plan0, plan, over, under, i, j),
        j < under.len(),
        plan[under[j] as int].1 >= plan[under[j] as int].2,
    ensures
        tracks(plan0, plan, over, under, i, j + 1),
{
    assert(below(plan0[under[j] as int]));
    assert(plan[under[j] as int].1 <= plan[under[j] as int].2);
}

/// The plan after moving one child from entry `o` to entry `u`.
pub open spec fn shifted(plan: Seq<Share>, o: int, u: int) -> Seq<Share> {
    plan.update(o, (plan[o].0, (plan[o].1 - 1) as u128, plan[o].2)).update(
        u,
        (plan[u].0, (plan[u].1 + 1) as u128, plan[u].2),
    )
}

/// Moving a child from an entry above its goal to one below its goal keeps the
/// tracking and lowers the total surplus.
pub proof fn lemma_tracks_shift(plan0: Seq<Share>, plan: Seq<Share>, over: Seq<usize>, under: Seq<usize>, i: int, j: int)
    requires
        tracks(plan0, plan, over, under, i, j),
        i < over.len(),
        j < under.len(),
        plan[over[i] as int].1 > plan[over[i] as int].2,
        plan[under[j] as int].1 < plan[under[j] as int].2,
    ensures
        over[i] != under[j],
        tracks(plan0, shifted(plan, over[i] as int, under[j] as int), over, under, i, j),
        total(shifted(plan, over[i] as int, under[j] as int), by_surplus()) < total(plan, by_surplus()),
{
    let o = over[i] as int;
    let u = under[j] as int;
    assert(above(plan0[o]));
    assert(below(plan0[u]));
    let eo = (plan[o].0, (plan[o].1 - 1) as u128, plan[o].2);
    let eu = (plan[u].0, (plan[u].1 + 1) as u128, plan[u].2);
    let p1 = plan.update(o, eo);
    let p2 = p1.update(u, eu);
    lemma_total_update(plan, by_load(), o, eo);
    lemma_total_update(p1, by_load(), u, eu);
    lemma_total_update(plan, by_goal(), o, eo);
    lemma_total_update(p1, by_goal(), u, eu);
    lemma_total_update(plan, by_surplus(), o, eo);
    lemma_total_update(p1, by_surplus(), u, eu);
    assert(p1[u] == plan[u]);
    assert forall|a: int| 0 <= a < i implies p2[#[trigger] over[a] as int].1 == p2[over[a] as int].2 by {
        assert(over[a] < over[i]);
        assert(below(plan0[u]) && !below(plan0[over[a] as int]));
    }
    assert forall|b: int| 0 <= b < j implies p2[#[trigger] under[b] as int].1 == p2[under[b] as int].2 by {
        assert(under[b] < under[j]);
        assert(above(plan0[o]) && !above(plan0[under[b] as int]));
    }
}

} // verus!
