//! What the clients send to one another over their data channel.

use crate::peer_id::PeerId;
use std::collections::HashMap;
use vstd::prelude::*;
use vstd::std_specs::iter::IteratorSpec;

verus! {

broadcast use vstd::std_specs::hash::group_hash_axioms;

/// The content of a packet: a text message, or bytes passed on as they came.
#[derive(Debug, PartialEq, Eq)]
pub enum Payload {
    Text(String),
    Raw(Vec<u8>),
}

/// The abstract content of a packet.
pub ghost enum PayloadView {
    Text(Seq<char>),
    Raw(Seq<u8>),
}

impl View for Payload {
    type V = PayloadView;

    open spec fn view(&self) -> PayloadView {
        match self {
            Payload::Text(s) => PayloadView::Text(s@),
            Payload::Raw(b) => PayloadView::Raw(b@),
        }
    }
}

impl Clone for Payload {
    fn clone(&self) -> (r: Self)
        ensures
            r@ == self@,
    {
        match self {
            Payload::Text(s) => Payload::Text(s.clone()),
            Payload::Raw(b) => {
                let c = b.clone();
                assert(c@ =~= b@);
                Payload::Raw(c)
            },
        }
    }
}

/// A text payload.
pub fn text(s: &str) -> (p: Payload)
    ensures
        p@ == PayloadView::Text(s@),
{
    Payload::Text(s.to_owned())
}

/// Queue `payload` for each peer of `targets` other than `except`, in order.
pub fn send_to_all(out: &mut Vec<Outgoing>, targets: &Vec<PeerId>, except: Option<PeerId>, payload: &Payload)
    requires
        targets@.no_duplicates(),
    ensures
        old(out)@.len() <= final(out)@.len(),
        final(out)@.subrange(0, old(out)@.len() as int) == old(out)@,
        sends_each(
            packets(final(out)@.subrange(old(out)@.len() as int, final(out)@.len() as int)),
            targets@.to_set().filter(|t: PeerId| except != Some(t)),
            payload@,
        ),
{
    let ghost n0 = out@.len();
    let ghost mut sent: Set<PeerId> = Set::empty();
    let mut i: usize = 0;
    while i < targets.len()
        invariant
            i <= targets@.len(),
            targets@.no_duplicates(),
            n0 == old(out)@.len(),
            n0 <= out@.len(),
            out@.subrange(0, n0 as int) == old(out)@,
            sent == targets@.take(i as int).to_set().filter(|t: PeerId| except != Some(t)),
            sent.finite(),
            sends_each(packets(out@.subrange(n0 as int, out@.len() as int)), sent, payload@),
        decreases targets@.len() - i,
    {
        let t = targets[i];
        let ghost before = out@;
        let ghost sent0 = sent;
        proof {
            assert(targets@.take(i + 1) =~= targets@.take(i as int).push(t));
            targets@.take(i as int).lemma_push_to_set_commute(t);
            assert(!targets@.take(i as int).to_set().contains(t)) by {
                if targets@.take(i as int).to_set().contains(t) {
                    let j = choose|j: int| 0 <= j < i && targets@.take(i as int)[j] == t;
                    assert(targets@[j] == targets@[i as int]);
                }
            }
        }
        if except != Some(t) {
            out.push(Outgoing { to: t, payload: payload.clone() });
        }
        proof {
            sent = targets@.take(i + 1).to_set().filter(|t: PeerId| except != Some(t));
            assert(out@.subrange(0, n0 as int) =~= before.subrange(0, n0 as int));
            let seg0 = packets(before.subrange(n0 as int, before.len() as int));
            let seg = packets(out@.subrange(n0 as int, out@.len() as int));
            if except != Some(t) {
                assert(sent =~= sent0.insert(t));
                assert(seg =~= seg0.push((t, payload@)));
            } else {
                assert(sent =~= sent0);
                assert(seg =~= seg0);
            }
        }
        i = i + 1;
    }
    assert(targets@.take(targets@.len() as int) =~= targets@);
}

/// A packet to send: the recipient and the content.
#[derive(Debug, PartialEq, Eq)]
pub struct Outgoing {
    pub to: PeerId,
    pub payload: Payload,
}

/// The abstract content of the packets to send.
pub open spec fn packets(v: Seq<Outgoing>) -> Seq<(PeerId, PayloadView)> {
    v.map_values(|o: Outgoing| (o.to, o.payload@))
}

/// A list of distinct recipients, each in a finite set of peers and as many
/// as the set holds, names every peer of the set.
pub proof fn lemma_recipients_cover<X>(seg: Seq<(PeerId, X)>, targets: Set<PeerId>)
    requires
        targets.finite(),
        seg.len() == targets.len(),
        forall|i: int| 0 <= i < seg.len() ==> targets.contains(#[trigger] seg[i].0),
        forall|i: int, j: int| 0 <= i < j < seg.len() ==> seg[i].0 != seg[j].0,
    ensures
        forall|t: PeerId| targets.contains(t) ==> exists|i: int| 0 <= i < seg.len() && (#[trigger] seg[i]).0 == t,
{
    let r = seg.map_values(|x: (PeerId, X)| x.0);
    assert(r.no_duplicates()) by {
        assert forall|i: int, j: int| 0 <= i < r.len() && 0 <= j < r.len() && i != j implies r[i] != r[j] by {
            if i < j {
                assert(seg[i].0 != seg[j].0);
            } else {
                assert(seg[j].0 != seg[i].0);
            }
        }
    }
    r.unique_seq_to_set();
    assert(r.to_set().subset_of(targets)) by {
        assert forall|t: PeerId| r.to_set().contains(t) implies targets.contains(t) by {
            let i = choose|i: int| 0 <= i < r.len() && r[i] == t;
            assert(seg[i].0 == t);
        }
    }
    vstd::set_lib::lemma_len_subset(r.to_set(), targets);
    vstd::set_lib::lemma_subset_equality(r.to_set(), targets);
    assert forall|t: PeerId| targets.contains(t) implies exists|i: int| 0 <= i < seg.len() && (#[trigger] seg[i]).0 == t by {
        assert(r.to_set().contains(t));
        let i = choose|i: int| 0 <= i < r.len() && r[i] == t;
        assert(seg[i].0 == t);
    }
}

/// `out` carries `p` to each peer of `targets` exactly once, and to no one else.
pub open spec fn delivers_once(out: Seq<(PeerId, PayloadView)>, targets: Set<PeerId>, p: PayloadView) -> bool {
    &&& forall|t: PeerId| targets.contains(t) ==> exists|i: int| 0 <= i < out.len() && #[trigger] out[i] == (t, p)
    &&& forall|i: int| 0 <= i < out.len() ==> targets.contains(#[trigger] out[i].0) && out[i].1 == p
    &&& forall|i: int, j: int| 0 <= i < j < out.len() ==> out[i].0 != out[j].0
}

/// `out` carries `p` to each peer of `first` and of `second`, to no one else,
/// and to a peer twice only where it is in both.
pub open spec fn passes_on(out: Seq<(PeerId, PayloadView)>, first: Set<PeerId>, second: Set<PeerId>, p: PayloadView) -> bool {
    &&& forall|t: PeerId|
        first.contains(t) || second.contains(t) ==> exists|i: int| 0 <= i < out.len() && #[trigger] out[i] == (t, p)
    &&& forall|i: int|
        0 <= i < out.len() ==> (first.contains(#[trigger] out[i].0) || second.contains(out[i].0)) && out[i].1 == p
    &&& forall|i: int, j: int|
        0 <= i < j < out.len() && #[trigger] out[i].0 == #[trigger] out[j].0 ==> first.contains(out[i].0)
            && second.contains(out[i].0)
}

/// A list that sends `p` to each peer of a finite set once delivers it to
/// each of them exactly once.
pub proof fn lemma_sends_each_delivers_once(out: Seq<(PeerId, PayloadView)>, targets: Set<PeerId>, p: PayloadView)
    requires
        targets.finite(),
        sends_each(out, targets, p),
    ensures
        delivers_once(out, targets, p),
{
    lemma_recipients_cover(out, targets);
    assert forall|t: PeerId| targets.contains(t) implies exists|i: int| 0 <= i < out.len() && #[trigger] out[i] == (t, p) by {
        let i = choose|i: int| 0 <= i < out.len() && (#[trigger] out[i]).0 == t;
        assert(out[i] == (t, p));
    }
}

/// `seg` sends `p` to each peer of `targets` once.
pub open spec fn sends_each(seg: Seq<(PeerId, PayloadView)>, targets: Set<PeerId>, p: PayloadView) -> bool {
    &&& seg.len() == targets.len()
    &&& forall|i: int| 0 <= i < seg.len() ==> targets.contains(#[trigger] seg[i].0) && seg[i].1 == p
    &&& forall|i: int, j: int| 0 <= i < j < seg.len() ==> seg[i].0 != seg[j].0
}

/// The characters that `String::from_utf8_lossy` reads from some bytes.
pub uninterp spec fn utf8_lossy(bytes: Seq<u8>) -> Seq<char>;

/// Reads bytes as text with `String::from_utf8_lossy`.
///
/// Trusted: the text is `utf8_lossy(bytes)`; bytes that are all ASCII read
/// as the characters with those codes.
#[verifier::external_body]
pub(crate) fn lossy_text(bytes: &Vec<u8>) -> (s: String)
    ensures
        s@ == utf8_lossy(bytes@),
        (forall|i: int| 0 <= i < bytes@.len() ==> #[trigger] bytes@[i] < 128) ==> s@ == bytes@.map_values(
            |b: u8| b as char,
        ),
{
    String::from_utf8_lossy(bytes).to_string()
}

/// The ids of a map's keys, in the order the map is walked.
pub fn keys_of<V>(m: &HashMap<PeerId, V>) -> (r: Vec<PeerId>)
    ensures
        r@.no_duplicates(),
        r@.to_set() == m@.dom(),
{
    let mut r: Vec<PeerId> = Vec::new();
    let ghost mut seen: Set<PeerId> = Set::empty();
    for k in it: m.keys()
        invariant
            it.seq().unref().to_set() == m@.dom(),
            it.seq().no_duplicates(),
            forall|key: PeerId| seen.contains(key) <==> exists|j: int| 0 <= j < it.index() && *it.seq()[j] == key,
            it.index() == it.seq().len() ==> m@.dom().subset_of(seen),
            seen.subset_of(m@.dom()),
            r@.no_duplicates(),
            r@.to_set() == seen,
    {
        let ghost i = it.index() as int;
        assert(it.seq().unref()[i] == *k);
        assert(m@.dom().contains(*k));
        assert(!seen.contains(*k)) by {
            if seen.contains(*k) {
                let j = choose|j: int| 0 <= j < i && *it.seq()[j] == *k;
                assert(it.seq()[j] != it.seq()[i]);
            }
        }
        let ghost r0 = r@;
        r.push(*k);
        proof {
            seen = seen.insert(*k);
            assert(r@.to_set() =~= r0.to_set().insert(*k)) by {
                assert forall|x: PeerId| r@.to_set().contains(x) <==> r0.to_set().contains(x) || x == *k by {
                    if r@.to_set().contains(x) && x != *k {
                        let j = choose|j: int| 0 <= j < r@.len() && r@[j] == x;
                        assert(r0[j] == x);
                    }
                    if r0.to_set().contains(x) {
                        let j = choose|j: int| 0 <= j < r0.len() && r0[j] == x;
                        assert(r@[j] == x);
                    }
                    if x == *k {
                        assert(r@[r@.len() - 1] == x);
                    }
                }
            }
            assert(!r0.contains(*k));
        }
        assert forall|key: PeerId| seen.contains(key) <==> exists|j: int| 0 <= j < i + 1 && *it.seq()[j] == key by {
            if key == *k {
                assert(*it.seq()[i] == key);
            }
        }
        assert forall|key: PeerId| i + 1 == it.seq().len() && m@.dom().contains(key) implies seen.contains(key) by {
            assert(it.seq().unref().to_set().contains(key));
            let j = choose|j: int| 0 <= j < it.seq().unref().len() && it.seq().unref()[j] == key;
            assert(*it.seq()[j] == key);
        }
    }
    assert(seen =~= m@.dom());
    r
}

} // verus!
