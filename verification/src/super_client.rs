//! The browser client of the hybrid topology that shares a line of
//! information about each player: it keeps the super peers, children and
//! handshakes as the command-line client does, sends its own information to
//! the peers that acknowledged it, records what the others send, and forgets
//! a peer that has been silent for too long.

use crate::handshake::{
    connect_greeting, greets_all, infos, lemma_greets_all_passes_on, lemma_packets_split, retries, retry_greeting, PeerRole, MAX_HANDSHAKE_ATTEMPTS,
};
use crate::peer_id::{digit_slot, nibble, parse_peer_id, peer_id_to_string, uuid_parse, uuid_text, PeerId};
use crate::wire::{delivers_once, keys_of, lemma_sends_each_delivers_once, lossy_text, passes_on, packets, send_to_all, sends_each, text, utf8_lossy, Outgoing, Payload, PayloadView};
use std::collections::HashMap;
use vstd::prelude::*;
use vstd::string::StringExecFns;

verus! {

broadcast use vstd::std_specs::hash::group_hash_axioms;

/// How long a peer may stay silent before it is forgotten, in milliseconds.
pub const SILENCE_LIMIT_MS: u64 = 5000;

/// The port of the TURN and STUN server, on the signaling server's host.
pub const TURN_PORT: u16 = 3478;

/// The state of the handshake with one peer.
#[derive(Debug, Clone, Copy, PartialEq, Eq, Structural)]
pub struct HandshakeState {
    /// How many times the handshake was sent.
    pub attempts: u8,
    /// Whether the peer acknowledged it.
    pub acknowledged: bool,
}

/// Whether a handshake is still to be sent again: not acknowledged, and
/// sent fewer than `MAX_HANDSHAKE_ATTEMPTS` times.
pub open spec fn pending(h: HandshakeState) -> bool {
    h.attempts < MAX_HANDSHAKE_ATTEMPTS && !h.acknowledged
}

/// A client: its own line of information, the signaling server's URL, the
/// information of the other players, the super peers and children it
/// knows, the handshakes, and when each player was last heard from.
pub struct Client {
    pub info: String,
    pub url: String,
    pub peer_info: HashMap<PeerId, String>,
    pub super_peers: HashMap<PeerId, String>,
    pub child_peers: HashMap<PeerId, String>,
    pub peer_handshake_states: HashMap<PeerId, HandshakeState>,
    pub last_seen: HashMap<PeerId, u64>,
}

/// The abstract content of a client.
#[verifier::ext_equal]
pub ghost struct ClientView {
    pub info: Seq<char>,
    pub url: Seq<char>,
    pub peer_info: Map<PeerId, Seq<char>>,
    pub super_peers: Map<PeerId, Seq<char>>,
    pub child_peers: Map<PeerId, Seq<char>>,
    pub handshakes: Map<PeerId, HandshakeState>,
    pub last_seen: Map<PeerId, u64>,
}

impl View for Client {
    type V = ClientView;

    open spec fn view(&self) -> ClientView {
        ClientView {
            info: self.info@,
            url: self.url@,
            peer_info: infos(self.peer_info@),
            super_peers: infos(self.super_peers@),
            child_peers: infos(self.child_peers@),
            handshakes: self.peer_handshake_states@,
            last_seen: self.last_seen@,
        }
    }
}

/// The peers of `m` that acknowledged the handshake.
pub open spec fn acked(hs: Map<PeerId, HandshakeState>, p: PeerId) -> bool {
    hs.contains_key(p) && hs[p].acknowledged
}

/// The information message that `me` sends: `info|<id>|<info>`.
pub open spec fn info_text(me: PeerId, info: Seq<char>) -> Seq<char> {
    "info|"@ + uuid_text(me) + "|"@ + info
}

/// Whether a text starts an information message.
pub open spec fn is_info(m: Seq<char>) -> bool {
    m.len() >= 5 && m.subrange(0, 5) == "info|"@
}

/// The first `|` of a text, where it has one.
pub open spec fn first_bar(s: Seq<char>, i: int) -> bool {
    &&& 0 <= i < s.len()
    &&& s[i] == '|'
    &&& forall|j: int| 0 <= j < i ==> s[j] != '|'
}

/// The sender's id and the information in an information message: the
/// text up to the next `|`, and all that follows it.
pub open spec fn info_fields(m: Seq<char>) -> Option<(Seq<char>, Seq<char>)> {
    let rest = m.subrange(5, m.len() as int);
    if is_info(m) && exists|i: int| first_bar(rest, i) {
        let i = choose|i: int| first_bar(rest, i);
        Some((rest.subrange(0, i), rest.subrange(i + 1, rest.len() as int)))
    } else {
        None
    }
}

/// Whether a peer last heard from at `t` has been silent too long at `now`.
pub open spec fn silent(now: u64, t: u64) -> bool {
    now > t + SILENCE_LIMIT_MS
}

/// Whether a character has the Unicode property White_Space, as
/// `char::is_whitespace` reads it.
pub open spec fn is_white_space(c: char) -> bool {
    let u = c as u32;
    (0x9 <= u <= 0xd) || u == 0x20 || u == 0x85 || u == 0xa0 || u == 0x1680 || (0x2000 <= u <= 0x200a) || u == 0x2028
        || u == 0x2029 || u == 0x202f || u == 0x205f || u == 0x3000
}

/// The first position from `i` on that holds no whitespace.
pub open spec fn skip_white(s: Seq<char>, i: int) -> int
    decreases s.len() - i,
{
    if 0 <= i < s.len() && is_white_space(s[i]) {
        skip_white(s, i + 1)
    } else {
        i
    }
}

/// The end of `s.take(e)` once the whitespace at its end is left out.
pub open spec fn trim_white_end(s: Seq<char>, e: int) -> int
    decreases e,
{
    if 0 < e <= s.len() && is_white_space(s[e - 1]) {
        trim_white_end(s, e - 1)
    } else {
        e
    }
}

/// The text with leading and trailing whitespace removed, as `str::trim`
/// gives it.
pub open spec fn trimmed(s: Seq<char>) -> Seq<char> {
    let a = skip_white(s, 0);
    let e = trim_white_end(s, s.len() as int);
    if a < e {
        s.subrange(a, e)
    } else {
        Seq::empty()
    }
}

/// What `url::Url::parse` makes of a text: the URL's host, if it has one,
/// or the text of the parse error.
pub uninterp spec fn url_host(s: Seq<char>) -> Result<Option<Seq<char>>, Seq<char>>;

/// Removes leading and trailing whitespace with `str::trim`.
///
/// Trusted: the text is `trimmed(s)`: `s` without the White_Space
/// characters at either end.
#[verifier::external_body]
fn trim_text(s: &str) -> (r: String)
    ensures
        r@ == trimmed(s@),
{
    s.trim().to_string()
}

/// Reads a URL with `url::Url::parse` and takes its host with `host_str`.
///
/// Trusted: the result is `url_host(s)`: the host where the URL has one,
/// `Ok(None)` where it has none, and the error's text where it is no URL.
#[verifier::external_body]
fn parse_url_host(s: &str) -> (r: Result<Option<String>, String>)
    ensures
        match r {
            Ok(Some(h)) => url_host(s@) == Ok::<Option<Seq<char>>, Seq<char>>(Some(h@)),
            Ok(None) => url_host(s@) == Ok::<Option<Seq<char>>, Seq<char>>(None),
            Err(e) => url_host(s@) == Err::<Option<Seq<char>>, Seq<char>>(e@),
        },
{
    match url::Url::parse(s) {
        Ok(u) => Ok(u.host_str().map(String::from)),
        Err(e) => Err(e.to_string()),
    }
}

/// The host to connect to for a signaling URL: none where the URL is blank
/// (the client does not connect), an error where it is no URL or has no host.
pub open spec fn host_for(url: Seq<char>) -> Result<Option<Seq<char>>, Seq<char>> {
    let t = trimmed(url);
    if t.len() == 0 {
        Ok(None)
    } else {
        match url_host(t) {
            Ok(Some(h)) => Ok(Some(h)),
            Ok(None) => Err("No host found in URL"@),
            Err(e) => Err("Invalid URL: "@ + e),
        }
    }
}

/// A TURN and STUN server to reach peers through.
pub struct IceServer {
    pub urls: Vec<String>,
    pub username: String,
    pub credential: String,
}

/// The TURN and STUN server on `host`, unless the host is this machine.
pub open spec fn ice_urls(host: Seq<char>) -> Option<Seq<Seq<char>>> {
    if host == "localhost"@ || host == "127.0.0.1"@ {
        None
    } else {
        Some(seq!["stun:"@ + host + ":3478"@, "turn:"@ + host + ":3478"@])
    }
}

/// The host to connect to for the signaling URL `url` (see `host_for`).
pub fn connection_host(url: &str) -> (r: Result<Option<String>, String>)
    ensures
        match r {
            Ok(Some(h)) => host_for(url@) == Ok::<Option<Seq<char>>, Seq<char>>(Some(h@)),
            Ok(None) => host_for(url@) == Ok::<Option<Seq<char>>, Seq<char>>(None),
            Err(e) => host_for(url@) == Err::<Option<Seq<char>>, Seq<char>>(e@),
        },
{
    let t = trim_text(url);
    if t.as_str().unicode_len() == 0 {
        return Ok(None);
    }
    match parse_url_host(t.as_str()) {
        Ok(Some(h)) => Ok(Some(h)),
        Ok(None) => Err("No host found in URL".to_owned()),
        Err(e) => {
            let mut m = "Invalid URL: ".to_owned();
            m.append(e.as_str());
            Err(m)
        },
    }
}

/// The TURN and STUN server to use for `host` (see `ice_urls`), with the
/// client's credentials.
pub fn ice_server(host: &str) -> (r: Option<IceServer>)
    ensures
        match r {
            Some(s) => ice_urls(host@) == Some(s.urls@.map_values(|u: String| u@)) && s.username@ == "youruser"@
                && s.credential@ == "yourpassword"@,
            None => ice_urls(host@) is None,
        },
{
    let h = host.to_owned();
    if h.eq(&"localhost".to_owned()) || h.eq(&"127.0.0.1".to_owned()) {
        return None;
    }
    let mut stun = "stun:".to_owned();
    stun.append(host);
    stun.append(":3478");
    let mut turn = "turn:".to_owned();
    turn.append(host);
    turn.append(":3478");
    let mut urls: Vec<String> = Vec::new();
    urls.push(stun);
    urls.push(turn);
    assert(urls@.map_values(|u: String| u@) =~= seq!["stun:"@ + host@ + ":3478"@, "turn:"@ + host@ + ":3478"@]);
    Some(IceServer { urls, username: "youruser".to_owned(), credential: "yourpassword".to_owned() })
}

/// The peers of `keys` whose handshake is acknowledged.
fn filter_acked(keys: &Vec<PeerId>, hs: &HashMap<PeerId, HandshakeState>) -> (r: Vec<PeerId>)
    requires
        keys@.no_duplicates(),
    ensures
        r@.no_duplicates(),
        r@.to_set() == keys@.to_set().filter(|p: PeerId| acked(hs@, p)),
{
    let mut r: Vec<PeerId> = Vec::new();
    let mut i: usize = 0;
    while i < keys.len()
        invariant
            i <= keys@.len(),
            keys@.no_duplicates(),
            r@.no_duplicates(),
            r@.to_set() == keys@.take(i as int).to_set().filter(|p: PeerId| acked(hs@, p)),
        decreases keys@.len() - i,
    {
        let k = keys[i];
        let ghost r0 = r@;
        proof {
            assert(keys@.take(i + 1) =~= keys@.take(i as int).push(k));
            keys@.take(i as int).lemma_push_to_set_commute(k);
            assert(!r0.contains(k)) by {
                if r0.contains(k) {
                    assert(r0.to_set().contains(k));
                    let j = choose|j: int| 0 <= j < i && keys@.take(i as int)[j] == k;
                    assert(keys@[j] == keys@[i as int]);
                }
            }
        }
        let ack = match hs.get(&k) {
            Some(h) => h.acknowledged,
            None => false,
        };
        if ack {
            r.push(k);
            proof {
                r0.lemma_push_to_set_commute(k);
                assert(r@.to_set() =~= keys@.take(i + 1).to_set().filter(|p: PeerId| acked(hs@, p)));
            }
        } else {
            assert(r@.to_set() =~= keys@.take(i + 1).to_set().filter(|p: PeerId| acked(hs@, p)));
        }
        i = i + 1;
    }
    assert(keys@.take(keys@.len() as int) =~= keys@);
    r
}

/// The peers whose handshake is pending (see `pending`), in the order the
/// map is walked.
fn pending_peers(hs: &HashMap<PeerId, HandshakeState>) -> (r: Vec<PeerId>)
    ensures
        r@.no_duplicates(),
        r@.to_set() == hs@.dom().filter(|p: PeerId| pending(hs@[p])),
{
    let keys = keys_of(hs);
    let mut r: Vec<PeerId> = Vec::new();
    let mut i: usize = 0;
    while i < keys.len()
        invariant
            i <= keys@.len(),
            keys@.no_duplicates(),
            keys@.to_set() == hs@.dom(),
            r@.no_duplicates(),
            r@.to_set() == keys@.take(i as int).to_set().filter(|p: PeerId| pending(hs@[p])),
        decreases keys@.len() - i,
    {
        let k = keys[i];
        let ghost r0 = r@;
        proof {
            assert(keys@.take(i + 1) =~= keys@.take(i as int).push(k));
            keys@.take(i as int).lemma_push_to_set_commute(k);
            assert(!r0.contains(k)) by {
                if r0.contains(k) {
                    assert(r0.to_set().contains(k));
                    let j = choose|j: int| 0 <= j < i && keys@.take(i as int)[j] == k;
                    assert(keys@[j] == keys@[i as int]);
                }
            }
            assert(keys@.to_set().contains(k));
        }
        let h = *hs.get(&k).unwrap();
        if h.attempts < MAX_HANDSHAKE_ATTEMPTS && !h.acknowledged {
            r.push(k);
            proof {
                r0.lemma_push_to_set_commute(k);
                assert(r@.to_set() =~= keys@.take(i + 1).to_set().filter(|p: PeerId| pending(hs@[p])));
            }
        } else {
            assert(r@.to_set() =~= keys@.take(i + 1).to_set().filter(|p: PeerId| pending(hs@[p])));
        }
        i = i + 1;
    }
    assert(keys@.take(keys@.len() as int) =~= keys@);
    r
}

impl Client {
    /// A client that knows nothing yet.
    pub fn new() -> (c: Self)
        ensures
            c@ == (ClientView {
                info: Seq::empty(),
                url: Seq::empty(),
                peer_info: Map::empty(),
                super_peers: Map::empty(),
                child_peers: Map::empty(),
                handshakes: Map::empty(),
                last_seen: Map::empty(),
            }),
    {
        let c = Client {
            info: String::new(),
            url: String::new(),
            peer_info: HashMap::new(),
            super_peers: HashMap::new(),
            child_peers: HashMap::new(),
            peer_handshake_states: HashMap::new(),
            last_seen: HashMap::new(),
        };
        assert(infos(c.peer_info@) =~= Map::empty());
        assert(infos(c.super_peers@) =~= Map::empty());
        assert(infos(c.child_peers@) =~= Map::empty());
        c
    }

    /// Set the signaling server's URL.
    pub fn set_url(&mut self, url: String)
        ensures
            final(self)@ == (ClientView { url: url@, ..old(self)@ }),
    {
        self.url = url;
    }

    /// Set the client's own line of information.
    pub fn set_info(&mut self, info: String)
        ensures
            final(self)@ == (ClientView { info: info@, ..old(self)@ }),
    {
        self.info = info;
    }

    /// The client's own line of information.
    pub fn info(&self) -> (r: String)
        ensures
            r@ == self@.info,
    {
        self.info.clone()
    }

    /// Record the information of the peer named `peer_id`, which must be a UUID.
    pub fn add_peer_info(&mut self, peer_id: String, info: String)
        requires
            uuid_parse(peer_id@) is Some,
        ensures
            final(self)@ == (ClientView {
                peer_info: old(self)@.peer_info.insert(uuid_parse(peer_id@)->0, info@),
                ..old(self)@
            }),
    {
        let id = parse_peer_id(peer_id.as_str()).unwrap();
        self.peer_info.insert(id, info);
        assert(infos(self.peer_info@) =~= infos(old(self).peer_info@).insert(id, info@));
    }

    /// `add_peer_info` where `peer_id` is a UUID; otherwise nothing changes.
    /// Whether it was one is returned.
    pub fn try_add_peer_info(&mut self, peer_id: String, info: String) -> (taken: bool)
        ensures
            taken == uuid_parse(peer_id@) is Some,
            final(self)@ == if taken {
                ClientView { peer_info: old(self)@.peer_info.insert(uuid_parse(peer_id@)->0, info@), ..old(self)@ }
            } else {
                old(self)@
            },
    {
        if parse_peer_id(peer_id.as_str()).is_some() {
            self.add_peer_info(peer_id, info);
            true
        } else {
            false
        }
    }

    /// Every peer's id, as text, with its information, in the order the map
    /// is walked.
    pub fn all_info(&self) -> (r: Vec<(String, String)>)
        ensures
            exists|ids: Seq<PeerId>|
                {
                    &&& ids.no_duplicates()
                    &&& ids.to_set() == self.peer_info@.dom()
                    &&& r@.len() == ids.len()
                    &&& forall|i: int|
                        0 <= i < ids.len() ==> (#[trigger] r@[i]).0@ == uuid_text(ids[i]) && r@[i].1@
                            == self@.peer_info[ids[i]]
                },
    {
        let ids = keys_of(&self.peer_info);
        let mut r: Vec<(String, String)> = Vec::new();
        let mut i: usize = 0;
        while i < ids.len()
            invariant
                i <= ids@.len(),
                ids@.to_set() == self.peer_info@.dom(),
                r@.len() == i,
                forall|j: int|
                    0 <= j < i ==> (#[trigger] r@[j]).0@ == uuid_text(ids@[j]) && r@[j].1@ == self@.peer_info[ids@[j]],
            decreases ids@.len() - i,
        {
            let id = ids[i];
            assert(ids@.to_set().contains(id));
            let info = self.peer_info.get(&id).unwrap().clone();
            r.push((peer_id_to_string(id), info));
            i = i + 1;
        }
        r
    }

    /// Record the super peer named `peer`, which must be a UUID, with its info.
    pub fn add_super_peer(&mut self, peer: String, info: String)
        requires
            uuid_parse(peer@) is Some,
        ensures
            final(self)@ == (ClientView {
                super_peers: old(self)@.super_peers.insert(uuid_parse(peer@)->0, info@),
                ..old(self)@
            }),
    {
        let id = parse_peer_id(peer.as_str()).unwrap();
        self.super_peers.insert(id, info);
        assert(infos(self.super_peers@) =~= infos(old(self).super_peers@).insert(id, info@));
    }

    /// `add_super_peer` where `peer` is a UUID; otherwise nothing changes.
    /// Whether it was one is returned.
    pub fn try_add_super_peer(&mut self, peer: String, info: String) -> (taken: bool)
        ensures
            taken == uuid_parse(peer@) is Some,
            final(self)@ == if taken {
                ClientView { super_peers: old(self)@.super_peers.insert(uuid_parse(peer@)->0, info@), ..old(self)@ }
            } else {
                old(self)@
            },
    {
        if parse_peer_id(peer.as_str()).is_some() {
            self.add_super_peer(peer, info);
            true
        } else {
            false
        }
    }

    /// Record the child peer named `peer`, which must be a UUID, with its info.
    pub fn add_child_peer(&mut self, peer: String, info: String)
        requires
            uuid_parse(peer@) is Some,
        ensures
            final(self)@ == (ClientView {
                child_peers: old(self)@.child_peers.insert(uuid_parse(peer@)->0, info@),
                ..old(self)@
            }),
    {
        let id = parse_peer_id(peer.as_str()).unwrap();
        self.child_peers.insert(id, info);
        assert(infos(self.child_peers@) =~= infos(old(self).child_peers@).insert(id, info@));
    }

    /// `add_child_peer` where `peer` is a UUID; otherwise nothing changes.
    /// Whether it was one is returned.
    pub fn try_add_child_peer(&mut self, peer: String, info: String) -> (taken: bool)
        ensures
            taken == uuid_parse(peer@) is Some,
            final(self)@ == if taken {
                ClientView { child_peers: old(self)@.child_peers.insert(uuid_parse(peer@)->0, info@), ..old(self)@ }
            } else {
                old(self)@
            },
    {
        if parse_peer_id(peer.as_str()).is_some() {
            self.add_child_peer(peer, info);
            true
        } else {
            false
        }
    }

    /// Forget the peer with id `id`: it is no longer a super peer or a child,
    /// its handshake and its information are dropped.
    fn forget(&mut self, id: PeerId)
        ensures
            final(self)@ == (ClientView {
                super_peers: old(self)@.super_peers.remove(id),
                child_peers: old(self)@.child_peers.remove(id),
                handshakes: old(self)@.handshakes.remove(id),
                peer_info: old(self)@.peer_info.remove(id),
                ..old(self)@
            }),
    {
        self.super_peers.remove(&id);
        self.child_peers.remove(&id);
        self.peer_handshake_states.remove(&id);
        self.peer_info.remove(&id);
        assert(infos(self.super_peers@) =~= infos(old(self).super_peers@).remove(id));
        assert(infos(self.child_peers@) =~= infos(old(self).child_peers@).remove(id));
        assert(infos(self.peer_info@) =~= infos(old(self).peer_info@).remove(id));
    }

    /// Forget the peer named `peer`, which must be a UUID.
    pub fn remove_peer(&mut self, peer: String)
        requires
            uuid_parse(peer@) is Some,
        ensures
            final(self)@ == (ClientView {
                super_peers: old(self)@.super_peers.remove(uuid_parse(peer@)->0),
                child_peers: old(self)@.child_peers.remove(uuid_parse(peer@)->0),
                handshakes: old(self)@.handshakes.remove(uuid_parse(peer@)->0),
                peer_info: old(self)@.peer_info.remove(uuid_parse(peer@)->0),
                ..old(self)@
            }),
    {
        let id = parse_peer_id(peer.as_str()).unwrap();
        self.forget(id);
    }

    /// `remove_peer` where `peer` is a UUID; otherwise nothing changes.
    /// Whether it was one is returned.
    pub fn try_remove_peer(&mut self, peer: String) -> (taken: bool)
        ensures
            taken == uuid_parse(peer@) is Some,
            final(self)@ == if taken {
                ClientView {
                    super_peers: old(self)@.super_peers.remove(uuid_parse(peer@)->0),
                    child_peers: old(self)@.child_peers.remove(uuid_parse(peer@)->0),
                    handshakes: old(self)@.handshakes.remove(uuid_parse(peer@)->0),
                    peer_info: old(self)@.peer_info.remove(uuid_parse(peer@)->0),
                    ..old(self)@
                }
            } else {
                old(self)@
            },
    {
        if parse_peer_id(peer.as_str()).is_some() {
            self.remove_peer(peer);
            true
        } else {
            false
        }
    }

    /// The ids, as text, of the peers whose handshake is pending (see
    /// `pending`), in the order the map is walked.
    pub fn get_peers_to_retry(&self) -> (r: Vec<String>)
        ensures
            exists|ids: Seq<PeerId>|
                {
                    &&& ids.no_duplicates()
                    &&& ids.to_set() == self@.handshakes.dom().filter(|p: PeerId| pending(self@.handshakes[p]))
                    &&& r@.len() == ids.len()
                    &&& forall|i: int| 0 <= i < ids.len() ==> (#[trigger] r@[i])@ == uuid_text(ids[i])
                },
    {
        let ids = pending_peers(&self.peer_handshake_states);
        let mut r: Vec<String> = Vec::new();
        let mut i: usize = 0;
        while i < ids.len()
            invariant
                i <= ids@.len(),
                r@.len() == i,
                forall|j: int| 0 <= j < i ==> (#[trigger] r@[j])@ == uuid_text(ids@[j]),
            decreases ids@.len() - i,
        {
            r.push(peer_id_to_string(ids[i]));
            i = i + 1;
        }
        r
    }
}


/// The state of a client's loop once it runs: whether it knows its role,
/// the role, and its parent when it is a child.
pub struct Session {
    pub initialized: bool,
    pub parent_id: Option<PeerId>,
    pub self_role: Option<PeerRole>,
}

impl Session {
    /// A loop that does not know its role yet.
    pub fn new() -> (s: Self)
        ensures
            !s.initialized,
            s.parent_id is None,
            s.self_role is None,
    {
        Session { initialized: false, parent_id: None, self_role: None }
    }

    /// Learn the role from the signaling server, while it is not known: a
    /// super peer when the server made this client one, otherwise a child of
    /// the parent it assigned.
    pub fn determine_role(&mut self, super_peer: Option<PeerId>, parent_peer: Option<PeerId>)
        ensures
            old(self).initialized || (super_peer is None && parent_peer is None) ==> *final(self) == *old(self),
            !old(self).initialized && super_peer is Some ==> final(self).initialized && final(self).self_role == Some(
                PeerRole::Super,
            ) && final(self).parent_id == old(self).parent_id,
            !old(self).initialized && super_peer is None && parent_peer is Some ==> final(self).initialized
                && final(self).self_role == Some(PeerRole::Child) && final(self).parent_id == parent_peer,
    {
        if !self.initialized {
            if super_peer.is_some() {
                self.self_role = Some(PeerRole::Super);
                self.initialized = true;
            } else if let Some(parent) = parent_peer {
                self.parent_id = Some(parent);
                self.self_role = Some(PeerRole::Child);
                self.initialized = true;
            }
        }
    }
}

/// The handshakes `h` once those with the peers of `due` that
/// `retry_greeting` picks were sent again: one attempt more each.
pub open spec fn retried_states(
    h: Map<PeerId, HandshakeState>,
    due: Set<PeerId>,
    role: Option<PeerRole>,
    parent: Option<PeerId>,
) -> Map<PeerId, HandshakeState> {
    Map::new(
        |k: PeerId| h.contains_key(k),
        |k: PeerId|
            if due.contains(k) && retry_greeting(role, parent, k) is Some {
                HandshakeState { attempts: (h[k].attempts + 1) as u8, acknowledged: h[k].acknowledged }
            } else {
                h[k]
            },
    )
}

/// The peers of `v` silent too long at `now`.
pub open spec fn silent_peers(v: ClientView, now: u64) -> Set<PeerId> {
    v.last_seen.dom().filter(|p: PeerId| silent(now, v.last_seen[p]))
}

/// `v` with the peers silent too long at `now` forgotten.
pub open spec fn silenced(v: ClientView, now: u64) -> ClientView {
    let gone = silent_peers(v, now);
    ClientView {
        super_peers: v.super_peers.remove_keys(gone),
        child_peers: v.child_peers.remove_keys(gone),
        peer_info: v.peer_info.remove_keys(gone),
        handshakes: v.handshakes.remove_keys(gone),
        last_seen: v.last_seen.remove_keys(gone),
        ..v
    }
}

/// Forgetting the silent peers leaves no silent peer, and keeps every other
/// peer that was heard from with its time.
pub proof fn law_no_silent_peer_is_kept(v: ClientView, now: u64)
    ensures
        forall|p: PeerId| #[trigger] silenced(v, now).last_seen.contains_key(p) ==> !silent(now, silenced(v, now).last_seen[p]),
        forall|p: PeerId|
            #[trigger] v.last_seen.contains_key(p) && !silent(now, v.last_seen[p]) ==> silenced(v, now).last_seen.contains_key(p)
                && silenced(v, now).last_seen[p] == v.last_seen[p],
        forall|p: PeerId|
            #[trigger] v.last_seen.contains_key(p) && silent(now, v.last_seen[p]) ==> !silenced(v, now).super_peers.contains_key(p)
                && !silenced(v, now).child_peers.contains_key(p) && !silenced(v, now).peer_info.contains_key(p)
                && !silenced(v, now).handshakes.contains_key(p),
{
}

/// Forgetting the silent peers keeps everything known of a peer that is not
/// silent (or that was never heard from): its information, its place as a
/// super peer or a child, and its handshake, each unchanged.
pub proof fn law_quiet_peers_are_kept(v: ClientView, now: u64)
    ensures
        forall|p: PeerId|
            #[trigger] v.peer_info.contains_key(p) && (!v.last_seen.contains_key(p) || !silent(now, v.last_seen[p]))
                ==> silenced(v, now).peer_info.contains_key(p) && silenced(v, now).peer_info[p] == v.peer_info[p],
        forall|p: PeerId|
            #[trigger] v.super_peers.contains_key(p) && (!v.last_seen.contains_key(p) || !silent(now, v.last_seen[p]))
                ==> silenced(v, now).super_peers.contains_key(p) && silenced(v, now).super_peers[p] == v.super_peers[p],
        forall|p: PeerId|
            #[trigger] v.child_peers.contains_key(p) && (!v.last_seen.contains_key(p) || !silent(now, v.last_seen[p]))
                ==> silenced(v, now).child_peers.contains_key(p) && silenced(v, now).child_peers[p] == v.child_peers[p],
        forall|p: PeerId|
            #[trigger] v.handshakes.contains_key(p) && (!v.last_seen.contains_key(p) || !silent(now, v.last_seen[p]))
                ==> silenced(v, now).handshakes.contains_key(p) && silenced(v, now).handshakes[p] == v.handshakes[p],
{
}

/// How one step of the client may change the handshake with a peer, from
/// `a` to `b`: it is left alone, or acknowledged, or, where it was pending,
/// sent once more.
pub open spec fn handshake_step(a: HandshakeState, b: HandshakeState) -> bool {
    ||| b == a
    ||| b == HandshakeState { acknowledged: true, ..a }
    ||| pending(a) && b == HandshakeState { attempts: (a.attempts + 1) as u8, acknowledged: a.acknowledged }
}

/// A packet changes the handshake with each peer by a step.
pub proof fn law_packet_is_a_step(
    c: ClientView,
    n: ClientView,
    role: Option<PeerRole>,
    from: PeerId,
    packet: Seq<u8>,
    my_id: Option<PeerId>,
    now: u64,
    out: Seq<(PeerId, PayloadView)>,
)
    requires
        packet_effect(c, n, role, from, packet, my_id, now, out),
    ensures
        forall|p: PeerId|
            #[trigger] c.handshakes.contains_key(p) ==> n.handshakes.contains_key(p) && handshake_step(
                c.handshakes[p],
                n.handshakes[p],
            ),
{
}

/// The client `v` after the retry timer fired at `now` (see `on_timeout`).
pub open spec fn after_timeout(v: ClientView, role: Option<PeerRole>, parent: Option<PeerId>, now: u64) -> ClientView {
    silenced(
        ClientView {
            handshakes: retried_states(
                v.handshakes,
                v.handshakes.dom().filter(|q: PeerId| pending(v.handshakes[q])),
                role,
                parent,
            ),
            ..v
        },
        now,
    )
}

/// The retry timer changes the handshake with each peer it keeps by a step.
pub proof fn law_timeout_is_a_step(v: ClientView, role: Option<PeerRole>, parent: Option<PeerId>, now: u64)
    ensures
        forall|p: PeerId|
            #[trigger] after_timeout(v, role, parent, now).handshakes.contains_key(p) ==> v.handshakes.contains_key(p)
                && handshake_step(v.handshakes[p], after_timeout(v, role, parent, now).handshakes[p]),
{
}

/// Over one connection with a peer: the handshake begins sent at most
/// once and unacknowledged, and each later step is a `handshake_step`. Then
/// the handshake is sent at most `MAX_HANDSHAKE_ATTEMPTS` times, and each
/// time it is sent again it was not acknowledged.
pub proof fn law_connection_handshakes(hs: Seq<HandshakeState>)
    requires
        hs.len() >= 1,
        hs[0].attempts <= 1,
        !hs[0].acknowledged,
        forall|k: int| 0 <= k < hs.len() - 1 ==> handshake_step(#[trigger] hs[k], hs[k + 1]),
    ensures
        forall|k: int| 0 <= k < hs.len() ==> (#[trigger] hs[k]).attempts <= MAX_HANDSHAKE_ATTEMPTS,
        forall|k: int|
            0 <= k < hs.len() - 1 && (#[trigger] hs[k + 1]).attempts != hs[k].attempts ==> !hs[k].acknowledged
                && hs[k + 1].attempts == hs[k].attempts + 1,
{
    lemma_connection_prefix(hs, hs.len() - 1);
}

proof fn lemma_connection_prefix(hs: Seq<HandshakeState>, n: int)
    requires
        0 <= n < hs.len(),
        hs[0].attempts <= 1,
        !hs[0].acknowledged,
        forall|k: int| 0 <= k < hs.len() - 1 ==> handshake_step(#[trigger] hs[k], hs[k + 1]),
    ensures
        forall|k: int| 0 <= k <= n ==> (#[trigger] hs[k]).attempts <= MAX_HANDSHAKE_ATTEMPTS,
    decreases n,
{
    if n > 0 {
        lemma_connection_prefix(hs, n - 1);
        assert(handshake_step(hs[n - 1], hs[n]));
    }
}

/// Sending the pending handshakes again never takes a handshake past
/// `MAX_HANDSHAKE_ATTEMPTS` attempts, and leaves acknowledgements as they were.
pub proof fn law_retries_stay_within_limit(h: Map<PeerId, HandshakeState>, role: Option<PeerRole>, parent: Option<PeerId>)
    ensures
        forall|p: PeerId|
            #[trigger] h.contains_key(p) && h[p].attempts <= MAX_HANDSHAKE_ATTEMPTS ==> retried_states(
                h,
                h.dom().filter(|q: PeerId| pending(h[q])),
                role,
                parent,
            )[p].attempts <= MAX_HANDSHAKE_ATTEMPTS,
        forall|p: PeerId|
            #[trigger] h.contains_key(p) ==> retried_states(h, h.dom().filter(|q: PeerId| pending(h[q])), role, parent)[p].acknowledged
                == h[p].acknowledged,
{
}

/// The handshakes of `h`, with the one with `peer`, if any, acknowledged.
pub open spec fn acknowledged(h: Map<PeerId, HandshakeState>, peer: PeerId) -> Map<PeerId, HandshakeState> {
    if h.contains_key(peer) {
        h.insert(peer, HandshakeState { attempts: h[peer].attempts, acknowledged: true })
    } else {
        h
    }
}

/// What handling the packet `packet` from `from` does to a client `c`, in
/// `role`, with id `my_id`, at `now`, giving `n` and the packets `out`.
pub open spec fn packet_effect(
    c: ClientView,
    n: ClientView,
    role: Option<PeerRole>,
    from: PeerId,
    packet: Seq<u8>,
    my_id: Option<PeerId>,
    now: u64,
    out: Seq<(PeerId, PayloadView)>,
) -> bool {
    let m = utf8_lossy(packet);
    let sup = role == Some(PeerRole::Super);
    let reply = if my_id is Some && c.handshakes.contains_key(from) {
        seq![(from, PayloadView::Text(info_text(my_id->0, c.info)))]
    } else {
        Seq::empty()
    };
    if is_info(m) {
        let fields = info_fields(m);
        let sender = fields.unwrap().0;
        let line = fields.unwrap().1;
        if fields is Some && uuid_parse(sender) is Some {
            let id = uuid_parse(sender)->0;
            &&& n == ClientView {
                peer_info: c.peer_info.insert(id, line),
                last_seen: c.last_seen.insert(id, now),
                ..c
            }
            &&& if sup {
                greets_all(out, c.child_peers.dom().remove(from), c.super_peers.dom().remove(from), PayloadView::Raw(packet))
            } else {
                out.len() == 0
            }
        } else {
            n == c && out.len() == 0
        }
    } else if m == "super_handshake"@ {
        &&& n == ClientView {
            super_peers: c.super_peers.insert(from, if sup { "OtherSuperPeer"@ } else { "SuperPeerInfo"@ }),
            ..c
        }
        &&& out == seq![(from, PayloadView::Text("super_handshake_ack"@))]
    } else if m == "super_handshake_ack"@ {
        if sup {
            &&& n == ClientView {
                super_peers: c.super_peers.insert(from, "OtherSuperPeer"@),
                handshakes: acknowledged(c.handshakes, from),
                ..c
            }
            &&& out == reply
        } else {
            n == c && out.len() == 0
        }
    } else if m == "child_handshake"@ {
        &&& n == ClientView { child_peers: c.child_peers.insert(from, "ChildPeerInfo"@), ..c }
        &&& out == seq![(from, PayloadView::Text("child_handshake_ack"@))]
    } else if m == "child_handshake_ack"@ {
        &&& n == ClientView { handshakes: acknowledged(c.handshakes, from), ..c }
        &&& out == reply
    } else {
        &&& n == c
        &&& if sup && c.child_peers.contains_key(from) {
            greets_all(out, c.child_peers.dom().remove(from), c.super_peers.dom().remove(from), PayloadView::Raw(packet))
        } else if sup && c.super_peers.contains_key(from) {
            sends_each(out, c.child_peers.dom(), PayloadView::Raw(packet))
        } else {
            out.len() == 0
        }
    }
}

/// A packet that is neither an information message nor one of the
/// handshake words: a game packet, which a super peer relays.
pub open spec fn is_game_packet(m: Seq<char>) -> bool {
    &&& !is_info(m)
    &&& m != "super_handshake"@
    &&& m != "super_handshake_ack"@
    &&& m != "child_handshake"@
    &&& m != "child_handshake_ack"@
}

/// The sender's id and the information line of an information message whose
/// sender field reads as a UUID.
pub open spec fn parsed_info(m: Seq<char>) -> Option<(PeerId, Seq<char>)> {
    if is_info(m) && info_fields(m) is Some && uuid_parse(info_fields(m).unwrap().0) is Some {
        Some((uuid_parse(info_fields(m).unwrap().0).unwrap(), info_fields(m).unwrap().1))
    } else {
        None
    }
}

/// A super peer relays a game packet that comes from one of its super peers
/// (and not from one of its children) to each of its children, exactly once,
/// and to no one else; nothing else changes.
pub proof fn law_super_relays_to_children(
    c: ClientView,
    n: ClientView,
    from: PeerId,
    packet: Seq<u8>,
    my_id: Option<PeerId>,
    now: u64,
    out: Seq<(PeerId, PayloadView)>,
)
    requires
        c.child_peers.dom().finite(),
        packet_effect(c, n, Some(PeerRole::Super), from, packet, my_id, now, out),
        is_game_packet(utf8_lossy(packet)),
        c.super_peers.contains_key(from),
        !c.child_peers.contains_key(from),
    ensures
        n == c,
        delivers_once(out, c.child_peers.dom(), PayloadView::Raw(packet)),
{
    lemma_sends_each_delivers_once(out, c.child_peers.dom(), PayloadView::Raw(packet));
}

/// A super peer relays a game packet that comes from one of its children to
/// each other child and each super peer other than the sender, once in each
/// role, and to no one else; nothing else changes.
pub proof fn law_super_relays_from_child(
    c: ClientView,
    n: ClientView,
    from: PeerId,
    packet: Seq<u8>,
    my_id: Option<PeerId>,
    now: u64,
    out: Seq<(PeerId, PayloadView)>,
)
    requires
        c.child_peers.dom().finite(),
        c.super_peers.dom().finite(),
        packet_effect(c, n, Some(PeerRole::Super), from, packet, my_id, now, out),
        is_game_packet(utf8_lossy(packet)),
        c.child_peers.contains_key(from),
    ensures
        n == c,
        passes_on(out, c.child_peers.dom().remove(from), c.super_peers.dom().remove(from), PayloadView::Raw(packet)),
{
    lemma_greets_all_passes_on(
        out,
        c.child_peers.dom().remove(from),
        c.super_peers.dom().remove(from),
        PayloadView::Raw(packet),
    );
}

/// A super peer records an information message whose sender reads as a
/// UUID, and passes it on to every child and every super peer other than
/// the one it came from, once in each role, and to no one else.
pub proof fn law_super_shares_info(
    c: ClientView,
    n: ClientView,
    from: PeerId,
    packet: Seq<u8>,
    my_id: Option<PeerId>,
    now: u64,
    out: Seq<(PeerId, PayloadView)>,
)
    requires
        c.child_peers.dom().finite(),
        c.super_peers.dom().finite(),
        packet_effect(c, n, Some(PeerRole::Super), from, packet, my_id, now, out),
        parsed_info(utf8_lossy(packet)) is Some,
    ensures
        n.peer_info == c.peer_info.insert(
            parsed_info(utf8_lossy(packet)).unwrap().0,
            parsed_info(utf8_lossy(packet)).unwrap().1,
        ),
        n.last_seen == c.last_seen.insert(parsed_info(utf8_lossy(packet)).unwrap().0, now),
        passes_on(out, c.child_peers.dom().remove(from), c.super_peers.dom().remove(from), PayloadView::Raw(packet)),
{
    lemma_greets_all_passes_on(
        out,
        c.child_peers.dom().remove(from),
        c.super_peers.dom().remove(from),
        PayloadView::Raw(packet),
    );
}

/// No character of a UUID's text is a `|`.
pub proof fn lemma_uuid_text_has_no_bar(id: PeerId)
    ensures
        forall|i: int| 0 <= i < uuid_text(id).len() ==> uuid_text(id)[i] != '|',
{
    assert forall|i: int| 0 <= i < uuid_text(id).len() implies uuid_text(id)[i] != '|' by {
        if !(i == 8 || i == 13 || i == 18 || i == 23) {
            let n = nibble(id, digit_slot(i));
            assert(0 <= n < 16);
        }
    }
}

/// An information message reads back as the sender's id and its
/// information, whatever the information holds.
pub proof fn law_info_message_fields(me: PeerId, info: Seq<char>)
    ensures
        is_info(info_text(me, info)),
        info_fields(info_text(me, info)) == Some((uuid_text(me), info)),
{
    reveal_strlit("info|");
    reveal_strlit("|");
    lemma_uuid_text_has_no_bar(me);
    let m = info_text(me, info);
    let rest = m.subrange(5, m.len() as int);
    assert(m.subrange(0, 5) =~= "info|"@);
    assert(rest =~= uuid_text(me) + "|"@ + info);
    assert(first_bar(rest, 36));
    let c = choose|k: int| first_bar(rest, k);
    assert(c == 36) by {
        if c < 36 {
            assert(rest[c] == uuid_text(me)[c]);
        } else if c > 36 {
            assert(rest[36] != '|');
        }
    }
    assert(rest.subrange(0, 36) =~= uuid_text(me));
    assert(rest.subrange(37, rest.len() as int) =~= info);
}

/// The information message of `me`: `info|<id>|<info>`.
pub fn info_message(me: PeerId, info: &String) -> (s: String)
    ensures
        s@ == info_text(me, info@),
{
    let mut s = "info|".to_owned();
    let id = peer_id_to_string(me);
    s.append(id.as_str());
    s.append("|");
    s.append(info.as_str());
    s
}

/// The sender's id and the information of an information message (see
/// `info_fields`).
pub fn split_info(m: &String) -> (r: Option<(String, String)>)
    ensures
        match r {
            Some(f) => is_info(m@) && info_fields(m@) == Some((f.0@, f.1@)),
            None => info_fields(m@) is None,
        },
{
    let n = m.as_str().unicode_len();
    if n < 5 {
        return None;
    }
    let head = m.as_str().substring_char(0, 5).to_owned();
    if !head.eq(&"info|".to_owned()) {
        return None;
    }
    let ghost rest = m@.subrange(5, n as int);
    assert(is_info(m@));
    let mut i: usize = 5;
    while i < n
        invariant
            5 <= i <= n,
            n == m@.len(),
            rest == m@.subrange(5, n as int),
            is_info(m@),
            forall|j: int| 0 <= j < i - 5 ==> rest[j] != '|',
        decreases n - i,
    {
        if m.as_str().get_char(i) == '|' {
            let sender = m.as_str().substring_char(5, i).to_owned();
            let info = m.as_str().substring_char(i + 1, n).to_owned();
            proof {
                let b = i - 5;
                assert(first_bar(rest, b));
                let c = choose|k: int| first_bar(rest, k);
                assert(c == b) by {
                    if c < b {
                        assert(rest[c] != '|');
                    } else if c > b {
                        assert(rest[b] != '|');
                    }
                }
                assert(sender@ =~= rest.subrange(0, b));
                assert(info@ =~= rest.subrange(b + 1, rest.len() as int));
            }
            return Some((sender, info));
        }
        i = i + 1;
    }
    assert(!exists|k: int| first_bar(rest, k));
    None
}

/// The acknowledged peers that an information message goes to: the super
/// peers then the children, for a super peer.
fn send_info_to(out: &mut Vec<Outgoing>, m: &HashMap<PeerId, String>, hs: &HashMap<PeerId, HandshakeState>, payload: &Payload)
    ensures
        old(out)@.len() <= final(out)@.len(),
        final(out)@.subrange(0, old(out)@.len() as int) == old(out)@,
        sends_each(
            packets(final(out)@.subrange(old(out)@.len() as int, final(out)@.len() as int)),
            m@.dom().filter(|p: PeerId| acked(hs@, p)),
            payload@,
        ),
{
    let keys = keys_of(m);
    let targets = filter_acked(&keys, hs);
    send_to_all(out, &targets, None, payload);
    assert(targets@.to_set().filter(|t: PeerId| None::<PeerId> != Some(t)) =~= m@.dom().filter(|p: PeerId| acked(hs@, p)));
}

impl Client {
    /// Send a handshake to `peer` if a handshake with it is under way: its
    /// attempt is recorded and the handshake message queued.
    fn send_handshake(&mut self, peer: PeerId, handshake_msg: &str) -> (r: Option<Outgoing>)
        requires
            old(self)@.handshakes.contains_key(peer) ==> old(self)@.handshakes[peer].attempts < u8::MAX,
        ensures
            !old(self)@.handshakes.contains_key(peer) ==> r is None && final(self)@ == old(self)@,
            old(self)@.handshakes.contains_key(peer) ==> {
                &&& r matches Some(o) && o.to == peer && o.payload@ == PayloadView::Text(handshake_msg@)
                &&& final(self)@ == (ClientView {
                    handshakes: old(self)@.handshakes.insert(
                        peer,
                        HandshakeState {
                            attempts: (old(self)@.handshakes[peer].attempts + 1) as u8,
                            acknowledged: old(self)@.handshakes[peer].acknowledged,
                        },
                    ),
                    ..old(self)@
                })
            },
    {
        match self.peer_handshake_states.get(&peer) {
            None => None,
            Some(h) => {
                let next = HandshakeState { attempts: h.attempts + 1, acknowledged: h.acknowledged };
                self.peer_handshake_states.insert(peer, next);
                Some(Outgoing { to: peer, payload: text(handshake_msg) })
            },
        }
    }

    /// A peer connected: a handshake with it starts; a super peer sends it
    /// the super handshake, a child sends its parent the child handshake.
    pub fn on_peer_connected(&mut self, session: &Session, peer: PeerId) -> (out: Vec<Outgoing>)
        ensures
            final(self)@ == (ClientView {
                handshakes: old(self)@.handshakes.insert(
                    peer,
                    HandshakeState {
                        attempts: if connect_greeting(session.self_role, session.parent_id, peer) is Some {
                            1u8
                        } else {
                            0u8
                        },
                        acknowledged: false,
                    },
                ),
                ..old(self)@
            }),
            packets(out@) == match connect_greeting(session.self_role, session.parent_id, peer) {
                Some(t) => seq![(peer, PayloadView::Text(t))],
                None => Seq::empty(),
            },
    {
        self.peer_handshake_states.insert(peer, HandshakeState { attempts: 0, acknowledged: false });
        let mut out: Vec<Outgoing> = Vec::new();
        let is_super = match session.self_role {
            Some(PeerRole::Super) => true,
            _ => false,
        };
        let sent = if is_super {
            self.send_handshake(peer, "super_handshake")
        } else if session.parent_id == Some(peer) {
            self.send_handshake(peer, "child_handshake")
        } else {
            None
        };
        if let Some(o) = sent {
            out.push(o);
        }
        proof {
            assert(self@ =~= (ClientView {
                handshakes: old(self)@.handshakes.insert(
                    peer,
                    HandshakeState {
                        attempts: if connect_greeting(session.self_role, session.parent_id, peer) is Some {
                            1u8
                        } else {
                            0u8
                        },
                        acknowledged: false,
                    },
                ),
                ..old(self)@
            }));
            assert(packets(out@) =~= match connect_greeting(session.self_role, session.parent_id, peer) {
                Some(t) => seq![(peer, PayloadView::Text(t))],
                None => Seq::empty(),
            });
        }
        out
    }

    /// A peer disconnected: it is forgotten (its time of last contact is
    /// kept), and where it was the parent the role is to be learnt again.
    pub fn on_peer_disconnected(&mut self, session: &mut Session, peer: PeerId)
        ensures
            final(self)@ == (ClientView {
                super_peers: old(self)@.super_peers.remove(peer),
                child_peers: old(self)@.child_peers.remove(peer),
                handshakes: old(self)@.handshakes.remove(peer),
                peer_info: old(self)@.peer_info.remove(peer),
                ..old(self)@
            }),
            final(session).initialized == (old(session).initialized && old(session).parent_id != Some(peer)),
            final(session).parent_id == old(session).parent_id,
            final(session).self_role == old(session).self_role,
    {
        self.forget(peer);
        if session.parent_id == Some(peer) {
            session.initialized = false;
        }
    }

    /// The information messages sent on each turn of the loop, once the
    /// client has an id: a super peer sends its information to every super
    /// peer, then every child, that acknowledged the handshake; a child
    /// sends it to its parent once the parent acknowledged.
    pub fn info_updates(&self, session: &Session, my_id: Option<PeerId>) -> (out: Vec<Outgoing>)
        ensures
            my_id is None || session.self_role is None ==> out@.len() == 0,
            my_id is Some && session.self_role == Some(PeerRole::Super) ==> greets_all(
                packets(out@),
                self@.super_peers.dom().filter(|p: PeerId| acked(self@.handshakes, p)),
                self@.child_peers.dom().filter(|p: PeerId| acked(self@.handshakes, p)),
                PayloadView::Text(info_text(my_id->0, self@.info)),
            ),
            my_id is Some && session.self_role == Some(PeerRole::Child) ==> packets(out@) == (
            if session.parent_id is Some && acked(self@.handshakes, session.parent_id->0) {
                seq![(session.parent_id->0, PayloadView::Text(info_text(my_id->0, self@.info)))]
            } else {
                Seq::empty()
            }),
    {
        let mut out: Vec<Outgoing> = Vec::new();
        let me = match my_id {
            None => {
                return out;
            },
            Some(me) => me,
        };
        match session.self_role {
            Some(PeerRole::Super) => {
                let msg = Payload::Text(info_message(me, &self.info));
                send_info_to(&mut out, &self.super_peers, &self.peer_handshake_states, &msg);
                let ghost out1 = out@;
                send_info_to(&mut out, &self.child_peers, &self.peer_handshake_states, &msg);
                proof {
                    lemma_packets_split(out@, out1.len() as int);
                    assert(out1.subrange(0, 0) =~= Seq::<Outgoing>::empty());
                    assert(out1.subrange(0, out1.len() as int) =~= out1);
                    assert(self@.super_peers.dom() =~= self.super_peers@.dom());
                    assert(self@.child_peers.dom() =~= self.child_peers@.dom());
                }
            },
            Some(PeerRole::Child) => {
                if let Some(parent) = session.parent_id {
                    let ack = match self.peer_handshake_states.get(&parent) {
                        Some(h) => h.acknowledged,
                        None => false,
                    };
                    if ack {
                        out.push(Outgoing { to: parent, payload: Payload::Text(info_message(me, &self.info)) });
                    }
                }
                proof {
                    assert(packets(out@) =~= (if session.parent_id is Some && acked(self@.handshakes, session.parent_id->0) {
                        seq![(session.parent_id->0, PayloadView::Text(info_text(me, self@.info)))]
                    } else {
                        Seq::empty()
                    }));
                }
            },
            None => {},
        }
        out
    }

    /// Mark the handshake with `peer` acknowledged, if one is under way, and
    /// answer with the client's information where its id is known.
    fn acknowledge_and_reply(&mut self, out: &mut Vec<Outgoing>, peer: PeerId, my_id: Option<PeerId>)
        requires
            old(out)@.len() == 0,
        ensures
            final(self)@ == (ClientView { handshakes: acknowledged(old(self)@.handshakes, peer), ..old(self)@ }),
            packets(final(out)@) == if my_id is Some && old(self)@.handshakes.contains_key(peer) {
                seq![(peer, PayloadView::Text(info_text(my_id->0, old(self)@.info)))]
            } else {
                Seq::empty()
            },
    {
        match self.peer_handshake_states.get(&peer) {
            None => {
                assert(packets(out@) =~= Seq::<(PeerId, PayloadView)>::empty());
            },
            Some(h) => {
                let next = HandshakeState { attempts: h.attempts, acknowledged: true };
                self.peer_handshake_states.insert(peer, next);
                if let Some(me) = my_id {
                    out.push(Outgoing { to: peer, payload: Payload::Text(info_message(me, &self.info)) });
                }
                assert(packets(out@) =~= if my_id is Some {
                    seq![(peer, PayloadView::Text(info_text(my_id->0, old(self)@.info)))]
                } else {
                    Seq::empty()
                });
            },
        }
        assert(self@ =~= (ClientView { handshakes: acknowledged(old(self)@.handshakes, peer), ..old(self)@ }));
    }

    /// Pass `packet` from `from` on, as a super peer does: from a child, to
    /// the other children and the super peers; from a super peer, to the
    /// children; from a peer that is neither, nowhere.
    fn forward(&self, out: &mut Vec<Outgoing>, from: PeerId, packet: Vec<u8>, everyone: bool)
        requires
            old(out)@.len() == 0,
        ensures
            everyone ==> greets_all(
                packets(final(out)@),
                self@.child_peers.dom().remove(from),
                self@.super_peers.dom().remove(from),
                PayloadView::Raw(packet@),
            ),
            !everyone && self@.child_peers.contains_key(from) ==> greets_all(
                packets(final(out)@),
                self@.child_peers.dom().remove(from),
                self@.super_peers.dom().remove(from),
                PayloadView::Raw(packet@),
            ),
            !everyone && !self@.child_peers.contains_key(from) && self@.super_peers.contains_key(from) ==> sends_each(
                packets(final(out)@),
                self@.child_peers.dom(),
                PayloadView::Raw(packet@),
            ),
            !everyone && !self@.child_peers.contains_key(from) && !self@.super_peers.contains_key(from)
                ==> final(out)@.len() == 0,
    {
        let raw = Payload::Raw(packet);
        assert(self@.child_peers.dom() =~= self.child_peers@.dom());
        assert(self@.super_peers.dom() =~= self.super_peers@.dom());
        if everyone || self.child_peers.contains_key(&from) {
            let children = keys_of(&self.child_peers);
            send_to_all(out, &children, Some(from), &raw);
            let ghost out1 = out@;
            let supers = keys_of(&self.super_peers);
            send_to_all(out, &supers, Some(from), &raw);
            proof {
                assert(children@.to_set().filter(|t: PeerId| Some(from) != Some(t)) =~= self.child_peers@.dom().remove(from));
                assert(supers@.to_set().filter(|t: PeerId| Some(from) != Some(t)) =~= self.super_peers@.dom().remove(from));
                lemma_packets_split(out@, out1.len() as int);
                assert(out1.subrange(0, 0) =~= Seq::<Outgoing>::empty());
                assert(out1.subrange(0, out1.len() as int) =~= out1);
            }
        } else if self.super_peers.contains_key(&from) {
            let children = keys_of(&self.child_peers);
            send_to_all(out, &children, None, &raw);
            proof {
                assert(children@.to_set().filter(|t: PeerId| None::<PeerId> != Some(t)) =~= self.child_peers@.dom());
                assert(out@.subrange(0, out@.len() as int) =~= out@);
                lemma_packets_split(out@, 0);
            }
        }
    }

    /// A packet came from `from`, at `now`. An information message is
    /// recorded with its time, and a super peer passes it on to all but the
    /// sender; handshakes are recorded and acknowledged; acknowledgements
    /// recorded and answered with the client's information; anything else a
    /// super peer forwards (see `packet_effect`).
    pub fn on_packet(&mut self, session: &Session, from: PeerId, packet: Vec<u8>, my_id: Option<PeerId>, now: u64) -> (out: Vec<Outgoing>)
        ensures
            packet_effect(old(self)@, final(self)@, session.self_role, from, packet@, my_id, now, packets(out@)),
            forall|me: PeerId, line: Seq<char>|
                utf8_lossy(packet@) == #[trigger] info_text(me, line) ==> final(self)@.peer_info == old(
                    self,
                )@.peer_info.insert(me, line) && final(self)@.last_seen == old(self)@.last_seen.insert(me, now),
            parsed_info(utf8_lossy(packet@)) matches Some((id, line)) ==> final(self)@.peer_info == old(
                self,
            )@.peer_info.insert(id, line),
            session.self_role == Some(PeerRole::Super) && parsed_info(utf8_lossy(packet@)) is Some ==> passes_on(
                packets(out@),
                old(self)@.child_peers.dom().remove(from),
                old(self)@.super_peers.dom().remove(from),
                PayloadView::Raw(packet@),
            ),
            session.self_role == Some(PeerRole::Super) && is_game_packet(utf8_lossy(packet@))
                && old(self)@.super_peers.contains_key(from) && !old(self)@.child_peers.contains_key(from)
                ==> final(self)@ == old(self)@ && delivers_once(
                packets(out@),
                old(self)@.child_peers.dom(),
                PayloadView::Raw(packet@),
            ),
            session.self_role == Some(PeerRole::Super) && is_game_packet(utf8_lossy(packet@))
                && old(self)@.child_peers.contains_key(from) ==> final(self)@ == old(self)@ && passes_on(
                packets(out@),
                old(self)@.child_peers.dom().remove(from),
                old(self)@.super_peers.dom().remove(from),
                PayloadView::Raw(packet@),
            ),
    {
        let ghost bytes = packet@;
        let ghost c0 = self@;
        proof {
            assert(c0.child_peers.dom() =~= old(self).child_peers@.dom());
            assert(c0.super_peers.dom() =~= old(self).super_peers@.dom());
        }
        let message = lossy_text(&packet);
        let is_super = match session.self_role {
            Some(PeerRole::Super) => true,
            _ => false,
        };
        let mut out: Vec<Outgoing> = Vec::new();
        let info_msg = message.as_str().unicode_len() >= 5 && message.as_str().substring_char(0, 5).to_owned().eq(
            &"info|".to_owned(),
        );
        assert(info_msg == is_info(message@));
        proof {
            if !info_msg {
                assert forall|me: PeerId, line: Seq<char>| message@ != #[trigger] info_text(me, line) by {
                    law_info_message_fields(me, line);
                }
            }
        }
        if info_msg {
            match split_info(&message) {
                None => {
                    proof {
                        assert forall|me: PeerId, line: Seq<char>| message@ != #[trigger] info_text(me, line) by {
                            law_info_message_fields(me, line);
                        }
                    }
                },
                Some((sender, info)) => {
                    proof {
                        assert forall|me: PeerId, line: Seq<char>|
                            message@ == #[trigger] info_text(me, line) implies sender@ == uuid_text(me) && info@ == line by {
                            law_info_message_fields(me, line);
                        }
                    }
                    match parse_peer_id(sender.as_str()) {
                        None => {},
                        Some(id) => {
                            self.peer_info.insert(id, info);
                            self.last_seen.insert(id, now);
                            assert(infos(self.peer_info@) =~= infos(old(self).peer_info@).insert(id, info@));
                            if is_super {
                                self.forward(&mut out, from, packet, true);
                            }
                        },
                    }
                },
            }
            proof {
                assert(is_info(utf8_lossy(packet@)));
                assert(self@ =~= old(self)@ || info_fields(message@) is Some);
            }
        } else if message.eq(&"super_handshake".to_owned()) {
            if is_super {
                self.super_peers.insert(from, "OtherSuperPeer".to_owned());
            } else {
                self.super_peers.insert(from, "SuperPeerInfo".to_owned());
            }
            out.push(Outgoing { to: from, payload: text("super_handshake_ack") });
            proof {
                assert(infos(self.super_peers@) =~= infos(old(self).super_peers@).insert(
                    from,
                    if is_super { "OtherSuperPeer"@ } else { "SuperPeerInfo"@ },
                ));
                assert(packets(out@) =~= seq![(from, PayloadView::Text("super_handshake_ack"@))]);
            }
        } else if message.eq(&"super_handshake_ack".to_owned()) {
            if is_super {
                self.acknowledge_and_reply(&mut out, from, my_id);
                self.super_peers.insert(from, "OtherSuperPeer".to_owned());
                assert(infos(self.super_peers@) =~= infos(old(self).super_peers@).insert(from, "OtherSuperPeer"@));
            } else {
                assert(packets(out@) =~= Seq::<(PeerId, PayloadView)>::empty());
            }
        } else if message.eq(&"child_handshake".to_owned()) {
            self.child_peers.insert(from, "ChildPeerInfo".to_owned());
            out.push(Outgoing { to: from, payload: text("child_handshake_ack") });
            proof {
                assert(infos(self.child_peers@) =~= infos(old(self).child_peers@).insert(from, "ChildPeerInfo"@));
                assert(packets(out@) =~= seq![(from, PayloadView::Text("child_handshake_ack"@))]);
            }
        } else if message.eq(&"child_handshake_ack".to_owned()) {
            self.acknowledge_and_reply(&mut out, from, my_id);
        } else if is_super {
            self.forward(&mut out, from, packet, false);
        }
        proof {
            let o = packets(out@);
            assert(packet_effect(c0, self@, session.self_role, from, bytes, my_id, now, o));
            if session.self_role == Some(PeerRole::Super) {
                if parsed_info(utf8_lossy(bytes)) is Some {
                    law_super_shares_info(c0, self@, from, bytes, my_id, now, o);
                }
                if is_game_packet(utf8_lossy(bytes)) && c0.super_peers.contains_key(from) && !c0.child_peers.contains_key(
                    from,
                ) {
                    law_super_relays_to_children(c0, self@, from, bytes, my_id, now, o);
                }
                if is_game_packet(utf8_lossy(bytes)) && c0.child_peers.contains_key(from) {
                    law_super_relays_from_child(c0, self@, from, bytes, my_id, now, o);
                }
            }
        }
        out
    }

    /// Send the handshake again to each peer of `due`, in turn, as the role
    /// asks (see `retry_greeting`); each such handshake counts one attempt more.
    pub fn retry_handshakes(&mut self, session: &Session, due: &Vec<PeerId>) -> (out: Vec<Outgoing>)
        requires
            due@.no_duplicates(),
            forall|i: int|
                0 <= i < due@.len() && old(self)@.handshakes.contains_key(#[trigger] due@[i])
                    ==> old(self)@.handshakes[due@[i]].attempts < u8::MAX,
        ensures
            final(self)@ == (ClientView {
                handshakes: retried_states(old(self)@.handshakes, due@.to_set(), session.self_role, session.parent_id),
                ..old(self)@
            }),
            packets(out@) == retries(due@, session.self_role, session.parent_id, old(self)@.handshakes.dom()),
    {
        let ghost c0 = self@;
        let ghost h0 = self@.handshakes;
        let ghost role = session.self_role;
        let ghost parent = session.parent_id;
        let mut out: Vec<Outgoing> = Vec::new();
        let mut i: usize = 0;
        proof {
            assert(h0 =~= retried_states(h0, due@.subrange(0, 0).to_set(), role, parent));
            assert(self@ =~= (ClientView { handshakes: retried_states(h0, due@.subrange(0, 0).to_set(), role, parent), ..c0 }));
            assert(retries(due@.subrange(0, 0), role, parent, h0.dom()) =~= Seq::<(PeerId, PayloadView)>::empty());
        }
        while i < due.len()
            invariant
                i <= due@.len(),
                due@.no_duplicates(),
                forall|j: int|
                    0 <= j < due@.len() && h0.contains_key(#[trigger] due@[j]) ==> h0[due@[j]].attempts < u8::MAX,
                role == session.self_role,
                parent == session.parent_id,
                c0 == old(self)@,
                h0 == c0.handshakes,
                self@ == (ClientView {
                    handshakes: retried_states(h0, due@.subrange(0, i as int).to_set(), role, parent),
                    ..c0
                }),
                packets(out@) == retries(due@.subrange(0, i as int), role, parent, h0.dom()),
            decreases due@.len() - i,
        {
            let peer = due[i];
            let ghost before = self@.handshakes;
            let ghost pre = due@.subrange(0, i as int);
            assert(!pre.to_set().contains(peer)) by {
                if pre.to_set().contains(peer) {
                    let j = choose|j: int| 0 <= j < pre.len() && pre[j] == peer;
                    assert(due@[j] == due@[i as int]);
                }
            }
            assert(before.contains_key(peer) ==> before[peer] == h0[peer]);
            let is_super = match session.self_role {
                Some(PeerRole::Super) => true,
                _ => false,
            };
            let is_child = match session.self_role {
                Some(PeerRole::Child) => true,
                _ => false,
            };
            let sent = if is_super {
                self.send_handshake(peer, "super_handshake")
            } else if is_child && session.parent_id == Some(peer) {
                self.send_handshake(peer, "child_handshake")
            } else {
                None
            };
            if let Some(o) = sent {
                out.push(o);
            }
            proof {
                let next = due@.subrange(0, i + 1);
                assert(next.drop_last() =~= pre);
                assert(next.last() == peer);
                assert(next.to_set() =~= pre.to_set().insert(peer)) by {
                    assert forall|x: PeerId| next.to_set().contains(x) implies pre.to_set().insert(peer).contains(x) by {
                        let j = choose|j: int| 0 <= j < next.len() && next[j] == x;
                        if j < pre.len() {
                            assert(pre[j] == x);
                        }
                    }
                    assert forall|x: PeerId| pre.to_set().insert(peer).contains(x) implies next.to_set().contains(x) by {
                        if x == peer {
                            assert(next[i as int] == x);
                        } else {
                            let j = choose|j: int| 0 <= j < pre.len() && pre[j] == x;
                            assert(next[j] == x);
                        }
                    }
                }
                let want = retried_states(h0, next.to_set(), role, parent);
                let had = retried_states(h0, pre.to_set(), role, parent);
                assert(before == had);
                assert forall|k: PeerId| #[trigger] self@.handshakes.contains_key(k) implies self@.handshakes[k] == want[k] by {
                    if k != peer {
                        assert(had[k] == want[k]);
                    } else if retry_greeting(role, parent, peer) is Some {
                        assert(before[peer] == h0[peer]);
                    } else {
                        assert(sent is None);
                    }
                }
                assert(self@.handshakes =~= want);
                assert(self@ =~= (ClientView { handshakes: want, ..c0 }));
                assert(packets(out@) =~= retries(next, role, parent, h0.dom()));
            }
            i = i + 1;
        }
        assert(due@.subrange(0, due@.len() as int) =~= due@);
        out
    }

    /// Forget every peer silent too long at `now` (see `silenced`).
    pub fn forget_silent(&mut self, now: u64)
        ensures
            final(self)@ == silenced(old(self)@, now),
            forall|p: PeerId|
                #[trigger] old(self)@.peer_info.contains_key(p) && (!old(self)@.last_seen.contains_key(p) || !silent(
                    now,
                    old(self)@.last_seen[p],
                )) ==> final(self)@.peer_info.contains_key(p) && final(self)@.peer_info[p] == old(self)@.peer_info[p],
    {
        let ghost c0 = self@;
        let keys = keys_of(&self.last_seen);
        let mut gone: Vec<PeerId> = Vec::new();
        let mut i: usize = 0;
        while i < keys.len()
            invariant
                i <= keys@.len(),
                keys@.no_duplicates(),
                keys@.to_set() == self.last_seen@.dom(),
                gone@.to_set() == keys@.take(i as int).to_set().filter(|p: PeerId| silent(now, self.last_seen@[p])),
            decreases keys@.len() - i,
        {
            let k = keys[i];
            proof {
                assert(keys@.take(i + 1) =~= keys@.take(i as int).push(k));
                keys@.take(i as int).lemma_push_to_set_commute(k);
                assert(keys@.to_set().contains(k));
            }
            let t = *self.last_seen.get(&k).unwrap();
            let ghost g0 = gone@;
            if now > t && now - t > SILENCE_LIMIT_MS {
                gone.push(k);
                proof {
                    g0.lemma_push_to_set_commute(k);
                }
            }
            assert(gone@.to_set() =~= keys@.take(i + 1).to_set().filter(|p: PeerId| silent(now, self.last_seen@[p])));
            i = i + 1;
        }
        proof {
            assert(keys@.take(keys@.len() as int) =~= keys@);
            assert(gone@.to_set() =~= silent_peers(c0, now));
        }
        let ghost gone_set = gone@.to_set();
        let mut j: usize = 0;
        proof {
            assert(gone@.take(0).to_set() =~= Set::<PeerId>::empty());
            assert(self@ =~= (ClientView {
                super_peers: c0.super_peers.remove_keys(Set::empty()),
                child_peers: c0.child_peers.remove_keys(Set::empty()),
                peer_info: c0.peer_info.remove_keys(Set::empty()),
                handshakes: c0.handshakes.remove_keys(Set::empty()),
                last_seen: c0.last_seen.remove_keys(Set::empty()),
                ..c0
            }));
        }
        while j < gone.len()
            invariant
                j <= gone@.len(),
                c0 == old(self)@,
                self@ == (ClientView {
                    super_peers: c0.super_peers.remove_keys(gone@.take(j as int).to_set()),
                    child_peers: c0.child_peers.remove_keys(gone@.take(j as int).to_set()),
                    peer_info: c0.peer_info.remove_keys(gone@.take(j as int).to_set()),
                    handshakes: c0.handshakes.remove_keys(gone@.take(j as int).to_set()),
                    last_seen: c0.last_seen.remove_keys(gone@.take(j as int).to_set()),
                    ..c0
                }),
            decreases gone@.len() - j,
        {
            let p = gone[j];
            self.forget(p);
            self.last_seen.remove(&p);
            proof {
                let s0 = gone@.take(j as int).to_set();
                assert(gone@.take(j + 1) =~= gone@.take(j as int).push(p));
                gone@.take(j as int).lemma_push_to_set_commute(p);
                let s1 = gone@.take(j + 1).to_set();
                assert(s1 =~= s0.insert(p));
                assert(c0.super_peers.remove_keys(s0).remove(p) =~= c0.super_peers.remove_keys(s1));
                assert(c0.child_peers.remove_keys(s0).remove(p) =~= c0.child_peers.remove_keys(s1));
                assert(c0.peer_info.remove_keys(s0).remove(p) =~= c0.peer_info.remove_keys(s1));
                assert(c0.handshakes.remove_keys(s0).remove(p) =~= c0.handshakes.remove_keys(s1));
                assert(c0.last_seen.remove_keys(s0).remove(p) =~= c0.last_seen.remove_keys(s1));
                assert(self@ =~= (ClientView {
                    super_peers: c0.super_peers.remove_keys(s1),
                    child_peers: c0.child_peers.remove_keys(s1),
                    peer_info: c0.peer_info.remove_keys(s1),
                    handshakes: c0.handshakes.remove_keys(s1),
                    last_seen: c0.last_seen.remove_keys(s1),
                    ..c0
                }));
            }
            j = j + 1;
        }
        proof {
            assert(gone@.take(gone@.len() as int) =~= gone@);
            assert(self@ =~= silenced(c0, now));
            law_quiet_peers_are_kept(c0, now);
        }
    }

    /// The retry timer fired at `now`: every pending handshake (see
    /// `pending`) is sent again as the role asks, in the order the map is
    /// walked, then the peers silent too long are forgotten.
    pub fn on_timeout(&mut self, session: &Session, now: u64) -> (out: Vec<Outgoing>)
        ensures
            final(self)@ == silenced(
                ClientView {
                    handshakes: retried_states(
                        old(self)@.handshakes,
                        old(self)@.handshakes.dom().filter(|p: PeerId| pending(old(self)@.handshakes[p])),
                        session.self_role,
                        session.parent_id,
                    ),
                    ..old(self)@
                },
                now,
            ),
            exists|due: Seq<PeerId>|
                {
                    &&& due.no_duplicates()
                    &&& due.to_set() == old(self)@.handshakes.dom().filter(|p: PeerId| pending(old(self)@.handshakes[p]))
                    &&& packets(out@) == retries(due, session.self_role, session.parent_id, old(self)@.handshakes.dom())
                },
            forall|p: PeerId|
                #[trigger] old(self)@.peer_info.contains_key(p) && (!old(self)@.last_seen.contains_key(p) || !silent(
                    now,
                    old(self)@.last_seen[p],
                )) ==> final(self)@.peer_info.contains_key(p) && final(self)@.peer_info[p] == old(self)@.peer_info[p],
    {
        let due = pending_peers(&self.peer_handshake_states);
        proof {
            assert forall|i: int|
                0 <= i < due@.len() && self@.handshakes.contains_key(#[trigger] due@[i]) implies self@.handshakes[due@[i]].attempts
                < u8::MAX by {
                assert(due@.to_set().contains(due@[i]));
            }
        }
        let out = self.retry_handshakes(session, &due);
        self.forget_silent(now);
        out
    }
}

} // verus!
