//! The network agent's bookkeeping: which peers are known, with the
//! distinction that each join produced, and counts of network events.
//!
//! Each event but a peer leaving becomes a network action, which the agent's
//! owner synthesizes with the agent's local root; the resulting distinction
//! becomes the new local root, and a joining peer's distinction is also
//! folded into the peers aggregate.

use vstd::prelude::*;
use crate::network::PeerStatus;
use crate::processes::distillation::{wrap_add, wrapping_add};
use crate::strings::str_eq;

verus! {

/// Statistics for network operations.
#[derive(Debug, Clone)]
pub struct NetworkStats {
    pub peers_joined: u64,
    pub peers_left: u64,
    pub syncs_completed: u64,
    pub messages_received: u64,
    pub current_peers: u64,
}

/// A network occurrence to record.
#[derive(Debug)]
pub enum NetworkEvent {
    /// A peer joined the cluster (its node ID and address, as text).
    PeerJoined { node_id: String, address: String },
    /// A peer left or was removed.
    PeerLeft { node_id: String },
    /// A peer's status changed.
    PeerStatusChanged { node_id: String, status: PeerStatus },
    /// Synchronization completed with a peer.
    SyncCompleted { peer_id: String, updates_count: usize },
    /// A message was received from a peer.
    MessageReceived { from: String, message_type: String },
    /// Gossip exchanged state with a peer.
    GossipExchanged { peer_id: String, their_peer_count: usize },
    /// This node joined a cluster through a peer (its address, as text).
    SelfJoined { via_peer: String },
}

/// A network action to synthesize.
#[derive(Debug)]
pub enum NetworkAction {
    /// Joining through a peer address.
    Join { peer_address: String },
    /// A state change to reconcile.
    Reconcile { difference_ids: Vec<String> },
    /// Synchronizing with a peer.
    Synchronize { peer_id: String },
    /// A broadcast message (sender and type).
    Broadcast { from: String, message_type: String },
    /// Gossiped state (peer and the number of peers it knows).
    Gossip { peer_id: String, their_peer_count: usize },
}

/// The name of a status, as `{:?}` writes it.
pub open spec fn status_name(s: PeerStatus) -> Seq<char> {
    match s {
        PeerStatus::Unknown => seq!['U', 'n', 'k', 'n', 'o', 'w', 'n'],
        PeerStatus::Healthy => seq!['H', 'e', 'a', 'l', 't', 'h', 'y'],
        PeerStatus::Syncing => seq!['S', 'y', 'n', 'c', 'i', 'n', 'g'],
        PeerStatus::Unreachable => seq!['U', 'n', 'r', 'e', 'a', 'c', 'h', 'a', 'b', 'l', 'e'],
    }
}

/// Whether an event is turned into an action (all but a peer leaving).
pub open spec fn has_action(e: NetworkEvent) -> bool {
    !(e is PeerLeft)
}

/// Whether `a` is the action for event `e`.
pub open spec fn action_matches(e: NetworkEvent, a: NetworkAction) -> bool {
    match e {
        NetworkEvent::PeerJoined { address, .. } => match a {
            NetworkAction::Join { peer_address } => peer_address@ == address@,
            _ => false,
        },
        NetworkEvent::SelfJoined { via_peer } => match a {
            NetworkAction::Join { peer_address } => peer_address@ == via_peer@,
            _ => false,
        },
        NetworkEvent::PeerStatusChanged { node_id, status } => match a {
            NetworkAction::Reconcile { difference_ids } => difference_ids@.len() == 1
                && difference_ids@[0]@ == node_id@ + seq![':'] + status_name(status),
            _ => false,
        },
        NetworkEvent::SyncCompleted { peer_id, .. } => match a {
            NetworkAction::Synchronize { peer_id: p } => p@ == peer_id@,
            _ => false,
        },
        NetworkEvent::MessageReceived { from, message_type } => match a {
            NetworkAction::Broadcast { from: f, message_type: t } => f@ == from@ && t@ == message_type@,
            _ => false,
        },
        NetworkEvent::GossipExchanged { peer_id, their_peer_count } => match a {
            NetworkAction::Gossip { peer_id: p, their_peer_count: n } => p@ == peer_id@ && n == their_peer_count,
            _ => false,
        },
        NetworkEvent::PeerLeft { .. } => false,
    }
}

/// The name of a status.
fn status_text(s: PeerStatus) -> (r: &'static str)
    ensures
        r@ == status_name(s),
{
    proof {
        reveal_strlit("Unknown");
        reveal_strlit("Healthy");
        reveal_strlit("Syncing");
        reveal_strlit("Unreachable");
    }
    match s {
        PeerStatus::Unknown => "Unknown",
        PeerStatus::Healthy => "Healthy",
        PeerStatus::Syncing => "Syncing",
        PeerStatus::Unreachable => "Unreachable",
    }
}

/// The action that an event becomes (none for a peer leaving).
pub fn action_for(event: &NetworkEvent) -> (r: Option<NetworkAction>)
    ensures
        (r is Some) == has_action(*event),
        match r {
            Some(a) => action_matches(*event, a),
            None => true,
        },
{
    match event {
        NetworkEvent::PeerJoined { address, .. } => Some(NetworkAction::Join { peer_address: address.clone() }),
        NetworkEvent::PeerLeft { .. } => None,
        NetworkEvent::PeerStatusChanged { node_id, status } => {
            let mut id = node_id.clone();
            proof {
                reveal_strlit(":");
            }
            id.append(":");
            id.append(status_text(*status));
            proof {
                assert(id@ =~= node_id@ + seq![':'] + status_name(*status));
            }
            let mut ids: Vec<String> = Vec::new();
            ids.push(id);
            Some(NetworkAction::Reconcile { difference_ids: ids })
        },
        NetworkEvent::SyncCompleted { peer_id, .. } => Some(NetworkAction::Synchronize { peer_id: peer_id.clone() }),
        NetworkEvent::MessageReceived { from, message_type } => Some(
            NetworkAction::Broadcast { from: from.clone(), message_type: message_type.clone() },
        ),
        NetworkEvent::GossipExchanged { peer_id, their_peer_count } => Some(
            NetworkAction::Gossip { peer_id: peer_id.clone(), their_peer_count: *their_peer_count },
        ),
        NetworkEvent::SelfJoined { via_peer } => Some(NetworkAction::Join { peer_address: via_peer.clone() }),
    }
}

/// The map that a list of (peer, distinction) pairs holds.
pub open spec fn pair_map(s: Seq<(String, String)>) -> Map<Seq<char>, Seq<char>>
    decreases s.len(),
{
    if s.len() == 0 {
        Map::empty()
    } else {
        pair_map(s.drop_last()).insert(s.last().0@, s.last().1@)
    }
}

/// Whether no two pairs share a peer.
pub open spec fn distinct_peers(s: Seq<(String, String)>) -> bool {
    forall|a: int, b: int| 0 <= a < b < s.len() ==> (#[trigger] s[a]).0@ != (#[trigger] s[b]).0@
}

/// With distinct peers, the map holds each pair and nothing else, one key per pair.
proof fn lemma_pair_map(s: Seq<(String, String)>)
    requires
        distinct_peers(s),
    ensures
        pair_map(s).dom().finite(),
        pair_map(s).dom().len() == s.len(),
        forall|k: Seq<char>| #[trigger] pair_map(s).contains_key(k) <==> exists|i: int| 0 <= i < s.len() && (#[trigger] s[i]).0@ == k,
        forall|i: int| 0 <= i < s.len() ==> #[trigger] pair_map(s)[s[i].0@] == s[i].1@,
    decreases s.len(),
{
    if s.len() > 0 {
        let t = s.drop_last();
        assert(distinct_peers(t)) by {
            assert forall|a: int, b: int| 0 <= a < b < t.len() implies (#[trigger] t[a]).0@ != (#[trigger] t[b]).0@ by {
                assert(t[a] == s[a] && t[b] == s[b]);
            }
        }
        lemma_pair_map(t);
        let last = s.last();
        assert(!pair_map(t).contains_key(last.0@)) by {
            if pair_map(t).contains_key(last.0@) {
                let i = choose|i: int| 0 <= i < t.len() && (#[trigger] t[i]).0@ == last.0@;
                assert(s[i] == t[i]);
                assert(s[s.len() - 1] == last);
            }
        }
        assert forall|k: Seq<char>| #[trigger] pair_map(s).contains_key(k) <==> exists|i: int| 0 <= i < s.len() && (#[trigger] s[i]).0@ == k by {
            if pair_map(s).contains_key(k) && k != last.0@ {
                let i = choose|i: int| 0 <= i < t.len() && (#[trigger] t[i]).0@ == k;
                assert(s[i] == t[i]);
            }
            if k == last.0@ {
                assert(s[s.len() - 1].0@ == k);
            }
            if exists|i: int| 0 <= i < s.len() && (#[trigger] s[i]).0@ == k {
                let i = choose|i: int| 0 <= i < s.len() && (#[trigger] s[i]).0@ == k;
                if i < s.len() - 1 {
                    assert(t[i] == s[i]);
                }
            }
        }
        assert forall|i: int| 0 <= i < s.len() implies #[trigger] pair_map(s)[s[i].0@] == s[i].1@ by {
            if i < s.len() - 1 {
                assert(t[i] == s[i]);
                assert(s[i].0@ != last.0@);
            }
        }
    }
}

/// Network agent bookkeeping: local root, peers aggregate, the peers known
/// with their distinctions, and event counts.
#[derive(Debug)]
pub struct NetworkAgent {
    node_id: String,
    local_root: String,
    peers: String,
    peer_distinctions: Vec<(String, String)>,
    peers_joined: u64,
    peers_left: u64,
    syncs_completed: u64,
    messages_received: u64,
}

impl NetworkAgent {
    /// The ID of the local root distinction.
    pub closed spec fn root(&self) -> Seq<char> {
        self.local_root@
    }

    /// The ID of the peers aggregate distinction.
    pub closed spec fn peers_root(&self) -> Seq<char> {
        self.peers@
    }

    /// The known peers, each with the distinction its join produced.
    pub closed spec fn peer_map(&self) -> Map<Seq<char>, Seq<char>> {
        pair_map(self.peer_distinctions@)
    }

    /// Counts: peers joined, peers left, syncs completed, messages received.
    pub closed spec fn counts(&self) -> (u64, u64, u64, u64) {
        (self.peers_joined, self.peers_left, self.syncs_completed, self.messages_received)
    }

    /// The node's ID.
    pub closed spec fn node(&self) -> Seq<char> {
        self.node_id@
    }

    /// Each peer is listed once.
    pub closed spec fn wf(&self) -> bool {
        distinct_peers(self.peer_distinctions@)
    }

    /// An agent for node `node_id` whose local root is `local_root`; the
    /// peers aggregate starts as the local root.
    pub fn new(node_id: String, local_root: String) -> (a: Self)
        ensures
            a.wf(),
            a.node() == node_id@,
            a.root() == local_root@,
            a.peers_root() == local_root@,
            a.peer_map() == Map::<Seq<char>, Seq<char>>::empty(),
            a.counts() == (0u64, 0u64, 0u64, 0u64),
    {
        let peers = local_root.clone();
        NetworkAgent {
            node_id,
            local_root,
            peers,
            peer_distinctions: Vec::new(),
            peers_joined: 0,
            peers_left: 0,
            syncs_completed: 0,
            messages_received: 0,
        }
    }

    /// This node's ID.
    pub fn node_id(&self) -> (r: &String)
        ensures
            r@ == self.node(),
    {
        &self.node_id
    }

    /// The ID of the local root distinction.
    pub fn local_root(&self) -> (r: String)
        ensures
            r@ == self.root(),
    {
        self.local_root.clone()
    }

    /// The ID of the peers aggregate distinction.
    pub fn peers_distinction(&self) -> (r: String)
        ensures
            r@ == self.peers_root(),
    {
        self.peers.clone()
    }

    /// The position of a peer in the list.
    fn peer_position(&self, peer_id: &str) -> (r: Option<usize>)
        requires
            self.wf(),
        ensures
            match r {
                Some(p) => p < self.peer_distinctions@.len() && self.peer_distinctions@[p as int].0@ == peer_id@,
                None => !self.peer_map().contains_key(peer_id@),
            },
    {
        proof {
            lemma_pair_map(self.peer_distinctions@);
        }
        let mut p: usize = 0;
        while p < self.peer_distinctions.len()
            invariant
                p <= self.peer_distinctions@.len(),
                forall|q: int| 0 <= q < p ==> (#[trigger] self.peer_distinctions@[q]).0@ != peer_id@,
            decreases self.peer_distinctions@.len() - p,
        {
            if str_eq(self.peer_distinctions[p].0.as_str(), peer_id) {
                return Some(p);
            }
            p = p + 1;
        }
        None
    }

    /// The distinction a peer's join produced, if the peer is known.
    pub fn get_peer_distinction(&self, peer_id: &str) -> (r: Option<String>)
        requires
            self.wf(),
        ensures
            match r {
                Some(d) => self.peer_map().contains_key(peer_id@) && d@ == self.peer_map()[peer_id@],
                None => !self.peer_map().contains_key(peer_id@),
            },
    {
        proof {
            lemma_pair_map(self.peer_distinctions@);
        }
        match self.peer_position(peer_id) {
            Some(p) => Some(self.peer_distinctions[p].1.clone()),
            None => None,
        }
    }

    /// Record an event. An event with an action comes with `new_root`, what
    /// synthesizing the action with the local root gave; a peer joining also
    /// comes with `new_peers`, what folding that into the peers aggregate gave.
    pub fn handle_event(&mut self, event: &NetworkEvent, new_root: Option<String>, new_peers: Option<String>)
        requires
            old(self).wf(),
            (new_root is Some) == has_action(*event),
            (new_peers is Some) == (*event is PeerJoined),
        ensures
            final(self).wf(),
            final(self).node() == old(self).node(),
            match new_root {
                Some(r) => final(self).root() == r@,
                None => final(self).root() == old(self).root(),
            },
            match new_peers {
                Some(p) => final(self).peers_root() == p@,
                None => final(self).peers_root() == old(self).peers_root(),
            },
            match *event {
                NetworkEvent::PeerJoined { node_id, .. } => {
                    &&& final(self).peer_map() == old(self).peer_map().insert(node_id@, final(self).root())
                    &&& final(self).counts() == (wrap_add(old(self).counts().0, 1), old(self).counts().1,
                        old(self).counts().2, old(self).counts().3)
                },
                NetworkEvent::PeerLeft { node_id } => {
                    &&& final(self).peer_map() == old(self).peer_map().remove(node_id@)
                    &&& final(self).counts() == (old(self).counts().0,
                        if old(self).peer_map().contains_key(node_id@) { wrap_add(old(self).counts().1, 1) } else { old(self).counts().1 },
                        old(self).counts().2, old(self).counts().3)
                },
                NetworkEvent::SyncCompleted { updates_count, .. } => {
                    &&& final(self).peer_map() == old(self).peer_map()
                    &&& final(self).counts() == (old(self).counts().0, old(self).counts().1,
                        if updates_count > 0 { wrap_add(old(self).counts().2, 1) } else { old(self).counts().2 },
                        old(self).counts().3)
                },
                NetworkEvent::MessageReceived { .. } => {
                    &&& final(self).peer_map() == old(self).peer_map()
                    &&& final(self).counts() == (old(self).counts().0, old(self).counts().1, old(self).counts().2,
                        wrap_add(old(self).counts().3, 1))
                },
                _ => {
                    &&& final(self).peer_map() == old(self).peer_map()
                    &&& final(self).counts() == old(self).counts()
                },
            },
    {
        proof {
            lemma_pair_map(self.peer_distinctions@);
        }
        match new_root {
            Some(r) => {
                self.local_root = r;
            },
            None => {},
        }
        match new_peers {
            Some(p) => {
                self.peers = p;
            },
            None => {},
        }
        match event {
            NetworkEvent::PeerJoined { node_id, .. } => {
                let root = self.local_root.clone();
                let ghost s = self.peer_distinctions@;
                match self.peer_position(node_id.as_str()) {
                    Some(p) => {
                        self.peer_distinctions.set(p, (node_id.clone(), root));
                        proof {
                            let t = self.peer_distinctions@;
                            assert(t == s.update(p as int, t[p as int]));
                            assert(distinct_peers(t)) by {
                                assert forall|a: int, b: int| 0 <= a < b < t.len() implies (#[trigger] t[a]).0@ != (#[trigger] t[b]).0@ by {
                                    assert(s[a].0@ == t[a].0@ && s[b].0@ == t[b].0@);
                                }
                            }
                            lemma_pair_map(t);
                            assert(pair_map(t) =~= pair_map(s).insert(node_id@, self.local_root@)) by {
                                assert forall|k: Seq<char>| #[trigger] pair_map(t).contains_key(k)
                                    == pair_map(s).insert(node_id@, self.local_root@).contains_key(k) by {
                                    if pair_map(t).contains_key(k) {
                                        let i = choose|i: int| 0 <= i < t.len() && (#[trigger] t[i]).0@ == k;
                                        assert(s[i].0@ == k);
                                    }
                                    if pair_map(s).contains_key(k) {
                                        let i = choose|i: int| 0 <= i < s.len() && (#[trigger] s[i]).0@ == k;
                                        assert(t[i].0@ == k);
                                    }
                                    if k == node_id@ {
                                        assert(t[p as int].0@ == k);
                                    }
                                }
                                assert forall|k: Seq<char>| #[trigger] pair_map(t).contains_key(k)
                                    implies pair_map(t)[k] == pair_map(s).insert(node_id@, self.local_root@)[k] by {
                                    let i = choose|i: int| 0 <= i < t.len() && (#[trigger] t[i]).0@ == k;
                                    if i != p {
                                        assert(t[i] == s[i]);
                                    }
                                }
                            }
                        }
                    },
                    None => {
                        self.peer_distinctions.push((node_id.clone(), root));
                        proof {
                            let t = self.peer_distinctions@;
                            assert(t.drop_last() =~= s);
                            assert(distinct_peers(t)) by {
                                assert forall|a: int, b: int| 0 <= a < b < t.len() implies (#[trigger] t[a]).0@ != (#[trigger] t[b]).0@ by {
                                    if b == t.len() - 1 {
                                        assert(t[a] == s[a]);
                                        assert(pair_map(s).contains_key(s[a].0@));
                                    } else {
                                        assert(t[a] == s[a] && t[b] == s[b]);
                                    }
                                }
                            }
                        }
                    },
                }
                self.peers_joined = wrapping_add(self.peers_joined, 1);
            },
            NetworkEvent::PeerLeft { node_id } => {
                let ghost s = self.peer_distinctions@;
                match self.peer_position(node_id.as_str()) {
                    Some(p) => {
                        self.peer_distinctions.remove(p);
                        proof {
                            let t = self.peer_distinctions@;
                            assert(t == s.remove(p as int));
                            assert(distinct_peers(t)) by {
                                assert forall|a: int, b: int| 0 <= a < b < t.len() implies (#[trigger] t[a]).0@ != (#[trigger] t[b]).0@ by {
                                    let a2 = if a < p { a } else { a + 1 };
                                    let b2 = if b < p { b } else { b + 1 };
                                    assert(t[a] == s[a2] && t[b] == s[b2]);
                                }
                            }
                            lemma_pair_map(t);
                            assert(pair_map(s).contains_key(node_id@)) by {
                                assert(s[p as int].0@ == node_id@);
                            }
                            assert(pair_map(t) =~= pair_map(s).remove(node_id@)) by {
                                assert forall|k: Seq<char>| #[trigger] pair_map(t).contains_key(k)
                                    == pair_map(s).remove(node_id@).contains_key(k) by {
                                    if pair_map(t).contains_key(k) {
                                        let i = choose|i: int| 0 <= i < t.len() && (#[trigger] t[i]).0@ == k;
                                        let i2 = if i < p { i } else { i + 1 };
                                        assert(t[i] == s[i2]);
                                        assert(i2 != p);
                                    }
                                    if pair_map(s).contains_key(k) && k != node_id@ {
                                        let i = choose|i: int| 0 <= i < s.len() && (#[trigger] s[i]).0@ == k;
                                        assert(i != p);
                                        let i2 = if i < p { i } else { i - 1 };
                                        assert(t[i2] == s[i]);
                                    }
                                }
                                assert forall|k: Seq<char>| #[trigger] pair_map(t).contains_key(k)
                                    implies pair_map(t)[k] == pair_map(s).remove(node_id@)[k] by {
                                    let i = choose|i: int| 0 <= i < t.len() && (#[trigger] t[i]).0@ == k;
                                    let i2 = if i < p { i } else { i + 1 };
                                    assert(t[i] == s[i2]);
                                }
                            }
                        }
                        self.peers_left = wrapping_add(self.peers_left, 1);
                    },
                    None => {
                        proof {
                            assert(pair_map(s).remove(node_id@) =~= pair_map(s));
                        }
                    },
                }
            },
            NetworkEvent::SyncCompleted { updates_count, .. } => {
                if *updates_count > 0 {
                    self.syncs_completed = wrapping_add(self.syncs_completed, 1);
                }
            },
            NetworkEvent::MessageReceived { .. } => {
                self.messages_received = wrapping_add(self.messages_received, 1);
            },
            _ => {},
        }
    }

    /// Network statistics.
    pub fn stats(&self) -> (r: NetworkStats)
        requires
            self.wf(),
        ensures
            r.peers_joined == self.counts().0,
            r.peers_left == self.counts().1,
            r.syncs_completed == self.counts().2,
            r.messages_received == self.counts().3,
            r.current_peers == self.peer_map().len(),
    {
        proof {
            lemma_pair_map(self.peer_distinctions@);
        }
        NetworkStats {
            peers_joined: self.peers_joined,
            peers_left: self.peers_left,
            syncs_completed: self.syncs_completed,
            messages_received: self.messages_received,
            current_peers: self.peer_distinctions.len() as u64,
        }
    }
}

} // verus!
