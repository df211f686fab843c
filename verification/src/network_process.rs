//! The network process's bookkeeping: sequence numbers and synthesis contexts,
//! the local root that each synthesis or observation advances, counts, and
//! the topology it reports. The synthesis itself is the distinction engine's
//! work: the process's owner performs it and hands back the new root's ID.

use vstd::prelude::*;
use crate::processes::distillation::{wrap_add, wrapping_add};
use crate::types::FullKey;

verus! {

/// Content that a node synthesizes into the network.
#[derive(Debug)]
pub enum NetworkContent {
    /// A node announces its presence (its ID and address, as text).
    PeerPresence { node_id: String, address: String },
    /// A data write, by its value's hash.
    DataWrite { key: FullKey, value_hash: String },
    /// A query request.
    QueryRequest { query_hash: String },
    /// A query response.
    QueryResponse { query_hash: String, result_hash: String },
    /// A capability grant.
    CapabilityGrant { grantee: String, permission: String },
    /// Custom content.
    Custom { content_type: String, data_hash: String },
}

/// The context of one synthesis.
#[derive(Debug)]
pub struct SynthesisContext {
    /// The synthesizing node.
    pub node_id: String,
    /// When (nanoseconds, UTC), for human observation.
    pub timestamp: i64,
    /// The node's sequence number for this synthesis.
    pub sequence: u64,
    /// The distinctions this synthesis depends on.
    pub causal_parents: Vec<String>,
}

/// A node seen in the causal graph.
#[derive(Debug)]
pub struct CausalNode {
    pub node_id: String,
    pub address: Option<String>,
    pub last_sequence: u64,
    pub distinction_count: usize,
    pub is_active: bool,
}

/// A connection between nodes in the causal graph.
#[derive(Debug, Clone)]
pub struct CausalConnection {
    /// Source node.
    pub from: String,
    /// Target node.
    pub to: String,
    /// Number of shared distinctions.
    pub shared_count: usize,
    /// Direction of causal influence.
    pub direction: CausalDirection,
}

/// Direction of causal influence.
#[derive(Debug, Clone, Copy, PartialEq, Eq, Structural)]
pub enum CausalDirection {
    /// A influences B (A's distinctions appear in B's synthesis).
    AToB,
    /// B influences A.
    BToA,
    /// Both share distinctions.
    Bidirectional,
    /// Insufficient data.
    Unknown,
}

/// Network topology as seen from the causal graph.
#[derive(Debug)]
pub struct CausalTopology {
    pub nodes: Vec<CausalNode>,
    pub connections: Vec<CausalConnection>,
    pub shared_distinctions: Vec<String>,
}

/// Statistics for network process operations.
#[derive(Debug, Clone)]
pub struct NetworkProcessStats {
    pub distinctions_synthesized: u64,
    pub propagations_observed: u64,
    pub current_sequence: u64,
    pub local_root_id: String,
    pub network_root_id: String,
}

/// A node's network process: its identity, roots and counts.
#[derive(Debug)]
pub struct NetworkProcess {
    node_id: String,
    bind_addr: String,
    network_root: String,
    local_root: String,
    sequence: u64,
    distinctions_synthesized: u64,
    propagations_observed: u64,
}

impl NetworkProcess {
    /// The node's ID.
    pub closed spec fn node(&self) -> Seq<char> {
        self.node_id@
    }

    /// The node's address.
    pub closed spec fn addr(&self) -> Seq<char> {
        self.bind_addr@
    }

    /// The ID of the network root, shared by all nodes.
    pub closed spec fn net_root(&self) -> Seq<char> {
        self.network_root@
    }

    /// The ID of the local root.
    pub closed spec fn root(&self) -> Seq<char> {
        self.local_root@
    }

    /// The next sequence number, syntheses, observations.
    pub closed spec fn counts(&self) -> (u64, u64, u64) {
        (self.sequence, self.distinctions_synthesized, self.propagations_observed)
    }

    /// A process for node `node_id` at `bind_addr`, whose local root is
    /// `local_root` (the network root synthesized with the node's identity).
    pub fn new(node_id: String, bind_addr: String, network_root: String, local_root: String) -> (p: Self)
        ensures
            p.node() == node_id@,
            p.addr() == bind_addr@,
            p.net_root() == network_root@,
            p.root() == local_root@,
            p.counts() == (0u64, 0u64, 0u64),
    {
        NetworkProcess {
            node_id,
            bind_addr,
            network_root,
            local_root,
            sequence: 0,
            distinctions_synthesized: 0,
            propagations_observed: 0,
        }
    }

    /// The node's ID.
    pub fn node_id(&self) -> (r: &String)
        ensures
            r@ == self.node(),
    {
        &self.node_id
    }

    /// The node's bind address.
    pub fn bind_addr(&self) -> (r: &String)
        ensures
            r@ == self.addr(),
    {
        &self.bind_addr
    }

    /// The network root's ID.
    pub fn network_root(&self) -> (r: &String)
        ensures
            r@ == self.net_root(),
    {
        &self.network_root
    }

    /// The local root's ID.
    pub fn local_root(&self) -> (r: String)
        ensures
            r@ == self.root(),
    {
        self.local_root.clone()
    }

    /// Take the next sequence number for a synthesis at time `now`: the
    /// context names this node, the number, and the local root as parent.
    pub fn next_context(&mut self, now: i64) -> (c: SynthesisContext)
        ensures
            c.node_id@ == old(self).node(),
            c.timestamp == now,
            c.sequence == old(self).counts().0,
            c.causal_parents@.len() == 1,
            c.causal_parents@[0]@ == old(self).root(),
            final(self).counts() == (wrap_add(old(self).counts().0, 1), old(self).counts().1, old(self).counts().2),
            final(self).node() == old(self).node(),
            final(self).addr() == old(self).addr(),
            final(self).net_root() == old(self).net_root(),
            final(self).root() == old(self).root(),
    {
        let seq = self.sequence;
        self.sequence = wrapping_add(self.sequence, 1);
        let mut parents: Vec<String> = Vec::new();
        parents.push(self.local_root.clone());
        SynthesisContext { node_id: self.node_id.clone(), timestamp: now, sequence: seq, causal_parents: parents }
    }

    /// Record a synthesis whose result is `new_root`: it becomes the local root.
    pub fn record_synthesis(&mut self, new_root: String)
        ensures
            final(self).root() == new_root@,
            final(self).counts() == (old(self).counts().0, wrap_add(old(self).counts().1, 1), old(self).counts().2),
            final(self).node() == old(self).node(),
            final(self).addr() == old(self).addr(),
            final(self).net_root() == old(self).net_root(),
    {
        self.local_root = new_root;
        self.distinctions_synthesized = wrapping_add(self.distinctions_synthesized, 1);
    }

    /// Record an observation of another node's distinction, whose synthesis
    /// with the local root gave `new_root`.
    pub fn observe(&mut self, new_root: String)
        ensures
            final(self).root() == new_root@,
            final(self).counts() == (old(self).counts().0, old(self).counts().1, wrap_add(old(self).counts().2, 1)),
            final(self).node() == old(self).node(),
            final(self).addr() == old(self).addr(),
            final(self).net_root() == old(self).net_root(),
    {
        self.local_root = new_root;
        self.propagations_observed = wrapping_add(self.propagations_observed, 1);
    }

    /// The content announcing this node's presence.
    pub fn presence_content(&self) -> (c: NetworkContent)
        ensures
            match c {
                NetworkContent::PeerPresence { node_id, address } => node_id@ == self.node() && address@ == self.addr(),
                _ => false,
            },
    {
        NetworkContent::PeerPresence { node_id: self.node_id.clone(), address: self.bind_addr.clone() }
    }

    /// This node as the causal graph shows it.
    fn self_node(&self) -> (n: CausalNode)
        ensures
            n.node_id@ == self.node(),
            n.address matches Some(a) && a@ == self.addr(),
            n.last_sequence == self.counts().0,
            n.distinction_count == self.counts().1 as usize,
            n.is_active,
    {
        CausalNode {
            node_id: self.node_id.clone(),
            address: Some(self.bind_addr.clone()),
            last_sequence: self.sequence,
            distinction_count: self.distinctions_synthesized as usize,
            is_active: true,
        }
    }

    /// The topology the process knows: itself, with no connections.
    pub fn discover_topology(&self) -> (t: CausalTopology)
        ensures
            t.nodes@.len() == 1,
            t.nodes@[0].node_id@ == self.node(),
            t.nodes@[0].address matches Some(a) && a@ == self.addr(),
            t.nodes@[0].last_sequence == self.counts().0,
            t.nodes@[0].distinction_count == self.counts().1 as usize,
            t.nodes@[0].is_active,
            t.connections@.len() == 0,
            t.shared_distinctions@.len() == 0,
    {
        let mut nodes: Vec<CausalNode> = Vec::new();
        nodes.push(self.self_node());
        CausalTopology { nodes, connections: Vec::new(), shared_distinctions: Vec::new() }
    }

    /// The active peers the process knows: itself.
    pub fn find_active_peers(&self) -> (r: Vec<CausalNode>)
        ensures
            r@.len() == 1,
            r@[0].node_id@ == self.node(),
            r@[0].address matches Some(a) && a@ == self.addr(),
            r@[0].last_sequence == self.counts().0,
            r@[0].distinction_count == self.counts().1 as usize,
            r@[0].is_active,
    {
        let mut r: Vec<CausalNode> = Vec::new();
        r.push(self.self_node());
        r
    }

    /// Whether a node is reachable through causal relationships: every node
    /// counts as reachable.
    pub fn is_reachable(&self, node_id: &str) -> (r: bool)
        ensures
            r,
    {
        true
    }

    /// Process statistics.
    pub fn stats(&self) -> (s: NetworkProcessStats)
        ensures
            s.distinctions_synthesized == self.counts().1,
            s.propagations_observed == self.counts().2,
            s.current_sequence == self.counts().0,
            s.local_root_id@ == self.root(),
            s.network_root_id@ == self.net_root(),
    {
        NetworkProcessStats {
            distinctions_synthesized: self.distinctions_synthesized,
            propagations_observed: self.propagations_observed,
            current_sequence: self.sequence,
            local_root_id: self.local_root.clone(),
            network_root_id: self.network_root.clone(),
        }
    }
}

} // verus!
