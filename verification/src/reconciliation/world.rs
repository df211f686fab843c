//! Worlds: distinct causal graphs that are reconciled into a shared truth.

use vstd::prelude::*;
use crate::causal_graph::{CausalGraph, DistinctionId, frontier_of, reaches};
use crate::reconciliation::merkle::{tree_root_hash, MerkleTree};
use crate::reconciliation::{contains_string, find_missing as missing_from, SyncStrategy};
use crate::strings::{str_eq, views};

verus! {

/// Simple in-memory world.
#[derive(Debug)]
pub struct World {
    /// World identifier.
    pub id: String,
    /// Causal graph.
    pub graph: CausalGraph,
}

impl World {
    /// Create a new world with an empty graph.
    pub fn new(id: String) -> (w: Self)
        ensures
            w.id@ == id@,
            w.graph.wf(),
            w.graph.node_ids() == Seq::<Seq<char>>::empty(),
            w.graph.edge_ids() == Seq::<(Seq<char>, Seq<char>)>::empty(),
    {
        World { id, graph: CausalGraph::new() }
    }

    /// Add a distinction.
    pub fn add(&mut self, id: String)
        requires
            old(self).graph.wf(),
        ensures
            final(self).graph.wf(),
            final(self).id == old(self).id,
            final(self).graph.node_ids() == (if old(self).graph.node_ids().contains(id@) {
                old(self).graph.node_ids()
            } else {
                old(self).graph.node_ids().push(id@)
            }),
            final(self).graph.edge_ids() == old(self).graph.edge_ids(),
    {
        self.graph.add_node(id);
    }

    /// Add a distinction derived from `parent`: the node and a parent edge.
    pub fn add_with_parent(&mut self, id: String, parent: String)
        requires
            old(self).graph.wf(),
        ensures
            final(self).graph.wf(),
            final(self).id == old(self).id,
            final(self).graph.node_ids() == (if old(self).graph.node_ids().contains(id@) {
                old(self).graph.node_ids()
            } else {
                old(self).graph.node_ids().push(id@)
            }),
            final(self).graph.edge_ids() == old(self).graph.edge_ids().push((parent@, id@)),
    {
        let child = id.clone();
        self.graph.add_node(id);
        self.graph.add_edge(parent, child);
    }

    /// The frontier: distinctions that nothing was derived from yet.
    pub fn frontier(&self) -> (r: Vec<DistinctionId>)
        ensures
            views(r@) == frontier_of(self.graph.node_ids(), self.graph.edge_ids()),
    {
        self.graph.frontier()
    }
}

/// Result of a synchronization.
#[derive(Debug, Clone)]
pub struct SyncResult {
    /// Distinctions we sent.
    pub sent: Vec<String>,
    /// Distinctions we received.
    pub received: Vec<String>,
    /// Conflicts detected.
    pub conflicts: Vec<Conflict>,
    /// Distinctions in the local graph after the sync (what the transfer is
    /// weighed against).
    pub node_count: usize,
}

impl SyncResult {
    /// A sync that exchanged nothing.
    pub fn empty() -> (r: Self)
        ensures
            r.sent@.len() == 0,
            r.received@.len() == 0,
            r.conflicts@.len() == 0,
            r.node_count == 0,
    {
        SyncResult { sent: Vec::new(), received: Vec::new(), conflicts: Vec::new(), node_count: 0 }
    }

    /// Whether nothing was exchanged and nothing conflicted.
    pub fn is_perfect(&self) -> (r: bool)
        ensures
            r == (self.sent@.len() == 0 && self.received@.len() == 0 && self.conflicts@.len() == 0),
    {
        self.sent.len() == 0 && self.received.len() == 0 && self.conflicts.len() == 0
    }

    /// How many distinctions crossed in either direction.
    pub fn total_transferred(&self) -> (r: usize)
        requires
            self.sent@.len() + self.received@.len() <= usize::MAX,
        ensures
            r == self.sent@.len() + self.received@.len(),
    {
        self.sent.len() + self.received.len()
    }
}

/// A divergence between our graph and a remote branch.
#[derive(Debug, Clone)]
pub struct Conflict {
    /// What conflicts: `node_` and the remote leaf.
    pub key: String,
    /// Our side.
    pub our_version: String,
    /// Their side: the remote leaf.
    pub their_version: String,
    /// Where the branches meet, if known.
    pub common_ancestor: Option<String>,
}

/// Reconciliation statistics.
#[derive(Debug, Clone, Copy, Default, PartialEq, Eq, Structural)]
pub struct ReconciliationStats {
    /// Syncs applied.
    pub syncs_performed: u64,
    /// Distinctions sent.
    pub total_sent: u64,
    /// Distinctions received.
    pub total_received: u64,
    /// Conflicts detected.
    pub total_conflicts: u64,
    /// Syncs that exchanged nothing.
    pub perfect_syncs: u64,
}

/// Data sent during a sync.
#[derive(Debug, Clone)]
pub struct SyncData {
    /// Merkle root of the sender's distinctions.
    pub merkle_root: [u8; 32],
    /// The sender's frontier.
    pub frontier: Vec<String>,
    /// How many distinctions are sent.
    pub missing_count: usize,
    /// The distinctions sent.
    pub distinctions_to_send: Vec<String>,
}

/// Result of merging two graphs.
#[derive(Debug, Clone)]
pub struct MergeResult {
    /// Distinctions added.
    pub added: usize,
    /// Distinctions both graphs had.
    pub common: usize,
    /// Conflicts detected.
    pub conflicts: Vec<Conflict>,
}

/// Errors during reconciliation.
#[derive(Debug, Clone)]
pub enum ReconciliationError {
    /// Invalid data received.
    InvalidData(String),
    /// Graph merge failed.
    MergeFailed(String),
    /// Cycle detected.
    CycleDetected(String),
}

/// Whether `d` is a possible divergence point of our graph against a remote
/// frontier: a remote leaf that precedes one of our leaves if there is one, else a
/// remote leaf we hold, else none.
pub open spec fn divergence_ok(nodes: Seq<Seq<char>>, edges: Seq<(Seq<char>, Seq<char>)>, remote: Seq<Seq<char>>, d: Option<Seq<char>>) -> bool {
    let leaves = frontier_of(nodes, edges);
    let shared = exists|r: Seq<char>, l: Seq<char>| remote.contains(r) && #[trigger] leaves.contains(l) && #[trigger] reaches(edges, r, l);
    let held = exists|r: Seq<char>| #[trigger] remote.contains(r) && nodes.contains(r);
    if shared {
        d matches Some(x) && remote.contains(x) && exists|l: Seq<char>| #[trigger] leaves.contains(l) && reaches(edges, x, l)
    } else if held {
        d matches Some(x) && remote.contains(x) && nodes.contains(x)
    } else {
        d is None
    }
}

/// Whether a remote leaf `id` is in conflict with our graph: we lack it, it
/// precedes one of our leaves, and something other than itself precedes it.
pub open spec fn conflict_at(nodes: Seq<Seq<char>>, edges: Seq<(Seq<char>, Seq<char>)>, id: Seq<char>) -> bool {
    &&& !nodes.contains(id)
    &&& exists|l: Seq<char>| #[trigger] frontier_of(nodes, edges).contains(l) && reaches(edges, id, l)
    &&& exists|a: Seq<char>| #[trigger] reaches(edges, a, id) && a != id
}

/// The remote sides of a list of conflicts.
pub open spec fn their_versions(cs: Seq<Conflict>) -> Seq<Seq<char>> {
    cs.map_values(|c: Conflict| c.their_version@)
}

/// The text of an optional string.
pub open spec fn opt_text(o: Option<String>) -> Option<Seq<char>> {
    match o {
        Some(x) => Some(x@),
        None => None,
    }
}

/// Reconciles a local causal graph with remote worlds.
pub struct WorldReconciliation {
    local_graph: CausalGraph,
    strategy: SyncStrategy,
    stats: ReconciliationStats,
}

impl WorldReconciliation {
    /// The local graph.
    pub closed spec fn spec_graph(&self) -> CausalGraph {
        self.local_graph
    }

    /// The statistics.
    pub closed spec fn spec_stats(&self) -> ReconciliationStats {
        self.stats
    }

    /// Reconcile `local_graph` with the default strategy.
    pub fn new(local_graph: CausalGraph) -> (w: Self)
        ensures
            w.spec_graph() == local_graph,
            w.spec_stats() == ReconciliationStats::default_spec(),
    {
        Self::with_strategy(local_graph, SyncStrategy::MerkleTree)
    }

    /// Reconcile `local_graph` with a given strategy.
    pub fn with_strategy(local_graph: CausalGraph, strategy: SyncStrategy) -> (w: Self)
        ensures
            w.spec_graph() == local_graph,
            w.spec_stats() == ReconciliationStats::default_spec(),
    {
        WorldReconciliation {
            local_graph,
            strategy,
            stats: ReconciliationStats {
                syncs_performed: 0,
                total_sent: 0,
                total_received: 0,
                total_conflicts: 0,
                perfect_syncs: 0,
            },
        }
    }

    /// Our frontier, to share with a remote.
    pub fn exchange_roots(&self) -> (r: Vec<String>)
        ensures
            views(r@) == frontier_of(self.spec_graph().node_ids(), self.spec_graph().edge_ids()),
    {
        self.local_graph.frontier()
    }

    /// Where our graph and a remote frontier diverge: a remote leaf that is an
    /// ancestor of one of our leaves, else a remote leaf we hold, else none.
    pub fn find_divergence(&self, remote_frontier: &[String]) -> (r: Option<String>)
        ensures
            divergence_ok(self.spec_graph().node_ids(), self.spec_graph().edge_ids(), views(remote_frontier@), opt_text(r)),
    {
        let ghost nodes = self.spec_graph().node_ids();
        let ghost edges = self.spec_graph().edge_ids();
        let ghost remote = views(remote_frontier@);
        let leaves = self.local_graph.frontier();
        let mut i: usize = 0;
        while i < leaves.len()
            invariant
                i <= leaves@.len(),
                views(leaves@) == frontier_of(nodes, edges),
                nodes == self.spec_graph().node_ids(),
                edges == self.spec_graph().edge_ids(),
                remote == views(remote_frontier@),
                forall|a: int, b: int| 0 <= a < i && 0 <= b < remote.len() ==> !reaches(edges, #[trigger] remote[b], #[trigger] views(leaves@)[a]),
            decreases leaves@.len() - i,
        {
            let ancestors = self.local_graph.ancestors(leaves[i].as_str());
            let mut j: usize = 0;
            while j < remote_frontier.len()
                invariant
                    i < leaves@.len(),
                    j <= remote_frontier@.len(),
                    remote == views(remote_frontier@),
                    edges == self.spec_graph().edge_ids(),
                    nodes == self.spec_graph().node_ids(),
                    views(leaves@) == frontier_of(nodes, edges),
                    forall|a: Seq<char>| views(ancestors@).contains(a) <==> reaches(edges, a, leaves@[i as int]@),
                    forall|b: int| 0 <= b < j ==> !reaches(edges, #[trigger] remote[b], views(leaves@)[i as int]),
                decreases remote_frontier@.len() - j,
            {
                if contains_string(ancestors.as_slice(), remote_frontier[j].as_str()) {
                    proof {
                        assert(remote.contains(remote[j as int]));
                        assert(frontier_of(nodes, edges).contains(views(leaves@)[i as int]));
                        assert(reaches(edges, remote[j as int], views(leaves@)[i as int]));
                    }
                    return Some(remote_frontier[j].clone());
                }
                j = j + 1;
            }
            i = i + 1;
        }
        proof {
            assert forall|r: Seq<char>, l: Seq<char>| remote.contains(r) && #[trigger] frontier_of(nodes, edges).contains(l) implies !#[trigger] reaches(edges, r, l) by {
                let b = choose|b: int| 0 <= b < remote.len() && remote[b] == r;
                let a = choose|a: int| 0 <= a < views(leaves@).len() && views(leaves@)[a] == l;
            }
        }
        let mut j: usize = 0;
        while j < remote_frontier.len()
            invariant
                j <= remote_frontier@.len(),
                remote == views(remote_frontier@),
                nodes == self.spec_graph().node_ids(),
                edges == self.spec_graph().edge_ids(),
                forall|r: Seq<char>, l: Seq<char>| remote.contains(r) && #[trigger] frontier_of(nodes, edges).contains(l) ==> !#[trigger] reaches(edges, r, l),
                forall|b: int| 0 <= b < j ==> !nodes.contains(#[trigger] remote[b]),
            decreases remote_frontier@.len() - j,
        {
            if self.local_graph.contains(remote_frontier[j].as_str()) {
                proof {
                    assert(remote.contains(remote[j as int]));
                    assert(remote.contains(remote[j as int]) && nodes.contains(remote[j as int]));
                }
                return Some(remote_frontier[j].clone());
            }
            j = j + 1;
        }
        proof {
            assert forall|r: Seq<char>| #[trigger] remote.contains(r) implies !nodes.contains(r) by {
                let b = choose|b: int| 0 <= b < remote.len() && remote[b] == r;
            }
        }
        None
    }

    /// The distinctions we hold that a remote with `remote_frontier` lacks: those
    /// after the divergence point (all of ours if there is none), minus the remote
    /// frontier itself.
    pub fn find_missing(&self, remote_frontier: &[String]) -> (r: Vec<String>)
        requires
            self.spec_graph().wf(),
        ensures
            views(r@).no_duplicates(),
            exists|d: Option<Seq<char>>| #[trigger] divergence_ok(self.spec_graph().node_ids(), self.spec_graph().edge_ids(), views(remote_frontier@), d)
                && forall|x: Seq<char>| #[trigger] views(r@).contains(x) <==> (match d {
                    Some(p) => reaches(self.spec_graph().edge_ids(), p, x),
                    None => self.spec_graph().node_ids().contains(x),
                } && !views(remote_frontier@).contains(x)),
    {
        let divergence = self.find_divergence(remote_frontier);
        let ghost d = opt_text(divergence);
        let local_all = match &divergence {
            Some(point) => self.local_graph.descendants(point.as_str()),
            None => self.local_graph.all_nodes(),
        };
        let r = missing_from(local_all.as_slice(), remote_frontier);
        proof {
            let pred = |x: Seq<char>| !views(remote_frontier@).contains(x);
            assert forall|x: Seq<char>| #[trigger] views(r@).contains(x) <==> (views(local_all@).contains(x) && !views(remote_frontier@).contains(x)) by {
                if views(r@).contains(x) {
                    views(local_all@).lemma_filter_contains_rev(pred, x);
                    let k = choose|k: int| 0 <= k < views(r@).len() && views(r@)[k] == x;
                    views(local_all@).lemma_filter_pred(pred, k);
                }
                if views(local_all@).contains(x) && !views(remote_frontier@).contains(x) {
                    let k = choose|k: int| 0 <= k < views(local_all@).len() && views(local_all@)[k] == x;
                    views(local_all@).lemma_filter_contains(pred, k);
                }
            }
            lemma_filter_keeps_unique(views(local_all@), pred);
            assert(divergence_ok(self.spec_graph().node_ids(), self.spec_graph().edge_ids(), views(remote_frontier@), d));
        }
        r
    }

    /// The merkle root of our distinctions.
    fn compute_merkle_root(&self) -> (h: [u8; 32])
        requires
            self.spec_graph().node_ids().len() <= usize::MAX / 2,
        ensures
            h@ == tree_root_hash(self.spec_graph().node_ids()),
    {
        let nodes = self.local_graph.all_nodes();
        let tree = MerkleTree::from_distinctions(nodes.as_slice());
        tree.root_hash()
    }

    /// The data to send a remote with `remote_frontier`: our merkle root, our
    /// frontier, and what it lacks.
    pub fn prepare_sync(&self, remote_frontier: &[String]) -> (d: SyncData)
        requires
            self.spec_graph().wf(),
            self.spec_graph().node_ids().len() <= usize::MAX / 2,
        ensures
            d.merkle_root@ == tree_root_hash(self.spec_graph().node_ids()),
            views(d.frontier@) == frontier_of(self.spec_graph().node_ids(), self.spec_graph().edge_ids()),
            d.missing_count == d.distinctions_to_send@.len(),
            views(d.distinctions_to_send@).no_duplicates(),
            exists|dv: Option<Seq<char>>| #[trigger] divergence_ok(self.spec_graph().node_ids(), self.spec_graph().edge_ids(), views(remote_frontier@), dv)
                && forall|x: Seq<char>| #[trigger] views(d.distinctions_to_send@).contains(x) <==> (match dv {
                    Some(p) => reaches(self.spec_graph().edge_ids(), p, x),
                    None => self.spec_graph().node_ids().contains(x),
                } && !views(remote_frontier@).contains(x)),
    {
        let missing = self.find_missing(remote_frontier);
        let merkle_root = self.compute_merkle_root();
        SyncData {
            merkle_root,
            frontier: self.local_graph.frontier(),
            missing_count: missing.len(),
            distinctions_to_send: missing,
        }
    }

    /// The conflicts a remote frontier shows: each remote leaf we lack that is an
    /// ancestor of one of our leaves and has ancestors of its own here.
    fn detect_conflicts(&self, remote_frontier: &[String]) -> (r: Vec<Conflict>)
        ensures
            r@.len() <= remote_frontier@.len(),
            their_versions(r@) == views(remote_frontier@).filter(
                |x: Seq<char>| conflict_at(self.spec_graph().node_ids(), self.spec_graph().edge_ids(), x),
            ),
            forall|i: int| 0 <= i < r@.len() ==> {
                let c = #[trigger] r@[i];
                &&& views(remote_frontier@).contains(c.their_version@)
                &&& !self.spec_graph().node_ids().contains(c.their_version@)
                &&& c.key@ == "node_"@ + c.their_version@
                &&& c.our_version@ == "local"@
                &&& c.common_ancestor matches Some(a) && a@ == c.their_version@
            },
    {
        let ghost nodes = self.spec_graph().node_ids();
        let ghost edges = self.spec_graph().edge_ids();
        let ghost remote = views(remote_frontier@);
        let ghost pred = |x: Seq<char>| conflict_at(nodes, edges, x);
        let mut conflicts: Vec<Conflict> = Vec::new();
        let mut i: usize = 0;
        proof {
            assert(remote.take(0) =~= Seq::<Seq<char>>::empty());
            assert(their_versions(conflicts@) =~= Seq::<Seq<char>>::empty());
            reveal(Seq::filter);
        }
        while i < remote_frontier.len()
            invariant
                i <= remote_frontier@.len(),
                nodes == self.spec_graph().node_ids(),
                edges == self.spec_graph().edge_ids(),
                remote == views(remote_frontier@),
                pred == (|x: Seq<char>| conflict_at(nodes, edges, x)),
                their_versions(conflicts@) == remote.take(i as int).filter(pred),
                conflicts@.len() <= i,
                forall|k: int| 0 <= k < conflicts@.len() ==> {
                    let c = #[trigger] conflicts@[k];
                    &&& views(remote_frontier@).contains(c.their_version@)
                    &&& !self.spec_graph().node_ids().contains(c.their_version@)
                    &&& c.key@ == "node_"@ + c.their_version@
                    &&& c.our_version@ == "local"@
                    &&& c.common_ancestor matches Some(a) && a@ == c.their_version@
                },
            decreases remote_frontier@.len() - i,
        {
            let id = &remote_frontier[i];
            let ghost before = conflicts@;
            proof {
                reveal(Seq::filter);
                assert(remote.take(i + 1).drop_last() =~= remote.take(i as int));
                assert(remote.take(i + 1).last() == id@);
            }
            if !self.local_graph.contains(id.as_str()) {
                let single: Vec<String> = vec![id.clone()];
                proof {
                    assert(views(single@) =~= seq![id@]);
                    assert(views(single@)[0] == id@);
                }
                let divergence = self.find_divergence(single.as_slice());
                match divergence {
                    Some(point) => {
                        proof {
                            assert(views(single@).contains(point@));
                            assert(point@ == id@);
                            let leaves = frontier_of(nodes, edges);
                            if !(exists|r: Seq<char>, l: Seq<char>| views(single@).contains(r) && #[trigger] leaves.contains(l) && #[trigger] reaches(edges, r, l)) {
                                assert(nodes.contains(point@));
                                assert(false);
                            }
                            assert(exists|l: Seq<char>| #[trigger] leaves.contains(l) && reaches(edges, id@, l));
                        }
                        let ancestors = self.local_graph.ancestors(id.as_str());
                        let mut other = false;
                        let mut k: usize = 0;
                        while k < ancestors.len()
                            invariant
                                k <= ancestors@.len(),
                                other == exists|j: int| 0 <= j < k && (#[trigger] views(ancestors@)[j]) != point@,
                            decreases ancestors@.len() - k,
                        {
                            if !str_eq(ancestors[k].as_str(), point.as_str()) {
                                other = true;
                                proof {
                                    assert(views(ancestors@)[k as int] != point@);
                                }
                            }
                            k = k + 1;
                        }
                        proof {
                            if other {
                                let j = choose|j: int| 0 <= j < ancestors@.len() && (#[trigger] views(ancestors@)[j]) != point@;
                                assert(views(ancestors@).contains(views(ancestors@)[j]));
                                assert(reaches(edges, views(ancestors@)[j], id@));
                            } else {
                                assert forall|a: Seq<char>| #[trigger] reaches(edges, a, id@) implies a == id@ by {
                                    assert(views(ancestors@).contains(a));
                                    let j = choose|j: int| 0 <= j < views(ancestors@).len() && views(ancestors@)[j] == a;
                                }
                            }
                            assert(other == pred(id@));
                        }
                        if other {
                            let mut key = String::from_str("node_");
                            key.append(id.as_str());
                            proof {
                                assert(views(remote_frontier@)[i as int] == id@);
                            }
                            conflicts.push(Conflict {
                                key,
                                our_version: String::from_str("local"),
                                their_version: id.clone(),
                                common_ancestor: Some(point),
                            });
                            proof {
                                assert(their_versions(conflicts@) =~= their_versions(before).push(id@));
                            }
                        }
                    },
                    None => {
                        proof {
                            let leaves = frontier_of(nodes, edges);
                            assert forall|l: Seq<char>| #[trigger] leaves.contains(l) implies !reaches(edges, id@, l) by {
                                if reaches(edges, id@, l) {
                                    assert(views(single@).contains(id@));
                                }
                            }
                            assert(!pred(id@));
                        }
                    },
                }
            }
            i = i + 1;
        }
        proof {
            assert(remote.take(remote_frontier@.len() as int) =~= remote);
        }
        conflicts
    }

    /// Apply a remote's sync data: add the distinctions it sent, detect conflicts
    /// against its frontier, and count the sync.
    pub fn apply_sync(&mut self, data: &SyncData) -> (r: Result<SyncResult, ReconciliationError>)
        requires
            old(self).spec_graph().wf(),
            old(self).spec_stats().syncs_performed < u64::MAX,
            old(self).spec_stats().perfect_syncs < u64::MAX,
            old(self).spec_stats().total_received + data.distinctions_to_send@.len() <= u64::MAX,
            old(self).spec_stats().total_conflicts + data.frontier@.len() <= u64::MAX,
        ensures
            final(self).spec_graph().wf(),
            r matches Ok(res) && {
                &&& views(res.received@) == views(data.distinctions_to_send@)
                &&& res.sent@.len() == 0
                &&& res.conflicts@.len() <= data.frontier@.len()
                &&& res.node_count == final(self).spec_graph().node_ids().len()
                &&& final(self).spec_stats().syncs_performed == old(self).spec_stats().syncs_performed + 1
                &&& final(self).spec_stats().total_received == old(self).spec_stats().total_received + res.received@.len()
                &&& final(self).spec_stats().total_conflicts == old(self).spec_stats().total_conflicts + res.conflicts@.len()
                &&& final(self).spec_stats().total_sent == old(self).spec_stats().total_sent
                &&& final(self).spec_stats().perfect_syncs == old(self).spec_stats().perfect_syncs + if res.received@.len() == 0 && res.conflicts@.len() == 0 { 1int } else { 0int }
            },
            forall|x: Seq<char>| #[trigger] final(self).spec_graph().node_ids().contains(x) <==> (old(self).spec_graph().node_ids().contains(x) || views(data.distinctions_to_send@).contains(x)),
            final(self).spec_graph().edge_ids() == old(self).spec_graph().edge_ids(),
    {
        let mut received: Vec<String> = Vec::new();
        let mut i: usize = 0;
        while i < data.distinctions_to_send.len()
            invariant
                self.local_graph.wf(),
                i <= data.distinctions_to_send@.len(),
                views(received@) == views(data.distinctions_to_send@).take(i as int),
                self.local_graph.edge_ids() == old(self).local_graph.edge_ids(),
                self.stats == old(self).stats,
                forall|x: Seq<char>| #[trigger] self.local_graph.node_ids().contains(x) <==> (old(self).local_graph.node_ids().contains(x) || views(data.distinctions_to_send@).take(i as int).contains(x)),
            decreases data.distinctions_to_send@.len() - i,
        {
            let ghost before = self.local_graph.node_ids();
            let id = data.distinctions_to_send[i].clone();
            self.local_graph.add_node(data.distinctions_to_send[i].clone());
            let ghost rv = views(received@);
            received.push(id);
            proof {
                let t = views(data.distinctions_to_send@);
                let a = t.take(i as int);
                let b = t.take(i + 1);
                let y = t[i as int];
                let after = self.local_graph.node_ids();
                assert(b =~= a.push(y));
                assert(views(received@) =~= rv.push(y));
                assert forall|x: Seq<char>| #[trigger] after.contains(x) <==> (old(self).local_graph.node_ids().contains(x) || b.contains(x)) by {
                    assert(after.contains(x) <==> (before.contains(x) || x == y)) by {
                        if !before.contains(y) {
                            assert(after == before.push(y));
                            if after.contains(x) && x != y {
                                let k = choose|k: int| 0 <= k < after.len() && after[k] == x;
                                assert(before[k] == x);
                            }
                            if before.contains(x) {
                                let k = choose|k: int| 0 <= k < before.len() && before[k] == x;
                                assert(after[k] == x);
                            }
                            if x == y {
                                assert(after[before.len() as int] == x);
                            }
                        }
                    }
                    assert(b.contains(x) <==> (a.contains(x) || x == y)) by {
                        if a.contains(x) {
                            let k = choose|k: int| 0 <= k < a.len() && a[k] == x;
                            assert(b[k] == x);
                        }
                        if b.contains(x) && x != y {
                            let k = choose|k: int| 0 <= k < b.len() && b[k] == x;
                            assert(a[k] == x);
                        }
                        if x == y {
                            assert(b[a.len() as int] == x);
                        }
                    }
                }
            }
            i = i + 1;
        }
        proof {
            assert(views(data.distinctions_to_send@).take(data.distinctions_to_send@.len() as int) =~= views(data.distinctions_to_send@));
        }
        let conflicts = self.detect_conflicts(data.frontier.as_slice());
        let perfect = received.len() == 0 && conflicts.len() == 0;
        self.stats.syncs_performed = self.stats.syncs_performed + 1;
        self.stats.total_received = self.stats.total_received + received.len() as u64;
        self.stats.total_conflicts = self.stats.total_conflicts + conflicts.len() as u64;
        if perfect {
            self.stats.perfect_syncs = self.stats.perfect_syncs + 1;
        }
        let node_count = self.local_graph.node_count();
        Ok(SyncResult { sent: Vec::new(), received, conflicts, node_count })
    }

    /// Full reconcile: apply what the remote sent, then prepare what it lacks and
    /// record it as sent.
    pub fn reconcile(&mut self, remote_data: &SyncData) -> (r: Result<SyncResult, ReconciliationError>)
        requires
            old(self).spec_graph().wf(),
            old(self).spec_stats().syncs_performed < u64::MAX,
            old(self).spec_stats().perfect_syncs < u64::MAX,
            old(self).spec_stats().total_received + remote_data.distinctions_to_send@.len() <= u64::MAX,
            old(self).spec_stats().total_conflicts + remote_data.frontier@.len() <= u64::MAX,
            old(self).spec_graph().node_ids().len() + remote_data.distinctions_to_send@.len() <= usize::MAX / 2,
            old(self).spec_stats().total_sent + old(self).spec_graph().node_ids().len() + remote_data.distinctions_to_send@.len()
                + old(self).spec_graph().edge_ids().len() <= u64::MAX,
        ensures
            final(self).spec_graph().wf(),
            r matches Ok(res) && {
                &&& views(res.received@) == views(remote_data.distinctions_to_send@)
                &&& views(res.sent@).no_duplicates()
                &&& exists|dv: Option<Seq<char>>| #[trigger] divergence_ok(final(self).spec_graph().node_ids(), final(self).spec_graph().edge_ids(), views(remote_data.frontier@), dv)
                    && forall|x: Seq<char>| #[trigger] views(res.sent@).contains(x) <==> (match dv {
                        Some(p) => reaches(final(self).spec_graph().edge_ids(), p, x),
                        None => final(self).spec_graph().node_ids().contains(x),
                    } && !views(remote_data.frontier@).contains(x))
                &&& final(self).spec_stats().total_sent == old(self).spec_stats().total_sent + res.sent@.len()
                &&& final(self).spec_stats().syncs_performed == old(self).spec_stats().syncs_performed + 1
            },
            forall|x: Seq<char>| #[trigger] final(self).spec_graph().node_ids().contains(x) <==> (old(self).spec_graph().node_ids().contains(x) || views(remote_data.distinctions_to_send@).contains(x)),
    {
        let result = self.apply_sync(remote_data);
        match result {
            Ok(mut res) => {
                proof {
                    lemma_node_count_bound(old(self).spec_graph().node_ids(), self.local_graph.node_ids(), views(remote_data.distinctions_to_send@));
                }
                let ours = self.prepare_sync(remote_data.frontier.as_slice());
                proof {
                    let sent = views(ours.distinctions_to_send@);
                    let nodes = self.local_graph.node_ids();
                    let edges = self.local_graph.edge_ids();
                    assert forall|x: Seq<char>| #[trigger] sent.contains(x) implies nodes.contains(x) || is_target(edges, x) by {
                        let dv = choose|dv: Option<Seq<char>>| #[trigger] divergence_ok(nodes, edges, views(remote_data.frontier@), dv)
                            && forall|y: Seq<char>| #[trigger] sent.contains(y) <==> (match dv {
                                Some(p) => reaches(edges, p, y),
                                None => nodes.contains(y),
                            } && !views(remote_data.frontier@).contains(y));
                        if let Some(p) = dv {
                            lemma_reach_end_is_target(edges, p, x);
                        }
                    }
                    lemma_unique_len_bound(sent, nodes, edges);
                }
                res.sent = ours.distinctions_to_send;
                self.stats.total_sent = self.stats.total_sent + res.sent.len() as u64;
                Ok(res)
            },
            Err(e) => Err(e),
        }
    }

    /// Merge a remote graph into ours: its nodes we lack are added, and for each of
    /// its nodes an edge from each of its ancestors there that we now hold.
    pub fn merge_graphs(&mut self, remote_graph: &CausalGraph) -> (r: MergeResult)
        requires
            old(self).spec_graph().wf(),
            remote_graph.wf(),
        ensures
            final(self).spec_graph().wf(),
            r.added == remote_graph.node_ids().filter(|x: Seq<char>| !old(self).spec_graph().node_ids().contains(x)).len(),
            r.common == remote_graph.node_ids().filter(|x: Seq<char>| old(self).spec_graph().node_ids().contains(x)).len(),
            forall|x: Seq<char>| #[trigger] final(self).spec_graph().node_ids().contains(x) <==> (old(self).spec_graph().node_ids().contains(x) || remote_graph.node_ids().contains(x)),
            forall|e: (Seq<char>, Seq<char>)| old(self).spec_graph().edge_ids().contains(e) ==> #[trigger] final(self).spec_graph().edge_ids().contains(e),
            forall|p: Seq<char>, x: Seq<char>| remote_graph.node_ids().contains(x) && #[trigger] reaches(remote_graph.edge_ids(), p, x)
                && final(self).spec_graph().node_ids().contains(p) ==> #[trigger] final(self).spec_graph().edge_ids().contains((p, x)),
            forall|e: (Seq<char>, Seq<char>)| #[trigger] final(self).spec_graph().edge_ids().contains(e) ==> old(self).spec_graph().edge_ids().contains(e)
                || (remote_graph.node_ids().contains(e.1) && reaches(remote_graph.edge_ids(), e.0, e.1) && final(self).spec_graph().node_ids().contains(e.0)),
    {
        let ghost old_nodes = self.local_graph.node_ids();
        let ghost old_edges = self.local_graph.edge_ids();
        let remote_nodes = remote_graph.all_nodes();
        let ghost rn = remote_graph.node_ids();
        let ghost fresh = |x: Seq<char>| !old_nodes.contains(x);
        let ghost shared = |x: Seq<char>| old_nodes.contains(x);
        let mut added: usize = 0;
        let mut common: usize = 0;
        let mut i: usize = 0;
        while i < remote_nodes.len()
            invariant
                views(remote_nodes@) == rn,
                rn == remote_graph.node_ids(),
                rn.no_duplicates(),
                i <= rn.len(),
                self.local_graph.wf(),
                self.local_graph.edge_ids() == old_edges,
                added + common == i,
                added == rn.take(i as int).filter(fresh).len(),
                common == rn.take(i as int).filter(shared).len(),
                fresh == (|x: Seq<char>| !old_nodes.contains(x)),
                shared == (|x: Seq<char>| old_nodes.contains(x)),
                forall|x: Seq<char>| #[trigger] self.local_graph.node_ids().contains(x) <==> (old_nodes.contains(x) || rn.take(i as int).contains(x)),
            decreases rn.len() - i,
        {
            let ghost before = self.local_graph.node_ids();
            let y = remote_nodes[i].clone();
            proof {
                assert(rn.take(i + 1) =~= rn.take(i as int).push(rn[i as int]));
                rn.take(i as int).lemma_filter_push(rn[i as int], fresh);
                rn.take(i as int).lemma_filter_push(rn[i as int], shared);
                lemma_take_contains(rn, i as int);
                let a = rn.take(i as int);
                let b = rn.take(i + 1);
                assert forall|x: Seq<char>| #[trigger] b.contains(x) <==> (a.contains(x) || x == rn[i as int]) by {
                    if a.contains(x) {
                        let k = choose|k: int| 0 <= k < a.len() && a[k] == x;
                        assert(b[k] == x);
                    }
                    if b.contains(x) && x != rn[i as int] {
                        let k = choose|k: int| 0 <= k < b.len() && b[k] == x;
                        assert(a[k] == x);
                    }
                    if x == rn[i as int] {
                        assert(b[i as int] == x);
                    }
                }
            }
            proof {
                assert(!rn.take(i as int).contains(y@)) by {
                    if rn.take(i as int).contains(y@) {
                        let k = choose|k: int| 0 <= k < rn.take(i as int).len() && rn.take(i as int)[k] == y@;
                        assert(rn[k] == rn[i as int]);
                    }
                }
            }
            if self.local_graph.contains(y.as_str()) {
                common = common + 1;
                proof {
                    assert(old_nodes.contains(y@));
                }
            } else {
                added = added + 1;
                self.local_graph.add_node(y);
                proof {
                    assert(self.local_graph.node_ids() == before.push(rn[i as int]));
                    assert forall|x: Seq<char>| #[trigger] self.local_graph.node_ids().contains(x) <==> (before.contains(x) || x == rn[i as int]) by {
                        if self.local_graph.node_ids().contains(x) && x != rn[i as int] {
                            let k = choose|k: int| 0 <= k < self.local_graph.node_ids().len() && self.local_graph.node_ids()[k] == x;
                            assert(before[k] == x);
                        }
                        if before.contains(x) {
                            let k = choose|k: int| 0 <= k < before.len() && before[k] == x;
                            assert(self.local_graph.node_ids()[k] == x);
                        }
                        if x == rn[i as int] {
                            assert(self.local_graph.node_ids()[before.len() as int] == x);
                        }
                    }
                }
            }
            i = i + 1;
        }
        proof {
            assert(rn.take(rn.len() as int) =~= rn);
        }
        let ghost mid_nodes = self.local_graph.node_ids();
        let mut j: usize = 0;
        while j < remote_nodes.len()
            invariant
                views(remote_nodes@) == rn,
                rn == remote_graph.node_ids(),
                j <= rn.len(),
                self.local_graph.wf(),
                self.local_graph.node_ids() == mid_nodes,
                forall|x: Seq<char>| #[trigger] mid_nodes.contains(x) <==> (old_nodes.contains(x) || rn.contains(x)),
                forall|e: (Seq<char>, Seq<char>)| old_edges.contains(e) ==> #[trigger] self.local_graph.edge_ids().contains(e),
                forall|p: Seq<char>, b: int| 0 <= b < j && #[trigger] reaches(remote_graph.edge_ids(), p, rn[b]) && mid_nodes.contains(p)
                    ==> #[trigger] self.local_graph.edge_ids().contains((p, rn[b])),
                forall|e: (Seq<char>, Seq<char>)| #[trigger] self.local_graph.edge_ids().contains(e) ==> old_edges.contains(e)
                    || (rn.contains(e.1) && reaches(remote_graph.edge_ids(), e.0, e.1) && mid_nodes.contains(e.0)),
            decreases rn.len() - j,
        {
            let id = remote_nodes[j].clone();
            let parents = remote_graph.ancestors(id.as_str());
            let mut k: usize = 0;
            proof {
                assert(rn.contains(rn[j as int]));
            }
            while k < parents.len()
                invariant
                    views(remote_nodes@) == rn,
                    j < rn.len(),
                    id@ == rn[j as int],
                    k <= parents@.len(),
                    self.local_graph.wf(),
                    self.local_graph.node_ids() == mid_nodes,
                    forall|x: Seq<char>| #[trigger] mid_nodes.contains(x) <==> (old_nodes.contains(x) || rn.contains(x)),
                    forall|a: Seq<char>| views(parents@).contains(a) <==> reaches(remote_graph.edge_ids(), a, id@),
                    forall|e: (Seq<char>, Seq<char>)| old_edges.contains(e) ==> #[trigger] self.local_graph.edge_ids().contains(e),
                    forall|p: Seq<char>, b: int| 0 <= b < j && #[trigger] reaches(remote_graph.edge_ids(), p, rn[b]) && mid_nodes.contains(p)
                        ==> #[trigger] self.local_graph.edge_ids().contains((p, rn[b])),
                    forall|q: int| 0 <= q < k && mid_nodes.contains(#[trigger] views(parents@)[q]) ==> self.local_graph.edge_ids().contains((views(parents@)[q], id@)),
                    forall|e: (Seq<char>, Seq<char>)| #[trigger] self.local_graph.edge_ids().contains(e) ==> old_edges.contains(e)
                        || (rn.contains(e.1) && reaches(remote_graph.edge_ids(), e.0, e.1) && mid_nodes.contains(e.0)),
                decreases parents@.len() - k,
            {
                let ghost before_edges = self.local_graph.edge_ids();
                if self.local_graph.contains(parents[k].as_str()) && self.local_graph.contains(id.as_str()) {
                    proof {
                        assert(views(parents@).contains(views(parents@)[k as int]));
                    }
                    self.local_graph.add_edge(parents[k].clone(), id.clone());
                    proof {
                        let newe = (parents@[k as int]@, id@);
                        assert(self.local_graph.edge_ids() == before_edges.push(newe));
                        assert forall|e: (Seq<char>, Seq<char>)| #[trigger] self.local_graph.edge_ids().contains(e) <==> (before_edges.contains(e) || e == newe) by {
                            if self.local_graph.edge_ids().contains(e) && e != newe {
                                let w = choose|w: int| 0 <= w < self.local_graph.edge_ids().len() && self.local_graph.edge_ids()[w] == e;
                                assert(before_edges[w] == e);
                            }
                            if before_edges.contains(e) {
                                let w = choose|w: int| 0 <= w < before_edges.len() && before_edges[w] == e;
                                assert(self.local_graph.edge_ids()[w] == e);
                            }
                            if e == newe {
                                assert(self.local_graph.edge_ids()[before_edges.len() as int] == e);
                            }
                        }
                    }
                } else {
                    proof {
                        assert(mid_nodes.contains(id@));
                    }
                }
                k = k + 1;
            }
            proof {
                assert forall|p: Seq<char>, b: int| 0 <= b < j + 1 && #[trigger] reaches(remote_graph.edge_ids(), p, rn[b]) && mid_nodes.contains(p)
                    implies #[trigger] self.local_graph.edge_ids().contains((p, rn[b])) by {
                    if b == j {
                        assert(views(parents@).contains(p));
                        let q = choose|q: int| 0 <= q < views(parents@).len() && views(parents@)[q] == p;
                    }
                }
            }
            j = j + 1;
        }
        proof {
            assert forall|p: Seq<char>, x: Seq<char>| rn.contains(x) && #[trigger] reaches(remote_graph.edge_ids(), p, x)
                && mid_nodes.contains(p) implies #[trigger] self.local_graph.edge_ids().contains((p, x)) by {
                let b = choose|b: int| 0 <= b < rn.len() && rn[b] == x;
            }
        }
        let remote_frontier = remote_graph.frontier();
        let conflicts = self.detect_conflicts(remote_frontier.as_slice());
        MergeResult { added, common, conflicts }
    }

    /// The statistics.
    pub fn stats(&self) -> (s: ReconciliationStats)
        ensures
            s == self.spec_stats(),
    {
        self.stats
    }

    /// The local causal graph.
    pub fn graph(&self) -> (g: &CausalGraph)
        ensures
            *g == self.spec_graph(),
    {
        &self.local_graph
    }
}

impl ReconciliationStats {
    /// All counters zero.
    pub open spec fn default_spec() -> Self {
        ReconciliationStats { syncs_performed: 0, total_sent: 0, total_received: 0, total_conflicts: 0, perfect_syncs: 0 }
    }
}

/// Whether an element of a prefix is an element of the whole.
proof fn lemma_take_contains(s: Seq<Seq<char>>, i: int)
    requires
        0 <= i <= s.len(),
    ensures
        forall|x: Seq<char>| #[trigger] s.take(i).contains(x) ==> s.contains(x),
{
    assert forall|x: Seq<char>| #[trigger] s.take(i).contains(x) implies s.contains(x) by {
        let k = choose|k: int| 0 <= k < s.take(i).len() && s.take(i)[k] == x;
        assert(s[k] == x);
    }
}

/// Adding the received distinctions grows the graph by at most that many nodes.
proof fn lemma_node_count_bound(before: Seq<Seq<char>>, after: Seq<Seq<char>>, received: Seq<Seq<char>>)
    requires
        after.no_duplicates(),
        forall|x: Seq<char>| #[trigger] after.contains(x) <==> (before.contains(x) || received.contains(x)),
    ensures
        after.len() <= before.len() + received.len(),
{
    let u = before.to_set().union(received.to_set());
    assert forall|x: Seq<char>| after.to_set().contains(x) implies u.contains(x) by {}
    after.unique_seq_to_set();
    before.lemma_cardinality_of_set();
    received.lemma_cardinality_of_set();
    vstd::set_lib::lemma_len_union(before.to_set(), received.to_set());
    vstd::set_lib::lemma_len_subset(after.to_set(), u);
}

/// Whether some edge ends at `x`.
pub open spec fn is_target(edges: Seq<(Seq<char>, Seq<char>)>, x: Seq<char>) -> bool {
    exists|k: int| 0 <= k < edges.len() && (#[trigger] edges[k]).1 == x
}

/// A chain of edges ends at an edge's target.
proof fn lemma_reach_end_is_target(edges: Seq<(Seq<char>, Seq<char>)>, a: Seq<char>, b: Seq<char>)
    requires
        reaches(edges, a, b),
    ensures
        is_target(edges, b),
{
    let p = choose|p: Seq<Seq<char>>| #[trigger] crate::causal_graph::is_chain(edges, p) && p.len() >= 2 && p[0] == a && p.last() == b;
    let n = p.len();
    assert(edges.contains((p[n - 2], p[(n - 2) + 1])));
    let k = choose|k: int| 0 <= k < edges.len() && edges[k] == (p[n - 2], p[n - 1]);
    assert(edges[k].1 == b);
}

/// A list without repeats of nodes and edge targets is no longer than the two
/// lists together.
proof fn lemma_unique_len_bound(s: Seq<Seq<char>>, nodes: Seq<Seq<char>>, edges: Seq<(Seq<char>, Seq<char>)>)
    requires
        s.no_duplicates(),
        forall|x: Seq<char>| #[trigger] s.contains(x) ==> nodes.contains(x) || is_target(edges, x),
    ensures
        s.len() <= nodes.len() + edges.len(),
{
    let targets = edges.map_values(|e: (Seq<char>, Seq<char>)| e.1);
    let u = nodes.to_set().union(targets.to_set());
    assert forall|x: Seq<char>| s.to_set().contains(x) implies u.contains(x) by {
        if !nodes.contains(x) {
            let k = choose|k: int| 0 <= k < edges.len() && (#[trigger] edges[k]).1 == x;
            assert(targets[k] == x);
        }
    }
    s.unique_seq_to_set();
    nodes.lemma_cardinality_of_set();
    targets.lemma_cardinality_of_set();
    vstd::set_lib::lemma_len_union(nodes.to_set(), targets.to_set());
    vstd::set_lib::lemma_len_subset(s.to_set(), u);
}

/// Filtering a list without repeats leaves a list without repeats.
proof fn lemma_filter_keeps_unique(s: Seq<Seq<char>>, pred: spec_fn(Seq<char>) -> bool)
    requires
        s.no_duplicates(),
    ensures
        s.filter(pred).no_duplicates(),
    decreases s.len(),
{
    reveal(Seq::filter);
    if s.len() > 0 {
        let p = s.drop_last();
        assert(p.no_duplicates()) by {
            assert forall|i: int, j: int| 0 <= i < p.len() && 0 <= j < p.len() && i != j implies p[i] != p[j] by {
                assert(s[i] == p[i] && s[j] == p[j]);
            }
        }
        lemma_filter_keeps_unique(p, pred);
        if pred(s.last()) {
            assert(!p.filter(pred).contains(s.last())) by {
                if p.filter(pred).contains(s.last()) {
                    p.lemma_filter_contains_rev(pred, s.last());
                    let k = choose|k: int| 0 <= k < p.len() && p[k] == s.last();
                    assert(s[k] == s[s.len() - 1]);
                }
            }
            let f = p.filter(pred).push(s.last());
            assert forall|i: int, j: int| 0 <= i < f.len() && 0 <= j < f.len() && i != j implies f[i] != f[j] by {
                if i == f.len() - 1 {
                    assert(p.filter(pred).contains(f[j]));
                } else if j == f.len() - 1 {
                    assert(p.filter(pred).contains(f[i]));
                }
            }
        }
    }
}

} // verus!
