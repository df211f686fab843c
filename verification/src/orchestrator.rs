//! The orchestrator: the registry of agents with their capabilities, and the
//! rhythmic coordination cycles (pulses) that external systems follow.

use vstd::prelude::*;
use crate::processes::distillation::{wrap_add, wrapping_add};
use crate::reference_graph::{drop_all, lemma_drop_all_twice, without_id};
use crate::strings::{str_eq, views};

verus! {

/// Capabilities an agent can provide.
#[derive(Debug, Clone)]
pub enum AgentCapability {
    /// Storage operations
    Storage,
    /// Memory tier management
    MemoryTiering,
    /// Authentication/identity
    Identity,
    /// Network/distributed operations
    Network,
    /// Query processing
    Query,
    /// View maintenance
    Views,
    /// Vector search
    VectorSearch,
    /// Background processes
    Processes,
    /// Lifecycle management
    Lifecycle,
    /// Custom capability
    Custom(String),
}

/// A capability by plain values: its variant, and the name of a custom one.
pub open spec fn cap_key(c: AgentCapability) -> (int, Seq<char>) {
    match c {
        AgentCapability::Storage => (0, Seq::empty()),
        AgentCapability::MemoryTiering => (1, Seq::empty()),
        AgentCapability::Identity => (2, Seq::empty()),
        AgentCapability::Network => (3, Seq::empty()),
        AgentCapability::Query => (4, Seq::empty()),
        AgentCapability::Views => (5, Seq::empty()),
        AgentCapability::VectorSearch => (6, Seq::empty()),
        AgentCapability::Processes => (7, Seq::empty()),
        AgentCapability::Lifecycle => (8, Seq::empty()),
        AgentCapability::Custom(s) => (9, s@),
    }
}

impl AgentCapability {
    /// A copy of this capability.
    pub fn duplicate(&self) -> (r: Self)
        ensures
            r == *self,
    {
        match self {
            AgentCapability::Storage => AgentCapability::Storage,
            AgentCapability::MemoryTiering => AgentCapability::MemoryTiering,
            AgentCapability::Identity => AgentCapability::Identity,
            AgentCapability::Network => AgentCapability::Network,
            AgentCapability::Query => AgentCapability::Query,
            AgentCapability::Views => AgentCapability::Views,
            AgentCapability::VectorSearch => AgentCapability::VectorSearch,
            AgentCapability::Processes => AgentCapability::Processes,
            AgentCapability::Lifecycle => AgentCapability::Lifecycle,
            AgentCapability::Custom(s) => AgentCapability::Custom(s.clone()),
        }
    }

    /// Whether two capabilities are the same.
    pub fn same_as(&self, other: &AgentCapability) -> (r: bool)
        ensures
            r == (cap_key(*self) == cap_key(*other)),
    {
        match (self, other) {
            (AgentCapability::Storage, AgentCapability::Storage) => true,
            (AgentCapability::MemoryTiering, AgentCapability::MemoryTiering) => true,
            (AgentCapability::Identity, AgentCapability::Identity) => true,
            (AgentCapability::Network, AgentCapability::Network) => true,
            (AgentCapability::Query, AgentCapability::Query) => true,
            (AgentCapability::Views, AgentCapability::Views) => true,
            (AgentCapability::VectorSearch, AgentCapability::VectorSearch) => true,
            (AgentCapability::Processes, AgentCapability::Processes) => true,
            (AgentCapability::Lifecycle, AgentCapability::Lifecycle) => true,
            (AgentCapability::Custom(a), AgentCapability::Custom(b)) => str_eq(a.as_str(), b.as_str()),
            _ => false,
        }
    }
}

/// Information about a registered agent.
#[derive(Debug, Clone)]
pub struct AgentInfo {
    /// Unique identifier for the agent.
    pub id: String,
    /// Human-readable name.
    pub name: String,
    /// The ID of the agent's local root distinction.
    pub root: String,
    /// Agent type identifier.
    pub agent_type: String,
    /// Capabilities this agent provides.
    pub capabilities: Vec<AgentCapability>,
}

impl AgentInfo {
    /// A copy of this record.
    pub fn duplicate(&self) -> (r: Self)
        ensures
            same_info(r, *self),
    {
        let mut caps: Vec<AgentCapability> = Vec::new();
        let mut i: usize = 0;
        while i < self.capabilities.len()
            invariant
                i <= self.capabilities@.len(),
                caps@ == self.capabilities@.take(i as int),
            decreases self.capabilities@.len() - i,
        {
            caps.push(self.capabilities[i].duplicate());
            proof {
                assert(self.capabilities@.take(i + 1) =~= self.capabilities@.take(i as int).push(self.capabilities@[i as int]));
            }
            i = i + 1;
        }
        proof {
            assert(self.capabilities@.take(self.capabilities@.len() as int) =~= self.capabilities@);
        }
        AgentInfo {
            id: self.id.clone(),
            name: self.name.clone(),
            root: self.root.clone(),
            agent_type: self.agent_type.clone(),
            capabilities: caps,
        }
    }
}

/// Whether two records hold the same values.
pub open spec fn same_info(a: AgentInfo, b: AgentInfo) -> bool {
    a.id == b.id && a.name == b.name && a.root == b.root && a.agent_type == b.agent_type
        && a.capabilities@ == b.capabilities@
}

/// The first agent with ID `id`, if any.
pub open spec fn lookup(agents: Seq<AgentInfo>, id: Seq<char>) -> Option<AgentInfo>
    decreases agents.len(),
{
    if agents.len() == 0 {
        None
    } else if agents[0].id@ == id {
        Some(agents[0])
    } else {
        lookup(agents.drop_first(), id)
    }
}

/// Whether no two agents share an ID.
pub open spec fn distinct_ids(agents: Seq<AgentInfo>) -> bool {
    forall|a: int, b: int| 0 <= a < b < agents.len() ==> (#[trigger] agents[a]).id@ != (#[trigger] agents[b]).id@
}

/// The agent IDs listed under capability `key` in an index.
pub open spec fn ids_for(index: Seq<(AgentCapability, Vec<String>)>, key: (int, Seq<char>)) -> Seq<Seq<char>>
    decreases index.len(),
{
    if index.len() == 0 {
        Seq::empty()
    } else if cap_key(index[0].0) == key {
        views(index[0].1@)
    } else {
        ids_for(index.drop_first(), key)
    }
}

/// How many of `caps` are the capability `key`.
pub open spec fn cap_count(caps: Seq<AgentCapability>, key: (int, Seq<char>)) -> nat
    decreases caps.len(),
{
    if caps.len() == 0 {
        0
    } else {
        cap_count(caps.drop_last(), key) + if cap_key(caps.last()) == key { 1nat } else { 0nat }
    }
}

/// Whether `caps` holds the capability `key`.
pub open spec fn has_cap(caps: Seq<AgentCapability>, key: (int, Seq<char>)) -> bool {
    exists|i: int| 0 <= i < caps.len() && cap_key(#[trigger] caps[i]) == key
}

/// `id`, `n` times.
pub open spec fn repeated(id: Seq<char>, n: nat) -> Seq<Seq<char>> {
    Seq::new(n, |i: int| id)
}

/// The agents found for the IDs `ids`, in order, skipping IDs of no agent.
pub open spec fn found_agents(agents: Seq<AgentInfo>, ids: Seq<Seq<char>>) -> Seq<AgentInfo>
    decreases ids.len(),
{
    if ids.len() == 0 {
        Seq::empty()
    } else {
        let rest = found_agents(agents, ids.drop_last());
        match lookup(agents, ids.last()) {
            Some(a) => rest.push(a),
            None => rest,
        }
    }
}

proof fn lemma_lookup(agents: Seq<AgentInfo>, id: Seq<char>)
    ensures
        match lookup(agents, id) {
            Some(a) => exists|i: int| 0 <= i < agents.len() && agents[i] == a && a.id@ == id
                && forall|j: int| 0 <= j < i ==> agents[j].id@ != id,
            None => forall|j: int| 0 <= j < agents.len() ==> agents[j].id@ != id,
        },
    decreases agents.len(),
{
    if agents.len() > 0 && agents[0].id@ != id {
        lemma_lookup(agents.drop_first(), id);
        match lookup(agents.drop_first(), id) {
            Some(a) => {
                let i = choose|i: int| 0 <= i < agents.drop_first().len() && agents.drop_first()[i] == a && a.id@ == id
                    && forall|j: int| 0 <= j < i ==> agents.drop_first()[j].id@ != id;
                assert(agents[i + 1] == a);
                assert forall|j: int| 0 <= j < i + 1 implies agents[j].id@ != id by {
                    if j > 0 {
                        assert(agents[j] == agents.drop_first()[j - 1]);
                    }
                }
            },
            None => {
                assert forall|j: int| 0 <= j < agents.len() implies agents[j].id@ != id by {
                    if j > 0 {
                        assert(agents[j] == agents.drop_first()[j - 1]);
                    }
                }
            },
        }
    }
}

/// With distinct IDs, the agent at position `i` is the one found for its ID.
proof fn lemma_lookup_at(agents: Seq<AgentInfo>, i: int)
    requires
        distinct_ids(agents),
        0 <= i < agents.len(),
    ensures
        lookup(agents, agents[i].id@) == Some(agents[i]),
{
    lemma_lookup(agents, agents[i].id@);
    match lookup(agents, agents[i].id@) {
        Some(a) => {
            let k = choose|k: int| 0 <= k < agents.len() && agents[k] == a && a.id@ == agents[i].id@
                && forall|j: int| 0 <= j < k ==> agents[j].id@ != agents[i].id@;
            if k != i {
                if k < i {
                    assert(agents[k].id@ != agents[i].id@);
                }
            }
        },
        None => {},
    }
}

proof fn lemma_cap_count_positive(caps: Seq<AgentCapability>, key: (int, Seq<char>))
    ensures
        cap_count(caps, key) > 0 <==> has_cap(caps, key),
    decreases caps.len(),
{
    if caps.len() > 0 {
        lemma_cap_count_positive(caps.drop_last(), key);
        if has_cap(caps, key) {
            let i = choose|i: int| 0 <= i < caps.len() && cap_key(#[trigger] caps[i]) == key;
            if i < caps.len() - 1 {
                assert(caps.drop_last()[i] == caps[i]);
            }
        }
        if has_cap(caps.drop_last(), key) {
            let i = choose|i: int| 0 <= i < caps.drop_last().len() && cap_key(#[trigger] caps.drop_last()[i]) == key;
            assert(caps[i] == caps.drop_last()[i]);
        }
    }
}

/// Registry of all agents.
#[derive(Debug)]
pub struct AgentRegistry {
    /// The registered agents, each ID once.
    agents: Vec<AgentInfo>,
    /// For each capability (each once), the IDs of the agents registered with it.
    capabilities: Vec<(AgentCapability, Vec<String>)>,
}

impl AgentRegistry {
    /// The registered agents.
    pub closed spec fn agent_seq(&self) -> Seq<AgentInfo> {
        self.agents@
    }

    /// The agent IDs registered under capability `key`, in registration order.
    pub closed spec fn index(&self, key: (int, Seq<char>)) -> Seq<Seq<char>> {
        ids_for(self.capabilities@, key)
    }

    /// The registered agent with ID `id`, if any.
    pub open spec fn agent(&self, id: Seq<char>) -> Option<AgentInfo> {
        lookup(self.agent_seq(), id)
    }

    /// Each agent ID and each capability is held once.
    pub closed spec fn wf(&self) -> bool {
        &&& distinct_ids(self.agents@)
        &&& forall|a: int, b: int| 0 <= a < b < self.capabilities@.len()
            ==> cap_key((#[trigger] self.capabilities@[a]).0) != cap_key((#[trigger] self.capabilities@[b]).0)
    }

    /// An empty registry.
    pub fn new() -> (r: Self)
        ensures
            r.wf(),
            r.agent_seq().len() == 0,
            forall|key: (int, Seq<char>)| #[trigger] r.index(key) == Seq::<Seq<char>>::empty(),
    {
        AgentRegistry { agents: Vec::new(), capabilities: Vec::new() }
    }

    /// Register an agent: its ID is added under each of its capabilities (once
    /// per listing), and it replaces any agent with the same ID.
    pub fn register(&mut self, info: AgentInfo)
        requires
            old(self).wf(),
        ensures
            final(self).wf(),
            final(self).agent(info.id@) == Some(info),
            forall|id: Seq<char>| id != info.id@ ==> #[trigger] final(self).agent(id) == old(self).agent(id),
            forall|key: (int, Seq<char>)| #[trigger] final(self).index(key)
                == old(self).index(key) + repeated(info.id@, cap_count(info.capabilities@, key)),
    {
        let mut i: usize = 0;
        while i < info.capabilities.len()
            invariant
                self.wf(),
                i <= info.capabilities@.len(),
                self.agents@ == old(self).agents@,
                forall|key: (int, Seq<char>)| #[trigger] self.index(key)
                    == old(self).index(key) + repeated(info.id@, cap_count(info.capabilities@.take(i as int), key)),
            decreases info.capabilities@.len() - i,
        {
            let ghost before = self.capabilities@;
            self.index_push(&info.capabilities[i], info.id.clone());
            proof {
                assert(info.capabilities@.take(i + 1).drop_last() =~= info.capabilities@.take(i as int));
                assert(info.capabilities@.take(i + 1).last() == info.capabilities@[i as int]);
                assert forall|key: (int, Seq<char>)| #[trigger] self.index(key)
                    == old(self).index(key) + repeated(info.id@, cap_count(info.capabilities@.take(i + 1), key)) by {
                    let n = cap_count(info.capabilities@.take(i as int), key);
                    if cap_key(info.capabilities@[i as int]) == key {
                        assert(repeated(info.id@, n).push(info.id@) =~= repeated(info.id@, n + 1));
                        assert(old(self).index(key) + repeated(info.id@, n + 1) =~= (old(self).index(key) + repeated(info.id@, n)).push(info.id@));
                    }
                }
            }
            i = i + 1;
        }
        proof {
            assert(info.capabilities@.take(info.capabilities@.len() as int) =~= info.capabilities@);
        }
        let ghost mid = self.capabilities@;
        let ghost caps = info.capabilities@;
        let ghost iid = info.id@;
        proof {
            assert forall|key: (int, Seq<char>)| #[trigger] ids_for(mid, key)
                == old(self).index(key) + repeated(iid, cap_count(caps, key)) by {
                assert(self.index(key) == ids_for(mid, key));
            }
        }
        self.put_agent(info);
        proof {
            assert forall|key: (int, Seq<char>)| #[trigger] self.index(key)
                == old(self).index(key) + repeated(iid, cap_count(caps, key)) by {
                assert(self.index(key) == ids_for(mid, key));
            }
        }
    }

    /// Unregister an agent: it leaves the registry, and its ID leaves the list
    /// of each of its capabilities. An unknown ID changes nothing.
    pub fn unregister(&mut self, agent_id: &str)
        requires
            old(self).wf(),
        ensures
            final(self).wf(),
            final(self).agent(agent_id@) is None,
            forall|id: Seq<char>| id != agent_id@ ==> #[trigger] final(self).agent(id) == old(self).agent(id),
            forall|key: (int, Seq<char>)| #[trigger] final(self).index(key) == match old(self).agent(agent_id@) {
                Some(info) => if has_cap(info.capabilities@, key) {
                    drop_all(old(self).index(key), agent_id@)
                } else {
                    old(self).index(key)
                },
                None => old(self).index(key),
            },
    {
        match self.position(agent_id) {
            None => {},
            Some(p) => {
                let ghost s = self.agents@;
                let info = self.agents.remove(p);
                proof {
                    lemma_lookup_remove(s, p as int);
                }
                let mut i: usize = 0;
                while i < info.capabilities.len()
                    invariant
                        self.wf(),
                        i <= info.capabilities@.len(),
                        self.agents@ == s.remove(p as int),
                        info == s[p as int],
                        info.id@ == agent_id@,
                        forall|key: (int, Seq<char>)| #[trigger] self.index(key)
                            == if has_cap(info.capabilities@.take(i as int), key) {
                                drop_all(old(self).index(key), agent_id@)
                            } else {
                                old(self).index(key)
                            },
                    decreases info.capabilities@.len() - i,
                {
                    let ghost caps = info.capabilities@;
                    self.index_strip(&info.capabilities[i], agent_id);
                    proof {
                        assert forall|key: (int, Seq<char>)| #[trigger] self.index(key)
                            == if has_cap(caps.take(i + 1), key) {
                                drop_all(old(self).index(key), agent_id@)
                            } else {
                                old(self).index(key)
                            } by {
                            lemma_has_cap_take(caps, i as int, key);
                            lemma_drop_all_twice(old(self).index(key), agent_id@);
                        }
                    }
                    i = i + 1;
                }
                proof {
                    assert(info.capabilities@.take(info.capabilities@.len() as int) =~= info.capabilities@);
                }
            },
        }
    }

    /// Drop `id` from the list of capability `cap`, if there is one.
    fn index_strip(&mut self, cap: &AgentCapability, id: &str)
        requires
            old(self).wf(),
        ensures
            final(self).wf(),
            final(self).agents@ == old(self).agents@,
            forall|key: (int, Seq<char>)| #[trigger] final(self).index(key) == if key == cap_key(*cap) {
                drop_all(old(self).index(key), id@)
            } else {
                old(self).index(key)
            },
    {
        let ghost idx = self.capabilities@;
        let mut p: usize = 0;
        while p < self.capabilities.len() && !self.capabilities[p].0.same_as(cap)
            invariant
                p <= self.capabilities@.len(),
                self.capabilities@ == idx,
                forall|q: int| 0 <= q < p ==> cap_key((#[trigger] idx[q]).0) != cap_key(*cap),
            decreases self.capabilities@.len() - p,
        {
            p = p + 1;
        }
        proof {
            lemma_ids_for_prefix(idx, p as int);
        }
        if p < self.capabilities.len() {
            let mut entry = self.capabilities.remove(p);
            let kept = without_id(&entry.1, id);
            entry.1 = kept;
            self.capabilities.insert(p, entry);
            proof {
                assert(self.capabilities@ == idx.update(p as int, self.capabilities@[p as int]));
                lemma_ids_for_update(idx, p as int, self.capabilities@[p as int]);
            }
        } else {
            proof {
                assert(idx.skip(p as int) =~= Seq::<(AgentCapability, Vec<String>)>::empty());
                reveal(Seq::filter);
                assert(drop_all(Seq::<Seq<char>>::empty(), id@) =~= Seq::<Seq<char>>::empty());
            }
        }
    }

    /// The position of the agent with ID `id`, if there is one.
    fn position(&self, id: &str) -> (r: Option<usize>)
        requires
            self.wf(),
        ensures
            match r {
                Some(p) => p < self.agent_seq().len() && self.agent_seq()[p as int].id@ == id@
                    && self.agent(id@) == Some(self.agent_seq()[p as int]),
                None => self.agent(id@) is None,
            },
    {
        let mut p: usize = 0;
        while p < self.agents.len()
            invariant
                self.wf(),
                p <= self.agents@.len(),
                forall|q: int| 0 <= q < p ==> (#[trigger] self.agents@[q]).id@ != id@,
            decreases self.agents@.len() - p,
        {
            if str_eq(self.agents[p].id.as_str(), id) {
                proof {
                    lemma_lookup_at(self.agents@, p as int);
                }
                return Some(p);
            }
            p = p + 1;
        }
        proof {
            lemma_lookup(self.agents@, id@);
        }
        None
    }

    /// The agent with ID `agent_id`, if registered.
    pub fn get(&self, agent_id: &str) -> (r: Option<&AgentInfo>)
        requires
            self.wf(),
        ensures
            match r {
                Some(a) => self.agent(agent_id@) == Some(*a),
                None => self.agent(agent_id@) is None,
            },
    {
        match self.position(agent_id) {
            Some(p) => Some(&self.agents[p]),
            None => None,
        }
    }

    /// All registered agents, in registration order.
    pub fn list(&self) -> (r: Vec<&AgentInfo>)
        ensures
            r@.len() == self.agent_seq().len(),
            forall|i: int| 0 <= i < r@.len() ==> *(#[trigger] r@[i]) == self.agent_seq()[i],
    {
        let mut r: Vec<&AgentInfo> = Vec::new();
        let mut i: usize = 0;
        while i < self.agents.len()
            invariant
                i <= self.agents@.len(),
                r@.len() == i,
                forall|j: int| 0 <= j < i ==> *(#[trigger] r@[j]) == self.agents@[j],
            decreases self.agents@.len() - i,
        {
            r.push(&self.agents[i]);
            i = i + 1;
        }
        r
    }

    /// The agents registered with `capability`, in the order of its list.
    pub fn find_by_capability(&self, capability: AgentCapability) -> (r: Vec<&AgentInfo>)
        requires
            self.wf(),
        ensures
            r@.len() == found_agents(self.agent_seq(), self.index(cap_key(capability))).len(),
            forall|i: int| 0 <= i < r@.len()
                ==> *(#[trigger] r@[i]) == found_agents(self.agent_seq(), self.index(cap_key(capability)))[i],
    {
        let ghost key = cap_key(capability);
        let mut p: usize = 0;
        while p < self.capabilities.len() && !self.capabilities[p].0.same_as(&capability)
            invariant
                key == cap_key(capability),
                p <= self.capabilities@.len(),
                forall|q: int| 0 <= q < p ==> cap_key((#[trigger] self.capabilities@[q]).0) != key,
            decreases self.capabilities@.len() - p,
        {
            p = p + 1;
        }
        proof {
            lemma_ids_for_prefix(self.capabilities@, p as int);
        }
        let mut r: Vec<&AgentInfo> = Vec::new();
        if p == self.capabilities.len() {
            proof {
                assert(self.capabilities@.skip(p as int) =~= Seq::<(AgentCapability, Vec<String>)>::empty());
            }
            return r;
        }
        let ids = &self.capabilities[p].1;
        let ghost want = views(ids@);
        proof {
            assert(self.capabilities@.skip(p as int)[0] == self.capabilities@[p as int]);
            assert(self.index(key) == want);
        }
        let mut j: usize = 0;
        while j < ids.len()
            invariant
                self.wf(),
                j <= ids@.len(),
                want == views(ids@),
                r@.len() == found_agents(self.agents@, want.take(j as int)).len(),
                forall|i: int| 0 <= i < r@.len()
                    ==> *(#[trigger] r@[i]) == found_agents(self.agents@, want.take(j as int))[i],
            decreases ids@.len() - j,
        {
            let ghost before = found_agents(self.agents@, want.take(j as int));
            proof {
                assert(want.take(j + 1).drop_last() =~= want.take(j as int));
                assert(want.take(j + 1).last() == ids@[j as int]@);
            }
            match self.get(ids[j].as_str()) {
                Some(a) => {
                    r.push(a);
                },
                None => {},
            }
            j = j + 1;
        }
        proof {
            assert(want.take(ids@.len() as int) =~= want);
        }
        r
    }

    /// Add `id` to the list of capability `cap`, starting the list if needed.
    fn index_push(&mut self, cap: &AgentCapability, id: String)
        requires
            old(self).wf(),
        ensures
            final(self).wf(),
            final(self).agents@ == old(self).agents@,
            forall|key: (int, Seq<char>)| #[trigger] final(self).index(key) == if key == cap_key(*cap) {
                old(self).index(key).push(id@)
            } else {
                old(self).index(key)
            },
    {
        let ghost idx = self.capabilities@;
        let mut p: usize = 0;
        while p < self.capabilities.len() && !self.capabilities[p].0.same_as(cap)
            invariant
                p <= self.capabilities@.len(),
                self.capabilities@ == idx,
                forall|q: int| 0 <= q < p ==> cap_key((#[trigger] idx[q]).0) != cap_key(*cap),
            decreases self.capabilities@.len() - p,
        {
            p = p + 1;
        }
        proof {
            lemma_ids_for_prefix(idx, p as int);
        }
        if p < self.capabilities.len() {
            let mut entry = self.capabilities.remove(p);
            entry.1.push(id);
            self.capabilities.insert(p, entry);
            proof {
                assert(self.capabilities@ == idx.update(p as int, self.capabilities@[p as int]));
                lemma_ids_for_update(idx, p as int, self.capabilities@[p as int]);
            }
        } else {
            let mut list: Vec<String> = Vec::new();
            list.push(id);
            self.capabilities.push((cap.duplicate(), list));
            proof {
                lemma_ids_for_push(idx, self.capabilities@.last());
                assert(views(list@) =~= seq![id@]);
                assert forall|a: int, b: int| 0 <= a < b < self.capabilities@.len()
                    implies cap_key((#[trigger] self.capabilities@[a]).0) != cap_key((#[trigger] self.capabilities@[b]).0) by {
                    if b == self.capabilities@.len() - 1 {
                        assert(self.capabilities@[a] == idx[a]);
                    }
                }
            }
        }
    }

    /// Store `info`, replacing the agent with the same ID if there is one.
    fn put_agent(&mut self, info: AgentInfo)
        requires
            old(self).wf(),
        ensures
            final(self).wf(),
            final(self).capabilities@ == old(self).capabilities@,
            final(self).agent(info.id@) == Some(info),
            forall|id: Seq<char>| id != info.id@ ==> #[trigger] final(self).agent(id) == old(self).agent(id),
    {
        let ghost s = self.agents@;
        let mut p: usize = 0;
        while p < self.agents.len() && !str_eq(self.agents[p].id.as_str(), info.id.as_str())
            invariant
                p <= self.agents@.len(),
                self.agents@ == s,
                forall|q: int| 0 <= q < p ==> (#[trigger] s[q]).id@ != info.id@,
            decreases self.agents@.len() - p,
        {
            p = p + 1;
        }
        let ghost iv = info;
        if p < self.agents.len() {
            self.agents.set(p, info);
            proof {
                assert(self.agents@ == s.update(p as int, iv));
                assert forall|a: int, b: int| 0 <= a < b < self.agents@.len()
                    implies (#[trigger] self.agents@[a]).id@ != (#[trigger] self.agents@[b]).id@ by {
                    assert(s[p as int].id@ == iv.id@);
                }
                lemma_lookup_at(self.agents@, p as int);
                assert forall|id: Seq<char>| id != iv.id@ implies #[trigger] lookup(self.agents@, id) == lookup(s, id) by {
                    lemma_lookup(s, id);
                    lemma_lookup(self.agents@, id);
                    match lookup(s, id) {
                        Some(a) => {
                            let k = choose|k: int| 0 <= k < s.len() && s[k] == a && a.id@ == id
                                && forall|j: int| 0 <= j < k ==> s[j].id@ != id;
                            assert(k != p);
                            assert(self.agents@[k] == a);
                            lemma_lookup_at(self.agents@, k);
                        },
                        None => {
                            match lookup(self.agents@, id) {
                                Some(b) => {
                                    let k = choose|k: int| 0 <= k < self.agents@.len() && self.agents@[k] == b && b.id@ == id
                                        && forall|j: int| 0 <= j < k ==> self.agents@[j].id@ != id;
                                    assert(k != p);
                                    assert(s[k].id@ == id);
                                },
                                None => {},
                            }
                        },
                    }
                }
            }
        } else {
            self.agents.push(info);
            proof {
                assert(self.agents@ == s.push(iv));
                assert forall|a: int, b: int| 0 <= a < b < self.agents@.len()
                    implies (#[trigger] self.agents@[a]).id@ != (#[trigger] self.agents@[b]).id@ by {
                    if b == s.len() {
                        assert(self.agents@[a] == s[a]);
                    }
                }
                lemma_lookup_at(self.agents@, s.len() as int);
                assert forall|id: Seq<char>| id != iv.id@ implies #[trigger] lookup(self.agents@, id) == lookup(s, id) by {
                    lemma_lookup(s, id);
                    lemma_lookup(self.agents@, id);
                    match lookup(s, id) {
                        Some(a) => {
                            let k = choose|k: int| 0 <= k < s.len() && s[k] == a && a.id@ == id
                                && forall|j: int| 0 <= j < k ==> s[j].id@ != id;
                            assert(self.agents@[k] == a);
                            lemma_lookup_at(self.agents@, k);
                        },
                        None => {
                            match lookup(self.agents@, id) {
                                Some(b) => {
                                    let k = choose|k: int| 0 <= k < self.agents@.len() && self.agents@[k] == b && b.id@ == id
                                        && forall|j: int| 0 <= j < k ==> self.agents@[j].id@ != id;
                                    if k < s.len() {
                                        assert(s[k].id@ == id);
                                    }
                                },
                                None => {},
                            }
                        },
                    }
                }
            }
        }
    }
}

/// Phases of a coordination cycle: hooks for external systems to coordinate
/// their operations with the internal state.
#[derive(Debug, Clone, Copy, PartialEq, Eq, Structural, Hash)]
pub enum CoordinationPhase {
    /// External systems provide input.
    Input,
    /// Internal computation.
    Processing,
    /// Results are available to external systems.
    Output,
    /// Memory optimization.
    Consolidation,
    /// Internal pattern discovery.
    Exploration,
    /// Waiting for the next cycle.
    Idle,
}

impl Default for CoordinationPhase {
    fn default() -> (r: Self)
        ensures
            r == CoordinationPhase::Idle,
    {
        CoordinationPhase::Idle
    }
}

/// The phases a coordinator starts with.
pub open spec fn default_sequence() -> Seq<CoordinationPhase> {
    seq![
        CoordinationPhase::Input,
        CoordinationPhase::Processing,
        CoordinationPhase::Output,
        CoordinationPhase::Consolidation,
    ]
}

/// Coordinator for rhythmic external coordination cycles: a current phase,
/// and a sequence of phases walked round by `next_phase`.
#[derive(Debug)]
pub struct PulseCoordinator {
    current_phase: CoordinationPhase,
    phase_sequence: Vec<CoordinationPhase>,
    sequence_position: usize,
}

impl PulseCoordinator {
    /// The current phase.
    pub closed spec fn phase(&self) -> CoordinationPhase {
        self.current_phase
    }

    /// The phase sequence.
    pub closed spec fn phases(&self) -> Seq<CoordinationPhase> {
        self.phase_sequence@
    }

    /// The position in the sequence of the last phase handed out.
    pub closed spec fn position(&self) -> nat {
        self.sequence_position as nat
    }

    /// The position is in the sequence, or 0.
    pub open spec fn wf(&self) -> bool {
        self.position() == 0 || self.position() < self.phases().len()
    }

    /// A coordinator over Input, Processing, Output, Consolidation.
    pub fn new() -> (r: Self)
        ensures
            r.wf(),
            r.phases() == default_sequence(),
            r.phase() == CoordinationPhase::Idle,
            r.position() == 0,
    {
        let r = Self::with_sequence(vec![
            CoordinationPhase::Input,
            CoordinationPhase::Processing,
            CoordinationPhase::Output,
            CoordinationPhase::Consolidation,
        ]);
        proof {
            assert(r.phases() =~= default_sequence());
        }
        r
    }

    /// A coordinator over a custom phase sequence.
    pub fn with_sequence(phase_sequence: Vec<CoordinationPhase>) -> (r: Self)
        ensures
            r.wf(),
            r.phases() == phase_sequence@,
            r.phase() == CoordinationPhase::Idle,
            r.position() == 0,
    {
        PulseCoordinator { current_phase: CoordinationPhase::Idle, phase_sequence, sequence_position: 0 }
    }

    /// The current phase.
    pub fn current_phase(&self) -> (r: CoordinationPhase)
        ensures
            r == self.phase(),
    {
        self.current_phase
    }

    /// Step to the next position in the sequence, wrapping round, and give
    /// its phase. The current phase is left as it is.
    pub fn next_phase(&mut self) -> (r: CoordinationPhase)
        requires
            old(self).wf(),
            old(self).phases().len() > 0,
        ensures
            final(self).wf(),
            final(self).position() == (old(self).position() + 1) % old(self).phases().len(),
            r == old(self).phases()[final(self).position() as int],
            final(self).phases() == old(self).phases(),
            final(self).phase() == old(self).phase(),
    {
        assert(self.sequence_position < self.phase_sequence.len());
        self.sequence_position = (self.sequence_position + 1) % self.phase_sequence.len();
        self.phase_sequence[self.sequence_position]
    }

    /// The phase sequence.
    pub fn sequence(&self) -> (r: &[CoordinationPhase])
        ensures
            r@ == self.phases(),
    {
        self.phase_sequence.as_slice()
    }

    /// Replace the phase sequence and start it again from its beginning.
    pub fn set_sequence(&mut self, sequence: Vec<CoordinationPhase>)
        ensures
            final(self).wf(),
            final(self).phases() == sequence@,
            final(self).position() == 0,
            final(self).phase() == old(self).phase(),
    {
        self.phase_sequence = sequence;
        self.sequence_position = 0;
    }

    /// Enter `phase`.
    fn set_phase(&mut self, phase: CoordinationPhase)
        ensures
            final(self).phase() == phase,
            final(self).phases() == old(self).phases(),
            final(self).position() == old(self).position(),
    {
        self.current_phase = phase;
    }
}

impl Default for PulseCoordinator {
    fn default() -> (r: Self)
        ensures
            r.wf(),
            r.phases() == default_sequence(),
            r.phase() == CoordinationPhase::Idle,
            r.position() == 0,
    {
        Self::new()
    }
}

/// Orchestrator statistics.
#[derive(Debug, Clone)]
pub struct OrchestratorStats {
    pub agents_registered: u64,
    pub pulses_triggered: u64,
    pub active_agents: u64,
    pub current_phase: CoordinationPhase,
}

/// The central orchestrator: the registry of agents and the pulse
/// coordinator, with counts of registrations and pulses.
#[derive(Debug)]
pub struct KoruOrchestrator {
    agents: AgentRegistry,
    pulse: PulseCoordinator,
    agents_registered: u64,
    pulses_triggered: u64,
}

impl KoruOrchestrator {
    /// The agent registry.
    pub closed spec fn registry(&self) -> AgentRegistry {
        self.agents
    }

    /// The pulse coordinator.
    pub closed spec fn pulses(&self) -> PulseCoordinator {
        self.pulse
    }

    /// Registrations so far (wrapping).
    pub closed spec fn registered_count(&self) -> u64 {
        self.agents_registered
    }

    /// Pulses so far (wrapping).
    pub closed spec fn pulse_count(&self) -> u64 {
        self.pulses_triggered
    }

    /// The registry and the coordinator are well formed, and the phase
    /// sequence is not empty.
    pub open spec fn wf(&self) -> bool {
        self.registry().wf() && self.pulses().wf() && self.pulses().phases().len() > 0
    }

    /// An orchestrator with no agents, the default phase sequence, phase Idle.
    pub fn new() -> (r: Self)
        ensures
            r.wf(),
            r.registry().agent_seq().len() == 0,
            forall|key: (int, Seq<char>)| #[trigger] r.registry().index(key) == Seq::<Seq<char>>::empty(),
            r.pulses().phases() == default_sequence(),
            r.pulses().phase() == CoordinationPhase::Idle,
            r.pulses().position() == 0,
            r.registered_count() == 0,
            r.pulse_count() == 0,
    {
        KoruOrchestrator {
            agents: AgentRegistry::new(),
            pulse: PulseCoordinator::new(),
            agents_registered: 0,
            pulses_triggered: 0,
        }
    }

    /// Register an agent (see `AgentRegistry::register`) and count it.
    pub fn register_agent(&mut self, info: AgentInfo)
        requires
            old(self).wf(),
        ensures
            final(self).wf(),
            final(self).registry().agent(info.id@) == Some(info),
            forall|id: Seq<char>| id != info.id@ ==> #[trigger] final(self).registry().agent(id) == old(self).registry().agent(id),
            forall|key: (int, Seq<char>)| #[trigger] final(self).registry().index(key)
                == old(self).registry().index(key) + repeated(info.id@, cap_count(info.capabilities@, key)),
            final(self).registered_count() == wrap_add(old(self).registered_count(), 1),
            final(self).pulse_count() == old(self).pulse_count(),
            final(self).pulses() == old(self).pulses(),
    {
        self.agents.register(info);
        self.agents_registered = wrapping_add(self.agents_registered, 1);
    }

    /// Unregister an agent (see `AgentRegistry::unregister`).
    pub fn unregister_agent(&mut self, agent_id: &str)
        requires
            old(self).wf(),
        ensures
            final(self).wf(),
            final(self).registry().agent(agent_id@) is None,
            forall|id: Seq<char>| id != agent_id@ ==> #[trigger] final(self).registry().agent(id) == old(self).registry().agent(id),
            forall|key: (int, Seq<char>)| #[trigger] final(self).registry().index(key) == match old(self).registry().agent(agent_id@) {
                Some(info) => if has_cap(info.capabilities@, key) {
                    drop_all(old(self).registry().index(key), agent_id@)
                } else {
                    old(self).registry().index(key)
                },
                None => old(self).registry().index(key),
            },
            final(self).registered_count() == old(self).registered_count(),
            final(self).pulse_count() == old(self).pulse_count(),
            final(self).pulses() == old(self).pulses(),
    {
        self.agents.unregister(agent_id);
    }

    /// A copy of the agent with ID `agent_id`, if registered.
    pub fn get_agent(&self, agent_id: &str) -> (r: Option<AgentInfo>)
        requires
            self.wf(),
        ensures
            match r {
                Some(a) => self.registry().agent(agent_id@) is Some
                    && same_info(a, self.registry().agent(agent_id@)->0),
                None => self.registry().agent(agent_id@) is None,
            },
    {
        match self.agents.get(agent_id) {
            Some(a) => Some(a.duplicate()),
            None => None,
        }
    }

    /// Copies of all registered agents, in registration order.
    pub fn list_agents(&self) -> (r: Vec<AgentInfo>)
        ensures
            r@.len() == self.registry().agent_seq().len(),
            forall|i: int| 0 <= i < r@.len() ==> same_info(#[trigger] r@[i], self.registry().agent_seq()[i]),
    {
        let all = self.agents.list();
        copies(&all)
    }

    /// Copies of the agents registered with `capability`.
    pub fn find_agents_by_capability(&self, capability: AgentCapability) -> (r: Vec<AgentInfo>)
        requires
            self.wf(),
        ensures
            r@.len() == found_agents(self.registry().agent_seq(), self.registry().index(cap_key(capability))).len(),
            forall|i: int| 0 <= i < r@.len() ==> same_info(#[trigger] r@[i],
                found_agents(self.registry().agent_seq(), self.registry().index(cap_key(capability)))[i]),
    {
        let found = self.agents.find_by_capability(capability);
        copies(&found)
    }

    /// Enter `phase` and count the pulse.
    pub fn pulse(&mut self, phase: CoordinationPhase)
        requires
            old(self).wf(),
        ensures
            final(self).wf(),
            final(self).pulses().phase() == phase,
            final(self).pulses().phases() == old(self).pulses().phases(),
            final(self).pulses().position() == old(self).pulses().position(),
            final(self).pulse_count() == wrap_add(old(self).pulse_count(), 1),
            final(self).registered_count() == old(self).registered_count(),
            final(self).registry() == old(self).registry(),
    {
        self.pulse.set_phase(phase);
        self.pulses_triggered = wrapping_add(self.pulses_triggered, 1);
    }

    /// Pulse with the next phase of the sequence.
    pub fn advance_phase(&mut self)
        requires
            old(self).wf(),
        ensures
            final(self).wf(),
            final(self).pulses().position()
                == (old(self).pulses().position() + 1) % old(self).pulses().phases().len(),
            final(self).pulses().phase() == old(self).pulses().phases()[final(self).pulses().position() as int],
            final(self).pulses().phases() == old(self).pulses().phases(),
            final(self).pulse_count() == wrap_add(old(self).pulse_count(), 1),
            final(self).registered_count() == old(self).registered_count(),
            final(self).registry() == old(self).registry(),
    {
        let next = self.pulse.next_phase();
        self.pulse(next);
    }

    /// The current coordination phase.
    pub fn current_phase(&self) -> (r: CoordinationPhase)
        ensures
            r == self.pulses().phase(),
    {
        self.pulse.current_phase()
    }

    /// The pulse coordinator.
    pub fn pulse_coordinator(&self) -> (r: &PulseCoordinator)
        ensures
            *r == self.pulses(),
    {
        &self.pulse
    }

    /// The root of a registered agent, if there is one.
    pub fn get_agent_root(&self, agent_id: &str) -> (r: Option<String>)
        requires
            self.wf(),
        ensures
            match r {
                Some(root) => self.registry().agent(agent_id@) is Some
                    && root@ == (self.registry().agent(agent_id@)->0).root@,
                None => self.registry().agent(agent_id@) is None,
            },
    {
        match self.agents.get(agent_id) {
            Some(a) => Some(a.root.clone()),
            None => None,
        }
    }

    /// The roots of the registered agents among `agent_ids`, in the order
    /// asked, skipping IDs of no agent: what a cross-agent synthesis combines.
    pub fn cross_agent_roots(&self, agent_ids: &[&str]) -> (r: Vec<String>)
        requires
            self.wf(),
        ensures
            r@.map_values(|s: String| s@) == found_agents(self.registry().agent_seq(), agent_ids@.map_values(|s: &str| s@))
                .map_values(|a: AgentInfo| a.root@),
    {
        let ghost ids = agent_ids@.map_values(|s: &str| s@);
        let mut r: Vec<String> = Vec::new();
        let mut i: usize = 0;
        proof {
            assert(ids.take(0) =~= Seq::<Seq<char>>::empty());
            assert(r@.map_values(|s: String| s@) =~= Seq::<Seq<char>>::empty());
        }
        while i < agent_ids.len()
            invariant
                self.wf(),
                ids == agent_ids@.map_values(|s: &str| s@),
                i <= agent_ids@.len(),
                r@.map_values(|s: String| s@) == found_agents(self.agents.agents@, ids.take(i as int))
                    .map_values(|a: AgentInfo| a.root@),
            decreases agent_ids@.len() - i,
        {
            proof {
                assert(ids.take(i + 1).drop_last() =~= ids.take(i as int));
                assert(ids.take(i + 1).last() == agent_ids@[i as int]@);
            }
            let ghost before = r@;
            match self.agents.get(agent_ids[i]) {
                Some(a) => {
                    r.push(a.root.clone());
                    proof {
                        let f = found_agents(self.agents.agents@, ids.take(i as int));
                        assert(r@.map_values(|s: String| s@) =~= before.map_values(|s: String| s@).push(a.root@));
                        assert(f.push(*a).map_values(|x: AgentInfo| x.root@) =~= f.map_values(|x: AgentInfo| x.root@).push(a.root@));
                    }
                },
                None => {},
            }
            i = i + 1;
        }
        proof {
            assert(ids.take(agent_ids@.len() as int) =~= ids);
        }
        r
    }

    /// The IDs of all registered agents, in registration order.
    pub fn list_agent_ids(&self) -> (r: Vec<String>)
        ensures
            r@.len() == self.registry().agent_seq().len(),
            forall|i: int| 0 <= i < r@.len() ==> (#[trigger] r@[i])@ == self.registry().agent_seq()[i].id@,
    {
        let mut r: Vec<String> = Vec::new();
        let mut i: usize = 0;
        while i < self.agents.agents.len()
            invariant
                i <= self.agents.agents@.len(),
                r@.len() == i,
                forall|j: int| 0 <= j < i ==> (#[trigger] r@[j])@ == self.agents.agents@[j].id@,
            decreases self.agents.agents@.len() - i,
        {
            r.push(self.agents.agents[i].id.clone());
            i = i + 1;
        }
        r
    }

    /// The number of registered agents.
    pub fn agent_count(&self) -> (r: usize)
        ensures
            r == self.registry().agent_seq().len(),
    {
        self.agents.agents.len()
    }

    /// Counts of registrations, pulses and agents, and the current phase.
    pub fn stats(&self) -> (r: OrchestratorStats)
        ensures
            r.agents_registered == self.registered_count(),
            r.pulses_triggered == self.pulse_count(),
            r.active_agents == self.registry().agent_seq().len(),
            r.current_phase == self.pulses().phase(),
    {
        OrchestratorStats {
            agents_registered: self.agents_registered,
            pulses_triggered: self.pulses_triggered,
            active_agents: self.agents.agents.len() as u64,
            current_phase: self.current_phase(),
        }
    }
}

impl Default for KoruOrchestrator {
    fn default() -> (r: Self)
        ensures
            r.wf(),
            r.registry().agent_seq().len() == 0,
            r.pulses().phases() == default_sequence(),
            r.pulses().phase() == CoordinationPhase::Idle,
            r.registered_count() == 0,
            r.pulse_count() == 0,
    {
        Self::new()
    }
}

/// Copies of the records behind `refs`, in order.
fn copies(refs: &Vec<&AgentInfo>) -> (r: Vec<AgentInfo>)
    ensures
        r@.len() == refs@.len(),
        forall|i: int| 0 <= i < r@.len() ==> same_info(#[trigger] r@[i], *refs@[i]),
{
    let mut r: Vec<AgentInfo> = Vec::new();
    let mut i: usize = 0;
    while i < refs.len()
        invariant
            i <= refs@.len(),
            r@.len() == i,
            forall|j: int| 0 <= j < i ==> same_info(#[trigger] r@[j], *refs@[j]),
        decreases refs@.len() - i,
    {
        r.push(refs[i].duplicate());
        i = i + 1;
    }
    r
}

/// Taking one more capability adds it to what the prefix holds.
proof fn lemma_has_cap_take(caps: Seq<AgentCapability>, i: int, key: (int, Seq<char>))
    requires
        0 <= i < caps.len(),
    ensures
        has_cap(caps.take(i + 1), key) <==> (has_cap(caps.take(i), key) || cap_key(caps[i]) == key),
{
    if has_cap(caps.take(i + 1), key) {
        let k = choose|k: int| 0 <= k < caps.take(i + 1).len() && cap_key(#[trigger] caps.take(i + 1)[k]) == key;
        if k < i {
            assert(caps.take(i)[k] == caps[k]);
        }
    }
    if has_cap(caps.take(i), key) {
        let k = choose|k: int| 0 <= k < caps.take(i).len() && cap_key(#[trigger] caps.take(i)[k]) == key;
        assert(caps.take(i + 1)[k] == caps[k]);
    }
    if cap_key(caps[i]) == key {
        assert(caps.take(i + 1)[i] == caps[i]);
    }
}

/// Removing the agent at `p` (IDs distinct) forgets its ID and keeps the others.
proof fn lemma_lookup_remove(s: Seq<AgentInfo>, p: int)
    requires
        distinct_ids(s),
        0 <= p < s.len(),
    ensures
        distinct_ids(s.remove(p)),
        lookup(s.remove(p), s[p].id@) is None,
        forall|id: Seq<char>| id != s[p].id@ ==> #[trigger] lookup(s.remove(p), id) == lookup(s, id),
{
    let t = s.remove(p);
    assert forall|a: int, b: int| 0 <= a < b < t.len() implies (#[trigger] t[a]).id@ != (#[trigger] t[b]).id@ by {
        let a2 = if a < p { a } else { a + 1 };
        let b2 = if b < p { b } else { b + 1 };
        assert(t[a] == s[a2] && t[b] == s[b2]);
    }
    lemma_lookup(t, s[p].id@);
    match lookup(t, s[p].id@) {
        Some(x) => {
            let k = choose|k: int| 0 <= k < t.len() && t[k] == x && x.id@ == s[p].id@
                && forall|j: int| 0 <= j < k ==> t[j].id@ != s[p].id@;
            let k2 = if k < p { k } else { k + 1 };
            assert(t[k] == s[k2]);
        },
        None => {},
    }
    assert forall|id: Seq<char>| id != s[p].id@ implies #[trigger] lookup(t, id) == lookup(s, id) by {
        lemma_lookup(s, id);
        lemma_lookup(t, id);
        match lookup(s, id) {
            Some(a) => {
                let k = choose|k: int| 0 <= k < s.len() && s[k] == a && a.id@ == id
                    && forall|j: int| 0 <= j < k ==> s[j].id@ != id;
                assert(k != p);
                let k2 = if k < p { k } else { k - 1 };
                assert(t[k2] == s[k]);
                lemma_lookup_at(t, k2);
            },
            None => {
                match lookup(t, id) {
                    Some(b) => {
                        let k = choose|k: int| 0 <= k < t.len() && t[k] == b && b.id@ == id
                            && forall|j: int| 0 <= j < k ==> t[j].id@ != id;
                        let k2 = if k < p { k } else { k + 1 };
                        assert(t[k] == s[k2]);
                    },
                    None => {},
                }
            },
        }
    }
}

/// The index list of a key is found at the first entry with that key.
proof fn lemma_ids_for_prefix(index: Seq<(AgentCapability, Vec<String>)>, p: int)
    requires
        0 <= p <= index.len(),
    ensures
        forall|key: (int, Seq<char>)| (forall|q: int| 0 <= q < p ==> cap_key((#[trigger] index[q]).0) != key)
            ==> #[trigger] ids_for(index, key) == ids_for(index.skip(p), key),
    decreases p,
{
    if p > 0 {
        let rest = index.drop_first();
        lemma_ids_for_prefix(rest, p - 1);
        assert(rest.skip(p - 1) =~= index.skip(p));
        assert forall|key: (int, Seq<char>)| (forall|q: int| 0 <= q < p ==> cap_key((#[trigger] index[q]).0) != key)
            implies #[trigger] ids_for(index, key) == ids_for(index.skip(p), key) by {
            assert(cap_key(index[0].0) != key);
            assert(ids_for(index, key) == ids_for(rest, key));
            assert forall|q: int| 0 <= q < p - 1 implies cap_key((#[trigger] rest[q]).0) != key by {
                assert(rest[q] == index[q + 1]);
            }
            assert(ids_for(rest, key) == ids_for(rest.skip(p - 1), key));
        }
    } else {
        assert(index.skip(0) =~= index);
    }
}

/// Replacing the entry at `p` (keeping its capability) changes only its list.
proof fn lemma_ids_for_update(index: Seq<(AgentCapability, Vec<String>)>, p: int, e: (AgentCapability, Vec<String>))
    requires
        0 <= p < index.len(),
        cap_key(e.0) == cap_key(index[p].0),
        forall|q: int| 0 <= q < p ==> cap_key((#[trigger] index[q]).0) != cap_key(index[p].0),
        forall|a: int, b: int| 0 <= a < b < index.len() ==> cap_key((#[trigger] index[a]).0) != cap_key((#[trigger] index[b]).0),
    ensures
        forall|key: (int, Seq<char>)| #[trigger] ids_for(index.update(p, e), key)
            == if key == cap_key(e.0) { views(e.1@) } else { ids_for(index, key) },
    decreases p,
{
    let u = index.update(p, e);
    if p > 0 {
        let rest = index.drop_first();
        assert forall|q: int| 0 <= q < p - 1 implies cap_key((#[trigger] rest[q]).0) != cap_key(rest[p - 1].0) by {
            assert(rest[q] == index[q + 1]);
        }
        assert forall|a: int, b: int| 0 <= a < b < rest.len() implies cap_key((#[trigger] rest[a]).0) != cap_key((#[trigger] rest[b]).0) by {
            assert(rest[a] == index[a + 1] && rest[b] == index[b + 1]);
        }
        lemma_ids_for_update(rest, p - 1, e);
        assert(u.drop_first() =~= rest.update(p - 1, e));
        assert(u[0] == index[0]);
        assert forall|key: (int, Seq<char>)| #[trigger] ids_for(u, key)
            == if key == cap_key(e.0) { views(e.1@) } else { ids_for(index, key) } by {
            if cap_key(index[0].0) == key {
                assert(ids_for(u, key) == views(u[0].1@));
                assert(ids_for(index, key) == views(index[0].1@));
                assert(key != cap_key(e.0));
            } else {
                assert(ids_for(u, key) == ids_for(u.drop_first(), key));
                assert(ids_for(index, key) == ids_for(rest, key));
            }
        }
    } else {
        assert forall|key: (int, Seq<char>)| #[trigger] ids_for(u, key)
            == if key == cap_key(e.0) { views(e.1@) } else { ids_for(index, key) } by {
            if key == cap_key(e.0) {
                assert(ids_for(u, key) == views(u[0].1@));
            } else {
                assert(u.drop_first() =~= index.drop_first());
                assert(ids_for(u, key) == ids_for(u.drop_first(), key));
                assert(ids_for(index, key) == ids_for(index.drop_first(), key));
            }
        }
    }
}

/// Appending an entry for a new capability adds only its list.
proof fn lemma_ids_for_push(index: Seq<(AgentCapability, Vec<String>)>, e: (AgentCapability, Vec<String>))
    requires
        forall|q: int| 0 <= q < index.len() ==> cap_key((#[trigger] index[q]).0) != cap_key(e.0),
    ensures
        forall|key: (int, Seq<char>)| #[trigger] ids_for(index.push(e), key)
            == if key == cap_key(e.0) { views(e.1@) } else { ids_for(index, key) },
    decreases index.len(),
{
    let u = index.push(e);
    if index.len() > 0 {
        let rest = index.drop_first();
        assert forall|q: int| 0 <= q < rest.len() implies cap_key((#[trigger] rest[q]).0) != cap_key(e.0) by {
            assert(rest[q] == index[q + 1]);
        }
        lemma_ids_for_push(rest, e);
        assert(u.drop_first() =~= rest.push(e));
        assert(u[0] == index[0]);
        assert forall|key: (int, Seq<char>)| #[trigger] ids_for(u, key)
            == if key == cap_key(e.0) { views(e.1@) } else { ids_for(index, key) } by {
            if cap_key(index[0].0) == key {
                assert(ids_for(u, key) == views(u[0].1@));
                assert(ids_for(index, key) == views(index[0].1@));
            } else {
                assert(ids_for(u, key) == ids_for(u.drop_first(), key));
                assert(ids_for(index, key) == ids_for(rest, key));
            }
        }
    } else {
        assert forall|key: (int, Seq<char>)| #[trigger] ids_for(u, key)
            == if key == cap_key(e.0) { views(e.1@) } else { ids_for(index, key) } by {
            assert(u[0] == e);
            assert(u.drop_first() =~= Seq::<(AgentCapability, Vec<String>)>::empty());
            if key != cap_key(e.0) {
                assert(ids_for(u, key) == ids_for(u.drop_first(), key));
            }
        }
    }
}

} // verus!
