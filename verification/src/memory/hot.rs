//! Hot memory: the working-memory layer, a bounded cache of versions with
//! least-recently-used eviction.
//!
//! The cache maps distinction IDs to versions; `current_state` maps each key to
//! the ID of its current version; `access_order` lists the cached IDs, most
//! recently used first, each once.

use vstd::prelude::*;
use crate::memory::maps::{
    has_size, key_ids_contains, key_ids_entries, key_ids_get, key_ids_insert, key_ids_new, key_ids_of,
    key_ids_remove, key_ids_clear, versions_clear, versions_contains, versions_entries, versions_get,
    versions_insert, versions_len, versions_of, versions_remove, versions_with_capacity,
};
use crate::strings::{str_eq, views};
use crate::types::{key_view, FullKey, VersionedValue};
use dashmap::DashMap;

verus! {

/// Hot memory configuration.
#[derive(Debug, Clone, Copy, PartialEq, Eq, Structural)]
pub struct HotConfig {
    /// Maximum number of distinctions in hot memory.
    pub capacity: usize,
    /// References at or above this make a hot candidate.
    pub promote_threshold: usize,
}

impl Default for HotConfig {
    fn default() -> (c: Self)
        ensures
            c.capacity == 1000,
            c.promote_threshold == 3,
    {
        HotConfig { capacity: 1000, promote_threshold: 3 }
    }
}

/// An item evicted from hot memory (it goes to warm memory).
#[derive(Debug)]
pub struct Evicted {
    /// The evicted distinction.
    pub distinction_id: String,
    /// Its version.
    pub versioned: VersionedValue,
}

/// Hot memory statistics.
#[derive(Debug, Clone, Copy, PartialEq, Eq, Structural)]
pub struct HotStats {
    /// Lookups that found their version.
    pub hits: usize,
    /// Lookups that did not.
    pub misses: usize,
    /// Versions evicted.
    pub evictions: usize,
    /// Versions cached now.
    pub current_size: usize,
    /// Configured capacity.
    pub capacity: usize,
}

/// `x + 1`, wrapping at `usize::MAX` (as the atomic counters do).
pub open spec fn bump(x: usize) -> usize {
    if x == usize::MAX {
        0
    } else {
        (x + 1) as usize
    }
}

/// `x + 1`, wrapping at `u64::MAX` (as the atomic counters do).
pub open spec fn bump_u64(x: u64) -> u64 {
    if x == u64::MAX {
        0
    } else {
        (x + 1) as u64
    }
}

/// `x + 1`, wrapping at `u64::MAX`.
pub fn bump_u64_exec(x: u64) -> (r: u64)
    ensures
        r == bump_u64(x),
{
    if x == u64::MAX {
        0
    } else {
        x + 1
    }
}

fn bump_exec(x: usize) -> (r: usize)
    ensures
        r == bump(x),
{
    if x == usize::MAX {
        0
    } else {
        x + 1
    }
}

/// Whether a sequence holds no element twice.
pub open spec fn distinct(s: Seq<Seq<char>>) -> bool {
    forall|i: int, j: int| 0 <= i < j < s.len() ==> s[i] != s[j]
}

/// The test "differs from `x`".
pub open spec fn differs(x: Seq<char>) -> spec_fn(Seq<char>) -> bool {
    |y: Seq<char>| y != x
}

/// `s` without any occurrence of `x`.
pub open spec fn without(s: Seq<Seq<char>>, x: Seq<char>) -> Seq<Seq<char>> {
    s.filter(differs(x))
}

/// `x` moved (or added) to the front of `s`.
pub open spec fn to_front(s: Seq<Seq<char>>, x: Seq<char>) -> Seq<Seq<char>> {
    seq![x] + without(s, x)
}

/// Hot memory layer: working memory for fast access.
pub struct HotMemory {
    config: HotConfig,
    cache: DashMap<String, VersionedValue>,
    access_order: Vec<String>,
    current_state: DashMap<FullKey, String>,
    hits: usize,
    misses: usize,
    evictions: usize,
}

impl HotMemory {
    /// The cached versions, by distinction ID.
    pub closed spec fn cache(&self) -> Map<Seq<char>, VersionedValue> {
        versions_of(self.cache)
    }

    /// The current distinction ID of each key.
    pub closed spec fn state(&self) -> Map<(Seq<char>, Seq<char>), Seq<char>> {
        key_ids_of(self.current_state)
    }

    /// The cached IDs, most recently used first.
    pub closed spec fn order(&self) -> Seq<Seq<char>> {
        views(self.access_order@)
    }

    /// The configuration.
    pub closed spec fn spec_config(&self) -> HotConfig {
        self.config
    }

    /// The counters: hits, misses, evictions.
    pub closed spec fn counters(&self) -> (usize, usize, usize) {
        (self.hits, self.misses, self.evictions)
    }

    /// The recency list holds each cached ID exactly once.
    pub closed spec fn wf(&self) -> bool {
        &&& distinct(self.order())
        &&& self.cache().dom().finite()
        &&& forall|i: int| 0 <= i < self.order().len() ==> self.cache().contains_key(#[trigger] self.order()[i])
        &&& forall|k: Seq<char>| self.cache().contains_key(k) ==> self.order().contains(k)
    }

    /// Create hot memory with the default configuration.
    pub fn new() -> (h: Self)
        ensures
            h.wf(),
            h.spec_config().capacity == 1000,
            h.spec_config().promote_threshold == 3,
            h.cache().dom().len() == 0,
            h.state().dom().len() == 0,
            h.counters() == (0usize, 0usize, 0usize),
    {
        Self::with_config(HotConfig::default())
    }

    /// Create hot memory with a custom configuration.
    pub fn with_config(config: HotConfig) -> (h: Self)
        ensures
            h.wf(),
            h.spec_config() == config,
            h.cache().dom().len() == 0,
            h.state().dom().len() == 0,
            h.counters() == (0usize, 0usize, 0usize),
    {
        let h = HotMemory {
            config,
            cache: versions_with_capacity(config.capacity),
            access_order: Vec::new(),
            current_state: key_ids_new(),
            hits: 0,
            misses: 0,
            evictions: 0,
        };
        proof {
            assert(h.cache().dom() =~= Set::empty());
        }
        h
    }

    /// Remove every occurrence of `id` from the recency list.
    fn forget_order(&mut self, id: &str)
        ensures
            final(self).order() == without(old(self).order(), id@),
            final(self).cache == old(self).cache,
            final(self).current_state == old(self).current_state,
            final(self).config == old(self).config,
            final(self).counters() == old(self).counters(),
    {
        let ghost pred = differs(id@);
        let mut kept: Vec<String> = Vec::new();
        let mut i: usize = 0;
        while i < self.access_order.len()
            invariant
                i <= self.access_order@.len(),
                views(kept@) == views(self.access_order@).take(i as int).filter(pred),
                pred == differs(id@),
            decreases self.access_order@.len() - i,
        {
            proof {
                assert(views(self.access_order@).take(i + 1) =~= views(self.access_order@).take(i as int).push(
                    self.access_order@[i as int]@,
                ));
                views(self.access_order@).take(i as int).lemma_filter_push(self.access_order@[i as int]@, pred);
            }
            if !str_eq(self.access_order[i].as_str(), id) {
                let ghost before = views(kept@);
                kept.push(self.access_order[i].clone());
                assert(views(kept@) =~= before.push(self.access_order@[i as int]@));
            }
            i = i + 1;
        }
        assert(views(self.access_order@).take(self.access_order@.len() as int) =~= views(self.access_order@));
        self.access_order = kept;
    }

    /// Move `id` to the front of the recency list.
    fn update_lru(&mut self, id: &str)
        ensures
            final(self).order() == to_front(old(self).order(), id@),
            final(self).cache == old(self).cache,
            final(self).current_state == old(self).current_state,
            final(self).config == old(self).config,
            final(self).counters() == old(self).counters(),
    {
        self.forget_order(id);
        let ghost rest = self.order();
        self.access_order.insert(0, id.to_owned());
        assert(self.order() =~= seq![id@] + rest);
    }

    /// Look up the current version of `key`. A hit moves its ID to the front of
    /// the recency list and counts a hit; otherwise a miss is counted.
    pub fn get(&mut self, key: &FullKey) -> (r: Option<VersionedValue>)
        requires
            old(self).wf(),
        ensures
            final(self).wf(),
            final(self).cache() == old(self).cache(),
            final(self).state() == old(self).state(),
            final(self).spec_config() == old(self).spec_config(),
            match r {
                Some(v) => {
                    &&& old(self).state().contains_key(key_view(*key))
                    &&& old(self).cache().contains_key(old(self).state()[key_view(*key)])
                    &&& v == old(self).cache()[old(self).state()[key_view(*key)]]
                    &&& final(self).order() == to_front(old(self).order(), old(self).state()[key_view(*key)])
                    &&& final(self).counters() == (bump(old(self).counters().0), old(self).counters().1, old(self).counters().2)
                },
                None => {
                    &&& !(old(self).state().contains_key(key_view(*key)) && old(self).cache().contains_key(
                        old(self).state()[key_view(*key)],
                    ))
                    &&& final(self).order() == old(self).order()
                    &&& final(self).counters() == (old(self).counters().0, bump(old(self).counters().1), old(self).counters().2)
                },
            },
    {
        let id = match key_ids_get(&self.current_state, key) {
            Some(id) => id,
            None => {
                self.misses = bump_exec(self.misses);
                return None;
            },
        };
        self.get_by_id(id.as_str())
    }

    /// Look up a version by distinction ID, with the same bookkeeping as `get`.
    pub fn get_by_id(&mut self, id: &str) -> (r: Option<VersionedValue>)
        requires
            old(self).wf(),
        ensures
            final(self).wf(),
            final(self).cache() == old(self).cache(),
            final(self).state() == old(self).state(),
            final(self).spec_config() == old(self).spec_config(),
            match r {
                Some(v) => {
                    &&& old(self).cache().contains_key(id@)
                    &&& v == old(self).cache()[id@]
                    &&& final(self).order() == to_front(old(self).order(), id@)
                    &&& final(self).counters() == (bump(old(self).counters().0), old(self).counters().1, old(self).counters().2)
                },
                None => {
                    &&& !old(self).cache().contains_key(id@)
                    &&& final(self).order() == old(self).order()
                    &&& final(self).counters() == (old(self).counters().0, bump(old(self).counters().1), old(self).counters().2)
                },
            },
    {
        let result = versions_get(&self.cache, id);
        match result {
            Some(v) => {
                self.update_lru(id);
                self.hits = bump_exec(self.hits);
                proof {
                    lemma_to_front_keeps_set(old(self).order(), id@, old(self).cache());
                }
                Some(v)
            },
            None => {
                self.misses = bump_exec(self.misses);
                None
            },
        }
    }

    /// Whether `key` has a current version here.
    pub fn contains_key(&self, key: &FullKey) -> (r: bool)
        ensures
            r == self.state().contains_key(key_view(*key)),
    {
        key_ids_contains(&self.current_state, key)
    }

    /// Whether distinction `id` is cached.
    pub fn contains_id(&self, id: &str) -> (r: bool)
        ensures
            r == self.cache().contains_key(id@),
    {
        versions_contains(&self.cache, id)
    }

    /// The number of cached versions.
    pub fn len(&self) -> (r: usize)
        ensures
            has_size(self.cache(), r as nat),
    {
        versions_len(&self.cache)
    }

    /// Whether nothing is cached.
    pub fn is_empty(&self) -> (r: bool)
        ensures
            r == (self.cache().dom().len() == 0),
    {
        versions_len(&self.cache) == 0
    }

    /// The configured capacity.
    pub fn capacity(&self) -> (r: usize)
        ensures
            r == self.spec_config().capacity,
    {
        self.config.capacity
    }

    /// Cache statistics.
    pub fn stats(&self) -> (s: HotStats)
        ensures
            s.hits == self.counters().0,
            s.misses == self.counters().1,
            s.evictions == self.counters().2,
            has_size(self.cache(), s.current_size as nat),
            s.capacity == self.spec_config().capacity,
    {
        HotStats {
            hits: self.hits,
            misses: self.misses,
            evictions: self.evictions,
            current_size: versions_len(&self.cache),
            capacity: self.config.capacity,
        }
    }

    /// Evict the least recently used version: the ID last in the recency list
    /// leaves the cache and the list, one key mapping to it leaves the key map, and
    /// the eviction is counted. Nothing happens when the list is empty.
    fn evict_lru(&mut self) -> (r: Option<Evicted>)
        requires
            old(self).wf(),
        ensures
            final(self).wf(),
            final(self).spec_config() == old(self).spec_config(),
            match r {
                None => {
                    &&& old(self).order().len() == 0
                    &&& final(self).cache() == old(self).cache()
                    &&& final(self).order() == old(self).order()
                    &&& final(self).state() == old(self).state()
                    &&& final(self).counters() == old(self).counters()
                },
                Some(e) => {
                    &&& old(self).order().len() > 0
                    &&& e.distinction_id@ == old(self).order().last()
                    &&& old(self).cache().contains_key(e.distinction_id@)
                    &&& e.versioned == old(self).cache()[e.distinction_id@]
                    &&& final(self).cache() == old(self).cache().remove(e.distinction_id@)
                    &&& final(self).order() == without(old(self).order(), e.distinction_id@)
                    &&& state_drops(old(self).state(), final(self).state(), e.distinction_id@)
                    &&& final(self).counters() == (old(self).counters().0, old(self).counters().1, bump(old(self).counters().2))
                },
            },
    {
        let n = self.access_order.len();
        if n == 0 {
            return None;
        }
        let victim = self.access_order[n - 1].clone();
        proof {
            assert(self.order().last() == victim@);
            assert(self.cache().contains_key(self.order()[n - 1]));
        }
        let versioned = match versions_remove(&mut self.cache, victim.as_str()) {
            Some(v) => v,
            None => {
                return None;
            },
        };
        let entries = key_ids_entries(&self.current_state);
        let mut i: usize = 0;
        while i < entries.len()
            invariant
                i <= entries@.len(),
                forall|j: int| 0 <= j < i ==> (#[trigger] entries@[j]).1@ != victim@,
            ensures
                i <= entries@.len(),
                forall|j: int| 0 <= j < i ==> (#[trigger] entries@[j]).1@ != victim@,
                i < entries@.len() ==> entries@[i as int].1@ == victim@,
            decreases entries@.len() - i,
        {
            if str_eq(entries[i].1.as_str(), victim.as_str()) {
                break;
            }
            i = i + 1;
        }
        let found: Option<FullKey> = if i < entries.len() {
            Some(entries[i].0.duplicate())
        } else {
            None
        };
        let ghost state_before = self.state();
        match found {
            Some(k) => {
                key_ids_remove(&mut self.current_state, &k);
            },
            None => {
                proof {
                    assert forall|k: (Seq<char>, Seq<char>)| #[trigger] state_before.contains_key(k) implies state_before[k] != victim@ by {
                        let w = choose|w: int| 0 <= w < entries@.len() && key_view((#[trigger] entries@[w]).0) == k;
                        assert(entries@[w].1@ != victim@);
                    }
                }
            },
        }
        let ghost order_before = self.order();
        let ghost cache_now = self.cache();
        self.forget_order(victim.as_str());
        self.evictions = bump_exec(self.evictions);
        proof {
            lemma_without(order_before, victim@);
            assert forall|i: int| 0 <= i < self.order().len() implies cache_now.contains_key(#[trigger] self.order()[i]) by {
                let y = self.order()[i];
                assert(self.order().contains(y));
                assert(y != victim@);
                assert(order_before.contains(y));
                let p = choose|p: int| 0 <= p < order_before.len() && order_before[p] == y;
                assert(old(self).cache().contains_key(order_before[p]));
            }
            assert forall|k: Seq<char>| cache_now.contains_key(k) implies self.order().contains(k) by {
                assert(old(self).cache().contains_key(k));
                assert(order_before.contains(k));
            }
        }
        Some(Evicted { distinction_id: victim, versioned })
    }

    /// Put a version under `key`. The key's previous version leaves the cache if it
    /// differs; when the cache is full and the version is new, the least recently
    /// used version is evicted first; the version becomes the most recent.
    pub fn put(&mut self, key: FullKey, versioned: VersionedValue) -> (r: Option<Evicted>)
        requires
            old(self).wf(),
        ensures
            final(self).wf(),
            final(self).spec_config() == old(self).spec_config(),
            ({
                let d = displaced(old(self).state(), key_view(key), versioned.write_id@);
                let c1 = cache_after_displace(old(self).cache(), d);
                let o1 = order_after_displace(old(self).order(), d);
                let s1 = old(self).state().insert(key_view(key), versioned.write_id@);
                let id = versioned.write_id@;
                &&& r is Some <==> (c1.dom().len() >= old(self).spec_config().capacity && !c1.contains_key(id) && o1.len() > 0)
                &&& match r {
                    None => {
                        &&& final(self).cache() == c1.insert(id, versioned)
                        &&& final(self).order() == to_front(o1, id)
                        &&& final(self).state() == s1
                        &&& final(self).counters() == old(self).counters()
                    },
                    Some(e) => {
                        &&& e.distinction_id@ == o1.last()
                        &&& e.versioned == c1[o1.last()]
                        &&& final(self).cache() == c1.remove(o1.last()).insert(id, versioned)
                        &&& final(self).order() == to_front(without(o1, o1.last()), id)
                        &&& state_drops(s1, final(self).state(), o1.last())
                        &&& final(self).counters() == (old(self).counters().0, old(self).counters().1, bump(old(self).counters().2))
                    },
                }
            }),
            final(self).cache().contains_key(versioned.write_id@),
            final(self).cache()[versioned.write_id@] == versioned,
            final(self).state().contains_key(key_view(key)),
            final(self).state()[key_view(key)] == versioned.write_id@,
            old(self).spec_config().capacity > 0 && old(self).cache().dom().len() <= old(self).spec_config().capacity
                ==> final(self).cache().dom().len() <= old(self).spec_config().capacity,
    {
        let id = versioned.write_id.clone();
        let ghost d = displaced(old(self).state(), key_view(key), versioned.write_id@);
        match key_ids_get(&self.current_state, &key) {
            Some(old_id) => {
                if !str_eq(old_id.as_str(), id.as_str()) {
                    let ghost order_before = self.order();
                    let ghost cache_before = self.cache();
                    versions_remove(&mut self.cache, old_id.as_str());
                    self.forget_order(old_id.as_str());
                    proof {
                        lemma_without(order_before, old_id@);
                        assert forall|i: int| 0 <= i < self.order().len() implies self.cache().contains_key(#[trigger] self.order()[i]) by {
                            let y = self.order()[i];
                            assert(self.order().contains(y));
                            assert(order_before.contains(y));
                            let p = choose|p: int| 0 <= p < order_before.len() && order_before[p] == y;
                            assert(cache_before.contains_key(order_before[p]));
                        }
                        assert forall|k: Seq<char>| self.cache().contains_key(k) implies self.order().contains(k) by {
                            assert(cache_before.contains_key(k));
                            assert(order_before.contains(k));
                        }
                    }
                }
            },
            None => {},
        }
        let ghost c1 = self.cache();
        let ghost o1 = self.order();
        key_ids_insert(&mut self.current_state, key.duplicate(), id.clone());
        let ghost s1 = self.state();
        let size = versions_len(&self.cache);
        let should_evict = size >= self.config.capacity && !versions_contains(&self.cache, id.as_str());
        let evicted = if should_evict {
            self.evict_lru()
        } else {
            None
        };
        proof {
            if evicted is Some {
                let v = o1.last();
                assert(s1.contains_key(key_view(key)) && s1[key_view(key)] == id@);
                assert(v != id@);
                if self.state() != s1 {
                    let k = choose|k: (Seq<char>, Seq<char>)| #[trigger] s1.contains_key(k) && s1[k] == v && self.state() == s1.remove(k);
                    assert(k != key_view(key));
                }
            }
        }
        let ghost cache_before = self.cache();
        let ghost order_before = self.order();
        proof {
            assert(c1.dom().len() <= old(self).cache().dom().len()) by {
                if c1 != old(self).cache() {
                    let x = displaced(old(self).state(), key_view(key), versioned.write_id@)->0;
                    if old(self).cache().contains_key(x) {
                        assert(c1.dom() =~= old(self).cache().dom().remove(x));
                    } else {
                        assert(c1 =~= old(self).cache());
                    }
                }
            }
            if evicted is Some {
                assert(cache_before.dom() =~= c1.dom().remove(o1.last()));
                assert(c1.contains_key(o1.last()));
            } else if !should_evict {
                if c1.contains_key(id@) {
                    assert(cache_before.dom().insert(id@) =~= cache_before.dom());
                }
            } else {
                assert(o1.len() == 0);
                assert(c1.dom() =~= Set::empty()) by {
                    assert forall|k: Seq<char>| !c1.contains_key(k) by {
                        if c1.contains_key(k) {
                            assert(o1.contains(k));
                        }
                    }
                }
            }
        }
        versions_insert(&mut self.cache, id.clone(), versioned);
        self.update_lru(id.as_str());
        proof {
            lemma_without(order_before, id@);
            let f = self.order();
            let w = without(order_before, id@);
            assert(f =~= seq![id@] + w);
            assert forall|i: int, j: int| 0 <= i < j < f.len() implies f[i] != f[j] by {
                if i == 0 {
                    assert(f[j] == w[j - 1]);
                } else {
                    assert(f[i] == w[i - 1]);
                    assert(f[j] == w[j - 1]);
                }
            }
            assert forall|i: int| 0 <= i < f.len() implies self.cache().contains_key(#[trigger] f[i]) by {
                if i > 0 {
                    assert(f[i] == w[i - 1]);
                    assert(w.contains(w[i - 1]));
                    assert(order_before.contains(w[i - 1]));
                }
            }
            assert forall|k: Seq<char>| self.cache().contains_key(k) implies f.contains(k) by {
                if k == id@ {
                    assert(f[0] == id@);
                } else {
                    assert(cache_before.contains_key(k));
                    assert(order_before.contains(k));
                    assert(w.contains(k));
                    let p = choose|p: int| 0 <= p < w.len() && w[p] == k;
                    assert(f[p + 1] == k);
                }
            }
        }
        evicted
    }

    /// Evict everything, returning each cached version that a key maps to,
    /// paired with that key.
    pub fn clear(&mut self) -> (r: Vec<(FullKey, VersionedValue)>)
        requires
            old(self).wf(),
        ensures
            final(self).wf(),
            final(self).cache().dom().len() == 0,
            final(self).state().dom().len() == 0,
            final(self).order().len() == 0,
            final(self).spec_config() == old(self).spec_config(),
            final(self).counters() == old(self).counters(),
            forall|i: int| 0 <= i < r@.len() ==> {
                &&& old(self).state().contains_key(key_view((#[trigger] r@[i]).0))
                &&& old(self).cache().contains_key(old(self).state()[key_view(r@[i].0)])
                &&& old(self).cache()[old(self).state()[key_view(r@[i].0)]] == r@[i].1
            },
            forall|k: (Seq<char>, Seq<char>)| #[trigger] old(self).state().contains_key(k) && old(self).cache().contains_key(old(self).state()[k])
                ==> exists|i: int| 0 <= i < r@.len() && old(self).state()[key_view(#[trigger] r@[i].0)] == old(self).state()[k],
    {
        let versions = versions_entries(&self.cache);
        let keys = key_ids_entries(&self.current_state);
        let mut evicted: Vec<(FullKey, VersionedValue)> = Vec::new();
        let mut i: usize = 0;
        while i < versions.len()
            invariant
                i <= versions@.len(),
                self.wf(),
                self.cache() == old(self).cache(),
                self.state() == old(self).state(),
                forall|x: int| 0 <= x < versions@.len() ==> self.cache().contains_key((#[trigger] versions@[x]).0@)
                    && self.cache()[versions@[x].0@] == versions@[x].1,
                forall|w: int| 0 <= w < keys@.len() ==> self.state().contains_key(key_view((#[trigger] keys@[w]).0))
                    && self.state()[key_view(keys@[w].0)] == keys@[w].1@,
                forall|k: (Seq<char>, Seq<char>)| self.state().contains_key(k) ==> exists|w: int| 0 <= w < keys@.len() && key_view((#[trigger] keys@[w]).0) == k,
                forall|j: int| 0 <= j < evicted@.len() ==> {
                    &&& self.state().contains_key(key_view((#[trigger] evicted@[j]).0))
                    &&& self.cache().contains_key(self.state()[key_view(evicted@[j].0)])
                    &&& self.cache()[self.state()[key_view(evicted@[j].0)]] == evicted@[j].1
                },
                forall|x: int| #![trigger versions@[x]] 0 <= x < i ==> (exists|k: (Seq<char>, Seq<char>)| #[trigger] self.state().contains_key(k) && self.state()[k] == versions@[x].0@)
                    ==> exists|j: int| 0 <= j < evicted@.len() && self.state()[key_view(#[trigger] evicted@[j].0)] == versions@[x].0@,
            decreases versions@.len() - i,
        {
            let mut p: usize = 0;
            while p < keys.len()
                invariant
                    i < versions@.len(),
                    p <= keys@.len(),
                    forall|q: int| 0 <= q < p ==> (#[trigger] keys@[q]).1@ != versions@[i as int].0@,
                ensures
                    p <= keys@.len(),
                    forall|q: int| 0 <= q < p ==> (#[trigger] keys@[q]).1@ != versions@[i as int].0@,
                    p < keys@.len() ==> keys@[p as int].1@ == versions@[i as int].0@,
                decreases keys@.len() - p,
            {
                if str_eq(keys[p].1.as_str(), versions[i].0.as_str()) {
                    break;
                }
                p = p + 1;
            }
            let ghost before = evicted@;
            if p < keys.len() {
                evicted.push((keys[p].0.duplicate(), versions[i].1.duplicate()));
                proof {
                    assert(key_view(evicted@[evicted@.len() - 1].0) == key_view(keys@[p as int].0));
                    assert(evicted@[evicted@.len() - 1].1 == versions@[i as int].1);
                    assert forall|x: int| #![trigger versions@[x]] 0 <= x < i + 1 && (exists|k: (Seq<char>, Seq<char>)| #[trigger] self.state().contains_key(k) && self.state()[k] == versions@[x].0@)
                        implies exists|j: int| 0 <= j < evicted@.len() && self.state()[key_view(#[trigger] evicted@[j].0)] == versions@[x].0@ by {
                        if x < i {
                            let j = choose|j: int| 0 <= j < before.len() && self.state()[key_view(#[trigger] before[j].0)] == versions@[x].0@;
                            assert(evicted@[j] == before[j]);
                        } else {
                            let j = evicted@.len() - 1;
                            assert(self.state()[key_view(evicted@[j].0)] == versions@[x].0@);
                        }
                    }
                }
            } else {
                proof {
                    assert forall|k: (Seq<char>, Seq<char>)| #[trigger] self.state().contains_key(k) implies self.state()[k] != versions@[i as int].0@ by {
                        let w = choose|w: int| 0 <= w < keys@.len() && key_view((#[trigger] keys@[w]).0) == k;
                        assert(keys@[w].1@ != versions@[i as int].0@);
                    }
                }
            }
            i = i + 1;
        }
        versions_clear(&mut self.cache);
        key_ids_clear(&mut self.current_state);
        self.access_order = Vec::new();
        proof {
            assert forall|k: (Seq<char>, Seq<char>)| #[trigger] old(self).state().contains_key(k) && old(self).cache().contains_key(old(self).state()[k])
                implies exists|j: int| 0 <= j < evicted@.len() && old(self).state()[key_view(#[trigger] evicted@[j].0)] == old(self).state()[k] by {
                let id = old(self).state()[k];
                let x = choose|x: int| 0 <= x < versions@.len() && (#[trigger] versions@[x]).0@ == id;
            }
        }
        evicted
    }

    /// The keys that have a current version here, each once.
    pub fn keys(&self) -> (r: Vec<FullKey>)
        ensures
            forall|i: int| 0 <= i < r@.len() ==> self.state().contains_key(key_view(#[trigger] r@[i])),
            forall|k: (Seq<char>, Seq<char>)| #[trigger] self.state().contains_key(k) ==> exists|i: int|
                0 <= i < r@.len() && key_view(#[trigger] r@[i]) == k,
            forall|i: int, j: int| 0 <= i < j < r@.len() ==> key_view(#[trigger] r@[i]) != key_view(#[trigger] r@[j]),
    {
        let entries = key_ids_entries(&self.current_state);
        let mut r: Vec<FullKey> = Vec::new();
        let mut i: usize = 0;
        while i < entries.len()
            invariant
                i <= entries@.len(),
                r@.len() == i,
                forall|j: int| 0 <= j < i ==> key_view(#[trigger] r@[j]) == key_view(entries@[j].0),
            decreases entries@.len() - i,
        {
            r.push(entries[i].0.duplicate());
            i = i + 1;
        }
        proof {
            assert forall|k: (Seq<char>, Seq<char>)| #[trigger] self.state().contains_key(k) implies exists|i: int|
                0 <= i < r@.len() && key_view(#[trigger] r@[i]) == k by {
                let w = choose|w: int| 0 <= w < entries@.len() && key_view((#[trigger] entries@[w]).0) == k;
                assert(key_view(r@[w]) == k);
            }
            assert forall|x: int, y: int| 0 <= x < y < r@.len() implies key_view(#[trigger] r@[x]) != key_view(#[trigger] r@[y]) by {
                assert(key_view(r@[x]) == key_view(entries@[x].0));
                assert(key_view(r@[y]) == key_view(entries@[y].0));
            }
        }
        r
    }
}

/// The ID a put of `id` under `key` displaces: the key's previous ID, if different.
pub open spec fn displaced(state: Map<(Seq<char>, Seq<char>), Seq<char>>, key: (Seq<char>, Seq<char>), id: Seq<char>) -> Option<Seq<char>> {
    if state.contains_key(key) && state[key] != id {
        Some(state[key])
    } else {
        None
    }
}

/// The cache with a displaced ID dropped.
pub open spec fn cache_after_displace(cache: Map<Seq<char>, VersionedValue>, d: Option<Seq<char>>) -> Map<Seq<char>, VersionedValue> {
    match d {
        Some(x) => cache.remove(x),
        None => cache,
    }
}

/// The recency list with a displaced ID dropped.
pub open spec fn order_after_displace(order: Seq<Seq<char>>, d: Option<Seq<char>>) -> Seq<Seq<char>> {
    match d {
        Some(x) => without(order, x),
        None => order,
    }
}

/// Whether `after` is `before` without the key (if any) that mapped to `victim`:
/// one such key is dropped, whichever the map's iteration meets first.
pub open spec fn state_drops(before: Map<(Seq<char>, Seq<char>), Seq<char>>, after: Map<(Seq<char>, Seq<char>), Seq<char>>, victim: Seq<char>) -> bool {
    ||| (after == before && forall|k: (Seq<char>, Seq<char>)| #[trigger] before.contains_key(k) ==> before[k] != victim)
    ||| exists|k: (Seq<char>, Seq<char>)| #[trigger] before.contains_key(k) && before[k] == victim && after == before.remove(k)
}

/// Moving an ID that is already listed to the front keeps the listed set.
proof fn lemma_to_front_keeps_set(order: Seq<Seq<char>>, id: Seq<char>, cache: Map<Seq<char>, VersionedValue>)
    requires
        distinct(order),
        forall|i: int| 0 <= i < order.len() ==> cache.contains_key(#[trigger] order[i]),
        forall|k: Seq<char>| cache.contains_key(k) ==> order.contains(k),
        cache.contains_key(id),
    ensures
        distinct(to_front(order, id)),
        forall|i: int| 0 <= i < to_front(order, id).len() ==> cache.contains_key(#[trigger] to_front(order, id)[i]),
        forall|k: Seq<char>| cache.contains_key(k) ==> to_front(order, id).contains(k),
{
    lemma_without(order, id);
    let w = without(order, id);
    let f = to_front(order, id);
    assert(f =~= seq![id] + w);
    assert forall|i: int, j: int| 0 <= i < j < f.len() implies f[i] != f[j] by {
        if i == 0 {
            assert(f[j] == w[j - 1]);
        } else {
            assert(f[i] == w[i - 1]);
            assert(f[j] == w[j - 1]);
        }
    }
    assert forall|i: int| 0 <= i < f.len() implies cache.contains_key(#[trigger] f[i]) by {
        if i > 0 {
            assert(f[i] == w[i - 1]);
            assert(w.contains(w[i - 1]));
            assert(order.contains(w[i - 1]));
        }
    }
    assert forall|k: Seq<char>| cache.contains_key(k) implies f.contains(k) by {
        if k == id {
            assert(f[0] == id);
        } else {
            assert(order.contains(k));
            assert(w.contains(k));
            let p = choose|p: int| 0 <= p < w.len() && w[p] == k;
            assert(f[p + 1] == k);
        }
    }
}

/// What removing an element does to a sequence: the others stay, in order, and it
/// is gone.
pub proof fn lemma_without(s: Seq<Seq<char>>, x: Seq<char>)
    ensures
        !without(s, x).contains(x),
        forall|y: Seq<char>| y != x ==> (s.contains(y) <==> #[trigger] without(s, x).contains(y)),
        distinct(s) ==> distinct(without(s, x)),
        without(s, x).len() <= s.len(),
        s.contains(x) && distinct(s) ==> without(s, x).len() == s.len() - 1,
        !s.contains(x) ==> without(s, x) == s,
    decreases s.len(),
{
    let pred = differs(x);
    let w = without(s, x);
    assert(!w.contains(x)) by {
        if w.contains(x) {
            let k = choose|k: int| 0 <= k < w.len() && w[k] == x;
            s.lemma_filter_pred(pred, k);
        }
    }
    assert forall|y: Seq<char>| y != x implies (s.contains(y) <==> #[trigger] w.contains(y)) by {
        if s.contains(y) {
            let k = choose|k: int| 0 <= k < s.len() && s[k] == y;
            s.lemma_filter_contains(pred, k);
        }
        if w.contains(y) {
            s.lemma_filter_contains_rev(pred, y);
        }
    }
    if s.len() == 0 {
        assert(w =~= s) by {
            reveal(Seq::filter);
        }
    } else {
        let p = s.drop_last();
        let l = s.last();
        lemma_without(p, x);
        assert(s =~= p.push(l));
        p.lemma_filter_push(l, pred);
        let wp = without(p, x);
        if distinct(s) {
            assert(distinct(p)) by {
                assert forall|i: int, j: int| 0 <= i < j < p.len() implies p[i] != p[j] by {
                    assert(s[i] == p[i] && s[j] == p[j]);
                }
            }
            assert(!p.contains(l)) by {
                if p.contains(l) {
                    let k = choose|k: int| 0 <= k < p.len() && p[k] == l;
                    assert(s[k] == s[s.len() - 1]);
                }
            }
            if l != x {
                assert(w == wp.push(l));
                assert(!wp.contains(l));
                assert forall|i: int, j: int| 0 <= i < j < w.len() implies w[i] != w[j] by {
                    if j == w.len() - 1 {
                        assert(w[i] == wp[i]);
                    } else {
                        assert(w[i] == wp[i]);
                        assert(w[j] == wp[j]);
                    }
                }
                if s.contains(x) {
                    let k = choose|k: int| 0 <= k < s.len() && s[k] == x;
                    assert(p[k] == x);
                    assert(p.contains(x));
                }
            } else {
                assert(w == wp);
            }
        }
        if !s.contains(x) {
            assert(!p.contains(x)) by {
                if p.contains(x) {
                    let k = choose|k: int| 0 <= k < p.len() && p[k] == x;
                    assert(s[k] == x);
                }
            }
            assert(l != x) by {
                assert(s[s.len() - 1] == l);
            }
        }
    }
}

} // verus!
