//! Warm memory (the chronicle): a bounded index of recent distinctions, a
//! window of recent accesses, and the choice of what to promote to hot memory
//! and what to demote to the archive.
//!
//! Times are nanoseconds after the Unix epoch (UTC); the caller reads the clock
//! and passes `now`.

use vstd::prelude::*;
use crate::memory::hot::bump_u64;
use crate::memory::maps::{
    has_size, index_entries, index_get, index_insert, index_len, index_of, index_remove, index_with_capacity,
    key_ids_get, key_ids_insert, key_ids_new, key_ids_of, key_ids_contains,
};
use crate::ordering::{index_key_i64, lemma_sort_asc_sorted, sort_asc, sort_indices_asc_i64};
use crate::strings::{str_eq, views};
use crate::types::{key_view, FullKey, VersionedValue};
use dashmap::DashMap;

verus! {

/// One hour in nanoseconds.
pub const HOUR_NANOS: i64 = 3_600_000_000_000;

/// Chronicle configuration.
#[derive(Debug, Clone, Copy, PartialEq, Eq, Structural)]
pub struct ChronicleConfig {
    /// Maximum number of recent distinctions kept in the index.
    pub index_capacity: usize,
    /// Idle time (nanoseconds) past which an entry is a demotion candidate.
    pub idle_threshold: i64,
    /// Chronicle file rotation size (bytes).
    pub rotation_size: usize,
}

impl Default for ChronicleConfig {
    fn default() -> (c: Self)
        ensures
            c.index_capacity == 10_000,
            c.idle_threshold == HOUR_NANOS,
            c.rotation_size == 10 * 1024 * 1024,
    {
        ChronicleConfig { index_capacity: 10_000, idle_threshold: HOUR_NANOS, rotation_size: 10485760 }
    }
}

/// Index entry for fast lookup.
#[derive(Debug, Clone)]
pub struct IndexEntry {
    /// The key this distinction belongs to.
    pub key: FullKey,
    /// When the distinction was created.
    pub timestamp: i64,
    /// When it was last accessed.
    pub last_accessed: i64,
}

/// Chronicle statistics.
#[derive(Debug, Clone, Copy, PartialEq, Eq, Structural)]
pub struct ChronicleStats {
    /// Lookups of indexed distinctions.
    pub hits: u64,
    /// Lookups that missed.
    pub misses: u64,
    /// Promotions to hot memory.
    pub promotions: u64,
    /// Demotions to the archive.
    pub demotions: u64,
    /// Entries in the index.
    pub current_size: usize,
    /// Index capacity.
    pub capacity: usize,
}

/// The text of a window of accesses.
pub open spec fn window_view(v: Seq<(String, i64)>) -> Seq<(Seq<char>, i64)> {
    v.map_values(|e: (String, i64)| (e.0@, e.1))
}

/// The last `cap` elements of `s` (all of them if there are fewer).
pub open spec fn keep_last<T>(s: Seq<T>, cap: nat) -> Seq<T> {
    if s.len() > cap {
        s.skip(s.len() - cap)
    } else {
        s
    }
}

/// Whether `v` is an entry of `index` accessed no later than any other.
pub open spec fn least_recent(index: Map<Seq<char>, IndexEntry>, v: Seq<char>) -> bool {
    &&& index.contains_key(v)
    &&& forall|k: Seq<char>| #[trigger] index.contains_key(k) ==> index[v].last_accessed <= index[k].last_accessed
}

/// The first occurrences of each element, in order.
pub open spec fn dedup(s: Seq<Seq<char>>) -> Seq<Seq<char>>
    decreases s.len(),
{
    if s.len() == 0 {
        s
    } else if dedup(s.drop_last()).contains(s.last()) {
        dedup(s.drop_last())
    } else {
        dedup(s.drop_last()).push(s.last())
    }
}

/// The IDs of a window of accesses, newest first.
pub open spec fn newest_first(window: Seq<(Seq<char>, i64)>) -> Seq<Seq<char>> {
    window.reverse().map_values(|e: (Seq<char>, i64)| e.0)
}

/// The IDs promotion looks at: the newest `2 * limit` accesses, each ID once, those
/// still indexed, at most `limit` of them.
pub open spec fn promotion_ids(window: Seq<(Seq<char>, i64)>, index: Map<Seq<char>, IndexEntry>, limit: nat) -> Seq<Seq<char>> {
    let scanned = newest_first(window).take(if newest_first(window).len() > 2 * limit { 2 * limit as int } else { newest_first(window).len() as int });
    let found = dedup(scanned).filter(|id: Seq<char>| index.contains_key(id));
    if found.len() > limit {
        found.take(limit as int)
    } else {
        found
    }
}

/// Whether an entry accessed at `last_accessed` has been idle longer than `threshold` at `now`.
pub open spec fn idle_past(now: i64, last_accessed: i64, threshold: i64) -> bool {
    now - last_accessed > threshold
}

/// Whether `c` is a choice of distinctions to demote at `now`: at most `limit`
/// distinct indexed IDs, each idle longer than `threshold`, most idle first; when
/// an idle one is left out, `limit` were chosen and each was idle at least as long.
pub open spec fn is_demotion_choice(index: Map<Seq<char>, IndexEntry>, threshold: i64, limit: usize, now: i64, c: Seq<Seq<char>>) -> bool {
    &&& c.len() <= limit
    &&& forall|i: int| 0 <= i < c.len() ==> index.contains_key(#[trigger] c[i]) && idle_past(now, index[c[i]].last_accessed, threshold)
    &&& c.no_duplicates()
    &&& forall|i: int, j: int| 0 <= i < j < c.len() ==> index[#[trigger] c[i]].last_accessed <= index[#[trigger] c[j]].last_accessed
    &&& forall|k: Seq<char>| #[trigger] index.contains_key(k) && idle_past(now, index[k].last_accessed, threshold) && !c.contains(k)
        ==> c.len() == limit && forall|i: int| 0 <= i < c.len() ==> index[#[trigger] c[i]].last_accessed <= index[k].last_accessed
}

/// An index entry with its access time set to `now`.
pub open spec fn refreshed(e: IndexEntry, now: i64) -> IndexEntry {
    IndexEntry { last_accessed: now, ..e }
}

/// The index, recent window and hit count after looking up each of `ids` in turn
/// at `now`: an indexed ID has its access time refreshed, is pushed onto the
/// window (which keeps the newest `cap`), and counts a hit; other IDs change nothing.
pub open spec fn after_lookups(
    index: Map<Seq<char>, IndexEntry>,
    window: Seq<(Seq<char>, i64)>,
    hits: u64,
    ids: Seq<Seq<char>>,
    now: i64,
    cap: nat,
) -> (Map<Seq<char>, IndexEntry>, Seq<(Seq<char>, i64)>, u64)
    decreases ids.len(),
{
    if ids.len() == 0 {
        (index, window, hits)
    } else {
        let p = after_lookups(index, window, hits, ids.drop_last(), now, cap);
        let id = ids.last();
        if p.0.contains_key(id) {
            (p.0.insert(id, refreshed(p.0[id], now)), keep_last(p.1.push((id, now)), cap), bump_u64(p.2))
        } else {
            p
        }
    }
}

/// `x` incremented `n` times, wrapping at `u64::MAX`.
pub open spec fn bumps(x: u64, n: nat) -> u64
    decreases n,
{
    if n == 0 { x } else { bump_u64(bumps(x, (n - 1) as nat)) }
}

/// `window` with `(id, now)` pushed for each of `ids` in order, keeping the newest `cap`.
pub open spec fn pushed_accesses(window: Seq<(Seq<char>, i64)>, ids: Seq<Seq<char>>, now: i64, cap: nat) -> Seq<(Seq<char>, i64)>
    decreases ids.len(),
{
    if ids.len() == 0 {
        window
    } else {
        keep_last(pushed_accesses(window, ids.drop_last(), now, cap).push((ids.last(), now)), cap)
    }
}

/// Looking up IDs that are all indexed refreshes exactly those entries, pushes
/// each onto the window in order, and counts one hit each.
pub proof fn lemma_lookups_of_indexed(
    index: Map<Seq<char>, IndexEntry>,
    window: Seq<(Seq<char>, i64)>,
    hits: u64,
    ids: Seq<Seq<char>>,
    now: i64,
    cap: nat,
)
    requires
        forall|i: int| 0 <= i < ids.len() ==> index.contains_key(#[trigger] ids[i]),
    ensures
        after_lookups(index, window, hits, ids, now, cap).0.dom() == index.dom(),
        forall|k: Seq<char>| #[trigger] index.contains_key(k) ==> after_lookups(index, window, hits, ids, now, cap).0[k]
            == (if ids.contains(k) { refreshed(index[k], now) } else { index[k] }),
        after_lookups(index, window, hits, ids, now, cap).1 == pushed_accesses(window, ids, now, cap),
        after_lookups(index, window, hits, ids, now, cap).2 == bumps(hits, ids.len()),
    decreases ids.len(),
{
    if ids.len() > 0 {
        let t = ids.drop_last();
        assert forall|i: int| 0 <= i < t.len() implies index.contains_key(#[trigger] t[i]) by {
            assert(t[i] == ids[i]);
        }
        lemma_lookups_of_indexed(index, window, hits, t, now, cap);
        let p = after_lookups(index, window, hits, t, now, cap);
        let id = ids.last();
        assert(index.contains_key(ids[ids.len() - 1]));
        assert(p.0.contains_key(id));
        let m = p.0.insert(id, refreshed(p.0[id], now));
        assert(m.dom() =~= index.dom());
        assert forall|k: Seq<char>| #[trigger] index.contains_key(k) implies m[k]
            == (if ids.contains(k) { refreshed(index[k], now) } else { index[k] }) by {
            if k == id {
                assert(ids[ids.len() - 1] == k);
                assert(refreshed(refreshed(index[k], now), now) == refreshed(index[k], now));
            } else {
                assert(ids.contains(k) == t.contains(k)) by {
                    if ids.contains(k) {
                        let i = choose|i: int| 0 <= i < ids.len() && ids[i] == k;
                        assert(t[i] == k);
                    }
                    if t.contains(k) {
                        let i = choose|i: int| 0 <= i < t.len() && t[i] == k;
                        assert(ids[i] == k);
                    }
                }
            }
        }
    }
}

/// A list of IDs meeting the demotion clauses element by element is a demotion choice.
proof fn lemma_views_demotion_choice(index: Map<Seq<char>, IndexEntry>, threshold: i64, limit: usize, now: i64, r: Seq<String>)
    requires
        r.len() <= limit,
        forall|i: int| 0 <= i < r.len() ==> index.contains_key((#[trigger] r[i])@)
            && idle_past(now, index[r[i]@].last_accessed, threshold),
        forall|i: int, j: int| 0 <= i < j < r.len() ==> (#[trigger] r[i])@ != (#[trigger] r[j])@,
        forall|i: int, j: int| 0 <= i < j < r.len() ==> index[(#[trigger] r[i])@].last_accessed <= index[(#[trigger] r[j])@].last_accessed,
        forall|k: Seq<char>| #[trigger] index.contains_key(k) && idle_past(now, index[k].last_accessed, threshold)
            && !views(r).contains(k) ==> r.len() == limit
            && forall|i: int| 0 <= i < r.len() ==> index[(#[trigger] r[i])@].last_accessed <= index[k].last_accessed,
    ensures
        is_demotion_choice(index, threshold, limit, now, views(r)),
{
    let c = views(r);
    assert forall|i: int| 0 <= i < c.len() implies index.contains_key(#[trigger] c[i]) && idle_past(now, index[c[i]].last_accessed, threshold) by {
        assert(c[i] == r[i]@);
    }
    assert forall|i: int, j: int| 0 <= i < j < c.len() implies c[i] != c[j] by {
        assert(c[i] == r[i]@);
        assert(c[j] == r[j]@);
    }
    assert forall|i: int, j: int| 0 <= i < j < c.len() implies index[#[trigger] c[i]].last_accessed <= index[#[trigger] c[j]].last_accessed by {
        assert(c[i] == r[i]@);
        assert(c[j] == r[j]@);
    }
    assert forall|k: Seq<char>| #[trigger] index.contains_key(k) && idle_past(now, index[k].last_accessed, threshold) && !c.contains(k)
        implies c.len() == limit && forall|i: int| 0 <= i < c.len() ==> index[#[trigger] c[i]].last_accessed <= index[k].last_accessed by {
        assert forall|i: int| 0 <= i < c.len() implies index[#[trigger] c[i]].last_accessed <= index[k].last_accessed by {
            assert(c[i] == r[i]@);
        }
    }
}

/// Chronicle agent: warm memory's index of recent distinctions.
pub struct ChronicleAgent {
    config: ChronicleConfig,
    index: DashMap<String, IndexEntry>,
    recent_window: Vec<(String, i64)>,
    current_mappings: DashMap<FullKey, String>,
    hits: u64,
    misses: u64,
    promotions: u64,
    demotions: u64,
}

impl ChronicleAgent {
    /// The index, by distinction ID.
    pub closed spec fn index(&self) -> Map<Seq<char>, IndexEntry> {
        index_of(self.index)
    }

    /// The current distinction of each key.
    pub closed spec fn mappings(&self) -> Map<(Seq<char>, Seq<char>), Seq<char>> {
        key_ids_of(self.current_mappings)
    }

    /// The recent accesses, oldest first.
    pub closed spec fn window(&self) -> Seq<(Seq<char>, i64)> {
        window_view(self.recent_window@)
    }

    /// The configuration.
    pub closed spec fn spec_config(&self) -> ChronicleConfig {
        self.config
    }

    /// The counters: hits, misses, promotions, demotions.
    pub closed spec fn counters(&self) -> (u64, u64, u64, u64) {
        (self.hits, self.misses, self.promotions, self.demotions)
    }

    /// Create a chronicle agent with the default configuration.
    pub fn new() -> (a: Self)
        ensures
            a.spec_config().index_capacity == 10_000,
            a.spec_config().idle_threshold == HOUR_NANOS,
            has_size(a.index(), 0),
            has_size(a.mappings(), 0),
            a.window().len() == 0,
            a.counters() == (0u64, 0u64, 0u64, 0u64),
    {
        Self::with_config(ChronicleConfig::default())
    }

    /// Create a chronicle agent with a custom configuration.
    pub fn with_config(config: ChronicleConfig) -> (a: Self)
        ensures
            a.spec_config() == config,
            has_size(a.index(), 0),
            has_size(a.mappings(), 0),
            a.window().len() == 0,
            a.counters() == (0u64, 0u64, 0u64, 0u64),
    {
        let a = ChronicleAgent {
            config,
            index: index_with_capacity(config.index_capacity),
            recent_window: Vec::new(),
            current_mappings: key_ids_new(),
            hits: 0,
            misses: 0,
            promotions: 0,
            demotions: 0,
        };
        assert(a.window() =~= Seq::<(Seq<char>, i64)>::empty());
        a
    }

    /// Record an access of `id` at `now` in the recent window, which keeps the
    /// newest `index_capacity` accesses.
    fn add_to_recent_window(&mut self, id: String, now: i64)
        ensures
            final(self).window() == keep_last(old(self).window().push((id@, now)), old(self).config.index_capacity as nat),
            final(self).index == old(self).index,
            final(self).current_mappings == old(self).current_mappings,
            final(self).config == old(self).config,
            final(self).counters() == old(self).counters(),
    {
        let ghost pushed = self.window().push((id@, now));
        self.recent_window.push((id, now));
        assert(self.window() =~= pushed);
        let cap = self.config.index_capacity;
        if self.recent_window.len() > cap {
            let drop = self.recent_window.len() - cap;
            let mut kept: Vec<(String, i64)> = Vec::new();
            let mut i: usize = drop;
            while i < self.recent_window.len()
                invariant
                    drop <= i <= self.recent_window@.len(),
                    window_view(kept@) == pushed.subrange(drop as int, i as int),
                    self.window() == pushed,
                decreases self.recent_window@.len() - i,
            {
                let e = (self.recent_window[i].0.clone(), self.recent_window[i].1);
                let ghost kept_before = kept@;
                kept.push(e);
                proof {
                    assert(pushed[i as int] == window_view(self.recent_window@)[i as int]);
                    assert(window_view(kept@) =~= window_view(kept_before).push(pushed[i as int]));
                }
                assert(window_view(kept@) =~= pushed.subrange(drop as int, i + 1));
                i = i + 1;
            }
            self.recent_window = kept;
            assert(self.window() =~= pushed.skip(drop as int));
        }
    }

    /// Look up distinction `id` at `now`. An indexed distinction has its access
    /// time refreshed, is recorded in the recent window, and counts a hit. The
    /// value itself is not held here, so nothing is returned.
    pub fn get(&mut self, id: &str, now: i64) -> (r: Option<(FullKey, VersionedValue)>)
        ensures
            r is None,
            final(self).mappings() == old(self).mappings(),
            final(self).spec_config() == old(self).spec_config(),
            old(self).index().contains_key(id@) ==> {
                &&& final(self).index() == old(self).index().insert(id@, IndexEntry { last_accessed: now, ..old(self).index()[id@] })
                &&& final(self).window() == keep_last(old(self).window().push((id@, now)), old(self).spec_config().index_capacity as nat)
                &&& final(self).counters() == (bump_u64(old(self).counters().0), old(self).counters().1, old(self).counters().2, old(self).counters().3)
            },
            !old(self).index().contains_key(id@) ==> {
                &&& final(self).index() == old(self).index()
                &&& final(self).window() == old(self).window()
                &&& final(self).counters() == old(self).counters()
            },
    {
        match index_get(&self.index, id) {
            Some(entry) => {
                let refreshed = IndexEntry { last_accessed: now, ..entry };
                index_insert(&mut self.index, id.to_owned(), refreshed);
                self.add_to_recent_window(id.to_owned(), now);
                self.hits = crate::memory::hot::bump_u64_exec(self.hits);
                None
            },
            None => None,
        }
    }

    /// The current distinction of `key`.
    pub fn get_by_key(&self, key: &FullKey) -> (r: Option<String>)
        ensures
            match r {
                Some(id) => self.mappings().contains_key(key_view(*key)) && id@ == self.mappings()[key_view(*key)],
                None => !self.mappings().contains_key(key_view(*key)),
            },
    {
        key_ids_get(&self.current_mappings, key)
    }

    /// Evict the least recently accessed index entry (one of them, on ties).
    fn evict_oldest_index_entry(&mut self)
        ensures
            final(self).index() == old(self).index()
                || exists|v: Seq<char>| least_recent(old(self).index(), v) && final(self).index() == old(self).index().remove(v),
            old(self).index().dom().len() > 0 && old(self).index().dom().finite() ==> final(self).index() != old(self).index(),
            final(self).current_mappings == old(self).current_mappings,
            final(self).recent_window == old(self).recent_window,
            final(self).config == old(self).config,
            final(self).counters() == old(self).counters(),
    {
        let entries = index_entries(&self.index);
        if entries.len() == 0 {
            return;
        }
        let mut best: usize = 0;
        let mut i: usize = 1;
        while i < entries.len()
            invariant
                0 < entries@.len(),
                best < i <= entries@.len(),
                forall|j: int| 0 <= j < i ==> entries@[best as int].1.last_accessed <= (#[trigger] entries@[j]).1.last_accessed,
            decreases entries@.len() - i,
        {
            if entries[i].1.last_accessed < entries[best].1.last_accessed {
                best = i;
            }
            i = i + 1;
        }
        let victim = entries[best].0.clone();
        proof {
            assert forall|k: Seq<char>| #[trigger] self.index().contains_key(k) implies self.index()[victim@].last_accessed <= self.index()[k].last_accessed by {
                let w = choose|w: int| 0 <= w < entries@.len() && (#[trigger] entries@[w]).0@ == k;
                assert(entries@[w].1 == self.index()[k]);
            }
        }
        index_remove(&mut self.index, victim.as_str());
        proof {
            assert(!self.index().contains_key(victim@));
        }
    }

    /// Put a version under `key` at `now`: the key maps to its write ID; when the
    /// index is full the least recently accessed entry is evicted; the version is
    /// indexed, accessed `now`, and recorded in the recent window.
    pub fn put(&mut self, key: FullKey, versioned: VersionedValue, now: i64)
        ensures
            final(self).mappings() == old(self).mappings().insert(key_view(key), versioned.write_id@),
            final(self).spec_config() == old(self).spec_config(),
            final(self).counters() == old(self).counters(),
            final(self).window() == keep_last(old(self).window().push((versioned.write_id@, now)), old(self).spec_config().index_capacity as nat),
            final(self).index().contains_key(versioned.write_id@),
            key_view(final(self).index()[versioned.write_id@].key) == key_view(key),
            final(self).index()[versioned.write_id@].timestamp == versioned.timestamp,
            final(self).index()[versioned.write_id@].last_accessed == now,
            old(self).index().dom().len() < old(self).spec_config().index_capacity
                ==> final(self).index().remove(versioned.write_id@) == old(self).index().remove(versioned.write_id@),
            old(self).index().dom().len() >= old(self).spec_config().index_capacity ==> exists|v: Seq<char>|
                #![trigger old(self).index().remove(v)]
                (old(self).index().dom().len() == 0 || least_recent(old(self).index(), v))
                && final(self).index().remove(versioned.write_id@) == old(self).index().remove(v).remove(versioned.write_id@),
    {
        let id = versioned.write_id.clone();
        key_ids_insert(&mut self.current_mappings, key.duplicate(), id.clone());
        let ghost before = self.index();
        let n = index_len(&self.index);
        if n >= self.config.index_capacity {
            self.evict_oldest_index_entry();
            proof {
                if self.index() == before {
                    if before.dom().len() == 0 {
                        assert(self.index().remove(id@) == before.remove(id@).remove(id@));
                    }
                } else {
                    let v = choose|v: Seq<char>| least_recent(before, v) && self.index() == before.remove(v);
                    assert(self.index().remove(id@) =~= before.remove(v).remove(id@));
                }
            }
        }
        let ghost mid = self.index();
        index_insert(&mut self.index, id.clone(), IndexEntry { key, timestamp: versioned.timestamp, last_accessed: now });
        proof {
            assert(self.index().remove(id@) =~= mid.remove(id@));
            if n >= self.config.index_capacity {
                if mid == before {
                    assert(before.remove(id@) =~= before.remove(id@).remove(id@));
                }
            }
        }
        self.add_to_recent_window(id, now);
    }

    /// Whether distinction `id` is indexed.
    pub fn contains(&self, id: &str) -> (r: bool)
        ensures
            r == self.index().contains_key(id@),
    {
        index_get(&self.index, id).is_some()
    }

    /// Whether `key` has a current distinction here.
    pub fn contains_key(&self, key: &FullKey) -> (r: bool)
        ensures
            r == self.mappings().contains_key(key_view(*key)),
    {
        key_ids_contains(&self.current_mappings, key)
    }

    /// The number of index entries.
    pub fn len(&self) -> (r: usize)
        ensures
            has_size(self.index(), r as nat),
    {
        index_len(&self.index)
    }

    /// Whether the index is empty.
    pub fn is_empty(&self) -> (r: bool)
        ensures
            r == (self.index().dom().len() == 0),
    {
        index_len(&self.index) == 0
    }

    /// The index capacity.
    pub fn capacity(&self) -> (r: usize)
        ensures
            r == self.spec_config().index_capacity,
    {
        self.config.index_capacity
    }

    /// Statistics.
    pub fn stats(&self) -> (s: ChronicleStats)
        ensures
            (s.hits, s.misses, s.promotions, s.demotions) == self.counters(),
            has_size(self.index(), s.current_size as nat),
            s.capacity == self.spec_config().index_capacity,
    {
        ChronicleStats {
            hits: self.hits,
            misses: self.misses,
            promotions: self.promotions,
            demotions: self.demotions,
            current_size: index_len(&self.index),
            capacity: self.config.index_capacity,
        }
    }

    /// Promote distinction `id` to hot memory: it leaves the index.
    pub fn promote(&mut self, id: &str)
        ensures
            final(self).index() == old(self).index().remove(id@),
            final(self).mappings() == old(self).mappings(),
            final(self).window() == old(self).window(),
            final(self).spec_config() == old(self).spec_config(),
            final(self).counters() == (old(self).counters().0, old(self).counters().1, bump_u64(old(self).counters().2), old(self).counters().3),
    {
        index_remove(&mut self.index, id);
        self.promotions = crate::memory::hot::bump_u64_exec(self.promotions);
    }

    /// Demote distinction `id` to the archive: it leaves the index.
    pub fn demote(&mut self, id: &str)
        ensures
            final(self).index() == old(self).index().remove(id@),
            final(self).mappings() == old(self).mappings(),
            final(self).window() == old(self).window(),
            final(self).spec_config() == old(self).spec_config(),
            final(self).counters() == (old(self).counters().0, old(self).counters().1, old(self).counters().2, bump_u64(old(self).counters().3)),
    {
        index_remove(&mut self.index, id);
        self.demotions = crate::memory::hot::bump_u64_exec(self.demotions);
    }

    /// Distinctions to demote to the archive at `now`: those idle longer than the
    /// threshold, most idle first, at most `limit` of them. When more qualify, the
    /// ones left out have been idle no longer than any chosen one.
    pub fn find_demotion_candidates(&self, limit: usize, now: i64) -> (r: Vec<String>)
        ensures
            r@.len() <= limit,
            forall|i: int| 0 <= i < r@.len() ==> self.index().contains_key((#[trigger] r@[i])@)
                && idle_past(now, self.index()[r@[i]@].last_accessed, self.spec_config().idle_threshold),
            forall|i: int, j: int| 0 <= i < j < r@.len() ==> (#[trigger] r@[i])@ != (#[trigger] r@[j])@,
            forall|i: int, j: int| 0 <= i < j < r@.len() ==> self.index()[(#[trigger] r@[i])@].last_accessed <= self.index()[(#[trigger] r@[j])@].last_accessed,
            forall|k: Seq<char>| #[trigger] self.index().contains_key(k) && idle_past(now, self.index()[k].last_accessed, self.spec_config().idle_threshold)
                && !views(r@).contains(k) ==> r@.len() == limit
                && forall|i: int| 0 <= i < r@.len() ==> self.index()[(#[trigger] r@[i])@].last_accessed <= self.index()[k].last_accessed,
            is_demotion_choice(self.index(), self.spec_config().idle_threshold, limit, now, views(r@)),
    {
        let entries = index_entries(&self.index);
        let threshold = self.config.idle_threshold;
        let ghost pred = |i: usize| idle_past(now, entries@[i as int].1.last_accessed, threshold);
        let mut cands: Vec<usize> = Vec::new();
        let mut keys: Vec<i64> = Vec::new();
        let mut i: usize = 0;
        while i < entries.len()
            invariant
                i <= entries@.len(),
                cands@ == crate::memory::agent::positions(entries@.len()).take(i as int).filter(pred),
                forall|j: int| 0 <= j < cands@.len() ==> cands@[j] < i,
                forall|a: int, b: int| 0 <= a < b < cands@.len() ==> cands@[a] < cands@[b],
                keys@.len() == i,
                forall|j: int| 0 <= j < i ==> keys@[j] == (#[trigger] entries@[j]).1.last_accessed,
                pred == (|i: usize| idle_past(now, entries@[i as int].1.last_accessed, threshold)),
            decreases entries@.len() - i,
        {
            proof {
                assert(crate::memory::agent::positions(entries@.len()).take(i + 1) =~= crate::memory::agent::positions(entries@.len()).take(i as int).push(i));
                crate::memory::agent::positions(entries@.len()).take(i as int).lemma_filter_push(i, pred);
            }
            let last = entries[i].1.last_accessed;
            if (now as i128) - (last as i128) > threshold as i128 {
                cands.push(i);
            }
            keys.push(last);
            i = i + 1;
        }
        let ghost all = crate::memory::agent::positions(entries@.len());
        assert(all.take(entries@.len() as int) =~= all);
        let sorted = sort_indices_asc_i64(&cands, &keys);
        proof {
            lemma_sort_asc_sorted(cands@, index_key_i64(keys@));
        }
        let take = if sorted.len() > limit { limit } else { sorted.len() };
        let mut r: Vec<String> = Vec::new();
        let mut j: usize = 0;
        while j < take
            invariant
                take <= sorted@.len(),
                j <= take,
                r@.len() == j,
                forall|x: int| 0 <= x < j ==> (#[trigger] r@[x])@ == entries@[sorted@[x] as int].0@,
                forall|x: int| 0 <= x < sorted@.len() ==> sorted@[x] < entries@.len(),
            decreases take - j,
        {
            r.push(entries[sorted[j]].0.clone());
            j = j + 1;
        }
        proof {
            broadcast use vstd::seq_lib::group_to_multiset_ensures;
            let key = index_key_i64(keys@);
            assert(cands@.no_duplicates());
            cands@.lemma_multiset_has_no_duplicates();
            assert forall|x: int| 0 <= x < sorted@.len() implies cands@.contains(#[trigger] sorted@[x]) by {
                assert(sorted@.to_multiset().count(sorted@[x]) > 0);
            }
            assert(sorted@.no_duplicates()) by {
                assert forall|v: usize| sorted@.to_multiset().contains(v) implies sorted@.to_multiset().count(v) == 1 by {}
                sorted@.lemma_multiset_has_no_duplicates_conv();
            }
            // what each chosen position is
            assert forall|x: int| 0 <= x < sorted@.len() implies pred(#[trigger] sorted@[x]) && sorted@[x] < entries@.len() by {
                let c = choose|c: int| 0 <= c < cands@.len() && cands@[c] == sorted@[x];
                all.lemma_filter_pred(pred, c);
            }
            assert forall|x: int| 0 <= x < r@.len() implies self.index().contains_key((#[trigger] r@[x])@)
                && idle_past(now, self.index()[r@[x]@].last_accessed, self.spec_config().idle_threshold) by {
                assert(pred(sorted@[x]));
                assert(entries@[sorted@[x] as int].1 == self.index()[entries@[sorted@[x] as int].0@]);
            }
            assert forall|x: int, y: int| 0 <= x < y < r@.len() implies (#[trigger] r@[x])@ != (#[trigger] r@[y])@ by {
                assert(sorted@[x] != sorted@[y]);
            }
            assert forall|x: int, y: int| 0 <= x < y < r@.len() implies self.index()[(#[trigger] r@[x])@].last_accessed <= self.index()[(#[trigger] r@[y])@].last_accessed by {
                assert(key(sorted@[x]) <= key(sorted@[y]));
                assert(entries@[sorted@[x] as int].1 == self.index()[r@[x]@]);
                assert(entries@[sorted@[y] as int].1 == self.index()[r@[y]@]);
            }
            assert forall|k: Seq<char>| #[trigger] self.index().contains_key(k) && idle_past(now, self.index()[k].last_accessed, self.spec_config().idle_threshold)
                && !views(r@).contains(k) implies r@.len() == limit
                && forall|x: int| 0 <= x < r@.len() ==> self.index()[(#[trigger] r@[x])@].last_accessed <= self.index()[k].last_accessed by {
                let w = choose|w: int| 0 <= w < entries@.len() && (#[trigger] entries@[w]).0@ == k;
                assert(entries@[w].1 == self.index()[k]);
                assert(all[w] == w as usize);
                assert(pred(all[w]));
                all.lemma_filter_contains(pred, w);
                assert(cands@.contains(w as usize));
                assert(cands@.to_multiset().count(w as usize) > 0);
                assert(sorted@.contains(w as usize));
                let p = choose|p: int| 0 <= p < sorted@.len() && sorted@[p] == w as usize;
                if p < take {
                    assert(views(r@)[p] == k);
                    assert(false);
                }
                assert forall|x: int| 0 <= x < r@.len() implies self.index()[(#[trigger] r@[x])@].last_accessed <= self.index()[k].last_accessed by {
                    assert(key(sorted@[x]) <= key(sorted@[p]));
                    assert(entries@[sorted@[x] as int].1 == self.index()[r@[x]@]);
                }
            }
        }
        proof {
            lemma_views_demotion_choice(self.index(), self.spec_config().idle_threshold, limit, now, r@);
        }
        r
    }

    /// Distinctions to promote to hot memory: among the newest `2 * limit`
    /// accesses, each distinction once (newest access first), those still indexed,
    /// at most `limit` of them, with their keys.
    pub fn find_promotion_candidates(&self, limit: usize) -> (r: Vec<(FullKey, String)>)
        requires
            2 * limit <= usize::MAX,
        ensures
            r@.len() == promotion_ids(self.window(), self.index(), limit as nat).len(),
            forall|i: int| 0 <= i < r@.len() ==> {
                &&& (#[trigger] r@[i]).1@ == promotion_ids(self.window(), self.index(), limit as nat)[i]
                &&& key_view(r@[i].0) == key_view(self.index()[r@[i].1@].key)
            },
    {
        let ghost w = newest_first(self.window());
        let n = self.recent_window.len();
        let scan = if n > 2 * limit { 2 * limit } else { n };
        let ghost scanned = w.take(scan as int);
        let ghost pred = |id: Seq<char>| self.index().contains_key(id);
        let mut seen: Vec<String> = Vec::new();
        let mut out: Vec<(FullKey, String)> = Vec::new();
        let mut s: usize = 0;
        assert(w.len() == n);
        assert(w.take(0) =~= Seq::<Seq<char>>::empty());
        assert(dedup(w.take(0)).filter(pred) =~= Seq::<Seq<char>>::empty()) by {
            reveal(Seq::filter);
        }
        while s < scan
            invariant
                scan <= n,
                n == self.recent_window@.len(),
                w == newest_first(self.window()),
                w.len() == n,
                scanned == w.take(scan as int),
                s <= scan,
                views(seen@) == dedup(w.take(s as int)),
                pred == (|id: Seq<char>| self.index().contains_key(id)),
                out@.len() == (if dedup(w.take(s as int)).filter(pred).len() > limit { limit as int } else { dedup(w.take(s as int)).filter(pred).len() as int }),
                forall|i: int| 0 <= i < out@.len() ==> {
                    &&& (#[trigger] out@[i]).1@ == dedup(w.take(s as int)).filter(pred)[i]
                    &&& key_view(out@[i].0) == key_view(self.index()[out@[i].1@].key)
                },
            decreases scan - s,
        {
            let idx = n - 1 - s;
            let id = self.recent_window[idx].0.clone();
            let ghost prev = dedup(w.take(s as int));
            proof {
                assert(w[s as int] == self.window().reverse()[s as int].0);
                assert(self.window().reverse()[s as int] == self.window()[idx as int]);
                assert(w[s as int] == id@);
                assert(w.take(s + 1) =~= w.take(s as int).push(id@));
                assert(w.take(s + 1).drop_last() =~= w.take(s as int));
            }
            let mut q: usize = 0;
            while q < seen.len()
                invariant
                    q <= seen@.len(),
                    forall|j: int| 0 <= j < q ==> (#[trigger] seen@[j])@ != id@,
                ensures
                    q <= seen@.len(),
                    forall|j: int| 0 <= j < q ==> (#[trigger] seen@[j])@ != id@,
                    q < seen@.len() ==> seen@[q as int]@ == id@,
                decreases seen@.len() - q,
            {
                if str_eq(seen[q].as_str(), id.as_str()) {
                    break;
                }
                q = q + 1;
            }
            if q < seen.len() {
                proof {
                    assert(views(seen@)[q as int] == id@);
                    assert(prev.contains(id@));
                    assert(dedup(w.take(s + 1)) == prev);
                }
            } else {
                proof {
                    assert(!prev.contains(id@)) by {
                        if prev.contains(id@) {
                            let j = choose|j: int| 0 <= j < prev.len() && prev[j] == id@;
                            assert(seen@[j]@ == id@);
                        }
                    }
                    assert(dedup(w.take(s + 1)) == prev.push(id@));
                    prev.lemma_filter_push(id@, pred);
                }
                let ghost seen_before = views(seen@);
                seen.push(id.clone());
                assert(views(seen@) =~= seen_before.push(id@));
                if out.len() < limit {
                    match index_get(&self.index, id.as_str()) {
                        Some(entry) => {
                            let ghost out_before = out@;
                            out.push((entry.key, id));
                            proof {
                                assert forall|i: int| 0 <= i < out@.len() implies {
                                    &&& (#[trigger] out@[i]).1@ == dedup(w.take(s + 1)).filter(pred)[i]
                                    &&& key_view(out@[i].0) == key_view(self.index()[out@[i].1@].key)
                                } by {
                                    if i < out_before.len() {
                                        assert(out@[i] == out_before[i]);
                                    }
                                }
                            }
                        },
                        None => {},
                    }
                }
            }
            s = s + 1;
        }
        proof {
            assert(scanned =~= w.take(s as int));
        }
        out
    }
}

/// The warm memory layer, under its earlier name.
pub type WarmMemory = ChronicleAgent;

/// Warm memory configuration, under its earlier name.
pub type WarmConfig = ChronicleConfig;

/// Warm memory statistics, under their earlier name.
pub type WarmStats = ChronicleStats;

} // verus!
