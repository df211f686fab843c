//! Cold memory (the archive): distinctions kept by fitness in numbered epochs,
//! the newest epochs kept and the oldest dropped as epochs rotate.
//!
//! Times are nanoseconds after the Unix epoch (UTC).

use vstd::prelude::*;
use crate::memory::hot::{bump_u64, bump_u64_exec};
use crate::memory::maps::{epochs_contains, epochs_get, epochs_insert, epochs_len, epochs_new, epochs_of, epochs_remove, has_size};
use crate::numfmt::{decimal, push_decimal};
use crate::strings::str_eq;
use crate::types::{key_view, FullKey, VersionedValue};
use dashmap::DashMap;
use vstd::string::*;

verus! {

/// One day in nanoseconds.
pub const DAY_NANOS: i64 = 86_400_000_000_000;

/// Archive configuration.
#[derive(Debug, Clone, Copy, PartialEq, Eq, Structural)]
pub struct ArchiveConfig {
    /// Number of epochs to keep.
    pub epoch_count: usize,
    /// Length of an epoch (nanoseconds).
    pub epoch_duration: i64,
    /// Distinctions per epoch before it is compressed.
    pub max_distinctions_per_epoch: usize,
    /// References at or above this keep a distinction in the archive.
    pub fitness_threshold: usize,
}

impl Default for ArchiveConfig {
    fn default() -> (c: Self)
        ensures
            c.epoch_count == 7,
            c.epoch_duration == DAY_NANOS,
            c.max_distinctions_per_epoch == 100_000,
            c.fitness_threshold == 2,
    {
        ArchiveConfig { epoch_count: 7, epoch_duration: DAY_NANOS, max_distinctions_per_epoch: 100_000, fitness_threshold: 2 }
    }
}

/// An archived distinction.
#[derive(Debug, Clone)]
pub struct EpochEntry {
    /// Its key.
    pub key: FullKey,
    /// When it was written.
    pub timestamp: i64,
    /// Its fitness (reference count) when archived.
    pub fitness: usize,
    /// Where its data lives: `epoch_{n}/data_{id}`.
    pub data_ref: String,
}

/// An epoch of archived distinctions.
#[derive(Debug, Clone)]
pub struct Epoch {
    /// The epoch number.
    pub number: usize,
    /// When the epoch started.
    pub start_time: i64,
    /// When the epoch ends.
    pub end_time: i64,
    /// Archived distinctions by ID, each ID once.
    pub index: Vec<(String, EpochEntry)>,
    /// Number of distinctions added.
    pub distinction_count: usize,
}

/// Result of a consolidation.
#[derive(Debug, Clone, Copy, PartialEq, Eq, Structural)]
pub struct ConsolidationResult {
    /// Distinctions kept in the archive.
    pub kept: usize,
    /// Distinctions passed on for deep archiving.
    pub archived: usize,
}

/// A pattern extracted from an epoch.
#[derive(Debug, Clone)]
pub struct Pattern {
    /// Pattern ID.
    pub id: String,
    /// How often it occurs.
    pub frequency: usize,
    /// Its template.
    pub template: String,
}

/// Archive statistics.
#[derive(Debug, Clone, Copy, PartialEq, Eq, Structural)]
pub struct ArchiveStats {
    /// Consolidations run.
    pub consolidations: u64,
    /// Epoch compressions.
    pub compressions: u64,
    /// Distinctions passed on for deep archiving.
    pub archives: u64,
    /// Epochs held.
    pub epoch_count: usize,
    /// Distinctions added over all held epochs.
    pub total_distinctions: usize,
}

/// The position of `id` in an epoch index, if present.
pub open spec fn find_in(index: Seq<(String, EpochEntry)>, id: Seq<char>) -> Option<int> {
    if exists|i: int| 0 <= i < index.len() && (#[trigger] index[i]).0@ == id {
        Some(choose|i: int| 0 <= i < index.len() && (#[trigger] index[i]).0@ == id)
    } else {
        None
    }
}

/// Whether an index holds each ID once.
pub open spec fn ids_unique(index: Seq<(String, EpochEntry)>) -> bool {
    forall|i: int, j: int| 0 <= i < j < index.len() ==> (#[trigger] index[i]).0@ != (#[trigger] index[j]).0@
}

/// The data reference of distinction `id` in epoch `n`.
pub open spec fn data_ref_text(n: usize, id: Seq<char>) -> Seq<char> {
    "epoch_"@ + decimal(n as nat) + "/data_"@ + id
}

/// The sum of the distinction counts of the epochs numbered below `hi`.
pub open spec fn count_below(epochs: Map<usize, Epoch>, hi: int) -> int
    decreases hi,
{
    if hi <= 0 {
        0
    } else {
        count_below(epochs, hi - 1) + if epochs.contains_key((hi - 1) as usize) {
            epochs[(hi - 1) as usize].distinction_count as int
        } else {
            0
        }
    }
}

/// The newest epoch at or below `n` holding distinction `id`.
pub open spec fn newest_holding(epochs: Map<usize, Epoch>, id: Seq<char>, n: int) -> Option<usize>
    decreases n + 1,
{
    if n < 0 {
        None
    } else if epochs.contains_key(n as usize) && find_in(epochs[n as usize].index@, id) is Some {
        Some(n as usize)
    } else {
        newest_holding(epochs, id, n - 1)
    }
}

/// Whether an epoch index holds an entry for key `k`.
pub open spec fn holds_key(index: Seq<(String, EpochEntry)>, k: (Seq<char>, Seq<char>)) -> bool {
    exists|i: int| 0 <= i < index.len() && key_view((#[trigger] index[i]).1.key) == k
}

/// Whether an epoch index holds distinction `id` under key `k`.
pub open spec fn holds_id_with_key(index: Seq<(String, EpochEntry)>, id: Seq<char>, k: (Seq<char>, Seq<char>)) -> bool {
    exists|i: int| 0 <= i < index.len() && (#[trigger] index[i]).0@ == id && key_view(index[i].1.key) == k
}

/// The newest epoch numbered `n` or less that holds an entry for key `k`.
pub open spec fn newest_with_key(epochs: Map<usize, Epoch>, k: (Seq<char>, Seq<char>), n: int) -> Option<usize>
    decreases n + 1,
{
    if n < 0 {
        None
    } else if epochs.contains_key(n as usize) && holds_key(epochs[n as usize].index@, k) {
        Some(n as usize)
    } else {
        newest_with_key(epochs, k, n - 1)
    }
}

/// Archive agent: cold memory.
pub struct ArchiveAgent {
    config: ArchiveConfig,
    epochs: DashMap<usize, Epoch>,
    current_epoch: u64,
    consolidations: u64,
    compressions: u64,
    archives: u64,
}

impl ArchiveAgent {
    /// The epochs held, by number.
    pub closed spec fn epochs(&self) -> Map<usize, Epoch> {
        epochs_of(self.epochs)
    }

    /// The current epoch number.
    pub closed spec fn current(&self) -> u64 {
        self.current_epoch
    }

    /// The configuration.
    pub closed spec fn spec_config(&self) -> ArchiveConfig {
        self.config
    }

    /// The counters: consolidations, compressions, archives.
    pub closed spec fn counters(&self) -> (u64, u64, u64) {
        (self.consolidations, self.compressions, self.archives)
    }

    /// Epoch numbers stay within `0..=current`, each epoch holds each ID once and
    /// knows its own number.
    pub closed spec fn wf(&self) -> bool {
        &&& self.current_epoch < usize::MAX
        &&& forall|n: usize| #[trigger] self.epochs().contains_key(n) ==> n <= self.current_epoch
            && ids_unique(self.epochs()[n].index@) && self.epochs()[n].number == n
    }

    /// An empty epoch numbered `number`, starting `now`.
    fn make_epoch(&self, number: usize, now: i64) -> (e: Epoch)
        requires
            now + self.config.epoch_duration <= i64::MAX,
            now + self.config.epoch_duration >= i64::MIN,
        ensures
            e.number == number,
            e.start_time == now,
            e.end_time == now + self.config.epoch_duration,
            e.index@.len() == 0,
            e.distinction_count == 0,
    {
        Epoch { number, start_time: now, end_time: now + self.config.epoch_duration, index: Vec::new(), distinction_count: 0 }
    }

    /// Create an archive agent with the default configuration; epoch 0 starts `now`.
    pub fn new(now: i64) -> (a: Self)
        requires
            now + DAY_NANOS <= i64::MAX,
        ensures
            a.wf(),
            a.spec_config().epoch_count == 7,
            a.current() == 0,
            a.epochs().dom() == set![0usize],
            a.epochs()[0].index@.len() == 0,
            a.counters() == (0u64, 0u64, 0u64),
    {
        Self::with_config(ArchiveConfig::default(), now)
    }

    /// Create an archive agent with a custom configuration; epoch 0 starts `now`.
    pub fn with_config(config: ArchiveConfig, now: i64) -> (a: Self)
        requires
            now + config.epoch_duration <= i64::MAX,
            now + config.epoch_duration >= i64::MIN,
        ensures
            a.wf(),
            a.spec_config() == config,
            a.current() == 0,
            a.epochs().dom() == set![0usize],
            a.epochs()[0].index@.len() == 0,
            a.epochs()[0].distinction_count == 0,
            a.counters() == (0u64, 0u64, 0u64),
    {
        let mut a = ArchiveAgent { config, epochs: epochs_new(), current_epoch: 0, consolidations: 0, compressions: 0, archives: 0 };
        let e = a.make_epoch(0, now);
        epochs_insert(&mut a.epochs, 0, e);
        proof {
            assert(a.epochs().dom() =~= set![0usize]);
        }
        a
    }

    /// Record distinction `id` in epoch `n` (if held), replacing an entry with the
    /// same ID, and count it.
    fn add_to_epoch(&mut self, n: usize, id: String, key: FullKey, timestamp: i64, fitness: usize)
        requires
            old(self).wf(),
            old(self).epochs().contains_key(n) ==> old(self).epochs()[n].distinction_count < usize::MAX,
        ensures
            final(self).wf(),
            final(self).current() == old(self).current(),
            final(self).spec_config() == old(self).spec_config(),
            final(self).counters() == old(self).counters(),
            !old(self).epochs().contains_key(n) ==> final(self).epochs() == old(self).epochs(),
            old(self).epochs().contains_key(n) ==> {
                let e = final(self).epochs()[n];
                &&& final(self).epochs().dom() == old(self).epochs().dom()
                &&& forall|m: usize| m != n && #[trigger] old(self).epochs().contains_key(m) ==> final(self).epochs()[m] == old(self).epochs()[m]
                &&& e.distinction_count == old(self).epochs()[n].distinction_count + 1
                &&& find_in(e.index@, id@) is Some
                &&& key_view(e.index@[find_in(e.index@, id@)->0].1.key) == key_view(key)
                &&& e.index@[find_in(e.index@, id@)->0].1.fitness == fitness
                &&& e.index@[find_in(e.index@, id@)->0].1.timestamp == timestamp
                &&& e.index@[find_in(e.index@, id@)->0].1.data_ref@ == data_ref_text(n, id@)
                &&& forall|other: Seq<char>| other != id@ ==> (find_in(e.index@, other) is Some <==> find_in(old(self).epochs()[n].index@, other) is Some)
            },
    {
        match epochs_get(&self.epochs, n) {
            Some(mut epoch) => {
                let mut data_ref = String::from_str("epoch_");
                push_decimal(&mut data_ref, n as u64);
                data_ref.append("/data_");
                data_ref.append(id.as_str());
                let entry = EpochEntry { key, timestamp, fitness, data_ref };
                let ghost before = epoch.index@;
                let mut p: usize = 0;
                while p < epoch.index.len()
                    invariant
                        p <= epoch.index@.len(),
                        forall|q: int| 0 <= q < p ==> (#[trigger] epoch.index@[q]).0@ != id@,
                    ensures
                        p <= epoch.index@.len(),
                        forall|q: int| 0 <= q < p ==> (#[trigger] epoch.index@[q]).0@ != id@,
                        p < epoch.index@.len() ==> epoch.index@[p as int].0@ == id@,
                    decreases epoch.index@.len() - p,
                {
                    if str_eq(epoch.index[p].0.as_str(), id.as_str()) {
                        break;
                    }
                    p = p + 1;
                }
                if p < epoch.index.len() {
                    epoch.index.set(p, (id, entry));
                    proof {
                        assert forall|i: int, j: int| 0 <= i < j < epoch.index@.len() implies (#[trigger] epoch.index@[i]).0@ != (#[trigger] epoch.index@[j]).0@ by {
                            assert(i != p ==> epoch.index@[i] == before[i]);
                            assert(j != p ==> epoch.index@[j] == before[j]);
                        }
                        assert(epoch.index@[p as int].0@ == id@);
                        lemma_find_unique(epoch.index@, id@, p as int);
                        assert forall|other: Seq<char>| other != id@ implies (find_in(epoch.index@, other) is Some <==> find_in(before, other) is Some) by {
                            if find_in(before, other) is Some {
                                let k = choose|k: int| 0 <= k < before.len() && (#[trigger] before[k]).0@ == other;
                                assert(epoch.index@[k] == before[k]);
                            }
                            if find_in(epoch.index@, other) is Some {
                                let k = choose|k: int| 0 <= k < epoch.index@.len() && (#[trigger] epoch.index@[k]).0@ == other;
                                assert(epoch.index@[k] == before[k]);
                            }
                        }
                    }
                } else {
                    epoch.index.push((id, entry));
                    proof {
                        let last = epoch.index@.len() - 1;
                        assert forall|i: int, j: int| 0 <= i < j < epoch.index@.len() implies (#[trigger] epoch.index@[i]).0@ != (#[trigger] epoch.index@[j]).0@ by {
                            assert(epoch.index@[i] == before[i]);
                            if j < last {
                                assert(epoch.index@[j] == before[j]);
                            }
                        }
                        assert(epoch.index@[last].0@ == id@);
                        lemma_find_unique(epoch.index@, id@, last);
                        assert forall|other: Seq<char>| other != id@ implies (find_in(epoch.index@, other) is Some <==> find_in(before, other) is Some) by {
                            if find_in(before, other) is Some {
                                let k = choose|k: int| 0 <= k < before.len() && (#[trigger] before[k]).0@ == other;
                                assert(epoch.index@[k] == before[k]);
                            }
                            if find_in(epoch.index@, other) is Some {
                                let k = choose|k: int| 0 <= k < epoch.index@.len() && (#[trigger] epoch.index@[k]).0@ == other;
                                assert(epoch.index@[k] == before[k]);
                            }
                        }
                    }
                }
                epoch.distinction_count = epoch.distinction_count + 1;
                let ghost old_epochs = self.epochs();
                epochs_insert(&mut self.epochs, n, epoch);
                proof {
                    assert(self.epochs().dom() =~= old_epochs.dom());
                }
            },
            None => {},
        }
    }

    /// Consolidate distinctions `(id, key, version, reference count)` into the
    /// current epoch: those with at least `fitness_threshold` references are kept,
    /// the rest are passed on (counted as archives). The consolidation is counted,
    /// and the epoch is compressed (counted) once it holds the configured maximum.
    pub fn consolidate(&mut self, distinctions: Vec<(String, FullKey, VersionedValue, usize)>) -> (r: ConsolidationResult)
        requires
            old(self).wf(),
            old(self).epochs().contains_key(old(self).current() as usize) ==>
                old(self).epochs()[old(self).current() as usize].distinction_count + distinctions@.len() <= usize::MAX,
        ensures
            final(self).wf(),
            final(self).current() == old(self).current(),
            final(self).spec_config() == old(self).spec_config(),
            r.kept + r.archived == distinctions@.len(),
            r.kept == kept_count(distinctions@, old(self).spec_config().fitness_threshold),
            final(self).counters().0 == bump_u64(old(self).counters().0),
            final(self).counters().2 == add_wrapping(old(self).counters().2, r.archived),
            final(self).epochs().dom() == old(self).epochs().dom(),
            forall|m: usize| m != old(self).current() && #[trigger] old(self).epochs().contains_key(m) ==> final(self).epochs()[m] == old(self).epochs()[m],
            forall|i: int| 0 <= i < distinctions@.len() && (#[trigger] distinctions@[i]).3 >= old(self).spec_config().fitness_threshold
                && old(self).epochs().contains_key(old(self).current() as usize)
                ==> find_in(final(self).epochs()[old(self).current() as usize].index@, distinctions@[i].0@) is Some,
    {
        let threshold = self.config.fitness_threshold;
        let n = self.current_epoch as usize;
        let mut kept: usize = 0;
        let mut archived: usize = 0;
        let mut i: usize = 0;
        let ghost start = self.epochs();
        let ghost start_counters = self.counters();
        while i < distinctions.len()
            invariant
                self.wf(),
                i <= distinctions@.len(),
                n == self.current_epoch as usize,
                self.current_epoch == old(self).current_epoch,
                self.config == old(self).config,
                threshold == self.config.fitness_threshold,
                kept + archived == i,
                kept == kept_count(distinctions@.take(i as int), threshold),
                self.consolidations == old(self).consolidations,
                self.compressions == old(self).compressions,
                self.archives == add_wrapping(old(self).archives, archived),
                self.epochs().dom() == start.dom(),
                forall|m: usize| m != n && #[trigger] start.contains_key(m) ==> self.epochs()[m] == start[m],
                start.contains_key(n) ==> self.epochs()[n].distinction_count == start[n].distinction_count + kept,
                start.contains_key(n) ==> start[n].distinction_count + distinctions@.len() <= usize::MAX,
                forall|j: int| 0 <= j < i && (#[trigger] distinctions@[j]).3 >= threshold && start.contains_key(n)
                    ==> find_in(self.epochs()[n].index@, distinctions@[j].0@) is Some,
                start == old(self).epochs(),
            decreases distinctions@.len() - i,
        {
            proof {
                assert(distinctions@.take(i + 1).drop_last() =~= distinctions@.take(i as int));
                assert(distinctions@.take(i + 1).last() == distinctions@[i as int]);
                lemma_kept_count_le(distinctions@.take(i as int), threshold);
            }
            let (id, key, versioned, refs) = (
                distinctions[i].0.clone(),
                distinctions[i].1.duplicate(),
                distinctions[i].2.timestamp,
                distinctions[i].3,
            );
            if refs >= threshold {
                let ghost before = self.epochs();
                self.add_to_epoch(n, id, key, versioned, refs);
                kept = kept + 1;
                proof {
                    if start.contains_key(n) {
                        assert forall|j: int| 0 <= j < i + 1 && (#[trigger] distinctions@[j]).3 >= threshold
                            implies find_in(self.epochs()[n].index@, distinctions@[j].0@) is Some by {
                            if j < i && distinctions@[j].0@ != distinctions@[i as int].0@ {
                                assert(find_in(before[n].index@, distinctions@[j].0@) is Some);
                            }
                        }
                    }
                }
            } else {
                archived = archived + 1;
                self.archives = wrap_add_one(self.archives);
            }
            i = i + 1;
        }
        proof {
            assert(distinctions@.take(distinctions@.len() as int) =~= distinctions@);
        }
        self.consolidations = bump_u64_exec(self.consolidations);
        self.maybe_compress_epoch(n);
        ConsolidationResult { kept, archived }
    }

    /// Count a compression of epoch `n` when it holds at least the configured
    /// maximum number of distinctions.
    fn maybe_compress_epoch(&mut self, n: usize)
        ensures
            final(self).epochs == old(self).epochs,
            final(self).current_epoch == old(self).current_epoch,
            final(self).config == old(self).config,
            final(self).consolidations == old(self).consolidations,
            final(self).archives == old(self).archives,
            final(self).compressions == (if old(self).epochs().contains_key(n)
                && old(self).epochs()[n].distinction_count >= old(self).config.max_distinctions_per_epoch {
                bump_u64(old(self).compressions)
            } else {
                old(self).compressions
            }),
    {
        let full = match epochs_get(&self.epochs, n) {
            Some(e) => e.distinction_count >= self.config.max_distinctions_per_epoch,
            None => false,
        };
        if full {
            self.compressions = bump_u64_exec(self.compressions);
        }
    }

    /// Count a compression for each epoch before the current one that is full.
    pub fn compress_old_epochs(&mut self)
        requires
            old(self).wf(),
        ensures
            final(self).wf(),
            final(self).epochs() == old(self).epochs(),
            final(self).current() == old(self).current(),
            final(self).counters().0 == old(self).counters().0,
            final(self).counters().1 == compressions_after(
                old(self).counters().1,
                old(self).epochs(),
                old(self).spec_config().max_distinctions_per_epoch,
                old(self).current() as nat,
            ),
            final(self).counters().2 == old(self).counters().2,
            final(self).spec_config() == old(self).spec_config(),
    {
        let current = self.current_epoch as usize;
        let mut n: usize = 0;
        while n < current
            invariant
                self.wf(),
                n <= current,
                current == self.current_epoch as usize,
                self.epochs == old(self).epochs,
                self.current_epoch == old(self).current_epoch,
                self.consolidations == old(self).consolidations,
                self.archives == old(self).archives,
                self.config == old(self).config,
                self.compressions == compressions_after(
                    old(self).compressions,
                    old(self).epochs(),
                    old(self).config.max_distinctions_per_epoch,
                    n as nat,
                ),
            decreases current - n,
        {
            self.maybe_compress_epoch(n);
            n = n + 1;
        }
    }

    /// Look up distinction `id`, newest epoch first: its key and data reference.
    pub fn get(&self, id: &str) -> (r: Option<(FullKey, String)>)
        requires
            self.wf(),
        ensures
            match newest_holding(self.epochs(), id@, self.current() as int) {
                None => r is None,
                Some(n) => r matches Some((k, d)) && {
                    let e = self.epochs()[n].index@[find_in(self.epochs()[n].index@, id@)->0].1;
                    key_view(k) == key_view(e.key) && d@ == e.data_ref@
                },
            },
    {
        let mut n: u64 = self.current_epoch;
        loop
            invariant
                self.wf(),
                n <= self.current_epoch,
                newest_holding(self.epochs(), id@, self.current() as int) == newest_holding(self.epochs(), id@, n as int),
            decreases n,
        {
            match epochs_get(&self.epochs, n as usize) {
                Some(epoch) => {
                    let mut p: usize = 0;
                    while p < epoch.index.len()
                        invariant
                            p <= epoch.index@.len(),
                            forall|q: int| 0 <= q < p ==> (#[trigger] epoch.index@[q]).0@ != id@,
                        ensures
                            p <= epoch.index@.len(),
                            forall|q: int| 0 <= q < p ==> (#[trigger] epoch.index@[q]).0@ != id@,
                            p < epoch.index@.len() ==> epoch.index@[p as int].0@ == id@,
                        decreases epoch.index@.len() - p,
                    {
                        if str_eq(epoch.index[p].0.as_str(), id) {
                            break;
                        }
                        p = p + 1;
                    }
                    if p < epoch.index.len() {
                        proof {
                            lemma_find_unique(epoch.index@, id@, p as int);
                        }
                        return Some((epoch.index[p].1.key.duplicate(), epoch.index[p].1.data_ref.clone()));
                    }
                    proof {
                        assert(find_in(epoch.index@, id@) is None) by {
                            if exists|i: int| 0 <= i < epoch.index@.len() && (#[trigger] epoch.index@[i]).0@ == id@ {
                                let i = choose|i: int| 0 <= i < epoch.index@.len() && (#[trigger] epoch.index@[i]).0@ == id@;
                            }
                        }
                    }
                },
                None => {},
            }
            if n == 0 {
                return None;
            }
            n = n - 1;
        }
    }

    /// The distinction archived under `key`, newest epoch first: an ID whose entry
    /// in the newest epoch holding the key has that key (which one, when that epoch
    /// holds several, is left open).
    pub fn get_by_key(&self, key: &FullKey) -> (r: Option<String>)
        requires
            self.wf(),
        ensures
            match newest_with_key(self.epochs(), key_view(*key), self.current() as int) {
                None => r is None,
                Some(n) => r matches Some(id) && holds_id_with_key(self.epochs()[n].index@, id@, key_view(*key)),
            },
    {
        let mut n: u64 = self.current_epoch;
        loop
            invariant
                self.wf(),
                n <= self.current_epoch,
                newest_with_key(self.epochs(), key_view(*key), self.current() as int)
                    == newest_with_key(self.epochs(), key_view(*key), n as int),
            decreases n,
        {
            match epochs_get(&self.epochs, n as usize) {
                Some(epoch) => {
                    let mut p: usize = 0;
                    while p < epoch.index.len()
                        invariant
                            p <= epoch.index@.len(),
                            forall|q: int| 0 <= q < p ==> key_view((#[trigger] epoch.index@[q]).1.key) != key_view(*key),
                        ensures
                            p <= epoch.index@.len(),
                            forall|q: int| 0 <= q < p ==> key_view((#[trigger] epoch.index@[q]).1.key) != key_view(*key),
                            p < epoch.index@.len() ==> key_view(epoch.index@[p as int].1.key) == key_view(*key),
                        decreases epoch.index@.len() - p,
                    {
                        if str_eq(epoch.index[p].1.key.namespace.as_str(), key.namespace.as_str())
                            && str_eq(epoch.index[p].1.key.key.as_str(), key.key.as_str()) {
                            break;
                        }
                        p = p + 1;
                    }
                    if p < epoch.index.len() {
                        let id = epoch.index[p].0.clone();
                        proof {
                            assert(holds_key(epoch.index@, key_view(*key)));
                            assert(epoch == self.epochs()[n as usize]);
                            assert(newest_with_key(self.epochs(), key_view(*key), n as int) == Some(n as usize));
                            assert(self.epochs()[n as usize].index@[p as int].0@ == id@);
                            assert(key_view(self.epochs()[n as usize].index@[p as int].1.key) == key_view(*key));
                            assert(newest_with_key(self.epochs(), key_view(*key), self.current() as int) == Some(n as usize));
                            assert(holds_id_with_key(self.epochs()[n as usize].index@, id@, key_view(*key)));
                        }
                        return Some(id);
                    }
                    proof {
                        assert(!holds_key(epoch.index@, key_view(*key)));
                    }
                },
                None => {},
            }
            if n == 0 {
                return None;
            }
            n = n - 1;
        }
    }

    /// Whether distinction `id` is archived in a held epoch.
    pub fn contains(&self, id: &str) -> (r: bool)
        requires
            self.wf(),
        ensures
            r == (newest_holding(self.epochs(), id@, self.current() as int) is Some),
    {
        self.get(id).is_some()
    }

    /// Start a new epoch at `now`: the epoch `epoch_count` back from it is dropped,
    /// and the new epoch becomes current.
    pub fn rotate_epoch(&mut self, now: i64)
        requires
            old(self).wf(),
            old(self).current() + 1 < usize::MAX,
            old(self).current() + 1 < i64::MAX,
            old(self).spec_config().epoch_count <= i64::MAX,
            now + old(self).spec_config().epoch_duration <= i64::MAX,
            now + old(self).spec_config().epoch_duration >= i64::MIN,
        ensures
            final(self).wf(),
            final(self).current() == old(self).current() + 1,
            final(self).spec_config() == old(self).spec_config(),
            final(self).counters() == old(self).counters(),
            ({
                let fresh = (old(self).current() + 1) as usize;
                let dropped = old(self).current() + 1 - old(self).spec_config().epoch_count;
                let kept = if dropped >= 0 { old(self).epochs().remove(dropped as usize) } else { old(self).epochs() };
                &&& final(self).epochs().dom() == kept.dom().insert(fresh)
                &&& forall|m: usize| m != fresh && #[trigger] kept.contains_key(m) ==> final(self).epochs()[m] == kept[m]
                &&& final(self).epochs()[fresh].index@.len() == 0
                &&& final(self).epochs()[fresh].distinction_count == 0
                &&& final(self).epochs()[fresh].start_time == now
            }),
    {
        let new_epoch = self.current_epoch + 1;
        let to_remove: i64 = new_epoch as i64 - self.config.epoch_count as i64;
        if to_remove >= 0 {
            epochs_remove(&mut self.epochs, to_remove as usize);
        }
        let ghost mid = self.epochs();
        let e = self.make_epoch(new_epoch as usize, now);
        epochs_insert(&mut self.epochs, new_epoch as usize, e);
        self.current_epoch = new_epoch;
        proof {
            assert forall|n: usize| #[trigger] self.epochs().contains_key(n) implies n <= self.current_epoch
                && ids_unique(self.epochs()[n].index@) && self.epochs()[n].number == n by {
                if n != new_epoch as usize {
                    assert(mid.contains_key(n));
                    assert(old(self).epochs().contains_key(n));
                }
            }
        }
    }

    /// The current epoch number.
    pub fn current_epoch(&self) -> (r: usize)
        requires
            self.wf(),
        ensures
            r == self.current(),
    {
        self.current_epoch as usize
    }

    /// The number of epochs held.
    pub fn epoch_count(&self) -> (r: usize)
        ensures
            has_size(self.epochs(), r as nat),
    {
        epochs_len(&self.epochs)
    }

    /// The number of distinctions added over all held epochs (saturating at
    /// `usize::MAX`).
    pub fn total_distinctions(&self) -> (r: usize)
        requires
            self.wf(),
        ensures
            r == (if count_below(self.epochs(), self.current() + 1) > usize::MAX { usize::MAX as int } else { count_below(self.epochs(), self.current() + 1) }),
    {
        let top = self.current_epoch as usize;
        let mut total: usize = 0;
        let mut n: usize = 0;
        while n <= top
            invariant
                self.wf(),
                top == self.current_epoch,
                n <= top + 1,
                total == (if count_below(self.epochs(), n as int) > usize::MAX { usize::MAX as int } else { count_below(self.epochs(), n as int) }),
            decreases top + 1 - n,
        {
            match epochs_get(&self.epochs, n) {
                Some(e) => {
                    total = total.saturating_add(e.distinction_count);
                },
                None => {},
            }
            proof {
                lemma_count_below_monotone(self.epochs(), n as int);
            }
            n = n + 1;
        }
        total
    }

    /// Statistics.
    pub fn stats(&self) -> (s: ArchiveStats)
        requires
            self.wf(),
        ensures
            (s.consolidations, s.compressions, s.archives) == self.counters(),
            has_size(self.epochs(), s.epoch_count as nat),
            s.total_distinctions == (if count_below(self.epochs(), self.current() + 1) > usize::MAX { usize::MAX as int } else { count_below(self.epochs(), self.current() + 1) }),
    {
        ArchiveStats {
            consolidations: self.consolidations,
            compressions: self.compressions,
            archives: self.archives,
            epoch_count: epochs_len(&self.epochs),
            total_distinctions: self.total_distinctions(),
        }
    }

    /// Patterns extracted from epoch `epoch_num` (none are extracted yet).
    pub fn extract_patterns(&self, epoch_num: usize) -> (r: Vec<Pattern>)
        ensures
            r@.len() == 0,
    {
        let _held = epochs_contains(&self.epochs, epoch_num);
        Vec::new()
    }

    /// Count a consolidation of a single distinction.
    pub fn consolidate_distinction(&mut self, _id: &str)
        ensures
            final(self).epochs() == old(self).epochs(),
            final(self).current() == old(self).current(),
            final(self).counters() == (bump_u64(old(self).counters().0), old(self).counters().1, old(self).counters().2),
    {
        self.consolidations = bump_u64_exec(self.consolidations);
    }
}

/// The compression count `c` after counting, for each epoch number below `n`,
/// one compression (wrapping at `u64::MAX`) where that epoch exists and holds at
/// least `max` distinctions.
pub open spec fn compressions_after(c: u64, epochs: Map<usize, Epoch>, max: usize, n: nat) -> u64
    decreases n,
{
    if n == 0 {
        c
    } else {
        let before = compressions_after(c, epochs, max, (n - 1) as nat);
        let k = (n - 1) as usize;
        if epochs.contains_key(k) && epochs[k].distinction_count >= max {
            bump_u64(before)
        } else {
            before
        }
    }
}

/// `x + n`, wrapping at `u64::MAX`.
pub open spec fn add_wrapping(x: u64, n: usize) -> u64 {
    ((x + n) % 0x1_0000_0000_0000_0000) as u64
}

fn wrap_add_one(x: u64) -> (r: u64)
    ensures
        r == bump_u64(x),
{
    bump_u64_exec(x)
}

/// How many of the given distinctions have at least `threshold` references.
pub open spec fn kept_count(ds: Seq<(String, FullKey, VersionedValue, usize)>, threshold: usize) -> nat
    decreases ds.len(),
{
    if ds.len() == 0 {
        0
    } else {
        kept_count(ds.drop_last(), threshold) + if ds.last().3 >= threshold { 1nat } else { 0nat }
    }
}

proof fn lemma_kept_count_le(ds: Seq<(String, FullKey, VersionedValue, usize)>, threshold: usize)
    ensures
        kept_count(ds, threshold) <= ds.len(),
    decreases ds.len(),
{
    if ds.len() > 0 {
        lemma_kept_count_le(ds.drop_last(), threshold);
    }
}

proof fn lemma_count_below_monotone(epochs: Map<usize, Epoch>, n: int)
    ensures
        count_below(epochs, n + 1) >= count_below(epochs, n),
{
}

/// In an index holding each ID once, the entry found for `id` is the one at `p`.
proof fn lemma_find_unique(index: Seq<(String, EpochEntry)>, id: Seq<char>, p: int)
    requires
        ids_unique(index),
        0 <= p < index.len(),
        index[p].0@ == id,
    ensures
        find_in(index, id) == Some(p),
{
    assert(exists|i: int| 0 <= i < index.len() && (#[trigger] index[i]).0@ == id);
    let c = choose|i: int| 0 <= i < index.len() && (#[trigger] index[i]).0@ == id;
    if c != p {
        if c < p {
            assert(index[c].0@ != index[p].0@);
        } else {
            assert(index[p].0@ != index[c].0@);
        }
    }
}

} // verus!
