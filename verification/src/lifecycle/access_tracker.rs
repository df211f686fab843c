//! Access pattern tracking: for each distinction, how often, when (hour of
//! day, day of week) and next to what it was accessed.
//!
//! Times are nanoseconds after the Unix epoch (UTC).

use vstd::prelude::*;
use crate::causal_graph::DistinctionId;
use crate::memory::hot::{bump_u64, bump_u64_exec};
use crate::memory::maps::has_size;
use crate::types::{key_view, FullKey};
use crate::memory::deep::enumerates;
use crate::ordering::{distinct_keys, has_entry, rank_desc};
use crate::processes::distillation::{wrap_add, wrapping_add};
use crate::reconciliation::contains_string;
use crate::strings::views;
use chrono::{Datelike, Timelike};
use dashmap::DashMap;

verus! {

/// Nanoseconds in an hour.
pub const HOUR_NS: i64 = 3_600_000_000_000;

/// Nanoseconds in a day.
pub const DAY_NS: i64 = 86_400_000_000_000;

/// The UTC hour of the day (0 to 23) at `nanos`.
pub open spec fn hour_of(nanos: i64) -> int {
    (nanos as int / HOUR_NS as int) % 24
}

/// The UTC day of the week at `nanos`, counted from Monday (0 to 6): the
/// Unix epoch fell on a Thursday.
pub open spec fn weekday_of(nanos: i64) -> int {
    (nanos as int / DAY_NS as int + 3) % 7
}

/// `chrono::DateTime::from_timestamp_nanos(..).hour()`: the UTC hour of the day.
#[verifier::external_body]
fn utc_hour(nanos: i64) -> (h: u8)
    ensures
        h as int == hour_of(nanos),
{
    chrono::DateTime::from_timestamp_nanos(nanos).hour() as u8
}

/// `chrono::DateTime::from_timestamp_nanos(..).weekday().num_days_from_monday()`:
/// the UTC day of the week, Monday being 0.
#[verifier::external_body]
fn utc_weekday(nanos: i64) -> (d: u8)
    ensures
        d as int == weekday_of(nanos),
{
    chrono::DateTime::from_timestamp_nanos(nanos).weekday().num_days_from_monday() as u8
}

/// Pattern of access for a single distinction.
#[derive(Debug, Clone)]
pub struct AccessPattern {
    /// The distinction ID.
    pub distinction_id: DistinctionId,
    /// Full key for this distinction.
    pub key: FullKey,
    /// Number of times accessed.
    pub access_count: u64,
    /// When first accessed.
    pub first_accessed: Option<i64>,
    /// When last accessed.
    pub last_accessed: Option<i64>,
    /// Sum of the whole seconds between successive accesses; the average
    /// interval is this over `access_count`.
    pub interval_total_secs: i64,
    /// Hourly access counts (0-23).
    pub hourly_counts: [u64; 24],
    /// Day of week counts (0-6, Monday first).
    pub weekday_counts: [u64; 7],
    /// What came right before this distinction (at most five, oldest first).
    pub predecessors: Vec<DistinctionId>,
    /// What came right after this distinction (at most five, oldest first).
    pub successors: Vec<DistinctionId>,
    /// Total time spent, in milliseconds.
    pub total_duration_ms: u64,
}

/// The counters of a pattern: accesses, first and last access, interval
/// total, hourly and daily counts, duration.
pub type PatternCounters = (u64, Option<i64>, Option<i64>, i64, Seq<u64>, Seq<u64>, u64);

/// The counters of a pattern.
pub open spec fn counters_of(p: AccessPattern) -> PatternCounters {
    (p.access_count, p.first_accessed, p.last_accessed, p.interval_total_secs, p.hourly_counts@, p.weekday_counts@, p.total_duration_ms)
}

/// The counters of a pattern that was never accessed.
pub open spec fn fresh_counters() -> PatternCounters {
    (0, None, None, 0, Seq::new(24, |i: int| 0u64), Seq::new(7, |i: int| 0u64), 0)
}

/// Whole seconds in a span of nanoseconds, rounded toward zero.
pub open spec fn whole_secs(nanos: int) -> int {
    if nanos >= 0 { nanos / 1_000_000_000 } else { -((-nanos) / 1_000_000_000) }
}

/// `x` held within the range of `i64`.
pub open spec fn clamp_i64(x: int) -> i64 {
    if x > i64::MAX { i64::MAX } else if x < i64::MIN { i64::MIN } else { x as i64 }
}

/// The counters after one more access at `now`, in hour `h` of weekday `w`.
pub open spec fn accessed_counters(c: PatternCounters, h: int, w: int, now: i64) -> PatternCounters {
    (
        bump_u64(c.0),
        if c.1 is None { Some(now) } else { c.1 },
        Some(now),
        match c.2 {
            Some(last) => clamp_i64(c.3 + whole_secs(now - last)),
            None => c.3,
        },
        c.4.update(h, bump_u64(c.4[h])),
        c.5.update(w, bump_u64(c.5[w])),
        c.6,
    )
}

/// A list of neighbours after `x` is seen next to the distinction: a new
/// neighbour is appended, and only the five most recent are kept.
pub open spec fn add_related(list: Seq<Seq<char>>, x: Seq<char>) -> Seq<Seq<char>> {
    if list.contains(x) {
        list
    } else if list.len() >= 5 {
        list.push(x).drop_first()
    } else {
        list.push(x)
    }
}

/// The text of a recent-access sequence.
pub open spec fn seq_views(s: Seq<(String, i64)>) -> Seq<(Seq<char>, i64)> {
    s.map_values(|e: (String, i64)| (e.0@, e.1))
}

/// The last `max` entries of `s` (all of them when there are fewer).
pub open spec fn last_n(s: Seq<(Seq<char>, i64)>, max: nat) -> Seq<(Seq<char>, i64)> {
    if s.len() > max { s.skip(s.len() - max) } else { s }
}

/// The first position of `id` in `s`, if it occurs.
pub open spec fn first_position(s: Seq<(Seq<char>, i64)>, id: Seq<char>) -> Option<int>
    decreases s.len(),
{
    if s.len() == 0 {
        None
    } else if s[0].0 == id {
        Some(0)
    } else {
        match first_position(s.drop_first(), id) {
            Some(p) => Some(p + 1),
            None => None,
        }
    }
}

/// What first position `first_position` finds: the entry there is `id` and
/// no earlier entry is.
proof fn lemma_first_position(s: Seq<(Seq<char>, i64)>, id: Seq<char>)
    ensures
        match first_position(s, id) {
            Some(p) => 0 <= p < s.len() && s[p].0 == id && forall|q: int| 0 <= q < p ==> s[q].0 != id,
            None => forall|q: int| 0 <= q < s.len() ==> s[q].0 != id,
        },
    decreases s.len(),
{
    if s.len() > 0 && s[0].0 != id {
        lemma_first_position(s.drop_first(), id);
        match first_position(s.drop_first(), id) {
            Some(p) => {
                assert forall|q: int| 0 <= q < p + 1 implies s[q].0 != id by {
                    if q > 0 {
                        assert(s[q] == s.drop_first()[q - 1]);
                    }
                }
            },
            None => {
                assert forall|q: int| 0 <= q < s.len() implies s[q].0 != id by {
                    if q > 0 {
                        assert(s[q] == s.drop_first()[q - 1]);
                    }
                }
            },
        }
    }
}

/// The entry right before the first occurrence of `id` in `s`, if any.
pub open spec fn predecessor_in(s: Seq<(Seq<char>, i64)>, id: Seq<char>) -> Option<Seq<char>> {
    match first_position(s, id) {
        Some(p) => if p > 0 { Some(s[p - 1].0) } else { None },
        None => None,
    }
}

/// The entry right after the first occurrence of `id` in `s`, if any.
pub open spec fn successor_in(s: Seq<(Seq<char>, i64)>, id: Seq<char>) -> Option<Seq<char>> {
    match first_position(s, id) {
        Some(p) => if p + 1 < s.len() { Some(s[p + 1].0) } else { None },
        None => None,
    }
}

/// A neighbour list after an optional neighbour is seen.
pub open spec fn with_related(list: Seq<Seq<char>>, x: Option<Seq<char>>) -> Seq<Seq<char>> {
    match x {
        Some(n) => add_related(list, n),
        None => list,
    }
}

// ---------------------------------------------------------------------------
// The maps the tracker keeps its patterns and distributions in
// ---------------------------------------------------------------------------

/// The patterns of a map from distinction IDs, by ID text.
pub uninterp spec fn pats_of(m: DashMap<String, AccessPattern>) -> Map<Seq<char>, AccessPattern>;

/// The counts of a map from small numbers (hours, weekdays) to counts.
pub uninterp spec fn counts_of(m: DashMap<u8, u64>) -> Map<u8, u64>;

/// The count stored under `k`, or 0.
pub open spec fn count_at(m: Map<u8, u64>, k: u8) -> u64 {
    if m.contains_key(k) { m[k] } else { 0 }
}

/// `DashMap::with_capacity`: an empty map of patterns.
#[verifier::external_body]
fn pats_with_capacity(capacity: usize) -> (m: DashMap<String, AccessPattern>)
    ensures
        has_size(pats_of(m), 0),
{
    DashMap::with_capacity(capacity)
}

/// `DashMap::get`, cloning the pattern stored under `k`.
#[verifier::external_body]
fn pats_get(m: &DashMap<String, AccessPattern>, k: &str) -> (r: Option<AccessPattern>)
    ensures
        match r {
            Some(p) => pats_of(*m).contains_key(k@) && p == pats_of(*m)[k@],
            None => !pats_of(*m).contains_key(k@),
        },
{
    m.get(k).map(|e| e.value().clone())
}

/// `DashMap::insert`: `k` now maps to `p`.
#[verifier::external_body]
fn pats_insert(m: &mut DashMap<String, AccessPattern>, k: String, p: AccessPattern)
    ensures
        pats_of(*final(m)) == pats_of(*old(m)).insert(k@, p),
{
    m.insert(k, p);
}

/// `DashMap::len`: the number of patterns.
#[verifier::external_body]
fn pats_len(m: &DashMap<String, AccessPattern>) -> (r: usize)
    ensures
        has_size(pats_of(*m), r as nat),
{
    m.len()
}

/// `DashMap::iter`, collected: every pattern once, in the map's iteration order.
#[verifier::external_body]
fn pats_entries(m: &DashMap<String, AccessPattern>) -> (r: Vec<(String, AccessPattern)>)
    ensures
        has_size(pats_of(*m), r@.len()),
        forall|i: int| 0 <= i < r@.len() ==> pats_of(*m).contains_key((#[trigger] r@[i]).0@)
            && pats_of(*m)[r@[i].0@] == r@[i].1,
        forall|i: int, j: int| 0 <= i < j < r@.len() ==> (#[trigger] r@[i]).0@ != (#[trigger] r@[j]).0@,
        forall|k: Seq<char>| pats_of(*m).contains_key(k) ==> exists|i: int| 0 <= i < r@.len() && (#[trigger] r@[i]).0@ == k,
{
    m.iter().map(|e| (e.key().clone(), e.value().clone())).collect()
}

/// `DashMap::new`: an empty map of counts.
#[verifier::external_body]
fn counts_new() -> (m: DashMap<u8, u64>)
    ensures
        has_size(counts_of(m), 0),
{
    DashMap::new()
}

/// `DashMap::get`, copying the count stored under `k`.
#[verifier::external_body]
fn counts_lookup(m: &DashMap<u8, u64>, k: u8) -> (r: Option<u64>)
    ensures
        match r {
            Some(c) => counts_of(*m).contains_key(k) && c == counts_of(*m)[k],
            None => !counts_of(*m).contains_key(k),
        },
{
    m.get(&k).map(|v| *v.value())
}

/// The count stored under `k`, 0 when there is none.
fn counts_get(m: &DashMap<u8, u64>, k: u8) -> (r: u64)
    ensures
        r == count_at(counts_of(*m), k),
{
    match counts_lookup(m, k) {
        Some(c) => c,
        None => 0,
    }
}

/// `DashMap::insert`: `k` now maps to `v`.
#[verifier::external_body]
fn counts_insert(m: &mut DashMap<u8, u64>, k: u8, v: u64)
    ensures
        counts_of(*final(m)) == counts_of(*old(m)).insert(k, v),
{
    m.insert(k, v);
}

// ---------------------------------------------------------------------------
// Patterns
// ---------------------------------------------------------------------------

impl AccessPattern {
    /// A pattern for a distinction never accessed yet.
    fn new(distinction_id: DistinctionId, key: FullKey) -> (p: Self)
        ensures
            p.distinction_id@ == distinction_id@,
            key_view(p.key) == key_view(key),
            counters_of(p) == fresh_counters(),
            p.predecessors@.len() == 0,
            p.successors@.len() == 0,
    {
        let p = AccessPattern {
            distinction_id,
            key,
            access_count: 0,
            first_accessed: None,
            last_accessed: None,
            interval_total_secs: 0,
            hourly_counts: [0u64; 24],
            weekday_counts: [0u64; 7],
            predecessors: Vec::new(),
            successors: Vec::new(),
            total_duration_ms: 0,
        };
        proof {
            assert(p.hourly_counts@ =~= Seq::new(24, |i: int| 0u64));
            assert(p.weekday_counts@ =~= Seq::new(7, |i: int| 0u64));
        }
        p
    }

    /// Average duration per access, in milliseconds (0 before any access).
    pub fn avg_duration_ms(&self) -> (r: u64)
        ensures
            r == (if self.access_count == 0 { 0 } else { self.total_duration_ms / self.access_count }),
    {
        if self.access_count == 0 {
            0
        } else {
            self.total_duration_ms / self.access_count
        }
    }

    /// The hour this distinction is accessed most: the latest such hour on ties.
    pub fn peak(&self) -> (h: u8)
        ensures
            h < 24,
            forall|j: int| 0 <= j < 24 ==> self.hourly_counts@[j] <= self.hourly_counts@[h as int],
            forall|j: int| h < j < 24 ==> self.hourly_counts@[j] < self.hourly_counts@[h as int],
    {
        let mut best: usize = 0;
        let mut i: usize = 1;
        while i < 24
            invariant
                best < i <= 24,
                forall|j: int| 0 <= j < i ==> self.hourly_counts@[j] <= self.hourly_counts@[best as int],
                forall|j: int| best < j < i ==> self.hourly_counts@[j] < self.hourly_counts@[best as int],
            decreases 24 - i,
        {
            if self.hourly_counts[i] >= self.hourly_counts[best] {
                best = i;
            }
            i = i + 1;
        }
        best as u8
    }
}

/// The counters after one more access at `now`, in hour `h` of weekday `w`.
fn record_in(p: &mut AccessPattern, h: u8, w: u8, now: i64)
    requires
        h < 24,
        w < 7,
    ensures
        counters_of(*final(p)) == accessed_counters(counters_of(*old(p)), h as int, w as int, now),
        final(p).distinction_id == old(p).distinction_id,
        final(p).key == old(p).key,
        final(p).predecessors == old(p).predecessors,
        final(p).successors == old(p).successors,
{
    match p.last_accessed {
        Some(last) => {
            let span: i128 = now as i128 - last as i128;
            let secs: i128 = if span >= 0 { span / 1_000_000_000 } else { 0 - ((0 - span) / 1_000_000_000) };
            let total: i128 = p.interval_total_secs as i128 + secs;
            p.interval_total_secs = if total > i64::MAX as i128 {
                i64::MAX
            } else if total < i64::MIN as i128 {
                i64::MIN
            } else {
                total as i64
            };
        },
        None => {},
    }
    p.access_count = bump_u64_exec(p.access_count);
    p.last_accessed = Some(now);
    if p.first_accessed.is_none() {
        p.first_accessed = Some(now);
    }
    let hc = bump_u64_exec(p.hourly_counts[h as usize]);
    p.hourly_counts.set(h as usize, hc);
    let wc = bump_u64_exec(p.weekday_counts[w as usize]);
    p.weekday_counts.set(w as usize, wc);
}

// ---------------------------------------------------------------------------
// The tracker
// ---------------------------------------------------------------------------

/// Access tracker statistics (the average accesses per distinction is
/// `total_accesses / unique_distinctions`).
#[derive(Debug, Clone, Copy)]
pub struct AccessTrackerStats {
    pub unique_distinctions: u64,
    pub total_accesses: u64,
}

/// What the access patterns of a map hold in a given enumeration: the sum of
/// the access counts.
pub open spec fn access_sum(e: Seq<(Seq<char>, AccessPattern)>) -> int
    decreases e.len(),
{
    if e.len() == 0 { 0 } else { access_sum(e.drop_last()) + e.last().1.access_count }
}

proof fn lemma_access_sum_nonneg(e: Seq<(Seq<char>, AccessPattern)>)
    ensures
        access_sum(e) >= 0,
    decreases e.len(),
{
    if e.len() > 0 {
        lemma_access_sum_nonneg(e.drop_last());
    }
}

/// Tracks access patterns for all distinctions.
#[derive(Debug)]
pub struct AccessTracker {
    /// Access patterns by distinction ID.
    patterns: DashMap<DistinctionId, AccessPattern>,
    /// Recent accesses, oldest first (for sequence analysis).
    recent_sequence: Vec<(DistinctionId, i64)>,
    /// Maximum sequence length to track.
    max_sequence_length: usize,
    /// Hourly access distribution (0-23 hours).
    hourly_distribution: DashMap<u8, u64>,
    /// Day of week distribution (0-6, Monday first).
    weekday_distribution: DashMap<u8, u64>,
}

/// `p` is `p0` (or a fresh pattern for `id` and `key` when there was none)
/// after an access at `now` that added `extra_ms` of duration, with its
/// neighbours taken from the recent sequence `recent`.
pub open spec fn access_applied(
    was: Option<AccessPattern>,
    p: AccessPattern,
    id: Seq<char>,
    key: FullKey,
    now: i64,
    extra_ms: u64,
    recent: Seq<(Seq<char>, i64)>,
) -> bool {
    let c0 = match was { Some(p0) => counters_of(p0), None => fresh_counters() };
    let c1 = accessed_counters(c0, hour_of(now), weekday_of(now), now);
    let preds = match was { Some(p0) => views(p0.predecessors@), None => Seq::empty() };
    let succs = match was { Some(p0) => views(p0.successors@), None => Seq::empty() };
    &&& counters_of(p) == (c1.0, c1.1, c1.2, c1.3, c1.4, c1.5, wrap_add(c1.6, extra_ms))
    &&& p.distinction_id@ == (match was { Some(p0) => p0.distinction_id@, None => id })
    &&& key_view(p.key) == (match was { Some(p0) => key_view(p0.key), None => key_view(key) })
    &&& views(p.predecessors@) == with_related(preds, predecessor_in(recent, id))
    &&& views(p.successors@) == with_related(succs, successor_in(recent, id))
}

/// The pattern stored under `id`, if any.
pub open spec fn pattern_at(m: Map<Seq<char>, AccessPattern>, id: Seq<char>) -> Option<AccessPattern> {
    if m.contains_key(id) { Some(m[id]) } else { None }
}

/// Whether some entry of `r` has key `k`.
pub open spec fn names<T>(r: Seq<(String, T)>, k: Seq<char>) -> bool {
    exists|q: int| 0 <= q < r.len() && (#[trigger] r[q]).0@ == k
}

/// Entry `q` of `items` is some pattern's key with its last access time.
pub open spec fn stamped(items: Seq<(String, i128)>, entries: Seq<(String, AccessPattern)>, q: int) -> bool {
    exists|w: int| 0 <= w < entries.len() && items[q].0@ == (#[trigger] entries[w]).0@
        && entries[w].1.last_accessed == Some(items[q].1 as i64) && i64::MIN <= items[q].1 <= i64::MAX
}

/// The first `limit` entries (all of them when there are fewer).
fn take_top(ranked: &Vec<(String, i128)>, limit: usize) -> (r: Vec<(String, i128)>)
    ensures
        r@.len() == (if limit < ranked@.len() { limit as int } else { ranked@.len() as int }),
        r@ == ranked@.take(r@.len() as int),
{
    let n = if limit < ranked.len() { limit } else { ranked.len() };
    let mut r: Vec<(String, i128)> = Vec::new();
    let mut j: usize = 0;
    while j < n
        invariant
            n <= ranked@.len(),
            j <= n,
            r@.len() == j,
            forall|q: int| 0 <= q < j ==> #[trigger] r@[q] == ranked@[q],
        decreases n - j,
    {
        r.push((ranked[j].0.clone(), ranked[j].1));
        j = j + 1;
    }
    proof {
        assert(r@ =~= ranked@.take(n as int));
    }
    r
}

/// Append `x` to a neighbour list unless it is there, keeping the five most recent.
fn add_neighbour(list: &mut Vec<DistinctionId>, x: DistinctionId)
    ensures
        views(final(list)@) == add_related(views(old(list)@), x@),
{
    if !contains_string(list.as_slice(), x.as_str()) {
        let ghost before = views(list@);
        let ghost xv = x@;
        list.push(x);
        proof {
            assert(views(list@) =~= before.push(xv));
        }
        if list.len() > 5 {
            list.remove(0);
            proof {
                assert(views(list@) =~= before.push(xv).drop_first());
            }
        }
    }
}

impl AccessTracker {
    /// The patterns, by distinction ID.
    pub closed spec fn pats(&self) -> Map<Seq<char>, AccessPattern> {
        pats_of(self.patterns)
    }

    /// The recent accesses, oldest first.
    pub closed spec fn recent(&self) -> Seq<(Seq<char>, i64)> {
        seq_views(self.recent_sequence@)
    }

    /// How many recent accesses are kept.
    pub closed spec fn max_len(&self) -> usize {
        self.max_sequence_length
    }

    /// Accesses by hour of the day.
    pub closed spec fn hourly(&self) -> Map<u8, u64> {
        counts_of(self.hourly_distribution)
    }

    /// Accesses by day of the week.
    pub closed spec fn weekly(&self) -> Map<u8, u64> {
        counts_of(self.weekday_distribution)
    }

    /// A tracker with room for 10000 patterns.
    pub fn new() -> (t: Self)
        ensures
            has_size(t.pats(), 0),
            t.recent() == Seq::<(Seq<char>, i64)>::empty(),
            t.max_len() == 100,
            has_size(t.hourly(), 0),
            has_size(t.weekly(), 0),
    {
        Self::with_capacity(10000)
    }

    /// A tracker with room for `capacity` patterns, keeping the last 100 accesses.
    pub fn with_capacity(capacity: usize) -> (t: Self)
        ensures
            has_size(t.pats(), 0),
            t.recent() == Seq::<(Seq<char>, i64)>::empty(),
            t.max_len() == 100,
            has_size(t.hourly(), 0),
            has_size(t.weekly(), 0),
    {
        let t = AccessTracker {
            patterns: pats_with_capacity(capacity),
            recent_sequence: Vec::new(),
            max_sequence_length: 100,
            hourly_distribution: counts_new(),
            weekday_distribution: counts_new(),
        };
        proof {
            assert(t.recent() =~= Seq::<(Seq<char>, i64)>::empty());
        }
        t
    }

    /// Record an access to `distinction_id` (under `key`) at `now`: the hourly
    /// and daily distributions and the distinction's pattern count it, it joins
    /// the recent sequence, and its neighbours there are noted.
    pub fn record_access(&mut self, key: FullKey, distinction_id: DistinctionId, now: i64)
        ensures
            final(self).hourly() == old(self).hourly().insert(hour_of(now) as u8, bump_u64(count_at(old(self).hourly(), hour_of(now) as u8))),
            final(self).weekly() == old(self).weekly().insert(weekday_of(now) as u8, bump_u64(count_at(old(self).weekly(), weekday_of(now) as u8))),
            final(self).recent() == last_n(old(self).recent().push((distinction_id@, now)), old(self).max_len() as nat),
            final(self).max_len() == old(self).max_len(),
            final(self).pats().dom() == old(self).pats().dom().insert(distinction_id@),
            forall|k: Seq<char>| k != distinction_id@ && #[trigger] old(self).pats().contains_key(k) ==> final(self).pats()[k] == old(self).pats()[k],
            access_applied(pattern_at(old(self).pats(), distinction_id@), final(self).pats()[distinction_id@], distinction_id@, key, now, 0, final(self).recent()),
    {
        let h = utc_hour(now);
        let w = utc_weekday(now);
        let hc = counts_get(&self.hourly_distribution, h);
        counts_insert(&mut self.hourly_distribution, h, bump_u64_exec(hc));
        let wc = counts_get(&self.weekday_distribution, w);
        counts_insert(&mut self.weekday_distribution, w, bump_u64_exec(wc));
        let ghost was = pattern_at(self.pats(), distinction_id@);
        let mut pattern = match pats_get(&self.patterns, distinction_id.as_str()) {
            Some(p) => p,
            None => AccessPattern::new(distinction_id.clone(), key),
        };
        let ghost p0 = pattern;
        proof {
            assert(0 <= hour_of(now) < 24);
            assert(0 <= weekday_of(now) < 7);
            if was is None {
                assert(views(p0.predecessors@) =~= Seq::<Seq<char>>::empty());
                assert(views(p0.successors@) =~= Seq::<Seq<char>>::empty());
            }
        }
        record_in(&mut pattern, h, w, now);
        let ghost p1 = pattern;
        pats_insert(&mut self.patterns, distinction_id.clone(), pattern);
        let ghost pats1 = self.pats();
        self.update_sequence(distinction_id.clone(), now);
        self.update_related(distinction_id.as_str());
        proof {
            assert(pats1.contains_key(distinction_id@) && pats1[distinction_id@] == p1);
            let p = self.pats()[distinction_id@];
            assert(counters_of(p) == counters_of(p1));
            assert(wrap_add(counters_of(p).6, 0) == counters_of(p).6);
            assert(self.pats().dom() =~= old(self).pats().dom().insert(distinction_id@));
            assert forall|k: Seq<char>| k != distinction_id@ && #[trigger] old(self).pats().contains_key(k) implies self.pats()[k] == old(self).pats()[k] by {
                assert(pats1.contains_key(k));
            }
        }
    }

    /// Record an access that took `duration_ms` milliseconds.
    pub fn record_access_with_duration(&mut self, key: FullKey, distinction_id: DistinctionId, duration_ms: u64, now: i64)
        ensures
            final(self).hourly() == old(self).hourly().insert(hour_of(now) as u8, bump_u64(count_at(old(self).hourly(), hour_of(now) as u8))),
            final(self).weekly() == old(self).weekly().insert(weekday_of(now) as u8, bump_u64(count_at(old(self).weekly(), weekday_of(now) as u8))),
            final(self).recent() == last_n(old(self).recent().push((distinction_id@, now)), old(self).max_len() as nat),
            final(self).max_len() == old(self).max_len(),
            final(self).pats().dom() == old(self).pats().dom().insert(distinction_id@),
            forall|k: Seq<char>| k != distinction_id@ && #[trigger] old(self).pats().contains_key(k) ==> final(self).pats()[k] == old(self).pats()[k],
            access_applied(pattern_at(old(self).pats(), distinction_id@), final(self).pats()[distinction_id@], distinction_id@, key, now, duration_ms, final(self).recent()),
    {
        let ghost k = key;
        self.record_access(key, distinction_id.clone(), now);
        match pats_get(&self.patterns, distinction_id.as_str()) {
            Some(p) => {
                let mut p = p;
                p.total_duration_ms = wrapping_add(p.total_duration_ms, duration_ms);
                pats_insert(&mut self.patterns, distinction_id, p);
                proof {
                    assert(self.pats().dom() =~= old(self).pats().dom().insert(distinction_id@));
                }
            },
            None => {},
        }
    }

    /// The pattern of `distinction_id`, if it was accessed.
    pub fn get_pattern(&self, distinction_id: &str) -> (r: Option<AccessPattern>)
        ensures
            r == pattern_at(self.pats(), distinction_id@),
    {
        pats_get(&self.patterns, distinction_id)
    }

    /// Every pattern with its distinction ID, in the map's iteration order.
    pub fn patterns(&self) -> (r: Vec<(DistinctionId, AccessPattern)>)
        ensures
            has_size(self.pats(), r@.len()),
            forall|i: int| 0 <= i < r@.len() ==> self.pats().contains_key((#[trigger] r@[i]).0@) && self.pats()[r@[i].0@] == r@[i].1,
            forall|i: int, j: int| 0 <= i < j < r@.len() ==> (#[trigger] r@[i]).0@ != (#[trigger] r@[j]).0@,
            forall|k: Seq<char>| self.pats().contains_key(k) ==> exists|i: int| 0 <= i < r@.len() && (#[trigger] r@[i]).0@ == k,
    {
        pats_entries(&self.patterns)
    }

    /// The number of distinctions tracked.
    pub fn len(&self) -> (r: usize)
        ensures
            has_size(self.pats(), r as nat),
    {
        pats_len(&self.patterns)
    }

    /// Whether nothing was accessed yet.
    pub fn is_empty(&self) -> (r: bool)
        ensures
            r == (self.pats().dom().len() == 0),
    {
        pats_len(&self.patterns) == 0
    }

    /// The hour `distinction_id` is accessed most (the latest such hour on ties),
    /// if it was accessed.
    pub fn peak_hour(&self, distinction_id: &str) -> (r: Option<u8>)
        ensures
            r is Some <==> self.pats().contains_key(distinction_id@),
            r matches Some(h) ==> h < 24
                && (forall|j: int| 0 <= j < 24 ==> self.pats()[distinction_id@].hourly_counts@[j] <= self.pats()[distinction_id@].hourly_counts@[h as int])
                && (forall|j: int| h < j < 24 ==> self.pats()[distinction_id@].hourly_counts@[j] < self.pats()[distinction_id@].hourly_counts@[h as int]),
    {
        match pats_get(&self.patterns, distinction_id) {
            Some(p) => Some(p.peak()),
            None => None,
        }
    }

    /// Accesses in each hour of the day, over all distinctions.
    pub fn global_hourly_distribution(&self) -> (r: [u64; 24])
        ensures
            forall|j: int| 0 <= j < 24 ==> r@[j] == count_at(self.hourly(), j as u8),
    {
        let mut dist = [0u64; 24];
        let mut j: usize = 0;
        while j < 24
            invariant
                j <= 24,
                forall|q: int| 0 <= q < j ==> dist@[q] == count_at(self.hourly(), q as u8),
            decreases 24 - j,
        {
            let c = counts_get(&self.hourly_distribution, j as u8);
            dist.set(j, c);
            j = j + 1;
        }
        dist
    }

    /// The distinctions accessed at least once in hour `hour % 24`, in the map's
    /// iteration order.
    pub fn accessed_at_hour(&self, hour: u8) -> (r: Vec<DistinctionId>)
        ensures
            views(r@).no_duplicates(),
            forall|x: Seq<char>| #[trigger] views(r@).contains(x) <==>
                self.pats().contains_key(x) && self.pats()[x].hourly_counts@[(hour % 24) as int] > 0,
    {
        let entries = pats_entries(&self.patterns);
        let slot: usize = (hour % 24) as usize;
        let mut r: Vec<DistinctionId> = Vec::new();
        let mut i: usize = 0;
        while i < entries.len()
            invariant
                i <= entries@.len(),
                slot == (hour % 24) as usize,
                forall|q: int| 0 <= q < entries@.len() ==> self.pats().contains_key((#[trigger] entries@[q]).0@)
                    && self.pats()[entries@[q].0@] == entries@[q].1,
                forall|a: int, b: int| 0 <= a < b < entries@.len() ==> (#[trigger] entries@[a]).0@ != (#[trigger] entries@[b]).0@,
                views(r@).no_duplicates(),
                forall|x: Seq<char>| #[trigger] views(r@).contains(x) <==>
                    (exists|q: int| 0 <= q < i && (#[trigger] entries@[q]).0@ == x) && self.pats().contains_key(x)
                        && self.pats()[x].hourly_counts@[slot as int] > 0,
            decreases entries@.len() - i,
        {
            let ghost before = views(r@);
            let ghost key = entries@[i as int].0@;
            if entries[i].1.hourly_counts[slot] > 0 {
                r.push(entries[i].0.clone());
                proof {
                    assert(views(r@) =~= before.push(key));
                    assert(!before.contains(key)) by {
                        if before.contains(key) {
                            let q = choose|q: int| 0 <= q < i && (#[trigger] entries@[q]).0@ == key;
                        }
                    }
                    assert forall|a: int, b: int| 0 <= a < b < views(r@).len() implies views(r@)[a] != views(r@)[b] by {
                        if b == views(r@).len() - 1 {
                            assert(before.contains(views(r@)[a]));
                        }
                    }
                    assert forall|x: Seq<char>| #[trigger] views(r@).contains(x) <==>
                        (exists|q: int| 0 <= q < i + 1 && (#[trigger] entries@[q]).0@ == x) && self.pats().contains_key(x)
                            && self.pats()[x].hourly_counts@[slot as int] > 0 by {
                        vstd::seq_lib::lemma_seq_contains_after_push(before, key, x);
                        if exists|q: int| 0 <= q < i + 1 && (#[trigger] entries@[q]).0@ == x {
                            let q = choose|q: int| 0 <= q < i + 1 && (#[trigger] entries@[q]).0@ == x;
                            if q < i {
                                assert(exists|q2: int| 0 <= q2 < i && (#[trigger] entries@[q2]).0@ == x);
                            }
                        }
                    }
                }
            } else {
                proof {
                    assert forall|x: Seq<char>| #[trigger] views(r@).contains(x) <==>
                        (exists|q: int| 0 <= q < i + 1 && (#[trigger] entries@[q]).0@ == x) && self.pats().contains_key(x)
                            && self.pats()[x].hourly_counts@[slot as int] > 0 by {
                        if exists|q: int| 0 <= q < i + 1 && (#[trigger] entries@[q]).0@ == x {
                            let q = choose|q: int| 0 <= q < i + 1 && (#[trigger] entries@[q]).0@ == x;
                            if q < i {
                                assert(exists|q2: int| 0 <= q2 < i && (#[trigger] entries@[q2]).0@ == x);
                            }
                        }
                    }
                }
            }
            i = i + 1;
        }
        r
    }

    /// The `limit` most accessed distinctions with their access counts, most
    /// accessed first (ties in the map's iteration order).
    pub fn most_frequent(&self, limit: usize) -> (r: Vec<(DistinctionId, u64)>)
        ensures
            r@.len() <= limit,
            forall|a: int, b: int| 0 <= a < b < r@.len() ==> (#[trigger] r@[a]).0@ != (#[trigger] r@[b]).0@,
            forall|q: int| 0 <= q < r@.len() ==> self.pats().contains_key((#[trigger] r@[q]).0@)
                && r@[q].1 == self.pats()[r@[q].0@].access_count,
            forall|a: int, b: int| 0 <= a < b < r@.len() ==> (#[trigger] r@[a]).1 >= (#[trigger] r@[b]).1,
            forall|k: Seq<char>| #[trigger] self.pats().contains_key(k) && !names(r@, k) ==> r@.len() == limit
                && forall|q: int| 0 <= q < r@.len() ==> self.pats()[k].access_count <= (#[trigger] r@[q]).1,
    {
        let entries = pats_entries(&self.patterns);
        let mut items: Vec<(String, i128)> = Vec::new();
        let mut i: usize = 0;
        while i < entries.len()
            invariant
                i <= entries@.len(),
                items@.len() == i,
                forall|a: int, b: int| 0 <= a < b < entries@.len() ==> (#[trigger] entries@[a]).0@ != (#[trigger] entries@[b]).0@,
                forall|q: int| 0 <= q < i ==> (#[trigger] items@[q]).0@ == entries@[q].0@ && items@[q].1 == entries@[q].1.access_count as i128,
            decreases entries@.len() - i,
        {
            items.push((entries[i].0.clone(), entries[i].1.access_count as i128));
            i = i + 1;
        }
        proof {
            assert forall|a: int, b: int| 0 <= a < b < items@.len() implies (#[trigger] items@[a]).0@ != (#[trigger] items@[b]).0@ by {
                assert(entries@[a].0@ != entries@[b].0@);
            }
        }
        let ranked = rank_desc(&items);
        let top = take_top(&ranked, limit);
        let mut r: Vec<(DistinctionId, u64)> = Vec::new();
        let mut j: usize = 0;
        while j < top.len()
            invariant
                j <= top@.len(),
                top@ == ranked@.take(top@.len() as int),
                top@.len() <= ranked@.len(),
                r@.len() == j,
                forall|q: int| 0 <= q < j ==> (#[trigger] r@[q]).0@ == top@[q].0@ && r@[q].1 as i128 == top@[q].1,
                forall|x: Seq<char>, k: i128| #[trigger] has_entry(ranked@, x, k) <==> has_entry(items@, x, k),
                forall|q: int| 0 <= q < items@.len() ==> 0 <= (#[trigger] items@[q]).1 <= u64::MAX,
            decreases top@.len() - j,
        {
            proof {
                assert(has_entry(ranked@, ranked@[j as int].0@, ranked@[j as int].1));
                let w = choose|w: int| 0 <= w < items@.len() && (#[trigger] items@[w]).0@ == ranked@[j as int].0@ && items@[w].1 == ranked@[j as int].1;
            }
            r.push((top[j].0.clone(), top[j].1 as u64));
            j = j + 1;
        }
        proof {
            assert forall|q: int| 0 <= q < r@.len() implies self.pats().contains_key((#[trigger] r@[q]).0@)
                && r@[q].1 == self.pats()[r@[q].0@].access_count by {
                assert(has_entry(ranked@, ranked@[q].0@, ranked@[q].1));
                let w = choose|w: int| 0 <= w < items@.len() && (#[trigger] items@[w]).0@ == ranked@[q].0@ && items@[w].1 == ranked@[q].1;
                assert(self.pats()[entries@[w].0@] == entries@[w].1);
            }
            assert forall|a: int, b: int| 0 <= a < b < r@.len() implies (#[trigger] r@[a]).0@ != (#[trigger] r@[b]).0@ by {
                assert(ranked@[a].0@ != ranked@[b].0@);
            }
            assert forall|k: Seq<char>| #[trigger] self.pats().contains_key(k) && !names(r@, k) implies r@.len() == limit
                && forall|q: int| 0 <= q < r@.len() ==> self.pats()[k].access_count <= (#[trigger] r@[q]).1 by {
                let w = choose|w: int| 0 <= w < entries@.len() && (#[trigger] entries@[w]).0@ == k;
                assert(has_entry(items@, k, items@[w].1));
                assert(has_entry(ranked@, k, items@[w].1));
                let v = choose|v: int| 0 <= v < ranked@.len() && (#[trigger] ranked@[v]).0@ == k && ranked@[v].1 == items@[w].1;
                if v < r@.len() {
                    assert(r@[v].0@ == k);
                }
                assert(v >= r@.len());
            }
        }
        r
    }

    /// The `limit` most recently accessed distinctions with their last access
    /// time, most recent first (ties in the map's iteration order).
    pub fn most_recent(&self, limit: usize) -> (r: Vec<(DistinctionId, i64)>)
        ensures
            r@.len() <= limit,
            forall|a: int, b: int| 0 <= a < b < r@.len() ==> (#[trigger] r@[a]).0@ != (#[trigger] r@[b]).0@,
            forall|q: int| 0 <= q < r@.len() ==> self.pats().contains_key((#[trigger] r@[q]).0@)
                && self.pats()[r@[q].0@].last_accessed == Some(r@[q].1),
            forall|a: int, b: int| 0 <= a < b < r@.len() ==> (#[trigger] r@[a]).1 >= (#[trigger] r@[b]).1,
            forall|k: Seq<char>| #[trigger] self.pats().contains_key(k) && self.pats()[k].last_accessed is Some && !names(r@, k)
                ==> r@.len() == limit && forall|q: int| 0 <= q < r@.len() ==> self.pats()[k].last_accessed.unwrap() <= (#[trigger] r@[q]).1,
    {
        let entries = pats_entries(&self.patterns);
        let mut items: Vec<(String, i128)> = Vec::new();
        let mut i: usize = 0;
        while i < entries.len()
            invariant
                i <= entries@.len(),
                forall|a: int, b: int| 0 <= a < b < entries@.len() ==> (#[trigger] entries@[a]).0@ != (#[trigger] entries@[b]).0@,
                forall|q: int| 0 <= q < items@.len() ==> #[trigger] stamped(items@, entries@, q),
                forall|w: int| 0 <= w < i && (#[trigger] entries@[w]).1.last_accessed is Some
                    ==> has_entry(items@, entries@[w].0@, entries@[w].1.last_accessed.unwrap() as i128),
                distinct_keys(items@),
                forall|q: int| 0 <= q < items@.len() ==> exists|w: int| 0 <= w < i && #[trigger] items@[q].0@ == entries@[w].0@,
            decreases entries@.len() - i,
        {
            match entries[i].1.last_accessed {
                Some(t) => {
                    let ghost before = items@;
                    items.push((entries[i].0.clone(), t as i128));
                    proof {
                        assert forall|a: int, b: int| 0 <= a < b < items@.len() implies (#[trigger] items@[a]).0@ != (#[trigger] items@[b]).0@ by {
                            if b == items@.len() - 1 {
                                let w = choose|w: int| 0 <= w < i && #[trigger] before[a].0@ == entries@[w].0@;
                                assert(entries@[w].0@ != entries@[i as int].0@);
                            } else {
                                assert(items@[a] == before[a] && items@[b] == before[b]);
                            }
                        }
                        assert(items@[items@.len() - 1] == (items@[items@.len() - 1].0, t as i128));
                        assert forall|w: int| 0 <= w < i + 1 && (#[trigger] entries@[w]).1.last_accessed is Some
                            implies has_entry(items@, entries@[w].0@, entries@[w].1.last_accessed.unwrap() as i128) by {
                            if w < i {
                                let q = choose|q: int| 0 <= q < before.len() && (#[trigger] before[q]).0@ == entries@[w].0@
                                    && before[q].1 == entries@[w].1.last_accessed.unwrap() as i128;
                                assert(items@[q] == before[q]);
                            } else {
                                assert(items@[items@.len() - 1].0@ == entries@[w].0@);
                            }
                        }
                        assert forall|q: int| 0 <= q < items@.len() implies #[trigger] stamped(items@, entries@, q) by {
                            if q < before.len() {
                                assert(items@[q] == before[q]);
                                assert(stamped(before, entries@, q));
                            } else {
                                assert(items@[q].0@ == entries@[i as int].0@);
                            }
                        }
                        assert forall|q: int| 0 <= q < items@.len() implies exists|w: int| 0 <= w < i + 1 && #[trigger] items@[q].0@ == entries@[w].0@ by {
                            if q < before.len() {
                                assert(items@[q] == before[q]);
                            } else {
                                assert(items@[q].0@ == entries@[i as int].0@);
                            }
                        }
                    }
                },
                None => {},
            }
            i = i + 1;
        }
        let ranked = rank_desc(&items);
        let top = take_top(&ranked, limit);
        let mut r: Vec<(DistinctionId, i64)> = Vec::new();
        let mut j: usize = 0;
        while j < top.len()
            invariant
                j <= top@.len(),
                top@ == ranked@.take(top@.len() as int),
                top@.len() <= ranked@.len(),
                r@.len() == j,
                forall|q: int| 0 <= q < j ==> (#[trigger] r@[q]).0@ == top@[q].0@ && r@[q].1 as i128 == top@[q].1,
                forall|x: Seq<char>, k: i128| #[trigger] has_entry(ranked@, x, k) <==> has_entry(items@, x, k),
                forall|q: int| 0 <= q < items@.len() ==> #[trigger] stamped(items@, entries@, q),
            decreases top@.len() - j,
        {
            proof {
                assert(has_entry(ranked@, ranked@[j as int].0@, ranked@[j as int].1));
                let v = choose|v: int| 0 <= v < items@.len() && (#[trigger] items@[v]).0@ == ranked@[j as int].0@ && items@[v].1 == ranked@[j as int].1;
                assert(stamped(items@, entries@, v));
            }
            r.push((top[j].0.clone(), top[j].1 as i64));
            j = j + 1;
        }
        proof {
            assert forall|q: int| 0 <= q < r@.len() implies self.pats().contains_key((#[trigger] r@[q]).0@)
                && self.pats()[r@[q].0@].last_accessed == Some(r@[q].1) by {
                assert(has_entry(ranked@, ranked@[q].0@, ranked@[q].1));
                let v = choose|v: int| 0 <= v < items@.len() && (#[trigger] items@[v]).0@ == ranked@[q].0@ && items@[v].1 == ranked@[q].1;
                assert(stamped(items@, entries@, v));
                let w = choose|w: int| 0 <= w < entries@.len() && items@[v].0@ == entries@[w].0@
                    && entries@[w].1.last_accessed == Some(items@[v].1 as i64) && i64::MIN <= items@[v].1 <= i64::MAX;
                assert(self.pats()[entries@[w].0@] == entries@[w].1);
            }
            assert forall|a: int, b: int| 0 <= a < b < r@.len() implies (#[trigger] r@[a]).0@ != (#[trigger] r@[b]).0@ by {
                assert(ranked@[a].0@ != ranked@[b].0@);
            }
            assert forall|a: int, b: int| 0 <= a < b < r@.len() implies (#[trigger] r@[a]).1 >= (#[trigger] r@[b]).1 by {
                assert(ranked@[a].1 >= ranked@[b].1);
            }
            assert forall|k: Seq<char>| #[trigger] self.pats().contains_key(k) && self.pats()[k].last_accessed is Some && !names(r@, k)
                implies r@.len() == limit && forall|q: int| 0 <= q < r@.len() ==> self.pats()[k].last_accessed.unwrap() <= (#[trigger] r@[q]).1 by {
                let w = choose|w: int| 0 <= w < entries@.len() && (#[trigger] entries@[w]).0@ == k;
                assert(entries@[w].1.last_accessed is Some);
                let t = entries@[w].1.last_accessed.unwrap() as i128;
                assert(has_entry(items@, k, t));
                assert(has_entry(ranked@, k, t));
                let v = choose|v: int| 0 <= v < ranked@.len() && (#[trigger] ranked@[v]).0@ == k && ranked@[v].1 == t;
                if v < r@.len() {
                    assert(r@[v].0@ == k);
                }
                assert forall|q: int| 0 <= q < r@.len() implies self.pats()[k].last_accessed.unwrap() <= (#[trigger] r@[q]).1 by {
                    assert(ranked@[q].1 >= ranked@[v].1);
                }
            }
        }
        r
    }

    /// Statistics: distinctions tracked, and all their accesses (held at `u64::MAX`).
    pub fn stats(&self) -> (s: AccessTrackerStats)
        ensures
            has_size(self.pats(), s.unique_distinctions as nat),
            exists|e: Seq<(Seq<char>, AccessPattern)>| #[trigger] enumerates(e, self.pats())
                && s.total_accesses == (if access_sum(e) > u64::MAX { u64::MAX as int } else { access_sum(e) }),
    {
        let entries = pats_entries(&self.patterns);
        let ghost e = entries@.map_values(|p: (String, AccessPattern)| (p.0@, p.1));
        let mut total: u64 = 0;
        let mut i: usize = 0;
        while i < entries.len()
            invariant
                i <= entries@.len(),
                e == entries@.map_values(|p: (String, AccessPattern)| (p.0@, p.1)),
                total == (if access_sum(e.take(i as int)) > u64::MAX { u64::MAX as int } else { access_sum(e.take(i as int)) }),
            decreases entries@.len() - i,
        {
            proof {
                assert(e.take(i + 1).drop_last() =~= e.take(i as int));
                assert(e.take(i + 1).last() == e[i as int]);
                lemma_access_sum_nonneg(e.take(i as int));
            }
            total = total.saturating_add(entries[i].1.access_count);
            i = i + 1;
        }
        proof {
            assert(e.take(entries@.len() as int) =~= e);
            assert forall|a: int| 0 <= a < e.len() implies self.pats().contains_key((#[trigger] e[a]).0) && self.pats()[e[a].0] == e[a].1 by {
                assert(e[a] == (entries@[a].0@, entries@[a].1));
            }
            assert forall|a: int, b: int| 0 <= a < b < e.len() implies (#[trigger] e[a]).0 != (#[trigger] e[b]).0 by {
                assert(e[a].0 == entries@[a].0@ && e[b].0 == entries@[b].0@);
            }
            assert(enumerates(e, self.pats()));
        }
        AccessTrackerStats { unique_distinctions: entries.len() as u64, total_accesses: total }
    }

    /// Add an access to the recent sequence, dropping the oldest beyond the limit.
    fn update_sequence(&mut self, distinction_id: DistinctionId, timestamp: i64)
        ensures
            final(self).recent() == last_n(old(self).recent().push((distinction_id@, timestamp)), old(self).max_len() as nat),
            final(self).max_len() == old(self).max_len(),
            final(self).pats() == old(self).pats(),
            final(self).hourly() == old(self).hourly(),
            final(self).weekly() == old(self).weekly(),
    {
        let ghost pushed = old(self).recent().push((distinction_id@, timestamp));
        self.recent_sequence.push((distinction_id, timestamp));
        proof {
            assert(self.recent() =~= pushed);
            assert(pushed.skip(0) =~= pushed);
        }
        let ghost mut dropped: int = 0;
        while self.recent_sequence.len() > self.max_sequence_length
            invariant
                0 <= dropped <= pushed.len(),
                self.recent() == pushed.skip(dropped),
                self.recent_sequence@.len() == pushed.len() - dropped,
                self.max_sequence_length == old(self).max_len(),
                dropped > 0 ==> pushed.len() - dropped >= self.max_sequence_length,
                self.pats() == old(self).pats(),
                self.hourly() == old(self).hourly(),
                self.weekly() == old(self).weekly(),
            decreases self.recent_sequence@.len(),
        {
            let ghost before = self.recent();
            let ghost old_vec = self.recent_sequence@;
            self.recent_sequence.remove(0);
            proof {
                assert(self.recent_sequence@ == old_vec.remove(0));
                assert forall|q: int| 0 <= q < self.recent().len() implies self.recent()[q] == pushed.skip(dropped + 1)[q] by {
                    assert(self.recent_sequence@[q] == old_vec[q + 1]);
                    assert(before[q + 1] == pushed.skip(dropped)[q + 1]);
                }
                assert(self.recent() =~= pushed.skip(dropped + 1));
                dropped = dropped + 1;
            }
        }
        proof {
            if pushed.len() > self.max_sequence_length {
                assert(dropped == pushed.len() - self.max_sequence_length);
            } else {
                assert(dropped == 0);
            }
        }
    }

    /// Note the neighbours of the first occurrence of `distinction_id` in the
    /// recent sequence in its pattern.
    fn update_related(&mut self, distinction_id: &str)
        ensures
            final(self).recent() == old(self).recent(),
            final(self).max_len() == old(self).max_len(),
            final(self).hourly() == old(self).hourly(),
            final(self).weekly() == old(self).weekly(),
            final(self).pats().dom() == old(self).pats().dom(),
            forall|k: Seq<char>| k != distinction_id@ && #[trigger] old(self).pats().contains_key(k) ==> final(self).pats()[k] == old(self).pats()[k],
            old(self).pats().contains_key(distinction_id@) ==> {
                let p0 = old(self).pats()[distinction_id@];
                let p = final(self).pats()[distinction_id@];
                &&& counters_of(p) == counters_of(p0)
                &&& p.distinction_id == p0.distinction_id
                &&& p.key == p0.key
                &&& views(p.predecessors@) == with_related(views(p0.predecessors@), predecessor_in(old(self).recent(), distinction_id@))
                &&& views(p.successors@) == with_related(views(p0.successors@), successor_in(old(self).recent(), distinction_id@))
            },
    {
        let (pred, succ) = self.neighbours(distinction_id);
        match pats_get(&self.patterns, distinction_id) {
            Some(p) => {
                let mut p = p;
                match pred {
                    Some(x) => add_neighbour(&mut p.predecessors, x),
                    None => {},
                }
                match succ {
                    Some(x) => add_neighbour(&mut p.successors, x),
                    None => {},
                }
                pats_insert(&mut self.patterns, distinction_id.to_string(), p);
                proof {
                    assert(self.pats().dom() =~= old(self).pats().dom());
                }
            },
            None => {},
        }
    }

    /// The entries right before and after the first occurrence of
    /// `distinction_id` in the recent sequence.
    fn neighbours(&self, distinction_id: &str) -> (r: (Option<DistinctionId>, Option<DistinctionId>))
        ensures
            (match r.0 { Some(x) => Some(x@), None => None }) == predecessor_in(self.recent(), distinction_id@),
            (match r.1 { Some(x) => Some(x@), None => None }) == successor_in(self.recent(), distinction_id@),
    {
        proof {
            lemma_first_position(self.recent(), distinction_id@);
        }
        let n = self.recent_sequence.len();
        let mut i: usize = 0;
        while i < n && !crate::strings::str_eq(self.recent_sequence[i].0.as_str(), distinction_id)
            invariant
                n == self.recent_sequence@.len(),
                i <= n,
                forall|q: int| 0 <= q < i ==> self.recent()[q].0 != distinction_id@,
            decreases n - i,
        {
            proof {
                assert(self.recent()[i as int].0 == self.recent_sequence@[i as int].0@);
            }
            i = i + 1;
        }
        if i == n {
            proof {
                match first_position(self.recent(), distinction_id@) {
                    Some(p) => {
                        assert(self.recent()[p].0 != distinction_id@);
                    },
                    None => {},
                }
            }
            return (None, None);
        }
        proof {
            assert(self.recent()[i as int].0 == distinction_id@);
            match first_position(self.recent(), distinction_id@) {
                Some(p) => {
                    if p < i {
                        assert(self.recent()[p].0 != distinction_id@);
                    }
                    if p > i {
                        assert(self.recent()[i as int].0 != distinction_id@);
                    }
                    assert(p == i);
                },
                None => {
                    assert(self.recent()[i as int].0 != distinction_id@);
                },
            }
        }
        let pred = if i > 0 {
            proof {
                assert(self.recent()[i - 1].0 == self.recent_sequence@[i - 1].0@);
            }
            Some(self.recent_sequence[i - 1].0.clone())
        } else {
            None
        };
        let succ = if i + 1 < n {
            proof {
                assert(self.recent()[i + 1].0 == self.recent_sequence@[i + 1].0@);
            }
            Some(self.recent_sequence[i + 1].0.clone())
        } else {
            None
        };
        (pred, succ)
    }
}

impl Default for AccessTracker {
    fn default() -> (t: Self)
        ensures
            has_size(t.pats(), 0),
            t.recent() == Seq::<(Seq<char>, i64)>::empty(),
            t.max_len() == 100,
    {
        Self::new()
    }
}

} // verus!
