//! The storage agent: storage with deletion. A deleted key keeps its history
//! and gets a tombstone, which hides it from reads.
//!
//! Times are nanoseconds after the Unix epoch (UTC).

use vstd::prelude::*;
use crate::causal_graph::CausalGraph;
use crate::error::{DeltaError, DeltaResult};
use crate::memory::maps::has_size;
use crate::reference_graph::ReferenceGraph;
use crate::storage::{dedup_adjacent, keys_in, lists_current, namespaces_of, CausalStorage, HistoryEntry};
use crate::strings::{chars_leq, sort_strings, str_eq, views};
use crate::types::{key_view, FullKey, Tombstone, VersionedValue};
use dashmap::DashMap;
use vstd::string::*;

verus! {

/// The tombstones of a map, by key text.
pub uninterp spec fn tombs_of(m: DashMap<FullKey, Tombstone>) -> Map<(Seq<char>, Seq<char>), Tombstone>;

/// `DashMap::new`: no tombstones.
#[verifier::external_body]
fn tombs_new() -> (m: DashMap<FullKey, Tombstone>)
    ensures
        has_size(tombs_of(m), 0),
{
    DashMap::new()
}

/// `DashMap::get`, cloning the tombstone of `k`.
#[verifier::external_body]
fn tombs_get(m: &DashMap<FullKey, Tombstone>, k: &FullKey) -> (r: Option<Tombstone>)
    ensures
        match r {
            Some(t) => tombs_of(*m).contains_key(key_view(*k)) && t == tombs_of(*m)[key_view(*k)],
            None => !tombs_of(*m).contains_key(key_view(*k)),
        },
{
    m.get(k).map(|e| e.value().clone())
}

/// `DashMap::insert`: `k` now has tombstone `t`.
#[verifier::external_body]
fn tombs_insert(m: &mut DashMap<FullKey, Tombstone>, k: FullKey, t: Tombstone)
    ensures
        tombs_of(*final(m)) == tombs_of(*old(m)).insert(key_view(k), t),
{
    m.insert(k, t);
}

/// `DashMap::contains_key`.
#[verifier::external_body]
fn tombs_contains(m: &DashMap<FullKey, Tombstone>, k: &FullKey) -> (r: bool)
    ensures
        r == tombs_of(*m).contains_key(key_view(*k)),
{
    m.contains_key(k)
}

/// `DashMap::iter` over the values, collected: every tombstone once, in the
/// map's iteration order.
#[verifier::external_body]
fn tombs_values(m: &DashMap<FullKey, Tombstone>) -> (r: Vec<Tombstone>)
    ensures
        exists|keys: Seq<(Seq<char>, Seq<char>)>| #[trigger] keys.len() == r@.len()
            && keys.no_duplicates()
            && keys.to_set() == tombs_of(*m).dom()
            && forall|i: int| 0 <= i < keys.len() ==> tombs_of(*m)[#[trigger] keys[i]] == r@[i],
{
    m.iter().map(|e| e.value().clone()).collect()
}

/// The versions met following `previous_version` links from the write `id`,
/// newest first, for at most `fuel` steps, with the IDs they were found under.
pub open spec fn chain(versions: Map<Seq<char>, VersionedValue>, id: Seq<char>, fuel: nat) -> Seq<(Seq<char>, VersionedValue)>
    decreases fuel,
{
    if fuel == 0 || !versions.contains_key(id) {
        Seq::empty()
    } else {
        seq![(id, versions[id])] + match versions[id].previous_version {
            Some(p) => chain(versions, p@, (fuel - 1) as nat),
            None => Seq::empty(),
        }
    }
}

/// The history entry of a version found under `id`.
pub open spec fn chain_entry(p: (Seq<char>, VersionedValue)) -> (Seq<char>, i64, Seq<char>) {
    (p.1.value@, p.1.timestamp, p.0)
}

/// The text of a history entry.
pub open spec fn entry_text(h: HistoryEntry) -> (Seq<char>, i64, Seq<char>) {
    (h.value@, h.timestamp, h.version_id@)
}

/// The keys of a scan in namespace order, each namespace's keys sorted.
pub open spec fn grouped_keys(e: Seq<(FullKey, VersionedValue)>, names: Seq<Seq<char>>) -> Seq<(Seq<char>, Seq<char>)>
    decreases names.len(),
{
    if names.len() == 0 {
        Seq::empty()
    } else {
        let n = names.last();
        grouped_keys(e, names.drop_last()) + keys_in(e, n).sort_by(chars_leq()).map_values(pair_with(n))
    }
}

/// Pairs a key with namespace `n`.
pub open spec fn pair_with(n: Seq<char>) -> spec_fn(Seq<char>) -> (Seq<char>, Seq<char>) {
    |k: Seq<char>| (n, k)
}

/// Storage with deletion.
#[derive(Debug)]
pub struct StorageAgent {
    /// The versions, current values and graphs.
    storage: CausalStorage,
    /// Tombstones of deleted keys.
    tombstones: DashMap<FullKey, Tombstone>,
}

impl StorageAgent {
    /// The storage underneath.
    pub closed spec fn inner(&self) -> CausalStorage {
        self.storage
    }

    /// The tombstones, by key.
    pub closed spec fn tombs(&self) -> Map<(Seq<char>, Seq<char>), Tombstone> {
        tombs_of(self.tombstones)
    }

    /// The storage underneath is well formed.
    pub open spec fn wf(&self) -> bool {
        self.inner().wf()
    }

    /// An empty agent.
    pub fn new() -> (a: Self)
        ensures
            a.wf(),
            has_size(a.inner().current(), 0),
            has_size(a.inner().versions(), 0),
            has_size(a.tombs(), 0),
    {
        StorageAgent { storage: CausalStorage::new(), tombstones: tombs_new() }
    }

    /// Store `value` (JSON text, distinction ID `distinction_id`) under
    /// `namespace`/`key` at `now`, as the storage does. A tombstone of the key
    /// stays.
    pub fn put(&mut self, namespace: String, key: String, value: String, distinction_id: String, now: i64) -> (r: DeltaResult<VersionedValue>)
        requires
            old(self).wf(),
        ensures
            final(self).wf(),
            r matches Ok(v) && final(self).inner().current() == old(self).inner().current().insert((namespace@, key@), v)
                && final(self).inner().versions() == old(self).inner().versions().insert(v.write_id@, v)
                && v.write_id@ == crate::storage::write_id_text(distinction_id@, now)
                && v.timestamp == now,
            final(self).tombs() == old(self).tombs(),
    {
        Ok(self.storage.put(namespace, key, value, distinction_id, now))
    }

    /// Store several values, each `(namespace, key, value, distinction ID, time)`,
    /// in order; the versions written, in order.
    pub fn put_batch(&mut self, items: Vec<(String, String, String, String, i64)>) -> (r: DeltaResult<Vec<VersionedValue>>)
        requires
            old(self).wf(),
        ensures
            final(self).wf(),
            r matches Ok(vs) && vs@.len() == items@.len()
                && forall|i: int| 0 <= i < items@.len() ==> (#[trigger] vs@[i]).timestamp == items@[i].4
                    && vs@[i].write_id@ == crate::storage::write_id_text(items@[i].3@, items@[i].4)
                    && final(self).inner().versions().contains_key(vs@[i].write_id@),
            final(self).tombs() == old(self).tombs(),
    {
        let mut results: Vec<VersionedValue> = Vec::new();
        let mut items = items;
        let ghost all = items@;
        let mut i: usize = 0;
        while i < items.len()
            invariant
                self.wf(),
                i <= items@.len(),
                items@.len() == all.len(),
                results@.len() == i,
                self.tombs() == old(self).tombs(),
                forall|q: int| 0 <= q < i ==> (#[trigger] results@[q]).timestamp == all[q].4
                    && results@[q].write_id@ == crate::storage::write_id_text(all[q].3@, all[q].4)
                    && self.inner().versions().contains_key(results@[q].write_id@),
                forall|q: int| i <= q < all.len() ==> #[trigger] items@[q] == all[q],
            decreases all.len() - i,
        {
            let item = (items[i].0.clone(), items[i].1.clone(), items[i].2.clone(), items[i].3.clone(), items[i].4);
            proof {
                assert(items@[i as int] == all[i as int]);
            }
            let v = self.storage.put(item.0, item.1, item.2, item.3, item.4);
            results.push(v);
            i = i + 1;
        }
        Ok(results)
    }

    /// The current version of `namespace`/`key`, unless the key was deleted.
    pub fn get(&self, namespace: &str, key: &str) -> (r: DeltaResult<VersionedValue>)
        ensures
            match r {
                Ok(v) => !self.tombs().contains_key((namespace@, key@)) && self.inner().current().contains_key((namespace@, key@))
                    && v == self.inner().current()[(namespace@, key@)],
                Err(e) => (self.tombs().contains_key((namespace@, key@)) || !self.inner().current().contains_key((namespace@, key@)))
                    && (e matches DeltaError::KeyNotFound { namespace: n, key: k } && n@ == namespace@ && k@ == key@),
            },
    {
        let full_key = FullKey::new(namespace.to_string(), key.to_string());
        if tombs_contains(&self.tombstones, &full_key) {
            return Err(DeltaError::KeyNotFound { namespace: namespace.to_string(), key: key.to_string() });
        }
        self.storage.get(namespace, key)
    }

    /// The history of `namespace`/`key`, oldest first: the versions met
    /// following `previous_version` links back from its current version (a
    /// chain that loops is followed as many steps as there are versions).
    pub fn history(&self, namespace: &str, key: &str) -> (r: DeltaResult<Vec<HistoryEntry>>)
        ensures
            match r {
                Ok(h) => self.inner().current().contains_key((namespace@, key@))
                    && h@.map_values(|x: HistoryEntry| entry_text(x)) == chain(
                        self.inner().versions(),
                        self.inner().current()[(namespace@, key@)].write_id@,
                        self.inner().versions().dom().len(),
                    ).reverse().map_values(|p: (Seq<char>, VersionedValue)| chain_entry(p)),
                Err(e) => !self.inner().current().contains_key((namespace@, key@))
                    && (e matches DeltaError::KeyNotFound { namespace: n, key: k } && n@ == namespace@ && k@ == key@),
            },
    {
        let current = match self.storage.get(namespace, key) {
            Ok(v) => v,
            Err(e) => return Err(e),
        };
        let fuel0 = self.storage.version_count();
        let ghost versions = self.inner().versions();
        let ghost start = current.write_id@;
        let mut history: Vec<HistoryEntry> = Vec::new();
        let mut next: Option<String> = Some(current.write_id);
        let mut fuel: usize = fuel0;
        let ghost mut seen: Seq<(Seq<char>, VersionedValue)> = Seq::empty();
        while fuel > 0 && next.is_some()
            invariant
                versions == self.inner().versions(),
                has_size(versions, fuel0 as nat),
                fuel <= fuel0,
                chain(versions, start, fuel0 as nat) == seen + match next {
                    Some(id) => chain(versions, id@, fuel as nat),
                    None => Seq::empty(),
                },
                history@.map_values(|x: HistoryEntry| entry_text(x)) == seen.reverse().map_values(|p: (Seq<char>, VersionedValue)| chain_entry(p)),
            decreases fuel,
        {
            let id = match &next {
                Some(id) => id.clone(),
                None => String::new(),
            };
            match self.storage.version(id.as_str()) {
                Some(v) => {
                    let entry = HistoryEntry::new(v.value.clone(), v.timestamp, id.clone());
                    let ghost before = history@.map_values(|x: HistoryEntry| entry_text(x));
                    history.insert(0, entry);
                    proof {
                        assert(history@.map_values(|x: HistoryEntry| entry_text(x)) =~= seq![chain_entry((id@, v))] + before);
                        assert(chain(versions, id@, fuel as nat) == seq![(id@, v)] + match v.previous_version {
                            Some(p) => chain(versions, p@, (fuel - 1) as nat),
                            None => Seq::empty(),
                        });
                        let new_seen = seen.push((id@, v));
                        assert(new_seen.reverse() =~= seq![(id@, v)] + seen.reverse());
                        assert(new_seen.reverse().map_values(|p: (Seq<char>, VersionedValue)| chain_entry(p))
                            =~= seq![chain_entry((id@, v))] + seen.reverse().map_values(|p: (Seq<char>, VersionedValue)| chain_entry(p)));
                        assert(seen + (seq![(id@, v)] + match v.previous_version {
                            Some(p) => chain(versions, p@, (fuel - 1) as nat),
                            None => Seq::empty(),
                        }) =~= new_seen + match v.previous_version {
                            Some(p) => chain(versions, p@, (fuel - 1) as nat),
                            None => Seq::empty(),
                        });
                        seen = new_seen;
                    }
                    next = v.previous_version;
                    fuel = fuel - 1;
                },
                None => {
                    fuel = 0;
                },
            }
        }
        proof {
            match next {
                Some(id) => {
                    if fuel == 0 {
                        assert(chain(versions, id@, 0) == Seq::<(Seq<char>, VersionedValue)>::empty());
                    }
                    assert(seen + chain(versions, id@, fuel as nat) =~= seen);
                },
                None => {
                    assert(seen + Seq::<(Seq<char>, VersionedValue)>::empty() =~= seen);
                },
            }
        }
        Ok(history)
    }

    /// Delete `namespace`/`key` at `now`: its current version is dropped (its
    /// history stays) and it gets a tombstone.
    pub fn delete(&mut self, namespace: &str, key: &str, now: i64) -> (r: DeltaResult<Tombstone>)
        requires
            old(self).wf(),
        ensures
            final(self).wf(),
            r matches Ok(t) && key_view(t.key) == (namespace@, key@) && t.deleted_by@ == "storage_agent"@ && t.deleted_at == now
                && final(self).tombs() == old(self).tombs().insert((namespace@, key@), t),
            final(self).inner().current() == old(self).inner().current().remove((namespace@, key@)),
            final(self).inner().versions() == old(self).inner().versions(),
    {
        let full_key = FullKey::new(namespace.to_string(), key.to_string());
        let tombstone = Tombstone::new(full_key.duplicate(), String::from_str("storage_agent"), now);
        proof {
            reveal_strlit("storage_agent");
        }
        self.storage.remove_current(namespace, key);
        let kept = tombstone.duplicate();
        tombs_insert(&mut self.tombstones, full_key, tombstone);
        proof {
            assert(self.tombs() == old(self).tombs().insert((namespace@, key@), self.tombs()[(namespace@, key@)]));
        }
        match tombs_get(&self.tombstones, &kept.key) {
            Some(t) => Ok(t),
            None => Ok(kept),
        }
    }

    /// Query with a pattern: every current entry, in the map's iteration order
    /// (the pattern does not narrow the result).
    pub fn query(&self, pattern: &str) -> (r: DeltaResult<Vec<(FullKey, VersionedValue)>>)
        ensures
            r matches Ok(v) && lists_current(v@, self.inner().current()),
    {
        Ok(self.storage.scan_all())
    }

    /// Whether `namespace`/`key` has a current version.
    pub fn contains_key(&self, namespace: &str, key: &str) -> (r: bool)
        ensures
            r == self.inner().current().contains_key((namespace@, key@)),
    {
        self.storage.contains_key(namespace, key)
    }

    /// The number of keys with a current version.
    pub fn key_count(&self) -> (r: usize)
        ensures
            has_size(self.inner().current(), r as nat),
    {
        self.storage.key_count()
    }

    /// The number of versions stored.
    pub fn total_version_count(&self) -> (r: usize)
        ensures
            has_size(self.inner().versions(), r as nat),
    {
        self.storage.version_count()
    }

    /// The namespaces in use, sorted, each once.
    pub fn list_namespaces(&self) -> (r: Vec<String>)
        ensures
            exists|e: Seq<(FullKey, VersionedValue)>| #[trigger] lists_current(e, self.inner().current())
                && views(r@) == dedup_adjacent(namespaces_of(e).sort_by(chars_leq())),
    {
        let r = self.storage.list_namespaces();
        proof {
            let e = choose|e: Seq<(FullKey, VersionedValue)>| #[trigger] lists_current(e, self.storage.current())
                && views(r@) == dedup_adjacent(namespaces_of(e).sort_by(chars_leq()));
            assert(lists_current(e, self.inner().current()));
        }
        r
    }

    /// The keys in `namespace`, sorted.
    pub fn list_keys(&self, namespace: &str) -> (r: Vec<String>)
        ensures
            exists|e: Seq<(FullKey, VersionedValue)>| #[trigger] lists_current(e, self.inner().current())
                && views(r@) == keys_in(e, namespace@).sort_by(chars_leq()),
    {
        let r = self.storage.list_keys(namespace);
        proof {
            let e = choose|e: Seq<(FullKey, VersionedValue)>| #[trigger] lists_current(e, self.storage.current())
                && views(r@) == keys_in(e, namespace@).sort_by(chars_leq());
            assert(lists_current(e, self.inner().current()));
        }
        r
    }

    /// The current entries of `namespace` with their keys, sorted by key.
    pub fn scan_collection(&self, namespace: &str) -> (r: Vec<(String, VersionedValue)>)
        ensures
            exists|e: Seq<(FullKey, VersionedValue)>| #[trigger] lists_current(e, self.inner().current())
                && r@.map_values(|p: (String, VersionedValue)| p.0@) == keys_in(e, namespace@).sort_by(chars_leq()),
            forall|i: int| 0 <= i < r@.len() ==> self.inner().current().contains_key((namespace@, (#[trigger] r@[i]).0@))
                && r@[i].1 == self.inner().current()[(namespace@, r@[i].0@)],
    {
        let entries = self.storage.scan_all();
        self.collect_sorted(&entries, namespace)
    }

    /// Every current entry, by namespace (sorted) and then by key (sorted).
    pub fn scan_all(&self) -> (r: Vec<(FullKey, VersionedValue)>)
        ensures
            exists|e: Seq<(FullKey, VersionedValue)>| #[trigger] lists_current(e, self.inner().current())
                && r@.map_values(|p: (FullKey, VersionedValue)| key_view(p.0))
                    == grouped_keys(e, dedup_adjacent(namespaces_of(e).sort_by(chars_leq()))),
            forall|i: int| 0 <= i < r@.len() ==> self.inner().current().contains_key(key_view((#[trigger] r@[i]).0))
                && r@[i].1 == self.inner().current()[key_view(r@[i].0)],
    {
        let entries = self.storage.scan_all();
        let names = namespaces_sorted(&entries);
        let ghost e = entries@;
        let mut r: Vec<(FullKey, VersionedValue)> = Vec::new();
        let mut i: usize = 0;
        proof {
            assert(views(names@).take(0) =~= Seq::<Seq<char>>::empty());
            assert(r@.map_values(|p: (FullKey, VersionedValue)| key_view(p.0)) =~= Seq::<(Seq<char>, Seq<char>)>::empty());
        }
        while i < names.len()
            invariant
                i <= names@.len(),
                e == entries@,
                lists_current(e, self.inner().current()),
                r@.map_values(|p: (FullKey, VersionedValue)| key_view(p.0)) == grouped_keys(e, views(names@).take(i as int)),
                forall|q: int| 0 <= q < r@.len() ==> self.inner().current().contains_key(key_view((#[trigger] r@[q]).0))
                    && r@[q].1 == self.inner().current()[key_view(r@[q].0)],
            decreases names@.len() - i,
        {
            let group = self.collect_sorted(&entries, names[i].as_str());
            let ghost before = r@;
            let ghost n = names@[i as int]@;
            let mut j: usize = 0;
            while j < group.len()
                invariant
                    i < names@.len(),
                    n == names@[i as int]@,
                    j <= group@.len(),
                    r@.len() == before.len() + j,
                    forall|q: int| 0 <= q < before.len() ==> #[trigger] r@[q] == before[q],
                    forall|q: int| 0 <= q < j ==> key_view((#[trigger] r@[before.len() + q]).0) == (n, group@[q].0@)
                        && r@[before.len() + q].1 == group@[q].1,
                    forall|q: int| 0 <= q < group@.len() ==> self.inner().current().contains_key((n, (#[trigger] group@[q]).0@))
                        && group@[q].1 == self.inner().current()[(n, group@[q].0@)],
                    forall|q: int| 0 <= q < before.len() ==> self.inner().current().contains_key(key_view((#[trigger] before[q]).0))
                        && before[q].1 == self.inner().current()[key_view(before[q].0)],
                decreases group@.len() - j,
            {
                let fk = FullKey::new(names[i].clone(), group[j].0.clone());
                r.push((fk, group[j].1.duplicate()));
                j = j + 1;
            }
            proof {
                assert(views(names@).take(i + 1) =~= views(names@).take(i as int).push(n));
                assert(views(names@).take(i + 1).drop_last() =~= views(names@).take(i as int));
                assert(group@.map_values(|p: (String, VersionedValue)| p.0@) == keys_in(e, n).sort_by(chars_leq()));
                assert(r@.map_values(|p: (FullKey, VersionedValue)| key_view(p.0)) =~= before.map_values(|p: (FullKey, VersionedValue)| key_view(p.0))
                    + keys_in(e, n).sort_by(chars_leq()).map_values(pair_with(n))) by {
                    assert forall|q: int| 0 <= q < group@.len() implies key_view(r@[before.len() + q].0)
                        == #[trigger] keys_in(e, n).sort_by(chars_leq()).map_values(pair_with(n))[q] by {
                        assert(group@.map_values(|p: (String, VersionedValue)| p.0@)[q] == group@[q].0@);
                    }
                }
                assert forall|q: int| 0 <= q < r@.len() implies self.inner().current().contains_key(key_view((#[trigger] r@[q]).0))
                    && r@[q].1 == self.inner().current()[key_view(r@[q].0)] by {
                    if q >= before.len() {
                        let w = q - before.len();
                        assert(key_view(r@[before.len() + w].0) == (n, group@[w].0@));
                    }
                }
            }
            i = i + 1;
        }
        proof {
            assert(views(names@).take(names@.len() as int) =~= views(names@));
        }
        r
    }

    /// The entries of `entries` in `namespace`, sorted by key.
    fn collect_sorted(&self, entries: &Vec<(FullKey, VersionedValue)>, namespace: &str) -> (r: Vec<(String, VersionedValue)>)
        requires
            lists_current(entries@, self.inner().current()),
        ensures
            lists_current(entries@, self.inner().current()),
            r@.map_values(|p: (String, VersionedValue)| p.0@) == keys_in(entries@, namespace@).sort_by(chars_leq()),
            forall|i: int| 0 <= i < r@.len() ==> self.inner().current().contains_key((namespace@, (#[trigger] r@[i]).0@))
                && r@[i].1 == self.inner().current()[(namespace@, r@[i].0@)],
    {
        let ghost pred = |p: (FullKey, VersionedValue)| p.0.namespace@ == namespace@;
        let mut keys: Vec<String> = Vec::new();
        let mut i: usize = 0;
        proof {
            assert(entries@.take(0).filter(pred) =~= Seq::<(FullKey, VersionedValue)>::empty());
            assert(views(keys@) =~= Seq::<Seq<char>>::empty());
        }
        while i < entries.len()
            invariant
                i <= entries@.len(),
                pred == (|p: (FullKey, VersionedValue)| p.0.namespace@ == namespace@),
                views(keys@) == entries@.take(i as int).filter(pred).map_values(|p: (FullKey, VersionedValue)| p.0.key@),
                forall|q: int| 0 <= q < keys@.len() ==> self.inner().current().contains_key((namespace@, (#[trigger] keys@[q])@)),
                lists_current(entries@, self.inner().current()),
            decreases entries@.len() - i,
        {
            let ghost before = views(keys@);
            proof {
                reveal(Seq::filter);
                assert(entries@.take(i + 1).drop_last() =~= entries@.take(i as int));
                assert(entries@.take(i + 1).last() == entries@[i as int]);
            }
            if str_eq(entries[i].0.namespace.as_str(), namespace) {
                keys.push(entries[i].0.key.clone());
                proof {
                    assert(views(keys@) =~= before.push(entries@[i as int].0.key@));
                    assert(entries@.take(i + 1).filter(pred) == entries@.take(i as int).filter(pred).push(entries@[i as int]));
                    assert(entries@.take(i + 1).filter(pred).map_values(|p: (FullKey, VersionedValue)| p.0.key@)
                        =~= entries@.take(i as int).filter(pred).map_values(|p: (FullKey, VersionedValue)| p.0.key@).push(entries@[i as int].0.key@));
                    assert(key_view(entries@[i as int].0) == (namespace@, entries@[i as int].0.key@));
                    assert forall|q: int| 0 <= q < keys@.len() implies self.inner().current().contains_key((namespace@, (#[trigger] keys@[q])@)) by {
                        if q < keys@.len() - 1 {
                            assert(views(keys@)[q] == before[q]);
                        }
                    }
                }
            }
            i = i + 1;
        }
        proof {
            assert(entries@.take(entries@.len() as int) =~= entries@);
            assert(keys_in(entries@, namespace@) == entries@.filter(pred).map_values(|p: (FullKey, VersionedValue)| p.0.key@));
        }
        let ghost unsorted = keys@;
        let sorted = sort_strings(keys);
        proof {
            broadcast use vstd::seq_lib::group_to_multiset_ensures;
            assert forall|q: int| 0 <= q < sorted@.len() implies self.inner().current().contains_key((namespace@, (#[trigger] sorted@[q])@)) by {
                assert(sorted@.to_multiset().contains(sorted@[q]));
                assert(unsorted.to_multiset().contains(sorted@[q]));
                assert(unsorted.contains(sorted@[q]));
                let w = choose|w: int| 0 <= w < unsorted.len() && unsorted[w] == sorted@[q];
            }
        }
        let mut r: Vec<(String, VersionedValue)> = Vec::new();
        let mut j: usize = 0;
        while j < sorted.len()
            invariant
                j <= sorted@.len(),
                r@.len() == j,
                forall|q: int| 0 <= q < j ==> (#[trigger] r@[q]).0@ == sorted@[q]@
                    && self.inner().current().contains_key((namespace@, r@[q].0@))
                    && r@[q].1 == self.inner().current()[(namespace@, r@[q].0@)],
                forall|q: int| 0 <= q < sorted@.len() ==> self.inner().current().contains_key((namespace@, (#[trigger] sorted@[q])@)),
            decreases sorted@.len() - j,
        {
            let v = match self.storage.get(namespace, sorted[j].as_str()) {
                Ok(v) => v,
                Err(_) => {
                    proof {
                        assert(self.inner().current().contains_key((namespace@, sorted@[j as int]@)));
                    }
                    VersionedValue { value: String::new(), timestamp: 0, write_id: String::new(), distinction_id: String::new(), previous_version: None }
                },
            };
            r.push((sorted[j].clone(), v));
            j = j + 1;
        }
        proof {
            assert(r@.map_values(|p: (String, VersionedValue)| p.0@) =~= views(sorted@));
        }
        r
    }

    /// The causal graph of writes.
    pub fn causal_graph(&self) -> (g: &CausalGraph)
        ensures
            *g == self.inner().graph(),
    {
        self.storage.causal_graph()
    }

    /// The reference graph of writes.
    pub fn reference_graph(&self) -> (g: &ReferenceGraph)
        ensures
            *g == self.inner().refs(),
    {
        self.storage.reference_graph()
    }

    /// The tombstone of `namespace`/`key`, if it was deleted.
    pub fn get_tombstone(&self, namespace: &str, key: &str) -> (r: Option<Tombstone>)
        ensures
            match r {
                Some(t) => self.tombs().contains_key((namespace@, key@)) && t == self.tombs()[(namespace@, key@)],
                None => !self.tombs().contains_key((namespace@, key@)),
            },
    {
        let full_key = FullKey::new(namespace.to_string(), key.to_string());
        tombs_get(&self.tombstones, &full_key)
    }

    /// Whether `namespace`/`key` was deleted.
    pub fn has_tombstone(&self, namespace: &str, key: &str) -> (r: bool)
        ensures
            r == self.tombs().contains_key((namespace@, key@)),
    {
        let full_key = FullKey::new(namespace.to_string(), key.to_string());
        tombs_contains(&self.tombstones, &full_key)
    }

    /// Every tombstone, in the map's iteration order.
    pub fn get_all_tombstones(&self) -> (r: Vec<Tombstone>)
        ensures
            exists|keys: Seq<(Seq<char>, Seq<char>)>| #[trigger] keys.len() == r@.len()
                && keys.no_duplicates()
                && keys.to_set() == self.tombs().dom()
                && forall|i: int| 0 <= i < keys.len() ==> self.tombs()[#[trigger] keys[i]] == r@[i],
    {
        tombs_values(&self.tombstones)
    }

    /// Record a tombstone as it was written before (when replaying a log).
    pub fn insert_tombstone(&mut self, tombstone: Tombstone)
        ensures
            final(self).tombs() == old(self).tombs().insert(key_view(tombstone.key), tombstone),
            final(self).inner() == old(self).inner(),
    {
        let full_key = tombstone.key.duplicate();
        tombs_insert(&mut self.tombstones, full_key, tombstone);
    }
}

/// The namespaces of `entries`, sorted, each once.
fn namespaces_sorted(entries: &Vec<(FullKey, VersionedValue)>) -> (r: Vec<String>)
    ensures
        views(r@) == dedup_adjacent(namespaces_of(entries@).sort_by(chars_leq())),
{
    let mut names: Vec<String> = Vec::new();
    let mut i: usize = 0;
    while i < entries.len()
        invariant
            i <= entries@.len(),
            views(names@) == namespaces_of(entries@).take(i as int),
        decreases entries@.len() - i,
    {
        let ghost before = views(names@);
        names.push(entries[i].0.namespace.clone());
        proof {
            assert(views(names@) =~= before.push(entries@[i as int].0.namespace@));
            assert(namespaces_of(entries@).take(i + 1) =~= namespaces_of(entries@).take(i as int).push(entries@[i as int].0.namespace@));
        }
        i = i + 1;
    }
    proof {
        assert(namespaces_of(entries@).take(entries@.len() as int) =~= namespaces_of(entries@));
    }
    let sorted = sort_strings(names);
    let mut r: Vec<String> = Vec::new();
    let mut j: usize = 0;
    proof {
        assert(views(sorted@).take(0) =~= Seq::<Seq<char>>::empty());
        assert(views(r@) =~= Seq::<Seq<char>>::empty());
    }
    while j < sorted.len()
        invariant
            j <= sorted@.len(),
            views(r@) == dedup_adjacent(views(sorted@).take(j as int)),
        decreases sorted@.len() - j,
    {
        let ghost before = views(r@);
        proof {
            assert(views(sorted@).take(j + 1).drop_last() =~= views(sorted@).take(j as int));
            assert(views(sorted@).take(j + 1).last() == sorted@[j as int]@);
        }
        let n = r.len();
        if n == 0 || !str_eq(r[n - 1].as_str(), sorted[j].as_str()) {
            r.push(sorted[j].clone());
            proof {
                assert(views(r@) =~= before.push(sorted@[j as int]@));
            }
        } else {
            proof {
                assert(before.last() == r@[n - 1]@);
            }
        }
        j = j + 1;
    }
    proof {
        assert(views(sorted@).take(sorted@.len() as int) =~= views(sorted@));
    }
    r
}

} // verus!
