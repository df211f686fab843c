//! The concurrent maps (`dashmap::DashMap`) the memory layers keep their entries
//! in, and what each operation the layers use does to a map's contents.

use vstd::prelude::*;
use crate::types::{key_view, FullKey, VersionedValue};
use crate::memory::warm::IndexEntry;
use crate::memory::cold::Epoch;
use crate::memory::deep::{ArchivedEpoch, Genome};
use dashmap::DashMap;

verus! {

/// `dashmap::DashMap`, a sharded concurrent hash map.
#[verifier::external_type_specification]
#[verifier::external_body]
#[verifier::reject_recursive_types(K)]
#[verifier::reject_recursive_types(V)]
#[verifier::reject_recursive_types(S)]
pub struct ExDashMap<K, V, S>(DashMap<K, V, S>);

/// Whether a map has finitely many entries, `n` of them.
pub open spec fn has_size<K, V>(m: Map<K, V>, n: nat) -> bool {
    m.dom().finite() && m.dom().len() == n
}

// ---------------------------------------------------------------------------
// Key → distinction ID maps
// ---------------------------------------------------------------------------

/// The entries of a map from full keys to distinction IDs, by text.
pub uninterp spec fn key_ids_of(m: DashMap<FullKey, String>) -> Map<(Seq<char>, Seq<char>), Seq<char>>;

/// `DashMap::new`: an empty map.
#[verifier::external_body]
pub fn key_ids_new() -> (m: DashMap<FullKey, String>)
    ensures
        has_size(key_ids_of(m), 0),
{
    DashMap::new()
}

/// `DashMap::get`, cloning the ID found under `k`.
#[verifier::external_body]
pub fn key_ids_get(m: &DashMap<FullKey, String>, k: &FullKey) -> (r: Option<String>)
    ensures
        match r {
            Some(id) => key_ids_of(*m).contains_key(key_view(*k)) && id@ == key_ids_of(*m)[key_view(*k)],
            None => !key_ids_of(*m).contains_key(key_view(*k)),
        },
{
    m.get(k).map(|e| e.value().clone())
}

/// `DashMap::insert`: `k` now maps to `id`.
#[verifier::external_body]
pub fn key_ids_insert(m: &mut DashMap<FullKey, String>, k: FullKey, id: String)
    ensures
        key_ids_of(*final(m)) == key_ids_of(*old(m)).insert(key_view(k), id@),
{
    m.insert(k, id);
}

/// `DashMap::remove`: `k` no longer maps to anything.
#[verifier::external_body]
pub fn key_ids_remove(m: &mut DashMap<FullKey, String>, k: &FullKey)
    ensures
        key_ids_of(*final(m)) == key_ids_of(*old(m)).remove(key_view(*k)),
{
    m.remove(k);
}

/// `DashMap::contains_key`.
#[verifier::external_body]
pub fn key_ids_contains(m: &DashMap<FullKey, String>, k: &FullKey) -> (r: bool)
    ensures
        r == key_ids_of(*m).contains_key(key_view(*k)),
{
    m.contains_key(k)
}

/// `DashMap::clear`: no entries are left.
#[verifier::external_body]
pub fn key_ids_clear(m: &mut DashMap<FullKey, String>)
    ensures
        has_size(key_ids_of(*final(m)), 0),
{
    m.clear();
}

/// `DashMap::iter`, collected: every entry once, in the map's iteration order.
#[verifier::external_body]
pub fn key_ids_entries(m: &DashMap<FullKey, String>) -> (r: Vec<(FullKey, String)>)
    ensures
        has_size(key_ids_of(*m), r@.len()),
        forall|i: int| 0 <= i < r@.len() ==> key_ids_of(*m).contains_key(key_view((#[trigger] r@[i]).0))
            && key_ids_of(*m)[key_view(r@[i].0)] == r@[i].1@,
        forall|i: int, j: int| 0 <= i < j < r@.len() ==> key_view((#[trigger] r@[i]).0) != key_view((#[trigger] r@[j]).0),
        forall|k: (Seq<char>, Seq<char>)| key_ids_of(*m).contains_key(k) ==> exists|i: int| 0 <= i < r@.len() && key_view((#[trigger] r@[i]).0) == k,
{
    m.iter().map(|e| (e.key().clone(), e.value().clone())).collect()
}

// ---------------------------------------------------------------------------
// Distinction ID → version maps
// ---------------------------------------------------------------------------

/// The entries of a map from distinction IDs to versions, by ID text.
pub uninterp spec fn versions_of(m: DashMap<String, VersionedValue>) -> Map<Seq<char>, VersionedValue>;

/// `DashMap::with_capacity`: an empty map.
#[verifier::external_body]
pub fn versions_with_capacity(capacity: usize) -> (m: DashMap<String, VersionedValue>)
    ensures
        has_size(versions_of(m), 0),
{
    DashMap::with_capacity(capacity)
}

/// `DashMap::get`, cloning the version stored under `id`.
#[verifier::external_body]
pub fn versions_get(m: &DashMap<String, VersionedValue>, id: &str) -> (r: Option<VersionedValue>)
    ensures
        match r {
            Some(v) => versions_of(*m).contains_key(id@) && v == versions_of(*m)[id@],
            None => !versions_of(*m).contains_key(id@),
        },
{
    m.get(id).map(|e| e.value().clone())
}

/// `DashMap::insert`: `id` now maps to `v`.
#[verifier::external_body]
pub fn versions_insert(m: &mut DashMap<String, VersionedValue>, id: String, v: VersionedValue)
    ensures
        versions_of(*final(m)) == versions_of(*old(m)).insert(id@, v),
{
    m.insert(id, v);
}

/// `DashMap::remove`: the entry under `id`, taken out if there was one.
#[verifier::external_body]
pub fn versions_remove(m: &mut DashMap<String, VersionedValue>, id: &str) -> (r: Option<VersionedValue>)
    ensures
        versions_of(*final(m)) == versions_of(*old(m)).remove(id@),
        match r {
            Some(v) => versions_of(*old(m)).contains_key(id@) && v == versions_of(*old(m))[id@],
            None => !versions_of(*old(m)).contains_key(id@),
        },
{
    m.remove(id).map(|(_, v)| v)
}

/// `DashMap::contains_key`.
#[verifier::external_body]
pub fn versions_contains(m: &DashMap<String, VersionedValue>, id: &str) -> (r: bool)
    ensures
        r == versions_of(*m).contains_key(id@),
{
    m.contains_key(id)
}

/// `DashMap::len`: the number of entries.
#[verifier::external_body]
pub fn versions_len(m: &DashMap<String, VersionedValue>) -> (r: usize)
    ensures
        has_size(versions_of(*m), r as nat),
{
    m.len()
}

/// `DashMap::clear`: no entries are left.
#[verifier::external_body]
pub fn versions_clear(m: &mut DashMap<String, VersionedValue>)
    ensures
        has_size(versions_of(*final(m)), 0),
{
    m.clear();
}

/// `DashMap::iter`, collected: every entry once, in the map's iteration order.
#[verifier::external_body]
pub fn versions_entries(m: &DashMap<String, VersionedValue>) -> (r: Vec<(String, VersionedValue)>)
    ensures
        has_size(versions_of(*m), r@.len()),
        forall|i: int| 0 <= i < r@.len() ==> versions_of(*m).contains_key((#[trigger] r@[i]).0@)
            && versions_of(*m)[r@[i].0@] == r@[i].1,
        forall|i: int, j: int| 0 <= i < j < r@.len() ==> (#[trigger] r@[i]).0@ != (#[trigger] r@[j]).0@,
        forall|k: Seq<char>| versions_of(*m).contains_key(k) ==> exists|i: int| 0 <= i < r@.len() && (#[trigger] r@[i]).0@ == k,
{
    m.iter().map(|e| (e.key().clone(), e.value().clone())).collect()
}

// ---------------------------------------------------------------------------
// Distinction ID → chronicle index entry maps
// ---------------------------------------------------------------------------

/// The entries of a chronicle index, by ID text.
pub uninterp spec fn index_of(m: DashMap<String, IndexEntry>) -> Map<Seq<char>, IndexEntry>;

/// `DashMap::with_capacity`: an empty map.
#[verifier::external_body]
pub fn index_with_capacity(capacity: usize) -> (m: DashMap<String, IndexEntry>)
    ensures
        has_size(index_of(m), 0),
{
    DashMap::with_capacity(capacity)
}

/// `DashMap::get`, cloning the entry stored under `id`.
#[verifier::external_body]
pub fn index_get(m: &DashMap<String, IndexEntry>, id: &str) -> (r: Option<IndexEntry>)
    ensures
        match r {
            Some(v) => index_of(*m).contains_key(id@) && v == index_of(*m)[id@],
            None => !index_of(*m).contains_key(id@),
        },
{
    m.get(id).map(|e| e.value().clone())
}

/// `DashMap::insert`: `id` now maps to `v`.
#[verifier::external_body]
pub fn index_insert(m: &mut DashMap<String, IndexEntry>, id: String, v: IndexEntry)
    ensures
        index_of(*final(m)) == index_of(*old(m)).insert(id@, v),
{
    m.insert(id, v);
}

/// `DashMap::remove`: `id` no longer maps to anything.
#[verifier::external_body]
pub fn index_remove(m: &mut DashMap<String, IndexEntry>, id: &str)
    ensures
        index_of(*final(m)) == index_of(*old(m)).remove(id@),
{
    m.remove(id);
}

/// `DashMap::len`: the number of entries.
#[verifier::external_body]
pub fn index_len(m: &DashMap<String, IndexEntry>) -> (r: usize)
    ensures
        has_size(index_of(*m), r as nat),
{
    m.len()
}

/// `DashMap::iter`, collected: every entry once, in the map's iteration order.
#[verifier::external_body]
pub fn index_entries(m: &DashMap<String, IndexEntry>) -> (r: Vec<(String, IndexEntry)>)
    ensures
        has_size(index_of(*m), r@.len()),
        forall|i: int| 0 <= i < r@.len() ==> index_of(*m).contains_key((#[trigger] r@[i]).0@)
            && index_of(*m)[r@[i].0@] == r@[i].1,
        forall|i: int, j: int| 0 <= i < j < r@.len() ==> (#[trigger] r@[i]).0@ != (#[trigger] r@[j]).0@,
        forall|k: Seq<char>| index_of(*m).contains_key(k) ==> exists|i: int| 0 <= i < r@.len() && (#[trigger] r@[i]).0@ == k,
{
    m.iter().map(|e| (e.key().clone(), e.value().clone())).collect()
}

// ---------------------------------------------------------------------------
// Epoch number → epoch maps
// ---------------------------------------------------------------------------

/// The epochs of an archive, by number.
pub uninterp spec fn epochs_of(m: DashMap<usize, Epoch>) -> Map<usize, Epoch>;

/// `DashMap::new`: an empty map.
#[verifier::external_body]
pub fn epochs_new() -> (m: DashMap<usize, Epoch>)
    ensures
        has_size(epochs_of(m), 0),
{
    DashMap::new()
}

/// `DashMap::get`, cloning the epoch stored under `n`.
#[verifier::external_body]
pub fn epochs_get(m: &DashMap<usize, Epoch>, n: usize) -> (r: Option<Epoch>)
    ensures
        match r {
            Some(e) => epochs_of(*m).contains_key(n) && e == epochs_of(*m)[n],
            None => !epochs_of(*m).contains_key(n),
        },
{
    m.get(&n).map(|e| e.value().clone())
}

/// `DashMap::insert`: `n` now maps to `e`.
#[verifier::external_body]
pub fn epochs_insert(m: &mut DashMap<usize, Epoch>, n: usize, e: Epoch)
    ensures
        epochs_of(*final(m)) == epochs_of(*old(m)).insert(n, e),
{
    m.insert(n, e);
}

/// `DashMap::remove`: `n` no longer maps to anything.
#[verifier::external_body]
pub fn epochs_remove(m: &mut DashMap<usize, Epoch>, n: usize)
    ensures
        epochs_of(*final(m)) == epochs_of(*old(m)).remove(n),
{
    m.remove(&n);
}

/// `DashMap::contains_key`.
#[verifier::external_body]
pub fn epochs_contains(m: &DashMap<usize, Epoch>, n: usize) -> (r: bool)
    ensures
        r == epochs_of(*m).contains_key(n),
{
    m.contains_key(&n)
}

/// `DashMap::len`: the number of entries.
#[verifier::external_body]
pub fn epochs_len(m: &DashMap<usize, Epoch>) -> (r: usize)
    ensures
        has_size(epochs_of(*m), r as nat),
{
    m.len()
}

// ---------------------------------------------------------------------------
// Genome maps
// ---------------------------------------------------------------------------

/// The genomes stored, by ID text.
pub uninterp spec fn genomes_of(m: DashMap<String, Genome>) -> Map<Seq<char>, Genome>;

/// `DashMap::new`: an empty map.
#[verifier::external_body]
pub fn genomes_new() -> (m: DashMap<String, Genome>)
    ensures
        has_size(genomes_of(m), 0),
{
    DashMap::new()
}

/// `DashMap::get`, cloning the genome stored under `id`.
#[verifier::external_body]
pub fn genomes_get(m: &DashMap<String, Genome>, id: &str) -> (r: Option<Genome>)
    ensures
        match r {
            Some(g) => genomes_of(*m).contains_key(id@) && g == genomes_of(*m)[id@],
            None => !genomes_of(*m).contains_key(id@),
        },
{
    m.get(id).map(|e| e.value().clone())
}

/// `DashMap::insert`: `id` now maps to `g`.
#[verifier::external_body]
pub fn genomes_insert(m: &mut DashMap<String, Genome>, id: String, g: Genome)
    ensures
        genomes_of(*final(m)) == genomes_of(*old(m)).insert(id@, g),
{
    m.insert(id, g);
}

/// `DashMap::remove`: `id` no longer maps to anything.
#[verifier::external_body]
pub fn genomes_remove(m: &mut DashMap<String, Genome>, id: &str)
    ensures
        genomes_of(*final(m)) == genomes_of(*old(m)).remove(id@),
{
    m.remove(id);
}

/// `DashMap::len`: the number of entries.
#[verifier::external_body]
pub fn genomes_len(m: &DashMap<String, Genome>) -> (r: usize)
    ensures
        has_size(genomes_of(*m), r as nat),
{
    m.len()
}

/// `DashMap::iter`, collected: every entry once, in the map's iteration order.
#[verifier::external_body]
pub fn genomes_entries(m: &DashMap<String, Genome>) -> (r: Vec<(String, Genome)>)
    ensures
        has_size(genomes_of(*m), r@.len()),
        forall|i: int| 0 <= i < r@.len() ==> genomes_of(*m).contains_key((#[trigger] r@[i]).0@)
            && genomes_of(*m)[r@[i].0@] == r@[i].1,
        forall|i: int, j: int| 0 <= i < j < r@.len() ==> (#[trigger] r@[i]).0@ != (#[trigger] r@[j]).0@,
        forall|k: Seq<char>| genomes_of(*m).contains_key(k) ==> exists|i: int| 0 <= i < r@.len() && (#[trigger] r@[i]).0@ == k,
{
    m.iter().map(|e| (e.key().clone(), e.value().clone())).collect()
}

// ---------------------------------------------------------------------------
// Archived epoch maps
// ---------------------------------------------------------------------------

/// The archived epochs, by ID text.
pub uninterp spec fn archived_of(m: DashMap<String, ArchivedEpoch>) -> Map<Seq<char>, ArchivedEpoch>;

/// `DashMap::new`: an empty map.
#[verifier::external_body]
pub fn archived_new() -> (m: DashMap<String, ArchivedEpoch>)
    ensures
        has_size(archived_of(m), 0),
{
    DashMap::new()
}

/// `DashMap::insert`: `id` now maps to `e`.
#[verifier::external_body]
pub fn archived_insert(m: &mut DashMap<String, ArchivedEpoch>, id: String, e: ArchivedEpoch)
    ensures
        archived_of(*final(m)) == archived_of(*old(m)).insert(id@, e),
{
    m.insert(id, e);
}

/// `DashMap::len`: the number of entries.
#[verifier::external_body]
pub fn archived_len(m: &DashMap<String, ArchivedEpoch>) -> (r: usize)
    ensures
        has_size(archived_of(*m), r as nat),
{
    m.len()
}

/// `DashMap::iter`, collected: every entry once, in the map's iteration order.
#[verifier::external_body]
pub fn archived_entries(m: &DashMap<String, ArchivedEpoch>) -> (r: Vec<(String, ArchivedEpoch)>)
    ensures
        has_size(archived_of(*m), r@.len()),
        forall|i: int| 0 <= i < r@.len() ==> archived_of(*m).contains_key((#[trigger] r@[i]).0@)
            && archived_of(*m)[r@[i].0@] == r@[i].1,
        forall|i: int, j: int| 0 <= i < j < r@.len() ==> (#[trigger] r@[i]).0@ != (#[trigger] r@[j]).0@,
        forall|k: Seq<char>| archived_of(*m).contains_key(k) ==> exists|i: int| 0 <= i < r@.len() && (#[trigger] r@[i]).0@ == k,
{
    m.iter().map(|e| (e.key().clone(), e.value().clone())).collect()
}

} // verus!
