//! Keys and versioned values shared by the storage layers.

use vstd::prelude::*;

verus! {

/// A fully qualified key: a namespace and a key within it.
#[derive(Debug, Clone, PartialEq, Eq, Hash)]
pub struct FullKey {
    /// The namespace.
    pub namespace: String,
    /// The key within the namespace.
    pub key: String,
}

/// The text of a full key.
pub open spec fn key_view(k: FullKey) -> (Seq<char>, Seq<char>) {
    (k.namespace@, k.key@)
}

impl FullKey {
    /// A key in a namespace.
    pub fn new(namespace: String, key: String) -> (k: Self)
        ensures
            k.namespace == namespace,
            k.key == key,
    {
        FullKey { namespace, key }
    }

    /// A copy of this key.
    pub fn duplicate(&self) -> (k: Self)
        ensures
            key_view(k) == key_view(*self),
    {
        FullKey { namespace: self.namespace.clone(), key: self.key.clone() }
    }
}

/// One version of a value, as the memory layers hold it.
#[derive(Debug, Clone)]
pub struct VersionedValue {
    /// The value, as compact JSON text.
    pub value: String,
    /// When the version was written (nanoseconds, UTC).
    pub timestamp: i64,
    /// Unique ID of the write that produced this version.
    pub write_id: String,
    /// Content hash of the value.
    pub distinction_id: String,
    /// Write ID of the previous version, if any.
    pub previous_version: Option<String>,
}

impl VersionedValue {
    /// A copy of this version.
    pub fn duplicate(&self) -> (v: Self)
        ensures
            v == *self,
    {
        VersionedValue {
            value: self.value.clone(),
            timestamp: self.timestamp,
            write_id: self.write_id.clone(),
            distinction_id: self.distinction_id.clone(),
            previous_version: match &self.previous_version {
                Some(p) => Some(p.clone()),
                None => None,
            },
        }
    }
}

/// The record that a key was deleted.
#[derive(Debug, Clone)]
pub struct Tombstone {
    /// The deleted key.
    pub key: FullKey,
    /// Who deleted it.
    pub deleted_by: String,
    /// When it was deleted (nanoseconds, UTC).
    pub deleted_at: i64,
}

impl Tombstone {
    /// A tombstone for `key`.
    pub fn new(key: FullKey, deleted_by: String, deleted_at: i64) -> (t: Self)
        ensures
            t.key == key,
            t.deleted_by == deleted_by,
            t.deleted_at == deleted_at,
    {
        Tombstone { key, deleted_by, deleted_at }
    }

    /// A copy of this tombstone.
    pub fn duplicate(&self) -> (t: Self)
        ensures
            key_view(t.key) == key_view(self.key),
            t.deleted_by@ == self.deleted_by@,
            t.deleted_at == self.deleted_at,
    {
        Tombstone { key: self.key.duplicate(), deleted_by: self.deleted_by.clone(), deleted_at: self.deleted_at }
    }
}

} // verus!
