//! The [`Store`] facade over a [`KvBackend`].

use std::sync::Arc;
use vstd::prelude::*;

use crate::store::backend::{entries_view, ops_value, presence, read_view, scan_shaped, scan_view, Entry, KvBackend, Op, WriteBatch};
use crate::store::domain::Domain;
use crate::store::error::{Result, StoreError};

verus! {

/// An ergonomic, cloneable handle to a storage backend.
///
/// `Store` adds convenience helpers over the raw [`KvBackend`] trait
/// (single-key put/delete that commit a one-op atomic batch) while preserving
/// the batch API for multi-domain commits. Cloning a `Store` shares the
/// backend.
#[derive(Clone)]
pub struct Store<B: KvBackend> {
    backend: Arc<B>,
}

impl<B: KvBackend> Store<B> {
    /// Wrap an owned backend.
    pub fn new(backend: B) -> (s: Self)
        ensures
            *s.backend_ref() == backend,
    {
        Store { backend: Arc::new(backend) }
    }

    /// Wrap a shared backend handle.
    pub fn from_arc(backend: Arc<B>) -> (s: Self)
        ensures
            s.backend_ref() == backend,
    {
        Store { backend }
    }

    /// The backend this store forwards to.
    pub closed spec fn backend_ref(&self) -> Arc<B> {
        self.backend
    }

    /// Borrow the underlying backend handle.
    pub fn backend(&self) -> (r: &Arc<B>)
        ensures
            *r == self.backend_ref(),
    {
        &self.backend
    }

    /// Fetch the value for `key` in `domain`, if present: what the
    /// backend's read gives.
    pub fn get(&self, domain: Domain, key: &[u8]) -> (r: Result<Option<Vec<u8>>>)
        ensures
            (*self.backend_ref()).read_gives(domain, key@, read_view(r)),
    {
        self.backend.get(domain, key)
    }

    /// Whether `domain` contains `key`: whether the backend's read of it
    /// finds a value.
    pub fn contains(&self, domain: Domain, key: &[u8]) -> (r: Result<bool>)
        ensures
            exists|g: Result<Option<Seq<u8>>, StoreError>| #[trigger] (*self.backend_ref()).read_gives(domain, key@, g)
                && r == presence(g),
    {
        let r = self.backend.contains(domain, key);
        proof {
            let g = choose|g: Result<Option<Seq<u8>>, StoreError>| #[trigger] (*self.backend).read_gives(domain, key@, g) && r == presence(g);
            assert((*self.backend_ref()).read_gives(domain, key@, g));
        }
        r
    }

    /// Snapshot every `(key, value)` in `domain` whose key starts with
    /// `prefix`, ascending: what the backend's scan gives.
    pub fn prefix_scan(&self, domain: Domain, prefix: &[u8]) -> (r: Result<Vec<Entry<Vec<u8>>>>)
        ensures
            (*self.backend_ref()).scan_gives(domain, prefix@, scan_view(r)),
            r matches Ok(es) ==> scan_shaped(entries_view(es@), prefix@),
    {
        self.backend.prefix_scan(domain, prefix)
    }

    /// Commit a multi-operation batch atomically: what the backend's commit
    /// of its operations gives.
    pub fn commit(&self, batch: WriteBatch) -> (r: Result<()>)
        ensures
            (*self.backend_ref()).commit_gives(ops_value(batch@), r),
    {
        self.backend.commit(batch)
    }

    /// Put a single `key` → `val` in `domain` as a one-operation atomic commit.
    pub fn put(&self, domain: Domain, key: Vec<u8>, val: Vec<u8>) -> (r: Result<()>)
        ensures
            (*self.backend_ref()).commit_gives(seq![(domain, key@, Some(val@))], r),
    {
        let batch = single_put(domain, key, val);
        proof {
            assert(ops_value(batch@) =~= seq![(domain, key@, Some(val@))]);
        }
        self.commit(batch)
    }

    /// Delete a single `key` from `domain` as a one-operation atomic commit.
    pub fn delete(&self, domain: Domain, key: Vec<u8>) -> (r: Result<()>)
        ensures
            (*self.backend_ref()).commit_gives(seq![(domain, key@, None::<Seq<u8>>)], r),
    {
        let batch = single_delete(domain, key);
        proof {
            assert(ops_value(batch@) =~= seq![(domain, key@, None::<Seq<u8>>)]);
        }
        self.commit(batch)
    }
}

/// The one-operation batch that puts `key` → `val` in `domain`.
pub fn single_put(domain: Domain, key: Vec<u8>, val: Vec<u8>) -> (b: WriteBatch)
    ensures
        b@ == seq![Op::Put { domain, key, val }],
{
    let mut batch = WriteBatch::new();
    batch.put(domain, key, val);
    batch
}

/// The one-operation batch that deletes `key` from `domain`.
pub fn single_delete(domain: Domain, key: Vec<u8>) -> (b: WriteBatch)
    ensures
        b@ == seq![Op::Delete { domain, key }],
{
    let mut batch = WriteBatch::new();
    batch.delete(domain, key);
    batch
}

} // verus!
