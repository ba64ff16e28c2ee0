//! An in-memory reference backend.
//!
//! [`MemBackend`] is a complete implementation of [`KvBackend`] backed by one
//! sorted table per [`Domain`] (each column family and each hosted keyspace
//! apart) under a single reader-writer lock. It exercises
//! the abstraction in tests and tooling and serves as the executable
//! specification a production backend must match.

use std::sync::Arc;
use vstd::prelude::*;
use vstd::rwlock::{RwLock, RwLockPredicate};

use crate::store::backend::{entries_view, is_prefix_scan, lookup, scan_shaped, tables_shaped, Entry, KvBackend, OpValue, Tables, WriteBatch};
use crate::store::domain::{domain_index, Domain};
use crate::store::error::{Result, StoreError};
use crate::store::tables::MemTables;

verus! {

/// The lock invariant: the shared tables are always well formed.
pub struct WellFormedTables;

impl RwLockPredicate<MemTables> for WellFormedTables {
    open spec fn inv(self, v: MemTables) -> bool {
        v.wf()
    }
}

/// In-memory [`KvBackend`] reference implementation.
///
/// Cloning shares the underlying store, matching how a real backend handle is
/// shared across the server.
#[derive(Clone)]
pub struct MemBackend {
    trees: Arc<RwLock<MemTables, WellFormedTables>>,
}

impl MemBackend {
    /// Create an empty in-memory backend.
    pub fn new() -> Self {
        let tables = MemTables::new();
        MemBackend { trees: Arc::new(RwLock::new(tables, Ghost(WellFormedTables))) }
    }
}

// The tables behind the lock change through `&self`, so the results below
// are stated over some well-formed tables: which tables a call sees (those
// the last commit left) is not stated, since tying them to the lock's
// contents takes tracked ghost state. What a read, scan or commit does to
// given tables is stated exactly by `MemTables`.
impl KvBackend for MemBackend {
    /// A read succeeds with what the tables held under the key when it ran.
    open spec fn read_gives(&self, domain: Domain, key: Seq<u8>, r: Result<Option<Seq<u8>>, StoreError>) -> bool {
        r matches Ok(v) && exists|t: Tables| #[trigger] tables_shaped(t) && v == lookup(t, domain, key)
    }

    /// A scan succeeds with exactly the entries under the prefix that the
    /// domain's table held when it ran.
    open spec fn scan_gives(&self, domain: Domain, prefix: Seq<u8>, r: Result<Seq<(Seq<u8>, Seq<u8>)>, StoreError>) -> bool {
        r matches Ok(es) && exists|t: Tables| #[trigger] tables_shaped(t) && is_prefix_scan(t[domain_index(domain)], prefix, es)
    }

    /// A commit always succeeds.
    open spec fn commit_gives(&self, ops: Seq<OpValue>, r: Result<()>) -> bool {
        r is Ok
    }

    fn get(&self, domain: Domain, key: &[u8]) -> (r: Result<Option<Vec<u8>>>)
        ensures
            r is Ok,
    {
        let handle = self.trees.acquire_read();
        let tables = handle.borrow();
        let found = tables.get(domain, key);
        proof {
            tables.lemma_shaped();
        }
        handle.release_read();
        Ok(found)
    }

    fn prefix_scan(&self, domain: Domain, prefix: &[u8]) -> (r: Result<Vec<Entry<Vec<u8>>>>)
        ensures
            r is Ok,
    {
        let handle = self.trees.acquire_read();
        let tables = handle.borrow();
        let hits = tables.prefix_scan(domain, prefix);
        proof {
            tables.lemma_shaped();
        }
        handle.release_read();
        Ok(hits)
    }

    fn commit(&self, batch: WriteBatch) -> (r: Result<()>)
        ensures
            r is Ok,
    {
        let (mut tables, handle) = self.trees.acquire_write();
        tables.apply(&batch);
        proof {
            use_type_invariant(&tables);
        }
        handle.release_write(tables);
        Ok(())
    }
}

} // verus!
