//! A type-erased store handle.
//!
//! [`DynStore`] lets the service core hold one store field whose concrete
//! backend is chosen at construction time: it owns an `Arc<dyn DynBackend>`,
//! an object-safe view that every [`KvBackend`] provides automatically.

use std::sync::Arc;
use vstd::prelude::*;

use crate::store::backend::{entries_view, ops_value, presence, read_view, scan_shaped, scan_view, Entry, KvBackend, OpValue, WriteBatch};
use crate::store::domain::Domain;
use crate::store::error::{Result, StoreError};
use crate::store::store::{single_delete, single_put};

verus! {

/// An object-safe view of a backend.
///
/// This is implemented for every [`KvBackend`] by the blanket impl below; it
/// exists to be used as `dyn DynBackend`.
pub trait DynBackend {
    /// See [`KvBackend::read_gives`].
    spec fn dyn_read_gives(&self, domain: Domain, key: Seq<u8>, r: Result<Option<Seq<u8>>, StoreError>) -> bool;

    /// See [`KvBackend::scan_gives`].
    spec fn dyn_scan_gives(&self, domain: Domain, prefix: Seq<u8>, r: Result<Seq<(Seq<u8>, Seq<u8>)>, StoreError>) -> bool;

    /// See [`KvBackend::commit_gives`].
    spec fn dyn_commit_gives(&self, ops: Seq<OpValue>, r: Result<()>) -> bool;

    /// See [`KvBackend::get`].
    fn get(&self, domain: Domain, key: &[u8]) -> (r: Result<Option<Vec<u8>>>)
        ensures
            self.dyn_read_gives(domain, key@, read_view(r)),
    ;

    /// See [`KvBackend::contains`].
    fn contains(&self, domain: Domain, key: &[u8]) -> (r: Result<bool>)
        ensures
            exists|g: Result<Option<Seq<u8>>, StoreError>| #[trigger] self.dyn_read_gives(domain, key@, g) && r == presence(g),
    ;

    /// See [`KvBackend::prefix_scan`].
    fn prefix_scan(&self, domain: Domain, prefix: &[u8]) -> (r: Result<Vec<Entry<Vec<u8>>>>)
        ensures
            self.dyn_scan_gives(domain, prefix@, scan_view(r)),
            r matches Ok(es) ==> scan_shaped(entries_view(es@), prefix@),
    ;

    /// See [`KvBackend::commit`].
    fn commit(&self, batch: WriteBatch) -> (r: Result<()>)
        ensures
            self.dyn_commit_gives(ops_value(batch@), r),
    ;
}

impl<B: KvBackend> DynBackend for B {
    open spec fn dyn_read_gives(&self, domain: Domain, key: Seq<u8>, r: Result<Option<Seq<u8>>, StoreError>) -> bool {
        self.read_gives(domain, key, r)
    }

    open spec fn dyn_scan_gives(&self, domain: Domain, prefix: Seq<u8>, r: Result<Seq<(Seq<u8>, Seq<u8>)>, StoreError>) -> bool {
        self.scan_gives(domain, prefix, r)
    }

    open spec fn dyn_commit_gives(&self, ops: Seq<OpValue>, r: Result<()>) -> bool {
        self.commit_gives(ops, r)
    }

    fn get(&self, domain: Domain, key: &[u8]) -> Result<Option<Vec<u8>>> {
        KvBackend::get(self, domain, key)
    }

    fn contains(&self, domain: Domain, key: &[u8]) -> Result<bool> {
        let r = KvBackend::contains(self, domain, key);
        proof {
            let g = choose|g: Result<Option<Seq<u8>>, StoreError>| #[trigger] self.read_gives(domain, key@, g) && r == presence(g);
            assert(self.dyn_read_gives(domain, key@, g));
        }
        r
    }

    fn prefix_scan(&self, domain: Domain, prefix: &[u8]) -> (r: Result<Vec<Entry<Vec<u8>>>>) {
        KvBackend::prefix_scan(self, domain, prefix)
    }

    fn commit(&self, batch: WriteBatch) -> Result<()> {
        KvBackend::commit(self, batch)
    }
}

/// A shared handle to a backend whose concrete type has been erased.
pub struct ErasedBackend {
    inner: Arc<dyn DynBackend>,
}

impl ErasedBackend {
    /// Whether `r` is a result a read through this handle can give.
    pub closed spec fn read_gives(&self, domain: Domain, key: Seq<u8>, r: Result<Option<Seq<u8>>, StoreError>) -> bool {
        (*self.inner).dyn_read_gives(domain, key, r)
    }

    /// Whether `r` is a result a scan through this handle can give.
    pub closed spec fn scan_gives(&self, domain: Domain, prefix: Seq<u8>, r: Result<Seq<(Seq<u8>, Seq<u8>)>, StoreError>) -> bool {
        (*self.inner).dyn_scan_gives(domain, prefix, r)
    }

    /// Whether `r` is a result a commit of `ops` through this handle can give.
    pub closed spec fn commit_gives(&self, ops: Seq<OpValue>, r: Result<()>) -> bool {
        (*self.inner).dyn_commit_gives(ops, r)
    }

    /// Erase a concrete backend: `Arc::new`, coerced to the trait object (a
    /// coercion Verus does not support, so the body is not verified). The
    /// handle gives what the backend gives.
    #[verifier::external_body]
    fn erase<B: KvBackend + 'static>(backend: B) -> (r: Self)
        ensures
            forall|d: Domain, k: Seq<u8>, g: Result<Option<Seq<u8>>, StoreError>|
                #[trigger] r.read_gives(d, k, g) == backend.read_gives(d, k, g),
            forall|ops: Seq<OpValue>, g: Result<()>| #[trigger] r.commit_gives(ops, g) == backend.commit_gives(ops, g),
            forall|d: Domain, p: Seq<u8>, g: Result<Seq<(Seq<u8>, Seq<u8>)>, StoreError>|
                #[trigger] r.scan_gives(d, p, g) == backend.scan_gives(d, p, g),
    {
        ErasedBackend { inner: Arc::new(backend) }
    }

    /// Another handle to the same backend: `Arc::clone` (a trait-object
    /// coercion Verus does not support, so the body is not verified).
    #[verifier::external_body]
    fn share(&self) -> (r: Self)
        ensures
            forall|d: Domain, k: Seq<u8>, g: Result<Option<Seq<u8>>, StoreError>|
                #[trigger] r.read_gives(d, k, g) == self.read_gives(d, k, g),
            forall|ops: Seq<OpValue>, g: Result<()>| #[trigger] r.commit_gives(ops, g) == self.commit_gives(ops, g),
            forall|d: Domain, p: Seq<u8>, g: Result<Seq<(Seq<u8>, Seq<u8>)>, StoreError>|
                #[trigger] r.scan_gives(d, p, g) == self.scan_gives(d, p, g),
    {
        ErasedBackend { inner: Arc::clone(&self.inner) }
    }

    /// The backend behind the handle.
    fn backend(&self) -> (r: &Arc<dyn DynBackend>)
        ensures
            *r == self.inner,
    {
        &self.inner
    }
}

/// A cloneable, backend-agnostic store handle. Cloning shares the backend.
pub struct DynStore {
    backend: ErasedBackend,
}

impl Clone for DynStore {
    fn clone(&self) -> (r: Self)
        ensures
            forall|d: Domain, k: Seq<u8>, g: Result<Option<Seq<u8>>, StoreError>|
                #[trigger] r.read_gives(d, k, g) == self.read_gives(d, k, g),
            forall|ops: Seq<OpValue>, g: Result<()>| #[trigger] r.commit_gives(ops, g) == self.commit_gives(ops, g),
            forall|d: Domain, p: Seq<u8>, g: Result<Seq<(Seq<u8>, Seq<u8>)>, StoreError>|
                #[trigger] r.scan_gives(d, p, g) == self.scan_gives(d, p, g),
    {
        DynStore { backend: self.backend.share() }
    }
}

impl DynStore {
    /// Whether `r` is a result a read of `key` in `domain` through this store
    /// can give: one its backend's read can give.
    pub closed spec fn read_gives(&self, domain: Domain, key: Seq<u8>, r: Result<Option<Seq<u8>>, StoreError>) -> bool {
        self.backend.read_gives(domain, key, r)
    }

    /// Whether `r` is a result a prefix scan of `domain` under `prefix`
    /// through this store can give: one its backend's scan can give.
    pub closed spec fn scan_gives(&self, domain: Domain, prefix: Seq<u8>, r: Result<Seq<(Seq<u8>, Seq<u8>)>, StoreError>) -> bool {
        self.backend.scan_gives(domain, prefix, r)
    }

    /// Whether `r` is a result a commit of `ops` through this store can give:
    /// one its backend's commit can give.
    pub closed spec fn commit_gives(&self, ops: Seq<OpValue>, r: Result<()>) -> bool {
        self.backend.commit_gives(ops, r)
    }

    /// Erase a concrete backend into a `DynStore`, which gives what the
    /// backend gives.
    pub fn new<B: KvBackend + 'static>(backend: B) -> (r: Self)
        ensures
            forall|d: Domain, k: Seq<u8>, g: Result<Option<Seq<u8>>, StoreError>|
                #[trigger] r.read_gives(d, k, g) == backend.read_gives(d, k, g),
            forall|ops: Seq<OpValue>, g: Result<()>| #[trigger] r.commit_gives(ops, g) == backend.commit_gives(ops, g),
            forall|d: Domain, p: Seq<u8>, g: Result<Seq<(Seq<u8>, Seq<u8>)>, StoreError>|
                #[trigger] r.scan_gives(d, p, g) == backend.scan_gives(d, p, g),
    {
        let ghost b = backend;
        let r = DynStore { backend: ErasedBackend::erase(backend) };
        proof {
            assert forall|d: Domain, k: Seq<u8>, g: Result<Option<Seq<u8>>, StoreError>|
                #[trigger] r.read_gives(d, k, g) == b.read_gives(d, k, g) by {
                assert(r.backend.read_gives(d, k, g) == b.read_gives(d, k, g));
            }
            assert forall|ops: Seq<OpValue>, g: Result<()>| #[trigger] r.commit_gives(ops, g) == b.commit_gives(ops, g) by {
                assert(r.backend.commit_gives(ops, g) == b.commit_gives(ops, g));
            }
            assert forall|d: Domain, p: Seq<u8>, g: Result<Seq<(Seq<u8>, Seq<u8>)>, StoreError>|
                #[trigger] r.scan_gives(d, p, g) == b.scan_gives(d, p, g) by {
                assert(r.backend.scan_gives(d, p, g) == b.scan_gives(d, p, g));
            }
        }
        r
    }

    /// Wrap an already-erased backend handle, which then gives what that
    /// backend gives. The move of the trait-object handle into the field is a
    /// coercion Verus does not support, so the body is not verified.
    #[verifier::external_body]
    pub fn from_dyn(backend: Arc<dyn DynBackend>) -> (r: Self)
        ensures
            forall|d: Domain, k: Seq<u8>, g: Result<Option<Seq<u8>>, StoreError>|
                #[trigger] r.read_gives(d, k, g) == (*backend).dyn_read_gives(d, k, g),
            forall|ops: Seq<OpValue>, g: Result<()>| #[trigger] r.commit_gives(ops, g) == (*backend).dyn_commit_gives(ops, g),
            forall|d: Domain, p: Seq<u8>, g: Result<Seq<(Seq<u8>, Seq<u8>)>, StoreError>|
                #[trigger] r.scan_gives(d, p, g) == (*backend).dyn_scan_gives(d, p, g),
    {
        DynStore { backend: ErasedBackend { inner: backend } }
    }

    /// Fetch the value for `key` in `domain`, if present.
    pub fn get(&self, domain: Domain, key: &[u8]) -> (r: Result<Option<Vec<u8>>>)
        ensures
            self.read_gives(domain, key@, read_view(r)),
    {
        self.backend.backend().get(domain, key)
    }

    /// Whether `domain` contains `key`: whether a read of it finds a value.
    pub fn contains(&self, domain: Domain, key: &[u8]) -> (r: Result<bool>)
        ensures
            exists|g: Result<Option<Seq<u8>>, StoreError>| #[trigger] self.read_gives(domain, key@, g) && r == presence(g),
    {
        let r = self.backend.backend().contains(domain, key);
        proof {
            let g = choose|g: Result<Option<Seq<u8>>, StoreError>| #[trigger] (*self.backend.inner).dyn_read_gives(domain, key@, g) && r == presence(g);
            assert(self.read_gives(domain, key@, g));
        }
        r
    }

    /// Snapshot every `(key, value)` in `domain` whose key starts with
    /// `prefix`, ascending.
    pub fn prefix_scan(&self, domain: Domain, prefix: &[u8]) -> (r: Result<Vec<Entry<Vec<u8>>>>)
        ensures
            self.scan_gives(domain, prefix@, scan_view(r)),
            r matches Ok(es) ==> scan_shaped(entries_view(es@), prefix@),
    {
        self.backend.backend().prefix_scan(domain, prefix)
    }

    /// Commit a multi-operation batch atomically.
    pub fn commit(&self, batch: WriteBatch) -> (r: Result<()>)
        ensures
            self.commit_gives(ops_value(batch@), r),
    {
        self.backend.backend().commit(batch)
    }

    /// Put a single `key` → `val` in `domain` as a one-operation atomic commit.
    pub fn put(&self, domain: Domain, key: Vec<u8>, val: Vec<u8>) -> (r: Result<()>)
        ensures
            self.commit_gives(seq![(domain, key@, Some(val@))], r),
    {
        let batch = single_put(domain, key, val);
        proof {
            assert(ops_value(batch@) =~= seq![(domain, key@, Some(val@))]);
        }
        self.commit(batch)
    }

    /// Delete a single `key` from `domain` as a one-operation atomic commit.
    pub fn delete(&self, domain: Domain, key: Vec<u8>) -> (r: Result<()>)
        ensures
            self.commit_gives(seq![(domain, key@, None::<Seq<u8>>)], r),
    {
        let batch = single_delete(domain, key);
        proof {
            assert(ops_value(batch@) =~= seq![(domain, key@, None::<Seq<u8>>)]);
        }
        self.commit(batch)
    }
}

} // verus!
