//! The backend-agnostic key/value trait, the atomic write batch, and the
//! abstract contents model that every operation is specified against.

use vstd::prelude::*;

use crate::bytes::{has_prefix, seq_lt};
use crate::store::domain::{domain_index, Domain};
use crate::store::error::{Result, StoreError};

verus! {

/// A single `(key, value)` pair yielded by a scan.
pub type Entry<V> = (Vec<u8>, V);

/// A single mutation within a [`WriteBatch`].
#[derive(Clone, Debug, PartialEq, Eq)]
pub enum Op {
    /// Insert or overwrite `key` with `val` in `domain`.
    Put {
        /// Target domain (column family).
        domain: Domain,
        /// Record key.
        key: Vec<u8>,
        /// Record value.
        val: Vec<u8>,
    },
    /// Remove `key` from `domain` if present.
    Delete {
        /// Target domain (column family).
        domain: Domain,
        /// Record key.
        key: Vec<u8>,
    },
}

/// The abstract contents of a store: one key → value map per domain,
/// indexed by the domain's position.
pub type Tables = Seq<Map<Seq<u8>, Seq<u8>>>;

/// A store holding nothing.
pub open spec fn empty_tables() -> Tables {
    Seq::new(15, |i: int| Map::<Seq<u8>, Seq<u8>>::empty())
}

/// Whether `t` has one table per domain.
pub open spec fn tables_shaped(t: Tables) -> bool {
    t.len() == 15
}

/// The effect of one operation on the contents.
pub open spec fn apply_op(t: Tables, op: Op) -> Tables {
    match op {
        Op::Put { domain, key, val } => {
            let i = domain_index(domain);
            t.update(i, t[i].insert(key@, val@))
        },
        Op::Delete { domain, key } => {
            let i = domain_index(domain);
            t.update(i, t[i].remove(key@))
        },
    }
}

/// The effect of a sequence of operations, applied in order.
pub open spec fn apply_ops(t: Tables, ops: Seq<Op>) -> Tables
    decreases ops.len(),
{
    if ops.len() == 0 {
        t
    } else {
        apply_op(apply_ops(t, ops.drop_last()), ops.last())
    }
}

/// The value stored under `key` in `domain`, if any.
pub open spec fn lookup(t: Tables, domain: Domain, key: Seq<u8>) -> Option<Seq<u8>> {
    let m = t[domain_index(domain)];
    if m.contains_key(key) {
        Some(m[key])
    } else {
        None
    }
}

/// The views of a sequence of scanned entries.
pub open spec fn entries_view(es: Seq<Entry<Vec<u8>>>) -> Seq<(Seq<u8>, Seq<u8>)> {
    es.map_values(|e: Entry<Vec<u8>>| (e.0@, e.1@))
}

/// Whether the keys of `es` strictly increase and all begin with `prefix` —
/// the shape of every prefix-scan result.
pub open spec fn scan_shaped(es: Seq<(Seq<u8>, Seq<u8>)>, prefix: Seq<u8>) -> bool {
    &&& forall|i: int, j: int| 0 <= i < j < es.len() ==> seq_lt(#[trigger] es[i].0, #[trigger] es[j].0)
    &&& forall|i: int| 0 <= i < es.len() ==> has_prefix(#[trigger] es[i].0, prefix)
}

/// Whether `es` is exactly the prefix scan of `m`: every entry of `m` whose
/// key begins with `prefix`, in strictly ascending key order.
pub open spec fn is_prefix_scan(
    m: Map<Seq<u8>, Seq<u8>>,
    prefix: Seq<u8>,
    es: Seq<(Seq<u8>, Seq<u8>)>,
) -> bool {
    &&& scan_shaped(es, prefix)
    &&& forall|i: int| 0 <= i < es.len() ==> m.contains_key(#[trigger] es[i].0) && m[es[i].0] == es[i].1
    &&& forall|k: Seq<u8>| #[trigger] m.contains_key(k) && has_prefix(k, prefix) ==> exists|i: int|
        0 <= i < es.len() && #[trigger] es[i].0 == k
}

/// An ordered set of mutations applied to the store atomically.
///
/// A backend applies all operations in a batch or none of them, and a
/// concurrent reader never observes a partial batch.
#[derive(Clone, Debug)]
pub struct WriteBatch {
    ops: Vec<Op>,
}

impl View for WriteBatch {
    type V = Seq<Op>;

    closed spec fn view(&self) -> Seq<Op> {
        self.ops@
    }
}

impl WriteBatch {
    /// Create an empty batch.
    pub fn new() -> (b: Self)
        ensures
            b@ == Seq::<Op>::empty(),
    {
        WriteBatch { ops: Vec::new() }
    }

    /// Queue a put of `key` → `val` in `domain`.
    pub fn put(&mut self, domain: Domain, key: Vec<u8>, val: Vec<u8>) -> (r: &mut Self)
        ensures
            r@ == old(self)@.push(Op::Put { domain, key, val }),
            final(self)@ == final(r)@,
    {
        self.ops.push(Op::Put { domain, key, val });
        self
    }

    /// Queue a delete of `key` from `domain`.
    pub fn delete(&mut self, domain: Domain, key: Vec<u8>) -> (r: &mut Self)
        ensures
            r@ == old(self)@.push(Op::Delete { domain, key }),
            final(self)@ == final(r)@,
    {
        self.ops.push(Op::Delete { domain, key });
        self
    }

    /// The queued operations, in insertion order.
    pub fn ops(&self) -> (r: &[Op])
        ensures
            r@ == self@,
    {
        self.ops.as_slice()
    }

    /// Number of queued operations.
    pub fn len(&self) -> (r: usize)
        ensures
            r == self@.len(),
    {
        self.ops.len()
    }

    /// Whether the batch has no operations.
    pub fn is_empty(&self) -> (r: bool)
        ensures
            r == (self@.len() == 0),
    {
        self.ops.len() == 0
    }
}

/// The value of a read's result.
pub open spec fn read_view(r: Result<Option<Vec<u8>>>) -> Result<Option<Seq<u8>>, StoreError> {
    match r {
        Ok(Some(v)) => Ok(Some(v@)),
        Ok(None) => Ok(None),
        Err(e) => Err(e),
    }
}

/// Whether a read's result found the key, or the read's failure.
pub open spec fn presence(r: Result<Option<Seq<u8>>, StoreError>) -> Result<bool, StoreError> {
    match r {
        Ok(v) => Ok(v is Some),
        Err(e) => Err(e),
    }
}

/// The value of a scan's result: the scanned entries' views, or the failure.
pub open spec fn scan_view(r: Result<Vec<Entry<Vec<u8>>>>) -> Result<Seq<(Seq<u8>, Seq<u8>)>, StoreError> {
    match r {
        Ok(es) => Ok(entries_view(es@)),
        Err(e) => Err(e),
    }
}

/// The value of an operation: its domain, its key, and the value a put
/// writes (`None` for a delete).
pub type OpValue = (Domain, Seq<u8>, Option<Seq<u8>>);

/// The value of an operation.
pub open spec fn op_value(op: Op) -> OpValue {
    match op {
        Op::Put { domain, key, val } => (domain, key@, Some(val@)),
        Op::Delete { domain, key } => (domain, key@, None),
    }
}

/// The values of a sequence of operations.
pub open spec fn ops_value(ops: Seq<Op>) -> Seq<OpValue> {
    ops.map_values(|op: Op| op_value(op))
}

/// A pluggable key/value backend over the fixed set of [`Domain`]s.
///
/// This is the single seam between the service core and the storage engine.
/// Every implementation returns prefix scans in strictly ascending key order,
/// restricted to keys with the requested prefix. What a read or a scan gives
/// back and how a commit ends depend on the contents the backend holds at the time of
/// the call; each implementation says which results it can give, and the
/// handles over a backend give exactly those.
pub trait KvBackend {
    /// Whether `r` is a result this backend's read of `key` in `domain` can
    /// give.
    spec fn read_gives(&self, domain: Domain, key: Seq<u8>, r: Result<Option<Seq<u8>>, StoreError>) -> bool;

    /// Whether `r` is a result this backend's prefix scan of `domain` under
    /// `prefix` can give.
    spec fn scan_gives(&self, domain: Domain, prefix: Seq<u8>, r: Result<Seq<(Seq<u8>, Seq<u8>)>, StoreError>) -> bool;

    /// Whether `r` is a result this backend's commit of `ops` can give.
    spec fn commit_gives(&self, ops: Seq<OpValue>, r: Result<()>) -> bool;

    /// Fetch the value for `key` in `domain`, if present.
    fn get(&self, domain: Domain, key: &[u8]) -> (r: Result<Option<Vec<u8>>>)
        ensures
            self.read_gives(domain, key@, read_view(r)),
    ;

    /// Whether `domain` contains `key`: whether a read of it finds a value.
    fn contains(&self, domain: Domain, key: &[u8]) -> (r: Result<bool>)
        ensures
            exists|g: Result<Option<Seq<u8>>, StoreError>| #[trigger] self.read_gives(domain, key@, g) && r == presence(g),
    {
        let got = self.get(domain, key);
        proof {
            assert(self.read_gives(domain, key@, read_view(got)));
        }
        match got {
            Ok(v) => Ok(v.is_some()),
            Err(e) => Err(e),
        }
    }

    /// Snapshot every `(key, value)` in `domain` whose key starts with
    /// `prefix`, in ascending key order. An empty `prefix` scans the whole
    /// domain.
    fn prefix_scan(&self, domain: Domain, prefix: &[u8]) -> (r: Result<Vec<Entry<Vec<u8>>>>)
        ensures
            self.scan_gives(domain, prefix@, scan_view(r)),
            r matches Ok(es) ==> scan_shaped(entries_view(es@), prefix@),
    ;

    /// Apply `batch` atomically: all operations commit, or none do.
    fn commit(&self, batch: WriteBatch) -> (r: Result<()>)
        ensures
            self.commit_gives(ops_value(batch@), r),
    ;
}

} // verus!
