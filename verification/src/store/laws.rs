//! Laws of the storage model: what a read gives back of a write, isolation
//! of keys and domains, and the meaning of an atomic batch.

use vstd::prelude::*;

use crate::bytes::{lemma_seq_lt_asymmetric, lemma_seq_lt_irreflexive, lemma_seq_lt_transitive, seq_lt};
use crate::store::backend::{
    apply_op, apply_ops, empty_tables, is_prefix_scan, lookup, tables_shaped, Op, Tables,
};
use crate::store::domain::{domain_index, Domain};

verus! {

/// The domain and key an operation writes.
pub open spec fn op_target(op: Op) -> (Domain, Seq<u8>) {
    match op {
        Op::Put { domain, key, .. } => (domain, key@),
        Op::Delete { domain, key } => (domain, key@),
    }
}

/// An empty store holds nothing.
pub proof fn lemma_empty_holds_nothing(domain: Domain, key: Seq<u8>)
    ensures
        lookup(empty_tables(), domain, key) is None,
{
}

/// Applying operations keeps one table per domain.
pub proof fn lemma_apply_keeps_shape(t: Tables, ops: Seq<Op>)
    requires
        tables_shaped(t),
    ensures
        tables_shaped(apply_ops(t, ops)),
    decreases ops.len(),
{
    if ops.len() > 0 {
        lemma_apply_keeps_shape(t, ops.drop_last());
    }
}

/// A read after a put of `key` → `val` in `domain` gives back `val`.
pub proof fn lemma_put_then_get(t: Tables, domain: Domain, key: Vec<u8>, val: Vec<u8>)
    requires
        tables_shaped(t),
    ensures
        lookup(apply_op(t, Op::Put { domain, key, val }), domain, key@) == Some(val@),
{
}

/// A read after a delete of `key` in `domain` finds nothing.
pub proof fn lemma_delete_then_get(t: Tables, domain: Domain, key: Vec<u8>)
    requires
        tables_shaped(t),
    ensures
        lookup(apply_op(t, Op::Delete { domain, key }), domain, key@) is None,
{
}

/// An operation leaves every other key of every domain — and every key of
/// every other domain — as it was.
pub proof fn lemma_op_isolated(t: Tables, op: Op, domain: Domain, key: Seq<u8>)
    requires
        tables_shaped(t),
        op_target(op) != (domain, key),
    ensures
        lookup(apply_op(t, op), domain, key) == lookup(t, domain, key),
{
    match op {
        Op::Put { domain: d, key: k, val } => {
            if d != domain {
                assert(domain_index(d) != domain_index(domain));
            }
        },
        Op::Delete { domain: d, key: k } => {
            if d != domain {
                assert(domain_index(d) != domain_index(domain));
            }
        },
    }
}

/// Committing a batch is applying its operations one after another: a batch
/// made of `a` followed by `b` leaves the same contents as committing `a`,
/// then `b`.
pub proof fn lemma_batch_sequential(t: Tables, a: Seq<Op>, b: Seq<Op>)
    ensures
        apply_ops(t, a + b) == apply_ops(apply_ops(t, a), b),
    decreases b.len(),
{
    if b.len() == 0 {
        assert(a + b =~= a);
    } else {
        assert((a + b).drop_last() =~= a + b.drop_last());
        assert((a + b).last() == b.last());
        lemma_batch_sequential(t, a, b.drop_last());
    }
}

/// Whether the keys of `es` strictly increase.
pub open spec fn keys_increase(es: Seq<(Seq<u8>, Seq<u8>)>) -> bool {
    forall|i: int, j: int| 0 <= i < j < es.len() ==> seq_lt(#[trigger] es[i].0, #[trigger] es[j].0)
}

proof fn lemma_sorted_same_elements(a: Seq<(Seq<u8>, Seq<u8>)>, b: Seq<(Seq<u8>, Seq<u8>)>)
    requires
        keys_increase(a),
        keys_increase(b),
        forall|x: (Seq<u8>, Seq<u8>)| a.contains(x) <==> b.contains(x),
    ensures
        a == b,
    decreases a.len() + b.len(),
{
    if a.len() == 0 {
        if b.len() > 0 {
            assert(b.contains(b[0]));
        }
        assert(a =~= b);
    } else if b.len() == 0 {
        assert(a.contains(a[0]));
    } else {
        assert(a.contains(a[0]));
        let j = choose|j: int| 0 <= j < b.len() && b[j] == a[0];
        assert(b.contains(b[0]));
        let i = choose|i: int| 0 <= i < a.len() && a[i] == b[0];
        if j > 0 {
            assert(seq_lt(b[0].0, b[j].0));
            if i > 0 {
                assert(seq_lt(a[0].0, a[i].0));
                lemma_seq_lt_asymmetric(b[0].0, a[0].0);
            } else {
                lemma_seq_lt_irreflexive(a[0].0);
            }
        }
        assert(a[0] == b[0]);
        let a1 = a.drop_first();
        let b1 = b.drop_first();
        assert forall|x: (Seq<u8>, Seq<u8>)| a1.contains(x) <==> b1.contains(x) by {
            if a1.contains(x) {
                let p = choose|p: int| 0 <= p < a1.len() && a1[p] == x;
                assert(a.contains(x));
                let q = choose|q: int| 0 <= q < b.len() && b[q] == x;
                if q == 0 {
                    assert(a[p + 1] == a[0]);
                    assert(seq_lt(a[0].0, a[p + 1].0));
                    lemma_seq_lt_irreflexive(a[0].0);
                }
                assert(b1[q - 1] == x);
            }
            if b1.contains(x) {
                let p = choose|p: int| 0 <= p < b1.len() && b1[p] == x;
                assert(b.contains(x));
                let q = choose|q: int| 0 <= q < a.len() && a[q] == x;
                if q == 0 {
                    assert(b[p + 1] == b[0]);
                    assert(seq_lt(b[0].0, b[p + 1].0));
                    lemma_seq_lt_irreflexive(b[0].0);
                }
                assert(a1[q - 1] == x);
            }
        }
        lemma_sorted_same_elements(a1, b1);
        assert(a =~= seq![a[0]] + a1);
        assert(b =~= seq![b[0]] + b1);
    }
}

/// A prefix scan is determined by the contents: any two results that meet
/// the scan specification over the same table and prefix are equal.
pub proof fn lemma_prefix_scan_unique(
    m: Map<Seq<u8>, Seq<u8>>,
    prefix: Seq<u8>,
    a: Seq<(Seq<u8>, Seq<u8>)>,
    b: Seq<(Seq<u8>, Seq<u8>)>,
)
    requires
        is_prefix_scan(m, prefix, a),
        is_prefix_scan(m, prefix, b),
    ensures
        a == b,
{
    assert forall|x: (Seq<u8>, Seq<u8>)| a.contains(x) implies b.contains(x) by {
        let i = choose|i: int| 0 <= i < a.len() && a[i] == x;
        assert(m.contains_key(a[i].0) && crate::bytes::has_prefix(a[i].0, prefix));
        let j = choose|j: int| 0 <= j < b.len() && #[trigger] b[j].0 == x.0;
        assert(b[j] == x);
    }
    assert forall|x: (Seq<u8>, Seq<u8>)| b.contains(x) implies a.contains(x) by {
        let i = choose|i: int| 0 <= i < b.len() && b[i] == x;
        assert(m.contains_key(b[i].0) && crate::bytes::has_prefix(b[i].0, prefix));
        let j = choose|j: int| 0 <= j < a.len() && #[trigger] a[j].0 == x.0;
        assert(a[j] == x);
    }
    lemma_sorted_same_elements(a, b);
}

} // verus!
