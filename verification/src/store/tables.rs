//! The in-memory contents of a store: one sorted table per domain.

use vstd::prelude::*;

use crate::bytes::{
    compare_bytes, copy_bytes, has_prefix, lemma_seq_lt_asymmetric, lemma_seq_lt_irreflexive,
    lemma_seq_lt_total, lemma_seq_lt_transitive, seq_lt, starts_with,
};
use crate::store::backend::{tables_shaped, 
    apply_op, apply_ops, empty_tables, entries_view, is_prefix_scan, lookup, Entry, Op, Tables,
    WriteBatch,
};
use crate::store::domain::{domain_index, Domain, KEYSPACE_COUNT};

verus! {

/// Whether the keys of a table strictly increase.
pub open spec fn sorted_entries(s: Seq<Entry<Vec<u8>>>) -> bool {
    forall|i: int, j: int| 0 <= i < j < s.len() ==> seq_lt(#[trigger] s[i].0@, #[trigger] s[j].0@)
}

/// Whether some entry of `s` has key `k`.
pub open spec fn has_key(s: Seq<Entry<Vec<u8>>>, k: Seq<u8>) -> bool {
    exists|i: int| 0 <= i < s.len() && #[trigger] s[i].0@ == k
}

/// The position of an entry with key `k`, when there is one.
pub open spec fn key_index(s: Seq<Entry<Vec<u8>>>, k: Seq<u8>) -> int {
    choose|i: int| 0 <= i < s.len() && #[trigger] s[i].0@ == k
}

/// The key → value map a sorted table represents.
pub open spec fn table_map(s: Seq<Entry<Vec<u8>>>) -> Map<Seq<u8>, Seq<u8>> {
    Map::new(|k: Seq<u8>| has_key(s, k), |k: Seq<u8>| s[key_index(s, k)].1@)
}

proof fn lemma_table_map_at(s: Seq<Entry<Vec<u8>>>, i: int)
    requires
        sorted_entries(s),
        0 <= i < s.len(),
    ensures
        table_map(s).contains_key(s[i].0@),
        table_map(s)[s[i].0@] == s[i].1@,
{
    let k = s[i].0@;
    assert(has_key(s, k));
    let j = key_index(s, k);
    if j < i {
        lemma_seq_lt_irreflexive(k);
        assert(seq_lt(s[j].0@, s[i].0@));
    } else if i < j {
        lemma_seq_lt_irreflexive(k);
        assert(seq_lt(s[i].0@, s[j].0@));
    }
    assert(j == i);
    assert(table_map(s)[k] == s[j].1@);
}

proof fn lemma_insert_map(s: Seq<Entry<Vec<u8>>>, i: int, e: Entry<Vec<u8>>)
    requires
        sorted_entries(s),
        0 <= i <= s.len(),
        forall|j: int| 0 <= j < i ==> seq_lt(#[trigger] s[j].0@, e.0@),
        forall|j: int| i <= j < s.len() ==> seq_lt(e.0@, #[trigger] s[j].0@),
    ensures
        sorted_entries(s.insert(i, e)),
        table_map(s.insert(i, e)) == table_map(s).insert(e.0@, e.1@),
{
    let t = s.insert(i, e);
    assert forall|a: int, b: int| 0 <= a < b < t.len() implies seq_lt(#[trigger] t[a].0@, #[trigger] t[b].0@) by {
        if b < i {
        } else if a < i && b == i {
        } else if a < i && b > i {
            assert(t[b] == s[b - 1]);
        } else if a == i {
            assert(t[b] == s[b - 1]);
        } else {
            assert(t[a] == s[a - 1]);
            assert(t[b] == s[b - 1]);
        }
    }
    let m1 = table_map(t);
    let m2 = table_map(s).insert(e.0@, e.1@);
    assert forall|k: Seq<u8>| m1.contains_key(k) <==> m2.contains_key(k) by {
        if has_key(t, k) {
            let a = choose|a: int| 0 <= a < t.len() && #[trigger] t[a].0@ == k;
            if a < i {
                assert(s[a].0@ == k);
            } else if a > i {
                assert(s[a - 1].0@ == k);
            }
        }
        if has_key(s, k) {
            let a = choose|a: int| 0 <= a < s.len() && #[trigger] s[a].0@ == k;
            if a < i {
                assert(t[a].0@ == k);
            } else {
                assert(t[a + 1].0@ == k);
            }
        }
        if k == e.0@ {
            assert(t[i].0@ == k);
        }
    }
    assert forall|k: Seq<u8>| m1.contains_key(k) implies m1[k] == m2[k] by {
        let a = choose|a: int| 0 <= a < t.len() && #[trigger] t[a].0@ == k;
        lemma_table_map_at(t, a);
        lemma_seq_lt_irreflexive(k);
        if a < i {
            assert(t[a] == s[a]);
            lemma_table_map_at(s, a);
            assert(seq_lt(s[a].0@, e.0@));
            assert(k != e.0@);
            assert(m1[k] == t[a].1@);
            assert(m2[k] == table_map(s)[k]);
            assert(s[a].0@ == k);
            assert(table_map(s)[k] == s[a].1@);
            assert(m1[k] == m2[k]);
        } else if a > i {
            assert(t[a] == s[a - 1]);
            lemma_table_map_at(s, a - 1);
            assert(seq_lt(e.0@, s[a - 1].0@));
            assert(k != e.0@);
            assert(m1[k] == t[a].1@);
            assert(m2[k] == table_map(s)[k]);
            assert(s[a - 1].0@ == k);
            assert(table_map(s)[k] == s[a - 1].1@);
            assert(m1[k] == m2[k]);
        } else {
            assert(t[a] == e);
            assert(m1[k] == t[a].1@);
            assert(m2[k] == e.1@);
            assert(m1[k] == m2[k]);
        }
        assert(m1[k] == m2[k]);
    }
    assert(m1 =~= m2);
}

proof fn lemma_update_map(s: Seq<Entry<Vec<u8>>>, i: int, e: Entry<Vec<u8>>)
    requires
        sorted_entries(s),
        0 <= i < s.len(),
        s[i].0@ == e.0@,
    ensures
        sorted_entries(s.update(i, e)),
        table_map(s.update(i, e)) == table_map(s).insert(e.0@, e.1@),
{
    let t = s.update(i, e);
    assert forall|a: int, b: int| 0 <= a < b < t.len() implies seq_lt(#[trigger] t[a].0@, #[trigger] t[b].0@) by {
        assert(seq_lt(s[a].0@, s[b].0@));
    }
    let m1 = table_map(t);
    let m2 = table_map(s).insert(e.0@, e.1@);
    assert forall|k: Seq<u8>| m1.contains_key(k) <==> m2.contains_key(k) by {
        if has_key(t, k) {
            let a = choose|a: int| 0 <= a < t.len() && #[trigger] t[a].0@ == k;
            assert(s[a].0@ == k);
        }
        if has_key(s, k) {
            let a = choose|a: int| 0 <= a < s.len() && #[trigger] s[a].0@ == k;
            assert(t[a].0@ == k);
        }
    }
    assert forall|k: Seq<u8>| m1.contains_key(k) implies m1[k] == m2[k] by {
        let a = choose|a: int| 0 <= a < t.len() && #[trigger] t[a].0@ == k;
        lemma_table_map_at(t, a);
        if a != i {
            assert(t[a] == s[a]);
            lemma_table_map_at(s, a);
            lemma_seq_lt_irreflexive(k);
            if a < i {
                assert(seq_lt(s[a].0@, s[i].0@));
            } else {
                assert(seq_lt(s[i].0@, s[a].0@));
            }
            assert(k != e.0@);
            assert(m1[k] == m2[k]);
        } else {
            assert(t[a] == e);
            assert(m1[k] == m2[k]);
        }
    }
    assert(m1 =~= m2);
}

proof fn lemma_remove_map(s: Seq<Entry<Vec<u8>>>, i: int)
    requires
        sorted_entries(s),
        0 <= i < s.len(),
    ensures
        sorted_entries(s.remove(i)),
        table_map(s.remove(i)) == table_map(s).remove(s[i].0@),
{
    let t = s.remove(i);
    assert forall|a: int, b: int| 0 <= a < b < t.len() implies seq_lt(#[trigger] t[a].0@, #[trigger] t[b].0@) by {
        if b < i {
        } else if a < i {
            assert(t[b] == s[b + 1]);
        } else {
            assert(t[a] == s[a + 1]);
            assert(t[b] == s[b + 1]);
        }
    }
    let k0 = s[i].0@;
    let m1 = table_map(t);
    let m2 = table_map(s).remove(k0);
    assert forall|k: Seq<u8>| m1.contains_key(k) <==> m2.contains_key(k) by {
        if has_key(t, k) {
            let a = choose|a: int| 0 <= a < t.len() && #[trigger] t[a].0@ == k;
            lemma_seq_lt_irreflexive(k);
            if a < i {
                assert(s[a].0@ == k);
                assert(seq_lt(s[a].0@, s[i].0@));
            } else {
                assert(s[a + 1].0@ == k);
                assert(seq_lt(s[i].0@, s[a + 1].0@));
            }
        }
        if has_key(s, k) && k != k0 {
            let a = choose|a: int| 0 <= a < s.len() && #[trigger] s[a].0@ == k;
            if a < i {
                assert(t[a].0@ == k);
            } else {
                assert(a != i);
                assert(t[a - 1].0@ == k);
            }
        }
    }
    assert forall|k: Seq<u8>| m1.contains_key(k) implies m1[k] == m2[k] by {
        let a = choose|a: int| 0 <= a < t.len() && #[trigger] t[a].0@ == k;
        lemma_table_map_at(t, a);
        if a < i {
            lemma_table_map_at(s, a);
        } else {
            lemma_table_map_at(s, a + 1);
        }
    }
    assert(m1 =~= m2);
}

/// Whether raw tables hold one table per keyspace, each in strictly
/// ascending key order.
pub open spec fn tables_ok(t: Seq<Vec<Entry<Vec<u8>>>>) -> bool {
    &&& t.len() == KEYSPACE_COUNT
    &&& forall|i: int| 0 <= i < KEYSPACE_COUNT ==> sorted_entries(#[trigger] t[i]@)
}

/// The contents raw tables hold.
pub open spec fn tables_view(t: Seq<Vec<Entry<Vec<u8>>>>) -> Tables {
    Seq::new(15, |i: int| table_map(t[i]@))
}

/// The contents of an in-memory store: one table per domain, each holding
/// its entries in strictly ascending key order.
pub struct MemTables {
    tables: Vec<Vec<Entry<Vec<u8>>>>,
}

impl View for MemTables {
    type V = Tables;

    closed spec fn view(&self) -> Tables {
        tables_view(self.tables@)
    }
}

impl MemTables {
    /// The representation invariant: one sorted table per domain. Every
    /// value keeps it.
    #[verifier::type_invariant]
    pub closed spec fn wf(&self) -> bool {
        tables_ok(self.tables@)
    }

    /// The tables hold one table per domain.
    pub proof fn lemma_shaped(&self)
        ensures
            tables_shaped(self@),
    {
    }

    /// Empty tables for every domain.
    pub fn new() -> (t: Self)
        ensures
            t.wf(),
            t@ == empty_tables(),
    {
        let mut tables: Vec<Vec<Entry<Vec<u8>>>> = Vec::new();
        let mut i: usize = 0;
        while i < KEYSPACE_COUNT
            invariant
                i <= KEYSPACE_COUNT,
                tables@.len() == i,
                forall|j: int| 0 <= j < i ==> (#[trigger] tables@[j])@.len() == 0,
            decreases KEYSPACE_COUNT - i,
        {
            tables.push(Vec::new());
            i = i + 1;
        }
        let t = MemTables { tables };
        assert forall|j: int| 0 <= j < 15 implies #[trigger] t@[j] == empty_tables()[j] by {
            assert(table_map(t.tables@[j]@) =~= Map::<Seq<u8>, Seq<u8>>::empty());
        }
        assert(t@ =~= empty_tables());
        t
    }

    /// The value stored under `key` in `domain`, if any.
    pub fn get(&self, domain: Domain, key: &[u8]) -> (r: Option<Vec<u8>>)
        ensures
            match r {
                Some(v) => lookup(self@, domain, key@) == Some(v@),
                None => lookup(self@, domain, key@) is None,
            },
    {
        proof {
            use_type_invariant(self);
        }
        let d = domain.index();
        let table = &self.tables[d];
        assert(sorted_entries(self.tables@[d as int]@));
        let mut i: usize = 0;
        while i < table.len()
            invariant
                sorted_entries(table@),
                d as int == domain_index(domain),
                self.tables@.len() == KEYSPACE_COUNT,
                table@ == self.tables@[d as int]@,
                i <= table@.len(),
                forall|j: int| 0 <= j < i ==> (#[trigger] table@[j]).0@ != key@,
            decreases table@.len() - i,
        {
            if compare_bytes(table[i].0.as_slice(), key) == 0 {
                let v = copy_bytes(table[i].1.as_slice());
                proof {
                    lemma_table_map_at(table@, i as int);
                    assert(self@[domain_index(domain)] == table_map(table@));
                }
                return Some(v);
            }
            i = i + 1;
        }
        proof {
            assert(self@[domain_index(domain)] == table_map(table@));
        }
        None
    }

    /// Every entry of `domain` whose key begins with `prefix`, ascending.
    pub fn prefix_scan(&self, domain: Domain, prefix: &[u8]) -> (r: Vec<Entry<Vec<u8>>>)
        ensures
            is_prefix_scan(self@[domain_index(domain)], prefix@, entries_view(r@)),
    {
        proof {
            use_type_invariant(self);
        }
        let d = domain.index();
        let table = &self.tables[d];
        let ghost s = table@;
        assert(sorted_entries(self.tables@[d as int]@));
        let mut out: Vec<Entry<Vec<u8>>> = Vec::new();
        let ghost mut idxs: Seq<int> = Seq::empty();
        let mut i: usize = 0;
        while i < table.len()
            invariant
                s == table@,
                sorted_entries(s),
                i <= s.len(),
                idxs.len() == out@.len(),
                forall|a: int| 0 <= a < idxs.len() ==> 0 <= #[trigger] idxs[a] < i,
                forall|a: int, b: int| 0 <= a < b < idxs.len() ==> #[trigger] idxs[a] < #[trigger] idxs[b],
                forall|a: int| 0 <= a < idxs.len() ==> (#[trigger] out@[a]).0@ == s[idxs[a]].0@ && out@[a].1@ == s[idxs[a]].1@,
                forall|a: int| 0 <= a < out@.len() ==> has_prefix((#[trigger] out@[a]).0@, prefix@),
                forall|j: int| 0 <= j < i && has_prefix(#[trigger] s[j].0@, prefix@) ==> exists|a: int| 0 <= a < idxs.len() && idxs[a] == j,
            decreases s.len() - i,
        {
            if starts_with(table[i].0.as_slice(), prefix) {
                let k = copy_bytes(table[i].0.as_slice());
                let v = copy_bytes(table[i].1.as_slice());
                out.push((k, v));
                proof {
                    let ghost old_idxs = idxs;
                    idxs = idxs.push(i as int);
                    assert(idxs[idxs.len() - 1] == i);
                    assert forall|j: int| 0 <= j < i && has_prefix(#[trigger] s[j].0@, prefix@) implies exists|a: int| 0 <= a < idxs.len() && idxs[a] == j by {
                        let a = choose|a: int| 0 <= a < old_idxs.len() && old_idxs[a] == j;
                        assert(idxs[a] == j);
                    }
                }
            }
            proof {
                if has_prefix(s[i as int].0@, prefix@) {
                    assert(idxs[idxs.len() - 1] == i);
                }
            }
            i = i + 1;
        }
        let ghost es = entries_view(out@);
        let ghost m = table_map(s);
        proof {
            assert forall|a: int, b: int| 0 <= a < b < es.len() implies seq_lt(#[trigger] es[a].0, #[trigger] es[b].0) by {
                assert(idxs[a] < idxs[b]);
            }
            assert forall|a: int| 0 <= a < es.len() implies m.contains_key(#[trigger] es[a].0) && m[es[a].0] == es[a].1 by {
                lemma_table_map_at(s, idxs[a]);
            }
            assert forall|k: Seq<u8>| #[trigger] m.contains_key(k) && has_prefix(k, prefix@) implies exists|a: int| 0 <= a < es.len() && #[trigger] es[a].0 == k by {
                let j = choose|j: int| 0 <= j < s.len() && #[trigger] s[j].0@ == k;
                let a = choose|a: int| 0 <= a < idxs.len() && idxs[a] == j;
                assert(es[a].0 == k);
            }
            assert(self@[domain_index(domain)] == m);
        }
        out
    }

    /// Apply one operation.
    pub fn apply_op(&mut self, op: &Op)
        ensures
            final(self)@ == apply_op(old(self)@, *op),
    {
        proof {
            use_type_invariant(&*self);
        }
        let mut t = MemTables::new();
        std::mem::swap(&mut t, self);
        proof {
            use_type_invariant(&t);
        }
        let MemTables { mut tables } = t;
        apply_op_raw(&mut tables, op);
        *self = MemTables { tables };
    }

    /// Apply every operation of `batch`, in order.
    pub fn apply(&mut self, batch: &WriteBatch)
        ensures
            final(self)@ == apply_ops(old(self)@, batch@),
    {
        proof {
            use_type_invariant(&*self);
        }
        let mut t = MemTables::new();
        std::mem::swap(&mut t, self);
        proof {
            use_type_invariant(&t);
        }
        let MemTables { mut tables } = t;
        apply_raw(&mut tables, batch);
        *self = MemTables { tables };
    }
}

/// Apply one operation to raw tables.
fn apply_op_raw(tables: &mut Vec<Vec<Entry<Vec<u8>>>>, op: &Op)
    requires
        tables_ok(old(tables)@),
    ensures
        tables_ok(final(tables)@),
        tables_view(final(tables)@) == apply_op(tables_view(old(tables)@), *op),
{
    match op {
        Op::Put { domain, key, val } => put_raw(tables, *domain, key, val),
        Op::Delete { domain, key } => delete_raw(tables, *domain, key),
    }
}

/// Apply every operation of `batch` to raw tables, in order.
fn apply_raw(tables: &mut Vec<Vec<Entry<Vec<u8>>>>, batch: &WriteBatch)
    requires
        tables_ok(old(tables)@),
    ensures
        tables_ok(final(tables)@),
        tables_view(final(tables)@) == apply_ops(tables_view(old(tables)@), batch@),
{
    let ops = batch.ops();
    let mut i: usize = 0;
    while i < ops.len()
        invariant
            ops@ == batch@,
            i <= ops@.len(),
            tables_ok(tables@),
            tables_view(tables@) == apply_ops(tables_view(old(tables)@), ops@.subrange(0, i as int)),
        decreases ops@.len() - i,
    {
        apply_op_raw(tables, &ops[i]);
        proof {
            assert(ops@.subrange(0, i + 1).drop_last() =~= ops@.subrange(0, i as int));
        }
        i = i + 1;
    }
    assert(ops@.subrange(0, ops@.len() as int) =~= ops@);
}

/// Put `key` → `val` in `domain` of raw tables.
fn put_raw(tables: &mut Vec<Vec<Entry<Vec<u8>>>>, domain: Domain, key: &Vec<u8>, val: &Vec<u8>)
    requires
        tables_ok(old(tables)@),
    ensures
        tables_ok(final(tables)@),
        tables_view(final(tables)@) == apply_op(tables_view(old(tables)@), Op::Put { domain, key: *key, val: *val }),
{
    let d = domain.index();
    let ghost s = tables@[d as int]@;
    assert(sorted_entries(s));
    let mut pos: usize = 0;
    while pos < tables[d].len() && compare_bytes(tables[d][pos].0.as_slice(), key.as_slice()) < 0
        invariant
            d < KEYSPACE_COUNT,
            tables@.len() == KEYSPACE_COUNT,
            s == tables@[d as int]@,
            pos <= s.len(),
            forall|j: int| 0 <= j < pos ==> seq_lt(#[trigger] s[j].0@, key@),
        decreases s.len() - pos,
    {
        pos = pos + 1;
    }
    let entry = (copy_bytes(key.as_slice()), copy_bytes(val.as_slice()));
    let ghost old_tables = tables@;
    if pos < tables[d].len() && compare_bytes(tables[d][pos].0.as_slice(), key.as_slice()) == 0 {
        tables[d].set(pos, entry);
        proof {
            lemma_update_map(s, pos as int, entry);
        }
    } else {
        proof {
            assert forall|j: int| pos <= j < s.len() implies seq_lt(entry.0@, #[trigger] s[j].0@) by {
                lemma_seq_lt_total(s[pos as int].0@, key@);
                if j > pos {
                    assert(seq_lt(s[pos as int].0@, s[j].0@));
                    lemma_seq_lt_transitive(key@, s[pos as int].0@, s[j].0@);
                }
            }
            lemma_insert_map(s, pos as int, entry);
        }
        tables[d].insert(pos, entry);
    }
    proof {
        let i = domain_index(domain);
        assert forall|j: int| 0 <= j < KEYSPACE_COUNT && j != i implies tables@[j] == old_tables[j] by {}
        assert(tables_view(tables@) =~= apply_op(tables_view(old(tables)@), Op::Put { domain, key: *key, val: *val }));
    }
}

/// Delete `key` from `domain` of raw tables.
fn delete_raw(tables: &mut Vec<Vec<Entry<Vec<u8>>>>, domain: Domain, key: &Vec<u8>)
    requires
        tables_ok(old(tables)@),
    ensures
        tables_ok(final(tables)@),
        tables_view(final(tables)@) == apply_op(tables_view(old(tables)@), Op::Delete { domain, key: *key }),
{
    let d = domain.index();
    let ghost s = tables@[d as int]@;
    let ghost old_tables = tables@;
    assert(sorted_entries(s));
    let mut pos: usize = 0;
    while pos < tables[d].len() && compare_bytes(tables[d][pos].0.as_slice(), key.as_slice()) != 0
        invariant
            d < KEYSPACE_COUNT,
            tables@.len() == KEYSPACE_COUNT,
            s == tables@[d as int]@,
            pos <= s.len(),
            forall|j: int| 0 <= j < pos ==> (#[trigger] s[j]).0@ != key@,
        decreases s.len() - pos,
    {
        pos = pos + 1;
    }
    if pos < tables[d].len() {
        tables[d].remove(pos);
        proof {
            lemma_remove_map(s, pos as int);
            let i = domain_index(domain);
            assert forall|j: int| 0 <= j < KEYSPACE_COUNT && j != i implies tables@[j] == old_tables[j] by {}
            assert(tables_view(tables@) =~= apply_op(tables_view(old(tables)@), Op::Delete { domain, key: *key }));
        }
    } else {
        proof {
            assert(!table_map(s).contains_key(key@));
            assert(table_map(s).remove(key@) =~= table_map(s));
            assert(tables_view(tables@) =~= apply_op(tables_view(old(tables)@), Op::Delete { domain, key: *key }));
        }
    }
}

} // verus!
