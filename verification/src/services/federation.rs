//! The durable outbound federation queue and per-destination health records.
//!
//! Queued items live in [`Domain::FederationQueue`] keyed
//! `destination \0 seq_be`, so a scan of one destination's prefix returns its
//! items in sequence order; health (backoff) records live in
//! [`Domain::FederationHealth`] keyed by destination as
//! `attempt_be(4) || available_at_be(8)`.

use vstd::prelude::*;
use vstd::string::*;

use crate::bytes::str_eq;
use crate::services::be::{be_u32, be_u64, push_be_u32, push_be_u64, read_be_u32, read_be_u64, u32_from_be, u64_from_be};
use crate::stateres::collections::{entries_map, keys_sorted, lemma_entries_map_at, lemma_entries_map_dom, MapKey, OrdMap};
use crate::store::backend::{entries_view, scan_view, Entry};
use crate::store::{Domain, DynStore, StoreError};

verus! {

/// `std::str::from_utf8`: the text `bytes` encode, when they are valid
/// UTF-8.
#[verifier::external_body]
pub(crate) fn utf8_text(bytes: &[u8]) -> (r: Option<&str>)
    ensures
        match r {
            Some(s) => s.spec_bytes() == bytes@,
            None => !vstd::utf8::valid_utf8(bytes@),
        },
{
    std::str::from_utf8(bytes).ok()
}

/// The queue key of an item: `destination \0 seq_be`.
pub open spec fn queue_key_of(destination: Seq<char>, seq: u64) -> Seq<u8> {
    vstd::utf8::encode_utf8(destination) + seq![0u8] + be_u64(seq)
}

/// The key prefix of every item queued for `destination`.
pub open spec fn queue_prefix_of(destination: Seq<char>) -> Seq<u8> {
    vstd::utf8::encode_utf8(destination) + seq![0u8]
}

/// The [`Domain::FederationQueue`] key for an item: `destination \0
/// seq_be`.
pub fn queue_key(destination: &str, seq: u64) -> (r: Vec<u8>)
    ensures
        r@ == queue_key_of(destination@, seq),
{
    let mut key = queue_prefix(destination);
    push_be_u64(&mut key, seq);
    key
}

/// The key prefix scanning all of `destination`'s queued items.
pub fn queue_prefix(destination: &str) -> (r: Vec<u8>)
    ensures
        r@ == queue_prefix_of(destination@),
{
    let mut prefix = crate::bytes::copy_bytes(destination.as_bytes());
    prefix.push(0u8);
    prefix
}

/// The destination a queue key names: the text before its first zero byte,
/// when there is one and it is valid UTF-8.
pub open spec fn key_destination(key: Seq<u8>) -> Option<Seq<char>> {
    if exists|j: int| 0 <= j < key.len() && key[j] == 0 {
        let j = choose|j: int| 0 <= j < key.len() && key[j] == 0 && forall|i: int| 0 <= i < j ==> key[i] != 0;
        if vstd::utf8::valid_utf8(key.subrange(0, j)) {
            Some(vstd::utf8::decode_utf8(key.subrange(0, j)))
        } else {
            None
        }
    } else {
        None
    }
}

/// The number of scanned keys naming each destination.
pub open spec fn destination_counts(scanned: Seq<(Seq<u8>, Seq<u8>)>) -> Map<Seq<char>, nat>
    decreases scanned.len(),
{
    if scanned.len() == 0 {
        Map::empty()
    } else {
        let m = destination_counts(scanned.drop_last());
        match key_destination(scanned.last().0) {
            Some(d) => m.insert(d, if m.contains_key(d) { m[d] + 1 } else { 1 }),
            None => m,
        }
    }
}

/// The destination a queue key names.
fn destination_of(key: &[u8]) -> (r: Option<String>)
    ensures
        match r {
            Some(d) => key_destination(key@) == Some(d@),
            None => key_destination(key@) == None::<Seq<char>>,
        },
{
    let mut j: usize = 0;
    while j < key.len() && key[j] != 0
        invariant
            j <= key@.len(),
            forall|i: int| 0 <= i < j ==> key@[i] != 0,
        decreases key@.len() - j,
    {
        j = j + 1;
    }
    if j == key.len() {
        return None;
    }
    proof {
        let c = choose|c: int| 0 <= c < key@.len() && key@[c] == 0 && forall|i: int| 0 <= i < c ==> key@[i] != 0;
        if c < j {
            assert(key@[c] != 0);
        } else if c > j {
            assert(key@[j as int] != 0);
        }
    }
    let head = crate::bytes::copy_range(key, 0, j);
    match utf8_text(head.as_slice()) {
        Some(text) => {
            proof {
                vstd::utf8::encode_utf8_decode_utf8(text@);
                vstd::utf8::encode_utf8_valid_utf8(text@);
                assert(head@ =~= key@.subrange(0, j as int));
            }
            Some(text.to_owned())
        },
        None => {
            proof {
                assert(head@ =~= key@.subrange(0, j as int));
            }
            None
        },
    }
}

/// Whether `depths` lists, ascending by destination, each destination a
/// scan's keys name with the number of keys naming it.
pub open spec fn counted_depths(depths: Seq<(Seq<char>, usize)>, scanned: Seq<(Seq<u8>, Seq<u8>)>) -> bool {
    &&& forall|i: int, j: int| 0 <= i < j < depths.len() ==> crate::bytes::str_lt(#[trigger] depths[i].0, #[trigger] depths[j].0)
    &&& forall|i: int| 0 <= i < depths.len() ==> destination_counts(scanned).contains_key(#[trigger] depths[i].0)
        && destination_counts(scanned)[depths[i].0] == depths[i].1
    &&& forall|d: Seq<char>| #[trigger] destination_counts(scanned).contains_key(d) ==> exists|i: int| 0 <= i < depths.len() && #[trigger] depths[i].0 == d
}

/// Queue depth per destination in a scan of the queue domain, ascending by
/// destination.
pub fn count_destinations(scanned: &[Entry<Vec<u8>>]) -> (r: Vec<(String, usize)>)
    ensures
        forall|i: int, j: int| 0 <= i < j < r@.len() ==> crate::bytes::str_lt(#[trigger] r@[i].0@, #[trigger] r@[j].0@),
        forall|i: int| 0 <= i < r@.len() ==> destination_counts(entries_view(scanned@)).contains_key(#[trigger] r@[i].0@)
            && destination_counts(entries_view(scanned@))[r@[i].0@] == r@[i].1,
        forall|d: Seq<char>| #[trigger] destination_counts(entries_view(scanned@)).contains_key(d) ==> exists|i: int| 0 <= i < r@.len() && #[trigger] r@[i].0@ == d,
        counted_depths(depths_view(r@), entries_view(scanned@)),
{
    let ghost sv = entries_view(scanned@);
    let mut counts: OrdMap<String, usize> = OrdMap::new();
    let mut i: usize = 0;
    proof {
        assert(sv.take(0) =~= Seq::<(Seq<u8>, Seq<u8>)>::empty());
        assert(counts@ =~= Map::<Seq<char>, usize>::empty());
    }
    while i < scanned.len()
        invariant
            sv == entries_view(scanned@),
            i <= scanned@.len(),
            forall|d: Seq<char>| #[trigger] counts@.contains_key(d) <==> destination_counts(sv.take(i as int)).contains_key(d),
            forall|d: Seq<char>| #[trigger] counts@.contains_key(d) ==> counts@[d] == destination_counts(sv.take(i as int))[d]
                && counts@[d] <= i,
        decreases scanned@.len() - i,
    {
        proof {
            assert(sv.take(i + 1).drop_last() =~= sv.take(i as int));
            assert(sv.take(i + 1).last() == sv[i as int]);
        }
        match destination_of(scanned[i].0.as_slice()) {
            Some(destination) => {
                let count = match counts.get(&destination) {
                    Some(c) => *c + 1,
                    None => 1,
                };
                counts.insert(destination, count);
            },
            None => {},
        }
        i = i + 1;
    }
    proof {
        assert(sv.take(scanned@.len() as int) =~= sv);
    }
    let entries = counts.entries();
    proof {
        counts.lemma_view();
    }
    let mut out: Vec<(String, usize)> = Vec::new();
    let mut k: usize = 0;
    while k < entries.len()
        invariant
            entries@ == counts.entry_seq(),
            keys_sorted(entries@),
            counts@ == entries_map(entries@),
            k <= entries@.len(),
            out@.len() == k,
            forall|a: int| 0 <= a < k ==> (#[trigger] out@[a]).0@ == entries@[a].0@ && out@[a].1 == entries@[a].1,
        decreases entries@.len() - k,
    {
        out.push((entries[k].0.clone(), entries[k].1));
        k = k + 1;
    }
    proof {
        assert forall|a: int, b: int| 0 <= a < b < out@.len() implies crate::bytes::str_lt(#[trigger] out@[a].0@, #[trigger] out@[b].0@) by {
            assert(String::key_lt(entries@[a].0.key_view(), entries@[b].0.key_view()));
        }
        assert forall|a: int| 0 <= a < out@.len() implies destination_counts(sv).contains_key(#[trigger] out@[a].0@)
            && destination_counts(sv)[out@[a].0@] == out@[a].1 by {
            lemma_entries_map_at(entries@, a);
        }
        assert forall|d: Seq<char>| #[trigger] destination_counts(sv).contains_key(d) implies exists|a: int| 0 <= a < out@.len() && #[trigger] out@[a].0@ == d by {
            assert(counts@.contains_key(d));
            let a = crate::stateres::collections::key_index(entries@, d);
            assert(out@[a].0@ == d);
        }
    }
    proof {
        let dv = depths_view(out@);
        assert forall|a: int| 0 <= a < dv.len() implies #[trigger] dv[a] == (out@[a].0@, out@[a].1) by {}
        assert forall|d: Seq<char>| #[trigger] destination_counts(sv).contains_key(d) implies exists|a: int| 0 <= a < dv.len() && #[trigger] dv[a].0 == d by {
            let a = choose|a: int| 0 <= a < out@.len() && #[trigger] out@[a].0@ == d;
            assert(dv[a].0 == d);
        }
    }
    out
}

/// The greatest sequence number among scanned queue keys (read from the
/// last 8 bytes of every key that long), or 0 when there is none.
pub open spec fn max_seq_spec(scanned: Seq<(Seq<u8>, Seq<u8>)>) -> u64
    decreases scanned.len(),
{
    if scanned.len() == 0 {
        0
    } else {
        let m = max_seq_spec(scanned.drop_last());
        let k = scanned.last().0;
        if k.len() >= 8 {
            let s = u64_from_be(k.subrange(k.len() - 8, k.len() as int));
            if s > m { s } else { m }
        } else {
            m
        }
    }
}

/// The greatest queue sequence among scanned keys (0 when there is none).
pub fn max_seq(scanned: &[Entry<Vec<u8>>]) -> (r: u64)
    ensures
        r == max_seq_spec(entries_view(scanned@)),
{
    let ghost sv = entries_view(scanned@);
    let mut max: u64 = 0;
    let mut i: usize = 0;
    while i < scanned.len()
        invariant
            sv == entries_view(scanned@),
            i <= scanned@.len(),
            max == max_seq_spec(sv.take(i as int)),
        decreases scanned@.len() - i,
    {
        proof {
            assert(sv.take(i + 1).drop_last() =~= sv.take(i as int));
            assert(sv.take(i + 1).last() == sv[i as int]);
        }
        let key = scanned[i].0.as_slice();
        let len = key.len();
        if len >= 8 {
            let seq = read_be_u64(key, len - 8);
            if seq > max {
                max = seq;
            }
        }
        i = i + 1;
    }
    proof {
        assert(sv.take(scanned@.len() as int) =~= sv);
    }
    max
}

/// The number of items queued for `destination`: the number of entries a
/// scan of its key prefix gives, or that scan's failure.
pub fn queue_depth(store: &DynStore, destination: &str) -> (r: Result<usize, StoreError>)
    ensures
        exists|g: Result<Seq<(Seq<u8>, Seq<u8>)>, StoreError>|
            #[trigger] store.scan_gives(Domain::FederationQueue, queue_prefix_of(destination@), g)
            && r == (match g {
                Ok(s) => Ok::<usize, StoreError>(s.len() as usize),
                Err(e) => Err(e),
            }),
{
    let prefix = queue_prefix(destination);
    let scanned = store.prefix_scan(Domain::FederationQueue, prefix.as_slice());
    let ghost g = scan_view(scanned);
    proof {
        assert(store.scan_gives(Domain::FederationQueue, queue_prefix_of(destination@), g));
    }
    match scanned {
        Ok(scanned) => Ok(scanned.len()),
        Err(e) => Err(e),
    }
}

/// Whether a delete of the queue key `key` through `store` can succeed.
pub open spec fn queue_delete_succeeds(store: &DynStore, key: Seq<u8>) -> bool {
    exists|c: Result<(), StoreError>| #[trigger] store.commit_gives(seq![(Domain::FederationQueue, key, None::<Seq<u8>>)], c) && c is Ok
}

/// Delete every scanned key, returning the scanned values in order.
fn take_scanned(store: &DynStore, scanned: Vec<Entry<Vec<u8>>>) -> (r: Result<Vec<Vec<u8>>, StoreError>)
    ensures
        r matches Ok(items) ==> items@.len() == scanned@.len()
            && (forall|i: int| 0 <= i < items@.len() ==> (#[trigger] items@[i])@ == scanned@[i].1@)
            && forall|i: int| 0 <= i < scanned@.len() ==> #[trigger] queue_delete_succeeds(store, scanned@[i].0@),
        r matches Err(e) ==> exists|i: int| 0 <= i < scanned@.len() && #[trigger] store.commit_gives(
            seq![(Domain::FederationQueue, scanned@[i].0@, None::<Seq<u8>>)], Err(e)),
{
    let mut items: Vec<Vec<u8>> = Vec::new();
    let mut i: usize = 0;
    while i < scanned.len()
        invariant
            i <= scanned@.len(),
            items@.len() == i,
            forall|j: int| 0 <= j < i ==> (#[trigger] items@[j])@ == scanned@[j].1@,
            forall|j: int| 0 <= j < i ==> #[trigger] queue_delete_succeeds(store, scanned@[j].0@),
        decreases scanned@.len() - i,
    {
        let key = crate::bytes::copy_bytes(scanned[i].0.as_slice());
        let deleted = store.delete(Domain::FederationQueue, key);
        proof {
            assert(store.commit_gives(seq![(Domain::FederationQueue, scanned@[i as int].0@, None::<Seq<u8>>)], deleted));
        }
        match deleted {
            Ok(()) => {},
            Err(e) => {
                return Err(e);
            },
        }
        items.push(crate::bytes::copy_bytes(scanned[i].1.as_slice()));
        i = i + 1;
    }
    Ok(items)
}

/// The values of a scan, in order.
pub open spec fn scan_values(s: Seq<(Seq<u8>, Seq<u8>)>) -> Seq<Seq<u8>> {
    s.map_values(|e: (Seq<u8>, Seq<u8>)| e.1)
}

/// The values of byte strings.
pub open spec fn items_view(items: Seq<Vec<u8>>) -> Seq<Seq<u8>> {
    items.map_values(|v: Vec<u8>| v@)
}

/// Whether `items` is what a drain of `destination`'s queue in `store` can
/// give: the values, in order, of a result that `store`'s scan of the
/// destination's key prefix can give, each of whose keys a delete can then
/// remove.
pub open spec fn drained(store: DynStore, destination: Seq<char>, items: Seq<Seq<u8>>) -> bool {
    exists|s: Seq<(Seq<u8>, Seq<u8>)>|
        #[trigger] store.scan_gives(Domain::FederationQueue, queue_prefix_of(destination), Ok(s))
        && items == scan_values(s)
        && forall|i: int| 0 <= i < s.len() ==> #[trigger] queue_delete_succeeds(&store, s[i].0)
}

/// Take and delete all of `destination`'s queued items, in sequence order:
/// the values of what the scan of its key prefix gives, each of whose keys
/// is then deleted. A failed scan fails the drain; a failed delete fails it
/// with that delete's error.
pub fn drain_queue(store: &DynStore, destination: &str) -> (r: Result<Vec<Vec<u8>>, StoreError>)
    ensures
        exists|g: Result<Seq<(Seq<u8>, Seq<u8>)>, StoreError>|
            #[trigger] store.scan_gives(Domain::FederationQueue, queue_prefix_of(destination@), g)
            && match g {
                Err(e) => r == Err::<Vec<Vec<u8>>, StoreError>(e),
                Ok(s) => {
                    &&& r matches Ok(items) ==> items_view(items@) == scan_values(s)
                        && forall|i: int| 0 <= i < s.len() ==> #[trigger] queue_delete_succeeds(store, s[i].0)
                    &&& r matches Err(e) ==> exists|i: int| 0 <= i < s.len() && #[trigger] store.commit_gives(
                        seq![(Domain::FederationQueue, s[i].0, None::<Seq<u8>>)], Err(e))
                },
            },
        r matches Ok(items) ==> drained(*store, destination@, items_view(items@)),
{
    let prefix = queue_prefix(destination);
    let scanned = store.prefix_scan(Domain::FederationQueue, prefix.as_slice());
    let ghost g = scan_view(scanned);
    proof {
        assert(store.scan_gives(Domain::FederationQueue, queue_prefix_of(destination@), g));
    }
    let scanned = match scanned {
        Ok(scanned) => scanned,
        Err(e) => return Err(e),
    };
    let ghost sv = entries_view(scanned@);
    let ghost sc = scanned@;
    let r = take_scanned(store, scanned);
    proof {
        assert(g == Ok::<Seq<(Seq<u8>, Seq<u8>)>, StoreError>(sv));
        if r is Ok {
            assert(items_view(r->Ok_0@) =~= scan_values(sv));
            assert forall|i: int| 0 <= i < sv.len() implies #[trigger] queue_delete_succeeds(store, sv[i].0) by {
                assert(sv[i].0 == sc[i].0@);
            }
            assert(store.scan_gives(Domain::FederationQueue, queue_prefix_of(destination@), Ok(sv)));
        }
        if r is Err {
            let i = choose|i: int| 0 <= i < sc.len() && #[trigger] store.commit_gives(
                seq![(Domain::FederationQueue, sc[i].0@, None::<Seq<u8>>)], Err(r->Err_0));
            assert(sv[i].0 == sc[i].0@);
            assert(store.commit_gives(seq![(Domain::FederationQueue, sv[i].0, None::<Seq<u8>>)], Err(r->Err_0)));
        }
        assert(match g {
                Err(e) => r == Err::<Vec<Vec<u8>>, StoreError>(e),
                Ok(s) => {
                    &&& r matches Ok(items) ==> items_view(items@) == scan_values(s)
                        && forall|i: int| 0 <= i < s.len() ==> #[trigger] queue_delete_succeeds(store, s[i].0)
                    &&& r matches Err(e) ==> exists|i: int| 0 <= i < s.len() && #[trigger] store.commit_gives(
                        seq![(Domain::FederationQueue, s[i].0, None::<Seq<u8>>)], Err(e))
                },
            });
    }
    r
}

/// Queue depth per destination across the whole queue domain, ascending by
/// destination: the count of what the scan of the domain gives, or that
/// scan's failure.
pub fn all_queue_depths(store: &DynStore) -> (r: Result<Vec<(String, usize)>, StoreError>)
    ensures
        exists|g: Result<Seq<(Seq<u8>, Seq<u8>)>, StoreError>|
            #[trigger] store.scan_gives(Domain::FederationQueue, Seq::<u8>::empty(), g)
            && match g {
                Ok(s) => r matches Ok(depths) && counted_depths(depths_view(depths@), s),
                Err(e) => r == Err::<Vec<(String, usize)>, StoreError>(e),
            },
{
    let empty: [u8; 0] = [];
    let scanned = store.prefix_scan(Domain::FederationQueue, &empty);
    let ghost g = scan_view(scanned);
    proof {
        assert(empty@ =~= Seq::<u8>::empty());
        assert(store.scan_gives(Domain::FederationQueue, Seq::<u8>::empty(), g));
    }
    match scanned {
        Ok(scanned) => Ok(count_destinations(scanned.as_slice())),
        Err(e) => Err(e),
    }
}

/// Whether `destination` is one of `names`.
fn listed(names: &[String], destination: &str) -> (r: bool)
    ensures
        r == exists|i: int| 0 <= i < names@.len() && #[trigger] names@[i]@ == destination@,
{
    let mut i: usize = 0;
    while i < names.len()
        invariant
            i <= names@.len(),
            forall|j: int| 0 <= j < i ==> (#[trigger] names@[j])@ != destination@,
        decreases names@.len() - i,
    {
        if str_eq(names[i].as_str(), destination) {
            return true;
        }
        i = i + 1;
    }
    false
}

/// The values of destination names.
pub open spec fn names_view(names: Seq<String>) -> Seq<Seq<char>> {
    names.map_values(|b: String| b@)
}

/// The values of per-destination queue depths.
pub open spec fn depths_view(depths: Seq<(String, usize)>) -> Seq<(Seq<char>, usize)> {
    depths.map_values(|e: (String, usize)| (e.0@, e.1))
}

/// The destinations of `depths` that are ready — queued and not in
/// `backed_off` — in order.
pub open spec fn ready_list(depths: Seq<(Seq<char>, usize)>, backed_off: Seq<Seq<char>>) -> Seq<Seq<char>>
    decreases depths.len(),
{
    if depths.len() == 0 {
        Seq::empty()
    } else {
        let rest = ready_list(depths.drop_last(), backed_off);
        let e = depths.last();
        if e.1 > 0 && !backed_off.contains(e.0) {
            rest.push(e.0)
        } else {
            rest
        }
    }
}

/// The destinations of `depths` that are ready (queued and not in
/// `backed_off`), in order.
pub fn ready_destinations(depths: &[(String, usize)], backed_off: &[String]) -> (r: Vec<String>)
    ensures
        names_view(r@) == ready_list(depths_view(depths@), names_view(backed_off@)),
{
    let ghost bv = names_view(backed_off@);
    let ghost dv = depths_view(depths@);
    let mut out: Vec<String> = Vec::new();
    let mut i: usize = 0;
    proof {
        assert(names_view(out@) =~= ready_list(dv.take(0), bv));
    }
    while i < depths.len()
        invariant
            bv == names_view(backed_off@),
            dv == depths_view(depths@),
            i <= depths@.len(),
            names_view(out@) == ready_list(dv.take(i as int), bv),
        decreases depths@.len() - i,
    {
        let ghost o0 = out@;
        let off = listed(backed_off, depths[i].0.as_str());
        proof {
            assert(dv.take(i + 1).drop_last() =~= dv.take(i as int));
            assert(dv.take(i + 1).last() == dv[i as int]);
            assert(off == bv.contains(depths@[i as int].0@)) by {
                if off {
                    let j = choose|j: int| 0 <= j < backed_off@.len() && #[trigger] backed_off@[j]@ == depths@[i as int].0@;
                    assert(bv[j] == depths@[i as int].0@);
                }
                if bv.contains(depths@[i as int].0@) {
                    let j = choose|j: int| 0 <= j < bv.len() && bv[j] == depths@[i as int].0@;
                    assert(backed_off@[j]@ == depths@[i as int].0@);
                }
            }
        }
        if depths[i].1 > 0 && !off {
            out.push(depths[i].0.clone());
            proof {
                assert(names_view(out@) =~= names_view(o0).push(depths@[i as int].0@));
            }
        }
        i = i + 1;
    }
    proof {
        assert(dv.take(depths@.len() as int) =~= dv);
    }
    out
}

/// Whether a drain of `destination`'s queue in `store` can fail with `e`:
/// the scan of its key prefix fails with `e`, or a delete of one of the keys
/// that scan gives does.
pub open spec fn drain_fails(store: DynStore, destination: Seq<char>, e: StoreError) -> bool {
    exists|g: Result<Seq<(Seq<u8>, Seq<u8>)>, StoreError>|
        #[trigger] store.scan_gives(Domain::FederationQueue, queue_prefix_of(destination), g)
        && match g {
            Err(x) => x == e,
            Ok(s) => exists|i: int| 0 <= i < s.len() && #[trigger] store.commit_gives(
                seq![(Domain::FederationQueue, s[i].0, None::<Seq<u8>>)], Err(e)),
        }
}

/// The pairs of `ready` destinations and their `drains`, in order, leaving
/// out the empty drains.
pub open spec fn keep_nonempty(ready: Seq<Seq<char>>, drains: Seq<Seq<Seq<u8>>>) -> Seq<(Seq<char>, Seq<Seq<u8>>)>
    decreases ready.len(),
{
    if ready.len() == 0 || drains.len() == 0 {
        Seq::empty()
    } else {
        let rest = keep_nonempty(ready.drop_last(), drains.drop_last());
        if drains.last().len() > 0 {
            rest.push((ready.last(), drains.last()))
        } else {
            rest
        }
    }
}

/// Whether `r` is what draining each of `ready` in turn through `store`,
/// keeping the non-empty drains as batches, can give: every drain gives its
/// items, or the first that fails gives its error.
pub open spec fn drains_outcome(store: DynStore, ready: Seq<Seq<char>>, r: Result<Seq<(Seq<char>, Seq<Seq<u8>>)>, StoreError>) -> bool {
    match r {
        Ok(batches) => exists|drains: Seq<Seq<Seq<u8>>>| {
            &&& drains.len() == ready.len()
            &&& forall|i: int| 0 <= i < ready.len() ==> #[trigger] drained(store, ready[i], drains[i])
            &&& #[trigger] keep_nonempty(ready, drains) == batches
        },
        Err(e) => exists|drains: Seq<Seq<Seq<u8>>>| {
            &&& drains.len() < ready.len()
            &&& forall|i: int| 0 <= i < drains.len() ==> #[trigger] drained(store, ready[i], drains[i])
            &&& #[trigger] drain_fails(store, ready[drains.len() as int], e)
        },
    }
}

/// The values of delivery batches.
pub open spec fn batches_view(b: Seq<(String, Vec<Vec<u8>>)>) -> Seq<(Seq<char>, Seq<Seq<u8>>)> {
    b.map_values(|x: (String, Vec<Vec<u8>>)| (x.0@, items_view(x.1@)))
}

/// The value of a result of delivery batches.
pub open spec fn due_view(r: Result<Vec<(String, Vec<Vec<u8>>)>, StoreError>) -> Result<Seq<(Seq<char>, Seq<Seq<u8>>)>, StoreError> {
    match r {
        Ok(b) => Ok(batches_view(b@)),
        Err(e) => Err(e),
    }
}

/// The batches due for delivery now: the queue depths are counted from the
/// scan of the whole queue domain; each ready destination (queued and not in
/// `backed_off`), ascending, is drained in sequence order, and the non-empty
/// drains are the batches. Backed-off and empty queues are not drained. A
/// failed depth scan, or the first failed drain, is the error.
pub fn due_batches(store: &DynStore, backed_off: &[String]) -> (r: Result<Vec<(String, Vec<Vec<u8>>)>, StoreError>)
    ensures
        exists|g: Result<Seq<(Seq<u8>, Seq<u8>)>, StoreError>|
            #[trigger] store.scan_gives(Domain::FederationQueue, Seq::<u8>::empty(), g)
            && match g {
                Err(e) => r == Err::<Vec<(String, Vec<Vec<u8>>)>, StoreError>(e),
                Ok(s) => exists|depths: Seq<(Seq<char>, usize)>| #[trigger] counted_depths(depths, s)
                    && drains_outcome(*store, ready_list(depths, names_view(backed_off@)), due_view(r)),
            },
{
    let depths = match all_queue_depths(store) {
        Ok(d) => d,
        Err(e) => return Err(e),
    };
    let ghost g = choose|g: Result<Seq<(Seq<u8>, Seq<u8>)>, StoreError>|
        #[trigger] store.scan_gives(Domain::FederationQueue, Seq::<u8>::empty(), g)
        && match g {
            Ok(s) => Ok::<Vec<(String, usize)>, StoreError>(depths) matches Ok(d) && counted_depths(depths_view(d@), s),
            Err(e) => Ok::<Vec<(String, usize)>, StoreError>(depths) == Err::<Vec<(String, usize)>, StoreError>(e),
        };
    let ready = ready_destinations(depths.as_slice(), backed_off);
    let ghost rv = names_view(ready@);
    let mut batches: Vec<(String, Vec<Vec<u8>>)> = Vec::new();
    let ghost mut drains: Seq<Seq<Seq<u8>>> = Seq::empty();
    let mut i: usize = 0;
    proof {
        assert(rv.take(0) =~= Seq::<Seq<char>>::empty());
        assert(batches_view(batches@) =~= Seq::<(Seq<char>, Seq<Seq<u8>>)>::empty());
    }
    while i < ready.len()
        invariant
            rv == names_view(ready@),
            rv == ready_list(depths_view(depths@), names_view(backed_off@)),
            store.scan_gives(Domain::FederationQueue, Seq::<u8>::empty(), g),
            g matches Ok(s) && counted_depths(depths_view(depths@), s),
            i <= ready@.len(),
            drains.len() == i,
            forall|j: int| 0 <= j < i ==> #[trigger] drained(*store, rv[j], drains[j]),
            batches_view(batches@) == keep_nonempty(rv.take(i as int), drains),
        decreases ready@.len() - i,
    {
        let items = match drain_queue(store, ready[i].as_str()) {
            Ok(items) => items,
            Err(e) => {
                proof {
                    let h = choose|h: Result<Seq<(Seq<u8>, Seq<u8>)>, StoreError>|
                        #[trigger] store.scan_gives(Domain::FederationQueue, queue_prefix_of(ready@[i as int]@), h)
                        && match h {
                            Err(x) => Err::<Vec<Vec<u8>>, StoreError>(e) == Err::<Vec<Vec<u8>>, StoreError>(x),
                            Ok(s) => {
                                &&& Err::<Vec<Vec<u8>>, StoreError>(e) matches Ok(items) ==> items_view(items@) == scan_values(s)
                                    && forall|k: int| 0 <= k < s.len() ==> #[trigger] queue_delete_succeeds(store, s[k].0)
                                &&& Err::<Vec<Vec<u8>>, StoreError>(e) matches Err(x) ==> exists|k: int| 0 <= k < s.len() && #[trigger] store.commit_gives(
                                    seq![(Domain::FederationQueue, s[k].0, None::<Seq<u8>>)], Err(x))
                            },
                        };
                    assert(rv[i as int] == ready@[i as int]@);
                    assert(drain_fails(*store, rv[drains.len() as int], e));
                    assert(drains_outcome(*store, rv, Err(e)));
                    assert(counted_depths(depths_view(depths@), g->Ok_0));
                    assert(due_view(Err(e)) == Err::<Seq<(Seq<char>, Seq<Seq<u8>>)>, StoreError>(e));
                }
                return Err(e);
            },
        };
        let ghost d0 = drains;
        let ghost b0 = batches@;
        proof {
            drains = drains.push(items_view(items@));
            assert(rv[i as int] == ready@[i as int]@);
            assert(rv.take(i + 1).drop_last() =~= rv.take(i as int));
            assert(rv.take(i + 1).last() == rv[i as int]);
            assert(drains.drop_last() =~= d0);
            assert forall|j: int| 0 <= j < i + 1 implies #[trigger] drained(*store, rv[j], drains[j]) by {
                if j < i {
                    assert(drains[j] == d0[j]);
                }
            }
        }
        if items.len() > 0 {
            batches.push((ready[i].clone(), items));
            proof {
                assert(batches_view(batches@) =~= batches_view(b0).push((rv[i as int], drains.last())));
            }
        }
        i = i + 1;
    }
    proof {
        assert(rv.take(ready@.len() as int) =~= rv);
        assert(drains_outcome(*store, rv, due_view(Ok(batches))));
        assert(counted_depths(depths_view(depths@), g->Ok_0));
    }
    Ok(batches)
}

/// The greatest queue sequence currently persisted (0 if the queue is
/// empty), so a restart resumes assigning increasing keys: the greatest of
/// what the scan of the queue domain gives, or that scan's failure.
pub fn max_queue_seq(store: &DynStore) -> (r: Result<u64, StoreError>)
    ensures
        exists|g: Result<Seq<(Seq<u8>, Seq<u8>)>, StoreError>|
            #[trigger] store.scan_gives(Domain::FederationQueue, Seq::<u8>::empty(), g)
            && r == (match g {
                Ok(s) => Ok::<u64, StoreError>(max_seq_spec(s)),
                Err(e) => Err(e),
            }),
{
    let empty: [u8; 0] = [];
    let scanned = store.prefix_scan(Domain::FederationQueue, &empty);
    let ghost g = scan_view(scanned);
    proof {
        assert(empty@ =~= Seq::<u8>::empty());
        assert(store.scan_gives(Domain::FederationQueue, Seq::<u8>::empty(), g));
    }
    match scanned {
        Ok(scanned) => Ok(max_seq(scanned.as_slice())),
        Err(e) => Err(e),
    }
}

/// A health record: `attempt_be(4) || available_at_be(8)`.
pub open spec fn health_record(attempt: u32, available_at: u64) -> Seq<u8> {
    be_u32(attempt) + be_u64(available_at)
}

/// Encode a health record as `attempt_be(4) || available_at_be(8)`.
pub fn encode_health(attempt: u32, available_at: u64) -> (r: Vec<u8>)
    ensures
        r@ == health_record(attempt, available_at),
{
    let mut value: Vec<u8> = Vec::new();
    push_be_u32(&mut value, attempt);
    push_be_u64(&mut value, available_at);
    proof {
        assert(value@ =~= be_u32(attempt) + be_u64(available_at));
    }
    value
}

/// The `(attempt, available_at)` a stored health record holds: its first 12
/// bytes, or nothing when it is shorter.
pub open spec fn health_of(bytes: Seq<u8>) -> Option<(u32, u64)> {
    if bytes.len() < 12 {
        None
    } else {
        Some((u32_from_be(bytes.subrange(0, 4)), u64_from_be(bytes.subrange(4, 12))))
    }
}

/// Decode a health record written by [`encode_health`]: the first 12 bytes
/// are read; a shorter record is refused.
pub fn decode_health(bytes: &[u8]) -> (r: Option<(u32, u64)>)
    ensures
        r == health_of(bytes@),
{
    if bytes.len() < 12 {
        return None;
    }
    Some((read_be_u32(bytes, 0), read_be_u64(bytes, 4)))
}

/// The health records a scan of the health domain holds, in scan order: each
/// key that is UTF-8 text names a destination, with the record its value
/// decodes to; entries with another key or a short value are skipped.
pub open spec fn health_entries(scanned: Seq<(Seq<u8>, Seq<u8>)>) -> Seq<(Seq<char>, u32, u64)>
    decreases scanned.len(),
{
    if scanned.len() == 0 {
        Seq::empty()
    } else {
        let rest = health_entries(scanned.drop_last());
        let (key, value) = scanned.last();
        match health_of(value) {
            Some((attempt, available_at)) => if vstd::utf8::valid_utf8(key) {
                rest.push((vstd::utf8::decode_utf8(key), attempt, available_at))
            } else {
                rest
            },
            None => rest,
        }
    }
}

/// The values of health records.
pub open spec fn records_view(records: Seq<(String, u32, u64)>) -> Seq<(Seq<char>, u32, u64)> {
    records.map_values(|e: (String, u32, u64)| (e.0@, e.1, e.2))
}

/// The per-destination health to restore from a scan of the health domain.
pub fn health_records(scanned: &[Entry<Vec<u8>>]) -> (r: Vec<(String, u32, u64)>)
    ensures
        records_view(r@) == health_entries(entries_view(scanned@)),
        r@.len() == health_entries(entries_view(scanned@)).len(),
        forall|i: int| 0 <= i < r@.len() ==> {
            let e = #[trigger] health_entries(entries_view(scanned@))[i];
            r@[i].0@ == e.0 && r@[i].1 == e.1 && r@[i].2 == e.2
        },
{
    let ghost sv = entries_view(scanned@);
    let mut out: Vec<(String, u32, u64)> = Vec::new();
    let mut i: usize = 0;
    while i < scanned.len()
        invariant
            sv == entries_view(scanned@),
            i <= scanned@.len(),
            out@.len() == health_entries(sv.take(i as int)).len(),
            forall|t: int| 0 <= t < out@.len() ==> {
                let e = #[trigger] health_entries(sv.take(i as int))[t];
                out@[t].0@ == e.0 && out@[t].1 == e.1 && out@[t].2 == e.2
            },
        decreases scanned@.len() - i,
    {
        proof {
            assert(sv.take(i + 1).drop_last() =~= sv.take(i as int));
            assert(sv.take(i + 1).last() == sv[i as int]);
        }
        let key = scanned[i].0.as_slice();
        let value = scanned[i].1.as_slice();
        match decode_health(value) {
            Some((attempt, available_at)) => {
                match utf8_text(key) {
                    Some(text) => {
                        proof {
                            vstd::utf8::encode_utf8_decode_utf8(text@);
                            vstd::utf8::encode_utf8_valid_utf8(text@);
                        }
                        out.push((text.to_owned(), attempt, available_at));
                    },
                    None => {},
                }
            },
            None => {},
        }
        i = i + 1;
    }
    proof {
        assert(sv.take(scanned@.len() as int) =~= sv);
        assert(records_view(out@) =~= health_entries(sv));
    }
    out
}

/// Read the persisted per-destination health from the store, to restore the
/// sender's backoff state on startup: the records of what the scan of the
/// health domain gives, or that scan's failure.
pub fn restore_health(store: &DynStore) -> (r: Result<Vec<(String, u32, u64)>, StoreError>)
    ensures
        exists|g: Result<Seq<(Seq<u8>, Seq<u8>)>, StoreError>|
            #[trigger] store.scan_gives(Domain::FederationHealth, Seq::<u8>::empty(), g)
            && match g {
                Ok(s) => r matches Ok(records) && records_view(records@) == health_entries(s),
                Err(e) => r == Err::<Vec<(String, u32, u64)>, StoreError>(e),
            },
{
    let empty: [u8; 0] = [];
    let scanned = store.prefix_scan(Domain::FederationHealth, &empty);
    let ghost g = scan_view(scanned);
    proof {
        assert(empty@ =~= Seq::<u8>::empty());
        assert(store.scan_gives(Domain::FederationHealth, Seq::<u8>::empty(), g));
    }
    match scanned {
        Ok(scanned) => Ok(health_records(scanned.as_slice())),
        Err(e) => Err(e),
    }
}

} // verus!
