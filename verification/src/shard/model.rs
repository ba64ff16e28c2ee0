//! The abstract placement model: a ring of points, each owned by a shard, and
//! the laws of consistent hashing over it.

use vstd::prelude::*;
use vstd::utf8::encode_utf8;

use crate::shard::hash::{place_hash, vnode_key};

verus! {

/// The abstract ring: each occupied point and the shard that owns it.
pub type RingModel = Map<u64, Seq<char>>;

/// The number of virtual nodes placed per shard.
pub const VIRTUAL_NODES: u32 = 128;

/// Whether `p` is the first occupied point at or after `h`.
pub open spec fn is_successor(r: RingModel, h: u64, p: u64) -> bool {
    &&& r.dom().contains(p)
    &&& h <= p
    &&& forall|q: u64| #[trigger] r.dom().contains(q) && h <= q ==> p <= q
}

/// Whether `p` is the lowest occupied point.
pub open spec fn is_first_point(r: RingModel, p: u64) -> bool {
    &&& r.dom().contains(p)
    &&& forall|q: u64| #[trigger] r.dom().contains(q) ==> p <= q
}

/// The shard owning ring position `h`: the owner of the first point at or
/// after `h`, wrapping around to the lowest point; `None` on an empty ring.
pub open spec fn owner_of(r: RingModel, h: u64) -> Option<Seq<char>> {
    if exists|p: u64| is_successor(r, h, p) {
        Some(r[choose|p: u64| is_successor(r, h, p)])
    } else if exists|p: u64| is_first_point(r, p) {
        Some(r[choose|p: u64| is_first_point(r, p)])
    } else {
        None
    }
}

/// The ring position of a room.
pub open spec fn room_point(room: Seq<char>) -> u64 {
    place_hash(encode_utf8(room))
}

/// The shard a ring places `room` on.
pub open spec fn placement(r: RingModel, room: Seq<char>) -> Option<Seq<char>> {
    owner_of(r, room_point(room))
}

/// The ring point of a shard's `vnode`-th virtual node.
pub open spec fn vnode_point(shard: Seq<char>, vnode: u32) -> u64 {
    place_hash(vnode_key(encode_utf8(shard), vnode))
}

/// The ring after placing the first `n` virtual nodes of `shard`, in order
/// (a later point overwrites the owner of an equal earlier one).
pub open spec fn add_vnodes(r: RingModel, shard: Seq<char>, n: nat) -> RingModel
    decreases n,
{
    if n == 0 {
        r
    } else {
        add_vnodes(r, shard, (n - 1) as nat).insert(vnode_point(shard, (n - 1) as u32), shard)
    }
}

/// The ring without the points owned by `shard`.
pub open spec fn without_owner(r: RingModel, shard: Seq<char>) -> RingModel {
    Map::new(|p: u64| r.dom().contains(p) && r[p] != shard, |p: u64| r[p])
}

/// Some point at or after `h` implies a first such point.
pub proof fn lemma_successor_exists(r: RingModel, h: u64, q: u64)
    requires
        r.dom().contains(q),
        h <= q,
    ensures
        exists|p: u64| is_successor(r, h, p),
    decreases q - h,
{
    if !is_successor(r, h, q) {
        let q2 = choose|q2: u64| r.dom().contains(q2) && h <= q2 && !(q <= q2);
        lemma_successor_exists(r, h, q2);
    }
}

/// A non-empty ring has a lowest point.
pub proof fn lemma_first_exists(r: RingModel, q: u64)
    requires
        r.dom().contains(q),
    ensures
        exists|p: u64| is_first_point(r, p),
    decreases q,
{
    if !is_first_point(r, q) {
        let q2 = choose|q2: u64| r.dom().contains(q2) && !(q <= q2);
        lemma_first_exists(r, q2);
    }
}

/// The owner of `h` when `p` is its successor.
pub proof fn lemma_owner_at_successor(r: RingModel, h: u64, p: u64)
    requires
        is_successor(r, h, p),
    ensures
        owner_of(r, h) == Some(r[p]),
{
    let c = choose|c: u64| is_successor(r, h, c);
    assert(c <= p && p <= c);
}

/// The owner of `h` when nothing lies at or after it and `p` is the lowest
/// point.
pub proof fn lemma_owner_at_first(r: RingModel, h: u64, p: u64)
    requires
        is_first_point(r, p),
        forall|q: u64| #[trigger] r.dom().contains(q) ==> q < h,
    ensures
        owner_of(r, h) == Some(r[p]),
{
    assert(!exists|x: u64| is_successor(r, h, x));
    let c = choose|c: u64| is_first_point(r, c);
    assert(c <= p && p <= c);
}

/// A placed position's owner owns some point of the ring.
pub proof fn lemma_owner_owns_a_point(r: RingModel, h: u64)
    ensures
        owner_of(r, h) matches Some(o) ==> exists|p: u64| r.dom().contains(p) && #[trigger] r[p] == o,
{
    if exists|p: u64| is_successor(r, h, p) {
        let p = choose|p: u64| is_successor(r, h, p);
        assert(r[p] == r[p]);
    } else if exists|p: u64| is_first_point(r, p) {
        let p = choose|p: u64| is_first_point(r, p);
        assert(r[p] == r[p]);
    }
}

/// A ring places a position on some shard exactly when it is non-empty.
pub proof fn lemma_owner_none_iff_empty(r: RingModel, h: u64)
    ensures
        owner_of(r, h) is None <==> r.dom() =~= Set::<u64>::empty(),
{
    if !(r.dom() =~= Set::<u64>::empty()) {
        let q = choose|q: u64| r.dom().contains(q);
        lemma_first_exists(r, q);
    }
}

/// Placing one point owned by `s` changes the owner of a position only to
/// `s`.
pub proof fn lemma_insert_point(r: RingModel, p: u64, s: Seq<char>, h: u64)
    ensures
        owner_of(r.insert(p, s), h) == owner_of(r, h) || owner_of(r.insert(p, s), h) == Some(s),
{
    let r2 = r.insert(p, s);
    if exists|a: u64| is_successor(r, h, a) {
        let a = choose|a: u64| is_successor(r, h, a);
        lemma_owner_at_successor(r, h, a);
        if h <= p && p <= a {
            assert(is_successor(r2, h, p));
            lemma_owner_at_successor(r2, h, p);
        } else {
            assert(is_successor(r2, h, a));
            lemma_owner_at_successor(r2, h, a);
        }
    } else if exists|f: u64| is_first_point(r, f) {
        let f = choose|f: u64| is_first_point(r, f);
        assert forall|q: u64| #[trigger] r.dom().contains(q) implies q < h by {
            if h <= q {
                lemma_successor_exists(r, h, q);
            }
        }
        if h <= p {
            assert(is_successor(r2, h, p));
            lemma_owner_at_successor(r2, h, p);
        } else {
            assert forall|q: u64| #[trigger] r2.dom().contains(q) implies q < h by {
                if q != p {
                    assert(r.dom().contains(q));
                }
            }
            lemma_owner_at_first(r, h, f);
            if p <= f {
                assert(is_first_point(r2, p));
                lemma_owner_at_first(r2, h, p);
            } else {
                assert(is_first_point(r2, f));
                lemma_owner_at_first(r2, h, f);
            }
        }
    } else {
        assert forall|q: u64| !#[trigger] r.dom().contains(q) by {
            if r.dom().contains(q) {
                lemma_first_exists(r, q);
            }
        }
        if h <= p {
            assert(is_successor(r2, h, p));
            lemma_owner_at_successor(r2, h, p);
        } else {
            assert(is_first_point(r2, p));
            assert forall|q: u64| #[trigger] r2.dom().contains(q) implies q < h by {}
            lemma_owner_at_first(r2, h, p);
        }
    }
}

/// Consistent hashing, growth: adding a shard's virtual nodes moves a room
/// only onto the added shard; every other room keeps its owner.
pub proof fn lemma_add_moves_only_onto_new_shard(r: RingModel, shard: Seq<char>, n: nat, h: u64)
    ensures
        owner_of(add_vnodes(r, shard, n), h) == owner_of(r, h)
            || owner_of(add_vnodes(r, shard, n), h) == Some(shard),
    decreases n,
{
    if n > 0 {
        lemma_add_moves_only_onto_new_shard(r, shard, (n - 1) as nat, h);
        lemma_insert_point(add_vnodes(r, shard, (n - 1) as nat), vnode_point(shard, (n - 1) as u32), shard, h);
    }
}

/// Consistent hashing, drain: removing a shard's points leaves every room it
/// did not own with the same owner.
pub proof fn lemma_remove_keeps_other_owners(r: RingModel, shard: Seq<char>, h: u64, o: Seq<char>)
    requires
        owner_of(r, h) == Some(o),
        o != shard,
    ensures
        owner_of(without_owner(r, shard), h) == Some(o),
{
    let r2 = without_owner(r, shard);
    if exists|a: u64| is_successor(r, h, a) {
        let a = choose|a: u64| is_successor(r, h, a);
        lemma_owner_at_successor(r, h, a);
        assert(is_successor(r2, h, a));
        lemma_owner_at_successor(r2, h, a);
    } else {
        let f = choose|f: u64| is_first_point(r, f);
        assert forall|q: u64| #[trigger] r.dom().contains(q) implies q < h by {
            if h <= q {
                lemma_successor_exists(r, h, q);
            }
        }
        lemma_owner_at_first(r, h, f);
        assert(is_first_point(r2, f));
        assert forall|q: u64| #[trigger] r2.dom().contains(q) implies q < h by {
            assert(r.dom().contains(q));
        }
        lemma_owner_at_first(r2, h, f);
    }
}

/// After draining a shard no position is placed on it.
pub proof fn lemma_removed_shard_owns_nothing(r: RingModel, shard: Seq<char>, h: u64)
    ensures
        owner_of(without_owner(r, shard), h) != Some(shard),
{
    let r2 = without_owner(r, shard);
    if exists|a: u64| is_successor(r2, h, a) {
        let a = choose|a: u64| is_successor(r2, h, a);
        lemma_owner_at_successor(r2, h, a);
    } else if exists|f: u64| is_first_point(r2, f) {
        let f = choose|f: u64| is_first_point(r2, f);
        assert forall|q: u64| #[trigger] r2.dom().contains(q) implies q < h by {
            if h <= q {
                lemma_successor_exists(r2, h, q);
            }
        }
        lemma_owner_at_first(r2, h, f);
    }
}

/// An empty ring places nothing.
pub proof fn lemma_empty_ring_places_nothing(h: u64)
    ensures
        owner_of(Map::<u64, Seq<char>>::empty(), h) is None,
{
    lemma_owner_none_iff_empty(Map::<u64, Seq<char>>::empty(), h);
}

/// A ring of one shard's virtual nodes places every position on that shard.
pub proof fn lemma_single_shard_owns_all(shard: Seq<char>, n: nat, h: u64)
    requires
        n > 0,
    ensures
        owner_of(add_vnodes(Map::<u64, Seq<char>>::empty(), shard, n), h) == Some(shard),
{
    let r = add_vnodes(Map::<u64, Seq<char>>::empty(), shard, n);
    lemma_add_moves_only_onto_new_shard(Map::<u64, Seq<char>>::empty(), shard, n, h);
    lemma_empty_ring_places_nothing(h);
    assert(r.dom().contains(vnode_point(shard, (n - 1) as u32)));
    lemma_owner_none_iff_empty(r, h);
}

} // verus!
