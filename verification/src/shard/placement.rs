//! Room placement across worker shards: a thin front-end over the
//! consistent-hash [`ShardRing`]. Given the set of worker shards, every
//! front-end places a room on the same shard without coordination. In the
//! single-node profile the ring carries one shard — this server — so every
//! room places locally.

use vstd::prelude::*;

use crate::bytes::str_eq;
use crate::shard::model::{add_vnodes, lemma_owner_none_iff_empty, lemma_single_shard_owns_all, placement, room_point, vnode_point, RingModel, VIRTUAL_NODES};
use crate::shard::ring::ShardRing;

verus! {

/// The ring built by adding `shards` in order: each shard's virtual nodes
/// are placed once, at its first occurrence, and a later shard's point
/// takes over an equal point placed before it.
pub open spec fn built_ring(shards: Seq<Seq<char>>) -> RingModel
    decreases shards.len(),
{
    if shards.len() == 0 {
        Map::empty()
    } else {
        let prev = shards.drop_last();
        if prev.contains(shards.last()) {
            built_ring(prev)
        } else {
            add_vnodes(built_ring(prev), shards.last(), VIRTUAL_NODES as nat)
        }
    }
}

/// Whether no two different shards among `shards` place a virtual node at
/// the same point of the ring.
pub open spec fn vnodes_disjoint(shards: Seq<Seq<char>>) -> bool {
    forall|x: Seq<char>, y: Seq<char>, i: u32, j: u32|
        shards.contains(x) && shards.contains(y) && x != y && i < VIRTUAL_NODES && j < VIRTUAL_NODES
            ==> #[trigger] vnode_point(x, i) != #[trigger] vnode_point(y, j)
}

/// Whether `p` is one of the first `n` virtual-node points of `shard`.
pub open spec fn is_vnode_of(shard: Seq<char>, n: nat, p: u64) -> bool {
    exists|i: u32| i < n && #[trigger] vnode_point(shard, i) == p
}

/// The points the first `n` virtual nodes of `shard` add, and who owns each
/// point afterwards.
proof fn lemma_add_vnodes_at(r: RingModel, shard: Seq<char>, n: nat, p: u64)
    requires
        n <= VIRTUAL_NODES,
    ensures
        add_vnodes(r, shard, n).contains_key(p) <==> r.contains_key(p) || is_vnode_of(shard, n, p),
        is_vnode_of(shard, n, p) ==> add_vnodes(r, shard, n)[p] == shard,
        !is_vnode_of(shard, n, p) ==> add_vnodes(r, shard, n)[p] == r[p],
    decreases n,
{
    if n > 0 {
        let m = (n - 1) as nat;
        lemma_add_vnodes_at(r, shard, m, p);
        let q = vnode_point(shard, m as u32);
        if is_vnode_of(shard, n, p) && p != q {
            let i = choose|i: u32| i < n && #[trigger] vnode_point(shard, i) == p;
            assert(i < m);
            assert(is_vnode_of(shard, m, p));
        }
        if is_vnode_of(shard, m, p) {
            let i = choose|i: u32| i < m && #[trigger] vnode_point(shard, i) == p;
            assert(is_vnode_of(shard, n, p));
        }
        if p == q {
            assert(is_vnode_of(shard, n, p));
        }
    }
}

/// Without colliding virtual nodes, the ring a list of shards builds holds
/// exactly their virtual-node points, each owned by its shard.
proof fn lemma_built_ring_at(s: Seq<Seq<char>>, p: u64)
    requires
        vnodes_disjoint(s),
    ensures
        built_ring(s).contains_key(p) <==> exists|x: Seq<char>| s.contains(x) && #[trigger] is_vnode_of(x, VIRTUAL_NODES as nat, p),
        forall|x: Seq<char>| s.contains(x) && #[trigger] is_vnode_of(x, VIRTUAL_NODES as nat, p) ==> built_ring(s)[p] == x,
    decreases s.len(),
{
    let n = VIRTUAL_NODES as nat;
    if s.len() > 0 {
        let prev = s.drop_last();
        let last = s.last();
        assert forall|x: Seq<char>| prev.contains(x) implies s.contains(x) by {
            let k = choose|k: int| 0 <= k < prev.len() && prev[k] == x;
            assert(s[k] == x);
        }
        assert(s.contains(last)) by {
            assert(s[s.len() - 1] == last);
        }
        assert forall|x: Seq<char>| s.contains(x) implies prev.contains(x) || x == last by {
            let k = choose|k: int| 0 <= k < s.len() && s[k] == x;
            if k < s.len() - 1 {
                assert(prev[k] == x);
            }
        }
        lemma_built_ring_at(prev, p);
        if !prev.contains(last) {
            lemma_add_vnodes_at(built_ring(prev), last, n, p);
        }
        assert forall|x: Seq<char>| s.contains(x) && #[trigger] is_vnode_of(x, n, p) implies built_ring(s)[p] == x by {
            if x != last && is_vnode_of(last, n, p) {
                let i = choose|i: u32| i < n && #[trigger] vnode_point(x, i) == p;
                let j = choose|j: u32| j < n && #[trigger] vnode_point(last, j) == p;
                assert(vnode_point(x, i) != vnode_point(last, j));
            }
        }
        if exists|x: Seq<char>| s.contains(x) && #[trigger] is_vnode_of(x, n, p) {
            let x = choose|x: Seq<char>| s.contains(x) && #[trigger] is_vnode_of(x, n, p);
            if x != last {
                assert(prev.contains(x));
            }
        }
    }
}

/// Placement depends on the set of shards only, not on the order they are
/// listed in, when no two shards place a virtual node at the same point:
/// two lists of the same shards build the same ring.
pub proof fn lemma_built_ring_order_independent(a: Seq<Seq<char>>, b: Seq<Seq<char>>)
    requires
        a.to_set() == b.to_set(),
        vnodes_disjoint(a),
    ensures
        built_ring(a) == built_ring(b),
{
    assert forall|x: Seq<char>| a.contains(x) <==> b.contains(x) by {
        assert(a.to_set().contains(x) == a.contains(x));
        assert(b.to_set().contains(x) == b.contains(x));
        assert(a.to_set().contains(x) == b.to_set().contains(x));
    }
    assert(vnodes_disjoint(b));
    assert forall|p: u64| #[trigger] built_ring(a).contains_key(p) <==> built_ring(b).contains_key(p) by {
        lemma_built_ring_at(a, p);
        lemma_built_ring_at(b, p);
    }
    assert forall|p: u64| #[trigger] built_ring(a).contains_key(p) implies built_ring(a)[p] == built_ring(b)[p] by {
        lemma_built_ring_at(a, p);
        lemma_built_ring_at(b, p);
        let x = choose|x: Seq<char>| a.contains(x) && #[trigger] is_vnode_of(x, VIRTUAL_NODES as nat, p);
        assert(b.contains(x));
    }
    assert(built_ring(a) =~= built_ring(b));
}

/// The ring a non-empty list of shards builds holds some point.
proof fn lemma_built_ring_nonempty(s: Seq<Seq<char>>)
    requires
        s.len() > 0,
    ensures
        exists|p: u64| built_ring(s).dom().contains(p),
    decreases s.len(),
{
    let prev = s.drop_last();
    if prev.contains(s.last()) {
        lemma_built_ring_nonempty(prev);
        assert(built_ring(s) == built_ring(prev));
        let p = choose|p: u64| built_ring(prev).dom().contains(p);
        assert(built_ring(s).dom().contains(p));
    } else {
        let q = vnode_point(s.last(), 0);
        lemma_add_vnodes_at(built_ring(prev), s.last(), VIRTUAL_NODES as nat, q);
        assert(is_vnode_of(s.last(), VIRTUAL_NODES as nat, q));
        assert(built_ring(s).dom().contains(q));
    }
}

/// A placement built over a list of shards leaves a room unplaced exactly
/// when the list is empty.
pub proof fn lemma_built_ring_unplaced_iff_no_shards(s: Seq<Seq<char>>, room: Seq<char>)
    ensures
        placement(built_ring(s), room) is None <==> s.len() == 0,
{
    lemma_owner_none_iff_empty(built_ring(s), room_point(room));
    if s.len() == 0 {
        assert(built_ring(s).dom() =~= Set::<u64>::empty());
    } else {
        lemma_built_ring_nonempty(s);
        let p = choose|p: u64| built_ring(s).dom().contains(p);
        assert(!Set::<u64>::empty().contains(p));
    }
}

/// Two placements built over the same shards, listed in any order, place
/// every room alike, when no two shards put a virtual node on the same point.
pub proof fn lemma_placement_ignores_shard_order(a: Seq<Seq<char>>, b: Seq<Seq<char>>, room: Seq<char>)
    requires
        a.to_set() == b.to_set(),
        vnodes_disjoint(a),
    ensures
        placement(built_ring(a), room) == placement(built_ring(b), room),
{
    lemma_built_ring_order_independent(a, b);
}

/// Consistent-hash placement of rooms onto worker shards.
pub struct RoomPlacement {
    ring: ShardRing,
}

impl RoomPlacement {
    #[verifier::type_invariant]
    spec fn ring_wf(&self) -> bool {
        &&& self.ring.wf()
        &&& exists|s: Seq<Seq<char>>| #[trigger] built_ring(s) == self.ring.ring_model() && s.to_set() == self.ring.shard_set()
    }

    /// The placement ring's points and their owners.
    pub closed spec fn model(&self) -> RingModel {
        self.ring.ring_model()
    }

    /// The shards placement spreads rooms over.
    pub closed spec fn shards(&self) -> Set<Seq<char>> {
        self.ring.shard_set()
    }

    /// Build a placement over `shards`: the ring that adding each shard in
    /// turn builds.
    pub fn new(shards: &[String]) -> (r: Self)
        ensures
            r.shards() == shards@.map_values(|s: String| s@).to_set(),
            r.model() == built_ring(shards@.map_values(|s: String| s@)),
    {
        let mut ring = ShardRing::new();
        let ghost sv = shards@.map_values(|s: String| s@);
        let mut i: usize = 0;
        proof {
            assert(ring.shard_set() =~= sv.take(0).to_set());
            assert(sv.take(0) =~= Seq::<Seq<char>>::empty());
        }
        while i < shards.len()
            invariant
                sv == shards@.map_values(|s: String| s@),
                i <= shards@.len(),
                ring.shard_set() == sv.take(i as int).to_set(),
                ring.ring_model() == built_ring(sv.take(i as int)),
            decreases shards@.len() - i,
        {
            ring.add_shard(shards[i].as_str());
            proof {
                let t = sv.take(i + 1);
                assert(t.drop_last() =~= sv.take(i as int));
                assert(t.last() == shards@[i as int]@);
                assert(sv.take(i as int).to_set().contains(shards@[i as int]@) <==> sv.take(i as int).contains(shards@[i as int]@));
                assert(sv.take(i + 1) =~= sv.take(i as int).push(shards@[i as int]@));
                assert(sv.take(i as int).push(shards@[i as int]@).to_set() =~= sv.take(i as int).to_set().insert(shards@[i as int]@)) by {
                    let t = sv.take(i as int);
                    let u = t.push(shards@[i as int]@);
                    assert forall|x: Seq<char>| u.to_set().contains(x) <==> t.to_set().insert(shards@[i as int]@).contains(x) by {
                        assert(u[t.len() as int] == shards@[i as int]@);
                        if u.contains(x) {
                            let k = choose|k: int| 0 <= k < u.len() && u[k] == x;
                            if k < t.len() {
                                assert(t[k] == x);
                            }
                        }
                        if t.contains(x) {
                            let k = choose|k: int| 0 <= k < t.len() && t[k] == x;
                            assert(u[k] == x);
                        }
                    }
                }
                if ring.shard_set() != sv.take(i + 1).to_set() {
                    assert(ring.shard_set() =~= sv.take(i + 1).to_set());
                }
            }
            i = i + 1;
        }
        proof {
            assert(sv.take(shards@.len() as int) =~= sv);
            use_type_invariant(&ring);
        }
        RoomPlacement { ring }
    }

    /// A single-node placement: every room places on the local server.
    pub fn local(server_name: &str) -> (r: Self)
        ensures
            r.shards() == Set::<Seq<char>>::empty().insert(server_name@),
            forall|room: Seq<char>| #[trigger] placement(r.model(), room) == Some(server_name@),
    {
        let mut ring = ShardRing::new();
        ring.add_shard(server_name);
        proof {
            use_type_invariant(&ring);
            let s = seq![server_name@];
            assert(s.drop_last() =~= Seq::<Seq<char>>::empty());
            assert(built_ring(s.drop_last()) == Map::<u64, Seq<char>>::empty());
            assert(built_ring(s) == ring.ring_model());
            assert(s.to_set() =~= ring.shard_set()) by {
                assert(s[0] == server_name@);
            }
        }
        let r = RoomPlacement { ring };
        proof {
            assert forall|room: Seq<char>| #[trigger] placement(r.model(), room) == Some(server_name@) by {
                lemma_single_shard_owns_all(server_name@, VIRTUAL_NODES as nat, room_point(room));
            }
        }
        r
    }

    /// The shard that owns `room_id`, or `None` if no shards are
    /// configured.
    pub fn shard_for(&self, room_id: &str) -> (r: Option<&str>)
        ensures
            match r {
                Some(s) => placement(self.model(), room_id@) == Some(s@) && self.shards().contains(s@),
                None => placement(self.model(), room_id@) is None,
            },
            r is None <==> self.shards() == Set::<Seq<char>>::empty(),
    {
        proof {
            use_type_invariant(self);
            let s = choose|s: Seq<Seq<char>>| #[trigger] built_ring(s) == self.ring.ring_model() && s.to_set() == self.ring.shard_set();
            lemma_built_ring_unplaced_iff_no_shards(s, room_id@);
            if s.len() > 0 {
                assert(s.to_set().contains(s[0]));
            } else {
                assert(s.to_set() =~= Set::<Seq<char>>::empty());
            }
        }
        self.ring.shard_for(room_id)
    }

    /// Whether `room_id` is owned by `shard`.
    pub fn is_owned_by(&self, room_id: &str, shard: &str) -> (r: bool)
        ensures
            r == (placement(self.model(), room_id@) == Some(shard@)),
    {
        match self.shard_for(room_id) {
            Some(owner) => str_eq(owner, shard),
            None => false,
        }
    }

    /// The number of shards in the ring.
    pub fn len(&self) -> (r: usize)
        ensures
            r == self.shards().len(),
    {
        proof {
            use_type_invariant(self);
        }
        self.ring.len()
    }

    /// Whether the ring has no shards.
    pub fn is_empty(&self) -> (r: bool)
        ensures
            r == (self.shards() == Set::<Seq<char>>::empty()),
    {
        proof {
            use_type_invariant(self);
        }
        let r = self.ring.is_empty();
        proof {
            let q = self.ring.shard_seq();
            if r {
                assert(q.to_set() =~= Set::<Seq<char>>::empty());
            } else {
                assert(q.to_set().contains(q[0]));
            }
        }
        r
    }
}

/// Install the front-end placement ring for the local server: the
/// single-node seam, which grows to a multi-worker ring without touching
/// call sites that consult [`RoomPlacement`].
pub fn init_local(server_name: &str) -> (r: RoomPlacement)
    ensures
        r.shards() == Set::<Seq<char>>::empty().insert(server_name@),
        forall|room: Seq<char>| #[trigger] placement(r.model(), room) == Some(server_name@),
{
    RoomPlacement::local(server_name)
}

} // verus!
