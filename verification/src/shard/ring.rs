//! The consistent-hash placement ring.

use vstd::prelude::*;
use vstd::string::*;

use crate::bytes::{compare_str, lemma_str_lt_order, str_eq, str_lt};
use crate::shard::hash::{hash, virtual_node_hash};
use crate::shard::model::{
    add_vnodes, is_first_point, is_successor, lemma_owner_at_first, lemma_owner_at_successor,
    lemma_owner_none_iff_empty, lemma_owner_owns_a_point, owner_of, placement, room_point, vnode_point, without_owner,
    RingModel, VIRTUAL_NODES,
};

verus! {

/// A shard identifier (e.g. a worker name or address).
pub type ShardId = String;

/// A room whose owning shard changes between two ring states.
#[derive(Clone, Debug, PartialEq, Eq)]
pub struct Reassignment {
    /// The affected room.
    pub room: String,
    /// The shard that owned it before.
    pub from: ShardId,
    /// The shard that owns it after.
    pub to: ShardId,
}

/// Whether the points of a ring strictly increase.
pub open spec fn points_sorted(s: Seq<(u64, String)>) -> bool {
    forall|i: int, j: int| 0 <= i < j < s.len() ==> #[trigger] s[i].0 < #[trigger] s[j].0
}

/// Whether some entry of `s` sits at point `p`.
pub open spec fn has_point(s: Seq<(u64, String)>, p: u64) -> bool {
    exists|i: int| 0 <= i < s.len() && #[trigger] s[i].0 == p
}

/// The position of the entry at point `p`, when there is one.
pub open spec fn point_index(s: Seq<(u64, String)>, p: u64) -> int {
    choose|i: int| 0 <= i < s.len() && #[trigger] s[i].0 == p
}

/// The ring a sorted sequence of points represents.
pub open spec fn points_map(s: Seq<(u64, String)>) -> RingModel {
    Map::new(|p: u64| has_point(s, p), |p: u64| s[point_index(s, p)].1@)
}

/// Whether a sequence of names strictly increases in byte order.
pub open spec fn names_sorted(s: Seq<String>) -> bool {
    forall|i: int, j: int| 0 <= i < j < s.len() ==> str_lt(#[trigger] s[i]@, #[trigger] s[j]@)
}

/// The views of a sequence of borrowed names.
pub open spec fn strs_view(s: Seq<&str>) -> Seq<Seq<char>> {
    s.map_values(|x: &str| x@)
}

/// The views of a sequence of names.
pub open spec fn names_view(s: Seq<String>) -> Seq<Seq<char>> {
    s.map_values(|x: String| x@)
}

/// The rooms, among `rooms`, whose owner differs between rings `a` and `b`
/// (both placing them), as `(room, from, to)`, in the order given.
pub open spec fn reassign_spec(a: RingModel, b: RingModel, rooms: Seq<Seq<char>>) -> Seq<(Seq<char>, Seq<char>, Seq<char>)>
    decreases rooms.len(),
{
    if rooms.len() == 0 {
        Seq::empty()
    } else {
        let prev = reassign_spec(a, b, rooms.drop_last());
        let room = rooms.last();
        match (placement(a, room), placement(b, room)) {
            (Some(from), Some(to)) => if from != to { prev.push((room, from, to)) } else { prev },
            _ => prev,
        }
    }
}

/// Comparing a ring with itself reassigns no room.
pub proof fn lemma_reassign_same_ring_empty(r: RingModel, rooms: Seq<Seq<char>>)
    ensures
        reassign_spec(r, r, rooms) == Seq::<(Seq<char>, Seq<char>, Seq<char>)>::empty(),
    decreases rooms.len(),
{
    if rooms.len() > 0 {
        lemma_reassign_same_ring_empty(r, rooms.drop_last());
    }
}

/// The view of a reassignment.
pub open spec fn reassignment_view(r: Reassignment) -> (Seq<char>, Seq<char>, Seq<char>) {
    (r.room@, r.from@, r.to@)
}

proof fn lemma_points_map_at(s: Seq<(u64, String)>, i: int)
    requires
        points_sorted(s),
        0 <= i < s.len(),
    ensures
        points_map(s).contains_key(s[i].0),
        points_map(s)[s[i].0] == s[i].1@,
{
    let p = s[i].0;
    assert(has_point(s, p));
    let j = point_index(s, p);
    if j < i {
        assert(s[j].0 < s[i].0);
    } else if i < j {
        assert(s[i].0 < s[j].0);
    }
}

/// Place `owner` at point `p` of a sorted ring, overwriting an owner already
/// there.
fn ring_put(ring: &mut Vec<(u64, String)>, p: u64, owner: String)
    requires
        points_sorted(old(ring)@),
    ensures
        points_sorted(final(ring)@),
        points_map(final(ring)@) == points_map(old(ring)@).insert(p, owner@),
{
    let ghost s = ring@;
    let mut pos: usize = 0;
    while pos < ring.len() && ring[pos].0 < p
        invariant
            s == ring@,
            pos <= s.len(),
            forall|j: int| 0 <= j < pos ==> #[trigger] s[j].0 < p,
        decreases s.len() - pos,
    {
        pos = pos + 1;
    }
    let ghost e = (p, owner);
    if pos < ring.len() && ring[pos].0 == p {
        ring.set(pos, (p, owner));
        proof {
            let t = s.update(pos as int, e);
            assert(t == ring@);
            assert forall|a: int, b: int| 0 <= a < b < t.len() implies #[trigger] t[a].0 < #[trigger] t[b].0 by {
                assert(s[a].0 < s[b].0);
            }
            let m1 = points_map(t);
            let m2 = points_map(s).insert(p, e.1@);
            assert forall|k: u64| m1.contains_key(k) <==> m2.contains_key(k) by {
                if has_point(t, k) {
                    let a = choose|a: int| 0 <= a < t.len() && #[trigger] t[a].0 == k;
                    assert(s[a].0 == k);
                }
                if has_point(s, k) {
                    let a = choose|a: int| 0 <= a < s.len() && #[trigger] s[a].0 == k;
                    assert(t[a].0 == k);
                }
            }
            assert forall|k: u64| m1.contains_key(k) implies m1[k] == m2[k] by {
                let a = choose|a: int| 0 <= a < t.len() && #[trigger] t[a].0 == k;
                lemma_points_map_at(t, a);
                if a != pos {
                    assert(t[a] == s[a]);
                    lemma_points_map_at(s, a);
                    if a < pos {
                        assert(s[a].0 < s[pos as int].0);
                    } else {
                        assert(s[pos as int].0 < s[a].0);
                    }
                }
            }
            assert(m1 =~= m2);
        }
    } else {
        ring.insert(pos, (p, owner));
        proof {
            let t = s.insert(pos as int, e);
            assert(t == ring@);
            assert forall|j: int| pos <= j < s.len() implies p < #[trigger] s[j].0 by {
                if j > pos {
                    assert(s[pos as int].0 < s[j].0);
                }
            }
            assert forall|a: int, b: int| 0 <= a < b < t.len() implies #[trigger] t[a].0 < #[trigger] t[b].0 by {
                if b < pos {
                } else if a < pos && b == pos {
                } else if a < pos && b > pos {
                    assert(t[b] == s[b - 1]);
                } else if a == pos {
                    assert(t[b] == s[b - 1]);
                } else {
                    assert(t[a] == s[a - 1]);
                    assert(t[b] == s[b - 1]);
                }
            }
            let m1 = points_map(t);
            let m2 = points_map(s).insert(p, e.1@);
            assert forall|k: u64| m1.contains_key(k) <==> m2.contains_key(k) by {
                if has_point(t, k) {
                    let a = choose|a: int| 0 <= a < t.len() && #[trigger] t[a].0 == k;
                    if a < pos {
                        assert(s[a].0 == k);
                    } else if a > pos {
                        assert(s[a - 1].0 == k);
                    }
                }
                if has_point(s, k) {
                    let a = choose|a: int| 0 <= a < s.len() && #[trigger] s[a].0 == k;
                    if a < pos {
                        assert(t[a].0 == k);
                    } else {
                        assert(t[a + 1].0 == k);
                    }
                }
                if k == p {
                    assert(t[pos as int].0 == k);
                }
            }
            assert forall|k: u64| m1.contains_key(k) implies m1[k] == m2[k] by {
                let a = choose|a: int| 0 <= a < t.len() && #[trigger] t[a].0 == k;
                lemma_points_map_at(t, a);
                if a < pos {
                    assert(t[a] == s[a]);
                    lemma_points_map_at(s, a);
                } else if a > pos {
                    assert(t[a] == s[a - 1]);
                    lemma_points_map_at(s, a - 1);
                } else {
                    assert(t[a] == e);
                }
            }
            assert(m1 =~= m2);
        }
    }
}

/// A consistent-hash ring mapping rooms to the shard that owns them.
#[derive(Debug)]
pub struct ShardRing {
    /// Virtual-node points and their owning shard, in ascending point order.
    ring: Vec<(u64, ShardId)>,
    /// The distinct shards in the ring, in ascending byte order.
    shards: Vec<ShardId>,
}

impl Clone for ShardRing {
    /// A copy of the ring: the same points, owners and shards.
    fn clone(&self) -> (r: Self)
        ensures
            r.ring_model() == self.ring_model(),
            r.shard_seq() == self.shard_seq(),
    {
        proof {
            use_type_invariant(self);
        }
        let mut ring: Vec<(u64, ShardId)> = Vec::new();
        let mut i: usize = 0;
        while i < self.ring.len()
            invariant
                i <= self.ring@.len(),
                ring@.len() == i,
                forall|j: int| 0 <= j < i ==> (#[trigger] ring@[j]).0 == self.ring@[j].0 && ring@[j].1@ == self.ring@[j].1@,
            decreases self.ring@.len() - i,
        {
            ring.push((self.ring[i].0, self.ring[i].1.clone()));
            i = i + 1;
        }
        let mut shards: Vec<ShardId> = Vec::new();
        let mut k: usize = 0;
        while k < self.shards.len()
            invariant
                k <= self.shards@.len(),
                shards@.len() == k,
                forall|j: int| 0 <= j < k ==> (#[trigger] shards@[j])@ == self.shards@[j]@,
            decreases self.shards@.len() - k,
        {
            shards.push(self.shards[k].clone());
            k = k + 1;
        }
        proof {
            assert(names_view(shards@) =~= names_view(self.shards@));
            assert forall|a: int, b: int| 0 <= a < b < ring@.len() implies #[trigger] ring@[a].0 < #[trigger] ring@[b].0 by {
                assert(self.ring@[a].0 < self.ring@[b].0);
            }
            assert forall|a: int, b: int| 0 <= a < b < shards@.len() implies str_lt(#[trigger] shards@[a]@, #[trigger] shards@[b]@) by {
                assert(str_lt(self.shards@[a]@, self.shards@[b]@));
            }
            assert(points_map(ring@) =~= points_map(self.ring@)) by {
                assert forall|p: u64| has_point(ring@, p) <==> has_point(self.ring@, p) by {
                    if has_point(ring@, p) {
                        let a = choose|a: int| 0 <= a < ring@.len() && #[trigger] ring@[a].0 == p;
                        assert(self.ring@[a].0 == p);
                    }
                    if has_point(self.ring@, p) {
                        let a = choose|a: int| 0 <= a < self.ring@.len() && #[trigger] self.ring@[a].0 == p;
                        assert(ring@[a].0 == p);
                    }
                }
                assert forall|p: u64| has_point(ring@, p) implies points_map(ring@)[p] == points_map(self.ring@)[p] by {
                    let a = choose|a: int| 0 <= a < ring@.len() && #[trigger] ring@[a].0 == p;
                    lemma_points_map_at(ring@, a);
                    lemma_points_map_at(self.ring@, a);
                }
            }
            assert forall|p: u64| #[trigger] points_map(ring@).dom().contains(p) implies names_view(shards@).contains(points_map(ring@)[p]) by {
                assert(self.ring_model().dom().contains(p));
            }
        }
        ShardRing { ring, shards }
    }
}

impl ShardRing {
    /// The ring's points and their owners.
    pub closed spec fn ring_model(&self) -> RingModel {
        points_map(self.ring@)
    }

    /// The shards in the ring, in ascending byte order.
    pub closed spec fn shard_seq(&self) -> Seq<Seq<char>> {
        names_view(self.shards@)
    }

    /// The set of shards in the ring.
    pub open spec fn shard_set(&self) -> Set<Seq<char>> {
        self.shard_seq().to_set()
    }

    /// The representation invariant: sorted points, sorted distinct shards,
    /// and every point owned by a member shard. Every ring keeps it.
    #[verifier::type_invariant]
    pub closed spec fn wf(&self) -> bool {
        &&& points_sorted(self.ring@)
        &&& names_sorted(self.shards@)
        &&& forall|p: u64| #[trigger] self.ring_model().dom().contains(p) ==> self.shard_seq().contains(self.ring_model()[p])
    }

    /// An empty ring.
    pub fn new() -> (r: Self)
        ensures
            r.wf(),
            r.ring_model() == Map::<u64, Seq<char>>::empty(),
            r.shard_seq() == Seq::<Seq<char>>::empty(),
    {
        let r = ShardRing { ring: Vec::new(), shards: Vec::new() };
        assert(r.ring_model() =~= Map::<u64, Seq<char>>::empty());
        assert(r.shard_seq() =~= Seq::<Seq<char>>::empty());
        r
    }

    /// Add a shard, placing its virtual nodes on the ring. Idempotent.
    pub fn add_shard(&mut self, shard: &str)
        ensures
            old(self).shard_set().contains(shard@) ==> final(self).ring_model() == old(self).ring_model()
                && final(self).shard_seq() == old(self).shard_seq(),
            !old(self).shard_set().contains(shard@) ==> final(self).shard_set() == old(self).shard_set().insert(shard@)
                && final(self).ring_model() == add_vnodes(old(self).ring_model(), shard@, VIRTUAL_NODES as nat),
    {
        proof {
            use_type_invariant(&*self);
        }
        let ghost names = self.shards@;
        let mut pos: usize = 0;
        while pos < self.shards.len() && compare_str(self.shards[pos].as_str(), shard) < 0
            invariant
                names == self.shards@,
                pos <= names.len(),
                forall|j: int| 0 <= j < pos ==> str_lt(#[trigger] names[j]@, shard@),
            decreases names.len() - pos,
        {
            pos = pos + 1;
        }
        if pos < self.shards.len() {
            let c = compare_str(self.shards[pos].as_str(), shard);
            if c == 0 {
                proof {
                    assert(self.shard_seq()[pos as int] == shard@);
                    assert(self.shard_set().contains(shard@));
                }
                return;
            }
        }
        proof {
            assert forall|j: int| pos <= j < names.len() implies str_lt(shard@, #[trigger] names[j]@) by {
                lemma_str_lt_order(names[pos as int]@, shard@, names[j]@);
                if j > pos {
                    assert(str_lt(names[pos as int]@, names[j]@));
                    lemma_str_lt_order(shard@, names[pos as int]@, names[j]@);
                }
            }
            assert forall|j: int| 0 <= j < names.len() implies #[trigger] names[j]@ != shard@ by {
                lemma_str_lt_order(names[j]@, shard@, shard@);
            }
            assert(!self.shard_set().contains(shard@));
        }
        let ghost old_self = *self;
        let mut ring: Vec<(u64, ShardId)> = Vec::new();
        let mut shards: Vec<ShardId> = Vec::new();
        std::mem::swap(&mut ring, &mut self.ring);
        std::mem::swap(&mut shards, &mut self.shards);
        proof {
            assert(ring@ == old_self.ring@);
            assert(shards@ == names);
        }
        let name = shard.to_owned();
        shards.insert(pos, name);
        proof {
            let t = shards@;
            assert(t == names.insert(pos as int, name));
            assert forall|a: int, b: int| 0 <= a < b < t.len() implies str_lt(#[trigger] t[a]@, #[trigger] t[b]@) by {
                if b < pos {
                } else if a < pos && b == pos {
                } else if a < pos && b > pos {
                    assert(t[b] == names[b - 1]);
                    lemma_str_lt_order(t[a]@, shard@, t[b]@);
                } else if a == pos {
                    assert(t[b] == names[b - 1]);
                } else {
                    assert(t[a] == names[a - 1]);
                    assert(t[b] == names[b - 1]);
                }
            }
            assert(names_view(shards@) =~= names_view(names).insert(pos as int, shard@));
            assert(names_view(shards@).to_set() =~= names_view(names).to_set().insert(shard@)) by {
                assert forall|x: Seq<char>| names_view(shards@).to_set().contains(x) <==> names_view(names).to_set().insert(shard@).contains(x) by {
                    if names_view(shards@).contains(x) {
                        let k = choose|k: int| 0 <= k < names_view(shards@).len() && names_view(shards@)[k] == x;
                        if k < pos {
                            assert(names_view(names)[k] == x);
                        } else if k > pos {
                            assert(names_view(names)[k - 1] == x);
                        }
                    }
                    if names_view(names).contains(x) {
                        let k = choose|k: int| 0 <= k < names_view(names).len() && names_view(names)[k] == x;
                        if k < pos {
                            assert(names_view(shards@)[k] == x);
                        } else {
                            assert(names_view(shards@)[k + 1] == x);
                        }
                    }
                    if x == shard@ {
                        assert(names_view(shards@)[pos as int] == x);
                    }
                }
            }
            assert(names_view(shards@).contains(shard@)) by {
                assert(names_view(shards@)[pos as int] == shard@);
            }
            assert forall|x: Seq<char>| names_view(names).contains(x) implies names_view(shards@).contains(x) by {
                assert(names_view(shards@).to_set().contains(x));
            }
            assert(ring@ == old_self.ring@);
            assert(old_self.shard_seq() == names_view(names));
            assert forall|p: u64| #[trigger] points_map(ring@).dom().contains(p) implies names_view(shards@).contains(points_map(ring@)[p]) by {
                assert(old_self.ring_model().dom().contains(p));
                assert(names_view(names).contains(points_map(ring@)[p]));
            }
        }
        let ghost names2 = shards@;
        let ghost ring0 = points_map(ring@);
        let mut vnode: u32 = 0;
        while vnode < VIRTUAL_NODES
            invariant
                vnode <= VIRTUAL_NODES,
                shards@ == names2,
                points_sorted(ring@),
                names_sorted(shards@),
                names_view(shards@).contains(shard@),
                forall|p: u64| #[trigger] points_map(ring@).dom().contains(p) ==> names_view(shards@).contains(points_map(ring@)[p]),
                points_map(ring@) == add_vnodes(ring0, shard@, vnode as nat),
            decreases VIRTUAL_NODES - vnode,
        {
            let p = virtual_node_hash(shard, vnode);
            ring_put(&mut ring, p, shard.to_owned());
            proof {
                assert(p == vnode_point(shard@, vnode));
            }
            vnode = vnode + 1;
        }
        *self = ShardRing { ring, shards };
    }

    /// Remove a shard and its virtual nodes. Rooms it owned are reassigned to
    /// the next shard on the ring; rooms owned by other shards are unaffected.
    pub fn remove_shard(&mut self, shard: &str)
        ensures
            !old(self).shard_set().contains(shard@) ==> final(self).ring_model() == old(self).ring_model()
                && final(self).shard_seq() == old(self).shard_seq(),
            old(self).shard_set().contains(shard@) ==> final(self).shard_set() == old(self).shard_set().remove(shard@)
                && final(self).ring_model() == without_owner(old(self).ring_model(), shard@),
            forall|room: Seq<char>| #[trigger] placement(old(self).ring_model(), room) == Some(shard@) ==>
                match placement(final(self).ring_model(), room) {
                    Some(o) => o != shard@ && final(self).shard_set().contains(o),
                    None => final(self).ring_model().dom() == Set::<u64>::empty(),
                },
    {
        proof {
            use_type_invariant(&*self);
        }
        proof {
            assert forall|room: Seq<char>| #[trigger] placement(old(self).ring_model(), room) == Some(shard@)
                implies old(self).shard_set().contains(shard@) by {
                lemma_owner_owns_a_point(old(self).ring_model(), room_point(room));
                let p = choose|p: u64| old(self).ring_model().dom().contains(p) && #[trigger] old(self).ring_model()[p] == shard@;
                assert(old(self).shard_seq().contains(old(self).ring_model()[p]));
            }
        }
        let ghost names = self.shards@;
        let mut pos: usize = 0;
        while pos < self.shards.len() && !str_eq(self.shards[pos].as_str(), shard)
            invariant
                names == self.shards@,
                pos <= names.len(),
                forall|j: int| 0 <= j < pos ==> #[trigger] names[j]@ != shard@,
            decreases names.len() - pos,
        {
            pos = pos + 1;
        }
        if pos == self.shards.len() {
            proof {
                assert forall|x: Seq<char>| self.shard_seq().contains(x) implies x != shard@ by {
                    let k = choose|k: int| 0 <= k < self.shard_seq().len() && self.shard_seq()[k] == x;
                    assert(names[k]@ == x);
                }
            }
            return;
        }
        let ghost old_ring = self.ring@;
        let ghost old_model = self.ring_model();
        let ghost old_seq = self.shard_seq();
        let mut ring: Vec<(u64, ShardId)> = Vec::new();
        let mut shards: Vec<ShardId> = Vec::new();
        std::mem::swap(&mut ring, &mut self.ring);
        std::mem::swap(&mut shards, &mut self.shards);
        proof {
            assert(ring@ == old_ring);
            assert(shards@ == names);
        }
        shards.remove(pos);
        proof {
            let t = shards@;
            assert(t == names.remove(pos as int));
            assert forall|a: int, b: int| 0 <= a < b < t.len() implies str_lt(#[trigger] t[a]@, #[trigger] t[b]@) by {
                if b < pos {
                } else if a < pos {
                    assert(t[b] == names[b + 1]);
                } else {
                    assert(t[a] == names[a + 1]);
                    assert(t[b] == names[b + 1]);
                }
            }
            assert(names_view(shards@) =~= old_seq.remove(pos as int));
            assert forall|x: Seq<char>| #[trigger] names_view(shards@).contains(x) <==> (old_seq.contains(x) && x != shard@) by {
                if names_view(shards@).contains(x) {
                    let k = choose|k: int| 0 <= k < names_view(shards@).len() && names_view(shards@)[k] == x;
                    if k < pos {
                        assert(old_seq[k] == x);
                        assert(str_lt(names[k]@, names[pos as int]@));
                        lemma_str_lt_order(x, x, x);
                    } else {
                        assert(old_seq[k + 1] == x);
                        assert(str_lt(names[pos as int]@, names[k + 1]@));
                        lemma_str_lt_order(x, x, x);
                    }
                }
                if old_seq.contains(x) && x != shard@ {
                    let k = choose|k: int| 0 <= k < old_seq.len() && old_seq[k] == x;
                    if k < pos {
                        assert(names_view(shards@)[k] == x);
                    } else {
                        assert(k != pos);
                        assert(names_view(shards@)[k - 1] == x);
                    }
                }
            }
            assert(names_view(shards@).to_set() =~= old_seq.to_set().remove(shard@));
            assert(old_seq.to_set().contains(shard@)) by {
                assert(old_seq[pos as int] == shard@);
            }
        }
        let mut kept: Vec<(u64, String)> = Vec::new();
        let ghost mut idxs: Seq<int> = Seq::empty();
        let mut i: usize = 0;
        while i < ring.len()
            invariant
                ring@ == old_ring,
                points_sorted(old_ring),
                i <= old_ring.len(),
                idxs.len() == kept@.len(),
                forall|a: int| 0 <= a < idxs.len() ==> 0 <= #[trigger] idxs[a] < i,
                forall|a: int, b: int| 0 <= a < b < idxs.len() ==> #[trigger] idxs[a] < #[trigger] idxs[b],
                forall|a: int| 0 <= a < idxs.len() ==> (#[trigger] kept@[a]).0 == old_ring[idxs[a]].0 && kept@[a].1@ == old_ring[idxs[a]].1@,
                forall|a: int| 0 <= a < kept@.len() ==> (#[trigger] kept@[a]).1@ != shard@,
                forall|j: int| 0 <= j < i && (#[trigger] old_ring[j]).1@ != shard@ ==> exists|a: int| 0 <= a < idxs.len() && idxs[a] == j,
            decreases old_ring.len() - i,
        {
            if !str_eq(ring[i].1.as_str(), shard) {
                let owner = ring[i].1.clone();
                kept.push((ring[i].0, owner));
                proof {
                    let old_idxs = idxs;
                    idxs = idxs.push(i as int);
                    assert forall|j: int| 0 <= j < i && (#[trigger] old_ring[j]).1@ != shard@ implies exists|a: int| 0 <= a < idxs.len() && idxs[a] == j by {
                        let a = choose|a: int| 0 <= a < old_idxs.len() && old_idxs[a] == j;
                        assert(idxs[a] == j);
                    }
                    assert(idxs[idxs.len() - 1] == i);
                }
            }
            i = i + 1;
        }
        proof {
            let k = kept@;
            assert forall|a: int, b: int| 0 <= a < b < k.len() implies #[trigger] k[a].0 < #[trigger] k[b].0 by {
                assert(idxs[a] < idxs[b]);
            }
            let m1 = points_map(k);
            let m2 = without_owner(old_model, shard@);
            assert forall|p: u64| m1.contains_key(p) <==> m2.contains_key(p) by {
                if has_point(k, p) {
                    let a = choose|a: int| 0 <= a < k.len() && #[trigger] k[a].0 == p;
                    lemma_points_map_at(old_ring, idxs[a]);
                }
                if m2.contains_key(p) {
                    let j = point_index(old_ring, p);
                    lemma_points_map_at(old_ring, j);
                    let a = choose|a: int| 0 <= a < idxs.len() && idxs[a] == j;
                    assert(k[a].0 == p);
                }
            }
            assert forall|p: u64| m1.contains_key(p) implies m1[p] == m2[p] by {
                let a = choose|a: int| 0 <= a < k.len() && #[trigger] k[a].0 == p;
                lemma_points_map_at(k, a);
                lemma_points_map_at(old_ring, idxs[a]);
            }
            assert(m1 =~= m2);
        }
        *self = ShardRing { ring: kept, shards };
        proof {
            assert forall|p: u64| #[trigger] self.ring_model().dom().contains(p) implies self.shard_seq().contains(self.ring_model()[p]) by {
                assert(old_model.dom().contains(p));
                assert(old_seq.contains(old_model[p]));
            }
            assert forall|room: Seq<char>| #[trigger] placement(old_model, room) == Some(shard@) implies
                match placement(self.ring_model(), room) {
                    Some(o) => o != shard@ && self.shard_set().contains(o),
                    None => self.ring_model().dom() == Set::<u64>::empty(),
                } by {
                let m = self.ring_model();
                lemma_owner_owns_a_point(m, room_point(room));
                lemma_owner_none_iff_empty(m, room_point(room));
                if placement(m, room) is Some {
                    let o = placement(m, room)->0;
                    let p = choose|p: u64| m.dom().contains(p) && #[trigger] m[p] == o;
                    assert(self.shard_seq().contains(m[p]));
                }
            }
        }
    }

    /// The shard that owns `room_id`, or `None` if the ring is empty.
    pub fn shard_for(&self, room_id: &str) -> (r: Option<&str>)
        ensures
            match r {
                Some(s) => placement(self.ring_model(), room_id@) == Some(s@) && self.shard_set().contains(s@),
                None => placement(self.ring_model(), room_id@) is None,
            },
    {
        proof {
            use_type_invariant(self);
        }
        let point = hash(room_id.as_bytes());
        let ghost s = self.ring@;
        let ghost m = self.ring_model();
        let mut lo: usize = 0;
        let mut hi: usize = self.ring.len();
        while lo < hi
            invariant
                s == self.ring@,
                points_sorted(s),
                lo <= hi <= s.len(),
                forall|j: int| 0 <= j < lo ==> #[trigger] s[j].0 < point,
                forall|j: int| hi <= j < s.len() ==> point <= #[trigger] s[j].0,
            decreases hi - lo,
        {
            let mid = lo + (hi - lo) / 2;
            if self.ring[mid].0 < point {
                proof {
                    assert forall|j: int| 0 <= j < mid + 1 implies #[trigger] s[j].0 < point by {
                        if j < mid {
                            assert(s[j].0 < s[mid as int].0);
                        }
                    }
                }
                lo = mid + 1;
            } else {
                proof {
                    assert forall|j: int| mid <= j < s.len() implies point <= #[trigger] s[j].0 by {
                        if j > mid {
                            assert(s[mid as int].0 < s[j].0);
                        }
                    }
                }
                hi = mid;
            }
        }
        proof {
            assert(point == room_point(room_id@));
        }
        if lo < self.ring.len() {
            proof {
                lemma_points_map_at(s, lo as int);
                assert forall|q: u64| #[trigger] m.dom().contains(q) && point <= q implies s[lo as int].0 <= q by {
                    let j = point_index(s, q);
                    if j > lo {
                        assert(s[lo as int].0 < s[j].0);
                    }
                }
                assert(is_successor(m, point, s[lo as int].0));
                lemma_owner_at_successor(m, point, s[lo as int].0);
                assert(self.shard_seq().contains(m[s[lo as int].0]));
            }
            Some(self.ring[lo].1.as_str())
        } else if self.ring.len() > 0 {
            proof {
                lemma_points_map_at(s, 0);
                assert forall|q: u64| #[trigger] m.dom().contains(q) implies q < point && s[0].0 <= q by {
                    let j = point_index(s, q);
                    if j > 0 {
                        assert(s[0].0 < s[j].0);
                    }
                }
                assert(is_first_point(m, s[0].0));
                lemma_owner_at_first(m, point, s[0].0);
                assert(self.shard_seq().contains(m[s[0].0]));
            }
            Some(self.ring[0].1.as_str())
        } else {
            proof {
                assert(m.dom() =~= Set::<u64>::empty());
                lemma_owner_none_iff_empty(m, point);
            }
            None
        }
    }

    /// The shards currently in the ring, in ascending byte order.
    pub fn shards(&self) -> (r: Vec<&str>)
        ensures
            strs_view(r@) == self.shard_seq(),
            r@.len() == self.shard_set().len(),
            forall|i: int, j: int| 0 <= i < j < r@.len() ==> str_lt(#[trigger] r@[i]@, #[trigger] r@[j]@),
            forall|x: Seq<char>| self.shard_set().contains(x) <==> exists|i: int| 0 <= i < r@.len() && #[trigger] r@[i]@ == x,
    {
        proof {
            use_type_invariant(self);
        }
        proof {
            self.lemma_shard_seq_sorted();
        }
        let mut out: Vec<&str> = Vec::new();
        let mut i: usize = 0;
        while i < self.shards.len()
            invariant
                i <= self.shards@.len(),
                out@.len() == i,
                strs_view(out@) == self.shard_seq().subrange(0, i as int),
            decreases self.shards@.len() - i,
        {
            let ghost before = out@;
            out.push(self.shards[i].as_str());
            assert(strs_view(out@) =~= self.shard_seq().subrange(0, i + 1)) by {
                assert forall|k: int| 0 <= k < i + 1 implies #[trigger] strs_view(out@)[k] == self.shard_seq().subrange(0, i + 1)[k] by {
                    if k < i {
                        assert(out@[k] == before[k]);
                        assert(strs_view(before)[k] == self.shard_seq().subrange(0, i as int)[k]);
                    }
                }
            }
            i = i + 1;
        }
        assert(self.shard_seq().subrange(0, i as int) =~= self.shard_seq());
        proof {
            assert forall|a: int| 0 <= a < out@.len() implies #[trigger] out@[a]@ == self.shard_seq()[a] by {
                assert(strs_view(out@)[a] == out@[a]@);
            }
            assert forall|x: Seq<char>| self.shard_set().contains(x) implies exists|i: int| 0 <= i < out@.len() && #[trigger] out@[i]@ == x by {
                let k = choose|k: int| 0 <= k < self.shard_seq().len() && self.shard_seq()[k] == x;
                assert(out@[k]@ == x);
            }
            assert forall|x: Seq<char>| (exists|i: int| 0 <= i < out@.len() && #[trigger] out@[i]@ == x) implies self.shard_set().contains(x) by {
                let k = choose|i: int| 0 <= i < out@.len() && #[trigger] out@[i]@ == x;
                assert(self.shard_seq()[k] == x);
            }
        }
        out
    }

    /// The shards of a well-formed ring come in strictly ascending byte
    /// order, each once, as many as the ring has.
    pub proof fn lemma_shard_seq_sorted(&self)
        requires
            self.wf(),
        ensures
            forall|i: int, j: int| 0 <= i < j < self.shard_seq().len() ==> str_lt(#[trigger] self.shard_seq()[i], #[trigger] self.shard_seq()[j]),
            self.shard_seq().no_duplicates(),
            self.shard_seq().len() == self.shard_set().len(),
    {
        assert forall|i: int, j: int| 0 <= i < j < self.shard_seq().len() implies str_lt(#[trigger] self.shard_seq()[i], #[trigger] self.shard_seq()[j]) by {
            assert(str_lt(self.shards@[i]@, self.shards@[j]@));
        }
        assert(self.shard_seq().no_duplicates()) by {
            assert forall|a: int, b: int| 0 <= a < self.shard_seq().len() && 0 <= b < self.shard_seq().len() && a != b implies self.shard_seq()[a] != self.shard_seq()[b] by {
                if a < b {
                    assert(str_lt(self.shards@[a]@, self.shards@[b]@));
                } else {
                    assert(str_lt(self.shards@[b]@, self.shards@[a]@));
                }
                lemma_str_lt_order(self.shards@[a]@, self.shards@[b]@, self.shards@[b]@);
            }
        }
        self.shard_seq().unique_seq_to_set();
    }

    /// The reassignments needed to move the given `rooms` from this ring's
    /// placement to `target`'s. Only rooms whose owner changes are returned,
    /// in the order given.
    pub fn reassignments(&self, target: &Self, rooms: &[String]) -> (r: Vec<Reassignment>)
        ensures
            r@.map_values(|x: Reassignment| reassignment_view(x)) == reassign_spec(
                self.ring_model(),
                target.ring_model(),
                names_view(rooms@),
            ),
    {
        proof {
            use_type_invariant(self);
            use_type_invariant(target);
        }
        let mut out: Vec<Reassignment> = Vec::new();
        let mut i: usize = 0;
        while i < rooms.len()
            invariant
                self.wf(),
                target.wf(),
                i <= rooms@.len(),
                out@.map_values(|x: Reassignment| reassignment_view(x)) == reassign_spec(
                    self.ring_model(),
                    target.ring_model(),
                    names_view(rooms@.subrange(0, i as int)),
                ),
            decreases rooms@.len() - i,
        {
            let room = &rooms[i];
            let ghost before = out@;
            proof {
                assert(names_view(rooms@.subrange(0, i + 1)).drop_last() =~= names_view(rooms@.subrange(0, i as int)));
                assert(names_view(rooms@.subrange(0, i + 1)).last() == room@);
            }
            match (self.shard_for(room.as_str()), target.shard_for(room.as_str())) {
                (Some(from), Some(to)) => {
                    if !str_eq(from, to) {
                        out.push(Reassignment { room: room.clone(), from: from.to_owned(), to: to.to_owned() });
                        assert(out@.map_values(|x: Reassignment| reassignment_view(x)) =~= before.map_values(|x: Reassignment| reassignment_view(x)).push((room@, from@, to@)));
                    }
                },
                _ => {},
            }
            i = i + 1;
        }
        assert(rooms@.subrange(0, i as int) =~= rooms@);
        out
    }

    /// The number of shards.
    pub fn len(&self) -> (r: usize)
        ensures
            r == self.shard_set().len(),
            r == self.shard_seq().len(),
    {
        proof {
            use_type_invariant(self);
        }
        proof {
            assert(self.shard_seq().no_duplicates()) by {
                assert forall|a: int, b: int| 0 <= a < self.shard_seq().len() && 0 <= b < self.shard_seq().len() && a != b implies self.shard_seq()[a] != self.shard_seq()[b] by {
                    if a < b {
                        assert(str_lt(self.shards@[a]@, self.shards@[b]@));
                    } else {
                        assert(str_lt(self.shards@[b]@, self.shards@[a]@));
                    }
                    lemma_str_lt_order(self.shards@[a]@, self.shards@[b]@, self.shards@[b]@);
                }
            }
            self.shard_seq().unique_seq_to_set();
        }
        self.shards.len()
    }

    /// Whether the ring has no shards.
    pub fn is_empty(&self) -> (r: bool)
        ensures
            r == (self.shard_seq().len() == 0),
    {
        self.shards.len() == 0
    }
}

} // verus!
