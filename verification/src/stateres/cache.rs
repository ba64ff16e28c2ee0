//! The resolved-state cache.

use vstd::prelude::*;

use crate::stateres::collections::EventIdSet;
use crate::stateres::state_map::{StateMap, StateView};

verus! {

/// The value of a cache key: a set of conflicting event identifiers.
pub type CacheKeyView = Set<Seq<char>>;

/// The value of the cache's contents: its entries, oldest first.
pub type CacheSlots = Seq<(CacheKeyView, StateView)>;

/// Whether some entry of `s` is keyed by `k`.
pub open spec fn holds_key(s: CacheSlots, k: CacheKeyView) -> bool {
    exists|i: int| 0 <= i < s.len() && (#[trigger] s[i]).0 == k
}

/// The position of the entry keyed by `k`.
pub open spec fn slot_index(s: CacheSlots, k: CacheKeyView) -> int {
    choose|i: int| 0 <= i < s.len() && (#[trigger] s[i]).0 == k
}

/// The resolution cached under `k`, if any.
pub open spec fn cached(s: CacheSlots, k: CacheKeyView) -> Option<StateView> {
    if holds_key(s, k) {
        Some(s[slot_index(s, k)].1)
    } else {
        None
    }
}

/// A valid cache: no key twice, and no more entries than the capacity.
pub open spec fn cache_valid(s: CacheSlots, capacity: nat) -> bool {
    &&& s.len() <= capacity
    &&& forall|i: int, j: int| 0 <= i < j < s.len() ==> (#[trigger] s[i]).0 != (#[trigger] s[j]).0
}

/// The entries after memoising `v` under `k`: nothing changes when the
/// capacity is zero; a key already present keeps its place and takes the new
/// value; a new key is appended, and the oldest entry leaves when that goes
/// over the capacity.
pub open spec fn insert_spec(s: CacheSlots, capacity: nat, k: CacheKeyView, v: StateView) -> CacheSlots {
    if capacity == 0 {
        s
    } else if holds_key(s, k) {
        s.update(slot_index(s, k), (k, v))
    } else if s.len() + 1 > capacity {
        s.push((k, v)).drop_first()
    } else {
        s.push((k, v))
    }
}

/// Memoises state-resolution outputs keyed by the set of conflicting
/// state-event identifiers, so recurrent conflicts are not recomputed.
///
/// Eviction is least-recently-inserted once `capacity` is exceeded, keeping
/// the cache bounded. A `capacity` of zero disables caching.
pub struct ResolvedStateCache {
    entries: Vec<(EventIdSet, StateMap)>,
    capacity: usize,
}

impl ResolvedStateCache {
    /// The entries, oldest first.
    pub closed spec fn slots(&self) -> CacheSlots {
        self.entries@.map_values(|e: (EventIdSet, StateMap)| (e.0@, e.1@))
    }

    /// The most entries the cache holds.
    pub closed spec fn capacity(&self) -> nat {
        self.capacity as nat
    }

    #[verifier::type_invariant]
    spec fn valid(&self) -> bool {
        cache_valid(self.slots(), self.capacity())
    }

    /// Create a cache holding at most `capacity` resolution results.
    pub fn new(capacity: usize) -> (r: Self)
        ensures
            r.slots() == Seq::<(CacheKeyView, StateView)>::empty(),
            r.capacity() == capacity,
            cache_valid(r.slots(), r.capacity()),
    {
        let r = ResolvedStateCache { entries: Vec::new(), capacity };
        assert(r.slots() =~= Seq::<(CacheKeyView, StateView)>::empty());
        r
    }

    /// The position of the entry keyed by `key`, if any.
    fn position(&self, key: &EventIdSet) -> (r: Option<usize>)
        ensures
            match r {
                Some(i) => i < self.slots().len() && self.slots()[i as int].0 == key@,
                None => !holds_key(self.slots(), key@),
            },
    {
        let mut i: usize = 0;
        while i < self.entries.len()
            invariant
                i <= self.entries@.len(),
                forall|j: int| 0 <= j < i ==> (#[trigger] self.slots()[j]).0 != key@,
            decreases self.entries@.len() - i,
        {
            if self.entries[i].0.same_as(key) {
                return Some(i);
            }
            proof {
                assert(self.slots()[i as int].0 == self.entries@[i as int].0@);
            }
            i = i + 1;
        }
        None
    }

    /// The memoised resolution for `key`, if present.
    pub fn get(&self, key: &EventIdSet) -> (r: Option<&StateMap>)
        ensures
            cache_valid(self.slots(), self.capacity()),
            match r {
                Some(v) => cached(self.slots(), key@) == Some(v@),
                None => cached(self.slots(), key@) == None::<StateView>,
            },
    {
        proof { use_type_invariant(self); }
        match self.position(key) {
            Some(i) => {
                proof {
                    let s = self.slots();
                    assert(holds_key(s, key@));
                    let c = slot_index(s, key@);
                    if c != i {
                        if c < i {
                            assert(s[c].0 != s[i as int].0);
                        } else {
                            assert(s[i as int].0 != s[c].0);
                        }
                    }
                }
                Some(&self.entries[i].1)
            },
            None => None,
        }
    }

    /// Memoise `resolved` under `key`, evicting the oldest entry if the cache
    /// is over capacity. A re-inserted key refreshes its value without
    /// duplicating its eviction-order slot.
    pub fn insert(&mut self, key: EventIdSet, resolved: StateMap)
        ensures
            final(self).slots() == insert_spec(old(self).slots(), old(self).capacity(), key@, resolved@),
            final(self).capacity() == old(self).capacity(),
            cache_valid(final(self).slots(), final(self).capacity()),
    {
        proof { use_type_invariant(&*self); }
        let ghost s = self.slots();
        let ghost kv = key@;
        let ghost vv = resolved@;
        if self.capacity == 0 {
            return;
        }
        let found = self.position(&key);
        let mut entries: Vec<(EventIdSet, StateMap)> = Vec::new();
        std::mem::swap(&mut entries, &mut self.entries);
        assert(entries@.map_values(|e: (EventIdSet, StateMap)| (e.0@, e.1@)) == s);
        match found {
            Some(i) => {
                entries.set(i, (key, resolved));
                proof {
                    let t = entries@.map_values(|e: (EventIdSet, StateMap)| (e.0@, e.1@));
                    let c = slot_index(s, kv);
                    if c != i {
                        if c < i {
                            assert(s[c].0 != s[i as int].0);
                        } else {
                            assert(s[i as int].0 != s[c].0);
                        }
                    }
                    assert(t =~= s.update(c, (kv, vv)));
                    assert forall|a: int, b: int| 0 <= a < b < t.len() implies (#[trigger] t[a]).0 != (#[trigger] t[b]).0 by {
                        if a != i && b != i {
                            assert(s[a].0 != s[b].0);
                        } else if a == i {
                            assert(s[a].0 != s[b].0);
                        } else {
                            assert(s[a].0 != s[b].0);
                        }
                    }
                }
            },
            None => {
                entries.push((key, resolved));
                let ghost pushed = s.push((kv, vv));
                proof {
                    let t = entries@.map_values(|e: (EventIdSet, StateMap)| (e.0@, e.1@));
                    assert(t =~= pushed);
                }
                if entries.len() > self.capacity {
                    let _evicted = entries.remove(0);
                    proof {
                        let t = entries@.map_values(|e: (EventIdSet, StateMap)| (e.0@, e.1@));
                        assert(t =~= pushed.drop_first());
                    }
                }
                proof {
                    let t = entries@.map_values(|e: (EventIdSet, StateMap)| (e.0@, e.1@));
                    assert forall|a: int, b: int| 0 <= a < b < pushed.len() implies (#[trigger] pushed[a]).0 != (#[trigger] pushed[b]).0 by {
                        if b == s.len() {
                            assert(s[a].0 != kv);
                        } else {
                            assert(s[a].0 != s[b].0);
                        }
                    }
                    assert forall|a: int, b: int| 0 <= a < b < t.len() implies (#[trigger] t[a]).0 != (#[trigger] t[b]).0 by {
                        if t.len() < pushed.len() {
                            assert(t[a] == pushed[a + 1]);
                            assert(t[b] == pushed[b + 1]);
                        } else {
                            assert(t[a] == pushed[a]);
                            assert(t[b] == pushed[b]);
                        }
                    }
                }
            },
        }
        self.entries = entries;
    }

    /// The number of memoised results.
    pub fn len(&self) -> (r: usize)
        ensures
            r == self.slots().len(),
    {
        self.entries.len()
    }

    /// Whether the cache holds no results.
    pub fn is_empty(&self) -> (r: bool)
        ensures
            r == (self.slots().len() == 0),
    {
        self.entries.len() == 0
    }
}

} // verus!
