//! State-map types and the conflict-partitioning step.

use vstd::prelude::*;

use crate::stateres::collections::{
    entries_map, key_values, keys_sorted, lemma_entries_map_at, lemma_entries_map_dom, EventIdSet,
    MapKey, OrdMap, ViewClone,
};
use crate::stateres::event::{Event, EventId};

verus! {

/// A state key: the `(event_type, state_key)` pair naming one slot of room
/// state.
pub type StateKey = (String, String);

/// A resolved room-state mapping: each state slot points at one event.
pub type StateMap = OrdMap<StateKey, EventId>;

/// The conflicted subset: each slot maps to the set of distinct events the
/// input state maps disagree over.
pub type ConflictedState = OrdMap<StateKey, EventIdSet>;

/// A by-id lookup of the events relevant to a resolution.
pub type EventStore = OrdMap<EventId, Event>;

/// The value of a state slot.
pub type SlotView = (Seq<char>, Seq<char>);

/// The value of a state map.
pub type StateView = Map<SlotView, Seq<char>>;

/// The values of a sequence of state maps.
pub open spec fn states_view(states: Seq<StateMap>) -> Seq<StateView> {
    states.map_values(|s: StateMap| s@)
}

/// Whether some input map assigns slot `k`.
pub open spec fn in_some(states: Seq<StateView>, k: SlotView) -> bool {
    exists|i: int| 0 <= i < states.len() && #[trigger] states[i].contains_key(k)
}

/// The distinct event ids the input maps assign to slot `k`.
pub open spec fn slot_ids(states: Seq<StateView>, k: SlotView) -> Set<Seq<char>> {
    Set::new(|id: Seq<char>| exists|i: int| 0 <= i < states.len() && #[trigger] states[i].contains_key(k) && states[i][k] == id)
}

/// The result of [`partition`]: the agreed-upon state and the disputed state.
#[derive(Debug, PartialEq, Eq)]
pub struct Partitioned {
    /// Slots on which every input state map agrees (exactly one distinct
    /// event).
    pub unconflicted: StateMap,
    /// Slots on which the input state maps disagree (more than one distinct
    /// event).
    pub conflicted: ConflictedState,
}

/// Whether `p` is the state-resolution-v2 partition of `states`: a slot with
/// exactly one distinct event is unconflicted (maps that omit the slot do
/// not create a conflict), a slot with more than one is conflicted.
pub open spec fn is_partition(states: Seq<StateView>, unconflicted: StateView, conflicted: Map<SlotView, Set<Seq<char>>>) -> bool {
    &&& forall|k: SlotView| #[trigger] unconflicted.contains_key(k) ==> slot_ids(states, k) == Set::<Seq<char>>::empty().insert(unconflicted[k])
    &&& forall|k: SlotView| #[trigger] conflicted.contains_key(k) ==> conflicted[k] == slot_ids(states, k)
        && conflicted[k].finite() && conflicted[k].len() > 1
    &&& forall|k: SlotView|
        #![trigger unconflicted.contains_key(k)]
        #![trigger conflicted.contains_key(k)]
        #![trigger in_some(states, k)]
        in_some(states, k) <==> (unconflicted.contains_key(k) || conflicted.contains_key(k))
}

/// The slots on which the input maps agree, with the one event they assign.
pub open spec fn unconflicted_of(states: Seq<StateView>) -> StateView {
    Map::new(
        |k: SlotView| in_some(states, k) && slot_ids(states, k).len() == 1,
        |k: SlotView| slot_ids(states, k).choose(),
    )
}

/// The slots on which the input maps disagree, with the events they assign.
pub open spec fn conflicted_of(states: Seq<StateView>) -> Map<SlotView, Set<Seq<char>>> {
    Map::new(
        |k: SlotView| in_some(states, k) && slot_ids(states, k).len() > 1,
        |k: SlotView| slot_ids(states, k),
    )
}

/// The partition of a set of state maps is unique.
pub proof fn lemma_partition_determined(states: Seq<StateView>, u: StateView, c: Map<SlotView, Set<Seq<char>>>)
    requires
        is_partition(states, u, c),
    ensures
        u == unconflicted_of(states),
        c == conflicted_of(states),
{
    let uo = unconflicted_of(states);
    let co = conflicted_of(states);
    assert forall|k: SlotView| #[trigger] u.contains_key(k) implies uo.contains_key(k) && uo[k] == u[k] by {
        let one = Set::<Seq<char>>::empty().insert(u[k]);
        assert(slot_ids(states, k) == one);
        assert(one.len() == 1);
        assert(in_some(states, k));
        assert(one.contains(one.choose()));
    }
    assert forall|k: SlotView| #[trigger] uo.contains_key(k) implies u.contains_key(k) by {
        if !u.contains_key(k) {
            assert(c.contains_key(k));
        }
    }
    assert forall|k: SlotView| #[trigger] co.contains_key(k) <==> c.contains_key(k) by {
        if c.contains_key(k) {
            assert(u.contains_key(k) || c.contains_key(k));
            assert(in_some(states, k));
        }
        if co.contains_key(k) && !c.contains_key(k) {
            assert(u.contains_key(k));
            let one = Set::<Seq<char>>::empty().insert(u[k]);
            assert(one.len() == 1);
        }
    }
    assert(u =~= uo);
    assert(c =~= co);
}

/// Partition a set of input state maps into unconflicted and conflicted
/// state, following the state-resolution-v2 definition.
pub fn partition(states: &[StateMap]) -> (p: Partitioned)
    ensures
        is_partition(states_view(states@), p.unconflicted@, p.conflicted@),
        p.unconflicted@ == unconflicted_of(states_view(states@)),
        p.conflicted@ == conflicted_of(states_view(states@)),
{
    let ghost sv = states_view(states@);
    let mut grouped: OrdMap<StateKey, EventIdSet> = OrdMap::new();
    let mut si: usize = 0;
    while si < states.len()
        invariant
            sv == states_view(states@),
            si <= states@.len(),
            forall|k: SlotView| #[trigger] grouped@.contains_key(k) <==> in_some(sv.take(si as int), k),
            forall|k: SlotView| #[trigger] grouped@.contains_key(k) ==> grouped@[k] == slot_ids(sv.take(si as int), k),
        decreases states@.len() - si,
    {
        let entries = states[si].entries();
        proof { states[si as int].lemma_view(); }
        let ghost before = grouped@;
        let ghost prev = sv.take(si as int);
        let mut ei: usize = 0;
        while ei < entries.len()
            invariant
                sv == states_view(states@),
                si < states@.len(),
                prev == sv.take(si as int),
                entries@ == states@[si as int].entry_seq(),
                keys_sorted(entries@),
                ei <= entries@.len(),
                forall|k: SlotView| #[trigger] grouped@.contains_key(k) <==> (before.contains_key(k)
                    || exists|j: int| 0 <= j < ei && #[trigger] entries@[j].0.key_view() == k),
                forall|k: SlotView| #[trigger] grouped@.contains_key(k) ==> grouped@[k] == (if before.contains_key(k) { before[k] } else { Set::<Seq<char>>::empty() }).union(
                    Set::new(|id: Seq<char>| exists|j: int| 0 <= j < ei && #[trigger] entries@[j].0.key_view() == k && entries@[j].1@ == id)),
                forall|k: SlotView| #[trigger] before.contains_key(k) <==> in_some(prev, k),
                forall|k: SlotView| #[trigger] before.contains_key(k) ==> before[k] == slot_ids(prev, k),
            decreases entries@.len() - ei,
        {
            let key = &entries[ei].0;
            let id = &entries[ei].1;
            let mut ids = match grouped.get(key) {
                Some(existing) => existing.view_clone(),
                None => EventIdSet::new(),
            };
            ids.insert(id.clone());
            let ghost g0 = grouped@;
            grouped.insert(key.key_clone(), ids);
            proof {
                let kk = key.key_view();
                assert forall|k: SlotView| #[trigger] grouped@.contains_key(k) <==> (before.contains_key(k)
                    || exists|j: int| 0 <= j < ei + 1 && #[trigger] entries@[j].0.key_view() == k) by {
                    if k == kk {
                        assert(entries@[ei as int].0.key_view() == k);
                    }
                    if exists|j: int| 0 <= j < ei + 1 && #[trigger] entries@[j].0.key_view() == k {
                        let j = choose|j: int| 0 <= j < ei + 1 && #[trigger] entries@[j].0.key_view() == k;
                        if j < ei {
                            assert(g0.contains_key(k));
                        }
                    }
                }
                assert forall|k: SlotView| #[trigger] grouped@.contains_key(k) implies grouped@[k] == (if before.contains_key(k) { before[k] } else { Set::<Seq<char>>::empty() }).union(
                    Set::new(|id: Seq<char>| exists|j: int| 0 <= j < ei + 1 && #[trigger] entries@[j].0.key_view() == k && entries@[j].1@ == id)) by {
                    let base = if before.contains_key(k) { before[k] } else { Set::<Seq<char>>::empty() };
                    let newer = Set::new(|id: Seq<char>| exists|j: int| 0 <= j < ei + 1 && #[trigger] entries@[j].0.key_view() == k && entries@[j].1@ == id);
                    let older = Set::new(|id: Seq<char>| exists|j: int| 0 <= j < ei && #[trigger] entries@[j].0.key_view() == k && entries@[j].1@ == id);
                    if k == kk {
                        assert forall|id: Seq<char>| newer.contains(id) <==> (older.contains(id) || id == entries@[ei as int].1@) by {
                            if newer.contains(id) {
                                let j = choose|j: int| 0 <= j < ei + 1 && #[trigger] entries@[j].0.key_view() == k && entries@[j].1@ == id;
                                if j < ei {
                                    assert(older.contains(id));
                                }
                            }
                            if older.contains(id) {
                                let j = choose|j: int| 0 <= j < ei && #[trigger] entries@[j].0.key_view() == k && entries@[j].1@ == id;
                                assert(newer.contains(id));
                            }
                            if id == entries@[ei as int].1@ {
                                assert(entries@[ei as int].0.key_view() == k);
                            }
                        }
                        if g0.contains_key(k) {
                            assert(grouped@[k] =~= base.union(newer));
                        } else {
                            assert forall|id: Seq<char>| !older.contains(id) by {
                                if older.contains(id) {
                                    let j = choose|j: int| 0 <= j < ei && #[trigger] entries@[j].0.key_view() == k && entries@[j].1@ == id;
                                    assert(g0.contains_key(k));
                                }
                            }
                            assert(!before.contains_key(k));
                            assert(grouped@[k] =~= base.union(newer));
                        }
                    } else {
                        assert forall|id: Seq<char>| newer.contains(id) <==> older.contains(id) by {
                            if newer.contains(id) {
                                let j = choose|j: int| 0 <= j < ei + 1 && #[trigger] entries@[j].0.key_view() == k && entries@[j].1@ == id;
                                assert(j != ei);
                            }
                            if older.contains(id) {
                                let j = choose|j: int| 0 <= j < ei && #[trigger] entries@[j].0.key_view() == k && entries@[j].1@ == id;
                                assert(newer.contains(id));
                            }
                        }
                        assert(newer =~= older);
                        assert(g0.contains_key(k));
                    }
                }
            }
            ei = ei + 1;
        }
        proof {
            let cur = states@[si as int]@;
            assert(cur == entries_map(entries@));
            assert(sv.take(si + 1) =~= prev.push(cur));
            let next = sv.take(si + 1);
            assert forall|k: SlotView| #[trigger] grouped@.contains_key(k) <==> in_some(next, k) by {
                if in_some(next, k) {
                    let i = choose|i: int| 0 <= i < next.len() && #[trigger] next[i].contains_key(k);
                    if i < si {
                        assert(prev[i] == next[i]);
                        assert(in_some(prev, k));
                    } else {
                        let j = crate::stateres::collections::key_index(entries@, k);
                        assert(entries@[j].0.key_view() == k);
                    }
                }
                if grouped@.contains_key(k) {
                    if before.contains_key(k) {
                        let i = choose|i: int| 0 <= i < prev.len() && #[trigger] prev[i].contains_key(k);
                        assert(next[i] == prev[i]);
                    } else {
                        let j = choose|j: int| 0 <= j < entries@.len() && #[trigger] entries@[j].0.key_view() == k;
                        lemma_entries_map_at(entries@, j);
                        assert(next[si as int] == cur);
                    }
                }
            }
            assert forall|k: SlotView| #[trigger] grouped@.contains_key(k) implies grouped@[k] == slot_ids(next, k) by {
                let base = if before.contains_key(k) { before[k] } else { Set::<Seq<char>>::empty() };
                let newer = Set::new(|id: Seq<char>| exists|j: int| 0 <= j < entries@.len() && #[trigger] entries@[j].0.key_view() == k && entries@[j].1@ == id);
                assert forall|id: Seq<char>| grouped@[k].contains(id) <==> slot_ids(next, k).contains(id) by {
                    if base.contains(id) {
                        let i = choose|i: int| 0 <= i < prev.len() && #[trigger] prev[i].contains_key(k) && prev[i][k] == id;
                        assert(next[i] == prev[i]);
                    }
                    if newer.contains(id) {
                        let j = choose|j: int| 0 <= j < entries@.len() && #[trigger] entries@[j].0.key_view() == k && entries@[j].1@ == id;
                        lemma_entries_map_at(entries@, j);
                        assert(next[si as int] == cur);
                    }
                    if slot_ids(next, k).contains(id) {
                        let i = choose|i: int| 0 <= i < next.len() && #[trigger] next[i].contains_key(k) && next[i][k] == id;
                        if i < si {
                            assert(prev[i] == next[i]);
                            assert(in_some(prev, k));
                            assert(slot_ids(prev, k).contains(id));
                        } else {
                            let j = crate::stateres::collections::key_index(entries@, k);
                            lemma_entries_map_at(entries@, j);
                            assert(newer.contains(id));
                        }
                    }
                }
                assert(grouped@[k] =~= slot_ids(next, k));
            }
        }
        si = si + 1;
    }
    assert(sv.take(states@.len() as int) =~= sv);

    let mut unconflicted: StateMap = OrdMap::new();
    let mut conflicted: ConflictedState = OrdMap::new();
    let groups = grouped.entries();
    proof {
        grouped.lemma_view();
    }
    let mut gi: usize = 0;
    while gi < groups.len()
        invariant
            groups@ == grouped.entry_seq(),
            keys_sorted(groups@),
            grouped@ == entries_map(groups@),
            gi <= groups@.len(),
            forall|k: SlotView| #[trigger] grouped@.contains_key(k) <==> in_some(sv, k),
            forall|k: SlotView| #[trigger] grouped@.contains_key(k) ==> grouped@[k] == slot_ids(sv, k),
            forall|k: SlotView| #[trigger] unconflicted@.contains_key(k) ==> slot_ids(sv, k) == Set::<Seq<char>>::empty().insert(unconflicted@[k]),
            forall|k: SlotView| #[trigger] conflicted@.contains_key(k) ==> conflicted@[k] == slot_ids(sv, k)
                && conflicted@[k].finite() && conflicted@[k].len() > 1,
            forall|j: int| 0 <= j < gi ==> unconflicted@.contains_key(#[trigger] groups@[j].0.key_view())
                || conflicted@.contains_key(groups@[j].0.key_view()),
            forall|k: SlotView| #[trigger] unconflicted@.contains_key(k) ==> grouped@.contains_key(k),
            forall|k: SlotView| #[trigger] conflicted@.contains_key(k) ==> grouped@.contains_key(k),
        decreases groups@.len() - gi,
    {
        let key = &groups[gi].0;
        let ids = &groups[gi].1;
        proof {
            lemma_entries_map_at(groups@, gi as int);
        }
        let n = ids.len();
        let ghost kk = key.key_view();
        if n == 1 {
            let all = ids.to_vec();
            proof {
                ids.id_seq().unique_seq_to_set();
                assert(ids.id_seq().len() == 1);
                assert(ids@ =~= Set::<Seq<char>>::empty().insert(ids.id_seq()[0])) by {
                    assert forall|x: Seq<char>| ids@.contains(x) <==> x == ids.id_seq()[0] by {
                        if ids.id_seq().to_set().contains(x) {
                            let i = choose|i: int| 0 <= i < ids.id_seq().len() && ids.id_seq()[i] == x;
                        }
                        if x == ids.id_seq()[0] {
                            assert(ids.id_seq().to_set().contains(x));
                        }
                    }
                }
                assert(all@.map_values(|x: String| x@)[0] == all@[0]@);
            }
            unconflicted.insert(key.key_clone(), all[0].clone());
        } else {
            proof {
                assert(ids@.finite());
                if n == 0 {
                    assert(slot_ids(sv, kk).len() == 0);
                    assert(in_some(sv, kk));
                    let i = choose|i: int| 0 <= i < sv.len() && #[trigger] sv[i].contains_key(kk);
                    assert(slot_ids(sv, kk).contains(sv[i][kk]));
                    assert(false);
                }
            }
            conflicted.insert(key.key_clone(), ids.view_clone());
        }
        gi = gi + 1;
    }
    proof {
        assert forall|k: SlotView| in_some(sv, k) <==> (#[trigger] unconflicted@.contains_key(k) || conflicted@.contains_key(k)) by {
            if in_some(sv, k) {
                assert(grouped@.contains_key(k));
                let j = crate::stateres::collections::key_index(groups@, k);
                assert(groups@[j].0.key_view() == k);
            }
        }
        lemma_partition_determined(sv, unconflicted@, conflicted@);
    }
    Partitioned { unconflicted, conflicted }
}

/// Every event id appearing in a conflicted state.
pub open spec fn conflicting_ids_spec(conflicted: Map<SlotView, Set<Seq<char>>>) -> Set<Seq<char>> {
    Set::new(|x: Seq<char>| exists|k: SlotView| #[trigger] conflicted.contains_key(k) && conflicted[k].contains(x))
}

/// The flattened set of every event id appearing in a conflicted state. This
/// is the key under which a resolution result is memoised.
pub fn conflicting_event_ids(conflicted: &ConflictedState) -> (r: EventIdSet)
    ensures
        r@ == conflicting_ids_spec(conflicted@),
{
    let entries = conflicted.entries();
    proof { conflicted.lemma_view(); }
    let mut out = EventIdSet::new();
    let mut i: usize = 0;
    while i < entries.len()
        invariant
            entries@ == conflicted.entry_seq(),
            keys_sorted(entries@),
            conflicted@ == entries_map(entries@),
            i <= entries@.len(),
            out@ == Set::new(|x: Seq<char>| exists|j: int| 0 <= j < i && (#[trigger] entries@[j]).1@.contains(x)),
        decreases entries@.len() - i,
    {
        let ids = entries[i].1.to_vec();
        let ghost before = out@;
        let mut t: usize = 0;
        while t < ids.len()
            invariant
                i < entries@.len(),
                ids@.map_values(|x: String| x@) == entries@[i as int].1.id_seq(),
                entries@[i as int].1.id_seq().to_set() == entries@[i as int].1@,
                t <= ids@.len(),
                out@ == before.union(Set::new(|x: Seq<char>| exists|u: int| 0 <= u < t && (#[trigger] ids@[u])@ == x)),
            decreases ids@.len() - t,
        {
            out.insert(ids[t].clone());
            proof {
                let a = Set::new(|x: Seq<char>| exists|u: int| 0 <= u < t + 1 && (#[trigger] ids@[u])@ == x);
                let b = Set::new(|x: Seq<char>| exists|u: int| 0 <= u < t && (#[trigger] ids@[u])@ == x);
                assert forall|x: Seq<char>| a.contains(x) <==> (b.contains(x) || x == ids@[t as int]@) by {
                    if a.contains(x) {
                        let u = choose|u: int| 0 <= u < t + 1 && (#[trigger] ids@[u])@ == x;
                        if u < t {
                            assert(b.contains(x));
                        }
                    }
                    if b.contains(x) {
                        let u = choose|u: int| 0 <= u < t && (#[trigger] ids@[u])@ == x;
                        assert(a.contains(x));
                    }
                }
                assert(out@ =~= before.union(a));
            }
            t = t + 1;
        }
        proof {
            let all = Set::new(|x: Seq<char>| exists|u: int| 0 <= u < ids@.len() && (#[trigger] ids@[u])@ == x);
            assert forall|x: Seq<char>| all.contains(x) <==> entries@[i as int].1@.contains(x) by {
                if all.contains(x) {
                    let u = choose|u: int| 0 <= u < ids@.len() && (#[trigger] ids@[u])@ == x;
                    assert(ids@.map_values(|y: String| y@)[u] == x);
                    assert(entries@[i as int].1.id_seq().contains(x));
                }
                if entries@[i as int].1@.contains(x) {
                    assert(entries@[i as int].1.id_seq().contains(x));
                    let u = choose|u: int| 0 <= u < entries@[i as int].1.id_seq().len() && entries@[i as int].1.id_seq()[u] == x;
                    assert(ids@.map_values(|y: String| y@)[u] == x);
                }
            }
            let target = Set::new(|x: Seq<char>| exists|j: int| 0 <= j < i + 1 && (#[trigger] entries@[j]).1@.contains(x));
            assert forall|x: Seq<char>| out@.contains(x) <==> target.contains(x) by {
                if target.contains(x) {
                    let j = choose|j: int| 0 <= j < i + 1 && (#[trigger] entries@[j]).1@.contains(x);
                    if j == i {
                        assert(all.contains(x));
                    } else {
                        assert(before.contains(x));
                    }
                }
                if out@.contains(x) {
                    if before.contains(x) {
                        let j = choose|j: int| 0 <= j < i && (#[trigger] entries@[j]).1@.contains(x);
                        assert(target.contains(x));
                    } else {
                        assert(all.contains(x));
                        assert(entries@[i as int].1@.contains(x));
                        assert(target.contains(x));
                    }
                }
            }
            assert(out@ =~= target);
        }
        i = i + 1;
    }
    proof {
        assert forall|x: Seq<char>| out@.contains(x) <==> conflicting_ids_spec(conflicted@).contains(x) by {
            if out@.contains(x) {
                let j = choose|j: int| 0 <= j < entries@.len() && (#[trigger] entries@[j]).1@.contains(x);
                lemma_entries_map_at(entries@, j);
            }
            if conflicting_ids_spec(conflicted@).contains(x) {
                let k = choose|k: SlotView| #[trigger] conflicted@.contains_key(k) && conflicted@[k].contains(x);
                let j = crate::stateres::collections::key_index(entries@, k);
                lemma_entries_map_at(entries@, j);
            }
        }
        assert(out@ =~= conflicting_ids_spec(conflicted@));
    }
    out
}

} // verus!
