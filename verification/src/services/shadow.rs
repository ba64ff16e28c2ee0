//! Comparing a shadow state resolution with the authoritative one.

use vstd::prelude::*;

use crate::stateres::collections::{
    entries_map, key_index, keys_sorted, lemma_entries_map_at, pair_lt, MapKey, OrdMap,
};
use crate::stateres::auth::RoomRules;
use crate::stateres::cache::{cached, ResolvedStateCache};
use crate::stateres::collections::EventIdSet;
use crate::stateres::order::sets_view;
use crate::stateres::resolve::{power_chains_end, resolution, resolve};
use crate::stateres::state_map::{
    conflicted_of, conflicting_ids_spec, states_view, unconflicted_of, EventStore, SlotView, StateKey, StateMap,
    StateView,
};

verus! {

/// Whether two states disagree at slot `k`: one holds it and the other does
/// not, or they hold different events there.
pub open spec fn diverges(a: StateView, b: StateView, k: SlotView) -> bool {
    &&& a.contains_key(k) || b.contains_key(k)
    &&& !(a.contains_key(k) && b.contains_key(k) && a[k] == b[k])
}

/// Add to `out` every slot of `from` at which `a` and `b` disagree.
fn collect_divergent(from: &StateMap, a: &StateMap, b: &StateMap, out: &mut OrdMap<StateKey, ()>)
    ensures
        forall|k: SlotView| #[trigger] final(out)@.contains_key(k) <==> (old(out)@.contains_key(k)
            || (from@.contains_key(k) && diverges(a@, b@, k))),
{
    let entries = from.entries();
    proof {
        from.lemma_view();
    }
    let ghost start = out@;
    let mut i: usize = 0;
    while i < entries.len()
        invariant
            entries@ == from.entry_seq(),
            keys_sorted(entries@),
            from@ == entries_map(entries@),
            i <= entries@.len(),
            forall|k: SlotView| #[trigger] out@.contains_key(k) <==> (start.contains_key(k)
                || exists|j: int| 0 <= j < i && #[trigger] entries@[j].0.key_view() == k && diverges(a@, b@, k)),
        decreases entries@.len() - i,
    {
        let key = &entries[i].0;
        proof {
            lemma_entries_map_at(entries@, i as int);
        }
        let ghost kk = key.key_view();
        let differs = match (a.get(key), b.get(key)) {
            (Some(x), Some(y)) => !crate::bytes::str_eq(x.as_str(), y.as_str()),
            (None, None) => false,
            _ => true,
        };
        proof {
            assert(differs == diverges(a@, b@, kk));
        }
        if differs {
            out.insert(key.key_clone(), ());
        }
        proof {
            assert forall|k: SlotView| #[trigger] out@.contains_key(k) <==> (start.contains_key(k)
                || exists|j: int| 0 <= j < i + 1 && #[trigger] entries@[j].0.key_view() == k && diverges(a@, b@, k)) by {
                if k == kk {
                    assert(entries@[i as int].0.key_view() == k);
                } else if exists|j: int| 0 <= j < i + 1 && #[trigger] entries@[j].0.key_view() == k && diverges(a@, b@, k) {
                    let j = choose|j: int| 0 <= j < i + 1 && #[trigger] entries@[j].0.key_view() == k && diverges(a@, b@, k);
                    assert(j != i);
                }
            }
        }
        i = i + 1;
    }
    proof {
        assert forall|k: SlotView| #[trigger] out@.contains_key(k) <==> (start.contains_key(k)
            || (from@.contains_key(k) && diverges(a@, b@, k))) by {
            if from@.contains_key(k) && diverges(a@, b@, k) {
                let j = key_index(entries@, k);
                assert(entries@[j].0.key_view() == k);
            }
            if exists|j: int| 0 <= j < entries@.len() && #[trigger] entries@[j].0.key_view() == k && diverges(a@, b@, k) {
                let j = choose|j: int| 0 <= j < entries@.len() && #[trigger] entries@[j].0.key_view() == k && diverges(a@, b@, k);
                lemma_entries_map_at(entries@, j);
            }
        }
    }
}

/// The sorted, de-duplicated state keys on which `expected` and `shadow`
/// disagree, taken over the union of their keys. A key present in one map
/// but absent from the other counts as a divergence.
pub fn diverging_keys(expected: &StateMap, shadow: &StateMap) -> (r: Vec<StateKey>)
    ensures
        forall|i: int, j: int| 0 <= i < j < r@.len() ==> pair_lt(#[trigger] r@[i].key_view(), #[trigger] r@[j].key_view()),
        forall|k: SlotView| diverges(expected@, shadow@, k) <==> exists|i: int| 0 <= i < r@.len() && #[trigger] r@[i].key_view() == k,
{
    let mut found: OrdMap<StateKey, ()> = OrdMap::new();
    collect_divergent(expected, expected, shadow, &mut found);
    collect_divergent(shadow, expected, shadow, &mut found);
    let entries = found.entries();
    proof {
        found.lemma_view();
    }
    let mut out: Vec<StateKey> = Vec::new();
    let mut i: usize = 0;
    while i < entries.len()
        invariant
            entries@ == found.entry_seq(),
            keys_sorted(entries@),
            found@ == entries_map(entries@),
            i <= entries@.len(),
            out@.len() == i,
            forall|a: int| 0 <= a < i ==> (#[trigger] out@[a]).key_view() == entries@[a].0.key_view(),
        decreases entries@.len() - i,
    {
        out.push(entries[i].0.key_clone());
        i = i + 1;
    }
    proof {
        assert forall|a: int, b: int| 0 <= a < b < out@.len() implies pair_lt(#[trigger] out@[a].key_view(), #[trigger] out@[b].key_view()) by {
            assert(<(String, String)>::key_lt(entries@[a].0.key_view(), entries@[b].0.key_view()));
        }
        assert forall|k: SlotView| diverges(expected@, shadow@, k) <==> exists|a: int| 0 <= a < out@.len() && #[trigger] out@[a].key_view() == k by {
            if diverges(expected@, shadow@, k) {
                assert(found@.contains_key(k));
                let a = key_index(entries@, k);
                assert(out@[a].key_view() == k);
            }
            if exists|a: int| 0 <= a < out@.len() && #[trigger] out@[a].key_view() == k {
                let a = choose|a: int| 0 <= a < out@.len() && #[trigger] out@[a].key_view() == k;
                lemma_entries_map_at(entries@, a);
            }
        }
    }
    out
}

/// The events a state holds.
pub open spec fn values_of(state: StateView) -> Set<Seq<char>> {
    Set::new(|id: Seq<char>| exists|k: SlotView| #[trigger] state.contains_key(k) && state[k] == id)
}

/// Every event a fork holds or an auth chain lists.
pub open spec fn referenced_ids(forks: Seq<StateView>, chains: Seq<Set<Seq<char>>>) -> Set<Seq<char>>
    decreases forks.len() + chains.len(),
{
    if chains.len() > 0 {
        referenced_ids(forks, chains.drop_last()).union(chains.last())
    } else if forks.len() > 0 {
        referenced_ids(forks.drop_last(), chains).union(values_of(forks.last()))
    } else {
        Set::empty()
    }
}

/// Add to `out` every event `state` holds.
fn insert_values(state: &StateMap, out: &mut EventIdSet)
    ensures
        final(out)@ == old(out)@.union(values_of(state@)),
{
    let entries = state.entries();
    proof {
        state.lemma_view();
    }
    let ghost start = out@;
    let mut i: usize = 0;
    while i < entries.len()
        invariant
            entries@ == state.entry_seq(),
            keys_sorted(entries@),
            state@ == entries_map(entries@),
            i <= entries@.len(),
            out@ == start.union(Set::new(|id: Seq<char>| exists|t: int| 0 <= t < i && #[trigger] entries@[t].1@ == id)),
        decreases entries@.len() - i,
    {
        out.insert(entries[i].1.clone());
        proof {
            assert(out@ =~= start.union(Set::new(|id: Seq<char>| exists|t: int| 0 <= t < i + 1 && #[trigger] entries@[t].1@ == id))) by {
                assert(entries@[i as int].1@ == entries@[i as int].1@);
            }
        }
        i = i + 1;
    }
    proof {
        let got = Set::new(|id: Seq<char>| exists|t: int| 0 <= t < entries@.len() && #[trigger] entries@[t].1@ == id);
        assert forall|id: Seq<char>| got.contains(id) <==> values_of(state@).contains(id) by {
            if got.contains(id) {
                let t = choose|t: int| 0 <= t < entries@.len() && #[trigger] entries@[t].1@ == id;
                lemma_entries_map_at(entries@, t);
                assert(state@.contains_key(entries@[t].0.key_view()));
            }
            if values_of(state@).contains(id) {
                let k = choose|k: SlotView| #[trigger] state@.contains_key(k) && state@[k] == id;
                let t = key_index(entries@, k);
                lemma_entries_map_at(entries@, t);
            }
        }
        assert(got =~= values_of(state@));
    }
}

/// Every event referenced by a fork or an auth chain: all of them may be
/// needed to resolve the forks.
pub fn referenced_event_ids(forks: &[StateMap], auth_chains: &[EventIdSet]) -> (r: EventIdSet)
    ensures
        r@ == referenced_ids(states_view(forks@), sets_view(auth_chains@)),
{
    let ghost fv = states_view(forks@);
    let ghost cv = sets_view(auth_chains@);
    let mut out = EventIdSet::new();
    let mut i: usize = 0;
    while i < forks.len()
        invariant
            fv == states_view(forks@),
            i <= forks@.len(),
            out@ == referenced_ids(fv.take(i as int), Seq::<Set<Seq<char>>>::empty()),
        decreases forks@.len() - i,
    {
        insert_values(&forks[i], &mut out);
        proof {
            assert(fv.take(i + 1).drop_last() =~= fv.take(i as int));
            assert(fv.take(i + 1).last() == forks@[i as int]@);
        }
        i = i + 1;
    }
    proof {
        assert(fv.take(forks@.len() as int) =~= fv);
        assert(cv.take(0) =~= Seq::<Set<Seq<char>>>::empty());
    }
    let mut j: usize = 0;
    while j < auth_chains.len()
        invariant
            fv == states_view(forks@),
            cv == sets_view(auth_chains@),
            j <= auth_chains@.len(),
            out@ == referenced_ids(fv, cv.take(j as int)),
        decreases auth_chains@.len() - j,
    {
        let ids = auth_chains[j].to_vec();
        let ghost before = out@;
        let mut u: usize = 0;
        while u < ids.len()
            invariant
                u <= ids@.len(),
                out@ == before.union(Set::new(|x: Seq<char>| exists|t: int| 0 <= t < u && #[trigger] ids@[t]@ == x)),
            decreases ids@.len() - u,
        {
            out.insert(ids[u].clone());
            proof {
                assert(out@ =~= before.union(Set::new(|x: Seq<char>| exists|t: int| 0 <= t < u + 1 && #[trigger] ids@[t]@ == x))) by {
                    assert(ids@[u as int]@ == ids@[u as int]@);
                }
            }
            u = u + 1;
        }
        proof {
            let got = Set::new(|x: Seq<char>| exists|t: int| 0 <= t < ids@.len() && #[trigger] ids@[t]@ == x);
            assert(got =~= auth_chains@[j as int]@);
            assert(cv.take(j + 1).drop_last() =~= cv.take(j as int));
            assert(cv.take(j + 1).last() == auth_chains@[j as int]@);
        }
        j = j + 1;
    }
    proof {
        assert(cv.take(auth_chains@.len() as int) =~= cv);
    }
    out
}

/// The capacity of the resolved-state cache a fork resolution starts with.
pub const FORK_CACHE_CAPACITY: usize = 256;

/// Resolve `forks` over the events of `store` with the room rules and a fresh
/// cache: the unconflicted state, with the resolution of the conflicted slots
/// over it when there are any.
pub fn resolve_forks(forks: &[StateMap], auth_chains: &[EventIdSet], store: &EventStore) -> (r: StateMap)
    requires
        conflicted_of(states_view(forks@)).dom().len() > 0 ==> power_chains_end(store@),
    ensures
        ({
            let sv = states_view(forks@);
            r@ == if conflicted_of(sv).dom().len() == 0 {
                unconflicted_of(sv)
            } else {
                unconflicted_of(sv).union_prefer_right(resolution(sv, sets_view(auth_chains@), store@, &RoomRules))
            }
        }),
{
    let mut cache = ResolvedStateCache::new(FORK_CACHE_CAPACITY);
    resolve(forks, auth_chains, store, &RoomRules, &mut cache)
}

/// How a shadow resolution compares with the authoritative one.
pub struct ShadowReport {
    /// The slots the authoritative state holds.
    pub authoritative_keys: usize,
    /// The slots the shadow state holds.
    pub shadow_keys: usize,
    /// The slots on which they disagree, ascending.
    pub divergences: Vec<StateKey>,
    /// The first few of those, for a bounded log line.
    pub sample: Vec<StateKey>,
}

/// The number of diverging slots a report samples.
pub const DIVERGENCE_SAMPLE: usize = 8;

/// Compare a shadow resolution with the authoritative one: they agree when
/// the report lists no divergence.
pub fn shadow_report(expected: &StateMap, shadow: &StateMap) -> (r: ShadowReport)
    ensures
        r.authoritative_keys == expected@.len(),
        r.shadow_keys == shadow@.len(),
        forall|i: int, j: int| 0 <= i < j < r.divergences@.len() ==> pair_lt(#[trigger] r.divergences@[i].key_view(), #[trigger] r.divergences@[j].key_view()),
        forall|k: SlotView| diverges(expected@, shadow@, k) <==> exists|i: int| 0 <= i < r.divergences@.len() && #[trigger] r.divergences@[i].key_view() == k,
        r.sample@.len() == if r.divergences@.len() < DIVERGENCE_SAMPLE { r.divergences@.len() } else { DIVERGENCE_SAMPLE as nat },
        forall|i: int| 0 <= i < r.sample@.len() ==> (#[trigger] r.sample@[i]).key_view() == r.divergences@[i].key_view(),
{
    let divergences = diverging_keys(expected, shadow);
    let mut sample: Vec<StateKey> = Vec::new();
    let mut i: usize = 0;
    while i < divergences.len() && i < DIVERGENCE_SAMPLE
        invariant
            i <= divergences@.len(),
            i <= DIVERGENCE_SAMPLE,
            sample@.len() == i,
            forall|t: int| 0 <= t < i ==> (#[trigger] sample@[t]).key_view() == divergences@[t].key_view(),
        decreases divergences@.len() - i,
    {
        sample.push(divergences[i].key_clone());
        i = i + 1;
    }
    let ghost dv = divergences@;
    let r = ShadowReport { authoritative_keys: expected.len(), shadow_keys: shadow.len(), divergences, sample };
    proof {
        assert(r.divergences@ == dv);
        assert forall|k: SlotView| diverges(expected@, shadow@, k) implies exists|i: int| 0 <= i < r.divergences@.len() && #[trigger] r.divergences@[i].key_view() == k by {
            let i = choose|i: int| 0 <= i < dv.len() && #[trigger] dv[i].key_view() == k;
            assert(r.divergences@[i].key_view() == k);
        }
    }
    r
}

} // verus!
