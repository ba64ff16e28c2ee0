//! The full two-pass state-resolution-v2 algorithm.

use vstd::prelude::*;

use crate::bytes::{str_eq, str_lt};
use crate::stateres::auth::{
    auth_fold, iterative_auth_checks, join_rules_type, member_type, power_levels_type, AuthRules,
    StoreView,
};
use crate::stateres::cache::{cached, insert_spec, CacheSlots, ResolvedStateCache};
use crate::stateres::collections::{
    entries_map, keys_sorted, lemma_entries_map_at, lemma_sorted_same_set, EventIdSet, MapKey,
    OrdMap, ViewClone,
};
use crate::stateres::event::{ids_view, Event, EventId};
use crate::stateres::mainline::{chain_ends, mainline_order, mainline_ordering, opt_view, pl_parent, walk};
use crate::stateres::order::{auth_difference, auth_difference_spec, power_order, reverse_topological_power_sort, sets_view};
use crate::stateres::state_map::{
    conflicted_of, conflicting_event_ids, conflicting_ids_spec, partition, states_view,
    unconflicted_of, EventStore, Partitioned, SlotView, StateMap, StateView,
};

verus! {

/// The slot of the room's power-levels event.
pub open spec fn power_levels_slot() -> SlotView {
    (power_levels_type(), Seq::empty())
}

/// Whether an event is a control event — one of the types that govern
/// authorisation and are resolved in the first pass.
pub open spec fn is_control(e: Event) -> bool {
    ||| e.event_type@ == power_levels_type()
    ||| e.event_type@ == join_rules_type()
    ||| e.event_type@ == member_type()
}

/// Whether the identifiers of `q` strictly ascend.
pub open spec fn strictly_ascending(q: Seq<Seq<char>>) -> bool {
    forall|i: int, j: int| 0 <= i < j < q.len() ==> str_lt(#[trigger] q[i], #[trigger] q[j])
}

/// The identifiers of a finite set, in ascending order.
pub open spec fn ascending(s: Set<Seq<char>>) -> Seq<Seq<char>> {
    choose|q: Seq<Seq<char>>| strictly_ascending(q) && q.to_set() == s
}

/// The identifiers of `ids` the store holds whose events are (or, with
/// `control` false, are not) control events, in their order.
pub open spec fn select_present(ids: Seq<Seq<char>>, store: StoreView, control: bool) -> Seq<Seq<char>>
    decreases ids.len(),
{
    if ids.len() == 0 {
        Seq::empty()
    } else {
        let rest = select_present(ids.drop_last(), store, control);
        let x = ids.last();
        if store.contains_key(x) && is_control(store[x]) == control {
            rest.push(x)
        } else {
            rest
        }
    }
}

/// The full conflicted set: the disputed events plus the auth difference.
pub open spec fn full_conflicted(states: Seq<StateView>, chains: Seq<Set<Seq<char>>>) -> Set<Seq<char>> {
    conflicting_ids_spec(conflicted_of(states)).union(auth_difference_spec(chains))
}

/// The state after the first pass: the control events, in reverse
/// topological power order, checked against the unconflicted state.
pub open spec fn first_pass<R: AuthRules>(states: Seq<StateView>, chains: Seq<Set<Seq<char>>>, store: StoreView, rules: &R) -> StateView {
    let full = ascending(full_conflicted(states, chains));
    auth_fold(rules, power_order(select_present(full, store, true), store), unconflicted_of(states), store)
}

/// The event a state holds at `slot`, if any.
pub open spec fn slot_event(m: StateView, slot: SlotView) -> Option<Seq<char>> {
    if m.contains_key(slot) {
        Some(m[slot])
    } else {
        None
    }
}

/// The state after the second pass: the other events, in mainline order
/// against the power-levels event the first pass resolved, checked against
/// the first pass's state.
pub open spec fn second_pass<R: AuthRules>(states: Seq<StateView>, chains: Seq<Set<Seq<char>>>, store: StoreView, rules: &R) -> StateView {
    let full = ascending(full_conflicted(states, chains));
    let p1 = first_pass(states, chains, store, rules);
    let others = select_present(full, store, false);
    auth_fold(rules, mainline_order(store, slot_event(p1, power_levels_slot()), others), p1, store)
}

/// The resolution of the conflicted slots: what the second pass holds at
/// each of them.
pub open spec fn resolution<R: AuthRules>(states: Seq<StateView>, chains: Seq<Set<Seq<char>>>, store: StoreView, rules: &R) -> StateView {
    let p2 = second_pass(states, chains, store, rules);
    let c = conflicted_of(states);
    Map::new(|k: SlotView| c.contains_key(k) && p2.contains_key(k), |k: SlotView| p2[k])
}

/// Whether every chain of power-levels auth events from an event of the
/// store comes to an end.
pub open spec fn power_chains_end(store: StoreView) -> bool {
    forall|x: Seq<char>| #[trigger] store.contains_key(x) ==> chain_ends(store, Some(x))
}

/// When the store's chains end, every chain ends.
pub proof fn lemma_every_chain_ends(store: StoreView, start: Option<Seq<char>>)
    requires
        power_chains_end(store),
    ensures
        chain_ends(store, start),
{
    match start {
        Some(x) => {
            if !store.contains_key(x) {
                assert(walk(store, start, 1) == None::<Seq<char>>);
            }
        },
        None => {
            assert(walk(store, start, 0) == None::<Seq<char>>);
        },
    }
}

/// Merge the resolved conflicted slots over the unconflicted state.
fn merged(unconflicted: &StateMap, resolved: &StateMap) -> (r: StateMap)
    ensures
        r@ == unconflicted@.union_prefer_right(resolved@),
{
    let mut out = unconflicted.copy();
    let entries = resolved.entries();
    proof {
        resolved.lemma_view();
    }
    let mut i: usize = 0;
    while i < entries.len()
        invariant
            entries@ == resolved.entry_seq(),
            keys_sorted(entries@),
            resolved@ == entries_map(entries@),
            i <= entries@.len(),
            forall|k: SlotView| #[trigger] out@.contains_key(k) <==> (unconflicted@.contains_key(k)
                || exists|j: int| 0 <= j < i && #[trigger] entries@[j].0.key_view() == k),
            forall|k: SlotView| #[trigger] out@.contains_key(k) ==> out@[k] == (if exists|j: int| 0 <= j < i && #[trigger] entries@[j].0.key_view() == k {
                resolved@[k]
            } else {
                unconflicted@[k]
            }),
        decreases entries@.len() - i,
    {
        proof {
            lemma_entries_map_at(entries@, i as int);
        }
        let ghost kk = entries@[i as int].0.key_view();
        out.insert(entries[i].0.key_clone(), entries[i].1.clone());
        proof {
            assert forall|k: SlotView| #[trigger] out@.contains_key(k) <==> (unconflicted@.contains_key(k)
                || exists|j: int| 0 <= j < i + 1 && #[trigger] entries@[j].0.key_view() == k) by {
                if k == kk {
                    assert(entries@[i as int].0.key_view() == k);
                } else if exists|j: int| 0 <= j < i + 1 && #[trigger] entries@[j].0.key_view() == k {
                    let j = choose|j: int| 0 <= j < i + 1 && #[trigger] entries@[j].0.key_view() == k;
                    assert(j != i);
                }
            }
            assert forall|k: SlotView| #[trigger] out@.contains_key(k) implies out@[k] == (if exists|j: int| 0 <= j < i + 1 && #[trigger] entries@[j].0.key_view() == k {
                resolved@[k]
            } else {
                unconflicted@[k]
            }) by {
                if k == kk {
                    assert(entries@[i as int].0.key_view() == k);
                } else if exists|j: int| 0 <= j < i + 1 && #[trigger] entries@[j].0.key_view() == k {
                    let j = choose|j: int| 0 <= j < i + 1 && #[trigger] entries@[j].0.key_view() == k;
                    assert(j != i);
                }
            }
        }
        i = i + 1;
    }
    proof {
        let target = unconflicted@.union_prefer_right(resolved@);
        assert forall|k: SlotView| #[trigger] resolved@.contains_key(k) implies exists|j: int| 0 <= j < entries@.len() && #[trigger] entries@[j].0.key_view() == k by {
            let j = crate::stateres::collections::key_index(entries@, k);
        }
        assert forall|k: SlotView| (exists|j: int| 0 <= j < entries@.len() && #[trigger] entries@[j].0.key_view() == k) implies #[trigger] resolved@.contains_key(k) by {
            let j = choose|j: int| 0 <= j < entries@.len() && #[trigger] entries@[j].0.key_view() == k;
            lemma_entries_map_at(entries@, j);
        }
        assert(out@ =~= target);
    }
    out
}

/// Whether an event is a control event — one of the types that govern
/// authorisation and are resolved in the first pass.
fn is_control_event(event: &Event) -> (r: bool)
    ensures
        r == is_control(*event),
{
    let t = event.event_type();
    str_eq(t, "m.room.power_levels") || str_eq(t, "m.room.join_rules") || str_eq(t, "m.room.member")
}

/// Add every identifier of `more` to `full`.
fn union_into(full: &mut EventIdSet, more: &EventIdSet)
    ensures
        final(full)@ == old(full)@.union(more@),
{
    let ids = more.to_vec();
    let ghost start = full@;
    let mut t: usize = 0;
    while t < ids.len()
        invariant
            t <= ids@.len(),
            forall|u: int| 0 <= u < ids@.len() ==> more@.contains(#[trigger] ids@[u]@),
            forall|x: Seq<char>| #[trigger] more@.contains(x) ==> exists|u: int| 0 <= u < ids@.len() && #[trigger] ids@[u]@ == x,
            forall|x: Seq<char>| #[trigger] full@.contains(x) <==> (start.contains(x) || exists|u: int| 0 <= u < t && #[trigger] ids@[u]@ == x),
        decreases ids@.len() - t,
    {
        full.insert(ids[t].clone());
        proof {
            assert forall|x: Seq<char>| #[trigger] full@.contains(x) <==> (start.contains(x) || exists|u: int| 0 <= u < t + 1 && #[trigger] ids@[u]@ == x) by {
                if x == ids@[t as int]@ {
                    assert(exists|u: int| 0 <= u < t + 1 && #[trigger] ids@[u]@ == x);
                } else if exists|u: int| 0 <= u < t + 1 && #[trigger] ids@[u]@ == x {
                    let u = choose|u: int| 0 <= u < t + 1 && #[trigger] ids@[u]@ == x;
                    assert(u != t);
                }
            }
        }
        t = t + 1;
    }
    proof {
        assert(full@ =~= start.union(more@));
    }
}

/// The identifiers of `ids` the store holds, split into those whose events
/// are control events and the rest, each in the order of `ids`.
fn split_present(ids: &[EventId], store: &EventStore) -> (r: (Vec<EventId>, Vec<EventId>))
    ensures
        ids_view(r.0@) == select_present(ids_view(ids@), store@, true),
        ids_view(r.1@) == select_present(ids_view(ids@), store@, false),
{
    let ghost iv = ids_view(ids@);
    let mut control: Vec<EventId> = Vec::new();
    let mut others: Vec<EventId> = Vec::new();
    let mut i: usize = 0;
    proof {
        assert(ids_view(control@) =~= select_present(iv.take(0), store@, true));
        assert(ids_view(others@) =~= select_present(iv.take(0), store@, false));
    }
    while i < ids.len()
        invariant
            iv == ids_view(ids@),
            i <= ids@.len(),
            ids_view(control@) == select_present(iv.take(i as int), store@, true),
            ids_view(others@) == select_present(iv.take(i as int), store@, false),
        decreases ids@.len() - i,
    {
        proof {
            assert(iv.take(i + 1).drop_last() =~= iv.take(i as int));
            assert(iv.take(i + 1).last() == ids@[i as int]@);
        }
        let ghost c0 = control@;
        let ghost o0 = others@;
        match store.get(&ids[i]) {
            Some(e) => {
                if is_control_event(e) {
                    control.push(ids[i].clone());
                } else {
                    others.push(ids[i].clone());
                }
            },
            None => {},
        }
        proof {
            assert(ids_view(control@) =~= select_present(iv.take(i + 1), store@, true)) by {
                if control@.len() > c0.len() {
                    assert(ids_view(control@) =~= ids_view(c0).push(ids@[i as int]@));
                }
            }
            assert(ids_view(others@) =~= select_present(iv.take(i + 1), store@, false)) by {
                if others@.len() > o0.len() {
                    assert(ids_view(others@) =~= ids_view(o0).push(ids@[i as int]@));
                }
            }
        }
        i = i + 1;
    }
    proof {
        assert(iv.take(ids@.len() as int) =~= iv);
    }
    (control, others)
}

/// What `partial` holds at each slot of `conflicted`.
fn restrict_to(conflicted: &OrdMap<(String, String), EventIdSet>, partial: &StateMap) -> (r: StateMap)
    ensures
        r@ == Map::new(|k: SlotView| conflicted@.contains_key(k) && partial@.contains_key(k), |k: SlotView| partial@[k]),
{
    let entries = conflicted.entries();
    proof {
        conflicted.lemma_view();
    }
    let mut out: StateMap = OrdMap::new();
    let mut i: usize = 0;
    while i < entries.len()
        invariant
            entries@ == conflicted.entry_seq(),
            keys_sorted(entries@),
            conflicted@ == entries_map(entries@),
            i <= entries@.len(),
            forall|k: SlotView| #[trigger] out@.contains_key(k) <==> (partial@.contains_key(k)
                && exists|j: int| 0 <= j < i && #[trigger] entries@[j].0.key_view() == k),
            forall|k: SlotView| #[trigger] out@.contains_key(k) ==> out@[k] == partial@[k],
        decreases entries@.len() - i,
    {
        proof {
            lemma_entries_map_at(entries@, i as int);
        }
        let ghost kk = entries@[i as int].0.key_view();
        match partial.get(&entries[i].0) {
            Some(id) => {
                out.insert(entries[i].0.key_clone(), id.clone());
            },
            None => {},
        }
        proof {
            assert forall|k: SlotView| #[trigger] out@.contains_key(k) <==> (partial@.contains_key(k)
                && exists|j: int| 0 <= j < i + 1 && #[trigger] entries@[j].0.key_view() == k) by {
                if k == kk {
                    assert(entries@[i as int].0.key_view() == k);
                } else if exists|j: int| 0 <= j < i + 1 && #[trigger] entries@[j].0.key_view() == k {
                    let j = choose|j: int| 0 <= j < i + 1 && #[trigger] entries@[j].0.key_view() == k;
                    assert(j != i);
                }
            }
        }
        i = i + 1;
    }
    proof {
        let target = Map::new(|k: SlotView| conflicted@.contains_key(k) && partial@.contains_key(k), |k: SlotView| partial@[k]);
        assert forall|k: SlotView| #[trigger] out@.contains_key(k) <==> target.contains_key(k) by {
            if target.contains_key(k) {
                let j = crate::stateres::collections::key_index(entries@, k);
                assert(entries@[j].0.key_view() == k);
            }
            if out@.contains_key(k) {
                let j = choose|j: int| 0 <= j < entries@.len() && #[trigger] entries@[j].0.key_view() == k;
                lemma_entries_map_at(entries@, j);
            }
        }
        assert(out@ =~= target);
    }
    out
}

/// The identifiers of a set, in ascending order.
fn ascending_ids(s: &EventIdSet) -> (r: Vec<EventId>)
    ensures
        ids_view(r@) == ascending(s@),
{
    let r = s.to_vec();
    proof {
        let q = ids_view(r@);
        assert(q =~= s.id_seq());
        assert(strictly_ascending(q) && q.to_set() == s@);
        let c = ascending(s@);
        lemma_sorted_same_set(c, q);
    }
    r
}

/// What resolving forks `states`, with auth chains `chains`, against `store`
/// and `rules` gives, and the cache entries it leaves, from cache entries
/// `slots` of capacity `capacity`: the unconflicted state when nothing is
/// conflicted; else that state overlaid with the resolution cached under the
/// conflicting event ids, or, on a miss, with a fresh resolution, which is
/// then memoised.
pub open spec fn resolve_outcome<R: AuthRules>(
    states: Seq<StateView>,
    chains: Seq<Set<Seq<char>>>,
    store: StoreView,
    rules: &R,
    slots: CacheSlots,
    capacity: nat,
) -> (StateView, CacheSlots) {
    let u = unconflicted_of(states);
    let c = conflicted_of(states);
    let key = conflicting_ids_spec(c);
    if c.dom().len() == 0 {
        (u, slots)
    } else {
        match cached(slots, key) {
            Some(v) => (u.union_prefer_right(v), slots),
            None => {
                let fresh = resolution(states, chains, store, rules);
                (u.union_prefer_right(fresh), insert_spec(slots, capacity, key, fresh))
            },
        }
    }
}

/// Resolve a set of conflicting state forks into a single state map using
/// the state-resolution-v2 algorithm, memoising via the
/// [`ResolvedStateCache`].
///
/// The unconflicted slots (every fork agrees) are taken as-is; if there is
/// no conflict that is the whole result. Otherwise the conflicted events,
/// together with the [`auth_difference`] of the forks' auth chains, are
/// resolved in two passes against the unconflicted base:
///
/// 1. the *control* events (power levels, join rules, membership) are
///    [`reverse_topological_power_sort`]ed and run through
///    [`iterative_auth_checks`];
/// 2. the remaining events are [`mainline_ordering`]ed by the resolved
///    power-levels event and run through [`iterative_auth_checks`] against
///    the running result.
///
/// The resolution of the conflicted slots is cached by the conflicting
/// event-id set and merged over the unconflicted state. Ids absent from
/// `store` are skipped.
pub fn resolve<R: AuthRules>(
    forks: &[StateMap],
    auth_chains: &[EventIdSet],
    store: &EventStore,
    rules: &R,
    cache: &mut ResolvedStateCache,
) -> (r: StateMap)
    requires
        conflicted_of(states_view(forks@)).dom().len() > 0
            && cached(old(cache).slots(), conflicting_ids_spec(conflicted_of(states_view(forks@)))) == None::<StateView>
            ==> power_chains_end(store@),
    ensures
        ({
            let sv = states_view(forks@);
            let u = unconflicted_of(sv);
            let c = conflicted_of(sv);
            let key = conflicting_ids_spec(c);
            let fresh = resolution(sv, sets_view(auth_chains@), store@, rules);
            &&& final(cache).capacity() == old(cache).capacity()
            &&& c.dom().len() == 0 ==> r@ == u && final(cache).slots() == old(cache).slots()
            &&& c.dom().len() > 0 && cached(old(cache).slots(), key) != None::<StateView> ==>
                r@ == u.union_prefer_right(cached(old(cache).slots(), key)->0) && final(cache).slots() == old(cache).slots()
            &&& c.dom().len() > 0 && cached(old(cache).slots(), key) == None::<StateView> ==>
                r@ == u.union_prefer_right(fresh) && final(cache).slots() == insert_spec(old(cache).slots(), old(cache).capacity(), key, fresh)
        }),
        (r@, final(cache).slots()) == resolve_outcome(
            states_view(forks@),
            sets_view(auth_chains@),
            store@,
            rules,
            old(cache).slots(),
            old(cache).capacity(),
        ),
{
    let ghost sv = states_view(forks@);
    let ghost cv = sets_view(auth_chains@);
    let Partitioned { unconflicted, conflicted } = partition(forks);
    if conflicted.is_empty() {
        return unconflicted;
    }
    let cache_key = conflicting_event_ids(&conflicted);
    match cache.get(&cache_key) {
        Some(resolved) => {
            return merged(&unconflicted, resolved);
        },
        None => {},
    }

    // The full conflicted set: the disputed events plus the auth difference.
    let mut full = cache_key.view_clone();
    let difference = auth_difference(auth_chains);
    union_into(&mut full, &difference);
    let full_ids = ascending_ids(&full);

    // Split into control events and the rest; only events present in the
    // store can be resolved.
    let (control, others) = split_present(full_ids.as_slice(), store);

    // Pass one: power-order the control events, auth-check against the
    // unconflicted state.
    let ordered_control = reverse_topological_power_sort(control.as_slice(), store);
    let partial = iterative_auth_checks(ordered_control.as_slice(), unconflicted.copy(), store, rules);

    // Pass two: mainline-order the rest by the resolved power-levels event,
    // auth-check against the running result.
    let power_levels_key = ("m.room.power_levels".to_owned(), String::new());
    let resolved_power_levels: Option<String> = match partial.get(&power_levels_key) {
        Some(id) => Some(id.clone()),
        None => None,
    };
    let resolved_ref: Option<&str> = match &resolved_power_levels {
        Some(id) => Some(id.as_str()),
        None => None,
    };
    proof {
        lemma_every_chain_ends(store@, opt_view(resolved_ref));
        assert forall|i: int| 0 <= i < others@.len() implies chain_ends(store@, Some(#[trigger] others@[i]@)) by {
            lemma_every_chain_ends(store@, Some(others@[i]@));
        }
        assert(opt_view(resolved_ref) == slot_event(partial@, power_levels_slot()));
    }
    let ordered_others = mainline_ordering(resolved_ref, others.as_slice(), store);
    let partial = iterative_auth_checks(ordered_others.as_slice(), partial, store, rules);

    // The resolution of the conflicted slots, cached and merged over the
    // unconflicted state.
    let resolved = restrict_to(&conflicted, &partial);
    proof {
        assert(resolved@ =~= resolution(sv, cv, store@, rules));
    }
    cache.insert(cache_key, resolved.copy());
    merged(&unconflicted, &resolved)
}

} // verus!
