//! Deterministic ordering primitives for state resolution v2: the auth
//! difference of the input forks, the reverse topological power ordering of
//! the conflicted control events, and the mainline ordering of the rest.

use vstd::prelude::*;

use crate::bytes::{compare_str, lemma_str_lt_order, str_lt};
use crate::stateres::auth::StoreView;
use crate::stateres::collections::{
    entries_map, keys_sorted, lemma_entries_map_at, lemma_entries_map_dom, EventIdSet, MapKey, OrdMap,
};
use crate::stateres::event::{ids_view, Event, EventId};
use crate::stateres::state_map::EventStore;

verus! {

/// The values of a sequence of event-id sets.
pub open spec fn sets_view(forks: Seq<EventIdSet>) -> Seq<Set<Seq<char>>> {
    forks.map_values(|f: EventIdSet| f@)
}

/// Whether some fork holds `x`.
pub open spec fn in_some_fork(forks: Seq<Set<Seq<char>>>, x: Seq<char>) -> bool {
    exists|i: int| 0 <= i < forks.len() && #[trigger] forks[i].contains(x)
}

/// Whether every fork holds `x`.
pub open spec fn in_every_fork(forks: Seq<Set<Seq<char>>>, x: Seq<char>) -> bool {
    forall|i: int| 0 <= i < forks.len() ==> #[trigger] forks[i].contains(x)
}

/// The union of the forks minus their intersection.
pub open spec fn auth_difference_spec(forks: Seq<Set<Seq<char>>>) -> Set<Seq<char>> {
    Set::new(|x: Seq<char>| in_some_fork(forks, x) && !in_every_fork(forks, x))
}

/// Whether every fork holds `id`.
fn held_by_every_fork(forks: &[EventIdSet], id: &str) -> (r: bool)
    ensures
        r == in_every_fork(sets_view(forks@), id@),
{
    let ghost fv = sets_view(forks@);
    let mut i: usize = 0;
    while i < forks.len()
        invariant
            fv == sets_view(forks@),
            i <= forks@.len(),
            forall|a: int| 0 <= a < i ==> #[trigger] fv[a].contains(id@),
        decreases forks@.len() - i,
    {
        if !forks[i].contains(id) {
            proof {
                assert(!fv[i as int].contains(id@));
            }
            return false;
        }
        i = i + 1;
    }
    true
}

/// The auth difference of a set of state forks: every event id that appears
/// in at least one fork's auth chain but not in all of them.
pub fn auth_difference(forks: &[EventIdSet]) -> (r: EventIdSet)
    ensures
        r@ == auth_difference_spec(sets_view(forks@)),
{
    let ghost fv = sets_view(forks@);
    let mut out = EventIdSet::new();
    let mut i: usize = 0;
    while i < forks.len()
        invariant
            fv == sets_view(forks@),
            i <= forks@.len(),
            forall|x: Seq<char>| #[trigger] out@.contains(x) <==>
                ((exists|a: int| 0 <= a < i && #[trigger] fv[a].contains(x)) && !in_every_fork(fv, x)),
        decreases forks@.len() - i,
    {
        let ids = forks[i].to_vec();
        let mut t: usize = 0;
        while t < ids.len()
            invariant
                fv == sets_view(forks@),
                i < forks@.len(),
                t <= ids@.len(),
                forall|u: int| 0 <= u < ids@.len() ==> fv[i as int].contains(#[trigger] ids@[u]@),
                forall|x: Seq<char>| #[trigger] fv[i as int].contains(x) ==> exists|u: int| 0 <= u < ids@.len() && #[trigger] ids@[u]@ == x,
                forall|x: Seq<char>| #[trigger] out@.contains(x) <==>
                    (((exists|a: int| 0 <= a < i && #[trigger] fv[a].contains(x)) || (exists|u: int| 0 <= u < t && #[trigger] ids@[u]@ == x))
                        && !in_every_fork(fv, x)),
            decreases ids@.len() - t,
        {
            let everywhere = held_by_every_fork(forks, ids[t].as_str());
            let ghost o0 = out@;
            if !everywhere {
                out.insert(ids[t].clone());
            }
            proof {
                assert forall|x: Seq<char>| #[trigger] out@.contains(x) <==>
                    (((exists|a: int| 0 <= a < i && #[trigger] fv[a].contains(x)) || (exists|u: int| 0 <= u < t + 1 && #[trigger] ids@[u]@ == x))
                        && !in_every_fork(fv, x)) by {
                    if x == ids@[t as int]@ {
                        assert(exists|u: int| 0 <= u < t + 1 && #[trigger] ids@[u]@ == x);
                    } else {
                        assert(out@.contains(x) == o0.contains(x));
                        if exists|u: int| 0 <= u < t + 1 && #[trigger] ids@[u]@ == x {
                            let u = choose|u: int| 0 <= u < t + 1 && #[trigger] ids@[u]@ == x;
                            assert(u < t);
                        }
                    }
                }
            }
            t = t + 1;
        }
        proof {
            assert forall|x: Seq<char>| #[trigger] out@.contains(x) <==>
                ((exists|a: int| 0 <= a < i + 1 && #[trigger] fv[a].contains(x)) && !in_every_fork(fv, x)) by {
                if exists|a: int| 0 <= a < i + 1 && #[trigger] fv[a].contains(x) {
                    let a = choose|a: int| 0 <= a < i + 1 && #[trigger] fv[a].contains(x);
                    if a == i {
                        let u = choose|u: int| 0 <= u < ids@.len() && #[trigger] ids@[u]@ == x;
                    }
                }
                if exists|u: int| 0 <= u < ids@.len() && #[trigger] ids@[u]@ == x {
                    let u = choose|u: int| 0 <= u < ids@.len() && #[trigger] ids@[u]@ == x;
                    assert(fv[i as int].contains(x));
                }
            }
        }
        i = i + 1;
    }
    proof {
        assert(out@ =~= auth_difference_spec(fv));
    }
    out
}

/// The events to order, by identifier: the event of each identifier the
/// store has, keyed by the event's own identifier (a later entry for the same
/// identifier replaces an earlier one).
pub open spec fn power_graph(ids: Seq<Seq<char>>, store: StoreView) -> Map<Seq<char>, Event>
    decreases ids.len(),
{
    if ids.len() == 0 {
        Map::empty()
    } else {
        let g = power_graph(ids.drop_last(), store);
        let id = ids.last();
        if store.contains_key(id) {
            g.insert(store[id].event_id@, store[id])
        } else {
            g
        }
    }
}

/// Whether every auth event of `n` that is itself being ordered is already
/// in `done`.
pub open spec fn deps_emitted(g: Map<Seq<char>, Event>, done: Seq<Seq<char>>, n: Seq<char>) -> bool {
    forall|j: int| 0 <= j < g[n].auth_ids().len() && g.contains_key(#[trigger] g[n].auth_ids()[j])
        ==> done.contains(g[n].auth_ids()[j])
}

/// Whether `n` may come next after `done`: it is being ordered, not yet
/// emitted, and its in-set auth events are all emitted.
pub open spec fn is_ready(g: Map<Seq<char>, Event>, done: Seq<Seq<char>>, n: Seq<char>) -> bool {
    g.contains_key(n) && !done.contains(n) && deps_emitted(g, done, n)
}

/// Whether `a` goes ahead of `b`: a higher sender power level, then an
/// earlier `origin_server_ts`, then a smaller identifier.
pub open spec fn sorts_first(a: Event, b: Event) -> bool {
    ||| a.power_level > b.power_level
    ||| a.power_level == b.power_level && a.origin_server_ts < b.origin_server_ts
    ||| a.power_level == b.power_level && a.origin_server_ts == b.origin_server_ts && str_lt(a.event_id@, b.event_id@)
}

/// Whether `n` is the ready event that goes ahead of every other ready one.
pub open spec fn is_next(g: Map<Seq<char>, Event>, done: Seq<Seq<char>>, n: Seq<char>) -> bool {
    &&& is_ready(g, done, n)
    &&& forall|m: Seq<char>| #[trigger] is_ready(g, done, m) && m != n ==> sorts_first(g[n], g[m])
}

/// The rest of the reverse topological power order after `done`: repeatedly
/// the ready event that goes first, until none is ready.
pub open spec fn power_order_from(g: Map<Seq<char>, Event>, done: Seq<Seq<char>>) -> Seq<Seq<char>>
    decreases g.dom().len() - done.len(),
{
    if done.len() < g.dom().len() && exists|n: Seq<char>| is_next(g, done, n) {
        let n = choose|n: Seq<char>| is_next(g, done, n);
        seq![n] + power_order_from(g, done.push(n))
    } else {
        Seq::empty()
    }
}

/// The reverse topological power order of the events named by `ids`.
pub open spec fn power_order(ids: Seq<Seq<char>>, store: StoreView) -> Seq<Seq<char>> {
    power_order_from(power_graph(ids, store), Seq::empty())
}

/// `sorts_first` is a strict total order on events with distinct
/// identifiers.
pub proof fn lemma_sorts_first_order(a: Event, b: Event, c: Event)
    ensures
        !sorts_first(a, a),
        sorts_first(a, b) ==> !sorts_first(b, a),
        sorts_first(a, b) && sorts_first(b, c) ==> sorts_first(a, c),
        a.event_id@ != b.event_id@ ==> sorts_first(a, b) || sorts_first(b, a),
{
    lemma_str_lt_order(a.event_id@, b.event_id@, c.event_id@);
    lemma_str_lt_order(b.event_id@, a.event_id@, c.event_id@);
}

/// Whether `a` goes ahead of `b` in the reverse topological power order.
fn goes_first(a: &Event, b: &Event) -> (r: bool)
    ensures
        r == sorts_first(*a, *b),
{
    if a.power_level != b.power_level {
        a.power_level > b.power_level
    } else if a.origin_server_ts != b.origin_server_ts {
        a.origin_server_ts < b.origin_server_ts
    } else {
        compare_str(a.event_id.as_str(), b.event_id.as_str()) < 0
    }
}

/// Whether every identifier of `auth` that `index` holds is in `done`.
fn deps_done(auth: &[EventId], index: &OrdMap<String, usize>, done: &EventIdSet) -> (r: bool)
    ensures
        r == (forall|j: int| 0 <= j < auth@.len() && index@.contains_key(#[trigger] auth@[j]@) ==> done@.contains(auth@[j]@)),
{
    let mut j: usize = 0;
    while j < auth.len()
        invariant
            j <= auth@.len(),
            forall|a: int| 0 <= a < j && index@.contains_key(#[trigger] auth@[a]@) ==> done@.contains(auth@[a]@),
        decreases auth@.len() - j,
    {
        if index.contains_key(&auth[j]) && !done.contains(auth[j].as_str()) {
            return false;
        }
        j = j + 1;
    }
    true
}

/// Order the events named by `ids` into reverse topological power order:
/// each event appears after the auth events that are also in the set, and
/// among events whose in-set auth dependencies are already satisfied, the
/// one with the highest sender power level (ties: earliest
/// `origin_server_ts`, then smallest id) is emitted first.
///
/// Ids absent from `store`, and auth events outside the set, are ignored —
/// the order is over the present subset only. Events on an auth cycle are
/// never ready, and are left out.
pub fn reverse_topological_power_sort(ids: &[EventId], store: &EventStore) -> (r: Vec<EventId>)
    ensures
        ids_view(r@) == power_order(ids_view(ids@), store@),
{
    let ghost idv = ids_view(ids@);
    let ghost g = power_graph(idv, store@);

    // The events being ordered, by identifier: the position in `ids` of the
    // entry whose event is used.
    let mut index: OrdMap<String, usize> = OrdMap::new();
    let mut i: usize = 0;
    while i < ids.len()
        invariant
            idv == ids_view(ids@),
            i <= ids@.len(),
            forall|n: Seq<char>| #[trigger] index@.contains_key(n) <==> power_graph(idv.take(i as int), store@).contains_key(n),
            forall|n: Seq<char>| #[trigger] index@.contains_key(n) ==> index@[n] < ids@.len()
                && store@.contains_key(idv[index@[n] as int])
                && store@[idv[index@[n] as int]] == power_graph(idv.take(i as int), store@)[n]
                && store@[idv[index@[n] as int]].event_id@ == n,
        decreases ids@.len() - i,
    {
        proof {
            assert(idv.take(i + 1).drop_last() =~= idv.take(i as int));
            assert(idv.take(i + 1).last() == idv[i as int]);
        }
        match store.get(&ids[i]) {
            Some(e) => {
                index.insert(e.event_id.clone(), i);
            },
            None => {},
        }
        i = i + 1;
    }
    proof {
        assert(idv.take(ids@.len() as int) =~= idv);
    }

    let nodes = index.entries();
    proof {
        index.lemma_view();
        lemma_entries_map_dom(nodes@);
        assert(index@.dom() =~= g.dom());
    }
    let mut events: Vec<&Event> = Vec::new();
    let mut p: usize = 0;
    while p < nodes.len()
        invariant
            nodes@ == index.entry_seq(),
            keys_sorted(nodes@),
            index@ == entries_map(nodes@),
            idv == ids_view(ids@),
            g == power_graph(idv, store@),
            forall|n: Seq<char>| #[trigger] index@.contains_key(n) <==> g.contains_key(n),
            forall|n: Seq<char>| #[trigger] index@.contains_key(n) ==> index@[n] < ids@.len()
                && store@.contains_key(idv[index@[n] as int])
                && store@[idv[index@[n] as int]] == g[n]
                && g[n].event_id@ == n,
            p <= nodes@.len(),
            events@.len() == p,
            forall|q: int| 0 <= q < p ==> *(#[trigger] events@[q]) == g[nodes@[q].0@],
        decreases nodes@.len() - p,
    {
        proof {
            lemma_entries_map_at(nodes@, p as int);
        }
        let at = nodes[p].1;
        match store.get(&ids[at]) {
            Some(e) => {
                events.push(e);
            },
            None => {
                proof {
                    assert(false);
                }
            },
        }
        p = p + 1;
    }

    let mut out: Vec<EventId> = Vec::new();
    let mut done = EventIdSet::new();
    let mut stuck = false;
    proof {
        assert(ids_view(out@) =~= Seq::<Seq<char>>::empty());
        assert(power_order(idv, store@) == ids_view(out@) + power_order_from(g, ids_view(out@)));
    }
    while !stuck && out.len() < nodes.len()
        invariant
            nodes@ == index.entry_seq(),
            keys_sorted(nodes@),
            index@ == entries_map(nodes@),
            g.dom().len() == nodes@.len(),
            idv == ids_view(ids@),
            g == power_graph(idv, store@),
            forall|n: Seq<char>| #[trigger] index@.contains_key(n) <==> g.contains_key(n),
            forall|n: Seq<char>| #[trigger] index@.contains_key(n) ==> g[n].event_id@ == n,
            events@.len() == nodes@.len(),
            forall|q: int| 0 <= q < nodes@.len() ==> *(#[trigger] events@[q]) == g[nodes@[q].0@],
            out@.len() <= nodes@.len(),
            done@ == ids_view(out@).to_set(),
            power_order(idv, store@) == ids_view(out@) + power_order_from(g, ids_view(out@)),
            stuck ==> power_order_from(g, ids_view(out@)) == Seq::<Seq<char>>::empty(),
        decreases nodes@.len() - out@.len() + (if stuck { 0int } else { 1int }),
    {
        let ghost dv = ids_view(out@);
        let mut best: Option<usize> = None;
        let mut q: usize = 0;
        while q < nodes.len()
            invariant
                nodes@ == index.entry_seq(),
                keys_sorted(nodes@),
                index@ == entries_map(nodes@),
                forall|n: Seq<char>| #[trigger] index@.contains_key(n) <==> g.contains_key(n),
                forall|n: Seq<char>| #[trigger] index@.contains_key(n) ==> g[n].event_id@ == n,
                events@.len() == nodes@.len(),
                forall|x: int| 0 <= x < nodes@.len() ==> *(#[trigger] events@[x]) == g[nodes@[x].0@],
                done@ == dv.to_set(),
                q <= nodes@.len(),
                match best {
                    Some(b) => b < q && is_ready(g, dv, nodes@[b as int].0@)
                        && forall|x: int| 0 <= x < q && x != b && is_ready(g, dv, #[trigger] nodes@[x].0@)
                            ==> sorts_first(g[nodes@[b as int].0@], g[nodes@[x].0@]),
                    None => forall|x: int| 0 <= x < q ==> !is_ready(g, dv, #[trigger] nodes@[x].0@),
                },
            decreases nodes@.len() - q,
        {
            proof {
                lemma_entries_map_at(nodes@, q as int);
            }
            let id = &nodes[q].0;
            let ev = events[q];
            let ready = !done.contains(id.as_str()) && deps_done(ev.auth_event_ids(), &index, &done);
            proof {
                let n = nodes@[q as int].0@;
                assert(g.contains_key(n));
                assert(dv.to_set().contains(n) == dv.contains(n));
                assert(ready == is_ready(g, dv, n)) by {
                    if deps_emitted(g, dv, n) {
                        assert forall|j: int| 0 <= j < ev.auth_event_ids@.len() && index@.contains_key(#[trigger] ev.auth_event_ids@[j]@) implies done@.contains(ev.auth_event_ids@[j]@) by {
                            assert(g[n].auth_ids()[j] == ev.auth_event_ids@[j]@);
                        }
                    }
                    if !done@.contains(n) && (forall|j: int| 0 <= j < ev.auth_event_ids@.len() && index@.contains_key(#[trigger] ev.auth_event_ids@[j]@) ==> done@.contains(ev.auth_event_ids@[j]@)) {
                        assert forall|j: int| 0 <= j < g[n].auth_ids().len() && g.contains_key(#[trigger] g[n].auth_ids()[j]) implies dv.contains(g[n].auth_ids()[j]) by {
                            assert(g[n].auth_ids()[j] == ev.auth_event_ids@[j]@);
                        }
                    }
                }
            }
            if ready {
                match best {
                    Some(b) => {
                        let ahead = goes_first(ev, events[b]);
                        proof {
                            lemma_entries_map_at(nodes@, b as int);
                            let nb = nodes@[b as int].0@;
                            let nq = nodes@[q as int].0@;
                            assert(*ev == g[nq]);
                            assert(*events@[b as int] == g[nb]);
                            assert(g[nb].event_id@ == nb);
                            assert(g[nq].event_id@ == nq);
                            assert(String::key_lt(nodes@[b as int].0.key_view(), nodes@[q as int].0.key_view()));
                            lemma_str_lt_order(nb, nq, nq);
                            lemma_sorts_first_order(g[nq], g[nb], g[nb]);
                            if ahead {
                                assert forall|x: int| 0 <= x < q + 1 && x != q && is_ready(g, dv, #[trigger] nodes@[x].0@)
                                    implies sorts_first(g[nq], g[nodes@[x].0@]) by {
                                    if x != b {
                                        lemma_sorts_first_order(g[nq], g[nb], g[nodes@[x].0@]);
                                    }
                                }
                            }
                        }
                        if ahead {
                            best = Some(q);
                        }
                    },
                    None => {
                        best = Some(q);
                    },
                }
            }
            q = q + 1;
        }
        match best {
            Some(b) => {
                let ghost n = nodes@[b as int].0@;
                proof {
                    assert forall|m: Seq<char>| #[trigger] is_ready(g, dv, m) && m != n implies sorts_first(g[n], g[m]) by {
                        assert(index@.contains_key(m));
                        let x = crate::stateres::collections::key_index(nodes@, m);
                        assert(nodes@[x].0@ == m);
                    }
                    assert(is_next(g, dv, n));
                    let c = choose|c: Seq<char>| is_next(g, dv, c);
                    if c != n {
                        lemma_sorts_first_order(g[n], g[c], g[c]);
                    }
                    assert(power_order_from(g, dv) == seq![n] + power_order_from(g, dv.push(n)));
                }
                let id = nodes[b].0.clone();
                done.insert(id.clone());
                out.push(id);
                proof {
                    assert(ids_view(out@) =~= dv.push(n));
                    let pushed = dv.push(n);
                    assert forall|x: Seq<char>| pushed.to_set().contains(x) <==> dv.to_set().insert(n).contains(x) by {
                        assert(pushed[dv.len() as int] == n);
                        if pushed.contains(x) {
                            let k = choose|k: int| 0 <= k < pushed.len() && pushed[k] == x;
                            if k < dv.len() {
                                assert(dv[k] == x);
                            }
                        }
                        if dv.contains(x) {
                            let k = choose|k: int| 0 <= k < dv.len() && dv[k] == x;
                            assert(pushed[k] == x);
                        }
                    }
                    assert(ids_view(out@).to_set() =~= dv.to_set().insert(n));
                    assert(ids_view(out@) + power_order_from(g, ids_view(out@)) =~= dv + (seq![n] + power_order_from(g, dv.push(n))));
                }
            },
            None => {
                proof {
                    assert forall|m: Seq<char>| !is_next(g, dv, m) by {
                        if is_ready(g, dv, m) {
                            assert(index@.contains_key(m));
                            let x = crate::stateres::collections::key_index(nodes@, m);
                            assert(nodes@[x].0@ == m);
                        }
                    }
                }
                stuck = true;
            },
        }
    }
    proof {
        assert(power_order_from(g, ids_view(out@)) == Seq::<Seq<char>>::empty());
        assert(ids_view(out@) + Seq::<Seq<char>>::empty() =~= ids_view(out@));
    }
    out
}

} // verus!
