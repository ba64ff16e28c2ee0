//! Properties of state resolution that span several of its functions.

use vstd::prelude::*;

use crate::stateres::auth::{
    auth_fold, auth_step, is_level_change, levels_in, member_type, membership_in, membership_transition,
    power_level_authorizes, power_levels_type, user_level, entry_change, users_of, users_default_of,
    mutation_authorizes, AuthRules, StoreView, create_type, invite_of, join_rule_in, kick_of, ban_of,
    MembershipRules,
};
use crate::stateres::cache::{cache_valid, cached, holds_key, insert_spec, slot_index, CacheKeyView, CacheSlots};
use crate::stateres::event::Event;
use crate::stateres::resolve::{resolution, resolve_outcome};
use crate::stateres::mainline::{chain_ends, depth_stop, is_first_stop, mainline_depth, on_mainline, walk};
use crate::stateres::order::{
    auth_difference_spec, in_every_fork, in_some_fork, is_next, is_ready, lemma_sorts_first_order, power_graph,
    power_order, power_order_from, sorts_first,
};
use crate::stateres::power::PowerLevels;
use crate::stateres::state_map::{
    conflicted_of, in_some, slot_ids, unconflicted_of, SlotView, StateView,
};

verus! {

/// When every fork agrees, the auth difference is empty; so it is when there
/// are no forks at all.
pub proof fn lemma_agreeing_chains_have_no_difference(forks: Seq<Set<Seq<char>>>)
    requires
        forall|i: int, j: int| 0 <= i < forks.len() && 0 <= j < forks.len() ==> #[trigger] forks[i] == #[trigger] forks[j],
    ensures
        auth_difference_spec(forks) == Set::<Seq<char>>::empty(),
{
    assert forall|x: Seq<char>| !auth_difference_spec(forks).contains(x) by {
        if in_some_fork(forks, x) {
            let i = choose|i: int| 0 <= i < forks.len() && #[trigger] forks[i].contains(x);
            assert forall|j: int| 0 <= j < forks.len() implies #[trigger] forks[j].contains(x) by {
                assert(forks[i] == forks[j]);
            }
        }
    }
    assert(auth_difference_spec(forks) =~= Set::<Seq<char>>::empty());
}

/// When every fork is the same state, that state is unconflicted and
/// nothing is conflicted.
pub proof fn lemma_identical_forks_are_unconflicted(states: Seq<StateView>)
    requires
        states.len() > 0,
        forall|i: int| 0 <= i < states.len() ==> #[trigger] states[i] == states[0],
    ensures
        unconflicted_of(states) == states[0],
        conflicted_of(states) == Map::<SlotView, Set<Seq<char>>>::empty(),
{
    let s = states[0];
    assert forall|k: SlotView| in_some(states, k) <==> #[trigger] s.contains_key(k) by {
        if in_some(states, k) {
            let i = choose|i: int| 0 <= i < states.len() && #[trigger] states[i].contains_key(k);
            assert(states[i] == s);
        }
        if s.contains_key(k) {
            assert(states[0].contains_key(k));
        }
    }
    assert forall|k: SlotView| #[trigger] s.contains_key(k) implies slot_ids(states, k) == Set::<Seq<char>>::empty().insert(s[k]) by {
        assert forall|id: Seq<char>| slot_ids(states, k).contains(id) <==> id == s[k] by {
            if slot_ids(states, k).contains(id) {
                let i = choose|i: int| 0 <= i < states.len() && #[trigger] states[i].contains_key(k) && states[i][k] == id;
                assert(states[i] == s);
            }
            if id == s[k] {
                assert(states[0].contains_key(k) && states[0][k] == id);
            }
        }
        assert(slot_ids(states, k) =~= Set::<Seq<char>>::empty().insert(s[k]));
    }
    assert forall|k: SlotView| #[trigger] unconflicted_of(states).contains_key(k) <==> s.contains_key(k) by {
        if s.contains_key(k) {
            assert(Set::<Seq<char>>::empty().insert(s[k]).len() == 1);
        }
    }
    assert forall|k: SlotView| #[trigger] unconflicted_of(states).contains_key(k) implies unconflicted_of(states)[k] == s[k] by {
        let one = Set::<Seq<char>>::empty().insert(s[k]);
        assert(one.contains(one.choose()));
    }
    assert(unconflicted_of(states) =~= s);
    assert forall|k: SlotView| !#[trigger] conflicted_of(states).contains_key(k) by {
        if in_some(states, k) {
            assert(s.contains_key(k));
            assert(Set::<Seq<char>>::empty().insert(s[k]).len() == 1);
        }
    }
    assert(conflicted_of(states) =~= Map::<SlotView, Set<Seq<char>>>::empty());
}

/// After memoising a resolution under a key, a lookup of that key gives it
/// back, and the cache stays valid (no key twice, within capacity) — unless
/// the capacity is zero, which disables caching.
pub proof fn lemma_cache_get_after_insert(s: CacheSlots, capacity: nat, k: CacheKeyView, v: StateView)
    requires
        cache_valid(s, capacity),
    ensures
        cache_valid(insert_spec(s, capacity, k, v), capacity),
        capacity > 0 ==> cached(insert_spec(s, capacity, k, v), k) == Some(v),
        capacity == 0 ==> insert_spec(s, capacity, k, v) == s,
{
    let t = insert_spec(s, capacity, k, v);
    if capacity > 0 {
        if holds_key(s, k) {
            let c = slot_index(s, k);
            assert(t[c] == (k, v));
            assert forall|i: int, j: int| 0 <= i < j < t.len() implies (#[trigger] t[i]).0 != (#[trigger] t[j]).0 by {
                assert(s[i].0 != s[j].0);
                if i != c && j != c {
                    assert(t[i] == s[i] && t[j] == s[j]);
                } else if i == c {
                    assert(t[j] == s[j]);
                } else {
                    assert(t[i] == s[i]);
                }
            }
            assert(holds_key(t, k));
            let d = slot_index(t, k);
            if d != c {
                if d < c {
                    assert(t[d].0 != t[c].0);
                } else {
                    assert(t[c].0 != t[d].0);
                }
            }
        } else {
            let pushed = s.push((k, v));
            assert forall|i: int, j: int| 0 <= i < j < pushed.len() implies (#[trigger] pushed[i]).0 != (#[trigger] pushed[j]).0 by {
                if j == s.len() {
                    assert(s[i].0 != k);
                } else {
                    assert(s[i].0 != s[j].0);
                }
            }
            assert forall|i: int, j: int| 0 <= i < j < t.len() implies (#[trigger] t[i]).0 != (#[trigger] t[j]).0 by {
                if t.len() < pushed.len() {
                    assert(t[i] == pushed[i + 1] && t[j] == pushed[j + 1]);
                } else {
                    assert(t[i] == pushed[i] && t[j] == pushed[j]);
                }
            }
            let last = t.len() - 1;
            assert(t[last] == (k, v));
            assert(holds_key(t, k));
            let d = slot_index(t, k);
            if d != last {
                assert(t[d].0 != t[last].0);
            }
        }
    }
}

/// Re-inserting a key already cached keeps the number of entries and
/// refreshes the value; inserting a new key into a full cache evicts exactly
/// the oldest entry.
pub proof fn lemma_cache_insert_shape(s: CacheSlots, capacity: nat, k: CacheKeyView, v: StateView)
    requires
        cache_valid(s, capacity),
        capacity > 0,
    ensures
        holds_key(s, k) ==> insert_spec(s, capacity, k, v).len() == s.len(),
        !holds_key(s, k) && s.len() == capacity ==> insert_spec(s, capacity, k, v) == s.drop_first().push((k, v)),
        !holds_key(s, k) && s.len() < capacity ==> insert_spec(s, capacity, k, v) == s.push((k, v)),
{
    if !holds_key(s, k) && s.len() == capacity {
        assert(s.push((k, v)).drop_first() =~= s.drop_first().push((k, v)));
    }
}

/// Every identifier in the reverse topological power order after `done` is
/// an event being ordered, not in `done`, comes once, and comes after each
/// of its auth events that are being ordered (or those are in `done`).
pub proof fn lemma_power_order_from_topological(g: Map<Seq<char>, Event>, done: Seq<Seq<char>>)
    ensures
        ({
            let o = power_order_from(g, done);
            &&& forall|i: int| 0 <= i < o.len() ==> g.contains_key(#[trigger] o[i]) && !done.contains(o[i])
            &&& forall|i: int, j: int| 0 <= i < j < o.len() ==> #[trigger] o[i] != #[trigger] o[j]
            &&& forall|i: int, j: int| 0 <= i < o.len() && 0 <= j < g[o[i]].auth_ids().len()
                && g.contains_key(#[trigger] g[o[i]].auth_ids()[j])
                ==> done.contains(g[o[i]].auth_ids()[j]) || exists|k: int| 0 <= k < i && #[trigger] o[k] == g[o[i]].auth_ids()[j]
        }),
    decreases g.dom().len() - done.len(),
{
    let o = power_order_from(g, done);
    if done.len() < g.dom().len() && exists|n: Seq<char>| is_next(g, done, n) {
        let n = choose|n: Seq<char>| is_next(g, done, n);
        let d2 = done.push(n);
        let rest = power_order_from(g, d2);
        lemma_power_order_from_topological(g, d2);
        assert(o == seq![n] + rest);
        assert(d2[done.len() as int] == n);
        assert forall|x: Seq<char>| done.contains(x) implies d2.contains(x) by {
            let p = choose|p: int| 0 <= p < done.len() && done[p] == x;
            assert(d2[p] == x);
        }
        assert forall|i: int| 0 <= i < o.len() implies g.contains_key(#[trigger] o[i]) && !done.contains(o[i]) by {
            if i > 0 {
                assert(o[i] == rest[i - 1]);
            }
        }
        assert forall|i: int, j: int| 0 <= i < j < o.len() implies #[trigger] o[i] != #[trigger] o[j] by {
            assert(o[j] == rest[j - 1]);
            if i > 0 {
                assert(o[i] == rest[i - 1]);
            } else {
                assert(!d2.contains(rest[j - 1]));
            }
        }
        assert forall|i: int, j: int| 0 <= i < o.len() && 0 <= j < g[o[i]].auth_ids().len()
            && g.contains_key(#[trigger] g[o[i]].auth_ids()[j])
            implies done.contains(g[o[i]].auth_ids()[j]) || exists|k: int| 0 <= k < i && #[trigger] o[k] == g[o[i]].auth_ids()[j] by {
            let d = g[o[i]].auth_ids()[j];
            if i == 0 {
                assert(is_ready(g, done, n));
            } else {
                assert(o[i] == rest[i - 1]);
                if d2.contains(d) && !done.contains(d) {
                    let p = choose|p: int| 0 <= p < d2.len() && d2[p] == d;
                    assert(p == done.len());
                    assert(o[0] == d);
                } else if !d2.contains(d) {
                    let k = choose|k: int| 0 <= k < i - 1 && #[trigger] rest[k] == d;
                    assert(o[k + 1] == d);
                }
            }
        }
    } else {
        assert(o == Seq::<Seq<char>>::empty());
    }
}

/// The reverse topological power order holds each event being ordered at
/// most once, and each comes after every auth event of it that is also
/// being ordered.
pub proof fn lemma_power_order_topological(ids: Seq<Seq<char>>, store: StoreView)
    ensures
        ({
            let g = power_graph(ids, store);
            let o = power_order(ids, store);
            &&& forall|i: int| 0 <= i < o.len() ==> g.contains_key(#[trigger] o[i])
            &&& forall|i: int, j: int| 0 <= i < j < o.len() ==> #[trigger] o[i] != #[trigger] o[j]
            &&& forall|i: int, j: int| 0 <= i < o.len() && 0 <= j < g[o[i]].auth_ids().len()
                && g.contains_key(#[trigger] g[o[i]].auth_ids()[j])
                ==> exists|k: int| 0 <= k < i && #[trigger] o[k] == g[o[i]].auth_ids()[j]
        }),
{
    let g = power_graph(ids, store);
    lemma_power_order_from_topological(g, Seq::empty());
}

/// The authorisation walk keeps every slot of the base state, and each slot
/// ends up holding either its base event or one of the walked events.
pub proof fn lemma_auth_fold_values<R: AuthRules>(rules: &R, ids: Seq<Seq<char>>, base: StateView, store: StoreView, k: SlotView)
    ensures
        base.contains_key(k) ==> auth_fold(rules, ids, base, store).contains_key(k),
        auth_fold(rules, ids, base, store).contains_key(k) ==> (base.contains_key(k) && auth_fold(rules, ids, base, store)[k] == base[k])
            || ids.contains(auth_fold(rules, ids, base, store)[k]),
    decreases ids.len(),
{
    if ids.len() > 0 {
        let prev = ids.drop_last();
        lemma_auth_fold_values(rules, prev, base, store, k);
        let f = auth_fold(rules, prev, base, store);
        let r = auth_fold(rules, ids, base, store);
        assert(r == auth_step(rules, f, ids.last(), store));
        if r.contains_key(k) && f.contains_key(k) && r[k] == f[k] && prev.contains(f[k]) {
            let p = choose|p: int| 0 <= p < prev.len() && prev[p] == f[k];
            assert(ids[p] == f[k]);
        }
        if r.contains_key(k) && r[k] != f[k] || !f.contains_key(k) && r.contains_key(k) {
            assert(ids[ids.len() - 1] == r[k]);
        }
    }
}

/// Without a power-levels event in the state (room bootstrap), the all-zero
/// default applies, which authorises every sender.
pub proof fn lemma_power_levels_bootstrap(e: Event, state: StateView, store: StoreView)
    requires
        levels_in(state, store) == None::<PowerLevels>,
    ensures
        power_level_authorizes(e, state, store),
{
}

/// A power-levels change to a user's level is refused when the old or the
/// new level is beyond the sender's own: privilege escalation is blocked.
pub proof fn lemma_no_escalation(e: Event, state: StateView, store: StoreView, new: PowerLevels, user: Seq<char>)
    requires
        e.event_type@ == power_levels_type(),
        e.power_levels == Some(new),
        new.level_of(user) != user_level(levels_in(state, store), user),
        new.level_of(user) > user_level(levels_in(state, store), e.sender@)
            || user_level(levels_in(state, store), user) > user_level(levels_in(state, store), e.sender@),
    ensures
        !mutation_authorizes(e, state, store),
{
    let old = levels_in(state, store);
    let o = user_level(old, user);
    let n = new.level_of(user);
    if users_of(old).contains_key(user) || users_of(Some(new)).contains_key(user) {
        assert(entry_change(users_of(old), users_default_of(old), users_of(Some(new)), users_default_of(Some(new)), user, (o, n)));
        assert(is_level_change(old, Some(new), (o, n)));
    } else {
        assert(n == new.users_default);
        assert(o == users_default_of(old));
        assert(is_level_change(old, Some(new), (o, n)));
    }
}

/// A banned user cannot join.
pub proof fn lemma_banned_cannot_join(e: Event, state: StateView, store: StoreView)
    requires
        membership_in(state, store, e.state_key@) == "ban"@,
    ensures
        !membership_transition(e, "join"@, state, store),
{
}

/// A ban needs a sender level strictly above the target's.
pub proof fn lemma_ban_needs_higher_level(e: Event, state: StateView, store: StoreView)
    requires
        membership_transition(e, "ban"@, state, store),
    ensures
        user_level(levels_in(state, store), e.sender@) > user_level(levels_in(state, store), e.state_key@),
{
    reveal_strlit("ban");
    reveal_strlit("join");
    reveal_strlit("invite");
    reveal_strlit("leave");
    assert("ban"@.len() == 3);
    assert("join"@.len() == 4);
    assert("invite"@.len() == 6);
    assert("leave"@.len() == 5);
    assert("ban"@ != "join"@);
    assert("ban"@ != "invite"@);
    assert("ban"@ != "leave"@);
}

/// Each event of the reverse topological power order after `done` is, when
/// it comes, the ready event that goes ahead of every other ready one.
pub proof fn lemma_power_order_from_best_first(g: Map<Seq<char>, Event>, done: Seq<Seq<char>>)
    ensures
        forall|i: int| 0 <= i < power_order_from(g, done).len()
            ==> is_next(g, done + power_order_from(g, done).take(i), #[trigger] power_order_from(g, done)[i]),
    decreases g.dom().len() - done.len(),
{
    let o = power_order_from(g, done);
    if done.len() < g.dom().len() && exists|n: Seq<char>| is_next(g, done, n) {
        let n = choose|n: Seq<char>| is_next(g, done, n);
        let d2 = done.push(n);
        let rest = power_order_from(g, d2);
        lemma_power_order_from_best_first(g, d2);
        assert(o == seq![n] + rest);
        assert forall|i: int| 0 <= i < o.len() implies is_next(g, done + o.take(i), #[trigger] o[i]) by {
            if i == 0 {
                assert(done + o.take(0) =~= done);
            } else {
                assert(done + o.take(i) =~= d2 + rest.take(i - 1));
                assert(o[i] == rest[i - 1]);
            }
        }
    }
}

/// The reverse topological power order is best-first: each event in it is,
/// given the events before it, the ready event (all its auth events that are
/// being ordered already emitted) that goes ahead of every other ready one —
/// the highest sender power level, then the earliest `origin_server_ts`,
/// then the smallest identifier.
pub proof fn lemma_power_order_best_first(ids: Seq<Seq<char>>, store: StoreView)
    ensures
        forall|i: int| 0 <= i < power_order(ids, store).len()
            ==> is_next(power_graph(ids, store), power_order(ids, store).take(i), #[trigger] power_order(ids, store)[i]),
{
    let g = power_graph(ids, store);
    let o = power_order(ids, store);
    lemma_power_order_from_best_first(g, Seq::empty());
    assert forall|i: int| 0 <= i < o.len() implies is_next(g, o.take(i), #[trigger] o[i]) by {
        assert(Seq::<Seq<char>>::empty() + o.take(i) =~= o.take(i));
    }
}

/// With no power-levels event to anchor the mainline, nothing is on it.
proof fn lemma_empty_mainline(store: StoreView, j: nat)
    ensures
        walk(store, None, j) == None::<Seq<char>>,
    decreases j,
{
    if j > 0 {
        lemma_empty_mainline(store, (j - 1) as nat);
    }
}

/// A walk that stops somewhere stops first somewhere.
proof fn lemma_first_stop_exists(store: StoreView, start: Option<Seq<char>>, id: Seq<char>, k: nat)
    requires
        depth_stop(store, start, id, k),
    ensures
        exists|m: nat| is_first_stop(store, start, id, m),
    decreases k,
{
    if exists|i: nat| i < k && #[trigger] depth_stop(store, start, id, i) {
        let i = choose|i: nat| i < k && #[trigger] depth_stop(store, start, id, i);
        lemma_first_stop_exists(store, start, id, i);
    } else {
        assert(is_first_stop(store, start, id, k));
    }
}

/// Without a resolved power-levels event there is no mainline, and every
/// event whose chain of power-levels auth events ends has mainline depth
/// zero, so the mainline ordering falls back to `origin_server_ts`, then
/// identifier.
pub proof fn lemma_no_power_levels_depth_zero(store: StoreView, id: Seq<char>)
    requires
        chain_ends(store, Some(id)),
    ensures
        mainline_depth(store, None, id) == 0,
{
    let k0 = choose|k: nat| #[trigger] walk(store, Some(id), k) == None::<Seq<char>>;
    assert(depth_stop(store, None, id, k0));
    lemma_first_stop_exists(store, None, id, k0);
    let k = choose|k: nat| is_first_stop(store, None, id, k);
    if walk(store, Some(id), k) is Some {
        let y = walk(store, Some(id), k)->0;
        assert(on_mainline(store, None, y));
        let j = choose|j: nat| #[trigger] walk(store, None, j) == Some(y);
        lemma_empty_mainline(store, j);
    }
}

/// The entries after memoising each `(key, resolution)` of `kvs` in turn.
pub open spec fn insert_all(s: CacheSlots, capacity: nat, kvs: Seq<(CacheKeyView, StateView)>) -> CacheSlots
    decreases kvs.len(),
{
    if kvs.len() == 0 {
        s
    } else {
        insert_spec(insert_all(s, capacity, kvs.drop_last()), capacity, kvs.last().0, kvs.last().1)
    }
}

/// The distinct keys among `kvs`.
pub open spec fn keys_in(kvs: Seq<(CacheKeyView, StateView)>) -> Set<CacheKeyView> {
    kvs.map_values(|e: (CacheKeyView, StateView)| e.0).to_set()
}

/// A cache holds a key exactly when the keys of its entries include it, and
/// a valid cache has as many entries as distinct keys.
proof fn lemma_slot_keys(s: CacheSlots, capacity: nat)
    requires
        cache_valid(s, capacity),
    ensures
        forall|k: CacheKeyView| #[trigger] holds_key(s, k) <==> keys_in(s).contains(k),
        keys_in(s).len() == s.len(),
{
    let ks = s.map_values(|e: (CacheKeyView, StateView)| e.0);
    assert forall|k: CacheKeyView| #[trigger] holds_key(s, k) <==> keys_in(s).contains(k) by {
        if holds_key(s, k) {
            let i = choose|i: int| 0 <= i < s.len() && (#[trigger] s[i]).0 == k;
            assert(ks[i] == k);
        }
        if keys_in(s).contains(k) {
            let i = choose|i: int| 0 <= i < ks.len() && ks[i] == k;
            assert(s[i].0 == k);
        }
    }
    assert(ks.no_duplicates()) by {
        assert forall|i: int, j: int| 0 <= i < ks.len() && 0 <= j < ks.len() && i != j implies ks[i] != ks[j] by {
            if i < j {
                assert(s[i].0 != s[j].0);
            } else {
                assert(s[j].0 != s[i].0);
            }
        }
    }
    ks.unique_seq_to_set();
}

/// The cache after memoising `kvs` from empty: valid, holding every key so
/// far while fewer keys than the capacity have come, and full once as many
/// have.
proof fn lemma_insert_all_shape(capacity: nat, kvs: Seq<(CacheKeyView, StateView)>)
    requires
        capacity > 0,
    ensures
        cache_valid(insert_all(Seq::empty(), capacity, kvs), capacity),
        keys_in(kvs).len() <= capacity ==> keys_in(insert_all(Seq::empty(), capacity, kvs)) == keys_in(kvs)
            && insert_all(Seq::empty(), capacity, kvs).len() == keys_in(kvs).len(),
        keys_in(kvs).len() >= capacity ==> insert_all(Seq::empty(), capacity, kvs).len() == capacity,
    decreases kvs.len(),
{
    let c = insert_all(Seq::empty(), capacity, kvs);
    if kvs.len() == 0 {
        assert(keys_in(kvs) =~= Set::<CacheKeyView>::empty());
        assert(keys_in(c) =~= Set::<CacheKeyView>::empty());
    } else {
        let prev = kvs.drop_last();
        let (k, v) = kvs.last();
        let cp = insert_all(Seq::empty(), capacity, prev);
        lemma_insert_all_shape(capacity, prev);
        lemma_cache_get_after_insert(cp, capacity, k, v);
        lemma_cache_insert_shape(cp, capacity, k, v);
        lemma_slot_keys(cp, capacity);
        lemma_slot_keys(c, capacity);
        assert(c == insert_spec(cp, capacity, k, v));
        let f = |e: (CacheKeyView, StateView)| e.0;
        assert(kvs.map_values(f) =~= prev.map_values(f).push(k));
        assert(keys_in(kvs) =~= keys_in(prev).insert(k)) by {
            broadcast use vstd::seq_lib::lemma_seq_contains_after_push;
        }
        let n = keys_in(prev).len();
        if holds_key(cp, k) {
            let i = slot_index(cp, k);
            assert(c == cp.update(i, (k, v)));
            assert(c.map_values(f) =~= cp.map_values(f));
            if keys_in(kvs).len() <= capacity {
                if !keys_in(prev).contains(k) {
                    assert(keys_in(kvs).len() == n + 1);
                    assert(n < capacity);
                }
                assert(keys_in(prev).contains(k));
                assert(keys_in(kvs) =~= keys_in(prev));
            }
            if keys_in(kvs).len() >= capacity && n < capacity {
                assert(keys_in(prev).contains(k));
                assert(keys_in(kvs) =~= keys_in(prev));
            }
        } else {
            if n < capacity {
                assert(!keys_in(prev).contains(k));
                assert(c == cp.push((k, v)));
                assert(c.map_values(f) =~= cp.map_values(f).push(k));
                assert(keys_in(c) =~= keys_in(cp).insert(k)) by {
                    broadcast use vstd::seq_lib::lemma_seq_contains_after_push;
                }
            } else {
                if keys_in(kvs).len() <= capacity {
                    assert(n == capacity);
                    assert(keys_in(prev).contains(k)) by {
                        if !keys_in(prev).contains(k) {
                            assert(keys_in(kvs).len() == n + 1);
                        }
                    }
                    assert(keys_in(cp).contains(k));
                }
            }
        }
    }
}

/// Memoising any sequence of resolutions into an empty cache of positive
/// capacity leaves as many entries as the smaller of the capacity and the
/// number of distinct keys memoised.
pub proof fn lemma_cache_len_after_inserts(capacity: nat, kvs: Seq<(CacheKeyView, StateView)>)
    requires
        capacity > 0,
    ensures
        insert_all(Seq::empty(), capacity, kvs).len() == if keys_in(kvs).len() < capacity {
            keys_in(kvs).len()
        } else {
            capacity
        },
{
    lemma_insert_all_shape(capacity, kvs);
}

/// Resolution keeps every unconflicted slot: what `resolve` returns, the
/// unconflicted state merged under a resolution of the conflicted slots
/// (fresh or cached), holds each slot on which all forks agree, with the
/// agreed event wherever that resolution places none.
pub proof fn lemma_resolution_keeps_unconflicted_slots(states: Seq<StateView>, resolved: StateView, k: SlotView)
    ensures
        unconflicted_of(states).contains_key(k) ==> unconflicted_of(states).union_prefer_right(resolved).contains_key(k),
        unconflicted_of(states).contains_key(k) && !resolved.contains_key(k)
            ==> unconflicted_of(states).union_prefer_right(resolved)[k] == unconflicted_of(states)[k],
{
}

/// Whether `rank` strictly decreases from each event being ordered to each
/// of its auth events that is also being ordered: those auth edges form no
/// cycle.
pub open spec fn auth_ranked(g: Map<Seq<char>, Event>, rank: spec_fn(Seq<char>) -> nat) -> bool {
    forall|n: Seq<char>, j: int| g.contains_key(n) && 0 <= j < g[n].auth_ids().len()
        && g.contains_key(#[trigger] g[n].auth_ids()[j]) ==> rank(g[n].auth_ids()[j]) < rank(n)
}

/// The events to order are finitely many, each keyed by its own identifier.
proof fn lemma_power_graph_keys(ids: Seq<Seq<char>>, store: StoreView)
    ensures
        power_graph(ids, store).dom().finite(),
        forall|k: Seq<char>| #[trigger] power_graph(ids, store).contains_key(k) ==> power_graph(ids, store)[k].event_id@ == k,
    decreases ids.len(),
{
    if ids.len() > 0 {
        lemma_power_graph_keys(ids.drop_last(), store);
    }
}

/// Without auth cycles, an event not yet emitted leads, through auth events
/// not yet emitted, to one that is ready.
proof fn lemma_ready_exists(g: Map<Seq<char>, Event>, done: Seq<Seq<char>>, rank: spec_fn(Seq<char>) -> nat, n: Seq<char>)
    requires
        auth_ranked(g, rank),
        g.contains_key(n),
        !done.contains(n),
    ensures
        exists|m: Seq<char>| is_ready(g, done, m),
    decreases rank(n),
{
    if !is_ready(g, done, n) {
        let j = choose|j: int| 0 <= j < g[n].auth_ids().len() && g.contains_key(#[trigger] g[n].auth_ids()[j])
            && !done.contains(g[n].auth_ids()[j]);
        lemma_ready_exists(g, done, rank, g[n].auth_ids()[j]);
    }
}

/// Among finitely many ready events keyed by their identifiers, one goes
/// ahead of all the others.
proof fn lemma_best_in(g: Map<Seq<char>, Event>, s: Set<Seq<char>>)
    requires
        s.finite(),
        s.len() > 0,
        forall|k: Seq<char>| #[trigger] g.contains_key(k) ==> g[k].event_id@ == k,
        forall|k: Seq<char>| #[trigger] s.contains(k) ==> g.contains_key(k),
    ensures
        exists|b: Seq<char>| s.contains(b) && forall|m: Seq<char>| #[trigger] s.contains(m) && m != b ==> sorts_first(g[b], g[m]),
    decreases s.len(),
{
    let x = s.choose();
    let t = s.remove(x);
    if t.len() == 0 {
        assert forall|m: Seq<char>| #[trigger] s.contains(m) && m != x implies sorts_first(g[x], g[m]) by {
            assert(t.contains(m));
        }
    } else {
        lemma_best_in(g, t);
        let b = choose|b: Seq<char>| t.contains(b) && forall|m: Seq<char>| #[trigger] t.contains(m) && m != b ==> sorts_first(g[b], g[m]);
        lemma_sorts_first_order(g[x], g[b], g[b]);
        if sorts_first(g[x], g[b]) {
            assert forall|m: Seq<char>| #[trigger] s.contains(m) && m != x implies sorts_first(g[x], g[m]) by {
                if m != b {
                    assert(t.contains(m));
                    lemma_sorts_first_order(g[x], g[b], g[m]);
                }
            }
        } else {
            assert(sorts_first(g[b], g[x]));
            assert forall|m: Seq<char>| #[trigger] s.contains(m) && m != b implies sorts_first(g[b], g[m]) by {
                if m != x {
                    assert(t.contains(m));
                }
            }
        }
    }
}

/// Without auth cycles, the order after `done` holds every event not yet
/// emitted.
proof fn lemma_power_order_from_complete(g: Map<Seq<char>, Event>, done: Seq<Seq<char>>, rank: spec_fn(Seq<char>) -> nat)
    requires
        auth_ranked(g, rank),
        g.dom().finite(),
        forall|k: Seq<char>| #[trigger] g.contains_key(k) ==> g[k].event_id@ == k,
        done.no_duplicates(),
        forall|i: int| 0 <= i < done.len() ==> g.contains_key(#[trigger] done[i]),
    ensures
        forall|n: Seq<char>| #[trigger] g.contains_key(n) && !done.contains(n) ==> power_order_from(g, done).contains(n),
    decreases g.dom().len() - done.len(),
{
    let o = power_order_from(g, done);
    if exists|n: Seq<char>| #[trigger] g.contains_key(n) && !done.contains(n) {
        let n = choose|n: Seq<char>| #[trigger] g.contains_key(n) && !done.contains(n);
        assert(done.len() < g.dom().len()) by {
            assert(done.to_set().subset_of(g.dom().remove(n))) by {
                assert forall|x: Seq<char>| done.to_set().contains(x) implies g.dom().remove(n).contains(x) by {
                    let i = choose|i: int| 0 <= i < done.len() && done[i] == x;
                    assert(g.contains_key(done[i]));
                }
            }
            vstd::set_lib::lemma_len_subset(done.to_set(), g.dom().remove(n));
            done.unique_seq_to_set();
        }
        lemma_ready_exists(g, done, rank, n);
        let ready = g.dom().filter(|m: Seq<char>| is_ready(g, done, m));
        let m0 = choose|m: Seq<char>| is_ready(g, done, m);
        assert(ready.contains(m0));
        vstd::set_lib::lemma_len_subset(ready, g.dom());
        assert(ready.len() > 0) by {
            if ready.len() == 0 {
                assert(ready =~= Set::<Seq<char>>::empty());
            }
        }
        lemma_best_in(g, ready);
        let b = choose|b: Seq<char>| ready.contains(b) && forall|m: Seq<char>| #[trigger] ready.contains(m) && m != b ==> sorts_first(g[b], g[m]);
        assert(is_next(g, done, b)) by {
            assert forall|m: Seq<char>| #[trigger] is_ready(g, done, m) && m != b implies sorts_first(g[b], g[m]) by {
                assert(ready.contains(m));
            }
        }
        let c = choose|c: Seq<char>| is_next(g, done, c);
        let d2 = done.push(c);
        assert(o == seq![c] + power_order_from(g, d2));
        assert(d2.no_duplicates()) by {
            assert forall|i: int, j: int| 0 <= i < j < d2.len() implies d2[i] != d2[j] by {
                if j == done.len() {
                    assert(done.contains(d2[i]));
                }
            }
        }
        assert forall|i: int| 0 <= i < d2.len() implies g.contains_key(#[trigger] d2[i]) by {
            if i < done.len() {
                assert(d2[i] == done[i]);
            }
        }
        lemma_power_order_from_complete(g, d2, rank);
        assert forall|x: Seq<char>| #[trigger] g.contains_key(x) && !done.contains(x) implies o.contains(x) by {
            if x == c {
                assert(o[0] == x);
            } else {
                assert(!d2.contains(x)) by {
                    if d2.contains(x) {
                        let i = choose|i: int| 0 <= i < d2.len() && d2[i] == x;
                        assert(i < done.len());
                        assert(done[i] == x);
                    }
                }
                let rest = power_order_from(g, d2);
                assert(rest.contains(x));
                let i = choose|i: int| 0 <= i < rest.len() && rest[i] == x;
                assert(o[i + 1] == x);
            }
        }
    }
}

/// The reverse topological power order is complete when the auth events
/// among the events being ordered form no cycle (some rank decreases along
/// every such auth edge): every event of the set is ordered.
pub proof fn lemma_power_order_complete(ids: Seq<Seq<char>>, store: StoreView, rank: spec_fn(Seq<char>) -> nat)
    requires
        auth_ranked(power_graph(ids, store), rank),
    ensures
        forall|n: Seq<char>| #[trigger] power_graph(ids, store).contains_key(n) ==> power_order(ids, store).contains(n),
{
    let g = power_graph(ids, store);
    lemma_power_graph_keys(ids, store);
    lemma_power_order_from_complete(g, Seq::empty(), rank);
    assert forall|n: Seq<char>| #[trigger] g.contains_key(n) implies power_order(ids, store).contains(n) by {
        assert(!Seq::<Seq<char>>::empty().contains(n));
    }
}

/// With every stored event keyed by its own identifier, the events to order
/// are exactly the listed identifiers the store has.
proof fn lemma_power_graph_dom(ids: Seq<Seq<char>>, store: StoreView)
    requires
        forall|k: Seq<char>| #[trigger] store.contains_key(k) ==> store[k].event_id@ == k,
    ensures
        forall|x: Seq<char>| #[trigger] power_graph(ids, store).contains_key(x) <==> ids.contains(x) && store.contains_key(x),
    decreases ids.len(),
{
    if ids.len() > 0 {
        let prev = ids.drop_last();
        lemma_power_graph_dom(prev, store);
        let g0 = power_graph(prev, store);
        if store.contains_key(ids.last()) {
            assert(store[ids.last()].event_id@ == ids.last());
            assert(power_graph(ids, store) == g0.insert(ids.last(), store[ids.last()]));
        } else {
            assert(power_graph(ids, store) == g0);
        }
        assert forall|x: Seq<char>| #[trigger] power_graph(ids, store).contains_key(x) <==> ids.contains(x) && store.contains_key(x) by {
            if prev.contains(x) {
                let i = choose|i: int| 0 <= i < prev.len() && prev[i] == x;
                assert(ids[i] == x);
            }
            if ids.contains(x) && x != ids.last() {
                let i = choose|i: int| 0 <= i < ids.len() && ids[i] == x;
                assert(i < ids.len() - 1);
                assert(prev[i] == x);
            }
            if x == ids.last() {
                assert(ids[ids.len() - 1] == x);
            }
        }
    }
}

/// The reverse topological power order is a permutation of the present
/// identifiers when every stored event is keyed by its own identifier and the
/// auth events among them form no cycle: it lists each identifier that is
/// both given and in the store, once, and nothing else.
pub proof fn lemma_power_order_permutation(ids: Seq<Seq<char>>, store: StoreView, rank: spec_fn(Seq<char>) -> nat)
    requires
        forall|k: Seq<char>| #[trigger] store.contains_key(k) ==> store[k].event_id@ == k,
        auth_ranked(power_graph(ids, store), rank),
    ensures
        power_order(ids, store).no_duplicates(),
        forall|x: Seq<char>| #[trigger] power_order(ids, store).contains(x) <==> ids.contains(x) && store.contains_key(x),
{
    let g = power_graph(ids, store);
    let o = power_order(ids, store);
    lemma_power_order_topological(ids, store);
    lemma_power_order_complete(ids, store, rank);
    lemma_power_graph_dom(ids, store);
    assert(o.no_duplicates()) by {
        assert forall|i: int, j: int| 0 <= i < o.len() && 0 <= j < o.len() && i != j implies o[i] != o[j] by {
            if i < j {
                assert(o[i] != o[j]);
            } else {
                assert(o[j] != o[i]);
            }
        }
    }
    assert forall|x: Seq<char>| #[trigger] o.contains(x) <==> ids.contains(x) && store.contains_key(x) by {
        if o.contains(x) {
            let i = choose|i: int| 0 <= i < o.len() && o[i] == x;
            assert(g.contains_key(o[i]));
        }
        if ids.contains(x) && store.contains_key(x) {
            assert(g.contains_key(x));
        }
    }
}

/// Resolving the same forks twice in a row gives the same state, and the
/// second resolution leaves the cache as the first left it: a miss memoises
/// the fresh resolution, which the second call then finds (or, with caching
/// disabled, computes again).
pub proof fn lemma_resolve_idempotent<R: AuthRules>(
    states: Seq<StateView>,
    chains: Seq<Set<Seq<char>>>,
    store: StoreView,
    rules: &R,
    slots: CacheSlots,
    capacity: nat,
)
    requires
        cache_valid(slots, capacity),
    ensures
        ({
            let first = resolve_outcome(states, chains, store, rules, slots, capacity);
            let second = resolve_outcome(states, chains, store, rules, first.1, capacity);
            &&& second == first
            &&& cache_valid(first.1, capacity)
        }),
{
    let c = conflicted_of(states);
    let key = crate::stateres::state_map::conflicting_ids_spec(c);
    let fresh = resolution(states, chains, store, rules);
    lemma_cache_get_after_insert(slots, capacity, key, fresh);
}

/// A cache that holds, under the conflicting event ids of some forks,
/// nothing or the fresh resolution of those forks keeps doing so after
/// resolving them, and resolving them gives the unconflicted state overlaid
/// with that fresh resolution, whether the cache hits or misses.
pub proof fn lemma_resolve_consistent_cache<R: AuthRules>(
    states: Seq<StateView>,
    chains: Seq<Set<Seq<char>>>,
    store: StoreView,
    rules: &R,
    slots: CacheSlots,
    capacity: nat,
)
    requires
        cache_valid(slots, capacity),
        ({
            let key = crate::stateres::state_map::conflicting_ids_spec(conflicted_of(states));
            cached(slots, key) is None || cached(slots, key) == Some(resolution(states, chains, store, rules))
        }),
    ensures
        ({
            let key = crate::stateres::state_map::conflicting_ids_spec(conflicted_of(states));
            let fresh = resolution(states, chains, store, rules);
            let out = resolve_outcome(states, chains, store, rules, slots, capacity);
            &&& out.0 == if conflicted_of(states).dom().len() == 0 {
                unconflicted_of(states)
            } else {
                unconflicted_of(states).union_prefer_right(fresh)
            }
            &&& cached(out.1, key) is None || cached(out.1, key) == Some(fresh)
            &&& cache_valid(out.1, capacity)
        }),
{
    let c = conflicted_of(states);
    let key = crate::stateres::state_map::conflicting_ids_spec(c);
    let fresh = resolution(states, chains, store, rules);
    lemma_cache_get_after_insert(slots, capacity, key, fresh);
}

/// Reveals the membership and join-rule words, so that distinct words are
/// known to differ.
proof fn lemma_membership_words()
    ensures
        "join"@ != "invite"@, "join"@ != "leave"@, "join"@ != "ban"@, "join"@ != "knock"@,
        "invite"@ != "leave"@, "invite"@ != "ban"@, "invite"@ != "knock"@,
        "leave"@ != "ban"@, "leave"@ != "knock"@, "ban"@ != "knock"@,
        "restricted"@ != "public"@, "knock_restricted"@ != "public"@,
        "knock"@ != "public"@, "knock"@ != "restricted"@, "knock"@ != "knock_restricted"@,
        "restricted"@ != "knock_restricted"@,
        "knock"@ != "join"@, "public"@ != "join"@, "public"@ != "invite"@,
{
    reveal_strlit("join");
    reveal_strlit("invite");
    reveal_strlit("leave");
    reveal_strlit("ban");
    reveal_strlit("knock");
    reveal_strlit("public");
    reveal_strlit("restricted");
    reveal_strlit("knock_restricted");
    assert("join"@.len() != "invite"@.len());
    assert("join"@.len() != "leave"@.len());
    assert("join"@.len() != "ban"@.len());
    assert("join"@[0] != "knock"@[0]);
    assert("invite"@.len() != "leave"@.len());
    assert("invite"@.len() != "ban"@.len());
    assert("invite"@.len() != "knock"@.len());
    assert("leave"@.len() != "ban"@.len());
    assert("leave"@[0] != "knock"@[0]);
    assert("ban"@.len() != "knock"@.len());
    assert("restricted"@.len() != "public"@.len());
    assert("knock_restricted"@.len() != "public"@.len());
    assert("knock"@.len() != "public"@.len());
    assert("knock"@.len() != "restricted"@.len());
    assert("knock"@.len() != "knock_restricted"@.len());
    assert("restricted"@.len() != "knock_restricted"@.len());
    assert("public"@[0] != "invite"@[0]);
    assert("public"@.len() != "join"@.len());
}

/// A kick needs a joined sender whose power level reaches the kick level and
/// is strictly above the kicked user's: a member event that makes another
/// user leave is authorised only then.
pub proof fn lemma_kick_needs_higher_level(e: Event, state: StateView, store: StoreView)
    requires
        e.event_type@ == member_type(),
        e.membership matches Some(m) && m@ == "leave"@,
        e.sender@ != e.state_key@,
        MembershipRules.authorizes(e, state, store),
    ensures
        membership_in(state, store, e.sender@) == "join"@,
        user_level(levels_in(state, store), e.sender@) >= kick_of(levels_in(state, store)),
        user_level(levels_in(state, store), e.sender@) > user_level(levels_in(state, store), e.state_key@),
{
    lemma_membership_words();
}

/// A user who is banned, or already joined, cannot be invited: no member
/// event inviting them is authorised. Any invite needs a joined sender whose
/// level reaches the invite level.
pub proof fn lemma_invite_needs_invitable_target(e: Event, state: StateView, store: StoreView)
    requires
        e.event_type@ == member_type(),
        e.membership matches Some(m) && m@ == "invite"@,
    ensures
        membership_in(state, store, e.state_key@) == "ban"@ ==> !MembershipRules.authorizes(e, state, store),
        membership_in(state, store, e.state_key@) == "join"@ ==> !MembershipRules.authorizes(e, state, store),
        MembershipRules.authorizes(e, state, store) ==> membership_in(state, store, e.sender@) == "join"@
            && user_level(levels_in(state, store), e.sender@) >= invite_of(levels_in(state, store)),
{
    lemma_membership_words();
}

/// In a restricted (or knock-restricted) room, a user who is neither invited
/// nor joined, and is not the room's creator, may join only when vouched for
/// by a joined user whose power level reaches the invite level.
pub proof fn lemma_restricted_join_needs_voucher(e: Event, state: StateView, store: StoreView)
    requires
        e.event_type@ == member_type(),
        e.membership matches Some(m) && m@ == "join"@,
        join_rule_in(state, store) == "restricted"@ || join_rule_in(state, store) == "knock_restricted"@,
        membership_in(state, store, e.state_key@) != "invite"@,
        membership_in(state, store, e.state_key@) != "join"@,
        !({
            let ck = (create_type(), Seq::<char>::empty());
            state.contains_key(ck) && store.contains_key(state[ck]) && store[state[ck]].sender@ == e.sender@
        }),
        MembershipRules.authorizes(e, state, store),
    ensures
        e.join_authorised_via_users_server matches Some(a)
            && membership_in(state, store, a@) == "join"@
            && user_level(levels_in(state, store), a@) >= invite_of(levels_in(state, store)),
{
    lemma_membership_words();
}

/// Who may change whose membership, and when, for the transitions a member
/// event can make: no one joins or knocks for someone else; a banned user can
/// neither join nor knock, nor can a joined one knock; a user leaves on their
/// own only from a joined, invited or knocking membership; a ban needs a
/// joined sender whose level reaches the ban level and is above the target's;
/// knocking needs a knock or knock-restricted room; and a member event
/// without a membership is refused.
pub proof fn lemma_membership_rules(e: Event, state: StateView, store: StoreView)
    requires
        e.event_type@ == member_type(),
    ensures
        e.membership is None ==> !MembershipRules.authorizes(e, state, store),
        e.membership matches Some(m) && (m@ == "join"@ || m@ == "knock"@) && e.sender@ != e.state_key@
            ==> !MembershipRules.authorizes(e, state, store),
        e.membership matches Some(m) && (m@ == "join"@ || m@ == "knock"@)
            && membership_in(state, store, e.state_key@) == "ban"@ ==> !MembershipRules.authorizes(e, state, store),
        e.membership matches Some(m) && m@ == "knock"@
            && membership_in(state, store, e.state_key@) == "join"@ ==> !MembershipRules.authorizes(e, state, store),
        e.membership matches Some(m) && m@ == "knock"@ && MembershipRules.authorizes(e, state, store)
            ==> join_rule_in(state, store) == "knock"@ || join_rule_in(state, store) == "knock_restricted"@,
        e.membership matches Some(m) && m@ == "leave"@ && e.sender@ == e.state_key@
            ==> (MembershipRules.authorizes(e, state, store) <==> {
                let sm = membership_in(state, store, e.sender@);
                sm == "join"@ || sm == "invite"@ || sm == "knock"@
            }),
        e.membership matches Some(m) && m@ == "ban"@ && MembershipRules.authorizes(e, state, store) ==> {
            &&& membership_in(state, store, e.sender@) == "join"@
            &&& user_level(levels_in(state, store), e.sender@) >= ban_of(levels_in(state, store))
            &&& user_level(levels_in(state, store), e.sender@) > user_level(levels_in(state, store), e.state_key@)
        },
{
    lemma_membership_words();
}

/// The transitions the rules grant: a joined sender whose level reaches the
/// invite level may invite anyone neither joined nor banned; a joined sender
/// whose level reaches the kick level and is above the target's may kick
/// (and likewise ban) them; and in a public room anyone not banned may join
/// themselves, as may an invited user in any room.
pub proof fn lemma_membership_grants(e: Event, state: StateView, store: StoreView)
    requires
        e.event_type@ == member_type(),
    ensures
        ({
            let l = levels_in(state, store);
            let sl = user_level(l, e.sender@);
            let sm = membership_in(state, store, e.sender@);
            let tm = membership_in(state, store, e.state_key@);
            &&& e.membership is Some && e.membership->0@ == "invite"@ && sm == "join"@ && tm != "join"@ && tm != "ban"@
                && sl >= invite_of(l) ==> MembershipRules.authorizes(e, state, store)
            &&& e.membership is Some && e.membership->0@ == "leave"@ && e.sender@ != e.state_key@ && sm == "join"@
                && sl >= kick_of(l) && sl > user_level(l, e.state_key@) ==> MembershipRules.authorizes(e, state, store)
            &&& e.membership is Some && e.membership->0@ == "ban"@ && sm == "join"@
                && sl >= ban_of(l) && sl > user_level(l, e.state_key@) ==> MembershipRules.authorizes(e, state, store)
            &&& e.membership is Some && e.membership->0@ == "join"@ && e.sender@ == e.state_key@ && tm != "ban"@
                && (join_rule_in(state, store) == "public"@ || tm == "invite"@) ==> MembershipRules.authorizes(e, state, store)
        }),
{
    lemma_membership_words();
}

} // verus!
