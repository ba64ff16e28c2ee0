//! Iterative authorisation checks and the room authorisation rules.
//!
//! Events are walked in resolution order, and each is folded into the state
//! only if the authorisation rules accept it against the state resolved so
//! far. The rules are taken as an [`AuthRules`] implementation, so the
//! resolution flow stays independent of the rule set; the create, power-level,
//! power-level-mutation and membership gates are provided here and compose
//! with [`AllOf`].

use vstd::prelude::*;

use crate::bytes::str_eq;
use crate::stateres::collections::{MapKey, OrdMap};
use crate::stateres::event::{ids_view, Event, EventId};
use crate::stateres::power::PowerLevels;
use crate::stateres::state_map::{EventStore, SlotView, StateKey, StateMap, StateView};

verus! {

/// The value of an event store: events by identifier.
pub type StoreView = Map<Seq<char>, Event>;

/// The room's create event type.
pub open spec fn create_type() -> Seq<char> {
    "m.room.create"@
}

/// The member event type.
pub open spec fn member_type() -> Seq<char> {
    "m.room.member"@
}

/// The power-levels event type.
pub open spec fn power_levels_type() -> Seq<char> {
    "m.room.power_levels"@
}

/// The join-rules event type.
pub open spec fn join_rules_type() -> Seq<char> {
    "m.room.join_rules"@
}

/// The event that `state` holds at `slot`, when the store has it.
pub open spec fn event_at(state: StateView, store: StoreView, slot: SlotView) -> Option<Event> {
    if state.contains_key(slot) && store.contains_key(state[slot]) {
        Some(store[state[slot]])
    } else {
        None
    }
}

/// The membership of `user` in `state` (`leave` when no member event is
/// present).
pub open spec fn membership_in(state: StateView, store: StoreView, user: Seq<char>) -> Seq<char> {
    match event_at(state, store, (member_type(), user)) {
        Some(e) => match e.membership {
            Some(m) => m@,
            None => "leave"@,
        },
        None => "leave"@,
    }
}

/// The room's join rule in `state` (`invite` when no join-rules event is
/// present).
pub open spec fn join_rule_in(state: StateView, store: StoreView) -> Seq<char> {
    match event_at(state, store, (join_rules_type(), Seq::empty())) {
        Some(e) => match e.join_rule {
            Some(j) => j@,
            None => "invite"@,
        },
        None => "invite"@,
    }
}

/// The power levels of the power-levels event in `state`, if there is one
/// (a room without one runs on all-zero levels).
pub open spec fn levels_in(state: StateView, store: StoreView) -> Option<PowerLevels> {
    match event_at(state, store, (power_levels_type(), Seq::empty())) {
        Some(e) => e.power_levels,
        None => None,
    }
}

/// Explicit per-user levels (none when unset).
pub open spec fn users_of(l: Option<PowerLevels>) -> Map<Seq<char>, i64> {
    match l {
        Some(p) => p.users@,
        None => Map::empty(),
    }
}

/// The level of unlisted users (zero when unset).
pub open spec fn users_default_of(l: Option<PowerLevels>) -> i64 {
    match l {
        Some(p) => p.users_default,
        None => 0,
    }
}

/// Explicit per-event-type levels (none when unset).
pub open spec fn events_of(l: Option<PowerLevels>) -> Map<Seq<char>, i64> {
    match l {
        Some(p) => p.events@,
        None => Map::empty(),
    }
}

/// The default level for events (zero when unset).
pub open spec fn events_default_of(l: Option<PowerLevels>) -> i64 {
    match l {
        Some(p) => p.events_default,
        None => 0,
    }
}

/// The default level for state events (zero when unset).
pub open spec fn state_default_of(l: Option<PowerLevels>) -> i64 {
    match l {
        Some(p) => p.state_default,
        None => 0,
    }
}

/// The level required to invite (zero when unset).
pub open spec fn invite_of(l: Option<PowerLevels>) -> i64 {
    match l {
        Some(p) => p.invite,
        None => 0,
    }
}

/// The level required to kick (zero when unset).
pub open spec fn kick_of(l: Option<PowerLevels>) -> i64 {
    match l {
        Some(p) => p.kick,
        None => 0,
    }
}

/// The level required to ban (zero when unset).
pub open spec fn ban_of(l: Option<PowerLevels>) -> i64 {
    match l {
        Some(p) => p.ban,
        None => 0,
    }
}

/// Whether `p` holds the levels `l` stands for.
pub open spec fn matches_levels(p: PowerLevels, l: Option<PowerLevels>) -> bool {
    &&& p.users@ == users_of(l)
    &&& p.users_default == users_default_of(l)
    &&& p.events@ == events_of(l)
    &&& p.events_default == events_default_of(l)
    &&& p.state_default == state_default_of(l)
    &&& p.invite == invite_of(l)
    &&& p.kick == kick_of(l)
    &&& p.ban == ban_of(l)
}

/// The entry of `m` at `k`, or `d` when there is none.
pub open spec fn level_at(m: Map<Seq<char>, i64>, d: i64, k: Seq<char>) -> i64 {
    if m.contains_key(k) {
        m[k]
    } else {
        d
    }
}

/// The level of `user` under `l`.
pub open spec fn user_level(l: Option<PowerLevels>, user: Seq<char>) -> i64 {
    level_at(users_of(l), users_default_of(l), user)
}

/// The level required under `l` to send a state event of `event_type`.
pub open spec fn state_send_level(l: Option<PowerLevels>, event_type: Seq<char>) -> i64 {
    level_at(events_of(l), state_default_of(l), event_type)
}

/// Whether key `k`, listed in `a` or `b`, resolves to different levels
/// `p == (old, new)`.
pub open spec fn entry_change(a: Map<Seq<char>, i64>, ad: i64, b: Map<Seq<char>, i64>, bd: i64, k: Seq<char>, p: (i64, i64)) -> bool {
    &&& a.contains_key(k) || b.contains_key(k)
    &&& level_at(a, ad, k) != level_at(b, bd, k)
    &&& p == (level_at(a, ad, k), level_at(b, bd, k))
}

/// Whether `p == (old, new)` is one scalar level that differs.
pub open spec fn scalar_change(o: Option<PowerLevels>, n: Option<PowerLevels>, p: (i64, i64)) -> bool {
    ||| users_default_of(o) != users_default_of(n) && p == (users_default_of(o), users_default_of(n))
    ||| events_default_of(o) != events_default_of(n) && p == (events_default_of(o), events_default_of(n))
    ||| state_default_of(o) != state_default_of(n) && p == (state_default_of(o), state_default_of(n))
    ||| invite_of(o) != invite_of(n) && p == (invite_of(o), invite_of(n))
    ||| kick_of(o) != kick_of(n) && p == (kick_of(o), kick_of(n))
    ||| ban_of(o) != ban_of(n) && p == (ban_of(o), ban_of(n))
}

/// Whether `p == (old, new)` is a level that differs between two
/// power-levels contents: a scalar level, or a per-user or per-event entry
/// (omitted entries resolve to their defaults).
pub open spec fn is_level_change(o: Option<PowerLevels>, n: Option<PowerLevels>, p: (i64, i64)) -> bool {
    ||| scalar_change(o, n, p)
    ||| exists|k: Seq<char>| #[trigger] entry_change(users_of(o), users_default_of(o), users_of(n), users_default_of(n), k, p)
    ||| exists|k: Seq<char>| #[trigger] entry_change(events_of(o), events_default_of(o), events_of(n), events_default_of(n), k, p)
}

/// The room-version authorisation rules: decide whether an event is
/// authorised against the partially-resolved state.
pub trait AuthRules {
    /// Whether `event` is authorised given `state` and the events of `store`.
    spec fn authorizes(&self, event: Event, state: StateView, store: StoreView) -> bool;

    /// Whether `event` is authorised given the state resolved so far.
    fn is_authorized(&self, event: &Event, state: &StateMap, store: &EventStore) -> (r: bool)
        ensures
            r == self.authorizes(*event, state@, store@),
    ;
}

/// The event that `state` holds at `slot`, when the store has it.
fn event_in_state<'a>(state: &StateMap, store: &'a EventStore, slot: &StateKey) -> (r: Option<&'a Event>)
    ensures
        match r {
            Some(e) => event_at(state@, store@, slot.key_view()) == Some(*e),
            None => event_at(state@, store@, slot.key_view()) == None::<Event>,
        },
{
    match state.get(slot) {
        Some(id) => store.get(id),
        None => None,
    }
}

/// The membership of `user` in `state` (`leave` when no member event is
/// present).
fn membership_of(user: &str, state: &StateMap, store: &EventStore) -> (r: String)
    ensures
        r@ == membership_in(state@, store@, user@),
{
    let key = ("m.room.member".to_owned(), user.to_owned());
    match event_in_state(state, store, &key) {
        Some(e) => match &e.membership {
            Some(m) => m.clone(),
            None => "leave".to_owned(),
        },
        None => "leave".to_owned(),
    }
}

/// The room's join rule in `state` (`invite` when no join-rules event is
/// present, matching the Matrix default).
fn current_join_rule(state: &StateMap, store: &EventStore) -> (r: String)
    ensures
        r@ == join_rule_in(state@, store@),
{
    let key = ("m.room.join_rules".to_owned(), String::new());
    match event_in_state(state, store, &key) {
        Some(e) => match &e.join_rule {
            Some(j) => j.clone(),
            None => "invite".to_owned(),
        },
        None => "invite".to_owned(),
    }
}

/// The power levels in effect in `state`, or the default when no
/// power-levels event is present.
fn current_power_levels(state: &StateMap, store: &EventStore) -> (r: PowerLevels)
    ensures
        matches_levels(r, levels_in(state@, store@)),
{
    let key = ("m.room.power_levels".to_owned(), String::new());
    match event_in_state(state, store, &key) {
        Some(e) => match &e.power_levels {
            Some(pl) => pl.copy(),
            None => PowerLevels::default(),
        },
        None => PowerLevels::default(),
    }
}

/// Whether `event` is the room creator's initial join: the joining user is
/// the create event's sender, and the join's only auth event is that create
/// event.
pub open spec fn bootstrap_join(e: Event, state: StateView, store: StoreView) -> bool {
    let ck = (create_type(), Seq::<char>::empty());
    &&& state.contains_key(ck)
    &&& store.contains_key(state[ck])
    &&& store[state[ck]].sender@ == e.sender@
    &&& e.auth_ids() == seq![state[ck]]
}

/// Whether `event` is the room creator's initial join: the joining user is
/// the create event's sender, and this join's only auth dependency is that
/// create event.
fn is_bootstrap_join(event: &Event, state: &StateMap, store: &EventStore) -> (r: bool)
    ensures
        r == bootstrap_join(*event, state@, store@),
{
    let create_key = ("m.room.create".to_owned(), String::new());
    let create_id = match state.get(&create_key) {
        Some(id) => id,
        None => {
            return false;
        },
    };
    match store.get(create_id) {
        Some(creator) => {
            let auth = event.auth_event_ids();
            let r = str_eq(creator.sender(), event.sender()) && auth.len() == 1 && str_eq(auth[0].as_str(), create_id.as_str());
            proof {
                assert(event.auth_ids().len() == auth@.len());
                assert(store@[state@[create_key.key_view()]] == *creator);
                if auth@.len() == 1 {
                    assert(event.auth_ids()[0] == auth@[0]@);
                    if auth@[0]@ == create_id@ {
                        assert(event.auth_ids() =~= seq![create_id@]);
                    }
                }
            }
            r
        },
        None => false,
    }
}

/// Create-event authorisation: the create event is the room root (no auth
/// events, empty state key); every other event requires the room to have
/// been created.
pub open spec fn create_authorizes(e: Event, state: StateView) -> bool {
    if e.event_type@ == create_type() {
        e.auth_event_ids@.len() == 0 && e.state_key@.len() == 0
    } else {
        state.contains_key((create_type(), Seq::<char>::empty()))
    }
}

/// Power-level authorisation: the sender's level meets the level the room's
/// power levels require for the event's type.
pub open spec fn power_level_authorizes(e: Event, state: StateView, store: StoreView) -> bool {
    let l = levels_in(state, store);
    user_level(l, e.sender@) >= state_send_level(l, e.event_type@)
}

/// Whether every level that differs between `old` and `new` is within the
/// sender's reach, both before and after.
pub open spec fn mutation_within_reach(old: Option<PowerLevels>, new: PowerLevels, sender: Seq<char>) -> bool {
    let sl = user_level(old, sender);
    forall|p: (i64, i64)| #[trigger] is_level_change(old, Some(new), p) ==> p.0 <= sl && p.1 <= sl
}

/// Power-level mutation: a power-levels event may neither set nor change a
/// level beyond the sender's own; other events pass.
pub open spec fn mutation_authorizes(e: Event, state: StateView, store: StoreView) -> bool {
    if e.event_type@ != power_levels_type() {
        true
    } else {
        match e.power_levels {
            Some(new) => mutation_within_reach(levels_in(state, store), new, e.sender@),
            None => false,
        }
    }
}

/// Whether a membership of `m` may be set by the event `e`.
pub open spec fn membership_transition(e: Event, m: Seq<char>, state: StateView, store: StoreView) -> bool {
    let sender = e.sender@;
    let target = e.state_key@;
    let l = levels_in(state, store);
    let sender_level = user_level(l, sender);
    let sm = membership_in(state, store, sender);
    let tm = membership_in(state, store, target);
    let rule = join_rule_in(state, store);
    if m == "join"@ {
        if sender != target || tm == "ban"@ {
            false
        } else if bootstrap_join(e, state, store) {
            true
        } else if tm == "invite"@ || tm == "join"@ {
            true
        } else if rule == "public"@ {
            true
        } else if rule == "restricted"@ || rule == "knock_restricted"@ {
            match e.join_authorised_via_users_server {
                Some(a) => membership_in(state, store, a@) == "join"@ && user_level(l, a@) >= invite_of(l),
                None => false,
            }
        } else {
            false
        }
    } else if m == "invite"@ {
        sm == "join"@ && !(tm == "join"@ || tm == "ban"@) && sender_level >= invite_of(l)
    } else if m == "leave"@ {
        if sender == target {
            sm == "join"@ || sm == "invite"@ || sm == "knock"@
        } else {
            sm == "join"@ && sender_level >= kick_of(l) && sender_level > user_level(l, target)
        }
    } else if m == "ban"@ {
        sm == "join"@ && sender_level >= ban_of(l) && sender_level > user_level(l, target)
    } else if m == "knock"@ {
        sender == target && (rule == "knock"@ || rule == "knock_restricted"@) && !(tm == "join"@ || tm == "ban"@)
    } else {
        false
    }
}

/// Membership authorisation: member events must make a permitted
/// transition; other events pass.
pub open spec fn membership_authorizes(e: Event, state: StateView, store: StoreView) -> bool {
    if e.event_type@ != member_type() {
        true
    } else {
        match e.membership {
            Some(m) => membership_transition(e, m@, state, store),
            None => false,
        }
    }
}

/// Power-level authorisation: a sender may send an event only if their power
/// level meets the level the room's power-levels state requires for that
/// event type. Without a power-levels event (room bootstrap) the all-zero
/// default applies, which authorises.
pub struct PowerLevelRules;

impl AuthRules for PowerLevelRules {
    open spec fn authorizes(&self, event: Event, state: StateView, store: StoreView) -> bool {
        power_level_authorizes(event, state, store)
    }

    fn is_authorized(&self, event: &Event, state: &StateMap, store: &EventStore) -> (r: bool) {
        let levels = current_power_levels(state, store);
        let required = levels.required_for(event.event_type(), true);
        levels.for_user(event.sender()) >= required
    }
}

/// Create-event authorisation: the `m.room.create` event is the room root
/// (no auth events, empty state key), and every other event requires the
/// room to have been created.
pub struct CreateRules;

impl AuthRules for CreateRules {
    open spec fn authorizes(&self, event: Event, state: StateView, store: StoreView) -> bool {
        create_authorizes(event, state)
    }

    fn is_authorized(&self, event: &Event, state: &StateMap, store: &EventStore) -> (r: bool) {
        if str_eq(event.event_type(), "m.room.create") {
            event.auth_event_ids().len() == 0 && event.state_key().is_empty()
        } else {
            let key = ("m.room.create".to_owned(), String::new());
            state.contains_key(&key)
        }
    }
}

/// Power-level mutation constraints for `m.room.power_levels` events: a
/// sender may not set any level higher than their own current level, nor
/// change a level that is already higher than their own. Other events pass
/// through.
pub struct PowerLevelMutationRules;

impl AuthRules for PowerLevelMutationRules {
    open spec fn authorizes(&self, event: Event, state: StateView, store: StoreView) -> bool {
        mutation_authorizes(event, state, store)
    }

    fn is_authorized(&self, event: &Event, state: &StateMap, store: &EventStore) -> (r: bool) {
        if !str_eq(event.event_type(), "m.room.power_levels") {
            return true;
        }
        let new_levels = match &event.power_levels {
            Some(pl) => pl,
            None => {
                return false;
            },
        };
        let old_levels = current_power_levels(state, store);
        let sender_level = old_levels.for_user(event.sender());
        let changes = level_changes(&old_levels, new_levels);
        let ghost lo = levels_in(state@, store@);
        proof {
            assert forall|p: (i64, i64)| is_level_change(Some(old_levels), Some(*new_levels), p) == is_level_change(lo, Some(*new_levels), p) by {
                assert(users_of(Some(old_levels)) == users_of(lo));
                assert(events_of(Some(old_levels)) == events_of(lo));
            }
            assert(sender_level == user_level(lo, event.sender@));
        }
        let mut i: usize = 0;
        while i < changes.len()
            invariant
                forall|p: (i64, i64)| #[trigger] changes@.contains(p) <==> is_level_change(lo, Some(*new_levels), p),
                lo == levels_in(state@, store@),
                sender_level == user_level(lo, event.sender@),
                event.event_type@ == power_levels_type(),
                event.power_levels == Some(*new_levels),
                i <= changes@.len(),
                forall|a: int| 0 <= a < i ==> (#[trigger] changes@[a]).0 <= sender_level && changes@[a].1 <= sender_level,
            decreases changes@.len() - i,
        {
            let (o, n) = changes[i];
            if !(o <= sender_level && n <= sender_level) {
                proof {
                    assert(changes@.contains(changes@[i as int]));
                    assert(is_level_change(lo, Some(*new_levels), changes@[i as int]));
                }
                return false;
            }
            i = i + 1;
        }
        proof {
            assert forall|p: (i64, i64)| #[trigger] is_level_change(lo, Some(*new_levels), p) implies p.0 <= sender_level && p.1 <= sender_level by {
                assert(changes@.contains(p));
                let a = choose|a: int| 0 <= a < changes@.len() && changes@[a] == p;
                assert(changes@[a].0 <= sender_level);
            }
        }
        true
    }
}

/// Whether key `k` is listed in `a` or `b` and resolves to different levels.
pub open spec fn key_changed(a: Map<Seq<char>, i64>, ad: i64, b: Map<Seq<char>, i64>, bd: i64, k: Seq<char>) -> bool {
    &&& a.contains_key(k) || b.contains_key(k)
    &&& level_at(a, ad, k) != level_at(b, bd, k)
}

/// The `(old, new)` levels of the keys `ks`, in order.
pub open spec fn key_level_pairs(a: Map<Seq<char>, i64>, ad: i64, b: Map<Seq<char>, i64>, bd: i64, ks: Seq<Seq<char>>) -> Seq<(i64, i64)> {
    ks.map_values(|k: Seq<char>| (level_at(a, ad, k), level_at(b, bd, k)))
}

/// Whether `u` lists `(old, new)` for every key listed in `a` or `b` whose
/// levels differ, in ascending key order.
pub open spec fn changes_in_key_order(a: Map<Seq<char>, i64>, ad: i64, b: Map<Seq<char>, i64>, bd: i64, u: Seq<(i64, i64)>) -> bool {
    exists|ks: Seq<Seq<char>>| {
        &&& #[trigger] key_level_pairs(a, ad, b, bd, ks) == u
        &&& forall|i: int, j: int| 0 <= i < j < ks.len() ==> crate::bytes::str_lt(#[trigger] ks[i], #[trigger] ks[j])
        &&& forall|k: Seq<char>| #[trigger] ks.contains(k) <==> key_changed(a, ad, b, bd, k)
    }
}

/// `seq![(x, y)]` when the two levels differ, else nothing.
pub open spec fn changed_pair(x: i64, y: i64) -> Seq<(i64, i64)> {
    if x != y {
        seq![(x, y)]
    } else {
        Seq::empty()
    }
}

/// The scalar levels that differ, as `(old, new)`, in the order
/// users_default, events_default, state_default, invite, kick, ban.
pub open spec fn scalar_changes(o: Option<PowerLevels>, n: Option<PowerLevels>) -> Seq<(i64, i64)> {
    changed_pair(users_default_of(o), users_default_of(n))
        + changed_pair(events_default_of(o), events_default_of(n))
        + changed_pair(state_default_of(o), state_default_of(n))
        + changed_pair(invite_of(o), invite_of(n))
        + changed_pair(kick_of(o), kick_of(n))
        + changed_pair(ban_of(o), ban_of(n))
}

/// The change a pair of scalar levels contributes.
proof fn lemma_changed_pair_contains(x: i64, y: i64, p: (i64, i64))
    ensures
        changed_pair(x, y).contains(p) <==> x != y && p == (x, y),
{
    if x != y {
        assert(changed_pair(x, y)[0] == (x, y));
    }
}

/// A list of changes in key order holds exactly the entry changes.
proof fn lemma_ordered_changes_contain(a: Map<Seq<char>, i64>, ad: i64, b: Map<Seq<char>, i64>, bd: i64, u: Seq<(i64, i64)>)
    requires
        changes_in_key_order(a, ad, b, bd, u),
    ensures
        forall|p: (i64, i64)| #[trigger] u.contains(p) <==> exists|k: Seq<char>| #[trigger] entry_change(a, ad, b, bd, k, p),
{
    let ks = choose|ks: Seq<Seq<char>>| {
        &&& #[trigger] key_level_pairs(a, ad, b, bd, ks) == u
        &&& forall|i: int, j: int| 0 <= i < j < ks.len() ==> crate::bytes::str_lt(#[trigger] ks[i], #[trigger] ks[j])
        &&& forall|k: Seq<char>| #[trigger] ks.contains(k) <==> key_changed(a, ad, b, bd, k)
    };
    assert forall|p: (i64, i64)| #[trigger] u.contains(p) <==> exists|k: Seq<char>| #[trigger] entry_change(a, ad, b, bd, k, p) by {
        if u.contains(p) {
            let x = choose|x: int| 0 <= x < u.len() && u[x] == p;
            assert(ks.contains(ks[x]));
            assert(entry_change(a, ad, b, bd, ks[x], p));
        }
        if exists|k: Seq<char>| #[trigger] entry_change(a, ad, b, bd, k, p) {
            let k = choose|k: Seq<char>| #[trigger] entry_change(a, ad, b, bd, k, p);
            assert(key_changed(a, ad, b, bd, k));
            assert(ks.contains(k));
            let x = choose|x: int| 0 <= x < ks.len() && ks[x] == k;
            assert(u[x] == p);
        }
    }
}

/// The keys listed in `a` or `b`, as one ordered key set.
fn union_keys(a: &OrdMap<String, i64>, b: &OrdMap<String, i64>) -> (r: OrdMap<String, ()>)
    ensures
        forall|k: Seq<char>| #[trigger] r@.contains_key(k) <==> a@.contains_key(k) || b@.contains_key(k),
{
    let mut keys: OrdMap<String, ()> = OrdMap::new();
    let ea = a.entries();
    proof {
        a.lemma_view();
    }
    let mut i: usize = 0;
    while i < ea.len()
        invariant
            ea@ == a.entry_seq(),
            a@ == crate::stateres::collections::entries_map(ea@),
            i <= ea@.len(),
            forall|k: Seq<char>| #[trigger] keys@.contains_key(k) <==> exists|p: int| 0 <= p < i && #[trigger] ea@[p].0@ == k,
        decreases ea@.len() - i,
    {
        let ghost k0 = keys@;
        keys.insert(ea[i].0.clone(), ());
        proof {
            assert forall|k: Seq<char>| #[trigger] keys@.contains_key(k) <==> exists|p: int| 0 <= p < i + 1 && #[trigger] ea@[p].0@ == k by {
                if k == ea@[i as int].0@ {
                    assert(ea@[i as int].0@ == k);
                } else if keys@.contains_key(k) {
                    assert(k0.contains_key(k));
                }
            }
        }
        i = i + 1;
    }
    proof {
        assert forall|k: Seq<char>| #[trigger] keys@.contains_key(k) <==> a@.contains_key(k) by {
            if a@.contains_key(k) {
                let p = choose|p: int| 0 <= p < ea@.len() && #[trigger] ea@[p].0.key_view() == k;
                assert(ea@[p].0@ == k);
            }
            if keys@.contains_key(k) {
                let p = choose|p: int| 0 <= p < ea@.len() && #[trigger] ea@[p].0@ == k;
                assert(ea@[p].0.key_view() == k);
            }
        }
    }
    let eb = b.entries();
    proof {
        b.lemma_view();
    }
    let mut j: usize = 0;
    while j < eb.len()
        invariant
            eb@ == b.entry_seq(),
            b@ == crate::stateres::collections::entries_map(eb@),
            j <= eb@.len(),
            forall|k: Seq<char>| #[trigger] keys@.contains_key(k) <==> a@.contains_key(k)
                || exists|q: int| 0 <= q < j && #[trigger] eb@[q].0@ == k,
        decreases eb@.len() - j,
    {
        let ghost k0 = keys@;
        keys.insert(eb[j].0.clone(), ());
        proof {
            assert forall|k: Seq<char>| #[trigger] keys@.contains_key(k) <==> a@.contains_key(k)
                || exists|q: int| 0 <= q < j + 1 && #[trigger] eb@[q].0@ == k by {
                if k == eb@[j as int].0@ {
                    assert(eb@[j as int].0@ == k);
                } else if keys@.contains_key(k) {
                    assert(k0.contains_key(k));
                }
            }
        }
        j = j + 1;
    }
    proof {
        assert forall|k: Seq<char>| #[trigger] keys@.contains_key(k) <==> a@.contains_key(k) || b@.contains_key(k) by {
            if b@.contains_key(k) {
                let q = choose|q: int| 0 <= q < eb@.len() && #[trigger] eb@[q].0.key_view() == k;
                assert(eb@[q].0@ == k);
            }
            if exists|q: int| 0 <= q < eb@.len() && #[trigger] eb@[q].0@ == k {
                let q = choose|q: int| 0 <= q < eb@.len() && #[trigger] eb@[q].0@ == k;
                assert(eb@[q].0.key_view() == k);
            }
        }
    }
    keys
}

/// Append, in ascending key order, `(a's level, b's level)` for every key
/// listed in `a` or `b` whose levels differ (an unlisted key resolves to its
/// map's default).
fn push_entry_changes(a: &OrdMap<String, i64>, ad: i64, b: &OrdMap<String, i64>, bd: i64, out: &mut Vec<(i64, i64)>)
    ensures
        exists|u: Seq<(i64, i64)>| #[trigger] changes_in_key_order(a@, ad, b@, bd, u) && final(out)@ == old(out)@ + u,
{
    let keys = union_keys(a, b);
    let ek = keys.entries();
    proof {
        keys.lemma_view();
    }
    let ghost start = out@;
    let ghost mut ks: Seq<Seq<char>> = Seq::empty();
    let mut i: usize = 0;
    proof {
        assert(out@ =~= start + key_level_pairs(a@, ad, b@, bd, ks));
    }
    while i < ek.len()
        invariant
            ek@ == keys.entry_seq(),
            keys@ == crate::stateres::collections::entries_map(ek@),
            crate::stateres::collections::keys_sorted(ek@),
            forall|k: Seq<char>| #[trigger] keys@.contains_key(k) <==> a@.contains_key(k) || b@.contains_key(k),
            i <= ek@.len(),
            out@ == start + key_level_pairs(a@, ad, b@, bd, ks),
            forall|x: int, y: int| 0 <= x < y < ks.len() ==> crate::bytes::str_lt(#[trigger] ks[x], #[trigger] ks[y]),
            forall|k: Seq<char>| #[trigger] ks.contains(k) <==> key_changed(a@, ad, b@, bd, k)
                && exists|p: int| 0 <= p < i && #[trigger] ek@[p].0@ == k,
        decreases ek@.len() - i,
    {
        let key = &ek[i].0;
        let ghost kv = key@;
        proof {
            crate::stateres::collections::lemma_entries_map_at(ek@, i as int);
        }
        let o = match a.get(key) {
            Some(v) => *v,
            None => ad,
        };
        let n = match b.get(key) {
            Some(v) => *v,
            None => bd,
        };
        proof {
            assert(o == level_at(a@, ad, kv));
            assert(n == level_at(b@, bd, kv));
            assert(a@.contains_key(kv) || b@.contains_key(kv));
            assert(!ks.contains(kv)) by {
                if ks.contains(kv) {
                    let p = choose|p: int| 0 <= p < i && #[trigger] ek@[p].0@ == kv;
                    crate::bytes::lemma_str_lt_order(kv, kv, kv);
                    assert(String::key_lt(ek@[p].0.key_view(), ek@[i as int].0.key_view()));
                }
            }
        }
        let ghost k0 = ks;
        if o != n {
            out.push((o, n));
            proof {
                ks = ks.push(kv);
                assert(key_level_pairs(a@, ad, b@, bd, ks) =~= key_level_pairs(a@, ad, b@, bd, k0).push((o, n)));
                assert forall|x: int, y: int| 0 <= x < y < ks.len() implies crate::bytes::str_lt(#[trigger] ks[x], #[trigger] ks[y]) by {
                    if y == ks.len() - 1 {
                        assert(k0.contains(ks[x]));
                        let p = choose|p: int| 0 <= p < i && #[trigger] ek@[p].0@ == ks[x];
                        assert(String::key_lt(ek@[p].0.key_view(), ek@[i as int].0.key_view()));
                    } else {
                        assert(ks[x] == k0[x] && ks[y] == k0[y]);
                    }
                }
            }
        }
        proof {
            assert forall|k: Seq<char>| #[trigger] ks.contains(k) <==> key_changed(a@, ad, b@, bd, k)
                && exists|p: int| 0 <= p < i + 1 && #[trigger] ek@[p].0@ == k by {
                if k == kv {
                    assert(ek@[i as int].0@ == k);
                    if o != n {
                        assert(ks.last() == k);
                    }
                } else {
                    if ks.contains(k) {
                        let x = choose|x: int| 0 <= x < ks.len() && ks[x] == k;
                        assert(k0[x] == k);
                    }
                    if k0.contains(k) {
                        let x = choose|x: int| 0 <= x < k0.len() && k0[x] == k;
                        assert(ks[x] == k);
                    }
                    if exists|p: int| 0 <= p < i + 1 && #[trigger] ek@[p].0@ == k {
                        let p = choose|p: int| 0 <= p < i + 1 && #[trigger] ek@[p].0@ == k;
                        assert(p < i);
                    }
                }
            }
        }
        i = i + 1;
    }
    proof {
        let u = key_level_pairs(a@, ad, b@, bd, ks);
        assert forall|k: Seq<char>| #[trigger] ks.contains(k) <==> key_changed(a@, ad, b@, bd, k) by {
            if key_changed(a@, ad, b@, bd, k) {
                assert(keys@.contains_key(k));
                let p = choose|p: int| 0 <= p < ek@.len() && #[trigger] ek@[p].0.key_view() == k;
                assert(ek@[p].0@ == k);
            }
        }
        assert(changes_in_key_order(a@, ad, b@, bd, u));
    }
}

/// Append `(a, b)` when the two levels differ.
fn push_scalar_change(a: i64, b: i64, out: &mut Vec<(i64, i64)>)
    ensures
        final(out)@ == old(out)@ + changed_pair(a, b),
{
    let ghost o0 = out@;
    if a != b {
        out.push((a, b));
        assert(out@ =~= o0 + changed_pair(a, b));
    } else {
        assert(out@ =~= o0 + changed_pair(a, b));
    }
}

/// The `(old, new)` value of every power level that differs between two
/// power-levels contents: first the scalar levels (users_default,
/// events_default, state_default, invite, kick, ban), then each per-user
/// entry in ascending user order, then each per-event entry in ascending
/// event-type order (an omitted entry resolves to its map's default).
fn level_changes(old: &PowerLevels, new: &PowerLevels) -> (r: Vec<(i64, i64)>)
    ensures
        exists|u: Seq<(i64, i64)>, e: Seq<(i64, i64)>|
            #![trigger changes_in_key_order(old.users@, old.users_default, new.users@, new.users_default, u),
                changes_in_key_order(old.events@, old.events_default, new.events@, new.events_default, e)]
            changes_in_key_order(old.users@, old.users_default, new.users@, new.users_default, u)
            && changes_in_key_order(old.events@, old.events_default, new.events@, new.events_default, e)
            && r@ == scalar_changes(Some(*old), Some(*new)) + u + e,
        forall|p: (i64, i64)| #[trigger] r@.contains(p) <==> is_level_change(Some(*old), Some(*new), p),
{
    let mut changes: Vec<(i64, i64)> = Vec::new();
    push_scalar_change(old.users_default, new.users_default, &mut changes);
    push_scalar_change(old.events_default, new.events_default, &mut changes);
    push_scalar_change(old.state_default, new.state_default, &mut changes);
    push_scalar_change(old.invite, new.invite, &mut changes);
    push_scalar_change(old.kick, new.kick, &mut changes);
    push_scalar_change(old.ban, new.ban, &mut changes);
    let ghost after_scalars = changes@;
    push_entry_changes(&old.users, old.users_default, &new.users, new.users_default, &mut changes);
    let ghost after_users = changes@;
    push_entry_changes(&old.events, old.events_default, &new.events, new.events_default, &mut changes);
    proof {
        let o = Some(*old);
        let n = Some(*new);
        let (ou, oud, nu, nud) = (old.users@, old.users_default, new.users@, new.users_default);
        let (oe, oed, ne, ned) = (old.events@, old.events_default, new.events@, new.events_default);
        assert(users_of(o) == ou && users_default_of(o) == oud && users_of(n) == nu && users_default_of(n) == nud);
        assert(events_of(o) == oe && events_default_of(o) == oed && events_of(n) == ne && events_default_of(n) == ned);
        let s = scalar_changes(o, n);
        assert(after_scalars =~= s);
        let u = choose|u: Seq<(i64, i64)>| #[trigger] changes_in_key_order(ou, oud, nu, nud, u) && after_users == after_scalars + u;
        let e = choose|e: Seq<(i64, i64)>| #[trigger] changes_in_key_order(oe, oed, ne, ned, e) && changes@ == after_users + e;
        assert(changes@ =~= s + u + e);
        lemma_ordered_changes_contain(ou, oud, nu, nud, u);
        lemma_ordered_changes_contain(oe, oed, ne, ned, e);
        assert forall|p: (i64, i64)| #[trigger] changes@.contains(p) <==> is_level_change(o, n, p) by {
            broadcast use vstd::seq_lib::lemma_seq_concat_contains_all_elements;
            let c1 = changed_pair(users_default_of(o), users_default_of(n));
            let c2 = changed_pair(events_default_of(o), events_default_of(n));
            let c3 = changed_pair(state_default_of(o), state_default_of(n));
            let c4 = changed_pair(invite_of(o), invite_of(n));
            let c5 = changed_pair(kick_of(o), kick_of(n));
            let c6 = changed_pair(ban_of(o), ban_of(n));
            assert(s == c1 + c2 + c3 + c4 + c5 + c6);
            lemma_changed_pair_contains(users_default_of(o), users_default_of(n), p);
            lemma_changed_pair_contains(events_default_of(o), events_default_of(n), p);
            lemma_changed_pair_contains(state_default_of(o), state_default_of(n), p);
            lemma_changed_pair_contains(invite_of(o), invite_of(n), p);
            lemma_changed_pair_contains(kick_of(o), kick_of(n), p);
            lemma_changed_pair_contains(ban_of(o), ban_of(n), p);
            assert(s.contains(p) <==> scalar_change(o, n, p));
            assert((s + u + e).contains(p) <==> (s.contains(p) || u.contains(p)) || e.contains(p));
        }
    }
    changes
}

/// Membership authorisation for `m.room.member` events: governs the
/// join/invite/leave/ban/knock transitions against the join rule, current
/// memberships, and the inviting/kicking/banning power levels, including the
/// room creator's bootstrap join and restricted joins vouched for by a
/// joined user with invite power. Non-member events are passed through.
pub struct MembershipRules;

impl AuthRules for MembershipRules {
    open spec fn authorizes(&self, event: Event, state: StateView, store: StoreView) -> bool {
        membership_authorizes(event, state, store)
    }

    fn is_authorized(&self, event: &Event, state: &StateMap, store: &EventStore) -> (r: bool) {
        if !str_eq(event.event_type(), "m.room.member") {
            return true;
        }
        let membership = match &event.membership {
            Some(m) => m.as_str(),
            None => {
                return false;
            },
        };
        let sender = event.sender();
        let target = event.state_key();
        let levels = current_power_levels(state, store);
        let sender_level = levels.for_user(sender);
        let sender_membership = membership_of(sender, state, store);
        let target_membership = membership_of(target, state, store);
        let sm = sender_membership.as_str();
        let tm = target_membership.as_str();
        if str_eq(membership, "join") {
            if !str_eq(sender, target) || str_eq(tm, "ban") {
                return false;
            }
            if is_bootstrap_join(event, state, store) {
                return true;
            }
            if str_eq(tm, "invite") || str_eq(tm, "join") {
                return true;
            }
            let rule = current_join_rule(state, store);
            if str_eq(rule.as_str(), "public") {
                true
            } else if str_eq(rule.as_str(), "restricted") || str_eq(rule.as_str(), "knock_restricted") {
                match &event.join_authorised_via_users_server {
                    Some(authoriser) => {
                        let authoriser_membership = membership_of(authoriser.as_str(), state, store);
                        str_eq(authoriser_membership.as_str(), "join") && levels.for_user(authoriser.as_str()) >= levels.invite
                    },
                    None => false,
                }
            } else {
                false
            }
        } else if str_eq(membership, "invite") {
            str_eq(sm, "join") && !(str_eq(tm, "join") || str_eq(tm, "ban")) && sender_level >= levels.invite
        } else if str_eq(membership, "leave") {
            if str_eq(sender, target) {
                str_eq(sm, "join") || str_eq(sm, "invite") || str_eq(sm, "knock")
            } else {
                str_eq(sm, "join") && sender_level >= levels.kick && sender_level > levels.for_user(target)
            }
        } else if str_eq(membership, "ban") {
            str_eq(sm, "join") && sender_level >= levels.ban && sender_level > levels.for_user(target)
        } else if str_eq(membership, "knock") {
            let rule = current_join_rule(state, store);
            str_eq(sender, target) && (str_eq(rule.as_str(), "knock") || str_eq(rule.as_str(), "knock_restricted"))
                && !(str_eq(tm, "join") || str_eq(tm, "ban"))
        } else {
            false
        }
    }
}

/// Authorise an event only if **every** contained rule authorises it.
pub struct AllOf<'rules, R: AuthRules>(pub &'rules [R]);

impl<'rules, R: AuthRules> AuthRules for AllOf<'rules, R> {
    open spec fn authorizes(&self, event: Event, state: StateView, store: StoreView) -> bool {
        forall|i: int| 0 <= i < self.0@.len() ==> #[trigger] self.0@[i].authorizes(event, state, store)
    }

    fn is_authorized(&self, event: &Event, state: &StateMap, store: &EventStore) -> (r: bool) {
        let mut i: usize = 0;
        while i < self.0.len()
            invariant
                i <= self.0@.len(),
                forall|j: int| 0 <= j < i ==> #[trigger] self.0@[j].authorizes(*event, state@, store@),
            decreases self.0@.len() - i,
        {
            if !self.0[i].is_authorized(event, state, store) {
                return false;
            }
            i = i + 1;
        }
        true
    }
}

/// One of the authorisation gates provided here, so that several can be
/// composed in one [`AllOf`].
pub enum Rule {
    /// [`CreateRules`].
    Create,
    /// [`PowerLevelRules`].
    PowerLevel,
    /// [`PowerLevelMutationRules`].
    PowerLevelMutation,
    /// [`MembershipRules`].
    Membership,
}

impl AuthRules for Rule {
    open spec fn authorizes(&self, event: Event, state: StateView, store: StoreView) -> bool {
        match self {
            Rule::Create => create_authorizes(event, state),
            Rule::PowerLevel => power_level_authorizes(event, state, store),
            Rule::PowerLevelMutation => mutation_authorizes(event, state, store),
            Rule::Membership => membership_authorizes(event, state, store),
        }
    }

    fn is_authorized(&self, event: &Event, state: &StateMap, store: &EventStore) -> (r: bool) {
        match self {
            Rule::Create => CreateRules.is_authorized(event, state, store),
            Rule::PowerLevel => PowerLevelRules.is_authorized(event, state, store),
            Rule::PowerLevelMutation => PowerLevelMutationRules.is_authorized(event, state, store),
            Rule::Membership => MembershipRules.is_authorized(event, state, store),
        }
    }
}

/// The room authorisation rules together: creation, power levels,
/// power-level changes and membership, each of which must authorise an event.
#[derive(Clone, Copy, Debug)]
pub struct RoomRules;

impl AuthRules for RoomRules {
    open spec fn authorizes(&self, event: Event, state: StateView, store: StoreView) -> bool {
        &&& create_authorizes(event, state)
        &&& power_level_authorizes(event, state, store)
        &&& mutation_authorizes(event, state, store)
        &&& membership_authorizes(event, state, store)
    }

    fn is_authorized(&self, event: &Event, state: &StateMap, store: &EventStore) -> (r: bool) {
        CreateRules.is_authorized(event, state, store)
            && PowerLevelRules.is_authorized(event, state, store)
            && PowerLevelMutationRules.is_authorized(event, state, store)
            && MembershipRules.is_authorized(event, state, store)
    }
}

/// The state after one step of the authorisation walk: the event `id`, when
/// the store has it and the rules authorise it, becomes the state at its
/// slot.
pub open spec fn auth_step<R: AuthRules>(rules: &R, state: StateView, id: Seq<char>, store: StoreView) -> StateView {
    if store.contains_key(id) && rules.authorizes(store[id], state, store) {
        state.insert(store[id].slot(), id)
    } else {
        state
    }
}

/// The state after walking `ids` in order from `base`.
pub open spec fn auth_fold<R: AuthRules>(rules: &R, ids: Seq<Seq<char>>, base: StateView, store: StoreView) -> StateView
    decreases ids.len(),
{
    if ids.len() == 0 {
        base
    } else {
        auth_step(rules, auth_fold(rules, ids.drop_last(), base, store), ids.last(), store)
    }
}

/// Walk `events` in resolution order, folding each authorised event into
/// `base` state and skipping the rest.
///
/// An event is accepted when `rules` authorise it against the state resolved
/// so far; on acceptance it becomes the state at its `(event_type,
/// state_key)` slot, so later events are checked against it. Events absent
/// from `store` are skipped.
pub fn iterative_auth_checks<R: AuthRules>(events: &[EventId], base: StateMap, store: &EventStore, rules: &R) -> (r: StateMap)
    ensures
        r@ == auth_fold(rules, ids_view(events@), base@, store@),
{
    let ghost ids = ids_view(events@);
    let mut state = base;
    let mut i: usize = 0;
    while i < events.len()
        invariant
            ids == ids_view(events@),
            i <= events@.len(),
            state@ == auth_fold(rules, ids.take(i as int), base@, store@),
        decreases events@.len() - i,
    {
        proof {
            assert(ids.take(i + 1).drop_last() =~= ids.take(i as int));
            assert(ids.take(i + 1).last() == events@[i as int]@);
        }
        match store.get(&events[i]) {
            Some(event) => {
                if rules.is_authorized(event, &state, store) {
                    let slot = (event.event_type.clone(), event.state_key.clone());
                    state.insert(slot, events[i].clone());
                }
            },
            None => {},
        }
        i = i + 1;
    }
    proof {
        assert(ids.take(events@.len() as int) =~= ids);
    }
    state
}

} // verus!
