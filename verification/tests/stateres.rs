//! Partitioning, the resolved-state cache, the orderings, the authorisation
//! rules and resolution.

use gaussmatrix::stateres::{
    auth_difference, conflicting_event_ids, iterative_auth_checks, mainline_ordering, partition,
    resolve, reverse_topological_power_sort, AllOf, AuthRules, CreateRules, Event, EventId,
    EventIdSet, EventStore, MembershipRules, OrdMap, PowerLevelMutationRules, PowerLevelRules,
    PowerLevels, ResolvedStateCache, Rule, StateKey, StateMap, RoomRules, power_chains_bounded,
};
use gaussmatrix::services::shadow::{referenced_event_ids, resolve_forks, shadow_report};

fn key(event_type: &str, state_key: &str) -> StateKey {
    (event_type.to_owned(), state_key.to_owned())
}

/// Build a state map from `(type, state_key, event_id)` triples.
fn state(triples: &[(&str, &str, &str)]) -> StateMap {
    let mut m = OrdMap::new();
    for (t, s, e) in triples {
        m.insert(key(t, s), (*e).to_owned());
    }
    m
}

fn id_set(ids: &[&str]) -> EventIdSet {
    let mut s = EventIdSet::new();
    for id in ids {
        s.insert((*id).to_owned());
    }
    s
}

fn ids(ids: &[&str]) -> Vec<EventId> {
    ids.iter().map(|s| (*s).to_owned()).collect()
}

/// An event carrying just the fields the ordering needs.
fn ordering_event(id: &str, power: i64, ts: u64, auth: &[&str]) -> Event {
    Event {
        event_id: id.to_owned(),
        event_type: "m.room.topic".to_owned(),
        state_key: String::new(),
        power_level: power,
        origin_server_ts: ts,
        auth_event_ids: ids(auth),
        sender: "@a:x".to_owned(),
        power_levels: None,
        membership: None,
        join_rule: None,
        join_authorised_via_users_server: None,
    }
}

/// A state event of `event_type` at `state_key`, sent by `sender`.
fn state_event(id: &str, event_type: &str, state_key: &str, sender: &str, ts: u64, auth: &[&str]) -> Event {
    Event {
        event_id: id.to_owned(),
        event_type: event_type.to_owned(),
        state_key: state_key.to_owned(),
        power_level: 0,
        origin_server_ts: ts,
        auth_event_ids: ids(auth),
        sender: sender.to_owned(),
        power_levels: None,
        membership: None,
        join_rule: None,
        join_authorised_via_users_server: None,
    }
}

fn member(id: &str, user: &str, sender: &str, membership: &str, auth: &[&str]) -> Event {
    let mut e = state_event(id, "m.room.member", user, sender, 1, auth);
    e.membership = Some(membership.to_owned());
    e
}

fn join_rules(id: &str, rule: &str) -> Event {
    let mut e = state_event(id, "m.room.join_rules", "", "@creator:x", 1, &[]);
    e.join_rule = Some(rule.to_owned());
    e
}

fn levels(users: &[(&str, i64)], invite: i64, kick: i64, ban: i64) -> PowerLevels {
    let mut pl = PowerLevels::default();
    for (u, l) in users {
        pl.users.insert((*u).to_owned(), *l);
    }
    pl.invite = invite;
    pl.kick = kick;
    pl.ban = ban;
    pl
}

fn power_levels_event(id: &str, sender: &str, pl: PowerLevels, auth: &[&str]) -> Event {
    let mut e = state_event(id, "m.room.power_levels", "", sender, 1, auth);
    e.power_levels = Some(pl);
    e
}

fn store_of(events: Vec<Event>) -> EventStore {
    let mut store = OrdMap::new();
    for e in events {
        store.insert(e.event_id.clone(), e);
    }
    store
}

fn value<'a>(m: &'a StateMap, t: &str, s: &str) -> Option<&'a str> {
    m.get(&key(t, s)).map(String::as_str)
}

#[test]
fn partition_all_agree_is_unconflicted() {
    let a = state(&[("m.room.name", "", "$n1"), ("m.room.topic", "", "$t1")]);
    let b = state(&[("m.room.name", "", "$n1"), ("m.room.topic", "", "$t1")]);
    let p = partition(&[a, b]);
    assert_eq!(p.unconflicted.len(), 2);
    assert!(p.conflicted.is_empty());
    assert_eq!(value(&p.unconflicted, "m.room.name", ""), Some("$n1"));
}

#[test]
fn partition_disagreement_is_conflicted() {
    let a = state(&[("m.room.name", "", "$n1")]);
    let b = state(&[("m.room.name", "", "$n2")]);
    let p = partition(&[a, b]);
    assert!(p.unconflicted.is_empty());
    assert_eq!(p.conflicted.len(), 1);
    assert_eq!(p.conflicted.get(&key("m.room.name", "")).unwrap().len(), 2);
}

#[test]
fn partition_absent_in_some_is_still_unconflicted() {
    // A slot present in only one map, with a single value, is not a conflict.
    let a = state(&[("m.room.name", "", "$n1"), ("m.room.topic", "", "$t1")]);
    let b = state(&[("m.room.name", "", "$n1")]);
    let p = partition(&[a, b]);
    assert!(p.conflicted.is_empty());
    assert_eq!(p.unconflicted.len(), 2);
}

#[test]
fn conflicting_event_ids_flattens_all_disputed_events() {
    let a = state(&[("m.room.name", "", "$n1"), ("m.room.topic", "", "$t1")]);
    let b = state(&[("m.room.name", "", "$n2"), ("m.room.topic", "", "$t2")]);
    let p = partition(&[a, b]);
    let found = conflicting_event_ids(&p.conflicted);
    assert_eq!(found.len(), 4);
    assert!(found.contains("$n1") && found.contains("$t2"));
}

#[test]
fn cache_insert_and_get() {
    let mut cache = ResolvedStateCache::new(4);
    let k = conflicting_event_ids(&partition(&[state(&[("a", "", "$1")]), state(&[("a", "", "$2")])]).conflicted);
    assert!(cache.get(&k).is_none());
    cache.insert(conflicting_event_ids(&partition(&[state(&[("a", "", "$1")]), state(&[("a", "", "$2")])]).conflicted), state(&[("a", "", "$1")]));
    assert_eq!(value(cache.get(&k).unwrap(), "a", ""), Some("$1"));
    assert_eq!(cache.len(), 1);
    assert!(!cache.is_empty());
}

#[test]
fn cache_evicts_least_recently_inserted_over_capacity() {
    let mut cache = ResolvedStateCache::new(2);
    let (a, b, c) = (id_set(&["$a"]), id_set(&["$b"]), id_set(&["$c"]));
    cache.insert(id_set(&["$a"]), StateMap::new());
    cache.insert(id_set(&["$b"]), StateMap::new());
    cache.insert(id_set(&["$c"]), StateMap::new());
    assert_eq!(cache.len(), 2);
    assert!(cache.get(&a).is_none(), "oldest entry should have been evicted");
    assert!(cache.get(&b).is_some());
    assert!(cache.get(&c).is_some());
}

#[test]
fn cache_zero_capacity_disables_caching() {
    let mut cache = ResolvedStateCache::new(0);
    let k = id_set(&["$x"]);
    cache.insert(id_set(&["$x"]), StateMap::new());
    assert!(cache.get(&k).is_none());
    assert!(cache.is_empty());
}

#[test]
fn cache_reinsert_refreshes_value_without_duplicate_slot() {
    let mut cache = ResolvedStateCache::new(8);
    let k = id_set(&["$x"]);
    cache.insert(id_set(&["$x"]), state(&[("a", "", "$old")]));
    cache.insert(id_set(&["$x"]), state(&[("a", "", "$new")]));
    assert_eq!(cache.len(), 1);
    assert_eq!(value(cache.get(&k).unwrap(), "a", ""), Some("$new"));
}

#[test]
fn cache_key_is_the_set_not_the_insertion_order() {
    let mut cache = ResolvedStateCache::new(4);
    cache.insert(id_set(&["$b", "$a"]), state(&[("a", "", "$1")]));
    assert!(cache.get(&id_set(&["$a", "$b"])).is_some());
    assert!(cache.get(&id_set(&["$a"])).is_none());
}

#[test]
fn cache_reinsert_keeps_eviction_slot() {
    let mut cache = ResolvedStateCache::new(2);
    cache.insert(id_set(&["$a"]), StateMap::new());
    cache.insert(id_set(&["$b"]), StateMap::new());
    // Refreshing the oldest entry does not make it the newest.
    cache.insert(id_set(&["$a"]), state(&[("a", "", "$1")]));
    cache.insert(id_set(&["$c"]), StateMap::new());
    assert!(cache.get(&id_set(&["$a"])).is_none());
    assert!(cache.get(&id_set(&["$b"])).is_some());
    assert!(cache.get(&id_set(&["$c"])).is_some());
}

#[test]
fn resolve_without_conflict_returns_unconflicted() {
    let a = state(&[("m.room.name", "", "$n1")]);
    let b = state(&[("m.room.name", "", "$n1")]);
    let mut cache = ResolvedStateCache::new(4);
    let store = store_of(vec![]);
    let resolved = resolve(&[a, b], &[], &store, &PowerLevelRules, &mut cache);
    assert_eq!(resolved.len(), 1);
    assert!(cache.is_empty(), "no conflict means nothing to memoise");
}

#[test]
fn resolve_orders_conflict_and_merges_with_unconflicted() {
    let a = state(&[("m.room.name", "", "$n1"), ("m.room.topic", "", "$shared")]);
    let b = state(&[("m.room.name", "", "$n2"), ("m.room.topic", "", "$shared")]);
    // $n1 is the later of the two, so it is applied last and wins the slot.
    let store = store_of(vec![
        state_event("$n1", "m.room.name", "", "@a:x", 2, &[]),
        state_event("$n2", "m.room.name", "", "@a:x", 1, &[]),
    ]);
    let mut cache = ResolvedStateCache::new(4);
    let resolved = resolve(&[a, b], &[], &store, &PowerLevelRules, &mut cache);

    // topic was unconflicted; name was resolved to $n1.
    assert_eq!(value(&resolved, "m.room.topic", ""), Some("$shared"));
    assert_eq!(value(&resolved, "m.room.name", ""), Some("$n1"));
    assert_eq!(cache.len(), 1);
}

#[test]
fn resolve_memoises_and_skips_reordering_on_cache_hit() {
    let a = state(&[("m.room.name", "", "$n1")]);
    let b = state(&[("m.room.name", "", "$n2")]);
    let store = store_of(vec![
        state_event("$n1", "m.room.name", "", "@a:x", 1, &[]),
        state_event("$n2", "m.room.name", "", "@a:x", 2, &[]),
    ]);
    let mut cache = ResolvedStateCache::new(4);

    let first = resolve(&[a, b], &[], &store, &PowerLevelRules, &mut cache);
    // Resolving afresh against an empty store would leave the name slot
    // unresolved; the cached resolution is used instead.
    let a = state(&[("m.room.name", "", "$n1")]);
    let b = state(&[("m.room.name", "", "$n2")]);
    let second = resolve(&[a, b], &[], &store_of(vec![]), &PowerLevelRules, &mut cache);

    assert_eq!(value(&first, "m.room.name", ""), Some("$n2"));
    assert_eq!(first, second, "resolution must run once; the second resolve hits the cache");
}

#[test]
fn auth_difference_is_union_minus_intersection() {
    let forks = [id_set(&["$a", "$b", "$c"]), id_set(&["$b", "$c", "$d"])];
    // $b and $c are shared; $a and $d differ.
    assert_eq!(auth_difference(&forks), id_set(&["$a", "$d"]));
}

#[test]
fn auth_difference_empty_when_all_agree() {
    let forks = [id_set(&["$a", "$b"]), id_set(&["$a", "$b"])];
    assert!(auth_difference(&forks).is_empty());
    assert!(auth_difference(&[]).is_empty());
}

#[test]
fn power_sort_orders_auth_events_before_dependents() {
    // $c authed by $b, $b authed by $a → topological order must be $a, $b, $c.
    let store = store_of(vec![
        ordering_event("$c", 100, 1, &["$b"]),
        ordering_event("$a", 100, 1, &[]),
        ordering_event("$b", 100, 1, &["$a"]),
    ]);
    assert_eq!(reverse_topological_power_sort(&ids(&["$c", "$a", "$b"]), &store), vec!["$a", "$b", "$c"]);
}

#[test]
fn power_sort_breaks_ties_by_power_then_ts_then_id() {
    // Four independent events (no auth deps among them).
    let store = store_of(vec![
        // lower power, should come last among these
        ordering_event("$low", 10, 5, &[]),
        // highest power, comes first
        ordering_event("$high", 100, 9, &[]),
        // mid power, two with equal power broken by ts then id
        ordering_event("$mid_late", 50, 20, &[]),
        ordering_event("$mid_early", 50, 10, &[]),
    ]);
    // highest power first; equal-power pair ordered by earlier ts; lowest last.
    assert_eq!(
        reverse_topological_power_sort(&ids(&["$low", "$high", "$mid_late", "$mid_early"]), &store),
        vec!["$high", "$mid_early", "$mid_late", "$low"]
    );
}

#[test]
fn power_sort_ignores_auth_events_outside_the_set() {
    // $a's auth event $external is not in the set and must not block emission.
    let store = store_of(vec![ordering_event("$a", 50, 1, &["$external"])]);
    assert_eq!(reverse_topological_power_sort(&ids(&["$a"]), &store), vec!["$a"]);
}

#[test]
fn power_sort_equal_keys_broken_by_event_id() {
    let store = store_of(vec![ordering_event("$b", 50, 10, &[]), ordering_event("$a", 50, 10, &[])]);
    // Identical power and ts → smaller id first.
    assert_eq!(reverse_topological_power_sort(&ids(&["$b", "$a"]), &store), vec!["$a", "$b"]);
}

#[test]
fn power_sort_skips_ids_missing_from_the_store() {
    let store = store_of(vec![ordering_event("$a", 50, 1, &[])]);
    assert_eq!(reverse_topological_power_sort(&ids(&["$missing", "$a"]), &store), vec!["$a"]);
}

#[test]
fn power_sort_leaves_out_an_auth_cycle() {
    let store = store_of(vec![
        ordering_event("$x", 50, 1, &["$y"]),
        ordering_event("$y", 50, 1, &["$x"]),
        ordering_event("$free", 10, 1, &[]),
    ]);
    assert_eq!(reverse_topological_power_sort(&ids(&["$x", "$y", "$free"]), &store), vec!["$free"]);
}

#[test]
fn power_sort_lists_a_repeated_id_once() {
    let store = store_of(vec![ordering_event("$a", 50, 1, &[]), ordering_event("$b", 60, 1, &[])]);
    assert_eq!(reverse_topological_power_sort(&ids(&["$a", "$b", "$a"]), &store), vec!["$b", "$a"]);
}

#[test]
fn mainline_orders_by_depth_then_ts_then_id() {
    // Mainline: $pl2 → $pl1 (root). $late hangs off $pl2 (depth 1); $early
    // and $tie hang off $pl1 (depth 0).
    let store = store_of(vec![
        power_levels_event("$pl1", "@a:x", PowerLevels::default(), &[]),
        power_levels_event("$pl2", "@a:x", PowerLevels::default(), &["$pl1"]),
        state_event("$late", "m.room.topic", "", "@a:x", 1, &["$pl2"]),
        state_event("$early", "m.room.topic", "", "@a:x", 5, &["$pl1"]),
        state_event("$tie_b", "m.room.name", "", "@a:x", 7, &["$pl1"]),
        state_event("$tie_a", "m.room.name", "", "@a:x", 7, &["$pl1"]),
    ]);
    let ordered = mainline_ordering(Some("$pl2"), &ids(&["$late", "$tie_b", "$early", "$tie_a"]), &store);
    assert_eq!(ordered, vec!["$early", "$tie_a", "$tie_b", "$late"]);
}

#[test]
fn mainline_without_power_levels_orders_by_ts() {
    let store = store_of(vec![
        state_event("$one", "m.room.topic", "", "@a:x", 3, &[]),
        state_event("$two", "m.room.topic", "", "@a:x", 1, &[]),
    ]);
    assert_eq!(mainline_ordering(None, &ids(&["$one", "$two", "$absent"]), &store), vec!["$absent", "$two", "$one"]);
}

#[test]
fn iterative_auth_checks_folds_authorised_events_in_order() {
    let store = store_of(vec![
        state_event("$create", "m.room.create", "", "@creator:x", 1, &[]),
        state_event("$topic", "m.room.topic", "", "@creator:x", 2, &["$create"]),
    ]);
    // Without a create event the topic is refused; after it, accepted.
    let refused = iterative_auth_checks(&ids(&["$topic"]), StateMap::new(), &store, &CreateRules);
    assert!(refused.is_empty());
    let accepted = iterative_auth_checks(&ids(&["$missing", "$create", "$topic"]), StateMap::new(), &store, &CreateRules);
    assert_eq!(value(&accepted, "m.room.create", ""), Some("$create"));
    assert_eq!(value(&accepted, "m.room.topic", ""), Some("$topic"));
    assert_eq!(accepted.len(), 2);
}

#[test]
fn create_rules_root_and_dependents() {
    let create = state_event("$create", "m.room.create", "", "@creator:x", 1, &[]);
    let with_auth = state_event("$create2", "m.room.create", "", "@creator:x", 1, &["$x"]);
    let store = store_of(vec![]);
    assert!(CreateRules.is_authorized(&create, &StateMap::new(), &store));
    assert!(!CreateRules.is_authorized(&with_auth, &StateMap::new(), &store));
    let topic = state_event("$t", "m.room.topic", "", "@creator:x", 1, &[]);
    assert!(!CreateRules.is_authorized(&topic, &StateMap::new(), &store));
    assert!(CreateRules.is_authorized(&topic, &state(&[("m.room.create", "", "$create")]), &store));
}

#[test]
fn power_level_rules_compare_sender_and_required_levels() {
    let mut pl = levels(&[("@mod:x", 50)], 0, 50, 50);
    pl.state_default = 50;
    pl.events.insert("m.room.topic".to_owned(), 10);
    let store = store_of(vec![power_levels_event("$pl", "@mod:x", pl, &[])]);
    let st = state(&[("m.room.power_levels", "", "$pl")]);
    let name_by_mod = state_event("$n", "m.room.name", "", "@mod:x", 1, &[]);
    let name_by_user = state_event("$n", "m.room.name", "", "@user:x", 1, &[]);
    let topic_by_user = state_event("$t", "m.room.topic", "", "@user:x", 1, &[]);
    assert!(PowerLevelRules.is_authorized(&name_by_mod, &st, &store));
    assert!(!PowerLevelRules.is_authorized(&name_by_user, &st, &store));
    // Without a power-levels event everything is authorised.
    assert!(PowerLevelRules.is_authorized(&name_by_user, &StateMap::new(), &store));
    // A user at level 0 cannot send a topic that requires 10.
    assert!(!PowerLevelRules.is_authorized(&topic_by_user, &st, &store));
}

#[test]
fn power_level_mutation_blocks_escalation() {
    let old = levels(&[("@admin:x", 100), ("@mod:x", 50)], 0, 50, 50);
    let store = store_of(vec![power_levels_event("$pl", "@admin:x", old, &[])]);
    let st = state(&[("m.room.power_levels", "", "$pl")]);
    // The moderator may raise a user up to their own level...
    let up_to_own = power_levels_event("$pl2", "@mod:x", levels(&[("@admin:x", 100), ("@mod:x", 50), ("@u:x", 50)], 0, 50, 50), &[]);
    assert!(PowerLevelMutationRules.is_authorized(&up_to_own, &st, &store));
    // ...but not above it,
    let beyond = power_levels_event("$pl3", "@mod:x", levels(&[("@admin:x", 100), ("@mod:x", 50), ("@u:x", 51)], 0, 50, 50), &[]);
    assert!(!PowerLevelMutationRules.is_authorized(&beyond, &st, &store));
    // nor change a level already above their own.
    let demote_admin = power_levels_event("$pl4", "@mod:x", levels(&[("@admin:x", 0), ("@mod:x", 50)], 0, 50, 50), &[]);
    assert!(!PowerLevelMutationRules.is_authorized(&demote_admin, &st, &store));
    // A power-levels event without content is refused; other events pass.
    let empty = state_event("$pl5", "m.room.power_levels", "", "@admin:x", 1, &[]);
    assert!(!PowerLevelMutationRules.is_authorized(&empty, &st, &store));
    let topic = state_event("$t", "m.room.topic", "", "@u:x", 1, &[]);
    assert!(PowerLevelMutationRules.is_authorized(&topic, &st, &store));
}

#[test]
fn membership_join_follows_the_join_rule() {
    let store = store_of(vec![
        join_rules("$public", "public"),
        join_rules("$invite", "invite"),
        member("$banned", "@b:x", "@mod:x", "ban", &[]),
    ]);
    let join = member("$j", "@u:x", "@u:x", "join", &[]);
    assert!(MembershipRules.is_authorized(&join, &state(&[("m.room.join_rules", "", "$public")]), &store));
    assert!(!MembershipRules.is_authorized(&join, &state(&[("m.room.join_rules", "", "$invite")]), &store));
    // The default join rule is invite.
    assert!(!MembershipRules.is_authorized(&join, &StateMap::new(), &store));
    // Nobody joins on someone else's behalf, and a banned user cannot join.
    let other = member("$j2", "@u:x", "@v:x", "join", &[]);
    assert!(!MembershipRules.is_authorized(&other, &state(&[("m.room.join_rules", "", "$public")]), &store));
    let banned = member("$j3", "@b:x", "@b:x", "join", &[]);
    let st = state(&[("m.room.join_rules", "", "$public"), ("m.room.member", "@b:x", "$banned")]);
    assert!(!MembershipRules.is_authorized(&banned, &st, &store));
}

#[test]
fn membership_bootstrap_join_of_the_creator() {
    let store = store_of(vec![state_event("$create", "m.room.create", "", "@creator:x", 1, &[])]);
    let st = state(&[("m.room.create", "", "$create")]);
    let join = member("$j", "@creator:x", "@creator:x", "join", &["$create"]);
    assert!(MembershipRules.is_authorized(&join, &st, &store));
    let stranger = member("$j2", "@u:x", "@u:x", "join", &["$create"]);
    assert!(!MembershipRules.is_authorized(&stranger, &st, &store));
}

#[test]
fn membership_invite_kick_ban_and_knock() {
    let store = store_of(vec![
        power_levels_event("$pl", "@mod:x", levels(&[("@mod:x", 50)], 50, 50, 50), &[]),
        member("$mod_in", "@mod:x", "@mod:x", "join", &[]),
        member("$u_in", "@u:x", "@u:x", "join", &[]),
        join_rules("$knock", "knock"),
    ]);
    let st = state(&[
        ("m.room.power_levels", "", "$pl"),
        ("m.room.member", "@mod:x", "$mod_in"),
        ("m.room.member", "@u:x", "$u_in"),
        ("m.room.join_rules", "", "$knock"),
    ]);
    let invite = member("$i", "@v:x", "@mod:x", "invite", &[]);
    assert!(MembershipRules.is_authorized(&invite, &st, &store));
    let invite_by_user = member("$i2", "@v:x", "@u:x", "invite", &[]);
    assert!(!MembershipRules.is_authorized(&invite_by_user, &st, &store));
    let kick = member("$k", "@u:x", "@mod:x", "leave", &[]);
    assert!(MembershipRules.is_authorized(&kick, &st, &store));
    let kick_mod = member("$k2", "@mod:x", "@u:x", "leave", &[]);
    assert!(!MembershipRules.is_authorized(&kick_mod, &st, &store));
    let leave = member("$l", "@u:x", "@u:x", "leave", &[]);
    assert!(MembershipRules.is_authorized(&leave, &st, &store));
    let ban = member("$b", "@u:x", "@mod:x", "ban", &[]);
    assert!(MembershipRules.is_authorized(&ban, &st, &store));
    let knock = member("$kn", "@v:x", "@v:x", "knock", &[]);
    assert!(MembershipRules.is_authorized(&knock, &st, &store));
    let unknown = member("$x", "@v:x", "@v:x", "dance", &[]);
    assert!(!MembershipRules.is_authorized(&unknown, &st, &store));
}

#[test]
fn membership_restricted_join_needs_a_joined_authoriser_with_invite_power() {
    let store = store_of(vec![
        power_levels_event("$pl", "@mod:x", levels(&[("@mod:x", 50)], 50, 50, 50), &[]),
        member("$mod_in", "@mod:x", "@mod:x", "join", &[]),
        join_rules("$restricted", "restricted"),
    ]);
    let st = state(&[
        ("m.room.power_levels", "", "$pl"),
        ("m.room.member", "@mod:x", "$mod_in"),
        ("m.room.join_rules", "", "$restricted"),
    ]);
    let mut vouched = member("$j", "@u:x", "@u:x", "join", &[]);
    vouched.join_authorised_via_users_server = Some("@mod:x".to_owned());
    assert!(MembershipRules.is_authorized(&vouched, &st, &store));
    let mut weak = member("$j2", "@u:x", "@u:x", "join", &[]);
    weak.join_authorised_via_users_server = Some("@nobody:x".to_owned());
    assert!(!MembershipRules.is_authorized(&weak, &st, &store));
    let unvouched = member("$j3", "@u:x", "@u:x", "join", &[]);
    assert!(!MembershipRules.is_authorized(&unvouched, &st, &store));
}

#[test]
fn all_of_requires_every_rule() {
    let store = store_of(vec![]);
    let topic = state_event("$t", "m.room.topic", "", "@u:x", 1, &[]);
    let rules = [Rule::Create, Rule::PowerLevel, Rule::PowerLevelMutation, Rule::Membership];
    // The topic passes every gate but creation.
    assert!(!AllOf(&rules).is_authorized(&topic, &StateMap::new(), &store));
    assert!(AllOf(&rules).is_authorized(&topic, &state(&[("m.room.create", "", "$c")]), &store));
    assert!(AllOf::<Rule>(&[]).is_authorized(&topic, &StateMap::new(), &store));
}

#[test]
fn resolve_runs_both_passes_with_the_room_rules() {
    // Two forks disagree on the power levels and on the topic. The first pass
    // resolves the power levels; the second replays the topics against them.
    let pl_a = levels(&[("@admin:x", 100)], 0, 50, 50);
    let mut pl_b = levels(&[("@admin:x", 100), ("@u:x", 50)], 0, 50, 50);
    pl_b.events.insert("m.room.topic".to_owned(), 50);
    let store = store_of(vec![
        state_event("$create", "m.room.create", "", "@admin:x", 1, &[]),
        power_levels_event("$pl_a", "@admin:x", pl_a, &["$create"]),
        power_levels_event("$pl_b", "@admin:x", pl_b, &["$create", "$pl_a"]),
        state_event("$topic_u", "m.room.topic", "", "@u:x", 5, &["$create", "$pl_b"]),
        state_event("$topic_v", "m.room.topic", "", "@v:x", 6, &["$create", "$pl_b"]),
    ]);
    let fork_a = state(&[("m.room.create", "", "$create"), ("m.room.power_levels", "", "$pl_a"), ("m.room.topic", "", "$topic_v")]);
    let fork_b = state(&[("m.room.create", "", "$create"), ("m.room.power_levels", "", "$pl_b"), ("m.room.topic", "", "$topic_u")]);
    let rules = [Rule::Create, Rule::PowerLevel, Rule::Membership];
    let mut cache = ResolvedStateCache::new(4);
    let resolved = resolve(&[fork_a, fork_b], &[id_set(&["$create", "$pl_a"]), id_set(&["$create", "$pl_a", "$pl_b"])], &store, &AllOf(&rules), &mut cache);
    assert_eq!(value(&resolved, "m.room.create", ""), Some("$create"));
    assert_eq!(value(&resolved, "m.room.power_levels", ""), Some("$pl_b"));
    // @v is below the topic level $pl_b requires; @u meets it.
    assert_eq!(value(&resolved, "m.room.topic", ""), Some("$topic_u"));
    assert_eq!(cache.len(), 1);
}

/// A room with a creator holding power level 100 and two competing names.
fn named_room() -> EventStore {
    let mut pl = levels(&[("@a:x", 100)], 0, 50, 50);
    pl.state_default = 50;
    store_of(vec![
        state_event("$c", "m.room.create", "", "@a:x", 0, &[]),
        power_levels_event("$pl", "@a:x", pl, &["$c"]),
        state_event("$n1", "m.room.name", "", "@a:x", 2, &["$c", "$pl"]),
        state_event("$n2", "m.room.name", "", "@a:x", 1, &["$c", "$pl"]),
    ])
}

#[test]
fn fork_resolution_uses_the_room_rules() {
    let store = named_room();
    let a = state(&[("m.room.create", "", "$c"), ("m.room.power_levels", "", "$pl"), ("m.room.name", "", "$n1")]);
    let b = state(&[("m.room.create", "", "$c"), ("m.room.power_levels", "", "$pl"), ("m.room.name", "", "$n2")]);
    assert!(power_chains_bounded(&store));
    let resolved = resolve_forks(&[a, b], &[], &store);
    assert_eq!(value(&resolved, "m.room.name", ""), Some("$n1"));
    assert_eq!(value(&resolved, "m.room.create", ""), Some("$c"));
    assert_eq!(resolved.len(), 3);
}

#[test]
fn fork_resolution_refuses_an_unauthorised_name() {
    let mut store = named_room();
    store.insert("$n3".to_owned(), state_event("$n3", "m.room.name", "", "@nobody:x", 3, &["$c", "$pl"]));
    let a = state(&[("m.room.create", "", "$c"), ("m.room.power_levels", "", "$pl"), ("m.room.name", "", "$n2")]);
    let b = state(&[("m.room.create", "", "$c"), ("m.room.power_levels", "", "$pl"), ("m.room.name", "", "$n3")]);
    let resolved = resolve_forks(&[a, b], &[], &store);
    assert_eq!(value(&resolved, "m.room.name", ""), Some("$n2"));
}

#[test]
fn room_rules_combine_every_rule() {
    let store = named_room();
    let base = state(&[("m.room.create", "", "$c"), ("m.room.power_levels", "", "$pl")]);
    let ok = state_event("$n", "m.room.name", "", "@a:x", 5, &["$c", "$pl"]);
    let weak = state_event("$w", "m.room.name", "", "@b:x", 5, &["$c", "$pl"]);
    assert!(RoomRules.is_authorized(&ok, &base, &store));
    assert!(!RoomRules.is_authorized(&weak, &base, &store));
    assert!(!RoomRules.is_authorized(&ok, &state(&[]), &store));
}

#[test]
fn power_chain_cycles_are_detected() {
    let cyclic = store_of(vec![
        power_levels_event("$p1", "@a:x", PowerLevels::default(), &["$p2"]),
        power_levels_event("$p2", "@a:x", PowerLevels::default(), &["$p1"]),
    ]);
    assert!(!power_chains_bounded(&cyclic));
    assert!(power_chains_bounded(&named_room()));
    assert!(power_chains_bounded(&store_of(vec![])));
}

#[test]
fn referenced_events_span_forks_and_chains() {
    let a = state(&[("m.room.create", "", "$c"), ("m.room.name", "", "$n1")]);
    let b = state(&[("m.room.name", "", "$n2")]);
    let referenced = referenced_event_ids(&[a, b], &[id_set(&["$c", "$pl"]), id_set(&["$x"])]);
    assert_eq!(referenced.to_vec(), ids(&["$c", "$n1", "$n2", "$pl", "$x"]));
}

#[test]
fn shadow_report_samples_divergences() {
    let mut expected = OrdMap::new();
    let mut shadow = OrdMap::new();
    for i in 0..10 {
        expected.insert(key("m.room.member", &format!("@u{i}:x")), format!("$e{i}"));
        shadow.insert(key("m.room.member", &format!("@u{i}:x")), format!("$s{i}"));
    }
    expected.insert(key("m.room.create", ""), "$c".to_owned());
    shadow.insert(key("m.room.create", ""), "$c".to_owned());
    let report = shadow_report(&expected, &shadow);
    assert_eq!((report.authoritative_keys, report.shadow_keys), (11, 11));
    assert_eq!(report.divergences.len(), 10);
    assert_eq!(report.sample.len(), 8);
    assert_eq!(report.sample[0], key("m.room.member", "@u0:x"));

    let agree = shadow_report(&expected, &expected.copy());
    assert!(agree.divergences.is_empty() && agree.sample.is_empty());
}

#[test]
fn cache_len_is_capacity_or_distinct_keys() {
    let mut roomy = ResolvedStateCache::new(5);
    roomy.insert(id_set(&["$a"]), StateMap::new());
    roomy.insert(id_set(&["$b"]), StateMap::new());
    roomy.insert(id_set(&["$a"]), StateMap::new());
    assert_eq!(roomy.len(), 2);

    let mut tight = ResolvedStateCache::new(2);
    for k in ["$a", "$b", "$c", "$a", "$d"] {
        tight.insert(id_set(&[k]), StateMap::new());
    }
    assert_eq!(tight.len(), 2);
}
