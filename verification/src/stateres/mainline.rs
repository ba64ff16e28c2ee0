//! Mainline ordering: the order in which the non-control conflicted events
//! are replayed, anchored on the chain of power-levels events behind the
//! resolved power-levels event.

use vstd::prelude::*;

use crate::bytes::{compare_str, lemma_str_lt_order, str_eq, str_lt};
use crate::stateres::auth::{power_levels_type, StoreView};
use crate::stateres::collections::{entries_map, key_index, keys_sorted, lemma_entries_map_at, lemma_entries_map_dom, OrdMap};
use crate::stateres::event::{ids_view, EventId};
use crate::stateres::state_map::EventStore;

verus! {

/// Whether the store holds `a` as a power-levels event.
pub open spec fn is_power_levels(store: StoreView, a: Seq<char>) -> bool {
    store.contains_key(a) && store[a].event_type@ == power_levels_type()
}

/// Whether position `j` of `auth` is the first power-levels event in it.
pub open spec fn first_power_levels_at(store: StoreView, auth: Seq<Seq<char>>, j: int) -> bool {
    &&& 0 <= j < auth.len()
    &&& is_power_levels(store, auth[j])
    &&& forall|k: int| 0 <= k < j ==> !is_power_levels(store, #[trigger] auth[k])
}

/// The power-levels event among `id`'s auth events (the first listed), if
/// the store has `id` and there is one.
pub open spec fn pl_parent(store: StoreView, id: Seq<char>) -> Option<Seq<char>> {
    if store.contains_key(id) && exists|j: int| first_power_levels_at(store, store[id].auth_ids(), j) {
        let j = choose|j: int| first_power_levels_at(store, store[id].auth_ids(), j);
        Some(store[id].auth_ids()[j])
    } else {
        None
    }
}

/// Where `k` steps of following power-levels auth events lead from `start`.
pub open spec fn walk(store: StoreView, start: Option<Seq<char>>, k: nat) -> Option<Seq<char>>
    decreases k,
{
    if k == 0 {
        start
    } else {
        match walk(store, start, (k - 1) as nat) {
            Some(x) => pl_parent(store, x),
            None => None,
        }
    }
}

/// Whether following power-levels auth events from `start` comes to an end.
pub open spec fn chain_ends(store: StoreView, start: Option<Seq<char>>) -> bool {
    exists|k: nat| #[trigger] walk(store, start, k) == None::<Seq<char>>
}

/// A number of steps after which the walk from `start` has ended.
pub open spec fn chain_bound(store: StoreView, start: Option<Seq<char>>) -> nat {
    choose|k: nat| #[trigger] walk(store, start, k) == None::<Seq<char>>
}

/// Whether the walk from `start` ends after exactly `n` events.
pub open spec fn is_chain_len(store: StoreView, start: Option<Seq<char>>, n: nat) -> bool {
    &&& walk(store, start, n) == None::<Seq<char>>
    &&& forall|j: nat| j < n ==> #[trigger] walk(store, start, j) != None::<Seq<char>>
}

/// The number of events on the mainline from `start`.
pub open spec fn mainline_len(store: StoreView, start: Option<Seq<char>>) -> nat {
    choose|n: nat| is_chain_len(store, start, n)
}

/// Whether `x` is on the mainline from `start`.
pub open spec fn on_mainline(store: StoreView, start: Option<Seq<char>>, x: Seq<char>) -> bool {
    exists|j: nat| #[trigger] walk(store, start, j) == Some(x)
}

/// Whether the walk from `start` first meets `x` after `j` steps.
pub open spec fn is_first_visit(store: StoreView, start: Option<Seq<char>>, x: Seq<char>, j: nat) -> bool {
    &&& walk(store, start, j) == Some(x)
    &&& forall|i: nat| i < j ==> #[trigger] walk(store, start, i) != Some(x)
}

/// The position of `x` on the mainline from `start`, counting from the
/// mainline root (0) toward `start`.
pub open spec fn mainline_position(store: StoreView, start: Option<Seq<char>>, x: Seq<char>) -> int {
    mainline_len(store, start) - 1 - (choose|j: nat| is_first_visit(store, start, x, j))
}

/// Whether the walk from `id` stops after `k` steps: it has ended, or met
/// the mainline from `start`.
pub open spec fn depth_stop(store: StoreView, start: Option<Seq<char>>, id: Seq<char>, k: nat) -> bool {
    match walk(store, Some(id), k) {
        Some(y) => on_mainline(store, start, y),
        None => true,
    }
}

/// Whether the walk from `id` first stops after `k` steps.
pub open spec fn is_first_stop(store: StoreView, start: Option<Seq<char>>, id: Seq<char>, k: nat) -> bool {
    &&& depth_stop(store, start, id, k)
    &&& forall|i: nat| i < k ==> !#[trigger] depth_stop(store, start, id, i)
}

/// The mainline depth of `id`: the mainline position of the closest
/// power-levels event reachable by following power-levels auth events, or
/// zero if none is on the mainline.
pub open spec fn mainline_depth(store: StoreView, start: Option<Seq<char>>, id: Seq<char>) -> int {
    let k = choose|k: nat| is_first_stop(store, start, id, k);
    match walk(store, Some(id), k) {
        Some(y) => mainline_position(store, start, y),
        None => 0,
    }
}

/// The `origin_server_ts` of `id`, zero when the store lacks it.
pub open spec fn ts_of(store: StoreView, id: Seq<char>) -> u64 {
    if store.contains_key(id) {
        store[id].origin_server_ts
    } else {
        0
    }
}

/// The sort key of `id` in the mainline ordering.
pub open spec fn mainline_key(store: StoreView, start: Option<Seq<char>>, id: Seq<char>) -> (int, int, Seq<char>) {
    (mainline_depth(store, start, id), ts_of(store, id) as int, id)
}

/// The lexicographic order on sort keys.
pub open spec fn key_lt(a: (int, int, Seq<char>), b: (int, int, Seq<char>)) -> bool {
    ||| a.0 < b.0
    ||| a.0 == b.0 && a.1 < b.1
    ||| a.0 == b.0 && a.1 == b.1 && str_lt(a.2, b.2)
}

/// The view of an optional string.
pub open spec fn opt_view(o: Option<&str>) -> Option<Seq<char>> {
    match o {
        Some(s) => Some(s@),
        None => None,
    }
}

/// The view of an optional owned string.
pub open spec fn owned_opt_view(o: Option<String>) -> Option<Seq<char>> {
    match o {
        Some(s) => Some(s@),
        None => None,
    }
}

/// `key_lt` is a strict order.
pub proof fn lemma_key_lt_order(a: (int, int, Seq<char>), b: (int, int, Seq<char>), c: (int, int, Seq<char>))
    ensures
        !key_lt(a, a),
        key_lt(a, b) ==> !key_lt(b, a),
        key_lt(a, b) && key_lt(b, c) ==> key_lt(a, c),
        a.2 != b.2 ==> key_lt(a, b) || key_lt(b, a),
{
    lemma_str_lt_order(a.2, b.2, c.2);
    lemma_str_lt_order(b.2, a.2, c.2);
}

/// Once the walk has ended, it stays ended.
pub proof fn lemma_walk_ended(store: StoreView, start: Option<Seq<char>>, k1: nat, k2: nat)
    requires
        walk(store, start, k1) == None::<Seq<char>>,
        k1 <= k2,
    ensures
        walk(store, start, k2) == None::<Seq<char>>,
    decreases k2,
{
    if k2 > k1 {
        lemma_walk_ended(store, start, k1, (k2 - 1) as nat);
    }
}

/// Whether `r` is in ascending mainline order.
pub open spec fn sorted_by_mainline(store: StoreView, start: Option<Seq<char>>, r: Seq<Seq<char>>) -> bool {
    forall|i: int, j: int| 0 <= i < j < r.len() ==> !key_lt(mainline_key(store, start, #[trigger] r[j]), mainline_key(store, start, #[trigger] r[i]))
}

/// `ids` in ascending mainline order.
pub open spec fn mainline_order(store: StoreView, start: Option<Seq<char>>, ids: Seq<Seq<char>>) -> Seq<Seq<char>> {
    choose|r: Seq<Seq<char>>| r.to_multiset() == ids.to_multiset() && sorted_by_mainline(store, start, r)
}

/// There is one arrangement of a collection of identifiers in mainline
/// order.
pub proof fn lemma_mainline_order_unique(store: StoreView, start: Option<Seq<char>>, a: Seq<Seq<char>>, b: Seq<Seq<char>>)
    requires
        a.to_multiset() == b.to_multiset(),
        sorted_by_mainline(store, start, a),
        sorted_by_mainline(store, start, b),
    ensures
        a == b,
    decreases a.len(),
{
    broadcast use vstd::seq_lib::group_to_multiset_ensures;
    assert(a.to_multiset().len() == a.len());
    assert(b.to_multiset().len() == b.len());
    if a.len() == 0 {
        assert(b.len() == 0);
        assert(a =~= b);
    } else {
        assert(b.len() == a.len());
        assert(a.to_multiset().count(a[0]) > 0);
        assert(b.contains(a[0]));
        assert(b.to_multiset().count(b[0]) > 0);
        assert(a.contains(b[0]));
        let j = choose|j: int| 0 <= j < b.len() && b[j] == a[0];
        let i = choose|i: int| 0 <= i < a.len() && a[i] == b[0];
        let ka = mainline_key(store, start, a[0]);
        let kb = mainline_key(store, start, b[0]);
        lemma_key_lt_order(ka, kb, ka);
        if a[0] != b[0] {
            if i > 0 {
                assert(!key_lt(mainline_key(store, start, a[i]), mainline_key(store, start, a[0])));
            }
            if j > 0 {
                assert(!key_lt(mainline_key(store, start, b[j]), mainline_key(store, start, b[0])));
            }
        }
        assert(a[0] == b[0]);
        assert(a.remove(0) =~= a.drop_first());
        assert(b.remove(0) =~= b.drop_first());
        let a1 = a.drop_first();
        let b1 = b.drop_first();
        assert(a1.to_multiset() == a.to_multiset().remove(a[0]));
        assert(b1.to_multiset() == b.to_multiset().remove(b[0]));
        assert forall|x: int, y: int| 0 <= x < y < a1.len() implies !key_lt(mainline_key(store, start, #[trigger] a1[y]), mainline_key(store, start, #[trigger] a1[x])) by {
            assert(a1[y] == a[y + 1] && a1[x] == a[x + 1]);
        }
        assert forall|x: int, y: int| 0 <= x < y < b1.len() implies !key_lt(mainline_key(store, start, #[trigger] b1[y]), mainline_key(store, start, #[trigger] b1[x])) by {
            assert(b1[y] == b[y + 1] && b1[x] == b[x + 1]);
        }
        lemma_mainline_order_unique(store, start, a1, b1);
        assert forall|x: int| 0 <= x < a.len() implies a[x] == b[x] by {
            if x > 0 {
                assert(a[x] == a1[x - 1] && b[x] == b1[x - 1]);
            }
        }
        assert(a =~= b);
    }
}

/// The power-levels parent of an event is an event of the store.
proof fn lemma_parent_in_store(store: StoreView, id: Seq<char>)
    ensures
        pl_parent(store, id) matches Some(y) ==> store.contains_key(y),
{
    if store.contains_key(id) && exists|j: int| first_power_levels_at(store, store[id].auth_ids(), j) {
        let j = choose|j: int| first_power_levels_at(store, store[id].auth_ids(), j);
        assert(is_power_levels(store, store[id].auth_ids()[j]));
    }
}

/// Walking `a + b` steps is walking `a` steps, then `b` more.
proof fn lemma_walk_add(store: StoreView, start: Option<Seq<char>>, a: nat, b: nat)
    ensures
        walk(store, start, a + b) == walk(store, walk(store, start, a), b),
    decreases b,
{
    if b > 0 {
        lemma_walk_add(store, start, a, (b - 1) as nat);
        assert((a + b - 1) as nat == a + (b - 1) as nat);
    }
}

/// A walk that meets the same event twice never ends.
proof fn lemma_repeat_never_ends(store: StoreView, start: Option<Seq<char>>, i: nat, j: nat, m: nat)
    requires
        i < j,
        walk(store, start, i) == walk(store, start, j),
        walk(store, start, j) is Some,
    ensures
        walk(store, start, m) is Some,
    decreases m,
{
    if m <= j {
        if walk(store, start, m) is None {
            lemma_walk_ended(store, start, m, j);
        }
    } else {
        let d = (j - i) as nat;
        lemma_repeat_never_ends(store, start, i, j, (m - d) as nat);
        lemma_walk_add(store, start, j, (m - j) as nat);
        lemma_walk_add(store, start, i, (m - j) as nat);
        assert(i + (m - j) as nat == (m - d) as nat);
        assert(j + (m - j) as nat == m);
    }
}

/// A walk from an event of the store that has not ended after as many steps
/// as the store holds events never ends: it has met some event twice.
proof fn lemma_long_walk_never_ends(store: StoreView, x: Seq<char>, n: nat)
    requires
        store.contains_key(x),
        store.dom().finite(),
        store.dom().len() == n,
        walk(store, Some(x), n) is Some,
    ensures
        !chain_ends(store, Some(x)),
{
    let start = Some(x);
    assert forall|k: nat| k <= n implies #[trigger] walk(store, start, k) is Some by {
        if walk(store, start, k) is None {
            lemma_walk_ended(store, start, k, n);
        }
    }
    let s = Seq::new(n + 1, |k: int| walk(store, start, k as nat)->0);
    assert forall|k: int| 0 <= k < s.len() implies store.contains_key(#[trigger] s[k]) by {
        if k > 0 {
            let prev = walk(store, start, (k - 1) as nat);
            assert(prev is Some);
            lemma_parent_in_store(store, prev->0);
            assert(walk(store, start, k as nat) == pl_parent(store, prev->0));
        }
    }
    if s.no_duplicates() {
        s.unique_seq_to_set();
        assert(s.to_set().subset_of(store.dom()));
        vstd::set_lib::lemma_len_subset(s.to_set(), store.dom());
        assert(false);
    }
    let (i, j) = choose|i: int, j: int| 0 <= i < s.len() && 0 <= j < s.len() && i != j && s[i] == s[j];
    let (lo, hi) = if i < j { (i, j) } else { (j, i) };
    assert(walk(store, start, lo as nat) == walk(store, start, hi as nat));
    assert forall|m: nat| !(#[trigger] walk(store, start, m) == None::<Seq<char>>) by {
        lemma_repeat_never_ends(store, start, lo as nat, hi as nat, m);
    }
}

/// Whether every chain of power-levels auth events from an event of `store`
/// comes to an end. Each walk is followed for at most as many steps as the
/// store holds events: one that goes on longer has met an event twice.
pub fn power_chains_bounded(store: &EventStore) -> (r: bool)
    ensures
        r == forall|x: Seq<char>| #[trigger] store@.contains_key(x) ==> chain_ends(store@, Some(x)),
{
    let entries = store.entries();
    proof {
        store.lemma_view();
        lemma_entries_map_dom(entries@);
    }
    let n = entries.len();
    let mut i: usize = 0;
    while i < n
        invariant
            n == entries@.len(),
            entries@ == store.entry_seq(),
            keys_sorted(entries@),
            store@ == entries_map(entries@),
            store@.dom().finite(),
            store@.dom().len() == n,
            i <= n,
            forall|j: int| 0 <= j < i ==> chain_ends(store@, Some(#[trigger] entries@[j].0@)),
        decreases n - i,
    {
        let ghost start = Some(entries@[i as int].0@);
        let mut cursor: Option<EventId> = Some(entries[i].0.clone());
        let mut steps: usize = 0;
        while cursor.is_some()
            invariant
                n == entries@.len(),
                keys_sorted(entries@),
                store@ == entries_map(entries@),
                store@.dom().finite(),
                store@.dom().len() == n,
                i < n,
                start == Some(entries@[i as int].0@),
                steps <= n,
                owned_opt_view(cursor) == walk(store@, start, steps as nat),
            decreases n - steps,
        {
            if steps == n {
                proof {
                    let x = entries@[i as int].0@;
                    lemma_entries_map_at(entries@, i as int);
                    lemma_long_walk_never_ends(store@, x, n as nat);
                    assert(store@.contains_key(x));
                }
                return false;
            }
            let next = match &cursor {
                Some(id) => power_levels_in_auth(id.as_str(), store),
                None => None,
            };
            cursor = next;
            steps = steps + 1;
        }
        proof {
            assert(walk(store@, start, steps as nat) == None::<Seq<char>>);
        }
        i = i + 1;
    }
    proof {
        assert forall|x: Seq<char>| #[trigger] store@.contains_key(x) implies chain_ends(store@, Some(x)) by {
            let j = key_index(entries@, x);
            assert(entries@[j].0@ == x);
        }
    }
    true
}

/// The power-levels event among `id`'s auth events, if any.
fn power_levels_in_auth(id: &str, store: &EventStore) -> (r: Option<EventId>)
    ensures
        owned_opt_view(r) == pl_parent(store@, id@),
{
    let key = id.to_owned();
    let event = match store.get(&key) {
        Some(e) => e,
        None => {
            return None;
        },
    };
    let auth = event.auth_event_ids();
    let ghost av = event.auth_ids();
    let mut j: usize = 0;
    while j < auth.len()
        invariant
            av == ids_view(auth@),
            av == event.auth_ids(),
            store@.contains_key(id@),
            store@[id@] == *event,
            j <= auth@.len(),
            forall|k: int| 0 <= k < j ==> !is_power_levels(store@, #[trigger] av[k]),
        decreases auth@.len() - j,
    {
        let found = match store.get(&auth[j]) {
            Some(a) => str_eq(a.event_type(), "m.room.power_levels"),
            None => false,
        };
        proof {
            assert(av[j as int] == auth@[j as int]@);
        }
        if found {
            proof {
                assert(store@.contains_key(id@) && store@[id@] == *event);
                assert(first_power_levels_at(store@, av, j as int));
                let c = choose|c: int| first_power_levels_at(store@, av, c);
                if c < j {
                } else if c > j {
                    assert(!is_power_levels(store@, av[j as int]));
                }
            }
            return Some(auth[j].clone());
        }
        j = j + 1;
    }
    proof {
        if exists|c: int| first_power_levels_at(store@, av, c) {
            let c = choose|c: int| first_power_levels_at(store@, av, c);
            assert(!is_power_levels(store@, av[c]));
        }
    }
    None
}

/// The mainline depth of `start`, given `index`, the mainline positions.
fn depth_on_mainline(start: &str, store: &EventStore, index: &OrdMap<String, usize>, Ghost(root): Ghost<Option<Seq<char>>>) -> (r: usize)
    requires
        chain_ends(store@, Some(start@)),
        forall|x: Seq<char>| #[trigger] index@.contains_key(x) <==> on_mainline(store@, root, x),
        forall|x: Seq<char>| #[trigger] index@.contains_key(x) ==> index@[x] == mainline_position(store@, root, x),
    ensures
        r == mainline_depth(store@, root, start@),
{
    let ghost sv = Some(start@);
    let mut cursor: Option<String> = Some(start.to_owned());
    let ghost mut k: nat = 0;
    let ghost bound = chain_bound(store@, sv);
    while cursor.is_some()
        invariant
            sv == Some(start@),
            chain_ends(store@, sv),
            bound == chain_bound(store@, sv),
            walk(store@, sv, bound) == None::<Seq<char>>,
            owned_opt_view(cursor) == walk(store@, sv, k),
            forall|i: nat| i < k ==> !#[trigger] depth_stop(store@, root, start@, i),
            forall|x: Seq<char>| #[trigger] index@.contains_key(x) <==> on_mainline(store@, root, x),
            forall|x: Seq<char>| #[trigger] index@.contains_key(x) ==> index@[x] == mainline_position(store@, root, x),
        decreases bound - k,
    {
        proof {
            if k >= bound {
                lemma_walk_ended(store@, sv, bound, k);
            }
        }
        let ghost cv = cursor;
        let id = match cursor {
            Some(x) => x,
            None => String::new(),
        };
        proof {
            assert(cv == Some(id));
            assert(walk(store@, sv, k) == Some(id@));
        }
        match index.get(&id) {
            Some(pos) => {
                proof {
                    assert(index@.contains_key(id@));
                    assert(on_mainline(store@, root, id@));
                    assert(walk(store@, Some(start@), k) == Some(id@));
                    assert(depth_stop(store@, root, start@, k));
                    assert(is_first_stop(store@, root, start@, k));
                    let c = choose|c: nat| is_first_stop(store@, root, start@, c);
                    if c < k {
                        assert(!depth_stop(store@, root, start@, c));
                    } else if c > k {
                        assert(!depth_stop(store@, root, start@, k));
                    }
                }
                return *pos;
            },
            None => {},
        }
        proof {
            assert(!index@.contains_key(id@));
            assert(!on_mainline(store@, root, id@));
            assert(!depth_stop(store@, root, start@, k));
        }
        cursor = power_levels_in_auth(id.as_str(), store);
        proof {
            k = k + 1;
        }
    }
    proof {
        assert(depth_stop(store@, root, start@, k));
        assert(is_first_stop(store@, root, start@, k));
        let c = choose|c: nat| is_first_stop(store@, root, start@, c);
        if c < k {
            assert(!depth_stop(store@, root, start@, c));
        } else if c > k {
            assert(!depth_stop(store@, root, start@, k));
        }
    }
    0
}

/// Whether key `a` sorts strictly before key `b`.
fn key_before(a: &(usize, u64, EventId), b: &(usize, u64, EventId)) -> (r: bool)
    ensures
        r == key_lt((a.0 as int, a.1 as int, a.2@), (b.0 as int, b.1 as int, b.2@)),
{
    if a.0 != b.0 {
        a.0 < b.0
    } else if a.1 != b.1 {
        a.1 < b.1
    } else {
        compare_str(a.2.as_str(), b.2.as_str()) < 0
    }
}

/// The key view of a keyed entry.
pub open spec fn entry_key(t: (usize, u64, EventId)) -> (int, int, Seq<char>) {
    (t.0 as int, t.1 as int, t.2@)
}

/// Order `to_order` by mainline ordering against the resolved power-levels
/// event.
///
/// The *mainline* is the chain of power-levels events reached by following
/// auth events from `resolved_power_levels` back to the room's first
/// power-levels event. Each event to order is assigned the mainline position
/// of the closest power-levels event in its auth chain (its *mainline
/// depth*); events are then ordered ascending by `(mainline_depth,
/// origin_server_ts, event_id)`, so events anchored closer to the mainline
/// root come first. Events with no power-levels ancestor on the mainline
/// take depth zero.
///
/// Every chain of power-levels auth events that is followed must come to an
/// end, as Matrix auth chains do.
pub fn mainline_ordering(resolved_power_levels: Option<&str>, to_order: &[EventId], store: &EventStore) -> (r: Vec<EventId>)
    requires
        chain_ends(store@, opt_view(resolved_power_levels)),
        forall|i: int| 0 <= i < to_order@.len() ==> chain_ends(store@, Some(#[trigger] to_order@[i]@)),
    ensures
        ids_view(r@).to_multiset() == ids_view(to_order@).to_multiset(),
        sorted_by_mainline(store@, opt_view(resolved_power_levels), ids_view(r@)),
        ids_view(r@) == mainline_order(store@, opt_view(resolved_power_levels), ids_view(to_order@)),
{
    let ghost root = opt_view(resolved_power_levels);

    // The mainline, from the resolved event back to the root.
    let mut mainline: Vec<EventId> = Vec::new();
    let mut cursor: Option<String> = match resolved_power_levels {
        Some(id) => Some(id.to_owned()),
        None => None,
    };
    let ghost bound = chain_bound(store@, root);
    while cursor.is_some()
        invariant
            chain_ends(store@, root),
            bound == chain_bound(store@, root),
            walk(store@, root, bound) == None::<Seq<char>>,
            owned_opt_view(cursor) == walk(store@, root, mainline@.len() as nat),
            forall|j: int| 0 <= j < mainline@.len() ==> walk(store@, root, j as nat) == Some(#[trigger] mainline@[j]@),
        decreases bound - mainline@.len(),
    {
        proof {
            if mainline@.len() >= bound {
                lemma_walk_ended(store@, root, bound, mainline@.len() as nat);
            }
        }
        let ghost cv = cursor;
        let id = match cursor {
            Some(x) => x,
            None => String::new(),
        };
        proof {
            assert(cv == Some(id));
        }
        cursor = power_levels_in_auth(id.as_str(), store);
        mainline.push(id);
    }
    let n = mainline.len();
    proof {
        assert forall|j: nat| j < n implies #[trigger] walk(store@, root, j) != None::<Seq<char>> by {
            assert(walk(store@, root, j as nat) == Some(mainline@[j as int]@));
        }
        assert(is_chain_len(store@, root, n as nat));
        let c = choose|c: nat| is_chain_len(store@, root, c);
        if c < n {
            assert(walk(store@, root, c) != None::<Seq<char>>);
        } else if c > n {
            assert(walk(store@, root, n as nat) != None::<Seq<char>>);
        }
        assert(mainline_len(store@, root) == n);
    }

    // Each mainline event's position, counting from the root (0).
    let mut index: OrdMap<String, usize> = OrdMap::new();
    let mut p: usize = 0;
    while p < n
        invariant
            n == mainline@.len(),
            p <= n,
            forall|j: int| 0 <= j < n ==> walk(store@, root, j as nat) == Some(#[trigger] mainline@[j]@),
            forall|x: Seq<char>| #[trigger] index@.contains_key(x) <==> exists|j: int| n - p <= j < n && #[trigger] mainline@[j]@ == x,
            forall|x: Seq<char>| #[trigger] index@.contains_key(x) ==> {
                let j0 = n - 1 - index@[x];
                &&& n - p <= j0 < n
                &&& mainline@[j0]@ == x
                &&& forall|j: int| n - p <= j < j0 ==> #[trigger] mainline@[j]@ != x
            },
        decreases n - p,
    {
        let j = n - 1 - p;
        index.insert(mainline[j].clone(), p);
        proof {
            assert forall|x: Seq<char>| #[trigger] index@.contains_key(x) <==> exists|j2: int| n - (p + 1) <= j2 < n && #[trigger] mainline@[j2]@ == x by {
                if x == mainline@[j as int]@ {
                    assert(mainline@[j as int]@ == x);
                } else if exists|j2: int| n - (p + 1) <= j2 < n && #[trigger] mainline@[j2]@ == x {
                    let j2 = choose|j2: int| n - (p + 1) <= j2 < n && #[trigger] mainline@[j2]@ == x;
                    assert(j2 != j);
                }
            }
        }
        p = p + 1;
    }
    proof {
        assert forall|x: Seq<char>| #[trigger] index@.contains_key(x) <==> on_mainline(store@, root, x) by {
            if index@.contains_key(x) {
                let j = choose|j: int| 0 <= j < n && #[trigger] mainline@[j]@ == x;
                assert(walk(store@, root, j as nat) == Some(x));
            }
            if on_mainline(store@, root, x) {
                let j = choose|j: nat| #[trigger] walk(store@, root, j) == Some(x);
                if j >= n {
                    lemma_walk_ended(store@, root, n as nat, j);
                }
                assert(mainline@[j as int]@ == x);
            }
        }
        assert forall|x: Seq<char>| #[trigger] index@.contains_key(x) implies index@[x] == mainline_position(store@, root, x) by {
            let j0 = n - 1 - index@[x];
            assert forall|i: nat| i < j0 implies #[trigger] walk(store@, root, i) != Some(x) by {
                assert(mainline@[i as int]@ != x);
            }
            assert(is_first_visit(store@, root, x, j0 as nat));
            let c = choose|c: nat| is_first_visit(store@, root, x, c);
            if c < j0 {
                assert(walk(store@, root, c) != Some(x));
            } else if c > j0 {
                assert(walk(store@, root, j0 as nat) != Some(x));
            }
        }
    }

    // Key every event, inserting it into the sorted run after every key
    // that does not sort after it.
    let ghost tv = ids_view(to_order@);
    let mut sorted: Vec<(usize, u64, EventId)> = Vec::new();
    proof {
        assert(sorted@.map_values(|t: (usize, u64, EventId)| t.2@) =~= tv.take(0));
    }
    let mut i: usize = 0;
    while i < to_order.len()
        invariant
            tv == ids_view(to_order@),
            i <= to_order@.len(),
            forall|a: int| 0 <= a < to_order@.len() ==> chain_ends(store@, Some(#[trigger] to_order@[a]@)),
            forall|x: Seq<char>| #[trigger] index@.contains_key(x) <==> on_mainline(store@, root, x),
            forall|x: Seq<char>| #[trigger] index@.contains_key(x) ==> index@[x] == mainline_position(store@, root, x),
            sorted@.map_values(|t: (usize, u64, EventId)| t.2@).to_multiset() == tv.take(i as int).to_multiset(),
            forall|a: int| 0 <= a < sorted@.len() ==> entry_key(#[trigger] sorted@[a]) == mainline_key(store@, root, sorted@[a].2@),
            forall|a: int, b: int| 0 <= a < b < sorted@.len() ==> !key_lt(entry_key(#[trigger] sorted@[b]), entry_key(#[trigger] sorted@[a])),
        decreases to_order@.len() - i,
    {
        let id = &to_order[i];
        let depth = depth_on_mainline(id.as_str(), store, &index, Ghost(root));
        let ts = match store.get(id) {
            Some(e) => e.origin_server_ts,
            None => 0,
        };
        let entry = (depth, ts, id.clone());
        let mut pos: usize = 0;
        while pos < sorted.len() && !key_before(&entry, &sorted[pos])
            invariant
                pos <= sorted@.len(),
                forall|a: int| 0 <= a < pos ==> !key_lt(entry_key(entry), entry_key(#[trigger] sorted@[a])),
            decreases sorted@.len() - pos,
        {
            pos = pos + 1;
        }
        let ghost before = sorted@;
        sorted.insert(pos, entry);
        proof {
            let ek = entry_key(entry);
            assert(ek == mainline_key(store@, root, id@));
            assert(sorted@ == before.insert(pos as int, entry));
            assert forall|a: int| 0 <= a < sorted@.len() implies entry_key(#[trigger] sorted@[a]) == mainline_key(store@, root, sorted@[a].2@) by {
                if a < pos {
                    assert(sorted@[a] == before[a]);
                } else if a > pos {
                    assert(sorted@[a] == before[a - 1]);
                }
            }
            assert forall|a: int, b: int| 0 <= a < b < sorted@.len() implies !key_lt(entry_key(#[trigger] sorted@[b]), entry_key(#[trigger] sorted@[a])) by {
                if b < pos {
                    assert(sorted@[a] == before[a] && sorted@[b] == before[b]);
                } else if b == pos {
                    assert(sorted@[a] == before[a]);
                } else if a < pos {
                    assert(sorted@[a] == before[a] && sorted@[b] == before[b - 1]);
                    lemma_key_lt_order(entry_key(before[b - 1]), ek, entry_key(before[a]));
                    lemma_key_lt_order(entry_key(before[b - 1]), entry_key(before[pos as int]), ek);
                    lemma_key_lt_order(ek, entry_key(before[pos as int]), entry_key(before[b - 1]));
                    if b - 1 > pos {
                        assert(!key_lt(entry_key(before[b - 1]), entry_key(before[pos as int])));
                    }
                } else if a == pos {
                    assert(sorted@[b] == before[b - 1]);
                    lemma_key_lt_order(entry_key(before[b - 1]), ek, entry_key(before[pos as int]));
                    lemma_key_lt_order(ek, entry_key(before[pos as int]), entry_key(before[b - 1]));
                    if b - 1 > pos {
                        assert(!key_lt(entry_key(before[b - 1]), entry_key(before[pos as int])));
                    }
                } else {
                    assert(sorted@[a] == before[a - 1] && sorted@[b] == before[b - 1]);
                }
            }
            let m0 = before.map_values(|t: (usize, u64, EventId)| t.2@);
            let m1 = sorted@.map_values(|t: (usize, u64, EventId)| t.2@);
            assert(m1 =~= m0.insert(pos as int, id@));
            vstd::seq_lib::to_multiset_insert(m0, pos as int, id@);
            assert(tv.take(i + 1) =~= tv.take(i as int).push(id@));
            vstd::seq_lib::to_multiset_build(tv.take(i as int), id@);
        }
        i = i + 1;
    }
    proof {
        assert(tv.take(to_order@.len() as int) =~= tv);
    }

    let mut out: Vec<EventId> = Vec::new();
    let mut k: usize = 0;
    while k < sorted.len()
        invariant
            k <= sorted@.len(),
            out@.len() == k,
            forall|a: int| 0 <= a < k ==> (#[trigger] out@[a])@ == sorted@[a].2@,
        decreases sorted@.len() - k,
    {
        out.push(sorted[k].2.clone());
        k = k + 1;
    }
    proof {
        assert(ids_view(out@) =~= sorted@.map_values(|t: (usize, u64, EventId)| t.2@));
        let ov = ids_view(out@);
        assert forall|a: int, b: int| 0 <= a < b < ov.len() implies !key_lt(
            mainline_key(store@, root, #[trigger] ov[b]),
            mainline_key(store@, root, #[trigger] ov[a]),
        ) by {
            assert(!key_lt(entry_key(sorted@[b]), entry_key(sorted@[a])));
        }
        let m = mainline_order(store@, root, tv);
        assert(ov.to_multiset() == tv.to_multiset() && sorted_by_mainline(store@, root, ov));
        lemma_mainline_order_unique(store@, root, m, ov);
    }
    out
}

} // verus!
