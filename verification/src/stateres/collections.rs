//! Ordered maps and sets keyed by strings (and pairs of strings), the shapes
//! of room state, conflicted state, event stores and event-id sets.

use vstd::prelude::*;

use crate::bytes::{compare_str, lemma_str_lt_order, str_eq, str_lt};

verus! {

/// A key type with a total order on its view and an executable comparison.
pub trait MapKey: Sized {
    /// The mathematical value of a key.
    type KeyView;

    /// The mathematical value of this key.
    spec fn key_view(&self) -> Self::KeyView;

    /// The strict order on key values.
    spec fn key_lt(a: Self::KeyView, b: Self::KeyView) -> bool;

    /// `key_lt` is a strict total order.
    proof fn lemma_key_order(a: Self::KeyView, b: Self::KeyView, c: Self::KeyView)
        ensures
            !Self::key_lt(a, a),
            Self::key_lt(a, b) ==> !Self::key_lt(b, a),
            Self::key_lt(a, b) && Self::key_lt(b, c) ==> Self::key_lt(a, c),
            a == b || Self::key_lt(a, b) || Self::key_lt(b, a),
    ;

    /// Three-way comparison of two keys.
    fn key_compare(&self, other: &Self) -> (c: i8)
        ensures
            c < 0 <==> Self::key_lt(self.key_view(), other.key_view()),
            c == 0 <==> self.key_view() == other.key_view(),
            c > 0 <==> Self::key_lt(other.key_view(), self.key_view()),
    ;

    /// A copy of this key.
    fn key_clone(&self) -> (r: Self)
        ensures
            r.key_view() == self.key_view(),
    ;
}

/// A value that can be copied with its view preserved.
pub trait ViewClone: View + Sized {
    /// A copy of this value.
    fn view_clone(&self) -> (r: Self)
        ensures
            r@ == self@,
    ;
}

impl MapKey for String {
    type KeyView = Seq<char>;

    open spec fn key_view(&self) -> Seq<char> {
        self@
    }

    open spec fn key_lt(a: Seq<char>, b: Seq<char>) -> bool {
        str_lt(a, b)
    }

    proof fn lemma_key_order(a: Seq<char>, b: Seq<char>, c: Seq<char>) {
        lemma_str_lt_order(a, b, c);
    }

    fn key_compare(&self, other: &Self) -> (c: i8) {
        compare_str(self.as_str(), other.as_str())
    }

    fn key_clone(&self) -> (r: Self) {
        self.clone()
    }
}

impl ViewClone for String {
    fn view_clone(&self) -> (r: Self) {
        self.clone()
    }
}

impl ViewClone for () {
    fn view_clone(&self) -> (r: Self) {
        ()
    }
}

impl ViewClone for i64 {
    fn view_clone(&self) -> (r: Self) {
        *self
    }
}

/// The order on pairs of strings: by the first, then by the second.
pub open spec fn pair_lt(a: (Seq<char>, Seq<char>), b: (Seq<char>, Seq<char>)) -> bool {
    str_lt(a.0, b.0) || (a.0 == b.0 && str_lt(a.1, b.1))
}

impl MapKey for (String, String) {
    type KeyView = (Seq<char>, Seq<char>);

    open spec fn key_view(&self) -> (Seq<char>, Seq<char>) {
        (self.0@, self.1@)
    }

    open spec fn key_lt(a: (Seq<char>, Seq<char>), b: (Seq<char>, Seq<char>)) -> bool {
        pair_lt(a, b)
    }

    proof fn lemma_key_order(a: (Seq<char>, Seq<char>), b: (Seq<char>, Seq<char>), c: (Seq<char>, Seq<char>)) {
        lemma_str_lt_order(a.0, b.0, c.0);
        lemma_str_lt_order(a.1, b.1, c.1);
        lemma_str_lt_order(b.0, a.0, c.0);
        lemma_str_lt_order(a.0, c.0, b.0);
        lemma_str_lt_order(b.1, a.1, c.1);
    }

    fn key_compare(&self, other: &Self) -> (c: i8) {
        let c0 = compare_str(self.0.as_str(), other.0.as_str());
        if c0 != 0 {
            c0
        } else {
            compare_str(self.1.as_str(), other.1.as_str())
        }
    }

    fn key_clone(&self) -> (r: Self) {
        (self.0.clone(), self.1.clone())
    }
}

/// Whether the keys of `s` strictly increase.
pub open spec fn keys_sorted<K: MapKey, V>(s: Seq<(K, V)>) -> bool {
    forall|i: int, j: int| 0 <= i < j < s.len() ==> K::key_lt(#[trigger] s[i].0.key_view(), #[trigger] s[j].0.key_view())
}

/// Whether some entry of `s` has key value `k`.
pub open spec fn has_key<K: MapKey, V>(s: Seq<(K, V)>, k: K::KeyView) -> bool {
    exists|i: int| 0 <= i < s.len() && #[trigger] s[i].0.key_view() == k
}

/// The position of an entry with key value `k`, when there is one.
pub open spec fn key_index<K: MapKey, V>(s: Seq<(K, V)>, k: K::KeyView) -> int {
    choose|i: int| 0 <= i < s.len() && #[trigger] s[i].0.key_view() == k
}

/// The map a sorted sequence of entries represents.
pub open spec fn entries_map<K: MapKey, V: View>(s: Seq<(K, V)>) -> Map<K::KeyView, V::V> {
    Map::new(|k: K::KeyView| has_key(s, k), |k: K::KeyView| s[key_index(s, k)].1@)
}

/// The key values of a sequence of entries.
pub open spec fn key_values<K: MapKey, V>(s: Seq<(K, V)>) -> Seq<K::KeyView> {
    s.map_values(|e: (K, V)| e.0.key_view())
}

/// An entry of a sorted sequence is what the map holds under its key.
pub proof fn lemma_entries_map_at<K: MapKey, V: View>(s: Seq<(K, V)>, i: int)
    requires
        keys_sorted(s),
        0 <= i < s.len(),
    ensures
        entries_map(s).contains_key(s[i].0.key_view()),
        entries_map(s)[s[i].0.key_view()] == s[i].1@,
{
    let k = s[i].0.key_view();
    assert(has_key(s, k));
    let j = key_index(s, k);
    K::lemma_key_order(k, k, k);
    if j < i {
        assert(K::key_lt(s[j].0.key_view(), s[i].0.key_view()));
    } else if i < j {
        assert(K::key_lt(s[i].0.key_view(), s[j].0.key_view()));
    }
}

/// The keys of a sorted sequence are distinct and make up the map's domain.
pub proof fn lemma_entries_map_dom<K: MapKey, V: View>(s: Seq<(K, V)>)
    requires
        keys_sorted(s),
    ensures
        key_values(s).no_duplicates(),
        entries_map(s).dom() == key_values(s).to_set(),
        entries_map(s).dom().finite(),
        entries_map(s).dom().len() == s.len(),
{
    let ks = key_values(s);
    assert forall|a: int, b: int| 0 <= a < ks.len() && 0 <= b < ks.len() && a != b implies ks[a] != ks[b] by {
        K::lemma_key_order(ks[a], ks[b], ks[b]);
        if a < b {
            assert(K::key_lt(s[a].0.key_view(), s[b].0.key_view()));
        } else {
            assert(K::key_lt(s[b].0.key_view(), s[a].0.key_view()));
        }
    }
    assert forall|k: K::KeyView| entries_map(s).dom().contains(k) <==> ks.to_set().contains(k) by {
        if has_key(s, k) {
            let i = choose|i: int| 0 <= i < s.len() && #[trigger] s[i].0.key_view() == k;
            assert(ks[i] == k);
        }
        if ks.contains(k) {
            let i = choose|i: int| 0 <= i < ks.len() && ks[i] == k;
            assert(s[i].0.key_view() == k);
        }
    }
    assert(entries_map(s).dom() =~= ks.to_set());
    ks.unique_seq_to_set();
}

/// A map kept as a vector of entries in strictly ascending key order.
#[derive(Debug, PartialEq, Eq)]
pub struct OrdMap<K: MapKey, V: View> {
    entries: Vec<(K, V)>,
}

impl<K: MapKey, V: View> View for OrdMap<K, V> {
    type V = Map<K::KeyView, V::V>;

    closed spec fn view(&self) -> Map<K::KeyView, V::V> {
        entries_map(self.entries@)
    }
}

impl<K: MapKey, V: View> OrdMap<K, V> {
    /// The entries, in ascending key order.
    pub closed spec fn entry_seq(&self) -> Seq<(K, V)> {
        self.entries@
    }

    /// The representation invariant: strictly ascending keys.
    #[verifier::type_invariant]
    spec fn sorted(&self) -> bool {
        keys_sorted(self.entries@)
    }

    /// The map is what its entries say.
    pub proof fn lemma_view(&self)
        ensures
            self@ == entries_map(self.entry_seq()),
    {
    }

    /// An empty map.
    pub fn new() -> (m: Self)
        ensures
            m@ == Map::<K::KeyView, V::V>::empty(),
            m.entry_seq().len() == 0,
    {
        let m = OrdMap { entries: Vec::new() };
        assert(m@ =~= Map::<K::KeyView, V::V>::empty());
        m
    }

    /// The entries, in ascending key order.
    pub fn entries(&self) -> (r: &[(K, V)])
        ensures
            r@ == self.entry_seq(),
            keys_sorted(r@),
    {
        proof { use_type_invariant(self); }
        self.entries.as_slice()
    }

    /// The number of entries.
    pub fn len(&self) -> (r: usize)
        ensures
            r == self@.len(),
            r == self.entry_seq().len(),
    {
        proof {
            use_type_invariant(self);
            lemma_entries_map_dom(self.entries@);
        }
        self.entries.len()
    }

    /// Whether the map is empty.
    pub fn is_empty(&self) -> (r: bool)
        ensures
            r == (self@.len() == 0),
            r == (self@ == Map::<K::KeyView, V::V>::empty()),
    {
        proof {
            use_type_invariant(self);
            lemma_entries_map_dom(self.entries@);
            if self.entries@.len() > 0 {
                lemma_entries_map_at(self.entries@, 0);
            } else {
                assert(self@ =~= Map::<K::KeyView, V::V>::empty());
            }
        }
        self.entries.len() == 0
    }

    /// The first position whose key is not below `k`.
    fn lower_bound(&self, k: &K) -> (r: usize)
        ensures
            r <= self.entries@.len(),
            forall|j: int| 0 <= j < r ==> K::key_lt(#[trigger] self.entries@[j].0.key_view(), k.key_view()),
            forall|j: int| r <= j < self.entries@.len() ==> !K::key_lt(#[trigger] self.entries@[j].0.key_view(), k.key_view()),
    {
        proof { use_type_invariant(self); }
        let ghost s = self.entries@;
        let mut lo: usize = 0;
        let mut hi: usize = self.entries.len();
        while lo < hi
            invariant
                s == self.entries@,
                keys_sorted(s),
                lo <= hi <= s.len(),
                forall|j: int| 0 <= j < lo ==> K::key_lt(#[trigger] s[j].0.key_view(), k.key_view()),
                forall|j: int| hi <= j < s.len() ==> !K::key_lt(#[trigger] s[j].0.key_view(), k.key_view()),
            decreases hi - lo,
        {
            let mid = lo + (hi - lo) / 2;
            let c = self.entries[mid].0.key_compare(k);
            if c < 0 {
                proof {
                    assert forall|j: int| 0 <= j < mid + 1 implies K::key_lt(#[trigger] s[j].0.key_view(), k.key_view()) by {
                        if j < mid {
                            assert(K::key_lt(s[j].0.key_view(), s[mid as int].0.key_view()));
                            K::lemma_key_order(s[j].0.key_view(), s[mid as int].0.key_view(), k.key_view());
                        }
                    }
                }
                lo = mid + 1;
            } else {
                proof {
                    assert forall|j: int| mid <= j < s.len() implies !K::key_lt(#[trigger] s[j].0.key_view(), k.key_view()) by {
                        K::lemma_key_order(s[mid as int].0.key_view(), k.key_view(), s[j].0.key_view());
                        if j > mid {
                            assert(K::key_lt(s[mid as int].0.key_view(), s[j].0.key_view()));
                            K::lemma_key_order(k.key_view(), s[mid as int].0.key_view(), s[j].0.key_view());
                            K::lemma_key_order(s[j].0.key_view(), k.key_view(), s[mid as int].0.key_view());
                        }
                    }
                }
                hi = mid;
            }
        }
        lo
    }

    /// The position of the entry with key `k`, if any.
    pub fn find(&self, k: &K) -> (r: Option<usize>)
        ensures
            match r {
                Some(i) => i < self.entry_seq().len() && self.entry_seq()[i as int].0.key_view() == k.key_view(),
                None => !self@.contains_key(k.key_view()),
            },
    {
        proof { use_type_invariant(self); }
        let i = self.lower_bound(k);
        if i < self.entries.len() && self.entries[i].0.key_compare(k) == 0 {
            Some(i)
        } else {
            proof {
                if has_key(self.entries@, k.key_view()) {
                    let j = choose|j: int| 0 <= j < self.entries@.len() && #[trigger] self.entries@[j].0.key_view() == k.key_view();
                    K::lemma_key_order(k.key_view(), k.key_view(), k.key_view());
                    if j > i {
                        K::lemma_key_order(self.entries@[i as int].0.key_view(), k.key_view(), k.key_view());
                        assert(K::key_lt(self.entries@[i as int].0.key_view(), self.entries@[j].0.key_view()));
                    }
                }
            }
            None
        }
    }

    /// The value stored under `k`, if any.
    pub fn get(&self, k: &K) -> (r: Option<&V>)
        ensures
            match r {
                Some(v) => self@.contains_key(k.key_view()) && self@[k.key_view()] == v@,
                None => !self@.contains_key(k.key_view()),
            },
    {
        proof { use_type_invariant(self); }
        match self.find(k) {
            Some(i) => {
                proof { lemma_entries_map_at(self.entries@, i as int); }
                Some(&self.entries[i].1)
            },
            None => None,
        }
    }

    /// Whether the map holds key `k`.
    pub fn contains_key(&self, k: &K) -> (r: bool)
        ensures
            r == self@.contains_key(k.key_view()),
    {
        proof { use_type_invariant(self); }
        match self.find(k) {
            Some(i) => {
                proof { lemma_entries_map_at(self.entries@, i as int); }
                true
            },
            None => false,
        }
    }

    /// Store `v` under `k`, replacing any value already there.
    pub fn insert(&mut self, k: K, v: V)
        ensures
            final(self)@ == old(self)@.insert(k.key_view(), v@),
    {
        proof { use_type_invariant(&*self); }
        let pos = self.lower_bound(&k);
        let mut entries: Vec<(K, V)> = Vec::new();
        std::mem::swap(&mut entries, &mut self.entries);
        let ghost s = entries@;
        let ghost e = (k, v);
        let ghost kv = k.key_view();
        if pos < entries.len() && entries[pos].0.key_compare(&k) == 0 {
            entries.set(pos, (k, v));
            proof {
                let t = s.update(pos as int, e);
                assert(t == entries@);
                assert forall|a: int, b: int| 0 <= a < b < t.len() implies K::key_lt(#[trigger] t[a].0.key_view(), #[trigger] t[b].0.key_view()) by {
                    assert(K::key_lt(s[a].0.key_view(), s[b].0.key_view()));
                }
                let m1 = entries_map(t);
                let m2 = entries_map(s).insert(kv, e.1@);
                assert forall|x: K::KeyView| m1.contains_key(x) <==> m2.contains_key(x) by {
                    if has_key(t, x) {
                        let a = choose|a: int| 0 <= a < t.len() && #[trigger] t[a].0.key_view() == x;
                        assert(s[a].0.key_view() == x || a == pos);
                    }
                    if has_key(s, x) {
                        let a = choose|a: int| 0 <= a < s.len() && #[trigger] s[a].0.key_view() == x;
                        assert(t[a].0.key_view() == x);
                    }
                }
                assert forall|x: K::KeyView| m1.contains_key(x) implies m1[x] == m2[x] by {
                    let a = choose|a: int| 0 <= a < t.len() && #[trigger] t[a].0.key_view() == x;
                    lemma_entries_map_at(t, a);
                    if a != pos {
                        assert(t[a] == s[a]);
                        lemma_entries_map_at(s, a);
                        K::lemma_key_order(x, x, x);
                        if a < pos {
                            assert(K::key_lt(s[a].0.key_view(), s[pos as int].0.key_view()));
                        } else {
                            assert(K::key_lt(s[pos as int].0.key_view(), s[a].0.key_view()));
                        }
                    }
                }
                assert(m1 =~= m2);
            }
        } else {
            proof {
                assert forall|j: int| pos <= j < s.len() implies K::key_lt(kv, #[trigger] s[j].0.key_view()) by {
                    K::lemma_key_order(s[pos as int].0.key_view(), kv, kv);
                    K::lemma_key_order(s[j].0.key_view(), kv, kv);
                    if j > pos {
                        assert(K::key_lt(s[pos as int].0.key_view(), s[j].0.key_view()));
                        K::lemma_key_order(kv, s[pos as int].0.key_view(), s[j].0.key_view());
                    }
                }
            }
            entries.insert(pos, (k, v));
            proof {
                let t = s.insert(pos as int, e);
                assert(t == entries@);
                assert forall|a: int, b: int| 0 <= a < b < t.len() implies K::key_lt(#[trigger] t[a].0.key_view(), #[trigger] t[b].0.key_view()) by {
                    if b < pos {
                    } else if a < pos && b == pos {
                    } else if a < pos && b > pos {
                        assert(t[b] == s[b - 1]);
                        K::lemma_key_order(t[a].0.key_view(), kv, t[b].0.key_view());
                    } else if a == pos {
                        assert(t[b] == s[b - 1]);
                    } else {
                        assert(t[a] == s[a - 1]);
                        assert(t[b] == s[b - 1]);
                    }
                }
                let m1 = entries_map(t);
                let m2 = entries_map(s).insert(kv, e.1@);
                assert forall|x: K::KeyView| m1.contains_key(x) <==> m2.contains_key(x) by {
                    if has_key(t, x) {
                        let a = choose|a: int| 0 <= a < t.len() && #[trigger] t[a].0.key_view() == x;
                        if a < pos {
                            assert(s[a].0.key_view() == x);
                        } else if a > pos {
                            assert(s[a - 1].0.key_view() == x);
                        }
                    }
                    if has_key(s, x) {
                        let a = choose|a: int| 0 <= a < s.len() && #[trigger] s[a].0.key_view() == x;
                        if a < pos {
                            assert(t[a].0.key_view() == x);
                        } else {
                            assert(t[a + 1].0.key_view() == x);
                        }
                    }
                    if x == kv {
                        assert(t[pos as int].0.key_view() == x);
                    }
                }
                assert forall|x: K::KeyView| m1.contains_key(x) implies m1[x] == m2[x] by {
                    let a = choose|a: int| 0 <= a < t.len() && #[trigger] t[a].0.key_view() == x;
                    lemma_entries_map_at(t, a);
                    K::lemma_key_order(x, x, x);
                    if a < pos {
                        assert(t[a] == s[a]);
                        lemma_entries_map_at(s, a);
                        assert(K::key_lt(x, kv));
                    } else if a > pos {
                        assert(t[a] == s[a - 1]);
                        lemma_entries_map_at(s, a - 1);
                        assert(K::key_lt(kv, x));
                    } else {
                        assert(t[a] == e);
                    }
                }
                assert(m1 =~= m2);
            }
        }
        self.entries = entries;
    }
}

impl<K: MapKey, V: ViewClone> OrdMap<K, V> {
    /// A copy of this map.
    pub fn copy(&self) -> (r: Self)
        ensures
            r@ == self@,
            key_values(r.entry_seq()) == key_values(self.entry_seq()),
    {
        proof { use_type_invariant(self); }
        let mut out: Vec<(K, V)> = Vec::new();
        let mut i: usize = 0;
        while i < self.entries.len()
            invariant
                keys_sorted(self.entries@),
                i <= self.entries@.len(),
                out@.len() == i,
                forall|j: int| 0 <= j < i ==> (#[trigger] out@[j]).0.key_view() == self.entries@[j].0.key_view() && out@[j].1@ == self.entries@[j].1@,
            decreases self.entries@.len() - i,
        {
            let k = self.entries[i].0.key_clone();
            let v = self.entries[i].1.view_clone();
            out.push((k, v));
            i = i + 1;
        }
        proof {
            let s = self.entries@;
            let t = out@;
            assert forall|a: int, b: int| 0 <= a < b < t.len() implies K::key_lt(#[trigger] t[a].0.key_view(), #[trigger] t[b].0.key_view()) by {
                assert(K::key_lt(s[a].0.key_view(), s[b].0.key_view()));
            }
        }
        let r = OrdMap { entries: out };
        proof {
            let s = self.entries@;
            let t = out@;
            assert forall|x: K::KeyView| r@.contains_key(x) <==> self@.contains_key(x) by {
                if has_key(t, x) {
                    let a = choose|a: int| 0 <= a < t.len() && #[trigger] t[a].0.key_view() == x;
                    assert(s[a].0.key_view() == x);
                }
                if has_key(s, x) {
                    let a = choose|a: int| 0 <= a < s.len() && #[trigger] s[a].0.key_view() == x;
                    assert(t[a].0.key_view() == x);
                }
            }
            assert forall|x: K::KeyView| r@.contains_key(x) implies r@[x] == self@[x] by {
                let a = choose|a: int| 0 <= a < t.len() && #[trigger] t[a].0.key_view() == x;
                lemma_entries_map_at(t, a);
                lemma_entries_map_at(s, a);
            }
            assert(r@ =~= self@);
            assert(key_values(t) =~= key_values(s));
        }
        r
    }
}

} // verus!

verus! {

/// A set of event identifiers, kept in ascending byte order.
#[derive(Debug, PartialEq, Eq)]
pub struct EventIdSet {
    map: OrdMap<String, ()>,
}

impl View for EventIdSet {
    type V = Set<Seq<char>>;

    closed spec fn view(&self) -> Set<Seq<char>> {
        self.map@.dom()
    }
}

impl EventIdSet {
    /// The identifiers, in ascending byte order.
    pub closed spec fn id_seq(&self) -> Seq<Seq<char>> {
        key_values(self.map.entry_seq())
    }

    /// An empty set.
    pub fn new() -> (r: Self)
        ensures
            r@ == Set::<Seq<char>>::empty(),
    {
        let r = EventIdSet { map: OrdMap::new() };
        assert(r@ =~= Set::<Seq<char>>::empty());
        r
    }

    /// Add `id` to the set.
    pub fn insert(&mut self, id: String)
        ensures
            final(self)@ == old(self)@.insert(id@),
    {
        self.map.insert(id, ());
        assert(self@ =~= old(self)@.insert(id@));
    }

    /// Whether `id` is in the set.
    pub fn contains(&self, id: &str) -> (r: bool)
        ensures
            r == self@.contains(id@),
    {
        let key = id.to_owned();
        self.map.contains_key(&key)
    }

    /// The number of identifiers.
    pub fn len(&self) -> (r: usize)
        ensures
            r == self@.len(),
            self@.finite(),
    {
        let es = self.map.entries();
        proof {
            self.map.lemma_view();
            lemma_entries_map_dom(es@);
        }
        self.map.len()
    }

    /// Whether the set is empty.
    pub fn is_empty(&self) -> (r: bool)
        ensures
            r == (self@ == Set::<Seq<char>>::empty()),
    {
        let r = self.map.is_empty();
        proof {
            if r {
                assert(self@ =~= Set::<Seq<char>>::empty());
            } else if self@ == Set::<Seq<char>>::empty() {
                assert(self.map@ =~= Map::<Seq<char>, ()>::empty());
            }
        }
        r
    }

    /// The identifiers, in ascending byte order.
    pub fn to_vec(&self) -> (r: Vec<String>)
        ensures
            r@.map_values(|x: String| x@) == self.id_seq(),
            self.id_seq().no_duplicates(),
            self.id_seq().to_set() == self@,
            forall|i: int, j: int| 0 <= i < j < self.id_seq().len() ==> str_lt(#[trigger] self.id_seq()[i], #[trigger] self.id_seq()[j]),
            forall|u: int| 0 <= u < r@.len() ==> self@.contains(#[trigger] r@[u]@),
            forall|x: Seq<char>| #[trigger] self@.contains(x) ==> exists|u: int| 0 <= u < r@.len() && #[trigger] r@[u]@ == x,
    {
        let entries = self.map.entries();
        proof {
            self.map.lemma_view();
            lemma_entries_map_dom(entries@);
        }
        let mut out: Vec<String> = Vec::new();
        let mut i: usize = 0;
        while i < entries.len()
            invariant
                entries@ == self.map.entry_seq(),
                i <= entries@.len(),
                out@.len() == i,
                forall|j: int| 0 <= j < i ==> (#[trigger] out@[j])@ == entries@[j].0@,
            decreases entries@.len() - i,
        {
            out.push(entries[i].0.clone());
            i = i + 1;
        }
        assert(out@.map_values(|x: String| x@) =~= self.id_seq());
        proof {
            assert forall|a: int, b: int| 0 <= a < b < self.id_seq().len() implies str_lt(#[trigger] self.id_seq()[a], #[trigger] self.id_seq()[b]) by {
                assert(String::key_lt(entries@[a].0.key_view(), entries@[b].0.key_view()));
            }
            let vs = out@.map_values(|x: String| x@);
            assert forall|u: int| 0 <= u < out@.len() implies self@.contains(#[trigger] out@[u]@) by {
                assert(vs[u] == out@[u]@);
                assert(self.id_seq().to_set().contains(vs[u]));
            }
            assert forall|x: Seq<char>| #[trigger] self@.contains(x) implies exists|u: int| 0 <= u < out@.len() && #[trigger] out@[u]@ == x by {
                assert(self.id_seq().to_set().contains(x));
                let u = choose|u: int| 0 <= u < self.id_seq().len() && self.id_seq()[u] == x;
                assert(vs[u] == out@[u]@);
            }
        }
        out
    }

    /// Whether the two sets hold the same identifiers.
    pub fn same_as(&self, other: &Self) -> (r: bool)
        ensures
            r == (self@ == other@),
    {
        let a = self.map.entries();
        let b = other.map.entries();
        proof {
            self.map.lemma_view();
            other.map.lemma_view();
            lemma_entries_map_dom(a@);
            lemma_entries_map_dom(b@);
        }
        if a.len() != b.len() {
            return false;
        }
        let ghost ka = key_values(a@);
        let ghost kb = key_values(b@);
        proof {
            assert forall|i: int, j: int| 0 <= i < j < ka.len() implies str_lt(#[trigger] ka[i], #[trigger] ka[j]) by {
                assert(String::key_lt(a@[i].0.key_view(), a@[j].0.key_view()));
            }
            assert forall|i: int, j: int| 0 <= i < j < kb.len() implies str_lt(#[trigger] kb[i], #[trigger] kb[j]) by {
                assert(String::key_lt(b@[i].0.key_view(), b@[j].0.key_view()));
            }
            if self@ == other@ {
                lemma_sorted_same_set(ka, kb);
            }
        }
        let mut i: usize = 0;
        while i < a.len()
            invariant
                a@.len() == b@.len(),
                ka == key_values(a@),
                kb == key_values(b@),
                i <= a@.len(),
                forall|j: int| 0 <= j < i ==> ka[j] == kb[j],
                self@ == other@ ==> ka == kb,
            decreases a@.len() - i,
        {
            if !str_eq(a[i].0.as_str(), b[i].0.as_str()) {
                proof {
                    assert(ka[i as int] == a@[i as int].0@);
                    assert(kb[i as int] == b@[i as int].0@);
                }
                return false;
            }
            i = i + 1;
        }
        proof {
            assert(ka =~= kb);
            assert(self@ =~= other@);
        }
        true
    }
}

/// Two strictly ascending sequences holding the same elements are equal.
pub proof fn lemma_sorted_same_set(a: Seq<Seq<char>>, b: Seq<Seq<char>>)
    requires
        forall|i: int, j: int| 0 <= i < j < a.len() ==> str_lt(#[trigger] a[i], #[trigger] a[j]),
        forall|i: int, j: int| 0 <= i < j < b.len() ==> str_lt(#[trigger] b[i], #[trigger] b[j]),
        a.to_set() == b.to_set(),
    ensures
        a == b,
    decreases a.len(),
{
    if a.len() == 0 {
        if b.len() > 0 {
            assert(b.to_set().contains(b[0]));
        }
        assert(a =~= b);
    } else if b.len() == 0 {
        assert(a.to_set().contains(a[0]));
    } else {
        assert(b.to_set().contains(a[0]));
        assert(a.to_set().contains(b[0]));
        let j = choose|j: int| 0 <= j < b.len() && b[j] == a[0];
        let i = choose|i: int| 0 <= i < a.len() && a[i] == b[0];
        lemma_str_lt_order(a[0], b[0], a[0]);
        lemma_str_lt_order(b[0], a[0], b[0]);
        if j > 0 {
            assert(str_lt(b[0], b[j]));
            if i > 0 {
                assert(str_lt(a[0], a[i]));
            }
        } else if i > 0 {
            assert(str_lt(a[0], a[i]));
        }
        assert(a[0] == b[0]);
        let a1 = a.drop_first();
        let b1 = b.drop_first();
        assert forall|x: Seq<char>| a1.to_set().contains(x) implies b1.to_set().contains(x) by {
            let p = choose|p: int| 0 <= p < a1.len() && a1[p] == x;
            assert(a[p + 1] == x);
            assert(str_lt(a[0], a[p + 1]));
            lemma_str_lt_order(a[0], x, x);
            assert(b.to_set().contains(x));
            let q = choose|q: int| 0 <= q < b.len() && b[q] == x;
            assert(q != 0);
            assert(b1[q - 1] == x);
        }
        assert forall|x: Seq<char>| b1.to_set().contains(x) implies a1.to_set().contains(x) by {
            let p = choose|p: int| 0 <= p < b1.len() && b1[p] == x;
            assert(b[p + 1] == x);
            assert(str_lt(b[0], b[p + 1]));
            lemma_str_lt_order(b[0], x, x);
            assert(a.to_set().contains(x));
            let q = choose|q: int| 0 <= q < a.len() && a[q] == x;
            assert(q != 0);
            assert(a1[q - 1] == x);
        }
        assert(a1.to_set() =~= b1.to_set());
        assert forall|p: int, q: int| 0 <= p < q < a1.len() implies str_lt(#[trigger] a1[p], #[trigger] a1[q]) by {
            assert(str_lt(a[p + 1], a[q + 1]));
        }
        assert forall|p: int, q: int| 0 <= p < q < b1.len() implies str_lt(#[trigger] b1[p], #[trigger] b1[q]) by {
            assert(str_lt(b[p + 1], b[q + 1]));
        }
        lemma_sorted_same_set(a1, b1);
        assert(a =~= b) by {
            assert forall|p: int| 0 <= p < a.len() implies a[p] == b[p] by {
                if p > 0 {
                    assert(a[p] == a1[p - 1]);
                    assert(b[p] == b1[p - 1]);
                }
            }
        }
    }
}

impl ViewClone for EventIdSet {
    fn view_clone(&self) -> (r: Self) {
        EventIdSet { map: self.map.copy() }
    }
}

} // verus!
