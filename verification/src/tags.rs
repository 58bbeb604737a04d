//! A map from string keys to values that keeps its entries in the order of
//! their keys: the form in which a span carries its attributes, and in which
//! the entries of its `meta` and `metrics` are written.

use vstd::prelude::*;
use crate::order::{key_lt, lemma_key_lt_asymmetric, lemma_key_lt_irreflexive, lemma_key_lt_total,
    lemma_key_lt_transitive, str_lt};

verus! {

/// The keys of `s` grow strictly from each entry to the next.
pub open spec fn ascending<V>(s: Seq<(Seq<char>, V)>) -> bool {
    forall|i: int, j: int| #![trigger s[i], s[j]] 0 <= i < j < s.len() ==> key_lt(s[i].0, s[j].0)
}

/// Some entry of `s` has the key `key`.
pub open spec fn has_key<V>(s: Seq<(Seq<char>, V)>, key: Seq<char>) -> bool {
    exists|i: int| 0 <= i < s.len() && #[trigger] s[i].0 == key
}

/// The keys of the entries of `s`.
pub open spec fn keys<V>(s: Seq<(Seq<char>, V)>) -> Set<Seq<char>> {
    Set::new(|key: Seq<char>| has_key(s, key))
}

/// The value that `s` holds under `key`, if it holds one.
pub open spec fn lookup<V>(s: Seq<(Seq<char>, V)>, key: Seq<char>) -> Option<V> {
    if has_key(s, key) {
        Some(s[choose|i: int| 0 <= i < s.len() && #[trigger] s[i].0 == key].1)
    } else {
        None
    }
}

/// The test for entries whose key comes before `key`.
pub open spec fn is_below<V>(key: Seq<char>) -> spec_fn((Seq<char>, V)) -> bool {
    |e: (Seq<char>, V)| key_lt(e.0, key)
}

/// The test for entries whose key comes after `key`.
pub open spec fn is_above<V>(key: Seq<char>) -> spec_fn((Seq<char>, V)) -> bool {
    |e: (Seq<char>, V)| key_lt(key, e.0)
}

/// `s` with `value` under `key`: the entries before `key`, the new entry,
/// the entries after `key`. An entry that had the key is gone.
pub open spec fn upsert<V>(s: Seq<(Seq<char>, V)>, key: Seq<char>, value: V) -> Seq<(Seq<char>, V)> {
    s.filter(is_below(key)).push((key, value)) + s.filter(is_above(key))
}

/// `p` is where `key` belongs in `s`: the keys before it come before `key`,
/// the keys from it on do not.
pub open spec fn is_rank<V>(s: Seq<(Seq<char>, V)>, key: Seq<char>, p: int) -> bool {
    &&& 0 <= p <= s.len()
    &&& forall|i: int| 0 <= i < p ==> key_lt(#[trigger] s[i].0, key)
    &&& forall|i: int| p <= i < s.len() ==> !key_lt(#[trigger] s[i].0, key)
}

proof fn lemma_filter_head<A>(s: Seq<A>, pred: spec_fn(A) -> bool, p: int)
    requires
        0 <= p <= s.len(),
        forall|i: int| 0 <= i < p ==> pred(#[trigger] s[i]),
        forall|i: int| p <= i < s.len() ==> !pred(#[trigger] s[i]),
    ensures
        s.filter(pred) == s.take(p),
    decreases s.len(),
{
    reveal(Seq::filter);
    if s.len() == 0 {
        assert(s.filter(pred) =~= s.take(p));
    } else if p == s.len() {
        lemma_filter_head(s.drop_last(), pred, p - 1);
        assert(s.drop_last().take(p - 1).push(s.last()) =~= s.take(p));
    } else {
        lemma_filter_head(s.drop_last(), pred, p);
        assert(s.drop_last().take(p) =~= s.take(p));
    }
}

proof fn lemma_filter_tail<A>(s: Seq<A>, pred: spec_fn(A) -> bool, q: int)
    requires
        0 <= q <= s.len(),
        forall|i: int| 0 <= i < q ==> !pred(#[trigger] s[i]),
        forall|i: int| q <= i < s.len() ==> pred(#[trigger] s[i]),
    ensures
        s.filter(pred) == s.skip(q),
    decreases s.len(),
{
    reveal(Seq::filter);
    if s.len() == 0 {
        assert(s.filter(pred) =~= s.skip(q));
    } else if q == s.len() {
        lemma_filter_tail(s.drop_last(), pred, q - 1);
        assert(s.drop_last().skip(q - 1) =~= s.skip(q));
    } else {
        lemma_filter_tail(s.drop_last(), pred, q);
        assert(s.drop_last().skip(q).push(s.last()) =~= s.skip(q));
    }
}

/// Where `key` belongs at `p`, `upsert` replaces the entry at `p` if that has
/// the key, and else puts the new entry in before it; the keys still grow.
pub proof fn lemma_upsert_at<V>(s: Seq<(Seq<char>, V)>, key: Seq<char>, value: V, p: int)
    requires
        ascending(s),
        is_rank(s, key, p),
    ensures
        p < s.len() && s[p].0 == key ==> upsert(s, key, value) == s.update(p, (key, value)),
        !(p < s.len() && s[p].0 == key) ==> upsert(s, key, value) == s.insert(p, (key, value)),
        ascending(upsert(s, key, value)),
{
    let found = p < s.len() && s[p].0 == key;
    let q = if found { p + 1 } else { p };
    assert forall|i: int| 0 <= i < q implies !is_above::<V>(key)(#[trigger] s[i]) by {
        if i < p {
            lemma_key_lt_asymmetric(s[i].0, key);
        } else {
            lemma_key_lt_irreflexive(key);
        }
    }
    assert forall|i: int| q <= i < s.len() implies is_above::<V>(key)(#[trigger] s[i]) by {
        lemma_key_lt_total(s[i].0, key);
        if s[i].0 == key {
            assert(p < i);
            assert(key_lt(s[p].0, s[i].0));
        }
    }
    lemma_filter_head(s, is_below::<V>(key), p);
    lemma_filter_tail(s, is_above::<V>(key), q);
    let r = upsert(s, key, value);
    assert(r == s.take(p).push((key, value)) + s.skip(q));
    if found {
        assert(r =~= s.update(p, (key, value)));
    } else {
        assert(r =~= s.insert(p, (key, value)));
    }
    assert forall|i: int, j: int| 0 <= i < j < r.len() implies key_lt(r[i].0, r[j].0) by {
        let a = if i < p { i } else { i - p - 1 + q };
        let b = if j < p { j } else { j - p - 1 + q };
        if i == p {
            assert(r[j] == s[b]);
        } else if j == p {
            assert(r[i] == s[a]);
        } else {
            assert(r[i] == s[a]);
            assert(r[j] == s[b]);
        }
    }
}

/// After `upsert`, `key` leads to `value` and every other key to what it led
/// to before.
pub proof fn lemma_lookup_upsert<V>(s: Seq<(Seq<char>, V)>, key: Seq<char>, value: V, other: Seq<char>)
    requires
        ascending(s),
    ensures
        lookup(upsert(s, key, value), other) == if other == key {
            Some(value)
        } else {
            lookup(s, other)
        },
{
    let p = rank_of(s, key);
    lemma_rank_of(s, key);
    lemma_upsert_at(s, key, value, p);
    let r = upsert(s, key, value);
    let found = p < s.len() && s[p].0 == key;
    let q = if found { p + 1 } else { p };
    assert(r[p] == (key, value));
    if other == key {
        assert(r[p].0 == key);
        lemma_lookup_unique(r, key, p);
    } else if has_key(s, other) {
        let i = choose|i: int| 0 <= i < s.len() && #[trigger] s[i].0 == other;
        let j = if i < p { i } else { i + 1 + p - q };
        assert(r[j] == s[i]);
        lemma_lookup_unique(r, other, j);
        lemma_lookup_unique(s, other, i);
    } else {
        if has_key(r, other) {
            let j = choose|j: int| 0 <= j < r.len() && #[trigger] r[j].0 == other;
            let i = if j < p { j } else { j - 1 - p + q };
            assert(r[j] == s[i]);
            assert(s[i].0 == other);
        }
    }
}

/// Where the keys grow, the entry with a given key is the only one with it.
pub proof fn lemma_lookup_unique<V>(s: Seq<(Seq<char>, V)>, key: Seq<char>, i: int)
    requires
        ascending(s),
        0 <= i < s.len(),
        s[i].0 == key,
    ensures
        lookup(s, key) == Some(s[i].1),
{
    assert(has_key(s, key));
    let j = choose|j: int| 0 <= j < s.len() && #[trigger] s[j].0 == key;
    lemma_key_lt_irreflexive(key);
    if j < i {
        assert(key_lt(s[j].0, s[i].0));
    } else if i < j {
        assert(key_lt(s[i].0, s[j].0));
    }
}

/// How many entries of `s` have a key before `key`.
pub open spec fn rank_of<V>(s: Seq<(Seq<char>, V)>, key: Seq<char>) -> int {
    s.filter(is_below(key)).len() as int
}

proof fn lemma_rank_exists<V>(s: Seq<(Seq<char>, V)>, key: Seq<char>) -> (p: int)
    requires
        ascending(s),
    ensures
        is_rank(s, key, p),
    decreases s.len(),
{
    if s.len() == 0 {
        0
    } else {
        let t = s.drop_last();
        assert(ascending(t)) by {
            assert forall|i: int, j: int| 0 <= i < j < t.len() implies key_lt(t[i].0, t[j].0) by {
                assert(t[i] == s[i]);
                assert(t[j] == s[j]);
            }
        }
        let p = lemma_rank_exists(t, key);
        assert forall|i: int| 0 <= i < p implies key_lt(#[trigger] s[i].0, key) by {
            assert(t[i] == s[i]);
        }
        if key_lt(s.last().0, key) {
            assert forall|i: int| 0 <= i < s.len() implies key_lt(#[trigger] s[i].0, key) by {
                if i < s.len() - 1 {
                    assert(key_lt(s[i].0, s[s.len() - 1].0));
                    lemma_key_lt_transitive(s[i].0, s.last().0, key);
                }
            }
            s.len() as int
        } else {
            assert forall|i: int| p <= i < s.len() implies !key_lt(#[trigger] s[i].0, key) by {
                if i < t.len() {
                    assert(t[i] == s[i]);
                }
            }
            p
        }
    }
}

/// Where the keys grow, `key` belongs behind the entries that come before it.
pub proof fn lemma_rank_of<V>(s: Seq<(Seq<char>, V)>, key: Seq<char>)
    requires
        ascending(s),
    ensures
        is_rank(s, key, rank_of(s, key)),
{
    let p = lemma_rank_exists(s, key);
    lemma_filter_head(s, is_below::<V>(key), p);
}

/// The test on entries that `keep` is on their values.
pub open spec fn keeps<V>(keep: spec_fn(V) -> bool) -> spec_fn((Seq<char>, V)) -> bool {
    |e: (Seq<char>, V)| keep(e.1)
}

/// The change of entries that `to` is on their values; the key stays.
pub open spec fn converts<V, W>(to: spec_fn(V) -> W) -> spec_fn((Seq<char>, V)) -> (Seq<char>, W) {
    |e: (Seq<char>, V)| (e.0, to(e.1))
}

/// The entries of `s` whose value passes `keep`, in their order, each with
/// its value changed by `to`.
pub open spec fn select<V, W>(s: Seq<(Seq<char>, V)>, keep: spec_fn(V) -> bool, to: spec_fn(V) -> W) -> Seq<
    (Seq<char>, W),
> {
    s.filter(keeps(keep)).map_values(converts(to))
}

/// `select` looks at one entry after the other.
pub proof fn lemma_select_push<V, W>(
    s: Seq<(Seq<char>, V)>,
    e: (Seq<char>, V),
    keep: spec_fn(V) -> bool,
    to: spec_fn(V) -> W,
)
    ensures
        select(s.push(e), keep, to) == if keep(e.1) {
            select(s, keep, to).push((e.0, to(e.1)))
        } else {
            select(s, keep, to)
        },
        select(Seq::<(Seq<char>, V)>::empty(), keep, to) == Seq::<(Seq<char>, W)>::empty(),
{
    s.lemma_filter_push(e, keeps(keep));
    s.filter(keeps(keep)).lemma_push_map_commute(converts(to), e);
    reveal(Seq::filter);
    assert(select(Seq::<(Seq<char>, V)>::empty(), keep, to) =~= Seq::<(Seq<char>, W)>::empty());
}

/// The keys of `select` are the keys of the entries whose value passes, and
/// where the keys of `s` grow, so do those of `select`.
pub proof fn lemma_select_keys<V, W>(s: Seq<(Seq<char>, V)>, keep: spec_fn(V) -> bool, to: spec_fn(V) -> W)
    ensures
        forall|key: Seq<char>|
            has_key(select(s, keep, to), key) <==> exists|i: int|
                0 <= i < s.len() && #[trigger] s[i].0 == key && keep(s[i].1),
        ascending(s) ==> ascending(select(s, keep, to)),
    decreases s.len(),
{
    let r = select(s, keep, to);
    if s.len() == 0 {
        lemma_select_push(s, arbitrary(), keep, to);
        assert(s =~= Seq::empty());
    } else {
        let t = s.drop_last();
        let e = s.last();
        let rt = select(t, keep, to);
        assert(t.push(e) =~= s);
        lemma_select_push(t, e, keep, to);
        lemma_select_keys(t, keep, to);
        assert forall|key: Seq<char>| has_key(r, key) implies exists|i: int|
            0 <= i < s.len() && #[trigger] s[i].0 == key && keep(s[i].1) by {
            let j = choose|j: int| 0 <= j < r.len() && #[trigger] r[j].0 == key;
            if j < rt.len() {
                assert(rt[j].0 == key);
                assert(has_key(rt, key));
                let i = choose|i: int| 0 <= i < t.len() && #[trigger] t[i].0 == key && keep(t[i].1);
                assert(s[i].0 == key && keep(s[i].1));
            } else {
                assert(s[s.len() - 1].0 == key && keep(s[s.len() - 1].1));
            }
        }
        assert forall|key: Seq<char>| (exists|i: int|
            0 <= i < s.len() && #[trigger] s[i].0 == key && keep(s[i].1)) implies has_key(r, key) by {
            let i = choose|i: int| 0 <= i < s.len() && #[trigger] s[i].0 == key && keep(s[i].1);
            if i < t.len() {
                assert(t[i].0 == key && keep(t[i].1));
                assert(has_key(rt, key));
                let j = choose|j: int| 0 <= j < rt.len() && #[trigger] rt[j].0 == key;
                assert(r[j].0 == key);
            } else {
                assert(r[r.len() - 1].0 == key);
            }
        }
        if ascending(s) {
            assert(ascending(t)) by {
                assert forall|i: int, j: int| 0 <= i < j < t.len() implies key_lt(t[i].0, t[j].0) by {
                    assert(t[i] == s[i]);
                    assert(t[j] == s[j]);
                }
            }
            assert forall|i: int, j: int| 0 <= i < j < r.len() implies key_lt(r[i].0, r[j].0) by {
                if j < rt.len() {
                    assert(r[i] == rt[i]);
                    assert(r[j] == rt[j]);
                } else {
                    assert(r[i] == rt[i]);
                    assert(has_key(rt, rt[i].0));
                    let k = choose|k: int| 0 <= k < t.len() && #[trigger] t[k].0 == rt[i].0 && keep(t[k].1);
                    assert(key_lt(s[k].0, s[s.len() - 1].0));
                }
            }
        }
    }
}

/// Where the keys of `s` grow, `select` leads from a key to the changed
/// value of `s` under that key if that value passes, and else to nothing.
pub proof fn lemma_select_lookup<V, W>(
    s: Seq<(Seq<char>, V)>,
    keep: spec_fn(V) -> bool,
    to: spec_fn(V) -> W,
    key: Seq<char>,
)
    requires
        ascending(s),
    ensures
        lookup(select(s, keep, to), key) == match lookup(s, key) {
            Some(v) => if keep(v) {
                Some(to(v))
            } else {
                None
            },
            None => None,
        },
    decreases s.len(),
{
    let r = select(s, keep, to);
    lemma_select_keys(s, keep, to);
    if s.len() == 0 {
    } else {
        let t = s.drop_last();
        let e = s.last();
        let rt = select(t, keep, to);
        assert(t.push(e) =~= s);
        lemma_select_push(t, e, keep, to);
        lemma_select_keys(t, keep, to);
        assert(ascending(t)) by {
            assert forall|i: int, j: int| 0 <= i < j < t.len() implies key_lt(t[i].0, t[j].0) by {
                assert(t[i] == s[i]);
                assert(t[j] == s[j]);
            }
        }
        lemma_select_lookup(t, keep, to, key);
        if e.0 == key {
            lemma_lookup_unique(s, key, s.len() - 1);
            if keep(e.1) {
                lemma_lookup_unique(r, key, r.len() - 1);
            } else {
                if has_key(r, key) {
                    let i = choose|i: int| 0 <= i < t.len() && #[trigger] t[i].0 == key && keep(t[i].1);
                    assert(key_lt(s[i].0, s[s.len() - 1].0));
                    lemma_key_lt_irreflexive(key);
                }
            }
        } else {
            if has_key(s, key) {
                let i = choose|i: int| 0 <= i < s.len() && #[trigger] s[i].0 == key;
                assert(t[i].0 == key);
                lemma_lookup_unique(s, key, i);
                lemma_lookup_unique(t, key, i);
            } else {
                if has_key(t, key) {
                    let i = choose|i: int| 0 <= i < t.len() && #[trigger] t[i].0 == key;
                    assert(s[i].0 == key);
                }
            }
            if has_key(rt, key) {
                let j = choose|j: int| 0 <= j < rt.len() && #[trigger] rt[j].0 == key;
                assert(r[j] == rt[j]);
                lemma_lookup_unique(rt, key, j);
                lemma_lookup_unique(r, key, j);
            } else {
                if has_key(r, key) {
                    let j = choose|j: int| 0 <= j < r.len() && #[trigger] r[j].0 == key;
                    if j < rt.len() {
                        assert(rt[j].0 == key);
                    }
                }
            }
        }
    }
}

/// A key behind all the keys of `s` joins `s` at its end.
pub proof fn lemma_upsert_last<V>(s: Seq<(Seq<char>, V)>, key: Seq<char>, value: V)
    requires
        ascending(s),
        forall|i: int| 0 <= i < s.len() ==> key_lt(#[trigger] s[i].0, key),
    ensures
        upsert(s, key, value) == s.push((key, value)),
{
    lemma_upsert_at(s, key, value, s.len() as int);
    assert(s.insert(s.len() as int, (key, value)) =~= s.push((key, value)));
}

spec fn entries_view<V: View>(entries: Seq<(String, V)>) -> Seq<(Seq<char>, V::V)> {
    Seq::new(entries.len(), |i: int| (entries[i].0@, entries[i].1@))
}

/// A map from string keys to values whose entries stand in the order of
/// their keys, each key once.
#[derive(Debug)]
pub struct TagMap<V: View> {
    entries: Vec<(String, V)>,
}

impl<V: View> View for TagMap<V> {
    type V = Seq<(Seq<char>, V::V)>;

    /// The entries, each by the views of its key and its value.
    closed spec fn view(&self) -> Self::V {
        entries_view(self.entries@)
    }
}

impl<V: View> TagMap<V> {
    /// The entries stand in the strict order of their keys.
    #[verifier::type_invariant]
    pub open spec fn well_formed(&self) -> bool {
        ascending(self@)
    }

    /// The map without entries.
    pub fn new() -> (r: Self)
        ensures
            r@ == Seq::<(Seq<char>, V::V)>::empty(),
    {
        let r = TagMap { entries: Vec::new() };
        assert(r@ =~= Seq::<(Seq<char>, V::V)>::empty());
        r
    }

    /// The number of entries.
    pub fn len(&self) -> (n: usize)
        ensures
            n == self@.len(),
    {
        self.entries.len()
    }

    /// The entry at position `i` in the order of the keys, if there are that
    /// many.
    pub fn get_index(&self, i: usize) -> (r: Option<(&String, &V)>)
        ensures
            i < self@.len() <==> r is Some,
            r matches Some(e) ==> (e.0@, e.1@) == self@[i as int],
    {
        if i < self.entries.len() {
            let e = &self.entries[i];
            Some((&e.0, &e.1))
        } else {
            None
        }
    }

    /// Where `key` belongs among the entries.
    fn rank(&self, key: &str) -> (p: usize)
        ensures
            is_rank(self@, key@, p as int),
    {
        proof {
            use_type_invariant(self);
        }
        let mut lo: usize = 0;
        let mut hi: usize = self.entries.len();
        while lo < hi
            invariant
                0 <= lo <= hi <= self.entries@.len(),
                self@.len() == self.entries@.len(),
                ascending(self@),
                forall|i: int| 0 <= i < lo ==> key_lt(#[trigger] self@[i].0, key@),
                forall|i: int| hi <= i < self@.len() ==> !key_lt(#[trigger] self@[i].0, key@),
            decreases hi - lo,
        {
            let mid = lo + (hi - lo) / 2;
            if str_lt(self.entries[mid].0.as_str(), key) {
                proof {
                    assert forall|i: int| 0 <= i < mid + 1 implies key_lt(#[trigger] self@[i].0, key@) by {
                        if i < mid {
                            assert(key_lt(self@[i].0, self@[mid as int].0));
                            lemma_key_lt_transitive(self@[i].0, self@[mid as int].0, key@);
                        }
                    }
                }
                lo = mid + 1;
            } else {
                proof {
                    assert forall|i: int| mid <= i < self@.len() implies !key_lt(#[trigger] self@[i].0, key@) by {
                        if mid < i && key_lt(self@[i].0, key@) {
                            assert(key_lt(self@[mid as int].0, self@[i].0));
                            lemma_key_lt_transitive(self@[mid as int].0, self@[i].0, key@);
                        }
                    }
                }
                hi = mid;
            }
        }
        lo
    }

    /// The value under `key`, if the map holds one.
    pub fn get(&self, key: &str) -> (r: Option<&V>)
        ensures
            r is Some <==> has_key(self@, key@),
            r matches Some(v) ==> lookup(self@, key@) == Some(v@),
    {
        proof {
            use_type_invariant(self);
        }
        let p = self.rank(key);
        if p < self.entries.len() && !str_lt(key, self.entries[p].0.as_str()) {
            proof {
                lemma_key_lt_total(self@[p as int].0, key@);
                lemma_lookup_unique(self@, key@, p as int);
            }
            Some(&self.entries[p].1)
        } else {
            proof {
                if has_key(self@, key@) {
                    let i = choose|i: int| 0 <= i < self@.len() && #[trigger] self@[i].0 == key@;
                    lemma_key_lt_irreflexive(key@);
                    if i > p {
                        assert(key_lt(self@[p as int].0, self@[i].0));
                    }
                }
            }
            None
        }
    }

    /// Puts `value` under `key`, in place of the value that was there if
    /// there was one.
    pub fn insert(&mut self, key: String, value: V)
        ensures
            final(self)@ == upsert(old(self)@, key@, value@),
    {
        proof {
            use_type_invariant(&*self);
        }
        let p = self.rank(key.as_str());
        let found = p < self.entries.len() && !str_lt(key.as_str(), self.entries[p].0.as_str());
        proof {
            lemma_upsert_at(self@, key@, value@, p as int);
            if p < self@.len() {
                lemma_key_lt_total(self@[p as int].0, key@);
            }
        }
        let ghost before = self@;
        let mut taken: TagMap<V> = TagMap::new();
        core::mem::swap(self, &mut taken);
        let mut entries = taken.entries;
        if found {
            entries.set(p, (key, value));
        } else {
            entries.insert(p, (key, value));
        }
        proof {
            if found {
                assert(entries_view(entries@) =~= before.update(p as int, (key@, value@)));
            } else {
                assert(entries_view(entries@) =~= before.insert(p as int, (key@, value@)));
            }
        }
        *self = TagMap { entries };
    }
}

} // verus!
