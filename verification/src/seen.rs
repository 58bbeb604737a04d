//! Sequences that note each new value once, at their end: the order in which
//! the values were first seen. The string table of a batch and the list of
//! its traces are such sequences.

use vstd::prelude::*;

verus! {

/// `seen` after `x` was noted: a new value joins at the end.
pub open spec fn noted<A>(seen: Seq<A>, x: A) -> Seq<A> {
    if seen.contains(x) {
        seen
    } else {
        seen.push(x)
    }
}

/// `seen` after each of `xs` was noted, in order.
pub open spec fn noted_all<A>(seen: Seq<A>, xs: Seq<A>) -> Seq<A>
    decreases xs.len(),
{
    if xs.len() == 0 {
        seen
    } else {
        noted(noted_all(seen, xs.drop_last()), xs.last())
    }
}

/// Where no value stands twice, the index of a value is the one place where
/// it stands.
pub proof fn lemma_index_of_unique<A>(seen: Seq<A>, x: A, i: int)
    requires
        seen.no_duplicates(),
        0 <= i < seen.len(),
        seen[i] == x,
    ensures
        seen.index_of(x) == i,
        seen.contains(x),
{
}

/// Noting a value keeps a sequence free of duplicates, keeps what it held
/// where it was, and makes it hold the value.
pub proof fn lemma_noted<A>(seen: Seq<A>, x: A)
    requires
        seen.no_duplicates(),
    ensures
        noted(seen, x).no_duplicates(),
        noted(seen, x).contains(x),
        seen.is_prefix_of(noted(seen, x)),
        forall|y: A| seen.contains(y) ==> noted(seen, x).index_of(y) == seen.index_of(y),
{
    let t = noted(seen, x);
    if !seen.contains(x) {
        assert(t[seen.len() as int] == x);
    }
    assert(seen.is_prefix_of(t));
    assert forall|y: A| seen.contains(y) implies t.index_of(y) == seen.index_of(y) by {
        let i = seen.index_of(y);
        assert(t[i] == y);
        lemma_index_of_unique(t, y, i);
    }
}

/// What `lemma_noted` says of one value holds of many: no duplicates, every
/// value held, the old part kept in place.
pub proof fn lemma_noted_all<A>(seen: Seq<A>, xs: Seq<A>)
    requires
        seen.no_duplicates(),
    ensures
        noted_all(seen, xs).no_duplicates(),
        seen.is_prefix_of(noted_all(seen, xs)),
        forall|i: int| 0 <= i < xs.len() ==> noted_all(seen, xs).contains(#[trigger] xs[i]),
        forall|y: A| seen.contains(y) ==> noted_all(seen, xs).index_of(y) == seen.index_of(y),
        noted_all(seen, xs).len() <= seen.len() + xs.len(),
    decreases xs.len(),
{
    let t = noted_all(seen, xs);
    if xs.len() > 0 {
        let front = xs.drop_last();
        let mid = noted_all(seen, front);
        lemma_noted_all(seen, front);
        lemma_noted(mid, xs.last());
        assert forall|i: int| 0 <= i < xs.len() implies t.contains(#[trigger] xs[i]) by {
            if i < front.len() {
                assert(front[i] == xs[i]);
                let j = mid.index_of(xs[i]);
                assert(t[j] == xs[i]);
            }
        }
        assert forall|y: A| seen.contains(y) implies t.index_of(y) == seen.index_of(y) by {
            let i = seen.index_of(y);
            assert(mid[i] == y);
        }
    }
}

/// `seen` holds each of `xs`.
pub open spec fn covers<A>(seen: Seq<A>, xs: Seq<A>) -> bool {
    forall|i: int| 0 <= i < xs.len() ==> seen.contains(#[trigger] xs[i])
}

/// What was noted is held.
pub proof fn lemma_covered<A>(seen: Seq<A>, xs: Seq<A>, x: A)
    requires
        seen.no_duplicates(),
        xs.contains(x),
    ensures
        noted_all(seen, xs).contains(x),
{
    lemma_noted_all(seen, xs);
    let i = choose|i: int| 0 <= i < xs.len() && xs[i] == x;
    assert(noted_all(seen, xs).contains(xs[i]));
}

/// Noting values never makes a sequence shorter.
pub proof fn lemma_noted_all_len<A>(seen: Seq<A>, xs: Seq<A>)
    ensures
        seen.len() <= noted_all(seen, xs).len(),
    decreases xs.len(),
{
    if xs.len() > 0 {
        lemma_noted_all_len(seen, xs.drop_last());
    }
}

/// Noting more values never gives a shorter sequence.
pub proof fn lemma_noted_all_grows<A>(seen: Seq<A>, xs: Seq<A>, ys: Seq<A>)
    ensures
        noted_all(seen, xs).len() <= noted_all(seen, xs + ys).len(),
{
    lemma_noted_all_concat(seen, xs, ys);
    lemma_noted_all_len(noted_all(seen, xs), ys);
}

/// Noting two runs of values one after the other is noting them in one run.
pub proof fn lemma_noted_all_concat<A>(seen: Seq<A>, xs: Seq<A>, ys: Seq<A>)
    ensures
        noted_all(seen, xs + ys) == noted_all(noted_all(seen, xs), ys),
    decreases ys.len(),
{
    if ys.len() == 0 {
        assert(xs + ys =~= xs);
    } else {
        lemma_noted_all_concat(seen, xs, ys.drop_last());
        assert((xs + ys).drop_last() =~= xs + ys.drop_last());
    }
}

/// Noting one value is noting a run of one.
pub proof fn lemma_noted_all_one<A>(seen: Seq<A>, x: A)
    ensures
        noted_all(seen, seq![x]) == noted(seen, x),
{
    assert(seq![x].drop_last() =~= Seq::<A>::empty());
    assert(noted_all(seen, Seq::<A>::empty()) == seen);
}

/// A value noted a second time stands where it stood, and nothing changes.
pub proof fn lemma_noted_again<A>(seen: Seq<A>, x: A)
    requires
        seen.no_duplicates(),
    ensures
        noted(noted(seen, x), x) == noted(seen, x),
        noted(noted(seen, x), x).index_of(x) == noted(seen, x).index_of(x),
{
    lemma_noted(seen, x);
}

/// Values that are all different, noted from nothing, stand in their own
/// order: the first gets index 0 when it is noted, each next one the next
/// index, and they keep these indices.
pub proof fn lemma_noted_distinct<A>(xs: Seq<A>)
    requires
        xs.no_duplicates(),
    ensures
        noted_all(Seq::empty(), xs) == xs,
        forall|i: int|
            0 <= i < xs.len() ==> noted_all(Seq::empty(), xs.take(i + 1)).index_of(#[trigger] xs[i]) == i,
        forall|i: int| 0 <= i < xs.len() ==> xs.index_of(#[trigger] xs[i]) == i,
    decreases xs.len(),
{
    if xs.len() > 0 {
        let front = xs.drop_last();
        lemma_noted_distinct(front);
        if front.contains(xs.last()) {
            let j = choose|j: int| 0 <= j < front.len() && front[j] == xs.last();
            assert(xs[j] == xs[xs.len() - 1]);
        }
        assert(front.push(xs.last()) =~= xs);
    }
    assert forall|i: int| 0 <= i < xs.len() implies xs.index_of(#[trigger] xs[i]) == i by {
        lemma_index_of_unique(xs, xs[i], i);
    }
    assert forall|i: int| 0 <= i < xs.len() implies noted_all(Seq::empty(), xs.take(i + 1)).index_of(
        #[trigger] xs[i],
    ) == i by {
        let part = xs.take(i + 1);
        if i + 1 < xs.len() {
            assert forall|a: int, b: int| 0 <= a < part.len() && 0 <= b < part.len() && a != b implies part[a]
                != part[b] by {
                assert(part[a] == xs[a] && part[b] == xs[b]);
            }
            lemma_noted_distinct(part);
        } else {
            assert(part =~= xs);
        }
        assert(part[i] == xs[i]);
        lemma_index_of_unique(part, xs[i], i);
    }
}

} // verus!
