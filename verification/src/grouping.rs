//! The spans of a batch by trace: one group for each trace, the traces in the
//! order in which the batch first names them, the spans of a trace in the
//! order of the batch.

use vstd::prelude::*;
use crate::seen::{lemma_noted, lemma_noted_all, noted, noted_all};
use crate::span::{Span, SpanView};

verus! {

/// The trace identifiers of the spans, span by span.
pub open spec fn trace_ids(spans: Seq<SpanView>) -> Seq<u128> {
    spans.map_values(|s: SpanView| s.trace_id)
}

/// The traces of a batch, each once, in the order in which they first occur.
pub open spec fn traces(ids: Seq<u128>) -> Seq<u128> {
    noted_all(Seq::empty(), ids)
}

/// The positions at which `trace` occurs in `ids`, from the first to the
/// last.
pub open spec fn members(ids: Seq<u128>, trace: u128) -> Seq<usize>
    decreases ids.len(),
{
    if ids.len() == 0 {
        Seq::empty()
    } else {
        let front = members(ids.drop_last(), trace);
        if ids.last() == trace {
            front.push((ids.len() - 1) as usize)
        } else {
            front
        }
    }
}

/// The groups of a batch: for each of its traces, the positions of its
/// spans.
pub open spec fn groups(ids: Seq<u128>) -> Seq<Seq<usize>> {
    traces(ids).map_values(|trace: u128| members(ids, trace))
}

/// The members of a trace are positions in the batch, they grow, and they
/// are the positions that hold the trace, all of them.
pub proof fn lemma_members(ids: Seq<u128>, trace: u128)
    requires
        ids.len() <= usize::MAX,
    ensures
        members(ids, trace).len() <= ids.len(),
        forall|k: int|
            0 <= k < members(ids, trace).len() ==> (#[trigger] members(ids, trace)[k]) < ids.len()
                && ids[members(ids, trace)[k] as int] == trace,
        forall|j: int, k: int|
            0 <= j < k < members(ids, trace).len() ==> members(ids, trace)[j] < members(ids, trace)[k],
        forall|i: int|
            0 <= i < ids.len() && ids[i] == trace ==> members(ids, trace).contains(i as usize),
    decreases ids.len(),
{
    let m = members(ids, trace);
    if ids.len() > 0 {
        let front = ids.drop_last();
        let f = members(front, trace);
        lemma_members(front, trace);
        assert forall|k: int| 0 <= k < m.len() implies (#[trigger] m[k]) < ids.len() && ids[m[k] as int]
            == trace by {
            if k < f.len() {
                assert(m[k] == f[k]);
                assert(front[f[k] as int] == ids[f[k] as int]);
            }
        }
        assert forall|j: int, k: int| 0 <= j < k < m.len() implies m[j] < m[k] by {
            assert(m[j] == f[j]);
            if k < f.len() {
                assert(m[k] == f[k]);
            }
        }
        assert forall|i: int| 0 <= i < ids.len() && ids[i] == trace implies m.contains(i as usize) by {
            if i < front.len() {
                assert(front[i] == trace);
                let k = choose|k: int| 0 <= k < f.len() && f[k] == i as usize;
                assert(m[k] == i as usize);
            } else {
                assert(m[m.len() - 1] == i as usize);
            }
        }
    }
}

/// Every span of a batch is in the group of its trace, and every group has a
/// span.
pub proof fn lemma_groups_cover(ids: Seq<u128>)
    requires
        ids.len() <= usize::MAX,
    ensures
        groups(ids).len() == traces(ids).len(),
        groups(ids).len() <= ids.len(),
        traces(ids).no_duplicates(),
        forall|i: int|
            0 <= i < ids.len() ==> traces(ids).contains(#[trigger] ids[i]) && groups(ids)[traces(
                ids,
            ).index_of(ids[i])].contains(i as usize),
        forall|g: int| 0 <= g < groups(ids).len() ==> (#[trigger] groups(ids)[g]).len() > 0,
{
    lemma_noted_all(Seq::<u128>::empty(), ids);
    assert forall|i: int| 0 <= i < ids.len() implies traces(ids).contains(#[trigger] ids[i]) && groups(
        ids,
    )[traces(ids).index_of(ids[i])].contains(i as usize) by {
        lemma_members(ids, ids[i]);
    }
    assert forall|g: int| 0 <= g < groups(ids).len() implies (#[trigger] groups(ids)[g]).len() > 0 by {
        let t = traces(ids)[g];
        lemma_traces_occur(ids, g);
        let i = choose|i: int| 0 <= i < ids.len() && ids[i] == t;
        lemma_members(ids, t);
        assert(members(ids, t).contains(i as usize));
    }
}

/// Every position in `group` is below `n`.
pub open spec fn in_range(group: Seq<usize>, n: nat) -> bool {
    forall|k: int| 0 <= k < group.len() ==> (#[trigger] group[k]) < n
}

/// The groups of a batch hold positions of the batch.
pub proof fn lemma_groups_in_range(ids: Seq<u128>)
    requires
        ids.len() <= usize::MAX,
    ensures
        forall|g: int| 0 <= g < groups(ids).len() ==> in_range(#[trigger] groups(ids)[g], ids.len()),
{
    assert forall|g: int| 0 <= g < groups(ids).len() implies in_range(#[trigger] groups(ids)[g], ids.len()) by {
        lemma_members(ids, traces(ids)[g]);
    }
}

/// Every trace of a batch is the trace of one of its spans.
pub proof fn lemma_traces_occur(ids: Seq<u128>, g: int)
    requires
        0 <= g < traces(ids).len(),
    ensures
        exists|i: int| 0 <= i < ids.len() && ids[i] == traces(ids)[g],
    decreases ids.len(),
{
    if ids.len() > 0 {
        let front = ids.drop_last();
        if g < traces(front).len() {
            lemma_traces_occur(front, g);
            let i = choose|i: int| 0 <= i < front.len() && front[i] == traces(front)[g];
            assert(ids[i] == traces(ids)[g]);
        } else {
            assert(ids[ids.len() - 1] == traces(ids)[g]);
        }
    }
}

/// One more span joins the group of its trace, or opens a new last group;
/// the other groups stay.
proof fn lemma_groups_step(ids: Seq<u128>, id: u128)
    ensures
        traces(ids.push(id)) == noted(traces(ids), id),
        forall|trace: u128|
            members(ids.push(id), trace) == if trace == id {
                members(ids, trace).push(ids.len() as usize)
            } else {
                members(ids, trace)
            },
{
    assert(ids.push(id).drop_last() =~= ids);
}

/// Groups the spans of a batch by trace. Each group holds the positions of
/// the spans of one trace.
pub fn group_by_trace(spans: &Vec<Span>) -> (r: Vec<Vec<usize>>)
    ensures
        r@.len() == groups(trace_ids(spans.deep_view())).len(),
        forall|g: int| 0 <= g < r@.len() ==> (#[trigger] r@[g])@ == groups(trace_ids(spans.deep_view()))[g],
{
    let ghost ids = trace_ids(spans.deep_view());
    let mut seen: Vec<u128> = Vec::new();
    let mut result: Vec<Vec<usize>> = Vec::new();
    let n = spans.len();
    let mut i: usize = 0;
    proof {
        assert(ids.take(0) =~= Seq::empty());
    }
    while i < n
        invariant
            i <= n,
            n == spans@.len(),
            ids == trace_ids(spans.deep_view()),
            ids.len() == n,
            seen@ == traces(ids.take(i as int)),
            seen@.no_duplicates(),
            result@.len() == seen@.len(),
            forall|g: int|
                0 <= g < result@.len() ==> (#[trigger] result@[g])@ == members(ids.take(i as int), seen@[g]),
        decreases n - i,
    {
        let id = spans[i].trace_id;
        let ghost before = ids.take(i as int);
        proof {
            assert(ids[i as int] == spans@[i as int]@.trace_id);
            assert(ids.take(i + 1) =~= before.push(id));
            lemma_groups_step(before, id);
            lemma_noted(seen@, id);
        }
        let mut g: usize = 0;
        while g < seen.len() && seen[g] != id
            invariant
                g <= seen@.len(),
                forall|k: int| 0 <= k < g ==> seen@[k] != id,
            decreases seen@.len() - g,
        {
            g += 1;
        }
        if g == seen.len() {
            let mut group: Vec<usize> = Vec::new();
            group.push(i);
            proof {
                lemma_members_absent(before, id);
                assert(group@ =~= members(before, id).push(i));
            }
            seen.push(id);
            result.push(group);
        } else {
            let mut group: Vec<usize> = Vec::new();
            core::mem::swap(&mut group, &mut result[g]);
            group.push(i);
            result.set(g, group);
        }
        i += 1;
    }
    proof {
        assert(ids.take(n as int) =~= ids);
    }
    result
}

/// A trace that a batch does not name has no members.
proof fn lemma_members_absent(ids: Seq<u128>, trace: u128)
    requires
        !traces(ids).contains(trace),
    ensures
        members(ids, trace) == Seq::<usize>::empty(),
    decreases ids.len(),
{
    if ids.len() > 0 {
        let front = ids.drop_last();
        let t = traces(front);
        if t.contains(trace) {
            let j = choose|j: int| 0 <= j < t.len() && t[j] == trace;
            assert(traces(ids)[j] == trace);
        }
        if ids.last() == trace {
            if t.contains(trace) {
            } else {
                assert(traces(ids)[t.len() as int] == trace);
            }
        }
        lemma_members_absent(front, trace);
    }
}

} // verus!
