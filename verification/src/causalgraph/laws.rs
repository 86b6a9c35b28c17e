//! What holds of every causal graph, and of the answers to questions about
//! it.

use crate::causalgraph::diff::DiffResult;
use crate::causalgraph::dominators::lemma_sorted_unique;
use crate::causalgraph::graph::Graph;
use crate::dtrange::DTRange;
use crate::frontier::{is_sorted_strict, LV};
use crate::range_list::{lemma_reverse_spans, spans_ascending, spans_contain, spans_descending};
use vstd::prelude::*;

verus! {

/// The shadow of a run is not above its start, and every version from the
/// shadow up to the start is in the history of the run's parents.
pub proof fn law_shadow_in_parents_history(g: &Graph, i: int, x: LV)
    requires
        g.wf(),
        0 <= i < g.entries.0@.len(),
    ensures
        g.entries.0@[i].shadow <= g.entries.0@[i].span.start,
        g.entries.0@[i].shadow <= x < g.entries.0@[i].span.start ==> g.frontier_contains(
            g.entries.0@[i].parents@,
            x,
        ),
{
    assert(g.entry_wf(i));
}

/// Every version of the graph is in the history of the graph's frontier.
pub proof fn law_frontier_contains_every_version(g: &Graph, t: LV)
    requires
        g.wf(),
        t < g.spec_len(),
    ensures
        g.frontier_contains(g.version@, t),
{
}

/// The frontier of the graph is strictly ascending, so free of duplicates,
/// and no version of it is in the history of another: it is its own list
/// of dominators.
pub proof fn law_frontier_sorted_and_minimal(g: &Graph)
    requires
        g.wf(),
    ensures
        is_sorted_strict(g.version@),
        g.is_minimal(g.version@),
        g.is_dominators_of(g.version@, g.version@),
{
    let f = g.version@;
    assert forall|v: LV| #[trigger] f.contains(v) == g.is_dominator(f, v) by {
        if f.contains(v) && g.covered_from_above(f, v) {
            let k = choose|k: int|
                0 <= k < f.len() && #[trigger] f[k] > v && g.version_contains(f[k], v);
            let j = choose|j: int| 0 <= j < f.len() && f[j] == v;
            assert(!g.version_contains(f[k], f[j]));
        }
    }
}

/// An ascending list of ranges with gaps between them is determined by the
/// versions that it holds.
pub proof fn lemma_spans_unique(s1: Seq<DTRange>, s2: Seq<DTRange>)
    requires
        spans_ascending(s1),
        spans_ascending(s2),
        forall|x: LV| spans_contain(s1, x) == spans_contain(s2, x),
    ensures
        s1 == s2,
    decreases s1.len(),
{
    if s1.len() == 0 || s2.len() == 0 {
        if s1.len() > 0 {
            assert(s1[0].start <= s1[0].start < s1[0].end);
            assert(spans_contain(s1, s1[0].start));
            let j = choose|j: int|
                0 <= j < s2.len() && (#[trigger] s2[j]).start <= s1[0].start < s2[j].end;
        }
        if s2.len() > 0 {
            assert(s2[0].start <= s2[0].start < s2[0].end);
            assert(spans_contain(s2, s2[0].start));
            let j = choose|j: int|
                0 <= j < s1.len() && (#[trigger] s1[j]).start <= s2[0].start < s1[j].end;
        }
        assert(s1 =~= s2);
    } else {
        lemma_first_span(s1, s2);
        lemma_first_span(s2, s1);
        assert(s1[0] == s2[0]);
        let t1 = s1.skip(1);
        let t2 = s2.skip(1);
        let e = s1[0].end;
        assert forall|x: LV| spans_contain(t1, x) == spans_contain(t2, x) by {
            lemma_tail_contains(s1, x);
            lemma_tail_contains(s2, x);
        }
        assert(spans_ascending(t1)) by {
            assert forall|i: int, j: int| 0 <= i < j < t1.len() implies (#[trigger] t1[i]).end < (
            #[trigger] t1[j]).start by {
                assert(s1[i + 1].end < s1[j + 1].start);
            }
        }
        assert(spans_ascending(t2)) by {
            assert forall|i: int, j: int| 0 <= i < j < t2.len() implies (#[trigger] t2[i]).end < (
            #[trigger] t2[j]).start by {
                assert(s2[i + 1].end < s2[j + 1].start);
            }
        }
        lemma_spans_unique(t1, t2);
        assert(s1 =~= seq![s1[0]] + t1);
        assert(s2 =~= seq![s2[0]] + t2);
    }
}

/// A descending list of ranges with gaps between them is determined by
/// the versions that it holds.
pub proof fn lemma_spans_unique_rev(s1: Seq<DTRange>, s2: Seq<DTRange>)
    requires
        spans_descending(s1),
        spans_descending(s2),
        forall|x: LV| spans_contain(s1, x) == spans_contain(s2, x),
    ensures
        s1 == s2,
{
    lemma_reverse_spans(s1);
    lemma_reverse_spans(s2);
    assert forall|x: LV| spans_contain(s1.reverse(), x) == spans_contain(s2.reverse(), x) by {
        assert(spans_contain(s1.reverse(), x) == spans_contain(s1, x));
        assert(spans_contain(s2.reverse(), x) == spans_contain(s2, x));
    }
    lemma_spans_unique(s1.reverse(), s2.reverse());
    assert(s1 =~= s1.reverse().reverse());
    assert(s2 =~= s2.reverse().reverse());
}

/// The first range of an ascending list starts at the least version that
/// the list holds, and ends at the first version above it that the list
/// does not hold.
proof fn lemma_first_span(s1: Seq<DTRange>, s2: Seq<DTRange>)
    requires
        spans_ascending(s1),
        spans_ascending(s2),
        s1.len() > 0,
        s2.len() > 0,
        forall|x: LV| spans_contain(s1, x) == spans_contain(s2, x),
    ensures
        s2[0].start <= s1[0].start,
        s1[0].start == s2[0].start ==> s2[0].end <= s1[0].end,
{
    let m = s1[0].start;
    assert(s1[0].start <= m < s1[0].end);
    assert(spans_contain(s1, m));
    assert(spans_contain(s2, m));
    let j = choose|j: int| 0 <= j < s2.len() && (#[trigger] s2[j]).start <= m < s2[j].end;
    if j > 0 {
        assert(s2[0].end < s2[j].start);
    }
    if s1[0].start == s2[0].start && s1[0].end < s2[0].end {
        let e = s1[0].end;
        assert(s2[0].start <= e < s2[0].end);
        assert(spans_contain(s2, e));
        assert(spans_contain(s1, e));
        let i = choose|i: int| 0 <= i < s1.len() && (#[trigger] s1[i]).start <= e < s1[i].end;
        if i > 0 {
            assert(s1[0].end < s1[i].start);
        }
        assert(false);
    }
}

/// The rest of an ascending list holds what the list holds above its first
/// range.
proof fn lemma_tail_contains(s: Seq<DTRange>, x: LV)
    requires
        spans_ascending(s),
        s.len() > 0,
    ensures
        spans_contain(s.skip(1), x) == (spans_contain(s, x) && x >= s[0].end),
{
    let t = s.skip(1);
    if spans_contain(t, x) {
        let i = choose|i: int| 0 <= i < t.len() && (#[trigger] t[i]).start <= x < t[i].end;
        assert(s[i + 1].start <= x < s[i + 1].end);
        assert(s[0].end < s[i + 1].start);
    }
    if spans_contain(s, x) && x >= s[0].end {
        let i = choose|i: int| 0 <= i < s.len() && (#[trigger] s[i]).start <= x < s[i].end;
        assert(t[i - 1].start <= x < t[i - 1].end);
    }
}

/// The difference of a frontier and itself is empty on both sides.
pub proof fn law_diff_of_equal_is_empty(g: &Graph, f: Seq<LV>, r: &DiffResult)
    requires
        g.is_diff_rev(f, f, r),
    ensures
        r.0@ == Seq::<DTRange>::empty(),
        r.1@ == Seq::<DTRange>::empty(),
{
    if r.0@.len() > 0 {
        assert(r.0@[0].start <= r.0@[0].start < r.0@[0].end);
        assert(spans_contain(r.0@, r.0@[0].start));
    }
    if r.1@.len() > 0 {
        assert(r.1@[0].start <= r.1@[0].start < r.1@[0].end);
        assert(spans_contain(r.1@, r.1@[0].start));
    }
    assert(r.0@ =~= Seq::<DTRange>::empty());
    assert(r.1@ =~= Seq::<DTRange>::empty());
}

/// The difference turns round with its arguments: what is only in `a`
/// against `b` is what is only in the second against the first when `b` is
/// held against `a`.
pub proof fn law_diff_swaps(g: &Graph, a: Seq<LV>, b: Seq<LV>, ab: &DiffResult, ba: &DiffResult)
    requires
        g.is_diff_rev(a, b, ab),
        g.is_diff_rev(b, a, ba),
    ensures
        ab.0@ == ba.1@,
        ab.1@ == ba.0@,
{
    assert forall|x: LV| spans_contain(ab.0@, x) == spans_contain(ba.1@, x) by {
        assert(spans_contain(ab.0@, x) == g.only_in(a, b, x));
        assert(spans_contain(ba.1@, x) == g.only_in(a, b, x));
    }
    assert forall|x: LV| spans_contain(ab.1@, x) == spans_contain(ba.0@, x) by {
        assert(spans_contain(ab.1@, x) == g.only_in(b, a, x));
        assert(spans_contain(ba.0@, x) == g.only_in(b, a, x));
    }
    lemma_spans_unique_rev(ab.0@, ba.1@);
    lemma_spans_unique_rev(ab.1@, ba.0@);
}

/// The difference of two frontiers is one value: two answers to the same
/// question are equal.
pub proof fn law_diff_is_unique(g: &Graph, a: Seq<LV>, b: Seq<LV>, r1: &DiffResult, r2: &DiffResult)
    requires
        g.is_diff_rev(a, b, r1),
        g.is_diff_rev(a, b, r2),
    ensures
        r1.0@ == r2.0@,
        r1.1@ == r2.1@,
{
    assert forall|x: LV| spans_contain(r1.0@, x) == spans_contain(r2.0@, x) by {
        assert(spans_contain(r1.0@, x) == g.only_in(a, b, x));
        assert(spans_contain(r2.0@, x) == g.only_in(a, b, x));
    }
    assert forall|x: LV| spans_contain(r1.1@, x) == spans_contain(r2.1@, x) by {
        assert(spans_contain(r1.1@, x) == g.only_in(b, a, x));
        assert(spans_contain(r2.1@, x) == g.only_in(b, a, x));
    }
    lemma_spans_unique_rev(r1.0@, r2.0@);
    lemma_spans_unique_rev(r1.1@, r2.1@);
}

/// The dominators of a list of dominators are that list: finding
/// dominators twice gives what finding them once gives.
pub proof fn law_dominators_idempotent(g: &Graph, vs: Seq<LV>, once: Seq<LV>, twice: Seq<LV>)
    requires
        g.is_dominators_of(vs, once),
        g.is_dominators_of(once, twice),
    ensures
        twice == once,
{
    assert forall|v: LV| once.contains(v) == twice.contains(v) by {
        assert(twice.contains(v) == g.is_dominator(once, v));
        assert(once.contains(v) == g.is_dominator(vs, v));
        if once.contains(v) && g.covered_from_above(once, v) {
            let k = choose|k: int|
                0 <= k < once.len() && #[trigger] once[k] > v && g.version_contains(once[k], v);
            assert(once.contains(once[k]));
            assert(g.is_dominator(vs, once[k]));
            let m = choose|m: int| 0 <= m < vs.len() && vs[m] == once[k];
            assert(vs[m] > v && g.version_contains(vs[m], v));
            assert(g.covered_from_above(vs, v));
        }
    }
    lemma_sorted_unique(once, twice);
}

/// The union of two frontiers is a list of dominators, so its dominators
/// are the union itself.
pub proof fn law_union_is_dominators(
    g: &Graph,
    a: Seq<LV>,
    b: Seq<LV>,
    union: Seq<LV>,
    dominators: Seq<LV>,
)
    requires
        g.is_dominators_of(a + b, union),
        g.is_dominators_of(union, dominators),
    ensures
        dominators == union,
{
    law_dominators_idempotent(g, a + b, union, dominators);
}

/// The dominators of a set are one value: two lists of them are equal.
pub proof fn law_dominators_unique(g: &Graph, vs: Seq<LV>, d1: Seq<LV>, d2: Seq<LV>)
    requires
        g.is_dominators_of(vs, d1),
        g.is_dominators_of(vs, d2),
    ensures
        d1 == d2,
{
    assert forall|v: LV| d1.contains(v) == d2.contains(v) by {
        assert(d1.contains(v) == g.is_dominator(vs, v));
        assert(d2.contains(v) == g.is_dominator(vs, v));
    }
    lemma_sorted_unique(d1, d2);
}

/// The dominators of a set have the history of the set: what is in the
/// history of a version of the set is in the history of a dominator.
pub proof fn law_dominators_keep_history(g: &Graph, vs: Seq<LV>, d: Seq<LV>, x: LV)
    requires
        g.entries_wf(),
        g.versions_in_graph(vs),
        g.is_dominators_of(vs, d),
    ensures
        g.frontier_contains(d, x) == g.frontier_contains(vs, x),
{
    if g.frontier_contains(d, x) {
        let k = choose|k: int| 0 <= k < d.len() && #[trigger] g.version_contains(d[k], x);
        assert(d.contains(d[k]));
        let m = choose|m: int| 0 <= m < vs.len() && vs[m] == d[k];
        assert(g.version_contains(vs[m], x));
    }
    if g.frontier_contains(vs, x) {
        let k = choose|k: int| 0 <= k < vs.len() && #[trigger] g.version_contains(vs[k], x);
        lemma_top_dominator(g, vs, vs[k], g.spec_len() - vs[k]);
        let w = choose|w: LV| g.is_dominator(vs, w) && g.version_contains(w, vs[k]);
        g.lemma_contains_transitive(w, vs[k], x);
        assert(d.contains(w));
        let j = choose|j: int| 0 <= j < d.len() && d[j] == w;
        assert(g.version_contains(d[j], x));
    }
}

/// Every version of a set is in the history of a dominator of the set.
proof fn lemma_top_dominator(g: &Graph, vs: Seq<LV>, v: LV, fuel: int)
    requires
        g.entries_wf(),
        g.versions_in_graph(vs),
        vs.contains(v),
        fuel == g.spec_len() - v,
    ensures
        exists|w: LV| g.is_dominator(vs, w) && g.version_contains(w, v),
    decreases fuel,
{
    let i = choose|i: int| 0 <= i < vs.len() && vs[i] == v;
    assert(vs[i] < g.spec_len());
    if g.covered_from_above(vs, v) {
        let k = choose|k: int|
            0 <= k < vs.len() && #[trigger] vs[k] > v && g.version_contains(vs[k], v);
        assert(vs.contains(vs[k]));
        lemma_top_dominator(g, vs, vs[k], g.spec_len() - vs[k]);
        let w = choose|w: LV| g.is_dominator(vs, w) && g.version_contains(w, vs[k]);
        let j = choose|j: int| 0 <= j < vs.len() && vs[j] == w;
        g.lemma_contains_transitive(w, vs[k], v);
    } else {
        g.lemma_contains_self(v);
        assert(g.is_dominator(vs, v) && g.version_contains(v, v));
    }
}

/// The history of a version is the version itself and the history of
/// its parents.
pub proof fn law_history_by_parents(g: &Graph, v: LV, t: LV)
    requires
        g.entries_wf(),
        v < g.spec_len(),
    ensures
        g.version_contains(v, t) == (t == v || g.frontier_contains(g.parents_of(v), t)),
        forall|k: int| 0 <= k < g.parents_of(v).len() ==> #[trigger] g.parents_of(v)[k] < v,
{
    g.lemma_entry_of(v);
    g.lemma_contains_def(v, t);
    let ps = g.parents_of(v);
    if g.run_start(v) == v {
        if g.frontier_contains(ps, t) {
            let k = choose|k: int| 0 <= k < ps.len() && #[trigger] g.version_contains(ps[k], t);
            g.lemma_contains_le(ps[k], t);
        }
        if g.version_contains(v, t) && t != v {
            let k = choose|k: int|
                0 <= k < g.run_parents(v).len() && #[trigger] g.run_parents(v)[k] < v
                    && g.version_contains(g.run_parents(v)[k], t);
            assert(g.version_contains(ps[k], t));
        }
    } else {
        let before = (v - 1) as usize;
        g.lemma_frontier_single(before, t);
        assert(ps[0] == before);
        if t < v {
            g.lemma_run_mates(before, v, t);
        } else if t > v {
            if g.version_contains(before, t) {
                g.lemma_contains_le(before, t);
            }
        }
    }
}

/// Graphs in which every version has the same parents give every version
/// the same history.
pub proof fn law_same_parents_same_history(g1: &Graph, g2: &Graph, v: LV, t: LV)
    requires
        g1.entries_wf(),
        g2.entries_wf(),
        g1.spec_len() == g2.spec_len(),
        v < g1.spec_len(),
        forall|u: LV| u < g1.spec_len() ==> #[trigger] g1.parents_of(u) == g2.parents_of(u),
    ensures
        g1.version_contains(v, t) == g2.version_contains(v, t),
    decreases v,
{
    law_history_by_parents(g1, v, t);
    law_history_by_parents(g2, v, t);
    let ps = g1.parents_of(v);
    assert(g2.parents_of(v) == ps);
    assert forall|k: int| 0 <= k < ps.len() implies g1.version_contains(ps[k], t)
        == g2.version_contains(ps[k], t) by {
        law_same_parents_same_history(g1, g2, ps[k], t);
    }
    if g1.frontier_contains(ps, t) {
        let k = choose|k: int| 0 <= k < ps.len() && #[trigger] g1.version_contains(ps[k], t);
        assert(g2.version_contains(ps[k], t));
    }
    if g2.frontier_contains(ps, t) {
        let k = choose|k: int| 0 <= k < ps.len() && #[trigger] g2.version_contains(ps[k], t);
        assert(g1.version_contains(ps[k], t));
    }
}

/// A version of the frontier of one graph is in the frontier of another
/// graph in which every version has the same parents.
proof fn lemma_frontier_shared(g1: &Graph, g2: &Graph, x: LV)
    requires
        g1.wf(),
        g2.wf(),
        g1.spec_len() == g2.spec_len(),
        forall|u: LV| u < g1.spec_len() ==> #[trigger] g1.parents_of(u) == g2.parents_of(u),
        g1.version@.contains(x),
    ensures
        g2.version@.contains(x),
{
    let f1 = g1.version@;
    let f2 = g2.version@;
    let i = choose|i: int| 0 <= i < f1.len() && f1[i] == x;
    assert(f1[i] < g1.spec_len());
    assert(g2.frontier_contains(f2, x));
    let j = choose|j: int| 0 <= j < f2.len() && #[trigger] g2.version_contains(f2[j], x);
    let y = f2[j];
    assert(y < g2.spec_len());
    law_same_parents_same_history(g1, g2, y, x);
    assert(g1.frontier_contains(f1, y));
    let m = choose|m: int| 0 <= m < f1.len() && #[trigger] g1.version_contains(f1[m], y);
    assert(f1[m] < g1.spec_len());
    g1.lemma_contains_transitive(f1[m], y, x);
    if m != i {
        assert(!g1.version_contains(f1[m], f1[i]));
    }
    g1.lemma_contains_le(x, y);
    g1.lemma_contains_le(y, x);
}

/// Graphs in which every version has the same parents have the same
/// frontier.
pub proof fn law_same_parents_same_frontier(g1: &Graph, g2: &Graph)
    requires
        g1.wf(),
        g2.wf(),
        g1.spec_len() == g2.spec_len(),
        forall|u: LV| u < g1.spec_len() ==> #[trigger] g1.parents_of(u) == g2.parents_of(u),
    ensures
        g1.version@ == g2.version@,
{
    assert forall|v: LV| g1.version@.contains(v) == g2.version@.contains(v) by {
        if g1.version@.contains(v) {
            lemma_frontier_shared(g1, g2, v);
        }
        if g2.version@.contains(v) {
            lemma_frontier_shared(g2, g1, v);
        }
    }
    lemma_sorted_unique(g1.version@, g2.version@);
}

} // verus!
