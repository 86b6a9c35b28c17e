//! The history as a list of runs. A run is a range of versions made one
//! after the other; only its first version has parents outside the run.

use crate::dtrange::DTRange;
use crate::frontier::{is_sorted_strict, slice_contains, Frontier, LV};
use crate::rle::rle_vec::RleVec;
use crate::rle::{HasLength, MergableSpan, RleKeyed};
use vstd::prelude::*;

verus! {

/// One run of the history.
#[derive(Debug)]
pub struct GraphEntry {
    /// The versions of the run.
    pub span: DTRange,
    /// A version such that every version from it up to the run's end is in
    /// the history of the run's last version.
    pub shadow: LV,
    /// The parents of the run's first version.
    pub parents: Frontier,
}

impl GraphEntry {
    pub fn contains(&self, v: LV) -> (b: bool)
        ensures
            b == self.span.spec_contains(v),
    {
        self.span.contains(v)
    }

    /// The last version of the run.
    pub fn last_time(&self) -> (v: LV)
        requires
            self.span.start < self.span.end,
        ensures
            v == self.span.end - 1,
    {
        self.span.last()
    }

    /// Whether `time` is at or above the run's shadow.
    pub fn shadow_contains(&self, time: LV) -> (b: bool)
        ensures
            b == (self.shadow <= time),
    {
        time >= self.shadow
    }
}

impl HasLength for GraphEntry {
    open spec fn wf(&self) -> bool {
        self.span.start <= self.span.end
    }

    open spec fn spec_len(&self) -> nat {
        (self.span.end - self.span.start) as nat
    }

    fn len(&self) -> (n: usize) {
        self.span.end - self.span.start
    }
}

impl RleKeyed for GraphEntry {
    open spec fn spec_rle_key(&self) -> nat {
        self.span.start as nat
    }

    fn get_rle_key(&self) -> (k: usize) {
        self.span.start
    }
}

impl MergableSpan for GraphEntry {
    open spec fn spec_can_append(&self, other: &GraphEntry) -> bool {
        &&& self.span.end == other.span.start
        &&& other.parents@.len() == 1
        &&& other.parents@[0] + 1 == self.span.end
        &&& other.shadow == self.shadow
    }

    open spec fn spec_append(self, other: GraphEntry) -> GraphEntry {
        GraphEntry {
            span: DTRange { start: self.span.start, end: other.span.end },
            shadow: self.shadow,
            parents: self.parents,
        }
    }

    proof fn lemma_append_length(self, other: GraphEntry) {
    }

    fn can_append(&self, other: &GraphEntry) -> (b: bool) {
        if self.span.end == other.span.start && other.shadow == self.shadow && other.parents.len()
            == 1 && self.span.end >= 1 {
            other.parents.get(0) == self.span.end - 1
        } else {
            false
        }
    }

    fn append(&mut self, other: GraphEntry) {
        self.span.end = other.span.end;
    }

    fn prepend(&mut self, other: GraphEntry) {
        self.span.start = other.span.start;
        self.shadow = other.shadow;
        self.parents = other.parents;
    }
}

/// The causal graph of one replica, with the frontier of all it holds.
pub struct Graph {
    pub entries: RleVec<GraphEntry>,
    pub version: Frontier,
}

impl Graph {
    /// Number of versions in the graph: the next version to be given out.
    pub open spec fn spec_len(&self) -> nat {
        self.entries.spec_end()
    }

    /// The run that holds version `v`.
    pub open spec fn entry_of(&self, v: LV) -> GraphEntry {
        self.entries.0@[choose|i: int| self.entries.covers(i, v as nat)]
    }

    /// First version of the run that holds `v`.
    pub open spec fn run_start(&self, v: LV) -> LV {
        self.entry_of(v).span.start
    }

    /// Parents of the run that holds `v`.
    pub open spec fn run_parents(&self, v: LV) -> Seq<LV> {
        self.entry_of(v).parents@
    }

    /// The parents of version `v`: those of its run for the first version
    /// of a run, else the version before it.
    pub open spec fn parents_of(&self, v: LV) -> Seq<LV> {
        if self.run_start(v) == v {
            self.run_parents(v)
        } else {
            seq![(v - 1) as usize]
        }
    }

    /// Whether `t` is in the history of `v`: it is `v`, or an earlier
    /// version of `v`'s run, or in the history of a parent of that run.
    #[verifier::opaque]
    pub open spec fn version_contains(&self, v: LV, t: LV) -> bool
        decreases v,
    {
        if t > v {
            false
        } else if t >= self.run_start(v) {
            true
        } else {
            exists|k: int|
                0 <= k < self.run_parents(v).len() && #[trigger] self.run_parents(v)[k] < v
                    && self.version_contains(self.run_parents(v)[k], t)
        }
    }

    /// Whether `t` is in the history of one of the versions of `f`.
    pub open spec fn frontier_contains(&self, f: Seq<LV>, t: LV) -> bool {
        exists|k: int| 0 <= k < f.len() && #[trigger] self.version_contains(f[k], t)
    }

    /// Run `i` is consistent: its parents are in order and come before it,
    /// and what lies between its shadow and its start is in their history.
    pub open spec fn entry_wf(&self, i: int) -> bool {
        let e = self.entries.0@[i];
        &&& e.span.start < e.span.end
        &&& e.shadow <= e.span.start
        &&& is_sorted_strict(e.parents@)
        &&& forall|k: int| 0 <= k < e.parents@.len() ==> #[trigger] e.parents@[k] < e.span.start
        &&& forall|x: LV|
            e.shadow <= x < e.span.start ==> #[trigger] self.frontier_contains(e.parents@, x)
    }

    /// The runs cover the versions from 0 on, and each is consistent.
    pub open spec fn entries_wf(&self) -> bool {
        &&& self.entries.runs_wf()
        &&& self.entries.is_packed()
        &&& forall|i: int| 0 <= i < self.entries.0@.len() ==> #[trigger] self.entry_wf(i)
    }

    /// `f` is a frontier of this graph: in order, of versions the graph holds.
    pub open spec fn valid_frontier(&self, f: Seq<LV>) -> bool {
        &&& is_sorted_strict(f)
        &&& forall|k: int| 0 <= k < f.len() ==> #[trigger] f[k] < self.spec_len()
    }

    /// No version of `f` is in the history of another.
    pub open spec fn is_minimal(&self, f: Seq<LV>) -> bool {
        forall|i: int, j: int|
            0 <= i < f.len() && 0 <= j < f.len() && i != j ==> !#[trigger] self.version_contains(
                f[i],
                f[j],
            )
    }

    /// The graph is consistent, and `version` is its frontier: minimal, and
    /// with every version of the graph in its history.
    pub open spec fn wf(&self) -> bool {
        &&& self.entries_wf()
        &&& self.valid_frontier(self.version@)
        &&& self.is_minimal(self.version@)
        &&& forall|t: LV| t < self.spec_len() ==> #[trigger] self.frontier_contains(self.version@, t)
    }

    /// The definition of `version_contains`, one step unfolded.
    pub proof fn lemma_contains_def(&self, v: LV, t: LV)
        ensures
            self.version_contains(v, t) == (if t > v {
                false
            } else if t >= self.run_start(v) {
                true
            } else {
                exists|k: int|
                    0 <= k < self.run_parents(v).len() && #[trigger] self.run_parents(v)[k] < v
                        && self.version_contains(self.run_parents(v)[k], t)
            }),
    {
        reveal_with_fuel(Graph::version_contains, 2);
    }

    /// A version has in its history what a parent of its run has.
    pub proof fn lemma_contains_via_parent(&self, v: LV, k: int, t: LV)
        requires
            0 <= k < self.run_parents(v).len(),
            self.run_parents(v)[k] < self.run_start(v),
            self.run_start(v) <= v,
            self.version_contains(self.run_parents(v)[k], t),
        ensures
            self.version_contains(v, t),
    {
        self.lemma_contains_def(v, t);
        self.lemma_contains_def(self.run_parents(v)[k], t);
    }

    /// At most one run covers a version.
    pub proof fn lemma_cover_unique(&self, i: int, j: int, v: LV)
        requires
            self.entries_wf(),
            self.entries.covers(i, v as nat),
            self.entries.covers(j, v as nat),
        ensures
            i == j,
    {
        self.entries.lemma_packed_is_sorted();
    }

    /// The run of a version of the graph covers it.
    pub proof fn lemma_entry_of(&self, v: LV)
        requires
            self.entries_wf(),
            v < self.spec_len(),
        ensures
            exists|i: int| self.entries.covers(i, v as nat) && self.entry_of(v) == self.entries.0@[i] && self.entry_wf(i),
            self.entry_of(v).span.start <= v < self.entry_of(v).span.end,
            self.entry_of(v).span.end <= self.spec_len(),
            self.entry_of(v).shadow <= self.entry_of(v).span.start,
            is_sorted_strict(self.entry_of(v).parents@),
            forall|k: int|
                0 <= k < self.entry_of(v).parents@.len() ==> #[trigger] self.entry_of(v).parents@[k]
                    < self.entry_of(v).span.start,
    {
        self.entries.lemma_packed_covered(v as nat);
        let i = choose|i: int| self.entries.covers(i, v as nat);
        assert(self.entries.covers(i, v as nat));
        assert(self.entry_wf(i));
        self.entries.lemma_packed_is_sorted();
        if i < self.entries.0@.len() - 1 {
            let last = self.entries.0@.len() - 1;
            assert(self.entry_wf(last));
        }
    }

    /// Covering run `i` is the run of `v`.
    pub proof fn lemma_entry_of_index(&self, i: int, v: LV)
        requires
            self.entries_wf(),
            self.entries.covers(i, v as nat),
        ensures
            self.entry_of(v) == self.entries.0@[i],
            v < self.spec_len(),
    {
        let j = choose|j: int| self.entries.covers(j, v as nat);
        self.lemma_cover_unique(i, j, v);
        self.entries.lemma_packed_is_sorted();
        let last = self.entries.0@.len() - 1;
        assert(self.entry_wf(last));
    }

    /// What is in a version's history is not above it.
    pub proof fn lemma_contains_le(&self, v: LV, t: LV)
        requires
            self.version_contains(v, t),
        ensures
            t <= v,
    {
        self.lemma_contains_def(v, t);
    }

    /// Every version is in its own history.
    pub proof fn lemma_contains_self(&self, v: LV)
        requires
            self.entries_wf(),
            v < self.spec_len(),
        ensures
            self.version_contains(v, v),
    {
        self.lemma_entry_of(v);
        self.lemma_contains_def(v, v);
    }

    /// What is in a version's history is a version of the graph.
    pub proof fn lemma_contains_in_graph(&self, v: LV, t: LV)
        requires
            self.entries_wf(),
            v < self.spec_len(),
            self.version_contains(v, t),
        ensures
            t < self.spec_len(),
    {
        self.lemma_contains_def(v, t);
    }

    /// The parents of a run of the graph are versions of the graph.
    pub proof fn lemma_parents_below(&self, v: LV, k: int)
        requires
            self.entries_wf(),
            v < self.spec_len(),
            0 <= k < self.run_parents(v).len(),
        ensures
            self.run_parents(v)[k] < self.run_start(v),
            self.run_start(v) <= v,
    {
        self.lemma_entry_of(v);
    }

    /// Histories are closed: what is in the history of a version in `a`'s
    /// history is in `a`'s history.
    pub proof fn lemma_contains_transitive(&self, a: LV, b: LV, c: LV)
        requires
            self.entries_wf(),
            a < self.spec_len(),
            self.version_contains(a, b),
            self.version_contains(b, c),
        ensures
            self.version_contains(a, c),
        decreases a,
    {
        self.lemma_contains_def(a, b);
        self.lemma_contains_def(b, c);
        self.lemma_entry_of(a);
        self.lemma_entry_of(b);
        self.lemma_contains_def(a, c);
        if c >= self.run_start(a) {
        } else if b >= self.run_start(a) {
            // b is in a's run, so both have the same run, and c lies below it.
            let i = choose|i: int|
                self.entries.covers(i, a as nat) && self.entry_of(a) == self.entries.0@[i];
            assert(self.entries.covers(i, b as nat));
            self.lemma_entry_of_index(i, b);
            assert(self.entry_of(b) == self.entry_of(a));
            let k = choose|k: int|
                0 <= k < self.run_parents(b).len() && #[trigger] self.run_parents(b)[k] < b
                    && self.version_contains(self.run_parents(b)[k], c);
            self.lemma_parents_below(a, k);
            assert(self.version_contains(self.run_parents(a)[k], c));
        } else {
            let k = choose|k: int|
                0 <= k < self.run_parents(a).len() && #[trigger] self.run_parents(a)[k] < a
                    && self.version_contains(self.run_parents(a)[k], b);
            self.lemma_parents_below(a, k);
            self.lemma_contains_transitive(self.run_parents(a)[k], b, c);
        }
    }

    /// Within the shadow of its run, everything below a version is in its
    /// history.
    pub proof fn lemma_shadow_contains(&self, v: LV, t: LV)
        requires
            self.entries_wf(),
            v < self.spec_len(),
            self.entry_of(v).shadow <= t <= v,
        ensures
            self.version_contains(v, t),
    {
        self.lemma_entry_of(v);
        let e = self.entry_of(v);
        self.lemma_contains_def(v, t);
        if t < e.span.start {
            let i = choose|i: int|
                self.entries.covers(i, v as nat) && self.entry_of(v) == self.entries.0@[i]
                    && self.entry_wf(i);
            assert(self.entry_wf(i));
            assert(self.frontier_contains(e.parents@, t));
            let k = choose|k: int|
                0 <= k < e.parents@.len() && #[trigger] self.version_contains(e.parents@[k], t);
            self.lemma_parents_below(v, k);
        }
    }

    /// An empty graph.
    pub fn new() -> (g: Graph)
        ensures
            g.wf(),
            g.spec_len() == 0,
            g.entries.0@.len() == 0,
            g.version@ == Seq::<LV>::empty(),
    {
        Graph { entries: RleVec::new(), version: Frontier::root() }
    }

    /// Number of versions in the graph.
    pub fn len(&self) -> (n: usize)
        requires
            self.entries_wf(),
        ensures
            n == self.spec_len(),
    {
        self.entries.end()
    }

    pub fn is_empty(&self) -> (b: bool)
        ensures
            b == (self.entries.0@.len() == 0),
    {
        self.entries.is_empty()
    }

    /// The frontier of everything the graph holds.
    pub fn frontier(&self) -> (f: &Frontier)
        ensures
            f@ == self.version@,
    {
        &self.version
    }

    /// The run that holds version `v`.
    pub fn entry_for(&self, v: LV) -> (e: &GraphEntry)
        requires
            self.entries_wf(),
            v < self.spec_len(),
        ensures
            *e == self.entry_of(v),
            e.span.start <= v < e.span.end,
            e.span.end <= self.spec_len(),
            e.shadow <= e.span.start,
    {
        let e = self.entries.find_packed(v);
        proof {
            let i = choose|i: int| self.entries.covers(i, v as nat) && *e == self.entries.0@[i];
            self.lemma_entry_of_index(i, v);
            self.lemma_entry_of(v);
        }
        e
    }

    /// The runs are consistent as a list: none is empty, and they cover the
    /// versions from 0 on.
    pub open spec fn shape_wf(&self) -> bool {
        &&& self.entries.runs_wf()
        &&& self.entries.is_packed()
    }

    /// Covering run `i` is the run of `v`.
    pub proof fn lemma_entry_of_shape(&self, i: int, v: LV)
        requires
            self.shape_wf(),
            self.entries.covers(i, v as nat),
        ensures
            self.entry_of(v) == self.entries.0@[i],
    {
        self.entries.lemma_packed_is_sorted();
        let j = choose|j: int| self.entries.covers(j, v as nat);
        assert(self.entries.covers(j, v as nat));
    }

    /// `later` has the runs of `self`, the last one perhaps longer, and
    /// perhaps one run more.
    pub open spec fn extended_by(&self, later: &Graph) -> bool {
        &&& self.shape_wf()
        &&& later.shape_wf()
        &&& self.spec_len() <= later.spec_len()
        &&& forall|v: LV|
            v < self.spec_len() ==> #[trigger] later.run_start(v) == self.run_start(v)
                && later.run_parents(v) == self.run_parents(v)
    }

    /// What was in a version's history stays there, and nothing is added.
    pub proof fn lemma_history_kept(&self, later: &Graph, v: LV, t: LV)
        requires
            self.entries_wf(),
            self.extended_by(later),
            v < self.spec_len(),
        ensures
            later.version_contains(v, t) == self.version_contains(v, t),
        decreases v,
    {
        self.lemma_contains_def(v, t);
        later.lemma_contains_def(v, t);
        self.lemma_entry_of(v);
        assert(later.run_start(v) == self.run_start(v));
        if t <= v && t < self.run_start(v) {
            let ps = self.run_parents(v);
            assert forall|k: int| 0 <= k < ps.len() implies later.version_contains(
                #[trigger] ps[k],
                t,
            ) == self.version_contains(ps[k], t) by {
                self.lemma_parents_below(v, k);
                self.lemma_history_kept(later, ps[k], t);
            }
            if self.version_contains(v, t) {
                let k = choose|k: int|
                    0 <= k < ps.len() && #[trigger] ps[k] < v && self.version_contains(ps[k], t);
                assert(later.version_contains(ps[k], t));
            }
            if later.version_contains(v, t) {
                let k = choose|k: int|
                    0 <= k < ps.len() && #[trigger] ps[k] < v && later.version_contains(ps[k], t);
                assert(self.version_contains(ps[k], t));
            }
        }
    }

    /// The same for the history of a frontier.
    pub proof fn lemma_frontier_history_kept(&self, later: &Graph, f: Seq<LV>, t: LV)
        requires
            self.entries_wf(),
            self.extended_by(later),
            forall|k: int| 0 <= k < f.len() ==> #[trigger] f[k] < self.spec_len(),
        ensures
            later.frontier_contains(f, t) == self.frontier_contains(f, t),
    {
        assert forall|k: int| 0 <= k < f.len() implies later.version_contains(#[trigger] f[k], t)
            == self.version_contains(f[k], t) by {
            self.lemma_history_kept(later, f[k], t);
        }
        if self.frontier_contains(f, t) {
            let k = choose|k: int| 0 <= k < f.len() && #[trigger] self.version_contains(f[k], t);
            assert(later.version_contains(f[k], t));
        }
        if later.frontier_contains(f, t) {
            let k = choose|k: int| 0 <= k < f.len() && #[trigger] later.version_contains(f[k], t);
            assert(self.version_contains(f[k], t));
        }
    }

    /// The runs of a graph stay consistent in a graph that extends it.
    pub proof fn lemma_entries_kept(&self, later: &Graph, i: int)
        requires
            self.entries_wf(),
            self.extended_by(later),
            0 <= i < self.entries.0@.len(),
            i < later.entries.0@.len(),
            later.entries.0@[i].span.start == self.entries.0@[i].span.start,
            later.entries.0@[i].span.end >= self.entries.0@[i].span.end,
            later.entries.0@[i].shadow == self.entries.0@[i].shadow,
            later.entries.0@[i].parents@ == self.entries.0@[i].parents@,
        ensures
            later.entry_wf(i),
    {
        let e = self.entries.0@[i];
        assert(self.entry_wf(i));
        assert forall|x: LV| e.shadow <= x < e.span.start implies #[trigger] later.frontier_contains(
            e.parents@,
            x,
        ) by {
            assert(self.frontier_contains(e.parents@, x));
            assert(self.entries.covers(i, e.span.start as nat));
            self.lemma_entry_of_index(i, e.span.start);
            assert forall|k: int| 0 <= k < e.parents@.len() implies #[trigger] e.parents@[k]
                < self.spec_len() by {
                assert(e.parents@[k] < e.span.start);
            }
            self.lemma_frontier_history_kept(later, e.parents@, x);
        }
    }

    /// The shadow that a new run with the given parents gets: its start,
    /// lowered to the shadow of the run just below for as long as the last
    /// version of that run is among the parents.
    pub open spec fn shadow_for(&self, parents: Seq<LV>, start: LV) -> LV
        decreases start,
    {
        if start >= 1 && parents.contains((start - 1) as usize) && self.entry_of(
            (start - 1) as usize,
        ).shadow < start {
            self.shadow_for(parents, self.entry_of((start - 1) as usize).shadow)
        } else {
            start
        }
    }

    /// Computes `shadow_for`. Everything from the shadow up to `start` is in
    /// the history of the parents.
    pub fn compute_shadow(&self, parents: &[LV], start: LV) -> (shadow: LV)
        requires
            self.entries_wf(),
            start <= self.spec_len(),
        ensures
            shadow == self.shadow_for(parents@, start),
            shadow <= start,
            forall|x: LV| shadow <= x < start ==> #[trigger] self.frontier_contains(parents@, x),
    {
        let mut shadow = start;
        while shadow >= 1 && slice_contains(parents, shadow - 1)
            invariant
                self.entries_wf(),
                shadow <= start <= self.spec_len(),
                self.shadow_for(parents@, shadow) == self.shadow_for(parents@, start),
                forall|x: LV| shadow <= x < start ==> #[trigger] self.frontier_contains(parents@, x),
            decreases shadow,
        {
            let below = shadow - 1;
            let next = self.entry_for(below).shadow;
            proof {
                self.lemma_entry_of(below);
                assert forall|x: LV| next <= x < start implies #[trigger] self.frontier_contains(
                    parents@,
                    x,
                ) by {
                    if x < shadow {
                        self.lemma_shadow_contains(below, x);
                        let k = choose|k: int| 0 <= k < parents@.len() && parents@[k] == below;
                        assert(self.version_contains(parents@[k], x));
                    }
                }
            }
            shadow = next;
        }
        shadow
    }

    /// `next` is what the frontier `version` becomes when a run with the
    /// given parents and last version joins the graph: the parents leave
    /// it, and the last version of the run enters.
    pub open spec fn advanced(version: Seq<LV>, parents: Seq<LV>, last: LV, next: Seq<LV>) -> bool {
        &&& is_sorted_strict(next)
        &&& forall|f: LV|
            #[trigger] next.contains(f) <==> (f == last || (version.contains(f)
                && !parents.contains(f)))
    }

    /// Computes `advanced`.
    #[verifier::rlimit(50)]
    pub fn advance_frontier(version: &Frontier, parents: &[LV], last: LV) -> (next: Frontier)
        requires
            is_sorted_strict(version@),
            forall|k: int| 0 <= k < version@.len() ==> #[trigger] version@[k] < last,
        ensures
            Self::advanced(version@, parents@, last, next@),
    {
        let mut next = Frontier::root();
        let old_items = version.as_slice();
        let mut i: usize = 0;
        while i < old_items.len()
            invariant
                0 <= i <= old_items@.len(),
                old_items@ == version@,
                is_sorted_strict(version@),
                is_sorted_strict(next@),
                forall|k: int| 0 <= k < next@.len() ==> i > 0 && #[trigger] next@[k] <= version@[i
                    - 1],
                forall|f: LV|
                    #[trigger] next@.contains(f) <==> (exists|k: int|
                        0 <= k < i && version@[k] == f) && !parents@.contains(f),
            decreases old_items@.len() - i,
        {
            let f = old_items[i];
            let ghost n0 = next@;
            if !slice_contains(parents, f) {
                next.push(f);
                proof {
                    assert forall|a: int, b: int| 0 <= a < b < next@.len() implies next@[a]
                        < next@[b] by {
                        if b == n0.len() {
                            assert(n0[a] <= version@[i - 1]);
                            assert(version@[i - 1] < version@[i as int]);
                        }
                    }
                    assert forall|g: LV| #[trigger]
                        next@.contains(g) <==> (exists|k: int| 0 <= k < i + 1 && version@[k] == g)
                            && !parents@.contains(g) by {
                        if next@.contains(g) {
                            let m = choose|m: int| 0 <= m < next@.len() && next@[m] == g;
                            if m < n0.len() {
                                assert(n0.contains(g));
                            } else {
                                assert(version@[i as int] == g);
                            }
                        }
                        if (exists|k: int| 0 <= k < i + 1 && version@[k] == g) && !parents@.contains(
                            g,
                        ) {
                            let k = choose|k: int| 0 <= k < i + 1 && version@[k] == g;
                            if k < i {
                                assert(n0.contains(g));
                                let m = choose|m: int| 0 <= m < n0.len() && n0[m] == g;
                                assert(next@[m] == g);
                            } else {
                                assert(next@[n0.len() as int] == g);
                            }
                        }
                    }
                }
            }
            proof {
                assert forall|k: int| 0 <= k < next@.len() implies #[trigger] next@[k]
                    <= version@[i as int] by {
                    if k < n0.len() {
                        assert(n0[k] <= version@[i - 1]);
                        assert(version@[i - 1] < version@[i as int]);
                    }
                }
            }
            i += 1;
        }
        let ghost n1 = next@;
        next.push(last);
        proof {
            assert forall|a: int, b: int| 0 <= a < b < next@.len() implies next@[a] < next@[b] by {
                if b == n1.len() {
                    assert(n1.contains(n1[a]));
                    let k = choose|k: int| 0 <= k < version@.len() && version@[k] == n1[a];
                }
            }
            assert forall|f: LV| #[trigger]
                next@.contains(f) <==> (f == last || (version@.contains(f) && !parents@.contains(
                    f,
                ))) by {
                if next@.contains(f) {
                    let m = choose|m: int| 0 <= m < next@.len() && next@[m] == f;
                    if m < n1.len() {
                        assert(n1.contains(f));
                    }
                }
                if f == last {
                    assert(next@[n1.len() as int] == f);
                }
                if version@.contains(f) && !parents@.contains(f) {
                    assert(n1.contains(f));
                    let m = choose|m: int| 0 <= m < n1.len() && n1[m] == f;
                    assert(next@[m] == f);
                }
            }
        }
        next
    }

    /// The history of the versions of a run that has just joined `self` to
    /// give `later`: the versions of the run up to it, and the history of
    /// the run's parents.
    pub open spec fn joined_run(&self, later: &Graph, parents: Seq<LV>, range: DTRange) -> bool {
        forall|v: LV, t: LV|
            range.start <= v < range.end ==> #[trigger] later.version_contains(v, t) == (t <= v
                && (range.start <= t || self.frontier_contains(parents, t)))
    }

    /// After a run has joined, the advanced frontier is the frontier of the
    /// whole graph.
    #[verifier::rlimit(50)]
    pub proof fn lemma_push_frontier(
        &self,
        later: &Graph,
        parents: Seq<LV>,
        range: DTRange,
        next: Seq<LV>,
    )
        requires
            self.wf(),
            later.entries_wf(),
            self.extended_by(later),
            range.start == self.spec_len(),
            range.start < range.end,
            later.spec_len() == range.end,
            self.valid_frontier(parents),
            self.joined_run(later, parents, range),
            Self::advanced(self.version@, parents, (range.end - 1) as usize, next),
        ensures
            later.valid_frontier(next),
            later.is_minimal(next),
            forall|t: LV| t < later.spec_len() ==> #[trigger] later.frontier_contains(next, t),
    {
        let last = (range.end - 1) as usize;
        let old_version = self.version@;
        assert forall|k: int| 0 <= k < next.len() implies #[trigger] next[k]
            < later.spec_len() by {
            assert(next.contains(next[k]));
            if next[k] != last {
                let m = choose|m: int| 0 <= m < old_version.len() && old_version[m] == next[k];
            }
        }
        assert forall|i: int, j: int|
            0 <= i < next.len() && 0 <= j < next.len() && i != j implies !#[trigger] later.version_contains(
            next[i],
            next[j],
        ) by {
            let a = next[i];
            let b = next[j];
            assert(next.contains(a) && next.contains(b));
            assert(a != b) by {
                if i < j {
                    assert(next[i] < next[j]);
                } else {
                    assert(next[j] < next[i]);
                }
            }
            if later.version_contains(a, b) {
                later.lemma_contains_le(a, b);
                if a == last {
                    // `b` is an old frontier version that is no parent, yet in
                    // the history of one.
                    assert(self.frontier_contains(parents, b));
                    let k = choose|k: int|
                        0 <= k < parents.len() && #[trigger] self.version_contains(parents[k], b);
                    let p = parents[k];
                    assert(parents.contains(p));
                    assert(self.frontier_contains(old_version, p));
                    let m = choose|m: int|
                        0 <= m < old_version.len() && #[trigger] self.version_contains(
                            old_version[m],
                            p,
                        );
                    let f = old_version[m];
                    self.lemma_contains_transitive(f, p, b);
                    let jb = choose|jb: int| 0 <= jb < old_version.len() && old_version[jb] == b;
                    if m != jb {
                        assert(!self.version_contains(old_version[m], old_version[jb]));
                    }
                    self.lemma_contains_le(f, p);
                    self.lemma_contains_le(p, b);
                    assert(p == b);
                    assert(false);
                } else {
                    let ia = choose|ia: int| 0 <= ia < old_version.len() && old_version[ia] == a;
                    let jb = choose|jb: int| 0 <= jb < old_version.len() && old_version[jb] == b;
                    self.lemma_history_kept(later, a, b);
                    assert(!self.version_contains(old_version[ia], old_version[jb]));
                    assert(false);
                }
            }
        }
        assert(next.contains(last));
        let il = choose|il: int| 0 <= il < next.len() && next[il] == last;
        assert forall|t: LV| t < later.spec_len() implies #[trigger] later.frontier_contains(
            next,
            t,
        ) by {
            if t >= range.start {
                assert(later.version_contains(next[il], t));
            } else {
                assert(self.frontier_contains(old_version, t));
                let m = choose|m: int|
                    0 <= m < old_version.len() && #[trigger] self.version_contains(
                        old_version[m],
                        t,
                    );
                let f = old_version[m];
                assert(old_version.contains(f));
                if parents.contains(f) {
                    let k = choose|k: int| 0 <= k < parents.len() && parents[k] == f;
                    assert(self.version_contains(parents[k], t));
                    assert(self.frontier_contains(parents, t));
                    assert(later.version_contains(next[il], t));
                } else {
                    assert(next.contains(f));
                    let n = choose|n: int| 0 <= n < next.len() && next[n] == f;
                    self.lemma_history_kept(later, f, t);
                    assert(later.version_contains(next[n], t));
                }
            }
        }
    }

    /// Whether a run with the given parents, pushed next, continues the
    /// last run of the graph: its only parent is the last version.
    pub open spec fn continues_last(&self, parents: Seq<LV>) -> bool {
        &&& self.entries.0@.len() > 0
        &&& parents.len() == 1
        &&& parents[0] + 1 == self.spec_len()
    }

    /// The history of a new run, where the runs of `later` are those of
    /// `self` and a new last run.
    pub proof fn lemma_joined_appended(&self, later: &Graph, parents: Seq<LV>, range: DTRange)
        requires
            self.entries_wf(),
            later.entries_wf(),
            self.extended_by(later),
            self.valid_frontier(parents),
            range.start == self.spec_len(),
            range.start < range.end,
            forall|v: LV|
                range.start <= v < range.end ==> #[trigger] later.run_start(v) == range.start
                    && later.run_parents(v) == parents,
            later.spec_len() == range.end,
        ensures
            self.joined_run(later, parents, range),
    {
        assert forall|v: LV, t: LV| range.start <= v < range.end implies #[trigger] later.version_contains(
            v,
            t,
        ) == (t <= v && (range.start <= t || self.frontier_contains(parents, t))) by {
            later.lemma_contains_def(v, t);
            assert(later.run_start(v) == range.start);
            if t < range.start {
                later.lemma_below_parents(v, t);
                self.lemma_frontier_history_kept(later, parents, t);
            }
        }
    }

    /// The history of the new versions, where the last run of `self` has
    /// been made longer to give `later`.
    pub proof fn lemma_joined_extended(&self, later: &Graph, parents: Seq<LV>, range: DTRange)
        requires
            self.entries_wf(),
            later.entries_wf(),
            self.extended_by(later),
            self.continues_last(parents),
            range.start == self.spec_len(),
            range.start < range.end,
            forall|v: LV|
                range.start <= v < range.end ==> #[trigger] later.run_start(v) == self.run_start(
                    parents[0],
                ),
            later.spec_len() == range.end,
        ensures
            self.joined_run(later, parents, range),
    {
        let below = parents[0];
        self.lemma_entry_of(below);
        assert forall|v: LV, t: LV| range.start <= v < range.end implies #[trigger] later.version_contains(
            v,
            t,
        ) == (t <= v && (range.start <= t || self.frontier_contains(parents, t))) by {
            later.lemma_contains_def(v, t);
            if t < range.start {
                later.lemma_run_mates(below, v, t);
                self.lemma_history_kept(later, below, t);
                if self.version_contains(below, t) {
                    assert(self.version_contains(parents[0], t));
                }
                if self.frontier_contains(parents, t) {
                    let k = choose|k: int|
                        0 <= k < parents.len() && #[trigger] self.version_contains(parents[k], t);
                }
            }
        }
    }

    /// Two versions of one run have the same history below the lower one.
    pub proof fn lemma_run_mates(&self, v1: LV, v2: LV, x: LV)
        requires
            self.entries_wf(),
            v2 < self.spec_len(),
            self.run_start(v2) <= v1 <= v2,
            x <= v1,
        ensures
            self.version_contains(v1, x) == self.version_contains(v2, x),
            self.entry_of(v1) == self.entry_of(v2),
    {
        self.lemma_entry_of(v2);
        let i = choose|i: int|
            self.entries.covers(i, v2 as nat) && self.entry_of(v2) == self.entries.0@[i];
        assert(self.entries.covers(i, v1 as nat));
        self.lemma_entry_of_index(i, v1);
        self.lemma_contains_def(v1, x);
        self.lemma_contains_def(v2, x);
        assert(self.run_parents(v1) == self.run_parents(v2));
        assert(self.run_start(v1) == self.run_start(v2));
        if x < self.run_start(v2) {
            if self.version_contains(v1, x) {
                let k = choose|k: int|
                    0 <= k < self.run_parents(v1).len() && #[trigger] self.run_parents(v1)[k] < v1
                        && self.version_contains(self.run_parents(v1)[k], x);
                self.lemma_parents_below(v2, k);
                self.lemma_contains_via_parent(v2, k, x);
            }
            if self.version_contains(v2, x) {
                let k = choose|k: int|
                    0 <= k < self.run_parents(v2).len() && #[trigger] self.run_parents(v2)[k] < v2
                        && self.version_contains(self.run_parents(v2)[k], x);
                self.lemma_parents_below(v2, k);
                self.lemma_contains_via_parent(v1, k, x);
            }
        }
    }

    /// Below its run, a version has in its history what the parents of the
    /// run have.
    pub proof fn lemma_below_parents(&self, v: LV, x: LV)
        requires
            self.entries_wf(),
            v < self.spec_len(),
            x < self.run_start(v),
        ensures
            self.version_contains(v, x) == self.frontier_contains(self.run_parents(v), x),
    {
        self.lemma_entry_of(v);
        self.lemma_contains_def(v, x);
        let ps = self.run_parents(v);
        if self.version_contains(v, x) {
            let k = choose|k: int|
                0 <= k < ps.len() && #[trigger] ps[k] < v && self.version_contains(ps[k], x);
            assert(self.version_contains(ps[k], x));
        }
        if self.frontier_contains(ps, x) {
            let k = choose|k: int| 0 <= k < ps.len() && #[trigger] self.version_contains(ps[k], x);
            assert(ps[k] < self.run_start(v));
        }
    }

    /// The history of a frontier of one version is that version's history.
    pub proof fn lemma_frontier_of_one(&self, f: Seq<LV>, x: LV)
        requires
            f.len() == 1,
        ensures
            self.frontier_contains(f, x) == self.version_contains(f[0], x),
    {
        if self.version_contains(f[0], x) {
            assert(self.frontier_contains(f, x));
        }
    }

    /// The history of the frontier that holds one version only is that
    /// version's history.
    pub proof fn lemma_frontier_single(&self, v: LV, x: LV)
        ensures
            self.frontier_contains(seq![v], x) == self.version_contains(v, x),
    {
        assert(seq![v][0] == v);
        self.lemma_frontier_of_one(seq![v], x);
    }

    /// Appends a run of new versions with the given parents. The run joins
    /// the last run of the graph where it continues it.
    #[verifier::rlimit(50)]
    pub fn push(&mut self, txn_parents: &[LV], range: DTRange)
        requires
            old(self).wf(),
            range.start == old(self).spec_len(),
            range.start < range.end,
            old(self).valid_frontier(txn_parents@),
        ensures
            final(self).wf(),
            final(self).spec_len() == range.end,
            old(self).extended_by(final(self)),
            old(self).joined_run(final(self), txn_parents@, range),
            Self::advanced(
                old(self).version@,
                txn_parents@,
                (range.end - 1) as usize,
                final(self).version@,
            ),
            final(self).entries.0@.len() == old(self).entries.0@.len() + if old(
                self,
            ).continues_last(txn_parents@) {
                0int
            } else {
                1int
            },
            final(self).entry_of(range.start).shadow == old(self).shadow_for(
                txn_parents@,
                range.start,
            ),
            final(self).parents_of(range.start) == txn_parents@,
            forall|v: LV|
                range.start < v < range.end ==> #[trigger] final(self).parents_of(v) == seq![
                    (v - 1) as usize,
                ],
    {
        let ghost g0 = *self;
        let n = self.entries.0.len();
        let next_version = Self::advance_frontier(&self.version, txn_parents, range.end - 1);
        let mut extended = false;
        if n > 0 && txn_parents.len() == 1 {
            proof {
                assert(g0.entry_wf(n - 1));
            }
            if txn_parents[0] == self.entries.0[n - 1].span.end - 1 {
                let mut last = self.entries.0.pop().unwrap();
                last.span.end = range.end;
                self.entries.0.push(last);
                extended = true;
            }
        }
        if !extended {
            let shadow = self.compute_shadow(txn_parents, range.start);
            let txn = GraphEntry {
                span: range,
                shadow,
                parents: Frontier::from_sorted(txn_parents),
            };
            self.entries.0.push(txn);
        }
        self.version = next_version;
        proof {
            g0.lemma_push_shape(self, txn_parents@, range, extended);
            if extended {
                g0.lemma_joined_extended(self, txn_parents@, range);
            } else {
                g0.lemma_joined_appended(self, txn_parents@, range);
            }
            g0.lemma_push_frontier(self, txn_parents@, range, self.version@);
            if extended {
                g0.lemma_entry_of(txn_parents@[0]);
                assert(self.parents_of(range.start) =~= txn_parents@);
            }
            assert forall|v: LV| range.start < v < range.end implies #[trigger] self.parents_of(v)
                == seq![(v - 1) as usize] by {
                assert(self.run_start(v) <= range.start);
            }
        }
    }

    /// After the runs have been updated for a push, the graph is an
    /// extension of the one before, and its runs are consistent.
    #[verifier::rlimit(50)]
    pub proof fn lemma_push_shape(
        &self,
        later: &Graph,
        parents: Seq<LV>,
        range: DTRange,
        extended: bool,
    )
        requires
            self.wf(),
            range.start == self.spec_len(),
            range.start < range.end,
            self.valid_frontier(parents),
            extended == self.continues_last(parents),
            if extended {
                let n = self.entries.0@.len() as int;
                &&& later.entries.0@.len() == n
                &&& forall|i: int| 0 <= i < n - 1 ==> later.entries.0@[i] == self.entries.0@[i]
                &&& later.entries.0@[n - 1].span.start == self.entries.0@[n - 1].span.start
                &&& later.entries.0@[n - 1].span.end == range.end
                &&& later.entries.0@[n - 1].shadow == self.entries.0@[n - 1].shadow
                &&& later.entries.0@[n - 1].parents == self.entries.0@[n - 1].parents
            } else {
                let n = self.entries.0@.len() as int;
                &&& later.entries.0@.len() == n + 1
                &&& forall|i: int| 0 <= i < n ==> later.entries.0@[i] == self.entries.0@[i]
                &&& later.entries.0@[n].span == range
                &&& later.entries.0@[n].shadow == self.shadow_for(parents, range.start)
                &&& later.entries.0@[n].shadow <= range.start
                &&& later.entries.0@[n].parents@ == parents
                &&& forall|x: LV|
                    later.entries.0@[n].shadow <= x < range.start
                        ==> #[trigger] self.frontier_contains(parents, x)
            },
        ensures
            later.entries_wf(),
            self.extended_by(later),
            later.spec_len() == range.end,
            later.entry_of(range.start).shadow == self.shadow_for(parents, range.start),
            forall|v: LV|
                range.start <= v < range.end ==> #[trigger] later.run_start(v) == (if extended {
                    self.run_start(parents[0])
                } else {
                    range.start
                }) && (!extended ==> later.run_parents(v) == parents),
    {
        let n = self.entries.0@.len() as int;
        let a = self.entries.0@;
        let b = later.entries.0@;
        assert forall|i: int| 0 <= i < b.len() implies (#[trigger] b[i]).wf() && b[i].spec_len() > 0
            && crate::rle::run_end(&b[i]) <= usize::MAX by {
            if i < n {
                assert(a[i].wf());
                assert(self.entry_wf(i));
            }
        }
        assert(later.entries.is_packed()) by {
            assert forall|i: int| 0 <= i < b.len() - 1 implies #[trigger] crate::rle::run_end(&b[i])
                == b[i + 1].spec_rle_key() by {
                if i + 1 < n {
                    assert(crate::rle::run_end(&a[i]) == a[i + 1].spec_rle_key());
                }
            }
            if b.len() > 0 && n > 0 {
                assert(a[0].spec_rle_key() == 0);
            }
        }
        assert(later.shape_wf());
        assert forall|v: LV| v < self.spec_len() implies #[trigger] later.run_start(v)
            == self.run_start(v) && later.run_parents(v) == self.run_parents(v) by {
            self.lemma_entry_of(v);
            let i = choose|i: int|
                self.entries.covers(i, v as nat) && self.entry_of(v) == self.entries.0@[i];
            assert(later.entries.covers(i, v as nat));
            later.lemma_entry_of_shape(i, v);
        }
        assert(self.extended_by(later));
        let top = b.len() - 1;
        assert forall|v: LV| range.start <= v < range.end implies later.entry_of(v) == b[top] by {
            assert(later.entries.covers(top, v as nat));
            later.lemma_entry_of_shape(top, v);
        }
        assert forall|i: int| 0 <= i < b.len() implies #[trigger] later.entry_wf(i) by {
            if i < n {
                self.lemma_entries_kept(later, i);
            } else {
                let e = b[i];
                assert forall|x: LV| e.shadow <= x < e.span.start implies #[trigger] later.frontier_contains(
                    e.parents@,
                    x,
                ) by {
                    self.lemma_frontier_history_kept(later, parents, x);
                }
            }
        }
        if extended {
            let below = parents[0];
            self.lemma_entry_of(below);
            assert(self.entries.covers(n - 1, below as nat));
            self.lemma_entry_of_index(n - 1, below);
            // The shadow of the longer run is that of the run before.
            assert(self.entry_wf(n - 1));
            assert(parents.contains(below)) by {
                assert(parents[0] == below);
            }
            let sh = self.entry_of(below).shadow;
            assert(self.shadow_for(parents, sh) == sh) by {
                if sh >= 1 && parents.contains((sh - 1) as usize) {
                    let k = choose|k: int| 0 <= k < parents.len() && parents[k] == (sh - 1) as usize;
                }
            }
            assert(self.shadow_for(parents, range.start) == self.shadow_for(parents, sh));
        }
    }

    /// Builds a graph from a list of runs, each given by its versions and
    /// its parents. `None` where the runs are not consistent.
    #[verifier::rlimit(50)]
    pub fn from_simple_items(items: &[GraphEntrySimple]) -> (r: Option<Graph>)
        ensures
            r.is_some() == simple_items_ok(items@),
            match r {
                Some(g) => {
                    &&& g.wf()
                    &&& g.spec_len() == (if items@.len() == 0 {
                        0
                    } else {
                        items@.last().span.end
                    })
                    &&& forall|i: int| 0 <= i < items@.len() ==> #[trigger] g.holds_item(items@[i])
                },
                None => true,
            },
    {
        let mut g = Graph::new();
        let mut i: usize = 0;
        while i < items.len()
            invariant
                0 <= i <= items@.len(),
                g.wf(),
                simple_items_ok(items@.take(i as int)),
                g.spec_len() == (if i == 0 {
                    0
                } else {
                    items@[i - 1].span.end
                }),
                forall|j: int| 0 <= j < i ==> #[trigger] g.holds_item(items@[j]),
                forall|j: int| 0 <= j < i ==> (#[trigger] items@[j]).span.end <= g.spec_len(),
            decreases items@.len() - i,
        {
            let ghost g0 = g;
            let item = &items[i];
            let len = g.len();
            let parents = item.parents.as_slice();
            let ok = item.span.start == len && item.span.start < item.span.end
                && crate::frontier::frontier_is_sorted(parents) && (parents.len() == 0
                || parents[parents.len() - 1] < len);
            if !ok {
                proof {
                    if simple_items_ok(items@) {
                        assert(simple_item_ok(items@, i as int));
                        let ps = items@[i as int].parents@;
                        if ps.len() > 0 {
                            assert(ps[ps.len() - 1] < items@[i as int].span.start);
                        }
                    }
                }
                return None;
            }
            proof {
                let ps = items@[i as int].parents@;
                assert forall|k: int| 0 <= k < ps.len() implies #[trigger] ps[k] < g.spec_len() by {
                    if k < ps.len() - 1 {
                        assert(ps[k] < ps[ps.len() - 1]);
                    }
                }
                assert forall|j: int| 0 <= j < i + 1 implies #[trigger] simple_item_ok(
                    items@.take(i + 1),
                    j,
                ) by {
                    if j < i {
                        assert(simple_item_ok(items@.take(i as int), j));
                    }
                }
            }
            g.push(parents, item.span);
            proof {
                assert forall|j: int| 0 <= j < i implies #[trigger] g.holds_item(items@[j]) by {
                    assert(g0.holds_item(items@[j]));
                    g0.lemma_item_kept(&g, items@[j]);
                }
                g0.lemma_item_pushed(&g, items@[i as int]);
            }
            i += 1;
        }
        proof {
            assert(items@.take(items@.len() as int) =~= items@);
        }
        Some(g)
    }

    /// The graph holds the run as it was given: its first version has the
    /// parents of the run, each other version the one before it, and the
    /// history of each version is the versions of the run up to it and
    /// the history of the parents.
    pub open spec fn holds_item(&self, item: GraphEntrySimple) -> bool {
        &&& item.span.start < item.span.end <= self.spec_len()
        &&& forall|k: int|
            0 <= k < item.parents@.len() ==> #[trigger] item.parents@[k] < item.span.start
        &&& self.parents_of(item.span.start) == item.parents@
        &&& forall|v: LV|
            item.span.start < v < item.span.end ==> #[trigger] self.parents_of(v) == seq![
                (v - 1) as usize,
            ]
        &&& forall|v: LV, t: LV|
            item.span.start <= v < item.span.end ==> #[trigger] self.version_contains(v, t) == (t
                <= v && (item.span.start <= t || self.frontier_contains(item.parents@, t)))
    }

    /// A run that a graph holds, a graph that extends it holds.
    pub proof fn lemma_item_kept(&self, later: &Graph, item: GraphEntrySimple)
        requires
            self.entries_wf(),
            self.extended_by(later),
            self.holds_item(item),
        ensures
            later.holds_item(item),
    {
        assert forall|v: LV| item.span.start <= v < item.span.end implies later.parents_of(v)
            == self.parents_of(v) by {
            assert(later.run_start(v) == self.run_start(v));
        }
        assert forall|v: LV, t: LV| item.span.start <= v < item.span.end implies #[trigger] later.version_contains(
            v,
            t,
        ) == (t <= v && (item.span.start <= t || later.frontier_contains(item.parents@, t))) by {
            self.lemma_history_kept(later, v, t);
            self.lemma_frontier_history_kept(later, item.parents@, t);
        }
    }

    /// A graph holds the run that was pushed last.
    pub proof fn lemma_item_pushed(&self, later: &Graph, item: GraphEntrySimple)
        requires
            self.entries_wf(),
            self.extended_by(later),
            self.valid_frontier(item.parents@),
            item.span.start == self.spec_len(),
            item.span.start < item.span.end,
            later.spec_len() == item.span.end,
            self.joined_run(later, item.parents@, item.span),
            later.parents_of(item.span.start) == item.parents@,
            forall|v: LV|
                item.span.start < v < item.span.end ==> #[trigger] later.parents_of(v) == seq![
                    (v - 1) as usize,
                ],
        ensures
            later.holds_item(item),
    {
        assert forall|v: LV, t: LV| item.span.start <= v < item.span.end implies #[trigger] later.version_contains(
            v,
            t,
        ) == (t <= v && (item.span.start <= t || later.frontier_contains(item.parents@, t))) by {
            self.lemma_frontier_history_kept(later, item.parents@, t);
        }
    }
}

/// A run as a caller gives it: its versions and its parents.
pub struct GraphEntrySimple {
    pub span: DTRange,
    pub parents: Frontier,
}

/// Item `i` of a list of runs is not empty, starts where the run before
/// it ends, and has its parents in order and below its start.
pub open spec fn simple_item_ok(items: Seq<GraphEntrySimple>, i: int) -> bool {
    &&& items[i].span.start < items[i].span.end
    &&& items[i].span.start == (if i == 0 {
        0
    } else {
        items[i - 1].span.end
    })
    &&& is_sorted_strict(items[i].parents@)
    &&& forall|k: int|
        0 <= k < items[i].parents@.len() ==> #[trigger] items[i].parents@[k] < items[i].span.start
}

/// The list of runs describes a graph.
pub open spec fn simple_items_ok(items: Seq<GraphEntrySimple>) -> bool {
    forall|i: int| 0 <= i < items.len() ==> #[trigger] simple_item_ok(items, i)
}

} // verus!
