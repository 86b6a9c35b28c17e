//! Dominators of a set of versions: those that are in the history of no
//! other version of the set.

use crate::causalgraph::graph::Graph;
use crate::causalgraph::queue::{MaxQueue, Ranked};
use crate::frontier::{is_sorted_strict, Frontier, LV};
use std::cmp::Ordering;
use vstd::prelude::*;

verus! {

/// A version that waits to be visited: one of the versions asked about, or
/// one met on the way down from them.
#[derive(Copy, Clone, Debug)]
pub struct DomItem {
    pub v: LV,
    /// Met on the way down: a parent of a run that was visited.
    pub walk: bool,
}

impl Ranked for DomItem {
    open spec fn rank(&self) -> int {
        self.v * 2 + if self.walk {
            1int
        } else {
            0int
        }
    }

    fn rank_le(&self, other: &DomItem) -> (b: bool) {
        self.v < other.v || (self.v == other.v && (!self.walk || other.walk))
    }
}

/// Whether an item of `q` met on the way down has `x` in its history.
pub open spec fn walk_reaches(g: &Graph, q: Seq<DomItem>, x: LV) -> bool {
    exists|i: int| 0 <= i < q.len() && (#[trigger] q[i]).walk && g.version_contains(q[i].v, x)
}

/// Number of items of `q` that are versions asked about.
pub open spec fn count_inputs(q: Seq<DomItem>) -> nat
    decreases q.len(),
{
    if q.len() == 0 {
        0
    } else {
        count_inputs(q.drop_last()) + if q.last().walk {
            0nat
        } else {
            1nat
        }
    }
}

/// No more items of a queue are inputs than it has; where none is, each
/// is part of the walk.
pub proof fn lemma_count_inputs_bound(q: Seq<DomItem>)
    ensures
        count_inputs(q) <= q.len(),
        count_inputs(q) == 0 ==> forall|i: int| 0 <= i < q.len() ==> (#[trigger] q[i]).walk,
    decreases q.len(),
{
    if q.len() > 0 {
        lemma_count_inputs_bound(q.drop_last());
        if count_inputs(q) == 0 {
            assert forall|i: int| 0 <= i < q.len() implies (#[trigger] q[i]).walk by {
                if i < q.len() - 1 {
                    assert(q.drop_last()[i] == q[i]);
                }
            }
        }
    }
}

/// An item more adds one to the inputs of a queue where it is an input.
pub proof fn lemma_count_inputs_insert(q: Seq<DomItem>, i: int, item: DomItem)
    requires
        0 <= i <= q.len(),
    ensures
        count_inputs(q.insert(i, item)) == count_inputs(q) + if item.walk {
            0nat
        } else {
            1nat
        },
    decreases q.len() - i,
{
    let r = q.insert(i, item);
    if i == q.len() {
        assert(r.drop_last() =~= q);
    } else {
        assert(r.drop_last() =~= q.drop_last().insert(i, item));
        assert(r.last() == q.last());
        lemma_count_inputs_insert(q.drop_last(), i, item);
    }
}

/// Strictly descending by version.
pub open spec fn visits_descend(out: Seq<(LV, bool)>) -> bool {
    forall|i: int, j: int| 0 <= i < j < out.len() ==> out[i].0 > out[j].0
}

/// Whether `v` was visited.
pub open spec fn visited(out: Seq<(LV, bool)>, v: LV) -> bool {
    exists|i: int| 0 <= i < out.len() && (#[trigger] out[i]).0 == v
}

impl Graph {
    /// Whether a version of `vs` other than `x` has `x` in its history.
    pub open spec fn covered_from_above(&self, vs: Seq<LV>, x: LV) -> bool {
        exists|k: int| 0 <= k < vs.len() && #[trigger] vs[k] > x && self.version_contains(vs[k], x)
    }

    /// Whether `v` is a dominator of `vs`: one of its versions, and not in
    /// the history of another.
    pub open spec fn is_dominator(&self, vs: Seq<LV>, v: LV) -> bool {
        vs.contains(v) && !self.covered_from_above(vs, v)
    }

    /// `d` lists the dominators of `vs` in ascending order.
    pub open spec fn is_dominators_of(&self, vs: Seq<LV>, d: Seq<LV>) -> bool {
        &&& is_sorted_strict(d)
        &&& forall|v: LV| #[trigger] d.contains(v) == self.is_dominator(vs, v)
    }

    /// Each visit names a version of `vs` and says whether it is a
    /// dominator.
    pub open spec fn visits_right(&self, vs: Seq<LV>, out: Seq<(LV, bool)>) -> bool {
        forall|i: int|
            0 <= i < out.len() ==> vs.contains((#[trigger] out[i]).0) && out[i].1
                == self.is_dominator(vs, out[i].0)
    }

    /// State of the walk between two runs. Everything from `bound` up has
    /// been dealt with; the queue holds what is left below.
    pub open spec fn dom_state(
        &self,
        vs: Seq<LV>,
        q: Seq<DomItem>,
        out: Seq<(LV, bool)>,
        bound: int,
    ) -> bool {
        &&& forall|i: int| 0 <= i < q.len() ==> (#[trigger] q[i]).v < bound
        &&& visits_descend(out)
        &&& self.visits_right(vs, out)
        &&& forall|i: int| 0 <= i < out.len() ==> bound <= (#[trigger] out[i]).0
        &&& forall|k: int|
            0 <= k < vs.len() ==> if (#[trigger] vs[k]) < bound {
                q.contains(DomItem { v: vs[k], walk: false })
            } else {
                visited(out, vs[k])
            }
        &&& forall|i: int|
            0 <= i < q.len() ==> if (#[trigger] q[i]).walk {
                self.covered_from_above(vs, q[i].v)
            } else {
                vs.contains(q[i].v)
            }
        &&& forall|k: int, x: LV|
            0 <= k < vs.len() && bound <= vs[k] && x < bound && #[trigger] self.version_contains(
                vs[k],
                x,
            ) ==> walk_reaches(self, q, x)
    }

    /// State of the walk within the run of `top`, the item taken from the
    /// queue last. `start` is the first version of that run.
    pub open spec fn dom_walking(
        &self,
        vs: Seq<LV>,
        q: Seq<DomItem>,
        out: Seq<(LV, bool)>,
        top: DomItem,
        start: LV,
    ) -> bool {
        &&& top.v < self.spec_len()
        &&& start == self.run_start(top.v)
        &&& forall|i: int| 0 <= i < q.len() ==> (#[trigger] q[i]).rank() <= top.rank()
        &&& visits_descend(out)
        &&& self.visits_right(vs, out)
        &&& forall|i: int| 0 <= i < out.len() ==> start <= (#[trigger] out[i]).0
        &&& forall|i: int, j: int|
            0 <= i < out.len() && 0 <= j < q.len() ==> (#[trigger] q[j]).v <= (#[trigger] out[i]).0
        &&& if top.walk {
            self.covered_from_above(vs, top.v)
        } else {
            out.len() > 0 && out.last().0 <= top.v && vs.contains(top.v) && visited(out, top.v)
        }
        &&& forall|k: int|
            0 <= k < vs.len() ==> q.contains(DomItem { v: #[trigger] vs[k], walk: false })
                || visited(out, vs[k])
        &&& forall|i: int|
            0 <= i < q.len() ==> if (#[trigger] q[i]).walk {
                self.covered_from_above(vs, q[i].v)
            } else {
                vs.contains(q[i].v)
            }
        &&& forall|k: int, x: LV|
            0 <= k < vs.len() && start <= vs[k] && x < start && #[trigger] self.version_contains(
                vs[k],
                x,
            ) ==> walk_reaches(self, q, x) || self.version_contains(top.v, x)
    }

    /// What has been visited after `item` was taken: `item` itself as a
    /// dominator where it is one of the versions asked about.
    pub open spec fn out_after_take(out: Seq<(LV, bool)>, item: DomItem) -> Seq<(LV, bool)> {
        if item.walk {
            out
        } else {
            out.push((item.v, true))
        }
    }

    /// Taking the greatest item out of the queue. Where it is one of the
    /// versions asked about, it is a dominator: nothing that waits or was
    /// visited has it in its history.
    #[verifier::rlimit(50)]
    pub proof fn lemma_dom_take(
        &self,
        vs: Seq<LV>,
        q0: Seq<DomItem>,
        out: Seq<(LV, bool)>,
        bound: int,
    )
        requires
            self.entries_wf(),
            bound <= self.spec_len(),
            q0.len() > 0,
            self.dom_state(vs, q0, out, bound),
            forall|i: int| 0 <= i < q0.len() ==> (#[trigger] q0[i]).rank() <= q0.last().rank(),
        ensures
            self.dom_walking(
                vs,
                q0.drop_last(),
                Self::out_after_take(out, q0.last()),
                q0.last(),
                self.run_start(q0.last().v),
            ),
    {
        let top = q0.last();
        let q = q0.drop_last();
        let out2 = Self::out_after_take(out, top);
        let start = self.run_start(top.v);
        self.lemma_entry_of(top.v);
        assert(top == q0[q0.len() - 1]);
        assert forall|i: int| 0 <= i < q.len() implies (#[trigger] q[i]).rank() <= top.rank() by {
            assert(q[i] == q0[i]);
        }
        if !top.walk {
            // No version asked about has `top` in its history.
            if self.covered_from_above(vs, top.v) {
                let k = choose|k: int|
                    0 <= k < vs.len() && #[trigger] vs[k] > top.v && self.version_contains(
                        vs[k],
                        top.v,
                    );
                if vs[k] < bound {
                    let item = DomItem { v: vs[k], walk: false };
                    assert(q0.contains(item));
                    let i = choose|i: int| 0 <= i < q0.len() && q0[i] == item;
                    assert(q0[i].rank() <= top.rank());
                } else {
                    assert(walk_reaches(self, q0, top.v));
                    let i = choose|i: int|
                        0 <= i < q0.len() && (#[trigger] q0[i]).walk && self.version_contains(
                            q0[i].v,
                            top.v,
                        );
                    self.lemma_contains_le(q0[i].v, top.v);
                    assert(q0[i].rank() <= top.rank());
                }
                assert(false);
            }
            assert(self.is_dominator(vs, top.v));
            assert(out2[out2.len() - 1].0 == top.v);
            assert(visited(out2, top.v));
            assert forall|i: int| 0 <= i < out2.len() implies vs.contains((#[trigger] out2[i]).0)
                && out2[i].1 == self.is_dominator(vs, out2[i].0) by {
                if i < out.len() {
                    assert(out2[i] == out[i]);
                }
            }
            assert forall|i: int, j: int| 0 <= i < j < out2.len() implies out2[i].0
                > out2[j].0 by {
                assert(out2[i] == out[i]);
                if j < out.len() {
                    assert(out2[j] == out[j]);
                }
            }
        }
        assert forall|i: int| 0 <= i < out2.len() implies start <= (#[trigger] out2[i]).0 by {
            if i < out.len() {
                assert(out2[i] == out[i]);
            }
        }
        assert forall|i: int, j: int| 0 <= i < out2.len() && 0 <= j < q.len() implies (
        #[trigger] q[j]).v <= (#[trigger] out2[i]).0 by {
            assert(q[j] == q0[j]);
            assert(q0[j].rank() <= top.rank());
            if i < out.len() {
                assert(out2[i] == out[i]);
            }
        }
        assert forall|k: int| 0 <= k < vs.len() implies q.contains(
            DomItem { v: #[trigger] vs[k], walk: false },
        ) || visited(out2, vs[k]) by {
            let item = DomItem { v: vs[k], walk: false };
            if vs[k] < bound {
                assert(q0.contains(item));
                let i = choose|i: int| 0 <= i < q0.len() && q0[i] == item;
                if i < q0.len() - 1 {
                    assert(q[i] == item);
                } else {
                    assert(out2[out2.len() - 1].0 == vs[k]);
                }
            } else {
                let i = choose|i: int| 0 <= i < out.len() && (#[trigger] out[i]).0 == vs[k];
                assert(out2[i] == out[i]);
            }
        }
        assert forall|i: int| 0 <= i < q.len() implies if (#[trigger] q[i]).walk {
            self.covered_from_above(vs, q[i].v)
        } else {
            vs.contains(q[i].v)
        } by {
            assert(q[i] == q0[i]);
        }
        assert forall|k: int, x: LV|
            0 <= k < vs.len() && start <= vs[k] && x < start && #[trigger] self.version_contains(
                vs[k],
                x,
            ) implies walk_reaches(self, q, x) || self.version_contains(top.v, x) by {
            if vs[k] < bound {
                // Still in the queue, so in the run of `top`.
                let item = DomItem { v: vs[k], walk: false };
                assert(q0.contains(item));
                let i = choose|i: int| 0 <= i < q0.len() && q0[i] == item;
                assert(q0[i].rank() <= top.rank());
                self.lemma_run_mates(vs[k], top.v, x);
            } else {
                assert(walk_reaches(self, q0, x));
                let i = choose|i: int|
                    0 <= i < q0.len() && (#[trigger] q0[i]).walk && self.version_contains(
                        q0[i].v,
                        x,
                    );
                if i < q0.len() - 1 {
                    assert(q[i] == q0[i]);
                }
            }
        }
    }

    /// What has been visited after an item of the current run was dropped
    /// from the queue: the item as no dominator, where it is one of the
    /// versions asked about and was not visited just before.
    pub open spec fn out_after_consume(out: Seq<(LV, bool)>, item: DomItem) -> Seq<(LV, bool)> {
        if item.walk || (out.len() > 0 && out.last().0 == item.v) {
            out
        } else {
            out.push((item.v, false))
        }
    }

    /// Dropping the greatest item of the queue, which lies in the current
    /// run. Where it is one of the versions asked about, it is no dominator.
    #[verifier::rlimit(50)]
    pub proof fn lemma_dom_consume(
        &self,
        vs: Seq<LV>,
        q: Seq<DomItem>,
        out: Seq<(LV, bool)>,
        top: DomItem,
        start: LV,
    )
        requires
            self.entries_wf(),
            self.versions_in_graph(vs),
            q.len() > 0,
            self.dom_walking(vs, q, out, top, start),
            forall|i: int| 0 <= i < q.len() ==> (#[trigger] q[i]).rank() <= q.last().rank(),
            start <= q.last().v,
        ensures
            self.dom_walking(
                vs,
                q.drop_last(),
                Self::out_after_consume(out, q.last()),
                top,
                start,
            ),
    {
        let p = q.last();
        let q2 = q.drop_last();
        let out2 = Self::out_after_consume(out, p);
        assert(p == q[q.len() - 1]);
        assert(p.rank() <= top.rank());
        self.lemma_entry_of(top.v);
        self.lemma_run_mates(p.v, top.v, p.v);
        self.lemma_contains_self(p.v);
        assert forall|i: int| 0 <= i < q2.len() implies (#[trigger] q2[i]).rank() <= top.rank() by {
            assert(q2[i] == q[i]);
        }
        assert forall|i: int| 0 <= i < q2.len() implies if (#[trigger] q2[i]).walk {
            self.covered_from_above(vs, q2[i].v)
        } else {
            vs.contains(q2[i].v)
        } by {
            assert(q2[i] == q[i]);
        }
        if out2 != out {
            // `p` is a version asked about, and new in the list.
            assert(vs.contains(p.v));
            if out.len() > 0 {
                assert(p.v <= out[out.len() - 1].0);
            }
            // Something asked about has it in its history.
            if top.walk {
                let k = choose|k: int|
                    0 <= k < vs.len() && #[trigger] vs[k] > top.v && self.version_contains(
                        vs[k],
                        top.v,
                    );
                self.lemma_contains_transitive(vs[k], top.v, p.v);
                assert(self.covered_from_above(vs, p.v));
            } else {
                let k = choose|k: int| 0 <= k < vs.len() && vs[k] == top.v;
                assert(vs[k] > p.v);
                assert(self.covered_from_above(vs, p.v));
            }
            assert forall|i: int| 0 <= i < out2.len() implies vs.contains((#[trigger] out2[i]).0)
                && out2[i].1 == self.is_dominator(vs, out2[i].0) by {
                if i < out.len() {
                    assert(out2[i] == out[i]);
                }
            }
            assert forall|i: int, j: int| 0 <= i < j < out2.len() implies out2[i].0
                > out2[j].0 by {
                assert(out2[i] == out[i]);
                if j < out.len() {
                    assert(out2[j] == out[j]);
                } else {
                    assert(out[i].0 >= out[out.len() - 1].0);
                }
            }
        }
        assert forall|i: int| 0 <= i < out2.len() implies start <= (#[trigger] out2[i]).0 by {
            if i < out.len() {
                assert(out2[i] == out[i]);
            }
        }
        assert forall|i: int, j: int| 0 <= i < out2.len() && 0 <= j < q2.len() implies (
        #[trigger] q2[j]).v <= (#[trigger] out2[i]).0 by {
            assert(q2[j] == q[j]);
            assert(q[j].rank() <= p.rank());
            if i < out.len() {
                assert(out2[i] == out[i]);
            }
        }
        if !top.walk {
            assert(out2.last().0 <= top.v);
        }
        assert forall|k: int| 0 <= k < vs.len() implies q2.contains(
            DomItem { v: #[trigger] vs[k], walk: false },
        ) || visited(out2, vs[k]) by {
            let item = DomItem { v: vs[k], walk: false };
            if q.contains(item) {
                let i = choose|i: int| 0 <= i < q.len() && q[i] == item;
                if i < q.len() - 1 {
                    assert(q2[i] == item);
                } else {
                    assert(out2[out2.len() - 1].0 == vs[k]);
                }
            } else {
                let i = choose|i: int| 0 <= i < out.len() && (#[trigger] out[i]).0 == vs[k];
                assert(out2[i] == out[i]);
            }
        }
        assert forall|k: int, x: LV|
            0 <= k < vs.len() && start <= vs[k] && x < start && #[trigger] self.version_contains(
                vs[k],
                x,
            ) implies walk_reaches(self, q2, x) || self.version_contains(top.v, x) by {
            if walk_reaches(self, q, x) {
                let i = choose|i: int|
                    0 <= i < q.len() && (#[trigger] q[i]).walk && self.version_contains(q[i].v, x);
                if i < q.len() - 1 {
                    assert(q2[i] == q[i]);
                } else {
                    self.lemma_run_mates(p.v, top.v, x);
                }
            }
        }
    }

    /// After the parents of the current run have joined the queue, the walk
    /// stands between two runs again.
    #[verifier::rlimit(50)]
    pub proof fn lemma_dom_descend(
        &self,
        vs: Seq<LV>,
        q: Seq<DomItem>,
        q2: Seq<DomItem>,
        out: Seq<(LV, bool)>,
        top: DomItem,
        start: LV,
    )
        requires
            self.entries_wf(),
            self.versions_in_graph(vs),
            self.dom_walking(vs, q, out, top, start),
            forall|i: int| 0 <= i < q.len() ==> (#[trigger] q[i]).v < start,
            forall|y: DomItem|
                q2.contains(y) <==> (q.contains(y) || (y.walk && self.run_parents(top.v).contains(
                    y.v,
                ))),
        ensures
            self.dom_state(vs, q2, out, start as int),
    {
        let ps = self.run_parents(top.v);
        self.lemma_entry_of(top.v);
        // Every parent of the run is in the history of a version asked about.
        assert forall|j: int| 0 <= j < ps.len() implies self.covered_from_above(
            vs,
            #[trigger] ps[j],
        ) by {
            self.lemma_parents_below(top.v, j);
            self.lemma_contains_self(ps[j]);
            self.lemma_contains_via_parent(top.v, j, ps[j]);
            if top.walk {
                let k = choose|k: int|
                    0 <= k < vs.len() && #[trigger] vs[k] > top.v && self.version_contains(
                        vs[k],
                        top.v,
                    );
                self.lemma_contains_transitive(vs[k], top.v, ps[j]);
            } else {
                let k = choose|k: int| 0 <= k < vs.len() && vs[k] == top.v;
                assert(vs[k] > ps[j]);
            }
        }
        assert forall|i: int| 0 <= i < q2.len() implies (#[trigger] q2[i]).v < start && (
        if q2[i].walk {
            self.covered_from_above(vs, q2[i].v)
        } else {
            vs.contains(q2[i].v)
        }) by {
            let y = q2[i];
            assert(q2.contains(y));
            if q.contains(y) {
                let m = choose|m: int| 0 <= m < q.len() && q[m] == y;
                assert(q[m].v < start);
            } else {
                let j = choose|j: int| 0 <= j < ps.len() && ps[j] == y.v;
                self.lemma_parents_below(top.v, j);
                assert(self.covered_from_above(vs, ps[j]));
            }
        }
        assert forall|k: int| 0 <= k < vs.len() implies if (#[trigger] vs[k]) < start {
            q2.contains(DomItem { v: vs[k], walk: false })
        } else {
            visited(out, vs[k])
        } by {
            let item = DomItem { v: vs[k], walk: false };
            if vs[k] < start {
                if visited(out, vs[k]) {
                    let i = choose|i: int| 0 <= i < out.len() && (#[trigger] out[i]).0 == vs[k];
                    assert(start <= out[i].0);
                }
                assert(q.contains(item));
            } else {
                if q.contains(item) {
                    let m = choose|m: int| 0 <= m < q.len() && q[m] == item;
                    assert(q[m].v < start);
                }
            }
        }
        assert forall|k: int, x: LV|
            0 <= k < vs.len() && start <= vs[k] && x < start && #[trigger] self.version_contains(
                vs[k],
                x,
            ) implies walk_reaches(self, q2, x) by {
            if walk_reaches(self, q, x) {
                let i = choose|i: int|
                    0 <= i < q.len() && (#[trigger] q[i]).walk && self.version_contains(q[i].v, x);
                assert(q.contains(q[i]));
                assert(q2.contains(q[i]));
                let m = choose|m: int| 0 <= m < q2.len() && q2[m] == q[i];
                assert(q2[m].walk && self.version_contains(q2[m].v, x));
            } else {
                self.lemma_below_parents(top.v, x);
                let j = choose|j: int|
                    0 <= j < ps.len() && #[trigger] self.version_contains(ps[j], x);
                let y = DomItem { v: ps[j], walk: true };
                assert(ps.contains(y.v));
                assert(q2.contains(y));
                let m = choose|m: int| 0 <= m < q2.len() && q2[m] == y;
                assert(q2[m].walk && self.version_contains(q2[m].v, x));
            }
        }
    }

    /// Where the shadow of the current run reaches down to the least
    /// version asked about, no dominator is left to find.
    pub proof fn lemma_dom_stop(
        &self,
        vs: Seq<LV>,
        q: Seq<DomItem>,
        out: Seq<(LV, bool)>,
        top: DomItem,
        start: LV,
        stop: LV,
    )
        requires
            self.entries_wf(),
            self.versions_in_graph(vs),
            self.dom_walking(vs, q, out, top, start),
            self.entry_of(top.v).shadow <= stop,
            forall|k: int| 0 <= k < vs.len() ==> stop <= #[trigger] vs[k],
        ensures
            forall|v: LV| self.is_dominator(vs, v) ==> visited(out, v),
    {
        assert forall|v: LV| self.is_dominator(vs, v) implies visited(out, v) by {
            let k = choose|k: int| 0 <= k < vs.len() && vs[k] == v;
            let item = DomItem { v: vs[k], walk: false };
            if q.contains(item) {
                let m = choose|m: int| 0 <= m < q.len() && q[m] == item;
                assert(q[m].rank() <= top.rank());
                self.lemma_shadow_contains(top.v, v);
                if top.walk {
                    let j = choose|j: int|
                        0 <= j < vs.len() && #[trigger] vs[j] > top.v && self.version_contains(
                            vs[j],
                            top.v,
                        );
                    self.lemma_contains_transitive(vs[j], top.v, v);
                    assert(self.covered_from_above(vs, v));
                } else {
                    if v < top.v {
                        let j = choose|j: int| 0 <= j < vs.len() && vs[j] == top.v;
                        assert(vs[j] > v);
                        assert(self.covered_from_above(vs, v));
                    }
                }
            }
        }
    }

    /// With no version asked about left in the queue, all were visited.
    pub proof fn lemma_dom_done(
        &self,
        vs: Seq<LV>,
        q: Seq<DomItem>,
        out: Seq<(LV, bool)>,
        top: DomItem,
        start: LV,
    )
        requires
            self.dom_walking(vs, q, out, top, start),
            count_inputs(q) == 0,
        ensures
            forall|k: int| 0 <= k < vs.len() ==> visited(out, #[trigger] vs[k]),
    {
        lemma_count_inputs_bound(q);
        assert forall|k: int| 0 <= k < vs.len() implies visited(out, #[trigger] vs[k]) by {
            let item = DomItem { v: vs[k], walk: false };
            if q.contains(item) {
                let m = choose|m: int| 0 <= m < q.len() && q[m] == item;
                assert(q[m].walk);
            }
        }
    }

    /// With an empty queue, all versions asked about were visited.
    pub proof fn lemma_dom_drained(&self, vs: Seq<LV>, out: Seq<(LV, bool)>, bound: int)
        requires
            self.dom_state(vs, Seq::<DomItem>::empty(), out, bound),
        ensures
            forall|k: int| 0 <= k < vs.len() ==> visited(out, #[trigger] vs[k]),
    {
        let q = Seq::<DomItem>::empty();
        assert forall|k: int| 0 <= k < vs.len() implies visited(out, #[trigger] vs[k]) by {
            let item = DomItem { v: vs[k], walk: false };
            if vs[k] < bound {
                assert(q.contains(item));
                let m = choose|m: int| 0 <= m < q.len() && q[m] == item;
            }
        }
    }

    /// The visits are in descending order, each is right, and no dominator
    /// was left out.
    pub open spec fn dominators_visited(&self, vs: Seq<LV>, out: Seq<(LV, bool)>) -> bool {
        &&& visits_descend(out)
        &&& self.visits_right(vs, out)
        &&& forall|v: LV| self.is_dominator(vs, v) ==> visited(out, v)
    }

    /// Drops from the queue the items of the run that starts at `start`,
    /// and visits those that are versions asked about.
    #[verifier::rlimit(50)]
    fn dom_consume_run(
        &self,
        queue: &mut MaxQueue<DomItem>,
        out: &mut Vec<(LV, bool)>,
        inputs_remaining: &mut usize,
        last_emitted: &mut LV,
        start: LV,
        Ghost(vs): Ghost<Seq<LV>>,
        Ghost(top): Ghost<DomItem>,
    )
        requires
            self.entries_wf(),
            self.versions_in_graph(vs),
            old(queue).wf(),
            self.dom_walking(vs, old(queue)@, old(out)@, top, start),
            *old(inputs_remaining) == count_inputs(old(queue)@),
            *old(last_emitted) == (if old(out)@.len() > 0 {
                old(out)@.last().0
            } else {
                usize::MAX
            }),
        ensures
            final(queue).wf(),
            self.dom_walking(vs, final(queue)@, final(out)@, top, start),
            *final(inputs_remaining) == count_inputs(final(queue)@),
            *final(last_emitted) == (if final(out)@.len() > 0 {
                final(out)@.last().0
            } else {
                usize::MAX
            }),
            forall|i: int| 0 <= i < final(queue)@.len() ==> (#[trigger] final(queue)@[i]).v < start,
    {
        loop
            invariant
                self.entries_wf(),
                self.versions_in_graph(vs),
                queue.wf(),
                self.dom_walking(vs, queue@, out@, top, start),
                *inputs_remaining == count_inputs(queue@),
                *last_emitted == (if out@.len() > 0 {
                    out@.last().0
                } else {
                    usize::MAX
                }),
            ensures
                forall|i: int| 0 <= i < queue@.len() ==> (#[trigger] queue@[i]).v < start,
            decreases queue@.len(),
        {
            let ghost q1 = queue@;
            let ghost out1 = out@;
            let (v2, is_input2) = match queue.peek() {
                Some(peek) => (peek.v, !peek.walk),
                None => {
                    break ;
                },
            };
            if v2 < start {
                proof {
                    assert forall|i: int| 0 <= i < queue@.len() implies (#[trigger] queue@[i]).v
                        < start by {
                        assert(queue@[i].rank() <= queue@.last().rank());
                    }
                }
                break ;
            }
            proof {
                self.lemma_dom_consume(vs, q1, out1, top, start);
                self.lemma_entry_of(top.v);
                assert(q1.last().rank() <= top.rank());
            }
            queue.pop();
            if is_input2 {
                if *last_emitted != v2 {
                    out.push((v2, false));
                    *last_emitted = v2;
                }
                *inputs_remaining -= 1;
            }
            assert(out@ == Self::out_after_consume(out1, q1.last()));
        }
    }

    /// Puts the parents of a run into the queue, as versions met on the way
    /// down.
    fn dom_push_parents(queue: &mut MaxQueue<DomItem>, parents: &[LV])
        requires
            old(queue).wf(),
        ensures
            final(queue).wf(),
            count_inputs(final(queue)@) == count_inputs(old(queue)@),
            forall|y: DomItem|
                final(queue)@.contains(y) <==> (old(queue)@.contains(y) || (y.walk
                    && parents@.contains(y.v))),
    {
        let mut k: usize = 0;
        while k < parents.len()
            invariant
                0 <= k <= parents@.len(),
                queue.wf(),
                count_inputs(queue@) == count_inputs(old(queue)@),
                forall|y: DomItem|
                    queue@.contains(y) <==> (old(queue)@.contains(y) || (y.walk && exists|j: int|
                        0 <= j < k && parents@[j] == y.v)),
            decreases parents@.len() - k,
        {
            let ghost q0 = queue@;
            let item = DomItem { v: parents[k], walk: true };
            queue.push(item);
            proof {
                let i = choose|i: int| 0 <= i <= q0.len() && queue@ == q0.insert(i, item);
                lemma_count_inputs_insert(q0, i, item);
                assert forall|y: DomItem|
                    queue@.contains(y) <==> (old(queue)@.contains(y) || (y.walk && exists|j: int|
                        0 <= j < k + 1 && parents@[j] == y.v)) by {
                    if y == item {
                        assert(parents@[k as int] == y.v);
                    }
                }
            }
            k += 1;
        }
        proof {
            assert forall|y: DomItem|
                queue@.contains(y) <==> (old(queue)@.contains(y) || (y.walk && parents@.contains(
                    y.v,
                ))) by {
                if y.walk && parents@.contains(y.v) {
                    let j = choose|j: int| 0 <= j < parents@.len() && parents@[j] == y.v;
                    assert(0 <= j < k && parents@[j] == y.v);
                }
            }
        }
    }

    /// Puts the versions asked about into an empty queue.
    fn dom_push_inputs(queue: &mut MaxQueue<DomItem>, versions: &[LV])
        requires
            old(queue).wf(),
            old(queue)@.len() == 0,
        ensures
            final(queue).wf(),
            count_inputs(final(queue)@) == versions@.len(),
            final(queue)@.len() == versions@.len(),
            forall|y: DomItem| final(queue)@.contains(y) <==> (!y.walk && versions@.contains(y.v)),
    {
        let mut k: usize = 0;
        while k < versions.len()
            invariant
                0 <= k <= versions@.len(),
                queue.wf(),
                count_inputs(queue@) == k,
                queue@.len() == k,
                forall|y: DomItem|
                    queue@.contains(y) <==> (!y.walk && exists|j: int|
                        0 <= j < k && versions@[j] == y.v),
            decreases versions@.len() - k,
        {
            let ghost q0 = queue@;
            let item = DomItem { v: versions[k], walk: false };
            queue.push(item);
            proof {
                let i = choose|i: int| 0 <= i <= q0.len() && queue@ == q0.insert(i, item);
                lemma_count_inputs_insert(q0, i, item);
                assert forall|y: DomItem|
                    queue@.contains(y) <==> (!y.walk && exists|j: int|
                        0 <= j < k + 1 && versions@[j] == y.v) by {
                    if y == item {
                        assert(versions@[k as int] == y.v);
                    }
                }
            }
            k += 1;
        }
        proof {
            assert forall|y: DomItem|
                queue@.contains(y) <==> (!y.walk && versions@.contains(y.v)) by {
                if !y.walk && versions@.contains(y.v) {
                    let j = choose|j: int| 0 <= j < versions@.len() && versions@[j] == y.v;
                    assert(0 <= j < k && versions@[j] == y.v);
                }
            }
        }
    }

    /// Visits the versions asked about from the greatest down, and says of
    /// each whether it is a dominator. With a `stop_at_shadow` other than
    /// `usize::MAX`, which must not be above any version asked about, the
    /// walk may end once no dominator is left to find.
    #[verifier::rlimit(50)]
    pub fn find_dominators_full_internal(&self, versions: &[LV], stop_at_shadow: usize) -> (out:
        Vec<(LV, bool)>)
        requires
            self.entries_wf(),
            self.versions_in_graph(versions@),
            stop_at_shadow != usize::MAX ==> forall|k: int|
                0 <= k < versions@.len() ==> stop_at_shadow <= #[trigger] versions@[k],
        ensures
            self.dominators_visited(versions@, out@),
            stop_at_shadow == usize::MAX ==> forall|k: int|
                0 <= k < versions@.len() ==> visited(out@, #[trigger] versions@[k]),
    {
        let ghost vs = versions@;
        let mut out: Vec<(LV, bool)> = Vec::new();
        if versions.len() <= 1 {
            // All items are dominators.
            if versions.len() == 1 {
                out.push((versions[0], true));
                proof {
                    assert(vs.contains(vs[0]));
                    assert(!self.covered_from_above(vs, vs[0]));
                    assert(out@[0].0 == vs[0]);
                    assert forall|v: LV| self.is_dominator(vs, v) implies visited(out@, v) by {
                        let k = choose|k: int| 0 <= k < vs.len() && vs[k] == v;
                        assert(out@[0].0 == v);
                    }
                }
            } else {
                proof {
                    assert forall|v: LV| self.is_dominator(vs, v) implies visited(out@, v) by {
                        let k = choose|k: int| 0 <= k < vs.len() && vs[k] == v;
                    }
                }
            }
            return out;
        }
        let mut queue: MaxQueue<DomItem> = MaxQueue::new();
        Self::dom_push_inputs(&mut queue, versions);
        let mut inputs_remaining: usize = queue.len();
        let mut last_emitted: LV = usize::MAX;
        let _total = self.len();
        let ghost mut bound: int = self.spec_len() as int;
        proof {
            assert forall|i: int| 0 <= i < queue@.len() implies (#[trigger] queue@[i]).v < bound
                && !queue@[i].walk && vs.contains(queue@[i].v) by {
                assert(queue@.contains(queue@[i]));
                let j = choose|j: int| 0 <= j < vs.len() && vs[j] == queue@[i].v;
            }
            assert forall|k: int| 0 <= k < vs.len() implies queue@.contains(
                DomItem { v: #[trigger] vs[k], walk: false },
            ) by {
                assert(vs.contains(vs[k]));
            }
        }
        loop
            invariant_except_break
                queue.wf(),
                0 <= bound <= self.spec_len(),
                self.dom_state(vs, queue@, out@, bound),
                inputs_remaining == count_inputs(queue@),
                last_emitted == (if out@.len() > 0 {
                    out@.last().0
                } else {
                    usize::MAX
                }),
            invariant
                self.entries_wf(),
                self.versions_in_graph(vs),
                vs == versions@,
                stop_at_shadow != usize::MAX ==> forall|k: int|
                    0 <= k < vs.len() ==> stop_at_shadow <= #[trigger] vs[k],
            ensures
                self.dominators_visited(vs, out@),
                stop_at_shadow == usize::MAX ==> forall|k: int|
                    0 <= k < vs.len() ==> visited(out@, #[trigger] vs[k]),
            decreases bound,
        {
            let ghost q0 = queue@;
            let ghost out0 = out@;
            let top = match queue.pop() {
                Some(top) => top,
                None => {
                    proof {
                        assert(q0 =~= Seq::<DomItem>::empty());
                        self.lemma_dom_drained(vs, out@, bound);
                        lemma_visited_all(self, vs, out@);
                    }
                    break ;
                },
            };
            let v = top.v;
            proof {
                self.lemma_dom_take(vs, q0, out0, bound);
                assert(q0[q0.len() - 1] == top);
            }
            if !top.walk {
                out.push((v, true));
                last_emitted = v;
                inputs_remaining -= 1;
            }
            assert(out@ == Self::out_after_take(out0, top));
            let e = self.entry_for(v);
            let start = e.span.start;
            if stop_at_shadow != usize::MAX && e.shadow <= stop_at_shadow {
                proof {
                    self.lemma_dom_stop(vs, queue@, out@, top, start, stop_at_shadow);
                }
                break ;
            }
            self.dom_consume_run(
                &mut queue,
                &mut out,
                &mut inputs_remaining,
                &mut last_emitted,
                start,
                Ghost(vs),
                Ghost(top),
            );
            if inputs_remaining == 0 {
                proof {
                    self.lemma_dom_done(vs, queue@, out@, top, start);
                    lemma_visited_all(self, vs, out@);
                }
                break ;
            }
            let ghost q2 = queue@;
            Self::dom_push_parents(&mut queue, e.parents.as_slice());
            proof {
                self.lemma_dom_descend(vs, q2, queue@, out@, top, start);
                bound = start as int;
            }
        }
        out
    }
}

/// Where every version asked about was visited, every dominator was.
pub proof fn lemma_visited_all(g: &Graph, vs: Seq<LV>, out: Seq<(LV, bool)>)
    requires
        forall|k: int| 0 <= k < vs.len() ==> visited(out, #[trigger] vs[k]),
    ensures
        forall|v: LV| g.is_dominator(vs, v) ==> visited(out, v),
{
    assert forall|v: LV| g.is_dominator(vs, v) implies visited(out, v) by {
        let k = choose|k: int| 0 <= k < vs.len() && vs[k] == v;
        assert(visited(out, vs[k]));
    }
}

/// Strictly descending.
pub open spec fn is_sorted_strict_rev(s: Seq<LV>) -> bool {
    forall|i: int, j: int| 0 <= i < j < s.len() ==> s[i] > s[j]
}

/// Two ascending lists of the same versions are one list.
pub proof fn lemma_sorted_unique(a: Seq<LV>, b: Seq<LV>)
    requires
        is_sorted_strict(a),
        is_sorted_strict(b),
        forall|v: LV| a.contains(v) == b.contains(v),
    ensures
        a == b,
    decreases a.len(),
{
    if a.len() == 0 {
        if b.len() > 0 {
            assert(b.contains(b[0]));
        }
        assert(a =~= b);
    } else {
        let m = a.last();
        assert(a.contains(m)) by {
            assert(a[a.len() - 1] == m);
        }
        assert(b.contains(m));
        let j = choose|j: int| 0 <= j < b.len() && b[j] == m;
        if j < b.len() - 1 {
            let w = b[b.len() - 1];
            assert(b.contains(w));
            assert(a.contains(w));
            let i = choose|i: int| 0 <= i < a.len() && a[i] == w;
            assert(w > m);
            if i < a.len() - 1 {
                assert(a[i] < a[a.len() - 1]);
            }
            assert(false);
        }
        let a2 = a.drop_last();
        let b2 = b.drop_last();
        assert forall|v: LV| a2.contains(v) == b2.contains(v) by {
            if a2.contains(v) {
                let i = choose|i: int| 0 <= i < a2.len() && a2[i] == v;
                assert(a[i] == v);
                assert(a[i] < a[a.len() - 1]);
                assert(a.contains(v));
                let k = choose|k: int| 0 <= k < b.len() && b[k] == v;
                assert(b2[k] == v);
            }
            if b2.contains(v) {
                let i = choose|i: int| 0 <= i < b2.len() && b2[i] == v;
                assert(b[i] == v);
                assert(b[i] < b[b.len() - 1]);
                assert(b.contains(v));
                let k = choose|k: int| 0 <= k < a.len() && a[k] == v;
                assert(a2[k] == v);
            }
        }
        lemma_sorted_unique(a2, b2);
        assert(a =~= a2.push(m));
        assert(b =~= b2.push(m));
    }
}

/// Inverting a strictly descending list gives a strictly ascending list of
/// the same versions.
pub proof fn lemma_reverse_sorted(s: Seq<LV>)
    requires
        is_sorted_strict_rev(s),
    ensures
        is_sorted_strict(s.reverse()),
        forall|v: LV| #[trigger] s.reverse().contains(v) == s.contains(v),
{
    let r = s.reverse();
    assert forall|v: LV| #[trigger] r.contains(v) == s.contains(v) by {
        if r.contains(v) {
            let i = choose|i: int| 0 <= i < r.len() && r[i] == v;
            assert(s[s.len() - 1 - i] == v);
        }
        if s.contains(v) {
            let i = choose|i: int| 0 <= i < s.len() && s[i] == v;
            assert(r[s.len() - 1 - i] == v);
        }
    }
}

impl Graph {
    /// `d` lists the dominators of `vs` in descending order.
    pub open spec fn is_dominators_rev_of(&self, vs: Seq<LV>, d: Seq<LV>) -> bool {
        &&& is_sorted_strict_rev(d)
        &&& forall|v: LV| #[trigger] d.contains(v) == self.is_dominator(vs, v)
    }

    /// The dominators among the visits, in the order of the visits.
    #[verifier::rlimit(50)]
    fn collect_dominators(&self, out: &Vec<(LV, bool)>, Ghost(vs): Ghost<Seq<LV>>) -> (r: Frontier)
        requires
            self.dominators_visited(vs, out@),
        ensures
            self.is_dominators_rev_of(vs, r@),
    {
        let mut result = Frontier::root();
        let mut i: usize = 0;
        while i < out.len()
            invariant
                0 <= i <= out@.len(),
                self.dominators_visited(vs, out@),
                is_sorted_strict_rev(result@),
                forall|k: int| 0 <= k < result@.len() ==> i > 0 && #[trigger] result@[k] >= out@[i
                    - 1].0,
                forall|v: LV|
                    #[trigger] result@.contains(v) <==> exists|k: int|
                        0 <= k < i && (#[trigger] out@[k]).0 == v && out@[k].1,
            decreases out@.len() - i,
        {
            let (v, dom) = out[i];
            if dom {
                let ghost r0 = result@;
                result.push(v);
                proof {
                    assert forall|a: int, b: int| 0 <= a < b < result@.len() implies result@[a]
                        > result@[b] by {
                        if b == r0.len() {
                            assert(r0[a] >= out@[i - 1].0);
                            assert(out@[i - 1].0 > out@[i as int].0);
                        }
                    }
                    assert forall|k: int| 0 <= k < result@.len() implies #[trigger] result@[k]
                        >= out@[i as int].0 by {
                        if k < r0.len() {
                            assert(r0[k] >= out@[i - 1].0);
                            assert(out@[i - 1].0 > out@[i as int].0);
                        }
                    }
                    assert forall|w: LV| #[trigger]
                        result@.contains(w) <==> exists|k: int|
                            0 <= k < i + 1 && (#[trigger] out@[k]).0 == w && out@[k].1 by {
                        if result@.contains(w) {
                            let m = choose|m: int| 0 <= m < result@.len() && result@[m] == w;
                            if m < r0.len() {
                                assert(r0.contains(w));
                            } else {
                                assert(out@[i as int].0 == w && out@[i as int].1);
                            }
                        }
                        if exists|k: int| 0 <= k < i + 1 && (#[trigger] out@[k]).0 == w && out@[k].1 {
                            let k = choose|k: int|
                                0 <= k < i + 1 && (#[trigger] out@[k]).0 == w && out@[k].1;
                            if k < i {
                                assert(r0.contains(w));
                                let m = choose|m: int| 0 <= m < r0.len() && r0[m] == w;
                                assert(result@[m] == w);
                            } else {
                                assert(result@[r0.len() as int] == w);
                            }
                        }
                    }
                }
            } else {
                proof {
                    assert forall|k: int| 0 <= k < result@.len() implies #[trigger] result@[k]
                        >= out@[i as int].0 by {
                        assert(result@[k] >= out@[i - 1].0);
                        assert(out@[i - 1].0 > out@[i as int].0);
                    }
                }
            }
            i += 1;
        }
        proof {
            assert forall|v: LV| #[trigger] result@.contains(v) == self.is_dominator(vs, v) by {
                if result@.contains(v) {
                    let k = choose|k: int|
                        0 <= k < out@.len() && (#[trigger] out@[k]).0 == v && out@[k].1;
                }
                if self.is_dominator(vs, v) {
                    assert(visited(out@, v));
                    let k = choose|k: int| 0 <= k < out@.len() && (#[trigger] out@[k]).0 == v;
                    assert(out@[k].1);
                }
            }
        }
        result
    }

    /// Visits every version asked about once, from the greatest down, and
    /// says of each whether it is a dominator.
    pub fn find_dominators_full(&self, versions: &[LV]) -> (out: Vec<(LV, bool)>)
        requires
            self.entries_wf(),
            self.versions_in_graph(versions@),
        ensures
            self.dominators_visited(versions@, out@),
            forall|k: int| 0 <= k < versions@.len() ==> visited(out@, #[trigger] versions@[k]),
    {
        self.find_dominators_full_internal(versions, usize::MAX)
    }

    /// The dominators of `versions`, in descending order.
    #[verifier::rlimit(50)]
    pub fn find_dominators_wide_rev(&self, versions: &[LV]) -> (r: Frontier)
        requires
            self.entries_wf(),
            self.versions_in_graph(versions@),
        ensures
            self.is_dominators_rev_of(versions@, r@),
    {
        let ghost vs = versions@;
        if versions.len() <= 1 {
            let r = Frontier::from_sorted(versions);
            proof {
                assert forall|v: LV| #[trigger] r@.contains(v) == self.is_dominator(vs, v) by {
                    if vs.contains(v) {
                        assert(vs[0] == v);
                        assert(!self.covered_from_above(vs, v));
                    }
                }
            }
            return r;
        }
        let mut min_v = versions[0];
        let mut max_v = versions[0];
        let mut i: usize = 1;
        while i < versions.len()
            invariant
                1 <= i <= versions@.len(),
                vs == versions@,
                vs.contains(min_v),
                vs.contains(max_v),
                forall|k: int| 0 <= k < i ==> min_v <= #[trigger] vs[k] <= max_v,
            decreases versions@.len() - i,
        {
            let v = versions[i];
            if v < min_v {
                min_v = v;
            }
            if v > max_v {
                max_v = v;
            }
            i += 1;
        }
        let _total = self.len();
        let last_entry = self.entry_for(max_v);
        // Nothing else in the list matters where all is under the shadow of
        // the greatest version.
        if last_entry.shadow <= min_v {
            let r = Frontier::new_1(max_v);
            proof {
                assert(r@[0] == max_v);
                assert forall|v: LV| #[trigger] r@.contains(v) == self.is_dominator(vs, v) by {
                    if vs.contains(v) {
                        let k = choose|k: int| 0 <= k < vs.len() && vs[k] == v;
                        if v != max_v {
                            self.lemma_shadow_contains(max_v, v);
                            let m = choose|m: int| 0 <= m < vs.len() && vs[m] == max_v;
                            assert(vs[m] > v);
                            assert(self.covered_from_above(vs, v));
                        } else {
                            if self.covered_from_above(vs, v) {
                                let m = choose|m: int|
                                    0 <= m < vs.len() && #[trigger] vs[m] > v
                                        && self.version_contains(vs[m], v);
                            }
                        }
                    }
                }
            }
            return r;
        }
        let out = self.find_dominators_full_internal(versions, min_v);
        self.collect_dominators(&out, Ghost(vs))
    }

    /// The dominators of `versions`, in ascending order: the least frontier
    /// with the same history.
    pub fn find_dominators(&self, versions: &[LV]) -> (r: Frontier)
        requires
            self.entries_wf(),
            self.versions_in_graph(versions@),
        ensures
            self.is_dominators_of(versions@, r@),
    {
        let mut result = self.find_dominators_wide_rev(versions);
        proof {
            lemma_reverse_sorted(result@);
        }
        result.reverse();
        result
    }

    /// The dominators of two frontiers taken together. Each of `v_1` and
    /// `v_2` is in ascending order.
    pub fn find_dominators_2(&self, v_1: &[LV], v_2: &[LV]) -> (r: Frontier)
        requires
            self.entries_wf(),
            self.versions_in_graph(v_1@),
            self.versions_in_graph(v_2@),
            is_sorted_strict(v_1@),
            is_sorted_strict(v_2@),
        ensures
            self.is_dominators_of(v_1@ + v_2@, r@),
    {
        let ghost vs = v_1@ + v_2@;
        if v_1.len() == 0 || v_2.len() == 0 || (v_1.len() == 1 && v_2.len() == 1) {
            return self.find_dominators_2_short(v_1, v_2);
        }
        let first_v = if v_1[0] < v_2[0] {
            v_1[0]
        } else {
            v_2[0]
        };
        let both = concat_versions(v_1, v_2);
        proof {
            assert forall|k: int| 0 <= k < vs.len() implies first_v <= #[trigger] vs[k] by {
                if k < v_1@.len() {
                    if k > 0 {
                        assert(v_1@[0] < v_1@[k]);
                    }
                } else {
                    let j = k - v_1@.len();
                    if j > 0 {
                        assert(v_2@[0] < v_2@[j]);
                    }
                }
            }
        }
        let _total = self.len();
        let out = self.find_dominators_full_internal(both.as_slice(), first_v);
        let mut result = self.collect_dominators(&out, Ghost(vs));
        proof {
            lemma_reverse_sorted(result@);
        }
        result.reverse();
        result
    }

    /// `find_dominators_2` where a frontier is empty or both hold one
    /// version.
    fn find_dominators_2_short(&self, v_1: &[LV], v_2: &[LV]) -> (r: Frontier)
        requires
            self.entries_wf(),
            self.versions_in_graph(v_1@),
            self.versions_in_graph(v_2@),
            v_1@.len() == 0 || v_2@.len() == 0 || (v_1@.len() == 1 && v_2@.len() == 1),
        ensures
            self.is_dominators_of(v_1@ + v_2@, r@),
    {
        if v_1.len() == 0 {
            assert(v_1@ + v_2@ =~= v_2@);
            return self.find_dominators(v_2);
        }
        if v_2.len() == 0 {
            assert(v_1@ + v_2@ =~= v_1@);
            return self.find_dominators(v_1);
        }
        let a = v_1[0];
        let b = v_2[0];
        let ghost vs = v_1@ + v_2@;
        assert(vs =~= seq![a, b]);
        let r = match self.version_cmp(a, b) {
            None => {
                // Neither is in the history of the other.
                if a < b {
                    let mut f = Frontier::new_1(a);
                    f.push(b);
                    f
                } else {
                    let mut f = Frontier::new_1(b);
                    f.push(a);
                    f
                }
            },
            Some(Ordering::Equal) => Frontier::new_1(b),
            Some(Ordering::Less) => Frontier::new_1(b),
            Some(Ordering::Greater) => Frontier::new_1(a),
        };
        proof {
            self.lemma_dominators_of_two(a, b, r@);
        }
        r
    }

    /// The dominators of two versions: both where neither is in the history
    /// of the other, else the one that has the other in its history.
    pub proof fn lemma_dominators_of_two(&self, a: LV, b: LV, r: Seq<LV>)
        requires
            self.entries_wf(),
            a < self.spec_len(),
            b < self.spec_len(),
            r =~= (if a == b {
                seq![b]
            } else if a < b {
                if self.version_contains(b, a) {
                    seq![b]
                } else {
                    seq![a, b]
                }
            } else {
                if self.version_contains(a, b) {
                    seq![a]
                } else {
                    seq![b, a]
                }
            }),
        ensures
            self.is_dominators_of(seq![a, b], r),
    {
        let vs = seq![a, b];
        assert(vs[0] == a && vs[1] == b);
        assert forall|v: LV| #[trigger] r.contains(v) == self.is_dominator(vs, v) by {
            if self.covered_from_above(vs, v) {
                let k = choose|k: int|
                    0 <= k < vs.len() && #[trigger] vs[k] > v && self.version_contains(vs[k], v);
            }
            if self.version_contains(a, b) {
                self.lemma_contains_le(a, b);
            }
            if self.version_contains(b, a) {
                self.lemma_contains_le(b, a);
            }
            if v == a {
                assert(vs.contains(a));
                if a < b && self.version_contains(b, a) {
                    assert(vs[1] > a);
                    assert(self.covered_from_above(vs, a));
                }
            }
            if v == b {
                assert(vs.contains(b));
                if b < a && self.version_contains(a, b) {
                    assert(vs[0] > b);
                    assert(self.covered_from_above(vs, b));
                }
            }
            if r.contains(v) {
                let i = choose|i: int| 0 <= i < r.len() && r[i] == v;
            }
            if self.is_dominator(vs, v) {
                let i = choose|i: int| 0 <= i < vs.len() && vs[i] == v;
                if v == a {
                    if r.len() == 2 {
                        assert(r[0] == a || r[1] == a);
                    } else {
                        assert(r[0] == a);
                    }
                } else {
                    if r.len() == 2 {
                        assert(r[0] == b || r[1] == b);
                    } else {
                        assert(r[0] == b);
                    }
                }
            }
        }
    }

    /// A frontier for the history of `a` and `b` together: the dominators
    /// of the versions of both.
    pub fn version_union(&self, a: &[LV], b: &[LV]) -> (r: Frontier)
        requires
            self.entries_wf(),
            self.versions_in_graph(a@),
            self.versions_in_graph(b@),
        ensures
            self.is_dominators_of(a@ + b@, r@),
    {
        let both = concat_versions(a, b);
        let out = self.find_dominators_full(both.as_slice());
        let mut result = self.collect_dominators(&out, Ghost(a@ + b@));
        proof {
            lemma_reverse_sorted(result@);
        }
        result.reverse();
        result
    }
}

/// The versions of `a` followed by those of `b`.
pub fn concat_versions(a: &[LV], b: &[LV]) -> (r: Vec<LV>)
    ensures
        r@ == a@ + b@,
{
    let mut r: Vec<LV> = Vec::new();
    let mut i: usize = 0;
    while i < a.len()
        invariant
            0 <= i <= a@.len(),
            r@ == a@.take(i as int),
        decreases a@.len() - i,
    {
        r.push(a[i]);
        assert(a@.take(i + 1) =~= a@.take(i as int).push(a@[i as int]));
        i += 1;
    }
    assert(a@.take(a@.len() as int) =~= a@);
    let mut j: usize = 0;
    while j < b.len()
        invariant
            0 <= j <= b@.len(),
            r@ == a@ + b@.take(j as int),
        decreases b@.len() - j,
    {
        r.push(b[j]);
        assert(a@ + b@.take(j + 1) =~= (a@ + b@.take(j as int)).push(b@[j as int]));
        j += 1;
    }
    assert(b@.take(b@.len() as int) =~= b@);
    r
}

} // verus!
