//! Questions to the causal graph: is a version in a frontier's history, how
//! do two frontiers differ, which versions of a set are not in the history
//! of the others.

use crate::causalgraph::graph::Graph;
use crate::causalgraph::queue::{MaxQueue, Ranked};
use crate::frontier::{slice_contains, slice_eq, LV};
use std::cmp::Ordering;
use vstd::prelude::*;

verus! {

impl Graph {
    /// `f` names only versions that the graph holds.
    pub open spec fn versions_in_graph(&self, f: Seq<LV>) -> bool {
        forall|k: int| 0 <= k < f.len() ==> #[trigger] f[k] < self.spec_len()
    }

    /// The shadow of the run that holds `time`.
    pub fn shadow_of(&self, time: LV) -> (s: LV)
        requires
            self.entries_wf(),
            time < self.spec_len(),
        ensures
            s == self.entry_of(time).shadow,
    {
        self.entry_for(time).shadow
    }

    /// Whether `b` is `a` or lies below `a` within the shadow of `a`'s run.
    /// Where it does, `b` is in the history of `a`.
    pub fn txn_shadow_contains(&self, a: LV, b: LV) -> (r: bool)
        requires
            self.entries_wf(),
            a < self.spec_len(),
        ensures
            r == (a == b || (a > b && self.entry_of(a).shadow <= b)),
            r ==> self.version_contains(a, b),
    {
        let r = a == b || (a > b && self.shadow_of(a) <= b);
        proof {
            if r {
                self.lemma_entry_of(a);
                self.lemma_shadow_contains(a, b);
            }
        }
        r
    }

    /// Whether `b` is `a` or an earlier version of `a`'s run. Where it is,
    /// the history of `a` is that of `b` and the versions from `b` to `a`.
    pub fn is_direct_descendant_coarse(&self, a: LV, b: LV) -> (r: bool)
        requires
            self.entries_wf(),
            a < self.spec_len(),
        ensures
            r == (a == b || (a > b && self.run_start(a) <= b)),
            r ==> self.version_contains(a, b),
    {
        let r = a == b || (a > b && self.entry_for(a).contains(b));
        proof {
            if r {
                self.lemma_entry_of(a);
                self.lemma_shadow_contains(a, b);
            }
        }
        r
    }

    /// Whether `target` is in the history of `frontier`.
    #[verifier::loop_isolation(false)]
    #[verifier::rlimit(50)]
    pub fn frontier_contains_version(&self, frontier: &[LV], target: LV) -> (r: bool)
        requires
            self.entries_wf(),
            self.versions_in_graph(frontier@),
        ensures
            r == self.frontier_contains(frontier@, target),
    {
        if slice_contains(frontier, target) {
            proof {
                let k = choose|k: int| 0 <= k < frontier@.len() && frontier@[k] == target;
                self.lemma_contains_self(frontier@[k]);
            }
            return true;
        }
        if frontier.len() == 0 {
            return false;
        }
        // Fast path: a version of the frontier whose shadow reaches the target.

        let mut i: usize = 0;
        while i < frontier.len()
            invariant
                0 <= i <= frontier@.len(),
                self.entries_wf(),
                self.versions_in_graph(frontier@),
            decreases frontier@.len() - i,
        {
            let o = frontier[i];
            if o > target {
                let txn = self.entry_for(o);
                if txn.shadow_contains(target) {
                    proof {
                        self.lemma_shadow_contains(o, target);
                    }
                    return true;
                }
            }
            i += 1;
        }

        let mut queue: MaxQueue<LV> = MaxQueue::new();
        let mut i: usize = 0;
        while i < frontier.len()
            invariant
                0 <= i <= frontier@.len(),
                queue.wf(),
                self.versions_in_graph(frontier@),
                forall|q: LV| queue@.contains(q) ==> target < q < self.spec_len(),
                forall|q: LV|
                    queue@.contains(q) ==> exists|k: int|
                        0 <= k < frontier@.len() && frontier@[k] == q,
                forall|k: int| 0 <= k < i && frontier@[k] > target ==> queue@.contains(frontier@[k]),
            decreases frontier@.len() - i,
        {
            let o = frontier[i];
            if o > target {
                queue.push(o);
            }
            i += 1;
        }

        proof {
            // The queue holds the versions of the frontier that can have the
            // target in their history.
            if self.frontier_contains(frontier@, target) {
                let k = choose|k: int|
                    0 <= k < frontier@.len() && #[trigger] self.version_contains(
                        frontier@[k],
                        target,
                    );
                self.lemma_contains_le(frontier@[k], target);
                assert(frontier@[k] != target);
                assert(queue@.contains(frontier@[k]));
                let j = choose|j: int| 0 <= j < queue@.len() && queue@[j] == frontier@[k];
                assert(self.version_contains(queue@[j], target));
            }
            if self.frontier_contains(queue@, target) {
                let j = choose|j: int|
                    0 <= j < queue@.len() && #[trigger] self.version_contains(queue@[j], target);
                assert(queue@.contains(queue@[j]));
            }
        }

        let ghost mut bound: int = self.spec_len() as int;
        loop
            invariant
                self.entries_wf(),
                queue.wf(),
                bound <= self.spec_len(),
                forall|q: LV| queue@.contains(q) ==> target < q < bound,
                self.frontier_contains(frontier@, target) == self.frontier_contains(queue@, target),
            decreases bound,
        {
            let ghost before = queue@;
            let order = match queue.pop() {
                Some(order) => order,
                None => {
                    return false;
                },
            };
            assert(before.contains(order)) by {
                assert(before[before.len() - 1] == order);
            }
            let entry = self.entry_for(order);
            if entry.shadow_contains(target) {
                proof {
                    self.lemma_shadow_contains(order, target);
                    assert(self.version_contains(before[before.len() - 1], target));
                }
                return true;
            }
            // Versions of the same run that wait in the queue add nothing.
            proof {
                self.lemma_entry_of(order);
                assert forall|q: LV| before.contains(q) && q < entry.span.start implies queue@.contains(
                    q,
                ) by {
                    let k = choose|k: int| 0 <= k < before.len() && before[k] == q;
                    assert(queue@[k] == q);
                }
                assert forall|q: LV| queue@.contains(q) implies before.contains(q) by {
                    let k = choose|k: int| 0 <= k < queue@.len() && queue@[k] == q;
                    assert(before[k] == q);
                }
            }

            loop
                invariant
                    queue.wf(),
                    forall|q: LV| queue@.contains(q) ==> before.contains(q),
                    forall|q: LV|
                        before.contains(q) && q < entry.span.start ==> queue@.contains(q),
                decreases queue@.len(),
            {
                match queue.peek() {
                    Some(next_time) => {
                        if *next_time >= entry.span.start {
                            let ghost q0 = queue@;
                            queue.pop();
                            proof {
                                assert forall|q: LV|
                                    before.contains(q) && q < entry.span.start implies queue@.contains(
                                    q,
                                ) by {
                                    let k = choose|k: int| 0 <= k < q0.len() && q0[k] == q;
                                    assert(queue@[k] == q);
                                }
                                assert forall|q: LV| queue@.contains(q) implies before.contains(
                                    q,
                                ) by {
                                    let k = choose|k: int| 0 <= k < queue@.len() && queue@[k] == q;
                                    assert(q0[k] == q);
                                }
                            }
                        } else {
                            proof {
                                assert forall|q: LV| queue@.contains(q) implies q
                                    < entry.span.start by {
                                    let k = choose|k: int| 0 <= k < queue@.len() && queue@[k] == q;
                                    assert(queue@[k].rank() <= next_time.rank());
                                }
                            }
                            break ;
                        }
                    },
                    None => {
                        break ;
                    },
                }
            }

            assert(forall|q: LV| queue@.contains(q) ==> q < entry.span.start);
            let ghost rest = queue@;
            let parents = entry.parents.as_slice();
            let mut k: usize = 0;
            while k < parents.len()
                invariant
                    0 <= k <= parents@.len(),
                    queue.wf(),
                    parents@ == entry.parents@,
                    forall|j: int| 0 <= j < parents@.len() ==> #[trigger] parents@[j] < entry.span.start,
                    forall|j: int| 0 <= j < k ==> parents@[j] != target,
                    forall|j: int| 0 <= j < k && parents@[j] > target ==> queue@.contains(parents@[j]),
                    forall|q: LV|
                        queue@.contains(q) ==> rest.contains(q) || exists|j: int|
                            0 <= j < k && parents@[j] == q && q > target,
                    forall|q: LV| rest.contains(q) ==> queue@.contains(q),
                decreases parents@.len() - k,
            {
                let p = parents[k];
                if p == target {
                    proof {
                        self.lemma_parents_below(order, k as int);
                        self.lemma_contains_self(p);
                        self.lemma_contains_via_parent(order, k as int, target);
                        assert(self.version_contains(before[before.len() - 1], target));
                    }
                    return true;
                } else if p > target {
                    queue.push(p);
                }
                k += 1;
            }

            proof {
                let start = entry.span.start;
                assert forall|q: LV| queue@.contains(q) implies target < q < start by {
                    if rest.contains(q) {
                        assert(before.contains(q));
                    }
                }
                // Nothing was lost: what a dropped version had in its
                // history, a parent of the run has.
                if self.frontier_contains(before, target) {
                    let j = choose|j: int|
                        0 <= j < before.len() && #[trigger] self.version_contains(before[j], target);
                    let q = before[j];
                    assert(before.contains(q));
                    if q < start {
                        assert(queue@.contains(q));
                        let m = choose|m: int| 0 <= m < queue@.len() && queue@[m] == q;
                        assert(self.version_contains(queue@[m], target));
                    } else {
                        // q lies in the run of `order`.
                        assert(q <= order) by {
                            assert(before[j].rank() <= order.rank());
                        }
                        let i = choose|i: int|
                            self.entries.covers(i, order as nat) && self.entry_of(order)
                                == self.entries.0@[i];
                        self.lemma_entry_of(order);
                        assert(self.entries.covers(i, q as nat));
                        self.lemma_entry_of_index(i, q);
                        self.lemma_contains_def(q, target);
                        let pk = choose|pk: int|
                            0 <= pk < self.run_parents(q).len() && #[trigger] self.run_parents(
                                q,
                            )[pk] < q && self.version_contains(self.run_parents(q)[pk], target);
                        let p = parents@[pk];
                        self.lemma_contains_le(p, target);
                        assert(p != target);
                        assert(queue@.contains(p));
                        let m = choose|m: int| 0 <= m < queue@.len() && queue@[m] == p;
                        assert(self.version_contains(queue@[m], target));
                    }
                }
                if self.frontier_contains(queue@, target) {
                    let m = choose|m: int|
                        0 <= m < queue@.len() && #[trigger] self.version_contains(queue@[m], target);
                    let q = queue@[m];
                    assert(queue@.contains(q));
                    if rest.contains(q) {
                        assert(before.contains(q));
                        let j = choose|j: int| 0 <= j < before.len() && before[j] == q;
                        assert(self.version_contains(before[j], target));
                    } else {
                        let j = choose|j: int| 0 <= j < k && parents@[j] == q && q > target;
                        self.lemma_parents_below(order, j);
                        self.lemma_contains_via_parent(order, j, target);
                        assert(self.version_contains(before[before.len() - 1], target));
                    }
                }
                bound = start as int;
            }
        }
    }

    /// Whether `t` is in the history of `v`.
    pub fn version_contains_version(&self, v: LV, t: LV) -> (r: bool)
        requires
            self.entries_wf(),
            v < self.spec_len(),
        ensures
            r == self.version_contains(v, t),
    {
        let f = [v];
        let r = self.frontier_contains_version(f.as_slice(), t);
        proof {
            if self.version_contains(v, t) {
                assert(self.version_contains(f@[0], t));
            }
        }
        r
    }

    /// How two versions relate: equal, the first in the history of the
    /// second (`Less`), the second in the history of the first (`Greater`),
    /// or neither in the history of the other (`None`).
    pub fn version_cmp(&self, v1: LV, v2: LV) -> (r: Option<Ordering>)
        requires
            self.entries_wf(),
            v1 < self.spec_len(),
            v2 < self.spec_len(),
        ensures
            v1 == v2 ==> r == Some(Ordering::Equal),
            v1 < v2 ==> r == (if self.version_contains(v2, v1) {
                Some(Ordering::Less)
            } else {
                None
            }),
            v1 > v2 ==> r == (if self.version_contains(v1, v2) {
                Some(Ordering::Greater)
            } else {
                None
            }),
    {
        if v1 == v2 {
            Some(Ordering::Equal)
        } else if v1 < v2 {
            if self.version_contains_version(v2, v1) {
                Some(Ordering::Less)
            } else {
                None
            }
        } else {
            if self.version_contains_version(v1, v2) {
                Some(Ordering::Greater)
            } else {
                None
            }
        }
    }

    /// Whether everything in the history of `b` is in the history of `a`.
    pub fn frontier_contains_frontier(&self, a: &[LV], b: &[LV]) -> (r: bool)
        requires
            self.entries_wf(),
            self.versions_in_graph(a@),
            self.versions_in_graph(b@),
        ensures
            r == (forall|k: int| 0 <= k < b@.len() ==> self.frontier_contains(a@, #[trigger] b@[k])),
    {
        if slice_eq(a, b) {
            proof {
                assert forall|k: int| 0 <= k < b@.len() implies self.frontier_contains(
                    a@,
                    #[trigger] b@[k],
                ) by {
                    self.lemma_contains_self(a@[k]);
                }
            }
            return true;
        }
        let mut i: usize = 0;
        while i < b.len()
            invariant
                0 <= i <= b@.len(),
                self.entries_wf(),
                self.versions_in_graph(a@),
                forall|k: int| 0 <= k < i ==> self.frontier_contains(a@, #[trigger] b@[k]),
            decreases b@.len() - i,
        {
            if !self.frontier_contains_version(a, b[i]) {
                return false;
            }
            i += 1;
        }
        true
    }
}

} // verus!
