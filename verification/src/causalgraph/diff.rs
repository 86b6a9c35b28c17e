//! The difference of two frontiers: the versions that are in the history of
//! the one and not of the other.

use crate::causalgraph::graph::Graph;
use crate::causalgraph::queue::{MaxQueue, Ranked};
use crate::dtrange::DTRange;
use crate::frontier::{slice_eq, LV};
use crate::range_list::{
    lemma_push_reversed, lemma_reverse_spans, spans_ascending, spans_contain, spans_descending,
    RangeList,
};
use vstd::prelude::*;

verus! {

/// Which of two histories a version belongs to.
#[derive(Copy, Clone, Debug, PartialEq, Eq, Structural, PartialOrd, Ord)]
pub enum DiffFlag {
    OnlyA,
    OnlyB,
    Shared,
}

impl DiffFlag {
    /// Whether a version with this flag is in the first history.
    pub open spec fn in_a(self) -> bool {
        self != DiffFlag::OnlyB
    }

    /// Whether a version with this flag is in the second history.
    pub open spec fn in_b(self) -> bool {
        self != DiffFlag::OnlyA
    }

    /// Whether a version with this flag is in the first history (`side_a`)
    /// or in the second.
    pub open spec fn on_side(self, side_a: bool) -> bool {
        if side_a {
            self.in_a()
        } else {
            self.in_b()
        }
    }

    /// Position in the order `OnlyA < OnlyB < Shared`.
    pub open spec fn spec_index(self) -> int {
        match self {
            DiffFlag::OnlyA => 0,
            DiffFlag::OnlyB => 1,
            DiffFlag::Shared => 2,
        }
    }

    pub fn index(self) -> (n: u8)
        ensures
            n == self.spec_index(),
    {
        match self {
            DiffFlag::OnlyA => 0,
            DiffFlag::OnlyB => 1,
            DiffFlag::Shared => 2,
        }
    }

    /// The flag of a version that carries both flags.
    pub open spec fn spec_join(self, other: DiffFlag) -> DiffFlag {
        if self == other {
            self
        } else {
            DiffFlag::Shared
        }
    }

    pub fn join(self, other: DiffFlag) -> (r: DiffFlag)
        ensures
            r == self.spec_join(other),
            r.in_a() == (self.in_a() || other.in_a()),
            r.in_b() == (self.in_b() || other.in_b()),
    {
        if self == other {
            self
        } else {
            DiffFlag::Shared
        }
    }
}

/// A version that waits to be visited, with the history it was reached from.
#[derive(Copy, Clone, Debug)]
pub struct DiffItem {
    pub v: LV,
    pub flag: DiffFlag,
}

impl Ranked for DiffItem {
    open spec fn rank(&self) -> int {
        self.v * 3 + self.flag.spec_index()
    }

    fn rank_le(&self, other: &DiffItem) -> (b: bool) {
        self.v < other.v || (self.v == other.v && self.flag.index() <= other.flag.index())
    }
}

/// The two sides of a difference: the ranges only in the first history, and
/// those only in the second.
pub struct DiffResult(pub RangeList, pub RangeList);

/// Whether an item of `q` that belongs to the first history (`side_a`) or to
/// the second has `x` in its history.
pub open spec fn queue_reaches(g: &Graph, q: Seq<DiffItem>, side_a: bool, x: LV) -> bool {
    exists|i: int|
        0 <= i < q.len() && (if side_a {
            (#[trigger] q[i]).flag.in_a()
        } else {
            q[i].flag.in_b()
        }) && g.version_contains(q[i].v, x)
}

/// Whether `item` counts for the given side and has `x` in its history.
pub open spec fn item_reaches(g: &Graph, item: DiffItem, side_a: bool, x: LV) -> bool {
    (if side_a {
        item.flag.in_a()
    } else {
        item.flag.in_b()
    }) && g.version_contains(item.v, x)
}

/// Number of items of `q` that belong to both histories.
pub open spec fn count_shared(q: Seq<DiffItem>) -> nat
    decreases q.len(),
{
    if q.len() == 0 {
        0
    } else {
        count_shared(q.drop_last()) + if q.last().flag == DiffFlag::Shared {
            1nat
        } else {
            0nat
        }
    }
}

/// No more items of a queue are shared than it has; where all are, each
/// is.
pub proof fn lemma_count_shared_bound(q: Seq<DiffItem>)
    ensures
        count_shared(q) <= q.len(),
        count_shared(q) == q.len() ==> forall|i: int|
            0 <= i < q.len() ==> (#[trigger] q[i]).flag == DiffFlag::Shared,
    decreases q.len(),
{
    if q.len() > 0 {
        lemma_count_shared_bound(q.drop_last());
        if count_shared(q) == q.len() {
            assert forall|i: int| 0 <= i < q.len() implies (#[trigger] q[i]).flag
                == DiffFlag::Shared by {
                if i < q.len() - 1 {
                    assert(q.drop_last()[i] == q[i]);
                }
            }
        }
    }
}

/// An item more adds one to the shared items of a queue where it is
/// shared.
pub proof fn lemma_count_shared_insert(q: Seq<DiffItem>, i: int, item: DiffItem)
    requires
        0 <= i <= q.len(),
    ensures
        count_shared(q.insert(i, item)) == count_shared(q) + if item.flag == DiffFlag::Shared {
            1nat
        } else {
            0nat
        },
    decreases q.len() - i,
{
    let r = q.insert(i, item);
    if i == q.len() {
        assert(r.drop_last() =~= q);
    } else {
        assert(r.drop_last() =~= q.drop_last().insert(i, item));
        assert(r.last() == q.last());
        lemma_count_shared_insert(q.drop_last(), i, item);
    }
}

/// What a queue reaches with one item more: what it reached, and what
/// the item reaches.
pub proof fn lemma_reaches_insert(g: &Graph, q: Seq<DiffItem>, i: int, item: DiffItem)
    requires
        0 <= i <= q.len(),
    ensures
        forall|side_a: bool, x: LV|
            #[trigger] queue_reaches(g, q.insert(i, item), side_a, x) == (queue_reaches(
                g,
                q,
                side_a,
                x,
            ) || item_reaches(g, item, side_a, x)),
{
    let r = q.insert(i, item);
    assert forall|side_a: bool, x: LV| #[trigger]
        queue_reaches(g, r, side_a, x) == (queue_reaches(g, q, side_a, x) || item_reaches(
            g,
            item,
            side_a,
            x,
        )) by {
        if queue_reaches(g, r, side_a, x) {
            let k = choose|k: int|
                0 <= k < r.len() && (if side_a {
                    (#[trigger] r[k]).flag.in_a()
                } else {
                    r[k].flag.in_b()
                }) && g.version_contains(r[k].v, x);
            if k < i {
                assert(q[k] == r[k]);
            } else if k > i {
                assert(q[k - 1] == r[k]);
            }
        }
        if queue_reaches(g, q, side_a, x) {
            let k = choose|k: int|
                0 <= k < q.len() && (if side_a {
                    (#[trigger] q[k]).flag.in_a()
                } else {
                    q[k].flag.in_b()
                }) && g.version_contains(q[k].v, x);
            if k < i {
                assert(r[k] == q[k]);
            } else {
                assert(r[k + 1] == q[k]);
            }
        }
        if item_reaches(g, item, side_a, x) {
            assert(r[i] == item);
        }
    }
}

/// What a queue reaches: what it reaches without its last item, and
/// what that item reaches.
pub proof fn lemma_reaches_drop_last(g: &Graph, q: Seq<DiffItem>)
    requires
        q.len() > 0,
    ensures
        forall|side_a: bool, x: LV|
            #[trigger] queue_reaches(g, q, side_a, x) == (queue_reaches(
                g,
                q.drop_last(),
                side_a,
                x,
            ) || item_reaches(g, q.last(), side_a, x)),
{
    let r = q.drop_last();
    assert forall|side_a: bool, x: LV| #[trigger]
        queue_reaches(g, q, side_a, x) == (queue_reaches(g, r, side_a, x) || item_reaches(
            g,
            q.last(),
            side_a,
            x,
        )) by {
        if queue_reaches(g, q, side_a, x) {
            let k = choose|k: int|
                0 <= k < q.len() && (if side_a {
                    (#[trigger] q[k]).flag.in_a()
                } else {
                    q[k].flag.in_b()
                }) && g.version_contains(q[k].v, x);
            if k < q.len() - 1 {
                assert(r[k] == q[k]);
            }
        }
        if queue_reaches(g, r, side_a, x) {
            let k = choose|k: int|
                0 <= k < r.len() && (if side_a {
                    (#[trigger] r[k]).flag.in_a()
                } else {
                    r[k].flag.in_b()
                }) && g.version_contains(r[k].v, x);
            assert(q[k] == r[k]);
        }
        if item_reaches(g, q.last(), side_a, x) {
            assert(q[q.len() - 1] == q.last());
        }
    }
}

/// Puts every version of `vs` into the queue, with the given flag.
#[verifier::rlimit(50)]
pub(crate) fn push_all(
    g: &Graph,
    queue: &mut MaxQueue<DiffItem>,
    vs: &[LV],
    flag: DiffFlag,
    Ghost(bound): Ghost<int>,
)
    requires
        old(queue).wf(),
        forall|i: int| 0 <= i < old(queue)@.len() ==> (#[trigger] old(queue)@[i]).v < bound,
        forall|k: int| 0 <= k < vs@.len() ==> #[trigger] vs@[k] < bound,
    ensures
        final(queue).wf(),
        final(queue)@.len() == old(queue)@.len() + vs@.len(),
        forall|i: int| 0 <= i < final(queue)@.len() ==> (#[trigger] final(queue)@[i]).v < bound,
        count_shared(final(queue)@) == count_shared(old(queue)@) + if flag == DiffFlag::Shared {
            vs@.len()
        } else {
            0nat
        },
        forall|side_a: bool, x: LV|
            #[trigger] queue_reaches(g, final(queue)@, side_a, x) == (queue_reaches(
                g,
                old(queue)@,
                side_a,
                x,
            ) || ((if side_a {
                flag.in_a()
            } else {
                flag.in_b()
            }) && g.frontier_contains(vs@, x))),
{
    let mut k: usize = 0;
    while k < vs.len()
        invariant
            0 <= k <= vs@.len(),
            queue.wf(),
            queue@.len() == old(queue)@.len() + k,
            forall|k: int| 0 <= k < vs@.len() ==> #[trigger] vs@[k] < bound,
            forall|i: int| 0 <= i < queue@.len() ==> (#[trigger] queue@[i]).v < bound,
            count_shared(queue@) == count_shared(old(queue)@) + if flag == DiffFlag::Shared {
                k as nat
            } else {
                0nat
            },
            forall|side_a: bool, x: LV|
                #[trigger] queue_reaches(g, queue@, side_a, x) == (queue_reaches(
                    g,
                    old(queue)@,
                    side_a,
                    x,
                ) || ((if side_a {
                    flag.in_a()
                } else {
                    flag.in_b()
                }) && g.frontier_contains(vs@.take(k as int), x))),
        decreases vs@.len() - k,
    {
        let ghost q0 = queue@;
        let item = DiffItem { v: vs[k], flag };
        queue.push(item);
        proof {
            let i = choose|i: int| 0 <= i <= q0.len() && queue@ == q0.insert(i, item);
            lemma_count_shared_insert(q0, i, item);
            lemma_reaches_insert(g, q0, i, item);
            assert forall|j: int| 0 <= j < queue@.len() implies (#[trigger] queue@[j]).v
                < bound by {
                if j < i {
                    assert(queue@[j] == q0[j]);
                } else if j > i {
                    assert(queue@[j] == q0[j - 1]);
                }
            }
            let t0 = vs@.take(k as int);
            let t1 = vs@.take(k + 1);
            assert forall|x: LV|
                g.frontier_contains(t1, x) == (g.frontier_contains(t0, x) || g.version_contains(
                    vs@[k as int],
                    x,
                )) by {
                if g.frontier_contains(t1, x) {
                    let j = choose|j: int|
                        0 <= j < t1.len() && #[trigger] g.version_contains(t1[j], x);
                    if j < k {
                        assert(g.version_contains(t0[j], x));
                    }
                }
                if g.frontier_contains(t0, x) {
                    let j = choose|j: int|
                        0 <= j < t0.len() && #[trigger] g.version_contains(t0[j], x);
                    assert(g.version_contains(t1[j], x));
                }
                if g.version_contains(vs@[k as int], x) {
                    assert(g.version_contains(t1[k as int], x));
                }
            }
        }
        k += 1;
    }
    proof {
        assert(vs@.take(vs@.len() as int) =~= vs@);
    }
}

impl Graph {
    /// Whether `x` is in the history of `a` and not in that of `b`.
    pub open spec fn only_in(&self, a: Seq<LV>, b: Seq<LV>, x: LV) -> bool {
        self.frontier_contains(a, x) && !self.frontier_contains(b, x)
    }

    /// From `from` on, the two lists name what is only in `a`'s history and
    /// what is only in `b`'s, and nothing below `from`.
    pub open spec fn marked_from(
        &self,
        a: Seq<LV>,
        b: Seq<LV>,
        only_a: Seq<DTRange>,
        only_b: Seq<DTRange>,
        from: int,
    ) -> bool {
        &&& spans_descending(only_a)
        &&& spans_descending(only_b)
        &&& forall|i: int| 0 <= i < only_a.len() ==> from <= (#[trigger] only_a[i]).start
        &&& forall|i: int| 0 <= i < only_b.len() ==> from <= (#[trigger] only_b[i]).start
        &&& forall|x: LV|
            from <= x ==> #[trigger] spans_contain(only_a, x) == self.only_in(a, b, x)
        &&& forall|x: LV|
            from <= x ==> #[trigger] spans_contain(only_b, x) == self.only_in(b, a, x)
    }

    /// The history of `a` (`side_a`) or of `b`.
    pub open spec fn side_contains(&self, a: Seq<LV>, b: Seq<LV>, side_a: bool, x: LV) -> bool {
        if side_a {
            self.frontier_contains(a, x)
        } else {
            self.frontier_contains(b, x)
        }
    }

    /// Below `below`, the histories of `a` and `b` are those of the items
    /// that wait in `q`.
    pub open spec fn pending_below(
        &self,
        a: Seq<LV>,
        b: Seq<LV>,
        q: Seq<DiffItem>,
        below: int,
    ) -> bool {
        forall|side_a: bool, x: LV|
            x < below ==> #[trigger] queue_reaches(self, q, side_a, x) == self.side_contains(
                a,
                b,
                side_a,
                x,
            )
    }

    /// Up to the version of `cur`, the histories of `a` and `b` are those of
    /// `cur` and of the items that wait in `q`.
    pub open spec fn pending_with(
        &self,
        a: Seq<LV>,
        b: Seq<LV>,
        q: Seq<DiffItem>,
        cur: DiffItem,
    ) -> bool {
        forall|side_a: bool, x: LV|
            x <= cur.v ==> ((#[trigger] queue_reaches(self, q, side_a, x)) || item_reaches(
                self,
                cur,
                side_a,
                x,
            )) == self.side_contains(a, b, side_a, x)
    }

    /// Nothing above the items of a queue is in their history.
    pub proof fn lemma_reaches_bound(&self, q: Seq<DiffItem>, top: int)
        requires
            forall|i: int| 0 <= i < q.len() ==> (#[trigger] q[i]).v <= top,
        ensures
            forall|side_a: bool, x: LV| x > top ==> !#[trigger] queue_reaches(self, q, side_a, x),
    {
        assert forall|side_a: bool, x: LV| x > top implies !#[trigger] queue_reaches(
            self,
            q,
            side_a,
            x,
        ) by {
            if queue_reaches(self, q, side_a, x) {
                let i = choose|i: int|
                    0 <= i < q.len() && (if side_a {
                        (#[trigger] q[i]).flag.in_a()
                    } else {
                        q[i].flag.in_b()
                    }) && self.version_contains(q[i].v, x);
                self.lemma_contains_le(q[i].v, x);
            }
        }
    }

    /// Taking the greatest item out of the queue: up to its version it and
    /// the rest account for the two histories, and above it nothing is left.
    pub proof fn lemma_diff_take(
        &self,
        a: Seq<LV>,
        b: Seq<LV>,
        q0: Seq<DiffItem>,
        bound: int,
    )
        requires
            q0.len() > 0,
            self.pending_below(a, b, q0, bound),
            forall|i: int| 0 <= i < q0.len() ==> (#[trigger] q0[i]).v < bound,
            forall|i: int| 0 <= i < q0.len() ==> (#[trigger] q0[i]).rank() <= q0.last().rank(),
        ensures
            self.pending_with(a, b, q0.drop_last(), q0.last()),
            forall|side_a: bool, x: LV|
                q0.last().v < x < bound ==> !#[trigger] self.side_contains(a, b, side_a, x),
    {
        lemma_reaches_drop_last(self, q0);
        let cur = q0.last();
        assert forall|i: int| 0 <= i < q0.len() implies (#[trigger] q0[i]).v <= cur.v by {
            assert(q0[i].rank() <= cur.rank());
        }
        self.lemma_reaches_bound(q0, cur.v as int);
        assert forall|side_a: bool, x: LV| cur.v < x < bound implies !#[trigger] self.side_contains(
            a,
            b,
            side_a,
            x,
        ) by {
            assert(!queue_reaches(self, q0, side_a, x));
        }
        assert forall|side_a: bool, x: LV| x <= cur.v implies ((#[trigger] queue_reaches(
            self,
            q0.drop_last(),
            side_a,
            x,
        )) || item_reaches(self, cur, side_a, x)) == self.side_contains(a, b, side_a, x) by {
            assert(queue_reaches(self, q0, side_a, x) == self.side_contains(a, b, side_a, x));
        }
    }

    /// Dropping an item of the current run from the queue, its flag joined
    /// to the current one where the versions are the same, or where it is
    /// lower and the current version moves down to it.
    pub proof fn lemma_diff_absorb(
        &self,
        a: Seq<LV>,
        b: Seq<LV>,
        q: Seq<DiffItem>,
        cur: DiffItem,
        next: DiffItem,
    )
        requires
            self.entries_wf(),
            q.len() > 0,
            cur.v < self.spec_len(),
            self.pending_with(a, b, q, cur),
            self.run_start(cur.v) <= q.last().v <= cur.v,
            next.v == q.last().v,
            next.flag == cur.flag.spec_join(q.last().flag),
        ensures
            self.pending_with(a, b, q.drop_last(), next),
    {
        lemma_reaches_drop_last(self, q);
        let p = q.last();
        assert forall|side_a: bool, x: LV| x <= next.v implies ((#[trigger] queue_reaches(
            self,
            q.drop_last(),
            side_a,
            x,
        )) || item_reaches(self, next, side_a, x)) == self.side_contains(a, b, side_a, x) by {
            self.lemma_run_mates(p.v, cur.v, x);
            assert((queue_reaches(self, q, side_a, x) || item_reaches(self, cur, side_a, x))
                == self.side_contains(a, b, side_a, x));
        }
    }

    /// Dropping an item of the current run that carries the current flag.
    pub proof fn lemma_diff_skip(
        &self,
        a: Seq<LV>,
        b: Seq<LV>,
        q: Seq<DiffItem>,
        cur: DiffItem,
    )
        requires
            self.entries_wf(),
            q.len() > 0,
            cur.v < self.spec_len(),
            self.pending_with(a, b, q, cur),
            self.run_start(cur.v) <= q.last().v <= cur.v,
            q.last().flag == cur.flag,
        ensures
            self.pending_with(a, b, q.drop_last(), cur),
    {
        lemma_reaches_drop_last(self, q);
        let p = q.last();
        assert forall|side_a: bool, x: LV| x <= cur.v implies ((#[trigger] queue_reaches(
            self,
            q.drop_last(),
            side_a,
            x,
        )) || item_reaches(self, cur, side_a, x)) == self.side_contains(a, b, side_a, x) by {
            if x <= p.v {
                self.lemma_run_mates(p.v, cur.v, x);
            } else {
                if self.version_contains(p.v, x) {
                    self.lemma_contains_le(p.v, x);
                }
            }
            assert((queue_reaches(self, q, side_a, x) || item_reaches(self, cur, side_a, x))
                == self.side_contains(a, b, side_a, x));
        }
    }

    /// The versions of the current run above what waits in the queue carry
    /// the current flag.
    pub proof fn lemma_diff_classify(
        &self,
        a: Seq<LV>,
        b: Seq<LV>,
        q: Seq<DiffItem>,
        cur: DiffItem,
        low: int,
    )
        requires
            self.entries_wf(),
            cur.v < self.spec_len(),
            self.pending_with(a, b, q, cur),
            self.run_start(cur.v) <= low,
            forall|i: int| 0 <= i < q.len() ==> (#[trigger] q[i]).v < low,
        ensures
            forall|x: LV|
                low <= x <= cur.v ==> (#[trigger] self.frontier_contains(a, x)) == cur.flag.in_a(),
            forall|x: LV|
                low <= x <= cur.v ==> (#[trigger] self.frontier_contains(b, x)) == cur.flag.in_b(),
    {
        self.lemma_reaches_bound(q, low - 1);
        assert forall|x: LV| low <= x <= cur.v implies (#[trigger] self.frontier_contains(a, x))
            == cur.flag.in_a() by {
            self.lemma_run_mates(x, cur.v, x);
            self.lemma_contains_self(x);
            assert(!queue_reaches(self, q, true, x));
            assert(self.side_contains(a, b, true, x) == item_reaches(self, cur, true, x));
        }
        assert forall|x: LV| low <= x <= cur.v implies (#[trigger] self.frontier_contains(b, x))
            == cur.flag.in_b() by {
            self.lemma_run_mates(x, cur.v, x);
            self.lemma_contains_self(x);
            assert(!queue_reaches(self, q, false, x));
            assert(self.side_contains(a, b, false, x) == item_reaches(self, cur, false, x));
        }
    }

    /// The lists are the difference of `a` and `b`, each in descending order.
    pub open spec fn is_diff_rev(&self, a: Seq<LV>, b: Seq<LV>, r: &DiffResult) -> bool {
        &&& spans_descending(r.0@)
        &&& spans_descending(r.1@)
        &&& forall|x: LV| #[trigger] spans_contain(r.0@, x) == self.only_in(a, b, x)
        &&& forall|x: LV| #[trigger] spans_contain(r.1@, x) == self.only_in(b, a, x)
    }

    /// The lists are the difference of `a` and `b`, each in ascending order.
    pub open spec fn is_diff_ascending(&self, a: Seq<LV>, b: Seq<LV>, r: &DiffResult) -> bool {
        &&& spans_ascending(r.0@)
        &&& spans_ascending(r.1@)
        &&& forall|x: LV| #[trigger] spans_contain(r.0@, x) == self.only_in(a, b, x)
        &&& forall|x: LV| #[trigger] spans_contain(r.1@, x) == self.only_in(b, a, x)
    }

    /// Records that the versions from `start` to `last` carry `flag`.
    #[verifier::rlimit(50)]
    fn mark_run(
        &self,
        only_a: &mut RangeList,
        only_b: &mut RangeList,
        start: LV,
        last: LV,
        flag: DiffFlag,
        Ghost(a): Ghost<Seq<LV>>,
        Ghost(b): Ghost<Seq<LV>>,
    )
        requires
            self.marked_from(a, b, old(only_a)@, old(only_b)@, last + 1),
            last < usize::MAX,
            flag != DiffFlag::Shared ==> start <= last,
            start <= last + 1,
            forall|x: LV|
                start <= x <= last ==> (#[trigger] self.frontier_contains(a, x)) == flag.in_a(),
            forall|x: LV|
                start <= x <= last ==> (#[trigger] self.frontier_contains(b, x)) == flag.in_b(),
        ensures
            self.marked_from(a, b, final(only_a)@, final(only_b)@, start as int),
    {
        match flag {
            DiffFlag::OnlyA => {
                let span = DTRange { start, end: last + 1 };
                proof {
                    lemma_push_reversed(only_a@, span);
                    assert forall|x: LV| start <= x <= last implies !(#[trigger] spans_contain(
                        only_b@,
                        x,
                    )) by {
                        if spans_contain(only_b@, x) {
                            let i = choose|i: int|
                                0 <= i < only_b@.len() && (#[trigger] only_b@[i]).start <= x
                                    < only_b@[i].end;
                            assert(last + 1 <= only_b@[i].start);
                        }
                    }
                }
                only_a.push_reversed_rle(span);
            },
            DiffFlag::OnlyB => {
                let span = DTRange { start, end: last + 1 };
                proof {
                    lemma_push_reversed(only_b@, span);
                    assert forall|x: LV| start <= x <= last implies !(#[trigger] spans_contain(
                        only_a@,
                        x,
                    )) by {
                        if spans_contain(only_a@, x) {
                            let i = choose|i: int|
                                0 <= i < only_a@.len() && (#[trigger] only_a@[i]).start <= x
                                    < only_a@[i].end;
                            assert(last + 1 <= only_a@[i].start);
                        }
                    }
                }
                only_b.push_reversed_rle(span);
            },
            DiffFlag::Shared => {
                proof {
                    assert forall|x: LV| start <= x <= last implies !(#[trigger] spans_contain(
                        only_a@,
                        x,
                    )) by {
                        if spans_contain(only_a@, x) {
                            let i = choose|i: int|
                                0 <= i < only_a@.len() && (#[trigger] only_a@[i]).start <= x
                                    < only_a@[i].end;
                            assert(last + 1 <= only_a@[i].start);
                        }
                    }
                    assert forall|x: LV| start <= x <= last implies !(#[trigger] spans_contain(
                        only_b@,
                        x,
                    )) by {
                        if spans_contain(only_b@, x) {
                            let i = choose|i: int|
                                0 <= i < only_b@.len() && (#[trigger] only_b@[i]).start <= x
                                    < only_b@[i].end;
                            assert(last + 1 <= only_b@[i].start);
                        }
                    }
                }
            },
        }
    }

    /// Nothing outside the graph is in a history.
    pub proof fn lemma_side_in_graph(&self, a: Seq<LV>, b: Seq<LV>)
        requires
            self.entries_wf(),
            self.versions_in_graph(a),
            self.versions_in_graph(b),
        ensures
            forall|side_a: bool, x: LV|
                #[trigger] self.side_contains(a, b, side_a, x) ==> x < self.spec_len(),
    {
        assert forall|side_a: bool, x: LV| #[trigger]
            self.side_contains(a, b, side_a, x) implies x < self.spec_len() by {
            let f = if side_a {
                a
            } else {
                b
            };
            let k = choose|k: int| 0 <= k < f.len() && #[trigger] self.version_contains(f[k], x);
            self.lemma_contains_in_graph(f[k], x);
        }
    }

    /// After the parents of the current run have joined the queue, the
    /// queue accounts for both histories below the run.
    pub proof fn lemma_diff_descend(
        &self,
        a: Seq<LV>,
        b: Seq<LV>,
        q: Seq<DiffItem>,
        q_next: Seq<DiffItem>,
        cur: DiffItem,
    )
        requires
            self.entries_wf(),
            cur.v < self.spec_len(),
            self.pending_with(a, b, q, cur),
            forall|side_a: bool, x: LV|
                #[trigger] queue_reaches(self, q_next, side_a, x) == (queue_reaches(
                    self,
                    q,
                    side_a,
                    x,
                ) || ((if side_a {
                    cur.flag.in_a()
                } else {
                    cur.flag.in_b()
                }) && self.frontier_contains(self.run_parents(cur.v), x))),
        ensures
            self.pending_below(a, b, q_next, self.run_start(cur.v) as int),
    {
        self.lemma_entry_of(cur.v);
        assert forall|side_a: bool, x: LV| x < self.run_start(cur.v) implies #[trigger] queue_reaches(
            self,
            q_next,
            side_a,
            x,
        ) == self.side_contains(a, b, side_a, x) by {
            self.lemma_below_parents(cur.v, x);
            assert((queue_reaches(self, q, side_a, x) || item_reaches(self, cur, side_a, x))
                == self.side_contains(a, b, side_a, x));
        }
    }

    /// Drops from the queue the items for the version of `item`, the
    /// greatest item. Returns the join of their flags and that of `item`.
    fn diff_join_same(
        &self,
        a: &[LV],
        b: &[LV],
        queue: &mut MaxQueue<DiffItem>,
        num_shared: &mut usize,
        item: DiffItem,
    ) -> (flag: DiffFlag)
        requires
            self.entries_wf(),
            old(queue).wf(),
            item.v < self.spec_len(),
            forall|i: int|
                0 <= i < old(queue)@.len() ==> (#[trigger] old(queue)@[i]).rank() <= item.rank(),
            self.pending_with(a@, b@, old(queue)@, item),
            *old(num_shared) == count_shared(old(queue)@),
        ensures
            final(queue).wf(),
            forall|i: int| 0 <= i < final(queue)@.len() ==> (#[trigger] final(queue)@[i]).v < item.v,
            self.pending_with(a@, b@, final(queue)@, DiffItem { v: item.v, flag }),
            *final(num_shared) == count_shared(final(queue)@),
    {
        let ord = item.v;
        let mut flag = item.flag;
        loop
            invariant
                self.entries_wf(),
                queue.wf(),
                ord == item.v,
                ord < self.spec_len(),
                forall|i: int| 0 <= i < queue@.len() ==> (#[trigger] queue@[i]).v <= ord,
                self.pending_with(a@, b@, queue@, DiffItem { v: ord, flag }),
                *num_shared == count_shared(queue@),
            ensures
                forall|i: int| 0 <= i < queue@.len() ==> (#[trigger] queue@[i]).v < ord,
            decreases queue@.len(),
        {
            let ghost q1 = queue@;
            match queue.peek() {
                Some(peek) => {
                    if peek.v != ord {
                        proof {
                            assert forall|i: int| 0 <= i < queue@.len() implies (
                            #[trigger] queue@[i]).v < ord by {
                                assert(queue@[i].rank() <= queue@.last().rank());
                            }
                        }
                        break ;
                    }
                    let peek_flag = peek.flag;
                    proof {
                        self.lemma_entry_of(ord);
                        self.lemma_diff_absorb(
                            a@,
                            b@,
                            q1,
                            DiffItem { v: ord, flag },
                            DiffItem { v: ord, flag: flag.spec_join(peek_flag) },
                        );
                        lemma_count_shared_bound(q1.drop_last());
                    }
                    flag = flag.join(peek_flag);
                    if peek_flag == DiffFlag::Shared {
                        *num_shared -= 1;
                    }
                    queue.pop();
                    proof {
                        assert forall|i: int| 0 <= i < queue@.len() implies (
                        #[trigger] queue@[i]).v <= ord by {
                            assert(queue@[i] == q1[i]);
                        }
                    }
                },
                None => {
                    break ;
                },
            }
        }
        flag
    }

    /// Visits the run of `item`, the greatest item of the queue: marks the
    /// versions of the run from `item` down, and queues the run's parents.
    /// Returns the first version of the run.
    #[verifier::rlimit(50)]
    fn diff_visit_run(
        &self,
        a: &[LV],
        b: &[LV],
        queue: &mut MaxQueue<DiffItem>,
        only_a: &mut RangeList,
        only_b: &mut RangeList,
        num_shared: &mut usize,
        item: DiffItem,
    ) -> (start: LV)
        requires
            self.entries_wf(),
            old(queue).wf(),
            item.v < self.spec_len(),
            forall|i: int|
                0 <= i < old(queue)@.len() ==> (#[trigger] old(queue)@[i]).rank() <= item.rank(),
            self.pending_with(a@, b@, old(queue)@, item),
            self.marked_from(a@, b@, old(only_a)@, old(only_b)@, item.v + 1),
            *old(num_shared) == count_shared(old(queue)@),
        ensures
            final(queue).wf(),
            start <= item.v,
            forall|i: int| 0 <= i < final(queue)@.len() ==> (#[trigger] final(queue)@[i]).v < start,
            self.pending_below(a@, b@, final(queue)@, start as int),
            self.marked_from(a@, b@, final(only_a)@, final(only_b)@, start as int),
            *final(num_shared) == count_shared(final(queue)@),
    {
        let top = item.v;
        let mut ord = item.v;
        let mut flag = self.diff_join_same(a, b, queue, num_shared, item);
        let containing_txn = self.entry_for(ord);
        let start = containing_txn.span.start;
        // Items of the same run: mark down to each where the flag changes.
        loop
            invariant
                self.entries_wf(),
                queue.wf(),
                top < self.spec_len(),
                start == self.run_start(top),
                start <= ord <= top,
                forall|i: int| 0 <= i < queue@.len() ==> (#[trigger] queue@[i]).v <= ord,
                forall|i: int|
                    0 <= i < queue@.len() ==> (#[trigger] queue@[i]).v < ord || flag
                        == DiffFlag::Shared,
                self.pending_with(a@, b@, queue@, DiffItem { v: ord, flag }),
                self.marked_from(a@, b@, only_a@, only_b@, ord + 1),
                *num_shared == count_shared(queue@),
            ensures
                forall|i: int| 0 <= i < queue@.len() ==> (#[trigger] queue@[i]).v < start,
            decreases queue@.len(),
        {
            let ghost q1 = queue@;
            match queue.peek() {
                Some(peek) => {
                    if peek.v < start {
                        proof {
                            assert forall|i: int| 0 <= i < queue@.len() implies (
                            #[trigger] queue@[i]).v < start by {
                                assert(queue@[i].rank() <= queue@.last().rank());
                            }
                        }
                        break ;
                    }
                    let peek_ord = peek.v;
                    let peek_flag = peek.flag;
                    proof {
                        self.lemma_run_mates(ord, top, ord);
                        self.lemma_run_mates(peek_ord, ord, peek_ord);
                        lemma_count_shared_bound(q1.drop_last());
                        assert forall|i: int| 0 <= i < q1.len() - 1 implies (
                        #[trigger] q1.drop_last()[i]).v <= peek_ord by {
                            assert(q1[i].rank() <= q1.last().rank());
                        }
                    }
                    if peek_flag != flag {
                        proof {
                            self.lemma_diff_classify(
                                a@,
                                b@,
                                q1,
                                DiffItem { v: ord, flag },
                                peek_ord + 1,
                            );
                            self.lemma_diff_absorb(
                                a@,
                                b@,
                                q1,
                                DiffItem { v: ord, flag },
                                DiffItem { v: peek_ord, flag: DiffFlag::Shared },
                            );
                        }
                        self.mark_run(
                            only_a,
                            only_b,
                            peek_ord + 1,
                            ord,
                            flag,
                            Ghost(a@),
                            Ghost(b@),
                        );
                        ord = peek_ord;
                        flag = DiffFlag::Shared;
                    } else {
                        proof {
                            self.lemma_diff_skip(a@, b@, q1, DiffItem { v: ord, flag });
                        }
                    }
                    if peek_flag == DiffFlag::Shared {
                        *num_shared -= 1;
                    }
                    queue.pop();
                    proof {
                        assert forall|i: int| 0 <= i < queue@.len() implies (
                        #[trigger] queue@[i]).v <= ord by {
                            assert(queue@[i] == q1.drop_last()[i]);
                        }
                    }
                },
                None => {
                    break ;
                },
            }
        }

        // The rest of the run carries the current flag; its parents inherit
        // it.
        proof {
            self.lemma_run_mates(ord, top, ord);
            self.lemma_diff_classify(a@, b@, queue@, DiffItem { v: ord, flag }, start as int);
            self.lemma_entry_of(ord);
        }
        self.mark_run(only_a, only_b, start, ord, flag, Ghost(a@), Ghost(b@));
        let ghost q2 = queue@;
        push_all(self, queue, containing_txn.parents.as_slice(), flag, Ghost(start as int));
        if flag == DiffFlag::Shared {
            let _waiting = queue.len();
            proof {
                lemma_count_shared_bound(queue@);
            }
            *num_shared += containing_txn.parents.len();
        }
        proof {
            self.lemma_diff_descend(a@, b@, q2, queue@, DiffItem { v: ord, flag });
        }
        start
    }

    /// The difference of `a` and `b`, found by walking the graph downwards
    /// from both until only common history is left.
    #[verifier::loop_isolation(false)]
    #[verifier::rlimit(50)]
    pub fn diff_slow_internal(&self, a: &[LV], b: &[LV]) -> (r: DiffResult)
        requires
            self.entries_wf(),
            self.versions_in_graph(a@),
            self.versions_in_graph(b@),
        ensures
            self.is_diff_rev(a@, b@, &r),
    {
        let mut only_a = RangeList::new();
        let mut only_b = RangeList::new();
        let mut queue: MaxQueue<DiffItem> = MaxQueue::new();
        let ghost len = self.spec_len() as int;
        push_all(self, &mut queue, a, DiffFlag::OnlyA, Ghost(len));
        push_all(self, &mut queue, b, DiffFlag::OnlyB, Ghost(len));
        let mut num_shared: usize = 0;
        let ghost mut bound: int = len;
        proof {
            self.lemma_side_in_graph(a@, b@);
            assert forall|side_a: bool, x: LV| x < bound implies #[trigger] queue_reaches(
                self,
                queue@,
                side_a,
                x,
            ) == self.side_contains(a@, b@, side_a, x) by {
                assert(!queue_reaches(self, Seq::<DiffItem>::empty(), side_a, x));
            }
            assert forall|x: LV| bound <= x implies #[trigger] spans_contain(only_a@, x)
                == self.only_in(a@, b@, x) by {
                assert(!self.side_contains(a@, b@, true, x));
            }
            assert forall|x: LV| bound <= x implies #[trigger] spans_contain(only_b@, x)
                == self.only_in(b@, a@, x) by {
                assert(!self.side_contains(a@, b@, false, x));
            }
        }
        loop
            invariant
                queue.wf(),
                0 <= bound <= len,
                forall|i: int| 0 <= i < queue@.len() ==> (#[trigger] queue@[i]).v < bound,
                self.pending_below(a@, b@, queue@, bound),
                self.marked_from(a@, b@, only_a@, only_b@, bound),
                num_shared == count_shared(queue@),
            decreases bound,
        {
            let ghost q0 = queue@;
            let item = match queue.pop() {
                Some(item) => item,
                None => {
                    proof {
                        self.lemma_diff_drained(a@, b@, q0, only_a@, only_b@, bound);
                    }
                    break ;
                },
            };
            proof {
                self.lemma_diff_take(a@, b@, q0, bound);
                lemma_count_shared_bound(queue@);
                self.lemma_marked_lower(a@, b@, only_a@, only_b@, bound, item.v + 1);
                assert forall|i: int| 0 <= i < queue@.len() implies (#[trigger] queue@[i]).rank()
                    <= item.rank() by {
                    assert(queue@[i] == q0[i]);
                }
            }
            if item.flag == DiffFlag::Shared {
                num_shared -= 1;
            }
            let start = self.diff_visit_run(
                a,
                b,
                &mut queue,
                &mut only_a,
                &mut only_b,
                &mut num_shared,
                item,
            );
            proof {
                bound = start as int;
            }
            // Once only shared items wait, nothing more can differ.
            if queue.len() == num_shared {
                proof {
                    self.lemma_diff_all_shared(a@, b@, queue@, only_a@, only_b@, bound);
                }
                break ;
            }
        }
        DiffResult(only_a, only_b)
    }

    /// Where nothing between `low` and `from` is in either history, lists
    /// that are right from `from` on are right from `low` on.
    pub proof fn lemma_marked_lower(
        &self,
        a: Seq<LV>,
        b: Seq<LV>,
        only_a: Seq<DTRange>,
        only_b: Seq<DTRange>,
        from: int,
        low: int,
    )
        requires
            self.marked_from(a, b, only_a, only_b, from),
            low <= from,
            forall|side_a: bool, x: LV|
                low <= x < from ==> !#[trigger] self.side_contains(a, b, side_a, x),
        ensures
            self.marked_from(a, b, only_a, only_b, low),
    {
        assert forall|x: LV| low <= x implies #[trigger] spans_contain(only_a, x) == self.only_in(
            a,
            b,
            x,
        ) by {
            if x < from {
                assert(!self.side_contains(a, b, true, x));
                if spans_contain(only_a, x) {
                    let i = choose|i: int|
                        0 <= i < only_a.len() && (#[trigger] only_a[i]).start <= x < only_a[i].end;
                }
            }
        }
        assert forall|x: LV| low <= x implies #[trigger] spans_contain(only_b, x) == self.only_in(
            b,
            a,
            x,
        ) by {
            if x < from {
                assert(!self.side_contains(a, b, false, x));
                if spans_contain(only_b, x) {
                    let i = choose|i: int|
                        0 <= i < only_b.len() && (#[trigger] only_b[i]).start <= x < only_b[i].end;
                }
            }
        }
    }

    /// With nothing left in the queue, nothing below the bound is in either
    /// history.
    pub proof fn lemma_diff_drained(
        &self,
        a: Seq<LV>,
        b: Seq<LV>,
        q: Seq<DiffItem>,
        only_a: Seq<DTRange>,
        only_b: Seq<DTRange>,
        bound: int,
    )
        requires
            q.len() == 0,
            self.pending_below(a, b, q, bound),
            self.marked_from(a, b, only_a, only_b, bound),
        ensures
            self.marked_from(a, b, only_a, only_b, 0),
    {
        assert forall|x: LV| 0 <= x implies #[trigger] spans_contain(only_a, x) == self.only_in(
            a,
            b,
            x,
        ) by {
            if x < bound {
                assert(!queue_reaches(self, q, true, x));
                assert(!self.side_contains(a, b, true, x));
                if spans_contain(only_a, x) {
                    let i = choose|i: int|
                        0 <= i < only_a.len() && (#[trigger] only_a[i]).start <= x < only_a[i].end;
                }
            }
        }
        assert forall|x: LV| 0 <= x implies #[trigger] spans_contain(only_b, x) == self.only_in(
            b,
            a,
            x,
        ) by {
            if x < bound {
                assert(!queue_reaches(self, q, false, x));
                assert(!self.side_contains(a, b, false, x));
                if spans_contain(only_b, x) {
                    let i = choose|i: int|
                        0 <= i < only_b.len() && (#[trigger] only_b[i]).start <= x < only_b[i].end;
                }
            }
        }
    }

    /// With only shared items in the queue, the two histories agree below
    /// the bound.
    pub proof fn lemma_diff_all_shared(
        &self,
        a: Seq<LV>,
        b: Seq<LV>,
        q: Seq<DiffItem>,
        only_a: Seq<DTRange>,
        only_b: Seq<DTRange>,
        bound: int,
    )
        requires
            count_shared(q) == q.len(),
            self.pending_below(a, b, q, bound),
            self.marked_from(a, b, only_a, only_b, bound),
        ensures
            self.marked_from(a, b, only_a, only_b, 0),
    {
        lemma_count_shared_bound(q);
        assert forall|x: LV| x < bound implies self.frontier_contains(a, x)
            == self.frontier_contains(b, x) by {
            assert(queue_reaches(self, q, true, x) == self.side_contains(a, b, true, x));
            assert(queue_reaches(self, q, false, x) == self.side_contains(a, b, false, x));
            if queue_reaches(self, q, true, x) {
                let i = choose|i: int|
                    0 <= i < q.len() && (#[trigger] q[i]).flag.in_a() && self.version_contains(
                        q[i].v,
                        x,
                    );
                assert(q[i].flag.in_b());
            }
            if queue_reaches(self, q, false, x) {
                let i = choose|i: int|
                    0 <= i < q.len() && (#[trigger] q[i]).flag.in_b() && self.version_contains(
                        q[i].v,
                        x,
                    );
                assert(q[i].flag.in_a());
            }
        }
        assert forall|x: LV| 0 <= x implies #[trigger] spans_contain(only_a, x) == self.only_in(
            a,
            b,
            x,
        ) by {
            if x < bound {
                if spans_contain(only_a, x) {
                    let i = choose|i: int|
                        0 <= i < only_a.len() && (#[trigger] only_a[i]).start <= x < only_a[i].end;
                }
            }
        }
        assert forall|x: LV| 0 <= x implies #[trigger] spans_contain(only_b, x) == self.only_in(
            b,
            a,
            x,
        ) by {
            if x < bound {
                if spans_contain(only_b, x) {
                    let i = choose|i: int|
                        0 <= i < only_b.len() && (#[trigger] only_b[i]).start <= x < only_b[i].end;
                }
            }
        }
    }

    /// Where `b` is an earlier version of the run of `a`, the history of `a`
    /// is that of `b` and the versions above `b` up to `a`.
    pub proof fn lemma_diff_in_run(&self, a: LV, b: LV, x: LV)
        requires
            self.entries_wf(),
            a < self.spec_len(),
            self.run_start(a) <= b <= a,
        ensures
            self.version_contains(a, x) == (self.version_contains(b, x) || b < x <= a),
    {
        self.lemma_entry_of(a);
        if x <= b {
            self.lemma_run_mates(b, a, x);
        } else if x <= a {
            self.lemma_run_mates(x, a, x);
            self.lemma_contains_self(x);
            if self.version_contains(b, x) {
                self.lemma_contains_le(b, x);
            }
        } else {
            if self.version_contains(a, x) {
                self.lemma_contains_le(a, x);
            }
            if self.version_contains(b, x) {
                self.lemma_contains_le(b, x);
            }
        }
    }

    /// The difference of `a` and `b`: the ranges of versions only in the
    /// history of `a`, and those only in the history of `b`, each list in
    /// descending order.
    pub fn diff_slow(&self, a: &[LV], b: &[LV]) -> (r: DiffResult)
        requires
            self.entries_wf(),
            self.versions_in_graph(a@),
            self.versions_in_graph(b@),
        ensures
            self.is_diff_rev(a@, b@, &r),
    {
        self.diff_slow_internal(a, b)
    }

    /// The difference of `a` and `b`, each list in descending order. Equal
    /// frontiers, and two versions of one run, are answered at once.
    #[verifier::rlimit(50)]
    pub fn diff_rev(&self, a: &[LV], b: &[LV]) -> (r: DiffResult)
        requires
            self.entries_wf(),
            self.versions_in_graph(a@),
            self.versions_in_graph(b@),
        ensures
            self.is_diff_rev(a@, b@, &r),
            a@ == b@ ==> r.0@.len() == 0 && r.1@.len() == 0,
    {
        if slice_eq(a, b) {
            let r = DiffResult(RangeList::new(), RangeList::new());
            return r;
        }
        if a.len() == 1 && b.len() == 1 {
            let a0 = a[0];
            let b0 = b[0];
            let _total = self.len();
            if a0 == b0 {
                assert(a@ =~= b@);
                return DiffResult(RangeList::new(), RangeList::new());
            }
            if self.is_direct_descendant_coarse(a0, b0) {
                let mut only_a = RangeList::new();
                let span = DTRange { start: b0 + 1, end: a0 + 1 };
                only_a.push(span);
                let r = DiffResult(only_a, RangeList::new());
                proof {
                    assert(r.0@[0] == span);
                    assert forall|x: LV| #[trigger] spans_contain(r.0@, x) == self.only_in(
                        a@,
                        b@,
                        x,
                    ) by {
                        self.lemma_frontier_of_one(a@, x);
                        self.lemma_frontier_of_one(b@, x);
                        self.lemma_diff_in_run(a0, b0, x);
                        if b0 < x <= a0 {
                            assert(r.0@[0].start <= x < r.0@[0].end);
                            if self.version_contains(b0, x) {
                                self.lemma_contains_le(b0, x);
                            }
                        }
                    }
                    assert forall|x: LV| #[trigger] spans_contain(r.1@, x) == self.only_in(
                        b@,
                        a@,
                        x,
                    ) by {
                        self.lemma_frontier_of_one(a@, x);
                        self.lemma_frontier_of_one(b@, x);
                        self.lemma_diff_in_run(a0, b0, x);
                    }
                }
                return r;
            }
            if self.is_direct_descendant_coarse(b0, a0) {
                let mut only_b = RangeList::new();
                let span = DTRange { start: a0 + 1, end: b0 + 1 };
                only_b.push(span);
                let r = DiffResult(RangeList::new(), only_b);
                proof {
                    assert(r.1@[0] == span);
                    assert forall|x: LV| #[trigger] spans_contain(r.1@, x) == self.only_in(
                        b@,
                        a@,
                        x,
                    ) by {
                        self.lemma_frontier_of_one(a@, x);
                        self.lemma_frontier_of_one(b@, x);
                        self.lemma_diff_in_run(b0, a0, x);
                        if a0 < x <= b0 {
                            assert(r.1@[0].start <= x < r.1@[0].end);
                            if self.version_contains(a0, x) {
                                self.lemma_contains_le(a0, x);
                            }
                        }
                    }
                    assert forall|x: LV| #[trigger] spans_contain(r.0@, x) == self.only_in(
                        a@,
                        b@,
                        x,
                    ) by {
                        self.lemma_frontier_of_one(a@, x);
                        self.lemma_frontier_of_one(b@, x);
                        self.lemma_diff_in_run(b0, a0, x);
                    }
                }
                return r;
            }
        }
        self.diff_slow(a, b)
    }

    /// The difference of `a` and `b`: the ranges of versions only in the
    /// history of `a`, and those only in the history of `b`, each list in
    /// descending order, the highest versions first.
    pub fn diff(&self, a: &[LV], b: &[LV]) -> (r: DiffResult)
        requires
            self.entries_wf(),
            self.versions_in_graph(a@),
            self.versions_in_graph(b@),
        ensures
            self.is_diff_rev(a@, b@, &r),
            a@ == b@ ==> r.0@.len() == 0 && r.1@.len() == 0,
    {
        self.diff_rev(a, b)
    }

    /// The difference of `a` and `b` with each list in ascending order:
    /// what `diff` gives, turned round.
    pub fn diff_ascending(&self, a: &[LV], b: &[LV]) -> (r: DiffResult)
        requires
            self.entries_wf(),
            self.versions_in_graph(a@),
            self.versions_in_graph(b@),
        ensures
            self.is_diff_ascending(a@, b@, &r),
            a@ == b@ ==> r.0@.len() == 0 && r.1@.len() == 0,
    {
        let mut result = self.diff_rev(a, b);
        proof {
            lemma_reverse_spans(result.0@);
            lemma_reverse_spans(result.1@);
        }
        result.0.reverse();
        result.1.reverse();
        result
    }
}

} // verus!
