//! The conflict zone of two frontiers: what lies above a point of history
//! that both share, with the side that each range belongs to.

use crate::causalgraph::diff::DiffFlag;
use crate::causalgraph::graph::Graph;
use crate::causalgraph::queue::{MaxQueue, Ranked};
use crate::dtrange::DTRange;
use crate::frontier::{is_sorted_strict, slice_eq, Frontier, LV};
use crate::range_list::RangeList;
use crate::rle::SplitableSpan;
use vstd::prelude::*;

verus! {

/// A point in time that waits to be visited: a frontier, kept as its last
/// version and the versions merged with it. The root is the point whose
/// last version is `usize::MAX`.
pub struct TimePoint {
    pub last: LV,
    pub merged_with: Frontier,
    pub flag: DiffFlag,
}

impl TimePoint {
    /// The versions of the point; none for the root.
    pub open spec fn versions(&self) -> Seq<LV> {
        if self.last == usize::MAX {
            Seq::<LV>::empty()
        } else {
            self.merged_with@.push(self.last)
        }
    }

    /// The point is the root, or a frontier of the graph in order.
    pub open spec fn point_wf(&self, g: &Graph) -> bool {
        if self.last == usize::MAX {
            self.merged_with@.len() == 0
        } else {
            &&& self.last < g.spec_len()
            &&& self.merged_with@.len() <= usize::MAX
            &&& is_sorted_strict(self.merged_with@)
            &&& forall|k: int|
                0 <= k < self.merged_with@.len() ==> #[trigger] self.merged_with@[k] < self.last
        }
    }

    /// Order key of the last version: the root comes first.
    pub open spec fn last_key(&self) -> int {
        if self.last == usize::MAX {
            0
        } else {
            self.last + 1
        }
    }

    /// Whether `x` is in the history of the point.
    pub open spec fn reaches(&self, g: &Graph, x: LV) -> bool {
        g.frontier_contains(self.versions(), x)
    }

    /// Whether the point counts for the first history (`side_a`) or the
    /// second.
    pub open spec fn on_side(&self, side_a: bool) -> bool {
        self.flag.on_side(side_a)
    }

    /// The point of a frontier in ascending order.
    pub(crate) fn from_versions(version: &[LV], flag: DiffFlag, Ghost(g): Ghost<&Graph>) -> (r:
        TimePoint)
        requires
            g.valid_frontier(version@),
            g.shape_wf(),
        ensures
            r.point_wf(g),
            r.flag == flag,
            r.versions() == version@,
            version@.len() == 0 <==> r.last == usize::MAX,
    {
        let n = version.len();
        if n == 0 {
            let r = TimePoint { last: usize::MAX, merged_with: Frontier::root(), flag };
            assert(r.versions() =~= version@);
            r
        } else {
            let last = version[n - 1];
            let mut merged = Frontier::root();
            let mut i: usize = 0;
            while i < n - 1
                invariant
                    0 <= i <= n - 1,
                    n == version@.len(),
                    merged@ == version@.take(i as int),
                decreases n - 1 - i,
            {
                merged.push(version[i]);
                assert(version@.take(i + 1) =~= version@.take(i as int).push(version@[i as int]));
                i += 1;
            }
            let _merged_len = merged.len();
            let r = TimePoint { last, merged_with: merged, flag };
            proof {
                assert(version@[n - 1] < g.spec_len());
                assert(r.versions() =~= version@);
                assert forall|k: int| 0 <= k < r.merged_with@.len() implies #[trigger] r.merged_with@[k]
                    < r.last by {
                    assert(version@[k] < version@[n - 1]);
                }
            }
            r
        }
    }

    /// The point of one version.
    pub fn single(v: LV, flag: DiffFlag) -> (r: TimePoint)
        requires
            v != usize::MAX,
        ensures
            r.last == v,
            r.merged_with@.len() == 0,
            r.flag == flag,
            r.versions() == seq![v],
            forall|g: &Graph| v < g.spec_len() ==> r.point_wf(g),
    {
        let r = TimePoint { last: v, merged_with: Frontier::root(), flag };
        assert(r.versions() =~= seq![v]);
        r
    }

    /// Whether both points are the same frontier.
    pub fn same_point(&self, other: &TimePoint) -> (b: bool)
        ensures
            b == (self.last == other.last && self.merged_with@ == other.merged_with@),
    {
        self.last == other.last && self.merged_with.eq_slice(other.merged_with.as_slice())
    }
}

impl Ranked for TimePoint {
    /// Points are ordered by their last version, the root first; among
    /// points with the same last version those with fewer merged versions
    /// come later; then by flag.
    open spec fn rank(&self) -> int {
        (self.last_key() * 0x1_0000_0000_0000_0000 + (0xffff_ffff_ffff_ffff
            - self.merged_with@.len())) * 3 + self.flag.spec_index()
    }

    fn rank_le(&self, other: &TimePoint) -> (b: bool) {
        let n1 = self.merged_with.len();
        let n2 = other.merged_with.len();
        let f1 = self.flag.index();
        let f2 = other.flag.index();
        if self.last != other.last {
            // The root sorts below every version.
            self.last == usize::MAX || (other.last != usize::MAX && self.last < other.last)
        } else if n1 != n2 {
            n1 > n2
        } else {
            f1 <= f2
        }
    }
}

/// Whether a point of `q` that counts for the given side has `x` in its
/// history.
pub open spec fn points_reach(g: &Graph, q: Seq<TimePoint>, side_a: bool, x: LV) -> bool {
    exists|i: int| 0 <= i < q.len() && (#[trigger] q[i]).on_side(side_a) && q[i].reaches(g, x)
}

/// Whether a point of `q` counts for the given side.
pub open spec fn has_side(q: Seq<TimePoint>, side_a: bool) -> bool {
    exists|k: int| 0 <= k < q.len() && (#[trigger] q[k]).on_side(side_a)
}

/// What a queue reaches with one point more: what it reached, and what
/// the point reaches.
pub proof fn lemma_points_insert(g: &Graph, q: Seq<TimePoint>, i: int, item: TimePoint)
    requires
        0 <= i <= q.len(),
    ensures
        forall|side_a: bool, x: LV|
            #[trigger] points_reach(g, q.insert(i, item), side_a, x) == (points_reach(
                g,
                q,
                side_a,
                x,
            ) || (item.on_side(side_a) && item.reaches(g, x))),
        has_side(q.insert(i, item), true) == (has_side(q, true) || item.on_side(true)),
        has_side(q.insert(i, item), false) == (has_side(q, false) || item.on_side(false)),
        forall|k: int|
            0 <= k < q.insert(i, item).len() ==> #[trigger] q.insert(i, item)[k] == item
                || q.contains(q.insert(i, item)[k]),
{
    let r = q.insert(i, item);
    assert forall|side_a: bool, x: LV| #[trigger]
        points_reach(g, r, side_a, x) == (points_reach(g, q, side_a, x) || (item.on_side(side_a)
            && item.reaches(g, x))) by {
        if points_reach(g, r, side_a, x) {
            let k = choose|k: int|
                0 <= k < r.len() && (#[trigger] r[k]).on_side(side_a) && r[k].reaches(g, x);
            if k < i {
                assert(q[k] == r[k]);
            } else if k > i {
                assert(q[k - 1] == r[k]);
            }
        }
        if points_reach(g, q, side_a, x) {
            let k = choose|k: int|
                0 <= k < q.len() && (#[trigger] q[k]).on_side(side_a) && q[k].reaches(g, x);
            if k < i {
                assert(r[k] == q[k]);
            } else {
                assert(r[k + 1] == q[k]);
            }
        }
        if item.on_side(side_a) && item.reaches(g, x) {
            assert(r[i] == item);
        }
    }
    assert forall|side_a: bool| has_side(r, side_a) == (has_side(q, side_a) || item.on_side(
        side_a,
    )) by {
        if has_side(r, side_a) {
            let k = choose|k: int| 0 <= k < r.len() && (#[trigger] r[k]).on_side(side_a);
            if k < i {
                assert(q[k] == r[k]);
            } else if k > i {
                assert(q[k - 1] == r[k]);
            }
        }
        if has_side(q, side_a) {
            let k = choose|k: int| 0 <= k < q.len() && (#[trigger] q[k]).on_side(side_a);
            if k < i {
                assert(r[k] == q[k]);
            } else {
                assert(r[k + 1] == q[k]);
            }
        }
        if item.on_side(side_a) {
            assert(r[i] == item);
        }
    }
    assert forall|k: int| 0 <= k < r.len() implies #[trigger] r[k] == item || q.contains(r[k]) by {
        if k < i {
            assert(q[k] == r[k]);
        } else if k > i {
            assert(q[k - 1] == r[k]);
        }
    }
}

/// What a queue reaches: what it reaches without its last point, and
/// what that point reaches.
pub proof fn lemma_points_drop_last(g: &Graph, q: Seq<TimePoint>)
    requires
        q.len() > 0,
    ensures
        forall|side_a: bool, x: LV|
            #[trigger] points_reach(g, q, side_a, x) == (points_reach(
                g,
                q.drop_last(),
                side_a,
                x,
            ) || (q.last().on_side(side_a) && q.last().reaches(g, x))),
        has_side(q, true) == (has_side(q.drop_last(), true) || q.last().on_side(true)),
        has_side(q, false) == (has_side(q.drop_last(), false) || q.last().on_side(false)),
{
    let r = q.drop_last();
    assert forall|side_a: bool, x: LV| #[trigger]
        points_reach(g, q, side_a, x) == (points_reach(g, r, side_a, x) || (q.last().on_side(
            side_a,
        ) && q.last().reaches(g, x))) by {
        if points_reach(g, q, side_a, x) {
            let k = choose|k: int|
                0 <= k < q.len() && (#[trigger] q[k]).on_side(side_a) && q[k].reaches(g, x);
            if k < q.len() - 1 {
                assert(r[k] == q[k]);
            }
        }
        if points_reach(g, r, side_a, x) {
            let k = choose|k: int|
                0 <= k < r.len() && (#[trigger] r[k]).on_side(side_a) && r[k].reaches(g, x);
            assert(q[k] == r[k]);
        }
        if q.last().on_side(side_a) && q.last().reaches(g, x) {
            assert(q[q.len() - 1] == q.last());
        }
    }
    assert forall|side_a: bool| has_side(q, side_a) == (has_side(r, side_a) || q.last().on_side(
        side_a,
    )) by {
        if has_side(q, side_a) {
            let k = choose|k: int| 0 <= k < q.len() && (#[trigger] q[k]).on_side(side_a);
            if k < q.len() - 1 {
                assert(r[k] == q[k]);
            }
        }
        if has_side(r, side_a) {
            let k = choose|k: int| 0 <= k < r.len() && (#[trigger] r[k]).on_side(side_a);
            assert(q[k] == r[k]);
        }
        if q.last().on_side(side_a) {
            assert(q[q.len() - 1] == q.last());
        }
    }
}

/// Number of versions that wait in the queue, the root counted as one.
pub open spec fn queue_mass(q: Seq<TimePoint>) -> nat
    decreases q.len(),
{
    if q.len() == 0 {
        0
    } else {
        queue_mass(q.drop_last()) + 1 + q.last().merged_with@.len()
    }
}

/// A point more adds to the mass of a queue one and the number of
/// versions that are merged with it.
pub proof fn lemma_mass_insert(q: Seq<TimePoint>, i: int, item: TimePoint)
    requires
        0 <= i <= q.len(),
    ensures
        queue_mass(q.insert(i, item)) == queue_mass(q) + 1 + item.merged_with@.len(),
    decreases q.len() - i,
{
    let r = q.insert(i, item);
    if i == q.len() {
        assert(r.drop_last() =~= q);
    } else {
        assert(r.drop_last() =~= q.drop_last().insert(i, item));
        assert(r.last() == q.last());
        lemma_mass_insert(q.drop_last(), i, item);
    }
}

/// A range of versions with the side that it belongs to.
pub type FlaggedSpan = (DTRange, DiffFlag);

/// No range is empty, and each lies wholly below the one before it.
pub open spec fn flagged_descending(spans: Seq<FlaggedSpan>) -> bool {
    &&& forall|i: int| 0 <= i < spans.len() ==> (#[trigger] spans[i]).0.start < spans[i].0.end
    &&& forall|i: int, j: int|
        0 <= i < j < spans.len() ==> (#[trigger] spans[j]).0.end <= (#[trigger] spans[i]).0.start
}

/// Whether one of the ranges holds `x`.
pub open spec fn flagged_contain(spans: Seq<FlaggedSpan>, x: LV) -> bool {
    exists|i: int| 0 <= i < spans.len() && (#[trigger] spans[i]).0.start <= x < spans[i].0.end
}

/// What `find_conflicting` returns: a frontier that both histories hold,
/// and the ranges above it in descending order.
pub struct ConflictSpans {
    pub common_ancestor: Frontier,
    pub spans: Vec<FlaggedSpan>,
}

/// The conflict zone without the flags, its ranges merged where they touch.
pub struct ConflictZone {
    pub common_ancestor: Frontier,
    pub rev_spans: RangeList,
}

impl Graph {
    /// From `from` on, the ranges name what is in either history, each with
    /// the side it belongs to, and nothing below `from`.
    pub open spec fn zone_marked(
        &self,
        a: Seq<LV>,
        b: Seq<LV>,
        spans: Seq<FlaggedSpan>,
        from: int,
    ) -> bool {
        &&& flagged_descending(spans)
        &&& forall|i: int| 0 <= i < spans.len() ==> from <= (#[trigger] spans[i]).0.start
        &&& forall|i: int, x: LV|
            0 <= i < spans.len() && (#[trigger] spans[i]).0.start <= x < spans[i].0.end ==> (
            #[trigger] self.frontier_contains(a, x)) == spans[i].1.in_a()
        &&& forall|i: int, x: LV|
            0 <= i < spans.len() && (#[trigger] spans[i]).0.start <= x < spans[i].0.end ==> (
            #[trigger] self.frontier_contains(b, x)) == spans[i].1.in_b()
        &&& forall|side_a: bool, x: LV|
            from <= x && #[trigger] self.side_contains(a, b, side_a, x) ==> flagged_contain(
                spans,
                x,
            )
    }

    /// The points of `q` are points of the graph, none above `top`.
    pub open spec fn points_wf(&self, q: Seq<TimePoint>, top: int) -> bool {
        forall|i: int| 0 <= i < q.len() ==> (#[trigger] q[i]).point_wf(self) && q[i].last_key() <= top
    }

    /// State of the walk between two runs.
    pub open spec fn zone_state(
        &self,
        a: Seq<LV>,
        b: Seq<LV>,
        q: Seq<TimePoint>,
        spans: Seq<FlaggedSpan>,
        bound: int,
    ) -> bool {
        &&& self.points_wf(q, bound)
        &&& has_side(q, true)
        &&& has_side(q, false)
        &&& forall|side_a: bool, x: LV|
            x < bound ==> #[trigger] points_reach(self, q, side_a, x) == self.side_contains(
                a,
                b,
                side_a,
                x,
            )
        &&& self.zone_marked(a, b, spans, bound)
    }

    /// State with a point taken from the queue: `tv` are its versions, and
    /// `flag` joins the flags of the points that were the same.
    pub open spec fn zone_taken(
        &self,
        a: Seq<LV>,
        b: Seq<LV>,
        q: Seq<TimePoint>,
        spans: Seq<FlaggedSpan>,
        tv: Seq<LV>,
        flag: DiffFlag,
        bound: int,
    ) -> bool {
        &&& self.points_wf(q, bound)
        &&& flag.in_a() || has_side(q, true)
        &&& flag.in_b() || has_side(q, false)
        &&& forall|side_a: bool, x: LV|
            x < bound ==> ((#[trigger] points_reach(self, q, side_a, x)) || (flag.on_side(side_a) && self.frontier_contains(tv, x))) == self.side_contains(a, b, side_a, x)
        &&& self.zone_marked(a, b, spans, bound)
    }

    /// State of the walk within the run of `cur`, which carries `flag`.
    pub open spec fn zone_walking(
        &self,
        a: Seq<LV>,
        b: Seq<LV>,
        q: Seq<TimePoint>,
        spans: Seq<FlaggedSpan>,
        cur: LV,
        flag: DiffFlag,
    ) -> bool {
        &&& cur < self.spec_len()
        &&& self.zone_taken(a, b, q, spans, seq![cur], flag, cur + 1)
    }

    /// The result of `find_conflicting`: `common` is in both histories, the
    /// ranges hold what is in either history and not in that of `common`,
    /// each range with its side.
    pub open spec fn is_conflict_zone(
        &self,
        a: Seq<LV>,
        b: Seq<LV>,
        common: Seq<LV>,
        spans: Seq<FlaggedSpan>,
    ) -> bool {
        &&& self.valid_frontier(common)
        &&& flagged_descending(spans)
        &&& forall|i: int, x: LV|
            0 <= i < spans.len() && (#[trigger] spans[i]).0.start <= x < spans[i].0.end ==> (
            #[trigger] self.frontier_contains(a, x)) == spans[i].1.in_a()
        &&& forall|i: int, x: LV|
            0 <= i < spans.len() && (#[trigger] spans[i]).0.start <= x < spans[i].0.end ==> (
            #[trigger] self.frontier_contains(b, x)) == spans[i].1.in_b()
        &&& forall|side_a: bool, x: LV| #[trigger]
            self.side_contains(a, b, side_a, x) ==> flagged_contain(spans, x)
                || self.frontier_contains(common, x)
        &&& forall|x: LV| #[trigger]
            self.frontier_contains(common, x) ==> self.frontier_contains(a, x)
                && self.frontier_contains(b, x) && !flagged_contain(spans, x)
    }

    /// No point of the queue has in its history what lies at or above `top`.
    pub proof fn lemma_points_bound(&self, q: Seq<TimePoint>, top: int)
        requires
            self.points_wf(q, top),
        ensures
            forall|side_a: bool, x: LV| x >= top ==> !#[trigger] points_reach(self, q, side_a, x),
    {
        assert forall|side_a: bool, x: LV| x >= top implies !#[trigger] points_reach(
            self,
            q,
            side_a,
            x,
        ) by {
            if points_reach(self, q, side_a, x) {
                let i = choose|i: int|
                    0 <= i < q.len() && (#[trigger] q[i]).on_side(side_a) && q[i].reaches(self, x);
                self.lemma_point_bound(q[i], x);
            }
        }
    }

    /// What a point has in its history is not above its last version.
    pub proof fn lemma_point_bound(&self, p: TimePoint, x: LV)
        requires
            p.point_wf(self),
            p.reaches(self, x),
        ensures
            p.last != usize::MAX,
            x <= p.last,
    {
        let vs = p.versions();
        let k = choose|k: int| 0 <= k < vs.len() && #[trigger] self.version_contains(vs[k], x);
        self.lemma_contains_le(vs[k], x);
        if k < p.merged_with@.len() {
            assert(vs[k] == p.merged_with@[k]);
        }
    }

    /// The history of a point is that of its last version and of the
    /// versions merged with it.
    pub proof fn lemma_point_parts(&self, p: TimePoint, x: LV)
        requires
            p.last != usize::MAX,
        ensures
            p.reaches(self, x) == (self.version_contains(p.last, x) || self.frontier_contains(
                p.merged_with@,
                x,
            )),
    {
        let vs = p.versions();
        let mw = p.merged_with@;
        if p.reaches(self, x) {
            let k = choose|k: int| 0 <= k < vs.len() && #[trigger] self.version_contains(vs[k], x);
            if k < mw.len() {
                assert(self.version_contains(mw[k], x));
            }
        }
        if self.version_contains(p.last, x) {
            assert(self.version_contains(vs[mw.len() as int], x));
        }
        if self.frontier_contains(mw, x) {
            let k = choose|k: int| 0 <= k < mw.len() && #[trigger] self.version_contains(mw[k], x);
            assert(self.version_contains(vs[k], x));
        }
    }

    /// With the root as the greatest point of the queue, nothing is left
    /// below the bound: the common ancestor is the root.
    pub proof fn lemma_zone_root(
        &self,
        a: Seq<LV>,
        b: Seq<LV>,
        q: Seq<TimePoint>,
        spans: Seq<FlaggedSpan>,
        bound: int,
    )
        requires
            self.entries_wf(),
            self.versions_in_graph(a),
            self.versions_in_graph(b),
            q.len() > 0,
            self.zone_state(a, b, q, spans, bound),
            bound <= self.spec_len(),
            forall|i: int| 0 <= i < q.len() ==> (#[trigger] q[i]).rank() <= q.last().rank(),
            q.last().last == usize::MAX,
        ensures
            self.is_conflict_zone(a, b, Seq::<LV>::empty(), spans),
    {
        let common = Seq::<LV>::empty();
        assert forall|i: int| 0 <= i < q.len() implies (#[trigger] q[i]).last == usize::MAX by {
            assert(q[i].rank() <= q.last().rank());
        }
        self.lemma_points_bound(q, 0);
        assert forall|side_a: bool, x: LV| #[trigger]
            self.side_contains(a, b, side_a, x) implies flagged_contain(spans, x)
            || self.frontier_contains(common, x) by {
            if x < bound {
                assert(!points_reach(self, q, side_a, x));
            }
        }
    }

    /// With nothing else in the queue, the point taken is the common
    /// ancestor.
    pub proof fn lemma_zone_collapse(
        &self,
        a: Seq<LV>,
        b: Seq<LV>,
        spans: Seq<FlaggedSpan>,
        tv: Seq<LV>,
        flag: DiffFlag,
        bound: int,
    )
        requires
            self.entries_wf(),
            self.zone_taken(a, b, Seq::<TimePoint>::empty(), spans, tv, flag, bound),
            self.valid_frontier(tv),
            forall|k: int| 0 <= k < tv.len() ==> #[trigger] tv[k] < bound,
        ensures
            self.is_conflict_zone(a, b, tv, spans),
    {
        let q = Seq::<TimePoint>::empty();
        assert(flag.in_a()) by {
            if !flag.in_a() {
                let k = choose|k: int| 0 <= k < q.len() && (#[trigger] q[k]).on_side(true);
            }
        }
        assert(flag.in_b()) by {
            if !flag.in_b() {
                let k = choose|k: int| 0 <= k < q.len() && (#[trigger] q[k]).on_side(false);
            }
        }
        assert forall|x: LV| #[trigger] self.frontier_contains(tv, x) implies x < bound by {
            let k = choose|k: int| 0 <= k < tv.len() && #[trigger] self.version_contains(tv[k], x);
            self.lemma_contains_le(tv[k], x);
        }
        assert forall|side_a: bool, x: LV| #[trigger]
            self.side_contains(a, b, side_a, x) implies flagged_contain(spans, x)
            || self.frontier_contains(tv, x) by {
            if x < bound {
                assert(!points_reach(self, q, side_a, x));
            }
        }
        assert forall|x: LV| #[trigger] self.frontier_contains(tv, x) implies self.frontier_contains(
            a,
            x,
        ) && self.frontier_contains(b, x) && !flagged_contain(spans, x) by {
            assert(!points_reach(self, q, true, x));
            assert(!points_reach(self, q, false, x));
            assert(self.side_contains(a, b, true, x));
            assert(self.side_contains(a, b, false, x));
            if flagged_contain(spans, x) {
                let i = choose|i: int|
                    0 <= i < spans.len() && (#[trigger] spans[i]).0.start <= x < spans[i].0.end;
            }
        }
    }

    /// Adds to the list the range from `low` up to the current version,
    /// which nothing in the queue reaches.
    pub proof fn lemma_zone_emit(
        &self,
        a: Seq<LV>,
        b: Seq<LV>,
        q: Seq<TimePoint>,
        spans: Seq<FlaggedSpan>,
        cur: LV,
        flag: DiffFlag,
        low: LV,
    )
        requires
            self.entries_wf(),
            self.zone_walking(a, b, q, spans, cur, flag),
            self.run_start(cur) <= low <= cur,
            self.points_wf(q, low as int),
        ensures
            self.zone_marked(
                a,
                b,
                spans.push((DTRange { start: low, end: (cur + 1) as usize }, flag)),
                low as int,
            ),
    {
        let span = (DTRange { start: low, end: (cur + 1) as usize }, flag);
        let out = spans.push(span);
        self.lemma_points_bound(q, low as int);
        assert forall|x: LV| low <= x <= cur implies self.frontier_contains(a, x) == flag.in_a()
            && self.frontier_contains(b, x) == flag.in_b() by {
            self.lemma_run_mates(x, cur, x);
            self.lemma_contains_self(x);
            assert(self.version_contains(seq![cur][0], x));
            assert(self.frontier_contains(seq![cur], x));
            assert(!points_reach(self, q, true, x));
            assert(!points_reach(self, q, false, x));
            assert(self.side_contains(a, b, true, x) == flag.in_a());
            assert(self.side_contains(a, b, false, x) == flag.in_b());
        }
        assert forall|i: int, j: int| 0 <= i < j < out.len() implies (#[trigger] out[j]).0.end <= (
        #[trigger] out[i]).0.start by {
            if j < spans.len() {
                assert(spans[j].0.end <= spans[i].0.start);
            } else {
                assert(cur + 1 <= spans[i].0.start);
            }
        }
        assert forall|side_a: bool, x: LV|
            low <= x && #[trigger] self.side_contains(a, b, side_a, x) implies flagged_contain(
            out,
            x,
        ) by {
            if x <= cur {
                assert(out[spans.len() as int].0.start <= x < out[spans.len() as int].0.end);
            } else {
                assert(flagged_contain(spans, x));
                let i = choose|i: int|
                    0 <= i < spans.len() && (#[trigger] spans[i]).0.start <= x < spans[i].0.end;
                assert(out[i].0.start <= x < out[i].0.end);
            }
        }
    }

    /// With an empty queue within a run, the current version is the common
    /// ancestor.
    pub proof fn lemma_zone_single(
        &self,
        a: Seq<LV>,
        b: Seq<LV>,
        spans: Seq<FlaggedSpan>,
        cur: LV,
        flag: DiffFlag,
    )
        requires
            self.entries_wf(),
            self.zone_walking(a, b, Seq::<TimePoint>::empty(), spans, cur, flag),
        ensures
            self.is_conflict_zone(a, b, seq![cur], spans),
    {
        assert(seq![cur][0] == cur);
        self.lemma_zone_collapse(a, b, spans, seq![cur], flag, cur + 1);
    }

    /// Points in rank order are in the order of their last versions.
    pub proof fn lemma_rank_order(p: TimePoint, top: TimePoint)
        requires
            p.rank() <= top.rank(),
            p.merged_with@.len() <= usize::MAX,
            top.merged_with@.len() <= usize::MAX,
        ensures
            p.last_key() <= top.last_key(),
    {
    }

    /// Taking the greatest point out of the queue.
    #[verifier::rlimit(50)]
    pub proof fn lemma_zone_take(
        &self,
        a: Seq<LV>,
        b: Seq<LV>,
        q0: Seq<TimePoint>,
        spans: Seq<FlaggedSpan>,
        bound: int,
    )
        requires
            self.entries_wf(),
            q0.len() > 0,
            self.zone_state(a, b, q0, spans, bound),
            forall|i: int| 0 <= i < q0.len() ==> (#[trigger] q0[i]).rank() <= q0.last().rank(),
            q0.last().last != usize::MAX,
        ensures
            self.zone_taken(
                a,
                b,
                q0.drop_last(),
                spans,
                q0.last().versions(),
                q0.last().flag,
                q0.last().last + 1,
            ),
            q0.last().last + 1 <= bound,
    {
        let top = q0.last();
        let q = q0.drop_last();
        let low = top.last + 1;
        lemma_points_drop_last(self, q0);
        assert(q0[q0.len() - 1] == top);
        assert(top.point_wf(self));
        assert forall|i: int| 0 <= i < q0.len() implies (#[trigger] q0[i]).point_wf(self)
            && q0[i].last_key() <= low by {
            assert(q0[i].point_wf(self));
            Self::lemma_rank_order(q0[i], top);
        }
        assert forall|i: int| 0 <= i < q.len() implies (#[trigger] q[i]).point_wf(self)
            && q[i].last_key() <= low by {
            assert(q[i] == q0[i]);
        }
        self.lemma_points_bound(q0, low);
        assert forall|side_a: bool, x: LV|
            low <= x && #[trigger] self.side_contains(a, b, side_a, x) implies flagged_contain(
            spans,
            x,
        ) by {
            if x < bound {
                assert(!points_reach(self, q0, side_a, x));
            }
        }
        assert forall|side_a: bool, x: LV| x < low implies ((#[trigger] points_reach(
            self,
            q,
            side_a,
            x,
        )) || (top.flag.on_side(side_a) && self.frontier_contains(top.versions(), x))) == self.side_contains(
            a,
            b,
            side_a,
            x,
        ) by {
            assert(points_reach(self, q0, side_a, x) == self.side_contains(a, b, side_a, x));
        }
    }

    /// Dropping from the queue a point that is the point taken: the flags
    /// join.
    pub proof fn lemma_zone_dedup(
        &self,
        a: Seq<LV>,
        b: Seq<LV>,
        q: Seq<TimePoint>,
        spans: Seq<FlaggedSpan>,
        tv: Seq<LV>,
        flag: DiffFlag,
        bound: int,
    )
        requires
            q.len() > 0,
            self.zone_taken(a, b, q, spans, tv, flag, bound),
            q.last().versions() == tv,
        ensures
            self.zone_taken(a, b, q.drop_last(), spans, tv, flag.spec_join(q.last().flag), bound),
    {
        let p = q.last();
        let q2 = q.drop_last();
        let joined = flag.spec_join(p.flag);
        lemma_points_drop_last(self, q);
        assert forall|i: int| 0 <= i < q2.len() implies (#[trigger] q2[i]).point_wf(self)
            && q2[i].last_key() <= bound by {
            assert(q2[i] == q[i]);
        }
        assert forall|side_a: bool, x: LV| x < bound implies ((#[trigger] points_reach(
            self,
            q2,
            side_a,
            x,
        )) || (joined.on_side(side_a) && self.frontier_contains(tv, x))) == self.side_contains(a, b, side_a, x) by {
            assert((points_reach(self, q, side_a, x) || (flag.on_side(side_a) && self.frontier_contains(tv, x))) == self.side_contains(a, b, side_a, x));
        }
    }

    /// After the versions merged with the point taken have gone back into
    /// the queue, the walk stands at the last version of the point.
    pub proof fn lemma_zone_shatter(
        &self,
        a: Seq<LV>,
        b: Seq<LV>,
        q: Seq<TimePoint>,
        q2: Seq<TimePoint>,
        spans: Seq<FlaggedSpan>,
        time: TimePoint,
        flag: DiffFlag,
    )
        requires
            time.last != usize::MAX,
            time.point_wf(self),
            self.zone_taken(a, b, q, spans, time.versions(), flag, time.last + 1),
            self.points_wf(q2, time.last + 1),
            has_side(q, true) ==> has_side(q2, true),
            has_side(q, false) ==> has_side(q2, false),
            forall|side_a: bool, x: LV|
                #[trigger] points_reach(self, q2, side_a, x) == (points_reach(self, q, side_a, x)
                    || (flag.on_side(side_a) && self.frontier_contains(time.merged_with@, x))),
        ensures
            self.zone_walking(a, b, q2, spans, time.last, flag),
    {
        let cur = time.last;
        assert forall|side_a: bool, x: LV| x < cur + 1 implies ((#[trigger] points_reach(
            self,
            q2,
            side_a,
            x,
        )) || (flag.on_side(side_a) && self.frontier_contains(seq![cur], x))) == self.side_contains(a, b, side_a, x) by {
            assert(points_reach(self, q, side_a, x) || !points_reach(self, q, side_a, x));
            self.lemma_point_parts(time, x);
            self.lemma_frontier_single(cur, x);
        }
    }

    /// The ranges after a point of the current run has been taken from the
    /// queue: with the range above the point, where there is one.
    pub open spec fn spans_after_consume(
        spans: Seq<FlaggedSpan>,
        cur: LV,
        flag: DiffFlag,
        next: LV,
    ) -> Seq<FlaggedSpan> {
        if next < cur {
            spans.push((DTRange { start: (next + 1) as usize, end: (cur + 1) as usize }, flag))
        } else {
            spans
        }
    }

    /// Taking from the queue a point whose last version lies in the
    /// current run: the walk moves down to that version.
    #[verifier::rlimit(50)]
    pub proof fn lemma_zone_consume(
        &self,
        a: Seq<LV>,
        b: Seq<LV>,
        q: Seq<TimePoint>,
        q2: Seq<TimePoint>,
        spans: Seq<FlaggedSpan>,
        cur: LV,
        flag: DiffFlag,
    )
        requires
            self.entries_wf(),
            q.len() > 0,
            self.zone_walking(a, b, q, spans, cur, flag),
            forall|i: int| 0 <= i < q.len() ==> (#[trigger] q[i]).rank() <= q.last().rank(),
            q.last().last != usize::MAX,
            self.run_start(cur) <= q.last().last <= cur,
            self.points_wf(q2, q.last().last + 1),
            has_side(q.drop_last(), true) ==> has_side(q2, true),
            has_side(q.drop_last(), false) ==> has_side(q2, false),
            forall|side_a: bool, x: LV|
                #[trigger] points_reach(self, q2, side_a, x) == (points_reach(
                    self,
                    q.drop_last(),
                    side_a,
                    x,
                ) || (q.last().on_side(side_a) && self.frontier_contains(
                    q.last().merged_with@,
                    x,
                ))),
        ensures
            self.zone_walking(
                a,
                b,
                q2,
                Self::spans_after_consume(spans, cur, flag, q.last().last),
                q.last().last,
                flag.spec_join(q.last().flag),
            ),
    {
        let p = q.last();
        let next = p.last;
        let joined = flag.spec_join(p.flag);
        let spans2 = Self::spans_after_consume(spans, cur, flag, next);
        lemma_points_drop_last(self, q);
        assert(q[q.len() - 1] == p);
        assert(p.point_wf(self));
        assert forall|i: int| 0 <= i < q.len() implies (#[trigger] q[i]).point_wf(self)
            && q[i].last_key() <= next + 1 by {
            assert(q[i].point_wf(self));
            Self::lemma_rank_order(q[i], p);
        }
        if next < cur {
            self.lemma_zone_emit(a, b, q, spans, cur, flag, (next + 1) as usize);
        }
        assert(self.zone_marked(a, b, spans2, next + 1));
        assert forall|side_a: bool, x: LV| x < next + 1 implies ((#[trigger] points_reach(
            self,
            q2,
            side_a,
            x,
        )) || (joined.on_side(side_a) && self.frontier_contains(seq![next], x))) == self.side_contains(a, b, side_a, x) by {
            self.lemma_point_parts(p, x);
            self.lemma_run_mates(next, cur, x);
            assert(seq![next][0] == next);
            assert(seq![cur][0] == cur);
            self.lemma_frontier_single(next, x);
            self.lemma_frontier_single(cur, x);
            assert((points_reach(self, q, side_a, x) || (flag.on_side(side_a) && self.frontier_contains(seq![cur], x))) == self.side_contains(a, b, side_a, x));
        }
    }

    /// After the rest of the current run has been added to the ranges and
    /// its parents to the queue, the walk stands between two runs again.
    #[verifier::rlimit(50)]
    pub proof fn lemma_zone_descend(
        &self,
        a: Seq<LV>,
        b: Seq<LV>,
        q: Seq<TimePoint>,
        q2: Seq<TimePoint>,
        spans: Seq<FlaggedSpan>,
        cur: LV,
        flag: DiffFlag,
        parents: TimePoint,
    )
        requires
            self.entries_wf(),
            self.zone_walking(a, b, q, spans, cur, flag),
            self.points_wf(q, self.run_start(cur) as int),
            parents.versions() == self.run_parents(cur),
            parents.flag == flag,
            parents.point_wf(self),
            exists|i: int| 0 <= i <= q.len() && q2 == q.insert(i, parents),
        ensures
            self.zone_state(
                a,
                b,
                q2,
                spans.push((DTRange { start: self.run_start(cur), end: (cur + 1) as usize }, flag)),
                self.run_start(cur) as int,
            ),
    {
        let start = self.run_start(cur);
        let i = choose|i: int| 0 <= i <= q.len() && q2 == q.insert(i, parents);
        lemma_points_insert(self, q, i, parents);
        self.lemma_entry_of(cur);
        self.lemma_zone_emit(a, b, q, spans, cur, flag, start);
        assert forall|k: int| 0 <= k < q2.len() implies (#[trigger] q2[k]).point_wf(self)
            && q2[k].last_key() <= start by {
            if q2[k] == parents {
                if parents.last != usize::MAX {
                    let ps = self.run_parents(cur);
                    assert(ps[ps.len() - 1] == parents.last);
                    assert(ps[ps.len() - 1] < start);
                }
            } else {
                assert(q.contains(q2[k]));
                let m = choose|m: int| 0 <= m < q.len() && q[m] == q2[k];
                assert(q[m].point_wf(self));
            }
        }
        assert forall|side_a: bool, x: LV| x < start implies #[trigger] points_reach(
            self,
            q2,
            side_a,
            x,
        ) == self.side_contains(a, b, side_a, x) by {
            self.lemma_below_parents(cur, x);
            self.lemma_frontier_single(cur, x);
            assert((points_reach(self, q, side_a, x) || (flag.on_side(side_a) && self.frontier_contains(seq![cur], x))) == self.side_contains(a, b, side_a, x));
        }
    }

    /// Puts each of the given versions into the queue as a point of its
    /// own, with the given flag.
    #[verifier::rlimit(50)]
    fn push_singles(
        &self,
        queue: &mut MaxQueue<TimePoint>,
        versions: &[LV],
        flag: DiffFlag,
        Ghost(top): Ghost<int>,
    )
        requires
            self.entries_wf(),
            old(queue).wf(),
            self.points_wf(old(queue)@, top),
            top <= self.spec_len(),
            forall|k: int| 0 <= k < versions@.len() ==> #[trigger] versions@[k] < top - 1,
        ensures
            final(queue).wf(),
            queue_mass(final(queue)@) == queue_mass(old(queue)@) + versions@.len(),
            self.points_wf(final(queue)@, top),
            has_side(old(queue)@, true) ==> has_side(final(queue)@, true),
            has_side(old(queue)@, false) ==> has_side(final(queue)@, false),
            forall|side_a: bool, x: LV|
                #[trigger] points_reach(self, final(queue)@, side_a, x) == (points_reach(
                    self,
                    old(queue)@,
                    side_a,
                    x,
                ) || (flag.on_side(side_a) && self.frontier_contains(versions@, x))),
    {
        let _total = self.len();
        let mut k: usize = 0;
        while k < versions.len()
            invariant
                0 <= k <= versions@.len(),
                queue.wf(),
                queue_mass(queue@) == queue_mass(old(queue)@) + k,
                self.points_wf(queue@, top),
                top <= self.spec_len() <= usize::MAX,
                forall|k: int| 0 <= k < versions@.len() ==> #[trigger] versions@[k] < top - 1,
                has_side(old(queue)@, true) ==> has_side(queue@, true),
                has_side(old(queue)@, false) ==> has_side(queue@, false),
                forall|side_a: bool, x: LV|
                    #[trigger] points_reach(self, queue@, side_a, x) == (points_reach(
                        self,
                        old(queue)@,
                        side_a,
                        x,
                    ) || (flag.on_side(side_a) && self.frontier_contains(
                        versions@.take(k as int),
                        x,
                    ))),
            decreases versions@.len() - k,
        {
            let ghost q0 = queue@;
            let v = versions[k];
            let item = TimePoint::single(v, flag);
            queue.push(item);
            proof {
                let i = choose|i: int| 0 <= i <= q0.len() && queue@ == q0.insert(i, item);
                lemma_points_insert(self, q0, i, item);
                lemma_mass_insert(q0, i, item);
                assert forall|j: int| 0 <= j < queue@.len() implies (#[trigger] queue@[j]).point_wf(
                    self,
                ) && queue@[j].last_key() <= top by {
                    if queue@[j] != item {
                        let m = choose|m: int| 0 <= m < q0.len() && q0[m] == queue@[j];
                        assert(q0[m].point_wf(self));
                    }
                }
                let t0 = versions@.take(k as int);
                let t1 = versions@.take(k + 1);
                assert forall|x: LV|
                    self.frontier_contains(t1, x) == (self.frontier_contains(t0, x)
                        || item.reaches(self, x)) by {
                    self.lemma_frontier_single(v, x);
                    if self.frontier_contains(t1, x) {
                        let j = choose|j: int|
                            0 <= j < t1.len() && #[trigger] self.version_contains(t1[j], x);
                        if j < k {
                            assert(self.version_contains(t0[j], x));
                        }
                    }
                    if self.frontier_contains(t0, x) {
                        let j = choose|j: int|
                            0 <= j < t0.len() && #[trigger] self.version_contains(t0[j], x);
                        assert(self.version_contains(t1[j], x));
                    }
                    if self.version_contains(v, x) {
                        assert(self.version_contains(t1[k as int], x));
                    }
                }
            }
            k += 1;
        }
        proof {
            assert(versions@.take(versions@.len() as int) =~= versions@);
        }
    }

    /// Walks the run of `t` downwards, taking from the queue the points
    /// whose last version lies in it, and adding the ranges between them.
    /// Where the queue runs empty on the way, returns the version at which
    /// it did: the common ancestor. Else puts the parents of the run into
    /// the queue.
    #[verifier::rlimit(50)]
    fn zone_walk_run(
        &self,
        queue: &mut MaxQueue<TimePoint>,
        spans: &mut Vec<FlaggedSpan>,
        t: LV,
        first_flag: DiffFlag,
        Ghost(a): Ghost<Seq<LV>>,
        Ghost(b): Ghost<Seq<LV>>,
    ) -> (r: Option<LV>)
        requires
            self.entries_wf(),
            old(queue).wf(),
            self.zone_walking(a, b, old(queue)@, old(spans)@, t, first_flag),
        ensures
            final(queue).wf(),
            match r {
                Some(cur) => self.is_conflict_zone(a, b, seq![cur], final(spans)@),
                None => self.zone_state(
                    a,
                    b,
                    final(queue)@,
                    final(spans)@,
                    self.run_start(t) as int,
                ),
            },
    {
        let containing_txn = self.entry_for(t);
        let start = containing_txn.span.start;
        let mut range = DTRange { start, end: t + 1 };
        let mut flag = first_flag;
        let _total = self.len();
        let mut found: Option<LV> = None;
        loop
            invariant_except_break
                queue.wf(),
                range.start == start,
                start < range.end <= t + 1,
                self.zone_walking(a, b, queue@, spans@, (range.end - 1) as usize, flag),
            invariant
                self.entries_wf(),
                t < self.spec_len(),
                start == self.run_start(t),
                *containing_txn == self.entry_of(t),
            ensures
                queue.wf(),
                match found {
                    Some(cur) => self.is_conflict_zone(a, b, seq![cur], spans@),
                    None => self.zone_state(a, b, queue@, spans@, start as int),
                },
            decreases queue_mass(queue@),
        {
            let ghost q0 = queue@;
            let ghost cur = (range.end - 1) as usize;
            let ghost spans0 = spans@;
            proof {
                self.lemma_run_mates(cur, t, cur);
            }
            let inside = match queue.peek() {
                Some(peek) => peek.last != usize::MAX && peek.last >= start,
                None => {
                    proof {
                        assert(q0 =~= Seq::<TimePoint>::empty());
                        self.lemma_zone_single(a, b, spans@, cur, flag);
                    }
                    found = Some(range.end - 1);
                    break ;
                },
            };
            if inside {
                // The next point lies within this run. Take it.
                let time = queue.pop().unwrap();
                let next_flag = time.flag;
                proof {
                    assert(q0[q0.len() - 1] == time);
                    assert(time.point_wf(self));
                    assert(time.last_key() <= cur + 1);
                    assert forall|i: int| 0 <= i < queue@.len() implies (
                    #[trigger] queue@[i]).point_wf(self) && queue@[i].last_key() <= time.last
                        + 1 by {
                        assert(queue@[i] == q0[i]);
                        assert(q0[i].point_wf(self));
                        assert(q0[i].rank() <= time.rank());
                        Self::lemma_rank_order(q0[i], time);
                    }
                }
                if time.last + 1 < range.end {
                    let offset = time.last + 1 - start;
                    let rem = range.truncate(offset);
                    spans.push((rem, flag));
                }
                self.push_singles(
                    queue,
                    time.merged_with.as_slice(),
                    next_flag,
                    Ghost(time.last + 1),
                );
                proof {
                    self.lemma_zone_consume(a, b, q0, queue@, spans0, cur, flag);
                    assert(spans@ == Self::spans_after_consume(spans0, cur, flag, time.last));
                }
                flag = flag.join(next_flag);
            } else {
                // Emit the remainder of this run, and go on from its parents.
                proof {
                    assert forall|i: int| 0 <= i < q0.len() implies (#[trigger] q0[i]).point_wf(
                        self,
                    ) && q0[i].last_key() <= start by {
                        assert(q0[i].point_wf(self));
                        assert(q0[i].rank() <= q0.last().rank());
                        Self::lemma_rank_order(q0[i], q0.last());
                    }
                    self.lemma_entry_of(t);
                }
                spans.push((range, flag));
                let parents = TimePoint::from_versions(
                    containing_txn.parents.as_slice(),
                    flag,
                    Ghost(self),
                );
                queue.push(parents);
                proof {
                    self.lemma_zone_descend(a, b, q0, queue@, spans0, cur, flag, parents);
                }
                found = None;
                break ;
            }
        }
        found
    }

    /// The conflict zone of `a` and `b`, found by walking the graph
    /// downwards from both until one point of history is left.
    #[verifier::rlimit(50)]
    pub fn find_conflicting_slow(&self, a: &[LV], b: &[LV]) -> (r: ConflictSpans)
        requires
            self.entries_wf(),
            self.valid_frontier(a@),
            self.valid_frontier(b@),
        ensures
            self.is_conflict_zone(a@, b@, r.common_ancestor@, r.spans@),
    {
        let mut queue: MaxQueue<TimePoint> = MaxQueue::new();
        let mut spans: Vec<FlaggedSpan> = Vec::new();
        let point_a = TimePoint::from_versions(a, DiffFlag::OnlyA, Ghost(self));
        let point_b = TimePoint::from_versions(b, DiffFlag::OnlyB, Ghost(self));
        let _total = self.len();
        let ghost q_empty = queue@;
        queue.push(point_a);
        let ghost q_a = queue@;
        queue.push(point_b);
        let ghost mut bound: int = self.spec_len() as int;
        proof {
            let i = choose|i: int| 0 <= i <= q_empty.len() && q_a == q_empty.insert(i, point_a);
            lemma_points_insert(self, q_empty, i, point_a);
            let j = choose|j: int| 0 <= j <= q_a.len() && queue@ == q_a.insert(j, point_b);
            lemma_points_insert(self, q_a, j, point_b);
            assert(!has_side(q_empty, true) && !has_side(q_empty, false));
            assert forall|k: int| 0 <= k < queue@.len() implies (#[trigger] queue@[k]).point_wf(self)
                && queue@[k].last_key() <= bound by {
                if queue@[k] != point_b {
                    assert(q_a.contains(queue@[k]));
                    let m = choose|m: int| 0 <= m < q_a.len() && q_a[m] == queue@[k];
                    assert(q_a[m] == point_a);
                }
            }
            self.lemma_side_in_graph(a@, b@);
            assert forall|side_a: bool, x: LV| x < bound implies #[trigger] points_reach(
                self,
                queue@,
                side_a,
                x,
            ) == self.side_contains(a@, b@, side_a, x) by {
                assert(!points_reach(self, q_empty, side_a, x));
            }
            assert forall|side_a: bool, x: LV|
                bound <= x && #[trigger] self.side_contains(a@, b@, side_a, x) implies flagged_contain(
                spans@,
                x,
            ) by {
            }
        }
        let mut common = Frontier::root();
        loop
            invariant_except_break
                queue.wf(),
                0 <= bound <= self.spec_len(),
                self.zone_state(a@, b@, queue@, spans@, bound),
            invariant
                self.entries_wf(),
                self.versions_in_graph(a@),
                self.versions_in_graph(b@),
            ensures
                self.is_conflict_zone(a@, b@, common@, spans@),
            decreases bound,
        {
            let ghost q0 = queue@;
            proof {
                let k = choose|k: int| 0 <= k < q0.len() && (#[trigger] q0[k]).on_side(true);
            }
            let time = queue.pop().unwrap();
            let t = time.last;
            proof {
                assert(q0[q0.len() - 1] == time);
                assert(time.point_wf(self));
            }
            if t == usize::MAX {
                proof {
                    self.lemma_zone_root(a@, b@, q0, spans@, bound);
                }
                common = Frontier::root();
                break ;
            }
            let mut flag = time.flag;
            proof {
                self.lemma_zone_take(a@, b@, q0, spans@, bound);
            }
            // Discard points that are the same point.
            loop
                invariant
                    queue.wf(),
                    self.zone_taken(a@, b@, queue@, spans@, time.versions(), flag, t + 1),
                decreases queue@.len(),
            {
                let ghost q1 = queue@;
                let same = match queue.peek() {
                    Some(peek) => {
                        let same = peek.same_point(&time);
                        (same, peek.flag)
                    },
                    None => (false, flag),
                };
                if !same.0 {
                    break ;
                }
                proof {
                    self.lemma_zone_dedup(a@, b@, q1, spans@, time.versions(), flag, t + 1);
                }
                flag = flag.join(same.1);
                queue.pop();
            }

            if queue.is_empty() {
                // One point is left: the common ancestor.
                common = time.merged_with.clone();
                common.push(t);
                proof {
                    assert(queue@ =~= Seq::<TimePoint>::empty());
                    assert(common@ =~= time.versions());
                    assert forall|i: int, j: int| 0 <= i < j < common@.len() implies common@[i]
                        < common@[j] by {
                        if j < time.merged_with@.len() {
                            assert(time.merged_with@[i] < time.merged_with@[j]);
                        } else {
                            assert(time.merged_with@[i] < t);
                        }
                    }
                    assert forall|k: int| 0 <= k < common@.len() implies #[trigger] common@[k] < t
                        + 1 by {
                        if k < time.merged_with@.len() {
                            assert(time.merged_with@[k] < t);
                        }
                    }
                    self.lemma_zone_collapse(a@, b@, spans@, common@, flag, t + 1);
                }
                break ;
            }
            // Where the point is a merge, its other versions go back into
            // the queue.

            let ghost q2 = queue@;
            self.push_singles(&mut queue, time.merged_with.as_slice(), flag, Ghost(t + 1));
            proof {
                self.lemma_zone_shatter(a@, b@, q2, queue@, spans@, time, flag);
            }
            match self.zone_walk_run(&mut queue, &mut spans, t, flag, Ghost(a@), Ghost(b@)) {
                Some(cur) => {
                    common = Frontier::new_1(cur);
                    proof {
                        assert(common@ =~= seq![cur]);
                    }
                    break ;
                },
                None => {
                    proof {
                        self.lemma_entry_of(t);
                        bound = self.run_start(t) as int;
                    }
                },
            }
        }
        ConflictSpans { common_ancestor: common, spans }
    }

    /// The conflict zone of `a` and `b`: a frontier that both histories
    /// hold, and the ranges of what either holds above it, in descending
    /// order, each with its side. Equal frontiers, and two versions of one
    /// run, are answered at once.
    pub fn find_conflicting(&self, a: &[LV], b: &[LV]) -> (r: ConflictSpans)
        requires
            self.entries_wf(),
            self.valid_frontier(a@),
            self.valid_frontier(b@),
        ensures
            self.is_conflict_zone(a@, b@, r.common_ancestor@, r.spans@),
            a@ == b@ ==> r.common_ancestor@ == a@ && r.spans@.len() == 0,
    {
        if slice_eq(a, b) {
            let r = ConflictSpans { common_ancestor: Frontier::from_sorted(a), spans: Vec::new() };
            return r;
        }
        if a.len() == 1 && b.len() == 1 {
            let a0 = a[0];
            let b0 = b[0];
            let _total = self.len();
            if self.is_direct_descendant_coarse(a0, b0) {
                let mut spans: Vec<FlaggedSpan> = Vec::new();
                spans.push((DTRange { start: b0 + 1, end: a0 + 1 }, DiffFlag::OnlyA));
                let r = ConflictSpans { common_ancestor: Frontier::new_1(b0), spans };
                proof {
                    assert(a0 != b0) by {
                        if a0 == b0 {
                            assert(a@ =~= b@);
                        }
                    }
                    self.lemma_zone_in_run(a@, b@, a0, b0, r.common_ancestor@, r.spans@, true);
                }
                return r;
            }
            if self.is_direct_descendant_coarse(b0, a0) {
                let mut spans: Vec<FlaggedSpan> = Vec::new();
                spans.push((DTRange { start: a0 + 1, end: b0 + 1 }, DiffFlag::OnlyB));
                let r = ConflictSpans { common_ancestor: Frontier::new_1(a0), spans };
                proof {
                    self.lemma_zone_in_run(a@, b@, b0, a0, r.common_ancestor@, r.spans@, false);
                }
                return r;
            }
        }
        self.find_conflicting_slow(a, b)
    }

    /// The conflict zone of two versions of one run: the lower one is the
    /// common ancestor, and the versions above it up to the higher one
    /// belong to the side of the higher one.
    pub proof fn lemma_zone_in_run(
        &self,
        a: Seq<LV>,
        b: Seq<LV>,
        high: LV,
        low: LV,
        common: Seq<LV>,
        spans: Seq<FlaggedSpan>,
        high_is_a: bool,
    )
        requires
            self.entries_wf(),
            high < self.spec_len(),
            self.run_start(high) <= low < high,
            a.len() == 1,
            b.len() == 1,
            if high_is_a {
                a[0] == high && b[0] == low
            } else {
                a[0] == low && b[0] == high
            },
            common.len() == 1 && common[0] == low,
            spans.len() == 1,
            spans[0].0 == (DTRange { start: (low + 1) as usize, end: (high + 1) as usize }),
            spans[0].1 == (if high_is_a {
                DiffFlag::OnlyA
            } else {
                DiffFlag::OnlyB
            }),
        ensures
            self.is_conflict_zone(a, b, common, spans),
    {
        assert forall|x: LV|
            self.frontier_contains(a, x) == self.version_contains(a[0], x) && self.frontier_contains(
                b,
                x,
            ) == self.version_contains(b[0], x) && self.frontier_contains(common, x)
                == self.version_contains(low, x) && self.version_contains(high, x) == (
            self.version_contains(low, x) || low < x <= high) && (self.version_contains(low, x)
                ==> x <= low) by {
            if self.version_contains(a[0], x) {
                assert(self.frontier_contains(a, x));
            }
            if self.version_contains(b[0], x) {
                assert(self.frontier_contains(b, x));
            }
            if self.version_contains(common[0], x) {
                assert(self.frontier_contains(common, x));
            }
            self.lemma_diff_in_run(high, low, x);
            if self.version_contains(low, x) {
                self.lemma_contains_le(low, x);
            }
        }
        assert forall|side_a: bool, x: LV| #[trigger]
            self.side_contains(a, b, side_a, x) implies flagged_contain(spans, x)
            || self.frontier_contains(common, x) by {
            if low < x <= high {
                assert(spans[0].0.start <= x < spans[0].0.end);
            }
        }
        assert forall|x: LV| #[trigger] self.frontier_contains(common, x) implies !flagged_contain(
            spans,
            x,
        ) by {
            if flagged_contain(spans, x) {
                let i = choose|i: int|
                    0 <= i < spans.len() && (#[trigger] spans[i]).0.start <= x < spans[i].0.end;
            }
        }
    }

    /// The conflict zone of `a` and `b` without the flags, its ranges
    /// merged where they touch.
    #[verifier::rlimit(50)]
    pub fn find_conflicting_simple(&self, a: &[LV], b: &[LV]) -> (r: ConflictZone)
        requires
            self.entries_wf(),
            self.valid_frontier(a@),
            self.valid_frontier(b@),
        ensures
            self.valid_frontier(r.common_ancestor@),
            crate::range_list::spans_descending(r.rev_spans@),
            forall|x: LV| #[trigger]
                crate::range_list::spans_contain(r.rev_spans@, x) == ((self.frontier_contains(a@, x)
                    || self.frontier_contains(b@, x)) && !self.frontier_contains(
                    r.common_ancestor@,
                    x,
                )),
            forall|x: LV| #[trigger]
                self.frontier_contains(r.common_ancestor@, x) ==> self.frontier_contains(a@, x)
                    && self.frontier_contains(b@, x),
    {
        let zone = self.find_conflicting(a, b);
        let mut rev_spans = RangeList::new();
        let mut i: usize = 0;
        while i < zone.spans.len()
            invariant
                0 <= i <= zone.spans@.len(),
                flagged_descending(zone.spans@),
                crate::range_list::spans_descending(rev_spans@),
                rev_spans@.len() > 0 ==> i > 0,
                forall|k: int|
                    0 <= k < rev_spans@.len() ==> zone.spans@[i - 1].0.start <= (
                    #[trigger] rev_spans@[k]).start,
                forall|x: LV| #[trigger]
                    crate::range_list::spans_contain(rev_spans@, x) == flagged_contain(
                        zone.spans@.take(i as int),
                        x,
                    ),
            decreases zone.spans@.len() - i,
        {
            let span = zone.spans[i].0;
            let ghost before = rev_spans@;
            proof {
                assert forall|k: int| 0 <= k < before.len() implies span.end <= (
                #[trigger] before[k]).start by {
                    assert(zone.spans@[i - 1].0.start <= before[k].start);
                    assert(zone.spans@[i as int].0.end <= zone.spans@[i - 1].0.start);
                }
                crate::range_list::lemma_push_reversed(before, span);
            }
            rev_spans.push_reversed_rle(span);
            proof {
                let t0 = zone.spans@.take(i as int);
                let t1 = zone.spans@.take(i + 1);
                assert forall|x: LV| #[trigger]
                    crate::range_list::spans_contain(rev_spans@, x) == flagged_contain(t1, x) by {
                    if flagged_contain(t1, x) {
                        let k = choose|k: int|
                            0 <= k < t1.len() && (#[trigger] t1[k]).0.start <= x < t1[k].0.end;
                        if k < i {
                            assert(t0[k].0.start <= x < t0[k].0.end);
                        }
                    }
                    if flagged_contain(t0, x) {
                        let k = choose|k: int|
                            0 <= k < t0.len() && (#[trigger] t0[k]).0.start <= x < t0[k].0.end;
                        assert(t1[k].0.start <= x < t1[k].0.end);
                    }
                    if span.start <= x < span.end {
                        assert(t1[i as int].0.start <= x < t1[i as int].0.end);
                    }
                }
            }
            i += 1;
        }
        proof {
            assert(zone.spans@.take(zone.spans@.len() as int) =~= zone.spans@);
            assert forall|x: LV| #[trigger]
                crate::range_list::spans_contain(rev_spans@, x) == ((self.frontier_contains(a@, x)
                    || self.frontier_contains(b@, x)) && !self.frontier_contains(
                    zone.common_ancestor@,
                    x,
                )) by {
                if flagged_contain(zone.spans@, x) {
                    let k = choose|k: int|
                        0 <= k < zone.spans@.len() && (#[trigger] zone.spans@[k]).0.start <= x
                            < zone.spans@[k].0.end;
                    assert(self.frontier_contains(a@, x) == zone.spans@[k].1.in_a());
                    assert(self.frontier_contains(b@, x) == zone.spans@[k].1.in_b());
                    if self.frontier_contains(zone.common_ancestor@, x) {
                    }
                }
                if self.frontier_contains(a@, x) {
                    assert(self.side_contains(a@, b@, true, x));
                }
                if self.frontier_contains(b@, x) {
                    assert(self.side_contains(a@, b@, false, x));
                }
            }
        }
        ConflictZone { common_ancestor: zone.common_ancestor, rev_spans }
    }
}

} // verus!
