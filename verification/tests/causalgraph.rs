use diamond_types::causalgraph::conflicting::ConflictSpans;
use diamond_types::causalgraph::diff::{DiffFlag, DiffResult};
use diamond_types::causalgraph::graph::{Graph, GraphEntrySimple};
use diamond_types::dtrange::DTRange;
use diamond_types::frontier::{frontier_is_sorted, Frontier, LV};
use diamond_types::range_list::RangeList;
use std::cmp::Ordering;
use std::ops::Range;

use DiffFlag::{OnlyA, OnlyB, Shared};

fn r(range: Range<usize>) -> DTRange {
    DTRange { start: range.start, end: range.end }
}

fn entry(span: Range<usize>, parents: &[LV]) -> GraphEntrySimple {
    GraphEntrySimple { span: r(span), parents: Frontier::from_sorted(parents) }
}

fn graph(items: &[GraphEntrySimple]) -> Graph {
    Graph::from_simple_items(items).expect("the runs describe a graph")
}

fn spans(list: &RangeList) -> Vec<DTRange> {
    list.as_slice().to_vec()
}

fn pair(result: &DiffResult) -> (Vec<DTRange>, Vec<DTRange>) {
    (spans(&result.0), spans(&result.1))
}

fn push_reversed(list: &mut Vec<DTRange>, span: DTRange) {
    if let Some(last) = list.last_mut() {
        if span.end == last.start {
            last.start = span.start;
            return;
        }
    }
    list.push(span);
}

// The conflict finder can also be used as an overly complicated diff function.
fn diff_via_conflicting(graph: &Graph, a: &[LV], b: &[LV]) -> (Vec<DTRange>, Vec<DTRange>) {
    let mut only_a = Vec::new();
    let mut only_b = Vec::new();

    for (span, flag) in graph.find_conflicting(a, b).spans {
        let target = match flag {
            OnlyA => &mut only_a,
            OnlyB => &mut only_b,
            Shared => continue,
        };
        push_reversed(target, span);
    }

    (only_a, only_b)
}

#[derive(Debug, Eq, PartialEq)]
struct ConflictFull {
    common_branch: Vec<LV>,
    spans: Vec<(DTRange, DiffFlag)>,
}

fn push_rev_rle(list: &mut Vec<(DTRange, DiffFlag)>, span: DTRange, flag: DiffFlag) {
    if let Some((last_span, last_flag)) = list.last_mut() {
        if span.end == last_span.start && flag == *last_flag {
            last_span.start = span.start;
            return;
        }
    }
    list.push((span, flag));
}

fn merged(zone: &ConflictSpans) -> ConflictFull {
    let mut spans = Vec::new();
    for (span, flag) in zone.spans.iter() {
        assert!(span.start < span.end);
        push_rev_rle(&mut spans, *span, *flag);
    }
    ConflictFull { common_branch: zone.common_ancestor.as_slice().to_vec(), spans }
}

fn find_conflicting(graph: &Graph, a: &[LV], b: &[LV]) -> ConflictFull {
    let fast = merged(&graph.find_conflicting(a, b));
    let slow = merged(&graph.find_conflicting_slow(a, b));
    assert_eq!(fast, slow);
    slow
}

fn assert_conflicting(
    graph: &Graph,
    a: &[LV],
    b: &[LV],
    expect_spans: &[(Range<usize>, DiffFlag)],
    expect_common: &[LV],
) {
    let expect: Vec<(DTRange, DiffFlag)> =
        expect_spans.iter().rev().map(|(range, flag)| (r(range.clone()), *flag)).collect();
    let actual = find_conflicting(graph, a, b);
    assert_eq!(actual.common_branch.as_slice(), expect_common);
    assert_eq!(actual.spans, expect);
}

fn assert_version_contains_time(graph: &Graph, frontier: &[LV], target: LV, expected: bool) {
    assert_eq!(graph.frontier_contains_version(frontier, target), expected);
}

fn assert_diff_eq(
    graph: &Graph,
    a: &[LV],
    b: &[LV],
    expect_a: &[DTRange],
    expect_b: &[DTRange],
) {
    let slow_result = pair(&graph.diff_slow(a, b));
    let fast_result = pair(&graph.diff_rev(a, b));
    let c_result = diff_via_conflicting(graph, a, b);

    assert_eq!(slow_result.0.as_slice(), expect_a);
    assert_eq!(slow_result.1.as_slice(), expect_b);

    assert_eq!(slow_result, fast_result);
    assert_eq!(slow_result, c_result);

    assert_eq!(pair(&graph.diff(a, b)), slow_result);

    // The ascending form is the descending one turned round.
    let mut fwd = pair(&graph.diff_ascending(a, b));
    fwd.0.reverse();
    fwd.1.reverse();
    assert_eq!(fwd, slow_result);

    for &(branch, spans, other) in &[(a, expect_a, b), (b, expect_b, a)] {
        for o in spans {
            assert_version_contains_time(graph, branch, o.start, true);
            if o.end - o.start > 1 {
                assert_version_contains_time(graph, branch, o.last(), true);
            }
        }

        if branch.len() == 1 {
            let expect = spans.is_empty();
            assert_version_contains_time(graph, other, branch[0], expect);
        }
    }
}

fn fancy_graph() -> Graph {
    let g = graph(&[
        entry(0..3, &[]),
        entry(3..6, &[]),
        entry(6..9, &[1, 4]),
        entry(9..11, &[2, 8]),
    ]);

    assert_eq!(g.entries.0.len(), 4);
    assert_eq!(g.entries.0[0].shadow, 0);
    assert_eq!(g.entries.0[1].shadow, 3);
    assert_eq!(g.entries.0[2].shadow, 6);
    assert_eq!(g.entries.0[3].shadow, 6);
    g
}

#[test]
fn common_item_smoke_test() {
    let graph = fancy_graph();

    for t in 0..=9 {
        // The same item should never conflict with itself.
        assert_conflicting(&graph, &[t], &[t], &[], &[t]);
    }
    assert_conflicting(&graph, &[5, 6], &[5, 6], &[], &[5, 6]);

    assert_conflicting(&graph, &[1], &[2], &[(2..3, OnlyB)], &[1]);
    assert_conflicting(&graph, &[0], &[2], &[(1..3, OnlyB)], &[0]);
    assert_conflicting(&graph, &[], &[], &[], &[]);
    assert_conflicting(&graph, &[], &[0], &[(0..1, OnlyB)], &[]);
    assert_conflicting(&graph, &[], &[2], &[(0..3, OnlyB)], &[]);

    assert_conflicting(&graph, &[2], &[3], &[(0..3, OnlyA), (3..4, OnlyB)], &[]);
    assert_conflicting(&graph, &[1, 4], &[4], &[(0..2, OnlyA), (3..5, Shared)], &[]);
    assert_conflicting(
        &graph,
        &[6],
        &[2],
        &[(0..2, Shared), (2..3, OnlyB), (3..5, OnlyA), (6..7, OnlyA)],
        &[],
    );
    assert_conflicting(
        &graph,
        &[6],
        &[5],
        &[(0..2, OnlyA), (3..5, Shared), (5..6, OnlyB), (6..7, OnlyA)],
        &[],
    );
    assert_conflicting(&graph, &[5, 6], &[5], &[(0..2, OnlyA), (3..6, Shared), (6..7, OnlyA)], &[]);
    assert_conflicting(&graph, &[5, 6], &[2], &[(0..2, Shared), (2..3, OnlyB), (3..7, OnlyA)], &[]);
    assert_conflicting(
        &graph,
        &[2, 6],
        &[5],
        &[(0..3, OnlyA), (3..5, Shared), (5..6, OnlyB), (6..7, OnlyA)],
        &[],
    );
    assert_conflicting(&graph, &[9], &[10], &[(10..11, OnlyB)], &[9]);
    assert_conflicting(&graph, &[6], &[7], &[(7..8, OnlyB)], &[6]);

    // This looks weird, but its right because 9 shares the same parents.
    assert_conflicting(&graph, &[9], &[2, 8], &[(9..10, OnlyA)], &[2, 8]);

    // Everything! Just because we need to rebase operation 8 on top of 7, and can't produce
    // that without basically all of time.
    assert_conflicting(
        &graph,
        &[9],
        &[2, 7],
        &[(0..5, Shared), (6..8, Shared), (8..10, OnlyA)],
        &[],
    );
}

#[test]
fn branch_contains_smoke_test() {
    let parents = fancy_graph();

    assert_version_contains_time(&parents, &[], 0, false);
    assert_version_contains_time(&parents, &[0], 0, true);

    assert_version_contains_time(&parents, &[2], 0, true);
    assert_version_contains_time(&parents, &[2], 1, true);
    assert_version_contains_time(&parents, &[2], 2, true);

    assert_version_contains_time(&parents, &[0], 1, false);
    assert_version_contains_time(&parents, &[1], 2, false);

    assert_version_contains_time(&parents, &[8], 0, true);
    assert_version_contains_time(&parents, &[8], 1, true);
    assert_version_contains_time(&parents, &[8], 2, false);
    assert_version_contains_time(&parents, &[8], 5, false);

    assert_version_contains_time(&parents, &[1, 4], 0, true);
    assert_version_contains_time(&parents, &[1, 4], 1, true);
    assert_version_contains_time(&parents, &[1, 4], 2, false);
    assert_version_contains_time(&parents, &[1, 4], 5, false);

    assert_version_contains_time(&parents, &[9], 2, true);
    assert_version_contains_time(&parents, &[9], 1, true);
    assert_version_contains_time(&parents, &[9], 0, true);
}

fn check_dominators(graph: &Graph, input: &[LV], expected_yes: &[LV]) {
    assert!(frontier_is_sorted(input));
    assert!(frontier_is_sorted(expected_yes));

    let expected_no: Vec<_> =
        input.iter().filter(|v| !expected_yes.contains(v)).copied().collect();
    assert!(frontier_is_sorted(expected_no.as_slice()));
    assert_eq!(input.len(), expected_yes.len() + expected_no.len());

    assert_eq!(graph.find_dominators(input).as_slice(), expected_yes);

    let mut actual_yes = vec![];
    let mut actual_no = vec![];
    for (v, dom) in graph.find_dominators_full(input) {
        if dom {
            actual_yes.push(v);
        } else {
            actual_no.push(v);
        }
    }
    actual_yes.reverse();
    actual_no.reverse();

    assert_eq!(actual_yes, expected_yes);
    assert_eq!(actual_no, expected_no);

    // This is a bit dirty, but no harm in it!
    for split in 0..=input.len() {
        let (a_raw, b_raw) = input.split_at(split);
        let a = graph.find_dominators(a_raw);
        let b = graph.find_dominators(b_raw);
        let fwd = graph.find_dominators_2(a.as_slice(), b.as_slice());
        let rev = graph.find_dominators_2(b.as_slice(), a.as_slice());
        assert_eq!(fwd.as_slice(), expected_yes);
        assert_eq!(rev.as_slice(), expected_yes);
    }
}

#[test]
fn dominator_smoke_test() {
    let parents = fancy_graph();

    check_dominators(&parents, &[0, 1, 2, 3, 4, 5, 6, 7, 8, 9, 10], &[5, 10]);
    check_dominators(&parents, &[10], &[10]);

    check_dominators(&parents, &[5, 6], &[5, 6]);
    check_dominators(&parents, &[5, 9], &[5, 9]);
    check_dominators(&parents, &[4, 9], &[9]);
    check_dominators(&parents, &[1, 2], &[2]);
    check_dominators(&parents, &[0, 2], &[2]);
    check_dominators(&parents, &[0, 10], &[10]);
    check_dominators(&parents, &[], &[]);
    check_dominators(&parents, &[2], &[2]);
    check_dominators(&parents, &[1, 4], &[1, 4]);
    check_dominators(&parents, &[9, 10], &[10]);
    check_dominators(&parents, &[2, 8, 9], &[9]);
    check_dominators(&parents, &[2, 7, 9], &[9]);
    check_dominators(&parents, &[6, 7], &[7]);
    check_dominators(&parents, &[0], &[0]);
}

#[test]
fn dominator_duplicates() {
    let parents = fancy_graph();
    assert_eq!(parents.find_dominators(&[1, 1, 1]).as_slice(), &[1]);
    assert_eq!(parents.version_union(&[1], &[1]).as_slice(), &[1]);

    let mut seen_1 = false;
    for (_v, _d) in parents.find_dominators_full(&[1, 1, 1]) {
        if !seen_1 {
            seen_1 = true;
        } else {
            panic!("Duplicate version!");
        }
    }
}

#[test]
fn diff_for_flat_txns() {
    // 0 |
    // | 1
    // 2
    let graph = graph(&[entry(0..1, &[]), entry(1..2, &[]), entry(2..3, &[0])]);

    assert_diff_eq(&graph, &[2], &[], &[r(2..3), r(0..1)], &[]);
    assert_diff_eq(&graph, &[2], &[1], &[r(2..3), r(0..1)], &[r(1..2)]);
}

#[test]
fn diff_three_root_txns() {
    // 0 | |
    //   1 |
    //     2
    let graph = graph(&[entry(0..1, &[]), entry(1..2, &[]), entry(2..3, &[])]);

    assert_diff_eq(&graph, &[0], &[0, 1], &[], &[r(1..2)]);

    for time in [0, 1, 2] {
        assert_diff_eq(&graph, &[time], &[], &[r(time..time + 1)], &[]);
        assert_diff_eq(&graph, &[], &[time], &[], &[r(time..time + 1)]);
    }

    assert_diff_eq(&graph, &[], &[0, 1], &[], &[r(0..2)]);
    assert_diff_eq(&graph, &[0], &[1], &[r(0..1)], &[r(1..2)]);
}

#[test]
fn diff_shadow_bubble() {
    // 0,1,2   |
    //      \ 3,4
    //       \ /
    //        5,6
    let graph = graph(&[entry(0..3, &[]), entry(3..5, &[]), entry(5..6, &[2, 4])]);

    assert_diff_eq(&graph, &[4], &[5], &[], &[r(5..6), r(0..3)]);
    assert_diff_eq(&graph, &[4], &[], &[r(3..5)], &[]);
    assert!(!graph.frontier_contains_version(&[4], 2));
    assert!(graph.frontier_contains_version(&[5], 2));
}

#[test]
fn diff_common_branch_is_ordered() {
    // 0 1
    // |x|
    // 2 3
    let parents = graph(&[
        entry(0..1, &[]),
        entry(1..2, &[]),
        entry(2..3, &[0, 1]),
        entry(3..4, &[0, 1]),
    ]);

    assert_version_contains_time(&parents, &[2], 3, false);
    assert_version_contains_time(&parents, &[3], 2, false);
    assert_diff_eq(&parents, &[2], &[3], &[r(2..3)], &[r(3..4)]);
}

#[test]
fn diff_of_a_frontier_and_itself_is_empty() {
    let g = fancy_graph();
    for f in [&[][..], &[0], &[5, 10], &[2, 8], &[1, 4]] {
        assert_eq!(pair(&g.diff(f, f)), (vec![], vec![]));
        assert_eq!(pair(&g.diff_slow(f, f)), (vec![], vec![]));
    }
}

#[test]
fn diff_turns_round_with_its_arguments() {
    let g = fancy_graph();
    let frontiers: [&[LV]; 7] = [&[], &[0], &[2], &[5, 10], &[2, 8], &[1, 4], &[7]];
    for a in frontiers {
        for b in frontiers {
            let ab = pair(&g.diff(a, b));
            let ba = pair(&g.diff(b, a));
            assert_eq!(ab.0, ba.1);
            assert_eq!(ab.1, ba.0);
        }
    }
    assert_eq!(pair(&g.diff(&[5, 10], &[2, 7])), (vec![r(8..11), r(5..6)], vec![]));
    assert_eq!(pair(&g.diff(&[5], &[8])), (vec![r(5..6)], vec![r(6..9), r(0..2)]));
    assert_eq!(
        pair(&g.diff_ascending(&[5], &[8])),
        (vec![r(5..6)], vec![r(0..2), r(6..9)])
    );
}

#[test]
fn dominators_of_dominators() {
    let g = fancy_graph();
    let sets: [&[LV]; 5] = [&[0, 1, 2, 3, 4, 5, 6, 7, 8, 9, 10], &[4, 9], &[5, 6], &[1, 1], &[]];
    for vs in sets {
        let once = g.find_dominators(vs);
        let twice = g.find_dominators(once.as_slice());
        assert_eq!(once.as_slice(), twice.as_slice());
    }
    let frontiers: [&[LV]; 5] = [&[], &[2], &[5, 6], &[1, 4], &[10]];
    for a in frontiers {
        for b in frontiers {
            let union = g.version_union(a, b);
            assert_eq!(g.find_dominators(union.as_slice()).as_slice(), union.as_slice());
        }
    }
    assert_eq!(g.version_union(&[1, 4], &[5, 6]).as_slice(), &[5, 6]);
    assert_eq!(g.find_dominators_wide_rev(&[5, 6, 2]).as_slice(), &[6, 5, 2]);
    assert_eq!(g.find_dominators_wide_rev(&[5, 6, 1]).as_slice(), &[6, 5]);
}

#[test]
fn version_cmp_relates_versions() {
    let g = fancy_graph();
    assert_eq!(g.version_cmp(4, 4), Some(Ordering::Equal));
    assert_eq!(g.version_cmp(1, 2), Some(Ordering::Less));
    assert_eq!(g.version_cmp(8, 1), Some(Ordering::Greater));
    assert_eq!(g.version_cmp(2, 8), None);
    assert_eq!(g.version_cmp(5, 2), None);
    assert_eq!(g.version_cmp(2, 10), Some(Ordering::Less));
    assert!(g.version_contains_version(10, 7));
    assert!(!g.version_contains_version(7, 10));
    assert!(g.is_direct_descendant_coarse(8, 6));
    assert!(!g.is_direct_descendant_coarse(8, 4));
    assert!(g.txn_shadow_contains(10, 6));
    assert!(!g.txn_shadow_contains(10, 5));
    assert_eq!(g.shadow_of(10), 6);
}

#[test]
fn frontier_contains_frontier_checks_every_version() {
    let g = fancy_graph();
    assert!(g.frontier_contains_frontier(&[10], &[2, 8]));
    assert!(g.frontier_contains_frontier(&[5, 10], &[5, 10]));
    assert!(!g.frontier_contains_frontier(&[10], &[5]));
    assert!(g.frontier_contains_frontier(&[10], &[]));
    assert!(!g.frontier_contains_frontier(&[], &[0]));
}

#[test]
fn the_frontier_follows_every_push() {
    let mut g = Graph::new();
    assert!(g.is_empty());
    assert_eq!(g.frontier().as_slice(), &[] as &[LV]);
    g.push(&[], r(0..3));
    assert_eq!(g.frontier().as_slice(), &[2]);
    g.push(&[], r(3..6));
    assert_eq!(g.frontier().as_slice(), &[2, 5]);
    g.push(&[1, 4], r(6..9));
    assert_eq!(g.frontier().as_slice(), &[2, 5, 8]);
    g.push(&[2, 8], r(9..10));
    assert_eq!(g.frontier().as_slice(), &[5, 9]);
    // A push that continues the last run makes it longer.
    g.push(&[9], r(10..11));
    assert_eq!(g.entries.0.len(), 4);
    assert_eq!(g.entries.0[3].span, r(9..11));
    assert_eq!(g.frontier().as_slice(), &[5, 10]);
    assert_eq!(g.len(), 11);
    // The frontier is sorted, minimal, and holds every version.
    let f = g.frontier().as_slice().to_vec();
    assert!(frontier_is_sorted(&f));
    assert_eq!(g.find_dominators(&f).as_slice(), f.as_slice());
    for t in 0..g.len() {
        assert!(g.frontier_contains_version(&f, t));
    }
    // Every version between the shadow of a run and its start is in the
    // history of the run's parents.
    for e in g.entries.0.iter() {
        assert!(e.shadow <= e.span.start);
        for x in e.shadow..e.span.start {
            assert!(g.frontier_contains_version(e.parents.as_slice(), x));
        }
    }
}

#[test]
fn runs_that_describe_no_graph_are_refused() {
    assert!(Graph::from_simple_items(&[]).is_some());
    // A gap.
    assert!(Graph::from_simple_items(&[entry(0..2, &[]), entry(3..4, &[])]).is_none());
    // An empty run.
    assert!(Graph::from_simple_items(&[entry(0..0, &[])]).is_none());
    // A parent that is not below the run.
    assert!(Graph::from_simple_items(&[entry(0..2, &[]), entry(2..4, &[2])]).is_none());
    // Parents out of order.
    assert!(Graph::from_simple_items(&[entry(0..2, &[]), entry(2..4, &[1, 0])]).is_none());
    assert!(Graph::from_simple_items(&[entry(0..2, &[]), entry(2..4, &[0, 1])]).is_some());
}

#[test]
fn conflict_zone_without_flags() {
    let g = fancy_graph();
    let zone = g.find_conflicting_simple(&[6], &[5]);
    assert_eq!(zone.common_ancestor.as_slice(), &[] as &[LV]);
    assert_eq!(zone.rev_spans.as_slice(), &[r(3..7), r(0..2)]);
    let zone = g.find_conflicting_simple(&[9], &[2, 8]);
    assert_eq!(zone.common_ancestor.as_slice(), &[2, 8]);
    assert_eq!(zone.rev_spans.as_slice(), &[r(9..10)]);
}

#[test]
fn frontier_basics() {
    let mut f = Frontier::new_1(3);
    f.push(7);
    assert_eq!(f.len(), 2);
    assert_eq!(f.get(1), 7);
    assert!(f.contains(3) && !f.contains(4));
    assert!(f.eq_slice(&[3, 7]));
    assert!(!f.eq_slice(&[3]));
    let g = f.clone();
    f.reverse();
    assert_eq!(f.as_slice(), &[7, 3]);
    assert_eq!(g.as_slice(), &[3, 7]);
    assert!(Frontier::root().is_root());
    assert!(!g.is_root());
    assert!(frontier_is_sorted(&[1, 2, 9]));
    assert!(!frontier_is_sorted(&[1, 1]));
    let mut list = RangeList::new();
    assert!(list.is_empty());
    assert!(!list.push_reversed_rle(r(5..7)));
    assert!(list.push_reversed_rle(r(3..5)));
    assert!(!list.push_reversed_rle(r(0..2)));
    list.push(r(9..10));
    assert_eq!(list.len(), 3);
    assert_eq!(list.get(0), r(3..7));
    list.reverse();
    assert_eq!(list.as_slice(), &[r(9..10), r(0..2), r(3..7)]);
}
