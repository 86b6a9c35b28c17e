use diamond_types::content_tree::cursor::{crdt_doc_root, CRDTLocation, Entry};
use diamond_types::content_tree::{
    measure, ContentTree, Cursor, MetricKind, Node, NodeInternal, NodeLeaf, TreeEntry,
};

fn e(agent: u32, seq: u32, len: i32) -> Entry {
    Entry { loc: CRDTLocation { agent, seq }, len }
}

fn leaf(parent: usize, next: Option<usize>, data: Vec<Entry>) -> Node<Entry> {
    Node::Leaf(NodeLeaf { parent: Some(parent), data, next })
}

fn total(kind: MetricKind, data: &[Entry]) -> usize {
    data.iter().map(|x| measure(kind, x)).sum()
}

/// A tree of three levels:
///
/// ```text
///            0
///        /       \
///       1         2
///     / | \      / \
///    3  4  5    6   7
/// ```
fn sample_tree(kind: MetricKind) -> ContentTree<Entry> {
    let leaves: Vec<Vec<Entry>> = vec![
        vec![e(0, 0, 3), e(1, 0, -2), e(0, 3, 1)],
        vec![e(2, 0, -4)],
        vec![e(0, 4, 2), e(2, 4, 5)],
        vec![e(1, 2, 1), e(1, 3, -1), e(1, 4, 1)],
        vec![e(3, 0, 10)],
    ];
    let t: Vec<usize> = leaves.iter().map(|l| total(kind, l)).collect();
    let nodes = vec![
        Node::Internal(NodeInternal {
            parent: None,
            height: 2,
            children: vec![(t[0] + t[1] + t[2], 1), (t[3] + t[4], 2)],
        }),
        Node::Internal(NodeInternal {
            parent: Some(0),
            height: 1,
            children: vec![(t[0], 3), (t[1], 4), (t[2], 5)],
        }),
        Node::Internal(NodeInternal {
            parent: Some(0),
            height: 1,
            children: vec![(t[3], 6), (t[4], 7)],
        }),
        leaf(1, Some(4), leaves[0].clone()),
        leaf(1, Some(5), leaves[1].clone()),
        leaf(1, Some(6), leaves[2].clone()),
        leaf(2, Some(7), leaves[3].clone()),
        leaf(2, None, leaves[4].clone()),
    ];
    let tree = ContentTree { nodes, root: 0, count: t.iter().sum(), metric: kind };
    assert!(tree.check());
    tree
}

/// The runs of the tree in the order of the document, each with its leaf
/// and its place in the leaf.
fn all_entries(tree: &ContentTree<Entry>) -> Vec<(usize, usize, Entry)> {
    let mut out = Vec::new();
    let mut c = Cursor::new(tree.descend_first(tree.root), 0, 0);
    loop {
        out.push((c.node, c.idx, *tree.get_entry(&c)));
        if !c.next_entry(tree) {
            break;
        }
        assert_eq!(c.offset, 0);
    }
    out
}

#[test]
fn a_new_tree_is_one_empty_leaf() {
    let tree: ContentTree<Entry> = ContentTree::new(MetricKind::RawLen);
    assert!(tree.check());
    assert_eq!(tree.count, 0);
    assert_eq!(tree.nodes.len(), 1);
    assert_eq!(tree.leaf_len(0), 0);
    assert_eq!(tree.adjacent_leaf_by_traversal(0, true), None);
    assert_eq!(tree.adjacent_leaf_by_traversal(0, false), None);
    assert_eq!(NodeLeaf::count_items(&tree, 0), 0);
    assert_eq!(tree.cursor_at_offset(0, false), None);
}

#[test]
fn leaves_follow_each_other_in_order() {
    let tree = sample_tree(MetricKind::RawLen);
    let order = [3, 4, 5, 6, 7];
    for w in order.windows(2) {
        assert_eq!(tree.adjacent_leaf_by_traversal(w[0], true), Some(w[1]));
        assert_eq!(tree.adjacent_leaf_by_traversal(w[1], false), Some(w[0]));
        assert_eq!(NodeLeaf::prev_leaf(&tree, w[1]), Some(w[0]));
        assert_eq!(tree.leaf_ref(w[0]).next_leaf(), Some(w[1]));
    }
    assert_eq!(tree.adjacent_leaf_by_traversal(7, true), None);
    assert_eq!(tree.adjacent_leaf_by_traversal(3, false), None);
    assert_eq!(tree.descend_first(0), 3);
    assert_eq!(tree.descend_last(0), 7);
    assert_eq!(tree.descend_first(2), 6);
    assert_eq!(tree.descend_last(1), 5);
}

#[test]
fn the_count_is_the_measure_of_all_runs() {
    for kind in [MetricKind::RawLen, MetricKind::ContentLen] {
        let tree = sample_tree(kind);
        let sum: usize = all_entries(&tree).iter().map(|(_, _, x)| measure(kind, x)).sum();
        assert_eq!(tree.count, sum);
        for leaf in 3..8 {
            assert_eq!(
                NodeLeaf::count_items(&tree, leaf),
                total(kind, tree.leaf_ref(leaf).as_slice())
            );
        }
    }
    assert_eq!(sample_tree(MetricKind::RawLen).count, 30);
    assert_eq!(sample_tree(MetricKind::ContentLen).count, 23);
}

#[test]
fn moving_back_and_forth_returns_to_the_run() {
    let tree = sample_tree(MetricKind::RawLen);
    let entries = all_entries(&tree);
    assert_eq!(entries.len(), 10);
    assert_eq!(entries[3], (4, 0, e(2, 0, -4)));
    for (i, &(node, idx, _)) in entries.iter().enumerate() {
        // Any number of steps back, then as many forward.
        for steps in 0..=i {
            let mut c = Cursor::new(node, idx, 0);
            for k in 0..steps {
                assert!(c.prev_entry(&tree));
                let (n, j, run) = entries[i - k - 1];
                assert_eq!((c.node, c.idx, c.offset), (n, j, run.get_seq_len()));
            }
            for _ in 0..steps {
                assert!(c.next_entry(&tree));
            }
            assert_eq!(c, Cursor::new(node, idx, 0));
        }
        let mut c = Cursor::new(node, idx, 0);
        assert_eq!(c.prev_entry(&tree), i > 0);
        let mut c = Cursor::new(node, idx, 0);
        assert_eq!(c.next_entry(&tree), i + 1 < entries.len());
        if i + 1 == entries.len() {
            assert_eq!(c, Cursor::new(node, idx, 0));
        }
    }
}

#[test]
fn positions_and_cursors_agree() {
    for kind in [MetricKind::RawLen, MetricKind::ContentLen] {
        let tree = sample_tree(kind);
        for pos in 0..tree.count {
            let c = tree.cursor_at_offset(pos, false).expect("a place within the document");
            assert_eq!(tree.get_pos(&c), pos);
            assert!(c.offset < measure(kind, tree.get_entry(&c)));
        }
        for pos in 1..=tree.count {
            let c = tree.cursor_at_offset(pos, true).expect("a place within the document");
            assert_eq!(tree.get_pos(&c), pos);
            assert!(c.offset > 0);
        }
        assert_eq!(tree.cursor_at_offset(tree.count, false), None);
        assert_eq!(tree.cursor_at_offset(tree.count + 1, true), None);
    }
    let tree = sample_tree(MetricKind::RawLen);
    assert_eq!(tree.cursor_at_offset(0, false), Some(Cursor::new(3, 0, 0)));
    assert_eq!(tree.cursor_at_offset(4, false), Some(Cursor::new(3, 1, 1)));
    assert_eq!(tree.cursor_at_offset(3, true), Some(Cursor::new(3, 0, 3)));
    assert_eq!(tree.cursor_at_offset(6, false), Some(Cursor::new(4, 0, 0)));
    assert_eq!(tree.cursor_at_offset(29, false), Some(Cursor::new(7, 0, 9)));
    assert_eq!(tree.get_pos(&Cursor::new(5, 1, 2)), 14);
    let tree = sample_tree(MetricKind::ContentLen);
    // Deleted runs do not count, and the offset in one adds nothing.
    assert_eq!(tree.get_pos(&Cursor::new(3, 1, 2)), 3);
    assert_eq!(tree.get_pos(&Cursor::new(5, 0, 0)), 4);
    assert_eq!(tree.cursor_at_offset(3, false), Some(Cursor::new(3, 2, 0)));
}

#[test]
fn find_offset_in_a_leaf() {
    let tree = sample_tree(MetricKind::RawLen);
    let l = tree.leaf_ref(3);
    assert_eq!(l.len_entries(), 3);
    assert!(!l.has_root_as_parent());
    assert_eq!(l.find_offset(0, false, MetricKind::RawLen), Some((0, 0)));
    assert_eq!(l.find_offset(3, false, MetricKind::RawLen), Some((1, 0)));
    assert_eq!(l.find_offset(3, true, MetricKind::RawLen), Some((0, 3)));
    assert_eq!(l.find_offset(5, false, MetricKind::RawLen), Some((2, 0)));
    assert_eq!(l.find_offset(6, false, MetricKind::RawLen), Some((3, 0)));
    assert_eq!(l.find_offset(6, true, MetricKind::RawLen), Some((2, 1)));
    assert_eq!(l.find_offset(7, true, MetricKind::RawLen), None);
    assert_eq!(l.find_offset(3, false, MetricKind::ContentLen), Some((2, 0)));
    assert_eq!(l.find_offset(3, true, MetricKind::ContentLen), Some((0, 3)));
    assert_eq!(l.find_offset(4, false, MetricKind::ContentLen), Some((3, 0)));
    assert_eq!(l.sum_entries(MetricKind::ContentLen), 4);
}

#[test]
fn inner_nodes_find_their_children() {
    let tree = sample_tree(MetricKind::RawLen);
    let n = tree.internal_ref(1);
    assert_eq!(n.count_children(), 3);
    assert_eq!(n.find_child(4), Some(1));
    assert_eq!(n.find_child(6), None);
    assert_eq!(n.get_child(0, false), Some((0, 0, 3)));
    assert_eq!(n.get_child(6, false), Some((0, 1, 4)));
    assert_eq!(n.get_child(6, true), Some((6, 0, 3)));
    assert_eq!(n.get_child(16, false), Some((6, 2, 5)));
    assert_eq!(n.get_child(17, false), None);
    assert_eq!(n.get_child(17, true), Some((7, 2, 5)));
    assert_eq!(n.sum_before(2), 10);
    let mut fresh = NodeInternal::new_with_parent(Some(9), 1);
    fresh.splice_in(0, 5, 20);
    fresh.splice_in(0, 3, 21);
    fresh.splice_in(1, 4, 22);
    assert_eq!(fresh.children, vec![(3, 21), (4, 22), (5, 20)]);
    assert_eq!(fresh.parent, Some(9));
}

#[test]
fn a_change_in_a_leaf_is_flushed_to_the_root() {
    let mut tree = sample_tree(MetricKind::RawLen);
    // Take the run of four deleted items out of leaf 5.
    if let Node::Leaf(l) = &mut tree.nodes[5] {
        assert_eq!(l.data[1], e(2, 4, 5));
        l.splice_out(1);
        assert_eq!(l.data, vec![e(0, 4, 2)]);
    }
    assert!(!tree.check());
    let mut marker: isize = -5;
    NodeLeaf::flush_metric_update(&mut tree, 5, &mut marker);
    assert_eq!(marker, 0);
    assert!(tree.check());
    assert_eq!(tree.count, 25);
    assert_eq!(tree.internal_ref(0).children, vec![(12, 1), (13, 2)]);
    assert_eq!(tree.internal_ref(1).children, vec![(6, 3), (4, 4), (2, 5)]);

    if let Node::Leaf(l) = &mut tree.nodes[7] {
        l.data.push(e(3, 10, 7));
    }
    NodeLeaf::update_parent_count(&mut tree, 7, 7);
    assert!(tree.check());
    assert_eq!(tree.count, 32);
    assert_eq!(tree.get_pos(&Cursor::new(7, 1, 7)), 32);

    let mut l: NodeLeaf<Entry> = NodeLeaf::new(None);
    assert!(l.has_root_as_parent());
    l.data.push(e(0, 0, 1));
    l.clear_all();
    assert_eq!(l.len_entries(), 0);
    let l: NodeLeaf<Entry> = NodeLeaf::new_with_parent(Some(3), Some(4));
    assert_eq!((l.parent, l.next_leaf()), (Some(3), Some(4)));
}

#[test]
fn rolling_to_the_next_run() {
    let tree = sample_tree(MetricKind::RawLen);
    let mut c = Cursor::new(3, 0, 2);
    c.roll_to_next(&tree, false);
    assert_eq!(c, Cursor::new(3, 0, 2));
    let mut c = Cursor::new(3, 0, 3);
    c.roll_to_next(&tree, false);
    assert_eq!(c, Cursor::new(3, 1, 0));
    let mut c = Cursor::new(3, 2, 1);
    c.roll_to_next(&tree, false);
    assert_eq!(c, Cursor::new(4, 0, 0));
    let mut c = Cursor::new(3, 2, 1);
    c.roll_to_next(&tree, true);
    assert_eq!(c, Cursor::new(3, 3, 0));
    let mut c = Cursor::new(7, 0, 10);
    c.roll_to_next(&tree, false);
    assert_eq!(c, Cursor::new(7, 1, 0));
}

#[test]
fn telling_the_item_at_a_cursor() {
    let tree = sample_tree(MetricKind::RawLen);
    // The third run of the first leaf, one item in.
    assert_eq!(Cursor::new(3, 2, 1).tell(&tree), CRDTLocation { agent: 0, seq: 4 });
    // A deleted run is passed over, and so is the first run of a leaf.
    assert_eq!(Cursor::new(6, 1, 0).tell(&tree), CRDTLocation { agent: 2, seq: 9 });
    assert_eq!(Cursor::new(6, 2, 0).tell(&tree), CRDTLocation { agent: 1, seq: 4 });
    assert_eq!(Cursor::new(4, 0, 2).tell(&tree), CRDTLocation { agent: 0, seq: 4 });
    assert_eq!(Cursor::new(3, 1, 1).tell(&tree), crdt_doc_root());
    assert_eq!(Cursor::new(3, 0, 0).tell(&tree), crdt_doc_root());
}

#[test]
fn broken_trees_do_not_pass_the_check() {
    let mut tree = sample_tree(MetricKind::RawLen);
    tree.count += 1;
    assert!(!tree.check());
    let mut tree = sample_tree(MetricKind::RawLen);
    if let Node::Internal(n) = &mut tree.nodes[1] {
        n.children[0].0 += 1;
    }
    assert!(!tree.check());
    let mut tree = sample_tree(MetricKind::RawLen);
    if let Node::Leaf(l) = &mut tree.nodes[4] {
        l.parent = Some(2);
    }
    assert!(!tree.check());
    let mut tree = sample_tree(MetricKind::RawLen);
    if let Node::Leaf(l) = &mut tree.nodes[4] {
        l.data.clear();
    }
    assert!(!tree.check());
    let mut tree = sample_tree(MetricKind::RawLen);
    if let Node::Internal(n) = &mut tree.nodes[2] {
        n.children[1].1 = 6;
    }
    assert!(!tree.check());
    let mut tree = sample_tree(MetricKind::RawLen);
    tree.root = 1;
    assert!(!tree.check());
}

#[test]
fn a_cursor_at_the_start_of_a_leaf() {
    let c = NodeLeaf::<Entry>::unsafe_cursor_at_start(4);
    assert_eq!(c, Cursor { node: 4, idx: 0, offset: 0 });
    let tree = sample_tree(MetricKind::RawLen);
    assert_eq!(*tree.get_entry(&c), e(2, 0, -4));
    assert_eq!(tree.get_pos(&c), 6);
}

#[test]
fn the_chain_of_the_leaves() {
    let mut tree = sample_tree(MetricKind::RawLen);
    assert!(tree.check_chain());
    // The leaf before each leaf names it as its next.
    for i in 3..8 {
        if let Some(p) = NodeLeaf::<Entry>::prev_leaf(&tree, i) {
            match &tree.nodes[p] {
                Node::Leaf(l) => assert_eq!(l.next_leaf(), Some(i)),
                Node::Internal(_) => panic!("a leaf stands before a leaf"),
            }
        } else {
            assert_eq!(i, 3);
        }
    }
    if let Node::Leaf(l) = &mut tree.nodes[4] {
        l.next = Some(6);
    }
    assert!(tree.check());
    assert!(!tree.check_chain());
}
