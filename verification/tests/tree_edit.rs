use diamond_types::content_tree::cursor::{CRDTLocation, Entry};
use diamond_types::content_tree::{
    measure, ContentTree, Cursor, MetricKind, Node, NodeInternal, NodeLeaf, INTERNAL_ENTRIES,
    LEAF_ENTRIES,
};

fn run(agent: u32, seq: u32, len: i32) -> Entry {
    Entry { loc: CRDTLocation { agent, seq }, len }
}

/// The runs of the tree in the order of the document, each with its leaf
/// and its place in the leaf.
fn runs_of(tree: &ContentTree<Entry>) -> Vec<(usize, usize, Entry)> {
    let mut out = Vec::new();
    let first = tree.descend_first(tree.root);
    if tree.leaf_len(first) == 0 {
        return out;
    }
    let mut c = Cursor::new(first, 0, 0);
    loop {
        out.push((c.node, c.idx, *tree.get_entry(&c)));
        if !c.next_entry(&tree) {
            break;
        }
    }
    out
}

/// The runs of the tree as the chain of leaves gives them.
fn runs_by_chain(tree: &ContentTree<Entry>) -> Vec<Entry> {
    let mut out = Vec::new();
    let mut at = Some(tree.descend_first(tree.root));
    while let Some(i) = at {
        match &tree.nodes[i] {
            Node::Leaf(l) => {
                out.extend(l.data.iter().copied());
                at = l.next;
            }
            Node::Internal(_) => panic!("the chain left the leaves"),
        }
    }
    out
}

fn measure_of(kind: MetricKind, runs: &[Entry]) -> usize {
    runs.iter().map(|x| measure(kind, x)).sum()
}

/// Puts `entry` before run `n` of the document.
fn insert_before(tree: &mut ContentTree<Entry>, n: usize, entry: Entry) -> (usize, usize) {
    let runs = runs_of(tree);
    let (leaf, idx) = if n < runs.len() {
        (runs[n].0, runs[n].1)
    } else if let Some(last) = runs.last() {
        (last.0, last.1 + 1)
    } else {
        (tree.root, 0)
    };
    tree.insert_at(leaf, idx, entry)
}

fn small_tree(kind: MetricKind) -> ContentTree<Entry> {
    let a = vec![run(0, 0, 3), run(1, 0, -2)];
    let b = vec![run(0, 3, 4)];
    let nodes = vec![
        Node::Internal(NodeInternal {
            parent: None,
            height: 1,
            children: vec![(measure_of(kind, &a), 1), (measure_of(kind, &b), 2)],
        }),
        Node::Leaf(NodeLeaf { parent: Some(0), data: a.clone(), next: Some(2) }),
        Node::Leaf(NodeLeaf { parent: Some(0), data: b.clone(), next: None }),
    ];
    let count = measure_of(kind, &a) + measure_of(kind, &b);
    let tree = ContentTree { nodes, root: 0, count, metric: kind };
    assert!(tree.check());
    tree
}

#[test]
fn a_run_goes_into_a_leaf_with_room() {
    let mut tree = small_tree(MetricKind::RawLen);
    tree.insert_in_leaf(1, 1, run(2, 0, 5));
    assert!(tree.check());
    assert_eq!(tree.count, 14);
    let runs: Vec<Entry> = runs_of(&tree).iter().map(|x| x.2).collect();
    assert_eq!(runs, vec![run(0, 0, 3), run(2, 0, 5), run(1, 0, -2), run(0, 3, 4)]);
    match &tree.nodes[0] {
        Node::Internal(n) => assert_eq!(n.children, vec![(10, 1), (4, 2)]),
        Node::Leaf(_) => panic!("the root is an inner node"),
    }
}

#[test]
fn a_deleted_run_adds_nothing_to_the_content() {
    let mut tree = small_tree(MetricKind::ContentLen);
    assert_eq!(tree.count, 7);
    tree.insert_in_leaf(2, 0, run(2, 0, -5));
    assert!(tree.check());
    assert_eq!(tree.count, 7);
    tree.insert_in_leaf(2, 2, run(2, 5, 6));
    assert!(tree.check());
    assert_eq!(tree.count, 13);
}

#[test]
fn a_run_is_taken_out_of_a_leaf() {
    let mut tree = small_tree(MetricKind::RawLen);
    let gone = tree.remove_from_leaf(1, 0);
    assert_eq!(gone, run(0, 0, 3));
    assert!(tree.check());
    assert_eq!(tree.count, 6);
    let runs: Vec<Entry> = runs_of(&tree).iter().map(|x| x.2).collect();
    assert_eq!(runs, vec![run(1, 0, -2), run(0, 3, 4)]);
}

#[test]
fn a_new_root_stands_above_the_old_one() {
    let mut tree = small_tree(MetricKind::RawLen);
    let before: Vec<Entry> = runs_of(&tree).iter().map(|x| x.2).collect();
    tree.grow_root();
    assert!(tree.check());
    assert_eq!(tree.root, 3);
    assert_eq!(tree.count, 9);
    match &tree.nodes[3] {
        Node::Internal(n) => {
            assert_eq!(n.height, 2);
            assert_eq!(n.parent, None);
            assert_eq!(n.children, vec![(9, 0)]);
        }
        Node::Leaf(_) => panic!("the new root is an inner node"),
    }
    assert_eq!(tree.nodes[0].parent(), Some(3));
    let after: Vec<Entry> = runs_of(&tree).iter().map(|x| x.2).collect();
    assert_eq!(after, before);
}

#[test]
fn a_leaf_is_cut_in_two() {
    let mut tree = small_tree(MetricKind::RawLen);
    let y = tree.split_leaf(1);
    assert_eq!(y, 3);
    assert!(tree.check());
    match &tree.nodes[0] {
        Node::Internal(n) => assert_eq!(n.children, vec![(3, 1), (2, 3), (4, 2)]),
        Node::Leaf(_) => panic!("the root is an inner node"),
    }
    match (&tree.nodes[1], &tree.nodes[3]) {
        (Node::Leaf(a), Node::Leaf(b)) => {
            assert_eq!(a.data, vec![run(0, 0, 3)]);
            assert_eq!(a.next, Some(3));
            assert_eq!(b.data, vec![run(1, 0, -2)]);
            assert_eq!(b.next, Some(2));
            assert_eq!(b.parent, Some(0));
        }
        _ => panic!("both halves are leaves"),
    }
    assert_eq!(runs_by_chain(&tree), vec![run(0, 0, 3), run(1, 0, -2), run(0, 3, 4)]);
}

#[test]
fn an_inner_node_is_cut_in_two() {
    let mut tree = small_tree(MetricKind::RawLen);
    tree.grow_root();
    let y = tree.split_internal(0);
    assert_eq!(y, 4);
    assert!(tree.check());
    match &tree.nodes[3] {
        Node::Internal(n) => assert_eq!(n.children, vec![(5, 0), (4, 4)]),
        Node::Leaf(_) => panic!("the root is an inner node"),
    }
    match (&tree.nodes[0], &tree.nodes[4]) {
        (Node::Internal(a), Node::Internal(b)) => {
            assert_eq!(a.children, vec![(5, 1)]);
            assert_eq!(b.children, vec![(4, 2)]);
            assert_eq!(b.height, 1);
            assert_eq!(b.parent, Some(3));
        }
        _ => panic!("both halves are inner nodes"),
    }
    assert_eq!(tree.nodes[2].parent(), Some(4));
    assert_eq!(tree.nodes[1].parent(), Some(0));
    let runs: Vec<Entry> = runs_of(&tree).iter().map(|x| x.2).collect();
    assert_eq!(runs, vec![run(0, 0, 3), run(1, 0, -2), run(0, 3, 4)]);
}

#[test]
fn a_full_leaf_is_cut_before_a_run_goes_in() {
    let mut tree: ContentTree<Entry> = ContentTree::new(MetricKind::RawLen);
    let mut model = Vec::new();
    for k in 0..LEAF_ENTRIES {
        let r = run(0, k as u32, 1);
        assert_eq!(tree.insert_at(tree.root, k, r), (0, k));
        model.push(r);
    }
    assert_eq!(tree.nodes.len(), 1);
    // The leaf is full: the next run makes a root above it and a second leaf.
    let r = run(1, 0, 2);
    let at = tree.insert_at(0, 20, r);
    model.insert(20, r);
    assert_eq!(at, (2, 4));
    assert_eq!(tree.nodes.len(), 3);
    assert_eq!(tree.root, 1);
    assert!(tree.check());
    assert_eq!(tree.count, LEAF_ENTRIES + 2);
    let runs: Vec<Entry> = runs_of(&tree).iter().map(|x| x.2).collect();
    assert_eq!(runs, model);
    assert_eq!(runs_by_chain(&tree), model);
}

#[test]
fn many_runs_put_in_at_the_end() {
    let mut tree: ContentTree<Entry> = ContentTree::new(MetricKind::ContentLen);
    let mut model = Vec::new();
    let mut at = (tree.root, 0);
    let n = LEAF_ENTRIES * INTERNAL_ENTRIES * 3;
    for k in 0..n {
        let len = if k % 3 == 0 { -2 } else { (k % 5) as i32 + 1 };
        let r = run(0, k as u32, len);
        at = tree.insert_at(at.0, at.1, r);
        at.1 += 1;
        model.push(r);
    }
    assert!(tree.check());
    assert_eq!(tree.count, measure_of(MetricKind::ContentLen, &model));
    assert_eq!(runs_by_chain(&tree), model);
    let runs: Vec<Entry> = runs_of(&tree).iter().map(|x| x.2).collect();
    assert_eq!(runs, model);
    // Three levels at least: the root was cut more than once.
    match &tree.nodes[tree.root] {
        Node::Internal(n) => assert!(n.height >= 2),
        Node::Leaf(_) => panic!("the root is an inner node"),
    }
}

#[test]
fn runs_put_in_anywhere_stand_where_they_were_put() {
    let mut tree: ContentTree<Entry> = ContentTree::new(MetricKind::RawLen);
    let mut model: Vec<Entry> = Vec::new();
    let mut seed: u64 = 12345;
    for k in 0..700u32 {
        seed = seed.wrapping_mul(6364136223846793005).wrapping_add(1442695040888963407);
        let n = ((seed >> 33) as usize) % (model.len() + 1);
        let r = run(k % 4, k, (k % 7) as i32 - 3);
        let at = insert_before(&mut tree, n, r);
        model.insert(n, r);
        match &tree.nodes[at.0] {
            Node::Leaf(l) => assert_eq!(l.data[at.1], r),
            Node::Internal(_) => panic!("a run stands in a leaf"),
        }
        if k % 50 == 0 {
            assert!(tree.check());
        }
    }
    assert!(tree.check());
    assert!(tree.check_chain());
    assert_eq!(tree.count, measure_of(MetricKind::RawLen, &model));
    let runs: Vec<Entry> = runs_of(&tree).iter().map(|x| x.2).collect();
    assert_eq!(runs, model);
    assert_eq!(runs_by_chain(&tree), model);
}

#[test]
fn positions_hold_after_runs_were_put_in() {
    let mut tree: ContentTree<Entry> = ContentTree::new(MetricKind::RawLen);
    let mut at = (tree.root, 0);
    for k in 0..200u32 {
        at = tree.insert_at(at.0, at.1, run(0, 2 * k, 2));
        at.1 += 1;
    }
    assert_eq!(tree.count, 400);
    for pos in [0usize, 1, 2, 63, 64, 65, 199, 398, 399] {
        let c = tree.cursor_at_offset(pos, false).expect("a place in the document");
        assert_eq!(tree.get_pos(&c), pos);
        let r = tree.get_entry(&c);
        assert_eq!(r.loc.seq as usize + c.offset, pos);
    }
    assert!(tree.cursor_at_offset(400, false).is_none());
}

#[test]
fn a_run_takes_the_place_of_another() {
    let mut tree = small_tree(MetricKind::ContentLen);
    assert_eq!(tree.count, 7);
    // The run that comes is deleted: it takes three items out of the content.
    let gone = tree.replace_in_leaf(1, 0, run(0, 0, -3));
    assert_eq!(gone, run(0, 0, 3));
    assert!(tree.check());
    assert_eq!(tree.count, 4);
    let gone = tree.replace_in_leaf(2, 0, run(5, 0, 9));
    assert_eq!(gone, run(0, 3, 4));
    assert!(tree.check());
    assert_eq!(tree.count, 9);
    let runs: Vec<Entry> = runs_of(&tree).iter().map(|x| x.2).collect();
    assert_eq!(runs, vec![run(0, 0, -3), run(1, 0, -2), run(5, 0, 9)]);
    match &tree.nodes[0] {
        Node::Internal(n) => assert_eq!(n.children, vec![(0, 1), (9, 2)]),
        Node::Leaf(_) => panic!("the root is an inner node"),
    }
}

#[test]
fn room_is_made_above_a_full_node() {
    let mut tree: ContentTree<Entry> = ContentTree::new(MetricKind::RawLen);
    let mut at = (tree.root, 0);
    let mut k = 0u32;
    // Fill the tree until its root, an inner node, is full.
    loop {
        if let Node::Internal(n) = &tree.nodes[tree.root] {
            if n.children.len() == INTERNAL_ENTRIES {
                break;
            }
        }
        at = tree.insert_at(at.0, at.1, run(0, k, 1));
        at.1 += 1;
        k += 1;
    }
    let before: Vec<Entry> = runs_of(&tree).iter().map(|x| x.2).collect();
    let nodes = tree.nodes.len();
    let old_root = tree.root;
    let first = tree.descend_first(tree.root);
    tree.make_room_above(first);
    assert!(tree.check());
    // A new root, and a node beside the old one.
    assert_eq!(tree.nodes.len(), nodes + 2);
    assert_ne!(tree.root, old_root);
    let above = tree.nodes[first].parent().expect("a node above the leaf");
    match &tree.nodes[above] {
        Node::Internal(n) => assert_eq!(n.children.len(), INTERNAL_ENTRIES / 2),
        Node::Leaf(_) => panic!("a leaf stands below an inner node"),
    }
    let after: Vec<Entry> = runs_of(&tree).iter().map(|x| x.2).collect();
    assert_eq!(after, before);
    assert_eq!(tree.count, before.len());
}
