//! Moving through a tree from leaf to leaf and from run to run.

use crate::content_tree::internal::{cache_before, lemma_cache_before_step};
use crate::content_tree::{
    measure, measure_sum, spec_measure, ContentTree, Cursor, MetricKind, Node, NodeId, NodeLeaf,
    TreeEntry, LEAF_ENTRIES,
};
use vstd::prelude::*;

verus! {

impl<E: TreeEntry> ContentTree<E> {
    /// The place of node `i` among the children of the node above it.
    pub open spec fn slot_of(&self, i: NodeId) -> int {
        let p = self.nodes@[i as int].spec_parent().unwrap();
        choose|k: int| 0 <= k < self.children(p).len() && (#[trigger] self.children(p)[k]).1 == i
    }

    /// The first leaf below node `i`.
    pub open spec fn first_leaf(&self, i: NodeId) -> NodeId
        decreases self.height(i),
    {
        if self.is_internal(i) && self.children(i).len() > 0 && self.children(i)[0].1
            < self.nodes@.len() && self.height(self.children(i)[0].1) < self.height(i) {
            self.first_leaf(self.children(i)[0].1)
        } else {
            i
        }
    }

    /// The last leaf below node `i`.
    pub open spec fn last_leaf(&self, i: NodeId) -> NodeId
        decreases self.height(i),
    {
        if self.is_internal(i) && self.children(i).len() > 0 && self.children(i).last().1
            < self.nodes@.len() && self.height(self.children(i).last().1) < self.height(i) {
            self.last_leaf(self.children(i).last().1)
        } else {
            i
        }
    }

    /// The node beside the nearest node above `i`, `i` itself counted,
    /// that has a node beside it in the given direction, within the node
    /// above it; `None` where `i` is on the edge of the tree.
    pub open spec fn beside(&self, i: NodeId, forward: bool) -> Option<NodeId>
        decreases self.height(self.root) - self.height(i),
    {
        match self.nodes@[i as int].spec_parent() {
            None => None,
            Some(p) => {
                let k = self.slot_of(i);
                if forward && k + 1 < self.children(p).len() {
                    Some(self.children(p)[k + 1].1)
                } else if !forward && k > 0 {
                    Some(self.children(p)[k - 1].1)
                } else if p < self.nodes@.len() && self.height(i) < self.height(p) <= self.height(
                    self.root,
                ) {
                    self.beside(p, forward)
                } else {
                    None
                }
            },
        }
    }

    /// The leaf after (`forward`) or before the given leaf in the order of
    /// the document.
    pub open spec fn adjacent_leaf(&self, leaf: NodeId, forward: bool) -> Option<NodeId> {
        match self.beside(leaf, forward) {
            None => None,
            Some(s) => Some(
                if forward {
                    self.first_leaf(s)
                } else {
                    self.last_leaf(s)
                },
            ),
        }
    }

    /// A node of the tree other than the root is a child of the node above
    /// it, at the place `slot_of`.
    pub proof fn lemma_slot(&self, i: NodeId)
        requires
            self.links_wf(),
            i < self.nodes@.len(),
            i != self.root,
        ensures
            self.nodes@[i as int].spec_parent().is_some(),
            self.is_internal(self.nodes@[i as int].spec_parent().unwrap()),
            0 <= self.slot_of(i) < self.children(self.nodes@[i as int].spec_parent().unwrap()).len(),
            self.children(self.nodes@[i as int].spec_parent().unwrap())[self.slot_of(i)].1 == i,
            self.height(self.nodes@[i as int].spec_parent().unwrap()) == self.height(i) + 1,
    {
        assert(self.has_parent(i));
        let p = self.nodes@[i as int].spec_parent().unwrap();
        assert(self.is_internal(p));
        assert(self.internal_wf(p));
        let k = self.slot_of(i);
        assert(self.children(p)[k].1 == i);
    }

    /// The root is the only node without a node above it.
    pub proof fn lemma_root_only(&self, i: NodeId)
        requires
            self.links_wf(),
            i < self.nodes@.len(),
        ensures
            self.nodes@[i as int].spec_parent().is_none() == (i == self.root),
    {
        if i != self.root {
            assert(self.has_parent(i));
        }
    }

    /// The children of an inner node are nodes of the tree, one level
    /// below it.
    pub proof fn lemma_child(&self, i: NodeId, k: int)
        requires
            self.links_wf(),
            self.is_internal(i),
            0 <= k < self.children(i).len(),
        ensures
            self.children(i)[k].1 < self.nodes@.len(),
            self.children(i)[k].1 != self.root,
            self.nodes@[self.children(i)[k].1 as int].spec_parent() == Some(i),
            self.height(self.children(i)[k].1) + 1 == self.height(i),
            self.slot_of(self.children(i)[k].1) == k,
    {
        assert(self.internal_wf(i));
        let c = self.children(i)[k].1;
        let j = self.slot_of(c);
        assert(self.children(i)[j].1 == c);
        if j < k {
            assert(self.children(i)[j].1 != self.children(i)[k].1);
        } else if k < j {
            assert(self.children(i)[k].1 != self.children(i)[j].1);
        }
    }

    /// The first and the last leaf below a node are leaves of the tree,
    /// and not empty unless the node is the root.
    pub proof fn lemma_edge_leaves(&self, i: NodeId)
        requires
            self.links_wf(),
            i < self.nodes@.len(),
        ensures
            self.is_leaf(self.first_leaf(i)),
            self.is_leaf(self.last_leaf(i)),
            i != self.root ==> self.first_leaf(i) != self.root && self.last_leaf(i) != self.root,
        decreases self.height(i),
    {
        if self.is_internal(i) {
            assert(self.internal_wf(i));
            let n = self.children(i).len() as int;
            self.lemma_child(i, 0);
            self.lemma_child(i, n - 1);
            self.lemma_edge_leaves(self.children(i)[0].1);
            self.lemma_edge_leaves(self.children(i)[n - 1].1);
        }
    }

    /// The first leaf below node `i`.
    pub fn descend_first(&self, i: NodeId) -> (r: NodeId)
        requires
            self.links_wf(),
            i < self.nodes@.len(),
        ensures
            r == self.first_leaf(i),
            self.is_leaf(r),
            i != self.root ==> r != self.root,
    {
        let mut node = i;
        loop
            invariant
                self.links_wf(),
                node < self.nodes@.len(),
                self.first_leaf(node) == self.first_leaf(i),
                i != self.root ==> node != self.root,
            ensures
                self.is_leaf(node),
                node == self.first_leaf(i),
            decreases self.height(node),
        {
            match &self.nodes[node] {
                Node::Leaf(_) => {
                    break ;
                },
                Node::Internal(n) => {
                    proof {
                        assert(self.is_internal(node));
                        assert(self.internal_wf(node));
                        self.lemma_child(node, 0);
                    }
                    node = n.children[0].1;
                },
            }
        }
        node
    }

    /// The last leaf below node `i`.
    pub fn descend_last(&self, i: NodeId) -> (r: NodeId)
        requires
            self.links_wf(),
            i < self.nodes@.len(),
        ensures
            r == self.last_leaf(i),
            self.is_leaf(r),
            i != self.root ==> r != self.root,
    {
        let mut node = i;
        loop
            invariant
                self.links_wf(),
                node < self.nodes@.len(),
                self.last_leaf(node) == self.last_leaf(i),
                i != self.root ==> node != self.root,
            ensures
                self.is_leaf(node),
                node == self.last_leaf(i),
            decreases self.height(node),
        {
            match &self.nodes[node] {
                Node::Leaf(_) => {
                    break ;
                },
                Node::Internal(n) => {
                    proof {
                        assert(self.is_internal(node));
                        assert(self.internal_wf(node));
                        self.lemma_child(node, n.children@.len() - 1);
                    }
                    let num_children = n.count_children();
                    node = n.children[num_children - 1].1;
                },
            }
        }
        node
    }

    /// The leaf after (`direction_forward`) or before the given leaf,
    /// found by going up to the nearest node with a node beside it and
    /// down again along the near edge.
    #[verifier::rlimit(50)]
    pub fn adjacent_leaf_by_traversal(&self, leaf: NodeId, direction_forward: bool) -> (r: Option<
        NodeId,
    >)
        requires
            self.links_wf(),
            self.is_leaf(leaf),
        ensures
            r == self.adjacent_leaf(leaf, direction_forward),
            match r {
                Some(n) => self.is_leaf(n) && n != self.root && n != leaf,
                None => true,
            },
    {
        let mut node = leaf;
        let mut found: Option<NodeId> = None;
        // Go up as far as we must to find a node beside us.
        loop
            invariant_except_break
                found.is_none(),
            invariant
                self.links_wf(),
                self.is_leaf(leaf),
                node < self.nodes@.len(),
                self.beside(node, direction_forward) == self.beside(leaf, direction_forward),
                self.on_path(leaf, node),
            ensures
                found == self.beside(leaf, direction_forward),
                match found {
                    Some(s) => s < self.nodes@.len() && s != self.root && !self.on_path(leaf, s)
                        && self.on_path(leaf, self.nodes@[s as int].spec_parent().unwrap()),
                    None => true,
                },
            decreases self.height(self.root) - self.height(node),
        {
            let parent = match self.nodes[node].parent() {
                None => {
                    break ;
                },
                Some(p) => p,
            };
            proof {
                self.lemma_root_only(node);
                self.lemma_slot(node);
                assert(self.internal_wf(parent));
            }
            let node_ref = match &self.nodes[parent] {
                Node::Internal(n) => n,
                Node::Leaf(_) => {
                    // A leaf has no children.
                    break ;
                },
            };
            let idx = match node_ref.find_child(node) {
                Some(idx) => idx,
                None => {
                    break ;
                },
            };
            proof {
                self.lemma_child(parent, idx as int);
            }
            let next_idx: Option<usize> = if direction_forward {
                if idx + 1 < node_ref.count_children() {
                    Some(idx + 1)
                } else {
                    None
                }
            } else if idx > 0 {
                Some(idx - 1)
            } else {
                None
            };
            match next_idx {
                Some(next_idx) => {
                    // Now we can descend from here.
                    found = Some(node_ref.children[next_idx].1);
                    proof {
                        self.lemma_child(parent, next_idx as int);
                        self.lemma_path_step(leaf, node);
                        self.lemma_off_path(leaf, node, next_idx as int);
                    }
                    break ;
                },
                None => {
                    // Keep climbing.
                    proof {
                        self.lemma_path_step(leaf, node);
                    }
                    node = parent;
                },
            }
        }
        match found {
            None => None,
            Some(s) => {
                let r = if direction_forward {
                    self.descend_first(s)
                } else {
                    self.descend_last(s)
                };
                proof {
                    self.lemma_below_off_path(leaf, s, r);
                }
                Some(r)
            },
        }
    }

    /// Whether node `a` is `leaf` or a node above it.
    pub open spec fn on_path(&self, leaf: NodeId, a: NodeId) -> bool
        decreases self.height(self.root) - self.height(leaf),
    {
        leaf == a || match self.nodes@[leaf as int].spec_parent() {
            Some(p) => p < self.nodes@.len() && self.height(leaf) < self.height(p) <= self.height(
                self.root,
            ) && self.on_path(p, a),
            None => false,
        }
    }

    /// The node above a node on the path is on the path.
    pub proof fn lemma_path_step(&self, leaf: NodeId, a: NodeId)
        requires
            self.links_wf(),
            leaf < self.nodes@.len(),
            a < self.nodes@.len(),
            self.on_path(leaf, a),
            a != self.root,
        ensures
            self.on_path(leaf, self.nodes@[a as int].spec_parent().unwrap()),
        decreases self.height(self.root) - self.height(leaf),
    {
        self.lemma_slot(a);
        let pa = self.nodes@[a as int].spec_parent().unwrap();
        if leaf == a {
            assert(self.on_path(pa, pa));
        } else {
            self.lemma_root_only(leaf);
            let p = self.nodes@[leaf as int].spec_parent().unwrap();
            self.lemma_path_step(p, a);
        }
    }

    /// What is on the path lies at or above the leaf, by height.
    pub proof fn lemma_path_height(&self, leaf: NodeId, a: NodeId)
        requires
            self.on_path(leaf, a),
        ensures
            self.height(leaf) <= self.height(a),
            self.height(leaf) == self.height(a) ==> leaf == a,
        decreases self.height(self.root) - self.height(leaf),
    {
        if leaf != a {
            let p = self.nodes@[leaf as int].spec_parent().unwrap();
            self.lemma_path_height(p, a);
        }
    }

    /// The path holds one node of each height, so a child of a node on
    /// the path other than the one that the path goes through is off it.
    pub proof fn lemma_off_path(&self, leaf: NodeId, a: NodeId, k: int)
        requires
            self.links_wf(),
            leaf < self.nodes@.len(),
            a < self.nodes@.len(),
            a != self.root,
            self.on_path(leaf, a),
            0 <= k < self.children(self.nodes@[a as int].spec_parent().unwrap()).len(),
            k != self.slot_of(a),
        ensures
            !self.on_path(
                leaf,
                self.children(self.nodes@[a as int].spec_parent().unwrap())[k].1,
            ),
    {
        self.lemma_slot(a);
        let p = self.nodes@[a as int].spec_parent().unwrap();
        let s = self.children(p)[k].1;
        self.lemma_child(p, k);
        self.lemma_child(p, self.slot_of(a));
        if self.on_path(leaf, s) {
            self.lemma_path_unique(leaf, a, s);
        }
    }

    /// Two nodes of one height on the path are one node.
    pub proof fn lemma_path_unique(&self, leaf: NodeId, a: NodeId, b: NodeId)
        requires
            self.on_path(leaf, a),
            self.on_path(leaf, b),
            self.height(a) == self.height(b),
        ensures
            a == b,
        decreases self.height(self.root) - self.height(leaf),
    {
        self.lemma_path_height(leaf, a);
        self.lemma_path_height(leaf, b);
        if leaf != a && leaf != b {
            let p = self.nodes@[leaf as int].spec_parent().unwrap();
            self.lemma_path_unique(p, a, b);
        }
    }

    /// A leaf below a node that is off the path of `leaf` is not `leaf`.
    pub proof fn lemma_below_off_path(&self, leaf: NodeId, s: NodeId, r: NodeId)
        requires
            self.links_wf(),
            self.is_leaf(leaf),
            s < self.nodes@.len(),
            !self.on_path(leaf, s),
            r == self.first_leaf(s) || r == self.last_leaf(s),
        ensures
            r != leaf,
    {
        if r == leaf {
            self.lemma_edge_on_path(s);
        }
    }

    /// A node is on the path of the first and of the last leaf below it.
    pub proof fn lemma_edge_on_path(&self, s: NodeId)
        requires
            self.links_wf(),
            s < self.nodes@.len(),
        ensures
            self.on_path(self.first_leaf(s), s),
            self.on_path(self.last_leaf(s), s),
        decreases self.height(s),
    {
        if self.is_internal(s) {
            assert(self.internal_wf(s));
            let n = self.children(s).len() as int;
            self.lemma_child(s, 0);
            self.lemma_child(s, n - 1);
            let c0 = self.children(s)[0].1;
            let c1 = self.children(s)[n - 1].1;
            self.lemma_edge_on_path(c0);
            self.lemma_edge_on_path(c1);
            self.lemma_edge_leaves(c0);
            self.lemma_edge_leaves(c1);
            self.lemma_path_step(self.first_leaf(c0), c0);
            self.lemma_path_step(self.last_leaf(c1), c1);
        }
    }
}

impl<E: TreeEntry> NodeLeaf<E> {
    /// The leaf before the leaf `me` of the tree.
    pub fn prev_leaf(tree: &ContentTree<E>, me: NodeId) -> (r: Option<NodeId>)
        requires
            tree.links_wf(),
            tree.is_leaf(me),
        ensures
            r == tree.adjacent_leaf(me, false),
            tree.chain_wf() ==> match r {
                Some(p) => tree.is_leaf(p) && tree.leaf(p).next == Some(me),
                None => true,
            },
    {
        proof {
            if tree.chain_wf() {
                tree.law_chain_links_neighbours(me);
            }
        }
        tree.adjacent_leaf_by_traversal(me, false)
    }
}

impl<E: TreeEntry> ContentTree<E> {
    /// Going to the last leaf below a node and on from there forwards is
    /// going on from the node, and likewise backwards from the first leaf.
    pub proof fn lemma_beside_edge(&self, x: NodeId)
        requires
            self.links_wf(),
            x < self.nodes@.len(),
        ensures
            self.beside(self.last_leaf(x), true) == self.beside(x, true),
            self.beside(self.first_leaf(x), false) == self.beside(x, false),
        decreases self.height(x),
    {
        if self.is_internal(x) {
            assert(self.internal_wf(x));
            let n = self.children(x).len() as int;
            self.lemma_child(x, 0);
            self.lemma_child(x, n - 1);
            self.lemma_beside_edge(self.children(x)[0].1);
            self.lemma_beside_edge(self.children(x)[n - 1].1);
            assert(self.height(x) <= self.height(self.root));
        }
    }

    /// Where there is a node beside `i` backwards, there is a node `a` at
    /// or above `i` that stands right after it under the same node, and
    /// `i` lies on the first edge below `a`.
    pub proof fn lemma_beside_back(&self, i: NodeId) -> (a: NodeId)
        requires
            self.links_wf(),
            i < self.nodes@.len(),
            self.beside(i, false).is_some(),
        ensures
            a < self.nodes@.len(),
            a != self.root,
            self.first_leaf(a) == self.first_leaf(i),
            self.slot_of(a) > 0,
            self.beside(i, false) == Some(
                self.children(self.nodes@[a as int].spec_parent().unwrap())[self.slot_of(a) - 1].1,
            ),
        decreases self.height(self.root) - self.height(i),
    {
        self.lemma_root_only(i);
        self.lemma_slot(i);
        let p = self.nodes@[i as int].spec_parent().unwrap();
        let k = self.slot_of(i);
        if k > 0 {
            i
        } else {
            assert(self.internal_wf(p));
            let a = self.lemma_beside_back(p);
            self.lemma_child(p, 0);
            a
        }
    }

    /// The same forwards: `a` stands right before the node beside `i`, and
    /// `i` lies on the last edge below `a`.
    pub proof fn lemma_beside_fwd(&self, i: NodeId) -> (a: NodeId)
        requires
            self.links_wf(),
            i < self.nodes@.len(),
            self.beside(i, true).is_some(),
        ensures
            a < self.nodes@.len(),
            a != self.root,
            self.last_leaf(a) == self.last_leaf(i),
            self.slot_of(a) + 1 < self.children(self.nodes@[a as int].spec_parent().unwrap()).len(),
            self.beside(i, true) == Some(
                self.children(self.nodes@[a as int].spec_parent().unwrap())[self.slot_of(a) + 1].1,
            ),
        decreases self.height(self.root) - self.height(i),
    {
        self.lemma_root_only(i);
        self.lemma_slot(i);
        let p = self.nodes@[i as int].spec_parent().unwrap();
        let k = self.slot_of(i);
        if k + 1 < self.children(p).len() {
            i
        } else {
            assert(self.internal_wf(p));
            let a = self.lemma_beside_fwd(p);
            self.lemma_child(p, k);
            assert(self.children(p).last() == self.children(p)[k]);
            a
        }
    }

    /// Going to the leaf before a leaf and then to the leaf after that
    /// leads back to the leaf.
    pub proof fn law_prev_then_next_leaf(&self, leaf: NodeId)
        requires
            self.links_wf(),
            self.is_leaf(leaf),
            self.adjacent_leaf(leaf, false).is_some(),
        ensures
            self.adjacent_leaf(self.adjacent_leaf(leaf, false).unwrap(), true) == Some(leaf),
    {
        let a = self.lemma_beside_back(leaf);
        self.lemma_slot(a);
        let p = self.nodes@[a as int].spec_parent().unwrap();
        let k = self.slot_of(a);
        let s = self.children(p)[k - 1].1;
        self.lemma_child(p, k - 1);
        self.lemma_child(p, k);
        self.lemma_beside_edge(s);
        assert(self.beside(s, true) == Some(a));
        assert(self.first_leaf(leaf) == leaf);
    }

    /// Going to the leaf after a leaf and then to the leaf before that
    /// leads back to the leaf.
    pub proof fn law_next_then_prev_leaf(&self, leaf: NodeId)
        requires
            self.links_wf(),
            self.is_leaf(leaf),
            self.adjacent_leaf(leaf, true).is_some(),
        ensures
            self.adjacent_leaf(self.adjacent_leaf(leaf, true).unwrap(), false) == Some(leaf),
    {
        let a = self.lemma_beside_fwd(leaf);
        self.lemma_slot(a);
        let p = self.nodes@[a as int].spec_parent().unwrap();
        let k = self.slot_of(a);
        let s = self.children(p)[k + 1].1;
        self.lemma_child(p, k + 1);
        self.lemma_child(p, k);
        self.lemma_beside_edge(s);
        assert(self.beside(s, false) == Some(a));
        assert(self.last_leaf(leaf) == leaf);
    }

    /// The cursor names a run of a leaf of the tree, and a place in it.
    pub open spec fn cursor_wf(&self, c: Cursor) -> bool {
        &&& self.is_leaf(c.node)
        &&& c.idx < self.leaf(c.node).data@.len()
        &&& c.offset <= self.leaf(c.node).data@[c.idx as int].spec_seq_len()
    }

    /// The run that the cursor names.
    pub open spec fn entry_at(&self, c: Cursor) -> E {
        self.leaf(c.node).data@[c.idx as int]
    }

    /// What moving to the leaf after (`next`) or before the cursor's leaf
    /// gives: the start of its first run, or the end of its last run.
    pub open spec fn traversed(&self, c: Cursor, next: bool) -> Option<Cursor> {
        match self.adjacent_leaf(c.node, next) {
            None => None,
            Some(n) => Some(
                if next {
                    Cursor { node: n, idx: 0, offset: 0 }
                } else {
                    Cursor {
                        node: n,
                        idx: (self.leaf(n).data@.len() - 1) as usize,
                        offset: self.leaf(n).data@.last().spec_seq_len() as usize,
                    }
                },
            ),
        }
    }

    /// What moving to the end of the run before the cursor's gives.
    pub open spec fn prev_of(&self, c: Cursor) -> Option<Cursor> {
        if c.idx > 0 {
            Some(
                Cursor {
                    node: c.node,
                    idx: (c.idx - 1) as usize,
                    offset: self.leaf(c.node).data@[c.idx - 1].spec_seq_len() as usize,
                },
            )
        } else {
            self.traversed(c, false)
        }
    }

    /// What moving to the start of the run after the cursor's gives.
    pub open spec fn next_of(&self, c: Cursor) -> Option<Cursor> {
        if c.idx + 1 < self.leaf(c.node).data@.len() {
            Some(Cursor { node: c.node, idx: (c.idx + 1) as usize, offset: 0 })
        } else {
            self.traversed(c, true)
        }
    }

    /// Moving back by one run and forward again leads to the start of the
    /// run that the cursor was in.
    pub proof fn law_prev_then_next_entry(&self, c: Cursor)
        requires
            self.links_wf(),
            self.cursor_wf(c),
            self.prev_of(c).is_some(),
        ensures
            self.cursor_wf(self.prev_of(c).unwrap()),
            self.next_of(self.prev_of(c).unwrap()) == Some(
                Cursor { node: c.node, idx: c.idx, offset: 0 },
            ),
    {
        if c.idx == 0 {
            self.law_prev_then_next_leaf(c.node);
            let m = self.adjacent_leaf(c.node, false).unwrap();
            self.lemma_adjacent_is_leaf(c.node, false);
            self.leaf(m).data@.last().lemma_lengths();
        } else {
            self.leaf(c.node).data@[c.idx - 1].lemma_lengths();
        }
    }

    /// Moving forward by one run and back again leads to the end of the
    /// run that the cursor was in.
    pub proof fn law_next_then_prev_entry(&self, c: Cursor)
        requires
            self.links_wf(),
            self.cursor_wf(c),
            self.next_of(c).is_some(),
        ensures
            self.cursor_wf(self.next_of(c).unwrap()),
            self.prev_of(self.next_of(c).unwrap()) == Some(
                Cursor {
                    node: c.node,
                    idx: c.idx,
                    offset: self.entry_at(c).spec_seq_len() as usize,
                },
            ),
    {
        self.entry_at(c).lemma_lengths();
        if c.idx + 1 >= self.leaf(c.node).data@.len() {
            self.law_next_then_prev_leaf(c.node);
            self.lemma_adjacent_is_leaf(c.node, true);
        }
    }

    /// The cursor after `n` moves back by one run each, if there are as
    /// many runs before it.
    pub open spec fn back_by(&self, c: Cursor, n: nat) -> Option<Cursor>
        decreases n,
    {
        if n == 0 {
            Some(c)
        } else {
            match self.prev_of(c) {
                Some(p) => self.back_by(p, (n - 1) as nat),
                None => None,
            }
        }
    }

    /// The cursor after `n` moves forward by one run each, if there are as
    /// many runs behind it.
    pub open spec fn forth_by(&self, c: Cursor, n: nat) -> Option<Cursor>
        decreases n,
    {
        if n == 0 {
            Some(c)
        } else {
            match self.forth_by(c, (n - 1) as nat) {
                Some(d) => self.next_of(d),
                None => None,
            }
        }
    }

    /// Moving back by any number of runs and forward by as many leads to
    /// the start of the run that the cursor was in: to the cursor itself
    /// where it stood at the start of a run.
    pub proof fn law_back_and_forth(&self, c: Cursor, n: nat)
        requires
            self.links_wf(),
            self.cursor_wf(c),
            n > 0,
            self.back_by(c, n).is_some(),
        ensures
            self.forth_by(self.back_by(c, n).unwrap(), n) == Some(
                Cursor { node: c.node, idx: c.idx, offset: 0 },
            ),
            c.offset == 0 ==> self.forth_by(self.back_by(c, n).unwrap(), n) == Some(c),
        decreases n,
    {
        let p = self.prev_of(c).unwrap();
        self.law_prev_then_next_entry(c);
        if n == 1 {
            assert(self.back_by(p, 0) == Some(p));
            assert(self.forth_by(p, 0) == Some(p));
        } else {
            let d = self.back_by(p, (n - 1) as nat).unwrap();
            self.law_back_and_forth(p, (n - 1) as nat);
            let start = Cursor { node: p.node, idx: p.idx, offset: 0 };
            assert(self.forth_by(d, (n - 1) as nat) == Some(start));
            assert(self.next_of(start) == self.next_of(p));
        }
    }

    /// The leaf beside a leaf is a leaf of the tree with runs in it.
    pub proof fn lemma_adjacent_is_leaf(&self, leaf: NodeId, forward: bool)
        requires
            self.links_wf(),
            self.is_leaf(leaf),
            self.adjacent_leaf(leaf, forward).is_some(),
        ensures
            self.is_leaf(self.adjacent_leaf(leaf, forward).unwrap()),
            self.leaf(self.adjacent_leaf(leaf, forward).unwrap()).data@.len() > 0,
    {
        if forward {
            let a = self.lemma_beside_fwd(leaf);
            self.lemma_slot(a);
            let p = self.nodes@[a as int].spec_parent().unwrap();
            self.lemma_child(p, self.slot_of(a) + 1);
            self.lemma_edge_leaves(self.beside(leaf, true).unwrap());
        } else {
            let a = self.lemma_beside_back(leaf);
            self.lemma_slot(a);
            let p = self.nodes@[a as int].spec_parent().unwrap();
            self.lemma_child(p, self.slot_of(a) - 1);
            self.lemma_edge_leaves(self.beside(leaf, false).unwrap());
        }
    }

    /// The run that the cursor names.
    pub fn get_entry(&self, c: &Cursor) -> (e: &E)
        requires
            self.cursor_wf(*c),
        ensures
            *e == self.entry_at(*c),
    {
        &self.leaf_ref(c.node).data[c.idx]
    }

    /// The leaf with the given index.
    pub fn leaf_ref(&self, leaf: NodeId) -> (l: &NodeLeaf<E>)
        requires
            self.is_leaf(leaf),
        ensures
            *l == self.leaf(leaf),
    {
        match &self.nodes[leaf] {
            Node::Leaf(l) => l,
            Node::Internal(_) => vstd::pervasive::unreached(),
        }
    }

    /// The inner node with the given index.
    pub fn internal_ref(&self, i: NodeId) -> (n: &crate::content_tree::NodeInternal)
        requires
            self.is_internal(i),
        ensures
            *n == self.internal(i),
    {
        match &self.nodes[i] {
            Node::Internal(n) => n,
            Node::Leaf(_) => vstd::pervasive::unreached(),
        }
    }

    /// Number of runs in the given leaf.
    pub fn leaf_len(&self, leaf: NodeId) -> (n: usize)
        requires
            self.is_leaf(leaf),
        ensures
            n == self.leaf(leaf).data@.len(),
    {
        self.leaf_ref(leaf).data.len()
    }
}

impl Cursor {
    pub fn new(node: NodeId, idx: usize, offset: usize) -> (c: Cursor)
        ensures
            c == (Cursor { node, idx, offset }),
    {
        Cursor { node, idx, offset }
    }

    /// Moves to the leaf after (`traverse_next`) or before the cursor's
    /// leaf: to the start of its first run, or to the end of its last run.
    /// Returns whether there is such a leaf; the cursor stays where it is
    /// where there is none.
    pub fn traverse<E: TreeEntry>(&mut self, tree: &ContentTree<E>, traverse_next: bool) -> (moved:
        bool)
        requires
            tree.links_wf(),
            tree.is_leaf(old(self).node),
        ensures
            moved == tree.traversed(*old(self), traverse_next).is_some(),
            *final(self) == (match tree.traversed(*old(self), traverse_next) {
                Some(c) => c,
                None => *old(self),
            }),
            moved ==> tree.cursor_wf(*final(self)),
    {
        match tree.adjacent_leaf_by_traversal(self.node, traverse_next) {
            None => false,
            Some(n) => {
                proof {
                    tree.lemma_adjacent_is_leaf(self.node, traverse_next);
                }
                self.node = n;
                if traverse_next {
                    self.idx = 0;
                    self.offset = 0;
                } else {
                    self.idx = tree.leaf_len(n) - 1;
                    self.offset = tree.get_entry(
                        &Cursor { node: n, idx: self.idx, offset: 0 },
                    ).get_seq_len();
                }
                true
            },
        }
    }

    /// Moves to the end of the run before the cursor's. Returns whether
    /// there is one.
    pub fn prev_entry<E: TreeEntry>(&mut self, tree: &ContentTree<E>) -> (moved: bool)
        requires
            tree.links_wf(),
            tree.cursor_wf(*old(self)),
        ensures
            moved == tree.prev_of(*old(self)).is_some(),
            *final(self) == (match tree.prev_of(*old(self)) {
                Some(c) => c,
                None => *old(self),
            }),
            tree.cursor_wf(*final(self)),
    {
        if self.idx > 0 {
            self.idx -= 1;
            self.offset = tree.get_entry(
                &Cursor { node: self.node, idx: self.idx, offset: 0 },
            ).get_seq_len();
            true
        } else {
            self.traverse(tree, false)
        }
    }

    /// Moves to the start of the run after the cursor's. Returns whether
    /// there is one.
    pub fn next_entry<E: TreeEntry>(&mut self, tree: &ContentTree<E>) -> (moved: bool)
        requires
            tree.links_wf(),
            tree.cursor_wf(*old(self)),
        ensures
            moved == tree.next_of(*old(self)).is_some(),
            *final(self) == (match tree.next_of(*old(self)) {
                Some(c) => c,
                None => *old(self),
            }),
            tree.cursor_wf(*final(self)),
    {
        if self.idx + 1 < tree.leaf_len(self.node) {
            self.idx += 1;
            self.offset = 0;
            true
        } else {
            self.traverse(tree, true)
        }
    }
}

impl<E: TreeEntry> ContentTree<E> {
    /// The measure of all that comes before node `i` in the document.
    pub open spec fn node_pos(&self, i: NodeId) -> nat
        decreases self.height(self.root) - self.height(i),
    {
        match self.nodes@[i as int].spec_parent() {
            None => 0,
            Some(p) => if self.is_internal(p) && self.height(i) < self.height(p) <= self.height(
                self.root,
            ) {
                self.node_pos(p) + cache_before(self.children(p), self.slot_of(i))
            } else {
                0
            },
        }
    }

    /// What the offset of a cursor adds to its position: the offset where
    /// the run counts in the measure of the tree, else nothing.
    pub open spec fn offset_part(&self, c: Cursor) -> nat {
        if spec_measure(self.metric, &self.entry_at(c)) > 0 {
            c.offset as nat
        } else {
            0
        }
    }

    /// The position of the cursor in the document, in the measure of the
    /// tree.
    pub open spec fn cursor_pos(&self, c: Cursor) -> nat {
        self.node_pos(c.node) + measure_sum(self.metric, self.leaf(c.node).data@.take(c.idx as int))
            + self.offset_part(c)
    }

    /// What comes before a node and what the node holds lies within the
    /// measure of the whole tree.
    pub proof fn lemma_node_pos_bound(&self, i: NodeId)
        requires
            self.wf(),
            i < self.nodes@.len(),
        ensures
            self.node_pos(i) + self.node_total(i) <= self.count,
        decreases self.height(self.root) - self.height(i),
    {
        self.lemma_root_only(i);
        if i != self.root {
            self.lemma_slot(i);
            let p = self.nodes@[i as int].spec_parent().unwrap();
            let k = self.slot_of(i);
            self.lemma_node_pos_bound(p);
            lemma_cache_before_step(self.children(p), k);
            crate::content_tree::internal::lemma_cache_before_grows(
                self.children(p),
                k + 1,
                self.children(p).len() as int,
            );
            lemma_cache_before_step(self.children(p), self.children(p).len() - 1);
            assert(self.children(p)[k].0 == self.node_total(self.children(p)[k].1));
        }
    }

    /// The measure of what a node holds, as its caches say, is the measure
    /// of all runs below it.
    pub proof fn lemma_total_is_sum(&self, i: NodeId)
        requires
            self.wf(),
            i < self.nodes@.len(),
        ensures
            self.node_total(i) == self.subtree_sum(i),
        decreases self.height(i), 1nat,
    {
        if self.is_internal(i) {
            self.lemma_children_sum(i, self.children(i).len());
            assert(self.children(i).take(self.children(i).len() as int) =~= self.children(i));
        }
    }

    /// The measure of all runs below the first children of a node is the
    /// sum of the measures cached for them.
    pub proof fn lemma_children_sum(&self, i: NodeId, k: nat)
        requires
            self.wf(),
            self.is_internal(i),
            k <= self.children(i).len(),
        ensures
            self.children_sum(i, k) == cache_before(self.children(i), k as int),
        decreases self.height(i), 0nat, k,
    {
        if k > 0 {
            self.lemma_children_sum(i, (k - 1) as nat);
            self.lemma_child(i, k - 1);
            let c = self.children(i)[k - 1].1;
            self.lemma_total_is_sum(c);
            lemma_cache_before_step(self.children(i), k - 1);
            assert(self.children(i)[k - 1].0 == self.node_total(c));
        } else {
            assert(self.children(i).take(0) =~= Seq::<(usize, NodeId)>::empty());
        }
    }

    /// The count of the tree is the measure of all the runs in it.
    pub proof fn law_count_is_sum_of_entries(&self)
        requires
            self.wf(),
        ensures
            self.count == self.subtree_sum(self.root),
    {
        self.lemma_total_is_sum(self.root);
    }

    /// The position of the cursor in the document: the measure of the runs
    /// before it in its leaf and of its offset, and going up to the root,
    /// of all that stands before it under each node.
    #[verifier::rlimit(50)]
    pub fn get_pos(&self, c: &Cursor) -> (pos: usize)
        requires
            self.wf(),
            self.cursor_wf(*c),
        ensures
            pos == self.cursor_pos(*c),
            pos <= self.count,
    {
        let leaf = self.leaf_ref(c.node);
        let kind = self.metric;
        proof {
            self.lemma_node_pos_bound(c.node);
            crate::content_tree::lemma_measure_sum_split(kind, leaf.data@, c.idx as int);
            crate::content_tree::lemma_measure_sum_split(kind, leaf.data@, c.idx + 1);
            assert(leaf.data@.take(c.idx + 1).drop_last() =~= leaf.data@.take(c.idx as int));
            assert(leaf.data@.take(c.idx + 1).last() == leaf.data@[c.idx as int]);
            leaf.data@[c.idx as int].lemma_lengths();
        }
        let mut pos: usize = 0;
        // First find out where we are in the current leaf.
        let mut j: usize = 0;
        assert(leaf.data@.take(0) =~= Seq::<E>::empty());
        while j < c.idx
            invariant
                0 <= j <= c.idx < leaf.data@.len(),
                pos == measure_sum(kind, leaf.data@.take(j as int)),
                measure_sum(kind, leaf.data@.take(c.idx as int)) <= usize::MAX,
            decreases c.idx - j,
        {
            proof {
                assert(leaf.data@.take(j + 1).drop_last() =~= leaf.data@.take(j as int));
                assert(leaf.data@.take(j + 1).last() == leaf.data@[j as int]);
                crate::content_tree::lemma_measure_sum_split(
                    kind,
                    leaf.data@.take(c.idx as int),
                    j + 1,
                );
                assert(leaf.data@.take(c.idx as int).take(j + 1) =~= leaf.data@.take(j + 1));
            }
            pos += measure(kind, &leaf.data[j]);
            j += 1;
        }
        let local_len = measure(kind, &leaf.data[c.idx]);
        if local_len > 0 {
            pos += c.offset;
        }
        // Now go up to the root, counting what stands before us.

        let mut node = c.node;
        loop
            invariant
                self.wf(),
                node < self.nodes@.len(),
                pos + self.node_pos(node) == self.cursor_pos(*c),
                pos <= self.node_total(node),
            ensures
                pos == self.cursor_pos(*c),
                pos <= self.count,
            decreases self.height(self.root) - self.height(node),
        {
            proof {
                self.lemma_root_only(node);
                self.lemma_node_pos_bound(node);
            }
            let parent = match self.nodes[node].parent() {
                None => {
                    break ;
                },
                Some(p) => p,
            };
            proof {
                self.lemma_slot(node);
                self.lemma_node_pos_bound(parent);
            }
            let node_ref = self.internal_ref(parent);
            let idx = match node_ref.find_child(node) {
                Some(idx) => idx,
                None => {
                    proof {
                        assert(false);
                    }
                    break ;
                },
            };
            proof {
                self.lemma_child(parent, idx as int);
                lemma_cache_before_step(node_ref.children@, idx as int);
                crate::content_tree::internal::lemma_cache_before_grows(
                    node_ref.children@,
                    idx + 1,
                    node_ref.children@.len() as int,
                );
                lemma_cache_before_step(node_ref.children@, node_ref.children@.len() - 1);
                assert(node_ref.children@[idx as int].0 == self.node_total(node));
            }
            pos += node_ref.sum_before(idx);
            node = parent;
        }
        pos
    }

    /// The tree holds a run: its root is no empty leaf.
    pub open spec fn has_runs(&self) -> bool {
        !(self.is_leaf(self.root) && self.leaf(self.root).data@.len() == 0)
    }

    /// The cursor at the place `pos` of the document, in the measure of
    /// the tree: found by going down from the root into the first child
    /// that takes the place, and then along the runs of the leaf to the
    /// first run that takes it. At the end of a run the cursor stays in it
    /// where `stick_end` is set, else it is at the start of the next.
    /// There is such a cursor for every place within the document, and
    /// with `stick_end` for the place at its end too if the tree holds a
    /// run; for no other place.
    #[verifier::rlimit(100)]
    pub fn cursor_at_offset(&self, pos: usize, stick_end: bool) -> (r: Option<Cursor>)
        requires
            self.wf(),
        ensures
            r.is_some() == (if stick_end {
                pos <= self.count && self.has_runs()
            } else {
                pos < self.count
            }),
            match r {
                Some(c) => {
                    &&& self.cursor_wf(c)
                    &&& self.cursor_pos(c) == pos
                    &&& self.node_pos(c.node) <= pos
                    &&& self.leaf(c.node).offset_in(
                        self.metric,
                        (pos - self.node_pos(c.node)) as usize,
                        stick_end,
                        c.idx as int,
                    )
                    &&& forall|j: int|
                        0 <= j < c.idx ==> !#[trigger] self.leaf(c.node).offset_in(
                            self.metric,
                            (pos - self.node_pos(c.node)) as usize,
                            stick_end,
                            j,
                        )
                },
                None => true,
            },
    {
        let mut node = self.root;
        let mut offset = pos;
        proof {
            self.lemma_root_only(self.root);
        }
        loop
            invariant
                self.wf(),
                node < self.nodes@.len(),
                offset + self.node_pos(node) == pos,
                !stick_end && pos < self.count ==> offset < self.node_total(node),
                stick_end && pos <= self.count && self.has_runs() ==> offset <= self.node_total(
                    node,
                ),
            decreases self.height(node),
        {
            match &self.nodes[node] {
                Node::Internal(n) => {
                    proof {
                        assert(self.is_internal(node));
                        assert(self.internal_wf(node));
                    }
                    match n.get_child(offset, stick_end) {
                        Some((child_offset, k, child)) => {
                            proof {
                                self.lemma_child(node, k as int);
                                lemma_cache_before_step(n.children@, k as int);
                                assert(n.children@[k as int].0 == self.node_total(child));
                            }
                            offset = child_offset;
                            node = child;
                        },
                        None => {
                            proof {
                                self.lemma_node_pos_bound(node);
                                if !stick_end && pos < self.count {
                                    self.lemma_some_child_takes(node, offset);
                                    let k = choose|k: int|
                                        0 <= k < self.children(node).len() && cache_before(
                                            self.children(node),
                                            k,
                                        ) <= offset < cache_before(self.children(node), k) + (
                                        #[trigger] self.children(node)[k]).0;
                                    assert(n.pos_in(offset, stick_end, k));
                                }
                                if stick_end && pos <= self.count && self.has_runs() {
                                    let last = self.children(node).len() - 1;
                                    lemma_cache_before_step(self.children(node), last);
                                    lemma_first_upto(
                                        self.children(node),
                                        offset as nat,
                                        self.children(node).len() as int,
                                    );
                                    let k = choose|k: int|
                                        0 <= k < self.children(node).len() && cache_before(
                                            self.children(node),
                                            k,
                                        ) <= offset <= cache_before(self.children(node), k) + (
                                        #[trigger] self.children(node)[k]).0;
                                    assert(n.pos_in(offset, stick_end, k));
                                }
                            }
                            return None;
                        },
                    }
                },
                Node::Leaf(l) => {
                    proof {
                        assert(self.is_leaf(node));
                        self.lemma_node_pos_bound(node);
                        self.lemma_root_only(node);
                        if node != self.root {
                            self.lemma_slot(node);
                            assert(self.height(self.nodes@[node as int].spec_parent().unwrap())
                                <= self.height(self.root));
                        }
                    }
                    match l.find_offset(offset, stick_end, self.metric) {
                        Some((idx, o)) => {
                            if idx < l.data.len() {
                                let c = Cursor { node, idx, offset: o };
                                proof {
                                    l.data@[idx as int].lemma_lengths();
                                    assert(self.entry_at(c) == l.data@[idx as int]);
                                    if spec_measure(self.metric, &l.data@[idx as int]) == 0 {
                                        assert(o == 0);
                                    }
                                    crate::content_tree::lemma_measure_sum_split(
                                        self.metric,
                                        l.data@,
                                        idx + 1,
                                    );
                                    assert(l.data@.take(idx + 1).drop_last() =~= l.data@.take(
                                        idx as int,
                                    ));
                                    assert(l.data@.take(idx + 1).last() == l.data@[idx as int]);
                                }
                                return Some(c);
                            } else {
                                // Behind the last run of the leaf.
                                proof {
                                    assert(l.data@.take(l.data@.len() as int) =~= l.data@);
                                    if stick_end && pos <= self.count && self.has_runs() {
                                        let last = l.data@.len() - 1;
                                        assert(l.data@.take(last + 1).drop_last() =~= l.data@.take(
                                            last,
                                        ));
                                        assert(l.data@.take(last + 1).last() == l.data@[last]);
                                        assert(l.offset_in(self.metric, offset, stick_end, last));
                                    }
                                }
                                return None;
                            }
                        },
                        None => {
                            return None;
                        },
                    }
                },
            }
        }
    }

    /// A place below the measure of an inner node lies below one of its
    /// children, and strictly within the first that takes it.
    pub proof fn lemma_some_child_takes(&self, i: NodeId, offset: usize)
        requires
            self.is_internal(i),
            offset < cache_sum_of(self.children(i)),
        ensures
            exists|k: int|
                0 <= k < self.children(i).len() && cache_before(self.children(i), k) <= offset
                    < cache_before(self.children(i), k) + (#[trigger] self.children(i)[k]).0,
    {
        if self.children(i).len() > 0 {
            lemma_cache_before_step(self.children(i), self.children(i).len() - 1);
        }
        lemma_first_over(self.children(i), offset as nat, self.children(i).len() as int);
    }
}

/// The sum of all cached measures.
pub open spec fn cache_sum_of(children: Seq<(usize, NodeId)>) -> nat {
    crate::content_tree::cache_sum(children)
}

/// A place within the cached measures of the first `n` children, or at
/// their end, lies within one of them or at its end.
proof fn lemma_first_upto(children: Seq<(usize, NodeId)>, offset: nat, n: int)
    requires
        0 < n <= children.len(),
        offset <= cache_before(children, n),
    ensures
        exists|k: int|
            0 <= k < n && cache_before(children, k) <= offset <= cache_before(children, k) + (
            #[trigger] children[k]).0,
    decreases n,
{
    lemma_cache_before_step(children, n - 1);
    if offset < cache_before(children, n - 1) && n > 1 {
        lemma_first_upto(children, offset, n - 1);
    } else if offset < cache_before(children, n - 1) {
        assert(children.take(0) =~= Seq::<(usize, NodeId)>::empty());
    } else {
        assert(cache_before(children, n - 1) <= offset <= cache_before(children, n - 1)
            + children[n - 1].0);
    }
}

proof fn lemma_first_over(children: Seq<(usize, NodeId)>, offset: nat, n: int)
    requires
        0 <= n <= children.len(),
        offset < cache_before(children, n),
    ensures
        exists|k: int|
            0 <= k < n && cache_before(children, k) <= offset < cache_before(children, k) + (
            #[trigger] children[k]).0,
    decreases n,
{
    if n == 0 {
        assert(children.take(0) =~= Seq::<(usize, NodeId)>::empty());
    } else {
        lemma_cache_before_step(children, n - 1);
        if offset < cache_before(children, n - 1) {
            lemma_first_over(children, offset, n - 1);
        } else {
            assert(cache_before(children, n - 1) <= offset < cache_before(children, n - 1)
                + children[n - 1].0);
        }
    }
}

impl<E: TreeEntry> ContentTree<E> {
    /// Number of leaves below node `i`.
    pub open spec fn leaves_in(&self, i: NodeId) -> nat
        decreases self.height(i), 1nat,
    {
        if self.is_internal(i) {
            self.leaves_in_first(i, self.children(i).len())
        } else {
            1
        }
    }

    /// Number of leaves below the first `k` children of node `i`.
    pub open spec fn leaves_in_first(&self, i: NodeId, k: nat) -> nat
        decreases self.height(i), 0nat, k,
    {
        if k == 0 || !self.is_internal(i) || k > self.children(i).len() {
            0
        } else {
            let c = self.children(i)[k - 1].1;
            self.leaves_in_first(i, (k - 1) as nat) + if c < self.nodes@.len() && self.height(c)
                < self.height(i) {
                self.leaves_in(c)
            } else {
                0
            }
        }
    }

    /// Number of leaves that come before node `i` in the document.
    pub open spec fn leaf_index(&self, i: NodeId) -> nat
        decreases self.height(self.root) - self.height(i),
    {
        match self.nodes@[i as int].spec_parent() {
            None => 0,
            Some(p) => if self.is_internal(p) && self.height(i) < self.height(p) <= self.height(
                self.root,
            ) && 0 <= self.slot_of(i) {
                self.leaf_index(p) + self.leaves_in_first(p, self.slot_of(i) as nat)
            } else {
                0
            },
        }
    }

    /// The first leaf below a node is as far into the document as the
    /// node; the last one is further by the leaves below the node, less
    /// one.
    pub proof fn lemma_edge_index(&self, x: NodeId)
        requires
            self.links_wf(),
            x < self.nodes@.len(),
        ensures
            self.leaf_index(self.first_leaf(x)) == self.leaf_index(x),
            self.leaf_index(self.last_leaf(x)) + 1 == self.leaf_index(x) + self.leaves_in(x),
            self.leaves_in(x) >= 1,
        decreases self.height(x),
    {
        if self.is_internal(x) {
            assert(self.internal_wf(x));
            let n = self.children(x).len() as int;
            self.lemma_child(x, 0);
            self.lemma_child(x, n - 1);
            let c0 = self.children(x)[0].1;
            let c1 = self.children(x)[n - 1].1;
            self.lemma_edge_index(c0);
            self.lemma_edge_index(c1);
            assert(self.height(x) <= self.height(self.root));
            assert(self.leaves_in_first(x, 0) == 0);
            assert(self.children(x).last() == self.children(x)[n - 1]);
        }
    }

    /// The leaf before a leaf comes one earlier in the document, and the
    /// leaf after it one later.
    pub proof fn law_adjacent_leaf_is_next_in_order(&self, leaf: NodeId, forward: bool)
        requires
            self.links_wf(),
            self.is_leaf(leaf),
            self.adjacent_leaf(leaf, forward).is_some(),
        ensures
            forward ==> self.leaf_index(self.adjacent_leaf(leaf, true).unwrap())
                == self.leaf_index(leaf) + 1,
            !forward ==> self.leaf_index(self.adjacent_leaf(leaf, false).unwrap()) + 1
                == self.leaf_index(leaf),
    {
        if forward {
            let a = self.lemma_beside_fwd(leaf);
            self.lemma_slot(a);
            let p = self.nodes@[a as int].spec_parent().unwrap();
            let k = self.slot_of(a);
            let s = self.children(p)[k + 1].1;
            self.lemma_child(p, k + 1);
            self.lemma_child(p, k);
            self.lemma_edge_index(a);
            self.lemma_edge_index(s);
            assert(self.height(p) <= self.height(self.root));
            assert(self.last_leaf(leaf) == leaf);
        } else {
            let a = self.lemma_beside_back(leaf);
            self.lemma_slot(a);
            let p = self.nodes@[a as int].spec_parent().unwrap();
            let k = self.slot_of(a);
            let s = self.children(p)[k - 1].1;
            self.lemma_child(p, k - 1);
            self.lemma_child(p, k);
            self.lemma_edge_index(a);
            self.lemma_edge_index(s);
            assert(self.height(p) <= self.height(self.root));
            assert(self.first_leaf(leaf) == leaf);
        }
    }

    /// How far into the document the run of a cursor lies, counted in
    /// runs: a number that grows with every step from run to run.
    pub open spec fn entry_rank(&self, c: Cursor) -> nat {
        self.leaf_index(c.node) * (LEAF_ENTRIES + 1) as nat + c.idx as nat
    }

    /// Moving back by a run lowers the rank of the cursor.
    pub proof fn lemma_prev_rank(&self, c: Cursor)
        requires
            self.links_wf(),
            self.cursor_wf(c),
            self.prev_of(c).is_some(),
        ensures
            self.entry_rank(self.prev_of(c).unwrap()) < self.entry_rank(c),
    {
        if c.idx == 0 {
            self.law_adjacent_leaf_is_next_in_order(c.node, false);
            self.lemma_adjacent_is_leaf(c.node, false);
            let m = self.adjacent_leaf(c.node, false).unwrap();
            let li = self.leaf_index(m);
            assert(self.leaf(m).data@.len() <= LEAF_ENTRIES);
            assert((li + 1) * (LEAF_ENTRIES + 1) == li * (LEAF_ENTRIES + 1) + (LEAF_ENTRIES + 1))
                by (nonlinear_arith);
        }
    }
}

impl Cursor {
    /// Where the cursor is at the end of its run, moves it to the start of
    /// the next: within the leaf; or, where the run is the last of its
    /// leaf and `stick_end` is not set, in the leaf after it, if there is
    /// one.
    pub fn roll_to_next<E: TreeEntry>(&mut self, tree: &ContentTree<E>, stick_end: bool)
        requires
            tree.links_wf(),
            tree.cursor_wf(*old(self)),
        ensures
            *final(self) == (if old(self).offset < tree.entry_at(*old(self)).spec_seq_len() {
                *old(self)
            } else if stick_end || old(self).idx + 1 < tree.leaf(old(self).node).data@.len() {
                Cursor { node: old(self).node, idx: (old(self).idx + 1) as usize, offset: 0 }
            } else {
                match tree.adjacent_leaf(old(self).node, true) {
                    Some(n) => Cursor { node: n, idx: 0, offset: 0 },
                    None => Cursor {
                        node: old(self).node,
                        idx: (old(self).idx + 1) as usize,
                        offset: 0,
                    },
                }
            }),
    {
        let seq_len = tree.get_entry(self).get_seq_len();
        // If we are at the end of the current run, skip it.
        if self.offset == seq_len {
            self.offset = 0;
            self.idx += 1;
            if !stick_end && self.idx >= tree.leaf_len(self.node) {
                self.traverse(tree, true);
            }
        }
    }
}

/// The name of an item: the agent that made it, and its number among the
/// items of that agent.
#[derive(Copy, Clone, Debug, PartialEq, Eq, Structural)]
pub struct CRDTLocation {
    pub agent: u32,
    pub seq: u32,
}

/// The name that stands for the start of the document.
pub open spec fn spec_doc_root() -> CRDTLocation {
    CRDTLocation { agent: u32::MAX, seq: 0 }
}

pub fn crdt_doc_root() -> (r: CRDTLocation)
    ensures
        r == spec_doc_root(),
{
    CRDTLocation { agent: u32::MAX, seq: 0 }
}

/// A run of items of one agent with consecutive numbers. A negative
/// length marks items that were deleted.
#[derive(Copy, Clone, Debug, PartialEq, Eq, Structural)]
pub struct Entry {
    pub loc: CRDTLocation,
    pub len: i32,
}

impl TreeEntry for Entry {
    open spec fn spec_seq_len(&self) -> nat {
        if self.len < 0 {
            (-self.len) as nat
        } else {
            self.len as nat
        }
    }

    open spec fn spec_content_len(&self) -> nat {
        if self.len < 0 {
            0
        } else {
            self.len as nat
        }
    }

    proof fn lemma_lengths(&self) {
    }

    fn get_seq_len(&self) -> (n: usize) {
        if self.len < 0 {
            let neg: i64 = -(self.len as i64);
            neg as usize
        } else {
            self.len as usize
        }
    }

    fn get_content_len(&self) -> (n: usize) {
        if self.len < 0 {
            0
        } else {
            self.len as usize
        }
    }
}

impl ContentTree<Entry> {
    /// The run that `tell` reads: going back from the cursor run by run,
    /// the first that is not the first of its leaf and is not deleted.
    pub open spec fn told_at(&self, c: Cursor) -> Option<Cursor>
        decreases self.entry_rank(c),
    {
        if c.idx == 0 || self.entry_at(c).len < 0 {
            match self.prev_of(c) {
                None => None,
                Some(p) => if self.entry_rank(p) < self.entry_rank(c) {
                    self.told_at(p)
                } else {
                    None
                },
            }
        } else {
            Some(c)
        }
    }
}

impl Cursor {
    /// The name of the item at the cursor: that of the item at the
    /// cursor's offset in the run found by `told_at`, or the name of the
    /// start of the document where there is no such run.
    pub fn tell(self, tree: &ContentTree<Entry>) -> (loc: CRDTLocation)
        requires
            tree.links_wf(),
            tree.cursor_wf(self),
            forall|i: NodeId, k: int|
                tree.is_leaf(i) && 0 <= k < tree.leaf(i).data@.len() ==> (
                #[trigger] tree.leaf(i).data@[k]).loc.seq + tree.leaf(i).data@[k].spec_seq_len()
                    <= u32::MAX,
        ensures
            loc == (match tree.told_at(self) {
                None => spec_doc_root(),
                Some(c) => CRDTLocation {
                    agent: tree.entry_at(c).loc.agent,
                    seq: (tree.entry_at(c).loc.seq + c.offset) as u32,
                },
            }),
    {
        let mut cursor = self;
        while cursor.idx == 0 || tree.get_entry(&cursor).len < 0
            invariant
                tree.links_wf(),
                tree.cursor_wf(cursor),
                tree.told_at(cursor) == tree.told_at(self),
            decreases tree.entry_rank(cursor),
        {
            let ghost before = cursor;
            proof {
                if tree.prev_of(before).is_some() {
                    tree.lemma_prev_rank(before);
                }
            }
            let exists = cursor.prev_entry(tree);
            if !exists {
                return crdt_doc_root();
            }
        }
        let entry = tree.get_entry(&cursor);
        CRDTLocation { agent: entry.loc.agent, seq: entry.loc.seq + cursor.offset as u32 }
    }
}

impl<E: TreeEntry> NodeLeaf<E> {
    /// The cursor at the start of leaf `me`.
    pub fn unsafe_cursor_at_start(me: NodeId) -> (c: Cursor)
        ensures
            c == (Cursor { node: me, idx: 0, offset: 0 }),
    {
        Cursor::new(me, 0, 0)
    }
}

impl<E: TreeEntry + crate::rle::Searchable> NodeLeaf<E> {
    /// The cursor at item `loc`, where a run of the leaf `me` holds it:
    /// in the first such run.
    pub fn find(&self, me: NodeId, loc: E::Item) -> (r: Option<Cursor>) where E::Item: Copy
        requires
            forall|i: int| 0 <= i < self.data@.len() ==> (#[trigger] self.data@[i]).wf(),
        ensures
            match r {
                Some(c) => {
                    &&& c.node == me
                    &&& c.idx < self.data@.len()
                    &&& c.offset < self.data@[c.idx as int].spec_len()
                    &&& self.data@[c.idx as int].spec_at_offset(c.offset as nat) == loc
                    &&& forall|i: int, k: nat|
                        0 <= i < c.idx && k < self.data@[i].spec_len() ==> #[trigger] self.data@[i].spec_at_offset(
                            k,
                        ) != loc
                },
                None => forall|i: int, k: nat|
                    0 <= i < self.data@.len() && k < self.data@[i].spec_len()
                        ==> #[trigger] self.data@[i].spec_at_offset(k) != loc,
            },
    {
        let mut i: usize = 0;
        while i < self.data.len()
            invariant
                0 <= i <= self.data@.len(),
                forall|j: int| 0 <= j < self.data@.len() ==> (#[trigger] self.data@[j]).wf(),
                forall|j: int, k: nat|
                    0 <= j < i && k < self.data@[j].spec_len() ==> #[trigger] self.data@[j].spec_at_offset(
                        k,
                    ) != loc,
            decreases self.data@.len() - i,
        {
            match self.data[i].get_offset(loc) {
                Some(offset) => {
                    return Some(Cursor::new(me, i, offset));
                },
                None => {},
            }
            i += 1;
        }
        None
    }
}

impl<E: TreeEntry> ContentTree<E> {
    /// Puts `entry` in the place of the run that the cursor names. The
    /// cached measures are not touched.
    pub fn replace_entry(&mut self, c: &Cursor, entry: E)
        requires
            old(self).is_leaf(c.node),
            c.idx < old(self).leaf(c.node).data@.len(),
        ensures
            final(self).nodes@.len() == old(self).nodes@.len(),
            final(self).root == old(self).root,
            final(self).count == old(self).count,
            final(self).metric == old(self).metric,
            forall|i: NodeId|
                i < old(self).nodes@.len() && i != c.node ==> final(self).nodes@[i as int] == old(
                    self,
                ).nodes@[i as int],
            final(self).is_leaf(c.node),
            final(self).leaf(c.node).parent == old(self).leaf(c.node).parent,
            final(self).leaf(c.node).next == old(self).leaf(c.node).next,
            final(self).leaf(c.node).data@ == old(self).leaf(c.node).data@.update(
                c.idx as int,
                entry,
            ),
    {
        let old_leaf = self.leaf_ref(c.node);
        let parent = old_leaf.parent;
        let next = old_leaf.next;
        let mut data: Vec<E> = Vec::new();
        let mut k: usize = 0;
        while k < old_leaf.data.len()
            invariant
                0 <= k <= old_leaf.data@.len(),
                c.idx < old_leaf.data@.len(),
                data@ == old_leaf.data@.update(c.idx as int, entry).take(k as int),
            decreases old_leaf.data@.len() - k,
        {
            if k == c.idx {
                data.push(entry);
            } else {
                data.push(old_leaf.data[k]);
            }
            proof {
                let target = old_leaf.data@.update(c.idx as int, entry);
                assert(target.take(k + 1) =~= target.take(k as int).push(target[k as int]));
            }
            k += 1;
        }
        proof {
            let target = old_leaf.data@.update(c.idx as int, entry);
            assert(target.take(target.len() as int) =~= target);
        }
        self.nodes.set(c.node, Node::Leaf(NodeLeaf { parent, data, next }));
    }
}

} // verus!
