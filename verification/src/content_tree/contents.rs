//! The runs of a tree in the order of the document, and what a change to
//! the tree does to them.

use crate::content_tree::{
    lemma_measure_sum_split, measure_sum, ContentTree, Cursor, Node, NodeId, TreeEntry,
};
use vstd::prelude::*;

verus! {

/// Whether two nodes hold the same: the same runs, or the same children
/// at the same height, whatever the cached measures are.
pub open spec fn holds_the_same<E>(a: Node<E>, b: Node<E>) -> bool {
    match (a, b) {
        (Node::Leaf(x), Node::Leaf(y)) => x.data@ == y.data@,
        (Node::Internal(x), Node::Internal(y)) => {
            &&& x.height == y.height
            &&& x.children@.len() == y.children@.len()
            &&& forall|k: int|
                0 <= k < x.children@.len() ==> (#[trigger] x.children@[k]).1 == y.children@[k].1
        },
        _ => false,
    }
}

impl<E: TreeEntry> ContentTree<E> {
    /// The runs below node `i`, in the order of the document.
    pub open spec fn entries_below(&self, i: NodeId) -> Seq<E>
        decreases self.height(i), 1nat,
    {
        if self.is_internal(i) {
            self.entries_in_first(i, self.children(i).len())
        } else if self.is_leaf(i) {
            self.leaf(i).data@
        } else {
            Seq::empty()
        }
    }

    /// The runs below the first `k` children of node `i`.
    pub open spec fn entries_in_first(&self, i: NodeId, k: nat) -> Seq<E>
        decreases self.height(i), 0nat, k,
    {
        if k == 0 || !self.is_internal(i) || k > self.children(i).len() {
            Seq::empty()
        } else {
            let c = self.children(i)[k - 1].1;
            self.entries_in_first(i, (k - 1) as nat) + (if c < self.nodes@.len() && self.height(c)
                < self.height(i) {
                self.entries_below(c)
            } else {
                Seq::empty()
            })
        }
    }

    /// All the runs of the tree, in the order of the document.
    pub open spec fn contents(&self) -> Seq<E> {
        self.entries_below(self.root)
    }

    /// The number of runs that come before node `i` in the document.
    pub open spec fn entries_before(&self, i: NodeId) -> nat
        decreases self.height(self.root) - self.height(i),
    {
        match self.nodes@[i as int].spec_parent() {
            None => 0,
            Some(p) => if self.is_internal(p) && self.height(i) < self.height(p) <= self.height(
                self.root,
            ) && 0 <= self.slot_of(i) {
                self.entries_before(p) + self.entries_in_first(p, self.slot_of(i) as nat).len()
            } else {
                0
            },
        }
    }

    /// The runs below the first children of a node and the next child.
    pub proof fn lemma_entries_step(&self, i: NodeId, k: int)
        requires
            self.links_wf(),
            self.is_internal(i),
            0 <= k < self.children(i).len(),
        ensures
            self.entries_in_first(i, (k + 1) as nat) == self.entries_in_first(i, k as nat)
                + self.entries_below(self.children(i)[k].1),
    {
        self.lemma_child(i, k);
    }

    /// Whether child `d + m` of node `i` in `self` is child `d2 + m` of
    /// node `i2` in `later`, with the same runs below it.
    pub open spec fn child_matches(
        &self,
        later: &Self,
        i: NodeId,
        d: int,
        i2: NodeId,
        d2: int,
        m: int,
    ) -> bool {
        &&& self.children(i)[d + m].1 == later.children(i2)[d2 + m].1
        &&& self.entries_below(self.children(i)[d + m].1) == later.entries_below(
            later.children(i2)[d2 + m].1,
        )
    }

    /// Where `k` children in a row of a node in one tree are `k` children
    /// in a row of a node in another, with the same runs below each, the
    /// runs below them are the same: returned is what they add to the runs
    /// below the children before them.
    pub proof fn lemma_children_match(
        &self,
        later: &Self,
        i: NodeId,
        d: int,
        i2: NodeId,
        d2: int,
        k: int,
    ) -> (added: Seq<E>)
        requires
            self.links_wf(),
            later.links_wf(),
            self.is_internal(i),
            later.is_internal(i2),
            0 <= d,
            0 <= d2,
            0 <= k,
            d + k <= self.children(i).len(),
            d2 + k <= later.children(i2).len(),
            forall|m: int| 0 <= m < k ==> #[trigger] self.child_matches(later, i, d, i2, d2, m),
        ensures
            self.entries_in_first(i, (d + k) as nat) == self.entries_in_first(i, d as nat) + added,
            later.entries_in_first(i2, (d2 + k) as nat) == later.entries_in_first(i2, d2 as nat)
                + added,
        decreases k,
    {
        if k == 0 {
            let e = Seq::<E>::empty();
            assert(self.entries_in_first(i, d as nat) + e =~= self.entries_in_first(i, d as nat));
            assert(later.entries_in_first(i2, d2 as nat) + e =~= later.entries_in_first(
                i2,
                d2 as nat,
            ));
            e
        } else {
            let before = self.lemma_children_match(later, i, d, i2, d2, k - 1);
            assert(self.child_matches(later, i, d, i2, d2, k - 1));
            self.lemma_entries_step(i, d + k - 1);
            later.lemma_entries_step(i2, d2 + k - 1);
            let last = self.entries_below(self.children(i)[d + k - 1].1);
            let added = before + last;
            assert((self.entries_in_first(i, d as nat) + before) + last
                =~= self.entries_in_first(i, d as nat) + added);
            assert((later.entries_in_first(i2, d2 as nat) + before) + last
                =~= later.entries_in_first(i2, d2 as nat) + added);
            added
        }
    }

    /// Below a node that is not above node `j`, no node is above `j`.
    pub proof fn lemma_off_path_child(&self, j: NodeId, i: NodeId, k: int)
        requires
            self.links_wf(),
            j < self.nodes@.len(),
            self.is_internal(i),
            0 <= k < self.children(i).len(),
            !self.on_path(j, i),
        ensures
            !self.on_path(j, self.children(i)[k].1),
    {
        let c = self.children(i)[k].1;
        self.lemma_child(i, k);
        if self.on_path(j, c) {
            self.lemma_path_step(j, c);
        }
    }

    /// Where the nodes that are not above node `j` hold in `later` what
    /// they held, the runs below each of them are what they were.
    pub proof fn lemma_entries_off_path(&self, later: &Self, j: NodeId, i: NodeId)
        requires
            self.links_wf(),
            later.links_wf(),
            later.nodes@.len() >= self.nodes@.len(),
            j < self.nodes@.len(),
            i < self.nodes@.len(),
            !self.on_path(j, i),
            forall|c: NodeId|
                c < self.nodes@.len() && !self.on_path(j, c) ==> holds_the_same(
                    #[trigger] self.nodes@[c as int],
                    later.nodes@[c as int],
                ),
        ensures
            later.entries_below(i) == self.entries_below(i),
        decreases self.height(i),
    {
        assert(holds_the_same(self.nodes@[i as int], later.nodes@[i as int]));
        if self.is_internal(i) {
            let n = self.children(i).len() as int;
            assert forall|m: int| 0 <= m < n implies #[trigger] self.child_matches(
                later,
                i,
                0,
                i,
                0,
                m,
            ) by {
                self.lemma_child(i, m);
                self.lemma_off_path_child(j, i, m);
                self.lemma_entries_off_path(later, j, self.children(i)[m].1);
            }
            let added = self.lemma_children_match(later, i, 0, i, 0, n);
        }
    }

    /// Where every node but `changed` holds in `later` what it held, the
    /// runs below the node above a node `j`, which is `changed` or above
    /// it, are in both trees the runs below `j` with the same runs before
    /// and behind them, which are returned. Before them are the runs below
    /// the children that come before `j`.
    #[verifier::rlimit(50)]
    pub proof fn lemma_entries_beside(&self, later: &Self, changed: NodeId, j: NodeId) -> (around:
        (Seq<E>, Seq<E>))
        requires
            self.links_wf(),
            later.links_wf(),
            later.nodes@.len() >= self.nodes@.len(),
            changed < self.nodes@.len(),
            j < self.nodes@.len(),
            j != self.root,
            self.on_path(changed, j),
            forall|c: NodeId|
                c < self.nodes@.len() && c != changed ==> holds_the_same(
                    #[trigger] self.nodes@[c as int],
                    later.nodes@[c as int],
                ),
        ensures
            self.entries_below(self.nodes@[j as int].spec_parent().unwrap()) == around.0
                + self.entries_below(j) + around.1,
            later.entries_below(self.nodes@[j as int].spec_parent().unwrap()) == around.0
                + later.entries_below(j) + around.1,
            around.0 == self.entries_in_first(
                self.nodes@[j as int].spec_parent().unwrap(),
                self.slot_of(j) as nat,
            ),
    {
        let e = Seq::<E>::empty();
        self.lemma_slot(j);
        let p = self.nodes@[j as int].spec_parent().unwrap();
        let m = self.slot_of(j);
        let n = self.children(p).len() as int;
        self.lemma_path_height(changed, j);
        assert(holds_the_same(self.nodes@[p as int], later.nodes@[p as int]));
        assert(later.children(p)[m].1 == j);
        assert(later.is_internal(p));
        assert(later.children(p).len() == n);
        assert forall|t: int| 0 <= t < n && t != m implies self.child_matches(
            later,
            p,
            0,
            p,
            0,
            t,
        ) by {
            self.lemma_child(p, t);
            let c = self.children(p)[t].1;
            if self.on_path(changed, c) {
                self.lemma_path_unique(changed, c, j);
            }
            self.lemma_entries_off_path(later, changed, c);
        }
        assert forall|t: int| 0 <= t < m implies #[trigger] self.child_matches(
            later,
            p,
            0,
            p,
            0,
            t,
        ) by {
        }
        let a2 = self.lemma_children_match(later, p, 0, p, 0, m);
        assert forall|t: int| 0 <= t < n - m - 1 implies #[trigger] self.child_matches(
            later,
            p,
            m + 1,
            p,
            m + 1,
            t,
        ) by {
            assert(self.child_matches(later, p, 0, p, 0, m + 1 + t));
        }
        let b2 = self.lemma_children_match(later, p, m + 1, p, m + 1, n - m - 1);
        self.lemma_entries_step(p, m);
        later.lemma_entries_step(p, m);
        assert(self.entries_in_first(p, 0) == e);
        assert(later.entries_in_first(p, 0) == e);
        assert(e + a2 =~= a2);
        assert(self.entries_below(p) == self.entries_in_first(p, n as nat));
        assert(later.entries_below(p) == later.entries_in_first(p, n as nat));
        (a2, b2)
    }

    /// Where every node but `changed` holds in `later` what it held, the
    /// runs below a node `i` above `changed` are in both trees the runs
    /// below a node `j` between the two, with the same runs before and
    /// behind them, which are returned. Before them are as many as come
    /// before `j` and not before `i`.
    pub proof fn lemma_entries_around(
        &self,
        later: &Self,
        changed: NodeId,
        j: NodeId,
        i: NodeId,
    ) -> (around: (Seq<E>, Seq<E>))
        requires
            self.links_wf(),
            later.links_wf(),
            later.nodes@.len() >= self.nodes@.len(),
            changed < self.nodes@.len(),
            j < self.nodes@.len(),
            i < self.nodes@.len(),
            self.on_path(changed, j),
            self.on_path(j, i),
            forall|c: NodeId|
                c < self.nodes@.len() && c != changed ==> holds_the_same(
                    #[trigger] self.nodes@[c as int],
                    later.nodes@[c as int],
                ),
        ensures
            self.entries_below(i) == around.0 + self.entries_below(j) + around.1,
            later.entries_below(i) == around.0 + later.entries_below(j) + around.1,
            around.0.len() + self.entries_before(i) == self.entries_before(j),
        decreases self.height(self.root) - self.height(j),
    {
        let e = Seq::<E>::empty();
        if j == i {
            assert(e + self.entries_below(j) + e =~= self.entries_below(j));
            assert(e + later.entries_below(j) + e =~= later.entries_below(j));
            (e, e)
        } else {
            self.lemma_root_only(j);
            self.lemma_slot(j);
            let p = self.nodes@[j as int].spec_parent().unwrap();
            assert(self.height(p) <= self.height(self.root));
            self.lemma_path_step(changed, j);
            let (a1, b1) = self.lemma_entries_around(later, changed, p, i);
            let (a2, b2) = self.lemma_entries_beside(later, changed, j);
            let a = a1 + a2;
            let b = b2 + b1;
            assert(a1 + (a2 + self.entries_below(j) + b2) + b1 =~= a + self.entries_below(j) + b);
            assert(a1 + (a2 + later.entries_below(j) + b2) + b1 =~= a + later.entries_below(j)
                + b);
            (a, b)
        }
    }

    /// The root is above every node.
    pub proof fn lemma_root_on_path(&self, j: NodeId)
        requires
            self.links_wf(),
            j < self.nodes@.len(),
        ensures
            self.on_path(j, self.root),
        decreases self.height(self.root) - self.height(j),
    {
        self.lemma_root_only(j);
        if j != self.root {
            self.lemma_slot(j);
            let p = self.nodes@[j as int].spec_parent().unwrap();
            assert(self.height(p) <= self.height(self.root));
            self.lemma_root_on_path(p);
        }
    }

    /// Where the runs of leaf `leaf` have changed and nothing else but
    /// cached measures, the runs of the tree are in both trees the runs of
    /// the leaf with the same runs before and behind them, which are
    /// returned. Before them are the runs that come before the leaf.
    pub proof fn lemma_leaf_edit(&self, later: &Self, leaf: NodeId) -> (around: (Seq<E>, Seq<E>))
        requires
            self.links_wf(),
            later.links_wf(),
            self.leaf_changed_or_same_shape(later, leaf),
        ensures
            self.contents() == around.0 + self.leaf(leaf).data@ + around.1,
            later.contents() == around.0 + later.leaf(leaf).data@ + around.1,
            around.0.len() == self.entries_before(leaf),
    {
        self.lemma_root_on_path(leaf);
        assert forall|c: NodeId| c < self.nodes@.len() && c != leaf implies holds_the_same(
            #[trigger] self.nodes@[c as int],
            later.nodes@[c as int],
        ) by {
        }
        self.lemma_root_only(self.root);
        self.lemma_entries_around(later, leaf, leaf, self.root)
    }

    /// A run put into a leaf stands in the runs of the tree as far behind
    /// the runs that come before the leaf as in the leaf.
    pub proof fn lemma_insert_contents(&self, later: &Self, leaf: NodeId, idx: int, entry: E)
        requires
            self.links_wf(),
            later.links_wf(),
            self.leaf_changed_or_same_shape(later, leaf),
            0 <= idx <= self.leaf(leaf).data@.len(),
            later.leaf(leaf).data@ == self.leaf(leaf).data@.insert(idx, entry),
        ensures
            later.contents() == self.contents().insert(self.entries_before(leaf) + idx, entry),
    {
        let (a, b) = self.lemma_leaf_edit(later, leaf);
        let data = self.leaf(leaf).data@;
        assert(a + data.insert(idx, entry) + b =~= (a + data + b).insert(a.len() + idx, entry));
    }

    /// A run taken out of a leaf is gone from the runs of the tree, where
    /// it stood as far behind the runs that come before the leaf as in the
    /// leaf.
    pub proof fn lemma_remove_contents(&self, later: &Self, leaf: NodeId, idx: int)
        requires
            self.links_wf(),
            later.links_wf(),
            self.leaf_changed_or_same_shape(later, leaf),
            0 <= idx < self.leaf(leaf).data@.len(),
            later.leaf(leaf).data@ == self.leaf(leaf).data@.remove(idx),
        ensures
            later.contents() == self.contents().remove(self.entries_before(leaf) + idx),
            self.contents()[self.entries_before(leaf) + idx] == self.leaf(leaf).data@[idx],
            self.entries_before(leaf) + idx < self.contents().len(),
    {
        let (a, b) = self.lemma_leaf_edit(later, leaf);
        let data = self.leaf(leaf).data@;
        assert(a + data.remove(idx) + b =~= (a + data + b).remove(a.len() + idx));
    }

    /// A run put in the place of a run of a leaf stands in the runs of the
    /// tree in the place of that run.
    pub proof fn lemma_update_contents(&self, later: &Self, leaf: NodeId, idx: int, entry: E)
        requires
            self.links_wf(),
            later.links_wf(),
            self.leaf_changed_or_same_shape(later, leaf),
            0 <= idx < self.leaf(leaf).data@.len(),
            later.leaf(leaf).data@ == self.leaf(leaf).data@.update(idx, entry),
        ensures
            later.contents() == self.contents().update(self.entries_before(leaf) + idx, entry),
            self.contents()[self.entries_before(leaf) + idx] == self.leaf(leaf).data@[idx],
            self.entries_before(leaf) + idx < self.contents().len(),
    {
        let (a, b) = self.lemma_leaf_edit(later, leaf);
        let data = self.leaf(leaf).data@;
        assert(a + data.update(idx, entry) + b =~= (a + data + b).update(a.len() + idx, entry));
    }

    /// The measure of the runs below a node is the measure of the list of
    /// them.
    pub proof fn lemma_entries_measure(&self, i: NodeId)
        requires
            self.links_wf(),
            i < self.nodes@.len(),
        ensures
            measure_sum(self.metric, self.entries_below(i)) == self.subtree_sum(i),
        decreases self.height(i), 1nat,
    {
        if self.is_internal(i) {
            self.lemma_entries_measure_first(i, self.children(i).len());
        }
    }

    /// The measure of the runs below the first children of a node is the
    /// measure of the list of them.
    pub proof fn lemma_entries_measure_first(&self, i: NodeId, k: nat)
        requires
            self.links_wf(),
            self.is_internal(i),
            k <= self.children(i).len(),
        ensures
            measure_sum(self.metric, self.entries_in_first(i, k)) == self.children_sum(i, k),
        decreases self.height(i), 0nat, k,
    {
        if k > 0 {
            let c = self.children(i)[k - 1].1;
            self.lemma_child(i, k - 1);
            self.lemma_entries_measure_first(i, (k - 1) as nat);
            self.lemma_entries_measure(c);
            let a = self.entries_in_first(i, (k - 1) as nat);
            let b = self.entries_below(c);
            lemma_measure_sum_split(self.metric, a + b, a.len() as int);
            assert((a + b).take(a.len() as int) =~= a);
            assert((a + b).skip(a.len() as int) =~= b);
        }
    }

    /// The count of the tree is the measure of its runs.
    pub proof fn law_count_is_measure_of_contents(&self)
        requires
            self.wf(),
        ensures
            self.count == measure_sum(self.metric, self.contents()),
    {
        self.law_count_is_sum_of_entries();
        self.lemma_entries_measure(self.root);
    }

    /// The runs of a leaf stand together in the runs of the tree, behind
    /// the runs that come before the leaf: the run of a cursor is the run
    /// of the tree at the cursor's place.
    pub proof fn law_cursor_run_in_contents(&self, c: Cursor)
        requires
            self.wf(),
            self.cursor_wf(c),
        ensures
            self.entries_before(c.node) + c.idx < self.contents().len(),
            self.contents()[self.entries_before(c.node) + c.idx] == self.entry_at(c),
    {
        let (a, b) = self.lemma_leaf_edit(self, c.node);
    }
}

} // verus!
