//! Checking at run time that a tree is consistent.

use crate::content_tree::internal::{cache_before, lemma_cache_before_step};
use crate::content_tree::{
    cache_sum, measure, measure_sum, ContentTree, MetricKind, Node, NodeId, NodeInternal, NodeLeaf,
    TreeEntry, INTERNAL_ENTRIES, LEAF_ENTRIES,
};
use vstd::prelude::*;

verus! {

/// The measure of the runs, where it fits the machine.
fn entries_total<E: TreeEntry>(data: &Vec<E>, kind: MetricKind) -> (r: Option<usize>)
    ensures
        match r {
            Some(s) => s == measure_sum(kind, data@),
            None => measure_sum(kind, data@) > usize::MAX,
        },
{
    let mut val: usize = 0;
    let mut i: usize = 0;
    assert(data@.take(0) =~= Seq::<E>::empty());
    while i < data.len()
        invariant
            0 <= i <= data@.len(),
            val == measure_sum(kind, data@.take(i as int)),
        decreases data@.len() - i,
    {
        let m = measure(kind, &data[i]);
        proof {
            assert(data@.take(i + 1).drop_last() =~= data@.take(i as int));
            assert(data@.take(i + 1).last() == data@[i as int]);
            crate::content_tree::lemma_measure_sum_split(kind, data@, i + 1);
        }
        if m > usize::MAX - val {
            return None;
        }
        val += m;
        i += 1;
    }
    proof {
        assert(data@.take(data@.len() as int) =~= data@);
    }
    Some(val)
}

/// The sum of the cached measures, where it fits the machine.
fn caches_total(children: &Vec<(usize, NodeId)>) -> (r: Option<usize>)
    ensures
        match r {
            Some(s) => s == cache_sum(children@),
            None => cache_sum(children@) > usize::MAX,
        },
{
    let mut val: usize = 0;
    let mut k: usize = 0;
    assert(children@.take(0) =~= Seq::<(usize, NodeId)>::empty());
    while k < children.len()
        invariant
            0 <= k <= children@.len(),
            val == cache_before(children@, k as int),
        decreases children@.len() - k,
    {
        proof {
            lemma_cache_before_step(children@, k as int);
            crate::content_tree::internal::lemma_cache_before_grows(
                children@,
                k + 1,
                children@.len() as int,
            );
            lemma_cache_before_step(children@, children@.len() - 1);
        }
        if children[k].0 > usize::MAX - val {
            return None;
        }
        val += children[k].0;
        k += 1;
    }
    proof {
        if children@.len() > 0 {
            lemma_cache_before_step(children@, children@.len() - 1);
        } else {
            assert(children@.take(0) =~= children@);
        }
    }
    Some(val)
}

impl<E: TreeEntry> ContentTree<E> {
    /// Node `i` is consistent with the nodes around it.
    pub open spec fn node_ok(&self, i: NodeId) -> bool {
        &&& self.height(i) <= self.height(self.root)
        &&& i != self.root ==> self.has_parent(i)
        &&& match self.nodes@[i as int] {
            Node::Leaf(l) => l.data@.len() <= LEAF_ENTRIES && (i != self.root ==> l.data@.len() > 0),
            Node::Internal(n) => {
                &&& self.internal_wf(i)
                &&& forall|k: int|
                    0 <= k < n.children@.len() ==> (#[trigger] n.children@[k]).0
                        == self.node_total(n.children@[k].1)
            },
        }
    }

    /// The measure of what node `i` holds, where it fits the machine.
    fn total_of(&self, i: NodeId) -> (r: Option<usize>)
        requires
            i < self.nodes@.len(),
        ensures
            match r {
                Some(s) => s == self.node_total(i),
                None => self.node_total(i) > usize::MAX,
            },
    {
        match &self.nodes[i] {
            Node::Leaf(l) => entries_total(&l.data, self.metric),
            Node::Internal(n) => caches_total(&n.children),
        }
    }

    /// Number of levels below node `i`.
    fn height_of(&self, i: NodeId) -> (h: usize)
        requires
            i < self.nodes@.len(),
        ensures
            h == self.height(i),
    {
        match &self.nodes[i] {
            Node::Leaf(_) => 0,
            Node::Internal(n) => n.height,
        }
    }

    /// Inner node `i` is consistent with its children, and caches for each
    /// child the measure of what the child holds.
    pub open spec fn internal_ok(&self, i: NodeId) -> bool {
        &&& self.internal_wf(i)
        &&& forall|k: int|
            0 <= k < self.children(i).len() ==> (#[trigger] self.children(i)[k]).0
                == self.node_total(self.children(i)[k].1)
    }

    /// Whether inner node `i` is consistent with its children: it has
    /// between one and `INTERNAL_ENTRIES` of them, each a node of the tree
    /// one level below it that names it as the node above, none twice,
    /// and it caches for each the measure of what the child holds.
    #[verifier::rlimit(50)]
    fn check_internal(&self, i: NodeId, n: &NodeInternal) -> (ok: bool)
        requires
            i < self.nodes@.len(),
            self.nodes@[i as int] == Node::<E>::Internal(*n),
        ensures
            ok == self.internal_ok(i),
    {
        let count = n.children.len();
        if count == 0 || count > INTERNAL_ENTRIES || n.height < 1 {
            return false;
        }
        let mut k: usize = 0;
        while k < count
            invariant
                0 <= k <= count,
                0 < count <= INTERNAL_ENTRIES,
                count == n.children@.len(),
                i < self.nodes@.len(),
                self.nodes@[i as int] == Node::<E>::Internal(*n),
                n.height >= 1,
                forall|j: int|
                    0 <= j < k ==> {
                        let c = (#[trigger] n.children@[j]).1;
                        &&& c < self.nodes@.len()
                        &&& self.nodes@[c as int].spec_parent() == Some(i)
                        &&& self.height(c) + 1 == n.height
                        &&& n.children@[j].0 == self.node_total(c)
                    },
                forall|j1: int, j2: int|
                    0 <= j1 < j2 < k ==> (#[trigger] n.children@[j1]).1 != (
                    #[trigger] n.children@[j2]).1,
            decreases count - k,
        {
            let (cache, c) = n.children[k];
            proof {
                assert(self.children(i)[k as int] == (cache, c));
            }
            if c >= self.nodes.len() {
                return false;
            }
            match self.nodes[c].parent() {
                Some(p) => {
                    if p != i {
                        return false;
                    }
                },
                None => {
                    return false;
                },
            }
            if self.height_of(c) != n.height - 1 {
                return false;
            }
            match self.total_of(c) {
                Some(total) => {
                    if total != cache {
                        return false;
                    }
                },
                None => {
                    return false;
                },
            }
            // No child twice.
            let mut j: usize = 0;
            while j < k
                invariant
                    0 <= j <= k < count,
                    count == n.children@.len(),
                    i < self.nodes@.len(),
                    self.nodes@[i as int] == Node::<E>::Internal(*n),
                    c == n.children@[k as int].1,
                    forall|m: int| 0 <= m < j ==> (#[trigger] n.children@[m]).1 != c,
                decreases k - j,
            {
                if n.children[j].1 == c {
                    proof {
                        assert(self.children(i)[j as int].1 == self.children(i)[k as int].1);
                    }
                    return false;
                }
                j += 1;
            }
            k += 1;
        }
        true
    }

    /// Whether the tree is consistent: the root is a node without a node
    /// above it, every other node is a child of the node that it names, no
    /// node lies deeper than the root says, no leaf holds too many runs or
    /// none, every inner node is consistent with its children, and the
    /// count of the tree and every cached measure are right.
    #[verifier::rlimit(50)]
    pub fn check(&self) -> (ok: bool)
        ensures
            ok == self.wf(),
    {
        let n = self.nodes.len();
        if self.root >= n {
            return false;
        }
        if self.nodes[self.root].parent().is_some() {
            return false;
        }
        match self.total_of(self.root) {
            Some(total) => {
                if total != self.count {
                    return false;
                }
            },
            None => {
                return false;
            },
        }
        let root_height = self.height_of(self.root);
        let mut i: usize = 0;
        while i < n
            invariant
                0 <= i <= n,
                n == self.nodes@.len(),
                self.root < n,
                root_height == self.height(self.root),
                forall|j: NodeId| j < i ==> #[trigger] self.node_ok(j),
            decreases n - i,
        {
            if self.height_of(i) > root_height {
                proof {
                    assert(!(self.height(i) <= self.height(self.root)));
                }
                return false;
            }
            if i != self.root {
                // The node above names this node as a child.
                let p = match self.nodes[i].parent() {
                    Some(p) => p,
                    None => {
                        proof {
                            assert(!self.has_parent(i));
                        }
                        return false;
                    },
                };
                if p >= n {
                    proof {
                        assert(!self.has_parent(i));
                    }
                    return false;
                }
                match &self.nodes[p] {
                    Node::Internal(parent) => {
                        match parent.find_child(i) {
                            Some(k) => {
                                proof {
                                    assert(self.children(p)[k as int].1 == i);
                                }
                            },
                            None => {
                                proof {
                                    assert(!self.has_parent(i));
                                }
                                return false;
                            },
                        }
                    },
                    Node::Leaf(_) => {
                        proof {
                            assert(!self.has_parent(i));
                        }
                        return false;
                    },
                }
            }
            match &self.nodes[i] {
                Node::Leaf(l) => {
                    if l.data.len() > LEAF_ENTRIES || (i != self.root && l.data.len() == 0) {
                        proof {
                            assert(self.is_leaf(i));
                        }
                        return false;
                    }
                },
                Node::Internal(node) => {
                    if !self.check_internal(i, node) {
                        proof {
                            assert(self.is_internal(i));
                            if self.wf() {
                                assert(self.internal_wf(i));
                                assert forall|k: int|
                                    0 <= k < self.children(i).len() implies (
                                #[trigger] self.children(i)[k]).0 == self.node_total(
                                    self.children(i)[k].1,
                                ) by {
                                }
                            }
                        }
                        return false;
                    }
                },
            }
            i += 1;
        }
        proof {
            assert forall|j: NodeId| #[trigger] self.is_internal(j) implies self.internal_wf(j) by {
                assert(self.node_ok(j));
            }
            assert forall|j: NodeId| #[trigger] self.is_leaf(j) implies self.leaf(j).data@.len()
                <= LEAF_ENTRIES && (j != self.root ==> self.leaf(j).data@.len() > 0) by {
                assert(self.node_ok(j));
            }
            assert forall|j: NodeId| j < self.nodes@.len() && j != self.root implies self.has_parent(
                j,
            ) by {
                assert(self.node_ok(j));
            }
            assert forall|j: NodeId| j < self.nodes@.len() implies #[trigger] self.height(j)
                <= self.height(self.root) by {
                assert(self.node_ok(j));
            }
            assert forall|j: NodeId, k: int|
                self.is_internal(j) && 0 <= k < self.children(j).len() implies (
            #[trigger] self.children(j)[k]).0 == self.node_total(self.children(j)[k].1) by {
                assert(self.node_ok(j));
            }
        }
        true
    }

    /// The chain of the leaves is right: every leaf names as its next the
    /// leaf that comes behind it in the document, and the last leaf none.
    pub open spec fn chain_wf(&self) -> bool {
        forall|i: NodeId| #[trigger] self.is_leaf(i) ==> self.leaf(i).next == self.adjacent_leaf(i, true)
    }

    /// Whether the chain of the leaves is right.
    pub fn check_chain(&self) -> (ok: bool)
        requires
            self.links_wf(),
        ensures
            ok == self.chain_wf(),
    {
        let n = self.nodes.len();
        let mut i: usize = 0;
        while i < n
            invariant
                0 <= i <= n,
                n == self.nodes@.len(),
                self.links_wf(),
                forall|j: NodeId|
                    j < i && #[trigger] self.is_leaf(j) ==> self.leaf(j).next == self.adjacent_leaf(
                        j,
                        true,
                    ),
            decreases n - i,
        {
            match &self.nodes[i] {
                Node::Leaf(l) => {
                    let behind = self.adjacent_leaf_by_traversal(i, true);
                    let same = match (l.next, behind) {
                        (Some(a), Some(b)) => a == b,
                        (None, None) => true,
                        _ => false,
                    };
                    if !same {
                        proof {
                            assert(self.is_leaf(i));
                        }
                        return false;
                    }
                },
                Node::Internal(_) => {},
            }
            i += 1;
        }
        true
    }

    /// In a tree with a right chain, the leaf before a leaf names that
    /// leaf as its next, and the leaf behind a leaf is what the leaf
    /// names.
    pub proof fn law_chain_links_neighbours(&self, leaf: NodeId)
        requires
            self.links_wf(),
            self.chain_wf(),
            self.is_leaf(leaf),
        ensures
            self.leaf(leaf).next == self.adjacent_leaf(leaf, true),
            self.adjacent_leaf(leaf, false).is_some() ==> self.is_leaf(
                self.adjacent_leaf(leaf, false).unwrap(),
            ) && self.leaf(self.adjacent_leaf(leaf, false).unwrap()).next == Some(leaf),
    {
        if self.adjacent_leaf(leaf, false).is_some() {
            self.law_prev_then_next_leaf(leaf);
            self.lemma_adjacent_is_leaf(leaf, false);
        }
    }

    /// `later` has the nodes of `self` with the same links: each node is
    /// of the same kind, at the same height, below the same node and
    /// above the same children.
    pub open spec fn same_links(&self, later: &Self) -> bool {
        &&& later.nodes@.len() == self.nodes@.len()
        &&& later.root == self.root
        &&& forall|i: NodeId|
            i < self.nodes@.len() ==> {
                &&& #[trigger] later.height(i) == self.height(i)
                &&& later.is_leaf(i) == self.is_leaf(i)
                &&& later.nodes@[i as int].spec_parent() == self.nodes@[i as int].spec_parent()
                &&& self.is_internal(i) ==> later.children(i).len() == self.children(i).len()
                    && forall|k: int|
                    0 <= k < self.children(i).len() ==> (#[trigger] later.children(i)[k]).1
                        == self.children(i)[k].1
            }
    }

    /// A node has the same place among the children of the node above it
    /// in a tree with the same links.
    proof fn lemma_same_slot(&self, later: &Self, i: NodeId)
        requires
            self.links_wf(),
            later.links_wf(),
            self.same_links(later),
            i < self.nodes@.len(),
            i != self.root,
        ensures
            later.slot_of(i) == self.slot_of(i),
    {
        self.lemma_slot(i);
        let p = self.nodes@[i as int].spec_parent().unwrap();
        let k = self.slot_of(i);
        assert(later.height(p) == self.height(p));
        assert(later.children(p)[k].1 == self.children(p)[k].1);
        later.lemma_child(p, k);
    }

    /// The same node stands beside a node in a tree with the same links.
    proof fn lemma_same_beside(&self, later: &Self, i: NodeId, forward: bool)
        requires
            self.links_wf(),
            later.links_wf(),
            self.same_links(later),
            i < self.nodes@.len(),
        ensures
            later.beside(i, forward) == self.beside(i, forward),
        decreases self.height(self.root) - self.height(i),
    {
        self.lemma_root_only(i);
        assert(later.height(i) == self.height(i));
        assert(later.height(self.root) == self.height(self.root));
        if i != self.root {
            self.lemma_slot(i);
            self.lemma_same_slot(later, i);
            let p = self.nodes@[i as int].spec_parent().unwrap();
            let k = self.slot_of(i);
            assert(later.height(p) == self.height(p));
            assert(self.height(p) <= self.height(self.root));
            if forward && k + 1 < self.children(p).len() {
                assert(later.children(p)[k + 1].1 == self.children(p)[k + 1].1);
            } else if !forward && k > 0 {
                assert(later.children(p)[k - 1].1 == self.children(p)[k - 1].1);
            } else {
                self.lemma_same_beside(later, p, forward);
            }
        }
    }

    /// The same leaves stand at the edges below a node in a tree with the
    /// same links.
    proof fn lemma_same_edges(&self, later: &Self, i: NodeId)
        requires
            self.links_wf(),
            later.links_wf(),
            self.same_links(later),
            i < self.nodes@.len(),
        ensures
            later.first_leaf(i) == self.first_leaf(i),
            later.last_leaf(i) == self.last_leaf(i),
        decreases self.height(i),
    {
        assert(later.height(i) == self.height(i));
        if self.is_internal(i) {
            assert(self.internal_wf(i));
            let n = self.children(i).len() as int;
            self.lemma_child(i, 0);
            self.lemma_child(i, n - 1);
            let a = self.children(i)[0].1;
            let b = self.children(i)[n - 1].1;
            assert(later.children(i)[0].1 == a);
            assert(later.children(i)[n - 1].1 == b);
            assert(later.children(i).last() == later.children(i)[n - 1]);
            assert(self.children(i).last() == self.children(i)[n - 1]);
            assert(later.height(a) == self.height(a));
            assert(later.height(b) == self.height(b));
            self.lemma_same_edges(later, a);
            self.lemma_same_edges(later, b);
        }
    }

    /// A right chain is right in a tree with the same links, where the
    /// leaves name the same leaves as their next.
    pub proof fn lemma_chain_kept(&self, later: &Self)
        requires
            self.links_wf(),
            later.links_wf(),
            self.same_links(later),
            self.chain_wf(),
            forall|i: NodeId| #[trigger] self.is_leaf(i) ==> later.leaf(i).next == self.leaf(i).next,
        ensures
            later.chain_wf(),
    {
        assert forall|i: NodeId| #[trigger] later.is_leaf(i) implies later.leaf(i).next
            == later.adjacent_leaf(i, true) by {
            assert(later.height(i) == self.height(i));
            assert(self.is_leaf(i));
            self.lemma_same_beside(later, i, true);
            match self.beside(i, true) {
                Some(s) => {
                    let a = self.lemma_beside_fwd(i);
                    self.lemma_slot(a);
                    let p = self.nodes@[a as int].spec_parent().unwrap();
                    self.lemma_child(p, self.slot_of(a) + 1);
                    self.lemma_same_edges(later, s);
                },
                None => {},
            }
        }
    }

    /// A change of the runs of a leaf, and of cached measures, keeps a
    /// right chain right.
    pub proof fn lemma_edit_keeps_chain(&self, later: &Self, leaf: NodeId)
        requires
            self.links_wf(),
            later.links_wf(),
            self.leaf_changed_or_same_shape(later, leaf),
            self.chain_wf(),
        ensures
            later.chain_wf(),
    {
        assert forall|i: NodeId| i < self.nodes@.len() implies {
            &&& #[trigger] later.height(i) == self.height(i)
            &&& later.is_leaf(i) == self.is_leaf(i)
            &&& later.nodes@[i as int].spec_parent() == self.nodes@[i as int].spec_parent()
            &&& self.is_internal(i) ==> later.children(i).len() == self.children(i).len()
                && forall|k: int|
                0 <= k < self.children(i).len() ==> (#[trigger] later.children(i)[k]).1
                    == self.children(i)[k].1
            &&& self.is_leaf(i) ==> later.leaf(i).next == self.leaf(i).next
        } by {
            if i != leaf {
                let a = self.nodes@[i as int];
                let b = later.nodes@[i as int];
                match (a, b) {
                    (Node::Leaf(x), Node::Leaf(y)) => {
                        assert(x == y);
                    },
                    (Node::Internal(x), Node::Internal(y)) => {
                        assert forall|k: int| 0 <= k < x.children@.len() implies (
                        #[trigger] later.children(i)[k]).1 == self.children(i)[k].1 by {
                            assert(x.children@[k].1 == y.children@[k].1);
                        }
                    },
                    _ => {},
                }
            }
        }
        self.lemma_chain_kept(later);
    }

    /// A change of cached measures keeps a right chain right.
    pub proof fn lemma_shape_keeps_chain(&self, later: &Self)
        requires
            self.links_wf(),
            later.links_wf(),
            self.same_shape(later),
            self.chain_wf(),
        ensures
            later.chain_wf(),
    {
        assert forall|i: NodeId| i < self.nodes@.len() implies {
            &&& #[trigger] later.height(i) == self.height(i)
            &&& later.is_leaf(i) == self.is_leaf(i)
            &&& later.nodes@[i as int].spec_parent() == self.nodes@[i as int].spec_parent()
            &&& self.is_internal(i) ==> later.children(i).len() == self.children(i).len()
                && forall|k: int|
                0 <= k < self.children(i).len() ==> (#[trigger] later.children(i)[k]).1
                    == self.children(i)[k].1
            &&& self.is_leaf(i) ==> later.leaf(i).next == self.leaf(i).next
        } by {
            let a = self.nodes@[i as int];
            let b = later.nodes@[i as int];
            match (a, b) {
                (Node::Leaf(x), Node::Leaf(y)) => {
                    assert(x == y);
                },
                (Node::Internal(x), Node::Internal(y)) => {
                    assert forall|k: int| 0 <= k < x.children@.len() implies (
                    #[trigger] later.children(i)[k]).1 == self.children(i)[k].1 by {
                        assert(x.children@[k].1 == y.children@[k].1);
                    }
                },
                _ => {},
            }
        }
        self.lemma_chain_kept(later);
    }
}

} // verus!
