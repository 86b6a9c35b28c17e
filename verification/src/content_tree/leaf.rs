//! What a leaf does with the runs it holds.

use crate::content_tree::internal::{cache_before, lemma_cache_before_step};
use crate::content_tree::{
    cache_sum, lemma_measure_sum_split, measure, measure_sum, spec_measure, ContentTree,
    MetricKind, Node, NodeId, NodeLeaf, TreeEntry,
};
use vstd::prelude::*;

verus! {

impl<E: TreeEntry> NodeLeaf<E> {
    /// An empty leaf below the given node.
    pub fn new_with_parent(parent: Option<NodeId>, next: Option<NodeId>) -> (l: Self)
        ensures
            l.parent == parent,
            l.next == next,
            l.data@.len() == 0,
    {
        NodeLeaf { parent, data: Vec::new(), next }
    }

    /// An empty leaf that is the root.
    pub fn new(next: Option<NodeId>) -> (l: Self)
        ensures
            l.parent.is_none(),
            l.next == next,
            l.data@.len() == 0,
    {
        Self::new_with_parent(None, next)
    }

    /// Whether the place `offset` lies in run `i`, at `offset` less the
    /// measure of the runs before it: within the run, or at its end where
    /// `stick_end` allows that.
    pub open spec fn offset_in(
        &self,
        kind: MetricKind,
        offset: usize,
        stick_end: bool,
        i: int,
    ) -> bool {
        let before = measure_sum(kind, self.data@.take(i));
        let m = spec_measure(kind, &self.data@[i]);
        &&& 0 <= i < self.data@.len()
        &&& before <= offset
        &&& (offset - before < m || (stick_end && offset - before == m))
    }

    /// Finds the run that holds the place `offset`, counted in the given
    /// measure from the start of the leaf. Returns the index of the first
    /// such run and the offset within it; the index behind the last run and
    /// 0 where `offset` is the measure of the whole leaf and no run takes
    /// it; `None` where `offset` lies beyond the leaf.
    pub fn find_offset(&self, offset: usize, stick_end: bool, kind: MetricKind) -> (r: Option<
        (usize, usize),
    >)
        ensures
            match r {
                Some((i, o)) => {
                    &&& i <= self.data@.len()
                    &&& o + measure_sum(kind, self.data@.take(i as int)) == offset
                    &&& forall|j: int| 0 <= j < i ==> !self.offset_in(kind, offset, stick_end, j)
                    &&& if i < self.data@.len() {
                        self.offset_in(kind, offset, stick_end, i as int)
                    } else {
                        o == 0
                    }
                },
                None => {
                    &&& offset > measure_sum(kind, self.data@)
                    &&& forall|j: int|
                        0 <= j < self.data@.len() ==> !self.offset_in(kind, offset, stick_end, j)
                },
            },
    {
        let mut remaining = offset;
        let mut i: usize = 0;
        assert(self.data@.take(0) =~= Seq::<E>::empty());
        while i < self.data.len()
            invariant
                0 <= i <= self.data@.len(),
                remaining + measure_sum(kind, self.data@.take(i as int)) == offset,
                forall|j: int| 0 <= j < i ==> !self.offset_in(kind, offset, stick_end, j),
            decreases self.data@.len() - i,
        {
            let entry_len = measure(kind, &self.data[i]);
            if remaining < entry_len || (stick_end && entry_len == remaining) {
                return Some((i, remaining));
            } else {
                proof {
                    assert(self.data@.take(i + 1).drop_last() =~= self.data@.take(i as int));
                    assert(self.data@.take(i + 1).last() == self.data@[i as int]);
                }
                remaining -= entry_len;
            }
            i += 1;
        }
        proof {
            assert(self.data@.take(self.data@.len() as int) =~= self.data@);
        }
        if remaining == 0 {
            // The place behind the last run.
            Some((self.data.len(), 0))
        } else {
            None
        }
    }

    /// The leaf after this one.
    pub fn next_leaf(&self) -> (r: Option<NodeId>)
        ensures
            r == self.next,
    {
        self.next
    }

    pub fn len_entries(&self) -> (n: usize)
        ensures
            n == self.data@.len(),
    {
        self.data.len()
    }

    pub fn as_slice(&self) -> (r: &[E])
        ensures
            r@ == self.data@,
    {
        self.data.as_slice()
    }

    pub fn has_root_as_parent(&self) -> (b: bool)
        ensures
            b == self.parent.is_none(),
    {
        self.parent.is_none()
    }

    /// Takes run `idx` out of the leaf.
    pub fn splice_out(&mut self, idx: usize)
        requires
            idx < old(self).data@.len(),
        ensures
            final(self).data@ == old(self).data@.remove(idx as int),
            final(self).parent == old(self).parent,
            final(self).next == old(self).next,
    {
        self.data.remove(idx);
    }

    /// Takes all runs out of the leaf.
    pub fn clear_all(&mut self)
        ensures
            final(self).data@.len() == 0,
            final(self).parent == old(self).parent,
            final(self).next == old(self).next,
    {
        self.data.clear();
    }

    /// The measure of the runs of the leaf.
    pub fn sum_entries(&self, kind: MetricKind) -> (r: usize)
        requires
            measure_sum(kind, self.data@) <= usize::MAX,
        ensures
            r == measure_sum(kind, self.data@),
    {
        let mut val: usize = 0;
        let mut i: usize = 0;
        assert(self.data@.take(0) =~= Seq::<E>::empty());
        while i < self.data.len()
            invariant
                0 <= i <= self.data@.len(),
                val == measure_sum(kind, self.data@.take(i as int)),
                measure_sum(kind, self.data@) <= usize::MAX,
            decreases self.data@.len() - i,
        {
            proof {
                assert(self.data@.take(i + 1).drop_last() =~= self.data@.take(i as int));
                assert(self.data@.take(i + 1).last() == self.data@[i as int]);
                lemma_measure_sum_split(kind, self.data@, i + 1);
            }
            val += measure(kind, &self.data[i]);
            i += 1;
        }
        proof {
            assert(self.data@.take(self.data@.len() as int) =~= self.data@);
        }
        val
    }
}

impl MetricKind {
    /// Whether the measure of a leaf can be read from the node above it.
    pub open spec fn spec_can_count_items(self) -> bool {
        self == MetricKind::RawLen
    }

    pub fn can_count_items(self) -> (b: bool)
        ensures
            b == self.spec_can_count_items(),
    {
        match self {
            MetricKind::RawLen => true,
            MetricKind::ContentLen => false,
        }
    }
}

/// Changing one cached measure by `amt` changes the sum by `amt`.
pub proof fn lemma_cache_sum_update(children: Seq<(usize, NodeId)>, k: int, new_count: usize)
    requires
        0 <= k < children.len(),
    ensures
        cache_sum(children.update(k, (new_count, children[k].1))) + children[k].0 == cache_sum(
            children,
        ) + new_count,
    decreases children.len(),
{
    let updated = children.update(k, (new_count, children[k].1));
    if k == children.len() - 1 {
        assert(updated.drop_last() =~= children.drop_last());
    } else {
        lemma_cache_sum_update(children.drop_last(), k, new_count);
        assert(updated.drop_last() =~= children.drop_last().update(
            k,
            (new_count, children[k].1),
        ));
    }
}

impl<E: TreeEntry> ContentTree<E> {
    /// The measure that the tree has cached for node `i`: in the node
    /// above it, or as the count of the tree for the root.
    pub open spec fn cached(&self, i: NodeId) -> nat {
        if i == self.root {
            self.count as nat
        } else {
            self.children(self.nodes@[i as int].spec_parent().unwrap())[self.slot_of(i)].0 as nat
        }
    }

    /// Every cached measure is right but that of `node`, which is off by
    /// `amt`.
    pub open spec fn stale_at(&self, node: NodeId, amt: int) -> bool {
        &&& forall|i: NodeId|
            i < self.nodes@.len() && i != node ==> #[trigger] self.cached(i) == self.node_total(i)
        &&& self.cached(node) + amt == self.node_total(node)
    }

    /// `later` has the nodes of `self`, linked as in `self` and with the
    /// same runs: at most cached measures differ.
    pub open spec fn same_shape(&self, later: &Self) -> bool {
        &&& later.nodes@.len() == self.nodes@.len()
        &&& later.root == self.root
        &&& later.metric == self.metric
        &&& forall|i: NodeId|
            i < self.nodes@.len() ==> match (#[trigger] self.nodes@[i as int], later.nodes@[i as int]) {
                (Node::Leaf(a), Node::Leaf(b)) => a == b,
                (Node::Internal(a), Node::Internal(b)) => {
                    &&& a.parent == b.parent
                    &&& a.height == b.height
                    &&& a.children@.len() == b.children@.len()
                    &&& forall|k: int|
                        0 <= k < a.children@.len() ==> (#[trigger] a.children@[k]).1
                            == b.children@[k].1
                },
                _ => false,
            }
    }

    /// A tree of the same shape has the same links.
    #[verifier::rlimit(50)]
    pub proof fn lemma_same_shape_links(&self, later: &Self)
        requires
            self.links_wf(),
            self.same_shape(later),
        ensures
            later.links_wf(),
            forall|i: NodeId| i < self.nodes@.len() && i != self.root ==> #[trigger] later.slot_of(i)
                == self.slot_of(i),
    {
        assert forall|i: NodeId| i < self.nodes@.len() implies later.height(i) == self.height(i)
            && later.nodes@[i as int].spec_parent() == self.nodes@[i as int].spec_parent()
            && later.is_internal(i) == self.is_internal(i) && later.is_leaf(i) == self.is_leaf(
            i,
        ) by {
            let a = self.nodes@[i as int];
        }
        assert forall|i: NodeId| #[trigger] later.is_internal(i) implies later.internal_wf(i) by {
            let a = self.nodes@[i as int];
            assert(self.is_internal(i));
            assert(self.internal_wf(i));
            assert forall|k: int| 0 <= k < later.children(i).len() implies {
                let c = (#[trigger] later.children(i)[k]).1;
                &&& c < later.nodes@.len()
                &&& later.nodes@[c as int].spec_parent() == Some(i)
                &&& later.height(c) + 1 == later.internal(i).height
            } by {
                assert(self.children(i)[k].1 == later.children(i)[k].1);
                let c = self.children(i)[k].1;
                let b = self.nodes@[c as int];
            }
            assert forall|k1: int, k2: int| 0 <= k1 < k2 < later.children(i).len() implies (
            #[trigger] later.children(i)[k1]).1 != (#[trigger] later.children(i)[k2]).1 by {
                assert(self.children(i)[k1].1 != self.children(i)[k2].1);
            }
        }
        assert forall|i: NodeId| #[trigger] later.is_leaf(i) implies later.leaf(i).data@.len()
            <= crate::content_tree::LEAF_ENTRIES && (i != later.root ==> later.leaf(i).data@.len()
            > 0) by {
            let a = self.nodes@[i as int];
            assert(self.is_leaf(i));
        }
        assert forall|i: NodeId| i < later.nodes@.len() && i != later.root implies later.has_parent(
            i,
        ) by {
            self.lemma_slot_exists(i);
            let p = self.nodes@[i as int].spec_parent().unwrap();
            let k = self.slot_of(i);
            let a = self.nodes@[p as int];
            assert(later.children(p)[k].1 == i);
        }
        assert forall|i: NodeId| i < self.nodes@.len() && i != self.root implies #[trigger] later.slot_of(
            i,
        ) == self.slot_of(i) by {
            self.lemma_slot_exists(i);
            let p = self.nodes@[i as int].spec_parent().unwrap();
            let k = self.slot_of(i);
            let k2 = later.slot_of(i);
            assert(later.children(p)[k].1 == i);
            assert(later.children(p)[k2].1 == i);
            assert(self.internal_wf(p));
            assert(self.children(p)[k2].1 == i);
            if k < k2 {
                assert(self.children(p)[k].1 != self.children(p)[k2].1);
            } else if k2 < k {
                assert(self.children(p)[k2].1 != self.children(p)[k].1);
            }
        }
    }

    /// A node other than the root is a child of the node above it.
    pub proof fn lemma_slot_exists(&self, i: NodeId)
        requires
            self.links_wf(),
            i < self.nodes@.len(),
            i != self.root,
        ensures
            self.nodes@[i as int].spec_parent().is_some(),
            self.is_internal(self.nodes@[i as int].spec_parent().unwrap()),
            0 <= self.slot_of(i) < self.children(self.nodes@[i as int].spec_parent().unwrap()).len(),
            self.children(self.nodes@[i as int].spec_parent().unwrap())[self.slot_of(i)].1 == i,
    {
        assert(self.has_parent(i));
    }

    /// Where every cached measure is right, the metrics of the tree are
    /// consistent.
    pub proof fn lemma_cached_right(&self)
        requires
            self.links_wf(),
            forall|i: NodeId| i < self.nodes@.len() ==> #[trigger] self.cached(i) == self.node_total(i),
        ensures
            self.metrics_wf(),
    {
        assert(self.cached(self.root) == self.node_total(self.root));
        assert forall|i: NodeId, k: int|
            self.is_internal(i) && 0 <= k < self.children(i).len() implies (
        #[trigger] self.children(i)[k]).0 == self.node_total(self.children(i)[k].1) by {
            assert(self.internal_wf(i));
            let c = self.children(i)[k].1;
            self.lemma_slot_exists_child(i, k);
            assert(self.cached(c) == self.node_total(c));
        }
    }

    /// Child `k` of node `i` has slot `k`, and is not the root.
    pub proof fn lemma_slot_exists_child(&self, i: NodeId, k: int)
        requires
            self.links_wf(),
            self.is_internal(i),
            0 <= k < self.children(i).len(),
        ensures
            self.children(i)[k].1 != self.root,
            self.children(i)[k].1 < self.nodes@.len(),
            self.nodes@[self.children(i)[k].1 as int].spec_parent() == Some(i),
            self.slot_of(self.children(i)[k].1) == k,
    {
        assert(self.internal_wf(i));
        let c = self.children(i)[k].1;
        let j = self.slot_of(c);
        assert(self.children(i)[j].1 == c);
        if j < k {
            assert(self.children(i)[j].1 != self.children(i)[k].1);
        } else if k < j {
            assert(self.children(i)[k].1 != self.children(i)[j].1);
        }
    }

    /// The measure of every node fits the machine, and that of every node
    /// above `leaf` also after a change by `amt`.
    pub open spec fn totals_fit(&self, leaf: NodeId, amt: int) -> bool {
        &&& 0 <= self.count + amt <= usize::MAX
        &&& forall|i: NodeId|
            i < self.nodes@.len() ==> #[trigger] self.node_total(i) <= usize::MAX && (i != leaf
                && self.on_path(leaf, i) ==> 0 <= self.node_total(i) + amt <= usize::MAX)
    }

    /// A tree has its own shape.
    pub proof fn lemma_same_shape_refl(&self)
        ensures
            self.same_shape(self),
    {
        assert forall|i: NodeId| i < self.nodes@.len() implies match (
            #[trigger] self.nodes@[i as int],
            self.nodes@[i as int],
        ) {
            (Node::Leaf(a), Node::Leaf(b)) => a == b,
            (Node::Internal(a), Node::Internal(b)) => true,
            _ => false,
        } by {
        }
    }

    /// Trees of one shape with a third have one shape.
    pub proof fn lemma_same_shape_trans(&self, mid: &Self, later: &Self)
        requires
            self.same_shape(mid),
            mid.same_shape(later),
        ensures
            self.same_shape(later),
    {
        assert forall|i: NodeId| i < self.nodes@.len() implies match (
            #[trigger] self.nodes@[i as int],
            later.nodes@[i as int],
        ) {
            (Node::Leaf(a), Node::Leaf(b)) => a == b,
            (Node::Internal(a), Node::Internal(b)) => {
                &&& a.parent == b.parent
                &&& a.height == b.height
                &&& a.children@.len() == b.children@.len()
                &&& forall|k: int|
                    0 <= k < a.children@.len() ==> (#[trigger] a.children@[k]).1
                        == b.children@[k].1
            },
            _ => false,
        } by {
            let m = mid.nodes@[i as int];
            match (self.nodes@[i as int], m, later.nodes@[i as int]) {
                (Node::Internal(a), Node::Internal(b), Node::Internal(c)) => {
                    assert forall|k: int| 0 <= k < a.children@.len() implies (
                    #[trigger] a.children@[k]).1 == c.children@[k].1 by {
                        assert(a.children@[k].1 == b.children@[k].1);
                        assert(b.children@[k].1 == c.children@[k].1);
                    }
                },
                _ => {},
            }
        }
    }

    /// With the count brought up to date at the root, the whole tree is
    /// consistent.
    pub proof fn lemma_count_frame(&self, later: &Self, amt: int)
        requires
            self.links_wf(),
            self.stale_at(self.root, amt),
            later.nodes == self.nodes,
            later.root == self.root,
            later.metric == self.metric,
            later.count == self.count + amt,
        ensures
            later.wf(),
    {
        assert(self.same_shape(later)) by {
            assert forall|i: NodeId| i < self.nodes@.len() implies match (
                #[trigger] self.nodes@[i as int],
                later.nodes@[i as int],
            ) {
                (Node::Leaf(a), Node::Leaf(b)) => a == b,
                (Node::Internal(a), Node::Internal(b)) => {
                    &&& a.parent == b.parent
                    &&& a.height == b.height
                    &&& a.children@.len() == b.children@.len()
                    &&& forall|k: int|
                        0 <= k < a.children@.len() ==> (#[trigger] a.children@[k]).1
                            == b.children@[k].1
                },
                _ => false,
            } by {
            }
        }
        self.lemma_same_shape_links(later);
        assert forall|i: NodeId| i < later.nodes@.len() implies #[trigger] later.cached(i)
            == later.node_total(i) by {
            if i != self.root {
                assert(self.cached(i) == self.node_total(i));
                assert(later.slot_of(i) == self.slot_of(i));
            }
        }
        later.lemma_cached_right();
    }

    /// With the cached measure of `child` brought up to date in the node
    /// above it, the one cached measure that is off is that of the node
    /// above.
    #[verifier::rlimit(50)]
    pub proof fn lemma_cache_frame(
        &self,
        later: &Self,
        parent: NodeId,
        child: NodeId,
        idx: int,
        amt: int,
    )
        requires
            self.links_wf(),
            self.stale_at(child, amt),
            child < self.nodes@.len(),
            child != self.root,
            self.nodes@[child as int].spec_parent() == Some(parent),
            self.is_internal(parent),
            0 <= idx < self.children(parent).len(),
            self.children(parent)[idx].1 == child,
            0 <= self.children(parent)[idx].0 + amt <= usize::MAX,
            later.nodes@.len() == self.nodes@.len(),
            later.root == self.root,
            later.count == self.count,
            later.metric == self.metric,
            forall|i: NodeId|
                i < self.nodes@.len() && i != parent ==> later.nodes@[i as int]
                    == self.nodes@[i as int],
            later.is_internal(parent),
            later.internal(parent).parent == self.internal(parent).parent,
            later.internal(parent).height == self.internal(parent).height,
            later.children(parent) == self.children(parent).update(
                idx,
                ((self.children(parent)[idx].0 + amt) as usize, child),
            ),
        ensures
            self.same_shape(later),
            later.links_wf(),
            later.stale_at(parent, amt),
            later.node_total(parent) == self.node_total(parent) + amt,
            forall|i: NodeId|
                i < self.nodes@.len() && i != parent ==> #[trigger] later.node_total(i)
                    == self.node_total(i),
    {
        assert(self.same_shape(later)) by {
            assert forall|i: NodeId| i < self.nodes@.len() implies match (
                #[trigger] self.nodes@[i as int],
                later.nodes@[i as int],
            ) {
                (Node::Leaf(a), Node::Leaf(b)) => a == b,
                (Node::Internal(a), Node::Internal(b)) => {
                    &&& a.parent == b.parent
                    &&& a.height == b.height
                    &&& a.children@.len() == b.children@.len()
                    &&& forall|k: int|
                        0 <= k < a.children@.len() ==> (#[trigger] a.children@[k]).1
                            == b.children@[k].1
                },
                _ => false,
            } by {
            }
        }
        self.lemma_same_shape_links(later);
        lemma_cache_sum_update(
            self.children(parent),
            idx,
            (self.children(parent)[idx].0 + amt) as usize,
        );
        self.lemma_slot_exists_child(parent, idx);
        self.lemma_root_only(parent);
        assert forall|i: NodeId| i < later.nodes@.len() && i != parent implies #[trigger] later.cached(
            i,
        ) == later.node_total(i) by {
            if i == later.root {
                assert(self.cached(i) == self.node_total(i));
            } else {
                self.lemma_slot_exists(i);
                let p = self.nodes@[i as int].spec_parent().unwrap();
                let k = self.slot_of(i);
                assert(later.slot_of(i) == k);
                if i == child {
                    assert(p == parent);
                    assert(k == idx);
                } else {
                    assert(self.cached(i) == self.node_total(i));
                    if p == parent {
                        assert(k != idx);
                    }
                }
            }
        }
        if parent != self.root {
            self.lemma_slot_exists(parent);
            assert(later.slot_of(parent) == self.slot_of(parent));
            let gp = self.nodes@[parent as int].spec_parent().unwrap();
            self.lemma_parent_differs(parent);
        }
        assert(self.cached(parent) == self.node_total(parent));
    }

    /// The node above a node is another node.
    pub proof fn lemma_parent_differs(&self, i: NodeId)
        requires
            self.links_wf(),
            i < self.nodes@.len(),
            i != self.root,
        ensures
            self.nodes@[i as int].spec_parent().unwrap() != i,
    {
        self.lemma_slot(i);
    }

    /// Sets the cached measure of child `idx` of inner node `parent`.
    fn set_cache(&mut self, parent: NodeId, idx: usize, value: usize)
        requires
            old(self).is_internal(parent),
            idx < old(self).children(parent).len(),
        ensures
            final(self).nodes@.len() == old(self).nodes@.len(),
            final(self).root == old(self).root,
            final(self).count == old(self).count,
            final(self).metric == old(self).metric,
            forall|i: NodeId|
                i < old(self).nodes@.len() && i != parent ==> final(self).nodes@[i as int] == old(
                    self,
                ).nodes@[i as int],
            final(self).is_internal(parent),
            final(self).internal(parent).parent == old(self).internal(parent).parent,
            final(self).internal(parent).height == old(self).internal(parent).height,
            final(self).children(parent) == old(self).children(parent).update(
                idx as int,
                (value, old(self).children(parent)[idx as int].1),
            ),
    {
        let ghost before = self.nodes@;
        let old_node = self.internal_node(parent);
        let child = old_node.children[idx].1;
        let mut children: Vec<(usize, NodeId)> = Vec::new();
        let mut k: usize = 0;
        while k < old_node.children.len()
            invariant
                0 <= k <= old_node.children@.len(),
                idx < old_node.children@.len(),
                child == old_node.children@[idx as int].1,
                children@ == old_node.children@.update(idx as int, (value, child)).take(k as int),
            decreases old_node.children@.len() - k,
        {
            if k == idx {
                children.push((value, child));
            } else {
                children.push(old_node.children[k]);
            }
            proof {
                let target = old_node.children@.update(idx as int, (value, child));
                assert(target.take(k + 1) =~= target.take(k as int).push(target[k as int]));
            }
            k += 1;
        }
        proof {
            let target = old_node.children@.update(idx as int, (value, child));
            assert(target.take(target.len() as int) =~= target);
        }
        let node = crate::content_tree::NodeInternal {
            parent: old_node.parent,
            height: old_node.height,
            children,
        };
        self.nodes.set(parent, Node::Internal(node));
    }

    /// The inner node with the given index.
    fn internal_node(&self, i: NodeId) -> (n: &crate::content_tree::NodeInternal)
        requires
            self.is_internal(i),
        ensures
            *n == self.internal(i),
    {
        match &self.nodes[i] {
            Node::Internal(n) => n,
            Node::Leaf(_) => vstd::pervasive::unreached(),
        }
    }
}

/// `base` changed by `amt`.
pub fn add_signed(base: usize, amt: isize) -> (r: usize)
    requires
        0 <= base + amt <= usize::MAX,
    ensures
        r == base + amt,
{
    if amt >= 0 {
        base + amt as usize
    } else {
        let back: usize = (-(amt + 1)) as usize;
        base - back - 1
    }
}

impl<E: TreeEntry> NodeLeaf<E> {
    /// After the runs of leaf `leaf` have changed so that its measure is
    /// off by `amt` from what the tree has cached for it, brings the
    /// caches up to date: adds `amt` to the cached measure of the leaf and
    /// of every node above it, and to the count of the tree.
    #[verifier::rlimit(50)]
    pub fn update_parent_count(tree: &mut ContentTree<E>, leaf: NodeId, amt: isize)
        requires
            old(tree).links_wf(),
            old(tree).is_leaf(leaf),
            old(tree).stale_at(leaf, amt as int),
            old(tree).totals_fit(leaf, amt as int),
        ensures
            final(tree).wf(),
            old(tree).same_shape(final(tree)),
            final(tree).count == old(tree).count + amt,
            old(tree).chain_wf() ==> final(tree).chain_wf(),
    {
        let ghost start = *tree;
        let mut child = leaf;
        proof {
            old(tree).lemma_same_shape_refl();
        }
        loop
            invariant_except_break
                tree.stale_at(child, amt as int),
                tree.count == old(tree).count,
                0 <= tree.node_total(child) <= usize::MAX,
            invariant
                tree.links_wf(),
                child < tree.nodes@.len(),
                tree.is_leaf(leaf),
                old(tree).on_path(leaf, child),
                old(tree).links_wf(),
                old(tree).same_shape(tree),
                old(tree).totals_fit(leaf, amt as int),
                forall|i: NodeId|
                    i < tree.nodes@.len() && tree.height(i) > tree.height(child)
                        ==> #[trigger] tree.node_total(i) == old(tree).node_total(i),
            ensures
                tree.wf(),
                tree.count == old(tree).count + amt,
            decreases tree.height(tree.root) - tree.height(child),
        {
            let ghost t0 = *tree;
            proof {
                tree.lemma_root_only(child);
            }
            let parent = match tree.nodes[child].parent() {
                None => {
                    // The root: its measure is the count of the tree.
                    proof {
                        assert(tree.cached(child) == tree.count);
                    }
                    tree.count = add_signed(tree.count, amt);
                    proof {
                        t0.lemma_count_frame(tree, amt as int);
                    }
                    break ;
                },
                Some(p) => p,
            };
            proof {
                tree.lemma_slot(child);
                old(tree).lemma_root_only(child);
                old(tree).lemma_path_step(leaf, child);
                let a = old(tree).nodes@[child as int];
                assert(old(tree).nodes@[child as int].spec_parent() == Some(parent));
            }
            let idx = match tree.internal_node(parent).find_child(child) {
                Some(idx) => idx,
                None => {
                    proof {
                        assert(false);
                    }
                    break ;
                },
            };
            proof {
                tree.lemma_slot_exists_child(parent, idx as int);
                assert(tree.cached(child) == tree.children(parent)[idx as int].0);
                assert(tree.node_total(parent) == old(tree).node_total(parent));
            }
            let cache = tree.internal_node(parent).children[idx].0;
            tree.set_cache(parent, idx, add_signed(cache, amt));
            proof {
                assert(parent != leaf);
                t0.lemma_cache_frame(tree, parent, child, idx as int, amt as int);
                old(tree).lemma_same_shape_trans(&t0, tree);
            }
            child = parent;
        }
        proof {
            if start.chain_wf() {
                start.lemma_shape_keeps_chain(tree);
            }
        }
    }

    /// Hands the change that `marker` has collected on to the caches of
    /// the tree, and sets `marker` to nothing.
    pub fn flush_metric_update(tree: &mut ContentTree<E>, leaf: NodeId, marker: &mut isize)
        requires
            old(tree).links_wf(),
            old(tree).is_leaf(leaf),
            old(tree).stale_at(leaf, *old(marker) as int),
            old(tree).totals_fit(leaf, *old(marker) as int),
        ensures
            final(tree).wf(),
            old(tree).same_shape(final(tree)),
            final(tree).count == old(tree).count + *old(marker),
            *final(marker) == 0,
    {
        let amt = *marker;
        *marker = 0;
        Self::update_parent_count(tree, leaf, amt);
    }

    /// The measure of the runs of leaf `leaf`: read from the node above
    /// where the measure of the tree allows that, else summed up.
    pub fn count_items(tree: &ContentTree<E>, leaf: NodeId) -> (r: usize)
        requires
            tree.wf(),
            tree.is_leaf(leaf),
        ensures
            r == measure_sum(tree.metric, tree.leaf(leaf).data@),
            r == tree.node_total(leaf),
    {
        proof {
            tree.lemma_root_only(leaf);
            tree.lemma_node_pos_bound(leaf);
        }
        if tree.metric.can_count_items() {
            match tree.leaf_ref(leaf).parent {
                None => tree.count,
                Some(node) => {
                    proof {
                        tree.lemma_slot(leaf);
                    }
                    let n = tree.internal_node(node);
                    match n.find_child(leaf) {
                        Some(idx) => {
                            proof {
                                tree.lemma_slot_exists_child(node, idx as int);
                            }
                            n.children[idx].0
                        },
                        None => {
                            proof {
                                assert(false);
                            }
                            0
                        },
                    }
                },
            }
        } else {
            tree.leaf_ref(leaf).sum_entries(tree.metric)
        }
    }
}

} // verus!
