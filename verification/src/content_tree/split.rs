//! Making room in a tree: a new root above the old one, and a node cut in
//! two under a node that has room for one child more.

use crate::content_tree::internal::lemma_cache_before_step;
use crate::content_tree::leaf::lemma_cache_sum_update;
use crate::content_tree::{
    cache_sum, lemma_measure_sum_split, measure, measure_sum, ContentTree, MetricKind, Node,
    NodeId, NodeInternal, NodeLeaf, TreeEntry, INTERNAL_ENTRIES, LEAF_ENTRIES,
};
use vstd::prelude::*;

verus! {

/// Whether two nodes hold the same: the same runs or children, and the
/// same links but perhaps for the node above.
pub open spec fn same_but_parent<E>(a: Node<E>, b: Node<E>) -> bool {
    match (a, b) {
        (Node::Leaf(x), Node::Leaf(y)) => x.data@ == y.data@ && x.next == y.next,
        (Node::Internal(x), Node::Internal(y)) => x.children@ == y.children@ && x.height
            == y.height,
        _ => false,
    }
}

impl<E: TreeEntry> ContentTree<E> {
    /// A copy of the children of inner node `i`.
    fn copy_children(&self, i: NodeId) -> (children: Vec<(usize, NodeId)>)
        requires
            self.is_internal(i),
        ensures
            children@ == self.children(i),
    {
        let src = &self.internal_ref(i).children;
        let mut children: Vec<(usize, NodeId)> = Vec::new();
        let mut k: usize = 0;
        while k < src.len()
            invariant
                0 <= k <= src@.len(),
                children@ == src@.take(k as int),
            decreases src@.len() - k,
        {
            children.push(src[k]);
            assert(src@.take(k + 1) =~= src@.take(k as int).push(src@[k as int]));
            k += 1;
        }
        assert(src@.take(src@.len() as int) =~= src@);
        children
    }

    /// A copy of the runs of leaf `i`.
    pub(crate) fn copy_data(&self, i: NodeId) -> (data: Vec<E>)
        requires
            self.is_leaf(i),
        ensures
            data@ == self.leaf(i).data@,
    {
        let src = &self.leaf_ref(i).data;
        let mut data: Vec<E> = Vec::new();
        let mut k: usize = 0;
        while k < src.len()
            invariant
                0 <= k <= src@.len(),
                data@ == src@.take(k as int),
            decreases src@.len() - k,
        {
            data.push(src[k]);
            assert(src@.take(k + 1) =~= src@.take(k as int).push(src@[k as int]));
            k += 1;
        }
        assert(src@.take(src@.len() as int) =~= src@);
        data
    }

    /// Names `parent` as the node above node `i`.
    fn set_parent(&mut self, i: NodeId, parent: Option<NodeId>)
        requires
            i < old(self).nodes@.len(),
        ensures
            final(self).nodes@.len() == old(self).nodes@.len(),
            final(self).root == old(self).root,
            final(self).count == old(self).count,
            final(self).metric == old(self).metric,
            forall|j: NodeId|
                j < old(self).nodes@.len() && j != i ==> #[trigger] final(self).nodes@[j as int]
                    == old(self).nodes@[j as int],
            same_but_parent(old(self).nodes@[i as int], final(self).nodes@[i as int]),
            final(self).nodes@[i as int].spec_parent() == parent,
    {
        let node = match &self.nodes[i] {
            Node::Leaf(l) => {
                let next = l.next;
                assert(self.is_leaf(i));
                let data = self.copy_data(i);
                Node::Leaf(NodeLeaf { parent, data, next })
            },
            Node::Internal(n) => {
                let height = n.height;
                assert(self.is_internal(i));
                let children = self.copy_children(i);
                Node::Internal(NodeInternal { parent, height, children })
            },
        };
        self.nodes.set(i, node);
    }

    /// `later` is `self` with a new root above the old one, which is its
    /// only child.
    pub open spec fn root_grown(&self, later: &Self) -> bool {
        let r = self.nodes@.len() as usize;
        &&& later.nodes@.len() == self.nodes@.len() + 1
        &&& later.root == r
        &&& later.count == self.count
        &&& later.metric == self.metric
        &&& later.is_internal(r)
        &&& later.internal(r).parent.is_none()
        &&& later.internal(r).height == self.height(self.root) + 1
        &&& later.children(r) == seq![(self.count, self.root)]
        &&& same_but_parent(self.nodes@[self.root as int], later.nodes@[self.root as int])
        &&& later.nodes@[self.root as int].spec_parent() == Some(r)
        &&& forall|j: NodeId|
            j < self.nodes@.len() && j != self.root ==> #[trigger] later.nodes@[j as int]
                == self.nodes@[j as int]
    }

    /// A tree with a new root above the old one is consistent.
    pub proof fn lemma_root_grown(&self, later: &Self)
        requires
            self.wf(),
            self.nodes@.len() < usize::MAX,
            self.root_grown(later),
            self.is_leaf(self.root) ==> self.leaf(self.root).data@.len() > 0,
        ensures
            later.wf(),
            forall|i: NodeId| i < self.nodes@.len() ==> #[trigger] later.node_total(i) == self.node_total(i),
    {
        let r = self.nodes@.len() as usize;
        let old_root = self.root;
        assert forall|i: NodeId| i < self.nodes@.len() implies later.height(i) == self.height(i)
            && later.is_internal(i) == self.is_internal(i) && later.is_leaf(i) == self.is_leaf(i)
            && #[trigger] later.node_total(i) == self.node_total(i) && (i != old_root
            ==> later.nodes@[i as int].spec_parent() == self.nodes@[i as int].spec_parent()) && (
        self.is_internal(i) ==> later.children(i) == self.children(i)) && (self.is_leaf(i)
            ==> later.leaf(i).data@ == self.leaf(i).data@) by {
            if i != old_root {
                assert(later.nodes@[i as int] == self.nodes@[i as int]);
            }
        }
        assert(later.children(r)[0] == (self.count, old_root));
        assert forall|i: NodeId| #[trigger] later.is_internal(i) implies later.internal_wf(i) by {
            if i != r {
                assert(self.is_internal(i));
                assert(self.internal_wf(i));
                assert forall|k: int| 0 <= k < later.children(i).len() implies {
                    let c = (#[trigger] later.children(i)[k]).1;
                    &&& c < later.nodes@.len()
                    &&& later.nodes@[c as int].spec_parent() == Some(i)
                    &&& later.height(c) + 1 == later.internal(i).height
                } by {
                    self.lemma_slot_exists_child(i, k);
                }
            }
        }
        assert forall|i: NodeId| #[trigger] later.is_leaf(i) implies later.leaf(i).data@.len()
            <= LEAF_ENTRIES && (i != later.root ==> later.leaf(i).data@.len() > 0) by {
            assert(self.is_leaf(i));
            if i == old_root {
                // The old root may be an empty leaf only as the only node.
                assert(self.leaf(i).data@.len() <= LEAF_ENTRIES);
            }
        }
        assert forall|i: NodeId| i < later.nodes@.len() && i != later.root implies later.has_parent(
            i,
        ) by {
            if i == old_root {
                assert(later.children(r)[0].1 == i);
            } else {
                self.lemma_slot_exists(i);
                let p = self.nodes@[i as int].spec_parent().unwrap();
                assert(later.children(p)[self.slot_of(i)].1 == i);
            }
        }
        assert forall|i: NodeId| i < later.nodes@.len() implies #[trigger] later.height(i)
            <= later.height(later.root) by {
            if i != r {
                assert(self.height(i) <= self.height(self.root));
            }
        }
        assert(cache_sum(later.children(r)) == self.count) by {
            let s = later.children(r);
            assert(s.len() == 1);
            assert(s.drop_last() =~= Seq::<(usize, NodeId)>::empty());
            assert(cache_sum(s.drop_last()) == 0);
            assert(s.last() == (self.count, old_root));
        }
        assert forall|i: NodeId, k: int|
            later.is_internal(i) && 0 <= k < later.children(i).len() implies (
        #[trigger] later.children(i)[k]).0 == later.node_total(later.children(i)[k].1) by {
            if i != r {
                self.lemma_slot_exists_child(i, k);
                assert(self.children(i)[k].0 == self.node_total(self.children(i)[k].1));
            }
        }
    }

    /// Puts a new root above the root. The old root becomes its only
    /// child. Not for a tree whose root is an empty leaf.
    pub fn grow_root(&mut self)
        requires
            old(self).wf(),
            old(self).nodes@.len() < usize::MAX,
            old(self).height(old(self).root) < usize::MAX,
            old(self).is_leaf(old(self).root) ==> old(self).leaf(old(self).root).data@.len() > 0,
        ensures
            final(self).wf(),
            old(self).root_grown(final(self)),
            old(self).keeps_runs(final(self)),
            old(self).chain_wf() ==> final(self).chain_wf(),
    {
        let ghost before = *self;
        let r = self.nodes.len();
        let old_root = self.root;
        let height = match &self.nodes[old_root] {
            Node::Leaf(_) => 0,
            Node::Internal(n) => n.height,
        };
        self.set_parent(old_root, Some(r));
        let mut children: Vec<(usize, NodeId)> = Vec::new();
        children.push((self.count, old_root));
        self.nodes.push(Node::Internal(NodeInternal { parent: None, height: height + 1, children }));
        self.root = r;
        proof {
            assert(self.children(r) =~= seq![(before.count, old_root)]);
            assert forall|j: NodeId| j < before.nodes@.len() && j != before.root implies #[trigger] self.nodes@[j as int]
                == before.nodes@[j as int] by {
            }
            before.lemma_root_grown(self);
            before.lemma_grown_keeps_runs(self);
            if before.chain_wf() {
                before.lemma_grown_chain(self);
            }
        }
    }
}

/// A list of children with one child more measures what it measured, and
/// the child.
pub proof fn lemma_cache_sum_insert(children: Seq<(usize, NodeId)>, k: int, child: (usize, NodeId))
    requires
        0 <= k <= children.len(),
    ensures
        cache_sum(children.insert(k, child)) == cache_sum(children) + child.0,
    decreases children.len() - k,
{
    let r = children.insert(k, child);
    if k == children.len() {
        assert(r.drop_last() =~= children);
        assert(r.last() == child);
    } else {
        assert(r.drop_last() =~= children.drop_last().insert(k, child));
        assert(r.last() == children.last());
        lemma_cache_sum_insert(children.drop_last(), k, child);
    }
}

/// The children of a node after child `k` has been cut in two: the child
/// with what it keeps, and behind it the new node with the rest.
pub open spec fn children_after_split(
    children: Seq<(usize, NodeId)>,
    k: int,
    left: usize,
    right: usize,
    y: NodeId,
) -> Seq<(usize, NodeId)> {
    children.update(k, (left, children[k].1)).insert(k + 1, (right, y))
}

/// Cutting a child in two leaves what the node measures.
pub proof fn lemma_children_after_split(
    children: Seq<(usize, NodeId)>,
    k: int,
    left: usize,
    right: usize,
    y: NodeId,
)
    requires
        0 <= k < children.len(),
        left + right == children[k].0,
    ensures
        cache_sum(children_after_split(children, k, left, right, y)) == cache_sum(children),
{
    lemma_cache_sum_update(children, k, left);
    lemma_cache_sum_insert(children.update(k, (left, children[k].1)), k + 1, (right, y));
}

/// A list of children measures what its two parts measure.
pub proof fn lemma_cache_sum_split(children: Seq<(usize, NodeId)>, h: int)
    requires
        0 <= h <= children.len(),
    ensures
        cache_sum(children) == cache_sum(children.take(h)) + cache_sum(children.skip(h)),
    decreases children.len() - h,
{
    if h == children.len() {
        assert(children.take(h) =~= children);
        assert(children.skip(h) =~= Seq::<(usize, NodeId)>::empty());
    } else {
        assert(children.skip(h).drop_last() =~= children.drop_last().skip(h));
        assert(children.skip(h).last() == children.last());
        assert(children.drop_last().take(h) =~= children.take(h));
        lemma_cache_sum_split(children.drop_last(), h);
    }
}

/// The measure of the runs.
fn sum_entries<E: TreeEntry>(kind: MetricKind, data: &Vec<E>) -> (r: usize)
    requires
        measure_sum(kind, data@) <= usize::MAX,
    ensures
        r == measure_sum(kind, data@),
{
    let mut val: usize = 0;
    let mut i: usize = 0;
    assert(data@.take(0) =~= Seq::<E>::empty());
    while i < data.len()
        invariant
            0 <= i <= data@.len(),
            val == measure_sum(kind, data@.take(i as int)),
            measure_sum(kind, data@) <= usize::MAX,
        decreases data@.len() - i,
    {
        proof {
            assert(data@.take(i + 1).drop_last() =~= data@.take(i as int));
            assert(data@.take(i + 1).last() == data@[i as int]);
            lemma_measure_sum_split(kind, data@, i + 1);
        }
        val += measure(kind, &data[i]);
        i += 1;
    }
    proof {
        assert(data@.take(data@.len() as int) =~= data@);
    }
    val
}

impl<E: TreeEntry> ContentTree<E> {
    /// `later` is `self` with leaf `x` cut in two before its run `h`: `x`
    /// keeps the runs before it, and a new leaf behind `x` has the rest.
    pub open spec fn leaf_split(&self, later: &Self, x: NodeId, h: int) -> bool {
        let y = self.nodes@.len() as usize;
        let p = self.leaf(x).parent.unwrap();
        let k = self.slot_of(x);
        let data = self.leaf(x).data@;
        &&& later.nodes@.len() == self.nodes@.len() + 1
        &&& later.root == self.root
        &&& later.count == self.count
        &&& later.metric == self.metric
        &&& later.is_leaf(x)
        &&& later.leaf(x).parent == Some(p)
        &&& later.leaf(x).next == Some(y)
        &&& later.leaf(x).data@ == data.take(h)
        &&& later.is_leaf(y)
        &&& later.leaf(y).parent == Some(p)
        &&& later.leaf(y).next == self.leaf(x).next
        &&& later.leaf(y).data@ == data.skip(h)
        &&& later.is_internal(p)
        &&& later.internal(p).parent == self.internal(p).parent
        &&& later.internal(p).height == self.internal(p).height
        &&& later.children(p) == children_after_split(
            self.children(p),
            k,
            measure_sum(self.metric, data.take(h)) as usize,
            measure_sum(self.metric, data.skip(h)) as usize,
            y,
        )
        &&& forall|j: NodeId|
            j < self.nodes@.len() && j != x && j != p ==> #[trigger] later.nodes@[j as int]
                == self.nodes@[j as int]
    }

    /// A tree with a leaf cut in two under a node that had room is
    /// consistent.
    #[verifier::rlimit(50)]
    pub proof fn lemma_leaf_split(&self, later: &Self, x: NodeId, h: int)
        requires
            self.wf(),
            self.nodes@.len() < usize::MAX,
            self.is_leaf(x),
            x != self.root,
            0 < h < self.leaf(x).data@.len(),
            self.children(self.leaf(x).parent.unwrap()).len() < INTERNAL_ENTRIES,
            self.leaf_split(later, x, h),
        ensures
            later.wf(),
    {
        let y = self.nodes@.len() as usize;
        let p = self.leaf(x).parent.unwrap();
        let k = self.slot_of(x);
        let data = self.leaf(x).data@;
        let left = measure_sum(self.metric, data.take(h)) as usize;
        let right = measure_sum(self.metric, data.skip(h)) as usize;
        self.lemma_slot(x);
        self.lemma_slot_exists_child(p, k);
        self.lemma_node_pos_bound(x);
        lemma_measure_sum_split(self.metric, data, h);
        assert(self.internal_wf(p));
        assert(self.children(p)[k].0 == self.node_total(self.children(p)[k].1));
        lemma_children_after_split(self.children(p), k, left, right, y);
        let cs = self.children(p);
        let cl = later.children(p);
        assert(cl.len() == cs.len() + 1);
        assert forall|m: int| 0 <= m < cl.len() implies #[trigger] cl[m] == (if m < k {
            cs[m]
        } else if m == k {
            (left, x)
        } else if m == k + 1 {
            (right, y)
        } else {
            cs[m - 1]
        }) by {
        }
        assert forall|i: NodeId| i < self.nodes@.len() implies later.height(i) == self.height(i)
            && later.is_internal(i) == self.is_internal(i) && later.is_leaf(i) == self.is_leaf(i)
            && later.nodes@[i as int].spec_parent() == self.nodes@[i as int].spec_parent() && (i
            != x ==> #[trigger] later.node_total(i) == self.node_total(i)) && (self.is_internal(i)
            && i != p ==> later.children(i) == self.children(i)) by {
            if i != x && i != p {
                assert(later.nodes@[i as int] == self.nodes@[i as int]);
            }
        }
        assert forall|i: NodeId| #[trigger] later.is_internal(i) implies later.internal_wf(i) by {
            assert(self.is_internal(i));
            assert(self.internal_wf(i));
            if i == p {
                assert forall|m: int| 0 <= m < cl.len() implies {
                    let c = (#[trigger] cl[m]).1;
                    &&& c < later.nodes@.len()
                    &&& later.nodes@[c as int].spec_parent() == Some(p)
                    &&& later.height(c) + 1 == later.internal(p).height
                } by {
                    if m < k {
                        self.lemma_slot_exists_child(p, m);
                    } else if m > k + 1 {
                        self.lemma_slot_exists_child(p, m - 1);
                    }
                }
                assert forall|m1: int, m2: int| 0 <= m1 < m2 < cl.len() implies (
                #[trigger] cl[m1]).1 != (#[trigger] cl[m2]).1 by {
                    let a = if m1 <= k {
                        m1
                    } else {
                        m1 - 1
                    };
                    let b = if m2 <= k {
                        m2
                    } else {
                        m2 - 1
                    };
                    self.lemma_slot_exists_child(p, a);
                    self.lemma_slot_exists_child(p, b);
                    if m1 != k + 1 && m2 != k + 1 {
                        assert(cs[a].1 != cs[b].1);
                    }
                }
            } else {
                assert forall|m: int| 0 <= m < later.children(i).len() implies {
                    let c = (#[trigger] later.children(i)[m]).1;
                    &&& c < later.nodes@.len()
                    &&& later.nodes@[c as int].spec_parent() == Some(i)
                    &&& later.height(c) + 1 == later.internal(i).height
                } by {
                    self.lemma_slot_exists_child(i, m);
                }
            }
        }
        assert forall|i: NodeId| #[trigger] later.is_leaf(i) implies later.leaf(i).data@.len()
            <= LEAF_ENTRIES && (i != later.root ==> later.leaf(i).data@.len() > 0) by {
            if i != x && i != y {
                assert(self.is_leaf(i));
            } else {
                assert(self.leaf(x).data@.len() <= LEAF_ENTRIES);
            }
        }
        assert forall|i: NodeId| i < later.nodes@.len() && i != later.root implies later.has_parent(
            i,
        ) by {
            if i == y {
                assert(cl[k + 1].1 == y);
            } else if i == x {
                assert(cl[k].1 == x);
            } else {
                self.lemma_slot_exists(i);
                let q = self.nodes@[i as int].spec_parent().unwrap();
                let m = self.slot_of(i);
                if q == p {
                    if m < k {
                        assert(cl[m].1 == i);
                    } else {
                        assert(cl[m + 1].1 == i);
                    }
                } else {
                    assert(later.children(q)[m].1 == i);
                }
            }
        }
        assert forall|i: NodeId| i < later.nodes@.len() implies #[trigger] later.height(i)
            <= later.height(later.root) by {
            if i != y {
                assert(self.height(i) <= self.height(self.root));
            }
        }
        assert forall|i: NodeId, m: int|
            later.is_internal(i) && 0 <= m < later.children(i).len() implies (
        #[trigger] later.children(i)[m]).0 == later.node_total(later.children(i)[m].1) by {
            if i == p {
                if m < k {
                    self.lemma_slot_exists_child(p, m);
                    assert(cs[m].0 == self.node_total(cs[m].1));
                } else if m > k + 1 {
                    self.lemma_slot_exists_child(p, m - 1);
                    assert(cs[m - 1].0 == self.node_total(cs[m - 1].1));
                }
            } else {
                self.lemma_slot_exists_child(i, m);
                assert(self.children(i)[m].0 == self.node_total(self.children(i)[m].1));
            }
        }
    }

    /// Cuts leaf `x` in two halves under the node above it, which has
    /// room. Returns the new leaf, which stands behind `x` and holds the
    /// second half of its runs.
    #[verifier::rlimit(50)]
    pub fn split_leaf(&mut self, x: NodeId) -> (y: NodeId)
        requires
            old(self).wf(),
            old(self).nodes@.len() < usize::MAX,
            old(self).is_leaf(x),
            x != old(self).root,
            old(self).leaf(x).data@.len() >= 2,
            old(self).children(old(self).leaf(x).parent.unwrap()).len() < INTERNAL_ENTRIES,
        ensures
            final(self).wf(),
            y == old(self).nodes@.len(),
            old(self).leaf_split(final(self), x, (old(self).leaf(x).data@.len() / 2) as int),
            old(self).keeps_runs(final(self)),
            final(self).entries_before(y) == old(self).entries_before(x) + old(self).leaf(
                x,
            ).data@.len() / 2,
            old(self).chain_wf() ==> final(self).chain_wf(),
    {
        let ghost before = *self;
        let y = self.nodes.len();
        let kind = self.metric;
        proof {
            self.lemma_root_only(x);
            self.lemma_slot(x);
            self.lemma_node_pos_bound(x);
        }
        let p = match self.leaf_ref(x).parent {
            Some(p) => p,
            None => vstd::pervasive::unreached(),
        };
        let next = self.leaf_ref(x).next;
        let k = match self.internal_ref(p).find_child(x) {
            Some(k) => k,
            None => vstd::pervasive::unreached(),
        };
        proof {
            self.lemma_slot_exists_child(p, k as int);
        }
        let mut left = self.copy_data(x);
        let h = left.len() / 2;
        let right = left.split_off(h);
        proof {
            lemma_measure_sum_split(kind, before.leaf(x).data@, h as int);
            assert(left@ =~= before.leaf(x).data@.take(h as int));
            assert(right@ =~= before.leaf(x).data@.skip(h as int));
        }
        let left_total = sum_entries(kind, &left);
        let right_total = sum_entries(kind, &right);
        let parent_node = self.internal_ref(p);
        let parent_parent = parent_node.parent;
        let parent_height = parent_node.height;
        let mut children = self.copy_children(p);
        children.set(k, (left_total, x));
        children.insert(k + 1, (right_total, y));
        self.nodes.set(x, Node::Leaf(NodeLeaf { parent: Some(p), data: left, next: Some(y) }));
        self.nodes.set(
            p,
            Node::Internal(NodeInternal { parent: parent_parent, height: parent_height, children }),
        );
        self.nodes.push(Node::Leaf(NodeLeaf { parent: Some(p), data: right, next }));
        proof {
            assert(self.children(p) =~= children_after_split(
                before.children(p),
                k as int,
                left_total,
                right_total,
                y,
            ));
            before.lemma_leaf_split(self, x, h as int);
            before.lemma_cut_keeps_runs(self, x, h as int);
            if before.chain_wf() {
                before.lemma_cut_chain(self, x, h as int);
            }
        }
        y
    }

    /// Whether node `j` is among the children of `x` from child `h` on.
    pub open spec fn moves_in_split(&self, x: NodeId, h: int, j: NodeId) -> bool {
        self.nodes@[j as int].spec_parent() == Some(x) && self.slot_of(j) >= h
    }

    /// `later` is `self` with inner node `x` cut in two before its child
    /// `h`: `x` keeps the children before it, and a new node behind `x` has
    /// the rest, which name it as the node above them.
    pub open spec fn internal_split(&self, later: &Self, x: NodeId, h: int) -> bool {
        let y = self.nodes@.len() as usize;
        let p = self.internal(x).parent.unwrap();
        let k = self.slot_of(x);
        let below = self.children(x);
        &&& later.nodes@.len() == self.nodes@.len() + 1
        &&& later.root == self.root
        &&& later.count == self.count
        &&& later.metric == self.metric
        &&& later.is_internal(x)
        &&& later.internal(x).parent == Some(p)
        &&& later.internal(x).height == self.internal(x).height
        &&& later.children(x) == below.take(h)
        &&& later.is_internal(y)
        &&& later.internal(y).parent == Some(p)
        &&& later.internal(y).height == self.internal(x).height
        &&& later.children(y) == below.skip(h)
        &&& later.is_internal(p)
        &&& later.internal(p).parent == self.internal(p).parent
        &&& later.internal(p).height == self.internal(p).height
        &&& later.children(p) == children_after_split(
            self.children(p),
            k,
            cache_sum(below.take(h)) as usize,
            cache_sum(below.skip(h)) as usize,
            y,
        )
        &&& forall|j: NodeId|
            j < self.nodes@.len() && j != x && j != p ==> if self.moves_in_split(x, h, j) {
                &&& same_but_parent(self.nodes@[j as int], #[trigger] later.nodes@[j as int])
                &&& later.nodes@[j as int].spec_parent() == Some(y)
            } else {
                later.nodes@[j as int] == self.nodes@[j as int]
            }
    }

    /// What the cut of inner node `x` before child `h` leaves of node `i`.
    pub open spec fn kept_in_split(&self, later: &Self, x: NodeId, h: int, i: NodeId) -> bool {
        &&& later.height(i) == self.height(i)
        &&& later.is_internal(i) == self.is_internal(i)
        &&& later.is_leaf(i) == self.is_leaf(i)
        &&& (i != x ==> later.node_total(i) == self.node_total(i))
        &&& later.nodes@[i as int].spec_parent() == (if self.moves_in_split(x, h, i) {
            Some(self.nodes@.len() as usize)
        } else {
            self.nodes@[i as int].spec_parent()
        })
        &&& (self.is_internal(i) && i != x && Some(i) != self.internal(x).parent
            ==> later.children(i) == self.children(i))
        &&& (self.is_leaf(i) ==> later.leaf(i).data@ == self.leaf(i).data@)
    }

    /// The conditions under which inner node `x` is cut in two before its
    /// child `h`, with `later` as the outcome.
    pub open spec fn internal_split_of(&self, later: &Self, x: NodeId, h: int) -> bool {
        &&& self.wf()
        &&& self.nodes@.len() < usize::MAX
        &&& self.is_internal(x)
        &&& x != self.root
        &&& 0 < h < self.children(x).len()
        &&& self.children(self.internal(x).parent.unwrap()).len() < INTERNAL_ENTRIES
        &&& self.internal_split(later, x, h)
    }

    /// What an inner node cut in two leaves of each node that was there.
    pub proof fn lemma_internal_split_nodes(&self, later: &Self, x: NodeId, h: int)
        requires
            self.internal_split_of(later, x, h),
        ensures
            forall|i: NodeId|
                i < self.nodes@.len() ==> #[trigger] self.kept_in_split(later, x, h, i),
            forall|m: int|
                0 <= m < self.children(x).len() ==> {
                    let c = (#[trigger] self.children(x)[m]).1;
                    &&& c < self.nodes@.len()
                    &&& c != x
                    &&& Some(c) != self.internal(x).parent
                    &&& self.moves_in_split(x, h, c) == (m >= h)
                    &&& self.height(c) + 1 == self.height(x)
                    &&& self.children(x)[m].0 == self.node_total(c)
                },
    {
        let y = self.nodes@.len() as usize;
        let p = self.internal(x).parent.unwrap();
        let k = self.slot_of(x);
        let below = self.children(x);
        let left = cache_sum(below.take(h)) as usize;
        let right = cache_sum(below.skip(h)) as usize;
        self.lemma_slot(x);
        self.lemma_slot_exists_child(p, k);
        self.lemma_node_pos_bound(x);
        lemma_cache_sum_split(below, h);
        assert(self.children(p)[k].0 == self.node_total(self.children(p)[k].1));
        lemma_children_after_split(self.children(p), k, left, right, y);
        assert forall|i: NodeId| i < self.nodes@.len() implies #[trigger] self.kept_in_split(
            later,
            x,
            h,
            i,
        ) by {
            if i == x {
                assert(!self.moves_in_split(x, h, i));
            } else if i == p {
                self.lemma_root_only(p);
                if p != self.root {
                    self.lemma_slot(p);
                }
                assert(!self.moves_in_split(x, h, i));
            } else {
                assert(later.nodes@[i as int] == self.nodes@[i as int] || same_but_parent(
                    self.nodes@[i as int],
                    later.nodes@[i as int],
                ));
            }
        }
        assert forall|m: int| 0 <= m < below.len() implies {
            let c = (#[trigger] below[m]).1;
            &&& c < self.nodes@.len()
            &&& c != x
            &&& Some(c) != self.internal(x).parent
            &&& self.moves_in_split(x, h, c) == (m >= h)
            &&& self.height(c) + 1 == self.height(x)
            &&& below[m].0 == self.node_total(c)
        } by {
            self.lemma_slot_exists_child(x, m);
            assert(self.internal_wf(x));
        }
    }

    /// The children of the node above a cut node, one by one.
    pub proof fn lemma_internal_split_above(&self, later: &Self, x: NodeId, h: int)
        requires
            self.internal_split_of(later, x, h),
        ensures
            later.children(self.internal(x).parent.unwrap()).len() == self.children(
                self.internal(x).parent.unwrap(),
            ).len() + 1,
            forall|m: int|
                0 <= m < later.children(self.internal(x).parent.unwrap()).len() ==> {
                    let cs = self.children(self.internal(x).parent.unwrap());
                    let k = self.slot_of(x);
                    #[trigger] later.children(self.internal(x).parent.unwrap())[m] == (if m < k {
                        cs[m]
                    } else if m == k {
                        (cache_sum(self.children(x).take(h)) as usize, x)
                    } else if m == k + 1 {
                        (cache_sum(self.children(x).skip(h)) as usize, self.nodes@.len() as usize)
                    } else {
                        cs[m - 1]
                    })
                },
            cache_sum(self.children(x).take(h)) as usize == cache_sum(self.children(x).take(h)),
            cache_sum(self.children(x).skip(h)) as usize == cache_sum(self.children(x).skip(h)),
            later.node_total(self.internal(x).parent.unwrap()) == self.node_total(
                self.internal(x).parent.unwrap(),
            ),
    {
        let y = self.nodes@.len() as usize;
        let p = self.internal(x).parent.unwrap();
        let k = self.slot_of(x);
        let below = self.children(x);
        let left = cache_sum(below.take(h)) as usize;
        let right = cache_sum(below.skip(h)) as usize;
        self.lemma_slot(x);
        self.lemma_slot_exists_child(p, k);
        self.lemma_node_pos_bound(x);
        lemma_cache_sum_split(below, h);
        assert(self.children(p)[k].0 == self.node_total(self.children(p)[k].1));
        lemma_children_after_split(self.children(p), k, left, right, y);
    }

    /// After the cut of an inner node, every inner node has its children
    /// right.
    #[verifier::rlimit(50)]
    proof fn lemma_internal_split_inner(&self, later: &Self, x: NodeId, h: int, i: NodeId)
        requires
            self.internal_split_of(later, x, h),
            later.is_internal(i),
        ensures
            later.internal_wf(i),
            forall|m: int|
                0 <= m < later.children(i).len() ==> (#[trigger] later.children(i)[m]).0
                    == later.node_total(later.children(i)[m].1),
    {
        let y = self.nodes@.len() as usize;
        let p = self.internal(x).parent.unwrap();
        let k = self.slot_of(x);
        let below = self.children(x);
        self.lemma_slot(x);
        self.lemma_slot_exists_child(p, k);
        assert(self.internal_wf(p));
        assert(self.internal_wf(x));
        self.lemma_internal_split_nodes(later, x, h);
        self.lemma_internal_split_above(later, x, h);
        let cs = self.children(p);
        let cl = later.children(p);
        if i == y {
            assert forall|m: int| 0 <= m < later.children(y).len() implies {
                let c = (#[trigger] later.children(y)[m]).1;
                &&& c < later.nodes@.len()
                &&& later.nodes@[c as int].spec_parent() == Some(y)
                &&& later.height(c) + 1 == later.internal(y).height
                &&& later.children(y)[m].0 == later.node_total(c)
            } by {
                assert(later.children(y)[m] == below[m + h]);
                assert(self.kept_in_split(later, x, h, below[m + h].1));
            }
            assert forall|m1: int, m2: int| 0 <= m1 < m2 < later.children(y).len() implies (
            #[trigger] later.children(y)[m1]).1 != (#[trigger] later.children(y)[m2]).1 by {
                assert(below[m1 + h].1 != below[m2 + h].1);
            }
        } else if i == x {
            assert forall|m: int| 0 <= m < later.children(x).len() implies {
                let c = (#[trigger] later.children(x)[m]).1;
                &&& c < later.nodes@.len()
                &&& later.nodes@[c as int].spec_parent() == Some(x)
                &&& later.height(c) + 1 == later.internal(x).height
                &&& later.children(x)[m].0 == later.node_total(c)
            } by {
                assert(later.children(x)[m] == below[m]);
                assert(self.kept_in_split(later, x, h, below[m].1));
            }
            assert forall|m1: int, m2: int| 0 <= m1 < m2 < later.children(x).len() implies (
            #[trigger] later.children(x)[m1]).1 != (#[trigger] later.children(x)[m2]).1 by {
                assert(below[m1].1 != below[m2].1);
            }
        } else if i == p {
            assert forall|m: int| 0 <= m < cl.len() implies {
                let c = (#[trigger] cl[m]).1;
                &&& c < later.nodes@.len()
                &&& later.nodes@[c as int].spec_parent() == Some(p)
                &&& later.height(c) + 1 == later.internal(p).height
                &&& cl[m].0 == later.node_total(c)
            } by {
                if m < k {
                    self.lemma_slot_exists_child(p, m);
                    assert(self.kept_in_split(later, x, h, cs[m].1));
                    assert(cs[m].0 == self.node_total(cs[m].1));
                } else if m > k + 1 {
                    self.lemma_slot_exists_child(p, m - 1);
                    assert(self.kept_in_split(later, x, h, cs[m - 1].1));
                    assert(cs[m - 1].0 == self.node_total(cs[m - 1].1));
                } else if m == k {
                    assert(self.kept_in_split(later, x, h, x));
                }
            }
            assert forall|m1: int, m2: int| 0 <= m1 < m2 < cl.len() implies (#[trigger] cl[m1]).1
                != (#[trigger] cl[m2]).1 by {
                let a = if m1 <= k {
                    m1
                } else {
                    m1 - 1
                };
                let b = if m2 <= k {
                    m2
                } else {
                    m2 - 1
                };
                self.lemma_slot_exists_child(p, a);
                self.lemma_slot_exists_child(p, b);
                if m1 != k + 1 && m2 != k + 1 {
                    assert(cs[a].1 != cs[b].1);
                }
            }
        } else {
            assert(self.kept_in_split(later, x, h, i));
            assert(self.is_internal(i));
            assert(self.internal_wf(i));
            assert forall|m: int| 0 <= m < later.children(i).len() implies {
                let c = (#[trigger] later.children(i)[m]).1;
                &&& c < later.nodes@.len()
                &&& later.nodes@[c as int].spec_parent() == Some(i)
                &&& later.height(c) + 1 == later.internal(i).height
                &&& later.children(i)[m].0 == later.node_total(c)
            } by {
                let c = self.children(i)[m].1;
                self.lemma_slot_exists_child(i, m);
                assert(self.kept_in_split(later, x, h, c));
                assert(self.children(i)[m].0 == self.node_total(c));
            }
        }
    }

    /// After the cut of an inner node, every node but the root is a child
    /// of the node that it names.
    #[verifier::rlimit(50)]
    proof fn lemma_internal_split_parent(&self, later: &Self, x: NodeId, h: int, i: NodeId)
        requires
            self.internal_split_of(later, x, h),
            i < later.nodes@.len(),
            i != later.root,
        ensures
            later.has_parent(i),
    {
        let y = self.nodes@.len() as usize;
        let p = self.internal(x).parent.unwrap();
        let k = self.slot_of(x);
        self.lemma_slot(x);
        self.lemma_internal_split_nodes(later, x, h);
        self.lemma_internal_split_above(later, x, h);
        let cl = later.children(p);
        if i == y {
            assert(cl[k + 1].1 == y);
            later.lemma_is_child(y, p, k + 1);
        } else if i == x {
            assert(self.kept_in_split(later, x, h, x));
            assert(cl[k].1 == x);
            later.lemma_is_child(x, p, k);
        } else {
            assert(self.kept_in_split(later, x, h, i));
            self.lemma_slot_exists(i);
            let q = self.nodes@[i as int].spec_parent().unwrap();
            let m = self.slot_of(i);
            if q == p {
                assert(!self.moves_in_split(x, h, i));
                if m < k {
                    assert(cl[m].1 == i);
                    later.lemma_is_child(i, p, m);
                } else {
                    assert(m != k);
                    assert(cl[m + 1] == self.children(p)[m]);
                    later.lemma_is_child(i, p, m + 1);
                }
            } else if q == x {
                if m < h {
                    assert(!self.moves_in_split(x, h, i));
                    assert(later.children(x)[m] == self.children(x)[m]);
                    later.lemma_is_child(i, x, m);
                } else {
                    assert(self.moves_in_split(x, h, i));
                    assert(later.children(y)[m - h] == self.children(x)[m]);
                    later.lemma_is_child(i, y, m - h);
                }
            } else {
                assert(!self.moves_in_split(x, h, i));
                assert(q < self.nodes@.len());
                assert(self.kept_in_split(later, x, h, q));
                assert(later.children(q) == self.children(q));
                later.lemma_is_child(i, q, m);
            }
        }
    }

    /// A node that names the node above it and stands among the children
    /// of that node is a child of it.
    proof fn lemma_is_child(&self, i: NodeId, q: NodeId, m: int)
        requires
            i < self.nodes@.len(),
            self.nodes@[i as int].spec_parent() == Some(q),
            self.is_internal(q),
            0 <= m < self.children(q).len(),
            self.children(q)[m].1 == i,
        ensures
            self.has_parent(i),
    {
    }

    /// A tree with an inner node cut in two under a node that had room is
    /// consistent.
    #[verifier::rlimit(50)]
    pub proof fn lemma_internal_split(&self, later: &Self, x: NodeId, h: int)
        requires
            self.internal_split_of(later, x, h),
        ensures
            later.wf(),
    {
        let y = self.nodes@.len() as usize;
        self.lemma_slot(x);
        self.lemma_internal_split_nodes(later, x, h);
        self.lemma_internal_split_above(later, x, h);
        assert(self.kept_in_split(later, x, h, self.root));
        self.lemma_root_only(self.root);
        assert(!self.moves_in_split(x, h, self.root));
        assert forall|i: NodeId| #[trigger] later.is_internal(i) implies later.internal_wf(i) by {
            self.lemma_internal_split_inner(later, x, h, i);
        }
        assert forall|i: NodeId| #[trigger] later.is_leaf(i) implies later.leaf(i).data@.len()
            <= LEAF_ENTRIES && (i != later.root ==> later.leaf(i).data@.len() > 0) by {
            assert(self.kept_in_split(later, x, h, i));
            assert(self.is_leaf(i));
        }
        assert forall|i: NodeId| i < later.nodes@.len() && i != later.root implies later.has_parent(
            i,
        ) by {
            self.lemma_internal_split_parent(later, x, h, i);
        }
        assert forall|i: NodeId| i < later.nodes@.len() implies #[trigger] later.height(i)
            <= later.height(later.root) by {
            if i != y {
                assert(self.kept_in_split(later, x, h, i));
                assert(self.height(i) <= self.height(self.root));
            } else {
                assert(self.height(x) <= self.height(self.root));
            }
        }
        assert forall|i: NodeId, m: int|
            later.is_internal(i) && 0 <= m < later.children(i).len() implies (
        #[trigger] later.children(i)[m]).0 == later.node_total(later.children(i)[m].1) by {
            self.lemma_internal_split_inner(later, x, h, i);
        }
    }

    /// Cuts inner node `x` in two halves under the node above it, which
    /// has room. Returns the new node, which stands behind `x` and holds
    /// the second half of its children.
    #[verifier::rlimit(100)]
    pub fn split_internal(&mut self, x: NodeId) -> (y: NodeId)
        requires
            old(self).wf(),
            old(self).nodes@.len() < usize::MAX,
            old(self).is_internal(x),
            x != old(self).root,
            old(self).children(x).len() >= 2,
            old(self).children(old(self).internal(x).parent.unwrap()).len() < INTERNAL_ENTRIES,
        ensures
            final(self).wf(),
            y == old(self).nodes@.len(),
            old(self).internal_split(final(self), x, (old(self).children(x).len() / 2) as int),
            old(self).keeps_runs(final(self)),
            old(self).chain_wf() ==> final(self).chain_wf(),
    {
        let ghost before = *self;
        let y = self.nodes.len();
        proof {
            self.lemma_root_only(x);
            self.lemma_slot(x);
            self.lemma_node_pos_bound(x);
        }
        let p = match self.internal_ref(x).parent {
            Some(p) => p,
            None => vstd::pervasive::unreached(),
        };
        let height = self.internal_ref(x).height;
        let k = match self.internal_ref(p).find_child(x) {
            Some(k) => k,
            None => vstd::pervasive::unreached(),
        };
        proof {
            self.lemma_slot_exists_child(p, k as int);
            assert(self.internal_wf(x));
        }
        let mut left = self.copy_children(x);
        let h = left.len() / 2;
        proof {
            lemma_cache_sum_split(left@, h as int);
            lemma_cache_before_step(left@, 0);
        }
        let left_total = self.internal_ref(x).sum_before(h);
        let total = self.internal_ref(x).sum_before(left.len());
        let right_total = total - left_total;
        let right = left.split_off(h);
        proof {
            assert(left@ =~= before.children(x).take(h as int));
            assert(right@ =~= before.children(x).skip(h as int));
        }
        let parent_node = self.internal_ref(p);
        let parent_parent = parent_node.parent;
        let parent_height = parent_node.height;
        let mut children = self.copy_children(p);
        children.set(k, (left_total, x));
        children.insert(k + 1, (right_total, y));
        self.nodes.set(x, Node::Internal(NodeInternal { parent: Some(p), height, children: left }));
        self.nodes.set(
            p,
            Node::Internal(NodeInternal { parent: parent_parent, height: parent_height, children }),
        );
        let moved = right.len();
        let ghost below = before.children(x);
        self.nodes.push(Node::Internal(NodeInternal { parent: Some(p), height, children: right }));
        proof {
            assert(self.children(p) =~= children_after_split(
                before.children(p),
                k as int,
                left_total,
                right_total,
                y,
            ));
            assert forall|m: int| 0 <= m < below.len() implies {
                let c = (#[trigger] below[m]).1;
                &&& c < before.nodes@.len()
                &&& c != x
                &&& c != p
                &&& before.nodes@[c as int].spec_parent() == Some(x)
                &&& before.slot_of(c) == m
            } by {
                before.lemma_slot_exists_child(x, m);
                before.lemma_slot(below[m].1);
            }
        }
        let mut m: usize = 0;
        while m < moved
            invariant
                0 <= m <= moved,
                moved + h == below.len(),
                below == before.children(x),
                before.wf(),
                x != before.root,
                y == before.nodes@.len(),
                before.is_internal(x),
                before.is_internal(p),
                x != p,
                self.nodes@.len() == before.nodes@.len() + 1,
                self.root == before.root,
                self.count == before.count,
                self.metric == before.metric,
                self.is_internal(x),
                self.internal(x).parent == Some(p),
                self.internal(x).height == before.internal(x).height,
                self.children(x) == below.take(h as int),
                self.is_internal(y),
                self.internal(y).parent == Some(p),
                self.internal(y).height == before.internal(x).height,
                self.children(y) == below.skip(h as int),
                self.is_internal(p),
                self.internal(p).parent == before.internal(p).parent,
                self.internal(p).height == before.internal(p).height,
                self.children(p) == children_after_split(
                    before.children(p),
                    k as int,
                    left_total,
                    right_total,
                    y,
                ),
                forall|j: int|
                    0 <= j < below.len() ==> {
                        let c = (#[trigger] below[j]).1;
                        &&& c < before.nodes@.len()
                        &&& c != x
                        &&& c != p
                        &&& before.nodes@[c as int].spec_parent() == Some(x)
                        &&& before.slot_of(c) == j
                    },
                forall|j: NodeId|
                    j < before.nodes@.len() && j != x && j != p ==> if before.moves_in_split(
                        x,
                        h as int,
                        j,
                    ) && before.slot_of(j) < h + m {
                        &&& same_but_parent(
                            before.nodes@[j as int],
                            #[trigger] self.nodes@[j as int],
                        )
                        &&& self.nodes@[j as int].spec_parent() == Some(y)
                    } else {
                        self.nodes@[j as int] == before.nodes@[j as int]
                    },
            decreases moved - m,
        {
            let ghost mid = *self;
            let c = self.internal_ref(y).children[m].1;
            assert(c == below[h + m].1);
            self.set_parent(c, Some(y));
            proof {
                assert forall|j: NodeId|
                    j < before.nodes@.len() && j != x && j != p implies if before.moves_in_split(
                    x,
                    h as int,
                    j,
                ) && before.slot_of(j) < h + m + 1 {
                    &&& same_but_parent(before.nodes@[j as int], #[trigger] self.nodes@[j as int])
                    &&& self.nodes@[j as int].spec_parent() == Some(y)
                } else {
                    self.nodes@[j as int] == before.nodes@[j as int]
                } by {
                    if j != c {
                        assert(self.nodes@[j as int] == mid.nodes@[j as int]);
                        if before.moves_in_split(x, h as int, j) && before.slot_of(j) == h + m {
                            before.lemma_slot(j);
                        }
                    } else {
                        assert(mid.nodes@[c as int] == before.nodes@[c as int]);
                    }
                }
                assert(self.nodes@[x as int] == mid.nodes@[x as int]);
                assert(self.nodes@[p as int] == mid.nodes@[p as int]);
                assert(self.nodes@[y as int] == mid.nodes@[y as int]);
            }
            m += 1;
        }
        proof {
            assert forall|j: NodeId|
                j < before.nodes@.len() && before.moves_in_split(x, h as int, j)
                    implies before.slot_of(j) < h + moved by {
                before.lemma_root_only(j);
                before.lemma_slot(j);
            }
            before.lemma_internal_split(self, x, h as int);
            before.lemma_cut_keeps_runs(self, x, h as int);
            if before.chain_wf() {
                before.lemma_cut_chain(self, x, h as int);
            }
        }
        y
    }
}

} // verus!
