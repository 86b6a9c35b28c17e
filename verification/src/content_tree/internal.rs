//! What an inner node does with its children.

use crate::content_tree::{cache_sum, NodeId, NodeInternal, INTERNAL_ENTRIES};
use vstd::prelude::*;

verus! {

/// The sum of the cached measures of the first `k` children.
pub open spec fn cache_before(children: Seq<(usize, NodeId)>, k: int) -> nat {
    cache_sum(children.take(k))
}

/// The cached measures before a child and its own are those before the
/// next child; before the first child there is nothing, and before the
/// end all.
pub proof fn lemma_cache_before_step(children: Seq<(usize, NodeId)>, k: int)
    requires
        0 <= k < children.len(),
    ensures
        cache_before(children, k + 1) == cache_before(children, k) + children[k].0,
        cache_before(children, 0) == 0,
        cache_before(children, children.len() as int) == cache_sum(children),
{
    assert(children.take(k + 1).drop_last() =~= children.take(k));
    assert(children.take(k + 1).last() == children[k]);
    assert(children.take(0) =~= Seq::<(usize, NodeId)>::empty());
    assert(children.take(children.len() as int) =~= children);
}

/// The cached measures before a child are no more than those before a
/// later child.
pub proof fn lemma_cache_before_grows(children: Seq<(usize, NodeId)>, j: int, k: int)
    requires
        0 <= j <= k <= children.len(),
    ensures
        cache_before(children, j) <= cache_before(children, k),
    decreases k - j,
{
    if j < k {
        lemma_cache_before_step(children, k - 1);
        lemma_cache_before_grows(children, j, k - 1);
    }
}

impl NodeInternal {
    /// An inner node without children below the given node.
    pub fn new_with_parent(parent: Option<NodeId>, height: usize) -> (n: Self)
        ensures
            n.parent == parent,
            n.height == height,
            n.children@.len() == 0,
    {
        NodeInternal { parent, height, children: Vec::new() }
    }

    /// Whether the place `raw_pos` lies below child `k`, at `raw_pos` less
    /// the measure of the children before it.
    pub open spec fn pos_in(&self, raw_pos: usize, stick_end: bool, k: int) -> bool {
        let before = cache_before(self.children@, k);
        let count = self.children@[k].0;
        &&& 0 <= k < self.children@.len()
        &&& before <= raw_pos
        &&& (raw_pos - before < count || (stick_end && raw_pos - before == count))
    }

    /// Finds the child below which the place `raw_pos` lies. Returns the
    /// position within that child, the first that takes the place, with
    /// its index and the child; `None` where no child takes it.
    pub fn get_child(&self, raw_pos: usize, stick_end: bool) -> (r: Option<(usize, usize, NodeId)>)
        ensures
            match r {
                Some((offset, k, child)) => {
                    &&& self.pos_in(raw_pos, stick_end, k as int)
                    &&& offset + cache_before(self.children@, k as int) == raw_pos
                    &&& child == self.children@[k as int].1
                    &&& forall|j: int| 0 <= j < k ==> !self.pos_in(raw_pos, stick_end, j)
                },
                None => forall|j: int|
                    0 <= j < self.children@.len() ==> !self.pos_in(raw_pos, stick_end, j),
            },
    {
        let mut offset_remaining = raw_pos;
        let mut k: usize = 0;
        assert(self.children@.take(0) =~= Seq::<(usize, NodeId)>::empty());
        while k < self.children.len()
            invariant
                0 <= k <= self.children@.len(),
                offset_remaining + cache_before(self.children@, k as int) == raw_pos,
                forall|j: int| 0 <= j < k ==> !self.pos_in(raw_pos, stick_end, j),
            decreases self.children@.len() - k,
        {
            let (count, elem) = self.children[k];
            if offset_remaining < count || (stick_end && offset_remaining == count) {
                return Some((offset_remaining, k, elem));
            } else {
                proof {
                    lemma_cache_before_step(self.children@, k as int);
                }
                offset_remaining -= count;
            }
            k += 1;
        }
        None
    }

    /// Puts a child in at place `idx`; the children from there on move up
    /// by one. The cached measures of the nodes above are not touched.
    pub fn splice_in(&mut self, idx: usize, count: usize, elem: NodeId)
        requires
            idx <= old(self).children@.len(),
            old(self).children@.len() < INTERNAL_ENTRIES,
        ensures
            final(self).children@ == old(self).children@.insert(idx as int, (count, elem)),
            final(self).parent == old(self).parent,
            final(self).height == old(self).height,
    {
        self.children.insert(idx, (count, elem));
    }

    pub fn count_children(&self) -> (n: usize)
        ensures
            n == self.children@.len(),
    {
        self.children.len()
    }

    /// The place of the given node among the children.
    pub fn find_child(&self, child: NodeId) -> (r: Option<usize>)
        ensures
            match r {
                Some(k) => k < self.children@.len() && self.children@[k as int].1 == child
                    && forall|j: int| 0 <= j < k ==> (#[trigger] self.children@[j]).1 != child,
                None => forall|j: int|
                    0 <= j < self.children@.len() ==> (#[trigger] self.children@[j]).1 != child,
            },
    {
        let mut k: usize = 0;
        while k < self.children.len()
            invariant
                0 <= k <= self.children@.len(),
                forall|j: int| 0 <= j < k ==> (#[trigger] self.children@[j]).1 != child,
            decreases self.children@.len() - k,
        {
            if self.children[k].1 == child {
                return Some(k);
            }
            k += 1;
        }
        None
    }

    /// The sum of the cached measures of the first `idx` children.
    pub fn sum_before(&self, idx: usize) -> (r: usize)
        requires
            idx <= self.children@.len(),
            cache_sum(self.children@) <= usize::MAX,
        ensures
            r == cache_before(self.children@, idx as int),
    {
        let mut pos: usize = 0;
        let mut k: usize = 0;
        assert(self.children@.take(0) =~= Seq::<(usize, NodeId)>::empty());
        while k < idx
            invariant
                0 <= k <= idx <= self.children@.len(),
                pos == cache_before(self.children@, k as int),
                cache_sum(self.children@) <= usize::MAX,
            decreases idx - k,
        {
            proof {
                lemma_cache_before_step(self.children@, k as int);
                lemma_cache_before_grows(
                    self.children@,
                    k + 1,
                    self.children@.len() as int,
                );
                lemma_cache_before_step(self.children@, self.children@.len() - 1);
            }
            pos += self.children[k].0;
            k += 1;
        }
        pos
    }
}

} // verus!
