//! Changing the runs of a tree: a run is put into a leaf or taken out of
//! it, and the cached measures above the leaf are brought up to date.

use crate::content_tree::{
    measure, measure_sum, spec_measure, ContentTree, MetricKind, Node, NodeId, NodeLeaf,
    TreeEntry, LEAF_ENTRIES,
};
use vstd::prelude::*;

verus! {

/// A list with a run put in measures what it measured, and the run.
pub proof fn lemma_measure_sum_insert<E: TreeEntry>(
    kind: MetricKind,
    entries: Seq<E>,
    i: int,
    e: E,
)
    requires
        0 <= i <= entries.len(),
    ensures
        measure_sum(kind, entries.insert(i, e)) == measure_sum(kind, entries) + spec_measure(
            kind,
            &e,
        ),
    decreases entries.len() - i,
{
    let r = entries.insert(i, e);
    if i == entries.len() {
        assert(r.drop_last() =~= entries);
        assert(r.last() == e);
    } else {
        assert(r.drop_last() =~= entries.drop_last().insert(i, e));
        assert(r.last() == entries.last());
        lemma_measure_sum_insert(kind, entries.drop_last(), i, e);
    }
}

/// A list with a run taken out measures what it measured, less the run.
pub proof fn lemma_measure_sum_remove<E: TreeEntry>(kind: MetricKind, entries: Seq<E>, i: int)
    requires
        0 <= i < entries.len(),
    ensures
        measure_sum(kind, entries.remove(i)) + spec_measure(kind, &entries[i]) == measure_sum(
            kind,
            entries,
        ),
{
    let r = entries.remove(i);
    assert(r.insert(i, entries[i]) =~= entries);
    lemma_measure_sum_insert(kind, r, i, entries[i]);
}

/// A list with another run in the place of one measures what it measured,
/// less the one and with the other.
pub proof fn lemma_measure_sum_update<E: TreeEntry>(
    kind: MetricKind,
    entries: Seq<E>,
    i: int,
    e: E,
)
    requires
        0 <= i < entries.len(),
    ensures
        measure_sum(kind, entries.update(i, e)) + spec_measure(kind, &entries[i]) == measure_sum(
            kind,
            entries,
        ) + spec_measure(kind, &e),
{
    lemma_measure_sum_remove(kind, entries, i);
    lemma_measure_sum_insert(kind, entries.remove(i), i, e);
    assert(entries.remove(i).insert(i, e) =~= entries.update(i, e));
}

impl<E: TreeEntry> ContentTree<E> {
    /// `later` is `self` with other runs in leaf `leaf`.
    pub open spec fn leaf_changed(&self, later: &Self, leaf: NodeId) -> bool {
        &&& self.is_leaf(leaf)
        &&& later.is_leaf(leaf)
        &&& later.nodes@.len() == self.nodes@.len()
        &&& later.root == self.root
        &&& later.count == self.count
        &&& later.metric == self.metric
        &&& later.leaf(leaf).parent == self.leaf(leaf).parent
        &&& later.leaf(leaf).next == self.leaf(leaf).next
        &&& forall|i: NodeId|
            i < self.nodes@.len() && i != leaf ==> #[trigger] later.nodes@[i as int]
                == self.nodes@[i as int]
    }

    /// After the runs of a leaf have changed, the tree is linked as it
    /// was, and the one cached measure that is off is that of the leaf.
    pub proof fn lemma_leaf_changed(&self, later: &Self, leaf: NodeId, amt: int)
        requires
            self.wf(),
            self.leaf_changed(later, leaf),
            later.leaf(leaf).data@.len() <= LEAF_ENTRIES,
            leaf != self.root ==> later.leaf(leaf).data@.len() > 0,
            later.node_total(leaf) == self.node_total(leaf) + amt,
        ensures
            later.links_wf(),
            later.stale_at(leaf, amt),
            forall|i: NodeId|
                i < self.nodes@.len() && i != leaf ==> #[trigger] later.node_total(i)
                    == self.node_total(i),
    {
        assert forall|i: NodeId| i < self.nodes@.len() implies later.height(i) == self.height(i)
            && later.nodes@[i as int].spec_parent() == self.nodes@[i as int].spec_parent()
            && later.is_internal(i) == self.is_internal(i) && later.is_leaf(i) == self.is_leaf(
            i,
        ) by {
            if i != leaf {
                assert(later.nodes@[i as int] == self.nodes@[i as int]);
            }
        }
        assert forall|i: NodeId| #[trigger] later.is_internal(i) implies later.internal_wf(i) by {
            assert(later.nodes@[i as int] == self.nodes@[i as int]);
            assert(self.is_internal(i));
            assert(self.internal_wf(i));
        }
        assert forall|i: NodeId| #[trigger] later.is_leaf(i) implies later.leaf(i).data@.len()
            <= LEAF_ENTRIES && (i != later.root ==> later.leaf(i).data@.len() > 0) by {
            if i != leaf {
                assert(later.nodes@[i as int] == self.nodes@[i as int]);
                assert(self.is_leaf(i));
            }
        }
        assert forall|i: NodeId| i < later.nodes@.len() && i != later.root implies later.has_parent(
            i,
        ) by {
            self.lemma_slot_exists(i);
            let p = self.nodes@[i as int].spec_parent().unwrap();
            assert(later.nodes@[p as int] == self.nodes@[p as int]);
            assert(later.children(p)[self.slot_of(i)].1 == i);
        }
        assert forall|i: NodeId| i < later.nodes@.len() implies #[trigger] later.height(i)
            <= later.height(later.root) by {
            assert(self.height(i) <= self.height(self.root));
        }
        assert forall|i: NodeId| i < later.nodes@.len() && i != leaf implies #[trigger] later.cached(
            i,
        ) == later.node_total(i) by {
            assert(later.nodes@[i as int] == self.nodes@[i as int]);
            if i != self.root {
                self.lemma_slot_exists(i);
                let p = self.nodes@[i as int].spec_parent().unwrap();
                assert(later.nodes@[p as int] == self.nodes@[p as int]);
                self.lemma_slot_exists_child(p, self.slot_of(i));
                later.lemma_slot_exists_child(p, self.slot_of(i));
            }
            self.lemma_cached(i);
        }
        if leaf != self.root {
            self.lemma_slot_exists(leaf);
            let p = self.nodes@[leaf as int].spec_parent().unwrap();
            assert(later.nodes@[p as int] == self.nodes@[p as int]);
            self.lemma_slot_exists_child(p, self.slot_of(leaf));
            later.lemma_slot_exists_child(p, self.slot_of(leaf));
        }
        self.lemma_cached(leaf);
    }

    /// In a consistent tree the cached measure of every node is right.
    pub proof fn lemma_cached(&self, i: NodeId)
        requires
            self.wf(),
            i < self.nodes@.len(),
        ensures
            self.cached(i) == self.node_total(i),
    {
        if i != self.root {
            self.lemma_slot_exists(i);
            let p = self.nodes@[i as int].spec_parent().unwrap();
            let k = self.slot_of(i);
            assert(self.children(p)[k].0 == self.node_total(self.children(p)[k].1));
        }
    }

    /// Puts the given runs in the place of those of leaf `leaf`.
    fn set_leaf_data(&mut self, leaf: NodeId, data: Vec<E>)
        requires
            old(self).is_leaf(leaf),
        ensures
            old(self).leaf_changed(final(self), leaf),
            final(self).leaf(leaf).data == data,
    {
        let old_leaf = self.leaf_ref(leaf);
        let parent = old_leaf.parent;
        let next = old_leaf.next;
        self.nodes.set(leaf, Node::Leaf(NodeLeaf { parent, data, next }));
    }

    /// Puts `entry` into leaf `leaf` before its run `idx`, where the leaf
    /// has room, and brings the cached measures up to date.
    pub fn insert_in_leaf(&mut self, leaf: NodeId, idx: usize, entry: E)
        requires
            old(self).wf(),
            old(self).is_leaf(leaf),
            idx <= old(self).leaf(leaf).data@.len() < LEAF_ENTRIES,
            old(self).count + spec_measure(old(self).metric, &entry) <= isize::MAX,
        ensures
            final(self).wf(),
            old(self).leaf_changed_or_same_shape(final(self), leaf),
            final(self).leaf(leaf).data@ == old(self).leaf(leaf).data@.insert(idx as int, entry),
            final(self).count == old(self).count + spec_measure(old(self).metric, &entry),
            final(self).contents() == old(self).contents().insert(
                old(self).entries_before(leaf) + idx,
                entry,
            ),
            old(self).chain_wf() ==> final(self).chain_wf(),
    {
        let ghost before = *self;
        let m = measure(self.metric, &entry);
        let mut data = self.copy_data(leaf);
        data.insert(idx, entry);
        self.set_leaf_data(leaf, data);
        let ghost mid = *self;
        proof {
            lemma_measure_sum_insert(self.metric, before.leaf(leaf).data@, idx as int, entry);
            before.lemma_leaf_changed(self, leaf, m as int);
            assert forall|i: NodeId| i < self.nodes@.len() implies #[trigger] self.node_total(i)
                <= usize::MAX && (i != leaf && self.on_path(leaf, i) ==> 0 <= self.node_total(i)
                + m <= usize::MAX) by {
                before.lemma_node_pos_bound(i);
            }
        }
        NodeLeaf::update_parent_count(self, leaf, m as isize);
        proof {
            before.lemma_changed_then_flushed(&mid, self, leaf);
            before.lemma_insert_contents(self, leaf, idx as int, entry);
            if before.chain_wf() {
                before.lemma_edit_keeps_chain(self, leaf);
            }
        }
    }

    /// Takes run `idx` out of leaf `leaf`, and brings the cached measures
    /// up to date. The last run of a leaf that is not the root stays.
    pub fn remove_from_leaf(&mut self, leaf: NodeId, idx: usize) -> (entry: E)
        requires
            old(self).wf(),
            old(self).is_leaf(leaf),
            idx < old(self).leaf(leaf).data@.len(),
            leaf != old(self).root ==> old(self).leaf(leaf).data@.len() >= 2,
            old(self).count <= isize::MAX,
        ensures
            final(self).wf(),
            old(self).leaf_changed_or_same_shape(final(self), leaf),
            entry == old(self).leaf(leaf).data@[idx as int],
            final(self).leaf(leaf).data@ == old(self).leaf(leaf).data@.remove(idx as int),
            final(self).count + spec_measure(old(self).metric, &entry) == old(self).count,
            final(self).contents() == old(self).contents().remove(
                old(self).entries_before(leaf) + idx,
            ),
            old(self).chain_wf() ==> final(self).chain_wf(),
    {
        let ghost before = *self;
        let mut data = self.copy_data(leaf);
        let entry = data.remove(idx);
        let m = measure(self.metric, &entry);
        self.set_leaf_data(leaf, data);
        let ghost mid = *self;
        proof {
            lemma_measure_sum_remove(self.metric, before.leaf(leaf).data@, idx as int);
            before.lemma_node_pos_bound(leaf);
            before.lemma_leaf_changed(self, leaf, -(m as int));
            before.lemma_total_on_path(leaf, m as nat);
            assert forall|i: NodeId| i < self.nodes@.len() implies #[trigger] self.node_total(i)
                <= usize::MAX && (i != leaf && self.on_path(leaf, i) ==> 0 <= self.node_total(i)
                - m <= usize::MAX) by {
                before.lemma_node_pos_bound(i);
                if i != leaf && self.on_path(leaf, i) {
                    before.lemma_path_kept(self, leaf, leaf, i);
                    assert(m <= before.node_total(i));
                }
            }
        }
        NodeLeaf::update_parent_count(self, leaf, -(m as isize));
        proof {
            before.lemma_changed_then_flushed(&mid, self, leaf);
            before.lemma_remove_contents(self, leaf, idx as int);
            if before.chain_wf() {
                before.lemma_edit_keeps_chain(self, leaf);
            }
        }
        entry
    }

    /// Puts `entry` in the place of run `idx` of leaf `leaf`, and brings
    /// the cached measures up to date. Returns the run that stood there.
    pub fn replace_in_leaf(&mut self, leaf: NodeId, idx: usize, entry: E) -> (gone: E)
        requires
            old(self).wf(),
            old(self).is_leaf(leaf),
            idx < old(self).leaf(leaf).data@.len(),
            old(self).count + spec_measure(old(self).metric, &entry) <= isize::MAX,
        ensures
            final(self).wf(),
            old(self).leaf_changed_or_same_shape(final(self), leaf),
            gone == old(self).leaf(leaf).data@[idx as int],
            final(self).leaf(leaf).data@ == old(self).leaf(leaf).data@.update(idx as int, entry),
            final(self).count + spec_measure(old(self).metric, &gone) == old(self).count
                + spec_measure(old(self).metric, &entry),
            final(self).contents() == old(self).contents().update(
                old(self).entries_before(leaf) + idx,
                entry,
            ),
            old(self).chain_wf() ==> final(self).chain_wf(),
    {
        let ghost before = *self;
        let mut data = self.copy_data(leaf);
        let gone = data[idx];
        let m_old = measure(self.metric, &gone);
        let m_new = measure(self.metric, &entry);
        data.set(idx, entry);
        self.set_leaf_data(leaf, data);
        let ghost mid = *self;
        proof {
            lemma_measure_sum_update(self.metric, before.leaf(leaf).data@, idx as int, entry);
            lemma_measure_sum_remove(self.metric, before.leaf(leaf).data@, idx as int);
            before.lemma_node_pos_bound(leaf);
            before.lemma_leaf_changed(self, leaf, m_new - m_old);
            before.lemma_total_on_path(leaf, m_old as nat);
            assert forall|i: NodeId| i < self.nodes@.len() implies #[trigger] self.node_total(i)
                <= usize::MAX && (i != leaf && self.on_path(leaf, i) ==> 0 <= self.node_total(i)
                + (m_new - m_old) <= usize::MAX) by {
                before.lemma_node_pos_bound(i);
                if i != leaf && self.on_path(leaf, i) {
                    before.lemma_path_kept(self, leaf, leaf, i);
                    assert(m_old <= before.node_total(i));
                }
            }
        }
        let amt: isize = m_new as isize - m_old as isize;
        NodeLeaf::update_parent_count(self, leaf, amt);
        proof {
            before.lemma_changed_then_flushed(&mid, self, leaf);
            before.lemma_update_contents(self, leaf, idx as int, entry);
            if before.chain_wf() {
                before.lemma_edit_keeps_chain(self, leaf);
            }
        }
        gone
    }

    /// `later` has the nodes of `self`, linked as in `self`: the runs of
    /// `leaf` and cached measures may differ.
    pub open spec fn leaf_changed_or_same_shape(&self, later: &Self, leaf: NodeId) -> bool {
        &&& later.nodes@.len() == self.nodes@.len()
        &&& later.root == self.root
        &&& later.metric == self.metric
        &&& self.is_leaf(leaf)
        &&& later.is_leaf(leaf)
        &&& later.leaf(leaf).parent == self.leaf(leaf).parent
        &&& later.leaf(leaf).next == self.leaf(leaf).next
        &&& forall|i: NodeId|
            i < self.nodes@.len() && i != leaf ==> match (
                #[trigger] self.nodes@[i as int],
                later.nodes@[i as int],
            ) {
                (Node::Leaf(a), Node::Leaf(b)) => a == b,
                (Node::Internal(a), Node::Internal(b)) => {
                    &&& a.parent == b.parent
                    &&& a.height == b.height
                    &&& a.children@.len() == b.children@.len()
                    &&& forall|k: int|
                        0 <= k < a.children@.len() ==> (#[trigger] a.children@[k]).1
                            == b.children@[k].1
                },
                _ => false,
            }
    }

    /// A change of the runs of a leaf followed by a flush of the caches
    /// leaves the nodes linked as they were.
    pub proof fn lemma_changed_then_flushed(&self, mid: &Self, later: &Self, leaf: NodeId)
        requires
            self.leaf_changed(mid, leaf),
            mid.same_shape(later),
        ensures
            self.leaf_changed_or_same_shape(later, leaf),
            later.leaf(leaf).data == mid.leaf(leaf).data,
    {
        assert forall|i: NodeId| i < self.nodes@.len() && i != leaf implies match (
            #[trigger] self.nodes@[i as int],
            later.nodes@[i as int],
        ) {
            (Node::Leaf(a), Node::Leaf(b)) => a == b,
            (Node::Internal(a), Node::Internal(b)) => {
                &&& a.parent == b.parent
                &&& a.height == b.height
                &&& a.children@.len() == b.children@.len()
                &&& forall|k: int|
                    0 <= k < a.children@.len() ==> (#[trigger] a.children@[k]).1
                        == b.children@[k].1
            },
            _ => false,
        } by {
            assert(mid.nodes@[i as int] == self.nodes@[i as int]);
            let m = mid.nodes@[i as int];
        }
        let l = mid.nodes@[leaf as int];
    }

    /// Every node above a leaf measures at least what a run of the leaf
    /// measures.
    pub proof fn lemma_total_on_path(&self, leaf: NodeId, m: nat)
        requires
            self.wf(),
            self.is_leaf(leaf),
            m <= self.node_total(leaf),
        ensures
            forall|i: NodeId| #[trigger] self.on_path(leaf, i) ==> m <= self.node_total(i),
    {
        assert forall|i: NodeId| #[trigger] self.on_path(leaf, i) implies m <= self.node_total(
            i,
        ) by {
            self.lemma_path_total(leaf, i);
        }
    }

    /// A node above a node measures at least what that node measures.
    pub proof fn lemma_path_total(&self, below: NodeId, above: NodeId)
        requires
            self.wf(),
            below < self.nodes@.len(),
            self.on_path(below, above),
        ensures
            self.node_total(below) <= self.node_total(above),
        decreases self.height(self.root) - self.height(below),
    {
        if below != above {
            self.lemma_root_only(below);
            self.lemma_slot(below);
            let p = self.nodes@[below as int].spec_parent().unwrap();
            let k = self.slot_of(below);
            self.lemma_path_total(p, above);
            crate::content_tree::internal::lemma_cache_before_step(self.children(p), k);
            crate::content_tree::internal::lemma_cache_before_grows(
                self.children(p),
                k + 1,
                self.children(p).len() as int,
            );
            crate::content_tree::internal::lemma_cache_before_step(
                self.children(p),
                self.children(p).len() - 1,
            );
            assert(self.children(p)[k].0 == self.node_total(self.children(p)[k].1));
        }
    }

    /// A change of the runs of a leaf leaves every path as it was.
    pub proof fn lemma_path_kept(&self, later: &Self, leaf: NodeId, below: NodeId, above: NodeId)
        requires
            self.leaf_changed(later, leaf),
            self.root < self.nodes@.len(),
            below < self.nodes@.len(),
            later.on_path(below, above),
        ensures
            self.on_path(below, above),
        decreases later.height(later.root) - later.height(below),
    {
        self.lemma_kept_links(later, leaf, below);
        self.lemma_kept_links(later, leaf, self.root);
        if below != above {
            let p = later.nodes@[below as int].spec_parent().unwrap();
            self.lemma_kept_links(later, leaf, p);
            self.lemma_path_kept(later, leaf, p, above);
        }
    }

    /// A change of the runs of a leaf leaves the height of every node and
    /// the node above it as they were.
    pub proof fn lemma_kept_links(&self, later: &Self, leaf: NodeId, i: NodeId)
        requires
            self.leaf_changed(later, leaf),
            i < self.nodes@.len(),
        ensures
            later.height(i) == self.height(i),
            later.nodes@[i as int].spec_parent() == self.nodes@[i as int].spec_parent(),
    {
        if i != leaf {
            assert(later.nodes@[i as int] == self.nodes@[i as int]);
        }
    }
}

} // verus!
