//! Putting a run into a tree that may be full where the run goes.

use crate::content_tree::split::same_but_parent;
use crate::content_tree::{
    spec_measure, ContentTree, NodeId, TreeEntry, INTERNAL_ENTRIES, LEAF_ENTRIES,
};
use vstd::prelude::*;

verus! {

impl<E: TreeEntry> ContentTree<E> {
    /// The number of nodes that making room above node `x` may add: one
    /// for each node above it, and one for a new root.
    pub open spec fn room_cost(&self, x: NodeId) -> int {
        self.height(self.root) - self.height(x) + 1
    }

    /// Makes room for one child more in the node above `x`. Where that
    /// node is full, it is cut in two, after room was made above it; where
    /// `x` is the root, the tree gets a new root. What `x` and the nodes
    /// below it hold stays.
    #[verifier::rlimit(50)]
    pub fn make_room_above(&mut self, x: NodeId)
        requires
            old(self).wf(),
            x < old(self).nodes@.len(),
            old(self).is_leaf(old(self).root) ==> old(self).leaf(old(self).root).data@.len() > 0,
            old(self).nodes@.len() + old(self).room_cost(x) <= usize::MAX,
            old(self).height(old(self).root) < usize::MAX,
        ensures
            final(self).wf(),
            final(self).count == old(self).count,
            final(self).metric == old(self).metric,
            old(self).keeps_runs(final(self)),
            old(self).chain_wf() ==> final(self).chain_wf(),
            old(self).nodes@.len() <= final(self).nodes@.len() <= old(self).nodes@.len() + old(
                self,
            ).room_cost(x),
            x != final(self).root,
            final(self).nodes@[x as int].spec_parent().is_some(),
            final(self).children(final(self).nodes@[x as int].spec_parent().unwrap()).len()
                < INTERNAL_ENTRIES,
            same_but_parent(old(self).nodes@[x as int], final(self).nodes@[x as int]),
            forall|j: NodeId|
                j < old(self).nodes@.len() && j != x && old(self).on_path(j, x)
                    ==> #[trigger] final(self).nodes@[j as int] == old(self).nodes@[j as int],
        decreases old(self).height(old(self).root) - old(self).height(x),
    {
        let ghost before = *self;
        proof {
            self.lemma_root_only(x);
        }
        if x == self.root {
            self.grow_root();
            proof {
                assert(self.children(self.root)[0].1 == x);
            }
            return ;
        }
        proof {
            self.lemma_slot(x);
        }
        let p = match self.nodes[x].parent() {
            Some(p) => p,
            None => vstd::pervasive::unreached(),
        };
        if self.internal_ref(p).count_children() < INTERNAL_ENTRIES {
            proof {
                self.lemma_keeps_runs_refl();
            }
            return ;
        }
        proof {
            assert(self.internal_wf(p));
            assert(self.height(p) <= self.height(self.root));
            if self.is_leaf(self.root) {
                assert(self.height(self.root) == 0);
            }
        }
        proof {
            assert forall|j: NodeId|
                j < before.nodes@.len() && j != x && before.on_path(j, x) implies before.on_path(
                j,
                p,
            ) && j != p && before.height(j) < before.height(x) by {
                before.lemma_path_step(j, x);
                before.lemma_path_height(j, x);
            }
        }
        self.make_room_above(p);
        let ghost mid = *self;
        proof {
            before.lemma_path_step(x, x);
            assert(self.nodes@[x as int] == before.nodes@[x as int]);
            assert(self.children(p) == before.children(p));
            self.lemma_root_only(p);
            self.lemma_slot(p);
        }
        let y = self.split_internal(p);
        proof {
            before.lemma_keeps_runs_trans(&mid, self);
            let h = (mid.children(p).len() / 2) as int;
            mid.lemma_slot_exists(x);
            assert(mid.internal_wf(p));
            assert(x != p);
            assert(Some(x) != mid.internal(p).parent) by {
                if Some(x) == mid.internal(p).parent {
                    assert(mid.height(x) == mid.height(p) + 1);
                }
            }
            if mid.moves_in_split(p, h, x) {
                assert(self.nodes@[x as int].spec_parent() == Some(y));
            } else {
                assert(self.nodes@[x as int] == mid.nodes@[x as int]);
            }
            assert forall|j: NodeId|
                j < before.nodes@.len() && j != x && before.on_path(j, x) implies #[trigger] self.nodes@[j as int]
                == before.nodes@[j as int] by {
                assert(mid.nodes@[j as int] == before.nodes@[j as int]);
                mid.lemma_root_only(j);
                if j != mid.root {
                    mid.lemma_slot(j);
                }
                assert(before.height(j) == mid.height(j));
                assert(before.height(x) == mid.height(x));
                assert(!mid.moves_in_split(p, h, j));
                assert(j != p);
                assert(Some(j) != mid.internal(p).parent) by {
                    if Some(j) == mid.internal(p).parent {
                        assert(mid.height(j) == mid.height(p) + 1);
                    }
                }
            }
        }
    }

    /// Puts `entry` into leaf `leaf` before its run `idx`. A full leaf is
    /// cut in two first, after room was made above it, and the run goes
    /// into the half where its place is. Returns the leaf in which the run
    /// stands, and its place there.
    pub fn insert_at(&mut self, leaf: NodeId, idx: usize, entry: E) -> (at: (NodeId, usize))
        requires
            old(self).wf(),
            old(self).is_leaf(leaf),
            idx <= old(self).leaf(leaf).data@.len(),
            old(self).count + spec_measure(old(self).metric, &entry) <= isize::MAX,
            old(self).nodes@.len() + old(self).height(old(self).root) + 2 <= usize::MAX,
        ensures
            final(self).wf(),
            final(self).metric == old(self).metric,
            final(self).count == old(self).count + spec_measure(old(self).metric, &entry),
            final(self).contents() == old(self).contents().insert(
                old(self).entries_before(leaf) + idx,
                entry,
            ),
            old(self).chain_wf() ==> final(self).chain_wf(),
            final(self).is_leaf(at.0),
            at.1 < final(self).leaf(at.0).data@.len(),
            final(self).leaf(at.0).data@[at.1 as int] == entry,
            old(self).leaf(leaf).data@.len() < LEAF_ENTRIES ==> at == (leaf, idx)
                && final(self).nodes@.len() == old(self).nodes@.len(),
    {
        let ghost before = *self;
        if self.leaf_ref(leaf).len_entries() < LEAF_ENTRIES {
            self.insert_in_leaf(leaf, idx, entry);
            return (leaf, idx);
        }
        proof {
            self.lemma_root_only(leaf);
            if leaf != self.root {
                self.lemma_slot(leaf);
                assert(self.height(self.nodes@[leaf as int].spec_parent().unwrap()) <= self.height(
                    self.root,
                ));
            }
        }
        self.make_room_above(leaf);
        let ghost mid = *self;
        let y = self.split_leaf(leaf);
        proof {
            before.lemma_keeps_runs_trans(&mid, self);
        }
        let half = LEAF_ENTRIES / 2;
        if idx <= half {
            self.insert_in_leaf(leaf, idx, entry);
            (leaf, idx)
        } else {
            self.insert_in_leaf(y, idx - half, entry);
            (y, idx - half)
        }
    }
}

} // verus!
