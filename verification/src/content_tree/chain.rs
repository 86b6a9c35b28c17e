//! The chain of the leaves, and what making room in a tree does to it:
//! nothing but to link in the new leaf behind a leaf that was cut.

use crate::content_tree::{ContentTree, NodeId, TreeEntry};
use vstd::prelude::*;

verus! {

impl<E: TreeEntry> ContentTree<E> {
    /// A cut keeps the first leaf below every node that was there. The
    /// first leaf below the new node is the first leaf that it took over.
    pub proof fn lemma_cut_first(&self, later: &Self, x: NodeId, h: int, i: NodeId)
        requires
            self.cut_in_two(later, x, h),
            i < self.nodes@.len(),
        ensures
            later.first_leaf(i) == self.first_leaf(i),
        decreases self.height(i),
    {
        let p = self.nodes@[x as int].spec_parent().unwrap();
        self.lemma_cut_keeps(later, x, h);
        assert(later.height(i) == self.height(i));
        if self.is_internal(i) {
            assert(self.internal_wf(i));
            self.lemma_child(i, 0);
            let c = self.children(i)[0].1;
            if i == p {
                assert(self.children(p)[0].1 == later.children(p)[Self::slot_after_cut(
                    self.slot_of(x),
                    0,
                )].1);
            } else if i == x {
                assert(later.children(x)[0] == self.children(x)[0]);
            } else {
                assert(crate::content_tree::contents::holds_the_same(
                    self.nodes@[i as int],
                    later.nodes@[i as int],
                ));
            }
            assert(later.is_internal(i));
            assert(later.children(i)[0].1 == c);
            assert(later.height(c) == self.height(c));
            self.lemma_cut_first(later, x, h, c);
        } else {
            if i != x && i != p {
                assert(crate::content_tree::contents::holds_the_same(
                    self.nodes@[i as int],
                    later.nodes@[i as int],
                ));
            }
            assert(!later.is_internal(i));
        }
    }

    /// The first leaf below the new node that a cut makes: the node
    /// itself where a leaf was cut, else the first leaf below the first
    /// child that it took over.
    pub proof fn lemma_cut_first_new(&self, later: &Self, x: NodeId, h: int)
        requires
            self.cut_in_two(later, x, h),
        ensures
            later.first_leaf(self.nodes@.len() as usize) == (if self.is_leaf(x) {
                self.nodes@.len() as usize
            } else {
                self.first_leaf(self.children(x)[h].1)
            }),
    {
        let y = self.nodes@.len() as usize;
        self.lemma_cut_keeps(later, x, h);
        if self.is_internal(x) {
            assert(self.internal_wf(x));
            self.lemma_child(x, h);
            let c = self.children(x)[h].1;
            assert(later.children(y)[0] == self.children(x)[h]);
            assert(later.height(c) == self.height(c));
            self.lemma_cut_first(later, x, h, c);
        }
    }

    /// A cut keeps the leaf behind every node that was there, but the cut
    /// node.
    #[verifier::rlimit(100)]
    pub proof fn lemma_cut_next(&self, later: &Self, x: NodeId, h: int, i: NodeId)
        requires
            self.cut_in_two(later, x, h),
            i < self.nodes@.len(),
            i != x,
        ensures
            later.adjacent_leaf(i, true) == self.adjacent_leaf(i, true),
        decreases self.height(self.root) - self.height(i), 1nat,
    {
        let y = self.nodes@.len() as usize;
        let p = self.nodes@[x as int].spec_parent().unwrap();
        let k = self.slot_of(x);
        self.lemma_cut_keeps(later, x, h);
        self.lemma_slot(x);
        self.lemma_root_only(i);
        assert(later.height(i) == self.height(i));
        assert(later.height(self.root) == self.height(self.root));
        if i != self.root {
            self.lemma_slot(i);
            let q = self.nodes@[i as int].spec_parent().unwrap();
            let m = self.slot_of(i);
            assert(later.height(q) == self.height(q));
            assert(self.height(q) <= self.height(self.root));
            if q == p {
                let m2 = Self::slot_after_cut(k, m);
                assert(self.children(p)[m].1 == later.children(p)[m2].1);
                later.lemma_child(p, m2);
                assert(!(self.is_internal(x) && self.moves_in_split(x, h, i)));
                if m + 1 < self.children(p).len() {
                    let s = self.children(p)[m + 1].1;
                    self.lemma_child(p, m + 1);
                    assert(s == later.children(p)[Self::slot_after_cut(k, m + 1)].1);
                    self.lemma_cut_first(later, x, h, s);
                } else {
                    self.lemma_cut_next(later, x, h, p);
                }
            } else if q == x {
                assert(self.is_internal(x));
                assert(self.internal_wf(x));
                let n = self.children(x).len() as int;
                if m < h {
                    assert(later.children(x)[m] == self.children(x)[m]);
                    later.lemma_child(x, m);
                    assert(!self.moves_in_split(x, h, i));
                    if m + 1 < h {
                        let s = self.children(x)[m + 1].1;
                        self.lemma_child(x, m + 1);
                        assert(later.children(x)[m + 1] == self.children(x)[m + 1]);
                        self.lemma_cut_first(later, x, h, s);
                    } else {
                        // The last child that the cut node keeps: the new
                        // node stands behind the cut node.
                        later.lemma_child(p, k);
                        assert(later.children(p)[k].1 == x);
                        assert(later.height(x) == self.height(x));
                        assert(later.beside(x, true) == Some(y));
                        self.lemma_cut_first_new(later, x, h);
                        self.lemma_child(x, h);
                    }
                } else {
                    assert(later.children(y)[m - h] == self.children(x)[m]);
                    later.lemma_child(y, m - h);
                    assert(self.moves_in_split(x, h, i));
                    assert(later.height(y) <= later.height(later.root));
                    if m + 1 < n {
                        let s = self.children(x)[m + 1].1;
                        self.lemma_child(x, m + 1);
                        assert(later.children(y)[m + 1 - h] == self.children(x)[m + 1]);
                        self.lemma_cut_first(later, x, h, s);
                    } else {
                        self.lemma_cut_next_new(later, x, h);
                    }
                }
            } else {
                assert(crate::content_tree::contents::holds_the_same(
                    self.nodes@[q as int],
                    later.nodes@[q as int],
                ));
                assert(later.children(q)[m].1 == i);
                later.lemma_child(q, m);
                if self.is_internal(x) {
                    assert(!self.moves_in_split(x, h, i));
                }
                if m + 1 < self.children(q).len() {
                    let s = self.children(q)[m + 1].1;
                    self.lemma_child(q, m + 1);
                    assert(later.children(q)[m + 1].1 == s);
                    self.lemma_cut_first(later, x, h, s);
                } else {
                    self.lemma_cut_next(later, x, h, q);
                }
            }
        }
    }

    /// Behind the new node that a cut makes comes the leaf that came
    /// behind the cut node.
    #[verifier::rlimit(100)]
    pub proof fn lemma_cut_next_new(&self, later: &Self, x: NodeId, h: int)
        requires
            self.cut_in_two(later, x, h),
        ensures
            later.adjacent_leaf(self.nodes@.len() as usize, true) == self.adjacent_leaf(x, true),
        decreases self.height(self.root) - self.height(x), 0nat,
    {
        let y = self.nodes@.len() as usize;
        let p = self.nodes@[x as int].spec_parent().unwrap();
        let k = self.slot_of(x);
        self.lemma_cut_keeps(later, x, h);
        self.lemma_slot(x);
        later.lemma_child(p, k + 1);
        assert(later.height(p) == self.height(p));
        assert(self.height(p) <= self.height(self.root));
        assert(later.height(self.root) == self.height(self.root));
        if k + 1 < self.children(p).len() {
            let s = self.children(p)[k + 1].1;
            self.lemma_child(p, k + 1);
            assert(s == later.children(p)[Self::slot_after_cut(k, k + 1)].1);
            self.lemma_cut_first(later, x, h, s);
        } else {
            self.lemma_cut_next(later, x, h, p);
        }
    }

    /// A cut keeps a right chain right.
    #[verifier::rlimit(100)]
    pub proof fn lemma_cut_chain(&self, later: &Self, x: NodeId, h: int)
        requires
            self.cut_in_two(later, x, h),
            self.chain_wf(),
        ensures
            later.chain_wf(),
    {
        let y = self.nodes@.len() as usize;
        let p = self.nodes@[x as int].spec_parent().unwrap();
        let k = self.slot_of(x);
        self.lemma_cut_keeps(later, x, h);
        self.lemma_slot(x);
        assert forall|i: NodeId| #[trigger] later.is_leaf(i) implies later.leaf(i).next
            == later.adjacent_leaf(i, true) by {
            if i == y {
                assert(self.is_leaf(x));
                self.lemma_cut_next_new(later, x, h);
            } else if i == x {
                later.lemma_child(p, k);
                assert(later.children(p)[k].1 == x);
                assert(later.beside(x, true) == Some(y));
                self.lemma_cut_first_new(later, x, h);
            } else {
                assert(later.height(i) == self.height(i));
                assert(self.is_leaf(i));
                self.lemma_cut_next(later, x, h, i);
                if self.is_leaf(x) {
                    assert(i != p);
                    assert(later.nodes@[i as int] == self.nodes@[i as int]);
                } else {
                    assert(i != p);
                    if self.moves_in_split(x, h, i) {
                        assert(crate::content_tree::split::same_but_parent(
                            self.nodes@[i as int],
                            later.nodes@[i as int],
                        ));
                    } else {
                        assert(later.nodes@[i as int] == self.nodes@[i as int]);
                    }
                }
            }
        }
    }

    /// A new root keeps the leaf behind every node that was there.
    #[verifier::rlimit(50)]
    pub proof fn lemma_grown_next(&self, later: &Self, i: NodeId)
        requires
            self.grown(later),
            i < self.nodes@.len(),
        ensures
            later.beside(i, true) == self.beside(i, true),
        decreases self.height(self.root) - self.height(i),
    {
        let r = later.root;
        self.lemma_root_only(i);
        assert(later.children(r)[0].1 == self.root);
        later.lemma_child(r, 0);
        later.lemma_root_only(r);
        if i == self.root {
            assert(later.beside(r, true).is_none());
        } else {
            self.lemma_slot(i);
            let q = self.nodes@[i as int].spec_parent().unwrap();
            let m = self.slot_of(i);
            assert(later.nodes@[i as int] == self.nodes@[i as int]);
            assert(self.height(q) <= self.height(self.root));
            if q != self.root {
                assert(later.nodes@[q as int] == self.nodes@[q as int]);
            }
            assert(later.children(q) == self.children(q));
            later.lemma_child(q, m);
            assert(later.height(q) == self.height(q));
            assert(later.height(q) <= later.height(later.root));
            if m + 1 < self.children(q).len() {
            } else {
                self.lemma_grown_next(later, q);
            }
        }
    }

    /// A new root keeps the first leaf below every node that was there.
    pub proof fn lemma_grown_first(&self, later: &Self, i: NodeId)
        requires
            self.grown(later),
            i < self.nodes@.len(),
        ensures
            later.first_leaf(i) == self.first_leaf(i),
        decreases self.height(i),
    {
        if i != self.root {
            assert(later.nodes@[i as int] == self.nodes@[i as int]);
        }
        if self.is_internal(i) {
            assert(self.internal_wf(i));
            self.lemma_child(i, 0);
            let c = self.children(i)[0].1;
            assert(later.children(i) == self.children(i));
            if c != self.root {
                assert(later.nodes@[c as int] == self.nodes@[c as int]);
            }
            self.lemma_grown_first(later, c);
        }
    }

    /// A new root keeps a right chain right.
    pub proof fn lemma_grown_chain(&self, later: &Self)
        requires
            self.grown(later),
            self.chain_wf(),
        ensures
            later.chain_wf(),
    {
        assert forall|i: NodeId| #[trigger] later.is_leaf(i) implies later.leaf(i).next
            == later.adjacent_leaf(i, true) by {
            assert(i < self.nodes@.len());
            if i != self.root {
                assert(later.nodes@[i as int] == self.nodes@[i as int]);
            }
            assert(self.is_leaf(i));
            self.lemma_grown_next(later, i);
            match self.beside(i, true) {
                Some(s) => {
                    let a = self.lemma_beside_fwd(i);
                    self.lemma_slot(a);
                    let p = self.nodes@[a as int].spec_parent().unwrap();
                    self.lemma_child(p, self.slot_of(a) + 1);
                    self.lemma_grown_first(later, s);
                },
                None => {},
            }
        }
    }
}

} // verus!
