//! What making room in a tree keeps: the runs of the tree, and how many
//! of them come before each node.

use crate::content_tree::contents::holds_the_same;
use crate::content_tree::{ContentTree, NodeId, TreeEntry, INTERNAL_ENTRIES};
use vstd::prelude::*;

verus! {

impl<E: TreeEntry> ContentTree<E> {
    /// `later` is `self` with node `x` cut in two before its run or child
    /// `h`, under a node that had room.
    pub open spec fn cut_in_two(&self, later: &Self, x: NodeId, h: int) -> bool {
        &&& self.wf()
        &&& later.wf()
        &&& self.nodes@.len() < usize::MAX
        &&& x < self.nodes@.len()
        &&& x != self.root
        &&& 0 < h
        &&& self.children(self.nodes@[x as int].spec_parent().unwrap()).len() < INTERNAL_ENTRIES
        &&& if self.is_leaf(x) {
            h < self.leaf(x).data@.len() && self.leaf_split(later, x, h)
        } else {
            h < self.children(x).len() && self.internal_split(later, x, h)
        }
    }

    /// Where node `i` comes to stand among the children of the node above a
    /// cut node in child `k`: where it stood, or one further.
    pub open spec fn slot_after_cut(k: int, m: int) -> int {
        if m <= k {
            m
        } else {
            m + 1
        }
    }

    /// What a cut leaves of the nodes.
    pub open spec fn cut_keeps(&self, later: &Self, x: NodeId, h: int) -> bool {
        let y = self.nodes@.len() as usize;
        let p = self.nodes@[x as int].spec_parent().unwrap();
        let k = self.slot_of(x);
        &&& self.is_internal(p)
        &&& later.is_internal(p)
        &&& 0 <= k < self.children(p).len()
        &&& self.children(p)[k].1 == x
        &&& later.children(p).len() == self.children(p).len() + 1
        &&& later.children(p)[k + 1].1 == y
        &&& forall|m: int|
            0 <= m < self.children(p).len() ==> (#[trigger] self.children(p)[m]).1
                == later.children(p)[Self::slot_after_cut(k, m)].1
        &&& later.is_leaf(x) == self.is_leaf(x)
        &&& later.is_leaf(y) == self.is_leaf(x)
        &&& later.is_internal(x) == self.is_internal(x)
        &&& later.is_internal(y) == self.is_internal(x)
        &&& forall|i: NodeId|
            i < self.nodes@.len() ==> #[trigger] later.height(i) == self.height(i)
        &&& later.height(y) == self.height(x)
        &&& forall|i: NodeId|
            i < self.nodes@.len() && i != x && i != p ==> holds_the_same(
                #[trigger] self.nodes@[i as int],
                later.nodes@[i as int],
            )
        &&& forall|i: NodeId|
            i < self.nodes@.len() ==> #[trigger] later.nodes@[i as int].spec_parent() == (
            if self.is_internal(x) && self.moves_in_split(x, h, i) {
                Some(y)
            } else {
                self.nodes@[i as int].spec_parent()
            })
        &&& later.nodes@[y as int].spec_parent() == Some(p)
    }

    /// A cut keeps of the nodes what `cut_keeps` says.
    #[verifier::rlimit(50)]
    pub proof fn lemma_cut_keeps(&self, later: &Self, x: NodeId, h: int)
        requires
            self.cut_in_two(later, x, h),
        ensures
            self.cut_keeps(later, x, h),
    {
        let y = self.nodes@.len() as usize;
        let p = self.nodes@[x as int].spec_parent().unwrap();
        let k = self.slot_of(x);
        self.lemma_slot(x);
        self.lemma_root_only(p);
        if p != self.root {
            self.lemma_slot(p);
        }
        if self.is_leaf(x) {
            assert forall|i: NodeId|
                i < self.nodes@.len() && i != x && i != p implies holds_the_same(
                #[trigger] self.nodes@[i as int],
                later.nodes@[i as int],
            ) by {
                assert(later.nodes@[i as int] == self.nodes@[i as int]);
            }
            assert forall|i: NodeId| i < self.nodes@.len() implies #[trigger] later.height(i)
                == self.height(i) by {
                if i != x && i != p {
                    assert(later.nodes@[i as int] == self.nodes@[i as int]);
                }
            }
            assert forall|i: NodeId|
                i < self.nodes@.len() implies #[trigger] later.nodes@[i as int].spec_parent()
                == self.nodes@[i as int].spec_parent() by {
                if i != x && i != p {
                    assert(later.nodes@[i as int] == self.nodes@[i as int]);
                }
            }
        } else {
            assert(self.internal_split_of(later, x, h));
            self.lemma_internal_split_nodes(later, x, h);
            self.lemma_internal_split_above(later, x, h);
            assert forall|i: NodeId|
                i < self.nodes@.len() && i != x && i != p implies holds_the_same(
                #[trigger] self.nodes@[i as int],
                later.nodes@[i as int],
            ) by {
                assert(self.kept_in_split(later, x, h, i));
            }
            assert forall|i: NodeId| i < self.nodes@.len() implies #[trigger] later.height(i)
                == self.height(i) by {
                assert(self.kept_in_split(later, x, h, i));
            }
            assert forall|i: NodeId|
                i < self.nodes@.len() implies #[trigger] later.nodes@[i as int].spec_parent() == (
            if self.moves_in_split(x, h, i) {
                Some(y)
            } else {
                self.nodes@[i as int].spec_parent()
            }) by {
                assert(self.kept_in_split(later, x, h, i));
            }
        }
        let cs = self.children(p);
        let cl = later.children(p);
        assert forall|m: int| 0 <= m < cs.len() implies (#[trigger] cs[m]).1
            == cl[Self::slot_after_cut(k, m)].1 by {
        }
    }

    /// What a cut leaves of the runs below node `i`: all of them, but
    /// below the cut node, which shares them with the new node.
    pub open spec fn cut_keeps_entries(&self, later: &Self, x: NodeId, i: NodeId) -> bool {
        if i == x {
            later.entries_below(x) + later.entries_below(self.nodes@.len() as usize)
                == self.entries_below(x)
        } else {
            later.entries_below(i) == self.entries_below(i)
        }
    }

    /// The runs below the cut node are those below the two nodes that a
    /// cut makes of it, where the same holds of the nodes below it.
    #[verifier::rlimit(50)]
    proof fn lemma_cut_entries_at(&self, later: &Self, x: NodeId, h: int)
        requires
            self.cut_in_two(later, x, h),
            forall|m: int|
                0 <= m < self.children(x).len() && self.is_internal(x) ==> later.entries_below(
                    (#[trigger] self.children(x)[m]).1,
                ) == self.entries_below(self.children(x)[m].1),
        ensures
            self.cut_keeps_entries(later, x, x),
            self.is_internal(x) ==> later.entries_below(x) == self.entries_in_first(x, h as nat),
            self.is_leaf(x) ==> later.entries_below(x) == self.leaf(x).data@.take(h),
    {
        let y = self.nodes@.len() as usize;
        let e = Seq::<E>::empty();
        self.lemma_cut_keeps(later, x, h);
        if self.is_leaf(x) {
            let data = self.leaf(x).data@;
            assert(data.take(h) + data.skip(h) =~= data);
        } else {
            let below = self.children(x);
            let n = below.len() as int;
            assert forall|m: int| 0 <= m < h implies #[trigger] self.child_matches(
                later,
                x,
                0,
                x,
                0,
                m,
            ) by {
                assert(later.children(x)[m] == below[m]);
            }
            let first = self.lemma_children_match(later, x, 0, x, 0, h);
            assert forall|m: int| 0 <= m < n - h implies #[trigger] self.child_matches(
                later,
                x,
                h,
                y,
                0,
                m,
            ) by {
                assert(later.children(y)[m] == below[h + m]);
            }
            let second = self.lemma_children_match(later, x, h, y, 0, n - h);
            assert(self.entries_in_first(x, 0) == e);
            assert(later.entries_in_first(x, 0) == e);
            assert(later.entries_in_first(y, 0) == e);
            assert(e + first =~= first);
            assert(e + second =~= second);
            assert(later.children(x).len() == h);
            assert(later.children(y).len() == n - h);
            assert(later.entries_below(x) == first);
            assert(later.entries_below(y) == second);
            assert(self.entries_below(x) == first + second);
        }
    }

    /// The runs below the node above the cut node are what they were,
    /// where the same holds of its children and the cut node shares its
    /// runs with the new node.
    #[verifier::rlimit(50)]
    proof fn lemma_cut_entries_above(&self, later: &Self, x: NodeId, h: int, upto: int)
        requires
            self.cut_in_two(later, x, h),
            forall|m: int|
                0 <= m < self.children(self.nodes@[x as int].spec_parent().unwrap()).len()
                    ==> self.cut_keeps_entries(
                    later,
                    x,
                    (#[trigger] self.children(self.nodes@[x as int].spec_parent().unwrap())[m]).1,
                ),
            0 <= upto <= self.children(self.nodes@[x as int].spec_parent().unwrap()).len(),
        ensures
            later.entries_in_first(
                self.nodes@[x as int].spec_parent().unwrap(),
                Self::slot_after_cut(self.slot_of(x), upto) as nat,
            ) == self.entries_in_first(self.nodes@[x as int].spec_parent().unwrap(), upto as nat),
    {
        let y = self.nodes@.len() as usize;
        let p = self.nodes@[x as int].spec_parent().unwrap();
        let k = self.slot_of(x);
        let e = Seq::<E>::empty();
        self.lemma_cut_keeps(later, x, h);
        let cs = self.children(p);
        let n = cs.len() as int;
        assert forall|m: int| 0 <= m < k implies #[trigger] self.child_matches(
            later,
            p,
            0,
            p,
            0,
            m,
        ) by {
            self.lemma_child(p, m);
            assert(cs[m].1 == later.children(p)[Self::slot_after_cut(k, m)].1);
            assert(self.cut_keeps_entries(later, x, cs[m].1));
        }
        assert(self.entries_in_first(p, 0) == e);
        assert(later.entries_in_first(p, 0) == e);
        if upto <= k {
            let first = self.lemma_children_match(later, p, 0, p, 0, upto);
        } else {
            let first = self.lemma_children_match(later, p, 0, p, 0, k);
            assert(later.entries_in_first(p, k as nat) == self.entries_in_first(p, k as nat));
            assert(cs[k].1 == later.children(p)[Self::slot_after_cut(k, k)].1);
            assert(self.cut_keeps_entries(later, x, cs[k].1));
            self.lemma_entries_step(p, k);
            later.lemma_entries_step(p, k);
            later.lemma_entries_step(p, k + 1);
            let a = self.entries_in_first(p, k as nat);
            assert((a + later.entries_below(x)) + later.entries_below(y) =~= a + (
            later.entries_below(x) + later.entries_below(y)));
            assert(later.entries_in_first(p, (k + 2) as nat) == self.entries_in_first(
                p,
                (k + 1) as nat,
            ));
            assert forall|m: int| 0 <= m < upto - k - 1 implies #[trigger] self.child_matches(
                later,
                p,
                k + 1,
                p,
                k + 2,
                m,
            ) by {
                self.lemma_child(p, k + 1 + m);
                assert(cs[k + 1 + m].1 == later.children(p)[Self::slot_after_cut(k, k + 1 + m)].1);
                assert(self.cut_keeps_entries(later, x, cs[k + 1 + m].1));
            }
            let rest = self.lemma_children_match(later, p, k + 1, p, k + 2, upto - k - 1);
        }
    }

    /// A cut keeps the runs below every node, but below the cut node,
    /// which shares them with the new node.
    #[verifier::rlimit(50)]
    pub proof fn lemma_cut_entries(&self, later: &Self, x: NodeId, h: int, i: NodeId)
        requires
            self.cut_in_two(later, x, h),
            i < self.nodes@.len(),
        ensures
            self.cut_keeps_entries(later, x, i),
        decreases self.height(i),
    {
        let p = self.nodes@[x as int].spec_parent().unwrap();
        self.lemma_cut_keeps(later, x, h);
        if i == x {
            if self.is_internal(x) {
                assert forall|m: int| 0 <= m < self.children(x).len() implies later.entries_below(
                    (#[trigger] self.children(x)[m]).1,
                ) == self.entries_below(self.children(x)[m].1) by {
                    self.lemma_child(x, m);
                    self.lemma_cut_entries(later, x, h, self.children(x)[m].1);
                }
            }
            self.lemma_cut_entries_at(later, x, h);
        } else if i == p {
            assert forall|m: int| 0 <= m < self.children(p).len() implies self.cut_keeps_entries(
                later,
                x,
                (#[trigger] self.children(p)[m]).1,
            ) by {
                self.lemma_child(p, m);
                self.lemma_cut_entries(later, x, h, self.children(p)[m].1);
            }
            let n = self.children(p).len() as int;
            self.lemma_cut_entries_above(later, x, h, n);
            assert(later.children(p).len() == Self::slot_after_cut(self.slot_of(x), n));
            assert(later.entries_below(p) == later.entries_in_first(p, (n + 1) as nat));
            assert(self.entries_below(p) == self.entries_in_first(p, n as nat));
        } else if self.is_internal(i) {
            assert(holds_the_same(self.nodes@[i as int], later.nodes@[i as int]));
            let n = self.children(i).len() as int;
            assert forall|m: int| 0 <= m < n implies #[trigger] self.child_matches(
                later,
                i,
                0,
                i,
                0,
                m,
            ) by {
                self.lemma_child(i, m);
                self.lemma_cut_entries(later, x, h, self.children(i)[m].1);
            }
            let all = self.lemma_children_match(later, i, 0, i, 0, n);
        } else {
            assert(holds_the_same(self.nodes@[i as int], later.nodes@[i as int]));
        }
    }

    /// A cut keeps the runs of the tree.
    pub proof fn lemma_cut_contents(&self, later: &Self, x: NodeId, h: int)
        requires
            self.cut_in_two(later, x, h),
        ensures
            later.contents() == self.contents(),
    {
        self.lemma_cut_entries(later, x, h, self.root);
    }

    /// A cut keeps the runs below the children of every node that was
    /// there.
    proof fn lemma_cut_children(&self, later: &Self, x: NodeId, h: int, q: NodeId)
        requires
            self.cut_in_two(later, x, h),
            self.is_internal(q),
        ensures
            forall|t: int|
                0 <= t < self.children(q).len() ==> self.cut_keeps_entries(
                    later,
                    x,
                    (#[trigger] self.children(q)[t]).1,
                ),
    {
        assert forall|t: int| 0 <= t < self.children(q).len() implies self.cut_keeps_entries(
            later,
            x,
            (#[trigger] self.children(q)[t]).1,
        ) by {
            self.lemma_child(q, t);
            self.lemma_cut_entries(later, x, h, self.children(q)[t].1);
        }
    }

    /// Before the new node that a cut makes come the runs before the cut
    /// node, and those that the cut node keeps.
    #[verifier::rlimit(50)]
    proof fn lemma_cut_rank_new(&self, later: &Self, x: NodeId, h: int)
        requires
            self.cut_in_two(later, x, h),
            later.entries_before(self.nodes@[x as int].spec_parent().unwrap())
                == self.entries_before(self.nodes@[x as int].spec_parent().unwrap()),
        ensures
            later.entries_before(self.nodes@.len() as usize) == self.entries_before(x)
                + later.entries_below(x).len(),
            later.entries_before(x) == self.entries_before(x),
    {
        let y = self.nodes@.len() as usize;
        let p = self.nodes@[x as int].spec_parent().unwrap();
        let k = self.slot_of(x);
        self.lemma_cut_keeps(later, x, h);
        self.lemma_slot(x);
        self.lemma_cut_children(later, x, h, p);
        self.lemma_cut_entries_above(later, x, h, k);
        assert(self.children(p)[k].1 == later.children(p)[Self::slot_after_cut(k, k)].1);
        later.lemma_child(p, k);
        later.lemma_child(p, k + 1);
        later.lemma_entries_step(p, k);
        assert(later.height(p) <= later.height(later.root));
        assert(self.height(p) <= self.height(self.root));
    }

    /// A cut keeps the number of runs that come before a node.
    #[verifier::rlimit(100)]
    pub proof fn lemma_cut_rank(&self, later: &Self, x: NodeId, h: int, i: NodeId)
        requires
            self.cut_in_two(later, x, h),
            i < self.nodes@.len(),
        ensures
            later.entries_before(i) == self.entries_before(i),
        decreases self.height(self.root) - self.height(i),
    {
        let y = self.nodes@.len() as usize;
        let p = self.nodes@[x as int].spec_parent().unwrap();
        let k = self.slot_of(x);
        let e = Seq::<E>::empty();
        self.lemma_cut_keeps(later, x, h);
        self.lemma_root_only(i);
        self.lemma_slot(x);
        if i != self.root {
            self.lemma_slot(i);
            let q = self.nodes@[i as int].spec_parent().unwrap();
            let m = self.slot_of(i);
            assert(self.height(q) <= self.height(self.root));
            self.lemma_cut_rank(later, x, h, q);
            self.lemma_cut_children(later, x, h, q);
            if q == p {
                self.lemma_cut_entries_above(later, x, h, m);
                let m2 = Self::slot_after_cut(k, m);
                assert(self.children(p)[m].1 == later.children(p)[m2].1);
                later.lemma_child(p, m2);
                assert(later.height(p) <= later.height(later.root));
            } else if q == x {
                assert(self.height(p) <= self.height(self.root));
                self.lemma_cut_rank(later, x, h, p);
                self.lemma_cut_rank_new(later, x, h);
                assert(self.is_internal(x));
                assert forall|t: int| 0 <= t < self.children(x).len() implies later.entries_below(
                    (#[trigger] self.children(x)[t]).1,
                ) == self.entries_below(self.children(x)[t].1) by {
                    self.lemma_child(x, t);
                    assert(self.cut_keeps_entries(later, x, self.children(x)[t].1));
                }
                self.lemma_cut_entries_at(later, x, h);
                assert(self.entries_in_first(x, 0) == e);
                assert(later.entries_in_first(x, 0) == e);
                assert(later.entries_in_first(y, 0) == e);
                if m < h {
                    assert forall|t: int| 0 <= t < m implies #[trigger] self.child_matches(
                        later,
                        x,
                        0,
                        x,
                        0,
                        t,
                    ) by {
                        assert(later.children(x)[t] == self.children(x)[t]);
                    }
                    let first = self.lemma_children_match(later, x, 0, x, 0, m);
                    assert(later.children(x)[m] == self.children(x)[m]);
                    later.lemma_child(x, m);
                    assert(!self.moves_in_split(x, h, i));
                    assert(later.height(x) <= later.height(later.root));
                } else {
                    assert forall|t: int| 0 <= t < m - h implies #[trigger] self.child_matches(
                        later,
                        x,
                        h,
                        y,
                        0,
                        t,
                    ) by {
                        assert(later.children(y)[t] == self.children(x)[h + t]);
                    }
                    let second = self.lemma_children_match(later, x, h, y, 0, m - h);
                    assert(e + second =~= second);
                    assert(later.children(y)[m - h] == self.children(x)[m]);
                    later.lemma_child(y, m - h);
                    assert(self.moves_in_split(x, h, i));
                    assert(later.height(y) <= later.height(later.root));
                }
            } else {
                assert(holds_the_same(self.nodes@[q as int], later.nodes@[q as int]));
                assert forall|t: int| 0 <= t < m implies #[trigger] self.child_matches(
                    later,
                    q,
                    0,
                    q,
                    0,
                    t,
                ) by {
                    self.lemma_child(q, t);
                    assert(self.cut_keeps_entries(later, x, self.children(q)[t].1));
                }
                let first = self.lemma_children_match(later, q, 0, q, 0, m);
                assert(self.entries_in_first(q, 0) == e);
                assert(later.entries_in_first(q, 0) == e);
                assert(later.children(q)[m].1 == i);
                later.lemma_child(q, m);
                assert(later.height(q) <= later.height(later.root));
                if self.is_internal(x) {
                    assert(!self.moves_in_split(x, h, i));
                }
            }
        }
    }

    /// Before the new node that a cut makes come the runs before the cut
    /// node, and those that the cut node keeps.
    pub proof fn lemma_cut_rank_of_new(&self, later: &Self, x: NodeId, h: int)
        requires
            self.cut_in_two(later, x, h),
        ensures
            later.entries_before(self.nodes@.len() as usize) == self.entries_before(x)
                + later.entries_below(x).len(),
    {
        self.lemma_slot(x);
        self.lemma_cut_rank(later, x, h, self.nodes@[x as int].spec_parent().unwrap());
        self.lemma_cut_rank_new(later, x, h);
    }

    /// `later` is `self` with a new root above the old one: both are
    /// consistent.
    pub open spec fn grown(&self, later: &Self) -> bool {
        &&& self.wf()
        &&& later.wf()
        &&& self.nodes@.len() < usize::MAX
        &&& self.root_grown(later)
    }

    /// Under a new root every node that was there holds what it held.
    proof fn lemma_grown_keeps(&self, later: &Self)
        requires
            self.grown(later),
        ensures
            forall|i: NodeId|
                i < self.nodes@.len() ==> holds_the_same(
                    #[trigger] self.nodes@[i as int],
                    later.nodes@[i as int],
                ),
            forall|i: NodeId|
                i < self.nodes@.len() && i != self.root ==> #[trigger] later.nodes@[i as int]
                    == self.nodes@[i as int],
    {
        assert forall|i: NodeId| i < self.nodes@.len() implies holds_the_same(
            #[trigger] self.nodes@[i as int],
            later.nodes@[i as int],
        ) by {
            if i != self.root {
                assert(later.nodes@[i as int] == self.nodes@[i as int]);
            }
        }
    }

    /// A new root keeps the runs below every node that was there.
    pub proof fn lemma_grown_entries(&self, later: &Self, i: NodeId)
        requires
            self.grown(later),
            i < self.nodes@.len(),
        ensures
            later.entries_below(i) == self.entries_below(i),
        decreases self.height(i),
    {
        self.lemma_grown_keeps(later);
        assert(holds_the_same(self.nodes@[i as int], later.nodes@[i as int]));
        if self.is_internal(i) {
            let n = self.children(i).len() as int;
            assert forall|m: int| 0 <= m < n implies #[trigger] self.child_matches(
                later,
                i,
                0,
                i,
                0,
                m,
            ) by {
                self.lemma_child(i, m);
                self.lemma_grown_entries(later, self.children(i)[m].1);
            }
            let all = self.lemma_children_match(later, i, 0, i, 0, n);
        }
    }

    /// A new root keeps the runs of the tree.
    pub proof fn lemma_grown_contents(&self, later: &Self)
        requires
            self.grown(later),
        ensures
            later.contents() == self.contents(),
    {
        let r = later.root;
        let e = Seq::<E>::empty();
        self.lemma_grown_entries(later, self.root);
        assert(later.children(r)[0].1 == self.root);
        later.lemma_entries_step(r, 0);
        assert(later.entries_in_first(r, 0) == e);
        assert(e + later.entries_below(self.root) =~= later.entries_below(self.root));
    }

    /// A new root keeps the number of runs that come before a node.
    #[verifier::rlimit(50)]
    pub proof fn lemma_grown_rank(&self, later: &Self, i: NodeId)
        requires
            self.grown(later),
            i < self.nodes@.len(),
        ensures
            later.entries_before(i) == self.entries_before(i),
        decreases self.height(self.root) - self.height(i),
    {
        let r = later.root;
        let e = Seq::<E>::empty();
        self.lemma_grown_keeps(later);
        self.lemma_root_only(i);
        if i == self.root {
            assert(later.children(r)[0].1 == self.root);
            later.lemma_child(r, 0);
            later.lemma_root_only(r);
            assert(later.entries_in_first(r, 0) == e);
            assert(later.entries_before(r) == 0);
        } else {
            self.lemma_slot(i);
            let q = self.nodes@[i as int].spec_parent().unwrap();
            let m = self.slot_of(i);
            assert(self.height(q) <= self.height(self.root));
            self.lemma_grown_rank(later, q);
            assert(holds_the_same(self.nodes@[q as int], later.nodes@[q as int]));
            assert forall|t: int| 0 <= t < m implies #[trigger] self.child_matches(
                later,
                q,
                0,
                q,
                0,
                t,
            ) by {
                self.lemma_child(q, t);
                self.lemma_grown_entries(later, self.children(q)[t].1);
            }
            let first = self.lemma_children_match(later, q, 0, q, 0, m);
            assert(self.entries_in_first(q, 0) == e);
            assert(later.entries_in_first(q, 0) == e);
            assert(later.children(q)[m].1 == i);
            later.lemma_child(q, m);
            assert(later.height(q) <= later.height(later.root));
            assert(later.nodes@[i as int] == self.nodes@[i as int]);
        }
    }

    /// `later` has the runs of `self`, and before each node of `self` as
    /// many runs as there were.
    pub open spec fn keeps_runs(&self, later: &Self) -> bool {
        &&& later.contents() == self.contents()
        &&& later.nodes@.len() >= self.nodes@.len()
        &&& forall|i: NodeId|
            i < self.nodes@.len() ==> #[trigger] later.entries_before(i) == self.entries_before(i)
    }

    /// A new root keeps the runs of the tree where they were.
    pub proof fn lemma_grown_keeps_runs(&self, later: &Self)
        requires
            self.grown(later),
        ensures
            self.keeps_runs(later),
    {
        self.lemma_grown_contents(later);
        assert forall|i: NodeId| i < self.nodes@.len() implies #[trigger] later.entries_before(i)
            == self.entries_before(i) by {
            self.lemma_grown_rank(later, i);
        }
    }

    /// A cut keeps the runs of the tree where they were. Before the new
    /// node come the runs before the cut node, and those that it keeps.
    pub proof fn lemma_cut_keeps_runs(&self, later: &Self, x: NodeId, h: int)
        requires
            self.cut_in_two(later, x, h),
        ensures
            self.keeps_runs(later),
            self.is_leaf(x) ==> later.entries_before(self.nodes@.len() as usize)
                == self.entries_before(x) + h,
    {
        self.lemma_cut_contents(later, x, h);
        assert forall|i: NodeId| i < self.nodes@.len() implies #[trigger] later.entries_before(i)
            == self.entries_before(i) by {
            self.lemma_cut_rank(later, x, h, i);
        }
        self.lemma_cut_rank_of_new(later, x, h);
    }

    /// What keeps the runs twice keeps them.
    pub proof fn lemma_keeps_runs_trans(&self, mid: &Self, later: &Self)
        requires
            self.keeps_runs(mid),
            mid.keeps_runs(later),
        ensures
            self.keeps_runs(later),
    {
        assert forall|i: NodeId| i < self.nodes@.len() implies #[trigger] later.entries_before(i)
            == self.entries_before(i) by {
            assert(mid.entries_before(i) == self.entries_before(i));
        }
    }

    /// A tree keeps its own runs.
    pub proof fn lemma_keeps_runs_refl(&self)
        ensures
            self.keeps_runs(self),
    {
    }
}

} // verus!
