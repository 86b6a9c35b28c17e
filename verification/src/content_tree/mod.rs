//! A tree of runs that can be entered at an offset: leaves hold the runs,
//! inner nodes hold for each child the sum of a measure over the runs below
//! it. The nodes live in one list and name each other by index.

use vstd::prelude::*;

pub mod chain;
pub mod check;
pub mod contents;
pub mod cursor;
pub mod insert;
pub mod internal;
pub mod kept;
pub mod leaf;
pub mod mutate;
pub mod split;

verus! {

/// Index of a node in the list of nodes of its tree.
pub type NodeId = usize;

/// Most runs that a leaf holds.
pub const LEAF_ENTRIES: usize = 32;

/// Most children that an inner node has.
pub const INTERNAL_ENTRIES: usize = 16;

/// The measure by which a tree is entered.
#[derive(Copy, Clone, Debug, PartialEq, Eq, Structural)]
pub enum MetricKind {
    /// All items of a run count.
    RawLen,
    /// Only items that are part of the document count.
    ContentLen,
}

/// A run that a tree can hold.
pub trait TreeEntry: Copy {
    /// Number of items of the run.
    spec fn spec_seq_len(&self) -> nat;

    /// Number of items of the run that are part of the document: all of
    /// them or none.
    spec fn spec_content_len(&self) -> nat;

    /// Both lengths fit the machine, and the content is all of the run or
    /// nothing.
    proof fn lemma_lengths(&self)
        ensures
            self.spec_seq_len() <= usize::MAX,
            self.spec_content_len() == 0 || self.spec_content_len() == self.spec_seq_len(),
    ;

    fn get_seq_len(&self) -> (n: usize)
        ensures
            n == self.spec_seq_len(),
    ;

    fn get_content_len(&self) -> (n: usize)
        ensures
            n == self.spec_content_len(),
    ;
}

/// The measure of a run.
pub open spec fn spec_measure<E: TreeEntry>(kind: MetricKind, e: &E) -> nat {
    match kind {
        MetricKind::RawLen => e.spec_seq_len(),
        MetricKind::ContentLen => e.spec_content_len(),
    }
}

pub fn measure<E: TreeEntry>(kind: MetricKind, e: &E) -> (n: usize)
    ensures
        n == spec_measure(kind, e),
{
    match kind {
        MetricKind::RawLen => e.get_seq_len(),
        MetricKind::ContentLen => e.get_content_len(),
    }
}

/// The measure of a list of runs.
pub open spec fn measure_sum<E: TreeEntry>(kind: MetricKind, entries: Seq<E>) -> nat
    decreases entries.len(),
{
    if entries.len() == 0 {
        0
    } else {
        measure_sum(kind, entries.drop_last()) + spec_measure(kind, &entries.last())
    }
}

/// The measure of a list is that of any first part and of what follows
/// it.
pub proof fn lemma_measure_sum_split<E: TreeEntry>(kind: MetricKind, entries: Seq<E>, i: int)
    requires
        0 <= i <= entries.len(),
    ensures
        measure_sum(kind, entries) == measure_sum(kind, entries.take(i)) + measure_sum(
            kind,
            entries.skip(i),
        ),
    decreases entries.len(),
{
    if i == entries.len() {
        assert(entries.take(i) =~= entries);
        assert(entries.skip(i) =~= Seq::<E>::empty());
    } else {
        lemma_measure_sum_split(kind, entries.drop_last(), i);
        assert(entries.drop_last().take(i) =~= entries.take(i));
        assert(entries.skip(i).drop_last() =~= entries.drop_last().skip(i));
        assert(entries.skip(i).last() == entries.last());
    }
}

/// The sum of the cached measures of a list of children.
pub open spec fn cache_sum(children: Seq<(usize, NodeId)>) -> nat
    decreases children.len(),
{
    if children.len() == 0 {
        0
    } else {
        cache_sum(children.drop_last()) + children.last().0 as nat
    }
}

/// A leaf: the runs it holds, the node above it, and the leaf after it.
pub struct NodeLeaf<E> {
    /// The node above; `None` for the root.
    pub parent: Option<NodeId>,
    pub data: Vec<E>,
    /// The next leaf in the order of the document.
    pub next: Option<NodeId>,
}

/// An inner node: its children, each with the measure of what is below it.
pub struct NodeInternal {
    /// The node above; `None` for the root.
    pub parent: Option<NodeId>,
    /// Number of levels below this node.
    pub height: usize,
    pub children: Vec<(usize, NodeId)>,
}

pub enum Node<E> {
    Leaf(NodeLeaf<E>),
    Internal(NodeInternal),
}

impl<E> Node<E> {
    pub open spec fn spec_parent(&self) -> Option<NodeId> {
        match self {
            Node::Leaf(l) => l.parent,
            Node::Internal(n) => n.parent,
        }
    }

    /// Number of levels below the node: none below a leaf.
    pub open spec fn spec_height(&self) -> nat {
        match self {
            Node::Leaf(_) => 0,
            Node::Internal(n) => n.height as nat,
        }
    }

    pub fn parent(&self) -> (p: Option<NodeId>)
        ensures
            p == self.spec_parent(),
    {
        match self {
            Node::Leaf(l) => l.parent,
            Node::Internal(n) => n.parent,
        }
    }
}

/// The tree: its nodes, the index of its root, and the measure of all it
/// holds.
pub struct ContentTree<E> {
    pub nodes: Vec<Node<E>>,
    pub root: NodeId,
    pub count: usize,
    pub metric: MetricKind,
}

/// A place in a tree: a leaf, a run of it, and an offset in that run.
#[derive(Copy, Clone, Debug, PartialEq, Eq, Structural)]
pub struct Cursor {
    pub node: NodeId,
    pub idx: usize,
    pub offset: usize,
}

impl<E: TreeEntry> ContentTree<E> {
    /// Node `i` is a leaf.
    pub open spec fn is_leaf(&self, i: NodeId) -> bool {
        i < self.nodes@.len() && self.nodes@[i as int] is Leaf
    }

    /// Node `i` is an inner node.
    pub open spec fn is_internal(&self, i: NodeId) -> bool {
        i < self.nodes@.len() && self.nodes@[i as int] is Internal
    }

    pub open spec fn leaf(&self, i: NodeId) -> NodeLeaf<E> {
        self.nodes@[i as int]->Leaf_0
    }

    pub open spec fn internal(&self, i: NodeId) -> NodeInternal {
        self.nodes@[i as int]->Internal_0
    }

    /// The children of inner node `i`.
    pub open spec fn children(&self, i: NodeId) -> Seq<(usize, NodeId)> {
        self.internal(i).children@
    }

    pub open spec fn height(&self, i: NodeId) -> nat {
        self.nodes@[i as int].spec_height()
    }

    /// The measure of what node `i` holds: of its runs for a leaf, else the
    /// sum of the cached measures of its children.
    pub open spec fn node_total(&self, i: NodeId) -> nat {
        match self.nodes@[i as int] {
            Node::Leaf(l) => measure_sum(self.metric, l.data@),
            Node::Internal(n) => cache_sum(n.children@),
        }
    }

    /// Inner node `i` is consistent: it has children, all one level below
    /// it, each naming it as the node above, and no child twice.
    pub open spec fn internal_wf(&self, i: NodeId) -> bool {
        let n = self.internal(i);
        &&& 0 < n.children@.len() <= INTERNAL_ENTRIES
        &&& n.height >= 1
        &&& forall|k: int|
            0 <= k < n.children@.len() ==> {
                let c = (#[trigger] n.children@[k]).1;
                &&& c < self.nodes@.len()
                &&& self.nodes@[c as int].spec_parent() == Some(i)
                &&& self.height(c) + 1 == n.height
            }
        &&& forall|k1: int, k2: int|
            0 <= k1 < k2 < n.children@.len() ==> (#[trigger] n.children@[k1]).1 != (
            #[trigger] n.children@[k2]).1
    }

    /// The nodes are linked into one tree below the root.
    pub open spec fn links_wf(&self) -> bool {
        &&& self.root < self.nodes@.len()
        &&& self.nodes@[self.root as int].spec_parent().is_none()
        &&& forall|i: NodeId| #[trigger] self.is_internal(i) ==> self.internal_wf(i)
        &&& forall|i: NodeId|
            #[trigger] self.is_leaf(i) ==> self.leaf(i).data@.len() <= LEAF_ENTRIES && (i
                != self.root ==> self.leaf(i).data@.len() > 0)
        &&& forall|i: NodeId|
            i < self.nodes@.len() && i != self.root ==> self.has_parent(i)
        &&& forall|i: NodeId| i < self.nodes@.len() ==> #[trigger] self.height(i) <= self.height(self.root)
    }

    /// Node `i` is a child of the node that it names as the node above.
    pub open spec fn has_parent(&self, i: NodeId) -> bool {
        match self.nodes@[i as int].spec_parent() {
            Some(p) => self.is_internal(p) && exists|k: int|
                0 <= k < self.children(p).len() && (#[trigger] self.children(p)[k]).1 == i,
            None => false,
        }
    }

    /// Every cached measure is the measure of the child it stands for, and
    /// the tree's count is the measure of the root.
    pub open spec fn metrics_wf(&self) -> bool {
        &&& self.count == self.node_total(self.root)
        &&& forall|i: NodeId, k: int|
            self.is_internal(i) && 0 <= k < self.children(i).len() ==> (
            #[trigger] self.children(i)[k]).0 == self.node_total(self.children(i)[k].1)
    }

    pub open spec fn wf(&self) -> bool {
        &&& self.links_wf()
        &&& self.metrics_wf()
    }

    /// The measure of all runs below node `i`.
    pub open spec fn subtree_sum(&self, i: NodeId) -> nat
        decreases self.height(i), 1nat,
    {
        match self.nodes@[i as int] {
            Node::Leaf(l) => measure_sum(self.metric, l.data@),
            Node::Internal(n) => self.children_sum(i, n.children@.len()),
        }
    }

    /// The measure of all runs below the first `k` children of node `i`.
    pub open spec fn children_sum(&self, i: NodeId, k: nat) -> nat
        decreases self.height(i), 0nat, k,
    {
        if k == 0 || !self.is_internal(i) || k > self.children(i).len() {
            0
        } else {
            let c = self.children(i)[k - 1].1;
            self.children_sum(i, (k - 1) as nat) + if c < self.nodes@.len() && self.height(c)
                < self.height(i) {
                self.subtree_sum(c)
            } else {
                0
            }
        }
    }

    /// A tree with one empty leaf.
    pub fn new(metric: MetricKind) -> (t: Self)
        ensures
            t.wf(),
            t.metric == metric,
            t.nodes@.len() == 1,
            t.root == 0,
            t.is_leaf(0),
            t.leaf(0).data@.len() == 0,
            t.count == 0,
            t.chain_wf(),
    {
        let mut nodes: Vec<Node<E>> = Vec::new();
        nodes.push(Node::Leaf(NodeLeaf { parent: None, data: Vec::new(), next: None }));
        let t = ContentTree { nodes, root: 0, count: 0, metric };
        assert(t.nodes@[0] is Leaf);
        assert(t.wf());
        assert(t.beside(0, true).is_none());
        t
    }
}

} // verus!
