//! Core of a collaborative text CRDT: causal graph, run-length encoded spans,
//! a content-indexed tree and the variable-length integer codec.

pub mod causalgraph;
pub mod content_tree;
pub mod dtrange;
pub mod encoding;
pub mod export;
pub mod frontier;
pub mod list;
pub mod range_list;
pub mod rev_range;
pub mod rle;
