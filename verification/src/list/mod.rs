//! The operation log of a text document: who did what, and knowing what.

pub mod encoding;
pub mod eq;
pub mod history;
pub mod merge;
pub mod operation;
pub mod oplog;
pub mod round_trip;
