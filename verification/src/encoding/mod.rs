//! The byte-level encoding: variable-length integers and the tools built
//! on them.

pub mod encode_tools;
pub mod varint;
