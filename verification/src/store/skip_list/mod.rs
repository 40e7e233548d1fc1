//! A skip list kept in a byte store. Nodes are only appended; a node's
//! record keeps its size, so its links are rewritten in place. An offset of 0
//! stands for "no node": the list must not start at the store's first byte.
pub mod layout;
pub mod model;
pub mod links;
pub mod push;
pub mod writer;
pub mod reader;
