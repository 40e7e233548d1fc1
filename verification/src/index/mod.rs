//! What the index stores and how it is built.
pub mod constants;
pub mod document;
pub mod norm;
pub mod posting_block;
pub mod postings;
pub mod term_index;
pub mod writer;
