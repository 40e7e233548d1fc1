//! A full-text search index: documents are split into terms, each term's
//! postings are kept in a skip list stored in a byte store, and queries rank
//! the documents that hold the query's terms.
pub mod codec;
pub mod index;
pub mod store;
pub mod terms;
pub mod analyzer;
pub mod fst_map;
pub mod paths;
pub mod query;
