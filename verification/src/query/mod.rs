//! Answering queries: each term of a query is looked up in the FST, its
//! postings are read from the term file, and the documents are ranked by
//! the frequencies of the terms they hold.
pub mod documents;
pub mod error;
pub mod query;
pub mod score;

pub use error::{Error, Result};
pub use query::{Config, Query};
