//! Turning a text into the terms it holds and how often each occurs.
pub mod analyzer;
pub mod char_filter;
pub mod error;
pub mod text;
pub mod token_filter;
pub mod tokenizer;

pub use analyzer::Analyzer;
pub use error::Error;
