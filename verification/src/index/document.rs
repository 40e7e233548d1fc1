//! A document to index.
use vstd::prelude::*;

verus! {

/// A document: the caller's number for it, and its text.
#[derive(Debug)]
pub struct Document<'a> {
    pub external_id: u64,
    pub content: &'a str,
}

} // verus!
