//! Norms of documents.
use vstd::prelude::*;

verus! {

/// The norms of the documents, by document number: one byte per field, the
/// fields in the order of their names.
#[derive(Debug)]
pub struct Norms {
    pub norms: Vec<u8>,
}

} // verus!
