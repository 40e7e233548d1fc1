//! What ranking by term priority starts from.
use vstd::prelude::*;

verus! {

/// Weighs a term by how often it occurs and how many of the indexed
/// documents hold it.
#[derive(Debug)]
pub struct TfIdfTermPriorityCalculator {
    total_doc_num: u64,
}

impl TfIdfTermPriorityCalculator {
    /// A calculator for an index of `total_doc_num` documents.
    pub fn new(total_doc_num: u64) -> (r: Self)
        ensures
            r.doc_num() == total_doc_num,
    {
        TfIdfTermPriorityCalculator { total_doc_num }
    }

    /// The number of documents indexed.
    pub closed spec fn doc_num(&self) -> u64 {
        self.total_doc_num
    }

    /// The number of documents indexed.
    pub fn total_doc_num(&self) -> (r: u64)
        ensures
            r == self.doc_num(),
    {
        self.total_doc_num
    }
}

} // verus!
