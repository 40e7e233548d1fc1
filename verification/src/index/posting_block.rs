//! A block of document numbers.
use vstd::prelude::*;

verus! {

/// A new block is started when a block holds this many postings.
pub const POSTING_BLOCK_MAX_SIZE: u8 = 128;

/// The document numbers of a block of postings.
#[derive(Debug)]
pub struct PostingBlock {
    pub postings: Vec<u64>,
}

} // verus!
