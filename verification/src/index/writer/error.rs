//! What can go wrong while the index is built.
use crate::analyzer::Error as AnalyzeError;

use crate::store::error::Error as StoreError;
use vstd::prelude::*;

verus! {

/// A failed index operation.
#[derive(Debug)]
pub enum Error {
    /// The analyzer failed.
    Analyze(AnalyzeError),
    /// The term file could not be read or written.
    Store(StoreError),
    /// The FST could not be built.
    Fst(fst::Error),
}

pub type Result<T> = std::result::Result<T, Error>;

} // verus!
