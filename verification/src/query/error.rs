//! What can go wrong while a query is answered.
use crate::analyzer::error::error_text as analyze_text;
use crate::analyzer::Error as AnalyzeError;
use crate::fst_map::fst_error_text;
use crate::store::error::error_text as store_text;
use crate::store::error::Error as StoreError;
use vstd::prelude::*;

verus! {

/// A failed query operation.
#[derive(Debug)]
pub enum Error {
    /// The analyzer failed.
    Analyze(AnalyzeError),
    /// The FST could not be read.
    Fst(fst::Error),
    /// The term file does not come from this index.
    Incompatible,
    /// The term file could not be read.
    Store(StoreError),
}

impl Error {
    /// The message that describes the error: that of the error it wraps, or
    /// for a term file of another index, "incompatible data file".
    pub fn message(&self) -> (r: String)
        ensures
            match self {
                Error::Analyze(e) => r@ == analyze_text(*e),
                Error::Fst(_) => true,
                Error::Incompatible => r@ == "incompatible data file"@,
                Error::Store(e) => r@ == store_text(*e),
            },
    {
        match self {
            Error::Analyze(e) => e.message(),
            Error::Fst(e) => fst_error_text(e),
            Error::Incompatible => {
                let s = String::from_str("incompatible data file");
                proof {
                    reveal_strlit("incompatible data file");
                }
                s
            },
            Error::Store(e) => e.message(),
        }
    }
}

pub type Result<T> = std::result::Result<T, Error>;

} // verus!
