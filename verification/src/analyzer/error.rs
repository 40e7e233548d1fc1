//! What can go wrong when an analyzer is set up.
use vstd::prelude::*;

verus! {

/// A failed analyzer operation.
#[derive(Debug, Clone, Copy, PartialEq, Eq)]
pub enum Error {
    /// The stop-word dictionary could not be read.
    Io,
}

/// The message that describes `e`.
pub open spec fn error_text(e: Error) -> Seq<char> {
    match e {
        Error::Io => "the stop-word dictionary could not be read"@,
    }
}

impl Error {
    /// The message that describes the error.
    pub fn message(&self) -> (r: String)
        ensures
            r@ == error_text(*self),
    {
        let s = String::from_str("the stop-word dictionary could not be read");
        proof {
            reveal_strlit("the stop-word dictionary could not be read");
        }
        s
    }
}

} // verus!
