//! What can go wrong when the store is read or written.
use crate::codec::{decode_error_text, DecodeError};
use vstd::prelude::*;

verus! {

/// A value could not be turned into bytes or back.
#[derive(Debug, Clone, Copy, PartialEq, Eq)]
pub enum EncodingError {
    Decode(DecodeError),
}

/// The message that describes `e`: that of the decode error it wraps.
pub open spec fn encoding_error_text(e: EncodingError) -> Seq<char> {
    match e {
        EncodingError::Decode(d) => decode_error_text(d),
    }
}

impl EncodingError {
    /// The message that describes the error: that of the error it wraps.
    pub fn message(&self) -> (r: String)
        ensures
            r@ == encoding_error_text(*self),
    {
        match self {
            EncodingError::Decode(d) => d.message(),
        }
    }
}

/// A failed store operation.
#[derive(Debug, Clone, Copy, PartialEq, Eq)]
pub enum Error {
    /// The bytes at the place read do not hold a value of the type asked for.
    Encoding(EncodingError),
    /// The bytes do not come from this index.
    Incompatible,
    /// The place asked for lies outside the store, or beyond what it can hold.
    OutOfRange,
}

/// The message that describes `e`.
pub open spec fn error_text(e: Error) -> Seq<char> {
    match e {
        Error::Encoding(e) => encoding_error_text(e),
        Error::Incompatible => "incompatible data file"@,
        Error::OutOfRange => "out of range"@,
    }
}

impl Error {
    /// The message that describes the error.
    pub fn message(&self) -> (r: String)
        ensures
            r@ == error_text(*self),
    {
        match self {
            Error::Encoding(e) => e.message(),
            Error::Incompatible => {
                let s = String::from_str("incompatible data file");
                proof {
                    reveal_strlit("incompatible data file");
                }
                s
            },
            Error::OutOfRange => {
                let s = String::from_str("out of range");
                proof {
                    reveal_strlit("out of range");
                }
                s
            },
        }
    }
}

} // verus!
