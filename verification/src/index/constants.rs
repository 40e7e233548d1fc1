//! The names and the magic number of the index files.
use vstd::prelude::*;

verus! {

/// The file of the postings' skip lists.
pub const TERM_FILENAME: &'static str = "index.trm";

/// The file of the FST from terms to their skip lists.
pub const FST_FILENAME: &'static str = "index.fst";

/// The first eight bytes of a term file, little-endian.
pub const TERM_FILE_MAGIC_NUMBER: u64 = 4294872394;

} // verus!
