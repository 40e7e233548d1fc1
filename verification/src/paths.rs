//! Paths of the index files.
use vstd::prelude::*;

verus! {

#[verifier::external_type_specification]
#[verifier::external_body]
pub struct ExPathBuf(std::path::PathBuf);

/// The path `std::path::Path::join` makes of the directory `dir` and the
/// name `name`.
pub uninterp spec fn path_joined(dir: std::path::PathBuf, name: Seq<char>) -> std::path::PathBuf;

/// `std::path::Path::join`: `dir` with `name` added as its last component.
/// The result is named by `path_joined`, a function of the directory and
/// the name alone; what the joined path looks like is not stated.
#[verifier::external_body]
pub(crate) fn join_path(dir: &std::path::PathBuf, name: &str) -> (r: std::path::PathBuf)
    ensures
        r == path_joined(*dir, name@),
{
    dir.join(name)
}

} // verus!
