//! File paths inside a database directory.

use vstd::prelude::*;

verus! {

#[verifier::external_type_specification]
#[verifier::external_body]
pub struct ExPath(std::path::Path);

#[verifier::external_type_specification]
#[verifier::external_body]
pub struct ExPathBuf(std::path::PathBuf);

/// The path that `std::path::Path::join` makes of a directory path and a
/// file name. It depends on those two alone (the separator is fixed when the
/// crate is compiled); what it is, byte for byte, is left to std.
pub uninterp spec fn joined_path(dir: &std::path::Path, name: Seq<char>) -> std::path::PathBuf;

/// Calls `std::path::Path::join`, which appends a file name to a directory
/// path. The contract claims only that the result is the joined path of this
/// directory and this name (`joined_path`), the same for the same arguments.
#[verifier::external_body]
pub(crate) fn join_path(dir: &std::path::Path, name: &str) -> (r: std::path::PathBuf)
    ensures
        r == joined_path(dir, name@),
{
    dir.join(name)
}

} // verus!
