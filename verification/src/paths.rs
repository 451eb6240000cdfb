//! File paths held as strings, joined the way `std::path::Path::join` joins them.
use vstd::prelude::*;

verus! {

/// `Path::join(dir, name)` as text.
pub uninterp spec fn joined_path(dir: Seq<char>, name: Seq<char>) -> Seq<char>;

/// Calls `std::path::Path::join` on `dir` and `name`; the result is the named
/// join of the two (a pure function of its arguments; both are UTF-8, so the
/// joined path converts back to text without loss).
#[verifier::external_body]
pub(crate) fn path_join(dir: &str, name: &str) -> (r: String)
    ensures
        r@ == joined_path(dir@, name@),
{
    std::path::Path::new(dir).join(name).to_string_lossy().into_owned()
}

} // verus!
