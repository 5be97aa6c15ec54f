//! Paths, as the index sees them: strings, compared component by component.

use vstd::prelude::*;

verus! {

/// What `std::path::Path::starts_with` answers for the path `path` and the
/// base `base`, by the path syntax of the platform that the library is built
/// for: whether the components of `base` are the first components of `path`.
/// Only whole components match, so `/notes/ab` does not start with `/notes/a`.
pub uninterp spec fn path_starts_with(path: Seq<char>, base: Seq<char>) -> bool;

/// Calls `std::path::Path::starts_with` on the two strings taken as paths.
/// The answer depends on the two strings alone.
#[verifier::external_body]
pub(crate) fn starts_with(path: &str, base: &str) -> (r: bool)
    ensures
        r == path_starts_with(path@, base@),
{
    std::path::Path::new(path).starts_with(base)
}

/// A name is hidden when it begins with a dot.
pub open spec fn hidden(name: Seq<char>) -> bool {
    name.len() > 0 && name[0] == '.'
}

/// Whether a walk of the data directory skips the entry called `name`.
pub fn is_hidden(name: &str) -> (r: bool)
    ensures
        r == hidden(name@),
{
    let mut chars = name.chars();
    match chars.next() {
        Some(first) => first == '.',
        None => false,
    }
}

} // verus!
