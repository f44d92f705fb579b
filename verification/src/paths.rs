//! Path component queries, answered by `std::path`. Paths are handled as text.
use vstd::prelude::*;

verus! {

/// What `Path::file_stem` yields for a path: the final component without its
/// extension.
pub uninterp spec fn path_stem(path: Seq<char>) -> Option<Seq<char>>;

/// What `Path::file_name` yields for a path: its final component.
pub uninterp spec fn path_file_name(path: Seq<char>) -> Option<Seq<char>>;

/// What `Path::strip_prefix` yields: the rest of `path` below `base`, when `base`
/// is a prefix of it component-wise.
pub uninterp spec fn path_below(path: Seq<char>, base: Seq<char>) -> Option<Seq<char>>;

/// What `Path::extension` yields for a path: the part of its final component after
/// the last `.`.
pub uninterp spec fn path_extension(path: Seq<char>) -> Option<Seq<char>>;

/// `Path::extension` of `path`: the result is a function of the path text alone.
#[verifier::external_body]
pub(crate) fn extension(path: &str) -> (r: Option<String>)
    ensures
        match path_extension(path@) {
            Some(s) => r matches Some(x) && x@ == s,
            None => r is None,
        },
{
    std::path::Path::new(path).extension().map(|s| s.to_string_lossy().into_owned())
}

/// `Path::file_stem` of `path`: the result is a function of the path text alone.
#[verifier::external_body]
pub(crate) fn file_stem(path: &str) -> (r: Option<String>)
    ensures
        match path_stem(path@) {
            Some(s) => r matches Some(x) && x@ == s,
            None => r is None,
        },
{
    std::path::Path::new(path).file_stem().map(|s| s.to_string_lossy().into_owned())
}

/// `Path::file_name` of `path`: the result is a function of the path text alone.
#[verifier::external_body]
pub(crate) fn file_name(path: &str) -> (r: Option<String>)
    ensures
        match path_file_name(path@) {
            Some(s) => r matches Some(x) && x@ == s,
            None => r is None,
        },
{
    std::path::Path::new(path).file_name().map(|s| s.to_string_lossy().into_owned())
}

/// `Path::strip_prefix` of `path` by `base`: the result is a function of the two
/// path texts alone.
#[verifier::external_body]
pub(crate) fn strip_prefix(path: &str, base: &str) -> (r: Option<String>)
    ensures
        match path_below(path@, base@) {
            Some(s) => r matches Some(x) && x@ == s,
            None => r is None,
        },
{
    std::path::Path::new(path).strip_prefix(base).ok().map(|p| p.to_string_lossy().into_owned())
}

} // verus!
