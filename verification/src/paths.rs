//! Path algebra. Paths are held as text; joining and splitting them is done by
//! `std::path` under the rules of the platform that the library is built for.
//! Its results are named here and not spelled out.

use vstd::prelude::*;

verus! {

/// What `Path::join` gives for a base path and a segment, as text.
pub uninterp spec fn path_join(base: Seq<char>, segment: Seq<char>) -> Seq<char>;

/// What `Path::ancestors` yields for a path: the path itself, then its parent,
/// then the parent of that, and so on, each as text.
pub uninterp spec fn path_ancestors(path: Seq<char>) -> Seq<Seq<char>>;

/// What `Path::file_name` gives for a path, as text.
pub uninterp spec fn path_file_name(path: Seq<char>) -> Option<Seq<char>>;

/// What `Path::file_stem` gives for a path, as text.
pub uninterp spec fn path_file_stem(path: Seq<char>) -> Option<Seq<char>>;

/// What `Path::extension` gives for a path, as text.
pub uninterp spec fn path_extension(path: Seq<char>) -> Option<Seq<char>>;

/// The texts held by a sequence of strings.
pub open spec fn texts(strings: Seq<String>) -> Seq<Seq<char>> {
    strings.map_values(|s: String| s@)
}

/// The text held by an optional string.
pub open spec fn opt_text(string: Option<String>) -> Option<Seq<char>> {
    match string {
        Some(s) => Some(s@),
        None => None,
    }
}

/// `Path::join`: `base` extended by `segment` under the platform's path rules.
/// The contract only names the result.
#[verifier::external_body]
pub(crate) fn join(base: &str, segment: &str) -> (out: String)
    ensures
        out@ == path_join(base@, segment@),
{
    std::path::Path::new(base).join(segment).to_string_lossy().into_owned()
}

/// `Path::ancestors`: the path and all its ancestors, nearest first. The
/// contract names the result and states what the documentation of
/// `Path::ancestors` promises of every path: the iterator yields at least one
/// value, and the first is the path itself.
#[verifier::external_body]
pub(crate) fn ancestors(path: &str) -> (out: Vec<String>)
    ensures
        texts(out@) == path_ancestors(path@),
        out@.len() >= 1,
        out@[0]@ == path@,
{
    std::path::Path::new(path).ancestors().map(|p| p.to_string_lossy().into_owned()).collect()
}

/// `Path::file_name`: the final component of the path, if there is one. The
/// contract only names the result.
#[verifier::external_body]
pub(crate) fn file_name(path: &str) -> (out: Option<String>)
    ensures
        opt_text(out) == path_file_name(path@),
{
    std::path::Path::new(path).file_name().map(|n| n.to_string_lossy().into_owned())
}

/// `Path::file_stem`: the final component without its extension, if there is
/// one. The contract only names the result.
#[verifier::external_body]
pub(crate) fn file_stem(path: &str) -> (out: Option<String>)
    ensures
        opt_text(out) == path_file_stem(path@),
{
    std::path::Path::new(path).file_stem().map(|n| n.to_string_lossy().into_owned())
}

/// `Path::extension`: the extension of the final component, if there is one.
/// The contract only names the result.
#[verifier::external_body]
pub(crate) fn extension(path: &str) -> (out: Option<String>)
    ensures
        opt_text(out) == path_extension(path@),
{
    std::path::Path::new(path).extension().map(|n| n.to_string_lossy().into_owned())
}

} // verus!
