//! File-system paths as text: the final component, the stem, the parent.

use vstd::prelude::*;

verus! {

/// The final component of the path `path`, as `std::path::Path::file_name`
/// gives it; `None` where the path has none.
pub uninterp spec fn path_file_name(path: Seq<char>) -> Option<Seq<char>>;

/// Whether `i` is the position of the last dot of `name`.
pub open spec fn is_last_dot(name: Seq<char>, i: int) -> bool {
    &&& 0 <= i < name.len()
    &&& name[i] == '.'
    &&& forall|j: int| i < j < name.len() ==> name[j] != '.'
}

/// The stem of the file name `name`: the whole name where it holds no dot
/// or only starts with its one dot, what stands before its last dot
/// otherwise.
pub open spec fn stem_of(name: Seq<char>) -> Seq<char> {
    if exists|i: int| i > 0 && is_last_dot(name, i) {
        name.take(choose|i: int| i > 0 && is_last_dot(name, i))
    } else {
        name
    }
}

/// The final component of `path` without its extension, as
/// `std::path::Path::file_stem` gives it: the stem of the file name.
pub open spec fn path_file_stem(path: Seq<char>) -> Option<Seq<char>> {
    match path_file_name(path) {
        Some(name) => Some(stem_of(name)),
        None => None,
    }
}

/// The path `path` without its final component, as
/// `std::path::Path::parent` gives it.
pub uninterp spec fn path_parent(path: Seq<char>) -> Option<Seq<char>>;

/// The path `base` extended by `tail`, as `std::path::Path::join` gives
/// it: `tail` alone where it starts at the root; otherwise `base`, a `/`
/// unless `base` is empty or ends in one, and `tail`.
pub open spec fn path_join(base: Seq<char>, tail: Seq<char>) -> Seq<char> {
    if tail.len() > 0 && tail[0] == '/' {
        tail
    } else if base.len() == 0 || base.last() == '/' {
        base + tail
    } else {
        base + seq!['/'] + tail
    }
}

/// The characters of an optional string.
pub open spec fn opt_text(s: Option<String>) -> Option<Seq<char>> {
    match s {
        Some(s) => Some(s@),
        None => None,
    }
}

/// Calls `std::path::Path::file_name`. The result is the final component
/// of the path; the contract only gives that result its name.
#[verifier::external_body]
pub(crate) fn file_name(path: &str) -> (name: Option<String>)
    ensures
        opt_text(name) == path_file_name(path@),
{
    std::path::Path::new(path).file_name().and_then(|n| n.to_str()).map(|n| n.to_owned())
}

/// Calls `std::path::Path::file_stem`. The result is the final component
/// without its extension: the file name as `std::path::Path::file_name`
/// gives it, cut before its last dot unless that dot starts the name.
#[verifier::external_body]
pub(crate) fn file_stem(path: &str) -> (stem: Option<String>)
    ensures
        opt_text(stem) == path_file_stem(path@),
{
    std::path::Path::new(path).file_stem().and_then(|n| n.to_str()).map(|n| n.to_owned())
}

/// Calls `std::path::Path::parent`. The result is the path without its
/// final component; the contract only gives that result its name.
#[verifier::external_body]
pub(crate) fn parent(path: &str) -> (dir: Option<String>)
    ensures
        opt_text(dir) == path_parent(path@),
{
    std::path::Path::new(path).parent().and_then(|n| n.to_str()).map(|n| n.to_owned())
}

/// Calls `std::path::Path::join`. The result is `base` extended by `tail`:
/// an absolute `tail` replaces `base`, and a separator goes between the
/// two unless `base` is empty or ends in one.
#[verifier::external_body]
pub(crate) fn join(base: &str, tail: &str) -> (joined: String)
    ensures
        joined@ == path_join(base@, tail@),
{
    std::path::Path::new(base).join(tail).to_string_lossy().into_owned()
}

} // verus!
