//! Path operations, delegated to `camino`.

use camino::Utf8Path;
use vstd::prelude::*;

verus! {

/// What `Utf8Path::join` builds from a base and an adjoined path.
pub uninterp spec fn joined(base: Seq<char>, path: Seq<char>) -> Seq<char>;

/// What `Utf8Path::strip_prefix` leaves of `path` once `base` is taken off,
/// or `None` where `base` is not a prefix of `path`.
pub uninterp spec fn stripped(path: Seq<char>, base: Seq<char>) -> Option<Seq<char>>;

/// The text of each component that `Utf8Path::components` yields.
pub uninterp spec fn components_of(path: Seq<char>) -> Seq<Seq<char>>;

/// What `Utf8Path::extension` finds in a file name.
pub uninterp spec fn extension_of(name: Seq<char>) -> Option<Seq<char>>;

/// Relies on camino's `Utf8Path::join`: adjoins `path` to `base`.
#[verifier::external_body]
pub(crate) fn join_path(base: &str, path: &str) -> (r: String)
    ensures
        r@ == joined(base@, path@),
{
    Utf8Path::new(base).join(path).into_string()
}

/// Relies on camino's `Utf8Path::strip_prefix`: the part of `path` below `base`.
#[verifier::external_body]
pub(crate) fn strip_base(path: &str, base: &str) -> (r: Option<String>)
    ensures
        match r {
            Some(s) => stripped(path@, base@) == Some(s@),
            None => stripped(path@, base@) is None,
        },
{
    Utf8Path::new(path).strip_prefix(base).ok().map(|p| p.as_str().to_string())
}

/// Relies on camino's `Utf8Path::components`: the path's components, in order.
#[verifier::external_body]
pub(crate) fn path_components(path: &str) -> (r: Vec<String>)
    ensures
        r@.map_values(|s: String| s@) == components_of(path@),
{
    Utf8Path::new(path).components().map(|c| c.as_str().to_string()).collect()
}

/// Relies on camino's `Utf8Path::extension`: the text after the file name's last dot.
#[verifier::external_body]
pub(crate) fn path_extension(name: &str) -> (r: Option<String>)
    ensures
        match r {
            Some(e) => extension_of(name@) == Some(e@),
            None => extension_of(name@) is None,
        },
{
    Utf8Path::new(name).extension().map(|e| e.to_string())
}

} // verus!
