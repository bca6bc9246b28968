//! Where the files that a model names are.
//!
//! What the parent of a path is and how two paths are joined is a matter of the machine that the
//! program runs on: some take `\` for a separator, others for a letter. So the statements here tie a
//! path to what std gives for it, and do not say what its characters are.
use std::path::Path;

use vstd::prelude::*;

verus! {

/// Calls `Path::parent`, which gives a path without its last component, and nothing for the empty
/// path. What the components of a path are depends on the machine, so no more is claimed.
#[verifier::external_body]
fn std_parent(path: &str) -> (parent: Option<String>)
    ensures
        path@.len() == 0 ==> parent is None,
{
    Path::new(path).parent().map(|dir| dir.to_string_lossy().into_owned())
}

/// Calls `Path::join`, which puts a path behind a directory, or in its place where the path is
/// absolute. How this is written depends on the machine, so nothing is claimed of the characters.
#[verifier::external_body]
fn std_join(base: &str, path: &str) -> (place: String) {
    Path::new(base).join(path).to_string_lossy().into_owned()
}

/// Calls a function on a path.
fn call_on_path<F: Fn(&str) -> Option<String>>(f: F, path: &str) -> (result: Option<String>)
    requires
        call_requires(f, (path,)),
    ensures
        call_ensures(f, (path,), result),
{
    f(path)
}

/// Calls a function on two paths.
fn call_on_paths<F: Fn(&str, &str) -> String>(f: F, base: &str, path: &str) -> (result: String)
    requires
        call_requires(f, (base, path)),
    ensures
        call_ensures(f, (base, path), result),
{
    f(base, path)
}

/// An optional string as an optional sequence.
pub open spec fn optional_text(text: Option<String>) -> Option<Seq<char>> {
    match text {
        Some(s) => Some(s@),
        None => None,
    }
}

/// `parent` is what a call of `Path::parent` on `path` gives.
pub closed spec fn is_parent(path: Seq<char>, parent: Option<Seq<char>>) -> bool {
    exists|p: &str, found: Option<String>|
        p@ == path && parent == optional_text(found) && #[trigger] call_ensures(
            std_parent,
            (p,),
            found,
        )
}

/// `place` is what a call of `Path::join` on `base` and `path` gives.
pub closed spec fn is_joined(base: Seq<char>, path: Seq<char>, place: Seq<char>) -> bool {
    exists|b: &str, p: &str, found: String|
        b@ == base && p@ == path && place == found@ && #[trigger] call_ensures(
            std_join,
            (b, p),
            found,
        )
}

/// The directory that paths are relative to, given the parent of the file that names them: the
/// parent, or the current directory.
pub open spec fn base_text(parent: Option<Seq<char>>) -> Seq<char> {
    match parent {
        Some(dir) => dir,
        None => "."@,
    }
}

/// `base` is the directory that the paths in the file at `model_path` are relative to.
pub open spec fn is_base(model_path: Seq<char>, base: Seq<char>) -> bool {
    exists|parent: Option<Seq<char>>|
        #[trigger] is_parent(model_path, parent) && base == base_text(parent)
}

/// What the file at the empty path names is relative to the current directory.
pub proof fn law_empty_path_is_in_the_current_directory(base: Seq<char>)
    requires
        is_base(Seq::empty(), base),
    ensures
        base == "."@,
{
}

/// The parent of a path.
pub fn parent(path: &str) -> (parent: Option<String>)
    ensures
        is_parent(path@, optional_text(parent)),
{
    call_on_path(std_parent, path)
}

/// The directory that paths are relative to, given the parent of the file that names them.
pub fn base_from(parent: Option<String>) -> (base: String)
    ensures
        base@ == base_text(optional_text(parent)),
{
    match parent {
        Some(dir) => dir,
        None => ".".to_owned(),
    }
}

/// The directory that the paths in the file at `model_path` are relative to.
pub fn base_dir(model_path: &str) -> (base: String)
    ensures
        is_base(model_path@, base@),
{
    base_from(parent(model_path))
}

/// Where a path that is relative to `base` leads.
pub fn joined(base: &str, path: &str) -> (place: String)
    ensures
        is_joined(base@, path@, place@),
{
    call_on_paths(std_join, base, path)
}

}
