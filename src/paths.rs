use vstd::prelude::*;

use std::path::Path;

verus! {

/// What `Path::join` makes of a directory and a relative name, as text.
pub uninterp spec fn joined_of(dir: Seq<char>, name: Seq<char>) -> Seq<char>;

/// What `Path::strip_prefix` makes of a path and a root, as text: the path
/// relative to the root, or nothing where the root is not a prefix of it.
pub uninterp spec fn stripped_of(path: Seq<char>, root: Seq<char>) -> Option<Seq<char>>;

/// Relies on `Path::join`: the path `name` under `dir`, as text.
#[verifier::external_body]
pub(crate) fn join_path(dir: &str, name: &str) -> (r: String)
    ensures
        r@ == joined_of(dir@, name@),
{
    Path::new(dir).join(name).to_string_lossy().into_owned()
}

/// Relies on `Path::strip_prefix`: the path relative to `root`, or `None`
/// where `root` is not a prefix of it.
#[verifier::external_body]
pub(crate) fn strip_root(path: &str, root: &str) -> (r: Option<String>)
    ensures
        match r {
            Some(s) => stripped_of(path@, root@) == Some(s@),
            None => stripped_of(path@, root@) is None,
        },
{
    match Path::new(path).strip_prefix(root) {
        Ok(rel) => Some(rel.to_string_lossy().into_owned()),
        Err(_) => None,
    }
}

/// A copy or a move of one file to another place.
pub struct Transfer {
    pub source: String,
    pub destination: String,
}

/// Tells whether two texts are the same, character for character.
pub fn same_text(a: &str, b: &str) -> (r: bool)
    ensures
        r == (a@ == b@),
{
    let x = String::from_str(a);
    let y = String::from_str(b);
    x == y
}

} // verus!
