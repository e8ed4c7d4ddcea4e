use vstd::prelude::*;

use crate::manifest::views_of;
use crate::naming::{dotted, dotted_chars};
use crate::text::{chars_of, ends_with, has_suffix, lower_of, lowercase};

verus! {

/// The files found under a root: their paths in traversal order, and the sum
/// of their sizes.
pub struct SearchInfo {
    pub file_names: Vec<String>,
    pub total_size: u64,
}

/// A lower-cased path ends with `.` and the lower-cased extension.
pub open spec fn folded_match(lowered_path: Seq<char>, lowered_ext: Seq<char>) -> bool {
    has_suffix(lowered_path, dotted(lowered_ext))
}

/// A path has the extension, compared without regard to case.
pub open spec fn ext_match(path: Seq<char>, ext: Seq<char>) -> bool {
    folded_match(lower_of(path), lower_of(ext))
}

/// The paths that have the extension, in their order.
pub open spec fn selected_of(paths: Seq<Seq<char>>, ext: Seq<char>) -> Seq<Seq<char>>
    decreases paths.len(),
{
    if paths.len() == 0 {
        Seq::empty()
    } else if ext_match(paths.last(), ext) {
        selected_of(paths.drop_last(), ext).push(paths.last())
    } else {
        selected_of(paths.drop_last(), ext)
    }
}

/// The sum of the sizes that could be read; one that could not counts 0.
pub open spec fn size_sum(sizes: Seq<Option<u64>>) -> nat
    decreases sizes.len(),
{
    if sizes.len() == 0 {
        0
    } else {
        size_sum(sizes.drop_last()) + match sizes.last() {
            Some(n) => n as nat,
            None => 0,
        }
    }
}

/// Tells whether an already lower-cased path ends with `.` and an already
/// lower-cased extension.
pub fn has_ext_folded(lowered_path: &str, lowered_ext: &str) -> (r: bool)
    ensures
        r == folded_match(lowered_path@, lowered_ext@),
{
    let p = chars_of(lowered_path);
    let suf = dotted_chars(lowered_ext);
    ends_with(&p, &suf)
}

/// Tells whether `path` has the extension `ext`, without regard to case.
pub fn has_ext(path: &str, ext: &str) -> (r: bool)
    ensures
        r == ext_match(path@, ext@),
{
    let lp = lowercase(path);
    let le = lowercase(ext);
    has_ext_folded(lp.as_str(), le.as_str())
}

/// The paths among those traversed that have the extension, in traversal order.
pub fn select_matches(paths: &Vec<String>, ext: &str) -> (r: Vec<String>)
    ensures
        views_of(r@) == selected_of(views_of(paths@), ext@),
{
    let mut r: Vec<String> = Vec::new();
    let mut i: usize = 0;
    while i < paths.len()
        invariant
            i <= paths.len(),
            views_of(r@) == selected_of(views_of(paths@.take(i as int)), ext@),
        decreases paths.len() - i,
    {
        let ghost before = r@;
        let ghost now = views_of(paths@.take(i + 1));
        proof {
            assert(now.drop_last() =~= views_of(paths@.take(i as int)));
            assert(now.last() == paths@[i as int]@);
        }
        if has_ext(paths[i].as_str(), ext) {
            r.push(paths[i].clone());
            proof {
                assert(views_of(r@) =~= views_of(before).push(paths@[i as int]@));
            }
        }
        i = i + 1;
    }
    assert(paths@.take(paths@.len() as int) =~= paths@);
    r
}

/// The total size of the found files, held at the largest `u64` where the
/// sum would not fit.
pub fn total_size(sizes: &Vec<Option<u64>>) -> (r: u64)
    ensures
        r as nat == if size_sum(sizes@) <= u64::MAX {
            size_sum(sizes@)
        } else {
            u64::MAX as nat
        },
{
    let mut acc: u64 = 0;
    let mut i: usize = 0;
    while i < sizes.len()
        invariant
            i <= sizes.len(),
            acc as nat == if size_sum(sizes@.take(i as int)) <= u64::MAX {
                size_sum(sizes@.take(i as int))
            } else {
                u64::MAX as nat
            },
        decreases sizes.len() - i,
    {
        proof {
            assert(sizes@.take(i + 1).drop_last() =~= sizes@.take(i as int));
            assert(sizes@.take(i + 1).last() == sizes@[i as int]);
        }
        match sizes[i] {
            Some(n) => {
                acc = acc.saturating_add(n);
            },
            None => {},
        }
        i = i + 1;
    }
    assert(sizes@.take(sizes@.len() as int) =~= sizes@);
    acc
}

} // verus!
