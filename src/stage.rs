use vstd::prelude::*;

use crate::manifest::{encode_manifest, join_of, views_of};
use crate::naming::{staged_name, staged_name_of};
use crate::paths::{join_path, joined_of, Transfer};

verus! {

/// The file, under the base directory, that holds the manifest.
pub const MANIFEST_FILE_NAME: &'static str = "scraped_file.txt";

/// The directory, under the base directory, that holds the staged artifacts.
pub const SCRATCH_DIR_NAME: &'static str = "to_convert";

/// What staging a list of files writes: the manifest's new text, which
/// replaces the old one whole, and one copy per file into the scratch
/// directory under the name of its position.
pub struct StagePlan {
    pub manifest: String,
    pub copies: Vec<Transfer>,
}

/// Where the file at position `i` is staged under `scratch` with extension `ext`.
pub open spec fn staged_path_of(scratch: Seq<char>, i: nat, ext: Seq<char>) -> Seq<char> {
    joined_of(scratch, staged_name_of(i, ext))
}

/// The manifest and the copies that stage `files` into `scratch` under `in_ext`.
pub fn stage_plan(scratch: &str, files: &Vec<String>, in_ext: &str) -> (r: StagePlan)
    ensures
        r.manifest@ == join_of(views_of(files@)),
        r.copies@.len() == files@.len(),
        forall|i: int|
            0 <= i < files@.len() ==> {
                &&& (#[trigger] r.copies@[i]).source@ == files@[i]@
                &&& r.copies@[i].destination@ == staged_path_of(scratch@, i as nat, in_ext@)
            },
{
    let manifest = encode_manifest(files);
    let mut copies: Vec<Transfer> = Vec::new();
    let mut i: usize = 0;
    while i < files.len()
        invariant
            i <= files.len(),
            copies@.len() == i,
            forall|j: int|
                0 <= j < i ==> {
                    &&& (#[trigger] copies@[j]).source@ == files@[j]@
                    &&& copies@[j].destination@ == staged_path_of(scratch@, j as nat, in_ext@)
                },
        decreases files.len() - i,
    {
        let destination = join_path(scratch, staged_name(i, in_ext).as_str());
        copies.push(Transfer { source: files[i].clone(), destination });
        i = i + 1;
    }
    StagePlan { manifest, copies }
}

/// The session's fixed places under one base directory.
pub struct Session {
    pub base: String,
}

impl Session {
    /// Where the manifest is kept.
    pub fn manifest_path(&self) -> (r: String)
        ensures
            r@ == joined_of(self.base@, MANIFEST_FILE_NAME@),
    {
        join_path(self.base.as_str(), MANIFEST_FILE_NAME)
    }

    /// Where the staged artifacts are kept.
    pub fn scratch_dir(&self) -> (r: String)
        ensures
            r@ == joined_of(self.base@, SCRATCH_DIR_NAME@),
    {
        join_path(self.base.as_str(), SCRATCH_DIR_NAME)
    }
}

} // verus!
