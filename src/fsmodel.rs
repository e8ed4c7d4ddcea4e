use vstd::prelude::*;

verus! {

/// The files of a file system: each path that holds a file, with its content.
pub type Files = Map<Seq<char>, Seq<u8>>;

/// One step that the caller performs on the file system.
pub enum FsOp {
    /// Create every missing directory above `path`.
    MakeParents { path: String },
    /// Copy the file at `from` to `to`.
    Copy { from: String, to: String },
    /// Delete the file at `path`, which exists.
    Remove { path: String },
    /// Delete the file at `path` where there is one.
    RemoveIfPresent { path: String },
}

/// What one step does to the files. Directories hold no content and are not
/// part of the model.
pub open spec fn apply_op(fs: Files, op: FsOp) -> Files {
    match op {
        FsOp::MakeParents { .. } => fs,
        FsOp::Copy { from, to } => fs.insert(to@, fs[from@]),
        FsOp::Remove { path } => fs.remove(path@),
        FsOp::RemoveIfPresent { path } => fs.remove(path@),
    }
}

/// What a sequence of steps, performed in order, does to the files.
pub open spec fn apply_ops(fs: Files, ops: Seq<FsOp>) -> Files
    decreases ops.len(),
{
    if ops.len() == 0 {
        fs
    } else {
        apply_op(apply_ops(fs, ops.drop_last()), ops.last())
    }
}

/// Performing one more step after a sequence of steps.
pub proof fn lemma_apply_push(fs: Files, ops: Seq<FsOp>, op: FsOp)
    ensures
        apply_ops(fs, ops.push(op)) == apply_op(apply_ops(fs, ops), op),
{
    assert(ops.push(op).drop_last() =~= ops);
}

} // verus!
