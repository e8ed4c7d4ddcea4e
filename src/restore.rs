use vstd::prelude::*;

use crate::fsmodel::{apply_ops, lemma_apply_push, Files, FsOp};
use crate::manifest::{is_manifest_path, join_of, lemma_manifest_round_trip, lines_of};
use crate::naming::{staged_name, staged_name_of, swap_extension, swapped_of};
use crate::stage::staged_path_of;
use crate::paths::{join_path, joined_of};

verus! {

/// The three paths that restoring one manifest entry deals with.
pub struct RestoreTargets {
    /// The staged artifact under the output extension.
    pub converted: String,
    /// The staged artifact under the input extension.
    pub leftover: String,
    /// Where the converted file goes: the original path with its extension swapped.
    pub destination: String,
}

/// The paths of `RestoreTargets`, as text.
pub struct TargetsView {
    pub converted: Seq<char>,
    pub leftover: Seq<char>,
    pub destination: Seq<char>,
}

impl View for RestoreTargets {
    type V = TargetsView;

    open spec fn view(&self) -> TargetsView {
        TargetsView {
            converted: self.converted@,
            leftover: self.leftover@,
            destination: self.destination@,
        }
    }
}

/// Restoring one entry: where the converted artifact exists, it is copied to
/// the destination unless a file is there already, then it is deleted, and so
/// is the leftover input artifact; where it does not exist, nothing changes.
pub open spec fn restore_entry(fs: Files, t: TargetsView) -> Files {
    if !fs.contains_key(t.converted) {
        fs
    } else {
        let placed = if fs.contains_key(t.destination) {
            fs
        } else {
            fs.insert(t.destination, fs[t.converted])
        };
        placed.remove(t.converted).remove(t.leftover)
    }
}

/// Restoring the entries in manifest order.
pub open spec fn restore_run(fs: Files, ts: Seq<TargetsView>) -> Files
    decreases ts.len(),
{
    if ts.len() == 0 {
        fs
    } else {
        restore_entry(restore_run(fs, ts.drop_last()), ts.last())
    }
}

/// No destination is one of the staged artifacts.
pub open spec fn destinations_outside_scratch(ts: Seq<TargetsView>) -> bool {
    forall|j: int, k: int|
        0 <= j < ts.len() && 0 <= k < ts.len() ==> ts[j].destination != ts[k].converted
            && ts[j].destination != ts[k].leftover
}

/// The entries' paths are kept apart: destinations are not staged artifacts,
/// and two entries share no path.
pub open spec fn well_separated(ts: Seq<TargetsView>) -> bool {
    &&& destinations_outside_scratch(ts)
    &&& forall|j: int, k: int|
        0 <= j < ts.len() && 0 <= k < ts.len() && j != k ==> {
            &&& ts[j].converted != ts[k].converted
            &&& ts[j].converted != ts[k].leftover
            &&& ts[j].leftover != ts[k].leftover
            &&& ts[j].destination != ts[k].destination
        }
}

proof fn lemma_run_split(fs: Files, a: Seq<TargetsView>, b: Seq<TargetsView>)
    ensures
        restore_run(fs, a + b) == restore_run(restore_run(fs, a), b),
    decreases b.len(),
{
    if b.len() == 0 {
        assert(a + b =~= a);
    } else {
        lemma_run_split(fs, a, b.drop_last());
        assert((a + b).drop_last() =~= a + b.drop_last());
        assert((a + b).last() == b.last());
    }
}

/// A path that is no entry's artifact and is present, or is no entry's
/// destination, keeps what it holds.
proof fn lemma_run_frame(fs: Files, ts: Seq<TargetsView>, p: Seq<char>)
    requires
        forall|j: int| 0 <= j < ts.len() ==> p != (#[trigger] ts[j]).converted && p != ts[j].leftover,
        fs.contains_key(p) || forall|j: int| 0 <= j < ts.len() ==> p != (#[trigger] ts[j]).destination,
    ensures
        restore_run(fs, ts).contains_key(p) == fs.contains_key(p),
        fs.contains_key(p) ==> restore_run(fs, ts)[p] == fs[p],
    decreases ts.len(),
{
    if ts.len() > 0 {
        let dl = ts.drop_last();
        assert forall|j: int| 0 <= j < dl.len() implies p != (#[trigger] dl[j]).converted && p != dl[j].leftover by {
            assert(dl[j] == ts[j]);
        }
        if !fs.contains_key(p) {
            assert forall|j: int| 0 <= j < dl.len() implies p != (#[trigger] dl[j]).destination by {
                assert(dl[j] == ts[j]);
            }
            assert(p != ts[ts.len() - 1].destination);
        }
        lemma_run_frame(fs, dl, p);
        assert(p != ts[ts.len() - 1].converted && p != ts[ts.len() - 1].leftover);
    }
}

/// Once every converted artifact is gone, restoring changes nothing.
proof fn lemma_run_nothing_converted(fs: Files, ts: Seq<TargetsView>)
    requires
        forall|k: int| 0 <= k < ts.len() ==> !fs.contains_key(#[trigger] ts[k].converted),
    ensures
        restore_run(fs, ts) == fs,
    decreases ts.len(),
{
    if ts.len() > 0 {
        let dl = ts.drop_last();
        assert forall|k: int| 0 <= k < dl.len() implies !fs.contains_key(#[trigger] dl[k].converted) by {
            assert(dl[k] == ts[k]);
        }
        lemma_run_nothing_converted(fs, dl);
        assert(!fs.contains_key(ts[ts.len() - 1].converted));
    }
}

/// After a restore no converted artifact of the manifest is left.
pub proof fn lemma_restore_clears_converted(fs: Files, ts: Seq<TargetsView>)
    requires
        destinations_outside_scratch(ts),
    ensures
        forall|k: int| 0 <= k < ts.len() ==> !restore_run(fs, ts).contains_key(#[trigger] ts[k].converted),
    decreases ts.len(),
{
    if ts.len() > 0 {
        let dl = ts.drop_last();
        let last = ts[ts.len() - 1];
        assert(destinations_outside_scratch(dl)) by {
            assert forall|j: int, k: int| 0 <= j < dl.len() && 0 <= k < dl.len() implies dl[j].destination
                != dl[k].converted && dl[j].destination != dl[k].leftover by {
                assert(dl[j] == ts[j] && dl[k] == ts[k]);
            }
        }
        lemma_restore_clears_converted(fs, dl);
        let mid = restore_run(fs, dl);
        assert forall|k: int| 0 <= k < ts.len() implies !restore_run(fs, ts).contains_key(
            #[trigger] ts[k].converted,
        ) by {
            assert(last.destination != ts[k].converted);
            if k < dl.len() {
                assert(dl[k] == ts[k]);
                assert(!mid.contains_key(ts[k].converted));
            }
        }
    }
}

/// A file that exists before a restore, and that is no staged artifact of
/// the manifest, is neither overwritten nor deleted; and no converted
/// artifact is left afterwards.
pub proof fn lemma_restore_no_overwrite(fs: Files, ts: Seq<TargetsView>, p: Seq<char>)
    requires
        destinations_outside_scratch(ts),
        fs.contains_key(p),
        forall|j: int| 0 <= j < ts.len() ==> p != (#[trigger] ts[j]).converted && p != ts[j].leftover,
    ensures
        restore_run(fs, ts).contains_key(p),
        restore_run(fs, ts)[p] == fs[p],
        forall|k: int| 0 <= k < ts.len() ==> !restore_run(fs, ts).contains_key(#[trigger] ts[k].converted),
{
    lemma_run_frame(fs, ts, p);
    lemma_restore_clears_converted(fs, ts);
}

/// Restoring twice in a row leaves the files as restoring once does.
pub proof fn lemma_restore_idempotent(fs: Files, ts: Seq<TargetsView>)
    requires
        destinations_outside_scratch(ts),
    ensures
        restore_run(restore_run(fs, ts), ts) == restore_run(fs, ts),
{
    lemma_restore_clears_converted(fs, ts);
    lemma_run_nothing_converted(restore_run(fs, ts), ts);
}

/// Staging, converting and restoring puts each converted file at its
/// destination with the converted content, where no file was there before,
/// and removes both of its staged artifacts; an entry whose converted artifact
/// never appeared keeps its leftover input artifact untouched.
pub proof fn lemma_restore_round_trip(fs: Files, ts: Seq<TargetsView>, k: int)
    requires
        well_separated(ts),
        0 <= k < ts.len(),
    ensures
        fs.contains_key(ts[k].converted) && !fs.contains_key(ts[k].destination) ==> {
            &&& restore_run(fs, ts).contains_key(ts[k].destination)
            &&& restore_run(fs, ts)[ts[k].destination] == fs[ts[k].converted]
            &&& !restore_run(fs, ts).contains_key(ts[k].converted)
            &&& !restore_run(fs, ts).contains_key(ts[k].leftover)
        },
        !fs.contains_key(ts[k].converted) ==> {
            &&& restore_run(fs, ts).contains_key(ts[k].leftover) == fs.contains_key(ts[k].leftover)
            &&& fs.contains_key(ts[k].leftover) ==> restore_run(fs, ts)[ts[k].leftover]
                == fs[ts[k].leftover]
        },
{
    let t = ts[k];
    let pre = ts.take(k);
    let post = ts.skip(k + 1);
    assert(ts =~= pre + seq![t] + post);
    lemma_run_split(fs, pre + seq![t], post);
    lemma_run_split(fs, pre, seq![t]);
    assert(seq![t].drop_last() =~= Seq::<TargetsView>::empty());
    let a = restore_run(fs, pre);
    let b = restore_entry(a, t);
    assert(seq![t].last() == t);
    assert(restore_run(a, seq![t].drop_last()) == a);
    assert(restore_run(a, seq![t]) == b);
    assert(restore_run(fs, pre + seq![t]) == b);
    // what the entries other than `k` touch
    assert forall|j: int| 0 <= j < pre.len() implies (#[trigger] pre[j]) == ts[j] by {}
    assert forall|j: int| 0 <= j < post.len() implies (#[trigger] post[j]) == ts[k + 1 + j] by {}
    assert(forall|j: int|
        0 <= j < pre.len() ==> t.converted != (#[trigger] pre[j]).converted && t.converted
            != pre[j].leftover && t.converted != pre[j].destination);
    assert(forall|j: int|
        0 <= j < pre.len() ==> t.leftover != (#[trigger] pre[j]).converted && t.leftover
            != pre[j].leftover && t.leftover != pre[j].destination);
    assert(forall|j: int|
        0 <= j < pre.len() ==> t.destination != (#[trigger] pre[j]).converted && t.destination
            != pre[j].leftover && t.destination != pre[j].destination);
    assert(forall|j: int|
        0 <= j < post.len() ==> t.leftover != (#[trigger] post[j]).converted && t.leftover
            != post[j].leftover && t.leftover != post[j].destination);
    assert(forall|j: int|
        0 <= j < post.len() ==> t.converted != (#[trigger] post[j]).converted && t.converted
            != post[j].leftover && t.converted != post[j].destination);
    assert(forall|j: int|
        0 <= j < post.len() ==> t.destination != (#[trigger] post[j]).converted
            && t.destination != post[j].leftover);
    lemma_run_frame(fs, pre, t.converted);
    lemma_run_frame(fs, pre, t.leftover);
    lemma_run_frame(b, post, t.leftover);
    lemma_run_frame(b, post, t.converted);
    if fs.contains_key(t.converted) && !fs.contains_key(t.destination) {
        lemma_run_frame(fs, pre, t.destination);
        lemma_run_frame(b, post, t.destination);
    }
}

/// The paths for restoring the entry at position `i` whose original path is
/// `original`, with staged artifacts under `scratch`.
pub open spec fn targets_of(
    scratch: Seq<char>,
    i: nat,
    original: Seq<char>,
    in_ext: Seq<char>,
    out_ext: Seq<char>,
) -> TargetsView {
    TargetsView {
        converted: joined_of(scratch, staged_name_of(i, out_ext)),
        leftover: joined_of(scratch, staged_name_of(i, in_ext)),
        destination: swapped_of(original, in_ext, out_ext),
    }
}

/// The paths for restoring each manifest entry, in manifest order.
pub fn restore_targets(scratch: &str, entries: &Vec<String>, in_ext: &str, out_ext: &str) -> (r:
    Vec<RestoreTargets>)
    ensures
        r@.len() == entries@.len(),
        forall|i: int|
            0 <= i < r@.len() ==> (#[trigger] r@[i])@ == targets_of(
                scratch@,
                i as nat,
                entries@[i]@,
                in_ext@,
                out_ext@,
            ),
{
    let mut r: Vec<RestoreTargets> = Vec::new();
    let mut i: usize = 0;
    while i < entries.len()
        invariant
            i <= entries.len(),
            r@.len() == i,
            forall|j: int|
                0 <= j < i ==> (#[trigger] r@[j])@ == targets_of(
                    scratch@,
                    j as nat,
                    entries@[j]@,
                    in_ext@,
                    out_ext@,
                ),
        decreases entries.len() - i,
    {
        let converted = join_path(scratch, staged_name(i, out_ext).as_str());
        let leftover = join_path(scratch, staged_name(i, in_ext).as_str());
        let destination = swap_extension(entries[i].as_str(), in_ext, out_ext);
        r.push(RestoreTargets { converted, leftover, destination });
        i = i + 1;
    }
    r
}

/// The steps that restore one entry, given whether its converted artifact
/// and its destination exist: performed in order on any files where those
/// two answers hold, they do what `restore_entry` describes.
pub fn restore_ops(t: &RestoreTargets, converted_exists: bool, destination_exists: bool) -> (r: Vec<
    FsOp,
>)
    ensures
        forall|fs: Files|
            fs.contains_key(t.converted@) == converted_exists && fs.contains_key(
                t.destination@,
            ) == destination_exists ==> #[trigger] apply_ops(fs, r@) == restore_entry(fs, t@),
        !converted_exists ==> r@.len() == 0,
{
    let mut r: Vec<FsOp> = Vec::new();
    if !converted_exists {
        return r;
    }
    if !destination_exists {
        r.push(FsOp::Copy { from: t.converted.clone(), to: t.destination.clone() });
    }
    let ghost placed = r@;
    r.push(FsOp::Remove { path: t.converted.clone() });
    let ghost removed = r@;
    r.push(FsOp::RemoveIfPresent { path: t.leftover.clone() });
    proof {
        assert forall|fs: Files|
            fs.contains_key(t.converted@) == converted_exists && fs.contains_key(t.destination@)
                == destination_exists implies #[trigger] apply_ops(fs, r@) == restore_entry(
            fs,
            t@,
        ) by {
            lemma_apply_push(fs, removed, r@.last());
            assert(removed.push(r@.last()) == r@);
            lemma_apply_push(fs, placed, removed.last());
            assert(placed.push(removed.last()) == removed);
            if !destination_exists {
                lemma_apply_push(fs, Seq::empty(), placed.last());
                assert(Seq::<FsOp>::empty().push(placed.last()) == placed);
            } else {
                assert(placed =~= Seq::<FsOp>::empty());
            }
        }
    }
    r
}

/// A manifest written by staging `files` and read back gives, at each
/// position, the original path written there, whose leftover artifact is the
/// very copy that staging made of it and whose destination is that path with
/// its extension swapped.
pub proof fn lemma_restore_meets_staging(
    files: Seq<Seq<char>>,
    scratch: Seq<char>,
    in_ext: Seq<char>,
    out_ext: Seq<char>,
    i: int,
)
    requires
        forall|j: int| 0 <= j < files.len() ==> is_manifest_path(#[trigger] files[j]),
        0 <= i < files.len(),
    ensures
        lines_of(join_of(files)).len() == files.len(),
        lines_of(join_of(files))[i] == files[i],
        targets_of(scratch, i as nat, lines_of(join_of(files))[i], in_ext, out_ext).leftover
            == staged_path_of(scratch, i as nat, in_ext),
        targets_of(scratch, i as nat, lines_of(join_of(files))[i], in_ext, out_ext).destination
            == swapped_of(files[i], in_ext, out_ext),
{
    lemma_manifest_round_trip(files);
}

} // verus!
