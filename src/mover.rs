use vstd::prelude::*;

use crate::fsmodel::{apply_ops, lemma_apply_push, Files, FsOp};
use crate::paths::{join_path, joined_of, same_text, strip_root, stripped_of, Transfer};

verus! {

/// Why a tree could not be mirrored.
#[derive(Debug, PartialEq, Eq, Structural)]
pub enum MoveError {
    /// A candidate path does not lie under the input root.
    PathFailure,
    /// The input and output roots are the same.
    SameDirectory,
}

/// The paths of a `Transfer`, as text.
pub struct TransferView {
    pub source: Seq<char>,
    pub destination: Seq<char>,
}

impl View for Transfer {
    type V = TransferView;

    open spec fn view(&self) -> TransferView {
        TransferView { source: self.source@, destination: self.destination@ }
    }
}

/// Moving one file: skipped where its destination exists; otherwise the
/// file is copied there and its source deleted.
pub open spec fn move_entry(fs: Files, m: TransferView) -> Files {
    if fs.contains_key(m.destination) {
        fs
    } else {
        fs.insert(m.destination, fs[m.source]).remove(m.source)
    }
}

/// Moving the candidates in order.
pub open spec fn move_run(fs: Files, ms: Seq<TransferView>) -> Files
    decreases ms.len(),
{
    if ms.len() == 0 {
        fs
    } else {
        move_entry(move_run(fs, ms.drop_last()), ms.last())
    }
}

/// No destination is a source.
pub open spec fn destinations_apart(ms: Seq<TransferView>) -> bool {
    forall|j: int, k: int|
        0 <= j < ms.len() && 0 <= k < ms.len() ==> ms[j].destination != ms[k].source
}

/// Where the candidate `file` goes when `input_root` is mirrored into `output_root`.
pub open spec fn mirrored_of(file: Seq<char>, input_root: Seq<char>, output_root: Seq<char>) -> Option<
    Seq<char>,
> {
    match stripped_of(file, input_root) {
        Some(rel) => Some(joined_of(output_root, rel)),
        None => None,
    }
}

proof fn lemma_move_split(fs: Files, a: Seq<TransferView>, b: Seq<TransferView>)
    ensures
        move_run(fs, a + b) == move_run(move_run(fs, a), b),
    decreases b.len(),
{
    if b.len() == 0 {
        assert(a + b =~= a);
    } else {
        lemma_move_split(fs, a, b.drop_last());
        assert((a + b).drop_last() =~= a + b.drop_last());
        assert((a + b).last() == b.last());
    }
}

proof fn lemma_move_destinations_present(fs: Files, ms: Seq<TransferView>)
    requires
        destinations_apart(ms),
    ensures
        forall|j: int| 0 <= j < ms.len() ==> move_run(fs, ms).contains_key(#[trigger] ms[j].destination),
    decreases ms.len(),
{
    if ms.len() > 0 {
        let dl = ms.drop_last();
        assert(destinations_apart(dl)) by {
            assert forall|j: int, k: int| 0 <= j < dl.len() && 0 <= k < dl.len() implies dl[j].destination
                != dl[k].source by {
                assert(dl[j] == ms[j] && dl[k] == ms[k]);
            }
        }
        lemma_move_destinations_present(fs, dl);
        let last = ms[ms.len() - 1];
        assert forall|j: int| 0 <= j < ms.len() implies move_run(fs, ms).contains_key(
            #[trigger] ms[j].destination,
        ) by {
            assert(ms[j].destination != last.source);
            if j < dl.len() {
                assert(dl[j] == ms[j]);
            }
        }
    }
}

proof fn lemma_move_all_present(fs: Files, ms: Seq<TransferView>)
    requires
        forall|j: int| 0 <= j < ms.len() ==> fs.contains_key(#[trigger] ms[j].destination),
    ensures
        move_run(fs, ms) == fs,
    decreases ms.len(),
{
    if ms.len() > 0 {
        let dl = ms.drop_last();
        assert forall|j: int| 0 <= j < dl.len() implies fs.contains_key(#[trigger] dl[j].destination) by {
            assert(dl[j] == ms[j]);
        }
        lemma_move_all_present(fs, dl);
        assert(fs.contains_key(ms[ms.len() - 1].destination));
    }
}

/// A move interrupted after its first `n` candidates and then run again in
/// full ends in the same files as one uninterrupted move; so does going on
/// with the candidates that were left.
pub proof fn lemma_move_resumable(fs: Files, ms: Seq<TransferView>, n: int)
    requires
        destinations_apart(ms),
        0 <= n <= ms.len(),
    ensures
        move_run(move_run(fs, ms.take(n)), ms) == move_run(fs, ms),
        move_run(move_run(fs, ms.take(n)), ms.skip(n)) == move_run(fs, ms),
{
    let a = ms.take(n);
    let b = ms.skip(n);
    assert(ms =~= a + b);
    lemma_move_split(fs, a, b);
    let g = move_run(fs, a);
    assert(destinations_apart(a)) by {
        assert forall|j: int, k: int| 0 <= j < a.len() && 0 <= k < a.len() implies a[j].destination
            != a[k].source by {
            assert(a[j] == ms[j] && a[k] == ms[k]);
        }
    }
    lemma_move_destinations_present(fs, a);
    lemma_move_all_present(g, a);
    lemma_move_split(g, a, b);
}

/// The moves that mirror `files`, found under `input_root`, into
/// `output_root`; no move at all where the roots are the same or a file does
/// not lie under the input root.
pub fn plan_move(input_root: &str, output_root: &str, files: &Vec<String>) -> (r: Result<
    Vec<Transfer>,
    MoveError,
>)
    ensures
        (r == Err::<Vec<Transfer>, MoveError>(MoveError::SameDirectory)) <==> input_root@
            == output_root@,
        (r == Err::<Vec<Transfer>, MoveError>(MoveError::PathFailure)) <==> (input_root@
            != output_root@ && exists|i: int|
            0 <= i < files@.len() && mirrored_of(
                #[trigger] files@[i]@,
                input_root@,
                output_root@,
            ) is None),
        r is Ok ==> r->Ok_0@.len() == files@.len() && forall|i: int|
            0 <= i < files@.len() ==> {
                &&& (#[trigger] r->Ok_0@[i])@.source == files@[i]@
                &&& mirrored_of(files@[i]@, input_root@, output_root@) == Some(
                    r->Ok_0@[i]@.destination,
                )
            },
{
    if same_text(input_root, output_root) {
        return Err(MoveError::SameDirectory);
    }
    let mut r: Vec<Transfer> = Vec::new();
    let mut i: usize = 0;
    while i < files.len()
        invariant
            input_root@ != output_root@,
            i <= files.len(),
            r@.len() == i,
            forall|j: int|
                0 <= j < i ==> {
                    &&& (#[trigger] r@[j])@.source == files@[j]@
                    &&& mirrored_of(files@[j]@, input_root@, output_root@) == Some(
                        r@[j]@.destination,
                    )
                },
        decreases files.len() - i,
    {
        match strip_root(files[i].as_str(), input_root) {
            Some(rel) => {
                let destination = join_path(output_root, rel.as_str());
                r.push(Transfer { source: files[i].clone(), destination });
            },
            None => {
                assert(mirrored_of(files@[i as int]@, input_root@, output_root@) is None);
                return Err(MoveError::PathFailure);
            },
        }
        i = i + 1;
    }
    proof {
        assert forall|i: int| 0 <= i < files@.len() implies mirrored_of(
            #[trigger] files@[i]@,
            input_root@,
            output_root@,
        ) is Some by {
            assert(r@[i]@.source == files@[i]@);
        }
    }
    Ok(r)
}

/// The steps that move one file, given whether its destination exists:
/// performed in order on any files where that answer holds, they do what
/// `move_entry` describes.
pub fn move_ops(m: &Transfer, destination_exists: bool) -> (r: Vec<FsOp>)
    ensures
        forall|fs: Files|
            fs.contains_key(m.destination@) == destination_exists ==> #[trigger] apply_ops(fs, r@)
                == move_entry(fs, m@),
        destination_exists ==> r@.len() == 0,
{
    let mut r: Vec<FsOp> = Vec::new();
    if destination_exists {
        return r;
    }
    r.push(FsOp::MakeParents { path: m.destination.clone() });
    let ghost made = r@;
    r.push(FsOp::Copy { from: m.source.clone(), to: m.destination.clone() });
    let ghost copied = r@;
    r.push(FsOp::Remove { path: m.source.clone() });
    proof {
        assert forall|fs: Files| fs.contains_key(m.destination@) == destination_exists implies #[trigger] apply_ops(
            fs,
            r@,
        ) == move_entry(fs, m@) by {
            lemma_apply_push(fs, copied, r@.last());
            assert(copied.push(r@.last()) == r@);
            lemma_apply_push(fs, made, copied.last());
            assert(made.push(copied.last()) == copied);
            lemma_apply_push(fs, Seq::empty(), made.last());
            assert(Seq::<FsOp>::empty().push(made.last()) == made);
        }
    }
    r
}

} // verus!
