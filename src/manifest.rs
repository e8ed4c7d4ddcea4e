use vstd::prelude::*;

use crate::text::{chars_of, push_char, string_of};

verus! {

/// The character views of a sequence of strings.
pub open spec fn views_of(v: Seq<String>) -> Seq<Seq<char>> {
    v.map_values(|s: String| s@)
}

/// The entries joined into one text, with a newline between two neighbours.
pub open spec fn join_of(entries: Seq<Seq<char>>) -> Seq<char>
    decreases entries.len(),
{
    if entries.len() == 0 {
        Seq::empty()
    } else if entries.len() == 1 {
        entries[0]
    } else {
        join_of(entries.drop_last()).push('\n') + entries.last()
    }
}

/// The text cut at each newline: the pieces between newlines, the last one
/// included even where it is empty.
pub open spec fn pieces_of(s: Seq<char>) -> Seq<Seq<char>>
    decreases s.len(),
{
    if s.len() == 0 {
        seq![Seq::empty()]
    } else {
        let r = pieces_of(s.drop_last());
        if s.last() == '\n' {
            r.push(Seq::empty())
        } else {
            r.update(r.len() - 1, r.last().push(s.last()))
        }
    }
}

/// A line without one carriage return at its end.
pub open spec fn strip_cr(l: Seq<char>) -> Seq<char> {
    if l.len() > 0 && l.last() == '\r' {
        l.drop_last()
    } else {
        l
    }
}

/// The number of lines of a text: its pieces, less a last one that is empty.
pub open spec fn line_count(s: Seq<char>) -> nat {
    let p = pieces_of(s);
    if p.last().len() == 0 {
        (p.len() - 1) as nat
    } else {
        p.len()
    }
}

/// The lines of a text: each piece that a newline ends loses one carriage
/// return at its end, and an empty last piece is no line.
pub open spec fn lines_of(s: Seq<char>) -> Seq<Seq<char>> {
    let p = pieces_of(s);
    Seq::new(
        line_count(s),
        |i: int|
            if i < p.len() - 1 {
                strip_cr(p[i])
            } else {
                p[i]
            },
    )
}

/// A path that a manifest can hold: not empty, with no newline, not ending
/// in a carriage return.
pub open spec fn is_manifest_path(p: Seq<char>) -> bool {
    &&& p.len() > 0
    &&& !p.contains('\n')
    &&& p.last() != '\r'
}

proof fn lemma_pieces_nonempty(s: Seq<char>)
    ensures
        pieces_of(s).len() >= 1,
    decreases s.len(),
{
    if s.len() > 0 {
        lemma_pieces_nonempty(s.drop_last());
    }
}

proof fn lemma_pieces_append_plain(a: Seq<char>, b: Seq<char>)
    requires
        !b.contains('\n'),
    ensures
        pieces_of(a + b) == pieces_of(a).update(
            pieces_of(a).len() - 1,
            pieces_of(a).last() + b,
        ),
    decreases b.len(),
{
    lemma_pieces_nonempty(a);
    if b.len() == 0 {
        assert(a + b =~= a);
        assert(pieces_of(a).last() + b =~= pieces_of(a).last());
        assert(pieces_of(a).update(pieces_of(a).len() - 1, pieces_of(a).last())
            =~= pieces_of(a));
    } else {
        let bl = b.drop_last();
        assert(!bl.contains('\n')) by {
            if bl.contains('\n') {
                let k = choose|k: int| 0 <= k < bl.len() && bl[k] == '\n';
                assert(b[k] == '\n');
            }
        }
        lemma_pieces_append_plain(a, bl);
        assert((a + b).drop_last() =~= a + bl);
        assert((a + b).last() == b.last());
        assert(b.last() != '\n') by {
            assert(b[b.len() - 1] == b.last());
        }
        assert((pieces_of(a).last() + bl).push(b.last()) =~= pieces_of(a).last() + b);
        assert(pieces_of(a + b) =~= pieces_of(a).update(
            pieces_of(a).len() - 1,
            pieces_of(a).last() + b,
        ));
    }
}

proof fn lemma_pieces_of_join(entries: Seq<Seq<char>>)
    requires
        entries.len() >= 1,
        forall|i: int| 0 <= i < entries.len() ==> !(#[trigger] entries[i]).contains('\n'),
    ensures
        pieces_of(join_of(entries)) == entries,
    decreases entries.len(),
{
    if entries.len() == 1 {
        let e: Seq<char> = Seq::empty();
        lemma_pieces_append_plain(e, entries[0]);
        assert(e + entries[0] =~= entries[0]);
        assert(e + entries[0] =~= entries[0]);
        assert(pieces_of(e) =~= seq![e]);
        assert(seq![e].update(0, e + entries[0]) =~= entries);
    } else {
        let dl = entries.drop_last();
        assert forall|i: int| 0 <= i < dl.len() implies !(#[trigger] dl[i]).contains('\n') by {
            assert(dl[i] == entries[i]);
        }
        lemma_pieces_of_join(dl);
        let a = join_of(dl).push('\n');
        assert(a.drop_last() =~= join_of(dl));
        assert(pieces_of(a) == pieces_of(join_of(dl)).push(Seq::empty()));
        assert(entries.last() == entries[entries.len() - 1]);
        lemma_pieces_append_plain(a, entries.last());
        assert(Seq::<char>::empty() + entries.last() =~= entries.last());
        assert(dl.push(Seq::empty()).update(dl.len() as int, entries.last()) =~= entries);
    }
}

/// A manifest read back holds, at each position, exactly the path written
/// there: the lines of the joined paths are the paths.
pub proof fn lemma_manifest_round_trip(paths: Seq<Seq<char>>)
    requires
        forall|i: int| 0 <= i < paths.len() ==> is_manifest_path(#[trigger] paths[i]),
    ensures
        lines_of(join_of(paths)) == paths,
{
    if paths.len() == 0 {
        assert(pieces_of(join_of(paths)) =~= seq![Seq::<char>::empty()]);
        assert(lines_of(join_of(paths)) =~= paths);
    } else {
        assert forall|i: int| 0 <= i < paths.len() implies !(#[trigger] paths[i]).contains('\n') by {
            assert(is_manifest_path(paths[i]));
        }
        lemma_pieces_of_join(paths);
        let p = pieces_of(join_of(paths));
        assert(p.last() == paths[paths.len() - 1]);
        assert forall|i: int| 0 <= i < paths.len() implies strip_cr(#[trigger] paths[i]) == paths[i] by {
            assert(is_manifest_path(paths[i]));
        }
        assert(lines_of(join_of(paths)) =~= paths);
    }
}

/// The manifest's text: the paths in order, one per line.
pub fn encode_manifest(paths: &Vec<String>) -> (r: String)
    ensures
        r@ == join_of(views_of(paths@)),
{
    let mut s = String::new();
    let mut i: usize = 0;
    while i < paths.len()
        invariant
            i <= paths.len(),
            s@ == join_of(views_of(paths@.take(i as int))),
        decreases paths.len() - i,
    {
        let ghost before = views_of(paths@.take(i as int));
        if i > 0 {
            push_char(&mut s, '\n');
        }
        s.append(paths[i].as_str());
        i = i + 1;
        proof {
            let now = views_of(paths@.take(i as int));
            assert(now.drop_last() =~= before);
            assert(now.last() == paths@[i - 1]@);
            if i == 1 {
                assert(s@ =~= now[0]);
            } else {
                assert(s@ =~= join_of(before).push('\n') + now.last());
            }
        }
    }
    assert(paths@.take(paths.len() as int) =~= paths@);
    s
}

/// The paths that a manifest's text holds: its lines, in order.
pub fn decode_manifest(text: &str) -> (r: Vec<String>)
    ensures
        views_of(r@) == lines_of(text@),
{
    let c = chars_of(text);
    let mut out: Vec<String> = Vec::new();
    let mut cur: Vec<char> = Vec::new();
    let mut i: usize = 0;
    proof {
        assert(c@.take(0) =~= Seq::<char>::empty());
        assert(views_of(out@) =~= Seq::new(0, |j: int| strip_cr(pieces_of(c@.take(0))[j])));
    }
    while i < c.len()
        invariant
            i <= c.len(),
            c@ == text@,
            pieces_of(c@.take(i as int)).len() == out@.len() + 1,
            pieces_of(c@.take(i as int)).last() == cur@,
            views_of(out@) == Seq::new(
                out@.len(),
                |j: int| strip_cr(pieces_of(c@.take(i as int))[j]),
            ),
        decreases c.len() - i,
    {
        let ghost before = pieces_of(c@.take(i as int));
        let ghost out0 = out@;
        proof {
            assert(c@.take(i + 1).drop_last() =~= c@.take(i as int));
            assert(c@.take(i + 1).last() == c@[i as int]);
        }
        if c[i] == '\n' {
            let mut keep: usize = cur.len();
            if keep > 0 && cur[keep - 1] == '\r' {
                keep = keep - 1;
            }
            let mut line: Vec<char> = Vec::new();
            let mut k: usize = 0;
            while k < keep
                invariant
                    keep <= cur.len(),
                    k <= keep,
                    line@ == cur@.take(k as int),
                decreases keep - k,
            {
                line.push(cur[k]);
                k = k + 1;
                assert(line@ =~= cur@.take(k as int));
            }
            proof {
                assert(line@ =~= strip_cr(cur@));
            }
            out.push(string_of(&line));
            cur = Vec::new();
            proof {
                let now = pieces_of(c@.take(i + 1));
                assert(now == before.push(Seq::empty()));
                assert(out@ == out0.push(out@.last()));
                assert forall|j: int| 0 <= j < out@.len() implies views_of(out@)[j] == strip_cr(
                    now[j],
                ) by {
                    if j < out0.len() {
                        assert(out@[j] == out0[j]);
                        assert(views_of(out0)[j] == Seq::new(
                            out0.len(),
                            |j: int| strip_cr(before[j]),
                        )[j]);
                    } else {
                        assert(now[j] == before.last());
                    }
                }
                assert(views_of(out@) =~= Seq::new(out@.len(), |j: int| strip_cr(now[j])));
            }
        } else {
            cur.push(c[i]);
            proof {
                let now = pieces_of(c@.take(i + 1));
                assert(now == before.update(before.len() - 1, before.last().push(c@[i as int])));
                assert(out@ == out0);
                assert forall|j: int| 0 <= j < out@.len() implies views_of(out@)[j] == strip_cr(
                    now[j],
                ) by {
                    assert(views_of(out0)[j] == Seq::new(
                        out0.len(),
                        |j: int| strip_cr(before[j]),
                    )[j]);
                    assert(now[j] == before[j]);
                }
                assert(views_of(out@) =~= Seq::new(out@.len(), |j: int| strip_cr(now[j])));
            }
        }
        i = i + 1;
    }
    proof {
        assert(c@.take(c@.len() as int) =~= c@);
    }
    let ghost done = out@;
    let ghost p = pieces_of(text@);
    if cur.len() > 0 {
        out.push(string_of(&cur));
        proof {
            assert(views_of(out@) =~= views_of(done).push(cur@));
            assert(line_count(text@) == p.len());
        }
    }
    proof {
        assert(views_of(out@) =~= lines_of(text@));
    }
    out
}

} // verus!
