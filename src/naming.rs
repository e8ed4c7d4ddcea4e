use vstd::prelude::*;

use crate::text::{chars_of, ends_with, has_suffix, push_char, string_of};

verus! {

/// The ASCII digit that stands for `d`, for `d < 10`.
pub open spec fn digit_char(d: nat) -> char {
    ((48 + d) as u8) as char
}

/// The decimal notation of `n`, most significant digit first, with no leading zero.
pub open spec fn decimal_of(n: nat) -> Seq<char>
    decreases n,
{
    if n < 10 {
        seq![digit_char(n)]
    } else {
        decimal_of(n / 10).push(digit_char(n % 10))
    }
}

/// `.` followed by the extension.
pub open spec fn dotted(ext: Seq<char>) -> Seq<char> {
    seq!['.'] + ext
}

/// The name of the staged artifact at position `i` with extension `ext`: `{i}.{ext}`.
pub open spec fn staged_name_of(i: nat, ext: Seq<char>) -> Seq<char> {
    decimal_of(i) + dotted(ext)
}

/// `path` with a trailing `.{from}` replaced by `.{to}`; unchanged where it has no such ending.
pub open spec fn swapped_of(path: Seq<char>, from: Seq<char>, to: Seq<char>) -> Seq<char> {
    if has_suffix(path, dotted(from)) {
        path.subrange(0, path.len() - dotted(from).len()) + dotted(to)
    } else {
        path
    }
}

proof fn lemma_decimal_len(n: nat)
    ensures
        decimal_of(n).len() >= 1,
        decimal_of(n).len() == 1 <==> n < 10,
    decreases n,
{
    if n >= 10 {
        lemma_decimal_len(n / 10);
    }
}

/// Two numbers with the same decimal notation are equal.
pub proof fn lemma_decimal_injective(a: nat, b: nat)
    requires
        decimal_of(a) == decimal_of(b),
    ensures
        a == b,
    decreases a,
{
    lemma_decimal_len(a);
    lemma_decimal_len(b);
    if a >= 10 && b >= 10 {
        let da = decimal_of(a);
        assert(decimal_of(a / 10) == da.drop_last());
        assert(decimal_of(b / 10) == decimal_of(b).drop_last());
        assert(digit_char(a % 10) == da.last());
        assert(digit_char(b % 10) == decimal_of(b).last());
        assert(digit_char(a % 10) as u32 == 48 + a % 10);
        assert(digit_char(b % 10) as u32 == 48 + b % 10);
        assert(a % 10 == b % 10);
        lemma_decimal_injective(a / 10, b / 10);
        assert(a / 10 == b / 10);
        assert(a == 10 * (a / 10) + a % 10) by (nonlinear_arith);
        assert(b == 10 * (b / 10) + b % 10) by (nonlinear_arith);
    } else {
        assert(a < 10 && b < 10);
        assert(decimal_of(a)[0] == digit_char(a));
        assert(decimal_of(b)[0] == digit_char(b));
        assert(digit_char(a) as u32 == 48 + a);
        assert(digit_char(b) as u32 == 48 + b);
        assert(a == b);
    }
}

/// Staged names correspond one to one with positions: two positions give the
/// same name under one extension only when they are the same position.
pub proof fn lemma_staged_name_injective(i: nat, j: nat, ext: Seq<char>)
    requires
        staged_name_of(i, ext) == staged_name_of(j, ext),
    ensures
        i == j,
{
    let a = staged_name_of(i, ext);
    let la = decimal_of(i).len();
    assert(decimal_of(j).len() == la) by {
        assert(a.len() == la + 1 + ext.len());
    }
    assert(decimal_of(i) =~= a.subrange(0, la as int));
    assert(decimal_of(j) =~= staged_name_of(j, ext).subrange(0, la as int));
    lemma_decimal_injective(i, j);
}

/// The decimal notation of `n`.
pub fn decimal(n: usize) -> (r: String)
    ensures
        r@ == decimal_of(n as nat),
    decreases n,
{
    if n < 10 {
        let mut s = String::new();
        push_char(&mut s, ((48 + n) as u8) as char);
        s
    } else {
        let mut s = decimal(n / 10);
        push_char(&mut s, ((48 + n % 10) as u8) as char);
        s
    }
}

/// The name under which the file at position `i` is staged: `{i}.{ext}`.
pub fn staged_name(i: usize, ext: &str) -> (r: String)
    ensures
        r@ == staged_name_of(i as nat, ext@),
{
    let mut s = decimal(i);
    push_char(&mut s, '.');
    s.append(ext);
    assert(s@ =~= staged_name_of(i as nat, ext@));
    s
}

/// `.{ext}` as characters.
pub fn dotted_chars(ext: &str) -> (r: Vec<char>)
    ensures
        r@ == dotted(ext@),
{
    let mut v: Vec<char> = Vec::new();
    v.push('.');
    let mut e = chars_of(ext);
    v.append(&mut e);
    assert(v@ =~= dotted(ext@));
    v
}

/// Where a converted file goes back to: `path` with its trailing `.{from}`
/// replaced by `.{to}`, or `path` itself where it does not end that way.
pub fn swap_extension(path: &str, from: &str, to: &str) -> (r: String)
    ensures
        r@ == swapped_of(path@, from@, to@),
{
    let p = chars_of(path);
    let suf = dotted_chars(from);
    if ends_with(&p, &suf) {
        let keep: usize = p.len() - suf.len();
        let mut out: Vec<char> = Vec::new();
        let mut i: usize = 0;
        while i < keep
            invariant
                keep <= p.len(),
                i <= keep,
                out@ == p@.take(i as int),
            decreases keep - i,
        {
            out.push(p[i]);
            i = i + 1;
            assert(out@ =~= p@.take(i as int));
        }
        let mut tail = dotted_chars(to);
        out.append(&mut tail);
        assert(out@ =~= swapped_of(path@, from@, to@));
        string_of(&out)
    } else {
        string_of(&p)
    }
}

} // verus!
