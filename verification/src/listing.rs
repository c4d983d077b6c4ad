//! The command names of QEMU's `help` listings.
use vstd::prelude::*;

use crate::format::{lines_from, range_lines};
use crate::text::{slice_of, split_whitespace, string_from, to_chars, words};

verus! {

/// The pieces of `s` between the characters `c` (`str::split(c)`).
pub open spec fn split_char(s: Seq<char>, c: char) -> Seq<Seq<char>>
    decreases s.len(),
{
    if s.len() == 0 {
        seq![seq![]]
    } else {
        let r = split_char(s.drop_last(), c);
        if s.last() == c {
            r.push(seq![])
        } else {
            r.update(r.len() - 1, r.last().push(s.last()))
        }
    }
}


pub open spec fn non_empty() -> spec_fn(Seq<char>) -> bool {
    |p: Seq<char>| p.len() > 0
}

/// The names a listing line gives: its word number `skip`, each of its
/// `|`-separated aliases on its own.
pub open spec fn line_names(l: Seq<char>, skip: nat) -> Seq<Seq<char>> {
    let ws = words(l);
    if ws.len() > skip {
        split_char(ws[skip as int], '|').filter(non_empty())
    } else {
        seq![]
    }
}

/// The names of the first `n` lines, in order.
pub open spec fn names_upto(ls: Seq<Seq<char>>, n: int, skip: nat) -> Seq<Seq<char>>
    decreases n,
{
    if n <= 0 {
        seq![]
    } else {
        names_upto(ls, n - 1, skip) + line_names(ls[n - 1], skip)
    }
}

/// The command names of a `help` listing.
pub open spec fn spec_listed_names(listing: Seq<char>, skip: nat) -> Seq<Seq<char>> {
    let ls = lines_from(listing, 0);
    names_upto(ls, ls.len() as int, skip)
}

fn split_char_exec(v: &Vec<char>, c: char) -> (r: Vec<Vec<char>>)
    ensures
        r.deep_view() == split_char(v@, c),
{
    let mut parts: Vec<Vec<char>> = Vec::new();
    let mut cur: Vec<char> = Vec::new();
    let mut i: usize = 0;
    assert(v@.take(0) =~= Seq::<char>::empty());
    while i < v.len()
        invariant
            i <= v@.len(),
            parts.deep_view().push(cur@) == split_char(v@.take(i as int), c),
        decreases v@.len() - i,
    {
        let ghost pv = parts.deep_view();
        let ghost cv = cur@;
        proof {
            assert(v@.take(i + 1).drop_last() =~= v@.take(i as int));
            assert(v@.take(i + 1).last() == v@[i as int]);
        }
        if v[i] == c {
            let done = cur;
            assert(done.deep_view() =~= cv);
            parts.push(done);
            cur = Vec::new();
            assert(parts.deep_view() =~= pv.push(cv));
            assert(parts.deep_view().push(cur@) =~= pv.push(cv).push(seq![]));
        } else {
            cur.push(v[i]);
            assert(parts.deep_view().push(cur@) =~= pv.push(cv).update(pv.len() as int, cv.push(v@[i as int])));
        }
        i = i + 1;
    }
    assert(v@.take(v@.len() as int) =~= v@);
    let ghost pv = parts.deep_view();
    assert(cur.deep_view() =~= cur@);
    let ghost cv = cur@;
    parts.push(cur);
    assert(parts.deep_view() =~= pv.push(cv));
    parts
}

fn push_line_names(out: &mut Vec<String>, line: &Vec<char>, skip: usize)
    ensures
        final(out).deep_view() == old(out).deep_view() + line_names(line@, skip as nat),
{
    let ws = split_whitespace(line);
    assert(ws@.map_values(|w: Vec<char>| w@) == words(line@));
    if ws.len() <= skip {
        assert(old(out).deep_view() + Seq::<Seq<char>>::empty() =~= old(out).deep_view());
        return;
    }
    assert(ws@.map_values(|w: Vec<char>| w@)[skip as int] == ws@[skip as int]@);
    let pieces = split_char_exec(&ws[skip], '|');
    let ghost pd = pieces.deep_view();
    let ghost o = out.deep_view();
    let mut k: usize = 0;
    while k < pieces.len()
        invariant
            k <= pieces@.len(),
            pd == pieces.deep_view(),
            out.deep_view() == o + pd.take(k as int).filter(non_empty()),
        decreases pieces@.len() - k,
    {
        proof {
            crate::completer::lemma_filter_step(pd, k as int, non_empty());
        }
        assert(pd[k as int] == pieces@[k as int]@);
        if pieces[k].len() > 0 {
            let ghost before = out.deep_view();
            out.push(string_from(&pieces[k]));
            assert(out.deep_view() =~= before.push(pd[k as int]));
        }
        k = k + 1;
    }
    assert(pd.take(pd.len() as int) =~= pd);
}

/// The command names of QEMU's `help` listing (`skip` 0: each line starts
/// with the names) or of `help info` (`skip` 1: after `info`): word
/// number `skip` of each line, split at `|` into its aliases, empty
/// pieces left out.
pub fn listed_names(listing: &str, skip: usize) -> (r: Vec<String>)
    ensures
        r.deep_view() == spec_listed_names(listing@, skip as nat),
{
    let v = to_chars(listing);
    let rs = crate::format::line_ranges(&v);
    let ghost ls = lines_from(v@, 0);
    let mut out: Vec<String> = Vec::new();
    let mut j: usize = 0;
    while j < rs.len()
        invariant
            j <= rs@.len(),
            ls == lines_from(v@, 0),
            range_lines(v@, rs@) == ls,
            crate::format::ranges_ok(v@, rs@),
            out.deep_view() == names_upto(ls, j as int, skip as nat),
        decreases rs@.len() - j,
    {
        let (a, b) = rs[j];
        assert(rs@[j as int].0 <= rs@[j as int].1 <= v@.len());
        let line = slice_of(&v, a, b);
        assert(line@ == ls[j as int]);
        push_line_names(&mut out, &line, skip);
        j = j + 1;
    }
    out
}

} // verus!
