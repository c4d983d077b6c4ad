//! Completion of file names: which directory to list for a prefix, and
//! which of its entries are offered.
use vstd::prelude::*;

use crate::hmp_completer::{chars_lt, str_lt};
use crate::qom_completion::trim_end_char;
use crate::text::{
    has_char, is_prefix, lemma_rfind, push_char, push_str, rfind, rfind_char, slice_of,
    starts_with, string_from, tail, to_chars,
};

verus! {

/// The directory to list and the file-name prefix for a partial path.
pub open spec fn split_prefix(prefix: Seq<char>) -> (Seq<char>, Seq<char>) {
    let (d, f) = if prefix.len() == 0 {
        ("."@, seq![])
    } else if prefix.last() == '/' {
        (trim_end_char(prefix, '/'), seq![])
    } else {
        match rfind(prefix, '/') {
            Some(i) => (prefix.take(i), prefix.skip(i + 1)),
            None => ("."@, prefix),
        }
    };
    (if d.len() == 0 {
        "/"@
    } else {
        d
    }, f)
}

/// The path shown for an entry of the listed directory.
pub open spec fn entry_path(prefix: Seq<char>, dir: Seq<char>, name: Seq<char>, is_dir: bool) -> Seq<char> {
    let full = if dir == "."@ && !prefix.contains('/') {
        name
    } else if dir == "/"@ {
        "/"@ + name
    } else {
        dir + "/"@ + name
    };
    if is_dir {
        full + "/"@
    } else {
        full
    }
}

/// An entry is offered when it starts with the file prefix, and when it
/// is hidden only if the prefix starts with a dot.
pub open spec fn entry_wanted(prefix: Seq<char>) -> spec_fn((Seq<char>, bool)) -> bool {
    |e: (Seq<char>, bool)| {
        let f = split_prefix(prefix).1;
        let show_hidden = f.len() > 0 && f[0] == '.';
        !(e.0.len() > 0 && e.0[0] == '.' && !show_hidden) && is_prefix(f, e.0)
    }
}

pub open spec fn entry_item(prefix: Seq<char>) -> spec_fn((Seq<char>, bool)) -> (Seq<char>, bool) {
    |e: (Seq<char>, bool)| (entry_path(prefix, split_prefix(prefix).0, e.0, e.1), e.1)
}

/// Where a stable insertion puts `x`: after the last item whose path
/// does not sort after its own.
pub open spec fn insert_pos(s: Seq<(Seq<char>, bool)>, x: (Seq<char>, bool)) -> int
    decreases s.len(),
{
    if s.len() == 0 {
        0
    } else if !str_lt(x.0, s.last().0) {
        s.len() as int
    } else {
        insert_pos(s.drop_last(), x)
    }
}

/// The items sorted by path, equal paths in the order they came.
pub open spec fn sorted_by_path(s: Seq<(Seq<char>, bool)>) -> Seq<(Seq<char>, bool)>
    decreases s.len(),
{
    if s.len() == 0 {
        seq![]
    } else {
        let r = sorted_by_path(s.drop_last());
        r.insert(insert_pos(r, s.last()), s.last())
    }
}

pub proof fn lemma_insert_pos(s: Seq<(Seq<char>, bool)>, x: (Seq<char>, bool))
    ensures
        0 <= insert_pos(s, x) <= s.len(),
    decreases s.len(),
{
    if s.len() > 0 {
        lemma_insert_pos(s.drop_last(), x);
    }
}

/// No path sorts before the one ahead of it.
pub open spec fn paths_sorted(s: Seq<(Seq<char>, bool)>) -> bool {
    forall|i: int, j: int| 0 <= i < j < s.len() ==> !str_lt(#[trigger] s[j].0, #[trigger] s[i].0)
}

proof fn lemma_insert_pos_sorted(s: Seq<(Seq<char>, bool)>, x: (Seq<char>, bool))
    requires
        paths_sorted(s),
    ensures
        forall|k: int| 0 <= k < insert_pos(s, x) ==> !str_lt(x.0, #[trigger] s[k].0),
        forall|k: int| insert_pos(s, x) <= k < s.len() ==> str_lt(x.0, #[trigger] s[k].0),
    decreases s.len(),
{
    lemma_insert_pos(s, x);
    if s.len() > 0 {
        let n = s.len() - 1;
        if !str_lt(x.0, s.last().0) {
            assert forall|k: int| 0 <= k < insert_pos(s, x) implies !str_lt(x.0, #[trigger] s[k].0) by {
                if k < n {
                    crate::hmp_completer::lemma_str_le_trans(s[k].0, s[n].0, x.0);
                }
            }
        } else {
            let d = s.drop_last();
            assert(paths_sorted(d)) by {
                assert forall|i: int, j: int| 0 <= i < j < d.len() implies !str_lt(#[trigger] d[j].0, #[trigger] d[i].0) by {
                    assert(d[i] == s[i] && d[j] == s[j]);
                }
            }
            lemma_insert_pos_sorted(d, x);
            lemma_insert_pos(d, x);
            assert forall|k: int| 0 <= k < insert_pos(s, x) implies !str_lt(x.0, #[trigger] s[k].0) by {
                assert(s[k] == d[k]);
            }
            assert forall|k: int| insert_pos(s, x) <= k < s.len() implies str_lt(x.0, #[trigger] s[k].0) by {
                if k < n {
                    assert(s[k] == d[k]);
                }
            }
        }
    }
}

/// Sorting by path keeps every item and orders them: the result holds the
/// same items, and no path sorts before the one ahead of it.
pub proof fn law_sort_by_path(s: Seq<(Seq<char>, bool)>)
    ensures
        sorted_by_path(s).to_multiset() == s.to_multiset(),
        paths_sorted(sorted_by_path(s)),
    decreases s.len(),
{
    if s.len() == 0 {
        assert(sorted_by_path(s) =~= s);
    } else {
        let d = s.drop_last();
        let x = s.last();
        law_sort_by_path(d);
        let r = sorted_by_path(d);
        lemma_insert_pos(r, x);
        lemma_insert_pos_sorted(r, x);
        let p = insert_pos(r, x);
        let t = r.insert(p, x);
        vstd::seq_lib::to_multiset_insert(r, p, x);
        vstd::seq_lib::to_multiset_build(d, x);
        assert(d.push(x) =~= s);
        assert forall|i: int, j: int| 0 <= i < j < t.len() implies !str_lt(#[trigger] t[j].0, #[trigger] t[i].0) by {
            if j < p {
                assert(t[i] == r[i] && t[j] == r[j]);
            } else if j == p {
                assert(t[i] == r[i]);
            } else if i < p {
                assert(t[i] == r[i] && t[j] == r[j - 1]);
                crate::hmp_completer::lemma_str_lt_asym(x.0, r[j - 1].0);
                crate::hmp_completer::lemma_str_le_trans(r[i].0, x.0, r[j - 1].0);
            } else if i == p {
                assert(t[j] == r[j - 1]);
                crate::hmp_completer::lemma_str_lt_asym(x.0, r[j - 1].0);
            } else {
                assert(t[i] == r[i - 1] && t[j] == r[j - 1]);
            }
        }
    }
}

/// The completions for a partial file name, given the entries (name,
/// whether it is a directory) of the directory that `filename_dir` names:
/// the wanted entries as paths, a directory with a trailing `/`, sorted.
pub open spec fn spec_filename_candidates(prefix: Seq<char>, entries: Seq<(Seq<char>, bool)>) -> Seq<(Seq<char>, bool)> {
    sorted_by_path(entries.filter(entry_wanted(prefix)).map_values(entry_item(prefix)))
}

fn split_prefix_exec(p: &Vec<char>) -> (r: (Vec<char>, Vec<char>))
    ensures
        (r.0@, r.1@) == split_prefix(p@),
{
    let (d, f): (Vec<char>, Vec<char>) = if p.len() == 0 {
        (to_chars("."), Vec::new())
    } else if p[p.len() - 1] == '/' {
        let mut n = p.len();
        assert(p@.take(n as int) =~= p@);
        while n > 0 && p[n - 1] == '/'
            invariant
                n <= p@.len(),
                trim_end_char(p@, '/') == trim_end_char(p@.take(n as int), '/'),
            decreases n,
        {
            assert(p@.take(n as int).drop_last() =~= p@.take(n - 1));
            n = n - 1;
        }
        let d = slice_of(p, 0, n);
        assert(d@ =~= p@.take(n as int));
        (d, Vec::new())
    } else {
        proof {
            lemma_rfind(p@, '/');
        }
        match rfind_char(p, '/') {
            Some(i) => {
                let d = slice_of(p, 0, i);
                assert(d@ =~= p@.take(i as int));
                (d, tail(p, i + 1))
            },
            None => (to_chars("."), slice_of(p, 0, p.len())),
        }
    };
    assert(p@.subrange(0, p@.len() as int) =~= p@);
    if d.len() == 0 {
        (to_chars("/"), f)
    } else {
        (d, f)
    }
}

/// The directory to list for completing the partial path `prefix`.
pub fn filename_dir(prefix: &str) -> (r: String)
    ensures
        r@ == split_prefix(prefix@).0,
{
    let p = to_chars(prefix);
    let (d, _) = split_prefix_exec(&p);
    string_from(&d)
}

/// The file-name completions for `prefix`, from the entries (name, whether
/// it is a directory) of the directory that `filename_dir` names.
pub fn filename_candidates(prefix: &str, entries: &Vec<(String, bool)>) -> (r: Vec<(String, bool)>)
    ensures
        r.deep_view() == spec_filename_candidates(prefix@, entries.deep_view()),
{
    let p = to_chars(prefix);
    let (d, f) = split_prefix_exec(&p);
    let show_hidden = f.len() > 0 && f[0] == '.';
    let dot = crate::text::same(&d, &to_chars("."));
    let root = crate::text::same(&d, &to_chars("/"));
    let slash_in = has_char(&p, '/');
    let ghost ev = entries.deep_view();
    let ghost pw = entry_wanted(prefix@);
    let ghost fi = entry_item(prefix@);
    let mut items: Vec<(String, bool)> = Vec::new();
    let mut i: usize = 0;
    while i < entries.len()
        invariant
            i <= entries@.len(),
            ev == entries.deep_view(),
            pw == entry_wanted(prefix@),
            fi == entry_item(prefix@),
            (d@, f@) == split_prefix(prefix@),
            p@ == prefix@,
            show_hidden == (f@.len() > 0 && f@[0] == '.'),
            dot == (d@ == "."@),
            root == (d@ == "/"@),
            slash_in == prefix@.contains('/'),
            items.deep_view() == ev.take(i as int).filter(pw).map_values(fi),
        decreases entries@.len() - i,
    {
        proof {
            crate::completer::lemma_filter_map_step(ev, i as int, pw, fi);
        }
        let name = to_chars(entries[i].0.as_str());
        let is_dir = entries[i].1;
        assert(ev[i as int] == entries@[i as int].deep_view());
        let hidden = name.len() > 0 && name[0] == '.';
        if !(hidden && !show_hidden) && starts_with(&name, &f) {
            let mut full = String::new();
            if dot && !slash_in {
                push_str(&mut full, entries[i].0.as_str());
            } else if root {
                push_char(&mut full, '/');
                push_str(&mut full, entries[i].0.as_str());
            } else {
                push_str(&mut full, string_from(&d).as_str());
                push_char(&mut full, '/');
                push_str(&mut full, entries[i].0.as_str());
            }
            if is_dir {
                push_char(&mut full, '/');
            }
            proof {
                reveal_strlit("/");
            }
            assert(full@ =~= entry_path(prefix@, d@, name@, is_dir));
            let ghost before = items.deep_view();
            items.push((full, is_dir));
            assert(items.deep_view() =~= before.push(fi(ev[i as int])));
        }
        i = i + 1;
    }
    assert(ev.take(entries@.len() as int) =~= ev);
    sort_by_path(items)
}

/// Sorts items by path; items with equal paths keep their order.
fn sort_by_path(v: Vec<(String, bool)>) -> (r: Vec<(String, bool)>)
    ensures
        r.deep_view() == sorted_by_path(v.deep_view()),
{
    let ghost sv = v.deep_view();
    let mut rest = v;
    let mut out: Vec<(String, bool)> = Vec::new();
    let ghost n = sv.len();
    assert(sv.take(0) =~= Seq::<(Seq<char>, bool)>::empty());
    assert(sv.skip(0) =~= sv);
    while rest.len() > 0
        invariant
            rest@.len() <= n,
            n == sv.len(),
            rest.deep_view() == sv.skip(n - rest@.len()),
            out.deep_view() == sorted_by_path(sv.take(n - rest@.len())),
        decreases rest@.len(),
    {
        let ghost i = n - rest@.len();
        let ghost r0 = rest@;
        let ghost rd0 = rest.deep_view();
        let x = rest.remove(0);
        proof {
            assert(rest@ =~= r0.remove(0));
            assert(x.deep_view() == rd0[0]);
            assert(rd0[0] == sv[i]);
            assert forall|k: int| 0 <= k < rest@.len() implies #[trigger] rest.deep_view()[k] == rd0[k + 1] by {
                assert(rest@[k] == r0[k + 1]);
            }
            assert(rest.deep_view() =~= sv.skip(i + 1));
            assert(sv.take(i + 1).drop_last() =~= sv.take(i));
            assert(sv.take(i + 1).last() == sv[i]);
        }
        let ghost od = out.deep_view();
        let xl = to_chars(x.0.as_str());
        let mut k = out.len();
        assert(od.take(k as int) =~= od);
        while k > 0 && chars_lt(&xl, &to_chars(out[k - 1].0.as_str()))
            invariant
                k <= od.len(),
                od == out.deep_view(),
                xl@ == x.0@,
                insert_pos(od, x.deep_view()) == insert_pos(od.take(k as int), x.deep_view()),
            decreases k,
        {
            assert(od.take(k as int).last() == od[k - 1]);
            assert(od[k - 1] == out@[k - 1].deep_view());
            assert(od.take(k as int).drop_last() =~= od.take(k - 1));
            k = k - 1;
        }
        proof {
            if k > 0 {
                assert(od.take(k as int).last() == od[k - 1]);
                assert(od[k - 1] == out@[k - 1].deep_view());
            }
            lemma_insert_pos(od.take(k as int), x.deep_view());
        }
        let ghost xd = x.deep_view();
        out.insert(k, x);
        proof {
            assert(out.deep_view() =~= od.insert(k as int, xd));
        }
    }
    assert(sv.take(n as int) =~= sv);
    out
}

} // verus!
