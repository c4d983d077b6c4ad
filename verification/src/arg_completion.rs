//! Completion of HMP command arguments from their definitions.
use vstd::prelude::*;

use crate::args::{flag_of, ArgDef, ArgDefView, ArgType, ArgTypeView};
use crate::completer::{
    find_entry, find_member, find_member_index, has_prefix, key_wanted, lemma_filter_map_step,
    lookup, members_copy, members_of, new_sugg, sugg, MemberView, SchemaCache, SchemaMember,
    SchemaView, Suggestion, SuggestionView,
};
use crate::text::{
    byte_len, find_char, find_from, is_prefix, lemma_find_from, lemma_rfind, push_char, push_str,
    rfind, rfind_char, slice_of, starts_with, tail, to_chars,
};

verus! {

/// The tokens before the one being typed.
pub open spec fn completed_tokens(tokens: Seq<Seq<char>>, trailing_space: bool) -> Seq<Seq<char>> {
    if trailing_space || tokens.len() == 0 {
        tokens
    } else {
        tokens.drop_last()
    }
}

/// The indices of the flag arguments among `defs[..n]`.
pub open spec fn flag_indices(defs: Seq<ArgDefView>, n: int) -> Seq<int>
    decreases n,
{
    if n <= 0 {
        seq![]
    } else if flag_of(defs[n - 1]) is Some {
        flag_indices(defs, n - 1).push(n - 1)
    } else {
        flag_indices(defs, n - 1)
    }
}

/// The indices of the positional (non-flag) arguments among `defs[..n]`.
pub open spec fn positional_indices(defs: Seq<ArgDefView>, n: int) -> Seq<int>
    decreases n,
{
    if n <= 0 {
        seq![]
    } else if flag_of(defs[n - 1]) is None {
        positional_indices(defs, n - 1).push(n - 1)
    } else {
        positional_indices(defs, n - 1)
    }
}

/// The first flag, from position `k` of `fl` on, that is not consumed yet
/// and is spelled `tok`.
pub open spec fn first_match(
    defs: Seq<ArgDefView>,
    fl: Seq<int>,
    consumed: Seq<bool>,
    tok: Seq<char>,
    k: int,
) -> Option<int>
    decreases fl.len() - k,
{
    if k < 0 || k >= fl.len() {
        None
    } else if !consumed[k] && flag_of(defs[fl[k]]).unwrap().0 == tok {
        Some(k)
    } else {
        first_match(defs, fl, consumed, tok, k + 1)
    }
}

/// Matching completed tokens against the flags: which flags are consumed,
/// how many positional tokens there were, and whether the next token is a
/// flag's value.
pub open spec fn scan_tokens(defs: Seq<ArgDefView>, fl: Seq<int>, toks: Seq<Seq<char>>) -> (
    Seq<bool>,
    nat,
    bool,
)
    decreases toks.len(),
{
    if toks.len() == 0 {
        (Seq::new(fl.len(), |i: int| false), 0, false)
    } else {
        let (c, n, skip) = scan_tokens(defs, fl, toks.drop_last());
        if skip {
            (c, n, false)
        } else {
            match first_match(defs, fl, c, toks.last(), 0) {
                Some(k) => (c.update(k, true), n, flag_of(defs[fl[k]]).unwrap().1),
                None => (c, n + 1, false),
            }
        }
    }
}

/// The flags among `fl[..n]` that are not consumed.
pub open spec fn unconsumed(fl: Seq<int>, consumed: Seq<bool>, n: int) -> Seq<int>
    decreases n,
{
    if n <= 0 {
        seq![]
    } else if !consumed[n - 1] {
        unconsumed(fl, consumed, n - 1).push(fl[n - 1])
    } else {
        unconsumed(fl, consumed, n - 1)
    }
}

/// The positional arguments from `pi[k]` on that can stand at the cursor.
pub open spec fn positional_candidates(
    defs: Seq<ArgDefView>,
    pi: Seq<int>,
    count: nat,
    starting: bool,
    k: int,
    collecting: bool,
) -> Seq<int>
    decreases pi.len() - k,
{
    if k < 0 || k >= pi.len() {
        seq![]
    } else if collecting {
        seq![pi[k]] + if defs[pi[k]].optional {
            positional_candidates(defs, pi, count, starting, k + 1, true)
        } else {
            seq![]
        }
    } else if k < count {
        positional_candidates(defs, pi, count, starting, k + 1, false)
    } else {
        seq![pi[k]] + if starting && defs[pi[k]].optional {
            positional_candidates(defs, pi, count, starting, k + 1, true)
        } else {
            seq![]
        }
    }
}

/// The indices of the argument definitions that can stand at the cursor:
/// every flag not consumed yet, then the positional argument at the
/// cursor, followed, when a new token starts there and it is optional, by
/// the next ones up to the first required one.
pub open spec fn spec_candidate_defs(
    defs: Seq<ArgDefView>,
    tokens: Seq<Seq<char>>,
    trailing_space: bool,
) -> Seq<int> {
    let fl = flag_indices(defs, defs.len() as int);
    let (c, n, skip) = scan_tokens(defs, fl, completed_tokens(tokens, trailing_space));
    unconsumed(fl, c, fl.len() as int) + positional_candidates(
        defs,
        positional_indices(defs, defs.len() as int),
        n,
        trailing_space || tokens.len() == 0,
        0,
        false,
    )
}

pub proof fn lemma_indices_bounded(defs: Seq<ArgDefView>, n: int)
    requires
        0 <= n <= defs.len(),
    ensures
        forall|k: int|
            0 <= k < flag_indices(defs, n).len() ==> 0 <= #[trigger] flag_indices(defs, n)[k] < n
                && flag_of(defs[flag_indices(defs, n)[k]]) is Some,
        forall|k: int|
            0 <= k < positional_indices(defs, n).len() ==> 0 <= #[trigger] positional_indices(
                defs,
                n,
            )[k] < n && flag_of(defs[positional_indices(defs, n)[k]]) is None,
    decreases n,
{
    if n > 0 {
        lemma_indices_bounded(defs, n - 1);
    }
}

pub proof fn lemma_scan_len(defs: Seq<ArgDefView>, fl: Seq<int>, toks: Seq<Seq<char>>)
    ensures
        scan_tokens(defs, fl, toks).0.len() == fl.len(),
        scan_tokens(defs, fl, toks).1 <= toks.len(),
    decreases toks.len(),
{
    if toks.len() > 0 {
        lemma_scan_len(defs, fl, toks.drop_last());
        lemma_first_match(defs, fl, scan_tokens(defs, fl, toks.drop_last()).0, toks.last(), 0);
    }
}

pub proof fn lemma_first_match(
    defs: Seq<ArgDefView>,
    fl: Seq<int>,
    consumed: Seq<bool>,
    tok: Seq<char>,
    k: int,
)
    ensures
        first_match(defs, fl, consumed, tok, k) matches Some(j) ==> k <= j < fl.len()
            && flag_of(defs[fl[j]]).unwrap().0 == tok,
    decreases fl.len() - k,
{
    if 0 <= k < fl.len() {
        lemma_first_match(defs, fl, consumed, tok, k + 1);
    }
}

/// Finds the argument definitions that are candidates at the cursor; the
/// result holds their indices in `defs`.
///
/// Flags are position-independent: any flag that no completed token has
/// consumed is a candidate.  Positional arguments are resolved by
/// counting the completed non-flag tokens; at an optional positional
/// argument, the following optional ones and the first required one are
/// candidates too.
pub fn find_candidate_defs(defs: &Vec<ArgDef>, arg_tokens: &Vec<String>, trailing_space: bool) -> (r:
    Vec<usize>)
    ensures
        r@.map_values(|i: usize| i as int) == spec_candidate_defs(
            defs.deep_view(),
            arg_tokens.deep_view(),
            trailing_space,
        ),
{
    let ghost dv = defs.deep_view();
    let ghost tv = arg_tokens.deep_view();
    // Flags and positional arguments, in order.
    let mut fl: Vec<usize> = Vec::new();
    let mut fstr: Vec<Vec<char>> = Vec::new();
    let mut ftakes: Vec<bool> = Vec::new();
    let mut pi: Vec<usize> = Vec::new();
    let mut i: usize = 0;
    while i < defs.len()
        invariant
            i <= defs@.len(),
            dv == defs.deep_view(),
            fl@.map_values(|x: usize| x as int) == flag_indices(dv, i as int),
            pi@.map_values(|x: usize| x as int) == positional_indices(dv, i as int),
            fstr@.len() == fl@.len(),
            ftakes@.len() == fl@.len(),
            forall|k: int|
                0 <= k < fl@.len() ==> flag_of(dv[fl@[k] as int]) == Some(
                    (#[trigger] fstr@[k]@, ftakes@[k]),
                ),
        decreases defs@.len() - i,
    {
        assert(dv[i as int] == defs@[i as int].deep_view());
        let ghost fl0 = fl@;
        let ghost pi0 = pi@;
        match &defs[i].arg_type {
            ArgType::Flag(s) => {
                fl.push(i);
                fstr.push(to_chars(s.as_str()));
                ftakes.push(false);
                assert(fl@.map_values(|x: usize| x as int) =~= fl0.map_values(|x: usize| x as int).push(
                    i as int,
                ));
            },
            ArgType::FlagStr(s) => {
                fl.push(i);
                fstr.push(to_chars(s.as_str()));
                ftakes.push(true);
                assert(fl@.map_values(|x: usize| x as int) =~= fl0.map_values(|x: usize| x as int).push(
                    i as int,
                ));
            },
            _ => {
                pi.push(i);
                assert(pi@.map_values(|x: usize| x as int) =~= pi0.map_values(|x: usize| x as int).push(
                    i as int,
                ));
            },
        }
        i = i + 1;
    }
    let ghost flv = fl@.map_values(|x: usize| x as int);
    let ghost piv = pi@.map_values(|x: usize| x as int);
    // Completed tokens: everything but the token being typed.
    let ncomp = if trailing_space || arg_tokens.len() == 0 {
        arg_tokens.len()
    } else {
        arg_tokens.len() - 1
    };
    assert(completed_tokens(tv, trailing_space) =~= tv.take(ncomp as int));
    let mut consumed: Vec<bool> = Vec::new();
    let mut k: usize = 0;
    while k < fl.len()
        invariant
            k <= fl@.len(),
            consumed@ == Seq::new(k as nat, |j: int| false),
        decreases fl@.len() - k,
    {
        consumed.push(false);
        k = k + 1;
        assert(consumed@ =~= Seq::new(k as nat, |j: int| false));
    }
    assert(tv.take(0) =~= Seq::<Seq<char>>::empty());
    let mut count: usize = 0;
    let mut skip_next = false;
    let mut t: usize = 0;
    while t < ncomp
        invariant
            t <= ncomp <= arg_tokens@.len(),
            tv == arg_tokens.deep_view(),
            dv == defs.deep_view(),
            flv == fl@.map_values(|x: usize| x as int),
            fstr@.len() == fl@.len(),
            ftakes@.len() == fl@.len(),
            forall|j: int|
                0 <= j < fl@.len() ==> flag_of(dv[fl@[j] as int]) == Some(
                    (#[trigger] fstr@[j]@, ftakes@[j]),
                ),
            (consumed@, count as nat, skip_next) == scan_tokens(dv, flv, tv.take(t as int)),
            count <= t,
            consumed@.len() == fl@.len(),
        decreases ncomp - t,
    {
        proof {
            assert(tv.take(t + 1).drop_last() =~= tv.take(t as int));
            assert(tv.take(t + 1).last() == tv[t as int]);
        }
        let ghost c0 = consumed@;
        let ghost n0 = count as nat;
        if skip_next {
            skip_next = false;
        } else {
            let tok = to_chars(arg_tokens[t].as_str());
            assert(tok@ == tv[t as int]);
            let mut j: usize = 0;
            let mut found = false;
            while j < fl.len() && !found
                invariant
                    j <= fl@.len(),
                    fstr@.len() == fl@.len(),
                    ftakes@.len() == fl@.len(),
                    consumed@.len() == fl@.len(),
                    flv == fl@.map_values(|x: usize| x as int),
                    forall|q: int|
                        0 <= q < fl@.len() ==> flag_of(dv[fl@[q] as int]) == Some(
                            (#[trigger] fstr@[q]@, ftakes@[q]),
                        ),
                    !found ==> first_match(dv, flv, consumed@, tok@, 0) == first_match(
                        dv,
                        flv,
                        consumed@,
                        tok@,
                        j as int,
                    ),
                    found ==> j < fl@.len() && first_match(dv, flv, consumed@, tok@, 0) == Some(
                        j as int,
                    ),
                decreases fl@.len() - j + (if found { 0int } else { 1int }),
            {
                assert(flv[j as int] == fl@[j as int] as int);
                assert(flag_of(dv[fl@[j as int] as int]) == Some((fstr@[j as int]@, ftakes@[j as int])));
                if !consumed[j] && crate::text::same(&tok, &fstr[j]) {
                    found = true;
                } else {
                    j = j + 1;
                }
            }
            if found {
                assert(flag_of(dv[fl@[j as int] as int]) == Some((fstr@[j as int]@, ftakes@[j as int])));
                consumed.set(j, true);
                skip_next = ftakes[j];
                assert(flv[j as int] == fl@[j as int] as int);
                assert(flag_of(dv[flv[j as int]]).unwrap().1 == skip_next);
                assert(consumed@ == c0.update(j as int, true));
                assert(scan_tokens(dv, flv, tv.take(t + 1)) == (c0.update(j as int, true), n0, skip_next));
            } else {
                assert(first_match(dv, flv, consumed@, tok@, j as int) is None);
                count = count + 1;
                assert(scan_tokens(dv, flv, tv.take(t + 1)) == (c0, n0 + 1, false));
            }
        }
        t = t + 1;
    }
    let ghost cv = consumed@;
    // 1. Every flag not consumed is a candidate.
    let mut out: Vec<usize> = Vec::new();
    let mut k: usize = 0;
    while k < fl.len()
        invariant
            k <= fl@.len(),
            consumed@ == cv,
            cv.len() == fl@.len(),
            flv == fl@.map_values(|x: usize| x as int),
            out@.map_values(|x: usize| x as int) == unconsumed(flv, cv, k as int),
        decreases fl@.len() - k,
    {
        if !consumed[k] {
            let ghost o = out@.map_values(|x: usize| x as int);
            out.push(fl[k]);
            assert(out@.map_values(|x: usize| x as int) =~= o.push(flv[k as int]));
        }
        k = k + 1;
    }
    // 2. The positional argument at the cursor, and the optional ones after it.
    let ghost u = out@.map_values(|x: usize| x as int);
    let starting = trailing_space || arg_tokens.len() == 0;
    let ghost total = u + positional_candidates(dv, piv, count as nat, starting, 0, false);
    let mut collecting = false;
    let mut done = false;
    let mut k: usize = 0;
    assert(u + positional_candidates(dv, piv, count as nat, starting, 0, false) == total);
    proof {
        lemma_indices_bounded(dv, dv.len() as int);
        assert forall|q: int| 0 <= q < pi@.len() implies (#[trigger] pi@[q]) < defs@.len() by {
            assert(piv[q] == pi@[q] as int);
        }
    }
    while k < pi.len() && !done
        invariant
            k <= pi@.len(),
            dv == defs.deep_view(),
            piv == pi@.map_values(|x: usize| x as int),
            forall|q: int| 0 <= q < pi@.len() ==> (#[trigger] pi@[q]) < defs@.len(),
            done ==> out@.map_values(|x: usize| x as int) == total,
            !done ==> out@.map_values(|x: usize| x as int) + positional_candidates(
                dv,
                piv,
                count as nat,
                starting,
                k as int,
                collecting,
            ) == total,
        decreases pi@.len() - k,
    {
        let d = pi[k];
        assert(piv[k as int] == d as int);
        assert(dv[d as int] == defs@[d as int].deep_view());
        let opt = defs[d].optional;
        let ghost o = out@.map_values(|x: usize| x as int);
        if collecting {
            out.push(d);
            assert(out@.map_values(|x: usize| x as int) =~= o + seq![d as int]);
            if !opt {
                done = true;
                assert(o + (seq![d as int] + Seq::<int>::empty()) =~= o + seq![d as int]);
            } else {
                assert(o + (seq![d as int] + positional_candidates(dv, piv, count as nat, starting, k + 1, true))
                    =~= o + seq![d as int] + positional_candidates(dv, piv, count as nat, starting, k + 1, true));
            }
        } else if k < count {
        } else {
            out.push(d);
            assert(out@.map_values(|x: usize| x as int) =~= o + seq![d as int]);
            if starting && opt {
                collecting = true;
                assert(o + (seq![d as int] + positional_candidates(dv, piv, count as nat, starting, k + 1, true))
                    =~= o + seq![d as int] + positional_candidates(dv, piv, count as nat, starting, k + 1, true));
            } else {
                done = true;
                assert(o + (seq![d as int] + Seq::<int>::empty()) =~= o + seq![d as int]);
            }
        }
        k = k + 1;
    }
    if !done {
        assert(out@.map_values(|x: usize| x as int) + Seq::<int>::empty() =~= out@.map_values(
            |x: usize| x as int,
        ));
    }
    out
}

/// A suggestion of `v` itself, with the given description.
pub open spec fn plain_sugg(desc: Seq<char>, span_start: int, pos: int, ws: bool) -> spec_fn(Seq<char>) -> SuggestionView {
    |v: Seq<char>| sugg(v, Some(desc), span_start, pos, ws, None)
}

/// Appends a suggestion for each item that starts with `prefix`.
pub fn push_prefixed(
    out: &mut Vec<Suggestion>,
    items: &Vec<String>,
    prefix: &Vec<char>,
    desc: &str,
    span_start: usize,
    pos: usize,
    ws: bool,
)
    ensures
        final(out).deep_view() == old(out).deep_view() + items.deep_view().filter(
            has_prefix(prefix@),
        ).map_values(plain_sugg(desc@, span_start as int, pos as int, ws)),
{
    let ghost dv = items.deep_view();
    let ghost f = plain_sugg(desc@, span_start as int, pos as int, ws);
    let ghost o = out.deep_view();
    let mut i: usize = 0;
    while i < items.len()
        invariant
            i <= items@.len(),
            dv == items.deep_view(),
            f == plain_sugg(desc@, span_start as int, pos as int, ws),
            out.deep_view() == o + dv.take(i as int).filter(has_prefix(prefix@)).map_values(f),
        decreases items@.len() - i,
    {
        proof {
            lemma_filter_map_step(dv, i as int, has_prefix(prefix@), f);
        }
        let v = to_chars(items[i].as_str());
        assert(dv[i as int] == items@[i as int]@);
        if starts_with(&v, prefix) {
            let sg = new_sugg(
                items[i].clone(),
                Some(String::from_str(desc)),
                span_start,
                pos,
                ws,
                None,
            );
            let ghost before = out.deep_view();
            out.push(sg);
            assert(out.deep_view() =~= before.push(f(dv[i as int])));
            assert(o + dv.take(i + 1).filter(has_prefix(prefix@)).map_values(f) =~= before.push(
                f(dv[i as int]),
            ));
        }
        i = i + 1;
    }
    assert(dv.take(items@.len() as int) =~= dv);
}

pub open spec fn file_sugg(desc: Seq<char>, span_start: int, pos: int) -> spec_fn((Seq<char>, bool)) -> SuggestionView {
    |f: (Seq<char>, bool)| sugg(f.0, Some(desc), span_start, pos, !f.1, None)
}

/// Appends a suggestion for each file; a directory takes no space after it.
pub fn push_files(
    out: &mut Vec<Suggestion>,
    files: &Vec<(String, bool)>,
    desc: &str,
    span_start: usize,
    pos: usize,
)
    ensures
        final(out).deep_view() == old(out).deep_view() + files.deep_view().map_values(
            file_sugg(desc@, span_start as int, pos as int),
        ),
{
    let ghost dv = files.deep_view();
    let ghost f = file_sugg(desc@, span_start as int, pos as int);
    let ghost o = out.deep_view();
    let mut i: usize = 0;
    while i < files.len()
        invariant
            i <= files@.len(),
            dv == files.deep_view(),
            f == file_sugg(desc@, span_start as int, pos as int),
            out.deep_view() == o + dv.take(i as int).map_values(f),
        decreases files@.len() - i,
    {
        assert(dv[i as int] == files@[i as int].deep_view());
        let sg = new_sugg(
            files[i].0.clone(),
            Some(String::from_str(desc)),
            span_start,
            pos,
            !files[i].1,
            None,
        );
        let ghost before = out.deep_view();
        out.push(sg);
        assert(out.deep_view() =~= before.push(f(dv[i as int])));
        assert(dv.take(i + 1).map_values(f) =~= dv.take(i as int).map_values(f).push(f(dv[i as int])));
        i = i + 1;
    }
    assert(dv.take(files@.len() as int) =~= dv);
}

/// The description shown with the hint of an argument of type `t`.
pub open spec fn type_desc(t: ArgTypeView) -> Seq<char> {
    match t {
        ArgTypeView::Str => "string"@,
        ArgTypeView::Int => "integer"@,
        ArgTypeView::DotInt => "integer"@,
        ArgTypeView::Long => "expression ($reg, hex, arithmetic)"@,
        ArgTypeView::Size => "size (K/M/G/T)"@,
        ArgTypeView::Mebibytes => "megabytes"@,
        ArgTypeView::Format => "format spec"@,
        ArgTypeView::Object => "key=val,..."@,
        _ => ""@,
    }
}

/// The suggestions for one candidate argument.
pub open spec fn def_suggestions(
    d: ArgDefView,
    prefix: Seq<char>,
    span_start: int,
    pos: int,
    devices: Seq<Seq<char>>,
    files: Seq<(Seq<char>, bool)>,
) -> Seq<SuggestionView> {
    match d.arg_type {
        ArgTypeView::Flag(f) => if is_prefix(prefix, f) {
            seq![sugg(f, Some(d.name), span_start, pos, true, None)]
        } else {
            seq![]
        },
        ArgTypeView::FlagStr(f) => if is_prefix(prefix, f) {
            seq![sugg(f, Some(d.name), span_start, pos, true, None)]
        } else {
            seq![]
        },
        ArgTypeView::Bool => seq!["on"@, "off"@].filter(has_prefix(prefix)).map_values(
            plain_sugg(d.name, span_start, pos, true),
        ),
        ArgTypeView::BlockDevice => devices.filter(has_prefix(prefix)).map_values(
            plain_sugg(d.name, span_start, pos, true),
        ),
        ArgTypeView::Filename => files.map_values(file_sugg(d.name, span_start, pos)),
        _ => seq![
            sugg(prefix, Some(type_desc(d.arg_type)), span_start, pos, false, Some("<"@ + d.name + ">"@)),
        ],
    }
}

/// The suggestions for the candidates `cands[..n]`, in order.
pub open spec fn candidate_suggestions(
    defs: Seq<ArgDefView>,
    cands: Seq<int>,
    n: int,
    prefix: Seq<char>,
    span_start: int,
    pos: int,
    devices: Seq<Seq<char>>,
    files: Seq<(Seq<char>, bool)>,
) -> Seq<SuggestionView>
    decreases n,
{
    if n <= 0 {
        seq![]
    } else {
        candidate_suggestions(defs, cands, n - 1, prefix, span_start, pos, devices, files)
            + def_suggestions(defs[cands[n - 1]], prefix, span_start, pos, devices, files)
    }
}

/// The suggestions for the arguments of a command with definitions `defs`.
pub open spec fn spec_complete_args(
    defs: Seq<ArgDefView>,
    tokens: Seq<Seq<char>>,
    trailing_space: bool,
    prefix: Seq<char>,
    span_start: int,
    pos: int,
    devices: Seq<Seq<char>>,
    files: Seq<(Seq<char>, bool)>,
) -> Seq<SuggestionView> {
    let cands = spec_candidate_defs(defs, tokens, trailing_space);
    candidate_suggestions(defs, cands, cands.len() as int, prefix, span_start, pos, devices, files)
}

fn push_def_suggestions(
    out: &mut Vec<Suggestion>,
    d: &ArgDef,
    prefix: &Vec<char>,
    span_start: usize,
    pos: usize,
    devices: &Vec<String>,
    files: &Vec<(String, bool)>,
)
    ensures
        final(out).deep_view() == old(out).deep_view() + def_suggestions(
            d.deep_view(),
            prefix@,
            span_start as int,
            pos as int,
            devices.deep_view(),
            files.deep_view(),
        ),
{
    let ghost o = out.deep_view();
    match &d.arg_type {
        ArgType::Flag(f) | ArgType::FlagStr(f) => {
            let fc = to_chars(f.as_str());
            if starts_with(&fc, prefix) {
                let sg = new_sugg(f.clone(), Some(d.name.clone()), span_start, pos, true, None);
                out.push(sg);
                assert(out.deep_view() =~= o + def_suggestions(
                    d.deep_view(),
                    prefix@,
                    span_start as int,
                    pos as int,
                    devices.deep_view(),
                    files.deep_view(),
                ));
            } else {
                assert(o + Seq::<SuggestionView>::empty() =~= o);
            }
        },
        ArgType::Bool => {
            let vals: Vec<String> = vec![String::from_str("on"), String::from_str("off")];
            assert(vals.deep_view() =~= seq!["on"@, "off"@]);
            push_prefixed(out, &vals, prefix, d.name.as_str(), span_start, pos, true);
        },
        ArgType::BlockDevice => {
            push_prefixed(out, devices, prefix, d.name.as_str(), span_start, pos, true);
        },
        ArgType::Filename => {
            push_files(out, files, d.name.as_str(), span_start, pos);
        },
        _ => {
            let desc = match &d.arg_type {
                ArgType::Str => String::from_str("string"),
                ArgType::Int | ArgType::DotInt => String::from_str("integer"),
                ArgType::Long => String::from_str("expression ($reg, hex, arithmetic)"),
                ArgType::Size => String::from_str("size (K/M/G/T)"),
                ArgType::Mebibytes => String::from_str("megabytes"),
                ArgType::Format => String::from_str("format spec"),
                ArgType::Object => String::from_str("key=val,..."),
                _ => String::new(),
            };
            assert(desc@ == type_desc(d.arg_type.deep_view()));
            let mut hint = String::new();
            push_char(&mut hint, '<');
            push_str(&mut hint, d.name.as_str());
            push_char(&mut hint, '>');
            proof {
                reveal_strlit("<");
                reveal_strlit(">");
                assert(hint@ =~= "<"@ + d.name@ + ">"@);
            }
            let value = crate::text::string_from(prefix);
            let sg = new_sugg(value, Some(desc), span_start, pos, false, Some(hint));
            out.push(sg);
            assert(out.deep_view() =~= o + def_suggestions(
                d.deep_view(),
                prefix@,
                span_start as int,
                pos as int,
                devices.deep_view(),
                files.deep_view(),
            ));
        },
    }
}

/// Generic argument completion from the argument definitions.
///
/// Offers, for each candidate argument at the cursor: the flag string of
/// a flag, `on` / `off` for a bool, the matching names of `devices` for a
/// block device, every entry of `files` (the listing for `prefix`) for a
/// file name, and for any other type a hint such as `<size>`.
pub fn complete_args_impl(
    defs: &Vec<ArgDef>,
    arg_tokens: &Vec<String>,
    trailing_space: bool,
    prefix: &str,
    span_start: usize,
    pos: usize,
    devices: &Vec<String>,
    files: &Vec<(String, bool)>,
) -> (r: Vec<Suggestion>)
    ensures
        r.deep_view() == spec_complete_args(
            defs.deep_view(),
            arg_tokens.deep_view(),
            trailing_space,
            prefix@,
            span_start as int,
            pos as int,
            devices.deep_view(),
            files.deep_view(),
        ),
{
    let cands = find_candidate_defs(defs, arg_tokens, trailing_space);
    let ghost cv = cands@.map_values(|i: usize| i as int);
    let ghost dv = defs.deep_view();
    proof {
        lemma_candidates_bounded(dv, arg_tokens.deep_view(), trailing_space);
    }
    let p = to_chars(prefix);
    let mut out: Vec<Suggestion> = Vec::new();
    let mut k: usize = 0;
    while k < cands.len()
        invariant
            k <= cands@.len(),
            dv == defs.deep_view(),
            p@ == prefix@,
            cv == cands@.map_values(|i: usize| i as int),
            forall|q: int| 0 <= q < cv.len() ==> 0 <= #[trigger] cv[q] < dv.len(),
            out.deep_view() == candidate_suggestions(
                dv,
                cv,
                k as int,
                prefix@,
                span_start as int,
                pos as int,
                devices.deep_view(),
                files.deep_view(),
            ),
        decreases cands@.len() - k,
    {
        let d = cands[k];
        assert(cv[k as int] == d as int);
        assert(dv[d as int] == defs@[d as int].deep_view());
        push_def_suggestions(&mut out, &defs[d], &p, span_start, pos, devices, files);
        k = k + 1;
    }
    out
}

pub proof fn lemma_unconsumed_bounded(fl: Seq<int>, c: Seq<bool>, n: int, bound: int)
    requires
        0 <= n <= fl.len(),
        forall|q: int| 0 <= q < fl.len() ==> 0 <= #[trigger] fl[q] < bound,
    ensures
        forall|q: int| 0 <= q < unconsumed(fl, c, n).len() ==> 0 <= #[trigger] unconsumed(fl, c, n)[q] < bound,
    decreases n,
{
    if n > 0 {
        lemma_unconsumed_bounded(fl, c, n - 1, bound);
        let u = unconsumed(fl, c, n - 1);
        if !c[n - 1] {
            assert forall|q: int| 0 <= q < u.push(fl[n - 1]).len() implies 0 <= #[trigger] u.push(fl[n - 1])[q] < bound by {
                if q < u.len() {
                    assert(u.push(fl[n - 1])[q] == u[q]);
                }
            }
        }
    }
}

proof fn lemma_cons_bounded(x: int, rest: Seq<int>, bound: int)
    requires
        0 <= x < bound,
        forall|q: int| 0 <= q < rest.len() ==> 0 <= #[trigger] rest[q] < bound,
    ensures
        forall|q: int| 0 <= q < (seq![x] + rest).len() ==> 0 <= #[trigger] (seq![x] + rest)[q] < bound,
{
    assert forall|q: int| 0 <= q < (seq![x] + rest).len() implies 0 <= #[trigger] (seq![x] + rest)[q] < bound by {
        if q > 0 {
            assert((seq![x] + rest)[q] == rest[q - 1]);
        }
    }
}

pub proof fn lemma_positional_bounded(
    defs: Seq<ArgDefView>,
    pi: Seq<int>,
    count: nat,
    starting: bool,
    k: int,
    collecting: bool,
    bound: int,
)
    requires
        forall|q: int| 0 <= q < pi.len() ==> 0 <= #[trigger] pi[q] < bound,
    ensures
        forall|q: int|
            0 <= q < positional_candidates(defs, pi, count, starting, k, collecting).len() ==> 0
                <= #[trigger] positional_candidates(defs, pi, count, starting, k, collecting)[q]
                < bound,
    decreases pi.len() - k,
{
    if 0 <= k < pi.len() {
        lemma_positional_bounded(defs, pi, count, starting, k + 1, true, bound);
        lemma_positional_bounded(defs, pi, count, starting, k + 1, false, bound);
        lemma_cons_bounded(pi[k], positional_candidates(defs, pi, count, starting, k + 1, true), bound);
        lemma_cons_bounded(pi[k], seq![], bound);
        let r = positional_candidates(defs, pi, count, starting, k, collecting);
        let a = seq![pi[k]] + positional_candidates(defs, pi, count, starting, k + 1, true);
        let b = seq![pi[k]] + Seq::<int>::empty();
        let c = positional_candidates(defs, pi, count, starting, k + 1, false);
        assert(r == a || r == b || r == c);
        assert forall|q: int| 0 <= q < r.len() implies 0 <= #[trigger] r[q] < bound by {
            if r == a {
                assert(r[q] == a[q]);
            } else if r == b {
                assert(r[q] == b[q]);
            } else {
                assert(r[q] == c[q]);
            }
        }
    }
}

pub proof fn lemma_candidates_bounded(defs: Seq<ArgDefView>, tokens: Seq<Seq<char>>, trailing_space: bool)
    ensures
        forall|q: int|
            0 <= q < spec_candidate_defs(defs, tokens, trailing_space).len() ==> 0
                <= #[trigger] spec_candidate_defs(defs, tokens, trailing_space)[q] < defs.len(),
{
    let fl = flag_indices(defs, defs.len() as int);
    let (c, n, skip) = scan_tokens(defs, fl, completed_tokens(tokens, trailing_space));
    let pi = positional_indices(defs, defs.len() as int);
    lemma_indices_bounded(defs, defs.len() as int);
    lemma_unconsumed_bounded(fl, c, fl.len() as int, defs.len() as int);
    lemma_positional_bounded(defs, pi, n, trailing_space || tokens.len() == 0, 0, false, defs.len() as int);
    let a = unconsumed(fl, c, fl.len() as int);
    let b = positional_candidates(defs, pi, n, trailing_space || tokens.len() == 0, 0, false);
    assert forall|q: int| 0 <= q < (a + b).len() implies 0 <= #[trigger] (a + b)[q] < defs.len() by {
        if q >= a.len() {
            assert((a + b)[q] == b[q - a.len()]);
        }
    }
}

proof fn lemma_scan_consumed(defs: Seq<ArgDefView>, fl: Seq<int>, toks: Seq<Seq<char>>)
    ensures
        forall|k: int|
            0 <= k < fl.len() && #[trigger] scan_tokens(defs, fl, toks).0[k] ==> exists|j: int|
                0 <= j < toks.len() && toks[j] == flag_of(defs[fl[k]]).unwrap().0,
    decreases toks.len(),
{
    lemma_scan_len(defs, fl, toks);
    if toks.len() > 0 {
        let pre = toks.drop_last();
        lemma_scan_consumed(defs, fl, pre);
        lemma_scan_len(defs, fl, pre);
        let (c, n, skip) = scan_tokens(defs, fl, pre);
        lemma_first_match(defs, fl, c, toks.last(), 0);
        assert forall|k: int|
            0 <= k < fl.len() && #[trigger] scan_tokens(defs, fl, toks).0[k] implies exists|j: int|
                0 <= j < toks.len() && toks[j] == flag_of(defs[fl[k]]).unwrap().0 by {
            let last = toks.len() - 1;
            if !skip && first_match(defs, fl, c, toks.last(), 0) == Some(k) {
                assert(toks[last] == flag_of(defs[fl[k]]).unwrap().0);
            } else {
                assert(c[k]);
                let j = choose|j: int| 0 <= j < pre.len() && pre[j] == flag_of(defs[fl[k]]).unwrap().0;
                assert(toks[j] == pre[j]);
            }
        }
    }
}

proof fn lemma_unconsumed_has(fl: Seq<int>, c: Seq<bool>, n: int, k: int)
    requires
        0 <= k < n <= fl.len(),
        !c[k],
    ensures
        unconsumed(fl, c, n).contains(fl[k]),
    decreases n,
{
    if k < n - 1 {
        lemma_unconsumed_has(fl, c, n - 1, k);
        let u = unconsumed(fl, c, n - 1);
        let j = choose|j: int| 0 <= j < u.len() && u[j] == fl[k];
        if !c[n - 1] {
            assert(u.push(fl[n - 1])[j] == fl[k]);
        }
    } else {
        let u = unconsumed(fl, c, n - 1);
        assert(u.push(fl[k])[u.len() as int] == fl[k]);
    }
}

proof fn lemma_flag_indices_has(defs: Seq<ArgDefView>, n: int, i: int)
    requires
        0 <= i < n <= defs.len(),
        flag_of(defs[i]) is Some,
    ensures
        exists|k: int| 0 <= k < flag_indices(defs, n).len() && flag_indices(defs, n)[k] == i,
    decreases n,
{
    let prev = flag_indices(defs, n - 1);
    if i < n - 1 {
        lemma_flag_indices_has(defs, n - 1, i);
        let k = choose|k: int| 0 <= k < prev.len() && prev[k] == i;
        if flag_of(defs[n - 1]) is Some {
            assert(flag_indices(defs, n) == prev.push(n - 1));
            assert(flag_indices(defs, n)[k] == i);
        } else {
            assert(flag_indices(defs, n)[k] == i);
        }
    } else {
        assert(flag_indices(defs, n) == prev.push(n - 1));
        assert(flag_indices(defs, n)[prev.len() as int] == i);
    }
}

/// Flags do not depend on their position: a flag that no completed token
/// spells is a candidate, wherever it was defined and whatever
/// positional tokens were typed before.
pub proof fn law_unused_flag_is_candidate(
    defs: Seq<ArgDefView>,
    tokens: Seq<Seq<char>>,
    trailing_space: bool,
    i: int,
)
    requires
        0 <= i < defs.len(),
        flag_of(defs[i]) is Some,
        forall|j: int|
            0 <= j < completed_tokens(tokens, trailing_space).len() ==> #[trigger] completed_tokens(
                tokens,
                trailing_space,
            )[j] != flag_of(defs[i]).unwrap().0,
    ensures
        spec_candidate_defs(defs, tokens, trailing_space).contains(i),
{
    let fl = flag_indices(defs, defs.len() as int);
    let toks = completed_tokens(tokens, trailing_space);
    let (c, n, skip) = scan_tokens(defs, fl, toks);
    lemma_flag_indices_has(defs, defs.len() as int, i);
    let k = choose|k: int| 0 <= k < fl.len() && fl[k] == i;
    lemma_scan_consumed(defs, fl, toks);
    lemma_scan_len(defs, fl, toks);
    if c[k] {
        let j = choose|j: int| 0 <= j < toks.len() && toks[j] == flag_of(defs[fl[k]]).unwrap().0;
        assert(toks[j] != flag_of(defs[i]).unwrap().0);
    }
    lemma_unconsumed_has(fl, c, fl.len() as int, k);
    let u = unconsumed(fl, c, fl.len() as int);
    let b = positional_candidates(defs, positional_indices(defs, defs.len() as int), n,
        trailing_space || tokens.len() == 0, 0, false);
    let q = choose|q: int| 0 <= q < u.len() && u[q] == i;
    assert((u + b)[q] == i);
}

/// Common block image formats offered for `change`.
pub open spec fn block_formats() -> Seq<Seq<char>> {
    seq!["qcow2"@, "raw"@, "vmdk"@, "vdi"@, "vhdx"@, "qed"@, "vpc"@, "luks"@]
}

/// The values of the `read-only-mode` argument of `change`.
pub open spec fn read_only_modes() -> Seq<Seq<char>> {
    seq!["retain"@, "read-only"@, "read-write"@]
}

/// Splits the completed tokens of `change` into whether the `-f` flag was
/// seen and the positional tokens; only the first `-f` is the flag.
pub open spec fn change_scan(toks: Seq<Seq<char>>) -> (bool, Seq<Seq<char>>)
    decreases toks.len(),
{
    if toks.len() == 0 {
        (false, seq![])
    } else {
        let (seen, ps) = change_scan(toks.drop_last());
        if toks.last() == "-f"@ && !seen {
            (true, ps)
        } else {
            (seen, ps.push(toks.last()))
        }
    }
}

/// The suggestions for the arguments of `change`: the `-f` flag while it
/// is not used, then by position the device (block devices and `vnc`),
/// the target (`passwd` / `password` for vnc, else `files`), the format
/// or a password hint, and the read-only mode.
pub open spec fn spec_complete_change(
    tokens: Seq<Seq<char>>,
    trailing_space: bool,
    prefix: Seq<char>,
    span_start: int,
    pos: int,
    devices: Seq<Seq<char>>,
    files: Seq<(Seq<char>, bool)>,
) -> Seq<SuggestionView> {
    let (flag_seen, ps) = change_scan(completed_tokens(tokens, trailing_space));
    let idx = ps.len();
    let is_vnc = idx > 0 && ps[0] == "vnc"@;
    let flag = if !flag_seen && is_prefix(prefix, "-f"@) {
        seq![sugg("-f"@, Some("force"@), span_start, pos, true, None)]
    } else {
        seq![]
    };
    flag + if idx == 0 {
        devices.push("vnc"@).filter(has_prefix(prefix)).map_values(
            plain_sugg("device"@, span_start, pos, true),
        )
    } else if idx == 1 {
        if is_vnc {
            seq!["passwd"@, "password"@].filter(has_prefix(prefix)).map_values(
                plain_sugg("target"@, span_start, pos, true),
            )
        } else {
            files.map_values(file_sugg("target"@, span_start, pos))
        }
    } else if idx == 2 {
        if is_vnc {
            seq![sugg(prefix, Some("string"@), span_start, pos, false, Some("<password>"@))]
        } else {
            block_formats().filter(has_prefix(prefix)).map_values(
                plain_sugg("format"@, span_start, pos, true),
            )
        }
    } else if idx == 3 && !is_vnc {
        read_only_modes().filter(has_prefix(prefix)).map_values(
            plain_sugg("read-only-mode"@, span_start, pos, true),
        )
    } else {
        seq![]
    }
}

proof fn lemma_change_seen(toks: Seq<Seq<char>>)
    ensures
        change_scan(toks).0 ==> exists|j: int| 0 <= j < toks.len() && toks[j] == "-f"@,
    decreases toks.len(),
{
    if toks.len() > 0 {
        lemma_change_seen(toks.drop_last());
        if change_scan(toks.drop_last()).0 {
            let j = choose|j: int| 0 <= j < toks.drop_last().len() && toks.drop_last()[j] == "-f"@;
            assert(toks[j] == toks.drop_last()[j]);
        } else if change_scan(toks).0 {
            assert(toks[toks.len() - 1] == "-f"@);
        }
    }
}

/// The `-f` flag of `change` does not depend on its position: as long as
/// no completed token is `-f` and the typed prefix fits it, it is offered
/// first, whichever argument the cursor stands at.
pub proof fn law_change_force_flag(
    tokens: Seq<Seq<char>>,
    trailing_space: bool,
    prefix: Seq<char>,
    span_start: int,
    pos: int,
    devices: Seq<Seq<char>>,
    files: Seq<(Seq<char>, bool)>,
)
    requires
        forall|j: int|
            0 <= j < completed_tokens(tokens, trailing_space).len() ==> #[trigger] completed_tokens(
                tokens,
                trailing_space,
            )[j] != "-f"@,
        is_prefix(prefix, "-f"@),
    ensures
        ({
            let r = spec_complete_change(tokens, trailing_space, prefix, span_start, pos, devices, files);
            r.len() > 0 && r[0] == sugg("-f"@, Some("force"@), span_start, pos, true, None)
        }),
{
    lemma_change_seen(completed_tokens(tokens, trailing_space));
}

/// Completion for the `change` command, whose first positional argument
/// (the device) determines what the others complete to.  `devices` are
/// the block device names; `files` is the file listing for `prefix`.
pub fn complete_change_impl(
    arg_tokens: &Vec<String>,
    trailing_space: bool,
    prefix: &str,
    span_start: usize,
    pos: usize,
    devices: &Vec<String>,
    files: &Vec<(String, bool)>,
) -> (r: Vec<Suggestion>)
    ensures
        r.deep_view() == spec_complete_change(
            arg_tokens.deep_view(),
            trailing_space,
            prefix@,
            span_start as int,
            pos as int,
            devices.deep_view(),
            files.deep_view(),
        ),
{
    let ghost tv = arg_tokens.deep_view();
    let ncomp = if trailing_space || arg_tokens.len() == 0 {
        arg_tokens.len()
    } else {
        arg_tokens.len() - 1
    };
    assert(completed_tokens(tv, trailing_space) =~= tv.take(ncomp as int));
    let dash_f = to_chars("-f");
    let vnc = to_chars("vnc");
    let mut flag_seen = false;
    let mut positionals: Vec<String> = Vec::new();
    let mut t: usize = 0;
    assert(tv.take(0) =~= Seq::<Seq<char>>::empty());
    while t < ncomp
        invariant
            t <= ncomp <= arg_tokens@.len(),
            tv == arg_tokens.deep_view(),
            dash_f@ == "-f"@,
            (flag_seen, positionals.deep_view()) == change_scan(tv.take(t as int)),
        decreases ncomp - t,
    {
        proof {
            assert(tv.take(t + 1).drop_last() =~= tv.take(t as int));
            assert(tv.take(t + 1).last() == tv[t as int]);
        }
        let tok = to_chars(arg_tokens[t].as_str());
        assert(tok@ == tv[t as int]);
        if crate::text::same(&tok, &dash_f) && !flag_seen {
            flag_seen = true;
        } else {
            let ghost before = positionals.deep_view();
            positionals.push(arg_tokens[t].clone());
            assert(positionals.deep_view() =~= before.push(tv[t as int]));
        }
        t = t + 1;
    }
    let ghost ps = positionals.deep_view();
    let idx = positionals.len();
    let is_vnc = if idx > 0 {
        let first = to_chars(positionals[0].as_str());
        crate::text::same(&first, &vnc)
    } else {
        false
    };
    assert(is_vnc == (idx > 0 && ps[0] == "vnc"@));
    let p = to_chars(prefix);
    let mut out: Vec<Suggestion> = Vec::new();
    if !flag_seen && starts_with(&dash_f, &p) {
        out.push(new_sugg(String::from_str("-f"), Some(String::from_str("force")), span_start, pos, true, None));
    }
    let ghost flag = out.deep_view();
    assert(flag =~= (if !flag_seen && is_prefix(prefix@, "-f"@) {
        seq![sugg("-f"@, Some("force"@), span_start as int, pos as int, true, None)]
    } else {
        seq![]
    }));
    if idx == 0 {
        let mut all: Vec<String> = Vec::new();
        let mut i: usize = 0;
        while i < devices.len()
            invariant
                i <= devices@.len(),
                all.deep_view() == devices.deep_view().take(i as int),
            decreases devices@.len() - i,
        {
            let ghost before = all.deep_view();
            let d = devices[i].clone();
            assert(d@ == devices@[i as int]@);
            all.push(d);
            assert(all.deep_view() =~= before.push(devices@[i as int]@));
            assert(devices.deep_view().take(i + 1) =~= devices.deep_view().take(i as int).push(
                devices@[i as int]@,
            ));
            i = i + 1;
        }
        assert(devices.deep_view().take(devices@.len() as int) =~= devices.deep_view());
        let ghost before = all.deep_view();
        all.push(String::from_str("vnc"));
        assert(all.deep_view() =~= before.push("vnc"@));
        assert(all.deep_view() =~= devices.deep_view().push("vnc"@));
        push_prefixed(&mut out, &all, &p, "device", span_start, pos, true);
    } else if idx == 1 {
        if is_vnc {
            let vals: Vec<String> = vec![String::from_str("passwd"), String::from_str("password")];
            assert(vals.deep_view() =~= seq!["passwd"@, "password"@]);
            push_prefixed(&mut out, &vals, &p, "target", span_start, pos, true);
        } else {
            push_files(&mut out, files, "target", span_start, pos);
        }
    } else if idx == 2 {
        if is_vnc {
            out.push(
                new_sugg(
                    String::from_str(prefix),
                    Some(String::from_str("string")),
                    span_start,
                    pos,
                    false,
                    Some(String::from_str("<password>")),
                ),
            );
        } else {
            let vals: Vec<String> = vec![
                String::from_str("qcow2"),
                String::from_str("raw"),
                String::from_str("vmdk"),
                String::from_str("vdi"),
                String::from_str("vhdx"),
                String::from_str("qed"),
                String::from_str("vpc"),
                String::from_str("luks"),
            ];
            assert(vals.deep_view() =~= block_formats());
            push_prefixed(&mut out, &vals, &p, "format", span_start, pos, true);
        }
    } else if idx == 3 && !is_vnc {
        let vals: Vec<String> = vec![
            String::from_str("retain"),
            String::from_str("read-only"),
            String::from_str("read-write"),
        ];
        assert(vals.deep_view() =~= read_only_modes());
        push_prefixed(&mut out, &vals, &p, "read-only-mode", span_start, pos, true);
    }
    assert(out.deep_view() =~= spec_complete_change(
        tv,
        trailing_space,
        prefix@,
        span_start as int,
        pos as int,
        devices.deep_view(),
        files.deep_view(),
    ));
    out
}

/// The pieces of `s` between commas (`str::split(',')`).
pub open spec fn split_commas(s: Seq<char>) -> Seq<Seq<char>>
    decreases s.len(),
{
    if s.len() == 0 {
        seq![seq![]]
    } else {
        let r = split_commas(s.drop_last());
        if s.last() == ',' {
            r.push(seq![])
        } else {
            r.update(r.len() - 1, r.last().push(s.last()))
        }
    }
}

pub proof fn lemma_split_commas_len(s: Seq<char>)
    ensures
        split_commas(s).len() >= 1,
    decreases s.len(),
{
    if s.len() > 0 {
        lemma_split_commas_len(s.drop_last());
    }
}

/// The key of a `key=value` piece.
pub open spec fn eq_key(part: Seq<char>) -> Option<Seq<char>> {
    let e = find_from(part, '=', 0);
    if e < part.len() {
        Some(part.take(e))
    } else {
        None
    }
}

/// The keys of the `key=value` pieces.
pub open spec fn used_keys(parts: Seq<Seq<char>>) -> Seq<Seq<char>>
    decreases parts.len(),
{
    if parts.len() == 0 {
        seq![]
    } else {
        let u = used_keys(parts.drop_last());
        match eq_key(parts.last()) {
            Some(k) => u.push(k),
            None => u,
        }
    }
}

proof fn lemma_used_keys_has(parts: Seq<Seq<char>>, j: int, key: Seq<char>)
    requires
        0 <= j < parts.len(),
        eq_key(parts[j]) == Some(key),
    ensures
        used_keys(parts).contains(key),
    decreases parts.len(),
{
    let u = used_keys(parts.drop_last());
    if j < parts.len() - 1 {
        assert(parts.drop_last()[j] == parts[j]);
        lemma_used_keys_has(parts.drop_last(), j, key);
        let q = choose|q: int| 0 <= q < u.len() && u[q] == key;
        match eq_key(parts.last()) {
            Some(k) => assert(u.push(k)[q] == key),
            None => {},
        }
    } else {
        assert(u.push(key)[u.len() as int] == key);
    }
}

/// A property is never offered twice: while a property key is typed in an
/// `object_add` spec, no property that an earlier `key=value` piece
/// already gives is suggested.
pub proof fn law_object_add_no_repeated_property(
    schema: SchemaView,
    spec: Seq<char>,
    span_start: int,
    pos: int,
    types: Seq<Seq<char>>,
    j: int,
    key: Seq<char>,
)
    requires
        rfind(spec, ',') is Some,
        eq_key(spec.skip(rfind(spec, ',')->0 + 1)) is None,
        0 <= j < split_commas(spec).len(),
        eq_key(split_commas(spec)[j]) == Some(key),
    ensures
        forall|i: int|
            0 <= i < spec_complete_object_add(schema, spec, span_start, pos, types).len()
                ==> #[trigger] spec_complete_object_add(schema, spec, span_start, pos, types)[i].value
                != key + "="@,
{
    let ci = rfind(spec, ',')->0;
    let first_part = spec.take(find_from(spec, ',', 0));
    let typename = match eq_key(first_part) {
        Some(k) => first_part.skip(k.len() + 1int),
        None => first_part,
    };
    let current = spec.skip(ci + 1);
    let props = members_of(schema.object_add_variants, typename);
    let comma = byte_len(spec.take(ci)) as int;
    let used = used_keys(split_commas(spec));
    let p = key_wanted(current, used);
    let f = props.filter(p);
    let r = spec_complete_object_add(schema, spec, span_start, pos, types);
    assert(r == f.map_values(prop_sugg(span_start + comma + 1, pos)));
    lemma_used_keys_has(split_commas(spec), j, key);
    reveal_strlit("=");
    assert forall|i: int| 0 <= i < r.len() implies #[trigger] r[i].value != key + "="@ by {
        props.lemma_filter_pred(p, i);
        assert(r[i].value == f[i].name + "="@);
        if f[i].name + "="@ == key + "="@ {
            assert((f[i].name + "="@).drop_last() =~= f[i].name);
            assert((key + "="@).drop_last() =~= key);
        }
    }
}

pub open spec fn type_sugg(span_start: int, pos: int) -> spec_fn(Seq<char>) -> SuggestionView {
    |t: Seq<char>| sugg(t, None, span_start, pos, false, None)
}

pub open spec fn prop_sugg(span_start: int, pos: int) -> spec_fn(MemberView) -> SuggestionView {
    |m: MemberView| sugg(m.name + "="@, Some(m.display_type), span_start, pos, false, None)
}

/// The suggestions for an `object_add` keyval spec `type,id=str,prop=val,...`
/// that starts at byte `span_start` of the line: type names before the
/// first comma, then property keys not used yet, or the values of an
/// enum property after its `=`.
pub open spec fn spec_complete_object_add(
    schema: SchemaView,
    spec: Seq<char>,
    span_start: int,
    pos: int,
    types: Seq<Seq<char>>,
) -> Seq<SuggestionView> {
    match rfind(spec, ',') {
        None => types.filter(has_prefix(spec)).map_values(type_sugg(span_start, pos)),
        Some(ci) => {
            let first_part = spec.take(find_from(spec, ',', 0));
            let typename = match eq_key(first_part) {
                Some(k) => first_part.skip(k.len() + 1int),
                None => first_part,
            };
            let current = spec.skip(ci + 1);
            let props = members_of(schema.object_add_variants, typename);
            let comma = byte_len(spec.take(ci)) as int;
            match eq_key(current) {
                Some(key) => match find_member(props, key) {
                    Some(m) => match lookup(schema.enums, m.type_id) {
                        Some(vals) => vals.filter(has_prefix(current.skip(key.len() + 1int))).map_values(
                            plain_sugg(
                                m.display_type,
                                span_start + comma + 1 + byte_len(key) + 1,
                                pos,
                                false,
                            ),
                        ),
                        None => seq![],
                    },
                    None => seq![],
                },
                None => props.filter(key_wanted(current, used_keys(split_commas(spec)))).map_values(
                    prop_sugg(span_start + comma + 1, pos),
                ),
            }
        },
    }
}

fn split_commas_exec(v: &Vec<char>) -> (r: Vec<Vec<char>>)
    ensures
        r.deep_view() == split_commas(v@),
{
    let mut parts: Vec<Vec<char>> = Vec::new();
    let mut cur: Vec<char> = Vec::new();
    let mut i: usize = 0;
    assert(v@.take(0) =~= Seq::<char>::empty());
    while i < v.len()
        invariant
            i <= v@.len(),
            parts.deep_view().push(cur@) == split_commas(v@.take(i as int)),
        decreases v@.len() - i,
    {
        let ghost pv = parts.deep_view();
        let ghost cv = cur@;
        proof {
            assert(v@.take(i + 1).drop_last() =~= v@.take(i as int));
            assert(v@.take(i + 1).last() == v@[i as int]);
        }
        if v[i] == ',' {
            let done = cur;
            assert(done.deep_view() =~= cv);
            parts.push(done);
            cur = Vec::new();
            assert(parts.deep_view() =~= pv.push(cv));
            assert(parts.deep_view().push(cur@) =~= pv.push(cv).push(seq![]));
        } else {
            cur.push(v[i]);
            assert(parts.deep_view().push(cur@) =~= pv.push(cv).update(pv.len() as int, cv.push(v@[i as int])));
        }
        i = i + 1;
    }
    assert(v@.take(v@.len() as int) =~= v@);
    let ghost pv = parts.deep_view();
    assert(cur.deep_view() =~= cur@);
    let ghost cv = cur@;
    parts.push(cur);
    assert(parts.deep_view() =~= pv.push(cv));
    parts
}

fn eq_key_exec(part: &Vec<char>) -> (r: Option<Vec<char>>)
    ensures
        match eq_key(part@) {
            Some(k) => r matches Some(x) && x@ == k,
            None => r is None,
        },
        r matches Some(x) ==> x@.len() < part@.len(),
{
    proof {
        lemma_find_from(part@, '=', 0);
    }
    let e = find_char(part, '=');
    if e < part.len() {
        let k = slice_of(part, 0, e);
        assert(k@ =~= part@.take(e as int));
        Some(k)
    } else {
        None
    }
}

fn used_keys_exec(parts: &Vec<Vec<char>>) -> (r: Vec<String>)
    ensures
        r.deep_view() == used_keys(parts.deep_view()),
{
    let ghost dv = parts.deep_view();
    let mut out: Vec<String> = Vec::new();
    let mut i: usize = 0;
    assert(dv.take(0) =~= Seq::<Seq<char>>::empty());
    while i < parts.len()
        invariant
            i <= parts@.len(),
            dv == parts.deep_view(),
            out.deep_view() == used_keys(dv.take(i as int)),
        decreases parts@.len() - i,
    {
        proof {
            assert(dv.take(i + 1).drop_last() =~= dv.take(i as int));
            assert(dv.take(i + 1).last() == dv[i as int]);
            assert(dv[i as int] == parts@[i as int]@);
        }
        match eq_key_exec(&parts[i]) {
            Some(k) => {
                let ghost before = out.deep_view();
                out.push(crate::text::string_from(&k));
                assert(out.deep_view() =~= before.push(k@));
            },
            None => {},
        }
        i = i + 1;
    }
    assert(dv.take(parts@.len() as int) =~= dv);
    out
}

fn type_suggestions(types: &Vec<String>, prefix: &Vec<char>, span_start: usize, pos: usize) -> (r:
    Vec<Suggestion>)
    ensures
        r.deep_view() == types.deep_view().filter(has_prefix(prefix@)).map_values(
            type_sugg(span_start as int, pos as int),
        ),
{
    let ghost dv = types.deep_view();
    let ghost f = type_sugg(span_start as int, pos as int);
    let mut out: Vec<Suggestion> = Vec::new();
    let mut i: usize = 0;
    while i < types.len()
        invariant
            i <= types@.len(),
            dv == types.deep_view(),
            f == type_sugg(span_start as int, pos as int),
            out.deep_view() == dv.take(i as int).filter(has_prefix(prefix@)).map_values(f),
        decreases types@.len() - i,
    {
        proof {
            lemma_filter_map_step(dv, i as int, has_prefix(prefix@), f);
        }
        let t = to_chars(types[i].as_str());
        assert(dv[i as int] == types@[i as int]@);
        if starts_with(&t, prefix) {
            let sg = new_sugg(types[i].clone(), None, span_start, pos, false, None);
            let ghost before = out.deep_view();
            out.push(sg);
            assert(out.deep_view() =~= before.push(f(dv[i as int])));
        }
        i = i + 1;
    }
    assert(dv.take(types@.len() as int) =~= dv);
    out
}

fn prop_suggestions(
    props: &Vec<SchemaMember>,
    current: &Vec<char>,
    used: &Vec<String>,
    key_start: usize,
    pos: usize,
) -> (r: Vec<Suggestion>)
    ensures
        r.deep_view() == props.deep_view().filter(key_wanted(current@, used.deep_view())).map_values(
            prop_sugg(key_start as int, pos as int),
        ),
{
    let ghost dv = props.deep_view();
    let ghost p = key_wanted(current@, used.deep_view());
    let ghost f = prop_sugg(key_start as int, pos as int);
    let mut out: Vec<Suggestion> = Vec::new();
    let mut i: usize = 0;
    while i < props.len()
        invariant
            i <= props@.len(),
            dv == props.deep_view(),
            p == key_wanted(current@, used.deep_view()),
            f == prop_sugg(key_start as int, pos as int),
            out.deep_view() == dv.take(i as int).filter(p).map_values(f),
        decreases props@.len() - i,
    {
        proof {
            lemma_filter_map_step(dv, i as int, p, f);
        }
        let m = &props[i];
        let name = to_chars(m.name.as_str());
        assert(dv[i as int] == m.deep_view());
        if starts_with(&name, current) && !crate::completer::contains_str(used, &name) {
            let mut value = m.name.clone();
            push_char(&mut value, '=');
            proof {
                reveal_strlit("=");
                assert(value@ =~= name@ + "="@);
            }
            let sg = new_sugg(value, Some(m.display_type.clone()), key_start, pos, false, None);
            let ghost before = out.deep_view();
            out.push(sg);
            assert(out.deep_view() =~= before.push(f(dv[i as int])));
        }
        i = i + 1;
    }
    assert(dv.take(props@.len() as int) =~= dv);
    out
}

/// Completion of an `object_add` keyval spec `type,id=str,prop=val,...`
/// that starts at byte `span_start` of the line.  `types` are the names of
/// the user-creatable QOM types; the properties of a type and the values
/// of enums come from `schema`.
#[verifier::spinoff_prover]
pub fn complete_object_add_impl(
    spec: &str,
    span_start: usize,
    pos: usize,
    types: &Vec<String>,
    schema: &SchemaCache,
) -> (r: Vec<Suggestion>)
    requires
        span_start + byte_len(spec@) <= usize::MAX,
    ensures
        r.deep_view() == spec_complete_object_add(
            schema.deep_view(),
            spec@,
            span_start as int,
            pos as int,
            types.deep_view(),
        ),
{
    let v = to_chars(spec);
    let n = v.len();
    let ci = match rfind_char(&v, ',') {
        None => {
            return type_suggestions(types, &v, span_start, pos);
        },
        Some(ci) => ci,
    };
    proof {
        lemma_rfind(v@, ',');
    }
    let fc = find_char(&v, ',');
    let first_part = slice_of(&v, 0, fc);
    assert(first_part@ =~= v@.take(fc as int));
    let typename = match eq_key_exec(&first_part) {
        Some(k) => tail(&first_part, k.len() + 1),
        None => first_part,
    };
    proof {
        if let Some(k) = eq_key(v@.take(fc as int)) {
            lemma_find_from(v@.take(fc as int), '=', 0);
        }
    }
    let current = tail(&v, ci + 1);
    let props = members_copy(&schema.object_add_variants, &typename);
    proof {
        crate::format::lemma_byte_len_sub_pub(v@, 0, ci as int);
        assert(v@.subrange(0, ci as int) =~= v@.take(ci as int));
    }
    let comma = crate::text::utf8_len(&v, 0, ci);
    match eq_key_exec(&current) {
        Some(key) => {
            let mi = match find_member_index(&props, &key) {
                Some(mi) => mi,
                None => {
                    return Vec::new();
                },
            };
            let m = &props[mi];
            let tid = to_chars(m.type_id.as_str());
            match find_entry(&schema.enums, &tid) {
                Some(ei) => {
                    proof {
                        lemma_find_from(current@, '=', 0);
                        crate::format::lemma_byte_len_sub_pub(v@, ci + 1, ci + 1 + key@.len());
                        assert(v@.subrange(ci + 1, ci + 1 + key@.len()) =~= key@);
                        crate::format::lemma_byte_len_sub_pub(v@, 0, ci as int);
                        assert(v@.subrange(0, ci as int) =~= v@.take(ci as int));
                        crate::text::lemma_byte_len_concat(v@.take(ci as int), v@.skip(ci as int));
                        assert(v@.take(ci as int) + v@.skip(ci as int) =~= v@);
                        crate::text::lemma_byte_len_bounds(v@.skip(ci as int));
                        crate::text::lemma_byte_len_concat(v@.subrange(ci as int, ci + 1 + key@.len()), v@.skip(ci + 1 + key@.len()));
                        assert(v@.subrange(ci as int, ci + 1 + key@.len()) + v@.skip(ci + 1 + key@.len()) =~= v@.skip(ci as int));
                        crate::text::lemma_byte_len_concat(seq![v@[ci as int]], key@);
                        assert(seq![v@[ci as int]] + key@ =~= v@.subrange(ci as int, ci + 1 + key@.len()));
                        crate::text::lemma_byte_len_bounds(v@.skip(ci + 1 + key@.len()));
                        assert(v@.skip(ci + 1 + key@.len()).len() >= 1);
                    }
                    let key_len = crate::text::byte_len_of(&key);
                    let val_start = span_start + comma + 1 + key_len + 1;
                    let vp = tail(&current, key.len() + 1);
                    let mut out: Vec<Suggestion> = Vec::new();
                    push_prefixed(&mut out, &schema.enums[ei].1, &vp, m.display_type.as_str(), val_start, pos, false);
                    assert(out.deep_view() =~= Seq::<SuggestionView>::empty() + schema.enums@[ei as int].1.deep_view().filter(has_prefix(vp@)).map_values(plain_sugg(m.display_type@, val_start as int, pos as int, false)));
                    out
                },
                None => Vec::new(),
            }
        },
        None => {
            let parts = split_commas_exec(&v);
            let used = used_keys_exec(&parts);
            proof {
                crate::text::lemma_byte_len_bounds(v@.skip(ci as int));
                crate::text::lemma_byte_len_concat(v@.take(ci as int), v@.skip(ci as int));
                assert(v@.take(ci as int) + v@.skip(ci as int) =~= v@);
            }
            prop_suggestions(&props, &current, &used, span_start + comma + 1, pos)
        },
    }
}

} // verus!
