//! Syntax colouring of the HMP input line.
use vstd::prelude::*;

use crate::text::{
    find_char, find_from, lemma_find_from, lemma_lead_ws, lemma_rfind, rfind, rfind_char,
    slice_of, string_from, tail, to_chars, trim_start, trim_start_v,
};

verus! {

/// How a piece of the line is shown.
#[derive(Debug, Clone, Copy, PartialEq, Eq)]
pub enum SegStyle {
    /// A command or subcommand name (blue).
    Command,
    /// The key of a `key=value` argument (dark grey).
    Key,
    /// Anything else, unstyled.
    Plain,
}

impl DeepView for SegStyle {
    type V = SegStyle;

    open spec fn deep_view(&self) -> SegStyle {
        *self
    }
}

/// The pieces of an argument text: each `key` of `key=value` apart from
/// what surrounds it.
pub open spec fn args_segments(r: Seq<char>) -> Seq<(SegStyle, Seq<char>)>
    decreases r.len(),
{
    if r.len() == 0 {
        seq![]
    } else {
        let eq = find_from(r, '=', 0);
        if eq < 0 || eq >= r.len() {
            seq![(SegStyle::Plain, r)]
        } else {
            let before = r.take(eq);
            let c = find_from(before, ',', 0);
            if c >= before.len() {
                let ks = match rfind(before, ' ') {
                    Some(i) => i + 1,
                    None => 0,
                };
                let after = r.skip(eq);
                let ve = find_from(after, ',', 1);
                proof {
                    lemma_find_from(after, ',', 1);
                }
                (if ks > 0 {
                    seq![(SegStyle::Plain, r.take(ks))]
                } else {
                    seq![]
                }) + seq![(SegStyle::Key, r.subrange(ks, eq)), (SegStyle::Plain, after.take(ve))]
                    + args_segments(r.skip(eq + ve))
            } else {
                proof {
                    lemma_find_from(before, ',', 0);
                }
                seq![(SegStyle::Plain, r.take(c + 1))] + args_segments(r.skip(c + 1))
            }
        }
    }
}

/// The pieces of the whole line: the command name, then for `info` and
/// `help` the subcommand name, then the arguments.
pub open spec fn line_segments(line: Seq<char>) -> Seq<(SegStyle, Seq<char>)> {
    let sp = find_from(line, ' ', 0);
    let cmd = line.take(sp);
    let rest = line.skip(sp);
    if rest.len() == 0 {
        seq![(SegStyle::Command, cmd)]
    } else if cmd == "info"@ || cmd == "help"@ {
        let trimmed = trim_start(rest);
        let leading = rest.take(rest.len() - trimmed.len());
        let sp2 = find_from(trimmed, ' ', 0);
        let after = trimmed.skip(sp2);
        seq![
            (SegStyle::Command, cmd),
            (SegStyle::Plain, leading),
            (SegStyle::Command, trimmed.take(sp2)),
        ] + args_segments(after)
    } else {
        seq![(SegStyle::Command, cmd)] + args_segments(rest)
    }
}

fn push_seg(out: &mut Vec<(SegStyle, String)>, st: SegStyle, v: &Vec<char>, a: usize, b: usize)
    requires
        a <= b <= v@.len(),
    ensures
        final(out).deep_view() == old(out).deep_view().push((st, v@.subrange(a as int, b as int))),
{
    let s = crate::text::string_of(v.as_slice(), a, b);
    let ghost o = out.deep_view();
    out.push((st, s));
    assert(out.deep_view() =~= o.push((st, v@.subrange(a as int, b as int))));
}

/// Appends the pieces of an argument text.
fn highlight_args(out: &mut Vec<(SegStyle, String)>, text: &Vec<char>)
    ensures
        final(out).deep_view() == old(out).deep_view() + args_segments(text@),
{
    let mut pos: usize = 0;
    assert(text@.skip(0) =~= text@);
    while pos < text.len()
        invariant
            pos <= text@.len(),
            old(out).deep_view() + args_segments(text@) == out.deep_view() + args_segments(
                text@.skip(pos as int),
            ),
        decreases text@.len() - pos,
    {
        let rem = tail(text, pos);
        let ghost o = out.deep_view();
        let eq = find_char(&rem, '=');
        if eq >= rem.len() {
            push_seg(out, SegStyle::Plain, text, pos, text.len());
            assert(text@.subrange(pos as int, text@.len() as int) =~= rem@);
            assert(text@.skip(text@.len() as int) =~= Seq::<char>::empty());
            pos = text.len();
            assert(o + args_segments(rem@) =~= out.deep_view() + args_segments(text@.skip(pos as int)));
        } else {
            let before = slice_of(&rem, 0, eq);
            assert(before@ =~= rem@.take(eq as int));
            let c = find_char(&before, ',');
            proof {
                lemma_find_from(rem@, '=', 0);
                lemma_find_from(before@, ',', 0);
            }
            if c >= before.len() {
                proof {
                    lemma_rfind(before@, ' ');
                }
                let ks = match rfind_char(&before, ' ') {
                    Some(i) => i + 1,
                    None => 0,
                };
                let after = tail(&rem, eq);
                proof {
                    lemma_find_from(after@, ',', 1);
                    lemma_find_from(after@, ',', 0);
                    assert(after@[0] == '=');
                }
                let ve = find_char(&after, ',');
                assert(ve == find_from(after@, ',', 1));
                if ks > 0 {
                    push_seg(out, SegStyle::Plain, &rem, 0, ks);
                    assert(rem@.subrange(0, ks as int) =~= rem@.take(ks as int));
                }
                push_seg(out, SegStyle::Key, &rem, ks, eq);
                push_seg(out, SegStyle::Plain, &after, 0, ve);
                assert(after@.subrange(0, ve as int) =~= after@.take(ve as int));
                proof {
                    assert(text@.skip(pos as int).skip(eq + ve) =~= text@.skip(pos + eq + ve));
                }
                pos = pos + eq + ve;
            } else {
                push_seg(out, SegStyle::Plain, &rem, 0, c + 1);
                assert(rem@.subrange(0, c + 1) =~= rem@.take(c + 1));
                proof {
                    assert(text@.skip(pos as int).skip(c + 1) =~= text@.skip(pos + c + 1));
                }
                pos = pos + c + 1;
            }
        }
    }
    assert(text@.skip(text@.len() as int) =~= Seq::<char>::empty());
    assert(out.deep_view() + Seq::<(SegStyle, Seq<char>)>::empty() =~= out.deep_view());
}

/// The coloured pieces of the input line: the command name in blue, the
/// subcommand of `info` and `help` in blue, and the keys of `key=value`
/// arguments in dark grey.
pub fn highlight(line: &str) -> (r: Vec<(SegStyle, String)>)
    ensures
        r.deep_view() == line_segments(line@),
{
    let v = to_chars(line);
    let sp = find_char(&v, ' ');
    let mut out: Vec<(SegStyle, String)> = Vec::new();
    push_seg(&mut out, SegStyle::Command, &v, 0, sp);
    assert(v@.subrange(0, sp as int) =~= v@.take(sp as int));
    let rest = tail(&v, sp);
    if rest.len() == 0 {
        return out;
    }
    let cmd = slice_of(&v, 0, sp);
    if crate::text::same(&cmd, &to_chars("info")) || crate::text::same(&cmd, &to_chars("help")) {
        let trimmed = trim_start_v(&rest);
        proof {
            lemma_lead_ws(rest@);
        }
        let lead = rest.len() - trimmed.len();
        push_seg(&mut out, SegStyle::Plain, &rest, 0, lead);
        assert(rest@.subrange(0, lead as int) =~= rest@.take(lead as int));
        let sp2 = find_char(&trimmed, ' ');
        push_seg(&mut out, SegStyle::Command, &trimmed, 0, sp2);
        assert(trimmed@.subrange(0, sp2 as int) =~= trimmed@.take(sp2 as int));
        let after = tail(&trimmed, sp2);
        let ghost o = out.deep_view();
        highlight_args(&mut out, &after);
        if after.len() == 0 {
            assert(args_segments(after@) =~= Seq::<(SegStyle, Seq<char>)>::empty());
        }
        assert(out.deep_view() =~= line_segments(line@));
        return out;
    }
    highlight_args(&mut out, &rest);
    assert(out.deep_view() =~= line_segments(line@));
    out
}


/// The text of a list of pieces, put back together.
pub open spec fn seg_text(segs: Seq<(SegStyle, Seq<char>)>) -> Seq<char>
    decreases segs.len(),
{
    if segs.len() == 0 {
        seq![]
    } else {
        seg_text(segs.drop_last()) + segs.last().1
    }
}

pub proof fn lemma_seg_text_concat(a: Seq<(SegStyle, Seq<char>)>, b: Seq<(SegStyle, Seq<char>)>)
    ensures
        seg_text(a + b) == seg_text(a) + seg_text(b),
    decreases b.len(),
{
    if b.len() == 0 {
        assert(a + b =~= a);
    } else {
        assert((a + b).drop_last() =~= a + b.drop_last());
        lemma_seg_text_concat(a, b.drop_last());
    }
}

proof fn lemma_seg_text_one(st: SegStyle, t: Seq<char>)
    ensures
        seg_text(seq![(st, t)]) == t,
{
    let e = Seq::<(SegStyle, Seq<char>)>::empty();
    assert(seq![(st, t)].drop_last() =~= e);
    assert(seg_text(e) == Seq::<char>::empty());
    assert(Seq::<char>::empty() + t =~= t);
}

proof fn lemma_args_text(r: Seq<char>)
    ensures
        seg_text(args_segments(r)) == r,
    decreases r.len(),
{
    if r.len() == 0 {
    } else {
        let eq = find_from(r, '=', 0);
        lemma_find_from(r, '=', 0);
        if eq < 0 || eq >= r.len() {
            lemma_seg_text_one(SegStyle::Plain, r);
        } else {
            let before = r.take(eq);
            let c = find_from(before, ',', 0);
            lemma_find_from(before, ',', 0);
            if c >= before.len() {
                lemma_rfind(before, ' ');
                let ks = match rfind(before, ' ') {
                    Some(i) => i + 1,
                    None => 0,
                };
                let after = r.skip(eq);
                let ve = find_from(after, ',', 1);
                lemma_find_from(after, ',', 1);
                let first: Seq<(SegStyle, Seq<char>)> = if ks > 0 {
                    seq![(SegStyle::Plain, r.take(ks))]
                } else {
                    seq![]
                };
                let mid = seq![(SegStyle::Key, r.subrange(ks, eq)), (SegStyle::Plain, after.take(ve))];
                let rest = args_segments(r.skip(eq + ve));
                lemma_args_text(r.skip(eq + ve));
                lemma_seg_text_concat(first + mid, rest);
                lemma_seg_text_concat(first, mid);
                lemma_seg_text_concat(
                    seq![(SegStyle::Key, r.subrange(ks, eq))],
                    seq![(SegStyle::Plain, after.take(ve))],
                );
                assert(mid =~= seq![(SegStyle::Key, r.subrange(ks, eq))] + seq![(SegStyle::Plain, after.take(ve))]);
                lemma_seg_text_one(SegStyle::Key, r.subrange(ks, eq));
                lemma_seg_text_one(SegStyle::Plain, after.take(ve));
                if ks > 0 {
                    lemma_seg_text_one(SegStyle::Plain, r.take(ks));
                    assert(r.take(ks) + r.subrange(ks, eq) + after.take(ve) + r.skip(eq + ve) =~= r);
                } else {
                    assert(seg_text(first) =~= Seq::<char>::empty());
                    assert(r.subrange(ks, eq) + after.take(ve) + r.skip(eq + ve) =~= r);
                }
            } else {
                lemma_args_text(r.skip(c + 1));
                lemma_seg_text_concat(seq![(SegStyle::Plain, r.take(c + 1))], args_segments(r.skip(c + 1)));
                lemma_seg_text_one(SegStyle::Plain, r.take(c + 1));
                assert(r.take(c + 1) + r.skip(c + 1) =~= r);
            }
        }
    }
}

/// Colouring never changes the text: the pieces of a line, put back
/// together in order, are the line itself.
pub proof fn law_highlight_keeps_text(line: Seq<char>)
    ensures
        seg_text(line_segments(line)) == line,
{
    let sp = find_from(line, ' ', 0);
    lemma_find_from(line, ' ', 0);
    let cmd = line.take(sp);
    let rest = line.skip(sp);
    lemma_seg_text_one(SegStyle::Command, cmd);
    if rest.len() == 0 {
        assert(cmd =~= line);
    } else if cmd == "info"@ || cmd == "help"@ {
        let trimmed = trim_start(rest);
        lemma_lead_ws(rest);
        let leading = rest.take(rest.len() - trimmed.len());
        let sp2 = find_from(trimmed, ' ', 0);
        lemma_find_from(trimmed, ' ', 0);
        let after = trimmed.skip(sp2);
        let head = seq![
            (SegStyle::Command, cmd),
            (SegStyle::Plain, leading),
            (SegStyle::Command, trimmed.take(sp2)),
        ];
        lemma_args_text(after);
        lemma_seg_text_concat(head, args_segments(after));
        let h1 = seq![(SegStyle::Command, cmd)];
        let h2 = seq![(SegStyle::Plain, leading)];
        let h3 = seq![(SegStyle::Command, trimmed.take(sp2))];
        assert(head =~= h1 + h2 + h3);
        lemma_seg_text_concat(h1 + h2, h3);
        lemma_seg_text_concat(h1, h2);
        lemma_seg_text_one(SegStyle::Plain, leading);
        lemma_seg_text_one(SegStyle::Command, trimmed.take(sp2));
        assert(seg_text(head) =~= cmd + leading + trimmed.take(sp2));
        assert(cmd + leading + trimmed.take(sp2) + after =~= line);
    } else {
        lemma_args_text(rest);
        lemma_seg_text_concat(seq![(SegStyle::Command, cmd)], args_segments(rest));
        assert(cmd + rest =~= line);
    }
}

/// A key piece is one token: no space, comma or `=` in it.
pub open spec fn key_token(t: Seq<char>) -> bool {
    forall|i: int| 0 <= i < t.len() ==> #[trigger] t[i] != ' ' && t[i] != ',' && t[i] != '='
}

pub open spec fn keys_are_tokens(segs: Seq<(SegStyle, Seq<char>)>) -> bool {
    forall|i: int| 0 <= i < segs.len() && #[trigger] segs[i].0 == SegStyle::Key ==> key_token(segs[i].1)
}

proof fn lemma_keys_concat(a: Seq<(SegStyle, Seq<char>)>, b: Seq<(SegStyle, Seq<char>)>)
    requires
        keys_are_tokens(a),
        keys_are_tokens(b),
    ensures
        keys_are_tokens(a + b),
{
    assert forall|i: int| 0 <= i < (a + b).len() && #[trigger] (a + b)[i].0 == SegStyle::Key implies key_token((a + b)[i].1) by {
        if i < a.len() {
            assert((a + b)[i] == a[i]);
        } else {
            assert((a + b)[i] == b[i - a.len()]);
        }
    }
}

proof fn lemma_args_keys(r: Seq<char>)
    ensures
        keys_are_tokens(args_segments(r)),
    decreases r.len(),
{
    if r.len() > 0 {
        let eq = find_from(r, '=', 0);
        lemma_find_from(r, '=', 0);
        if 0 <= eq < r.len() {
            let before = r.take(eq);
            let c = find_from(before, ',', 0);
            lemma_find_from(before, ',', 0);
            if c >= before.len() {
                lemma_rfind(before, ' ');
                let ks = match rfind(before, ' ') {
                    Some(i) => i + 1,
                    None => 0,
                };
                let after = r.skip(eq);
                let ve = find_from(after, ',', 1);
                lemma_find_from(after, ',', 1);
                let first: Seq<(SegStyle, Seq<char>)> = if ks > 0 {
                    seq![(SegStyle::Plain, r.take(ks))]
                } else {
                    seq![]
                };
                let key = r.subrange(ks, eq);
                assert(key_token(key)) by {
                    assert forall|i: int| 0 <= i < key.len() implies #[trigger] key[i] != ' ' && key[i] != ',' && key[i] != '=' by {
                        assert(key[i] == before[ks + i]);
                        assert(before[ks + i] == r[ks + i]);
                    }
                }
                let mid = seq![(SegStyle::Key, key), (SegStyle::Plain, after.take(ve))];
                assert(keys_are_tokens(first));
                assert(keys_are_tokens(mid));
                lemma_args_keys(r.skip(eq + ve));
                lemma_keys_concat(first, mid);
                lemma_keys_concat(first + mid, args_segments(r.skip(eq + ve)));
            } else {
                lemma_args_keys(r.skip(c + 1));
                let head = seq![(SegStyle::Plain, r.take(c + 1))];
                assert(keys_are_tokens(head));
                lemma_keys_concat(head, args_segments(r.skip(c + 1)));
            }
        } else {
            assert(keys_are_tokens(seq![(SegStyle::Plain, r)]));
        }
    }
}

/// Keys are single tokens: every piece coloured as a key has no space,
/// comma or `=` in it.
pub proof fn law_keys_are_tokens(line: Seq<char>)
    ensures
        keys_are_tokens(line_segments(line)),
{
    let sp = find_from(line, ' ', 0);
    let cmd = line.take(sp);
    let rest = line.skip(sp);
    if rest.len() == 0 {
        assert(keys_are_tokens(seq![(SegStyle::Command, cmd)]));
    } else if cmd == "info"@ || cmd == "help"@ {
        let trimmed = trim_start(rest);
        let leading = rest.take(rest.len() - trimmed.len());
        let sp2 = find_from(trimmed, ' ', 0);
        let head = seq![
            (SegStyle::Command, cmd),
            (SegStyle::Plain, leading),
            (SegStyle::Command, trimmed.take(sp2)),
        ];
        assert(keys_are_tokens(head));
        lemma_args_keys(trimmed.skip(sp2));
        lemma_keys_concat(head, args_segments(trimmed.skip(sp2)));
    } else {
        assert(keys_are_tokens(seq![(SegStyle::Command, cmd)]));
        lemma_args_keys(rest);
        lemma_keys_concat(seq![(SegStyle::Command, cmd)], args_segments(rest));
    }
}

} // verus!
