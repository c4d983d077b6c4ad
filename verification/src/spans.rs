//! Where suggestions apply: every completion replaces text that ends at
//! the cursor.
use vstd::prelude::*;

use crate::arg_completion::{
    candidate_suggestions, def_suggestions, file_sugg, plain_sugg, prop_sugg, spec_complete_args,
    spec_complete_change, spec_complete_object_add, type_sugg,
};
use crate::args::{ArgDefView, ArgTypeView};
use crate::completer::{
    bool_sugg, command_sugg, enum_sugg, key_sugg, spec_complete_json, spec_parse_json_context,
    spec_resolve_members, sugg, value_suggestions, JsonCtxView, JsonParse, MemberView,
    SchemaView, SuggestionView,
};
use crate::hmp_completer::{
    args_step, change_step, generic_step, help_suggestions, info_step, key_name_sugg, name_sugg,
    object_add_step, qom_step, sendkey_suggestions, spec_complete, spec_complete_line, AnswersView,
    CompleterView, StepView,
};
use crate::qom_completion::{
    child_sugg, member_sugg, prop_name_sugg, qom_value_suggestions, spec_complete_qom_path,
    spec_complete_qom_value,
};

verus! {

/// Every suggestion's span ends at `pos`.
pub open spec fn ends_at(r: Seq<SuggestionView>, pos: int) -> bool {
    forall|i: int| 0 <= i < r.len() ==> #[trigger] r[i].end == pos
}

/// A step that, when it is done, offers suggestions ending at `pos`.
pub open spec fn step_ends_at(st: StepView, pos: int) -> bool {
    st matches StepView::Done(r) ==> ends_at(r, pos)
}

proof fn lemma_map_ends<A>(s: Seq<A>, f: spec_fn(A) -> SuggestionView, pos: int)
    requires
        forall|x: A| #[trigger] f(x).end == pos,
    ensures
        ends_at(s.map_values(f), pos),
{
    assert forall|i: int| 0 <= i < s.map_values(f).len() implies #[trigger] s.map_values(f)[i].end
        == pos by {
        assert(s.map_values(f)[i] == f(s[i]));
    }
}

proof fn lemma_concat_ends(a: Seq<SuggestionView>, b: Seq<SuggestionView>, pos: int)
    requires
        ends_at(a, pos),
        ends_at(b, pos),
    ensures
        ends_at(a + b, pos),
{
    assert forall|i: int| 0 <= i < (a + b).len() implies #[trigger] (a + b)[i].end == pos by {
        if i < a.len() {
            assert((a + b)[i] == a[i]);
        } else {
            assert((a + b)[i] == b[i - a.len()]);
        }
    }
}

proof fn lemma_def_ends(
    d: ArgDefView,
    prefix: Seq<char>,
    span_start: int,
    pos: int,
    devices: Seq<Seq<char>>,
    files: Seq<(Seq<char>, bool)>,
)
    ensures
        ends_at(def_suggestions(d, prefix, span_start, pos, devices, files), pos),
{
    let p = plain_sugg(d.name, span_start, pos, true);
    assert forall|x: Seq<char>| #[trigger] p(x).end == pos by {}
    let fs = file_sugg(d.name, span_start, pos);
    assert forall|x: (Seq<char>, bool)| #[trigger] fs(x).end == pos by {}
    match d.arg_type {
        ArgTypeView::Bool => lemma_map_ends(
            seq!["on"@, "off"@].filter(crate::completer::has_prefix(prefix)),
            p,
            pos,
        ),
        ArgTypeView::BlockDevice => lemma_map_ends(
            devices.filter(crate::completer::has_prefix(prefix)),
            p,
            pos,
        ),
        ArgTypeView::Filename => lemma_map_ends(files, fs, pos),
        _ => {},
    }
}

proof fn lemma_candidates_ends(
    defs: Seq<ArgDefView>,
    cands: Seq<int>,
    n: int,
    prefix: Seq<char>,
    span_start: int,
    pos: int,
    devices: Seq<Seq<char>>,
    files: Seq<(Seq<char>, bool)>,
)
    ensures
        ends_at(candidate_suggestions(defs, cands, n, prefix, span_start, pos, devices, files), pos),
    decreases n,
{
    if n > 0 {
        lemma_candidates_ends(defs, cands, n - 1, prefix, span_start, pos, devices, files);
        lemma_def_ends(defs[cands[n - 1]], prefix, span_start, pos, devices, files);
        lemma_concat_ends(
            candidate_suggestions(defs, cands, n - 1, prefix, span_start, pos, devices, files),
            def_suggestions(defs[cands[n - 1]], prefix, span_start, pos, devices, files),
            pos,
        );
    }
}

proof fn lemma_args_ends(
    defs: Seq<ArgDefView>,
    tokens: Seq<Seq<char>>,
    trailing_space: bool,
    prefix: Seq<char>,
    span_start: int,
    pos: int,
    devices: Seq<Seq<char>>,
    files: Seq<(Seq<char>, bool)>,
)
    ensures
        ends_at(
            spec_complete_args(defs, tokens, trailing_space, prefix, span_start, pos, devices, files),
            pos,
        ),
{
    let cands = crate::arg_completion::spec_candidate_defs(defs, tokens, trailing_space);
    lemma_candidates_ends(defs, cands, cands.len() as int, prefix, span_start, pos, devices, files);
}

proof fn lemma_change_ends(
    tokens: Seq<Seq<char>>,
    trailing_space: bool,
    prefix: Seq<char>,
    span_start: int,
    pos: int,
    devices: Seq<Seq<char>>,
    files: Seq<(Seq<char>, bool)>,
)
    ensures
        ends_at(
            spec_complete_change(tokens, trailing_space, prefix, span_start, pos, devices, files),
            pos,
        ),
{
    let hp = crate::completer::has_prefix(prefix);
    let dev = plain_sugg("device"@, span_start, pos, true);
    let tgt = plain_sugg("target"@, span_start, pos, true);
    let fmt = plain_sugg("format"@, span_start, pos, true);
    let rom = plain_sugg("read-only-mode"@, span_start, pos, true);
    let fs = file_sugg("target"@, span_start, pos);
    assert forall|x: Seq<char>| #[trigger] dev(x).end == pos by {}
    assert forall|x: Seq<char>| #[trigger] tgt(x).end == pos by {}
    assert forall|x: Seq<char>| #[trigger] fmt(x).end == pos by {}
    assert forall|x: Seq<char>| #[trigger] rom(x).end == pos by {}
    assert forall|x: (Seq<char>, bool)| #[trigger] fs(x).end == pos by {}
    lemma_map_ends(devices.push("vnc"@).filter(hp), dev, pos);
    lemma_map_ends(seq!["passwd"@, "password"@].filter(hp), tgt, pos);
    lemma_map_ends(files, fs, pos);
    lemma_map_ends(crate::arg_completion::block_formats().filter(hp), fmt, pos);
    lemma_map_ends(crate::arg_completion::read_only_modes().filter(hp), rom, pos);
    let (flag_seen, ps) = crate::arg_completion::change_scan(
        crate::arg_completion::completed_tokens(tokens, trailing_space),
    );
    let flag: Seq<SuggestionView> = if !flag_seen && crate::text::is_prefix(prefix, "-f"@) {
        seq![sugg("-f"@, Some("force"@), span_start, pos, true, None)]
    } else {
        seq![]
    };
    let idx = ps.len();
    let is_vnc = idx > 0 && ps[0] == "vnc"@;
    let rest: Seq<SuggestionView> = if idx == 0 {
        devices.push("vnc"@).filter(hp).map_values(dev)
    } else if idx == 1 {
        if is_vnc {
            seq!["passwd"@, "password"@].filter(hp).map_values(tgt)
        } else {
            files.map_values(fs)
        }
    } else if idx == 2 {
        if is_vnc {
            seq![sugg(prefix, Some("string"@), span_start, pos, false, Some("<password>"@))]
        } else {
            crate::arg_completion::block_formats().filter(hp).map_values(fmt)
        }
    } else if idx == 3 && !is_vnc {
        crate::arg_completion::read_only_modes().filter(hp).map_values(rom)
    } else {
        seq![]
    };
    assert(ends_at(flag, pos));
    assert(ends_at(rest, pos));
    lemma_concat_ends(flag, rest, pos);
    assert(spec_complete_change(tokens, trailing_space, prefix, span_start, pos, devices, files)
        == flag + rest);
}

proof fn lemma_object_add_ends(
    schema: SchemaView,
    spec: Seq<char>,
    span_start: int,
    pos: int,
    types: Seq<Seq<char>>,
)
    ensures
        ends_at(spec_complete_object_add(schema, spec, span_start, pos, types), pos),
{
    let r = spec_complete_object_add(schema, spec, span_start, pos, types);
    let ts = type_sugg(span_start, pos);
    assert forall|x: Seq<char>| #[trigger] ts(x).end == pos by {}
    match crate::text::rfind(spec, ',') {
        None => lemma_map_ends(types.filter(crate::completer::has_prefix(spec)), ts, pos),
        Some(ci) => {
            let first_part = spec.take(crate::text::find_from(spec, ',', 0));
            let typename = match crate::arg_completion::eq_key(first_part) {
                Some(k) => first_part.skip(k.len() + 1int),
                None => first_part,
            };
            let current = spec.skip(ci + 1);
            let props = crate::completer::members_of(schema.object_add_variants, typename);
            let comma = crate::text::byte_len(spec.take(ci)) as int;
            match crate::arg_completion::eq_key(current) {
                Some(key) => match crate::completer::find_member(props, key) {
                    Some(m) => match crate::completer::lookup(schema.enums, m.type_id) {
                        Some(vals) => {
                            let p = plain_sugg(
                                m.display_type,
                                span_start + comma + 1 + crate::text::byte_len(key) + 1,
                                pos,
                                false,
                            );
                            assert forall|x: Seq<char>| #[trigger] p(x).end == pos by {}
                            lemma_map_ends(
                                vals.filter(crate::completer::has_prefix(current.skip(key.len() + 1int))),
                                p,
                                pos,
                            );
                        },
                        None => {},
                    },
                    None => {},
                },
                None => {
                    let p = prop_sugg(span_start + comma + 1, pos);
                    assert forall|x: MemberView| #[trigger] p(x).end == pos by {}
                    lemma_map_ends(
                        props.filter(
                            crate::completer::key_wanted(
                                current,
                                crate::arg_completion::used_keys(
                                    crate::arg_completion::split_commas(spec),
                                ),
                            ),
                        ),
                        p,
                        pos,
                    );
                },
            }
        },
    }
}

proof fn lemma_value_ends(
    schema: SchemaView,
    members: Seq<MemberView>,
    key: Seq<char>,
    prefix: Seq<char>,
    span_start: int,
    pos: int,
    in_quotes: bool,
)
    ensures
        ends_at(value_suggestions(schema, members, key, prefix, span_start, pos, in_quotes), pos),
{
    match crate::completer::find_member(members, key) {
        None => {},
        Some(m) => {
            let e = enum_sugg(m.display_type, in_quotes, span_start, pos);
            let b = bool_sugg(span_start, pos);
            assert forall|x: Seq<char>| #[trigger] e(x).end == pos by {}
            assert forall|x: Seq<char>| #[trigger] b(x).end == pos by {}
            match crate::completer::lookup(schema.enums, m.type_id) {
                Some(vals) => lemma_map_ends(vals.filter(crate::completer::has_prefix(prefix)), e, pos),
                None => lemma_map_ends(
                    seq!["true"@, "false"@].filter(crate::completer::has_prefix(prefix)),
                    b,
                    pos,
                ),
            }
        },
    }
}

proof fn lemma_json_ends(schema: SchemaView, line: Seq<char>, pos: int)
    ensures
        ends_at(spec_complete_json(schema, line, pos), pos),
{
    match spec_parse_json_context(line, pos) {
        JsonParse::Ctx(c) => match c {
            JsonCtxView::CommandName { prefix, span_start } => {
                let f = command_sugg(span_start, pos);
                assert forall|x: Seq<char>| #[trigger] f(x).end == pos by {}
                lemma_map_ends(schema.qmp_commands.filter(crate::completer::has_prefix(prefix)), f, pos);
            },
            JsonCtxView::ArgKey {
                command,
                prefix,
                span_start,
                in_quotes,
                used_keys,
                nesting,
                level_kv,
            } => {
                let f = key_sugg(in_quotes, span_start, pos);
                assert forall|x: MemberView| #[trigger] f(x).end == pos by {}
                lemma_map_ends(
                    spec_resolve_members(schema, command, nesting, level_kv).filter(
                        crate::completer::key_wanted(prefix, used_keys),
                    ),
                    f,
                    pos,
                );
            },
            JsonCtxView::ArgValue { command, key, prefix, span_start, in_quotes, nesting, level_kv } => {
                lemma_value_ends(
                    schema,
                    spec_resolve_members(schema, command, nesting, level_kv),
                    key,
                    prefix,
                    span_start,
                    pos,
                    in_quotes,
                );
            },
            _ => {},
        },
        _ => {},
    }
}

proof fn lemma_qom_path_ends(
    partial: Seq<char>,
    span_start: int,
    pos: int,
    props: Seq<(Seq<char>, Seq<char>)>,
)
    ensures
        ends_at(spec_complete_qom_path(partial, span_start, pos, props), pos),
{
    if partial.len() > 0 {
        match crate::qom_completion::qom_split(partial) {
            None => {},
            Some((parent, prefix)) => {
                let f = child_sugg(parent, span_start, pos);
                assert forall|x: (Seq<char>, Seq<char>)| #[trigger] f(x).end == pos by {}
                lemma_map_ends(props.filter(crate::qom_completion::is_child_with(prefix)), f, pos);
            },
        }
    }
}

proof fn lemma_qom_value_ends(schema: SchemaView, ty: Seq<char>, prefix: Seq<char>, span_start: int, pos: int)
    ensures
        ends_at(qom_value_suggestions(schema, ty, prefix, span_start, pos), pos),
{
    let p = plain_sugg(ty, span_start, pos, true);
    let m = member_sugg(span_start, pos);
    assert forall|x: Seq<char>| #[trigger] p(x).end == pos by {}
    assert forall|x: MemberView| #[trigger] m(x).end == pos by {}
    let hp = crate::completer::has_prefix(prefix);
    if ty == "bool"@ {
        lemma_map_ends(seq!["true"@, "false"@].filter(hp), p, pos);
    } else {
        match crate::completer::lookup(schema.enums, ty) {
            Some(vals) => lemma_map_ends(vals.filter(hp), p, pos),
            None => match crate::completer::lookup(schema.object_types, ty) {
                Some(ms) => lemma_map_ends(ms.filter(crate::qom_completion::member_with(prefix)), m, pos),
                None => {},
            },
        }
    }
}

proof fn lemma_args_step_ends(
    defs: Seq<ArgDefView>,
    after: Seq<char>,
    pos: int,
    extra: Seq<Seq<char>>,
    ans: AnswersView,
)
    ensures
        step_ends_at(args_step(defs, after, pos, extra, ans), pos),
{
    let tokens = crate::text::words(after);
    let trailing = after.len() == 0 || crate::hmp_completer::ends_space(after);
    let partial = crate::hmp_completer::token_partial(tokens, trailing);
    lemma_args_ends(
        defs,
        tokens,
        trailing,
        partial,
        pos - crate::text::byte_len(partial),
        pos,
        crate::hmp_completer::devices_of(ans) + extra,
        crate::hmp_completer::files_of(ans),
    );
}

proof fn lemma_qom_step_ends(c: CompleterView, cmd: Seq<char>, after: Seq<char>, pos: int, ans: AnswersView)
    ensures
        qom_step(c, cmd, after, pos, ans) matches Some(st) ==> step_ends_at(st, pos),
{
    let aw = crate::text::words(after);
    let trailing = crate::hmp_completer::ends_space(after);
    let partial = crate::hmp_completer::token_partial(aw, trailing);
    let ss = pos - crate::text::byte_len(partial);
    let ps = crate::arg_completion::completed_tokens(aw, trailing).filter(
        crate::hmp_completer::not_flag(),
    );
    lemma_qom_path_ends(partial, ss, pos, seq![]);
    match ans.qom_list {
        Some(props) => {
            lemma_qom_path_ends(partial, ss, pos, props);
            let f = prop_name_sugg(ss, pos);
            assert forall|x: (Seq<char>, Seq<char>)| #[trigger] f(x).end == pos by {}
            lemma_map_ends(props.filter(crate::qom_completion::name_with(partial)), f, pos);
            if ps.len() == 2 {
                match crate::qom_completion::prop_type(props, ps[1]) {
                    Some(ty) => lemma_qom_value_ends(c.schema, ty, partial, ss, pos),
                    None => {},
                }
            }
        },
        None => {},
    }
}

proof fn lemma_help_ends(c: CompleterView, after: Seq<char>, pos: int)
    ensures
        ends_at(help_suggestions(c, after, pos), pos),
{
    let hw = crate::text::words(after);
    let partial1: Seq<char> = if hw.len() == 2 {
        hw[1]
    } else {
        seq![]
    };
    let partial0: Seq<char> = if hw.len() > 0 {
        hw[0]
    } else {
        seq![]
    };
    let f1 = name_sugg(pos - crate::text::byte_len(partial1), pos);
    let f0 = name_sugg(pos - crate::text::byte_len(partial0), pos);
    assert forall|x: Seq<char>| #[trigger] f1(x).end == pos by {}
    assert forall|x: Seq<char>| #[trigger] f0(x).end == pos by {}
    lemma_map_ends(c.info_names.filter(crate::completer::has_prefix(partial1)), f1, pos);
    lemma_map_ends(
        (c.main_names + c.info_names).filter(crate::completer::has_prefix(partial0)),
        f0,
        pos,
    );
}

proof fn lemma_sendkey_ends(c: CompleterView, after: Seq<char>, pos: int)
    ensures
        ends_at(sendkey_suggestions(c, after, pos), pos),
{
    let aw = crate::text::words(after);
    let keys: Seq<char> = if aw.len() > 0 {
        aw[0]
    } else {
        seq![]
    };
    let (keep, partial) = match crate::text::rfind(keys, '-') {
        Some(i) => (keys.take(i + 1), keys.skip(i + 1)),
        None => (seq![], keys),
    };
    let f = key_name_sugg(keep, pos - crate::text::byte_len(partial), pos);
    assert forall|x: Seq<char>| #[trigger] f(x).end == pos by {}
    lemma_map_ends(c.sendkey_names.filter(crate::completer::has_prefix(partial)), f, pos);
}

proof fn lemma_info_ends(c: CompleterView, l: Seq<char>, pos: int, ans: AnswersView)
    ensures
        step_ends_at(info_step(c, l, pos, ans), pos),
{
    let prefix = crate::text::trim_start(l.skip(5));
    let f = name_sugg(pos - crate::text::byte_len(prefix), pos);
    assert forall|x: Seq<char>| #[trigger] f(x).end == pos by {}
    lemma_map_ends(c.info_names.filter(crate::completer::has_prefix(prefix)), f, pos);
    if prefix.contains(' ') {
        let sub = crate::text::words(prefix)[0];
        match crate::completer::lookup(c.info_arg_defs, sub) {
            None => {},
            Some(defs) => lemma_args_step_ends(
                defs,
                crate::text::trim_start(prefix.skip(sub.len() as int)),
                pos,
                seq![],
                ans,
            ),
        }
    }
}

/// Every suggestion replaces text that ends at the cursor: whatever the
/// line, the cursor and the answers, a finished completion offers only
/// suggestions whose span ends at the cursor's byte offset.
pub proof fn law_suggestions_end_at_cursor(c: CompleterView, line: Seq<char>, pos: int, ans: AnswersView)
    ensures
        step_ends_at(spec_complete(c, line, pos, ans), pos),
{
    let l = line.take(crate::hmp_completer::byte_cut(line, pos)->0);
    if crate::hmp_completer::json_line(l) {
        lemma_json_ends(c.schema, l, pos);
    } else if crate::text::is_prefix("info "@, l) {
        lemma_info_ends(c, l, pos, ans);
    } else {
        let cmd = crate::hmp_completer::first_word(l);
        if !l.contains(' ') {
            let f = name_sugg(0, pos);
            assert forall|x: Seq<char>| #[trigger] f(x).end == pos by {}
            lemma_map_ends(c.main_names.filter(crate::completer::has_prefix(cmd)), f, pos);
        } else {
            let after = crate::hmp_completer::after_word(l, cmd);
            lemma_help_ends(c, after, pos);
            lemma_qom_step_ends(c, cmd, after, pos, ans);
            lemma_sendkey_ends(c, after, pos);
            lemma_object_add_ends(
                c.schema,
                after,
                pos - crate::text::byte_len(after),
                pos,
                crate::hmp_completer::types_of(ans),
            );
            let tokens = crate::text::words(after);
            let trailing = after.len() == 0 || crate::hmp_completer::ends_space(after);
            let partial = crate::hmp_completer::token_partial(tokens, trailing);
            lemma_change_ends(
                tokens,
                trailing,
                partial,
                pos - crate::text::byte_len(partial),
                pos,
                crate::hmp_completer::devices_of(ans),
                crate::hmp_completer::files_of(ans),
            );
            match crate::completer::lookup(c.main_arg_defs, cmd) {
                None => {},
                Some(defs) => lemma_args_step_ends(
                    defs,
                    crate::hmp_completer::after_word(l, cmd),
                    pos,
                    if cmd == "commit"@ {
                        seq!["all"@]
                    } else {
                        seq![]
                    },
                    ans,
                ),
            }
        }
    }
}

} // verus!
