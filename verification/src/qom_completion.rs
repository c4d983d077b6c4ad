//! Completion of QOM paths, properties and property values.
use vstd::prelude::*;

use crate::arg_completion::{plain_sugg, push_prefixed};
use crate::completer::{
    find_entry, has_prefix, lemma_filter_map_step, lookup, new_sugg, sugg, MemberView,
    SchemaCache, SchemaMember, SchemaView, Suggestion, SuggestionView,
};
use crate::text::{
    is_prefix, lemma_rfind, push_char, push_str, rfind, rfind_char, same, slice_of, starts_with,
    string_from, tail, to_chars,
};

verus! {

/// `s` without its trailing `c` characters (`str::trim_end_matches`).
pub open spec fn trim_end_char(s: Seq<char>, c: char) -> Seq<char>
    decreases s.len(),
{
    if s.len() > 0 && s.last() == c {
        trim_end_char(s.drop_last(), c)
    } else {
        s
    }
}

/// The parent path and the child-name prefix of a partial QOM path:
/// "/machine/un" gives ("/machine", "un"), "/machine/" gives
/// ("/machine", ""), a path without '/' gives nothing.
pub open spec fn qom_split(partial: Seq<char>) -> Option<(Seq<char>, Seq<char>)> {
    if partial.len() > 0 && partial.last() == '/' {
        Some((trim_end_char(partial, '/'), seq![]))
    } else {
        match rfind(partial, '/') {
            Some(i) => Some((partial.take(i), partial.skip(i + 1))),
            None => None,
        }
    }
}

/// The path that is listed for a parent: the root when it is empty.
pub open spec fn list_path(parent: Seq<char>) -> Seq<char> {
    if parent.len() == 0 {
        "/"@
    } else {
        parent
    }
}

/// The QOM path whose children completing `partial` needs, if any.
pub open spec fn spec_qom_path_query(partial: Seq<char>) -> Option<Seq<char>> {
    if partial.len() == 0 {
        None
    } else {
        match qom_split(partial) {
            Some((parent, _)) => Some(list_path(parent)),
            None => None,
        }
    }
}

pub open spec fn is_child_with(prefix: Seq<char>) -> spec_fn((Seq<char>, Seq<char>)) -> bool {
    |p: (Seq<char>, Seq<char>)| is_prefix("child<"@, p.1) && is_prefix(prefix, p.0)
}

pub open spec fn child_path(parent: Seq<char>, name: Seq<char>) -> Seq<char> {
    if parent.len() == 0 {
        "/"@ + name
    } else {
        parent + "/"@ + name
    }
}

pub open spec fn child_sugg(parent: Seq<char>, span_start: int, pos: int) -> spec_fn((Seq<char>, Seq<char>)) -> SuggestionView {
    |p: (Seq<char>, Seq<char>)| sugg(child_path(parent, p.0), None, span_start, pos, false, None)
}

/// The suggestions for a partial QOM path, given the properties (name,
/// type) of the path that `spec_qom_path_query` names: the child
/// properties whose name starts with the prefix.
pub open spec fn spec_complete_qom_path(
    partial: Seq<char>,
    span_start: int,
    pos: int,
    props: Seq<(Seq<char>, Seq<char>)>,
) -> Seq<SuggestionView> {
    if partial.len() == 0 {
        seq![sugg("/"@, None, span_start, pos, false, None)]
    } else {
        match qom_split(partial) {
            None => seq![],
            Some((parent, prefix)) => props.filter(is_child_with(prefix)).map_values(
                child_sugg(parent, span_start, pos),
            ),
        }
    }
}

fn trim_end_slash(v: &Vec<char>) -> (r: Vec<char>)
    ensures
        r@ == trim_end_char(v@, '/'),
{
    let mut n = v.len();
    assert(v@.take(n as int) =~= v@);
    while n > 0 && v[n - 1] == '/'
        invariant
            n <= v@.len(),
            trim_end_char(v@, '/') == trim_end_char(v@.take(n as int), '/'),
        decreases n,
    {
        assert(v@.take(n as int).drop_last() =~= v@.take(n - 1));
        n = n - 1;
    }
    let r = slice_of(v, 0, n);
    assert(r@ =~= v@.take(n as int));
    r
}

fn qom_split_exec(p: &Vec<char>) -> (r: Option<(Vec<char>, Vec<char>)>)
    ensures
        match qom_split(p@) {
            Some((a, b)) => r matches Some((x, y)) && x@ == a && y@ == b,
            None => r is None,
        },
{
    if p.len() > 0 && p[p.len() - 1] == '/' {
        return Some((trim_end_slash(p), Vec::new()));
    }
    proof {
        lemma_rfind(p@, '/');
    }
    match rfind_char(p, '/') {
        Some(i) => {
            let a = slice_of(p, 0, i);
            assert(a@ =~= p@.take(i as int));
            Some((a, tail(p, i + 1)))
        },
        None => None,
    }
}

/// The QOM path to list for completing `partial`: `None` when no listing
/// is needed.
pub fn qom_path_query(partial: &str) -> (r: Option<String>)
    ensures
        r.deep_view() == spec_qom_path_query(partial@),
{
    let v = to_chars(partial);
    if v.len() == 0 {
        return None;
    }
    match qom_split_exec(&v) {
        Some((parent, _)) => {
            if parent.len() == 0 {
                Some(String::from_str("/"))
            } else {
                Some(string_from(&parent))
            }
        },
        None => None,
    }
}

/// Completing a QOM path only ever extends it: unless the typed path ends
/// in two slashes, every path offered begins with the typed one and names
/// a child of its parent.
pub proof fn law_qom_path_extends(
    partial: Seq<char>,
    span_start: int,
    pos: int,
    props: Seq<(Seq<char>, Seq<char>)>,
)
    requires
        partial.len() > 0,
        !(partial.len() >= 2 && partial.last() == '/' && partial[partial.len() - 2] == '/'),
    ensures
        forall|i: int|
            0 <= i < spec_complete_qom_path(partial, span_start, pos, props).len() ==> is_prefix(
                partial,
                #[trigger] spec_complete_qom_path(partial, span_start, pos, props)[i].value,
            ),
{
    reveal_strlit("/");
    let r = spec_complete_qom_path(partial, span_start, pos, props);
    match qom_split(partial) {
        None => {},
        Some((parent, prefix)) => {
            let p = is_child_with(prefix);
            let f = props.filter(p);
            assert(r == f.map_values(child_sugg(parent, span_start, pos)));
            if partial.last() == '/' {
                let d = partial.drop_last();
                assert(trim_end_char(d, '/') == d);
                assert(parent == d);
            } else {
                lemma_rfind(partial, '/');
            }
            assert forall|i: int| 0 <= i < r.len() implies is_prefix(partial, #[trigger] r[i].value) by {
                props.lemma_filter_pred(p, i);
                let name = f[i].0;
                assert(is_prefix(prefix, name));
                let v = child_path(parent, name);
                assert(r[i].value == v);
                if partial.last() == '/' {
                    assert(partial =~= parent + "/"@);
                } else {
                    assert(partial =~= parent + "/"@ + prefix);
                    assert(name.take(prefix.len() as int) == prefix);
                }
                assert(v.take(partial.len() as int) =~= partial);
            }
        },
    }
}

/// Completes a QOM path argument from the properties of its parent.
pub fn complete_qom_path(
    partial: &str,
    span_start: usize,
    pos: usize,
    props: &Vec<(String, String)>,
) -> (r: Vec<Suggestion>)
    ensures
        r.deep_view() == spec_complete_qom_path(
            partial@,
            span_start as int,
            pos as int,
            props.deep_view(),
        ),
{
    let v = to_chars(partial);
    if v.len() == 0 {
        let out = vec![new_sugg(String::from_str("/"), None, span_start, pos, false, None)];
        assert(out.deep_view() =~= spec_complete_qom_path(partial@, span_start as int, pos as int, props.deep_view()));
        return out;
    }
    let (parent, prefix) = match qom_split_exec(&v) {
        Some(x) => x,
        None => {
            return Vec::new();
        },
    };
    let ghost dv = props.deep_view();
    let ghost p = is_child_with(prefix@);
    let ghost f = child_sugg(parent@, span_start as int, pos as int);
    let child = to_chars("child<");
    let mut out: Vec<Suggestion> = Vec::new();
    let mut i: usize = 0;
    while i < props.len()
        invariant
            i <= props@.len(),
            dv == props.deep_view(),
            child@ == "child<"@,
            p == is_child_with(prefix@),
            f == child_sugg(parent@, span_start as int, pos as int),
            out.deep_view() == dv.take(i as int).filter(p).map_values(f),
        decreases props@.len() - i,
    {
        proof {
            lemma_filter_map_step(dv, i as int, p, f);
        }
        let name = to_chars(props[i].0.as_str());
        let ty = to_chars(props[i].1.as_str());
        assert(dv[i as int] == props@[i as int].deep_view());
        if starts_with(&ty, &child) && starts_with(&name, &prefix) {
            let mut value = String::new();
            if parent.len() == 0 {
                push_char(&mut value, '/');
            } else {
                push_str(&mut value, string_from(&parent).as_str());
                push_char(&mut value, '/');
            }
            push_str(&mut value, props[i].0.as_str());
            proof {
                reveal_strlit("/");
                assert(value@ =~= child_path(parent@, name@));
            }
            let sg = new_sugg(value, None, span_start, pos, false, None);
            let ghost before = out.deep_view();
            out.push(sg);
            assert(out.deep_view() =~= before.push(f(dv[i as int])));
        }
        i = i + 1;
    }
    assert(dv.take(props@.len() as int) =~= dv);
    out
}

pub open spec fn name_with(prefix: Seq<char>) -> spec_fn((Seq<char>, Seq<char>)) -> bool {
    |p: (Seq<char>, Seq<char>)| is_prefix(prefix, p.0)
}

pub open spec fn prop_name_sugg(span_start: int, pos: int) -> spec_fn((Seq<char>, Seq<char>)) -> SuggestionView {
    |p: (Seq<char>, Seq<char>)| sugg(p.0, Some(p.1), span_start, pos, true, None)
}

/// The property names of a QOM object that start with `prefix`, each
/// described by its type; `props` are the object's properties.
pub fn complete_qom_property(
    prefix: &str,
    span_start: usize,
    pos: usize,
    props: &Vec<(String, String)>,
) -> (r: Vec<Suggestion>)
    ensures
        r.deep_view() == props.deep_view().filter(name_with(prefix@)).map_values(
            prop_name_sugg(span_start as int, pos as int),
        ),
{
    let pv = to_chars(prefix);
    let ghost dv = props.deep_view();
    let ghost p = name_with(prefix@);
    let ghost f = prop_name_sugg(span_start as int, pos as int);
    let mut out: Vec<Suggestion> = Vec::new();
    let mut i: usize = 0;
    while i < props.len()
        invariant
            i <= props@.len(),
            dv == props.deep_view(),
            pv@ == prefix@,
            p == name_with(prefix@),
            f == prop_name_sugg(span_start as int, pos as int),
            out.deep_view() == dv.take(i as int).filter(p).map_values(f),
        decreases props@.len() - i,
    {
        proof {
            lemma_filter_map_step(dv, i as int, p, f);
        }
        let name = to_chars(props[i].0.as_str());
        assert(dv[i as int] == props@[i as int].deep_view());
        if starts_with(&name, &pv) {
            let sg = new_sugg(
                props[i].0.clone(),
                Some(props[i].1.clone()),
                span_start,
                pos,
                true,
                None,
            );
            let ghost before = out.deep_view();
            out.push(sg);
            assert(out.deep_view() =~= before.push(f(dv[i as int])));
        }
        i = i + 1;
    }
    assert(dv.take(props@.len() as int) =~= dv);
    out
}

/// The type of the first property named `name`.
pub open spec fn prop_type(props: Seq<(Seq<char>, Seq<char>)>, name: Seq<char>) -> Option<Seq<char>> {
    lookup(props, name)
}

pub open spec fn member_with(prefix: Seq<char>) -> spec_fn(MemberView) -> bool {
    |m: MemberView| is_prefix(prefix, m.name)
}

pub open spec fn member_sugg(span_start: int, pos: int) -> spec_fn(MemberView) -> SuggestionView {
    |m: MemberView| sugg(m.name, Some(m.display_type), span_start, pos, true, None)
}

/// The values offered for a QOM property of type `ty`: `true` / `false`
/// for a bool, the values of an enum, the members of a struct, and else a
/// `<value>` hint.
pub open spec fn qom_value_suggestions(
    schema: SchemaView,
    ty: Seq<char>,
    prefix: Seq<char>,
    span_start: int,
    pos: int,
) -> Seq<SuggestionView> {
    if ty == "bool"@ {
        seq!["true"@, "false"@].filter(has_prefix(prefix)).map_values(
            plain_sugg(ty, span_start, pos, true),
        )
    } else {
        match lookup(schema.enums, ty) {
            Some(vals) => vals.filter(has_prefix(prefix)).map_values(
                plain_sugg(ty, span_start, pos, true),
            ),
            None => match lookup(schema.object_types, ty) {
                Some(ms) => ms.filter(member_with(prefix)).map_values(member_sugg(span_start, pos)),
                None => seq![sugg(prefix, Some(ty), span_start, pos, false, Some("<value>"@))],
            },
        }
    }
}

/// The suggestions for a `qom-set` value: `None` when the property is
/// not among `props`, the properties of the object.
pub open spec fn spec_complete_qom_value(
    schema: SchemaView,
    property: Seq<char>,
    prefix: Seq<char>,
    span_start: int,
    pos: int,
    props: Seq<(Seq<char>, Seq<char>)>,
) -> Option<Seq<SuggestionView>> {
    match prop_type(props, property) {
        None => None,
        Some(ty) => Some(qom_value_suggestions(schema, ty, prefix, span_start, pos)),
    }
}

fn member_suggestions(ms: &Vec<SchemaMember>, prefix: &Vec<char>, span_start: usize, pos: usize) -> (r:
    Vec<Suggestion>)
    ensures
        r.deep_view() == ms.deep_view().filter(member_with(prefix@)).map_values(
            member_sugg(span_start as int, pos as int),
        ),
{
    let ghost dv = ms.deep_view();
    let ghost p = member_with(prefix@);
    let ghost f = member_sugg(span_start as int, pos as int);
    let mut out: Vec<Suggestion> = Vec::new();
    let mut i: usize = 0;
    while i < ms.len()
        invariant
            i <= ms@.len(),
            dv == ms.deep_view(),
            p == member_with(prefix@),
            f == member_sugg(span_start as int, pos as int),
            out.deep_view() == dv.take(i as int).filter(p).map_values(f),
        decreases ms@.len() - i,
    {
        proof {
            lemma_filter_map_step(dv, i as int, p, f);
        }
        let name = to_chars(ms[i].name.as_str());
        assert(dv[i as int] == ms@[i as int].deep_view());
        if starts_with(&name, prefix) {
            let sg = new_sugg(
                ms[i].name.clone(),
                Some(ms[i].display_type.clone()),
                span_start,
                pos,
                true,
                None,
            );
            let ghost before = out.deep_view();
            out.push(sg);
            assert(out.deep_view() =~= before.push(f(dv[i as int])));
        }
        i = i + 1;
    }
    assert(dv.take(ms@.len() as int) =~= dv);
    out
}

/// Completes a QOM property value for `qom-set` from the type of the
/// property among `props`, the properties of the object.  `None` when the
/// property is not there, so that generic completion takes over.
pub fn complete_qom_value(
    schema: &SchemaCache,
    property: &str,
    prefix: &str,
    span_start: usize,
    pos: usize,
    props: &Vec<(String, String)>,
) -> (r: Option<Vec<Suggestion>>)
    ensures
        r.deep_view() == spec_complete_qom_value(
            schema.deep_view(),
            property@,
            prefix@,
            span_start as int,
            pos as int,
            props.deep_view(),
        ),
{
    let pr = to_chars(property);
    let ti = match find_entry(props, &pr) {
        Some(ti) => ti,
        None => {
            return None;
        },
    };
    let ty_s = &props[ti].1;
    let ty = to_chars(ty_s.as_str());
    let p = to_chars(prefix);
    let b = to_chars("bool");
    let mut out: Vec<Suggestion> = Vec::new();
    if same(&ty, &b) {
        let vals: Vec<String> = vec![String::from_str("true"), String::from_str("false")];
        assert(vals.deep_view() =~= seq!["true"@, "false"@]);
        push_prefixed(&mut out, &vals, &p, ty_s.as_str(), span_start, pos, true);
        assert(out.deep_view() =~= qom_value_suggestions(schema.deep_view(), ty@, prefix@, span_start as int, pos as int));
        return Some(out);
    }
    match find_entry(&schema.enums, &ty) {
        Some(ei) => {
            push_prefixed(&mut out, &schema.enums[ei].1, &p, ty_s.as_str(), span_start, pos, true);
            assert(out.deep_view() =~= qom_value_suggestions(schema.deep_view(), ty@, prefix@, span_start as int, pos as int));
            Some(out)
        },
        None => match find_entry(&schema.object_types, &ty) {
            Some(oi) => Some(member_suggestions(&schema.object_types[oi].1, &p, span_start, pos)),
            None => {
                let sg = new_sugg(
                    String::from_str(prefix),
                    Some(ty_s.clone()),
                    span_start,
                    pos,
                    false,
                    Some(String::from_str("<value>")),
                );
                out.push(sg);
                assert(out.deep_view() =~= qom_value_suggestions(schema.deep_view(), ty@, prefix@, span_start as int, pos as int));
                Some(out)
            },
        },
    }
}

} // verus!
