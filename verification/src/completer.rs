//! Completion logic of the HMP line editor.
//!
//! Everything that needs QEMU (QOM listings, block devices, user-creatable
//! types) or the file system is asked for with a `CompletionStep`; the
//! caller answers and asks again, and the decisions are all made here.
use vstd::prelude::*;

use crate::text::{
    push_char, push_str, byte_len, count_lead_ws, find_char, find_from, find_seq, find_str, is_prefix, is_ws,
    lemma_byte_len_concat, lemma_find_from, lemma_find_seq, lemma_lead_ws, lead_ws, slice_of,
    split_whitespace, starts_with, string_from, tail, to_chars, trim, trim_start, trim_start_v,
    trim_v, words,
};

verus! {

// ---------------------------------------------------------------------
// Data
// ---------------------------------------------------------------------

/// A region of the input line, in bytes.
#[derive(Debug, Clone, Copy, PartialEq, Eq)]
pub struct Span {
    pub start: usize,
    pub end: usize,
}

/// A completion candidate.
#[derive(Debug, PartialEq, Eq)]
pub struct Suggestion {
    pub value: String,
    pub description: Option<String>,
    pub span: Span,
    pub append_whitespace: bool,
    pub display_override: Option<String>,
}

pub ghost struct SuggestionView {
    pub value: Seq<char>,
    pub description: Option<Seq<char>>,
    pub start: int,
    pub end: int,
    pub append_whitespace: bool,
    pub display_override: Option<Seq<char>>,
}

impl DeepView for Suggestion {
    type V = SuggestionView;

    open spec fn deep_view(&self) -> SuggestionView {
        SuggestionView {
            value: self.value@,
            description: self.description.deep_view(),
            start: self.span.start as int,
            end: self.span.end as int,
            append_whitespace: self.append_whitespace,
            display_override: self.display_override.deep_view(),
        }
    }
}

pub open spec fn sugg(
    value: Seq<char>,
    description: Option<Seq<char>>,
    start: int,
    end: int,
    append_whitespace: bool,
    display_override: Option<Seq<char>>,
) -> SuggestionView {
    SuggestionView { value, description, start, end, append_whitespace, display_override }
}

/// A member of a schema object: name, display type, and schema type ID.
#[derive(Debug)]
pub struct SchemaMember {
    pub name: String,
    /// Human-readable type (e.g. "str", "bool", "enum").
    pub display_type: String,
    /// Schema type ID for enum resolution.
    pub type_id: String,
}

pub ghost struct MemberView {
    pub name: Seq<char>,
    pub display_type: Seq<char>,
    pub type_id: Seq<char>,
}

impl DeepView for SchemaMember {
    type V = MemberView;

    open spec fn deep_view(&self) -> MemberView {
        MemberView { name: self.name@, display_type: self.display_type@, type_id: self.type_id@ }
    }
}

impl SchemaMember {
    pub fn copy(&self) -> (r: SchemaMember)
        ensures
            r.deep_view() == self.deep_view(),
    {
        SchemaMember {
            name: self.name.clone(),
            display_type: self.display_type.clone(),
            type_id: self.type_id.clone(),
        }
    }
}

/// A tagged union of the schema: its tag member and, per tag value, the
/// type ID of the variant's members.
#[derive(Debug)]
pub struct TaggedUnionInfo {
    pub tag: String,
    pub variants: Vec<(String, String)>,
}

pub ghost struct UnionView {
    pub tag: Seq<char>,
    pub variants: Seq<(Seq<char>, Seq<char>)>,
}

impl DeepView for TaggedUnionInfo {
    type V = UnionView;

    open spec fn deep_view(&self) -> UnionView {
        UnionView { tag: self.tag@, variants: self.variants.deep_view() }
    }
}

/// The QMP schema data that completion uses.  Each table is a list of
/// (key, value) entries; a lookup takes the first entry with the key.
#[derive(Debug)]
pub struct SchemaCache {
    /// Enum schema ID -> member values.
    pub enums: Vec<(String, Vec<String>)>,
    /// QOM type name (e.g. "rng-random") -> members.
    pub object_add_variants: Vec<(String, Vec<SchemaMember>)>,
    /// Sorted list of all QMP command names.
    pub qmp_commands: Vec<String>,
    /// QMP command name -> argument members.
    pub command_args: Vec<(String, Vec<SchemaMember>)>,
    /// Schema type ID -> object members.
    pub object_types: Vec<(String, Vec<SchemaMember>)>,
    /// Schema type ID -> tagged union info.
    pub tagged_unions: Vec<(String, TaggedUnionInfo)>,
    /// Command name -> arg-type schema ID.
    pub command_arg_type_ids: Vec<(String, String)>,
}

pub ghost struct SchemaView {
    pub enums: Seq<(Seq<char>, Seq<Seq<char>>)>,
    pub object_add_variants: Seq<(Seq<char>, Seq<MemberView>)>,
    pub qmp_commands: Seq<Seq<char>>,
    pub command_args: Seq<(Seq<char>, Seq<MemberView>)>,
    pub object_types: Seq<(Seq<char>, Seq<MemberView>)>,
    pub tagged_unions: Seq<(Seq<char>, UnionView)>,
    pub command_arg_type_ids: Seq<(Seq<char>, Seq<char>)>,
}

impl DeepView for SchemaCache {
    type V = SchemaView;

    open spec fn deep_view(&self) -> SchemaView {
        SchemaView {
            enums: self.enums.deep_view(),
            object_add_variants: self.object_add_variants.deep_view(),
            qmp_commands: self.qmp_commands.deep_view(),
            command_args: self.command_args.deep_view(),
            object_types: self.object_types.deep_view(),
            tagged_unions: self.tagged_unions.deep_view(),
            command_arg_type_ids: self.command_arg_type_ids.deep_view(),
        }
    }
}

/// The value of the first entry with key `k`.
pub open spec fn lookup<V>(m: Seq<(Seq<char>, V)>, k: Seq<char>) -> Option<V>
    decreases m.len(),
{
    if m.len() == 0 {
        None
    } else if m[0].0 == k {
        Some(m[0].1)
    } else {
        lookup(m.drop_first(), k)
    }
}

/// The index of the first entry with key `k`.
pub fn find_entry<V: DeepView>(m: &Vec<(String, V)>, k: &Vec<char>) -> (r: Option<usize>)
    ensures
        match r {
            Some(i) => i < m@.len() && m@[i as int].0@ == k@ && lookup(m.deep_view(), k@) == Some(
                m@[i as int].1.deep_view(),
            ),
            None => lookup(m.deep_view(), k@) is None,
        },
{
    let ghost dv = m.deep_view();
    let mut i: usize = 0;
    assert(dv.skip(0) =~= dv);
    while i < m.len()
        invariant
            i <= m@.len(),
            dv == m.deep_view(),
            lookup(dv, k@) == lookup(dv.skip(i as int), k@),
        decreases m@.len() - i,
    {
        let key = to_chars(m[i].0.as_str());
        assert(dv.skip(i as int)[0] == dv[i as int]);
        assert(dv[i as int] == m@[i as int].deep_view());
        if crate::text::same(&key, k) {
            return Some(i);
        }
        assert(dv.skip(i as int).drop_first() =~= dv.skip(i + 1));
        i = i + 1;
    }
    None
}

pub proof fn lemma_filter_step<A>(s: Seq<A>, i: int, p: spec_fn(A) -> bool)
    requires
        0 <= i < s.len(),
    ensures
        s.take(i + 1).filter(p) == (if p(s[i]) {
            s.take(i).filter(p).push(s[i])
        } else {
            s.take(i).filter(p)
        }),
{
    reveal(Seq::filter);
    assert(s.take(i + 1).drop_last() =~= s.take(i));
}

/// The first member named `name`.
pub open spec fn find_member(ms: Seq<MemberView>, name: Seq<char>) -> Option<MemberView>
    decreases ms.len(),
{
    if ms.len() == 0 {
        None
    } else if ms[0].name == name {
        Some(ms[0])
    } else {
        find_member(ms.drop_first(), name)
    }
}

pub fn find_member_index(ms: &Vec<SchemaMember>, name: &Vec<char>) -> (r: Option<usize>)
    ensures
        match r {
            Some(i) => i < ms@.len() && find_member(ms.deep_view(), name@) == Some(
                ms@[i as int].deep_view(),
            ),
            None => find_member(ms.deep_view(), name@) is None,
        },
{
    let ghost dv = ms.deep_view();
    let mut i: usize = 0;
    assert(dv.skip(0) =~= dv);
    while i < ms.len()
        invariant
            i <= ms@.len(),
            dv == ms.deep_view(),
            find_member(dv, name@) == find_member(dv.skip(i as int), name@),
        decreases ms@.len() - i,
    {
        let n = to_chars(ms[i].name.as_str());
        assert(dv.skip(i as int)[0] == dv[i as int]);
        if crate::text::same(&n, name) {
            return Some(i);
        }
        assert(dv.skip(i as int).drop_first() =~= dv.skip(i + 1));
        i = i + 1;
    }
    None
}

pub open spec fn members_of(t: Seq<(Seq<char>, Seq<MemberView>)>, k: Seq<char>) -> Seq<MemberView> {
    match lookup(t, k) {
        Some(v) => v,
        None => seq![],
    }
}

/// The members of the variant that the tag value in `kv` selects, when
/// `type_id` is a tagged union.
pub open spec fn variant_members(
    schema: SchemaView,
    type_id: Seq<char>,
    kv: Seq<(Seq<char>, Seq<char>)>,
) -> Seq<MemberView> {
    match lookup(schema.tagged_unions, type_id) {
        Some(info) => match lookup(kv, info.tag) {
            Some(tag_val) => match lookup(info.variants, tag_val) {
                Some(vt) => members_of(schema.object_types, vt),
                None => seq![],
            },
            None => seq![],
        },
        None => seq![],
    }
}

pub ghost struct FrameView {
    pub key: Seq<char>,
    pub parent_kv: Seq<(Seq<char>, Seq<char>)>,
}

/// One level of object nesting in a JSON argument list: the key whose
/// value is the nested object, and the string pairs of the enclosing level.
#[derive(Debug)]
pub struct NestingFrame {
    pub key: String,
    pub parent_kv: Vec<(String, String)>,
}

impl DeepView for NestingFrame {
    type V = FrameView;

    open spec fn deep_view(&self) -> FrameView {
        FrameView { key: self.key@, parent_kv: self.parent_kv.deep_view() }
    }
}

/// Walks the nesting path from level `i`, resolving the members at each
/// level; `None` when a key on the path is not a member.
pub open spec fn walk_nesting(
    schema: SchemaView,
    members: Seq<MemberView>,
    nesting: Seq<FrameView>,
    level_kv: Seq<(Seq<char>, Seq<char>)>,
    i: int,
) -> Option<Seq<MemberView>>
    decreases nesting.len() - i,
{
    if i < 0 || i >= nesting.len() {
        Some(members)
    } else {
        match find_member(members, nesting[i].key) {
            None => None,
            Some(m) => {
                let kv = if i + 1 < nesting.len() {
                    nesting[i + 1].parent_kv
                } else {
                    level_kv
                };
                walk_nesting(
                    schema,
                    members_of(schema.object_types, m.type_id) + variant_members(
                        schema,
                        m.type_id,
                        kv,
                    ),
                    nesting,
                    level_kv,
                    i + 1,
                )
            },
        }
    }
}

/// The members that can appear at the cursor's nesting level of the
/// arguments of `command`.
pub open spec fn spec_resolve_members(
    schema: SchemaView,
    command: Seq<char>,
    nesting: Seq<FrameView>,
    level_kv: Seq<(Seq<char>, Seq<char>)>,
) -> Seq<MemberView> {
    let kv_top = if nesting.len() == 0 {
        level_kv
    } else {
        nesting[0].parent_kv
    };
    let top = members_of(schema.command_args, command) + match lookup(
        schema.command_arg_type_ids,
        command,
    ) {
        Some(id) => variant_members(schema, id, kv_top),
        None => seq![],
    };
    match walk_nesting(schema, top, nesting, level_kv, 0) {
        Some(ms) => ms,
        None => seq![],
    }
}

/// Appends copies of the members of `ms`.
fn extend_members(out: &mut Vec<SchemaMember>, ms: &Vec<SchemaMember>)
    ensures
        final(out).deep_view() == old(out).deep_view() + ms.deep_view(),
{
    let mut i: usize = 0;
    while i < ms.len()
        invariant
            i <= ms@.len(),
            out.deep_view() == old(out).deep_view() + ms.deep_view().take(i as int),
        decreases ms@.len() - i,
    {
        let m = ms[i].copy();
        let ghost before = out.deep_view();
        assert(ms.deep_view()[i as int] == ms@[i as int].deep_view());
        out.push(m);
        assert(out.deep_view() =~= before.push(ms@[i as int].deep_view()));
        i = i + 1;
        assert(out.deep_view() =~= old(out).deep_view() + ms.deep_view().take(i as int));
    }
    assert(ms.deep_view().take(ms@.len() as int) =~= ms.deep_view());
}

pub fn members_copy(t: &Vec<(String, Vec<SchemaMember>)>, k: &Vec<char>) -> (r: Vec<SchemaMember>)
    ensures
        r.deep_view() == members_of(t.deep_view(), k@),
{
    let mut out: Vec<SchemaMember> = Vec::new();
    match find_entry(t, k) {
        Some(i) => {
            extend_members(&mut out, &t[i].1);
            assert(out.deep_view() =~= t@[i as int].1.deep_view());
        },
        None => {
            assert(out.deep_view() =~= Seq::<MemberView>::empty());
        },
    }
    out
}

fn push_variant_members(
    out: &mut Vec<SchemaMember>,
    schema: &SchemaCache,
    type_id: &Vec<char>,
    kv: &Vec<(String, String)>,
)
    ensures
        final(out).deep_view() == old(out).deep_view() + variant_members(
            schema.deep_view(),
            type_id@,
            kv.deep_view(),
        ),
{
    if let Some(ui) = find_entry(&schema.tagged_unions, type_id) {
        let info = &schema.tagged_unions[ui].1;
        let tag = to_chars(info.tag.as_str());
        if let Some(ti) = find_entry(kv, &tag) {
            let tag_val = to_chars(kv[ti].1.as_str());
            if let Some(vi) = find_entry(&info.variants, &tag_val) {
                let vt = to_chars(info.variants[vi].1.as_str());
                let vm = members_copy(&schema.object_types, &vt);
                extend_members(out, &vm);
                return;
            }
        }
    }
    assert(old(out).deep_view() + Seq::<MemberView>::empty() =~= old(out).deep_view());
}

/// Resolves the members at the cursor's nesting level: the command's
/// arguments, extended by the variant that a tag value selects, then
/// followed through each nested key.
pub fn resolve_members(
    schema: &SchemaCache,
    command: &Vec<char>,
    nesting: &Vec<NestingFrame>,
    level_kv: &Vec<(String, String)>,
) -> (r: Vec<SchemaMember>)
    ensures
        r.deep_view() == spec_resolve_members(
            schema.deep_view(),
            command@,
            nesting.deep_view(),
            level_kv.deep_view(),
        ),
{
    let ghost sv = schema.deep_view();
    let ghost nv = nesting.deep_view();
    let mut members = members_copy(&schema.command_args, command);
    let kv_top = if nesting.len() == 0 {
        level_kv
    } else {
        &nesting[0].parent_kv
    };
    assert(nesting.len() > 0 ==> nv[0] == nesting@[0].deep_view());
    match find_entry(&schema.command_arg_type_ids, command) {
        Some(ci) => {
            let id = to_chars(schema.command_arg_type_ids[ci].1.as_str());
            push_variant_members(&mut members, schema, &id, kv_top);
        },
        None => {
            assert(members.deep_view() + Seq::<MemberView>::empty() =~= members.deep_view());
        },
    }
    let mut i: usize = 0;
    while i < nesting.len()
        invariant
            i <= nesting@.len(),
            sv == schema.deep_view(),
            nv == nesting.deep_view(),
            walk_nesting(sv, members.deep_view(), nv, level_kv.deep_view(), i as int) == walk_nesting(
                sv,
                spec_resolve_top(sv, command@, nv, level_kv.deep_view()),
                nv,
                level_kv.deep_view(),
                0,
            ),
        decreases nesting@.len() - i,
    {
        let key = to_chars(nesting[i].key.as_str());
        assert(nv[i as int] == nesting@[i as int].deep_view());
        match find_member_index(&members, &key) {
            None => {
                return Vec::new();
            },
            Some(mi) => {
                let tid = to_chars(members[mi].type_id.as_str());
                let mut next = members_copy(&schema.object_types, &tid);
                let kv = if i + 1 < nesting.len() {
                    &nesting[i + 1].parent_kv
                } else {
                    level_kv
                };
                assert(i + 1 < nesting.len() ==> nv[i + 1] == nesting@[i + 1].deep_view());
                push_variant_members(&mut next, schema, &tid, kv);
                members = next;
            },
        }
        i = i + 1;
    }
    members
}

pub open spec fn spec_resolve_top(
    schema: SchemaView,
    command: Seq<char>,
    nesting: Seq<FrameView>,
    level_kv: Seq<(Seq<char>, Seq<char>)>,
) -> Seq<MemberView> {
    let kv_top = if nesting.len() == 0 {
        level_kv
    } else {
        nesting[0].parent_kv
    };
    members_of(schema.command_args, command) + match lookup(schema.command_arg_type_ids, command) {
        Some(id) => variant_members(schema, id, kv_top),
        None => seq![],
    }
}

// ---------------------------------------------------------------------
// Pieces of JSON text

// ---------------------------------------------------------------------

/// Scans `s[i..]` for commas at brace/bracket depth 0, outside strings;
/// yields their character indices.  `None` when the nesting depth would
/// pass `u32::MAX` (the `u32` depth counter would overflow there).
pub open spec fn comma_scan(s: Seq<char>, i: int, depth: nat, in_str: bool, esc: bool) -> Option<
    Seq<int>,
>
    decreases s.len() - i,
{
    if i < 0 || i >= s.len() {
        Some(seq![])
    } else {
        let c = s[i];
        if esc {
            comma_scan(s, i + 1, depth, in_str, false)
        } else if in_str {
            comma_scan(s, i + 1, depth, c != '"', c == '\\')
        } else if c == '"' {
            comma_scan(s, i + 1, depth, true, false)
        } else if c == '{' || c == '[' {
            if depth >= u32::MAX {
                None
            } else {
                comma_scan(s, i + 1, depth + 1, false, false)
            }
        } else if c == '}' || c == ']' {
            comma_scan(
                s,
                i + 1,
                if depth > 0 {
                    (depth - 1) as nat
                } else {
                    0
                },
                false,
                false,
            )
        } else if c == ',' && depth == 0 {
            match comma_scan(s, i + 1, depth, false, false) {
                Some(r) => Some(seq![i] + r),
                None => None,
            }
        } else {
            comma_scan(s, i + 1, depth, false, false)
        }
    }
}

/// Increasing indices in `[lo, hi)`.
pub open spec fn increasing_in(r: Seq<int>, lo: int, hi: int) -> bool {
    &&& forall|k: int| 0 <= k < r.len() ==> lo <= #[trigger] r[k] < hi
    &&& forall|k: int, l: int| 0 <= k < l < r.len() ==> r[k] < r[l]
}

pub proof fn lemma_comma_scan(s: Seq<char>, i: int, depth: nat, in_str: bool, esc: bool)
    requires
        0 <= i <= s.len(),
    ensures
        comma_scan(s, i, depth, in_str, esc) matches Some(r) ==> increasing_in(r, i, s.len() as int),
    decreases s.len() - i,
{
    if i < s.len() {
        let c = s[i];
        let d2: nat = if c == '{' || c == '[' {
            depth + 1
        } else if c == '}' || c == ']' {
            if depth > 0 {
                (depth - 1) as nat
            } else {
                0
            }
        } else {
            depth
        };
        lemma_comma_scan(s, i + 1, depth, in_str, false);
        lemma_comma_scan(s, i + 1, depth, c != '"', c == '\\');
        lemma_comma_scan(s, i + 1, depth, true, false);
        lemma_comma_scan(s, i + 1, d2, false, false);
        lemma_comma_scan(s, i + 1, depth, false, false);
        if !esc && !in_str && c == ',' && depth == 0 {
            if let Some(r) = comma_scan(s, i + 1, depth, false, false) {
                let r2 = seq![i] + r;
                assert forall|k: int, l: int| 0 <= k < l < r2.len() implies r2[k] < r2[l] by {
                    if k > 0 {
                        assert(r2[k] == r[k - 1]);
                    }
                    assert(r2[l] == r[l - 1]);
                }
                assert forall|k: int| 0 <= k < r2.len() implies i <= #[trigger] r2[k] < s.len() by {
                    if k > 0 {
                        assert(r2[k] == r[k - 1]);
                    }
                }
            }
        }
    }
}

/// The byte offsets of the commas at depth 0.
pub open spec fn spec_toplevel_commas(s: Seq<char>) -> Option<Seq<int>> {
    match comma_scan(s, 0, 0, false, false) {
        Some(ix) => Some(ix.map_values(|i: int| byte_len(s.take(i)) as int)),
        None => None,
    }
}

/// The character indices of the commas at brace/bracket depth 0.
fn comma_indices(v: &Vec<char>) -> (r: Vec<usize>)
    requires
        comma_scan(v@, 0, 0, false, false) is Some,
    ensures
        comma_scan(v@, 0, 0, false, false) == Some(r@.map_values(|x: usize| x as int)),
{
    let mut positions: Vec<usize> = Vec::new();
    let mut depth: u32 = 0;
    let mut in_string = false;
    let mut escape = false;
    let mut i: usize = 0;
    while i < v.len()
        invariant
            i <= v@.len(),
            match comma_scan(v@, i as int, depth as nat, in_string, escape) {
                Some(rest) => comma_scan(v@, 0, 0, false, false) == Some(
                    positions@.map_values(|x: usize| x as int) + rest,
                ),
                None => comma_scan(v@, 0, 0, false, false) is None,
            },
            comma_scan(v@, 0, 0, false, false) is Some,
        decreases v@.len() - i,
    {
        let c = v[i];
        let ghost before = positions@.map_values(|x: usize| x as int);
        let ghost old_scan = comma_scan(v@, i as int, depth as nat, in_string, escape);
        let ghost i0 = i;
        let mut pushed = false;
        if escape {
            escape = false;
        } else if in_string {
            if c == '\\' {
                escape = true;
            } else if c == '"' {
                in_string = false;
            }
        } else if c == '"' {
            in_string = true;
        } else if c == '{' || c == '[' {
            assert(old_scan is Some);
            depth = depth + 1;
        } else if c == '}' || c == ']' {
            depth = if depth > 0 {
                depth - 1
            } else {
                0
            };
        } else if c == ',' && depth == 0 {
            positions.push(i);
            pushed = true;
        }
        i = i + 1;
        proof {
            let new_scan = comma_scan(v@, i as int, depth as nat, in_string, escape);
            if pushed {
                assert(positions@.map_values(|x: usize| x as int) =~= before + seq![i0 as int]);
                if let Some(rest) = new_scan {
                    assert(old_scan == Some(seq![i0 as int] + rest));
                    assert(before + (seq![i0 as int] + rest) =~= positions@.map_values(
                        |x: usize| x as int,
                    ) + rest);
                }
            } else {
                assert(positions@.map_values(|x: usize| x as int) =~= before);
                assert(old_scan == new_scan);
            }
        }
    }
    assert(positions@.map_values(|x: usize| x as int) + seq![] =~= positions@.map_values(
        |x: usize| x as int,
    ));
    positions
}

/// Finds the byte positions of commas at brace/bracket depth 0, outside
/// strings.
pub fn toplevel_comma_positions(s: &str) -> (r: Vec<usize>)
    requires
        byte_len(s@) <= usize::MAX,
        spec_toplevel_commas(s@) is Some,
    ensures
        spec_toplevel_commas(s@) == Some(r@.map_values(|x: usize| x as int)),
{
    let v = to_chars(s);
    let ix = comma_indices(&v);
    let ghost ixv = ix@.map_values(|x: usize| x as int);
    proof {
        lemma_comma_scan(v@, 0, 0, false, false);
    }
    let mut out: Vec<usize> = Vec::new();
    let mut k: usize = 0;
    while k < ix.len()
        invariant
            k <= ix@.len(),
            v@ == s@,
            byte_len(s@) <= usize::MAX,
            ixv == ix@.map_values(|x: usize| x as int),
            increasing_in(ixv, 0, v@.len() as int),
            out@.map_values(|x: usize| x as int) == ixv.take(k as int).map_values(
                |i: int| byte_len(v@.take(i)) as int,
            ),
        decreases ix@.len() - k,
    {
        assert(ixv[k as int] == ix@[k as int] as int);
        let idx = ix[k];
        proof {
            crate::format::lemma_byte_len_sub_pub(v@, 0, idx as int);
            assert(v@.subrange(0, idx as int) =~= v@.take(idx as int));
        }
        let off = crate::text::utf8_len(&v, 0, idx);
        let ghost before = out@.map_values(|x: usize| x as int);
        out.push(off);
        proof {
            assert(out@.map_values(|x: usize| x as int) =~= before.push(off as int));
            assert(ixv.take(k + 1) =~= ixv.take(k as int).push(ixv[k as int]));
        }
        k = k + 1;
        assert(out@.map_values(|x: usize| x as int) =~= ixv.take(k as int).map_values(
            |i: int| byte_len(v@.take(i)) as int,
        ));
    }
    assert(ixv.take(ix@.len() as int) =~= ixv);
    out
}

/// `s` cut at the given increasing indices, from `start` on; the
/// separators are left out.
pub open spec fn split_at(s: Seq<char>, idx: Seq<int>, start: int) -> Seq<Seq<char>>
    decreases idx.len(),
{
    if idx.len() == 0 {
        seq![s.subrange(start, s.len() as int)]
    } else {
        seq![s.subrange(start, idx[0])] + split_at(s, idx.drop_first(), idx[0] + 1)
    }
}

pub proof fn lemma_split_at(s: Seq<char>, idx: Seq<int>, start: int)
    requires
        0 <= start <= s.len(),
        increasing_in(idx, start, s.len() as int),
    ensures
        split_at(s, idx, start).len() == idx.len() + 1,
        split_at(s, idx, start).last().len() <= s.len(),
        is_suffix(split_at(s, idx, start).last(), s),
    decreases idx.len(),
{
    if idx.len() == 0 {
        assert(s.skip(s.len() - (s.len() - start)) =~= s.subrange(start, s.len() as int));
    }
    if idx.len() > 0 {
        let rest = idx.drop_first();
        assert forall|k: int| 0 <= k < rest.len() implies idx[0] + 1 <= #[trigger] rest[k] < s.len() by {
            assert(rest[k] == idx[k + 1]);
        }
        assert forall|k: int, l: int| 0 <= k < l < rest.len() implies rest[k] < rest[l] by {
            assert(rest[k] == idx[k + 1] && rest[l] == idx[l + 1]);
        }
        lemma_split_at(s, rest, idx[0] + 1);
        let tl = split_at(s, rest, idx[0] + 1);
        assert((seq![s.subrange(start, idx[0])] + tl).last() == tl.last());
    }
}

/// The segments of `v` between the given comma indices.
fn split_segments(v: &Vec<char>, ix: &Vec<usize>) -> (r: Vec<Vec<char>>)
    requires
        increasing_in(ix@.map_values(|x: usize| x as int), 0, v@.len() as int),
    ensures
        r.deep_view() == split_at(v@, ix@.map_values(|x: usize| x as int), 0),
{
    let ghost ixv = ix@.map_values(|x: usize| x as int);
    let mut segs: Vec<Vec<char>> = Vec::new();
    let mut start: usize = 0;
    let mut k: usize = 0;
    assert(ixv.skip(0) =~= ixv);
    while k < ix.len()
        invariant
            k <= ix@.len(),
            ixv == ix@.map_values(|x: usize| x as int),
            increasing_in(ixv, 0, v@.len() as int),
            start <= v@.len(),
            k > 0 ==> start == ixv[k - 1] + 1,
            k == 0 ==> start == 0,
            segs.deep_view() + split_at(v@, ixv.skip(k as int), start as int) == split_at(v@, ixv, 0),
        decreases ix@.len() - k,
    {
        let c = ix[k];
        assert(ixv[k as int] == c as int);
        assert(c < v@.len());
        let vlen = v.len();
        assert(c < vlen);
        assert(k > 0 ==> ixv[k - 1] < ixv[k as int]);
        let seg = slice_of(v, start, c);
        assert(seg.deep_view() =~= seg@);
        let ghost before = segs.deep_view();
        segs.push(seg);
        proof {
            assert(segs.deep_view() =~= before.push(v@.subrange(start as int, c as int)));
            assert(ixv.skip(k as int).drop_first() =~= ixv.skip(k + 1));
            assert(ixv.skip(k as int)[0] == c as int);
            assert(before.push(v@.subrange(start as int, c as int)) + split_at(
                v@,
                ixv.skip(k + 1),
                c + 1,
            ) =~= before + split_at(v@, ixv.skip(k as int), start as int));
        }
        start = c + 1;
        k = k + 1;
    }
    let last = slice_of(v, start, v.len());
    assert(last.deep_view() =~= last@);
    let ghost before = segs.deep_view();
    segs.push(last);
    assert(ixv.skip(k as int) =~= Seq::<int>::empty());
    assert(segs.deep_view() =~= before + split_at(v@, ixv.skip(k as int), start as int));
    segs
}

/// The key and, for a string value, the value of a JSON segment
/// `"key": value`; `None` when the segment holds no complete pair.
pub open spec fn spec_extract_segment_kv(seg: Seq<char>) -> Option<(Seq<char>, Option<Seq<char>>)> {
    let t = trim(seg);
    if t.len() == 0 || t[0] != '"' {
        None
    } else {
        let rest = t.skip(1);
        let ke = find_from(rest, '"', 0);
        if ke >= rest.len() {
            None
        } else {
            let key = rest.take(ke);
            let ak = trim_start(rest.skip(ke + 1));
            if ak.len() == 0 || ak[0] != ':' {
                None
            } else {
                let ac = trim_start(ak.skip(1));
                if ac.len() > 0 && ac[0] == '"' {
                    let vc = ac.skip(1);
                    let ve = find_from(vc, '"', 0);
                    if ve >= vc.len() {
                        None
                    } else {
                        Some((key, Some(vc.take(ve))))
                    }
                } else if ac.len() == 0 {
                    None
                } else {
                    Some((key, None))
                }
            }
        }
    }
}

fn extract_kv_chars(seg: &Vec<char>) -> (r: Option<(Vec<char>, Option<Vec<char>>)>)
    ensures
        match spec_extract_segment_kv(seg@) {
            Some((k, v)) => r matches Some((rk, rv)) && rk@ == k && match v {
                Some(vv) => rv matches Some(x) && x@ == vv,
                None => rv is None,
            },
            None => r is None,
        },
{
    let t = trim_v(seg);
    if t.len() == 0 || t[0] != '"' {
        return None;
    }
    let rest = tail(&t, 1);
    let ke = find_char(&rest, '"');
    if ke >= rest.len() {
        return None;
    }
    let key = slice_of(&rest, 0, ke);
    assert(key@ =~= rest@.take(ke as int));
    let after = tail(&rest, ke + 1);
    let ak = trim_start_v(&after);
    if ak.len() == 0 || ak[0] != ':' {
        return None;
    }
    let ak1 = tail(&ak, 1);
    let ac = trim_start_v(&ak1);
    if ac.len() > 0 && ac[0] == '"' {
        let vc = tail(&ac, 1);
        let ve = find_char(&vc, '"');
        if ve >= vc.len() {
            return None;
        }
        let val = slice_of(&vc, 0, ve);
        assert(val@ =~= vc@.take(ve as int));
        Some((key, Some(val)))
    } else if ac.len() == 0 {
        None
    } else {
        Some((key, None))
    }
}

/// Extracts the key, and the value when it is a string, from a JSON
/// segment like `"key": "val"`.
///
/// Returns `Some((key, Some(value)))` for string values, `Some((key, None))`
/// for other values, and `None` when the segment does not hold a complete
/// key-value pair.
pub fn extract_segment_kv(segment: &str) -> (r: Option<(String, Option<String>)>)
    ensures
        r.deep_view() == spec_extract_segment_kv(segment@),
{
    let v = to_chars(segment);
    match extract_kv_chars(&v) {
        Some((k, val)) => {
            let ks = string_from(&k);
            match val {
                Some(x) => Some((ks, Some(string_from(&x)))),
                None => Some((ks, None)),
            }
        },
        None => None,
    }
}

/// No brace, bracket or quote: nothing in `s` nests.
pub open spec fn is_flat(s: Seq<char>) -> bool {
    forall|j: int|
        0 <= j < s.len() ==> #[trigger] s[j] != '"' && s[j] != '{' && s[j] != '['
            && s[j] != '}' && s[j] != ']'
}

proof fn lemma_comma_scan_commas(s: Seq<char>, i: int, depth: nat, in_str: bool, esc: bool)
    requires
        0 <= i <= s.len(),
    ensures
        comma_scan(s, i, depth, in_str, esc) matches Some(r) ==> forall|k: int|
            0 <= k < r.len() ==> s[#[trigger] r[k]] == ',',
        is_flat(s) && depth == 0 && !in_str && !esc ==> (comma_scan(s, i, depth, in_str, esc)
            matches Some(r) && forall|j: int|
            i <= j < s.len() && s[j] == ',' ==> #[trigger] r.contains(j)),
    decreases s.len() - i,
{
    if i < s.len() {
        let c = s[i];
        let d2: nat = if c == '{' || c == '[' {
            depth + 1
        } else if c == '}' || c == ']' {
            if depth > 0 {
                (depth - 1) as nat
            } else {
                0
            }
        } else {
            depth
        };
        lemma_comma_scan_commas(s, i + 1, depth, in_str, false);
        lemma_comma_scan_commas(s, i + 1, depth, c != '"', c == '\\');
        lemma_comma_scan_commas(s, i + 1, depth, true, false);
        lemma_comma_scan_commas(s, i + 1, d2, false, false);
        lemma_comma_scan_commas(s, i + 1, depth, false, false);
        if !esc && !in_str && c == ',' && depth == 0 {
            if let Some(r) = comma_scan(s, i + 1, depth, false, false) {
                let r2 = seq![i] + r;
                assert forall|k: int| 0 <= k < r2.len() implies s[#[trigger] r2[k]] == ',' by {
                    if k > 0 {
                        assert(r2[k] == r[k - 1]);
                    }
                }
                if is_flat(s) && depth == 0 {
                    assert forall|j: int| i <= j < s.len() && s[j] == ',' implies #[trigger] r2.contains(j) by {
                        if j == i {
                            assert(r2[0] == i);
                        } else {
                            assert(r.contains(j));
                            let k = choose|k: int| 0 <= k < r.len() && r[k] == j;
                            assert(r2[k + 1] == j);
                        }
                    }
                }
            }
        } else if is_flat(s) && depth == 0 && !in_str && !esc {
            assert(s[i] != '"' && s[i] != '{' && s[i] != '[' && s[i] != '}' && s[i] != ']');
        }
    }
}

/// The top-level comma search reports commas only, in increasing order,
/// and in a text where nothing nests (no quote, brace or bracket) it
/// reports every comma.
pub proof fn law_toplevel_commas(s: Seq<char>)
    ensures
        comma_scan(s, 0, 0, false, false) matches Some(r) ==> increasing_in(r, 0, s.len() as int)
            && forall|k: int| 0 <= k < r.len() ==> s[#[trigger] r[k]] == ',',
        is_flat(s) ==> (comma_scan(s, 0, 0, false, false) matches Some(r) && forall|j: int|
            0 <= j < s.len() && s[j] == ',' ==> #[trigger] r.contains(j)),
{
    lemma_comma_scan(s, 0, 0, false, false);
    lemma_comma_scan_commas(s, 0, 0, false, false);
}

/// A segment `"key": "value"` written out.
pub open spec fn string_pair(key: Seq<char>, value: Seq<char>) -> Seq<char> {
    seq!['"'] + key + seq!['"', ':', ' ', '"'] + value + seq!['"']
}

/// Reading back a string pair: for a key and a value without a quote,
/// the segment `"key": "value"` gives back exactly that key and value.
pub proof fn law_extract_string_pair(key: Seq<char>, value: Seq<char>)
    requires
        !key.contains('"'),
        !value.contains('"'),
    ensures
        spec_extract_segment_kv(string_pair(key, value)) == Some((key, Some(value))),
{
    let seg = string_pair(key, value);
    let n = seg.len();
    assert(seg[0] == '"');
    assert(seg[n - 1] == '"');
    crate::text::lemma_lead_ws_unique(seg, 0);
    assert(trim_start(seg) =~= seg);
    crate::text::lemma_trail_ws_unique(seg, 0);
    assert(crate::text::trim_end(seg) =~= seg);
    let t = trim(seg);
    assert(t == seg);
    let rest = t.skip(1);
    assert(rest =~= key + seq!['"', ':', ' ', '"'] + value + seq!['"']);
    lemma_find_from(rest, '"', 0);
    assert(rest[key.len() as int] == '"');
    assert forall|j: int| 0 <= j < key.len() implies rest[j] != '"' by {
        assert(rest[j] == key[j]);
        if key[j] == '"' {
            assert(key.contains('"'));
        }
    }
    let ke = find_from(rest, '"', 0);
    assert(ke == key.len());
    assert(rest.take(ke) =~= key);
    let after = rest.skip(ke + 1);
    assert(after =~= seq![':', ' ', '"'] + value + seq!['"']);
    crate::text::lemma_lead_ws_unique(after, 0);
    let ak = trim_start(after);
    assert(ak =~= after);
    let ak1 = ak.skip(1);
    assert(ak1 =~= seq![' ', '"'] + value + seq!['"']);
    assert(is_ws(ak1[0]));
    crate::text::lemma_lead_ws_unique(ak1, 1);
    let ac = trim_start(ak1);
    assert(ac =~= seq!['"'] + value + seq!['"']);
    let vc = ac.skip(1);
    assert(vc =~= value + seq!['"']);
    lemma_find_from(vc, '"', 0);
    assert forall|j: int| 0 <= j < value.len() implies vc[j] != '"' by {
        assert(vc[j] == value[j]);
        if value[j] == '"' {
            assert(value.contains('"'));
        }
    }
    assert(vc[value.len() as int] == '"');
    let ve = find_from(vc, '"', 0);
    assert(ve == value.len());
    assert(vc.take(ve) =~= value);
}


// ---------------------------------------------------------------------
// JSON completion context
// ---------------------------------------------------------------------

/// Where the cursor stands in a partial JSON QMP command.
#[derive(Debug)]
pub enum JsonCompletionContext {
    /// The `{"execute": "` boilerplate hasn't been completed yet.
    Boilerplate { span_start: usize },
    /// The `, "arguments": {` boilerplate after a complete command name.
    ArgumentsBoilerplate { command: String, span_start: usize },
    /// Completing the command name after `"execute": "`.
    CommandName { prefix: String, span_start: usize },
    /// Completing an argument key inside `"arguments": {`.
    ArgKey {
        command: String,
        prefix: String,
        span_start: usize,
        in_quotes: bool,
        used_keys: Vec<String>,
        nesting: Vec<NestingFrame>,
        level_kv: Vec<(String, String)>,
    },
    /// Completing an argument value after `"key": `.
    ArgValue {
        command: String,
        key: String,
        prefix: String,
        span_start: usize,
        /// Whether the cursor is inside an opening `"`.
        in_quotes: bool,
        nesting: Vec<NestingFrame>,
        level_kv: Vec<(String, String)>,
    },
}

pub ghost enum JsonCtxView {
    Boilerplate { span_start: int },
    ArgumentsBoilerplate { command: Seq<char>, span_start: int },
    CommandName { prefix: Seq<char>, span_start: int },
    ArgKey {
        command: Seq<char>,
        prefix: Seq<char>,
        span_start: int,
        in_quotes: bool,
        used_keys: Seq<Seq<char>>,
        nesting: Seq<FrameView>,
        level_kv: Seq<(Seq<char>, Seq<char>)>,
    },
    ArgValue {
        command: Seq<char>,
        key: Seq<char>,
        prefix: Seq<char>,
        span_start: int,
        in_quotes: bool,
        nesting: Seq<FrameView>,
        level_kv: Seq<(Seq<char>, Seq<char>)>,
    },
}

impl DeepView for JsonCompletionContext {
    type V = JsonCtxView;

    open spec fn deep_view(&self) -> JsonCtxView {
        match self {
            JsonCompletionContext::Boilerplate { span_start } => JsonCtxView::Boilerplate {
                span_start: *span_start as int,
            },
            JsonCompletionContext::ArgumentsBoilerplate {
                command,
                span_start,
            } => JsonCtxView::ArgumentsBoilerplate { command: command@, span_start: *span_start as int },
            JsonCompletionContext::CommandName { prefix, span_start } => JsonCtxView::CommandName {
                prefix: prefix@,
                span_start: *span_start as int,
            },
            JsonCompletionContext::ArgKey {
                command,
                prefix,
                span_start,
                in_quotes,
                used_keys,
                nesting,
                level_kv,
            } => JsonCtxView::ArgKey {
                command: command@,
                prefix: prefix@,
                span_start: *span_start as int,
                in_quotes: *in_quotes,
                used_keys: used_keys.deep_view(),
                nesting: nesting.deep_view(),
                level_kv: level_kv.deep_view(),
            },
            JsonCompletionContext::ArgValue {
                command,
                key,
                prefix,
                span_start,
                in_quotes,
                nesting,
                level_kv,
            } => JsonCtxView::ArgValue {
                command: command@,
                key: key@,
                prefix: prefix@,
                span_start: *span_start as int,
                in_quotes: *in_quotes,
                nesting: nesting.deep_view(),
                level_kv: level_kv.deep_view(),
            },
        }
    }
}

/// The result of parsing a partial JSON command: no completion context, a
/// context, or a line that cannot be handled (a span start below zero,
/// or a nesting depth past `u32::MAX`): the callers exclude it.
pub ghost enum JsonParse {
    NoContext,
    Ctx(JsonCtxView),
    Abort,
}

pub open spec fn parse_matches(r: Option<JsonCompletionContext>, p: JsonParse) -> bool {
    match p {
        JsonParse::NoContext => r is None,
        JsonParse::Ctx(c) => r matches Some(x) && x.deep_view() == c,
        JsonParse::Abort => false,
    }
}

/// The keys of the completed segments, and the pairs whose value is a
/// string.
pub open spec fn collect_kv(segs: Seq<Seq<char>>) -> (Seq<Seq<char>>, Seq<(Seq<char>, Seq<char>)>)
    decreases segs.len(),
{
    if segs.len() == 0 {
        (seq![], seq![])
    } else {
        let (u, kv) = collect_kv(segs.drop_last());
        match spec_extract_segment_kv(segs.last()) {
            Some((k, v)) => (
                u.push(k),
                match v {
                    Some(val) => kv.push((k, val)),
                    None => kv,
                },
            ),
            None => (u, kv),
        }
    }
}

pub open spec fn key_ctx(
    command: Seq<char>,
    prefix: Seq<char>,
    span_start: int,
    in_quotes: bool,
    used_keys: Seq<Seq<char>>,
    nesting: Seq<FrameView>,
    level_kv: Seq<(Seq<char>, Seq<char>)>,
) -> JsonParse {
    if span_start < 0 {
        JsonParse::Abort
    } else {
        JsonParse::Ctx(
            JsonCtxView::ArgKey { command, prefix, span_start, in_quotes, used_keys, nesting, level_kv },
        )
    }
}

pub open spec fn value_ctx(
    command: Seq<char>,
    key: Seq<char>,
    prefix: Seq<char>,
    span_start: int,
    in_quotes: bool,
    nesting: Seq<FrameView>,
    level_kv: Seq<(Seq<char>, Seq<char>)>,
) -> JsonParse {
    if span_start < 0 {
        JsonParse::Abort
    } else {
        JsonParse::Ctx(
            JsonCtxView::ArgValue { command, key, prefix, span_start, in_quotes, nesting, level_kv },
        )
    }
}

/// The context inside an argument object: `content` is everything after
/// its opening `{`; `pos` is the cursor's byte position in the line.
pub open spec fn spec_parse_args(
    content: Seq<char>,
    command: Seq<char>,
    pos: int,
    nesting: Seq<FrameView>,
) -> JsonParse
    decreases content.len(),
{
    match comma_scan(content, 0, 0, false, false) {
        None => JsonParse::Abort,
        Some(ix) => {
            let segs = split_at(content, ix, 0);
            let (used, kv) = collect_kv(segs.drop_last());
            let t = trim_start(segs.last());
            if t.len() == 0 {
                key_ctx(command, seq![], pos, false, used, nesting, kv)
            } else if t[0] == '"' {
                let aq = t.skip(1);
                let ke = find_from(aq, '"', 0);
                if ke < aq.len() {
                    let key = aq.take(ke);
                    let ak = trim_start(aq.skip(ke + 1));
                    if ak.len() > 0 && ak[0] == ':' {
                        let ac = trim_start(ak.skip(1));
                        if ac.len() > 0 && ac[0] == '{' {
                            let inner = ac.skip(1);
                            if inner.len() < content.len() {
                                spec_parse_args(
                                    inner,
                                    command,
                                    pos,
                                    nesting.push(FrameView { key, parent_kv: kv }),
                                )
                            } else {
                                JsonParse::Abort
                            }
                        } else if ac.len() > 0 && ac[0] == '"' && find_from(ac.skip(1), '"', 0)
                            >= ac.skip(1).len() {
                            let vc = ac.skip(1);
                            value_ctx(command, key, vc, pos - byte_len(vc), true, nesting, kv)
                        } else if !(ac.len() > 0 && ac[0] == '[') {
                            value_ctx(command, key, ac, pos - byte_len(ac), false, nesting, kv)
                        } else {
                            JsonParse::NoContext
                        }
                    } else {
                        JsonParse::NoContext
                    }
                } else {
                    key_ctx(command, aq, pos - byte_len(aq), true, used, nesting, kv)
                }
            } else {
                JsonParse::NoContext
            }
        }
    }
}

/// `pos - byte_len(x)`, or `None` when that is below zero.
pub fn sub_byte_len(pos: usize, x: &Vec<char>) -> (r: Option<usize>)
    ensures
        match r {
            Some(v) => v == pos - byte_len(x@),
            None => pos - byte_len(x@) < 0,
        },
{
    let mut acc = pos;
    let mut i: usize = 0;
    assert(x@.take(0) =~= Seq::<char>::empty());
    while i < x.len()
        invariant
            i <= x@.len(),
            acc == pos - byte_len(x@.take(i as int)),
        decreases x@.len() - i,
    {
        proof {
            assert(x@.take(i + 1).drop_last() =~= x@.take(i as int));
            crate::format::lemma_byte_len_prefix_mono(x@, i + 1);
            crate::format::lemma_byte_len_sub_pub(x@, 0, i + 1);
            assert(x@.subrange(0, i + 1) =~= x@.take(i + 1));
        }
        let w = crate::text::char_utf8_len(x[i]);
        if w > acc {
            return None;
        }
        acc = acc - w;
        i = i + 1;
    }
    assert(x@.take(x@.len() as int) =~= x@);
    Some(acc)
}

pub fn strings_of(vs: &Vec<Vec<char>>) -> (r: Vec<String>)
    ensures
        r.deep_view() == vs.deep_view(),
{
    let mut r: Vec<String> = Vec::new();
    let mut i: usize = 0;
    while i < vs.len()
        invariant
            i <= vs@.len(),
            r.deep_view() == vs.deep_view().take(i as int),
        decreases vs@.len() - i,
    {
        let s = string_from(&vs[i]);
        let ghost before = r.deep_view();
        r.push(s);
        proof {
            assert(vs[i as int].deep_view() =~= vs[i as int]@);
            assert(r.deep_view() =~= before.push(vs.deep_view()[i as int]));
            assert(vs.deep_view().take(i + 1) =~= vs.deep_view().take(i as int).push(
                vs.deep_view()[i as int],
            ));
        }
        i = i + 1;
    }
    assert(vs.deep_view().take(vs@.len() as int) =~= vs.deep_view());
    r
}

/// Collects the used keys and string pairs of `segs[0..n]`.
fn collect_pairs(segs: &Vec<Vec<char>>, n: usize) -> (r: (Vec<String>, Vec<(String, String)>))
    requires
        n <= segs@.len(),
    ensures
        (r.0.deep_view(), r.1.deep_view()) == collect_kv(segs.deep_view().take(n as int)),
{
    let mut used: Vec<String> = Vec::new();
    let mut kv: Vec<(String, String)> = Vec::new();
    let mut i: usize = 0;
    assert(segs.deep_view().take(0) =~= Seq::<Seq<char>>::empty());
    while i < n
        invariant
            i <= n <= segs@.len(),
            (used.deep_view(), kv.deep_view()) == collect_kv(segs.deep_view().take(i as int)),
        decreases n - i,
    {
        let ghost u0 = used.deep_view();
        let ghost k0 = kv.deep_view();
        proof {
            let t = segs.deep_view().take(i + 1);
            assert(t.drop_last() =~= segs.deep_view().take(i as int));
            assert(t.last() == segs@[i as int].deep_view());
            assert(segs@[i as int].deep_view() =~= segs@[i as int]@);
        }
        match extract_kv_chars(&segs[i]) {
            Some((k, v)) => {
                let ks = string_from(&k);
                let ks2 = string_from(&k);
                used.push(ks);
                assert(used.deep_view() =~= u0.push(k@));
                match v {
                    Some(val) => {
                        kv.push((ks2, string_from(&val)));
                        assert(kv.deep_view() =~= k0.push((k@, val@)));
                    },
                    None => {},
                }
            },
            None => {},
        }
        i = i + 1;
    }
    (used, kv)
}

/// Parses argument content recursively, building nesting frames when
/// descending into nested `{}` values.
pub fn parse_json_args_recursive(
    content: &Vec<char>,
    command: &Vec<char>,
    pos: usize,
    nesting: Vec<NestingFrame>,
) -> (r: Option<JsonCompletionContext>)
    requires
        !(spec_parse_args(content@, command@, pos as int, nesting.deep_view()) is Abort),
    ensures
        parse_matches(r, spec_parse_args(content@, command@, pos as int, nesting.deep_view())),
    decreases content@.len(),
{
    let ghost sp = spec_parse_args(content@, command@, pos as int, nesting.deep_view());
    let ix = comma_indices(content);
    proof {
        lemma_comma_scan(content@, 0, 0, false, false);
        lemma_split_at(content@, ix@.map_values(|x: usize| x as int), 0);
    }
    let segs = split_segments(content, &ix);
    let nsegs = segs.len();
    let (used, kv) = collect_pairs(&segs, nsegs - 1);
    let last = &segs[nsegs - 1];
    proof {
        assert(segs.deep_view().take(nsegs - 1) =~= segs.deep_view().drop_last());
        assert(segs.deep_view().last() == segs@[nsegs - 1].deep_view());
        assert(segs@[nsegs - 1].deep_view() =~= segs@[nsegs - 1]@);
    }
    let t = trim_start_v(last);
    if t.len() == 0 {
        return Some(
            JsonCompletionContext::ArgKey {
                command: string_from(command),
                prefix: String::new(),
                span_start: pos,
                in_quotes: false,
                used_keys: used,
                nesting,
                level_kv: kv,
            },
        );
    }
    if t[0] != '"' {
        return None;
    }
    let aq = tail(&t, 1);
    let ke = find_char(&aq, '"');
    if ke >= aq.len() {
        let span = match sub_byte_len(pos, &aq) {
            Some(v) => v,
            None => {
                return None;
            },
        };
        return Some(
            JsonCompletionContext::ArgKey {
                command: string_from(command),
                prefix: string_from(&aq),
                span_start: span,
                in_quotes: true,
                used_keys: used,
                nesting,
                level_kv: kv,
            },
        );
    }
    let key = slice_of(&aq, 0, ke);
    assert(key@ =~= aq@.take(ke as int));
    let after_key = tail(&aq, ke + 1);
    let ak = trim_start_v(&after_key);
    if !(ak.len() > 0 && ak[0] == ':') {
        return None;
    }
    let ak1 = tail(&ak, 1);
    let ac = trim_start_v(&ak1);
    if ac.len() > 0 && ac[0] == '{' {
        let inner = tail(&ac, 1);
        if inner.len() >= content.len() {
            return None;
        }
        let ghost nv = nesting.deep_view();
        let mut new_nesting = nesting;
        let frame = NestingFrame { key: string_from(&key), parent_kv: kv };
        new_nesting.push(frame);
        assert(new_nesting.deep_view() =~= nv.push(FrameView { key: key@, parent_kv: kv.deep_view() }));
        return parse_json_args_recursive(&inner, command, pos, new_nesting);
    }
    if ac.len() > 0 && ac[0] == '"' {
        let vc = tail(&ac, 1);
        let ve = find_char(&vc, '"');
        if ve >= vc.len() {
            let span = match sub_byte_len(pos, &vc) {
                Some(v) => v,
                None => {
                    return None;
                },
            };
            return Some(
                JsonCompletionContext::ArgValue {
                    command: string_from(command),
                    key: string_from(&key),
                    prefix: string_from(&vc),
                    span_start: span,
                    in_quotes: true,
                    nesting,
                    level_kv: kv,
                },
            );
        }
    }
    if !(ac.len() > 0 && ac[0] == '[') {
        let span = match sub_byte_len(pos, &ac) {
            Some(v) => v,
            None => {
                return None;
            },
        };
        return Some(
            JsonCompletionContext::ArgValue {
                command: string_from(command),
                key: string_from(&key),
                prefix: string_from(&ac),
                span_start: span,
                in_quotes: false,
                nesting,
                level_kv: kv,
            },
        );
    }
    None
}

pub open spec fn boilerplate_at(span_start: int) -> JsonParse {
    JsonParse::Ctx(JsonCtxView::Boilerplate { span_start })
}

/// What follows the command name: the argument object, or a start of
/// `, "arguments": {` that the boilerplate can complete.
pub open spec fn spec_after_command(
    command: Seq<char>,
    after_cmd: Seq<char>,
    cmd_end: int,
    pos: int,
) -> JsonParse {
    let ab = JsonParse::Ctx(JsonCtxView::ArgumentsBoilerplate { command, span_start: cmd_end });
    match find_seq(after_cmd, "\"arguments\""@, 0) {
        Some(ai) => {
            let aa = trim_start(after_cmd.skip(ai + "\"arguments\""@.len()));
            if !(aa.len() > 0 && aa[0] == ':') {
                ab
            } else {
                let ac = trim_start(aa.skip(1));
                if !(ac.len() > 0 && ac[0] == '{') {
                    ab
                } else {
                    spec_parse_args(ac.skip(1), command, pos, seq![])
                }
            }
        },
        None => {
            let st = trim_start(after_cmd);
            if st.len() == 0 {
                ab
            } else if st[0] == ',' {
                let a2 = trim_start(st.skip(1));
                if a2.len() == 0 {
                    ab
                } else if a2[0] == '"' && is_prefix(a2.skip(1), "arguments\""@) {
                    ab
                } else {
                    JsonParse::NoContext
                }
            } else {
                JsonParse::NoContext
            }
        },
    }
}

/// The completion context of a partial JSON QMP command `line` with the
/// cursor at byte `pos`.
pub open spec fn spec_parse_json_context(line: Seq<char>, pos: int) -> JsonParse {
    let t = trim_start(line);
    if !(t.len() > 0 && t[0] == '{') {
        JsonParse::NoContext
    } else {
        let bi = find_from(line, '{', 0);
        let brace = byte_len(line.take(bi)) as int;
        match find_seq(line, "\"execute\""@, 0) {
            None => {
                let ab = trim_start(line.skip(bi + 1));
                if ab.len() == 0 {
                    boilerplate_at(brace)
                } else if ab[0] == '"' && is_prefix(ab.skip(1), "execute\""@) {
                    boilerplate_at(brace)
                } else {
                    JsonParse::NoContext
                }
            },
            Some(ei) => {
                let ae = trim_start(line.skip(ei + "\"execute\""@.len()));
                if !(ae.len() > 0 && ae[0] == ':') {
                    if ae.len() == 0 {
                        boilerplate_at(brace)
                    } else {
                        JsonParse::NoContext
                    }
                } else {
                    let ac = trim_start(ae.skip(1));
                    if !(ac.len() > 0 && ac[0] == '"') {
                        if ac.len() == 0 {
                            boilerplate_at(brace)
                        } else {
                            JsonParse::NoContext
                        }
                    } else {
                        let aq = ac.skip(1);
                        let e = find_from(aq, '"', 0);
                        if e >= aq.len() {
                            if pos - byte_len(aq) < 0 {
                                JsonParse::Abort
                            } else {
                                JsonParse::Ctx(
                                    JsonCtxView::CommandName {
                                        prefix: aq,
                                        span_start: pos - byte_len(aq),
                                    },
                                )
                            }
                        } else {
                            let after_cmd = aq.skip(e + 1);
                            if pos - byte_len(after_cmd) < 0 {
                                JsonParse::Abort
                            } else {
                                spec_after_command(
                                    aq.take(e),
                                    after_cmd,
                                    pos - byte_len(after_cmd),
                                    pos,
                                )
                            }
                        }
                    }
                }
            },
        }
    }
}

fn after_command(command: &Vec<char>, after_cmd: &Vec<char>, cmd_end: usize, pos: usize) -> (r:
    Option<JsonCompletionContext>)
    requires
        !(spec_after_command(command@, after_cmd@, cmd_end as int, pos as int) is Abort),
    ensures
        parse_matches(r, spec_after_command(command@, after_cmd@, cmd_end as int, pos as int)),
{
    let args_key = to_chars("\"arguments\"");
    let n = after_cmd.len();
    match find_str(after_cmd, &args_key) {
        Some(ai) => {
            let rest = tail(after_cmd, ai + args_key.len());
            let aa = trim_start_v(&rest);
            if !(aa.len() > 0 && aa[0] == ':') {
                return Some(
                    JsonCompletionContext::ArgumentsBoilerplate {
                        command: string_from(command),
                        span_start: cmd_end,
                    },
                );
            }
            let aa1 = tail(&aa, 1);
            let ac = trim_start_v(&aa1);
            if !(ac.len() > 0 && ac[0] == '{') {
                return Some(
                    JsonCompletionContext::ArgumentsBoilerplate {
                        command: string_from(command),
                        span_start: cmd_end,
                    },
                );
            }
            let content = tail(&ac, 1);
            let nesting: Vec<NestingFrame> = Vec::new();
            assert(nesting.deep_view() =~= Seq::<FrameView>::empty());
            parse_json_args_recursive(&content, command, pos, nesting)
        },
        None => {
            let st = trim_start_v(after_cmd);
            let ab = Some(
                JsonCompletionContext::ArgumentsBoilerplate {
                    command: string_from(command),
                    span_start: cmd_end,
                },
            );
            if st.len() == 0 {
                return ab;
            }
            if st[0] == ',' {
                let st1 = tail(&st, 1);
                let a2 = trim_start_v(&st1);
                if a2.len() == 0 {
                    return ab;
                }
                let word = to_chars("arguments\"");
                let a21 = tail(&a2, 1);
                if a2[0] == '"' && starts_with(&word, &a21) {
                    return ab;
                }
            }
            None
        },
    }
}

/// Parses a partial JSON line to determine the completion context.
pub fn parse_json_context(line: &str, pos: usize) -> (r: Option<JsonCompletionContext>)
    requires
        byte_len(line@) <= usize::MAX,
        !(spec_parse_json_context(line@, pos as int) is Abort),
    ensures
        parse_matches(r, spec_parse_json_context(line@, pos as int)),
{
    let v = to_chars(line);
    let n = v.len();
    let t = trim_start_v(&v);
    if !(t.len() > 0 && t[0] == '{') {
        return None;
    }
    let bi = find_char(&v, '{');
    proof {
        lemma_lead_ws(v@);
        assert(t@[0] == v@[lead_ws(v@) as int]);
        assert(v@[lead_ws(v@) as int] == '{');
        lemma_find_from(v@, '{', 0);
        crate::format::lemma_byte_len_sub_pub(v@, 0, bi as int);
        assert(v@.subrange(0, bi as int) =~= v@.take(bi as int));
    }
    assert(bi < v@.len());
    let brace = crate::text::utf8_len(&v, 0, bi);
    let exec_key = to_chars("\"execute\"");
    let ei = match find_str(&v, &exec_key) {
        Some(ei) => ei,
        None => {
            let rest = tail(&v, bi + 1);
            let ab = trim_start_v(&rest);
            if ab.len() == 0 {
                return Some(JsonCompletionContext::Boilerplate { span_start: brace });
            }
            let word = to_chars("execute\"");
            let ab1 = tail(&ab, 1);
            if ab[0] == '"' && starts_with(&word, &ab1) {
                return Some(JsonCompletionContext::Boilerplate { span_start: brace });
            }
            return None;
        },
    };
    let rest = tail(&v, ei + exec_key.len());
    let ae = trim_start_v(&rest);
    if !(ae.len() > 0 && ae[0] == ':') {
        if ae.len() == 0 {
            return Some(JsonCompletionContext::Boilerplate { span_start: brace });
        }
        return None;
    }
    let ae1 = tail(&ae, 1);
    let ac = trim_start_v(&ae1);
    if !(ac.len() > 0 && ac[0] == '"') {
        if ac.len() == 0 {
            return Some(JsonCompletionContext::Boilerplate { span_start: brace });
        }
        return None;
    }
    let aq = tail(&ac, 1);
    let e = find_char(&aq, '"');
    if e >= aq.len() {
        let span = match sub_byte_len(pos, &aq) {
            Some(x) => x,
            None => {
                return None;
            },
        };
        return Some(JsonCompletionContext::CommandName { prefix: string_from(&aq), span_start: span });
    }
    let command = slice_of(&aq, 0, e);
    assert(command@ =~= aq@.take(e as int));
    let after_cmd = tail(&aq, e + 1);
    let cmd_end = match sub_byte_len(pos, &after_cmd) {
        Some(x) => x,
        None => {
            return None;
        },
    };
    after_command(&command, &after_cmd, cmd_end, pos)
}

// ---------------------------------------------------------------------
// JSON completion
// ---------------------------------------------------------------------

pub proof fn lemma_filter_map_step<A, B>(s: Seq<A>, i: int, p: spec_fn(A) -> bool, f: spec_fn(A) -> B)
    requires
        0 <= i < s.len(),
    ensures
        s.take(i + 1).filter(p).map_values(f) == (if p(s[i]) {
            s.take(i).filter(p).map_values(f).push(f(s[i]))
        } else {
            s.take(i).filter(p).map_values(f)
        }),
{
    lemma_filter_step(s, i, p);
    if p(s[i]) {
        assert(s.take(i).filter(p).push(s[i]).map_values(f) =~= s.take(i).filter(p).map_values(
            f,
        ).push(f(s[i])));
    }
}

pub open spec fn has_prefix(prefix: Seq<char>) -> spec_fn(Seq<char>) -> bool {
    |c: Seq<char>| is_prefix(prefix, c)
}

pub open spec fn command_sugg(span_start: int, pos: int) -> spec_fn(Seq<char>) -> SuggestionView {
    |c: Seq<char>| sugg(c + "\""@, None, span_start, pos, false, Some(c))
}

/// A key to complete: not used yet, and starting with the prefix.
pub open spec fn key_wanted(prefix: Seq<char>, used: Seq<Seq<char>>) -> spec_fn(MemberView) -> bool {
    |m: MemberView| is_prefix(prefix, m.name) && !used.contains(m.name)
}

pub open spec fn key_text(name: Seq<char>, in_quotes: bool) -> Seq<char> {
    if in_quotes {
        name + "\": "@
    } else {
        "\""@ + name + "\": "@
    }
}

pub open spec fn key_sugg(in_quotes: bool, span_start: int, pos: int) -> spec_fn(MemberView) -> SuggestionView {
    |m: MemberView|
        sugg(key_text(m.name, in_quotes), Some(m.display_type), span_start, pos, false, Some(m.name))
}

pub open spec fn enum_text(v: Seq<char>, in_quotes: bool) -> Seq<char> {
    if in_quotes {
        v + "\""@
    } else {
        "\""@ + v + "\""@
    }
}

pub open spec fn enum_sugg(desc: Seq<char>, in_quotes: bool, span_start: int, pos: int) -> spec_fn(Seq<char>) -> SuggestionView {
    |v: Seq<char>| sugg(enum_text(v, in_quotes), Some(desc), span_start, pos, false, Some(v))
}

pub open spec fn bool_sugg(span_start: int, pos: int) -> spec_fn(Seq<char>) -> SuggestionView {
    |v: Seq<char>| sugg(v, Some("bool"@), span_start, pos, false, None)
}

/// The values offered for the member `key`: the values of its enum, or
/// `true` / `false` for an unquoted bool.
pub open spec fn value_suggestions(
    schema: SchemaView,
    members: Seq<MemberView>,
    key: Seq<char>,
    prefix: Seq<char>,
    span_start: int,
    pos: int,
    in_quotes: bool,
) -> Seq<SuggestionView> {
    match find_member(members, key) {
        None => seq![],
        Some(m) => match lookup(schema.enums, m.type_id) {
            Some(vals) => vals.filter(has_prefix(prefix)).map_values(
                enum_sugg(m.display_type, in_quotes, span_start, pos),
            ),
            None => if !in_quotes && m.display_type == "bool"@ {
                seq!["true"@, "false"@].filter(has_prefix(prefix)).map_values(
                    bool_sugg(span_start, pos),
                )
            } else {
                seq![]
            },
        },
    }
}

/// The suggestions for a partial JSON QMP command.
pub open spec fn spec_complete_json(schema: SchemaView, line: Seq<char>, pos: int) -> Seq<
    SuggestionView,
> {
    match spec_parse_json_context(line, pos) {
        JsonParse::Ctx(c) => match c {
            JsonCtxView::Boilerplate { span_start } => seq![
                sugg("{\"execute\": \""@, Some("QMP command"@), span_start, pos, false, None),
            ],
            JsonCtxView::ArgumentsBoilerplate { command, span_start } => if lookup(
                schema.command_args,
                command,
            ) is Some {
                seq![
                    sugg(", \"arguments\": {"@, Some("QMP arguments"@), span_start, pos, false, None),
                ]
            } else {
                seq![]
            },
            JsonCtxView::CommandName { prefix, span_start } => schema.qmp_commands.filter(
                has_prefix(prefix),
            ).map_values(command_sugg(span_start, pos)),
            JsonCtxView::ArgKey {
                command,
                prefix,
                span_start,
                in_quotes,
                used_keys,
                nesting,
                level_kv,
            } => spec_resolve_members(schema, command, nesting, level_kv).filter(
                key_wanted(prefix, used_keys),
            ).map_values(key_sugg(in_quotes, span_start, pos)),
            JsonCtxView::ArgValue { command, key, prefix, span_start, in_quotes, nesting, level_kv } =>
                value_suggestions(
                schema,
                spec_resolve_members(schema, command, nesting, level_kv),
                key,
                prefix,
                span_start,
                pos,
                in_quotes,
            ),
        },
        _ => seq![],
    }
}

/// An argument key is never offered twice: where the cursor stands at a
/// key, every suggestion names a key of the command (or of the nested
/// object) that begins with what was typed and is not used yet at that
/// level.
pub proof fn law_json_keys_not_repeated(schema: SchemaView, line: Seq<char>, pos: int)
    ensures
        spec_parse_json_context(line, pos) matches JsonParse::Ctx(
            JsonCtxView::ArgKey { command, prefix, used_keys, nesting, level_kv, .. },
        ) ==> forall|i: int|
            0 <= i < spec_complete_json(schema, line, pos).len() ==> (#[trigger] spec_complete_json(
                schema,
                line,
                pos,
            )[i].display_override matches Some(n) && !used_keys.contains(n) && is_prefix(prefix, n)
                && spec_resolve_members(schema, command, nesting, level_kv).map_values(
                |m: MemberView| m.name,
            ).contains(n)),
{
    if let JsonParse::Ctx(
        JsonCtxView::ArgKey { command, prefix, span_start, in_quotes, used_keys, nesting, level_kv },
    ) = spec_parse_json_context(line, pos) {
        let ms = spec_resolve_members(schema, command, nesting, level_kv);
        let p = key_wanted(prefix, used_keys);
        let f = ms.filter(p);
        let r = spec_complete_json(schema, line, pos);
        assert(r == f.map_values(key_sugg(in_quotes, span_start, pos)));
        assert forall|i: int| 0 <= i < r.len() implies (#[trigger] r[i].display_override matches Some(
            n,
        ) && !used_keys.contains(n) && is_prefix(prefix, n) && ms.map_values(
            |m: MemberView| m.name,
        ).contains(n)) by {
            ms.lemma_filter_pred(p, i);
            assert(f.contains(f[i]));
            ms.lemma_filter_contains_rev(p, f[i]);
            let q = choose|q: int| 0 <= q < ms.len() && ms[q] == f[i];
            assert(ms.map_values(|m: MemberView| m.name)[q] == f[i].name);
        }
    }
}

pub fn new_sugg(
    value: String,
    description: Option<String>,
    start: usize,
    end: usize,
    append_whitespace: bool,
    display_override: Option<String>,
) -> (r: Suggestion)
    ensures
        r.deep_view() == sugg(
            value@,
            description.deep_view(),
            start as int,
            end as int,
            append_whitespace,
            display_override.deep_view(),
        ),
{
    Suggestion { value, description, span: Span { start, end }, append_whitespace, display_override }
}

fn command_suggestions(cmds: &Vec<String>, prefix: &Vec<char>, span_start: usize, pos: usize) -> (r:
    Vec<Suggestion>)
    ensures
        r.deep_view() == cmds.deep_view().filter(has_prefix(prefix@)).map_values(
            command_sugg(span_start as int, pos as int),
        ),
{
    let ghost dv = cmds.deep_view();
    let mut out: Vec<Suggestion> = Vec::new();
    let mut i: usize = 0;
    while i < cmds.len()
        invariant
            i <= cmds@.len(),
            dv == cmds.deep_view(),
            out.deep_view() == dv.take(i as int).filter(has_prefix(prefix@)).map_values(
                command_sugg(span_start as int, pos as int),
            ),
        decreases cmds@.len() - i,
    {
        proof {
            lemma_filter_map_step(dv, i as int, has_prefix(prefix@), command_sugg(span_start as int, pos as int));
        }
        let c = to_chars(cmds[i].as_str());
        assert(dv[i as int] == cmds@[i as int]@);
        if starts_with(&c, prefix) {
            let mut value = cmds[i].clone();
            push_char(&mut value, '"');
            proof {
                reveal_strlit("\"");
                assert(value@ =~= c@ + "\""@);
            }
            let sg = new_sugg(value, None, span_start, pos, false, Some(cmds[i].clone()));
            let ghost before = out.deep_view();
            out.push(sg);
            assert(out.deep_view() =~= before.push(command_sugg(span_start as int, pos as int)(dv[i as int])));
        }
        i = i + 1;
    }
    assert(dv.take(cmds@.len() as int) =~= dv);
    out
}

pub fn contains_str(v: &Vec<String>, x: &Vec<char>) -> (r: bool)
    ensures
        r == v.deep_view().contains(x@),
{
    let ghost dv = v.deep_view();
    let mut i: usize = 0;
    while i < v.len()
        invariant
            i <= v@.len(),
            dv == v.deep_view(),
            forall|k: int| 0 <= k < i ==> dv[k] != x@,
        decreases v@.len() - i,
    {
        let c = to_chars(v[i].as_str());
        assert(dv[i as int] == v@[i as int]@);
        if crate::text::same(&c, x) {
            return true;
        }
        i = i + 1;
    }
    false
}

fn key_suggestions(
    members: &Vec<SchemaMember>,
    prefix: &Vec<char>,
    used: &Vec<String>,
    in_quotes: bool,
    span_start: usize,
    pos: usize,
) -> (r: Vec<Suggestion>)
    ensures
        r.deep_view() == members.deep_view().filter(key_wanted(prefix@, used.deep_view())).map_values(
            key_sugg(in_quotes, span_start as int, pos as int),
        ),
{
    let ghost dv = members.deep_view();
    let ghost p = key_wanted(prefix@, used.deep_view());
    let ghost f = key_sugg(in_quotes, span_start as int, pos as int);
    let mut out: Vec<Suggestion> = Vec::new();
    let mut i: usize = 0;
    while i < members.len()
        invariant
            i <= members@.len(),
            dv == members.deep_view(),
            p == key_wanted(prefix@, used.deep_view()),
            f == key_sugg(in_quotes, span_start as int, pos as int),
            out.deep_view() == dv.take(i as int).filter(p).map_values(f),
        decreases members@.len() - i,
    {
        proof {
            lemma_filter_map_step(dv, i as int, p, f);
        }
        let m = &members[i];
        let name = to_chars(m.name.as_str());
        assert(dv[i as int] == m.deep_view());
        if starts_with(&name, prefix) && !contains_str(used, &name) {
            let mut value = String::new();
            if !in_quotes {
                push_char(&mut value, '"');
            }
            push_str(&mut value, m.name.as_str());
            push_str(&mut value, "\": ");
            proof {
                reveal_strlit("\"");
                assert(value@ =~= key_text(name@, in_quotes));
            }
            let sg = new_sugg(
                value,
                Some(m.display_type.clone()),
                span_start,
                pos,
                false,
                Some(m.name.clone()),
            );
            let ghost before = out.deep_view();
            out.push(sg);
            assert(out.deep_view() =~= before.push(f(dv[i as int])));
        }
        i = i + 1;
    }
    assert(dv.take(members@.len() as int) =~= dv);
    out
}

fn enum_suggestions(
    vals: &Vec<String>,
    prefix: &Vec<char>,
    desc: &String,
    in_quotes: bool,
    span_start: usize,
    pos: usize,
) -> (r: Vec<Suggestion>)
    ensures
        r.deep_view() == vals.deep_view().filter(has_prefix(prefix@)).map_values(
            enum_sugg(desc@, in_quotes, span_start as int, pos as int),
        ),
{
    let ghost dv = vals.deep_view();
    let ghost f = enum_sugg(desc@, in_quotes, span_start as int, pos as int);
    let mut out: Vec<Suggestion> = Vec::new();
    let mut i: usize = 0;
    while i < vals.len()
        invariant
            i <= vals@.len(),
            dv == vals.deep_view(),
            f == enum_sugg(desc@, in_quotes, span_start as int, pos as int),
            out.deep_view() == dv.take(i as int).filter(has_prefix(prefix@)).map_values(f),
        decreases vals@.len() - i,
    {
        proof {
            lemma_filter_map_step(dv, i as int, has_prefix(prefix@), f);
        }
        let v = to_chars(vals[i].as_str());
        assert(dv[i as int] == vals@[i as int]@);
        if starts_with(&v, prefix) {
            let mut value = String::new();
            if !in_quotes {
                push_char(&mut value, '"');
            }
            push_str(&mut value, vals[i].as_str());
            push_char(&mut value, '"');
            proof {
                reveal_strlit("\"");
                assert(value@ =~= enum_text(v@, in_quotes));
            }
            let sg = new_sugg(
                value,
                Some(desc.clone()),
                span_start,
                pos,
                false,
                Some(vals[i].clone()),
            );
            let ghost before = out.deep_view();
            out.push(sg);
            assert(out.deep_view() =~= before.push(f(dv[i as int])));
        }
        i = i + 1;
    }
    assert(dv.take(vals@.len() as int) =~= dv);
    out
}

fn bool_suggestions(prefix: &Vec<char>, span_start: usize, pos: usize) -> (r: Vec<Suggestion>)
    ensures
        r.deep_view() == seq!["true"@, "false"@].filter(has_prefix(prefix@)).map_values(
            bool_sugg(span_start as int, pos as int),
        ),
{
    let vals: Vec<String> = vec![String::from_str("true"), String::from_str("false")];
    let ghost f = bool_sugg(span_start as int, pos as int);
    assert(vals.deep_view() =~= seq!["true"@, "false"@]);
    let ghost dv = vals.deep_view();
    let mut out: Vec<Suggestion> = Vec::new();
    let mut i: usize = 0;
    while i < vals.len()
        invariant
            i <= vals@.len(),
            dv == vals.deep_view(),
            f == bool_sugg(span_start as int, pos as int),
            out.deep_view() == dv.take(i as int).filter(has_prefix(prefix@)).map_values(f),
        decreases vals@.len() - i,
    {
        proof {
            lemma_filter_map_step(dv, i as int, has_prefix(prefix@), f);
        }
        let v = to_chars(vals[i].as_str());
        assert(dv[i as int] == vals@[i as int]@);
        if starts_with(&v, prefix) {
            let sg = new_sugg(vals[i].clone(), Some(String::from_str("bool")), span_start, pos, false, None);
            let ghost before = out.deep_view();
            out.push(sg);
            assert(out.deep_view() =~= before.push(f(dv[i as int])));
        }
        i = i + 1;
    }
    assert(dv.take(vals@.len() as int) =~= dv);
    out
}

fn value_suggestions_exec(
    schema: &SchemaCache,
    members: &Vec<SchemaMember>,
    key: &Vec<char>,
    prefix: &Vec<char>,
    span_start: usize,
    pos: usize,
    in_quotes: bool,
) -> (r: Vec<Suggestion>)
    ensures
        r.deep_view() == value_suggestions(
            schema.deep_view(),
            members.deep_view(),
            key@,
            prefix@,
            span_start as int,
            pos as int,
            in_quotes,
        ),
{
    match find_member_index(members, key) {
        None => Vec::new(),
        Some(mi) => {
            let m = &members[mi];
            let tid = to_chars(m.type_id.as_str());
            match find_entry(&schema.enums, &tid) {
                Some(ei) => enum_suggestions(
                    &schema.enums[ei].1,
                    prefix,
                    &m.display_type,
                    in_quotes,
                    span_start,
                    pos,
                ),
                None => {
                    let dt = to_chars(m.display_type.as_str());
                    let b = to_chars("bool");
                    if !in_quotes && crate::text::same(&dt, &b) {
                        bool_suggestions(prefix, span_start, pos)
                    } else {
                        Vec::new()
                    }
                },
            }
        },
    }
}

/// Generates the JSON QMP completion suggestions for `line` with the
/// cursor at byte `pos`.
pub fn complete_json_impl(line: &str, pos: usize, schema: &SchemaCache) -> (r: Vec<Suggestion>)
    requires
        byte_len(line@) <= usize::MAX,
        !(spec_parse_json_context(line@, pos as int) is Abort),
    ensures
        r.deep_view() == spec_complete_json(schema.deep_view(), line@, pos as int),
{
    let ctx = match parse_json_context(line, pos) {
        Some(c) => c,
        None => {
            return Vec::new();
        },
    };
    match ctx {
        JsonCompletionContext::Boilerplate { span_start } => {
            let sg = new_sugg(
                String::from_str("{\"execute\": \""),
                Some(String::from_str("QMP command")),
                span_start,
                pos,
                false,
                None,
            );
            let out = vec![sg];
            assert(out.deep_view() =~= spec_complete_json(schema.deep_view(), line@, pos as int));
            out
        },
        JsonCompletionContext::ArgumentsBoilerplate { command, span_start } => {
            let c = to_chars(command.as_str());
            if find_entry(&schema.command_args, &c).is_some() {
                let sg = new_sugg(
                    String::from_str(", \"arguments\": {"),
                    Some(String::from_str("QMP arguments")),
                    span_start,
                    pos,
                    false,
                    None,
                );
                let out = vec![sg];
                assert(out.deep_view() =~= spec_complete_json(schema.deep_view(), line@, pos as int));
                out
            } else {
                Vec::new()
            }
        },
        JsonCompletionContext::CommandName { prefix, span_start } => {
            let p = to_chars(prefix.as_str());
            command_suggestions(&schema.qmp_commands, &p, span_start, pos)
        },
        JsonCompletionContext::ArgKey {
            command,
            prefix,
            span_start,
            in_quotes,
            used_keys,
            nesting,
            level_kv,
        } => {
            let c = to_chars(command.as_str());
            let members = resolve_members(schema, &c, &nesting, &level_kv);
            let p = to_chars(prefix.as_str());
            key_suggestions(&members, &p, &used_keys, in_quotes, span_start, pos)
        },
        JsonCompletionContext::ArgValue {
            command,
            key,
            prefix,
            span_start,
            in_quotes,
            nesting,
            level_kv,
        } => {
            let c = to_chars(command.as_str());
            let members = resolve_members(schema, &c, &nesting, &level_kv);
            let k = to_chars(key.as_str());
            let p = to_chars(prefix.as_str());
            value_suggestions_exec(schema, &members, &k, &p, span_start, pos, in_quotes)
        },
    }
}

// ---------------------------------------------------------------------
// Lines on which parsing cannot fail
// ---------------------------------------------------------------------

/// `x` is a suffix of `s`.
pub open spec fn is_suffix(x: Seq<char>, s: Seq<char>) -> bool {
    x.len() <= s.len() && s.skip(s.len() - x.len()) == x
}

pub proof fn lemma_suffix_byte_len(x: Seq<char>, s: Seq<char>)
    requires
        is_suffix(x, s),
    ensures
        byte_len(x) <= byte_len(s),
{
    crate::format::lemma_byte_len_sub_pub(s, s.len() - x.len(), s.len() as int);
    assert(s.subrange(s.len() - x.len(), s.len() as int) =~= s.skip(s.len() - x.len()));
}

pub proof fn lemma_skip_suffix(x: Seq<char>, s: Seq<char>, k: int)
    requires
        is_suffix(x, s),
        0 <= k <= x.len(),
    ensures
        is_suffix(x.skip(k), s),
{
    assert(s.skip(s.len() - x.skip(k).len()) =~= x.skip(k));
}

pub proof fn lemma_trim_suffix(x: Seq<char>, s: Seq<char>)
    requires
        is_suffix(x, s),
    ensures
        is_suffix(trim_start(x), s),
        trim_start(x).len() <= x.len(),
{
    lemma_lead_ws(x);
    lemma_skip_suffix(x, s, lead_ws(x) as int);
}

pub proof fn lemma_comma_scan_some(s: Seq<char>, i: int, depth: nat, in_str: bool, esc: bool)
    requires
        0 <= i <= s.len(),
        depth + (s.len() - i) <= u32::MAX,
    ensures
        comma_scan(s, i, depth, in_str, esc) is Some,
    decreases s.len() - i,
{
    if i < s.len() {
        let c = s[i];
        let d2: nat = if depth > 0 {
            (depth - 1) as nat
        } else {
            0
        };
        lemma_comma_scan_some(s, i + 1, depth, in_str, false);
        lemma_comma_scan_some(s, i + 1, depth, c != '"', c == '\\');
        lemma_comma_scan_some(s, i + 1, depth, true, false);
        lemma_comma_scan_some(s, i + 1, d2, false, false);
        lemma_comma_scan_some(s, i + 1, depth, false, false);
        if depth + 1 + (s.len() - (i + 1)) <= u32::MAX {
            lemma_comma_scan_some(s, i + 1, depth + 1, false, false);
        }
    }
}

/// Parsing an argument object never fails on content no longer than the
/// cursor position allows.
pub proof fn lemma_parse_args_no_abort(
    content: Seq<char>,
    line: Seq<char>,
    command: Seq<char>,
    pos: int,
    nesting: Seq<FrameView>,
)
    requires
        is_suffix(content, line),
        byte_len(line) <= pos,
        line.len() <= u32::MAX,
    ensures
        !(spec_parse_args(content, command, pos, nesting) is Abort),
    decreases content.len(),
{
    lemma_comma_scan_some(content, 0, 0, false, false);
    let ix = comma_scan(content, 0, 0, false, false)->0;
    lemma_comma_scan(content, 0, 0, false, false);
    lemma_split_at(content, ix, 0);
    let segs = split_at(content, ix, 0);
    let (used, kv) = collect_kv(segs.drop_last());
    let last = segs.last();
    let t = trim_start(last);
    lemma_trim_suffix(last, content);
    assert(is_suffix(t, line)) by {
        assert(line.skip(line.len() - t.len()) =~= t);
    }
    if t.len() > 0 && t[0] == '"' {
        let aq = t.skip(1);
        lemma_skip_suffix(t, line, 1);
        lemma_suffix_byte_len(aq, line);
        let ke = find_from(aq, '"', 0);
        lemma_find_from(aq, '"', 0);
        if ke < aq.len() {
            let key = aq.take(ke);
            lemma_skip_suffix(aq, line, ke + 1);
            let ak = trim_start(aq.skip(ke + 1));
            lemma_trim_suffix(aq.skip(ke + 1), line);
            if ak.len() > 0 && ak[0] == ':' {
                lemma_skip_suffix(ak, line, 1);
                let ac = trim_start(ak.skip(1));
                lemma_trim_suffix(ak.skip(1), line);
                lemma_suffix_byte_len(ac, line);
                if ac.len() > 0 && ac[0] == '{' {
                    let inner = ac.skip(1);
                    lemma_skip_suffix(ac, line, 1);
                    assert(inner.len() < content.len()) by {
                        assert(ac.len() <= ak.len() && ak.len() <= aq.len() - ke - 1);
                        assert(aq.len() < t.len() && t.len() <= last.len());
                        assert(last.len() <= content.len());
                    }
                    lemma_parse_args_no_abort(
                        inner,
                        line,
                        command,
                        pos,
                        nesting.push(FrameView { key, parent_kv: kv }),
                    );
                } else if ac.len() > 0 && ac[0] == '"' {
                    lemma_skip_suffix(ac, line, 1);
                    lemma_suffix_byte_len(ac.skip(1), line);
                }
            }
        }
    }
}

/// Parsing a line never fails when the cursor is at its end or beyond.
pub proof fn lemma_parse_context_no_abort(line: Seq<char>, pos: int)
    requires
        byte_len(line) <= pos,
        line.len() <= u32::MAX,
    ensures
        !(spec_parse_json_context(line, pos) is Abort),
{
    assert(is_suffix(line, line)) by {
        assert(line.skip(0) =~= line);
    }
    let t = trim_start(line);
    if t.len() > 0 && t[0] == '{' {
        match find_seq(line, "\"execute\""@, 0) {
            None => {},
            Some(ei) => {
                lemma_find_seq(line, "\"execute\""@, 0);
                let k = ei + "\"execute\""@.len();
                lemma_skip_suffix(line, line, k);
                let ae = trim_start(line.skip(k));
                lemma_trim_suffix(line.skip(k), line);
                if ae.len() > 0 && ae[0] == ':' {
                    lemma_skip_suffix(ae, line, 1);
                    let ac = trim_start(ae.skip(1));
                    lemma_trim_suffix(ae.skip(1), line);
                    if ac.len() > 0 && ac[0] == '"' {
                        let aq = ac.skip(1);
                        lemma_skip_suffix(ac, line, 1);
                        lemma_suffix_byte_len(aq, line);
                        let e = find_from(aq, '"', 0);
                        lemma_find_from(aq, '"', 0);
                        if e < aq.len() {
                            let after_cmd = aq.skip(e + 1);
                            lemma_skip_suffix(aq, line, e + 1);
                            lemma_suffix_byte_len(after_cmd, line);
                            match find_seq(after_cmd, "\"arguments\""@, 0) {
                                Some(ai) => {
                                    lemma_find_seq(after_cmd, "\"arguments\""@, 0);
                                    let k2 = ai + "\"arguments\""@.len();
                                    lemma_skip_suffix(after_cmd, line, k2);
                                    let aa = trim_start(after_cmd.skip(k2));
                                    lemma_trim_suffix(after_cmd.skip(k2), line);
                                    if aa.len() > 0 && aa[0] == ':' {
                                        lemma_skip_suffix(aa, line, 1);
                                        let ac2 = trim_start(aa.skip(1));
                                        lemma_trim_suffix(aa.skip(1), line);
                                        if ac2.len() > 0 && ac2[0] == '{' {
                                            lemma_skip_suffix(ac2, line, 1);
                                            lemma_parse_args_no_abort(
                                                ac2.skip(1),
                                                line,
                                                aq.take(e),
                                                pos,
                                                seq![],
                                            );
                                        }
                                    }
                                },
                                None => {},
                            }
                        }
                    }
                }
            },
        }
    }
}

} // verus!
