//! The QMP schema data that completion uses, read from the reply to
//! `query-qmp-schema`.
use vstd::prelude::*;

use crate::completer::{
    find_entry, lookup, MemberView, SchemaCache, SchemaMember, TaggedUnionInfo, UnionView,
};
use crate::json::{get, get_member, Json};

verus! {

// ---------------------------------------------------------------------
// Tables with one entry per key
// ---------------------------------------------------------------------

/// The table, read by key, is the map.
pub open spec fn table_is<V>(t: Seq<(Seq<char>, V)>, m: Map<Seq<char>, V>) -> bool {
    forall|k: Seq<char>|
        #[trigger] lookup(t, k) == (if m.dom().contains(k) {
            Some(m[k])
        } else {
            None
        })
}

pub open spec fn unique_keys<V>(t: Seq<(Seq<char>, V)>) -> bool {
    forall|i: int, j: int| 0 <= i < j < t.len() ==> #[trigger] t[i].0 != #[trigger] t[j].0
}

pub proof fn lemma_lookup_push<V>(t: Seq<(Seq<char>, V)>, x: (Seq<char>, V), k: Seq<char>)
    ensures
        lookup(t.push(x), k) == (if lookup(t, k) is Some {
            lookup(t, k)
        } else if x.0 == k {
            Some(x.1)
        } else {
            None
        }),
    decreases t.len(),
{
    let p = t.push(x);
    if t.len() > 0 {
        lemma_lookup_push(t.drop_first(), x, k);
        assert(p.drop_first() =~= t.drop_first().push(x));
        assert(p[0] == t[0]);
        if t[0].0 == k {
            assert(lookup(p, k) == Some(t[0].1));
        } else {
            assert(lookup(p, k) == lookup(p.drop_first(), k));
            assert(lookup(t, k) == lookup(t.drop_first(), k));
        }
    } else {
        assert(p.drop_first() =~= Seq::<(Seq<char>, V)>::empty());
        assert(p[0] == x);
        assert(lookup(t, k) is None);
        if x.0 != k {
            assert(lookup(p, k) == lookup(p.drop_first(), k));
        }
    }
}

pub proof fn lemma_lookup_none<V>(t: Seq<(Seq<char>, V)>, k: Seq<char>)
    ensures
        lookup(t, k) is None <==> (forall|j: int| 0 <= j < t.len() ==> #[trigger] t[j].0 != k),
    decreases t.len(),
{
    if t.len() > 0 {
        lemma_lookup_none(t.drop_first(), k);
        if lookup(t, k) is None {
            assert forall|j: int| 0 <= j < t.len() implies #[trigger] t[j].0 != k by {
                if j > 0 {
                    assert(t[j] == t.drop_first()[j - 1]);
                }
            }
        } else if t[0].0 != k {
            let j = choose|j: int| 0 <= j < t.drop_first().len() && t.drop_first()[j].0 == k;
            assert(t[j + 1] == t.drop_first()[j]);
        }
    }
}

pub proof fn lemma_lookup_unique<V>(t: Seq<(Seq<char>, V)>, i: int)
    requires
        unique_keys(t),
        0 <= i < t.len(),
    ensures
        lookup(t, t[i].0) == Some(t[i].1),
    decreases t.len(),
{
    if i > 0 {
        let d = t.drop_first();
        assert forall|a: int, b: int| 0 <= a < b < d.len() implies #[trigger] d[a].0 != #[trigger] d[b].0 by {
            assert(d[a] == t[a + 1] && d[b] == t[b + 1]);
        }
        assert(d[i - 1] == t[i]);
        lemma_lookup_unique(d, i - 1);
        assert(t[0].0 != t[i].0);
    }
}

pub proof fn lemma_lookup_update<V>(t: Seq<(Seq<char>, V)>, i: int, v: V, k: Seq<char>)
    requires
        unique_keys(t),
        0 <= i < t.len(),
    ensures
        unique_keys(t.update(i, (t[i].0, v))),
        lookup(t.update(i, (t[i].0, v)), k) == (if k == t[i].0 {
            Some(v)
        } else {
            lookup(t, k)
        }),
    decreases t.len(),
{
    let u = t.update(i, (t[i].0, v));
    assert forall|a: int, b: int| 0 <= a < b < u.len() implies #[trigger] u[a].0 != #[trigger] u[b].0 by {
        assert(u[a].0 == t[a].0 && u[b].0 == t[b].0);
    }
    if i == 0 {
        if k != t[0].0 {
            assert(u.drop_first() =~= t.drop_first());
        }
    } else {
        let d = t.drop_first();
        assert forall|a: int, b: int| 0 <= a < b < d.len() implies #[trigger] d[a].0 != #[trigger] d[b].0 by {
            assert(d[a] == t[a + 1] && d[b] == t[b + 1]);
        }
        assert(d[i - 1] == t[i]);
        lemma_lookup_update(d, i - 1, v, k);
        assert(u.drop_first() =~= d.update(i - 1, (d[i - 1].0, v)));
        assert(t[0].0 != t[i].0);
    }
}

/// Sets the value of key `k`, adding an entry when there is none.
pub fn upsert<V: DeepView>(t: &mut Vec<(String, V)>, k: String, v: V)
    requires
        unique_keys(old(t).deep_view()),
    ensures
        unique_keys(final(t).deep_view()),
        forall|key: Seq<char>|
            #[trigger] lookup(final(t).deep_view(), key) == (if key == k@ {
                Some(v.deep_view())
            } else {
                lookup(old(t).deep_view(), key)
            }),
{
    let ghost o = t.deep_view();
    let ghost vd = v.deep_view();
    let ghost kd = k@;
    let kc = crate::text::to_chars(k.as_str());
    match find_entry(t, &kc) {
        Some(i) => {
            proof {
                assert(o[i as int] == t@[i as int].deep_view());
            }
            t.set(i, (k, v));
            proof {
                assert(t.deep_view() =~= o.update(i as int, (o[i as int].0, vd)));
                assert forall|key: Seq<char>| #[trigger] lookup(t.deep_view(), key) == (if key == kd {
                    Some(vd)
                } else {
                    lookup(o, key)
                }) by {
                    lemma_lookup_update(o, i as int, vd, key);
                }
                lemma_lookup_update(o, i as int, vd, kd);
            }
        },
        None => {
            t.push((k, v));
            proof {
                assert(t.deep_view() =~= o.push((kd, vd)));
                lemma_lookup_none(o, kd);
                assert forall|key: Seq<char>| #[trigger] lookup(t.deep_view(), key) == (if key == kd {
                    Some(vd)
                } else {
                    lookup(o, key)
                }) by {
                    lemma_lookup_push(o, (kd, vd), key);
                }
                let u = t.deep_view();
                assert forall|a: int, b: int| 0 <= a < b < u.len() implies #[trigger] u[a].0 != #[trigger] u[b].0 by {
                    if b == o.len() {
                        assert(u[a] == o[a]);
                    } else {
                        assert(u[a] == o[a] && u[b] == o[b]);
                    }
                }
            }
        },
    }
}

// ---------------------------------------------------------------------
// Reading the schema entries
// ---------------------------------------------------------------------

pub open spec fn opt_str(j: Option<Json>) -> Option<Seq<char>> {
    crate::json::as_str(j)
}

pub open spec fn array_of(j: Option<Json>) -> Option<Seq<Json>> {
    match j {
        Some(Json::Array(v)) => Some(v@),
        _ => None,
    }
}

/// The string items of an array.
pub open spec fn str_items(v: Seq<Json>) -> Seq<Seq<char>>
    decreases v.len(),
{
    if v.len() == 0 {
        seq![]
    } else {
        let r = str_items(v.drop_last());
        match opt_str(Some(v.last())) {
            Some(s) => r.push(s),
            None => r,
        }
    }
}

/// The `a` string members of the items of an array (items without one are
/// skipped).
pub open spec fn field_items(v: Seq<Json>, a: Seq<char>) -> Seq<Seq<char>>
    decreases v.len(),
{
    if v.len() == 0 {
        seq![]
    } else {
        let r = field_items(v.drop_last(), a);
        match opt_str(get(v.last(), a)) {
            Some(s) => r.push(s),
            None => r,
        }
    }
}

/// The (`a`, `b`) string members of the items of an array that have both.
pub open spec fn pair_items(v: Seq<Json>, a: Seq<char>, b: Seq<char>) -> Seq<(Seq<char>, Seq<char>)>
    decreases v.len(),
{
    if v.len() == 0 {
        seq![]
    } else {
        let r = pair_items(v.drop_last(), a, b);
        match (opt_str(get(v.last(), a)), opt_str(get(v.last(), b))) {
            (Some(x), Some(y)) => r.push((x, y)),
            _ => r,
        }
    }
}

pub open spec fn entry_name(e: Json) -> Option<Seq<char>> {
    opt_str(get(e, "name"@))
}

pub open spec fn entry_meta(e: Json) -> Seq<char> {
    match opt_str(get(e, "meta-type"@)) {
        Some(m) => m,
        None => seq![],
    }
}

/// The values of an enum: the names of its members, or else its
/// deprecated plain `values`.
pub open spec fn enum_values(e: Json) -> Seq<Seq<char>> {
    match array_of(get(e, "members"@)) {
        Some(arr) => field_items(arr, "name"@),
        None => match array_of(get(e, "values"@)) {
            Some(arr) => str_items(arr),
            None => seq![],
        },
    }
}

/// The (name, type) members of an object.
pub open spec fn object_members(e: Json) -> Seq<(Seq<char>, Seq<char>)> {
    match array_of(get(e, "members"@)) {
        Some(arr) => pair_items(arr, "name"@, "type"@),
        None => seq![],
    }
}

/// The (case, type) variants of an object with variants.
pub open spec fn object_variants(e: Json) -> Option<Seq<(Seq<char>, Seq<char>)>> {
    match array_of(get(e, "variants"@)) {
        Some(arr) => Some(pair_items(arr, "case"@, "type"@)),
        None => None,
    }
}

pub open spec fn arg_type_of(e: Json) -> Seq<char> {
    match opt_str(get(e, "arg-type"@)) {
        Some(t) => t,
        None => seq![],
    }
}

/// Inserting, entry after entry, what `f` extracts: a later entry with
/// the same key replaces an earlier one.
pub open spec fn fold_map<V>(entries: Seq<Json>, n: int, f: spec_fn(Json) -> Option<(Seq<char>, V)>) -> Map<Seq<char>, V>
    decreases n,
{
    if n <= 0 {
        Map::empty()
    } else {
        let m = fold_map(entries, n - 1, f);
        match f(entries[n - 1]) {
            Some((k, v)) => m.insert(k, v),
            None => m,
        }
    }
}

/// A named entry of the given meta-type.
pub open spec fn named(e: Json, meta: Seq<char>) -> Option<Seq<char>> {
    if entry_meta(e) == meta {
        entry_name(e)
    } else {
        None
    }
}

pub open spec fn builtin_entry() -> spec_fn(Json) -> Option<(Seq<char>, Seq<char>)> {
    |e: Json| match named(e, "builtin"@) {
        Some(n) => Some((n, n)),
        None => None,
    }
}

pub open spec fn enum_entry() -> spec_fn(Json) -> Option<(Seq<char>, Seq<Seq<char>>)> {
    |e: Json| match named(e, "enum"@) {
        Some(n) => Some((n, enum_values(e))),
        None => None,
    }
}

pub open spec fn object_entry() -> spec_fn(Json) -> Option<(Seq<char>, Seq<(Seq<char>, Seq<char>)>)> {
    |e: Json| match named(e, "object"@) {
        Some(n) => Some((n, object_members(e))),
        None => None,
    }
}

pub open spec fn variants_entry() -> spec_fn(Json) -> Option<(Seq<char>, Seq<(Seq<char>, Seq<char>)>)> {
    |e: Json| match named(e, "object"@) {
        Some(n) => match object_variants(e) {
            Some(vs) => Some((n, vs)),
            None => None,
        },
        None => None,
    }
}

pub open spec fn tag_entry() -> spec_fn(Json) -> Option<(Seq<char>, Seq<char>)> {
    |e: Json| match named(e, "object"@) {
        Some(n) => match (object_variants(e), opt_str(get(e, "tag"@))) {
            (Some(_), Some(t)) => Some((n, t)),
            _ => None,
        },
        None => None,
    }
}

pub open spec fn command_entry() -> spec_fn(Json) -> Option<(Seq<char>, Seq<char>)> {
    |e: Json| match named(e, "command"@) {
        Some(n) => Some((n, arg_type_of(e))),
        None => None,
    }
}

/// The maps that the schema entries make.
pub ghost struct SchemaMaps {
    pub builtins: Map<Seq<char>, Seq<char>>,
    pub enums: Map<Seq<char>, Seq<Seq<char>>>,
    pub objects: Map<Seq<char>, Seq<(Seq<char>, Seq<char>)>>,
    pub variants: Map<Seq<char>, Seq<(Seq<char>, Seq<char>)>>,
    pub tags: Map<Seq<char>, Seq<char>>,
    pub commands: Map<Seq<char>, Seq<char>>,
}

pub open spec fn schema_maps(entries: Seq<Json>) -> SchemaMaps {
    let n = entries.len() as int;
    SchemaMaps {
        builtins: fold_map(entries, n, builtin_entry()),
        enums: fold_map(entries, n, enum_entry()),
        objects: fold_map(entries, n, object_entry()),
        variants: fold_map(entries, n, variants_entry()),
        tags: fold_map(entries, n, tag_entry()),
        commands: fold_map(entries, n, command_entry()),
    }
}

/// The human-readable type of a schema type ID: a builtin's own name,
/// `enum`, or `object`.
pub open spec fn display_type(s: SchemaMaps, id: Seq<char>) -> Seq<char> {
    if s.builtins.dom().contains(id) {
        s.builtins[id]
    } else if s.enums.dom().contains(id) {
        "enum"@
    } else {
        "object"@
    }
}

pub open spec fn make_member(s: SchemaMaps) -> spec_fn((Seq<char>, Seq<char>)) -> MemberView {
    |p: (Seq<char>, Seq<char>)| MemberView { name: p.0, display_type: display_type(s, p.1), type_id: p.1 }
}

pub open spec fn members_view(s: SchemaMaps, ps: Seq<(Seq<char>, Seq<char>)>) -> Seq<MemberView> {
    ps.map_values(make_member(s))
}

pub open spec fn map_get_or<V>(m: Map<Seq<char>, V>, k: Seq<char>, d: V) -> V {
    if m.dom().contains(k) {
        m[k]
    } else {
        d
    }
}

/// The members of `object-add`'s arguments other than its tag.
pub open spec fn object_add_base(s: SchemaMaps, id: Seq<char>) -> Seq<MemberView> {
    members_view(
        s,
        map_get_or(s.objects, id, seq![]).filter(
            |p: (Seq<char>, Seq<char>)| !(s.tags.dom().contains(id) && p.0 == s.tags[id]),
        ),
    )
}

/// For each `object-add` variant (QOM type), the base members and the
/// members of the variant; a later case replaces an earlier one.
pub open spec fn object_add_map(s: SchemaMaps, vars: Seq<(Seq<char>, Seq<char>)>, base: Seq<MemberView>, n: int) -> Map<Seq<char>, Seq<MemberView>>
    decreases n,
{
    if n <= 0 {
        Map::empty()
    } else {
        object_add_map(s, vars, base, n - 1).insert(
            vars[n - 1].0,
            base + members_view(s, map_get_or(s.objects, vars[n - 1].1, seq![])),
        )
    }
}

pub open spec fn object_add_variants(s: SchemaMaps) -> Map<Seq<char>, Seq<MemberView>> {
    if s.commands.dom().contains("object-add"@) {
        let id = s.commands["object-add"@];
        let vars = map_get_or(s.variants, id, seq![]);
        object_add_map(s, vars, object_add_base(s, id), vars.len() as int)
    } else {
        Map::empty()
    }
}

/// The pairs as a map; a later pair replaces an earlier one.
pub open spec fn pairs_map(ps: Seq<(Seq<char>, Seq<char>)>, n: int) -> Map<Seq<char>, Seq<char>>
    decreases n,
{
    if n <= 0 {
        Map::empty()
    } else {
        pairs_map(ps, n - 1).insert(ps[n - 1].0, ps[n - 1].1)
    }
}

/// The entries of the reply to `query-qmp-schema`.
pub open spec fn schema_entries(resp: Json) -> Seq<Json> {
    match array_of(get(resp, "return"@)) {
        Some(v) => v,
        None => seq![],
    }
}

/// What the cache holds for a schema reply: the enums; for each
/// `object-add` QOM type its properties; the command names, sorted; the
/// argument members of each command that has some; the members of each
/// object type that has some; the tagged unions; and the argument type of
/// each command that has one.  Every table holds one entry per key.
pub open spec fn schema_built(c: crate::completer::SchemaView, resp: Json) -> bool {
    let s = schema_maps(schema_entries(resp));
    &&& table_is(c.enums, s.enums) && unique_keys(c.enums)
    &&& table_is(c.object_add_variants, object_add_variants(s)) && unique_keys(c.object_add_variants)
    &&& crate::hmp_completer::strictly_sorted(c.qmp_commands)
    &&& c.qmp_commands.to_set() == s.commands.dom()
    &&& unique_keys(c.command_args)
    &&& table_is(c.command_args, command_args_map(s))
    &&& unique_keys(c.object_types)
    &&& table_is(c.object_types, object_types_map(s))
    &&& unions_ok(c.tagged_unions, s) && unique_keys(c.tagged_unions)
    &&& unique_keys(c.command_arg_type_ids)
    &&& table_is(c.command_arg_type_ids, arg_type_ids_map(s))
}

// ---------------------------------------------------------------------
// Reading the entries, executably
// ---------------------------------------------------------------------

fn str_member(j: &Json, k: &str) -> (r: Option<String>)
    ensures
        r.deep_view() == opt_str(get(*j, k@)),
{
    match get_member(j, k) {
        Some(Json::Str(s)) => Some(s.clone()),
        _ => None,
    }
}

fn array_member<'a>(j: &'a Json, k: &str) -> (r: Option<&'a Vec<Json>>)
    ensures
        match r {
            Some(v) => array_of(get(*j, k@)) == Some(v@),
            None => array_of(get(*j, k@)) is None,
        },
{
    match get_member(j, k) {
        Some(Json::Array(v)) => Some(v),
        _ => None,
    }
}

fn str_items_exec(v: &Vec<Json>) -> (r: Vec<String>)
    ensures
        r.deep_view() == str_items(v@),
{
    let mut out: Vec<String> = Vec::new();
    let mut i: usize = 0;
    assert(v@.take(0) =~= Seq::<Json>::empty());
    while i < v.len()
        invariant
            i <= v@.len(),
            out.deep_view() == str_items(v@.take(i as int)),
        decreases v@.len() - i,
    {
        assert(v@.take(i + 1).drop_last() =~= v@.take(i as int));
        assert(v@.take(i + 1).last() == v@[i as int]);
        match &v[i] {
            Json::Str(s) => {
                let ghost before = out.deep_view();
                out.push(s.clone());
                assert(out.deep_view() =~= before.push(s@));
            },
            _ => {},
        }
        i = i + 1;
    }
    assert(v@.take(v@.len() as int) =~= v@);
    out
}

fn field_items_exec(v: &Vec<Json>, a: &str) -> (r: Vec<String>)
    ensures
        r.deep_view() == field_items(v@, a@),
{
    let mut out: Vec<String> = Vec::new();
    let mut i: usize = 0;
    assert(v@.take(0) =~= Seq::<Json>::empty());
    while i < v.len()
        invariant
            i <= v@.len(),
            out.deep_view() == field_items(v@.take(i as int), a@),
        decreases v@.len() - i,
    {
        assert(v@.take(i + 1).drop_last() =~= v@.take(i as int));
        assert(v@.take(i + 1).last() == v@[i as int]);
        match str_member(&v[i], a) {
            Some(x) => {
                let ghost before = out.deep_view();
                let ghost xv = x@;
                out.push(x);
                assert(out.deep_view() =~= before.push(xv));
            },
            None => {},
        }
        i = i + 1;
    }
    assert(v@.take(v@.len() as int) =~= v@);
    out
}

fn pair_items_exec(v: &Vec<Json>, a: &str, b: &str) -> (r: Vec<(String, String)>)
    ensures
        r.deep_view() == pair_items(v@, a@, b@),
{
    let mut out: Vec<(String, String)> = Vec::new();
    let mut i: usize = 0;
    assert(v@.take(0) =~= Seq::<Json>::empty());
    while i < v.len()
        invariant
            i <= v@.len(),
            out.deep_view() == pair_items(v@.take(i as int), a@, b@),
        decreases v@.len() - i,
    {
        assert(v@.take(i + 1).drop_last() =~= v@.take(i as int));
        assert(v@.take(i + 1).last() == v@[i as int]);
        let x = str_member(&v[i], a);
        let y = str_member(&v[i], b);
        match (x, y) {
            (Some(x), Some(y)) => {
                let ghost before = out.deep_view();
                let ghost p = (x@, y@);
                out.push((x, y));
                assert(out.deep_view() =~= before.push(p));
            },
            _ => {},
        }
        i = i + 1;
    }
    assert(v@.take(v@.len() as int) =~= v@);
    out
}

fn enum_values_exec(e: &Json) -> (r: Vec<String>)
    ensures
        r.deep_view() == enum_values(*e),
{
    match array_member(e, "members") {
        Some(arr) => field_items_exec(arr, "name"),
        None => match array_member(e, "values") {
            Some(arr) => str_items_exec(arr),
            None => Vec::new(),
        },
    }
}

fn object_members_exec(e: &Json) -> (r: Vec<(String, String)>)
    ensures
        r.deep_view() == object_members(*e),
{
    match array_member(e, "members") {
        Some(arr) => pair_items_exec(arr, "name", "type"),
        None => Vec::new(),
    }
}

fn object_variants_exec(e: &Json) -> (r: Option<Vec<(String, String)>>)
    ensures
        r.deep_view() == object_variants(*e),
{
    match array_member(e, "variants") {
        Some(arr) => Some(pair_items_exec(arr, "case", "type")),
        None => None,
    }
}

fn named_exec(e: &Json, meta: &str) -> (r: Option<String>)
    ensures
        r.deep_view() == named(*e, meta@),
{
    let m = match str_member(e, "meta-type") {
        Some(m) => m,
        None => String::new(),
    };
    let mc = crate::text::to_chars(m.as_str());
    let want = crate::text::to_chars(meta);
    if crate::text::same(&mc, &want) {
        str_member(e, "name")
    } else {
        None
    }
}

pub proof fn lemma_table_insert<V>(
    t_old: Seq<(Seq<char>, V)>,
    t_new: Seq<(Seq<char>, V)>,
    m: Map<Seq<char>, V>,
    k: Seq<char>,
    v: V,
)
    requires
        table_is(t_old, m),
        forall|key: Seq<char>|
            #[trigger] lookup(t_new, key) == (if key == k {
                Some(v)
            } else {
                lookup(t_old, key)
            }),
    ensures
        table_is(t_new, m.insert(k, v)),
{
    assert forall|key: Seq<char>| #[trigger] lookup(t_new, key) == (if m.insert(k, v).dom().contains(
        key,
    ) {
        Some(m.insert(k, v)[key])
    } else {
        None
    }) by {
        if key != k {
            assert(lookup(t_old, key) == (if m.dom().contains(key) {
                Some(m[key])
            } else {
                None
            }));
        }
    }
}

/// The tables of the first pass over the schema entries.
struct Tables {
    builtins: Vec<(String, String)>,
    enums: Vec<(String, Vec<String>)>,
    objects: Vec<(String, Vec<(String, String)>)>,
    variants: Vec<(String, Vec<(String, String)>)>,
    tags: Vec<(String, String)>,
    commands: Vec<(String, String)>,
}

spec fn tables_ok(t: Tables, s: SchemaMaps) -> bool {
    &&& table_is(t.builtins.deep_view(), s.builtins) && unique_keys(t.builtins.deep_view())
    &&& table_is(t.enums.deep_view(), s.enums) && unique_keys(t.enums.deep_view())
    &&& table_is(t.objects.deep_view(), s.objects) && unique_keys(t.objects.deep_view())
    &&& table_is(t.variants.deep_view(), s.variants) && unique_keys(t.variants.deep_view())
    &&& table_is(t.tags.deep_view(), s.tags) && unique_keys(t.tags.deep_view())
    &&& table_is(t.commands.deep_view(), s.commands) && unique_keys(t.commands.deep_view())
}

spec fn maps_upto(entries: Seq<Json>, n: int) -> SchemaMaps {
    SchemaMaps {
        builtins: fold_map(entries, n, builtin_entry()),
        enums: fold_map(entries, n, enum_entry()),
        objects: fold_map(entries, n, object_entry()),
        variants: fold_map(entries, n, variants_entry()),
        tags: fold_map(entries, n, tag_entry()),
        commands: fold_map(entries, n, command_entry()),
    }
}

fn scan_entries(entries: &Vec<Json>) -> (t: Tables)
    ensures
        tables_ok(t, schema_maps(entries@)),
{
    let mut t = Tables {
        builtins: Vec::new(),
        enums: Vec::new(),
        objects: Vec::new(),
        variants: Vec::new(),
        tags: Vec::new(),
        commands: Vec::new(),
    };
    let ghost ev = entries@;
    let mut i: usize = 0;
    while i < entries.len()
        invariant
            i <= entries@.len(),
            ev == entries@,
            tables_ok(t, maps_upto(ev, i as int)),
        decreases entries@.len() - i,
    {
        let e = &entries[i];
        let ghost m0 = maps_upto(ev, i as int);
        assert(ev[i as int] == *e);
        // builtins
        let ghost b0 = t.builtins.deep_view();
        match named_exec(e, "builtin") {
            Some(n) => {
                let ghost nv = n@;
                upsert(&mut t.builtins, n.clone(), n);
                proof {
                    lemma_table_insert(b0, t.builtins.deep_view(), m0.builtins, nv, nv);
                }
            },
            None => {},
        }
        // enums
        let ghost e0 = t.enums.deep_view();
        match named_exec(e, "enum") {
            Some(n) => {
                let ghost nv = n@;
                let vals = enum_values_exec(e);
                let ghost vv = vals.deep_view();
                upsert(&mut t.enums, n, vals);
                proof {
                    lemma_table_insert(e0, t.enums.deep_view(), m0.enums, nv, vv);
                }
            },
            None => {},
        }
        // objects, their variants and tags
        let ghost o0 = t.objects.deep_view();
        let ghost v0 = t.variants.deep_view();
        let ghost g0 = t.tags.deep_view();
        match named_exec(e, "object") {
            Some(n) => {
                let ghost nv = n@;
                let ms = object_members_exec(e);
                let ghost mv = ms.deep_view();
                upsert(&mut t.objects, n.clone(), ms);
                proof {
                    lemma_table_insert(o0, t.objects.deep_view(), m0.objects, nv, mv);
                }
                match object_variants_exec(e) {
                    Some(vs) => {
                        let ghost vsv = vs.deep_view();
                        upsert(&mut t.variants, n.clone(), vs);
                        proof {
                            lemma_table_insert(v0, t.variants.deep_view(), m0.variants, nv, vsv);
                        }
                        match str_member(e, "tag") {
                            Some(tag) => {
                                let ghost tv = tag@;
                                upsert(&mut t.tags, n, tag);
                                proof {
                                    lemma_table_insert(g0, t.tags.deep_view(), m0.tags, nv, tv);
                                }
                            },
                            None => {},
                        }
                    },
                    None => {},
                }
            },
            None => {},
        }
        // commands
        let ghost c0 = t.commands.deep_view();
        match named_exec(e, "command") {
            Some(n) => {
                let ghost nv = n@;
                let at = match str_member(e, "arg-type") {
                    Some(a) => a,
                    None => String::new(),
                };
                let ghost av = at@;
                upsert(&mut t.commands, n, at);
                proof {
                    lemma_table_insert(c0, t.commands.deep_view(), m0.commands, nv, av);
                }
            },
            None => {},
        }
        i = i + 1;
    }
    t
}

fn display_exec(t: &Tables, id: &String) -> (r: String)
    requires
        exists|s: SchemaMaps| tables_ok(*t, s),
    ensures
        forall|s: SchemaMaps| tables_ok(*t, s) ==> r@ == display_type(s, id@),
{
    let idc = crate::text::to_chars(id.as_str());
    match find_entry(&t.builtins, &idc) {
        Some(i) => t.builtins[i].1.clone(),
        None => match find_entry(&t.enums, &idc) {
            Some(_) => String::from_str("enum"),
            None => String::from_str("object"),
        },
    }
}

fn members_exec(t: &Tables, ps: &Vec<(String, String)>) -> (r: Vec<SchemaMember>)
    requires
        exists|s: SchemaMaps| tables_ok(*t, s),
    ensures
        forall|s: SchemaMaps| tables_ok(*t, s) ==> r.deep_view() == members_view(s, ps.deep_view()),
{
    let mut out: Vec<SchemaMember> = Vec::new();
    let mut i: usize = 0;
    while i < ps.len()
        invariant
            i <= ps@.len(),
            exists|s: SchemaMaps| tables_ok(*t, s),
            forall|s: SchemaMaps|
                tables_ok(*t, s) ==> out.deep_view() == members_view(s, ps.deep_view().take(i as int)),
        decreases ps@.len() - i,
    {
        let d = display_exec(t, &ps[i].1);
        let m = SchemaMember { name: ps[i].0.clone(), display_type: d, type_id: ps[i].1.clone() };
        let ghost before = out.deep_view();
        out.push(m);
        proof {
            assert forall|s: SchemaMaps| tables_ok(*t, s) implies out.deep_view() == members_view(
                s,
                ps.deep_view().take(i + 1),
            ) by {
                assert(ps.deep_view()[i as int] == ps@[i as int].deep_view());
                assert(ps.deep_view().take(i + 1) =~= ps.deep_view().take(i as int).push(
                    ps.deep_view()[i as int],
                ));
                assert(out.deep_view() =~= before.push(make_member(s)(ps.deep_view()[i as int])));
                assert(members_view(s, ps.deep_view().take(i + 1)) =~= members_view(
                    s,
                    ps.deep_view().take(i as int),
                ).push(make_member(s)(ps.deep_view()[i as int])));
            }
        }
        i = i + 1;
    }
    assert(ps.deep_view().take(ps@.len() as int) =~= ps.deep_view());
    out
}

fn copy_members(v: &Vec<SchemaMember>) -> (r: Vec<SchemaMember>)
    ensures
        r.deep_view() == v.deep_view(),
{
    let mut out: Vec<SchemaMember> = Vec::new();
    let mut i: usize = 0;
    while i < v.len()
        invariant
            i <= v@.len(),
            out.deep_view() == v.deep_view().take(i as int),
        decreases v@.len() - i,
    {
        let ghost before = out.deep_view();
        out.push(v[i].copy());
        assert(out.deep_view() =~= before.push(v@[i as int].deep_view()));
        assert(v.deep_view().take(i + 1) =~= v.deep_view().take(i as int).push(v@[i as int].deep_view()));
        i = i + 1;
    }
    assert(v.deep_view().take(v@.len() as int) =~= v.deep_view());
    out
}

fn object_add_exec(t: &Tables) -> (r: Vec<(String, Vec<SchemaMember>)>)
    requires
        exists|s: SchemaMaps| tables_ok(*t, s),
    ensures
        forall|s: SchemaMaps| tables_ok(*t, s) ==> table_is(r.deep_view(), object_add_variants(s)),
        unique_keys(r.deep_view()),
{
    let mut out: Vec<(String, Vec<SchemaMember>)> = Vec::new();
    let oa = crate::text::to_chars("object-add");
    let ci = match find_entry(&t.commands, &oa) {
        Some(ci) => ci,
        None => {
            proof {
                assert forall|s: SchemaMaps| tables_ok(*t, s) implies table_is(
                    out.deep_view(),
                    object_add_variants(s),
                ) by {
                    assert(lookup(t.commands.deep_view(), "object-add"@) is None);
                }
            }
            return out;
        },
    };
    let id = &t.commands[ci].1;
    let idc = crate::text::to_chars(id.as_str());
    // The base members: those of the argument type, without the tag.
    let tag: Option<String> = match find_entry(&t.tags, &idc) {
        Some(gi) => Some(t.tags[gi].1.clone()),
        None => None,
    };
    let all: Vec<(String, String)> = match find_entry(&t.objects, &idc) {
        Some(oi) => {
            let mut c: Vec<(String, String)> = Vec::new();
            let src = &t.objects[oi].1;
            let mut k: usize = 0;
            while k < src.len()
                invariant
                    k <= src@.len(),
                    c.deep_view() == src.deep_view().take(k as int),
                decreases src@.len() - k,
            {
                let ghost before = c.deep_view();
                c.push((src[k].0.clone(), src[k].1.clone()));
                assert(c.deep_view() =~= before.push(src@[k as int].deep_view()));
                assert(src.deep_view().take(k + 1) =~= src.deep_view().take(k as int).push(src@[k as int].deep_view()));
                k = k + 1;
            }
            assert(src.deep_view().take(src@.len() as int) =~= src.deep_view());
            c
        },
        None => Vec::new(),
    };
    assert(tag.deep_view() == lookup(t.tags.deep_view(), idc@));
    assert(all.deep_view() == match lookup(t.objects.deep_view(), idc@) {
        Some(x) => x,
        None => Seq::<(Seq<char>, Seq<char>)>::empty(),
    });
    let ghost pf = |p: (Seq<char>, Seq<char>)| !(tag.deep_view() is Some && p.0 == tag.deep_view()->0);
    let mut kept: Vec<(String, String)> = Vec::new();
    let mut k: usize = 0;
    while k < all.len()
        invariant
            k <= all@.len(),
            pf == (|p: (Seq<char>, Seq<char>)| !(tag.deep_view() is Some && p.0 == tag.deep_view()->0)),
            kept.deep_view() == all.deep_view().take(k as int).filter(pf),
        decreases all@.len() - k,
    {
        proof {
            crate::completer::lemma_filter_step(all.deep_view(), k as int, pf);
        }
        let keep = match &tag {
            Some(g) => {
                let a = crate::text::to_chars(all[k].0.as_str());
                let b = crate::text::to_chars(g.as_str());
                !crate::text::same(&a, &b)
            },
            None => true,
        };
        assert(all.deep_view()[k as int] == all@[k as int].deep_view());
        if keep {
            let ghost before = kept.deep_view();
            kept.push((all[k].0.clone(), all[k].1.clone()));
            assert(kept.deep_view() =~= before.push(all.deep_view()[k as int]));
        }
        k = k + 1;
    }
    assert(all.deep_view().take(all@.len() as int) =~= all.deep_view());
    let base = members_exec(t, &kept);
    // One entry per variant.
    let vars: Vec<(String, String)> = match find_entry(&t.variants, &idc) {
        Some(vi) => {
            let mut c: Vec<(String, String)> = Vec::new();
            let src = &t.variants[vi].1;
            let mut k: usize = 0;
            while k < src.len()
                invariant
                    k <= src@.len(),
                    c.deep_view() == src.deep_view().take(k as int),
                decreases src@.len() - k,
            {
                let ghost before = c.deep_view();
                c.push((src[k].0.clone(), src[k].1.clone()));
                assert(c.deep_view() =~= before.push(src@[k as int].deep_view()));
                assert(src.deep_view().take(k + 1) =~= src.deep_view().take(k as int).push(src@[k as int].deep_view()));
                k = k + 1;
            }
            assert(src.deep_view().take(src@.len() as int) =~= src.deep_view());
            c
        },
        None => Vec::new(),
    };
    let ghost vd = vars.deep_view();
    let mut j: usize = 0;
    while j < vars.len()
        invariant
            j <= vars@.len(),
            vd == vars.deep_view(),
            exists|s: SchemaMaps| tables_ok(*t, s),
            unique_keys(out.deep_view()),
            forall|s: SchemaMaps|
                tables_ok(*t, s) ==> table_is(
                    out.deep_view(),
                    object_add_map(s, vd, base.deep_view(), j as int),
                ),
        decreases vars@.len() - j,
    {
        let vt = crate::text::to_chars(vars[j].1.as_str());
        let mut ms = copy_members(&base);
        let extra: Vec<SchemaMember> = match find_entry(&t.objects, &vt) {
            Some(oi) => members_exec(t, &t.objects[oi].1),
            None => Vec::new(),
        };
        let ghost m0 = ms.deep_view();
        let mut q: usize = 0;
        while q < extra.len()
            invariant
                q <= extra@.len(),
                ms.deep_view() == m0 + extra.deep_view().take(q as int),
            decreases extra@.len() - q,
        {
            let ghost before = ms.deep_view();
            ms.push(extra[q].copy());
            assert(ms.deep_view() =~= before.push(extra@[q as int].deep_view()));
            assert(extra.deep_view().take(q + 1) =~= extra.deep_view().take(q as int).push(extra@[q as int].deep_view()));
            assert(m0 + extra.deep_view().take(q + 1) =~= before.push(extra@[q as int].deep_view()));
            q = q + 1;
        }
        assert(extra.deep_view().take(extra@.len() as int) =~= extra.deep_view());
        let ghost o0 = out.deep_view();
        let ghost msv = ms.deep_view();
        assert(vd[j as int] == vars@[j as int].deep_view());
        upsert(&mut out, vars[j].0.clone(), ms);
        proof {
            assert forall|s: SchemaMaps| tables_ok(*t, s) implies table_is(
                out.deep_view(),
                object_add_map(s, vd, base.deep_view(), j + 1),
            ) by {
                assert(msv == base.deep_view() + members_view(s, map_get_or(s.objects, vd[j as int].1, seq![])));
                lemma_table_insert(o0, out.deep_view(), object_add_map(s, vd, base.deep_view(), j as int), vd[j as int].0, msv);
            }
        }
        j = j + 1;
    }
    proof {
        assert forall|s: SchemaMaps| tables_ok(*t, s) implies table_is(out.deep_view(), object_add_variants(s)) by {
            assert(s.commands.dom().contains("object-add"@));
            assert(s.commands["object-add"@] == id@);
            assert(vd == map_get_or(s.variants, id@, seq![]));
            assert(lookup(t.tags.deep_view(), id@) == (if s.tags.dom().contains(id@) {
                Some(s.tags[id@])
            } else {
                None
            }));
            assert(lookup(t.objects.deep_view(), id@) == (if s.objects.dom().contains(id@) {
                Some(s.objects[id@])
            } else {
                None
            }));
            assert(pf =~= (|p: (Seq<char>, Seq<char>)| !(s.tags.dom().contains(id@) && p.0 == s.tags[id@])));
            assert(kept.deep_view() == map_get_or(s.objects, id@, seq![]).filter(
                |p: (Seq<char>, Seq<char>)| !(s.tags.dom().contains(id@) && p.0 == s.tags[id@]),
            ));
        }
    }
    out
}

pub proof fn lemma_take_step<V>(t: Seq<(Seq<char>, V)>, j: int, k: Seq<char>)
    requires
        unique_keys(t),
        0 <= j < t.len(),
    ensures
        lookup(t.take(j + 1), k) is Some <==> (lookup(t.take(j), k) is Some || k == t[j].0),
        lookup(t.take(j), t[j].0) is None,
{
    assert(t.take(j + 1) =~= t.take(j).push(t[j]));
    lemma_lookup_push(t.take(j), t[j], k);
    lemma_lookup_none(t.take(j), t[j].0);
    assert forall|q: int| 0 <= q < t.take(j).len() implies #[trigger] t.take(j)[q].0 != t[j].0 by {
        assert(t.take(j)[q] == t[q]);
    }
}

pub proof fn lemma_table_key<V>(t: Seq<(Seq<char>, V)>, m: Map<Seq<char>, V>, j: int)
    requires
        unique_keys(t),
        table_is(t, m),
        0 <= j < t.len(),
    ensures
        m.dom().contains(t[j].0),
        m[t[j].0] == t[j].1,
{
    lemma_lookup_unique(t, j);
    assert(lookup(t, t[j].0) == (if m.dom().contains(t[j].0) {
        Some(m[t[j].0])
    } else {
        None
    }));
}

pub open spec fn command_args_map(s: SchemaMaps) -> Map<Seq<char>, Seq<MemberView>> {
    Map::new(
        |k: Seq<char>|
            s.commands.dom().contains(k) && s.commands[k].len() > 0 && s.objects.dom().contains(
                s.commands[k],
            ) && s.objects[s.commands[k]].len() > 0,
        |k: Seq<char>| members_view(s, s.objects[s.commands[k]]),
    )
}

fn command_args_exec(t: &Tables) -> (r: Vec<(String, Vec<SchemaMember>)>)
    requires
        exists|s: SchemaMaps| tables_ok(*t, s),
    ensures
        forall|s: SchemaMaps| tables_ok(*t, s) ==> table_is(r.deep_view(), command_args_map(s)),
        unique_keys(r.deep_view()),
{
    let ghost tc = t.commands.deep_view();
    let mut out: Vec<(String, Vec<SchemaMember>)> = Vec::new();
    let mut j: usize = 0;
    while j < t.commands.len()
        invariant
            j <= t.commands@.len(),
            tc == t.commands.deep_view(),
            exists|s: SchemaMaps| tables_ok(*t, s),
            unique_keys(out.deep_view()),
            forall|s: SchemaMaps|
                tables_ok(*t, s) ==> table_is(
                    out.deep_view(),
                    Map::new(
                        |k: Seq<char>| command_args_map(s).dom().contains(k) && lookup(tc.take(j as int), k) is Some,
                        |k: Seq<char>| command_args_map(s)[k],
                    ),
                ),
        decreases t.commands@.len() - j,
    {
        let cmd = &t.commands[j].0;
        let id = &t.commands[j].1;
        assert(tc[j as int] == t.commands@[j as int].deep_view());
        let idc = crate::text::to_chars(id.as_str());
        let found = if idc.len() > 0 {
            match find_entry(&t.objects, &idc) {
                Some(oi) => if t.objects[oi].1.len() > 0 {
                    Some(oi)
                } else {
                    None
                },
                None => None,
            }
        } else {
            None
        };
        let ghost o0 = out.deep_view();
        match found {
            Some(oi) => {
                let ms = members_exec(t, &t.objects[oi].1);
                let ghost msv = ms.deep_view();
                upsert(&mut out, cmd.clone(), ms);
                proof {
                    assert forall|s: SchemaMaps| tables_ok(*t, s) implies table_is(
                        out.deep_view(),
                        Map::new(
                            |k: Seq<char>| command_args_map(s).dom().contains(k) && lookup(tc.take(j + 1), k) is Some,
                            |k: Seq<char>| command_args_map(s)[k],
                        ),
                    ) by {
                        lemma_table_key(tc, s.commands, j as int);
                        assert(lookup(t.objects.deep_view(), id@) == (if s.objects.dom().contains(id@) {
                            Some(s.objects[id@])
                        } else {
                            None
                        }));
                        assert(msv == members_view(s, s.objects[id@]));
                        assert forall|k: Seq<char>| #[trigger] lookup(out.deep_view(), k) == (if command_args_map(s).dom().contains(k) && lookup(tc.take(j + 1), k) is Some {
                            Some(command_args_map(s)[k])
                        } else {
                            None
                        }) by {
                            lemma_take_step(tc, j as int, k);
                        }
                    }
                }
            },
            None => {
                proof {
                    assert forall|s: SchemaMaps| tables_ok(*t, s) implies table_is(
                        out.deep_view(),
                        Map::new(
                            |k: Seq<char>| command_args_map(s).dom().contains(k) && lookup(tc.take(j + 1), k) is Some,
                            |k: Seq<char>| command_args_map(s)[k],
                        ),
                    ) by {
                        lemma_table_key(tc, s.commands, j as int);
                        assert(lookup(t.objects.deep_view(), id@) == (if s.objects.dom().contains(id@) {
                            Some(s.objects[id@])
                        } else {
                            None
                        }));
                        assert(!command_args_map(s).dom().contains(cmd@));
                        assert forall|k: Seq<char>| #[trigger] lookup(out.deep_view(), k) == (if command_args_map(s).dom().contains(k) && lookup(tc.take(j + 1), k) is Some {
                            Some(command_args_map(s)[k])
                        } else {
                            None
                        }) by {
                            lemma_take_step(tc, j as int, k);
                        }
                    }
                }
            },
        }
        j = j + 1;
    }
    proof {
        assert(tc.take(tc.len() as int) =~= tc);
        assert forall|s: SchemaMaps| tables_ok(*t, s) implies table_is(out.deep_view(), command_args_map(s)) by {
            assert forall|k: Seq<char>| #[trigger] lookup(out.deep_view(), k) == (if command_args_map(s).dom().contains(k) {
                Some(command_args_map(s)[k])
            } else {
                None
            }) by {
                assert(lookup(tc, k) == (if s.commands.dom().contains(k) {
                    Some(s.commands[k])
                } else {
                    None
                }));
            }
        }
    }
    out
}

pub open spec fn object_types_map(s: SchemaMaps) -> Map<Seq<char>, Seq<MemberView>> {
    Map::new(
        |k: Seq<char>| s.objects.dom().contains(k) && s.objects[k].len() > 0,
        |k: Seq<char>| members_view(s, s.objects[k]),
    )
}

fn object_types_exec(t: &Tables) -> (r: Vec<(String, Vec<SchemaMember>)>)
    requires
        exists|s: SchemaMaps| tables_ok(*t, s),
    ensures
        forall|s: SchemaMaps| tables_ok(*t, s) ==> table_is(r.deep_view(), object_types_map(s)),
        unique_keys(r.deep_view()),
{
    let ghost to = t.objects.deep_view();
    let mut out: Vec<(String, Vec<SchemaMember>)> = Vec::new();
    let mut j: usize = 0;
    while j < t.objects.len()
        invariant
            j <= t.objects@.len(),
            to == t.objects.deep_view(),
            exists|s: SchemaMaps| tables_ok(*t, s),
            unique_keys(out.deep_view()),
            forall|s: SchemaMaps|
                tables_ok(*t, s) ==> table_is(
                    out.deep_view(),
                    Map::new(
                        |k: Seq<char>| object_types_map(s).dom().contains(k) && lookup(to.take(j as int), k) is Some,
                        |k: Seq<char>| object_types_map(s)[k],
                    ),
                ),
        decreases t.objects@.len() - j,
    {
        let tid = &t.objects[j].0;
        assert(to[j as int] == t.objects@[j as int].deep_view());
        let ghost o0 = out.deep_view();
        if t.objects[j].1.len() > 0 {
            let ms = members_exec(t, &t.objects[j].1);
            let ghost msv = ms.deep_view();
            upsert(&mut out, tid.clone(), ms);
        }
        proof {
            assert forall|s: SchemaMaps| tables_ok(*t, s) implies table_is(
                out.deep_view(),
                Map::new(
                    |k: Seq<char>| object_types_map(s).dom().contains(k) && lookup(to.take(j + 1), k) is Some,
                    |k: Seq<char>| object_types_map(s)[k],
                ),
            ) by {
                lemma_table_key(to, s.objects, j as int);
                assert forall|k: Seq<char>| #[trigger] lookup(out.deep_view(), k) == (if object_types_map(s).dom().contains(k) && lookup(to.take(j + 1), k) is Some {
                    Some(object_types_map(s)[k])
                } else {
                    None
                }) by {
                    lemma_take_step(to, j as int, k);
                }
            }
        }
        j = j + 1;
    }
    proof {
        assert(to.take(to.len() as int) =~= to);
        assert forall|s: SchemaMaps| tables_ok(*t, s) implies table_is(out.deep_view(), object_types_map(s)) by {
            assert forall|k: Seq<char>| #[trigger] lookup(out.deep_view(), k) == (if object_types_map(s).dom().contains(k) {
                Some(object_types_map(s)[k])
            } else {
                None
            }) by {
                assert(lookup(to, k) == (if s.objects.dom().contains(k) {
                    Some(s.objects[k])
                } else {
                    None
                }));
            }
        }
    }
    out
}

pub open spec fn arg_type_ids_map(s: SchemaMaps) -> Map<Seq<char>, Seq<char>> {
    Map::new(
        |k: Seq<char>| s.commands.dom().contains(k) && s.commands[k].len() > 0,
        |k: Seq<char>| s.commands[k],
    )
}

fn arg_type_ids_exec(t: &Tables) -> (r: Vec<(String, String)>)
    requires
        exists|s: SchemaMaps| tables_ok(*t, s),
    ensures
        forall|s: SchemaMaps| tables_ok(*t, s) ==> table_is(r.deep_view(), arg_type_ids_map(s)),
        unique_keys(r.deep_view()),
{
    let ghost tc = t.commands.deep_view();
    let mut out: Vec<(String, String)> = Vec::new();
    let mut j: usize = 0;
    while j < t.commands.len()
        invariant
            j <= t.commands@.len(),
            tc == t.commands.deep_view(),
            exists|s: SchemaMaps| tables_ok(*t, s),
            unique_keys(out.deep_view()),
            forall|s: SchemaMaps|
                tables_ok(*t, s) ==> table_is(
                    out.deep_view(),
                    Map::new(
                        |k: Seq<char>| arg_type_ids_map(s).dom().contains(k) && lookup(tc.take(j as int), k) is Some,
                        |k: Seq<char>| arg_type_ids_map(s)[k],
                    ),
                ),
        decreases t.commands@.len() - j,
    {
        assert(tc[j as int] == t.commands@[j as int].deep_view());
        let idc = crate::text::to_chars(t.commands[j].1.as_str());
        if idc.len() > 0 {
            upsert(&mut out, t.commands[j].0.clone(), t.commands[j].1.clone());
        }
        proof {
            assert forall|s: SchemaMaps| tables_ok(*t, s) implies table_is(
                out.deep_view(),
                Map::new(
                    |k: Seq<char>| arg_type_ids_map(s).dom().contains(k) && lookup(tc.take(j + 1), k) is Some,
                    |k: Seq<char>| arg_type_ids_map(s)[k],
                ),
            ) by {
                lemma_table_key(tc, s.commands, j as int);
                assert forall|k: Seq<char>| #[trigger] lookup(out.deep_view(), k) == (if arg_type_ids_map(s).dom().contains(k) && lookup(tc.take(j + 1), k) is Some {
                    Some(arg_type_ids_map(s)[k])
                } else {
                    None
                }) by {
                    lemma_take_step(tc, j as int, k);
                }
            }
        }
        j = j + 1;
    }
    proof {
        assert(tc.take(tc.len() as int) =~= tc);
        assert forall|s: SchemaMaps| tables_ok(*t, s) implies table_is(out.deep_view(), arg_type_ids_map(s)) by {
            assert forall|k: Seq<char>| #[trigger] lookup(out.deep_view(), k) == (if arg_type_ids_map(s).dom().contains(k) {
                Some(arg_type_ids_map(s)[k])
            } else {
                None
            }) by {
                assert(lookup(tc, k) == (if s.commands.dom().contains(k) {
                    Some(s.commands[k])
                } else {
                    None
                }));
            }
        }
    }
    out
}

fn pairs_table(ps: &Vec<(String, String)>) -> (r: Vec<(String, String)>)
    ensures
        table_is(r.deep_view(), pairs_map(ps.deep_view(), ps@.len() as int)),
        unique_keys(r.deep_view()),
{
    let ghost pd = ps.deep_view();
    let mut out: Vec<(String, String)> = Vec::new();
    let mut i: usize = 0;
    while i < ps.len()
        invariant
            i <= ps@.len(),
            pd == ps.deep_view(),
            unique_keys(out.deep_view()),
            table_is(out.deep_view(), pairs_map(pd, i as int)),
        decreases ps@.len() - i,
    {
        let ghost o0 = out.deep_view();
        assert(pd[i as int] == ps@[i as int].deep_view());
        upsert(&mut out, ps[i].0.clone(), ps[i].1.clone());
        proof {
            lemma_table_insert(o0, out.deep_view(), pairs_map(pd, i as int), pd[i as int].0, pd[i as int].1);
        }
        i = i + 1;
    }
    out
}

/// The tagged unions: for each type with a tag and variants.
pub open spec fn unions_ok(u: Seq<(Seq<char>, UnionView)>, s: SchemaMaps) -> bool {
    &&& forall|k: Seq<char>|
        #[trigger] lookup(u, k) is Some <==> (s.tags.dom().contains(k) && s.variants.dom().contains(k))
    &&& forall|k: Seq<char>|
        #![trigger lookup(u, k)]
        lookup(u, k) matches Some(x) ==> x.tag == s.tags[k] && table_is(
            x.variants,
            pairs_map(s.variants[k], s.variants[k].len() as int),
        ) && unique_keys(x.variants)
}

fn unions_exec(t: &Tables) -> (r: Vec<(String, TaggedUnionInfo)>)
    requires
        exists|s: SchemaMaps| tables_ok(*t, s),
    ensures
        forall|s: SchemaMaps| tables_ok(*t, s) ==> unions_ok(r.deep_view(), s),
        unique_keys(r.deep_view()),
{
    let ghost tg = t.tags.deep_view();
    let mut out: Vec<(String, TaggedUnionInfo)> = Vec::new();
    let mut j: usize = 0;
    while j < t.tags.len()
        invariant
            j <= t.tags@.len(),
            tg == t.tags.deep_view(),
            exists|s: SchemaMaps| tables_ok(*t, s),
            unique_keys(out.deep_view()),
            forall|s: SchemaMaps|
                tables_ok(*t, s) ==> (forall|k: Seq<char>|
                    #[trigger] lookup(out.deep_view(), k) is Some <==> (s.tags.dom().contains(k)
                        && s.variants.dom().contains(k) && lookup(tg.take(j as int), k) is Some)),
            forall|s: SchemaMaps|
                tables_ok(*t, s) ==> (forall|k: Seq<char>|
                    #![trigger lookup(out.deep_view(), k)]
                    lookup(out.deep_view(), k) matches Some(x) ==> x.tag == s.tags[k] && table_is(
                        x.variants,
                        pairs_map(s.variants[k], s.variants[k].len() as int),
                    ) && unique_keys(x.variants)),
        decreases t.tags@.len() - j,
    {
        let tid = &t.tags[j].0;
        assert(tg[j as int] == t.tags@[j as int].deep_view());
        let tc = crate::text::to_chars(tid.as_str());
        let ghost o0 = out.deep_view();
        match find_entry(&t.variants, &tc) {
            Some(vi) => {
                let vars = pairs_table(&t.variants[vi].1);
                let info = TaggedUnionInfo { tag: t.tags[j].1.clone(), variants: vars };
                let ghost iv = info.deep_view();
                upsert(&mut out, tid.clone(), info);
                proof {
                    assert forall|s: SchemaMaps| tables_ok(*t, s) implies (forall|k: Seq<char>|
                        #[trigger] lookup(out.deep_view(), k) is Some <==> (s.tags.dom().contains(k)
                            && s.variants.dom().contains(k) && lookup(tg.take(j + 1), k) is Some)) && (forall|k: Seq<char>|
                        #![trigger lookup(out.deep_view(), k)]
                        lookup(out.deep_view(), k) matches Some(x) ==> x.tag == s.tags[k] && table_is(
                            x.variants,
                            pairs_map(s.variants[k], s.variants[k].len() as int),
                        ) && unique_keys(x.variants)) by {
                        lemma_table_key(tg, s.tags, j as int);
                        assert(lookup(t.variants.deep_view(), tid@) == (if s.variants.dom().contains(tid@) {
                            Some(s.variants[tid@])
                        } else {
                            None
                        }));
                        assert forall|k: Seq<char>| #[trigger] lookup(out.deep_view(), k) is Some <==> (s.tags.dom().contains(k)
                            && s.variants.dom().contains(k) && lookup(tg.take(j + 1), k) is Some) by {
                            lemma_take_step(tg, j as int, k);
                        }
                    }
                }
            },
            None => {
                proof {
                    assert forall|s: SchemaMaps| tables_ok(*t, s) implies (forall|k: Seq<char>|
                        #[trigger] lookup(out.deep_view(), k) is Some <==> (s.tags.dom().contains(k)
                            && s.variants.dom().contains(k) && lookup(tg.take(j + 1), k) is Some)) by {
                        lemma_table_key(tg, s.tags, j as int);
                        assert(lookup(t.variants.deep_view(), tid@) == (if s.variants.dom().contains(tid@) {
                            Some(s.variants[tid@])
                        } else {
                            None
                        }));
                        assert forall|k: Seq<char>| #[trigger] lookup(out.deep_view(), k) is Some <==> (s.tags.dom().contains(k)
                            && s.variants.dom().contains(k) && lookup(tg.take(j + 1), k) is Some) by {
                            lemma_take_step(tg, j as int, k);
                        }
                    }
                }
            },
        }
        j = j + 1;
    }
    proof {
        assert(tg.take(tg.len() as int) =~= tg);
        assert forall|s: SchemaMaps| tables_ok(*t, s) implies unions_ok(out.deep_view(), s) by {
            assert forall|k: Seq<char>| #[trigger] lookup(out.deep_view(), k) is Some <==> (s.tags.dom().contains(k) && s.variants.dom().contains(k)) by {
                assert(lookup(tg, k) == (if s.tags.dom().contains(k) {
                    Some(s.tags[k])
                } else {
                    None
                }));
            }
        }
    }
    out
}

fn command_names(t: &Tables) -> (r: Vec<String>)
    requires
        exists|s: SchemaMaps| tables_ok(*t, s),
    ensures
        forall|s: SchemaMaps| tables_ok(*t, s) ==> r.deep_view().to_set() == s.commands.dom(),
        crate::hmp_completer::strictly_sorted(r.deep_view()),
{
    let ghost tc = t.commands.deep_view();
    let mut keys: Vec<String> = Vec::new();
    let mut j: usize = 0;
    while j < t.commands.len()
        invariant
            j <= t.commands@.len(),
            tc == t.commands.deep_view(),
            keys.deep_view() == tc.take(j as int).map_values(|p: (Seq<char>, Seq<char>)| p.0),
        decreases t.commands@.len() - j,
    {
        assert(tc[j as int] == t.commands@[j as int].deep_view());
        let ghost before = keys.deep_view();
        keys.push(t.commands[j].0.clone());
        assert(keys.deep_view() =~= before.push(tc[j as int].0));
        assert(tc.take(j + 1).map_values(|p: (Seq<char>, Seq<char>)| p.0) =~= tc.take(j as int).map_values(
            |p: (Seq<char>, Seq<char>)| p.0,
        ).push(tc[j as int].0));
        j = j + 1;
    }
    assert(tc.take(tc.len() as int) =~= tc);
    let ghost kv = keys.deep_view();
    let r = crate::hmp_completer::sort_dedup(keys);
    proof {
        assert forall|s: SchemaMaps| tables_ok(*t, s) implies r.deep_view().to_set() == s.commands.dom() by {
            assert forall|k: Seq<char>| kv.to_set().contains(k) <==> s.commands.dom().contains(k) by {
                lemma_lookup_none(tc, k);
                assert(lookup(tc, k) == (if s.commands.dom().contains(k) {
                    Some(s.commands[k])
                } else {
                    None
                }));
                if kv.to_set().contains(k) {
                    let q = choose|q: int| 0 <= q < kv.len() && kv[q] == k;
                    assert(tc[q].0 == k);
                }
                if s.commands.dom().contains(k) {
                    let q = choose|q: int| 0 <= q < tc.len() && tc[q].0 == k;
                    assert(kv[q] == k);
                    assert(kv.contains(k));
                }
            }
            assert(kv.to_set() =~= s.commands.dom());
        }
    }
    r
}

/// Builds the schema cache from the reply to `query-qmp-schema`: the
/// enums, the properties of each `object-add` QOM type, the sorted
/// command names, the argument members of each command, the members of
/// each object type, the tagged unions, and the argument type of each
/// command.  A reply without a `return` array gives an empty cache.
pub fn build_schema_cache(resp: &Json) -> (r: SchemaCache)
    ensures
        schema_built(r.deep_view(), *resp),
{
    let empty: Vec<Json> = Vec::new();
    let entries: &Vec<Json> = match get_member(resp, "return") {
        Some(Json::Array(v)) => v,
        _ => &empty,
    };
    assert(entries@ == schema_entries(*resp));
    let t = scan_entries(entries);
    let ghost s = schema_maps(entries@);
    assert(tables_ok(t, s));
    let object_add_variants = object_add_exec(&t);
    let qmp_commands = command_names(&t);
    let command_args = command_args_exec(&t);
    let object_types = object_types_exec(&t);
    let tagged_unions = unions_exec(&t);
    let command_arg_type_ids = arg_type_ids_exec(&t);
    let r = SchemaCache {
        enums: t.enums,
        object_add_variants,
        qmp_commands,
        command_args,
        object_types,
        tagged_unions,
        command_arg_type_ids,
    };
    r
}

/// The cache lists no member list in vain: every command in the table of
/// command arguments, and every type in the table of object types, has
/// at least one member.
pub proof fn law_schema_member_lists_not_empty(c: crate::completer::SchemaView, resp: Json)
    requires
        schema_built(c, resp),
    ensures
        forall|i: int| 0 <= i < c.command_args.len() ==> (#[trigger] c.command_args[i]).1.len() > 0,
        forall|i: int| 0 <= i < c.object_types.len() ==> (#[trigger] c.object_types[i]).1.len() > 0,
{
    let s = schema_maps(schema_entries(resp));
    assert forall|i: int| 0 <= i < c.command_args.len() implies (#[trigger] c.command_args[i]).1.len() > 0 by {
        lemma_lookup_unique(c.command_args, i);
        let k = c.command_args[i].0;
        assert(lookup(c.command_args, k) == (if command_args_map(s).dom().contains(k) {
            Some(command_args_map(s)[k])
        } else {
            None
        }));
    }
    assert forall|i: int| 0 <= i < c.object_types.len() implies (#[trigger] c.object_types[i]).1.len() > 0 by {
        lemma_lookup_unique(c.object_types, i);
        let k = c.object_types[i].0;
        assert(lookup(c.object_types, k) == (if object_types_map(s).dom().contains(k) {
            Some(object_types_map(s)[k])
        } else {
            None
        }));
    }
}

} // verus!
