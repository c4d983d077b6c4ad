//! A JSON value as the library reads it, and the ways it is written out.
use vstd::prelude::*;

use crate::text::{push_char, push_str};

verus! {

/// A JSON value.  A number is kept as its JSON text; an object keeps its
/// members in order.
#[derive(Debug)]
pub enum Json {
    Null,
    Bool(bool),
    Number(String),
    Str(String),
    Array(Vec<Json>),
    Object(Vec<(String, Json)>),
}

/// The value of the first member named `k`.
pub open spec fn obj_get(m: Seq<(String, Json)>, k: Seq<char>) -> Option<Json>
    decreases m.len(),
{
    if m.len() == 0 {
        None
    } else if m[0].0@ == k {
        Some(m[0].1)
    } else {
        obj_get(m.drop_first(), k)
    }
}

/// `value.get(k)` of serde_json: the member `k` of an object.
pub open spec fn get(j: Json, k: Seq<char>) -> Option<Json> {
    match j {
        Json::Object(m) => obj_get(m@, k),
        _ => None,
    }
}

/// The text of a string value.
pub open spec fn as_str(j: Option<Json>) -> Option<Seq<char>> {
    match j {
        Some(Json::Str(s)) => Some(s@),
        _ => None,
    }
}

/// The index of the first member named `k`.
pub fn find_key(m: &Vec<(String, Json)>, k: &Vec<char>) -> (r: Option<usize>)
    ensures
        match r {
            Some(i) => i < m@.len() && obj_get(m@, k@) == Some(m@[i as int].1),
            None => obj_get(m@, k@) is None,
        },
{
    let mut i: usize = 0;
    assert(m@.skip(0) =~= m@);
    while i < m.len()
        invariant
            i <= m@.len(),
            obj_get(m@, k@) == obj_get(m@.skip(i as int), k@),
        decreases m@.len() - i,
    {
        let key = crate::text::to_chars(m[i].0.as_str());
        assert(m@.skip(i as int)[0] == m@[i as int]);
        if crate::text::same(&key, k) {
            return Some(i);
        }
        assert(m@.skip(i as int).drop_first() =~= m@.skip(i + 1));
        i = i + 1;
    }
    None
}

/// The member `k` of `j`, when `j` is an object that has it.
pub fn get_member<'a>(j: &'a Json, k: &str) -> (r: Option<&'a Json>)
    ensures
        match r {
            Some(x) => get(*j, k@) == Some(*x),
            None => get(*j, k@) is None,
        },
{
    match j {
        Json::Object(m) => {
            let kv = crate::text::to_chars(k);
            match find_key(m, &kv) {
                Some(i) => Some(&m[i].1),
                None => None,
            }
        },
        _ => None,
    }
}

// ---------------------------------------------------------------------
// Compact JSON text
// ---------------------------------------------------------------------

pub open spec fn hex_digit(d: int) -> char {
    if d < 10 {
        ((d + 48) as u8) as char
    } else {
        ((d - 10 + 97) as u8) as char
    }
}

/// A character of a JSON string as it is written out: quote, backslash
/// and control characters escaped.
pub open spec fn escape_char(c: char) -> Seq<char> {
    if c == '"' {
        seq!['\\', '"']
    } else if c == '\\' {
        seq!['\\', '\\']
    } else if c == '\x08' {
        seq!['\\', 'b']
    } else if c == '\x0c' {
        seq!['\\', 'f']
    } else if c == '\n' {
        seq!['\\', 'n']
    } else if c == '\r' {
        seq!['\\', 'r']
    } else if c == '\t' {
        seq!['\\', 't']
    } else if (c as u32) < 0x20 {
        seq!['\\', 'u', '0', '0', hex_digit(((c as u32) / 16) as int), hex_digit(((c as u32) % 16) as int)]
    } else {
        seq![c]
    }
}

pub open spec fn escape_str(s: Seq<char>) -> Seq<char>
    decreases s.len(),
{
    if s.len() == 0 {
        seq![]
    } else {
        escape_str(s.drop_last()) + escape_char(s.last())
    }
}

/// A string written as a JSON string literal.
pub open spec fn quoted(s: Seq<char>) -> Seq<char> {
    seq!['"'] + escape_str(s) + seq!['"']
}

/// The compact JSON text of a value (serde_json's `Display`).
pub open spec fn compact(j: Json) -> Seq<char>
    decreases j, 0nat,
{
    match j {
        Json::Null => "null"@,
        Json::Bool(b) => if b {
            "true"@
        } else {
            "false"@
        },
        Json::Number(n) => n@,
        Json::Str(s) => quoted(s@),
        Json::Array(v) => seq!['['] + compact_items(v@, 0) + seq![']'],
        Json::Object(m) => seq!['{'] + compact_members(m@, 0) + seq!['}'],
    }
}

pub open spec fn compact_items(items: Seq<Json>, i: int) -> Seq<char>
    decreases items, items.len() - i,
{
    if i < 0 || i >= items.len() {
        seq![]
    } else {
        (if i > 0 {
            seq![',']
        } else {
            seq![]
        }) + compact(items[i]) + compact_items(items, i + 1)
    }
}

pub open spec fn compact_members(m: Seq<(String, Json)>, i: int) -> Seq<char>
    decreases m, m.len() - i,
{
    if i < 0 || i >= m.len() {
        seq![]
    } else {
        (if i > 0 {
            seq![',']
        } else {
            seq![]
        }) + quoted(m[i].0@) + seq![':'] + compact(m[i].1) + compact_members(m, i + 1)
    }
}

fn push_escaped(out: &mut String, s: &str)
    ensures
        final(out)@ == old(out)@ + escape_str(s@),
{
    let v = crate::text::to_chars(s);
    let mut i: usize = 0;
    assert(v@.take(0) =~= Seq::<char>::empty());
    while i < v.len()
        invariant
            i <= v@.len(),
            v@ == s@,
            out@ == old(out)@ + escape_str(v@.take(i as int)),
        decreases v@.len() - i,
    {
        let c = v[i];
        let ghost before = out@;
        let u = c as u32;
        if c == '"' {
            push_char(out, '\\');
            push_char(out, '"');
        } else if c == '\\' {
            push_char(out, '\\');
            push_char(out, '\\');
        } else if c == '\x08' {
            push_char(out, '\\');
            push_char(out, 'b');
        } else if c == '\x0c' {
            push_char(out, '\\');
            push_char(out, 'f');
        } else if c == '\n' {
            push_char(out, '\\');
            push_char(out, 'n');
        } else if c == '\r' {
            push_char(out, '\\');
            push_char(out, 'r');
        } else if c == '\t' {
            push_char(out, '\\');
            push_char(out, 't');
        } else if u < 0x20 {
            push_char(out, '\\');
            push_char(out, 'u');
            push_char(out, '0');
            push_char(out, '0');
            push_char(out, hex_char(u / 16));
            push_char(out, hex_char(u % 16));
        } else {
            push_char(out, c);
        }
        proof {
            assert(v@.take(i + 1).drop_last() =~= v@.take(i as int));
            assert(v@.take(i + 1).last() == c);
            assert(out@ =~= before + escape_char(c));
        }
        i = i + 1;
    }
    assert(v@.take(v@.len() as int) =~= v@);
}

fn hex_char(d: u32) -> (c: char)
    requires
        d < 16,
    ensures
        c == hex_digit(d as int),
{
    if d < 10 {
        ((d + 48) as u8) as char
    } else {
        ((d - 10 + 97) as u8) as char
    }
}

/// Appends `s` as a JSON string literal.
pub fn push_quoted(out: &mut String, s: &str)
    ensures
        final(out)@ == old(out)@ + quoted(s@),
{
    push_char(out, '"');
    push_escaped(out, s);
    push_char(out, '"');
    assert(out@ =~= old(out)@ + quoted(s@));
}

/// Appends the compact JSON text of `j`.
pub fn push_compact(out: &mut String, j: &Json)
    ensures
        final(out)@ == old(out)@ + compact(*j),
    decreases j, 0nat,
{
    match j {
        Json::Null => {
            push_str(out, "null");
        },
        Json::Bool(b) => {
            if *b {
                push_str(out, "true");
            } else {
                push_str(out, "false");
            }
        },
        Json::Number(n) => {
            push_str(out, n.as_str());
        },
        Json::Str(s) => {
            push_quoted(out, s.as_str());
        },
        Json::Array(v) => {
            push_char(out, '[');
            let ghost mid = out@;
            push_compact_items(out, v, 0);
            push_char(out, ']');
            assert(out@ =~= old(out)@ + compact(*j));
        },
        Json::Object(m) => {
            push_char(out, '{');
            push_compact_members(out, m, 0);
            push_char(out, '}');
            assert(out@ =~= old(out)@ + compact(*j));
        },
    }
}

fn push_compact_items(out: &mut String, v: &Vec<Json>, i: usize)
    requires
        i <= v@.len(),
    ensures
        final(out)@ == old(out)@ + compact_items(v@, i as int),
    decreases v@, v@.len() - i,
{
    if i >= v.len() {
        assert(old(out)@ + Seq::<char>::empty() =~= old(out)@);
        return;
    }
    if i > 0 {
        push_char(out, ',');
    }
    push_compact(out, &v[i]);
    push_compact_items(out, v, i + 1);
    assert(out@ =~= old(out)@ + compact_items(v@, i as int));
}

fn push_compact_members(out: &mut String, m: &Vec<(String, Json)>, i: usize)
    requires
        i <= m@.len(),
    ensures
        final(out)@ == old(out)@ + compact_members(m@, i as int),
    decreases m@, m@.len() - i,
{
    if i >= m.len() {
        assert(old(out)@ + Seq::<char>::empty() =~= old(out)@);
        return;
    }
    if i > 0 {
        push_char(out, ',');
    }
    push_quoted(out, m[i].0.as_str());
    push_char(out, ':');
    push_compact(out, &m[i].1);
    push_compact_members(out, m, i + 1);
    assert(out@ =~= old(out)@ + compact_members(m@, i as int));
}

/// The compact JSON text of a value.
pub fn to_compact(j: &Json) -> (r: String)
    ensures
        r@ == compact(*j),
{
    let mut out = String::new();
    push_compact(&mut out, j);
    assert(out@ =~= compact(*j));
    out
}

// ---------------------------------------------------------------------
// Nesting depth
// ---------------------------------------------------------------------

/// How deeply arrays and objects nest in a value.
pub open spec fn depth(j: Json) -> nat
    decreases j, 0nat,
{
    match j {
        Json::Array(v) => 1 + items_depth(v@, 0),
        Json::Object(m) => 1 + members_depth(m@, 0),
        _ => 0,
    }
}

pub open spec fn items_depth(items: Seq<Json>, i: int) -> nat
    decreases items, items.len() - i,
{
    if i < 0 || i >= items.len() {
        0
    } else {
        let a = depth(items[i]);
        let b = items_depth(items, i + 1);
        if a >= b {
            a
        } else {
            b
        }
    }
}

pub open spec fn members_depth(m: Seq<(String, Json)>, i: int) -> nat
    decreases m, m.len() - i,
{
    if i < 0 || i >= m.len() {
        0
    } else {
        let a = depth(m[i].1);
        let b = members_depth(m, i + 1);
        if a >= b {
            a
        } else {
            b
        }
    }
}

pub proof fn lemma_items_depth(items: Seq<Json>, i: int, k: int)
    requires
        0 <= i <= k < items.len(),
    ensures
        depth(items[k]) <= items_depth(items, i),
    decreases k - i,
{
    if i < k {
        lemma_items_depth(items, i + 1, k);
    }
}

pub proof fn lemma_members_depth(m: Seq<(String, Json)>, i: int, k: int)
    requires
        0 <= i <= k < m.len(),
    ensures
        depth(m[k].1) <= members_depth(m, i),
    decreases k - i,
{
    if i < k {
        lemma_members_depth(m, i + 1, k);
    }
}

// ---------------------------------------------------------------------
// One line of text
// ---------------------------------------------------------------------

/// No line break in `s`.
pub open spec fn one_line(s: Seq<char>) -> bool {
    forall|i: int| 0 <= i < s.len() ==> #[trigger] s[i] != '\n'
}

/// Every number of the value is written without a line break (as every
/// JSON number is).
pub open spec fn numbers_one_line(j: Json) -> bool
    decreases j, 0nat,
{
    match j {
        Json::Number(n) => one_line(n@),
        Json::Array(v) => items_one_line(v@, 0),
        Json::Object(m) => members_one_line(m@, 0),
        _ => true,
    }
}

pub open spec fn items_one_line(items: Seq<Json>, i: int) -> bool
    decreases items, items.len() - i,
{
    if i < 0 || i >= items.len() {
        true
    } else {
        numbers_one_line(items[i]) && items_one_line(items, i + 1)
    }
}

pub open spec fn members_one_line(m: Seq<(String, Json)>, i: int) -> bool
    decreases m, m.len() - i,
{
    if i < 0 || i >= m.len() {
        true
    } else {
        numbers_one_line(m[i].1) && members_one_line(m, i + 1)
    }
}

proof fn lemma_one_line_concat(a: Seq<char>, b: Seq<char>)
    requires
        one_line(a),
        one_line(b),
    ensures
        one_line(a + b),
{
    assert forall|i: int| 0 <= i < (a + b).len() implies #[trigger] (a + b)[i] != '\n' by {
        if i < a.len() {
            assert((a + b)[i] == a[i]);
        } else {
            assert((a + b)[i] == b[i - a.len()]);
        }
    }
}

proof fn lemma_escape_one_line(s: Seq<char>)
    ensures
        one_line(escape_str(s)),
    decreases s.len(),
{
    if s.len() > 0 {
        lemma_escape_one_line(s.drop_last());
        let c = s.last();
        let e = escape_char(c);
        if (c as u32) < 0x20 && c != '"' && c != '\\' && c != '\x08' && c != '\x0c' && c != '\n'
            && c != '\r' && c != '\t' {
            let hi = ((c as u32) / 16) as int;
            let lo = ((c as u32) % 16) as int;
            assert(hex_digit(hi) != '\n');
            assert(hex_digit(lo) != '\n');
        }
        assert(one_line(e));
        lemma_one_line_concat(escape_str(s.drop_last()), e);
    }
}

proof fn lemma_quoted_one_line(s: Seq<char>)
    ensures
        one_line(quoted(s)),
{
    lemma_escape_one_line(s);
    lemma_one_line_concat(seq!['"'], escape_str(s));
    lemma_one_line_concat(seq!['"'] + escape_str(s), seq!['"']);
}

proof fn lemma_compact_one_line(j: Json)
    requires
        numbers_one_line(j),
    ensures
        one_line(compact(j)),
    decreases j, 0nat,
{
    match j {
        Json::Null => {
            reveal_strlit("null");
        },
        Json::Bool(b) => {
            reveal_strlit("true");
            reveal_strlit("false");
        },
        Json::Number(n) => {},
        Json::Str(t) => {
            lemma_quoted_one_line(t@);
        },
        Json::Array(v) => {
            lemma_items_one_line(v@, 0);
            lemma_one_line_concat(seq!['['], compact_items(v@, 0));
            lemma_one_line_concat(seq!['['] + compact_items(v@, 0), seq![']']);
        },
        Json::Object(m) => {
            lemma_members_one_line(m@, 0);
            lemma_one_line_concat(seq!['{'], compact_members(m@, 0));
            lemma_one_line_concat(seq!['{'] + compact_members(m@, 0), seq!['}']);
        },
    }
}

proof fn lemma_items_one_line(items: Seq<Json>, i: int)
    requires
        items_one_line(items, i),
    ensures
        one_line(compact_items(items, i)),
    decreases items, items.len() - i,
{
    if 0 <= i < items.len() {
        lemma_compact_one_line(items[i]);
        lemma_items_one_line(items, i + 1);
        let sep: Seq<char> = if i > 0 {
            seq![',']
        } else {
            seq![]
        };
        lemma_one_line_concat(sep, compact(items[i]));
        lemma_one_line_concat(sep + compact(items[i]), compact_items(items, i + 1));
    }
}

proof fn lemma_members_one_line(m: Seq<(String, Json)>, i: int)
    requires
        members_one_line(m, i),
    ensures
        one_line(compact_members(m, i)),
    decreases m, m.len() - i,
{
    if 0 <= i < m.len() {
        lemma_compact_one_line(m[i].1);
        lemma_members_one_line(m, i + 1);
        lemma_quoted_one_line(m[i].0@);
        let sep: Seq<char> = if i > 0 {
            seq![',']
        } else {
            seq![]
        };
        lemma_one_line_concat(sep, quoted(m[i].0@));
        lemma_one_line_concat(sep + quoted(m[i].0@), seq![':']);
        lemma_one_line_concat(sep + quoted(m[i].0@) + seq![':'], compact(m[i].1));
        lemma_one_line_concat(sep + quoted(m[i].0@) + seq![':'] + compact(m[i].1), compact_members(m, i + 1));
    }
}

/// Compact JSON is one line: whatever strings a value holds (line breaks
/// in them are escaped), its compact text has no line break, as long as
/// its numbers have none.
pub proof fn law_compact_one_line(j: Json)
    requires
        numbers_one_line(j),
    ensures
        one_line(compact(j)),
{
    lemma_compact_one_line(j);
}

} // verus!
