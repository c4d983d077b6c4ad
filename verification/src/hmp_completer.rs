//! The tab completer of the HMP line: which completion applies to the
//! text before the cursor, and what it offers.
//!
//! What only QEMU or the file system knows (a QOM listing, the block
//! devices, the user-creatable types, a directory listing) is asked for
//! with `CompletionStep::Need`; the caller finds it, puts it into the
//! `Answers`, and asks again.
use vstd::prelude::*;

use crate::arg_completion::{
    change_scan, complete_args_impl, complete_change_impl, complete_object_add_impl,
    completed_tokens, find_candidate_defs, spec_candidate_defs, spec_complete_args,
    spec_complete_change, spec_complete_object_add,
};
use crate::args::{ArgDef, ArgDefView, ArgType, ArgTypeView};
use crate::completer::{
    complete_json_impl, find_entry, has_prefix, is_suffix, lemma_filter_map_step,
    lemma_filter_step, lemma_parse_context_no_abort, lemma_skip_suffix, lemma_suffix_byte_len,
    lemma_trim_suffix, lookup, new_sugg, spec_complete_json, strings_of, sugg, SchemaCache,
    SchemaView, Suggestion, SuggestionView,
};
use crate::qom_completion::{
    complete_qom_path, complete_qom_property, complete_qom_value, name_with, prop_name_sugg,
    qom_path_query, spec_complete_qom_path, spec_complete_qom_value, spec_qom_path_query,
};
use crate::text::{
    byte_len, byte_len_of, char_utf8_len, has_char, is_prefix, lemma_byte_len_bounds,
    lemma_lead_ws, lemma_rfind, lemma_words_byte_len, push_str, rfind, rfind_char, same,
    slice_of, split_whitespace, starts_with, string_from, tail, to_chars, trim_start, trim_start_v,
    words, words_from, word_end, is_ws,
};

verus! {

// ---------------------------------------------------------------------
// Sorted name lists
// ---------------------------------------------------------------------

/// `a` sorts before `b` (lexicographic by code point, as `str` orders).
pub open spec fn str_lt(a: Seq<char>, b: Seq<char>) -> bool
    decreases a.len(),
{
    if a.len() == 0 {
        b.len() > 0
    } else if b.len() == 0 {
        false
    } else if a[0] != b[0] {
        (a[0] as int) < (b[0] as int)
    } else {
        str_lt(a.drop_first(), b.drop_first())
    }
}

pub proof fn lemma_str_lt_irrefl(a: Seq<char>)
    ensures
        !str_lt(a, a),
    decreases a.len(),
{
    if a.len() > 0 {
        lemma_str_lt_irrefl(a.drop_first());
    }
}

pub proof fn lemma_str_lt_trans(a: Seq<char>, b: Seq<char>, c: Seq<char>)
    requires
        str_lt(a, b),
        str_lt(b, c),
    ensures
        str_lt(a, c),
    decreases a.len(),
{
    if a.len() > 0 && b.len() > 0 && c.len() > 0 && a[0] == b[0] && b[0] == c[0] {
        lemma_str_lt_trans(a.drop_first(), b.drop_first(), c.drop_first());
    }
}

pub proof fn lemma_str_lt_total(a: Seq<char>, b: Seq<char>)
    ensures
        str_lt(a, b) || str_lt(b, a) || a == b,
    decreases a.len(),
{
    if a.len() > 0 && b.len() > 0 {
        if a[0] == b[0] {
            lemma_str_lt_total(a.drop_first(), b.drop_first());
            if a.drop_first() == b.drop_first() {
                assert(a =~= seq![a[0]] + a.drop_first());
                assert(b =~= seq![b[0]] + b.drop_first());
            }
        } else {
            assert((a[0] as int) != (b[0] as int));
        }
    } else if a.len() == 0 && b.len() == 0 {
        assert(a =~= b);
    }
}

pub proof fn lemma_str_lt_asym(a: Seq<char>, b: Seq<char>)
    requires
        str_lt(a, b),
    ensures
        !str_lt(b, a),
{
    if str_lt(b, a) {
        lemma_str_lt_trans(a, b, a);
        lemma_str_lt_irrefl(a);
    }
}

/// "Not after" is transitive.
pub proof fn lemma_str_le_trans(a: Seq<char>, b: Seq<char>, c: Seq<char>)
    requires
        !str_lt(b, a),
        !str_lt(c, b),
    ensures
        !str_lt(c, a),
{
    lemma_str_lt_total(a, b);
    lemma_str_lt_total(b, c);
    if str_lt(c, a) {
        if str_lt(a, b) {
            lemma_str_lt_trans(c, a, b);
        }
    }
}

/// Strictly increasing: sorted, with nothing twice.
pub open spec fn strictly_sorted(s: Seq<Seq<char>>) -> bool {
    forall|i: int, j: int| 0 <= i < j < s.len() ==> str_lt(#[trigger] s[i], #[trigger] s[j])
}

pub fn chars_lt(a: &Vec<char>, b: &Vec<char>) -> (r: bool)
    ensures
        r == str_lt(a@, b@),
{
    let mut i: usize = 0;
    assert(a@.skip(0) =~= a@);
    assert(b@.skip(0) =~= b@);
    while i < a.len() && i < b.len() && a[i] == b[i]
        invariant
            i <= a@.len(),
            i <= b@.len(),
            str_lt(a@, b@) == str_lt(a@.skip(i as int), b@.skip(i as int)),
        decreases a@.len() - i,
    {
        assert(a@.skip(i as int).drop_first() =~= a@.skip(i + 1));
        assert(b@.skip(i as int).drop_first() =~= b@.skip(i + 1));
        i = i + 1;
    }
    if i == a.len() {
        i < b.len()
    } else if i == b.len() {
        false
    } else {
        assert(a@.skip(i as int)[0] == a@[i as int]);
        assert(b@.skip(i as int)[0] == b@[i as int]);
        let x = a[i];
        let y = b[i];
        assert(x != y);
        x < y
    }
}

/// The names sorted, each once (`sort` then `dedup`).
pub fn sort_dedup(names: Vec<String>) -> (r: Vec<String>)
    ensures
        strictly_sorted(r.deep_view()),
        r.deep_view().to_set() == names.deep_view().to_set(),
{
    let ghost nv = names.deep_view();
    let mut out: Vec<String> = Vec::new();
    let mut i: usize = 0;
    assert(nv.take(0).to_set() =~= Set::<Seq<char>>::empty());
    assert(out.deep_view().to_set() =~= Set::<Seq<char>>::empty());
    while i < names.len()
        invariant
            i <= names@.len(),
            nv == names.deep_view(),
            strictly_sorted(out.deep_view()),
            out.deep_view().to_set() == nv.take(i as int).to_set(),
        decreases names@.len() - i,
    {
        let x = to_chars_s(&names[i]);
        assert(nv[i as int] == names@[i as int]@);
        let ghost ov = out.deep_view();
        // The first entry that does not sort before x.
        let mut k: usize = 0;
        while k < out.len() && chars_lt(&to_chars_s(&out[k]), &x)
            invariant
                k <= out@.len(),
                ov == out.deep_view(),
                forall|q: int| 0 <= q < k ==> str_lt(#[trigger] ov[q], x@),
            decreases out@.len() - k,
        {
            assert(ov[k as int] == out@[k as int]@);
            k = k + 1;
        }
        proof {
            assert(nv.take(i + 1) =~= nv.take(i as int).push(nv[i as int]));
            nv.take(i as int).lemma_push_to_set_commute(nv[i as int]);
        }
        let dup = k < out.len() && crate::text::same(&to_chars_s(&out[k]), &x);
        if dup {
            assert(ov[k as int] == out@[k as int]@);
            assert(ov.to_set().contains(x@)) by {
                assert(ov.contains(ov[k as int]));
            }
            assert(ov.to_set().insert(x@) =~= ov.to_set());
        } else {
            proof {
                if k < ov.len() {
                    assert(ov[k as int] == out@[k as int]@);
                    lemma_str_lt_total(ov[k as int], x@);
                }
            }
            out.insert(k, names[i].clone());
            proof {
                let nw = out.deep_view();
                assert(nw =~= ov.insert(k as int, x@));
                assert forall|a: int, b: int| 0 <= a < b < nw.len() implies str_lt(#[trigger] nw[a], #[trigger] nw[b]) by {
                    if b < k {
                        assert(nw[a] == ov[a] && nw[b] == ov[b]);
                    } else if b == k {
                        assert(nw[a] == ov[a]);
                    } else if a > k {
                        assert(nw[a] == ov[a - 1] && nw[b] == ov[b - 1]);
                    } else if a == k {
                        assert(nw[b] == ov[b - 1]);
                        if b - 1 > k {
                            assert(str_lt(ov[k as int], ov[b - 1]));
                            lemma_str_lt_trans(x@, ov[k as int], ov[b - 1]);
                        }
                    } else {
                        assert(nw[a] == ov[a] && nw[b] == ov[b - 1]);
                        assert(str_lt(ov[a], x@));
                        if b - 1 > k {
                            assert(str_lt(ov[k as int], ov[b - 1]));
                            lemma_str_lt_trans(x@, ov[k as int], ov[b - 1]);
                        }
                        lemma_str_lt_trans(ov[a], x@, ov[b - 1]);
                    }
                }
                assert(nw.to_set() =~= ov.to_set().insert(x@)) by {
                    assert forall|e: Seq<char>| nw.to_set().contains(e) implies ov.to_set().insert(x@).contains(e) by {
                        let q = choose|q: int| 0 <= q < nw.len() && nw[q] == e;
                        if q < k {
                            assert(nw[q] == ov[q]);
                        } else if q > k {
                            assert(nw[q] == ov[q - 1]);
                        }
                    }
                    assert forall|e: Seq<char>| ov.to_set().insert(x@).contains(e) implies nw.to_set().contains(e) by {
                        if e == x@ {
                            assert(nw[k as int] == x@);
                        } else {
                            let q = choose|q: int| 0 <= q < ov.len() && ov[q] == e;
                            if q < k {
                                assert(nw[q] == ov[q]);
                            } else {
                                assert(nw[q + 1] == ov[q]);
                            }
                        }
                    }
                }
            }
        }
        i = i + 1;
    }
    assert(nv.take(names@.len() as int) =~= nv);
    out
}

/// The key codes of QEMU's QAPI schema (`QKeyCode` in `qapi/ui.json`),
/// in their order there.
pub open spec fn qkeycode_list() -> Seq<Seq<char>> {
    seq![
        "unmapped"@, "shift"@, "shift_r"@, "alt"@, "alt_r"@, "ctrl"@, "ctrl_r"@, "menu"@, "esc"@,
        "1"@, "2"@, "3"@, "4"@, "5"@, "6"@, "7"@, "8"@, "9"@, "0"@, "minus"@, "equal"@,
        "backspace"@, "tab"@, "q"@, "w"@, "e"@, "r"@, "t"@, "y"@, "u"@, "i"@, "o"@, "p"@,
        "bracket_left"@, "bracket_right"@, "ret"@, "a"@, "s"@, "d"@, "f"@, "g"@, "h"@, "j"@, "k"@,
        "l"@, "semicolon"@, "apostrophe"@, "grave_accent"@, "backslash"@, "z"@, "x"@, "c"@, "v"@,
        "b"@, "n"@, "m"@, "comma"@, "dot"@, "slash"@, "asterisk"@, "spc"@, "caps_lock"@, "f1"@,
        "f2"@, "f3"@, "f4"@, "f5"@, "f6"@, "f7"@, "f8"@, "f9"@, "f10"@, "num_lock"@,
        "scroll_lock"@, "kp_divide"@, "kp_multiply"@, "kp_subtract"@, "kp_add"@, "kp_enter"@,
        "kp_decimal"@, "sysrq"@, "kp_0"@, "kp_1"@, "kp_2"@, "kp_3"@, "kp_4"@, "kp_5"@, "kp_6"@,
        "kp_7"@, "kp_8"@, "kp_9"@, "less"@, "f11"@, "f12"@, "print"@, "home"@, "pgup"@, "pgdn"@,
        "end"@, "left"@, "up"@, "down"@, "right"@, "insert"@, "delete"@, "stop"@, "again"@,
        "props"@, "undo"@, "front"@, "copy"@, "open"@, "paste"@, "find"@, "cut"@, "lf"@, "help"@,
        "meta_l"@, "meta_r"@, "compose"@, "pause"@, "ro"@, "hiragana"@, "henkan"@, "yen"@,
        "muhenkan"@, "katakanahiragana"@, "kp_comma"@, "kp_equals"@, "power"@, "sleep"@, "wake"@,
        "audionext"@, "audioprev"@, "audiostop"@, "audioplay"@, "audiomute"@, "volumeup"@,
        "volumedown"@, "mediaselect"@, "mail"@, "calculator"@, "computer"@, "ac_home"@, "ac_back"@,
        "ac_forward"@, "ac_refresh"@, "ac_bookmarks"@, "lang1"@, "lang2"@, "f13"@, "f14"@, "f15"@,
        "f16"@, "f17"@, "f18"@, "f19"@, "f20"@, "f21"@, "f22"@, "f23"@, "f24"@,
    ]
}

/// The names of QEMU's key codes: `Enum::NAMES` of `qapi_qmp::QKeyCode`,
/// which the crate's code generator writes out as the enum's data in the
/// schema it ships, in order.
#[verifier::external_body]
fn qkeycode_names() -> (r: Vec<String>)
    ensures
        r.deep_view() == qkeycode_list(),
{
    <qapi_qmp::QKeyCode as qapi::Enum>::NAMES.iter().map(|n| n.to_string()).collect()
}

fn to_chars_s(s: &String) -> (v: Vec<char>)
    ensures
        v@ == s@,
{
    crate::text::to_chars(s.as_str())
}

// ---------------------------------------------------------------------
// The completer and its questions
// ---------------------------------------------------------------------

/// Tab completer for HMP commands.
///
/// Completes the first word from all known command names (main commands,
/// `info` and `help`); after `info `, the info subcommand names; and the
/// arguments of commands from their definitions, with special completion
/// for QOM paths, `object_add`, `change`, `sendkey` and JSON QMP commands.
pub struct HmpCompleter {
    /// All top-level command names, including "info" and "help", sorted.
    pub main_names: Vec<String>,
    /// All info subcommand names, sorted.
    pub info_names: Vec<String>,
    /// The QMP schema data.
    pub schema: SchemaCache,
    /// Argument definitions per main command name.
    pub main_arg_defs: Vec<(String, Vec<ArgDef>)>,
    /// Argument definitions per info subcommand name.
    pub info_arg_defs: Vec<(String, Vec<ArgDef>)>,
    /// Key names for `sendkey`.
    pub sendkey_names: Vec<String>,
}

pub ghost struct CompleterView {
    pub main_names: Seq<Seq<char>>,
    pub info_names: Seq<Seq<char>>,
    pub schema: SchemaView,
    pub main_arg_defs: Seq<(Seq<char>, Seq<ArgDefView>)>,
    pub info_arg_defs: Seq<(Seq<char>, Seq<ArgDefView>)>,
    pub sendkey_names: Seq<Seq<char>>,
}

impl DeepView for HmpCompleter {
    type V = CompleterView;

    open spec fn deep_view(&self) -> CompleterView {
        CompleterView {
            main_names: self.main_names.deep_view(),
            info_names: self.info_names.deep_view(),
            schema: self.schema.deep_view(),
            main_arg_defs: self.main_arg_defs.deep_view(),
            info_arg_defs: self.info_arg_defs.deep_view(),
            sendkey_names: self.sendkey_names.deep_view(),
        }
    }
}

/// What the completer needs to know from outside.
#[derive(Debug, PartialEq, Eq)]
pub enum Query {
    /// The properties (name, type) of the QOM object at this path.
    QomList(String),
    /// The names of the block devices.
    BlockDevices,
    /// The files and directories that match this prefix.
    Filenames(String),
    /// The names of the user-creatable QOM types.
    UserCreatableTypes,
}

/// The answers to the queries asked so far.
#[derive(Debug)]
pub struct Answers {
    pub qom_list: Option<Vec<(String, String)>>,
    pub block_devices: Option<Vec<String>>,
    pub filenames: Option<Vec<(String, bool)>>,
    pub user_types: Option<Vec<String>>,
}

/// One step of completion: the suggestions, or a question.
#[derive(Debug)]
pub enum CompletionStep {
    Done(Vec<Suggestion>),
    Need(Query),
}

pub ghost enum QueryView {
    QomList(Seq<char>),
    BlockDevices,
    Filenames(Seq<char>),
    UserCreatableTypes,
}

pub ghost struct AnswersView {
    pub qom_list: Option<Seq<(Seq<char>, Seq<char>)>>,
    pub block_devices: Option<Seq<Seq<char>>>,
    pub filenames: Option<Seq<(Seq<char>, bool)>>,
    pub user_types: Option<Seq<Seq<char>>>,
}

pub ghost enum StepView {
    Done(Seq<SuggestionView>),
    Need(QueryView),
}

impl DeepView for Query {
    type V = QueryView;

    open spec fn deep_view(&self) -> QueryView {
        match self {
            Query::QomList(p) => QueryView::QomList(p@),
            Query::BlockDevices => QueryView::BlockDevices,
            Query::Filenames(p) => QueryView::Filenames(p@),
            Query::UserCreatableTypes => QueryView::UserCreatableTypes,
        }
    }
}

impl DeepView for Answers {
    type V = AnswersView;

    open spec fn deep_view(&self) -> AnswersView {
        AnswersView {
            qom_list: self.qom_list.deep_view(),
            block_devices: self.block_devices.deep_view(),
            filenames: self.filenames.deep_view(),
            user_types: self.user_types.deep_view(),
        }
    }
}

impl DeepView for CompletionStep {
    type V = StepView;

    open spec fn deep_view(&self) -> StepView {
        match self {
            CompletionStep::Done(s) => StepView::Done(s.deep_view()),
            CompletionStep::Need(q) => StepView::Need(q.deep_view()),
        }
    }
}

impl Answers {
    /// No answers yet.
    pub fn none() -> (r: Answers)
        ensures
            r.deep_view() == (AnswersView {
                qom_list: None,
                block_devices: None,
                filenames: None,
                user_types: None,
            }),
    {
        Answers { qom_list: None, block_devices: None, filenames: None, user_types: None }
    }
}

// ---------------------------------------------------------------------
// The text before the cursor
// ---------------------------------------------------------------------

/// The number of characters of `s` that make up its first `b` bytes, if
/// `b` falls on a character boundary.
pub open spec fn byte_cut(s: Seq<char>, b: int) -> Option<int> {
    if exists|k: int| 0 <= k <= s.len() && byte_len(s.take(k)) == b {
        Some(choose|k: int| 0 <= k <= s.len() && byte_len(s.take(k)) == b)
    } else {
        None
    }
}

/// The first whitespace-separated word, or the empty string.
pub open spec fn first_word(s: Seq<char>) -> Seq<char> {
    if words(s).len() > 0 {
        words(s)[0]
    } else {
        seq![]
    }
}

/// `s` ends with a space (`str::ends_with(' ')`).
pub open spec fn ends_space(s: Seq<char>) -> bool {
    s.len() > 0 && s.last() == ' '
}

/// The text after the first `byte_len(w)` bytes of `l`, without leading
/// whitespace (`l[w.len()..].trim_start()`).
pub open spec fn after_word(l: Seq<char>, w: Seq<char>) -> Seq<char> {
    trim_start(l.skip(byte_cut(l, byte_len(w) as int)->0))
}

/// The token being typed: the last one, unless a space follows it.
pub open spec fn token_partial(ws: Seq<Seq<char>>, trailing: bool) -> Seq<char> {
    if trailing || ws.len() == 0 {
        seq![]
    } else {
        ws.last()
    }
}

pub open spec fn json_line(l: Seq<char>) -> bool {
    trim_start(l).len() > 0 && trim_start(l)[0] == '{'
}

pub open spec fn is_qom_command(w: Seq<char>) -> bool {
    w == "qom-list"@ || w == "qom-get"@ || w == "qom-set"@
}

/// The commands whose completion slices the line after the command name.
pub open spec fn slices_after_command(c: CompleterView, w: Seq<char>) -> bool {
    w == "help"@ || w == "?"@ || is_qom_command(w) || w == "object_add"@ || w == "change"@ || w
        == "sendkey"@ || lookup(c.main_arg_defs, w) is Some
}

/// Whether completing `l` cuts it after its first word.
pub open spec fn cut_needed(c: CompleterView, l: Seq<char>) -> bool {
    !json_line(l) && !is_prefix("info "@, l) && l.contains(' ') && slices_after_command(
        c,
        first_word(l),
    )
}

pub open spec fn name_sugg(span_start: int, pos: int) -> spec_fn(Seq<char>) -> SuggestionView {
    |n: Seq<char>| sugg(n, None, span_start, pos, true, None)
}

pub open spec fn devices_of(a: AnswersView) -> Seq<Seq<char>> {
    match a.block_devices {
        Some(d) => d,
        None => seq![],
    }
}

pub open spec fn files_of(a: AnswersView) -> Seq<(Seq<char>, bool)> {
    match a.filenames {
        Some(f) => f,
        None => seq![],
    }
}

pub open spec fn types_of(a: AnswersView) -> Seq<Seq<char>> {
    match a.user_types {
        Some(t) => t,
        None => seq![],
    }
}

/// Some candidate argument has this type.
pub open spec fn needs_type(defs: Seq<ArgDefView>, cands: Seq<int>, t: ArgTypeView) -> bool {
    exists|q: int| 0 <= q < cands.len() && defs[cands[q]].arg_type == t
}

/// Argument completion for a command with definitions `defs`; `after`
/// is the text after the command name; `extra` are offered as block
/// devices beside the real ones.
pub open spec fn args_step(
    defs: Seq<ArgDefView>,
    after: Seq<char>,
    pos: int,
    extra: Seq<Seq<char>>,
    ans: AnswersView,
) -> StepView {
    let tokens = words(after);
    let trailing = after.len() == 0 || ends_space(after);
    let partial = token_partial(tokens, trailing);
    let cands = spec_candidate_defs(defs, tokens, trailing);
    if needs_type(defs, cands, ArgTypeView::BlockDevice) && ans.block_devices is None {
        StepView::Need(QueryView::BlockDevices)
    } else if needs_type(defs, cands, ArgTypeView::Filename) && ans.filenames is None {
        StepView::Need(QueryView::Filenames(partial))
    } else {
        StepView::Done(
            spec_complete_args(
                defs,
                tokens,
                trailing,
                partial,
                pos - byte_len(partial),
                pos,
                devices_of(ans) + extra,
                files_of(ans),
            ),
        )
    }
}

/// Completion after `info `: the subcommand name, then its arguments.
pub open spec fn info_step(c: CompleterView, l: Seq<char>, pos: int, ans: AnswersView) -> StepView {
    let prefix = trim_start(l.skip(5));
    if !prefix.contains(' ') {
        StepView::Done(
            c.info_names.filter(has_prefix(prefix)).map_values(
                name_sugg(pos - byte_len(prefix), pos),
            ),
        )
    } else {
        let sub = words(prefix)[0];
        match lookup(c.info_arg_defs, sub) {
            None => StepView::Done(seq![]),
            Some(defs) => args_step(defs, trim_start(prefix.skip(sub.len() as int)), pos, seq![], ans),
        }
    }
}

/// Completion after `help ` or `? `: a command name, or an info
/// subcommand name after `help info `.
pub open spec fn help_suggestions(c: CompleterView, after: Seq<char>, pos: int) -> Seq<SuggestionView> {
    let hw = words(after);
    let trailing = ends_space(after);
    if hw.len() > 0 && hw[0] == "info"@ {
        if hw.len() > 2 || (hw.len() == 2 && trailing) {
            seq![]
        } else {
            let partial = if hw.len() == 2 {
                hw[1]
            } else {
                seq![]
            };
            c.info_names.filter(has_prefix(partial)).map_values(
                name_sugg(pos - byte_len(partial), pos),
            )
        }
    } else if hw.len() > 1 || (hw.len() == 1 && trailing) {
        seq![]
    } else {
        let partial = if hw.len() > 0 {
            hw[0]
        } else {
            seq![]
        };
        (c.main_names + c.info_names).filter(has_prefix(partial)).map_values(
            name_sugg(pos - byte_len(partial), pos),
        )
    }
}

pub open spec fn is_flag_word(w: Seq<char>) -> bool {
    w.len() > 0 && w[0] == '-'
}

pub open spec fn not_flag() -> spec_fn(Seq<char>) -> bool {
    |w: Seq<char>| !is_flag_word(w)
}

/// Completion of the QOM commands' path, property and value; `None` when
/// generic completion takes over.
pub open spec fn qom_step(
    c: CompleterView,
    cmd: Seq<char>,
    after: Seq<char>,
    pos: int,
    ans: AnswersView,
) -> Option<StepView> {
    let aw = words(after);
    let trailing = ends_space(after);
    if !trailing && aw.len() > 0 && is_flag_word(aw.last()) {
        None
    } else {
        let ps = completed_tokens(aw, trailing).filter(not_flag());
        let partial = token_partial(aw, trailing);
        let ss = pos - byte_len(partial);
        if ps.len() == 0 {
            match spec_qom_path_query(partial) {
                None => Some(StepView::Done(spec_complete_qom_path(partial, ss, pos, seq![]))),
                Some(q) => match ans.qom_list {
                    None => Some(StepView::Need(QueryView::QomList(q))),
                    Some(props) => Some(
                        StepView::Done(spec_complete_qom_path(partial, ss, pos, props)),
                    ),
                },
            }
        } else if ps.len() == 1 && (cmd == "qom-get"@ || cmd == "qom-set"@) {
            match ans.qom_list {
                None => Some(StepView::Need(QueryView::QomList(ps[0]))),
                Some(props) => Some(
                    StepView::Done(
                        props.filter(name_with(partial)).map_values(prop_name_sugg(ss, pos)),
                    ),
                ),
            }
        } else if ps.len() == 2 && cmd == "qom-set"@ {
            match ans.qom_list {
                None => Some(StepView::Need(QueryView::QomList(ps[0]))),
                Some(props) => match spec_complete_qom_value(c.schema, ps[1], partial, ss, pos, props) {
                    Some(sg) => Some(StepView::Done(sg)),
                    None => None,
                },
            }
        } else {
            None
        }
    }
}

proof fn lemma_word_end_run(s: Seq<char>, i: int, j: int)
    requires
        0 <= i <= j <= s.len(),
        forall|k: int| i <= k < j ==> !is_ws(#[trigger] s[k]),
        j == s.len() || is_ws(s[j]),
    ensures
        word_end(s, i) == j,
    decreases j - i,
{
    if i < j {
        lemma_word_end_run(s, i + 1, j);
    }
}

/// After `qom-get PATH ` or `qom-set PATH `, the word being typed is a
/// property of the object at `PATH`: its properties are asked for with
/// that path, and once known, the suggestions are exactly the property
/// names that begin with the typed word, in the order listed, each
/// described by its type and replacing that word.
pub proof fn law_qom_property_names_of_path(
    c: CompleterView,
    cmd: Seq<char>,
    path: Seq<char>,
    partial: Seq<char>,
    pos: int,
    ans: AnswersView,
)
    requires
        cmd == "qom-get"@ || cmd == "qom-set"@,
        path.len() > 0,
        path[0] != '-',
        forall|k: int| 0 <= k < path.len() ==> !is_ws(#[trigger] path[k]),
        partial.len() == 0 || partial[0] != '-',
        forall|k: int| 0 <= k < partial.len() ==> !is_ws(#[trigger] partial[k]),
    ensures
        ans.qom_list is None ==> qom_step(c, cmd, path + seq![' '] + partial, pos, ans) == Some(
            StepView::Need(QueryView::QomList(path)),
        ),
        ans.qom_list matches Some(props) ==> qom_step(c, cmd, path + seq![' '] + partial, pos, ans)
            == Some(
            StepView::Done(
                props.filter(|p: (Seq<char>, Seq<char>)| is_prefix(partial, p.0)).map_values(
                    |p: (Seq<char>, Seq<char>)|
                        sugg(p.0, Some(p.1), pos - byte_len(partial), pos, true, None),
                ),
            ),
        ),
{
    let after = path + seq![' '] + partial;
    let n = path.len() as int;
    assert forall|k: int| 0 <= k < n implies !is_ws(#[trigger] after[k]) by {
        assert(after[k] == path[k]);
    }
    assert(after[n] == ' ');
    assert(is_ws(' '));
    lemma_word_end_run(after, 0, n);
    assert(after.subrange(0, n) =~= path);
    assert(words_from(after, 0) == seq![path] + words_from(after, n));
    assert(words_from(after, n) == words_from(after, n + 1));
    let aw = words(after);
    if partial.len() > 0 {
        assert forall|k: int| n + 1 <= k < after.len() implies !is_ws(#[trigger] after[k]) by {
            assert(after[k] == partial[k - n - 1]);
        }
        lemma_word_end_run(after, n + 1, after.len() as int);
        assert(after.subrange(n + 1, after.len() as int) =~= partial);
        assert(after[n + 1] == partial[0]);
        assert(words_from(after, n + 1) == seq![partial] + words_from(after, after.len() as int));
        assert(aw =~= seq![path, partial]);
        assert(after.last() == partial.last());
        assert(!is_ws(partial[partial.len() - 1]));
        assert(!ends_space(after));
        assert(completed_tokens(aw, false) =~= seq![path]);
    } else {
        assert(aw =~= seq![path]);
        assert(ends_space(after));
    }
    let trailing = ends_space(after);
    assert(token_partial(aw, trailing) == partial);
    let one = seq![path];
    assert(completed_tokens(aw, trailing) == one);
    assert(one.filter(not_flag()) == one) by {
        reveal_with_fuel(Seq::filter, 2);
        assert(one.drop_last() =~= Seq::<Seq<char>>::empty());
        assert(not_flag()(path));
        assert(Seq::<Seq<char>>::empty().push(path) =~= one);
    }
    let ss = pos - byte_len(partial);
    assert(name_with(partial) =~= (|p: (Seq<char>, Seq<char>)| is_prefix(partial, p.0)));
    assert(prop_name_sugg(ss, pos) =~= (|p: (Seq<char>, Seq<char>)|
        sugg(p.0, Some(p.1), pos - byte_len(partial), pos, true, None)));
}

/// Completion of an `object_add` keyval spec.
pub open spec fn object_add_step(c: CompleterView, after: Seq<char>, pos: int, ans: AnswersView) -> StepView {
    if rfind(after, ',') is None && ans.user_types is None {
        StepView::Need(QueryView::UserCreatableTypes)
    } else {
        StepView::Done(
            spec_complete_object_add(c.schema, after, pos - byte_len(after), pos, types_of(ans)),
        )
    }
}

/// Completion of the arguments of `change`.
pub open spec fn change_step(after: Seq<char>, pos: int, ans: AnswersView) -> StepView {
    let tokens = words(after);
    let trailing = after.len() == 0 || ends_space(after);
    let partial = token_partial(tokens, trailing);
    let ps = change_scan(completed_tokens(tokens, trailing)).1;
    let is_vnc = ps.len() > 0 && ps[0] == "vnc"@;
    if ps.len() == 0 && ans.block_devices is None {
        StepView::Need(QueryView::BlockDevices)
    } else if ps.len() == 1 && !is_vnc && ans.filenames is None {
        StepView::Need(QueryView::Filenames(partial))
    } else {
        StepView::Done(
            spec_complete_change(
                tokens,
                trailing,
                partial,
                pos - byte_len(partial),
                pos,
                devices_of(ans),
                files_of(ans),
            ),
        )
    }
}

pub open spec fn key_name_sugg(keep: Seq<char>, span_start: int, pos: int) -> spec_fn(Seq<char>) -> SuggestionView {
    |n: Seq<char>| sugg(keep + n, None, span_start, pos, false, Some(n))
}

/// Completion of `sendkey` key names; `-` separates the keys of a
/// combination.
pub open spec fn sendkey_suggestions(c: CompleterView, after: Seq<char>, pos: int) -> Seq<SuggestionView> {
    let aw = words(after);
    let trailing = ends_space(after);
    if aw.len() > 1 || (aw.len() == 1 && trailing) {
        seq![]
    } else {
        let keys = if aw.len() > 0 {
            aw[0]
        } else {
            seq![]
        };
        let (keep, partial) = match rfind(keys, '-') {
            Some(i) => (keys.take(i + 1), keys.skip(i + 1)),
            None => (seq![], keys),
        };
        c.sendkey_names.filter(has_prefix(partial)).map_values(
            key_name_sugg(keep, pos - byte_len(partial), pos),
        )
    }
}

/// Generic argument completion for a command's arguments.
pub open spec fn generic_step(
    c: CompleterView,
    l: Seq<char>,
    cmd: Seq<char>,
    pos: int,
    ans: AnswersView,
) -> StepView {
    match lookup(c.main_arg_defs, cmd) {
        None => StepView::Done(seq![]),
        Some(defs) => args_step(
            defs,
            after_word(l, cmd),
            pos,
            if cmd == "commit"@ {
                seq!["all"@]
            } else {
                seq![]
            },
            ans,
        ),
    }
}

/// The completion of the text `l` before the cursor, at byte `pos`.
pub open spec fn spec_complete_line(c: CompleterView, l: Seq<char>, pos: int, ans: AnswersView) -> StepView {
    if json_line(l) {
        StepView::Done(spec_complete_json(c.schema, l, pos))
    } else if is_prefix("info "@, l) {
        info_step(c, l, pos, ans)
    } else {
        let cmd = first_word(l);
        if !l.contains(' ') {
            StepView::Done(c.main_names.filter(has_prefix(cmd)).map_values(name_sugg(0, pos)))
        } else {
            let after = after_word(l, cmd);
            if cmd == "help"@ || cmd == "?"@ {
                StepView::Done(help_suggestions(c, after, pos))
            } else {
                let q = if is_qom_command(cmd) {
                    qom_step(c, cmd, after, pos, ans)
                } else {
                    None
                };
                match q {
                    Some(st) => st,
                    None => if cmd == "object_add"@ {
                        object_add_step(c, after, pos, ans)
                    } else if cmd == "change"@ {
                        change_step(after, pos, ans)
                    } else if cmd == "sendkey"@ {
                        StepView::Done(sendkey_suggestions(c, after, pos))
                    } else {
                        generic_step(c, l, cmd, pos, ans)
                    },
                }
            }
        }
    }
}

/// The completion of `line` with the cursor at byte `pos`.
pub open spec fn spec_complete(c: CompleterView, line: Seq<char>, pos: int, ans: AnswersView) -> StepView {
    spec_complete_line(c, line.take(byte_cut(line, pos)->0), pos, ans)
}

/// Completion reads only what stands before the cursor: text typed after
/// it changes nothing.
pub proof fn law_complete_ignores_after_cursor(
    c: CompleterView,
    line: Seq<char>,
    extra: Seq<char>,
    ans: AnswersView,
)
    ensures
        spec_complete(c, line + extra, byte_len(line) as int, ans) == spec_complete(
            c,
            line,
            byte_len(line) as int,
            ans,
        ),
{
    let full = line + extra;
    assert(full.take(line.len() as int) =~= line);
    lemma_byte_cut_at(full, line.len() as int);
    assert(line.take(line.len() as int) =~= line);
    lemma_byte_cut_at(line, line.len() as int);
}

/// The first word completes to exactly the known command names that
/// begin with it, each replacing the text up to the cursor.
pub proof fn law_first_word_names(c: CompleterView, l: Seq<char>, pos: int, ans: AnswersView)
    requires
        !json_line(l),
        !is_prefix("info "@, l),
        !l.contains(' '),
    ensures
        spec_complete_line(c, l, pos, ans) matches StepView::Done(r) && (forall|i: int|
            0 <= i < r.len() ==> c.main_names.contains(#[trigger] r[i].value) && is_prefix(
                first_word(l),
                r[i].value,
            ) && r[i].start == 0 && r[i].end == pos) && (forall|n: Seq<char>|
            #[trigger] c.main_names.contains(n) && is_prefix(first_word(l), n) ==> exists|i: int|
                0 <= i < r.len() && r[i].value == n),
{
    let p = has_prefix(first_word(l));
    let f = c.main_names.filter(p);
    let r = f.map_values(name_sugg(0, pos));
    assert forall|i: int| 0 <= i < r.len() implies c.main_names.contains(#[trigger] r[i].value)
        && is_prefix(first_word(l), r[i].value) && r[i].start == 0 && r[i].end == pos by {
        assert(f.contains(f[i]));
        c.main_names.lemma_filter_contains_rev(p, f[i]);
        c.main_names.lemma_filter_pred(p, i);
        assert(r[i].value == f[i]);
    }
    assert forall|n: Seq<char>| #[trigger] c.main_names.contains(n) && is_prefix(first_word(l), n)
        implies exists|i: int| 0 <= i < r.len() && r[i].value == n by {
        let j = choose|j: int| 0 <= j < c.main_names.len() && c.main_names[j] == n;
        c.main_names.lemma_filter_contains(p, j);
        let i = choose|i: int| 0 <= i < f.len() && f[i] == n;
        assert(r[i].value == n);
    }
}

// ---------------------------------------------------------------------
// Completing
// ---------------------------------------------------------------------

pub proof fn lemma_byte_cut_at(s: Seq<char>, k: int)
    requires
        0 <= k <= s.len(),
    ensures
        byte_cut(s, byte_len(s.take(k)) as int) == Some(k),
{
    let b = byte_len(s.take(k)) as int;
    assert(0 <= k <= s.len() && byte_len(s.take(k)) == b);
    let j = choose|j: int| 0 <= j <= s.len() && byte_len(s.take(j)) == b;
    if j < k {
        crate::format::lemma_byte_len_strict(s, j, k);
    } else if j > k {
        crate::format::lemma_byte_len_strict(s, k, j);
    }
}

fn byte_cut_exec(v: &Vec<char>, b: usize) -> (r: Option<usize>)
    requires
        byte_len(v@) <= usize::MAX,
    ensures
        match r {
            Some(k) => byte_cut(v@, b as int) == Some(k as int) && k <= v@.len(),
            None => byte_cut(v@, b as int) is None,
        },
{
    let mut k: usize = 0;
    let mut acc: usize = 0;
    assert(v@.take(0) =~= Seq::<char>::empty());
    loop
        invariant
            k <= v@.len(),
            acc == byte_len(v@.take(k as int)),
            acc <= b,
            byte_len(v@) <= usize::MAX,
        decreases v@.len() - k,
    {
        if acc == b {
            proof {
                lemma_byte_cut_at(v@, k as int);
            }
            return Some(k);
        }
        if k == v.len() {
            proof {
                assert forall|j: int| 0 <= j <= v@.len() implies byte_len(v@.take(j)) != b by {
                    if j < k {
                        crate::format::lemma_byte_len_strict(v@, j, k as int);
                    }
                }
            }
            return None;
        }
        let w = char_utf8_len(v[k]);
        proof {
            crate::format::lemma_byte_len_prefix_mono(v@, k + 1);
            crate::text::lemma_byte_len_sub_general(v@, 0, k + 1);
            assert(v@.subrange(0, k + 1) =~= v@.take(k + 1));
        }
        if acc + w > b {
            proof {
                assert forall|j: int| 0 <= j <= v@.len() implies byte_len(v@.take(j)) != b by {
                    if j < k {
                        crate::format::lemma_byte_len_strict(v@, j, k as int);
                    } else if j > k + 1 {
                        crate::format::lemma_byte_len_strict(v@, k + 1, j);
                    }
                }
            }
            return None;
        }
        acc = acc + w;
        k = k + 1;
    }
}

fn lit(s: &str) -> (v: Vec<char>)
    ensures
        v@ == s@,
{
    to_chars(s)
}

/// The whitespace-separated words of `v`, as strings.
fn tokens_of(v: &Vec<char>) -> (r: Vec<String>)
    ensures
        r.deep_view() == words(v@),
{
    let ws = split_whitespace(v);
    let r = strings_of(&ws);
    assert(ws.deep_view() =~= ws@.map_values(|w: Vec<char>| w@)) by {
        assert forall|k: int| 0 <= k < ws@.len() implies ws.deep_view()[k] == ws@.map_values(
            |w: Vec<char>| w@,
        )[k] by {
            assert(ws@[k].deep_view() =~= ws@[k]@);
        }
    }
    r
}

fn name_suggestions(names: &Vec<String>, prefix: &Vec<char>, span_start: usize, pos: usize) -> (r:
    Vec<Suggestion>)
    ensures
        r.deep_view() == names.deep_view().filter(has_prefix(prefix@)).map_values(
            name_sugg(span_start as int, pos as int),
        ),
{
    let ghost dv = names.deep_view();
    let ghost f = name_sugg(span_start as int, pos as int);
    let mut out: Vec<Suggestion> = Vec::new();
    let mut i: usize = 0;
    while i < names.len()
        invariant
            i <= names@.len(),
            dv == names.deep_view(),
            f == name_sugg(span_start as int, pos as int),
            out.deep_view() == dv.take(i as int).filter(has_prefix(prefix@)).map_values(f),
        decreases names@.len() - i,
    {
        proof {
            lemma_filter_map_step(dv, i as int, has_prefix(prefix@), f);
        }
        let n = to_chars(names[i].as_str());
        assert(dv[i as int] == names@[i as int]@);
        if starts_with(&n, prefix) {
            let sg = new_sugg(names[i].clone(), None, span_start, pos, true, None);
            let ghost before = out.deep_view();
            out.push(sg);
            assert(out.deep_view() =~= before.push(f(dv[i as int])));
        }
        i = i + 1;
    }
    assert(dv.take(names@.len() as int) =~= dv);
    out
}

fn key_name_suggestions(
    names: &Vec<String>,
    keep: &Vec<char>,
    prefix: &Vec<char>,
    span_start: usize,
    pos: usize,
) -> (r: Vec<Suggestion>)
    ensures
        r.deep_view() == names.deep_view().filter(has_prefix(prefix@)).map_values(
            key_name_sugg(keep@, span_start as int, pos as int),
        ),
{
    let ghost dv = names.deep_view();
    let ghost f = key_name_sugg(keep@, span_start as int, pos as int);
    let keep_s = string_from(keep);
    let mut out: Vec<Suggestion> = Vec::new();
    let mut i: usize = 0;
    while i < names.len()
        invariant
            i <= names@.len(),
            dv == names.deep_view(),
            keep_s@ == keep@,
            f == key_name_sugg(keep@, span_start as int, pos as int),
            out.deep_view() == dv.take(i as int).filter(has_prefix(prefix@)).map_values(f),
        decreases names@.len() - i,
    {
        proof {
            lemma_filter_map_step(dv, i as int, has_prefix(prefix@), f);
        }
        let n = to_chars(names[i].as_str());
        assert(dv[i as int] == names@[i as int]@);
        if starts_with(&n, prefix) {
            let mut value = keep_s.clone();
            push_str(&mut value, names[i].as_str());
            let sg = new_sugg(value, None, span_start, pos, false, Some(names[i].clone()));
            let ghost before = out.deep_view();
            out.push(sg);
            assert(out.deep_view() =~= before.push(f(dv[i as int])));
        }
        i = i + 1;
    }
    assert(dv.take(names@.len() as int) =~= dv);
    out
}

fn copy_strings(v: &Vec<String>) -> (r: Vec<String>)
    ensures
        r.deep_view() == v.deep_view(),
{
    let mut r: Vec<String> = Vec::new();
    let mut i: usize = 0;
    while i < v.len()
        invariant
            i <= v@.len(),
            r.deep_view() == v.deep_view().take(i as int),
        decreases v@.len() - i,
    {
        let ghost before = r.deep_view();
        let x = v[i].clone();
        assert(x@ == v@[i as int]@);
        r.push(x);
        assert(r.deep_view() =~= before.push(v@[i as int]@));
        assert(v.deep_view().take(i + 1) =~= v.deep_view().take(i as int).push(v@[i as int]@));
        i = i + 1;
    }
    assert(v.deep_view().take(v@.len() as int) =~= v.deep_view());
    r
}

fn copy_files(v: &Vec<(String, bool)>) -> (r: Vec<(String, bool)>)
    ensures
        r.deep_view() == v.deep_view(),
{
    let mut r: Vec<(String, bool)> = Vec::new();
    let mut i: usize = 0;
    while i < v.len()
        invariant
            i <= v@.len(),
            r.deep_view() == v.deep_view().take(i as int),
        decreases v@.len() - i,
    {
        let ghost before = r.deep_view();
        let x = v[i].0.clone();
        assert(x@ == v@[i as int].0@);
        r.push((x, v[i].1));
        assert(r.deep_view() =~= before.push(v@[i as int].deep_view()));
        assert(v.deep_view().take(i + 1) =~= v.deep_view().take(i as int).push(v@[i as int].deep_view()));
        i = i + 1;
    }
    assert(v.deep_view().take(v@.len() as int) =~= v.deep_view());
    r
}

fn devices_exec(ans: &Answers) -> (r: Vec<String>)
    ensures
        r.deep_view() == devices_of(ans.deep_view()),
{
    match &ans.block_devices {
        Some(d) => copy_strings(d),
        None => Vec::new(),
    }
}

fn files_exec(ans: &Answers) -> (r: Vec<(String, bool)>)
    ensures
        r.deep_view() == files_of(ans.deep_view()),
{
    match &ans.filenames {
        Some(f) => copy_files(f),
        None => Vec::new(),
    }
}

fn needs_type_exec(defs: &Vec<ArgDef>, cands: &Vec<usize>, dev: bool) -> (r: bool)
    requires
        forall|q: int| 0 <= q < cands@.len() ==> #[trigger] cands@[q] < defs@.len(),
    ensures
        r == needs_type(
            defs.deep_view(),
            cands@.map_values(|i: usize| i as int),
            if dev {
                ArgTypeView::BlockDevice
            } else {
                ArgTypeView::Filename
            },
        ),
{
    let ghost cv = cands@.map_values(|i: usize| i as int);
    let ghost t = if dev {
        ArgTypeView::BlockDevice
    } else {
        ArgTypeView::Filename
    };
    let mut k: usize = 0;
    while k < cands.len()
        invariant
            k <= cands@.len(),
            cv == cands@.map_values(|i: usize| i as int),
            t == (if dev {
                ArgTypeView::BlockDevice
            } else {
                ArgTypeView::Filename
            }),
            forall|q: int| 0 <= q < cands@.len() ==> #[trigger] cands@[q] < defs@.len(),
            forall|q: int| 0 <= q < k ==> defs.deep_view()[#[trigger] cv[q]].arg_type != t,
        decreases cands@.len() - k,
    {
        let d = cands[k];
        assert(cv[k as int] == d as int);
        assert(defs.deep_view()[d as int] == defs@[d as int].deep_view());
        let hit = match &defs[d].arg_type {
            ArgType::BlockDevice => dev,
            ArgType::Filename => !dev,
            _ => false,
        };
        assert(!hit ==> defs.deep_view()[d as int].arg_type != t);
        if hit {
            return true;
        }
        k = k + 1;
    }
    false
}

impl HmpCompleter {
    /// Builds a completer: the command names are sorted with duplicates
    /// removed, `info` and `help` are added to the main commands, and
    /// argument definitions that are empty are left out.
    pub fn new(
        main_commands: Vec<String>,
        info_commands: Vec<String>,
        main_arg_defs: Vec<(String, Vec<ArgDef>)>,
        info_arg_defs: Vec<(String, Vec<ArgDef>)>,
        sendkey_names: Vec<String>,
        schema: SchemaCache,
    ) -> (r: HmpCompleter)
        ensures
            strictly_sorted(r.main_names.deep_view()),
            r.main_names.deep_view().to_set() == main_commands.deep_view().to_set().insert(
                "info"@,
            ).insert("help"@),
            strictly_sorted(r.info_names.deep_view()),
            r.info_names.deep_view().to_set() == info_commands.deep_view().to_set(),
            r.main_arg_defs.deep_view() == main_arg_defs.deep_view().filter(
                non_empty_entry(),
            ),
            r.info_arg_defs.deep_view() == info_arg_defs.deep_view().filter(
                non_empty_entry(),
            ),
            r.sendkey_names.deep_view() == sendkey_names.deep_view(),
            r.schema.deep_view() == schema.deep_view(),
    {
        let mut main = main_commands;
        let ghost mv = main.deep_view();
        main.push(String::from_str("info"));
        main.push(String::from_str("help"));
        proof {
            mv.lemma_push_to_set_commute("info"@);
            mv.push("info"@).lemma_push_to_set_commute("help"@);
            assert(main.deep_view() =~= mv.push("info"@).push("help"@));
        }
        let main_names = sort_dedup(main);
        let info_names = sort_dedup(info_commands);
        HmpCompleter {
            main_names,
            info_names,
            schema,
            main_arg_defs: non_empty_defs(main_arg_defs),
            info_arg_defs: non_empty_defs(info_arg_defs),
            sendkey_names,
        }
    }

    /// A completer for a QEMU session: `new` with QEMU's key code names
    /// (the schema's `QKeyCode`) offered for `sendkey`.
    pub fn with_key_codes(
        main_commands: Vec<String>,
        info_commands: Vec<String>,
        main_arg_defs: Vec<(String, Vec<ArgDef>)>,
        info_arg_defs: Vec<(String, Vec<ArgDef>)>,
        schema: SchemaCache,
    ) -> (r: HmpCompleter)
        ensures
            strictly_sorted(r.main_names.deep_view()),
            r.main_names.deep_view().to_set() == main_commands.deep_view().to_set().insert(
                "info"@,
            ).insert("help"@),
            strictly_sorted(r.info_names.deep_view()),
            r.info_names.deep_view().to_set() == info_commands.deep_view().to_set(),
            r.main_arg_defs.deep_view() == main_arg_defs.deep_view().filter(
                non_empty_entry(),
            ),
            r.info_arg_defs.deep_view() == info_arg_defs.deep_view().filter(
                non_empty_entry(),
            ),
            r.schema.deep_view() == schema.deep_view(),
            r.sendkey_names.deep_view() == qkeycode_list(),
    {
        let keys = qkeycode_names();
        Self::new(main_commands, info_commands, main_arg_defs, info_arg_defs, keys, schema)
    }

    fn args_step_exec(
        defs: &Vec<ArgDef>,
        after: &Vec<char>,
        pos: usize,
        extra: &Vec<String>,
        ans: &Answers,
    ) -> (r: CompletionStep)
        requires
            byte_len(after@) <= pos,
        ensures
            r.deep_view() == args_step(
                defs.deep_view(),
                after@,
                pos as int,
                extra.deep_view(),
                ans.deep_view(),
            ),
    {
        let tokens = tokens_of(after);
        let trailing = after.len() == 0 || after[after.len() - 1] == ' ';
        let partial: Vec<char> = if trailing || tokens.len() == 0 {
            Vec::new()
        } else {
            to_chars(tokens[tokens.len() - 1].as_str())
        };
        assert(partial@ == token_partial(words(after@), trailing)) by {
            if !(trailing || tokens.len() == 0) {
                assert(tokens.deep_view()[tokens@.len() - 1] == tokens@[tokens@.len() - 1]@);
            }
        }
        proof {
            lemma_words_byte_len(after@, 0);
            if !(trailing || tokens.len() == 0) {
                assert(byte_len(words(after@)[words(after@).len() - 1]) <= byte_len(after@));
            }
            lemma_byte_len_bounds(after@);
        }
        let cands = find_candidate_defs(defs, &tokens, trailing);
        proof {
            crate::arg_completion::lemma_candidates_bounded(defs.deep_view(), tokens.deep_view(), trailing);
            assert forall|q: int| 0 <= q < cands@.len() implies #[trigger] cands@[q] < defs@.len() by {
                assert(cands@.map_values(|i: usize| i as int)[q] == cands@[q] as int);
            }
        }
        if needs_type_exec(defs, &cands, true) && ans.block_devices.is_none() {
            return CompletionStep::Need(Query::BlockDevices);
        }
        if needs_type_exec(defs, &cands, false) && ans.filenames.is_none() {
            return CompletionStep::Need(Query::Filenames(string_from(&partial)));
        }
        let mut devices = devices_exec(ans);
        let more = copy_strings(extra);
        let ghost d0 = devices.deep_view();
        let mut k: usize = 0;
        while k < more.len()
            invariant
                k <= more@.len(),
                devices.deep_view() == d0 + more.deep_view().take(k as int),
            decreases more@.len() - k,
        {
            let ghost before = devices.deep_view();
            let x = more[k].clone();
            assert(x@ == more@[k as int]@);
            devices.push(x);
            assert(devices.deep_view() =~= before.push(more@[k as int]@));
            assert(more.deep_view().take(k + 1) =~= more.deep_view().take(k as int).push(more@[k as int]@));
            assert(d0 + more.deep_view().take(k + 1) =~= before.push(more@[k as int]@));
            k = k + 1;
        }
        assert(more.deep_view().take(more@.len() as int) =~= more.deep_view());
        let files = files_exec(ans);
        let pstr = string_from(&partial);
        let plen = byte_len_of(&partial);
        let sugs = complete_args_impl(
            defs,
            &tokens,
            trailing,
            pstr.as_str(),
            pos - plen,
            pos,
            &devices,
            &files,
        );
        CompletionStep::Done(sugs)
    }
}

/// An entry whose list of definitions is not empty.
pub open spec fn non_empty_entry() -> spec_fn((Seq<char>, Seq<ArgDefView>)) -> bool {
    |e: (Seq<char>, Seq<ArgDefView>)| e.1.len() > 0
}

fn non_empty_defs(v: Vec<(String, Vec<ArgDef>)>) -> (r: Vec<(String, Vec<ArgDef>)>)
    ensures
        r.deep_view() == v.deep_view().filter(non_empty_entry()),
{
    let ghost dv = v.deep_view();
    let ghost p = non_empty_entry();
    let mut out: Vec<(String, Vec<ArgDef>)> = Vec::new();
    let mut rest = v;
    let ghost total = dv.len();
    assert(dv.skip(0) =~= dv);
    assert(dv.take(0) =~= Seq::<(Seq<char>, Seq<ArgDefView>)>::empty());
    while rest.len() > 0
        invariant
            rest@.len() <= total,
            total == dv.len(),
            p == non_empty_entry(),
            rest.deep_view() == dv.skip(total - rest@.len()),
            out.deep_view() == dv.take(total - rest@.len()).filter(p),
        decreases rest@.len(),
    {
        let ghost i = total - rest@.len();
        let ghost r0 = rest@;
        let ghost rd0 = rest.deep_view();
        let e = rest.remove(0);
        proof {
            assert(rest@ =~= r0.remove(0));
            assert(e.deep_view() == rd0[0]);
            assert(rd0[0] == dv[i]);
            assert forall|k: int| 0 <= k < rest@.len() implies #[trigger] rest.deep_view()[k] == rd0[k + 1] by {
                assert(rest@[k] == r0[k + 1]);
            }
            assert(rest.deep_view() =~= dv.skip(i + 1));
            lemma_filter_step(dv, i, p);
        }
        assert(e.deep_view().1.len() == e.1@.len());
        if e.1.len() > 0 {
            let ghost before = out.deep_view();
            out.push(e);
            assert(out.deep_view() =~= before.push(dv[i]));
        }
    }
    assert(dv.take(total as int) =~= dv);
    out
}

/// The completed tokens that are not flags.
fn positional_words(aw: &Vec<String>, trailing: bool) -> (r: Vec<String>)
    ensures
        r.deep_view() == completed_tokens(aw.deep_view(), trailing).filter(not_flag()),
{
    let ghost tv = aw.deep_view();
    let n = if trailing || aw.len() == 0 {
        aw.len()
    } else {
        aw.len() - 1
    };
    assert(completed_tokens(tv, trailing) =~= tv.take(n as int));
    let mut out: Vec<String> = Vec::new();
    let mut i: usize = 0;
    while i < n
        invariant
            i <= n <= aw@.len(),
            tv == aw.deep_view(),
            out.deep_view() == tv.take(n as int).take(i as int).filter(not_flag()),
        decreases n - i,
    {
        proof {
            lemma_filter_step(tv.take(n as int), i as int, not_flag());
        }
        let w = to_chars(aw[i].as_str());
        assert(tv.take(n as int)[i as int] == aw@[i as int]@);
        if !(w.len() > 0 && w[0] == '-') {
            let ghost before = out.deep_view();
            let x = aw[i].clone();
            out.push(x);
            assert(out.deep_view() =~= before.push(aw@[i as int]@));
        }
        i = i + 1;
    }
    assert(tv.take(n as int).take(n as int) =~= tv.take(n as int));
    out
}

impl HmpCompleter {
    fn info_step_exec(&self, l: &Vec<char>, pos: usize, ans: &Answers) -> (r: CompletionStep)
        requires
            is_prefix("info "@, l@),
            byte_len(l@) == pos,
        ensures
            r.deep_view() == info_step(self.deep_view(), l@, pos as int, ans.deep_view()),
    {
        proof {
            reveal_strlit("info ");
        }
        let rest = tail(l, 5);
        let prefix = trim_start_v(&rest);
        proof {
            assert(is_suffix(l@, l@)) by {
                assert(l@.skip(0) =~= l@);
            }
            lemma_skip_suffix(l@, l@, 5);
            lemma_trim_suffix(rest@, l@);
            lemma_suffix_byte_len(prefix@, l@);
        }
        if !has_char(&prefix, ' ') {
            let plen = byte_len_of(&prefix);
            return CompletionStep::Done(name_suggestions(&self.info_names, &prefix, pos - plen, pos));
        }
        proof {
            lemma_lead_ws(rest@);
            assert(prefix@.len() > 0);
            assert(!crate::text::is_ws(prefix@[0]));
            crate::text::lemma_word_end(prefix@, 0);
        }
        let ws = tokens_of(&prefix);
        assert(words(prefix@).len() > 0);
        let sub = to_chars(ws[0].as_str());
        assert(sub@ == words(prefix@)[0]);
        assert(sub@ == prefix@.subrange(0, crate::text::word_end(prefix@, 0)));
        match find_entry(&self.info_arg_defs, &sub) {
            None => {
                let out: Vec<Suggestion> = Vec::new();
                assert(out.deep_view() =~= Seq::<SuggestionView>::empty());
                CompletionStep::Done(out)
            },
            Some(di) => {
                let after0 = tail(&prefix, sub.len());
                let after = trim_start_v(&after0);
                proof {
                    lemma_skip_suffix(prefix@, l@, sub@.len() as int);
                    lemma_trim_suffix(after0@, l@);
                    lemma_suffix_byte_len(after@, l@);
                }
                let extra: Vec<String> = Vec::new();
                assert(extra.deep_view() =~= Seq::<Seq<char>>::empty());
                Self::args_step_exec(&self.info_arg_defs[di].1, &after, pos, &extra, ans)
            },
        }
    }

    fn help_exec(&self, after: &Vec<char>, pos: usize) -> (r: Vec<Suggestion>)
        requires
            byte_len(after@) <= pos,
        ensures
            r.deep_view() == help_suggestions(self.deep_view(), after@, pos as int),
    {
        let hw = tokens_of(after);
        let trailing = after.len() > 0 && after[after.len() - 1] == ' ';
        proof {
            lemma_words_byte_len(after@, 0);
        }
        if hw.len() > 0 && same(&to_chars(hw[0].as_str()), &lit("info")) {
            if hw.len() > 2 || (hw.len() == 2 && trailing) {
                return Vec::new();
            }
            let partial = if hw.len() == 2 {
                to_chars(hw[1].as_str())
            } else {
                Vec::new()
            };
            assert(hw.len() == 2 ==> byte_len(words(after@)[1]) <= byte_len(after@));
            let plen = byte_len_of(&partial);
            return name_suggestions(&self.info_names, &partial, pos - plen, pos);
        }
        if hw.len() > 1 || (hw.len() == 1 && trailing) {
            return Vec::new();
        }
        let partial = if hw.len() > 0 {
            to_chars(hw[0].as_str())
        } else {
            Vec::new()
        };
        assert(hw.len() > 0 ==> byte_len(words(after@)[0]) <= byte_len(after@));
        let plen = byte_len_of(&partial);
        let mut all = copy_strings(&self.main_names);
        let more = copy_strings(&self.info_names);
        let ghost a0 = all.deep_view();
        let mut k: usize = 0;
        while k < more.len()
            invariant
                k <= more@.len(),
                all.deep_view() == a0 + more.deep_view().take(k as int),
            decreases more@.len() - k,
        {
            let ghost before = all.deep_view();
            let x = more[k].clone();
            assert(x@ == more@[k as int]@);
            all.push(x);
            assert(all.deep_view() =~= before.push(more@[k as int]@));
            assert(more.deep_view().take(k + 1) =~= more.deep_view().take(k as int).push(more@[k as int]@));
            assert(a0 + more.deep_view().take(k + 1) =~= before.push(more@[k as int]@));
            k = k + 1;
        }
        assert(more.deep_view().take(more@.len() as int) =~= more.deep_view());
        name_suggestions(&all, &partial, pos - plen, pos)
    }

    fn qom_step_exec(&self, cmd: &Vec<char>, after: &Vec<char>, pos: usize, ans: &Answers) -> (r: Option<CompletionStep>)
        requires
            byte_len(after@) <= pos,
        ensures
            r.deep_view() == qom_step(self.deep_view(), cmd@, after@, pos as int, ans.deep_view()),
    {
        let aw = tokens_of(after);
        let trailing = after.len() > 0 && after[after.len() - 1] == ' ';
        if !trailing && aw.len() > 0 {
            let lw = to_chars(aw[aw.len() - 1].as_str());
            assert(lw@ == aw.deep_view().last());
            if lw.len() > 0 && lw[0] == '-' {
                return None;
            }
        }
        let ps = positional_words(&aw, trailing);
        let partial: Vec<char> = if trailing || aw.len() == 0 {
            Vec::new()
        } else {
            to_chars(aw[aw.len() - 1].as_str())
        };
        proof {
            lemma_words_byte_len(after@, 0);
            if !(trailing || aw.len() == 0) {
                assert(aw.deep_view()[aw@.len() - 1] == aw@[aw@.len() - 1]@);
                assert(byte_len(words(after@)[words(after@).len() - 1]) <= byte_len(after@));
            }
        }
        let plen = byte_len_of(&partial);
        let ss = pos - plen;
        let pstr = string_from(&partial);
        if ps.len() == 0 {
            return match qom_path_query(pstr.as_str()) {
                None => {
                    let empty: Vec<(String, String)> = Vec::new();
                    assert(empty.deep_view() =~= Seq::<(Seq<char>, Seq<char>)>::empty());
                    Some(CompletionStep::Done(complete_qom_path(pstr.as_str(), ss, pos, &empty)))
                },
                Some(q) => match &ans.qom_list {
                    None => Some(CompletionStep::Need(Query::QomList(q))),
                    Some(props) => Some(CompletionStep::Done(complete_qom_path(pstr.as_str(), ss, pos, props))),
                },
            };
        }
        let is_get = same(cmd, &lit("qom-get"));
        let is_set = same(cmd, &lit("qom-set"));
        if ps.len() == 1 && (is_get || is_set) {
            let path = ps[0].clone();
            assert(path@ == ps.deep_view()[0]);
            return match &ans.qom_list {
                None => Some(CompletionStep::Need(Query::QomList(path))),
                Some(props) => Some(CompletionStep::Done(complete_qom_property(pstr.as_str(), ss, pos, props))),
            };
        }
        if ps.len() == 2 && is_set {
            let path = ps[0].clone();
            assert(path@ == ps.deep_view()[0]);
            assert(ps@[1]@ == ps.deep_view()[1]);
            return match &ans.qom_list {
                None => Some(CompletionStep::Need(Query::QomList(path))),
                Some(props) => match complete_qom_value(&self.schema, ps[1].as_str(), pstr.as_str(), ss, pos, props) {
                    Some(sg) => Some(CompletionStep::Done(sg)),
                    None => None,
                },
            };
        }
        None
    }

    fn object_add_step_exec(&self, after: &Vec<char>, pos: usize, ans: &Answers) -> (r: CompletionStep)
        requires
            byte_len(after@) <= pos,
        ensures
            r.deep_view() == object_add_step(self.deep_view(), after@, pos as int, ans.deep_view()),
    {
        let comma = rfind_char(after, ',');
        if comma.is_none() && ans.user_types.is_none() {
            return CompletionStep::Need(Query::UserCreatableTypes);
        }
        let types: Vec<String> = match &ans.user_types {
            Some(t) => copy_strings(t),
            None => Vec::new(),
        };
        let alen = byte_len_of(after);
        let spec = string_from(after);
        CompletionStep::Done(complete_object_add_impl(spec.as_str(), pos - alen, pos, &types, &self.schema))
    }

    fn change_step_exec(after: &Vec<char>, pos: usize, ans: &Answers) -> (r: CompletionStep)
        requires
            byte_len(after@) <= pos,
        ensures
            r.deep_view() == change_step(after@, pos as int, ans.deep_view()),
    {
        let tokens = tokens_of(after);
        let trailing = after.len() == 0 || after[after.len() - 1] == ' ';
        let partial: Vec<char> = if trailing || tokens.len() == 0 {
            Vec::new()
        } else {
            to_chars(tokens[tokens.len() - 1].as_str())
        };
        proof {
            lemma_words_byte_len(after@, 0);
            if !(trailing || tokens.len() == 0) {
                assert(tokens.deep_view()[tokens@.len() - 1] == tokens@[tokens@.len() - 1]@);
                assert(byte_len(words(after@)[words(after@).len() - 1]) <= byte_len(after@));
            }
        }
        // The positional tokens, as `change` counts them.
        let ghost tv = tokens.deep_view();
        let n = if trailing || tokens.len() == 0 {
            tokens.len()
        } else {
            tokens.len() - 1
        };
        assert(completed_tokens(tv, trailing) =~= tv.take(n as int));
        let dash_f = lit("-f");
        let mut seen = false;
        let mut count: usize = 0;
        let mut first_vnc = false;
        let mut t: usize = 0;
        assert(tv.take(0) =~= Seq::<Seq<char>>::empty());
        while t < n
            invariant
                t <= n <= tokens@.len(),
                tv == tokens.deep_view(),
                dash_f@ == "-f"@,
                seen == change_scan(tv.take(t as int)).0,
                count == change_scan(tv.take(t as int)).1.len(),
                first_vnc == (count > 0 && change_scan(tv.take(t as int)).1[0] == "vnc"@),
                count <= t,
            decreases n - t,
        {
            proof {
                assert(tv.take(t + 1).drop_last() =~= tv.take(t as int));
                assert(tv.take(t + 1).last() == tv[t as int]);
            }
            let tok = to_chars(tokens[t].as_str());
            assert(tok@ == tv[t as int]);
            if same(&tok, &dash_f) && !seen {
                seen = true;
            } else {
                if count == 0 {
                    first_vnc = same(&tok, &lit("vnc"));
                }
                count = count + 1;
            }
            t = t + 1;
        }
        if count == 0 && ans.block_devices.is_none() {
            return CompletionStep::Need(Query::BlockDevices);
        }
        if count == 1 && !first_vnc && ans.filenames.is_none() {
            return CompletionStep::Need(Query::Filenames(string_from(&partial)));
        }
        let devices = devices_exec(ans);
        let files = files_exec(ans);
        let plen = byte_len_of(&partial);
        let pstr = string_from(&partial);
        CompletionStep::Done(
            complete_change_impl(&tokens, trailing, pstr.as_str(), pos - plen, pos, &devices, &files),
        )
    }

    fn sendkey_exec(&self, after: &Vec<char>, pos: usize) -> (r: Vec<Suggestion>)
        requires
            byte_len(after@) <= pos,
        ensures
            r.deep_view() == sendkey_suggestions(self.deep_view(), after@, pos as int),
    {
        let aw = tokens_of(after);
        let trailing = after.len() > 0 && after[after.len() - 1] == ' ';
        if aw.len() > 1 || (aw.len() == 1 && trailing) {
            return Vec::new();
        }
        let keys = if aw.len() > 0 {
            to_chars(aw[0].as_str())
        } else {
            Vec::new()
        };
        proof {
            lemma_words_byte_len(after@, 0);
            if aw.len() > 0 {
                assert(aw.deep_view()[0] == aw@[0]@);
                assert(byte_len(words(after@)[0]) <= byte_len(after@));
            }
        }
        proof {
            lemma_rfind(keys@, '-');
        }
        let (keep, partial) = match rfind_char(&keys, '-') {
            Some(i) => {
                let k = slice_of(&keys, 0, i + 1);
                assert(k@ =~= keys@.take(i + 1));
                (k, tail(&keys, i + 1))
            },
            None => (Vec::new(), keys),
        };
        proof {
            assert(is_suffix(keys@, keys@)) by {
                assert(keys@.skip(0) =~= keys@);
            }
            if let Some(i) = rfind(keys@, '-') {
                lemma_skip_suffix(keys@, keys@, i + 1);
                lemma_suffix_byte_len(keys@.skip(i + 1), keys@);
            }
        }
        let plen = byte_len_of(&partial);
        key_name_suggestions(&self.sendkey_names, &keep, &partial, pos - plen, pos)
    }
}

impl HmpCompleter {
    fn complete_line(&self, l: &Vec<char>, pos: usize, ans: &Answers) -> (r: CompletionStep)
        requires
            byte_len(l@) == pos,
            l@.len() <= u32::MAX,
            cut_needed(self.deep_view(), l@) ==> byte_cut(l@, byte_len(first_word(l@)) as int) is Some,
        ensures
            r.deep_view() == spec_complete_line(self.deep_view(), l@, pos as int, ans.deep_view()),
    {
        let t = trim_start_v(l);
        if t.len() > 0 && t[0] == '{' {
            proof {
                lemma_parse_context_no_abort(l@, pos as int);
            }
            let ls = string_from(l);
            return CompletionStep::Done(complete_json_impl(ls.as_str(), pos, &self.schema));
        }
        if starts_with(l, &lit("info ")) {
            return self.info_step_exec(l, pos, ans);
        }
        let ws = tokens_of(l);
        let cmd = if ws.len() > 0 {
            to_chars(ws[0].as_str())
        } else {
            Vec::new()
        };
        assert(cmd@ == first_word(l@)) by {
            if ws.len() > 0 {
                assert(ws.deep_view()[0] == ws@[0]@);
            }
        }
        if !has_char(l, ' ') {
            return CompletionStep::Done(name_suggestions(&self.main_names, &cmd, 0, pos));
        }
        let is_help = same(&cmd, &lit("help")) || same(&cmd, &lit("?"));
        let is_qom = same(&cmd, &lit("qom-list")) || same(&cmd, &lit("qom-get")) || same(
            &cmd,
            &lit("qom-set"),
        );
        let is_object_add = same(&cmd, &lit("object_add"));
        let is_change = same(&cmd, &lit("change"));
        let is_sendkey = same(&cmd, &lit("sendkey"));
        let defs = find_entry(&self.main_arg_defs, &cmd);
        if !(is_help || is_qom || is_object_add || is_change || is_sendkey || defs.is_some()) {
            let out: Vec<Suggestion> = Vec::new();
            assert(out.deep_view() =~= Seq::<SuggestionView>::empty());
            return CompletionStep::Done(out);
        }
        proof {
            lemma_words_byte_len(l@, 0);
            if ws.len() > 0 {
                assert(byte_len(words(l@)[0]) <= byte_len(l@));
            }
        }
        let b = byte_len_of(&cmd);
        let k = match byte_cut_exec(l, b) {
            Some(k) => k,
            None => {
                return CompletionStep::Done(Vec::new());
            },
        };
        let rest = tail(l, k);
        let after = trim_start_v(&rest);
        proof {
            assert(is_suffix(l@, l@)) by {
                assert(l@.skip(0) =~= l@);
            }
            lemma_skip_suffix(l@, l@, k as int);
            lemma_trim_suffix(rest@, l@);
            lemma_suffix_byte_len(after@, l@);
            assert(after@ == after_word(l@, cmd@));
        }
        if is_help {
            return CompletionStep::Done(self.help_exec(&after, pos));
        }
        let q = if is_qom {
            self.qom_step_exec(&cmd, &after, pos, ans)
        } else {
            None
        };
        match q {
            Some(st) => st,
            None => {
                if is_object_add {
                    self.object_add_step_exec(&after, pos, ans)
                } else if is_change {
                    Self::change_step_exec(&after, pos, ans)
                } else if is_sendkey {
                    CompletionStep::Done(self.sendkey_exec(&after, pos))
                } else {
                    match defs {
                        None => {
                            let out: Vec<Suggestion> = Vec::new();
                            assert(out.deep_view() =~= Seq::<SuggestionView>::empty());
                            CompletionStep::Done(out)
                        },
                        Some(di) => {
                            let extra: Vec<String> = if same(&cmd, &lit("commit")) {
                                vec![String::from_str("all")]
                            } else {
                                Vec::new()
                            };
                            assert(extra.deep_view() =~= (if cmd@ == "commit"@ {
                                seq!["all"@]
                            } else {
                                Seq::<Seq<char>>::empty()
                            }));
                            Self::args_step_exec(&self.main_arg_defs[di].1, &after, pos, &extra, ans)
                        },
                    }
                }
            },
        }
    }

    /// Completes `line` with the cursor at byte `pos`: the suggestions, or
    /// the query whose answer completion needs first.
    pub fn complete(&self, line: &str, pos: usize, ans: &Answers) -> (r: CompletionStep)
        requires
            byte_len(line@) <= usize::MAX,
            line@.len() <= u32::MAX,
            byte_cut(line@, pos as int) is Some,
            cut_needed(self.deep_view(), line@.take(byte_cut(line@, pos as int)->0)) ==> byte_cut(
                line@.take(byte_cut(line@, pos as int)->0),
                byte_len(first_word(line@.take(byte_cut(line@, pos as int)->0))) as int,
            ) is Some,
        ensures
            r.deep_view() == spec_complete(self.deep_view(), line@, pos as int, ans.deep_view()),
    {
        let v = to_chars(line);
        let k = match byte_cut_exec(&v, pos) {
            Some(k) => k,
            None => {
                return CompletionStep::Done(Vec::new());
            },
        };
        let l = slice_of(&v, 0, k);
        assert(l@ =~= line@.take(k as int));
        proof {
            let j = choose|j: int| 0 <= j <= line@.len() && byte_len(line@.take(j)) == pos;
            assert(byte_len(line@.take(k as int)) == pos);
        }
        self.complete_line(&l, pos, ans)
    }
}

} // verus!
