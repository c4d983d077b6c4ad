//! Discovery of the QMP sockets of running QEMU processes, and the menu
//! that picks one.
use vstd::prelude::*;

use crate::format::{dec, push_dec};
use crate::hmp_completer::{chars_lt, str_lt};
use crate::text::{
    find_from, is_prefix, push_str, slice_of, starts_with, string_from, tail, to_chars,
};
use vstd::utf8::{decode_utf8, valid_utf8};

verus! {

/// A QMP socket found on a QEMU command line.
#[derive(Debug, PartialEq, Eq)]
pub struct QmpSocket {
    pub path: String,
    pub label: String,
}

pub ghost struct SocketView {
    pub path: Seq<char>,
    pub label: Seq<char>,
}

impl DeepView for QmpSocket {
    type V = SocketView;

    open spec fn deep_view(&self) -> SocketView {
        SocketView { path: self.path@, label: self.label@ }
    }
}

// ---------------------------------------------------------------------
// Command lines
// ---------------------------------------------------------------------

/// Whether an executable's file name is that of QEMU.
pub open spec fn spec_is_qemu_exe(name: Seq<char>) -> bool {
    is_prefix("qemu-system"@, name) || name == "qemu-kvm"@
}

pub fn is_qemu_exe(name: &str) -> (r: bool)
    ensures
        r == spec_is_qemu_exe(name@),
{
    let v = to_chars(name);
    starts_with(&v, &to_chars("qemu-system")) || crate::text::same(&v, &to_chars("qemu-kvm"))
}

/// The path of a `unix:PATH[,options]` socket address.
pub open spec fn spec_unix_path(spec: Seq<char>) -> Option<Seq<char>> {
    if is_prefix("unix:"@, spec) {
        let rest = spec.skip(5);
        let path = rest.take(find_from(rest, ',', 0));
        if path.len() == 0 {
            None
        } else {
            Some(path)
        }
    } else {
        None
    }
}

proof fn lemma_find_from_run(s: Seq<char>, c: char, i: int, j: int)
    requires
        0 <= i <= j <= s.len(),
        forall|k: int| i <= k < j ==> #[trigger] s[k] != c,
        j == s.len() || s[j] == c,
    ensures
        find_from(s, c, i) == j,
    decreases j - i,
{
    if i < j {
        lemma_find_from_run(s, c, i + 1, j);
    }
}

/// The path of `unix:PATH` or `unix:PATH,OPTIONS` is `PATH` when it is not
/// empty and holds no comma.
pub proof fn law_unix_address_path(path: Seq<char>, opts: Seq<char>)
    requires
        path.len() > 0,
        !path.contains(','),
        opts.len() == 0 || opts[0] == ',',
    ensures
        spec_unix_path("unix:"@ + path + opts) == Some(path),
{
    reveal_strlit("unix:");
    let a = "unix:"@ + path + opts;
    assert(a.take(5) =~= "unix:"@);
    let rest = a.skip(5);
    assert(rest =~= path + opts);
    assert forall|k: int| 0 <= k < path.len() implies #[trigger] rest[k] != ',' by {
        assert(rest[k] == path[k]);
    }
    lemma_find_from_run(rest, ',', 0, path.len() as int);
    assert(rest.take(path.len() as int) =~= path);
}

/// Extracts the path of a `unix:` QMP address; `None` for other
/// addresses or an empty path.
pub fn extract_unix_path(spec: &str) -> (r: Option<String>)
    ensures
        r.deep_view() == spec_unix_path(spec@),
{
    let v = to_chars(spec);
    proof {
        reveal_strlit("unix:");
    }
    if !starts_with(&v, &to_chars("unix:")) {
        return None;
    }
    let rest = tail(&v, 5);
    let e = crate::text::find_char(&rest, ',');
    let path = slice_of(&rest, 0, e);
    assert(path@ =~= rest@.take(e as int));
    if path.len() == 0 {
        None
    } else {
        Some(string_from(&path))
    }
}

/// The VM name of a `-name` value: its first comma-separated part,
/// without a `guest=` prefix.
pub open spec fn vm_name(val: Seq<char>) -> Seq<char> {
    let n = val.take(find_from(val, ',', 0));
    if is_prefix("guest="@, n) {
        n.skip(6)
    } else {
        n
    }
}

/// Splitting bytes at NUL bytes (`split(|&b| b == 0)`).
pub open spec fn split_nul(raw: Seq<u8>) -> Seq<Seq<u8>>
    decreases raw.len(),
{
    if raw.len() == 0 {
        seq![seq![]]
    } else {
        let r = split_nul(raw.drop_last());
        if raw.last() == 0 {
            r.push(seq![])
        } else {
            r.update(r.len() - 1, r.last().push(raw.last()))
        }
    }
}

/// The pieces that are UTF-8 text and not empty.
pub open spec fn text_pieces(ps: Seq<Seq<u8>>) -> Seq<Seq<char>>
    decreases ps.len(),
{
    if ps.len() == 0 {
        seq![]
    } else {
        let r = text_pieces(ps.drop_last());
        if valid_utf8(ps.last()) && decode_utf8(ps.last()).len() > 0 {
            r.push(decode_utf8(ps.last()))
        } else {
            r
        }
    }
}

/// The arguments of a NUL-separated `/proc/PID/cmdline`.
pub open spec fn cmdline_args(raw: Seq<u8>) -> Seq<Seq<char>> {
    text_pieces(split_nul(raw))
}

/// Walks the arguments from `i`: the last `-name` value, and the paths of
/// the `unix:` addresses of `-qmp` / `-qmp-pretty`.
pub open spec fn scan_args(args: Seq<Seq<char>>, i: int, name: Option<Seq<char>>, paths: Seq<Seq<char>>) -> (Option<Seq<char>>, Seq<Seq<char>>)
    decreases args.len() + 1 - i,
{
    if i < 0 || i >= args.len() {
        (name, paths)
    } else if args[i] == "-qmp"@ || args[i] == "-qmp-pretty"@ {
        let p2 = if i + 1 < args.len() {
            match spec_unix_path(args[i + 1]) {
                Some(p) => paths.push(p),
                None => paths,
            }
        } else {
            paths
        };
        scan_args(args, i + 2, name, p2)
    } else if args[i] == "-name"@ {
        let n2 = if i + 1 < args.len() {
            Some(vm_name(args[i + 1]))
        } else {
            name
        };
        scan_args(args, i + 2, n2, paths)
    } else {
        scan_args(args, i + 1, name, paths)
    }
}

proof fn lemma_scan_plain(args: Seq<Seq<char>>, i: int, k: int, name: Option<Seq<char>>, paths: Seq<Seq<char>>)
    requires
        0 <= i <= k <= args.len(),
        forall|x: int|
            i <= x < k ==> #[trigger] args[x] != "-qmp"@ && args[x] != "-qmp-pretty"@ && args[x]
                != "-name"@,
    ensures
        scan_args(args, i, name, paths) == scan_args(args, k, name, paths),
    decreases k - i,
{
    if i < k {
        lemma_scan_plain(args, i + 1, k, name, paths);
    }
}

proof fn lemma_scan_keeps(args: Seq<Seq<char>>, i: int, name: Option<Seq<char>>, paths: Seq<Seq<char>>)
    ensures
        scan_args(args, i, name, paths).1.len() >= paths.len(),
        forall|j: int| 0 <= j < paths.len() ==> #[trigger] scan_args(args, i, name, paths).1[j] == paths[j],
    decreases args.len() + 1 - i,
{
    if i < 0 || i >= args.len() {
    } else if args[i] == "-qmp"@ || args[i] == "-qmp-pretty"@ {
        let p2 = if i + 1 < args.len() {
            match spec_unix_path(args[i + 1]) {
                Some(p) => paths.push(p),
                None => paths,
            }
        } else {
            paths
        };
        lemma_scan_keeps(args, i + 2, name, p2);
        assert forall|j: int| 0 <= j < paths.len() implies #[trigger] scan_args(args, i, name, paths).1[j] == paths[j] by {
            assert(p2[j] == paths[j]);
        }
    } else if args[i] == "-name"@ {
        let n2 = if i + 1 < args.len() {
            Some(vm_name(args[i + 1]))
        } else {
            name
        };
        lemma_scan_keeps(args, i + 2, n2, paths);
    } else {
        lemma_scan_keeps(args, i + 1, name, paths);
    }
}

/// A QEMU command line offers the socket of the first `-qmp` or
/// `-qmp-pretty` option: when the arguments before it are no options of
/// discovery, the `unix:` address right after it gives the first
/// candidate, whose path is that address's path.
pub proof fn law_first_qmp_socket_offered(
    pid: nat,
    raw: Seq<u8>,
    before: Seq<Seq<char>>,
    flag: Seq<char>,
    path: Seq<char>,
    opts: Seq<char>,
    after: Seq<Seq<char>>,
)
    requires
        flag == "-qmp"@ || flag == "-qmp-pretty"@,
        path.len() > 0,
        !path.contains(','),
        opts.len() == 0 || opts[0] == ',',
        cmdline_args(raw) == before + seq![flag, "unix:"@ + path + opts] + after,
        forall|x: int|
            0 <= x < before.len() ==> #[trigger] before[x] != "-qmp"@ && before[x]
                != "-qmp-pretty"@ && before[x] != "-name"@,
    ensures
        spec_socket_candidates(pid, raw).len() > 0,
        spec_socket_candidates(pid, raw)[0].path == path,
{
    let args = cmdline_args(raw);
    let k = before.len() as int;
    assert forall|x: int|
        0 <= x < k implies #[trigger] args[x] != "-qmp"@ && args[x] != "-qmp-pretty"@ && args[x]
            != "-name"@ by {
        assert(args[x] == before[x]);
    }
    lemma_scan_plain(args, 0, k, None, seq![]);
    assert(args[k] == flag);
    assert(args[k + 1] == "unix:"@ + path + opts);
    law_unix_address_path(path, opts);
    let p2 = seq![path];
    assert(seq![].push(path) =~= p2);
    assert(scan_args(args, k, None, seq![]) == scan_args(args, k + 2, None, p2));
    lemma_scan_keeps(args, k + 2, None, p2);
}

pub open spec fn socket_label(name: Option<Seq<char>>, pid: nat) -> Seq<char> {
    match name {
        Some(n) => n + " (pid "@ + dec(pid) + ")"@,
        None => "qemu (pid "@ + dec(pid) + ")"@,
    }
}

/// The QMP sockets that a QEMU command line names, each labelled with the
/// VM name and the process ID.
pub open spec fn spec_socket_candidates(pid: nat, raw: Seq<u8>) -> Seq<SocketView> {
    let (name, paths) = scan_args(cmdline_args(raw), 0, None, seq![]);
    paths.map_values(|p: Seq<char>| SocketView { path: p, label: socket_label(name, pid) })
}

fn split_nul_exec(raw: &[u8]) -> (r: Vec<Vec<u8>>)
    ensures
        r@.map_values(|p: Vec<u8>| p@) == split_nul(raw@),
{
    let mut parts: Vec<Vec<u8>> = Vec::new();
    let mut cur: Vec<u8> = Vec::new();
    let mut i: usize = 0;
    assert(raw@.take(0) =~= Seq::<u8>::empty());
    while i < raw.len()
        invariant
            i <= raw@.len(),
            parts@.map_values(|p: Vec<u8>| p@).push(cur@) == split_nul(raw@.take(i as int)),
        decreases raw@.len() - i,
    {
        let ghost pv = parts@.map_values(|p: Vec<u8>| p@);
        let ghost cv = cur@;
        proof {
            assert(raw@.take(i + 1).drop_last() =~= raw@.take(i as int));
            assert(raw@.take(i + 1).last() == raw@[i as int]);
        }
        if raw[i] == 0 {
            let done = cur;
            parts.push(done);
            cur = Vec::new();
            assert(parts@.map_values(|p: Vec<u8>| p@) =~= pv.push(cv));
            assert(parts@.map_values(|p: Vec<u8>| p@).push(cur@) =~= pv.push(cv).push(seq![]));
        } else {
            cur.push(raw[i]);
            assert(pv.push(cur@) =~= pv.push(cv).update(pv.len() as int, cv.push(raw@[i as int])));
        }
        i = i + 1;
    }
    assert(raw@.take(raw@.len() as int) =~= raw@);
    let ghost pv = parts@.map_values(|p: Vec<u8>| p@);
    let ghost cv = cur@;
    parts.push(cur);
    assert(parts@.map_values(|p: Vec<u8>| p@) =~= pv.push(cv));
    parts
}

fn cmdline_args_exec(raw: &[u8]) -> (r: Vec<String>)
    ensures
        r.deep_view() == cmdline_args(raw@),
{
    let parts = split_nul_exec(raw);
    let ghost pv = parts@.map_values(|p: Vec<u8>| p@);
    let mut out: Vec<String> = Vec::new();
    let mut i: usize = 0;
    assert(pv.take(0) =~= Seq::<Seq<u8>>::empty());
    while i < parts.len()
        invariant
            i <= parts@.len(),
            pv == parts@.map_values(|p: Vec<u8>| p@),
            out.deep_view() == text_pieces(pv.take(i as int)),
        decreases parts@.len() - i,
    {
        assert(pv.take(i + 1).drop_last() =~= pv.take(i as int));
        assert(pv.take(i + 1).last() == parts@[i as int]@);
        match crate::expr::utf8_text(parts[i].as_slice()) {
            Some(t) => {
                let tv = to_chars(t);
                if tv.len() > 0 {
                    let ghost before = out.deep_view();
                    out.push(String::from_str(t));
                    assert(out.deep_view() =~= before.push(t@));
                }
            },
            None => {},
        }
        i = i + 1;
    }
    assert(pv.take(parts@.len() as int) =~= pv);
    out
}

fn vm_name_exec(val: &String) -> (r: String)
    ensures
        r@ == vm_name(val@),
{
    let v = to_chars(val.as_str());
    let e = crate::text::find_char(&v, ',');
    let n = slice_of(&v, 0, e);
    assert(n@ =~= v@.take(e as int));
    proof {
        reveal_strlit("guest=");
    }
    if starts_with(&n, &to_chars("guest=")) {
        string_from(&tail(&n, 6))
    } else {
        string_from(&n)
    }
}

/// The QMP sockets that the command line `raw` of process `pid` names
/// (`-qmp unix:PATH` and `-qmp-pretty unix:PATH`), labelled with the VM
/// name of `-name`, or `qemu`, and the process ID.  The caller keeps
/// those whose path exists.
pub fn socket_candidates(pid: u32, raw: &[u8]) -> (r: Vec<QmpSocket>)
    ensures
        r.deep_view() == spec_socket_candidates(pid as nat, raw@),
{
    let args = cmdline_args_exec(raw);
    let ghost av = args.deep_view();
    let mut name: Option<String> = None;
    let mut paths: Vec<String> = Vec::new();
    let mut i: usize = 0;
    let qmp = to_chars("-qmp");
    let qmp_pretty = to_chars("-qmp-pretty");
    let name_flag = to_chars("-name");
    assert(paths.deep_view() =~= Seq::<Seq<char>>::empty());
    while i < args.len()
        invariant
            av == args.deep_view(),
            qmp@ == "-qmp"@,
            qmp_pretty@ == "-qmp-pretty"@,
            name_flag@ == "-name"@,
            scan_args(av, i as int, name.deep_view(), paths.deep_view()) == scan_args(
                av,
                0,
                None,
                seq![],
            ),
        decreases args@.len() + 2 - i,
    {
        let a = to_chars(args[i].as_str());
        assert(a@ == av[i as int]);
        let ghost n0 = name.deep_view();
        let ghost p0 = paths.deep_view();
        let ghost i0 = i as int;
        if crate::text::same(&a, &qmp) || crate::text::same(&a, &qmp_pretty) {
            if i + 1 < args.len() {
                assert(av[i + 1] == args@[i + 1]@);
                match extract_unix_path(args[i + 1].as_str()) {
                    Some(p) => {
                        let ghost before = paths.deep_view();
                        let ghost pv = p@;
                        paths.push(p);
                        assert(paths.deep_view() =~= before.push(pv));
                    },
                    None => {},
                }
            }
            if args.len() - i <= 2 {
                i = args.len();
            } else {
                i = i + 2;
            }
            assert(scan_args(av, i0, n0, p0) == scan_args(av, i0 + 2, name.deep_view(), paths.deep_view()));
            assert(scan_args(av, i0 + 2, name.deep_view(), paths.deep_view()) == scan_args(av, i as int, name.deep_view(), paths.deep_view()));
        } else if crate::text::same(&a, &name_flag) {
            if i + 1 < args.len() {
                assert(av[i + 1] == args@[i + 1]@);
                name = Some(vm_name_exec(&args[i + 1]));
            }
            if args.len() - i <= 2 {
                i = args.len();
            } else {
                i = i + 2;
            }
            assert(scan_args(av, i0, n0, p0) == scan_args(av, i0 + 2, name.deep_view(), paths.deep_view()));
            assert(scan_args(av, i0 + 2, name.deep_view(), paths.deep_view()) == scan_args(av, i as int, name.deep_view(), paths.deep_view()));
        } else {
            i = i + 1;
        }
    }
    let ghost lbl = socket_label(name.deep_view(), pid as nat);
    let mut label = match &name {
        Some(n) => n.clone(),
        None => String::from_str("qemu"),
    };
    let ghost l0 = label@;
    proof {
        reveal_strlit("qemu");
        reveal_strlit(" (pid ");
        reveal_strlit("qemu (pid ");
    }
    assert(l0 == match name.deep_view() {
        Some(n) => n,
        None => "qemu"@,
    });
    push_str(&mut label, " (pid ");
    push_dec(&mut label, pid as u64);
    push_str(&mut label, ")");
    assert(label@ =~= l0 + " (pid "@ + dec(pid as nat) + ")"@);
    assert(label@ =~= lbl);
    let ghost pd = paths.deep_view();
    let mut out: Vec<QmpSocket> = Vec::new();
    let mut k: usize = 0;
    while k < paths.len()
        invariant
            k <= paths@.len(),
            pd == paths.deep_view(),
            label@ == lbl,
            out.deep_view() == pd.take(k as int).map_values(
                |p: Seq<char>| SocketView { path: p, label: lbl },
            ),
        decreases paths@.len() - k,
    {
        let ghost before = out.deep_view();
        let sock = QmpSocket { path: paths[k].clone(), label: label.clone() };
        assert(pd[k as int] == paths@[k as int]@);
        assert(sock.deep_view() == SocketView { path: pd[k as int], label: lbl });
        out.push(sock);
        assert(out.deep_view() =~= before.push(SocketView { path: pd[k as int], label: lbl }));
        assert(pd.take(k + 1).map_values(|p: Seq<char>| SocketView { path: p, label: lbl })
            =~= pd.take(k as int).map_values(|p: Seq<char>| SocketView { path: p, label: lbl }).push(
            SocketView { path: pd[k as int], label: lbl },
        ));
        k = k + 1;
    }
    assert(pd.take(pd.len() as int) =~= pd);
    out
}

// ---------------------------------------------------------------------
// Ordering by label
// ---------------------------------------------------------------------

/// Where a stable insertion puts `x`: after the last socket whose label
/// does not sort after its own.
pub open spec fn insert_pos(s: Seq<SocketView>, x: SocketView) -> int
    decreases s.len(),
{
    if s.len() == 0 {
        0
    } else if !str_lt(x.label, s.last().label) {
        s.len() as int
    } else {
        insert_pos(s.drop_last(), x)
    }
}

/// The sockets sorted by label, equal labels in the order they came
/// (`sort_by` on the labels).
pub open spec fn sorted_by_label(s: Seq<SocketView>) -> Seq<SocketView>
    decreases s.len(),
{
    if s.len() == 0 {
        seq![]
    } else {
        let r = sorted_by_label(s.drop_last());
        r.insert(insert_pos(r, s.last()), s.last())
    }
}

pub proof fn lemma_insert_pos(s: Seq<SocketView>, x: SocketView)
    ensures
        0 <= insert_pos(s, x) <= s.len(),
    decreases s.len(),
{
    if s.len() > 0 {
        lemma_insert_pos(s.drop_last(), x);
    }
}

pub proof fn lemma_sorted_len(s: Seq<SocketView>)
    ensures
        sorted_by_label(s).len() == s.len(),
    decreases s.len(),
{
    if s.len() > 0 {
        lemma_sorted_len(s.drop_last());
        lemma_insert_pos(sorted_by_label(s.drop_last()), s.last());
    }
}

/// No label sorts before the one ahead of it.
pub open spec fn labels_sorted(s: Seq<SocketView>) -> bool {
    forall|i: int, j: int| 0 <= i < j < s.len() ==> !str_lt(#[trigger] s[j].label, #[trigger] s[i].label)
}

proof fn lemma_insert_pos_sorted(s: Seq<SocketView>, x: SocketView)
    requires
        labels_sorted(s),
    ensures
        forall|k: int| 0 <= k < insert_pos(s, x) ==> !str_lt(x.label, #[trigger] s[k].label),
        forall|k: int| insert_pos(s, x) <= k < s.len() ==> str_lt(x.label, #[trigger] s[k].label),
    decreases s.len(),
{
    lemma_insert_pos(s, x);
    if s.len() > 0 {
        let n = s.len() - 1;
        if !str_lt(x.label, s.last().label) {
            assert forall|k: int| 0 <= k < insert_pos(s, x) implies !str_lt(x.label, #[trigger] s[k].label) by {
                if k < n {
                    crate::hmp_completer::lemma_str_le_trans(s[k].label, s[n].label, x.label);
                }
            }
        } else {
            let d = s.drop_last();
            assert(labels_sorted(d)) by {
                assert forall|i: int, j: int| 0 <= i < j < d.len() implies !str_lt(#[trigger] d[j].label, #[trigger] d[i].label) by {
                    assert(d[i] == s[i] && d[j] == s[j]);
                }
            }
            lemma_insert_pos_sorted(d, x);
            lemma_insert_pos(d, x);
            assert forall|k: int| 0 <= k < insert_pos(s, x) implies !str_lt(x.label, #[trigger] s[k].label) by {
                assert(s[k] == d[k]);
            }
            assert forall|k: int| insert_pos(s, x) <= k < s.len() implies str_lt(x.label, #[trigger] s[k].label) by {
                if k < n {
                    assert(s[k] == d[k]);
                }
            }
        }
    }
}

/// Sorting by label keeps every socket and orders them: the result holds
/// the same sockets, and no label sorts before the one ahead of it.
pub proof fn law_sort_sockets(s: Seq<SocketView>)
    ensures
        sorted_by_label(s).to_multiset() == s.to_multiset(),
        labels_sorted(sorted_by_label(s)),
    decreases s.len(),
{
    if s.len() == 0 {
        assert(sorted_by_label(s) =~= s);
    } else {
        let d = s.drop_last();
        let x = s.last();
        law_sort_sockets(d);
        let r = sorted_by_label(d);
        lemma_insert_pos(r, x);
        lemma_insert_pos_sorted(r, x);
        let p = insert_pos(r, x);
        let t = r.insert(p, x);
        vstd::seq_lib::to_multiset_insert(r, p, x);
        vstd::seq_lib::to_multiset_build(d, x);
        assert(d.push(x) =~= s);
        assert forall|i: int, j: int| 0 <= i < j < t.len() implies !str_lt(#[trigger] t[j].label, #[trigger] t[i].label) by {
            if j < p {
                assert(t[i] == r[i] && t[j] == r[j]);
            } else if j == p {
                assert(t[i] == r[i]);
            } else if i < p {
                assert(t[i] == r[i] && t[j] == r[j - 1]);
                crate::hmp_completer::lemma_str_lt_asym(x.label, r[j - 1].label);
                crate::hmp_completer::lemma_str_le_trans(r[i].label, x.label, r[j - 1].label);
            } else if i == p {
                assert(t[j] == r[j - 1]);
                crate::hmp_completer::lemma_str_lt_asym(x.label, r[j - 1].label);
            } else {
                assert(t[i] == r[i - 1] && t[j] == r[j - 1]);
            }
        }
    }
}

/// Sorts sockets by label; sockets with equal labels keep their order.
pub fn sort_sockets(sockets: Vec<QmpSocket>) -> (r: Vec<QmpSocket>)
    ensures
        r.deep_view() == sorted_by_label(sockets.deep_view()),
{
    let ghost sv = sockets.deep_view();
    let mut rest = sockets;
    let mut out: Vec<QmpSocket> = Vec::new();
    let ghost n = sv.len();
    assert(sv.take(0) =~= Seq::<SocketView>::empty());
    assert(sv.skip(0) =~= sv);
    while rest.len() > 0
        invariant
            rest@.len() <= n,
            n == sv.len(),
            rest.deep_view() == sv.skip(n - rest@.len()),
            out.deep_view() == sorted_by_label(sv.take(n - rest@.len())),
        decreases rest@.len(),
    {
        let ghost i = n - rest@.len();
        let ghost r0 = rest@;
        let ghost rd0 = rest.deep_view();
        let x = rest.remove(0);
        proof {
            assert(rest@ =~= r0.remove(0));
            assert(x.deep_view() == rd0[0]);
            assert(rd0[0] == sv[i]);
            assert forall|k: int| 0 <= k < rest@.len() implies #[trigger] rest.deep_view()[k] == rd0[k + 1] by {
                assert(rest@[k] == r0[k + 1]);
            }
            assert(rest.deep_view() =~= sv.skip(i + 1));
            assert(sv.take(i + 1).drop_last() =~= sv.take(i));
            assert(sv.take(i + 1).last() == sv[i]);
        }
        let ghost od = out.deep_view();
        let xl = to_chars(x.label.as_str());
        let mut k = out.len();
        assert(od.take(k as int) =~= od);
        while k > 0 && chars_lt(&xl, &to_chars(out[k - 1].label.as_str()))
            invariant
                k <= od.len(),
                od == out.deep_view(),
                xl@ == x.label@,
                insert_pos(od, x.deep_view()) == insert_pos(od.take(k as int), x.deep_view()),
            decreases k,
        {
            assert(od.take(k as int).last() == od[k - 1]);
            assert(od[k - 1] == out@[k - 1].deep_view());
            assert(od.take(k as int).drop_last() =~= od.take(k - 1));
            k = k - 1;
        }
        proof {
            if k > 0 {
                assert(od.take(k as int).last() == od[k - 1]);
                assert(od[k - 1] == out@[k - 1].deep_view());
            }
            lemma_insert_pos(od.take(k as int), x.deep_view());
        }
        let ghost xd = x.deep_view();
        out.insert(k, x);
        proof {
            assert(out.deep_view() =~= od.insert(k as int, xd));
        }
    }
    assert(sv.take(n as int) =~= sv);
    out
}

// ---------------------------------------------------------------------
// The menu
// ---------------------------------------------------------------------

pub open spec fn menu_line(s: SocketView, selected: bool) -> Seq<char> {
    if selected {
        "\x1b[1;36m> "@ + s.label + " \x1b[0;36m"@ + s.path + "\x1b[0m\x1b[K\r\n"@
    } else {
        "  "@ + s.label + " "@ + s.path + "\x1b[K\r\n"@
    }
}

pub open spec fn menu_lines(s: Seq<SocketView>, selected: int, n: int) -> Seq<char>
    decreases n,
{
    if n <= 0 {
        seq![]
    } else {
        menu_lines(s, selected, n - 1) + menu_line(s[n - 1], n - 1 == selected)
    }
}

/// The socket menu: a title, then one line per socket with the selected
/// one highlighted.
pub open spec fn spec_menu_text(s: Seq<SocketView>, selected: int) -> Seq<char> {
    "Select a QMP socket:\r\n"@ + menu_lines(s, selected, s.len() as int)
}

/// The text of the socket menu.
pub fn draw_menu(sockets: &Vec<QmpSocket>, selected: usize) -> (r: String)
    ensures
        r@ == spec_menu_text(sockets.deep_view(), selected as int),
{
    let ghost sv = sockets.deep_view();
    let mut out = String::from_str("Select a QMP socket:\r\n");
    let mut i: usize = 0;
    while i < sockets.len()
        invariant
            i <= sockets@.len(),
            sv == sockets.deep_view(),
            out@ == "Select a QMP socket:\r\n"@ + menu_lines(sv, selected as int, i as int),
        decreases sockets@.len() - i,
    {
        let ghost before = out@;
        if i == selected {
            push_str(&mut out, "\x1b[1;36m> ");
            push_str(&mut out, sockets[i].label.as_str());
            push_str(&mut out, " \x1b[0;36m");
            push_str(&mut out, sockets[i].path.as_str());
            push_str(&mut out, "\x1b[0m\x1b[K\r\n");
        } else {
            push_str(&mut out, "  ");
            push_str(&mut out, sockets[i].label.as_str());
            push_str(&mut out, " ");
            push_str(&mut out, sockets[i].path.as_str());
            push_str(&mut out, "\x1b[K\r\n");
        }
        assert(sv[i as int] == sockets@[i as int].deep_view());
        assert(out@ =~= before + menu_line(sv[i as int], i == selected));
        i = i + 1;
    }
    out
}

/// A key pressed in the menu.
#[derive(Debug, Clone, Copy, PartialEq, Eq)]
pub enum MenuKey {
    Up,
    Down,
    Enter,
    Esc,
    CtrlC,
    Other,
}

/// What the menu does about a key.
#[derive(Debug, Clone, Copy, PartialEq, Eq)]
pub enum MenuAction {
    /// Select this entry and redraw.
    Move(usize),
    /// The user chose this entry.
    Choose(usize),
    /// The user cancelled.
    Cancel,
    /// Nothing to do.
    Ignore,
}

/// The menu's answer to a key with `selected` highlighted among `total`.
pub open spec fn spec_menu_step(selected: nat, total: nat, key: MenuKey) -> MenuAction {
    match key {
        MenuKey::Up => MenuAction::Move(if selected > 0 {
            (selected - 1) as usize
        } else {
            0
        }),
        MenuKey::Down => MenuAction::Move(if selected + 1 < total {
            (selected + 1) as usize
        } else {
            selected as usize
        }),
        MenuKey::Enter => MenuAction::Choose(selected as usize),
        MenuKey::Esc => MenuAction::Cancel,
        MenuKey::CtrlC => MenuAction::Cancel,
        MenuKey::Other => MenuAction::Ignore,
    }
}

pub fn menu_step(selected: usize, total: usize, key: MenuKey) -> (r: MenuAction)
    ensures
        r == spec_menu_step(selected as nat, total as nat, key),
{
    match key {
        MenuKey::Up => MenuAction::Move(if selected > 0 {
            selected - 1
        } else {
            0
        }),
        MenuKey::Down => MenuAction::Move(if selected < usize::MAX && selected + 1 < total {
            selected + 1
        } else {
            selected
        }),
        MenuKey::Enter => MenuAction::Choose(selected),
        MenuKey::Esc => MenuAction::Cancel,
        MenuKey::CtrlC => MenuAction::Cancel,
        MenuKey::Other => MenuAction::Ignore,
    }
}

/// The highlight never leaves the list: from an entry of a non-empty
/// list, every key moves to, or chooses, an entry of the list.
pub proof fn law_menu_stays_in_list(selected: nat, total: nat, key: MenuKey)
    requires
        selected < total <= usize::MAX,
    ensures
        match spec_menu_step(selected, total, key) {
            MenuAction::Move(j) => j < total,
            MenuAction::Choose(j) => j < total,
            _ => true,
        },
{
}

pub open spec fn repeat_text(t: Seq<char>, n: nat) -> Seq<char>
    decreases n,
{
    if n == 0 {
        seq![]
    } else {
        repeat_text(t, (n - 1) as nat) + t
    }
}

/// `t` written `n` times.
pub fn repeat(t: &str, n: usize) -> (r: String)
    ensures
        r@ == repeat_text(t@, n as nat),
{
    let mut out = String::new();
    let mut i: usize = 0;
    while i < n
        invariant
            i <= n,
            out@ == repeat_text(t@, i as nat),
        decreases n - i,
    {
        push_str(&mut out, t);
        i = i + 1;
    }
    out
}

} // verus!
