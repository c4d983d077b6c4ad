//! Human-readable output: byte sizes, reStructuredText help, QMP events
//! and JSON values.
use chrono::TimeZone;
use vstd::prelude::*;

use crate::text::{
    byte_len, char_len, char_utf8_len, count_lead_ws, count_trail_ws, is_ws, lead_ws,
    lemma_byte_len_concat, lemma_lead_ws, lemma_trail_ws, push_char, push_str, string_of,
    to_chars, trail_ws, trim, trim_start, find_from, lemma_find_from,
};

use crate::json::{
    compact, depth, get, lemma_items_depth, lemma_members_depth, quoted, Json,
};

verus! {

pub open spec fn digit_char(d: nat) -> char {
    ((d % 10) + 0x30) as char
}

/// The decimal digits of a natural number.
pub open spec fn dec(n: nat) -> Seq<char>
    decreases n,
{
    if n < 10 {
        seq![digit_char(n)]
    } else {
        dec(n / 10) + seq![digit_char(n % 10)]
    }
}

/// The decimal text of an integer, with a `-` when negative (`Display` of
/// the integer types).
pub open spec fn int_text(v: int) -> Seq<char> {
    if v < 0 {
        seq!['-'] + dec((-v) as nat)
    } else {
        dec(v as nat)
    }
}

fn digit(d: u64) -> (c: char)
    requires
        d < 10,
    ensures
        c == digit_char(d as nat),
{
    let b = (d as u8) + 0x30;
    b as char
}

/// Appends the decimal digits of `n`.
pub fn push_dec(s: &mut String, n: u64)
    ensures
        final(s)@ == old(s)@ + dec(n as nat),
    decreases n,
{
    if n >= 10 {
        push_dec(s, n / 10);
    }
    push_char(s, digit(n % 10));
    proof {
        if n >= 10 {
            assert(final(s)@ =~= old(s)@ + dec(n as nat));
        } else {
            assert(final(s)@ =~= old(s)@ + dec(n as nat));
        }
    }
}

/// Appends the decimal text of `v` (`Display` of `i64`).
pub fn push_int(s: &mut String, v: i64)
    ensures
        final(s)@ == old(s)@ + int_text(v as int),
{
    let m = unsigned_magnitude(v);
    if v < 0 {
        push_char(s, '-');
    }
    push_dec(s, m);
    assert(final(s)@ =~= old(s)@ + int_text(v as int));
}

/// The magnitude of an `i64` (`i64::unsigned_abs`).
pub open spec fn magnitude(b: i64) -> nat {
    if b < 0 {
        (-(b as int)) as nat
    } else {
        b as nat
    }
}

pub open spec fn size_divisor(abs: nat) -> nat {
    if abs >= 0x100_0000_0000 {
        0x100_0000_0000
    } else if abs >= 0x4000_0000 {
        0x4000_0000
    } else if abs >= 0x10_0000 {
        0x10_0000
    } else {
        0x400
    }
}

pub open spec fn size_unit(abs: nat) -> Seq<char> {
    if abs >= 0x100_0000_0000 {
        "TiB"@
    } else if abs >= 0x4000_0000 {
        "GiB"@
    } else if abs >= 0x10_0000 {
        "MiB"@
    } else {
        "KiB"@
    }
}

/// The size text of a magnitude of at least one KiB, without the sign:
/// the whole number of units for an exact multiple, otherwise the
/// quotient rounded half up to hundredths, with two decimal places.
pub open spec fn scaled_size(abs: nat) -> Seq<char> {
    let div = size_divisor(abs);
    let unit = size_unit(abs);
    let whole = abs / div;
    let rem = abs % div;
    if rem == 0 {
        dec(whole) + " "@ + unit
    } else {
        let c = whole * 100 + (rem * 100 + div / 2) / div;
        dec(c / 100) + "."@ + seq![digit_char((c % 100) / 10), digit_char((c % 100) % 10)] + " "@
            + unit
    }
}

/// A byte count with binary prefixes: below 1024 in bytes; exact
/// multiples of the unit without a fraction; otherwise the quotient
/// rounded half up to two decimal places.
pub open spec fn spec_format_size(bytes: i64) -> Seq<char> {
    let abs = magnitude(bytes);
    if abs < 0x400 {
        int_text(bytes as int) + " bytes"@
    } else if bytes < 0 {
        "-"@ + scaled_size(abs)
    } else {
        scaled_size(abs)
    }
}

fn unsigned_magnitude(bytes: i64) -> (abs: u64)
    ensures
        abs == magnitude(bytes),
{
    if bytes < 0 {
        ((-(bytes + 1)) as u64) + 1
    } else {
        bytes as u64
    }
}

#[verifier::rlimit(30)]
fn push_scaled(out: &mut String, abs: u64)
    requires
        abs >= 0x400,
    ensures
        final(out)@ == old(out)@ + scaled_size(abs as nat),
{
    let (divisor, unit): (u64, &str) = if abs >= 0x100_0000_0000 {
        (0x100_0000_0000, "TiB")
    } else if abs >= 0x4000_0000 {
        (0x4000_0000, "GiB")
    } else if abs >= 0x10_0000 {
        (0x10_0000, "MiB")
    } else {
        (0x400, "KiB")
    };
    assert(divisor == size_divisor(abs as nat) && unit@ == size_unit(abs as nat));
    let whole = abs / divisor;
    let remainder = abs % divisor;
    proof {
        reveal_strlit(" ");
        reveal_strlit(".");
    }
    if remainder == 0 {
        push_dec(out, whole);
        push_char(out, ' ');
        push_str(out, unit);
        assert(out@ =~= old(out)@ + scaled_size(abs as nat));
    } else {
        assert(remainder < divisor);
        assert(remainder * 100 <= 0x100_0000_0000 * 100) by (nonlinear_arith)
            requires
                remainder < divisor,
                divisor <= 0x100_0000_0000,
        ;
        let hundredths = (remainder * 100 + divisor / 2) / divisor;
        assert(hundredths <= 100) by (nonlinear_arith)
            requires
                hundredths as int == (remainder * 100 + divisor / 2) as int / divisor as int,
                remainder < divisor,
                divisor >= 0x400,
        ;
        let ghost c: int = whole * 100 + hundredths;
        assert(c == (abs as nat / size_divisor(abs as nat)) * 100 + ((abs as nat % size_divisor(
            abs as nat,
        )) * 100 + size_divisor(abs as nat) / 2) / size_divisor(abs as nat));
        if hundredths >= 100 {
            assert(c / 100 == whole + 1 && c % 100 == 0);
            assert(whole < u64::MAX) by (nonlinear_arith)
                requires
                    whole == abs / divisor,
                    divisor >= 0x400,
            ;
            push_dec(out, whole + 1);
            push_char(out, '.');
            push_char(out, digit(0));
            push_char(out, digit(0));
            push_char(out, ' ');
            push_str(out, unit);
            assert(out@ =~= old(out)@ + scaled_size(abs as nat));
        } else {
            assert(c / 100 == whole && c % 100 == hundredths);
            push_dec(out, whole);
            push_char(out, '.');
            push_char(out, digit(hundredths / 10));
            push_char(out, digit(hundredths % 10));
            push_char(out, ' ');
            push_str(out, unit);
            assert(out@ =~= old(out)@ + scaled_size(abs as nat));
        }
    }
}

/// Formats a byte count as a human-readable size using binary prefixes
/// (KiB, MiB, GiB, TiB), with integer arithmetic only.
pub fn format_size(bytes: i64) -> (r: String)
    ensures
        r@ == spec_format_size(bytes),
{
    let abs = unsigned_magnitude(bytes);
    let mut out = String::new();
    proof {
        reveal_strlit("-");
    }
    if abs < 0x400 {
        if bytes < 0 {
            push_char(&mut out, '-');
        }
        push_dec(&mut out, abs);
        push_str(&mut out, " bytes");
        assert(out@ =~= spec_format_size(bytes));
        return out;
    }
    if bytes < 0 {
        push_char(&mut out, '-');
    }
    push_scaled(&mut out, abs);
    assert(out@ =~= spec_format_size(bytes));
    out
}


proof fn lemma_dec_digits(n: nat)
    ensures
        forall|i: int| 0 <= i < dec(n).len() ==> '0' <= #[trigger] dec(n)[i] <= '9',
    decreases n,
{
    if n >= 10 {
        lemma_dec_digits(n / 10);
        let a = dec(n / 10);
        assert forall|i: int| 0 <= i < dec(n).len() implies '0' <= #[trigger] dec(n)[i] <= '9' by {
            if i < a.len() {
                assert(dec(n)[i] == a[i]);
            }
        }
    }
}

/// A byte count reads as documented: below one KiB in bytes; an exact
/// multiple of its unit with no fractional part, any other count with
/// one; a negative count as its magnitude behind a minus sign.
pub proof fn law_format_size(bytes: i64)
    ensures
        magnitude(bytes) < 1024 ==> spec_format_size(bytes) == int_text(bytes as int) + " bytes"@,
        magnitude(bytes) >= 1024 && magnitude(bytes) % size_divisor(magnitude(bytes)) == 0
            ==> !spec_format_size(bytes).contains('.'),
        magnitude(bytes) >= 1024 && magnitude(bytes) % size_divisor(magnitude(bytes)) != 0
            ==> spec_format_size(bytes).contains('.'),
        i64::MIN < bytes < 0 && magnitude(bytes) >= 1024 ==> spec_format_size(bytes) == "-"@
            + spec_format_size((-bytes) as i64),
{
    let abs = magnitude(bytes);
    if abs >= 1024 && abs % size_divisor(abs) != 0 {
        reveal_strlit("-");
        reveal_strlit(".");
        let div = size_divisor(abs);
        let c = (abs / div) * 100 + ((abs % div) * 100 + div / 2) / div;
        let t = scaled_size(abs);
        assert(t[dec(c / 100).len() as int] == '.');
        if bytes < 0 {
            let u = "-"@ + t;
            assert(u[dec(c / 100).len() as int + 1] == '.');
        }
    }
    if abs >= 1024 && abs % size_divisor(abs) == 0 {
        reveal_strlit("-");
        reveal_strlit(" ");
        reveal_strlit("TiB");
        reveal_strlit("GiB");
        reveal_strlit("MiB");
        reveal_strlit("KiB");
        let whole = abs / size_divisor(abs);
        lemma_dec_digits(whole);
        let t = dec(whole) + " "@ + size_unit(abs);
        assert(scaled_size(abs) == t);
        assert forall|i: int| 0 <= i < t.len() implies t[i] != '.' by {
            if i < dec(whole).len() {
                assert(t[i] == dec(whole)[i]);
            }
        }
        if bytes < 0 {
            let u = "-"@ + t;
            assert forall|i: int| 0 <= i < u.len() implies u[i] != '.' by {
                if i > 0 {
                    assert(u[i] == t[i - 1]);
                }
            }
        }
    }
}


// ---------------------------------------------------------------------
// reStructuredText to terminal text
// ---------------------------------------------------------------------

/// Whether a character is alphabetic or numeric in Unicode terms
/// (`char::is_alphanumeric`).
pub uninterp spec fn alphanumeric(c: char) -> bool;

/// `char::is_alphanumeric`: true for the characters with the Unicode
/// `Alphabetic` property or a numeric general category.
#[verifier::external_body]
fn is_alphanumeric(c: char) -> (r: bool)
    ensures
        r == alphanumeric(c),
{
    c.is_alphanumeric()
}

/// A line without the `\r` of a `\r\n` ending.
pub open spec fn strip_cr(l: Seq<char>) -> Seq<char> {
    if l.len() > 0 && l.last() == '\r' {
        l.drop_last()
    } else {
        l
    }
}

/// `str::lines` of `s[i..]`: lines end at `\n` or `\r\n`; a final line
/// ending adds no empty line.
pub open spec fn lines_from(s: Seq<char>, i: int) -> Seq<Seq<char>>
    decreases s.len() - i,
{
    if i < 0 || i >= s.len() {
        seq![]
    } else {
        let j = find_from(s, '\n', i);
        proof {
            lemma_find_from(s, '\n', i);
        }
        if j >= s.len() {
            seq![s.subrange(i, s.len() as int)]
        } else {
            seq![strip_cr(s.subrange(i, j))] + lines_from(s, j + 1)
        }
    }
}

/// The number of bytes of the leading whitespace of a line.
pub open spec fn indent(l: Seq<char>) -> nat {
    byte_len(l.take(lead_ws(l) as int))
}

pub open spec fn is_blank(l: Seq<char>) -> bool {
    lead_ws(l) == l.len()
}

/// The least indent of the non-blank lines among the first `n`.
pub open spec fn min_indent_upto(ls: Seq<Seq<char>>, n: int) -> Option<nat>
    decreases n,
{
    if n <= 0 {
        None
    } else {
        let prev = min_indent_upto(ls, n - 1);
        let l = ls[n - 1];
        if is_blank(l) {
            prev
        } else {
            match prev {
                None => Some(indent(l)),
                Some(m) => Some(if m <= indent(l) {
                    m
                } else {
                    indent(l)
                }),
            }
        }
    }
}

pub open spec fn min_indent(ls: Seq<Seq<char>>) -> nat {
    match min_indent_upto(ls, ls.len() as int) {
        Some(m) => m,
        None => 0,
    }
}

/// The number of characters of `l` whose encoding takes `m` bytes.
pub open spec fn cut_index(l: Seq<char>, m: nat) -> int {
    choose|k: int| 0 <= k <= l.len() && byte_len(l.take(k)) == m
}

/// Removing `m` bytes of indentation from a line (slicing `&l[m..]`), or
/// trimming a line shorter than that.
pub open spec fn dedent(l: Seq<char>, m: nat) -> Seq<char> {
    if byte_len(l) >= m {
        l.skip(cut_index(l, m))
    } else {
        trim(l)
    }
}

/// Slicing `&l[m..]` needs `m` to fall on a character boundary.
pub open spec fn dedent_ok(l: Seq<char>, m: nat) -> bool {
    byte_len(l) >= m ==> exists|k: int| 0 <= k <= l.len() && byte_len(l.take(k)) == m
}

/// The first `n` dedented lines joined by `\n`.
pub open spec fn joined_upto(ls: Seq<Seq<char>>, m: nat, n: int) -> Seq<char>
    decreases n,
{
    if n <= 0 {
        seq![]
    } else if n == 1 {
        dedent(ls[0], m)
    } else {
        joined_upto(ls, m, n - 1) + seq!['\n'] + dedent(ls[n - 1], m)
    }
}

/// The text with its common indentation removed, trimmed.
pub open spec fn dedented(s: Seq<char>) -> Seq<char> {
    let ls = lines_from(s, 0);
    trim(joined_upto(ls, min_indent(ls), ls.len() as int))
}

/// Whether the dedent of the help text slices lines at character
/// boundaries (slicing `&l[m..]` panics otherwise, so `rst_to_text`
/// requires it).
pub open spec fn rst_dedent_ok(s: Seq<char>) -> bool {
    let ls = lines_from(s, 0);
    forall|i: int| 0 <= i < ls.len() ==> dedent_ok(#[trigger] ls[i], min_indent(ls))
}

/// Backslash escapes of `s[i..]`: a backslash before a character that is
/// not alphanumeric is dropped, and so is an escaped space.
pub open spec fn escapes_from(s: Seq<char>, i: int) -> Seq<char>
    decreases s.len() - i,
{
    if i < 0 || i >= s.len() {
        seq![]
    } else if s[i] == '\\' && i + 1 < s.len() && !alphanumeric(s[i + 1]) {
        (if s[i + 1] == ' ' {
            seq![]
        } else {
            seq![s[i + 1]]
        }) + escapes_from(s, i + 2)
    } else {
        seq![s[i]] + escapes_from(s, i + 1)
    }
}

/// The first index `j >= i` where two backticks start, or `s.len()`.
pub open spec fn find_ticks(s: Seq<char>, i: int) -> int
    decreases s.len() - i,
{
    if i < 0 || i + 1 >= s.len() {
        s.len() as int
    } else if s[i] == '`' && s[i + 1] == '`' {
        i
    } else {
        find_ticks(s, i + 1)
    }
}

pub proof fn lemma_find_ticks(s: Seq<char>, i: int)
    requires
        0 <= i <= s.len(),
    ensures
        i <= find_ticks(s, i) <= s.len(),
        find_ticks(s, i) < s.len() ==> find_ticks(s, i) + 1 < s.len() && s[find_ticks(s, i)]
            == '`' && s[find_ticks(s, i) + 1] == '`',
    decreases s.len() - i,
{
    if i + 1 < s.len() && !(s[i] == '`' && s[i + 1] == '`') {
        lemma_find_ticks(s, i + 1);
    }
}

pub open spec fn wrap_part(part: Seq<char>, odd: bool, open: Seq<char>, close: Seq<char>) -> Seq<
    char,
> {
    if odd {
        open + part + close
    } else {
        part
    }
}

/// Splitting `s[i..]` at each double backtick, and wrapping every other
/// part (the second, fourth, ... counted from `s[0..]`) in `open`/`close`.
pub open spec fn ticks_from(s: Seq<char>, i: int, odd: bool, open: Seq<char>, close: Seq<char>) -> Seq<
    char,
>
    decreases s.len() - i,
{
    if i < 0 || i > s.len() {
        seq![]
    } else {
        let j = find_ticks(s, i);
        proof {
            lemma_find_ticks(s, i);
        }
        let w = wrap_part(s.subrange(i, j), odd, open, close);
        if j < s.len() {
            w + ticks_from(s, j + 2, !odd, open, close)
        } else {
            w
        }
    }
}

/// RST emphasis of `s[i..]`: `**` is kept, every other single `*` opens
/// and the next closes.
pub open spec fn emphasis_from(
    s: Seq<char>,
    i: int,
    in_emphasis: bool,
    open: Seq<char>,
    close: Seq<char>,
) -> Seq<char>
    decreases s.len() - i,
{
    if i < 0 || i >= s.len() {
        seq![]
    } else if s[i] == '*' {
        if i + 1 < s.len() && s[i + 1] == '*' {
            seq!['*', '*'] + emphasis_from(s, i + 2, in_emphasis, open, close)
        } else if in_emphasis {
            close + emphasis_from(s, i + 1, false, open, close)
        } else {
            open + emphasis_from(s, i + 1, true, open, close)
        }
    } else {
        seq![s[i]] + emphasis_from(s, i + 1, in_emphasis, open, close)
    }
}

pub open spec fn bold_code(styled: bool) -> Seq<char> {
    if styled {
        "\x1b[1m"@
    } else {
        ""@
    }
}

pub open spec fn underline_code(styled: bool) -> Seq<char> {
    if styled {
        "\x1b[4m"@
    } else {
        ""@
    }
}

pub open spec fn reset_code(styled: bool) -> Seq<char> {
    if styled {
        "\x1b[0m"@
    } else {
        ""@
    }
}

/// Help text as the terminal shows it.
pub open spec fn spec_rst_to_text(rst: Seq<char>, styled: bool) -> Seq<char> {
    let cleaned = escapes_from(dedented(rst), 0);
    let bolded = ticks_from(cleaned, 0, false, bold_code(styled), reset_code(styled));
    emphasis_from(bolded, 0, false, underline_code(styled), reset_code(styled))
}

/// Replaces RST emphasis markers (`*text*`) with the given codes; `**`
/// is kept as it is.
pub fn style_emphasis(s: &str, open: &str, close: &str) -> (r: String)
    ensures
        r@ == emphasis_from(s@, 0, false, open@, close@),
{
    let chars = to_chars(s);
    let len = chars.len();
    let mut out = String::new();
    let mut i: usize = 0;
    let mut in_emphasis = false;
    while i < len
        invariant
            len == chars@.len(),
            chars@ == s@,
            i <= len,
            out@ + emphasis_from(s@, i as int, in_emphasis, open@, close@) == emphasis_from(
                s@,
                0,
                false,
                open@,
                close@,
            ),
        decreases len - i,
    {
        let ghost before = out@;
        if chars[i] == '*' {
            if i + 1 < len && chars[i + 1] == '*' {
                push_char(&mut out, '*');
                push_char(&mut out, '*');
                i = i + 2;
                assert(out@ =~= before + seq!['*', '*']);
                continue;
            }
            if in_emphasis {
                push_str(&mut out, close);
                in_emphasis = false;
            } else {
                push_str(&mut out, open);
                in_emphasis = true;
            }
            i = i + 1;
        } else {
            push_char(&mut out, chars[i]);
            i = i + 1;
            assert(out@ =~= before + seq![chars@[i - 1]]);
        }
    }
    assert(emphasis_from(s@, i as int, in_emphasis, open@, close@) =~= seq![]);
    assert(out@ + seq![] =~= out@);
    out
}


pub open spec fn range_lines(s: Seq<char>, rs: Seq<(usize, usize)>) -> Seq<Seq<char>> {
    Seq::new(rs.len(), |k: int| s.subrange(rs[k].0 as int, rs[k].1 as int))
}

pub open spec fn ranges_ok(s: Seq<char>, rs: Seq<(usize, usize)>) -> bool {
    forall|k: int| 0 <= k < rs.len() ==> #[trigger] rs[k].0 <= rs[k].1 <= s.len()
}

/// The character ranges of the lines of `s` (`str::lines`).
pub(crate) fn line_ranges(s: &Vec<char>) -> (rs: Vec<(usize, usize)>)
    ensures
        ranges_ok(s@, rs@),
        range_lines(s@, rs@) == lines_from(s@, 0),
{
    let mut rs: Vec<(usize, usize)> = Vec::new();
    let mut i: usize = 0;
    while i < s.len()
        invariant
            i <= s@.len(),
            ranges_ok(s@, rs@),
            range_lines(s@, rs@) + lines_from(s@, i as int) == lines_from(s@, 0),
        decreases s@.len() - i,
    {
        proof {
            lemma_find_from(s@, '\n', i as int);
        }
        let mut j = i;
        while j < s.len() && s[j] != '\n'
            invariant
                i <= j <= s@.len(),
                find_from(s@, '\n', i as int) == find_from(s@, '\n', j as int),
            decreases s@.len() - j,
        {
            j = j + 1;
        }
        let ghost old_rs = rs@;
        if j >= s.len() {
            rs.push((i, s.len()));
            proof {
                assert(range_lines(s@, rs@) =~= range_lines(s@, old_rs) + seq![
                    s@.subrange(i as int, s@.len() as int),
                ]);
                assert(lines_from(s@, s@.len() as int) =~= seq![]);
            }
            i = s.len();
        } else {
            let end = if j > i && s[j - 1] == '\r' {
                j - 1
            } else {
                j
            };
            rs.push((i, end));
            proof {
                assert(s@.subrange(i as int, end as int) =~= strip_cr(s@.subrange(i as int, j as int)));
                assert(range_lines(s@, rs@) =~= range_lines(s@, old_rs) + seq![
                    strip_cr(s@.subrange(i as int, j as int)),
                ]);
                assert(range_lines(s@, rs@) + lines_from(s@, j + 1) =~= range_lines(s@, old_rs)
                    + lines_from(s@, i as int));
            }
            i = j + 1;
        }
    }
    assert(lines_from(s@, i as int) =~= seq![]);
    assert(range_lines(s@, rs@) + seq![] =~= range_lines(s@, rs@));
    rs
}

proof fn lemma_byte_len_sub(s: Seq<char>, a: int, b: int)
    requires
        0 <= a <= b <= s.len(),
    ensures
        byte_len(s.subrange(a, b)) <= byte_len(s),
        byte_len(s.take(b)) == byte_len(s.take(a)) + byte_len(s.subrange(a, b)),
{
    lemma_byte_len_concat(s.take(a), s.subrange(a, b));
    assert(s.take(a) + s.subrange(a, b) =~= s.take(b));
    lemma_byte_len_concat(s.take(b), s.skip(b));
    assert(s.take(b) + s.skip(b) =~= s);
}

pub proof fn lemma_byte_len_sub_pub(s: Seq<char>, a: int, b: int)
    requires
        0 <= a <= b <= s.len(),
    ensures
        byte_len(s.subrange(a, b)) <= byte_len(s),
{
    lemma_byte_len_sub(s, a, b);
}

/// The byte length of a prefix grows by the length of the next character.
pub proof fn lemma_byte_len_prefix_mono(s: Seq<char>, k: int)
    requires
        0 < k <= s.len(),
    ensures
        byte_len(s.take(k)) == byte_len(s.take(k - 1)) + char_len(s[k - 1]),
{
    assert(s.take(k).drop_last() =~= s.take(k - 1));
}

pub proof fn lemma_byte_len_strict(l: Seq<char>, k1: int, k2: int)
    requires
        0 <= k1 < k2 <= l.len(),
    ensures
        byte_len(l.take(k1)) < byte_len(l.take(k2)),
{
    lemma_byte_len_sub(l, k1, k2);
    crate::text::lemma_byte_len_bounds(l.subrange(k1, k2));
}

fn min_indent_of(s: &Vec<char>, rs: &Vec<(usize, usize)>) -> (m: usize)
    requires
        ranges_ok(s@, rs@),
        byte_len(s@) <= usize::MAX,
    ensures
        m == min_indent(range_lines(s@, rs@)),
{
    let ghost ls = range_lines(s@, rs@);
    let mut best: Option<usize> = None;
    let mut k: usize = 0;
    while k < rs.len()
        invariant
            k <= rs@.len(),
            ranges_ok(s@, rs@),
            byte_len(s@) <= usize::MAX,
            ls == range_lines(s@, rs@),
            match min_indent_upto(ls, k as int) {
                None => best is None,
                Some(v) => best == Some(v as usize) && v <= usize::MAX,
            },
        decreases rs@.len() - k,
    {
        let (a, b) = rs[k];
        assert(rs@[k as int].0 <= rs@[k as int].1 <= s@.len());
        let ghost l = s@.subrange(a as int, b as int);
        assert(ls[k as int] == l);
        let lead = count_lead_ws(s, a, b);
        proof {
            lemma_lead_ws(l);
        }
        if lead < b - a {
            proof {
                lemma_byte_len_sub(s@, a as int, a + lead);
                assert(l.take(lead as int) =~= s@.subrange(a as int, a + lead));
            }
            let ind = crate::text::utf8_len(s, a, a + lead);
            assert(ind == indent(l));
            assert(!is_blank(l));
            best = match best {
                None => Some(ind),
                Some(v) => Some(
                    if v <= ind {
                        v
                    } else {
                        ind
                    },
                ),
            };
        } else {
            assert(is_blank(l));
        }
        assert(min_indent_upto(ls, k + 1) == (if is_blank(ls[k as int]) {
            min_indent_upto(ls, k as int)
        } else {
            match min_indent_upto(ls, k as int) {
                None => Some(indent(ls[k as int])),
                Some(v) => Some(if v <= indent(ls[k as int]) {
                    v
                } else {
                    indent(ls[k as int])
                }),
            }
        }));
        k = k + 1;
    }
    match best {
        Some(v) => v,
        None => 0,
    }
}

/// Appends `dedent(s[a..b], m)`.
fn push_dedented(out: &mut Vec<char>, s: &Vec<char>, a: usize, b: usize, m: usize)
    requires
        a <= b <= s@.len(),
        byte_len(s@) <= usize::MAX,
        dedent_ok(s@.subrange(a as int, b as int), m as nat),
    ensures
        final(out)@ == old(out)@ + dedent(s@.subrange(a as int, b as int), m as nat),
{
    let ghost l = s@.subrange(a as int, b as int);
    proof {
        lemma_byte_len_sub(s@, a as int, b as int);
    }
    let bl = crate::text::utf8_len(s, a, b);
    if bl >= m {
        let mut k: usize = 0;
        let mut acc: usize = 0;
        assert(l.take(0) =~= Seq::<char>::empty());
        while acc < m
            invariant
                a <= b <= s@.len(),
                l == s@.subrange(a as int, b as int),
                bl == byte_len(l),
                bl >= m,
                bl <= usize::MAX,
                k <= b - a,
                acc == byte_len(l.take(k as int)),
                k > 0 ==> byte_len(l.take(k - 1)) < m,
            decreases b - a - k,
        {
            if k == b - a {
                assert(l.take(k as int) =~= l);
            }
            proof {
                lemma_byte_len_sub(l, k as int, k + 1);
                lemma_byte_len_sub(l, k + 1, l.len() as int);
                assert(l.take(l.len() as int) =~= l);
                assert(l.subrange(k as int, k + 1) =~= seq![l[k as int]]);
                assert(seq![l[k as int]].drop_last() =~= Seq::<char>::empty());
                assert(byte_len(Seq::<char>::empty()) == 0);
                assert(seq![l[k as int]].last() == l[k as int]);
                assert(byte_len(seq![l[k as int]]) == char_len(l[k as int]));
                assert(l[k as int] == s@[a + k]);
            }
            acc = acc + char_utf8_len(s[a + k]);
            k = k + 1;
        }
        proof {
            let w = choose|w: int| 0 <= w <= l.len() && byte_len(l.take(w)) == m;
            if w < k {
                if w < k - 1 {
                    lemma_byte_len_strict(l, w, k - 1);
                }
            } else if w > k {
                lemma_byte_len_strict(l, k as int, w);
            }
            assert(w == k);
            assert(cut_index(l, m as nat) == k);
        }
        let mut i = a + k;
        while i < b
            invariant
                a + k <= i <= b <= s@.len(),
                out@ == old(out)@ + s@.subrange(a + k, i as int),
            decreases b - i,
        {
            out.push(s[i]);
            i = i + 1;
            assert(out@ =~= old(out)@ + s@.subrange(a + k, i as int));
        }
        assert(l.skip(k as int) =~= s@.subrange(a + k, b as int));
    } else {
        let lead = count_lead_ws(s, a, b);
        proof {
            lemma_lead_ws(l);
            assert(s@.subrange(a + lead, b as int) =~= trim_start(l));
            lemma_trail_ws(trim_start(l));
        }
        let trail = count_trail_ws(s, a + lead, b);
        let mut i = a + lead;
        while i < b - trail
            invariant
                a + lead <= i <= b - trail,
                b <= s@.len(),
                out@ == old(out)@ + s@.subrange(a + lead, i as int),
            decreases b - trail - i,
        {
            out.push(s[i]);
            i = i + 1;
            assert(out@ =~= old(out)@ + s@.subrange(a + lead, i as int));
        }
        assert(trim(l) =~= s@.subrange(a + lead, b - trail));
    }
}

/// Appends `v[a..b]`.
fn extend_range(out: &mut Vec<char>, v: &Vec<char>, a: usize, b: usize)
    requires
        a <= b <= v@.len(),
    ensures
        final(out)@ == old(out)@ + v@.subrange(a as int, b as int),
{
    let mut i = a;
    while i < b
        invariant
            a <= i <= b <= v@.len(),
            out@ == old(out)@ + v@.subrange(a as int, i as int),
        decreases b - i,
    {
        out.push(v[i]);
        i = i + 1;
        assert(out@ =~= old(out)@ + v@.subrange(a as int, i as int));
    }
}

/// The dedented, trimmed text.
fn dedent_text(s: &Vec<char>) -> (r: Vec<char>)
    requires
        byte_len(s@) <= usize::MAX,
        rst_dedent_ok(s@),
    ensures
        r@ == dedented(s@),
{
    let rs = line_ranges(s);
    let ghost ls = range_lines(s@, rs@);
    let m = min_indent_of(s, &rs);
    let mut joined: Vec<char> = Vec::new();
    let mut k: usize = 0;
    while k < rs.len()
        invariant
            k <= rs@.len(),
            ranges_ok(s@, rs@),
            ls == range_lines(s@, rs@),
            ls == lines_from(s@, 0),
            m == min_indent(ls),
            byte_len(s@) <= usize::MAX,
            rst_dedent_ok(s@),
            joined@ == joined_upto(ls, m as nat, k as int),
        decreases rs@.len() - k,
    {
        if k > 0 {
            joined.push('\n');
        }
        let (a, b) = rs[k];
        assert(rs@[k as int].0 <= rs@[k as int].1 <= s@.len());
        assert(ls[k as int] == s@.subrange(a as int, b as int));
        assert(dedent_ok(ls[k as int], m as nat));
        push_dedented(&mut joined, s, a, b, m);
        k = k + 1;
        assert(joined@ =~= joined_upto(ls, m as nat, k as int));
    }
    let lead = count_lead_ws(&joined, 0, joined.len());
    proof {
        assert(joined@.subrange(0, joined@.len() as int) =~= joined@);
        lemma_lead_ws(joined@);
        assert(joined@.subrange(lead as int, joined@.len() as int) =~= trim_start(joined@));
        lemma_trail_ws(trim_start(joined@));
    }
    let trail = count_trail_ws(&joined, lead, joined.len());
    let mut r: Vec<char> = Vec::new();
    extend_range(&mut r, &joined, lead, joined.len() - trail);
    assert(r@ =~= trim(joined@));
    r
}

/// Resolves backslash escapes.
fn resolve_escapes(s: &Vec<char>) -> (r: Vec<char>)
    ensures
        r@ == escapes_from(s@, 0),
{
    let mut r: Vec<char> = Vec::new();
    let mut i: usize = 0;
    while i < s.len()
        invariant
            i <= s@.len(),
            r@ + escapes_from(s@, i as int) == escapes_from(s@, 0),
        decreases s@.len() - i,
    {
        let ghost before = r@;
        if s[i] == '\\' && i + 1 < s.len() && !is_alphanumeric(s[i + 1]) {
            if s[i + 1] != ' ' {
                r.push(s[i + 1]);
            }
            assert(r@ + escapes_from(s@, i + 2) =~= before + escapes_from(s@, i as int));
            i = i + 2;
        } else {
            r.push(s[i]);
            assert(r@ + escapes_from(s@, i + 1) =~= before + escapes_from(s@, i as int));
            i = i + 1;
        }
    }
    assert(r@ + seq![] =~= r@);
    r
}

fn push_wrapped(out: &mut Vec<char>, s: &Vec<char>, a: usize, b: usize, odd: bool, open: &Vec<char>, close: &Vec<char>)
    requires
        a <= b <= s@.len(),
    ensures
        final(out)@ == old(out)@ + wrap_part(s@.subrange(a as int, b as int), odd, open@, close@),
{
    if odd {
        extend_range(out, open, 0, open.len());
        extend_range(out, s, a, b);
        extend_range(out, close, 0, close.len());
        assert(open@.subrange(0, open@.len() as int) =~= open@);
        assert(close@.subrange(0, close@.len() as int) =~= close@);
        assert(final(out)@ =~= old(out)@ + wrap_part(s@.subrange(a as int, b as int), odd, open@, close@));
    } else {
        extend_range(out, s, a, b);
    }
}

/// Wraps the text between double backticks in `open`/`close`.
fn bold_spans(s: &Vec<char>, open: &Vec<char>, close: &Vec<char>) -> (r: Vec<char>)
    ensures
        r@ == ticks_from(s@, 0, false, open@, close@),
{
    let mut out: Vec<char> = Vec::new();
    let mut start: usize = 0;
    let mut j: usize = 0;
    let mut odd = false;
    proof {
        lemma_find_ticks(s@, 0);
    }
    loop
        invariant
            start <= j <= s@.len(),
            find_ticks(s@, start as int) == find_ticks(s@, j as int),
            out@ + ticks_from(s@, start as int, odd, open@, close@) == ticks_from(
                s@,
                0,
                false,
                open@,
                close@,
            ),
        decreases s@.len() - j,
    {
        if j < s.len() && j + 1 < s.len() && s[j] == '`' && s[j + 1] == '`' {
            let ghost before = out@;
            push_wrapped(&mut out, s, start, j, odd, open, close);
            proof {
                lemma_find_ticks(s@, j + 2);
            }
            assert(out@ + ticks_from(s@, j + 2, !odd, open@, close@) =~= before + ticks_from(
                s@,
                start as int,
                odd,
                open@,
                close@,
            ));
            start = j + 2;
            j = j + 2;
            odd = !odd;
        } else if j >= s.len() || j + 1 >= s.len() {
            let ghost before = out@;
            push_wrapped(&mut out, s, start, s.len(), odd, open, close);
            assert(find_ticks(s@, j as int) == s@.len());
            assert(out@ =~= before + ticks_from(s@, start as int, odd, open@, close@));
            return out;
        } else {
            j = j + 1;
        }
    }
}

/// Converts reStructuredText help to terminal text.
///
/// When `styled` is true, double backticks become bold and single
/// asterisks underlined; otherwise the markup is only stripped.  Common
/// leading indentation is removed and backslash escapes are resolved in
/// both modes.
pub fn rst_to_text(rst: &str, styled: bool) -> (r: String)
    requires
        byte_len(rst@) <= usize::MAX,
        rst_dedent_ok(rst@),
    ensures
        r@ == spec_rst_to_text(rst@, styled),
{
    let bold = if styled {
        "\x1b[1m"
    } else {
        ""
    };
    let underline = if styled {
        "\x1b[4m"
    } else {
        ""
    };
    let reset = if styled {
        "\x1b[0m"
    } else {
        ""
    };
    let chars = to_chars(rst);
    let dedented_chars = dedent_text(&chars);
    let cleaned = resolve_escapes(&dedented_chars);
    let bold_v = to_chars(bold);
    let reset_v = to_chars(reset);
    let bolded = bold_spans(&cleaned, &bold_v, &reset_v);
    let bolded_s = string_of(&bolded, 0, bolded.len());
    assert(bolded@.subrange(0, bolded@.len() as int) =~= bolded@);
    style_emphasis(bolded_s.as_str(), underline, reset)
}

/// `c` does not occur in `s`.
pub open spec fn lacks(s: Seq<char>, c: char) -> bool {
    forall|i: int| 0 <= i < s.len() ==> #[trigger] s[i] != c
}

proof fn lemma_lacks_sub(s: Seq<char>, c: char, a: int, b: int)
    requires
        lacks(s, c),
        0 <= a <= b <= s.len(),
    ensures
        lacks(s.subrange(a, b), c),
{
    assert forall|i: int| 0 <= i < b - a implies #[trigger] s.subrange(a, b)[i] != c by {
        assert(s.subrange(a, b)[i] == s[a + i]);
    }
}

proof fn lemma_lacks_concat(x: Seq<char>, y: Seq<char>, c: char)
    requires
        lacks(x, c),
        lacks(y, c),
    ensures
        lacks(x + y, c),
{
    assert forall|i: int| 0 <= i < (x + y).len() implies #[trigger] (x + y)[i] != c by {
        if i < x.len() {
            assert((x + y)[i] == x[i]);
        } else {
            assert((x + y)[i] == y[i - x.len()]);
        }
    }
}

proof fn lemma_lacks_trim(s: Seq<char>, c: char)
    requires
        lacks(s, c),
    ensures
        lacks(trim(s), c),
{
    lemma_lead_ws(s);
    let t = trim_start(s);
    lemma_lacks_sub(s, c, lead_ws(s) as int, s.len() as int);
    assert(t =~= s.subrange(lead_ws(s) as int, s.len() as int));
    lemma_trail_ws(t);
    lemma_lacks_sub(t, c, 0, t.len() - trail_ws(t));
    assert(trim(s) =~= t.subrange(0, t.len() - trail_ws(t)));
}

proof fn lemma_lines_lack(s: Seq<char>, i: int, c: char)
    requires
        lacks(s, c),
        0 <= i,
    ensures
        forall|k: int| 0 <= k < lines_from(s, i).len() ==> lacks(#[trigger] lines_from(s, i)[k], c),
    decreases s.len() - i,
{
    if i < s.len() {
        let j = find_from(s, '\n', i);
        lemma_find_from(s, '\n', i);
        if j >= s.len() {
            lemma_lacks_sub(s, c, i, s.len() as int);
        } else {
            lemma_lacks_sub(s, c, i, j);
            let l = s.subrange(i, j);
            lemma_lacks_sub(l, c, 0, l.len() - (if l.len() > 0 && l.last() == '\r' { 1int } else { 0int }));
            assert(l.subrange(0, l.len() as int) =~= l);
            assert(l.drop_last() =~= l.subrange(0, l.len() - 1)) by {
                if l.len() > 0 {
                    assert(l.drop_last() =~= l.subrange(0, l.len() - 1));
                }
            }
            lemma_lines_lack(s, j + 1, c);
            let rest = lines_from(s, j + 1);
            assert forall|k: int| 0 <= k < lines_from(s, i).len() implies lacks(#[trigger] lines_from(s, i)[k], c) by {
                if k > 0 {
                    assert(lines_from(s, i)[k] == rest[k - 1]);
                }
            }
        }
    }
}

proof fn lemma_dedent_lacks(l: Seq<char>, m: nat, c: char)
    requires
        lacks(l, c),
        dedent_ok(l, m),
    ensures
        lacks(dedent(l, m), c),
{
    if byte_len(l) >= m {
        let k = cut_index(l, m);
        lemma_lacks_sub(l, c, k, l.len() as int);
        assert(l.skip(k) =~= l.subrange(k, l.len() as int));
    } else {
        lemma_lacks_trim(l, c);
    }
}

proof fn lemma_joined_lacks(ls: Seq<Seq<char>>, m: nat, n: int, c: char)
    requires
        c != '\n',
        n <= ls.len(),
        forall|k: int| 0 <= k < ls.len() ==> lacks(#[trigger] ls[k], c) && dedent_ok(ls[k], m),
    ensures
        lacks(joined_upto(ls, m, n), c),
    decreases n,
{
    if n == 1 {
        lemma_dedent_lacks(ls[0], m, c);
    } else if n > 1 {
        lemma_joined_lacks(ls, m, n - 1, c);
        lemma_dedent_lacks(ls[n - 1], m, c);
        lemma_lacks_concat(joined_upto(ls, m, n - 1), seq!['\n'], c);
        lemma_lacks_concat(joined_upto(ls, m, n - 1) + seq!['\n'], dedent(ls[n - 1], m), c);
    }
}

proof fn lemma_escapes_lack(s: Seq<char>, i: int, c: char)
    requires
        lacks(s, c),
    ensures
        lacks(escapes_from(s, i), c),
    decreases s.len() - i,
{
    if 0 <= i < s.len() {
        if s[i] == '\\' && i + 1 < s.len() && !alphanumeric(s[i + 1]) {
            lemma_escapes_lack(s, i + 2, c);
            let head: Seq<char> = if s[i + 1] == ' ' {
                seq![]
            } else {
                seq![s[i + 1]]
            };
            lemma_lacks_concat(head, escapes_from(s, i + 2), c);
        } else {
            lemma_escapes_lack(s, i + 1, c);
            lemma_lacks_concat(seq![s[i]], escapes_from(s, i + 1), c);
        }
    }
}

proof fn lemma_ticks_lack(s: Seq<char>, i: int, odd: bool, open: Seq<char>, close: Seq<char>, c: char)
    requires
        lacks(s, c),
        lacks(open, c),
        lacks(close, c),
    ensures
        lacks(ticks_from(s, i, odd, open, close), c),
    decreases s.len() - i,
{
    if 0 <= i <= s.len() {
        let j = find_ticks(s, i);
        lemma_find_ticks(s, i);
        lemma_lacks_sub(s, c, i, j);
        let part = s.subrange(i, j);
        lemma_lacks_concat(open, part, c);
        lemma_lacks_concat(open + part, close, c);
        let w = wrap_part(part, odd, open, close);
        if j < s.len() {
            lemma_ticks_lack(s, j + 2, !odd, open, close, c);
            lemma_lacks_concat(w, ticks_from(s, j + 2, !odd, open, close), c);
        }
    }
}

proof fn lemma_emphasis_lack(s: Seq<char>, i: int, e: bool, open: Seq<char>, close: Seq<char>, c: char)
    requires
        lacks(s, c),
        lacks(open, c),
        lacks(close, c),
        c != '*',
    ensures
        lacks(emphasis_from(s, i, e, open, close), c),
    decreases s.len() - i,
{
    if 0 <= i < s.len() {
        lemma_emphasis_lack(s, i + 1, e, open, close, c);
        lemma_emphasis_lack(s, i + 1, !e, open, close, c);
        if i + 1 < s.len() {
            lemma_emphasis_lack(s, i + 2, e, open, close, c);
            lemma_lacks_concat(seq!['*', '*'], emphasis_from(s, i + 2, e, open, close), c);
        }
        lemma_lacks_concat(close, emphasis_from(s, i + 1, false, open, close), c);
        lemma_lacks_concat(open, emphasis_from(s, i + 1, true, open, close), c);
        lemma_lacks_concat(seq![s[i]], emphasis_from(s, i + 1, e, open, close), c);
    }
}

/// Unstyled help text is plain: when styling is off, no escape character
/// appears in the output unless the help text itself holds one.
pub proof fn law_unstyled_help_is_plain(rst: Seq<char>)
    requires
        rst_dedent_ok(rst),
        lacks(rst, '\x1b'),
    ensures
        lacks(spec_rst_to_text(rst, false), '\x1b'),
{
    let c = '\x1b';
    reveal_strlit("");
    let ls = lines_from(rst, 0);
    lemma_lines_lack(rst, 0, c);
    lemma_joined_lacks(ls, min_indent(ls), ls.len() as int, c);
    lemma_lacks_trim(joined_upto(ls, min_indent(ls), ls.len() as int), c);
    let cleaned = escapes_from(dedented(rst), 0);
    lemma_escapes_lack(dedented(rst), 0, c);
    assert(lacks(""@, c));
    lemma_ticks_lack(cleaned, 0, false, ""@, ""@, c);
    let bolded = ticks_from(cleaned, 0, false, ""@, ""@);
    lemma_emphasis_lack(bolded, 0, false, ""@, ""@, c);
}

/// An SGR code of the help text (`ESC [0m`, `ESC [1m` or `ESC [4m`)
/// starts at `s[i]`.
pub open spec fn is_code_at(s: Seq<char>, i: int) -> bool {
    &&& 0 <= i && i + 4 <= s.len()
    &&& s[i] == '\x1b' && s[i + 1] == '['
    &&& (s[i + 2] == '0' || s[i + 2] == '1' || s[i + 2] == '4')
    &&& s[i + 3] == 'm'
}

/// `s` with the reset, bold and underline codes taken out.
pub open spec fn strip_codes(s: Seq<char>) -> Seq<char>
    decreases s.len(),
{
    if s.len() == 0 {
        seq![]
    } else if is_code_at(s, 0) {
        strip_codes(s.skip(4))
    } else {
        seq![s[0]] + strip_codes(s.skip(1))
    }
}

/// Every escape character of `s` starts a code.
pub open spec fn codes_only(s: Seq<char>) -> bool {
    forall|k: int| 0 <= k < s.len() && #[trigger] s[k] == '\x1b' ==> is_code_at(s, k)
}

/// The help text after backslash escapes and bold spans, styled.
pub open spec fn styled_bold_text(rst: Seq<char>) -> Seq<char> {
    ticks_from(escapes_from(dedented(rst), 0), 0, false, bold_code(true), reset_code(true))
}

proof fn lemma_strip_plain(a: Seq<char>, b: Seq<char>)
    requires
        lacks(a, '\x1b'),
    ensures
        strip_codes(a + b) == a + strip_codes(b),
    decreases a.len(),
{
    if a.len() == 0 {
        assert(a + b =~= b);
        assert(a + strip_codes(b) =~= strip_codes(b));
    } else {
        assert((a + b)[0] == a[0]);
        assert((a + b).skip(1) =~= a.skip(1) + b);
        assert(lacks(a.skip(1), '\x1b')) by {
            assert forall|i: int| 0 <= i < a.skip(1).len() implies #[trigger] a.skip(1)[i] != '\x1b' by {
                assert(a.skip(1)[i] == a[i + 1]);
            }
        }
        lemma_strip_plain(a.skip(1), b);
        assert(seq![a[0]] + (a.skip(1) + strip_codes(b)) =~= a + strip_codes(b));
    }
}

proof fn lemma_strip_code(k: Seq<char>, b: Seq<char>)
    requires
        k.len() == 4,
        is_code_at(k, 0),
    ensures
        strip_codes(k + b) == strip_codes(b),
{
    assert(is_code_at(k + b, 0));
    assert((k + b).skip(4) =~= b);
}

proof fn lemma_codes_lits()
    ensures
        bold_code(true) == seq!['\x1b', '[', '1', 'm'],
        underline_code(true) == seq!['\x1b', '[', '4', 'm'],
        reset_code(true) == seq!['\x1b', '[', '0', 'm'],
        bold_code(false) == Seq::<char>::empty(),
        underline_code(false) == Seq::<char>::empty(),
        reset_code(false) == Seq::<char>::empty(),
{
    reveal_strlit("\x1b[1m");
    reveal_strlit("\x1b[4m");
    reveal_strlit("\x1b[0m");
    reveal_strlit("");
}

proof fn lemma_codes_only_concat(a: Seq<char>, b: Seq<char>)
    requires
        codes_only(a),
        codes_only(b),
    ensures
        codes_only(a + b),
{
    assert forall|k: int| 0 <= k < (a + b).len() && #[trigger] (a + b)[k] == '\x1b' implies is_code_at(a + b, k) by {
        if k < a.len() {
            assert((a + b)[k] == a[k]);
            assert(is_code_at(a, k));
            assert((a + b)[k + 1] == a[k + 1] && (a + b)[k + 2] == a[k + 2] && (a + b)[k + 3] == a[k + 3]);
        } else {
            assert((a + b)[k] == b[k - a.len()]);
            assert(is_code_at(b, k - a.len()));
            assert((a + b)[k + 1] == b[k - a.len() + 1] && (a + b)[k + 2] == b[k - a.len() + 2]
                && (a + b)[k + 3] == b[k - a.len() + 3]);
        }
    }
}

proof fn lemma_ticks_strip(c: Seq<char>, i: int, odd: bool)
    requires
        lacks(c, '\x1b'),
    ensures
        strip_codes(ticks_from(c, i, odd, bold_code(true), reset_code(true))) == ticks_from(
            c,
            i,
            odd,
            bold_code(false),
            reset_code(false),
        ),
        codes_only(ticks_from(c, i, odd, bold_code(true), reset_code(true))),
    decreases c.len() - i,
{
    lemma_codes_lits();
    let bo = bold_code(true);
    let re = reset_code(true);
    let e = Seq::<char>::empty();
    assert(codes_only(bo) && codes_only(re));
    if i < 0 || i > c.len() {
        assert(strip_codes(e) == e);
    } else {
        let j = find_ticks(c, i);
        lemma_find_ticks(c, i);
        lemma_lacks_sub(c, '\x1b', i, j);
        let part = c.subrange(i, j);
        assert(codes_only(part));
        let w = wrap_part(part, odd, bo, re);
        let w0 = wrap_part(part, odd, e, e);
        assert(w0 =~= part);
        let rest: Seq<char> = if j < c.len() {
            ticks_from(c, j + 2, !odd, bo, re)
        } else {
            e
        };
        let rest0: Seq<char> = if j < c.len() {
            ticks_from(c, j + 2, !odd, e, e)
        } else {
            e
        };
        if j < c.len() {
            lemma_ticks_strip(c, j + 2, !odd);
        } else {
            assert(strip_codes(e) == e);
            assert(codes_only(e));
        }
        assert(strip_codes(rest) == rest0);
        assert(codes_only(rest));
        assert(ticks_from(c, i, odd, bo, re) =~= w + rest);
        assert(ticks_from(c, i, odd, e, e) =~= w0 + rest0);
        if odd {
            assert(w + rest =~= bo + (part + (re + rest)));
            lemma_strip_code(bo, part + (re + rest));
            lemma_strip_plain(part, re + rest);
            lemma_strip_code(re, rest);
            lemma_codes_only_concat(re, rest);
            lemma_codes_only_concat(part, re + rest);
            lemma_codes_only_concat(bo, part + (re + rest));
        } else {
            lemma_strip_plain(part, rest);
            lemma_codes_only_concat(part, rest);
        }
    }
}

/// What the emphasis pass leaves of `y[i..]` once its codes are taken
/// out, `y` styled: a code ends a run of `*`s, and of each run the `*`s
/// that pair up stay (`odd`: one `*` of the current run is waiting for a
/// partner).
pub open spec fn stripped_emphasis(y: Seq<char>, i: int, odd: bool) -> Seq<char>
    decreases y.len() - i,
{
    if i < 0 || i >= y.len() {
        seq![]
    } else if is_code_at(y, i) {
        stripped_emphasis(y, i + 4, false)
    } else if y[i] == '*' {
        if odd {
            seq!['*', '*'] + stripped_emphasis(y, i + 1, false)
        } else {
            stripped_emphasis(y, i + 1, true)
        }
    } else {
        seq![y[i]] + stripped_emphasis(y, i + 1, false)
    }
}

/// The same, with the codes of `y` passed over as if they were not there:
/// the `*`s on both sides of a code belong to one run.
pub open spec fn emphasis_past_codes(y: Seq<char>, i: int, odd: bool) -> Seq<char>
    decreases y.len() - i,
{
    if i < 0 || i >= y.len() {
        seq![]
    } else if is_code_at(y, i) {
        emphasis_past_codes(y, i + 4, odd)
    } else if y[i] == '*' {
        if odd {
            seq!['*', '*'] + emphasis_past_codes(y, i + 1, false)
        } else {
            emphasis_past_codes(y, i + 1, true)
        }
    } else {
        seq![y[i]] + emphasis_past_codes(y, i + 1, false)
    }
}

/// What the emphasis pass leaves of plain text when its codes are empty:
/// the `*`s that pair up.
pub open spec fn paired_stars(s: Seq<char>, odd: bool) -> Seq<char>
    decreases s.len(),
{
    if s.len() == 0 {
        seq![]
    } else if s[0] == '*' {
        if odd {
            seq!['*', '*'] + paired_stars(s.skip(1), false)
        } else {
            paired_stars(s.skip(1), true)
        }
    } else {
        seq![s[0]] + paired_stars(s.skip(1), false)
    }
}

/// Of each run of `*`s in `y[i..]` that only codes break up, at most one
/// piece between codes has an odd length.  `seen`: an odd piece of the
/// current run has ended; `cur`: the current piece is odd so far.
pub open spec fn star_runs_pair_up(y: Seq<char>, i: int, seen: bool, cur: bool) -> bool
    decreases y.len() - i,
{
    if i < 0 || i >= y.len() {
        !(seen && cur)
    } else if is_code_at(y, i) {
        !(seen && cur) && star_runs_pair_up(y, i + 4, seen || cur, false)
    } else if y[i] == '*' {
        star_runs_pair_up(y, i + 1, seen, !cur)
    } else {
        !(seen && cur) && star_runs_pair_up(y, i + 1, false, false)
    }
}

proof fn lemma_stripped_emphasis(y: Seq<char>, i: int, e: bool)
    requires
        codes_only(y),
        0 <= i <= y.len(),
    ensures
        strip_codes(emphasis_from(y, i, e, underline_code(true), reset_code(true)))
            == stripped_emphasis(y, i, false),
    decreases y.len() - i,
{
    lemma_codes_lits();
    let u = underline_code(true);
    let r = reset_code(true);
    let z = Seq::<char>::empty();
    if i == y.len() {
        assert(strip_codes(z) == z);
    } else if is_code_at(y, i) {
        lemma_stripped_emphasis(y, i + 4, e);
        assert(emphasis_from(y, i + 3, e, u, r) == seq![y[i + 3]] + emphasis_from(y, i + 4, e, u, r));
        assert(emphasis_from(y, i + 2, e, u, r) == seq![y[i + 2]] + emphasis_from(y, i + 3, e, u, r));
        assert(emphasis_from(y, i + 1, e, u, r) == seq![y[i + 1]] + emphasis_from(y, i + 2, e, u, r));
        let k = y.subrange(i, i + 4);
        assert(emphasis_from(y, i, e, u, r) =~= k + emphasis_from(y, i + 4, e, u, r));
        lemma_strip_code(k, emphasis_from(y, i + 4, e, u, r));
    } else if y[i] == '*' && i + 1 < y.len() && y[i + 1] == '*' {
        lemma_stripped_emphasis(y, i + 2, e);
        assert(!is_code_at(y, i + 1));
        assert(stripped_emphasis(y, i + 1, true) == seq!['*', '*'] + stripped_emphasis(y, i + 2, false));
        assert(stripped_emphasis(y, i, false) == stripped_emphasis(y, i + 1, true));
        assert(lacks(seq!['*', '*'], '\x1b'));
        lemma_strip_plain(seq!['*', '*'], emphasis_from(y, i + 2, e, u, r));
    } else if y[i] == '*' {
        lemma_stripped_emphasis(y, i + 1, !e);
        let m: Seq<char> = if e { r } else { u };
        assert(emphasis_from(y, i, e, u, r) == m + emphasis_from(y, i + 1, !e, u, r));
        lemma_strip_code(m, emphasis_from(y, i + 1, !e, u, r));
        assert(stripped_emphasis(y, i + 1, true) == stripped_emphasis(y, i + 1, false));
        assert(stripped_emphasis(y, i, false) == stripped_emphasis(y, i + 1, true));
    } else {
        assert(y[i] != '\x1b');
        lemma_stripped_emphasis(y, i + 1, e);
        assert(lacks(seq![y[i]], '\x1b'));
        lemma_strip_plain(seq![y[i]], emphasis_from(y, i + 1, e, u, r));
        assert(emphasis_from(y, i, e, u, r) == seq![y[i]] + emphasis_from(y, i + 1, e, u, r));
    }
}

proof fn lemma_paired_stars(s: Seq<char>, k: int, e: bool)
    requires
        0 <= k <= s.len(),
    ensures
        emphasis_from(s, k, e, Seq::<char>::empty(), Seq::<char>::empty()) == paired_stars(
            s.skip(k),
            false,
        ),
    decreases s.len() - k,
{
    let z = Seq::<char>::empty();
    let t = s.skip(k);
    if k < s.len() {
        assert(t[0] == s[k]);
        assert(t.skip(1) =~= s.skip(k + 1));
        if s[k] == '*' && k + 1 < s.len() && s[k + 1] == '*' {
            lemma_paired_stars(s, k + 2, e);
            let t1 = s.skip(k + 1);
            assert(t1[0] == '*');
            assert(t1.skip(1) =~= s.skip(k + 2));
            assert(paired_stars(t1, true) == seq!['*', '*'] + paired_stars(s.skip(k + 2), false));
            assert(paired_stars(t, false) == paired_stars(t1, true));
            assert(emphasis_from(s, k, e, z, z) == seq!['*', '*'] + emphasis_from(s, k + 2, e, z, z));
        } else if s[k] == '*' {
            lemma_paired_stars(s, k + 1, !e);
            let t1 = s.skip(k + 1);
            if k + 1 < s.len() {
                assert(t1[0] == s[k + 1]);
                assert(t1.skip(1) =~= s.skip(k + 2));
            } else {
                assert(t1 =~= z);
            }
            assert(paired_stars(t1, true) == paired_stars(t1, false));
            assert(paired_stars(t, false) == paired_stars(t1, true));
            assert(z + emphasis_from(s, k + 1, !e, z, z) =~= emphasis_from(s, k + 1, !e, z, z));
            assert(emphasis_from(s, k, e, z, z) == z + emphasis_from(s, k + 1, !e, z, z));
        } else {
            lemma_paired_stars(s, k + 1, e);
            assert(paired_stars(t, false) == seq![s[k]] + paired_stars(t.skip(1), false));
        }
    } else {
        assert(t =~= z);
    }
}

proof fn lemma_emphasis_past_codes(y: Seq<char>, i: int, odd: bool)
    requires
        0 <= i <= y.len(),
    ensures
        paired_stars(strip_codes(y.skip(i)), odd) == emphasis_past_codes(y, i, odd),
    decreases y.len() - i,
{
    let t = y.skip(i);
    if i == y.len() {
        assert(t =~= Seq::<char>::empty());
    } else if is_code_at(y, i) {
        lemma_emphasis_past_codes(y, i + 4, odd);
        assert(is_code_at(t, 0));
        assert(t.skip(4) =~= y.skip(i + 4));
    } else {
        lemma_emphasis_past_codes(y, i + 1, false);
        lemma_emphasis_past_codes(y, i + 1, true);
        assert(t[0] == y[i]);
        assert(!is_code_at(t, 0));
        assert(t.skip(1) =~= y.skip(i + 1));
        let w = strip_codes(t);
        assert(w == seq![y[i]] + strip_codes(y.skip(i + 1)));
        assert(w[0] == y[i]);
        assert(w.skip(1) =~= strip_codes(y.skip(i + 1)));
    }
}

proof fn lemma_runs_pair_up(y: Seq<char>, i: int, seen: bool, cur: bool)
    requires
        0 <= i <= y.len(),
        star_runs_pair_up(y, i, seen, cur),
    ensures
        seen && cur ==> stripped_emphasis(y, i, true) == seq!['*', '*'] + emphasis_past_codes(
            y,
            i,
            false,
        ),
        !(seen && cur) ==> stripped_emphasis(y, i, cur) == emphasis_past_codes(y, i, seen != cur),
    decreases y.len() - i,
{
    if i == y.len() {
    } else if is_code_at(y, i) {
        lemma_runs_pair_up(y, i + 4, seen || cur, false);
    } else if y[i] == '*' {
        lemma_runs_pair_up(y, i + 1, seen, !cur);
    } else {
        lemma_runs_pair_up(y, i + 1, false, false);
    }
}

/// Styling only adds codes: with the bold, underline and reset codes
/// taken out, styled help is the unstyled help.  This holds for help
/// text without escape characters exactly when, in the text after its
/// bold spans are styled, each run of `*`s that only codes break up has
/// at most one piece of odd length between codes.  Styled, the `*`s pair
/// up within each piece; unstyled, across the whole run: so `*`, two
/// backticks, `**` and two backticks gives `**` both ways, while `*`, two
/// backticks, `*` and two backticks gives nothing styled and `**`
/// unstyled.
pub proof fn law_styled_help_strips_to_plain(rst: Seq<char>)
    requires
        rst_dedent_ok(rst),
        lacks(rst, '\x1b'),
        star_runs_pair_up(styled_bold_text(rst), 0, false, false),
    ensures
        strip_codes(spec_rst_to_text(rst, true)) == spec_rst_to_text(rst, false),
{
    let c = '\x1b';
    let ls = lines_from(rst, 0);
    lemma_lines_lack(rst, 0, c);
    lemma_joined_lacks(ls, min_indent(ls), ls.len() as int, c);
    lemma_lacks_trim(joined_upto(ls, min_indent(ls), ls.len() as int), c);
    let cleaned = escapes_from(dedented(rst), 0);
    lemma_escapes_lack(dedented(rst), 0, c);
    lemma_ticks_strip(cleaned, 0, false);
    lemma_codes_lits();
    let y = styled_bold_text(rst);
    let plain = ticks_from(cleaned, 0, false, bold_code(false), reset_code(false));
    lemma_stripped_emphasis(y, 0, false);
    lemma_runs_pair_up(y, 0, false, false);
    lemma_emphasis_past_codes(y, 0, false);
    assert(y.skip(0) =~= y);
    lemma_paired_stars(plain, 0, false);
    assert(plain.skip(0) =~= plain);
}

// ---------------------------------------------------------------------
// JSON for people
// ---------------------------------------------------------------------

/// The colours of the JSON printer.
#[derive(Debug, Clone, Copy, PartialEq, Eq)]
pub enum Paint {
    DarkGray,
    Yellow,
    Cyan,
    Green,
    BoldBlue,
}

/// The SGR codes of a colour.
pub open spec fn paint_code(p: Paint) -> Seq<char> {
    match p {
        Paint::DarkGray => "90"@,
        Paint::Yellow => "33"@,
        Paint::Cyan => "36"@,
        Paint::Green => "32"@,
        Paint::BoldBlue => "1;34"@,
    }
}

/// Text wrapped in the escape sequences of a colour.
pub open spec fn painted(p: Paint, text: Seq<char>) -> Seq<char> {
    "\x1b["@ + paint_code(p) + "m"@ + text + "\x1b[0m"@
}

/// Paints text with `nu_ansi_term` (`Color::paint`, and
/// `Color::Blue.bold().paint` for bold blue) and writes it out with
/// `Display`: the style's prefix `ESC [ codes m`, the text, and the reset
/// suffix `ESC [0m`.
#[verifier::external_body]
fn paint(p: Paint, text: &str) -> (r: String)
    ensures
        r@ == painted(p, text@),
{
    match p {
        Paint::DarkGray => nu_ansi_term::Color::DarkGray.paint(text).to_string(),
        Paint::Yellow => nu_ansi_term::Color::Yellow.paint(text).to_string(),
        Paint::Cyan => nu_ansi_term::Color::Cyan.paint(text).to_string(),
        Paint::Green => nu_ansi_term::Color::Green.paint(text).to_string(),
        Paint::BoldBlue => nu_ansi_term::Color::Blue.bold().paint(text).to_string(),
    }
}

pub open spec fn spaces(n: nat) -> Seq<char> {
    Seq::new(n, |i: int| ' ')
}

fn push_spaces(out: &mut String, n: usize)
    ensures
        final(out)@ == old(out)@ + spaces(n as nat),
{
    let mut i: usize = 0;
    while i < n
        invariant
            i <= n,
            out@ == old(out)@ + spaces(i as nat),
        decreases n - i,
    {
        push_char(out, ' ');
        i = i + 1;
        assert(out@ =~= old(out)@ + spaces(i as nat));
    }
}

pub open spec fn bool_text(b: bool) -> Seq<char> {
    if b {
        "true"@
    } else {
        "false"@
    }
}

/// A JSON value coloured and indented for the terminal, with its nested
/// lines indented by `indent` spaces.
pub open spec fn colored(j: Json, indent: nat) -> Seq<char>
    decreases j, 0nat,
{
    match j {
        Json::Null => painted(Paint::DarkGray, "null"@),
        Json::Bool(b) => painted(Paint::Yellow, bool_text(b)),
        Json::Number(n) => painted(Paint::Cyan, n@),
        Json::Str(s) => painted(Paint::Green, seq!['"'] + s@ + seq!['"']),
        Json::Array(v) => if v@.len() == 0 {
            "[]"@
        } else {
            "[\n"@ + colored_items(v@, 0, indent) + spaces(indent) + "]"@
        },
        Json::Object(m) => if m@.len() == 0 {
            "{}"@
        } else {
            "{\n"@ + colored_members(m@, 0, indent) + spaces(indent) + "}"@
        },
    }
}

pub open spec fn line_end(i: int, n: int) -> Seq<char> {
    if i + 1 < n {
        ",\n"@
    } else {
        "\n"@
    }
}

pub open spec fn colored_items(items: Seq<Json>, i: int, indent: nat) -> Seq<char>
    decreases items, items.len() - i,
{
    if i < 0 || i >= items.len() {
        seq![]
    } else {
        spaces(indent + 2) + colored(items[i], indent + 2) + line_end(i, items.len() as int)
            + colored_items(items, i + 1, indent)
    }
}

pub open spec fn colored_members(m: Seq<(String, Json)>, i: int, indent: nat) -> Seq<char>
    decreases m, m.len() - i,
{
    if i < 0 || i >= m.len() {
        seq![]
    } else {
        spaces(indent + 2) + painted(Paint::BoldBlue, seq!['"'] + m[i].0@ + seq!['"']) + ": "@
            + colored(m[i].1, indent + 2) + line_end(i, m.len() as int) + colored_members(
            m,
            i + 1,
            indent,
        )
    }
}

fn push_colored(out: &mut String, j: &Json, indent: usize)
    requires
        indent + 2 * depth(*j) <= usize::MAX,
    ensures
        final(out)@ == old(out)@ + colored(*j, indent as nat),
    decreases j, 0nat,
{
    match j {
        Json::Null => {
            let t = paint(Paint::DarkGray, "null");
            push_str(out, t.as_str());
        },
        Json::Bool(b) => {
            let t = if *b {
                paint(Paint::Yellow, "true")
            } else {
                paint(Paint::Yellow, "false")
            };
            push_str(out, t.as_str());
        },
        Json::Number(n) => {
            let t = paint(Paint::Cyan, n.as_str());
            push_str(out, t.as_str());
        },
        Json::Str(s) => {
            let mut q = String::new();
            push_char(&mut q, '"');
            push_str(&mut q, s.as_str());
            push_char(&mut q, '"');
            let t = paint(Paint::Green, q.as_str());
            push_str(out, t.as_str());
            assert(q@ =~= seq!['"'] + s@ + seq!['"']);
        },
        Json::Array(v) => {
            if v.len() == 0 {
                push_str(out, "[]");
                return;
            }
            push_str(out, "[\n");
            proof {
                assert forall|k: int| 0 <= k < v@.len() implies indent + 2 + 2 * depth(
                    #[trigger] v@[k],
                ) <= usize::MAX by {
                    lemma_items_depth(v@, 0, k);
                }
            }
            push_colored_items(out, v, 0, indent);
            push_spaces(out, indent);
            push_str(out, "]");
            assert(out@ =~= old(out)@ + colored(*j, indent as nat));
        },
        Json::Object(m) => {
            if m.len() == 0 {
                push_str(out, "{}");
                return;
            }
            push_str(out, "{\n");
            proof {
                assert forall|k: int| 0 <= k < m@.len() implies indent + 2 + 2 * depth(
                    #[trigger] m@[k].1,
                ) <= usize::MAX by {
                    lemma_members_depth(m@, 0, k);
                }
            }
            push_colored_members(out, m, 0, indent);
            push_spaces(out, indent);
            push_str(out, "}");
            assert(out@ =~= old(out)@ + colored(*j, indent as nat));
        },
    }
}

fn push_line_end(out: &mut String, i: usize, n: usize)
    requires
        i < n,
    ensures
        final(out)@ == old(out)@ + line_end(i as int, n as int),
{
    if i + 1 < n {
        push_str(out, ",\n");
    } else {
        push_str(out, "\n");
    }
}

fn push_colored_items(out: &mut String, v: &Vec<Json>, i: usize, indent: usize)
    requires
        i <= v@.len(),
        forall|k: int| 0 <= k < v@.len() ==> indent + 2 + 2 * depth(#[trigger] v@[k]) <= usize::MAX,
    ensures
        final(out)@ == old(out)@ + colored_items(v@, i as int, indent as nat),
    decreases v@, v@.len() - i,
{
    if i >= v.len() {
        assert(old(out)@ + Seq::<char>::empty() =~= old(out)@);
        return;
    }
    assert(indent + 2 + 2 * depth(v@[i as int]) <= usize::MAX);
    push_spaces(out, indent + 2);
    push_colored(out, &v[i], indent + 2);
    push_line_end(out, i, v.len());
    push_colored_items(out, v, i + 1, indent);
    assert(out@ =~= old(out)@ + colored_items(v@, i as int, indent as nat));
}

fn push_colored_members(out: &mut String, m: &Vec<(String, Json)>, i: usize, indent: usize)
    requires
        i <= m@.len(),
        forall|k: int| 0 <= k < m@.len() ==> indent + 2 + 2 * depth(#[trigger] m@[k].1) <= usize::MAX,
    ensures
        final(out)@ == old(out)@ + colored_members(m@, i as int, indent as nat),
    decreases m@, m@.len() - i,
{
    if i >= m.len() {
        assert(old(out)@ + Seq::<char>::empty() =~= old(out)@);
        return;
    }
    assert(indent + 2 + 2 * depth(m@[i as int].1) <= usize::MAX);
    push_spaces(out, indent + 2);
    let mut q = String::new();
    push_char(&mut q, '"');
    push_str(&mut q, m[i].0.as_str());
    push_char(&mut q, '"');
    let t = paint(Paint::BoldBlue, q.as_str());
    push_str(out, t.as_str());
    push_str(out, ": ");
    push_colored(out, &m[i].1, indent + 2);
    push_line_end(out, i, m.len());
    push_colored_members(out, m, i + 1, indent);
    assert(q@ =~= seq!['"'] + m@[i as int].0@ + seq!['"']);
    assert(out@ =~= old(out)@ + colored_members(m@, i as int, indent as nat));
}

/// Colours a JSON value for the terminal: objects and arrays indented
/// by two spaces per level, keys bold blue, strings green, numbers cyan,
/// booleans yellow and `null` dark grey.
pub fn json_colored(value: &Json) -> (r: String)
    requires
        2 * depth(*value) <= usize::MAX,
    ensures
        r@ == colored(*value, 0),
{
    let mut buf = String::new();
    push_colored(&mut buf, value, 0);
    assert(buf@ =~= colored(*value, 0));
    buf
}

/// The pretty-printed JSON text of a value, nested lines indented by
/// `indent` spaces (serde_json's `to_string_pretty`).
pub open spec fn pretty(j: Json, indent: nat) -> Seq<char>
    decreases j, 0nat,
{
    match j {
        Json::Array(v) => if v@.len() == 0 {
            "[]"@
        } else {
            "[\n"@ + pretty_items(v@, 0, indent) + spaces(indent) + "]"@
        },
        Json::Object(m) => if m@.len() == 0 {
            "{}"@
        } else {
            "{\n"@ + pretty_members(m@, 0, indent) + spaces(indent) + "}"@
        },
        _ => compact(j),
    }
}

pub open spec fn pretty_items(items: Seq<Json>, i: int, indent: nat) -> Seq<char>
    decreases items, items.len() - i,
{
    if i < 0 || i >= items.len() {
        seq![]
    } else {
        spaces(indent + 2) + pretty(items[i], indent + 2) + line_end(i, items.len() as int)
            + pretty_items(items, i + 1, indent)
    }
}

pub open spec fn pretty_members(m: Seq<(String, Json)>, i: int, indent: nat) -> Seq<char>
    decreases m, m.len() - i,
{
    if i < 0 || i >= m.len() {
        seq![]
    } else {
        spaces(indent + 2) + quoted(m[i].0@) + ": "@ + pretty(m[i].1, indent + 2) + line_end(
            i,
            m.len() as int,
        ) + pretty_members(m, i + 1, indent)
    }
}

fn push_pretty(out: &mut String, j: &Json, indent: usize)
    requires
        indent + 2 * depth(*j) <= usize::MAX,
    ensures
        final(out)@ == old(out)@ + pretty(*j, indent as nat),
    decreases j, 0nat,
{
    match j {
        Json::Array(v) => {
            if v.len() == 0 {
                push_str(out, "[]");
                return;
            }
            push_str(out, "[\n");
            proof {
                assert forall|k: int| 0 <= k < v@.len() implies indent + 2 + 2 * depth(
                    #[trigger] v@[k],
                ) <= usize::MAX by {
                    lemma_items_depth(v@, 0, k);
                }
            }
            push_pretty_items(out, v, 0, indent);
            push_spaces(out, indent);
            push_str(out, "]");
            assert(out@ =~= old(out)@ + pretty(*j, indent as nat));
        },
        Json::Object(m) => {
            if m.len() == 0 {
                push_str(out, "{}");
                return;
            }
            push_str(out, "{\n");
            proof {
                assert forall|k: int| 0 <= k < m@.len() implies indent + 2 + 2 * depth(
                    #[trigger] m@[k].1,
                ) <= usize::MAX by {
                    lemma_members_depth(m@, 0, k);
                }
            }
            push_pretty_members(out, m, 0, indent);
            push_spaces(out, indent);
            push_str(out, "}");
            assert(out@ =~= old(out)@ + pretty(*j, indent as nat));
        },
        _ => {
            crate::json::push_compact(out, j);
        },
    }
}

fn push_pretty_items(out: &mut String, v: &Vec<Json>, i: usize, indent: usize)
    requires
        i <= v@.len(),
        forall|k: int| 0 <= k < v@.len() ==> indent + 2 + 2 * depth(#[trigger] v@[k]) <= usize::MAX,
    ensures
        final(out)@ == old(out)@ + pretty_items(v@, i as int, indent as nat),
    decreases v@, v@.len() - i,
{
    if i >= v.len() {
        assert(old(out)@ + Seq::<char>::empty() =~= old(out)@);
        return;
    }
    assert(indent + 2 + 2 * depth(v@[i as int]) <= usize::MAX);
    push_spaces(out, indent + 2);
    push_pretty(out, &v[i], indent + 2);
    push_line_end(out, i, v.len());
    push_pretty_items(out, v, i + 1, indent);
    assert(out@ =~= old(out)@ + pretty_items(v@, i as int, indent as nat));
}

fn push_pretty_members(out: &mut String, m: &Vec<(String, Json)>, i: usize, indent: usize)
    requires
        i <= m@.len(),
        forall|k: int| 0 <= k < m@.len() ==> indent + 2 + 2 * depth(#[trigger] m@[k].1) <= usize::MAX,
    ensures
        final(out)@ == old(out)@ + pretty_members(m@, i as int, indent as nat),
    decreases m@, m@.len() - i,
{
    if i >= m.len() {
        assert(old(out)@ + Seq::<char>::empty() =~= old(out)@);
        return;
    }
    assert(indent + 2 + 2 * depth(m@[i as int].1) <= usize::MAX);
    push_spaces(out, indent + 2);
    crate::json::push_quoted(out, m[i].0.as_str());
    push_str(out, ": ");
    push_pretty(out, &m[i].1, indent + 2);
    push_line_end(out, i, m.len());
    push_pretty_members(out, m, i + 1, indent);
    assert(out@ =~= old(out)@ + pretty_members(m@, i as int, indent as nat));
}

/// The human-readable text of a command's JSON response: nothing for
/// `null`, the text itself for a string, and pretty-printed JSON for
/// anything else.
pub open spec fn fallback_text(j: Json) -> Seq<char> {
    match j {
        Json::Null => seq![],
        Json::Str(s) => s@,
        _ => pretty(j, 0),
    }
}

/// Pretty-prints a JSON value as human-readable output.
pub fn json_fallback(value: &Json) -> (r: String)
    requires
        2 * depth(*value) <= usize::MAX,
    ensures
        r@ == fallback_text(*value),
{
    match value {
        Json::Null => String::new(),
        Json::Str(s) => s.clone(),
        _ => {
            let mut out = String::new();
            push_pretty(&mut out, value, 0);
            assert(out@ =~= fallback_text(*value));
            out
        },
    }
}

// ---------------------------------------------------------------------
// QMP events
// ---------------------------------------------------------------------

/// A key with `-` replaced by `_`, the way Rust names fields.
pub open spec fn underscored(k: Seq<char>) -> Seq<char> {
    k.map_values(|c: char| if c == '-' { '_' } else { c })
}

/// Compact JSON texts of the items from `i` on, separated by `, `.
pub open spec fn compact_list(items: Seq<Json>, i: int) -> Seq<char>
    decreases items.len() - i,
{
    if i < 0 || i >= items.len() {
        seq![]
    } else {
        (if i > 0 {
            ", "@
        } else {
            seq![]
        }) + compact(items[i]) + compact_list(items, i + 1)
    }
}

/// `key: value`, nested objects written inline.
pub open spec fn kv_text(key: Seq<char>, v: Json) -> Seq<char>
    decreases v, 0nat,
{
    match v {
        Json::Str(s) => key + ": \""@ + s@ + "\""@,
        Json::Bool(b) => key + ": "@ + bool_text(b),
        Json::Number(n) => key + ": "@ + n@,
        Json::Null => key + ": null"@,
        Json::Array(a) => key + ": ["@ + compact_list(a@, 0) + "]"@,
        Json::Object(m) => key + ": { "@ + kv_members(m@, 0) + " }"@,
    }
}

pub open spec fn kv_members(m: Seq<(String, Json)>, i: int) -> Seq<char>
    decreases m, m.len() - i,
{
    if i < 0 || i >= m.len() {
        seq![]
    } else {
        (if i > 0 {
            ", "@
        } else {
            seq![]
        }) + kv_text(underscored(m[i].0@), m[i].1) + kv_members(m, i + 1)
    }
}

/// A number keeps its text: the member `key` with a number value reads
/// `key: ` followed by the number exactly as it was received.
pub proof fn law_number_member_text(key: Seq<char>, n: String)
    ensures
        kv_text(key, Json::Number(n)) == key + ": "@ + n@,
        kv_text(key, Json::Number(n)).len() == key.len() + 2 + n@.len(),
        kv_text(key, Json::Number(n)).skip(key.len() as int + 2) == n@,
{
    reveal_strlit(": ");
    assert((key + ": "@ + n@).skip(key.len() as int + 2) =~= n@);
}

/// The other plain values: a string is quoted as received, a boolean is
/// `true` or `false`, and null is `null`.
pub proof fn law_scalar_member_text(key: Seq<char>, t: String, b: bool)
    ensures
        kv_text(key, Json::Str(t)) == key + seq![':', ' ', '"'] + t@ + seq!['"'],
        kv_text(key, Json::Bool(true)) == key + seq![':', ' ', 't', 'r', 'u', 'e'],
        kv_text(key, Json::Bool(false)) == key + seq![':', ' ', 'f', 'a', 'l', 's', 'e'],
        kv_text(key, Json::Null) == key + seq![':', ' ', 'n', 'u', 'l', 'l'],
{
    reveal_strlit(": \"");
    reveal_strlit("\"");
    reveal_strlit(": ");
    reveal_strlit(": null");
    reveal_strlit("true");
    reveal_strlit("false");
    assert(key + ": \""@ + t@ + "\""@ =~= key + seq![':', ' ', '"'] + t@ + seq!['"']);
    assert(key + ": "@ + "true"@ =~= key + seq![':', ' ', 't', 'r', 'u', 'e']);
    assert(key + ": "@ + "false"@ =~= key + seq![':', ' ', 'f', 'a', 'l', 's', 'e']);
    assert(key + ": null"@ =~= key + seq![':', ' ', 'n', 'u', 'l', 'l']);
}

/// Event data whose first member holds a number begins with `{ `, that
/// member's key and `: `, then the number's own text.
pub proof fn law_event_data_number_first(m: Vec<(String, Json)>, n: String)
    requires
        m@.len() > 0,
        m@[0].1 == Json::Number(n),
    ensures
        ({
            let t = event_data_text(Json::Object(m));
            let head = "{ "@ + underscored(m@[0].0@) + ": "@ + n@;
            head.len() <= t.len() && t.take(head.len() as int) == head
        }),
{
    reveal_strlit(": ");
    let k = underscored(m@[0].0@);
    let rest = kv_members(m@, 1);
    assert(kv_members(m@, 0) == seq![] + kv_text(k, m@[0].1) + rest);
    let head = "{ "@ + k + ": "@ + n@;
    let t = "{ "@ + (seq![] + (k + ": "@ + n@) + rest) + " }"@;
    assert(event_data_text(Json::Object(m)) == t);
    assert(t =~= head + (rest + " }"@));
    assert(t.take(head.len() as int) =~= head);
}

/// Event data as `{ key: value, ... }`; nothing unless it is an object
/// with members.
pub open spec fn event_data_text(d: Json) -> Seq<char> {
    match d {
        Json::Object(m) => if m@.len() == 0 {
            seq![]
        } else {
            "{ "@ + kv_members(m@, 0) + " }"@
        },
        _ => seq![],
    }
}

/// The value of a string of decimal digits.
pub open spec fn dec_value(t: Seq<char>) -> nat
    decreases t.len(),
{
    if t.len() == 0 {
        0
    } else {
        dec_value(t.drop_last()) * 10 + ((t.last() as u32) - 48) as nat
    }
}

pub open spec fn all_digits(t: Seq<char>) -> bool {
    forall|i: int| 0 <= i < t.len() ==> '0' <= #[trigger] t[i] <= '9'
}

/// A number that is a `u64` (serde_json's `as_u64`): its text holds
/// decimal digits only, and their value fits.
pub open spec fn number_u64(t: Seq<char>) -> Option<nat> {
    if t.len() > 0 && all_digits(t) && dec_value(t) <= u64::MAX {
        Some(dec_value(t))
    } else {
        None
    }
}

proof fn lemma_dec_value_mono(t: Seq<char>, i: int)
    requires
        0 <= i <= t.len(),
    ensures
        dec_value(t.take(i)) <= dec_value(t),
    decreases t.len(),
{
    if i < t.len() {
        lemma_dec_value_mono(t.drop_last(), i);
        assert(t.drop_last().take(i) =~= t.take(i));
    } else {
        assert(t.take(i) =~= t);
    }
}

/// The `u64` member `k` of `j`, or 0.
pub open spec fn u64_member(j: Option<Json>, k: Seq<char>) -> nat {
    match j {
        Some(o) => match get(o, k) {
            Some(Json::Number(n)) => match number_u64(n@) {
                Some(v) => v,
                None => 0,
            },
            _ => 0,
        },
        None => 0,
    }
}

pub open spec fn event_name(e: Json) -> Seq<char> {
    match crate::json::as_str(get(e, "event"@)) {
        Some(n) => n,
        None => "UNKNOWN"@,
    }
}

pub open spec fn event_data(e: Json) -> Json {
    match get(e, "data"@) {
        Some(d) => d,
        None => Json::Null,
    }
}

/// The seconds and microseconds of an event's timestamp (0 when absent).
pub open spec fn event_seconds(e: Json) -> nat {
    u64_member(get(e, "timestamp"@), "seconds"@)
}

pub open spec fn event_micros(e: Json) -> nat {
    u64_member(get(e, "timestamp"@), "microseconds"@)
}

/// An event as one line: its name, its data, and the time (given as
/// `time`); anything but an object is written as compact JSON.
pub open spec fn event_text(e: Json, time: Seq<char>) -> Seq<char> {
    match e {
        Json::Object(_) => {
            let data = event_data_text(event_data(e));
            if data.len() == 0 {
                "✨ "@ + event_name(e) + " ["@ + time + "]"@
            } else {
                "✨ "@ + event_name(e) + " "@ + data + " ["@ + time + "]"@
            }
        },
        _ => compact(e),
    }
}

fn push_underscored(out: &mut String, k: &str)
    ensures
        final(out)@ == old(out)@ + underscored(k@),
{
    let v = to_chars(k);
    let mut i: usize = 0;
    while i < v.len()
        invariant
            i <= v@.len(),
            v@ == k@,
            out@ == old(out)@ + underscored(v@.take(i as int)),
        decreases v@.len() - i,
    {
        let c = v[i];
        push_char(out, if c == '-' { '_' } else { c });
        proof {
            assert(underscored(v@.take(i + 1)) =~= underscored(v@.take(i as int)).push(
                if c == '-' { '_' } else { c },
            ));
        }
        i = i + 1;
    }
    assert(v@.take(v@.len() as int) =~= v@);
}

fn push_compact_list(out: &mut String, items: &Vec<Json>, i: usize)
    requires
        i <= items@.len(),
    ensures
        final(out)@ == old(out)@ + compact_list(items@, i as int),
    decreases items@.len() - i,
{
    if i >= items.len() {
        assert(old(out)@ + Seq::<char>::empty() =~= old(out)@);
        return;
    }
    if i > 0 {
        push_str(out, ", ");
    }
    crate::json::push_compact(out, &items[i]);
    push_compact_list(out, items, i + 1);
    assert(out@ =~= old(out)@ + compact_list(items@, i as int));
}

fn push_kv(out: &mut String, key: &str, v: &Json)
    ensures
        final(out)@ == old(out)@ + kv_text(key@, *v),
    decreases v, 0nat,
{
    push_str(out, key);
    match v {
        Json::Str(s) => {
            push_str(out, ": \"");
            push_str(out, s.as_str());
            push_str(out, "\"");
        },
        Json::Bool(b) => {
            push_str(out, ": ");
            if *b {
                push_str(out, "true");
            } else {
                push_str(out, "false");
            }
        },
        Json::Number(n) => {
            push_str(out, ": ");
            push_str(out, n.as_str());
        },
        Json::Null => {
            push_str(out, ": null");
        },
        Json::Array(a) => {
            push_str(out, ": [");
            push_compact_list(out, a, 0);
            push_str(out, "]");
        },
        Json::Object(m) => {
            push_str(out, ": { ");
            push_kv_members(out, m, 0);
            push_str(out, " }");
        },
    }
    assert(out@ =~= old(out)@ + kv_text(key@, *v));
}

fn push_kv_members(out: &mut String, m: &Vec<(String, Json)>, i: usize)
    requires
        i <= m@.len(),
    ensures
        final(out)@ == old(out)@ + kv_members(m@, i as int),
    decreases m@, m@.len() - i,
{
    if i >= m.len() {
        assert(old(out)@ + Seq::<char>::empty() =~= old(out)@);
        return;
    }
    if i > 0 {
        push_str(out, ", ");
    }
    let mut key = String::new();
    push_underscored(&mut key, m[i].0.as_str());
    assert(key@ =~= underscored(m@[i as int].0@));
    push_kv(out, key.as_str(), &m[i].1);
    push_kv_members(out, m, i + 1);
    assert(out@ =~= old(out)@ + kv_members(m@, i as int));
}

/// Formats event data as `{ key: value, ... }` with Rust-style field
/// names.
pub fn format_event_data(value: &Json) -> (r: String)
    ensures
        r@ == event_data_text(*value),
{
    let mut out = String::new();
    match value {
        Json::Object(m) => {
            if m.len() == 0 {
                return out;
            }
            push_str(&mut out, "{ ");
            push_kv_members(&mut out, m, 0);
            push_str(&mut out, " }");
            assert(out@ =~= event_data_text(*value));
            out
        },
        _ => out,
    }
}

/// Formats a single key-value pair, inlining nested objects.
pub fn format_kv(key: &str, v: &Json) -> (r: String)
    ensures
        r@ == kv_text(key@, *v),
{
    let mut out = String::new();
    push_kv(&mut out, key, v);
    assert(out@ =~= kv_text(key@, *v));
    out
}

/// `as_u64` of a number's text.
fn number_as_u64(t: &str) -> (r: Option<u64>)
    ensures
        match number_u64(t@) {
            Some(v) => r == Some(v as u64),
            None => r is None,
        },
{
    let v = to_chars(t);
    if v.len() == 0 {
        return None;
    }
    let mut i: usize = 0;
    while i < v.len()
        invariant
            i <= v@.len(),
            v@ == t@,
            forall|k: int| 0 <= k < i ==> '0' <= #[trigger] v@[k] <= '9',
        decreases v@.len() - i,
    {
        if !('0' <= v[i] && v[i] <= '9') {
            return None;
        }
        i = i + 1;
    }
    let mut acc: u64 = 0;
    let mut k: usize = 0;
    assert(v@.take(0) =~= Seq::<char>::empty());
    while k < v.len()
        invariant
            k <= v@.len(),
            v@ == t@,
            all_digits(v@),
            acc == dec_value(v@.take(k as int)),
        decreases v@.len() - k,
    {
        assert(v@.take(k + 1).drop_last() =~= v@.take(k as int));
        assert(v@.take(k + 1).last() == v@[k as int]);
        let d = (v[k] as u32) - 48;
        match acc.checked_mul(10) {
            Some(m) => match m.checked_add(d as u64) {
                Some(n) => {
                    acc = n;
                },
                None => {
                    proof {
                        lemma_dec_value_mono(v@, k + 1);
                    }
                    return None;
                },
            },
            None => {
                proof {
                    lemma_dec_value_mono(v@, k + 1);
                }
                return None;
            },
        }
        k = k + 1;
    }
    assert(v@.take(v@.len() as int) =~= v@);
    Some(acc)
}

/// The `u64` member `k` of an optional object, or 0.
fn u64_member_exec(j: Option<&Json>, k: &str) -> (r: u64)
    ensures
        r as nat == u64_member(
            match j {
                Some(x) => Some(*x),
                None => None,
            },
            k@,
        ),
{
    match j {
        Some(o) => match crate::json::get_member(o, k) {
            Some(Json::Number(n)) => match number_as_u64(n.as_str()) {
                Some(v) => v,
                None => 0,
            },
            _ => 0,
        },
        None => 0,
    }
}

pub open spec fn is_digit(c: char) -> bool {
    '0' <= c <= '9'
}

/// The value of two decimal digits.
pub open spec fn two_digits(a: char, b: char) -> int {
    (a as int - '0' as int) * 10 + (b as int - '0' as int)
}

/// A clock time `HH:MM:SS.mmm`: hour 00 to 23, minute 00 to 59, second
/// 00 to 60 (a leap second), and milliseconds.
pub open spec fn clock_text(t: Seq<char>) -> bool {
    &&& t.len() == 12
    &&& t[2] == ':' && t[5] == ':' && t[8] == '.'
    &&& forall|i: int| 0 <= i < 12 && i != 2 && i != 5 && i != 8 ==> is_digit(#[trigger] t[i])
    &&& two_digits(t[0], t[1]) <= 23
    &&& two_digits(t[3], t[4]) <= 59
    &&& two_digits(t[6], t[7]) <= 60
}

/// Three decimal digits of `n` (below 1000).
pub open spec fn three_digits(n: nat) -> Seq<char> {
    seq![digit_char(n / 100), digit_char((n / 10) % 10), digit_char(n % 10)]
}

/// Seconds that chrono turns into a date and time, with a wide margin
/// (its dates reach some 260,000 years either side of 1970).
pub open spec fn clock_range(secs: int) -> bool {
    -100_000_000_000 <= secs <= 100_000_000_000
}

/// The local clock time of a UNIX timestamp with chrono:
/// `Local.timestamp_opt(secs, nanos).single()`, written with
/// `format("%H:%M:%S%.3f")` when there is one.  chrono documents
/// `timestamp_opt` as giving no time only for an out-of-range number of
/// seconds or an invalid nanosecond count (2·10⁹ or more; 10⁹ or more
/// outside a leap second), and the format as `%H` 00–23, `%M` 00–59,
/// `%S` 00–60 and `%.3f` the milliseconds of the nanoseconds, which a
/// UTC offset (whole seconds) leaves alone.  Which hour and minute the
/// machine's time zone gives is not stated.
#[verifier::external_body]
fn local_clock(secs: i64, nanos: u32) -> (r: Option<String>)
    ensures
        r matches Some(t) ==> clock_text(t@) && (nanos < 1_000_000_000 ==> t@.subrange(9, 12)
            == three_digits((nanos / 1_000_000) as nat)),
        nanos < 1_000_000_000 && clock_range(secs as int) ==> r is Some,
        nanos >= 2_000_000_000 ==> r is None,
{
    match chrono::Local.timestamp_opt(secs, nanos).single() {
        Some(dt) => Some(dt.format("%H:%M:%S%.3f").to_string()),
        None => None,
    }
}

/// What the clock time of an event is computed from: its seconds as an
/// `i64` and its microseconds as nanoseconds in a `u32` (both casts keep
/// the low bits).
pub fn clock_args(seconds: u64, microseconds: u64) -> (r: (i64, u32))
    requires
        microseconds * 1000 <= u64::MAX,
    ensures
        r.0 == seconds as i64,
        r.1 == (microseconds * 1000) as u32,
{
    (seconds as i64, (microseconds * 1000) as u32)
}

/// What is known of the time text of a timestamp: a clock time whose
/// milliseconds are those of the timestamp, or, when chrono has no time
/// for it, those of the epoch that stands in.
pub open spec fn clock_time_ok(seconds: nat, microseconds: nat, t: Seq<char>) -> bool {
    let s = seconds as i64;
    let n = (microseconds * 1000) as u32;
    &&& clock_text(t)
    &&& n < 1_000_000_000 && clock_range(s as int) ==> t.subrange(9, 12) == three_digits(
        (n / 1_000_000) as nat,
    )
    &&& n >= 2_000_000_000 ==> t.subrange(9, 12) == three_digits(0)
}

/// Formats a UNIX timestamp (seconds and microseconds) as `HH:MM:SS.mmm`
/// in the local time zone; a timestamp that has no local time is shown
/// as the epoch.
pub fn format_event_time(seconds: u64, microseconds: u64) -> (r: String)
    requires
        microseconds * 1000 <= u64::MAX,
    ensures
        clock_time_ok(seconds as nat, microseconds as nat, r@),
{
    let (secs, nanos) = clock_args(seconds, microseconds);
    match local_clock(secs, nanos) {
        Some(t) => t,
        None => match local_clock(0, 0) {
            Some(t) => t,
            None => {
                assert(false);
                String::new()
            },
        },
    }
}

/// An event as one line, with `time` as its time.
pub fn format_event_at(event: &Json, time: &str) -> (r: String)
    ensures
        r@ == event_text(*event, time@),
{
    match event {
        Json::Object(_) => {
            let name = match crate::json::get_member(event, "event") {
                Some(Json::Str(n)) => n.clone(),
                _ => String::from_str("UNKNOWN"),
            };
            let data_str = match crate::json::get_member(event, "data") {
                Some(d) => format_event_data(d),
                None => String::new(),
            };
            let mut out = String::from_str("✨ ");
            push_str(&mut out, name.as_str());
            if to_chars(data_str.as_str()).len() != 0 {
                push_str(&mut out, " ");
                push_str(&mut out, data_str.as_str());
            }
            push_str(&mut out, " [");
            push_str(&mut out, time);
            push_str(&mut out, "]");
            proof {
                assert(data_str@ == event_data_text(event_data(*event)));
            }
            assert(out@ =~= event_text(*event, time@));
            out
        },
        _ => crate::json::to_compact(event),
    }
}

/// Formats a QMP event for display: its name, data and local time.
pub fn format_event(event: &Json) -> (r: String)
    requires
        event_micros(*event) * 1000 <= u64::MAX,
    ensures
        exists|time: Seq<char>|
            clock_time_ok(event_seconds(*event), event_micros(*event), time) && r@ == event_text(
                *event,
                time,
            ),
{
    let ts = crate::json::get_member(event, "timestamp");
    let secs = u64_member_exec(ts, "seconds");
    let us = u64_member_exec(ts, "microseconds");
    let time = format_event_time(secs, us);
    let r = format_event_at(event, time.as_str());
    assert(r@ == event_text(*event, time@));
    r
}

} // verus!
