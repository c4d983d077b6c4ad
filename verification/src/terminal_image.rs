//! Inline images for terminals that speak the Kitty graphics protocol:
//! format detection, PPM header parsing, base64 and the escape-sequence
//! framing.  Reading the file and writing to the terminal are left to
//! the caller.
use base64::Engine;
use vstd::prelude::*;

use crate::expr::{digits_value, is_ascii_ws, lemma_scan_digits, lemma_skip_ws, scan_digits, skip_ws};

verus! {

/// Maximum base64 payload per escape sequence chunk.
pub const CHUNK_SIZE: usize = 4096;

// ---------------------------------------------------------------------
// PPM header
// ---------------------------------------------------------------------

/// The first index `j >= i` with `d[j] == b`, or `d.len()`.
pub open spec fn find_byte(d: Seq<u8>, b: u8, i: int) -> int
    decreases d.len() - i,
{
    if i < 0 || i >= d.len() {
        d.len() as int
    } else if d[i] == b {
        i
    } else {
        find_byte(d, b, i + 1)
    }
}

pub proof fn lemma_find_byte(d: Seq<u8>, b: u8, i: int)
    requires
        0 <= i <= d.len(),
    ensures
        i <= find_byte(d, b, i) <= d.len(),
        find_byte(d, b, i) < d.len() ==> d[find_byte(d, b, i)] == b,
    decreases d.len() - i,
{
    if i < d.len() && d[i] != b {
        lemma_find_byte(d, b, i + 1);
    }
}

/// Skips whitespace and `#` comment lines (the comment stops before its
/// `\n`, which the next round of whitespace skipping consumes).
pub open spec fn skip_gap(d: Seq<u8>, pos: int) -> int
    decreases d.len() - pos,
{
    if pos < 0 || pos > d.len() {
        pos
    } else {
        let p = skip_ws(d, pos);
        proof {
            lemma_skip_ws(d, pos);
        }
        if p < d.len() && d[p] == 0x23 {
            let q = find_byte(d, 0x0a, p);
            proof {
                lemma_find_byte(d, 0x0a, p);
            }
            if q > pos {
                skip_gap(d, q)
            } else {
                q
            }
        } else {
            p
        }
    }
}

pub proof fn lemma_skip_gap(d: Seq<u8>, pos: int)
    requires
        0 <= pos <= d.len(),
    ensures
        pos <= skip_gap(d, pos) <= d.len(),
    decreases d.len() - pos,
{
    lemma_skip_ws(d, pos);
    let p = skip_ws(d, pos);
    if p < d.len() && d[p] == 0x23 {
        lemma_find_byte(d, 0x0a, p);
        let q = find_byte(d, 0x0a, p);
        if q > pos {
            lemma_skip_gap(d, q);
        }
    }
}

/// A decimal `u32` made of the digits `d[start..end]` (`str::parse::<u32>`
/// of that text): `None` when empty or too large.
pub open spec fn dec_u32(d: Seq<u8>, start: int, end: int) -> Option<u32> {
    let v = digits_value(d.subrange(start, end), 10);
    if end == start || v > u32::MAX {
        None
    } else {
        Some(v as u32)
    }
}

/// The header of a binary PPM (`P6`) image: width, height, and the offset
/// of the pixel data.
pub open spec fn spec_parse_ppm_header(d: Seq<u8>) -> Option<(u32, u32, int)> {
    if d.len() < 2 || d[0] != 0x50 || d[1] != 0x36 {
        None
    } else {
        let w_start = skip_gap(d, 2);
        let w_end = scan_digits(d, w_start, 10);
        let h_start = skip_ws(d, w_end);
        let h_end = scan_digits(d, h_start, 10);
        let m_start = skip_ws(d, h_end);
        let m_end = scan_digits(d, m_start, 10);
        let off = if m_end < d.len() && is_ascii_ws(d[m_end]) {
            m_end + 1
        } else {
            m_end
        };
        match (dec_u32(d, w_start, w_end), dec_u32(d, h_start, h_end)) {
            (Some(w), Some(h)) => Some((w, h, off)),
            _ => None,
        }
    }
}

fn skip_ascii_ws(d: &[u8], pos: usize) -> (r: usize)
    requires
        pos <= d@.len(),
    ensures
        r == skip_ws(d@, pos as int),
        pos <= r <= d@.len(),
{
    proof {
        lemma_skip_ws(d@, pos as int);
    }
    let mut p = pos;
    while p < d.len() && (d[p] == 0x20 || d[p] == 0x09 || d[p] == 0x0a || d[p] == 0x0c || d[p]
        == 0x0d)
        invariant
            pos <= p <= d@.len(),
            skip_ws(d@, pos as int) == skip_ws(d@, p as int),
        decreases d@.len() - p,
    {
        p = p + 1;
    }
    p
}

fn scan_decimal(d: &[u8], pos: usize) -> (r: usize)
    requires
        pos <= d@.len(),
    ensures
        r == scan_digits(d@, pos as int, 10),
        pos <= r <= d@.len(),
{
    proof {
        lemma_scan_digits(d@, pos as int, 10);
    }
    let mut p = pos;
    while p < d.len() && 0x30 <= d[p] && d[p] <= 0x39
        invariant
            pos <= p <= d@.len(),
            scan_digits(d@, pos as int, 10) == scan_digits(d@, p as int, 10),
        decreases d@.len() - p,
    {
        p = p + 1;
    }
    p
}

proof fn lemma_digits_monotone(d: Seq<u8>, i: int)
    requires
        0 <= i <= d.len(),
    ensures
        digits_value(d.take(i), 10) <= digits_value(d, 10),
    decreases d.len(),
{
    if i < d.len() {
        lemma_digits_monotone(d.drop_last(), i);
        assert(d.drop_last().take(i) =~= d.take(i));
    } else {
        assert(d.take(i) =~= d);
    }
}

/// Parses the decimal digits `d[start..end]` as a `u32`.
fn parse_u32(d: &[u8], start: usize, end: usize) -> (r: Option<u32>)
    requires
        start <= end <= d@.len(),
        forall|i: int| start <= i < end ==> 0x30 <= #[trigger] d@[i] <= 0x39,
    ensures
        r == dec_u32(d@, start as int, end as int),
{
    if start == end {
        return None;
    }
    let ghost full = d@.subrange(start as int, end as int);
    let mut v: u32 = 0;
    let mut i = start;
    assert(d@.subrange(start as int, start as int) =~= Seq::<u8>::empty());
    while i < end
        invariant
            start <= i <= end <= d@.len(),
            full == d@.subrange(start as int, end as int),
            forall|j: int| start <= j < end ==> 0x30 <= #[trigger] d@[j] <= 0x39,
            v == digits_value(d@.subrange(start as int, i as int), 10),
        decreases end - i,
    {
        let ghost sub = d@.subrange(start as int, i + 1);
        assert(sub.drop_last() =~= d@.subrange(start as int, i as int));
        assert(full.take(i + 1 - start) =~= sub);
        let dv = (d[i] - 0x30) as u32;
        match v.checked_mul(10) {
            Some(m) => match m.checked_add(dv) {
                Some(n) => {
                    v = n;
                },
                None => {
                    proof {
                        lemma_digits_monotone(full, i + 1 - start);
                    }
                    return None;
                },
            },
            None => {
                proof {
                    lemma_digits_monotone(full, i + 1 - start);
                }
                return None;
            },
        }
        i = i + 1;
    }
    Some(v)
}

/// Parses a PPM P6 header, returning (width, height, pixel data offset).
proof fn lemma_ws_run(d: Seq<u8>, i: int, j: int)
    requires
        0 <= i <= j <= d.len(),
        forall|k: int| i <= k < j ==> is_ascii_ws(#[trigger] d[k]),
        j == d.len() || !is_ascii_ws(d[j]),
    ensures
        skip_ws(d, i) == j,
    decreases j - i,
{
    if i < j {
        lemma_ws_run(d, i + 1, j);
    }
}

proof fn lemma_digit_run(d: Seq<u8>, i: int, j: int)
    requires
        0 <= i <= j <= d.len(),
        forall|k: int| i <= k < j ==> 0x30 <= #[trigger] d[k] <= 0x39,
        j == d.len() || !(0x30 <= d[j] <= 0x39),
    ensures
        scan_digits(d, i, 10) == j,
    decreases j - i,
{
    if i < j {
        lemma_digit_run(d, i + 1, j);
    }
}

/// Bytes that are all ASCII whitespace, at least one of them.
pub open spec fn ws_bytes(s: Seq<u8>) -> bool {
    s.len() > 0 && forall|k: int| 0 <= k < s.len() ==> is_ascii_ws(#[trigger] s[k])
}

/// Bytes that are all decimal digits, at least one of them.
pub open spec fn digit_bytes(s: Seq<u8>) -> bool {
    s.len() > 0 && forall|k: int| 0 <= k < s.len() ==> 0x30 <= #[trigger] s[k] <= 0x39
}

/// A binary PPM made of `P6`, whitespace, the width, whitespace, the
/// height, whitespace, the maximum value and one whitespace byte has its
/// pixel data right after that byte, whatever the pixel bytes are (pixel
/// bytes that look like whitespace belong to the image), and the width
/// and height that its digits say.
pub proof fn law_ppm_pixels_follow_one_separator(
    s1: Seq<u8>,
    wd: Seq<u8>,
    s2: Seq<u8>,
    hd: Seq<u8>,
    s3: Seq<u8>,
    md: Seq<u8>,
    sep: u8,
    pixels: Seq<u8>,
)
    requires
        ws_bytes(s1),
        ws_bytes(s2),
        ws_bytes(s3),
        digit_bytes(wd),
        digit_bytes(hd),
        digit_bytes(md),
        is_ascii_ws(sep),
        digits_value(wd, 10) <= u32::MAX,
        digits_value(hd, 10) <= u32::MAX,
    ensures
        ({
            let header = seq![0x50u8, 0x36u8] + s1 + wd + s2 + hd + s3 + md + seq![sep];
            spec_parse_ppm_header(header + pixels) == Some(
                (
                    digits_value(wd, 10) as u32,
                    digits_value(hd, 10) as u32,
                    header.len() as int,
                ),
            )
        }),
{
    let header = seq![0x50u8, 0x36u8] + s1 + wd + s2 + hd + s3 + md + seq![sep];
    let d = header + pixels;
    let a = 2int;
    let b = a + s1.len();
    let e = b + wd.len();
    let f = e + s2.len();
    let g = f + hd.len();
    let k = g + s3.len();
    let l = k + md.len();
    assert(header.len() == l + 1);
    assert(d.subrange(a, b) =~= s1);
    assert(d.subrange(b, e) =~= wd);
    assert(d.subrange(e, f) =~= s2);
    assert(d.subrange(f, g) =~= hd);
    assert(d.subrange(g, k) =~= s3);
    assert(d.subrange(k, l) =~= md);
    assert(d[l] == sep);
    assert(d[0] == 0x50 && d[1] == 0x36);
    assert forall|x: int| a <= x < b implies is_ascii_ws(#[trigger] d[x]) by {
        assert(d[x] == d.subrange(a, b)[x - a]);
    }
    assert forall|x: int| b <= x < e implies 0x30 <= #[trigger] d[x] <= 0x39 by {
        assert(d[x] == d.subrange(b, e)[x - b]);
    }
    assert forall|x: int| e <= x < f implies is_ascii_ws(#[trigger] d[x]) by {
        assert(d[x] == d.subrange(e, f)[x - e]);
    }
    assert forall|x: int| f <= x < g implies 0x30 <= #[trigger] d[x] <= 0x39 by {
        assert(d[x] == d.subrange(f, g)[x - f]);
    }
    assert forall|x: int| g <= x < k implies is_ascii_ws(#[trigger] d[x]) by {
        assert(d[x] == d.subrange(g, k)[x - g]);
    }
    assert forall|x: int| k <= x < l implies 0x30 <= #[trigger] d[x] <= 0x39 by {
        assert(d[x] == d.subrange(k, l)[x - k]);
    }
    assert(d[b] == wd[0]);
    assert(d[e] == s2[0]);
    assert(d[f] == hd[0]);
    assert(d[g] == s3[0]);
    assert(d[k] == md[0]);
    lemma_ws_run(d, a, b);
    assert(skip_gap(d, 2) == b);
    lemma_digit_run(d, b, e);
    lemma_ws_run(d, e, f);
    lemma_digit_run(d, f, g);
    lemma_ws_run(d, g, k);
    lemma_digit_run(d, k, l);
}

pub fn parse_ppm_header(data: &[u8]) -> (r: Option<(u32, u32, usize)>)
    ensures
        match spec_parse_ppm_header(data@) {
            Some((w, h, off)) => r == Some((w, h, off as usize)) && 0 <= off <= data@.len(),
            None => r is None,
        },
        r matches Some((_, _, o)) ==> o <= data@.len(),
{
    if data.len() < 2 || data[0] != 0x50 || data[1] != 0x36 {
        return None;
    }
    let mut pos: usize = 2;
    proof {
        lemma_skip_gap(data@, 2);
    }
    loop
        invariant_except_break
            skip_gap(data@, 2) == skip_gap(data@, pos as int),
        invariant
            2 <= pos <= data@.len(),
        ensures
            pos == skip_gap(data@, 2),
        decreases data@.len() - pos,
    {
        let p = skip_ascii_ws(data, pos);
        if p < data.len() && data[p] == 0x23 {
            let mut q = p;
            proof {
                lemma_find_byte(data@, 0x0a, p as int);
            }
            while q < data.len() && data[q] != 0x0a
                invariant
                    p <= q <= data@.len(),
                    find_byte(data@, 0x0a, p as int) == find_byte(data@, 0x0a, q as int),
                decreases data@.len() - q,
            {
                q = q + 1;
            }
            assert(q > p);
            pos = q;
        } else {
            pos = p;
            break;
        }
    }
    let w_start = pos;
    let w_end = scan_decimal(data, w_start);
    proof {
        lemma_scan_digits(data@, w_start as int, 10);
    }
    let width = parse_u32(data, w_start, w_end);
    let h_start = skip_ascii_ws(data, w_end);
    let h_end = scan_decimal(data, h_start);
    proof {
        lemma_scan_digits(data@, h_start as int, 10);
    }
    let height = parse_u32(data, h_start, h_end);
    let m_start = skip_ascii_ws(data, h_end);
    let m_end = scan_decimal(data, m_start);
    let off = if m_end < data.len() && (data[m_end] == 0x20 || data[m_end] == 0x09 || data[m_end]
        == 0x0a || data[m_end] == 0x0c || data[m_end] == 0x0d) {
        m_end + 1
    } else {
        m_end
    };
    match (width, height) {
        (Some(w), Some(h)) => Some((w, h, off)),
        _ => None,
    }
}


// ---------------------------------------------------------------------
// Base64 and framing
// ---------------------------------------------------------------------

/// The standard base64 alphabet (RFC 4648, section 4).
pub open spec fn b64_symbol(i: int) -> u8 {
    if i < 26 {
        (0x41 + i) as u8
    } else if i < 52 {
        (0x61 + i - 26) as u8
    } else if i < 62 {
        (0x30 + i - 52) as u8
    } else if i == 62 {
        0x2b
    } else {
        0x2f
    }
}

/// Standard base64 with `=` padding.
pub open spec fn base64(d: Seq<u8>) -> Seq<u8>
    decreases d.len(),
{
    if d.len() == 0 {
        seq![]
    } else {
        let a = d[0] as int;
        let b = if d.len() > 1 {
            d[1] as int
        } else {
            0
        };
        let c = if d.len() > 2 {
            d[2] as int
        } else {
            0
        };
        let s0 = b64_symbol(a / 4);
        let s1 = b64_symbol((a % 4) * 16 + b / 16);
        let s2 = b64_symbol((b % 16) * 4 + c / 64);
        let s3 = b64_symbol(c % 64);
        if d.len() == 1 {
            seq![s0, s1, 0x3d, 0x3d]
        } else if d.len() == 2 {
            seq![s0, s1, s2, 0x3d]
        } else {
            seq![s0, s1, s2, s3] + base64(d.skip(3))
        }
    }
}

/// The encoded length fits in `usize` (the encoder aborts otherwise).
pub open spec fn base64_len_fits(n: nat) -> bool {
    (n / 3) * 4 + (if n % 3 > 0 {
        4int
    } else {
        0int
    }) <= usize::MAX
}

/// Base64 with the standard alphabet and padding
/// (`base64::engine::general_purpose::STANDARD.encode`).
#[verifier::external_body]
fn base64_encode(data: &[u8]) -> (r: Vec<u8>)
    requires
        base64_len_fits(data@.len()),
    ensures
        r@ == base64(data@),
{
    base64::engine::general_purpose::STANDARD.encode(data).into_bytes()
}

pub open spec fn esc_g() -> Seq<u8> {
    seq![0x1bu8, 0x5f, 0x47]
}

pub open spec fn esc_end() -> Seq<u8> {
    seq![0x1bu8, 0x5c]
}

pub open spec fn frame(header: Seq<u8>, payload: Seq<u8>) -> Seq<u8> {
    esc_g() + header + seq![0x3bu8] + payload + esc_end()
}

/// `,m=1`, `m=0`, `m=1` as bytes.
pub open spec fn more_first() -> Seq<u8> {
    seq![0x2cu8, 0x6d, 0x3d, 0x31]
}

pub open spec fn more(last: bool) -> Seq<u8> {
    seq![0x6du8, 0x3d, if last { 0x30u8 } else { 0x31u8 }]
}

/// The frames of a payload longer than one chunk, from chunk offset `i`.
pub open spec fn chunk_frames(b: Seq<u8>, control: Seq<u8>, i: int) -> Seq<u8>
    decreases b.len() - i,
{
    if i < 0 || i >= b.len() {
        seq![]
    } else {
        let last = b.len() - i <= CHUNK_SIZE;
        let end = if last {
            b.len() as int
        } else {
            i + CHUNK_SIZE
        };
        let header = if i == 0 {
            control + more_first()
        } else {
            more(last)
        };
        frame(header, b.subrange(i, end)) + chunk_frames(b, control, end)
    }
}

/// What the terminal receives for a base64 payload: one escape sequence
/// when it fits in a chunk, otherwise one per chunk with `m=1` on all but
/// the last; then a newline.
pub open spec fn kitty_output(b: Seq<u8>, control: Seq<u8>) -> Seq<u8> {
    (if b.len() <= CHUNK_SIZE {
        frame(control, b)
    } else {
        chunk_frames(b, control, 0)
    }) + seq![0x0au8]
}

fn extend_bytes(out: &mut Vec<u8>, v: &[u8], a: usize, b: usize)
    requires
        a <= b <= v@.len(),
    ensures
        final(out)@ == old(out)@ + v@.subrange(a as int, b as int),
{
    let mut i = a;
    while i < b
        invariant
            a <= i <= b <= v@.len(),
            out@ == old(out)@ + v@.subrange(a as int, i as int),
        decreases b - i,
    {
        out.push(v[i]);
        i = i + 1;
        assert(out@ =~= old(out)@ + v@.subrange(a as int, i as int));
    }
}

fn push_frame(out: &mut Vec<u8>, header: &Vec<u8>, b: &[u8], start: usize, end: usize)
    requires
        start <= end <= b@.len(),
    ensures
        final(out)@ == old(out)@ + frame(header@, b@.subrange(start as int, end as int)),
{
    out.push(0x1b);
    out.push(0x5f);
    out.push(0x47);
    extend_bytes(out, header.as_slice(), 0, header.len());
    out.push(0x3b);
    extend_bytes(out, b, start, end);
    out.push(0x1b);
    out.push(0x5c);
    assert(header@.subrange(0, header@.len() as int) =~= header@);
    assert(final(out)@ =~= old(out)@ + frame(header@, b@.subrange(start as int, end as int)));
}

/// The bytes that transmit a base64 payload with the Kitty graphics
/// protocol, chunked as the protocol requires.
pub fn kitty_chunks(b64: &[u8], first_control: &[u8]) -> (r: Vec<u8>)
    ensures
        r@ == kitty_output(b64@, first_control@),
{
    let mut out: Vec<u8> = Vec::new();
    let mut control: Vec<u8> = Vec::new();
    extend_bytes(&mut control, first_control, 0, first_control.len());
    assert(first_control@.subrange(0, first_control@.len() as int) =~= first_control@);
    if b64.len() <= CHUNK_SIZE {
        push_frame(&mut out, &control, b64, 0, b64.len());
        assert(b64@.subrange(0, b64@.len() as int) =~= b64@);
    } else {
        let mut i: usize = 0;
        while i < b64.len()
            invariant
                i <= b64@.len(),
                b64@.len() > CHUNK_SIZE,
                control@ == first_control@,
                out@ + chunk_frames(b64@, first_control@, i as int) == chunk_frames(
                    b64@,
                    first_control@,
                    0,
                ),
            decreases b64@.len() - i,
        {
            let last = b64.len() - i <= CHUNK_SIZE;
            let end = if last {
                b64.len()
            } else {
                i + CHUNK_SIZE
            };
            let mut header: Vec<u8> = Vec::new();
            if i == 0 {
                extend_bytes(&mut header, control.as_slice(), 0, control.len());
                header.push(0x2c);
                header.push(0x6d);
                header.push(0x3d);
                header.push(0x31);
                assert(control@.subrange(0, control@.len() as int) =~= control@);
                assert(header@ =~= first_control@ + more_first());
            } else {
                header.push(0x6d);
                header.push(0x3d);
                header.push(if last { 0x30 } else { 0x31 });
                assert(header@ =~= more(last));
            }
            let ghost before = out@;
            push_frame(&mut out, &header, b64, i, end);
            assert(out@ + chunk_frames(b64@, first_control@, end as int) =~= before + chunk_frames(
                b64@,
                first_control@,
                i as int,
            ));
            i = end;
        }
        assert(out@ + seq![] =~= out@);
    }
    out.push(0x0a);
    out
}

/// The image formats that can be shown inline.
#[derive(Debug, Clone, Copy, PartialEq, Eq)]
pub enum ImageFormat {
    Png,
    Ppm,
}

/// Recognises a PNG (`\x89PNG`) or binary PPM (`P6`) file by its first bytes.
pub fn detect_image_format(data: &[u8]) -> (r: Option<ImageFormat>)
    ensures
        r == detect_image_format_spec(data@),
{
    if data.len() >= 4 && data[0] == 0x89 && data[1] == 0x50 && data[2] == 0x4e && data[3] == 0x47 {
        Some(ImageFormat::Png)
    } else if data.len() >= 2 && data[0] == 0x50 && data[1] == 0x36 {
        Some(ImageFormat::Ppm)
    } else {
        None
    }
}

/// `a=T,f=100`: transmit and display PNG data.
pub open spec fn png_control() -> Seq<u8> {
    seq![0x61u8, 0x3d, 0x54, 0x2c, 0x66, 0x3d, 0x31, 0x30, 0x30]
}

/// The decimal digits of a number as ASCII bytes.
pub open spec fn dec_bytes(n: nat) -> Seq<u8>
    decreases n,
{
    if n < 10 {
        seq![(n + 0x30) as u8]
    } else {
        dec_bytes(n / 10) + seq![((n % 10) + 0x30) as u8]
    }
}

fn push_dec_bytes(out: &mut Vec<u8>, n: u32)
    ensures
        final(out)@ == old(out)@ + dec_bytes(n as nat),
    decreases n,
{
    if n >= 10 {
        push_dec_bytes(out, n / 10);
    }
    out.push(((n % 10) as u8) + 0x30);
    assert(final(out)@ =~= old(out)@ + dec_bytes(n as nat));
}

/// `a=T,f=24,s=<width>,v=<height>`: transmit and display raw RGB data.
pub open spec fn ppm_control(w: u32, h: u32) -> Seq<u8> {
    seq![0x61u8, 0x3d, 0x54, 0x2c, 0x66, 0x3d, 0x32, 0x34, 0x2c, 0x73, 0x3d] + dec_bytes(w as nat)
        + seq![0x2cu8, 0x76, 0x3d] + dec_bytes(h as nat)
}

/// Transmits a PNG file as it is (`f=100`).
pub fn display_png(data: &[u8]) -> (r: Vec<u8>)
    requires
        base64_len_fits(data@.len()),
    ensures
        r@ == kitty_output(base64(data@), png_control()),
{
    let b64 = base64_encode(data);
    let control: Vec<u8> = vec![0x61, 0x3d, 0x54, 0x2c, 0x66, 0x3d, 0x31, 0x30, 0x30];
    assert(control@ =~= png_control());
    kitty_chunks(b64.as_slice(), control.as_slice())
}

/// Transmits the pixels of a PPM P6 file as raw RGB (`f=24`), or nothing
/// when its header does not parse.
pub fn display_ppm(data: &[u8]) -> (r: Option<Vec<u8>>)
    requires
        base64_len_fits(data@.len()),
    ensures
        match spec_parse_ppm_header(data@) {
            Some((w, h, off)) => r matches Some(out) && out@ == kitty_output(
                base64(data@.subrange(off, data@.len() as int)),
                ppm_control(w, h),
            ),
            None => r is None,
        },
{
    let (width, height, offset) = match parse_ppm_header(data) {
        Some(t) => t,
        None => {
            return None;
        },
    };
    proof {
        let sp = spec_parse_ppm_header(data@);
        assert(sp is Some);
        let (w, h, o) = sp.unwrap();
        assert(o <= data@.len());
        assert(o as usize == offset);
        assert(sp == Some((width, height, offset as int)));
    }
    let mut pixels: Vec<u8> = Vec::new();
    extend_bytes(&mut pixels, data, offset, data.len());
    assert(base64_len_fits(pixels@.len())) by (nonlinear_arith)
        requires
            base64_len_fits(data@.len()),
            pixels@.len() <= data@.len(),
    ;
    let b64 = base64_encode(pixels.as_slice());
    let mut control: Vec<u8> = vec![0x61, 0x3d, 0x54, 0x2c, 0x66, 0x3d, 0x32, 0x34, 0x2c, 0x73, 0x3d];
    push_dec_bytes(&mut control, width);
    control.push(0x2c);
    control.push(0x76);
    control.push(0x3d);
    push_dec_bytes(&mut control, height);
    assert(control@ =~= ppm_control(width, height));
    Some(kitty_chunks(b64.as_slice(), control.as_slice()))
}

/// What to send to the terminal to show an image file, or `None` when its
/// format is not recognised or its header does not parse.
pub fn image_output(data: &[u8]) -> (r: Option<Vec<u8>>)
    requires
        base64_len_fits(data@.len()),
    ensures
        match detect_image_format_spec(data@) {
            Some(ImageFormat::Png) => r matches Some(out) && out@ == kitty_output(base64(data@), png_control()),
            Some(ImageFormat::Ppm) => match spec_parse_ppm_header(data@) {
                Some((w, h, off)) => r matches Some(out) && out@ == kitty_output(
                    base64(data@.subrange(off, data@.len() as int)),
                    ppm_control(w, h),
                ),
                None => r is None,
            },
            None => r is None,
        },
{
    match detect_image_format(data) {
        Some(ImageFormat::Png) => Some(display_png(data)),
        Some(ImageFormat::Ppm) => display_ppm(data),
        None => None,
    }
}

pub open spec fn detect_image_format_spec(d: Seq<u8>) -> Option<ImageFormat> {
    if d.len() >= 4 && d[0] == 0x89 && d[1] == 0x50 && d[2] == 0x4e && d[3] == 0x47 {
        Some(ImageFormat::Png)
    } else if d.len() >= 2 && d[0] == 0x50 && d[1] == 0x36 {
        Some(ImageFormat::Ppm)
    } else {
        None
    }
}

} // verus!
