//! Text helpers shared by the modules: Unicode whitespace as `char::is_whitespace`
//! defines it, trimming, conversions between `&str`, `String` and `Vec<char>`,
//! and UTF-8 byte lengths.
use vstd::prelude::*;

verus! {

/// The Unicode `White_Space` property, which `char::is_whitespace` tests.
pub open spec fn is_ws(c: char) -> bool {
    let u = c as u32;
    (0x09 <= u <= 0x0d) || u == 0x20 || u == 0x85 || u == 0xa0 || u == 0x1680 || (0x2000 <= u
        <= 0x200a) || u == 0x2028 || u == 0x2029 || u == 0x202f || u == 0x205f || u == 0x3000
}

pub fn is_whitespace(c: char) -> (r: bool)
    ensures
        r == is_ws(c),
{
    let u = c as u32;
    (0x09 <= u && u <= 0x0d) || u == 0x20 || u == 0x85 || u == 0xa0 || u == 0x1680 || (0x2000 <= u
        && u <= 0x200a) || u == 0x2028 || u == 0x2029 || u == 0x202f || u == 0x205f || u == 0x3000
}

/// The number of leading whitespace characters of `s`.
pub open spec fn lead_ws(s: Seq<char>) -> nat
    decreases s.len(),
{
    if s.len() > 0 && is_ws(s[0]) {
        1 + lead_ws(s.drop_first())
    } else {
        0
    }
}

/// The number of trailing whitespace characters of `s`.
pub open spec fn trail_ws(s: Seq<char>) -> nat
    decreases s.len(),
{
    if s.len() > 0 && is_ws(s.last()) {
        1 + trail_ws(s.drop_last())
    } else {
        0
    }
}

pub open spec fn trim_start(s: Seq<char>) -> Seq<char> {
    s.skip(lead_ws(s) as int)
}

pub open spec fn trim_end(s: Seq<char>) -> Seq<char> {
    s.take(s.len() - trail_ws(s))
}

pub open spec fn trim(s: Seq<char>) -> Seq<char> {
    trim_end(trim_start(s))
}

pub proof fn lemma_lead_ws(s: Seq<char>)
    ensures
        lead_ws(s) <= s.len(),
        forall|i: int| 0 <= i < lead_ws(s) ==> is_ws(#[trigger] s[i]),
        lead_ws(s) < s.len() ==> !is_ws(s[lead_ws(s) as int]),
    decreases s.len(),
{
    if s.len() > 0 && is_ws(s[0]) {
        lemma_lead_ws(s.drop_first());
        assert forall|i: int| 0 <= i < lead_ws(s) implies is_ws(#[trigger] s[i]) by {
            if i > 0 {
                assert(s[i] == s.drop_first()[i - 1]);
            }
        }
    }
}

pub proof fn lemma_trail_ws(s: Seq<char>)
    ensures
        trail_ws(s) <= s.len(),
        forall|i: int| s.len() - trail_ws(s) <= i < s.len() ==> is_ws(#[trigger] s[i]),
        trail_ws(s) < s.len() ==> !is_ws(s[s.len() - trail_ws(s) - 1]),
    decreases s.len(),
{
    if s.len() > 0 && is_ws(s.last()) {
        lemma_trail_ws(s.drop_last());
        assert forall|i: int| s.len() - trail_ws(s) <= i < s.len() implies is_ws(#[trigger] s[i]) by {
            if i < s.len() - 1 {
                assert(s[i] == s.drop_last()[i]);
            }
        }
    }
}

/// Characterises `lead_ws` by its properties.
pub proof fn lemma_lead_ws_unique(s: Seq<char>, n: int)
    requires
        0 <= n <= s.len(),
        forall|i: int| 0 <= i < n ==> is_ws(#[trigger] s[i]),
        n < s.len() ==> !is_ws(s[n]),
    ensures
        lead_ws(s) == n,
    decreases s.len(),
{
    if n > 0 {
        assert(is_ws(s[0]));
        assert forall|i: int| 0 <= i < n - 1 implies is_ws(#[trigger] s.drop_first()[i]) by {
            assert(s.drop_first()[i] == s[i + 1]);
        }
        lemma_lead_ws_unique(s.drop_first(), n - 1);
    }
}

/// Characterises `trail_ws` by its properties.
pub proof fn lemma_trail_ws_unique(s: Seq<char>, n: int)
    requires
        0 <= n <= s.len(),
        forall|i: int| s.len() - n <= i < s.len() ==> is_ws(#[trigger] s[i]),
        n < s.len() ==> !is_ws(s[s.len() - n - 1]),
    ensures
        trail_ws(s) == n,
    decreases s.len(),
{
    if n > 0 {
        assert(is_ws(s.last()));
        assert forall|i: int| s.len() - 1 - (n - 1) <= i < s.len() - 1 implies is_ws(
            #[trigger] s.drop_last()[i],
        ) by {
            assert(s.drop_last()[i] == s[i]);
        }
        lemma_trail_ws_unique(s.drop_last(), n - 1);
    }
}

/// Appends a character to a string (`String::push`).
#[verifier::external_body]
pub(crate) fn push_char(s: &mut String, c: char)
    ensures
        final(s)@ == old(s)@.push(c),
{
    s.push(c);
}

/// The characters of a string slice.
pub fn to_chars(s: &str) -> (v: Vec<char>)
    ensures
        v@ == s@,
{
    let mut v: Vec<char> = Vec::new();
    for c in it: s.chars()
        invariant
            v@ == it.seq().take(it.index() as int),
            it.seq() == s@,
    {
        v.push(c);
    }
    v
}

/// A string made of the characters `v[start..end]`.
pub fn string_of(v: &[char], start: usize, end: usize) -> (s: String)
    requires
        start <= end <= v@.len(),
    ensures
        s@ == v@.subrange(start as int, end as int),
{
    let mut s = String::new();
    let mut i = start;
    while i < end
        invariant
            start <= i <= end <= v@.len(),
            s@ == v@.subrange(start as int, i as int),
        decreases end - i,
    {
        push_char(&mut s, v[i]);
        i = i + 1;
        assert(s@ =~= v@.subrange(start as int, i as int));
    }
    s
}

/// Appends the characters `v[start..end]` to `s`.
pub fn push_range(s: &mut String, v: &[char], start: usize, end: usize)
    requires
        start <= end <= v@.len(),
    ensures
        final(s)@ == old(s)@ + v@.subrange(start as int, end as int),
{
    let mut i = start;
    while i < end
        invariant
            start <= i <= end <= v@.len(),
            s@ == old(s)@ + v@.subrange(start as int, i as int),
        decreases end - i,
    {
        push_char(s, v[i]);
        i = i + 1;
        assert(s@ =~= old(s)@ + v@.subrange(start as int, i as int));
    }
}

/// Appends a string slice to `s`.
pub fn push_str(s: &mut String, t: &str)
    ensures
        final(s)@ == old(s)@ + t@,
{
    let v = to_chars(t);
    push_range(s, &v, 0, v.len());
    assert(v@.subrange(0, v@.len() as int) =~= v@);
}

/// The number of leading whitespace characters of `v[start..end]`.
pub fn count_lead_ws(v: &[char], start: usize, end: usize) -> (n: usize)
    requires
        start <= end <= v@.len(),
    ensures
        n == lead_ws(v@.subrange(start as int, end as int)),
{
    let ghost t = v@.subrange(start as int, end as int);
    let mut i = start;
    while i < end && is_whitespace(v[i])
        invariant
            start <= i <= end <= v@.len(),
            t == v@.subrange(start as int, end as int),
            forall|j: int| start <= j < i ==> is_ws(#[trigger] v@[j]),
        decreases end - i,
    {
        i = i + 1;
    }
    proof {
        assert forall|j: int| 0 <= j < i - start implies is_ws(#[trigger] t[j]) by {
            assert(t[j] == v@[start + j]);
        }
        if i < end {
            assert(t[i - start] == v@[i as int]);
        }
        lemma_lead_ws_unique(t, i - start);
    }
    i - start
}

/// The number of trailing whitespace characters of `v[start..end]`.
pub fn count_trail_ws(v: &[char], start: usize, end: usize) -> (n: usize)
    requires
        start <= end <= v@.len(),
    ensures
        n == trail_ws(v@.subrange(start as int, end as int)),
{
    let ghost t = v@.subrange(start as int, end as int);
    let mut i = end;
    while i > start && is_whitespace(v[i - 1])
        invariant
            start <= i <= end <= v@.len(),
            t == v@.subrange(start as int, end as int),
            forall|j: int| i <= j < end ==> is_ws(#[trigger] v@[j]),
        decreases i - start,
    {
        i = i - 1;
    }
    proof {
        assert forall|j: int| t.len() - (end - i) <= j < t.len() implies is_ws(#[trigger] t[j]) by {
            assert(t[j] == v@[start + j]);
        }
        if i > start {
            assert(t[t.len() - (end - i) - 1] == v@[i - 1]);
        }
        lemma_trail_ws_unique(t, (end - i) as int);
    }
    end - i
}

/// `str::trim` as a string.
pub fn trimmed(t: &str) -> (r: String)
    ensures
        r@ == trim(t@),
{
    let v = to_chars(t);
    let a = count_lead_ws(&v, 0, v.len());
    proof {
        assert(v@.subrange(0, v@.len() as int) =~= v@);
        lemma_lead_ws(v@);
        assert(v@.subrange(a as int, v@.len() as int) =~= trim_start(v@));
        lemma_trail_ws(trim_start(v@));
    }
    let b = count_trail_ws(&v, a, v.len());
    let r = string_of(&v, a, v.len() - b);
    assert(r@ =~= trim(t@));
    r
}

/// The number of bytes of the UTF-8 encoding of a character (`char::len_utf8`).
pub open spec fn char_len(c: char) -> nat {
    let u = c as u32;
    if u < 0x80 {
        1
    } else if u < 0x800 {
        2
    } else if u < 0x10000 {
        3
    } else {
        4
    }
}

/// The number of bytes of the UTF-8 encoding of a sequence of characters
/// (`str::len` of the string that holds them).
pub open spec fn byte_len(s: Seq<char>) -> nat
    decreases s.len(),
{
    if s.len() == 0 {
        0
    } else {
        byte_len(s.drop_last()) + char_len(s.last())
    }
}

pub proof fn lemma_byte_len_concat(a: Seq<char>, b: Seq<char>)
    ensures
        byte_len(a + b) == byte_len(a) + byte_len(b),
    decreases b.len(),
{
    if b.len() == 0 {
        assert(a + b =~= a);
    } else {
        lemma_byte_len_concat(a, b.drop_last());
        assert((a + b).drop_last() =~= a + b.drop_last());
    }
}

pub proof fn lemma_byte_len_bounds(s: Seq<char>)
    ensures
        s.len() <= byte_len(s) <= 4 * s.len(),
    decreases s.len(),
{
    if s.len() > 0 {
        lemma_byte_len_bounds(s.drop_last());
    }
}

pub fn char_utf8_len(c: char) -> (n: usize)
    ensures
        n == char_len(c),
{
    let u = c as u32;
    if u < 0x80 {
        1
    } else if u < 0x800 {
        2
    } else if u < 0x10000 {
        3
    } else {
        4
    }
}

/// The UTF-8 byte length of `v[start..end]`.
pub fn utf8_len(v: &[char], start: usize, end: usize) -> (n: usize)
    requires
        start <= end <= v@.len(),
        byte_len(v@.subrange(start as int, end as int)) <= usize::MAX,
    ensures
        n == byte_len(v@.subrange(start as int, end as int)),
{
    let mut n: usize = 0;
    let mut i = start;
    while i < end
        invariant
            start <= i <= end <= v@.len(),
            n == byte_len(v@.subrange(start as int, i as int)),
            byte_len(v@.subrange(start as int, end as int)) <= usize::MAX,
        decreases end - i,
    {
        proof {
            let a = v@.subrange(start as int, i + 1);
            assert(a.drop_last() =~= v@.subrange(start as int, i as int));
            lemma_byte_len_concat(a, v@.subrange(i + 1, end as int));
            assert(a + v@.subrange(i + 1, end as int) =~= v@.subrange(start as int, end as int));
        }
        n = n + char_utf8_len(v[i]);
        i = i + 1;
    }
    n
}

/// The first index `j >= i` with `s[j] == c`, or `s.len()`.
pub open spec fn find_from(s: Seq<char>, c: char, i: int) -> int
    decreases s.len() - i,
{
    if i < 0 || i >= s.len() {
        s.len() as int
    } else if s[i] == c {
        i
    } else {
        find_from(s, c, i + 1)
    }
}

pub proof fn lemma_find_from(s: Seq<char>, c: char, i: int)
    requires
        0 <= i <= s.len(),
    ensures
        i <= find_from(s, c, i) <= s.len(),
        find_from(s, c, i) < s.len() ==> s[find_from(s, c, i)] == c,
        forall|k: int| i <= k < find_from(s, c, i) ==> #[trigger] s[k] != c,
    decreases s.len() - i,
{
    if i < s.len() && s[i] != c {
        lemma_find_from(s, c, i + 1);
    }
}


/// The last index `j < s.len()` with `s[j] == c`.
pub open spec fn rfind(s: Seq<char>, c: char) -> Option<int>
    decreases s.len(),
{
    if s.len() == 0 {
        None
    } else if s.last() == c {
        Some(s.len() - 1)
    } else {
        rfind(s.drop_last(), c)
    }
}

pub proof fn lemma_rfind(s: Seq<char>, c: char)
    ensures
        rfind(s, c) matches Some(j) ==> 0 <= j < s.len() && s[j] == c && forall|k: int|
            j < k < s.len() ==> #[trigger] s[k] != c,
        rfind(s, c) is None ==> forall|k: int| 0 <= k < s.len() ==> #[trigger] s[k] != c,
    decreases s.len(),
{
    if s.len() > 0 && s.last() != c {
        lemma_rfind(s.drop_last(), c);
        assert forall|k: int| 0 <= k < s.len() - 1 implies #[trigger] s[k] == s.drop_last()[k] by {}
    }
}

/// Whether `p` is a prefix of `s` (`str::starts_with`).
pub open spec fn is_prefix(p: Seq<char>, s: Seq<char>) -> bool {
    p.len() <= s.len() && s.take(p.len() as int) == p
}

/// The characters `v[a..b]` as a new vector.
pub fn slice_of(v: &Vec<char>, a: usize, b: usize) -> (r: Vec<char>)
    requires
        a <= b <= v@.len(),
    ensures
        r@ == v@.subrange(a as int, b as int),
{
    let mut r: Vec<char> = Vec::new();
    let mut i = a;
    while i < b
        invariant
            a <= i <= b <= v@.len(),
            r@ == v@.subrange(a as int, i as int),
        decreases b - i,
    {
        r.push(v[i]);
        i = i + 1;
        assert(r@ =~= v@.subrange(a as int, i as int));
    }
    r
}

/// The characters of `v` from `a` on.
pub fn tail(v: &Vec<char>, a: usize) -> (r: Vec<char>)
    requires
        a <= v@.len(),
    ensures
        r@ == v@.skip(a as int),
{
    let r = slice_of(v, a, v.len());
    assert(r@ =~= v@.skip(a as int));
    r
}

pub fn find_char(v: &Vec<char>, c: char) -> (r: usize)
    ensures
        r == find_from(v@, c, 0),
        r <= v@.len(),
{
    proof {
        lemma_find_from(v@, c, 0);
    }
    let mut i: usize = 0;
    while i < v.len() && v[i] != c
        invariant
            i <= v@.len(),
            find_from(v@, c, 0) == find_from(v@, c, i as int),
        decreases v@.len() - i,
    {
        i = i + 1;
    }
    i
}

pub fn rfind_char(v: &Vec<char>, c: char) -> (r: Option<usize>)
    ensures
        r matches Some(j) ==> rfind(v@, c) == Some(j as int),
        r is None ==> rfind(v@, c) is None,
{
    let mut i = v.len();
    assert(v@.take(v@.len() as int) =~= v@);
    while i > 0 && v[i - 1] != c
        invariant
            i <= v@.len(),
            rfind(v@, c) == rfind(v@.take(i as int), c),
        decreases i,
    {
        assert(v@.take(i - 1) =~= v@.take(i as int).drop_last());
        i = i - 1;
    }
    assert(v@.take(v@.len() as int) =~= v@);
    if i == 0 {
        assert(v@.take(0) =~= Seq::<char>::empty());
        None
    } else {
        Some(i - 1)
    }
}

pub fn starts_with(v: &Vec<char>, p: &Vec<char>) -> (r: bool)
    ensures
        r == is_prefix(p@, v@),
{
    if p.len() > v.len() {
        return false;
    }
    let mut i: usize = 0;
    while i < p.len()
        invariant
            i <= p@.len() <= v@.len(),
            forall|k: int| 0 <= k < i ==> v@[k] == p@[k],
        decreases p@.len() - i,
    {
        if v[i] != p[i] {
            assert(v@.take(p@.len() as int)[i as int] != p@[i as int]);
            return false;
        }
        i = i + 1;
    }
    assert(v@.take(p@.len() as int) =~= p@);
    true
}

pub fn same(a: &Vec<char>, b: &Vec<char>) -> (r: bool)
    ensures
        r == (a@ == b@),
{
    if a.len() != b.len() {
        return false;
    }
    let r = starts_with(a, b);
    assert(a@.take(b@.len() as int) =~= a@);
    r
}

pub fn trim_start_v(v: &Vec<char>) -> (r: Vec<char>)
    ensures
        r@ == trim_start(v@),
{
    let n = count_lead_ws(v, 0, v.len());
    assert(v@.subrange(0, v@.len() as int) =~= v@);
    proof {
        lemma_lead_ws(v@);
    }
    tail(v, n)
}

pub fn trim_v(v: &Vec<char>) -> (r: Vec<char>)
    ensures
        r@ == trim(v@),
{
    let t = trim_start_v(v);
    let n = count_trail_ws(&t, 0, t.len());
    assert(t@.subrange(0, t@.len() as int) =~= t@);
    proof {
        lemma_trail_ws(t@);
    }
    slice_of(&t, 0, t.len() - n)
}

/// The UTF-8 byte length of the characters of `v`.
pub fn byte_len_of(v: &Vec<char>) -> (n: usize)
    requires
        byte_len(v@) <= usize::MAX,
    ensures
        n == byte_len(v@),
{
    assert(v@.subrange(0, v@.len() as int) =~= v@);
    utf8_len(v, 0, v.len())
}

pub fn string_from(v: &Vec<char>) -> (s: String)
    ensures
        s@ == v@,
{
    assert(v@.subrange(0, v@.len() as int) =~= v@);
    string_of(v, 0, v.len())
}

/// The first index `k >= i` at which `p` occurs in `s` (`str::find` with
/// a string pattern, in characters).
pub open spec fn find_seq(s: Seq<char>, p: Seq<char>, i: int) -> Option<int>
    decreases s.len() + 1 - i,
{
    if i < 0 || i + p.len() > s.len() {
        None
    } else if s.subrange(i, i + p.len()) == p {
        Some(i)
    } else {
        find_seq(s, p, i + 1)
    }
}

pub proof fn lemma_find_seq(s: Seq<char>, p: Seq<char>, i: int)
    requires
        0 <= i,
    ensures
        find_seq(s, p, i) matches Some(k) ==> i <= k && k + p.len() <= s.len(),
    decreases s.len() + 1 - i,
{
    if i + p.len() <= s.len() && s.subrange(i, i + p.len()) != p {
        lemma_find_seq(s, p, i + 1);
    }
}

/// Whether `p` occurs in `v` at index `i`.
fn occurs_at(v: &Vec<char>, p: &Vec<char>, i: usize) -> (r: bool)
    requires
        i + p@.len() <= v@.len(),
    ensures
        r == (v@.subrange(i as int, i + p@.len()) == p@),
{
    let n = v.len();
    let mut k: usize = 0;
    while k < p.len()
        invariant
            k <= p@.len(),
            i + p@.len() <= v@.len(),
            n == v@.len(),
            forall|j: int| 0 <= j < k ==> v@[i + j] == p@[j],
        decreases p@.len() - k,
    {
        let idx = i + k;
        if v[idx] != p[k] {
            assert(v@.subrange(i as int, i + p@.len())[k as int] != p@[k as int]);
            return false;
        }
        k = k + 1;
    }
    assert(v@.subrange(i as int, i + p@.len()) =~= p@);
    true
}

/// The first occurrence of `p` in `v`, as a character index.
pub fn find_str(v: &Vec<char>, p: &Vec<char>) -> (r: Option<usize>)
    ensures
        match r {
            Some(k) => find_seq(v@, p@, 0) == Some(k as int) && k + p@.len() <= v@.len(),
            None => find_seq(v@, p@, 0) is None,
        },
{
    proof {
        lemma_find_seq(v@, p@, 0);
    }
    if p.len() > v.len() {
        return None;
    }
    let mut i: usize = 0;
    let last = v.len() - p.len();
    loop
        invariant
            p@.len() <= v@.len(),
            last == v@.len() - p@.len(),
            i <= last,
            find_seq(v@, p@, 0) == find_seq(v@, p@, i as int),
        decreases last - i,
    {
        if occurs_at(v, p, i) {
            return Some(i);
        }
        if i == last {
            assert(find_seq(v@, p@, i + 1) is None);
            return None;
        }
        i = i + 1;
    }
}

/// The whitespace-separated words of `s[i..]` (`str::split_whitespace`).
pub open spec fn words_from(s: Seq<char>, i: int) -> Seq<Seq<char>>
    decreases s.len() - i,
{
    if i < 0 || i >= s.len() {
        seq![]
    } else if is_ws(s[i]) {
        words_from(s, i + 1)
    } else {
        let j = word_end(s, i);
        proof {
            lemma_word_end(s, i);
        }
        seq![s.subrange(i, j)] + words_from(s, j)
    }
}

pub open spec fn words(s: Seq<char>) -> Seq<Seq<char>> {
    words_from(s, 0)
}

/// The end of the run of non-whitespace characters that starts at `i`.
pub open spec fn word_end(s: Seq<char>, i: int) -> int
    decreases s.len() - i,
{
    if i < 0 || i >= s.len() || is_ws(s[i]) {
        i
    } else {
        word_end(s, i + 1)
    }
}

pub proof fn lemma_word_end(s: Seq<char>, i: int)
    requires
        0 <= i <= s.len(),
    ensures
        i <= word_end(s, i) <= s.len(),
        i < s.len() && !is_ws(s[i]) ==> i < word_end(s, i),
    decreases s.len() - i,
{
    if i < s.len() && !is_ws(s[i]) {
        lemma_word_end(s, i + 1);
    }
}

/// Every word of `s[i..]` is no longer in bytes than `s`.
pub proof fn lemma_words_byte_len(s: Seq<char>, i: int)
    requires
        0 <= i <= s.len(),
    ensures
        forall|k: int|
            0 <= k < words_from(s, i).len() ==> byte_len(#[trigger] words_from(s, i)[k]) <= byte_len(
                s,
            ),
    decreases s.len() - i,
{
    if i < s.len() {
        if is_ws(s[i]) {
            lemma_words_byte_len(s, i + 1);
            assert(words_from(s, i) == words_from(s, i + 1));
        } else {
            let j = word_end(s, i);
            lemma_word_end(s, i);
            lemma_words_byte_len(s, j);
            let w = s.subrange(i, j);
            lemma_byte_len_sub_general(s, i, j);
            let r = seq![w] + words_from(s, j);
            assert(words_from(s, i) == r);
            assert forall|k: int| 0 <= k < r.len() implies byte_len(#[trigger] r[k]) <= byte_len(s) by {
                if k > 0 {
                    assert(r[k] == words_from(s, j)[k - 1]);
                } else {
                    assert(r[k] == w);
                }
            }
        }
    }
}

/// A piece of `s` is no longer in bytes than `s`.
pub proof fn lemma_byte_len_sub_general(s: Seq<char>, a: int, b: int)
    requires
        0 <= a <= b <= s.len(),
    ensures
        byte_len(s.subrange(a, b)) <= byte_len(s),
{
    lemma_byte_len_concat(s.take(a), s.subrange(a, b));
    assert(s.take(a) + s.subrange(a, b) =~= s.take(b));
    lemma_byte_len_concat(s.take(b), s.skip(b));
    assert(s.take(b) + s.skip(b) =~= s);
}

/// Whether `c` occurs in `v` (`str::contains` with a character).
pub fn has_char(v: &Vec<char>, c: char) -> (r: bool)
    ensures
        r == v@.contains(c),
{
    proof {
        lemma_find_from(v@, c, 0);
    }
    let i = find_char(v, c);
    if i < v.len() {
        assert(v@[i as int] == c);
        true
    } else {
        assert forall|k: int| 0 <= k < v@.len() implies v@[k] != c by {}
        false
    }
}

/// `str::split_whitespace`.
pub fn split_whitespace(v: &Vec<char>) -> (r: Vec<Vec<char>>)
    ensures
        r@.map_values(|w: Vec<char>| w@) == words(v@),
{
    let mut r: Vec<Vec<char>> = Vec::new();
    let mut i: usize = 0;
    while i < v.len()
        invariant
            i <= v@.len(),
            r@.map_values(|w: Vec<char>| w@) + words_from(v@, i as int) == words(v@),
        decreases v@.len() - i,
    {
        if is_whitespace(v[i]) {
            i = i + 1;
        } else {
            proof {
                lemma_word_end(v@, i as int);
            }
            let mut j = i;
            while j < v.len() && !is_whitespace(v[j])
                invariant
                    i <= j <= v@.len(),
                    word_end(v@, i as int) == word_end(v@, j as int),
                decreases v@.len() - j,
            {
                j = j + 1;
            }
            let w = slice_of(v, i, j);
            let ghost before = r@.map_values(|w: Vec<char>| w@);
            r.push(w);
            assert(r@.map_values(|w: Vec<char>| w@) =~= before.push(v@.subrange(i as int, j as int)));
            assert(before.push(v@.subrange(i as int, j as int)) + words_from(v@, j as int) =~= before
                + words_from(v@, i as int));
            i = j;
        }
    }
    assert(words_from(v@, i as int) =~= seq![]);
    assert(r@.map_values(|w: Vec<char>| w@) + seq![] =~= r@.map_values(|w: Vec<char>| w@));
    r
}

} // verus!
