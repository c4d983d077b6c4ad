//! Expression evaluator with the semantics of QEMU's `get_expr()`.
//!
//! Grammar, from the lowest to the highest precedence:
//! 1. `+`, `-`
//! 2. `&`, `|`, `^`
//! 3. `*`, `/`, `%`
//! 4. unary `+`, `-`, `~`, parentheses, `'c'`, `$reg`, numbers
//!
//! Register references are resolved outside the evaluator: evaluation is
//! replayed with the answers received so far, and stops with
//! `EvalStep::NeedRegister` at the first reference that has no answer yet.
use vstd::prelude::*;
use vstd::string::{StringExecFns, StringSliceAdditionalSpecFns};
use vstd::utf8::{decode_utf8, valid_utf8};

use crate::commands::CmdError;
use crate::text::{push_char, push_str, trim, trimmed};

verus! {

/// The reply of `x-query-cpu-register`.
#[derive(Debug)]
pub struct CpuRegisterInfo {
    pub value: i64,
}

/// The arguments of the `x-query-cpu-register` QMP command.
#[allow(non_camel_case_types)]
#[derive(Debug)]
pub struct x_query_cpu_register {
    pub name: String,
    pub cpu: Option<i64>,
}

/// The kinds of evaluation error.
#[derive(Debug, Clone, Copy, PartialEq, Eq)]
pub enum ExprError {
    DivisionByZero,
    CloseParenExpected,
    CharConstantExpected,
    MissingQuote,
    EmptyRegisterName,
    NoConnection,
    UnknownRegister,
    InvalidHexNumber,
    NumberTooLarge,
    UnexpectedEnd,
}

/// Why the evaluation of a sub-expression stopped.
pub ghost enum Halt {
    Error(ExprError),
    NeedRegister(Seq<u8>),
    /// `i64::MIN / -1` or `i64::MIN % -1`: the division panics there, so
    /// `eval_expr` requires that it does not happen.
    Overflow,
}

/// The result of evaluating a sub-expression from a position.
pub ghost enum Parsed {
    Step { val: i64, pos: int, used: int },
    Halt(Halt),
}

/// The input of one evaluation: the text, whether a QMP connection
/// exists, and the register answers received so far, in the order in
/// which the references are reached.
pub ghost struct Env {
    pub s: Seq<u8>,
    pub connected: bool,
    pub answers: Seq<Option<i64>>,
}

pub open spec fn is_ascii_ws(b: u8) -> bool {
    b == 0x20 || b == 0x09 || b == 0x0a || b == 0x0c || b == 0x0d
}

pub open spec fn skip_ws(s: Seq<u8>, pos: int) -> int
    decreases s.len() - pos,
{
    if 0 <= pos < s.len() && is_ascii_ws(s[pos]) {
        skip_ws(s, pos + 1)
    } else {
        pos
    }
}

pub proof fn lemma_skip_ws(s: Seq<u8>, pos: int)
    requires
        0 <= pos <= s.len(),
    ensures
        pos <= skip_ws(s, pos) <= s.len(),
        skip_ws(s, pos) < s.len() ==> !is_ascii_ws(s[skip_ws(s, pos)]),
        forall|i: int| pos <= i < skip_ws(s, pos) ==> is_ascii_ws(#[trigger] s[i]),
    decreases s.len() - pos,
{
    if pos < s.len() && is_ascii_ws(s[pos]) {
        lemma_skip_ws(s, pos + 1);
    }
}

pub open spec fn is_radix_digit(b: u8, radix: nat) -> bool {
    if radix == 8 {
        0x30 <= b <= 0x37
    } else if radix == 10 {
        0x30 <= b <= 0x39
    } else {
        (0x30 <= b <= 0x39) || (0x41 <= b <= 0x46) || (0x61 <= b <= 0x66)
    }
}

pub open spec fn digit_value(b: u8) -> nat {
    if 0x30 <= b <= 0x39 {
        (b - 0x30) as nat
    } else if 0x41 <= b <= 0x46 {
        (b - 0x41 + 10) as nat
    } else {
        (b - 0x61 + 10) as nat
    }
}

/// The value of a string of digits in the given radix.
pub open spec fn digits_value(d: Seq<u8>, radix: nat) -> nat
    decreases d.len(),
{
    if d.len() == 0 {
        0
    } else {
        digits_value(d.drop_last(), radix) * radix + digit_value(d.last())
    }
}

/// The end of the run of digits of the given radix that starts at `pos`.
pub open spec fn scan_digits(s: Seq<u8>, pos: int, radix: nat) -> int
    decreases s.len() - pos,
{
    if 0 <= pos < s.len() && is_radix_digit(s[pos], radix) {
        scan_digits(s, pos + 1, radix)
    } else {
        pos
    }
}

pub proof fn lemma_scan_digits(s: Seq<u8>, pos: int, radix: nat)
    requires
        0 <= pos <= s.len(),
    ensures
        pos <= scan_digits(s, pos, radix) <= s.len(),
        scan_digits(s, pos, radix) < s.len() ==> !is_radix_digit(
            s[scan_digits(s, pos, radix)],
            radix,
        ),
        forall|i: int|
            pos <= i < scan_digits(s, pos, radix) ==> is_radix_digit(#[trigger] s[i], radix),
    decreases s.len() - pos,
{
    if pos < s.len() && is_radix_digit(s[pos], radix) {
        lemma_scan_digits(s, pos + 1, radix);
    }
}

/// Converting the digits `s[start..end]` the way `u64::from_str_radix` does.
pub open spec fn number_at(s: Seq<u8>, start: int, end: int, radix: nat, used: int) -> Parsed {
    let v = digits_value(s.subrange(start, end), radix);
    if v > u64::MAX {
        Parsed::Halt(Halt::Error(ExprError::NumberTooLarge))
    } else {
        Parsed::Step { val: (v as u64) as i64, pos: end, used }
    }
}

/// A numeric literal with C `strtoull` conventions: `0x` hex, a leading
/// `0` followed by an octal digit for octal, decimal otherwise.
pub open spec fn spec_parse_number(s: Seq<u8>, pos: int, used: int) -> Parsed {
    if pos >= s.len() {
        Parsed::Halt(Halt::Error(ExprError::UnexpectedEnd))
    } else if s[pos] == 0x30 && pos + 1 < s.len() && (s[pos + 1] == 0x78 || s[pos + 1] == 0x58) {
        let end = scan_digits(s, pos + 2, 16);
        if end == pos + 2 {
            Parsed::Halt(Halt::Error(ExprError::InvalidHexNumber))
        } else {
            number_at(s, pos + 2, end, 16, used)
        }
    } else if s[pos] == 0x30 && pos + 1 < s.len() && 0x30 <= s[pos + 1] <= 0x37 {
        number_at(s, pos, scan_digits(s, pos + 1, 8), 8, used)
    } else {
        let end = scan_digits(s, pos, 10);
        if end == pos {
            Parsed::Halt(Halt::Error(ExprError::UnexpectedEnd))
        } else {
            number_at(s, pos, end, 10, used)
        }
    }
}

pub open spec fn is_register_byte(b: u8) -> bool {
    (0x30 <= b <= 0x39) || (0x41 <= b <= 0x5a) || (0x61 <= b <= 0x7a) || b == 0x5f || b == 0x2e
}

pub open spec fn scan_register(s: Seq<u8>, pos: int) -> int
    decreases s.len() - pos,
{
    if 0 <= pos < s.len() && is_register_byte(s[pos]) {
        scan_register(s, pos + 1)
    } else {
        pos
    }
}

pub proof fn lemma_scan_register(s: Seq<u8>, pos: int)
    requires
        0 <= pos <= s.len(),
    ensures
        pos <= scan_register(s, pos) <= s.len(),
        scan_register(s, pos) < s.len() ==> !is_register_byte(s[scan_register(s, pos)]),
        forall|i: int| pos <= i < scan_register(s, pos) ==> is_register_byte(#[trigger] s[i]),
    decreases s.len() - pos,
{
    if pos < s.len() && is_register_byte(s[pos]) {
        lemma_scan_register(s, pos + 1);
    }
}

/// `$name`: `pos` is just after the `$`.
pub open spec fn spec_register(env: Env, pos: int, used: int) -> Parsed {
    let end = scan_register(env.s, pos);
    let after = skip_ws(env.s, end);
    if end == pos {
        Parsed::Halt(Halt::Error(ExprError::EmptyRegisterName))
    } else if !env.connected {
        Parsed::Halt(Halt::Error(ExprError::NoConnection))
    } else if used < 0 || used >= env.answers.len() {
        Parsed::Halt(Halt::NeedRegister(env.s.subrange(pos, end)))
    } else {
        match env.answers[used] {
            Some(v) => Parsed::Step { val: v, pos: after, used: used + 1 },
            None => Parsed::Halt(Halt::Error(ExprError::UnknownRegister)),
        }
    }
}

/// An ASCII letter, digit, `_` or `.`.
pub open spec fn is_name_byte(b: u8) -> bool {
    (0x30 <= b <= 0x39) || (0x41 <= b <= 0x5a) || (0x61 <= b <= 0x7a) || b == 0x5f || b == 0x2e
}

proof fn lemma_register_run(s: Seq<u8>, i: int, j: int)
    requires
        0 <= i <= j <= s.len(),
        forall|k: int| i <= k < j ==> is_name_byte(#[trigger] s[k]),
        j == s.len() || !is_name_byte(s[j]),
    ensures
        scan_register(s, i) == j,
    decreases j - i,
{
    if i < j {
        lemma_register_run(s, i + 1, j);
    }
}

/// The name of a register reference is the whole run of letters, digits,
/// `_` and `.` after the `$` (`r8`, `x0`, `xmm0`, `eflags.zf`): with no
/// answer yet, evaluation asks for exactly that name, whatever follows
/// it; answered, `$name` alone evaluates to the answer.
pub proof fn law_register_name_is_whole_run(name: Seq<u8>, rest: Seq<u8>, v: i64)
    requires
        name.len() > 0,
        forall|k: int| 0 <= k < name.len() ==> is_name_byte(#[trigger] name[k]),
        rest.len() == 0 || !is_name_byte(rest[0]),
    ensures
        spec_eval(Env { s: seq![0x24u8] + name + rest, connected: true, answers: seq![] })
            == EvalOutcome::NeedRegister(name),
        rest.len() == 0 ==> spec_eval(
            Env { s: seq![0x24u8] + name, connected: true, answers: seq![Some(v)] },
        ) == EvalOutcome::Value(v),
{
    let s = seq![0x24u8] + name + rest;
    let env = Env { s, connected: true, answers: seq![] };
    let m = 1 + name.len() as int;
    assert forall|k: int| 1 <= k < m implies is_name_byte(#[trigger] s[k]) by {
        assert(s[k] == name[k - 1]);
    }
    if rest.len() > 0 {
        assert(s[m] == rest[0]);
    }
    lemma_register_run(s, 1, m);
    assert(s[0] == 0x24u8);
    assert(skip_ws(s, 0) == 0);
    assert(s.subrange(1, m) =~= name);
    assert(spec_unary(env, 0, 0) == Parsed::Halt(Halt::NeedRegister(name)));
    assert(spec_prod(env, 0, 0) == Parsed::Halt(Halt::NeedRegister(name)));
    assert(spec_logic(env, 0, 0) == Parsed::Halt(Halt::NeedRegister(name)));
    assert(spec_sum(env, 0, 0) == Parsed::Halt(Halt::NeedRegister(name)));
    if rest.len() == 0 {
        let t = seq![0x24u8] + name;
        let env2 = Env { s: t, connected: true, answers: seq![Some(v)] };
        assert(t =~= s);
        let n = t.len() as int;
        lemma_register_run(t, 1, n);
        assert(skip_ws(t, 0) == 0);
        assert(skip_ws(t, n) == n);
        let st = Parsed::Step { val: v, pos: n, used: 1 };
        assert(spec_unary(env2, 0, 0) == st);
        assert(spec_prod_rest(env2, v, n, 1) == st);
        assert(spec_prod(env2, 0, 0) == st);
        assert(spec_logic_rest(env2, v, n, 1) == st);
        assert(spec_logic(env2, 0, 0) == st);
        assert(spec_sum_rest(env2, v, n, 1) == st);
        assert(spec_sum(env2, 0, 0) == st);
    }
}

/// `'c'`: `pos` is at the opening quote.
pub open spec fn spec_char_literal(s: Seq<u8>, pos: int, used: int) -> Parsed {
    if pos + 1 >= s.len() {
        Parsed::Halt(Halt::Error(ExprError::CharConstantExpected))
    } else if pos + 2 >= s.len() || s[pos + 2] != 0x27 {
        Parsed::Halt(Halt::Error(ExprError::MissingQuote))
    } else {
        Parsed::Step { val: s[pos + 1] as i64, pos: skip_ws(s, pos + 3), used }
    }
}

pub open spec fn advanced(r: Parsed, pos: int, len: int) -> bool {
    r matches Parsed::Step { pos: p, .. } ==> pos < p <= len
}

/// Unary operators and atoms.
pub open spec fn spec_unary(env: Env, pos: int, used: int) -> Parsed
    decreases env.s.len() - pos, 1int,
{
    let s = env.s;
    if pos < 0 || pos >= s.len() {
        Parsed::Halt(Halt::Error(ExprError::UnexpectedEnd))
    } else {
        let p1 = skip_ws(s, pos + 1);
        proof {
            lemma_skip_ws(s, pos + 1);
        }
        if s[pos] == 0x2b {
            spec_unary(env, p1, used)
        } else if s[pos] == 0x2d {
            match spec_unary(env, p1, used) {
                Parsed::Step { val, pos: p, used: u } => Parsed::Step {
                    val: 0i64.wrapping_sub(val),
                    pos: p,
                    used: u,
                },
                h => h,
            }
        } else if s[pos] == 0x7e {
            match spec_unary(env, p1, used) {
                Parsed::Step { val, pos: p, used: u } => Parsed::Step { val: !val, pos: p, used: u },
                h => h,
            }
        } else if s[pos] == 0x28 {
            match spec_sum(env, p1, used) {
                Parsed::Step { val, pos: p, used: u } => {
                    if 0 <= p < s.len() && s[p] == 0x29 {
                        Parsed::Step { val, pos: skip_ws(s, p + 1), used: u }
                    } else {
                        Parsed::Halt(Halt::Error(ExprError::CloseParenExpected))
                    }
                },
                h => h,
            }
        } else if s[pos] == 0x27 {
            spec_char_literal(s, pos, used)
        } else if s[pos] == 0x24 {
            spec_register(env, pos + 1, used)
        } else {
            match spec_parse_number(s, pos, used) {
                Parsed::Step { val, pos: p, used: u } => Parsed::Step {
                    val,
                    pos: skip_ws(s, p),
                    used: u,
                },
                h => h,
            }
        }
    }
}

/// The operator loop of `*`, `/`, `%` with accumulator `acc`.
pub open spec fn spec_prod_rest(env: Env, acc: i64, pos: int, used: int) -> Parsed
    decreases env.s.len() - pos, 2int,
{
    let s = env.s;
    if 0 <= pos < s.len() && (s[pos] == 0x2a || s[pos] == 0x2f || s[pos] == 0x25) {
        let p1 = skip_ws(s, pos + 1);
        proof {
            lemma_skip_ws(s, pos + 1);
        }
        match spec_unary(env, p1, used) {
            Parsed::Step { val, pos: p, used: u } => {
                let next = if s[pos] == 0x2a {
                    Some(acc.wrapping_mul(val))
                } else if val == 0 {
                    None
                } else if s[pos] == 0x2f {
                    acc.checked_div(val)
                } else {
                    acc.checked_rem(val)
                };
                if s[pos] != 0x2a && val == 0 {
                    Parsed::Halt(Halt::Error(ExprError::DivisionByZero))
                } else if !(pos < p <= s.len()) {
                    Parsed::Halt(Halt::Overflow)
                } else {
                    match next {
                        Some(n) => spec_prod_rest(env, n, p, u),
                        None => Parsed::Halt(Halt::Overflow),
                    }
                }
            },
            h => h,
        }
    } else {
        Parsed::Step { val: acc, pos, used }
    }
}

pub open spec fn spec_prod(env: Env, pos: int, used: int) -> Parsed
    decreases env.s.len() - pos, 2int,
{
    match spec_unary(env, pos, used) {
        Parsed::Step { val, pos: p, used: u } => if pos < p <= env.s.len() {
            spec_prod_rest(env, val, p, u)
        } else {
            Parsed::Halt(Halt::Overflow)
        },
        h => h,
    }
}

/// The operator loop of `&`, `|`, `^`.
pub open spec fn spec_logic_rest(env: Env, acc: i64, pos: int, used: int) -> Parsed
    decreases env.s.len() - pos, 3int,
{
    let s = env.s;
    if 0 <= pos < s.len() && (s[pos] == 0x26 || s[pos] == 0x7c || s[pos] == 0x5e) {
        let p1 = skip_ws(s, pos + 1);
        proof {
            lemma_skip_ws(s, pos + 1);
        }
        match spec_prod(env, p1, used) {
            Parsed::Step { val, pos: p, used: u } => {
                let n = if s[pos] == 0x26 {
                    acc & val
                } else if s[pos] == 0x7c {
                    acc | val
                } else {
                    acc ^ val
                };
                if pos < p <= s.len() {
                    spec_logic_rest(env, n, p, u)
                } else {
                    Parsed::Halt(Halt::Overflow)
                }
            },
            h => h,
        }
    } else {
        Parsed::Step { val: acc, pos, used }
    }
}

pub open spec fn spec_logic(env: Env, pos: int, used: int) -> Parsed
    decreases env.s.len() - pos, 3int,
{
    match spec_prod(env, pos, used) {
        Parsed::Step { val, pos: p, used: u } => if pos < p <= env.s.len() {
            spec_logic_rest(env, val, p, u)
        } else {
            Parsed::Halt(Halt::Overflow)
        },
        h => h,
    }
}

/// The operator loop of `+`, `-`.
pub open spec fn spec_sum_rest(env: Env, acc: i64, pos: int, used: int) -> Parsed
    decreases env.s.len() - pos, 4int,
{
    let s = env.s;
    if 0 <= pos < s.len() && (s[pos] == 0x2b || s[pos] == 0x2d) {
        let p1 = skip_ws(s, pos + 1);
        proof {
            lemma_skip_ws(s, pos + 1);
        }
        match spec_logic(env, p1, used) {
            Parsed::Step { val, pos: p, used: u } => {
                let n = if s[pos] == 0x2b {
                    acc.wrapping_add(val)
                } else {
                    acc.wrapping_sub(val)
                };
                if pos < p <= s.len() {
                    spec_sum_rest(env, n, p, u)
                } else {
                    Parsed::Halt(Halt::Overflow)
                }
            },
            h => h,
        }
    } else {
        Parsed::Step { val: acc, pos, used }
    }
}

pub open spec fn spec_sum(env: Env, pos: int, used: int) -> Parsed
    decreases env.s.len() - pos, 4int,
{
    match spec_logic(env, pos, used) {
        Parsed::Step { val, pos: p, used: u } => if pos < p <= env.s.len() {
            spec_sum_rest(env, val, p, u)
        } else {
            Parsed::Halt(Halt::Overflow)
        },
        h => h,
    }
}

/// Every sub-evaluation that succeeds consumes input: the guards of the
/// operator loops above never fail.
pub proof fn lemma_unary_progress(env: Env, pos: int, used: int)
    requires
        0 <= pos <= env.s.len(),
    ensures
        advanced(spec_unary(env, pos, used), pos, env.s.len() as int),
    decreases env.s.len() - pos, 1int,
{
    let s = env.s;
    if pos < s.len() {
        let p1 = skip_ws(s, pos + 1);
        lemma_skip_ws(s, pos + 1);
        if s[pos] == 0x2b || s[pos] == 0x2d || s[pos] == 0x7e {
            lemma_unary_progress(env, p1, used);
        } else if s[pos] == 0x28 {
            lemma_sum_progress(env, p1, used);
            if let Parsed::Step { pos: p, .. } = spec_sum(env, p1, used) {
                if p < s.len() {
                    lemma_skip_ws(s, p + 1);
                }
            }
        } else if s[pos] == 0x27 {
            if pos + 2 < s.len() {
                lemma_skip_ws(s, pos + 3);
            }
        } else if s[pos] == 0x24 {
            lemma_scan_register(s, pos + 1);
            lemma_skip_ws(s, scan_register(s, pos + 1));
        } else {
            lemma_scan_digits(s, pos, 10);
            if pos + 2 <= s.len() {
                lemma_scan_digits(s, pos + 1, 8);
            }
            if pos + 2 <= s.len() {
                lemma_scan_digits(s, pos + 2, 16);
            }
            if let Parsed::Step { pos: p, .. } = spec_parse_number(s, pos, used) {
                lemma_skip_ws(s, p);
            }
        }
    }
}

pub proof fn lemma_prod_progress(env: Env, pos: int, used: int)
    requires
        0 <= pos <= env.s.len(),
    ensures
        advanced(spec_prod(env, pos, used), pos, env.s.len() as int),
    decreases env.s.len() - pos, 2int,
{
    lemma_unary_progress(env, pos, used);
    if let Parsed::Step { val, pos: p, used: u } = spec_unary(env, pos, used) {
        lemma_prod_rest_progress(env, val, p, u);
    }
}

pub proof fn lemma_prod_rest_progress(env: Env, acc: i64, pos: int, used: int)
    requires
        0 <= pos <= env.s.len(),
    ensures
        spec_prod_rest(env, acc, pos, used) matches Parsed::Step { pos: p, .. } ==> pos <= p
            <= env.s.len(),
    decreases env.s.len() - pos, 2int,
{
    let s = env.s;
    if pos < s.len() && (s[pos] == 0x2a || s[pos] == 0x2f || s[pos] == 0x25) {
        let p1 = skip_ws(s, pos + 1);
        lemma_skip_ws(s, pos + 1);
        lemma_unary_progress(env, p1, used);
        if let Parsed::Step { val, pos: p, used: u } = spec_unary(env, p1, used) {
            let next = if s[pos] == 0x2a {
                Some(acc.wrapping_mul(val))
            } else if val == 0 {
                None
            } else if s[pos] == 0x2f {
                acc.checked_div(val)
            } else {
                acc.checked_rem(val)
            };
            if let Some(n) = next {
                lemma_prod_rest_progress(env, n, p, u);
            }
        }
    }
}

pub proof fn lemma_logic_progress(env: Env, pos: int, used: int)
    requires
        0 <= pos <= env.s.len(),
    ensures
        advanced(spec_logic(env, pos, used), pos, env.s.len() as int),
    decreases env.s.len() - pos, 3int,
{
    lemma_prod_progress(env, pos, used);
    if let Parsed::Step { val, pos: p, used: u } = spec_prod(env, pos, used) {
        lemma_logic_rest_progress(env, val, p, u);
    }
}

pub proof fn lemma_logic_rest_progress(env: Env, acc: i64, pos: int, used: int)
    requires
        0 <= pos <= env.s.len(),
    ensures
        spec_logic_rest(env, acc, pos, used) matches Parsed::Step { pos: p, .. } ==> pos <= p
            <= env.s.len(),
    decreases env.s.len() - pos, 3int,
{
    let s = env.s;
    if pos < s.len() && (s[pos] == 0x26 || s[pos] == 0x7c || s[pos] == 0x5e) {
        let p1 = skip_ws(s, pos + 1);
        lemma_skip_ws(s, pos + 1);
        lemma_prod_progress(env, p1, used);
        if let Parsed::Step { val, pos: p, used: u } = spec_prod(env, p1, used) {
            let n = if s[pos] == 0x26 {
                acc & val
            } else if s[pos] == 0x7c {
                acc | val
            } else {
                acc ^ val
            };
            lemma_logic_rest_progress(env, n, p, u);
        }
    }
}

pub proof fn lemma_sum_progress(env: Env, pos: int, used: int)
    requires
        0 <= pos <= env.s.len(),
    ensures
        advanced(spec_sum(env, pos, used), pos, env.s.len() as int),
    decreases env.s.len() - pos, 4int,
{
    lemma_logic_progress(env, pos, used);
    if let Parsed::Step { val, pos: p, used: u } = spec_logic(env, pos, used) {
        lemma_sum_rest_progress(env, val, p, u);
    }
}

pub proof fn lemma_sum_rest_progress(env: Env, acc: i64, pos: int, used: int)
    requires
        0 <= pos <= env.s.len(),
    ensures
        spec_sum_rest(env, acc, pos, used) matches Parsed::Step { pos: p, .. } ==> pos <= p
            <= env.s.len(),
    decreases env.s.len() - pos, 4int,
{
    let s = env.s;
    if pos < s.len() && (s[pos] == 0x2b || s[pos] == 0x2d) {
        let p1 = skip_ws(s, pos + 1);
        lemma_skip_ws(s, pos + 1);
        lemma_logic_progress(env, p1, used);
        if let Parsed::Step { val, pos: p, used: u } = spec_logic(env, p1, used) {
            let n = if s[pos] == 0x2b {
                acc.wrapping_add(val)
            } else {
                acc.wrapping_sub(val)
            };
            lemma_sum_rest_progress(env, n, p, u);
        }
    }
}

pub open spec fn extended(env: Env, extra: Seq<Option<i64>>) -> Env {
    Env { s: env.s, connected: env.connected, answers: env.answers + extra }
}

pub open spec fn needs_register(r: Parsed) -> bool {
    r matches Parsed::Halt(Halt::NeedRegister(_))
}

proof fn lemma_unary_replay(env: Env, extra: Seq<Option<i64>>, pos: int, used: int)
    requires
        0 <= pos <= env.s.len(),
        0 <= used,
        !needs_register(spec_unary(env, pos, used)),
    ensures
        spec_unary(extended(env, extra), pos, used) == spec_unary(env, pos, used),
    decreases env.s.len() - pos, 1int,
{
    let s = env.s;
    if pos < s.len() {
        let p1 = skip_ws(s, pos + 1);
        lemma_skip_ws(s, pos + 1);
        if s[pos] == 0x2b || s[pos] == 0x2d || s[pos] == 0x7e {
            lemma_unary_replay(env, extra, p1, used);
        } else if s[pos] == 0x28 {
            lemma_sum_replay(env, extra, p1, used);
        } else if s[pos] == 0x24 {
            let e2 = extended(env, extra);
            if 0 <= used < env.answers.len() {
                assert(e2.answers[used] == env.answers[used]);
            }
        }
    }
}

proof fn lemma_prod_rest_replay(env: Env, extra: Seq<Option<i64>>, acc: i64, pos: int, used: int)
    requires
        0 <= pos <= env.s.len(),
        0 <= used,
        !needs_register(spec_prod_rest(env, acc, pos, used)),
    ensures
        spec_prod_rest(extended(env, extra), acc, pos, used) == spec_prod_rest(env, acc, pos, used),
    decreases env.s.len() - pos, 2int,
{
    let s = env.s;
    if pos < s.len() && (s[pos] == 0x2a || s[pos] == 0x2f || s[pos] == 0x25) {
        let p1 = skip_ws(s, pos + 1);
        lemma_skip_ws(s, pos + 1);
        lemma_unary_replay(env, extra, p1, used);
        lemma_unary_used(env, p1, used);
        if let Parsed::Step { val, pos: p, used: u } = spec_unary(env, p1, used) {
            let next = if s[pos] == 0x2a {
                Some(acc.wrapping_mul(val))
            } else if val == 0 {
                None
            } else if s[pos] == 0x2f {
                acc.checked_div(val)
            } else {
                acc.checked_rem(val)
            };
            if let Some(n) = next {
                if pos < p <= s.len() {
                    lemma_prod_rest_replay(env, extra, n, p, u);
                }
            }
        }
    }
}

proof fn lemma_prod_replay(env: Env, extra: Seq<Option<i64>>, pos: int, used: int)
    requires
        0 <= pos <= env.s.len(),
        0 <= used,
        !needs_register(spec_prod(env, pos, used)),
    ensures
        spec_prod(extended(env, extra), pos, used) == spec_prod(env, pos, used),
    decreases env.s.len() - pos, 2int,
{
    lemma_unary_replay(env, extra, pos, used);
    lemma_unary_used(env, pos, used);
    if let Parsed::Step { val, pos: p, used: u } = spec_unary(env, pos, used) {
        if pos < p <= env.s.len() {
            lemma_prod_rest_replay(env, extra, val, p, u);
        }
    }
}

proof fn lemma_logic_rest_replay(env: Env, extra: Seq<Option<i64>>, acc: i64, pos: int, used: int)
    requires
        0 <= pos <= env.s.len(),
        0 <= used,
        !needs_register(spec_logic_rest(env, acc, pos, used)),
    ensures
        spec_logic_rest(extended(env, extra), acc, pos, used) == spec_logic_rest(env, acc, pos, used),
    decreases env.s.len() - pos, 3int,
{
    let s = env.s;
    if pos < s.len() && (s[pos] == 0x26 || s[pos] == 0x7c || s[pos] == 0x5e) {
        let p1 = skip_ws(s, pos + 1);
        lemma_skip_ws(s, pos + 1);
        lemma_prod_replay(env, extra, p1, used);
        lemma_prod_used(env, p1, used);
        if let Parsed::Step { val, pos: p, used: u } = spec_prod(env, p1, used) {
            let n = if s[pos] == 0x26 {
                acc & val
            } else if s[pos] == 0x7c {
                acc | val
            } else {
                acc ^ val
            };
            if pos < p <= s.len() {
                lemma_logic_rest_replay(env, extra, n, p, u);
            }
        }
    }
}

proof fn lemma_logic_replay(env: Env, extra: Seq<Option<i64>>, pos: int, used: int)
    requires
        0 <= pos <= env.s.len(),
        0 <= used,
        !needs_register(spec_logic(env, pos, used)),
    ensures
        spec_logic(extended(env, extra), pos, used) == spec_logic(env, pos, used),
    decreases env.s.len() - pos, 3int,
{
    lemma_prod_replay(env, extra, pos, used);
    lemma_prod_used(env, pos, used);
    if let Parsed::Step { val, pos: p, used: u } = spec_prod(env, pos, used) {
        if pos < p <= env.s.len() {
            lemma_logic_rest_replay(env, extra, val, p, u);
        }
    }
}

proof fn lemma_sum_rest_replay(env: Env, extra: Seq<Option<i64>>, acc: i64, pos: int, used: int)
    requires
        0 <= pos <= env.s.len(),
        0 <= used,
        !needs_register(spec_sum_rest(env, acc, pos, used)),
    ensures
        spec_sum_rest(extended(env, extra), acc, pos, used) == spec_sum_rest(env, acc, pos, used),
    decreases env.s.len() - pos, 4int,
{
    let s = env.s;
    if pos < s.len() && (s[pos] == 0x2b || s[pos] == 0x2d) {
        let p1 = skip_ws(s, pos + 1);
        lemma_skip_ws(s, pos + 1);
        lemma_logic_replay(env, extra, p1, used);
        lemma_logic_used(env, p1, used);
        if let Parsed::Step { val, pos: p, used: u } = spec_logic(env, p1, used) {
            let n = if s[pos] == 0x2b {
                acc.wrapping_add(val)
            } else {
                acc.wrapping_sub(val)
            };
            if pos < p <= s.len() {
                lemma_sum_rest_replay(env, extra, n, p, u);
            }
        }
    }
}

proof fn lemma_sum_replay(env: Env, extra: Seq<Option<i64>>, pos: int, used: int)
    requires
        0 <= pos <= env.s.len(),
        0 <= used,
        !needs_register(spec_sum(env, pos, used)),
    ensures
        spec_sum(extended(env, extra), pos, used) == spec_sum(env, pos, used),
    decreases env.s.len() - pos, 4int,
{
    lemma_logic_replay(env, extra, pos, used);
    lemma_logic_used(env, pos, used);
    if let Parsed::Step { val, pos: p, used: u } = spec_logic(env, pos, used) {
        if pos < p <= env.s.len() {
            lemma_sum_rest_replay(env, extra, val, p, u);
        }
    }
}

pub open spec fn used_ok(r: Parsed, used: int) -> bool {
    r matches Parsed::Step { used: u, .. } ==> used <= u
}

proof fn lemma_unary_used(env: Env, pos: int, used: int)
    requires
        0 <= pos <= env.s.len(),
    ensures
        used_ok(spec_unary(env, pos, used), used),
    decreases env.s.len() - pos, 1int,
{
    let s = env.s;
    if pos < s.len() {
        let p1 = skip_ws(s, pos + 1);
        lemma_skip_ws(s, pos + 1);
        if s[pos] == 0x2b || s[pos] == 0x2d || s[pos] == 0x7e {
            lemma_unary_used(env, p1, used);
        } else if s[pos] == 0x28 {
            lemma_sum_used(env, p1, used);
        }
    }
}

proof fn lemma_prod_rest_used(env: Env, acc: i64, pos: int, used: int)
    requires
        0 <= pos <= env.s.len(),
    ensures
        used_ok(spec_prod_rest(env, acc, pos, used), used),
    decreases env.s.len() - pos, 2int,
{
    let s = env.s;
    if pos < s.len() && (s[pos] == 0x2a || s[pos] == 0x2f || s[pos] == 0x25) {
        let p1 = skip_ws(s, pos + 1);
        lemma_skip_ws(s, pos + 1);
        lemma_unary_used(env, p1, used);
        if let Parsed::Step { val, pos: p, used: u } = spec_unary(env, p1, used) {
            let next = if s[pos] == 0x2a {
                Some(acc.wrapping_mul(val))
            } else if val == 0 {
                None
            } else if s[pos] == 0x2f {
                acc.checked_div(val)
            } else {
                acc.checked_rem(val)
            };
            if let Some(n) = next {
                if pos < p <= s.len() {
                    lemma_prod_rest_used(env, n, p, u);
                }
            }
        }
    }
}

proof fn lemma_prod_used(env: Env, pos: int, used: int)
    requires
        0 <= pos <= env.s.len(),
    ensures
        used_ok(spec_prod(env, pos, used), used),
    decreases env.s.len() - pos, 2int,
{
    lemma_unary_used(env, pos, used);
    if let Parsed::Step { val, pos: p, used: u } = spec_unary(env, pos, used) {
        if pos < p <= env.s.len() {
            lemma_prod_rest_used(env, val, p, u);
        }
    }
}

proof fn lemma_logic_rest_used(env: Env, acc: i64, pos: int, used: int)
    requires
        0 <= pos <= env.s.len(),
    ensures
        used_ok(spec_logic_rest(env, acc, pos, used), used),
    decreases env.s.len() - pos, 3int,
{
    let s = env.s;
    if pos < s.len() && (s[pos] == 0x26 || s[pos] == 0x7c || s[pos] == 0x5e) {
        let p1 = skip_ws(s, pos + 1);
        lemma_skip_ws(s, pos + 1);
        lemma_prod_used(env, p1, used);
        if let Parsed::Step { val, pos: p, used: u } = spec_prod(env, p1, used) {
            let n = if s[pos] == 0x26 {
                acc & val
            } else if s[pos] == 0x7c {
                acc | val
            } else {
                acc ^ val
            };
            if pos < p <= s.len() {
                lemma_logic_rest_used(env, n, p, u);
            }
        }
    }
}

proof fn lemma_logic_used(env: Env, pos: int, used: int)
    requires
        0 <= pos <= env.s.len(),
    ensures
        used_ok(spec_logic(env, pos, used), used),
    decreases env.s.len() - pos, 3int,
{
    lemma_prod_used(env, pos, used);
    if let Parsed::Step { val, pos: p, used: u } = spec_prod(env, pos, used) {
        if pos < p <= env.s.len() {
            lemma_logic_rest_used(env, val, p, u);
        }
    }
}

proof fn lemma_sum_rest_used(env: Env, acc: i64, pos: int, used: int)
    requires
        0 <= pos <= env.s.len(),
    ensures
        used_ok(spec_sum_rest(env, acc, pos, used), used),
    decreases env.s.len() - pos, 4int,
{
    let s = env.s;
    if pos < s.len() && (s[pos] == 0x2b || s[pos] == 0x2d) {
        let p1 = skip_ws(s, pos + 1);
        lemma_skip_ws(s, pos + 1);
        lemma_logic_used(env, p1, used);
        if let Parsed::Step { val, pos: p, used: u } = spec_logic(env, p1, used) {
            let n = if s[pos] == 0x2b {
                acc.wrapping_add(val)
            } else {
                acc.wrapping_sub(val)
            };
            if pos < p <= s.len() {
                lemma_sum_rest_used(env, n, p, u);
            }
        }
    }
}

proof fn lemma_sum_used(env: Env, pos: int, used: int)
    requires
        0 <= pos <= env.s.len(),
    ensures
        used_ok(spec_sum(env, pos, used), used),
    decreases env.s.len() - pos, 4int,
{
    lemma_logic_used(env, pos, used);
    if let Parsed::Step { val, pos: p, used: u } = spec_logic(env, pos, used) {
        if pos < p <= env.s.len() {
            lemma_sum_rest_used(env, val, p, u);
        }
    }
}

/// Replaying an evaluation with more register answers than it needed
/// gives the same outcome: once `eval_expr` has finished (it did not ask
/// for a register), answers appended later are never read.
pub proof fn law_eval_replay(env: Env, extra: Seq<Option<i64>>)
    requires
        !(spec_eval(env) is NeedRegister),
    ensures
        spec_eval(extended(env, extra)) == spec_eval(env),
{
    lemma_skip_ws(env.s, 0);
    lemma_sum_replay(env, extra, skip_ws(env.s, 0), 0);
}

/// Nothing in `env` can make the evaluation ask for a register: there is
/// no connection, or no `$` in the text.
pub open spec fn asks_nothing(env: Env) -> bool {
    !env.connected || !env.s.contains(0x24u8)
}

proof fn lemma_unary_asks_nothing(env: Env, pos: int, used: int)
    requires
        0 <= pos <= env.s.len(),
        asks_nothing(env),
    ensures
        !needs_register(spec_unary(env, pos, used)),
    decreases env.s.len() - pos, 1int,
{
    let s = env.s;
    if pos < s.len() {
        let p1 = skip_ws(s, pos + 1);
        lemma_skip_ws(s, pos + 1);
        if s[pos] == 0x2b || s[pos] == 0x2d || s[pos] == 0x7e {
            lemma_unary_asks_nothing(env, p1, used);
        } else if s[pos] == 0x28 {
            lemma_sum_asks_nothing(env, p1, used);
        } else if s[pos] == 0x24 {
            assert(s.contains(s[pos]));
        }
    }
}

proof fn lemma_prod_rest_asks_nothing(env: Env, acc: i64, pos: int, used: int)
    requires
        0 <= pos <= env.s.len(),
        asks_nothing(env),
    ensures
        !needs_register(spec_prod_rest(env, acc, pos, used)),
    decreases env.s.len() - pos, 2int,
{
    let s = env.s;
    if pos < s.len() && (s[pos] == 0x2a || s[pos] == 0x2f || s[pos] == 0x25) {
        let p1 = skip_ws(s, pos + 1);
        lemma_skip_ws(s, pos + 1);
        lemma_unary_asks_nothing(env, p1, used);
        if let Parsed::Step { val, pos: p, used: u } = spec_unary(env, p1, used) {
            let next = if s[pos] == 0x2a {
                Some(acc.wrapping_mul(val))
            } else if val == 0 {
                None
            } else if s[pos] == 0x2f {
                acc.checked_div(val)
            } else {
                acc.checked_rem(val)
            };
            if let Some(n) = next {
                if pos < p <= s.len() {
                    lemma_prod_rest_asks_nothing(env, n, p, u);
                }
            }
        }
    }
}

proof fn lemma_prod_asks_nothing(env: Env, pos: int, used: int)
    requires
        0 <= pos <= env.s.len(),
        asks_nothing(env),
    ensures
        !needs_register(spec_prod(env, pos, used)),
    decreases env.s.len() - pos, 2int,
{
    lemma_unary_asks_nothing(env, pos, used);
    if let Parsed::Step { val, pos: p, used: u } = spec_unary(env, pos, used) {
        if pos < p <= env.s.len() {
            lemma_prod_rest_asks_nothing(env, val, p, u);
        }
    }
}

proof fn lemma_logic_rest_asks_nothing(env: Env, acc: i64, pos: int, used: int)
    requires
        0 <= pos <= env.s.len(),
        asks_nothing(env),
    ensures
        !needs_register(spec_logic_rest(env, acc, pos, used)),
    decreases env.s.len() - pos, 3int,
{
    let s = env.s;
    if pos < s.len() && (s[pos] == 0x26 || s[pos] == 0x7c || s[pos] == 0x5e) {
        let p1 = skip_ws(s, pos + 1);
        lemma_skip_ws(s, pos + 1);
        lemma_prod_asks_nothing(env, p1, used);
        if let Parsed::Step { val, pos: p, used: u } = spec_prod(env, p1, used) {
            let n = if s[pos] == 0x26 {
                acc & val
            } else if s[pos] == 0x7c {
                acc | val
            } else {
                acc ^ val
            };
            if pos < p <= s.len() {
                lemma_logic_rest_asks_nothing(env, n, p, u);
            }
        }
    }
}

proof fn lemma_logic_asks_nothing(env: Env, pos: int, used: int)
    requires
        0 <= pos <= env.s.len(),
        asks_nothing(env),
    ensures
        !needs_register(spec_logic(env, pos, used)),
    decreases env.s.len() - pos, 3int,
{
    lemma_prod_asks_nothing(env, pos, used);
    if let Parsed::Step { val, pos: p, used: u } = spec_prod(env, pos, used) {
        if pos < p <= env.s.len() {
            lemma_logic_rest_asks_nothing(env, val, p, u);
        }
    }
}

proof fn lemma_sum_rest_asks_nothing(env: Env, acc: i64, pos: int, used: int)
    requires
        0 <= pos <= env.s.len(),
        asks_nothing(env),
    ensures
        !needs_register(spec_sum_rest(env, acc, pos, used)),
    decreases env.s.len() - pos, 4int,
{
    let s = env.s;
    if pos < s.len() && (s[pos] == 0x2b || s[pos] == 0x2d) {
        let p1 = skip_ws(s, pos + 1);
        lemma_skip_ws(s, pos + 1);
        lemma_logic_asks_nothing(env, p1, used);
        if let Parsed::Step { val, pos: p, used: u } = spec_logic(env, p1, used) {
            let n = if s[pos] == 0x2b {
                acc.wrapping_add(val)
            } else {
                acc.wrapping_sub(val)
            };
            if pos < p <= s.len() {
                lemma_sum_rest_asks_nothing(env, n, p, u);
            }
        }
    }
}

proof fn lemma_sum_asks_nothing(env: Env, pos: int, used: int)
    requires
        0 <= pos <= env.s.len(),
        asks_nothing(env),
    ensures
        !needs_register(spec_sum(env, pos, used)),
    decreases env.s.len() - pos, 4int,
{
    lemma_logic_asks_nothing(env, pos, used);
    if let Parsed::Step { val, pos: p, used: u } = spec_logic(env, pos, used) {
        if pos < p <= env.s.len() {
            lemma_sum_rest_asks_nothing(env, val, p, u);
        }
    }
}

/// Evaluation waits for a register value only when it can get one:
/// without a QMP connection, or with no `$` in the text, it always ends
/// with a value or an error.
pub proof fn law_eval_needs_no_register(env: Env)
    requires
        asks_nothing(env),
    ensures
        !(spec_eval(env) is NeedRegister),
{
    lemma_skip_ws(env.s, 0);
    lemma_sum_asks_nothing(env, skip_ws(env.s, 0), 0);
}

pub open spec fn no_overflow(r: Parsed) -> bool {
    !(r matches Parsed::Halt(Halt::Overflow))
}

/// Why an executable sub-evaluation stopped.
pub enum Stop {
    Error(ExprError),
    NeedRegister(Vec<u8>),
}

pub open spec fn res_view(r: Result<(i64, usize, usize), Stop>) -> Parsed {
    match r {
        Ok((v, p, u)) => Parsed::Step { val: v, pos: p as int, used: u as int },
        Err(Stop::Error(e)) => Parsed::Halt(Halt::Error(e)),
        Err(Stop::NeedRegister(n)) => Parsed::Halt(Halt::NeedRegister(n@)),
    }
}

pub open spec fn step_ok(r: Result<(i64, usize, usize), Stop>, pos: int, used: int, len: int, n: int) -> bool {
    r matches Ok((_, p, u)) ==> pos < p <= len && used <= u <= n
}

proof fn lemma_digits_monotone(d: Seq<u8>, i: int, radix: nat)
    requires
        0 <= i <= d.len(),
        radix >= 1,
    ensures
        digits_value(d.take(i), radix) <= digits_value(d, radix),
    decreases d.len(),
{
    if i < d.len() {
        lemma_digits_monotone(d.drop_last(), i, radix);
        assert(d.drop_last().take(i) =~= d.take(i));
        let x = digits_value(d.drop_last(), radix);
        assert(x * radix >= x) by (nonlinear_arith)
            requires
                radix >= 1,
                x >= 0,
        ;
    } else {
        assert(d.take(i) =~= d);
    }
}

fn is_digit_of(b: u8, radix: u64) -> (r: bool)
    requires
        radix == 8 || radix == 10 || radix == 16,
    ensures
        r == is_radix_digit(b, radix as nat),
{
    if radix == 8 {
        0x30 <= b && b <= 0x37
    } else if radix == 10 {
        0x30 <= b && b <= 0x39
    } else {
        (0x30 <= b && b <= 0x39) || (0x41 <= b && b <= 0x46) || (0x61 <= b && b <= 0x66)
    }
}

fn digit_of(b: u8) -> (r: u64)
    requires
        is_radix_digit(b, 16),
    ensures
        r == digit_value(b),
{
    if 0x30 <= b && b <= 0x39 {
        (b - 0x30) as u64
    } else if 0x41 <= b && b <= 0x46 {
        (b - 0x41 + 10) as u64
    } else {
        (b - 0x61 + 10) as u64
    }
}

/// Evaluation state: the input, whether a connection exists and the
/// register answers received so far.
struct ExprParser<'a> {
    input: &'a [u8],
    connected: bool,
    answers: &'a [Option<i64>],
}

impl<'a> ExprParser<'a> {
    spec fn env(&self) -> Env {
        Env { s: self.input@, connected: self.connected, answers: self.answers@ }
    }

    fn skip_whitespace(&self, pos: usize) -> (r: usize)
        requires
            pos <= self.input@.len(),
        ensures
            r == skip_ws(self.input@, pos as int),
            pos <= r <= self.input@.len(),
    {
        proof {
            lemma_skip_ws(self.input@, pos as int);
        }
        let mut p = pos;
        while p < self.input.len() && (self.input[p] == 0x20 || self.input[p] == 0x09
            || self.input[p] == 0x0a || self.input[p] == 0x0c || self.input[p] == 0x0d)
            invariant
                pos <= p <= self.input@.len(),
                skip_ws(self.input@, pos as int) == skip_ws(self.input@, p as int),
            decreases self.input@.len() - p,
        {
            p = p + 1;
        }
        p
    }

    fn scan_digits(&self, pos: usize, radix: u64) -> (r: usize)
        requires
            pos <= self.input@.len(),
            radix == 8 || radix == 10 || radix == 16,
        ensures
            r == scan_digits(self.input@, pos as int, radix as nat),
    {
        let mut p = pos;
        while p < self.input.len() && is_digit_of(self.input[p], radix)
            invariant
                pos <= p <= self.input@.len(),
                radix == 8 || radix == 10 || radix == 16,
                scan_digits(self.input@, pos as int, radix as nat) == scan_digits(
                    self.input@,
                    p as int,
                    radix as nat,
                ),
            decreases self.input@.len() - p,
        {
            p = p + 1;
        }
        p
    }

    /// The value of the digits `input[start..end]`, or `None` when it does
    /// not fit in `u64`.
    fn digits_to_u64(&self, start: usize, end: usize, radix: u64) -> (r: Option<u64>)
        requires
            start <= end <= self.input@.len(),
            radix == 8 || radix == 10 || radix == 16,
            forall|i: int| start <= i < end ==> is_radix_digit(#[trigger] self.input@[i], radix as nat),
        ensures
            r == (if digits_value(self.input@.subrange(start as int, end as int), radix as nat)
                > u64::MAX {
                None
            } else {
                Some(digits_value(self.input@.subrange(start as int, end as int), radix as nat) as u64)
            }),
    {
        let ghost d = self.input@.subrange(start as int, end as int);
        let mut v: u64 = 0;
        let mut i = start;
        assert(self.input@.subrange(start as int, start as int) =~= Seq::<u8>::empty());
        while i < end
            invariant
                start <= i <= end <= self.input@.len(),
                radix == 8 || radix == 10 || radix == 16,
                d == self.input@.subrange(start as int, end as int),
                v == digits_value(self.input@.subrange(start as int, i as int), radix as nat),
                forall|j: int| start <= j < end ==> is_radix_digit(#[trigger] self.input@[j], radix as nat),
            decreases end - i,
        {
            let ghost sub = self.input@.subrange(start as int, i + 1);
            assert(sub.drop_last() =~= self.input@.subrange(start as int, i as int));
            assert(sub.last() == self.input@[i as int]);
            assert(d.take(i + 1 - start) =~= sub);
            let dv = digit_of(self.input[i]);
            match v.checked_mul(radix) {
                Some(m) => match m.checked_add(dv) {
                    Some(n) => {
                        v = n;
                    },
                    None => {
                        proof {
                            lemma_digits_monotone(d, i + 1 - start, radix as nat);
                        }
                        return None;
                    },
                },
                None => {
                    proof {
                        lemma_digits_monotone(d, i + 1 - start, radix as nat);
                        assert(digits_value(sub, radix as nat) >= v * radix);
                    }
                    return None;
                },
            }
            i = i + 1;
        }
        Some(v)
    }

    fn number_at(&self, start: usize, end: usize, radix: u64, used: usize) -> (r: Result<
        (i64, usize, usize),
        Stop,
    >)
        requires
            start <= end <= self.input@.len(),
            radix == 8 || radix == 10 || radix == 16,
            forall|i: int| start <= i < end ==> is_radix_digit(#[trigger] self.input@[i], radix as nat),
        ensures
            res_view(r) == number_at(self.input@, start as int, end as int, radix as nat, used as int),
    {
        match self.digits_to_u64(start, end, radix) {
            Some(v) => Ok((v as i64, end, used)),
            None => Err(Stop::Error(ExprError::NumberTooLarge)),
        }
    }

    /// Parses a number with C `strtoull` conventions.
    fn parse_number(&self, pos: usize, used: usize) -> (r: Result<(i64, usize, usize), Stop>)
        requires
            pos <= self.input@.len(),
        ensures
            res_view(r) == spec_parse_number(self.input@, pos as int, used as int),
            step_ok(r, pos as int, used as int, self.input@.len() as int, used as int),
    {
        let s = self.input;
        if pos >= s.len() {
            return Err(Stop::Error(ExprError::UnexpectedEnd));
        }
        if s[pos] == 0x30 && pos + 1 < s.len() {
            let next = s[pos + 1];
            if next == 0x78 || next == 0x58 {
                let end = self.scan_digits(pos + 2, 16);
                proof {
                    lemma_scan_digits(s@, pos + 2, 16);
                }
                if end == pos + 2 {
                    return Err(Stop::Error(ExprError::InvalidHexNumber));
                }
                return self.number_at(pos + 2, end, 16, used);
            }
            if 0x30 <= next && next <= 0x37 {
                let end = self.scan_digits(pos + 1, 8);
                proof {
                    lemma_scan_digits(s@, pos + 1, 8);
                }
                return self.number_at(pos, end, 8, used);
            }
        }
        let end = self.scan_digits(pos, 10);
        proof {
            lemma_scan_digits(s@, pos as int, 10);
        }
        if end == pos {
            return Err(Stop::Error(ExprError::UnexpectedEnd));
        }
        self.number_at(pos, end, 10, used)
    }

    /// `$name`, with `pos` just after the `$`.
    fn register(&self, pos: usize, used: usize) -> (r: Result<(i64, usize, usize), Stop>)
        requires
            pos <= self.input@.len(),
            used <= self.answers@.len(),
        ensures
            res_view(r) == spec_register(self.env(), pos as int, used as int),
            step_ok(r, pos as int - 1, used as int, self.input@.len() as int, self.answers@.len() as int),
    {
        let s = self.input;
        proof {
            lemma_scan_register(s@, pos as int);
        }
        let mut end = pos;
        while end < s.len() && ((0x30 <= s[end] && s[end] <= 0x39) || (0x41 <= s[end] && s[end]
            <= 0x5a) || (0x61 <= s[end] && s[end] <= 0x7a) || s[end] == 0x5f || s[end] == 0x2e)
            invariant
                pos <= end <= s@.len(),
                scan_register(s@, pos as int) == scan_register(s@, end as int),
            decreases s@.len() - end,
        {
            end = end + 1;
        }
        let after = self.skip_whitespace(end);
        if end == pos {
            return Err(Stop::Error(ExprError::EmptyRegisterName));
        }
        if !self.connected {
            return Err(Stop::Error(ExprError::NoConnection));
        }
        if used >= self.answers.len() {
            let mut name: Vec<u8> = Vec::new();
            let mut i = pos;
            while i < end
                invariant
                    pos <= i <= end <= s@.len(),
                    name@ == s@.subrange(pos as int, i as int),
                decreases end - i,
            {
                name.push(s[i]);
                i = i + 1;
                assert(name@ =~= s@.subrange(pos as int, i as int));
            }
            return Err(Stop::NeedRegister(name));
        }
        match self.answers[used] {
            Some(v) => Ok((v, after, used + 1)),
            None => Err(Stop::Error(ExprError::UnknownRegister)),
        }
    }

    /// `'c'`, with `pos` at the opening quote.
    fn char_literal(&self, pos: usize, used: usize) -> (r: Result<(i64, usize, usize), Stop>)
        requires
            pos < self.input@.len(),
        ensures
            res_view(r) == spec_char_literal(self.input@, pos as int, used as int),
            step_ok(r, pos as int, used as int, self.input@.len() as int, used as int),
    {
        let s = self.input;
        if pos + 1 >= s.len() {
            return Err(Stop::Error(ExprError::CharConstantExpected));
        }
        let c = s[pos + 1];
        if pos + 2 >= s.len() || s[pos + 2] != 0x27 {
            return Err(Stop::Error(ExprError::MissingQuote));
        }
        let p = self.skip_whitespace(pos + 3);
        Ok((c as i64, p, used))
    }

    fn expr_unary(&self, pos: usize, used: usize) -> (r: Result<(i64, usize, usize), Stop>)
        requires
            pos <= self.input@.len(),
            used <= self.answers@.len(),
            no_overflow(spec_unary(self.env(), pos as int, used as int)),
        ensures
            res_view(r) == spec_unary(self.env(), pos as int, used as int),
            step_ok(r, pos as int, used as int, self.input@.len() as int, self.answers@.len() as int),
        decreases self.input@.len() - pos, 1int,
    {
        let s = self.input;
        if pos >= s.len() {
            return Err(Stop::Error(ExprError::UnexpectedEnd));
        }
        let c = s[pos];
        let p1 = self.skip_whitespace(pos + 1);
        if c == 0x2b {
            self.expr_unary(p1, used)
        } else if c == 0x2d {
            match self.expr_unary(p1, used) {
                Ok((v, p, u)) => Ok((0i64.wrapping_sub(v), p, u)),
                Err(e) => Err(e),
            }
        } else if c == 0x7e {
            match self.expr_unary(p1, used) {
                Ok((v, p, u)) => Ok((!v, p, u)),
                Err(e) => Err(e),
            }
        } else if c == 0x28 {
            match self.expr_sum(p1, used) {
                Ok((v, p, u)) => {
                    if p < s.len() && s[p] == 0x29 {
                        let p2 = self.skip_whitespace(p + 1);
                        Ok((v, p2, u))
                    } else {
                        Err(Stop::Error(ExprError::CloseParenExpected))
                    }
                },
                Err(e) => Err(e),
            }
        } else if c == 0x27 {
            self.char_literal(pos, used)
        } else if c == 0x24 {
            self.register(pos + 1, used)
        } else {
            match self.parse_number(pos, used) {
                Ok((v, p, u)) => {
                    let p2 = self.skip_whitespace(p);
                    Ok((v, p2, u))
                },
                Err(e) => Err(e),
            }
        }
    }

    fn expr_prod(&self, pos: usize, used: usize) -> (r: Result<(i64, usize, usize), Stop>)
        requires
            pos <= self.input@.len(),
            used <= self.answers@.len(),
            no_overflow(spec_prod(self.env(), pos as int, used as int)),
        ensures
            res_view(r) == spec_prod(self.env(), pos as int, used as int),
            step_ok(r, pos as int, used as int, self.input@.len() as int, self.answers@.len() as int),
        decreases self.input@.len() - pos, 2int,
    {
        let s = self.input;
        let (mut acc, mut p, mut u) = match self.expr_unary(pos, used) {
            Ok(t) => t,
            Err(e) => {
                return Err(e);
            },
        };
        loop
            invariant
                pos < p <= s@.len(),
                used <= u <= self.answers@.len(),
                s == self.input,
                spec_prod(self.env(), pos as int, used as int) == spec_prod_rest(
                    self.env(),
                    acc,
                    p as int,
                    u as int,
                ),
                no_overflow(spec_prod(self.env(), pos as int, used as int)),
            decreases s@.len() - p,
        {
            if p < s.len() && (s[p] == 0x2a || s[p] == 0x2f || s[p] == 0x25) {
                let op = s[p];
                let p1 = self.skip_whitespace(p + 1);
                let (v, p2, u2) = match self.expr_unary(p1, u) {
                    Ok(t) => t,
                    Err(e) => {
                        return Err(e);
                    },
                };
                if op == 0x2a {
                    acc = acc.wrapping_mul(v);
                } else {
                    if v == 0 {
                        return Err(Stop::Error(ExprError::DivisionByZero));
                    }
                    let next = if op == 0x2f {
                        acc.checked_div(v)
                    } else {
                        acc.checked_rem(v)
                    };
                    match next {
                        Some(n) => {
                            acc = n;
                        },
                        None => {
                            assert(false);
                            return Err(Stop::Error(ExprError::DivisionByZero));
                        },
                    }
                }
                p = p2;
                u = u2;
            } else {
                return Ok((acc, p, u));
            }
        }
    }

    fn expr_logic(&self, pos: usize, used: usize) -> (r: Result<(i64, usize, usize), Stop>)
        requires
            pos <= self.input@.len(),
            used <= self.answers@.len(),
            no_overflow(spec_logic(self.env(), pos as int, used as int)),
        ensures
            res_view(r) == spec_logic(self.env(), pos as int, used as int),
            step_ok(r, pos as int, used as int, self.input@.len() as int, self.answers@.len() as int),
        decreases self.input@.len() - pos, 3int,
    {
        let s = self.input;
        let (mut acc, mut p, mut u) = match self.expr_prod(pos, used) {
            Ok(t) => t,
            Err(e) => {
                return Err(e);
            },
        };
        loop
            invariant
                pos < p <= s@.len(),
                used <= u <= self.answers@.len(),
                s == self.input,
                spec_logic(self.env(), pos as int, used as int) == spec_logic_rest(
                    self.env(),
                    acc,
                    p as int,
                    u as int,
                ),
                no_overflow(spec_logic(self.env(), pos as int, used as int)),
            decreases s@.len() - p,
        {
            if p < s.len() && (s[p] == 0x26 || s[p] == 0x7c || s[p] == 0x5e) {
                let op = s[p];
                let p1 = self.skip_whitespace(p + 1);
                let (v, p2, u2) = match self.expr_prod(p1, u) {
                    Ok(t) => t,
                    Err(e) => {
                        return Err(e);
                    },
                };
                if op == 0x26 {
                    acc = acc & v;
                } else if op == 0x7c {
                    acc = acc | v;
                } else {
                    acc = acc ^ v;
                }
                p = p2;
                u = u2;
            } else {
                return Ok((acc, p, u));
            }
        }
    }

    fn expr_sum(&self, pos: usize, used: usize) -> (r: Result<(i64, usize, usize), Stop>)
        requires
            pos <= self.input@.len(),
            used <= self.answers@.len(),
            no_overflow(spec_sum(self.env(), pos as int, used as int)),
        ensures
            res_view(r) == spec_sum(self.env(), pos as int, used as int),
            step_ok(r, pos as int, used as int, self.input@.len() as int, self.answers@.len() as int),
        decreases self.input@.len() - pos, 4int,
    {
        let s = self.input;
        let (mut acc, mut p, mut u) = match self.expr_logic(pos, used) {
            Ok(t) => t,
            Err(e) => {
                return Err(e);
            },
        };
        loop
            invariant
                pos < p <= s@.len(),
                used <= u <= self.answers@.len(),
                s == self.input,
                spec_sum(self.env(), pos as int, used as int) == spec_sum_rest(
                    self.env(),
                    acc,
                    p as int,
                    u as int,
                ),
                no_overflow(spec_sum(self.env(), pos as int, used as int)),
            decreases s@.len() - p,
        {
            if p < s.len() && (s[p] == 0x2b || s[p] == 0x2d) {
                let op = s[p];
                let p1 = self.skip_whitespace(p + 1);
                let (v, p2, u2) = match self.expr_logic(p1, u) {
                    Ok(t) => t,
                    Err(e) => {
                        return Err(e);
                    },
                };
                if op == 0x2b {
                    acc = acc.wrapping_add(v);
                } else {
                    acc = acc.wrapping_sub(v);
                }
                p = p2;
                u = u2;
            } else {
                return Ok((acc, p, u));
            }
        }
    }
}


/// The outcome of evaluating a whole input line.
pub ghost enum EvalOutcome {
    Value(i64),
    Error(ExprError),
    /// The expression ended before the input: the position of the rest.
    Trailing(int),
    NeedRegister(Seq<u8>),
    Overflow,
}

/// The evaluation of a whole input: leading whitespace, an expression,
/// and nothing after it.
pub open spec fn spec_eval(env: Env) -> EvalOutcome {
    match spec_sum(env, skip_ws(env.s, 0), 0) {
        Parsed::Step { val, pos, .. } => if pos < env.s.len() {
            EvalOutcome::Trailing(pos)
        } else {
            EvalOutcome::Value(val)
        },
        Parsed::Halt(Halt::Error(e)) => EvalOutcome::Error(e),
        Parsed::Halt(Halt::NeedRegister(n)) => EvalOutcome::NeedRegister(n),
        Parsed::Halt(Halt::Overflow) => EvalOutcome::Overflow,
    }
}

/// The user-facing message of an evaluation error.
pub open spec fn error_message(e: ExprError) -> Seq<char> {
    match e {
        ExprError::DivisionByZero => "division by zero"@,
        ExprError::CloseParenExpected => "')' expected"@,
        ExprError::CharConstantExpected => "character constant expected"@,
        ExprError::MissingQuote => "missing terminating ' character"@,
        ExprError::EmptyRegisterName => "empty register name"@,
        ExprError::NoConnection => "register access requires a QMP connection"@,
        ExprError::UnknownRegister => "unknown register"@,
        ExprError::InvalidHexNumber => "invalid hex number"@,
        ExprError::NumberTooLarge => "number too large: number too large to fit in target type"@,
        ExprError::UnexpectedEnd => "unexpected end of expression"@,
    }
}

/// The text of the bytes from `pos` on, or `?` when they are not UTF-8.
pub open spec fn rest_text(s: Seq<u8>, pos: int) -> Seq<char> {
    let rest = s.subrange(pos, s.len() as int);
    if valid_utf8(rest) {
        decode_utf8(rest)
    } else {
        "?"@
    }
}

pub open spec fn trailing_message(s: Seq<u8>, pos: int) -> Seq<char> {
    "unexpected trailing input: '"@ + trim(rest_text(s, pos)) + "'"@
}

/// Characters of an ASCII byte string.
pub open spec fn ascii_chars(b: Seq<u8>) -> Seq<char> {
    Seq::new(b.len(), |i: int| b[i] as char)
}

/// One step of evaluation.
#[derive(Debug)]
pub enum EvalStep {
    /// The evaluation finished with a value or an error.
    Done(Result<i64, CmdError>),
    /// The next register reference that has no answer yet.
    NeedRegister(String),
}

pub fn expr_error_message(e: ExprError) -> (m: String)
    ensures
        m@ == error_message(e),
{
    match e {
        ExprError::DivisionByZero => String::from_str("division by zero"),
        ExprError::CloseParenExpected => String::from_str("')' expected"),
        ExprError::CharConstantExpected => String::from_str("character constant expected"),
        ExprError::MissingQuote => String::from_str("missing terminating ' character"),
        ExprError::EmptyRegisterName => String::from_str("empty register name"),
        ExprError::NoConnection => String::from_str("register access requires a QMP connection"),
        ExprError::UnknownRegister => String::from_str("unknown register"),
        ExprError::InvalidHexNumber => String::from_str("invalid hex number"),
        ExprError::NumberTooLarge => String::from_str(
            "number too large: number too large to fit in target type",
        ),
        ExprError::UnexpectedEnd => String::from_str("unexpected end of expression"),
    }
}

/// Decodes UTF-8 bytes (`std::str::from_utf8`): `None` when the bytes are
/// not valid UTF-8.
#[verifier::external_body]
pub(crate) fn utf8_text(b: &[u8]) -> (r: Option<&str>)
    ensures
        r is Some <==> valid_utf8(b@),
        r matches Some(t) ==> t@ == decode_utf8(b@),
{
    std::str::from_utf8(b).ok()
}

fn trailing_error(s: &[u8], pos: usize) -> (m: String)
    requires
        pos <= s@.len(),
    ensures
        m@ == trailing_message(s@, pos as int),
{
    let mut rest: Vec<u8> = Vec::new();
    let mut i = pos;
    while i < s.len()
        invariant
            pos <= i <= s@.len(),
            rest@ == s@.subrange(pos as int, i as int),
        decreases s@.len() - i,
    {
        rest.push(s[i]);
        i = i + 1;
        assert(rest@ =~= s@.subrange(pos as int, i as int));
    }
    let mut m = String::from_str("unexpected trailing input: '");
    match utf8_text(rest.as_slice()) {
        Some(t) => {
            let tt = trimmed(t);
            push_str(&mut m, tt.as_str());
        },
        None => {
            let tt = trimmed("?");
            push_str(&mut m, tt.as_str());
        },
    }
    push_str(&mut m, "'");
    m
}

/// The evaluation input made of a string and the register context.
pub open spec fn input_env(input: &str, connected: bool, answers: Seq<Option<i64>>) -> Env {
    Env { s: input.spec_bytes(), connected, answers }
}

/// Evaluates an expression, `get_expr()` style.
///
/// `connected` tells whether register references can be resolved at all;
/// `answers[i]` is the value of the `i`-th register reference reached
/// (`None` when the query failed).  When a reference is reached for which
/// no answer has been given yet, the result names that register; asking
/// again with its answer appended continues the evaluation.
pub fn eval_expr(input: &str, connected: bool, answers: &[Option<i64>]) -> (r: EvalStep)
    requires
        !(spec_eval(input_env(input, connected, answers@)) is Overflow),
    ensures
        match spec_eval(input_env(input, connected, answers@)) {
            EvalOutcome::Value(v) => r matches EvalStep::Done(Ok(x)) && x == v,
            EvalOutcome::Error(e) => r matches EvalStep::Done(Err(CmdError::Command(m))) && m@
                == error_message(e),
            EvalOutcome::Trailing(p) => r matches EvalStep::Done(Err(CmdError::Command(m))) && m@
                == trailing_message(input.spec_bytes(), p),
            EvalOutcome::NeedRegister(n) => r matches EvalStep::NeedRegister(name) && name@
                == ascii_chars(n),
            EvalOutcome::Overflow => false,
        },
{
    let bytes = input.as_bytes();
    let parser = ExprParser { input: bytes, connected, answers };
    proof {
        lemma_skip_ws(bytes@, 0);
    }
    let start = parser.skip_whitespace(0);
    match parser.expr_sum(start, 0) {
        Ok((v, pos, _)) => {
            if pos < bytes.len() {
                EvalStep::Done(Err(CmdError::Command(trailing_error(bytes, pos))))
            } else {
                EvalStep::Done(Ok(v))
            }
        },
        Err(Stop::Error(e)) => EvalStep::Done(Err(CmdError::Command(expr_error_message(e)))),
        Err(Stop::NeedRegister(n)) => {
            let mut name = String::new();
            let mut i: usize = 0;
            while i < n.len()
                invariant
                    i <= n@.len(),
                    name@ == ascii_chars(n@.take(i as int)),
                decreases n@.len() - i,
            {
                push_char(&mut name, n[i] as char);
                i = i + 1;
                assert(name@ =~= ascii_chars(n@.take(i as int)));
            }
            assert(n@.take(n@.len() as int) =~= n@);
            EvalStep::NeedRegister(name)
        },
    }
}

} // verus!
