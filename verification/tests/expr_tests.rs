use qemu_hmp::commands::CmdError;
use qemu_hmp::expr::{eval_expr, EvalStep};

/// Evaluates an expression without a QMP connection.
fn eval_sync(input: &str) -> Result<i64, CmdError> {
    match eval_expr(input, false, &[]) {
        EvalStep::Done(r) => r,
        EvalStep::NeedRegister(name) => panic!("unexpected register request: {name}"),
    }
}

fn message(r: Result<i64, CmdError>) -> String {
    match r {
        Err(CmdError::Command(m)) => m,
        Ok(v) => panic!("expected an error, got {v}"),
    }
}

#[test]
fn test_decimal() {
    assert_eq!(eval_sync("42").unwrap(), 42);
    assert_eq!(eval_sync("0").unwrap(), 0);
    assert_eq!(eval_sync("  100  ").unwrap(), 100);
}

#[test]
fn test_hex() {
    assert_eq!(eval_sync("0xff").unwrap(), 255);
    assert_eq!(eval_sync("0xFF").unwrap(), 255);
    assert_eq!(eval_sync("0x0").unwrap(), 0);
    assert_eq!(eval_sync("0x100").unwrap(), 256);
}

#[test]
fn test_octal() {
    assert_eq!(eval_sync("010").unwrap(), 8);
    assert_eq!(eval_sync("0377").unwrap(), 255);
}

#[test]
fn test_arithmetic() {
    assert_eq!(eval_sync("1 + 2").unwrap(), 3);
    assert_eq!(eval_sync("10 - 3").unwrap(), 7);
    assert_eq!(eval_sync("6 * 7").unwrap(), 42);
    assert_eq!(eval_sync("100 / 10").unwrap(), 10);
    assert_eq!(eval_sync("17 % 5").unwrap(), 2);
}

#[test]
fn test_precedence() {
    assert_eq!(eval_sync("2 + 3 * 4").unwrap(), 14);
    assert_eq!(eval_sync("(2 + 3) * 4").unwrap(), 20);
}

#[test]
fn test_bitwise() {
    assert_eq!(eval_sync("0xff & 0x0f").unwrap(), 0x0f);
    assert_eq!(eval_sync("0xf0 | 0x0f").unwrap(), 0xff);
    assert_eq!(eval_sync("0xff ^ 0x0f").unwrap(), 0xf0);
}

#[test]
fn test_unary() {
    assert_eq!(eval_sync("-1").unwrap(), -1);
    assert_eq!(eval_sync("+42").unwrap(), 42);
    assert_eq!(eval_sync("~0").unwrap(), -1);
    assert_eq!(eval_sync("-(-5)").unwrap(), 5);
}

#[test]
fn test_char_literal() {
    assert_eq!(eval_sync("'A'").unwrap(), 65);
    assert_eq!(eval_sync("'0'").unwrap(), 48);
}

#[test]
fn test_complex_expression() {
    assert_eq!(eval_sync("(0x10 + 3) * 2").unwrap(), 38);
}

#[test]
fn test_division_by_zero() {
    assert!(eval_sync("1 / 0").is_err());
    assert!(eval_sync("1 % 0").is_err());
}

#[test]
fn test_register_without_connection() {
    let err = eval_sync("$eax").unwrap_err();
    match err {
        CmdError::Command(msg) => {
            assert!(msg.contains("QMP connection"), "{msg}");
        }
    }
}

#[test]
fn expr_error_messages() {
    assert_eq!(message(eval_sync("1 / 0")), "division by zero");
    assert_eq!(message(eval_sync("(1 + 2")), "')' expected");
    assert_eq!(message(eval_sync("'")), "character constant expected");
    assert_eq!(message(eval_sync("'ab'")), "missing terminating ' character");
    assert_eq!(message(eval_sync("$ + 1")), "empty register name");
    assert_eq!(message(eval_sync("0xg")), "invalid hex number");
    assert_eq!(
        message(eval_sync("18446744073709551616")),
        "number too large: number too large to fit in target type"
    );
    assert_eq!(message(eval_sync("1 +")), "unexpected end of expression");
    assert_eq!(message(eval_sync("a")), "unexpected end of expression");
    assert_eq!(message(eval_sync("1 2 ")), "unexpected trailing input: '2'");
}

#[test]
fn expr_wrapping_and_truncation() {
    assert_eq!(eval_sync("0xffffffffffffffff").unwrap(), -1);
    assert_eq!(eval_sync("0x7fffffffffffffff + 1").unwrap(), i64::MIN);
    assert_eq!(eval_sync("-7 / 2").unwrap(), -3);
    assert_eq!(eval_sync("-7 % 2").unwrap(), -1);
    assert_eq!(eval_sync("08").unwrap(), 8);
}

#[test]
fn expr_registers_are_asked_in_order() {
    // First step: the first register is requested.
    match eval_expr("$eax + $ebx * 2", true, &[]) {
        EvalStep::NeedRegister(n) => assert_eq!(n, "eax"),
        EvalStep::Done(_) => panic!("expected a register request"),
    }
    match eval_expr("$eax + $ebx * 2", true, &[Some(1)]) {
        EvalStep::NeedRegister(n) => assert_eq!(n, "ebx"),
        EvalStep::Done(_) => panic!("expected a register request"),
    }
    match eval_expr("$eax + $ebx * 2", true, &[Some(1), Some(20)]) {
        EvalStep::Done(r) => assert_eq!(r.unwrap(), 41),
        EvalStep::NeedRegister(_) => panic!("expected a value"),
    }
    // Extra answers are never read.
    match eval_expr("$eax + $ebx * 2", true, &[Some(1), Some(20), Some(7)]) {
        EvalStep::Done(r) => assert_eq!(r.unwrap(), 41),
        EvalStep::NeedRegister(_) => panic!("expected a value"),
    }
    // A failed query is an unknown register.
    match eval_expr("$nope", true, &[None]) {
        EvalStep::Done(r) => assert_eq!(message(r), "unknown register"),
        EvalStep::NeedRegister(_) => panic!("expected an error"),
    }
}

#[test]
fn expr_without_registers_never_asks() {
    // Connected, but no `$` in the text: the evaluation ends by itself.
    match eval_expr("(1 + 2) * 3", true, &[]) {
        EvalStep::Done(Ok(v)) => assert_eq!(v, 9),
        other => panic!("unexpected {:?}", other),
    }
    // With a `$` but no connection: an error, not a question.
    match eval_expr("$pc + 1", false, &[]) {
        EvalStep::Done(Err(CmdError::Command(m))) => {
            assert_eq!(m, "register access requires a QMP connection")
        }
        other => panic!("unexpected {:?}", other),
    }
}
