use stackc::interpreter::{execute, RuntimeError};

#[test]
fn bare_mul_underflows_on_empty_stack() {
    assert_eq!(execute("mul"), Err(RuntimeError::StackUnderflow));
}

#[test]
fn mul_underflows_on_single_element_stack() {
    assert_eq!(execute("push 1\nmul"), Err(RuntimeError::StackUnderflow));
}

#[test]
fn missing_ret_is_fatal() {
    assert_eq!(execute("push 1\npush 2\nadd"), Err(RuntimeError::NoReturn));
}

#[test]
fn ret_on_empty_stack_underflows() {
    assert_eq!(execute("ret"), Err(RuntimeError::StackUnderflow));
}

#[test]
fn unknown_line_fails_to_parse() {
    assert_eq!(execute("nop\nret"), Err(RuntimeError::ParseFailed));
}

#[test]
fn empty_text_fails_to_parse() {
    assert_eq!(execute(""), Err(RuntimeError::ParseFailed));
}

#[test]
fn push_keyword_alone_fails_to_parse() {
    assert_eq!(execute("push"), Err(RuntimeError::ParseFailed));
}

#[test]
fn push_with_bad_operand_fails_to_parse() {
    assert_eq!(execute("push 12x\nret"), Err(RuntimeError::ParseFailed));
}

#[test]
fn push_parses_signed_operands() {
    assert_eq!(execute("push -5\nret"), Ok(-5));
    assert_eq!(execute("push +5\nret"), Ok(5));
}

#[test]
fn push_accepts_i64_extremes() {
    assert_eq!(execute("push 9223372036854775807\nret"), Ok(i64::MAX));
    assert_eq!(execute("push -9223372036854775808\nret"), Ok(i64::MIN));
}

#[test]
fn push_rejects_operand_above_i64() {
    assert_eq!(
        execute("push 9223372036854775808\nret"),
        Err(RuntimeError::ParseFailed)
    );
}

#[test]
fn sub_and_div_use_stack_order() {
    assert_eq!(execute("push 8\npush 3\nsub\nret"), Ok(5));
    assert_eq!(execute("push 8\npush 2\ndiv\nret"), Ok(4));
}

#[test]
fn add_overflow_is_fatal() {
    assert_eq!(
        execute("push 9223372036854775807\npush 1\nadd\nret"),
        Err(RuntimeError::Overflow)
    );
}

#[test]
fn div_overflow_is_fatal() {
    assert_eq!(
        execute("push -9223372036854775808\npush -1\ndiv\nret"),
        Err(RuntimeError::Overflow)
    );
}

#[test]
fn div_instruction_by_zero_is_fatal() {
    assert_eq!(execute("push 1\npush 0\ndiv\nret"), Err(RuntimeError::DivisionByZero));
}

#[test]
fn execution_halts_at_ret() {
    assert_eq!(execute("push 1\nret\nbogus line"), Ok(1));
}
