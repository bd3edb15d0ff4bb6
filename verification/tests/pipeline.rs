use stackc::interpreter::{execute, RuntimeError};
use stackc::parser::{parse, parse_ast};
use stackc::tokenizer::{tokenizer, LexError, Token};
use stackc::transformer::transform;
use stackc::{compile, CompileError};

fn run(src: &str) -> Result<i64, RuntimeError> {
    let toks = tokenizer(src).unwrap();
    let ast = parse_ast(toks).unwrap();
    execute(&transform(ast))
}

#[test]
fn left_associativity() {
    assert_eq!(run("8 - 3 - 2"), Ok(3));
}

#[test]
fn precedence() {
    assert_eq!(run("2 + 3 * 4"), Ok(14));
}

#[test]
fn parentheses() {
    assert_eq!(run("(2 + 3) * 4"), Ok(20));
}

#[test]
fn division_truncates() {
    assert_eq!(run("7 / 2"), Ok(3));
}

#[test]
fn division_by_zero_is_fatal() {
    assert_eq!(run("7 / 0"), Err(RuntimeError::DivisionByZero));
}

#[test]
fn division_truncates_toward_zero_for_negatives() {
    // 2 - 9 is -7; -7 / 2 truncates to -3, not -4.
    assert_eq!(run("(2 - 9) / 2"), Ok(-3));
}

#[test]
fn single_number() {
    assert_eq!(run("42"), Ok(42));
}

#[test]
fn nested_parentheses() {
    assert_eq!(run("((1 + 2) * (3 + 4)) / 3"), Ok(7));
}

#[test]
fn compile_is_deterministic() {
    let first = transform(parse_ast(tokenizer("1 + (2 * 3) - 4 / 2").unwrap()).unwrap());
    let second = transform(parse_ast(tokenizer("1 + (2 * 3) - 4 / 2").unwrap()).unwrap());
    assert_eq!(first.as_bytes(), second.as_bytes());
}

#[test]
fn generated_text_is_postorder_with_ret() {
    let text = transform(parse_ast(tokenizer("2 + 3 * 4").unwrap()).unwrap());
    assert_eq!(text, "push 2\npush 3\npush 4\nmul\nadd\nret");
}

#[test]
fn malformed_trailing_operator_rejected() {
    let toks = tokenizer("2 + ").unwrap();
    assert!(parse_ast(toks.clone()).is_none());
    assert!(!parse(toks));
}

#[test]
fn malformed_unclosed_paren_rejected() {
    let toks = tokenizer("(2 + 3").unwrap();
    assert!(parse_ast(toks).is_none());
}

#[test]
fn malformed_adjacent_numbers_rejected() {
    let toks = tokenizer("2 3").unwrap();
    assert_eq!(toks, vec![Token::NUMBER(2), Token::NUMBER(3)]);
    assert!(parse_ast(toks).is_none());
}

#[test]
fn malformed_character_rejected() {
    assert_eq!(tokenizer("2 $ 3"), Err(LexError::BadChar('$')));
}

#[test]
fn empty_input_rejected() {
    let toks = tokenizer("").unwrap();
    assert!(toks.is_empty());
    assert!(parse_ast(toks).is_none());
}

#[test]
fn operator_without_left_operand_rejected() {
    let toks = tokenizer("* 3").unwrap();
    assert!(parse_ast(toks).is_none());
}

#[test]
fn compile_then_execute() {
    let text = compile("(2 + 3) * 4 - 6 / 2").unwrap();
    assert_eq!(execute(&text), Ok(17));
}

#[test]
fn compile_reports_lex_and_syntax_errors() {
    assert_eq!(compile("2 # 3"), Err(CompileError::Lex(LexError::BadChar('#'))));
    assert_eq!(compile("2 + "), Err(CompileError::Syntax));
    assert_eq!(compile(""), Err(CompileError::Syntax));
}

#[test]
fn whitespace_variants_are_skipped() {
    assert_eq!(run("1\t+\n2\r+ 3"), Ok(6));
}

#[test]
fn trailing_tokens_rejected() {
    let toks = tokenizer("(1 + 2) 3").unwrap();
    assert!(parse_ast(toks).is_none());
}
