use stackc::interpreter::execute;
use stackc::parser::{build_ast, convert, parse_ast, ASTNode};
use stackc::tokenizer::{tokenizer, LexError, Token};
use stackc::transformer::transform;

#[test]
fn tokenizer_splits_numbers_operators_and_parens() {
    let toks = tokenizer(" 12+(34 * 5)").unwrap();
    assert_eq!(
        toks,
        vec![
            Token::NUMBER(12),
            Token::OPERATOR('+'),
            Token::PAREN('('),
            Token::NUMBER(34),
            Token::OPERATOR('*'),
            Token::NUMBER(5),
            Token::PAREN(')'),
        ]
    );
}

#[test]
fn tokenizer_accepts_i64_max_literal() {
    assert_eq!(
        tokenizer("9223372036854775807"),
        Ok(vec![Token::NUMBER(i64::MAX)])
    );
}

#[test]
fn tokenizer_rejects_literal_above_i64_max() {
    assert_eq!(
        tokenizer("9223372036854775808"),
        Err(LexError::NumberTooLarge)
    );
}

#[test]
fn tokenizer_reports_first_bad_character() {
    assert_eq!(tokenizer("1 + a"), Err(LexError::BadChar('a')));
}

#[test]
fn token_priorities() {
    assert_eq!(Token::NUMBER(1).get_token_priority(), 5);
    assert_eq!(Token::PAREN('(').get_token_priority(), 1);
    assert_eq!(Token::PAREN(')').get_token_priority(), 6);
    assert_eq!(Token::OPERATOR('+').get_token_priority(), 2);
    assert_eq!(Token::OPERATOR('-').get_token_priority(), 2);
    assert_eq!(Token::OPERATOR('*').get_token_priority(), 3);
    assert_eq!(Token::OPERATOR('/').get_token_priority(), 3);
}

#[test]
fn convert_orders_by_precedence() {
    let toks = tokenizer("2 + 3 * 4").unwrap();
    assert_eq!(
        convert(toks),
        vec![
            Token::NUMBER(2),
            Token::NUMBER(3),
            Token::NUMBER(4),
            Token::OPERATOR('*'),
            Token::OPERATOR('+'),
        ]
    );
}

#[test]
fn convert_drops_parentheses() {
    let toks = tokenizer("(2 + 3) * 4").unwrap();
    assert_eq!(
        convert(toks),
        vec![
            Token::NUMBER(2),
            Token::NUMBER(3),
            Token::OPERATOR('+'),
            Token::NUMBER(4),
            Token::OPERATOR('*'),
        ]
    );
}

#[test]
fn convert_keeps_left_associativity() {
    let toks = tokenizer("8 - 3 - 2").unwrap();
    assert_eq!(
        convert(toks),
        vec![
            Token::NUMBER(8),
            Token::NUMBER(3),
            Token::OPERATOR('-'),
            Token::NUMBER(2),
            Token::OPERATOR('-'),
        ]
    );
}

#[test]
fn postfix_path_agrees_with_descent_parser() {
    for src in ["8 - 3 - 2", "2 + 3 * 4", "(2 + 3) * 4", "7 / 2"] {
        let toks = tokenizer(src).unwrap();
        let direct = parse_ast(toks.clone()).unwrap();
        let rebuilt = build_ast(convert(toks)).unwrap();
        assert_eq!(
            execute(&transform(direct)),
            execute(&transform(rebuilt))
        );
    }
}

#[test]
fn build_ast_of_empty_postfix_is_none() {
    assert!(build_ast(vec![]).is_none());
}

#[test]
fn to_ref_boxes_the_node() {
    let leaf = ASTNode { token: Token::NUMBER(7), left: None, right: None };
    let boxed = leaf.to_ref();
    assert!(matches!(boxed.token, Token::NUMBER(7)));
}

#[test]
fn transform_renders_negative_numbers() {
    let ast = ASTNode { token: Token::NUMBER(-12), left: None, right: None };
    assert_eq!(transform(ast), "push -12\nret");
}
