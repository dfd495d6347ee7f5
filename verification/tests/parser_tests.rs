use zynk::ast::{LiteralValue, Statement, Token};
use zynk::parser::Parser;
use zynk::tokenizer::Tokenizer;

fn parse_source(src: &str) -> (Vec<Statement>, Vec<&'static str>) {
    let content = String::from(src);
    let mut tokenizer = Tokenizer::new(&content);
    tokenizer.run().expect("tokenizing should succeed");
    let mut parser = Parser { tokens: &tokenizer.tokens, index: 0, stmts: Vec::new() };
    let errors = parser.run();
    (parser.stmts, errors)
}

#[test]
fn empty_argument_list_is_valid() {
    let (stmts, errors) = parse_source("print()");
    assert_eq!(stmts, vec![Statement::Print(vec![])]);
    assert_eq!(errors, Vec::<&'static str>::new());
}

#[test]
fn let_statement_resolves_value() {
    let (stmts, errors) = parse_source("let x to 5");
    assert_eq!(
        stmts,
        vec![Statement::Let {
            key: Token::Literal(LiteralValue::Text(String::from("x"))),
            value: Token::Literal(LiteralValue::Integer(5)),
        }]
    );
    assert_eq!(errors, Vec::<&'static str>::new());
}

#[test]
fn integer_key_is_rejected() {
    let (stmts, errors) = parse_source("let 5 to x");
    assert_eq!(stmts, Vec::<Statement>::new());
    assert_eq!(errors, vec!["Expected variable name after 'let'"]);
}

#[test]
fn print_without_open_paren_is_reported() {
    let (stmts, errors) = parse_source("print 1");
    assert_eq!(stmts, Vec::<Statement>::new());
    assert_eq!(errors, vec!["Expected '(' to start print statement"]);
}

#[test]
fn print_without_close_paren_is_reported() {
    let (stmts, errors) = parse_source("print(1,2");
    assert_eq!(stmts, Vec::<Statement>::new());
    assert_eq!(errors, vec!["Expected ')' to end print statement"]);
}

#[test]
fn let_without_to_is_reported() {
    let (stmts, errors) = parse_source("let x 5");
    assert_eq!(stmts, Vec::<Statement>::new());
    assert_eq!(errors, vec!["Expected 'to' after variable name"]);
}

#[test]
fn let_without_value_is_reported() {
    let (stmts, errors) = parse_source("let x to");
    assert_eq!(stmts, Vec::<Statement>::new());
    assert_eq!(errors, vec!["Expected value after 'to'"]);
}

#[test]
fn unrecognized_top_level_token_is_skipped() {
    let (stmts, errors) = parse_source("x print(1)");
    assert_eq!(
        stmts,
        vec![Statement::Print(vec![LiteralValue::Integer(1)])]
    );
    assert_eq!(errors, Vec::<&'static str>::new());
}

#[test]
fn parsing_continues_after_an_error() {
    let (stmts, errors) = parse_source("let 5 to x print(2)");
    assert_eq!(stmts, vec![Statement::Print(vec![LiteralValue::Integer(2)])]);
    assert_eq!(errors, vec!["Expected variable name after 'let'"]);
}

#[test]
fn print_mixes_text_and_integers() {
    let (stmts, errors) = parse_source("print(hi,2)");
    assert_eq!(
        stmts,
        vec![Statement::Print(vec![
            LiteralValue::Text(String::from("hi")),
            LiteralValue::Integer(2),
        ])]
    );
    assert_eq!(errors, Vec::<&'static str>::new());
}

#[test]
fn trailing_comma_before_close_paren_is_tolerated() {
    let (stmts, errors) = parse_source("print(1,)");
    assert_eq!(stmts, vec![Statement::Print(vec![LiteralValue::Integer(1)])]);
    assert_eq!(errors, Vec::<&'static str>::new());
}

#[test]
fn reparsing_the_same_tokens_is_deterministic() {
    let content = String::from("let x to 5 print(1,hi) junk print()");
    let mut tokenizer = Tokenizer::new(&content);
    tokenizer.run().expect("tokenizing should succeed");

    let mut first = Parser { tokens: &tokenizer.tokens, index: 0, stmts: Vec::new() };
    let first_errors = first.run();
    let mut second = Parser { tokens: &tokenizer.tokens, index: 0, stmts: Vec::new() };
    let second_errors = second.run();

    assert_eq!(first.stmts, second.stmts);
    assert_eq!(first_errors, second_errors);
}

#[test]
fn statement_count_is_bounded_by_start_tokens() {
    let (stmts, _errors) = parse_source("x y print() z let a to 1 print junk");
    let content = String::from("x y print() z let a to 1 print junk");
    let mut tokenizer = Tokenizer::new(&content);
    tokenizer.run().expect("tokenizing should succeed");
    let starts = tokenizer
        .tokens
        .iter()
        .filter(|t| matches!(t, Token::PrintKeyword | Token::LetKeyword))
        .count();
    assert!(stmts.len() <= starts);
}

#[test]
fn parse_stmt_handles_one_statement_attempt() {
    let tokens = vec![
        Token::PrintKeyword,
        Token::OpenParen,
        Token::CloseParen,
        Token::LetKeyword,
    ];
    let mut parser = Parser { tokens: &tokens, index: 0, stmts: Vec::new() };
    assert_eq!(parser.peek(None), Some(&Token::PrintKeyword));
    assert_eq!(parser.parse_stmt(), Ok(()));
    assert_eq!(parser.index, 3);
    assert_eq!(parser.stmts, vec![Statement::Print(vec![])]);
    assert_eq!(
        parser.parse_stmt(),
        Err("Expected variable name after 'let'")
    );
    assert_eq!(parser.index, 4);
}
