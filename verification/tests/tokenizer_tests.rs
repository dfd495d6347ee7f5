use zynk::ast::{LiteralValue, Token, TokenizeError};
use zynk::tokenizer::Tokenizer;

fn tokens_of(src: &str) -> Vec<Token> {
    let content = String::from(src);
    let mut tokenizer = Tokenizer::new(&content);
    tokenizer.run().expect("tokenizing should succeed");
    tokenizer.tokens
}

#[test]
fn print_call_with_two_integers() {
    let tokens = tokens_of("print(1,2)");
    assert_eq!(
        tokens,
        vec![
            Token::PrintKeyword,
            Token::OpenParen,
            Token::Literal(LiteralValue::Integer(1)),
            Token::Comma,
            Token::Literal(LiteralValue::Integer(2)),
            Token::CloseParen,
        ]
    );
}

#[test]
fn unknown_character_is_dropped() {
    let tokens = tokens_of("pr!int");
    assert_eq!(
        tokens,
        vec![
            Token::Literal(LiteralValue::Text(String::from("pr"))),
            Token::Literal(LiteralValue::Text(String::from("int"))),
        ]
    );
}

#[test]
fn whitespace_is_discarded() {
    let tokens = tokens_of("  let   x \n to \t 5 ");
    assert_eq!(
        tokens,
        vec![
            Token::LetKeyword,
            Token::Literal(LiteralValue::Text(String::from("x"))),
            Token::ToKeyword,
            Token::Literal(LiteralValue::Integer(5)),
        ]
    );
}

#[test]
fn keywords_are_recognized() {
    let tokens = tokens_of("print let to");
    assert_eq!(
        tokens,
        vec![Token::PrintKeyword, Token::LetKeyword, Token::ToKeyword]
    );
}

#[test]
fn identifier_may_hold_digits_after_first_letter() {
    let tokens = tokens_of("x2y print2");
    assert_eq!(
        tokens,
        vec![
            Token::Literal(LiteralValue::Text(String::from("x2y"))),
            Token::Literal(LiteralValue::Text(String::from("print2"))),
        ]
    );
}

#[test]
fn largest_integer_is_accepted() {
    let tokens = tokens_of("2147483647");
    assert_eq!(tokens, vec![Token::Literal(LiteralValue::Integer(2147483647))]);
}

#[test]
fn integer_overflow_is_reported() {
    let content = String::from("2147483648");
    let mut tokenizer = Tokenizer::new(&content);
    assert_eq!(tokenizer.run(), Err(TokenizeError::IntegerOverflow));
}

#[test]
fn long_digit_run_overflow_is_reported() {
    let content = String::from("print(99999999999999999999)");
    let mut tokenizer = Tokenizer::new(&content);
    assert_eq!(tokenizer.run(), Err(TokenizeError::IntegerOverflow));
}

#[test]
fn leading_zeros_are_part_of_one_number() {
    let tokens = tokens_of("007");
    assert_eq!(tokens, vec![Token::Literal(LiteralValue::Integer(7))]);
}

#[test]
fn empty_input_yields_no_tokens() {
    let tokens = tokens_of("");
    assert_eq!(tokens, Vec::<Token>::new());
}

#[test]
fn peek_and_accept_walk_the_input() {
    let content = String::from("ab");
    let mut tokenizer = Tokenizer::new(&content);
    assert_eq!(tokenizer.peek(None), Some('a'));
    assert_eq!(tokenizer.peek(Some(1)), Some('b'));
    assert_eq!(tokenizer.peek(Some(2)), None);
    assert_eq!(tokenizer.accept(), Some('a'));
    assert_eq!(tokenizer.peek(None), Some('b'));
}

#[test]
fn accept_to_buffer_collects_characters() {
    let content = String::from("ok");
    let mut tokenizer = Tokenizer::new(&content);
    let mut buffer = String::new();
    tokenizer.accept_to_buffer(&mut buffer);
    tokenizer.accept_to_buffer(&mut buffer);
    assert_eq!(buffer, "ok");
}
