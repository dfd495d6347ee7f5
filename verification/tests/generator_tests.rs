use zynk::ast::{LiteralValue, Statement, Token};
use zynk::generator::Generator;
use zynk::parser::Parser;
use zynk::tokenizer::Tokenizer;

fn generate_from(stmts: &Vec<Statement>) -> String {
    let mut generator = Generator { stmts, index: 0 };
    generator.generate()
}

fn stream_directive() -> String {
    ["#incl", "ude <iostream>\n"].concat()
}

fn text_directive() -> String {
    ["#incl", "ude <string>\n"].concat()
}

#[test]
fn print_of_integer_and_text() {
    let stmts = vec![Statement::Print(vec![
        LiteralValue::Integer(3),
        LiteralValue::Text(String::from("hi")),
    ])];
    let out = generate_from(&stmts);
    let expected = format!(
        "{}\nint main() {{\nstd::cout<<3<<hi<<std::endl;\n}}",
        stream_directive()
    );
    assert_eq!(out, expected);
}

#[test]
fn two_prints_share_one_directive() {
    let stmts = vec![
        Statement::Print(vec![LiteralValue::Integer(1)]),
        Statement::Print(vec![LiteralValue::Integer(2)]),
    ];
    let out = generate_from(&stmts);
    let expected = format!(
        "{}\nint main() {{\nstd::cout<<1<<std::endl;\nstd::cout<<2<<std::endl;\n}}",
        stream_directive()
    );
    assert_eq!(out, expected);
    assert_eq!(out.matches(&stream_directive()).count(), 1);
}

#[test]
fn let_with_integer_value_needs_no_directive() {
    let stmts = vec![Statement::Let {
        key: Token::Literal(LiteralValue::Text(String::from("x"))),
        value: Token::Literal(LiteralValue::Integer(5)),
    }];
    let out = generate_from(&stmts);
    assert_eq!(out, "\nint main() {\nint x=5;\n}");
}

#[test]
fn let_with_text_value_emits_text_type() {
    let stmts = vec![Statement::Let {
        key: Token::Literal(LiteralValue::Text(String::from("msg"))),
        value: Token::Literal(LiteralValue::Text(String::from("hello"))),
    }];
    let out = generate_from(&stmts);
    let expected = format!("{}\nint main() {{\nstd::string msg=hello;\n}}", text_directive());
    assert_eq!(out, expected);
}

#[test]
fn empty_program_emits_bare_entry_point() {
    let stmts: Vec<Statement> = vec![];
    let out = generate_from(&stmts);
    assert_eq!(out, "\nint main() {\n}");
}

#[test]
fn negative_integer_is_printed_with_sign() {
    let stmts = vec![Statement::Print(vec![LiteralValue::Integer(-42)])];
    let out = generate_from(&stmts);
    let expected = format!(
        "{}\nint main() {{\nstd::cout<<-42<<std::endl;\n}}",
        stream_directive()
    );
    assert_eq!(out, expected);
}

#[test]
fn directives_keep_first_occurrence_order() {
    let stmts = vec![
        Statement::Let {
            key: Token::Literal(LiteralValue::Text(String::from("a"))),
            value: Token::Literal(LiteralValue::Text(String::from("b"))),
        },
        Statement::Print(vec![]),
        Statement::Let {
            key: Token::Literal(LiteralValue::Text(String::from("c"))),
            value: Token::Literal(LiteralValue::Text(String::from("d"))),
        },
    ];
    let out = generate_from(&stmts);
    let expected = format!(
        "{}{}\nint main() {{\nstd::string a=b;\nstd::cout<<std::endl;\nstd::string c=d;\n}}",
        text_directive(),
        stream_directive()
    );
    assert_eq!(out, expected);
}

#[test]
fn full_pipeline_from_source_text() {
    let content = String::from("let x to 5 print(x2,7)");
    let mut tokenizer = Tokenizer::new(&content);
    tokenizer.run().expect("tokenizing should succeed");
    let mut parser = Parser { tokens: &tokenizer.tokens, index: 0, stmts: Vec::new() };
    let errors = parser.run();
    assert_eq!(errors, Vec::<&'static str>::new());
    let out = generate_from(&parser.stmts);
    let expected = format!(
        "{}\nint main() {{\nint x=5;\nstd::cout<<x2<<7<<std::endl;\n}}",
        stream_directive()
    );
    assert_eq!(out, expected);
}

#[test]
fn generator_peek_and_accept_walk_statements() {
    let stmts = vec![
        Statement::Print(vec![]),
        Statement::Print(vec![LiteralValue::Integer(1)]),
    ];
    let mut generator = Generator { stmts: &stmts, index: 0 };
    assert_eq!(generator.peek(None), Some(&stmts[0]));
    assert_eq!(generator.peek(Some(1)), Some(&stmts[1]));
    assert_eq!(generator.peek(Some(2)), None);
    let first = generator.accept();
    assert_eq!(first, &stmts[0]);
    assert_eq!(generator.peek(None), Some(&stmts[1]));
}

#[test]
fn ensure_header_deduplicates() {
    let mut headers: Vec<String> = Vec::new();
    zynk::generator::ensure_header(&mut headers, "<iostream>");
    zynk::generator::ensure_header(&mut headers, "<string>");
    zynk::generator::ensure_header(&mut headers, "<iostream>");
    assert_eq!(headers, vec![String::from("<iostream>"), String::from("<string>")]);
}
