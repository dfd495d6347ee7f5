use vstd::prelude::*;
use vstd::string::*;

verus! {

/// A concrete value carried by a literal token: user text or a 32-bit signed
/// integer. Immutable once constructed.
#[derive(Debug, PartialEq, Eq)]
pub enum LiteralValue {
    Text(String),
    Integer(i32),
}

/// Mathematical model of a literal value.
pub enum LiteralView {
    Text(Seq<char>),
    Integer(int),
}

impl View for LiteralValue {
    type V = LiteralView;

    open spec fn view(&self) -> LiteralView {
        match self {
            LiteralValue::Text(s) => LiteralView::Text(s@),
            LiteralValue::Integer(n) => LiteralView::Integer(*n as int),
        }
    }
}

impl Clone for LiteralValue {
    fn clone(&self) -> (r: Self)
        ensures
            r@ == self@,
    {
        match self {
            LiteralValue::Text(s) => LiteralValue::Text(s.clone()),
            LiteralValue::Integer(n) => LiteralValue::Integer(*n),
        }
    }
}

/// An atomic lexical unit of the source language.
#[derive(Debug, PartialEq, Eq)]
pub enum Token {
    Literal(LiteralValue),
    PrintKeyword,
    LetKeyword,
    ToKeyword,
    OpenParen,
    CloseParen,
    Comma,
}

/// Mathematical model of a token.
pub enum TokenView {
    Literal(LiteralView),
    PrintKeyword,
    LetKeyword,
    ToKeyword,
    OpenParen,
    CloseParen,
    Comma,
}

impl View for Token {
    type V = TokenView;

    open spec fn view(&self) -> TokenView {
        match self {
            Token::Literal(v) => TokenView::Literal(v@),
            Token::PrintKeyword => TokenView::PrintKeyword,
            Token::LetKeyword => TokenView::LetKeyword,
            Token::ToKeyword => TokenView::ToKeyword,
            Token::OpenParen => TokenView::OpenParen,
            Token::CloseParen => TokenView::CloseParen,
            Token::Comma => TokenView::Comma,
        }
    }
}

impl Clone for Token {
    fn clone(&self) -> (r: Self)
        ensures
            r@ == self@,
    {
        match self {
            Token::Literal(v) => Token::Literal(v.clone()),
            Token::PrintKeyword => Token::PrintKeyword,
            Token::LetKeyword => Token::LetKeyword,
            Token::ToKeyword => Token::ToKeyword,
            Token::OpenParen => Token::OpenParen,
            Token::CloseParen => Token::CloseParen,
            Token::Comma => Token::Comma,
        }
    }
}

/// One parsed unit of program meaning: a print action or a variable
/// declaration. A `Let` owns copies of the key and value tokens; by parser
/// construction the key is a text literal.
#[derive(Debug, PartialEq, Eq)]
pub enum Statement {
    Print(Vec<LiteralValue>),
    Let { key: Token, value: Token },
}

/// Mathematical model of a statement.
pub enum StatementView {
    Print(Seq<LiteralView>),
    Let { key: TokenView, value: TokenView },
}

impl View for Statement {
    type V = StatementView;

    open spec fn view(&self) -> StatementView {
        match self {
            Statement::Print(vals) => StatementView::Print(literal_views(vals@)),
            Statement::Let { key, value } => StatementView::Let { key: key@, value: value@ },
        }
    }
}

/// Tokenizing fails only when an integer literal exceeds the 32-bit signed
/// range.
#[derive(Debug, PartialEq, Eq, Clone, Copy)]
pub enum TokenizeError {
    IntegerOverflow,
}

pub open spec fn literal_views(s: Seq<LiteralValue>) -> Seq<LiteralView> {
    s.map_values(|l: LiteralValue| l@)
}

pub open spec fn token_views(s: Seq<Token>) -> Seq<TokenView> {
    s.map_values(|t: Token| t@)
}

pub open spec fn statement_views(s: Seq<Statement>) -> Seq<StatementView> {
    s.map_values(|st: Statement| st@)
}

pub proof fn lemma_concat_empty<A>(a: Seq<A>)
    ensures
        a + Seq::<A>::empty() == a,
{
    assert(a + Seq::<A>::empty() =~= a);
}

pub proof fn lemma_concat_assoc<A>(a: Seq<A>, b: Seq<A>, c: Seq<A>)
    ensures
        (a + b) + c == a + (b + c),
{
    assert((a + b) + c =~= a + (b + c));
}

pub proof fn lemma_cons_assoc<A>(a: Seq<A>, x: A, b: Seq<A>)
    ensures
        a + (seq![x] + b) == a.push(x) + b,
{
    assert(a + (seq![x] + b) =~= a.push(x) + b);
}

pub proof fn lemma_push_concat<A>(a: Seq<A>, b: Seq<A>, x: A)
    ensures
        (a + b).push(x) == a + b.push(x),
{
    assert((a + b).push(x) =~= a + b.push(x));
}

pub proof fn lemma_literal_views_push(s: Seq<LiteralValue>, l: LiteralValue)
    ensures
        literal_views(s.push(l)) == literal_views(s).push(l@),
{
    assert(literal_views(s.push(l)) =~= literal_views(s).push(l@));
}

pub proof fn lemma_token_views_push(s: Seq<Token>, t: Token)
    ensures
        token_views(s.push(t)) == token_views(s).push(t@),
{
    assert(token_views(s.push(t)) =~= token_views(s).push(t@));
}

pub proof fn lemma_statement_views_push(s: Seq<Statement>, st: Statement)
    ensures
        statement_views(s.push(st)) == statement_views(s).push(st@),
{
    assert(statement_views(s.push(st)) =~= statement_views(s).push(st@));
}

/// Whether two string slices hold the same characters.
pub fn str_eq(a: &str, b: &str) -> (r: bool)
    ensures
        r == (a@ == b@),
{
    let sa = a.to_owned();
    let sb = b.to_owned();
    sa == sb
}

} // verus!
