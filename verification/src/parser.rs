use vstd::prelude::*;

use crate::ast::{
    LiteralValue, LiteralView, Statement, StatementView, Token, TokenView, lemma_concat_assoc,
    lemma_concat_empty, lemma_cons_assoc, lemma_literal_views_push, lemma_statement_views_push,
    literal_views, statement_views, token_views,
};

verus! {

pub open spec fn opt_seq<A>(o: Option<A>) -> Seq<A> {
    match o {
        Some(a) => seq![a],
        None => Seq::empty(),
    }
}

pub open spec fn is_literal_token(t: TokenView) -> bool {
    t matches TokenView::Literal(_)
}

pub open spec fn is_text_literal_token(t: TokenView) -> bool {
    t matches TokenView::Literal(LiteralView::Text(_))
}

/// Result of scanning print arguments from position j: the values read, and
/// the position after them. Values separated by commas are consumed; the
/// scan stops at the first token that is not a literal where one is wanted.
pub open spec fn print_args(toks: Seq<TokenView>, j: int) -> (Seq<LiteralView>, int)
    decreases toks.len() - j,
{
    if j < toks.len() {
        match toks[j] {
            TokenView::Literal(v) => {
                if j + 1 < toks.len() && toks[j + 1] == TokenView::Comma {
                    let r = print_args(toks, j + 2);
                    (seq![v] + r.0, r.1)
                } else {
                    (seq![v], j + 1)
                }
            },
            _ => (Seq::empty(), j),
        }
    } else {
        (Seq::empty(), j)
    }
}

pub proof fn lemma_print_args_range(toks: Seq<TokenView>, j: int)
    requires
        j <= toks.len(),
    ensures
        j <= print_args(toks, j).1 <= toks.len(),
    decreases toks.len() - j,
{
    if j < toks.len() {
        match toks[j] {
            TokenView::Literal(_) => {
                if j + 1 < toks.len() && toks[j + 1] == TokenView::Comma {
                    lemma_print_args_range(toks, j + 2);
                }
            },
            _ => {},
        }
    }
}

/// One statement attempt at position i: the next cursor position, the
/// statement parsed if any, and the error message reported if any. A token
/// that starts no statement is silently skipped.
pub open spec fn stmt_step(toks: Seq<TokenView>, i: int) -> (
    int,
    Option<StatementView>,
    Option<Seq<char>>,
) {
    if toks[i] == TokenView::PrintKeyword {
        if i + 1 < toks.len() && toks[i + 1] == TokenView::OpenParen {
            let r = print_args(toks, i + 2);
            if r.1 < toks.len() && toks[r.1] == TokenView::CloseParen {
                (r.1 + 1, Some(StatementView::Print(r.0)), None)
            } else {
                (r.1, None, Some("Expected ')' to end print statement"@))
            }
        } else {
            (i + 1, None, Some("Expected '(' to start print statement"@))
        }
    } else if toks[i] == TokenView::LetKeyword {
        if i + 1 < toks.len() && is_text_literal_token(toks[i + 1]) {
            if i + 2 < toks.len() && toks[i + 2] == TokenView::ToKeyword {
                if i + 3 < toks.len() && is_literal_token(toks[i + 3]) {
                    (i + 4, Some(StatementView::Let { key: toks[i + 1], value: toks[i + 3] }), None)
                } else {
                    (i + 3, None, Some("Expected value after 'to'"@))
                }
            } else {
                (i + 2, None, Some("Expected 'to' after variable name"@))
            }
        } else {
            (i + 1, None, Some("Expected variable name after 'let'"@))
        }
    } else {
        (i + 1, None, None)
    }
}

/// A statement attempt always advances the cursor and never runs past the
/// end of the tokens.
pub proof fn lemma_stmt_step_range(toks: Seq<TokenView>, i: int)
    requires
        i < toks.len(),
    ensures
        i < stmt_step(toks, i).0 <= toks.len(),
{
    if i + 2 <= toks.len() {
        lemma_print_args_range(toks, i + 2);
    }
}

/// All statements and all error messages produced from position i to the
/// end of the tokens, in order.
pub open spec fn parse_from(toks: Seq<TokenView>, i: int) -> (Seq<StatementView>, Seq<Seq<char>>)
    decreases toks.len() - i
        via parse_from_dec
{
    if i < toks.len() {
        let s = stmt_step(toks, i);
        let rest = parse_from(toks, s.0);
        (opt_seq(s.1) + rest.0, opt_seq(s.2) + rest.1)
    } else {
        (Seq::empty(), Seq::empty())
    }
}

#[via_fn]
proof fn parse_from_dec(toks: Seq<TokenView>, i: int) {
    if i < toks.len() {
        lemma_stmt_step_range(toks, i);
    }
}

pub open spec fn msg_views(s: Seq<&'static str>) -> Seq<Seq<char>> {
    s.map_values(|m: &'static str| m@)
}

pub proof fn lemma_msg_views_push(s: Seq<&'static str>, m: &'static str)
    ensures
        msg_views(s.push(m)) == msg_views(s).push(m@),
{
    assert(msg_views(s.push(m)) =~= msg_views(s).push(m@));
}

/// Whether a token can start a statement.
pub open spec fn is_start_token(t: TokenView) -> bool {
    t == TokenView::PrintKeyword || t == TokenView::LetKeyword
}

/// Number of statement-start tokens from position i to the end.
pub open spec fn start_count(toks: Seq<TokenView>, i: int) -> nat
    decreases toks.len() - i,
{
    if i < toks.len() {
        (start_count(toks, i + 1) + if is_start_token(toks[i]) {
            1int
        } else {
            0int
        }) as nat
    } else {
        0
    }
}

pub proof fn lemma_start_count_mono(toks: Seq<TokenView>, i: int, j: int)
    requires
        i <= j,
    ensures
        start_count(toks, j) <= start_count(toks, i),
    decreases j - i,
{
    if i < j {
        lemma_start_count_mono(toks, i + 1, j);
    }
}

/// No parse yields more statements than there are statement-start tokens
/// (`print` or `let`) left in the token sequence: every statement consumes
/// its own start keyword, and unrecognized tokens yield none.
pub proof fn lemma_statement_count_bound(toks: Seq<TokenView>, i: int)
    ensures
        parse_from(toks, i).0.len() <= start_count(toks, i),
    decreases toks.len() - i,
{
    if i < toks.len() {
        let s = stmt_step(toks, i);
        lemma_stmt_step_range(toks, i);
        lemma_statement_count_bound(toks, s.0);
        lemma_start_count_mono(toks, i + 1, s.0);
        assert(s.1 is Some ==> is_start_token(toks[i]));
    }
}

/// Parsing is a pure function of the token sequence: parsing the same,
/// unchanged tokens twice yields structurally identical statement sequences
/// and error reports.
pub proof fn lemma_parse_deterministic(t1: Seq<TokenView>, t2: Seq<TokenView>)
    requires
        t1 == t2,
    ensures
        parse_from(t1, 0) == parse_from(t2, 0),
{
}

/// Consumes the token sequence and produces the statement sequence,
/// reporting one descriptive error per malformed statement attempt and
/// continuing past it.
pub struct Parser<'a> {
    pub tokens: &'a Vec<Token>,
    pub stmts: Vec<Statement>,
    pub index: usize,
}

impl Parser<'_> {
    /// The token `offset` places past the cursor, if any.
    pub fn peek(&self, offset: Option<usize>) -> (r: Option<&Token>)
        requires
            self.index + crate::tokenizer::offset_amount(offset) <= usize::MAX,
        ensures
            match r {
                Some(t) => self.index + crate::tokenizer::offset_amount(offset)
                    < self.tokens@.len() && *t == self.tokens@[self.index
                    + crate::tokenizer::offset_amount(offset)],
                None => self.index + crate::tokenizer::offset_amount(offset)
                    >= self.tokens@.len(),
            },
    {
        let off: usize = match offset {
            Some(k) => k,
            None => 0,
        };
        if self.index + off < self.tokens.len() {
            Some(&self.tokens[self.index + off])
        } else {
            None
        }
    }

    /// Advances the cursor one token; the cursor only ever moves forward.
    pub fn accept(&mut self)
        requires
            old(self).index < usize::MAX,
        ensures
            final(self).index == old(self).index + 1,
            final(self).tokens == old(self).tokens,
            final(self).stmts == old(self).stmts,
    {
        self.index = self.index + 1;
    }

    /// Attempts one statement at the cursor per the grammar. On success the
    /// statement is appended; on a malformed statement the descriptive
    /// message is returned and the offending tokens have been skipped.
    pub fn parse_stmt(&mut self) -> (r: Result<(), &'static str>)
        requires
            old(self).index < old(self).tokens@.len(),
        ensures
            ({
                let step = stmt_step(token_views(old(self).tokens@), old(self).index as int);
                &&& final(self).tokens@ == old(self).tokens@
                &&& final(self).index as int == step.0
                &&& statement_views(final(self).stmts@) == statement_views(old(self).stmts@)
                    + opt_seq(step.1)
                &&& (match r {
                    Ok(()) => step.2 is None,
                    Err(m) => step.2 == Some(m@),
                })
            }),
    {
        let ghost tks = self.tokens@;
        let ghost tvs = token_views(self.tokens@);
        let ghost i0 = self.index as int;
        let ghost stmts0 = statement_views(self.stmts@);
        let n = self.tokens.len();
        let is_print = match self.peek(None) {
            Some(t) => matches!(t, Token::PrintKeyword),
            None => false,
        };
        let is_let = match self.peek(None) {
            Some(t) => matches!(t, Token::LetKeyword),
            None => false,
        };
        if is_print {
            self.accept();
            let is_open = match self.peek(None) {
                Some(t) => matches!(t, Token::OpenParen),
                None => false,
            };
            if is_open {
                let mut user_types: Vec<LiteralValue> = Vec::new();
                self.accept();
                let ghost j0 = self.index as int;
                loop
                    invariant_except_break
                        print_args(tvs, j0).0 == literal_views(user_types@) + print_args(
                            tvs,
                            self.index as int,
                        ).0,
                        print_args(tvs, j0).1 == print_args(tvs, self.index as int).1,
                    invariant
                        self.tokens@ == tks,
                        tvs == token_views(tks),
                        self.stmts@ == old(self).stmts@,
                        n == tks.len(),
                        0 <= j0 <= self.index as int <= tks.len(),
                    ensures
                        self.tokens@ == tks,
                        self.stmts@ == old(self).stmts@,
                        0 <= j0 <= self.index as int <= tks.len(),
                        self.index as int == print_args(tvs, j0).1,
                        literal_views(user_types@) == print_args(tvs, j0).0,
                    decreases tks.len() - self.index,
                {
                    let ghost idx = self.index as int;
                    let p = self.peek(None);
                    let mut got: Option<LiteralValue> = None;
                    match p {
                        Some(Token::Literal(x)) => {
                            got = Some(x.clone());
                        },
                        _ => {},
                    }
                    match got {
                        None => {
                            proof {
                                assert(print_args(tvs, idx) == (
                                    Seq::<LiteralView>::empty(),
                                    idx,
                                ));
                                lemma_concat_empty(literal_views(user_types@));
                            }
                            break ;
                        },
                        Some(lit) => {
                            proof {
                                assert(tvs[idx] == TokenView::Literal(lit@));
                                lemma_literal_views_push(user_types@, lit);
                            }
                            let ghost uv_pre = literal_views(user_types@);
                            user_types.push(lit);
                            self.accept();
                            let has_comma = match self.peek(None) {
                                Some(t) => matches!(t, Token::Comma),
                                None => false,
                            };
                            if has_comma {
                                self.accept();
                                proof {
                                    let r = print_args(tvs, idx + 2);
                                    assert(print_args(tvs, idx) == (
                                        seq![tvs[idx]->Literal_0] + r.0,
                                        r.1,
                                    ));
                                    lemma_cons_assoc(uv_pre, tvs[idx]->Literal_0, r.0);
                                }
                            } else {
                                proof {
                                    assert(print_args(tvs, idx) == (
                                        seq![tvs[idx]->Literal_0],
                                        idx + 1,
                                    ));
                                    lemma_cons_assoc(
                                        uv_pre,
                                        tvs[idx]->Literal_0,
                                        Seq::<LiteralView>::empty(),
                                    );
                                    lemma_concat_empty(literal_views(user_types@));
                                    assert(seq![tvs[idx]->Literal_0] + Seq::<
                                        LiteralView,
                                    >::empty() =~= seq![tvs[idx]->Literal_0]);
                                }
                                break ;
                            }
                        },
                    }
                }
                let is_close = match self.peek(None) {
                    Some(t) => matches!(t, Token::CloseParen),
                    None => false,
                };
                if is_close {
                    self.accept();
                    let stmt = Statement::Print(user_types);
                    proof {
                        lemma_statement_views_push(self.stmts@, stmt);
                    }
                    self.stmts.push(stmt);
                    proof {
                        let step = stmt_step(tvs, i0);
                        assert(statement_views(self.stmts@) == stmts0.push(step.1->0));
                        assert(stmts0.push(step.1->0) =~= stmts0 + opt_seq(step.1));
                    }
                    Ok(())
                } else {
                    proof {
                        lemma_concat_empty(stmts0);
                    }
                    Err("Expected ')' to end print statement")
                }
            } else {
                proof {
                    lemma_concat_empty(stmts0);
                }
                Err("Expected '(' to start print statement")
            }
        } else if is_let {
            self.accept();
            let is_key = match self.peek(None) {
                Some(t) => matches!(t, Token::Literal(LiteralValue::Text(_))),
                None => false,
            };
            if is_key {
                let key_token: Token = self.tokens[self.index].clone();
                proof {
                    assert(key_token@ == tvs[i0 + 1]);
                }
                self.accept();
                let is_to = match self.peek(None) {
                    Some(t) => matches!(t, Token::ToKeyword),
                    None => false,
                };
                if is_to {
                    self.accept();
                    let is_val = match self.peek(None) {
                        Some(t) => matches!(t, Token::Literal(_)),
                        None => false,
                    };
                    if is_val {
                        let value_token: Token = self.tokens[self.index].clone();
                        proof {
                            assert(value_token@ == tvs[i0 + 3]);
                        }
                        self.accept();
                        let stmt = Statement::Let { key: key_token, value: value_token };
                        proof {
                            lemma_statement_views_push(self.stmts@, stmt);
                        }
                        self.stmts.push(stmt);
                        proof {
                            let step = stmt_step(tvs, i0);
                            assert(statement_views(self.stmts@) == stmts0.push(step.1->0));
                            assert(stmts0.push(step.1->0) =~= stmts0 + opt_seq(step.1));
                        }
                        Ok(())
                    } else {
                        proof {
                            lemma_concat_empty(stmts0);
                        }
                        Err("Expected value after 'to'")
                    }
                } else {
                    proof {
                        lemma_concat_empty(stmts0);
                    }
                    Err("Expected 'to' after variable name")
                }
            } else {
                proof {
                    lemma_concat_empty(stmts0);
                }
                Err("Expected variable name after 'let'")
            }
        } else {
            self.accept();
            proof {
                lemma_concat_empty(stmts0);
            }
            Ok(())
        }
    }

    /// Parses all remaining tokens, one statement attempt at a time,
    /// collecting the statements and the message of every malformed attempt
    /// in order.
    pub fn run(&mut self) -> (errs: Vec<&'static str>)
        requires
            old(self).index <= old(self).tokens@.len(),
        ensures
            ({
                let res = parse_from(token_views(old(self).tokens@), old(self).index as int);
                &&& final(self).tokens@ == old(self).tokens@
                &&& statement_views(final(self).stmts@) == statement_views(old(self).stmts@)
                    + res.0
                &&& msg_views(errs@) == res.1
                &&& final(self).index == old(self).tokens@.len()
            }),
    {
        let ghost tks = self.tokens@;
        let ghost tvs = token_views(self.tokens@);
        let ghost i0 = self.index as int;
        let ghost stmts0 = statement_views(self.stmts@);
        let ghost mut done_s: Seq<StatementView> = Seq::empty();
        let ghost mut done_e: Seq<Seq<char>> = Seq::empty();
        let mut errs: Vec<&'static str> = Vec::new();
        let n = self.tokens.len();
        while self.index < n
            invariant
                self.tokens@ == tks,
                tvs == token_views(tks),
                i0 <= self.index as int <= tks.len(),
                n == tks.len(),
                statement_views(self.stmts@) == stmts0 + done_s,
                msg_views(errs@) == done_e,
                parse_from(tvs, i0).0 == done_s + parse_from(tvs, self.index as int).0,
                parse_from(tvs, i0).1 == done_e + parse_from(tvs, self.index as int).1,
            decreases n - self.index,
        {
            let ghost idx = self.index as int;
            let ghost step = stmt_step(tvs, idx);
            proof {
                lemma_stmt_step_range(tvs, idx);
            }
            let r = self.parse_stmt();
            match r {
                Ok(()) => {
                    proof {
                        lemma_concat_empty(done_e);
                    }
                },
                Err(m) => {
                    proof {
                        lemma_msg_views_push(errs@, m);
                    }
                    errs.push(m);
                    proof {
                        assert(done_e.push(m@) =~= done_e + opt_seq(step.2));
                    }
                },
            }
            proof {
                let rest = parse_from(tvs, step.0);
                assert(parse_from(tvs, idx) == (
                    opt_seq(step.1) + rest.0,
                    opt_seq(step.2) + rest.1,
                ));
                lemma_concat_assoc(done_s, opt_seq(step.1), rest.0);
                lemma_concat_assoc(done_e, opt_seq(step.2), rest.1);
                lemma_concat_assoc(stmts0, done_s, opt_seq(step.1));
                done_s = done_s + opt_seq(step.1);
                done_e = done_e + opt_seq(step.2);
            }
        }
        proof {
            assert(parse_from(tvs, self.index as int) == (
                Seq::<StatementView>::empty(),
                Seq::<Seq<char>>::empty(),
            ));
            lemma_concat_empty(done_s);
            lemma_concat_empty(done_e);
        }
        errs
    }
}

} // verus!
