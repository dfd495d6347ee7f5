use vstd::prelude::*;
use vstd::string::*;

use crate::ast::{LiteralValue, LiteralView, Token, TokenView, TokenizeError, lemma_push_concat, lemma_token_views_push, str_eq, token_views};
use crate::numbers::{digits_val, is_digit, parse_digits};

verus! {

/// The character class the tokenizer treats as an ASCII letter.
pub open spec fn is_letter(c: char) -> bool {
    (97 <= c as u32 && c as u32 <= 122) || (65 <= c as u32 && c as u32 <= 90)
}

/// Letter or digit: the class that continues an identifier-or-keyword run.
pub open spec fn is_alnum(c: char) -> bool {
    is_letter(c) || is_digit(c)
}

pub fn is_letter_char(c: char) -> (r: bool)
    ensures
        r == is_letter(c),
{
    let u = c as u32;
    (97 <= u && u <= 122) || (65 <= u && u <= 90)
}

pub fn is_digit_char(c: char) -> (r: bool)
    ensures
        r == is_digit(c),
{
    let u = c as u32;
    48 <= u && u <= 57
}

pub fn is_alnum_char(c: char) -> (r: bool)
    ensures
        r == is_alnum(c),
{
    is_letter_char(c) || is_digit_char(c)
}

/// Number of consecutive alphanumeric characters of s starting at i.
pub open spec fn alnum_run(s: Seq<char>, i: int) -> nat
    decreases s.len() - i,
{
    if i < s.len() && is_alnum(s[i]) {
        (alnum_run(s, i + 1) + 1) as nat
    } else {
        0
    }
}

/// Number of consecutive digit characters of s starting at i.
pub open spec fn digit_run(s: Seq<char>, i: int) -> nat
    decreases s.len() - i,
{
    if i < s.len() && is_digit(s[i]) {
        (digit_run(s, i + 1) + 1) as nat
    } else {
        0
    }
}

pub proof fn lemma_alnum_run_bound(s: Seq<char>, i: int)
    requires
        i <= s.len(),
    ensures
        i + alnum_run(s, i) <= s.len(),
    decreases s.len() - i,
{
    if i < s.len() && is_alnum(s[i]) {
        lemma_alnum_run_bound(s, i + 1);
    }
}

pub proof fn lemma_digit_run_bound(s: Seq<char>, i: int)
    requires
        i <= s.len(),
    ensures
        i + digit_run(s, i) <= s.len(),
    decreases s.len() - i,
{
    if i < s.len() && is_digit(s[i]) {
        lemma_digit_run_bound(s, i + 1);
    }
}

/// Every character of a digit run is a digit.
pub proof fn lemma_digit_run_chars(s: Seq<char>, i: int)
    requires
        0 <= i <= s.len(),
    ensures
        forall|k: int| i <= k < i + digit_run(s, i) ==> is_digit(s[k]),
    decreases s.len() - i,
{
    if i < s.len() && is_digit(s[i]) {
        lemma_digit_run_chars(s, i + 1);
    }
}

/// The token an identifier-or-keyword run turns into: one of the fixed
/// keywords, or a text literal.
pub open spec fn word_token(w: Seq<char>) -> TokenView {
    if w == "print"@ {
        TokenView::PrintKeyword
    } else if w == "let"@ {
        TokenView::LetKeyword
    } else if w == "to"@ {
        TokenView::ToKeyword
    } else {
        TokenView::Literal(LiteralView::Text(w))
    }
}

pub open spec fn cons_token(
    t: TokenView,
    rest: Result<Seq<TokenView>, TokenizeError>,
) -> Result<Seq<TokenView>, TokenizeError> {
    match rest {
        Ok(r) => Ok(seq![t] + r),
        Err(e) => Err(e),
    }
}

/// The token stream of s from position i to the end, or the first fatal
/// error. Whitespace and any character not matched by a rule is silently
/// discarded.
pub open spec fn spec_tokenize(s: Seq<char>, i: int) -> Result<Seq<TokenView>, TokenizeError>
    decreases s.len() - i
        via spec_tokenize_dec
{
    if i >= s.len() {
        Ok(Seq::empty())
    } else if is_letter(s[i]) {
        let j = i + 1 + alnum_run(s, i + 1);
        cons_token(word_token(s.subrange(i, j)), spec_tokenize(s, j))
    } else if is_digit(s[i]) {
        let j = i + 1 + digit_run(s, i + 1);
        let v = digits_val(s.subrange(i, j));
        if v > i32::MAX {
            Err(TokenizeError::IntegerOverflow)
        } else {
            cons_token(TokenView::Literal(LiteralView::Integer(v as int)), spec_tokenize(s, j))
        }
    } else if s[i] == '(' {
        cons_token(TokenView::OpenParen, spec_tokenize(s, i + 1))
    } else if s[i] == ')' {
        cons_token(TokenView::CloseParen, spec_tokenize(s, i + 1))
    } else if s[i] == ',' {
        cons_token(TokenView::Comma, spec_tokenize(s, i + 1))
    } else {
        spec_tokenize(s, i + 1)
    }
}

#[via_fn]
proof fn spec_tokenize_dec(s: Seq<char>, i: int) {
    if i < s.len() {
        lemma_alnum_run_bound(s, i + 1);
        lemma_digit_run_bound(s, i + 1);
    }
}

/// Tokens already produced, followed by whatever a remaining tokenization
/// yields.
pub open spec fn toks_then(
    done: Seq<TokenView>,
    rest: Result<Seq<TokenView>, TokenizeError>,
) -> Result<Seq<TokenView>, TokenizeError> {
    match rest {
        Ok(r) => Ok(done + r),
        Err(e) => Err(e),
    }
}

pub proof fn lemma_toks_then_step(
    done: Seq<TokenView>,
    t: TokenView,
    rest: Result<Seq<TokenView>, TokenizeError>,
)
    ensures
        toks_then(done.push(t), rest) == toks_then(done, cons_token(t, rest)),
{
    match rest {
        Ok(r) => {
            assert(done.push(t) + r =~= done + (seq![t] + r));
        },
        Err(_) => {},
    }
}

pub open spec fn offset_amount(offset: Option<usize>) -> int {
    match offset {
        Some(k) => k as int,
        None => 0,
    }
}

/// Converts raw source text into the ordered token sequence, one forward
/// pass, left to right.
pub struct Tokenizer {
    pub content: String,
    pub tokens: Vec<Token>,
    pub index: usize,
}

impl Tokenizer {
    /// A fresh tokenizer over a copy of the given source text.
    pub fn new(content: &String) -> (t: Tokenizer)
        ensures
            t.content@ == content@,
            t.tokens@.len() == 0,
            t.index == 0,
    {
        Tokenizer { content: content.clone(), tokens: Vec::new(), index: 0 }
    }

    /// The character `offset` places past the cursor, if any.
    pub fn peek(&self, offset: Option<usize>) -> (r: Option<char>)
        requires
            self.index + offset_amount(offset) <= usize::MAX,
        ensures
            r == (if self.index + offset_amount(offset) < self.content@.len() {
                Some(self.content@[self.index + offset_amount(offset)])
            } else {
                None::<char>
            }),
    {
        let off: usize = match offset {
            Some(k) => k,
            None => 0,
        };
        let n = self.content.as_str().unicode_len();
        if self.index + off < n {
            Some(self.content.as_str().get_char(self.index + off))
        } else {
            None
        }
    }

    /// Consumes and returns the character at the cursor.
    pub fn accept(&mut self) -> (r: Option<char>)
        requires
            old(self).index < old(self).content@.len(),
        ensures
            final(self).index == old(self).index + 1,
            final(self).content == old(self).content,
            final(self).tokens == old(self).tokens,
            r == Some(old(self).content@[old(self).index as int]),
    {
        let n = self.content.as_str().unicode_len();
        let c = self.content.as_str().get_char(self.index);
        assert(self.index < n);
        self.index = self.index + 1;
        Some(c)
    }

    /// Consumes one character, appending it to the buffer.
    pub fn accept_to_buffer(&mut self, buffer: &mut String)
        requires
            old(self).index < old(self).content@.len(),
        ensures
            final(self).index == old(self).index + 1,
            final(self).content == old(self).content,
            final(self).tokens == old(self).tokens,
            final(buffer)@ == old(buffer)@ + seq![old(self).content@[old(self).index as int]],
    {
        let n = self.content.as_str().unicode_len();
        assert(self.index < n);
        let s = self.content.as_str().substring_char(self.index, self.index + 1);
        proof {
            assert(s@ =~= seq![self.content@[self.index as int]]);
        }
        buffer.append(s);
        let _ = self.accept();
    }

    /// Tokenizes the remaining input to the end, appending the produced
    /// tokens in source order; on success the whole input has been consumed
    /// exactly once.
    pub fn run(&mut self) -> (r: Result<(), TokenizeError>)
        requires
            old(self).index <= old(self).content@.len(),
        ensures
            final(self).content@ == old(self).content@,
            match spec_tokenize(old(self).content@, old(self).index as int) {
                Ok(ts) => r is Ok && token_views(final(self).tokens@) == token_views(
                    old(self).tokens@,
                ) + ts && final(self).index == final(self).content@.len(),
                Err(e) => r == Err::<(), TokenizeError>(e),
            },
    {
        let ghost s = self.content@;
        let ghost start = self.index as int;
        let ghost toks0 = token_views(self.tokens@);
        let ghost mut done: Seq<TokenView> = Seq::empty();
        let n = self.content.as_str().unicode_len();
        while self.index < n
            invariant
                s == old(self).content@,
                start == old(self).index as int,
                toks0 == token_views(old(self).tokens@),
                self.content@ == s,
                n as nat == s.len(),
                self.index <= n,
                token_views(self.tokens@) == toks0 + done,
                toks_then(done, spec_tokenize(s, self.index as int)) == spec_tokenize(s, start),
            decreases n - self.index,
        {
            let ghost i0 = self.index as int;
            let ghost done0 = done;
            let c = self.content.as_str().get_char(self.index);
            if is_letter_char(c) {
                let mut buffer = String::new();
                self.accept_to_buffer(&mut buffer);
                let ghost end = i0 + 1 + alnum_run(s, i0 + 1);
                proof {
                    assert(buffer@ =~= s.subrange(i0, i0 + 1));
                }
                loop
                    invariant
                        self.content@ == s,
                        n as nat == s.len(),
                        token_views(self.tokens@) == toks0 + done,
                        done == done0,
                        0 <= i0 < self.index as int <= s.len(),
                        self.index as int + alnum_run(s, self.index as int) == end,
                        buffer@ == s.subrange(i0, self.index as int),
                    ensures
                        self.content@ == s,
                        token_views(self.tokens@) == toks0 + done,
                        0 <= i0 < self.index as int <= s.len(),
                        self.index as int == end,
                        buffer@ == s.subrange(i0, self.index as int),
                    decreases s.len() - self.index,
                {
                    let p = self.peek(None);
                    let cont = match p {
                        Some(c2) => is_alnum_char(c2),
                        None => false,
                    };
                    if !cont {
                        proof {
                            assert(alnum_run(s, self.index as int) == 0);
                        }
                        break ;
                    }
                    self.accept_to_buffer(&mut buffer);
                    proof {
                        assert(buffer@ =~= s.subrange(i0, self.index as int));
                    }
                }
                let ghost w = buffer@;
                let tok: Token = if str_eq(buffer.as_str(), "print") {
                    Token::PrintKeyword
                } else if str_eq(buffer.as_str(), "let") {
                    Token::LetKeyword
                } else if str_eq(buffer.as_str(), "to") {
                    Token::ToKeyword
                } else {
                    Token::Literal(LiteralValue::Text(buffer))
                };
                proof {
                    assert(tok@ == word_token(w));
                }
                let ghost tokv = tok@;
                let ghost pre = self.tokens@;
                proof {
                    lemma_token_views_push(pre, tok);
                    lemma_push_concat(toks0, done, tokv);
                }
                self.tokens.push(tok);
                proof {
                    assert(spec_tokenize(s, i0) == cons_token(tokv, spec_tokenize(s, end)));
                    lemma_toks_then_step(done, tokv, spec_tokenize(s, end));
                    done = done.push(tokv);
                    assert(token_views(self.tokens@) == toks0 + done);
                }
            } else if is_digit_char(c) {
                let mut buffer = String::new();
                self.accept_to_buffer(&mut buffer);
                let ghost end = i0 + 1 + digit_run(s, i0 + 1);
                proof {
                    assert(buffer@ =~= s.subrange(i0, i0 + 1));
                    lemma_digit_run_chars(s, i0 + 1);
                }
                loop
                    invariant
                        self.content@ == s,
                        n as nat == s.len(),
                        token_views(self.tokens@) == toks0 + done,
                        done == done0,
                        0 <= i0 < self.index as int <= s.len(),
                        self.index as int + digit_run(s, self.index as int) == end,
                        buffer@ == s.subrange(i0, self.index as int),
                        forall|k: int| i0 <= k < self.index as int ==> is_digit(s[k]),
                    ensures
                        self.content@ == s,
                        token_views(self.tokens@) == toks0 + done,
                        0 <= i0 < self.index as int <= s.len(),
                        self.index as int == end,
                        buffer@ == s.subrange(i0, self.index as int),
                        forall|k: int| i0 <= k < self.index as int ==> is_digit(s[k]),
                    decreases s.len() - self.index,
                {
                    let p = self.peek(None);
                    let cont = match p {
                        Some(c2) => is_digit_char(c2),
                        None => false,
                    };
                    if !cont {
                        proof {
                            assert(digit_run(s, self.index as int) == 0);
                        }
                        break ;
                    }
                    self.accept_to_buffer(&mut buffer);
                    proof {
                        assert(buffer@ =~= s.subrange(i0, self.index as int));
                    }
                }
                proof {
                    assert(forall|k: int| 0 <= k < buffer@.len() ==> is_digit(buffer@[k]));
                }
                let ghost w = buffer@;
                match parse_digits(buffer.as_str()) {
                    Ok(v) => {
                        let tok = Token::Literal(LiteralValue::Integer(v));
                        proof {
                            assert(tok@ == TokenView::Literal(
                                LiteralView::Integer(digits_val(w) as int),
                            ));
                        }
                        let ghost tokv = tok@;
                        let ghost pre = self.tokens@;
                        proof {
                            lemma_token_views_push(pre, tok);
                            lemma_push_concat(toks0, done, tokv);
                        }
                        self.tokens.push(tok);
                        proof {
                            assert(spec_tokenize(s, i0) == cons_token(tokv, spec_tokenize(s, end)));
                            lemma_toks_then_step(done, tokv, spec_tokenize(s, end));
                            done = done.push(tokv);
                            assert(token_views(self.tokens@) == toks0 + done);
                        }
                    },
                    Err(e) => {
                        proof {
                            assert(spec_tokenize(s, i0) == Err::<Seq<TokenView>, TokenizeError>(
                                TokenizeError::IntegerOverflow,
                            ));
                        }
                        return Err(e);
                    },
                }
            } else {
                let _ = self.accept();
                if c == '(' {
                    let ghost pre = self.tokens@;
                    proof {
                        lemma_token_views_push(pre, Token::OpenParen);
                        lemma_push_concat(toks0, done, TokenView::OpenParen);
                    }
                    self.tokens.push(Token::OpenParen);
                    proof {
                        assert(spec_tokenize(s, i0) == cons_token(TokenView::OpenParen, spec_tokenize(s, i0 + 1)));
                        lemma_toks_then_step(done, TokenView::OpenParen, spec_tokenize(s, i0 + 1));
                        done = done.push(TokenView::OpenParen);
                        assert(token_views(self.tokens@) == toks0 + done);
                    }
                } else if c == ')' {
                    let ghost pre = self.tokens@;
                    proof {
                        lemma_token_views_push(pre, Token::CloseParen);
                        lemma_push_concat(toks0, done, TokenView::CloseParen);
                    }
                    self.tokens.push(Token::CloseParen);
                    proof {
                        assert(spec_tokenize(s, i0) == cons_token(TokenView::CloseParen, spec_tokenize(s, i0 + 1)));
                        lemma_toks_then_step(done, TokenView::CloseParen, spec_tokenize(s, i0 + 1));
                        done = done.push(TokenView::CloseParen);
                        assert(token_views(self.tokens@) == toks0 + done);
                    }
                } else if c == ',' {
                    let ghost pre = self.tokens@;
                    proof {
                        lemma_token_views_push(pre, Token::Comma);
                        lemma_push_concat(toks0, done, TokenView::Comma);
                    }
                    self.tokens.push(Token::Comma);
                    proof {
                        assert(spec_tokenize(s, i0) == cons_token(TokenView::Comma, spec_tokenize(s, i0 + 1)));
                        lemma_toks_then_step(done, TokenView::Comma, spec_tokenize(s, i0 + 1));
                        done = done.push(TokenView::Comma);
                        assert(token_views(self.tokens@) == toks0 + done);
                    }
                } else {
                    proof {
                        assert(spec_tokenize(s, i0) == spec_tokenize(s, i0 + 1));
                    }
                }
            }
        }
        proof {
            assert(spec_tokenize(s, self.index as int) == Ok::<Seq<TokenView>, TokenizeError>(
                Seq::empty(),
            ));
            assert(done + Seq::<TokenView>::empty() =~= done);
        }
        Ok(())
    }
}

} // verus!
