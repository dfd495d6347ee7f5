use vstd::prelude::*;
use vstd::string::*;

use crate::ast::{
    LiteralValue, LiteralView, Statement, StatementView, Token, TokenView, literal_views,
    statement_views, str_eq,
};
use crate::numbers::{int_repr, int_text};
use crate::tokenizer::offset_amount;

verus! {

/// The emitted text of one literal value: user text verbatim, or the
/// decimal digits of an integer.
pub open spec fn lit_text(v: LiteralView) -> Seq<char> {
    match v {
        LiteralView::Text(s) => s,
        LiteralView::Integer(n) => int_repr(n),
    }
}

/// The chained output expression for a list of printed values: every value
/// in order, each followed by the chaining operator, with no separators.
pub open spec fn print_text(vals: Seq<LiteralView>) -> Seq<char>
    decreases vals.len(),
{
    if vals.len() == 0 {
        Seq::empty()
    } else {
        print_text(vals.drop_last()) + lit_text(vals.last()) + "<<"@
    }
}

/// The emitted body text of one statement. A `Let` whose key is not a text
/// literal, or whose value is not a literal, emits nothing.
pub open spec fn stmt_text(st: StatementView) -> Seq<char> {
    match st {
        StatementView::Print(vals) => "std::cout<<"@ + print_text(vals) + "std::endl;\n"@,
        StatementView::Let { key, value } => match key {
            TokenView::Literal(LiteralView::Text(k)) => match value {
                TokenView::Literal(LiteralView::Text(v)) => "std::string "@ + k + "="@ + v
                    + ";\n"@,
                TokenView::Literal(LiteralView::Integer(n)) => "int "@ + k + "="@ + int_repr(n)
                    + ";\n"@,
                _ => Seq::empty(),
            },
            _ => Seq::empty(),
        },
    }
}

/// Adds a header name unless it is already present: first-occurrence order,
/// no duplicates.
pub open spec fn add_header(hs: Seq<Seq<char>>, h: Seq<char>) -> Seq<Seq<char>> {
    if hs.contains(h) {
        hs
    } else {
        hs.push(h)
    }
}

/// The header names a statement requires: the streaming-output header for a
/// print, the text-type header for a text-valued declaration.
pub open spec fn stmt_headers(hs: Seq<Seq<char>>, st: StatementView) -> Seq<Seq<char>> {
    match st {
        StatementView::Print(_) => add_header(hs, "<iostream>"@),
        StatementView::Let { key, value } => match (key, value) {
            (
                TokenView::Literal(LiteralView::Text(_)),
                TokenView::Literal(LiteralView::Text(_)),
            ) => add_header(hs, "<string>"@),
            _ => hs,
        },
    }
}

/// All header names a statement sequence requires, in first-occurrence
/// order.
pub open spec fn headers_of(sts: Seq<StatementView>) -> Seq<Seq<char>>
    decreases sts.len(),
{
    if sts.len() == 0 {
        Seq::empty()
    } else {
        stmt_headers(headers_of(sts.drop_last()), sts.last())
    }
}

/// The emitted body text of a statement sequence, in order.
pub open spec fn body_of(sts: Seq<StatementView>) -> Seq<char>
    decreases sts.len(),
{
    if sts.len() == 0 {
        Seq::empty()
    } else {
        body_of(sts.drop_last()) + stmt_text(sts.last())
    }
}

/// One emitted header directive line.
pub open spec fn directive(h: Seq<char>) -> Seq<char> {
    "#incl"@ + "ude "@ + h + "\n"@
}

/// The emitted header section: one directive line per collected header.
pub open spec fn headers_text(hs: Seq<Seq<char>>) -> Seq<char>
    decreases hs.len(),
{
    if hs.len() == 0 {
        Seq::empty()
    } else {
        headers_text(hs.drop_last()) + directive(hs.last())
    }
}

/// The full generated program for a statement sequence: the header section,
/// a blank line, then the program entry point wrapping the body.
pub open spec fn generated_text(sts: Seq<StatementView>) -> Seq<char> {
    headers_text(headers_of(sts)) + "\n"@ + "int main() {\n"@ + body_of(sts) + "}"@
}

pub open spec fn header_views(hs: Seq<String>) -> Seq<Seq<char>> {
    hs.map_values(|h: String| h@)
}

pub proof fn lemma_header_views_push(hs: Seq<String>, h: String)
    ensures
        header_views(hs.push(h)) == header_views(hs).push(h@),
{
    assert(header_views(hs.push(h)) =~= header_views(hs).push(h@));
}

/// The header collection never holds the same name twice: a statement that
/// needs a header already present adds nothing.
pub proof fn lemma_headers_no_dup(sts: Seq<StatementView>)
    ensures
        forall|a: int, b: int|
            0 <= a < b < headers_of(sts).len() ==> headers_of(sts)[a] != headers_of(sts)[b],
    decreases sts.len(),
{
    if sts.len() > 0 {
        lemma_headers_no_dup(sts.drop_last());
        let hs = headers_of(sts.drop_last());
        let hs2 = headers_of(sts);
        if hs2 != hs {
            let h = hs2.last();
            assert(hs2 == hs.push(h) && !hs.contains(h));
            assert forall|a: int, b: int| 0 <= a < b < hs2.len() implies hs2[a] != hs2[b] by {
                if b < hs.len() {
                    assert(hs2[a] == hs[a] && hs2[b] == hs[b]);
                } else {
                    assert(hs2[b] == h);
                    assert(hs2[a] == hs[a]);
                    if hs[a] == h {
                        assert(hs.contains(h));
                    }
                }
            }
        }
    }
}

/// Appends a header name to the collection unless an equal one is already
/// there, keeping first-occurrence order with no duplicates.
pub fn ensure_header(headers: &mut Vec<String>, header: &str)
    ensures
        header_views(final(headers)@) == add_header(header_views(old(headers)@), header@),
{
    let ghost hs0 = header_views(headers@);
    let n = headers.len();
    let mut k: usize = 0;
    while k < n
        invariant
            hs0 == header_views(headers@),
            n == headers@.len(),
            0 <= k <= n,
            forall|m: int| 0 <= m < k ==> headers@[m]@ != header@,
        decreases n - k,
    {
        if str_eq(headers[k].as_str(), header) {
            proof {
                assert(hs0[k as int] == header@);
                assert(hs0.contains(header@));
            }
            return ;
        }
        k = k + 1;
    }
    proof {
        assert forall|m: int| 0 <= m < hs0.len() implies hs0[m] != header@ by {
            assert(headers@[m]@ != header@);
        }
        assert(!hs0.contains(header@));
    }
    let owned = header.to_owned();
    proof {
        lemma_header_views_push(headers@, owned);
    }
    headers.push(owned);
}

/// Consumes the statement sequence and emits the target-language program
/// text.
pub struct Generator<'a> {
    pub stmts: &'a Vec<Statement>,
    pub index: usize,
}

impl Generator<'_> {
    /// The statement `offset` places past the cursor, if any.
    pub fn peek(&self, offset: Option<usize>) -> (r: Option<&Statement>)
        requires
            self.index + offset_amount(offset) <= usize::MAX,
        ensures
            match r {
                Some(st) => self.index + offset_amount(offset) < self.stmts@.len() && *st
                    == self.stmts@[self.index + offset_amount(offset)],
                None => self.index + offset_amount(offset) >= self.stmts@.len(),
            },
    {
        let off: usize = match offset {
            Some(k) => k,
            None => 0,
        };
        if self.index + off < self.stmts.len() {
            Some(&self.stmts[self.index + off])
        } else {
            None
        }
    }

    /// Advances the cursor one statement, returning the statement passed.
    pub fn accept(&mut self) -> (r: &Statement)
        requires
            old(self).index < old(self).stmts@.len(),
        ensures
            final(self).index == old(self).index + 1,
            final(self).stmts == old(self).stmts,
            *r == old(self).stmts@[old(self).index as int],
    {
        let n = self.stmts.len();
        assert(self.index < n);
        self.index = self.index + 1;
        &self.stmts[self.index - 1]
    }

    /// Emits the full target program for the remaining statements: the
    /// collected header directives in first-occurrence order, a blank line,
    /// then the entry point wrapping every statement's text in order.
    pub fn generate(&mut self) -> (r: String)
        requires
            old(self).index <= old(self).stmts@.len(),
        ensures
            final(self).stmts@ == old(self).stmts@,
            final(self).index == old(self).stmts@.len(),
            r@ == generated_text(statement_views(old(self).stmts@).skip(old(self).index as int)),
    {
        let ghost svec = self.stmts@;
        let ghost all = statement_views(self.stmts@);
        let ghost start = self.index as int;
        let mut headers: Vec<String> = Vec::new();
        let mut src = String::new();
        src.append("int main() {\n");
        let n = self.stmts.len();
        while self.index < n
            invariant
                self.stmts@ == svec,
                all == statement_views(svec),
                n == svec.len(),
                0 <= start <= self.index as int <= n,
                header_views(headers@) == headers_of(all.subrange(start, self.index as int)),
                src@ == "int main() {\n"@ + body_of(all.subrange(start, self.index as int)),
            decreases n - self.index,
        {
            let ghost k = self.index as int;
            let ghost pre = all.subrange(start, k);
            let ghost hs_pre = header_views(headers@);
            let ghost src_pre = src@;
            proof {
                assert(all.subrange(start, k + 1).drop_last() =~= pre);
                assert(all.subrange(start, k + 1).last() == all[k]);
            }
            let stmt = self.peek(None).unwrap();
            proof {
                assert(stmt@ == all[k]);
            }
            match stmt {
                Statement::Print(user_types) => {
                    ensure_header(&mut headers, "<iostream>");
                    src.append("std::cout<<");
                    let ghost vals = literal_views(user_types@);
                    let ghost src0 = src@;
                    let m = user_types.len();
                    let mut t: usize = 0;
                    while t < m
                        invariant
                            m == user_types@.len(),
                            0 <= t <= m,
                            vals == literal_views(user_types@),
                            src@ == src0 + print_text(vals.take(t as int)),
                        decreases m - t,
                    {
                        let ghost tv = vals[t as int];
                        proof {
                            assert(vals.take(t as int + 1).drop_last() =~= vals.take(t as int));
                            assert(vals.take(t as int + 1).last() == tv);
                        }
                        match &user_types[t] {
                            LiteralValue::Integer(x) => {
                                let txt = int_text(*x);
                                src.append(txt.as_str());
                                src.append("<<");
                                proof {
                                    assert(lit_text(tv) == int_repr(*x as int));
                                    assert(src@ =~= src0 + print_text(vals.take(t as int + 1)));
                                }
                            },
                            LiteralValue::Text(x) => {
                                src.append(x.as_str());
                                src.append("<<");
                                proof {
                                    assert(lit_text(tv) == x@);
                                    assert(src@ =~= src0 + print_text(vals.take(t as int + 1)));
                                }
                            },
                        }
                        t = t + 1;
                    }
                    src.append("std::endl;\n");
                    proof {
                        assert(vals.take(m as int) =~= vals);
                        assert(stmt_text(all[k]) == "std::cout<<"@ + print_text(vals)
                            + "std::endl;\n"@);
                        assert(src@ =~= "int main() {\n"@ + body_of(all.subrange(start, k + 1)));
                        assert(stmt_headers(hs_pre, all[k]) == add_header(hs_pre, "<iostream>"@));
                    }
                },
                Statement::Let { key, value } => {
                    match key {
                        Token::Literal(LiteralValue::Text(key_string)) => {
                            match value {
                                Token::Literal(LiteralValue::Text(value_string)) => {
                                    ensure_header(&mut headers, "<string>");
                                    src.append("std::string ");
                                    src.append(key_string.as_str());
                                    src.append("=");
                                    src.append(value_string.as_str());
                                    src.append(";\n");
                                    proof {
                                        assert(stmt_text(all[k]) == "std::string "@ + key_string@
                                            + "="@ + value_string@ + ";\n"@);
                                        assert(src@ =~= "int main() {\n"@ + body_of(
                                            all.subrange(start, k + 1),
                                        ));
                                    }
                                },
                                Token::Literal(LiteralValue::Integer(value_int)) => {
                                    src.append("int ");
                                    src.append(key_string.as_str());
                                    src.append("=");
                                    let txt = int_text(*value_int);
                                    src.append(txt.as_str());
                                    src.append(";\n");
                                    proof {
                                        assert(stmt_text(all[k]) == "int "@ + key_string@ + "="@
                                            + int_repr(*value_int as int) + ";\n"@);
                                        assert(src@ =~= "int main() {\n"@ + body_of(
                                            all.subrange(start, k + 1),
                                        ));
                                        assert(stmt_headers(hs_pre, all[k]) == hs_pre);
                                    }
                                },
                                _ => {
                                    proof {
                                        assert(stmt_text(all[k]) == Seq::<char>::empty());
                                        assert(src@ =~= "int main() {\n"@ + body_of(
                                            all.subrange(start, k + 1),
                                        ));
                                        assert(stmt_headers(hs_pre, all[k]) == hs_pre);
                                    }
                                },
                            }
                        },
                        _ => {
                            proof {
                                assert(stmt_text(all[k]) == Seq::<char>::empty());
                                assert(src@ =~= "int main() {\n"@ + body_of(
                                    all.subrange(start, k + 1),
                                ));
                                assert(stmt_headers(hs_pre, all[k]) == hs_pre);
                            }
                        },
                    }
                },
            }
            self.accept();
        }
        src.append("}");
        let ghost hs_all = header_views(headers@);
        let mut out = String::new();
        let hn = headers.len();
        let mut q: usize = 0;
        while q < hn
            invariant
                hn == headers@.len(),
                hs_all == header_views(headers@),
                0 <= q <= hn,
                out@ == headers_text(hs_all.take(q as int)),
            decreases hn - q,
        {
            proof {
                assert(hs_all.take(q as int + 1).drop_last() =~= hs_all.take(q as int));
                assert(hs_all.take(q as int + 1).last() == hs_all[q as int]);
            }
            out.append("#incl");
            out.append("ude ");
            out.append(headers[q].as_str());
            out.append("\n");
            proof {
                assert(out@ =~= headers_text(hs_all.take(q as int + 1)));
            }
            q = q + 1;
        }
        proof {
            assert(hs_all.take(hn as int) =~= hs_all);
        }
        out.append("\n");
        out.append(src.as_str());
        proof {
            assert(all.subrange(start, n as int) =~= all.skip(start));
            assert(out@ =~= generated_text(all.skip(start)));
        }
        out
    }
}

} // verus!
