//! Recursive-descent parser for LET forms.
//!
//! ```text
//! form    := LET ( names ) -> ( names ) = expr { , expr } { WHERE name = expr } END
//! names   := [ name { , name } ]
//! expr    := term { (+ | -) term }
//! term    := unary { (* | /) unary }
//! unary   := - unary | power
//! power   := primary [ ** unary ]
//! primary := number | name | name ( [ expr { , expr } ] ) | ( expr )
//! ```
//!
//! The grammar is stated once, as the spec functions below; each parsing
//! method is proved to compute exactly what its spec function says.

use vstd::prelude::*;

use super::ast::{
    exprs_sv, lemma_exprs_sv_push, BinOp, Expr, LetError, LetForm, SExpr, SLetForm,
};
use super::lexer::{chars_of, tokenize, lex_from, toks_sv, Punct, STok, Tok};
use crate::text::push_str;

verus! {

/// A parse error: message and character offset.
pub type SErr = (Seq<char>, int);

/// The token at index `p`, if any.
pub open spec fn tok_at(toks: Seq<(STok, int)>, p: int) -> Option<STok> {
    if 0 <= p < toks.len() {
        Some(toks[p].0)
    } else {
        None
    }
}

/// The character offset of token `p`, or `end` past the last token.
pub open spec fn pos_at(toks: Seq<(STok, int)>, p: int, end: int) -> int {
    if 0 <= p < toks.len() {
        toks[p].1
    } else {
        end
    }
}

pub open spec fn punct_is(toks: Seq<(STok, int)>, p: int, k: Punct) -> bool {
    tok_at(toks, p) == Some(STok::Punct(k))
}

pub open spec fn keyword_is(toks: Seq<(STok, int)>, p: int, w: Seq<char>) -> bool {
    tok_at(toks, p) == Some(STok::Ident(w))
}

pub open spec fn malformed(toks: Seq<(STok, int)>, p: int, end: int) -> SErr {
    ("malformed expression"@, pos_at(toks, p, end))
}

/// `expr := term { (+ | -) term }`, from token `p`; the expression and the
/// index of the first token after it.
pub open spec fn parse_expr(toks: Seq<(STok, int)>, p: int, end: int) -> Result<(SExpr, int), SErr>
    decreases toks.len() - p, 4nat,
{
    if p < 0 || p > toks.len() {
        Err(malformed(toks, p, end))
    } else {
        match parse_term(toks, p, end) {
            Err(e) => Err(e),
            Ok((lhs, q)) => if p < q <= toks.len() {
                expr_tail(toks, q, end, lhs)
            } else {
                Err(malformed(toks, q, end))
            },
        }
    }
}

/// The `{ (+ | -) term }` part of an expression whose left operand is `lhs`.
pub open spec fn expr_tail(toks: Seq<(STok, int)>, p: int, end: int, lhs: SExpr) -> Result<
    (SExpr, int),
    SErr,
>
    decreases toks.len() - p, 5nat,
{
    if 0 <= p && (punct_is(toks, p, Punct::Plus) || punct_is(toks, p, Punct::Minus)) {
        let op = if punct_is(toks, p, Punct::Plus) {
            BinOp::Add
        } else {
            BinOp::Sub
        };
        match parse_term(toks, p + 1, end) {
            Err(e) => Err(e),
            Ok((rhs, q)) => if p + 1 < q <= toks.len() {
                expr_tail(toks, q, end, SExpr::Bin(op, Box::new(lhs), Box::new(rhs)))
            } else {
                Err(malformed(toks, q, end))
            },
        }
    } else {
        Ok((lhs, p))
    }
}

/// `term := unary { (* | /) unary }`.
pub open spec fn parse_term(toks: Seq<(STok, int)>, p: int, end: int) -> Result<(SExpr, int), SErr>
    decreases toks.len() - p, 3nat,
{
    if p < 0 || p > toks.len() {
        Err(malformed(toks, p, end))
    } else {
        match parse_unary(toks, p, end) {
            Err(e) => Err(e),
            Ok((lhs, q)) => if p < q <= toks.len() {
                term_tail(toks, q, end, lhs)
            } else {
                Err(malformed(toks, q, end))
            },
        }
    }
}

/// The `{ (* | /) unary }` part of a term whose left operand is `lhs`.
pub open spec fn term_tail(toks: Seq<(STok, int)>, p: int, end: int, lhs: SExpr) -> Result<
    (SExpr, int),
    SErr,
>
    decreases toks.len() - p, 3nat,
{
    if 0 <= p && (punct_is(toks, p, Punct::Star) || punct_is(toks, p, Punct::Slash)) {
        let op = if punct_is(toks, p, Punct::Star) {
            BinOp::Mul
        } else {
            BinOp::Div
        };
        match parse_unary(toks, p + 1, end) {
            Err(e) => Err(e),
            Ok((rhs, q)) => if p + 1 < q <= toks.len() {
                term_tail(toks, q, end, SExpr::Bin(op, Box::new(lhs), Box::new(rhs)))
            } else {
                Err(malformed(toks, q, end))
            },
        }
    } else {
        Ok((lhs, p))
    }
}

/// `unary := - unary | power`.
pub open spec fn parse_unary(toks: Seq<(STok, int)>, p: int, end: int) -> Result<(SExpr, int), SErr>
    decreases toks.len() - p, 2nat,
{
    if p < 0 || p > toks.len() {
        Err(malformed(toks, p, end))
    } else if punct_is(toks, p, Punct::Minus) {
        match parse_unary(toks, p + 1, end) {
            Err(e) => Err(e),
            Ok((e, q)) => Ok((SExpr::Neg(Box::new(e)), q)),
        }
    } else {
        parse_power(toks, p, end)
    }
}

/// `power := primary [ ** unary ]` (so `**` groups to the right).
pub open spec fn parse_power(toks: Seq<(STok, int)>, p: int, end: int) -> Result<(SExpr, int), SErr>
    decreases toks.len() - p, 1nat,
{
    if p < 0 || p > toks.len() {
        Err(malformed(toks, p, end))
    } else {
        match parse_primary(toks, p, end) {
            Err(e) => Err(e),
            Ok((base, q)) => if p < q <= toks.len() {
                if punct_is(toks, q, Punct::StarStar) {
                    match parse_unary(toks, q + 1, end) {
                        Err(e) => Err(e),
                        Ok((ex, r)) => Ok(
                            (SExpr::Bin(BinOp::Pow, Box::new(base), Box::new(ex)), r),
                        ),
                    }
                } else {
                    Ok((base, q))
                }
            } else {
                Err(malformed(toks, q, end))
            },
        }
    }
}

/// `primary := number | name | name ( args ) | ( expr )`.
pub open spec fn parse_primary(toks: Seq<(STok, int)>, p: int, end: int) -> Result<(SExpr, int), SErr>
    decreases toks.len() - p, 0nat,
{
    if p < 0 || p >= toks.len() {
        Err(("expected an expression"@, pos_at(toks, p, end)))
    } else {
        match toks[p].0 {
            STok::Num(t) => Ok((SExpr::Lit(t), p + 1)),
            STok::Ident(n) => if punct_is(toks, p + 1, Punct::LParen) {
                match parse_args(toks, p + 2, end) {
                    Err(e) => Err(e),
                    Ok((args, q)) => Ok((SExpr::Call(n, args), q)),
                }
            } else {
                Ok((SExpr::Var(n), p + 1))
            },
            STok::Punct(Punct::LParen) => match parse_expr(toks, p + 1, end) {
                Err(e) => Err(e),
                Ok((e, q)) => if punct_is(toks, q, Punct::RParen) {
                    Ok((e, q + 1))
                } else {
                    Err(("expected a closing parenthesis"@, pos_at(toks, q, end)))
                },
            },
            _ => Err(("expected an expression"@, toks[p].1)),
        }
    }
}

/// The arguments of a call, after its opening parenthesis, through the
/// closing one.
pub open spec fn parse_args(toks: Seq<(STok, int)>, p: int, end: int) -> Result<
    (Seq<SExpr>, int),
    SErr,
>
    decreases toks.len() - p, 7nat,
{
    if punct_is(toks, p, Punct::RParen) {
        Ok((seq![], p + 1))
    } else {
        args_rest(toks, p, end, seq![])
    }
}

/// Arguments from token `p` on, after those in `acc`.
pub open spec fn args_rest(toks: Seq<(STok, int)>, p: int, end: int, acc: Seq<SExpr>) -> Result<
    (Seq<SExpr>, int),
    SErr,
>
    decreases toks.len() - p, 6nat,
{
    match parse_expr(toks, p, end) {
        Err(e) => Err(e),
        Ok((e, q)) => if p < q <= toks.len() {
            if punct_is(toks, q, Punct::Comma) {
                args_rest(toks, q + 1, end, acc.push(e))
            } else if punct_is(toks, q, Punct::RParen) {
                Ok((acc.push(e), q + 1))
            } else {
                Err(("expected a comma or a closing parenthesis"@, pos_at(toks, q, end)))
            }
        } else {
            Err(malformed(toks, q, end))
        },
    }
}

/// A parenthesised list of names, from the token after its opening
/// parenthesis through the closing one.
pub open spec fn parse_names(toks: Seq<(STok, int)>, p: int, end: int) -> Result<
    (Seq<Seq<char>>, int),
    SErr,
> {
    if punct_is(toks, p, Punct::RParen) {
        Ok((seq![], p + 1))
    } else {
        names_rest(toks, p, end, seq![])
    }
}

pub open spec fn names_rest(toks: Seq<(STok, int)>, p: int, end: int, acc: Seq<Seq<char>>) -> Result<
    (Seq<Seq<char>>, int),
    SErr,
>
    decreases toks.len() - p,
{
    if p < 0 || p >= toks.len() {
        Err(("expected a name"@, pos_at(toks, p, end)))
    } else {
        match toks[p].0 {
            STok::Ident(n) => if punct_is(toks, p + 1, Punct::Comma) {
                names_rest(toks, p + 2, end, acc.push(n))
            } else if punct_is(toks, p + 1, Punct::RParen) {
                Ok((acc.push(n), p + 2))
            } else {
                Err(("expected a comma or a closing parenthesis"@, pos_at(toks, p + 1, end)))
            },
            _ => Err(("expected a name"@, toks[p].1)),
        }
    }
}

/// The result expressions, separated by commas, from token `p`.
pub open spec fn results_rest(toks: Seq<(STok, int)>, p: int, end: int, acc: Seq<SExpr>) -> Result<
    (Seq<SExpr>, int),
    SErr,
>
    decreases toks.len() - p,
{
    if p < 0 || p > toks.len() {
        Err(malformed(toks, p, end))
    } else {
        match parse_expr(toks, p, end) {
            Err(e) => Err(e),
            Ok((e, q)) => if p < q <= toks.len() {
                if punct_is(toks, q, Punct::Comma) {
                    results_rest(toks, q + 1, end, acc.push(e))
                } else {
                    Ok((acc.push(e), q))
                }
            } else {
                Err(malformed(toks, q, end))
            },
        }
    }
}

/// `{ WHERE name = expr } END` from token `p`; nothing may follow `END`.
pub open spec fn wheres_rest(
    toks: Seq<(STok, int)>,
    p: int,
    end: int,
    acc: Seq<(Seq<char>, SExpr)>,
) -> Result<Seq<(Seq<char>, SExpr)>, SErr>
    decreases toks.len() - p,
{
    if p < 0 || p >= toks.len() {
        Err(("expected WHERE or END"@, end))
    } else if keyword_is(toks, p, "END"@) {
        if p + 1 == toks.len() {
            Ok(acc)
        } else {
            Err(("unexpected text after END"@, pos_at(toks, p + 1, end)))
        }
    } else if keyword_is(toks, p, "WHERE"@) {
        match tok_at(toks, p + 1) {
            Some(STok::Ident(n)) => if punct_is(toks, p + 2, Punct::Assign) {
                match parse_expr(toks, p + 3, end) {
                    Err(e) => Err(e),
                    Ok((e, q)) => if p + 3 < q <= toks.len() {
                        wheres_rest(toks, q, end, acc.push((n, e)))
                    } else {
                        Err(malformed(toks, q, end))
                    },
                }
            } else {
                Err(("expected ="@, pos_at(toks, p + 2, end)))
            },
            _ => Err(("expected a name"@, pos_at(toks, p + 1, end))),
        }
    } else {
        Err(("expected WHERE or END"@, toks[p].1))
    }
}

/// A whole LET form from its tokens; `end` is the length of the source.
pub open spec fn parse_tokens(toks: Seq<(STok, int)>, end: int) -> Result<SLetForm, SErr> {
    if !keyword_is(toks, 0, "LET"@) {
        Err(("expected LET"@, pos_at(toks, 0, end)))
    } else if !punct_is(toks, 1, Punct::LParen) {
        Err(("expected an opening parenthesis"@, pos_at(toks, 1, end)))
    } else {
        match parse_names(toks, 2, end) {
            Err(e) => Err(e),
            Ok((inputs, p1)) => if !punct_is(toks, p1, Punct::Arrow) {
                Err(("expected ->"@, pos_at(toks, p1, end)))
            } else if !punct_is(toks, p1 + 1, Punct::LParen) {
                Err(("expected an opening parenthesis"@, pos_at(toks, p1 + 1, end)))
            } else {
                match parse_names(toks, p1 + 2, end) {
                    Err(e) => Err(e),
                    Ok((outputs, p2)) => if !punct_is(toks, p2, Punct::Assign) {
                        Err(("expected ="@, pos_at(toks, p2, end)))
                    } else {
                        match results_rest(toks, p2 + 1, end, seq![]) {
                            Err(e) => Err(e),
                            Ok((results, p3)) => match wheres_rest(toks, p3, end, seq![]) {
                                Err(e) => Err(e),
                                Ok(wheres) => if results.len() != outputs.len() {
                                    Err(
                                        (
                                            "the number of results differs from the number of outputs"@,
                                            pos_at(toks, p2 + 1, end),
                                        ),
                                    )
                                } else {
                                    Ok(SLetForm { inputs, outputs, results, wheres })
                                },
                            },
                        }
                    },
                }
            },
        }
    }
}

/// A LET form from its source text: tokens first, then the grammar.
pub open spec fn parse_spec(src: Seq<char>) -> Result<SLetForm, SErr> {
    match lex_from(src, 0) {
        Err(e) => Err(e),
        Ok(toks) => parse_tokens(toks, src.len() as int),
    }
}

/// The value of a parse result.
pub open spec fn expr_res(r: Result<(Expr, usize), LetError>) -> Result<(SExpr, int), SErr> {
    match r {
        Ok((e, q)) => Ok((e.sv(), q as int)),
        Err(e) => Err(e.sv()),
    }
}

pub open spec fn exprs_res(r: Result<(Vec<Expr>, usize), LetError>) -> Result<
    (Seq<SExpr>, int),
    SErr,
> {
    match r {
        Ok((v, q)) => Ok((exprs_sv(v@), q as int)),
        Err(e) => Err(e.sv()),
    }
}

pub open spec fn strings_sv(v: Seq<String>) -> Seq<Seq<char>> {
    v.map_values(|s: String| s@)
}

pub open spec fn wheres_sv(v: Seq<(String, Expr)>) -> Seq<(Seq<char>, SExpr)> {
    v.map_values(|w: (String, Expr)| (w.0@, w.1.sv()))
}

/// An error with a fixed message.
pub fn error_at(msg: &str, pos: usize) -> (e: LetError)
    ensures
        e.sv() == (msg@, pos as int),
{
    let mut message = String::new();
    push_str(&mut message, msg);
    LetError { message, pos }
}

struct Parser {
    toks: Vec<(Tok, usize)>,
    end: usize,
}

impl Parser {
    spec fn st(&self) -> Seq<(STok, int)> {
        toks_sv(self.toks@)
    }

    fn len(&self) -> (n: usize)
        ensures
            n == self.st().len(),
            n == self.toks@.len(),
    {
        self.toks.len()
    }

    fn pos_at(&self, p: usize) -> (r: usize)
        ensures
            r == pos_at(self.st(), p as int, self.end as int),
            self.st().len() <= usize::MAX,
    {
        let n = self.toks.len();
        if p < n {
            self.toks[p].1
        } else {
            self.end
        }
    }

    fn punct_is(&self, p: usize, k: Punct) -> (r: bool)
        ensures
            r == punct_is(self.st(), p as int, k),
            self.st().len() <= usize::MAX,
    {
        let n = self.toks.len();
        if p < n {
            match &self.toks[p].0 {
                Tok::Punct(q) => *q == k,
                _ => false,
            }
        } else {
            false
        }
    }

    fn keyword_is(&self, p: usize, w: &str) -> (r: bool)
        ensures
            r == keyword_is(self.st(), p as int, w@),
            self.st().len() <= usize::MAX,
    {
        let n = self.toks.len();
        if p < n {
            match &self.toks[p].0 {
                Tok::Ident(s) => {
                    let owned = w.to_owned();
                    *s == owned
                },
                _ => false,
            }
        } else {
            false
        }
    }

    fn malformed(&self, p: usize) -> (e: LetError)
        ensures
            e.sv() == malformed(self.st(), p as int, self.end as int),
    {
        error_at("malformed expression", self.pos_at(p))
    }

    fn expr(&self, p: usize) -> (r: Result<(Expr, usize), LetError>)
        requires
            p <= self.st().len(),
        ensures
            expr_res(r) == parse_expr(self.st(), p as int, self.end as int),
        decreases self.st().len() - p, 4nat,
    {
        match self.term(p) {
            Err(e) => Err(e),
            Ok((lhs, q)) => {
                if p < q && q <= self.len() {
                    self.expr_tail(q, lhs)
                } else {
                    Err(self.malformed(q))
                }
            },
        }
    }

    fn expr_tail(&self, p: usize, lhs: Expr) -> (r: Result<(Expr, usize), LetError>)
        requires
            p <= self.st().len(),
        ensures
            expr_res(r) == expr_tail(self.st(), p as int, self.end as int, lhs.sv()),
        decreases self.st().len() - p, 5nat,
    {
        let plus = self.punct_is(p, Punct::Plus);
        if plus || self.punct_is(p, Punct::Minus) {
            let op = if plus {
                BinOp::Add
            } else {
                BinOp::Sub
            };
            match self.term(p + 1) {
                Err(e) => Err(e),
                Ok((rhs, q)) => {
                    if p + 1 < q && q <= self.len() {
                        self.expr_tail(q, Expr::Bin(op, Box::new(lhs), Box::new(rhs)))
                    } else {
                        Err(self.malformed(q))
                    }
                },
            }
        } else {
            Ok((lhs, p))
        }
    }

    fn term(&self, p: usize) -> (r: Result<(Expr, usize), LetError>)
        requires
            p <= self.st().len(),
        ensures
            expr_res(r) == parse_term(self.st(), p as int, self.end as int),
        decreases self.st().len() - p, 3nat,
    {
        match self.unary(p) {
            Err(e) => Err(e),
            Ok((lhs, q)) => {
                if p < q && q <= self.len() {
                    self.term_tail(q, lhs)
                } else {
                    Err(self.malformed(q))
                }
            },
        }
    }

    fn term_tail(&self, p: usize, lhs: Expr) -> (r: Result<(Expr, usize), LetError>)
        requires
            p <= self.st().len(),
        ensures
            expr_res(r) == term_tail(self.st(), p as int, self.end as int, lhs.sv()),
        decreases self.st().len() - p, 3nat,
    {
        let star = self.punct_is(p, Punct::Star);
        if star || self.punct_is(p, Punct::Slash) {
            let op = if star {
                BinOp::Mul
            } else {
                BinOp::Div
            };
            match self.unary(p + 1) {
                Err(e) => Err(e),
                Ok((rhs, q)) => {
                    if p + 1 < q && q <= self.len() {
                        self.term_tail(q, Expr::Bin(op, Box::new(lhs), Box::new(rhs)))
                    } else {
                        Err(self.malformed(q))
                    }
                },
            }
        } else {
            Ok((lhs, p))
        }
    }

    fn unary(&self, p: usize) -> (r: Result<(Expr, usize), LetError>)
        requires
            p <= self.st().len(),
        ensures
            expr_res(r) == parse_unary(self.st(), p as int, self.end as int),
        decreases self.st().len() - p, 2nat,
    {
        if self.punct_is(p, Punct::Minus) {
            match self.unary(p + 1) {
                Err(e) => Err(e),
                Ok((e, q)) => Ok((Expr::Neg(Box::new(e)), q)),
            }
        } else {
            self.power(p)
        }
    }

    fn power(&self, p: usize) -> (r: Result<(Expr, usize), LetError>)
        requires
            p <= self.st().len(),
        ensures
            expr_res(r) == parse_power(self.st(), p as int, self.end as int),
        decreases self.st().len() - p, 1nat,
    {
        match self.primary(p) {
            Err(e) => Err(e),
            Ok((base, q)) => {
                if p < q && q <= self.len() {
                    if self.punct_is(q, Punct::StarStar) {
                        match self.unary(q + 1) {
                            Err(e) => Err(e),
                            Ok((ex, r)) => Ok((Expr::Bin(BinOp::Pow, Box::new(base), Box::new(ex)), r)),
                        }
                    } else {
                        Ok((base, q))
                    }
                } else {
                    Err(self.malformed(q))
                }
            },
        }
    }

    fn primary(&self, p: usize) -> (r: Result<(Expr, usize), LetError>)
        requires
            p <= self.st().len(),
        ensures
            expr_res(r) == parse_primary(self.st(), p as int, self.end as int),
        decreases self.st().len() - p, 0nat,
    {
        if p >= self.len() {
            return Err(error_at("expected an expression", self.pos_at(p)));
        }
        match &self.toks[p].0 {
            Tok::Num(t) => Ok((Expr::Lit(t.clone()), p + 1)),
            Tok::Ident(n) => {
                if self.punct_is(p + 1, Punct::LParen) {
                    match self.args(p + 2) {
                        Err(e) => Err(e),
                        Ok((args, q)) => Ok((Expr::Call(n.clone(), args), q)),
                    }
                } else {
                    Ok((Expr::Var(n.clone()), p + 1))
                }
            },
            Tok::Punct(Punct::LParen) => match self.expr(p + 1) {
                Err(e) => Err(e),
                Ok((e, q)) => {
                    if self.punct_is(q, Punct::RParen) {
                        Ok((e, q + 1))
                    } else {
                        Err(error_at("expected a closing parenthesis", self.pos_at(q)))
                    }
                },
            },
            _ => Err(error_at("expected an expression", self.toks[p].1)),
        }
    }

    fn args(&self, p: usize) -> (r: Result<(Vec<Expr>, usize), LetError>)
        requires
            p <= self.st().len(),
        ensures
            exprs_res(r) == parse_args(self.st(), p as int, self.end as int),
        decreases self.st().len() - p, 7nat,
    {
        if self.punct_is(p, Punct::RParen) {
            proof {
                assert(exprs_sv(Seq::<Expr>::empty()) =~= seq![]);
            }
            Ok((Vec::new(), p + 1))
        } else {
            proof {
                assert(exprs_sv(Seq::<Expr>::empty()) =~= seq![]);
            }
            self.args_rest(p, Vec::new())
        }
    }

    fn args_rest(&self, p: usize, acc: Vec<Expr>) -> (r: Result<(Vec<Expr>, usize), LetError>)
        requires
            p <= self.st().len(),
        ensures
            exprs_res(r) == args_rest(self.st(), p as int, self.end as int, exprs_sv(acc@)),
        decreases self.st().len() - p, 6nat,
    {
        let mut acc = acc;
        match self.expr(p) {
            Err(e) => Err(e),
            Ok((e, q)) => {
                if p < q && q <= self.len() {
                    proof {
                        lemma_exprs_sv_push(acc@, e);
                    }
                    if self.punct_is(q, Punct::Comma) {
                        acc.push(e);
                        self.args_rest(q + 1, acc)
                    } else if self.punct_is(q, Punct::RParen) {
                        acc.push(e);
                        Ok((acc, q + 1))
                    } else {
                        Err(error_at("expected a comma or a closing parenthesis", self.pos_at(q)))
                    }
                } else {
                    Err(self.malformed(q))
                }
            },
        }
    }

    fn names(&self, p: usize) -> (r: Result<(Vec<String>, usize), LetError>)
        requires
            p <= self.st().len(),
        ensures
            match r {
                Ok((v, q)) => parse_names(self.st(), p as int, self.end as int) == Ok::<_, SErr>(
                    (strings_sv(v@), q as int),
                ),
                Err(e) => parse_names(self.st(), p as int, self.end as int) == Err::<
                    (Seq<Seq<char>>, int),
                    _,
                >(e.sv()),
            },
            r matches Ok((_, q)) ==> q <= self.st().len(),
    {
        proof {
            assert(strings_sv(Seq::<String>::empty()) =~= seq![]);
        }
        if self.punct_is(p, Punct::RParen) {
            Ok((Vec::new(), p + 1))
        } else {
            let mut acc: Vec<String> = Vec::new();
            let mut i = p;
            loop
                invariant
                    i <= self.st().len(),
                    parse_names(self.st(), p as int, self.end as int) == names_rest(
                        self.st(),
                        p as int,
                        self.end as int,
                        seq![],
                    ),
                    names_rest(self.st(), i as int, self.end as int, strings_sv(acc@))
                        == names_rest(self.st(), p as int, self.end as int, seq![]),
                decreases self.st().len() - i,
            {
                if i >= self.len() {
                    return Err(error_at("expected a name", self.pos_at(i)));
                }
                match &self.toks[i].0 {
                    Tok::Ident(n) => {
                        let name = n.clone();
                        proof {
                            assert(strings_sv(acc@.push(name)) =~= strings_sv(acc@).push(name@));
                        }
                        if self.punct_is(i + 1, Punct::Comma) {
                            acc.push(name);
                            i = i + 2;
                        } else if self.punct_is(i + 1, Punct::RParen) {
                            acc.push(name);
                            return Ok((acc, i + 2));
                        } else {
                            return Err(
                                error_at("expected a comma or a closing parenthesis", self.pos_at(i + 1)),
                            );
                        }
                    },
                    _ => {
                        return Err(error_at("expected a name", self.toks[i].1));
                    },
                }
            }
        }
    }

    fn results(&self, p: usize) -> (r: Result<(Vec<Expr>, usize), LetError>)
        requires
            p <= self.st().len(),
        ensures
            exprs_res(r) == results_rest(self.st(), p as int, self.end as int, seq![]),
            r matches Ok((_, q)) ==> q <= self.st().len(),
    {
        let mut acc: Vec<Expr> = Vec::new();
        let mut i = p;
        proof {
            assert(exprs_sv(acc@) =~= seq![]);
        }
        loop
            invariant
                i <= self.st().len(),
                results_rest(self.st(), i as int, self.end as int, exprs_sv(acc@))
                    == results_rest(self.st(), p as int, self.end as int, seq![]),
            decreases self.st().len() - i,
        {
            match self.expr(i) {
                Err(e) => {
                    return Err(e);
                },
                Ok((e, q)) => {
                    if !(i < q && q <= self.len()) {
                        return Err(self.malformed(q));
                    }
                    proof {
                        lemma_exprs_sv_push(acc@, e);
                    }
                    acc.push(e);
                    if self.punct_is(q, Punct::Comma) {
                        i = q + 1;
                    } else {
                        return Ok((acc, q));
                    }
                },
            }
        }
    }

    fn wheres(&self, p: usize) -> (r: Result<Vec<(String, Expr)>, LetError>)
        requires
            p <= self.st().len(),
        ensures
            match r {
                Ok(v) => wheres_rest(self.st(), p as int, self.end as int, seq![]) == Ok::<
                    _,
                    SErr,
                >(wheres_sv(v@)),
                Err(e) => wheres_rest(self.st(), p as int, self.end as int, seq![]) == Err::<
                    Seq<(Seq<char>, SExpr)>,
                    _,
                >(e.sv()),
            },
    {
        let mut acc: Vec<(String, Expr)> = Vec::new();
        let mut i = p;
        proof {
            assert(wheres_sv(acc@) =~= seq![]);
        }
        loop
            invariant
                i <= self.st().len(),
                wheres_rest(self.st(), i as int, self.end as int, wheres_sv(acc@))
                    == wheres_rest(self.st(), p as int, self.end as int, seq![]),
            decreases self.st().len() - i,
        {
            if i >= self.len() {
                return Err(error_at("expected WHERE or END", self.end));
            }
            if self.keyword_is(i, "END") {
                if i + 1 == self.len() {
                    return Ok(acc);
                } else {
                    return Err(error_at("unexpected text after END", self.pos_at(i + 1)));
                }
            }
            if !self.keyword_is(i, "WHERE") {
                return Err(error_at("expected WHERE or END", self.toks[i].1));
            }
            if i + 1 >= self.len() {
                return Err(error_at("expected a name", self.pos_at(i + 1)));
            }
            let name = match &self.toks[i + 1].0 {
                Tok::Ident(n) => n.clone(),
                _ => {
                    return Err(error_at("expected a name", self.pos_at(i + 1)));
                },
            };
            if !self.punct_is(i + 2, Punct::Assign) {
                return Err(error_at("expected =", self.pos_at(i + 2)));
            }
            match self.expr(i + 3) {
                Err(e) => {
                    return Err(e);
                },
                Ok((e, q)) => {
                    if !(i + 3 < q && q <= self.len()) {
                        return Err(self.malformed(q));
                    }
                    proof {
                        assert(wheres_sv(acc@.push((name, e))) =~= wheres_sv(acc@).push(
                            (name@, e.sv()),
                        ));
                    }
                    acc.push((name, e));
                    i = q;
                },
            }
        }
    }

    fn form(&self) -> (r: Result<LetForm, LetError>)
        ensures
            match r {
                Ok(f) => parse_tokens(self.st(), self.end as int) == Ok::<_, SErr>(f.sv()),
                Err(e) => parse_tokens(self.st(), self.end as int) == Err::<SLetForm, _>(e.sv()),
            },
    {
        if !self.keyword_is(0, "LET") {
            return Err(error_at("expected LET", self.pos_at(0)));
        }
        if !self.punct_is(1, Punct::LParen) {
            return Err(error_at("expected an opening parenthesis", self.pos_at(1)));
        }
        let (inputs, p1) = match self.names(2) {
            Err(e) => {
                return Err(e);
            },
            Ok(v) => v,
        };
        if !self.punct_is(p1, Punct::Arrow) {
            return Err(error_at("expected ->", self.pos_at(p1)));
        }
        if !self.punct_is(p1 + 1, Punct::LParen) {
            return Err(error_at("expected an opening parenthesis", self.pos_at(p1 + 1)));
        }
        let (outputs, p2) = match self.names(p1 + 2) {
            Err(e) => {
                return Err(e);
            },
            Ok(v) => v,
        };
        if !self.punct_is(p2, Punct::Assign) {
            return Err(error_at("expected =", self.pos_at(p2)));
        }
        let (results, p3) = match self.results(p2 + 1) {
            Err(e) => {
                return Err(e);
            },
            Ok(v) => v,
        };
        let wheres = match self.wheres(p3) {
            Err(e) => {
                return Err(e);
            },
            Ok(v) => v,
        };
        if results.len() != outputs.len() {
            proof {
                crate::let_lang::ast::lemma_exprs_sv_len(results@);
            }
            return Err(
                error_at(
                    "the number of results differs from the number of outputs",
                    self.pos_at(p2 + 1),
                ),
            );
        }
        proof {
            crate::let_lang::ast::lemma_exprs_sv_len(results@);
        }
        let f = LetForm { inputs, outputs, results, wheres };
        proof {
            assert(f.sv() == SLetForm {
                inputs: strings_sv(f.inputs@),
                outputs: strings_sv(f.outputs@),
                results: exprs_sv(f.results@),
                wheres: wheres_sv(f.wheres@),
            });
        }
        Ok(f)
    }
}

/// Parses a LET form.
pub fn parse(source: &str) -> (r: Result<LetForm, LetError>)
    ensures
        match r {
            Ok(f) => parse_spec(source@) == Ok::<_, SErr>(f.sv()),
            Err(e) => parse_spec(source@) == Err::<SLetForm, _>(e.sv()),
        },
{
    let cs = chars_of(source);
    let toks = match tokenize(&cs) {
        Err(e) => {
            return Err(e);
        },
        Ok(t) => t,
    };
    let parser = Parser { toks, end: cs.len() };
    parser.form()
}

} // verus!
