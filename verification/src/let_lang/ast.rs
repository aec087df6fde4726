//! Syntax of LET forms:
//! `LET ( in1, … ) -> ( out1, … ) = expr1, … WHERE name = expr … END`.

use vstd::prelude::*;

verus! {

/// Binary operators: `+ - * /` and `**`.
#[derive(Clone, Copy, PartialEq, Eq, Structural, Debug)]
pub enum BinOp {
    Add,
    Sub,
    Mul,
    Div,
    Pow,
}

/// An expression. Numeric literals keep their spelling; their values are
/// supplied by a [`crate::let_lang::NumberTable`].
#[derive(Debug)]
pub enum Expr {
    Lit(String),
    Var(String),
    Bin(BinOp, Box<Expr>, Box<Expr>),
    Neg(Box<Expr>),
    Call(String, Vec<Expr>),
}

/// The mathematical value of an expression.
pub enum SExpr {
    Lit(Seq<char>),
    Var(Seq<char>),
    Bin(BinOp, Box<SExpr>, Box<SExpr>),
    Neg(Box<SExpr>),
    Call(Seq<char>, Seq<SExpr>),
}

impl Expr {
    pub open spec fn sv(&self) -> SExpr
        decreases self,
    {
        match self {
            Expr::Lit(t) => SExpr::Lit(t@),
            Expr::Var(n) => SExpr::Var(n@),
            Expr::Bin(op, l, r) => SExpr::Bin(*op, Box::new(l.sv()), Box::new(r.sv())),
            Expr::Neg(e) => SExpr::Neg(Box::new(e.sv())),
            Expr::Call(n, args) => SExpr::Call(n@, exprs_sv(args@)),
        }
    }
}

/// The values of a sequence of expressions.
pub open spec fn exprs_sv(args: Seq<Expr>) -> Seq<SExpr>
    decreases args,
{
    if args.len() == 0 {
        seq![]
    } else {
        exprs_sv(args.subrange(0, args.len() - 1)).push(args[args.len() - 1].sv())
    }
}

pub proof fn lemma_exprs_sv_push(args: Seq<Expr>, e: Expr)
    ensures
        exprs_sv(args.push(e)) == exprs_sv(args).push(e.sv()),
{
    assert(args.push(e).subrange(0, args.len() as int) =~= args);
}

pub proof fn lemma_exprs_sv_len(args: Seq<Expr>)
    ensures
        exprs_sv(args).len() == args.len(),
    decreases args.len(),
{
    if args.len() > 0 {
        lemma_exprs_sv_len(args.subrange(0, args.len() - 1));
    }
}

pub proof fn lemma_exprs_sv_index(args: Seq<Expr>, i: int)
    requires
        0 <= i < args.len(),
    ensures
        exprs_sv(args)[i] == args[i].sv(),
    decreases args.len(),
{
    lemma_exprs_sv_len(args.subrange(0, args.len() - 1));
    if i < args.len() - 1 {
        lemma_exprs_sv_index(args.subrange(0, args.len() - 1), i);
    }
}

/// A parsed LET form.
#[derive(Debug)]
pub struct LetForm {
    pub inputs: Vec<String>,
    pub outputs: Vec<String>,
    pub results: Vec<Expr>,
    pub wheres: Vec<(String, Expr)>,
}

/// The value of a LET form.
pub struct SLetForm {
    pub inputs: Seq<Seq<char>>,
    pub outputs: Seq<Seq<char>>,
    pub results: Seq<SExpr>,
    pub wheres: Seq<(Seq<char>, SExpr)>,
}

impl LetForm {
    pub open spec fn sv(&self) -> SLetForm {
        SLetForm {
            inputs: self.inputs@.map_values(|s: String| s@),
            outputs: self.outputs@.map_values(|s: String| s@),
            results: exprs_sv(self.results@),
            wheres: self.wheres@.map_values(|w: (String, Expr)| (w.0@, w.1.sv())),
        }
    }
}

/// A compile error: a message and the character offset it refers to.
#[derive(Debug)]
pub struct LetError {
    pub message: String,
    pub pos: usize,
}

impl LetError {
    pub open spec fn sv(&self) -> (Seq<char>, int) {
        (self.message@, self.pos as int)
    }
}

} // verus!
