//! LET — a small infix-algebraic language embedded in Forth, compiled to
//! Intel-syntax x86-64 assembly text.
//!
//! `LET ( in1, in2, … ) -> ( out1, out2, … ) = expr, … WHERE name = expr … END`
//!
//! The compiled function takes a pointer to its inputs in `rcx` and to its
//! outputs in `rdx`, both laid out as on the Forth floating-point stack.
//! Number literals keep their spelling through parsing; their values come
//! from a [`codegen::NumberTable`] that the caller fills in, for instance
//! from the spellings that [`number_literals`] lists.

pub mod ast;
pub mod codegen;
pub mod lexer;
pub mod parser;
pub mod topo_laws;
pub mod lower_laws;

use vstd::prelude::*;

use self::ast::LetError;
use self::codegen::{lower, lower_spec, NumberTable};
use self::lexer::{chars_of, lex_from, tokenize, STok, Tok};
use self::parser::{parse, parse_spec, strings_sv, SErr};
use crate::text::push_str;

verus! {

/// One LET form compiled to assembly text.
#[derive(Debug)]
pub struct CompiledLet {
    /// Name of the emitted function.
    pub fn_name: String,
    /// The assembly text.
    pub asm_text: String,
    /// Number of inputs the function reads from `[rcx + i*8]`.
    pub n_inputs: usize,
    /// Number of outputs it writes to `[rdx + i*8]`.
    pub n_outputs: usize,
}

/// What compiling `source` gives: the assembly text and the numbers of
/// inputs and outputs, or the first error of parsing or lowering.
pub open spec fn compile_spec(
    source: Seq<char>,
    fn_name: Seq<char>,
    table: Seq<(Seq<char>, u64, Seq<char>)>,
) -> Result<(Seq<char>, nat, nat), SErr> {
    match parse_spec(source) {
        Err(e) => Err(e),
        Ok(f) => match lower_spec(f, fn_name, table) {
            Err(e) => Err(e),
            Ok(text) => Ok((text, f.inputs.len(), f.outputs.len())),
        },
    }
}

/// Parses and lowers a LET form (without assembling it).
pub fn compile(source: &str, fn_name: &str, numbers: &NumberTable) -> (r: Result<CompiledLet, LetError>)
    ensures
        match r {
            Ok(c) => compile_spec(source@, fn_name@, numbers.sv()) == Ok::<_, SErr>(
                (c.asm_text@, c.n_inputs as nat, c.n_outputs as nat),
            ) && c.fn_name@ == fn_name@,
            Err(e) => compile_spec(source@, fn_name@, numbers.sv()) == Err::<(Seq<char>, nat, nat), _>(
                e.sv(),
            ),
        },
{
    let form = match parse(source) {
        Err(e) => {
            return Err(e);
        },
        Ok(f) => f,
    };
    let asm_text = match lower(&form, fn_name, numbers) {
        Err(e) => {
            return Err(e);
        },
        Ok(t) => t,
    };
    let mut name = String::new();
    push_str(&mut name, fn_name);
    Ok(CompiledLet {
        fn_name: name,
        asm_text,
        n_inputs: form.inputs.len(),
        n_outputs: form.outputs.len(),
    })
}

/// The spellings of the number tokens among `toks`, in order.
pub open spec fn number_spellings(toks: Seq<(STok, int)>) -> Seq<Seq<char>>
    decreases toks.len(),
{
    if toks.len() == 0 {
        seq![]
    } else {
        let rest = number_spellings(toks.drop_last());
        match toks.last().0 {
            STok::Num(t) => rest.push(t),
            _ => rest,
        }
    }
}

/// The spellings of the number literals of `source`, in order (none when
/// it does not split into tokens): the keys a [`NumberTable`] for it needs.
pub fn number_literals(source: &str) -> (r: Vec<String>)
    ensures
        strings_sv(r@) == match lex_from(source@, 0) {
            Ok(toks) => number_spellings(toks),
            Err(_) => seq![],
        },
{
    let cs = chars_of(source);
    let mut out: Vec<String> = Vec::new();
    proof {
        assert(strings_sv(out@) =~= seq![]);
    }
    match tokenize(&cs) {
        Err(_) => out,
        Ok(toks) => {
            let ghost st = lexer::toks_sv(toks@);
            let mut i: usize = 0;
            while i < toks.len()
                invariant
                    i <= toks@.len(),
                    st == lexer::toks_sv(toks@),
                    strings_sv(out@) == number_spellings(st.take(i as int)),
                decreases toks@.len() - i,
            {
                proof {
                    assert(st.take(i + 1).drop_last() =~= st.take(i as int));
                }
                match &toks[i].0 {
                    Tok::Num(t) => {
                        let ghost before = out@;
                        out.push(t.clone());
                        proof {
                            assert(strings_sv(out@) =~= strings_sv(before).push(t@));
                        }
                    },
                    _ => {},
                }
                i = i + 1;
            }
            proof {
                assert(st.take(toks@.len() as int) =~= st);
            }
            out
        },
    }
}

} // verus!
