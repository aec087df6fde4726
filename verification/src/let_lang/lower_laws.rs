//! Laws of lowering: a form whose names are all defined and which calls
//! nothing passes validation, and one with more named values than the
//! registers can hold is refused for that.

use vstd::prelude::*;

use super::ast::{BinOp, SExpr, SLetForm};
use crate::text::decimal;
use super::codegen::{
    binds, deps_table, emit_spec, first_duplicate, known_constant_spec, lower_spec, too_many_msg, topo_spec,
    validate_form, validate_list, validate_spec, where_exprs, where_names,
};
use super::topo_laws::{is_topological, topo_finds_order_when_one_exists};

verus! {

/// Every name `e` uses is a known constant, an input or a binding of `f`,
/// and `e` calls no function.
pub open spec fn resolved_call_free(e: SExpr, f: SLetForm) -> bool
    decreases e,
{
    match e {
        SExpr::Lit(_) => true,
        SExpr::Var(n) => known_constant_spec(n) is Some || f.inputs.contains(n) || binds(f.wheres, n),
        SExpr::Bin(_, l, r) => resolved_call_free(*l, f) && resolved_call_free(*r, f),
        SExpr::Neg(x) => resolved_call_free(*x, f),
        SExpr::Call(_, _) => false,
    }
}

/// Every expression of the form, results and bindings, is resolved and
/// calls nothing.
pub open spec fn form_resolved_call_free(f: SLetForm) -> bool {
    &&& forall|k: int| 0 <= k < f.results.len() ==> resolved_call_free(#[trigger] f.results[k], f)
    &&& forall|k: int| 0 <= k < f.wheres.len() ==> resolved_call_free(#[trigger] f.wheres[k].1, f)
}

proof fn lemma_validate_expr(e: SExpr, f: SLetForm)
    requires
        resolved_call_free(e, f),
    ensures
        validate_spec(e, f) == Ok::<(), (Seq<char>, int)>(()),
    decreases e,
{
    match e {
        SExpr::Bin(_, l, r) => {
            lemma_validate_expr(*l, f);
            lemma_validate_expr(*r, f);
        },
        SExpr::Neg(x) => {
            lemma_validate_expr(*x, f);
        },
        _ => {},
    }
}

proof fn lemma_validate_list(es: Seq<SExpr>, f: SLetForm)
    requires
        forall|k: int| 0 <= k < es.len() ==> resolved_call_free(#[trigger] es[k], f),
    ensures
        validate_list(es, f) == Ok::<(), (Seq<char>, int)>(()),
    decreases es.len(),
{
    if es.len() > 0 {
        lemma_validate_expr(es[0], f);
        let rest = es.subrange(1, es.len() as int);
        assert forall|k: int| 0 <= k < rest.len() implies resolved_call_free(#[trigger] rest[k], f) by {
            assert(rest[k] == es[k + 1]);
        }
        lemma_validate_list(rest, f);
    }
}

/// A form whose names are all defined and which calls nothing passes
/// validation.
pub proof fn resolved_forms_validate(f: SLetForm)
    requires
        form_resolved_call_free(f),
    ensures
        validate_form(f) == Ok::<(), (Seq<char>, int)>(()),
{
    lemma_validate_list(f.results, f);
    let ws = where_exprs(f.wheres);
    assert forall|k: int| 0 <= k < ws.len() implies resolved_call_free(#[trigger] ws[k], f) by {
        assert(ws[k] == f.wheres[k].1);
    }
    lemma_validate_list(ws, f);
}

/// A resolved, call-free form with distinct binding names that some order
/// puts after their dependencies, and with more than 14 named values
/// (inputs and bindings; two of the 16 registers stay scratch), is
/// refused for its number of named values.
pub proof fn too_many_named_values(
    f: SLetForm,
    fn_name: Seq<char>,
    table: Seq<(Seq<char>, u64, Seq<char>)>,
    t: Seq<nat>,
)
    requires
        form_resolved_call_free(f),
        first_duplicate(where_names(f.wheres), 0) is None,
        is_topological(t, deps_table(f.wheres)),
        f.inputs.len() + f.wheres.len() > 14,
    ensures
        lower_spec(f, fn_name, table) == Err::<Seq<char>, (Seq<char>, int)>(
            (too_many_msg((f.inputs.len() + f.wheres.len()) as nat), 0),
        ),
{
    resolved_forms_validate(f);
    topo_finds_order_when_one_exists(f.wheres, t);
    let order = topo_spec(f.wheres)->Ok_0;
    assert(order.len() == f.wheres.len());
}

/// The instruction that ends the code of a binary operation: the SSE
/// instruction of its operator, applied to the target register and the
/// scratch register that holds the right operand.
pub open spec fn final_instruction(op: BinOp, target: nat, scratch: nat) -> Seq<char> {
    "    "@ + match op {
        BinOp::Add => "addsd"@,
        BinOp::Sub => "subsd"@,
        BinOp::Mul => "mulsd"@,
        BinOp::Div => "divsd"@,
        BinOp::Pow => "pow"@,
    } + " xmm"@ + decimal(target) + ", xmm"@ + decimal(scratch) + "\n"@
}

/// Each arithmetic operator is lowered to its own instruction: the code of
/// `l + r` into register `t`, with scratch registers from `s` on, ends with
/// `addsd xmm<t>, xmm<s>`; `-` with `subsd`, `*` with `mulsd`, `/` with
/// `divsd`. The left operand's code comes first, into `t`, then the right
/// operand's, into `s`.
pub proof fn binary_operations_use_their_instruction(
    op: BinOp,
    l: SExpr,
    r: SExpr,
    t: nat,
    vars: Seq<(Seq<char>, u8)>,
    pool: Seq<(u64, Seq<char>)>,
    s: nat,
    fn_name: Seq<char>,
    table: Seq<(Seq<char>, u64, Seq<char>)>,
)
    requires
        emit_spec(SExpr::Bin(op, Box::new(l), Box::new(r)), t, vars, pool, s, fn_name, table) is Ok,
    ensures
        op != BinOp::Pow,
        ({
            let text = emit_spec(SExpr::Bin(op, Box::new(l), Box::new(r)), t, vars, pool, s, fn_name, table)->Ok_0.0;
            let left = emit_spec(l, t, vars, pool, s, fn_name, table)->Ok_0;
            let right = emit_spec(r, s, vars, left.1, s + 1, fn_name, table)->Ok_0;
            &&& emit_spec(l, t, vars, pool, s, fn_name, table) is Ok
            &&& text == left.0 + right.0 + final_instruction(op, t, s)
        }),
{
    let e = SExpr::Bin(op, Box::new(l), Box::new(r));
    assert(emit_spec(e, t, vars, pool, s, fn_name, table) == match emit_spec(
        l,
        t,
        vars,
        pool,
        s,
        fn_name,
        table,
    ) {
        Err(err) => Err(err),
        Ok((t1, p1)) => match emit_spec(r, s, vars, p1, s + 1, fn_name, table) {
            Err(err) => Err(err),
            Ok((t2, p2)) => if op == BinOp::Pow {
                Err(("** is not supported in the MVP (needs libm pow); use repeated *"@, 0))
            } else {
                Ok((t1 + t2 + crate::let_lang::codegen::op_text(op, t, s), p2))
            },
        },
    });
}

} // verus!
