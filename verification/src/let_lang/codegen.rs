//! LET code generation: a parsed form to Intel-syntax x86-64 assembly text.
//!
//! Calling convention (Win64): `rcx` points at the inputs and `rdx` at the
//! outputs. The `i`-th declared input is read from `[rcx + (n_in - 1 - i) * 8]`
//! and the `i`-th result is written to `[rdx + (n_out - 1 - i) * 8]`, which
//! is the layout of the Forth floating-point stack: the last-declared value
//! is the top of the stack.
//!
//! Every named value (input or WHERE binding) gets its own `xmm` register,
//! in declaration order for inputs and in evaluation order for bindings;
//! sub-expressions use the registers above them as scratch.

use vstd::prelude::*;

use super::ast::{
    exprs_sv, lemma_exprs_sv_index, lemma_exprs_sv_len, BinOp, Expr, LetError, LetForm, SExpr,
    SLetForm,
};
use super::parser::{error_at, strings_sv, wheres_sv, SErr};
use crate::text::{decimal, fixed_digits, push_decimal, push_hex_fixed, push_str};

verus! {

/// Number of `xmm` registers.
pub const TOTAL_XMM: u8 = 16;

/// The value of one number literal: its spelling in the source, the bits
/// of the IEEE-754 double it denotes, and that double's shortest decimal
/// rendering (used in the comments of the constant pool).
pub struct NumberEntry {
    pub text: String,
    pub bits: u64,
    pub shown: String,
}

/// Values of number literals, looked up by spelling (first entry wins).
pub struct NumberTable {
    pub entries: Vec<NumberEntry>,
}

pub open spec fn entries_sv(v: Seq<NumberEntry>) -> Seq<(Seq<char>, u64, Seq<char>)> {
    v.map_values(|e: NumberEntry| (e.text@, e.bits, e.shown@))
}

impl NumberTable {
    pub open spec fn sv(&self) -> Seq<(Seq<char>, u64, Seq<char>)> {
        entries_sv(self.entries@)
    }

    /// An empty table.
    pub fn new() -> (t: NumberTable)
        ensures
            t.sv() == Seq::<(Seq<char>, u64, Seq<char>)>::empty(),
    {
        let t = NumberTable { entries: Vec::new() };
        proof {
            assert(t.sv() =~= Seq::<(Seq<char>, u64, Seq<char>)>::empty());
        }
        t
    }

    /// Adds the value of the literal spelled `text`.
    pub fn insert(&mut self, text: String, bits: u64, shown: String)
        ensures
            final(self).sv() == old(self).sv().push((text@, bits, shown@)),
    {
        let ghost before = self.sv();
        self.entries.push(NumberEntry { text, bits, shown });
        proof {
            assert(self.sv() =~= before.push((text@, bits, shown@)));
        }
    }
}

/// The bits and rendering of the first entry spelled `text`.
pub open spec fn table_lookup(t: Seq<(Seq<char>, u64, Seq<char>)>, text: Seq<char>) -> Option<
    (u64, Seq<char>),
>
    decreases t.len(),
{
    if t.len() == 0 {
        None
    } else if t[0].0 == text {
        Some((t[0].1, t[0].2))
    } else {
        table_lookup(t.subrange(1, t.len() as int), text)
    }
}

/// The named constants: `pi` and `e`, as IEEE-754 bits and rendering.
pub open spec fn known_constant_spec(name: Seq<char>) -> Option<(u64, Seq<char>)> {
    if name == "pi"@ {
        Some((0x400921FB54442D18u64, "3.141592653589793"@))
    } else if name == "e"@ {
        Some((0x4005BF0A8B145769u64, "2.718281828459045"@))
    } else {
        None
    }
}

fn lookup_number(table: &NumberTable, text: &String) -> (r: Option<(u64, String)>)
    ensures
        match r {
            Some((b, s)) => table_lookup(table.sv(), text@) == Some((b, s@)),
            None => table_lookup(table.sv(), text@) is None,
        },
{
    let n = table.entries.len();
    let mut i: usize = 0;
    proof {
        assert(table.sv().subrange(0, n as int) =~= table.sv());
    }
    while i < n
        invariant
            i <= n,
            n == table.sv().len(),
            table_lookup(table.sv().subrange(i as int, n as int), text@) == table_lookup(
                table.sv(),
                text@,
            ),
        decreases n - i,
    {
        proof {
            assert(table.sv().subrange(i as int, n as int).subrange(1, n - i) =~= table.sv().subrange(
                i + 1,
                n as int,
            ));
        }
        if table.entries[i].text == *text {
            return Some((table.entries[i].bits, table.entries[i].shown.clone()));
        }
        i = i + 1;
    }
    None
}

fn str_eq(s: &String, lit: &str) -> (r: bool)
    ensures
        r == (s@ == lit@),
{
    let owned = lit.to_owned();
    *s == owned
}

/// `pi` and `e`, with their bits and rendering.
fn known_constant(name: &String) -> (r: Option<(u64, String)>)
    ensures
        match r {
            Some((b, s)) => known_constant_spec(name@) == Some((b, s@)),
            None => known_constant_spec(name@) is None,
        },
{
    if str_eq(name, "pi") {
        Some((0x400921FB54442D18u64, "3.141592653589793".to_owned()))
    } else if str_eq(name, "e") {
        Some((0x4005BF0A8B145769u64, "2.718281828459045".to_owned()))
    } else {
        None
    }
}

// ---------------------------------------------------------------------
// Name resolution

pub open spec fn binds(ws: Seq<(Seq<char>, SExpr)>, n: Seq<char>) -> bool {
    exists|i: int| 0 <= i < ws.len() && #[trigger] ws[i].0 == n
}

pub open spec fn undefined_msg(n: Seq<char>) -> Seq<char> {
    "undefined name '"@ + n + "'"@
}

pub open spec fn call_msg(n: Seq<char>) -> Seq<char> {
    "function call '"@ + n + "' not yet implemented"@
}

/// The first name that `e` uses without defining it, or its first call.
pub open spec fn validate_spec(e: SExpr, f: SLetForm) -> Result<(), SErr>
    decreases e,
{
    match e {
        SExpr::Lit(_) => Ok(()),
        SExpr::Var(n) => if known_constant_spec(n) is Some || f.inputs.contains(n) || binds(
            f.wheres,
            n,
        ) {
            Ok(())
        } else {
            Err((undefined_msg(n), 0))
        },
        SExpr::Bin(_, l, r) => match validate_spec(*l, f) {
            Err(err) => Err(err),
            Ok(()) => validate_spec(*r, f),
        },
        SExpr::Neg(x) => validate_spec(*x, f),
        SExpr::Call(n, args) => match validate_list(args, f) {
            Err(err) => Err(err),
            Ok(()) => Err((call_msg(n), 0)),
        },
    }
}

/// The first error among `es`, in order.
pub open spec fn validate_list(es: Seq<SExpr>, f: SLetForm) -> Result<(), SErr>
    decreases es,
{
    if es.len() == 0 {
        Ok(())
    } else {
        match validate_spec(es[0], f) {
            Err(err) => Err(err),
            Ok(()) => validate_list(es.subrange(1, es.len() as int), f),
        }
    }
}

/// The expressions of the WHERE bindings, in order.
pub open spec fn where_exprs(ws: Seq<(Seq<char>, SExpr)>) -> Seq<SExpr> {
    ws.map_values(|w: (Seq<char>, SExpr)| w.1)
}

/// Every name used in the results, then in the bindings, is defined.
pub open spec fn validate_form(f: SLetForm) -> Result<(), SErr> {
    match validate_list(f.results, f) {
        Err(err) => Err(err),
        Ok(()) => validate_list(where_exprs(f.wheres), f),
    }
}

fn contains_name(v: &Vec<String>, n: &String) -> (r: bool)
    ensures
        r == strings_sv(v@).contains(n@),
{
    let mut i: usize = 0;
    while i < v.len()
        invariant
            i <= v@.len(),
            forall|k: int| 0 <= k < i ==> v@[k]@ != n@,
        decreases v@.len() - i,
    {
        if v[i] == *n {
            proof {
                assert(strings_sv(v@)[i as int] == n@);
            }
            return true;
        }
        i = i + 1;
    }
    proof {
        if strings_sv(v@).contains(n@) {
            let k = choose|k: int| 0 <= k < strings_sv(v@).len() && strings_sv(v@)[k] == n@;
            assert(v@[k]@ == n@);
        }
    }
    false
}

fn binds_name(ws: &Vec<(String, Expr)>, n: &String) -> (r: bool)
    ensures
        r == binds(wheres_sv(ws@), n@),
{
    let mut i: usize = 0;
    while i < ws.len()
        invariant
            i <= ws@.len(),
            forall|k: int| 0 <= k < i ==> ws@[k].0@ != n@,
        decreases ws@.len() - i,
    {
        if ws[i].0 == *n {
            proof {
                assert(wheres_sv(ws@)[i as int].0 == n@);
            }
            return true;
        }
        i = i + 1;
    }
    proof {
        if binds(wheres_sv(ws@), n@) {
            let k = choose|k: int| 0 <= k < wheres_sv(ws@).len() && wheres_sv(ws@)[k].0 == n@;
            assert(ws@[k].0@ == n@);
        }
    }
    false
}

fn name_error(prefix: &str, n: &String, suffix: &str) -> (e: LetError)
    ensures
        e.sv() == (prefix@ + n@ + suffix@, 0int),
{
    let mut message = String::new();
    push_str(&mut message, prefix);
    push_str(&mut message, n.as_str());
    push_str(&mut message, suffix);
    LetError { message, pos: 0 }
}

/// Checks that every name `expr` uses is a constant, an input or a WHERE
/// binding, and that it calls no function.
pub fn validate_expr(expr: &Expr, form: &LetForm) -> (r: Result<(), LetError>)
    ensures
        match r {
            Ok(()) => validate_spec(expr.sv(), form.sv()) == Ok::<(), SErr>(()),
            Err(e) => validate_spec(expr.sv(), form.sv()) == Err::<(), SErr>(e.sv()),
        },
    decreases expr,
{
    match expr {
        Expr::Lit(_) => Ok(()),
        Expr::Var(name) => {
            let k = known_constant(name);
            if k.is_some() || contains_name(&form.inputs, name) || binds_name(&form.wheres, name) {
                Ok(())
            } else {
                Err(name_error("undefined name '", name, "'"))
            }
        },
        Expr::Bin(_, l, r) => {
            match validate_expr(l, form) {
                Err(e) => Err(e),
                Ok(()) => validate_expr(r, form),
            }
        },
        Expr::Neg(x) => validate_expr(x, form),
        Expr::Call(name, args) => {
            match validate_exprs(args, form) {
                Err(e) => Err(e),
                Ok(()) => Err(name_error("function call '", name, "' not yet implemented")),
            }
        },
    }
}

/// The first error among `es`, in order.
fn validate_exprs(es: &Vec<Expr>, form: &LetForm) -> (r: Result<(), LetError>)
    ensures
        match r {
            Ok(()) => validate_list(exprs_sv(es@), form.sv()) == Ok::<(), SErr>(()),
            Err(e) => validate_list(exprs_sv(es@), form.sv()) == Err::<(), SErr>(e.sv()),
        },
    decreases es,
{
    let n = es.len();
    let mut i: usize = 0;
    proof {
        lemma_exprs_sv_len(es@);
        assert(exprs_sv(es@).subrange(0, n as int) =~= exprs_sv(es@));
    }
    while i < n
        invariant
            i <= n,
            n == es@.len(),
            n == exprs_sv(es@).len(),
            validate_list(exprs_sv(es@).subrange(i as int, n as int), form.sv()) == validate_list(
                exprs_sv(es@),
                form.sv(),
            ),
        decreases n - i,
    {
        proof {
            lemma_exprs_sv_index(es@, i as int);
            assert(exprs_sv(es@).subrange(i as int, n as int).subrange(1, n - i) =~= exprs_sv(
                es@,
            ).subrange(i + 1, n as int));
        }
        match validate_expr(&es[i], form) {
            Err(e) => {
                return Err(e);
            },
            Ok(()) => {},
        }
        i = i + 1;
    }
    Ok(())
}

// ---------------------------------------------------------------------
// Dependencies between WHERE bindings and their evaluation order

/// Index of the first of `names` equal to `n`.
pub open spec fn index_of(names: Seq<Seq<char>>, n: Seq<char>) -> Option<nat>
    decreases names.len(),
{
    if names.len() == 0 {
        None
    } else if names.last() == n {
        match index_of(names.drop_last(), n) {
            Some(i) => Some(i),
            None => Some((names.len() - 1) as nat),
        }
    } else {
        index_of(names.drop_last(), n)
    }
}

/// The bindings `e` refers to, appended to `acc` in order of first use
/// (each once).
pub open spec fn deps_of(e: SExpr, names: Seq<Seq<char>>, acc: Seq<nat>) -> Seq<nat>
    decreases e,
{
    match e {
        SExpr::Lit(_) => acc,
        SExpr::Var(n) => match index_of(names, n) {
            Some(i) => if acc.contains(i) {
                acc
            } else {
                acc.push(i)
            },
            None => acc,
        },
        SExpr::Bin(_, l, r) => deps_of(*r, names, deps_of(*l, names, acc)),
        SExpr::Neg(x) => deps_of(*x, names, acc),
        SExpr::Call(_, args) => deps_of_list(args, names, acc),
    }
}

pub open spec fn deps_of_list(es: Seq<SExpr>, names: Seq<Seq<char>>, acc: Seq<nat>) -> Seq<nat>
    decreases es,
{
    if es.len() == 0 {
        acc
    } else {
        deps_of_list(es.subrange(1, es.len() as int), names, deps_of(es[0], names, acc))
    }
}

pub open spec fn nat_seq(v: Seq<usize>) -> Seq<nat> {
    v.map_values(|x: usize| x as nat)
}

fn index_in(names: &Vec<String>, n: &String) -> (r: Option<usize>)
    ensures
        match r {
            Some(i) => index_of(strings_sv(names@), n@) == Some(i as nat),
            None => index_of(strings_sv(names@), n@) is None,
        },
{
    let len = names.len();
    let mut i: usize = 0;
    while i < len
        invariant
            i <= len,
            len == names@.len(),
            forall|k: int| 0 <= k < i ==> names@[k]@ != n@,
        decreases len - i,
    {
        if names[i] == *n {
            proof {
                lemma_index_of_first(strings_sv(names@), n@, i as int);
            }
            return Some(i);
        }
        i = i + 1;
    }
    proof {
        lemma_index_of_none(strings_sv(names@), n@);
    }
    None
}

proof fn lemma_index_of_first(names: Seq<Seq<char>>, n: Seq<char>, i: int)
    requires
        0 <= i < names.len(),
        names[i] == n,
        forall|k: int| 0 <= k < i ==> names[k] != n,
    ensures
        index_of(names, n) == Some(i as nat),
    decreases names.len(),
{
    if i < names.len() - 1 {
        lemma_index_of_first(names.drop_last(), n, i);
    } else {
        lemma_index_of_none(names.drop_last(), n);
    }
}

proof fn lemma_index_of_none(names: Seq<Seq<char>>, n: Seq<char>)
    requires
        forall|k: int| 0 <= k < names.len() ==> names[k] != n,
    ensures
        index_of(names, n) is None,
    decreases names.len(),
{
    if names.len() > 0 {
        lemma_index_of_none(names.drop_last(), n);
    }
}

fn push_dep(deps: &mut Vec<usize>, idx: usize)
    ensures
        nat_seq(final(deps)@) == (if nat_seq(old(deps)@).contains(idx as nat) {
            nat_seq(old(deps)@)
        } else {
            nat_seq(old(deps)@).push(idx as nat)
        }),
{
    let mut k: usize = 0;
    while k < deps.len()
        invariant
            k <= deps@.len(),
            forall|j: int| 0 <= j < k ==> deps@[j] != idx,
        decreases deps@.len() - k,
    {
        if deps[k] == idx {
            proof {
                assert(nat_seq(deps@)[k as int] == idx as nat);
            }
            return;
        }
        k = k + 1;
    }
    proof {
        if nat_seq(deps@).contains(idx as nat) {
            let j = choose|j: int| 0 <= j < nat_seq(deps@).len() && nat_seq(deps@)[j] == idx as nat;
            assert(deps@[j] == idx);
        }
    }
    let ghost before = deps@;
    deps.push(idx);
    proof {
        assert(nat_seq(deps@) =~= nat_seq(before).push(idx as nat));
    }
}

/// Appends to `deps` the bindings (by index into `names`) that `expr`
/// refers to, each once, in order of first use.
pub fn collect_deps(expr: &Expr, names: &Vec<String>, deps: &mut Vec<usize>)
    ensures
        nat_seq(final(deps)@) == deps_of(expr.sv(), strings_sv(names@), nat_seq(old(deps)@)),
    decreases expr,
{
    match expr {
        Expr::Lit(_) => {},
        Expr::Var(n) => {
            match index_in(names, n) {
                Some(i) => push_dep(deps, i),
                None => {},
            }
        },
        Expr::Bin(_, l, r) => {
            collect_deps(l, names, deps);
            collect_deps(r, names, deps);
        },
        Expr::Neg(x) => collect_deps(x, names, deps),
        Expr::Call(_, args) => collect_deps_list(args, names, deps),
    }
}

fn collect_deps_list(es: &Vec<Expr>, names: &Vec<String>, deps: &mut Vec<usize>)
    ensures
        nat_seq(final(deps)@) == deps_of_list(exprs_sv(es@), strings_sv(names@), nat_seq(old(deps)@)),
    decreases es,
{
    let n = es.len();
    let mut i: usize = 0;
    let ghost acc0 = nat_seq(deps@);
    proof {
        lemma_exprs_sv_len(es@);
        assert(exprs_sv(es@).subrange(0, n as int) =~= exprs_sv(es@));
    }
    while i < n
        invariant
            i <= n,
            n == es@.len(),
            n == exprs_sv(es@).len(),
            deps_of_list(exprs_sv(es@).subrange(i as int, n as int), strings_sv(names@), nat_seq(deps@))
                == deps_of_list(exprs_sv(es@), strings_sv(names@), acc0),
        decreases n - i,
    {
        proof {
            lemma_exprs_sv_index(es@, i as int);
            assert(exprs_sv(es@).subrange(i as int, n as int).subrange(1, n - i) =~= exprs_sv(
                es@,
            ).subrange(i + 1, n as int));
        }
        collect_deps(&es[i], names, deps);
        i = i + 1;
    }
    proof {
        assert(exprs_sv(es@).subrange(n as int, n as int) =~= seq![]);
    }
}

pub open spec fn duplicate_msg(n: Seq<char>) -> Seq<char> {
    "duplicate WHERE binding '"@ + n + "'"@
}

/// The first index whose name also occurs before it.
pub open spec fn first_duplicate(names: Seq<Seq<char>>, i: int) -> Option<int>
    decreases names.len() - i,
{
    if i < 0 || i >= names.len() {
        None
    } else if names.take(i).contains(names[i]) {
        Some(i)
    } else {
        first_duplicate(names, i + 1)
    }
}

/// The names of the WHERE bindings.
pub open spec fn where_names(ws: Seq<(Seq<char>, SExpr)>) -> Seq<Seq<char>> {
    ws.map_values(|w: (Seq<char>, SExpr)| w.0)
}

/// For each binding, the bindings it refers to.
pub open spec fn deps_table(ws: Seq<(Seq<char>, SExpr)>) -> Seq<Seq<nat>> {
    Seq::new(ws.len(), |i: int| deps_of(ws[i].1, where_names(ws), seq![]))
}

/// One relaxation pass of Kahn's algorithm after binding `i` was emitted:
/// for `j` from `from` up, every binding that depends on `i` has one
/// dependency fewer, and joins the queue when it has none left.
pub open spec fn relax(deps: Seq<Seq<nat>>, i: nat, from: int, in_deg: Seq<int>, queue: Seq<nat>) -> (
    Seq<int>,
    Seq<nat>,
)
    decreases deps.len() - from,
{
    if from < 0 || from >= deps.len() {
        (in_deg, queue)
    } else if deps[from].contains(i) && in_deg[from] > 0 {
        let d = in_deg[from] - 1;
        relax(
            deps,
            i,
            from + 1,
            in_deg.update(from, d),
            if d == 0 {
                queue.push(from as nat)
            } else {
                queue
            },
        )
    } else {
        relax(deps, i, from + 1, in_deg, queue)
    }
}

/// Kahn's algorithm with a last-in first-out queue, for at most `fuel`
/// steps: the order in which bindings are emitted.
pub open spec fn kahn(deps: Seq<Seq<nat>>, in_deg: Seq<int>, queue: Seq<nat>, order: Seq<nat>, fuel: nat) -> Seq<nat>
    decreases fuel,
{
    if fuel == 0 || queue.len() == 0 {
        order
    } else {
        let i = queue.last();
        let (in2, q2) = relax(deps, i, 0, in_deg, queue.drop_last());
        kahn(deps, in2, q2, order.push(i), (fuel - 1) as nat)
    }
}

pub open spec fn initial_in_deg(deps: Seq<Seq<nat>>) -> Seq<int> {
    Seq::new(deps.len(), |j: int| deps[j].len() as int)
}

/// The bindings with no dependency, in increasing order, from `from` on.
pub open spec fn initial_queue(deps: Seq<Seq<nat>>, from: int) -> Seq<nat>
    decreases deps.len() - from,
{
    if from < 0 || from >= deps.len() {
        seq![]
    } else if deps[from].len() == 0 {
        seq![from as nat] + initial_queue(deps, from + 1)
    } else {
        initial_queue(deps, from + 1)
    }
}

/// The evaluation order of the WHERE bindings, or the error for a name bound
/// twice or for a circular dependency.
pub open spec fn topo_spec(ws: Seq<(Seq<char>, SExpr)>) -> Result<Seq<nat>, SErr> {
    let names = where_names(ws);
    match first_duplicate(names, 0) {
        Some(i) => Err((duplicate_msg(names[i]), 0)),
        None => {
            let deps = deps_table(ws);
            let order = kahn(
                deps,
                initial_in_deg(deps),
                initial_queue(deps, 0),
                seq![],
                (ws.len() + 1) as nat,
            );
            if order.len() != ws.len() {
                Err(("circular dependency in WHERE clauses"@, 0))
            } else {
                Ok(order)
            }
        },
    }
}


pub open spec fn int_seq(v: Seq<usize>) -> Seq<int> {
    v.map_values(|x: usize| x as int)
}

pub proof fn lemma_initial_queue(deps: Seq<Seq<nat>>, from: int)
    requires
        0 <= from,
    ensures
        forall|x: nat| #[trigger] initial_queue(deps, from).contains(x) <==> (from <= x < deps.len()
            && deps[x as int].len() == 0),
        initial_queue(deps, from).no_duplicates(),
    decreases deps.len() - from,
{
    if from < deps.len() {
        lemma_initial_queue(deps, from + 1);
        let rest = initial_queue(deps, from + 1);
        if deps[from].len() == 0 {
            let q = seq![from as nat] + rest;
            assert forall|x: nat| #[trigger] q.contains(x) <==> (from <= x < deps.len()
                && deps[x as int].len() == 0) by {
                if q.contains(x) {
                    let k = choose|k: int| 0 <= k < q.len() && q[k] == x;
                    if k > 0 {
                        assert(rest[k - 1] == x);
                        assert(rest.contains(x));
                    }
                }
                if from <= x < deps.len() && deps[x as int].len() == 0 {
                    if x == from {
                        assert(q[0] == x);
                    } else {
                        assert(rest.contains(x));
                        let k = choose|k: int| 0 <= k < rest.len() && rest[k] == x;
                        assert(q[k + 1] == x);
                    }
                }
            }
            assert forall|a: int, b: int| 0 <= a < q.len() && 0 <= b < q.len() && a != b implies q[a]
                != q[b] by {
                if a == 0 && b > 0 {
                    assert(rest.contains(q[b]));
                } else if b == 0 && a > 0 {
                    assert(rest.contains(q[a]));
                } else if a > 0 && b > 0 {
                    assert(q[a] == rest[a - 1] && q[b] == rest[b - 1]);
                }
            }
        }
    } else {
        assert(initial_queue(deps, from) =~= seq![]);
    }
}

/// A sequence of distinct naturals below `n` has at most `n` elements.
proof fn lemma_distinct_below(s: Seq<nat>, n: nat)
    requires
        s.no_duplicates(),
        forall|k: int| 0 <= k < s.len() ==> s[k] < n,
    ensures
        s.len() <= n,
{
    let t = s.map_values(|x: nat| x as int);
    assert(t.no_duplicates()) by {
        assert forall|a: int, b: int| 0 <= a < t.len() && 0 <= b < t.len() && a != b implies t[a]
            != t[b] by {
            assert(s[a] != s[b]);
        }
    }
    t.unique_seq_to_set();
    vstd::set_lib::lemma_int_range(0, n as int);
    assert(t.to_set().subset_of(vstd::set_lib::set_int_range(0, n as int))) by {
        assert forall|x: int| t.to_set().contains(x) implies vstd::set_lib::set_int_range(
            0,
            n as int,
        ).contains(x) by {
            let k = choose|k: int| 0 <= k < t.len() && t[k] == x;
            assert(s[k] < n);
        }
    }
    vstd::set_lib::lemma_len_subset(t.to_set(), vstd::set_lib::set_int_range(0, n as int));
}

/// The loop state of Kahn's algorithm is sound: emitted and queued bindings
/// are distinct, and a binding is emitted or queued exactly when it has no
/// dependency left.
pub open spec fn kahn_state_ok(n: nat, in_deg: Seq<int>, queue: Seq<nat>, order: Seq<nat>) -> bool {
    &&& in_deg.len() == n
    &&& order.no_duplicates()
    &&& queue.no_duplicates()
    &&& forall|x: nat| order.contains(x) ==> !queue.contains(x)
    &&& forall|k: int| 0 <= k < order.len() ==> order[k] < n
    &&& forall|k: int| 0 <= k < queue.len() ==> queue[k] < n
    &&& forall|j: int| 0 <= j < n ==> in_deg[j] >= 0
    &&& forall|j: nat| j < n ==> ((order.contains(j) || queue.contains(j)) <==> in_deg[j as int]
        == 0)
}

/// Orders the WHERE bindings so that each comes after the bindings it
/// refers to (Kahn's algorithm); an error for a name bound twice or for a
/// circular dependency.
pub fn topo_sort_wheres(wheres: &Vec<(String, Expr)>) -> (r: Result<Vec<usize>, LetError>)
    ensures
        match r {
            Ok(order) => topo_spec(wheres_sv(wheres@)) == Ok::<_, SErr>(nat_seq(order@)),
            Err(e) => topo_spec(wheres_sv(wheres@)) == Err::<Seq<nat>, _>(e.sv()),
        },
        r matches Ok(order) ==> forall|k: int| 0 <= k < order@.len() ==> order@[k] < wheres@.len(),
{
    let n = wheres.len();
    let ghost ws = wheres_sv(wheres@);
    let mut names: Vec<String> = Vec::new();
    let mut i: usize = 0;
    while i < n
        invariant
            i <= n,
            n == wheres@.len(),
            ws == wheres_sv(wheres@),
            names@.len() == i,
            forall|k: int| 0 <= k < i ==> names@[k]@ == ws[k].0,
            first_duplicate(where_names(ws), i as int) == first_duplicate(where_names(ws), 0),
        decreases n - i,
    {
        let mut k: usize = 0;
        while k < i
            invariant
                k <= i,
                i < n,
                n == wheres@.len(),
                ws == wheres_sv(wheres@),
                names@.len() == i,
                forall|m: int| 0 <= m < i ==> names@[m]@ == ws[m].0,
                forall|m: int| 0 <= m < k ==> names@[m]@ != ws[i as int].0,
                first_duplicate(where_names(ws), i as int) == first_duplicate(where_names(ws), 0),
            decreases i - k,
        {
            if names[k] == wheres[i].0 {
                proof {
                    assert(where_names(ws).take(i as int)[k as int] == where_names(ws)[i as int]);
                    assert(first_duplicate(where_names(ws), i as int) == Some(i as int));
                    assert(where_names(ws)[i as int] == wheres@[i as int].0@);
                }
                return Err(name_error("duplicate WHERE binding '", &wheres[i].0, "'"));
            }
            k = k + 1;
        }
        proof {
            if where_names(ws).take(i as int).contains(where_names(ws)[i as int]) {
                let m = choose|m: int|
                    0 <= m < i && where_names(ws).take(i as int)[m] == where_names(ws)[i as int];
                assert(names@[m]@ == ws[m].0);
            }
        }
        names.push(wheres[i].0.clone());
        i = i + 1;
    }
    proof {
        assert(strings_sv(names@) =~= where_names(ws));
    }
    let ghost deps_t = deps_table(ws);
    let mut deps: Vec<Vec<usize>> = Vec::new();
    let mut in_deg: Vec<usize> = Vec::new();
    let mut queue: Vec<usize> = Vec::new();
    let mut j: usize = 0;
    proof {
        assert(initial_queue(deps_t, 0) =~= nat_seq(queue@) + initial_queue(deps_t, 0));
    }
    while j < n
        invariant
            j <= n,
            n == wheres@.len(),
            ws == wheres_sv(wheres@),
            deps_t == deps_table(ws),
            strings_sv(names@) == where_names(ws),
            deps@.len() == j,
            in_deg@.len() == j,
            forall|m: int| 0 <= m < j ==> nat_seq(#[trigger] deps@[m]@) == deps_t[m],
            forall|m: int| 0 <= m < j ==> in_deg@[m] as int == deps_t[m].len(),
            nat_seq(queue@) + initial_queue(deps_t, j as int) == initial_queue(deps_t, 0),
        decreases n - j,
    {
        let mut d: Vec<usize> = Vec::new();
        proof {
            assert(nat_seq(d@) =~= seq![]);
        }
        collect_deps(&wheres[j].1, &names, &mut d);
        let dl = d.len();
        proof {
            assert(ws[j as int].1 == wheres@[j as int].1.sv());
            assert(nat_seq(d@) == deps_t[j as int]);
        }
        let ghost q_before = nat_seq(queue@);
        if dl == 0 {
            queue.push(j);
            proof {
                assert(nat_seq(queue@) =~= q_before.push(j as nat));
                assert(initial_queue(deps_t, j as int) == seq![j as nat] + initial_queue(
                    deps_t,
                    j + 1,
                ));
                assert(q_before.push(j as nat) + initial_queue(deps_t, j + 1) =~= q_before + (seq![
                    j as nat,
                ] + initial_queue(deps_t, j + 1)));
            }
        }
        deps.push(d);
        in_deg.push(dl);
        j = j + 1;
    }
    proof {
        assert(initial_queue(deps_t, n as int) =~= seq![]);
        assert(nat_seq(queue@) =~= initial_queue(deps_t, 0));
        assert(int_seq(in_deg@) =~= initial_in_deg(deps_t));
        lemma_initial_queue(deps_t, 0);
    }
    let ghost target = kahn(
        deps_t,
        initial_in_deg(deps_t),
        initial_queue(deps_t, 0),
        seq![],
        (n + 1) as nat,
    );
    let mut order: Vec<usize> = Vec::new();
    proof {
        assert(nat_seq(order@) =~= seq![]);
        assert forall|x: nat| x < n implies ((nat_seq(order@).contains(x) || nat_seq(
            queue@,
        ).contains(x)) <==> int_seq(in_deg@)[x as int] == 0) by {
            assert(initial_queue(deps_t, 0).contains(x) <==> deps_t[x as int].len() == 0);
        }
        assert(int_seq(in_deg@).len() == n);
        assert(nat_seq(order@).no_duplicates());
        assert(nat_seq(queue@).no_duplicates());
        assert(forall|x: nat| nat_seq(order@).contains(x) ==> !nat_seq(queue@).contains(x));
        assert(forall|k: int| 0 <= k < nat_seq(queue@).len() ==> nat_seq(queue@)[k] < n) by {
            assert forall|k: int| 0 <= k < nat_seq(queue@).len() implies nat_seq(queue@)[k] < n by {
                assert(initial_queue(deps_t, 0).contains(nat_seq(queue@)[k]));
            }
        }
        assert(forall|j: int| 0 <= j < n ==> int_seq(in_deg@)[j] >= 0);
        assert(kahn_state_ok(n as nat, int_seq(in_deg@), nat_seq(queue@), nat_seq(order@)));
    }
    while queue.len() > 0
        invariant
            n == wheres@.len(),
            deps@.len() == n,
            deps_t.len() == n,
            forall|m: int| 0 <= m < n ==> nat_seq(#[trigger] deps@[m]@) == deps_t[m],
            kahn_state_ok(n as nat, int_seq(in_deg@), nat_seq(queue@), nat_seq(order@)),
            kahn(
                deps_t,
                int_seq(in_deg@),
                nat_seq(queue@),
                nat_seq(order@),
                (n + 1 - order@.len()) as nat,
            ) == target,
            order@.len() <= n,
        decreases n - order@.len(),
    {
        let ghost in0 = int_seq(in_deg@);
        let ghost q0 = nat_seq(queue@);
        let ghost o0 = nat_seq(order@);
        let top = queue.pop().unwrap();
        proof {
            assert(nat_seq(queue@) =~= q0.drop_last());
            assert(top as nat == q0.last());
        }
        order.push(top);
        proof {
            assert(nat_seq(order@) =~= o0.push(top as nat));
            assert(q0.contains(top as nat));
            assert(!o0.contains(top as nat));
            assert forall|x: nat| nat_seq(order@).contains(x) implies !nat_seq(queue@).contains(x) by {
                if x == top as nat {
                    if nat_seq(queue@).contains(x) {
                        let k = choose|k: int| 0 <= k < nat_seq(queue@).len() && nat_seq(queue@)[k] == x;
                        assert(q0[k] == q0[q0.len() - 1]);
                    }
                } else {
                    assert(o0.contains(x));
                    if nat_seq(queue@).contains(x) {
                        let k = choose|k: int| 0 <= k < nat_seq(queue@).len() && nat_seq(queue@)[k] == x;
                        assert(q0[k] == x);
                    }
                }
            }
            assert forall|x: nat| x < n implies ((nat_seq(order@).contains(x) || nat_seq(
                queue@,
            ).contains(x)) <==> int_seq(in_deg@)[x as int] == 0) by {
                if o0.contains(x) || q0.contains(x) {
                    if o0.contains(x) {
                        let k = choose|k: int| 0 <= k < o0.len() && o0[k] == x;
                        assert(nat_seq(order@)[k] == x);
                    } else if x != top as nat {
                        let k = choose|k: int| 0 <= k < q0.len() && q0[k] == x;
                        assert(k != q0.len() - 1);
                        assert(nat_seq(queue@)[k] == x);
                    } else {
                        assert(nat_seq(order@)[o0.len() as int] == x);
                    }
                }
                if nat_seq(order@).contains(x) {
                    let k = choose|k: int| 0 <= k < nat_seq(order@).len() && nat_seq(order@)[k] == x;
                    if k < o0.len() {
                        assert(o0[k] == x);
                    }
                }
                if nat_seq(queue@).contains(x) {
                    let k = choose|k: int| 0 <= k < nat_seq(queue@).len() && nat_seq(queue@)[k] == x;
                    assert(q0[k] == x);
                }
            }
            lemma_distinct_below(nat_seq(order@), n as nat);
        }
        let ghost fuel = (n + 1 - o0.len()) as nat;
        let mut jj: usize = 0;
        while jj < n
            invariant
                jj <= n,
                n == wheres@.len(),
                deps@.len() == n,
                deps_t.len() == n,
                forall|m: int| 0 <= m < n ==> nat_seq(#[trigger] deps@[m]@) == deps_t[m],
                kahn_state_ok(n as nat, int_seq(in_deg@), nat_seq(queue@), nat_seq(order@)),
                nat_seq(order@) == o0.push(top as nat),
                relax(deps_t, top as nat, jj as int, int_seq(in_deg@), nat_seq(queue@)) == relax(
                    deps_t,
                    top as nat,
                    0,
                    in0,
                    q0.drop_last(),
                ),
                order@.len() <= n,
            decreases n - jj,
        {
            let mut hit = false;
            let mut k: usize = 0;
            while k < deps[jj].len()
                invariant
                    k <= deps@[jj as int]@.len(),
                    jj < n,
                    deps@.len() == n,
                    !hit ==> forall|m: int| 0 <= m < k ==> deps@[jj as int]@[m] != top,
                    hit ==> nat_seq(deps@[jj as int]@).contains(top as nat),
                decreases deps@[jj as int]@.len() - k,
            {
                if deps[jj][k] == top {
                    proof {
                        assert(nat_seq(deps@[jj as int]@)[k as int] == top as nat);
                    }
                    hit = true;
                }
                k = k + 1;
            }
            proof {
                if !hit && nat_seq(deps@[jj as int]@).contains(top as nat) {
                    let m = choose|m: int|
                        0 <= m < nat_seq(deps@[jj as int]@).len() && nat_seq(deps@[jj as int]@)[m]
                            == top as nat;
                    assert(deps@[jj as int]@[m] == top);
                }
                assert(hit == deps_t[jj as int].contains(top as nat));
            }
            let ghost in1 = int_seq(in_deg@);
            let ghost q1 = nat_seq(queue@);
            if hit && in_deg[jj] > 0 {
                let d = in_deg[jj] - 1;
                in_deg.set(jj, d);
                if d == 0 {
                    queue.push(jj);
                }
                proof {
                    assert(int_seq(in_deg@) =~= in1.update(jj as int, d as int));
                    if d == 0 {
                        assert(nat_seq(queue@) =~= q1.push(jj as nat));
                        assert(!nat_seq(order@).contains(jj as nat));
                        assert(!q1.contains(jj as nat));
                        assert forall|a: int, b: int|
                            0 <= a < nat_seq(queue@).len() && 0 <= b < nat_seq(queue@).len() && a
                                != b implies nat_seq(queue@)[a] != nat_seq(queue@)[b] by {
                            if a == q1.len() {
                                assert(q1.contains(nat_seq(queue@)[b]));
                            } else if b == q1.len() {
                                assert(q1.contains(nat_seq(queue@)[a]));
                            }
                        }
                        assert forall|x: nat| nat_seq(order@).contains(x) implies !nat_seq(
                            queue@,
                        ).contains(x) by {
                            if nat_seq(queue@).contains(x) {
                                let k2 = choose|k2: int|
                                    0 <= k2 < nat_seq(queue@).len() && nat_seq(queue@)[k2] == x;
                                if k2 < q1.len() {
                                    assert(q1.contains(x));
                                }
                            }
                        }
                        assert forall|x: nat| x < n implies ((nat_seq(order@).contains(x)
                            || nat_seq(queue@).contains(x)) <==> int_seq(in_deg@)[x as int]
                            == 0) by {
                            if nat_seq(queue@).contains(x) && x != jj as nat {
                                let k2 = choose|k2: int|
                                    0 <= k2 < nat_seq(queue@).len() && nat_seq(queue@)[k2] == x;
                                assert(q1[k2] == x);
                            }
                            if x != jj as nat && q1.contains(x) {
                                let k2 = choose|k2: int| 0 <= k2 < q1.len() && q1[k2] == x;
                                assert(nat_seq(queue@)[k2] == x);
                            }
                            if x == jj as nat {
                                assert(nat_seq(queue@)[q1.len() as int] == x);
                            }
                        }
                    } else {
                        assert(nat_seq(queue@) == q1);
                        assert forall|x: nat| x < n implies ((nat_seq(order@).contains(x)
                            || nat_seq(queue@).contains(x)) <==> int_seq(in_deg@)[x as int]
                            == 0) by {
                            if x == jj as nat {
                                assert(in1[x as int] != 0);
                            }
                        }
                    }
                }
            }
            jj = jj + 1;
        }
        proof {
            assert(relax(deps_t, top as nat, n as int, int_seq(in_deg@), nat_seq(queue@)) == (
                int_seq(in_deg@),
                nat_seq(queue@),
            ));
            assert(fuel > 0);
        }
    }
    proof {
        assert(kahn(
            deps_t,
            int_seq(in_deg@),
            nat_seq(queue@),
            nat_seq(order@),
            (n + 1 - order@.len()) as nat,
        ) == nat_seq(order@));
    }
    proof {
        assert(first_duplicate(where_names(ws), 0) is None);
        assert(where_names(ws).len() == n);
        assert(deps_table(ws) == deps_t);
    }
    if order.len() != n {
        return Err(error_at("circular dependency in WHERE clauses", 0));
    }
    proof {
        assert forall|k: int| 0 <= k < order@.len() implies order@[k] < n by {
            assert(nat_seq(order@)[k] < n);
        }
    }
    Ok(order)
}


// ---------------------------------------------------------------------
// Emission

/// The constant pool: IEEE-754 bits with their rendering, in order of
/// first use.
pub open spec fn pool_sv(v: Seq<(u64, String)>) -> Seq<(u64, Seq<char>)> {
    v.map_values(|p: (u64, String)| (p.0, p.1@))
}

/// The registers of the named values; a later entry hides an earlier one
/// of the same name.
pub open spec fn vars_sv(v: Seq<(String, u8)>) -> Seq<(Seq<char>, u8)> {
    v.map_values(|p: (String, u8)| (p.0@, p.1))
}

/// The register of `n`: its last entry.
pub open spec fn var_lookup(vars: Seq<(Seq<char>, u8)>, n: Seq<char>) -> Option<u8>
    decreases vars.len(),
{
    if vars.len() == 0 {
        None
    } else if vars.last().0 == n {
        Some(vars.last().1)
    } else {
        var_lookup(vars.drop_last(), n)
    }
}

proof fn lemma_var_lookup_some(vars: Seq<(Seq<char>, u8)>, n: Seq<char>, k: int)
    requires
        0 <= k < vars.len(),
        vars[k].0 == n,
    ensures
        var_lookup(vars, n) is Some,
    decreases vars.len(),
{
    if vars.last().0 != n {
        lemma_var_lookup_some(vars.drop_last(), n, k);
    }
}

/// Index of the first pool entry with these bits, from `from` on; the
/// pool's length when there is none.
pub open spec fn pool_find(pool: Seq<(u64, Seq<char>)>, bits: u64, from: int) -> int
    decreases pool.len() - from,
{
    if from < 0 || from >= pool.len() {
        pool.len() as int
    } else if pool[from].0 == bits {
        from
    } else {
        pool_find(pool, bits, from + 1)
    }
}

pub open spec fn load_const_text(target: nat, idx: nat, fn_name: Seq<char>) -> Seq<char> {
    "    movsd xmm"@ + decimal(target) + ", qword ptr [rip + "@ + fn_name + "$$const_"@ + decimal(
        idx,
    ) + "]\n"@
}

/// Loading a constant: the text, and the pool with the constant added
/// unless bit-equal to one already there.
pub open spec fn load_const_spec(
    target: nat,
    bits: u64,
    shown: Seq<char>,
    pool: Seq<(u64, Seq<char>)>,
    fn_name: Seq<char>,
) -> (Seq<char>, Seq<(u64, Seq<char>)>) {
    let idx = pool_find(pool, bits, 0);
    (
        load_const_text(target, idx as nat, fn_name),
        if idx == pool.len() {
            pool.push((bits, shown))
        } else {
            pool
        },
    )
}

pub open spec fn mov_text(target: nat, src: nat) -> Seq<char> {
    "    movsd xmm"@ + decimal(target) + ", xmm"@ + decimal(src) + "\n"@
}

pub open spec fn mnemonic(op: BinOp) -> Seq<char> {
    match op {
        BinOp::Add => "addsd"@,
        BinOp::Sub => "subsd"@,
        BinOp::Mul => "mulsd"@,
        BinOp::Div => "divsd"@,
        BinOp::Pow => "pow"@,
    }
}

pub open spec fn op_text(op: BinOp, target: nat, src: nat) -> Seq<char> {
    "    "@ + mnemonic(op) + " xmm"@ + decimal(target) + ", xmm"@ + decimal(src) + "\n"@
}

pub open spec fn neg_text(target: nat, fn_name: Seq<char>) -> Seq<char> {
    "    xorpd xmm"@ + decimal(target) + ", xmmword ptr [rip + "@ + fn_name + "$$sign_mask]\n"@
}

pub open spec fn call_unsupported_msg(n: Seq<char>) -> Seq<char> {
    "function call '"@ + n
        + "' not yet implemented (MVP supports + - * / unary-minus and named constants pi/e)"@
}

pub open spec fn no_value_msg(t: Seq<char>) -> Seq<char> {
    "no value for the number "@ + t
}

/// The code that leaves the value of `e` in `xmm{target}`, with registers
/// from `next` on free for scratch, and the constant pool after it.
pub open spec fn emit_spec(
    e: SExpr,
    target: nat,
    vars: Seq<(Seq<char>, u8)>,
    pool: Seq<(u64, Seq<char>)>,
    next: nat,
    fn_name: Seq<char>,
    table: Seq<(Seq<char>, u64, Seq<char>)>,
) -> Result<(Seq<char>, Seq<(u64, Seq<char>)>), SErr>
    decreases e,
{
    match e {
        SExpr::Lit(t) => match table_lookup(table, t) {
            Some((bits, shown)) => Ok(load_const_spec(target, bits, shown, pool, fn_name)),
            None => Err((no_value_msg(t), 0)),
        },
        SExpr::Var(n) => match known_constant_spec(n) {
            Some((bits, shown)) => Ok(load_const_spec(target, bits, shown, pool, fn_name)),
            None => match var_lookup(vars, n) {
                Some(src) => Ok(
                    (
                        if src != target {
                            mov_text(target, src as nat)
                        } else {
                            seq![]
                        },
                        pool,
                    ),
                ),
                None => Err((undefined_msg(n), 0)),
            },
        },
        SExpr::Bin(op, l, r) => if next >= 16 {
            Err(("LET expression too deep for register file"@, 0))
        } else {
            match emit_spec(*l, target, vars, pool, next, fn_name, table) {
                Err(err) => Err(err),
                Ok((t1, p1)) => match emit_spec(*r, next, vars, p1, next + 1, fn_name, table) {
                    Err(err) => Err(err),
                    Ok((t2, p2)) => if op == BinOp::Pow {
                        Err(("** is not supported in the MVP (needs libm pow); use repeated *"@, 0))
                    } else {
                        Ok((t1 + t2 + op_text(op, target, next), p2))
                    },
                },
            }
        },
        SExpr::Neg(x) => match emit_spec(*x, target, vars, pool, next, fn_name, table) {
            Err(err) => Err(err),
            Ok((t1, p1)) => Ok((t1 + neg_text(target, fn_name), p1)),
        },
        SExpr::Call(n, _) => Err((call_unsupported_msg(n), 0)),
    }
}

/// `out` grew by the text of `res` and `pool` became its pool, or `r` is
/// its error.
pub open spec fn emitted(
    res: Result<(Seq<char>, Seq<(u64, Seq<char>)>), SErr>,
    r: Result<(), LetError>,
    out_before: Seq<char>,
    out_after: Seq<char>,
    pool_after: Seq<(u64, Seq<char>)>,
) -> bool {
    match r {
        Ok(()) => res matches Ok((t, p)) && out_after == out_before + t && pool_after == p,
        Err(e) => res == Err::<(Seq<char>, Seq<(u64, Seq<char>)>), SErr>(e.sv()),
    }
}

fn push_load_const(out: &mut String, target: u8, idx: usize, fn_name: &str)
    ensures
        final(out)@ == old(out)@ + load_const_text(target as nat, idx as nat, fn_name@),
{
    push_str(out, "    movsd xmm");
    push_decimal(out, target as u128);
    push_str(out, ", qword ptr [rip + ");
    push_str(out, fn_name);
    push_str(out, "$$const_");
    push_decimal(out, idx as u128);
    push_str(out, "]\n");
}

/// Emits a load of the constant with these bits into `xmm{target}`,
/// adding it to the pool unless a bit-equal constant is there.
pub fn emit_load_const(
    target: u8,
    bits: u64,
    shown: String,
    pool: &mut Vec<(u64, String)>,
    fn_name: &str,
    out: &mut String,
)
    ensures
        ({
            let (t, p) = load_const_spec(target as nat, bits, shown@, pool_sv(old(pool)@), fn_name@);
            final(out)@ == old(out)@ + t && pool_sv(final(pool)@) == p
        }),
{
    let ghost p0 = pool_sv(pool@);
    let n = pool.len();
    let mut i: usize = 0;
    while i < n
        invariant
            i <= n,
            n == pool@.len(),
            p0 == pool_sv(pool@),
            pool_find(p0, bits, i as int) == pool_find(p0, bits, 0),
        ensures
            i <= n,
            pool_find(p0, bits, 0) == i as int,
        decreases n - i,
    {
        if pool[i].0 == bits {
            break;
        }
        i = i + 1;
    }
    let idx = i;
    if idx == n {
        pool.push((bits, shown));
        proof {
            assert(pool_sv(pool@) =~= p0.push((bits, shown@)));
        }
    }
    push_load_const(out, target, idx, fn_name);
}

fn lookup_var(vars: &Vec<(String, u8)>, n: &String) -> (r: Option<u8>)
    ensures
        r == var_lookup(vars_sv(vars@), n@),
{
    let mut i = vars.len();
    proof {
        assert(vars_sv(vars@).take(i as int) =~= vars_sv(vars@));
    }
    while i > 0
        invariant
            i <= vars@.len(),
            var_lookup(vars_sv(vars@).take(i as int), n@) == var_lookup(vars_sv(vars@), n@),
        decreases i,
    {
        proof {
            assert(vars_sv(vars@).take(i as int).drop_last() =~= vars_sv(vars@).take(i - 1));
        }
        if vars[i - 1].0 == *n {
            return Some(vars[i - 1].1);
        }
        i = i - 1;
    }
    None
}

/// Emits the code that leaves the value of `expr` in `xmm{target}`;
/// registers from `next_scratch` on are free for sub-expressions.
#[verifier::rlimit(60)]
#[verifier::spinoff_prover]
pub fn emit_expr(
    expr: &Expr,
    target: u8,
    vars: &Vec<(String, u8)>,
    pool: &mut Vec<(u64, String)>,
    next_scratch: u8,
    fn_name: &str,
    table: &NumberTable,
    out: &mut String,
) -> (r: Result<(), LetError>)
    ensures
        emitted(
            emit_spec(
                expr.sv(),
                target as nat,
                vars_sv(vars@),
                pool_sv(old(pool)@),
                next_scratch as nat,
                fn_name@,
                table.sv(),
            ),
            r,
            old(out)@,
            final(out)@,
            pool_sv(final(pool)@),
        ),
    decreases expr,
{
    match expr {
        Expr::Lit(t) => {
            match lookup_number(table, t) {
                Some((bits, shown)) => {
                    emit_load_const(target, bits, shown, pool, fn_name, out);
                    Ok(())
                },
                None => {
                    let mut message = String::new();
                    push_str(&mut message, "no value for the number ");
                    push_str(&mut message, t.as_str());
                    Err(LetError { message, pos: 0 })
                },
            }
        },
        Expr::Var(name) => {
            match known_constant(name) {
                Some((bits, shown)) => {
                    emit_load_const(target, bits, shown, pool, fn_name, out);
                    Ok(())
                },
                None => {
                    match lookup_var(vars, name) {
                        Some(src) => {
                            let ghost o0 = out@;
                            if src != target {
                                push_str(out, "    movsd xmm");
                                push_decimal(out, target as u128);
                                push_str(out, ", xmm");
                                push_decimal(out, src as u128);
                                push_str(out, "\n");
                                proof {
                                    assert(out@ =~= o0 + mov_text(target as nat, src as nat));
                                }
                            } else {
                                proof {
                                    assert(o0 + seq![] =~= o0);
                                }
                            }
                            Ok(())
                        },
                        None => Err(name_error("undefined name '", name, "'")),
                    }
                },
            }
        },
        Expr::Bin(op, l, r) => {
            if next_scratch >= TOTAL_XMM {
                return Err(error_at("LET expression too deep for register file", 0));
            }
            let ghost o0 = out@;
            let ghost res1 = emit_spec(
                l.sv(),
                target as nat,
                vars_sv(vars@),
                pool_sv(pool@),
                next_scratch as nat,
                fn_name@,
                table.sv(),
            );
            match emit_expr(l, target, vars, pool, next_scratch, fn_name, table, out) {
                Err(e) => {
                    return Err(e);
                },
                Ok(()) => {},
            }
            let ghost o1 = out@;
            let ghost res2 = emit_spec(
                r.sv(),
                next_scratch as nat,
                vars_sv(vars@),
                pool_sv(pool@),
                (next_scratch + 1) as nat,
                fn_name@,
                table.sv(),
            );
            match emit_expr(r, next_scratch, vars, pool, next_scratch + 1, fn_name, table, out) {
                Err(e) => {
                    return Err(e);
                },
                Ok(()) => {},
            }
            let ghost o2 = out@;
            let m = match op {
                BinOp::Add => "addsd",
                BinOp::Sub => "subsd",
                BinOp::Mul => "mulsd",
                BinOp::Div => "divsd",
                BinOp::Pow => {
                    return Err(
                        error_at("** is not supported in the MVP (needs libm pow); use repeated *", 0),
                    );
                },
            };
            proof {
                assert(m@ == mnemonic(*op));
            }
            push_str(out, "    ");
            push_str(out, m);
            push_str(out, " xmm");
            push_decimal(out, target as u128);
            push_str(out, ", xmm");
            push_decimal(out, next_scratch as u128);
            push_str(out, "\n");
            proof {
                let (t1, p1) = res1->Ok_0;
                let (t2, p2) = res2->Ok_0;
                assert(o1 == o0 + t1);
                assert(o2 == o1 + t2);
                assert(out@ =~= o2 + op_text(*op, target as nat, next_scratch as nat));
                assert(out@ =~= o0 + (t1 + t2 + op_text(*op, target as nat, next_scratch as nat)));
            }
            Ok(())
        },
        Expr::Neg(x) => {
            let ghost o0 = out@;
            let ghost res1 = emit_spec(
                x.sv(),
                target as nat,
                vars_sv(vars@),
                pool_sv(pool@),
                next_scratch as nat,
                fn_name@,
                table.sv(),
            );
            match emit_expr(x, target, vars, pool, next_scratch, fn_name, table, out) {
                Err(e) => {
                    return Err(e);
                },
                Ok(()) => {},
            }
            let ghost o1 = out@;
            push_str(out, "    xorpd xmm");
            push_decimal(out, target as u128);
            push_str(out, ", xmmword ptr [rip + ");
            push_str(out, fn_name);
            push_str(out, "$$sign_mask]\n");
            proof {
                let (t1, p1) = res1->Ok_0;
                assert(o1 == o0 + t1);
                assert(out@ =~= o1 + neg_text(target as nat, fn_name@));
                assert(out@ =~= o0 + (t1 + neg_text(target as nat, fn_name@)));
            }
            Ok(())
        },
        Expr::Call(name, _) => Err(
            name_error(
                "function call '",
                name,
                "' not yet implemented (MVP supports + - * / unary-minus and named constants pi/e)",
            ),
        ),
    }
}


// ---------------------------------------------------------------------
// The whole function

pub open spec fn header_text(f: Seq<char>) -> Seq<char> {
    "    .intel_syntax noprefix\n"@ + "    .text\n"@ + "    .globl "@ + f + "\n"@ + f + ":\n"@
}

/// Inputs take registers 0, 1, … in declaration order, then the bindings
/// in evaluation order.
pub open spec fn assign_vars(
    inputs: Seq<Seq<char>>,
    ws: Seq<(Seq<char>, SExpr)>,
    order: Seq<nat>,
) -> Seq<(Seq<char>, u8)> {
    Seq::new(
        inputs.len() + order.len(),
        |k: int|
            if k < inputs.len() {
                (inputs[k], k as u8)
            } else {
                (ws[order[k - inputs.len()] as int].0, k as u8)
            },
    )
}

pub open spec fn input_load_text(r: nat, off: nat) -> Seq<char> {
    "    movsd xmm"@ + decimal(r) + ", qword ptr [rcx + "@ + decimal(off) + "]\n"@
}

/// The loads of the first `k` inputs: input `i` comes from
/// `[rcx + (n_in - 1 - i) * 8]`.
pub open spec fn input_loads(inputs: Seq<Seq<char>>, vars: Seq<(Seq<char>, u8)>, k: int) -> Seq<char>
    decreases k,
{
    if k <= 0 {
        seq![]
    } else {
        input_loads(inputs, vars, k - 1) + input_load_text(
            var_lookup(vars, inputs[k - 1]).unwrap() as nat,
            ((inputs.len() - k) * 8) as nat,
        )
    }
}

/// The code of the first `k` bindings in evaluation order, each into its
/// own register.
pub open spec fn where_code(
    ws: Seq<(Seq<char>, SExpr)>,
    order: Seq<nat>,
    vars: Seq<(Seq<char>, u8)>,
    pool0: Seq<(u64, Seq<char>)>,
    next: nat,
    f: Seq<char>,
    table: Seq<(Seq<char>, u64, Seq<char>)>,
    k: int,
) -> Result<(Seq<char>, Seq<(u64, Seq<char>)>), SErr>
    decreases k,
{
    if k <= 0 {
        Ok((seq![], pool0))
    } else {
        match where_code(ws, order, vars, pool0, next, f, table, k - 1) {
            Err(err) => Err(err),
            Ok((t, p)) => {
                let w = ws[order[k - 1] as int];
                match emit_spec(w.1, var_lookup(vars, w.0).unwrap() as nat, vars, p, next, f, table) {
                    Err(err) => Err(err),
                    Ok((t2, p2)) => Ok((t + t2, p2)),
                }
            },
        }
    }
}

pub open spec fn store_text(off: nat, r: nat) -> Seq<char> {
    "    movsd qword ptr [rdx + "@ + decimal(off) + "], xmm"@ + decimal(r) + "\n"@
}

/// The code of the first `k` results: each is computed into the first
/// scratch register and stored to `[rdx + (n_out - 1 - i) * 8]`.
pub open spec fn result_code(
    results: Seq<SExpr>,
    vars: Seq<(Seq<char>, u8)>,
    pool0: Seq<(u64, Seq<char>)>,
    next: nat,
    f: Seq<char>,
    table: Seq<(Seq<char>, u64, Seq<char>)>,
    k: int,
) -> Result<(Seq<char>, Seq<(u64, Seq<char>)>), SErr>
    decreases k,
{
    if k <= 0 {
        Ok((seq![], pool0))
    } else {
        match result_code(results, vars, pool0, next, f, table, k - 1) {
            Err(err) => Err(err),
            Ok((t, p)) => match emit_spec(results[k - 1], next, vars, p, next + 1, f, table) {
                Err(err) => Err(err),
                Ok((t2, p2)) => Ok(
                    (t + t2 + store_text(((results.len() - k) * 8) as nat, next), p2),
                ),
            },
        }
    }
}

pub open spec fn pool_line(f: Seq<char>, i: nat, bits: u64, shown: Seq<char>) -> Seq<char> {
    f + "$$const_"@ + decimal(i) + ": .quad 0x"@ + fixed_digits(bits as nat, 16, 16, true)
        + "    # "@ + shown + "\n"@
}

pub open spec fn pool_lines(pool: Seq<(u64, Seq<char>)>, f: Seq<char>, k: int) -> Seq<char>
    decreases k,
{
    if k <= 0 {
        seq![]
    } else {
        pool_lines(pool, f, k - 1) + pool_line(f, (k - 1) as nat, pool[k - 1].0, pool[k - 1].1)
    }
}

pub open spec fn pool_section(pool: Seq<(u64, Seq<char>)>, f: Seq<char>) -> Seq<char> {
    if pool.len() == 0 {
        seq![]
    } else {
        "    .p2align 3\n"@ + pool_lines(pool, f, pool.len() as int)
    }
}

pub open spec fn sign_mask_text(f: Seq<char>) -> Seq<char> {
    "    .p2align 4\n"@ + f + "$$sign_mask: .quad 0x8000000000000000, 0x0000000000000000\n"@
}

pub open spec fn too_many_msg(k: nat) -> Seq<char> {
    "LET has "@ + decimal(k)
        + " named values; needs ≤ 14 for xmm0..xmm15 (this build supports up to 14 named values)"@
}

/// The assembly text of a LET form whose bindings are evaluated in `order`.
pub open spec fn lower_ordered(
    f: SLetForm,
    order: Seq<nat>,
    fn_name: Seq<char>,
    table: Seq<(Seq<char>, u64, Seq<char>)>,
) -> Result<Seq<char>, SErr> {
    let named = f.inputs.len() + order.len();
    if named + 2 > 16 {
        Err((too_many_msg(named as nat), 0))
    } else {
        let vars = assign_vars(f.inputs, f.wheres, order);
        match where_code(f.wheres, order, vars, seq![], named as nat, fn_name, table, order.len() as int) {
            Err(err) => Err(err),
            Ok((tw, p1)) => match result_code(
                f.results,
                vars,
                p1,
                named as nat,
                fn_name,
                table,
                f.results.len() as int,
            ) {
                Err(err) => Err(err),
                Ok((tr, p2)) => Ok(
                    header_text(fn_name) + input_loads(f.inputs, vars, f.inputs.len() as int) + tw
                        + tr + "    ret\n"@ + pool_section(p2, fn_name) + sign_mask_text(fn_name),
                ),
            },
        }
    }
}

/// The assembly text of a LET form, or the first error: an undefined name
/// or a call, then a binding defined twice or a circular dependency, then
/// more named values than registers, then an error of code generation.
pub open spec fn lower_spec(
    f: SLetForm,
    fn_name: Seq<char>,
    table: Seq<(Seq<char>, u64, Seq<char>)>,
) -> Result<Seq<char>, SErr> {
    match validate_form(f) {
        Err(err) => Err(err),
        Ok(()) => match topo_spec(f.wheres) {
            Err(err) => Err(err),
            Ok(order) => lower_ordered(f, order, fn_name, table),
        },
    }
}

proof fn lemma_where_code_err(
    ws: Seq<(Seq<char>, SExpr)>,
    order: Seq<nat>,
    vars: Seq<(Seq<char>, u8)>,
    pool0: Seq<(u64, Seq<char>)>,
    next: nat,
    f: Seq<char>,
    table: Seq<(Seq<char>, u64, Seq<char>)>,
    k: int,
    m: int,
)
    requires
        0 <= k <= m,
        where_code(ws, order, vars, pool0, next, f, table, k) is Err,
    ensures
        where_code(ws, order, vars, pool0, next, f, table, m) == where_code(
            ws,
            order,
            vars,
            pool0,
            next,
            f,
            table,
            k,
        ),
    decreases m - k,
{
    if m > k {
        lemma_where_code_err(ws, order, vars, pool0, next, f, table, k, m - 1);
    }
}

proof fn lemma_result_code_err(
    results: Seq<SExpr>,
    vars: Seq<(Seq<char>, u8)>,
    pool0: Seq<(u64, Seq<char>)>,
    next: nat,
    f: Seq<char>,
    table: Seq<(Seq<char>, u64, Seq<char>)>,
    k: int,
    m: int,
)
    requires
        0 <= k <= m,
        result_code(results, vars, pool0, next, f, table, k) is Err,
    ensures
        result_code(results, vars, pool0, next, f, table, m) == result_code(
            results,
            vars,
            pool0,
            next,
            f,
            table,
            k,
        ),
    decreases m - k,
{
    if m > k {
        lemma_result_code_err(results, vars, pool0, next, f, table, k, m - 1);
    }
}

fn validate_wheres(form: &LetForm) -> (r: Result<(), LetError>)
    ensures
        match r {
            Ok(()) => validate_list(where_exprs(form.sv().wheres), form.sv()) == Ok::<(), SErr>(()),
            Err(e) => validate_list(where_exprs(form.sv().wheres), form.sv()) == Err::<(), SErr>(
                e.sv(),
            ),
        },
{
    let n = form.wheres.len();
    let ghost es = where_exprs(form.sv().wheres);
    let mut i: usize = 0;
    proof {
        assert(es.subrange(0, n as int) =~= es);
    }
    while i < n
        invariant
            i <= n,
            n == form.wheres@.len(),
            es == where_exprs(form.sv().wheres),
            es.len() == n,
            validate_list(es.subrange(i as int, n as int), form.sv()) == validate_list(es, form.sv()),
        decreases n - i,
    {
        proof {
            assert(es.subrange(i as int, n as int).subrange(1, n - i) =~= es.subrange(
                i + 1,
                n as int,
            ));
            assert(es[i as int] == form.wheres@[i as int].1.sv());
        }
        match validate_expr(&form.wheres[i].1, form) {
            Err(e) => {
                return Err(e);
            },
            Ok(()) => {},
        }
        i = i + 1;
    }
    Ok(())
}

fn push_input_load(out: &mut String, r: u8, off: u128)
    ensures
        final(out)@ == old(out)@ + input_load_text(r as nat, off as nat),
{
    push_str(out, "    movsd xmm");
    push_decimal(out, r as u128);
    push_str(out, ", qword ptr [rcx + ");
    push_decimal(out, off as u128);
    push_str(out, "]\n");
}

fn push_store(out: &mut String, off: u128, r: u8)
    ensures
        final(out)@ == old(out)@ + store_text(off as nat, r as nat),
{
    push_str(out, "    movsd qword ptr [rdx + ");
    push_decimal(out, off as u128);
    push_str(out, "], xmm");
    push_decimal(out, r as u128);
    push_str(out, "\n");
}

fn push_pool_line(out: &mut String, fn_name: &str, i: usize, bits: u64, shown: &String)
    ensures
        final(out)@ == old(out)@ + pool_line(fn_name@, i as nat, bits, shown@),
{
    push_str(out, fn_name);
    push_str(out, "$$const_");
    push_decimal(out, i as u128);
    push_str(out, ": .quad 0x");
    push_hex_fixed(out, bits, 16, true);
    push_str(out, "    # ");
    push_str(out, shown.as_str());
    push_str(out, "\n");
}

/// Lowers a parsed LET form to assembly text for a function named
/// `fn_name`; `numbers` gives the values of its number literals.
#[verifier::rlimit(80)]
#[verifier::spinoff_prover]
pub fn lower(form: &LetForm, fn_name: &str, numbers: &NumberTable) -> (r: Result<String, LetError>)
    ensures
        match r {
            Ok(s) => lower_spec(form.sv(), fn_name@, numbers.sv()) == Ok::<_, SErr>(s@),
            Err(e) => lower_spec(form.sv(), fn_name@, numbers.sv()) == Err::<Seq<char>, _>(e.sv()),
        },
{
    let ghost f = form.sv();
    // 1. Every name resolves.
    match validate_exprs(&form.results, form) {
        Err(e) => {
            return Err(e);
        },
        Ok(()) => {},
    }
    match validate_wheres(form) {
        Err(e) => {
            return Err(e);
        },
        Ok(()) => {},
    }
    // 2. Bindings in dependency order.
    let order = match topo_sort_wheres(&form.wheres) {
        Err(e) => {
            return Err(e);
        },
        Ok(o) => o,
    };
    let ghost ord = nat_seq(order@);
    // 3. One register per named value.
    let n_in = form.inputs.len();
    let big_named: u128 = n_in as u128 + order.len() as u128;
    if big_named + 2 > 16 {
        let mut message = String::new();
        push_str(&mut message, "LET has ");
        push_decimal(&mut message, big_named);
        push_str(
            &mut message,
            " named values; needs ≤ 14 for xmm0..xmm15 (this build supports up to 14 named values)",
        );
        return Err(LetError { message, pos: 0 });
    }
    let named = n_in + order.len();
    let ghost vs = assign_vars(f.inputs, f.wheres, ord);
    let mut vars: Vec<(String, u8)> = Vec::new();
    let mut i: usize = 0;
    while i < n_in
        invariant
            i <= n_in,
            n_in == form.inputs@.len(),
            named == n_in + order@.len(),
            named <= 14,
            f == form.sv(),
            vs == assign_vars(f.inputs, f.wheres, ord),
            vars@.len() == i,
            forall|k: int| 0 <= k < i ==> vars_sv(vars@)[k] == vs[k],
        decreases n_in - i,
    {
        vars.push((form.inputs[i].clone(), i as u8));
        i = i + 1;
    }
    let mut k: usize = 0;
    while k < order.len()
        invariant
            k <= order@.len(),
            n_in == form.inputs@.len(),
            named == n_in + order@.len(),
            named <= 14,
            f == form.sv(),
            ord == nat_seq(order@),
            vs == assign_vars(f.inputs, f.wheres, ord),
            forall|m: int| 0 <= m < order@.len() ==> order@[m] < form.wheres@.len(),
            vars@.len() == n_in + k,
            forall|m: int| 0 <= m < n_in + k ==> vars_sv(vars@)[m] == vs[m],
        decreases order@.len() - k,
    {
        let w = order[k];
        vars.push((form.wheres[w].0.clone(), (n_in + k) as u8));
        k = k + 1;
    }
    proof {
        assert(vars_sv(vars@) =~= vs);
    }
    let next: u8 = named as u8;
    // 4. Emit.
    let mut s = String::new();
    push_str(&mut s, "    .intel_syntax noprefix\n");
    push_str(&mut s, "    .text\n");
    push_str(&mut s, "    .globl ");
    push_str(&mut s, fn_name);
    push_str(&mut s, "\n");
    push_str(&mut s, fn_name);
    push_str(&mut s, ":\n");
    let ghost head = s@;
    proof {
        assert(head =~= header_text(fn_name@));
    }
    let mut i: usize = 0;
    while i < n_in
        invariant
            i <= n_in,
            n_in == form.inputs@.len(),
            n_in <= 14,
            f == form.sv(),
            vs == vars_sv(vars@),
            vs == assign_vars(f.inputs, f.wheres, ord),
            s@ == head + input_loads(f.inputs, vs, i as int),
        decreases n_in - i,
    {
        proof {
            lemma_var_lookup_some(vs, f.inputs[i as int], i as int);
        }
        let r = lookup_var(&vars, &form.inputs[i]).unwrap();
        push_input_load(&mut s, r, (n_in - 1 - i) as u128 * 8);
        i = i + 1;
    }
    let ghost loads = s@;
    let mut pool: Vec<(u64, String)> = Vec::new();
    proof {
        assert(pool_sv(pool@) =~= seq![]);
        assert(loads =~= loads + seq![]);
    }
    let mut k: usize = 0;
    while k < order.len()
        invariant
            k <= order@.len(),
            n_in == form.inputs@.len(),
            named == n_in + order@.len(),
            named <= 14,
            next == named,
            f == form.sv(),
            ord == nat_seq(order@),
            vs == vars_sv(vars@),
            vs == assign_vars(f.inputs, f.wheres, ord),
            forall|m: int| 0 <= m < order@.len() ==> order@[m] < form.wheres@.len(),
            where_code(f.wheres, ord, vs, seq![], named as nat, fn_name@, numbers.sv(), k as int)
                matches Ok((t, p)) && s@ == loads + t && pool_sv(pool@) == p,
            validate_form(f) == Ok::<(), SErr>(()),
            topo_spec(f.wheres) == Ok::<_, SErr>(ord),
            form.inputs@.len() + ord.len() + 2 <= 16
        decreases order@.len() - k,
    {
        let w = order[k];
        proof {
            lemma_var_lookup_some(vs, f.wheres[w as int].0, n_in + k);
            assert(f.wheres[w as int].1 == form.wheres@[w as int].1.sv());
            assert(f.wheres[w as int].0 == form.wheres@[w as int].0@);
        }
        let target = lookup_var(&vars, &form.wheres[w].0).unwrap();
        let ghost s0 = s@;
        match emit_expr(&form.wheres[w].1, target, &vars, &mut pool, next, fn_name, numbers, &mut s) {
            Err(e) => {
                proof {
                    lemma_where_code_err(
                        f.wheres,
                        ord,
                        vs,
                        seq![],
                        named as nat,
                        fn_name@,
                        numbers.sv(),
                        k + 1,
                        ord.len() as int,
                    );
                }
                return Err(e);
            },
            Ok(()) => {},
        }
        k = k + 1;
    }
    let ghost after_wheres = s@;
    let ghost wc = where_code(
        f.wheres,
        ord,
        vs,
        seq![],
        named as nat,
        fn_name@,
        numbers.sv(),
        ord.len() as int,
    );
    let ghost tw = wc->Ok_0.0;
    let ghost p1 = wc->Ok_0.1;
    proof {
        assert(result_code(f.results, vs, p1, named as nat, fn_name@, numbers.sv(), 0) == Ok::<
            _,
            SErr,
        >((Seq::<char>::empty(), p1)));
        assert(after_wheres =~= after_wheres + Seq::<char>::empty());
    }
    let n_out = form.results.len();
    proof {
        lemma_exprs_sv_len(form.results@);
    }
    let mut i: usize = 0;
    while i < n_out
        invariant
            i <= n_out,
            n_out == form.results@.len(),
            n_out == f.results.len(),
            named <= 14,
            next == named,
            f == form.sv(),
            vs == vars_sv(vars@),
            wc == where_code(
                f.wheres,
                ord,
                vs,
                seq![],
                named as nat,
                fn_name@,
                numbers.sv(),
                ord.len() as int,
            ),
            wc == Ok::<_, SErr>((tw, p1)),
            vs == assign_vars(f.inputs, f.wheres, ord),
            validate_form(f) == Ok::<(), SErr>(()),
            topo_spec(f.wheres) == Ok::<_, SErr>(ord),
            form.inputs@.len() + ord.len() + 2 <= 16,
            named == f.inputs.len() + ord.len(),
            after_wheres == loads + tw,
            result_code(f.results, vs, p1, named as nat, fn_name@, numbers.sv(), i as int) matches Ok(
                (t2, p2),
            ) && s@ == after_wheres + t2 && pool_sv(pool@) == p2,
        decreases n_out - i,
    {
        proof {
            lemma_exprs_sv_index(form.results@, i as int);
        }
        match emit_expr(&form.results[i], next, &vars, &mut pool, next + 1, fn_name, numbers, &mut s) {
            Err(e) => {
                proof {
                    lemma_result_code_err(
                        f.results,
                        vs,
                        p1,
                        named as nat,
                        fn_name@,
                        numbers.sv(),
                        i + 1,
                        n_out as int,
                    );
                    assert(result_code(f.results, vs, p1, named as nat, fn_name@, numbers.sv(), n_out as int) == Err::<(Seq<char>, Seq<(u64, Seq<char>)>), SErr>(e.sv()));
                    assert(validate_form(f) == Ok::<(), SErr>(()));
                    assert(topo_spec(f.wheres) == Ok::<_, SErr>(ord));
                    assert(!(f.inputs.len() + ord.len() + 2 > 16));
                    assert(where_code(f.wheres, ord, vs, seq![], named as nat, fn_name@, numbers.sv(), ord.len() as int) == Ok::<_, SErr>((tw, p1)));
                    assert(lower_ordered(f, ord, fn_name@, numbers.sv()) == Err::<Seq<char>, SErr>(e.sv()));
                }
                return Err(e);
            },
            Ok(()) => {},
        }
        push_store(&mut s, (n_out - 1 - i) as u128 * 8, next);
        i = i + 1;
    }
    push_str(&mut s, "    ret\n");
    let ghost before_pool = s@;
    let np = pool.len();
    if np > 0 {
        push_str(&mut s, "    .p2align 3\n");
    }
    let ghost pool_start = s@;
    let mut j: usize = 0;
    while j < np
        invariant
            j <= np,
            np == pool@.len(),
            s@ == pool_start + pool_lines(pool_sv(pool@), fn_name@, j as int),
        decreases np - j,
    {
        push_pool_line(&mut s, fn_name, j, pool[j].0, &pool[j].1);
        j = j + 1;
    }
    push_str(&mut s, "    .p2align 4\n");
    push_str(&mut s, fn_name);
    push_str(&mut s, "$$sign_mask: .quad 0x8000000000000000, 0x0000000000000000\n");
    proof {
        let tr = result_code(f.results, vs, p1, named as nat, fn_name@, numbers.sv(), n_out as int)->Ok_0.0;
        let p2 = result_code(f.results, vs, p1, named as nat, fn_name@, numbers.sv(), n_out as int)->Ok_0.1;
        assert(pool_sv(pool@) == p2);
        assert(before_pool == after_wheres + tr + "    ret\n"@);
        assert(pool_start + pool_lines(p2, fn_name@, np as int) == before_pool + pool_section(p2, fn_name@));
        assert(s@ =~= header_text(fn_name@) + input_loads(f.inputs, vs, f.inputs.len() as int) + tw + tr
            + "    ret\n"@ + pool_section(p2, fn_name@) + sign_mask_text(fn_name@));
    }
    Ok(s)
}

} // verus!
