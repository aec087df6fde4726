//! Text the runtime prints for the kernel: numbers, the stack display of
//! `.s`, the per-word trace line, and the breakpoint dump.

use vstd::prelude::*;

use crate::runtime::machine::stack_depth;
use crate::text::{
    decimal, fixed_digits, hex_lower, pad_left, pad_right, push_decimal, push_hex_fixed,
    push_hex_lower, push_padded_left, push_padded_right, push_signed, push_str, signed_decimal,
};

verus! {

/// `{:#x}`: `0x` and the lower-case hexadecimal digits.
pub open spec fn hex_alt(n: u64) -> Seq<char> {
    "0x"@ + hex_lower(n as nat)
}

/// `{:#018x}`: `0x` and sixteen lower-case hexadecimal digits.
pub open spec fn hex18(n: u64) -> Seq<char> {
    "0x"@ + fixed_digits(n as nat, 16, 16, false)
}

/// A cell printed as a signed number.
pub open spec fn signed_cell(v: u64) -> Seq<char> {
    signed_decimal((v as i64) as int)
}

fn push_hex_alt(s: &mut String, n: u64)
    ensures
        final(s)@ == old(s)@ + hex_alt(n),
{
    push_str(s, "0x");
    push_hex_lower(s, n);
}

fn push_hex18(s: &mut String, n: u64)
    ensures
        final(s)@ == old(s)@ + hex18(n),
{
    push_str(s, "0x");
    push_hex_fixed(s, n, 16, false);
}

/// What `.` prints for a cell: the signed value and a space.
pub fn print_int_text(n: u64) -> (s: String)
    ensures
        s@ == signed_cell(n) + " "@,
{
    let mut s = String::new();
    push_signed(&mut s, n as i64);
    push_str(&mut s, " ");
    s
}

/// The signed values of `cells`, each followed by a space.
pub open spec fn cells_text(cells: Seq<u64>) -> Seq<char>
    decreases cells.len(),
{
    if cells.len() == 0 {
        seq![]
    } else {
        cells_text(cells.drop_last()) + signed_cell(cells.last()) + " "@
    }
}

/// What `.s` prints: the depth and the stack pointers, then TOS and the
/// deeper cells, or `[empty …]`.
pub open spec fn dot_s_spec(tos: u64, dsp: u64, sp0: u64, rsp: u64, deeper: Seq<u64>) -> Seq<char> {
    if dsp > sp0 {
        "[empty sp="@ + hex_alt(dsp) + " rp="@ + hex_alt(rsp) + "]"@
    } else {
        "["@ + decimal(((sp0 - dsp) / 8 + 1) as nat) + " sp="@ + hex_alt(dsp) + " rp="@ + hex_alt(rsp)
            + "] "@ + signed_cell(tos) + " "@ + cells_text(deeper)
    }
}

/// The text of `.s`; `deeper` holds the cells below TOS, nearest first.
pub fn dot_s_text(tos: u64, dsp: u64, sp0: u64, rsp: u64, deeper: &Vec<u64>) -> (s: String)
    ensures
        s@ == dot_s_spec(tos, dsp, sp0, rsp, deeper@),
{
    let depth = stack_depth(dsp, sp0);
    let mut s = String::new();
    if depth == 0 {
        push_str(&mut s, "[empty sp=");
        push_hex_alt(&mut s, dsp);
        push_str(&mut s, " rp=");
        push_hex_alt(&mut s, rsp);
        push_str(&mut s, "]");
        return s;
    }
    push_str(&mut s, "[");
    push_decimal(&mut s, depth as u128);
    push_str(&mut s, " sp=");
    push_hex_alt(&mut s, dsp);
    push_str(&mut s, " rp=");
    push_hex_alt(&mut s, rsp);
    push_str(&mut s, "] ");
    push_signed(&mut s, tos as i64);
    push_str(&mut s, " ");
    let ghost head = s@;
    let mut i: usize = 0;
    while i < deeper.len()
        invariant
            i <= deeper@.len(),
            s@ == head + cells_text(deeper@.take(i as int)),
        decreases deeper@.len() - i,
    {
        push_signed(&mut s, deeper[i] as i64);
        push_str(&mut s, " ");
        proof {
            assert(deeper@.take(i + 1).drop_last() =~= deeper@.take(i as int));
        }
        i = i + 1;
    }
    proof {
        assert(deeper@.take(deeper@.len() as int) =~= deeper@);
    }
    s
}

/// The signed values of `cells`, each after a space.
pub open spec fn spaced_cells(cells: Seq<u64>) -> Seq<char>
    decreases cells.len(),
{
    if cells.len() == 0 {
        seq![]
    } else {
        spaced_cells(cells.drop_last()) + " "@ + signed_cell(cells.last())
    }
}

/// The trace line printed before a word runs: its name left-aligned in 16
/// columns, then the stack (TOS first) in parentheses.
pub open spec fn trace_spec(name: Seq<char>, tos: u64, dsp: u64, sp0: u64, deeper: Seq<u64>) -> Seq<char> {
    "» "@ + pad_right(name, 16) + "  ("@ + (if dsp > sp0 {
        " empty"@
    } else {
        " "@ + signed_cell(tos) + spaced_cells(deeper)
    }) + " )\n"@
}

/// The text of the trace line for the word `name`.
pub fn trace_text(name: &str, tos: u64, dsp: u64, sp0: u64, deeper: &Vec<u64>) -> (s: String)
    ensures
        s@ == trace_spec(name@, tos, dsp, sp0, deeper@),
{
    let mut s = String::new();
    push_str(&mut s, "» ");
    push_padded_right(&mut s, name, 16);
    push_str(&mut s, "  (");
    let ghost head = s@;
    if stack_depth(dsp, sp0) == 0 {
        push_str(&mut s, " empty");
    } else {
        push_str(&mut s, " ");
        push_signed(&mut s, tos as i64);
        let ghost mid = s@;
        let mut i: usize = 0;
        while i < deeper.len()
            invariant
                i <= deeper@.len(),
                s@ == mid + spaced_cells(deeper@.take(i as int)),
            decreases deeper@.len() - i,
        {
            push_str(&mut s, " ");
            push_signed(&mut s, deeper[i] as i64);
            proof {
                assert(deeper@.take(i + 1).drop_last() =~= deeper@.take(i as int));
            }
            i = i + 1;
        }
        proof {
            assert(deeper@.take(deeper@.len() as int) =~= deeper@);
        }
    }
    push_str(&mut s, " )\n");
    s
}

/// The machine state a breakpoint dump shows.
pub struct BrkState {
    pub tos: u64,
    pub dsp: u64,
    pub sp0: u64,
    pub rsp: u64,
    pub up: u64,
    /// The data-stack cells below TOS, nearest first.
    pub data: Vec<u64>,
    /// The return-stack cells from RSP up, at most 16.
    pub rstack: Vec<u64>,
    pub base: u64,
    pub state: u64,
    pub latest: u64,
    pub here: u64,
    pub latestxt: u64,
    pub handler: u64,
    pub throw_code: u64,
    pub current: u64,
    pub forth_wid: u64,
    pub order_count: u64,
    /// The first entries of the search order, at most 16.
    pub context: Vec<u64>,
}

/// Return-stack depth in cells: from RSP up to the user area.
pub open spec fn rstack_depth(rsp: u64, up: u64) -> nat {
    if rsp >= up {
        0
    } else {
        ((up - rsp) / 8) as nat
    }
}

pub open spec fn min16(n: nat) -> nat {
    if n < 16 {
        n
    } else {
        16
    }
}

/// Lines for the data-stack cells below TOS, numbered from `1`.
pub open spec fn data_lines(cells: Seq<u64>) -> Seq<char>
    decreases cells.len(),
{
    if cells.len() == 0 {
        seq![]
    } else {
        data_lines(cells.drop_last()) + "  "@ + pad_left(decimal(cells.len()), 3) + ": "@ + pad_left(
            signed_cell(cells.last()),
            20,
        ) + "  "@ + hex18(cells.last()) + "\n"@
    }
}

pub open spec fn rstack_lines(cells: Seq<u64>) -> Seq<char>
    decreases cells.len(),
{
    if cells.len() == 0 {
        seq![]
    } else {
        rstack_lines(cells.drop_last()) + "  ["@ + decimal((cells.len() - 1) as nat) + "]: "@
            + hex18(cells.last()) + "\n"@
    }
}

pub open spec fn context_lines(wids: Seq<u64>) -> Seq<char>
    decreases wids.len(),
{
    if wids.len() == 0 {
        seq![]
    } else {
        context_lines(wids.drop_last()) + "  CONTEXT["@ + decimal((wids.len() - 1) as nat) + "]="@
            + hex_alt(wids.last()) + "\n"@
    }
}

/// Depth of the data stack in a breakpoint dump.
pub open spec fn brk_depth(b: BrkState) -> nat {
    if b.dsp > b.sp0 {
        0
    } else {
        ((b.sp0 - b.dsp) / 8 + 1) as nat
    }
}

pub open spec fn brk_data_spec(b: BrkState) -> Seq<char> {
    "Data stack ["@ + decimal(brk_depth(b)) + "]:\n"@ + (if brk_depth(b) == 0 {
        "  (empty)\n"@
    } else {
        "  TOS: "@ + pad_left(signed_cell(b.tos), 20) + "  "@ + hex18(b.tos) + "\n"@ + data_lines(
            b.data@,
        )
    })
}

pub open spec fn brk_rstack_spec(b: BrkState) -> Seq<char> {
    let rd = rstack_depth(b.rsp, b.up);
    "Return stack ["@ + decimal(rd) + " cells, showing "@ + decimal(min16(rd)) + "]:\n"@
        + rstack_lines(b.rstack@)
}

pub open spec fn vars_line1(b: BrkState) -> Seq<char> {
    "  BASE="@ + pad_right(decimal(b.base as nat), 5) + "  STATE="@ + pad_right(
        decimal(b.state as nat),
        3,
    ) + "  HERE="@ + hex_alt(b.here) + "  LATEST="@ + hex_alt(b.latest) + "\n"@
}

pub open spec fn vars_line2(b: BrkState) -> Seq<char> {
    "  LATESTXT="@ + hex_alt(b.latestxt) + "  HANDLER="@ + hex_alt(b.handler) + "  THROW="@
        + decimal(b.throw_code as nat) + "\n"@
}

pub open spec fn vars_line3(b: BrkState) -> Seq<char> {
    "  CURRENT="@ + hex_alt(b.current) + "  FORTH-WID="@ + hex_alt(b.forth_wid) + "  ORDER="@
        + decimal(b.order_count as nat) + "\n"@
}

pub open spec fn brk_vars_spec(b: BrkState) -> Seq<char> {
    "User variables:\n"@ + vars_line1(b) + vars_line2(b) + vars_line3(b) + context_lines(b.context@)
}

/// The breakpoint dump: data stack, return stack, and the key user
/// variables.
pub open spec fn brk_spec(b: BrkState) -> Seq<char> {
    "\n=== Forth Breakpoint ==================================================\n"@ + brk_data_spec(b)
        + brk_rstack_spec(b) + brk_vars_spec(b)
        + "=======================================================================\n"@
}

fn decimal_string(n: u64) -> (s: String)
    ensures
        s@ == decimal(n as nat),
{
    let mut s = String::new();
    push_decimal(&mut s, n as u128);
    s
}

fn signed_string(v: u64) -> (s: String)
    ensures
        s@ == signed_cell(v),
{
    let mut s = String::new();
    push_signed(&mut s, v as i64);
    s
}

fn push_brk_data(s: &mut String, b: &BrkState)
    ensures
        final(s)@ == old(s)@ + brk_data_spec(*b),
{
    let depth = stack_depth(b.dsp, b.sp0);
    push_str(s, "Data stack [");
    push_decimal(s, depth as u128);
    push_str(s, "]:\n");
    let ghost p1 = s@;
    if depth == 0 {
        push_str(s, "  (empty)\n");
    } else {
        push_str(s, "  TOS: ");
        push_padded_left(s, &signed_string(b.tos), 20);
        push_str(s, "  ");
        push_hex18(s, b.tos);
        push_str(s, "\n");
        let ghost head = s@;
        let mut i: usize = 0;
        while i < b.data.len()
            invariant
                i <= b.data@.len(),
                s@ == head + data_lines(b.data@.take(i as int)),
            decreases b.data@.len() - i,
        {
            push_str(s, "  ");
            push_padded_left(s, &decimal_string((i + 1) as u64), 3);
            push_str(s, ": ");
            push_padded_left(s, &signed_string(b.data[i]), 20);
            push_str(s, "  ");
            push_hex18(s, b.data[i]);
            push_str(s, "\n");
            proof {
                assert(b.data@.take(i + 1).drop_last() =~= b.data@.take(i as int));
            }
            i = i + 1;
        }
        proof {
            assert(b.data@.take(b.data@.len() as int) =~= b.data@);
        }
    }
    proof {
        assert(s@ =~= old(s)@ + brk_data_spec(*b));
    }
}

fn push_brk_rstack(s: &mut String, b: &BrkState)
    ensures
        final(s)@ == old(s)@ + brk_rstack_spec(*b),
{
    let rd: u64 = if b.rsp >= b.up {
        0
    } else {
        (b.up - b.rsp) / 8
    };
    let show: u64 = if rd < 16 {
        rd
    } else {
        16
    };
    push_str(s, "Return stack [");
    push_decimal(s, rd as u128);
    push_str(s, " cells, showing ");
    push_decimal(s, show as u128);
    push_str(s, "]:\n");
    let ghost head = s@;
    let mut i: usize = 0;
    while i < b.rstack.len()
        invariant
            i <= b.rstack@.len(),
            s@ == head + rstack_lines(b.rstack@.take(i as int)),
        decreases b.rstack@.len() - i,
    {
        push_str(s, "  [");
        push_decimal(s, i as u128);
        push_str(s, "]: ");
        push_hex18(s, b.rstack[i]);
        push_str(s, "\n");
        proof {
            assert(b.rstack@.take(i + 1).drop_last() =~= b.rstack@.take(i as int));
        }
        i = i + 1;
    }
    proof {
        assert(b.rstack@.take(b.rstack@.len() as int) =~= b.rstack@);
        assert(s@ =~= old(s)@ + brk_rstack_spec(*b));
    }
}

fn push_vars_line1(s: &mut String, b: &BrkState)
    ensures
        final(s)@ == old(s)@ + vars_line1(*b),
{
    push_str(s, "  BASE=");
    push_padded_right(s, decimal_string(b.base).as_str(), 5);
    push_str(s, "  STATE=");
    push_padded_right(s, decimal_string(b.state).as_str(), 3);
    push_str(s, "  HERE=");
    push_hex_alt(s, b.here);
    push_str(s, "  LATEST=");
    push_hex_alt(s, b.latest);
    push_str(s, "\n");
}

fn push_vars_line2(s: &mut String, b: &BrkState)
    ensures
        final(s)@ == old(s)@ + vars_line2(*b),
{
    push_str(s, "  LATESTXT=");
    push_hex_alt(s, b.latestxt);
    push_str(s, "  HANDLER=");
    push_hex_alt(s, b.handler);
    push_str(s, "  THROW=");
    push_decimal(s, b.throw_code as u128);
    push_str(s, "\n");
}

fn push_vars_line3(s: &mut String, b: &BrkState)
    ensures
        final(s)@ == old(s)@ + vars_line3(*b),
{
    push_str(s, "  CURRENT=");
    push_hex_alt(s, b.current);
    push_str(s, "  FORTH-WID=");
    push_hex_alt(s, b.forth_wid);
    push_str(s, "  ORDER=");
    push_decimal(s, b.order_count as u128);
    push_str(s, "\n");
}

fn push_brk_vars(s: &mut String, b: &BrkState)
    ensures
        final(s)@ == old(s)@ + brk_vars_spec(*b),
{
    push_str(s, "User variables:\n");
    push_vars_line1(s, b);
    push_vars_line2(s, b);
    push_vars_line3(s, b);
    let ghost head2 = s@;
    let mut i: usize = 0;
    while i < b.context.len()
        invariant
            i <= b.context@.len(),
            s@ == head2 + context_lines(b.context@.take(i as int)),
        decreases b.context@.len() - i,
    {
        push_str(s, "  CONTEXT[");
        push_decimal(s, i as u128);
        push_str(s, "]=");
        push_hex_alt(s, b.context[i]);
        push_str(s, "\n");
        proof {
            assert(b.context@.take(i + 1).drop_last() =~= b.context@.take(i as int));
        }
        i = i + 1;
    }
    proof {
        assert(b.context@.take(b.context@.len() as int) =~= b.context@);
        assert(s@ =~= old(s)@ + brk_vars_spec(*b));
    }
}

/// The text of the breakpoint dump. The dump shows the cells it is given:
/// the caller reads the data stack below TOS, at most sixteen return-stack
/// cells and at most sixteen search-order entries.
pub fn brk_text(b: &BrkState) -> (s: String)
    ensures
        s@ == brk_spec(*b),
{
    let mut s = String::new();
    push_str(&mut s, "\n=== Forth Breakpoint ==================================================\n");
    push_brk_data(&mut s, b);
    push_brk_rstack(&mut s, b);
    push_brk_vars(&mut s, b);
    push_str(&mut s, "=======================================================================\n");
    s
}

} // verus!
