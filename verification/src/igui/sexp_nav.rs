//! S-expression navigation over a [`RopeBuffer`]: pure functions from a
//! buffer and an offset to an offset (or a pair of offsets).
//!
//! Round `(…)` and square `[…]` groups balance; `;` line comments, nested
//! `#| … |#` block comments, `"…"` strings with `\` escapes and `#\X…`
//! character literals are skipped by the lexer in `sexp_lex`; the reader
//! prefixes `'` `` ` `` `,` `,@` `#'` bind to the expression after them.

use vstd::prelude::*;

use crate::igui::rope_buffer::{cp_at_spec, RopeBuffer, MAX_CODE_POINTS};
use crate::igui::sexp_lex::{
    absorb_prefix_backward, absorb_reader_prefix_backward, as_int_opt, atmosphere_backward,
    atmosphere_forward, char_literal_end, char_literal_end_spec, char_literal_start_spec,
    delims_match, fn_quote_prefix_spec, fresh_scan, is_char_literal_start, is_close_delim,
    is_fn_quote_prefix, is_open_delim, lemma_lex_next, lemma_lex_progress, lex_next,
    matching_close, skip_atmosphere_backward, skip_atmosphere_forward, skip_string_forward,
    string_backward, string_forward, string_start_backward, token_terminator, LexTok, ScanState,
    Scanner, CP_AT, CP_BACKQUOTE, CP_COMMA, CP_DQUOTE, CP_QUOTE,
};

verus! {

// ─── close_for_open ────────────────────────────────────────────────────

/// Runs the lexer from `s` with a stack of close delimiters still owed
/// (innermost last): each open pushes its close, each close must be the
/// innermost owed one; the offset of the close that pays the last debt.
/// `None` on a mismatched close or at the end of the buffer.
pub open spec fn close_for_open_run(b: Seq<u32>, s: ScanState, expected: Seq<u32>) -> Option<int>
    decreases b.len() - s.o,
{
    match lex_next(b, s) {
        None => None,
        Some((t, p, s2)) => {
            proof {
                lemma_lex_progress(b, s);
            }
            match t {
                LexTok::Open(c) => close_for_open_run(
                    b,
                    s2,
                    match matching_close(c) {
                        Some(m) => expected.push(m),
                        None => expected,
                    },
                ),
                LexTok::Close(c) => {
                    if expected.len() == 0 || c != expected.last() {
                        None
                    } else if expected.len() == 1 {
                        Some(p)
                    } else {
                        close_for_open_run(b, s2, expected.drop_last())
                    }
                },
                LexTok::Other => close_for_open_run(b, s2, expected),
            }
        },
    }
}

/// The offset of the close delimiter that balances the open delimiter at
/// `open_pos`, lexing from just after it.
pub open spec fn close_for_open_spec(b: Seq<u32>, open_pos: int) -> Option<int> {
    match cp_at_spec(b, open_pos) {
        Some(c) => match matching_close(c) {
            Some(t) => close_for_open_run(b, fresh_scan(open_pos + 1), seq![t]),
            None => None,
        },
        None => None,
    }
}

pub proof fn lemma_close_for_open_run(b: Seq<u32>, s: ScanState, expected: Seq<u32>)
    ensures
        close_for_open_run(b, s, expected) matches Some(r) ==> s.o <= r < b.len(),
    decreases b.len() - s.o,
{
    lemma_lex_progress(b, s);
    if let Some((t, p, s2)) = lex_next(b, s) {
        match t {
            LexTok::Open(c) => {
                lemma_close_for_open_run(
                    b,
                    s2,
                    match matching_close(c) {
                        Some(m) => expected.push(m),
                        None => expected,
                    },
                );
            },
            LexTok::Close(c) => {
                if !(expected.len() == 0 || c != expected.last()) && expected.len() != 1 {
                    lemma_close_for_open_run(b, s2, expected.drop_last());
                }
            },
            LexTok::Other => {
                lemma_close_for_open_run(b, s2, expected);
            },
        }
    }
}

/// Given `open_pos` on an open delimiter, the offset of the matching close;
/// `None` on imbalance, on a mismatched close, or at the end of the buffer.
pub fn close_for_open(buf: &RopeBuffer, open_pos: usize) -> (r: Option<usize>)
    ensures
        as_int_opt(r) == close_for_open_spec(buf@, open_pos as int),
        r matches Some(c) ==> open_pos < c < buf@.len(),
{
    let n = buf.len();
    let open_cp = match buf.char_at(open_pos) {
        Some(c) => c,
        None => return None,
    };
    let target_close = match matching_close(open_cp) {
        Some(t) => t,
        None => return None,
    };
    let ghost b = buf@;
    let ghost target = close_for_open_spec(b, open_pos as int);
    proof {
        lemma_close_for_open_run(b, fresh_scan(open_pos + 1), seq![target_close]);
    }
    let mut expected: Vec<u32> = Vec::new();
    expected.push(target_close);
    let mut scanner = Scanner::starting_after(buf, open_pos);
    loop
        invariant
            b == buf@,
            n == b.len(),
            scanner.buf == buf,
            scanner.ok(),
            expected@.len() >= 1,
            close_for_open_run(b, scanner.state(), expected@) == target,
            target == close_for_open_spec(b, open_pos as int),
            target matches Some(c) ==> open_pos < c < n,
        decreases n - scanner.o,
    {
        proof {
            lemma_lex_next(b, scanner.state());
            lemma_lex_progress(b, scanner.state());
        }
        let ghost before = scanner.state();
        let tok = match scanner.next_lex_token() {
            Some(t) => t,
            None => return None,
        };
        match tok {
            LexTok::Open(_) => {
                let cp = scanner.cp_at(scanner.last_token_start);
                if let Some(c) = matching_close(cp.unwrap_or(0)) {
                    expected.push(c);
                }
            },
            LexTok::Close(_) => {
                let cp = scanner.cp_at(scanner.last_token_start).unwrap_or(0);
                let want = expected[expected.len() - 1];
                if cp != want {
                    return None;
                }
                expected.pop();
                if expected.len() == 0 {
                    return Some(scanner.last_token_start);
                }
            },
            LexTok::Other => {},
        }
    }
}

// ─── open_for_close ────────────────────────────────────────────────────

/// Runs the lexer from `s` with a stack of pending opens (code point and
/// offset, innermost last): the offset of the open matched by the close at
/// `close_pos`. `None` when a close finds no pending open, when a close does
/// not balance its open, or when the scan passes `close_pos`.
pub open spec fn open_for_close_run(
    b: Seq<u32>,
    s: ScanState,
    close_pos: int,
    stack: Seq<(u32, int)>,
) -> Option<int>
    decreases b.len() - s.o,
{
    match lex_next(b, s) {
        None => None,
        Some((t, p, s2)) => {
            proof {
                lemma_lex_progress(b, s);
            }
            if p > close_pos {
                None
            } else {
                match t {
                    LexTok::Open(c) => open_for_close_run(b, s2, close_pos, stack.push((c, p))),
                    LexTok::Close(c) => {
                        if stack.len() == 0 || !delims_match(stack.last().0, c) {
                            None
                        } else if p == close_pos {
                            Some(stack.last().1)
                        } else {
                            open_for_close_run(b, s2, close_pos, stack.drop_last())
                        }
                    },
                    LexTok::Other => open_for_close_run(b, s2, close_pos, stack),
                }
            }
        },
    }
}

/// The offset of the open delimiter matched by the close delimiter at
/// `close_pos`, lexing from the start of the buffer.
pub open spec fn open_for_close_spec(b: Seq<u32>, close_pos: int) -> Option<int> {
    match cp_at_spec(b, close_pos) {
        Some(c) => if is_close_delim(c) {
            open_for_close_run(b, fresh_scan(0), close_pos, seq![])
        } else {
            None
        },
        None => None,
    }
}

/// Offsets on a stack of pending opens.
pub open spec fn stack_positions_ok(stack: Seq<(u32, int)>, bound: int) -> bool {
    forall|k: int| 0 <= k < stack.len() ==> 0 <= #[trigger] stack[k].1 < bound
}

pub proof fn lemma_open_for_close_run(
    b: Seq<u32>,
    s: ScanState,
    close_pos: int,
    stack: Seq<(u32, int)>,
)
    requires
        0 <= s.o,
        stack_positions_ok(stack, s.o),
    ensures
        open_for_close_run(b, s, close_pos, stack) matches Some(r) ==> 0 <= r <= close_pos,
    decreases b.len() - s.o,
{
    lemma_lex_progress(b, s);
    if let Some((t, p, s2)) = lex_next(b, s) {
        if p <= close_pos {
            match t {
                LexTok::Open(c) => {
                    assert(stack_positions_ok(stack.push((c, p)), s2.o)) by {
                        assert forall|k: int| 0 <= k < stack.push((c, p)).len() implies 0
                            <= #[trigger] stack.push((c, p))[k].1 < s2.o by {
                            if k < stack.len() {
                                assert(stack.push((c, p))[k] == stack[k]);
                            }
                        }
                    }
                    lemma_open_for_close_run(b, s2, close_pos, stack.push((c, p)));
                },
                LexTok::Close(c) => {
                    if !(stack.len() == 0 || !delims_match(stack.last().0, c)) && p != close_pos {
                        assert(stack_positions_ok(stack.drop_last(), s2.o)) by {
                            assert forall|k: int| 0 <= k < stack.drop_last().len() implies 0
                                <= #[trigger] stack.drop_last()[k].1 < s2.o by {
                                assert(stack.drop_last()[k] == stack[k]);
                            }
                        }
                        lemma_open_for_close_run(b, s2, close_pos, stack.drop_last());
                    } else if !(stack.len() == 0 || !delims_match(stack.last().0, c)) {
                        assert(stack[stack.len() - 1].1 < s.o);
                    }
                },
                LexTok::Other => {
                    lemma_open_for_close_run(b, s2, close_pos, stack);
                },
            }
        }
    }
}

/// Given `close_pos` on a close delimiter, the offset of the matching open,
/// scanning from the start of the buffer; `None` on imbalance.
pub fn open_for_close(buf: &RopeBuffer, close_pos: usize) -> (r: Option<usize>)
    ensures
        as_int_opt(r) == open_for_close_spec(buf@, close_pos as int),
        r matches Some(o) ==> o <= close_pos,
{
    let n = buf.len();
    let target_close = match buf.char_at(close_pos) {
        Some(c) => c,
        None => return None,
    };
    if !is_close_delim(target_close) {
        return None;
    }
    let ghost b = buf@;
    let ghost target = open_for_close_spec(b, close_pos as int);
    proof {
        lemma_open_for_close_run(b, fresh_scan(0), close_pos as int, seq![]);
    }
    let mut stack: Vec<(u32, usize)> = Vec::new();
    let mut scanner = Scanner::starting_at(buf, 0);
    proof {
        assert(stack@.map_values(|e: (u32, usize)| (e.0, e.1 as int)) =~= seq![]);
    }
    loop
        invariant
            b == buf@,
            n == b.len(),
            scanner.buf == buf,
            scanner.ok(),
            open_for_close_run(b, scanner.state(), close_pos as int, stack@.map_values(
                |e: (u32, usize)| (e.0, e.1 as int),
            )) == target,
            target == open_for_close_spec(b, close_pos as int),
            target matches Some(o) ==> 0 <= o <= close_pos,
        decreases n - scanner.o,
    {
        proof {
            lemma_lex_next(b, scanner.state());
            lemma_lex_progress(b, scanner.state());
        }
        let ghost st = stack@.map_values(|e: (u32, usize)| (e.0, e.1 as int));
        let tok = match scanner.next_lex_token() {
            Some(t) => t,
            None => return None,
        };
        let pos = scanner.last_token_start;
        if pos > close_pos {
            return None;
        }
        match tok {
            LexTok::Open(cp) => {
                stack.push((cp, pos));
                proof {
                    assert(stack@.map_values(|e: (u32, usize)| (e.0, e.1 as int)) =~= st.push(
                        (cp, pos as int),
                    ));
                }
            },
            LexTok::Close(cp) => {
                let (open_cp, open_pos) = match stack.pop() {
                    Some(e) => e,
                    None => return None,
                };
                proof {
                    assert(st.last() == (open_cp, open_pos as int));
                    assert(stack@.map_values(|e: (u32, usize)| (e.0, e.1 as int))
                        =~= st.drop_last());
                }
                if !delims_match(open_cp, cp) {
                    return None;
                }
                if pos == close_pos {
                    return Some(open_pos);
                }
            },
            LexTok::Other => {},
        }
    }
}

// ─── matching_delim ────────────────────────────────────────────────────

/// The match of the delimiter at `cursor`: its close for an open delimiter,
/// its open for a close delimiter; `None` elsewhere.
pub open spec fn matching_delim_spec(b: Seq<u32>, cursor: int) -> Option<int> {
    match cp_at_spec(b, cursor) {
        Some(c) => if is_open_delim(c) {
            close_for_open_spec(b, cursor)
        } else if is_close_delim(c) {
            open_for_close_spec(b, cursor)
        } else {
            None
        },
        None => None,
    }
}

/// If `cursor` is on a delimiter, the offset of its match.
pub fn matching_delim(buf: &RopeBuffer, cursor: usize) -> (r: Option<usize>)
    ensures
        as_int_opt(r) == matching_delim_spec(buf@, cursor as int),
{
    let cp = match buf.char_at(cursor) {
        Some(c) => c,
        None => return None,
    };
    if is_open_delim(cp) {
        close_for_open(buf, cursor)
    } else if is_close_delim(cp) {
        open_for_close(buf, cursor)
    } else {
        None
    }
}

// ─── enclosing_open / outermost_enclosing_open ─────────────────────────

/// Last element of a stack of offsets, if any.
pub open spec fn top_of(stack: Seq<int>) -> Option<int> {
    if stack.len() > 0 {
        Some(stack.last())
    } else {
        None
    }
}

/// First (outermost) element of a stack of offsets, if any.
pub open spec fn bottom_of(stack: Seq<int>) -> Option<int> {
    if stack.len() > 0 {
        Some(stack[0])
    } else {
        None
    }
}

/// A stack of open offsets after a token: opens push, closes pop (a close on
/// an empty stack changes nothing).
pub open spec fn step_open_stack(stack: Seq<int>, t: LexTok, p: int) -> Seq<int> {
    match t {
        LexTok::Open(_) => stack.push(p),
        LexTok::Close(_) => if stack.len() > 0 {
            stack.drop_last()
        } else {
            stack
        },
        LexTok::Other => stack,
    }
}

/// Innermost open delimiter enclosing `cursor`, lexing from `s` with the
/// currently unclosed opens on `stack`. An open delimiter at `cursor` itself
/// counts as enclosing it; a close delimiter at `cursor` is inside its form.
pub open spec fn enclosing_open_run(b: Seq<u32>, s: ScanState, cursor: int, stack: Seq<int>) -> Option<int>
    decreases b.len() - s.o,
{
    match lex_next(b, s) {
        None => top_of(stack),
        Some((t, p, s2)) => {
            proof {
                lemma_lex_progress(b, s);
            }
            if p >= cursor {
                if p == cursor && t is Open {
                    Some(p)
                } else {
                    top_of(stack)
                }
            } else {
                enclosing_open_run(b, s2, cursor, step_open_stack(stack, t, p))
            }
        },
    }
}

pub open spec fn enclosing_open_spec(b: Seq<u32>, cursor: int) -> Option<int> {
    enclosing_open_run(b, fresh_scan(0), cursor, seq![])
}

/// Offsets on a stack of opens lie below a bound.
pub open spec fn offsets_below(stack: Seq<int>, bound: int) -> bool {
    forall|k: int| 0 <= k < stack.len() ==> 0 <= #[trigger] stack[k] < bound
}

pub proof fn lemma_step_open_stack(stack: Seq<int>, t: LexTok, p: int, bound: int)
    requires
        offsets_below(stack, bound),
        0 <= p < bound,
    ensures
        offsets_below(step_open_stack(stack, t, p), bound),
{
    let st = step_open_stack(stack, t, p);
    assert forall|k: int| 0 <= k < st.len() implies 0 <= #[trigger] st[k] < bound by {
        match t {
            LexTok::Open(_) => {
                if k < stack.len() {
                    assert(st[k] == stack[k]);
                }
            },
            LexTok::Close(_) => {
                if stack.len() > 0 {
                    assert(st[k] == stack[k]);
                }
            },
            LexTok::Other => {},
        }
    }
}

pub proof fn lemma_enclosing_open_run(b: Seq<u32>, s: ScanState, cursor: int, stack: Seq<int>)
    requires
        0 <= s.o,
        offsets_below(stack, s.o),
        offsets_below(stack, cursor + 1),
    ensures
        enclosing_open_run(b, s, cursor, stack) matches Some(r) ==> 0 <= r <= cursor,
    decreases b.len() - s.o,
{
    lemma_lex_progress(b, s);
    if let Some((t, p, s2)) = lex_next(b, s) {
        if p < cursor {
            lemma_step_open_stack(stack, t, p, s2.o);
            lemma_step_open_stack(stack, t, p, cursor + 1);
            lemma_enclosing_open_run(b, s2, cursor, step_open_stack(stack, t, p));
        } else if stack.len() > 0 {
            assert(0 <= stack[stack.len() - 1]);
        }
    } else if stack.len() > 0 {
        assert(0 <= stack[stack.len() - 1]);
    }
}

/// The offset of the open delimiter of the innermost form containing
/// `cursor`, or `None` at top level. The cursor on an open delimiter is
/// inside that form; on a close delimiter, inside the form it closes.
pub fn enclosing_open(buf: &RopeBuffer, cursor: usize) -> (r: Option<usize>)
    ensures
        as_int_opt(r) == enclosing_open_spec(buf@, cursor as int),
        r matches Some(o) ==> o <= cursor,
{
    let n = buf.len();
    let ghost b = buf@;
    let ghost target = enclosing_open_spec(b, cursor as int);
    proof {
        lemma_enclosing_open_run(b, fresh_scan(0), cursor as int, seq![]);
    }
    let mut stack: Vec<usize> = Vec::new();
    let mut scanner = Scanner::starting_at(buf, 0);
    proof {
        assert(stack@.map_values(|e: usize| e as int) =~= seq![]);
    }
    loop
        invariant_except_break
            scanner.ok(),
            scanner.buf == buf,
            enclosing_open_run(b, scanner.state(), cursor as int, stack@.map_values(
                |e: usize| e as int,
            )) == target,
        invariant
            b == buf@,
            n == b.len(),
            target == enclosing_open_spec(b, cursor as int),
            target matches Some(o) ==> 0 <= o <= cursor,
        ensures
            top_of(stack@.map_values(|e: usize| e as int)) == target,
        decreases n - scanner.o,
    {
        proof {
            lemma_lex_next(b, scanner.state());
            lemma_lex_progress(b, scanner.state());
        }
        let ghost st = stack@.map_values(|e: usize| e as int);
        let tok = match scanner.next_lex_token() {
            Some(t) => t,
            None => break,
        };
        let pos = scanner.last_token_start;
        if pos >= cursor {
            if pos == cursor {
                match tok {
                    LexTok::Open(_) => return Some(pos),
                    LexTok::Close(_) => {
                        return if stack.len() > 0 {
                            Some(stack[stack.len() - 1])
                        } else {
                            None
                        };
                    },
                    LexTok::Other => {},
                }
            }
            break;
        }
        match tok {
            LexTok::Open(_) => {
                stack.push(pos);
                proof {
                    assert(stack@.map_values(|e: usize| e as int) =~= st.push(pos as int));
                }
            },
            LexTok::Close(_) => {
                stack.pop();
                proof {
                    if st.len() > 0 {
                        assert(stack@.map_values(|e: usize| e as int) =~= st.drop_last());
                    } else {
                        assert(stack@.map_values(|e: usize| e as int) =~= st);
                    }
                }
            },
            LexTok::Other => {},
        }
    }
    if stack.len() > 0 {
        Some(stack[stack.len() - 1])
    } else {
        None
    }
}

/// The enclosing `(open, close)` pair at `cursor`.
pub open spec fn enclosing_form_spec(b: Seq<u32>, cursor: int) -> Option<(int, int)> {
    match enclosing_open_spec(b, cursor) {
        Some(o) => match close_for_open_spec(b, o) {
            Some(c) => Some((o, c)),
            None => None,
        },
        None => None,
    }
}

/// The enclosing `(open, close)` pair, or `None` at top level or when the
/// form is unbalanced.
pub fn enclosing_form(buf: &RopeBuffer, cursor: usize) -> (r: Option<(usize, usize)>)
    ensures
        match r {
            Some((o, c)) => enclosing_form_spec(buf@, cursor as int) == Some((o as int, c as int)),
            None => enclosing_form_spec(buf@, cursor as int) is None,
        },
        r matches Some((o, c)) ==> o <= cursor && o < c,
{
    let open = match enclosing_open(buf, cursor) {
        Some(o) => o,
        None => return None,
    };
    let close = match close_for_open(buf, open) {
        Some(c) => c,
        None => return None,
    };
    Some((open, close))
}

/// Outermost open delimiter enclosing `cursor` (the start of its top-level
/// form), lexing from `s` with the unclosed opens on `stack`.
pub open spec fn outermost_open_run(b: Seq<u32>, s: ScanState, cursor: int, stack: Seq<int>) -> Option<int>
    decreases b.len() - s.o,
{
    match lex_next(b, s) {
        None => bottom_of(stack),
        Some((t, p, s2)) => {
            proof {
                lemma_lex_progress(b, s);
            }
            if p > cursor {
                bottom_of(stack)
            } else if p == cursor {
                if t is Open {
                    bottom_of(stack.push(p))
                } else {
                    bottom_of(stack)
                }
            } else {
                outermost_open_run(b, s2, cursor, step_open_stack(stack, t, p))
            }
        },
    }
}

pub open spec fn outermost_enclosing_open_spec(b: Seq<u32>, cursor: int) -> Option<int> {
    outermost_open_run(b, fresh_scan(0), cursor, seq![])
}

pub proof fn lemma_outermost_open_run(b: Seq<u32>, s: ScanState, cursor: int, stack: Seq<int>)
    requires
        0 <= s.o,
        offsets_below(stack, s.o),
        offsets_below(stack, cursor + 1),
    ensures
        outermost_open_run(b, s, cursor, stack) matches Some(r) ==> 0 <= r <= cursor,
    decreases b.len() - s.o,
{
    lemma_lex_progress(b, s);
    if let Some((t, p, s2)) = lex_next(b, s) {
        if p < cursor {
            lemma_step_open_stack(stack, t, p, s2.o);
            lemma_step_open_stack(stack, t, p, cursor + 1);
            lemma_outermost_open_run(b, s2, cursor, step_open_stack(stack, t, p));
        } else if stack.len() > 0 {
            assert(0 <= stack[0]);
        }
    } else if stack.len() > 0 {
        assert(0 <= stack[0]);
    }
}

/// The offset of the open delimiter of the top-level form containing
/// `cursor`, or `None` between top-level forms.
pub fn outermost_enclosing_open(buf: &RopeBuffer, cursor: usize) -> (r: Option<usize>)
    ensures
        as_int_opt(r) == outermost_enclosing_open_spec(buf@, cursor as int),
        r matches Some(o) ==> o <= cursor,
{
    let n = buf.len();
    let ghost b = buf@;
    let ghost target = outermost_enclosing_open_spec(b, cursor as int);
    proof {
        lemma_outermost_open_run(b, fresh_scan(0), cursor as int, seq![]);
    }
    let mut stack: Vec<usize> = Vec::new();
    let mut scanner = Scanner::starting_at(buf, 0);
    proof {
        assert(stack@.map_values(|e: usize| e as int) =~= seq![]);
    }
    loop
        invariant_except_break
            scanner.ok(),
            scanner.buf == buf,
            outermost_open_run(b, scanner.state(), cursor as int, stack@.map_values(
                |e: usize| e as int,
            )) == target,
        invariant
            b == buf@,
            n == b.len(),
            target == outermost_enclosing_open_spec(b, cursor as int),
            target matches Some(o) ==> 0 <= o <= cursor,
        ensures
            bottom_of(stack@.map_values(|e: usize| e as int)) == target,
        decreases n - scanner.o,
    {
        proof {
            lemma_lex_next(b, scanner.state());
            lemma_lex_progress(b, scanner.state());
        }
        let ghost st = stack@.map_values(|e: usize| e as int);
        let tok = match scanner.next_lex_token() {
            Some(t) => t,
            None => break,
        };
        let pos = scanner.last_token_start;
        if pos > cursor {
            break;
        }
        if pos == cursor {
            if let LexTok::Open(_) = tok {
                stack.push(pos);
                proof {
                    assert(stack@.map_values(|e: usize| e as int) =~= st.push(pos as int));
                }
            }
            break;
        }
        match tok {
            LexTok::Open(_) => {
                stack.push(pos);
                proof {
                    assert(stack@.map_values(|e: usize| e as int) =~= st.push(pos as int));
                }
            },
            LexTok::Close(_) => {
                stack.pop();
                proof {
                    if st.len() > 0 {
                        assert(stack@.map_values(|e: usize| e as int) =~= st.drop_last());
                    } else {
                        assert(stack@.map_values(|e: usize| e as int) =~= st);
                    }
                }
            },
            LexTok::Other => {},
        }
    }
    if stack.len() > 0 {
        Some(stack[0])
    } else {
        None
    }
}

/// `(open, end)` of the top-level form at `cursor`, `end` exclusive.
pub open spec fn top_level_form_spec(b: Seq<u32>, cursor: int) -> Option<(int, int)> {
    match outermost_enclosing_open_spec(b, cursor) {
        Some(o) => match close_for_open_spec(b, o) {
            Some(c) => Some((o, c + 1)),
            None => None,
        },
        None => None,
    }
}

/// `(open, end)` of the top-level form at `cursor`, where `end` is just past
/// its closing delimiter; `None` at file scope.
pub fn top_level_form(buf: &RopeBuffer, cursor: usize) -> (r: Option<(usize, usize)>)
    ensures
        match r {
            Some((o, e)) => top_level_form_spec(buf@, cursor as int) == Some((o as int, e as int)),
            None => top_level_form_spec(buf@, cursor as int) is None,
        },
        r matches Some((o, e)) ==> o <= cursor && o < e <= buf@.len(),
{
    let _ = buf.len();
    let open = match outermost_enclosing_open(buf, cursor) {
        Some(o) => o,
        None => return None,
    };
    let close = match close_for_open(buf, open) {
        Some(c) => c,
        None => return None,
    };
    Some((open, close + 1))
}

// ─── forward_sexp ──────────────────────────────────────────────────────

/// First offset at or after `p` holding a token terminator, or the end.
pub open spec fn atom_end(b: Seq<u32>, p: int) -> int
    decreases b.len() - p,
{
    if 0 <= p < b.len() && !token_terminator(b[p]) {
        atom_end(b, p + 1)
    } else {
        p
    }
}

pub proof fn lemma_atom_end(b: Seq<u32>, p: int)
    ensures
        p <= atom_end(b, p),
        p <= b.len() ==> atom_end(b, p) <= b.len(),
    decreases b.len() - p,
{
    if 0 <= p < b.len() && !token_terminator(b[p]) {
        lemma_atom_end(b, p + 1);
    }
}

/// End of the expression starting exactly at `o` (after any atmosphere):
/// reader prefixes `'` `` ` `` `,` `,@` `#'` are stepped over, a character
/// literal, string, list or atom is jumped; a close delimiter or the end of
/// the buffer gives `None`.
pub open spec fn forward_from(b: Seq<u32>, o: int) -> Option<int>
    decreases b.len() - o,
{
    match cp_at_spec(b, o) {
        None => None,
        Some(c) => {
            if c == CP_QUOTE || c == CP_BACKQUOTE {
                forward_from(b, o + 1)
            } else if c == CP_COMMA {
                if cp_at_spec(b, o + 1) == Some(CP_AT) {
                    forward_from(b, o + 2)
                } else {
                    forward_from(b, o + 1)
                }
            } else if fn_quote_prefix_spec(b, o) {
                forward_from(b, o + 2)
            } else if char_literal_start_spec(b, o) {
                Some(char_literal_end_spec(b, o))
            } else if c == CP_DQUOTE {
                Some(string_forward(b, o + 1, false))
            } else if is_close_delim(c) {
                None
            } else if is_open_delim(c) {
                match close_for_open_spec(b, o) {
                    Some(k) => Some(k + 1),
                    None => None,
                }
            } else {
                Some(atom_end(b, o))
            }
        },
    }
}

/// Emacs `forward-sexp`: skip atmosphere, then jump over the next
/// expression; `None` at the end of the buffer or before a close delimiter.
pub open spec fn forward_sexp_spec(b: Seq<u32>, cursor: int) -> Option<int> {
    let o = atmosphere_forward(b, cursor, 0);
    if o >= b.len() {
        None
    } else {
        forward_from(b, o)
    }
}

pub proof fn lemma_forward_from(b: Seq<u32>, o: int)
    requires
        0 <= o,
    ensures
        forward_from(b, o) matches Some(r) ==> o <= r <= b.len() && (r == o ==> (
        crate::igui::sexp_lex::is_whitespace(b[o]) || b[o] == crate::igui::sexp_lex::CP_SEMI)),
    decreases b.len() - o,
{
    if 0 <= o < b.len() {
        let c = b[o];
        if c == CP_QUOTE || c == CP_BACKQUOTE {
            lemma_forward_from(b, o + 1);
        } else if c == CP_COMMA {
            if cp_at_spec(b, o + 1) == Some(CP_AT) {
                lemma_forward_from(b, o + 2);
            } else {
                lemma_forward_from(b, o + 1);
            }
        } else if fn_quote_prefix_spec(b, o) {
            lemma_forward_from(b, o + 2);
        } else if char_literal_start_spec(b, o) {
            crate::igui::sexp_lex::lemma_name_run_end(b, o + 3);
        } else if c == CP_DQUOTE {
            crate::igui::sexp_lex::lemma_string_forward(b, o + 1, false);
        } else if is_open_delim(c) {
            lemma_close_for_open_run(b, fresh_scan(o + 1), seq![matching_close(c).unwrap()]);
        } else if !is_close_delim(c) {
            lemma_atom_end(b, o + 1);
        }
    }
}

/// The offset just past the next s-expression at or after `cursor` (leading
/// whitespace and comments skipped); `None` at the end of the buffer or when
/// the next thing is a close delimiter. A result always lies after `cursor`
/// and within the buffer.
pub fn forward_sexp(buf: &RopeBuffer, cursor: usize) -> (r: Option<usize>)
    ensures
        as_int_opt(r) == forward_sexp_spec(buf@, cursor as int),
        r matches Some(e) ==> cursor < e <= buf@.len(),
{
    let mut o = match skip_atmosphere_forward(buf, cursor) {
        Some(o) => o,
        None => return None,
    };
    let total = buf.len();
    if o >= total {
        return None;
    }
    let ghost b = buf@;
    let ghost target = forward_from(b, o as int);
    proof {
        lemma_forward_from(b, o as int);
        crate::igui::sexp_lex::lemma_atmosphere_forward_stop(b, cursor as int, 0);
    }
    loop
        invariant
            b == buf@,
            total == b.len(),
            total <= MAX_CODE_POINTS,
            cursor <= o <= total,
            forward_from(b, o as int) == target,
            target == forward_sexp_spec(b, cursor as int),
            target matches Some(e) ==> cursor < e <= total,
        decreases total - o,
    {
        let cp = match buf.char_at(o) {
            Some(c) => c,
            None => return None,
        };
        // Reader-macro prefixes: step over them.
        if cp == CP_QUOTE || cp == CP_BACKQUOTE {
            o = o + 1;
            continue;
        }
        if cp == CP_COMMA {
            o = o + 1;
            if buf.char_at(o) == Some(CP_AT) {
                o = o + 1;
            }
            continue;
        }
        if is_fn_quote_prefix(buf, o) {
            o = o + 2;
            continue;
        }
        if is_char_literal_start(buf, o) {
            return Some(char_literal_end(buf, o));
        }
        if cp == CP_DQUOTE {
            return Some(skip_string_forward(buf, o));
        }
        if is_close_delim(cp) {
            // Already at the end of the enclosing expression.
            return None;
        }
        if is_open_delim(cp) {
            let close = match close_for_open(buf, o) {
                Some(c) => c,
                None => return None,
            };
            return Some(close + 1);
        }
        // Atom: scan to the first terminator.
        let mut p = o;
        proof {
            lemma_atom_end(b, p as int);
        }
        while p < total
            invariant
                b == buf@,
                total == b.len(),
                o <= p <= total,
                atom_end(b, p as int) == atom_end(b, o as int),
            ensures
                atom_end(b, p as int) == p,
                atom_end(b, p as int) == atom_end(b, o as int),
            decreases total - p,
        {
            let c = buf.char_at(p).unwrap();
            if token_terminator(c) {
                break;
            }
            p = p + 1;
        }
        return Some(p);
    }
}

// ─── backward_sexp ─────────────────────────────────────────────────────

/// First offset of the atom ending just before `o`: walk back while the
/// previous code point is not a terminator.
pub open spec fn atom_start(b: Seq<u32>, o: int) -> int
    decreases o,
{
    if 0 < o <= b.len() && !token_terminator(b[o - 1]) {
        atom_start(b, o - 1)
    } else {
        o
    }
}

pub proof fn lemma_atom_start(b: Seq<u32>, o: int)
    requires
        0 <= o,
    ensures
        0 <= atom_start(b, o) <= o,
    decreases o,
{
    if 0 < o <= b.len() && !token_terminator(b[o - 1]) {
        lemma_atom_start(b, o - 1);
    }
}

/// Emacs `backward-sexp`: the start of the expression ending at or before
/// `cursor` (whitespace skipped), including its reader prefixes; `None` at
/// the start of the buffer, past its end, or before an unbalanced close.
pub open spec fn backward_sexp_spec(b: Seq<u32>, cursor: int) -> Option<int> {
    if cursor == 0 {
        None
    } else {
        match atmosphere_backward(b, cursor) {
            None => None,
            Some(o) => if o == 0 {
                Some(0)
            } else {
                let last = o - 1;
                match cp_at_spec(b, last) {
                    None => None,
                    Some(c) => if is_close_delim(c) {
                        match open_for_close_spec(b, last) {
                            Some(op) => Some(absorb_prefix_backward(b, op)),
                            None => None,
                        }
                    } else if is_open_delim(c) {
                        Some(last)
                    } else if c == CP_DQUOTE {
                        Some(absorb_prefix_backward(b, string_backward(b, last)))
                    } else {
                        let a = atom_start(b, last);
                        let a2 = if crate::igui::sexp_lex::after_hash_backslash_spec(b, a + 1) && a >= 2 {
                            a - 2
                        } else {
                            a
                        };
                        Some(absorb_prefix_backward(b, a2))
                    },
                }
            },
        }
    }
}

/// The offset of the start of the s-expression ending at (or just before)
/// `cursor`; `None` at the start of the buffer. A result always lies before
/// `cursor`.
pub fn backward_sexp(buf: &RopeBuffer, cursor: usize) -> (r: Option<usize>)
    ensures
        as_int_opt(r) == backward_sexp_spec(buf@, cursor as int),
        r matches Some(s) ==> s < cursor,
{
    if cursor == 0 {
        return None;
    }
    let ghost b = buf@;
    proof {
        crate::igui::sexp_lex::lemma_atmosphere_backward(b, cursor as int);
    }
    let mut o = match skip_atmosphere_backward(buf, cursor) {
        Some(o) => o,
        None => return None,
    };
    if o == 0 {
        return Some(0);
    }
    o = o - 1;
    let cp = match buf.char_at(o) {
        Some(c) => c,
        None => return None,
    };
    if is_close_delim(cp) {
        let open = match open_for_close(buf, o) {
            Some(p) => p,
            None => return None,
        };
        proof {
            crate::igui::sexp_lex::lemma_absorb_prefix_backward(b, open as int);
        }
        return Some(absorb_reader_prefix_backward(buf, open));
    }
    if is_open_delim(cp) {
        return Some(o);
    }
    if cp == CP_DQUOTE {
        let start = string_start_backward(buf, o);
        proof {
            crate::igui::sexp_lex::lemma_string_backward(b, o as int);
            crate::igui::sexp_lex::lemma_absorb_prefix_backward(b, start as int);
        }
        return Some(absorb_reader_prefix_backward(buf, start));
    }
    // Atom: walk back to the first terminator.
    let ghost last = o as int;
    proof {
        lemma_atom_start(b, last);
    }
    while o > 0
        invariant
            b == buf@,
            o <= last,
            last < b.len(),
            atom_start(b, o as int) == atom_start(b, last),
        ensures
            atom_start(b, o as int) == o,
            atom_start(b, o as int) == atom_start(b, last),
        decreases o,
    {
        let prev = match buf.char_at(o - 1) {
            Some(c) => c,
            None => return None,
        };
        if token_terminator(prev) {
            break;
        }
        o = o - 1;
    }
    // A `#\X` literal: step back to the `#`.
    if crate::igui::sexp_lex::is_after_hash_backslash(buf, o + 1) {
        if o >= 2 {
            o = o - 2;
        }
    }
    proof {
        crate::igui::sexp_lex::lemma_absorb_prefix_backward(b, o as int);
    }
    Some(absorb_reader_prefix_backward(buf, o))
}

} // verus!
