//! Laws of s-expression navigation: matching is its own inverse, the close
//! found is of the open's kind, the enclosing form encloses the cursor, and
//! the innermost and outermost enclosing searches agree. In balanced text
//! ([`balanced`]) every delimiter has a match ([`balanced_matching`]) and the
//! enclosing form is the innermost one around the cursor
//! ([`balanced_enclosing_form`]).

use vstd::prelude::*;

use crate::igui::rope_buffer::cp_at_spec;
use crate::igui::sexp_lex::{
    delims_match, fresh_scan, is_close_delim, is_open_delim, lemma_lex_next, lemma_lex_progress,
    lex_next, matching_close, scan_ok, LexTok, ScanState,
};
use crate::igui::sexp_nav::{
    bottom_of, close_for_open_run, close_for_open_spec, enclosing_open_run, enclosing_open_spec,
    lemma_close_for_open_run, matching_delim_spec, open_for_close_run, open_for_close_spec,
    outermost_enclosing_open_spec, outermost_open_run, step_open_stack, top_of, enclosing_form_spec,
    lemma_enclosing_open_run, offsets_below, atom_end, backward_sexp_spec, forward_sexp_spec,
};
use crate::igui::sexp_lex::{
    absorb_prefix_backward, atmosphere_backward, atmosphere_forward, backslashes_before,
    string_backward,
};

verus! {

/// A stack of pending opens as the forward scan keeps it: open delimiters
/// at strictly increasing offsets before `bound`.
pub open spec fn stack_ok(stack: Seq<(u32, int)>, bound: int) -> bool {
    &&& forall|k: int| 0 <= k < stack.len() ==> is_open_delim(#[trigger] stack[k].0)
    &&& forall|k: int| 0 <= k < stack.len() ==> 0 <= #[trigger] stack[k].1 < bound
    &&& forall|a: int, b: int| 0 <= a < b < stack.len() ==> stack[a].1 < stack[b].1
}

/// The close delimiters owed for a stack of opens, innermost last.
pub open spec fn owed(stack: Seq<(u32, int)>) -> Seq<u32> {
    stack.map_values(
        |e: (u32, int)|
            match matching_close(e.0) {
                Some(m) => m,
                None => 0u32,
            },
    )
}

/// The open a close is matched with is on the stack, or the scan has not
/// reached it yet.
proof fn lemma_result_place(b: Seq<u32>, s: ScanState, close_pos: int, stack: Seq<(u32, int)>)
    requires
        scan_ok(b, s),
    ensures
        open_for_close_run(b, s, close_pos, stack) matches Some(r) ==> (exists|k: int|
            0 <= k < stack.len() && #[trigger] stack[k].1 == r) || r >= s.o,
    decreases b.len() - s.o,
{
    lemma_lex_progress(b, s);
    lemma_lex_next(b, s);
    if let Some((t, p, s2)) = lex_next(b, s) {
        if p <= close_pos {
            match t {
                LexTok::Open(c) => {
                    lemma_result_place(b, s2, close_pos, stack.push((c, p)));
                    if let Some(r) = open_for_close_run(b, s, close_pos, stack) {
                        if exists|k: int|
                            0 <= k < stack.push((c, p)).len() && #[trigger] stack.push((c, p))[k].1
                                == r {
                            let k = choose|k: int|
                                0 <= k < stack.push((c, p)).len() && #[trigger] stack.push(
                                    (c, p),
                                )[k].1 == r;
                            if k < stack.len() {
                                assert(stack[k].1 == r);
                            }
                        }
                    }
                },
                LexTok::Close(c) => {
                    if !(stack.len() == 0 || !delims_match(stack.last().0, c)) && p != close_pos {
                        lemma_result_place(b, s2, close_pos, stack.drop_last());
                        if let Some(r) = open_for_close_run(b, s, close_pos, stack) {
                            if exists|k: int|
                                0 <= k < stack.drop_last().len() && #[trigger] stack.drop_last()[k].1
                                    == r {
                                let k = choose|k: int|
                                    0 <= k < stack.drop_last().len()
                                        && #[trigger] stack.drop_last()[k].1 == r;
                                assert(stack[k].1 == r);
                            }
                        }
                    } else if !(stack.len() == 0 || !delims_match(stack.last().0, c)) {
                        assert(stack[stack.len() - 1].1 == stack.last().1);
                    }
                },
                LexTok::Other => {
                    lemma_result_place(b, s2, close_pos, stack);
                },
            }
        }
    }
}

/// When the forward scan matches the close at `close_pos` with the open
/// that stack entry `k` records, the scan for the close of that open, from
/// the same state and owing the closes of entries `k..`, ends at
/// `close_pos`.
proof fn lemma_pending_open(
    b: Seq<u32>,
    s: ScanState,
    close_pos: int,
    stack: Seq<(u32, int)>,
    k: int,
)
    requires
        scan_ok(b, s),
        stack_ok(stack, s.o),
        0 <= k < stack.len(),
        open_for_close_run(b, s, close_pos, stack) == Some(stack[k].1),
    ensures
        close_for_open_run(b, s, owed(stack.subrange(k, stack.len() as int))) == Some(close_pos),
    decreases b.len() - s.o,
{
    lemma_lex_progress(b, s);
    lemma_lex_next(b, s);
    let (t, p, s2) = lex_next(b, s)->Some_0;
    let ex = owed(stack.subrange(k, stack.len() as int));
    match t {
        LexTok::Open(c) => {
            let st2 = stack.push((c, p));
            assert(stack_ok(st2, s2.o)) by {
                assert forall|a: int, bb: int| 0 <= a < bb < st2.len() implies st2[a].1 < st2[bb].1 by {
                    if bb == stack.len() {
                        assert(stack[a].1 < s.o);
                    }
                }
                assert forall|x: int| 0 <= x < st2.len() implies is_open_delim(#[trigger] st2[x].0) by {
                    if x < stack.len() {
                        assert(st2[x] == stack[x]);
                    }
                }
                assert forall|x: int| 0 <= x < st2.len() implies 0 <= #[trigger] st2[x].1 < s2.o by {
                    if x < stack.len() {
                        assert(st2[x] == stack[x]);
                    }
                }
            }
            assert(st2[k] == stack[k]);
            lemma_pending_open(b, s2, close_pos, st2, k);
            assert(owed(st2.subrange(k, st2.len() as int)) =~= ex.push(
                match matching_close(c) {
                    Some(m) => m,
                    None => 0u32,
                },
            ));
        },
        LexTok::Close(c) => {
            let top = stack.len() - 1;
            assert(stack.last() == stack[top]);
            if p == close_pos {
                // The close is matched with the innermost open: entry `k` is it.
                if k < top {
                    assert(stack[k].1 < stack[top].1);
                }
                assert(ex =~= seq![c]);
            } else {
                lemma_result_place(b, s2, close_pos, stack.drop_last());
                if k == top {
                    let r = stack[k].1;
                    if exists|x: int|
                        0 <= x < stack.drop_last().len() && #[trigger] stack.drop_last()[x].1 == r {
                        let x = choose|x: int|
                            0 <= x < stack.drop_last().len() && #[trigger] stack.drop_last()[x].1
                                == r;
                        assert(stack[x].1 < stack[top].1);
                    }
                    assert(false);
                }
                let st2 = stack.drop_last();
                assert(stack_ok(st2, s2.o)) by {
                    assert forall|x: int| 0 <= x < st2.len() implies is_open_delim(#[trigger] st2[x].0) by {
                        assert(st2[x] == stack[x]);
                    }
                    assert forall|x: int| 0 <= x < st2.len() implies 0 <= #[trigger] st2[x].1 < s2.o by {
                        assert(st2[x] == stack[x]);
                    }
                    assert forall|a: int, bb: int| 0 <= a < bb < st2.len() implies st2[a].1 < st2[bb].1 by {
                        assert(st2[a] == stack[a] && st2[bb] == stack[bb]);
                    }
                }
                assert(st2[k] == stack[k]);
                lemma_pending_open(b, s2, close_pos, st2, k);
                assert(owed(st2.subrange(k, st2.len() as int)) =~= ex.drop_last());
            }
        },
        LexTok::Other => {
            lemma_pending_open(b, s2, close_pos, stack, k);
        },
    }
}

/// When the forward scan matches the close at `close_pos` with an open the
/// scan has not reached yet, scanning for that open's close from just
/// after it ends at `close_pos`.
proof fn lemma_future_open(b: Seq<u32>, s: ScanState, close_pos: int, stack: Seq<(u32, int)>, r: int)
    requires
        scan_ok(b, s),
        stack_ok(stack, s.o),
        r >= s.o,
        open_for_close_run(b, s, close_pos, stack) == Some(r),
    ensures
        0 <= r < b.len(),
        is_open_delim(b[r]),
        close_for_open_run(b, fresh_scan(r + 1), seq![matching_close(b[r])->Some_0]) == Some(
            close_pos,
        ),
    decreases b.len() - s.o,
{
    lemma_lex_progress(b, s);
    lemma_lex_next(b, s);
    let (t, p, s2) = lex_next(b, s)->Some_0;
    match t {
        LexTok::Open(c) => {
            let st2 = stack.push((c, p));
            assert(stack_ok(st2, s2.o)) by {
                assert forall|a: int, bb: int| 0 <= a < bb < st2.len() implies st2[a].1 < st2[bb].1 by {
                    if bb == stack.len() {
                        assert(stack[a].1 < s.o);
                    }
                }
                assert forall|x: int| 0 <= x < st2.len() implies is_open_delim(#[trigger] st2[x].0) by {
                    if x < stack.len() {
                        assert(st2[x] == stack[x]);
                    }
                }
                assert forall|x: int| 0 <= x < st2.len() implies 0 <= #[trigger] st2[x].1 < s2.o by {
                    if x < stack.len() {
                        assert(st2[x] == stack[x]);
                    }
                }
            }
            if r == p {
                lemma_pending_open(b, s2, close_pos, st2, stack.len() as int);
                assert(st2.subrange(stack.len() as int, st2.len() as int) =~= seq![(c, p)]);
                assert(owed(seq![(c, p)]) =~= seq![matching_close(c)->Some_0]);
            } else {
                lemma_result_place(b, s2, close_pos, st2);
                if exists|x: int| 0 <= x < st2.len() && #[trigger] st2[x].1 == r {
                    let x = choose|x: int| 0 <= x < st2.len() && #[trigger] st2[x].1 == r;
                    if x < stack.len() {
                        assert(stack[x].1 < s.o);
                    }
                }
                lemma_future_open(b, s2, close_pos, st2, r);
            }
        },
        LexTok::Close(c) => {
            if p == close_pos {
                assert(stack[stack.len() - 1].1 < s.o);
            } else {
                let st2 = stack.drop_last();
                lemma_result_place(b, s2, close_pos, st2);
                if exists|x: int| 0 <= x < st2.len() && #[trigger] st2[x].1 == r {
                    let x = choose|x: int| 0 <= x < st2.len() && #[trigger] st2[x].1 == r;
                    assert(stack[x].1 < s.o);
                }
                assert(stack_ok(st2, s2.o)) by {
                    assert forall|x: int| 0 <= x < st2.len() implies is_open_delim(#[trigger] st2[x].0) by {
                        assert(st2[x] == stack[x]);
                    }
                    assert forall|x: int| 0 <= x < st2.len() implies 0 <= #[trigger] st2[x].1 < s2.o by {
                        assert(st2[x] == stack[x]);
                    }
                    assert forall|a: int, bb: int| 0 <= a < bb < st2.len() implies st2[a].1 < st2[bb].1 by {
                        assert(st2[a] == stack[a] && st2[bb] == stack[bb]);
                    }
                }
                lemma_future_open(b, s2, close_pos, st2, r);
            }
        },
        LexTok::Other => {
            lemma_result_place(b, s2, close_pos, stack);
            if exists|x: int| 0 <= x < stack.len() && #[trigger] stack[x].1 == r {
                let x = choose|x: int| 0 <= x < stack.len() && #[trigger] stack[x].1 == r;
                assert(stack[x].1 < s.o);
            }
            lemma_future_open(b, s2, close_pos, stack, r);
        },
    }
}

/// Matching is symmetric: when the close delimiter at `close_pos` is
/// matched with the open delimiter at `o`, the close matched with that
/// open is the one at `close_pos`.
pub proof fn open_then_close_round_trip(b: Seq<u32>, close_pos: int)
    requires
        open_for_close_spec(b, close_pos) is Some,
    ensures
        close_for_open_spec(b, open_for_close_spec(b, close_pos)->Some_0) == Some(close_pos),
{
    let o = open_for_close_spec(b, close_pos)->Some_0;
    let s0 = fresh_scan(0);
    assert(scan_ok(b, s0));
    assert(stack_ok(Seq::<(u32, int)>::empty(), 0));
    crate::igui::sexp_nav::lemma_open_for_close_run(b, s0, close_pos, seq![]);
    lemma_future_open(b, s0, close_pos, seq![], o);
    assert(cp_at_spec(b, o) == Some(b[o]));
}

// ---------------------------------------------------------------------
// The kind of the close found

/// A close scan that pays its debts ends on the close owed first.
proof fn lemma_close_run_kind(b: Seq<u32>, s: ScanState, expected: Seq<u32>)
    requires
        scan_ok(b, s),
        expected.len() >= 1,
    ensures
        close_for_open_run(b, s, expected) matches Some(c) ==> s.o <= c < b.len() && b[c]
            == expected[0],
    decreases b.len() - s.o,
{
    lemma_lex_progress(b, s);
    lemma_lex_next(b, s);
    if let Some((t, p, s2)) = lex_next(b, s) {
        match t {
            LexTok::Open(c) => {
                let e2 = match matching_close(c) {
                    Some(m) => expected.push(m),
                    None => expected,
                };
                lemma_close_run_kind(b, s2, e2);
            },
            LexTok::Close(c) => {
                if !(expected.len() == 0 || c != expected.last()) && expected.len() != 1 {
                    lemma_close_run_kind(b, s2, expected.drop_last());
                }
            },
            LexTok::Other => {
                lemma_close_run_kind(b, s2, expected);
            },
        }
    }
}

/// The close found for an open delimiter is of the open's kind: `)` for
/// `(`, `]` for `[`; off an open delimiter nothing is found.
pub proof fn close_matches_open_kind(b: Seq<u32>, p: int)
    ensures
        !(cp_at_spec(b, p) matches Some(x) && is_open_delim(x)) ==> close_for_open_spec(b, p)
            is None,
        close_for_open_spec(b, p) matches Some(c) ==> 0 <= p < c < b.len() && is_open_delim(b[p])
            && matching_close(b[p]) == Some(b[c]),
{
    if let Some(x) = cp_at_spec(b, p) {
        if let Some(m) = matching_close(x) {
            assert(scan_ok(b, fresh_scan(p + 1)));
            lemma_close_run_kind(b, fresh_scan(p + 1), seq![m]);
        }
    }
}

// ---------------------------------------------------------------------
// The innermost and the outermost enclosing open

/// Offsets strictly increasing and below a bound.
pub open spec fn rising_below(stack: Seq<int>, bound: int) -> bool {
    &&& forall|k: int| 0 <= k < stack.len() ==> 0 <= #[trigger] stack[k] < bound
    &&& forall|a: int, c: int| 0 <= a < c < stack.len() ==> stack[a] < stack[c]
}

proof fn lemma_searches_agree(b: Seq<u32>, s: ScanState, cursor: int, stack: Seq<int>)
    requires
        scan_ok(b, s),
        rising_below(stack, s.o),
    ensures
        (outermost_open_run(b, s, cursor, stack) is Some) == (enclosing_open_run(
            b,
            s,
            cursor,
            stack,
        ) is Some),
        outermost_open_run(b, s, cursor, stack) matches Some(o) ==> enclosing_open_run(
            b,
            s,
            cursor,
            stack,
        ) matches Some(i) && o <= i,
    decreases b.len() - s.o,
{
    lemma_lex_progress(b, s);
    lemma_lex_next(b, s);
    match lex_next(b, s) {
        None => {
            if stack.len() > 0 {
                assert(stack[0] <= stack[stack.len() - 1]);
            }
        },
        Some((t, p, s2)) => {
            if p > cursor || (p == cursor && !(t is Open)) || (p == cursor && t is Open) {
                if stack.len() > 0 {
                    assert(stack[0] <= stack[stack.len() - 1]);
                    assert(stack[0] < p);
                }
                if p == cursor && t is Open {
                    assert(stack.push(p)[0] <= p);
                }
            } else {
                let st2 = step_open_stack(stack, t, p);
                assert(rising_below(st2, s2.o)) by {
                    match t {
                        LexTok::Open(_) => {
                            assert forall|a: int, c: int| 0 <= a < c < st2.len() implies st2[a]
                                < st2[c] by {
                                if c == stack.len() {
                                    assert(stack[a] < s.o);
                                } else {
                                    assert(st2[a] == stack[a] && st2[c] == stack[c]);
                                }
                            }
                            assert forall|k: int| 0 <= k < st2.len() implies 0 <= #[trigger] st2[k]
                                < s2.o by {
                                if k < stack.len() {
                                    assert(st2[k] == stack[k]);
                                }
                            }
                        },
                        LexTok::Close(_) => {
                            if stack.len() > 0 {
                                assert forall|a: int, c: int| 0 <= a < c < st2.len() implies st2[a]
                                    < st2[c] by {
                                    assert(st2[a] == stack[a] && st2[c] == stack[c]);
                                }
                                assert forall|k: int| 0 <= k < st2.len() implies 0
                                    <= #[trigger] st2[k] < s2.o by {
                                    assert(st2[k] == stack[k]);
                                }
                            }
                        },
                        LexTok::Other => {},
                    }
                }
                lemma_searches_agree(b, s2, cursor, st2);
            }
        },
    }
}

/// The two searches for an enclosing open agree: the outermost one finds
/// an open exactly when the innermost one does, and never after it.
pub proof fn enclosing_searches_agree(b: Seq<u32>, cursor: int)
    ensures
        (outermost_enclosing_open_spec(b, cursor) is Some) == (enclosing_open_spec(b, cursor)
            is Some),
        outermost_enclosing_open_spec(b, cursor) matches Some(o) ==> enclosing_open_spec(
            b,
            cursor,
        ) matches Some(i) && o <= i,
{
    assert(scan_ok(b, fresh_scan(0)));
    lemma_searches_agree(b, fresh_scan(0), cursor, seq![]);
}

// ---------------------------------------------------------------------
// From an open to its close and back

/// The stack of pending opens with which the scan from `s` reaches an open
/// delimiter at `p` as a token (outside strings, comments and character
/// literals), meeting no unmatched close before it; `None` otherwise.
pub open spec fn scan_to_open(b: Seq<u32>, s: ScanState, p: int, stack: Seq<(u32, int)>) -> Option<
    Seq<(u32, int)>,
>
    decreases b.len() - s.o,
{
    match lex_next(b, s) {
        None => None,
        Some((t, q, s2)) => {
            proof {
                lemma_lex_progress(b, s);
            }
            if q > p {
                None
            } else if q == p {
                if t is Open {
                    Some(stack)
                } else {
                    None
                }
            } else {
                match t {
                    LexTok::Open(x) => scan_to_open(b, s2, p, stack.push((x, q))),
                    LexTok::Close(y) => if stack.len() == 0 || !delims_match(stack.last().0, y) {
                        None
                    } else {
                        scan_to_open(b, s2, p, stack.drop_last())
                    },
                    LexTok::Other => scan_to_open(b, s2, p, stack),
                }
            }
        },
    }
}

/// Text in which the open delimiter at `p` is reached by a scan from the
/// start without an unmatched close before it: every open delimiter of
/// balanced text outside strings, comments and character literals.
pub open spec fn reached_open(b: Seq<u32>, p: int) -> bool {
    scan_to_open(b, fresh_scan(0), p, seq![]) is Some
}

/// The backward scan, carrying `prefix` below the opens `pending` that the
/// forward close scan owes, meets the close at `c` as the match of the
/// first of `pending`.
proof fn lemma_close_to_open(
    b: Seq<u32>,
    s: ScanState,
    c: int,
    prefix: Seq<(u32, int)>,
    pending: Seq<(u32, int)>,
)
    requires
        scan_ok(b, s),
        pending.len() >= 1,
        forall|k: int| 0 <= k < pending.len() ==> is_open_delim(#[trigger] pending[k].0),
        close_for_open_run(b, s, owed(pending)) == Some(c),
    ensures
        open_for_close_run(b, s, c, prefix + pending) == Some(pending[0].1),
    decreases b.len() - s.o,
{
    lemma_lex_progress(b, s);
    lemma_lex_next(b, s);
    let (t, q, s2) = lex_next(b, s)->Some_0;
    match t {
        LexTok::Open(x) => {
            let m = matching_close(x)->Some_0;
            let p2 = pending.push((x, q));
            assert(owed(p2) =~= owed(pending).push(m));
            lemma_close_for_open_run(b, s2, owed(p2));
            assert((prefix + pending).push((x, q)) =~= prefix + p2);
            assert forall|k: int| 0 <= k < p2.len() implies is_open_delim(#[trigger] p2[k].0) by {
                if k < pending.len() {
                    assert(p2[k] == pending[k]);
                }
            }
            lemma_close_to_open(b, s2, c, prefix, p2);
        },
        LexTok::Close(y) => {
            let full = prefix + pending;
            assert(full.last() == pending.last());
            assert(owed(pending).last() == matching_close(pending.last().0)->Some_0);
            assert(is_open_delim(pending[pending.len() - 1].0));
            if pending.len() == 1 {
                assert(pending.last() == pending[0]);
            } else {
                lemma_close_for_open_run(b, s2, owed(pending).drop_last());
                let p2 = pending.drop_last();
                assert(owed(p2) =~= owed(pending).drop_last());
                assert(full.drop_last() =~= prefix + p2);
                assert forall|k: int| 0 <= k < p2.len() implies is_open_delim(#[trigger] p2[k].0) by {
                    assert(p2[k] == pending[k]);
                }
                lemma_close_to_open(b, s2, c, prefix, p2);
            }
        },
        LexTok::Other => {
            lemma_close_for_open_run(b, s2, owed(pending));
            lemma_close_to_open(b, s2, c, prefix, pending);
        },
    }
}

proof fn lemma_reached_open(b: Seq<u32>, s: ScanState, p: int, c: int, stack: Seq<(u32, int)>)
    requires
        scan_ok(b, s),
        scan_to_open(b, s, p, stack) is Some,
        0 <= p < b.len(),
        is_open_delim(b[p]),
        close_for_open_run(b, fresh_scan(p + 1), seq![matching_close(b[p])->Some_0]) == Some(c),
    ensures
        open_for_close_run(b, s, c, stack) == Some(p),
    decreases b.len() - s.o,
{
    lemma_lex_progress(b, s);
    lemma_lex_next(b, s);
    assert(scan_ok(b, fresh_scan(p + 1)));
    lemma_close_for_open_run(b, fresh_scan(p + 1), seq![matching_close(b[p])->Some_0]);
    let (t, q, s2) = lex_next(b, s)->Some_0;
    if q == p {
        let x = b[p];
        let pending = seq![(x, p)];
        assert(owed(pending) =~= seq![matching_close(x)->Some_0]);
        assert(stack.push((x, p)) =~= stack + pending);
        lemma_close_to_open(b, s2, c, stack, pending);
    } else {
        match t {
            LexTok::Open(x) => {
                lemma_reached_open(b, s2, p, c, stack.push((x, q)));
            },
            LexTok::Close(y) => {
                lemma_reached_open(b, s2, p, c, stack.drop_last());
            },
            LexTok::Other => {
                lemma_reached_open(b, s2, p, c, stack);
            },
        }
    }
}

/// From an open delimiter reached by the scan from the start, the close
/// found for it is matched back with that open.
pub proof fn close_then_open_round_trip(b: Seq<u32>, p: int)
    requires
        reached_open(b, p),
        close_for_open_spec(b, p) is Some,
    ensures
        open_for_close_spec(b, close_for_open_spec(b, p)->Some_0) == Some(p),
{
    let c = close_for_open_spec(b, p)->Some_0;
    close_matches_open_kind(b, p);
    assert(scan_ok(b, fresh_scan(0)));
    assert(cp_at_spec(b, p) == Some(b[p]));
    assert(cp_at_spec(b, c) == Some(b[c]));
    assert(is_close_delim(b[c]));
    lemma_reached_open(b, fresh_scan(0), p, c, seq![]);
}

/// Matching a delimiter is its own inverse: from a close delimiter, or from
/// an open delimiter reached by the scan from the start, the match of the
/// match is the delimiter itself.
pub proof fn matching_delim_involution(b: Seq<u32>, x: int)
    requires
        matching_delim_spec(b, x) is Some,
        (cp_at_spec(b, x) matches Some(cx) && is_close_delim(cx)) || reached_open(b, x),
    ensures
        matching_delim_spec(b, matching_delim_spec(b, x)->Some_0) == Some(x),
{
    let cx = cp_at_spec(b, x)->Some_0;
    if is_open_delim(cx) {
        close_matches_open_kind(b, x);
        close_then_open_round_trip(b, x);
        let c = close_for_open_spec(b, x)->Some_0;
        assert(cp_at_spec(b, c) == Some(b[c]));
        assert(is_close_delim(b[c]));
    } else {
        open_then_close_round_trip(b, x);
        let o = open_for_close_spec(b, x)->Some_0;
        close_matches_open_kind(b, o);
        assert(cp_at_spec(b, o) == Some(b[o]));
    }
}

// ---------------------------------------------------------------------
// The enclosing form encloses the cursor

proof fn lemma_rising_step(stack: Seq<int>, t: LexTok, p: int, o: int)
    requires
        rising_below(stack, o),
        0 <= o <= p,
    ensures
        rising_below(step_open_stack(stack, t, p), p + 1),
{
    let st2 = step_open_stack(stack, t, p);
    match t {
        LexTok::Open(_) => {
            assert forall|a: int, c: int| 0 <= a < c < st2.len() implies st2[a] < st2[c] by {
                if c == stack.len() {
                    assert(stack[a] < o);
                } else {
                    assert(st2[a] == stack[a] && st2[c] == stack[c]);
                }
            }
            assert forall|k: int| 0 <= k < st2.len() implies 0 <= #[trigger] st2[k] < p + 1 by {
                if k < stack.len() {
                    assert(st2[k] == stack[k]);
                }
            }
        },
        LexTok::Close(_) => {
            if stack.len() > 0 {
                assert forall|a: int, c: int| 0 <= a < c < st2.len() implies st2[a] < st2[c] by {
                    assert(st2[a] == stack[a] && st2[c] == stack[c]);
                }
                assert forall|k: int| 0 <= k < st2.len() implies 0 <= #[trigger] st2[k] < p + 1 by {
                    assert(st2[k] == stack[k]);
                }
            }
        },
        LexTok::Other => {},
    }
}

/// The innermost enclosing open is an open still pending on the stack or
/// one the scan has not reached yet.
proof fn lemma_enclosing_place(b: Seq<u32>, s: ScanState, cursor: int, stack: Seq<int>)
    requires
        scan_ok(b, s),
        rising_below(stack, s.o),
    ensures
        enclosing_open_run(b, s, cursor, stack) matches Some(r) ==> (exists|k: int|
            0 <= k < stack.len() && #[trigger] stack[k] == r) || r >= s.o,
    decreases b.len() - s.o,
{
    lemma_lex_progress(b, s);
    lemma_lex_next(b, s);
    match lex_next(b, s) {
        None => {
            if stack.len() > 0 {
                assert(stack[stack.len() - 1] == stack.last());
            }
        },
        Some((t, p, s2)) => {
            if p >= cursor {
                if stack.len() > 0 {
                    assert(stack[stack.len() - 1] == stack.last());
                }
            } else {
                let st2 = step_open_stack(stack, t, p);
                lemma_rising_step(stack, t, p, s.o);
                lemma_enclosing_place(b, s2, cursor, st2);
                if let Some(r) = enclosing_open_run(b, s, cursor, stack) {
                    if exists|k: int| 0 <= k < st2.len() && #[trigger] st2[k] == r {
                        let k = choose|k: int| 0 <= k < st2.len() && #[trigger] st2[k] == r;
                        if k < stack.len() {
                            assert(stack[k] == st2[k]);
                        }
                    }
                }
            }
        },
    }
}

/// A close scan answers with its first token or a later one.
proof fn lemma_close_after_first(b: Seq<u32>, s: ScanState, expected: Seq<u32>)
    ensures
        lex_next(b, s) matches Some((t, p, s2)) ==> (close_for_open_run(b, s, expected) matches Some(
            c,
        ) ==> c >= p),
{
    lemma_lex_progress(b, s);
    if let Some((t, p, s2)) = lex_next(b, s) {
        match t {
            LexTok::Open(x) => {
                lemma_close_for_open_run(
                    b,
                    s2,
                    match matching_close(x) {
                        Some(m) => expected.push(m),
                        None => expected,
                    },
                );
            },
            LexTok::Close(_) => {
                if expected.len() > 1 {
                    lemma_close_for_open_run(b, s2, expected.drop_last());
                }
            },
            LexTok::Other => {
                lemma_close_for_open_run(b, s2, expected);
            },
        }
    }
}

/// While the open at stack entry `k` is pending, owing `expected`, a
/// close scan that pays it off does so at or after the cursor when that
/// open is the innermost one enclosing it.
proof fn lemma_pending_encloses(
    b: Seq<u32>,
    s: ScanState,
    cursor: int,
    stack: Seq<int>,
    k: int,
    expected: Seq<u32>,
    c: int,
)
    requires
        scan_ok(b, s),
        rising_below(stack, s.o),
        0 <= k < stack.len(),
        expected.len() == stack.len() - k,
        enclosing_open_run(b, s, cursor, stack) == Some(stack[k]),
        close_for_open_run(b, s, expected) == Some(c),
    ensures
        c >= cursor,
    decreases b.len() - s.o,
{
    lemma_lex_progress(b, s);
    lemma_lex_next(b, s);
    let (t, p, s2) = lex_next(b, s)->Some_0;
    lemma_close_for_open_run(b, s2, expected);
    lemma_close_after_first(b, s, expected);
    if p >= cursor {
        if p == cursor && t is Open {
            assert(stack[k] < s.o);
        }
    } else {
        let st2 = step_open_stack(stack, t, p);
        lemma_rising_step(stack, t, p, s.o);
        match t {
            LexTok::Open(x) => {
                let e2 = expected.push(matching_close(x)->Some_0);
                assert(st2[k] == stack[k]);
                lemma_pending_encloses(b, s2, cursor, st2, k, e2, c);
            },
            LexTok::Close(y) => {
                if expected.len() == 1 {
                    // The open is paid off before the cursor: it is no longer
                    // pending, yet the scan still answers with it.
                    lemma_enclosing_place(b, s2, cursor, st2);
                    let r = stack[k];
                    if exists|j: int| 0 <= j < st2.len() && #[trigger] st2[j] == r {
                        let j = choose|j: int| 0 <= j < st2.len() && #[trigger] st2[j] == r;
                        assert(st2[j] == stack[j]);
                        assert(stack[j] < stack[k]);
                    }
                    assert(false);
                } else {
                    assert(st2[k] == stack[k]);
                    lemma_pending_encloses(b, s2, cursor, st2, k, expected.drop_last(), c);
                }
            },
            LexTok::Other => {
                lemma_pending_encloses(b, s2, cursor, st2, k, expected, c);
            },
        }
    }
}

/// An innermost enclosing open the scan has not reached yet has its close
/// at or after the cursor.
proof fn lemma_future_encloses(b: Seq<u32>, s: ScanState, cursor: int, stack: Seq<int>, r: int, c: int)
    requires
        scan_ok(b, s),
        rising_below(stack, s.o),
        enclosing_open_run(b, s, cursor, stack) == Some(r),
        r >= s.o,
        close_for_open_spec(b, r) == Some(c),
    ensures
        c >= cursor,
    decreases b.len() - s.o,
{
    lemma_lex_progress(b, s);
    lemma_lex_next(b, s);
    close_matches_open_kind(b, r);
    let (t, p, s2) = lex_next(b, s)->Some_0;
    if p >= cursor {
        if !(p == cursor && t is Open) && stack.len() > 0 {
            assert(stack[stack.len() - 1] < s.o);
        }
    } else {
        let st2 = step_open_stack(stack, t, p);
        lemma_rising_step(stack, t, p, s.o);
        if p == r {
            let x = b[p];
            assert(cp_at_spec(b, r) == Some(x));
            assert(st2 == stack.push(p));
            assert(st2[stack.len() as int] == r);
            lemma_pending_encloses(
                b,
                s2,
                cursor,
                st2,
                stack.len() as int,
                seq![matching_close(x)->Some_0],
                c,
            );
        } else {
            lemma_enclosing_place(b, s2, cursor, st2);
            if exists|j: int| 0 <= j < st2.len() && #[trigger] st2[j] == r {
                let j = choose|j: int| 0 <= j < st2.len() && #[trigger] st2[j] == r;
                if j < stack.len() {
                    assert(st2[j] == stack[j]);
                }
            }
            lemma_future_encloses(b, s2, cursor, st2, r, c);
        }
    }
}

/// The enclosing form found at the cursor encloses it: its open lies at
/// or before the cursor and its close at or after it.
pub proof fn enclosing_form_encloses(b: Seq<u32>, cursor: int)
    ensures
        enclosing_form_spec(b, cursor) matches Some((o, c)) ==> o <= cursor <= c && o < c,
{
    if let Some((o, c)) = enclosing_form_spec(b, cursor) {
        assert(scan_ok(b, fresh_scan(0)));
        assert(rising_below(seq![], 0));
        lemma_lex_progress(b, fresh_scan(0));
        if cursor >= 0 {
            lemma_enclosing_open_run(b, fresh_scan(0), cursor, seq![]);
        }
        lemma_enclosing_place(b, fresh_scan(0), cursor, seq![]);
        lemma_future_encloses(b, fresh_scan(0), cursor, seq![], o, c);
        close_matches_open_kind(b, o);
    }
}

// ---------------------------------------------------------------------
// No open after the enclosing one encloses the cursor

/// Whether the scan from `s` meets an open delimiter at `p` as a token
/// (outside strings, comments and character literals).
pub open spec fn open_token_at(b: Seq<u32>, s: ScanState, p: int) -> bool
    decreases b.len() - s.o,
{
    match lex_next(b, s) {
        None => false,
        Some((t, q, s2)) => {
            proof {
                lemma_lex_progress(b, s);
            }
            if q > p {
                false
            } else if q == p {
                t is Open
            } else {
                open_token_at(b, s2, p)
            }
        },
    }
}

/// An open pending at stack entry `k` that is no longer on the stack when
/// the scan reaches the cursor was paid off before the cursor.
proof fn lemma_pending_popped(
    b: Seq<u32>,
    s: ScanState,
    cursor: int,
    stack: Seq<int>,
    k: int,
    expected: Seq<u32>,
    c: int,
)
    requires
        scan_ok(b, s),
        rising_below(stack, s.o),
        0 <= k < stack.len(),
        expected.len() == stack.len() - k,
        match enclosing_open_run(b, s, cursor, stack) {
            None => true,
            Some(r) => r < stack[k],
        },
        close_for_open_run(b, s, expected) == Some(c),
    ensures
        c < cursor,
    decreases b.len() - s.o,
{
    lemma_lex_progress(b, s);
    lemma_lex_next(b, s);
    assert(stack[stack.len() - 1] >= stack[k]);
    let (t, q, s2) = lex_next(b, s)->Some_0;
    if q >= cursor {
        if q == cursor && t is Open {
            assert(stack[k] < s.o);
        }
        assert(stack.last() == stack[stack.len() - 1]);
    } else {
        let st2 = step_open_stack(stack, t, q);
        lemma_rising_step(stack, t, q, s.o);
        match t {
            LexTok::Open(x) => {
                assert(st2[k] == stack[k]);
                lemma_pending_popped(
                    b,
                    s2,
                    cursor,
                    st2,
                    k,
                    expected.push(matching_close(x)->Some_0),
                    c,
                );
            },
            LexTok::Close(_) => {
                if expected.len() > 1 {
                    assert(st2[k] == stack[k]);
                    lemma_pending_popped(b, s2, cursor, st2, k, expected.drop_last(), c);
                }
            },
            LexTok::Other => {
                lemma_pending_popped(b, s2, cursor, st2, k, expected, c);
            },
        }
    }
}

proof fn lemma_later_open_closes_before(
    b: Seq<u32>,
    s: ScanState,
    cursor: int,
    stack: Seq<int>,
    p: int,
    c: int,
)
    requires
        scan_ok(b, s),
        rising_below(stack, s.o),
        open_token_at(b, s, p),
        p <= cursor,
        match enclosing_open_run(b, s, cursor, stack) {
            None => true,
            Some(o) => o < p,
        },
        close_for_open_spec(b, p) == Some(c),
    ensures
        c < cursor,
    decreases b.len() - s.o,
{
    lemma_lex_progress(b, s);
    lemma_lex_next(b, s);
    let (t, q, s2) = lex_next(b, s)->Some_0;
    if q == p {
        if p < cursor {
            let x = b[p];
            assert(cp_at_spec(b, p) == Some(x));
            let st2 = stack.push(p);
            lemma_rising_step(stack, t, q, s.o);
            assert(st2[stack.len() as int] == p);
            lemma_pending_popped(
                b,
                s2,
                cursor,
                st2,
                stack.len() as int,
                seq![matching_close(x)->Some_0],
                c,
            );
        }
    } else {
        let st2 = step_open_stack(stack, t, q);
        lemma_rising_step(stack, t, q, s.o);
        lemma_later_open_closes_before(b, s2, cursor, st2, p, c);
    }
}

/// The enclosing open is the innermost one: an open delimiter after it, at
/// or before the cursor, has its close (if any) before the cursor. With
/// [`enclosing_form_encloses`], the enclosing open is the greatest open
/// delimiter at or before the cursor whose close lies at or after it.
pub proof fn enclosing_open_is_innermost(b: Seq<u32>, cursor: int, p: int)
    requires
        open_token_at(b, fresh_scan(0), p),
        p <= cursor,
        match enclosing_open_spec(b, cursor) {
            None => true,
            Some(o) => o < p,
        },
    ensures
        close_for_open_spec(b, p) matches Some(c) ==> c < cursor,
{
    if let Some(c) = close_for_open_spec(b, p) {
        assert(scan_ok(b, fresh_scan(0)));
        assert(rising_below(seq![], 0));
        lemma_later_open_closes_before(b, fresh_scan(0), cursor, seq![], p, c);
    }
}

// ---------------------------------------------------------------------
// Balanced text

/// The scan from `s`, with the opens still pending on `stack`, meets no
/// close delimiter that does not match the innermost pending open, and
/// ends with none pending.
pub open spec fn balanced_run(b: Seq<u32>, s: ScanState, stack: Seq<(u32, int)>) -> bool
    decreases b.len() - s.o,
{
    match lex_next(b, s) {
        None => stack.len() == 0,
        Some((t, q, s2)) => {
            proof {
                lemma_lex_progress(b, s);
            }
            match t {
                LexTok::Open(x) => balanced_run(b, s2, stack.push((x, q))),
                LexTok::Close(y) => stack.len() > 0 && delims_match(stack.last().0, y)
                    && balanced_run(b, s2, stack.drop_last()),
                LexTok::Other => balanced_run(b, s2, stack),
            }
        },
    }
}

/// Balanced text: every `(` `[` `)` `]` outside strings, comments and
/// character literals is matched by one of the same kind.
pub open spec fn balanced(b: Seq<u32>) -> bool {
    balanced_run(b, fresh_scan(0), seq![])
}

/// Whether the scan from `s` meets a close delimiter at `p` as a token.
pub open spec fn close_token_at(b: Seq<u32>, s: ScanState, p: int) -> bool
    decreases b.len() - s.o,
{
    match lex_next(b, s) {
        None => false,
        Some((t, q, s2)) => {
            proof {
                lemma_lex_progress(b, s);
            }
            if q > p {
                false
            } else if q == p {
                t is Close
            } else {
                close_token_at(b, s2, p)
            }
        },
    }
}

proof fn lemma_token_kind(b: Seq<u32>, s: ScanState, p: int)
    requires
        scan_ok(b, s),
    ensures
        open_token_at(b, s, p) ==> 0 <= p < b.len() && is_open_delim(b[p]) && cp_at_spec(b, p)
            == Some(b[p]),
        close_token_at(b, s, p) ==> 0 <= p < b.len() && is_close_delim(b[p]) && cp_at_spec(b, p)
            == Some(b[p]),
    decreases b.len() - s.o,
{
    lemma_lex_progress(b, s);
    lemma_lex_next(b, s);
    if let Some((t, q, s2)) = lex_next(b, s) {
        if q < p {
            lemma_token_kind(b, s2, p);
        }
    }
}

/// In balanced text the opens pending below the ones a close scan owes are
/// paid off in turn: the scan finds the close of the first.
proof fn lemma_balanced_close_exists(
    b: Seq<u32>,
    s: ScanState,
    prefix: Seq<(u32, int)>,
    pending: Seq<(u32, int)>,
)
    requires
        scan_ok(b, s),
        pending.len() >= 1,
        forall|k: int| 0 <= k < pending.len() ==> is_open_delim(#[trigger] pending[k].0),
        balanced_run(b, s, prefix + pending),
    ensures
        close_for_open_run(b, s, owed(pending)) is Some,
    decreases b.len() - s.o,
{
    lemma_lex_progress(b, s);
    lemma_lex_next(b, s);
    match lex_next(b, s) {
        None => {
            assert((prefix + pending).len() > 0);
        },
        Some((t, q, s2)) => {
            match t {
                LexTok::Open(x) => {
                    let p2 = pending.push((x, q));
                    assert(owed(p2) =~= owed(pending).push(matching_close(x)->Some_0));
                    assert((prefix + pending).push((x, q)) =~= prefix + p2);
                    assert forall|k: int| 0 <= k < p2.len() implies is_open_delim(
                        #[trigger] p2[k].0,
                    ) by {
                        if k < pending.len() {
                            assert(p2[k] == pending[k]);
                        }
                    }
                    lemma_balanced_close_exists(b, s2, prefix, p2);
                },
                LexTok::Close(y) => {
                    let full = prefix + pending;
                    assert(full.last() == pending.last());
                    assert(is_open_delim(pending[pending.len() - 1].0));
                    assert(owed(pending).last() == matching_close(pending.last().0)->Some_0);
                    if pending.len() > 1 {
                        let p2 = pending.drop_last();
                        assert(owed(p2) =~= owed(pending).drop_last());
                        assert(full.drop_last() =~= prefix + p2);
                        assert forall|k: int| 0 <= k < p2.len() implies is_open_delim(
                            #[trigger] p2[k].0,
                        ) by {
                            assert(p2[k] == pending[k]);
                        }
                        lemma_balanced_close_exists(b, s2, prefix, p2);
                    }
                },
                LexTok::Other => {
                    lemma_balanced_close_exists(b, s2, prefix, pending);
                },
            }
        },
    }
}

proof fn lemma_balanced_open(b: Seq<u32>, s: ScanState, p: int, stack: Seq<(u32, int)>)
    requires
        scan_ok(b, s),
        balanced_run(b, s, stack),
        open_token_at(b, s, p),
    ensures
        close_for_open_spec(b, p) is Some,
        scan_to_open(b, s, p, stack) is Some,
    decreases b.len() - s.o,
{
    lemma_lex_progress(b, s);
    lemma_lex_next(b, s);
    let (t, q, s2) = lex_next(b, s)->Some_0;
    if q == p {
        let x = b[p];
        assert(cp_at_spec(b, p) == Some(x));
        let pending = seq![(x, p)];
        assert(stack.push((x, p)) =~= stack + pending);
        assert(owed(pending) =~= seq![matching_close(x)->Some_0]);
        lemma_balanced_close_exists(b, s2, stack, pending);
    } else {
        match t {
            LexTok::Open(x) => lemma_balanced_open(b, s2, p, stack.push((x, q))),
            LexTok::Close(_) => lemma_balanced_open(b, s2, p, stack.drop_last()),
            LexTok::Other => lemma_balanced_open(b, s2, p, stack),
        }
    }
}

proof fn lemma_balanced_close(b: Seq<u32>, s: ScanState, c: int, stack: Seq<(u32, int)>)
    requires
        scan_ok(b, s),
        balanced_run(b, s, stack),
        close_token_at(b, s, c),
    ensures
        open_for_close_run(b, s, c, stack) is Some,
    decreases b.len() - s.o,
{
    lemma_lex_progress(b, s);
    lemma_lex_next(b, s);
    let (t, q, s2) = lex_next(b, s)->Some_0;
    if q != c {
        match t {
            LexTok::Open(x) => lemma_balanced_close(b, s2, c, stack.push((x, q))),
            LexTok::Close(_) => lemma_balanced_close(b, s2, c, stack.drop_last()),
            LexTok::Other => lemma_balanced_close(b, s2, c, stack),
        }
    }
}

/// In balanced text every delimiter (outside strings, comments and
/// character literals) has a match elsewhere, and the match of its match
/// is itself.
pub proof fn balanced_matching(b: Seq<u32>, x: int)
    requires
        balanced(b),
        open_token_at(b, fresh_scan(0), x) || close_token_at(b, fresh_scan(0), x),
    ensures
        matching_delim_spec(b, x) matches Some(y) && y != x && matching_delim_spec(b, y) == Some(
            x,
        ),
{
    assert(scan_ok(b, fresh_scan(0)));
    lemma_token_kind(b, fresh_scan(0), x);
    if open_token_at(b, fresh_scan(0), x) {
        lemma_balanced_open(b, fresh_scan(0), x, seq![]);
        close_matches_open_kind(b, x);
        close_then_open_round_trip(b, x);
        matching_delim_involution(b, x);
    } else {
        lemma_balanced_close(b, fresh_scan(0), x, seq![]);
        open_then_close_round_trip(b, x);
        let o = open_for_close_spec(b, x)->Some_0;
        close_matches_open_kind(b, o);
        matching_delim_involution(b, x);
    }
}

/// The stack's opens are all open tokens of the scan from the start, and
/// the open tokens ahead of `s` are too: then so is the innermost
/// enclosing open.
proof fn lemma_enclosing_is_token(b: Seq<u32>, s: ScanState, cursor: int, stack: Seq<int>)
    requires
        scan_ok(b, s),
        rising_below(stack, s.o),
        forall|k: int| 0 <= k < stack.len() ==> open_token_at(b, fresh_scan(0), #[trigger] stack[k]),
        forall|p: int| p >= s.o && #[trigger] open_token_at(b, s, p) ==> open_token_at(b, fresh_scan(0), p),
    ensures
        enclosing_open_run(b, s, cursor, stack) matches Some(r) ==> open_token_at(
            b,
            fresh_scan(0),
            r,
        ),
    decreases b.len() - s.o,
{
    lemma_lex_progress(b, s);
    lemma_lex_next(b, s);
    match lex_next(b, s) {
        None => {
            if stack.len() > 0 {
                assert(stack.last() == stack[stack.len() - 1]);
            }
        },
        Some((t, q, s2)) => {
            if q >= cursor {
                if q == cursor && t is Open {
                    assert(open_token_at(b, s, q));
                } else if stack.len() > 0 {
                    assert(stack.last() == stack[stack.len() - 1]);
                }
            } else {
                let st2 = step_open_stack(stack, t, q);
                lemma_rising_step(stack, t, q, s.o);
                assert forall|p: int| p >= s2.o && #[trigger] open_token_at(b, s2, p) implies open_token_at(
                    b,
                    fresh_scan(0),
                    p,
                ) by {
                    assert(open_token_at(b, s, p));
                }
                if t is Open {
                    assert(open_token_at(b, s, q));
                }
                assert forall|k: int| 0 <= k < st2.len() implies open_token_at(
                    b,
                    fresh_scan(0),
                    #[trigger] st2[k],
                ) by {
                    if k < stack.len() {
                        assert(st2[k] == stack[k]);
                    }
                }
                lemma_enclosing_is_token(b, s2, cursor, st2);
            }
        },
    }
}

/// The open delimiter at `p` has a close, before `cursor`.
pub open spec fn closes_before(b: Seq<u32>, p: int, cursor: int) -> bool {
    close_for_open_spec(b, p) matches Some(q) && q < cursor
}

/// The open delimiter at `p` has a close, at or after `cursor`.
pub open spec fn closes_at_or_after(b: Seq<u32>, p: int, cursor: int) -> bool {
    close_for_open_spec(b, p) matches Some(q) && q >= cursor
}

/// In balanced text the enclosing form at the cursor is `(o, c)` where `o`
/// is the greatest open delimiter (outside strings, comments and character
/// literals) at or before the cursor whose close `c` lies at or after it;
/// there is none exactly when no open delimiter at or before the cursor
/// closes at or after it (every one closes before it).
pub proof fn balanced_enclosing_form(b: Seq<u32>, cursor: int)
    requires
        balanced(b),
    ensures
        enclosing_form_spec(b, cursor) matches Some((o, c)) ==> {
            &&& open_token_at(b, fresh_scan(0), o)
            &&& o <= cursor <= c
            &&& close_for_open_spec(b, o) == Some(c)
            &&& forall|p: int|
                o < p <= cursor && #[trigger] open_token_at(b, fresh_scan(0), p)
                    ==> closes_before(b, p, cursor)
        },
        enclosing_form_spec(b, cursor) is None ==> forall|p: int|
            p <= cursor && #[trigger] open_token_at(b, fresh_scan(0), p)
                ==> closes_before(b, p, cursor),
        (enclosing_form_spec(b, cursor) is None) == !(exists|p: int|
            p <= cursor && #[trigger] open_token_at(b, fresh_scan(0), p) && closes_at_or_after(
                b,
                p,
                cursor,
            )),
{
    let s0 = fresh_scan(0);
    assert(scan_ok(b, s0));
    assert(rising_below(seq![], 0));
    lemma_enclosing_is_token(b, s0, cursor, seq![]);
    enclosing_form_encloses(b, cursor);
    match enclosing_open_spec(b, cursor) {
        Some(o) => {
            lemma_balanced_open(b, s0, o, seq![]);
            assert forall|p: int|
                o < p <= cursor && #[trigger] open_token_at(b, s0, p)
                    implies closes_before(b, p, cursor) by {
                lemma_balanced_open(b, s0, p, seq![]);
                enclosing_open_is_innermost(b, cursor, p);
            }
        },
        None => {
            assert forall|p: int|
                p <= cursor && #[trigger] open_token_at(b, s0, p)
                    implies closes_before(b, p, cursor) by {
                lemma_balanced_open(b, s0, p, seq![]);
                enclosing_open_is_innermost(b, cursor, p);
            }
        },
    }
    if let Some((o, c)) = enclosing_form_spec(b, cursor) {
        assert(closes_at_or_after(b, o, cursor));
    }
}

// ---------------------------------------------------------------------
// Moving over atoms and strings

/// Blank: space, tab, line feed, carriage return, form feed.
pub open spec fn blank(c: u32) -> bool {
    c == 0x20 || c == 0x09 || c == 0x0A || c == 0x0D || c == 0x0C
}

/// What ends an atom: a blank, a delimiter `(` `)` `[` `]`, `;`, `"`, or a
/// reader prefix `'` `` ` `` `,`.
pub open spec fn ends_atom(c: u32) -> bool {
    blank(c) || c == 0x28 || c == 0x29 || c == 0x5B || c == 0x5D || c == 0x3B || c == 0x22
        || c == 0x27 || c == 0x60 || c == 0x2C
}

/// A reader prefix: `'`, `` ` `` or `,`.
pub open spec fn reader_prefix(c: u32) -> bool {
    c == 0x27 || c == 0x60 || c == 0x2C
}

proof fn lemma_atmosphere_to(b: Seq<u32>, i: int, p: int)
    requires
        0 <= i <= p < b.len(),
        forall|j: int| i <= j < p ==> blank(#[trigger] b[j]),
        !ends_atom(b[p]),
        b[p] != 0x23,
    ensures
        atmosphere_forward(b, i, 0) == p,
    decreases p - i,
{
    if i < p {
        lemma_atmosphere_to(b, i + 1, p);
    }
}

proof fn lemma_atom_run(b: Seq<u32>, i: int)
    requires
        0 <= i <= b.len(),
    ensures
        i <= atom_end(b, i) <= b.len(),
        forall|j: int| i <= j < atom_end(b, i) ==> !ends_atom(#[trigger] b[j]),
        atom_end(b, i) == b.len() || ends_atom(b[atom_end(b, i)]),
    decreases b.len() - i,
{
    if i < b.len() && !ends_atom(b[i]) {
        lemma_atom_run(b, i + 1);
    }
}

/// Moving forward over an atom stops at its end: when blanks lead from the
/// cursor to an atom at `p` (not a delimiter, quote, prefix, `;` or `#`),
/// the result is the first offset after `p` that ends an atom, or the end
/// of the buffer. Inside a list it therefore never passes the list's close.
pub proof fn forward_over_atom(b: Seq<u32>, cursor: int, p: int)
    requires
        0 <= cursor <= p < b.len(),
        forall|j: int| cursor <= j < p ==> blank(#[trigger] b[j]),
        !ends_atom(b[p]),
        b[p] != 0x23,
    ensures
        forward_sexp_spec(b, cursor) matches Some(e) && p < e <= b.len() && (forall|j: int|
            p <= j < e ==> !ends_atom(#[trigger] b[j])) && (e == b.len() || ends_atom(b[e])),
{
    lemma_atmosphere_to(b, cursor, p);
    assert(cp_at_spec(b, p) == Some(b[p]));
    lemma_atom_run(b, p);
}

proof fn lemma_atmosphere_back_to(b: Seq<u32>, o: int, l: int)
    requires
        0 <= l < o <= b.len(),
        forall|j: int| l < j < o ==> blank(#[trigger] b[j]),
        !blank(b[l]),
    ensures
        atmosphere_backward(b, o) == Some(l + 1),
    decreases o - l,
{
    if o > l + 1 {
        lemma_atmosphere_back_to(b, o - 1, l);
    }
}

proof fn lemma_string_back_to(b: Seq<u32>, o: int, q: int)
    requires
        0 <= q < o <= b.len(),
        b[q] == 0x22,
        backslashes_before(b, q) % 2 == 0,
        forall|j: int| q < j < o ==> !(#[trigger] b[j] == 0x22 && backslashes_before(b, j) % 2 == 0),
    ensures
        string_backward(b, o) == q,
    decreases o - q,
{
    assert(cp_at_spec(b, o - 1) == Some(b[o - 1]));
    if o - 1 > q {
        lemma_string_back_to(b, o - 1, q);
    }
}

proof fn lemma_prefix_run(b: Seq<u32>, o: int)
    requires
        0 <= o <= b.len(),
    ensures
        absorb_prefix_backward(b, o) <= o,
        0 <= absorb_prefix_backward(b, o),
        forall|j: int| absorb_prefix_backward(b, o) <= j < o ==> reader_prefix(#[trigger] b[j]),
        absorb_prefix_backward(b, o) == 0 || !reader_prefix(b[absorb_prefix_backward(b, o) - 1]),
    decreases o,
{
    if 0 < o && reader_prefix(b[o - 1]) {
        lemma_prefix_run(b, o - 1);
    }
}

/// Moving backward over a string lands on its opening quote: when blanks
/// lead back from the cursor to a `"` at `l` that closes the string opened
/// at `q` (the nearest unescaped `"` before it), the result is `q`, or the
/// start of the reader prefixes just before `q`. The text from the result
/// to the cursor holds the whole string.
pub proof fn backward_over_string(b: Seq<u32>, cursor: int, l: int, q: int)
    requires
        0 <= q < l < cursor <= b.len(),
        b[l] == 0x22,
        forall|j: int| l < j < cursor ==> blank(#[trigger] b[j]),
        b[q] == 0x22,
        backslashes_before(b, q) % 2 == 0,
        forall|j: int| q < j < l ==> !(#[trigger] b[j] == 0x22 && backslashes_before(b, j) % 2 == 0),
    ensures
        backward_sexp_spec(b, cursor) matches Some(r) && r <= q && (forall|j: int|
            r <= j < q ==> reader_prefix(#[trigger] b[j])) && (r == 0 || !reader_prefix(b[r - 1])),
{
    lemma_atmosphere_back_to(b, cursor, l);
    assert(cp_at_spec(b, l) == Some(b[l]));
    lemma_string_back_to(b, l, q);
    lemma_prefix_run(b, q);
}

} // verus!
