//! The Forth console: a scrollback of output lines, a one-line editor
//! with a cursor, and a history of submitted lines.
//!
//! The console's state is a plain value. Lines from any producer are
//! queued with [`append`] and applied by [`flush_on_gui_thread`]; the
//! window (outside this crate) feeds keystrokes and wheel turns to a
//! [`ConsoleView`] and repaints from the rows that [`wrap_prompt_row`] and
//! [`wrap_into_rows`] lay out.

use vstd::prelude::*;

use crate::let_lang::lexer::chars_of;
use crate::let_lang::parser::strings_sv;
use crate::igui::window::{
    high_word, signed16, WM_CHAR, WM_KEYDOWN, WM_LBUTTONDOWN, WM_MOUSEWHEEL, WM_SETFOCUS, WM_SIZE,
};
use crate::text::{is_scalar_value, push_str};

verus! {

/// Most lines the scrollback keeps when lines are flushed into it.
pub const SCROLLBACK_CAP: usize = 8192;

/// Longest line, in UTF-8 bytes for queued output and in characters for
/// the input line.
pub const LINE_MAX: usize = 4096;

/// Most submitted lines the history keeps.
pub const HISTORY_CAP: usize = 1024;

/// Virtual-key codes the console reacts to.
pub const VK_BACK: u32 = 0x08;
pub const VK_RETURN: u32 = 0x0D;
pub const VK_END: u32 = 0x23;
pub const VK_HOME: u32 = 0x24;
pub const VK_LEFT: u32 = 0x25;
pub const VK_UP: u32 = 0x26;
pub const VK_RIGHT: u32 = 0x27;
pub const VK_DOWN: u32 = 0x28;
pub const VK_DELETE: u32 = 0x2E;

/// One wheel notch.
pub const WHEEL_DELTA: i32 = 120;

/// State of the console.
pub struct ConsoleState {
    /// Output lines, oldest first; submitted input is echoed here too.
    pub lines: Vec<String>,
    /// The line being edited.
    pub input: Vec<char>,
    /// Cursor offset within `input`, in characters.
    pub cursor: usize,
    /// Submitted lines, newest last.
    pub history: Vec<String>,
    /// `Some(i)` while history entry `i` is shown in the editor.
    pub history_idx: Option<usize>,
    /// The line being edited when the walk through history started.
    pub history_draft: Option<(Vec<char>, usize)>,
}

impl ConsoleState {
    /// The console's invariant: the cursors lie within their lines, a shown
    /// history entry exists, and the history is within its cap.
    pub open spec fn wf(&self) -> bool {
        &&& self.cursor <= self.input@.len()
        &&& (self.history_idx matches Some(i) ==> i < self.history@.len())
        &&& (self.history_draft matches Some((d, c)) ==> c <= d@.len())
        &&& self.history@.len() <= HISTORY_CAP
    }

    pub open spec fn lines_sv(&self) -> Seq<Seq<char>> {
        strings_sv(self.lines@)
    }

    pub open spec fn history_sv(&self) -> Seq<Seq<char>> {
        strings_sv(self.history@)
    }

    /// An empty console.
    pub fn new() -> (s: ConsoleState)
        ensures
            s.wf(),
            s.lines@.len() == 0,
            s.input@.len() == 0,
            s.cursor == 0,
            s.history@.len() == 0,
            s.history_idx is None,
            s.history_draft is None,
    {
        ConsoleState {
            lines: Vec::new(),
            input: Vec::new(),
            cursor: 0,
            history: Vec::new(),
            history_idx: None,
            history_draft: None,
        }
    }
}

/// Bytes of the UTF-8 encoding of `c`.
pub open spec fn utf8_width(c: char) -> int {
    if (c as u32) < 0x80 {
        1
    } else if (c as u32) < 0x800 {
        2
    } else if (c as u32) < 0x10000 {
        3
    } else {
        4
    }
}

/// Number of leading characters of `cs` whose UTF-8 encoding fits in
/// `budget` bytes.
pub open spec fn fitting_prefix(cs: Seq<char>, budget: int) -> nat
    decreases cs.len(),
{
    if cs.len() == 0 || utf8_width(cs[0]) > budget {
        0
    } else {
        1 + fitting_prefix(cs.subrange(1, cs.len() as int), budget - utf8_width(cs[0]))
    }
}

/// A line cut to at most `LINE_MAX` bytes of UTF-8, at a character
/// boundary.
pub open spec fn truncate_line(cs: Seq<char>) -> Seq<char> {
    cs.take(fitting_prefix(cs, LINE_MAX as int) as int)
}

/// Bytes of the UTF-8 encoding of `cs`, summed character by character.
pub open spec fn utf8_len(cs: Seq<char>) -> int
    decreases cs.len(),
{
    if cs.len() == 0 {
        0
    } else {
        utf8_width(cs[0]) + utf8_len(cs.drop_first())
    }
}

proof fn lemma_utf8_len_is_encoding(cs: Seq<char>)
    ensures
        vstd::utf8::encode_utf8(cs).len() == utf8_len(cs),
    decreases cs.len(),
{
    if cs.len() > 0 {
        vstd::utf8::char_is_scalar(cs[0]);
        lemma_utf8_len_is_encoding(cs.drop_first());
    }
}

proof fn lemma_fitting_prefix_fits(cs: Seq<char>, budget: int)
    requires
        budget >= 0,
    ensures
        fitting_prefix(cs, budget) <= cs.len(),
        utf8_len(cs.take(fitting_prefix(cs, budget) as int)) <= budget,
        fitting_prefix(cs, budget) == cs.len() || utf8_len(
            cs.take(fitting_prefix(cs, budget) + 1 as int),
        ) > budget,
    decreases cs.len(),
{
    let k = fitting_prefix(cs, budget);
    if cs.len() == 0 {
        assert(cs.take(0) =~= Seq::<char>::empty());
    } else if utf8_width(cs[0]) > budget {
        assert(cs.take(0) =~= Seq::<char>::empty());
        assert(cs.take(1).drop_first() =~= Seq::<char>::empty());
        assert(utf8_len(cs.take(1).drop_first()) == 0);
    } else {
        let rest = cs.subrange(1, cs.len() as int);
        let b2 = budget - utf8_width(cs[0]);
        lemma_fitting_prefix_fits(rest, b2);
        let k2 = fitting_prefix(rest, b2);
        assert(cs.take(k as int).drop_first() =~= rest.take(k2 as int));
        assert(cs.take(k as int)[0] == cs[0]);
        if k < cs.len() {
            assert(cs.take(k + 1 as int).drop_first() =~= rest.take(k2 + 1 as int));
            assert(cs.take(k + 1 as int)[0] == cs[0]);
        }
    }
}

/// The cut of an over-long line: it is a prefix of the line whose UTF-8
/// encoding fits in `LINE_MAX` bytes, and it is the whole line or one more
/// character would not fit (the largest character boundary within the
/// limit).
pub proof fn truncate_line_is_largest_fit(cs: Seq<char>)
    ensures
        truncate_line(cs) == cs.take(truncate_line(cs).len() as int),
        vstd::utf8::encode_utf8(truncate_line(cs)).len() <= LINE_MAX,
        truncate_line(cs).len() == cs.len() || vstd::utf8::encode_utf8(
            cs.take(truncate_line(cs).len() + 1 as int),
        ).len() > LINE_MAX,
        vstd::utf8::encode_utf8(cs).len() <= LINE_MAX ==> truncate_line(cs) == cs,
{
    lemma_fitting_prefix_fits(cs, LINE_MAX as int);
    let k = fitting_prefix(cs, LINE_MAX as int);
    let t = cs.take(k as int);
    lemma_utf8_len_is_encoding(t);
    lemma_utf8_len_is_encoding(cs);
    if k < cs.len() {
        lemma_utf8_len_is_encoding(cs.take(k + 1 as int));
        lemma_utf8_len_prefix(cs, k + 1 as int);
    } else {
        assert(t =~= cs);
    }
}

proof fn lemma_utf8_len_prefix(cs: Seq<char>, j: int)
    requires
        0 <= j <= cs.len(),
    ensures
        utf8_len(cs.take(j)) <= utf8_len(cs),
    decreases cs.len(),
{
    if j > 0 {
        lemma_utf8_len_prefix(cs.drop_first(), j - 1);
        assert(cs.take(j).drop_first() =~= cs.drop_first().take(j - 1));
        assert(cs.take(j)[0] == cs[0]);
    } else {
        assert(cs.take(0) =~= Seq::<char>::empty());
        lemma_utf8_len_nonneg(cs);
    }
}

proof fn lemma_utf8_len_nonneg(cs: Seq<char>)
    ensures
        utf8_len(cs) >= 0,
    decreases cs.len(),
{
    if cs.len() > 0 {
        lemma_utf8_len_nonneg(cs.drop_first());
    }
}

fn utf8_width_exec(c: char) -> (w: usize)
    ensures
        w == utf8_width(c),
{
    let v = c as u32;
    if v < 0x80 {
        1
    } else if v < 0x800 {
        2
    } else if v < 0x10000 {
        3
    } else {
        4
    }
}

proof fn lemma_fitting_prefix_bound(cs: Seq<char>, budget: int)
    ensures
        fitting_prefix(cs, budget) <= cs.len(),
    decreases cs.len(),
{
    if cs.len() > 0 && utf8_width(cs[0]) <= budget {
        lemma_fitting_prefix_bound(cs.subrange(1, cs.len() as int), budget - utf8_width(cs[0]));
    }
}

/// `line` cut to at most `LINE_MAX` bytes at a character boundary.
pub fn truncated(line: &str) -> (s: String)
    ensures
        s@ == truncate_line(line@),
{
    let cs = chars_of(line);
    let n = cs.len();
    let mut k: usize = 0;
    let mut budget: usize = LINE_MAX;
    let mut s = String::new();
    proof {
        assert(cs@.subrange(0, n as int) =~= cs@);
        assert(cs@.take(0) =~= Seq::<char>::empty());
    }
    loop
        invariant_except_break
            k <= n,
            n == cs@.len(),
            budget <= LINE_MAX,
            s@ == cs@.take(k as int),
            fitting_prefix(cs@, LINE_MAX as int) == k + fitting_prefix(
                cs@.subrange(k as int, n as int),
                budget as int,
            ),
        ensures
            s@ == cs@.take(fitting_prefix(cs@, LINE_MAX as int) as int),
        decreases n - k,
    {
        if k >= n {
            proof {
                assert(cs@.subrange(k as int, n as int).len() == 0);
            }
            break;
        }
        let w = utf8_width_exec(cs[k]);
        proof {
            let rest = cs@.subrange(k as int, n as int);
            assert(rest[0] == cs@[k as int]);
            assert(rest.subrange(1, rest.len() as int) =~= cs@.subrange(k + 1, n as int));
        }
        if w > budget {
            break;
        }
        s.push(cs[k]);
        proof {
            assert(cs@.take(k + 1) =~= cs@.take(k as int).push(cs@[k as int]));
        }
        budget = budget - w;
        k = k + 1;
    }
    proof {
        assert(line@ == cs@);
    }
    s
}

/// Queues one output line, cut to at most `LINE_MAX` bytes of UTF-8 at a
/// character boundary, for the next [`flush_on_gui_thread`].
pub fn append(pending: &mut Vec<String>, line: &str)
    ensures
        strings_sv(final(pending)@) == strings_sv(old(pending)@).push(truncate_line(line@)),
{
    let t = truncated(line);
    let ghost before = strings_sv(pending@);
    pending.push(t);
    proof {
        assert(strings_sv(pending@) =~= before.push(truncate_line(line@)));
    }
}

/// One line added to the scrollback: the oldest line goes first when the
/// scrollback is full.
pub open spec fn scroll_in(lines: Seq<Seq<char>>, line: Seq<char>) -> Seq<Seq<char>> {
    if lines.len() >= SCROLLBACK_CAP {
        lines.subrange(1, lines.len() as int).push(line)
    } else {
        lines.push(line)
    }
}

/// The scrollback after the first `k` of `drained` were added.
pub open spec fn scroll_in_all(lines: Seq<Seq<char>>, drained: Seq<Seq<char>>, k: int) -> Seq<
    Seq<char>,
>
    decreases k,
{
    if k <= 0 {
        lines
    } else {
        scroll_in(scroll_in_all(lines, drained, k - 1), drained[k - 1])
    }
}

/// The last `cap` lines of `s` (all of them when there are fewer).
pub open spec fn keep_last(s: Seq<Seq<char>>, cap: nat) -> Seq<Seq<char>> {
    if s.len() > cap {
        s.subrange(s.len() - cap, s.len() as int)
    } else {
        s
    }
}

/// Applies the queued lines to the scrollback and empties the queue;
/// returns how many lines were applied.
pub fn flush_on_gui_thread(state: &mut ConsoleState, pending: &mut Vec<String>) -> (n: usize)
    requires
        old(state).wf(),
    ensures
        final(state).wf(),
        n == old(pending)@.len(),
        final(pending)@.len() == 0,
        final(state).lines_sv() == scroll_in_all(
            old(state).lines_sv(),
            strings_sv(old(pending)@),
            n as int,
        ),
        final(state).input == old(state).input,
        final(state).cursor == old(state).cursor,
        final(state).history == old(state).history,
        final(state).history_idx == old(state).history_idx,
        final(state).history_draft == old(state).history_draft,
{
    let mut drained: Vec<String> = Vec::new();
    std::mem::swap(&mut drained, pending);
    let n = drained.len();
    let ghost l0 = state.lines_sv();
    let ghost d = strings_sv(drained@);
    let ghost input0 = state.input;
    let ghost cursor0 = state.cursor;
    let ghost history0 = state.history;
    let ghost idx0 = state.history_idx;
    let ghost draft0 = state.history_draft;
    let mut i: usize = 0;
    while i < n
        invariant
            i <= n,
            n == drained@.len(),
            d == strings_sv(drained@),
            state.lines_sv() == scroll_in_all(l0, d, i as int),
            state.wf(),
            state.input == input0,
            state.cursor == cursor0,
            state.history == history0,
            state.history_idx == idx0,
            state.history_draft == draft0,
        decreases n - i,
    {
        let ghost before = state.lines_sv();
        if state.lines.len() >= SCROLLBACK_CAP {
            state.lines.remove(0);
            proof {
                assert(strings_sv(state.lines@) =~= before.subrange(1, before.len() as int));
            }
        }
        let ghost mid = state.lines_sv();
        state.lines.push(drained[i].clone());
        proof {
            assert(state.lines_sv() =~= mid.push(d[i as int]));
        }
        i = i + 1;
    }
    n
}

/// Flushing keeps the scrollback within its cap: from a scrollback of at
/// most `SCROLLBACK_CAP` lines, adding lines leaves the last
/// `SCROLLBACK_CAP` of all of them.
pub proof fn flush_keeps_last_lines(lines: Seq<Seq<char>>, drained: Seq<Seq<char>>, k: int)
    requires
        lines.len() <= SCROLLBACK_CAP,
        0 <= k <= drained.len(),
    ensures
        scroll_in_all(lines, drained, k) == keep_last(
            lines + drained.take(k),
            SCROLLBACK_CAP as nat,
        ),
        scroll_in_all(lines, drained, k).len() <= SCROLLBACK_CAP,
    decreases k,
{
    if k > 0 {
        flush_keeps_last_lines(lines, drained, k - 1);
        let prev = lines + drained.take(k - 1);
        let all = lines + drained.take(k);
        assert(all =~= prev.push(drained[k - 1]));
        let c = SCROLLBACK_CAP as int;
        if prev.len() >= c {
            assert(keep_last(prev, c as nat).subrange(1, c).push(drained[k - 1]) =~= all.subrange(
                all.len() - c,
                all.len() as int,
            ));
        } else {
            assert(keep_last(prev, c as nat) == prev);
        }
    } else {
        assert(lines + drained.take(0) =~= lines);
    }
}

/// Clears the scrollback and the input line, ending any walk through the
/// history; the history itself is kept.
pub fn reset_for_restart(state: &mut ConsoleState)
    requires
        old(state).wf(),
    ensures
        final(state).wf(),
        final(state).lines@.len() == 0,
        final(state).input@.len() == 0,
        final(state).cursor == 0,
        final(state).history_idx is None,
        final(state).history_draft is None,
        final(state).history == old(state).history,
{
    state.lines.clear();
    state.input.clear();
    state.cursor = 0;
    state.history_idx = None;
    state.history_draft = None;
}

/// Clears the scrollback only.
pub fn clear_screen(state: &mut ConsoleState)
    requires
        old(state).wf(),
    ensures
        final(state).wf(),
        final(state).lines@.len() == 0,
        final(state).input == old(state).input,
        final(state).cursor == old(state).cursor,
        final(state).history == old(state).history,
        final(state).history_idx == old(state).history_idx,
        final(state).history_draft == old(state).history_draft,
{
    state.lines.clear();
}

/// `lines` with empty lines added until line `row` exists.
pub open spec fn pad_lines(lines: Seq<Seq<char>>, row: nat) -> Seq<Seq<char>> {
    if lines.len() > row {
        lines
    } else {
        lines + Seq::new((row + 1 - lines.len()) as nat, |k: int| Seq::<char>::empty())
    }
}

/// `line` with `text` written over it from column `col`; the line is
/// padded with spaces up to `col` first.
pub open spec fn overlay(line: Seq<char>, col: nat, text: Seq<char>) -> Seq<char> {
    let padded = if line.len() < col {
        line + Seq::new((col - line.len()) as nat, |k: int| ' ')
    } else {
        line
    };
    let len = if padded.len() > col + text.len() {
        padded.len()
    } else {
        col + text.len()
    };
    Seq::new(len, |k: int| if col <= k < col + text.len() { text[k - col] } else { padded[k] })
}

fn string_from_chars(v: &Vec<char>) -> (s: String)
    ensures
        s@ == v@,
{
    let mut s = String::new();
    let mut i: usize = 0;
    while i < v.len()
        invariant
            i <= v@.len(),
            s@ == v@.take(i as int),
        decreases v@.len() - i,
    {
        s.push(v[i]);
        proof {
            assert(v@.take(i + 1) =~= v@.take(i as int).push(v@[i as int]));
        }
        i = i + 1;
    }
    proof {
        assert(v@.take(v@.len() as int) =~= v@);
    }
    s
}

/// Writes `text` over the scrollback at column `col` of line `row`, adding
/// empty lines until that line exists and padding it with spaces up to
/// `col`.
pub fn write_at(state: &mut ConsoleState, col: usize, row: usize, text: &str)
    requires
        old(state).wf(),
        row < usize::MAX,
        col + text@.len() <= usize::MAX,
    ensures
        final(state).wf(),
        final(state).lines_sv() == pad_lines(old(state).lines_sv(), row as nat).update(
            row as int,
            overlay(pad_lines(old(state).lines_sv(), row as nat)[row as int], col as nat, text@),
        ),
        final(state).input == old(state).input,
        final(state).cursor == old(state).cursor,
        final(state).history == old(state).history,
        final(state).history_idx == old(state).history_idx,
        final(state).history_draft == old(state).history_draft,
{
    let ghost l0 = state.lines_sv();
    let ghost input0 = state.input;
    let ghost cursor0 = state.cursor;
    let ghost history0 = state.history;
    let ghost idx0 = state.history_idx;
    let ghost draft0 = state.history_draft;
    proof {
        assert(l0 =~= l0 + Seq::new(0, |k: int| Seq::<char>::empty()));
    }
    while state.lines.len() <= row
        invariant
            l0.len() <= row + 1 ==> state.lines_sv().len() <= row + 1,
            l0.len() > row + 1 ==> state.lines_sv() == l0,
            l0.len() <= state.lines_sv().len(),
            state.input == input0,
            state.cursor == cursor0,
            state.history == history0,
            state.history_idx == idx0,
            state.history_draft == draft0,
            state.lines_sv() =~= l0 + Seq::new(
                (state.lines_sv().len() - l0.len()) as nat,
                |k: int| Seq::<char>::empty(),
            ),
            state.wf(),
        decreases row + 1 - state.lines@.len(),
    {
        let ghost before = state.lines_sv();
        state.lines.push(String::new());
        proof {
            assert(state.lines_sv() =~= before.push(Seq::<char>::empty()));
        }
    }
    let ghost padded_lines = state.lines_sv();
    proof {
        assert(padded_lines =~= pad_lines(l0, row as nat));
    }
    let mut chars = chars_of(state.lines[row].as_str());
    while chars.len() < col
        invariant
            chars@.len() <= col || chars@ == padded_lines[row as int],
            padded_lines[row as int].len() <= chars@.len(),
            chars@ =~= padded_lines[row as int] + Seq::new(
                (chars@.len() - padded_lines[row as int].len()) as nat,
                |k: int| ' ',
            ),
        decreases col - chars@.len(),
    {
        let ghost before = chars@;
        chars.push(' ');
        proof {
            assert(chars@ =~= before.push(' '));
        }
    }
    let ghost padded = chars@;
    proof {
        let line = padded_lines[row as int];
        if line.len() < col {
            assert(padded =~= line + Seq::new((col - line.len()) as nat, |k: int| ' '));
        } else {
            assert(padded =~= line);
        }
    }
    let tc = chars_of(text);
    let mut i: usize = 0;
    while i < tc.len()
        invariant
            i <= tc@.len(),
            tc@ == text@,
            col + tc@.len() <= usize::MAX,
            padded.len() <= chars@.len(),
            chars@.len() == if padded.len() > col + i {
                padded.len()
            } else {
                (col + i) as nat
            },
            forall|k: int|
                0 <= k < chars@.len() ==> #[trigger] chars@[k] == if col <= k < col + i {
                    tc@[k - col]
                } else {
                    padded[k]
                },
        decreases tc@.len() - i,
    {
        let pos = col + i;
        if pos < chars.len() {
            chars.set(pos, tc[i]);
        } else {
            chars.push(tc[i]);
        }
        i = i + 1;
    }
    let new_line = string_from_chars(&chars);
    proof {
        assert(new_line@ =~= overlay(padded_lines[row as int], col as nat, text@));
    }
    let ghost before = state.lines_sv();
    state.lines.set(row, new_line);
    proof {
        assert(state.lines_sv() =~= before.update(row as int, new_line@));
    }
}


/// The value of a console state.
pub struct SConsole {
    pub lines: Seq<Seq<char>>,
    pub input: Seq<char>,
    pub cursor: nat,
    pub history: Seq<Seq<char>>,
    pub history_idx: Option<nat>,
    pub history_draft: Option<(Seq<char>, nat)>,
}

impl ConsoleState {
    pub open spec fn sv(&self) -> SConsole {
        SConsole {
            lines: strings_sv(self.lines@),
            input: self.input@,
            cursor: self.cursor as nat,
            history: strings_sv(self.history@),
            history_idx: match self.history_idx {
                Some(i) => Some(i as nat),
                None => None,
            },
            history_draft: match self.history_draft {
                Some((d, c)) => Some((d@, c as nat)),
                None => None,
            },
        }
    }
}

/// The history after submitting `line`: empty lines and a repeat of the
/// newest entry are not recorded; the oldest entry goes when full.
pub open spec fn history_after_submit(h: Seq<Seq<char>>, line: Seq<char>) -> Seq<Seq<char>> {
    if line.len() == 0 || (h.len() > 0 && h.last() == line) {
        h
    } else if h.len() >= HISTORY_CAP {
        h.subrange(1, h.len() as int).push(line)
    } else {
        h.push(line)
    }
}

/// The console after submitting its input line.
pub open spec fn submit_spec(s: SConsole) -> SConsole {
    SConsole {
        input: seq![],
        cursor: 0,
        history: history_after_submit(s.history, s.input),
        history_idx: None,
        history_draft: None,
        ..s
    }
}

/// The console after typing `c` (control characters are left to
/// [`ConsoleView::handle_key`]).
pub open spec fn char_spec(s: SConsole, c: char) -> SConsole {
    if (c as u32) < 0x20 {
        s
    } else if s.input.len() < LINE_MAX {
        SConsole {
            input: s.input.insert(s.cursor as int, c),
            cursor: s.cursor + 1,
            history_idx: None,
            history_draft: None,
            ..s
        }
    } else {
        SConsole { history_idx: None, history_draft: None, ..s }
    }
}

/// The history entry shown after a step of `dir` (`-1` older, `1` newer)
/// from `idx`; `None` is the line being edited.
pub open spec fn walk_target(idx: Option<nat>, dir: int, h_len: nat) -> Option<nat> {
    match idx {
        None => if dir == -1 {
            Some((h_len - 1) as nat)
        } else {
            None
        },
        Some(i) => if dir == -1 {
            Some(
                if i > 0 {
                    (i - 1) as nat
                } else {
                    0
                },
            )
        } else if dir == 1 {
            if i + 1 >= h_len {
                None
            } else {
                Some(i + 1)
            }
        } else {
            Some(i)
        },
    }
}

/// The console after a step through the history: the line being edited
/// is saved when the walk starts, and restored when it ends.
pub open spec fn walk_spec(s: SConsole, dir: int) -> SConsole {
    if s.history.len() == 0 {
        s
    } else {
        let draft = if s.history_idx is None && dir == -1 {
            Some((s.input, s.cursor))
        } else {
            s.history_draft
        };
        match walk_target(s.history_idx, dir, s.history.len()) {
            Some(i) => SConsole {
                input: s.history[i as int],
                cursor: s.history[i as int].len(),
                history_idx: Some(i),
                history_draft: draft,
                ..s
            },
            None => match draft {
                Some((d, c)) => SConsole {
                    input: d,
                    cursor: c,
                    history_idx: None,
                    history_draft: None,
                    ..s
                },
                None => SConsole {
                    input: seq![],
                    cursor: 0,
                    history_idx: None,
                    history_draft: None,
                    ..s
                },
            },
        }
    }
}

/// The console after key `vk` (its low 16 bits name the key; `ctrl` is
/// the state of the Control key).
pub open spec fn key_spec(s: SConsole, vk: u32, ctrl: bool) -> SConsole {
    let k = vk % 0x10000;
    if k == VK_RETURN {
        submit_spec(s)
    } else if k == VK_BACK {
        if s.cursor > 0 {
            SConsole {
                input: s.input.remove(s.cursor - 1),
                cursor: (s.cursor - 1) as nat,
                history_idx: None,
                history_draft: None,
                ..s
            }
        } else {
            SConsole { history_idx: None, history_draft: None, ..s }
        }
    } else if k == VK_DELETE {
        if s.cursor < s.input.len() {
            SConsole {
                input: s.input.remove(s.cursor as int),
                history_idx: None,
                history_draft: None,
                ..s
            }
        } else {
            SConsole { history_idx: None, history_draft: None, ..s }
        }
    } else if k == VK_LEFT {
        SConsole {
            cursor: if s.cursor > 0 {
                (s.cursor - 1) as nat
            } else {
                0
            },
            ..s
        }
    } else if k == VK_RIGHT {
        SConsole {
            cursor: if s.cursor < s.input.len() {
                s.cursor + 1
            } else {
                s.cursor
            },
            ..s
        }
    } else if k == VK_HOME {
        SConsole { cursor: 0, ..s }
    } else if k == VK_END {
        SConsole { cursor: s.input.len(), ..s }
    } else if k == VK_UP {
        walk_spec(s, -1)
    } else if k == VK_DOWN {
        walk_spec(s, 1)
    } else if ctrl && vk == 0x4C {
        SConsole { lines: seq![], ..s }
    } else if ctrl && vk == 0x55 {
        SConsole { input: seq![], cursor: 0, history_idx: None, history_draft: None, ..s }
    } else {
        s
    }
}

/// The arrow keys move the cursor one character and change nothing else:
/// Right moves it one place on unless it is at the end of the input, Left
/// one place back unless it is at the start; Right then Left (or Left then
/// Right) inside the line comes back to the same state. Home and End go to
/// the start and the end of the input.
pub proof fn arrow_keys_move_one_place(s: SConsole, right: u32, left: u32, home: u32, end: u32, ctrl: bool)
    requires
        s.cursor <= s.input.len(),
        right % 0x10000 == VK_RIGHT,
        left % 0x10000 == VK_LEFT,
        home % 0x10000 == VK_HOME,
        end % 0x10000 == VK_END,
    ensures
        key_spec(s, right, ctrl).input == s.input,
        key_spec(s, right, ctrl).lines == s.lines,
        key_spec(s, right, ctrl).history == s.history,
        key_spec(s, right, ctrl).history_idx == s.history_idx,
        s.cursor < s.input.len() ==> key_spec(s, right, ctrl).cursor == s.cursor + 1,
        s.cursor == s.input.len() ==> key_spec(s, right, ctrl) == s,
        key_spec(s, left, ctrl).input == s.input,
        key_spec(s, left, ctrl).lines == s.lines,
        key_spec(s, left, ctrl).history == s.history,
        s.cursor > 0 ==> key_spec(s, left, ctrl).cursor + 1 == s.cursor,
        s.cursor == 0 ==> key_spec(s, left, ctrl) == s,
        s.cursor < s.input.len() ==> key_spec(key_spec(s, right, ctrl), left, ctrl) == s,
        s.cursor > 0 ==> key_spec(key_spec(s, left, ctrl), right, ctrl) == s,
        key_spec(s, home, ctrl) == (SConsole { cursor: 0, ..s }),
        key_spec(s, end, ctrl) == (SConsole { cursor: s.input.len(), ..s }),
{
}

/// Editing at the cursor: a printable character typed into a line with
/// room goes in at the cursor, which moves past it; Backspace removes the
/// character before the cursor and moves back onto its place; Delete
/// removes the character at the cursor, which stays. Backspace right after
/// typing a character gives the input back.
pub proof fn editing_keys_change_the_input_at_the_cursor(
    s: SConsole,
    c: char,
    back: u32,
    del: u32,
    ctrl: bool,
)
    requires
        s.cursor <= s.input.len(),
        back % 0x10000 == VK_BACK,
        del % 0x10000 == VK_DELETE,
    ensures
        (c as u32) >= 0x20 && s.input.len() < LINE_MAX ==> {
            let t = char_spec(s, c);
            &&& t.input == s.input.take(s.cursor as int) + seq![c] + s.input.skip(s.cursor as int)
            &&& t.cursor == s.cursor + 1
            &&& t.lines == s.lines
            &&& t.history == s.history
        },
        (c as u32) < 0x20 ==> char_spec(s, c) == s,
        s.cursor > 0 ==> {
            let t = key_spec(s, back, ctrl);
            &&& t.input == s.input.take(s.cursor - 1) + s.input.skip(s.cursor as int)
            &&& t.cursor + 1 == s.cursor
            &&& t.lines == s.lines
        },
        s.cursor < s.input.len() ==> {
            let t = key_spec(s, del, ctrl);
            &&& t.input == s.input.take(s.cursor as int) + s.input.skip(s.cursor + 1 as int)
            &&& t.cursor == s.cursor
            &&& t.lines == s.lines
        },
        (c as u32) >= 0x20 && s.input.len() < LINE_MAX ==> key_spec(char_spec(s, c), back, ctrl).input
            == s.input,
{
    assert(s.input.insert(s.cursor as int, c) =~= s.input.take(s.cursor as int) + seq![c]
        + s.input.skip(s.cursor as int));
    if s.cursor > 0 {
        assert(s.input.remove(s.cursor - 1) =~= s.input.take(s.cursor - 1) + s.input.skip(
            s.cursor as int,
        ));
    }
    if s.cursor < s.input.len() {
        assert(s.input.remove(s.cursor as int) =~= s.input.take(s.cursor as int) + s.input.skip(
            s.cursor + 1 as int,
        ));
    }
    if (c as u32) >= 0x20 && s.input.len() < LINE_MAX {
        let t = char_spec(s, c);
        assert(t.input.remove(s.cursor as int) =~= s.input);
    }
}

/// Whether key `vk` changes what the console shows.
pub open spec fn key_handled(vk: u32, ctrl: bool) -> bool {
    let k = vk % 0x10000;
    k == VK_RETURN || k == VK_BACK || k == VK_DELETE || k == VK_LEFT || k == VK_RIGHT || k
        == VK_HOME || k == VK_END || k == VK_UP || k == VK_DOWN || (ctrl && (vk == 0x4C || vk
        == 0x55))
}

/// Whether key `vk` scrolls the console back to the prompt.
pub open spec fn key_resets_scroll(s: SConsole, vk: u32, ctrl: bool) -> bool {
    let k = vk % 0x10000;
    if k == VK_RETURN {
        s.input.len() > 0
    } else {
        k == VK_BACK || k == VK_DELETE || k == VK_UP || k == VK_DOWN || (ctrl && (vk == 0x4C
            || vk == 0x55))
    }
}

/// What a key did: whether to repaint, and the line to evaluate, if one
/// was submitted.
pub struct KeyOutcome {
    pub repaint: bool,
    pub eval: Option<String>,
}

/// The console window's own state: how far it is scrolled back.
pub struct ConsoleView {
    /// Lines scrolled past the bottom; 0 shows the prompt at the bottom.
    pub scroll_offset: usize,
}

/// Scroll offset after a wheel turn of `delta`: three lines per notch (at
/// least one notch), back no further than `stream_len`.
pub open spec fn wheel_spec(offset: nat, delta: int, stream_len: nat) -> nat {
    let mag = if delta < 0 {
        -delta
    } else {
        delta
    };
    let steps = if mag / 120 < 1 {
        1
    } else {
        mag / 120
    };
    if delta > 0 {
        let up = if offset + steps * 3 > usize::MAX {
            usize::MAX as int
        } else {
            offset + steps * 3
        };
        if up > stream_len {
            stream_len
        } else {
            up as nat
        }
    } else if offset >= steps * 3 {
        (offset - steps * 3) as nat
    } else {
        0
    }
}

fn copy_chars(v: &Vec<char>) -> (r: Vec<char>)
    ensures
        r@ == v@,
{
    let mut r: Vec<char> = Vec::new();
    let mut i: usize = 0;
    while i < v.len()
        invariant
            i <= v@.len(),
            r@ == v@.take(i as int),
        decreases v@.len() - i,
    {
        r.push(v[i]);
        proof {
            assert(v@.take(i + 1) =~= v@.take(i as int).push(v@[i as int]));
        }
        i = i + 1;
    }
    proof {
        assert(v@.take(v@.len() as int) =~= v@);
    }
    r
}

impl ConsoleView {
    /// A view scrolled to the prompt.
    pub fn new() -> (v: ConsoleView)
        ensures
            v.scroll_offset == 0,
    {
        ConsoleView { scroll_offset: 0 }
    }

    /// Submits the input line: it is echoed after the prompt, recorded in
    /// the history, and returned for evaluation unless empty.
    pub fn submit_input(&mut self, state: &mut ConsoleState, pending: &mut Vec<String>) -> (r: Option<
        String,
    >)
        requires
            old(state).wf(),
        ensures
            final(state).wf(),
            final(state).sv() == submit_spec(old(state).sv()),
            strings_sv(final(pending)@) == strings_sv(old(pending)@).push(
                truncate_line("> "@ + old(state).input@),
            ),
            match r {
                Some(line) => line@ == old(state).input@ && line@.len() > 0,
                None => old(state).input@.len() == 0,
            },
            final(self).scroll_offset == if old(state).input@.len() > 0 {
                0
            } else {
                old(self).scroll_offset
            },
    {
        let line = string_from_chars(&state.input);
        let empty = state.input.len() == 0;
        state.input.clear();
        state.cursor = 0;
        state.history_idx = None;
        state.history_draft = None;
        let mut echo = String::new();
        push_str(&mut echo, "> ");
        push_str(&mut echo, line.as_str());
        let ghost h0 = state.history_sv();
        let hl = state.history.len();
        if !empty {
            let repeat = hl > 0 && state.history[hl - 1] == line;
            if !repeat {
                if hl >= HISTORY_CAP {
                    state.history.remove(0);
                    proof {
                        assert(strings_sv(state.history@) =~= h0.subrange(1, h0.len() as int));
                    }
                }
                let ghost mid = state.history_sv();
                state.history.push(line.clone());
                proof {
                    assert(state.history_sv() =~= mid.push(line@));
                }
            }
        }
        let ghost st = state.sv();
        proof {
            assert(st.input =~= Seq::<char>::empty());
        }
        append(pending, echo.as_str());
        if empty {
            return None;
        }
        self.scroll_offset = 0;
        Some(line)
    }

    /// Types `c` at the cursor (control characters are ignored here);
    /// returns whether the console changed.
    pub fn handle_char(&mut self, state: &mut ConsoleState, c: char) -> (changed: bool)
        requires
            old(state).wf(),
        ensures
            final(state).wf(),
            final(state).sv() == char_spec(old(state).sv(), c),
            changed == ((c as u32) >= 0x20),
            final(self).scroll_offset == if changed {
                0
            } else {
                old(self).scroll_offset
            },
    {
        if (c as u32) < 0x20 {
            return false;
        }
        state.history_idx = None;
        state.history_draft = None;
        if state.input.len() < LINE_MAX {
            state.input.insert(state.cursor, c);
            state.cursor = state.cursor + 1;
        }
        self.scroll_offset = 0;
        true
    }

    /// One step through the history: `-1` shows an older entry, `1` a
    /// newer one or, past the newest, the line being edited.
    pub fn history_walk(state: &mut ConsoleState, direction: i32)
        requires
            old(state).wf(),
        ensures
            final(state).wf(),
            final(state).sv() == walk_spec(old(state).sv(), direction as int),
    {
        let h_len = state.history.len();
        if h_len == 0 {
            return;
        }
        let next_idx: Option<usize> = match state.history_idx {
            None => {
                if direction == -1 {
                    let saved = copy_chars(&state.input);
                    state.history_draft = Some((saved, state.cursor));
                    Some(h_len - 1)
                } else {
                    None
                }
            },
            Some(i) => {
                if direction == -1 {
                    Some(
                        if i > 0 {
                            i - 1
                        } else {
                            0
                        },
                    )
                } else if direction == 1 {
                    if i + 1 >= h_len {
                        None
                    } else {
                        Some(i + 1)
                    }
                } else {
                    Some(i)
                }
            },
        };
        state.history_idx = next_idx;
        match next_idx {
            Some(i) => {
                state.input = chars_of(state.history[i].as_str());
                state.cursor = state.input.len();
            },
            None => {
                let draft = state.history_draft.take();
                match draft {
                    Some((d, c)) => {
                        state.input = d;
                        state.cursor = c;
                    },
                    None => {
                        state.input.clear();
                        state.cursor = 0;
                    },
                }
            },
        }
    }

    /// Handles key `vk` (`ctrl`: whether Control is down).
    pub fn handle_key(
        &mut self,
        state: &mut ConsoleState,
        pending: &mut Vec<String>,
        vk: u32,
        ctrl: bool,
    ) -> (r: KeyOutcome)
        requires
            old(state).wf(),
        ensures
            final(state).wf(),
            final(state).sv() == key_spec(old(state).sv(), vk, ctrl),
            r.repaint == key_handled(vk, ctrl),
            vk % 0x10000 == VK_RETURN ==> strings_sv(final(pending)@) == strings_sv(
                old(pending)@,
            ).push(truncate_line("> "@ + old(state).input@)),
            vk % 0x10000 != VK_RETURN ==> final(pending)@ == old(pending)@,
            match r.eval {
                Some(line) => vk % 0x10000 == VK_RETURN && line@ == old(state).input@,
                None => !(vk % 0x10000 == VK_RETURN && old(state).input@.len() > 0),
            },
            final(self).scroll_offset == if key_resets_scroll(old(state).sv(), vk, ctrl) {
                0
            } else {
                old(self).scroll_offset
            },
    {
        let k = vk % 0x10000;
        if k == VK_RETURN {
            let eval = self.submit_input(state, pending);
            return KeyOutcome { repaint: true, eval };
        }
        let mut repaint = true;
        if k == VK_BACK {
            state.history_idx = None;
            state.history_draft = None;
            if state.cursor > 0 {
                state.cursor = state.cursor - 1;
                state.input.remove(state.cursor);
            }
            self.scroll_offset = 0;
        } else if k == VK_DELETE {
            state.history_idx = None;
            state.history_draft = None;
            if state.cursor < state.input.len() {
                state.input.remove(state.cursor);
            }
            self.scroll_offset = 0;
        } else if k == VK_LEFT {
            if state.cursor > 0 {
                state.cursor = state.cursor - 1;
            }
        } else if k == VK_RIGHT {
            if state.cursor < state.input.len() {
                state.cursor = state.cursor + 1;
            }
        } else if k == VK_HOME {
            state.cursor = 0;
        } else if k == VK_END {
            state.cursor = state.input.len();
        } else if k == VK_UP {
            Self::history_walk(state, -1);
            self.scroll_offset = 0;
        } else if k == VK_DOWN {
            Self::history_walk(state, 1);
            self.scroll_offset = 0;
        } else if ctrl && vk == 0x4C {
            state.lines.clear();
            self.scroll_offset = 0;
            proof {
                assert(state.sv().lines =~= Seq::<Seq<char>>::empty());
            }
        } else if ctrl && vk == 0x55 {
            state.input.clear();
            state.cursor = 0;
            state.history_idx = None;
            state.history_draft = None;
            self.scroll_offset = 0;
            proof {
                assert(state.sv().input =~= Seq::<char>::empty());
            }
        } else {
            repaint = false;
        }
        KeyOutcome { repaint, eval: None }
    }

    /// Scrolls back (`delta > 0`) or forward by three lines per wheel
    /// notch, never back past the whole scrollback and prompt.
    pub fn handle_wheel(&mut self, state: &ConsoleState, delta: i16)
        requires
            state.lines@.len() < usize::MAX,
        ensures
            final(self).scroll_offset == wheel_spec(
                old(self).scroll_offset as nat,
                delta as int,
                (state.lines@.len() + 1) as nat,
            ),
    {
        let d = delta as i32;
        let mag: i32 = if d < 0 {
            -d
        } else {
            d
        };
        let q = (mag / WHEEL_DELTA) as usize;
        let steps: usize = if q < 1 {
            1
        } else {
            q
        };
        if delta > 0 {
            self.scroll_offset = self.scroll_offset.saturating_add(steps * 3);
            let stream_len = state.lines.len() + 1;
            if self.scroll_offset > stream_len {
                self.scroll_offset = stream_len;
            }
        } else {
            self.scroll_offset = self.scroll_offset.saturating_sub(steps * 3);
        }
    }
}

// ---------------------------------------------------------------------
// Routing of the console window's messages

pub const WM_PAINT: u32 = 0x000F;
pub const WM_NCCREATE: u32 = 0x0081;
pub const WM_NCDESTROY: u32 = 0x0082;
pub const WM_DPICHANGED_AFTERPARENT: u32 = 0x02E3;

/// What the console window does to itself for a message.
#[derive(Clone, Copy, PartialEq, Eq, Structural, Debug)]
pub enum ConsoleWork {
    Nothing,
    /// The window is being created: attach a fresh view to it.
    Attach,
    /// The window is going away: drop its view.
    Detach,
    /// Draw the rows.
    Paint,
    /// Take the new client size.
    Resize,
    /// A click: take the keyboard focus.
    TakeFocus,
    /// The resolution changed: drop the cached drawing resources.
    RefreshDpi,
}

/// The outcome of one message: the window's own work, whether to repaint,
/// the line to evaluate if one was submitted, and whether the default
/// child-window processing follows.
pub struct ConsoleReply {
    pub work: ConsoleWork,
    pub repaint: bool,
    pub eval: Option<String>,
    pub default: bool,
}

pub open spec fn console_work_of(msg: u32) -> ConsoleWork {
    if msg == WM_NCCREATE {
        ConsoleWork::Attach
    } else if msg == WM_NCDESTROY {
        ConsoleWork::Detach
    } else if msg == WM_PAINT {
        ConsoleWork::Paint
    } else if msg == WM_SIZE {
        ConsoleWork::Resize
    } else if msg == WM_LBUTTONDOWN {
        ConsoleWork::TakeFocus
    } else if msg == WM_DPICHANGED_AFTERPARENT {
        ConsoleWork::RefreshDpi
    } else {
        ConsoleWork::Nothing
    }
}

/// Whether default processing follows: not for the messages that the
/// console consumes (characters, keys, wheel turns and clicks).
pub open spec fn console_default_of(msg: u32) -> bool {
    !(msg == WM_CHAR || msg == WM_KEYDOWN || msg == WM_MOUSEWHEEL || msg == WM_LBUTTONDOWN)
}

/// The signed wheel rotation in the high word of `wparam`.
pub open spec fn wheel_delta_of(wparam: u64) -> int {
    signed16(high_word(wparam as int))
}

impl ConsoleView {
    /// Handles one message of the console window: characters, keys and
    /// wheel turns change the console; the rest is work for the window.
    /// `ctrl` tells whether Control is down.
    pub fn dispatch(
        &mut self,
        state: &mut ConsoleState,
        pending: &mut Vec<String>,
        msg: u32,
        wparam: u64,
        ctrl: bool,
    ) -> (r: ConsoleReply)
        requires
            old(state).wf(),
            old(state).lines@.len() < usize::MAX,
        ensures
            final(state).wf(),
            r.work == console_work_of(msg),
            r.default == console_default_of(msg),
            msg == WM_CHAR ==> if is_scalar_value(wparam as u32) {
                let c = (wparam as u32) as char;
                &&& final(state).sv() == char_spec(old(state).sv(), c)
                &&& r.repaint == ((wparam as u32) >= 0x20)
                &&& final(self).scroll_offset == if r.repaint {
                    0
                } else {
                    old(self).scroll_offset
                }
            } else {
                &&& *final(state) == *old(state)
                &&& !r.repaint
                &&& final(self).scroll_offset == old(self).scroll_offset
            },
            msg == WM_KEYDOWN ==> {
                let vk = wparam as u32;
                &&& final(state).sv() == key_spec(old(state).sv(), vk, ctrl)
                &&& r.repaint == key_handled(vk, ctrl)
                &&& final(self).scroll_offset == if key_resets_scroll(old(state).sv(), vk, ctrl) {
                    0
                } else {
                    old(self).scroll_offset
                }
                &&& (vk % 0x10000 == VK_RETURN ==> strings_sv(final(pending)@) == strings_sv(
                    old(pending)@,
                ).push(truncate_line("> "@ + old(state).input@)))
                &&& (vk % 0x10000 != VK_RETURN ==> final(pending)@ == old(pending)@)
                &&& match r.eval {
                    Some(line) => vk % 0x10000 == VK_RETURN && line@ == old(state).input@,
                    None => !(vk % 0x10000 == VK_RETURN && old(state).input@.len() > 0),
                }
            },
            msg == WM_MOUSEWHEEL ==> {
                &&& *final(state) == *old(state)
                &&& r.repaint
                &&& final(self).scroll_offset == wheel_spec(
                    old(self).scroll_offset as nat,
                    wheel_delta_of(wparam),
                    (old(state).lines@.len() + 1) as nat,
                )
            },
            msg != WM_KEYDOWN ==> final(pending)@ == old(pending)@ && r.eval is None,
            !(msg == WM_CHAR || msg == WM_KEYDOWN || msg == WM_MOUSEWHEEL) ==> {
                &&& *final(state) == *old(state)
                &&& final(self).scroll_offset == old(self).scroll_offset
                &&& r.repaint == (msg == WM_SIZE || msg == WM_SETFOCUS || msg
                    == WM_DPICHANGED_AFTERPARENT)
            },
    {
        let work = if msg == WM_NCCREATE {
            ConsoleWork::Attach
        } else if msg == WM_NCDESTROY {
            ConsoleWork::Detach
        } else if msg == WM_PAINT {
            ConsoleWork::Paint
        } else if msg == WM_SIZE {
            ConsoleWork::Resize
        } else if msg == WM_LBUTTONDOWN {
            ConsoleWork::TakeFocus
        } else if msg == WM_DPICHANGED_AFTERPARENT {
            ConsoleWork::RefreshDpi
        } else {
            ConsoleWork::Nothing
        };
        let default = !(msg == WM_CHAR || msg == WM_KEYDOWN || msg == WM_MOUSEWHEEL || msg
            == WM_LBUTTONDOWN);
        if msg == WM_CHAR {
            let code = wparam as u32;
            match char::from_u32(code) {
                Some(c) => {
                    proof {
                        vstd::utf8::char_u32_cast(c, code);
                    }
                    let changed = self.handle_char(state, c);
                    ConsoleReply { work, repaint: changed, eval: None, default }
                },
                None => ConsoleReply { work, repaint: false, eval: None, default },
            }
        } else if msg == WM_KEYDOWN {
            let out = self.handle_key(state, pending, wparam as u32, ctrl);
            ConsoleReply { work, repaint: out.repaint, eval: out.eval, default }
        } else if msg == WM_MOUSEWHEEL {
            let hw = (wparam >> 16) & 0xFFFF;
            proof {
                assert((wparam >> 16u64) & 0xFFFFu64 == (wparam / 0x10000) % 0x10000)
                    by (bit_vector);
            }
            let delta: i16 = if hw >= 0x8000 {
                (hw as i64 - 0x10000) as i16
            } else {
                hw as i16
            };
            self.handle_wheel(state, delta);
            ConsoleReply { work, repaint: true, eval: None, default }
        } else {
            ConsoleReply {
                work,
                repaint: msg == WM_SIZE || msg == WM_SETFOCUS || msg == WM_DPICHANGED_AFTERPARENT,
                eval: None,
                default,
            }
        }
    }
}

// ---------------------------------------------------------------------
// Layout of the console into visual rows

/// One visual row: its text, whether it starts the prompt line, and the
/// caret's column in it, if the caret is on it.
#[derive(Debug)]
pub struct VRow {
    pub text: String,
    pub is_prompt_head: bool,
    pub caret_col: Option<usize>,
}

impl VRow {
    pub open spec fn sv(&self) -> (Seq<char>, bool, Option<usize>) {
        (self.text@, self.is_prompt_head, self.caret_col)
    }
}

pub open spec fn rows_sv(v: Seq<VRow>) -> Seq<(Seq<char>, bool, Option<usize>)> {
    v.map_values(|r: VRow| r.sv())
}

/// The caret in the rest of a line after its first `cols` characters.
pub open spec fn shift_caret(caret: Option<usize>, cols: usize) -> Option<usize> {
    match caret {
        Some(a) => if a >= cols {
            Some((a - cols) as usize)
        } else {
            None
        },
        None => None,
    }
}

/// Rows of at most `cols` (≥ 1) characters of the non-empty `cs`: the
/// first `cols` characters form a row, the rest wraps the same way. The
/// caret lands on a full row when before its end, and on the last row
/// when within it or just after it.
pub open spec fn chunk_rows(cs: Seq<char>, cols: usize, head: bool, caret: Option<usize>) -> Seq<
    (Seq<char>, bool, Option<usize>),
>
    decreases cs.len(),
{
    if cols == 0 || cs.len() <= cols {
        seq![
            (
                cs,
                head,
                match caret {
                    Some(a) => if a <= cs.len() {
                        Some(a)
                    } else {
                        None
                    },
                    None => None,
                },
            ),
        ]
    } else {
        seq![
            (
                cs.take(cols as int),
                head,
                match caret {
                    Some(a) => if a < cols {
                        Some(a)
                    } else {
                        None
                    },
                    None => None,
                },
            ),
        ] + chunk_rows(cs.subrange(cols as int, cs.len() as int), cols, false, shift_caret(caret, cols))
    }
}

/// The visual rows of one scrollback line at `cols` columns. An empty line
/// is one empty row, carrying the caret only on the prompt line; with no
/// columns a line is an empty row followed by the whole line.
pub open spec fn wrap_spec(cs: Seq<char>, cols: usize, head: bool, caret: Option<usize>) -> Seq<
    (Seq<char>, bool, Option<usize>),
> {
    if cs.len() == 0 {
        seq![
            (
                seq![],
                head,
                if head {
                    caret
                } else {
                    None
                },
            ),
        ]
    } else if cols == 0 {
        seq![(seq![], head, None)] + chunk_rows(cs, 0, false, caret)
    } else {
        chunk_rows(cs, cols, head, caret)
    }
}

/// The texts of `rows`, one after another.
pub open spec fn concat_texts(rows: Seq<(Seq<char>, bool, Option<usize>)>) -> Seq<char>
    decreases rows.len(),
{
    if rows.len() == 0 {
        seq![]
    } else {
        rows[0].0 + concat_texts(rows.drop_first())
    }
}

/// The shape of wrapped rows: their texts make up the line; every row but
/// the last is full and the last holds 1 to `cols` characters; only the
/// first may start the prompt line.
pub open spec fn rows_shape(rows: Seq<(Seq<char>, bool, Option<usize>)>, cs: Seq<char>, cols: int) -> bool {
    &&& rows.len() >= 1
    &&& concat_texts(rows) == cs
    &&& forall|k: int| 0 <= k < rows.len() - 1 ==> (#[trigger] rows[k]).0.len() == cols
    &&& 1 <= rows[rows.len() - 1].0.len() <= cols
    &&& forall|k: int| 0 < k < rows.len() ==> !(#[trigger] rows[k]).1
}

proof fn lemma_chunk_shape(cs: Seq<char>, cols: usize, head: bool, caret: Option<usize>)
    requires
        cols >= 1,
        cs.len() >= 1,
    ensures
        rows_shape(chunk_rows(cs, cols, head, caret), cs, cols as int),
    decreases cs.len(),
{
    let rows = chunk_rows(cs, cols, head, caret);
    if cs.len() <= cols {
        assert(rows.drop_first() =~= Seq::<(Seq<char>, bool, Option<usize>)>::empty());
        assert(concat_texts(rows.drop_first()) =~= Seq::<char>::empty());
        assert(rows[0].0 == cs);
        assert(concat_texts(rows) =~= cs);
    } else {
        let rest = cs.subrange(cols as int, cs.len() as int);
        let tail = chunk_rows(rest, cols, false, shift_caret(caret, cols));
        lemma_chunk_shape(rest, cols, false, shift_caret(caret, cols));
        assert(rows.drop_first() =~= tail);
        assert(concat_texts(rows) =~= cs.take(cols as int) + rest);
        assert(cs.take(cols as int) + rest =~= cs);
        assert forall|k: int| 0 <= k < rows.len() - 1 implies (#[trigger] rows[k]).0.len() == cols by {
            if k > 0 {
                assert(rows[k] == tail[k - 1]);
            }
        }
        assert(rows[rows.len() - 1] == tail[tail.len() - 1]);
        assert forall|k: int| 0 < k < rows.len() implies !(#[trigger] rows[k]).1 by {
            assert(rows[k] == tail[k - 1]);
            if k - 1 > 0 {
            } else {
                assert(tail[0].1 == false) by {
                    reveal_with_fuel(chunk_rows, 2);
                }
            }
        }
    }
}

/// Wrapping a line at one column or more: an empty line gives one empty
/// row; otherwise the rows' texts make up the line, every row but the last
/// is full, the last holds 1 to `cols` characters, and only the first may
/// start the prompt line.
pub proof fn wrapped_rows_shape(cs: Seq<char>, cols: usize, head: bool, caret: Option<usize>)
    requires
        cols >= 1,
    ensures
        cs.len() == 0 ==> wrap_spec(cs, cols, head, caret).len() == 1 && wrap_spec(
            cs,
            cols,
            head,
            caret,
        )[0].0.len() == 0,
        cs.len() > 0 ==> rows_shape(wrap_spec(cs, cols, head, caret), cs, cols as int),
{
    if cs.len() > 0 {
        lemma_chunk_shape(cs, cols, head, caret);
    }
}

fn push_row(out: &mut Vec<VRow>, text: String, is_prompt_head: bool, caret_col: Option<usize>)
    ensures
        rows_sv(final(out)@) == rows_sv(old(out)@).push((text@, is_prompt_head, caret_col)),
{
    let ghost before = rows_sv(out@);
    out.push(VRow { text, is_prompt_head, caret_col });
    proof {
        assert(rows_sv(out@) =~= before.push((text@, is_prompt_head, caret_col)));
    }
}

fn sub_string(cs: &Vec<char>, from: usize, to: usize) -> (s: String)
    requires
        from <= to <= cs@.len(),
    ensures
        s@ == cs@.subrange(from as int, to as int),
{
    crate::let_lang::lexer::string_of(cs, from, to)
}

/// Splits one line into visual rows of `cols` characters, appending them
/// to `out`; `caret_at` is the caret's character offset in the line.
pub fn wrap_into_rows(
    line: &str,
    cols: usize,
    is_prompt_head: bool,
    caret_at: Option<usize>,
    out: &mut Vec<VRow>,
)
    ensures
        rows_sv(final(out)@) == rows_sv(old(out)@) + wrap_spec(
            line@,
            cols,
            is_prompt_head,
            caret_at,
        ),
{
    let cs = chars_of(line);
    let n = cs.len();
    if n == 0 {
        push_row(out, String::new(), is_prompt_head, if is_prompt_head { caret_at } else { None });
        return;
    }
    let ghost o0 = rows_sv(out@);
    let mut head = is_prompt_head;
    let mut caret = caret_at;
    if cols == 0 {
        push_row(out, String::new(), is_prompt_head, None);
        head = false;
    }
    let mut start: usize = 0;
    proof {
        assert(cs@.subrange(0, n as int) =~= cs@);
    }
    while cols != 0 && n - start > cols
        invariant
            start < n,
            n == cs@.len(),
            cs@ == line@,
            rows_sv(out@) + chunk_rows(cs@.subrange(start as int, n as int), cols, head, caret)
                == rows_sv(old(out)@) + wrap_spec(line@, cols, is_prompt_head, caret_at),
        decreases n - start,
    {
        let row_caret = match caret {
            Some(a) => if a < cols {
                Some(a)
            } else {
                None
            },
            None => None,
        };
        let ghost before = rows_sv(out@);
        let ghost rest = cs@.subrange(start as int, n as int);
        push_row(out, sub_string(&cs, start, start + cols), head, row_caret);
        proof {
            assert(cs@.subrange(start as int, start + cols) =~= rest.take(cols as int));
            assert(rest.subrange(cols as int, rest.len() as int) =~= cs@.subrange(
                start + cols,
                n as int,
            ));
            assert(before.push((rest.take(cols as int), head, row_caret)) + chunk_rows(
                cs@.subrange(start + cols, n as int),
                cols,
                false,
                shift_caret(caret, cols),
            ) =~= before + chunk_rows(rest, cols, head, caret));
        }
        caret = shift_caret_exec(caret, cols);
        head = false;
        start = start + cols;
    }
    let ghost rest = cs@.subrange(start as int, n as int);
    let last_caret = match caret {
        Some(a) => if a <= n - start {
            Some(a)
        } else {
            None
        },
        None => None,
    };
    let ghost before = rows_sv(out@);
    push_row(out, sub_string(&cs, start, n), head, last_caret);
    proof {
        assert(before.push((rest, head, last_caret)) =~= before + chunk_rows(rest, cols, head, caret));
    }
}

fn shift_caret_exec(caret: Option<usize>, cols: usize) -> (r: Option<usize>)
    ensures
        r == shift_caret(caret, cols),
{
    match caret {
        Some(a) => if a >= cols {
            Some(a - cols)
        } else {
            None
        },
        None => None,
    }
}

/// The caret's offset in the input, when it is past the prompt.
pub fn caret_at_for_remainder(caret_abs: usize, prompt_chars: usize) -> (r: Option<usize>)
    ensures
        r == (if caret_abs > prompt_chars {
            Some((caret_abs - prompt_chars) as usize)
        } else {
            None
        }),
{
    if caret_abs > prompt_chars {
        Some(caret_abs - prompt_chars)
    } else {
        None
    }
}

/// The visual rows of the prompt line: the prompt and as much input as
/// fits on the first row, then the rest of the input wrapped at `cols`.
/// `caret_abs` counts from the start of the prompt.
pub open spec fn prompt_rows_spec(
    input: Seq<char>,
    prompt_chars: usize,
    caret_abs: usize,
    cols: usize,
) -> Seq<(Seq<char>, bool, Option<usize>)> {
    if cols <= prompt_chars {
        seq![
            (
                seq![],
                true,
                if caret_abs <= prompt_chars {
                    Some(caret_abs)
                } else {
                    None
                },
            ),
        ] + wrap_spec(
            input,
            cols,
            false,
            if caret_abs > prompt_chars {
                Some((caret_abs - prompt_chars) as usize)
            } else {
                None
            },
        )
    } else if input.len() == 0 {
        seq![
            (
                seq![],
                true,
                Some(
                    if caret_abs < cols {
                        caret_abs
                    } else {
                        cols
                    },
                ),
            ),
        ]
    } else {
        let first_cap = cols - prompt_chars;
        let head_end = if first_cap < input.len() {
            first_cap
        } else {
            input.len() as int
        };
        let head_row = (
            input.take(head_end),
            true,
            if caret_abs <= prompt_chars + head_end {
                Some(caret_abs)
            } else {
                None
            },
        );
        if head_end == input.len() {
            seq![head_row]
        } else {
            seq![head_row] + wrap_spec(
                input.subrange(head_end, input.len() as int),
                cols,
                false,
                if caret_abs > prompt_chars + head_end {
                    Some((caret_abs - prompt_chars - head_end) as usize)
                } else {
                    None
                },
            )
        }
    }
}

/// Lays out the prompt line (`prompt_chars` wide) followed by `input`,
/// appending its rows to `out`.
pub fn wrap_prompt_row(
    input: &str,
    prompt_chars: usize,
    total_chars: usize,
    caret_abs: usize,
    cols: usize,
    out: &mut Vec<VRow>,
)
    ensures
        rows_sv(final(out)@) == rows_sv(old(out)@) + prompt_rows_spec(
            input@,
            prompt_chars,
            caret_abs,
            cols,
        ),
{
    let ghost o0 = rows_sv(out@);
    if cols <= prompt_chars {
        push_row(out, String::new(), true, if caret_abs <= prompt_chars { Some(caret_abs) } else { None });
        let ghost o1 = rows_sv(out@);
        wrap_into_rows(input, cols, false, caret_at_for_remainder(caret_abs, prompt_chars), out);
        proof {
            assert(rows_sv(out@) =~= o0 + prompt_rows_spec(input@, prompt_chars, caret_abs, cols));
        }
        return;
    }
    let first_cap = cols - prompt_chars;
    let chars = chars_of(input);
    if chars.len() == 0 {
        push_row(out, String::new(), true, Some(if caret_abs < cols { caret_abs } else { cols }));
        return;
    }
    let head_end = if first_cap < chars.len() {
        first_cap
    } else {
        chars.len()
    };
    let head_text = sub_string(&chars, 0, head_end);
    let head_caret_col = if caret_abs <= prompt_chars + head_end {
        Some(caret_abs)
    } else {
        None
    };
    push_row(out, head_text, true, head_caret_col);
    proof {
        assert(chars@.subrange(0, head_end as int) =~= input@.take(head_end as int));
    }
    if head_end == chars.len() {
        return;
    }
    let rest = sub_string(&chars, head_end, chars.len());
    let rest_caret = if caret_abs > prompt_chars + head_end {
        Some(caret_abs - prompt_chars - head_end)
    } else {
        None
    };
    let ghost o1 = rows_sv(out@);
    wrap_into_rows(rest.as_str(), cols, false, rest_caret, out);
    proof {
        assert(rows_sv(out@) =~= o0 + prompt_rows_spec(input@, prompt_chars, caret_abs, cols));
    }
}


/// All visual rows of the console at `cols` columns: every scrollback
/// line, then the prompt line with the caret.
pub open spec fn console_rows_spec(lines: Seq<Seq<char>>, input: Seq<char>, cursor: nat, cols: usize) -> Seq<
    (Seq<char>, bool, Option<usize>),
>
    decreases lines.len(),
{
    if lines.len() == 0 {
        prompt_rows_spec(input, 2, (2 + cursor) as usize, cols)
    } else {
        wrap_spec(lines[0], cols, false, None) + console_rows_spec(
            lines.subrange(1, lines.len() as int),
            input,
            cursor,
            cols,
        )
    }
}

/// Lays out the whole console at `cols` columns.
pub fn console_rows(state: &ConsoleState, cols: usize) -> (rows: Vec<VRow>)
    requires
        state.wf(),
        state.input@.len() + 2 <= usize::MAX,
    ensures
        rows_sv(rows@) == console_rows_spec(state.lines_sv(), state.input@, state.cursor as nat, cols),
{
    let mut rows: Vec<VRow> = Vec::new();
    let n = state.lines.len();
    let ghost ls = state.lines_sv();
    let mut i: usize = 0;
    proof {
        assert(rows_sv(rows@) + console_rows_spec(ls.subrange(0, n as int), state.input@, state.cursor as nat, cols)
            =~= console_rows_spec(ls, state.input@, state.cursor as nat, cols)) by {
            assert(ls.subrange(0, n as int) =~= ls);
            assert(rows_sv(rows@) =~= Seq::<(Seq<char>, bool, Option<usize>)>::empty());
        }
    }
    while i < n
        invariant
            i <= n,
            n == ls.len(),
            ls == state.lines_sv(),
            rows_sv(rows@) + console_rows_spec(ls.subrange(i as int, n as int), state.input@, state.cursor as nat, cols)
                == console_rows_spec(ls, state.input@, state.cursor as nat, cols),
        decreases n - i,
    {
        let ghost before = rows_sv(rows@);
        wrap_into_rows(state.lines[i].as_str(), cols, false, None, &mut rows);
        proof {
            let rest = ls.subrange(i as int, n as int);
            assert(rest[0] == ls[i as int]);
            assert(rest.subrange(1, rest.len() as int) =~= ls.subrange(i + 1, n as int));
            assert(rows_sv(rows@) + console_rows_spec(ls.subrange(i + 1, n as int), state.input@, state.cursor as nat, cols)
                =~= before + console_rows_spec(rest, state.input@, state.cursor as nat, cols));
        }
        i = i + 1;
    }
    let input = crate::igui::fconsole::string_from_chars(&state.input);
    let ghost before = rows_sv(rows@);
    wrap_prompt_row(input.as_str(), 2, 2 + state.input.len(), 2 + state.cursor, cols, &mut rows);
    proof {
        assert(ls.subrange(n as int, n as int) =~= Seq::<Seq<char>>::empty());
    }
    rows
}

/// The rows shown in a window of `visible` rows scrolled back by
/// `scroll_offset` from the bottom of `stream_len` rows: `top..bottom`.
pub fn visible_window(stream_len: usize, scroll_offset: usize, visible: usize) -> (r: (usize, usize))
    ensures
        r.1 == (if stream_len >= scroll_offset { stream_len - scroll_offset } else { 0 }),
        r.0 == (if r.1 >= visible { r.1 - visible } else { 0 }),
{
    let bottom = stream_len.saturating_sub(scroll_offset);
    let top = bottom.saturating_sub(visible);
    (top, bottom)
}

/// Where the console window opens in an MDI client of the given size: on
/// the right, six tenths of the width (at least 360), full height.
/// Returns `(x, width, height)`.
pub fn console_geometry(client_w: i32, client_h: i32) -> (r: (i32, i32, i32))
    requires
        client_w <= 0x1555_5555,
    ensures
        ({
            let w_full = if client_w > 400 { client_w as int } else { 400 };
            let h_full = if client_h > 200 { client_h as int } else { 200 };
            let width = if w_full * 6 / 10 > 360 { w_full * 6 / 10 } else { 360 };
            &&& r.1 == width
            &&& r.2 == h_full
            &&& r.0 == (if w_full - width > 0 { w_full - width } else { 0 })
        }),
{
    let w_full = if client_w > 400 { client_w } else { 400 };
    let h_full = if client_h > 200 { client_h } else { 200 };
    let six = w_full * 6 / 10;
    let width = if six > 360 { six } else { 360 };
    let x = if w_full - width > 0 { w_full - width } else { 0 };
    (x, width, h_full)
}

/// A client-area extent from its edges: at least one pixel.
pub fn client_extent(low: i32, high: i32) -> (r: u32)
    ensures
        r == (if high as int - low as int > 1 { high as int - low as int } else { 1 }),
{
    let d: i64 = high as i64 - low as i64;
    if d > 1 { d as u32 } else { 1 }
}

} // verus!
