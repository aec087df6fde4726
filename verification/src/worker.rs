//! The console transcript of an evaluation: what is shown of the submitted
//! source before it runs, and how its output is split into console lines.

use vstd::prelude::*;

use crate::igui::fconsole::{append, reset_for_restart, truncate_line, ConsoleState};
use crate::let_lang::lexer::chars_of;
use crate::let_lang::parser::strings_sv;
use crate::lines::{lines_of, lines_spec, strings_view};
use crate::text::{decimal, push_decimal, push_str};

verus! {

/// Most source lines echoed before a multi-line evaluation.
pub const ECHO_LINES: usize = 8;

pub open spec fn elided_note(extra: nat) -> Seq<char> {
    "    … "@ + decimal(extra) + " more line(s) elided"@
}

/// The lines shown before evaluating `src`: nothing for a single line;
/// otherwise a header, its first eight lines, a note of how many more
/// there are, and a footer.
pub open spec fn eval_header_spec(src: Seq<char>) -> Seq<Seq<char>> {
    let ls = lines_spec(src);
    if ls.len() <= 1 {
        seq![]
    } else {
        seq!["─── eval ───"@] + ls.take(
            if ls.len() < 8 {
                ls.len() as int
            } else {
                8
            },
        ) + (if ls.len() > 8 {
            seq![elided_note((ls.len() - 8) as nat)]
        } else {
            seq![]
        }) + seq!["─── result ───"@]
    }
}

fn owned(s: &str) -> (r: String)
    ensures
        r@ == s@,
{
    let mut r = String::new();
    push_str(&mut r, s);
    r
}

/// The console lines shown before evaluating `source`.
pub fn eval_header_lines(source: &str) -> (r: Vec<String>)
    ensures
        strings_view(r@) == eval_header_spec(source@),
{
    let ls = lines_of(source);
    let n = ls.len();
    let mut out: Vec<String> = Vec::new();
    if n <= 1 {
        proof {
            assert(strings_view(out@) =~= seq![]);
        }
        return out;
    }
    out.push(owned("─── eval ───"));
    let shown = if n < ECHO_LINES {
        n
    } else {
        ECHO_LINES
    };
    let mut i: usize = 0;
    while i < shown
        invariant
            i <= shown,
            shown <= n,
            n == ls@.len(),
            strings_view(out@) == seq!["─── eval ───"@] + strings_view(ls@).take(i as int),
        decreases shown - i,
    {
        let ghost before = strings_view(out@);
        out.push(ls[i].clone());
        proof {
            assert(strings_view(out@) =~= before.push(ls@[i as int]@));
            assert(strings_view(ls@).take(i + 1) =~= strings_view(ls@).take(i as int).push(
                ls@[i as int]@,
            ));
        }
        i = i + 1;
    }
    let ghost mid = strings_view(out@);
    if n > ECHO_LINES {
        let mut note = String::new();
        push_str(&mut note, "    … ");
        push_decimal(&mut note, (n - ECHO_LINES) as u128);
        push_str(&mut note, " more line(s) elided");
        out.push(note);
    }
    let ghost mid2 = strings_view(out@);
    out.push(owned("─── result ───"));
    proof {
        assert(strings_view(out@) =~= eval_header_spec(source@));
    }
    out
}

/// `cs` without its trailing line feeds.
pub open spec fn trim_trailing_lf(cs: Seq<char>) -> Seq<char>
    decreases cs.len(),
{
    if cs.len() > 0 && cs.last() == '\n' {
        trim_trailing_lf(cs.drop_last())
    } else {
        cs
    }
}

/// The console lines of an evaluation's output: its lines once trailing
/// line feeds are removed.
pub fn output_lines(output: &str) -> (r: Vec<String>)
    ensures
        strings_view(r@) == lines_spec(trim_trailing_lf(output@)),
{
    let cs = chars_of(output);
    let mut end = cs.len();
    proof {
        assert(cs@.take(cs@.len() as int) =~= cs@);
    }
    while end > 0 && cs[end - 1] == '\n'
        invariant
            end <= cs@.len(),
            trim_trailing_lf(cs@.take(end as int)) == trim_trailing_lf(cs@),
        decreases end,
    {
        proof {
            assert(cs@.take(end as int).drop_last() =~= cs@.take(end - 1));
        }
        end = end - 1;
    }
    let t = crate::let_lang::lexer::string_of(&cs, 0, end);
    proof {
        assert(cs@.subrange(0, end as int) =~= cs@.take(end as int));
        assert(output@ == cs@);
    }
    lines_of(t.as_str())
}

/// An event from the GUI that the worker acts on.
pub enum WorkerEvent {
    /// Source submitted for evaluation.
    EvalBuffer { source: String },
    /// The user asked for a fresh session.
    ForthRestart,
    /// The frame is closing.
    FrameClose,
    /// Anything else.
    Other,
}

/// What the worker does next.
pub enum WorkerStep {
    /// Evaluate `source` in the session.
    Eval { source: String },
    /// Drop the session and boot a fresh one, without the welcome lines.
    Reboot,
    /// Leave the loop.
    Stop,
    /// Wait for the next event.
    Wait,
}

pub open spec fn restart_notice() -> Seq<char> {
    "∴ restart requested — fresh session below."@
}

pub open spec fn closing_notice() -> Seq<char> {
    "∴ frame closing"@
}

/// Handles one event: a restart clears the console (its history is
/// kept) and announces the fresh session; a closing frame is announced;
/// the evaluation itself is left to the session.
pub fn worker_step(state: &mut ConsoleState, pending: &mut Vec<String>, ev: WorkerEvent) -> (r:
    WorkerStep)
    requires
        old(state).wf(),
    ensures
        final(state).wf(),
        match ev {
            WorkerEvent::EvalBuffer { source } => {
                &&& r is Eval
                &&& r->source@ == source@
                &&& *final(state) == *old(state)
                &&& final(pending)@ == old(pending)@
            },
            WorkerEvent::ForthRestart => {
                &&& r is Reboot
                &&& final(state).lines@.len() == 0
                &&& final(state).input@.len() == 0
                &&& final(state).cursor == 0
                &&& final(state).history_idx is None
                &&& final(state).history_draft is None
                &&& final(state).history == old(state).history
                &&& strings_sv(final(pending)@) == strings_sv(old(pending)@).push(
                    truncate_line(restart_notice()),
                ).push(truncate_line(Seq::empty()))
            },
            WorkerEvent::FrameClose => {
                &&& r is Stop
                &&& *final(state) == *old(state)
                &&& strings_sv(final(pending)@) == strings_sv(old(pending)@).push(
                    truncate_line(closing_notice()),
                )
            },
            WorkerEvent::Other => {
                &&& r is Wait
                &&& *final(state) == *old(state)
                &&& final(pending)@ == old(pending)@
            },
        },
{
    match ev {
        WorkerEvent::EvalBuffer { source } => WorkerStep::Eval { source },
        WorkerEvent::ForthRestart => {
            reset_for_restart(state);
            append(pending, "∴ restart requested — fresh session below.");
            proof {
                reveal_strlit("");
                assert(""@ =~= Seq::<char>::empty());
            }
            append(pending, "");
            WorkerStep::Reboot
        },
        WorkerEvent::FrameClose => {
            append(pending, "∴ frame closing");
            WorkerStep::Stop
        },
        WorkerEvent::Other => WorkerStep::Wait,
    }
}

/// The welcome lines of the first session; none after a restart.
pub open spec fn intro_spec(intro: bool) -> Seq<Seq<char>> {
    if intro {
        seq![
            "∴ WF64 — Forth IDE"@,
            Seq::empty(),
            "Type at the prompt, press Enter."@,
            "Editor: Ctrl+Shift+E   Console: Ctrl+Shift+R   Restart: Ctrl+Shift+F5"@,
            Seq::empty(),
        ]
    } else {
        seq![]
    }
}

/// The welcome lines shown before a session boots.
pub fn intro_lines(intro: bool) -> (r: Vec<String>)
    ensures
        strings_view(r@) == intro_spec(intro),
{
    let mut r: Vec<String> = Vec::new();
    if intro {
        r.push(owned("∴ WF64 — Forth IDE"));
        r.push(String::new());
        r.push(owned("Type at the prompt, press Enter."));
        r.push(owned("Editor: Ctrl+Shift+E   Console: Ctrl+Shift+R   Restart: Ctrl+Shift+F5"));
        r.push(String::new());
        proof {
            assert(strings_view(r@) =~= intro_spec(intro));
        }
    } else {
        proof {
            assert(strings_view(r@) =~= intro_spec(intro));
        }
    }
    r
}

/// The line reporting that a session could not be booted.
pub fn boot_failed_line(error: &str) -> (r: String)
    ensures
        r@ == "∴ session boot failed: "@ + error@,
{
    let mut r = String::new();
    push_str(&mut r, "∴ session boot failed: ");
    push_str(&mut r, error);
    r
}

/// The line reporting the loading of the core source at `path`: loaded,
/// or failed with `error`.
pub fn core_load_line(path: &str, error: Option<&str>) -> (r: String)
    ensures
        r@ == match error {
            None => "∴ loaded "@ + path@,
            Some(e) => "∴ core.f load failed: "@ + e@,
        },
{
    let mut r = String::new();
    match error {
        None => {
            push_str(&mut r, "∴ loaded ");
            push_str(&mut r, path);
        },
        Some(e) => {
            push_str(&mut r, "∴ core.f load failed: ");
            push_str(&mut r, e);
        },
    }
    r
}

} // verus!
