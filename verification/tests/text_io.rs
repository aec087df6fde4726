use wf64::igui::fconsole::{
    client_extent, console_geometry, console_rows, visible_window, ConsoleState, ConsoleView,
};
use wf64::lines::lines_of;
use wf64::newfactor::protocol::{load_command_for, load_source_command};
use wf64::newfactor::protocol::{
    bootstrap_script, escape_backslashes, eval_message, load_command, parse_i64, parse_stack,
    stack_probe, SentinelScan,
};
use wf64::runtime::report::{brk_text, dot_s_text, print_int_text, trace_text, BrkState};
use wf64::worker::{eval_header_lines, output_lines};
use wf64::worker::{
    boot_failed_line, core_load_line, intro_lines, worker_step, WorkerEvent, WorkerStep,
};

#[test]
fn lines_like_str_lines() {
    for text in ["", "a", "a\n", "a\r\nb", "a\n\nb\n", "\n", "x\ry\n"] {
        let want: Vec<String> = text.lines().map(|l| l.to_string()).collect();
        assert_eq!(lines_of(text), want, "{text:?}");
    }
}

#[test]
fn print_int_is_signed() {
    assert_eq!(print_int_text(42), "42 ");
    assert_eq!(print_int_text(u64::MAX), "-1 ");
    assert_eq!(print_int_text(0x8000_0000_0000_0000), "-9223372036854775808 ");
}

#[test]
fn dot_s_shows_depth_and_cells() {
    assert_eq!(dot_s_text(5, 0x1008, 0x1000, 0x2000, &vec![]), "[empty sp=0x1008 rp=0x2000]");
    assert_eq!(
        dot_s_text(3, 0xFF0, 0x1000, 0x2000, &vec![2, u64::MAX]),
        "[3 sp=0xff0 rp=0x2000] 3 2 -1 "
    );
}

#[test]
fn trace_line_pads_name() {
    assert_eq!(trace_text("dup", 7, 0x1000, 0x1000, &vec![]), "» dup               ( 7 )\n");
    assert_eq!(trace_text("x", 7, 0x1008, 0x1000, &vec![]), format!("» {:<16}  ( empty )\n", "x"));
    assert_eq!(trace_text("+", 1, 0xFF8, 0x1000, &vec![2]), format!("» {:<16}  ( 1 2 )\n", "+"));
}

#[test]
fn breakpoint_dump_layout() {
    let b = BrkState {
        tos: u64::MAX,
        dsp: 0xFF8,
        sp0: 0x1000,
        rsp: 0x2FF0,
        up: 0x3000,
        data: vec![16],
        rstack: vec![0xAB, 0xCD],
        base: 10,
        state: 0,
        latest: 0x500,
        here: 0x600,
        latestxt: 0x510,
        handler: 0,
        throw_code: 0,
        current: 0x700,
        forth_wid: 0x700,
        order_count: 1,
        context: vec![0x700],
    };
    let text = brk_text(&b);
    let mut want = String::new();
    want.push_str("\n=== Forth Breakpoint ==================================================\n");
    want.push_str("Data stack [2]:\n");
    want.push_str(&format!("  TOS: {:>20}  {:#018x}\n", -1i64, u64::MAX));
    want.push_str(&format!("  {:>3}: {:>20}  {:#018x}\n", 1, 16i64, 16u64));
    want.push_str("Return stack [2 cells, showing 2]:\n");
    want.push_str(&format!("  [0]: {:#018x}\n", 0xABu64));
    want.push_str(&format!("  [1]: {:#018x}\n", 0xCDu64));
    want.push_str("User variables:\n");
    want.push_str(&format!("  BASE={:<5}  STATE={:<3}  HERE={:#x}  LATEST={:#x}\n", 10, 0, 0x600, 0x500));
    want.push_str(&format!("  LATESTXT={:#x}  HANDLER={:#x}  THROW={}\n", 0x510, 0, 0));
    want.push_str(&format!("  CURRENT={:#x}  FORTH-WID={:#x}  ORDER={}\n", 0x700, 0x700, 1));
    want.push_str("  CONTEXT[0]=0x700\n");
    want.push_str("=======================================================================\n");
    assert_eq!(text, want);
}

#[test]
fn factor_messages() {
    assert_eq!(escape_backslashes(r"E:\NewFactor"), r"E:\\NewFactor");
    let boot = bootstrap_script(r"E:\NewFactor");
    assert!(boot.starts_with("USE: vocabs.loader\n\"E:\\\\NewFactor\" add-vocab-root\n"));
    assert!(boot.ends_with("\"%%NF-READY%%\\n\" write flush\n"));
    assert_eq!(eval_message("2 3 +"), "2 3 +\n\"%%NF-DONE%%\\n\" write flush\n");
    assert!(stack_probe().ends_with("\"%%NF-STACK%%\\n\" write flush\n"));
    assert_eq!(load_command(r"a\b.fth", true), "\"a\\\\b.fth\" forth-load");
    assert_eq!(load_command("x.factor", false), "\"x.factor\" load-file");
}

#[test]
fn sentinel_scan_collects_until_sentinel() {
    let mut scan = SentinelScan::new();
    assert!(!scan.feed("5\n", "%%NF-DONE%%"));
    assert!(!scan.feed("ok\r\n", "%%NF-DONE%%"));
    assert!(scan.feed("%%NF-DONE%%\r\n", "%%NF-DONE%%"));
    assert_eq!(scan.output, "5\nok\r\n");
}

#[test]
fn integers_parse_like_std() {
    for t in ["0", "-0", "+7", "42", "-9223372036854775808", "9223372036854775807",
              "9223372036854775808", "-9223372036854775809", "", "-", "+", "1a", "99999999999999999999999"] {
        assert_eq!(parse_i64(t), t.parse::<i64>().ok(), "{t:?}");
    }
    assert_eq!(parse_stack("3\n  -4 \nnot\n5\n"), vec![3, -4, 5]);
}

#[test]
fn eval_transcript() {
    assert!(eval_header_lines("1 2 +").is_empty());
    assert_eq!(eval_header_lines("a\nb"), vec!["─── eval ───", "a", "b", "─── result ───"]);
    let src: String = (1..=10).map(|i| format!("l{i}\n")).collect();
    let h = eval_header_lines(&src);
    assert_eq!(h.len(), 11);
    assert_eq!(h[8], "l8");
    assert_eq!(h[9], "    … 2 more line(s) elided");
    assert_eq!(output_lines("1 2 ok\n\n"), vec!["1 2 ok"]);
    assert!(output_lines("\n\n").is_empty());
    assert_eq!(output_lines("a\r\nb\n"), vec!["a", "b"]);
}

#[test]
fn console_layout_window() {
    let mut state = ConsoleState::new();
    let mut pending = Vec::new();
    wf64::igui::fconsole::append(&mut pending, "abcdef");
    wf64::igui::fconsole::flush_on_gui_thread(&mut state, &mut pending);
    let mut view = ConsoleView::new();
    view.handle_char(&mut state, 'x');
    let rows = console_rows(&state, 4);
    let got: Vec<(String, bool, Option<usize>)> =
        rows.iter().map(|r| (r.text.clone(), r.is_prompt_head, r.caret_col)).collect();
    assert_eq!(
        got,
        vec![
            ("abcd".to_string(), false, None),
            ("ef".to_string(), false, None),
            ("x".to_string(), true, Some(3)),
        ]
    );
    assert_eq!(visible_window(10, 3, 4), (3, 7));
    assert_eq!(visible_window(2, 5, 4), (0, 0));
    assert_eq!(console_geometry(1000, 700), (400, 600, 700));
    assert_eq!(console_geometry(100, 50), (40, 360, 200));
    assert_eq!(client_extent(10, 10), 1);
    assert_eq!(client_extent(0, 640), 640);
}

#[test]
fn worker_restart_clears_console_but_keeps_history() {
    let mut state = ConsoleState::new();
    let mut pending = Vec::new();
    state.lines.push("old output".to_string());
    state.history.push("1 2 +".to_string());
    state.input = vec!['x'];
    state.cursor = 1;
    let step = worker_step(&mut state, &mut pending, WorkerEvent::ForthRestart);
    assert!(matches!(step, WorkerStep::Reboot));
    assert!(state.lines.is_empty() && state.input.is_empty());
    assert_eq!(state.cursor, 0);
    assert_eq!(state.history, vec!["1 2 +".to_string()]);
    assert_eq!(
        pending,
        vec!["∴ restart requested — fresh session below.".to_string(), String::new()]
    );
}

#[test]
fn worker_passes_source_on_and_stops_on_close() {
    let mut state = ConsoleState::new();
    let mut pending = Vec::new();
    match worker_step(&mut state, &mut pending, WorkerEvent::EvalBuffer { source: "2 3 + .".to_string() }) {
        WorkerStep::Eval { source } => assert_eq!(source, "2 3 + ."),
        _ => panic!("expected an evaluation"),
    }
    assert!(pending.is_empty());
    assert!(matches!(worker_step(&mut state, &mut pending, WorkerEvent::Other), WorkerStep::Wait));
    assert!(matches!(worker_step(&mut state, &mut pending, WorkerEvent::FrameClose), WorkerStep::Stop));
    assert_eq!(pending, vec!["∴ frame closing".to_string()]);
}

#[test]
fn boot_lines_read_as_the_banner() {
    let intro = intro_lines(true);
    assert_eq!(intro.len(), 5);
    assert_eq!(intro[0], "∴ WF64 — Forth IDE");
    assert_eq!(intro[1], "");
    assert!(intro_lines(false).is_empty());
    assert_eq!(boot_failed_line("no kernel"), "∴ session boot failed: no kernel");
    assert_eq!(core_load_line("lib/core.f", None), "∴ loaded lib/core.f");
    assert_eq!(core_load_line("lib/core.f", Some("missing")), "∴ core.f load failed: missing");
}

#[test]
fn source_files_load_by_extension() {
    assert_eq!(load_source_command("lib/core.fth"), "\"lib/core.fth\" forth-load");
    assert_eq!(load_source_command("lib/x.factor"), "\"lib/x.factor\" load-file");
    assert_eq!(load_source_command("fth"), "\"fth\" load-file");
    assert_eq!(load_source_command("a\\b.fth"), "\"a\\\\b.fth\" forth-load");
}

#[test]
fn load_command_follows_the_extension() {
    assert_eq!(load_command_for("a.fth", Some("fth")), "\"a.fth\" forth-load");
    assert_eq!(load_command_for("a.fs", Some("fs")), "\"a.fs\" load-file");
    assert_eq!(load_command_for("a.FTH", Some("FTH")), "\"a.FTH\" load-file");
    assert_eq!(load_command_for("a", None), "\"a\" load-file");
}

#[test]
fn bare_names_load_by_the_text_after_the_last_dot() {
    assert_eq!(load_source_command("core.fth"), "\"core.fth\" forth-load");
    assert_eq!(load_source_command("a.b.fth"), "\"a.b.fth\" forth-load");
    assert_eq!(load_source_command("core.fth.bak"), "\"core.fth.bak\" load-file");
    assert_eq!(load_source_command("core"), "\"core\" load-file");
    assert_eq!(load_source_command("core."), "\"core.\" load-file");
}

#[test]
fn slash_paths_load_by_the_file_name() {
    assert_eq!(load_source_command("lib/core.fth"), "\"lib/core.fth\" forth-load");
    assert_eq!(load_source_command("/src/v1.2/core.fth"), "\"/src/v1.2/core.fth\" forth-load");
    assert_eq!(load_source_command("lib.fth/core"), "\"lib.fth/core\" load-file");
    assert_eq!(load_source_command("./a/core.factor"), "\"./a/core.factor\" load-file");
}
