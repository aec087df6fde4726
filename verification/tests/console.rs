use wf64::igui::fconsole::{ConsoleWork, WM_DPICHANGED_AFTERPARENT, WM_NCCREATE, WM_PAINT};
use wf64::igui::window::{WM_CHAR, WM_KEYDOWN, WM_LBUTTONDOWN, WM_MOUSEWHEEL, WM_SETFOCUS};
use wf64::igui::fconsole::{
    append, caret_at_for_remainder, clear_screen, flush_on_gui_thread, reset_for_restart,
    truncated, wrap_into_rows, wrap_prompt_row, write_at, ConsoleState, ConsoleView, VRow,
    HISTORY_CAP, LINE_MAX, SCROLLBACK_CAP, VK_BACK, VK_DELETE, VK_DOWN, VK_END, VK_HOME, VK_LEFT,
    VK_RETURN, VK_RIGHT, VK_UP,
};

fn console_with(lines: &[&str]) -> ConsoleState {
    let mut state = ConsoleState::new();
    let mut pending = Vec::new();
    for l in lines {
        append(&mut pending, l);
    }
    flush_on_gui_thread(&mut state, &mut pending);
    state
}

fn type_str(view: &mut ConsoleView, state: &mut ConsoleState, s: &str) {
    for c in s.chars() {
        view.handle_char(state, c);
    }
}

fn rows(v: &[VRow]) -> Vec<(String, bool, Option<usize>)> {
    v.iter().map(|r| (r.text.clone(), r.is_prompt_head, r.caret_col)).collect()
}

#[test]
fn append_queues_until_flush() {
    let mut state = ConsoleState::new();
    let mut pending = Vec::new();
    append(&mut pending, "hello");
    append(&mut pending, "world");
    assert!(state.lines.is_empty());
    assert_eq!(flush_on_gui_thread(&mut state, &mut pending), 2);
    assert!(pending.is_empty());
    assert_eq!(state.lines, vec!["hello", "world"]);
}

#[test]
fn append_truncates_at_char_boundary() {
    let long = "a".repeat(LINE_MAX - 1) + "é" + "zzz";
    let t = truncated(&long);
    assert_eq!(t.len(), LINE_MAX - 1);
    assert!(t.chars().all(|c| c == 'a'));
    let exact = "b".repeat(LINE_MAX + 10);
    assert_eq!(truncated(&exact).len(), LINE_MAX);
    assert_eq!(truncated("short"), "short");
}

#[test]
fn flush_keeps_last_lines_within_cap() {
    let mut state = ConsoleState::new();
    let mut pending = Vec::new();
    for i in 0..SCROLLBACK_CAP + 5 {
        append(&mut pending, &format!("line {i}"));
    }
    flush_on_gui_thread(&mut state, &mut pending);
    assert_eq!(state.lines.len(), SCROLLBACK_CAP);
    assert_eq!(state.lines[0], "line 5");
    assert_eq!(state.lines[SCROLLBACK_CAP - 1], format!("line {}", SCROLLBACK_CAP + 4));
}

#[test]
fn reset_for_restart_keeps_history() {
    let mut state = console_with(&["out"]);
    let mut view = ConsoleView::new();
    let mut pending = Vec::new();
    type_str(&mut view, &mut state, "1 2 +");
    view.submit_input(&mut state, &mut pending);
    type_str(&mut view, &mut state, "draft");
    reset_for_restart(&mut state);
    assert!(state.lines.is_empty());
    assert!(state.input.is_empty());
    assert_eq!(state.cursor, 0);
    assert_eq!(state.history, vec!["1 2 +"]);
}

#[test]
fn clear_screen_keeps_input() {
    let mut state = console_with(&["a", "b"]);
    let mut view = ConsoleView::new();
    type_str(&mut view, &mut state, "xy");
    clear_screen(&mut state);
    assert!(state.lines.is_empty());
    assert_eq!(state.input, vec!['x', 'y']);
    assert_eq!(state.cursor, 2);
}

#[test]
fn write_at_pads_rows_and_columns() {
    let mut state = console_with(&["abc"]);
    write_at(&mut state, 5, 2, "XY");
    assert_eq!(state.lines, vec!["abc", "", "     XY"]);
    write_at(&mut state, 1, 0, "Z");
    assert_eq!(state.lines[0], "aZc");
    write_at(&mut state, 2, 0, "1234");
    assert_eq!(state.lines[0], "aZ1234");
}

#[test]
fn submit_echoes_records_and_returns_line() {
    let mut state = ConsoleState::new();
    let mut view = ConsoleView::new();
    view.scroll_offset = 7;
    let mut pending = Vec::new();
    type_str(&mut view, &mut state, "dup *");
    let sent = view.submit_input(&mut state, &mut pending);
    assert_eq!(sent.as_deref(), Some("dup *"));
    assert_eq!(pending, vec!["> dup *"]);
    assert_eq!(state.history, vec!["dup *"]);
    assert!(state.input.is_empty());
    assert_eq!(view.scroll_offset, 0);
    // Repeating the newest entry is not recorded twice.
    type_str(&mut view, &mut state, "dup *");
    view.submit_input(&mut state, &mut pending);
    assert_eq!(state.history.len(), 1);
}

#[test]
fn submit_empty_line_echoes_only() {
    let mut state = ConsoleState::new();
    let mut view = ConsoleView::new();
    view.scroll_offset = 3;
    let mut pending = Vec::new();
    assert_eq!(view.submit_input(&mut state, &mut pending), None);
    assert_eq!(pending, vec!["> "]);
    assert!(state.history.is_empty());
    assert_eq!(view.scroll_offset, 3);
}

#[test]
fn history_is_capped() {
    let mut state = ConsoleState::new();
    let mut view = ConsoleView::new();
    let mut pending = Vec::new();
    for i in 0..HISTORY_CAP + 3 {
        type_str(&mut view, &mut state, &format!("w{i}"));
        view.submit_input(&mut state, &mut pending);
    }
    assert_eq!(state.history.len(), HISTORY_CAP);
    assert_eq!(state.history[0], "w3");
}

#[test]
fn control_characters_are_not_typed() {
    let mut state = ConsoleState::new();
    let mut view = ConsoleView::new();
    assert!(!view.handle_char(&mut state, '\u{8}'));
    assert!(state.input.is_empty());
    assert!(view.handle_char(&mut state, 'q'));
    assert_eq!(state.input, vec!['q']);
}

#[test]
fn editing_keys_move_and_delete() {
    let mut state = ConsoleState::new();
    let mut view = ConsoleView::new();
    let mut pending = Vec::new();
    type_str(&mut view, &mut state, "abcd");
    view.handle_key(&mut state, &mut pending, VK_LEFT, false);
    view.handle_key(&mut state, &mut pending, VK_LEFT, false);
    assert_eq!(state.cursor, 2);
    view.handle_key(&mut state, &mut pending, VK_BACK, false);
    assert_eq!(state.input, vec!['a', 'c', 'd']);
    assert_eq!(state.cursor, 1);
    view.handle_key(&mut state, &mut pending, VK_DELETE, false);
    assert_eq!(state.input, vec!['a', 'd']);
    view.handle_key(&mut state, &mut pending, VK_HOME, false);
    assert_eq!(state.cursor, 0);
    view.handle_key(&mut state, &mut pending, VK_END, false);
    assert_eq!(state.cursor, 2);
    view.handle_key(&mut state, &mut pending, VK_RIGHT, false);
    assert_eq!(state.cursor, 2);
    view.handle_char(&mut state, 'x');
    view.handle_key(&mut state, &mut pending, VK_HOME, false);
    view.handle_char(&mut state, '>');
    assert_eq!(state.input, vec!['>', 'a', 'd', 'x']);
    let out = view.handle_key(&mut state, &mut pending, 0x4C, false);
    assert!(!out.repaint);
    assert!(pending.is_empty());
}

#[test]
fn return_key_submits() {
    let mut state = ConsoleState::new();
    let mut view = ConsoleView::new();
    let mut pending = Vec::new();
    type_str(&mut view, &mut state, "words");
    let out = view.handle_key(&mut state, &mut pending, VK_RETURN, false);
    assert!(out.repaint);
    assert_eq!(out.eval.as_deref(), Some("words"));
    assert_eq!(pending, vec!["> words"]);
}

#[test]
fn ctrl_keys_clear() {
    let mut state = console_with(&["a"]);
    let mut view = ConsoleView::new();
    let mut pending = Vec::new();
    type_str(&mut view, &mut state, "xyz");
    view.handle_key(&mut state, &mut pending, 0x4C, true);
    assert!(state.lines.is_empty());
    assert_eq!(state.input.len(), 3);
    view.handle_key(&mut state, &mut pending, 0x55, true);
    assert!(state.input.is_empty());
    assert_eq!(state.cursor, 0);
}

#[test]
fn history_walk_restores_draft() {
    let mut state = ConsoleState::new();
    let mut view = ConsoleView::new();
    let mut pending = Vec::new();
    for w in ["one", "two"] {
        type_str(&mut view, &mut state, w);
        view.submit_input(&mut state, &mut pending);
    }
    type_str(&mut view, &mut state, "dr");
    view.handle_key(&mut state, &mut pending, VK_UP, false);
    assert_eq!(state.input.iter().collect::<String>(), "two");
    view.handle_key(&mut state, &mut pending, VK_UP, false);
    assert_eq!(state.input.iter().collect::<String>(), "one");
    view.handle_key(&mut state, &mut pending, VK_UP, false);
    assert_eq!(state.input.iter().collect::<String>(), "one");
    view.handle_key(&mut state, &mut pending, VK_DOWN, false);
    assert_eq!(state.input.iter().collect::<String>(), "two");
    view.handle_key(&mut state, &mut pending, VK_DOWN, false);
    assert_eq!(state.input.iter().collect::<String>(), "dr");
    assert_eq!(state.cursor, 2);
    assert_eq!(state.history_idx, None);
}

#[test]
fn wheel_scrolls_three_lines_per_notch() {
    let state = console_with(&["a", "b", "c", "d", "e", "f", "g", "h"]);
    let mut view = ConsoleView::new();
    view.handle_wheel(&state, 120);
    assert_eq!(view.scroll_offset, 3);
    view.handle_wheel(&state, 240);
    assert_eq!(view.scroll_offset, 9);
    view.handle_wheel(&state, 120);
    assert_eq!(view.scroll_offset, 9);
    view.handle_wheel(&state, -30);
    assert_eq!(view.scroll_offset, 6);
    view.handle_wheel(&state, -1200);
    assert_eq!(view.scroll_offset, 0);
}

#[test]
fn wrap_into_rows_chunks_and_places_caret() {
    let mut out = Vec::new();
    wrap_into_rows("abcdefg", 3, true, Some(4), &mut out);
    assert_eq!(
        rows(&out),
        vec![
            ("abc".to_string(), true, None),
            ("def".to_string(), false, Some(1)),
            ("g".to_string(), false, None),
        ]
    );
    let mut out = Vec::new();
    wrap_into_rows("abcdef", 3, false, Some(6), &mut out);
    assert_eq!(rows(&out)[1], ("def".to_string(), false, Some(3)));
    let mut out = Vec::new();
    wrap_into_rows("", 3, true, Some(0), &mut out);
    assert_eq!(rows(&out), vec![(String::new(), true, Some(0))]);
    let mut out = Vec::new();
    wrap_into_rows("xy", 0, false, Some(1), &mut out);
    assert_eq!(
        rows(&out),
        vec![(String::new(), false, None), ("xy".to_string(), false, Some(1))]
    );
}

#[test]
fn wrap_prompt_row_first_row_holds_prompt() {
    let mut out = Vec::new();
    wrap_prompt_row("abcdef", 2, 8, 5, 5, &mut out);
    assert_eq!(
        rows(&out),
        vec![("abc".to_string(), true, Some(5)), ("def".to_string(), false, None)]
    );
    let mut out = Vec::new();
    wrap_prompt_row("abcdef", 2, 8, 7, 5, &mut out);
    assert_eq!(rows(&out)[1], ("def".to_string(), false, Some(2)));
    let mut out = Vec::new();
    wrap_prompt_row("", 2, 2, 2, 10, &mut out);
    assert_eq!(rows(&out), vec![(String::new(), true, Some(2))]);
    let mut out = Vec::new();
    wrap_prompt_row("ab", 2, 4, 3, 2, &mut out);
    assert_eq!(
        rows(&out),
        vec![(String::new(), true, None), ("ab".to_string(), false, Some(1))]
    );
}

#[test]
fn caret_remainder_offsets() {
    assert_eq!(caret_at_for_remainder(5, 2), Some(3));
    assert_eq!(caret_at_for_remainder(2, 2), None);
}

#[test]
fn console_dispatch_types_and_submits() {
    let mut state = ConsoleState::new();
    let mut view = ConsoleView::new();
    let mut pending = Vec::new();
    let r = view.dispatch(&mut state, &mut pending, WM_CHAR, 'x' as u64, false);
    assert!(r.repaint && !r.default && r.eval.is_none());
    assert_eq!(r.work, ConsoleWork::Nothing);
    let r = view.dispatch(&mut state, &mut pending, WM_CHAR, 0x08, false);
    assert!(!r.repaint);
    let r = view.dispatch(&mut state, &mut pending, WM_CHAR, 0xD800, false);
    assert!(!r.repaint);
    assert_eq!(state.input, vec!['x']);
    let r = view.dispatch(&mut state, &mut pending, WM_KEYDOWN, VK_RETURN as u64, false);
    assert_eq!(r.eval, Some("x".to_string()));
    assert!(r.repaint && !r.default);
    assert_eq!(pending, vec!["> x".to_string()]);
    assert!(state.input.is_empty());
}

#[test]
fn console_dispatch_wheel_and_window_work() {
    let mut state = console_with(&["a", "b", "c", "d", "e"]);
    let mut view = ConsoleView::new();
    let mut pending = Vec::new();
    let r = view.dispatch(&mut state, &mut pending, WM_MOUSEWHEEL, 0x0078_0000, false);
    assert!(r.repaint && !r.default);
    assert_eq!(view.scroll_offset, 3);
    view.dispatch(&mut state, &mut pending, WM_MOUSEWHEEL, 0xFF88_0000, false);
    assert_eq!(view.scroll_offset, 0);
    let r = view.dispatch(&mut state, &mut pending, WM_NCCREATE, 0, false);
    assert_eq!(r.work, ConsoleWork::Attach);
    assert!(r.default && !r.repaint);
    let r = view.dispatch(&mut state, &mut pending, WM_PAINT, 0, false);
    assert_eq!(r.work, ConsoleWork::Paint);
    let r = view.dispatch(&mut state, &mut pending, WM_LBUTTONDOWN, 0, false);
    assert_eq!(r.work, ConsoleWork::TakeFocus);
    assert!(!r.default);
    let r = view.dispatch(&mut state, &mut pending, WM_SETFOCUS, 0, false);
    assert!(r.repaint && r.default);
    let r = view.dispatch(&mut state, &mut pending, WM_DPICHANGED_AFTERPARENT, 0, false);
    assert_eq!(r.work, ConsoleWork::RefreshDpi);
    assert!(pending.is_empty());
}

#[test]
fn wrapped_rows_make_up_the_line() {
    let mut out = Vec::new();
    wrap_into_rows("abcdefg", 3, true, None, &mut out);
    let texts: Vec<String> = out.iter().map(|r| r.text.clone()).collect();
    assert_eq!(texts, vec!["abc", "def", "g"]);
    assert_eq!(texts.concat(), "abcdefg");
    assert!(out[0].is_prompt_head && !out[1].is_prompt_head && !out[2].is_prompt_head);
    let mut out = Vec::new();
    wrap_into_rows("", 3, false, None, &mut out);
    assert_eq!(out.len(), 1);
    assert_eq!(out[0].text, "");
}
