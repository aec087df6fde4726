use wf64::runtime::machine::{sb_int_bytes, string_bytes_equal};
use wf64::runtime::builder::StringBuilder;
use wf64::runtime::tokens::{
    buffered_code_body, buffered_code_source, code_tail_text, join_code_body, to_in_error,
    CodeLine, CodeLines,
};
use wf64::runtime::slurp::{slurp_path, SlurpStack};
use wf64::runtime::libm::{libm_address_table, libm_functions, libm_table_from};
use wf64::runtime::machine::{
    builder_length, builder_with_length, emit_let_trampoline, encode_codepoint, numbered_name,
    code_asm_source, root_regions_ok, s_literal_stub, sb_append_plan, stack_depth,
};
use wf64::runtime::session::{
    live_line, reset_code_session, reset_let_session, with_io, Io, IoSlot, KeyRead, LineRead,
};
use wf64::runtime::tokens::{
    code_body_on_line, find_code_terminator, find_end_token, is_ident_byte, let_source,
    normalize_float_token,
};

fn buffered(input: &str) -> Io {
    let mut io = Io::new_buffered();
    if let Io::Buffered { input: i, .. } = &mut io {
        i.extend_from_slice(input.as_bytes());
    }
    io
}

fn line(io: &mut Io, cap: usize) -> Option<(Vec<u8>, usize)> {
    match io.read_line(cap) {
        LineRead::Eof => None,
        LineRead::Line { bytes, count } => Some((bytes, count)),
        LineRead::Live => panic!("buffered I/O read live"),
    }
}

fn key(r: KeyRead) -> u64 {
    match r {
        KeyRead::Value(v) => v,
        KeyRead::Live => panic!("buffered I/O read live"),
    }
}

#[test]
fn read_line_splits_lines_and_strips_cr() {
    let mut io = buffered("ab\r\ncd\nlast");
    assert_eq!(line(&mut io, 80), Some((b"ab\r".to_vec(), 2)));
    assert_eq!(line(&mut io, 80), Some((b"cd".to_vec(), 2)));
    assert_eq!(line(&mut io, 80), Some((b"last".to_vec(), 4)));
    assert_eq!(line(&mut io, 80), None);
}

#[test]
fn read_line_respects_capacity_and_blank_lines() {
    let mut io = buffered("abcdef\n\nx");
    assert_eq!(line(&mut io, 3), Some((b"abc".to_vec(), 3)));
    assert_eq!(line(&mut io, 3), Some((Vec::new(), 0)));
    assert_eq!(line(&mut io, 0), Some((Vec::new(), 0)));
    assert_eq!(line(&mut io, 3), Some((b"x".to_vec(), 1)));
    assert_eq!(line(&mut io, 0), None);
}

#[test]
fn key_q_holds_key_for_read_key() {
    let mut io = buffered("pq");
    assert_eq!(key(io.key_q()), u64::MAX);
    assert_eq!(key(io.key_q()), u64::MAX);
    assert_eq!(key(io.read_key()), b'p' as u64);
    assert_eq!(key(io.read_key()), b'q' as u64);
    assert_eq!(key(io.read_key()), 0);
    assert_eq!(key(io.key_q()), 0);
}

#[test]
fn live_io_defers_to_standard_input() {
    let mut io = Io::Live { pending_key: None };
    assert!(matches!(io.read_line(10), LineRead::Live));
    assert!(matches!(io.read_line(0), LineRead::Line { count: 0, .. }));
    assert!(matches!(io.read_key(), KeyRead::Live));
    assert_eq!(io.accept_polled_key(Some(0x41)), u64::MAX);
    assert_eq!(key(io.key_q()), u64::MAX);
    assert_eq!(key(io.read_key()), 0x41);
    assert_eq!(io.accept_polled_key(Some(0x3B1)), 0);
    assert!(!io.write_bytes(b"x"));
}

#[test]
fn live_line_strips_line_end_and_cuts() {
    assert_eq!(live_line(b"hello\r\n", 80), b"hello".to_vec());
    assert_eq!(live_line(b"hello\n", 3), b"hel".to_vec());
    assert_eq!(live_line(b"x\r", 80), b"x".to_vec());
}

#[test]
fn write_bytes_appends_to_buffer() {
    let mut io = Io::new_buffered();
    assert!(io.write_bytes(b"ok "));
    assert!(io.write_bytes(b"42"));
    match io {
        Io::Buffered { output, .. } => assert_eq!(output, b"ok 42".to_vec()),
        Io::Live { .. } => panic!(),
    }
}

#[test]
fn advance_cursor_skips_input() {
    let mut io = buffered("abc\ndef");
    io.advance_io_cursor(4);
    assert_eq!(line(&mut io, 10), Some((b"def".to_vec(), 3)));
}

#[test]
fn with_io_restores_previous() {
    let mut slot = IoSlot { current: Some(Io::Live { pending_key: Some(7) }) };
    let (n, after) = with_io(&mut slot, buffered("z"), |mut s: IoSlot| {
        let v = match s.current.as_mut().unwrap().read_key() {
            KeyRead::Value(v) => v,
            KeyRead::Live => 0,
        };
        (v, s)
    });
    assert_eq!(n, b'z' as u64);
    assert!(matches!(after, Io::Buffered { in_cursor: 1, .. }));
    assert!(matches!(slot.current, Some(Io::Live { pending_key: Some(7) })));
}

#[test]
fn sessions_reset() {
    let mut jits = vec![1, 2, 3];
    reset_let_session(&mut jits);
    assert!(jits.is_empty());
    let mut code = vec!["a"];
    reset_code_session(&mut code);
    assert!(code.is_empty());
}

#[test]
fn normalize_float_tokens() {
    assert_eq!(normalize_float_token("1.5").as_deref(), Some("1.5"));
    assert_eq!(normalize_float_token("  2.5e3 ").as_deref(), Some("2.5e3"));
    assert_eq!(normalize_float_token("1e").as_deref(), Some("1e0"));
    assert_eq!(normalize_float_token("1E+").as_deref(), Some("1E+0"));
    assert_eq!(normalize_float_token("3e-").as_deref(), Some("3e-0"));
    assert_eq!(normalize_float_token("12"), None);
    assert_eq!(normalize_float_token(""), None);
    assert_eq!(normalize_float_token(" . ").as_deref(), Some("."));
    assert_eq!(normalize_float_token("\u{3000}4.\u{2003}").as_deref(), Some("4."));
}

#[test]
fn end_token_stands_alone() {
    assert_eq!(find_end_token(b" (x) -> (y) = x END rest"), Some((&b" (x) -> (y) = x "[..], 19)));
    assert_eq!(find_end_token(b"SEND END"), Some((&b"SEND "[..], 8)));
    assert_eq!(find_end_token(b"ENDX END_ ENDS"), None);
    assert_eq!(find_end_token(b"END"), Some((&b""[..], 3)));
    assert!(is_ident_byte(b'_') && is_ident_byte(b'7') && !is_ident_byte(b'-'));
}

#[test]
fn code_terminator_consumes_line_end() {
    assert_eq!(find_code_terminator(b"mov rax, 1 ;CODE\r\nnext"), Some((&b"mov rax, 1 "[..], 18)));
    assert_eq!(find_code_terminator(b"x ;CODE"), Some((&b"x "[..], 7)));
    assert_eq!(find_code_terminator(b"x;CODE y"), None);
    assert_eq!(find_code_terminator(b";CODEX"), None);
}

#[test]
fn let_and_code_sources() {
    assert_eq!(let_source(b" (x) -> (y) = x ").unwrap(), "LET (x) -> (y) = x END");
    assert_eq!(let_source(&[0xFF]).unwrap_err(), "LET body is not UTF-8");
    assert_eq!(code_body_on_line(b"ret ;CODE\n").unwrap().unwrap(), ("ret ".to_string(), 10));
    assert!(code_body_on_line(b"ret").is_none());
    assert_eq!(numbered_name("let_user_", 7), "let_user_0007");
    assert_eq!(numbered_name("code_mod_", 12345), "code_mod_12345");
    assert_eq!(
        code_asm_source("f", "nop"),
        ".intel_syntax noprefix\n.text\nproc(f)\nnop\nnext()\nendp()\n"
    );
}

#[test]
fn trampoline_same_arity() {
    let code = emit_let_trampoline(0x1122334455667788, 1, 1);
    let mut want = vec![0x48, 0x8B, 0x8B, 0x18, 0x12, 0x00, 0x00, 0x48, 0x89, 0xCA];
    want.extend_from_slice(&[0x49, 0x89, 0xE4, 0x48, 0x83, 0xE4, 0xF0, 0x48, 0x83, 0xEC, 0x20]);
    want.extend_from_slice(&[0x48, 0xB8, 0x88, 0x77, 0x66, 0x55, 0x44, 0x33, 0x22, 0x11]);
    want.extend_from_slice(&[0xFF, 0xD0, 0x4C, 0x89, 0xE4]);
    assert_eq!(code, want);
}

#[test]
fn trampoline_small_and_large_deltas() {
    let code = emit_let_trampoline(0, 1, 3);
    assert_eq!(&code[7..11], &[0x48, 0x8D, 0x51, 0xF0]);
    assert_eq!(&code[code.len() - 8..], &[0x48, 0x83, 0x83, 0x18, 0x12, 0x00, 0x00, 0xF0]);
    let code = emit_let_trampoline(0, 20, 0);
    assert_eq!(&code[7..14], &[0x48, 0x8D, 0x91, 0xA0, 0x00, 0x00, 0x00]);
    assert_eq!(&code[code.len() - 11..], &[0x48, 0x81, 0x83, 0x18, 0x12, 0x00, 0x00, 0xA0, 0x00, 0x00, 0x00]);
}

#[test]
fn s_literal_stub_bytes() {
    let code = s_literal_stub(0x0102030405060708);
    assert_eq!(
        code,
        vec![
            0x48, 0x89, 0x45, 0xF8, 0x48, 0xB8, 0x08, 0x07, 0x06, 0x05, 0x04, 0x03, 0x02, 0x01,
            0x48, 0x8B, 0x00, 0x48, 0x83, 0xED, 0x08
        ]
    );
}

#[test]
fn builder_header_length_field() {
    let hdr: u64 = (0xABCu64 << 29) | (5u64 << 5) | 0x1F;
    assert_eq!(builder_length(hdr), 5);
    let h2 = builder_with_length(hdr, 1000);
    assert_eq!(builder_length(h2), 1000);
    assert_eq!(h2 & 0x1F, 0x1F);
    assert_eq!(h2 >> 29, 0xABC);
    assert_eq!(builder_length(builder_with_length(0, 0x1FF_FFFF)), 0xFF_FFFF);
}

#[test]
fn builder_append_plan() {
    assert_eq!(sb_append_plan(3, 10, 7), Some(10));
    assert_eq!(sb_append_plan(3, 10, 8), None);
    assert_eq!(sb_append_plan(3, 10, 0), Some(3));
}

#[test]
fn codepoints_encode_as_utf8() {
    assert_eq!(encode_codepoint(0x41), Some(vec![0x41]));
    assert_eq!(encode_codepoint(0xE9), Some("é".as_bytes().to_vec()));
    assert_eq!(encode_codepoint(0x2234), Some("∴".as_bytes().to_vec()));
    assert_eq!(encode_codepoint(0x1F600), Some("😀".as_bytes().to_vec()));
    assert_eq!(encode_codepoint(0xD800), None);
    assert_eq!(encode_codepoint(0x110000), None);
    assert_eq!(encode_codepoint(0x1_0000_0041), Some(vec![0x41]));
}

#[test]
fn stack_depth_and_regions() {
    assert_eq!(stack_depth(0x1000, 0x1000), 1);
    assert_eq!(stack_depth(0xFF0, 0x1000), 3);
    assert_eq!(stack_depth(0x1008, 0x1000), 0);
    assert!(root_regions_ok(&[(10, 10), (20, 28)]));
    assert!(!root_regions_ok(&[(10, 9), (20, 28)]));
}

#[test]
fn libm_table() {
    assert!(libm_address_table().entries.is_empty());
    let f = libm_functions();
    assert_eq!(f.len(), 14);
    assert_eq!(f[11], ("pow".to_string(), 2));
    let mut resolved = vec![None; 14];
    resolved[0] = Some(0x1000);
    resolved[12] = Some(0x2000);
    let t = libm_table_from(&resolved);
    assert_eq!(t.entries, vec![("sin".to_string(), 0x1000), ("hypot".to_string(), 0x2000)]);
}

#[test]
fn string_equality_compares_lengths_then_bytes() {
    let hdr3 = 3u64 << 5 | 0x11;
    let hdr2 = 2u64 << 5 | 0x11;
    assert_eq!(string_bytes_equal(8, 8, hdr3, hdr2, b"abc", b"ab"), u64::MAX);
    assert_eq!(string_bytes_equal(8, 16, hdr3, hdr2, b"abc", b"ab"), 0);
    assert_eq!(string_bytes_equal(8, 16, hdr3, hdr3, b"abcz", b"abcy"), u64::MAX);
    assert_eq!(string_bytes_equal(8, 16, hdr3, hdr3, b"abc", b"abd"), 0);
    assert_eq!(string_bytes_equal(8, 16, 0x11, 0x11, b"", b"q"), u64::MAX);
}

#[test]
fn builder_integers_are_signed_decimal() {
    assert_eq!(sb_int_bytes(0), b"0".to_vec());
    assert_eq!(sb_int_bytes(1234), b"1234".to_vec());
    assert_eq!(sb_int_bytes(u64::MAX), b"-1".to_vec());
    assert_eq!(sb_int_bytes(1u64 << 63), b"-9223372036854775808".to_vec());
}

#[test]
fn slurp_paths_are_trimmed_utf8() {
    assert_eq!(slurp_path(b"  core.fth\n"), Some("core.fth".to_string()));
    assert_eq!(slurp_path(b"a b"), Some("a b".to_string()));
    assert_eq!(slurp_path(&[0x66, 0xFF]), None);
}

#[test]
fn slurp_stack_pushes_and_pops() {
    let mut s = SlurpStack::new();
    assert_eq!(s.top_len(), 0);
    assert_eq!(s.top(), None);
    s.push(b"hello".to_vec());
    s.push(b"hi".to_vec());
    assert_eq!(s.top_len(), 2);
    assert_eq!(s.top(), Some(&b"hi"[..]));
    s.pop();
    assert_eq!(s.top_len(), 5);
    s.pop();
    s.pop();
    assert_eq!(s.top_len(), 0);
}

#[test]
fn builder_appends_until_full_then_finishes() {
    let mut b = StringBuilder::fresh(0x13 | (7u64 << 5) | (1u64 << 40), 8);
    assert_eq!(b.header() >> 5 & 0xFF_FFFF, 0);
    assert_eq!(b.append_bytes(b"ab"), 0);
    assert_eq!(b.append_int((-12i64) as u64), 0);
    assert_eq!(b.append_codepoint(0x3BB), 0);
    assert_eq!(b.header() >> 5 & 0xFF_FFFF, 7);
    assert_eq!(b.header() & 0x1F, 0x13);
    assert_eq!(b.header() >> 29, 1u64 << 11);
    assert_eq!(b.append_bytes(b"xy"), u64::MAX);
    assert_eq!(b.append_codepoint(0xD800), u64::MAX);
    assert_eq!(b.append_bytes(b""), 0);
    assert_eq!(b.append_codepoint(0x1_0000_0041), 0);
    assert_eq!(b.take_string(), "ab-12\u{3bb}A".as_bytes().to_vec());
    assert_eq!(b.header() >> 5 & 0xFF_FFFF, 0);
    assert_eq!(b.append_bytes(b"12345678"), 0);
    assert_eq!(b.take_string(), b"12345678".to_vec());
}

#[test]
fn code_bodies_span_buffered_lines() {
    assert_eq!(
        buffered_code_source(b" mov rax, 1 ;CODE\r\nrest", b"ignored"),
        Ok((" mov rax, 1 ".to_string(), 19, 0))
    );
    assert_eq!(
        buffered_code_source(b" mov rax, 1", b"add rax, 2\n;CODE\nnext line"),
        Ok((" mov rax, 1\nadd rax, 2\n".to_string(), 11, 17))
    );
    assert_eq!(
        buffered_code_source(b" mov rax, 1", b"add rax, 2\n"),
        Err("no closing ';CODE' token found before EOF".to_string())
    );
    assert_eq!(
        buffered_code_source(&[0xFF], b";CODE"),
        Err("CODE: source is not UTF-8".to_string())
    );
    assert_eq!(
        buffered_code_source(&[0xFF, b' ', b';', b'C', b'O', b'D', b'E'], b""),
        Err("CODE: body is not UTF-8".to_string())
    );
    assert_eq!(
        buffered_code_source(b"x", &[0xFF, b' ', b';', b'C', b'O', b'D', b'E']),
        Err("no closing ';CODE' token found before EOF".to_string())
    );
    assert_eq!(buffered_code_body(b"a ;CODEX"), None);
    assert_eq!(code_tail_text(b"abc"), Ok("abc".to_string()));
    assert_eq!(join_code_body("a", "b"), "a\nb");
}

#[test]
fn code_lines_accumulate_until_the_terminator() {
    let mut c = CodeLines::new();
    assert!(matches!(c.feed("mov rax, 1\r\n"), CodeLine::More));
    assert!(matches!(c.feed("add rax, 2\n"), CodeLine::More));
    assert_eq!(c.text, "mov rax, 1\nadd rax, 2\n");
    match c.feed("pushd ;CODE\n") {
        CodeLine::Done(t) => assert_eq!(t, "mov rax, 1\nadd rax, 2\npushd "),
        _ => panic!("expected the end of the body"),
    }
}

#[test]
fn to_in_past_the_source_is_refused() {
    assert_eq!(to_in_error(3, 10), None);
    assert_eq!(to_in_error(10, 10), None);
    assert_eq!(to_in_error(11, 10), Some("TO_IN (11) past SOURCE_LEN (10)".to_string()));
}

#[test]
fn float_tokens_need_a_mark_and_gain_at_most_a_zero() {
    assert_eq!(normalize_float_token("42"), None);
    assert_eq!(normalize_float_token("  1.5  "), Some("1.5".to_string()));
    assert_eq!(normalize_float_token("2e"), Some("2e0".to_string()));
    assert_eq!(normalize_float_token("2E-"), Some("2E-0".to_string()));
    assert_eq!(normalize_float_token(" .  "), Some(".".to_string()));
}
