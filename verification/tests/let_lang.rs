use wf64::let_lang::codegen::{lower, topo_sort_wheres, NumberTable};
use wf64::let_lang::parser::parse;
use wf64::let_lang::{compile, number_literals};

/// The values of the number literals of `src`, as the compiler's callers
/// compute them.
fn table_for(src: &str) -> NumberTable {
    let mut t = NumberTable::new();
    for text in number_literals(src) {
        let v: f64 = text.parse().unwrap();
        t.insert(text.clone(), v.to_bits(), format!("{v}"));
    }
    t
}

fn lower_src(src: &str, name: &str) -> Result<String, wf64::let_lang::ast::LetError> {
    let form = parse(src).unwrap();
    lower(&form, name, &table_for(src))
}

#[test]
fn lower_minimal() {
    let code = lower_src("LET (r) -> (a) = r END", "let_test1").unwrap();
    assert!(code.contains("let_test1:"));
    assert!(code.contains("movsd xmm0, qword ptr [rcx + 0]"));
    assert!(code.contains("ret"));
}

#[test]
fn lower_area_of_circle() {
    let code = lower_src("LET (r) -> (a) = pi * r * r END", "let_area").unwrap();
    assert!(code.contains("mulsd"));
    assert!(code.contains("let_area$$const_"));
}

#[test]
fn lower_detects_cycle() {
    let e = lower_src("LET (x) -> (y) = a WHERE a = b WHERE b = a END", "let_cycle").unwrap_err();
    assert!(e.message.contains("circular"));
}

#[test]
fn lower_undefined_name() {
    let e = lower_src("LET (x) -> (y) = z END", "let_undef").unwrap_err();
    assert!(e.message.contains("undefined"));
}

#[test]
fn lower_function_call_errors() {
    let e = lower_src("LET (x) -> (y) = sin(x) END", "let_sin").unwrap_err();
    assert!(e.message.contains("sin"));
}

#[test]
fn lower_mbrot_compiles() {
    let src = "\
        LET (z_re, z_im, x, y) -> (z_next_re, z_next_im, mag) = \
            re, im, rmag \
            WHERE re   = (z_re * z_re) - (z_im * z_im) + x \
            WHERE im   = (2 * z_re * z_im) + y \
            WHERE rmag = (re * re) + (im * im) \
        END";
    let code = lower_src(src, "let_mbrot").unwrap();
    assert!(code.contains("movsd xmm0, qword ptr [rcx + 24]"));
    assert!(code.contains("movsd xmm1, qword ptr [rcx + 16]"));
    assert!(code.contains("movsd xmm2, qword ptr [rcx + 8]"));
    assert!(code.contains("movsd xmm3, qword ptr [rcx + 0]"));
    assert!(code.contains("xmm6"));
}

#[test]
fn lower_minimal_exact_text() {
    let code = lower_src("LET (r) -> (a) = r END", "f").unwrap();
    assert_eq!(
        code,
        "    .intel_syntax noprefix\n    .text\n    .globl f\nf:\n\
         \x20   movsd xmm0, qword ptr [rcx + 0]\n\
         \x20   movsd xmm1, xmm0\n\
         \x20   movsd qword ptr [rdx + 0], xmm1\n\
         \x20   ret\n\
         \x20   .p2align 4\n\
         f$$sign_mask: .quad 0x8000000000000000, 0x0000000000000000\n"
    );
}

#[test]
fn lower_constant_pool_dedups_by_bits() {
    // `2` and `2.0` denote the same double: one pool entry.
    let code = lower_src("LET (x) -> (y) = 2 * x + 2.0 END", "g").unwrap();
    assert!(code.contains("g$$const_0: .quad 0x4000000000000000    # 2\n"));
    assert!(!code.contains("g$$const_1"));
    assert_eq!(code.matches("qword ptr [rip + g$$const_0]").count(), 2);
}

#[test]
fn lower_pi_constant_text() {
    let code = lower_src("LET (r) -> (a) = pi * r END", "h").unwrap();
    assert!(code.contains("h$$const_0: .quad 0x400921FB54442D18    # 3.141592653589793\n"));
}

#[test]
fn lower_unary_minus_uses_sign_mask() {
    let code = lower_src("LET (x) -> (y) = -x END", "n").unwrap();
    assert!(code.contains("    xorpd xmm1, xmmword ptr [rip + n$$sign_mask]\n"));
}

#[test]
fn lower_outputs_last_declared_at_top() {
    let code = lower_src("LET (a, b) -> (d, s) = a - b, a + b END", "addsub").unwrap();
    assert!(code.contains("movsd xmm0, qword ptr [rcx + 8]"));
    assert!(code.contains("movsd xmm1, qword ptr [rcx + 0]"));
    assert!(code.contains("subsd xmm2, xmm3"));
    assert!(code.contains("movsd qword ptr [rdx + 8], xmm2"));
    assert!(code.contains("movsd qword ptr [rdx + 0], xmm2"));
}

#[test]
fn lower_power_is_refused() {
    let e = lower_src("LET (x) -> (y) = x ** 2 END", "p").unwrap_err();
    assert!(e.message.contains("**"));
}

#[test]
fn lower_duplicate_binding() {
    let e = lower_src("LET (x) -> (y) = a WHERE a = x WHERE a = 1 END", "dup").unwrap_err();
    assert_eq!(e.message, "duplicate WHERE binding 'a'");
}

#[test]
fn lower_too_many_named_values() {
    let src = "LET (a, b, c, d, e1, f, g, h, i, j, k, l, m, n, o) -> (y) = a END";
    let e = lower_src(src, "big").unwrap_err();
    assert!(e.message.starts_with("LET has 15 named values"));
}

#[test]
fn lower_missing_number_value() {
    let form = parse("LET (x) -> (y) = x + 1 END").unwrap();
    let e = lower(&form, "m", &NumberTable::new()).unwrap_err();
    assert_eq!(e.message, "no value for the number 1");
}

#[test]
fn topo_sort_orders_dependencies_first() {
    let form = parse("LET (x) -> (y) = c WHERE c = b * a WHERE b = a + 1 WHERE a = x END").unwrap();
    let order = topo_sort_wheres(&form.wheres).unwrap();
    assert_eq!(order, vec![2, 1, 0]);
}

#[test]
fn compile_reports_arity() {
    let src = "LET (a, b) -> (q) = a / b END";
    let c = compile(src, "div", &table_for(src)).unwrap();
    assert_eq!(c.n_inputs, 2);
    assert_eq!(c.n_outputs, 1);
    assert_eq!(c.fn_name, "div");
    assert!(c.asm_text.contains("divsd xmm2, xmm3"));
}

#[test]
fn parse_errors_have_positions() {
    let e = parse("LET (x) -> (y) = x +").unwrap_err();
    assert_eq!(e.message, "expected an expression");
    assert_eq!(e.pos, 20);
    let e = parse("LET (x) -> (y) = x $").unwrap_err();
    assert_eq!(e.message, "unexpected character");
    assert_eq!(e.pos, 19);
    let e = parse("LET (x) -> (y, z) = x END").unwrap_err();
    assert!(e.message.contains("number of results"));
}

#[test]
fn number_literals_in_order() {
    assert_eq!(number_literals("LET (x) -> (y) = 1.5e3 * x + .5 END"), vec!["1.5e3", ".5"]);
}
