//! Scenarios for s-expression navigation.

use wf64::igui::rope_buffer::RopeBuffer;
use wf64::igui::sexp_nav::{close_for_open, outermost_enclosing_open};
use wf64::igui::sexp_nav::{
    backward_sexp, enclosing_form, enclosing_open, forward_sexp, matching_delim, top_level_form,
};

fn rope(s: &str) -> RopeBuffer {
    RopeBuffer::from_text(s)
}

// forward_sexp ───────────────────────────────────────────────

#[test]
fn forward_sexp_over_atom() {
    let b = rope("foo bar");
    assert_eq!(forward_sexp(&b, 0), Some(3));
}

#[test]
fn forward_sexp_skips_leading_whitespace() {
    let b = rope("   foo bar");
    assert_eq!(forward_sexp(&b, 0), Some(6));
}

#[test]
fn forward_sexp_over_list() {
    let b = rope("(a b c) extra");
    assert_eq!(forward_sexp(&b, 0), Some(7));
}

#[test]
fn forward_sexp_over_nested_list() {
    let b = rope("(a (b (c d) e) f)");
    assert_eq!(forward_sexp(&b, 0), Some(b.len()));
}

#[test]
fn forward_sexp_over_quoted_list() {
    let b = rope("'(a b c) extra");
    assert_eq!(forward_sexp(&b, 0), Some(8));
}

#[test]
fn forward_sexp_over_quasi_unquote() {
    let b = rope("`,foo bar");
    // ` then , then foo  → all part of one sexp
    assert_eq!(forward_sexp(&b, 0), Some(5));
}

#[test]
fn forward_sexp_over_unquote_splice() {
    let b = rope(",@foo bar");
    assert_eq!(forward_sexp(&b, 0), Some(5));
}

#[test]
fn forward_sexp_over_fn_quote() {
    let b = rope("#'foo bar");
    assert_eq!(forward_sexp(&b, 0), Some(5));
}

#[test]
fn forward_sexp_over_string() {
    let b = rope("\"hello \\\"world\\\"\" rest");
    assert_eq!(forward_sexp(&b, 0), Some(17));
}

#[test]
fn forward_sexp_over_char_literal_single() {
    let b = rope("#\\a foo");
    assert_eq!(forward_sexp(&b, 0), Some(3));
}

#[test]
fn forward_sexp_over_char_literal_named() {
    let b = rope("#\\Newline foo");
    assert_eq!(forward_sexp(&b, 0), Some(9));
}

#[test]
fn forward_sexp_skips_line_comment() {
    let b = rope("; comment line\nfoo bar");
    assert_eq!(forward_sexp(&b, 0), Some(18));
}

#[test]
fn forward_sexp_skips_block_comment() {
    let b = rope("#| hi |# foo bar");
    assert_eq!(forward_sexp(&b, 0), Some(12));
}

#[test]
fn forward_sexp_skips_nested_block_comment() {
    let b = rope("#| outer #| inner |# more |# foo");
    assert_eq!(forward_sexp(&b, 0), Some(32));
}

#[test]
fn forward_sexp_on_close_returns_none() {
    let b = rope(") foo");
    assert_eq!(forward_sexp(&b, 0), None);
}

#[test]
fn forward_sexp_eof_returns_none() {
    let b = rope("   ");
    assert_eq!(forward_sexp(&b, 0), None);
}

// backward_sexp ──────────────────────────────────────────────

#[test]
fn backward_sexp_over_atom() {
    let b = rope("foo bar");
    assert_eq!(backward_sexp(&b, 7), Some(4));
}

#[test]
fn backward_sexp_over_list() {
    let b = rope("(a b c)");
    assert_eq!(backward_sexp(&b, 7), Some(0));
}

#[test]
fn backward_sexp_over_nested_list() {
    let b = rope("(a (b c) d)");
    assert_eq!(backward_sexp(&b, b.len()), Some(0));
}

#[test]
fn backward_sexp_over_quoted_list() {
    let b = rope("'(a b c)");
    // After the closing paren, jumping back should land on the quote.
    assert_eq!(backward_sexp(&b, b.len()), Some(0));
}

#[test]
fn backward_sexp_at_start_returns_none() {
    let b = rope("foo");
    assert_eq!(backward_sexp(&b, 0), None);
}

// matching_delim ─────────────────────────────────────────────

#[test]
fn matching_delim_open_to_close() {
    let b = rope("(a (b c) d)");
    assert_eq!(matching_delim(&b, 0), Some(10));
}

#[test]
fn matching_delim_close_to_open() {
    let b = rope("(a (b c) d)");
    assert_eq!(matching_delim(&b, 10), Some(0));
}

#[test]
fn matching_delim_nested_inner() {
    let b = rope("(a (b c) d)");
    assert_eq!(matching_delim(&b, 3), Some(7));
    assert_eq!(matching_delim(&b, 7), Some(3));
}

#[test]
fn matching_delim_square_brackets() {
    let b = rope("[a b c]");
    assert_eq!(matching_delim(&b, 0), Some(6));
    assert_eq!(matching_delim(&b, 6), Some(0));
}

#[test]
fn matching_delim_ignores_string() {
    let b = rope("(a \")\" b)");
    // The `)` inside the string shouldn't match the opening `(`.
    assert_eq!(matching_delim(&b, 0), Some(8));
}

#[test]
fn matching_delim_ignores_line_comment() {
    let b = rope("(a ; ) inside comment\n b)");
    assert_eq!(matching_delim(&b, 0), Some(b.len() - 1));
}

#[test]
fn matching_delim_ignores_block_comment() {
    let b = rope("(a #| ) |# b)");
    assert_eq!(matching_delim(&b, 0), Some(b.len() - 1));
}

#[test]
fn matching_delim_ignores_char_literal_paren() {
    let b = rope("(a #\\) b)");
    // `#\)` is one token; the real close is at the end.
    assert_eq!(matching_delim(&b, 0), Some(b.len() - 1));
}

#[test]
fn matching_delim_on_non_delim() {
    let b = rope("(a b c)");
    assert_eq!(matching_delim(&b, 1), None);
}

#[test]
fn matching_delim_unbalanced_returns_none() {
    let b = rope("((a)");
    assert_eq!(matching_delim(&b, 0), None);
}

// enclosing_open / enclosing_form ────────────────────────────

#[test]
fn enclosing_open_top_level() {
    let b = rope("foo bar");
    assert_eq!(enclosing_open(&b, 0), None);
    assert_eq!(enclosing_open(&b, 4), None);
}

#[test]
fn enclosing_open_simple() {
    //  0123456789
    // "(foo bar)"
    let b = rope("(foo bar)");
    assert_eq!(enclosing_open(&b, 4), Some(0));
    assert_eq!(enclosing_open(&b, 8), Some(0)); // on close delim
}

#[test]
fn enclosing_open_nested() {
    //  0         1
    //  0123456789012
    // "(a (b c) d)"
    let b = rope("(a (b c) d)");
    assert_eq!(enclosing_open(&b, 5), Some(3)); // inside inner
    assert_eq!(enclosing_open(&b, 7), Some(3)); // on inner close
    assert_eq!(enclosing_open(&b, 9), Some(0)); // outside inner
}

#[test]
fn enclosing_open_on_open_returns_itself() {
    let b = rope("(a (b c) d)");
    assert_eq!(enclosing_open(&b, 0), Some(0));
    assert_eq!(enclosing_open(&b, 3), Some(3));
}

#[test]
fn enclosing_form_returns_pair() {
    let b = rope("(a (b c) d)");
    assert_eq!(enclosing_form(&b, 5), Some((3, 7)));
    assert_eq!(enclosing_form(&b, 9), Some((0, 10)));
    assert_eq!(enclosing_form(&b, 12), None);
}

#[test]
fn enclosing_open_ignores_string_paren() {
    let b = rope("(a \"(\" b)");
    assert_eq!(enclosing_open(&b, 5), Some(0));
}

#[test]
fn enclosing_open_ignores_comment_paren() {
    let b = rope("(a ;\n b)");
    assert_eq!(enclosing_open(&b, 7), Some(0));
}

// top_level_form ─────────────────────────────────────────────

#[test]
fn top_level_form_inside_nested() {
    //  0         1         2
    //  0123456789012345678901
    // "(defun f () (+ 1 2))"
    let b = rope("(defun f () (+ 1 2))");
    // Cursor inside the inner (+ 1 2) form.
    assert_eq!(top_level_form(&b, 14), Some((0, 20)));
}

#[test]
fn top_level_form_on_outer_open() {
    let b = rope("(defun f () (+ 1 2))");
    assert_eq!(top_level_form(&b, 0), Some((0, 20)));
}

#[test]
fn top_level_form_between_forms() {
    //  "(a)\n(b)"
    //   0123 4567
    let b = rope("(a)\n(b)");
    // Cursor at the newline between forms — top level, no form.
    assert_eq!(top_level_form(&b, 3), None);
}

#[test]
fn top_level_form_picks_second_form() {
    let b = rope("(a)\n(b)");
    // Cursor inside the second form's `b`.
    assert_eq!(top_level_form(&b, 5), Some((4, 7)));
}

#[test]
fn matching_is_its_own_inverse_on_balanced_text() {
    let text = "(a [b \"(\" c] ; )\n (d))";
    let b = rope(text);
    for (i, ch) in text.chars().enumerate() {
        if let Some(j) = matching_delim(&b, i) {
            assert!(ch == '(' || ch == ')' || ch == '[' || ch == ']');
            assert_eq!(matching_delim(&b, j), Some(i));
        }
    }
    assert_eq!(matching_delim(&b, 0), Some(text.chars().count() - 1));
}

#[test]
fn close_found_is_of_the_open_kind() {
    let b = rope("([x] y)");
    assert_eq!(close_for_open(&b, 1), Some(3));
    assert_eq!(close_for_open(&b, 0), Some(6));
    assert_eq!(close_for_open(&b, 2), None);
    assert_eq!(close_for_open(&rope("( ]"), 0), None);
}

#[test]
fn enclosing_form_encloses_and_is_innermost() {
    let b = rope("(a (b) (c d) e)");
    assert_eq!(enclosing_form(&b, 9), Some((7, 11)));
    assert_eq!(enclosing_form(&b, 13), Some((0, 14)));
    assert_eq!(enclosing_form(&b, 11), Some((7, 11)));
    assert_eq!(outermost_enclosing_open(&b, 9), Some(0));
    assert_eq!(enclosing_open(&b, 9), Some(7));
    assert_eq!(outermost_enclosing_open(&rope("a b"), 1), None);
    assert_eq!(enclosing_open(&rope("a b"), 1), None);
}
