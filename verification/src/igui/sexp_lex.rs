//! Lexical layer of the s-expression navigator: code-point classes, the
//! string / comment / character-literal state machine, and the scanners for
//! "atmosphere" (whitespace and comments) and string literals.
//!
//! Every scanner is specified by a spec function over the buffer's code
//! points (`Seq<u32>`); the executable versions are proved to compute it.

use vstd::prelude::*;

use crate::igui::rope_buffer::{cp_at_spec, RopeBuffer, MAX_CODE_POINTS};

verus! {

pub const CP_TAB: u32 = 0x09;
pub const CP_NL: u32 = 0x0A;
pub const CP_FF: u32 = 0x0C;
pub const CP_CR: u32 = 0x0D;
pub const CP_SPACE: u32 = 0x20;
pub const CP_DQUOTE: u32 = 0x22;
pub const CP_HASH: u32 = 0x23;
pub const CP_QUOTE: u32 = 0x27;
pub const CP_LPAREN: u32 = 0x28;
pub const CP_RPAREN: u32 = 0x29;
pub const CP_COMMA: u32 = 0x2C;
pub const CP_SEMI: u32 = 0x3B;
pub const CP_AT: u32 = 0x40;
pub const CP_LBRACKET: u32 = 0x5B;
pub const CP_BACKSLASH: u32 = 0x5C;
pub const CP_RBRACKET: u32 = 0x5D;
pub const CP_BACKQUOTE: u32 = 0x60;
pub const CP_BAR: u32 = 0x7C;

// ─── Code-point classes ────────────────────────────────────────────────

/// `(` or `[`.
#[verifier::allow_in_spec]
pub fn is_open_delim(cp: u32) -> bool
    returns
        cp == CP_LPAREN || cp == CP_LBRACKET,
{
    cp == CP_LPAREN || cp == CP_LBRACKET
}

/// `)` or `]`.
#[verifier::allow_in_spec]
pub fn is_close_delim(cp: u32) -> bool
    returns
        cp == CP_RPAREN || cp == CP_RBRACKET,
{
    cp == CP_RPAREN || cp == CP_RBRACKET
}

/// The close delimiter that balances an open delimiter.
#[verifier::allow_in_spec]
pub fn matching_close(open: u32) -> Option<u32>
    returns
        if open == CP_LPAREN {
            Some(CP_RPAREN)
        } else if open == CP_LBRACKET {
            Some(CP_RBRACKET)
        } else {
            None
        },
{
    if open == CP_LPAREN {
        Some(CP_RPAREN)
    } else if open == CP_LBRACKET {
        Some(CP_RBRACKET)
    } else {
        None
    }
}

/// `close` is the delimiter that balances `open`.
#[verifier::allow_in_spec]
pub fn delims_match(open: u32, close: u32) -> bool
    returns
        matching_close(open) == Some(close),
{
    match matching_close(open) {
        Some(c) => c == close,
        None => false,
    }
}

/// Space, tab, line feed, carriage return or form feed.
#[verifier::allow_in_spec]
pub fn is_whitespace(cp: u32) -> bool
    returns
        cp == CP_SPACE || cp == CP_TAB || cp == CP_NL || cp == CP_CR || cp == CP_FF,
{
    cp == CP_SPACE || cp == CP_TAB || cp == CP_NL || cp == CP_CR || cp == CP_FF
}

/// A code point at which an atom ends: whitespace, a delimiter, or one of
/// `;` `"` `'` `` ` `` `,`.
#[verifier::allow_in_spec]
pub fn token_terminator(cp: u32) -> bool
    returns
        is_whitespace(cp) || is_open_delim(cp) || is_close_delim(cp) || cp == CP_SEMI
            || cp == CP_DQUOTE || cp == CP_QUOTE || cp == CP_BACKQUOTE || cp == CP_COMMA,
{
    if is_whitespace(cp) || is_open_delim(cp) || is_close_delim(cp) {
        return true;
    }
    cp == CP_SEMI || cp == CP_DQUOTE || cp == CP_QUOTE || cp == CP_BACKQUOTE || cp == CP_COMMA
}

/// A code point that continues a character name such as `Newline`: an ASCII
/// letter or digit, `-` or `_`.
#[verifier::allow_in_spec]
pub fn is_char_name_cont(cp: u32) -> bool
    returns
        (0x30 <= cp <= 0x39) || (0x41 <= cp <= 0x5A) || (0x61 <= cp <= 0x7A) || cp == 0x2D
            || cp == 0x5F,
{
    (0x30 <= cp && cp <= 0x39) || (0x41 <= cp && cp <= 0x5A) || (0x61 <= cp && cp <= 0x7A) || cp
        == 0x2D || cp == 0x5F
}

// ─── Positional predicates ─────────────────────────────────────────────

/// `offset` is just past `#\`, i.e. the two code points before it are `#` and
/// `\`.
pub open spec fn after_hash_backslash_spec(b: Seq<u32>, offset: int) -> bool {
    offset >= 2 && cp_at_spec(b, offset - 2) == Some(CP_HASH) && cp_at_spec(b, offset - 1) == Some(
        CP_BACKSLASH,
    )
}

/// `#\` starts at `offset`.
pub open spec fn char_literal_start_spec(b: Seq<u32>, offset: int) -> bool {
    cp_at_spec(b, offset) == Some(CP_HASH) && cp_at_spec(b, offset + 1) == Some(CP_BACKSLASH)
}

/// `#'` starts at `offset`.
pub open spec fn fn_quote_prefix_spec(b: Seq<u32>, offset: int) -> bool {
    cp_at_spec(b, offset) == Some(CP_HASH) && cp_at_spec(b, offset + 1) == Some(CP_QUOTE)
}

pub fn is_after_hash_backslash(buf: &RopeBuffer, offset: usize) -> (r: bool)
    ensures
        r == after_hash_backslash_spec(buf@, offset as int),
{
    if offset < 2 {
        return false;
    }
    buf.char_at(offset - 2) == Some(CP_HASH) && buf.char_at(offset - 1) == Some(CP_BACKSLASH)
}

pub fn is_char_literal_start(buf: &RopeBuffer, offset: usize) -> (r: bool)
    requires
        offset <= MAX_CODE_POINTS,
    ensures
        r == char_literal_start_spec(buf@, offset as int),
{
    buf.char_at(offset) == Some(CP_HASH) && buf.char_at(offset + 1) == Some(CP_BACKSLASH)
}

pub fn is_fn_quote_prefix(buf: &RopeBuffer, offset: usize) -> (r: bool)
    requires
        offset <= MAX_CODE_POINTS,
    ensures
        r == fn_quote_prefix_spec(buf@, offset as int),
{
    buf.char_at(offset) == Some(CP_HASH) && buf.char_at(offset + 1) == Some(CP_QUOTE)
}

// ─── Character literals ────────────────────────────────────────────────

/// First offset at or after `p` that does not continue a character name.
pub open spec fn name_run_end(b: Seq<u32>, p: int) -> int
    decreases b.len() - p,
{
    if 0 <= p < b.len() && is_char_name_cont(b[p]) {
        name_run_end(b, p + 1)
    } else {
        p
    }
}

/// End of the `#\NAME` literal whose `#` is at `o`: the code point after `\`
/// always belongs to the literal, then the rest of the name follows.
pub open spec fn char_literal_end_spec(b: Seq<u32>, o: int) -> int {
    name_run_end(b, if 0 <= o + 2 < b.len() { o + 3 } else { o + 2 })
}

pub proof fn lemma_name_run_end(b: Seq<u32>, p: int)
    ensures
        p <= name_run_end(b, p),
        p <= b.len() ==> name_run_end(b, p) <= b.len(),
    decreases b.len() - p,
{
    if 0 <= p < b.len() && is_char_name_cont(b[p]) {
        lemma_name_run_end(b, p + 1);
    }
}

/// Offset just past the `#\NAME` literal whose `#` is at `offset`.
pub fn char_literal_end(buf: &RopeBuffer, offset: usize) -> (r: usize)
    requires
        offset < buf@.len(),
    ensures
        r == char_literal_end_spec(buf@, offset as int),
        offset + 2 <= r,
        r <= buf@.len() + 2,
{
    let n = buf.len();
    let mut o = offset + 2;
    if buf.char_at(o).is_some() {
        o += 1;
    }
    proof {
        lemma_name_run_end(buf@, o as int);
    }
    let ghost target = name_run_end(buf@, o as int);
    while o < n
        invariant
            n == buf@.len(),
            offset + 2 <= o,
            o <= n + 2,
            n <= MAX_CODE_POINTS,
            name_run_end(buf@, o as int) == target,
        ensures
            name_run_end(buf@, o as int) == o,
            name_run_end(buf@, o as int) == target,
        decreases n - o,
    {
        let c = buf.char_at(o).unwrap();
        if is_char_name_cont(c) {
            o += 1;
        } else {
            break;
        }
    }
    o
}

// ─── Lexer state machine ───────────────────────────────────────────────

/// One reported lexical token.
#[derive(Clone, Copy, PartialEq, Eq, Structural)]
pub enum LexTok {
    /// An open delimiter (the code point).
    Open(u32),
    /// A close delimiter (the code point).
    Close(u32),
    /// Any other code point outside strings and comments.
    Other,
}

/// Abstract scanner state: position, inside a string literal, just after a
/// backslash inside a string, and block-comment nesting depth.
pub struct ScanState {
    pub o: int,
    pub in_string: bool,
    pub escape: bool,
    pub depth: nat,
}

/// The state of a fresh scanner at `o`.
pub open spec fn fresh_scan(o: int) -> ScanState {
    ScanState { o, in_string: false, escape: false, depth: 0 }
}

/// Offset of the first line feed at or after `o`, or the end of the buffer.
pub open spec fn line_end(b: Seq<u32>, o: int) -> int
    decreases b.len() - o,
{
    if o < 0 || o >= b.len() {
        o
    } else if b[o] == CP_NL {
        o
    } else {
        line_end(b, o + 1)
    }
}

pub proof fn lemma_line_end(b: Seq<u32>, o: int)
    requires
        0 <= o <= b.len(),
    ensures
        o <= line_end(b, o) <= b.len(),
        line_end(b, o) < b.len() ==> b[line_end(b, o)] == CP_NL,
    decreases b.len() - o,
{
    if o < b.len() && b[o] != CP_NL {
        lemma_line_end(b, o + 1);
    }
}

/// Well-formed scanner state over `b`.
pub open spec fn scan_ok(b: Seq<u32>, s: ScanState) -> bool {
    &&& 0 <= s.o <= b.len()
    &&& s.depth * 2 <= s.o
    &&& !s.in_string ==> !s.escape
}

/// The next token the scanner reports from state `s`: its kind, its offset
/// and the scanner state after it; `None` at the end of the buffer.
/// Block comments `#| … |#` nest, line comments run to the line feed,
/// strings honour `\` escapes, and a `#\X…` character literal is skipped as
/// a whole.
pub open spec fn lex_next(b: Seq<u32>, s: ScanState) -> Option<(LexTok, int, ScanState)>
    decreases b.len() - s.o,
{
    if s.o < 0 || s.o >= b.len() {
        None
    } else {
        let c = b[s.o];
        let n = cp_at_spec(b, s.o + 1);
        if s.depth > 0 {
            if c == CP_HASH && n == Some(CP_BAR) {
                lex_next(b, ScanState { o: s.o + 2, depth: s.depth + 1, ..s })
            } else if c == CP_BAR && n == Some(CP_HASH) {
                lex_next(b, ScanState { o: s.o + 2, depth: (s.depth - 1) as nat, ..s })
            } else {
                lex_next(b, ScanState { o: s.o + 1, ..s })
            }
        } else if s.in_string {
            if s.escape {
                lex_next(b, ScanState { o: s.o + 1, escape: false, ..s })
            } else if c == CP_BACKSLASH {
                lex_next(b, ScanState { o: s.o + 1, escape: true, ..s })
            } else if c == CP_DQUOTE {
                lex_next(b, ScanState { o: s.o + 1, in_string: false, ..s })
            } else {
                lex_next(b, ScanState { o: s.o + 1, ..s })
            }
        } else if c == CP_SEMI {
            proof {
                lemma_line_end(b, s.o + 1);
            }
            lex_next(b, ScanState { o: line_end(b, s.o + 1), ..s })
        } else if c == CP_HASH && n == Some(CP_BAR) {
            lex_next(b, ScanState { o: s.o + 2, depth: 1, ..s })
        } else if c == CP_HASH && n == Some(CP_BACKSLASH) {
            proof {
                lemma_name_run_end(b, s.o + 3);
            }
            lex_next(b, ScanState { o: char_literal_end_spec(b, s.o), ..s })
        } else if c == CP_DQUOTE {
            lex_next(b, ScanState { o: s.o + 1, in_string: true, escape: false, ..s })
        } else if is_open_delim(c) {
            Some((LexTok::Open(c), s.o, ScanState { o: s.o + 1, ..s }))
        } else if is_close_delim(c) {
            Some((LexTok::Close(c), s.o, ScanState { o: s.o + 1, ..s }))
        } else {
            Some((LexTok::Other, s.o, ScanState { o: s.o + 1, ..s }))
        }
    }
}

/// What a reported token says about the buffer and the scanner: it lies at
/// or after the old position, it is the code point at its offset, and the
/// scanner resumes, fresh, just past it.
pub open spec fn token_facts(b: Seq<u32>, s: ScanState, t: LexTok, p: int, s2: ScanState) -> bool {
    &&& s.o <= p < b.len()
    &&& s2 == fresh_scan(p + 1)
    &&& match t {
        LexTok::Open(c) => c == b[p] && is_open_delim(c),
        LexTok::Close(c) => c == b[p] && is_close_delim(c),
        LexTok::Other => !is_open_delim(b[p]) && !is_close_delim(b[p]),
    }
}

pub proof fn lemma_lex_next(b: Seq<u32>, s: ScanState)
    requires
        scan_ok(b, s),
    ensures
        lex_next(b, s) matches Some((t, p, s2)) ==> token_facts(b, s, t, p, s2) && scan_ok(b, s2),
    decreases b.len() - s.o,
{
    if s.o < b.len() {
        let c = b[s.o];
        let n = cp_at_spec(b, s.o + 1);
        if s.depth > 0 {
            if c == CP_HASH && n == Some(CP_BAR) {
                lemma_lex_next(b, ScanState { o: s.o + 2, depth: s.depth + 1, ..s });
            } else if c == CP_BAR && n == Some(CP_HASH) {
                lemma_lex_next(b, ScanState { o: s.o + 2, depth: (s.depth - 1) as nat, ..s });
            } else {
                lemma_lex_next(b, ScanState { o: s.o + 1, ..s });
            }
        } else if s.in_string {
            if s.escape {
                lemma_lex_next(b, ScanState { o: s.o + 1, escape: false, ..s });
            } else if c == CP_BACKSLASH {
                lemma_lex_next(b, ScanState { o: s.o + 1, escape: true, ..s });
            } else if c == CP_DQUOTE {
                lemma_lex_next(b, ScanState { o: s.o + 1, in_string: false, ..s });
            } else {
                lemma_lex_next(b, ScanState { o: s.o + 1, ..s });
            }
        } else if c == CP_SEMI {
            lemma_line_end(b, s.o + 1);
            lemma_lex_next(b, ScanState { o: line_end(b, s.o + 1), ..s });
        } else if c == CP_HASH && n == Some(CP_BAR) {
            lemma_lex_next(b, ScanState { o: s.o + 2, depth: 1, ..s });
        } else if c == CP_HASH && n == Some(CP_BACKSLASH) {
            lemma_name_run_end(b, s.o + 3);
            lemma_lex_next(b, ScanState { o: char_literal_end_spec(b, s.o), ..s });
        } else if c == CP_DQUOTE {
            lemma_lex_next(b, ScanState { o: s.o + 1, in_string: true, escape: false, ..s });
        }
    }
}

/// Progress of `lex_next`: a reported token lies at or after the scanner and
/// the scanner resumes just past it.
pub proof fn lemma_lex_progress(b: Seq<u32>, s: ScanState)
    ensures
        lex_next(b, s) matches Some((t, p, s2)) ==> s.o <= p < b.len() && s2.o == p + 1,
    decreases b.len() - s.o,
{
    if 0 <= s.o < b.len() {
        let c = b[s.o];
        let n = cp_at_spec(b, s.o + 1);
        if s.depth > 0 {
            if c == CP_HASH && n == Some(CP_BAR) {
                lemma_lex_progress(b, ScanState { o: s.o + 2, depth: s.depth + 1, ..s });
            } else if c == CP_BAR && n == Some(CP_HASH) {
                lemma_lex_progress(b, ScanState { o: s.o + 2, depth: (s.depth - 1) as nat, ..s });
            } else {
                lemma_lex_progress(b, ScanState { o: s.o + 1, ..s });
            }
        } else if s.in_string {
            if s.escape {
                lemma_lex_progress(b, ScanState { o: s.o + 1, escape: false, ..s });
            } else if c == CP_BACKSLASH {
                lemma_lex_progress(b, ScanState { o: s.o + 1, escape: true, ..s });
            } else if c == CP_DQUOTE {
                lemma_lex_progress(b, ScanState { o: s.o + 1, in_string: false, ..s });
            } else {
                lemma_lex_progress(b, ScanState { o: s.o + 1, ..s });
            }
        } else if c == CP_SEMI {
            lemma_line_end(b, s.o + 1);
            lemma_lex_progress(b, ScanState { o: line_end(b, s.o + 1), ..s });
        } else if c == CP_HASH && n == Some(CP_BAR) {
            lemma_lex_progress(b, ScanState { o: s.o + 2, depth: 1, ..s });
        } else if c == CP_HASH && n == Some(CP_BACKSLASH) {
            lemma_name_run_end(b, s.o + 3);
            lemma_lex_progress(b, ScanState { o: char_literal_end_spec(b, s.o), ..s });
        } else if c == CP_DQUOTE {
            lemma_lex_progress(b, ScanState { o: s.o + 1, in_string: true, escape: false, ..s });
        }
    }
}

/// Executable scanner over a buffer.
pub struct Scanner<'a> {
    pub buf: &'a RopeBuffer,
    pub o: usize,
    pub in_string: bool,
    pub escape: bool,
    pub block_depth: u32,
    pub last_token_start: usize,
}

impl<'a> Scanner<'a> {
    pub open spec fn state(&self) -> ScanState {
        ScanState {
            o: self.o as int,
            in_string: self.in_string,
            escape: self.escape,
            depth: self.block_depth as nat,
        }
    }

    pub open spec fn ok(&self) -> bool {
        &&& scan_ok(self.buf@, self.state())
        &&& self.buf@.len() <= MAX_CODE_POINTS
    }

    /// A scanner positioned at `o`.
    pub fn starting_at(buf: &'a RopeBuffer, o: usize) -> (s: Self)
        requires
            o <= buf@.len(),
        ensures
            s.buf == buf,
            s.state() == fresh_scan(o as int),
            s.last_token_start == o,
            s.ok(),
    {
        let _ = buf.len();
        Scanner { buf, o, in_string: false, escape: false, block_depth: 0, last_token_start: o }
    }

    /// A scanner positioned just after `o`.
    pub fn starting_after(buf: &'a RopeBuffer, o: usize) -> (s: Self)
        requires
            o < buf@.len(),
        ensures
            s.buf == buf,
            s.state() == fresh_scan(o + 1),
            s.last_token_start == o + 1,
            s.ok(),
    {
        let _ = buf.len();
        Scanner {
            buf,
            o: o + 1,
            in_string: false,
            escape: false,
            block_depth: 0,
            last_token_start: o + 1,
        }
    }

    pub fn cp_at(&self, offset: usize) -> (r: Option<u32>)
        ensures
            r == cp_at_spec(self.buf@, offset as int),
    {
        self.buf.char_at(offset)
    }

    pub fn peek(&self, k: usize) -> (r: Option<u32>)
        requires
            self.o + k <= usize::MAX,
        ensures
            r == cp_at_spec(self.buf@, self.o + k),
    {
        self.buf.char_at(self.o + k)
    }

    /// Advances to the next token and reports it (`lex_next`); `None` at the
    /// end of the buffer.
    pub fn next_lex_token(&mut self) -> (r: Option<LexTok>)
        requires
            old(self).ok(),
        ensures
            final(self).buf == old(self).buf,
            final(self).ok(),
            match lex_next(old(self).buf@, old(self).state()) {
                None => r is None && final(self).o >= final(self).buf@.len(),
                Some((t, p, s2)) => {
                    &&& r == Some(t)
                    &&& final(self).last_token_start == p
                    &&& final(self).state() == s2
                },
            },
    {
        let ghost b = self.buf@;
        let ghost target = lex_next(b, self.state());
        let n = self.buf.len();
        loop
            invariant
                b == self.buf@,
                n == b.len(),
                self.ok(),
                lex_next(b, self.state()) == target,
                target == lex_next(b, old(self).state()),
                self.buf == old(self).buf,
            decreases n - self.o,
        {
            if self.o >= n {
                return None;
            }
            let cp = self.buf.char_at(self.o).unwrap();
            let next = self.peek(1);
            if self.block_depth > 0 {
                if cp == CP_HASH && next == Some(CP_BAR) {
                    self.block_depth = self.block_depth + 1;
                    self.o = self.o + 2;
                    continue;
                }
                if cp == CP_BAR && next == Some(CP_HASH) {
                    self.block_depth = self.block_depth - 1;
                    self.o = self.o + 2;
                    continue;
                }
                self.o = self.o + 1;
                continue;
            }
            if self.in_string {
                if self.escape {
                    self.escape = false;
                    self.o = self.o + 1;
                    continue;
                }
                if cp == CP_BACKSLASH {
                    self.escape = true;
                    self.o = self.o + 1;
                    continue;
                }
                if cp == CP_DQUOTE {
                    self.in_string = false;
                    self.o = self.o + 1;
                    continue;
                }
                self.o = self.o + 1;
                continue;
            }
            // Line comment: skip to the line feed.
            if cp == CP_SEMI {
                proof {
                    lemma_line_end(b, self.o + 1);
                }
                let ghost stop = line_end(b, self.o + 1);
                self.o = self.o + 1;
                while self.o < n
                    invariant
                        b == self.buf@,
                        n == b.len(),
                        self.o <= stop <= n,
                        line_end(b, self.o as int) == stop,
                        self.buf == old(self).buf,
                        self.block_depth == 0,
                        !self.in_string,
                        !self.escape,
                    ensures
                        self.o == stop,
                    decreases n - self.o,
                {
                    let c = self.buf.char_at(self.o).unwrap();
                    if c == CP_NL {
                        break;
                    }
                    proof {
                        lemma_line_end(b, self.o + 1);
                    }
                    self.o = self.o + 1;
                }
                continue;
            }
            // Block comment open.
            if cp == CP_HASH && next == Some(CP_BAR) {
                self.block_depth = 1;
                self.o = self.o + 2;
                continue;
            }
            // Character literal `#\X…`, skipped whole.
            if cp == CP_HASH && next == Some(CP_BACKSLASH) {
                proof {
                    lemma_name_run_end(b, self.o + 3);
                }
                self.o = char_literal_end(self.buf, self.o);
                continue;
            }
            // String open.
            if cp == CP_DQUOTE {
                self.in_string = true;
                self.escape = false;
                self.o = self.o + 1;
                continue;
            }
            self.last_token_start = self.o;
            self.o = self.o + 1;
            if is_open_delim(cp) {
                return Some(LexTok::Open(cp));
            }
            if is_close_delim(cp) {
                return Some(LexTok::Close(cp));
            }
            return Some(LexTok::Other);
        }
    }
}

} // verus!

verus! {

// ─── Atmosphere and string scanners ────────────────────────────────────

/// Offset just past the line comment starting at `o`: past its line feed, or
/// the end of the buffer.
pub open spec fn past_line_comment(b: Seq<u32>, o: int) -> int {
    if line_end(b, o) < b.len() {
        line_end(b, o) + 1
    } else {
        b.len() as int
    }
}

/// First offset at or after `o` that is not whitespace, a line comment or a
/// (nested) block comment; `depth` is the block-comment nesting at `o`.
pub open spec fn atmosphere_forward(b: Seq<u32>, o: int, depth: nat) -> int
    decreases b.len() - o,
{
    if o < 0 || o >= b.len() {
        o
    } else {
        let c = b[o];
        let n = cp_at_spec(b, o + 1);
        if depth > 0 {
            if c == CP_HASH && n == Some(CP_BAR) {
                atmosphere_forward(b, o + 2, depth + 1)
            } else if c == CP_BAR && n == Some(CP_HASH) {
                atmosphere_forward(b, o + 2, (depth - 1) as nat)
            } else {
                atmosphere_forward(b, o + 1, depth)
            }
        } else if is_whitespace(c) {
            atmosphere_forward(b, o + 1, 0)
        } else if c == CP_SEMI {
            proof {
                lemma_line_end(b, o);
            }
            atmosphere_forward(b, past_line_comment(b, o), 0)
        } else if c == CP_HASH && n == Some(CP_BAR) {
            atmosphere_forward(b, o + 2, 1)
        } else {
            o
        }
    }
}

pub proof fn lemma_atmosphere_forward(b: Seq<u32>, o: int, depth: nat)
    requires
        0 <= o,
    ensures
        o <= atmosphere_forward(b, o, depth),
        o <= b.len() ==> atmosphere_forward(b, o, depth) <= b.len(),
    decreases b.len() - o,
{
    if o < b.len() {
        let c = b[o];
        let n = cp_at_spec(b, o + 1);
        if depth > 0 {
            if c == CP_HASH && n == Some(CP_BAR) {
                lemma_atmosphere_forward(b, o + 2, depth + 1);
            } else if c == CP_BAR && n == Some(CP_HASH) {
                lemma_atmosphere_forward(b, o + 2, (depth - 1) as nat);
            } else {
                lemma_atmosphere_forward(b, o + 1, depth);
            }
        } else if is_whitespace(c) {
            lemma_atmosphere_forward(b, o + 1, 0);
        } else if c == CP_SEMI {
            lemma_line_end(b, o);
            lemma_atmosphere_forward(b, past_line_comment(b, o), 0);
        } else if c == CP_HASH && n == Some(CP_BAR) {
            lemma_atmosphere_forward(b, o + 2, 1);
        }
    }
}

/// Where the atmosphere ends inside the buffer there is neither whitespace
/// nor a line comment.
pub proof fn lemma_atmosphere_forward_stop(b: Seq<u32>, o: int, depth: nat)
    requires
        0 <= o,
    ensures
        0 <= atmosphere_forward(b, o, depth) < b.len() ==> !is_whitespace(
            b[atmosphere_forward(b, o, depth)],
        ) && b[atmosphere_forward(b, o, depth)] != CP_SEMI,
    decreases b.len() - o,
{
    if o < b.len() {
        let c = b[o];
        let n = cp_at_spec(b, o + 1);
        if depth > 0 {
            if c == CP_HASH && n == Some(CP_BAR) {
                lemma_atmosphere_forward_stop(b, o + 2, depth + 1);
            } else if c == CP_BAR && n == Some(CP_HASH) {
                lemma_atmosphere_forward_stop(b, o + 2, (depth - 1) as nat);
            } else {
                lemma_atmosphere_forward_stop(b, o + 1, depth);
            }
        } else if is_whitespace(c) {
            lemma_atmosphere_forward_stop(b, o + 1, 0);
        } else if c == CP_SEMI {
            lemma_line_end(b, o);
            lemma_atmosphere_forward_stop(b, past_line_comment(b, o), 0);
        } else if c == CP_HASH && n == Some(CP_BAR) {
            lemma_atmosphere_forward_stop(b, o + 2, 1);
        }
    }
}

/// Skips whitespace, line comments and nested block comments from `start`.
pub fn skip_atmosphere_forward(buf: &RopeBuffer, start: usize) -> (r: Option<usize>)
    ensures
        r == Some(atmosphere_forward(buf@, start as int, 0) as usize),
        start <= atmosphere_forward(buf@, start as int, 0),
        start <= buf@.len() ==> atmosphere_forward(buf@, start as int, 0) <= buf@.len(),
{
    proof {
        lemma_atmosphere_forward(buf@, start as int, 0);
    }
    let ghost b = buf@;
    let ghost target = atmosphere_forward(b, start as int, 0);
    let mut o = start;
    let total = buf.len();
    let mut block_depth: u32 = 0;
    while o < total
        invariant
            b == buf@,
            total == b.len(),
            total <= MAX_CODE_POINTS,
            block_depth * 2 <= o,
            block_depth > 0 ==> o <= total,
            atmosphere_forward(b, o as int, block_depth as nat) == target,
            target == atmosphere_forward(b, start as int, 0),
            start <= target,
            start <= total ==> target <= total,
        decreases total - o,
    {
        let cp = buf.char_at(o).unwrap();
        let next = buf.char_at(o + 1);
        if block_depth > 0 {
            if cp == CP_HASH && next == Some(CP_BAR) {
                block_depth = block_depth + 1;
                o = o + 2;
                continue;
            }
            if cp == CP_BAR && next == Some(CP_HASH) {
                block_depth = block_depth - 1;
                o = o + 2;
                continue;
            }
            o = o + 1;
            continue;
        }
        if is_whitespace(cp) {
            o = o + 1;
            continue;
        }
        if cp == CP_SEMI {
            proof {
                lemma_line_end(b, o as int);
            }
            let ghost semi = o as int;
            let ghost le = line_end(b, semi);
            loop
                invariant_except_break
                    b == buf@,
                    total == b.len(),
                    semi <= o <= le <= total,
                    line_end(b, o as int) == le,
                invariant
                    le == line_end(b, semi),
                ensures
                    o == past_line_comment(b, semi),
                decreases total - o,
            {
                if o >= total {
                    break;
                }
                let c = buf.char_at(o).unwrap();
                o = o + 1;
                if c == CP_NL {
                    break;
                }
                proof {
                    lemma_line_end(b, o as int);
                }
            }
            continue;
        }
        if cp == CP_HASH && next == Some(CP_BAR) {
            block_depth = 1;
            o = o + 2;
            continue;
        }
        return Some(o);
    }
    Some(o)
}

/// Steps back from `o` over whitespace; `None` when `o` lies past the end.
pub open spec fn atmosphere_backward(b: Seq<u32>, o: int) -> Option<int>
    decreases o,
{
    if o <= 0 {
        Some(o)
    } else if o - 1 >= b.len() {
        None
    } else if !is_whitespace(b[o - 1]) {
        Some(o)
    } else {
        atmosphere_backward(b, o - 1)
    }
}

pub proof fn lemma_atmosphere_backward(b: Seq<u32>, o: int)
    requires
        0 <= o,
    ensures
        atmosphere_backward(b, o) matches Some(r) ==> 0 <= r <= o && r <= b.len(),
        atmosphere_backward(b, o) is None <==> o > b.len(),
    decreases o,
{
    if o > 0 && o - 1 < b.len() && is_whitespace(b[o - 1]) {
        lemma_atmosphere_backward(b, o - 1);
    }
}

/// Skips whitespace backward from `cursor` (line comments are not skipped).
pub fn skip_atmosphere_backward(buf: &RopeBuffer, cursor: usize) -> (r: Option<usize>)
    ensures
        as_int_opt(r) == atmosphere_backward(buf@, cursor as int),
{
    proof {
        lemma_atmosphere_backward(buf@, cursor as int);
    }
    let ghost target = atmosphere_backward(buf@, cursor as int);
    let mut o = cursor;
    while o > 0
        invariant
            atmosphere_backward(buf@, o as int) == target,
            target == atmosphere_backward(buf@, cursor as int),
        ensures
            target == Some(o as int),
        decreases o,
    {
        let prev = match buf.char_at(o - 1) {
            Some(c) => c,
            None => return None,
        };
        if !is_whitespace(prev) {
            break;
        }
        o = o - 1;
    }
    Some(o)
}

/// `Some(x)` as an integer option.
pub open spec fn as_int_opt(r: Option<usize>) -> Option<int> {
    match r {
        Some(x) => Some(x as int),
        None => None,
    }
}

/// Scans a string body from `o` (`escape`: the previous code point was an
/// unescaped backslash) and returns the offset just past the closing `"`, or
/// the end of the buffer.
pub open spec fn string_forward(b: Seq<u32>, o: int, escape: bool) -> int
    decreases b.len() - o,
{
    if o < 0 || o >= b.len() {
        o
    } else if escape {
        string_forward(b, o + 1, false)
    } else if b[o] == CP_BACKSLASH {
        string_forward(b, o + 1, true)
    } else if b[o] == CP_DQUOTE {
        o + 1
    } else {
        string_forward(b, o + 1, false)
    }
}

pub proof fn lemma_string_forward(b: Seq<u32>, o: int, escape: bool)
    requires
        0 <= o,
    ensures
        o <= string_forward(b, o, escape),
        o <= b.len() ==> string_forward(b, o, escape) <= b.len(),
    decreases b.len() - o,
{
    if o < b.len() {
        if escape {
            lemma_string_forward(b, o + 1, false);
        } else if b[o] == CP_BACKSLASH {
            lemma_string_forward(b, o + 1, true);
        } else if b[o] != CP_DQUOTE {
            lemma_string_forward(b, o + 1, false);
        }
    }
}

/// Offset just past the string literal whose opening `"` is at `open_quote`.
pub fn skip_string_forward(buf: &RopeBuffer, open_quote: usize) -> (r: usize)
    requires
        open_quote < buf@.len(),
    ensures
        r == string_forward(buf@, open_quote + 1, false),
        open_quote < r <= buf@.len(),
{
    proof {
        lemma_string_forward(buf@, open_quote + 1, false);
    }
    let ghost target = string_forward(buf@, open_quote + 1, false);
    let n = buf.len();
    let mut o = open_quote + 1;
    let mut escape = false;
    while o < n
        invariant
            n == buf@.len(),
            n <= MAX_CODE_POINTS,
            open_quote < o <= n,
            string_forward(buf@, o as int, escape) == target,
            target == string_forward(buf@, open_quote + 1, false),
            open_quote < target <= n,
        decreases n - o,
    {
        let cp = buf.char_at(o).unwrap();
        if escape {
            escape = false;
            o = o + 1;
            continue;
        }
        if cp == CP_BACKSLASH {
            escape = true;
            o = o + 1;
            continue;
        }
        if cp == CP_DQUOTE {
            return o + 1;
        }
        o = o + 1;
    }
    o
}

/// Number of consecutive backslashes immediately before `p`.
pub open spec fn backslashes_before(b: Seq<u32>, p: int) -> int
    decreases p,
{
    if p > 0 && cp_at_spec(b, p - 1) == Some(CP_BACKSLASH) {
        1 + backslashes_before(b, p - 1)
    } else {
        0
    }
}

/// Walking back from `o`, the offset of the nearest `"` preceded by an even
/// number of backslashes; 0 when there is none.
pub open spec fn string_backward(b: Seq<u32>, o: int) -> int
    decreases o,
{
    if o <= 0 {
        0
    } else if cp_at_spec(b, o - 1) is None {
        0
    } else if b[o - 1] == CP_DQUOTE && backslashes_before(b, o - 1) % 2 == 0 {
        o - 1
    } else {
        string_backward(b, o - 1)
    }
}

pub proof fn lemma_backslashes_before(b: Seq<u32>, p: int)
    ensures
        0 <= backslashes_before(b, p),
        p >= 0 ==> backslashes_before(b, p) <= p,
    decreases p,
{
    if p > 0 && cp_at_spec(b, p - 1) == Some(CP_BACKSLASH) {
        lemma_backslashes_before(b, p - 1);
    }
}

pub proof fn lemma_string_backward(b: Seq<u32>, o: int)
    requires
        0 <= o,
    ensures
        0 <= string_backward(b, o) <= o,
        o > 0 ==> string_backward(b, o) < o,
    decreases o,
{
    if o > 0 && cp_at_spec(b, o - 1) is Some && !(b[o - 1] == CP_DQUOTE && backslashes_before(
        b,
        o - 1,
    ) % 2 == 0) {
        lemma_string_backward(b, o - 1);
    }
}

/// Offset of the opening `"` of the string literal whose closing `"` is at
/// `close_quote` (nearest unescaped `"` before it), or 0.
pub fn string_start_backward(buf: &RopeBuffer, close_quote: usize) -> (r: usize)
    ensures
        r == string_backward(buf@, close_quote as int),
{
    proof {
        lemma_string_backward(buf@, close_quote as int);
    }
    let ghost target = string_backward(buf@, close_quote as int);
    let mut o = close_quote;
    while o > 0
        invariant_except_break
            string_backward(buf@, o as int) == target,
        invariant
            target == string_backward(buf@, close_quote as int),
        ensures
            target == 0,
        decreases o,
    {
        o = o - 1;
        let cp = match buf.char_at(o) {
            Some(c) => c,
            None => break,
        };
        if cp == CP_DQUOTE {
            let mut bs: usize = 0;
            let mut p = o;
            proof {
                lemma_backslashes_before(buf@, o as int);
            }
            while p > 0 && buf.char_at(p - 1) == Some(CP_BACKSLASH)
                invariant
                    p <= o,
                    bs + p == o,
                    backslashes_before(buf@, o as int) == bs + backslashes_before(buf@, p as int),
                ensures
                    backslashes_before(buf@, o as int) == bs,
                decreases p,
            {
                bs = bs + 1;
                p = p - 1;
            }
            if bs % 2 == 0 {
                return o;
            }
        }
    }
    0
}

/// Is `cp` one of the reader-macro prefix characters `'` `` ` `` `,`?
pub open spec fn is_prefix_char(cp: u32) -> bool {
    cp == CP_QUOTE || cp == CP_BACKQUOTE || cp == CP_COMMA
}

/// Start of the run of reader-macro prefix characters (`'` `` ` `` `,`) that
/// ends at `pos`.
pub open spec fn absorb_prefix_backward(b: Seq<u32>, o: int) -> int
    decreases o,
{
    if 0 < o <= b.len() && is_prefix_char(b[o - 1]) {
        absorb_prefix_backward(b, o - 1)
    } else {
        o
    }
}

pub proof fn lemma_absorb_prefix_backward(b: Seq<u32>, o: int)
    requires
        0 <= o,
    ensures
        0 <= absorb_prefix_backward(b, o) <= o,
    decreases o,
{
    if 0 < o <= b.len() && is_prefix_char(b[o - 1]) {
        lemma_absorb_prefix_backward(b, o - 1);
    }
}

/// If `pos` is immediately preceded by reader-macro prefixes, the offset of
/// the first of them; otherwise `pos`.
pub fn absorb_reader_prefix_backward(buf: &RopeBuffer, pos: usize) -> (r: usize)
    ensures
        r == absorb_prefix_backward(buf@, pos as int),
{
    proof {
        lemma_absorb_prefix_backward(buf@, pos as int);
    }
    let ghost target = absorb_prefix_backward(buf@, pos as int);
    let mut o = pos;
    loop
        invariant
            absorb_prefix_backward(buf@, o as int) == target,
            target == absorb_prefix_backward(buf@, pos as int),
        decreases o,
    {
        if o == 0 {
            return 0;
        }
        let prev = match buf.char_at(o - 1) {
            Some(c) => c,
            None => return o,
        };
        if prev == CP_QUOTE || prev == CP_BACKQUOTE || prev == CP_COMMA {
            o = o - 1;
            // `,@`: also take the `,` before.
            if prev == CP_AT && o > 0 && buf.char_at(o - 1) == Some(CP_COMMA) {
                o = o - 1;
            }
            continue;
        }
        // `#'` two-code-point prefix.
        if o >= 2 && buf.char_at(o - 2) == Some(CP_HASH) && buf.char_at(o - 1) == Some(CP_QUOTE) {
            o = o - 2;
            continue;
        }
        return o;
    }
}

} // verus!
