//! Scanning the Forth input for the bodies of `LET` and `CODE:`, and
//! normalising float tokens.

use vstd::prelude::*;
use vstd::slice::slice_subrange;

use crate::let_lang::lexer::chars_of;

verus! {

/// `b` is an ASCII letter or digit, or `_`.
pub open spec fn ident_byte(b: u8) -> bool {
    (0x30 <= b <= 0x39) || (0x41 <= b <= 0x5A) || (0x61 <= b <= 0x7A) || b == 0x5F
}

/// Whether `b` can be part of an identifier.
pub fn is_ident_byte(b: u8) -> (r: bool)
    ensures
        r == ident_byte(b),
{
    (0x30 <= b && b <= 0x39) || (0x41 <= b && b <= 0x5A) || (0x61 <= b && b <= 0x7A) || b == 0x5F
}

/// `END` stands at `i` as a word of its own.
pub open spec fn end_token_at(src: Seq<u8>, i: int) -> bool {
    &&& 0 <= i
    &&& i + 3 <= src.len()
    &&& src[i] == 0x45 && src[i + 1] == 0x4E && src[i + 2] == 0x44
    &&& (i == 0 || !ident_byte(src[i - 1]))
    &&& (i + 3 == src.len() || !ident_byte(src[i + 3]))
}

/// The first position from `from` on where `END` stands as a word.
pub open spec fn first_end(src: Seq<u8>, from: int) -> Option<int>
    decreases src.len() - from,
{
    if from < 0 || from + 3 > src.len() {
        None
    } else if end_token_at(src, from) {
        Some(from)
    } else {
        first_end(src, from + 1)
    }
}

/// Finds the first `END` that stands as a word: the text before it, and
/// the number of bytes up to and including it.
pub fn find_end_token(src: &[u8]) -> (r: Option<(&[u8], usize)>)
    ensures
        match first_end(src@, 0) {
            Some(i) => r matches Some((body, n)) && body@ == src@.take(i) && n == i + 3,
            None => r is None,
        },
{
    let len = src.len();
    let mut i: usize = 0;
    while i < len && len - i >= 3
        invariant
            i <= len,
            len == src@.len(),
            first_end(src@, i as int) == first_end(src@, 0),
        decreases len - i,
    {
        if src[i] == 0x45 && src[i + 1] == 0x4E && src[i + 2] == 0x44 {
            let prev_ok = i == 0 || !is_ident_byte(src[i - 1]);
            let next_ok = i + 3 == len || !is_ident_byte(src[i + 3]);
            if prev_ok && next_ok {
                let body = slice_subrange(src, 0, i);
                proof {
                    assert(src@.subrange(0, i as int) =~= src@.take(i as int));
                }
                return Some((body, i + 3));
            }
        }
        i = i + 1;
    }
    None
}

/// ASCII whitespace: space, tab, line feed, form feed, carriage return.
pub open spec fn ascii_ws(b: u8) -> bool {
    b == 0x20 || b == 0x09 || b == 0x0A || b == 0x0C || b == 0x0D
}

/// `;CODE` stands at `i` between whitespace or the ends of `src`.
pub open spec fn code_tag_at(src: Seq<u8>, i: int) -> bool {
    &&& 0 <= i
    &&& i + 5 <= src.len()
    &&& src.subrange(i, i + 5) == seq![0x3Bu8, 0x43u8, 0x4Fu8, 0x44u8, 0x45u8]
    &&& (i == 0 || ascii_ws(src[i - 1]))
    &&& (i + 5 == src.len() || ascii_ws(src[i + 5]))
}

pub open spec fn first_code_tag(src: Seq<u8>, from: int) -> Option<int>
    decreases src.len() - from,
{
    if from < 0 || from + 5 > src.len() {
        None
    } else if code_tag_at(src, from) {
        Some(from)
    } else {
        first_code_tag(src, from + 1)
    }
}

/// Bytes consumed by a `;CODE` at `i`: the tag and a following line end
/// (`\r\n`, `\n` or `\r`).
pub open spec fn code_consumed(src: Seq<u8>, i: int) -> int {
    let a = i + 5;
    let b = if a < src.len() && src[a] == 0x0D {
        a + 1
    } else {
        a
    };
    if b < src.len() && src[b] == 0x0A {
        b + 1
    } else {
        b
    }
}

fn is_ascii_ws(b: u8) -> (r: bool)
    ensures
        r == ascii_ws(b),
{
    b == 0x20 || b == 0x09 || b == 0x0A || b == 0x0C || b == 0x0D
}

/// Finds the first `;CODE` that stands between whitespace: the text
/// before it, and the bytes consumed through it and the end of its line.
pub fn find_code_terminator(src: &[u8]) -> (r: Option<(&[u8], usize)>)
    ensures
        match first_code_tag(src@, 0) {
            Some(i) => r matches Some((body, n)) && body@ == src@.take(i) && n == code_consumed(
                src@,
                i,
            ),
            None => r is None,
        },
{
    let len = src.len();
    let mut i: usize = 0;
    while i < len && len - i >= 5
        invariant
            i <= len,
            len == src@.len(),
            first_code_tag(src@, i as int) == first_code_tag(src@, 0),
        decreases len - i,
    {
        let tag = src[i] == 0x3B && src[i + 1] == 0x43 && src[i + 2] == 0x4F && src[i + 3] == 0x44
            && src[i + 4] == 0x45;
        proof {
            assert(tag == (src@.subrange(i as int, i + 5) == seq![
                0x3Bu8,
                0x43u8,
                0x4Fu8,
                0x44u8,
                0x45u8,
            ])) by {
                if src@.subrange(i as int, i + 5) == seq![0x3Bu8, 0x43u8, 0x4Fu8, 0x44u8, 0x45u8] {
                    assert(src@.subrange(i as int, i + 5)[0] == src@[i as int]);
                    assert(src@.subrange(i as int, i + 5)[1] == src@[i + 1]);
                    assert(src@.subrange(i as int, i + 5)[2] == src@[i + 2]);
                    assert(src@.subrange(i as int, i + 5)[3] == src@[i + 3]);
                    assert(src@.subrange(i as int, i + 5)[4] == src@[i + 4]);
                }
                if tag {
                    assert(src@.subrange(i as int, i + 5) =~= seq![
                        0x3Bu8,
                        0x43u8,
                        0x4Fu8,
                        0x44u8,
                        0x45u8,
                    ]);
                }
            }
        }
        if tag {
            let prev_ok = i == 0 || is_ascii_ws(src[i - 1]);
            let next_ok = i + 5 == len || is_ascii_ws(src[i + 5]);
            if prev_ok && next_ok {
                let mut consumed = i + 5;
                if consumed < len && src[consumed] == 0x0D {
                    consumed = consumed + 1;
                }
                if consumed < len && src[consumed] == 0x0A {
                    consumed = consumed + 1;
                }
                let body = slice_subrange(src, 0, i);
                proof {
                    assert(src@.subrange(0, i as int) =~= src@.take(i as int));
                }
                return Some((body, consumed));
            }
        }
        i = i + 1;
    }
    None
}

// ---------------------------------------------------------------------
// Float tokens

/// The Unicode `White_Space` characters (what `str::trim` removes).
pub open spec fn unicode_ws(c: char) -> bool {
    let v = c as u32;
    (0x09 <= v <= 0x0D) || v == 0x20 || v == 0x85 || v == 0xA0 || v == 0x1680 || (0x2000 <= v
        <= 0x200A) || v == 0x2028 || v == 0x2029 || v == 0x202F || v == 0x205F || v == 0x3000
}

fn is_unicode_ws(c: char) -> (r: bool)
    ensures
        r == unicode_ws(c),
{
    let v = c as u32;
    (0x09 <= v && v <= 0x0D) || v == 0x20 || v == 0x85 || v == 0xA0 || v == 0x1680 || (0x2000 <= v
        && v <= 0x200A) || v == 0x2028 || v == 0x2029 || v == 0x202F || v == 0x205F || v == 0x3000
}

/// Number of leading whitespace characters from `from` on.
pub open spec fn ws_run(cs: Seq<char>, from: int) -> int
    decreases cs.len() - from,
{
    if from < 0 || from >= cs.len() || !unicode_ws(cs[from]) {
        from
    } else {
        ws_run(cs, from + 1)
    }
}

/// Start of the trailing whitespace run ending at `to`.
pub open spec fn ws_run_back(cs: Seq<char>, lo: int, to: int) -> int
    decreases to - lo,
{
    if to <= lo || !unicode_ws(cs[to - 1]) {
        to
    } else {
        ws_run_back(cs, lo, to - 1)
    }
}

/// `cs` without leading and trailing whitespace.
pub open spec fn trim_spec(cs: Seq<char>) -> Seq<char> {
    let lo = ws_run(cs, 0);
    cs.subrange(lo, ws_run_back(cs, lo, cs.len() as int))
}

/// The first `e` or `E` from `from` on.
pub open spec fn first_exp(cs: Seq<char>, from: int) -> Option<int>
    decreases cs.len() - from,
{
    if from < 0 || from >= cs.len() {
        None
    } else if cs[from] == 'e' || cs[from] == 'E' {
        Some(from)
    } else {
        first_exp(cs, from + 1)
    }
}

/// A float token as the number parser should see it: none unless it holds
/// `.`, `e` or `E`; trimmed; and an exponent with no digits (`1e`, `1e+`)
/// completed with `0`.
pub open spec fn normalize_spec(cs: Seq<char>) -> Option<Seq<char>> {
    if cs.len() == 0 || !(cs.contains('.') || cs.contains('e') || cs.contains('E')) {
        None
    } else {
        let t = trim_spec(cs);
        if t.len() == 0 {
            None
        } else {
            match first_exp(t, 0) {
                Some(p) => if p + 1 == t.len() || (p + 2 == t.len() && (t[p + 1] == '+' || t[p + 1]
                    == '-')) {
                    Some(t.push('0'))
                } else {
                    Some(t)
                },
                None => Some(t),
            }
        }
    }
}

proof fn lemma_ws_run(cs: Seq<char>, from: int)
    requires
        0 <= from <= cs.len(),
    ensures
        from <= ws_run(cs, from) <= cs.len(),
    decreases cs.len() - from,
{
    if from < cs.len() && unicode_ws(cs[from]) {
        lemma_ws_run(cs, from + 1);
    }
}

proof fn lemma_ws_run_back(cs: Seq<char>, lo: int, to: int)
    requires
        0 <= lo <= to <= cs.len(),
    ensures
        lo <= ws_run_back(cs, lo, to) <= to,
    decreases to - lo,
{
    if to > lo && unicode_ws(cs[to - 1]) {
        lemma_ws_run_back(cs, lo, to - 1);
    }
}

proof fn lemma_ws_run_stops(cs: Seq<char>, from: int, i: int)
    requires
        0 <= from <= i < cs.len(),
        !unicode_ws(cs[i]),
    ensures
        ws_run(cs, from) <= i,
    decreases i - from,
{
    if from < i && unicode_ws(cs[from]) {
        lemma_ws_run_stops(cs, from + 1, i);
    }
}

proof fn lemma_ws_run_back_stops(cs: Seq<char>, lo: int, to: int, i: int)
    requires
        0 <= lo <= i < to <= cs.len(),
        !unicode_ws(cs[i]),
    ensures
        ws_run_back(cs, lo, to) > i,
    decreases to - lo,
{
    if to - 1 > i && unicode_ws(cs[to - 1]) {
        lemma_ws_run_back_stops(cs, lo, to - 1, i);
    }
}

/// A token is taken as a float exactly when it holds a `.`, an `e` or an
/// `E`; the text taken is the trimmed token, with at most one `0` added.
pub proof fn float_token_law(cs: Seq<char>)
    ensures
        (normalize_spec(cs) is None) == !(cs.contains('.') || cs.contains('e') || cs.contains('E')),
        normalize_spec(cs) matches Some(t) ==> t.len() <= trim_spec(cs).len() + 1 && t.take(
            trim_spec(cs).len() as int,
        ) == trim_spec(cs),
{
    if cs.contains('.') || cs.contains('e') || cs.contains('E') {
        let i = choose|i: int| 0 <= i < cs.len() && (cs[i] == '.' || cs[i] == 'e' || cs[i] == 'E');
        assert(!unicode_ws(cs[i]));
        lemma_ws_run_stops(cs, 0, i);
        lemma_ws_run(cs, 0);
        let lo = ws_run(cs, 0);
        lemma_ws_run_back_stops(cs, lo, cs.len() as int, i);
        lemma_ws_run_back(cs, lo, cs.len() as int);
        let t = trim_spec(cs);
        assert(t.len() > 0);
        assert(t.push('0').take(t.len() as int) =~= t);
        assert(t.take(t.len() as int) =~= t);
    }
}

fn has_float_mark(cs: &Vec<char>) -> (r: bool)
    ensures
        r == (cs@.contains('.') || cs@.contains('e') || cs@.contains('E')),
{
    let n = cs.len();
    let mut i: usize = 0;
    while i < n
        invariant
            i <= n,
            n == cs@.len(),
            forall|k: int| 0 <= k < i ==> cs@[k] != '.' && cs@[k] != 'e' && cs@[k] != 'E',
        decreases n - i,
    {
        let c = cs[i];
        if c == '.' || c == 'e' || c == 'E' {
            proof {
                assert(cs@[i as int] == c);
            }
            return true;
        }
        i = i + 1;
    }
    false
}

/// The bounds of `cs` without leading and trailing whitespace.
fn trim_bounds(cs: &Vec<char>) -> (r: (usize, usize))
    ensures
        r.0 == ws_run(cs@, 0),
        r.1 == ws_run_back(cs@, r.0 as int, cs@.len() as int),
        r.0 <= r.1 <= cs@.len(),
{
    let n = cs.len();
    let mut lo: usize = 0;
    proof {
        lemma_ws_run(cs@, 0);
    }
    while lo < n && is_unicode_ws(cs[lo])
        invariant
            lo <= n,
            n == cs@.len(),
            ws_run(cs@, lo as int) == ws_run(cs@, 0),
        decreases n - lo,
    {
        lo = lo + 1;
    }
    let mut hi: usize = n;
    proof {
        lemma_ws_run_back(cs@, lo as int, n as int);
    }
    while hi > lo && is_unicode_ws(cs[hi - 1])
        invariant
            lo <= hi <= n,
            n == cs@.len(),
            ws_run_back(cs@, lo as int, hi as int) == ws_run_back(cs@, lo as int, n as int),
        decreases hi,
    {
        hi = hi - 1;
    }
    (lo, hi)
}

/// `text` without leading and trailing whitespace.
pub fn trimmed(text: &str) -> (r: String)
    ensures
        r@ == trim_spec(text@),
{
    let cs = chars_of(text);
    let (lo, hi) = trim_bounds(&cs);
    proof {
        assert(text@ == cs@);
    }
    crate::let_lang::lexer::string_of(&cs, lo, hi)
}

/// Prepares a float token for the number parser (see [`normalize_spec`]).
pub fn normalize_float_token(text: &str) -> (r: Option<String>)
    ensures
        match normalize_spec(text@) {
            Some(t) => r matches Some(s) && s@ == t,
            None => r is None,
        },
{
    let cs = chars_of(text);
    let n = cs.len();
    if n == 0 {
        return None;
    }
    if !has_float_mark(&cs) {
        return None;
    }
    let (lo, hi) = trim_bounds(&cs);
    if hi == lo {
        return None;
    }
    let ghost t = cs@.subrange(lo as int, hi as int);
    let mut out = crate::let_lang::lexer::string_of(&cs, lo, hi);
    let tl = hi - lo;
    let mut p: usize = 0;
    while p < tl && cs[lo + p] != 'e' && cs[lo + p] != 'E'
        invariant
            p <= tl,
            tl == t.len(),
            lo + tl <= n,
            n == cs@.len(),
            t == cs@.subrange(lo as int, hi as int),
            hi == lo + tl,
            first_exp(t, p as int) == first_exp(t, 0),
        decreases tl - p,
    {
        p = p + 1;
    }
    if p < tl {
        let at_end = p + 1 == tl;
        let sign_end = tl - p == 2 && (cs[lo + p + 1] == '+' || cs[lo + p + 1] == '-');
        if at_end || sign_end {
            out.push('0');
        }
    }
    proof {
        assert(text@ == cs@);
    }
    Some(out)
}

// ---------------------------------------------------------------------
// UTF-8 text

/// `std::str::from_utf8`: the text of `bytes` exactly when they are valid
/// UTF-8 (as the standard library documents it).
#[verifier::external_body]
pub(crate) fn str_from_utf8(bytes: &[u8]) -> (r: Option<&str>)
    ensures
        r is Some <==> vstd::utf8::valid_utf8(bytes@),
        r matches Some(s) ==> s@ == vstd::utf8::decode_utf8(bytes@),
{
    std::str::from_utf8(bytes).ok()
}

/// The LET form whose body the kernel found before `END`: the body
/// between the keywords `LET` and `END`, or an error when the body is not
/// UTF-8.
pub fn let_source(body: &[u8]) -> (r: Result<String, String>)
    ensures
        match r {
            Ok(s) => vstd::utf8::valid_utf8(body@) && s@ == "LET"@ + vstd::utf8::decode_utf8(
                body@,
            ) + "END"@,
            Err(e) => !vstd::utf8::valid_utf8(body@) && e@ == "LET body is not UTF-8"@,
        },
{
    match str_from_utf8(body) {
        None => Err("LET body is not UTF-8".to_owned()),
        Some(b) => {
            let mut s = String::new();
            crate::text::push_str(&mut s, "LET");
            crate::text::push_str(&mut s, b);
            crate::text::push_str(&mut s, "END");
            Ok(s)
        },
    }
}

/// The body of a `CODE:` definition that fits on the current line,
/// with the bytes it consumes; an error when it is not UTF-8; `None`
/// when `;CODE` is not on this line.
pub fn code_body_on_line(tail: &[u8]) -> (r: Option<Result<(String, usize), String>>)
    ensures
        match first_code_tag(tail@, 0) {
            None => r is None,
            Some(i) => match r {
                Some(Ok((s, n))) => vstd::utf8::valid_utf8(tail@.take(i)) && s@
                    == vstd::utf8::decode_utf8(tail@.take(i)) && n == code_consumed(tail@, i),
                Some(Err(e)) => !vstd::utf8::valid_utf8(tail@.take(i)) && e@
                    == "CODE: body is not UTF-8"@,
                None => false,
            },
        },
{
    match find_code_terminator(tail) {
        None => None,
        Some((body, n)) => match str_from_utf8(body) {
            None => Some(Err("CODE: body is not UTF-8".to_owned())),
            Some(b) => Some(Ok((b.to_owned(), n))),
        },
    }
}

/// The text of the current line's tail when the body goes on past it: an
/// error when it is not UTF-8.
pub fn code_tail_text(tail: &[u8]) -> (r: Result<String, String>)
    ensures
        match r {
            Ok(t) => vstd::utf8::valid_utf8(tail@) && t@ == vstd::utf8::decode_utf8(tail@),
            Err(e) => !vstd::utf8::valid_utf8(tail@) && e@ == "CODE: source is not UTF-8"@,
        },
{
    match str_from_utf8(tail) {
        None => Err("CODE: source is not UTF-8".to_owned()),
        Some(t) => Ok(t.to_owned()),
    }
}

/// The rest of a body found in buffered input: the text before the first
/// `;CODE` with the bytes consumed through it, or `None` when there is no
/// `;CODE` or the text before it is not UTF-8.
pub fn buffered_code_body(rest: &[u8]) -> (r: Option<(String, usize)>)
    ensures
        match first_code_tag(rest@, 0) {
            Some(i) => if vstd::utf8::valid_utf8(rest@.take(i)) {
                r matches Some((t, n)) && t@ == vstd::utf8::decode_utf8(rest@.take(i)) && n
                    == code_consumed(rest@, i)
            } else {
                r is None
            },
            None => r is None,
        },
{
    match find_code_terminator(rest) {
        None => None,
        Some((body, n)) => match str_from_utf8(body) {
            None => None,
            Some(b) => Some((b.to_owned(), n)),
        },
    }
}

/// A body spread over lines: the current line's tail, a line break, and
/// the lines after it.
pub fn join_code_body(head: &str, extra: &str) -> (r: String)
    ensures
        r@ == head@ + "\n"@ + extra@,
{
    let mut r = String::new();
    crate::text::push_str(&mut r, head);
    crate::text::push_str(&mut r, "\n");
    crate::text::push_str(&mut r, extra);
    r
}

/// The body of a `CODE:` definition read from buffered input: from the
/// current line's tail `tail`, and past it from the unread input `rest`.
/// Gives the body with the bytes taken of the line and of the input.
pub fn buffered_code_source(tail: &[u8], rest: &[u8]) -> (r: Result<(String, usize, usize), String>)
    ensures
        match first_code_tag(tail@, 0) {
            Some(i) => match r {
                Ok((s, a, b)) => vstd::utf8::valid_utf8(tail@.take(i)) && s@
                    == vstd::utf8::decode_utf8(tail@.take(i)) && a == code_consumed(tail@, i) && b
                    == 0,
                Err(e) => !vstd::utf8::valid_utf8(tail@.take(i)) && e@
                    == "CODE: body is not UTF-8"@,
            },
            None => if !vstd::utf8::valid_utf8(tail@) {
                r matches Err(e) && e@ == "CODE: source is not UTF-8"@
            } else {
                match first_code_tag(rest@, 0) {
                    Some(j) => if vstd::utf8::valid_utf8(rest@.take(j)) {
                        r matches Ok((s, a, b)) && s@ == vstd::utf8::decode_utf8(tail@) + "\n"@
                            + vstd::utf8::decode_utf8(rest@.take(j)) && a == tail@.len() && b
                            == code_consumed(rest@, j)
                    } else {
                        r matches Err(e) && e@ == "no closing ';CODE' token found before EOF"@
                    },
                    None => r matches Err(e) && e@ == "no closing ';CODE' token found before EOF"@,
                }
            },
        },
{
    match code_body_on_line(tail) {
        Some(Ok((s, n))) => Ok((s, n, 0)),
        Some(Err(e)) => Err(e),
        None => {
            let head = match code_tail_text(tail) {
                Ok(h) => h,
                Err(e) => return Err(e),
            };
            match buffered_code_body(rest) {
                None => Err("no closing ';CODE' token found before EOF".to_owned()),
                Some((extra, n)) => Ok((join_code_body(head.as_str(), extra.as_str()), tail.len(), n)),
            }
        },
    }
}

/// `cs` without trailing line feeds and carriage returns.
pub open spec fn strip_line_end(cs: Seq<char>) -> Seq<char>
    decreases cs.len(),
{
    if cs.len() > 0 && (cs.last() == '\n' || cs.last() == '\r') {
        strip_line_end(cs.drop_last())
    } else {
        cs
    }
}

/// What one console line does to a body being read line by line.
pub enum CodeLine {
    /// `;CODE` was on it: the whole body.
    Done(String),
    /// The body goes on.
    More,
    /// The text before `;CODE` is not UTF-8.
    Fail,
}

/// A body being read from the console line by line, after the current
/// line's tail.
pub struct CodeLines {
    pub text: String,
}

impl CodeLines {
    pub fn new() -> (c: CodeLines)
        ensures
            c.text@ == Seq::<char>::empty(),
    {
        CodeLines { text: String::new() }
    }

    /// Takes the next line (its line end stripped): the body ends before a
    /// `;CODE` on it; otherwise the line is kept, with a line break.
    pub fn feed(&mut self, line: &str) -> (r: CodeLine)
        ensures
            ({
                let l = strip_line_end(line@);
                let b = vstd::utf8::encode_utf8(l);
                match first_code_tag(b, 0) {
                    Some(i) => if vstd::utf8::valid_utf8(b.take(i)) {
                        r matches CodeLine::Done(t) && t@ == old(self).text@
                            + vstd::utf8::decode_utf8(b.take(i))
                    } else {
                        r is Fail
                    },
                    None => r is More && final(self).text@ == old(self).text@ + l + "\n"@,
                }
            }),
    {
        let cs = crate::let_lang::lexer::chars_of(line);
        let mut end = cs.len();
        proof {
            assert(cs@.take(cs@.len() as int) =~= cs@);
            assert(line@ == cs@);
        }
        while end > 0 && (cs[end - 1] == '\n' || cs[end - 1] == '\r')
            invariant
                end <= cs@.len(),
                strip_line_end(cs@.take(end as int)) == strip_line_end(cs@),
            decreases end,
        {
            proof {
                assert(cs@.take(end as int).drop_last() =~= cs@.take(end - 1));
            }
            end = end - 1;
        }
        let l = crate::let_lang::lexer::string_of(&cs, 0, end);
        proof {
            assert(cs@.subrange(0, end as int) =~= cs@.take(end as int));
        }
        let bytes = l.as_str().as_bytes();
        match find_code_terminator(bytes) {
            Some((body, _)) => match str_from_utf8(body) {
                None => CodeLine::Fail,
                Some(b) => {
                    let mut t = String::new();
                    crate::text::push_str(&mut t, self.text.as_str());
                    crate::text::push_str(&mut t, b);
                    CodeLine::Done(t)
                },
            },
            None => {
                crate::text::push_str(&mut self.text, l.as_str());
                crate::text::push_str(&mut self.text, "\n");
                CodeLine::More
            },
        }
    }
}

/// The refusal of a `CODE:` whose input offset lies past its source.
pub fn to_in_error(to_in: u64, src_len: u64) -> (r: Option<String>)
    ensures
        match r {
            None => to_in <= src_len,
            Some(m) => to_in > src_len && m@ == "TO_IN ("@ + crate::text::decimal(to_in as nat)
                + ") past SOURCE_LEN ("@ + crate::text::decimal(src_len as nat) + ")"@,
        },
{
    if to_in <= src_len {
        return None;
    }
    let mut m = String::new();
    crate::text::push_str(&mut m, "TO_IN (");
    crate::text::push_decimal(&mut m, to_in as u128);
    crate::text::push_str(&mut m, ") past SOURCE_LEN (");
    crate::text::push_decimal(&mut m, src_len as u128);
    crate::text::push_str(&mut m, ")");
    Some(m)
}

} // verus!
