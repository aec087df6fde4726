//! Tokens of the LET language.

use vstd::prelude::*;

use super::ast::LetError;
use crate::text::push_str;

verus! {

/// Punctuation: `( ) , -> = + - * / **`.
#[derive(Clone, Copy, PartialEq, Eq, Structural, Debug)]
pub enum Punct {
    LParen,
    RParen,
    Comma,
    Arrow,
    Assign,
    Plus,
    Minus,
    Star,
    Slash,
    StarStar,
}

/// A token.
#[derive(Debug)]
pub enum Tok {
    Ident(String),
    Num(String),
    Punct(Punct),
}

/// The value of a token.
pub enum STok {
    Ident(Seq<char>),
    Num(Seq<char>),
    Punct(Punct),
}

impl Tok {
    pub open spec fn sv(&self) -> STok {
        match self {
            Tok::Ident(s) => STok::Ident(s@),
            Tok::Num(s) => STok::Num(s@),
            Tok::Punct(k) => STok::Punct(*k),
        }
    }
}

/// The values of a token vector, each with its character offset.
pub open spec fn toks_sv(toks: Seq<(Tok, usize)>) -> Seq<(STok, int)> {
    toks.map_values(|t: (Tok, usize)| (t.0.sv(), t.1 as int))
}

pub open spec fn is_digit(c: char) -> bool {
    0x30 <= c as u32 <= 0x39
}

pub open spec fn is_alpha(c: char) -> bool {
    (0x41 <= c as u32 <= 0x5A) || (0x61 <= c as u32 <= 0x7A)
}

pub open spec fn is_ident_start(c: char) -> bool {
    is_alpha(c) || c == '_'
}

pub open spec fn is_ident_cont(c: char) -> bool {
    is_alpha(c) || is_digit(c) || c == '_'
}

pub open spec fn is_blank(c: char) -> bool {
    c == ' ' || c == '\t' || c == '\n' || c == '\r'
}

/// End of the run of identifier characters from `i`.
pub open spec fn ident_end(cs: Seq<char>, i: int) -> int
    decreases cs.len() - i,
{
    if 0 <= i < cs.len() && is_ident_cont(cs[i]) {
        ident_end(cs, i + 1)
    } else {
        i
    }
}

/// End of the run of decimal digits from `i`.
pub open spec fn digits_end(cs: Seq<char>, i: int) -> int
    decreases cs.len() - i,
{
    if 0 <= i < cs.len() && is_digit(cs[i]) {
        digits_end(cs, i + 1)
    } else {
        i
    }
}

pub proof fn lemma_ident_end(cs: Seq<char>, i: int)
    requires
        0 <= i <= cs.len(),
    ensures
        i <= ident_end(cs, i) <= cs.len(),
    decreases cs.len() - i,
{
    if i < cs.len() && is_ident_cont(cs[i]) {
        lemma_ident_end(cs, i + 1);
    }
}

pub proof fn lemma_digits_end(cs: Seq<char>, i: int)
    requires
        0 <= i <= cs.len(),
    ensures
        i <= digits_end(cs, i) <= cs.len(),
    decreases cs.len() - i,
{
    if i < cs.len() && is_digit(cs[i]) {
        lemma_digits_end(cs, i + 1);
    }
}

pub open spec fn char_is(cs: Seq<char>, i: int, c: char) -> bool {
    0 <= i < cs.len() && cs[i] == c
}

/// End of a number starting at `i`: digits, an optional fraction `.digits`,
/// and an optional exponent `e`/`E`, sign, digits (taken only when at least
/// one exponent digit follows).
pub open spec fn number_end(cs: Seq<char>, i: int) -> int {
    let d1 = digits_end(cs, i);
    let d2 = if char_is(cs, d1, '.') {
        digits_end(cs, d1 + 1)
    } else {
        d1
    };
    if char_is(cs, d2, 'e') || char_is(cs, d2, 'E') {
        let k = if char_is(cs, d2 + 1, '+') || char_is(cs, d2 + 1, '-') {
            d2 + 2
        } else {
            d2 + 1
        };
        if 0 <= k < cs.len() && is_digit(cs[k]) {
            digits_end(cs, k)
        } else {
            d2
        }
    } else {
        d2
    }
}

pub proof fn lemma_number_end(cs: Seq<char>, i: int)
    requires
        0 <= i <= cs.len(),
    ensures
        i <= number_end(cs, i) <= cs.len(),
{
    let d1 = digits_end(cs, i);
    lemma_digits_end(cs, i);
    let d2 = if char_is(cs, d1, '.') {
        digits_end(cs, d1 + 1)
    } else {
        d1
    };
    if char_is(cs, d1, '.') {
        lemma_digits_end(cs, d1 + 1);
    }
    if char_is(cs, d2, 'e') || char_is(cs, d2, 'E') {
        let k = if char_is(cs, d2 + 1, '+') || char_is(cs, d2 + 1, '-') {
            d2 + 2
        } else {
            d2 + 1
        };
        if 0 <= k < cs.len() && is_digit(cs[k]) {
            lemma_digits_end(cs, k);
        }
    }
}

/// A number starts at `i`: a digit, or `.` followed by a digit.
pub open spec fn number_start(cs: Seq<char>, i: int) -> bool {
    (0 <= i < cs.len() && is_digit(cs[i])) || (char_is(cs, i, '.') && 0 <= i + 1 < cs.len()
        && is_digit(cs[i + 1]))
}

/// The single-code-point or two-code-point punctuation token at `i`, with
/// its length.
pub open spec fn punct_at(cs: Seq<char>, i: int) -> Option<(STok, int)> {
    let c = cs[i];
    if c as u32 == 0x28 {
        Some((STok::Punct(Punct::LParen), 1))
    } else if c as u32 == 0x29 {
        Some((STok::Punct(Punct::RParen), 1))
    } else if c == ',' {
        Some((STok::Punct(Punct::Comma), 1))
    } else if c == '=' {
        Some((STok::Punct(Punct::Assign), 1))
    } else if c == '+' {
        Some((STok::Punct(Punct::Plus), 1))
    } else if c == '/' {
        Some((STok::Punct(Punct::Slash), 1))
    } else if c == '-' {
        if char_is(cs, i + 1, '>') {
            Some((STok::Punct(Punct::Arrow), 2))
        } else {
            Some((STok::Punct(Punct::Minus), 1))
        }
    } else if c == '*' {
        if char_is(cs, i + 1, '*') {
            Some((STok::Punct(Punct::StarStar), 2))
        } else {
            Some((STok::Punct(Punct::Star), 1))
        }
    } else {
        None
    }
}

/// Tokens of `cs` from offset `i`, each with its offset; an error on a
/// character that starts no token.
pub open spec fn lex_from(cs: Seq<char>, i: int) -> Result<Seq<(STok, int)>, (Seq<char>, int)>
    decreases cs.len() - i,
{
    if i < 0 || i >= cs.len() {
        Ok(seq![])
    } else if is_blank(cs[i]) {
        lex_from(cs, i + 1)
    } else {
        let step: Option<(STok, int)> = if is_ident_start(cs[i]) {
            Some((STok::Ident(cs.subrange(i, ident_end(cs, i + 1))), ident_end(cs, i + 1) - i))
        } else if number_start(cs, i) {
            Some((STok::Num(cs.subrange(i, number_end(cs, i))), number_end(cs, i) - i))
        } else {
            punct_at(cs, i)
        };
        match step {
            None => Err(("unexpected character"@, i)),
            Some((t, w)) => {
                if w >= 1 && i + w <= cs.len() {
                    match lex_from(cs, i + w) {
                        Ok(rest) => Ok(seq![(t, i)] + rest),
                        Err(e) => Err(e),
                    }
                } else {
                    Err(("unexpected character"@, i))
                }
            },
        }
    }
}

/// The code points of a string, collected into a vector.
pub fn chars_of(text: &str) -> (v: Vec<char>)
    ensures
        v@ == text@,
{
    let mut v: Vec<char> = Vec::new();
    for c in it: text.chars()
        invariant
            it.seq() == text@,
            v@ == text@.take(it.index() as int),
    {
        proof {
            assert(text@.take(it.index() as int + 1) == text@.take(it.index() as int).push(c));
        }
        v.push(c);
    }
    proof {
        assert(text@.take(text@.len() as int) == text@);
    }
    v
}

/// A string holding `cs[from..to]`.
pub fn string_of(cs: &Vec<char>, from: usize, to: usize) -> (s: String)
    requires
        from <= to <= cs@.len(),
    ensures
        s@ == cs@.subrange(from as int, to as int),
{
    let mut s = String::new();
    let mut k = from;
    while k < to
        invariant
            from <= k <= to,
            to <= cs@.len(),
            s@ == cs@.subrange(from as int, k as int),
        decreases to - k,
    {
        s.push(cs[k]);
        proof {
            assert(cs@.subrange(from as int, k + 1) == cs@.subrange(from as int, k as int).push(
                cs@[k as int],
            ));
        }
        k = k + 1;
    }
    s
}

fn is_digit_exec(c: char) -> (r: bool)
    ensures
        r == is_digit(c),
{
    0x30 <= c as u32 && c as u32 <= 0x39
}

fn is_alpha_exec(c: char) -> (r: bool)
    ensures
        r == is_alpha(c),
{
    (0x41 <= c as u32 && c as u32 <= 0x5A) || (0x61 <= c as u32 && c as u32 <= 0x7A)
}

fn char_is_exec(cs: &Vec<char>, i: usize, c: char) -> (r: bool)
    ensures
        r == char_is(cs@, i as int, c),
{
    i < cs.len() && cs[i] == c
}

fn digits_end_exec(cs: &Vec<char>, i: usize) -> (r: usize)
    requires
        i <= cs@.len(),
    ensures
        r == digits_end(cs@, i as int),
        i <= r <= cs@.len(),
{
    proof {
        lemma_digits_end(cs@, i as int);
    }
    let mut k = i;
    while k < cs.len() && is_digit_exec(cs[k])
        invariant
            i <= k <= cs@.len(),
            digits_end(cs@, k as int) == digits_end(cs@, i as int),
        decreases cs@.len() - k,
    {
        k = k + 1;
    }
    k
}

fn number_end_exec(cs: &Vec<char>, i: usize) -> (r: usize)
    requires
        i <= cs@.len(),
    ensures
        r == number_end(cs@, i as int),
        i <= r <= cs@.len(),
{
    proof {
        lemma_number_end(cs@, i as int);
    }
    let n = cs.len();
    let d1 = digits_end_exec(cs, i);
    let d2 = if char_is_exec(cs, d1, '.') {
        digits_end_exec(cs, d1 + 1)
    } else {
        d1
    };
    if char_is_exec(cs, d2, 'e') || char_is_exec(cs, d2, 'E') {
        assert(d2 < n);
        let k = if char_is_exec(cs, d2 + 1, '+') || char_is_exec(cs, d2 + 1, '-') {
            d2 + 2
        } else {
            d2 + 1
        };
        if k < cs.len() && is_digit_exec(cs[k]) {
            digits_end_exec(cs, k)
        } else {
            d2
        }
    } else {
        d2
    }
}

fn lex_error(pos: usize) -> (e: LetError)
    ensures
        e.sv() == ("unexpected character"@, pos as int),
{
    let mut message = String::new();
    push_str(&mut message, "unexpected character");
    LetError { message, pos }
}

/// Splits LET source text into tokens, each with its character offset.
pub fn tokenize(cs: &Vec<char>) -> (r: Result<Vec<(Tok, usize)>, LetError>)
    ensures
        match r {
            Ok(toks) => lex_from(cs@, 0) == Ok::<_, (Seq<char>, int)>(toks_sv(toks@)),
            Err(e) => lex_from(cs@, 0) == Err::<Seq<(STok, int)>, _>(e.sv()),
        },
{
    let n = cs.len();
    let mut toks: Vec<(Tok, usize)> = Vec::new();
    let mut i: usize = 0;
    let ghost target = lex_from(cs@, 0);
    while i < n
        invariant
            n == cs@.len(),
            i <= n,
            target == lex_from(cs@, 0),
            target == match lex_from(cs@, i as int) {
                Ok(rest) => Ok(toks_sv(toks@) + rest),
                Err(e) => Err(e),
            },
        decreases n - i,
    {
        let c = cs[i];
        if c == ' ' || c == '\t' || c == '\n' || c == '\r' {
            i = i + 1;
            continue;
        }
        let ghost before = toks_sv(toks@);
        let (tok, w): (Tok, usize) = if is_alpha_exec(c) || c == '_' {
            let mut k = i + 1;
            proof {
                lemma_ident_end(cs@, i + 1);
            }
            while k < n && (is_alpha_exec(cs[k]) || is_digit_exec(cs[k]) || cs[k] == '_')
                invariant
                    i < k <= n,
                    n == cs@.len(),
                    ident_end(cs@, k as int) == ident_end(cs@, i + 1),
                decreases n - k,
            {
                k = k + 1;
            }
            (Tok::Ident(string_of(cs, i, k)), k - i)
        } else if is_digit_exec(c) || (c == '.' && i + 1 < n && is_digit_exec(cs[i + 1])) {
            let k = number_end_exec(cs, i);
            (Tok::Num(string_of(cs, i, k)), k - i)
        } else if c as u32 == 0x28 {
            (Tok::Punct(Punct::LParen), 1)
        } else if c as u32 == 0x29 {
            (Tok::Punct(Punct::RParen), 1)
        } else if c == ',' {
            (Tok::Punct(Punct::Comma), 1)
        } else if c == '=' {
            (Tok::Punct(Punct::Assign), 1)
        } else if c == '+' {
            (Tok::Punct(Punct::Plus), 1)
        } else if c == '/' {
            (Tok::Punct(Punct::Slash), 1)
        } else if c == '-' {
            if char_is_exec(cs, i + 1, '>') {
                (Tok::Punct(Punct::Arrow), 2)
            } else {
                (Tok::Punct(Punct::Minus), 1)
            }
        } else if c == '*' {
            if char_is_exec(cs, i + 1, '*') {
                (Tok::Punct(Punct::StarStar), 2)
            } else {
                (Tok::Punct(Punct::Star), 1)
            }
        } else {
            return Err(lex_error(i));
        };
        if w < 1 || w > n - i {
            return Err(lex_error(i));
        }
        toks.push((tok, i));
        proof {
            assert(toks_sv(toks@) =~= before.push((tok.sv(), i as int)));
            let rest: Seq<(STok, int)> = match lex_from(cs@, i + w) {
                Ok(r) => r,
                Err(_) => seq![],
            };
            assert(before.push((tok.sv(), i as int)) + rest =~= before + (seq![(tok.sv(), i as int)] + rest));
        }
        i = i + w;
    }
    proof {
        assert(toks_sv(toks@) + seq![] =~= toks_sv(toks@));
    }
    Ok(toks)
}

} // verus!
