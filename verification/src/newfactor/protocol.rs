//! Messages to the Factor listener and the reading of its replies: each
//! exchange ends with a sentinel line the listener is asked to print.

use vstd::prelude::*;

use crate::let_lang::lexer::chars_of;
use crate::lines::{lines_of, lines_spec, strings_view};
use crate::runtime::tokens::trim_spec;
use crate::text::push_str;

verus! {

/// `s` with each backslash doubled, for a Factor string literal.
pub open spec fn escape_spec(s: Seq<char>) -> Seq<char>
    decreases s.len(),
{
    if s.len() == 0 {
        seq![]
    } else {
        escape_spec(s.drop_last()) + if s.last() == '\\' {
            seq!['\\', '\\']
        } else {
            seq![s.last()]
        }
    }
}

/// Doubles every backslash of `s`.
pub fn escape_backslashes(s: &str) -> (r: String)
    ensures
        r@ == escape_spec(s@),
{
    let cs = chars_of(s);
    let mut r = String::new();
    let mut i: usize = 0;
    while i < cs.len()
        invariant
            i <= cs@.len(),
            r@ == escape_spec(cs@.take(i as int)),
        decreases cs@.len() - i,
    {
        let c = cs[i];
        proof {
            assert(cs@.take(i + 1).drop_last() =~= cs@.take(i as int));
        }
        if c == '\\' {
            r.push('\\');
            r.push('\\');
        } else {
            r.push(c);
        }
        proof {
            assert(r@ =~= escape_spec(cs@.take(i + 1)));
        }
        i = i + 1;
    }
    proof {
        assert(cs@.take(cs@.len() as int) =~= cs@);
        assert(s@ == cs@);
    }
    r
}

/// The lines that load the NewFactor vocabularies from `root`, silence the
/// listener's stack display and prompt, and print the ready sentinel.
pub open spec fn bootstrap_spec(root: Seq<char>) -> Seq<char> {
    "USE: vocabs.loader\n\""@ + escape_spec(root) + "\" add-vocab-root\nUSE: forth.all\ndisplay-stacks? off\nM: object prompt. 2drop ;\n\"%%NF-READY%%\\n\" write flush\n"@
}

pub fn bootstrap_script(root: &str) -> (r: String)
    ensures
        r@ == bootstrap_spec(root@),
{
    let mut r = String::new();
    push_str(&mut r, "USE: vocabs.loader\n\"");
    let e = escape_backslashes(root);
    push_str(&mut r, e.as_str());
    push_str(
        &mut r,
        "\" add-vocab-root\nUSE: forth.all\ndisplay-stacks? off\nM: object prompt. 2drop ;\n\"%%NF-READY%%\\n\" write flush\n",
    );
    r
}

/// Transpiled code followed by the request for the done sentinel.
pub fn eval_message(factor_code: &str) -> (r: String)
    ensures
        r@ == factor_code@ + "\n\"%%NF-DONE%%\\n\" write flush\n"@,
{
    let mut r = String::new();
    push_str(&mut r, factor_code);
    push_str(&mut r, "\n\"%%NF-DONE%%\\n\" write flush\n");
    r
}

/// The probe that prints the integers of the data stack, then the stack
/// sentinel.
pub fn stack_probe() -> (r: String)
    ensures
        r@ == "get-datastack [ dup integer? [ . ] [ drop ] if ] each\n\"%%NF-STACK%%\\n\" write flush\n"@,
{
    let mut r = String::new();
    push_str(&mut r, "get-datastack [ dup integer? [ . ] [ drop ] if ] each\n\"%%NF-STACK%%\\n\" write flush\n");
    r
}

/// The command that loads the source file at `path`.
pub open spec fn load_command_spec(path: Seq<char>, forth_source: bool) -> Seq<char> {
    "\""@ + escape_spec(path) + if forth_source {
        "\" forth-load"@
    } else {
        "\" load-file"@
    }
}

/// The command that loads a source file: `forth-load` for Forth source,
/// `load-file` otherwise.
pub fn load_command(path: &str, forth_source: bool) -> (r: String)
    ensures
        r@ == load_command_spec(path@, forth_source),
{
    let mut r = String::new();
    push_str(&mut r, "\"");
    let e = escape_backslashes(path);
    push_str(&mut r, e.as_str());
    if forth_source {
        push_str(&mut r, "\" forth-load");
    } else {
        push_str(&mut r, "\" load-file");
    }
    r
}

/// A bare file name: no `/`, backslash or `:` that some platform reads as a
/// separator or a prefix, and no leading dot. Every platform takes such a
/// path as one file name.
pub open spec fn bare_name(p: Seq<char>) -> bool {
    &&& !p.contains('/')
    &&& !p.contains('\\')
    &&& !p.contains(':')
    &&& !(p.len() > 0 && p[0] == '.')
}

/// The text after the last dot of `p`, if it holds one.
pub open spec fn after_last_dot(p: Seq<char>) -> Option<Seq<char>>
    decreases p.len(),
{
    if p.len() == 0 {
        None
    } else if p.last() == '.' {
        Some(seq![])
    } else {
        match after_last_dot(p.drop_last()) {
            Some(e) => Some(e.push(p.last())),
            None => None,
        }
    }
}

/// The text after the last `/` of `p` (all of `p` when it has none).
pub open spec fn last_component(p: Seq<char>) -> Seq<char>
    decreases p.len(),
{
    if p.len() == 0 {
        seq![]
    } else if p.last() == '/' {
        seq![]
    } else {
        last_component(p.drop_last()).push(p.last())
    }
}

/// A path whose only separator is `/`, read alike on every platform: no
/// backslash or `:`, no leading `//` (a network prefix on some platforms),
/// and a last component that is not empty and does not begin with a dot
/// (so neither `.` nor `..`). Its file name is its last component.
pub open spec fn slash_path(p: Seq<char>) -> bool {
    &&& !p.contains('\\')
    &&& !p.contains(':')
    &&& !(p.len() >= 2 && p[0] == '/' && p[1] == '/')
    &&& last_component(p).len() > 0
    &&& last_component(p)[0] != '.'
}

/// `std::path::Path::extension` of `path`, as text. An extension holds no
/// dot and is shorter than the path. Of a bare file name, or of a path
/// whose only separator is `/` ([`slash_path`]), which every platform
/// splits alike, it is the text after the last dot of the file name, and
/// there is none without a dot. Of other paths, how they split into
/// components depends on the platform, and nothing more is stated.
#[verifier::external_body]
fn file_extension(path: &str) -> (r: Option<String>)
    ensures
        r matches Some(e) ==> !e@.contains('.') && e@.len() < path@.len(),
        bare_name(path@) ==> match after_last_dot(path@) {
            None => r is None,
            Some(x) => r matches Some(e) && e@ == x,
        },
        slash_path(path@) ==> match after_last_dot(last_component(path@)) {
            None => r is None,
            Some(x) => r matches Some(e) && e@ == x,
        },
{
    match std::path::Path::new(path).extension() {
        None => None,
        Some(e) => match e.to_str() {
            None => None,
            Some(t) => Some(t.to_owned()),
        },
    }
}

/// The command that loads the source file at `path` whose extension is
/// `ext`: as Forth source exactly when the extension is `fth`.
pub fn load_command_for(path: &str, ext: Option<&str>) -> (r: String)
    ensures
        r@ == load_command_spec(path@, ext matches Some(e) && e@ == "fth"@),
{
    let forth = match ext {
        Some(e) => str_is_fth(e),
        None => false,
    };
    load_command(path, forth)
}

fn str_is_fth(e: &str) -> (r: bool)
    ensures
        r == (e@ == "fth"@),
{
    proof {
        reveal_strlit("fth");
    }
    let cs = chars_of(e);
    proof {
        assert(cs@ == e@);
    }
    if cs.len() != 3 {
        return false;
    }
    let r = cs[0] == 'f' && cs[1] == 't' && cs[2] == 'h';
    proof {
        if r {
            assert(cs@ =~= "fth"@);
        } else {
            assert(cs@ != "fth"@) by {
                if cs@ == "fth"@ {
                    assert(cs@[0] == 'f' && cs@[1] == 't' && cs@[2] == 'h');
                }
            }
        }
    }
    r
}

/// The command that loads the source file at `path`: as Forth source when
/// the extension that `std::path::Path::extension` finds is `fth` (for a
/// bare file name, the text after its last dot).
pub fn load_source_command(path: &str) -> (r: String)
    ensures
        r@ == load_command_spec(path@, true) || r@ == load_command_spec(path@, false),
        bare_name(path@) ==> r@ == load_command_spec(path@, after_last_dot(path@) == Some("fth"@)),
        slash_path(path@) ==> r@ == load_command_spec(
            path@,
            after_last_dot(last_component(path@)) == Some("fth"@),
        ),
{
    let ext = file_extension(path);
    match ext {
        Some(e) => load_command_for(path, Some(e.as_str())),
        None => load_command_for(path, None),
    }
}

/// `cs` without its trailing carriage returns and line feeds.
pub open spec fn trim_line_end(cs: Seq<char>) -> Seq<char>
    decreases cs.len(),
{
    if cs.len() > 0 && (cs.last() == '\r' || cs.last() == '\n') {
        trim_line_end(cs.drop_last())
    } else {
        cs
    }
}

/// Collects the listener's output up to the sentinel line.
pub struct SentinelScan {
    pub output: String,
}

impl SentinelScan {
    pub fn new() -> (s: SentinelScan)
        ensures
            s.output@.len() == 0,
    {
        SentinelScan { output: String::new() }
    }

    /// Takes one line as read (with its line end): true when it is the
    /// sentinel, otherwise it joins the output.
    pub fn feed(&mut self, line: &str, sentinel: &str) -> (done: bool)
        ensures
            done == (trim_line_end(line@) == sentinel@),
            done ==> final(self).output@ == old(self).output@,
            !done ==> final(self).output@ == old(self).output@ + line@,
    {
        let cs = chars_of(line);
        let mut end = cs.len();
        proof {
            assert(cs@.take(cs@.len() as int) =~= cs@);
        }
        while end > 0 && (cs[end - 1] == '\r' || cs[end - 1] == '\n')
            invariant
                end <= cs@.len(),
                trim_line_end(cs@.take(end as int)) == trim_line_end(cs@),
            decreases end,
        {
            proof {
                assert(cs@.take(end as int).drop_last() =~= cs@.take(end - 1));
            }
            end = end - 1;
        }
        proof {
            assert(cs@.take(cs@.len() as int) =~= cs@);
        }
        let trimmed = crate::let_lang::lexer::string_of(&cs, 0, end);
        let owned = sentinel.to_owned();
        proof {
            assert(cs@.subrange(0, end as int) =~= cs@.take(end as int));
            assert(line@ == cs@);
        }
        if trimmed == owned {
            return true;
        }
        push_str(&mut self.output, line);
        false
    }
}

pub open spec fn is_digit(c: char) -> bool {
    '0' <= c <= '9'
}

/// The value of a string of decimal digits.
pub open spec fn digits_value(ds: Seq<char>) -> nat
    decreases ds.len(),
{
    if ds.len() == 0 {
        0
    } else {
        digits_value(ds.drop_last()) * 10 + (ds.last() as nat - '0' as nat) as nat
    }
}

/// All of `ds` are decimal digits.
pub open spec fn all_digits(ds: Seq<char>) -> bool {
    forall|k: int| 0 <= k < ds.len() ==> is_digit(#[trigger] ds[k])
}

/// `cs` without a leading sign.
pub open spec fn unsigned_part(cs: Seq<char>) -> Seq<char> {
    if cs.len() > 0 && (cs[0] == '-' || cs[0] == '+') {
        cs.subrange(1, cs.len() as int)
    } else {
        cs
    }
}

/// What `str::parse::<i64>` gives: an optional sign and at least one
/// digit, when the value fits.
pub open spec fn parse_i64_spec(cs: Seq<char>) -> Option<i64> {
    let body = unsigned_part(cs);
    if body.len() == 0 || !all_digits(body) {
        None
    } else {
        let v: int = if cs[0] == '-' {
            -(digits_value(body) as int)
        } else {
            digits_value(body) as int
        };
        if i64::MIN <= v <= i64::MAX {
            Some(v as i64)
        } else {
            None
        }
    }
}

proof fn lemma_digits_value_grows(ds: Seq<char>, k: int)
    requires
        0 <= k <= ds.len(),
        all_digits(ds),
    ensures
        digits_value(ds) >= digits_value(ds.take(k)),
    decreases ds.len() - k,
{
    if k < ds.len() {
        lemma_digits_value_grows(ds, k + 1);
        assert(ds.take(k + 1).drop_last() =~= ds.take(k));
    } else {
        assert(ds.take(k) =~= ds);
    }
}

/// Parses a decimal integer (see [`parse_i64_spec`]).
pub fn parse_i64(text: &str) -> (r: Option<i64>)
    ensures
        r == parse_i64_spec(text@),
{
    let cs = chars_of(text);
    let n = cs.len();
    let neg = n > 0 && cs[0] == '-';
    let signed = n > 0 && (cs[0] == '-' || cs[0] == '+');
    let start: usize = if signed {
        1
    } else {
        0
    };
    let ghost body = if signed {
        cs@.subrange(1, n as int)
    } else {
        cs@
    };
    proof {
        assert(text@ == cs@);
    }
    if start >= n {
        proof {
            assert(body.len() == 0);
        }
        return None;
    }
    let mut acc: u128 = 0;
    let mut i: usize = start;
    while i < n
        invariant
            start <= i <= n,
            n == cs@.len(),
            body == cs@.subrange(start as int, n as int),
            text@ == cs@,
            start == (if cs@.len() > 0 && (cs@[0] == '-' || cs@[0] == '+') {
                1int
            } else {
                0int
            }),
            neg == (cs@.len() > 0 && cs@[0] == '-'),
            body == unsigned_part(cs@),
            forall|k: int| 0 <= k < i - start ==> is_digit(body[k]),
            acc == digits_value(body.take(i - start)),
            acc <= 0x8000_0000_0000_0000,
        decreases n - i,
    {
        let c = cs[i];
        if !('0' <= c && c <= '9') {
            proof {
                assert(body[i - start] == c);
                assert(!is_digit(body[i - start]));
                assert(!all_digits(body));
            }
            return None;
        }
        let d = (c as u32 - '0' as u32) as u128;
        proof {
            assert(body.take(i - start + 1).drop_last() =~= body.take(i - start));
            assert(body.take(i - start + 1).last() == c);
            assert(d == (c as nat - '0' as nat));
        }
        acc = acc * 10 + d;
        i = i + 1;
        if acc > 0x8000_0000_0000_0000 {
            // Too large for any sign: the rest cannot bring it back.
            proof {
                assert(acc == digits_value(body.take(i - start)));
                if all_digits(body) {
                    lemma_digits_value_grows(body, i - start);
                    assert(digits_value(body) > 0x8000_0000_0000_0000);
                }
            }
            return None;
        }
    }
    proof {
        assert(body.take(n - start) =~= body);
        assert(all_digits(body));
        assert(acc == digits_value(body));
    }
    if neg {
        if acc == 0x8000_0000_0000_0000 {
            Some(i64::MIN)
        } else {
            Some(0i64 - acc as i64)
        }
    } else if acc > 0x7FFF_FFFF_FFFF_FFFF {
        None
    } else {
        Some(acc as i64)
    }
}

/// The integers among `ls`, each line trimmed; other lines are skipped.
pub open spec fn stack_values_of(ls: Seq<Seq<char>>) -> Seq<i64>
    decreases ls.len(),
{
    if ls.len() == 0 {
        seq![]
    } else {
        let rest = stack_values_of(ls.drop_last());
        match parse_i64_spec(trim_spec(ls.last())) {
            Some(v) => rest.push(v),
            None => rest,
        }
    }
}

/// The integers the stack probe printed, one per line.
pub open spec fn stack_values(raw: Seq<char>) -> Seq<i64> {
    stack_values_of(lines_spec(raw))
}

/// Parses the stack probe's output (see [`stack_values`]).
pub fn parse_stack(raw: &str) -> (r: Vec<i64>)
    ensures
        r@ == stack_values(raw@),
{
    let ls = lines_of(raw);
    let ghost lv = strings_view(ls@);
    let mut out: Vec<i64> = Vec::new();
    let mut i: usize = 0;
    proof {
        assert(lv.take(0) =~= Seq::<Seq<char>>::empty());
    }
    while i < ls.len()
        invariant
            i <= ls@.len(),
            lv == strings_view(ls@),
            out@ == stack_values_of(lv.take(i as int)),
        decreases ls@.len() - i,
    {
        let t = crate::runtime::tokens::trimmed(ls[i].as_str());
        let p = parse_i64(t.as_str());
        proof {
            assert(lv.take(i + 1).drop_last() =~= lv.take(i as int));
            assert(lv.take(i + 1).last() == ls@[i as int]@);
        }
        match p {
            Some(v) => out.push(v),
            None => {},
        }
        i = i + 1;
    }
    proof {
        assert(lv.take(ls@.len() as int) =~= lv);
    }
    out
}

} // verus!
