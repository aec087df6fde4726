//! Splitting text into lines as `str::lines` does.

use vstd::prelude::*;

use crate::let_lang::lexer::chars_of;

verus! {

/// `line` without one trailing carriage return.
pub open spec fn strip_cr(line: Seq<char>) -> Seq<char> {
    if line.len() > 0 && line.last() == '\r' {
        line.drop_last()
    } else {
        line
    }
}

/// The lines of `cs`: split at each line feed, each without a trailing
/// carriage return; a final line feed ends the last line rather than
/// starting an empty one, and empty text has no lines. `cur` is the line
/// collected so far.
pub open spec fn lines_from(cs: Seq<char>, i: int, cur: Seq<char>) -> Seq<Seq<char>>
    decreases cs.len() - i,
{
    if i < 0 || i >= cs.len() {
        if cur.len() == 0 {
            seq![]
        } else {
            seq![strip_cr(cur)]
        }
    } else if cs[i] == '\n' {
        seq![strip_cr(cur)] + lines_from(cs, i + 1, seq![])
    } else {
        lines_from(cs, i + 1, cur.push(cs[i]))
    }
}

pub open spec fn lines_spec(cs: Seq<char>) -> Seq<Seq<char>> {
    lines_from(cs, 0, seq![])
}

pub open spec fn strings_view(v: Seq<String>) -> Seq<Seq<char>> {
    v.map_values(|s: String| s@)
}

fn finish_line(cur: &Vec<char>) -> (s: String)
    ensures
        s@ == strip_cr(cur@),
{
    let n = cur.len();
    let end = if n > 0 && cur[n - 1] == '\r' {
        n - 1
    } else {
        n
    };
    let s = crate::let_lang::lexer::string_of(cur, 0, end);
    proof {
        assert(cur@.subrange(0, end as int) =~= strip_cr(cur@));
    }
    s
}

/// The lines of `text` (see [`lines_spec`]).
pub fn lines_of(text: &str) -> (r: Vec<String>)
    ensures
        strings_view(r@) == lines_spec(text@),
{
    let cs = chars_of(text);
    let n = cs.len();
    let mut out: Vec<String> = Vec::new();
    let mut cur: Vec<char> = Vec::new();
    let mut i: usize = 0;
    proof {
        assert(strings_view(out@) =~= seq![]);
        assert(seq![] + lines_from(cs@, 0, seq![]) =~= lines_from(cs@, 0, seq![]));
        assert(cur@ =~= seq![]);
    }
    while i < n
        invariant
            i <= n,
            n == cs@.len(),
            strings_view(out@) + lines_from(cs@, i as int, cur@) == lines_from(cs@, 0, seq![]),
        decreases n - i,
    {
        if cs[i] == '\n' {
            let ghost before = strings_view(out@);
            let l = finish_line(&cur);
            out.push(l);
            proof {
                assert(strings_view(out@) =~= before.push(strip_cr(cur@)));
                assert(before + (seq![strip_cr(cur@)] + lines_from(cs@, i + 1, seq![])) =~= before.push(
                    strip_cr(cur@),
                ) + lines_from(cs@, i + 1, seq![]));
            }
            cur = Vec::new();
            proof {
                assert(cur@ =~= seq![]);
            }
        } else {
            cur.push(cs[i]);
        }
        i = i + 1;
    }
    if cur.len() > 0 {
        let ghost before = strings_view(out@);
        let l = finish_line(&cur);
        out.push(l);
        proof {
            assert(strings_view(out@) =~= before + seq![strip_cr(cur@)]);
        }
    } else {
        proof {
            assert(strings_view(out@) + seq![] =~= strings_view(out@));
        }
    }
    proof {
        assert(text@ == cs@);
    }
    out
}

} // verus!
