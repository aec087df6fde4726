//! The table of C-runtime math functions a compiled LET may call.

use vstd::prelude::*;

use crate::let_lang::parser::strings_sv;
use crate::text::push_str;

verus! {

/// Host addresses of math functions, by name, in the order of
/// [`libm_functions`].
pub struct LibmTable {
    pub entries: Vec<(String, u64)>,
}

impl LibmTable {
    pub open spec fn sv(&self) -> Seq<(Seq<char>, u64)> {
        self.entries@.map_values(|e: (String, u64)| (e.0@, e.1))
    }

    /// An empty table.
    pub fn new() -> (t: LibmTable)
        ensures
            t.sv().len() == 0,
    {
        LibmTable { entries: Vec::new() }
    }
}

/// Names and arities of the math functions a LET may reference.
pub open spec fn libm_spec() -> Seq<(Seq<char>, usize)> {
    seq![
        ("sin"@, 1usize),
        ("cos"@, 1usize),
        ("tan"@, 1usize),
        ("asin"@, 1usize),
        ("acos"@, 1usize),
        ("atan"@, 1usize),
        ("exp"@, 1usize),
        ("log"@, 1usize),
        ("log2"@, 1usize),
        ("log10"@, 1usize),
        ("atan2"@, 2usize),
        ("pow"@, 2usize),
        ("hypot"@, 2usize),
        ("fmod"@, 2usize),
    ]
}

pub open spec fn funcs_sv(v: Seq<(String, usize)>) -> Seq<(Seq<char>, usize)> {
    v.map_values(|e: (String, usize)| (e.0@, e.1))
}

/// The math functions a LET may reference, with their arities.
pub fn libm_functions() -> (v: Vec<(String, usize)>)
    ensures
        funcs_sv(v@) == libm_spec(),
{
    let names = ["sin", "cos", "tan", "asin", "acos", "atan", "exp", "log", "log2", "log10", "atan2", "pow", "hypot", "fmod"];
    let mut v: Vec<(String, usize)> = Vec::new();
    let mut i: usize = 0;
    while i < 14
        invariant
            i <= 14,
            names@.len() == 14,
            v@.len() == i,
            forall|k: int| 0 <= k < i ==> v@[k].0@ == names@[k]@ && v@[k].1 == (if k < 10 {
                1usize
            } else {
                2usize
            }),
        decreases 14 - i,
    {
        let mut name = String::new();
        push_str(&mut name, names[i]);
        v.push((name, if i < 10 { 1 } else { 2 }));
        i = i + 1;
    }
    proof {
        reveal_strlit("sin");
        reveal_strlit("cos");
        reveal_strlit("tan");
        reveal_strlit("asin");
        reveal_strlit("acos");
        reveal_strlit("atan");
        reveal_strlit("exp");
        reveal_strlit("log");
        reveal_strlit("log2");
        reveal_strlit("log10");
        reveal_strlit("atan2");
        reveal_strlit("pow");
        reveal_strlit("hypot");
        reveal_strlit("fmod");
        assert(funcs_sv(v@) =~= libm_spec());
    }
    v
}

/// The table of the functions that resolved: `resolved[i]` is the address
/// found for the `i`-th of [`libm_functions`], if any.
pub open spec fn table_from_spec(resolved: Seq<Option<u64>>, k: int) -> Seq<(Seq<char>, u64)>
    decreases k,
{
    if k <= 0 {
        seq![]
    } else {
        let rest = table_from_spec(resolved, k - 1);
        match resolved[k - 1] {
            Some(a) => rest.push((libm_spec()[k - 1].0, a)),
            None => rest,
        }
    }
}

/// Builds the table from the addresses resolved for [`libm_functions`];
/// functions that did not resolve are left out.
pub fn libm_table_from(resolved: &Vec<Option<u64>>) -> (t: LibmTable)
    requires
        resolved@.len() == 14,
    ensures
        t.sv() == table_from_spec(resolved@, 14),
{
    let funcs = libm_functions();
    let mut t = LibmTable::new();
    let mut i: usize = 0;
    proof {
        assert(t.sv() =~= table_from_spec(resolved@, 0));
        assert(libm_spec().len() == 14);
        assert(funcs_sv(funcs@).len() == funcs@.len());
    }
    while i < 14
        invariant
            i <= 14,
            resolved@.len() == 14,
            funcs@.len() == 14,
            funcs_sv(funcs@) == libm_spec(),
            t.sv() == table_from_spec(resolved@, i as int),
        decreases 14 - i,
    {
        proof {
            assert(funcs_sv(funcs@)[i as int] == (
                funcs@[i as int].0@,
                funcs@[i as int].1,
            ));
        }
        match resolved[i] {
            Some(a) => {
                let ghost before = t.sv();
                t.entries.push((funcs[i].0.clone(), a));
                proof {
                    assert(t.sv() =~= before.push((libm_spec()[i as int].0, a)));
                }
            },
            None => {},
        }
        i = i + 1;
    }
    t
}

/// The table when there is no C runtime to resolve the functions in:
/// empty, so a LET that calls one is refused.
pub fn libm_address_table() -> (t: LibmTable)
    ensures
        t.sv().len() == 0,
{
    LibmTable::new()
}

} // verus!
