//! An offset-addressed buffer of Unicode code points.

use vstd::prelude::*;

verus! {

/// Largest number of code points a buffer may hold: every offset plus a small
/// look-ahead must stay representable in a 32-bit `usize`, and nested block
/// comments are counted in a `u32`.
pub const MAX_CODE_POINTS: usize = 0x7FFF_FFFF;

/// A text buffer addressed by code-point offset.
pub struct RopeBuffer {
    cps: Vec<u32>,
}

impl View for RopeBuffer {
    type V = Seq<u32>;

    closed spec fn view(&self) -> Seq<u32> {
        self.cps@
    }
}

/// The code point at `offset`, or `None` past the end.
pub open spec fn cp_at_spec(b: Seq<u32>, offset: int) -> Option<u32> {
    if 0 <= offset < b.len() {
        Some(b[offset])
    } else {
        None
    }
}

impl RopeBuffer {
    #[verifier::type_invariant]
    closed spec fn wf(self) -> bool {
        self.cps.len() <= MAX_CODE_POINTS
    }

    /// Builds a buffer holding the code points of `text`, in order.
    pub fn from_text(text: &str) -> (r: RopeBuffer)
        requires
            text@.len() <= MAX_CODE_POINTS,
        ensures
            r@ == text@.map_values(|c: char| c as u32),
    {
        let mut cps: Vec<u32> = Vec::new();
        let ghost chars = text@;
        for c in it: text.chars()
            invariant
                chars == text@,
                chars.len() <= MAX_CODE_POINTS,
                it.seq() == chars,
                cps@ == chars.take(it.index() as int).map_values(|c: char| c as u32),
        {
            proof {
                assert(chars.take(it.index() as int + 1) == chars.take(it.index() as int).push(c));
            }
            cps.push(c as u32);
        }
        proof {
            assert(chars.take(chars.len() as int) == chars);
        }
        RopeBuffer { cps }
    }

    /// Builds a buffer from raw code points.
    pub fn from_code_points(cps: Vec<u32>) -> (r: RopeBuffer)
        requires
            cps@.len() <= MAX_CODE_POINTS,
        ensures
            r@ == cps@,
    {
        RopeBuffer { cps }
    }

    /// Number of code points.
    pub fn len(&self) -> (n: usize)
        ensures
            n == self@.len(),
            n <= MAX_CODE_POINTS,
    {
        proof {
            use_type_invariant(self);
        }
        self.cps.len()
    }

    /// The code point at `offset`, or `None` past the end.
    pub fn char_at(&self, offset: usize) -> (r: Option<u32>)
        ensures
            r == cp_at_spec(self@, offset as int),
    {
        if offset < self.cps.len() {
            Some(self.cps[offset])
        } else {
            None
        }
    }
}

} // verus!
