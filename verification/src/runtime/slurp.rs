//! Files read whole for the kernel: a stack of their contents, the top
//! one current, and the path that the kernel passes to read one.

use vstd::prelude::*;

use crate::runtime::tokens::{str_from_utf8, trim_spec, trimmed};

verus! {

/// The file path in the bytes the kernel passed: their text with white
/// space trimmed from both ends, or `None` when they are not UTF-8.
pub fn slurp_path(path_bytes: &[u8]) -> (r: Option<String>)
    ensures
        match r {
            Some(p) => vstd::utf8::valid_utf8(path_bytes@) && p@ == trim_spec(
                vstd::utf8::decode_utf8(path_bytes@),
            ),
            None => !vstd::utf8::valid_utf8(path_bytes@),
        },
{
    match str_from_utf8(path_bytes) {
        None => None,
        Some(text) => Some(trimmed(text)),
    }
}

/// The contents of the files read so far and not yet released, the most
/// recent last.
pub struct SlurpStack {
    files: Vec<Vec<u8>>,
}

impl View for SlurpStack {
    type V = Seq<Seq<u8>>;

    closed spec fn view(&self) -> Seq<Seq<u8>> {
        Seq::new(self.files@.len(), |i: int| self.files@[i]@)
    }
}

impl SlurpStack {
    /// No file read.
    pub fn new() -> (s: SlurpStack)
        ensures
            s@ == Seq::<Seq<u8>>::empty(),
    {
        let s = SlurpStack { files: Vec::new() };
        proof {
            assert(s@ =~= Seq::<Seq<u8>>::empty());
        }
        s
    }

    /// Makes `bytes` the current file.
    pub fn push(&mut self, bytes: Vec<u8>)
        ensures
            final(self)@ == old(self)@.push(bytes@),
    {
        self.files.push(bytes);
        proof {
            assert(self@ =~= old(self)@.push(bytes@));
        }
    }

    /// The length of the current file, 0 when none is read.
    pub fn top_len(&self) -> (n: u64)
        ensures
            n == (if self@.len() == 0 {
                0
            } else {
                self@.last().len()
            }),
    {
        let k = self.files.len();
        if k == 0 {
            0
        } else {
            self.files[k - 1].len() as u64
        }
    }

    /// The bytes of the current file, if one is read.
    pub fn top(&self) -> (b: Option<&[u8]>)
        ensures
            match b {
                Some(t) => self@.len() > 0 && t@ == self@.last(),
                None => self@.len() == 0,
            },
    {
        let k = self.files.len();
        if k == 0 {
            None
        } else {
            Some(self.files[k - 1].as_slice())
        }
    }

    /// Releases the current file; nothing when none is read.
    pub fn pop(&mut self)
        ensures
            final(self)@ == (if old(self)@.len() == 0 {
                old(self)@
            } else {
                old(self)@.drop_last()
            }),
    {
        let _ = self.files.pop();
        proof {
            if old(self)@.len() > 0 {
                assert(self@ =~= old(self)@.drop_last());
            } else {
                assert(self@ =~= old(self)@);
            }
        }
    }
}

/// A file read and then released leaves the stack as it was; while it is
/// read, it is the current file and its length is the current length.
pub proof fn read_then_release(files: Seq<Seq<u8>>, bytes: Seq<u8>)
    ensures
        files.push(bytes).drop_last() == files,
        files.push(bytes).last() == bytes,
        files.push(bytes).len() > 0,
{
    assert(files.push(bytes).drop_last() =~= files);
}

} // verus!
