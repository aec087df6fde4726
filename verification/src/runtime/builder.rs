//! The kernel's mutable string builder, held as plain values: its header
//! word (type, length and GC bits), its capacity in bytes, and its
//! payload bytes.

use vstd::prelude::*;

use crate::runtime::machine::{
    builder_length, builder_with_length, encode_codepoint, header_length, header_other_bits,
    sb_append_plan, sb_append_spec, sb_int_bytes,
};
use crate::runtime::report::signed_cell;

verus! {

/// A string builder: `capacity` bytes of payload, of which the first
/// `header_length(header)` are its contents.
pub struct StringBuilder {
    header: u64,
    capacity: u32,
    payload: Vec<u8>,
}

/// What an append of `bytes` leaves in a builder's payload: the bytes
/// written at offset `length`, the rest untouched.
pub open spec fn written_at(payload: Seq<u8>, length: int, bytes: Seq<u8>) -> Seq<u8> {
    payload.take(length) + bytes + payload.skip(length + bytes.len())
}

impl StringBuilder {
    /// The payload holds the capacity, and the length lies within it.
    pub closed spec fn wf(&self) -> bool {
        &&& self.payload@.len() == self.capacity
        &&& header_length(self.header) <= self.capacity
    }

    /// All payload bytes.
    pub closed spec fn payload_view(&self) -> Seq<u8> {
        self.payload@
    }

    /// The length recorded in the header.
    pub closed spec fn length(&self) -> nat {
        header_length(self.header) as nat
    }

    /// The bytes appended so far.
    pub open spec fn contents(&self) -> Seq<u8> {
        self.payload_view().take(self.length() as int)
    }

    pub closed spec fn spec_capacity(&self) -> u32 {
        self.capacity
    }

    /// The header's type and GC bits.
    pub closed spec fn tag_bits(&self) -> (u64, u64) {
        header_other_bits(self.header)
    }

    /// In a well-formed builder the contents lie within the capacity: the
    /// payload holds the capacity, and the contents are as long as the
    /// recorded length.
    pub proof fn lemma_within_capacity(&self)
        requires
            self.wf(),
        ensures
            self.payload_view().len() == self.spec_capacity(),
            self.contents().len() == self.length(),
            self.length() <= self.spec_capacity(),
    {
    }

    /// A builder as allocated: the header word `header` with its length
    /// cleared, and `capacity` zero bytes of payload.
    pub fn fresh(header: u64, capacity: u32) -> (b: StringBuilder)
        ensures
            b.wf(),
            b.contents() == Seq::<u8>::empty(),
            b.spec_capacity() == capacity,
            b.tag_bits() == header_other_bits(header),
    {
        let h = builder_with_length(header, 0);
        let mut payload: Vec<u8> = Vec::new();
        let mut i: u32 = 0;
        while i < capacity
            invariant
                i <= capacity,
                payload@.len() == i,
            decreases capacity - i,
        {
            payload.push(0);
            i = i + 1;
        }
        let b = StringBuilder { header: h, capacity, payload };
        proof {
            assert(b.contents() =~= Seq::<u8>::empty());
        }
        b
    }

    /// The header word.
    pub fn header(&self) -> (h: u64)
        requires
            self.wf(),
        ensures
            header_other_bits(h) == self.tag_bits(),
            header_length(h) == self.contents().len(),
    {
        self.header
    }

    /// Appends `bytes`: 0 on success; all bits set, and nothing changed,
    /// when they do not fit in the capacity. The length field keeps the
    /// low 24 bits of the new length.
    pub fn append_bytes(&mut self, bytes: &[u8]) -> (r: u64)
        requires
            old(self).wf(),
        ensures
            final(self).wf(),
            final(self).spec_capacity() == old(self).spec_capacity(),
            final(self).tag_bits() == old(self).tag_bits(),
            old(self).contents().len() <= old(self).spec_capacity(),
            (r == 0) == (old(self).contents().len() + bytes@.len() <= old(self).spec_capacity()),
            ({
                let len = old(self).contents().len();
                match sb_append_spec(len as u32, old(self).spec_capacity(), bytes@.len() as u64) {
                    None => r == u64::MAX && *final(self) == *old(self),
                    Some(n) => {
                        &&& r == 0
                        &&& n == len + bytes@.len()
                        &&& final(self).payload_view() == written_at(old(self).payload_view(), len as int, bytes@)
                        &&& final(self).length() == n as nat % 0x100_0000
                        &&& (n < 0x100_0000 ==> final(self).contents() == old(self).contents()
                            + bytes@)
                    },
                }
            }),
    {
        let ghost old_payload = self.payload@;
        let length = builder_length(self.header);
        let plan = sb_append_plan(length, self.capacity, bytes.len() as u64);
        match plan {
            None => u64::MAX,
            Some(n) => {
                let start = length as usize;
                let k = bytes.len();
                let mut i: usize = 0;
                while i < k
                    invariant
                        i <= k,
                        k == bytes@.len(),
                        start + k <= self.payload@.len(),
                        start + k <= u32::MAX,
                        self.payload@.len() == old_payload.len(),
                        self.capacity == old(self).capacity,
                        self.header == old(self).header,
                        old_payload == old(self).payload@,
                        self.payload@ == written_at(old_payload, start as int, bytes@.take(i as int)),
                    decreases k - i,
                {
                    self.payload.set(start + i, bytes[i]);
                    proof {
                        assert(self.payload@ =~= written_at(
                            old_payload,
                            start as int,
                            bytes@.take(i + 1),
                        ));
                    }
                    i = i + 1;
                }
                proof {
                    assert(bytes@.take(k as int) =~= bytes@);
                    append_extends_contents(old_payload, start as int, bytes@);
                }
                self.header = builder_with_length(self.header, n);
                0
            },
        }
    }

    /// Appends the UTF-8 encoding of the code point in the low 32 bits of
    /// `codepoint`: all bits set, and nothing changed, for a surrogate or
    /// a value past U+10FFFF, or when it does not fit.
    pub fn append_codepoint(&mut self, codepoint: u64) -> (r: u64)
        requires
            old(self).wf(),
        ensures
            final(self).wf(),
            final(self).spec_capacity() == old(self).spec_capacity(),
            final(self).tag_bits() == old(self).tag_bits(),
            ({
                let v = (codepoint % 0x1_0000_0000) as u32;
                let len = old(self).contents().len();
                if !vstd::utf8::is_scalar(v) {
                    r == u64::MAX && *final(self) == *old(self)
                } else {
                    let e = vstd::utf8::encode_scalar(v);
                    match sb_append_spec(len as u32, old(self).spec_capacity(), e.len() as u64) {
                        None => r == u64::MAX && *final(self) == *old(self),
                        Some(n) => {
                            &&& r == 0
                            &&& final(self).payload_view() == written_at(old(self).payload_view(), len as int, e)
                            &&& final(self).length() == n as nat % 0x100_0000
                        },
                    }
                }
            }),
    {
        match encode_codepoint(codepoint) {
            None => u64::MAX,
            Some(e) => self.append_bytes(e.as_slice()),
        }
    }

    /// Appends the decimal text of `n` read as a signed cell.
    pub fn append_int(&mut self, n: u64) -> (r: u64)
        requires
            old(self).wf(),
        ensures
            final(self).wf(),
            final(self).spec_capacity() == old(self).spec_capacity(),
            final(self).tag_bits() == old(self).tag_bits(),
            ({
                let t = vstd::utf8::encode_utf8(signed_cell(n));
                let len = old(self).contents().len();
                match sb_append_spec(len as u32, old(self).spec_capacity(), t.len() as u64) {
                    None => r == u64::MAX && *final(self) == *old(self),
                    Some(k) => {
                        &&& r == 0
                        &&& final(self).payload_view() == written_at(old(self).payload_view(), len as int, t)
                        &&& final(self).length() == k as nat % 0x100_0000
                    },
                }
            }),
    {
        let t = sb_int_bytes(n);
        self.append_bytes(t.as_slice())
    }

    /// Finishes the builder: its contents, as the bytes of a new string;
    /// the builder is emptied and keeps its capacity.
    pub fn take_string(&mut self) -> (s: Vec<u8>)
        requires
            old(self).wf(),
        ensures
            final(self).wf(),
            s@ == old(self).contents(),
            final(self).contents() == Seq::<u8>::empty(),
            final(self).spec_capacity() == old(self).spec_capacity(),
            final(self).tag_bits() == old(self).tag_bits(),
    {
        let length = builder_length(self.header) as usize;
        let mut s: Vec<u8> = Vec::new();
        let mut i: usize = 0;
        while i < length
            invariant
                i <= length,
                length == header_length(self.header),
                length <= self.payload@.len(),
                s@ == self.payload@.take(i as int),
            decreases length - i,
        {
            s.push(self.payload[i]);
            proof {
                assert(self.payload@.take(i + 1) =~= self.payload@.take(i as int).push(
                    self.payload@[i as int],
                ));
            }
            i = i + 1;
        }
        self.header = builder_with_length(self.header, 0);
        proof {
            assert(self.contents() =~= Seq::<u8>::empty());
        }
        s
    }
}

/// Appending to a builder whose length stays below the header's 24-bit
/// field extends its contents by exactly the appended bytes.
pub proof fn append_extends_contents(payload: Seq<u8>, len: int, bytes: Seq<u8>)
    requires
        0 <= len,
        len + bytes.len() <= payload.len(),
    ensures
        written_at(payload, len, bytes).take(len + bytes.len()) == payload.take(len) + bytes,
        written_at(payload, len, bytes).len() == payload.len(),
{
    assert(written_at(payload, len, bytes).take(len + bytes.len()) =~= payload.take(len) + bytes);
}

} // verus!
