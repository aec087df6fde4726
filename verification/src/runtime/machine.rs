//! Machine code the runtime writes into the dictionary, the layout of
//! string-builder headers, and the small decisions of the allocators.

use vstd::prelude::*;

use crate::runtime::report::signed_cell;
use crate::text::{decimal, push_decimal, push_signed, push_str};

verus! {

/// Offset of the floating-point stack pointer in the user area.
pub const RT_USER_FSP: u64 = 0x1218;

/// Payload cells of one GC page; larger objects take the large-object
/// path, and a failed allocation of one is retried after compaction.
pub const PAGE_SIZE_CELLS: u64 = 8192;

/// The `n` low bytes of `v`, least significant first.
pub open spec fn le_bytes(v: nat, n: nat) -> Seq<u8>
    decreases n,
{
    if n == 0 {
        seq![]
    } else {
        seq![(v % 256) as u8] + le_bytes(v / 256, (n - 1) as nat)
    }
}

/// The four bytes of `v` as a little-endian 32-bit two's-complement word.
pub open spec fn le32(v: int) -> Seq<u8> {
    le_bytes((v % 0x1_0000_0000) as nat, 4)
}

/// The byte of `v` as an 8-bit two's-complement value.
pub open spec fn byte_of(v: int) -> u8 {
    (v % 256) as u8
}

/// The trampoline that calls a compiled LET function with `rcx` = FSP and
/// `rdx` = FSP + `delta`, on a 16-byte aligned stack with shadow space,
/// then moves FSP by `delta`.
pub open spec fn trampoline_spec(fn_addr: u64, delta: int) -> Seq<u8> {
    let fsp = le32(RT_USER_FSP as int);
    let small = -128 <= delta <= 127;
    seq![0x48u8, 0x8Bu8, 0x8Bu8] + fsp + (if delta == 0 {
        seq![0x48u8, 0x89u8, 0xCAu8]
    } else if small {
        seq![0x48u8, 0x8Du8, 0x51u8, byte_of(delta)]
    } else {
        seq![0x48u8, 0x8Du8, 0x91u8] + le32(delta)
    }) + seq![
        0x49u8,
        0x89u8,
        0xE4u8,
        0x48u8,
        0x83u8,
        0xE4u8,
        0xF0u8,
        0x48u8,
        0x83u8,
        0xECu8,
        0x20u8,
        0x48u8,
        0xB8u8,
    ] + le_bytes(fn_addr as nat, 8) + seq![0xFFu8, 0xD0u8, 0x4Cu8, 0x89u8, 0xE4u8] + (if delta == 0 {
        seq![]
    } else if small {
        seq![0x48u8, 0x83u8, 0x83u8] + fsp + seq![byte_of(delta)]
    } else {
        seq![0x48u8, 0x81u8, 0x83u8] + fsp + le32(delta)
    })
}

fn push_le(out: &mut Vec<u8>, v: u64, n: usize)
    requires
        n <= 8,
    ensures
        final(out)@ == old(out)@ + le_bytes(v as nat, n as nat),
{
    let mut m = v;
    let mut k: usize = 0;
    let ghost o0 = out@;
    while k < n
        invariant
            k <= n,
            o0 + le_bytes(v as nat, n as nat) == out@ + le_bytes(m as nat, (n - k) as nat),
        decreases n - k,
    {
        let ghost before = out@;
        out.push((m % 256) as u8);
        proof {
            assert(le_bytes(m as nat, (n - k) as nat) == seq![(m % 256) as u8] + le_bytes(
                (m / 256) as nat,
                (n - k - 1) as nat,
            ));
            assert(before + (seq![(m % 256) as u8] + le_bytes((m / 256) as nat, (n - k - 1) as nat))
                =~= out@ + le_bytes((m / 256) as nat, (n - k - 1) as nat));
        }
        m = m / 256;
        k = k + 1;
    }
    proof {
        assert(le_bytes(m as nat, 0) =~= seq![]);
        assert(out@ + seq![] =~= out@);
    }
}

fn push_bytes(out: &mut Vec<u8>, bytes: &[u8])
    ensures
        final(out)@ == old(out)@ + bytes@,
{
    let mut i: usize = 0;
    let ghost o0 = out@;
    while i < bytes.len()
        invariant
            i <= bytes@.len(),
            out@ == o0 + bytes@.take(i as int),
        decreases bytes@.len() - i,
    {
        out.push(bytes[i]);
        proof {
            assert(bytes@.take(i + 1) =~= bytes@.take(i as int).push(bytes@[i as int]));
        }
        i = i + 1;
    }
    proof {
        assert(bytes@.take(bytes@.len() as int) =~= bytes@);
    }
}

/// The low 32 bits of `v` as an unsigned word.
fn word32(v: i128) -> (r: u64)
    requires
        -0x1_0000_0000_0000_0000 < v < 0x1_0000_0000_0000_0000,
    ensures
        r == v % 0x1_0000_0000,
{
    if v >= 0 {
        (v % 0x1_0000_0000) as u64
    } else {
        let m = (-v) % 0x1_0000_0000;
        proof {
            assert((0x1_0000_0000 - m) % 0x1_0000_0000 == v % 0x1_0000_0000) by (nonlinear_arith)
                requires
                    v < 0,
                    m == (-v) % 0x1_0000_0000,
            ;
        }
        ((0x1_0000_0000 - m) % 0x1_0000_0000) as u64
    }
}

/// The bytes of the trampoline for a LET function at `fn_addr` with
/// `n_in` inputs and `n_out` outputs: FSP moves by `(n_in - n_out) * 8`.
pub fn emit_let_trampoline(fn_addr: u64, n_in: usize, n_out: usize) -> (code: Vec<u8>)
    requires
        n_in < 0x1000_0000_0000_0000,
        n_out < 0x1000_0000_0000_0000,
    ensures
        code@ == trampoline_spec(fn_addr, (n_in - n_out) * 8),
{
    let delta: i128 = (n_in as i128 - n_out as i128) * 8;
    let small = -128 <= delta && delta <= 127;
    let mut code: Vec<u8> = Vec::new();
    // mov rcx, qword ptr [rbx + USER_FSP]
    push_bytes(&mut code, &[0x48u8, 0x8Bu8, 0x8Bu8]);
    push_le(&mut code, RT_USER_FSP, 4);
    let ghost part1 = code@;
    // rdx = rcx + delta
    if delta == 0 {
        push_bytes(&mut code, &[0x48u8, 0x89u8, 0xCAu8]);
    } else if small {
        let b = word32(delta) % 256;
        proof {
            assert(b == delta % 256) by (nonlinear_arith)
                requires
                    b == (delta % 0x1_0000_0000) % 256,
            ;
        }
        push_bytes(&mut code, &[0x48u8, 0x8Du8, 0x51u8, b as u8]);
    } else {
        push_bytes(&mut code, &[0x48u8, 0x8Du8, 0x91u8]);
        push_le(&mut code, word32(delta), 4);
    }
    let ghost part2 = code@;
    // mov r12, rsp; and rsp, -16; sub rsp, 32; mov rax, imm64
    push_bytes(
        &mut code,
        &[0x49u8, 0x89u8, 0xE4u8, 0x48u8, 0x83u8, 0xE4u8, 0xF0u8, 0x48u8, 0x83u8, 0xECu8, 0x20u8, 0x48u8, 0xB8u8],
    );
    push_le(&mut code, fn_addr, 8);
    // call rax; mov rsp, r12
    push_bytes(&mut code, &[0xFFu8, 0xD0u8, 0x4Cu8, 0x89u8, 0xE4u8]);
    let ghost part3 = code@;
    // add qword ptr [rbx + USER_FSP], delta
    if delta == 0 {
    } else if small {
        let b = word32(delta) % 256;
        proof {
            assert(b == delta % 256) by (nonlinear_arith)
                requires
                    b == (delta % 0x1_0000_0000) % 256,
            ;
        }
        push_bytes(&mut code, &[0x48u8, 0x83u8, 0x83u8]);
        push_le(&mut code, RT_USER_FSP, 4);
        code.push(b as u8);
    } else {
        push_bytes(&mut code, &[0x48u8, 0x81u8, 0x83u8]);
        push_le(&mut code, RT_USER_FSP, 4);
        push_le(&mut code, word32(delta), 4);
    }
    proof {
        assert(code@ =~= trampoline_spec(fn_addr, (n_in - n_out) * 8));
    }
    code
}

/// The 21-byte stub compiled by `S$"`: spill TOS, load the string's
/// tagged pointer from its literal slot at `slot_addr`, lower DSP.
pub open spec fn s_literal_stub_spec(slot_addr: u64) -> Seq<u8> {
    seq![0x48u8, 0x89u8, 0x45u8, 0xF8u8, 0x48u8, 0xB8u8] + le_bytes(slot_addr as nat, 8) + seq![
        0x48u8,
        0x8Bu8,
        0x00u8,
        0x48u8,
        0x83u8,
        0xEDu8,
        0x08u8,
    ]
}

/// The bytes of the `S$"` stub for the literal slot at `slot_addr`.
pub fn s_literal_stub(slot_addr: u64) -> (code: Vec<u8>)
    ensures
        code@ == s_literal_stub_spec(slot_addr),
        code@.len() == 21,
{
    let mut code: Vec<u8> = Vec::new();
    push_bytes(&mut code, &[0x48u8, 0x89u8, 0x45u8, 0xF8u8, 0x48u8, 0xB8u8]);
    push_le(&mut code, slot_addr, 8);
    push_bytes(&mut code, &[0x48u8, 0x8Bu8, 0x00u8, 0x48u8, 0x83u8, 0xEDu8, 0x08u8]);
    proof {
        assert(code@ =~= s_literal_stub_spec(slot_addr));
        assert(le_bytes(slot_addr as nat, 8).len() == 8) by {
            reveal_with_fuel(le_bytes, 9);
        }
    }
    code
}

// ---------------------------------------------------------------------
// String-builder headers: bits 0..5 type, 5..29 length, 29.. GC bits.

/// The length field of a builder header.
pub open spec fn header_length(hdr: u64) -> u64 {
    (hdr / 32) % 0x100_0000
}

/// The bits of a header outside its length field.
pub open spec fn header_other_bits(hdr: u64) -> (u64, u64) {
    (hdr % 32, hdr / 0x2000_0000)
}

/// The length recorded in a builder header.
pub fn builder_length(hdr: u64) -> (len: u32)
    ensures
        len == header_length(hdr),
{
    proof {
        assert((hdr >> 5u64) & 0xFF_FFFFu64 == (hdr / 32) % 0x100_0000) by (bit_vector);
    }
    ((hdr >> 5u64) & 0xFF_FFFFu64) as u32
}

/// A builder header with its length field set to `new_length` (its low 24
/// bits); the type and GC bits are kept.
pub fn builder_with_length(hdr: u64, new_length: u32) -> (r: u64)
    ensures
        header_length(r) == new_length as u64 % 0x100_0000,
        header_other_bits(r) == header_other_bits(hdr),
{
    let cleared = hdr & !(0xFF_FFFFu64 << 5u64);
    let r = cleared | ((new_length as u64 & 0xFF_FFFFu64) << 5u64);
    let nl = new_length as u64;
    proof {
        assert(((hdr & !(0xFF_FFFFu64 << 5u64)) | ((nl & 0xFF_FFFFu64) << 5u64)) / 32 % 0x100_0000
            == nl % 0x100_0000) by (bit_vector);
        assert(((hdr & !(0xFF_FFFFu64 << 5u64)) | ((nl & 0xFF_FFFFu64) << 5u64)) % 32 == hdr % 32)
            by (bit_vector);
        assert(((hdr & !(0xFF_FFFFu64 << 5u64)) | ((nl & 0xFF_FFFFu64) << 5u64)) / 0x2000_0000
            == hdr / 0x2000_0000) by (bit_vector);
    }
    r
}

/// Setting a builder's length then reading it gives the length back
/// (within the field's 24 bits), and leaves the other bits alone.
pub proof fn builder_length_round_trip(hdr: u64, new_length: u32, r: u64)
    requires
        header_length(r) == new_length as u64 % 0x100_0000,
        header_other_bits(r) == header_other_bits(hdr),
        new_length < 0x100_0000,
    ensures
        header_length(r) == new_length,
        r % 32 == hdr % 32,
{
}

/// The builder's new length after appending `len` bytes, or `None` when
/// they do not fit in its capacity.
pub open spec fn sb_append_spec(length: u32, capacity: u32, len: u64) -> Option<u32> {
    if len == 0 {
        Some(length)
    } else if length + len > capacity {
        None
    } else {
        Some((length + len) as u32)
    }
}

/// Decides an append of `len` bytes to a builder holding `length` of
/// `capacity` bytes.
pub fn sb_append_plan(length: u32, capacity: u32, len: u64) -> (r: Option<u32>)
    ensures
        r == sb_append_spec(length, capacity, len),
{
    if len == 0 {
        return Some(length);
    }
    if len > capacity as u64 || length as u64 + len > capacity as u64 {
        return None;
    }
    Some((length as u64 + len) as u32)
}

/// The UTF-8 encoding of the code point in the low 32 bits of
/// `codepoint`, or `None` for a surrogate or a value past U+10FFFF.
pub fn encode_codepoint(codepoint: u64) -> (r: Option<Vec<u8>>)
    ensures
        ({
            let v = (codepoint % 0x1_0000_0000) as u32;
            match r {
                Some(b) => vstd::utf8::is_scalar(v) && b@ == vstd::utf8::encode_scalar(v),
                None => !vstd::utf8::is_scalar(v),
            }
        }),
{
    let v = (codepoint % 0x1_0000_0000) as u32;
    if !(v < 0xD800 || (0xE000 <= v && v <= 0x10FFFF)) {
        return None;
    }
    let mut b: Vec<u8> = Vec::new();
    if v < 0x80 {
        b.push((v & 0x7F) as u8);
    } else if v < 0x800 {
        b.push(0xC0u8 | ((v >> 6) & 0x1F) as u8);
        b.push(0x80u8 | (v & 0x3F) as u8);
    } else if v < 0x10000 {
        b.push(0xE0u8 | ((v >> 12) & 0x0F) as u8);
        b.push(0x80u8 | ((v >> 6) & 0x3F) as u8);
        b.push(0x80u8 | (v & 0x3F) as u8);
    } else {
        b.push(0xF0u8 | ((v >> 18) & 0x7) as u8);
        b.push(0x80u8 | ((v >> 12) & 0x3F) as u8);
        b.push(0x80u8 | ((v >> 6) & 0x3F) as u8);
        b.push(0x80u8 | (v & 0x3F) as u8);
    }
    proof {
        assert(b@ =~= vstd::utf8::encode_scalar(v));
    }
    Some(b)
}

/// The bytes that appending the integer `n` adds to a builder: the
/// UTF-8 text of `n` read as a signed cell.
pub fn sb_int_bytes(n: u64) -> (b: Vec<u8>)
    ensures
        b@ == vstd::utf8::encode_utf8(signed_cell(n)),
{
    let mut s = String::new();
    push_signed(&mut s, n as i64);
    vstd::slice::slice_to_vec(s.as_str().as_bytes())
}

/// The answer of `$=` for two strings, given their tagged pointers,
/// headers and payloads.
pub open spec fn string_equal_spec(
    tagged_a: u64,
    tagged_b: u64,
    header_a: u64,
    header_b: u64,
    payload_a: Seq<u8>,
    payload_b: Seq<u8>,
) -> u64 {
    if tagged_a == tagged_b {
        u64::MAX
    } else if header_length(header_a) != header_length(header_b) {
        0
    } else if payload_a.take(header_length(header_a) as int) == payload_b.take(
        header_length(header_a) as int,
    ) {
        u64::MAX
    } else {
        0
    }
}

/// String equality is symmetric, and for two strings whose pointers are
/// equal only when their contents are (distinct objects, or the same
/// one), it answers Forth true exactly when their contents are equal.
pub proof fn string_equality_law(
    tagged_a: u64,
    tagged_b: u64,
    header_a: u64,
    header_b: u64,
    payload_a: Seq<u8>,
    payload_b: Seq<u8>,
)
    requires
        payload_a.len() >= header_length(header_a),
        payload_b.len() >= header_length(header_b),
        tagged_a == tagged_b ==> payload_a.take(header_length(header_a) as int) == payload_b.take(
            header_length(header_b) as int,
        ),
    ensures
        string_equal_spec(tagged_a, tagged_b, header_a, header_b, payload_a, payload_b)
            == string_equal_spec(tagged_b, tagged_a, header_b, header_a, payload_b, payload_a),
        string_equal_spec(tagged_a, tagged_b, header_a, header_b, payload_a, payload_b) == (if payload_a.take(
            header_length(header_a) as int,
        ) == payload_b.take(header_length(header_b) as int) {
            u64::MAX
        } else {
            0
        }),
{
    let la = header_length(header_a) as int;
    let lb = header_length(header_b) as int;
    if la != lb {
        assert(payload_a.take(la).len() != payload_b.take(lb).len());
    }
}

/// Whether two strings are equal, as the kernel's `$=` answers it: Forth
/// true (all bits set) for the same object, or for equal lengths and equal
/// payload bytes; 0 otherwise. The lengths come from the two headers and
/// the payloads are the bytes that follow each header.
pub fn string_bytes_equal(
    tagged_a: u64,
    tagged_b: u64,
    header_a: u64,
    header_b: u64,
    payload_a: &[u8],
    payload_b: &[u8],
) -> (r: u64)
    requires
        payload_a@.len() >= header_length(header_a),
        payload_b@.len() >= header_length(header_b),
    ensures
        r == string_equal_spec(tagged_a, tagged_b, header_a, header_b, payload_a@, payload_b@),
{
    if tagged_a == tagged_b {
        return u64::MAX;
    }
    let len_a = builder_length(header_a);
    let len_b = builder_length(header_b);
    if len_a != len_b {
        return 0;
    }
    let n = len_a as usize;
    let mut i: usize = 0;
    while i < n
        invariant
            i <= n,
            n == header_length(header_a),
            n == header_length(header_b),
            tagged_a != tagged_b,
            n <= payload_a@.len(),
            n <= payload_b@.len(),
            payload_a@.take(i as int) == payload_b@.take(i as int),
        decreases n - i,
    {
        if payload_a[i] != payload_b[i] {
            proof {
                assert(payload_a@.take(n as int)[i as int] != payload_b@.take(n as int)[i as int]);
                assert(payload_a@.take(n as int) != payload_b@.take(n as int));
            }
            return 0;
        }
        proof {
            assert(payload_a@.take(i + 1) =~= payload_a@.take(i as int).push(payload_a@[i as int]));
            assert(payload_b@.take(i + 1) =~= payload_b@.take(i as int).push(payload_b@[i as int]));
        }
        i = i + 1;
    }
    u64::MAX
}

/// Whether an allocation of `n` cells or bytes is representable (the
/// object headers hold 32-bit lengths).
pub fn alloc_len_ok(n: u64) -> (r: bool)
    ensures
        r == (n <= u32::MAX),
{
    n <= u32::MAX as u64
}

/// Whether a failed allocation of `payload_cells` is retried after a full
/// compacting collection (only large objects are).
pub fn retry_after_compaction(payload_cells: u64) -> (r: bool)
    ensures
        r == (payload_cells > PAGE_SIZE_CELLS),
{
    payload_cells > PAGE_SIZE_CELLS
}

/// Payload cells of a string of `len` bytes.
pub fn string_payload_cells(len: u64) -> (r: u64)
    requires
        len <= u32::MAX,
    ensures
        r == (len + 7) / 8,
{
    (len + 7) / 8
}

/// Cells of a string builder with `capacity` bytes: two header cells and
/// the payload.
pub fn builder_cells(capacity: u64) -> (r: u64)
    requires
        capacity <= u32::MAX,
    ensures
        r == 2 + (capacity + 7) / 8,
{
    2 + (capacity + 7) / 8
}

/// Whether both GC root regions are sane: each region's next free slot
/// is not below its base.
pub fn root_regions_ok(regions: &[(u64, u64); 2]) -> (r: bool)
    ensures
        r == (regions@[0].1 >= regions@[0].0 && regions@[1].1 >= regions@[1].0),
{
    let a = regions[0];
    let b = regions[1];
    a.1 >= a.0 && b.1 >= b.0
}

/// Depth of the data stack given DSP and its base SP0: the cached TOS
/// plus the cells between them, or 0 when DSP is above its base.
pub fn stack_depth(dsp: u64, sp0: u64) -> (r: u64)
    ensures
        r == (if dsp > sp0 {
            0
        } else {
            (sp0 - dsp) / 8 + 1
        }),
{
    if dsp > sp0 {
        0
    } else {
        (sp0 - dsp) / 8 + 1
    }
}

/// `n` in decimal with leading zeros to at least four digits.
pub open spec fn pad4(n: nat) -> Seq<char> {
    let d = decimal(n);
    if d.len() < 4 {
        Seq::new((4 - d.len()) as nat, |k: int| '0') + d
    } else {
        d
    }
}

/// `prefix` followed by `counter` in at least four digits: the names of
/// the functions and modules compiled for `LET` and `CODE:`.
pub fn numbered_name(prefix: &str, counter: usize) -> (s: String)
    ensures
        s@ == prefix@ + pad4(counter as nat),
{
    let mut digits = String::new();
    push_decimal(&mut digits, counter as u128);
    let mut s = String::new();
    push_str(&mut s, prefix);
    let ghost d = decimal(counter as nat);
    let mut k: usize = 0;
    let pad: usize = if counter < 10 {
        3
    } else if counter < 100 {
        2
    } else if counter < 1000 {
        1
    } else {
        0
    };
    proof {
        lemma_decimal_len(counter as nat);
    }
    while k < pad
        invariant
            k <= pad,
            s@ == prefix@ + Seq::new(k as nat, |j: int| '0'),
        decreases pad - k,
    {
        s.push('0');
        proof {
            assert(Seq::new((k + 1) as nat, |j: int| '0') =~= Seq::new(k as nat, |j: int| '0').push(
                '0',
            ));
        }
        k = k + 1;
    }
    push_str(&mut s, digits.as_str());
    proof {
        assert(s@ =~= prefix@ + pad4(counter as nat));
    }
    s
}

/// Decimal digits: one below 10, two below 100, three below 1000, at
/// least four from 1000 on.
proof fn lemma_decimal_len(n: nat)
    ensures
        n < 10 ==> decimal(n).len() == 1,
        10 <= n < 100 ==> decimal(n).len() == 2,
        100 <= n < 1000 ==> decimal(n).len() == 3,
        n >= 1000 ==> decimal(n).len() >= 4,
    decreases n,
{
    if n >= 10 {
        lemma_decimal_len(n / 10);
    }
}

/// The assembler source of a `CODE:` body: wrapped in `proc`/`endp`
/// for the label, with a final `next()`.
pub fn code_asm_source(label: &str, body: &str) -> (s: String)
    ensures
        s@ == ".intel_syntax noprefix\n.text\nproc("@ + label@ + ")\n"@ + body@
            + "\nnext()\nendp()\n"@,
{
    let mut s = String::new();
    push_str(&mut s, ".intel_syntax noprefix\n.text\nproc(");
    push_str(&mut s, label);
    push_str(&mut s, ")\n");
    push_str(&mut s, body);
    push_str(&mut s, "\nnext()\nendp()\n");
    s
}

} // verus!
