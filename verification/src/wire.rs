//! Byte-level building blocks of the D-Bus wire format: little-endian
//! integers, alignment padding, and the encodings of the header-field
//! values (`s`, `o`, `g`, `u`) that the reply writer emits.

use vstd::prelude::*;

verus! {

/// Four bytes of `v`, least significant first.
pub open spec fn le_bytes(v: u32) -> Seq<u8> {
    seq![
        (v % 256) as u8,
        ((v / 256) % 256) as u8,
        ((v / 65536) % 256) as u8,
        (v / 16777216) as u8,
    ]
}

/// The `u32` whose little-endian bytes are `b0 b1 b2 b3`.
pub open spec fn u32_le(b0: u8, b1: u8, b2: u8, b3: u8) -> u32 {
    (b0 + b1 * 256 + b2 * 65536 + b3 * 16777216) as u32
}

/// The `u32` whose big-endian bytes are `b0 b1 b2 b3`.
pub open spec fn u32_be(b0: u8, b1: u8, b2: u8, b3: u8) -> u32 {
    u32_le(b3, b2, b1, b0)
}

/// Number of padding bytes that bring `len` up to a multiple of `align`.
pub open spec fn pad_len(len: int, align: int) -> int {
    (align - len % align) % align
}

/// `n` zero bytes.
pub open spec fn zeros(n: int) -> Seq<u8> {
    Seq::new(n as nat, |i: int| 0u8)
}

pub proof fn lemma_le_bytes_roundtrip(v: u32)
    ensures
        u32_le(le_bytes(v)[0], le_bytes(v)[1], le_bytes(v)[2], le_bytes(v)[3]) == v,
{
    let b0 = v % 256;
    let b1 = (v / 256) % 256;
    let b2 = (v / 65536) % 256;
    let b3 = v / 16777216;
    assert(b0 + b1 * 256 + b2 * 65536 + b3 * 16777216 == v) by (nonlinear_arith)
        requires
            b0 == v % 256,
            b1 == (v / 256) % 256,
            b2 == (v / 65536) % 256,
            b3 == v / 16777216,
    {
    }
}

pub proof fn lemma_pad_len_bounds(len: int, align: int)
    requires
        align > 0,
        len >= 0,
    ensures
        0 <= pad_len(len, align) < align,
        (len + pad_len(len, align)) % align == 0,
{
    assert((len + (align - len % align) % align) % align == 0) by (nonlinear_arith)
        requires
            align > 0,
            len >= 0,
    {
        let r = len % align;
        if r == 0 {
            assert((align - r) % align == 0);
        } else {
            assert((align - r) % align == align - r);
        }
    }
}

/// The value of an `s` or `o` header field written at offset `off`:
/// padding to 4, the byte length, the bytes and a terminating NUL.
pub open spec fn str_value(off: int, s: Seq<u8>) -> Seq<u8> {
    zeros(pad_len(off, 4)) + le_bytes(s.len() as u32) + s + seq![0u8]
}

/// The value of a `g` header field: length byte, the bytes, NUL.
pub open spec fn sig_value(s: Seq<u8>) -> Seq<u8> {
    seq![s.len() as u8] + s + seq![0u8]
}

/// Padding to 8, the field code and the one-character variant signature.
pub open spec fn field_head(off: int, code: u8, type_code: u8) -> Seq<u8> {
    zeros(pad_len(off, 8)) + seq![code, 1u8, type_code, 0u8]
}

pub open spec fn append_field_str(buf: Seq<u8>, code: u8, type_code: u8, s: Seq<u8>) -> Seq<u8> {
    let h = buf + field_head(buf.len() as int, code, type_code);
    h + str_value(h.len() as int, s)
}

pub open spec fn append_field_sig(buf: Seq<u8>, code: u8, s: Seq<u8>) -> Seq<u8> {
    buf + field_head(buf.len() as int, code, 0x67u8) + sig_value(s)
}

pub open spec fn append_field_u32(buf: Seq<u8>, code: u8, v: u32) -> Seq<u8> {
    let h = buf + field_head(buf.len() as int, code, 0x75u8);
    h + zeros(pad_len(h.len() as int, 4)) + le_bytes(v)
}

pub fn push_u32_le(buf: &mut Vec<u8>, v: u32)
    ensures
        final(buf)@ == old(buf)@ + le_bytes(v),
{
    buf.push((v % 256) as u8);
    buf.push(((v / 256) % 256) as u8);
    buf.push(((v / 65536) % 256) as u8);
    buf.push((v / 16777216) as u8);
    assert(final(buf)@ =~= old(buf)@ + le_bytes(v));
}

/// Appends zero bytes until the length is a multiple of `align`.
pub fn push_padding(buf: &mut Vec<u8>, align: usize)
    requires
        align == 4 || align == 8,
    ensures
        final(buf)@ == old(buf)@ + zeros(pad_len(old(buf)@.len() as int, align as int)),
{
    let ghost start = buf@;
    let n = (align - buf.len() % align) % align;
    let mut i: usize = 0;
    while i < n
        invariant
            n == pad_len(start.len() as int, align as int),
            n < 8,
            i <= n,
            buf@ == start + zeros(i as int),
        decreases n - i,
    {
        buf.push(0u8);
        i = i + 1;
        assert(buf@ =~= start + zeros(i as int));
    }
}

pub fn push_bytes(buf: &mut Vec<u8>, s: &[u8])
    ensures
        final(buf)@ == old(buf)@ + s@,
{
    let ghost start = buf@;
    let mut i: usize = 0;
    while i < s.len()
        invariant
            i <= s@.len(),
            buf@ == start + s@.subrange(0, i as int),
        decreases s@.len() - i,
    {
        buf.push(s[i]);
        i = i + 1;
        assert(buf@ =~= start + s@.subrange(0, i as int));
    }
    assert(s@.subrange(0, s@.len() as int) =~= s@);
}

fn push_field_head(buf: &mut Vec<u8>, code: u8, type_code: u8)
    ensures
        final(buf)@ == old(buf)@ + field_head(old(buf)@.len() as int, code, type_code),
{
    push_padding(buf, 8);
    buf.push(code);
    buf.push(1u8);
    buf.push(type_code);
    buf.push(0u8);
    assert(final(buf)@ =~= old(buf)@ + field_head(old(buf)@.len() as int, code, type_code));
}

/// Appends a header field whose value is a string or object path.
pub fn push_field_str(buf: &mut Vec<u8>, code: u8, type_code: u8, s: &[u8])
    requires
        s@.len() <= u32::MAX,
    ensures
        final(buf)@ == append_field_str(old(buf)@, code, type_code, s@),
{
    push_field_head(buf, code, type_code);
    push_padding(buf, 4);
    push_u32_le(buf, s.len() as u32);
    push_bytes(buf, s);
    buf.push(0u8);
    assert(final(buf)@ =~= append_field_str(old(buf)@, code, type_code, s@));
}

/// Appends a `SIGNATURE` header field.
pub fn push_field_sig(buf: &mut Vec<u8>, code: u8, s: &[u8])
    requires
        s@.len() <= 255,
    ensures
        final(buf)@ == append_field_sig(old(buf)@, code, s@),
{
    push_field_head(buf, code, 0x67u8);
    buf.push(s.len() as u8);
    push_bytes(buf, s);
    buf.push(0u8);
    assert(final(buf)@ =~= append_field_sig(old(buf)@, code, s@));
}

/// Appends a header field whose value is a `u32`.
pub fn push_field_u32(buf: &mut Vec<u8>, code: u8, v: u32)
    ensures
        final(buf)@ == append_field_u32(old(buf)@, code, v),
{
    push_field_head(buf, code, 0x75u8);
    push_padding(buf, 4);
    push_u32_le(buf, v);
    assert(final(buf)@ =~= append_field_u32(old(buf)@, code, v));
}

} // verus!
