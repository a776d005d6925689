//! The reply writer and the header parser agree: a reply, read back,
//! says what it was written with.

use vstd::prelude::*;
use vstd::utf8::{encode_utf8, encode_utf8_decode_utf8, encode_utf8_valid_utf8};

use crate::encode::{lemma_reply_fields_len, method_return_bytes, reply_encodable, reply_fields};
use crate::message::{
    apply_field, empty_header, parse_field, parse_fields, read_u32_at, spec_parse_header, Endian,
    FieldRead, HeaderView, MessageType, ParseError,
};
use crate::wire::{
    append_field_sig, append_field_str, append_field_u32, field_head, le_bytes,
    lemma_le_bytes_roundtrip, pad_len, str_value, sig_value, zeros,
};

verus! {

/// `m` holds the bytes `g` starting at offset 16.
spec fn holds_at_16(m: Seq<u8>, g: Seq<u8>) -> bool {
    16 + g.len() as int <= m.len() as int && m.subrange(16, 16 + g.len() as int) == g
}

proof fn lemma_holds_prefix(m: Seq<u8>, f: Seq<u8>, x: Seq<u8>)
    requires
        holds_at_16(m, f + x),
    ensures
        holds_at_16(m, f),
{
    assert(m.subrange(16, 16 + f.len() as int) =~= (f + x).subrange(0, f.len() as int));
    assert((f + x).subrange(0, f.len() as int) =~= f);
}

proof fn lemma_holds_index(m: Seq<u8>, g: Seq<u8>, j: int)
    requires
        holds_at_16(m, g),
        0 <= j < g.len() as int,
    ensures
        m[16 + j] == g[j],
{
    assert(m.subrange(16, 16 + g.len() as int)[j] == m[16 + j]);
}

proof fn lemma_pad_shift(x: int, a: int)
    requires
        a == 4 || a == 8,
        x >= 0,
    ensures
        pad_len(16 + x, a) == pad_len(x, a),
{
    assert((16 + x) % a == x % a);
}

proof fn lemma_read_le_at(m: Seq<u8>, g: Seq<u8>, off: int, v: u32)
    requires
        holds_at_16(m, g),
        0 <= off,
        off + 4 <= g.len() as int,
        g.subrange(off, off + 4) == le_bytes(v),
    ensures
        read_u32_at(m, 16 + off, Endian::Little) == v,
{
    lemma_holds_index(m, g, off);
    lemma_holds_index(m, g, off + 1);
    lemma_holds_index(m, g, off + 2);
    lemma_holds_index(m, g, off + 3);
    assert(g.subrange(off, off + 4)[0] == g[off]);
    assert(g.subrange(off, off + 4)[1] == g[off + 1]);
    assert(g.subrange(off, off + 4)[2] == g[off + 2]);
    assert(g.subrange(off, off + 4)[3] == g[off + 3]);
    lemma_le_bytes_roundtrip(v);
}

/// The field head written at the end of `f` reads back from `m`.
proof fn lemma_head(m: Seq<u8>, f: Seq<u8>, code: u8, tc: u8, rest: Seq<u8>)
    requires
        holds_at_16(m, f + field_head(f.len() as int, code, tc) + rest),
    ensures
        ({
            let p = 16 + f.len() as int + pad_len(16 + f.len() as int, 8);
            &&& p == 16 + f.len() as int + pad_len(f.len() as int, 8)
            &&& m[p] == code
            &&& m[p + 1] == 1u8
            &&& m[p + 2] == tc
            &&& m[p + 3] == 0u8
        }),
{
    let g = f + field_head(f.len() as int, code, tc) + rest;
    let pad = pad_len(f.len() as int, 8);
    lemma_pad_shift(f.len() as int, 8);
    crate::wire::lemma_pad_len_bounds(f.len() as int, 8);
    let o = f.len() as int + pad;
    assert(g[o] == code);
    assert(g[o + 1] == 1u8);
    assert(g[o + 2] == tc);
    assert(g[o + 3] == 0u8);
    lemma_holds_index(m, g, o);
    lemma_holds_index(m, g, o + 1);
    lemma_holds_index(m, g, o + 2);
    lemma_holds_index(m, g, o + 3);
}

proof fn lemma_field_u32(m: Seq<u8>, f: Seq<u8>, code: u8, v: u32, end: int)
    requires
        holds_at_16(m, append_field_u32(f, code, v)),
        16 + append_field_u32(f, code, v).len() as int <= end <= m.len() as int,
    ensures
        parse_field(m, 16 + f.len() as int, end, Endian::Little) == Ok::<FieldRead, ParseError>(
            FieldRead {
                code,
                type_code: 0x75u8,
                text: Seq::empty(),
                number: v,
                next: 16 + append_field_u32(f, code, v).len() as int,
            },
        ),
{
    let hd = field_head(f.len() as int, code, 0x75u8);
    let h = f + hd;
    let pad4 = zeros(pad_len(h.len() as int, 4));
    let g = h + pad4 + le_bytes(v);
    assert(g == append_field_u32(f, code, v));
    assert(g == f + hd + (pad4 + le_bytes(v)));
    lemma_head(m, f, code, 0x75u8, pad4 + le_bytes(v));
    crate::wire::lemma_pad_len_bounds(f.len() as int, 8);
    crate::wire::lemma_pad_len_bounds(h.len() as int, 4);
    lemma_pad_shift(h.len() as int, 4);
    let off = h.len() as int + pad_len(h.len() as int, 4);
    assert(g.subrange(off, off + 4) =~= le_bytes(v));
    lemma_read_le_at(m, g, off, v);
}

/// A text value written at offset `o` of `g` reads back.
proof fn lemma_text_at(m: Seq<u8>, g: Seq<u8>, s0: int, s: Seq<char>, end: int, code: u8, tc: u8)
    requires
        holds_at_16(m, g),
        0 <= s0,
        s0 + encode_utf8(s).len() as int + 1 <= g.len() as int,
        16 + g.len() as int <= end <= m.len() as int,
        g.subrange(s0, s0 + encode_utf8(s).len() as int) == encode_utf8(s),
        g[s0 + encode_utf8(s).len() as int] == 0u8,
    ensures
        crate::message::read_text(m, 16 + s0, encode_utf8(s).len() as int, end, code, tc) == Ok::<
            FieldRead,
            ParseError,
        >(
            FieldRead {
                code,
                type_code: tc,
                text: s,
                number: 0,
                next: 16 + s0 + encode_utf8(s).len() as int + 1,
            },
        ),
{
    let b = encode_utf8(s);
    let n = b.len() as int;
    lemma_holds_index(m, g, s0 + n);
    assert(m.subrange(16 + s0, 16 + s0 + n) =~= g.subrange(s0, s0 + n)) by {
        assert forall|k: int| 0 <= k < n implies #[trigger] m.subrange(16 + s0, 16 + s0 + n)[k] == g.subrange(
            s0,
            s0 + n,
        )[k] by {
            lemma_holds_index(m, g, s0 + k);
        }
    }
    encode_utf8_valid_utf8(s);
    encode_utf8_decode_utf8(s);
}

proof fn lemma_field_str(m: Seq<u8>, f: Seq<u8>, code: u8, tc: u8, s: Seq<char>, end: int)
    requires
        tc == 0x73u8 || tc == 0x6fu8,
        holds_at_16(m, append_field_str(f, code, tc, encode_utf8(s))),
        16 + append_field_str(f, code, tc, encode_utf8(s)).len() as int <= end <= m.len() as int,
        encode_utf8(s).len() as int <= u32::MAX,
    ensures
        parse_field(m, 16 + f.len() as int, end, Endian::Little) == Ok::<FieldRead, ParseError>(
            FieldRead {
                code,
                type_code: tc,
                text: s,
                number: 0,
                next: 16 + append_field_str(f, code, tc, encode_utf8(s)).len() as int,
            },
        ),
{
    let b = encode_utf8(s);
    let n = b.len() as int;
    let hd = field_head(f.len() as int, code, tc);
    let h = f + hd;
    let sv = str_value(h.len() as int, b);
    let g = h + sv;
    assert(g == append_field_str(f, code, tc, b));
    assert(g == f + hd + sv);
    lemma_head(m, f, code, tc, sv);
    crate::wire::lemma_pad_len_bounds(f.len() as int, 8);
    crate::wire::lemma_pad_len_bounds(h.len() as int, 4);
    lemma_pad_shift(h.len() as int, 4);
    let off = h.len() as int + pad_len(h.len() as int, 4);
    assert(g.subrange(off, off + 4) =~= le_bytes(n as u32));
    lemma_read_le_at(m, g, off, n as u32);
    assert(g.subrange(off + 4, off + 4 + n) =~= b);
    assert(g[off + 4 + n] == 0u8);
    lemma_text_at(m, g, off + 4, s, end, code, tc);
}

proof fn lemma_field_sig(m: Seq<u8>, f: Seq<u8>, code: u8, s: Seq<char>, end: int)
    requires
        holds_at_16(m, append_field_sig(f, code, encode_utf8(s))),
        16 + append_field_sig(f, code, encode_utf8(s)).len() as int <= end <= m.len() as int,
        encode_utf8(s).len() as int <= 255,
    ensures
        parse_field(m, 16 + f.len() as int, end, Endian::Little) == Ok::<FieldRead, ParseError>(
            FieldRead {
                code,
                type_code: 0x67u8,
                text: s,
                number: 0,
                next: 16 + append_field_sig(f, code, encode_utf8(s)).len() as int,
            },
        ),
{
    let b = encode_utf8(s);
    let n = b.len() as int;
    let hd = field_head(f.len() as int, code, 0x67u8);
    let sv = sig_value(b);
    let g = f + hd + sv;
    assert(g == append_field_sig(f, code, b));
    lemma_head(m, f, code, 0x67u8, sv);
    crate::wire::lemma_pad_len_bounds(f.len() as int, 8);
    let off = f.len() as int + hd.len() as int;
    assert(g[off] == n as u8);
    lemma_holds_index(m, g, off);
    assert(g.subrange(off + 1, off + 1 + n) =~= b);
    assert(g[off + 1 + n] == 0u8);
    lemma_text_at(m, g, off + 1, s, end, code, 0x67u8);
}

proof fn lemma_step_u32(m: Seq<u8>, f: Seq<u8>, v: u32, end: int, acc: HeaderView)
    requires
        holds_at_16(m, append_field_u32(f, 5, v)),
        16 + append_field_u32(f, 5, v).len() as int <= end <= m.len() as int,
    ensures
        parse_fields(m, 16 + f.len() as int, end, Endian::Little, acc) == parse_fields(
            m,
            16 + append_field_u32(f, 5, v).len() as int,
            end,
            Endian::Little,
            HeaderView { reply_serial: Some(v), ..acc },
        ),
{
    lemma_field_u32(m, f, 5, v, end);
    let r = FieldRead {
        code: 5,
        type_code: 0x75u8,
        text: Seq::empty(),
        number: v,
        next: 16 + append_field_u32(f, 5, v).len() as int,
    };
    assert(apply_field(acc, r) == Ok::<HeaderView, ParseError>(HeaderView { reply_serial: Some(v), ..acc }));
}

proof fn lemma_step_str(m: Seq<u8>, f: Seq<u8>, code: u8, s: Seq<char>, end: int, acc: HeaderView)
    requires
        code == 6 || code == 7,
        holds_at_16(m, append_field_str(f, code, 0x73u8, encode_utf8(s))),
        16 + append_field_str(f, code, 0x73u8, encode_utf8(s)).len() as int <= end <= m.len() as int,
        encode_utf8(s).len() <= u32::MAX,
    ensures
        parse_fields(m, 16 + f.len() as int, end, Endian::Little, acc) == parse_fields(
            m,
            16 + append_field_str(f, code, 0x73u8, encode_utf8(s)).len() as int,
            end,
            Endian::Little,
            if code == 6 {
                HeaderView { destination: Some(s), ..acc }
            } else {
                HeaderView { sender: Some(s), ..acc }
            },
        ),
{
    lemma_field_str(m, f, code, 0x73u8, s, end);
    let r = FieldRead {
        code,
        type_code: 0x73u8,
        text: s,
        number: 0,
        next: 16 + append_field_str(f, code, 0x73u8, encode_utf8(s)).len() as int,
    };
    let next_acc = if code == 6 {
        HeaderView { destination: Some(s), ..acc }
    } else {
        HeaderView { sender: Some(s), ..acc }
    };
    assert(apply_field(acc, r) == Ok::<HeaderView, ParseError>(next_acc));
}

proof fn lemma_step_sig(m: Seq<u8>, f: Seq<u8>, s: Seq<char>, end: int, acc: HeaderView)
    requires
        holds_at_16(m, append_field_sig(f, 8, encode_utf8(s))),
        16 + append_field_sig(f, 8, encode_utf8(s)).len() as int <= end <= m.len() as int,
        encode_utf8(s).len() <= 255,
    ensures
        parse_fields(m, 16 + f.len() as int, end, Endian::Little, acc) == parse_fields(
            m,
            16 + append_field_sig(f, 8, encode_utf8(s)).len() as int,
            end,
            Endian::Little,
            HeaderView { signature: Some(s), ..acc },
        ),
{
    lemma_field_sig(m, f, 8, s, end);
    let r = FieldRead {
        code: 8,
        type_code: 0x67u8,
        text: s,
        number: 0,
        next: 16 + append_field_sig(f, 8, encode_utf8(s)).len() as int,
    };
    assert(apply_field(acc, r) == Ok::<HeaderView, ParseError>(HeaderView { signature: Some(s), ..acc }));
}

/// The fixed sixteen bytes of a reply read back, and hand over to the
/// field array, whatever the array holds.
proof fn lemma_fixed_part_any(our_serial: u32, f: Seq<u8>, body: Seq<u8>)
    requires
        f.len() <= u32::MAX,
        body.len() <= u32::MAX,
    ensures
        ({
            let m = seq![0x6cu8, 2u8, 0u8, 1u8] + le_bytes(body.len() as u32) + le_bytes(our_serial)
                + le_bytes(f.len() as u32) + f + zeros(pad_len(16 + f.len() as int, 8)) + body;
            &&& holds_at_16(m, f)
            &&& spec_parse_header(m) == parse_fields(
                m,
                16,
                16 + f.len() as int,
                Endian::Little,
                empty_header(Endian::Little, MessageType::MethodReturn, 0, body.len() as u32, our_serial),
            )
        }),
{
    let hdr = seq![0x6cu8, 2u8, 0u8, 1u8] + le_bytes(body.len() as u32) + le_bytes(our_serial)
        + le_bytes(f.len() as u32);
    let tail = zeros(pad_len(16 + f.len() as int, 8)) + body;
    let m = hdr + f + tail;
    assert(hdr.len() == 16);
    assert(m.subrange(16, 16 + f.len() as int) =~= f);
    assert(m[0] == 0x6cu8);
    assert(m[1] == 2u8);
    assert(m[2] == 0u8);
    assert(m[3] == 1u8);
    lemma_le_bytes_roundtrip(body.len() as u32);
    lemma_le_bytes_roundtrip(our_serial);
    lemma_le_bytes_roundtrip(f.len() as u32);
    assert(read_u32_at(m, 4, Endian::Little) == body.len() as u32);
    assert(read_u32_at(m, 8, Endian::Little) == our_serial);
    assert(read_u32_at(m, 12, Endian::Little) == f.len() as u32);
    assert(m == seq![0x6cu8, 2u8, 0u8, 1u8] + le_bytes(body.len() as u32) + le_bytes(our_serial)
        + le_bytes(f.len() as u32) + f + zeros(pad_len(16 + f.len() as int, 8)) + body);
}

proof fn lemma_fixed_part(
    our_serial: u32,
    reply_to: u32,
    destination: Option<Seq<char>>,
    sender: Option<Seq<char>>,
    signature: Seq<char>,
    body: Seq<u8>,
)
    requires
        reply_encodable(destination, sender, signature, body),
    ensures
        ({
            let m = method_return_bytes(our_serial, reply_to, destination, sender, signature, body);
            let f = reply_fields(reply_to, destination, sender, signature);
            &&& holds_at_16(m, f)
            &&& spec_parse_header(m) == parse_fields(
                m,
                16,
                16 + f.len() as int,
                Endian::Little,
                empty_header(Endian::Little, MessageType::MethodReturn, 0, body.len() as u32, our_serial),
            )
        }),
{
    let f = reply_fields(reply_to, destination, sender, signature);
    lemma_reply_fields_len(reply_to, destination, sender, signature);
    lemma_fixed_part_any(our_serial, f, body);
}

/// The header a reply's bytes describe.
pub open spec fn reply_header(
    our_serial: u32,
    reply_to: u32,
    destination: Option<Seq<char>>,
    sender: Option<Seq<char>>,
    signature: Seq<char>,
    body_len: u32,
) -> HeaderView {
    HeaderView {
        reply_serial: Some(reply_to),
        destination,
        sender,
        signature: if signature.len() > 0 {
            Some(signature)
        } else {
            None
        },
        ..empty_header(Endian::Little, MessageType::MethodReturn, 0, body_len, our_serial)
    }
}

/// A reply, read back by the header parser, gives its sender, its
/// destination, the serial it answers, its own serial, its body length
/// and its body signature.
pub proof fn lemma_reply_parses_back(
    our_serial: u32,
    reply_to: u32,
    destination: Option<Seq<char>>,
    sender: Option<Seq<char>>,
    signature: Seq<char>,
    body: Seq<u8>,
)
    requires
        reply_encodable(destination, sender, signature, body),
    ensures
        spec_parse_header(
            method_return_bytes(our_serial, reply_to, destination, sender, signature, body),
        ) == Ok::<HeaderView, ParseError>(
            reply_header(our_serial, reply_to, destination, sender, signature, body.len() as u32),
        ),
{
    let m = method_return_bytes(our_serial, reply_to, destination, sender, signature, body);
    let f = reply_fields(reply_to, destination, sender, signature);
    lemma_fixed_part(our_serial, reply_to, destination, sender, signature, body);
    let end = 16 + f.len() as int;
    let acc0 = empty_header(Endian::Little, MessageType::MethodReturn, 0, body.len() as u32, our_serial);
    let f0 = Seq::<u8>::empty();
    let f1 = append_field_u32(f0, 5, reply_to);
    let f2 = match destination {
        Some(d) => append_field_str(f1, 6, 0x73u8, encode_utf8(d)),
        None => f1,
    };
    let f3 = match sender {
        Some(s) => append_field_str(f2, 7, 0x73u8, encode_utf8(s)),
        None => f2,
    };
    // Each stage is a prefix of the next.
    if signature.len() > 0 {
        assert(f3 + (f.subrange(f3.len() as int, f.len() as int)) =~= f);
        lemma_holds_prefix(m, f3, f.subrange(f3.len() as int, f.len() as int));
    }
    assert(holds_at_16(m, f3));
    if let Some(s) = sender {
        assert(f2 + (f3.subrange(f2.len() as int, f3.len() as int)) =~= f3);
        lemma_holds_prefix(m, f2, f3.subrange(f2.len() as int, f3.len() as int));
    }
    assert(holds_at_16(m, f2));
    if let Some(d) = destination {
        assert(f1 + (f2.subrange(f1.len() as int, f2.len() as int)) =~= f2);
        lemma_holds_prefix(m, f1, f2.subrange(f1.len() as int, f2.len() as int));
    }
    assert(holds_at_16(m, f1));
    assert(f1.len() <= f2.len() <= f3.len() <= f.len());
    let p1 = 16 + f1.len() as int;
    let p2 = 16 + f2.len() as int;
    let p3 = 16 + f3.len() as int;
    let acc1 = HeaderView { reply_serial: Some(reply_to), ..acc0 };
    let acc2 = HeaderView { destination, ..acc1 };
    let acc3 = HeaderView { sender, ..acc2 };
    let acc4 = reply_header(our_serial, reply_to, destination, sender, signature, body.len() as u32);
    assert(parse_fields(m, 16, end, Endian::Little, acc0) == parse_fields(m, p1, end, Endian::Little, acc1))
        by {
        lemma_step_u32(m, f0, reply_to, end, acc0);
    }
    assert(parse_fields(m, p1, end, Endian::Little, acc1) == parse_fields(m, p2, end, Endian::Little, acc2))
        by {
        if let Some(d) = destination {
            lemma_step_str(m, f1, 6, d, end, acc1);
        } else {
            assert(acc2 == acc1);
        }
    }
    assert(parse_fields(m, p2, end, Endian::Little, acc2) == parse_fields(m, p3, end, Endian::Little, acc3))
        by {
        if let Some(s) = sender {
            lemma_step_str(m, f2, 7, s, end, acc2);
        } else {
            assert(acc3 == acc2);
        }
    }
    assert(parse_fields(m, p3, end, Endian::Little, acc3) == parse_fields(m, end, end, Endian::Little, acc4))
        by {
        if signature.len() > 0 {
            lemma_step_sig(m, f3, signature, end, acc3);
        }
        assert(acc4 == HeaderView { signature: acc4.signature, ..acc3 });
    }
    assert(parse_fields(m, end, end, Endian::Little, acc4) == Ok::<HeaderView, ParseError>(acc4));
}


/// One header field, with the value it carries.
pub enum HeaderField {
    Path(Seq<char>),
    Interface(Seq<char>),
    Member(Seq<char>),
    ErrorName(Seq<char>),
    ReplySerial(u32),
    Destination(Seq<char>),
    Sender(Seq<char>),
    Signature(Seq<char>),
    UnixFds(u32),
}

/// `buf` with the field appended, under its D-Bus code and type:
/// 1 PATH `o`, 2 INTERFACE `s`, 3 MEMBER `s`, 4 ERROR_NAME `s`,
/// 5 REPLY_SERIAL `u`, 6 DESTINATION `s`, 7 SENDER `s`, 8 SIGNATURE `g`,
/// 9 UNIX_FDS `u`.
pub open spec fn append_header_field(buf: Seq<u8>, hf: HeaderField) -> Seq<u8> {
    match hf {
        HeaderField::Path(t) => append_field_str(buf, 1, 0x6fu8, encode_utf8(t)),
        HeaderField::Interface(t) => append_field_str(buf, 2, 0x73u8, encode_utf8(t)),
        HeaderField::Member(t) => append_field_str(buf, 3, 0x73u8, encode_utf8(t)),
        HeaderField::ErrorName(t) => append_field_str(buf, 4, 0x73u8, encode_utf8(t)),
        HeaderField::ReplySerial(v) => append_field_u32(buf, 5, v),
        HeaderField::Destination(t) => append_field_str(buf, 6, 0x73u8, encode_utf8(t)),
        HeaderField::Sender(t) => append_field_str(buf, 7, 0x73u8, encode_utf8(t)),
        HeaderField::Signature(t) => append_field_sig(buf, 8, encode_utf8(t)),
        HeaderField::UnixFds(v) => append_field_u32(buf, 9, v),
    }
}

/// The field's value fits its wire form: a string's length in a `u32`, a
/// signature's in a byte.
pub open spec fn header_field_fits(hf: HeaderField) -> bool {
    match hf {
        HeaderField::Signature(t) => encode_utf8(t).len() <= 255,
        HeaderField::ReplySerial(_) => true,
        HeaderField::UnixFds(_) => true,
        HeaderField::Path(t) => encode_utf8(t).len() <= u32::MAX,
        HeaderField::Interface(t) => encode_utf8(t).len() <= u32::MAX,
        HeaderField::Member(t) => encode_utf8(t).len() <= u32::MAX,
        HeaderField::ErrorName(t) => encode_utf8(t).len() <= u32::MAX,
        HeaderField::Destination(t) => encode_utf8(t).len() <= u32::MAX,
        HeaderField::Sender(t) => encode_utf8(t).len() <= u32::MAX,
    }
}

/// The header with the field's value in the slot of its kind.
pub open spec fn header_with(h: HeaderView, hf: HeaderField) -> HeaderView {
    match hf {
        HeaderField::Path(t) => HeaderView { path: Some(t), ..h },
        HeaderField::Interface(t) => HeaderView { interface: Some(t), ..h },
        HeaderField::Member(t) => HeaderView { member: Some(t), ..h },
        HeaderField::ErrorName(t) => HeaderView { error_name: Some(t), ..h },
        HeaderField::ReplySerial(v) => HeaderView { reply_serial: Some(v), ..h },
        HeaderField::Destination(t) => HeaderView { destination: Some(t), ..h },
        HeaderField::Sender(t) => HeaderView { sender: Some(t), ..h },
        HeaderField::Signature(t) => HeaderView { signature: Some(t), ..h },
        HeaderField::UnixFds(v) => HeaderView { unix_fds: Some(v), ..h },
    }
}

/// The field array holding `fields`, in order.
pub open spec fn field_array(fields: Seq<HeaderField>) -> Seq<u8>
    decreases fields.len(),
{
    if fields.len() == 0 {
        Seq::empty()
    } else {
        append_header_field(field_array(fields.drop_last()), fields.last())
    }
}

/// `h` with every field of `fields` stored, later fields winning.
pub open spec fn header_with_all(h: HeaderView, fields: Seq<HeaderField>) -> HeaderView
    decreases fields.len(),
{
    if fields.len() == 0 {
        h
    } else {
        header_with(header_with_all(h, fields.drop_last()), fields.last())
    }
}

pub open spec fn message_type_byte(t: MessageType) -> u8 {
    match t {
        MessageType::MethodCall => 1u8,
        MessageType::MethodReturn => 2u8,
        MessageType::Error => 3u8,
        MessageType::Signal => 4u8,
    }
}

/// A little-endian message header whose field array holds `fields`.
pub open spec fn little_endian_header(
    t: MessageType,
    flags: u8,
    body_len: u32,
    serial: u32,
    fields: Seq<HeaderField>,
) -> Seq<u8> {
    seq![0x6cu8, message_type_byte(t), flags, 1u8] + le_bytes(body_len) + le_bytes(serial)
        + le_bytes(field_array(fields).len() as u32) + field_array(fields)
}

proof fn lemma_fixed_general(t: MessageType, flags: u8, body_len: u32, serial: u32, f: Seq<u8>, rest: Seq<u8>)
    requires
        f.len() <= u32::MAX,
    ensures
        ({
            let m = seq![0x6cu8, message_type_byte(t), flags, 1u8] + le_bytes(body_len) + le_bytes(serial)
                + le_bytes(f.len() as u32) + f + rest;
            &&& holds_at_16(m, f)
            &&& spec_parse_header(m) == parse_fields(
                m,
                16,
                16 + f.len() as int,
                Endian::Little,
                empty_header(Endian::Little, t, flags, body_len, serial),
            )
        }),
{
    let hdr = seq![0x6cu8, message_type_byte(t), flags, 1u8] + le_bytes(body_len) + le_bytes(serial)
        + le_bytes(f.len() as u32);
    let m = hdr + f + rest;
    assert(hdr.len() == 16);
    assert(m.subrange(16, 16 + f.len() as int) =~= f);
    assert(m[0] == 0x6cu8);
    assert(m[1] == message_type_byte(t));
    assert(m[2] == flags);
    assert(m[3] == 1u8);
    lemma_le_bytes_roundtrip(body_len);
    lemma_le_bytes_roundtrip(serial);
    lemma_le_bytes_roundtrip(f.len() as u32);
    assert(read_u32_at(m, 4, Endian::Little) == body_len);
    assert(read_u32_at(m, 8, Endian::Little) == serial);
    assert(read_u32_at(m, 12, Endian::Little) == f.len() as u32);
    assert(crate::message::message_type_of(m[1]) == Some(t));
}

proof fn lemma_append_extends(buf: Seq<u8>, hf: HeaderField)
    ensures
        append_header_field(buf, hf).len() > buf.len(),
        append_header_field(buf, hf).subrange(0, buf.len() as int) == buf,
{
    let a = append_header_field(buf, hf);
    assert(a.subrange(0, buf.len() as int) =~= buf);
}

proof fn lemma_field_array_prefix(fields: Seq<HeaderField>, k: int)
    requires
        0 <= k <= fields.len(),
    ensures
        field_array(fields.take(k)).len() <= field_array(fields).len(),
        field_array(fields).subrange(0, field_array(fields.take(k)).len() as int) == field_array(
            fields.take(k),
        ),
    decreases fields.len(),
{
    if k == fields.len() {
        assert(fields.take(k) =~= fields);
        assert(field_array(fields).subrange(0, field_array(fields).len() as int) =~= field_array(fields));
    } else {
        let d = fields.drop_last();
        assert(d.take(k) =~= fields.take(k));
        lemma_field_array_prefix(d, k);
        lemma_append_extends(field_array(d), fields.last());
        let a = field_array(fields);
        let fd = field_array(d);
        let fk = field_array(fields.take(k));
        assert(a.subrange(0, fk.len() as int) =~= fd.subrange(0, fk.len() as int)) by {
            assert forall|j: int| 0 <= j < fk.len() implies a.subrange(0, fk.len() as int)[j]
                == fd.subrange(0, fk.len() as int)[j] by {
                assert(a.subrange(0, fd.len() as int)[j] == fd[j]);
            }
        }
    }
}

proof fn lemma_step_field(m: Seq<u8>, f: Seq<u8>, hf: HeaderField, end: int, acc: HeaderView)
    requires
        header_field_fits(hf),
        holds_at_16(m, append_header_field(f, hf)),
        16 + append_header_field(f, hf).len() as int <= end <= m.len() as int,
    ensures
        parse_fields(m, 16 + f.len() as int, end, Endian::Little, acc) == parse_fields(
            m,
            16 + append_header_field(f, hf).len() as int,
            end,
            Endian::Little,
            header_with(acc, hf),
        ),
{
    lemma_append_extends(f, hf);
    let next = 16 + append_header_field(f, hf).len() as int;
    match hf {
        HeaderField::Path(t) => {
            lemma_field_str(m, f, 1, 0x6fu8, t, end);
            let r = FieldRead { code: 1, type_code: 0x6fu8, text: t, number: 0, next };
            assert(apply_field(acc, r) == Ok::<HeaderView, ParseError>(header_with(acc, hf)));
        },
        HeaderField::Interface(t) => {
            lemma_field_str(m, f, 2, 0x73u8, t, end);
            let r = FieldRead { code: 2, type_code: 0x73u8, text: t, number: 0, next };
            assert(apply_field(acc, r) == Ok::<HeaderView, ParseError>(header_with(acc, hf)));
        },
        HeaderField::Member(t) => {
            lemma_field_str(m, f, 3, 0x73u8, t, end);
            let r = FieldRead { code: 3, type_code: 0x73u8, text: t, number: 0, next };
            assert(apply_field(acc, r) == Ok::<HeaderView, ParseError>(header_with(acc, hf)));
        },
        HeaderField::ErrorName(t) => {
            lemma_field_str(m, f, 4, 0x73u8, t, end);
            let r = FieldRead { code: 4, type_code: 0x73u8, text: t, number: 0, next };
            assert(apply_field(acc, r) == Ok::<HeaderView, ParseError>(header_with(acc, hf)));
        },
        HeaderField::ReplySerial(v) => {
            lemma_field_u32(m, f, 5, v, end);
            let r = FieldRead { code: 5, type_code: 0x75u8, text: Seq::empty(), number: v, next };
            assert(apply_field(acc, r) == Ok::<HeaderView, ParseError>(header_with(acc, hf)));
        },
        HeaderField::Destination(t) => {
            lemma_field_str(m, f, 6, 0x73u8, t, end);
            let r = FieldRead { code: 6, type_code: 0x73u8, text: t, number: 0, next };
            assert(apply_field(acc, r) == Ok::<HeaderView, ParseError>(header_with(acc, hf)));
        },
        HeaderField::Sender(t) => {
            lemma_field_str(m, f, 7, 0x73u8, t, end);
            let r = FieldRead { code: 7, type_code: 0x73u8, text: t, number: 0, next };
            assert(apply_field(acc, r) == Ok::<HeaderView, ParseError>(header_with(acc, hf)));
        },
        HeaderField::Signature(t) => {
            lemma_field_sig(m, f, 8, t, end);
            let r = FieldRead { code: 8, type_code: 0x67u8, text: t, number: 0, next };
            assert(apply_field(acc, r) == Ok::<HeaderView, ParseError>(header_with(acc, hf)));
        },
        HeaderField::UnixFds(v) => {
            lemma_field_u32(m, f, 9, v, end);
            let r = FieldRead { code: 9, type_code: 0x75u8, text: Seq::empty(), number: v, next };
            assert(apply_field(acc, r) == Ok::<HeaderView, ParseError>(header_with(acc, hf)));
        },
    }
}

proof fn lemma_fields_prefix_parse(m: Seq<u8>, fields: Seq<HeaderField>, k: int, acc: HeaderView)
    requires
        0 <= k <= fields.len(),
        forall|i: int| 0 <= i < fields.len() ==> header_field_fits(#[trigger] fields[i]),
        holds_at_16(m, field_array(fields)),
    ensures
        parse_fields(m, 16, 16 + field_array(fields).len() as int, Endian::Little, acc) == parse_fields(
            m,
            16 + field_array(fields.take(k)).len() as int,
            16 + field_array(fields).len() as int,
            Endian::Little,
            header_with_all(acc, fields.take(k)),
        ),
    decreases k,
{
    let end = 16 + field_array(fields).len() as int;
    if k == 0 {
        assert(fields.take(0) =~= Seq::<HeaderField>::empty());
    } else {
        lemma_fields_prefix_parse(m, fields, k - 1, acc);
        let prev = fields.take(k - 1);
        let cur = fields.take(k);
        assert(cur.drop_last() =~= prev);
        assert(cur.last() == fields[k - 1]);
        lemma_field_array_prefix(fields, k);
        let fa = field_array(fields);
        let fc = field_array(cur);
        assert(fa == fc + fa.subrange(fc.len() as int, fa.len() as int)) by {
            assert(fa =~= fa.subrange(0, fc.len() as int) + fa.subrange(fc.len() as int, fa.len() as int));
        }
        lemma_holds_prefix(m, fc, fa.subrange(fc.len() as int, fa.len() as int));
        lemma_step_field(m, field_array(prev), fields[k - 1], end, header_with_all(acc, prev));
    }
}

proof fn lemma_fields_parse_all(m: Seq<u8>, fields: Seq<HeaderField>, acc: HeaderView)
    requires
        forall|i: int| 0 <= i < fields.len() ==> header_field_fits(#[trigger] fields[i]),
        holds_at_16(m, field_array(fields)),
    ensures
        parse_fields(m, 16, 16 + field_array(fields).len() as int, Endian::Little, acc) == Ok::<
            HeaderView,
            ParseError,
        >(header_with_all(acc, fields)),
{
    let end = 16 + field_array(fields).len() as int;
    lemma_fields_prefix_parse(m, fields, fields.len() as int, acc);
    assert(fields.take(fields.len() as int) =~= fields);
}

/// Every header field reads back: parsing a little-endian header whose
/// field array holds `fields` gives the fixed part as written and each
/// field's value in the slot of its kind (a later field of a kind
/// replacing an earlier one), whatever bytes follow the array.
#[verifier::rlimit(50)]
pub proof fn lemma_header_fields_read_back(
    t: MessageType,
    flags: u8,
    body_len: u32,
    serial: u32,
    fields: Seq<HeaderField>,
    rest: Seq<u8>,
)
    requires
        forall|i: int| 0 <= i < fields.len() ==> header_field_fits(#[trigger] fields[i]),
        field_array(fields).len() <= u32::MAX,
    ensures
        spec_parse_header(little_endian_header(t, flags, body_len, serial, fields) + rest) == Ok::<
            HeaderView,
            ParseError,
        >(header_with_all(empty_header(Endian::Little, t, flags, body_len, serial), fields)),
{
    let f = field_array(fields);
    let m = little_endian_header(t, flags, body_len, serial, fields) + rest;
    let acc = empty_header(Endian::Little, t, flags, body_len, serial);
    lemma_fixed_general(t, flags, body_len, serial, f, rest);
    lemma_fields_parse_all(m, fields, acc);
}

} // verus!
