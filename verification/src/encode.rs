//! Writing D-Bus `METHOD_RETURN` messages, and the bodies the fcitx5
//! replies carry.

use vstd::prelude::*;
use vstd::utf8::encode_utf8;

use crate::wire::{
    append_field_sig, append_field_str, append_field_u32, le_bytes, pad_len, push_bytes,
    push_field_sig, push_field_str, push_field_u32, push_padding, push_u32_le, zeros,
};

verus! {

/// The largest message the D-Bus specification allows (2^27 bytes).
pub const MAX_MESSAGE_LEN: usize = 0x0800_0000;

/// A message body: its D-Bus type signature and its marshalled bytes.
pub struct Body {
    pub signature: String,
    pub data: Vec<u8>,
}

/// A synthetic reply to a method call.
pub struct MethodReturn<'a> {
    pub our_serial: u32,
    pub reply_to_serial: u32,
    pub destination: Option<&'a str>,
    pub sender: Option<&'a str>,
    pub body: Body,
}

pub open spec fn opt_str_chars(o: Option<&str>) -> Option<Seq<char>> {
    match o {
        Some(s) => Some(s@),
        None => None,
    }
}

/// The header-field array of a reply: `REPLY_SERIAL`, then `DESTINATION`
/// and `SENDER` when present, then `SIGNATURE` when the body has one.
pub open spec fn reply_fields(
    reply_to: u32,
    destination: Option<Seq<char>>,
    sender: Option<Seq<char>>,
    signature: Seq<char>,
) -> Seq<u8> {
    let f1 = append_field_u32(Seq::empty(), 5, reply_to);
    let f2 = match destination {
        Some(d) => append_field_str(f1, 6, 0x73u8, encode_utf8(d)),
        None => f1,
    };
    let f3 = match sender {
        Some(s) => append_field_str(f2, 7, 0x73u8, encode_utf8(s)),
        None => f2,
    };
    if signature.len() > 0 {
        append_field_sig(f3, 8, encode_utf8(signature))
    } else {
        f3
    }
}

/// The bytes of a little-endian `METHOD_RETURN` message.
pub open spec fn method_return_bytes(
    our_serial: u32,
    reply_to: u32,
    destination: Option<Seq<char>>,
    sender: Option<Seq<char>>,
    signature: Seq<char>,
    body: Seq<u8>,
) -> Seq<u8> {
    let f = reply_fields(reply_to, destination, sender, signature);
    seq![0x6cu8, 2u8, 0u8, 1u8] + le_bytes(body.len() as u32) + le_bytes(our_serial) + le_bytes(
        f.len() as u32,
    ) + f + zeros(pad_len(16 + f.len() as int, 8)) + body
}

pub open spec fn opt_len_ok(o: Option<Seq<char>>) -> bool {
    match o {
        Some(s) => encode_utf8(s).len() <= MAX_MESSAGE_LEN,
        None => true,
    }
}

/// What a reply needs to be representable: names no longer than a whole
/// message may be, a signature that fits its length byte, and a body no
/// longer than a message.
pub open spec fn reply_encodable(
    destination: Option<Seq<char>>,
    sender: Option<Seq<char>>,
    signature: Seq<char>,
    body: Seq<u8>,
) -> bool {
    &&& opt_len_ok(destination)
    &&& opt_len_ok(sender)
    &&& encode_utf8(signature).len() <= 255
    &&& body.len() <= MAX_MESSAGE_LEN
}

proof fn lemma_append_len_u32(buf: Seq<u8>, code: u8, v: u32)
    ensures
        append_field_u32(buf, code, v).len() <= buf.len() + 16,
{
    crate::wire::lemma_pad_len_bounds(buf.len() as int, 8);
    let h = buf + crate::wire::field_head(buf.len() as int, code, 0x75u8);
    crate::wire::lemma_pad_len_bounds(h.len() as int, 4);
}

proof fn lemma_append_len_str(buf: Seq<u8>, code: u8, tc: u8, s: Seq<u8>)
    ensures
        append_field_str(buf, code, tc, s).len() <= buf.len() + 20 + s.len(),
{
    crate::wire::lemma_pad_len_bounds(buf.len() as int, 8);
    let h = buf + crate::wire::field_head(buf.len() as int, code, tc);
    crate::wire::lemma_pad_len_bounds(h.len() as int, 4);
}

proof fn lemma_append_len_sig(buf: Seq<u8>, code: u8, s: Seq<u8>)
    ensures
        append_field_sig(buf, code, s).len() <= buf.len() + 13 + s.len(),
{
    crate::wire::lemma_pad_len_bounds(buf.len() as int, 8);
}

pub proof fn lemma_reply_fields_len(
    reply_to: u32,
    destination: Option<Seq<char>>,
    sender: Option<Seq<char>>,
    signature: Seq<char>,
)
    requires
        opt_len_ok(destination),
        opt_len_ok(sender),
        encode_utf8(signature).len() <= 255,
    ensures
        reply_fields(reply_to, destination, sender, signature).len() <= 3 * MAX_MESSAGE_LEN,
{
    let f1 = append_field_u32(Seq::empty(), 5, reply_to);
    lemma_append_len_u32(Seq::empty(), 5, reply_to);
    let f2 = match destination {
        Some(d) => append_field_str(f1, 6, 0x73u8, encode_utf8(d)),
        None => f1,
    };
    if let Some(d) = destination {
        lemma_append_len_str(f1, 6, 0x73u8, encode_utf8(d));
    }
    let f3 = match sender {
        Some(s) => append_field_str(f2, 7, 0x73u8, encode_utf8(s)),
        None => f2,
    };
    if let Some(s) = sender {
        lemma_append_len_str(f2, 7, 0x73u8, encode_utf8(s));
    }
    if signature.len() > 0 {
        lemma_append_len_sig(f3, 8, encode_utf8(signature));
    }
}

fn push_opt_str_field(buf: &mut Vec<u8>, code: u8, o: Option<&str>)
    requires
        opt_len_ok(opt_str_chars(o)),
    ensures
        final(buf)@ == match opt_str_chars(o) {
            Some(s) => append_field_str(old(buf)@, code, 0x73u8, encode_utf8(s)),
            None => old(buf)@,
        },
{
    match o {
        Some(s) => {
            let bytes = s.as_bytes();
            push_field_str(buf, code, 0x73u8, bytes);
        },
        None => {},
    }
}

impl<'a> MethodReturn<'a> {
    pub open spec fn encodable(&self) -> bool {
        reply_encodable(
            opt_str_chars(self.destination),
            opt_str_chars(self.sender),
            self.body.signature@,
            self.body.data@,
        )
    }

    /// Serialises the reply as a little-endian D-Bus message.
    pub fn encode(&self) -> (out: Vec<u8>)
        requires
            self.encodable(),
        ensures
            out@ == method_return_bytes(
                self.our_serial,
                self.reply_to_serial,
                opt_str_chars(self.destination),
                opt_str_chars(self.sender),
                self.body.signature@,
                self.body.data@,
            ),
    {
        let mut fields: Vec<u8> = Vec::new();
        push_field_u32(&mut fields, 5, self.reply_to_serial);
        push_opt_str_field(&mut fields, 6, self.destination);
        push_opt_str_field(&mut fields, 7, self.sender);
        let sig = self.body.signature.as_str().as_bytes();
        if sig.len() > 0 {
            push_field_sig(&mut fields, 8, sig);
        }
        proof {
            lemma_reply_fields_len(
                self.reply_to_serial,
                opt_str_chars(self.destination),
                opt_str_chars(self.sender),
                self.body.signature@,
            );
        }
        assert(fields@ == reply_fields(
            self.reply_to_serial,
            opt_str_chars(self.destination),
            opt_str_chars(self.sender),
            self.body.signature@,
        ));
        let mut out: Vec<u8> = Vec::new();
        out.push(0x6cu8);
        out.push(2u8);
        out.push(0u8);
        out.push(1u8);
        push_u32_le(&mut out, self.body.data.len() as u32);
        push_u32_le(&mut out, self.our_serial);
        push_u32_le(&mut out, fields.len() as u32);
        push_bytes(&mut out, fields.as_slice());
        push_padding(&mut out, 8);
        push_bytes(&mut out, self.body.data.as_slice());
        assert(out@ =~= method_return_bytes(
            self.our_serial,
            self.reply_to_serial,
            opt_str_chars(self.destination),
            opt_str_chars(self.sender),
            self.body.signature@,
            self.body.data@,
        ));
        out
    }
}

/// The data of a `(oay)` body: an object path, then a byte array.
pub open spec fn oay_data(path: Seq<u8>, bytes: Seq<u8>) -> Seq<u8> {
    let head = le_bytes(path.len() as u32) + path + seq![0u8];
    head + zeros(pad_len(head.len() as int, 4)) + le_bytes(bytes.len() as u32) + bytes
}

/// A body with no arguments.
pub fn body_empty() -> (b: Body)
    ensures
        b.signature@ == Seq::<char>::empty(),
        b.data@ == Seq::<u8>::empty(),
{
    Body { signature: String::new(), data: Vec::new() }
}

/// A body holding one `BOOLEAN`, marshalled as a little-endian `u32`.
pub fn body_bool(v: bool) -> (b: Body)
    ensures
        b.signature@ == seq!['b'],
        b.data@ == le_bytes(if v { 1u32 } else { 0u32 }),
{
    proof {
        reveal_strlit("b");
    }
    let mut data: Vec<u8> = Vec::new();
    push_u32_le(&mut data, if v { 1u32 } else { 0u32 });
    let sig = "b".to_owned();
    assert(sig@ =~= seq!['b']);
    Body { signature: sig, data }
}

/// A body holding an `OBJECT_PATH` and an array of bytes, as the reply to
/// `CreateInputContext` carries.
pub fn body_oay(path: &str, bytes: &[u8]) -> (b: Body)
    requires
        encode_utf8(path@).len() <= MAX_MESSAGE_LEN,
        bytes@.len() <= MAX_MESSAGE_LEN,
    ensures
        b.signature@ == seq!['(', 'o', 'a', 'y', ')'],
        b.data@ == oay_data(encode_utf8(path@), bytes@),
{
    proof {
        reveal_strlit("(oay)");
    }
    let p = path.as_bytes();
    let mut data: Vec<u8> = Vec::new();
    push_u32_le(&mut data, p.len() as u32);
    push_bytes(&mut data, p);
    data.push(0u8);
    push_padding(&mut data, 4);
    push_u32_le(&mut data, bytes.len() as u32);
    push_bytes(&mut data, bytes);
    let sig = "(oay)".to_owned();
    assert(sig@ =~= seq!['(', 'o', 'a', 'y', ')']);
    assert(data@ =~= oay_data(encode_utf8(path@), bytes@));
    Body { signature: sig, data }
}

} // verus!
