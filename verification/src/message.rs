//! The fixed D-Bus message header and its header-field array: the data
//! model and a parser for it.

use vstd::prelude::*;
use vstd::utf8::{decode_utf8, valid_utf8};

use crate::text::string_from_utf8;
use crate::wire::{pad_len, u32_be, u32_le};

verus! {

#[derive(Clone, Copy, Debug, PartialEq, Eq, Structural)]
pub enum Endian {
    Little,
    Big,
}

#[derive(Clone, Copy, Debug, PartialEq, Eq, Structural)]
pub enum MessageType {
    MethodCall,
    MethodReturn,
    Error,
    Signal,
}

#[derive(Clone, Copy, Debug, PartialEq, Eq, Structural)]
pub enum ParseError {
    /// The buffer ends before the fixed header or the field array does,
    /// or a field runs past the end of the field array.
    Truncated,
    /// The first byte is neither `l` nor `B`.
    BadEndian,
    /// The message type byte is not 1 to 4.
    BadMessageType,
    /// The protocol version byte is not 1.
    BadVersion,
    /// A header field is malformed or has the wrong type for its code.
    BadField,
    /// A string-valued header field is not UTF-8.
    BadUtf8,
}

/// A parsed message header.
#[derive(Debug)]
pub struct Header {
    pub endian: Endian,
    pub msg_type: MessageType,
    pub flags: u8,
    pub body_len: u32,
    pub serial: u32,
    pub path: Option<String>,
    pub interface: Option<String>,
    pub member: Option<String>,
    pub error_name: Option<String>,
    pub destination: Option<String>,
    pub sender: Option<String>,
    pub signature: Option<String>,
    pub reply_serial: Option<u32>,
    pub unix_fds: Option<u32>,
}

/// The mathematical model of a [`Header`]: strings as character sequences.
pub struct HeaderView {
    pub endian: Endian,
    pub msg_type: MessageType,
    pub flags: u8,
    pub body_len: u32,
    pub serial: u32,
    pub path: Option<Seq<char>>,
    pub interface: Option<Seq<char>>,
    pub member: Option<Seq<char>>,
    pub error_name: Option<Seq<char>>,
    pub destination: Option<Seq<char>>,
    pub sender: Option<Seq<char>>,
    pub signature: Option<Seq<char>>,
    pub reply_serial: Option<u32>,
    pub unix_fds: Option<u32>,
}

pub open spec fn opt_chars(o: Option<String>) -> Option<Seq<char>> {
    match o {
        Some(s) => Some(s@),
        None => None,
    }
}

impl View for Header {
    type V = HeaderView;

    open spec fn view(&self) -> HeaderView {
        HeaderView {
            endian: self.endian,
            msg_type: self.msg_type,
            flags: self.flags,
            body_len: self.body_len,
            serial: self.serial,
            path: opt_chars(self.path),
            interface: opt_chars(self.interface),
            member: opt_chars(self.member),
            error_name: opt_chars(self.error_name),
            destination: opt_chars(self.destination),
            sender: opt_chars(self.sender),
            signature: opt_chars(self.signature),
            reply_serial: self.reply_serial,
            unix_fds: self.unix_fds,
        }
    }
}

/// Byte values of the ASCII letters the header format uses.
pub open spec fn byte_l() -> u8 { 0x6cu8 }
pub open spec fn byte_big() -> u8 { 0x42u8 }
pub open spec fn type_s() -> u8 { 0x73u8 }
pub open spec fn type_o() -> u8 { 0x6fu8 }
pub open spec fn type_g() -> u8 { 0x67u8 }
pub open spec fn type_u() -> u8 { 0x75u8 }

pub open spec fn read_u32_at(b: Seq<u8>, pos: int, e: Endian) -> u32 {
    match e {
        Endian::Little => u32_le(b[pos], b[pos + 1], b[pos + 2], b[pos + 3]),
        Endian::Big => u32_be(b[pos], b[pos + 1], b[pos + 2], b[pos + 3]),
    }
}

pub open spec fn message_type_of(byte: u8) -> Option<MessageType> {
    if byte == 1 {
        Some(MessageType::MethodCall)
    } else if byte == 2 {
        Some(MessageType::MethodReturn)
    } else if byte == 3 {
        Some(MessageType::Error)
    } else if byte == 4 {
        Some(MessageType::Signal)
    } else {
        None
    }
}

/// One header field as read from the wire: its code, the type code of
/// its variant, and its value (`text` for `s`/`o`/`g`, `number` for `u`).
pub struct FieldRead {
    pub code: u8,
    pub type_code: u8,
    pub text: Seq<char>,
    pub number: u32,
    pub next: int,
}

/// Reads the text of a string-like value whose bytes start at `s0` and
/// run for `n` bytes followed by a NUL, which must end by `end`.
pub open spec fn read_text(b: Seq<u8>, s0: int, n: int, end: int, code: u8, tc: u8) -> Result<
    FieldRead,
    ParseError,
> {
    if s0 + n + 1 > end {
        Err(ParseError::Truncated)
    } else if b[s0 + n] != 0u8 {
        Err(ParseError::BadField)
    } else if !valid_utf8(b.subrange(s0, s0 + n)) {
        Err(ParseError::BadUtf8)
    } else {
        Ok(
            FieldRead {
                code,
                type_code: tc,
                text: decode_utf8(b.subrange(s0, s0 + n)),
                number: 0,
                next: s0 + n + 1,
            },
        )
    }
}

/// Reads the header field that starts at the first 8-aligned offset at or
/// after `pos`; the field must end by `end`.
pub open spec fn parse_field(b: Seq<u8>, pos: int, end: int, e: Endian) -> Result<
    FieldRead,
    ParseError,
> {
    let p = pos + pad_len(pos, 8);
    if p + 4 > end {
        Err(ParseError::Truncated)
    } else if b[p + 1] != 1u8 || b[p + 3] != 0u8 {
        Err(ParseError::BadField)
    } else {
        let code = b[p];
        let tc = b[p + 2];
        let q = p + 4;
        if tc == type_s() || tc == type_o() {
            let q2 = q + pad_len(q, 4);
            if q2 + 4 > end {
                Err(ParseError::Truncated)
            } else {
                read_text(b, q2 + 4, read_u32_at(b, q2, e) as int, end, code, tc)
            }
        } else if tc == type_g() {
            if q + 1 > end {
                Err(ParseError::Truncated)
            } else {
                read_text(b, q + 1, b[q] as int, end, code, tc)
            }
        } else if tc == type_u() {
            let q2 = q + pad_len(q, 4);
            if q2 + 4 > end {
                Err(ParseError::Truncated)
            } else {
                Ok(
                    FieldRead {
                        code,
                        type_code: tc,
                        text: Seq::empty(),
                        number: read_u32_at(b, q2, e),
                        next: q2 + 4,
                    },
                )
            }
        } else {
            Err(ParseError::BadField)
        }
    }
}

/// Stores a field in the header: codes 1 to 9 must carry the type the
/// D-Bus specification gives them; other codes are skipped.
pub open spec fn apply_field(acc: HeaderView, f: FieldRead) -> Result<HeaderView, ParseError> {
    let tc = f.type_code;
    if f.code == 1 {
        if tc == type_o() { Ok(HeaderView { path: Some(f.text), ..acc }) } else { Err(ParseError::BadField) }
    } else if f.code == 2 {
        if tc == type_s() { Ok(HeaderView { interface: Some(f.text), ..acc }) } else { Err(ParseError::BadField) }
    } else if f.code == 3 {
        if tc == type_s() { Ok(HeaderView { member: Some(f.text), ..acc }) } else { Err(ParseError::BadField) }
    } else if f.code == 4 {
        if tc == type_s() { Ok(HeaderView { error_name: Some(f.text), ..acc }) } else { Err(ParseError::BadField) }
    } else if f.code == 5 {
        if tc == type_u() { Ok(HeaderView { reply_serial: Some(f.number), ..acc }) } else { Err(ParseError::BadField) }
    } else if f.code == 6 {
        if tc == type_s() { Ok(HeaderView { destination: Some(f.text), ..acc }) } else { Err(ParseError::BadField) }
    } else if f.code == 7 {
        if tc == type_s() { Ok(HeaderView { sender: Some(f.text), ..acc }) } else { Err(ParseError::BadField) }
    } else if f.code == 8 {
        if tc == type_g() { Ok(HeaderView { signature: Some(f.text), ..acc }) } else { Err(ParseError::BadField) }
    } else if f.code == 9 {
        if tc == type_u() { Ok(HeaderView { unix_fds: Some(f.number), ..acc }) } else { Err(ParseError::BadField) }
    } else {
        Ok(acc)
    }
}

/// Reads the fields from `pos` up to `end`, folding them into `acc`.
pub open spec fn parse_fields(b: Seq<u8>, pos: int, end: int, e: Endian, acc: HeaderView) -> Result<
    HeaderView,
    ParseError,
>
    decreases end - pos,
{
    if pos >= end {
        Ok(acc)
    } else {
        match parse_field(b, pos, end, e) {
            Err(x) => Err(x),
            Ok(f) => if f.next <= pos || f.next > end {
                Err(ParseError::BadField)
            } else {
                match apply_field(acc, f) {
                    Err(x) => Err(x),
                    Ok(a) => parse_fields(b, f.next, end, e, a),
                }
            },
        }
    }
}

/// The header with no optional field set.
pub open spec fn empty_header(
    e: Endian,
    t: MessageType,
    flags: u8,
    body_len: u32,
    serial: u32,
) -> HeaderView {
    HeaderView {
        endian: e,
        msg_type: t,
        flags,
        body_len,
        serial,
        path: None,
        interface: None,
        member: None,
        error_name: None,
        destination: None,
        sender: None,
        signature: None,
        reply_serial: None,
        unix_fds: None,
    }
}

/// What a message header says, read from the start of `b`.
pub open spec fn spec_parse_header(b: Seq<u8>) -> Result<HeaderView, ParseError> {
    if b.len() < 16 {
        Err(ParseError::Truncated)
    } else if b[0] != byte_l() && b[0] != byte_big() {
        Err(ParseError::BadEndian)
    } else if message_type_of(b[1]) is None {
        Err(ParseError::BadMessageType)
    } else if b[3] != 1u8 {
        Err(ParseError::BadVersion)
    } else {
        let e = if b[0] == byte_l() { Endian::Little } else { Endian::Big };
        let array_len = read_u32_at(b, 12, e) as int;
        if 16 + array_len > b.len() {
            Err(ParseError::Truncated)
        } else {
            parse_fields(
                b,
                16,
                16 + array_len,
                e,
                empty_header(
                    e,
                    message_type_of(b[1]).unwrap(),
                    b[2],
                    read_u32_at(b, 4, e),
                    read_u32_at(b, 8, e),
                ),
            )
        }
    }
}

fn read_u32(b: &[u8], pos: usize, e: Endian) -> (v: u32)
    requires
        pos + 4 <= b@.len(),
    ensures
        v == read_u32_at(b@, pos as int, e),
{
    let b0 = b[pos] as u32;
    let b1 = b[pos + 1] as u32;
    let b2 = b[pos + 2] as u32;
    let b3 = b[pos + 3] as u32;
    match e {
        Endian::Little => b0 + b1 * 256 + b2 * 65536 + b3 * 16777216,
        Endian::Big => b3 + b2 * 256 + b1 * 65536 + b0 * 16777216,
    }
}

/// Exec counterpart of [`FieldRead`].
struct ExecField {
    code: u8,
    type_code: u8,
    text: String,
    number: u32,
    next: usize,
}

fn copy_range(b: &[u8], start: usize, n: usize) -> (v: Vec<u8>)
    requires
        start + n <= b@.len(),
    ensures
        v@ == b@.subrange(start as int, start + n),
{
    let mut v: Vec<u8> = Vec::new();
    let mut i: usize = 0;
    while i < n
        invariant
            start + n <= b@.len(),
            start + n <= b.len(),
            i <= n,
            v@ == b@.subrange(start as int, start + i),
        decreases n - i,
    {
        v.push(b[start + i]);
        i = i + 1;
        assert(v@ =~= b@.subrange(start as int, start + i));
    }
    v
}

fn exec_read_text(b: &[u8], s0: usize, n: usize, end: usize, code: u8, tc: u8) -> (r: Result<
    ExecField,
    ParseError,
>)
    requires
        s0 <= end <= b@.len(),
    ensures
        match (r, read_text(b@, s0 as int, n as int, end as int, code, tc)) {
            (Ok(x), Ok(y)) => x.code == y.code && x.type_code == y.type_code && x.text@ == y.text
                && x.number == y.number && x.next == y.next,
            (Err(x), Err(y)) => x == y,
            _ => false,
        },
{
    if end - s0 <= n {
        return Err(ParseError::Truncated);
    }
    if b[s0 + n] != 0u8 {
        return Err(ParseError::BadField);
    }
    let bytes = copy_range(b, s0, n);
    match string_from_utf8(bytes) {
        None => Err(ParseError::BadUtf8),
        Some(text) => Ok(ExecField { code, type_code: tc, text, number: 0, next: s0 + n + 1 }),
    }
}

fn exec_parse_field(b: &[u8], pos: usize, end: usize, e: Endian) -> (r: Result<
    ExecField,
    ParseError,
>)
    requires
        pos < end <= b@.len(),
    ensures
        match (r, parse_field(b@, pos as int, end as int, e)) {
            (Ok(x), Ok(y)) => x.code == y.code && x.type_code == y.type_code && x.text@ == y.text
                && x.number == y.number && x.next == y.next,
            (Err(x), Err(y)) => x == y,
            _ => false,
        },
{
    let pad = (8 - pos % 8) % 8;
    if end - pos < pad || end - pos - pad < 4 {
        return Err(ParseError::Truncated);
    }
    let p = pos + pad;
    if b[p + 1] != 1u8 || b[p + 3] != 0u8 {
        return Err(ParseError::BadField);
    }
    let code = b[p];
    let tc = b[p + 2];
    let q = p + 4;
    if tc == 0x73u8 || tc == 0x6fu8 {
        let pad4 = (4 - q % 4) % 4;
        if end - q < pad4 || end - q - pad4 < 4 {
            return Err(ParseError::Truncated);
        }
        let q2 = q + pad4;
        let n = read_u32(b, q2, e);
        if (end - (q2 + 4)) as u64 <= n as u64 {
            return Err(ParseError::Truncated);
        }
        exec_read_text(b, q2 + 4, n as usize, end, code, tc)
    } else if tc == 0x67u8 {
        if end - q < 1 {
            return Err(ParseError::Truncated);
        }
        exec_read_text(b, q + 1, b[q] as usize, end, code, tc)
    } else if tc == 0x75u8 {
        let pad4 = (4 - q % 4) % 4;
        if end - q < pad4 || end - q - pad4 < 4 {
            return Err(ParseError::Truncated);
        }
        let q2 = q + pad4;
        let number = read_u32(b, q2, e);
        Ok(ExecField { code, type_code: tc, text: String::new(), number, next: q2 + 4 })
    } else {
        Err(ParseError::BadField)
    }
}

fn exec_apply_field(h: &mut Header, f: ExecField) -> (r: Result<(), ParseError>)
    ensures
        match (r, apply_field(old(h)@, FieldRead { code: f.code, type_code: f.type_code, text: f.text@, number: f.number, next: f.next as int })) {
            (Ok(()), Ok(v)) => final(h)@ == v,
            (Err(x), Err(y)) => x == y,
            _ => false,
        },
{
    let tc = f.type_code;
    if f.code == 1 {
        if tc == 0x6fu8 { h.path = Some(f.text); Ok(()) } else { Err(ParseError::BadField) }
    } else if f.code == 2 {
        if tc == 0x73u8 { h.interface = Some(f.text); Ok(()) } else { Err(ParseError::BadField) }
    } else if f.code == 3 {
        if tc == 0x73u8 { h.member = Some(f.text); Ok(()) } else { Err(ParseError::BadField) }
    } else if f.code == 4 {
        if tc == 0x73u8 { h.error_name = Some(f.text); Ok(()) } else { Err(ParseError::BadField) }
    } else if f.code == 5 {
        if tc == 0x75u8 { h.reply_serial = Some(f.number); Ok(()) } else { Err(ParseError::BadField) }
    } else if f.code == 6 {
        if tc == 0x73u8 { h.destination = Some(f.text); Ok(()) } else { Err(ParseError::BadField) }
    } else if f.code == 7 {
        if tc == 0x73u8 { h.sender = Some(f.text); Ok(()) } else { Err(ParseError::BadField) }
    } else if f.code == 8 {
        if tc == 0x67u8 { h.signature = Some(f.text); Ok(()) } else { Err(ParseError::BadField) }
    } else if f.code == 9 {
        if tc == 0x75u8 { h.unix_fds = Some(f.number); Ok(()) } else { Err(ParseError::BadField) }
    } else {
        Ok(())
    }
}

/// Reads one field at `pos` and stores it in `h`; on success returns where
/// the next field may start.
fn parse_step(buf: &[u8], pos: usize, end: usize, e: Endian, h: &mut Header) -> (r: Result<
    usize,
    ParseError,
>)
    requires
        pos < end <= buf@.len(),
    ensures
        match r {
            Ok(next) => pos < next <= end && parse_fields(buf@, next as int, end as int, e, final(h)@)
                == parse_fields(buf@, pos as int, end as int, e, old(h)@),
            Err(x) => parse_fields(buf@, pos as int, end as int, e, old(h)@) == Err::<
                HeaderView,
                ParseError,
            >(x),
        },
{
    let f = match exec_parse_field(buf, pos, end, e) {
        Ok(f) => f,
        Err(x) => {
            assert(parse_field(buf@, pos as int, end as int, e) == Err::<FieldRead, ParseError>(x));
            return Err(x);
        },
    };
    let ghost sf = FieldRead {
        code: f.code,
        type_code: f.type_code,
        text: f.text@,
        number: f.number,
        next: f.next as int,
    };
    assert(parse_field(buf@, pos as int, end as int, e) == Ok::<FieldRead, ParseError>(sf));
    if f.next <= pos || f.next > end {
        return Err(ParseError::BadField);
    }
    let next = f.next;
    let ghost before = h@;
    match exec_apply_field(h, f) {
        Ok(()) => {},
        Err(x) => {
            assert(apply_field(before, sf) == Err::<HeaderView, ParseError>(x));
            return Err(x);
        },
    }
    Ok(next)
}

/// Parses the header at the start of `buf`: the fixed 16 bytes and the
/// header-field array that follows them. The body is not examined.
pub fn parse_header(buf: &[u8]) -> (r: Result<Header, ParseError>)
    ensures
        match r {
            Ok(h) => spec_parse_header(buf@) == Ok::<HeaderView, ParseError>(h@),
            Err(x) => spec_parse_header(buf@) == Err::<HeaderView, ParseError>(x),
        },
{
    if buf.len() < 16 {
        return Err(ParseError::Truncated);
    }
    let endian = if buf[0] == 0x6cu8 {
        Endian::Little
    } else if buf[0] == 0x42u8 {
        Endian::Big
    } else {
        return Err(ParseError::BadEndian);
    };
    let msg_type = if buf[1] == 1u8 {
        MessageType::MethodCall
    } else if buf[1] == 2u8 {
        MessageType::MethodReturn
    } else if buf[1] == 3u8 {
        MessageType::Error
    } else if buf[1] == 4u8 {
        MessageType::Signal
    } else {
        return Err(ParseError::BadMessageType);
    };
    if buf[3] != 1u8 {
        return Err(ParseError::BadVersion);
    }
    let body_len = read_u32(buf, 4, endian);
    let serial = read_u32(buf, 8, endian);
    let array_len = read_u32(buf, 12, endian);
    if array_len as u64 > (buf.len() - 16) as u64 {
        return Err(ParseError::Truncated);
    }
    let end: usize = 16 + array_len as usize;
    let mut h = Header {
        endian,
        msg_type,
        flags: buf[2],
        body_len,
        serial,
        path: None,
        interface: None,
        member: None,
        error_name: None,
        destination: None,
        sender: None,
        signature: None,
        reply_serial: None,
        unix_fds: None,
    };
    let ghost total = parse_fields(buf@, 16, end as int, endian, h@);
    assert(total == spec_parse_header(buf@));
    let mut pos: usize = 16;
    while pos < end
        invariant
            pos <= end <= buf@.len(),
            total == spec_parse_header(buf@),
            parse_fields(buf@, pos as int, end as int, endian, h@) == total,
        decreases end - pos,
    {
        pos = parse_step(buf, pos, end, endian, &mut h)?;
    }
    Ok(h)
}

} // verus!
