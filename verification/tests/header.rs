use emskin::encode::{body_bool, body_empty, body_oay, MethodReturn};
use emskin::message::{parse_header, Endian, MessageType, ParseError};

fn call_header_big_endian() -> Vec<u8> {
    // A big-endian method call with PATH, MEMBER and an unknown field 42.
    let mut b = vec![b'B', 1, 0, 1];
    b.extend_from_slice(&0u32.to_be_bytes()); // body length
    b.extend_from_slice(&7u32.to_be_bytes()); // serial
    let mut fields = Vec::new();
    // PATH "/a"
    fields.extend_from_slice(&[1, 1, b'o', 0]);
    fields.extend_from_slice(&2u32.to_be_bytes());
    fields.extend_from_slice(b"/a\0");
    while fields.len() % 8 != 0 {
        fields.push(0);
    }
    // MEMBER "Ping"
    fields.extend_from_slice(&[3, 1, b's', 0]);
    fields.extend_from_slice(&4u32.to_be_bytes());
    fields.extend_from_slice(b"Ping\0");
    while fields.len() % 8 != 0 {
        fields.push(0);
    }
    // unknown code 42 carrying a u32
    fields.extend_from_slice(&[42, 1, b'u', 0]);
    fields.extend_from_slice(&99u32.to_be_bytes());
    b.extend_from_slice(&(fields.len() as u32).to_be_bytes());
    b.extend_from_slice(&fields);
    b
}

#[test]
fn parses_big_endian_call_and_skips_unknown_fields() {
    let b = call_header_big_endian();
    let h = parse_header(&b).unwrap();
    assert_eq!(h.endian, Endian::Big);
    assert_eq!(h.msg_type, MessageType::MethodCall);
    assert_eq!(h.serial, 7);
    assert_eq!(h.path.as_deref(), Some("/a"));
    assert_eq!(h.member.as_deref(), Some("Ping"));
    assert_eq!(h.interface, None);
    assert_eq!(h.unix_fds, None);
}

#[test]
fn short_buffer_is_truncated() {
    assert_eq!(parse_header(&[b'l', 2, 0, 1]).unwrap_err(), ParseError::Truncated);
}

#[test]
fn bad_endian_byte() {
    let mut b = call_header_big_endian();
    b[0] = b'x';
    assert_eq!(parse_header(&b).unwrap_err(), ParseError::BadEndian);
}

#[test]
fn bad_message_type() {
    let mut b = call_header_big_endian();
    b[1] = 9;
    assert_eq!(parse_header(&b).unwrap_err(), ParseError::BadMessageType);
}

#[test]
fn bad_version() {
    let mut b = call_header_big_endian();
    b[3] = 2;
    assert_eq!(parse_header(&b).unwrap_err(), ParseError::BadVersion);
}

#[test]
fn field_array_past_end_is_truncated() {
    let mut b = call_header_big_endian();
    b.truncate(b.len() - 1);
    assert_eq!(parse_header(&b).unwrap_err(), ParseError::Truncated);
}

#[test]
fn wrong_type_for_known_code_is_bad_field() {
    let mut b = call_header_big_endian();
    // PATH declared as 's' instead of 'o'
    b[18] = b's';
    assert_eq!(parse_header(&b).unwrap_err(), ParseError::BadField);
}

#[test]
fn missing_nul_is_bad_field() {
    let mut b = call_header_big_endian();
    // The NUL after "/a" sits at 16 + 4 + 4 + 2.
    b[26] = b'x';
    assert_eq!(parse_header(&b).unwrap_err(), ParseError::BadField);
}

#[test]
fn invalid_utf8_is_reported() {
    let mut b = call_header_big_endian();
    b[25] = 0xff;
    assert_eq!(parse_header(&b).unwrap_err(), ParseError::BadUtf8);
}

#[test]
fn encode_then_parse_gives_back_fields() {
    let dest = String::from(":1.7");
    let sender = String::from("org.example.Ünïcode");
    let m = MethodReturn {
        our_serial: 77,
        reply_to_serial: 1234,
        destination: Some(dest.as_str()),
        sender: Some(sender.as_str()),
        body: body_oay("/p/q", &[1, 2, 3]),
    };
    let bytes = m.encode();
    let h = parse_header(&bytes).unwrap();
    assert_eq!(h.msg_type, MessageType::MethodReturn);
    assert_eq!(h.serial, 77);
    assert_eq!(h.reply_serial, Some(1234));
    assert_eq!(h.destination.as_deref(), Some(":1.7"));
    assert_eq!(h.sender.as_deref(), Some("org.example.Ünïcode"));
    assert_eq!(h.signature.as_deref(), Some("(oay)"));
    assert_eq!(h.body_len as usize, 4 + 4 + 1 + 3 + 4 + 3);
    assert_eq!(&bytes[bytes.len() - 3..], &[1, 2, 3]);
}

#[test]
fn bool_and_empty_bodies() {
    let t = body_bool(true);
    assert_eq!(t.signature, "b");
    assert_eq!(t.data, vec![1, 0, 0, 0]);
    let e = body_empty();
    assert_eq!(e.signature, "");
    assert!(e.data.is_empty());
}

#[test]
fn reply_fixed_header_bytes() {
    let m = MethodReturn {
        our_serial: 1,
        reply_to_serial: 2,
        destination: None,
        sender: None,
        body: body_empty(),
    };
    let bytes = m.encode();
    // l, METHOD_RETURN, flags 0, version 1, body 0, serial 1, fields 8,
    // then REPLY_SERIAL: code 5, sig "u", value 2.
    assert_eq!(
        bytes,
        vec![b'l', 2, 0, 1, 0, 0, 0, 0, 1, 0, 0, 0, 8, 0, 0, 0, 5, 1, b'u', 0, 2, 0, 0, 0]
    );
}
