use emskin::fcitx::{build_reply, next_nonzero, FcitxMethod};
use emskin::ic::IcRegistry;
use emskin::message::{parse_header, Endian, Header, MessageType};

fn request(
    member: &str,
    sig: &str,
    path: &str,
    serial: u32,
    destination: &str,
    sender: &str,
) -> Header {
    Header {
        endian: Endian::Little,
        msg_type: MessageType::MethodCall,
        flags: 0,
        body_len: 0,
        serial,
        path: Some(path.into()),
        interface: Some("org.fcitx.Fcitx.InputContext1".into()),
        member: Some(member.into()),
        error_name: None,
        destination: Some(destination.into()),
        sender: Some(sender.into()),
        signature: Some(sig.into()),
        reply_serial: None,
        unix_fds: None,
    }
}

#[test]
fn create_input_context_allocates_and_returns_oay() {
    let req = request(
        "CreateInputContext",
        "a(ss)",
        "/org/freedesktop/portal/inputmethod",
        42,
        "org.fcitx.Fcitx5",
        ":1.100",
    );
    let mut reg = IcRegistry::new();
    let mut serial = 0;
    let bytes = build_reply(
        &req,
        &FcitxMethod::CreateInputContext { hints: vec![] },
        &mut reg,
        &mut serial,
    );
    let hdr = parse_header(&bytes).unwrap();
    assert_eq!(hdr.msg_type, MessageType::MethodReturn);
    assert_eq!(hdr.reply_serial, Some(42));
    assert_eq!(hdr.destination.as_deref(), Some(":1.100"));
    assert_eq!(hdr.sender.as_deref(), Some("org.fcitx.Fcitx5"));
    assert_eq!(hdr.signature.as_deref(), Some("(oay)"));
    // And the registry should now hold the IC.
    assert_eq!(reg.len(), 1);
}

#[test]
fn process_key_event_returns_false() {
    let req = request(
        "ProcessKeyEvent",
        "uubuu",
        "/org/freedesktop/portal/inputcontext/1",
        7,
        "org.fcitx.Fcitx5",
        ":1.42",
    );
    let mut reg = IcRegistry::new();
    reg.allocate(); // so the IC exists
    let mut serial = 0;
    let bytes = build_reply(
        &req,
        &FcitxMethod::ProcessKeyEvent {
            ic_path: "/org/freedesktop/portal/inputcontext/1".into(),
            keyval: 0x61,
            keycode: 38,
            state: 0,
            is_release: false,
            time: 0,
        },
        &mut reg,
        &mut serial,
    );
    let hdr = parse_header(&bytes).unwrap();
    assert_eq!(hdr.msg_type, MessageType::MethodReturn);
    assert_eq!(hdr.signature.as_deref(), Some("b"));
    assert_eq!(hdr.body_len, 4);
    // Body: u32 LE, `false` = 0
    let body_start = bytes.len() - 4;
    assert_eq!(&bytes[body_start..], &[0, 0, 0, 0]);
}

#[test]
fn focus_in_updates_registry_and_returns_empty() {
    let req = request("FocusIn", "", "/ic/1", 1, "org.fcitx.Fcitx5", ":1.42");
    let mut reg = IcRegistry::new();
    let (path, _) = reg.allocate();
    let mut serial = 0;
    let bytes = build_reply(
        &req,
        &FcitxMethod::FocusIn {
            ic_path: path.clone(),
        },
        &mut reg,
        &mut serial,
    );
    let hdr = parse_header(&bytes).unwrap();
    assert_eq!(hdr.msg_type, MessageType::MethodReturn);
    assert_eq!(hdr.body_len, 0);
    assert!(reg.get(&path).unwrap().focused);
}

#[test]
fn focus_out_clears_focused_flag() {
    let req = request("FocusOut", "", "/ic/1", 1, "org.fcitx.Fcitx5", ":1.42");
    let mut reg = IcRegistry::new();
    let (path, _) = reg.allocate();
    reg.set_focused(&path, true);
    let mut serial = 0;
    build_reply(
        &req,
        &FcitxMethod::FocusOut {
            ic_path: path.clone(),
        },
        &mut reg,
        &mut serial,
    );
    assert!(!reg.get(&path).unwrap().focused);
}

#[test]
fn destroy_ic_removes_from_registry() {
    let req = request("DestroyIC", "", "/ic/1", 1, "org.fcitx.Fcitx5", ":1.42");
    let mut reg = IcRegistry::new();
    let (path, _) = reg.allocate();
    assert_eq!(reg.len(), 1);
    let mut serial = 0;
    build_reply(
        &req,
        &FcitxMethod::DestroyIC { ic_path: path },
        &mut reg,
        &mut serial,
    );
    assert_eq!(reg.len(), 0);
}

#[test]
fn set_cursor_rect_v2_stores_rect_and_returns_empty() {
    let req = request(
        "SetCursorRectV2",
        "iiiid",
        "/ic/1",
        1,
        "org.fcitx.Fcitx5",
        ":1.42",
    );
    let mut reg = IcRegistry::new();
    let (path, _) = reg.allocate();
    let mut serial = 0;
    let bytes = build_reply(
        &req,
        &FcitxMethod::SetCursorRectV2 {
            ic_path: path.clone(),
            x: 100,
            y: 200,
            w: 10,
            h: 20,
            scale_bits: 1.0f64.to_bits(),
        },
        &mut reg,
        &mut serial,
    );
    let hdr = parse_header(&bytes).unwrap();
    assert_eq!(hdr.body_len, 0);
    assert_eq!(reg.get(&path).unwrap().cursor_rect, Some([100, 200, 10, 20]));
}

#[test]
fn serial_counter_skips_zero_on_wrap() {
    let mut c: u32 = u32::MAX;
    let s = next_nonzero(&mut c);
    assert_eq!(s, 1);
    assert_eq!(c, 1);
}

#[test]
fn serial_counter_increments_normally() {
    let mut c: u32 = 41;
    assert_eq!(next_nonzero(&mut c), 42);
    assert_eq!(next_nonzero(&mut c), 43);
}

// ---------------------------------------------------------------------------
// Further cases
// ---------------------------------------------------------------------------

#[test]
fn reply_serial_comes_from_counter_and_counter_advances() {
    let req = request("Reset", "", "/ic/1", 9, "org.fcitx.Fcitx5", ":1.42");
    let mut reg = IcRegistry::new();
    let mut serial = 41;
    let bytes = build_reply(
        &req,
        &FcitxMethod::Reset { ic_path: "/ic/1".into() },
        &mut reg,
        &mut serial,
    );
    let hdr = parse_header(&bytes).unwrap();
    assert_eq!(hdr.serial, 42);
    assert_eq!(serial, 42);
    assert_eq!(hdr.reply_serial, Some(9));
    assert_eq!(hdr.signature, None);
    assert_eq!(hdr.endian, Endian::Little);
    assert_eq!(hdr.flags, 0);
    assert_eq!(bytes.len() % 8, 0);
}

#[test]
fn reply_without_sender_has_no_destination() {
    let mut req = request("Reset", "", "/ic/1", 3, "org.fcitx.Fcitx5", ":1.42");
    req.sender = None;
    let mut reg = IcRegistry::new();
    let mut serial = 0;
    let bytes = build_reply(
        &req,
        &FcitxMethod::Reset { ic_path: "/ic/1".into() },
        &mut reg,
        &mut serial,
    );
    let hdr = parse_header(&bytes).unwrap();
    assert_eq!(hdr.destination, None);
    assert_eq!(hdr.sender.as_deref(), Some("org.fcitx.Fcitx5"));
}

#[test]
fn create_input_context_body_holds_path_and_uuid() {
    let req = request("CreateInputContext", "a(ss)", "/x", 5, "org.fcitx.Fcitx5", ":1.9");
    let mut reg = IcRegistry::new();
    reg.allocate();
    let mut serial = 0;
    let bytes = build_reply(
        &req,
        &FcitxMethod::CreateInputContext {
            hints: vec![("program".into(), "emacs".into())],
        },
        &mut reg,
        &mut serial,
    );
    let hdr = parse_header(&bytes).unwrap();
    let body = &bytes[bytes.len() - hdr.body_len as usize..];
    let path = "/org/freedesktop/portal/inputcontext/2";
    let mut expected = Vec::new();
    expected.extend_from_slice(&(path.len() as u32).to_le_bytes());
    expected.extend_from_slice(path.as_bytes());
    expected.push(0);
    while expected.len() % 4 != 0 {
        expected.push(0);
    }
    expected.extend_from_slice(&16u32.to_le_bytes());
    expected.extend_from_slice(&[2, 0, 0, 0, 0, 0, 0, 0, 0, 0, 0, 0, 0, 0, 0, 0]);
    assert_eq!(body, &expected[..]);
    assert_eq!(reg.len(), 2);
}

#[test]
fn focus_on_unknown_context_changes_nothing() {
    let req = request("FocusIn", "", "/nope", 1, "org.fcitx.Fcitx5", ":1.42");
    let mut reg = IcRegistry::new();
    let (path, _) = reg.allocate();
    let mut serial = 0;
    build_reply(
        &req,
        &FcitxMethod::FocusIn { ic_path: "/nope".into() },
        &mut reg,
        &mut serial,
    );
    assert!(!reg.get(&path).unwrap().focused);
    assert!(reg.get(&"/nope".to_string()).is_none());
    assert_eq!(reg.len(), 1);
}

#[test]
fn capability_and_cursor_location_are_stored() {
    let req = request("SetCapability", "t", "/ic", 1, "org.fcitx.Fcitx5", ":1.42");
    let mut reg = IcRegistry::new();
    let (path, _) = reg.allocate();
    let mut serial = 0;
    build_reply(
        &req,
        &FcitxMethod::SetCapability { ic_path: path.clone(), capability: 0x1234 },
        &mut reg,
        &mut serial,
    );
    build_reply(
        &req,
        &FcitxMethod::SetCursorLocation { ic_path: path.clone(), x: 7, y: -3 },
        &mut reg,
        &mut serial,
    );
    let st = reg.get(&path).unwrap();
    assert_eq!(st.capability, 0x1234);
    assert_eq!(st.cursor_rect, Some([7, -3, 0, 0]));
    build_reply(
        &req,
        &FcitxMethod::SetCursorRect { ic_path: path.clone(), x: 1, y: 2, w: 3, h: 4 },
        &mut reg,
        &mut serial,
    );
    assert_eq!(reg.get(&path).unwrap().cursor_rect, Some([1, 2, 3, 4]));
    assert_eq!(serial, 3);
}

#[test]
fn surrounding_text_calls_are_read_only() {
    let req = request("SetSurroundingText", "suu", "/ic", 1, "org.fcitx.Fcitx5", ":1.42");
    let mut reg = IcRegistry::new();
    let (path, before) = reg.allocate();
    let mut serial = 0;
    let bytes = build_reply(
        &req,
        &FcitxMethod::SetSurroundingText {
            ic_path: path.clone(),
            text: "hello".into(),
            cursor: 2,
            anchor: 2,
        },
        &mut reg,
        &mut serial,
    );
    build_reply(
        &req,
        &FcitxMethod::SetSurroundingTextPosition { ic_path: path.clone(), cursor: 1, anchor: 1 },
        &mut reg,
        &mut serial,
    );
    assert_eq!(*reg.get(&path).unwrap(), before);
    assert_eq!(parse_header(&bytes).unwrap().body_len, 0);
}
