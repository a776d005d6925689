use emskin::ic::IcRegistry;

#[test]
fn paths_count_up_and_uuids_follow_the_number() {
    let mut reg = IcRegistry::new();
    let (p1, s1) = reg.allocate();
    let (p2, s2) = reg.allocate();
    assert_eq!(p1, "/org/freedesktop/portal/inputcontext/1");
    assert_eq!(p2, "/org/freedesktop/portal/inputcontext/2");
    assert_eq!(s1.uuid[0], 1);
    assert_eq!(s2.uuid[0], 2);
    assert!(!s1.focused);
    assert_eq!(s1.capability, 0);
    assert_eq!(s1.cursor_rect, None);
    assert_eq!(reg.len(), 2);
}

#[test]
fn destroyed_paths_are_not_reused() {
    let mut reg = IcRegistry::new();
    let (p1, _) = reg.allocate();
    assert!(reg.destroy(&p1).is_some());
    assert!(reg.destroy(&p1).is_none());
    let (p2, _) = reg.allocate();
    assert_ne!(p1, p2);
    assert_eq!(reg.len(), 1);
}

#[test]
fn allocate_then_destroy_restores_registry() {
    let mut reg = IcRegistry::new();
    let (keep, _) = reg.allocate();
    reg.set_focused(&keep, true);
    let (tmp, _) = reg.allocate();
    reg.destroy(&tmp);
    assert_eq!(reg.len(), 1);
    assert!(reg.get(&keep).unwrap().focused);
}

#[test]
fn uuid_holds_number_little_endian() {
    let mut reg = IcRegistry::new();
    let mut last = None;
    for _ in 0..300 {
        last = Some(reg.allocate());
    }
    let (path, st) = last.unwrap();
    assert_eq!(path, "/org/freedesktop/portal/inputcontext/300");
    assert_eq!(&st.uuid[..4], &[44, 1, 0, 0]);
    assert!(reg.can_allocate());
}

#[test]
fn setters_report_unknown_paths() {
    let mut reg = IcRegistry::new();
    let missing = "/org/freedesktop/portal/inputcontext/9".to_string();
    assert!(!reg.set_focused(&missing, true));
    assert!(!reg.set_capability(&missing, 1));
    assert!(!reg.set_cursor_rect(&missing, Some([1, 1, 1, 1])));
    assert_eq!(reg.len(), 0);
}
