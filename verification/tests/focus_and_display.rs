use emskin::focus::{text_input_focus_change, TextInputCall};
use emskin::host_window::{HostWindowCall, PendingHostState};
use emskin::xwm::xwayland_ready_text;

#[test]
fn focus_moves_between_two_surfaces() {
    assert_eq!(
        text_input_focus_change(Some(1), Some(2)),
        vec![
            TextInputCall::SetFocus(Some(1)),
            TextInputCall::Leave,
            TextInputCall::SetFocus(Some(2)),
            TextInputCall::Enter,
        ]
    );
}

#[test]
fn focus_that_stays_makes_no_call() {
    assert!(text_input_focus_change(Some(7), Some(7)).is_empty());
    assert!(text_input_focus_change(None, None).is_empty());
}

#[test]
fn focus_arrives_from_nowhere() {
    assert_eq!(
        text_input_focus_change(None, Some(3)),
        vec![TextInputCall::SetFocus(Some(3)), TextInputCall::Enter]
    );
}

#[test]
fn focus_leaves_to_nowhere() {
    assert_eq!(
        text_input_focus_change(Some(3), None),
        vec![
            TextInputCall::SetFocus(Some(3)),
            TextInputCall::Leave,
            TextInputCall::SetFocus(None),
        ]
    );
}

#[test]
fn ready_file_names_the_display() {
    assert_eq!(xwayland_ready_text(0), ":0\n");
    assert_eq!(xwayland_ready_text(42), ":42\n");
    assert_eq!(xwayland_ready_text(u32::MAX), ":4294967295\n");
}

#[test]
fn pending_host_requests_are_taken_once_in_order() {
    let mut p = PendingHostState::new();
    assert!(p.take_calls().is_empty());
    p.maximize = Some(false);
    p.title = Some("Emacs - init.el".to_string());
    p.fullscreen = Some(true);
    assert_eq!(
        p.take_calls(),
        vec![
            HostWindowCall::SetTitle("Emacs - init.el".to_string()),
            HostWindowCall::SetFullscreen(true),
            HostWindowCall::SetMaximized(false),
        ]
    );
    assert!(p.title.is_none() && p.fullscreen.is_none() && p.maximize.is_none());
    assert!(p.take_calls().is_empty());
    p.fullscreen = Some(false);
    assert_eq!(p.take_calls(), vec![HostWindowCall::SetFullscreen(false)]);
}
