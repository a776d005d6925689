use emskin::apps::{AppManager, AppWindow};
use emskin::geometry::Rect;
use emskin::launch::{emacs_launch, EmacsLaunch};
use emskin::workspace_bar::WorkspaceBar;
use emskin::xwm::configured_geometry;

#[test]
fn bar_shows_with_two_workspaces() {
    let mut bar = WorkspaceBar::new();
    assert!(!bar.visible());
    assert_eq!(bar.height(), 0);
    bar.update(&[1], 1);
    assert!(!bar.visible());
    assert_eq!(bar.click_at(10, 10), None);
    bar.update(&[1, 2], 1);
    assert!(bar.visible());
    assert_eq!(bar.height(), 28);
    assert_eq!(bar.button_count(), 2);
}

#[test]
fn bar_layout_and_clicks() {
    let mut bar = WorkspaceBar::new();
    bar.update(&[5, 6, 7], 6);
    let b = bar.button(1);
    assert_eq!(b.hit_rect, Rect { x: 50, y: 3, w: 40, h: 22 });
    assert!(b.active);
    assert_eq!(b.last_text, "6");
    assert_eq!(bar.click_at(6, 3), Some(5));
    assert_eq!(bar.click_at(45, 10), Some(5));
    assert_eq!(bar.click_at(46, 10), None);
    assert_eq!(bar.click_at(50, 24), Some(6));
    assert_eq!(bar.click_at(50, 25), None);
    assert_eq!(bar.click_at(94, 3), Some(7));
}

#[test]
fn bar_redraws_only_changed_labels() {
    let mut bar = WorkspaceBar::new();
    assert_eq!(bar.update(&[1, 2, 3], 1), vec![0, 1, 2]);
    assert_eq!(bar.update(&[1, 2, 3], 1), Vec::<usize>::new());
    assert_eq!(bar.update(&[1, 2, 3], 2), vec![0, 1]);
    assert_eq!(bar.update(&[1, 4], 2), vec![1]);
    assert_eq!(bar.button_count(), 2);
    assert_eq!(bar.button(0).commit, 2);
    bar.set_label_size(0, (12, 15));
    assert_eq!(bar.button(0).label_size, (12, 15));
}

#[test]
fn app_ids_count_up() {
    let mut m: AppManager<&'static str> = AppManager::new();
    assert_eq!(m.alloc_id(), 1);
    assert_eq!(m.alloc_id(), 2);
}

#[test]
fn app_windows_insert_update_remove() {
    let mut m: AppManager<&'static str> = AppManager::new();
    m.insert(AppWindow { window_id: 1, window: "one", geometry: None, visible: true });
    m.insert(AppWindow { window_id: 2, window: "two", geometry: None, visible: true });
    let r = Rect { x: 1, y: 2, w: 3, h: 4 };
    assert!(m.set_geometry(1, Some(r)));
    assert!(m.set_visible(2, false));
    assert!(!m.set_visible(3, false));
    assert_eq!(m.get(1).unwrap().geometry, Some(r));
    assert!(!m.get(2).unwrap().visible);
    assert_eq!(m.windows().len(), 2);
    let mut ids = m.window_ids();
    ids.sort();
    assert_eq!(ids, vec![1, 2]);
    assert_eq!(m.id_for_surface(|w| *w == "two"), Some(2));
    assert_eq!(m.id_for_surface(|w| *w == "three"), None);
    assert_eq!(m.remove(1).unwrap().window, "one");
    assert!(m.remove(1).is_none());
}

#[test]
fn drain_dead_takes_only_dead_windows() {
    let mut m: AppManager<(&'static str, bool)> = AppManager::new();
    m.insert(AppWindow { window_id: 1, window: ("a", true), geometry: None, visible: true });
    m.insert(AppWindow { window_id: 2, window: ("b", false), geometry: None, visible: true });
    m.insert(AppWindow { window_id: 3, window: ("c", false), geometry: None, visible: true });
    let mut dead: Vec<u64> = m.drain_dead(|w| w.1).into_iter().map(|w| w.window_id).collect();
    dead.sort();
    assert_eq!(dead, vec![2, 3]);
    assert_eq!(m.window_ids(), vec![1]);
    assert!(m.drain_dead(|w| w.1).is_empty());
}

#[test]
fn launch_choice_from_arguments() {
    let args = |v: &[&str]| v.iter().map(|s| s.to_string()).collect::<Vec<String>>();
    assert_eq!(emacs_launch(&args(&[])), EmacsLaunch::Spawn("emacs".into()));
    assert_eq!(emacs_launch(&args(&["--no-spawn"])), EmacsLaunch::NoSpawn);
    assert_eq!(emacs_launch(&args(&["--emacs-command"])), EmacsLaunch::MissingCommand);
    assert_eq!(
        emacs_launch(&args(&["--emacs-command", "emacs -Q"])),
        EmacsLaunch::Spawn("emacs -Q".into())
    );
    assert_eq!(emacs_launch(&args(&["-nw"])), EmacsLaunch::Spawn("emacs".into()));
}

#[test]
fn configure_request_keeps_position() {
    let g = Rect { x: 5, y: 6, w: 7, h: 8 };
    assert_eq!(configured_geometry(g, Some(100), None), Rect { x: 5, y: 6, w: 100, h: 8 });
    assert_eq!(configured_geometry(g, None, Some(3)), Rect { x: 5, y: 6, w: 7, h: 3 });
    assert_eq!(configured_geometry(g, Some(u32::MAX), None).w, -1);
}
