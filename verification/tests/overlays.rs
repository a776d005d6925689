use emskin::workspace_bar::blend_glyph;
use emskin::key_cast::{
    corner_center, fill_rounded_rect, pill_origin, pill_size, KeyCastOverlay, MAX_ENTRIES,
};

/// Milliseconds on the overlay's nanosecond clock.
fn ms(n: u64) -> u64 {
    n * 1_000_000
}

#[test]
fn disabled_overlay_ignores_pushes() {
    let mut o = KeyCastOverlay::new();
    assert!(!o.enabled());
    o.push_at("C-x".into(), ms(0));
    assert_eq!(o.current_text(), "");
    assert!(!o.needs_frame());
}

#[test]
fn repeated_chord_collapses() {
    let mut o = KeyCastOverlay::new();
    o.set_enabled(true);
    o.push_at("a".into(), ms(0));
    o.push_at("a".into(), ms(500));
    o.push_at("a".into(), ms(1000));
    assert_eq!(o.current_text(), "a ×3");
    // 800 ms after the last press the next one starts a new entry.
    o.push_at("a".into(), ms(1800));
    assert_eq!(o.current_text(), "a ×3  a");
    o.push_at("C-x".into(), ms(1900));
    assert_eq!(o.current_text(), "a ×3  a  C-x");
}

#[test]
fn strip_keeps_the_newest_entries() {
    let mut o = KeyCastOverlay::new();
    o.set_enabled(true);
    for i in 0..(MAX_ENTRIES + 3) {
        o.push_at(format!("k{i}"), ms(i as u64 * 1000));
    }
    let text = o.current_text();
    let parts: Vec<&str> = text.split("  ").collect();
    assert_eq!(parts.len(), MAX_ENTRIES);
    assert_eq!(parts[0], "k3");
    assert_eq!(parts[MAX_ENTRIES - 1], "k14");
}

#[test]
fn entries_expire_after_max_age() {
    let mut o = KeyCastOverlay::new();
    o.set_enabled(true);
    o.push_at("a".into(), ms(0));
    o.push_at("b".into(), ms(1000));
    o.drop_expired(ms(2499));
    assert_eq!(o.current_text(), "a  b");
    o.drop_expired(ms(2500) - 1);
    assert_eq!(o.current_text(), "a  b");
    o.drop_expired(ms(2500));
    assert_eq!(o.current_text(), "b");
    o.drop_expired(ms(10_000));
    assert_eq!(o.current_text(), "");
    assert!(!o.needs_frame());
}

#[test]
fn disabling_clears_and_text_is_handed_out_once() {
    let mut o = KeyCastOverlay::new();
    o.set_enabled(true);
    o.push_at("a".into(), ms(0));
    assert_eq!(o.take_changed_text().as_deref(), Some("a"));
    assert_eq!(o.take_changed_text(), None);
    o.set_enabled(false);
    o.set_enabled(true);
    assert_eq!(o.current_text(), "");
    assert_eq!(o.take_changed_text(), None);
}

#[test]
fn push_with_clock_records_entry() {
    let mut o = KeyCastOverlay::new();
    o.set_enabled(true);
    assert!(o.has_repeat_room(&"M-x".to_string()));
    o.push("M-x".into());
    o.expire();
    assert_eq!(o.current_text(), "M-x");
}

#[test]
fn pill_size_and_radius() {
    assert_eq!(pill_size(100, 26), (128, 42, 12));
    // A tiny pill clamps the radius to half its height.
    assert_eq!(pill_size(0, -10), (28, 6, 3));
    assert_eq!(pill_size(-100, -100), (1, 1, 0));
}

#[test]
fn pill_sits_centred_above_the_bottom_margin() {
    assert_eq!(pill_origin(0, 0, 1920, 1080, 200, 40), (860, 1004));
    assert_eq!(pill_origin(10, 20, 101, 50, 31, 10), (45, 24));
}

#[test]
fn corner_center_snaps_into_corners() {
    assert_eq!(corner_center(0, 0, 10, 10, 3), (3, 3));
    assert_eq!(corner_center(9, 9, 10, 10, 3), (6, 6));
    assert_eq!(corner_center(5, 5, 10, 10, 3), (5, 5));
    assert_eq!(corner_center(0, 5, 10, 10, 3), (3, 5));
}

#[test]
fn rounded_rect_leaves_corners_clear() {
    let (w, h) = (10i32, 8i32);
    let mut data = vec![0u8; (w * h * 4) as usize + 4];
    fill_rounded_rect(&mut data, w, h, 3, &[1, 2, 3, 4]);
    let px = |x: i32, y: i32| {
        let o = ((y * w + x) * 4) as usize;
        [data[o], data[o + 1], data[o + 2], data[o + 3]]
    };
    assert_eq!(px(0, 0), [0, 0, 0, 0]);
    assert_eq!(px(9, 7), [0, 0, 0, 0]);
    assert_eq!(px(5, 0), [1, 2, 3, 4]);
    assert_eq!(px(0, 4), [1, 2, 3, 4]);
    assert_eq!(px(1, 1), [1, 2, 3, 4]);
    // Bytes past the rectangle stay untouched.
    assert_eq!(&data[(w * h * 4) as usize..], &[0, 0, 0, 0]);
}

#[test]
fn zero_radius_fills_everything_and_negative_counts_as_zero() {
    let mut data = vec![9u8; 2 * 2 * 4];
    fill_rounded_rect(&mut data, 2, 2, -5, &[7, 7, 7, 7]);
    assert!(data.iter().all(|&b| b == 7));
}

#[test]
fn glyph_blend_mixes_colour_and_clips_to_buffer() {
    let (w, h) = (4i32, 3i32);
    let mut data = vec![100u8; (w * h * 4) as usize];
    // A 3x2 box at (1 + pad, 0 + pad) with pad 1: pixels x in 2..5, y in 1..3,
    // clipped to x < 4.
    blend_glyph(&mut data, w, h, 1, 1, 0, 3, 2, 255, 0, 50, 51);
    let px = |x: i32, y: i32| {
        let o = ((y * w + x) * 4) as usize;
        [data[o], data[o + 1], data[o + 2], data[o + 3]]
    };
    // b = (100*204 + 50*51)/255 = 90, g = (100*204)/255 = 80, r = (100*204 + 255*51)/255 = 131
    assert_eq!(px(2, 1), [90, 80, 131, 255]);
    assert_eq!(px(3, 2), [90, 80, 131, 255]);
    assert_eq!(px(1, 1), [100, 100, 100, 100]);
    assert_eq!(px(2, 0), [100, 100, 100, 100]);
    // Zero coverage leaves everything alone.
    let before = data.clone();
    blend_glyph(&mut data, w, h, 1, 0, 0, 4, 3, 1, 2, 3, 0);
    assert_eq!(data, before);
}

#[test]
fn repeat_window_is_exact_to_the_nanosecond() {
    let mut o = KeyCastOverlay::new();
    o.set_enabled(true);
    o.push_at("a".into(), 0);
    o.push_at("a".into(), ms(800) - 1);
    assert_eq!(o.current_text(), "a ×2");
    o.push_at("a".into(), ms(800) - 1 + ms(800));
    assert_eq!(o.current_text(), "a ×2  a");
}
