//! Window-management decisions for the X11 windows of the nested host.

use vstd::prelude::*;

use crate::geometry::Rect;
use crate::text::{append_decimal, decimal};

verus! {

/// The geometry an X11 configure request asks for: the current geometry
/// with the requested width and height, where given. Sizes arrive as
/// `u32` and are reinterpreted as `i32`.
pub fn configured_geometry(geo: Rect, w: Option<u32>, h: Option<u32>) -> (r: Rect)
    ensures
        r.x == geo.x,
        r.y == geo.y,
        r.w == (match w {
            Some(v) => v as i32,
            None => geo.w,
        }),
        r.h == (match h {
            Some(v) => v as i32,
            None => geo.h,
        }),
{
    let mut g = geo;
    if let Some(w) = w {
        g.w = w as i32;
    }
    if let Some(h) = h {
        g.h = h as i32;
    }
    g
}

/// The text written to the ready file once XWayland is up: the display
/// name, `:` and its number, and a newline.
pub open spec fn ready_file_text(display_number: nat) -> Seq<char> {
    seq![':'] + decimal(display_number) + seq!['\n']
}

/// What the ready file holds when XWayland reports display `display_number`.
pub fn xwayland_ready_text(display_number: u32) -> (s: String)
    ensures
        s@ == ready_file_text(display_number as nat),
{
    let mut s = ":".to_owned();
    proof {
        reveal_strlit(":");
    }
    append_decimal(&mut s, display_number as u64);
    s.append("\n");
    proof {
        reveal_strlit("\n");
    }
    s
}

} // verus!
