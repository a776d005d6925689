//! Integer helpers shared by the overlays.

use vstd::prelude::*;

verus! {

/// An axis-aligned rectangle in logical pixels.
#[derive(Clone, Copy, Debug, PartialEq, Eq, Structural)]
pub struct Rect {
    pub x: i32,
    pub y: i32,
    pub w: i32,
    pub h: i32,
}

/// Integer division rounding toward zero, as Rust's `/` does, for a
/// positive divisor.
pub open spec fn div_trunc(a: int, b: int) -> int {
    if a >= 0 {
        a / b
    } else {
        -((-a) / b)
    }
}

pub fn half(a: i32) -> (r: i32)
    ensures
        r == div_trunc(a as int, 2),
{
    a / 2
}

pub open spec fn min_int(a: int, b: int) -> int {
    if a <= b {
        a
    } else {
        b
    }
}

pub open spec fn max_int(a: int, b: int) -> int {
    if a >= b {
        a
    } else {
        b
    }
}

} // verus!
