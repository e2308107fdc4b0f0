//! Plain geometry for the contour pipeline.
//!
//! Coordinates live in grid space, stored as fixed-point numbers: a point at
//! grid position 2.5 has coordinate `2 * SCALE + SCALE / 2`. Every crossing
//! that the cell classifier emits lies on a cell edge, so one coordinate of a
//! crossing is a whole multiple of `SCALE` and the other carries a fraction
//! in `[0, SCALE]`.

use vstd::prelude::*;

verus! {

/// Number of fixed-point units in one grid cell.
pub const SCALE: u64 = 256;

/// Largest field width or height the pipeline accepts.
pub const MAX_DIM: u64 = 0x40_0000;

/// Largest coordinate value the simplifier accepts; every point produced by
/// marching a field of admissible dimensions stays below this bound.
pub const MAX_COORD: u64 = 0x8000_0000;

/// A point in grid space, in fixed-point coordinates.
#[derive(PartialEq, Eq, Structural, Clone, Copy, Debug)]
pub struct Pt {
    pub x: u64,
    pub y: u64,
}

/// One directed boundary fragment emitted by a single cell.
#[derive(PartialEq, Eq, Structural, Clone, Copy, Debug)]
pub struct Seg {
    pub start: Pt,
    pub end: Pt,
}

impl Pt {
    pub fn new(x: u64, y: u64) -> (r: Pt)
        ensures
            r == (Pt { x, y }),
    {
        Pt { x, y }
    }
}

/// Both coordinates of a point are small enough for the simplifier's
/// 128-bit distance arithmetic.
pub open spec fn pt_bounded(p: Pt) -> bool {
    p.x <= MAX_COORD && p.y <= MAX_COORD
}

pub open spec fn seg_bounded(s: Seg) -> bool {
    pt_bounded(s.start) && pt_bounded(s.end)
}

/// Twice the signed area of the triangle (s, e, p): zero exactly when the
/// three points are collinear.
pub open spec fn cross(s: Pt, e: Pt, p: Pt) -> int {
    (e.y - s.y) * (p.x - s.x) - (e.x - s.x) * (p.y - s.y)
}

/// Numerator of the perpendicular distance from `p` to the line through
/// `s` and `e` (the distance itself is this over the segment length).
pub open spec fn dev_num(s: Pt, e: Pt, p: Pt) -> int {
    abs_int(cross(s, e, p))
}

/// Squared length of the segment from `s` to `e`.
pub open spec fn len_sq(s: Pt, e: Pt) -> int {
    (e.x - s.x) * (e.x - s.x) + (e.y - s.y) * (e.y - s.y)
}

/// The perpendicular distance from `p` to the line through `s` and `e`
/// exceeds `eps`: `dev_num / sqrt(len_sq) > eps`, compared without roots or
/// divisions. When `s == e` the distance is degenerate and no point counts
/// as exceeding, so such a stretch always collapses.
pub open spec fn dev_exceeds(s: Pt, e: Pt, p: Pt, eps: int) -> bool {
    dev_num(s, e, p) * dev_num(s, e, p) > eps * eps * len_sq(s, e)
}

pub open spec fn abs_int(i: int) -> int {
    if i < 0 {
        -i
    } else {
        i
    }
}

} // verus!
