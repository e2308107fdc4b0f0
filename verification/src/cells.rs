//! The mathematical model of cell classification: which fraction of an edge
//! a crossing sits at, the 16-way case code of a cell, and the directed
//! segments each cell emits.

use vstd::prelude::*;

use crate::geom::{Pt, Seg, SCALE};
use crate::Field;

verus! {

/// Where the isoline at height `z` crosses the edge whose endpoints sample
/// `z0` and `z1`, as a fixed-point fraction in `[0, SCALE]` of the way from
/// the `z0` end to the `z1` end. Clamped; the midpoint when the edge is
/// level (`z0 == z1`).
pub open spec fn frac_spec(z: int, z0: int, z1: int) -> int {
    if z0 == z1 {
        SCALE as int / 2
    } else if z0 < z1 {
        if z <= z0 {
            0
        } else if z >= z1 {
            SCALE as int
        } else {
            (z - z0) * SCALE / (z1 - z0)
        }
    } else {
        if z >= z0 {
            0
        } else if z <= z1 {
            SCALE as int
        } else {
            (z0 - z) * SCALE / (z0 - z1)
        }
    }
}

/// The crossing fraction always lands inside the edge.
pub proof fn lemma_frac_spec_range(z: int, z0: int, z1: int)
    ensures
        0 <= frac_spec(z, z0, z1) <= SCALE,
{
    if z0 < z1 && z0 < z && z < z1 {
        lemma_ratio_range(z - z0, z1 - z0);
    } else if z1 < z0 && z1 < z && z < z0 {
        lemma_ratio_range(z0 - z, z0 - z1);
    }
}

pub open spec fn bit_if(b: bool, v: int) -> int {
    if b {
        v
    } else {
        0
    }
}

/// The 4-bit configuration code of a cell whose corner samples are `ul`,
/// `ur`, `bl`, `br`: a corner contributes its bit when it lies strictly
/// above the threshold.
pub open spec fn cell_case(z: int, ul: int, ur: int, bl: int, br: int) -> int {
    bit_if(bl > z, 1) + bit_if(br > z, 2) + bit_if(ur > z, 4) + bit_if(ul > z, 8)
}

pub open spec fn sg(a: Pt, b: Pt) -> Seg {
    Seg { start: a, end: b }
}

/// The crossing on the top edge of the cell at `(x, y)`.
pub open spec fn top_pt(z: int, ul: int, ur: int, x: int, y: int) -> Pt {
    Pt { x: (x * SCALE + frac_spec(z, ul, ur)) as u64, y: (y * SCALE) as u64 }
}

/// The crossing on the bottom edge of the cell at `(x, y)`.
pub open spec fn bottom_pt(z: int, bl: int, br: int, x: int, y: int) -> Pt {
    Pt { x: (x * SCALE + frac_spec(z, bl, br)) as u64, y: ((y + 1) * SCALE) as u64 }
}

/// The crossing on the left edge of the cell at `(x, y)`.
pub open spec fn left_pt(z: int, ul: int, bl: int, x: int, y: int) -> Pt {
    Pt { x: (x * SCALE) as u64, y: (y * SCALE + frac_spec(z, ul, bl)) as u64 }
}

/// The crossing on the right edge of the cell at `(x, y)`.
pub open spec fn right_pt(z: int, ur: int, br: int, x: int, y: int) -> Pt {
    Pt { x: ((x + 1) * SCALE) as u64, y: (y * SCALE + frac_spec(z, ur, br)) as u64 }
}

/// The directed segments the cell at `(x, y)` emits, by its configuration
/// code. Directions keep the filled side fixed; the two saddle codes (5 and
/// 10) always use the same two-segment split.
pub open spec fn cell_segs(z: int, ul: int, ur: int, bl: int, br: int, x: int, y: int) -> Seq<
    Seg,
> {
    let c = cell_case(z, ul, ur, bl, br);
    let t = top_pt(z, ul, ur, x, y);
    let b = bottom_pt(z, bl, br, x, y);
    let l = left_pt(z, ul, bl, x, y);
    let r = right_pt(z, ur, br, x, y);
    if c == 1 {
        seq![sg(b, l)]
    } else if c == 2 {
        seq![sg(r, b)]
    } else if c == 3 {
        seq![sg(r, l)]
    } else if c == 4 {
        seq![sg(t, r)]
    } else if c == 5 {
        seq![sg(t, l), sg(b, r)]
    } else if c == 6 {
        seq![sg(t, b)]
    } else if c == 7 {
        seq![sg(t, l)]
    } else if c == 8 {
        seq![sg(l, t)]
    } else if c == 9 {
        seq![sg(b, t)]
    } else if c == 10 {
        seq![sg(l, b), sg(r, t)]
    } else if c == 11 {
        seq![sg(r, t)]
    } else if c == 12 {
        seq![sg(l, r)]
    } else if c == 13 {
        seq![sg(b, r)]
    } else if c == 14 {
        seq![sg(l, b)]
    } else {
        Seq::empty()
    }
}

/// The segments of the cell at `(x, y)` of field `f`.
pub open spec fn cell_segs_at<F: Field>(f: &F, z: int, x: int, y: int) -> Seq<Seg> {
    cell_segs(
        z,
        f.spec_z(x, y) as int,
        f.spec_z(x + 1, y) as int,
        f.spec_z(x, y + 1) as int,
        f.spec_z(x + 1, y + 1) as int,
        x,
        y,
    )
}

/// The segments of the first `n` cells of cell row `y`, in column order.
pub open spec fn row_segs_upto<F: Field>(f: &F, z: int, y: int, n: nat) -> Seq<Seg>
    decreases n,
{
    if n == 0 {
        Seq::empty()
    } else {
        row_segs_upto(f, z, y, (n - 1) as nat) + cell_segs_at(f, z, n - 1, y)
    }
}

/// The segments of the first `m` cell rows, each `w` cells wide, in
/// row-major order.
pub open spec fn field_segs_upto<F: Field>(f: &F, z: int, w: nat, m: nat) -> Seq<Seg>
    decreases m,
{
    if m == 0 {
        Seq::empty()
    } else {
        field_segs_upto(f, z, w, (m - 1) as nat) + row_segs_upto(f, z, m - 1, w)
    }
}

/// Number of cell columns of `f`: one less than the sample columns.
pub open spec fn cells_w<F: Field>(f: &F) -> nat {
    if f.spec_width() >= 1 {
        (f.spec_width() - 1) as nat
    } else {
        0
    }
}

/// Number of cell rows of `f`.
pub open spec fn cells_h<F: Field>(f: &F) -> nat {
    if f.spec_height() >= 1 {
        (f.spec_height() - 1) as nat
    } else {
        0
    }
}

/// Every segment the whole field emits, in row-major cell order.
pub open spec fn field_segs<F: Field>(f: &F, z: int) -> Seq<Seg> {
    field_segs_upto(f, z, cells_w(f), cells_h(f))
}

/// A field with no cell rows or no cell columns emits nothing.
pub proof fn lemma_field_segs_zero_w<F: Field>(f: &F, z: int, m: nat)
    ensures
        field_segs_upto(f, z, 0, m) == Seq::<Seg>::empty(),
    decreases m,
{
    if m > 0 {
        lemma_field_segs_zero_w(f, z, (m - 1) as nat);
        assert(field_segs_upto(f, z, 0, m) =~= Seq::<Seg>::empty());
    }
}

proof fn lemma_cell_in_row<F: Field>(f: &F, z: int, y: int, cx: int, n: nat)
    requires
        0 <= cx < n,
    ensures
        forall|s: Seg|
            row_segs_upto(f, z, y, n).to_multiset().count(s) >= cell_segs_at(
                f,
                z,
                cx,
                y,
            ).to_multiset().count(s),
    decreases n,
{
    vstd::seq_lib::lemma_multiset_commutative(
        row_segs_upto(f, z, y, (n - 1) as nat),
        cell_segs_at(f, z, n - 1, y),
    );
    if cx < n - 1 {
        lemma_cell_in_row(f, z, y, cx, (n - 1) as nat);
    }
}

/// Every segment a cell emits is in the whole field's segment soup at least
/// as often.
pub proof fn lemma_cell_in_field<F: Field>(f: &F, z: int, cx: int, cy: int)
    requires
        0 <= cx < cells_w(f),
        0 <= cy < cells_h(f),
    ensures
        forall|s: Seg|
            field_segs(f, z).to_multiset().count(s) >= cell_segs_at(
                f,
                z,
                cx,
                cy,
            ).to_multiset().count(s),
{
    lemma_cell_in_row(f, z, cy, cx, cells_w(f));
    lemma_row_in_field(f, z, cy, cx, cells_h(f));
}

proof fn lemma_row_in_field<F: Field>(f: &F, z: int, cy: int, cx: int, m: nat)
    requires
        0 <= cy < m,
    ensures
        forall|s: Seg|
            field_segs_upto(f, z, cells_w(f), m).to_multiset().count(s) >= row_segs_upto(
                f,
                z,
                cy,
                cells_w(f),
            ).to_multiset().count(s),
    decreases m,
{
    vstd::seq_lib::lemma_multiset_commutative(
        field_segs_upto(f, z, cells_w(f), (m - 1) as nat),
        row_segs_upto(f, z, m - 1, cells_w(f)),
    );
    if cy < m - 1 {
        lemma_row_in_field(f, z, cy, cx, (m - 1) as nat);
    }
}

/// On a rising edge the crossing fraction is monotonic in the threshold.
pub proof fn lemma_frac_spec_monotonic(za: int, zb: int, z0: int, z1: int)
    requires
        z0 < z1,
        za <= zb,
    ensures
        frac_spec(za, z0, z1) <= frac_spec(zb, z0, z1),
{
    lemma_frac_spec_range(za, z0, z1);
    lemma_frac_spec_range(zb, z0, z1);
    if za <= z0 {
    } else if zb >= z1 {
    } else {
        let s = SCALE as int;
        assert((za - z0) * s <= (zb - z0) * s) by (nonlinear_arith)
            requires
                za <= zb && s > 0,
        ;
        vstd::arithmetic::div_mod::lemma_div_is_ordered((za - z0) * s, (zb - z0) * s, z1 - z0);
    }
}

/// For `0 < num <= den`, the scaled ratio stays within one unit of grid.
proof fn lemma_ratio_range(num: int, den: int)
    requires
        0 < num <= den,
    ensures
        0 <= num * SCALE / den <= SCALE,
{
    let s = SCALE as int;
    assert(num * s >= 0) by (nonlinear_arith)
        requires
            num > 0 && s > 0,
    ;
    assert(num * s <= den * s) by (nonlinear_arith)
        requires
            num <= den && s > 0,
    ;
    assert(num * s / den >= 0) by (nonlinear_arith)
        requires
            num * s >= 0 && den > 0,
    ;
    assert(num * s / den <= s) by (nonlinear_arith)
        requires
            num * s <= den * s && den > 0,
    ;
}

} // verus!
