//! The border ring of a framed field, cell by cell.
//!
//! When every sample of a field lies strictly below the threshold and the
//! field is framed, exactly the cells along the outer ring of the cell grid
//! emit a segment, and those segments form a single directed cycle: east
//! along the top row, south down the right column, west along the bottom
//! row, and north up the left column. This module states that ring
//! explicitly, in cycle order, and proves that stitching it can only return
//! the one closed contour.

use vstd::prelude::*;

use vstd::multiset::Multiset;

use crate::cells::{
    cell_case, cell_segs_at, cells_h, cells_w, field_segs, field_segs_upto, frac_spec,
    row_segs_upto, top_pt, bottom_pt, left_pt, right_pt,
};
use crate::geom::{Pt, Seg, MAX_DIM, SCALE};
use crate::{Field, Framed, bump, chain_segs, consumed_upto, contour_views, contours_segs,
    march_post, no_start_at};

verus! {

broadcast use vstd::multiset::group_multiset_axioms, vstd::seq_lib::group_to_multiset_ensures;

/// Every sample of `f` lies strictly below the threshold.
pub open spec fn strictly_below<F: Field>(f: &F, z: int) -> bool {
    forall|x: int, y: int|
        0 <= x < f.spec_width() && 0 <= y < f.spec_height() ==> #[trigger] f.spec_z(x, y) < z
}

/// The hypotheses of the ring analysis: a field of at least 3 by 3 samples,
/// strictly below a threshold that leaves room for the border override.
pub open spec fn ring_setting<F: Field>(f: &F, z: i64) -> bool {
    &&& 3 <= f.spec_width() <= MAX_DIM
    &&& 3 <= f.spec_height() <= MAX_DIM
    &&& z < i64::MAX
    &&& strictly_below(f, z as int)
}

/// How many cells the border ring has.
pub open spec fn ring_len<F: Field>(f: &F) -> int {
    2 * f.spec_width() + 2 * f.spec_height() - 8
}

/// Column of the ring cell at cycle position `k`.
pub open spec fn ring_cell_x<F: Field>(f: &F, k: int) -> int {
    let w = f.spec_width();
    let h = f.spec_height();
    if k <= w - 3 {
        k + 1
    } else if k <= w + h - 5 {
        w - 2
    } else if k <= 2 * w + h - 7 {
        2 * w + h - 7 - k
    } else {
        0
    }
}

/// Row of the ring cell at cycle position `k`.
pub open spec fn ring_cell_y<F: Field>(f: &F, k: int) -> int {
    let w = f.spec_width();
    let h = f.spec_height();
    if k <= w - 3 {
        0
    } else if k <= w + h - 5 {
        k - (w - 3)
    } else if k <= 2 * w + h - 7 {
        h - 2
    } else {
        ring_len(f) - 1 - k
    }
}

/// An inner sample, as a mathematical integer.
pub open spec fn fz<F: Field>(f: &F, x: int, y: int) -> int {
    f.spec_z(x, y) as int
}

/// Where the segment of the ring cell at position `k` starts.
pub open spec fn ring_start<F: Field>(f: &F, z: int, k: int) -> Pt {
    let w = f.spec_width();
    let h = f.spec_height();
    if k <= w - 3 {
        left_pt(z, z + 1, fz(f, k + 1, 1), k + 1, 0)
    } else if k <= w + h - 5 {
        let cy = k - (w - 3);
        top_pt(z, fz(f, w - 2, cy), z + 1, w - 2, cy)
    } else if k <= 2 * w + h - 7 {
        let cx = 2 * w + h - 7 - k;
        right_pt(z, fz(f, cx + 1, h - 2), z + 1, cx, h - 2)
    } else {
        let cy = ring_len(f) - 1 - k;
        bottom_pt(z, z + 1, fz(f, 1, cy + 1), 0, cy)
    }
}

/// Where the segment of the ring cell at position `k` ends.
pub open spec fn ring_end<F: Field>(f: &F, z: int, k: int) -> Pt {
    let w = f.spec_width();
    let h = f.spec_height();
    if k <= w - 4 {
        right_pt(z, z + 1, fz(f, k + 2, 1), k + 1, 0)
    } else if k == w - 3 {
        bottom_pt(z, fz(f, w - 2, 1), z + 1, w - 2, 0)
    } else if k <= w + h - 6 {
        let cy = k - (w - 3);
        bottom_pt(z, fz(f, w - 2, cy + 1), z + 1, w - 2, cy)
    } else if k == w + h - 5 {
        left_pt(z, fz(f, w - 2, h - 2), z + 1, w - 2, h - 2)
    } else if k <= 2 * w + h - 8 {
        let cx = 2 * w + h - 7 - k;
        left_pt(z, fz(f, cx, h - 2), z + 1, cx, h - 2)
    } else if k == 2 * w + h - 7 {
        top_pt(z, z + 1, fz(f, 1, h - 2), 0, h - 2)
    } else if k <= ring_len(f) - 2 {
        let cy = ring_len(f) - 1 - k;
        top_pt(z, z + 1, fz(f, 1, cy), 0, cy)
    } else {
        right_pt(z, z + 1, fz(f, 1, 1), 0, 0)
    }
}

/// The segment of the ring cell at position `k`.
pub open spec fn ring_seg<F: Field>(f: &F, z: int, k: int) -> Seg {
    Seg { start: ring_start(f, z, k), end: ring_end(f, z, k) }
}

/// A crossing measured from a border corner lands in the nearer half of the
/// edge.
proof fn lemma_fall_bounds(z: int, v: int)
    requires
        v < z,
    ensures
        0 <= frac_spec(z, z + 1, v) <= SCALE / 2,
{
    let den = z + 1 - v;
    assert(frac_spec(z, z + 1, v) == SCALE as int / den);
    vstd::arithmetic::div_mod::lemma_div_pos_is_pos(SCALE as int, den);
    vstd::arithmetic::div_mod::lemma_div_is_ordered_by_denominator(SCALE as int, 2, den);
}

/// A crossing measured from an inner corner lands in the farther half, but
/// never on the far corner itself.
proof fn lemma_rise_bounds(z: int, v: int)
    requires
        v < z,
    ensures
        SCALE / 2 <= frac_spec(z, v, z + 1) <= SCALE - 1,
{
    let d = z - v;
    let den = d + 1;
    assert(frac_spec(z, v, z + 1) == d * (SCALE as int) / den);
    assert(128 * den <= d * 256) by (nonlinear_arith)
        requires
            d >= 1 && den == d + 1,
    ;
    vstd::arithmetic::div_mod::lemma_div_multiples_vanish(128, den);
    vstd::arithmetic::div_mod::lemma_div_is_ordered(128 * den, d * 256, den);
    assert(d * 256 < den * 256) by (nonlinear_arith)
        requires
            den == d + 1,
    ;
    vstd::arithmetic::div_mod::lemma_multiply_divide_lt(d * 256, den, 256);
}

/// The ring cell at position `k` emits exactly its ring segment.
proof fn lemma_framed_ring_cell<F: Field>(f: &F, z: i64, k: int)
    requires
        ring_setting(f, z),
        0 <= k < ring_len(f),
    ensures
        cell_segs_at(&(Framed { field: f, border_z: z }), z as int, ring_cell_x(f, k), ring_cell_y(f, k))
            == seq![ring_seg(f, z as int, k)],
{
    let g = Framed { field: f, border_z: z };
    let zi = z as int;
    let w = f.spec_width();
    let h = f.spec_height();
    let cx = ring_cell_x(f, k);
    let cy = ring_cell_y(f, k);
    assert(bump(z) == z + 1);
    if k <= w - 3 {
        // top row: cell (k + 1, 0)
        assert(cx == k + 1 && cy == 0);
        assert(g.spec_z(cx, 0) == bump(z) && g.spec_z(cx + 1, 0) == bump(z));
        assert(g.spec_z(cx, 1) == f.spec_z(cx, 1));
        assert(f.spec_z(cx, 1) < z);
        if k <= w - 4 {
            assert(g.spec_z(cx + 1, 1) == f.spec_z(cx + 1, 1));
            assert(f.spec_z(cx + 1, 1) < z);
            assert(cell_case(zi, zi + 1, zi + 1, fz(f, cx, 1), fz(f, cx + 1, 1)) == 12);
            assert(cell_segs_at(&g, zi, cx, cy) =~= seq![ring_seg(f, zi, k)]);
        } else {
            // the north-east corner cell (w - 2, 0)
            assert(cx == w - 2);
            assert(g.spec_z(cx + 1, 1) == bump(z));
            assert(cell_case(zi, zi + 1, zi + 1, fz(f, cx, 1), zi + 1) == 14);
            assert(cell_segs_at(&g, zi, cx, cy) =~= seq![ring_seg(f, zi, k)]);
        }
    } else if k <= w + h - 5 {
        // right column: cell (w - 2, cy), cy in [1, h - 2]
        assert(cx == w - 2 && cy == k - (w - 3));
        assert(1 <= cy <= h - 2);
        assert(g.spec_z(cx + 1, cy) == bump(z) && g.spec_z(cx + 1, cy + 1) == bump(z));
        assert(g.spec_z(cx, cy) == f.spec_z(cx, cy));
        assert(f.spec_z(cx, cy) < z);
        if cy <= h - 3 {
            assert(g.spec_z(cx, cy + 1) == f.spec_z(cx, cy + 1));
            assert(f.spec_z(cx, cy + 1) < z);
            assert(cell_case(zi, fz(f, cx, cy), zi + 1, fz(f, cx, cy + 1), zi + 1) == 6);
            assert(cell_segs_at(&g, zi, cx, cy) =~= seq![ring_seg(f, zi, k)]);
        } else {
            // the south-east corner cell (w - 2, h - 2)
            assert(cy == h - 2);
            assert(g.spec_z(cx, cy + 1) == bump(z));
            assert(cell_case(zi, fz(f, cx, cy), zi + 1, zi + 1, zi + 1) == 7);
            assert(cell_segs_at(&g, zi, cx, cy) =~= seq![ring_seg(f, zi, k)]);
        }
    } else if k <= 2 * w + h - 7 {
        // bottom row: cell (cx, h - 2), cx in [0, w - 3]
        assert(cy == h - 2 && cx == 2 * w + h - 7 - k);
        assert(0 <= cx <= w - 3);
        assert(g.spec_z(cx, cy + 1) == bump(z) && g.spec_z(cx + 1, cy + 1) == bump(z));
        assert(g.spec_z(cx + 1, cy) == f.spec_z(cx + 1, cy));
        assert(f.spec_z(cx + 1, cy) < z);
        if cx >= 1 {
            assert(g.spec_z(cx, cy) == f.spec_z(cx, cy));
            assert(f.spec_z(cx, cy) < z);
            assert(cell_case(zi, fz(f, cx, cy), fz(f, cx + 1, cy), zi + 1, zi + 1) == 3);
            assert(cell_segs_at(&g, zi, cx, cy) =~= seq![ring_seg(f, zi, k)]);
        } else {
            // the south-west corner cell (0, h - 2)
            assert(g.spec_z(cx, cy) == bump(z));
            assert(cell_case(zi, zi + 1, fz(f, cx + 1, cy), zi + 1, zi + 1) == 11);
            assert(cell_segs_at(&g, zi, cx, cy) =~= seq![ring_seg(f, zi, k)]);
        }
    } else {
        // left column: cell (0, cy), cy in [0, h - 3]
        assert(cx == 0 && cy == ring_len(f) - 1 - k);
        assert(0 <= cy <= h - 3);
        assert(g.spec_z(0, cy) == bump(z) && g.spec_z(0, cy + 1) == bump(z));
        assert(g.spec_z(1, cy + 1) == f.spec_z(1, cy + 1));
        assert(f.spec_z(1, cy + 1) < z);
        if cy >= 1 {
            assert(g.spec_z(1, cy) == f.spec_z(1, cy));
            assert(f.spec_z(1, cy) < z);
            assert(cell_case(zi, zi + 1, fz(f, 1, cy), zi + 1, fz(f, 1, cy + 1)) == 9);
            assert(cell_segs_at(&g, zi, cx, cy) =~= seq![ring_seg(f, zi, k)]);
        } else {
            // the north-west corner cell (0, 0)
            assert(g.spec_z(1, 0) == bump(z));
            assert(cell_case(zi, zi + 1, zi + 1, zi + 1, fz(f, 1, 1)) == 13);
            assert(cell_segs_at(&g, zi, cx, cy) =~= seq![ring_seg(f, zi, k)]);
        }
    }
}

/// The ring position of the cell at `(cx, cy)`, for cells on the ring.
pub open spec fn ring_pos<F: Field>(f: &F, cx: int, cy: int) -> int {
    let w = f.spec_width();
    let h = f.spec_height();
    if cy == 0 {
        if cx == 0 {
            ring_len(f) - 1
        } else {
            cx - 1
        }
    } else if cx == w - 2 {
        w - 3 + cy
    } else if cy == h - 2 {
        2 * w + h - 7 - cx
    } else {
        ring_len(f) - 1 - cy
    }
}

/// How many segments the cell at `(cx, cy)` emits: one on the ring, none
/// inside it.
proof fn lemma_framed_cell_len<F: Field>(f: &F, z: i64, cx: int, cy: int)
    requires
        ring_setting(f, z),
        0 <= cx <= f.spec_width() - 2,
        0 <= cy <= f.spec_height() - 2,
    ensures
        cell_segs_at(&(Framed { field: f, border_z: z }), z as int, cx, cy).len() == (
        if 1 <= cx <= f.spec_width() - 3 && 1 <= cy <= f.spec_height() - 3 {
            0int
        } else {
            1int
        }),
        !(1 <= cx <= f.spec_width() - 3 && 1 <= cy <= f.spec_height() - 3) ==> {
            let k = ring_pos(f, cx, cy);
            &&& 0 <= k < ring_len(f)
            &&& ring_cell_x(f, k) == cx
            &&& ring_cell_y(f, k) == cy
            &&& cell_segs_at(&(Framed { field: f, border_z: z }), z as int, cx, cy) == seq![
                ring_seg(f, z as int, k),
            ]
        },
{
    let w = f.spec_width();
    let h = f.spec_height();
    if 1 <= cx <= w - 3 && 1 <= cy <= h - 3 {
        lemma_framed_interior_cell(f, z, cx, cy);
    } else {
        let k = ring_pos(f, cx, cy);
        assert(0 <= k < ring_len(f));
        assert(ring_cell_x(f, k) == cx && ring_cell_y(f, k) == cy);
        lemma_framed_ring_cell(f, z, k);
    }
}

/// Cells off the ring emit nothing.
proof fn lemma_framed_interior_cell<F: Field>(f: &F, z: i64, cx: int, cy: int)
    requires
        ring_setting(f, z),
        1 <= cx <= f.spec_width() - 3,
        1 <= cy <= f.spec_height() - 3,
    ensures
        cell_segs_at(&(Framed { field: f, border_z: z }), z as int, cx, cy) == Seq::<Seg>::empty(),
{
    let g = Framed { field: f, border_z: z };
    let zi = z as int;
    assert(g.spec_z(cx, cy) == f.spec_z(cx, cy) && f.spec_z(cx, cy) < z);
    assert(g.spec_z(cx + 1, cy) == f.spec_z(cx + 1, cy) && f.spec_z(cx + 1, cy) < z);
    assert(g.spec_z(cx, cy + 1) == f.spec_z(cx, cy + 1) && f.spec_z(cx, cy + 1) < z);
    assert(g.spec_z(cx + 1, cy + 1) == f.spec_z(cx + 1, cy + 1) && f.spec_z(cx + 1, cy + 1) < z);
    assert(cell_case(zi, fz(f, cx, cy), fz(f, cx + 1, cy), fz(f, cx, cy + 1), fz(f, cx + 1, cy + 1))
        == 0);
    assert(cell_segs_at(&g, zi, cx, cy) =~= Seq::<Seg>::empty());
}

/// Length of the first `n` cells' emissions in row `y` of the framed field.
pub open spec fn row_prefix_len(w: int, h: int, y: int, n: int) -> int {
    if y == 0 || y == h - 2 {
        n
    } else if n == 0 {
        0
    } else if n <= w - 2 {
        1
    } else {
        2
    }
}

proof fn lemma_framed_row_len<F: Field>(f: &F, z: i64, y: int, n: nat)
    requires
        ring_setting(f, z),
        0 <= y <= f.spec_height() - 2,
        n <= f.spec_width() - 1,
    ensures
        row_segs_upto(&(Framed { field: f, border_z: z }), z as int, y, n).len() == row_prefix_len(
            f.spec_width(),
            f.spec_height(),
            y,
            n as int,
        ),
    decreases n,
{
    if n > 0 {
        lemma_framed_row_len(f, z, y, (n - 1) as nat);
        lemma_framed_cell_len(f, z, n - 1, y);
    }
}

/// Length of the first `m` rows' emissions of the framed field.
pub open spec fn field_prefix_len(w: int, h: int, m: int) -> int {
    if m == 0 {
        0
    } else if m <= h - 2 {
        w - 1 + 2 * (m - 1)
    } else {
        2 * w + 2 * h - 8
    }
}

proof fn lemma_framed_field_len<F: Field>(f: &F, z: i64, m: nat)
    requires
        ring_setting(f, z),
        m <= f.spec_height() - 1,
    ensures
        field_segs_upto(
            &(Framed { field: f, border_z: z }),
            z as int,
            cells_w(&(Framed { field: f, border_z: z })),
            m,
        ).len() == field_prefix_len(f.spec_width(), f.spec_height(), m as int),
    decreases m,
{
    let g = Framed { field: f, border_z: z };
    assert(cells_w(&g) == f.spec_width() - 1);
    if m > 0 {
        lemma_framed_field_len(f, z, (m - 1) as nat);
        lemma_framed_row_len(f, z, m - 1, cells_w(&g));
    }
}

/// The start coordinates of each ring segment: one coordinate sits exactly
/// on the grid, the other within the half of its edge away from the next
/// corner.
proof fn lemma_ring_start_coords<F: Field>(f: &F, z: i64, k: int)
    requires
        ring_setting(f, z),
        0 <= k < ring_len(f),
    ensures
        ({
            let w = f.spec_width();
            let h = f.spec_height();
            let p = ring_start(f, z as int, k);
            if k <= w - 3 {
                p.x == (k + 1) * 256 && 0 <= p.y <= 128
            } else if k <= w + h - 5 {
                (w - 2) * 256 + 128 <= p.x <= (w - 2) * 256 + 255 && p.y == (k - (w - 3)) * 256
            } else if k <= 2 * w + h - 7 {
                p.x == (2 * w + h - 7 - k + 1) * 256 && (h - 2) * 256 + 128 <= p.y <= (h - 2) * 256
                    + 255
            } else {
                0 <= p.x <= 128 && p.y == (ring_len(f) - k) * 256
            }
        }),
{
    let w = f.spec_width();
    let h = f.spec_height();
    let zi = z as int;
    if k <= w - 3 {
        lemma_fall_bounds(zi, fz(f, k + 1, 1));
    } else if k <= w + h - 5 {
        let cy = k - (w - 3);
        lemma_rise_bounds(zi, fz(f, w - 2, cy));
    } else if k <= 2 * w + h - 7 {
        let cx = 2 * w + h - 7 - k;
        lemma_rise_bounds(zi, fz(f, cx + 1, h - 2));
    } else {
        let cy = ring_len(f) - 1 - k;
        lemma_fall_bounds(zi, fz(f, 1, cy + 1));
    }
}

/// Distinct ring positions start at distinct points.
proof fn lemma_ring_starts_distinct<F: Field>(f: &F, z: i64, k1: int, k2: int)
    requires
        ring_setting(f, z),
        0 <= k1 < ring_len(f),
        0 <= k2 < ring_len(f),
        k1 != k2,
    ensures
        ring_start(f, z as int, k1) != ring_start(f, z as int, k2),
{
    lemma_ring_start_coords(f, z, k1);
    lemma_ring_start_coords(f, z, k2);
}

/// Each ring segment ends where the next one starts; the ring is a single
/// directed cycle.
proof fn lemma_ring_adjacent<F: Field>(f: &F, z: i64, k: int)
    requires
        ring_setting(f, z),
        0 <= k < ring_len(f),
    ensures
        ring_end(f, z as int, k) == ring_start(
            f,
            z as int,
            if k == ring_len(f) - 1 {
                0int
            } else {
                k + 1
            },
        ),
{
}

/// The ring, as a sequence of segments in cycle order.
pub open spec fn ring_seq<F: Field>(f: &F, z: int) -> Seq<Seg> {
    Seq::new(ring_len(f) as nat, |k: int| ring_seg(f, z, k))
}

/// The framed field emits exactly the ring: its segment soup is the ring's
/// segments, one each.
proof fn lemma_soup_is_ring<F: Field>(f: &F, z: i64)
    requires
        ring_setting(f, z),
    ensures
        field_segs(&(Framed { field: f, border_z: z }), z as int).to_multiset() == ring_seq(
            f,
            z as int,
        ).to_multiset(),
        forall|k: int|
            0 <= k < ring_len(f) ==> ring_seq(f, z as int).to_multiset().count(
                #[trigger] ring_seg(f, z as int, k),
            ) == 1,
{
    let g = Framed { field: f, border_z: z };
    let zi = z as int;
    let w = f.spec_width();
    let h = f.spec_height();
    let soup = field_segs(&g, zi).to_multiset();
    let rs = ring_seq(f, zi);
    let rms = rs.to_multiset();

    // the soup has exactly as many segments as the ring has cells
    assert(cells_h(&g) == h - 1);
    lemma_framed_field_len(f, z, (h - 1) as nat);
    assert(field_segs(&g, zi).len() == ring_len(f));
    assert(soup.len() == ring_len(f));
    assert(rms.len() == ring_len(f));

    // the ring's segments are pairwise distinct
    assert(rs.no_duplicates()) by {
        assert forall|i: int, j: int|
            0 <= i < rs.len() && 0 <= j < rs.len() && i != j implies rs[i] != rs[j] by {
            lemma_ring_starts_distinct(f, z, i, j);
        }
    }
    rs.lemma_multiset_has_no_duplicates();
    assert forall|k: int| 0 <= k < ring_len(f) implies rms.count(#[trigger] ring_seg(f, zi, k))
        == 1 by {
        assert(rs[k] == ring_seg(f, zi, k));
        assert(rs.contains(ring_seg(f, zi, k)));
    }

    // every ring segment is in the soup
    assert forall|s: Seg| rms.count(s) <= soup.count(s) by {
        if rms.count(s) > 0 {
            let k = choose|k: int| 0 <= k < rs.len() && rs[k] == s;
            let cx = ring_cell_x(f, k);
            let cy = ring_cell_y(f, k);
            lemma_framed_ring_cell(f, z, k);
            crate::cells::lemma_cell_in_field(&g, zi, cx, cy);
            assert(cell_segs_at(&g, zi, cx, cy) =~= Seq::<Seg>::empty().push(s));
            assert(Seq::<Seg>::empty().to_multiset().len() == 0);
            assert(Seq::<Seg>::empty().to_multiset() =~= Multiset::<Seg>::empty());
            assert(cell_segs_at(&g, zi, cx, cy).to_multiset().count(s) == 1);
        }
    }

    // equal sizes and pointwise at-most make the two multisets equal
    assert(rms.subset_of(soup));
    assert(soup.sub(rms).len() == 0);
    assert forall|s: Seg| soup.count(s) == rms.count(s) by {
        assert(soup.sub(rms).count(s) == 0);
    }
    assert(soup =~= rms);
}

/// A chain's segments join its consecutive points, in order.
proof fn lemma_chain_index(c: Seq<Pt>)
    requires
        c.len() >= 1,
    ensures
        chain_segs(c).len() == c.len() - 1,
        forall|t: int|
            0 <= t < c.len() - 1 ==> #[trigger] chain_segs(c)[t] == (Seg {
                start: c[t],
                end: c[t + 1],
            }),
    decreases c.len(),
{
    if c.len() >= 2 {
        lemma_chain_index(c.drop_last());
        assert forall|t: int| 0 <= t < c.len() - 1 implies #[trigger] chain_segs(c)[t] == (Seg {
            start: c[t],
            end: c[t + 1],
        }) by {
            if t < c.len() - 2 {
                assert(chain_segs(c)[t] == chain_segs(c.drop_last())[t]);
                assert(c.drop_last()[t] == c[t] && c.drop_last()[t + 1] == c[t + 1]);
            }
        }
    }
}

/// A value occurring at two positions counts at least twice.
proof fn lemma_dup_count(s: Seq<Seg>, i: int, j: int)
    requires
        0 <= i < j < s.len(),
        s[i] == s[j],
    ensures
        s.to_multiset().count(s[i]) >= 2,
{
    let s2 = s.remove(i);
    assert(s2[j - 1] == s[j]);
    assert(s2.contains(s[i]));
    assert(s2.to_multiset() == s.to_multiset().remove(s[i]));
    assert(s2.to_multiset().count(s[i]) >= 1);
}

/// All of one contour's segments are within the whole stitching's.
proof fn lemma_contours_hold_chain(cs: Seq<Seq<Pt>>, i: int)
    requires
        0 <= i < cs.len(),
    ensures
        forall|s: Seg|
            contours_segs(cs).to_multiset().count(s) >= chain_segs(cs[i]).to_multiset().count(s),
        contours_segs(cs).len() >= chain_segs(cs[i]).len(),
    decreases cs.len(),
{
    vstd::seq_lib::lemma_multiset_commutative(contours_segs(cs.drop_last()), chain_segs(cs.last()));
    if i < cs.len() - 1 {
        lemma_contours_hold_chain(cs.drop_last(), i);
        assert(cs.drop_last()[i] == cs[i]);
    }
}

/// The walk: a chain whose segments come from the ring (each at most once)
/// and whose first segment sits at ring position `k0` follows the ring,
/// position by position.
proof fn lemma_walk<F: Field>(f: &F, z: i64, c: Seq<Pt>, k0: int, t: int)
    requires
        ring_setting(f, z),
        c.len() >= 2,
        0 <= k0 < ring_len(f),
        chain_segs(c)[0] == ring_seg(f, z as int, k0),
        forall|s: Seg|
            chain_segs(c).to_multiset().count(s) <= ring_seq(f, z as int).to_multiset().count(s),
        0 <= t < chain_segs(c).len(),
    ensures
        chain_segs(c)[t] == ring_seg(f, z as int, (k0 + t) % ring_len(f)),
    decreases t,
{
    let zi = z as int;
    let p = ring_len(f);
    let rs = ring_seq(f, zi);
    lemma_chain_index(c);
    if t == 0 {
        vstd::arithmetic::div_mod::lemma_small_mod(k0 as nat, p as nat);
    } else {
        lemma_walk(f, z, c, k0, t - 1);
        let kp = (k0 + t - 1) % p;
        vstd::arithmetic::div_mod::lemma_mod_bound(k0 + t - 1, p);
        assert(chain_segs(c)[t - 1] == ring_seg(f, zi, kp));
        assert(chain_segs(c)[t].start == c[t]);
        assert(chain_segs(c)[t - 1].end == c[t]);
        lemma_ring_adjacent(f, z, kp);
        let kn = if kp == p - 1 {
            0int
        } else {
            kp + 1
        };
        assert(kn == (kp + 1) % p) by {
            if kp == p - 1 {
                vstd::arithmetic::div_mod::lemma_mod_multiples_vanish(1, 0, p);
            } else {
                vstd::arithmetic::div_mod::lemma_small_mod((kp + 1) as nat, p as nat);
            }
        }
        assert(kn == (k0 + t) % p) by {
            vstd::arithmetic::div_mod::lemma_add_mod_noop(k0 + t - 1, 1, p);
            vstd::arithmetic::div_mod::lemma_small_mod(1nat, p as nat);
            assert((kp + 1) % p == (k0 + t) % p);
        }
        // the chain's segment at t is in the ring, and it starts where the
        // ring's segment at kn starts, so it is that segment
        assert(chain_segs(c).to_multiset().count(chain_segs(c)[t]) >= 1) by {
            assert(chain_segs(c).contains(chain_segs(c)[t]));
        }
        assert(rs.to_multiset().count(chain_segs(c)[t]) > 0);
        assert(rs.contains(chain_segs(c)[t]));
        let k2 = choose|k2: int| 0 <= k2 < rs.len() && rs[k2] == chain_segs(c)[t];
        assert(chain_segs(c)[t] == ring_seg(f, zi, k2));
        assert(ring_start(f, zi, k2) == c[t]);
        assert(ring_end(f, zi, kp) == c[t]);
        assert(ring_start(f, zi, kn) == c[t]);
        if k2 != kn {
            lemma_ring_starts_distinct(f, z, k2, kn);
        }
    }
}

/// A framed, strictly-below field stitches to exactly one contour: the
/// border ring is a single directed cycle, so the first chain can only stop
/// after walking all of it, and nothing is left for a second chain.
///
/// Samples exactly at the threshold are excluded: such a sample would put
/// two crossings on one grid corner, and which of the two coinciding
/// pending segments the stitcher takes first is an order detail that the
/// stitching contract deliberately leaves open.
#[verifier::rlimit(80)]
pub proof fn lemma_framed_single_contour<F: Field>(f: &F, z: i64, cs: Seq<Vec<Pt>>)
    requires
        ring_setting(f, z),
        march_post(&(Framed { field: f, border_z: z }), z as int, cs),
    ensures
        cs.len() == 1,
        cs[0]@.len() == ring_len(f) + 1,
        cs[0]@[0] == cs[0]@.last(),
{
    let g = Framed { field: f, border_z: z };
    let zi = z as int;
    let p = ring_len(f);
    let rs = ring_seq(f, zi);
    let rms = rs.to_multiset();
    let soup = field_segs(&g, zi).to_multiset();
    let views = contour_views(cs);
    lemma_soup_is_ring(f, z);
    assert(p >= 4);

    assert(contours_segs(views).to_multiset() == soup);
    if cs.len() == 0 {
        assert(views.len() == 0);
        assert(contours_segs(views) == Seq::<Seg>::empty());
        assert(soup.len() == 0);
        assert(rms.count(ring_seg(f, zi, 0)) == 1);
        assert(false);
    }

    let c0 = views[0];
    let ch = chain_segs(c0);
    assert(c0.len() >= 2);
    lemma_chain_index(c0);
    let el = ch.len() as int;
    assert(el >= 1);
    lemma_contours_hold_chain(views, 0);
    assert(forall|s: Seg| ch.to_multiset().count(s) <= rms.count(s));

    // the first chain segment is somewhere on the ring
    assert(ch.to_multiset().count(ch[0]) >= 1) by {
        assert(ch.contains(ch[0]));
    }
    assert(rms.count(ch[0]) >= 1);
    assert(rs.contains(ch[0]));
    let k0 = choose|k0: int| 0 <= k0 < rs.len() && rs[k0] == ch[0];
    assert(ch[0] == ring_seg(f, zi, k0));

    // the chain walks the ring, and never passes the same position twice
    assert forall|t: int| 0 <= t < el implies #[trigger] ch[t] == ring_seg(
        f,
        zi,
        (k0 + t) % p,
    ) by {
        lemma_walk(f, z, c0, k0, t);
    }
    assert forall|t: int, t2: int|
        #![trigger ch[t], ch[t2]]
        0 <= t < t2 < el implies (k0 + t) % p != (k0 + t2) % p by {
        if (k0 + t) % p == (k0 + t2) % p {
            assert(ch[t] == ch[t2]);
            lemma_dup_count(ch, t, t2);
            vstd::arithmetic::div_mod::lemma_mod_bound(k0 + t, p);
            assert(rms.count(ring_seg(f, zi, (k0 + t) % p)) == 1);
        }
    }

    // the walk cannot be longer than the ring
    if el > p {
        assert(ch[0] == ring_seg(f, zi, (k0 + 0) % p));
        assert(ch[p] == ring_seg(f, zi, (k0 + p) % p));
        assert((k0 + 0) % p == (k0 + p) % p) by {
            vstd::arithmetic::div_mod::lemma_mod_multiples_vanish(1, k0, p);
            vstd::arithmetic::div_mod::lemma_small_mod(k0 as nat, p as nat);
            assert(p * 1 + k0 == k0 + p);
        }
        assert(false);
    }

    // nor can it stop early: the ring segment right after the walk would
    // still be pending and continue from the chain's last point
    if el < p {
        let kn = (k0 + el) % p;
        vstd::arithmetic::div_mod::lemma_mod_bound(k0 + el, p);
        let pending = ring_seg(f, zi, kn);
        assert(ch.to_multiset().count(pending) == 0) by {
            if ch.to_multiset().count(pending) > 0 {
                assert(ch.contains(pending));
                let t = choose|t: int| 0 <= t < el && ch[t] == pending;
                assert(ring_seg(f, zi, (k0 + t) % p) == ring_seg(f, zi, kn));
                if (k0 + t) % p != kn {
                    vstd::arithmetic::div_mod::lemma_mod_bound(k0 + t, p);
                    lemma_ring_starts_distinct(f, z, (k0 + t) % p, kn);
                }
                assert((k0 + t) % p == (k0 + el) % p);
                vstd::arithmetic::div_mod::lemma_mod_equivalence(k0 + t, k0 + el, p);
                assert((t - el) % p == 0) by {
                    assert((k0 + t) - (k0 + el) == t - el);
                }
                assert((el - t) % p == 0) by {
                    vstd::arithmetic::div_mod::lemma_mod_equivalence(k0 + el, k0 + t, p);
                }
                vstd::arithmetic::div_mod::lemma_small_mod((el - t) as nat, p as nat);
                assert(false);
            }
        }
        assert(soup.count(pending) == 1);
        // what march says never happens: a pending segment continuing from
        // the finished contour's last point
        assert(views.take(1) =~= seq![c0]);
        assert(seq![c0].drop_last() =~= Seq::<Seq<Pt>>::empty());
        assert(contours_segs(Seq::<Seq<Pt>>::empty()) == Seq::<Seg>::empty());
        assert(seq![c0].last() == c0);
        assert(contours_segs(seq![c0]) == Seq::<Seg>::empty() + ch);
        assert(Seq::<Seg>::empty() + ch =~= ch);
        assert(consumed_upto(views, 1) == ch.to_multiset());
        assert(no_start_at(soup.sub(consumed_upto(views, 1)), c0.last()));
        assert(soup.sub(ch.to_multiset()).count(pending) > 0);
        assert(pending.start != c0.last());
        // yet the ring says it does continue from there
        let kl = (k0 + el - 1) % p;
        vstd::arithmetic::div_mod::lemma_mod_bound(k0 + el - 1, p);
        assert(ch[el - 1] == ring_seg(f, zi, kl));
        assert(c0.last() == ch[el - 1].end);
        lemma_ring_adjacent(f, z, kl);
        let kn2 = if kl == p - 1 {
            0int
        } else {
            kl + 1
        };
        assert(kn2 == (kl + 1) % p) by {
            if kl == p - 1 {
                vstd::arithmetic::div_mod::lemma_mod_multiples_vanish(1, 0, p);
            } else {
                vstd::arithmetic::div_mod::lemma_small_mod((kl + 1) as nat, p as nat);
            }
        }
        assert(kn2 == kn) by {
            vstd::arithmetic::div_mod::lemma_add_mod_noop(k0 + el - 1, 1, p);
            vstd::arithmetic::div_mod::lemma_small_mod(1nat, p as nat);
        }
        assert(ring_start(f, zi, kn) == c0.last());
        assert(false);
    }
    assert(el == p);

    // the walk went all the way around, so the contour is a closed ring
    assert(c0.len() == p + 1);
    assert(c0[0] == ch[0].start);
    assert(c0.last() == ch[el - 1].end);
    assert(ch[el - 1] == ring_seg(f, zi, (k0 + el - 1) % p));
    let kl = (k0 + el - 1) % p;
    vstd::arithmetic::div_mod::lemma_mod_bound(k0 + el - 1, p);
    lemma_ring_adjacent(f, z, kl);
    let kw = if kl == p - 1 {
        0int
    } else {
        kl + 1
    };
    assert(kw == (kl + 1) % p) by {
        if kl == p - 1 {
            vstd::arithmetic::div_mod::lemma_mod_multiples_vanish(1, 0, p);
        } else {
            vstd::arithmetic::div_mod::lemma_small_mod((kl + 1) as nat, p as nat);
        }
    }
    assert(kw == k0) by {
        vstd::arithmetic::div_mod::lemma_add_mod_noop(k0 + el - 1, 1, p);
        vstd::arithmetic::div_mod::lemma_small_mod(1nat, p as nat);
        vstd::arithmetic::div_mod::lemma_mod_multiples_vanish(1, k0, p);
        vstd::arithmetic::div_mod::lemma_small_mod(k0 as nat, p as nat);
        assert((kl + 1) % p == (k0 + el) % p);
        assert(p * 1 + k0 == k0 + p);
    }
    assert(c0.last() == ring_start(f, zi, k0));
    assert(c0[0] == c0.last());
    assert(cs[0]@ == c0);

    // the first chain already consumed the whole ring; a second contour
    // would need at least one more segment than the soup has
    if cs.len() >= 2 {
        let last = views.last();
        assert(last.len() >= 2);
        lemma_chain_index(last);
        lemma_contours_hold_chain(views.drop_last(), 0);
        assert(views.drop_last()[0] == c0);
        vstd::seq_lib::lemma_multiset_commutative(
            contours_segs(views.drop_last()),
            chain_segs(last),
        );
        assert(contours_segs(views).len() == contours_segs(views.drop_last()).len() + chain_segs(
            last,
        ).len());
        assert(contours_segs(views).len() >= p + 1);
        assert(contours_segs(views).to_multiset().len() == soup.len());
        assert(soup.len() == p);
        assert(false);
    }
}

} // verus!
