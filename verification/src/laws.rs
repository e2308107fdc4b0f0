//! Field-level laws of the contour pipeline.

use vstd::prelude::*;

use crate::{Field, Framed, bump};
use crate::cells::{cell_case, cell_segs_at, cells_h, cells_w, field_segs, field_segs_upto,
    row_segs_upto};
use crate::geom::{Pt, Seg};
use crate::{chain_segs, contour_views, contours_segs, march_post};

verus! {

broadcast use vstd::seq_lib::group_to_multiset_ensures;

/// Every sample of `f` lies strictly above the threshold.
pub open spec fn all_above<F: Field>(f: &F, z: int) -> bool {
    forall|x: int, y: int|
        0 <= x < f.spec_width() && 0 <= y < f.spec_height() ==> #[trigger] f.spec_z(x, y) > z
}

/// No sample of `f` lies above the threshold.
pub open spec fn all_below<F: Field>(f: &F, z: int) -> bool {
    forall|x: int, y: int|
        0 <= x < f.spec_width() && 0 <= y < f.spec_height() ==> #[trigger] f.spec_z(x, y) <= z
}

proof fn lemma_row_segs_uniform<F: Field>(f: &F, z: int, y: int, n: nat)
    requires
        all_above(f, z) || all_below(f, z),
        0 <= y,
        y + 1 < f.spec_height(),
        n + 1 <= f.spec_width(),
    ensures
        row_segs_upto(f, z, y, n) == Seq::<Seg>::empty(),
    decreases n,
{
    if n > 0 {
        lemma_row_segs_uniform(f, z, y, (n - 1) as nat);
        let x = n - 1;
        if all_above(f, z) {
            assert(f.spec_z(x, y) > z && f.spec_z(x + 1, y) > z && f.spec_z(x, y + 1) > z
                && f.spec_z(x + 1, y + 1) > z);
            assert(cell_case(
                z,
                f.spec_z(x, y) as int,
                f.spec_z(x + 1, y) as int,
                f.spec_z(x, y + 1) as int,
                f.spec_z(x + 1, y + 1) as int,
            ) == 15);
        } else {
            assert(f.spec_z(x, y) <= z && f.spec_z(x + 1, y) <= z && f.spec_z(x, y + 1) <= z
                && f.spec_z(x + 1, y + 1) <= z);
            assert(cell_case(
                z,
                f.spec_z(x, y) as int,
                f.spec_z(x + 1, y) as int,
                f.spec_z(x, y + 1) as int,
                f.spec_z(x + 1, y + 1) as int,
            ) == 0);
        }
        assert(cell_segs_at(f, z, x, y) =~= Seq::<Seg>::empty());
        assert(row_segs_upto(f, z, y, n) =~= Seq::<Seg>::empty());
    }
}

proof fn lemma_field_segs_uniform<F: Field>(f: &F, z: int, m: nat)
    requires
        all_above(f, z) || all_below(f, z),
        m <= cells_h(f),
    ensures
        field_segs_upto(f, z, cells_w(f), m) == Seq::<Seg>::empty(),
    decreases m,
{
    if m > 0 {
        lemma_field_segs_uniform(f, z, (m - 1) as nat);
        if f.spec_width() >= 1 {
            lemma_row_segs_uniform(f, z, m - 1, cells_w(f));
        } else {
            assert(cells_w(f) == 0);
            assert(row_segs_upto(f, z, m - 1, 0) == Seq::<Seg>::empty());
        }
        assert(field_segs_upto(f, z, cells_w(f), m) =~= Seq::<Seg>::empty());
    }
}

/// A chain of two or more points carries at least one segment.
proof fn lemma_chain_segs_len(c: Seq<Pt>)
    requires
        c.len() >= 2,
    ensures
        chain_segs(c).len() >= 1,
{
}

proof fn lemma_row_segs_holds_first<F: Field>(f: &F, z: int, y: int, n: nat)
    requires
        1 <= n,
    ensures
        row_segs_upto(f, z, y, n).len() >= cell_segs_at(f, z, 0, y).len(),
    decreases n,
{
    if n > 1 {
        lemma_row_segs_holds_first(f, z, y, (n - 1) as nat);
    } else {
        assert(row_segs_upto(f, z, y, 0nat) == Seq::<Seg>::empty());
    }
}

proof fn lemma_field_segs_holds_first_row<F: Field>(f: &F, z: int, m: nat)
    requires
        1 <= m,
    ensures
        field_segs_upto(f, z, cells_w(f), m).len() >= row_segs_upto(f, z, 0, cells_w(f)).len(),
    decreases m,
{
    if m > 1 {
        lemma_field_segs_holds_first_row(f, z, (m - 1) as nat);
    } else {
        assert(field_segs_upto(f, z, cells_w(f), 0nat) == Seq::<Seg>::empty());
    }
}

/// A marched field that emits at least one segment yields at least one
/// contour.
pub proof fn lemma_crossings_give_contours<F: Field>(f: &F, z: int, cs: Seq<Vec<Pt>>)
    requires
        march_post(f, z, cs),
        field_segs(f, z).len() > 0,
    ensures
        cs.len() >= 1,
{
    if cs.len() == 0 {
        let views = contour_views(cs);
        assert(views.len() == 0);
        assert(contours_segs(views) == Seq::<Seg>::empty());
        assert(field_segs(f, z).to_multiset().len() == 0);
    }
}

/// A field with no sample above the threshold, wrapped so that its border
/// is driven just above it, always produces a contour: the forced border
/// ring. (The wrapped field's very first cell is configuration 13 and emits
/// a segment.)
pub proof fn lemma_framed_field_yields_contour<F: Field>(f: &F, z: i64, cs: Seq<Vec<Pt>>)
    requires
        3 <= f.spec_width(),
        3 <= f.spec_height(),
        z < i64::MAX,
        all_below(f, z as int),
        march_post(&(Framed { field: f, border_z: z }), z as int, cs),
    ensures
        cs.len() >= 1,
{
    let g = Framed { field: f, border_z: z };
    let zi = z as int;
    let w = f.spec_width();
    let h = f.spec_height();
    assert(g.spec_z(0, 0) == bump(z) && g.spec_z(1, 0) == bump(z) && g.spec_z(0, 1) == bump(z));
    assert(g.spec_z(1, 1) == f.spec_z(1, 1));
    assert(f.spec_z(1, 1) <= z);
    assert(bump(z) == z + 1);
    assert(cell_case(
        zi,
        g.spec_z(0, 0) as int,
        g.spec_z(1, 0) as int,
        g.spec_z(0, 1) as int,
        g.spec_z(1, 1) as int,
    ) == 13);
    assert(cell_segs_at(&g, zi, 0, 0).len() == 1);
    lemma_row_segs_holds_first(&g, zi, 0, cells_w(&g));
    lemma_field_segs_holds_first_row(&g, zi, cells_h(&g));
    assert(field_segs(&g, zi).len() >= 1);
    lemma_crossings_give_contours(&g, zi, cs);
}

/// A field entirely above or entirely below the threshold produces no
/// contours: every cell is configuration 0 or 15 and emits nothing.
pub proof fn lemma_uniform_field_no_contours<F: Field>(f: &F, z: int, cs: Seq<Vec<Pt>>)
    requires
        all_above(f, z) || all_below(f, z),
        march_post(f, z, cs),
    ensures
        cs.len() == 0,
{
    lemma_field_segs_uniform(f, z, cells_h(f));
    assert(field_segs(f, z).to_multiset().len() == 0);
    let views = contour_views(cs);
    if cs.len() > 0 {
        let n = views.len() as int;
        assert(views[n - 1].len() >= 2);
        lemma_chain_segs_len(views.last());
        assert(contours_segs(views) == contours_segs(views.drop_last()) + chain_segs(
            views.last(),
        ));
        assert(contours_segs(views).len() >= 1);
        assert(contours_segs(views).to_multiset().len() >= 1);
    }
}

} // verus!
