//! Isocontour extraction from sampled scalar fields.
//!
//! A scalar field is a grid of integer samples. `march` classifies every
//! 2-by-2 cell of the grid against a threshold, emits directed boundary
//! segments with fixed-point crossings interpolated along cell edges, and
//! stitches the segments into ordered contours. `simplify` then reduces a
//! contour with the Ramer-Douglas-Peucker pass.

pub mod cells;
pub mod geom;
pub mod index;
pub mod laws;
pub mod ring;
pub mod simplify;
pub mod svg;

use vstd::prelude::*;

use vstd::multiset::Multiset;

use crate::cells::{
    cell_case, cell_segs, cell_segs_at, cells_h, cells_w, field_segs, field_segs_upto, frac_spec,
    lemma_field_segs_zero_w, lemma_frac_spec_range, row_segs_upto, sg, top_pt, bottom_pt, left_pt,
    right_pt,
};
use crate::geom::{Pt, Seg, MAX_DIM, SCALE, pt_bounded, seg_bounded};
use crate::index::{SegmentIndex, has_boundary_start, key_of, key_on_border};

verus! {

broadcast use vstd::multiset::group_multiset_axioms, vstd::seq_lib::group_to_multiset_ensures;

/// A scalar field: a `width` by `height` grid of integer samples.
///
/// `spec_z` is the mathematical value of each sample; `z_at` must agree with
/// it on every in-bounds position and may only be queried in bounds.
pub trait Field {
    /// Width of the grid, in samples.
    spec fn spec_width(&self) -> int;

    /// Height of the grid, in samples.
    spec fn spec_height(&self) -> int;

    /// The sample value at `(x, y)`.
    spec fn spec_z(&self, x: int, y: int) -> i64;

    /// Get the width and height of the scalar field.
    fn dimensions(&self) -> (r: (usize, usize))
        ensures
            r.0 == self.spec_width(),
            r.1 == self.spec_height(),
    ;

    /// Calculate the z value at the given position. The position must be
    /// inside the range of `dimensions`.
    fn z_at(&self, x: usize, y: usize) -> (z: i64)
        requires
            x < self.spec_width(),
            y < self.spec_height(),
        ensures
            z == self.spec_z(x as int, y as int),
    ;

    /// Helper to force a field to have all the z values at its boundary
    /// driven just above `border_z`. Useful to ensure each path is closed.
    fn framed(&self, border_z: i64) -> (r: Framed<'_, Self>) where Self: Sized
        ensures
            r == (Framed { field: self, border_z }),
    {
        Framed { field: self, border_z }
    }
}

/// Contours of a shape.
pub type Contours = Vec<Vec<Pt>>;

/// One more than `b`, stopped at the top of the type's range.
pub open spec fn bump(b: i64) -> i64 {
    if b == i64::MAX {
        i64::MAX
    } else {
        (b + 1) as i64
    }
}

/// A decorator that overrides every sample on the outer ring of the grid
/// with a value strictly above `border_z` (one more; `border_z` would have
/// to sit at the very top of the sample range to defeat the override).
#[derive(Debug, Clone)]
pub struct Framed<'s, F> {
    pub field: &'s F,
    pub border_z: i64,
}

impl<'s, F: Field> Field for Framed<'s, F> {
    open spec fn spec_width(&self) -> int {
        self.field.spec_width()
    }

    open spec fn spec_height(&self) -> int {
        self.field.spec_height()
    }

    open spec fn spec_z(&self, x: int, y: int) -> i64 {
        if x == 0 || x + 1 == self.field.spec_width() || y == 0 || y + 1
            == self.field.spec_height() {
            bump(self.border_z)
        } else {
            self.field.spec_z(x, y)
        }
    }

    fn dimensions(&self) -> (r: (usize, usize)) {
        self.field.dimensions()
    }

    fn z_at(&self, x: usize, y: usize) -> (z: i64) {
        let (w, h) = self.dimensions();
        if x == 0 || x == w - 1 || y == 0 || y == h - 1 {
            if self.border_z == i64::MAX {
                i64::MAX
            } else {
                self.border_z + 1
            }
        } else {
            self.field.z_at(x, y)
        }
    }
}

/// A field backed by a row-major vector of samples.
pub struct GridField {
    width: usize,
    height: usize,
    data: Vec<i64>,
}

impl GridField {
    #[verifier::type_invariant]
    spec fn type_wf(self) -> bool {
        self.data@.len() == self.width * self.height
    }

    /// Wrap a row-major sample vector; `None` unless `data` holds exactly
    /// `width * height` samples.
    pub fn new(width: usize, height: usize, data: Vec<i64>) -> (r: Option<GridField>)
        ensures
            match r {
                Some(g) => {
                    &&& g.spec_width() == width
                    &&& g.spec_height() == height
                    &&& width * height == data@.len()
                    &&& forall|x: int, y: int|
                        0 <= x < width && 0 <= y < height ==> g.spec_z(x, y) == data@[y * width
                            + x]
                },
                None => width * height != data@.len(),
            },
    {
        let dl = data.len();
        match width.checked_mul(height) {
            Some(n) => {
                if n == dl {
                    Some(GridField { width, height, data })
                } else {
                    None
                }
            },
            None => None,
        }
    }
}

impl Field for GridField {
    closed spec fn spec_width(&self) -> int {
        self.width as int
    }

    closed spec fn spec_height(&self) -> int {
        self.height as int
    }

    closed spec fn spec_z(&self, x: int, y: int) -> i64 {
        self.data@[y * self.width + x]
    }

    fn dimensions(&self) -> (r: (usize, usize)) {
        (self.width, self.height)
    }

    fn z_at(&self, x: usize, y: usize) -> (z: i64) {
        let n = self.data.len();
        proof {
            use_type_invariant(self);
            assert(y * self.width + x < self.width * self.height) by (nonlinear_arith)
                requires
                    x < self.width,
                    y < self.height,
            ;
            assert(self.width * self.height == n);
        }
        self.data[y * self.width + x]
    }
}

/// Fixed-point fraction of the way along an edge with sample values
/// `zs.0` and `zs.1` at which the isoline of height `z` crosses, clamped to
/// `[0, SCALE]`, and `SCALE / 2` on a level edge.
pub fn fraction(z: i64, zs: (i64, i64)) -> (r: u64)
    ensures
        r == frac_spec(z as int, zs.0 as int, zs.1 as int),
        0 <= r <= SCALE,
{
    let (z0, z1) = zs;
    proof {
        lemma_frac_spec_range(z as int, z0 as int, z1 as int);
    }
    if z0 == z1 {
        return SCALE / 2;
    }
    let (num, den): (i128, i128) = if z0 < z1 {
        if z <= z0 {
            return 0;
        }
        if z >= z1 {
            return SCALE;
        }
        (z as i128 - z0 as i128, z1 as i128 - z0 as i128)
    } else {
        if z >= z0 {
            return 0;
        }
        if z <= z1 {
            return SCALE;
        }
        (z0 as i128 - z as i128, z0 as i128 - z1 as i128)
    };
    let t = (num as u128 * SCALE as u128) / (den as u128);
    t as u64
}

/// The directed segments joining consecutive points of a contour.
pub open spec fn chain_segs(c: Seq<Pt>) -> Seq<Seg>
    decreases c.len(),
{
    if c.len() < 2 {
        Seq::empty()
    } else {
        chain_segs(c.drop_last()).push(Seg { start: c[c.len() - 2], end: c[c.len() - 1] })
    }
}

/// The contours as mathematical sequences of points.
pub open spec fn contour_views(cs: Seq<Vec<Pt>>) -> Seq<Seq<Pt>> {
    cs.map_values(|c: Vec<Pt>| c@)
}

/// All chain segments of a list of contours, in order.
pub open spec fn contours_segs(cs: Seq<Seq<Pt>>) -> Seq<Seg>
    decreases cs.len(),
{
    if cs.len() == 0 {
        Seq::empty()
    } else {
        contours_segs(cs.drop_last()) + chain_segs(cs.last())
    }
}

/// The segments consumed by the first `n` contours.
pub open spec fn consumed_upto(cs: Seq<Seq<Pt>>, n: int) -> Multiset<Seg> {
    contours_segs(cs.take(n)).to_multiset()
}

/// No pending segment starts at `p`.
pub open spec fn no_start_at(m: Multiset<Seg>, p: Pt) -> bool {
    forall|s: Seg| m.count(s) > 0 ==> s.start != p
}

/// How the stitcher walked: every contour has at least two points and
/// bounded coordinates; when a contour was finished no segment that was
/// still pending continued from its last point; and each contour started on
/// an image border whenever a pending segment still started on one.
pub open spec fn stitch_steps(total: Multiset<Seg>, w: u64, h: u64, cs: Seq<Seq<Pt>>) -> bool {
    &&& (forall|i: int| 0 <= i < cs.len() ==> (#[trigger] cs[i]).len() >= 2)
    &&& (forall|i: int, j: int|
        0 <= i < cs.len() && 0 <= j < cs[i].len() ==> pt_bounded(#[trigger] cs[i][j]))
    &&& (forall|i: int|
        0 <= i < cs.len() ==> no_start_at(
            total.sub(#[trigger] consumed_upto(cs, i + 1)),
            cs[i].last(),
        ))
    &&& (forall|i: int|
        0 <= i < cs.len() && has_boundary_start(
            total.sub(#[trigger] consumed_upto(cs, i)),
            w,
            h,
        ) ==> key_on_border(key_of(cs[i][0]), w, h))
}

/// What stitching an index with pending segments `total` returns: contours
/// that walk as `stitch_steps` says and consume every pending segment
/// exactly once.
pub open spec fn stitch_post(total: Multiset<Seg>, w: u64, h: u64, cs: Seq<Seq<Pt>>) -> bool {
    &&& stitch_steps(total, w, h, cs)
    &&& contours_segs(cs).to_multiset() == total
}

proof fn lemma_chain_push(c: Seq<Pt>, p: Pt)
    requires
        c.len() >= 1,
    ensures
        chain_segs(c.push(p)) == chain_segs(c).push(Seg { start: c.last(), end: p }),
{
    assert(c.push(p).drop_last() =~= c);
}

proof fn lemma_chain_pair(a: Pt, b: Pt)
    ensures
        chain_segs(seq![a, b]) == seq![Seg { start: a, end: b }],
{
    let c = seq![a, b];
    assert(c.drop_last() =~= seq![a]);
    assert(seq![a].drop_last() =~= Seq::<Pt>::empty());
    assert(chain_segs(seq![a]) =~= Seq::<Seg>::empty());
    assert(chain_segs(c) =~= seq![Seg { start: a, end: b }]);
}

proof fn lemma_contours_push(cs: Seq<Seq<Pt>>, c: Seq<Pt>)
    ensures
        contours_segs(cs.push(c)) == contours_segs(cs) + chain_segs(c),
{
    assert(cs.push(c).drop_last() =~= cs);
}

/// Stitch the pending segments into contours: start a chain (preferring a
/// boundary start), extend it while some pending segment continues from its
/// last point, and repeat until the index is empty.
pub(crate) fn build_contours(index: SegmentIndex) -> (r: Vec<Vec<Pt>>)
    requires
        index.wf(),
    ensures
        stitch_post(index.contents(), index.width(), index.height(), contour_views(r@)),
{
    let ghost total = index.contents();
    let ghost w = index.width();
    let ghost h = index.height();
    let mut index = index;
    let mut contours: Vec<Vec<Pt>> = Vec::new();
    proof {
        assert(contour_views(contours@) =~= Seq::<Seq<Pt>>::empty());
        assert(contours_segs(contour_views(contours@)).to_multiset() =~= Multiset::<
            Seg,
        >::empty());
    }
    loop
        invariant
            index.wf(),
            index.width() == w,
            index.height() == h,
            total == index.contents().add(contours_segs(contour_views(contours@)).to_multiset()),
            stitch_steps(total, w, h, contour_views(contours@)),
        ensures
            index.contents().len() == 0,
            total == index.contents().add(contours_segs(contour_views(contours@)).to_multiset()),
            stitch_steps(total, w, h, contour_views(contours@)),
        decreases index.contents().len(),
    {
        let ghost pre = index.contents();
        let ghost old_views = contour_views(contours@);
        proof {
            assert(pre =~= total.sub(consumed_upto(old_views, old_views.len() as int))) by {
                assert(old_views.take(old_views.len() as int) =~= old_views);
            }
        }
        match index.pick_start() {
            None => {
                break ;
            },
            Some(first) => {
                let mut contour: Vec<Pt> = Vec::new();
                contour.push(first.start);
                contour.push(first.end);
                proof {
                    lemma_chain_pair(first.start, first.end);
                    assert(contour@ =~= seq![first.start, first.end]);
                    assert(chain_segs(contour@).to_multiset() =~= Multiset::<
                        Seg,
                    >::empty().insert(first)) by {
                        assert(chain_segs(contour@) =~= Seq::<Seg>::empty().push(first));
                        assert(Seq::<Seg>::empty().to_multiset().len() == 0);
                        assert(Seq::<Seg>::empty().to_multiset() =~= Multiset::<Seg>::empty());
                    }
                    assert(total =~= index.contents().add(
                        contours_segs(old_views).to_multiset(),
                    ).add(chain_segs(contour@).to_multiset()));
                }
                loop
                    invariant
                        index.wf(),
                        index.width() == w,
                        index.height() == h,
                        contour@.len() >= 2,
                        contour@[0] == first.start,
                        forall|m: int| 0 <= m < contour@.len() ==> pt_bounded(#[trigger] contour@[m]),
                        contour_views(contours@) == old_views,
                        total == index.contents().add(contours_segs(old_views).to_multiset()).add(
                            chain_segs(contour@).to_multiset(),
                        ),
                        stitch_steps(total, w, h, old_views),
                        pre == total.sub(consumed_upto(old_views, old_views.len() as int)),
                        has_boundary_start(pre, w, h) ==> key_on_border(
                            key_of(first.start),
                            w,
                            h,
                        ),
                    ensures
                        index.wf(),
                        index.width() == w,
                        index.height() == h,
                        contour@.len() >= 2,
                        contour@[0] == first.start,
                        forall|m: int| 0 <= m < contour@.len() ==> pt_bounded(#[trigger] contour@[m]),
                        contour_views(contours@) == old_views,
                        total == index.contents().add(contours_segs(old_views).to_multiset()).add(
                            chain_segs(contour@).to_multiset(),
                        ),
                        no_start_at(index.contents(), contour@.last()),
                    decreases index.contents().len(),
                {
                    let prev = contour[contour.len() - 1];
                    let ghost chain_before = contour@;
                    match index.take_matching(prev) {
                        None => {
                            break ;
                        },
                        Some(seg2) => {
                            contour.push(seg2.end);
                            proof {
                                lemma_chain_push(chain_before, seg2.end);
                                assert(Seg { start: chain_before.last(), end: seg2.end } == seg2);
                                assert(total =~= index.contents().add(
                                    contours_segs(old_views).to_multiset(),
                                ).add(chain_segs(contour@).to_multiset()));
                            }
                        },
                    }
                }
                contours.push(contour);
                proof {
                    let views = contour_views(contours@);
                    let n = old_views.len() as int;
                    assert(views =~= old_views.push(contour@));
                    lemma_contours_push(old_views, contour@);
                    vstd::seq_lib::lemma_multiset_commutative(
                        contours_segs(old_views),
                        chain_segs(contour@),
                    );
                    assert(total =~= index.contents().add(
                        contours_segs(views).to_multiset(),
                    ));
                    assert forall|i: int| 0 <= i <= n implies #[trigger] consumed_upto(views, i)
                        == consumed_upto(old_views, i) by {
                        assert(views.take(i) =~= old_views.take(i));
                    }
                    assert(consumed_upto(views, n + 1) == contours_segs(views).to_multiset()) by {
                        assert(views.take(n + 1) =~= views);
                    }
                    assert(total.sub(consumed_upto(views, n + 1)) =~= index.contents());
                    assert(total.sub(consumed_upto(views, n)) =~= pre);
                    assert(stitch_steps(total, w, h, views)) by {
                        assert(forall|i: int| 0 <= i < n ==> views[i] == old_views[i]);
                        assert(views[n] == contour@);
                    }
                }
            },
        }
    }
    proof {
        assert(index.contents() =~= Multiset::<Seg>::empty());
        assert(contours_segs(contour_views(contours@)).to_multiset() =~= total);
    }
    contours
}

proof fn lemma_ms_add_one(m: Multiset<Seg>, s: Seg)
    ensures
        m.insert(s) == m.add(seq![s].to_multiset()),
{
    assert(seq![s] =~= Seq::<Seg>::empty().push(s));
    assert(Seq::<Seg>::empty().to_multiset().len() == 0);
    assert(Seq::<Seg>::empty().to_multiset() =~= Multiset::<Seg>::empty());
    assert(m.insert(s) =~= m.add(seq![s].to_multiset()));
}

proof fn lemma_ms_add_two(m: Multiset<Seg>, s1: Seg, s2: Seg)
    ensures
        m.insert(s1).insert(s2) == m.add(seq![s1, s2].to_multiset()),
{
    assert(seq![s1, s2] =~= Seq::<Seg>::empty().push(s1).push(s2));
    assert(Seq::<Seg>::empty().to_multiset().len() == 0);
    assert(Seq::<Seg>::empty().to_multiset() =~= Multiset::<Seg>::empty());
    assert(m.insert(s1).insert(s2) =~= m.add(seq![s1, s2].to_multiset()));
}

/// Classify one cell against the threshold and file the segments it emits.
/// `ulz`, `urz`, `blz`, `brz` are the samples at the cell's four corners.
fn emit_cell(
    index: &mut SegmentIndex,
    z: i64,
    x: usize,
    y: usize,
    ulz: i64,
    urz: i64,
    blz: i64,
    brz: i64,
)
    requires
        old(index).wf(),
        x + 2 <= MAX_DIM,
        y + 2 <= MAX_DIM,
    ensures
        final(index).wf(),
        final(index).width() == old(index).width(),
        final(index).height() == old(index).height(),
        final(index).contents() == old(index).contents().add(
            cell_segs(
                z as int,
                ulz as int,
                urz as int,
                blz as int,
                brz as int,
                x as int,
                y as int,
            ).to_multiset(),
        ),
{
    let xs = (x as u64) * SCALE;
    let ys = (y as u64) * SCALE;
    let top = Pt { x: xs + fraction(z, (ulz, urz)), y: ys };
    let bottom = Pt { x: xs + fraction(z, (blz, brz)), y: ys + SCALE };
    let left = Pt { x: xs, y: ys + fraction(z, (ulz, blz)) };
    let right = Pt { x: xs + SCALE, y: ys + fraction(z, (urz, brz)) };

    let mut case: u8 = 0;
    if blz > z {
        case = case + 1;
    }
    if brz > z {
        case = case + 2;
    }
    if urz > z {
        case = case + 4;
    }
    if ulz > z {
        case = case + 8;
    }

    let ghost zi = z as int;
    let ghost ul = ulz as int;
    let ghost ur = urz as int;
    let ghost bl = blz as int;
    let ghost br = brz as int;
    let ghost segs = cell_segs(zi, ul, ur, bl, br, x as int, y as int);
    proof {
        assert(case as int == cell_case(zi, ul, ur, bl, br));
        assert(top == top_pt(zi, ul, ur, x as int, y as int));
        assert(bottom == bottom_pt(zi, bl, br, x as int, y as int));
        assert(left == left_pt(zi, ul, bl, x as int, y as int));
        assert(right == right_pt(zi, ur, br, x as int, y as int));
        assert(pt_bounded(top) && pt_bounded(bottom) && pt_bounded(left) && pt_bounded(right));
    }

    match case {
        1 => {
            index.add(Seg { start: bottom, end: left });
            proof {
                lemma_ms_add_one(old(index).contents(), sg(bottom, left));
            }
        },
        2 => {
            index.add(Seg { start: right, end: bottom });
            proof {
                lemma_ms_add_one(old(index).contents(), sg(right, bottom));
            }
        },
        3 => {
            index.add(Seg { start: right, end: left });
            proof {
                lemma_ms_add_one(old(index).contents(), sg(right, left));
            }
        },
        4 => {
            index.add(Seg { start: top, end: right });
            proof {
                lemma_ms_add_one(old(index).contents(), sg(top, right));
            }
        },
        5 => {
            index.add(Seg { start: top, end: left });
            index.add(Seg { start: bottom, end: right });
            proof {
                lemma_ms_add_two(old(index).contents(), sg(top, left), sg(bottom, right));
            }
        },
        6 => {
            index.add(Seg { start: top, end: bottom });
            proof {
                lemma_ms_add_one(old(index).contents(), sg(top, bottom));
            }
        },
        7 => {
            index.add(Seg { start: top, end: left });
            proof {
                lemma_ms_add_one(old(index).contents(), sg(top, left));
            }
        },
        8 => {
            index.add(Seg { start: left, end: top });
            proof {
                lemma_ms_add_one(old(index).contents(), sg(left, top));
            }
        },
        9 => {
            index.add(Seg { start: bottom, end: top });
            proof {
                lemma_ms_add_one(old(index).contents(), sg(bottom, top));
            }
        },
        10 => {
            index.add(Seg { start: left, end: bottom });
            index.add(Seg { start: right, end: top });
            proof {
                lemma_ms_add_two(old(index).contents(), sg(left, bottom), sg(right, top));
            }
        },
        11 => {
            index.add(Seg { start: right, end: top });
            proof {
                lemma_ms_add_one(old(index).contents(), sg(right, top));
            }
        },
        12 => {
            index.add(Seg { start: left, end: right });
            proof {
                lemma_ms_add_one(old(index).contents(), sg(left, right));
            }
        },
        13 => {
            index.add(Seg { start: bottom, end: right });
            proof {
                lemma_ms_add_one(old(index).contents(), sg(bottom, right));
            }
        },
        14 => {
            index.add(Seg { start: left, end: bottom });
            proof {
                lemma_ms_add_one(old(index).contents(), sg(left, bottom));
            }
        },
        _ => {
            proof {
                assert(case == 0 || case == 15);
                assert(segs =~= Seq::<Seg>::empty());
                assert(Seq::<Seg>::empty().to_multiset().len() == 0);
                assert(Seq::<Seg>::empty().to_multiset() =~= Multiset::<Seg>::empty());
                assert(old(index).contents().add(segs.to_multiset()) =~= old(index).contents());
            }
        },
    }
}

/// What `march` returns for field `f` and threshold `z`: the contours
/// consume the cell-emitted segment soup exactly, walking as the stitcher
/// does.
pub open spec fn march_post<F: Field>(f: &F, z: int, cs: Seq<Vec<Pt>>) -> bool {
    stitch_post(
        field_segs(f, z).to_multiset(),
        f.spec_width() as u64,
        f.spec_height() as u64,
        contour_views(cs),
    )
}

/// Every contour that `march` returns fits the simplifier's coordinate
/// bound, so the two passes can be chained.
pub proof fn lemma_march_contour_bounded<F: Field>(f: &F, z: int, cs: Seq<Vec<Pt>>, i: int)
    requires
        march_post(f, z, cs),
        0 <= i < cs.len(),
    ensures
        crate::simplify::poly_bounded(cs[i]@),
{
    let views = contour_views(cs);
    assert(views[i] == cs[i]@);
    assert forall|j: int| 0 <= j < cs[i]@.len() implies pt_bounded(#[trigger] cs[i]@[j]) by {
        assert(pt_bounded(views[i][j]));
    }
}

/// Find the contours of a given scalar field using `z` as the threshold
/// value.
pub fn march<F: Field>(field: &F, z: i64) -> (r: Contours)
    requires
        field.spec_width() <= MAX_DIM,
        field.spec_height() <= MAX_DIM,
    ensures
        march_post(field, z as int, r@),
{
    let (width, height) = field.dimensions();
    let ghost zi = z as int;
    if width < 2 || height < 2 {
        let index = SegmentIndex::new(width as u64, height as u64);
        proof {
            if width < 2 {
                lemma_field_segs_zero_w(field, zi, cells_h(field));
                assert(cells_w(field) == 0);
            }
            assert(field_segs(field, zi) == Seq::<Seg>::empty());
            assert(Seq::<Seg>::empty().to_multiset().len() == 0);
            assert(field_segs(field, zi).to_multiset() =~= Multiset::<Seg>::empty());
        }
        return build_contours(index);
    }
    let ghost wm1 = (width - 1) as nat;

    // cache the samples of the current row, and fill the next row's cache as
    // soon as each sample is read, so each sample is queried at most once
    let mut current: Vec<i64> = Vec::new();
    let mut xi: usize = 0;
    while xi < width
        invariant
            width == field.spec_width(),
            height >= 1,
            height == field.spec_height(),
            xi <= width,
            current@.len() == xi,
            forall|m: int| 0 <= m < xi ==> current@[m] == field.spec_z(m, 0),
        decreases width - xi,
    {
        current.push(field.z_at(xi, 0));
        xi = xi + 1;
    }

    let mut index = SegmentIndex::new(width as u64, height as u64);
    let mut y: usize = 0;
    while y < height - 1
        invariant
            2 <= width <= MAX_DIM,
            2 <= height <= MAX_DIM,
            width == field.spec_width(),
            height == field.spec_height(),
            y <= height - 1,
            index.wf(),
            index.width() == width as u64,
            index.height() == height as u64,
            current@.len() == width,
            forall|m: int| 0 <= m < width ==> current@[m] == field.spec_z(m, y as int),
            index.contents() == field_segs_upto(field, zi, wm1, y as nat).to_multiset(),
            wm1 == (width - 1) as nat,
            zi == z as int,
        decreases height - 1 - y,
    {
        let mut next: Vec<i64> = Vec::new();
        next.push(field.z_at(0, y + 1));
        let mut x: usize = 0;
        while x < width - 1
            invariant
                2 <= width <= MAX_DIM,
                2 <= height <= MAX_DIM,
                width == field.spec_width(),
                height == field.spec_height(),
                y < height - 1,
                x <= width - 1,
                index.wf(),
                index.width() == width as u64,
                index.height() == height as u64,
                current@.len() == width,
                forall|m: int| 0 <= m < width ==> current@[m] == field.spec_z(m, y as int),
                next@.len() == x + 1,
                forall|m: int| 0 <= m <= x ==> next@[m] == field.spec_z(m, y + 1),
                index.contents() == (field_segs_upto(field, zi, wm1, y as nat) + row_segs_upto(
                    field,
                    zi,
                    y as int,
                    x as nat,
                )).to_multiset(),
                wm1 == (width - 1) as nat,
                zi == z as int,
            decreases width - 1 - x,
        {
            let ulz = current[x];
            let urz = current[x + 1];
            let blz = next[x];
            let brz = field.z_at(x + 1, y + 1);
            next.push(brz);
            let ghost pre_rows = field_segs_upto(field, zi, wm1, y as nat);
            let ghost pre_row = row_segs_upto(field, zi, y as int, x as nat);
            emit_cell(&mut index, z, x, y, ulz, urz, blz, brz);
            proof {
                let cell = cell_segs_at(field, zi, x as int, y as int);
                assert(cell == cell_segs(
                    zi,
                    ulz as int,
                    urz as int,
                    blz as int,
                    brz as int,
                    x as int,
                    y as int,
                ));
                assert(row_segs_upto(field, zi, y as int, (x + 1) as nat) == pre_row + cell);
                vstd::seq_lib::lemma_multiset_commutative(pre_rows, pre_row);
                vstd::seq_lib::lemma_multiset_commutative(pre_rows, pre_row + cell);
                vstd::seq_lib::lemma_multiset_commutative(pre_row, cell);
                assert((pre_rows + (pre_row + cell)).to_multiset() =~= (pre_rows
                    + pre_row).to_multiset().add(cell.to_multiset()));
            }
            x = x + 1;
        }
        proof {
            let full_row = row_segs_upto(field, zi, y as int, wm1);
            assert(field_segs_upto(field, zi, wm1, (y + 1) as nat) == field_segs_upto(
                field,
                zi,
                wm1,
                y as nat,
            ) + full_row);
            vstd::seq_lib::lemma_multiset_commutative(
                field_segs_upto(field, zi, wm1, y as nat),
                full_row,
            );
        }
        current = next;
        y = y + 1;
    }
    proof {
        assert(cells_w(field) == wm1);
        assert(cells_h(field) == (height - 1) as nat);
        assert(index.contents() == field_segs(field, zi).to_multiset());
    }
    build_contours(index)
}

} // verus!
