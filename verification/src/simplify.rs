//! Polyline simplification: the Ramer-Douglas-Peucker reduction, with the
//! closing point of a closed polyline detached before the reduction and
//! re-appended after it.
//!
//! All distance comparisons are exact: the perpendicular distance of `p`
//! from the line through `s` and `e` is `|cross(s, e, p)| / |e - s|`, and
//! both the farthest-point scan and the epsilon test compare such distances
//! without computing them, by cross-multiplying squares.

use vstd::prelude::*;

use crate::geom::{Pt, MAX_COORD, cross, dev_exceeds, dev_num, pt_bounded};

verus! {

/// Distance numerator of the `k`-th point of `s` from the line through the
/// first and last points of `s`.
pub open spec fn dev_at(s: Seq<Pt>, k: int) -> int {
    dev_num(s[0], s[s.len() - 1], s[k])
}

/// The farthest-point scan from index `i` on, with `best` the index of the
/// first maximum among the interior points before `i`: the index of the
/// first interior point at maximal distance from the chord.
pub open spec fn far_from(s: Seq<Pt>, i: int, best: int) -> int
    decreases s.len() - i,
{
    if i >= s.len() - 1 {
        best
    } else if dev_at(s, i) > dev_at(s, best) {
        far_from(s, i + 1, i)
    } else {
        far_from(s, i + 1, best)
    }
}

/// The index of the first interior point of `s` at maximal distance from
/// the chord of `s` (meaningful for `s.len() >= 3`).
pub open spec fn farthest(s: Seq<Pt>) -> int {
    far_from(s, 2, 1)
}

pub proof fn lemma_far_from_bounds(s: Seq<Pt>, i: int, best: int)
    requires
        s.len() >= 3,
        1 <= best <= s.len() - 2,
        2 <= i,
    ensures
        1 <= far_from(s, i, best) <= s.len() - 2,
    decreases s.len() - i,
{
    if i < s.len() - 1 {
        if dev_at(s, i) > dev_at(s, best) {
            lemma_far_from_bounds(s, i + 1, i);
        } else {
            lemma_far_from_bounds(s, i + 1, best);
        }
    }
}

pub proof fn lemma_farthest_bounds(s: Seq<Pt>)
    requires
        s.len() >= 3,
    ensures
        1 <= farthest(s) <= s.len() - 2,
{
    lemma_far_from_bounds(s, 2, 1);
}

/// What the scan returns: the first index among the interior points whose
/// distance from the chord is maximal.
pub proof fn lemma_far_from_first_max(s: Seq<Pt>, i: int, best: int)
    requires
        s.len() >= 3,
        1 <= best < i,
        2 <= i,
        forall|k: int| 1 <= k < i ==> dev_at(s, k) <= dev_at(s, best),
        forall|k: int| 1 <= k < best ==> dev_at(s, k) < dev_at(s, best),
    ensures
        ({
            let m = far_from(s, i, best);
            &&& forall|k: int| 1 <= k < s.len() - 1 ==> dev_at(s, k) <= dev_at(s, m)
            &&& forall|k: int| 1 <= k < m ==> dev_at(s, k) < dev_at(s, m)
        }),
    decreases s.len() - i,
{
    if i < s.len() - 1 {
        if dev_at(s, i) > dev_at(s, best) {
            lemma_far_from_first_max(s, i + 1, i);
        } else {
            lemma_far_from_first_max(s, i + 1, best);
        }
    }
}

/// The Ramer-Douglas-Peucker reduction of an open polyline: when the
/// farthest interior point from the chord is within `eps`, the whole
/// stretch collapses to its two endpoints; otherwise split there, reduce
/// both halves, and join them dropping the duplicated split point. A
/// stretch whose endpoints coincide has no usable chord and collapses.
pub open spec fn spec_rdp(poly: Seq<Pt>, eps: int) -> Seq<Pt>
    decreases poly.len(), 0int,
    via spec_rdp_dec
{
    if poly.len() < 3 {
        poly
    } else {
        let m = farthest(poly);
        if dev_exceeds(poly[0], poly[poly.len() - 1], poly[m], eps) {
            spec_rdp(poly.take(m + 1), eps).drop_last() + spec_simplify(poly.skip(m), eps)
        } else {
            seq![poly[0], poly[poly.len() - 1]]
        }
    }
}

#[via_fn]
proof fn spec_rdp_dec(poly: Seq<Pt>, eps: int) {
    if poly.len() >= 3 {
        lemma_farthest_bounds(poly);
    }
}

/// The reduction of a polyline: a closed polyline (first point equal to
/// last) has its closing point detached, the open remainder reduced, and
/// the closing point re-appended; an open polyline is reduced directly.
pub open spec fn spec_simplify(poly: Seq<Pt>, eps: int) -> Seq<Pt>
    decreases poly.len(), 1int,
{
    if poly.len() > 0 && poly[0] == poly[poly.len() - 1] {
        spec_rdp(poly.drop_last(), eps).push(poly[poly.len() - 1])
    } else {
        spec_rdp(poly, eps)
    }
}

/// The reduction keeps both endpoints, and at least two points stay of any
/// polyline with at least two.
pub proof fn lemma_rdp_endpoints(poly: Seq<Pt>, eps: int)
    requires
        poly.len() >= 1,
    ensures
        spec_rdp(poly, eps).len() >= 1,
        poly.len() >= 2 ==> spec_rdp(poly, eps).len() >= 2,
        spec_rdp(poly, eps)[0] == poly[0],
        spec_rdp(poly, eps).last() == poly.last(),
    decreases poly.len(), 0int,
{
    if poly.len() >= 3 {
        let m = farthest(poly);
        lemma_farthest_bounds(poly);
        if dev_exceeds(poly[0], poly[poly.len() - 1], poly[m], eps) {
            let fh = poly.take(m + 1);
            let sh = poly.skip(m);
            lemma_rdp_endpoints(fh, eps);
            lemma_simplify_endpoints(sh, eps);
            let a = spec_rdp(fh, eps);
            let b = spec_simplify(sh, eps);
            assert(a.drop_last()[0] == a[0]);
            assert((a.drop_last() + b).last() == b.last());
        }
    }
}

pub proof fn lemma_simplify_endpoints(poly: Seq<Pt>, eps: int)
    requires
        poly.len() >= 1,
    ensures
        spec_simplify(poly, eps).len() >= 1,
        poly.len() >= 2 ==> spec_simplify(poly, eps).len() >= 2,
        spec_simplify(poly, eps)[0] == poly[0],
        spec_simplify(poly, eps).last() == poly.last(),
    decreases poly.len(), 1int,
{
    if poly[0] == poly[poly.len() - 1] {
        if poly.len() >= 2 {
            lemma_rdp_endpoints(poly.drop_last(), eps);
        }
    } else {
        lemma_rdp_endpoints(poly, eps);
    }
}

/// Where the scan lands when one index dominates: strictly above everything
/// before it and at least as far as everything after it.
proof fn lemma_far_from_pinpoint(q: Seq<Pt>, j: int, i: int, best: int)
    requires
        q.len() >= 3,
        1 <= j <= q.len() - 2,
        forall|k: int| 1 <= k < j ==> dev_at(q, k) < dev_at(q, j),
        forall|k: int| j < k < q.len() - 1 ==> dev_at(q, k) <= dev_at(q, j),
        2 <= i,
        1 <= best,
        if i <= j {
            best < j && best < i && (forall|k: int| 1 <= k < i ==> dev_at(q, k) <= dev_at(q, best))
        } else {
            best == j
        },
    ensures
        far_from(q, i, best) == j,
    decreases q.len() - i,
{
    if i >= q.len() - 1 {
        assert(i > j);
    } else {
        if i <= j {
            if i == j {
                assert(dev_at(q, best) < dev_at(q, j));
                lemma_far_from_pinpoint(q, j, i + 1, i);
            } else {
                if dev_at(q, i) > dev_at(q, best) {
                    lemma_far_from_pinpoint(q, j, i + 1, i);
                } else {
                    lemma_far_from_pinpoint(q, j, i + 1, best);
                }
            }
        } else {
            assert(dev_at(q, i) <= dev_at(q, j));
            lemma_far_from_pinpoint(q, j, i + 1, best);
        }
    }
}

/// Every interior point of the reduction of `p` is an interior point of
/// `p`.
proof fn lemma_rdp_interior(p: Seq<Pt>, eps: int)
    ensures
        forall|t: int|
            #![trigger spec_rdp(p, eps)[t]]
            1 <= t <= spec_rdp(p, eps).len() - 2 ==> exists|i: int|
                1 <= i <= p.len() - 2 && spec_rdp(p, eps)[t] == p[i],
    decreases p.len(), 0int,
{
    let r = spec_rdp(p, eps);
    if p.len() < 3 {
        assert forall|t: int| #![trigger r[t]] 1 <= t <= r.len() - 2 implies exists|i: int|
            1 <= i <= p.len() - 2 && r[t] == p[i] by {
            assert(r[t] == p[t]);
        }
    } else {
        let m = farthest(p);
        lemma_farthest_bounds(p);
        if dev_exceeds(p[0], p[p.len() - 1], p[m], eps) {
            let fh = p.take(m + 1);
            let sh = p.skip(m);
            let a = spec_rdp(fh, eps);
            let b = spec_simplify(sh, eps);
            lemma_rdp_endpoints(fh, eps);
            lemma_simplify_endpoints(sh, eps);
            lemma_rdp_interior(fh, eps);
            lemma_simplify_interior(sh, eps);
            let j = a.len() - 1;
            assert forall|t: int| #![trigger r[t]] 1 <= t <= r.len() - 2 implies exists|i: int|
                1 <= i <= p.len() - 2 && r[t] == p[i] by {
                if t < j {
                    assert(r[t] == a[t]);
                    let i = choose|i: int| 1 <= i <= fh.len() - 2 && a[t] == fh[i];
                    assert(fh[i] == p[i]);
                    assert(1 <= i <= p.len() - 2 && r[t] == p[i]);
                } else if t == j {
                    assert(r[t] == b[0]);
                    assert(b[0] == sh[0]);
                    assert(sh[0] == p[m]);
                    assert(1 <= m <= p.len() - 2 && r[t] == p[m]);
                } else {
                    assert(r[t] == b[t - j]);
                    assert(1 <= t - j <= b.len() - 2);
                    let i = choose|i: int| 1 <= i <= sh.len() - 2 && b[t - j] == sh[i];
                    assert(sh[i] == p[m + i]);
                    assert(1 <= m + i <= p.len() - 2 && r[t] == p[m + i]);
                }
            }
        }
    }
}

/// Every interior point of the simplification of `p` is an interior point
/// of `p`.
proof fn lemma_simplify_interior(p: Seq<Pt>, eps: int)
    ensures
        forall|t: int|
            #![trigger spec_simplify(p, eps)[t]]
            1 <= t <= spec_simplify(p, eps).len() - 2 ==> exists|i: int|
                1 <= i <= p.len() - 2 && spec_simplify(p, eps)[t] == p[i],
    decreases p.len(), 1int,
{
    let r = spec_simplify(p, eps);
    if p.len() > 0 && p[0] == p[p.len() - 1] {
        let d = p.drop_last();
        let q = spec_rdp(d, eps);
        lemma_rdp_interior(d, eps);
        if d.len() >= 1 {
            lemma_rdp_endpoints(d, eps);
        }
        assert forall|t: int| #![trigger r[t]] 1 <= t <= r.len() - 2 implies exists|i: int|
            1 <= i <= p.len() - 2 && r[t] == p[i] by {
            assert(r[t] == q[t]);
            if t <= q.len() - 2 {
                let i = choose|i: int| 1 <= i <= d.len() - 2 && q[t] == d[i];
                assert(d[i] == p[i]);
                assert(1 <= i <= p.len() - 2 && r[t] == p[i]);
            } else {
                // the last point of the reduced open part
                assert(t == q.len() - 1);
                assert(q.len() >= 2);
                assert(d.len() >= 2) by {
                    if d.len() < 3 {
                        assert(q == d);
                    }
                }
                assert(q[t] == d[d.len() - 1]);
                assert(d[d.len() - 1] == p[p.len() - 2]);
                assert(1 <= p.len() - 2 && r[t] == p[p.len() - 2]);
            }
        }
    } else {
        lemma_rdp_interior(p, eps);
        assert forall|t: int| #![trigger r[t]] 1 <= t <= r.len() - 2 implies exists|i: int|
            1 <= i <= p.len() - 2 && r[t] == p[i] by {
            assert(r[t] == spec_rdp(p, eps)[t]);
        }
    }
}

/// The open-path reduction is idempotent: reducing a reduced polyline
/// changes nothing, at any tolerance. The second pass sees the same chord,
/// finds the first pass's split point again (everything kept before it lies
/// strictly closer to the chord, everything after at most as far), and
/// recurses into the same halves.
pub proof fn lemma_rdp_idempotent(p: Seq<Pt>, eps: int)
    ensures
        spec_rdp(spec_rdp(p, eps), eps) == spec_rdp(p, eps),
    decreases p.len(), 0int,
{
    let r = spec_rdp(p, eps);
    if p.len() < 3 {
        assert(spec_rdp(r, eps) == r);
    } else {
        let n = p.len() as int;
        let m = farthest(p);
        lemma_farthest_bounds(p);
        if !dev_exceeds(p[0], p[n - 1], p[m], eps) {
            assert(r == seq![p[0], p[n - 1]]);
            assert(spec_rdp(r, eps) == r);
        } else {
            let fh = p.take(m + 1);
            let sh = p.skip(m);
            let a = spec_rdp(fh, eps);
            let b = spec_simplify(sh, eps);
            lemma_rdp_endpoints(fh, eps);
            lemma_simplify_endpoints(sh, eps);
            let j = a.len() - 1;
            assert(r == a.drop_last() + b);
            assert(a.last() == fh.last() && fh.last() == p[m]);
            assert(b[0] == sh[0] && sh[0] == p[m]);
            assert(b.last() == sh.last() && sh.last() == p[n - 1]);
            assert(1 <= j);
            assert(b.len() >= 2);
            assert(r.len() == j + b.len());
            assert(r[0] == a[0] && a[0] == fh[0] && fh[0] == p[0]);
            assert(r[r.len() - 1] == b.last());
            assert(r[j] == b[0]);

            assert(dev_at(p, 1) <= dev_at(p, 1));
            lemma_far_from_first_max(p, 2, 1);
            assert(forall|k: int| 1 <= k < n - 1 ==> dev_at(p, k) <= dev_at(p, m));
            assert(forall|k: int| 1 <= k < m ==> dev_at(p, k) < dev_at(p, m));

            lemma_rdp_interior(fh, eps);
            lemma_simplify_interior(sh, eps);

            assert(dev_at(r, j) == dev_at(p, m)) by {
                assert(r[0] == p[0] && r[r.len() - 1] == p[n - 1] && r[j] == p[m]);
            }
            assert forall|k: int| 1 <= k < j implies dev_at(r, k) < dev_at(r, j) by {
                assert(r[k] == a.drop_last()[k]);
                assert(a.drop_last()[k] == a[k]);
                let i = choose|i: int| 1 <= i <= fh.len() - 2 && a[k] == fh[i];
                assert(fh[i] == p[i]);
                assert(i < m);
                assert(dev_at(r, k) == dev_at(p, i)) by {
                    assert(r[k] == p[i] && r[0] == p[0] && r[r.len() - 1] == p[n - 1]);
                }
            }
            assert forall|k: int| j < k < r.len() - 1 implies dev_at(r, k) <= dev_at(r, j) by {
                assert(r[k] == b[k - j]);
                assert(1 <= k - j <= b.len() - 2);
                let i = choose|i: int| 1 <= i <= sh.len() - 2 && b[k - j] == sh[i];
                assert(sh[i] == p[m + i]);
                assert(1 <= m + i < n - 1);
                assert(dev_at(r, k) == dev_at(p, m + i)) by {
                    assert(r[k] == p[m + i] && r[0] == p[0] && r[r.len() - 1] == p[n - 1]);
                }
            }
            assert(r.len() >= 3);
            assert(1 <= j <= r.len() - 2);
            lemma_far_from_pinpoint(r, j, 2, 1);
            assert(farthest(r) == j);
            assert(dev_exceeds(r[0], r[r.len() - 1], r[farthest(r)], eps)) by {
                assert(r[0] == p[0] && r[r.len() - 1] == p[n - 1] && r[j] == p[m]);
            }
            assert(r.take(j + 1) =~= a);
            assert(r.skip(j) =~= b);
            lemma_rdp_idempotent(fh, eps);
            lemma_simplify_idempotent(sh, eps);
            assert(spec_rdp(r, eps) == spec_rdp(a, eps).drop_last() + spec_simplify(b, eps));
            assert(spec_rdp(r, eps) =~= r);
        }
    }
}

/// Simplifying twice gives the same polyline as simplifying once, for any
/// point sequence and tolerance.
pub proof fn lemma_simplify_idempotent(p: Seq<Pt>, eps: int)
    ensures
        spec_simplify(spec_simplify(p, eps), eps) == spec_simplify(p, eps),
    decreases p.len(), 1int,
{
    let s = spec_simplify(p, eps);
    if p.len() == 0 {
        assert(s == p);
        assert(spec_simplify(s, eps) == s);
    } else if p[0] == p[p.len() - 1] {
        let d = p.drop_last();
        let q = spec_rdp(d, eps);
        if p.len() == 1 {
            assert(d =~= Seq::<Pt>::empty());
            assert(q == d);
            assert(s =~= seq![p[0]]);
            assert(s[0] == s[s.len() - 1]);
            assert(s.drop_last() =~= Seq::<Pt>::empty());
            assert(spec_simplify(s, eps) =~= s);
        } else {
            lemma_rdp_endpoints(d, eps);
            assert(s == q.push(p[p.len() - 1]));
            assert(s[0] == q[0] && q[0] == d[0] && d[0] == p[0]);
            assert(s[s.len() - 1] == p[p.len() - 1]);
            assert(s[0] == s[s.len() - 1]);
            assert(s.drop_last() =~= q);
            lemma_rdp_idempotent(d, eps);
            assert(spec_simplify(s, eps) == spec_rdp(q, eps).push(s[s.len() - 1]));
            assert(spec_simplify(s, eps) =~= s);
        }
    } else {
        let q = spec_rdp(p, eps);
        assert(p.len() >= 2);
        lemma_rdp_endpoints(p, eps);
        assert(q[0] == p[0] && q.last() == p.last());
        assert(q.len() >= 2);
        assert(q[0] != q[q.len() - 1]);
        lemma_rdp_idempotent(p, eps);
        assert(spec_simplify(q, eps) == spec_rdp(q, eps));
    }
}

/// A closed polyline stays closed: the reduction keeps the first and last
/// points of a polyline whose first and last points coincide, so they still
/// coincide afterwards.
pub proof fn lemma_simplify_keeps_closed(p: Seq<Pt>, eps: int)
    requires
        p.len() >= 1,
        p[0] == p[p.len() - 1],
    ensures
        spec_simplify(p, eps)[0] == p[0],
        spec_simplify(p, eps).last() == p[p.len() - 1],
        spec_simplify(p, eps)[0] == spec_simplify(p, eps).last(),
        spec_simplify(p, eps).len() >= 1,
{
    if p.len() == 1 {
        assert(p.drop_last() =~= Seq::<Pt>::empty());
        assert(spec_simplify(p, eps) =~= seq![p[0]]);
    } else {
        lemma_rdp_endpoints(p.drop_last(), eps);
    }
}

/// Three exactly collinear points with distinct endpoints simplify to the
/// two endpoints, at any tolerance.
pub proof fn lemma_simplify_collinear_triple(p: Seq<Pt>, eps: int)
    requires
        p.len() == 3,
        p[0] != p[2],
        cross(p[0], p[2], p[1]) == 0,
    ensures
        spec_simplify(p, eps) == seq![p[0], p[2]],
{
    assert(farthest(p) == 1);
    assert(dev_at(p, 1) == 0);
    lemma_eps_len_sq_nonneg(p[0], p[2], eps);
    assert(!dev_exceeds(p[0], p[2], p[1], eps));
    assert(spec_simplify(p, eps) =~= seq![p[0], p[2]]);
}

/// The right-hand side of the tolerance comparison is never negative.
proof fn lemma_eps_len_sq_nonneg(a: Pt, b: Pt, eps: int)
    ensures
        eps * eps * crate::geom::len_sq(a, b) >= 0,
{
    let dx = b.x - a.x;
    let dy = b.y - a.y;
    assert(dx * dx >= 0 && dy * dy >= 0) by (nonlinear_arith);
    assert(eps * eps * (dx * dx + dy * dy) >= 0) by (nonlinear_arith)
        requires
            dx * dx >= 0 && dy * dy >= 0,
    ;
}

/// A chain all of whose interior points lie within the tolerance of the
/// chord collapses to its two endpoints.
pub proof fn lemma_simplify_within_eps_collapses(p: Seq<Pt>, eps: int)
    requires
        p.len() >= 2,
        p[0] != p[p.len() - 1],
        forall|k: int| 1 <= k < p.len() - 1 ==> !dev_exceeds(p[0], p[p.len() - 1], #[trigger] p[k], eps),
    ensures
        spec_simplify(p, eps) == seq![p[0], p[p.len() - 1]],
{
    if p.len() == 2 {
        assert(spec_simplify(p, eps) =~= seq![p[0], p[1]]);
    } else {
        let m = farthest(p);
        lemma_farthest_bounds(p);
        assert(!dev_exceeds(p[0], p[p.len() - 1], p[m], eps));
        assert(spec_simplify(p, eps) =~= seq![p[0], p[p.len() - 1]]);
    }
}

/// The distance numerator `|cross(s, e, p)|`, computed exactly.
fn cross_abs(s: Pt, e: Pt, p: Pt) -> (r: i128)
    requires
        pt_bounded(s),
        pt_bounded(e),
        pt_bounded(p),
    ensures
        r == dev_num(s, e, p),
        0 <= r <= 0x8000000000000000,
{
    let dy = e.y as i128 - s.y as i128;
    let px = p.x as i128 - s.x as i128;
    let dx = e.x as i128 - s.x as i128;
    let py = p.y as i128 - s.y as i128;
    proof {
        assert(-0x4000000000000000 <= dy * px <= 0x4000000000000000) by (nonlinear_arith)
            requires
                -0x80000000 <= dy <= 0x80000000 && -0x80000000 <= px <= 0x80000000,
        ;
        assert(-0x4000000000000000 <= dx * py <= 0x4000000000000000) by (nonlinear_arith)
            requires
                -0x80000000 <= dx <= 0x80000000 && -0x80000000 <= py <= 0x80000000,
        ;
    }
    let c = dy * px - dx * py;
    if c < 0 {
        -c
    } else {
        c
    }
}

/// Whether `a` lies strictly farther from the line through `s` and `e` than
/// `b` does (the shared denominator cancels).
fn farther(s: Pt, e: Pt, a: Pt, b: Pt) -> (r: bool)
    requires
        pt_bounded(s),
        pt_bounded(e),
        pt_bounded(a),
        pt_bounded(b),
    ensures
        r == (dev_num(s, e, a) > dev_num(s, e, b)),
{
    cross_abs(s, e, a) > cross_abs(s, e, b)
}

/// Whether the perpendicular distance of `p` from the line through `s` and
/// `e` strictly exceeds `eps`, compared via squares.
fn exceeds_eps(s: Pt, e: Pt, p: Pt, eps: u64) -> (r: bool)
    requires
        pt_bounded(s),
        pt_bounded(e),
        pt_bounded(p),
        eps <= MAX_COORD,
    ensures
        r == dev_exceeds(s, e, p, eps as int),
{
    let num = cross_abs(s, e, p);
    let dx = e.x as i128 - s.x as i128;
    let dy = e.y as i128 - s.y as i128;
    proof {
        assert(0 <= dx * dx <= 0x4000000000000000) by (nonlinear_arith)
            requires
                -0x80000000 <= dx <= 0x80000000,
        ;
        assert(0 <= dy * dy <= 0x4000000000000000) by (nonlinear_arith)
            requires
                -0x80000000 <= dy <= 0x80000000,
        ;
    }
    let den = dx * dx + dy * dy;
    let ep = eps as i128;
    proof {
        assert(num * num <= 0x40000000000000000000000000000000) by (nonlinear_arith)
            requires
                0 <= num <= 0x8000000000000000,
        ;
        assert(0 <= ep * ep <= 0x4000000000000000) by (nonlinear_arith)
            requires
                0 <= ep <= 0x80000000,
        ;
        assert(0 <= (ep * ep) * den <= 0x20000000000000000000000000000000) by (nonlinear_arith)
            requires
                0 <= ep * ep <= 0x4000000000000000 && 0 <= den <= 0x8000000000000000,
        ;
    }
    num * num > ep * ep * den
}

/// All points of the slice fit the simplifier's coordinate bound.
pub open spec fn poly_bounded(s: Seq<Pt>) -> bool {
    forall|i: int| 0 <= i < s.len() ==> pt_bounded(#[trigger] s[i])
}

/// Simplify a given polyline by reducing the amount of points that do not
/// actually contribute to the overall shape: with tolerance zero, only
/// points lying exactly on the chord of their stretch are dropped.
pub fn simplify(poly: &[Pt]) -> (r: Vec<Pt>)
    requires
        poly_bounded(poly@),
    ensures
        r@ == spec_simplify(poly@, 0),
{
    simplify_with_eps(poly, 0)
}

/// Simplify with an explicit tolerance, in fixed-point coordinate units:
/// interior points within perpendicular distance `eps` of their stretch's
/// chord are dropped.
pub fn simplify_with_eps(poly: &[Pt], eps: u64) -> (r: Vec<Pt>)
    requires
        poly_bounded(poly@),
        eps <= MAX_COORD,
    ensures
        r@ == spec_simplify(poly@, eps as int),
{
    let mut r = Vec::new();
    _simplify_with_eps(&mut r, poly, eps);
    r
}

pub fn _simplify_with_eps(r: &mut Vec<Pt>, poly: &[Pt], eps: u64)
    requires
        poly_bounded(poly@),
        eps <= MAX_COORD,
    ensures
        final(r)@ == old(r)@ + spec_simplify(poly@, eps as int),
{
    let n = poly.len();
    proof {
        assert(poly@.subrange(0, n as int) =~= poly@);
    }
    simplify_range(r, poly, 0, n, eps);
}

/// The closed-polyline check of the reduction, on the stretch
/// `poly[lo..hi]`.
fn simplify_range(r: &mut Vec<Pt>, poly: &[Pt], lo: usize, hi: usize, eps: u64)
    requires
        poly_bounded(poly@),
        lo <= hi <= poly@.len(),
        eps <= MAX_COORD,
    ensures
        final(r)@ == old(r)@ + spec_simplify(poly@.subrange(lo as int, hi as int), eps as int),
    decreases hi - lo, 1int,
{
    let ghost sub = poly@.subrange(lo as int, hi as int);
    // Ramer-Douglas-Peucker does not work on closed paths, so simplify the
    // open path and close it again by hand.
    if hi > lo && poly[lo].x == poly[hi - 1].x && poly[lo].y == poly[hi - 1].y {
        proof {
            assert(poly@.subrange(lo as int, hi - 1) =~= sub.drop_last());
        }
        rdp_range(r, poly, lo, hi - 1, eps);
        r.push(poly[hi - 1]);
        proof {
            assert(sub[0] == sub[sub.len() - 1]);
            assert(final(r)@ =~= old(r)@ + spec_simplify(sub, eps as int));
        }
    } else {
        rdp_range(r, poly, lo, hi, eps);
        proof {
            if sub.len() > 0 {
                assert(sub[0] != sub[sub.len() - 1]);
            }
        }
    }
}

/// The Ramer-Douglas-Peucker reduction of the open stretch `poly[lo..hi]`,
/// appended to `r`.
fn rdp_range(r: &mut Vec<Pt>, poly: &[Pt], lo: usize, hi: usize, eps: u64)
    requires
        poly_bounded(poly@),
        lo <= hi <= poly@.len(),
        eps <= MAX_COORD,
    ensures
        final(r)@ == old(r)@ + spec_rdp(poly@.subrange(lo as int, hi as int), eps as int),
    decreases hi - lo, 0int,
{
    let ghost sub = poly@.subrange(lo as int, hi as int);
    if hi - lo < 3 {
        let mut i = lo;
        while i < hi
            invariant
                lo <= i <= hi <= poly@.len(),
                r@ == old(r)@ + poly@.subrange(lo as int, i as int),
            decreases hi - i,
        {
            proof {
                assert(poly@.subrange(lo as int, i + 1) =~= poly@.subrange(lo as int, i as int)
                    + seq![poly@[i as int]]);
            }
            r.push(poly[i]);
            i = i + 1;
        }
        proof {
            assert(spec_rdp(sub, eps as int) == sub);
        }
        return ;
    }
    let sp = poly[lo];
    let ep = poly[hi - 1];

    let mut best: usize = lo + 1;
    let mut i: usize = lo + 2;
    while i < hi - 1
        invariant
            poly_bounded(poly@),
            lo + 3 <= hi <= poly@.len(),
            lo + 1 <= best < i,
            lo + 2 <= i <= hi - 1,
            sp == poly@[lo as int],
            ep == poly@[hi - 1],
            sub == poly@.subrange(lo as int, hi as int),
            farthest(sub) == far_from(sub, i - lo, best - lo),
        decreases hi - 1 - i,
    {
        proof {
            assert(sub[i - lo] == poly@[i as int]);
            assert(sub[best - lo] == poly@[best as int]);
            assert(sub[0] == sp && sub[sub.len() - 1] == ep);
        }
        if farther(sp, ep, poly[i], poly[best]) {
            best = i;
        }
        i = i + 1;
    }
    let ghost m = (best - lo) as int;
    proof {
        assert(farthest(sub) == m);
        lemma_farthest_bounds(sub);
        assert(sub[m] == poly@[best as int]);
        assert(sub[0] == sp && sub[sub.len() - 1] == ep);
    }

    if exceeds_eps(sp, ep, poly[best], eps) {
        let ghost fh = sub.take(m + 1);
        let ghost sh = sub.skip(m);
        proof {
            assert(poly@.subrange(lo as int, best + 1) =~= fh);
            assert(poly@.subrange(best as int, hi as int) =~= sh);
        }
        let ghost r0 = r@;
        rdp_range(r, poly, lo, best + 1, eps);
        proof {
            lemma_rdp_endpoints(fh, eps as int);
        }
        // drop the split point: the second half is emitted starting with it
        r.pop();
        let ghost r1 = r@;
        proof {
            assert(r1 =~= r0 + spec_rdp(fh, eps as int).drop_last());
        }
        simplify_range(r, poly, best, hi, eps);
        proof {
            assert(r@ =~= r0 + (spec_rdp(fh, eps as int).drop_last() + spec_simplify(
                sh,
                eps as int,
            )));
        }
    } else {
        r.push(sp);
        r.push(ep);
        proof {
            assert(spec_rdp(sub, eps as int) =~= seq![sub[0], sub[sub.len() - 1]]);
            assert(r@ =~= old(r)@ + spec_rdp(sub, eps as int));
        }
    }
}

} // verus!
