use marching_squares::geom::{Pt, SCALE};
use marching_squares::simplify::simplify;
use marching_squares::{Field, GridField, fraction, march};

fn pt(x: u64, y: u64) -> Pt {
    Pt { x, y }
}

fn grid(w: usize, h: usize, f: impl Fn(usize, usize) -> i64) -> GridField {
    let mut data = Vec::new();
    for y in 0..h {
        for x in 0..w {
            data.push(f(x, y));
        }
    }
    GridField::new(w, h, data).unwrap()
}

#[test]
fn test_msq_basic_square() {
    // 1 inside x,y in [2,8) plus the strip x in [0,2) at y == 2; marched at
    // a threshold halfway up (samples are doubled so the crossings sit at
    // edge midpoints).
    let sq = grid(10, 10, |x, y| {
        if x < 2 && y == 2 {
            return 2;
        }
        if (2..8).contains(&x) && (2..8).contains(&y) { 2 } else { 0 }
    });

    let contours = march(&sq, 1)
        .into_iter()
        .map(|p| simplify(&p))
        .collect::<Vec<_>>();

    let s = SCALE;
    let half = SCALE / 2;
    assert_eq!(
        contours,
        vec![vec![
            pt(0, 2 * s + half),
            pt(s, 2 * s + half),
            pt(s + half, 3 * s),
            pt(s + half, 7 * s),
            pt(2 * s, 7 * s + half),
            pt(7 * s, 7 * s + half),
            pt(7 * s + half, 7 * s),
            pt(7 * s + half, 2 * s),
            pt(7 * s, s + half),
            pt(0, s + half),
        ]]
    );
}

#[test]
fn test_msq_everything_filled() {
    let filled = grid(10, 10, |_x, _y| 1);
    assert!(march(&filled, 2).is_empty());
}

#[test]
fn test_msq_everything_empty() {
    let empty = grid(10, 10, |_x, _y| 0);
    assert!(march(&empty, 2).is_empty());
    assert_eq!(march(&empty.framed(2), 2).len(), 1);
}

#[test]
fn test_fraction() {
    assert_eq!(fraction(5, (5, 5)), SCALE / 2);
    assert_eq!(fraction(5, (5, 10)), 0);
    assert_eq!(fraction(15, (10, 20)), SCALE / 2);
    assert_eq!(fraction(0, (5, 10)), 0);
    assert_eq!(fraction(20, (5, 10)), SCALE);
}

#[test]
fn test_fraction_monotonic_and_clamped() {
    let mut prev = 0;
    for z in 0..30 {
        let f = fraction(z, (5, 25));
        assert!(f >= prev);
        assert!(f <= SCALE);
        prev = f;
    }
    // a falling edge mirrors the rising one
    assert_eq!(fraction(10, (20, 0)), SCALE / 2);
}

#[test]
fn test_march_framed_ring_is_closed() {
    // an all-below field framed at the threshold yields one closed ring
    let f = grid(3, 3, |_x, _y| 0);
    let contours = march(&f.framed(0), 0);
    assert_eq!(contours.len(), 1);
    let ring = &contours[0];
    assert!(ring.len() >= 4);
    assert_eq!(ring.first(), ring.last());
}

#[test]
fn test_march_framed_strictly_below_single_ring() {
    // a field strictly below the threshold, framed: one closed ring with
    // one point per ring cell plus the closing point
    let f = grid(4, 5, |_x, _y| -3);
    let contours = march(&f.framed(0), 0);
    assert_eq!(contours.len(), 1);
    let ring = &contours[0];
    // 2 * 4 + 2 * 5 - 8 ring cells
    assert_eq!(ring.len(), 11);
    assert_eq!(ring.first(), ring.last());
}

#[test]
fn test_march_no_cells() {
    let f = grid(1, 1, |_x, _y| 5);
    assert!(march(&f, 0).is_empty());
    let g = grid(0, 0, |_x, _y| 0);
    assert!(march(&g, 0).is_empty());
}

#[test]
fn test_msq_saddle_cells() {
    // two diagonal corners above threshold: the fixed saddle split emits
    // two segments, which stitch into two separate open contours
    let a = grid(2, 2, |x, y| if x == y { 2 } else { 0 });
    assert_eq!(march(&a, 1).len(), 2);
    let b = grid(2, 2, |x, y| if x != y { 2 } else { 0 });
    assert_eq!(march(&b, 1).len(), 2);
}

#[test]
fn test_grid_field_size_mismatch() {
    assert!(GridField::new(2, 2, vec![0, 0, 0]).is_none());
    assert!(GridField::new(2, 2, vec![0, 0, 0, 0]).is_some());
}

#[test]
fn test_march_consumes_every_segment() {
    // each contour of n points accounts for n - 1 segments; a 4x4 plateau
    // in a 6x6 field emits exactly the segments of one closed ring
    let f = grid(6, 6, |x, y| {
        if (1..5).contains(&x) && (1..5).contains(&y) { 2 } else { 0 }
    });
    let contours = march(&f, 1);
    assert_eq!(contours.len(), 1);
    let ring = &contours[0];
    assert_eq!(ring.first(), ring.last());
    // 16 boundary cells around the plateau, one segment each
    assert_eq!(ring.len(), 17);
}
