use marching_squares::geom::Pt;
use marching_squares::simplify::{simplify, simplify_with_eps};

fn pt(x: u64, y: u64) -> Pt {
    Pt { x, y }
}

#[test]
fn test_simplify_small_paths() {
    assert_eq!(simplify(&[]), vec![]);
    assert_eq!(simplify(&[pt(256, 256)]), vec![pt(256, 256)]);
    assert_eq!(
        simplify(&[pt(256, 256), pt(512, 512)]),
        vec![pt(256, 256), pt(512, 512)]
    );
}

#[test]
fn test_simplify_open_paths() {
    assert_eq!(
        simplify(&[pt(256, 256), pt(512, 512), pt(768, 768)]),
        vec![pt(256, 256), pt(768, 768)]
    );

    // interior points sit exactly on the chord and vanish
    assert_eq!(
        simplify(&[
            pt(0, 0),
            pt(1, 1),
            pt(7, 7),
            pt(256, 256),
            pt(257, 257),
            pt(512, 512),
        ]),
        vec![pt(0, 0), pt(512, 512)]
    );
}

#[test]
fn test_simplify_closed_paths() {
    assert_eq!(
        simplify(&[pt(256, 256), pt(512, 512), pt(768, 768), pt(256, 256)]),
        vec![pt(256, 256), pt(768, 768), pt(256, 256)]
    );

    assert_eq!(
        simplify(&[
            pt(0, 0),
            pt(1, 1),
            pt(7, 7),
            pt(256, 256),
            pt(257, 257),
            pt(512, 512),
            pt(0, 0),
        ]),
        vec![pt(0, 0), pt(512, 512), pt(0, 0)]
    );
}

#[test]
fn test_simplify_with_eps_collapses_near_line() {
    let p = [pt(0, 0), pt(100, 1), pt(200, 0)];
    // the middle point is one unit off the chord: kept at tolerance zero,
    // dropped at tolerance two
    assert_eq!(simplify_with_eps(&p, 0).len(), 3);
    assert_eq!(simplify_with_eps(&p, 2), vec![pt(0, 0), pt(200, 0)]);
}

#[test]
fn test_simplify_keeps_corners() {
    let p = [pt(0, 0), pt(100, 100), pt(200, 0), pt(300, 100)];
    assert_eq!(simplify(&p).len(), 4);
}

#[test]
fn test_simplify_idempotent_cases() {
    let zigzag = vec![pt(0, 0), pt(100, 100), pt(200, 0), pt(300, 100)];
    let mixed = vec![pt(0, 0), pt(50, 50), pt(100, 100), pt(200, 0), pt(0, 0)];
    let line = vec![pt(0, 0), pt(10, 10), pt(20, 20), pt(400, 400)];
    for p in [zigzag, mixed, line] {
        let once = simplify(&p);
        let twice = simplify(&once);
        assert_eq!(twice, once);
    }
}

#[test]
fn test_simplify_degenerate_closed_pair() {
    // the smallest closed polyline: the open remainder is two points, which
    // the reduction keeps, and the closing point is re-appended
    let p = [pt(0, 0), pt(100, 0), pt(0, 0)];
    assert_eq!(simplify(&p), vec![pt(0, 0), pt(100, 0), pt(0, 0)]);
}
