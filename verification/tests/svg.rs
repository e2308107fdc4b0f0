use marching_squares::geom::Pt;
use marching_squares::svg::{Document, Element};

const S: u64 = 256;

fn pt(x: u64, y: u64) -> Pt {
    Pt { x: x * S, y: y * S }
}

#[test]
fn test_basic() {
    let doc = Document::new((0, 0, 200 * S, 200 * S))
        .push(Element::rect((0, 0), (200 * S, 200 * S)).fill("red"))
        .push(Element::polyline(&vec![
            pt(10, 20),
            pt(50, 20),
            pt(50, 50),
            pt(10, 50),
        ]))
        .push(
            Element::polyline(&vec![
                pt(160, 20),
                pt(180, 60),
                pt(140, 30),
                pt(160, 20),
            ])
            .fill("none")
            .set("stroke", "black"),
        )
        .push(Element::path(&vec![
            vec![pt(0, 10), pt(20, 30), pt(20, 50), pt(0, 50)],
            vec![pt(20, 20), pt(40, 40), pt(20, 0)],
        ]))
        .push(Element::path(&vec![vec![], vec![pt(0, 10)]]));

    assert_eq!(
        doc.to_xml(),
        r#"<?xml version="1.0" encoding="UTF-8"?>
<!DOCTYPE svg PUBLIC "-//W3C//DTD SVG 1.1//EN" "http://www.w3.org/Graphics/SVG/1.1/DTD/svg11.dtd">
<svg xmlns="http://www.w3.org/2000/svg" version="1.1" viewBox="0 0 200 200">
<rect fill="red" height="200" width="200" x="0" y="0" />
<polyline points="10,20 50,20 50,50 10,50" />
<polyline fill="none" points="160,20 180,60 140,30 160,20" stroke="black" />
<path d="M 0,10 L 20,30 L 20,50 L 0,50 Z M 20,20 L 40,40 L 20,0 Z" />
<path d="M 0,10 Z" />
</svg>"#
    );
}

#[test]
fn test_fixed_point_rendering() {
    // 128/256 is one half; 321/256 is an exact binary fraction
    let el = Element::polyline(&vec![Pt { x: 128, y: 2 * S + S / 2 }, Pt { x: 321, y: 0 }]);
    assert_eq!(el.to_xml(), r#"<polyline points="0.5,2.5 1.25390625,0" />"#);
}

#[test]
fn test_set_replaces_value() {
    let el = Element::new("g").set("id", "a").set("id", "b").set("class", "c");
    assert_eq!(el.to_xml(), r#"<g class="c" id="b" />"#);
}
