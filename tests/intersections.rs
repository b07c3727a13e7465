use librstab::geometry::{Circle, Crossing, Line, Point};
use librstab::section::{Geometry, Layer};

fn coords(c: &Crossing) -> (f64, f64) {
    let q = (c.disc as f64).sqrt();
    let t = (c.p as f64 + c.s as f64 * q) / c.den as f64;
    let dx = (c.line.p2.x - c.line.p1.x) as f64;
    let dy = (c.line.p2.y - c.line.p1.y) as f64;
    (c.line.p1.x as f64 + dx * t, c.line.p1.y as f64 + dy * t)
}

fn close(a: f64, b: f64) -> bool {
    (a - b).abs() < 1e-6
}

fn line(x1: i64, y1: i64, x2: i64, y2: i64) -> Line {
    Line { p1: Point { x: x1, y: y1 }, p2: Point { x: x2, y: y2 } }
}

#[test]
fn test_layer_circle_intersections() {
    let points = vec![
        Point { x: 0, y: 0 },
        Point { x: 10, y: 0 },
        Point { x: 10, y: 10 },
        Point { x: 0, y: 10 },
        Point { x: 0, y: 0 },
    ];
    let layer = Layer { y_dry: 10, y_sat: 10, c: 2, tan_phi: 268, points };
    let intersections = layer.circle_intersections(5, 5, 5);
    assert_eq!(intersections.len(), 4);
}

#[test]
fn test_circle_line_intersections() {
    let mut l = line(-10, 11, 10, -9);
    let result1 = l.circle_intersections(3, -5, 3, false);
    assert_eq!(result1.len(), 2);
    let (x, y) = coords(&result1[0]);
    assert!(close(x, 3.0) && close(y, -2.0));
    let (x, y) = coords(&result1[1]);
    assert!(close(x, 6.0) && close(y, -5.0));

    l = line(-10, 11, -11, -12);
    let result2 = l.circle_intersections(3, -5, 3, true);
    assert_eq!(result2.len(), 0);

    l = line(3, -2, 7, -2);
    let result3 = l.circle_intersections(3, -5, 3, true);
    assert_eq!(result3.len(), 1);
    let (x, y) = coords(&result3[0]);
    assert!(close(x, 3.0) && close(y, -2.0));

    l = line(0, -3, 0, 6);
    let result4 = l.circle_intersections(0, 0, 4, false);
    assert_eq!(result4.len(), 2);
    assert!(close(coords(&result4[0]).0, 0.0));
    assert!(close(coords(&result4[1]).0, 0.0));

    let result5 = l.circle_intersections(0, 0, 4, true);
    assert_eq!(result5.len(), 1);

    l = line(6, 3, 10, 7);
    let result6 = l.circle_intersections(4, 2, 5, false);
    assert_eq!(result6.len(), 2);
    let (x, y) = coords(&result6[0]);
    assert!(close(x, 1.0) && close(y, -2.0));
    let (x, y) = coords(&result6[1]);
    assert!(close(x, 8.0) && close(y, 5.0));

    l = line(7, 4, 11, 8);
    let result7 = l.circle_intersections(4, 2, 5, true);
    assert_eq!(result7.len(), 1);
    let (x, y) = coords(&result7[0]);
    assert!(close(x, 8.0) && close(y, 5.0));
}

#[test]
fn points_lie_on_circle_and_line() {
    let l = line(-7, 3, 9, 5);
    let c = Circle { mx: 1, my: 2, r: 6 };
    let found = l.circle_intersections(c.mx, c.my, c.r, false);
    assert_eq!(found.len(), 2);
    for x in &found {
        let (px, py) = coords(x);
        let on_circle = (px - 1.0).powi(2) + (py - 2.0).powi(2);
        assert!((on_circle - 36.0).abs() < 1e-6);
        let cross = (px + 7.0) * 2.0 - (py - 3.0) * 16.0;
        assert!(cross.abs() < 1e-6);
    }
}

#[test]
fn segment_result_is_subset_of_line_result() {
    let l = line(0, -3, 0, 6);
    let full = l.circle_intersections(0, 0, 4, false);
    let seg = l.circle_intersections(0, 0, 4, true);
    assert_eq!(seg.len(), 1);
    assert!(full.contains(&seg[0]));
    assert!(seg[0].is_on_segment());
    assert!(!full.iter().filter(|x| !seg.contains(x)).any(|x| x.is_on_segment()));
}

#[test]
fn results_ascend_in_x_tangent_and_miss() {
    let l = line(10, -9, -10, 11);
    let r = l.circle_intersections(3, -5, 3, false);
    assert_eq!(r.len(), 2);
    assert!(coords(&r[0]).0 <= coords(&r[1]).0);
    let tangent = line(-5, 0, 5, 0).circle_intersections(0, 3, 3, false);
    assert_eq!(tangent.len(), 1);
    let (x, y) = coords(&tangent[0]);
    assert!(close(x, 0.0) && close(y, 0.0));
    let miss = line(-5, 0, 5, 0).circle_intersections(0, 5, 3, false);
    assert_eq!(miss.len(), 0);
}

#[test]
fn reversed_segment_gives_same_points() {
    for seg in [false, true] {
        let a = line(6, 3, 10, 7).circle_intersections(4, 2, 5, seg);
        let b = line(10, 7, 6, 3).circle_intersections(4, 2, 5, seg);
        assert_eq!(a.len(), b.len());
        for x in &a {
            let (px, py) = coords(x);
            assert!(b.iter().any(|y| close(coords(y).0, px) && close(coords(y).1, py)));
        }
    }
}

#[test]
fn degenerate_line_meets_nothing() {
    let r = line(1, 1, 1, 1).circle_intersections(0, 0, 5, false);
    assert_eq!(r.len(), 0);
}

#[test]
fn cross_section_intersections_per_layer() {
    let square = vec![
        Point { x: 0, y: 0 },
        Point { x: 10, y: 0 },
        Point { x: 10, y: 10 },
        Point { x: 0, y: 10 },
        Point { x: 0, y: 0 },
    ];
    let flat = vec![Point { x: -20, y: 3 }, Point { x: 20, y: 3 }];
    let g = Geometry {
        layers: vec![
            Layer { y_dry: 18, y_sat: 20, c: 5, tan_phi: 500, points: square },
            Layer { y_dry: 19, y_sat: 21, c: 8, tan_phi: 600, points: flat },
        ],
        water: vec![],
    };
    let per_layer = g.circle_intersections(5, 5, 5);
    assert_eq!(per_layer.len(), 2);
    assert_eq!(per_layer[0].len(), 4);
    assert_eq!(per_layer[1].len(), 2);
    let (x0, y0) = coords(&per_layer[1][0]);
    let (x1, y1) = coords(&per_layer[1][1]);
    assert!(close(x0, 5.0 - 21f64.sqrt()) && close(y0, 3.0));
    assert!(close(x1, 5.0 + 21f64.sqrt()) && close(y1, 3.0));
}
