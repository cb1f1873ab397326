use metric_rs::basic::{is_parallel, TestThrough};
use metric_rs::exception::CalcException;
use metric_rs::objects::{Circle, Frac, Line, Point};

fn pt(x: i128, y: i128, w: i128) -> Point {
    Point { x, y, w }
}

#[test]
fn objects_def() {
    let a = Point::new(0, 0);
    let b = Point::new(0, 1);
    let c = Point::new(1, 0);
    let d = Point::new(1, 1);
    let m = Line::from_2p(b, c).unwrap();
    let n = Line::from_2p(a, d).unwrap();
    let k = Line::from_slope_and_point(2, -1, d);
    assert_eq!(k.b, -1);
    let o = m.inter(n).unwrap();
    assert!(o.is_same(&pt(1, 1, 2)));
    let circ = Circle::from_3p(a, b, d).unwrap();
    let circ0 = Circle::from_center_point(o, a).unwrap();
    assert!(circ.o.is_same(&circ0.o));
    assert_eq!(circ.r2.num * circ0.r2.den, circ0.r2.num * circ.r2.den);
    // The radius is the square root of one half.
    assert_eq!(circ.r2.num * 2, circ.r2.den);
    let e = Point::new(0, 1);
    assert_eq!(Line::from_2p(b, e).unwrap_err(), CalcException::OverlappingPoint);
    assert_eq!(Circle::from_3p(a, b, e).unwrap_err(), CalcException::OverlappingPoint);
    assert_eq!(Circle::from_3p(a, o, d).unwrap_err(), CalcException::NoIntersection);
    assert_eq!(
        Circle::from_center_radius(o, Frac { num: 0, den: 1 }).unwrap_err(),
        CalcException::NonpositiveRadius
    );
}

#[test]
fn predicates() {
    let a = Point::new(0, 0);
    let c = Point::new(10, 24);
    // (100, 240.000001) and (10, 24.000001)
    let d = pt(100_000_000, 240_000_001, 1_000_000);
    let e = pt(10_000_000, 24_000_001, 1_000_000);
    let l = Line::from_2p(a, c).unwrap();
    let l0 = Line::from_2p(a, d).unwrap();
    let k = Line::from_2p(e, d).unwrap();
    let circ = Circle::from_center_radius(a, Frac { num: 26, den: 1 }).unwrap();
    assert!(is_parallel(l, k));
    assert!(circ.is_through(c));
    assert!(!l0.is_through(c));
}

#[test]
fn intersect() {
    let a = Point::new(0, 0);
    let b = Point::new(5, 0);
    let c = Circle::from_center_radius(a, Frac { num: 3, den: 1 }).unwrap();
    let d = Circle::from_center_radius(b, Frac { num: 4, den: 1 }).unwrap();
    // (1.8, 2.4) is one meeting point; the other is its mirror image.
    let s = pt(9, 12, 5);
    assert!(c.is_through(s) && d.is_through(s));
    let (t, s2) = c.inter_common(d, s).unwrap();
    assert!(s2.is_same(&s));
    assert!(t.is_same(&pt(9, -12, 5)));
    assert!(c.is_through(t) && d.is_through(t));
    // y = 2.4 in absolute value, x = 1.8 for both.
    assert_eq!(t.y * 5, -12 * t.w);
    assert_eq!(t.x * 5, 9 * t.w);
}
