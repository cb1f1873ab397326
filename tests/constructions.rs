use metric_rs::basic::{distance_sq_lines, distance_sq_point_line, radical_axis, TestThrough};
use metric_rs::centers::{centroid, circum, from_barycentric, nine_point, ortho, symmedian};
use metric_rs::construct::{center, parallel, perp, perp_bisect, polar_line, projection};
use metric_rs::exception::CalcException;
use metric_rs::objects::{Circle, Frac, Line, Point};
use metric_rs::transform::{LineInverted, Reflect};

fn pt(x: i128, y: i128, w: i128) -> Point {
    Point { x, y, w }
}

fn circle(x: i64, y: i64, r: i128) -> Circle {
    Circle::from_center_radius(Point::new(x, y), Frac { num: r, den: 1 }).unwrap()
}

#[test]
fn zero_coefficients_are_refused() {
    assert_eq!(Line::from_coeff(0, 0, 1).unwrap_err(), CalcException::ZeroCoefficient);
    assert!(Line::from_coeff(0, 3, 1).is_ok());
}

#[test]
fn foot_of_perpendicular() {
    let l = Line::from_coeff(1, 1, -2).unwrap();
    let f = projection(Point::new(3, 5), l);
    assert!(f.is_same(&Point::new(0, 2)));
    assert!(l.is_through(f));
}

#[test]
fn parallel_and_perpendicular_lines() {
    let l = Line::from_coeff(1, 2, -3).unwrap();
    let p = parallel(Point::new(0, 0), l);
    assert_eq!((p.a, p.b, p.c), (1, 2, 0));
    let q = perp(Point::new(1, 1), l);
    assert_eq!((q.a, q.b, q.c), (-2, 1, 1));
    assert!(q.is_through(Point::new(1, 1)));
}

#[test]
fn perpendicular_bisector() {
    let l = perp_bisect(Point::new(0, 0), Point::new(2, 0)).unwrap();
    assert!(l.is_through(Point::new(1, 5)));
    assert!(!l.is_through(Point::new(0, 0)));
    assert_eq!(
        perp_bisect(Point::new(1, 1), pt(2, 2, 2)).unwrap_err(),
        CalcException::OverlappingPoint
    );
}

#[test]
fn polar_line_of_a_point() {
    let c = circle(0, 0, 1);
    let l = polar_line(Point::new(2, 0), c).unwrap();
    assert!(l.is_through(pt(1, 14, 2)));
    assert!(!l.is_through(Point::new(1, 0)));
    assert_eq!(polar_line(Point::new(0, 0), c).unwrap_err(), CalcException::ZeroCoefficient);
}

#[test]
fn polygon_center() {
    let poly = vec![Point::new(0, 0), Point::new(4, 0), Point::new(4, 2), Point::new(0, 2)];
    assert!(center(&poly).is_same(&Point::new(2, 1)));
    // Points of different weights: (0, 0), (0.5, 0.5) and (2, 0).
    let mixed = vec![Point::new(0, 0), pt(1, 1, 2), Point::new(2, 0)];
    assert!(center(&mixed).is_same(&pt(5, 1, 6)));
}

#[test]
fn radical_axis_of_concentric_circles_fails() {
    assert_eq!(
        radical_axis(circle(1, 1, 2), circle(1, 1, 3)).unwrap_err(),
        CalcException::ZeroCoefficient
    );
    assert_eq!(
        circle(1, 1, 2).inter_common(circle(1, 1, 3), Point::new(3, 1)).unwrap_err(),
        CalcException::NoIntersection
    );
}

#[test]
fn line_meets_circle_again() {
    let c = circle(0, 0, 5);
    let l = Line::from_2p(Point::new(3, 4), Point::new(3, 0)).unwrap();
    let (q, p) = l.inter_common(c, Point::new(3, 4)).unwrap();
    assert!(p.is_same(&Point::new(3, 4)));
    assert!(q.is_same(&Point::new(3, -4)));
    assert!(c.is_through(q));
}

#[test]
fn reflections_of_lines_and_circles() {
    let l = Line::from_coeff(1, 0, -1).unwrap();
    assert!(l.reflect_in(Point::new(0, 0)).is_through(Point::new(-1, 5)));
    let x_axis = Line::from_coeff(0, 1, 0).unwrap();
    let diagonal = Line::from_coeff(1, -1, 0).unwrap();
    let r = x_axis.reflect_in(diagonal);
    assert!(r.is_through(Point::new(0, 7)) && !r.is_through(Point::new(1, 0)));
    let far = Line::from_coeff(1, 0, -3).unwrap();
    assert!(l.reflect_in(far).is_through(Point::new(5, 2)));
    let c = circle(1, 2, 1).reflect_in(Line::from_coeff(1, 0, 0).unwrap());
    assert!(c.o.is_same(&Point::new(-1, 2)));
    assert_eq!(c.r2.num, c.r2.den);
    let d = circle(1, 2, 1).reflect_in(Point::new(0, 0));
    assert!(d.o.is_same(&Point::new(-1, -2)));
}

#[test]
fn inversion_of_lines_and_circles() {
    let o = Point::new(0, 0);
    match Line::from_coeff(1, 0, -1).unwrap().invert_in(o, 1) {
        LineInverted::Circle(c) => {
            assert!(c.o.is_same(&pt(1, 0, 2)));
            assert_eq!(c.r2.num * 4, c.r2.den);
            assert!(c.is_through(o));
        }
        LineInverted::Line(_) => panic!("expected a circle"),
    }
    let through = Line::from_coeff(1, 1, 0).unwrap();
    match through.invert_in(o, 4) {
        LineInverted::Line(l) => assert_eq!((l.a, l.b, l.c), (1, 1, 0)),
        LineInverted::Circle(_) => panic!("expected a line"),
    }
    match circle(2, 0, 1).invert_in(o, 3) {
        LineInverted::Circle(c) => {
            assert!(c.o.is_same(&Point::new(2, 0)));
            assert_eq!(c.r2.num, c.r2.den);
        }
        LineInverted::Line(_) => panic!("expected a circle"),
    }
    match circle(1, 0, 1).invert_in(o, 3) {
        LineInverted::Line(l) => {
            assert!(l.is_through(pt(3, 8, 2)));
            assert!(!l.is_through(Point::new(1, 0)));
        }
        LineInverted::Circle(_) => panic!("expected a line"),
    }
}

#[test]
fn scaling() {
    let p = Point::new(3, 4).scale(Point::new(1, 1), Frac { num: 2, den: 1 });
    assert!(p.is_same(&Point::new(5, 7)));
    let l = Line::from_coeff(1, 0, -2).unwrap().scale(Point::new(0, 0), Frac { num: 3, den: 1 });
    assert!(l.is_through(Point::new(6, 1)));
    let c = Circle::from_center_radius(Point::new(1, 0), Frac { num: 2, den: 1 }).unwrap();
    let d = c.scale(Point::new(0, 0), Frac { num: -1, den: 2 });
    assert!(d.o.is_same(&pt(-1, 0, 2)));
    assert_eq!(d.r2.num, d.r2.den);
}

#[test]
fn triangle_centers() {
    let t = (Point::new(0, 0), Point::new(4, 0), Point::new(0, 2));
    assert!(circum(t).unwrap().is_same(&Point::new(2, 1)));
    assert!(ortho(t).unwrap().is_same(&Point::new(0, 0)));
    assert!(nine_point(t).unwrap().is_same(&pt(2, 1, 2)));
    assert!(centroid((Point::new(0, 0), Point::new(3, 0), Point::new(0, 6))).is_same(&Point::new(1, 2)));
    assert!(symmedian(t).unwrap().is_same(&pt(8, 1, 5)));
    let bad = (Point::new(1, 1), Point::new(1, 1), Point::new(0, 2));
    assert_eq!(circum(bad).unwrap_err(), CalcException::OverlappingPoint);
    let line = (Point::new(0, 0), Point::new(1, 1), Point::new(2, 2));
    assert_eq!(circum(line).unwrap_err(), CalcException::NoIntersection);
    assert_eq!(ortho(line).unwrap_err(), CalcException::NoIntersection);
}

#[test]
fn barycentric_coordinates() {
    let t = (Point::new(0, 0), Point::new(3, 0), Point::new(0, 6));
    assert!(from_barycentric(t, (1, 1, 1)).unwrap().is_same(&Point::new(1, 2)));
    assert!(from_barycentric(t, (-1, -1, -1)).unwrap().is_same(&Point::new(1, 2)));
    assert!(from_barycentric(t, (0, 2, 1)).unwrap().is_same(&Point::new(2, 2)));
    assert_eq!(from_barycentric(t, (1, -1, 0)).unwrap_err(), CalcException::ZeroCoefficient);
    let same = (Point::new(1, 1), Point::new(1, 1), Point::new(1, 1));
    assert_eq!(symmedian(same).unwrap_err(), CalcException::ZeroCoefficient);
}

#[test]
fn error_messages() {
    for e in [
        CalcException::OverlappingPoint,
        CalcException::NonpositiveRadius,
        CalcException::CollinearPoints,
        CalcException::NoIntersection,
        CalcException::ZeroCoefficient,
        CalcException::Infinity,
    ] {
        assert!(!e.message().is_empty());
    }
    assert_eq!(CalcException::NoIntersection.message(), "There are no intersection");
}

#[test]
fn distances_to_lines() {
    // From (3, 4) to 3x + 4y - 5 = 0: |9 + 16 - 5| / 5 = 4.
    let d = distance_sq_point_line(Point::new(3, 4), Line::from_coeff(3, 4, -5).unwrap());
    assert_eq!(d.num, 16 * d.den);
    let on = distance_sq_point_line(Point::new(1, 1), Line::from_coeff(1, 1, -2).unwrap());
    assert_eq!(on.num, 0);
    // x + y = 0 and 2x + 2y - 4 = 0 are sqrt(2) apart.
    let l = Line::from_coeff(1, 1, 0).unwrap();
    let k = Line::from_coeff(2, 2, -4).unwrap();
    let dl = distance_sq_lines(l, k);
    assert_eq!(dl.num, 2 * dl.den);
    // Lines that meet are at distance zero.
    let j = Line::from_coeff(1, -1, 3).unwrap();
    assert_eq!(distance_sq_lines(l, j).num, 0);
}

#[test]
fn known_point_off_the_line() {
    // Line x = 0, circle centered at (1, 0) with radius 1, known point (1, 1)
    // off the line: the other point still lies on the line, at (0, -1).
    let l = Line::from_coeff(1, 0, 0).unwrap();
    let c = circle(1, 0, 1);
    let (q, p) = l.inter_common(c, Point::new(1, 1)).unwrap();
    assert!(p.is_same(&Point::new(1, 1)));
    assert!(q.is_same(&Point::new(0, -1)));
    assert!(l.is_through(q));
    // A horizontal line takes x from the sum of roots instead.
    let h = Line::from_coeff(0, 1, -3).unwrap();
    let (q2, _) = h.inter_common(circle(0, 0, 5), Point::new(4, 3)).unwrap();
    assert!(q2.is_same(&Point::new(-4, 3)));
}

#[test]
fn exact_error_texts() {
    assert_eq!(CalcException::OverlappingPoint.message(), "Two points overlap when they shouldn't");
    assert_eq!(CalcException::NonpositiveRadius.message(), "Defining a circle with nonpositive radius");
    assert_eq!(
        CalcException::CollinearPoints.message(),
        "Three (or more) points are collinear when they shouldn't"
    );
    assert_eq!(
        CalcException::ZeroCoefficient.message(),
        "Defining something with coefficient all zero, where this is not allowed"
    );
    assert_eq!(
        CalcException::Infinity.message(),
        "This calculation would directly cause the result to be the point of infinity / the line of infinity"
    );
}

#[test]
fn vector_algebra() {
    let p = Point::new(1, 2);
    let q = pt(1, 1, 2);
    assert!(p.add(q).is_same(&pt(3, 5, 2)));
    assert!(p.sub(q).is_same(&pt(1, 3, 2)));
    assert!(p.mul(Frac { num: 3, den: 2 }).is_same(&pt(3, 6, 2)));
    assert!(p.div(Frac { num: -2, den: 1 }).is_same(&pt(-1, -2, 2)));
}

#[test]
fn equality_of_lines_and_circles() {
    let l = Line::from_coeff(1, 2, -3).unwrap();
    assert!(l.is_same(&Line::from_coeff(-2, -4, 6).unwrap()));
    assert!(!l.is_same(&Line::from_coeff(1, 2, -4).unwrap()));
    let c = circle(1, 1, 2);
    let d = Circle::from_center_radius(pt(2, 2, 2), Frac { num: 4, den: 2 }).unwrap();
    assert!(c.is_same(&d));
    assert!(!c.is_same(&circle(1, 1, 3)));
}

#[test]
fn line_meets_circle_or_not() {
    let c = circle(0, 0, 5);
    assert!(Line::from_coeff(1, 0, -3).unwrap().meets_circle(c));
    assert!(Line::from_coeff(1, 0, -5).unwrap().meets_circle(c));
    assert!(!Line::from_coeff(1, 0, -6).unwrap().meets_circle(c));
    assert!(!Line::from_coeff(3, 4, -30).unwrap().meets_circle(c));
}
