use metric_rs::basic::{distance_sq, is_parallel, radical_axis, TestThrough};
use metric_rs::construct::midpoint;
use metric_rs::exception::CalcException;
use metric_rs::objects::{Circle, Frac, Line, Point};
use metric_rs::transform::Reflect;

fn pt(x: i128, y: i128, w: i128) -> Point {
    Point { x, y, w }
}

#[test]
fn midpoint_is_equidistant_and_on_the_line() {
    let a = Point::new(1, 2);
    let b = Point::new(7, -3);
    let m = midpoint(a, b);
    assert!(m.is_same(&pt(8, -1, 2)));
    let d1 = distance_sq(a, m);
    let d2 = distance_sq(m, b);
    assert_eq!(d1.num * d2.den, d2.num * d1.den);
    assert!(Line::from_2p(a, b).unwrap().is_through(m));
}

#[test]
fn intersection_lies_on_both_lines() {
    let l = Line::from_coeff(1, 2, -3).unwrap();
    let k = Line::from_coeff(4, -1, 5).unwrap();
    let p = l.inter(k).unwrap();
    assert!(l.is_through(p) && k.is_through(p));
    assert!(p.is_same(&pt(-7, 17, 9)));
}

#[test]
fn parallel_lines_do_not_meet() {
    let l = Line::from_coeff(1, 2, -3).unwrap();
    let k = Line::from_coeff(2, 4, 7).unwrap();
    assert_eq!(l.inter(k).unwrap_err(), CalcException::NoIntersection);
    // Coincident lines are not special-cased.
    let j = Line::from_coeff(3, 6, -9).unwrap();
    assert_eq!(l.inter(j).unwrap_err(), CalcException::NoIntersection);
}

#[test]
fn reflection_in_a_line_twice_is_identity() {
    let p = Point::new(3, 5);
    let l = Line::from_coeff(1, 1, -2).unwrap();
    let q = p.reflect_in(l);
    assert!(q.is_same(&Point::new(-3, -1)));
    let r = q.reflect_in(l);
    assert!(r.is_same(&p));
}

#[test]
fn reflection_in_a_point_twice_is_identity() {
    let p = Point::new(3, 5);
    let c = pt(1, 1, 2);
    let q = p.reflect_in(c);
    assert!(q.is_same(&Point::new(-2, -4)));
    assert!(q.reflect_in(c).is_same(&p));
}

#[test]
fn inversion_twice_is_identity() {
    let p = Point::new(3, 4);
    let o = Point::new(0, 0);
    let q = p.invert_in(o, 50).unwrap();
    assert!(q.is_same(&Point::new(6, 8)));
    let r = q.invert_in(o, 50).unwrap();
    assert!(r.is_same(&p));
    let s = pt(7, -2, 3).invert_in(Point::new(1, 1), -5).unwrap();
    assert!(s.invert_in(Point::new(1, 1), -5).unwrap().is_same(&pt(7, -2, 3)));
}

#[test]
fn inversion_of_the_center_fails() {
    let o = Point::new(2, 3);
    assert_eq!(pt(4, 6, 2).invert_in(o, 9).unwrap_err(), CalcException::OverlappingPoint);
}

#[test]
fn circle_through_three_points() {
    let c = Circle::from_3p(Point::new(0, 0), Point::new(0, 1), Point::new(1, 1)).unwrap();
    assert!(c.o.is_same(&pt(1, 1, 2)));
    assert_eq!(c.r2.num * 2, c.r2.den);
    let c0 = Circle::from_center_point(pt(1, 1, 2), Point::new(0, 0)).unwrap();
    assert_eq!(c.r2.num * c0.r2.den, c0.r2.num * c.r2.den);
    assert!(c.is_through(Point::new(1, 1)) && c.is_through(Point::new(0, 1)));
}

#[test]
fn overlapping_points_and_nonpositive_radius_fail() {
    for p in [Point::new(0, 0), Point::new(-3, 8), pt(5, 7, 3)] {
        assert_eq!(Line::from_2p(p, p).unwrap_err(), CalcException::OverlappingPoint);
        assert_eq!(
            Circle::from_center_radius(p, Frac { num: 0, den: 1 }).unwrap_err(),
            CalcException::NonpositiveRadius
        );
        assert_eq!(
            Circle::from_center_radius(p, Frac { num: -2, den: 3 }).unwrap_err(),
            CalcException::NonpositiveRadius
        );
    }
}

#[test]
fn two_circles_meet_symmetrically() {
    let c = Circle::from_center_radius(Point::new(0, 0), Frac { num: 3, den: 1 }).unwrap();
    let d = Circle::from_center_radius(Point::new(5, 0), Frac { num: 4, den: 1 }).unwrap();
    let top = pt(9, 12, 5);
    let bottom = pt(9, -12, 5);
    assert!(c.is_through(top) && d.is_through(top));
    assert!(c.is_through(bottom) && d.is_through(bottom));
    let (other, _) = c.inter_common(d, bottom).unwrap();
    assert!(other.is_same(&top));
    let axis = radical_axis(c, d).unwrap();
    assert!(axis.is_through(top) && axis.is_through(bottom));
}

#[test]
fn parallel_predicate_both_ways() {
    let l = Line::from_coeff(2, 3, 1).unwrap();
    let k = Line::from_coeff(4, 6, -5).unwrap();
    let j = Line::from_coeff(3, 2, 1).unwrap();
    assert!(is_parallel(l, k));
    assert!(is_parallel(k, l));
    assert!(!is_parallel(l, j));
    assert!(!is_parallel(j, k));
}
