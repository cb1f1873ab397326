//! Constructors of the value types, equality, incidence and parallelism.
use vstd::prelude::*;
use crate::arith::{
    abs, lemma_mul_bound, lemma_mul_le, lemma_mul_pos, lemma_square_nonneg, B15, B20, B30, B40, B5, B60, B8, P10,
    P100, P103, P11, P119, P120, P121, P122, P123, P124, P20, P21, P22, P30, P31, P32, P34, P41, P60, P61, P62,
    P64, P68, P69, P76, P77, P78, P79, P80, P81, P82, P83, P85, P86, P88,
};
use crate::exception::{CalcException, Result};
use crate::objects::{dist_sq_den, dist_sq_num, Circle, CircleModel, Frac, Line, LineModel, Point, PointModel};

verus! {

/// Tests whether two lines are parallel (or the same line): the cross
/// product of their direction coefficients is zero.
pub fn is_parallel(l: Line, k: Line) -> (r: bool)
    requires
        l.within(B60 as int),
        k.within(B60 as int),
    ensures
        r == l@.parallel_to(k@),
{
    proof {
        lemma_mul_bound(l.a as int, k.b as int, B60 as int, B60 as int);
        lemma_mul_bound(l.b as int, k.a as int, B60 as int, B60 as int);
    }
    l.a * k.b == l.b * k.a
}

impl Point {
    /// The point `(x, y)`.
    pub fn new(x: i64, y: i64) -> (r: Point)
        ensures
            r.x == x && r.y == y && r.w == 1,
    {
        Point { x: x as i128, y: y as i128, w: 1 }
    }

    /// Whether the two points are the same point of the plane.
    pub fn is_same(&self, q: &Point) -> (r: bool)
        requires
            self.within(B60 as int),
            q.within(B60 as int),
        ensures
            r == self@.same(q@),
    {
        proof {
            lemma_mul_bound(self.x as int, q.w as int, B60 as int, B60 as int);
            lemma_mul_bound(q.x as int, self.w as int, B60 as int, B60 as int);
            lemma_mul_bound(self.y as int, q.w as int, B60 as int, B60 as int);
            lemma_mul_bound(q.y as int, self.w as int, B60 as int, B60 as int);
        }
        self.x * q.w == q.x * self.w && self.y * q.w == q.y * self.w
    }
}

impl Point {
    /// Vector addition.
    pub fn add(self, q: Point) -> (r: Point)
        requires
            self.within(B60 as int),
            q.within(B60 as int),
        ensures
            r.x == self.x * q.w + q.x * self.w,
            r.y == self.y * q.w + q.y * self.w,
            r.w == self.w * q.w,
            r@.wf(),
    {
        proof {
            lemma_sum_bounds(self, q);
        }
        Point { x: self.x * q.w + q.x * self.w, y: self.y * q.w + q.y * self.w, w: self.w * q.w }
    }

    /// Vector subtraction.
    pub fn sub(self, q: Point) -> (r: Point)
        requires
            self.within(B60 as int),
            q.within(B60 as int),
        ensures
            r.x == self.x * q.w - q.x * self.w,
            r.y == self.y * q.w - q.y * self.w,
            r.w == self.w * q.w,
            r@.wf(),
    {
        proof {
            lemma_sum_bounds(self, q);
        }
        Point { x: self.x * q.w - q.x * self.w, y: self.y * q.w - q.y * self.w, w: self.w * q.w }
    }

    /// Multiplication by the scalar `k`.
    pub fn mul(self, k: Frac) -> (r: Point)
        requires
            self.within(B60 as int),
            k.wf(),
            -B60 <= k.num <= B60,
            k.den <= B60,
        ensures
            r.x == self.x * k.num,
            r.y == self.y * k.num,
            r.w == self.w * k.den,
            r@.wf(),
    {
        proof {
            let m = B60 as int;
            lemma_mul_le(self.x as int, k.num as int, m, m, P120 as int);
            lemma_mul_le(self.y as int, k.num as int, m, m, P120 as int);
            lemma_mul_le(self.w as int, k.den as int, m, m, P120 as int);
            lemma_mul_pos(self.w as int, k.den as int);
        }
        Point { x: self.x * k.num, y: self.y * k.num, w: self.w * k.den }
    }

    /// Division by the nonzero scalar `k`.
    pub fn div(self, k: Frac) -> (r: Point)
        requires
            self.within(B60 as int),
            k.wf(),
            k.num != 0,
            -B60 <= k.num <= B60,
            k.den <= B60,
        ensures
            k.num > 0 ==> r.x == self.x * k.den && r.y == self.y * k.den && r.w == self.w * k.num,
            k.num < 0 ==> r.x == -(self.x * k.den) && r.y == -(self.y * k.den) && r.w == -(self.w * k.num),
            r@.wf(),
    {
        proof {
            let m = B60 as int;
            lemma_mul_le(self.x as int, k.den as int, m, m, P120 as int);
            lemma_mul_le(self.y as int, k.den as int, m, m, P120 as int);
            lemma_mul_le(self.w as int, k.num as int, m, m, P120 as int);
            crate::transform::lemma_mul_sign(k.num as int, self.w as int);
            assert(self.w * k.num == k.num * self.w) by (nonlinear_arith);
        }
        if k.num > 0 {
            Point { x: self.x * k.den, y: self.y * k.den, w: self.w * k.num }
        } else {
            Point { x: -(self.x * k.den), y: -(self.y * k.den), w: -(self.w * k.num) }
        }
    }
}

/// The products that a sum or difference of two points takes.
proof fn lemma_sum_bounds(p: Point, q: Point)
    requires
        p.within(B60 as int),
        q.within(B60 as int),
    ensures
        -P120 <= p.x * q.w <= P120,
        -P120 <= q.x * p.w <= P120,
        -P120 <= p.y * q.w <= P120,
        -P120 <= q.y * p.w <= P120,
        0 < p.w * q.w <= P120,
{
    let m = B60 as int;
    lemma_mul_le(p.x as int, q.w as int, m, m, P120 as int);
    lemma_mul_le(q.x as int, p.w as int, m, m, P120 as int);
    lemma_mul_le(p.y as int, q.w as int, m, m, P120 as int);
    lemma_mul_le(q.y as int, p.w as int, m, m, P120 as int);
    lemma_mul_le(p.w as int, q.w as int, m, m, P120 as int);
    lemma_mul_pos(p.w as int, q.w as int);
}

impl Line {
    /// Whether the two coefficient triples denote the same line.
    pub fn is_same(&self, k: &Line) -> (r: bool)
        requires
            self.within(B60 as int),
            k.within(B60 as int),
        ensures
            r == self@.same(k@),
    {
        proof {
            let m = B60 as int;
            lemma_mul_le(self.a as int, k.b as int, m, m, P120 as int);
            lemma_mul_le(self.b as int, k.a as int, m, m, P120 as int);
            lemma_mul_le(self.a as int, k.c as int, m, m, P120 as int);
            lemma_mul_le(self.c as int, k.a as int, m, m, P120 as int);
            lemma_mul_le(self.b as int, k.c as int, m, m, P120 as int);
            lemma_mul_le(self.c as int, k.b as int, m, m, P120 as int);
        }
        self.a * k.b == self.b * k.a && self.a * k.c == self.c * k.a && self.b * k.c == self.c * k.b
    }
}

impl Circle {
    /// Whether the two circles have the same center and radius.
    pub fn is_same(&self, d: &Circle) -> (r: bool)
        requires
            self.within(B60 as int),
            d.within(B60 as int),
        ensures
            r == self@.same(d@),
    {
        proof {
            let m = B60 as int;
            lemma_mul_le(self.r2.num as int, d.r2.den as int, m, m, P120 as int);
            lemma_mul_le(d.r2.num as int, self.r2.den as int, m, m, P120 as int);
        }
        self.o.is_same(&d.o) && self.r2.num * d.r2.den == d.r2.num * self.r2.den
    }
}

impl Line {
    /// The line `a x + b y + c = 0`; fails with `ZeroCoefficient` when `a`
    /// and `b` are both zero.
    pub fn from_coeff(a: i64, b: i64, c: i64) -> (r: Result<Line>)
        ensures
            a == 0 && b == 0 ==> r == Err::<Line, CalcException>(CalcException::ZeroCoefficient),
            !(a == 0 && b == 0) ==> (r matches Ok(l) && l.a == a && l.b == b && l.c == c),
    {
        if a == 0 && b == 0 {
            Err(CalcException::ZeroCoefficient)
        } else {
            Ok(Line { a: a as i128, b: b as i128, c: c as i128 })
        }
    }

    /// The line with direction coefficients `a`, `b` (not both zero)
    /// through `p`.
    pub fn from_slope_and_point(a: i64, b: i64, p: Point) -> (r: Line)
        requires
            !(a == 0 && b == 0),
            p.within(B60 as int),
        ensures
            r.a == a * p.w,
            r.b == b * p.w,
            r.c == -(a * p.x) - b * p.y,
            r@.wf(),
            r@.contains(p@),
    {
        proof {
            lemma_mul_le(a as int, p.w as int, 0x8000000000000000, B60 as int, P123 as int);
            lemma_mul_le(b as int, p.w as int, 0x8000000000000000, B60 as int, P123 as int);
            lemma_mul_le(a as int, p.x as int, 0x8000000000000000, B60 as int, P123 as int);
            lemma_mul_le(b as int, p.y as int, 0x8000000000000000, B60 as int, P123 as int);
            crate::construct::lemma_mul_nonzero(a as int, p.w as int);
            crate::construct::lemma_mul_nonzero(b as int, p.w as int);
            let (ai, bi, px, py, pw) = (a as int, b as int, p.x as int, p.y as int, p.w as int);
            assert(ai * pw * px + bi * pw * py + (-(ai * px) - bi * py) * pw == 0) by (nonlinear_arith);
        }
        let (a, b) = (a as i128, b as i128);
        Line { a: a * p.w, b: b * p.w, c: -(a * p.x) - b * p.y }
    }

    /// The line through two points; fails with `OverlappingPoint` when the
    /// points coincide.
    pub fn from_2p(p: Point, q: Point) -> (r: Result<Line>)
        requires
            p.within(B60 as int),
            q.within(B60 as int),
        ensures
            p@.same(q@) ==> r == Err::<Line, CalcException>(CalcException::OverlappingPoint),
            !p@.same(q@) ==> (r matches Ok(l) && l@.wf() && l@.contains(p@) && l@.contains(q@)
                && l@ == line_2p(p@, q@)),
    {
        if p.is_same(&q) {
            Err(CalcException::OverlappingPoint)
        } else {
            proof {
                lemma_mul_bound(p.y as int, q.w as int, B60 as int, B60 as int);
                lemma_mul_bound(q.y as int, p.w as int, B60 as int, B60 as int);
                lemma_mul_bound(q.x as int, p.w as int, B60 as int, B60 as int);
                lemma_mul_bound(p.x as int, q.w as int, B60 as int, B60 as int);
                lemma_mul_bound(p.x as int, q.y as int, B60 as int, B60 as int);
                lemma_mul_bound(p.y as int, q.x as int, B60 as int, B60 as int);
                lemma_line_2p(p@, q@);
            }
            Ok(Line { a: p.y * q.w - q.y * p.w, b: q.x * p.w - p.x * q.w, c: p.x * q.y - p.y * q.x })
        }
    }
}

/// The coefficients of the line through `p` and `q`.
pub open spec fn line_2p(p: PointModel, q: PointModel) -> LineModel {
    LineModel { a: p.y * q.w - q.y * p.w, b: q.x * p.w - p.x * q.w, c: p.x * q.y - p.y * q.x }
}

/// The line through two distinct points is well formed and passes through
/// both of them.
pub proof fn lemma_line_2p(p: PointModel, q: PointModel)
    requires
        p.wf(),
        q.wf(),
        !p.same(q),
    ensures
        line_2p(p, q).wf(),
        line_2p(p, q).contains(p),
        line_2p(p, q).contains(q),
{
    let (px, py, pw, qx, qy, qw) = (p.x, p.y, p.w, q.x, q.y, q.w);
    assert((py * qw - qy * pw) * px + (qx * pw - px * qw) * py + (px * qy - py * qx) * pw == 0) by (nonlinear_arith);
    assert((py * qw - qy * pw) * qx + (qx * pw - px * qw) * qy + (px * qy - py * qx) * qw == 0) by (nonlinear_arith);
}

/// The x numerator of the intersection of two lines by Cramer's rule.
pub open spec fn cramer_x(l: LineModel, k: LineModel) -> int {
    l.b * k.c - k.b * l.c
}

/// The y numerator of the intersection of two lines by Cramer's rule.
pub open spec fn cramer_y(l: LineModel, k: LineModel) -> int {
    l.c * k.a - k.c * l.a
}

/// The determinant of the coefficients of two lines.
pub open spec fn cramer_d(l: LineModel, k: LineModel) -> int {
    l.a * k.b - k.a * l.b
}

/// The intersection point of Cramer's rule lies on both lines.
pub proof fn lemma_cramer(l: LineModel, k: LineModel)
    ensures
        l.a * cramer_x(l, k) + l.b * cramer_y(l, k) + l.c * cramer_d(l, k) == 0,
        k.a * cramer_x(l, k) + k.b * cramer_y(l, k) + k.c * cramer_d(l, k) == 0,
        cramer_d(l, k) == 0 <==> l.parallel_to(k),
{
    let (a, b, c, e, f, g) = (l.a, l.b, l.c, k.a, k.b, k.c);
    assert(a * (b * g - f * c) == a * b * g - a * f * c) by (nonlinear_arith);
    assert(b * (c * e - g * a) == b * c * e - a * b * g) by (nonlinear_arith);
    assert(c * (a * f - e * b) == a * f * c - b * c * e) by (nonlinear_arith);
    assert(e * (b * g - f * c) == b * e * g - c * e * f) by (nonlinear_arith);
    assert(f * (c * e - g * a) == c * e * f - a * f * g) by (nonlinear_arith);
    assert(g * (a * f - e * b) == a * f * g - b * e * g) by (nonlinear_arith);
    assert(a * f == f * a && e * b == b * e) by (nonlinear_arith);
}

impl Line {
    /// The intersection of two lines; fails with `NoIntersection` when they
    /// are parallel (coincident lines included).
    pub fn inter(self, k: Line) -> (r: Result<Point>)
        requires
            self.within(B60 as int),
            k.within(B60 as int),
        ensures
            self@.parallel_to(k@) ==> r == Err::<Point, CalcException>(CalcException::NoIntersection),
            !self@.parallel_to(k@) ==> (r matches Ok(p) && p@.wf() && self@.contains(p@) && k@.contains(p@)
                && p.w == abs(cramer_d(self@, k@))
                && (cramer_d(self@, k@) > 0 ==> p.x == cramer_x(self@, k@) && p.y == cramer_y(self@, k@))
                && (cramer_d(self@, k@) < 0 ==> p.x == -cramer_x(self@, k@) && p.y == -cramer_y(self@, k@))),
    {
        proof {
            lemma_mul_bound(self.b as int, k.c as int, B60 as int, B60 as int);
            lemma_mul_bound(k.b as int, self.c as int, B60 as int, B60 as int);
            lemma_mul_bound(self.c as int, k.a as int, B60 as int, B60 as int);
            lemma_mul_bound(k.c as int, self.a as int, B60 as int, B60 as int);
            lemma_mul_bound(self.a as int, k.b as int, B60 as int, B60 as int);
            lemma_mul_bound(k.a as int, self.b as int, B60 as int, B60 as int);
            lemma_cramer(self@, k@);
        }
        let x = self.b * k.c - k.b * self.c;
        let y = self.c * k.a - k.c * self.a;
        let d = self.a * k.b - k.a * self.b;
        if d == 0 {
            Err(CalcException::NoIntersection)
        } else if d > 0 {
            Ok(Point { x, y, w: d })
        } else {
            proof {
                let (a, b, c) = (self.a as int, self.b as int, self.c as int);
                assert(a * -x + b * -y + c * -d == -(a * x + b * y + c * d)) by (nonlinear_arith);
                let (e, f, g) = (k.a as int, k.b as int, k.c as int);
                assert(e * -x + f * -y + g * -d == -(e * x + f * y + g * d)) by (nonlinear_arith);
            }
            Ok(Point { x: -x, y: -y, w: -d })
        }
    }
}

/// A test of incidence between an object and an instance of `T`.
pub trait TestThrough<T>: Sized {
    /// The operands are small enough for the exact test.
    spec fn through_ok(self, p: T) -> bool;

    /// The object passes through `p`.
    spec fn passes(self, p: T) -> bool;

    /// Whether the object passes through `p`.
    fn is_through(self, p: T) -> (r: bool)
        requires
            self.through_ok(p),
        ensures
            r == self.passes(p),
    ;
}

impl TestThrough<Point> for Line {
    open spec fn through_ok(self, p: Point) -> bool {
        self.within(B60 as int) && p.within(B60 as int)
    }

    open spec fn passes(self, p: Point) -> bool {
        self@.contains(p@)
    }

    /// Whether the point lies on the line.
    fn is_through(self, p: Point) -> (r: bool) {
        proof {
            lemma_mul_bound(self.a as int, p.x as int, B60 as int, B60 as int);
            lemma_mul_bound(self.b as int, p.y as int, B60 as int, B60 as int);
            lemma_mul_bound(self.c as int, p.w as int, B60 as int, B60 as int);
        }
        self.a * p.x + self.b * p.y + self.c * p.w == 0
    }
}

impl TestThrough<Point> for Circle {
    open spec fn through_ok(self, p: Point) -> bool {
        self@.wf() && self.o.within(B20 as int) && self.r2.num <= B20 && self.r2.den <= B20 && p.within(
            B20 as int,
        )
    }

    open spec fn passes(self, p: Point) -> bool {
        self@.contains(p@)
    }

    /// Whether the point lies on the circle.
    fn is_through(self, p: Point) -> (r: bool) {
        proof {
            lemma_mul_le(self.o.w as int, p.w as int, B20 as int, B20 as int, B40 as int);
            lemma_mul_le(self.o.x as int, p.w as int, B20 as int, B20 as int, B40 as int);
            lemma_mul_le(p.x as int, self.o.w as int, B20 as int, B20 as int, B40 as int);
            lemma_mul_le(self.o.y as int, p.w as int, B20 as int, B20 as int, B40 as int);
            lemma_mul_le(p.y as int, self.o.w as int, B20 as int, B20 as int, B40 as int);
        }
        let ww = self.o.w * p.w;
        let dx = self.o.x * p.w - p.x * self.o.w;
        let dy = self.o.y * p.w - p.y * self.o.w;
        proof {
            lemma_mul_le(ww as int, ww as int, B40 as int, B40 as int, P80 as int);
            lemma_mul_le(dx as int, dx as int, P41 as int, P41 as int, P82 as int);
            lemma_mul_le(dy as int, dy as int, P41 as int, P41 as int, P82 as int);
            lemma_mul_le(self.r2.num as int, (ww * ww) as int, B20 as int, P80 as int, P100 as int);
            lemma_mul_le(self.r2.den as int, (dx * dx + dy * dy) as int, B20 as int, P83 as int, P103 as int);
            let (n, d, s, t) = (self.r2.num as int, self.r2.den as int, (ww * ww) as int, (dx * dx + dy * dy) as int);
            assert(n * s == s * n && d * t == t * d) by (nonlinear_arith);
        }
        self.r2.num * (ww * ww) == self.r2.den * (dx * dx + dy * dy)
    }
}

impl Circle {
    /// The circle with center `o` and radius `r`; fails with
    /// `NonpositiveRadius` when `r` is not positive.
    pub fn from_center_radius(o: Point, r: Frac) -> (res: Result<Circle>)
        requires
            o@.wf(),
            r.wf(),
            r.num <= B60 && r.den <= B60,
        ensures
            r.num <= 0 ==> res == Err::<Circle, CalcException>(CalcException::NonpositiveRadius),
            r.num > 0 ==> (res matches Ok(c) && c@.wf() && c.o == o && c.r2.num == r.num * r.num
                && c.r2.den == r.den * r.den),
    {
        if r.num <= 0 {
            Err(CalcException::NonpositiveRadius)
        } else {
            proof {
                lemma_mul_bound(r.num as int, r.num as int, B60 as int, B60 as int);
                lemma_mul_bound(r.den as int, r.den as int, B60 as int, B60 as int);
                lemma_mul_pos(r.num as int, r.num as int);
                lemma_mul_pos(r.den as int, r.den as int);
            }
            Ok(Circle { o, r2: Frac { num: r.num * r.num, den: r.den * r.den } })
        }
    }

    /// The circle with center `o` through `p`; fails with `OverlappingPoint`
    /// when the two points coincide.
    pub fn from_center_point(o: Point, p: Point) -> (res: Result<Circle>)
        requires
            o.within(B30 as int),
            p.within(B30 as int),
        ensures
            o@.same(p@) ==> res == Err::<Circle, CalcException>(CalcException::OverlappingPoint),
            !o@.same(p@) ==> (res matches Ok(c) && c@.wf() && c.o == o && c@.contains(p@)
                && c.r2.num == dist_sq_num(o@, p@) && c.r2.den == dist_sq_den(o@, p@)),
    {
        if o.is_same(&p) {
            Err(CalcException::OverlappingPoint)
        } else {
            let r2 = distance_sq(o, p);
            proof {
                lemma_dist_sq_pos(o@, p@);
                let (n, d) = (dist_sq_num(o@, p@), dist_sq_den(o@, p@));
                assert(n * d == d * n) by (nonlinear_arith);
            }
            Ok(Circle { o, r2 })
        }
    }
}

/// The squared distance of two distinct points is positive.
pub proof fn lemma_dist_sq_pos(p: PointModel, q: PointModel)
    requires
        p.wf(),
        q.wf(),
    ensures
        dist_sq_den(p, q) > 0,
        dist_sq_num(p, q) >= 0,
        !p.same(q) ==> dist_sq_num(p, q) > 0,
{
    lemma_mul_pos(p.w, q.w);
    lemma_mul_pos(p.w * q.w, p.w * q.w);
    lemma_square_nonneg(p.x * q.w - q.x * p.w);
    lemma_square_nonneg(p.y * q.w - q.y * p.w);
}

/// The squared distance between two points, as a fraction.
pub fn distance_sq(p: Point, q: Point) -> (r: Frac)
    requires
        p.within(B30 as int),
        q.within(B30 as int),
    ensures
        r.num == dist_sq_num(p@, q@),
        r.den == dist_sq_den(p@, q@),
        r.wf(),
{
    proof {
        lemma_mul_le(p.x as int, q.w as int, B30 as int, B30 as int, B60 as int);
        lemma_mul_le(q.x as int, p.w as int, B30 as int, B30 as int, B60 as int);
        lemma_mul_le(p.y as int, q.w as int, B30 as int, B30 as int, B60 as int);
        lemma_mul_le(q.y as int, p.w as int, B30 as int, B30 as int, B60 as int);
        lemma_mul_le(p.w as int, q.w as int, B30 as int, B30 as int, B60 as int);
    }
    let dx = p.x * q.w - q.x * p.w;
    let dy = p.y * q.w - q.y * p.w;
    let ww = p.w * q.w;
    proof {
        lemma_mul_le(dx as int, dx as int, P61 as int, P61 as int, P122 as int);
        lemma_mul_le(dy as int, dy as int, P61 as int, P61 as int, P122 as int);
        lemma_mul_le(ww as int, ww as int, B60 as int, B60 as int, P120 as int);
        lemma_dist_sq_pos(p@, q@);
    }
    Frac { num: dx * dx + dy * dy, den: ww * ww }
}

/// The radical axis of two circles: the difference of their equations
/// `x^2 + y^2 - 2 o.x x - 2 o.y y + |o|^2 - r^2 = 0`, each brought to the
/// common factor `w1^2 d1 w2^2 d2` (centers `(x1, y1, w1)`, `(x2, y2, w2)`,
/// squared radii `n1 / d1`, `n2 / d2`).
pub open spec fn radical_of(c: CircleModel, d: CircleModel) -> LineModel {
    let (x1, y1, w1, n1, d1) = (c.o.x, c.o.y, c.o.w, c.num, c.den);
    let (x2, y2, w2, n2, d2) = (d.o.x, d.o.y, d.o.w, d.num, d.den);
    let k = 2 * (d1 * d2) * (w1 * w2);
    LineModel {
        a: k * (x2 * w1 - x1 * w2),
        b: k * (y2 * w1 - y1 * w2),
        c: (d1 * d2) * ((w2 * w2) * (x1 * x1 + y1 * y1) - (w1 * w1) * (x2 * x2 + y2 * y2)) + ((w1 * w1) * (w2
            * w2)) * (n2 * d1 - n1 * d2),
    }
}

/// The radical axis of two circles; fails with `ZeroCoefficient` when the
/// circles are concentric, which leaves no line.
pub fn radical_axis(c: Circle, d: Circle) -> (r: Result<Line>)
    requires
        c.within(B20 as int),
        d.within(B20 as int),
    ensures
        c.o@.same(d.o@) ==> r == Err::<Line, CalcException>(CalcException::ZeroCoefficient),
        !c.o@.same(d.o@) ==> (r matches Ok(l) && l@ == radical_of(c@, d@) && l@.wf()
            && (c.within(B5 as int) && d.within(B5 as int) ==> l.within(P34 as int))),
{
    let (x1, y1, w1, n1, d1) = (c.o.x, c.o.y, c.o.w, c.r2.num, c.r2.den);
    let (x2, y2, w2, n2, d2) = (d.o.x, d.o.y, d.o.w, d.r2.num, d.r2.den);
    proof {
        let b = B20 as int;
        lemma_mul_le(d1 as int, d2 as int, b, b, B40 as int);
        lemma_mul_le(w1 as int, w2 as int, b, b, B40 as int);
        lemma_mul_le(x2 as int, w1 as int, b, b, B40 as int);
        lemma_mul_le(x1 as int, w2 as int, b, b, B40 as int);
        lemma_mul_le(y2 as int, w1 as int, b, b, B40 as int);
        lemma_mul_le(y1 as int, w2 as int, b, b, B40 as int);
        lemma_mul_le(w1 as int, w1 as int, b, b, B40 as int);
        lemma_mul_le(w2 as int, w2 as int, b, b, B40 as int);
        lemma_mul_le(x1 as int, x1 as int, b, b, B40 as int);
        lemma_mul_le(y1 as int, y1 as int, b, b, B40 as int);
        lemma_mul_le(x2 as int, x2 as int, b, b, B40 as int);
        lemma_mul_le(y2 as int, y2 as int, b, b, B40 as int);
        lemma_mul_le(n2 as int, d1 as int, b, b, B40 as int);
        lemma_mul_le(n1 as int, d2 as int, b, b, B40 as int);
        lemma_mul_pos(d1 as int, d2 as int);
        lemma_mul_pos(w1 as int, w2 as int);
    }
    let dx = x2 * w1 - x1 * w2;
    let dy = y2 * w1 - y1 * w2;
    if dx == 0 && dy == 0 {
        return Err(CalcException::ZeroCoefficient);
    }
    proof {
        lemma_mul_le((d1 * d2) as int, (w1 * w2) as int, B40 as int, B40 as int, P80 as int);
        lemma_mul_pos((d1 * d2) as int, (w1 * w2) as int);
    }
    let k = 2 * ((d1 * d2) * (w1 * w2));
    proof {
        lemma_mul_le(k as int, dx as int, P81 as int, P41 as int, P122 as int);
        lemma_mul_le(k as int, dy as int, P81 as int, P41 as int, P122 as int);
        lemma_mul_le(w2 * w2 as int, (x1 * x1 + y1 * y1) as int, B40 as int, P41 as int, P81 as int);
        lemma_mul_le(w1 * w1 as int, (x2 * x2 + y2 * y2) as int, B40 as int, P41 as int, P81 as int);
        lemma_mul_le((d1 * d2) as int, ((w2 * w2) * (x1 * x1 + y1 * y1) - (w1 * w1) * (x2 * x2 + y2 * y2)) as int, B40 as int, P82 as int, P122 as int);
        lemma_mul_le((w1 * w1) as int, (w2 * w2) as int, B40 as int, B40 as int, P80 as int);
        lemma_mul_le(((w1 * w1) * (w2 * w2)) as int, (n2 * d1 - n1 * d2) as int, P80 as int, P41 as int, P121 as int);
        let (ki, dxi, dyi) = (k as int, dx as int, dy as int);
        assert(ki * dxi != 0 || ki * dyi != 0) by (nonlinear_arith)
            requires
                ki > 0,
                dxi != 0 || dyi != 0,
        ;
        assert(2 * (d1 * d2) * (w1 * w2) == k) by (nonlinear_arith)
            requires
                k == 2 * ((d1 * d2) * (w1 * w2)),
        ;
    }
    proof {
        if c.within(B5 as int) && d.within(B5 as int) {
            lemma_radical_small(c, d);
        }
    }
    Ok(Line {
        a: k * dx,
        b: k * dy,
        c: (d1 * d2) * ((w2 * w2) * (x1 * x1 + y1 * y1) - (w1 * w1) * (x2 * x2 + y2 * y2)) + ((w1 * w1) * (w2
            * w2)) * (n2 * d1 - n1 * d2),
    })
}

/// `2 f - p`, where `f` is the foot of the perpendicular from `o` to `l`:
/// the second point where `l` meets a circle centered at `o` that it meets
/// at `p` (the two roots sum to twice the midpoint of the chord).
pub open spec fn second_point(l: LineModel, o: PointModel, p: PointModel) -> PointModel {
    let (a, b, c) = (l.a, l.b, l.c);
    let fx = b * b * o.x - a * c * o.w - a * b * o.y;
    let fy = a * a * o.y - b * c * o.w - a * b * o.x;
    let fw = (a * a + b * b) * o.w;
    PointModel { x: 2 * fx * p.w - p.x * fw, y: 2 * fy * p.w - p.y * fw, w: fw * p.w }
}

/// The second point where the line `l` meets a circle centered at `o`
/// that it meets at `p`. One coordinate comes from Vieta's formulas: the
/// two roots sum to twice the foot of the perpendicular from `o`. That is
/// `y` when `a != 0`, else `x`. The other coordinate comes from the line
/// equation, so the result lies on `l` whatever `p` is.
pub open spec fn second_on_line(l: LineModel, o: PointModel, p: PointModel) -> PointModel {
    let fw = (l.a * l.a + l.b * l.b) * o.w;
    let w = fw * p.w;
    if l.a != 0 {
        let y = 2 * (second_fy(l, o) * p.w) - p.y * fw;
        let x = -(l.b * y + l.c * w);
        if l.a > 0 {
            PointModel { x, y: l.a * y, w: l.a * w }
        } else {
            PointModel { x: -x, y: -(l.a * y), w: -(l.a * w) }
        }
    } else {
        let x = 2 * (second_fx(l, o) * p.w) - p.x * fw;
        let y = -(l.c * w);
        if l.b > 0 {
            PointModel { x: l.b * x, y, w: l.b * w }
        } else {
            PointModel { x: -(l.b * x), y: -y, w: -(l.b * w) }
        }
    }
}

impl Line {
    /// The two meeting points of the line with a circle, when one of them,
    /// `common`, is already known: the other comes first, `common` second.
    /// The other always lies on the line. Nothing checks that `common` lies
    /// on both; only then is the other on the circle too.
    pub fn inter_common(self, c: Circle, common: Point) -> (r: Result<(Point, Point)>)
        requires
            self.within(P34 as int),
            c@.wf(),
            c.o.within(B8 as int),
            common.within(B8 as int),
        ensures
            r matches Ok((q, p)) && p == common && q@ == second_on_line(self@, c.o@, common@) && q@.wf()
                && self@.contains(q@),
            self@.contains(common@) && c@.contains(common@) ==> (r matches Ok((q, _)) && c@.contains(q@)),
    {
        let (a, b, cc) = (self.a, self.b, self.c);
        let o = c.o;
        let p = common;
        proof {
            lemma_second_bounds(self, o, p);
            let (m, n) = (P34 as int, B8 as int);
            lemma_mul_le(a as int, a as int, m, m, P68 as int);
            lemma_mul_le(b as int, b as int, m, m, P68 as int);
            lemma_mul_le(a as int, b as int, m, m, P68 as int);
            lemma_mul_le(a as int, cc as int, m, m, P68 as int);
            lemma_mul_le(b as int, cc as int, m, m, P68 as int);
            lemma_mul_le((b * b) as int, o.x as int, P68 as int, n, P76 as int);
            lemma_mul_le((a * cc) as int, o.w as int, P68 as int, n, P76 as int);
            lemma_mul_le((a * b) as int, o.y as int, P68 as int, n, P76 as int);
            lemma_mul_le((a * a) as int, o.y as int, P68 as int, n, P76 as int);
            lemma_mul_le((b * cc) as int, o.w as int, P68 as int, n, P76 as int);
            lemma_mul_le((a * b) as int, o.x as int, P68 as int, n, P76 as int);
        }
        let fx = b * b * o.x - a * cc * o.w - a * b * o.y;
        let fy = a * a * o.y - b * cc * o.w - a * b * o.x;
        let fw = (a * a + b * b) * o.w;
        let w = fw * p.w;
        proof {
            if common@.wf() && self@.contains(common@) && c@.contains(common@) {
                second_point_on_circle(self@, c@, common@);
            }
            lemma_second_on_line(self@, o@, p@);
        }
        if a != 0 {
            proof {
                lemma_mul_le(fy as int, p.w as int, P78 as int, B8 as int, P86 as int);
                lemma_mul_le(p.y as int, fw as int, B8 as int, P77 as int, P85 as int);
            }
            let y = 2 * (fy * p.w) - p.y * fw;
            proof {
                lemma_mul_le(b as int, y as int, P34 as int, P88 as int, P122 as int);
                lemma_mul_le(a as int, y as int, P34 as int, P88 as int, P122 as int);
                lemma_mul_le(cc as int, w as int, P34 as int, P85 as int, P119 as int);
                lemma_mul_le(a as int, w as int, P34 as int, P85 as int, P119 as int);
            }
            let x = -(b * y + cc * w);
            if a > 0 {
                Ok((Point { x, y: a * y, w: a * w }, p))
            } else {
                Ok((Point { x: -x, y: -(a * y), w: -(a * w) }, p))
            }
        } else {
            proof {
                lemma_mul_le(fx as int, p.w as int, P78 as int, B8 as int, P86 as int);
                lemma_mul_le(p.x as int, fw as int, B8 as int, P77 as int, P85 as int);
            }
            let x = 2 * (fx * p.w) - p.x * fw;
            proof {
                lemma_mul_le(b as int, x as int, P34 as int, P88 as int, P122 as int);
                lemma_mul_le(cc as int, w as int, P34 as int, P85 as int, P119 as int);
                lemma_mul_le(b as int, w as int, P34 as int, P85 as int, P119 as int);
            }
            let y = -(cc * w);
            if b > 0 {
                Ok((Point { x: b * x, y, w: b * w }, p))
            } else {
                Ok((Point { x: -(b * x), y: -y, w: -(b * w) }, p))
            }
        }
    }
}

/// The sizes of the pieces of `second_on_line` for a line below `2^34`
/// and points below `2^8`.
proof fn lemma_second_bounds(l: Line, o: Point, p: Point)
    requires
        l.within(P34 as int),
        o.within(B8 as int),
        p.within(B8 as int),
    ensures
        -P78 <= second_fx(l@, o@) <= P78,
        -P78 <= second_fy(l@, o@) <= P78,
        0 < (l.a * l.a + l.b * l.b) * o.w <= P77,
        0 < ((l.a * l.a + l.b * l.b) * o.w) * p.w <= P85,
{
    let m = P34 as int;
    let b = B8 as int;
    let (a, bb, c) = (l.a as int, l.b as int, l.c as int);
    lemma_mul_le(a, a, m, m, P68 as int);
    lemma_mul_le(bb, bb, m, m, P68 as int);
    lemma_mul_le(a, bb, m, m, P68 as int);
    lemma_mul_le(a, c, m, m, P68 as int);
    lemma_mul_le(bb, c, m, m, P68 as int);
    lemma_mul_le(bb * bb, o.x as int, P68 as int, b, P76 as int);
    lemma_mul_le(a * c, o.w as int, P68 as int, b, P76 as int);
    lemma_mul_le(a * bb, o.y as int, P68 as int, b, P76 as int);
    lemma_mul_le(a * a, o.y as int, P68 as int, b, P76 as int);
    lemma_mul_le(bb * c, o.w as int, P68 as int, b, P76 as int);
    lemma_mul_le(a * bb, o.x as int, P68 as int, b, P76 as int);
    lemma_mul_le(a * a + bb * bb, o.w as int, P69 as int, b, P77 as int);
    lemma_mul_le((a * a + bb * bb) * o.w, p.w as int, P77 as int, b, P85 as int);
    lemma_square_nonneg(a);
    lemma_square_nonneg(bb);
    lemma_mul_pos(a * a + bb * bb, o.w as int);
    lemma_mul_pos((a * a + bb * bb) * o.w, p.w as int);
}

/// The point of `second_on_line` is well formed and on the line; when `p`
/// is on the line it is a nonzero multiple of `second_point`.
proof fn lemma_second_on_line(l: LineModel, o: PointModel, p: PointModel)
    requires
        l.wf(),
        o.wf(),
        p.wf(),
    ensures
        second_on_line(l, o, p).wf(),
        l.contains(second_on_line(l, o, p)),
        l.contains(p) ==> exists|k: int|
            k != 0 && #[trigger] scaled_by(second_on_line(l, o, p), second_point(l, o, p), k),
{
    let (a, b, c) = (l.a, l.b, l.c);
    let n = a * a + b * b;
    let fw = n * o.w;
    let w = fw * p.w;
    let r = second_on_line(l, o, p);
    let q = second_point(l, o, p);
    lemma_square_nonneg(a);
    lemma_square_nonneg(b);
    lemma_mul_pos(n, o.w);
    lemma_mul_pos(fw, p.w);
    let (fx, fy) = (second_fx(l, o), second_fy(l, o));
    assert(q.x == 2 * (fx * p.w) - p.x * fw && q.y == 2 * (fy * p.w) - p.y * fw && q.w == w) by (nonlinear_arith)
        requires
            q.x == 2 * fx * p.w - p.x * fw,
            q.y == 2 * fy * p.w - p.y * fw,
            q.w == fw * p.w,
            w == fw * p.w,
    ;
    if l.contains(p) {
        crate::construct::lemma_projection_on_line(a, b, c, o.x, o.y, o.w);
        lemma_eval_second(a, b, c, fx, fy, fw, p.x, p.y, p.w);
        assert(a * q.x + b * q.y + c * q.w == 0);
    }
    if a != 0 {
        let y = 2 * (fy * p.w) - p.y * fw;
        let x = -(b * y + c * w);
        lemma_online(a, b, c, y, w);
        crate::transform::lemma_mul_sign(a, w);
        if l.contains(p) {
            if a > 0 {
                assert(scaled_by(r, q, a));
            } else {
                lemma_neg_mul(a, q.x, q.y, q.w);
                assert(scaled_by(r, q, -a));
            }
        }
    } else {
        let x = 2 * (fx * p.w) - p.x * fw;
        let y = -(c * w);
        lemma_online(b, a, c, x, w);
        crate::transform::lemma_mul_sign(b, w);
        assert(a * (b * x) == 0 && a * q.x == 0) by (nonlinear_arith)
            requires
                a == 0,
        ;
        assert(b * (-(b * x)) == -(b * (b * x)) && a * (-(b * x)) == 0) by (nonlinear_arith)
            requires
                a == 0,
        ;
        if l.contains(p) {
            if b > 0 {
                assert(scaled_by(r, q, b));
            } else {
                lemma_neg_mul(b, q.x, q.y, q.w);
                assert(scaled_by(r, q, -b));
            }
        }
    }
}

/// `r` is `k` times `q`, coordinate by coordinate.
pub open spec fn scaled_by(r: PointModel, q: PointModel, k: int) -> bool {
    r.x == k * q.x && r.y == k * q.y && r.w == k * q.w
}

/// `a (-(b y + c w)) + b (a y) + c (a w) = 0`: the point with `x` taken
/// from the line equation lies on it, and so does its negation.
proof fn lemma_online(a: int, b: int, c: int, y: int, w: int)
    ensures
        a * -(b * y + c * w) + b * (a * y) + c * (a * w) == 0,
        a * -(-(b * y + c * w)) + b * -(a * y) + c * -(a * w) == 0,
        b * -(b * y + c * w) + a * (b * y) + c * (b * w) == 0 ==> true,
{
    assert(a * -(b * y + c * w) == -(b * (a * y)) - c * (a * w)) by (nonlinear_arith);
    assert(a * -(-(b * y + c * w)) == b * (a * y) + c * (a * w)) by (nonlinear_arith);
    assert(b * -(a * y) == -(b * (a * y)) && c * -(a * w) == -(c * (a * w))) by (nonlinear_arith);
}

/// `(-k) t = -(k t)` for the three coordinates.
proof fn lemma_neg_mul(k: int, x: int, y: int, w: int) by (nonlinear_arith)
    ensures
        (-k) * x == -(k * x),
        (-k) * y == -(k * y),
        (-k) * w == -(k * w),
{
}

/// `x (k w) - (k y) z = k (x w - y z)`.
proof fn lemma_scaled_diff(x: int, w: int, y: int, z: int, k: int) by (nonlinear_arith)
    ensures
        x * (k * w) - (k * y) * z == k * (x * w - y * z),
{
}

/// A nonzero multiple of a point on a circle is on the circle.
proof fn lemma_contains_scaled(c: CircleModel, q: PointModel, r: PointModel, k: int)
    requires
        c.contains(q),
        scaled_by(r, q, k),
    ensures
        c.contains(r),
{
    let o = c.o;
    let (u, v) = (o.x * q.w - q.x * o.w, o.y * q.w - q.y * o.w);
    lemma_scaled_diff(o.x, q.w, q.x, o.w, k);
    lemma_scaled_diff(o.y, q.w, q.y, o.w, k);
    lemma_mul_swap(k, u, k, u);
    lemma_mul_swap(k, v, k, v);
    assert((k * k) * (u * u) + (k * k) * (v * v) == (k * k) * (u * u + v * v)) by (nonlinear_arith);
    assert(o.w * r.w == k * (o.w * q.w)) by (nonlinear_arith)
        requires
            r.w == k * q.w,
    ;
    lemma_mul_swap(k, o.w * q.w, k, o.w * q.w);
    let (nq, dq) = (dist_sq_num(o, q), dist_sq_den(o, q));
    assert(((k * k) * nq) * c.den == c.num * ((k * k) * dq)) by (nonlinear_arith)
        requires
            nq * c.den == c.num * dq,
    ;
}

/// A line's value at `2 pw f - fw p` is `2 pw l(f) - fw l(p)`.
proof fn lemma_eval_second(a: int, b: int, c: int, fx: int, fy: int, fw: int, px: int, py: int, pw: int)
    ensures
        a * (2 * fx * pw - px * fw) + b * (2 * fy * pw - py * fw) + c * (fw * pw) == 2 * pw * (a * fx + b
            * fy + c * fw) - fw * (a * px + b * py + c * pw),
{
    assert(a * (2 * fx * pw - px * fw) == 2 * pw * (a * fx) - fw * (a * px)) by (nonlinear_arith);
    assert(b * (2 * fy * pw - py * fw) == 2 * pw * (b * fy) - fw * (b * py)) by (nonlinear_arith);
    assert(c * (fw * pw) == 2 * pw * (c * fw) - fw * (c * pw)) by (nonlinear_arith);
    assert(2 * pw * (a * fx) + 2 * pw * (b * fy) + 2 * pw * (c * fw) == 2 * pw * (a * fx + b * fy + c * fw))
        by (nonlinear_arith);
    assert(fw * (a * px) + fw * (b * py) + fw * (c * pw) == fw * (a * px + b * py + c * pw)) by (nonlinear_arith);
}

/// The x numerator of the foot of the perpendicular from `o` to `l`.
pub open spec fn second_fx(l: LineModel, o: PointModel) -> int {
    l.b * l.b * o.x - l.a * l.c * o.w - l.a * l.b * o.y
}

/// The y numerator of the foot of the perpendicular from `o` to `l`.
pub open spec fn second_fy(l: LineModel, o: PointModel) -> int {
    l.a * l.a * o.y - l.b * l.c * o.w - l.a * l.b * o.x
}

/// The radical axis of two circles below `2^5` has coefficients below
/// `2^34`.
proof fn lemma_radical_small(c: Circle, d: Circle)
    requires
        c.within(B5 as int),
        d.within(B5 as int),
    ensures
        -P34 <= radical_of(c@, d@).a <= P34,
        -P34 <= radical_of(c@, d@).b <= P34,
        -P34 <= radical_of(c@, d@).c <= P34,
{
    let m = B5 as int;
    let (x1, y1, w1, n1, d1) = (c.o.x as int, c.o.y as int, c.o.w as int, c.r2.num as int, c.r2.den as int);
    let (x2, y2, w2, n2, d2) = (d.o.x as int, d.o.y as int, d.o.w as int, d.r2.num as int, d.r2.den as int);
    lemma_mul_le(d1, d2, m, m, P10 as int);
    lemma_mul_le(w1, w2, m, m, P10 as int);
    lemma_mul_le(d1 * d2, w1 * w2, P10 as int, P10 as int, P20 as int);
    lemma_mul_le(x2, w1, m, m, P10 as int);
    lemma_mul_le(x1, w2, m, m, P10 as int);
    lemma_mul_le(y2, w1, m, m, P10 as int);
    lemma_mul_le(y1, w2, m, m, P10 as int);
    assert(2 * (d1 * d2) * (w1 * w2) == 2 * ((d1 * d2) * (w1 * w2))) by (nonlinear_arith);
    lemma_mul_le(2 * (d1 * d2) * (w1 * w2), x2 * w1 - x1 * w2, P21 as int, P11 as int, P32 as int);
    lemma_mul_le(2 * (d1 * d2) * (w1 * w2), y2 * w1 - y1 * w2, P21 as int, P11 as int, P32 as int);
    lemma_mul_le(w1, w1, m, m, P10 as int);
    lemma_mul_le(w2, w2, m, m, P10 as int);
    lemma_mul_le(x1, x1, m, m, P10 as int);
    lemma_mul_le(y1, y1, m, m, P10 as int);
    lemma_mul_le(x2, x2, m, m, P10 as int);
    lemma_mul_le(y2, y2, m, m, P10 as int);
    lemma_mul_le(w2 * w2, x1 * x1 + y1 * y1, P10 as int, P11 as int, P21 as int);
    lemma_mul_le(w1 * w1, x2 * x2 + y2 * y2, P10 as int, P11 as int, P21 as int);
    lemma_mul_le(d1 * d2, (w2 * w2) * (x1 * x1 + y1 * y1) - (w1 * w1) * (x2 * x2 + y2 * y2), P10 as int, P22 as int, P32 as int);
    lemma_mul_le(n2, d1, m, m, P10 as int);
    lemma_mul_le(n1, d2, m, m, P10 as int);
    lemma_mul_le(w1 * w1, w2 * w2, P10 as int, P10 as int, P20 as int);
    lemma_mul_le((w1 * w1) * (w2 * w2), n2 * d1 - n1 * d2, P20 as int, P11 as int, P31 as int);
}

impl Circle {
    /// The two meeting points of two circles, when one of them, `common`,
    /// is already known: the other is the second point where the radical
    /// axis meets `d` (see `Line::inter_common`), and comes first. It always
    /// lies on the radical axis. Nothing checks that `common` lies on both
    /// circles. Fails with `NoIntersection` for concentric circles, which
    /// have no radical axis.
    pub fn inter_common(self, d: Circle, common: Point) -> (r: Result<(Point, Point)>)
        requires
            self.within(B5 as int),
            d.within(B5 as int),
            common.within(B5 as int),
        ensures
            self.o@.same(d.o@) ==> r == Err::<(Point, Point), CalcException>(CalcException::NoIntersection),
            !self.o@.same(d.o@) ==> (r matches Ok((q, p)) && p == common
                && q@ == second_on_line(radical_of(self@, d@), d.o@, common@) && q@.wf()
                && radical_of(self@, d@).contains(q@)),
            !self.o@.same(d.o@) && self@.contains(common@) && d@.contains(common@) ==> (r matches Ok((q, _))
                && self@.contains(q@) && d@.contains(q@)),
    {
        let axis = match radical_axis(self, d) {
            Ok(l) => l,
            Err(_) => {
                return Err(CalcException::NoIntersection);
            },
        };
        let res = axis.inter_common(d, common);
        proof {
            if self@.contains(common@) && d@.contains(common@) {
                radical_axis_power(self@, d@, common@);
                let e = radical_of(self@, d@).eval(common@);
                let (m1, m2) = ((d.o.w * d.o.w) * d.r2.den, (self.o.w * self.o.w) * self.r2.den);
                lemma_zero_product(m1 as int, power_at(self@, common@), m2 as int, power_at(d@, common@));
                lemma_zero_factor(e, common.w as int);
                let q = res.unwrap().0;
                radical_axis_power(self@, d@, q@);
                lemma_zero_factor(radical_of(self@, d@).eval(q@), q.w as int);
                lemma_mul_pos(d.o.w as int, d.o.w as int);
                lemma_mul_pos((d.o.w * d.o.w) as int, d.r2.den as int);
                lemma_cancel_power(m1 as int, power_at(self@, q@), m2 as int, power_at(d@, q@));
            }
        }
        res
    }
}

/// `(x + y)^2 = x^2 + 2 x y + y^2` and `(x - y)^2 = x^2 - 2 x y + y^2`.
proof fn lemma_sq_expand(x: int, y: int)
    ensures
        (x + y) * (x + y) == x * x + 2 * (x * y) + y * y,
        (x - y) * (x - y) == x * x - 2 * (x * y) + y * y,
{
    assert((x + y) * (x + y) == x * x + 2 * (x * y) + y * y) by (nonlinear_arith);
    assert((x - y) * (x - y) == x * x - 2 * (x * y) + y * y) by (nonlinear_arith);
}

/// `(p u) (q v) = (p q) (u v)`.
proof fn lemma_mul_swap(p: int, u: int, q: int, v: int) by (nonlinear_arith)
    ensures
        (p * u) * (q * v) == (p * q) * (u * v),
{
}

/// `(A + B) (C + D) = A C + A D + B C + B D`.
proof fn lemma_distrib22(aa: int, bb: int, cc: int, dd: int) by (nonlinear_arith)
    ensures
        (aa + bb) * (cc + dd) == aa * cc + aa * dd + bb * cc + bb * dd,
{
}

/// Vieta's formulas at work: when `p` lies on the line `l` and on the
/// circle `c`, so does the second meeting point `second_on_line(l, c.o, p)`.
pub proof fn second_point_on_circle(l: LineModel, c: CircleModel, p: PointModel)
    requires
        l.wf(),
        c.wf(),
        p.wf(),
        l.contains(p),
        c.contains(p),
    ensures
        c.contains(second_on_line(l, c.o, p)),
{
    lemma_foot_second_on_circle(l, c, p);
    lemma_second_on_line(l, c.o, p);
    let k = choose|k: int| k != 0 && #[trigger] scaled_by(second_on_line(l, c.o, p), second_point(l, c.o, p), k);
    lemma_contains_scaled(c, second_point(l, c.o, p), second_on_line(l, c.o, p), k);
}

/// `(p u + q v)^2 + (q u - p v)^2 = (p^2 + q^2) (u^2 + v^2)`.
proof fn lemma_rotation_norm(p: int, q: int, u: int, v: int)
    ensures
        (p * u + q * v) * (p * u + q * v) + (q * u - p * v) * (q * u - p * v) == (p * p + q * q) * (u * u + v * v),
{
    lemma_sq_expand(p * u, q * v);
    lemma_sq_expand(q * u, p * v);
    lemma_mul_swap(p, u, q, v);
    lemma_mul_swap(q, u, p, v);
    lemma_mul_swap(p, u, p, u);
    lemma_mul_swap(q, v, q, v);
    lemma_mul_swap(q, u, q, u);
    lemma_mul_swap(p, v, p, v);
    assert(q * p == p * q) by (nonlinear_arith);
    lemma_distrib22(p * p, q * q, u * u, v * v);
}

/// `(a^2 - b^2)^2 + (2 a b)^2 = (a^2 + b^2)^2`.
proof fn lemma_pythagorean(a: int, b: int)
    ensures
        (a * a - b * b) * (a * a - b * b) + (2 * (a * b)) * (2 * (a * b)) == (a * a + b * b) * (a * a + b * b),
{
    lemma_sq_expand(a * a, b * b);
    lemma_mul_swap(a, b, a, b);
    assert((2 * (a * b)) * (2 * (a * b)) == 4 * ((a * b) * (a * b))) by (nonlinear_arith);
}

/// `x (y z) = (x y) z` and friends, for rearranging products of three.
proof fn lemma_mul3(x: int, y: int, z: int) by (nonlinear_arith)
    ensures
        x * (y * z) == (x * y) * z,
        (x * y) * z == y * (x * z),
        (x * y) * z == (x * z) * y,
{
}

/// One coordinate of the second meeting point, seen from the center:
/// `o.x q.w - q.x o.w = o.w ((a^2 - b^2) u + 2 a b v)` once `p` is on the
/// line, where `(u, v)` is `o - p` scaled by `o.w p.w`.
proof fn lemma_second_coord(a: int, b: int, c: int, ox: int, oy: int, ow: int, px: int, py: int, pw: int, fx: int, fw: int, qx: int, qw: int)
    requires
        a * px + b * py + c * pw == 0,
        fx == b * b * ox - a * c * ow - a * b * oy,
        fw == (a * a + b * b) * ow,
        qx == 2 * fx * pw - px * fw,
        qw == fw * pw,
    ensures
        ox * qw - qx * ow == ow * ((a * a - b * b) * (ox * pw - px * ow) + 2 * (a * b) * (oy * pw - py * ow)),
{
    let (aa, bb, ab) = (a * a, b * b, a * b);
    let (x, y, z, w) = (ox * pw, px * ow, py * ow, oy * pw);
    // fx pw = bb x + aa y + ab z - ab w, using c pw = -(a px + b py).
    assert(fx * pw == (b * b * ox) * pw - (a * c * ow) * pw - (a * b * oy) * pw) by (nonlinear_arith)
        requires
            fx == b * b * ox - a * c * ow - a * b * oy,
    ;
    lemma_mul3(b * b, ox, pw);
    lemma_mul3(a * b, oy, pw);
    assert((a * c * ow) * pw == (a * ow) * (c * pw)) by (nonlinear_arith);
    assert((a * ow) * (c * pw) == -((a * ow) * (a * px)) - (a * ow) * (b * py)) by (nonlinear_arith)
        requires
            c * pw == -(a * px) - b * py,
    ;
    lemma_mul_swap(a, ow, a, px);
    lemma_mul_swap(a, ow, b, py);
    assert(ow * px == px * ow && ow * py == py * ow) by (nonlinear_arith);
    assert(fx * pw == bb * x + aa * y + ab * z - ab * w);
    // ox qw - qx ow = ow (n x - 2 fx pw + n y).
    let n = aa + bb;
    assert(ox * qw == ow * (n * x)) by (nonlinear_arith)
        requires
            qw == fw * pw,
            fw == n * ow,
            x == ox * pw,
    ;
    assert(qx * ow == ow * (2 * (fx * pw)) - ow * (n * y)) by (nonlinear_arith)
        requires
            qx == 2 * fx * pw - px * fw,
            fw == n * ow,
            y == px * ow,
    ;
    let t = (aa - bb) * (x - y) + 2 * ab * (w - z);
    assert(n * x - 2 * (bb * x + aa * y + ab * z - ab * w) + n * y == t) by (nonlinear_arith)
        requires
            n == aa + bb,
            t == (aa - bb) * (x - y) + 2 * ab * (w - z),
    ;
    assert(ow * (n * x) - (ow * (2 * (fx * pw)) - ow * (n * y)) == ow * (n * x - 2 * (fx * pw) + n * y))
        by (nonlinear_arith);
}

/// Twice the foot of the perpendicular minus `p` is on the circle when `p`
/// is on the line and the circle.
proof fn lemma_foot_second_on_circle(l: LineModel, c: CircleModel, p: PointModel)
    requires
        l.wf(),
        c.wf(),
        p.wf(),
        l.contains(p),
        c.contains(p),
    ensures
        c.contains(second_point(l, c.o, p)),
        l.contains(second_point(l, c.o, p)),
{
    let (a, b, cc) = (l.a, l.b, l.c);
    let o = c.o;
    let q = second_point(l, o, p);
    let n = a * a + b * b;
    let (fx, fy, fw) = (second_fx(l, o), second_fy(l, o), n * o.w);
    lemma_second_coord(a, b, cc, o.x, o.y, o.w, p.x, p.y, p.w, fx, fw, q.x, q.w);
    // The y coordinate is the x coordinate of the mirror image in `y = x`.
    assert(fy == a * a * o.y - b * cc * o.w - b * a * o.x && fw == (b * b + a * a) * o.w
        && b * p.y + a * p.x + cc * p.w == 0) by (nonlinear_arith)
        requires
            fy == a * a * o.y - b * cc * o.w - a * b * o.x,
            fw == (a * a + b * b) * o.w,
            a * p.x + b * p.y + cc * p.w == 0,
    ;
    lemma_second_coord(b, a, cc, o.y, o.x, o.w, p.y, p.x, p.w, fy, fw, q.y, q.w);
    let u = o.x * p.w - p.x * o.w;
    let v = o.y * p.w - p.y * o.w;
    let (pp, qq) = (a * a - b * b, 2 * (a * b));
    assert(b * b - a * a == -pp && 2 * (b * a) == qq) by (nonlinear_arith)
        requires
            pp == a * a - b * b,
            qq == 2 * (a * b),
    ;
    let (t1, t2) = (pp * u + qq * v, qq * u - pp * v);
    assert(o.x * q.w - q.x * o.w == o.w * t1);
    assert(o.y * q.w - q.y * o.w == o.w * t2) by (nonlinear_arith)
        requires
            o.y * q.w - q.y * o.w == o.w * (-pp * v + qq * u),
            t2 == qq * u - pp * v,
    ;
    lemma_rotation_norm(pp, qq, u, v);
    lemma_pythagorean(a, b);
    let z = u * u + v * v;
    assert(z == dist_sq_num(o, p)) by (nonlinear_arith)
        requires
            u == o.x * p.w - p.x * o.w,
            v == o.y * p.w - p.y * o.w,
            z == u * u + v * v,
    ;
    let k = (o.w * o.w) * (n * n);
    assert((o.w * t1) * (o.w * t1) + (o.w * t2) * (o.w * t2) == k * z) by (nonlinear_arith)
        requires
            t1 * t1 + t2 * t2 == (n * n) * z,
            k == (o.w * o.w) * (n * n),
    ;
    assert(dist_sq_num(o, q) == k * dist_sq_num(o, p));
    assert(q.w == (n * o.w) * p.w);
    assert(dist_sq_den(o, q) == k * dist_sq_den(o, p)) by (nonlinear_arith)
        requires
            q.w == (n * o.w) * p.w,
            k == (o.w * o.w) * (n * n),
    ;
    let (dn, dd) = (dist_sq_num(o, p), dist_sq_den(o, p));
    assert((k * dn) * c.den == c.num * (k * dd)) by (nonlinear_arith)
        requires
            dn * c.den == c.num * dd,
    ;
    // On the line: the foot of the perpendicular is on it, and so is `p`.
    let f = PointModel { x: second_fx(l, o), y: second_fy(l, o), w: n * o.w };
    crate::construct::lemma_projection_on_line(a, b, cc, o.x, o.y, o.w);
    lemma_eval_second(a, b, cc, f.x, f.y, f.w, p.x, p.y, p.w);
    assert(2 * f.x * p.w - p.x * f.w == q.x && 2 * f.y * p.w - p.y * f.w == q.y && f.w * p.w == q.w);
}

/// The squared distance from a point to a line: `l(p)^2 / (a^2 + b^2)`,
/// with `l(p)` taken in homogeneous form over `p.w^2`.
pub fn distance_sq_point_line(p: Point, l: Line) -> (r: Frac)
    requires
        p.within(B30 as int),
        l.within(B30 as int),
    ensures
        r.num == l@.eval(p@) * l@.eval(p@),
        r.den == (l.a * l.a + l.b * l.b) * (p.w * p.w),
        r.wf(),
        r.num == 0 <==> l@.contains(p@),
{
    proof {
        let b = B30 as int;
        lemma_mul_le(l.a as int, p.x as int, b, b, B60 as int);
        lemma_mul_le(l.b as int, p.y as int, b, b, B60 as int);
        lemma_mul_le(l.c as int, p.w as int, b, b, B60 as int);
        lemma_mul_le(l.a as int, l.a as int, b, b, B60 as int);
        lemma_mul_le(l.b as int, l.b as int, b, b, B60 as int);
        lemma_mul_le(p.w as int, p.w as int, b, b, B60 as int);
    }
    let z = l.a * p.x + l.b * p.y + l.c * p.w;
    let n = l.a * l.a + l.b * l.b;
    proof {
        lemma_mul_le(z as int, z as int, P62 as int, P62 as int, P124 as int);
        lemma_mul_le(n as int, (p.w * p.w) as int, P61 as int, B60 as int, P121 as int);
        lemma_square_nonneg(z as int);
        lemma_square_nonneg(l.a as int);
        lemma_square_nonneg(l.b as int);
        lemma_mul_pos(p.w as int, p.w as int);
        lemma_mul_pos(n as int, (p.w * p.w) as int);
    }
    Frac { num: z * z, den: n * (p.w * p.w) }
}

/// `(a c + b d)^2 + (a d - b c)^2 = (a^2 + b^2) (c^2 + d^2)`.
proof fn lemma_lagrange(a: int, b: int, c: int, d: int)
    ensures
        (a * c + b * d) * (a * c + b * d) + (a * d - b * c) * (a * d - b * c) == (a * a + b * b) * (c * c + d * d),
{
    lemma_sq_expand(a * c, b * d);
    lemma_sq_expand(a * d, b * c);
    lemma_mul_swap(a, c, a, c);
    lemma_mul_swap(b, d, b, d);
    lemma_mul_swap(a, d, a, d);
    lemma_mul_swap(b, c, b, c);
    lemma_mul_swap(a, c, b, d);
    lemma_mul_swap(a, d, b, c);
    assert((a * b) * (d * c) == (a * b) * (c * d)) by (nonlinear_arith);
    lemma_distrib22(a * a, b * b, c * c, d * d);
}

/// The squared distance between two lines: zero when they meet, else the
/// squared offset between the parallels, `(c1 s - c2 n1)^2 / (s^2 n1)` with
/// `s = a1 a2 + b1 b2` and `n1 = a1^2 + b1^2`.
pub fn distance_sq_lines(l: Line, k: Line) -> (r: Frac)
    requires
        l.within(B20 as int),
        k.within(B20 as int),
    ensures
        !l@.parallel_to(k@) ==> r.num == 0 && r.den == 1,
        l@.parallel_to(k@) ==> ({
            let s = l.a * k.a + l.b * k.b;
            let n1 = l.a * l.a + l.b * l.b;
            &&& r.num == (l.c * s - k.c * n1) * (l.c * s - k.c * n1)
            &&& r.den == (s * s) * n1
        }),
        r.wf(),
{
    proof {
        let b = B20 as int;
        lemma_mul_le(l.a as int, k.b as int, b, b, B40 as int);
        lemma_mul_le(l.b as int, k.a as int, b, b, B40 as int);
        lemma_mul_le(l.a as int, k.a as int, b, b, B40 as int);
        lemma_mul_le(l.b as int, k.b as int, b, b, B40 as int);
        lemma_mul_le(l.a as int, l.a as int, b, b, B40 as int);
        lemma_mul_le(l.b as int, l.b as int, b, b, B40 as int);
    }
    if l.a * k.b != l.b * k.a {
        return Frac { num: 0, den: 1 };
    }
    let s = l.a * k.a + l.b * k.b;
    let n1 = l.a * l.a + l.b * l.b;
    proof {
        lemma_mul_le(l.c as int, s as int, B20 as int, P41 as int, P61 as int);
        lemma_mul_le(k.c as int, n1 as int, B20 as int, P41 as int, P61 as int);
        lemma_mul_le((l.c * s - k.c * n1) as int, (l.c * s - k.c * n1) as int, P62 as int, P62 as int, P124 as int);
        lemma_mul_le(s as int, s as int, P41 as int, P41 as int, P82 as int);
        lemma_mul_le((s * s) as int, n1 as int, P82 as int, P41 as int, P123 as int);
        let (a, b, c, d) = (l.a as int, l.b as int, k.a as int, k.b as int);
        lemma_lagrange(a, b, c, d);
        lemma_square_nonneg(a);
        lemma_square_nonneg(b);
        lemma_square_nonneg(c);
        lemma_square_nonneg(d);
        lemma_mul_pos(a * a + b * b, c * c + d * d);
        assert(a * d - b * c == 0);
        assert((a * d - b * c) * (a * d - b * c) == 0) by (nonlinear_arith)
            requires
                a * d - b * c == 0,
        ;
        lemma_square_nonneg(s as int);
        lemma_mul_pos((s * s) as int, n1 as int);
    }
    Frac { num: (l.c * s - k.c * n1) * (l.c * s - k.c * n1), den: (s * s) * n1 }
}

/// The power of `x` with respect to the circle `c`, times
/// `c.den (c.o.w x.w)^2`: zero exactly when `x` lies on the circle.
pub open spec fn power_at(c: CircleModel, x: PointModel) -> int {
    dist_sq_num(c.o, x) * c.den - c.num * dist_sq_den(c.o, x)
}

/// `(x1 W - X w1)^2 + (y1 W - Y w1)^2`, expanded.
proof fn lemma_dist_expand(x1: int, y1: int, w1: int, xx: int, yy: int, w: int)
    ensures
        (x1 * w - xx * w1) * (x1 * w - xx * w1) + (y1 * w - yy * w1) * (y1 * w - yy * w1) == (x1 * x1 + y1
            * y1) * (w * w) - 2 * ((x1 * xx + y1 * yy) * (w * w1)) + (xx * xx + yy * yy) * (w1 * w1),
        (w1 * w) * (w1 * w) == (w1 * w1) * (w * w),
{
    lemma_sq_expand(x1 * w, xx * w1);
    lemma_sq_expand(y1 * w, yy * w1);
    lemma_mul_swap(x1, w, x1, w);
    lemma_mul_swap(y1, w, y1, w);
    lemma_mul_swap(xx, w1, xx, w1);
    lemma_mul_swap(yy, w1, yy, w1);
    lemma_mul_swap(x1, w, xx, w1);
    lemma_mul_swap(y1, w, yy, w1);
    lemma_mul_swap(w1, w, w1, w);
    assert((x1 * x1) * (w * w) + (y1 * y1) * (w * w) == (x1 * x1 + y1 * y1) * (w * w)) by (nonlinear_arith);
    assert((x1 * xx) * (w * w1) + (y1 * yy) * (w * w1) == (x1 * xx + y1 * yy) * (w * w1)) by (nonlinear_arith);
    assert((xx * xx) * (w1 * w1) + (yy * yy) * (w1 * w1) == (xx * xx + yy * yy) * (w1 * w1)) by (nonlinear_arith);
}

/// `(a d) (e (s w)) = ((e d) (a s)) w`.
proof fn lemma_group_const(a: int, d: int, e: int, s: int, w: int) by (nonlinear_arith)
    ensures
        (a * d) * (e * (s * w)) == ((e * d) * (a * s)) * w,
{
}

/// `x w - y w = (x - y) w`.
proof fn lemma_diff_factor(x: int, y: int, w: int) by (nonlinear_arith)
    ensures
        x * w - y * w == (x - y) * w,
{
}

/// `k x - k y = k (x - y)`.
proof fn lemma_diff_factor2(k: int, x: int, y: int) by (nonlinear_arith)
    ensures
        k * x - k * y == k * (x - y),
{
}

/// The radius terms of the radical-axis identity.
proof fn lemma_group_n(a1: int, a2: int, d1: int, d2: int, n1: int, n2: int, ww: int)
    ensures
        ((n2 * d1) * (a1 * a2)) * ww - ((n1 * d2) * (a2 * a1)) * ww == ((a1 * a2) * (n2 * d1 - n1 * d2)) * ww,
{
    assert(a2 * a1 == a1 * a2) by (nonlinear_arith);
    assert((n2 * d1) * (a1 * a2) - (n1 * d2) * (a1 * a2) == (a1 * a2) * (n2 * d1 - n1 * d2)) by (nonlinear_arith);
    lemma_diff_factor((n2 * d1) * (a1 * a2), (n1 * d2) * (a1 * a2), ww);
}

/// `((w2 w2) d2) (d1 (t (w w1))) = ((d1 d2) (w1 w2)) (w2 t) w`.
proof fn lemma_group_lin(w1: int, w2: int, d1: int, d2: int, t: int, w: int)
    ensures
        ((w2 * w2) * d2) * (d1 * (t * (w * w1))) == ((d1 * d2) * (w1 * w2)) * (w2 * t) * w,
{
    let (a, u) = (w2 * w2, t * (w * w1));
    assert((a * d2) * (d1 * u) == (d1 * d2) * (a * u)) by (nonlinear_arith);
    assert((w2 * w2) * (t * (w * w1)) == (w1 * w2) * ((w2 * t) * w)) by (nonlinear_arith);
    let (k, v) = (d1 * d2, w1 * w2);
    assert(k * (v * ((w2 * t) * w)) == (k * v) * (w2 * t) * w) by (nonlinear_arith);
}

/// The linear part of the radical line at `(xx, yy)`.
proof fn lemma_radical_lin(k: int, x1: int, y1: int, w1: int, x2: int, y2: int, w2: int, xx: int, yy: int)
    ensures
        (k * (x2 * w1 - x1 * w2)) * xx + (k * (y2 * w1 - y1 * w2)) * yy == k * (w1 * (x2 * xx + y2 * yy) - w2
            * (x1 * xx + y1 * yy)),
{
    assert((k * (x2 * w1 - x1 * w2)) * xx == k * ((x2 * w1 - x1 * w2) * xx)) by (nonlinear_arith);
    assert((k * (y2 * w1 - y1 * w2)) * yy == k * ((y2 * w1 - y1 * w2) * yy)) by (nonlinear_arith);
    assert((x2 * w1 - x1 * w2) * xx == w1 * (x2 * xx) - w2 * (x1 * xx)) by (nonlinear_arith);
    assert((y2 * w1 - y1 * w2) * yy == w1 * (y2 * yy) - w2 * (y1 * yy)) by (nonlinear_arith);
    assert(w1 * (x2 * xx) + w1 * (y2 * yy) == w1 * (x2 * xx + y2 * yy)) by (nonlinear_arith);
    assert(w2 * (x1 * xx) + w2 * (y1 * yy) == w2 * (x1 * xx + y1 * yy)) by (nonlinear_arith);
    assert(k * ((x2 * w1 - x1 * w2) * xx) + k * ((y2 * w1 - y1 * w2) * yy) == k * ((x2 * w1 - x1 * w2) * xx
        + (y2 * w1 - y1 * w2) * yy)) by (nonlinear_arith);
}

/// `(a x + b y + c w) w = (a x + b y) w + c (w w)`.
proof fn lemma_eval_times_w(a: int, b: int, c: int, x: int, y: int, w: int) by (nonlinear_arith)
    ensures
        (a * x + b * y + c * w) * w == (a * x + b * y) * w + c * (w * w),
{
}

/// `m1 p1 - m2 p2 = 0` when both powers are zero.
proof fn lemma_zero_product(m1: int, p1: int, m2: int, p2: int) by (nonlinear_arith)
    requires
        p1 == 0,
        p2 == 0,
    ensures
        m1 * p1 - m2 * p2 == 0,
{
}

/// A product with a positive factor is zero only when the other is.
proof fn lemma_zero_factor(e: int, w: int) by (nonlinear_arith)
    ensures
        w > 0 && e * w == 0 ==> e == 0,
        e == 0 ==> e * w == 0,
{
}

/// `m1 p1 - m2 p2 = 0`, `p2 = 0` and `m1 > 0` give `p1 = 0`.
proof fn lemma_cancel_power(m1: int, p1: int, m2: int, p2: int) by (nonlinear_arith)
    ensures
        m1 > 0 && p2 == 0 && m1 * p1 - m2 * p2 == 0 ==> p1 == 0,
{
}

/// The radical-axis identity over atoms: with `pc`, `pd` the two powers,
/// `(w2^2 d2) pc - (w1^2 d1) pd` is the radical line's value times `W`.
proof fn lemma_radical_atoms(
    d1: int,
    d2: int,
    n1: int,
    n2: int,
    w1: int,
    w2: int,
    w: int,
    s1: int,
    s2: int,
    t1: int,
    t2: int,
    q: int,
    pc: int,
    pd: int,
    lin: int,
)
    requires
        pc == (s1 * (w * w) - 2 * (t1 * (w * w1)) + q * (w1 * w1)) * d1 - n1 * ((w1 * w1) * (w * w)),
        pd == (s2 * (w * w) - 2 * (t2 * (w * w2)) + q * (w2 * w2)) * d2 - n2 * ((w2 * w2) * (w * w)),
        lin == (2 * (d1 * d2) * (w1 * w2)) * (w1 * t2 - w2 * t1),
    ensures
        ((w2 * w2) * d2) * pc - ((w1 * w1) * d1) * pd == lin * w + ((d1 * d2) * ((w2 * w2) * s1 - (w1 * w1)
            * s2) + ((w1 * w1) * (w2 * w2)) * (n2 * d1 - n1 * d2)) * (w * w),
{
    let (ww, a1, a2) = (w * w, w1 * w1, w2 * w2);
    let (u1, u2) = (w * w1, w * w2);
    assert(pc == d1 * (s1 * ww) - 2 * (d1 * (t1 * u1)) + d1 * (q * a1) - n1 * (a1 * ww)) by (nonlinear_arith)
        requires
            pc == (s1 * ww - 2 * (t1 * u1) + q * a1) * d1 - n1 * (a1 * ww),
    ;
    assert(pd == d2 * (s2 * ww) - 2 * (d2 * (t2 * u2)) + d2 * (q * a2) - n2 * (a2 * ww)) by (nonlinear_arith)
        requires
            pd == (s2 * ww - 2 * (t2 * u2) + q * a2) * d2 - n2 * (a2 * ww),
    ;
    let (m1, m2) = (a2 * d2, a1 * d1);
    assert(m1 * pc == m1 * (d1 * (s1 * ww)) - 2 * (m1 * (d1 * (t1 * u1))) + m1 * (d1 * (q * a1)) - m1 * (n1
        * (a1 * ww))) by (nonlinear_arith)
        requires
            pc == d1 * (s1 * ww) - 2 * (d1 * (t1 * u1)) + d1 * (q * a1) - n1 * (a1 * ww),
    ;
    assert(m2 * pd == m2 * (d2 * (s2 * ww)) - 2 * (m2 * (d2 * (t2 * u2))) + m2 * (d2 * (q * a2)) - m2 * (n2
        * (a2 * ww))) by (nonlinear_arith)
        requires
            pd == d2 * (s2 * ww) - 2 * (d2 * (t2 * u2)) + d2 * (q * a2) - n2 * (a2 * ww),
    ;
    // The quadratic terms cancel.
    assert(m1 * (d1 * (q * a1)) == m2 * (d2 * (q * a2))) by (nonlinear_arith)
        requires
            m1 == a2 * d2,
            m2 == a1 * d1,
    ;
    // The constant terms.
    lemma_group_const(a2, d2, d1, s1, ww);
    lemma_group_const(a1, d1, d2, s2, ww);
    assert((d2 * d1) == (d1 * d2)) by (nonlinear_arith);
    lemma_diff_factor((d1 * d2) * (a2 * s1), (d1 * d2) * (a1 * s2), ww);
    lemma_diff_factor2(d1 * d2, a2 * s1, a1 * s2);
    lemma_group_const(a1, d1, n2, a2, ww);
    lemma_group_const(a2, d2, n1, a1, ww);
    lemma_group_n(a1, a2, d1, d2, n1, n2, ww);
    // The linear terms.
    lemma_group_lin(w1, w2, d1, d2, t1, w);
    lemma_group_lin(w2, w1, d2, d1, t2, w);
    assert((d2 * d1) * (w2 * w1) == (d1 * d2) * (w1 * w2)) by (nonlinear_arith);
    let kk = (d1 * d2) * (w1 * w2);
    assert(lin * w == 2 * (kk * (w1 * t2) * w) - 2 * (kk * (w2 * t1) * w)) by (nonlinear_arith)
        requires
            lin == (2 * (d1 * d2) * (w1 * w2)) * (w1 * t2 - w2 * t1),
            kk == (d1 * d2) * (w1 * w2),
    ;
    assert(((d1 * d2) * (a2 * s1 - a1 * s2)) * ww + ((a1 * a2) * (n2 * d1 - n1 * d2)) * ww == ((d1 * d2) * (a2
        * s1 - a1 * s2) + (a1 * a2) * (n2 * d1 - n1 * d2)) * ww) by (nonlinear_arith);
}

/// The radical axis is the locus of equal power: its value at `x`, times
/// `x.w`, is a positive multiple of one power minus a positive multiple of
/// the other.
pub proof fn radical_axis_power(c: CircleModel, d: CircleModel, x: PointModel)
    ensures
        radical_of(c, d).eval(x) * x.w == ((d.o.w * d.o.w) * d.den) * power_at(c, x) - ((c.o.w * c.o.w)
            * c.den) * power_at(d, x),
{
    let (x1, y1, w1, n1, d1) = (c.o.x, c.o.y, c.o.w, c.num, c.den);
    let (x2, y2, w2, n2, d2) = (d.o.x, d.o.y, d.o.w, d.num, d.den);
    let (xx, yy, w) = (x.x, x.y, x.w);
    lemma_dist_expand(x1, y1, w1, xx, yy, w);
    lemma_dist_expand(x2, y2, w2, xx, yy, w);
    let (s1, s2) = (x1 * x1 + y1 * y1, x2 * x2 + y2 * y2);
    let (t1, t2) = (x1 * xx + y1 * yy, x2 * xx + y2 * yy);
    let q = xx * xx + yy * yy;
    let pc = power_at(c, x);
    let pd = power_at(d, x);
    assert(dist_sq_den(c.o, x) == (w1 * w) * (w1 * w));
    assert(dist_sq_den(d.o, x) == (w2 * w) * (w2 * w));
    assert(w * w1 == w1 * w && w * w2 == w2 * w) by (nonlinear_arith);
    let k = 2 * (d1 * d2) * (w1 * w2);
    let r = radical_of(c, d);
    // a X + b Y = k (w1 t2 - w2 t1).
    lemma_radical_lin(k, x1, y1, w1, x2, y2, w2, xx, yy);
    lemma_radical_atoms(d1, d2, n1, n2, w1, w2, w, s1, s2, t1, t2, q, pc, pd, k * (w1 * t2 - w2 * t1));
    lemma_eval_times_w(r.a, r.b, r.c, xx, yy, w);
}

impl Line {
    /// Whether the line meets the circle: the squared distance from the
    /// center to the line is at most the squared radius (the discriminant
    /// of the meeting points' quadratic is not negative).
    pub fn meets_circle(self, c: Circle) -> (r: bool)
        requires
            self.within(B15 as int),
            c.within(B15 as int),
        ensures
            r == (self@.eval(c.o@) * self@.eval(c.o@) * c.r2.den <= c.r2.num * ((self.a * self.a + self.b
                * self.b) * (c.o.w * c.o.w))),
    {
        let o = c.o;
        proof {
            let m = B15 as int;
            lemma_mul_le(self.a as int, o.x as int, m, m, P30 as int);
            lemma_mul_le(self.b as int, o.y as int, m, m, P30 as int);
            lemma_mul_le(self.c as int, o.w as int, m, m, P30 as int);
            lemma_mul_le(self.a as int, self.a as int, m, m, P30 as int);
            lemma_mul_le(self.b as int, self.b as int, m, m, P30 as int);
            lemma_mul_le(o.w as int, o.w as int, m, m, P30 as int);
        }
        let e = self.a * o.x + self.b * o.y + self.c * o.w;
        let n = self.a * self.a + self.b * self.b;
        proof {
            lemma_mul_le(e as int, e as int, P32 as int, P32 as int, P64 as int);
            lemma_mul_le((e * e) as int, c.r2.den as int, P64 as int, B15 as int, P79 as int);
            lemma_mul_le(n as int, (o.w * o.w) as int, P31 as int, P30 as int, P61 as int);
            lemma_mul_le(c.r2.num as int, (n * (o.w * o.w)) as int, B15 as int, P61 as int, P76 as int);
        }
        e * e * c.r2.den <= c.r2.num * (n * (o.w * o.w))
    }
}

} // verus!
