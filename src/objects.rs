//! The value types: points in homogeneous coordinates, lines in standard
//! form, circles by center and squared radius, and exact fractions; each
//! with a mathematical model over unbounded integers.
use vstd::prelude::*;

verus! {

/// A point `(x / w, y / w)` of the plane, given by integer homogeneous
/// coordinates with a positive weight `w`. It also serves as a free vector.
#[derive(Debug, Clone, Copy)]
pub struct Point {
    pub x: i128,
    pub y: i128,
    pub w: i128,
}

/// The line `a x + b y + c = 0`, where `a` and `b` are not both zero. Two
/// coefficient triples that are multiples of each other denote one line.
#[derive(Debug, Clone, Copy)]
pub struct Line {
    pub a: i128,
    pub b: i128,
    pub c: i128,
}

/// The fraction `num / den`, with a positive denominator.
#[derive(Debug, Clone, Copy)]
pub struct Frac {
    pub num: i128,
    pub den: i128,
}

/// A circle, by its center and the square of its radius, which is positive.
#[derive(Debug, Clone, Copy)]
pub struct Circle {
    pub o: Point,
    pub r2: Frac,
}

/// A point in homogeneous coordinates over the integers.
pub struct PointModel {
    pub x: int,
    pub y: int,
    pub w: int,
}

/// The coefficients of a line over the integers.
pub struct LineModel {
    pub a: int,
    pub b: int,
    pub c: int,
}

/// A circle: its center and its squared radius `num / den`.
pub struct CircleModel {
    pub o: PointModel,
    pub num: int,
    pub den: int,
}

impl View for Point {
    type V = PointModel;

    open spec fn view(&self) -> PointModel {
        PointModel { x: self.x as int, y: self.y as int, w: self.w as int }
    }
}

impl View for Line {
    type V = LineModel;

    open spec fn view(&self) -> LineModel {
        LineModel { a: self.a as int, b: self.b as int, c: self.c as int }
    }
}

impl View for Circle {
    type V = CircleModel;

    open spec fn view(&self) -> CircleModel {
        CircleModel { o: self.o@, num: self.r2.num as int, den: self.r2.den as int }
    }
}

/// The square of the distance between `p` and `q`, times `(p.w * q.w)^2`.
pub open spec fn dist_sq_num(p: PointModel, q: PointModel) -> int {
    (p.x * q.w - q.x * p.w) * (p.x * q.w - q.x * p.w) + (p.y * q.w - q.y * p.w) * (p.y * q.w
        - q.y * p.w)
}

/// The denominator that goes with `dist_sq_num`.
pub open spec fn dist_sq_den(p: PointModel, q: PointModel) -> int {
    (p.w * q.w) * (p.w * q.w)
}

/// The squared distances `n1 / d1` and `n2 / d2` are equal.
pub open spec fn same_ratio(n1: int, d1: int, n2: int, d2: int) -> bool {
    n1 * d2 == n2 * d1
}

impl PointModel {
    /// The weight is positive.
    pub open spec fn wf(self) -> bool {
        self.w > 0
    }

    /// The two points are the same point of the plane.
    pub open spec fn same(self, q: PointModel) -> bool {
        &&& self.x * q.w == q.x * self.w
        &&& self.y * q.w == q.y * self.w
    }
}

impl LineModel {
    /// The coefficients `a` and `b` are not both zero.
    pub open spec fn wf(self) -> bool {
        !(self.a == 0 && self.b == 0)
    }

    /// The value of `a x + b y + c` at `p`, times `p.w`.
    pub open spec fn eval(self, p: PointModel) -> int {
        self.a * p.x + self.b * p.y + self.c * p.w
    }

    /// The point lies on the line.
    pub open spec fn contains(self, p: PointModel) -> bool {
        self.eval(p) == 0
    }

    /// The directions of the two lines are the same.
    pub open spec fn parallel_to(self, k: LineModel) -> bool {
        self.a * k.b == self.b * k.a
    }

    /// The two coefficient triples denote the same line.
    pub open spec fn same(self, k: LineModel) -> bool {
        &&& self.a * k.b == self.b * k.a
        &&& self.a * k.c == self.c * k.a
        &&& self.b * k.c == self.c * k.b
    }
}

impl CircleModel {
    /// The center is well formed and the squared radius positive.
    pub open spec fn wf(self) -> bool {
        &&& self.o.wf()
        &&& self.den > 0
        &&& self.num > 0
    }

    /// The point lies on the circle: its squared distance from the center
    /// is the squared radius.
    pub open spec fn contains(self, p: PointModel) -> bool {
        same_ratio(dist_sq_num(self.o, p), dist_sq_den(self.o, p), self.num, self.den)
    }

    /// The two circles have the same center and radius.
    pub open spec fn same(self, d: CircleModel) -> bool {
        self.o.same(d.o) && same_ratio(self.num, self.den, d.num, d.den)
    }
}

impl Point {
    /// Well formed, with every coordinate of magnitude at most `n`.
    pub open spec fn within(self, n: int) -> bool {
        &&& 0 < self.w <= n
        &&& -n <= self.x <= n
        &&& -n <= self.y <= n
    }
}

impl Line {
    /// Well formed, with every coefficient of magnitude at most `n`.
    pub open spec fn within(self, n: int) -> bool {
        &&& self@.wf()
        &&& -n <= self.a <= n
        &&& -n <= self.b <= n
        &&& -n <= self.c <= n
    }
}

impl Frac {
    /// The denominator is positive.
    pub open spec fn wf(self) -> bool {
        self.den > 0
    }
}

impl Circle {
    /// Well formed, with center coordinates and both parts of the squared
    /// radius of magnitude at most `n`.
    pub open spec fn within(self, n: int) -> bool {
        &&& self@.wf()
        &&& self.o.within(n)
        &&& self.r2.num <= n
        &&& self.r2.den <= n
    }
}

} // verus!
