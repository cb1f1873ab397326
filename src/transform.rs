//! Transforms of points, lines and circles: reflection, circular inversion
//! and scaling.
use vstd::prelude::*;
use crate::arith::{lemma_mul_le, lemma_mul_pos, lemma_square_nonneg, B40, B60, P120, P121, P122, P123, P41, P80, P81, P82};
use crate::exception::{CalcException, Result};
use crate::objects::{Circle, CircleModel, Frac, Line, LineModel, Point, PointModel};
use crate::arith::{
    B10, B20, B30, P101, P103, P108, P11, P20, P21, P30, P31, P32, P42, P43, P50, P53, P54, P61, P62, P64, P71, P83, P84,
    P90, P91, P92,
};

verus! {

/// `2 c - p`: the reflection of `p` in the point `c`.
pub open spec fn reflect_pp(p: PointModel, c: PointModel) -> PointModel {
    PointModel { x: 2 * c.x * p.w - p.x * c.w, y: 2 * c.y * p.w - p.y * c.w, w: p.w * c.w }
}

/// The reflection of `p` in the line `l`.
pub open spec fn reflect_pl(p: PointModel, l: LineModel) -> PointModel {
    let n = l.a * l.a + l.b * l.b;
    let s = l.eval(p);
    PointModel { x: p.x * n - 2 * l.a * s, y: p.y * n - 2 * l.b * s, w: p.w * n }
}

/// The reflection of the line `l` in the point `c`.
pub open spec fn reflect_lp(l: LineModel, c: PointModel) -> LineModel {
    LineModel { a: l.a * c.w, b: l.b * c.w, c: -(l.c * c.w) - 2 * (l.a * c.x + l.b * c.y) }
}

/// The reflection of the line `l` in the line `m`.
pub open spec fn reflect_ll(l: LineModel, m: LineModel) -> LineModel {
    let n = m.a * m.a + m.b * m.b;
    let k = l.a * m.a + l.b * m.b;
    LineModel { a: n * l.a - 2 * k * m.a, b: n * l.b - 2 * k * m.b, c: n * l.c - 2 * k * m.c }
}

/// Reflection in an object of type `T`.
pub trait Reflect<T>: Sized {
    /// The operands are small enough for the exact computation.
    spec fn reflect_ok(self, obj: T) -> bool;

    /// `r` is the reflection of `self` in `obj`.
    spec fn is_reflection(self, obj: T, r: Self) -> bool;

    /// The reflection of `self` in `obj`.
    fn reflect_in(self, obj: T) -> (r: Self)
        requires
            self.reflect_ok(obj),
        ensures
            self.is_reflection(obj, r),
    ;
}

impl Reflect<Point> for Point {
    open spec fn reflect_ok(self, c: Point) -> bool {
        self.within(B60 as int) && c.within(B60 as int)
    }

    open spec fn is_reflection(self, c: Point, r: Point) -> bool {
        r@ == reflect_pp(self@, c@) && r@.wf()
    }

    /// Reflect a point in a point.
    fn reflect_in(self, c: Point) -> (r: Point) {
        proof {
            lemma_mul_le(c.x as int, self.w as int, B60 as int, B60 as int, P120 as int);
            lemma_mul_le(c.y as int, self.w as int, B60 as int, B60 as int, P120 as int);
            lemma_mul_le(self.x as int, c.w as int, B60 as int, B60 as int, P120 as int);
            lemma_mul_le(self.y as int, c.w as int, B60 as int, B60 as int, P120 as int);
            lemma_mul_le(self.w as int, c.w as int, B60 as int, B60 as int, P120 as int);
            lemma_mul_pos(self.w as int, c.w as int);
            let (cx, cy, pw) = (c.x as int, c.y as int, self.w as int);
            assert(2 * cx * pw == 2 * (cx * pw) && 2 * cy * pw == 2 * (cy * pw)) by (nonlinear_arith);
        }
        Point { x: 2 * (c.x * self.w) - self.x * c.w, y: 2 * (c.y * self.w) - self.y * c.w, w: self.w * c.w }
    }
}

impl Reflect<Line> for Point {
    open spec fn reflect_ok(self, l: Line) -> bool {
        self.within(B40 as int) && l.within(B40 as int)
    }

    open spec fn is_reflection(self, l: Line, r: Point) -> bool {
        r@ == reflect_pl(self@, l@) && r@.wf()
    }

    /// Reflect a point in a line.
    fn reflect_in(self, l: Line) -> (r: Point) {
        let (a, b, c) = (l.a, l.b, l.c);
        proof {
            lemma_mul_le(a as int, a as int, B40 as int, B40 as int, P80 as int);
            lemma_mul_le(b as int, b as int, B40 as int, B40 as int, P80 as int);
            lemma_mul_le(a as int, self.x as int, B40 as int, B40 as int, P80 as int);
            lemma_mul_le(b as int, self.y as int, B40 as int, B40 as int, P80 as int);
            lemma_mul_le(c as int, self.w as int, B40 as int, B40 as int, P80 as int);
        }
        let n = a * a + b * b;
        let s = a * self.x + b * self.y + c * self.w;
        proof {
            lemma_mul_le(self.x as int, n as int, B40 as int, P81 as int, P121 as int);
            lemma_mul_le(self.y as int, n as int, B40 as int, P81 as int, P121 as int);
            lemma_mul_le(self.w as int, n as int, B40 as int, P81 as int, P121 as int);
            lemma_mul_le(a as int, s as int, B40 as int, P82 as int, P122 as int);
            lemma_mul_le(b as int, s as int, B40 as int, P82 as int, P122 as int);
            lemma_square_nonneg(a as int);
            lemma_square_nonneg(b as int);
            lemma_mul_pos(self.w as int, n as int);
            let (ai, bi, si) = (a as int, b as int, s as int);
            assert(2 * ai * si == 2 * (ai * si) && 2 * bi * si == 2 * (bi * si)) by (nonlinear_arith);
        }
        Point { x: self.x * n - 2 * (a * s), y: self.y * n - 2 * (b * s), w: self.w * n }
    }
}

impl Reflect<Point> for Line {
    open spec fn reflect_ok(self, c: Point) -> bool {
        self.within(B60 as int) && c.within(B60 as int)
    }

    open spec fn is_reflection(self, c: Point, r: Line) -> bool {
        r@ == reflect_lp(self@, c@) && r@.wf()
    }

    /// Reflect a line in a point.
    fn reflect_in(self, c: Point) -> (r: Line) {
        proof {
            lemma_mul_le(self.a as int, c.w as int, B60 as int, B60 as int, P120 as int);
            lemma_mul_le(self.b as int, c.w as int, B60 as int, B60 as int, P120 as int);
            lemma_mul_le(self.c as int, c.w as int, B60 as int, B60 as int, P120 as int);
            lemma_mul_le(self.a as int, c.x as int, B60 as int, B60 as int, P120 as int);
            lemma_mul_le(self.b as int, c.y as int, B60 as int, B60 as int, P120 as int);
            crate::construct::lemma_mul_nonzero(self.a as int, c.w as int);
            crate::construct::lemma_mul_nonzero(self.b as int, c.w as int);
        }
        Line {
            a: self.a * c.w,
            b: self.b * c.w,
            c: -(self.c * c.w) - 2 * (self.a * c.x + self.b * c.y),
        }
    }
}

impl Reflect<Line> for Line {
    open spec fn reflect_ok(self, m: Line) -> bool {
        self.within(B40 as int) && m.within(B40 as int)
    }

    open spec fn is_reflection(self, m: Line, r: Line) -> bool {
        r@ == reflect_ll(self@, m@) && r@.wf()
    }

    /// Reflect a line in a line.
    fn reflect_in(self, m: Line) -> (r: Line) {
        proof {
            lemma_mul_le(m.a as int, m.a as int, B40 as int, B40 as int, P80 as int);
            lemma_mul_le(m.b as int, m.b as int, B40 as int, B40 as int, P80 as int);
            lemma_mul_le(self.a as int, m.a as int, B40 as int, B40 as int, P80 as int);
            lemma_mul_le(self.b as int, m.b as int, B40 as int, B40 as int, P80 as int);
        }
        let n = m.a * m.a + m.b * m.b;
        let k = self.a * m.a + self.b * m.b;
        proof {
            lemma_mul_le(n as int, self.a as int, P81 as int, B40 as int, P121 as int);
            lemma_mul_le(n as int, self.b as int, P81 as int, B40 as int, P121 as int);
            lemma_mul_le(n as int, self.c as int, P81 as int, B40 as int, P121 as int);
            lemma_mul_le(k as int, m.a as int, P81 as int, B40 as int, P121 as int);
            lemma_mul_le(k as int, m.b as int, P81 as int, B40 as int, P121 as int);
            lemma_mul_le(k as int, m.c as int, P81 as int, B40 as int, P121 as int);
            let (ki, ma, mb, mc) = (k as int, m.a as int, m.b as int, m.c as int);
            assert(2 * ki * ma == 2 * (ki * ma) && 2 * ki * mb == 2 * (ki * mb) && 2 * ki * mc == 2 * (ki
                * mc)) by (nonlinear_arith);
            lemma_reflect_ll_wf(self@, m@);
        }
        Line { a: n * self.a - 2 * (k * m.a), b: n * self.b - 2 * (k * m.b), c: n * self.c - 2 * (k * m.c) }
    }
}

impl Reflect<Point> for Circle {
    open spec fn reflect_ok(self, c: Point) -> bool {
        self@.wf() && self.o.within(B60 as int) && c.within(B60 as int)
    }

    open spec fn is_reflection(self, c: Point, r: Circle) -> bool {
        r@ == CircleModel { o: reflect_pp(self.o@, c@), num: self.r2.num as int, den: self.r2.den as int }
            && r@.wf()
    }

    /// Reflect a circle in a point: its center moves, its radius stays.
    fn reflect_in(self, c: Point) -> (r: Circle) {
        Circle { o: self.o.reflect_in(c), r2: self.r2 }
    }
}

impl Reflect<Line> for Circle {
    open spec fn reflect_ok(self, l: Line) -> bool {
        self@.wf() && self.o.within(B40 as int) && l.within(B40 as int)
    }

    open spec fn is_reflection(self, l: Line, r: Circle) -> bool {
        r@ == CircleModel { o: reflect_pl(self.o@, l@), num: self.r2.num as int, den: self.r2.den as int }
            && r@.wf()
    }

    /// Reflect a circle in a line: its center moves, its radius stays.
    fn reflect_in(self, l: Line) -> (r: Circle) {
        Circle { o: self.o.reflect_in(l), r2: self.r2 }
    }
}

/// `(x - y)^2 = x^2 - 2 x y + y^2`.
proof fn lemma_sq_diff(x: int, y: int) by (nonlinear_arith)
    ensures
        (x - y) * (x - y) == x * x - 2 * (x * y) + y * y,
{
}

/// `|n (a, b) - 2 k (e, f)|^2 = n^2 |(a, b)|^2` where `n = |(e, f)|^2` and
/// `k = (a, b) . (e, f)`: a reflection keeps lengths.
proof fn lemma_reflect_norm(n: int, k: int, a: int, b: int, e: int, f: int)
    requires
        n == e * e + f * f,
        k == a * e + b * f,
    ensures
        (n * a - 2 * k * e) * (n * a - 2 * k * e) + (n * b - 2 * k * f) * (n * b - 2 * k * f) == (n
            * n) * (a * a + b * b),
{
    lemma_sq_diff(n * a, 2 * k * e);
    lemma_sq_diff(n * b, 2 * k * f);
    assert((n * a) * (n * a) + (n * b) * (n * b) == (n * n) * (a * a + b * b)) by (nonlinear_arith);
    assert((n * a) * (2 * k * e) == 2 * (n * k) * (a * e)) by (nonlinear_arith);
    assert((n * b) * (2 * k * f) == 2 * (n * k) * (b * f)) by (nonlinear_arith);
    assert(2 * (n * k) * (a * e) + 2 * (n * k) * (b * f) == 2 * (n * k) * (a * e + b * f)) by (nonlinear_arith);
    assert(2 * (n * k) * k == 2 * ((k * k) * n)) by (nonlinear_arith);
    assert((n * a) * (2 * k * e) + (n * b) * (2 * k * f) == 2 * ((k * k) * n));
    assert((2 * k * e) * (2 * k * e) == 4 * (k * k) * (e * e)) by (nonlinear_arith);
    assert((2 * k * f) * (2 * k * f) == 4 * (k * k) * (f * f)) by (nonlinear_arith);
    assert(4 * (k * k) * (e * e) + 4 * (k * k) * (f * f) == 4 * (k * k) * (e * e + f * f)) by (nonlinear_arith);
    assert(4 * (k * k) * n == 4 * ((k * k) * n)) by (nonlinear_arith);
    assert((2 * k * e) * (2 * k * e) + (2 * k * f) * (2 * k * f) == 4 * ((k * k) * n));
}

/// The reflection of a line in a well formed line is well formed.
proof fn lemma_reflect_ll_wf(l: LineModel, m: LineModel)
    requires
        l.wf(),
        m.wf(),
    ensures
        reflect_ll(l, m).wf(),
{
    let r = reflect_ll(l, m);
    let (a, b, e, f) = (l.a, l.b, m.a, m.b);
    let n = e * e + f * f;
    let k = a * e + b * f;
    lemma_square_nonneg(e);
    lemma_square_nonneg(f);
    // The direction (a, b) is mapped by a reflection matrix times n, whose
    // determinant is -n^2: a zero image would force (a, b) to be zero.
    lemma_reflect_norm(n, k, a, b, e, f);
    assert(r.a * r.a + r.b * r.b == n * n * (a * a + b * b));
    lemma_square_nonneg(a);
    lemma_square_nonneg(b);
    lemma_mul_pos(n, n);
    lemma_mul_pos(n * n, a * a + b * b);
    lemma_square_nonneg(r.a);
    lemma_square_nonneg(r.b);
}

/// Reflecting the result of a reflection in the line again scales the
/// starting homogeneous coordinates by `n^2`, where `n = a^2 + b^2`.
proof fn lemma_reflect_pl_twice(p: PointModel, l: LineModel)
    ensures
        ({
            let n = l.a * l.a + l.b * l.b;
            reflect_pl(reflect_pl(p, l), l) == PointModel {
                x: p.x * (n * n),
                y: p.y * (n * n),
                w: p.w * (n * n),
            }
        }),
{
    let (a, b, c) = (l.a, l.b, l.c);
    let n = a * a + b * b;
    let s = l.eval(p);
    let q = reflect_pl(p, l);
    assert(a * (p.x * n - 2 * a * s) == n * (a * p.x) - 2 * s * (a * a)) by (nonlinear_arith);
    assert(b * (p.y * n - 2 * b * s) == n * (b * p.y) - 2 * s * (b * b)) by (nonlinear_arith);
    assert(c * (p.w * n) == n * (c * p.w)) by (nonlinear_arith);
    assert(n * (a * p.x) + n * (b * p.y) + n * (c * p.w) == n * s) by (nonlinear_arith)
        requires
            s == a * p.x + b * p.y + c * p.w,
    ;
    assert(2 * s * (a * a) + 2 * s * (b * b) == 2 * (n * s)) by (nonlinear_arith)
        requires
            n == a * a + b * b,
    ;
    let t = l.eval(q);
    assert(t == -(n * s));
    assert(q.x * n - 2 * a * t == p.x * (n * n)) by (nonlinear_arith)
        requires
            q.x == p.x * n - 2 * a * s,
            t == -(n * s),
    ;
    assert(q.y * n - 2 * b * t == p.y * (n * n)) by (nonlinear_arith)
        requires
            q.y == p.y * n - 2 * b * s,
            t == -(n * s),
    ;
    assert(q.w * n == p.w * (n * n)) by (nonlinear_arith)
        requires
            q.w == p.w * n,
    ;
}

/// Reflection in a line is an involution: reflecting a point twice in the
/// same line gives back the same point.
pub proof fn reflect_in_line_involution(p: PointModel, l: LineModel)
    requires
        p.wf(),
        l.wf(),
    ensures
        reflect_pl(reflect_pl(p, l), l).same(p),
        reflect_pl(reflect_pl(p, l), l).wf(),
{
    lemma_reflect_pl_twice(p, l);
    let n = l.a * l.a + l.b * l.b;
    lemma_square_nonneg(l.a);
    lemma_square_nonneg(l.b);
    lemma_mul_pos(n, n);
    lemma_mul_pos(p.w, n * n);
    assert(p.x * (n * n) * p.w == p.x * (p.w * (n * n))) by (nonlinear_arith);
    assert(p.y * (n * n) * p.w == p.y * (p.w * (n * n))) by (nonlinear_arith);
}

/// Reflection in a point is an involution.
pub proof fn reflect_in_point_involution(p: PointModel, c: PointModel)
    requires
        p.wf(),
        c.wf(),
    ensures
        reflect_pp(reflect_pp(p, c), c).same(p),
        reflect_pp(reflect_pp(p, c), c).wf(),
{
    let q = reflect_pp(p, c);
    let r = reflect_pp(q, c);
    lemma_mul_pos(p.w, c.w);
    lemma_mul_pos(p.w * c.w, c.w);
    assert(r.x == p.x * (c.w * c.w)) by (nonlinear_arith)
        requires
            q.x == 2 * c.x * p.w - p.x * c.w,
            q.w == p.w * c.w,
            r.x == 2 * c.x * q.w - q.x * c.w,
    ;
    assert(r.y == p.y * (c.w * c.w)) by (nonlinear_arith)
        requires
            q.y == 2 * c.y * p.w - p.y * c.w,
            q.w == p.w * c.w,
            r.y == 2 * c.y * q.w - q.y * c.w,
    ;
    assert(r.w == p.w * (c.w * c.w)) by (nonlinear_arith)
        requires
            q.w == p.w * c.w,
            r.w == q.w * c.w,
    ;
    assert(p.x * (c.w * c.w) * p.w == p.x * (p.w * (c.w * c.w))) by (nonlinear_arith);
    assert(p.y * (c.w * c.w) * p.w == p.y * (p.w * (c.w * c.w))) by (nonlinear_arith);
}

/// The reflection of a line `l` in a line `m` is the set of reflections of
/// the points of `l`: a point lies on it exactly when its mirror image in
/// `m` lies on `l`.
pub proof fn reflect_line_in_line_incidence(l: LineModel, m: LineModel, x: PointModel)
    ensures
        reflect_ll(l, m).eval(x) == l.eval(reflect_pl(x, m)),
        reflect_ll(l, m).contains(x) <==> l.contains(reflect_pl(x, m)),
{
    let n = m.a * m.a + m.b * m.b;
    let k = l.a * m.a + l.b * m.b;
    let s = m.eval(x);
    let r = reflect_ll(l, m);
    let (a, b, c, e, f, g) = (l.a, l.b, l.c, m.a, m.b, m.c);
    lemma_lin3(n, 2 * k, a, b, c, e, f, g, x.x, x.y, x.w);
    assert(r.eval(x) == n * l.eval(x) - 2 * k * s);
    let y = reflect_pl(x, m);
    lemma_eval_reflected(n, s, a, b, c, e, f, x.x, x.y, x.w);
    assert(2 * s * k == 2 * k * s) by (nonlinear_arith);
}

/// The value of `(a, b, c)` at `(u n - 2 e s, v n - 2 f s, w n)`.
proof fn lemma_eval_reflected(n: int, s: int, a: int, b: int, c: int, e: int, f: int, u: int, v: int, w: int)
    ensures
        a * (u * n - 2 * e * s) + b * (v * n - 2 * f * s) + c * (w * n) == n * (a * u + b * v + c * w) - 2
            * s * (a * e + b * f),
{
    assert(a * (u * n - 2 * e * s) == n * (a * u) - 2 * s * (a * e)) by (nonlinear_arith);
    assert(b * (v * n - 2 * f * s) == n * (b * v) - 2 * s * (b * f)) by (nonlinear_arith);
    assert(c * (w * n) == n * (c * w)) by (nonlinear_arith);
    assert(n * (a * u) + n * (b * v) + n * (c * w) == n * (a * u + b * v + c * w)) by (nonlinear_arith);
    assert(2 * s * (a * e) + 2 * s * (b * f) == 2 * s * (a * e + b * f)) by (nonlinear_arith);
}

/// `sum (n u_i - t v_i) z_i = n sum u_i z_i - t sum v_i z_i` over three terms.
proof fn lemma_lin3(n: int, t: int, u1: int, u2: int, u3: int, v1: int, v2: int, v3: int, z1: int, z2: int, z3: int)
    ensures
        (n * u1 - t * v1) * z1 + (n * u2 - t * v2) * z2 + (n * u3 - t * v3) * z3 == n * (u1 * z1 + u2 * z2
            + u3 * z3) - t * (v1 * z1 + v2 * z2 + v3 * z3),
{
    assert((n * u1 - t * v1) * z1 == n * (u1 * z1) - t * (v1 * z1)) by (nonlinear_arith);
    assert((n * u2 - t * v2) * z2 == n * (u2 * z2) - t * (v2 * z2)) by (nonlinear_arith);
    assert((n * u3 - t * v3) * z3 == n * (u3 * z3) - t * (v3 * z3)) by (nonlinear_arith);
    assert(n * (u1 * z1) + n * (u2 * z2) + n * (u3 * z3) == n * (u1 * z1 + u2 * z2 + u3 * z3)) by (nonlinear_arith);
    assert(t * (v1 * z1) + t * (v2 * z2) + t * (v3 * z3) == t * (v1 * z1 + v2 * z2 + v3 * z3)) by (nonlinear_arith);
}

/// The image of `p` under the inversion with center `o` and power `k`:
/// `o + k (p - o) / |p - o|^2`.
pub open spec fn invert_p(p: PointModel, o: PointModel, k: int) -> PointModel {
    let dx = p.x * o.w - o.x * p.w;
    let dy = p.y * o.w - o.y * p.w;
    let dw = p.w * o.w;
    let d = dx * dx + dy * dy;
    PointModel { x: o.x * d + k * dx * dw * o.w, y: o.y * d + k * dy * dw * o.w, w: o.w * d }
}

impl Point {
    /// The image under the inversion with center `o` and power `power`
    /// (which may be negative); fails with `OverlappingPoint` at the center.
    pub fn invert_in(self, o: Point, power: i128) -> (r: Result<Point>)
        requires
            self.within(B20 as int),
            o.within(B20 as int),
            -B20 <= power <= B20,
        ensures
            self@.same(o@) ==> r == Err::<Point, CalcException>(CalcException::OverlappingPoint),
            !self@.same(o@) ==> (r matches Ok(q) && q@ == invert_p(self@, o@, power as int) && q@.wf()),
    {
        if self.is_same(&o) {
            return Err(CalcException::OverlappingPoint);
        }
        proof {
            lemma_mul_le(self.x as int, o.w as int, B20 as int, B20 as int, B40 as int);
            lemma_mul_le(o.x as int, self.w as int, B20 as int, B20 as int, B40 as int);
            lemma_mul_le(self.y as int, o.w as int, B20 as int, B20 as int, B40 as int);
            lemma_mul_le(o.y as int, self.w as int, B20 as int, B20 as int, B40 as int);
            lemma_mul_le(self.w as int, o.w as int, B20 as int, B20 as int, B40 as int);
        }
        let dx = self.x * o.w - o.x * self.w;
        let dy = self.y * o.w - o.y * self.w;
        let dw = self.w * o.w;
        proof {
            lemma_mul_le(dx as int, dx as int, P41 as int, P41 as int, P82 as int);
            lemma_mul_le(dy as int, dy as int, P41 as int, P41 as int, P82 as int);
            lemma_mul_le(power as int, dx as int, B20 as int, P41 as int, P61 as int);
            lemma_mul_le(power as int, dy as int, B20 as int, P41 as int, P61 as int);
        }
        let d = dx * dx + dy * dy;
        proof {
            lemma_mul_le(o.x as int, d as int, B20 as int, P83 as int, P103 as int);
            lemma_mul_le(o.y as int, d as int, B20 as int, P83 as int, P103 as int);
            lemma_mul_le(o.w as int, d as int, B20 as int, P83 as int, P103 as int);
            lemma_mul_le((power * dx) as int, dw as int, P61 as int, B40 as int, P101 as int);
            lemma_mul_le((power * dy) as int, dw as int, P61 as int, B40 as int, P101 as int);
            lemma_mul_le((power * dx * dw) as int, o.w as int, P101 as int, B20 as int, P121 as int);
            lemma_mul_le((power * dy * dw) as int, o.w as int, P101 as int, B20 as int, P121 as int);
            crate::basic::lemma_dist_sq_pos(self@, o@);
            lemma_sq_eq(self@, o@);
            lemma_mul_pos(o.w as int, d as int);
        }
        Ok(Point { x: o.x * d + power * dx * dw * o.w, y: o.y * d + power * dy * dw * o.w, w: o.w * d })
    }
}

/// The distance numerator, written with the difference taken the other way.
proof fn lemma_sq_eq(p: PointModel, o: PointModel)
    ensures
        (p.x * o.w - o.x * p.w) * (p.x * o.w - o.x * p.w) + (p.y * o.w - o.y * p.w) * (p.y * o.w - o.y * p.w)
            == crate::objects::dist_sq_num(p, o),
{
}

/// One coordinate of the second inversion, as a multiple of the starting point.
proof fn lemma_invert_coord(rx: int, ox: int, e: int, k: int, ex: int, ew: int, ow: int, g: int, d: int, dx: int, dw: int, px: int, mu: int)
    requires
        rx == ox * e + k * ex * ew * ow,
        e == (g * g) * d,
        ex == g * dx,
        ew == ow * d * ow,
        g == k * dw * (ow * ow),
        ox * dw + dx * ow == px * (ow * ow),
        mu == g * d * k * (ow * ow * ow * ow),
    ensures
        rx == mu * px,
{
    let w3 = ow * ow * ow;
    assert(k * ex * ew * ow == g * d * (k * dx * w3)) by (nonlinear_arith)
        requires
            ex == g * dx,
            ew == ow * d * ow,
            w3 == ow * ow * ow,
    ;
    assert(ox * e == g * d * (ox * g)) by (nonlinear_arith)
        requires
            e == (g * g) * d,
    ;
    assert(ox * g == k * (ow * ow) * (ox * dw)) by (nonlinear_arith)
        requires
            g == k * dw * (ow * ow),
    ;
    assert(k * dx * w3 == k * (ow * ow) * (dx * ow)) by (nonlinear_arith)
        requires
            w3 == ow * ow * ow,
    ;
    assert(k * (ow * ow) * (ox * dw) + k * (ow * ow) * (dx * ow) == k * (ow * ow) * (ox * dw + dx * ow))
        by (nonlinear_arith);
    assert(g * d * (ox * g) + g * d * (k * dx * w3) == g * d * (ox * g + k * dx * w3)) by (nonlinear_arith);
    assert(g * d * (k * (ow * ow) * (px * (ow * ow))) == mu * px) by (nonlinear_arith)
        requires
            mu == g * d * k * (ow * ow * ow * ow),
    ;
}

/// Inversion is an involution: for a point other than the center and a
/// nonzero power, inverting twice gives back the same point.
pub proof fn invert_point_involution(p: PointModel, o: PointModel, k: int)
    requires
        p.wf(),
        o.wf(),
        !p.same(o),
        k != 0,
    ensures
        invert_p(invert_p(p, o, k), o, k).same(p),
        invert_p(invert_p(p, o, k), o, k).wf(),
{
    let (px, py, pw, ox, oy, ow) = (p.x, p.y, p.w, o.x, o.y, o.w);
    let dx = px * ow - ox * pw;
    let dy = py * ow - oy * pw;
    let dw = pw * ow;
    let d = dx * dx + dy * dy;
    crate::basic::lemma_dist_sq_pos(p, o);
    lemma_sq_eq(p, o);
    let q = invert_p(p, o, k);
    let g = k * dw * (ow * ow);
    // q - o, scaled: (g dx, g dy) over ow^2 d.
    let ex = q.x * ow - ox * q.w;
    let ey = q.y * ow - oy * q.w;
    let ew = q.w * ow;
    assert(ex == g * dx) by (nonlinear_arith)
        requires
            q.x == ox * d + k * dx * dw * ow,
            q.w == ow * d,
            ex == q.x * ow - ox * q.w,
            g == k * dw * (ow * ow),
    ;
    assert(ey == g * dy) by (nonlinear_arith)
        requires
            q.y == oy * d + k * dy * dw * ow,
            q.w == ow * d,
            ey == q.y * ow - oy * q.w,
            g == k * dw * (ow * ow),
    ;
    let e = ex * ex + ey * ey;
    assert(e == (g * g) * d) by (nonlinear_arith)
        requires
            ex == g * dx,
            ey == g * dy,
            e == ex * ex + ey * ey,
            d == dx * dx + dy * dy,
    ;
    let r = invert_p(q, o, k);
    assert(r.x == ox * e + k * ex * ew * ow);
    assert(ew == ow * d * ow);
    let mu = g * d * k * (ow * ow * ow * ow);
    assert(ox * dw + dx * ow == px * (ow * ow)) by (nonlinear_arith)
        requires
            dx == px * ow - ox * pw,
            dw == pw * ow,
    ;
    assert(oy * dw + dy * ow == py * (ow * ow)) by (nonlinear_arith)
        requires
            dy == py * ow - oy * pw,
            dw == pw * ow,
    ;
    lemma_invert_coord(r.x, ox, e, k, ex, ew, ow, g, d, dx, dw, px, mu);
    lemma_invert_coord(r.y, oy, e, k, ey, ew, ow, g, d, dy, dw, py, mu);
    assert(r.w == mu * pw) by (nonlinear_arith)
        requires
            r.w == ow * e,
            e == (g * g) * d,
            g == k * dw * (ow * ow),
            dw == pw * ow,
            mu == g * d * k * (ow * ow * ow * ow),
    ;
    lemma_mul_pos(pw, ow);
    lemma_square_nonneg(g);
    crate::construct::lemma_mul_nonzero(k, dw);
    crate::construct::lemma_mul_nonzero(k * dw, ow * ow);
    lemma_mul_pos(ow, ow);
    lemma_mul_pos(g * g, d);
    lemma_mul_pos(ow, e);
    assert(mu * px * pw == px * (mu * pw)) by (nonlinear_arith);
    assert(mu * py * pw == py * (mu * pw)) by (nonlinear_arith);
}

/// What a line or a circle becomes under an inversion.
#[derive(Debug, Clone, Copy)]
pub enum LineInverted {
    Line(Line),
    Circle(Circle),
}

/// The image of the line `l` (not through `o`) under the inversion with
/// center `o` and power `k`: the circle through `o` whose center is
/// `o - k (a, b) / (2 l(o))` and whose squared radius is
/// `k^2 (a^2 + b^2) / (4 l(o)^2)`.
pub open spec fn invert_line(l: LineModel, o: PointModel, k: int) -> CircleModel {
    let ll = l.eval(o);
    let x = 2 * ll * o.x - k * l.a * (o.w * o.w);
    let y = 2 * ll * o.y - k * l.b * (o.w * o.w);
    let w = 2 * ll * o.w;
    CircleModel {
        o: if ll > 0 {
            PointModel { x, y, w }
        } else {
            PointModel { x: -x, y: -y, w: -w }
        },
        num: k * k * ((l.a * l.a + l.b * l.b) * (o.w * o.w)),
        den: 4 * (ll * ll),
    }
}

impl Line {
    /// The image under the inversion with center `o` and nonzero power
    /// `power`: the line itself when it passes through `o`, else a circle
    /// through `o`.
    pub fn invert_in(self, o: Point, power: i128) -> (r: LineInverted)
        requires
            self.within(B20 as int),
            o.within(B20 as int),
            -B20 <= power <= B20,
            power != 0,
        ensures
            self@.contains(o@) ==> r == LineInverted::Line(self),
            !self@.contains(o@) ==> (r matches LineInverted::Circle(c) && c@ == invert_line(self@, o@, power as int)
                && c@.wf()),
    {
        let (a, b, c) = (self.a, self.b, self.c);
        proof {
            lemma_mul_le(a as int, o.x as int, B20 as int, B20 as int, B40 as int);
            lemma_mul_le(b as int, o.y as int, B20 as int, B20 as int, B40 as int);
            lemma_mul_le(c as int, o.w as int, B20 as int, B20 as int, B40 as int);
            lemma_mul_le(o.w as int, o.w as int, B20 as int, B20 as int, B40 as int);
            lemma_mul_le(a as int, a as int, B20 as int, B20 as int, B40 as int);
            lemma_mul_le(b as int, b as int, B20 as int, B20 as int, B40 as int);
            lemma_mul_le(power as int, a as int, B20 as int, B20 as int, B40 as int);
            lemma_mul_le(power as int, b as int, B20 as int, B20 as int, B40 as int);
            lemma_mul_le(power as int, power as int, B20 as int, B20 as int, B40 as int);
        }
        let l = a * o.x + b * o.y + c * o.w;
        if l == 0 {
            return LineInverted::Line(self);
        }
        let ww = o.w * o.w;
        let n = a * a + b * b;
        proof {
            lemma_mul_le(l as int, o.x as int, P42 as int, B20 as int, P62 as int);
            lemma_mul_le(l as int, o.y as int, P42 as int, B20 as int, P62 as int);
            lemma_mul_le(l as int, o.w as int, P42 as int, B20 as int, P62 as int);
            lemma_mul_le((power * a) as int, ww as int, B40 as int, B40 as int, P80 as int);
            lemma_mul_le((power * b) as int, ww as int, B40 as int, B40 as int, P80 as int);
            lemma_mul_le(n as int, ww as int, P41 as int, B40 as int, P81 as int);
            lemma_mul_le((power * power) as int, (n * ww) as int, B40 as int, P81 as int, P121 as int);
            lemma_mul_le(l as int, l as int, P42 as int, P42 as int, P84 as int);
            let (li, ki, ai, bi, ox, oy, ow) = (l as int, power as int, a as int, b as int, o.x as int, o.y as int, o.w as int);
            assert(2 * li * ox == 2 * (li * ox) && 2 * li * oy == 2 * (li * oy) && 2 * li * ow == 2 * (li * ow)
                && ki * ai * (ow * ow) == (ki * ai) * (ow * ow) && ki * bi * (ow * ow) == (ki * bi) * (ow * ow)
                && ki * ki * ((ai * ai + bi * bi) * (ow * ow)) == (ki * ki) * ((ai * ai + bi * bi) * (ow * ow)))
                by (nonlinear_arith);
            lemma_square_nonneg(ai);
            lemma_square_nonneg(bi);
            lemma_square_nonneg(li);
            lemma_square_nonneg(ki);
            lemma_mul_pos(ow, ow);
            lemma_mul_pos(ai * ai + bi * bi, ow * ow);
            lemma_mul_pos(ki * ki, (ai * ai + bi * bi) * (ow * ow));
            lemma_mul_sign(li, ow);
        }
        let x = 2 * (l * o.x) - (power * a) * ww;
        let y = 2 * (l * o.y) - (power * b) * ww;
        let w = 2 * (l * o.w);
        let center = if l > 0 { Point { x, y, w } } else { Point { x: -x, y: -y, w: -w } };
        LineInverted::Circle(Circle { o: center, r2: Frac { num: (power * power) * (n * ww), den: 4 * (l * l) } })
    }
}

/// The sign of a product with a positive factor is the sign of the other.
pub proof fn lemma_mul_sign(a: int, b: int) by (nonlinear_arith)
    requires
        b > 0,
    ensures
        a > 0 ==> a * b > 0,
        a < 0 ==> a * b < 0,
{
}

/// `|u|^2 r_den - r_num u_w^2` for `u = c.o - o`: the power of `o` with
/// respect to the circle, times `r_den u_w^2`. It is zero exactly when `o`
/// lies on the circle.
pub open spec fn power_of(c: CircleModel, o: PointModel) -> int {
    let ux = c.o.x * o.w - o.x * c.o.w;
    let uy = c.o.y * o.w - o.y * c.o.w;
    let uw = c.o.w * o.w;
    c.den * (ux * ux + uy * uy) - c.num * (uw * uw)
}

/// The image of a circle through `o` under the inversion with center `o`
/// and power `k`: the line `u . X - u . o - k / 2 = 0`, `u = c.o - o`.
pub open spec fn invert_circle_to_line(c: CircleModel, o: PointModel, k: int) -> LineModel {
    let ux = c.o.x * o.w - o.x * c.o.w;
    let uy = c.o.y * o.w - o.y * c.o.w;
    let uw = c.o.w * o.w;
    LineModel { a: 2 * o.w * ux, b: 2 * o.w * uy, c: -2 * (ux * o.x + uy * o.y) - k * uw * o.w }
}

/// The image of a circle not through `o` under the inversion with center
/// `o` and power `k`: the circle with center `o + k u / s` and squared
/// radius `k^2 r^2 / s^2`, where `u = c.o - o` and `s = |u|^2 - r^2`.
pub open spec fn invert_circle(c: CircleModel, o: PointModel, k: int) -> CircleModel {
    let ux = c.o.x * o.w - o.x * c.o.w;
    let uy = c.o.y * o.w - o.y * c.o.w;
    let uw = c.o.w * o.w;
    let s = power_of(c, o);
    let x = o.x * s + k * c.den * uw * ux * o.w;
    let y = o.y * s + k * c.den * uw * uy * o.w;
    let w = o.w * s;
    CircleModel {
        o: if s > 0 {
            PointModel { x, y, w }
        } else {
            PointModel { x: -x, y: -y, w: -w }
        },
        num: k * k * c.num * c.den * ((uw * uw) * (uw * uw)),
        den: s * s,
    }
}

impl Circle {
    /// The image under the inversion with center `o` and nonzero power
    /// `power`: a line when the circle passes through `o`, else a circle.
    pub fn invert_in(self, o: Point, power: i128) -> (r: LineInverted)
        requires
            self.within(B10 as int),
            o.within(B10 as int),
            -B10 <= power <= B10,
            power != 0,
        ensures
            power_of(self@, o@) == 0 ==> (r matches LineInverted::Line(l) && l@ == invert_circle_to_line(self@, o@, power as int)
                && l@.wf()),
            power_of(self@, o@) != 0 ==> (r matches LineInverted::Circle(c) && c@ == invert_circle(self@, o@, power as int)
                && c@.wf()),
    {
        let c = self.o;
        let (num, den) = (self.r2.num, self.r2.den);
        proof {
            let b = B10 as int;
            lemma_mul_le(c.x as int, o.w as int, b, b, P20 as int);
            lemma_mul_le(o.x as int, c.w as int, b, b, P20 as int);
            lemma_mul_le(c.y as int, o.w as int, b, b, P20 as int);
            lemma_mul_le(o.y as int, c.w as int, b, b, P20 as int);
            lemma_mul_le(c.w as int, o.w as int, b, b, P20 as int);
            lemma_mul_pos(c.w as int, o.w as int);
        }
        let ux = c.x * o.w - o.x * c.w;
        let uy = c.y * o.w - o.y * c.w;
        let uw = c.w * o.w;
        proof {
            lemma_mul_le(ux as int, ux as int, P21 as int, P21 as int, P42 as int);
            lemma_mul_le(uy as int, uy as int, P21 as int, P21 as int, P42 as int);
            lemma_mul_le(uw as int, uw as int, P20 as int, P20 as int, B40 as int);
            lemma_mul_le(den as int, (ux * ux + uy * uy) as int, B10 as int, P43 as int, P53 as int);
            lemma_mul_le(num as int, (uw * uw) as int, B10 as int, B40 as int, P50 as int);
            lemma_square_nonneg(ux as int);
            lemma_square_nonneg(uy as int);
            lemma_mul_pos(uw as int, uw as int);
            lemma_mul_pos(num as int, (uw * uw) as int);
        }
        let s = den * (ux * ux + uy * uy) - num * (uw * uw);
        if s == 0 {
            proof {
                lemma_mul_le(2 * o.w as int, ux as int, P11 as int, P21 as int, P32 as int);
                lemma_mul_le(2 * o.w as int, uy as int, P11 as int, P21 as int, P32 as int);
                lemma_mul_le(ux as int, o.x as int, P21 as int, B10 as int, P31 as int);
                lemma_mul_le(uy as int, o.y as int, P21 as int, B10 as int, P31 as int);
                lemma_mul_le(power as int, uw as int, B10 as int, P20 as int, P30 as int);
                lemma_mul_le((power * uw) as int, o.w as int, P30 as int, B10 as int, B40 as int);
                if ux == 0 && uy == 0 {
                    assert(den * (ux * ux + uy * uy) == 0) by (nonlinear_arith)
                        requires
                            ux == 0 && uy == 0,
                    ;
                }
                let (ow, uxi, uyi) = (o.w as int, ux as int, uy as int);
                assert(2 * ow * uxi != 0 || 2 * ow * uyi != 0) by (nonlinear_arith)
                    requires
                        ow > 0,
                        uxi != 0 || uyi != 0,
                ;
            }
            LineInverted::Line(Line {
                a: 2 * o.w * ux,
                b: 2 * o.w * uy,
                c: -2 * (ux * o.x + uy * o.y) - power * uw * o.w,
            })
        } else {
            proof {
                let n = P54 as int;
                lemma_mul_le(o.x as int, s as int, B10 as int, n, P64 as int);
                lemma_mul_le(o.y as int, s as int, B10 as int, n, P64 as int);
                lemma_mul_le(o.w as int, s as int, B10 as int, n, P64 as int);
                lemma_mul_le(power as int, den as int, B10 as int, B10 as int, P20 as int);
                lemma_mul_le((power * den) as int, uw as int, P20 as int, P20 as int, B40 as int);
                lemma_mul_le((power * den * uw) as int, ux as int, B40 as int, P21 as int, P61 as int);
                lemma_mul_le((power * den * uw) as int, uy as int, B40 as int, P21 as int, P61 as int);
                lemma_mul_le((power * den * uw * ux) as int, o.w as int, P61 as int, B10 as int, P71 as int);
                lemma_mul_le((power * den * uw * uy) as int, o.w as int, P61 as int, B10 as int, P71 as int);
                lemma_mul_le(power as int, power as int, B10 as int, B10 as int, P20 as int);
                lemma_mul_le((power * power) as int, num as int, P20 as int, B10 as int, P30 as int);
                lemma_mul_le((power * power * num) as int, den as int, P30 as int, B10 as int, B40 as int);
                lemma_mul_le((uw * uw) as int, (uw * uw) as int, B40 as int, B40 as int, P80 as int);
                lemma_mul_le((power * power * num * den) as int, ((uw * uw) * (uw * uw)) as int, B40 as int, P80 as int, P120 as int);
                lemma_mul_le(s as int, s as int, n, n, P108 as int);
                lemma_square_nonneg(power as int);
                lemma_square_nonneg(s as int);
                lemma_mul_pos((power * power) as int, num as int);
                lemma_mul_pos((power * power * num) as int, den as int);
                lemma_mul_pos((uw * uw) as int, (uw * uw) as int);
                lemma_mul_pos((power * power * num * den) as int, ((uw * uw) * (uw * uw)) as int);
                lemma_mul_sign(s as int, o.w as int);
                assert((o.w * s) as int == (s * o.w) as int) by (nonlinear_arith);
            }
            let x = o.x * s + power * den * uw * ux * o.w;
            let y = o.y * s + power * den * uw * uy * o.w;
            let w = o.w * s;
            let center = if s > 0 { Point { x, y, w } } else { Point { x: -x, y: -y, w: -w } };
            LineInverted::Circle(Circle {
                o: center,
                r2: Frac { num: power * power * num * den * ((uw * uw) * (uw * uw)), den: s * s },
            })
        }
    }
}

/// The image of `p` under the homothety with center `o` and ratio
/// `rn / rd`: `o + (rn / rd) (p - o)`.
pub open spec fn scale_p(p: PointModel, o: PointModel, rn: int, rd: int) -> PointModel {
    PointModel {
        x: o.x * p.w * rd + rn * (p.x * o.w - o.x * p.w),
        y: o.y * p.w * rd + rn * (p.y * o.w - o.y * p.w),
        w: o.w * p.w * rd,
    }
}

/// The image of the line `l` under the homothety with center `o` and ratio
/// `rn / rd`.
pub open spec fn scale_l(l: LineModel, o: PointModel, rn: int, rd: int) -> LineModel {
    LineModel {
        a: l.a * o.w * rd,
        b: l.b * o.w * rd,
        c: (l.a * o.x + l.b * o.y) * (rn - rd) + l.c * o.w * rn,
    }
}

impl Point {
    /// The image under the homothety with center `o` and ratio `ratio`
    /// (a negative ratio also reflects in `o`).
    pub fn scale(self, o: Point, ratio: Frac) -> (r: Point)
        requires
            self.within(B30 as int),
            o.within(B30 as int),
            ratio.wf(),
            -B30 <= ratio.num <= B30,
            ratio.den <= B30,
        ensures
            r@ == scale_p(self@, o@, ratio.num as int, ratio.den as int),
            r@.wf(),
    {
        proof {
            let b = B30 as int;
            lemma_mul_le(o.x as int, self.w as int, b, b, B60 as int);
            lemma_mul_le(o.y as int, self.w as int, b, b, B60 as int);
            lemma_mul_le(o.w as int, self.w as int, b, b, B60 as int);
            lemma_mul_le(self.x as int, o.w as int, b, b, B60 as int);
            lemma_mul_le(self.y as int, o.w as int, b, b, B60 as int);
            lemma_mul_le((o.x * self.w) as int, ratio.den as int, B60 as int, b, P90 as int);
            lemma_mul_le((o.y * self.w) as int, ratio.den as int, B60 as int, b, P90 as int);
            lemma_mul_le((o.w * self.w) as int, ratio.den as int, B60 as int, b, P90 as int);
            lemma_mul_le(ratio.num as int, (self.x * o.w - o.x * self.w) as int, b, P61 as int, P91 as int);
            lemma_mul_le(ratio.num as int, (self.y * o.w - o.y * self.w) as int, b, P61 as int, P91 as int);
            lemma_mul_pos(o.w as int, self.w as int);
            lemma_mul_pos((o.w * self.w) as int, ratio.den as int);
        }
        Point {
            x: o.x * self.w * ratio.den + ratio.num * (self.x * o.w - o.x * self.w),
            y: o.y * self.w * ratio.den + ratio.num * (self.y * o.w - o.y * self.w),
            w: o.w * self.w * ratio.den,
        }
    }
}

impl Line {
    /// The image under the homothety with center `o` and ratio `ratio`;
    /// the ratio is not zero.
    pub fn scale(self, o: Point, ratio: Frac) -> (r: Line)
        requires
            self.within(B30 as int),
            o.within(B30 as int),
            ratio.wf(),
            -B30 <= ratio.num <= B30,
            ratio.den <= B30,
        ensures
            r@ == scale_l(self@, o@, ratio.num as int, ratio.den as int),
            r@.wf(),
    {
        proof {
            let b = B30 as int;
            lemma_mul_le(self.a as int, o.w as int, b, b, B60 as int);
            lemma_mul_le(self.b as int, o.w as int, b, b, B60 as int);
            lemma_mul_le(self.c as int, o.w as int, b, b, B60 as int);
            lemma_mul_le(self.a as int, o.x as int, b, b, B60 as int);
            lemma_mul_le(self.b as int, o.y as int, b, b, B60 as int);
            lemma_mul_le((self.a * o.w) as int, ratio.den as int, B60 as int, b, P90 as int);
            lemma_mul_le((self.b * o.w) as int, ratio.den as int, B60 as int, b, P90 as int);
            lemma_mul_le((self.c * o.w) as int, ratio.num as int, B60 as int, b, P90 as int);
            lemma_mul_le((self.a * o.x + self.b * o.y) as int, (ratio.num - ratio.den) as int, P61 as int, P31 as int, P92 as int);
            crate::construct::lemma_mul_nonzero(self.a as int, o.w as int);
            crate::construct::lemma_mul_nonzero(self.b as int, o.w as int);
            crate::construct::lemma_mul_nonzero((self.a * o.w) as int, ratio.den as int);
            crate::construct::lemma_mul_nonzero((self.b * o.w) as int, ratio.den as int);
        }
        Line {
            a: self.a * o.w * ratio.den,
            b: self.b * o.w * ratio.den,
            c: (self.a * o.x + self.b * o.y) * (ratio.num - ratio.den) + self.c * o.w * ratio.num,
        }
    }
}

impl Circle {
    /// The image under the homothety with center `o` and nonzero ratio
    /// `ratio`: the center is scaled, and the radius is multiplied by the
    /// absolute value of the ratio (the squared radius by its square).
    pub fn scale(self, o: Point, ratio: Frac) -> (r: Circle)
        requires
            self.within(B30 as int),
            o.within(B30 as int),
            ratio.wf(),
            -B30 <= ratio.num <= B30,
            ratio.den <= B30,
            ratio.num != 0,
        ensures
            r@.o == scale_p(self.o@, o@, ratio.num as int, ratio.den as int),
            r@.num == self.r2.num * (ratio.num * ratio.num),
            r@.den == self.r2.den * (ratio.den * ratio.den),
            r@.wf(),
    {
        proof {
            let b = B30 as int;
            lemma_mul_le(ratio.num as int, ratio.num as int, b, b, B60 as int);
            lemma_mul_le(ratio.den as int, ratio.den as int, b, b, B60 as int);
            lemma_mul_le(self.r2.num as int, (ratio.num * ratio.num) as int, b, B60 as int, P90 as int);
            lemma_mul_le(self.r2.den as int, (ratio.den * ratio.den) as int, b, B60 as int, P90 as int);
            lemma_square_nonneg(ratio.num as int);
            lemma_mul_pos(ratio.den as int, ratio.den as int);
            lemma_mul_pos(self.r2.num as int, (ratio.num * ratio.num) as int);
            lemma_mul_pos(self.r2.den as int, (ratio.den * ratio.den) as int);
        }
        Circle {
            o: self.o.scale(o, ratio),
            r2: Frac { num: self.r2.num * (ratio.num * ratio.num), den: self.r2.den * (ratio.den * ratio.den) },
        }
    }
}

} // verus!
