//! Derived objects: midpoints, centers, parallels, perpendiculars,
//! projections, bisectors and polar lines.
use vstd::prelude::*;
use crate::arith::{lemma_mul_bound, lemma_mul_pos, B30, B40, B60};
use crate::exception::{CalcException, Result};
use crate::objects::{dist_sq_den, dist_sq_num, same_ratio, Circle, CircleModel, Frac, Line, LineModel, Point, PointModel};
use crate::basic::{cramer_d, cramer_x, cramer_y, lemma_line_2p, line_2p};
use crate::arith::{lemma_mul_le, P120, B6, B14, B29, P12, P124, P122, P13, P26, P27, P54, P55, P61, P62, P116, P117, P118, P28, P29, P58, P59, P87, P88, P89};

verus! {

/// The midpoint of `p` and `q` in homogeneous coordinates.
pub open spec fn midpoint_of(p: PointModel, q: PointModel) -> PointModel {
    PointModel { x: p.x * q.w + q.x * p.w, y: p.y * q.w + q.y * p.w, w: 2 * p.w * q.w }
}

/// The midpoint of `p` and `q`.
pub fn midpoint(p: Point, q: Point) -> (r: Point)
    requires
        p.within(B60 as int),
        q.within(B60 as int),
    ensures
        r.x == p.x * q.w + q.x * p.w,
        r.y == p.y * q.w + q.y * p.w,
        r.w == 2 * p.w * q.w,
        r@ == midpoint_of(p@, q@),
        r@.wf(),
{
    proof {
        lemma_mul_bound(p.x as int, q.w as int, B60 as int, B60 as int);
        lemma_mul_bound(q.x as int, p.w as int, B60 as int, B60 as int);
        lemma_mul_bound(p.y as int, q.w as int, B60 as int, B60 as int);
        lemma_mul_bound(q.y as int, p.w as int, B60 as int, B60 as int);
        lemma_mul_bound(p.w as int, q.w as int, B60 as int, B60 as int);
        lemma_mul_pos(p.w as int, q.w as int);
        assert(2 * p.w * q.w == 2 * (p.w * q.w)) by (nonlinear_arith);
    }
    Point { x: p.x * q.w + q.x * p.w, y: p.y * q.w + q.y * p.w, w: 2 * (p.w * q.w) }
}

/// The product of the weights of the first `n` points of `poly`.
pub open spec fn prod_w(poly: Seq<Point>, n: nat) -> int
    decreases n,
{
    if n == 0 {
        1
    } else {
        prod_w(poly, (n - 1) as nat) * poly[n - 1].w
    }
}

/// The sum of the x coordinates `x_i / w_i` of the first `n` points of
/// `poly`, times `prod_w(poly, n)`.
pub open spec fn hsum_x(poly: Seq<Point>, n: nat) -> int
    decreases n,
{
    if n == 0 {
        0
    } else {
        hsum_x(poly, (n - 1) as nat) * poly[n - 1].w + poly[n - 1].x * prod_w(poly, (n - 1) as nat)
    }
}

/// The sum of the y coordinates `y_i / w_i` of the first `n` points of
/// `poly`, times `prod_w(poly, n)`.
pub open spec fn hsum_y(poly: Seq<Point>, n: nat) -> int
    decreases n,
{
    if n == 0 {
        0
    } else {
        hsum_y(poly, (n - 1) as nat) * poly[n - 1].w + poly[n - 1].y * prod_w(poly, (n - 1) as nat)
    }
}

/// The product of weights is at least one and grows with `n`.
proof fn lemma_prod_w_mono(poly: Seq<Point>, i: nat, j: nat)
    requires
        i <= j <= poly.len(),
        forall|k: int| 0 <= k < poly.len() ==> (#[trigger] poly[k]).w >= 1,
    ensures
        1 <= prod_w(poly, i) <= prod_w(poly, j),
    decreases j,
{
    if j > i {
        lemma_prod_w_mono(poly, i, (j - 1) as nat);
        let p = prod_w(poly, (j - 1) as nat);
        let w = poly[j - 1].w as int;
        assert(p <= p * w) by (nonlinear_arith)
            requires
                p >= 1,
                w >= 1,
        ;
    } else if i > 0 {
        lemma_prod_w_mono(poly, (i - 1) as nat, (i - 1) as nat);
        let p = prod_w(poly, (i - 1) as nat);
        let w = poly[i - 1].w as int;
        assert(1 <= p * w) by (nonlinear_arith)
            requires
                p >= 1,
                w >= 1,
        ;
    }
}

/// One step of the running sum stays within its bound:
/// `|s w + x t| <= (i + 1) b (t w)` when `|s| <= i b t` and `|x| <= b`.
proof fn lemma_center_step(s: int, w: int, x: int, t: int, i: int, b: int)
    requires
        -(i * b * t) <= s <= i * b * t,
        -b <= x <= b,
        t >= 1,
        w >= 1,
        i >= 0,
        b >= 0,
    ensures
        -(i * b * (t * w)) <= s * w <= i * b * (t * w),
        -(b * (t * w)) <= x * t <= b * (t * w),
        -((i + 1) * b * (t * w)) <= s * w + x * t <= (i + 1) * b * (t * w),
{
    assert(-(i * b * (t * w)) <= s * w <= i * b * (t * w)) by (nonlinear_arith)
        requires
            -(i * b * t) <= s <= i * b * t,
            w >= 1,
    ;
    assert(-(b * (t * w)) <= x * t <= b * (t * w)) by (nonlinear_arith)
        requires
            -b <= x <= b,
            t >= 1,
            w >= 1,
            b >= 0,
    ;
    assert((i + 1) * b * (t * w) == i * b * (t * w) + b * (t * w)) by (nonlinear_arith);
}

/// `a * p <= k` follows from `a <= n`, `p <= q` and `n * q <= k`, for
/// nonnegative `a`, `p`.
proof fn lemma_mul_mono(a: int, p: int, n: int, q: int, k: int) by (nonlinear_arith)
    requires
        0 <= a <= n,
        0 <= p <= q,
        n * q <= k,
    ensures
        a * p <= k,
{
}

/// The center (arithmetic mean) of the vertices of a polygon:
/// `(sum x_i / w_i, sum y_i / w_i) / n`, in homogeneous coordinates over
/// the product of the weights. The coordinates stay below `2^30`, and the
/// product of the weights times `n 2^30` fits in `2^120`.
pub fn center(poly: &Vec<Point>) -> (r: Point)
    requires
        0 < poly.len(),
        forall|i: int| 0 <= i < poly.len() ==> (#[trigger] poly[i]).within(B30 as int),
        poly.len() * B30 * prod_w(poly@, poly.len() as nat) <= P120,
    ensures
        r.x == hsum_x(poly@, poly.len() as nat),
        r.y == hsum_y(poly@, poly.len() as nat),
        r.w == poly.len() * prod_w(poly@, poly.len() as nat),
        r@.wf(),
{
    let ghost len = poly.len() as nat;
    let ghost b = B30 as int;
    let ghost top = prod_w(poly@, len);
    proof {
        lemma_prod_w_mono(poly@, len, len);
    }
    let mut sx: i128 = 0;
    let mut sy: i128 = 0;
    let mut sw: i128 = 1;
    let mut i: usize = 0;
    while i < poly.len()
        invariant
            i <= poly.len() == len,
            b == B30,
            top == prod_w(poly@, len),
            len * b * top <= P120,
            forall|j: int| 0 <= j < poly.len() ==> (#[trigger] poly[j]).within(B30 as int),
            sx == hsum_x(poly@, i as nat),
            sy == hsum_y(poly@, i as nat),
            sw == prod_w(poly@, i as nat),
            1 <= sw <= top,
            -(i * b * sw) <= sx <= i * b * sw,
            -(i * b * sw) <= sy <= i * b * sw,
        decreases poly.len() - i,
    {
        let p = poly[i];
        proof {
            lemma_prod_w_mono(poly@, (i + 1) as nat, len);
            let t1 = sw * p.w;
            assert(t1 == prod_w(poly@, (i + 1) as nat));
            lemma_center_step(sx as int, p.w as int, p.x as int, sw as int, i as int, b);
            lemma_center_step(sy as int, p.w as int, p.y as int, sw as int, i as int, b);
            lemma_mul_mono((i + 1) * b, t1, len * b, top, P120 as int);
            lemma_mul_mono(b, t1, len * b, top, P120 as int);
            assert(len * b * top == (len * b) * top && (i + 1) * b * t1 == ((i + 1) * b) * t1) by (nonlinear_arith);
            assert(i * b * t1 <= (i + 1) * b * t1 && b * t1 <= (i + 1) * b * t1) by (nonlinear_arith)
                requires
                    t1 >= 1,
                    b >= 0,
                    i >= 0,
            ;
            assert(t1 <= len * b * top) by (nonlinear_arith)
                requires
                    t1 <= top,
                    len >= 1,
                    b >= 1,
                    top >= 1,
            ;
        }
        sx = sx * p.w + p.x * sw;
        sy = sy * p.w + p.y * sw;
        sw = sw * p.w;
        i = i + 1;
    }
    let n = poly.len() as i128;
    proof {
        assert(n * sw <= len * b * top) by (nonlinear_arith)
            requires
                n == len,
                1 <= sw <= top,
                b >= 1,
                len >= 1,
        ;
        lemma_mul_pos(n as int, sw as int);
    }
    Point { x: sx, y: sy, w: n * sw }
}

/// The line through `p` parallel to `l`.
pub fn parallel(p: Point, l: Line) -> (r: Line)
    requires
        p.within(B60 as int),
        l.within(B60 as int),
    ensures
        r.a == l.a * p.w,
        r.b == l.b * p.w,
        r.c == -(l.a * p.x + l.b * p.y),
        r@.wf(),
        r@.contains(p@),
        r@.parallel_to(l@),
{
    proof {
        lemma_mul_bound(l.a as int, p.w as int, B60 as int, B60 as int);
        lemma_mul_bound(l.b as int, p.w as int, B60 as int, B60 as int);
        lemma_mul_bound(l.a as int, p.x as int, B60 as int, B60 as int);
        lemma_mul_bound(l.b as int, p.y as int, B60 as int, B60 as int);
        lemma_mul_nonzero(l.a as int, p.w as int);
        lemma_mul_nonzero(l.b as int, p.w as int);
        let (a, b, px, py, pw) = (l.a as int, l.b as int, p.x as int, p.y as int, p.w as int);
        assert(a * pw * px + b * pw * py + -(a * px + b * py) * pw == 0) by (nonlinear_arith);
        assert(a * pw * b == b * pw * a) by (nonlinear_arith);
    }
    Line { a: l.a * p.w, b: l.b * p.w, c: -(l.a * p.x + l.b * p.y) }
}

/// The line through `p` perpendicular to `l`, in homogeneous form.
pub open spec fn perp_of(p: PointModel, l: LineModel) -> LineModel {
    LineModel { a: -(l.b * p.w), b: l.a * p.w, c: l.b * p.x - l.a * p.y }
}

/// The line through `p` perpendicular to `l`.
pub fn perp(p: Point, l: Line) -> (r: Line)
    requires
        p.within(B60 as int),
        l.within(B60 as int),
    ensures
        r.a == -(l.b * p.w),
        r.b == l.a * p.w,
        r.c == l.b * p.x - l.a * p.y,
        r@ == perp_of(p@, l@),
        r@.wf(),
        r@.contains(p@),
        r.a * l.a + r.b * l.b == 0,
{
    proof {
        lemma_mul_bound(l.a as int, p.w as int, B60 as int, B60 as int);
        lemma_mul_bound(l.b as int, p.w as int, B60 as int, B60 as int);
        lemma_mul_bound(l.a as int, p.y as int, B60 as int, B60 as int);
        lemma_mul_bound(l.b as int, p.x as int, B60 as int, B60 as int);
        lemma_mul_nonzero(l.a as int, p.w as int);
        lemma_mul_nonzero(l.b as int, p.w as int);
        let (a, b, px, py, pw) = (l.a as int, l.b as int, p.x as int, p.y as int, p.w as int);
        assert(-(b * pw) * px + a * pw * py + (b * px - a * py) * pw == 0) by (nonlinear_arith);
        assert(-(b * pw) * a + a * pw * b == 0) by (nonlinear_arith);
    }
    Line { a: -(l.b * p.w), b: l.a * p.w, c: l.b * p.x - l.a * p.y }
}

/// A product of nonzero integers is nonzero.
pub proof fn lemma_mul_nonzero(a: int, b: int) by (nonlinear_arith)
    ensures
        a != 0 && b != 0 ==> a * b != 0,
        a == 0 ==> a * b == 0,
{
}

pub proof fn lemma_projection_on_line(a: int, b: int, c: int, px: int, py: int, pw: int)
    ensures
        a * (b * b * px - a * c * pw - a * b * py) + b * (a * a * py - b * c * pw - a * b * px) + c
            * ((a * a + b * b) * pw) == 0,
        (b * b) * px == b * b * px,
        (a * c) * pw == a * c * pw,
        (a * b) * py == a * b * py,
        (a * a) * py == a * a * py,
        (b * c) * pw == b * c * pw,
        (a * b) * px == a * b * px,
{
    assert(a * (b * b * px) == a * b * b * px) by (nonlinear_arith);
    assert(a * (a * c * pw) == a * a * c * pw) by (nonlinear_arith);
    assert(a * (a * b * py) == a * a * b * py) by (nonlinear_arith);
    assert(b * (a * a * py) == a * a * b * py) by (nonlinear_arith);
    assert(b * (b * c * pw) == b * b * c * pw) by (nonlinear_arith);
    assert(b * (a * b * px) == a * b * b * px) by (nonlinear_arith);
    assert(c * ((a * a + b * b) * pw) == a * a * c * pw + b * b * c * pw) by (nonlinear_arith);
    assert(a * (b * b * px - a * c * pw - a * b * py) == a * (b * b * px) - a * (a * c * pw) - a * (a * b * py)) by (nonlinear_arith);
    assert(b * (a * a * py - b * c * pw - a * b * px) == b * (a * a * py) - b * (b * c * pw) - b * (a * b * px)) by (nonlinear_arith);
    assert((b * b) * px == b * b * px) by (nonlinear_arith);
    assert((a * c) * pw == a * c * pw) by (nonlinear_arith);
    assert((a * b) * py == a * b * py) by (nonlinear_arith);
    assert((a * a) * py == a * a * py) by (nonlinear_arith);
    assert((b * c) * pw == b * c * pw) by (nonlinear_arith);
    assert((a * b) * px == a * b * px) by (nonlinear_arith);
}

/// The foot of the perpendicular from `p` to `l`.
pub fn projection(p: Point, l: Line) -> (r: Point)
    requires
        p.within(B40 as int),
        l.within(B40 as int),
    ensures
        r.x == l.b * l.b * p.x - l.a * l.c * p.w - l.a * l.b * p.y,
        r.y == l.a * l.a * p.y - l.b * l.c * p.w - l.a * l.b * p.x,
        r.w == (l.a * l.a + l.b * l.b) * p.w,
        r@.wf(),
        l@.contains(r@),
{
    let (a, b, c) = (l.a, l.b, l.c);
    proof {
        lemma_mul_bound(a as int, a as int, B40 as int, B40 as int);
        lemma_mul_bound(b as int, b as int, B40 as int, B40 as int);
        lemma_mul_bound(a as int, b as int, B40 as int, B40 as int);
        lemma_mul_bound(a as int, c as int, B40 as int, B40 as int);
        lemma_mul_bound(b as int, c as int, B40 as int, B40 as int);
        lemma_mul_bound((b * b) as int, p.x as int, (B40 * B40) as int, B40 as int);
        lemma_mul_bound((a * a) as int, p.y as int, (B40 * B40) as int, B40 as int);
        lemma_mul_bound((a * b) as int, p.x as int, (B40 * B40) as int, B40 as int);
        lemma_mul_bound((a * b) as int, p.y as int, (B40 * B40) as int, B40 as int);
        lemma_mul_bound((a * c) as int, p.w as int, (B40 * B40) as int, B40 as int);
        lemma_mul_bound((b * c) as int, p.w as int, (B40 * B40) as int, B40 as int);
        lemma_mul_bound((a * a + b * b) as int, p.w as int, (2 * B40 * B40) as int, B40 as int);
        crate::arith::lemma_square_nonneg(a as int);
        crate::arith::lemma_square_nonneg(b as int);
        lemma_mul_pos((a * a + b * b) as int, p.w as int);
        let (a, b, c, px, py, pw) = (a as int, b as int, c as int, p.x as int, p.y as int, p.w as int);
        lemma_projection_on_line(a, b, c, px, py, pw);
    }
    let n = a * a + b * b;
    Point {
        x: (b * b) * p.x - (a * c) * p.w - (a * b) * p.y,
        y: (a * a) * p.y - (b * c) * p.w - (a * b) * p.x,
        w: n * p.w,
    }
}

/// The midpoint of two distinct points is as far from one as from the
/// other, and lies on the line through them.
pub proof fn midpoint_equidistant(p: PointModel, q: PointModel)
    requires
        p.wf(),
        q.wf(),
        !p.same(q),
    ensures
        same_ratio(
            dist_sq_num(p, midpoint_of(p, q)),
            dist_sq_den(p, midpoint_of(p, q)),
            dist_sq_num(midpoint_of(p, q), q),
            dist_sq_den(midpoint_of(p, q), q),
        ),
        line_2p(p, q).contains(midpoint_of(p, q)),
{
    let m = midpoint_of(p, q);
    let u = p.x * q.w - q.x * p.w;
    let v = p.y * q.w - q.y * p.w;
    assert(p.x * m.w - m.x * p.w == p.w * u) by (nonlinear_arith)
        requires
            m.x == p.x * q.w + q.x * p.w,
            m.w == 2 * p.w * q.w,
            u == p.x * q.w - q.x * p.w,
    ;
    assert(p.y * m.w - m.y * p.w == p.w * v) by (nonlinear_arith)
        requires
            m.y == p.y * q.w + q.y * p.w,
            m.w == 2 * p.w * q.w,
            v == p.y * q.w - q.y * p.w,
    ;
    assert(m.x * q.w - q.x * m.w == q.w * u) by (nonlinear_arith)
        requires
            m.x == p.x * q.w + q.x * p.w,
            m.w == 2 * p.w * q.w,
            u == p.x * q.w - q.x * p.w,
    ;
    assert(m.y * q.w - q.y * m.w == q.w * v) by (nonlinear_arith)
        requires
            m.y == p.y * q.w + q.y * p.w,
            m.w == 2 * p.w * q.w,
            v == p.y * q.w - q.y * p.w,
    ;
    let (pw, qw, mw) = (p.w, q.w, m.w);
    assert((pw * u) * (pw * u) + (pw * v) * (pw * v) == (pw * pw) * (u * u + v * v)) by (nonlinear_arith);
    assert((qw * u) * (qw * u) + (qw * v) * (qw * v) == (qw * qw) * (u * u + v * v)) by (nonlinear_arith);
    let z = u * u + v * v;
    lemma_cross_ratio(pw, qw, mw, z);
    lemma_line_2p(p, q);
    let l = line_2p(p, q);
    lemma_eval_comb(l.a, l.b, l.c, p.x, p.y, p.w, q.x, q.y, q.w);
}

/// A line's value at `qw p + pw q` is `qw l(p) + pw l(q)`.
proof fn lemma_eval_comb(a: int, b: int, c: int, px: int, py: int, pw: int, qx: int, qy: int, qw: int)
    ensures
        a * (px * qw + qx * pw) + b * (py * qw + qy * pw) + c * (2 * pw * qw) == qw * (a * px + b * py + c
            * pw) + pw * (a * qx + b * qy + c * qw),
{
    assert(a * (px * qw + qx * pw) == qw * (a * px) + pw * (a * qx)) by (nonlinear_arith);
    assert(b * (py * qw + qy * pw) == qw * (b * py) + pw * (b * qy)) by (nonlinear_arith);
    assert(c * (2 * pw * qw) == qw * (c * pw) + pw * (c * qw)) by (nonlinear_arith);
    assert(qw * (a * px) + qw * (b * py) + qw * (c * pw) == qw * (a * px + b * py + c * pw)) by (nonlinear_arith);
    assert(pw * (a * qx) + pw * (b * qy) + pw * (c * qw) == pw * (a * qx + b * qy + c * qw)) by (nonlinear_arith);
}

/// `(a^2 z) (c b)^2 = (b^2 z) (a c)^2`.
proof fn lemma_cross_ratio(a: int, b: int, c: int, z: int)
    ensures
        ((a * a) * z) * ((c * b) * (c * b)) == ((b * b) * z) * ((a * c) * (a * c)),
{
    assert((c * b) * (c * b) == (c * c) * (b * b)) by (nonlinear_arith);
    assert((a * c) * (a * c) == (a * a) * (c * c)) by (nonlinear_arith);
    let (aa, bb, cc) = (a * a, b * b, c * c);
    assert((aa * z) * (cc * bb) == (bb * z) * (aa * cc)) by (nonlinear_arith);
}

/// The perpendicular bisector of `p` and `q`, as the perpendicular through
/// their midpoint to the line through them.
pub open spec fn perp_bisect_of(p: PointModel, q: PointModel) -> LineModel {
    let m = midpoint_of(p, q);
    let l = line_2p(p, q);
    LineModel { a: -(l.b * m.w), b: l.a * m.w, c: l.b * m.x - l.a * m.y }
}

/// The perpendicular bisector of two points; fails with `OverlappingPoint`
/// when they coincide.
pub fn perp_bisect(p: Point, q: Point) -> (r: Result<Line>)
    requires
        p.within(B29 as int),
        q.within(B29 as int),
    ensures
        p@.same(q@) ==> r == Err::<Line, CalcException>(CalcException::OverlappingPoint),
        !p@.same(q@) ==> (r matches Ok(l) && l@ == perp_bisect_of(p@, q@) && l@.wf()
            && l@.contains(midpoint_of(p@, q@))
            && l.a * line_2p(p@, q@).a + l.b * line_2p(p@, q@).b == 0
            && (p.within(B14 as int) && q.within(B14 as int) ==> l.within(P59 as int))
            && (p.within(B6 as int) && q.within(B6 as int) ==> l.within(P27 as int))),
{
    proof {
        lemma_bisect_bounds(p, q);
    }
    let l = Line::from_2p(p, q)?;
    let m = midpoint(p, q);
    proof {
        if p.within(B14 as int) && q.within(B14 as int) {
            let c = P29 as int;
            lemma_mul_le(l.b as int, m.w as int, c, c, P58 as int);
            lemma_mul_le(l.a as int, m.w as int, c, c, P58 as int);
            lemma_mul_le(l.b as int, m.x as int, c, c, P58 as int);
            lemma_mul_le(l.a as int, m.y as int, c, c, P58 as int);
        }
        if p.within(B6 as int) && q.within(B6 as int) {
            let c = P13 as int;
            lemma_mul_le(l.b as int, m.w as int, c, c, P26 as int);
            lemma_mul_le(l.a as int, m.w as int, c, c, P26 as int);
            lemma_mul_le(l.b as int, m.x as int, c, c, P26 as int);
            lemma_mul_le(l.a as int, m.y as int, c, c, P26 as int);
        }
    }
    Ok(perp(m, l))
}

/// The sizes of the midpoint and the line through two points.
proof fn lemma_bisect_bounds(p: Point, q: Point)
    requires
        p.within(B29 as int),
        q.within(B29 as int),
    ensures
        midpoint_of(p@, q@).x <= P59 && midpoint_of(p@, q@).x >= -P59,
        midpoint_of(p@, q@).y <= P59 && midpoint_of(p@, q@).y >= -P59,
        midpoint_of(p@, q@).w <= P59,
        -P59 <= line_2p(p@, q@).a <= P59,
        -P59 <= line_2p(p@, q@).b <= P59,
        -P59 <= line_2p(p@, q@).c <= P59,
        p.within(B6 as int) && q.within(B6 as int) ==> {
            &&& -P13 <= midpoint_of(p@, q@).x <= P13
            &&& -P13 <= midpoint_of(p@, q@).y <= P13
            &&& midpoint_of(p@, q@).w <= P13
            &&& -P13 <= line_2p(p@, q@).a <= P13
            &&& -P13 <= line_2p(p@, q@).b <= P13
            &&& -P13 <= line_2p(p@, q@).c <= P13
        },
        p.within(B14 as int) && q.within(B14 as int) ==> {
            &&& -P29 <= midpoint_of(p@, q@).x <= P29
            &&& -P29 <= midpoint_of(p@, q@).y <= P29
            &&& midpoint_of(p@, q@).w <= P29
            &&& -P29 <= line_2p(p@, q@).a <= P29
            &&& -P29 <= line_2p(p@, q@).b <= P29
            &&& -P29 <= line_2p(p@, q@).c <= P29
        },
{
    let b = B29 as int;
    lemma_mul_le(p.x as int, q.w as int, b, b, P58 as int);
    lemma_mul_le(q.x as int, p.w as int, b, b, P58 as int);
    lemma_mul_le(p.y as int, q.w as int, b, b, P58 as int);
    lemma_mul_le(q.y as int, p.w as int, b, b, P58 as int);
    lemma_mul_le(p.w as int, q.w as int, b, b, P58 as int);
    lemma_mul_le(p.x as int, q.y as int, b, b, P58 as int);
    lemma_mul_le(p.y as int, q.x as int, b, b, P58 as int);
    assert(2 * p.w * q.w == 2 * (p.w * q.w)) by (nonlinear_arith);
    if p.within(B6 as int) && q.within(B6 as int) {
        let c = B6 as int;
        lemma_mul_le(p.x as int, q.w as int, c, c, P12 as int);
        lemma_mul_le(q.x as int, p.w as int, c, c, P12 as int);
        lemma_mul_le(p.y as int, q.w as int, c, c, P12 as int);
        lemma_mul_le(q.y as int, p.w as int, c, c, P12 as int);
        lemma_mul_le(p.w as int, q.w as int, c, c, P12 as int);
        lemma_mul_le(p.x as int, q.y as int, c, c, P12 as int);
        lemma_mul_le(p.y as int, q.x as int, c, c, P12 as int);
    }
    if p.within(B14 as int) && q.within(B14 as int) {
        let c = B14 as int;
        lemma_mul_le(p.x as int, q.w as int, c, c, P28 as int);
        lemma_mul_le(q.x as int, p.w as int, c, c, P28 as int);
        lemma_mul_le(p.y as int, q.w as int, c, c, P28 as int);
        lemma_mul_le(q.y as int, p.w as int, c, c, P28 as int);
        lemma_mul_le(p.w as int, q.w as int, c, c, P28 as int);
        lemma_mul_le(p.x as int, q.y as int, c, c, P28 as int);
        lemma_mul_le(p.y as int, q.x as int, c, c, P28 as int);
    }
}

/// The polar line of `p` with respect to the circle `c`.
pub open spec fn polar_of(p: PointModel, c: CircleModel) -> LineModel {
    let o = c.o;
    LineModel {
        a: (p.x * o.w - o.x * p.w) * o.w * c.den,
        b: (p.y * o.w - o.y * p.w) * o.w * c.den,
        c: c.den * (o.x * (o.x * p.w - p.x * o.w) + o.y * (o.y * p.w - p.y * o.w)) - c.num * (o.w * o.w)
            * p.w,
    }
}

/// The polar line of a point with respect to a circle; fails with
/// `ZeroCoefficient` when the point is the center.
pub fn polar_line(p: Point, c: Circle) -> (r: Result<Line>)
    requires
        p.within(B29 as int),
        c.within(B29 as int),
    ensures
        p@.same(c.o@) ==> r == Err::<Line, CalcException>(CalcException::ZeroCoefficient),
        !p@.same(c.o@) ==> (r matches Ok(l) && l@ == polar_of(p@, c@) && l@.wf()),
{
    let o = c.o;
    let (num, den) = (c.r2.num, c.r2.den);
    proof {
        let b = B29 as int;
        lemma_mul_le(p.x as int, o.w as int, b, b, P58 as int);
        lemma_mul_le(o.x as int, p.w as int, b, b, P58 as int);
        lemma_mul_le(p.y as int, o.w as int, b, b, P58 as int);
        lemma_mul_le(o.y as int, p.w as int, b, b, P58 as int);
        lemma_mul_le(o.w as int, den as int, b, b, P58 as int);
        lemma_mul_le(o.w as int, o.w as int, b, b, P58 as int);
    }
    let dx = p.x * o.w - o.x * p.w;
    let dy = p.y * o.w - o.y * p.w;
    if dx == 0 && dy == 0 {
        return Err(CalcException::ZeroCoefficient);
    }
    proof {
        let b = B29 as int;
        lemma_mul_le(dx as int, o.w as int, P59 as int, b, P88 as int);
        lemma_mul_le(dy as int, o.w as int, P59 as int, b, P88 as int);
        lemma_mul_le((dx * o.w) as int, den as int, P88 as int, b, P117 as int);
        lemma_mul_le((dy * o.w) as int, den as int, P88 as int, b, P117 as int);
        lemma_mul_le(o.x as int, -dx as int, b, P59 as int, P88 as int);
        lemma_mul_le(o.y as int, -dy as int, b, P59 as int, P88 as int);
        lemma_mul_le(den as int, (o.x * -dx + o.y * -dy) as int, b, P89 as int, P118 as int);
        lemma_mul_le(num as int, (o.w * o.w) as int, b, P58 as int, P87 as int);
        lemma_mul_le((num * (o.w * o.w)) as int, p.w as int, P87 as int, b, P116 as int);
        let (dxi, dyi, ow, di) = (dx as int, dy as int, o.w as int, den as int);
        assert(dxi * ow * di != 0 || dyi * ow * di != 0) by (nonlinear_arith)
            requires
                ow > 0,
                di > 0,
                dxi != 0 || dyi != 0,
        ;
        assert(o.x * p.w - p.x * o.w == -dx && o.y * p.w - p.y * o.w == -dy);
    }
    Ok(Line {
        a: dx * o.w * den,
        b: dy * o.w * den,
        c: den * (o.x * -dx + o.y * -dy) - num * (o.w * o.w) * p.w,
    })
}

/// The value of the perpendicular `(-b mw, a mw, b mx - a my)` at `p`.
proof fn lemma_eval_perp(ka: int, kb: int, kc: int, a: int, b: int, mx: int, my: int, mw: int, px: int, py: int, pw: int)
    requires
        ka == -(b * mw),
        kb == a * mw,
        kc == b * mx - a * my,
    ensures
        ka * px + kb * py + kc * pw == b * (mx * pw - mw * px) - a * (my * pw - mw * py),
{
    assert(ka * px == -(b * (mw * px))) by (nonlinear_arith)
        requires
            ka == -(b * mw),
    ;
    assert(kb * py == a * (mw * py)) by (nonlinear_arith)
        requires
            kb == a * mw,
    ;
    assert(kc * pw == b * (mx * pw) - a * (my * pw)) by (nonlinear_arith)
        requires
            kc == b * mx - a * my,
    ;
    assert(b * (mx * pw - mw * px) == b * (mx * pw) - b * (mw * px)) by (nonlinear_arith);
    assert(a * (my * pw - mw * py) == a * (my * pw) - a * (mw * py)) by (nonlinear_arith);
}

/// A line's values at two representatives of one point differ by the ratio
/// of their weights.
proof fn lemma_eval_scaled(a: int, b: int, c: int, xx: int, xy: int, xw: int, px: int, py: int, pw: int)
    requires
        xx * pw == px * xw,
        xy * pw == py * xw,
    ensures
        (a * xx + b * xy + c * xw) * pw == (a * px + b * py + c * pw) * xw,
{
    lemma_distrib3(a, b, c, xx, xy, xw, pw);
    lemma_distrib3(a, b, c, px, py, pw, xw);
    assert(xw * pw == pw * xw) by (nonlinear_arith);
}

/// `(a x + b y + c z) t = a (x t) + b (y t) + c (z t)`.
proof fn lemma_distrib3(a: int, b: int, c: int, x: int, y: int, z: int, t: int)
    ensures
        (a * x + b * y + c * z) * t == a * (x * t) + b * (y * t) + c * (z * t),
{
    assert((a * x + b * y + c * z) * t == (a * x) * t + (b * y) * t + (c * z) * t) by (nonlinear_arith);
    assert((a * x) * t == a * (x * t)) by (nonlinear_arith);
    assert((b * y) * t == b * (y * t)) by (nonlinear_arith);
    assert((c * z) * t == c * (z * t)) by (nonlinear_arith);
}

/// A point is never on its own perpendicular bisector with another point:
/// the bisector's value there is `p.w (a^2 + b^2)`, for `(a, b, c)` the
/// line through the two points.
pub proof fn lemma_bisect_off(p: PointModel, q: PointModel, x: PointModel)
    requires
        p.wf(),
        q.wf(),
        x.wf(),
        !p.same(q),
        x.same(p),
    ensures
        !perp_bisect_of(p, q).contains(x),
{
    let l = line_2p(p, q);
    let m = midpoint_of(p, q);
    let k = perp_bisect_of(p, q);
    let (a, b) = (l.a, l.b);
    assert(m.x * p.w - m.w * p.x == p.w * b) by (nonlinear_arith)
        requires
            m.x == p.x * q.w + q.x * p.w,
            m.w == 2 * p.w * q.w,
            b == q.x * p.w - p.x * q.w,
    ;
    assert(m.y * p.w - m.w * p.y == -(p.w * a)) by (nonlinear_arith)
        requires
            m.y == p.y * q.w + q.y * p.w,
            m.w == 2 * p.w * q.w,
            a == p.y * q.w - q.y * p.w,
    ;
    lemma_eval_perp(k.a, k.b, k.c, a, b, m.x, m.y, m.w, p.x, p.y, p.w);
    assert(k.eval(p) == p.w * (a * a + b * b)) by (nonlinear_arith)
        requires
            k.eval(p) == b * (p.w * b) - a * (-(p.w * a)),
    ;
    lemma_line_2p(p, q);
    crate::arith::lemma_square_nonneg(a);
    crate::arith::lemma_square_nonneg(b);
    crate::arith::lemma_mul_pos(p.w, a * a + b * b);
    lemma_eval_scaled(k.a, k.b, k.c, x.x, x.y, x.w, p.x, p.y, p.w);
    crate::arith::lemma_mul_pos(k.eval(p), x.w);
}

/// The intersection of two lines whose coefficients are below `2^27` lies
/// below `2^55`.
proof fn lemma_cramer_bound(l: Line, k: Line)
    requires
        l.within(P27 as int),
        k.within(P27 as int),
    ensures
        -P55 <= cramer_x(l@, k@) <= P55,
        -P55 <= cramer_y(l@, k@) <= P55,
        -P55 <= cramer_d(l@, k@) <= P55,
{
    let b = P27 as int;
    lemma_mul_le(l.b as int, k.c as int, b, b, P54 as int);
    lemma_mul_le(k.b as int, l.c as int, b, b, P54 as int);
    lemma_mul_le(l.c as int, k.a as int, b, b, P54 as int);
    lemma_mul_le(k.c as int, l.a as int, b, b, P54 as int);
    lemma_mul_le(l.a as int, k.b as int, b, b, P54 as int);
    lemma_mul_le(k.a as int, l.b as int, b, b, P54 as int);
}

impl Circle {
    /// The circle through three points. Fails with `OverlappingPoint` when
    /// two of them coincide, and with `NoIntersection` when the
    /// perpendicular bisectors do not meet (the points are collinear).
    pub fn from_3p(a: Point, b: Point, c: Point) -> (r: Result<Circle>)
        requires
            a.within(B6 as int),
            b.within(B6 as int),
            c.within(B6 as int),
        ensures
            a@.same(b@) || b@.same(c@) || a@.same(c@) ==> r == Err::<Circle, CalcException>(
                CalcException::OverlappingPoint,
            ),
            !(a@.same(b@) || b@.same(c@) || a@.same(c@)) && perp_bisect_of(a@, b@).parallel_to(
                perp_bisect_of(b@, c@),
            ) ==> r == Err::<Circle, CalcException>(CalcException::NoIntersection),
            !(a@.same(b@) || b@.same(c@) || a@.same(c@)) && !perp_bisect_of(a@, b@).parallel_to(
                perp_bisect_of(b@, c@),
            ) ==> (r matches Ok(cir) && cir@.wf() && perp_bisect_of(a@, b@).contains(cir.o@)
                && perp_bisect_of(b@, c@).contains(cir.o@) && cir@.contains(a@) && cir@.contains(b@)
                && cir@.contains(c@)
                && cir.r2.num == dist_sq_num(cir.o@, a@) && cir.r2.den == dist_sq_den(cir.o@, a@)),
    {
        if a.is_same(&b) || b.is_same(&c) || a.is_same(&c) {
            return Err(CalcException::OverlappingPoint);
        }
        let l1 = perp_bisect(a, b)?;
        let l2 = perp_bisect(b, c)?;
        proof {
            lemma_cramer_bound(l1, l2);
        }
        let o = l1.inter(l2)?;
        proof {
            let n = P55 as int;
            let m = B6 as int;
            lemma_mul_le(o.x as int, a.w as int, n, m, P61 as int);
            lemma_mul_le(a.x as int, o.w as int, m, n, P61 as int);
            lemma_mul_le(o.y as int, a.w as int, n, m, P61 as int);
            lemma_mul_le(a.y as int, o.w as int, m, n, P61 as int);
            lemma_mul_le(o.w as int, a.w as int, n, m, P61 as int);
        }
        let dx = o.x * a.w - a.x * o.w;
        let dy = o.y * a.w - a.y * o.w;
        let ww = o.w * a.w;
        proof {
            lemma_mul_le(dx as int, dx as int, P62 as int, P62 as int, P124 as int);
            lemma_mul_le(dy as int, dy as int, P62 as int, P62 as int, P124 as int);
            lemma_mul_le(ww as int, ww as int, P61 as int, P61 as int, P122 as int);
            if o@.same(a@) {
                lemma_bisect_off(a@, b@, o@);
            }
            crate::basic::lemma_dist_sq_pos(o@, a@);
            let (nn, dd) = (dist_sq_num(o@, a@), dist_sq_den(o@, a@));
            assert(nn * dd == dd * nn) by (nonlinear_arith);
            perp_bisect_equidistant(a@, b@, o@);
            perp_bisect_equidistant(b@, c@, o@);
            crate::basic::lemma_dist_sq_pos(o@, b@);
            lemma_ratio_trans(nn, dd, dist_sq_num(o@, b@), dist_sq_den(o@, b@), dist_sq_num(o@, c@), dist_sq_den(o@, c@));
        }
        Ok(Circle { o, r2: Frac { num: dx * dx + dy * dy, den: ww * ww } })
    }
}

/// Equal ratios are symmetric and transitive (through a positive
/// denominator).
proof fn lemma_ratio_trans(n1: int, d1: int, n2: int, d2: int, n3: int, d3: int)
    requires
        d2 > 0,
        same_ratio(n1, d1, n2, d2),
        same_ratio(n2, d2, n3, d3),
    ensures
        same_ratio(n2, d2, n1, d1),
        same_ratio(n3, d3, n1, d1),
{
    assert(n3 * d1 * d2 == n1 * d3 * d2) by (nonlinear_arith)
        requires
            n1 * d2 == n2 * d1,
            n2 * d3 == n3 * d2,
    ;
    assert(n3 * d1 == n1 * d3) by (nonlinear_arith)
        requires
            n3 * d1 * d2 == n1 * d3 * d2,
            d2 > 0,
    ;
}

/// `(g - s)^2 - (g - t)^2 = (t - s) (2 g - s - t)`.
proof fn lemma_diff_sq(g: int, s: int, t: int) by (nonlinear_arith)
    ensures
        (g - s) * (g - s) - (g - t) * (g - t) == (t - s) * (2 * g - s - t),
{
}

/// `(e w)^2 = e^2 w^2`, with `e w` written out for `e = x p - y q`.
proof fn lemma_scaled_sq(x: int, p: int, y: int, q: int, w: int)
    ensures
        ((x * p - y * q) * (x * p - y * q)) * (w * w) == (x * p * w - y * q * w) * (x * p * w - y * q * w),
{
    let e = x * p - y * q;
    assert((e * e) * (w * w) == (e * w) * (e * w)) by (nonlinear_arith);
    assert(e * w == x * p * w - y * q * w) by (nonlinear_arith)
        requires
            e == x * p - y * q,
    ;
}

/// The squared distances from `(xx, xy, xw)` to `p` and to `q`, each
/// brought to the denominator `(xw p.w q.w)^2`, differ by `-xw` times the
/// value of the perpendicular bisector at the point.
proof fn lemma_bisect_identity(xx: int, xy: int, xw: int, px: int, py: int, pw: int, qx: int, qy: int, qw: int)
    ensures
        ((xx * pw - px * xw) * (xx * pw - px * xw) + (xy * pw - py * xw) * (xy * pw - py * xw)) * (qw * qw)
            - ((xx * qw - qx * xw) * (xx * qw - qx * xw) + (xy * qw - qy * xw) * (xy * qw - qy * xw)) * (pw
            * pw) == -xw * ((qx * pw - px * qw) * ((px * qw + qx * pw) * xw - (2 * pw * qw) * xx) - (py * qw
            - qy * pw) * ((py * qw + qy * pw) * xw - (2 * pw * qw) * xy)),
{
    lemma_scaled_sq(xx, pw, px, xw, qw);
    lemma_scaled_sq(xy, pw, py, xw, qw);
    lemma_scaled_sq(xx, qw, qx, xw, pw);
    lemma_scaled_sq(xy, qw, qy, xw, pw);
    let g = xx * pw * qw;
    let h = xy * pw * qw;
    let (s1, t1) = (px * xw * qw, qx * xw * pw);
    let (s2, t2) = (py * xw * qw, qy * xw * pw);
    assert(xx * qw * pw == g && xy * qw * pw == h) by (nonlinear_arith)
        requires
            g == xx * pw * qw,
            h == xy * pw * qw,
    ;
    assert(((xx * pw - px * xw) * (xx * pw - px * xw) + (xy * pw - py * xw) * (xy * pw - py * xw)) * (qw * qw)
        == ((xx * pw - px * xw) * (xx * pw - px * xw)) * (qw * qw) + ((xy * pw - py * xw) * (xy * pw - py
        * xw)) * (qw * qw)) by (nonlinear_arith);
    assert(((xx * qw - qx * xw) * (xx * qw - qx * xw) + (xy * qw - qy * xw) * (xy * qw - qy * xw)) * (pw * pw)
        == ((xx * qw - qx * xw) * (xx * qw - qx * xw)) * (pw * pw) + ((xy * qw - qy * xw) * (xy * qw - qy
        * xw)) * (pw * pw)) by (nonlinear_arith);
    lemma_diff_sq(g, s1, t1);
    lemma_diff_sq(h, s2, t2);
    assert(t1 - s1 == xw * (qx * pw - px * qw)) by (nonlinear_arith)
        requires
            s1 == px * xw * qw,
            t1 == qx * xw * pw,
    ;
    assert((2 * pw * qw) * xx == 2 * g) by (nonlinear_arith)
        requires
            g == xx * pw * qw,
    ;
    assert((px * qw + qx * pw) * xw == s1 + t1) by (nonlinear_arith)
        requires
            s1 == px * xw * qw,
            t1 == qx * xw * pw,
    ;
    lemma_neg_prod(xw, qx * pw - px * qw, (px * qw + qx * pw) * xw - (2 * pw * qw) * xx);
    assert(t2 - s2 == -(xw * (py * qw - qy * pw))) by (nonlinear_arith)
        requires
            s2 == py * xw * qw,
            t2 == qy * xw * pw,
    ;
    assert((2 * pw * qw) * xy == 2 * h) by (nonlinear_arith)
        requires
            h == xy * pw * qw,
    ;
    assert((py * qw + qy * pw) * xw == s2 + t2) by (nonlinear_arith)
        requires
            s2 == py * xw * qw,
            t2 == qy * xw * pw,
    ;
    lemma_neg_prod(xw, py * qw - qy * pw, (py * qw + qy * pw) * xw - (2 * pw * qw) * xy);
    let big_p = (qx * pw - px * qw) * ((px * qw + qx * pw) * xw - (2 * pw * qw) * xx);
    let big_q = (py * qw - qy * pw) * ((py * qw + qy * pw) * xw - (2 * pw * qw) * xy);
    assert(-xw * (big_p - big_q) == -xw * big_p + xw * big_q) by (nonlinear_arith);
}

/// `(w l) (-m) = -w (l m)` and `(-(w l)) (-m) = w (l m)`.
proof fn lemma_neg_prod(w: int, l: int, m: int) by (nonlinear_arith)
    ensures
        (w * l) * -m == -w * (l * m),
        (-(w * l)) * -m == w * (l * m),
{
}

/// A point lies on the perpendicular bisector of two points exactly when
/// it is as far from one as from the other.
pub proof fn perp_bisect_equidistant(p: PointModel, q: PointModel, x: PointModel)
    requires
        p.wf(),
        q.wf(),
        x.wf(),
    ensures
        perp_bisect_of(p, q).contains(x) <==> same_ratio(
            dist_sq_num(x, p),
            dist_sq_den(x, p),
            dist_sq_num(x, q),
            dist_sq_den(x, q),
        ),
{
    lemma_bisect_identity(x.x, x.y, x.w, p.x, p.y, p.w, q.x, q.y, q.w);
    let k = perp_bisect_of(p, q);
    let m = midpoint_of(p, q);
    let l = line_2p(p, q);
    lemma_eval_perp(k.a, k.b, k.c, l.a, l.b, m.x, m.y, m.w, x.x, x.y, x.w);
    let (np, nq) = (dist_sq_num(x, p), dist_sq_num(x, q));
    let e = k.eval(x);
    assert(np * (q.w * q.w) - nq * (p.w * p.w) == -x.w * e);
    // Both distances share the factor `x.w^2` in their denominators.
    assert(dist_sq_den(x, p) == (x.w * x.w) * (p.w * p.w) && dist_sq_den(x, q) == (x.w * x.w) * (q.w * q.w))
        by (nonlinear_arith);
    let ww = x.w * x.w;
    assert(np * (ww * (q.w * q.w)) - nq * (ww * (p.w * p.w)) == ww * (-x.w * e)) by (nonlinear_arith)
        requires
            np * (q.w * q.w) - nq * (p.w * p.w) == -x.w * e,
    ;
    crate::arith::lemma_mul_pos(x.w, x.w);
    crate::arith::lemma_mul_pos(ww, x.w);
    assert(ww * (-x.w * e) == 0 <==> e == 0) by (nonlinear_arith)
        requires
            ww > 0,
            x.w > 0,
    ;
}

} // verus!
