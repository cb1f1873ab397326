//! Triangle centers and barycentric coordinates.
use vstd::prelude::*;
use crate::arith::{lemma_mul_le, lemma_mul_pos, lemma_square_nonneg, B14, B15, B20, B40, B6, B9, P120, P122, P30, P31, P46, P47, P57, P60, P62, P80, P18, P19, P36, P37, P38, P39};
use crate::basic::{cramer_d, cramer_x, cramer_y, line_2p};
use crate::construct::{midpoint, midpoint_of, perp, perp_bisect, perp_bisect_of, perp_of};
use crate::exception::{CalcException, Result};
use crate::objects::{dist_sq_num, Line, LineModel, Point, PointModel};

verus! {

/// A triangle, as its three vertices in order.
pub type Triangle = (Point, Point, Point);

/// The circumcenter: the meeting point of the perpendicular bisectors of
/// `AB` and `AC`. Fails with `OverlappingPoint` when `B` or `C` coincides
/// with `A`, and with `NoIntersection` when the bisectors do not meet.
pub fn circum(t: Triangle) -> (r: Result<Point>)
    requires
        t.0.within(B14 as int),
        t.1.within(B14 as int),
        t.2.within(B14 as int),
    ensures
        t.0@.same(t.1@) || t.0@.same(t.2@) ==> r == Err::<Point, CalcException>(CalcException::OverlappingPoint),
        !(t.0@.same(t.1@) || t.0@.same(t.2@)) && perp_bisect_of(t.0@, t.1@).parallel_to(perp_bisect_of(t.0@, t.2@))
            ==> r == Err::<Point, CalcException>(CalcException::NoIntersection),
        !(t.0@.same(t.1@) || t.0@.same(t.2@)) && !perp_bisect_of(t.0@, t.1@).parallel_to(perp_bisect_of(t.0@, t.2@))
            ==> (r matches Ok(o) && o@.wf() && perp_bisect_of(t.0@, t.1@).contains(o@) && perp_bisect_of(t.0@, t.2@).contains(o@)),
{
    let (a, b, c) = t;
    let l = perp_bisect(a, b)?;
    let k = perp_bisect(a, c)?;
    l.inter(k)
}

/// The altitude from `p` onto the line through `q` and `s`.
pub open spec fn altitude_of(p: PointModel, q: PointModel, s: PointModel) -> LineModel {
    perp_of(p, line_2p(q, s))
}

/// The orthocenter: the meeting point of the altitudes from `A` and `B`.
/// Fails with `OverlappingPoint` when `C` coincides with `B` or `A`, and
/// with `NoIntersection` when the altitudes do not meet.
pub fn ortho(t: Triangle) -> (r: Result<Point>)
    requires
        t.0.within(B15 as int),
        t.1.within(B15 as int),
        t.2.within(B15 as int),
    ensures
        t.1@.same(t.2@) || t.0@.same(t.2@) ==> r == Err::<Point, CalcException>(CalcException::OverlappingPoint),
        !(t.1@.same(t.2@) || t.0@.same(t.2@)) && altitude_of(t.0@, t.1@, t.2@).parallel_to(altitude_of(t.1@, t.0@, t.2@))
            ==> r == Err::<Point, CalcException>(CalcException::NoIntersection),
        !(t.1@.same(t.2@) || t.0@.same(t.2@)) && !altitude_of(t.0@, t.1@, t.2@).parallel_to(altitude_of(t.1@, t.0@, t.2@))
            ==> (r matches Ok(h) && h@.wf() && altitude_of(t.0@, t.1@, t.2@).contains(h@) && altitude_of(t.1@, t.0@, t.2@).contains(h@)),
{
    let (a, b, c) = t;
    let bc = Line::from_2p(b, c)?;
    let ac = Line::from_2p(a, c)?;
    proof {
        lemma_side_bound(b, c);
        lemma_side_bound(a, c);
    }
    let h1 = perp(a, bc);
    let h2 = perp(b, ac);
    proof {
        lemma_altitude_bound(a, bc);
        lemma_altitude_bound(b, ac);
    }
    h1.inter(h2)
}

/// The line through two points below `2^15` has coefficients below `2^31`.
proof fn lemma_side_bound(p: Point, q: Point)
    requires
        p.within(B15 as int),
        q.within(B15 as int),
    ensures
        -P31 <= line_2p(p@, q@).a <= P31,
        -P31 <= line_2p(p@, q@).b <= P31,
        -P31 <= line_2p(p@, q@).c <= P31,
{
    let b = B15 as int;
    lemma_mul_le(p.y as int, q.w as int, b, b, P30 as int);
    lemma_mul_le(q.y as int, p.w as int, b, b, P30 as int);
    lemma_mul_le(q.x as int, p.w as int, b, b, P30 as int);
    lemma_mul_le(p.x as int, q.w as int, b, b, P30 as int);
    lemma_mul_le(p.x as int, q.y as int, b, b, P30 as int);
    lemma_mul_le(p.y as int, q.x as int, b, b, P30 as int);
}

/// The perpendicular through a point below `2^15` to a line below `2^31`
/// has coefficients below `2^47`.
proof fn lemma_altitude_bound(p: Point, l: Line)
    requires
        p.within(B15 as int),
        -P31 <= l.a <= P31,
        -P31 <= l.b <= P31,
        -P31 <= l.c <= P31,
    ensures
        -P47 <= perp_of(p@, l@).a <= P47,
        -P47 <= perp_of(p@, l@).b <= P47,
        -P47 <= perp_of(p@, l@).c <= P47,
{
    let b = B15 as int;
    lemma_mul_le(l.b as int, p.w as int, P31 as int, b, P46 as int);
    lemma_mul_le(l.a as int, p.w as int, P31 as int, b, P46 as int);
    lemma_mul_le(l.b as int, p.x as int, P31 as int, b, P46 as int);
    lemma_mul_le(l.a as int, p.y as int, P31 as int, b, P46 as int);
}

/// The centroid of three points in homogeneous coordinates.
pub open spec fn centroid_of(a: PointModel, b: PointModel, c: PointModel) -> PointModel {
    PointModel {
        x: a.x * (b.w * c.w) + b.x * (a.w * c.w) + c.x * (a.w * b.w),
        y: a.y * (b.w * c.w) + b.y * (a.w * c.w) + c.y * (a.w * b.w),
        w: 3 * (a.w * (b.w * c.w)),
    }
}

/// The centroid: the mean of the three vertices.
pub fn centroid(t: Triangle) -> (r: Point)
    requires
        t.0.within(B40 as int),
        t.1.within(B40 as int),
        t.2.within(B40 as int),
    ensures
        r@ == centroid_of(t.0@, t.1@, t.2@),
        r@.wf(),
{
    let (a, b, c) = t;
    proof {
        let n = B40 as int;
        lemma_mul_le(b.w as int, c.w as int, n, n, P80 as int);
        lemma_mul_le(a.w as int, c.w as int, n, n, P80 as int);
        lemma_mul_le(a.w as int, b.w as int, n, n, P80 as int);
        lemma_mul_le(a.x as int, (b.w * c.w) as int, n, P80 as int, P120 as int);
        lemma_mul_le(b.x as int, (a.w * c.w) as int, n, P80 as int, P120 as int);
        lemma_mul_le(c.x as int, (a.w * b.w) as int, n, P80 as int, P120 as int);
        lemma_mul_le(a.y as int, (b.w * c.w) as int, n, P80 as int, P120 as int);
        lemma_mul_le(b.y as int, (a.w * c.w) as int, n, P80 as int, P120 as int);
        lemma_mul_le(c.y as int, (a.w * b.w) as int, n, P80 as int, P120 as int);
        lemma_mul_le(a.w as int, (b.w * c.w) as int, n, P80 as int, P120 as int);
        lemma_mul_pos(b.w as int, c.w as int);
        lemma_mul_pos(a.w as int, (b.w * c.w) as int);
    }
    Point {
        x: a.x * (b.w * c.w) + b.x * (a.w * c.w) + c.x * (a.w * b.w),
        y: a.y * (b.w * c.w) + b.y * (a.w * c.w) + c.y * (a.w * b.w),
        w: 3 * (a.w * (b.w * c.w)),
    }
}

/// The nine-point center: the circumcenter of the triangle of the side
/// midpoints `AB`, `CB`, `AC`.
pub fn nine_point(t: Triangle) -> (r: Result<Point>)
    requires
        t.0.within(B6 as int),
        t.1.within(B6 as int),
        t.2.within(B6 as int),
    ensures
        ({
            let (a, b, c) = (t.0@, t.1@, t.2@);
            let (p, q, s) = (midpoint_of(a, b), midpoint_of(c, b), midpoint_of(a, c));
            &&& p.same(q) || p.same(s) ==> r == Err::<Point, CalcException>(CalcException::OverlappingPoint)
            &&& !(p.same(q) || p.same(s)) && perp_bisect_of(p, q).parallel_to(perp_bisect_of(p, s))
                ==> r == Err::<Point, CalcException>(CalcException::NoIntersection)
            &&& !(p.same(q) || p.same(s)) && !perp_bisect_of(p, q).parallel_to(perp_bisect_of(p, s))
                ==> (r matches Ok(o) && o@.wf() && perp_bisect_of(p, q).contains(o@) && perp_bisect_of(p, s).contains(o@))
        }),
{
    let (a, b, c) = t;
    proof {
        lemma_midpoint_small(a, b);
        lemma_midpoint_small(c, b);
        lemma_midpoint_small(a, c);
    }
    circum((midpoint(a, b), midpoint(c, b), midpoint(a, c)))
}

/// The midpoint of two points below `2^6` is below `2^14`.
proof fn lemma_midpoint_small(p: Point, q: Point)
    requires
        p.within(B6 as int),
        q.within(B6 as int),
    ensures
        -B14 <= midpoint_of(p@, q@).x <= B14,
        -B14 <= midpoint_of(p@, q@).y <= B14,
        0 < midpoint_of(p@, q@).w <= B14,
{
    let b = B6 as int;
    lemma_mul_le(p.x as int, q.w as int, b, b, 4096);
    lemma_mul_le(q.x as int, p.w as int, b, b, 4096);
    lemma_mul_le(p.y as int, q.w as int, b, b, 4096);
    lemma_mul_le(q.y as int, p.w as int, b, b, 4096);
    lemma_mul_le(p.w as int, q.w as int, b, b, 4096);
    lemma_mul_pos(p.w as int, q.w as int);
    assert(2 * p.w * q.w == 2 * (p.w * q.w)) by (nonlinear_arith);
}

/// The point with barycentric coordinates `(x, y, z)` with respect to the
/// triangle `(a, b, c)`: `(x a + y b + z c) / (x + y + z)`.
pub open spec fn barycentric_of(a: PointModel, b: PointModel, c: PointModel, x: int, y: int, z: int) -> PointModel {
    let s = x + y + z;
    let px = x * (a.x * (b.w * c.w)) + y * (b.x * (a.w * c.w)) + z * (c.x * (a.w * b.w));
    let py = x * (a.y * (b.w * c.w)) + y * (b.y * (a.w * c.w)) + z * (c.y * (a.w * b.w));
    let pw = s * (a.w * (b.w * c.w));
    if s > 0 {
        PointModel { x: px, y: py, w: pw }
    } else {
        PointModel { x: -px, y: -py, w: -pw }
    }
}

/// The point with barycentric coordinates `(x, y, z)`; fails with
/// `ZeroCoefficient` when the weights sum to zero (a point at infinity).
pub fn from_barycentric(t: Triangle, w: (i128, i128, i128)) -> (r: Result<Point>)
    requires
        t.0.within(B20 as int),
        t.1.within(B20 as int),
        t.2.within(B20 as int),
        -P60 <= w.0 <= P60,
        -P60 <= w.1 <= P60,
        -P60 <= w.2 <= P60,
    ensures
        w.0 + w.1 + w.2 == 0 ==> r == Err::<Point, CalcException>(CalcException::ZeroCoefficient),
        w.0 + w.1 + w.2 != 0 ==> (r matches Ok(p) && p@ == barycentric_of(t.0@, t.1@, t.2@, w.0 as int, w.1 as int, w.2 as int)
            && p@.wf()),
{
    let (a, b, c) = t;
    let (x, y, z) = w;
    let s = x + y + z;
    if s == 0 {
        return Err(CalcException::ZeroCoefficient);
    }
    proof {
        let n = B20 as int;
        lemma_mul_le(b.w as int, c.w as int, n, n, B40 as int);
        lemma_mul_le(a.w as int, c.w as int, n, n, B40 as int);
        lemma_mul_le(a.w as int, b.w as int, n, n, B40 as int);
        lemma_mul_le(a.x as int, (b.w * c.w) as int, n, B40 as int, P60 as int);
        lemma_mul_le(b.x as int, (a.w * c.w) as int, n, B40 as int, P60 as int);
        lemma_mul_le(c.x as int, (a.w * b.w) as int, n, B40 as int, P60 as int);
        lemma_mul_le(a.y as int, (b.w * c.w) as int, n, B40 as int, P60 as int);
        lemma_mul_le(b.y as int, (a.w * c.w) as int, n, B40 as int, P60 as int);
        lemma_mul_le(c.y as int, (a.w * b.w) as int, n, B40 as int, P60 as int);
        lemma_mul_le(a.w as int, (b.w * c.w) as int, n, B40 as int, P60 as int);
        let m = P60 as int;
        lemma_mul_le(x as int, (a.x * (b.w * c.w)) as int, m, m, P120 as int);
        lemma_mul_le(y as int, (b.x * (a.w * c.w)) as int, m, m, P120 as int);
        lemma_mul_le(z as int, (c.x * (a.w * b.w)) as int, m, m, P120 as int);
        lemma_mul_le(x as int, (a.y * (b.w * c.w)) as int, m, m, P120 as int);
        lemma_mul_le(y as int, (b.y * (a.w * c.w)) as int, m, m, P120 as int);
        lemma_mul_le(z as int, (c.y * (a.w * b.w)) as int, m, m, P120 as int);
        lemma_mul_le(s as int, (a.w * (b.w * c.w)) as int, P62 as int, m, P122 as int);
        lemma_mul_pos(b.w as int, c.w as int);
        lemma_mul_pos(a.w as int, (b.w * c.w) as int);
        crate::transform::lemma_mul_sign(s as int, (a.w * (b.w * c.w)) as int);
    }
    let px = x * (a.x * (b.w * c.w)) + y * (b.x * (a.w * c.w)) + z * (c.x * (a.w * b.w));
    let py = x * (a.y * (b.w * c.w)) + y * (b.y * (a.w * c.w)) + z * (c.y * (a.w * b.w));
    let pw = s * (a.w * (b.w * c.w));
    if s > 0 {
        Ok(Point { x: px, y: py, w: pw })
    } else {
        Ok(Point { x: -px, y: -py, w: -pw })
    }
}

/// The weights of the symmedian point: the squared side lengths `|BC|^2`,
/// `|AB|^2`, `|CA|^2`, each brought to the common denominator
/// `(a.w b.w c.w)^2`.
pub open spec fn symmedian_weights(a: PointModel, b: PointModel, c: PointModel) -> (int, int, int) {
    (
        dist_sq_num(c, b) * (a.w * a.w),
        dist_sq_num(b, a) * (c.w * c.w),
        dist_sq_num(a, c) * (b.w * b.w),
    )
}

/// The symmedian point: barycentric weights equal to the squares of the
/// opposite sides. Fails with `ZeroCoefficient` when all three vertices
/// coincide.
pub fn symmedian(t: Triangle) -> (r: Result<Point>)
    requires
        t.0.within(B9 as int),
        t.1.within(B9 as int),
        t.2.within(B9 as int),
    ensures
        ({
            let (x, y, z) = symmedian_weights(t.0@, t.1@, t.2@);
            &&& x + y + z == 0 ==> r == Err::<Point, CalcException>(CalcException::ZeroCoefficient)
            &&& x + y + z != 0 ==> (r matches Ok(p) && p@ == barycentric_of(t.0@, t.1@, t.2@, x, y, z) && p@.wf())
        }),
{
    let (a, b, c) = t;
    let x = side_weight(c, b, a);
    let y = side_weight(b, a, c);
    let z = side_weight(a, c, b);
    from_barycentric(t, (x, y, z))
}

/// `|p q|^2` times `(p.w q.w s.w)^2`, the squared length of a side brought
/// to the common denominator of the triangle `p q s`.
fn side_weight(p: Point, q: Point, s: Point) -> (r: i128)
    requires
        p.within(B9 as int),
        q.within(B9 as int),
        s.within(B9 as int),
    ensures
        r == dist_sq_num(p@, q@) * (s.w * s.w),
        0 <= r <= P57,
{
    proof {
        let n = B9 as int;
        lemma_mul_le(p.x as int, q.w as int, n, n, P18 as int);
        lemma_mul_le(q.x as int, p.w as int, n, n, P18 as int);
        lemma_mul_le(p.y as int, q.w as int, n, n, P18 as int);
        lemma_mul_le(q.y as int, p.w as int, n, n, P18 as int);
        lemma_mul_le(s.w as int, s.w as int, n, n, P18 as int);
    }
    let dx = p.x * q.w - q.x * p.w;
    let dy = p.y * q.w - q.y * p.w;
    proof {
        lemma_mul_le(dx as int, dx as int, P19 as int, P19 as int, P38 as int);
        lemma_mul_le(dy as int, dy as int, P19 as int, P19 as int, P38 as int);
        lemma_mul_le((dx * dx + dy * dy) as int, (s.w * s.w) as int, P39 as int, P18 as int, P57 as int);
        lemma_square_nonneg(dx as int);
        lemma_square_nonneg(dy as int);
        lemma_square_nonneg(s.w as int);
        crate::arith::lemma_mul_nonneg((dx * dx + dy * dy) as int, (s.w * s.w) as int);
    }
    (dx * dx + dy * dy) * (s.w * s.w)
}

} // verus!
