use vstd::prelude::*;

use crate::vector::{p_add, p_cross, p_dot, p_neg, p_scale, p_sub, point, Point};

verus! {

/// `x` lies strictly off the plane through `q`, `r`, `s`, and the origin lies on the same
/// side of that plane as `x`, or on it.
pub open spec fn origin_beside(q: Point, r: Point, s: Point, x: Point) -> bool {
    let n = p_cross(p_sub(r, q), p_sub(s, q));
    let side_x = p_dot(n, p_sub(x, q));
    let side_o = p_dot(n, p_sub(point(0, 0, 0), q));
    (side_x > 0 && side_o >= 0) || (side_x < 0 && side_o <= 0)
}

/// The origin lies in the closed tetrahedron with corners `a`, `b`, `c`, `d`, which has
/// non-zero volume: for each face, the corner opposite it lies strictly off its plane and
/// the origin on that corner's side or on the plane.
pub open spec fn origin_in_tetrahedron(a: Point, b: Point, c: Point, d: Point) -> bool {
    &&& origin_beside(a, b, c, d)
    &&& origin_beside(a, c, d, b)
    &&& origin_beside(a, d, b, c)
    &&& origin_beside(b, c, d, a)
}

/// Non-negative weights `wp wq wr ws`, not all zero, under which `p q r s` sum to the
/// origin: the origin is a convex combination of the four points.
pub open spec fn hull_weights(
    wp: int,
    wq: int,
    wr: int,
    ws: int,
    p: Point,
    q: Point,
    r: Point,
    s: Point,
) -> bool {
    &&& wp >= 0 && wq >= 0 && wr >= 0 && ws >= 0
    &&& wp + wq + wr + ws > 0
    &&& p_add(p_add(p_scale(p, wp), p_scale(q, wq)), p_add(p_scale(r, wr), p_scale(s, ws)))
        == point(0, 0, 0)
}

/// The origin lies in the convex hull of `p q r s`.
pub open spec fn origin_in_hull(p: Point, q: Point, r: Point, s: Point) -> bool {
    exists|wp: int, wq: int, wr: int, ws: int| hull_weights(wp, wq, wr, ws, p, q, r, s)
}

/// Swapping the factors of a cross product negates it.
pub proof fn lemma_cross_antisymmetric(u: Point, v: Point)
    ensures
        p_cross(v, u) == p_neg(p_cross(u, v)),
{
    assert(v.y * u.z - v.z * u.y == -(u.y * v.z - u.z * v.y)) by (nonlinear_arith);
    assert(v.z * u.x - v.x * u.z == -(u.z * v.x - u.x * v.z)) by (nonlinear_arith);
    assert(v.x * u.y - v.y * u.x == -(u.x * v.y - u.y * v.x)) by (nonlinear_arith);
}

/// The dot product is linear in each argument.
pub proof fn lemma_dot_linear(n: Point, a: Point, b: Point)
    ensures
        p_dot(n, p_neg(a)) == -p_dot(n, a),
        p_dot(p_neg(n), a) == -p_dot(n, a),
        p_dot(n, p_sub(a, b)) == p_dot(n, a) - p_dot(n, b),
        p_dot(n, p_sub(point(0, 0, 0), a)) == -p_dot(n, a),
        p_dot(a, n) == p_dot(n, a),
{
    assert(a.x * n.x == n.x * a.x && a.y * n.y == n.y * a.y && a.z * n.z == n.z * a.z)
        by (nonlinear_arith);
    assert(n.x * (-a.x) == -(n.x * a.x) && n.y * (-a.y) == -(n.y * a.y) && n.z * (-a.z) == -(n.z
        * a.z)) by (nonlinear_arith);
    assert((-n.x) * a.x == -(n.x * a.x) && (-n.y) * a.y == -(n.y * a.y) && (-n.z) * a.z == -(n.z
        * a.z)) by (nonlinear_arith);
    assert(n.x * (a.x - b.x) == n.x * a.x - n.x * b.x && n.y * (a.y - b.y) == n.y * a.y - n.y
        * b.y && n.z * (a.z - b.z) == n.z * a.z - n.z * b.z) by (nonlinear_arith);
    assert(p_sub(point(0, 0, 0), a) == p_neg(a));
}

/// The dot product of a weighted sum of four points.
pub proof fn lemma_dot_weighted_sum(
    wp: int,
    wq: int,
    wr: int,
    ws: int,
    p: Point,
    q: Point,
    r: Point,
    s: Point,
    e: Point,
)
    ensures
        p_dot(
            p_add(p_add(p_scale(p, wp), p_scale(q, wq)), p_add(p_scale(r, wr), p_scale(s, ws))),
            e,
        )
            == wp * p_dot(p, e) + wq * p_dot(q, e) + wr * p_dot(r, e) + ws * p_dot(s, e),
{
    lemma_dot_scaled(p, wp, e);
    lemma_dot_scaled(q, wq, e);
    lemma_dot_scaled(r, wr, e);
    lemma_dot_scaled(s, ws, e);
    let a = p_scale(p, wp);
    let b = p_scale(q, wq);
    let c = p_scale(r, wr);
    let d = p_scale(s, ws);
    lemma_dot_add(a, b, e);
    lemma_dot_add(c, d, e);
    lemma_dot_add(p_add(a, b), p_add(c, d), e);
}

pub proof fn lemma_dot_scaled(p: Point, w: int, e: Point)
    ensures
        p_dot(p_scale(p, w), e) == w * p_dot(p, e),
{
    let (px, py, pz, ex, ey, ez) = (p.x, p.y, p.z, e.x, e.y, e.z);
    assert((px * w) * ex == w * (px * ex)) by (nonlinear_arith);
    assert((py * w) * ey == w * (py * ey)) by (nonlinear_arith);
    assert((pz * w) * ez == w * (pz * ez)) by (nonlinear_arith);
    let (u, v, t) = (px * ex, py * ey, pz * ez);
    assert(w * u + w * v + w * t == w * (u + v + t)) by (nonlinear_arith);
}

pub proof fn lemma_dot_add(a: Point, b: Point, e: Point)
    ensures
        p_dot(p_add(a, b), e) == p_dot(a, e) + p_dot(b, e),
{
    let (ax, ay, az, bx, by, bz, ex, ey, ez) = (a.x, a.y, a.z, b.x, b.y, b.z, e.x, e.y, e.z);
    assert((ax + bx) * ex == ax * ex + bx * ex) by (nonlinear_arith);
    assert((ay + by) * ey == ay * ey + by * ey) by (nonlinear_arith);
    assert((az + bz) * ez == az * ez + bz * ez) by (nonlinear_arith);
}

/// Points that all lie strictly on the positive side of `e` keep the origin out of their
/// convex hull.
pub proof fn lemma_hull_excludes_origin(p: Point, q: Point, r: Point, s: Point, e: Point)
    requires
        p_dot(p, e) > 0,
        p_dot(q, e) > 0,
        p_dot(r, e) > 0,
        p_dot(s, e) > 0,
    ensures
        !origin_in_hull(p, q, r, s),
{
    if origin_in_hull(p, q, r, s) {
        let (wp, wq, wr, ws) = choose|wp: int, wq: int, wr: int, ws: int|
            hull_weights(wp, wq, wr, ws, p, q, r, s);
        lemma_dot_weighted_sum(wp, wq, wr, ws, p, q, r, s, e);
        let (dp, dq, dr, ds) = (p_dot(p, e), p_dot(q, e), p_dot(r, e), p_dot(s, e));
        assert(p_dot(point(0, 0, 0), e) == 0) by (nonlinear_arith);
        assert(wp * dp + wq * dq + wr * dr + ws * ds > 0) by (nonlinear_arith)
            requires
                wp >= 0 && wq >= 0 && wr >= 0 && ws >= 0,
                wp + wq + wr + ws > 0,
                dp > 0 && dq > 0 && dr > 0 && ds > 0,
        ;
    }
}

} // verus!
