use vstd::prelude::*;

use crate::collider::{
    cube_corners, fine_scale, first_max_index, lemma_first_max_index, lemma_magnifier_positive,
    lemma_offset_sum_norm, lemma_scaled_magnitude, magnifier, max_abs, scaled, support_point,
    ColliderView, Shapes,
};
use crate::geometry::{
    hull_weights, lemma_cross_antisymmetric, lemma_dot_add, lemma_dot_linear, lemma_dot_scaled,
    lemma_hull_excludes_origin,
    origin_beside, origin_in_hull, origin_in_tetrahedron,
};
use crate::gjk::{
    gjk_verdict, handle_simplex, max_iterations, md_support, run, seed_direction,
    tetrahedron_step, tetrahedron_weights, triangle_step, Verdict,
};
use crate::vector::{
    ceil_sqrt, lemma_ceil_sqrt_exists, norm2, p_add, p_cross, p_dot, p_is_zero, p_neg, p_scale,
    p_sub, point, Point,
};

verus! {

/// The origin lies in the non-degenerate tetrahedron `p q r s` and in the convex hull of its
/// corners, and is none of them.
pub open spec fn encloses_origin(p: Point, q: Point, r: Point, s: Point) -> bool {
    &&& origin_in_tetrahedron(p, q, r, s)
    &&& origin_in_hull(p, q, r, s)
    &&& !p_is_zero(p) && !p_is_zero(q) && !p_is_zero(r) && !p_is_zero(s)
}

/// `p` is a non-zero support point of the Minkowski difference `a - b` in some direction.
pub open spec fn is_md_point(a: ColliderView, b: ColliderView, p: Point) -> bool {
    !p_is_zero(p) && exists|e: Point| p == #[trigger] md_support(a, b, e)
}

pub open spec fn all_md_points(a: ColliderView, b: ColliderView, s: Seq<Point>) -> bool {
    forall|i: int| 0 <= i < s.len() ==> is_md_point(a, b, #[trigger] s[i])
}

/// A triangle simplex `[c, b, a]` comes with its normal `cross(b - a, c - a)` as search
/// direction, facing the origin; or with no direction at all.
pub open spec fn faces_origin(s: Seq<Point>, d: Point) -> bool {
    s.len() == 3 ==> (p_is_zero(d) || (d == p_cross(p_sub(s[1], s[2]), p_sub(s[0], s[2]))
        && p_dot(d, s[2]) <= 0))
}

/// Every point of `t` is a point of `s`.
pub open spec fn drawn_from(t: Seq<Point>, s: Seq<Point>) -> bool {
    forall|i: int| 0 <= i < t.len() ==> s.contains(#[trigger] t[i])
}

proof fn lemma_triangle_step(s: Seq<Point>)
    requires
        s.len() == 3,
    ensures
        2 <= triangle_step(s).0.len() <= 3,
        drawn_from(triangle_step(s).0, s),
        faces_origin(triangle_step(s).0, triangle_step(s).1),
{
    let c = s[0];
    let b = s[1];
    let a = s[2];
    let ab = p_sub(b, a);
    let ac = p_sub(c, a);
    let abc = p_cross(ab, ac);
    let (t, dir) = triangle_step(s);
    lemma_dot_linear(abc, a, a);
    lemma_cross_antisymmetric(ab, ac);
    lemma_dot_linear(p_neg(abc), a, a);
    lemma_dot_linear(abc, a, a);
    assert(p_dot(p_neg(abc), a) == -p_dot(abc, a));
    assert forall|i: int| 0 <= i < t.len() implies s.contains(#[trigger] t[i]) by {
        if t[i] == s[0] {
            assert(t[i] == s[0]);
        } else if t[i] == s[1] {
            assert(t[i] == s[1]);
        } else {
            assert(t[i] == s[2]);
        }
    }
}

proof fn lemma_tetrahedron_step(s: Seq<Point>)
    requires
        s.len() == 4,
    ensures
        ({
            let (enclosed, t, dir) = tetrahedron_step(s);
            &&& enclosed ==> {
                &&& ({
                    let (wa, wb, wc, wd) = tetrahedron_weights(s);
                    hull_weights(wa, wb, wc, wd, s[3], s[2], s[1], s[0])
                })
                &&& origin_beside(s[3], s[2], s[1], s[0])
                &&& origin_beside(s[3], s[1], s[0], s[2])
                &&& origin_beside(s[3], s[0], s[2], s[1])
            }
            &&& !enclosed ==> 2 <= t.len() <= 3 && drawn_from(t, s) && faces_origin(t, dir)
        }),
{
    let d = s[0];
    let c = s[1];
    let b = s[2];
    let a = s[3];
    let ab = p_sub(b, a);
    let ac = p_sub(c, a);
    let ad = p_sub(d, a);
    lemma_dot_linear(p_cross(ab, ac), a, a);
    lemma_dot_linear(p_cross(ac, ad), a, a);
    lemma_dot_linear(p_cross(ad, ab), a, a);
    let (enclosed, t, dir) = tetrahedron_step(s);
    if !enclosed {
        let u = if p_dot(p_cross(ab, ac), p_neg(a)) > 0 {
            seq![c, b, a]
        } else if p_dot(p_cross(ac, ad), p_neg(a)) > 0 {
            seq![d, c, a]
        } else if p_dot(p_cross(ad, ab), p_neg(a)) > 0 {
            seq![d, b, a]
        } else {
            seq![c, b, a]
        };
        lemma_triangle_step(u);
        assert forall|i: int| 0 <= i < t.len() implies s.contains(#[trigger] t[i]) by {
            assert(u.contains(t[i]));
            let k = choose|k: int| 0 <= k < u.len() && u[k] == t[i];
            if u[k] == s[0] {
                assert(t[i] == s[0]);
            } else if u[k] == s[1] {
                assert(t[i] == s[1]);
            } else if u[k] == s[2] {
                assert(t[i] == s[2]);
            } else {
                assert(t[i] == s[3]);
            }
        }
    }
}

proof fn lemma_run_intersecting(
    a: ColliderView,
    b: ColliderView,
    s: Seq<Point>,
    d: Point,
    fuel: nat,
)
    requires
        1 <= s.len() <= 3,
        all_md_points(a, b, s),
        faces_origin(s, d),
        run(a, b, s, d, fuel) == Verdict::Intersecting,
    ensures
        exists|w: Point, x: Point, y: Point, z: Point|
            encloses_origin(
                #[trigger] md_support(a, b, w),
                #[trigger] md_support(a, b, x),
                #[trigger] md_support(a, b, y),
                #[trigger] md_support(a, b, z),
            ),
    decreases fuel,
{
    let p = md_support(a, b, d);
    let s2 = s.push(p);
    let (enclosed, t, dir) = handle_simplex(s2);
    assert(!p_is_zero(p)) by {
        if p_is_zero(p) {
            assert(p_dot(p, d) == 0) by (nonlinear_arith)
                requires
                    p.x == 0 && p.y == 0 && p.z == 0,
            ;
        }
    }
    assert(is_md_point(a, b, p));
    assert(all_md_points(a, b, s2)) by {
        assert forall|i: int| 0 <= i < s2.len() implies is_md_point(a, b, #[trigger] s2[i]) by {
            if i < s.len() {
                assert(s2[i] == s[i]);
            }
        }
    }
    if enclosed {
        assert(s2.len() == 4);
        lemma_tetrahedron_step(s2);
        let pa = s2[3];
        let pb = s2[2];
        let pc = s2[1];
        let pd = s2[0];
        assert(is_md_point(a, b, s[0]));
        assert(is_md_point(a, b, s[1]));
        assert(is_md_point(a, b, s[2]));
        let eb = choose|e: Point| s[2] == #[trigger] md_support(a, b, e);
        let ec = choose|e: Point| s[1] == #[trigger] md_support(a, b, e);
        let ed = choose|e: Point| s[0] == #[trigger] md_support(a, b, e);
        lemma_dot_linear(d, pa, pb);
        lemma_dot_linear(d, pb, pb);
        assert(origin_beside(pb, pc, pd, pa));
        assert(origin_in_tetrahedron(pa, pb, pc, pd));
        let (wa, wb, wc, wd) = tetrahedron_weights(s2);
        assert(hull_weights(wa, wb, wc, wd, pa, pb, pc, pd));
        assert(origin_in_hull(pa, pb, pc, pd));
        assert(encloses_origin(
            md_support(a, b, d),
            md_support(a, b, eb),
            md_support(a, b, ec),
            md_support(a, b, ed),
        ));
    } else {
        if s2.len() == 3 {
            lemma_triangle_step(s2);
        } else if s2.len() == 4 {
            lemma_tetrahedron_step(s2);
        } else {
            assert(t == s2);
            assert forall|i: int| 0 <= i < t.len() implies s2.contains(#[trigger] t[i]) by {
                assert(t[i] == s2[i]);
            }
        }
        assert(all_md_points(a, b, t)) by {
            assert forall|i: int| 0 <= i < t.len() implies is_md_point(a, b, #[trigger] t[i]) by {
                assert(s2.contains(t[i]));
                let j = choose|j: int| 0 <= j < s2.len() && s2[j] == t[i];
                assert(is_md_point(a, b, s2[j]));
            }
        }
        lemma_run_intersecting(a, b, t, dir, (fuel - 1) as nat);
    }
}

/// Where the search reports an intersection, the origin lies in a closed tetrahedron of
/// non-zero volume whose four corners are support points of the Minkowski difference
/// `a - b`, and is a convex combination of those corners.
pub proof fn lemma_intersecting_encloses_origin(a: ColliderView, b: ColliderView)
    requires
        gjk_verdict(a, b) == Verdict::Intersecting,
    ensures
        exists|w: Point, x: Point, y: Point, z: Point|
            encloses_origin(
                #[trigger] md_support(a, b, w),
                #[trigger] md_support(a, b, x),
                #[trigger] md_support(a, b, y),
                #[trigger] md_support(a, b, z),
            ),
{
    let p0 = md_support(a, b, seed_direction());
    let s = seq![p0];
    assert(!p_is_zero(p0));
    assert(is_md_point(a, b, p0));
    assert(all_md_points(a, b, s)) by {
        assert forall|i: int| 0 <= i < s.len() implies is_md_point(a, b, #[trigger] s[i]) by {
            assert(s[i] == p0);
        }
    }
    lemma_run_intersecting(a, b, s, p_neg(p0), max_iterations() as nat);
}

proof fn lemma_run_separated(
    a: ColliderView,
    b: ColliderView,
    s: Seq<Point>,
    d: Point,
    fuel: nat,
    e: Point,
)
    requires
        run(a, b, s, d, fuel) == Verdict::Separated(e),
    ensures
        !p_is_zero(e),
        p_dot(md_support(a, b, e), e) <= 0,
    decreases fuel,
{
    let p = md_support(a, b, d);
    if p_dot(p, d) > 0 {
        let (enclosed, t, dir) = handle_simplex(s.push(p));
        lemma_run_separated(a, b, t, dir, (fuel - 1) as nat, e);
    }
}

/// Where the search reports a separating direction `e`, `e` is non-zero and the support
/// point of `a - b` along `e` does not pass the origin.
pub proof fn lemma_separated_certificate(a: ColliderView, b: ColliderView, e: Point)
    requires
        gjk_verdict(a, b) == Verdict::Separated(e),
    ensures
        !p_is_zero(e),
        p_dot(md_support(a, b, e), e) <= 0,
{
    let p0 = md_support(a, b, seed_direction());
    lemma_run_separated(a, b, seq![p0], p_neg(p0), max_iterations() as nat, e);
}

/// For two polyhedra, a separating direction `e` gives a separating plane: every difference
/// of a vertex of `a` and a vertex of `b` lies on the non-positive side of `e`.
pub proof fn lemma_separated_polyhedra(a: ColliderView, b: ColliderView, e: Point)
    requires
        a.wf(),
        b.wf(),
        a.shape == Shapes::Polyhedron,
        b.shape == Shapes::Polyhedron,
        gjk_verdict(a, b) == Verdict::Separated(e),
    ensures
        forall|i: int, j: int|
            0 <= i < a.world.len() && 0 <= j < b.world.len() ==> p_dot(
                p_sub(#[trigger] a.world[i], #[trigger] b.world[j]),
                e,
            ) <= 0,
{
    lemma_separated_certificate(a, b, e);
    lemma_first_max_index(a.world, e);
    lemma_first_max_index(b.world, p_neg(e));
    let sa = support_point(a, e);
    let sb = support_point(b, p_neg(e));
    let f = fine_scale();
    lemma_scale_sub(sa, sb, f);
    lemma_dot_scaled(p_sub(sa, sb), f, e);
    let t = p_dot(p_sub(sa, sb), e);
    assert(t <= 0) by (nonlinear_arith)
        requires
            f * t <= 0,
            f > 0,
    ;
    lemma_dot_linear(e, sa, sb);
    lemma_dot_linear(e, sb, sb);
    lemma_dot_linear(e, sa, sa);
    lemma_dot_linear(p_neg(e), sb, sb);
    assert forall|i: int, j: int|
        0 <= i < a.world.len() && 0 <= j < b.world.len() implies p_dot(
        p_sub(#[trigger] a.world[i], #[trigger] b.world[j]),
        e,
    ) <= 0 by {
        let x = a.world[i];
        let y = b.world[j];
        lemma_dot_linear(e, x, y);
        lemma_dot_linear(e, y, y);
        lemma_dot_linear(e, x, x);
        lemma_dot_linear(p_neg(e), y, y);
        lemma_dot_linear(p_sub(x, y), e, e);
        lemma_dot_linear(p_sub(sa, sb), e, e);
        lemma_dot_linear(y, e, e);
        lemma_dot_linear(sb, e, e);
        assert(p_dot(x, e) <= p_dot(sa, e));
        assert(p_dot(y, p_neg(e)) <= p_dot(sb, p_neg(e)));
    }
}

proof fn lemma_run_congruent(
    a1: ColliderView,
    b1: ColliderView,
    a2: ColliderView,
    b2: ColliderView,
    s: Seq<Point>,
    d: Point,
    fuel: nat,
)
    requires
        a1.shape == a2.shape,
        a1.world == a2.world,
        b1.shape == b2.shape,
        b1.world == b2.world,
    ensures
        run(a1, b1, s, d, fuel) == run(a2, b2, s, d, fuel),
    decreases fuel,
{
    assert(md_support(a1, b1, d) == md_support(a2, b2, d));
    if fuel > 0 {
        let p = md_support(a1, b1, d);
        let (enclosed, t, dir) = handle_simplex(s.push(p));
        lemma_run_congruent(a1, b1, a2, b2, t, dir, (fuel - 1) as nat);
    }
}

/// The verdict depends on nothing but the two colliders' kinds and world points: colliders
/// that agree on those get the same verdict, however often and in whatever order tests run.
pub proof fn lemma_verdict_depends_on_world_points(
    a1: ColliderView,
    b1: ColliderView,
    a2: ColliderView,
    b2: ColliderView,
)
    requires
        a1.shape == a2.shape,
        a1.world == a2.world,
        b1.shape == b2.shape,
        b1.world == b2.world,
    ensures
        gjk_verdict(a1, b1) == gjk_verdict(a2, b2),
{
    let p0 = md_support(a1, b1, seed_direction());
    assert(p0 == md_support(a2, b2, seed_direction()));
    lemma_run_congruent(a1, b1, a2, b2, seq![p0], p_neg(p0), max_iterations() as nat);
}

/// A support point of a polyhedron is one of its world points.
proof fn lemma_polyhedron_support_is_vertex(c: ColliderView, d: Point)
    requires
        c.wf(),
        c.shape == Shapes::Polyhedron,
    ensures
        c.world.contains(support_point(c, d)),
{
    lemma_first_max_index(c.world, d);
    let k = first_max_index(c.world, d);
    assert(c.world[k] == support_point(c, d));
}

/// Two polyhedra such that every difference of a vertex of `a` and a vertex of `b` lies
/// strictly on the negative side of `e` are never reported as intersecting.
pub proof fn lemma_separated_polyhedra_not_intersecting(a: ColliderView, b: ColliderView, e: Point)
    requires
        a.wf(),
        b.wf(),
        a.shape == Shapes::Polyhedron,
        b.shape == Shapes::Polyhedron,
        forall|i: int, j: int|
            0 <= i < a.world.len() && 0 <= j < b.world.len() ==> p_dot(
                p_sub(#[trigger] a.world[i], #[trigger] b.world[j]),
                e,
            ) < 0,
    ensures
        gjk_verdict(a, b) != Verdict::Intersecting,
{
    if gjk_verdict(a, b) == Verdict::Intersecting {
        lemma_intersecting_encloses_origin(a, b);
        let (w, x, y, z) = choose|w: Point, x: Point, y: Point, z: Point|
            encloses_origin(
                #[trigger] md_support(a, b, w),
                #[trigger] md_support(a, b, x),
                #[trigger] md_support(a, b, y),
                #[trigger] md_support(a, b, z),
            );
        assert forall|v: Point| p_dot(#[trigger] md_support(a, b, v), p_neg(e)) > 0 by {
            lemma_polyhedron_support_is_vertex(a, v);
            lemma_polyhedron_support_is_vertex(b, p_neg(v));
            let i = choose|i: int| 0 <= i < a.world.len() && a.world[i] == support_point(a, v);
            let j = choose|j: int|
                0 <= j < b.world.len() && b.world[j] == support_point(b, p_neg(v));
            let w = p_sub(a.world[i], b.world[j]);
            let f = fine_scale();
            lemma_scale_sub(a.world[i], b.world[j], f);
            lemma_dot_scaled(w, f, p_neg(e));
            lemma_dot_linear(w, e, e);
            assert(p_dot(w, e) < 0);
            let t = p_dot(w, p_neg(e));
            assert(f * t > 0) by (nonlinear_arith)
                requires
                    t > 0,
                    f > 0,
            ;
        }
        lemma_hull_excludes_origin(
            md_support(a, b, w),
            md_support(a, b, x),
            md_support(a, b, y),
            md_support(a, b, z),
            p_neg(e),
        );
    }
}

/// Every corner of a cube of half-extent `h` centred on `t` lies within `h` of `t` along
/// each axis.
proof fn lemma_cube_corner_bounds(h: int, t: Point)
    requires
        h > 0,
    ensures
        forall|i: int|
            0 <= i < 8 ==> {
                let p = #[trigger] cube_corners(h, t)[i];
                &&& t.x - h <= p.x <= t.x + h
                &&& t.y - h <= p.y <= t.y + h
                &&& t.z - h <= p.z <= t.z + h
            },
{
    let s = cube_corners(h, t);
    assert(s.len() == 8);
    assert(s[0] == p_add(point(h, h, h), t));
    assert(s[1] == p_add(point(h, h, -h), t));
    assert(s[2] == p_add(point(h, -h, h), t));
    assert(s[3] == p_add(point(h, -h, -h), t));
    assert(s[4] == p_add(point(-h, h, h), t));
    assert(s[5] == p_add(point(-h, h, -h), t));
    assert(s[6] == p_add(point(-h, -h, h), t));
    assert(s[7] == p_add(point(-h, -h, -h), t));
}

/// Two cubes of half-extent `h` whose centres lie more than `2 * h` apart along some axis are
/// never reported as intersecting.
pub proof fn lemma_cubes_apart_not_intersecting(
    a: ColliderView,
    b: ColliderView,
    h: int,
    ta: Point,
    tb: Point,
)
    requires
        a.wf(),
        b.wf(),
        a.shape == Shapes::Polyhedron,
        b.shape == Shapes::Polyhedron,
        a.world == cube_corners(h, ta),
        b.world == cube_corners(h, tb),
        h > 0,
        ta.x - tb.x > 2 * h || tb.x - ta.x > 2 * h || ta.y - tb.y > 2 * h || tb.y - ta.y > 2 * h
            || ta.z - tb.z > 2 * h || tb.z - ta.z > 2 * h,
    ensures
        gjk_verdict(a, b) != Verdict::Intersecting,
{
    lemma_cube_corner_bounds(h, ta);
    lemma_cube_corner_bounds(h, tb);
    let e = if tb.x - ta.x > 2 * h {
        point(1, 0, 0)
    } else if ta.x - tb.x > 2 * h {
        point(-1, 0, 0)
    } else if tb.y - ta.y > 2 * h {
        point(0, 1, 0)
    } else if ta.y - tb.y > 2 * h {
        point(0, -1, 0)
    } else if tb.z - ta.z > 2 * h {
        point(0, 0, 1)
    } else {
        point(0, 0, -1)
    };
    assert forall|i: int, j: int|
        0 <= i < a.world.len() && 0 <= j < b.world.len() implies p_dot(
        p_sub(#[trigger] a.world[i], #[trigger] b.world[j]),
        e,
    ) < 0 by {
        let q = p_sub(a.world[i], b.world[j]);
        assert(q.x * 0 == 0 && q.y * 0 == 0 && q.z * 0 == 0);
        assert(q.x * 1 == q.x && q.y * 1 == q.y && q.z * 1 == q.z);
        assert(q.x * -1 == -q.x && q.y * -1 == -q.y && q.z * -1 == -q.z);
    }
    lemma_separated_polyhedra_not_intersecting(a, b, e);
}

proof fn lemma_scale_sub(x: Point, y: Point, f: int)
    ensures
        p_sub(p_scale(x, f), p_scale(y, f)) == p_scale(p_sub(x, y), f),
{
    let (x1, x2, x3, y1, y2, y3) = (x.x, x.y, x.z, y.x, y.y, y.z);
    assert(x1 * f - y1 * f == (x1 - y1) * f) by (nonlinear_arith);
    assert(x2 * f - y2 * f == (x2 - y2) * f) by (nonlinear_arith);
    assert(x3 * f - y3 * f == (x3 - y3) * f) by (nonlinear_arith);
}

/// `(m . g)^2 <= |m|^2 |g|^2`.
pub proof fn lemma_cauchy_schwarz(m: Point, g: Point)
    ensures
        p_dot(m, g) * p_dot(m, g) <= norm2(m) * norm2(g),
{
    let (a1, a2, a3, b1, b2, b3) = (m.x, m.y, m.z, g.x, g.y, g.z);
    let (s1, s2, s3, t1, t2, t3) = (a1 * a1, a2 * a2, a3 * a3, b1 * b1, b2 * b2, b3 * b3);
    assert((s1 + s2 + s3) * (t1 + t2 + t3) == s1 * t1 + s1 * t2 + s1 * t3 + s2 * t1 + s2 * t2
        + s2 * t3 + s3 * t1 + s3 * t2 + s3 * t3) by (nonlinear_arith);
    let (p11, p12, p13) = (a1 * b1, a1 * b2, a1 * b3);
    let (p21, p22, p23) = (a2 * b1, a2 * b2, a2 * b3);
    let (p31, p32, p33) = (a3 * b1, a3 * b2, a3 * b3);
    assert(s1 * t1 == p11 * p11 && s1 * t2 == p12 * p12 && s1 * t3 == p13 * p13)
        by (nonlinear_arith)
        requires
            s1 == a1 * a1 && t1 == b1 * b1 && t2 == b2 * b2 && t3 == b3 * b3,
            p11 == a1 * b1 && p12 == a1 * b2 && p13 == a1 * b3,
    ;
    assert(s2 * t1 == p21 * p21 && s2 * t2 == p22 * p22 && s2 * t3 == p23 * p23)
        by (nonlinear_arith)
        requires
            s2 == a2 * a2 && t1 == b1 * b1 && t2 == b2 * b2 && t3 == b3 * b3,
            p21 == a2 * b1 && p22 == a2 * b2 && p23 == a2 * b3,
    ;
    assert(s3 * t1 == p31 * p31 && s3 * t2 == p32 * p32 && s3 * t3 == p33 * p33)
        by (nonlinear_arith)
        requires
            s3 == a3 * a3 && t1 == b1 * b1 && t2 == b2 * b2 && t3 == b3 * b3,
            p31 == a3 * b1 && p32 == a3 * b2 && p33 == a3 * b3,
    ;
    assert(p11 * p22 == p12 * p21) by (nonlinear_arith)
        requires
            p11 == a1 * b1 && p22 == a2 * b2 && p12 == a1 * b2 && p21 == a2 * b1,
    ;
    assert(p11 * p33 == p13 * p31) by (nonlinear_arith)
        requires
            p11 == a1 * b1 && p33 == a3 * b3 && p13 == a1 * b3 && p31 == a3 * b1,
    ;
    assert(p22 * p33 == p23 * p32) by (nonlinear_arith)
        requires
            p22 == a2 * b2 && p33 == a3 * b3 && p23 == a2 * b3 && p32 == a3 * b2,
    ;
    let dd = p11 + p22 + p33;
    assert(dd * dd == p11 * p11 + p22 * p22 + p33 * p33 + 2 * (p11 * p22) + 2 * (p11 * p33) + 2
        * (p22 * p33)) by (nonlinear_arith)
        requires
            dd == p11 + p22 + p33,
    ;
    assert((p12 - p21) * (p12 - p21) + (p13 - p31) * (p13 - p31) + (p23 - p32) * (p23 - p32)
        == p12 * p12 + p21 * p21 - 2 * (p12 * p21) + p13 * p13 + p31 * p31 - 2 * (p13 * p31)
        + p23 * p23 + p32 * p32 - 2 * (p23 * p32)) by (nonlinear_arith);
    assert((p12 - p21) * (p12 - p21) >= 0 && (p13 - p31) * (p13 - p31) >= 0 && (p23 - p32) * (
    p23 - p32) >= 0) by (nonlinear_arith);
}

/// A magnified non-zero direction has a coordinate of magnitude at least `2^39`.
proof fn lemma_magnified_large(e: Point)
    requires
        !p_is_zero(e),
    ensures
        ({
            let g = p_scale(e, magnifier(e));
            let l = 0x80_0000_0000int;
            g.x * g.x >= l * l || g.y * g.y >= l * l || g.z * g.z >= l * l
        }),
{
    let k = magnifier(e);
    let mx = max_abs(e);
    let l = 0x80_0000_0000int;
    lemma_magnifier_positive(e);
    if mx < 0x100_0000_0000 {
        let q = 0x100_0000_0000int / mx;
        let rem = 0x100_0000_0000int % mx;
        assert(0x100_0000_0000int == mx * q + rem && 0 <= rem < mx) by (nonlinear_arith)
            requires
                mx > 0,
                q == 0x100_0000_0000int / mx,
                rem == 0x100_0000_0000int % mx,
        ;
        assert(q >= 1) by (nonlinear_arith)
            requires
                0x100_0000_0000int == mx * q + rem,
                mx < 0x100_0000_0000int,
                0 <= rem < mx,
        ;
        assert(mx * q >= mx) by (nonlinear_arith)
            requires
                q >= 1,
                mx > 0,
        ;
        assert(k == q);
    } else {
        assert(k == 1);
        assert(mx * k == mx);
    }
    assert(mx * k >= l);
    let g = p_scale(e, k);
    assert(forall|a: int| #![trigger a * k]
        (a == mx || a == -mx) ==> (a * k) * (a * k) >= l * l) by (nonlinear_arith)
        requires
            mx * k >= l,
            l > 0,
    ;
    assert(e.x == mx || e.x == -mx || e.y == mx || e.y == -mx || e.z == mx || e.z == -mx);
}

/// The fine Minkowski-difference support point of two spheres along a non-zero direction:
/// the difference of the centres, scaled to the fine grid, plus the two rounded offsets along
/// the magnified direction `g`, whose rounded-up length is `n`.
proof fn lemma_sphere_md_parts(a: ColliderView, b: ColliderView, ra: i64, rb: i64, e: Point)
    requires
        a.wf(),
        b.wf(),
        a.shape == (Shapes::Sphere { radius: ra }),
        b.shape == (Shapes::Sphere { radius: rb }),
        !p_is_zero(e),
    ensures
        ({
            let f = fine_scale();
            let g = p_scale(e, magnifier(e));
            let n = ceil_sqrt(norm2(g));
            &&& n >= 0x80_0000_0000
            &&& norm2(g) <= n * n
            &&& (n - 1) * (n - 1) < norm2(g)
            &&& md_support(a, b, e) == p_add(
                p_scale(p_sub(a.world[0], b.world[0]), f),
                point(
                    scaled(ra * f, g.x, n) + scaled(rb * f, g.x, n),
                    scaled(ra * f, g.y, n) + scaled(rb * f, g.y, n),
                    scaled(ra * f, g.z, n) + scaled(rb * f, g.z, n),
                ),
            )
        }),
{
    let f = fine_scale();
    let k = magnifier(e);
    assert(max_abs(p_neg(e)) == max_abs(e));
    assert(magnifier(p_neg(e)) == k);
    let g = p_scale(e, k);
    let (gx, gy, gz, ex, ey, ez) = (g.x, g.y, g.z, e.x, e.y, e.z);
    assert((-ex) * k == -gx && (-ey) * k == -gy && (-ez) * k == -gz) by (nonlinear_arith)
        requires
            gx == ex * k,
            gy == ey * k,
            gz == ez * k,
    ;
    assert(p_scale(p_neg(e), k) == p_neg(g));
    assert(norm2(p_neg(g)) == norm2(g)) by (nonlinear_arith);
    let n = ceil_sqrt(norm2(g));
    lemma_magnified_large(e);
    let l = 0x80_0000_0000int;
    assert(norm2(g) >= l * l) by (nonlinear_arith)
        requires
            gx * gx >= l * l || gy * gy >= l * l || gz * gz >= l * l,
            norm2(g) == gx * gx + gy * gy + gz * gz,
    ;
    lemma_ceil_sqrt_exists(norm2(g));
    assert(n >= l) by (nonlinear_arith)
        requires
            norm2(g) <= n * n,
            norm2(g) >= l * l,
            0 <= n,
            l > 0,
    ;
    lemma_scaled_magnitude(rb * f, gx, n);
    lemma_scaled_magnitude(rb * f, gy, n);
    lemma_scaled_magnitude(rb * f, gz, n);
    lemma_scale_sub(a.world[0], b.world[0], f);
}

/// A fine Minkowski-difference support point of two spheres lies within the sum of their
/// fine radii of the difference of their centres, scaled to the fine grid.
proof fn lemma_sphere_md_point(a: ColliderView, b: ColliderView, ra: i64, rb: i64, e: Point)
    requires
        a.wf(),
        b.wf(),
        a.shape == (Shapes::Sphere { radius: ra }),
        b.shape == (Shapes::Sphere { radius: rb }),
    ensures
        norm2(p_sub(md_support(a, b, e), p_scale(p_sub(a.world[0], b.world[0]), fine_scale())))
            <= (ra * fine_scale() + rb * fine_scale()) * (ra * fine_scale() + rb * fine_scale()),
{
    let f = fine_scale();
    let m = p_sub(a.world[0], b.world[0]);
    let u = p_sub(md_support(a, b, e), p_scale(m, f));
    let (x, y) = (ra * f, rb * f);
    assert(x >= 0 && y >= 0) by (nonlinear_arith)
        requires
            ra >= 0 && rb >= 0,
            x == ra * f && y == rb * f,
            f > 0,
    ;
    if p_is_zero(e) {
        lemma_scale_sub(a.world[0], b.world[0], f);
        assert(u == point(x - y, 0, 0));
        assert((x - y) * (x - y) + 0 * 0 + 0 * 0 <= (x + y) * (x + y)) by (nonlinear_arith)
            requires
                0 <= x,
                0 <= y,
        ;
    } else {
        lemma_sphere_md_parts(a, b, ra, rb, e);
        let g = p_scale(e, magnifier(e));
        let n = ceil_sqrt(norm2(g));
        lemma_offset_sum_norm(x, y, g, n);
    }
}

/// Two spheres whose centres lie at least the sum of their radii apart, touching or
/// separate, are never reported as intersecting.
pub proof fn lemma_spheres_apart_not_intersecting(
    a: ColliderView,
    b: ColliderView,
    ra: i64,
    rb: i64,
)
    requires
        a.wf(),
        b.wf(),
        a.shape == (Shapes::Sphere { radius: ra }),
        b.shape == (Shapes::Sphere { radius: rb }),
        norm2(p_sub(a.world[0], b.world[0])) >= (ra + rb) * (ra + rb),
    ensures
        gjk_verdict(a, b) != Verdict::Intersecting,
{
    let f = fine_scale();
    let m0 = p_sub(a.world[0], b.world[0]);
    let m = p_scale(m0, f);
    let r = ra * f + rb * f;
    let (c1, c2, c3) = (m0.x, m0.y, m0.z);
    let rr = (ra + rb) as int;
    let ff = f * f;
    assert((c1 * f) * (c1 * f) == ff * (c1 * c1)) by (nonlinear_arith)
        requires
            ff == f * f,
    ;
    assert((c2 * f) * (c2 * f) == ff * (c2 * c2)) by (nonlinear_arith)
        requires
            ff == f * f,
    ;
    assert((c3 * f) * (c3 * f) == ff * (c3 * c3)) by (nonlinear_arith)
        requires
            ff == f * f,
    ;
    assert(r == rr * f) by (nonlinear_arith)
        requires
            r == ra * f + rb * f,
            rr == ra + rb,
    ;
    assert(r * r == ff * (rr * rr)) by (nonlinear_arith)
        requires
            r == rr * f,
            ff == f * f,
    ;
    let n0 = c1 * c1 + c2 * c2 + c3 * c3;
    assert(ff * n0 >= ff * (rr * rr)) by (nonlinear_arith)
        requires
            n0 >= rr * rr,
            ff > 0,
    ;
    assert(ff * n0 == ff * (c1 * c1) + ff * (c2 * c2) + ff * (c3 * c3)) by (nonlinear_arith)
        requires
            n0 == c1 * c1 + c2 * c2 + c3 * c3,
    ;
    assert(norm2(m) >= r * r);
    if gjk_verdict(a, b) == Verdict::Intersecting {
        lemma_intersecting_encloses_origin(a, b);
        let (w, x, y, z) = choose|w: Point, x: Point, y: Point, z: Point|
            encloses_origin(
                #[trigger] md_support(a, b, w),
                #[trigger] md_support(a, b, x),
                #[trigger] md_support(a, b, y),
                #[trigger] md_support(a, b, z),
            );
        assert forall|v: Point| !p_is_zero(#[trigger] md_support(a, b, v)) implies p_dot(
            md_support(a, b, v),
            m,
        ) > 0 by {
            lemma_sphere_md_point(a, b, ra, rb, v);
            let p = md_support(a, b, v);
            let u = p_sub(p, m);
            let (px, py, pz) = (p.x, p.y, p.z);
            let (mx, my, mz) = (m.x, m.y, m.z);
            let (ux, uy, uz) = (u.x, u.y, u.z);
            assert(2 * (px * mx) == px * px + mx * mx - ux * ux) by (nonlinear_arith)
                requires
                    px == mx + ux,
            ;
            assert(2 * (py * my) == py * py + my * my - uy * uy) by (nonlinear_arith)
                requires
                    py == my + uy,
            ;
            assert(2 * (pz * mz) == pz * pz + mz * mz - uz * uz) by (nonlinear_arith)
                requires
                    pz == mz + uz,
            ;
            assert(px * px + py * py + pz * pz > 0) by (nonlinear_arith)
                requires
                    !(px == 0 && py == 0 && pz == 0),
            ;
        }
        lemma_hull_excludes_origin(
            md_support(a, b, w),
            md_support(a, b, x),
            md_support(a, b, y),
            md_support(a, b, z),
            m,
        );
    }
}

/// The arithmetic core of the overlap law: with `x = m . g` for the centre difference `m`
/// (`mm = |m|^2 < rr^2`), `du` the dot product of the rounded offsets with the magnified
/// direction `g` (`s = |g|^2`, `n` its rounded-up length, `t` the sum of its coordinate
/// magnitudes), the fine support point lies strictly beyond the origin along `g`.
proof fn lemma_overlap_arith(f: int, rr: int, mm: int, s: int, n: int, x: int, du: int, t: int)
    requires
        f == 32768,
        1 <= rr <= 2048,
        0 <= mm < rr * rr,
        n >= 0x80_0000_0000int,
        s <= n * n,
        (n - 1) * (n - 1) < s,
        x * x <= mm * s,
        n * du >= f * rr * s - 2 * n * t,
        0 <= t <= 3 * n,
    ensures
        f * x + du > 0,
{
    assert(n * du >= f * rr * s - 6 * (n * n)) by (nonlinear_arith)
        requires
            n * du >= f * rr * s - 2 * n * t,
            0 <= t <= 3 * n,
            n > 0,
    ;
    assert(s >= n * n - 2 * n + 2) by (nonlinear_arith)
        requires
            (n - 1) * (n - 1) < s,
    ;
    if x >= 0 {
        assert(f * rr * s > 6 * (n * n)) by (nonlinear_arith)
            requires
                f == 32768,
                rr >= 1,
                s >= n * n - 2 * n + 2,
                n >= 0x80_0000_0000int,
        ;
        assert(n * (f * x + du) > 0) by (nonlinear_arith)
            requires
                n * du > 0,
                x >= 0,
                f > 0,
                n > 0,
        ;
        assert(f * x + du > 0) by (nonlinear_arith)
            requires
                n * (f * x + du) > 0,
                n > 0,
        ;
    } else {
        let big_x = -x;
        let rn = rr * n;
        assert(big_x * big_x == x * x) by (nonlinear_arith)
            requires
                big_x == -x,
        ;
        assert(rn > 0) by (nonlinear_arith)
            requires
                rn == rr * n,
                rr >= 1,
                n > 0,
        ;
        assert(big_x * big_x <= (rr * rr - 1) * (n * n)) by (nonlinear_arith)
            requires
                big_x * big_x == x * x,
                x * x <= mm * s,
                0 <= mm <= rr * rr - 1,
                0 <= s <= n * n,
        ;
        assert(big_x <= rn) by (nonlinear_arith)
            requires
                big_x * big_x <= (rr * rr - 1) * (n * n),
                rn == rr * n,
                big_x > 0,
                rn > 0,
        ;
        let z = rn - big_x;
        assert(z * (rn + big_x) >= n * n) by (nonlinear_arith)
            requires
                z == rn - big_x,
                rn == rr * n,
                big_x * big_x <= (rr * rr - 1) * (n * n),
        ;
        assert(2 * rr * z >= n) by (nonlinear_arith)
            requires
                z * (rn + big_x) >= n * n,
                z >= 0,
                0 < big_x <= rn,
                rn == rr * n,
                n > 0,
        ;
        assert(rr * s - n * big_x >= n * z - 2 * rr * n) by (nonlinear_arith)
            requires
                s >= n * n - 2 * n + 2,
                z == rr * n - big_x,
                rr >= 1,
        ;
        assert(2 * rr * (f * (rr * s - n * big_x)) >= f * (n * n) - 4 * f * (rr * rr) * n)
            by (nonlinear_arith)
            requires
                rr * s - n * big_x >= n * z - 2 * rr * n,
                2 * rr * z >= n,
                f > 0,
                rr > 0,
                n > 0,
        ;
        assert(f * (n * n) - 4 * f * (rr * rr) * n > 12 * rr * (n * n)) by (nonlinear_arith)
            requires
                f == 32768,
                1 <= rr <= 2048,
                n >= 0x80_0000_0000int,
        ;
        assert(f * (rr * s - n * big_x) > 6 * (n * n)) by (nonlinear_arith)
            requires
                2 * rr * (f * (rr * s - n * big_x)) > 12 * rr * (n * n),
                rr > 0,
        ;
        assert(n * (f * x + du) > 0) by (nonlinear_arith)
            requires
                n * du >= f * rr * s - 6 * (n * n),
                f * (rr * s - n * big_x) > 6 * (n * n),
                x == -big_x,
        ;
        assert(f * x + du > 0) by (nonlinear_arith)
            requires
                n * (f * x + du) > 0,
                n > 0,
        ;
    }
}

/// Rounding toward zero loses less than one: `n * (scaled(r, a, n) * a) >= r * a^2 - n * |a|`.
proof fn lemma_scaled_lower(r: int, a: int, n: int)
    requires
        0 <= r,
        0 < n,
    ensures
        n * (scaled(r, a, n) * a) >= r * (a * a) - n * (if a >= 0 { a } else { -a }),
{
    let b = if a >= 0 { a } else { -a };
    let q = (r * b) / n;
    assert(n * q > r * b - n) by (nonlinear_arith)
        requires
            q == (r * b) / n,
            n > 0,
    ;
    assert(scaled(r, a, n) * a == q * b) by (nonlinear_arith)
        requires
            a >= 0 ==> scaled(r, a, n) == q && b == a,
            a < 0 ==> scaled(r, a, n) == -q && b == -a,
    ;
    assert(n * (q * b) >= r * (b * b) - n * b) by (nonlinear_arith)
        requires
            n * q > r * b - n,
            b >= 0,
    ;
    assert(a * a == b * b) by (nonlinear_arith)
        requires
            b == a || b == -a,
    ;
}

/// For spheres whose centres lie closer than the sum of their radii, the fine support point
/// of the Minkowski difference along any non-zero direction lies strictly beyond the origin.
proof fn lemma_overlap_positive(a: ColliderView, b: ColliderView, ra: i64, rb: i64, d: Point)
    requires
        a.wf(),
        b.wf(),
        a.shape == (Shapes::Sphere { radius: ra }),
        b.shape == (Shapes::Sphere { radius: rb }),
        norm2(p_sub(a.world[0], b.world[0])) < (ra + rb) * (ra + rb),
        !p_is_zero(d),
    ensures
        p_dot(md_support(a, b, d), d) > 0,
{
    lemma_sphere_md_parts(a, b, ra, rb, d);
    let f = fine_scale();
    let k = magnifier(d);
    let g = p_scale(d, k);
    let s = norm2(g);
    let n = ceil_sqrt(s);
    let m = p_sub(a.world[0], b.world[0]);
    let (fa, fb) = (ra * f, rb * f);
    assert(fa >= 0 && fb >= 0) by (nonlinear_arith)
        requires
            ra >= 0 && rb >= 0,
            fa == ra * f && fb == rb * f,
            f > 0,
    ;
    let (gx, gy, gz) = (g.x, g.y, g.z);
    let (ax, ay, az) = (scaled(fa, gx, n), scaled(fa, gy, n), scaled(fa, gz, n));
    let (bx, by, bz) = (scaled(fb, gx, n), scaled(fb, gy, n), scaled(fb, gz, n));
    let u = point(ax + bx, ay + by, az + bz);
    let md = md_support(a, b, d);
    assert(md == p_add(p_scale(m, f), u));
    lemma_scaled_lower(fa, gx, n);
    lemma_scaled_lower(fa, gy, n);
    lemma_scaled_lower(fa, gz, n);
    lemma_scaled_lower(fb, gx, n);
    lemma_scaled_lower(fb, gy, n);
    lemma_scaled_lower(fb, gz, n);
    let hx = if gx >= 0 { gx } else { -gx };
    let hy = if gy >= 0 { gy } else { -gy };
    let hz = if gz >= 0 { gz } else { -gz };
    let t = hx + hy + hz;
    let du = p_dot(u, g);
    assert(du == ax * gx + bx * gx + ay * gy + by * gy + az * gz + bz * gz) by (nonlinear_arith)
        requires
            du == (ax + bx) * gx + (ay + by) * gy + (az + bz) * gz,
    ;
    assert(n * du == n * (ax * gx) + n * (bx * gx) + n * (ay * gy) + n * (by * gy) + n * (az * gz)
        + n * (bz * gz)) by (nonlinear_arith)
        requires
            du == ax * gx + bx * gx + ay * gy + by * gy + az * gz + bz * gz,
    ;
    let rr = (ra + rb) as int;
    let (qx, qy, qz) = (gx * gx, gy * gy, gz * gz);
    let fr = fa + fb;
    assert(fr == f * rr) by (nonlinear_arith)
        requires
            fa == ra * f,
            fb == rb * f,
            rr == ra + rb,
            fr == fa + fb,
    ;
    assert(fa * qx + fb * qx == fr * qx && fa * qy + fb * qy == fr * qy && fa * qz + fb * qz
        == fr * qz) by (nonlinear_arith)
        requires
            fr == fa + fb,
    ;
    assert(fr * qx + fr * qy + fr * qz == fr * s) by (nonlinear_arith)
        requires
            s == qx + qy + qz,
    ;
    assert(fr * s == f * rr * s) by (nonlinear_arith)
        requires
            fr == f * rr,
    ;
    assert(n * du >= f * rr * s - 2 * n * t) by (nonlinear_arith)
        requires
            n * du == n * (ax * gx) + n * (bx * gx) + n * (ay * gy) + n * (by * gy) + n * (az
                * gz) + n * (bz * gz),
            n * (ax * gx) >= fa * (gx * gx) - n * hx,
            n * (bx * gx) >= fb * (gx * gx) - n * hx,
            n * (ay * gy) >= fa * (gy * gy) - n * hy,
            n * (by * gy) >= fb * (gy * gy) - n * hy,
            n * (az * gz) >= fa * (gz * gz) - n * hz,
            n * (bz * gz) >= fb * (gz * gz) - n * hz,
            fa * (gx * gx) + fb * (gx * gx) + fa * (gy * gy) + fb * (gy * gy) + fa * (gz * gz)
                + fb * (gz * gz) == f * rr * s,
            t == hx + hy + hz,
    ;
    assert(0 <= t <= 3 * n) by (nonlinear_arith)
        requires
            s == gx * gx + gy * gy + gz * gz,
            s <= n * n,
            n > 0,
            hx == gx || hx == -gx,
            hy == gy || hy == -gy,
            hz == gz || hz == -gz,
            hx >= 0 && hy >= 0 && hz >= 0,
            t == hx + hy + hz,
    ;
    let mm = norm2(m);
    assert(mm >= 0) by (nonlinear_arith)
        requires
            mm == m.x * m.x + m.y * m.y + m.z * m.z,
    ;
    assert(rr >= 1) by (nonlinear_arith)
        requires
            0 <= mm < rr * rr,
            rr >= 0,
    ;
    let x = p_dot(m, g);
    lemma_cauchy_schwarz(m, g);
    lemma_overlap_arith(f, rr, mm, s, n, x, du, t);
    lemma_dot_add(p_scale(m, f), u, g);
    lemma_dot_scaled(m, f, g);
    lemma_dot_linear(md, g, g);
    lemma_dot_scaled(d, k, md);
    lemma_dot_linear(md, d, d);
    lemma_magnifier_positive(d);
    let y = p_dot(md, d);
    assert(y > 0) by (nonlinear_arith)
        requires
            k * y > 0,
            k >= 1,
    ;
}

/// Two spheres whose centres lie closer than the sum of their radii are never reported as
/// separated: along every direction the search tries, the support point of their Minkowski
/// difference passes the origin.
pub proof fn lemma_overlapping_spheres_not_separated(
    a: ColliderView,
    b: ColliderView,
    ra: i64,
    rb: i64,
)
    requires
        a.wf(),
        b.wf(),
        a.shape == (Shapes::Sphere { radius: ra }),
        b.shape == (Shapes::Sphere { radius: rb }),
        norm2(p_sub(a.world[0], b.world[0])) < (ra + rb) * (ra + rb),
    ensures
        !(gjk_verdict(a, b) is Separated),
{
    if let Verdict::Separated(e) = gjk_verdict(a, b) {
        lemma_separated_certificate(a, b, e);
        lemma_overlap_positive(a, b, ra, rb, e);
    }
}

} // verus!
