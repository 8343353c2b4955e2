use vstd::prelude::*;

use crate::collider::{
    all_within, dir_bound, fine_support, max_abs, points_view, scaled, Collider, ColliderView,
};
use crate::geometry::hull_weights;
use crate::soundness::{
    encloses_origin, lemma_intersecting_encloses_origin, lemma_separated_certificate,
};
use crate::vector::{
    lemma_cross_within, lemma_dot_within, lemma_mul_within, lemma_within_mono, p_add, p_cross,
    p_dot, p_is_zero, p_neg, p_scale, p_sub, point, small_bound, vec_cross, vec_dot, vec_neg,
    vec_sub, within, Point, Vec3,
};

verus! {

/// How many support queries one intersection test may make after its first.
pub const MAX_ITERATIONS: u64 = 64;

pub open spec fn max_iterations() -> int {
    64
}

/// Largest absolute coordinate of a point of a Minkowski difference of two colliders, on the
/// fine grid.
pub open spec fn simplex_bound() -> int {
    0x2000_0000
}

/// The support point of the Minkowski difference `a - b` in direction `d`, on the fine grid.
pub open spec fn md_support(a: ColliderView, b: ColliderView, d: Point) -> Point {
    p_sub(fine_support(a, d), fine_support(b, p_neg(d)))
}

/// The divisor that brings every coordinate of `v` below `2^30` in magnitude.
pub open spec fn shrink_divisor(v: Point) -> int {
    max_abs(v) / 0x4000_0000 + 1
}

/// `v` with each coordinate divided by `shrink_divisor(v)`, rounded toward zero: a vector
/// of nearly the same direction whose coordinates stay below `2^30` in magnitude.
pub open spec fn shrunk(v: Point) -> Point {
    let q = shrink_divisor(v);
    point(scaled(1, v.x, q), scaled(1, v.y, q), scaled(1, v.z, q))
}

/// A non-zero vector perpendicular to a non-zero `v`.
pub open spec fn perpendicular(v: Point) -> Point {
    let e = p_cross(v, point(1, 0, 0));
    if p_is_zero(e) {
        p_cross(v, point(0, 1, 0))
    } else {
        e
    }
}

/// The search direction from segment `b a` (`a` newest): the part of `a -> origin`
/// perpendicular to the segment, found as `cross(n, ab)` for `n` the normal of the plane
/// through the segment and the origin, shortened first; or any perpendicular where the
/// origin lies on the segment's line.
pub open spec fn line_direction(b: Point, a: Point) -> Point {
    let ab = p_sub(b, a);
    let ao = p_neg(a);
    let d = p_cross(shrunk(p_cross(ab, ao)), ab);
    if p_is_zero(d) {
        perpendicular(ab)
    } else {
        d
    }
}

/// Region test on triangle `s = [c, b, a]` (`a` newest): the simplex kept and the next
/// search direction. The edge tests `cross(abc, ac) . ao` and `cross(ab, abc) . ao` are
/// written as the equal triple products `abc . cross(ac, ao)` and `abc . cross(ao, ab)`.
pub open spec fn triangle_step(s: Seq<Point>) -> (Seq<Point>, Point) {
    let c = s[0];
    let b = s[1];
    let a = s[2];
    let ab = p_sub(b, a);
    let ac = p_sub(c, a);
    let ao = p_neg(a);
    let abc = p_cross(ab, ac);
    if p_dot(abc, p_cross(ac, ao)) > 0 {
        if p_dot(ac, ao) > 0 {
            (seq![c, a], line_direction(c, a))
        } else {
            (seq![b, a], line_direction(b, a))
        }
    } else if p_dot(abc, p_cross(ao, ab)) > 0 {
        (seq![b, a], line_direction(b, a))
    } else if p_dot(abc, ao) > 0 {
        (s, abc)
    } else {
        (seq![b, c, a], p_neg(abc))
    }
}

/// The barycentric weights of the origin in tetrahedron `s = [d, c, b, a]`, scaled by six
/// times its volume, for the corners `a`, `b`, `c`, `d` (Cramer's rule).
pub open spec fn tetrahedron_weights(s: Seq<Point>) -> (int, int, int, int) {
    let ab = p_sub(s[2], s[3]);
    let ac = p_sub(s[1], s[3]);
    let ad = p_sub(s[0], s[3]);
    let ao = p_neg(s[3]);
    let wb = -p_dot(p_cross(ac, ad), ao);
    let wc = -p_dot(p_cross(ad, ab), ao);
    let wd = -p_dot(p_cross(ab, ac), ao);
    let wa = -p_dot(p_cross(ab, ac), ad) - wb - wc - wd;
    (wa, wb, wc, wd)
}

/// Region test on tetrahedron `s = [d, c, b, a]` (`a` newest): whether it encloses the
/// origin, else the simplex kept and the next search direction. The origin counts as
/// enclosed when it is on the inner side of the three faces through `a`, those faces face
/// away from the opposite corners, and the barycentric weights confirm it. A tetrahedron
/// that passes the face tests but not the others is flat: the search direction then
/// vanishes.
pub open spec fn tetrahedron_step(s: Seq<Point>) -> (bool, Seq<Point>, Point) {
    let d = s[0];
    let c = s[1];
    let b = s[2];
    let a = s[3];
    let ab = p_sub(b, a);
    let ac = p_sub(c, a);
    let ad = p_sub(d, a);
    let ao = p_neg(a);
    if p_dot(p_cross(ab, ac), ao) > 0 {
        let (t, dir) = triangle_step(seq![c, b, a]);
        (false, t, dir)
    } else if p_dot(p_cross(ac, ad), ao) > 0 {
        let (t, dir) = triangle_step(seq![d, c, a]);
        (false, t, dir)
    } else if p_dot(p_cross(ad, ab), ao) > 0 {
        let (t, dir) = triangle_step(seq![d, b, a]);
        (false, t, dir)
    } else if p_dot(p_cross(ab, ac), ad) < 0 && p_dot(p_cross(ac, ad), ab) < 0 && p_dot(
        p_cross(ad, ab),
        ac,
    ) < 0 && {
        let (wa, wb, wc, wd) = tetrahedron_weights(s);
        hull_weights(wa, wb, wc, wd, a, b, c, d)
    } {
        (true, s, point(0, 0, 0))
    } else {
        (false, seq![c, b, a], point(0, 0, 0))
    }
}

/// One region classification of a simplex of two to four points.
pub open spec fn handle_simplex(s: Seq<Point>) -> (bool, Seq<Point>, Point) {
    if s.len() == 2 {
        (false, s, line_direction(s[0], s[1]))
    } else if s.len() == 3 {
        let (t, dir) = triangle_step(s);
        (false, t, dir)
    } else {
        tetrahedron_step(s)
    }
}

/// What an intersection test concluded.
pub enum Verdict {
    /// A tetrahedron of Minkowski-difference points encloses the origin.
    Intersecting,
    /// No point of the Minkowski difference lies beyond the origin along this direction.
    Separated(Point),
    /// The search direction vanished (the origin lies on the simplex found so far), or the
    /// tetrahedron found was flat.
    Degenerate,
    /// The iteration bound ran out first.
    Undecided,
}

/// The search from simplex `s` and direction `d`, with `fuel` support queries left.
pub open spec fn run(
    a: ColliderView,
    b: ColliderView,
    s: Seq<Point>,
    d: Point,
    fuel: nat,
) -> Verdict
    decreases fuel,
{
    if fuel == 0 {
        Verdict::Undecided
    } else if p_is_zero(d) {
        Verdict::Degenerate
    } else {
        let p = md_support(a, b, d);
        if p_dot(p, d) <= 0 {
            Verdict::Separated(d)
        } else {
            let (enclosed, t, dir) = handle_simplex(s.push(p));
            if enclosed {
                Verdict::Intersecting
            } else {
                run(a, b, t, dir, (fuel - 1) as nat)
            }
        }
    }
}

/// The seed direction of every search.
pub open spec fn seed_direction() -> Point {
    point(1, 1, 1)
}

/// The verdict of the GJK search on colliders `a` and `b`.
pub open spec fn gjk_verdict(a: ColliderView, b: ColliderView) -> Verdict {
    let p0 = md_support(a, b, seed_direction());
    run(a, b, seq![p0], p_neg(p0), max_iterations() as nat)
}

/// The outcome of one intersection test.
#[derive(Clone, Copy, Debug, PartialEq, Eq, Structural)]
pub enum GjkOutcome {
    /// The colliders intersect.
    Intersecting,
    /// The colliders do not intersect; the direction separates their Minkowski difference
    /// from the origin.
    Separated(Vec3),
    /// The search direction vanished, or the tetrahedron found was flat: no decision, which
    /// counts as no intersection.
    Degenerate,
    /// The iteration bound ran out before a decision.
    Undecided,
}

impl GjkOutcome {
    pub open spec fn view(&self) -> Verdict {
        match *self {
            GjkOutcome::Intersecting => Verdict::Intersecting,
            GjkOutcome::Separated(d) => Verdict::Separated(d@),
            GjkOutcome::Degenerate => Verdict::Degenerate,
            GjkOutcome::Undecided => Verdict::Undecided,
        }
    }
}

fn support(s1: &Collider, s2: &Collider, d: Vec3) -> (p: Vec3)
    requires
        s1@.wf(),
        s2@.wf(),
        within(d@, dir_bound()),
    ensures
        p@ == md_support(s1@, s2@, d@),
        within(p@, simplex_bound()),
{
    let pa = s1.fine_support(d);
    let pb = s2.fine_support(vec_neg(d));
    vec_sub(pa, pb)
}

fn perpendicular_exec(v: Vec3) -> (e: Vec3)
    requires
        within(v@, 2 * simplex_bound()),
    ensures
        e@ == perpendicular(v@),
        within(e@, 4 * simplex_bound()),
{
    proof {
        lemma_within_mono(v@, 2 * simplex_bound(), small_bound());
        lemma_cross_within(v@, point(1, 0, 0), 2 * simplex_bound(), 1);
        lemma_cross_within(v@, point(0, 1, 0), 2 * simplex_bound(), 1);
    }
    let e = vec_cross(v, Vec3::new(1, 0, 0));
    if e.is_zero() {
        vec_cross(v, Vec3::new(0, 1, 0))
    } else {
        e
    }
}

/// The shortened vector `shrunk(v)`.
fn shrink(v: Vec3) -> (r: Vec3)
    requires
        within(v@, dir_bound()),
    ensures
        r@ == shrunk(v@),
        within(r@, 0x4000_0000),
{
    let ax = if v.x >= 0 { v.x } else { -v.x };
    let ay = if v.y >= 0 { v.y } else { -v.y };
    let az = if v.z >= 0 { v.z } else { -v.z };
    let mx = if ax >= ay && ax >= az {
        ax
    } else if ay >= az {
        ay
    } else {
        az
    };
    assert(mx == max_abs(v@));
    let q: i64 = mx / 0x4000_0000 + 1;
    proof {
        lemma_shrunk_within(v@);
    }
    let x = if v.x >= 0 { v.x / q } else { -((-v.x) / q) };
    let y = if v.y >= 0 { v.y / q } else { -((-v.y) / q) };
    let z = if v.z >= 0 { v.z / q } else { -((-v.z) / q) };
    proof {
        assert(1 * (v.x as int) == v.x as int && 1 * -(v.x as int) == -(v.x as int));
        assert(1 * (v.y as int) == v.y as int && 1 * -(v.y as int) == -(v.y as int));
        assert(1 * (v.z as int) == v.z as int && 1 * -(v.z as int) == -(v.z as int));
    }
    Vec3::new(x, y, z)
}

/// A shortened vector has coordinates below `2^30` in magnitude.
proof fn lemma_shrunk_within(v: Point)
    ensures
        within(shrunk(v), 0x4000_0000),
{
    let mx = max_abs(v);
    let q = shrink_divisor(v);
    assert(mx < 0x4000_0000 * q && q > 0) by (nonlinear_arith)
        requires
            mx >= 0,
            q == mx / 0x4000_0000 + 1,
    ;
    assert forall|a: int| -mx <= a <= mx implies -0x4000_0000 <= #[trigger] scaled(1, a, q)
        <= 0x4000_0000 by {
        let b = if a >= 0 { a } else { -a };
        assert(1 * b == b);
        assert(b / q <= 0x4000_0000) by (nonlinear_arith)
            requires
                0 <= b <= mx,
                mx < 0x4000_0000 * q,
                q > 0,
        ;
    }
    assert(-mx <= v.x <= mx && -mx <= v.y <= mx && -mx <= v.z <= mx);
}

fn line_case(b: Vec3, a: Vec3) -> (d: Vec3)
    requires
        within(a@, simplex_bound()),
        within(b@, simplex_bound()),
    ensures
        d@ == line_direction(b@, a@),
        within(d@, dir_bound()),
{
    let ghost m = simplex_bound();
    let ab = vec_sub(b, a);
    let ao = vec_neg(a);
    proof {
        lemma_within_mono(ab@, 2 * m, small_bound());
        lemma_within_mono(ao@, m, small_bound());
        lemma_cross_within(ab@, ao@, 2 * m, m);
    }
    let n = vec_cross(ab, ao);
    let c = shrink(n);
    proof {
        lemma_cross_within(c@, ab@, 0x4000_0000, 2 * m);
    }
    let d = vec_cross(c, ab);
    if d.is_zero() {
        perpendicular_exec(ab)
    } else {
        d
    }
}

/// Bounds of the products the triangle test forms.
proof fn lemma_triangle_bounds(c: Point, b: Point, a: Point)
    requires
        within(a, simplex_bound()),
        within(b, simplex_bound()),
        within(c, simplex_bound()),
    ensures
        within(p_cross(p_sub(b, a), p_sub(c, a)), 0x2000_0000_0000_0000),
        within(p_cross(p_sub(c, a), p_neg(a)), small_bound()),
        within(p_cross(p_neg(a), p_sub(b, a)), small_bound()),
        within(p_cross(p_sub(b, a), p_sub(c, a)), small_bound()),
{
    let m = simplex_bound();
    let ab = p_sub(b, a);
    let ac = p_sub(c, a);
    let ao = p_neg(a);
    lemma_cross_within(ab, ac, 0x4000_0000, 0x4000_0000);
    lemma_cross_within(ac, ao, 2 * m, m);
    lemma_cross_within(ao, ab, m, 2 * m);
}

fn triangle_case(c: Vec3, b: Vec3, a: Vec3) -> (r: (Vec<Vec3>, Vec3))
    requires
        within(a@, simplex_bound()),
        within(b@, simplex_bound()),
        within(c@, simplex_bound()),
    ensures
        (points_view(r.0@), r.1@) == triangle_step(seq![c@, b@, a@]),
        all_within(points_view(r.0@), simplex_bound()),
        2 <= r.0@.len() <= 3,
        within(r.1@, dir_bound()),
{
    let ghost m = simplex_bound();
    let ab = vec_sub(b, a);
    let ac = vec_sub(c, a);
    let ao = vec_neg(a);
    proof {
        lemma_triangle_bounds(c@, b@, a@);
        lemma_within_mono(ab@, 2 * m, small_bound());
        lemma_within_mono(ac@, 2 * m, small_bound());
        lemma_within_mono(ao@, m, small_bound());
    }
    let abc = vec_cross(ab, ac);
    let ghost s = seq![c@, b@, a@];
    let ghost step = triangle_step(s);
    let out: (Vec<Vec3>, Vec3) = if vec_dot(abc, vec_cross(ac, ao)) > 0 {
        if vec_dot(ac, ao) > 0 {
            (vec![c, a], line_case(c, a))
        } else {
            (vec![b, a], line_case(b, a))
        }
    } else if vec_dot(abc, vec_cross(ao, ab)) > 0 {
        (vec![b, a], line_case(b, a))
    } else if vec_dot(abc, ao) > 0 {
        (vec![c, b, a], abc)
    } else {
        (vec![b, c, a], vec_neg(abc))
    };
    proof {
        assert(points_view(out.0@) =~= step.0);
    }
    out
}

/// `wa * a + wb * b + wc * c + wd * d`, one coordinate at a time.
fn weighted_sum(wa: i128, wb: i128, wc: i128, wd: i128, a: i64, b: i64, c: i64, d: i64) -> (r: i128)
    requires
        -weight_bound() <= wa <= weight_bound(),
        -weight_bound() <= wb <= weight_bound(),
        -weight_bound() <= wc <= weight_bound(),
        -weight_bound() <= wd <= weight_bound(),
        -simplex_bound() <= a <= simplex_bound(),
        -simplex_bound() <= b <= simplex_bound(),
        -simplex_bound() <= c <= simplex_bound(),
        -simplex_bound() <= d <= simplex_bound(),
    ensures
        r == wa * a + wb * b + wc * c + wd * d,
{
    proof {
        lemma_mul_within(wa as int, a as int, weight_bound(), simplex_bound());
        lemma_mul_within(wb as int, b as int, weight_bound(), simplex_bound());
        lemma_mul_within(wc as int, c as int, weight_bound(), simplex_bound());
        lemma_mul_within(wd as int, d as int, weight_bound(), simplex_bound());
    }
    wa * (a as i128) + wb * (b as i128) + wc * (c as i128) + wd * (d as i128)
}

/// A bound on the barycentric weights of a tetrahedron of simplex points.
pub open spec fn weight_bound() -> int {
    0x8000_0000_0000_0000_0000_0000
}

/// Whether the barycentric weights of the origin in tetrahedron `[d, c, b, a]` are
/// non-negative, not all zero, and sum the corners to the origin.
fn weights_confirm(d: Vec3, c: Vec3, b: Vec3, a: Vec3) -> (r: bool)
    requires
        within(a@, simplex_bound()),
        within(b@, simplex_bound()),
        within(c@, simplex_bound()),
        within(d@, simplex_bound()),
    ensures
        r == ({
            let (wa, wb, wc, wd) = tetrahedron_weights(seq![d@, c@, b@, a@]);
            hull_weights(wa, wb, wc, wd, a@, b@, c@, d@)
        }),
{
    let ghost m = simplex_bound();
    let ab = vec_sub(b, a);
    let ac = vec_sub(c, a);
    let ad = vec_sub(d, a);
    let ao = vec_neg(a);
    proof {
        lemma_within_mono(ab@, 2 * m, small_bound());
        lemma_within_mono(ac@, 2 * m, small_bound());
        lemma_within_mono(ad@, 2 * m, small_bound());
        lemma_within_mono(ao@, m, small_bound());
        lemma_cross_within(ab@, ac@, 2 * m, 2 * m);
        lemma_cross_within(ac@, ad@, 2 * m, 2 * m);
        lemma_cross_within(ad@, ab@, 2 * m, 2 * m);
        assert(2 * ((2 * m) * (2 * m)) == 2_305_843_009_213_693_952);
        lemma_dot_within(p_cross(ac@, ad@), ao@, 2_305_843_009_213_693_952, m);
        lemma_dot_within(p_cross(ad@, ab@), ao@, 2_305_843_009_213_693_952, m);
        lemma_dot_within(p_cross(ab@, ac@), ao@, 2_305_843_009_213_693_952, m);
        lemma_dot_within(p_cross(ab@, ac@), ad@, 2_305_843_009_213_693_952, 2 * m);
    }
    let abc = vec_cross(ab, ac);
    let acd = vec_cross(ac, ad);
    let adb = vec_cross(ad, ab);
    let wb = -vec_dot(acd, ao);
    let wc = -vec_dot(adb, ao);
    let wd = -vec_dot(abc, ao);
    let wa = -vec_dot(abc, ad) - wb - wc - wd;
    let ghost s = seq![d@, c@, b@, a@];
    assert(s[3] == a@ && s[2] == b@ && s[1] == c@ && s[0] == d@);
    if wa < 0 || wb < 0 || wc < 0 || wd < 0 || wa + wb + wc + wd <= 0 {
        return false;
    }
    let x = weighted_sum(wa, wb, wc, wd, a.x, b.x, c.x, d.x);
    let y = weighted_sum(wa, wb, wc, wd, a.y, b.y, c.y, d.y);
    let z = weighted_sum(wa, wb, wc, wd, a.z, b.z, c.z, d.z);
    proof {
        lemma_scaled_sum(wa as int, wb as int, wc as int, wd as int, a@, b@, c@, d@);
    }
    x == 0 && y == 0 && z == 0
}

/// Coordinates of the weighted sum of four points.
proof fn lemma_scaled_sum(
    wa: int,
    wb: int,
    wc: int,
    wd: int,
    a: Point,
    b: Point,
    c: Point,
    d: Point,
)
    ensures
        p_add(p_add(p_scale(a, wa), p_scale(b, wb)), p_add(p_scale(c, wc), p_scale(d, wd)))
            == point(
            wa * a.x + wb * b.x + wc * c.x + wd * d.x,
            wa * a.y + wb * b.y + wc * c.y + wd * d.y,
            wa * a.z + wb * b.z + wc * c.z + wd * d.z,
        ),
{
    assert(a.x * wa == wa * a.x && a.y * wa == wa * a.y && a.z * wa == wa * a.z)
        by (nonlinear_arith);
    assert(b.x * wb == wb * b.x && b.y * wb == wb * b.y && b.z * wb == wb * b.z)
        by (nonlinear_arith);
    assert(c.x * wc == wc * c.x && c.y * wc == wc * c.y && c.z * wc == wc * c.z)
        by (nonlinear_arith);
    assert(d.x * wd == wd * d.x && d.y * wd == wd * d.y && d.z * wd == wd * d.z)
        by (nonlinear_arith);
}

fn tetrahedron_case(d: Vec3, c: Vec3, b: Vec3, a: Vec3) -> (r: (bool, Vec<Vec3>, Vec3))
    requires
        within(a@, simplex_bound()),
        within(b@, simplex_bound()),
        within(c@, simplex_bound()),
        within(d@, simplex_bound()),
    ensures
        (r.0, points_view(r.1@), r.2@) == tetrahedron_step(seq![d@, c@, b@, a@]),
        all_within(points_view(r.1@), simplex_bound()),
        !r.0 ==> 2 <= r.1@.len() <= 3,
        within(r.2@, dir_bound()),
{
    let ghost m = simplex_bound();
    let ab = vec_sub(b, a);
    let ac = vec_sub(c, a);
    let ad = vec_sub(d, a);
    let ao = vec_neg(a);
    proof {
        lemma_within_mono(ab@, 2 * m, small_bound());
        lemma_within_mono(ac@, 2 * m, small_bound());
        lemma_within_mono(ad@, 2 * m, small_bound());
        lemma_within_mono(ao@, m, small_bound());
        lemma_cross_within(ab@, ac@, 2 * m, 2 * m);
        lemma_cross_within(ac@, ad@, 2 * m, 2 * m);
        lemma_cross_within(ad@, ab@, 2 * m, 2 * m);
    }
    let ghost s = seq![d@, c@, b@, a@];
    let ghost step = tetrahedron_step(s);
    if vec_dot(vec_cross(ab, ac), ao) > 0 {
        let (t, dir) = triangle_case(c, b, a);
        return (false, t, dir);
    }
    if vec_dot(vec_cross(ac, ad), ao) > 0 {
        let (t, dir) = triangle_case(d, c, a);
        return (false, t, dir);
    }
    if vec_dot(vec_cross(ad, ab), ao) > 0 {
        let (t, dir) = triangle_case(d, b, a);
        return (false, t, dir);
    }
    if vec_dot(vec_cross(ab, ac), ad) < 0 && vec_dot(vec_cross(ac, ad), ab) < 0 && vec_dot(
        vec_cross(ad, ab),
        ac,
    ) < 0 && weights_confirm(d, c, b, a) {
        let out = vec![d, c, b, a];
        proof {
            assert(points_view(out@) =~= s);
        }
        (true, out, Vec3::zero())
    } else {
        let out = vec![c, b, a];
        proof {
            assert(points_view(out@) =~= seq![c@, b@, a@]);
        }
        (false, out, Vec3::zero())
    }
}

fn handle_simplex_exec(s: &Vec<Vec3>) -> (r: (bool, Vec<Vec3>, Vec3))
    requires
        2 <= s@.len() <= 4,
        all_within(points_view(s@), simplex_bound()),
    ensures
        (r.0, points_view(r.1@), r.2@) == handle_simplex(points_view(s@)),
        all_within(points_view(r.1@), simplex_bound()),
        !r.0 ==> 1 <= r.1@.len() <= 3,
        within(r.2@, dir_bound()),
{
    let ghost v = points_view(s@);
    proof {
        assert(within(v[0], simplex_bound()));
        assert(within(v[1], simplex_bound()));
    }
    if s.len() == 2 {
        let d = line_case(s[0], s[1]);
        let out = vec![s[0], s[1]];
        proof {
            assert(points_view(out@) =~= v);
        }
        (false, out, d)
    } else if s.len() == 3 {
        proof {
            assert(within(v[2], simplex_bound()));
            assert(v =~= seq![s[0]@, s[1]@, s[2]@]);
        }
        let (t, d) = triangle_case(s[0], s[1], s[2]);
        (false, t, d)
    } else {
        proof {
            assert(within(v[2], simplex_bound()));
            assert(within(v[3], simplex_bound()));
            assert(v =~= seq![s[0]@, s[1]@, s[2]@, s[3]@]);
        }
        tetrahedron_case(s[0], s[1], s[2], s[3])
    }
}

/// Runs the GJK search on two colliders and reports what it concluded.
pub fn gjk_outcome(s1: &Collider, s2: &Collider) -> (r: GjkOutcome)
    requires
        s1@.wf(),
        s2@.wf(),
    ensures
        r@ == gjk_verdict(s1@, s2@),
        r is Intersecting ==> exists|w: Point, x: Point, y: Point, z: Point|
            encloses_origin(
                #[trigger] md_support(s1@, s2@, w),
                #[trigger] md_support(s1@, s2@, x),
                #[trigger] md_support(s1@, s2@, y),
                #[trigger] md_support(s1@, s2@, z),
            ),
        r matches GjkOutcome::Separated(e) ==> !p_is_zero(e@) && p_dot(md_support(s1@, s2@, e@), e@)
            <= 0,
{
    let r = gjk_outcome_search(s1, s2);
    proof {
        if r is Intersecting {
            lemma_intersecting_encloses_origin(s1@, s2@);
        }
        if let GjkOutcome::Separated(e) = r {
            lemma_separated_certificate(s1@, s2@, e@);
        }
    }
    r
}

fn gjk_outcome_search(s1: &Collider, s2: &Collider) -> (r: GjkOutcome)
    requires
        s1@.wf(),
        s2@.wf(),
    ensures
        r@ == gjk_verdict(s1@, s2@),
{
    let p0 = support(s1, s2, Vec3::new(1, 1, 1));
    let mut simplex: Vec<Vec3> = vec![p0];
    let mut d = vec_neg(p0);
    let mut iter: u64 = 0;
    proof {
        assert(points_view(simplex@) =~= seq![p0@]);
    }
    while iter < MAX_ITERATIONS
        invariant
            s1@.wf(),
            s2@.wf(),
            iter <= MAX_ITERATIONS,
            1 <= simplex@.len() <= 3,
            all_within(points_view(simplex@), simplex_bound()),
            within(d@, dir_bound()),
            run(s1@, s2@, points_view(simplex@), d@, (max_iterations() - iter) as nat)
                == gjk_verdict(s1@, s2@),
        decreases MAX_ITERATIONS - iter,
    {
        let ghost s = points_view(simplex@);
        if d.is_zero() {
            return GjkOutcome::Degenerate;
        }
        let p = support(s1, s2, d);
        proof {
            lemma_within_mono(p@, simplex_bound(), small_bound());
            lemma_within_mono(d@, dir_bound(), small_bound());
        }
        if vec_dot(p, d) <= 0 {
            return GjkOutcome::Separated(d);
        }
        simplex.push(p);
        proof {
            assert(points_view(simplex@) =~= s.push(p@));
        }
        let (enclosed, next, dir) = handle_simplex_exec(&simplex);
        if enclosed {
            return GjkOutcome::Intersecting;
        }
        simplex = next;
        d = dir;
        iter = iter + 1;
    }
    GjkOutcome::Undecided
}

/// Returns true if the two colliders intersect.
pub fn gjk(s1: &Collider, s2: &Collider) -> (r: bool)
    requires
        s1@.wf(),
        s2@.wf(),
    ensures
        r == (gjk_verdict(s1@, s2@) == Verdict::Intersecting),
        r ==> exists|w: Point, x: Point, y: Point, z: Point|
            encloses_origin(
                #[trigger] md_support(s1@, s2@, w),
                #[trigger] md_support(s1@, s2@, x),
                #[trigger] md_support(s1@, s2@, y),
                #[trigger] md_support(s1@, s2@, z),
            ),
{
    match gjk_outcome(s1, s2) {
        GjkOutcome::Intersecting => true,
        _ => false,
    }
}

/// How many unordered pairs the first `i` rows of an `n`-element table hold.
pub open spec fn pair_count(i: int, n: int) -> int
    decreases i,
{
    if i <= 0 {
        0
    } else {
        pair_count(i - 1, n) + (n - i)
    }
}

pub proof fn lemma_pair_count(i: int, n: int)
    requires
        0 <= i,
    ensures
        2 * pair_count(i, n) == i * (2 * n - i - 1),
    decreases i,
{
    if i > 0 {
        lemma_pair_count(i - 1, n);
        assert(2 * pair_count(i, n) == i * (2 * n - i - 1)) by (nonlinear_arith)
            requires
                2 * pair_count(i - 1, n) == (i - 1) * (2 * n - (i - 1) - 1),
                pair_count(i, n) == pair_count(i - 1, n) + (n - i),
        ;
    } else {
        assert(i * (2 * n - i - 1) == 0) by (nonlinear_arith)
            requires
                i == 0,
        ;
    }
}

/// `(i1, j1)` comes before `(i2, j2)` in row-major order.
pub open spec fn pair_before(i1: usize, j1: usize, i2: usize, j2: usize) -> bool {
    i1 < i2 || (i1 == i2 && j1 < j2)
}

/// Tests every unordered pair of distinct colliders once, in row-major order of their
/// indices, and reports `(i, j, intersecting)` for each.
pub fn collision_update(colliders: &Vec<Collider>) -> (r: Vec<(usize, usize, bool)>)
    requires
        forall|i: int| 0 <= i < colliders@.len() ==> (#[trigger] colliders@[i])@.wf(),
    ensures
        2 * r@.len() == colliders@.len() * (colliders@.len() - 1),
        forall|k: int|
            0 <= k < r@.len() ==> {
                let (i, j, hit) = #[trigger] r@[k];
                &&& i < j < colliders@.len()
                &&& hit == (gjk_verdict(colliders@[i as int]@, colliders@[j as int]@)
                    == Verdict::Intersecting)
            },
        forall|k1: int, k2: int|
            0 <= k1 < k2 < r@.len() ==> pair_before(
                (#[trigger] r@[k1]).0,
                r@[k1].1,
                (#[trigger] r@[k2]).0,
                r@[k2].1,
            ),
{
    let n = colliders.len();
    let mut r: Vec<(usize, usize, bool)> = Vec::new();
    let mut i: usize = 0;
    while i < n
        invariant
            n == colliders@.len(),
            forall|x: int| 0 <= x < n ==> (#[trigger] colliders@[x])@.wf(),
            0 <= i <= n,
            r@.len() == pair_count(i as int, n as int),
            forall|k: int|
                0 <= k < r@.len() ==> {
                    let (a, b, hit) = #[trigger] r@[k];
                    &&& a < i
                    &&& a < b < n
                    &&& hit == (gjk_verdict(colliders@[a as int]@, colliders@[b as int]@)
                        == Verdict::Intersecting)
                },
            forall|k1: int, k2: int|
                0 <= k1 < k2 < r@.len() ==> pair_before(
                    (#[trigger] r@[k1]).0,
                    r@[k1].1,
                    (#[trigger] r@[k2]).0,
                    r@[k2].1,
                ),
        decreases n - i,
    {
        let mut j: usize = i + 1;
        let ghost base = r@.len();
        while j < n
            invariant
                n == colliders@.len(),
                forall|x: int| 0 <= x < n ==> (#[trigger] colliders@[x])@.wf(),
                0 <= i < n,
                i + 1 <= j <= n,
                base == pair_count(i as int, n as int),
                r@.len() == base + (j - i - 1),
                forall|k: int|
                    0 <= k < r@.len() ==> {
                        let (a, b, hit) = #[trigger] r@[k];
                        &&& (a < i || (a == i && b < j))
                        &&& a < b < n
                        &&& hit == (gjk_verdict(colliders@[a as int]@, colliders@[b as int]@)
                            == Verdict::Intersecting)
                    },
                forall|k1: int, k2: int|
                    0 <= k1 < k2 < r@.len() ==> pair_before(
                        (#[trigger] r@[k1]).0,
                        r@[k1].1,
                        (#[trigger] r@[k2]).0,
                        r@[k2].1,
                    ),
            decreases n - j,
        {
            let hit = gjk(&colliders[i], &colliders[j]);
            let ghost old_r = r@;
            r.push((i, j, hit));
            proof {
                assert forall|k1: int, k2: int|
                    0 <= k1 < k2 < r@.len() implies pair_before(
                        (#[trigger] r@[k1]).0,
                        r@[k1].1,
                        (#[trigger] r@[k2]).0,
                        r@[k2].1,
                    ) by {
                    if k2 < old_r.len() {
                        assert(r@[k1] == old_r[k1] && r@[k2] == old_r[k2]);
                    } else {
                        assert(r@[k1] == old_r[k1]);
                    }
                }
            }
            j = j + 1;
        }
        i = i + 1;
    }
    proof {
        lemma_pair_count(n as int, n as int);
    }
    r
}

} // verus!
