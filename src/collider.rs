use vstd::prelude::*;

use crate::vector::{
    ceil_sqrt, ceil_sqrt_u128, lemma_ceil_sqrt_exists, lemma_ceil_sqrt_of_square,
    lemma_mul_within, lemma_within_mono, norm2, p_add, p_dot, p_is_zero, p_scale, point,
    small_bound, vec_add, vec_dot, within, Point, Vec3,
};

verus! {

/// Largest absolute coordinate a collider may hold.
pub const COORD_LIMIT: i64 = 4096;

pub open spec fn coord_limit() -> int {
    4096
}

/// Largest radius a sphere may have.
pub const RADIUS_LIMIT: i64 = 1024;

pub open spec fn radius_limit() -> int {
    1024
}

/// How many cells of the fine grid, on which the intersection search works, make one unit
/// of the colliders' grid along each axis.
pub const FINE_SCALE: i64 = 32768;

pub open spec fn fine_scale() -> int {
    32768
}

/// Largest radius of a sphere measured on the fine grid.
pub open spec fn fine_radius_bound() -> int {
    radius_limit() * fine_scale()
}

/// Largest absolute coordinate of a fine support point.
pub open spec fn fine_support_bound() -> int {
    (coord_limit() + radius_limit()) * fine_scale()
}

/// Largest absolute coordinate of a search direction handed to a support function.
pub open spec fn dir_bound() -> int {
    0x4000_0000_0000_0000
}

/// The kind of a collider, with what its support function needs besides its points.
#[derive(Clone, Copy, Debug, PartialEq, Eq, Structural)]
pub enum Shapes {
    /// A ball around the collider's single point.
    Sphere { radius: i64 },
    /// The convex hull of the collider's points.
    Polyhedron,
}

/// The model of a collider: its kind, its points in its own frame and in the world.
pub struct ColliderView {
    pub shape: Shapes,
    pub local: Seq<Point>,
    pub world: Seq<Point>,
}

pub open spec fn points_view(s: Seq<Vec3>) -> Seq<Point> {
    s.map_values(|v: Vec3| v@)
}

pub open spec fn all_within(s: Seq<Point>, k: int) -> bool {
    forall|i: int| 0 <= i < s.len() ==> within(#[trigger] s[i], k)
}

pub open spec fn origin() -> Point {
    point(0, 0, 0)
}

impl ColliderView {
    /// Both point lists have one entry per point and stay in range; a sphere keeps its
    /// centre as its only point, at the origin of its own frame.
    pub open spec fn wf(self) -> bool {
        &&& self.local.len() >= 1
        &&& self.world.len() == self.local.len()
        &&& all_within(self.local, coord_limit())
        &&& all_within(self.world, coord_limit())
        &&& match self.shape {
            Shapes::Sphere { radius } => {
                &&& self.local.len() == 1
                &&& self.local[0] == origin()
                &&& 0 <= radius <= radius_limit()
            },
            Shapes::Polyhedron => true,
        }
    }
}

/// The first index of `s` whose point lies farthest along `d`.
pub open spec fn first_max_index(s: Seq<Point>, d: Point) -> int
    decreases s.len(),
{
    if s.len() <= 1 {
        0
    } else {
        let k = first_max_index(s.drop_last(), d);
        if p_dot(s.last(), d) > p_dot(s[k], d) {
            s.len() - 1
        } else {
            k
        }
    }
}

/// `r * a / n`, rounded toward zero.
pub open spec fn scaled(r: int, a: int, n: int) -> int {
    if a >= 0 {
        (r * a) / n
    } else {
        -((r * -a) / n)
    }
}

/// The largest absolute coordinate of `d`.
pub open spec fn max_abs(d: Point) -> int {
    let x = if d.x >= 0 { d.x } else { -d.x };
    let y = if d.y >= 0 { d.y } else { -d.y };
    let z = if d.z >= 0 { d.z } else { -d.z };
    if x >= y && x >= z {
        x
    } else if y >= z {
        y
    } else {
        z
    }
}

/// The length a short direction is stretched to before its norm is rounded.
pub open spec fn magnified_length() -> int {
    0x100_0000_0000
}

/// The factor that stretches a non-zero `d` so its largest coordinate nears
/// `magnified_length()`; 1 for a direction already that long.
pub open spec fn magnifier(d: Point) -> int {
    if max_abs(d) >= magnified_length() {
        1
    } else {
        magnified_length() / max_abs(d)
    }
}

/// The offset from a sphere's centre to its support point: `r * m / |m|` for `m` the
/// direction `d` magnified, each coordinate rounded toward zero, where `|m|` is rounded up
/// to an integer; along the x axis for a zero direction.
pub open spec fn sphere_offset(r: int, d: Point) -> Point {
    if p_is_zero(d) {
        point(r, 0, 0)
    } else {
        let m = p_scale(d, magnifier(d));
        let n = ceil_sqrt(norm2(m));
        point(scaled(r, m.x, n), scaled(r, m.y, n), scaled(r, m.z, n))
    }
}

/// The magnifier of a non-zero direction is a positive factor.
pub proof fn lemma_magnifier_positive(d: Point)
    requires
        !p_is_zero(d),
    ensures
        magnifier(d) >= 1,
{
    let mx = max_abs(d);
    if mx < magnified_length() {
        assert(magnified_length() / mx >= 1) by (nonlinear_arith)
            requires
                0 < mx < magnified_length(),
        ;
    }
}

/// A non-zero direction, magnified, keeps its coordinates within the direction bound.
pub proof fn lemma_magnified_within(d: Point)
    requires
        within(d, dir_bound()),
        !p_is_zero(d),
    ensures
        within(p_scale(d, magnifier(d)), dir_bound()),
        !p_is_zero(p_scale(d, magnifier(d))),
        magnifier(d) >= 1,
{
    let k = magnifier(d);
    let mx = max_abs(d);
    if mx < magnified_length() {
        assert(mx * k <= magnified_length()) by (nonlinear_arith)
            requires
                0 < mx,
                k == magnified_length() / mx,
        ;
        assert(k >= 1) by (nonlinear_arith)
            requires
                0 < mx < magnified_length(),
                k == magnified_length() / mx,
        ;
        lemma_mul_within(d.x, k, mx, k);
        lemma_mul_within(d.y, k, mx, k);
        lemma_mul_within(d.z, k, mx, k);
        assert(mx * k == k * mx) by (nonlinear_arith);
    }
    let m = p_scale(d, k);
    assert(!p_is_zero(m)) by (nonlinear_arith)
        requires
            m == point(d.x * k, d.y * k, d.z * k),
            k >= 1,
            !p_is_zero(d),
    ;
}

/// The support point of a collider in direction `d`.
pub open spec fn support_point(c: ColliderView, d: Point) -> Point {
    match c.shape {
        Shapes::Sphere { radius } => p_add(c.world[0], sphere_offset(radius as int, d)),
        Shapes::Polyhedron => c.world[first_max_index(c.world, d)],
    }
}

/// The support point of a collider in direction `d`, on the fine grid: the farthest vertex
/// of a polyhedron exactly, and for a sphere its centre plus the rounded offset of the fine
/// radius.
pub open spec fn fine_support(c: ColliderView, d: Point) -> Point {
    match c.shape {
        Shapes::Sphere { radius } => p_add(
            p_scale(c.world[0], fine_scale()),
            sphere_offset(radius * fine_scale(), d),
        ),
        Shapes::Polyhedron => p_scale(c.world[first_max_index(c.world, d)], fine_scale()),
    }
}

pub proof fn lemma_first_max_index(s: Seq<Point>, d: Point)
    requires
        s.len() >= 1,
    ensures
        0 <= first_max_index(s, d) < s.len(),
        forall|j: int|
            0 <= j < s.len() ==> p_dot(#[trigger] s[j], d) <= p_dot(s[first_max_index(s, d)], d),
        forall|j: int|
            0 <= j < first_max_index(s, d) ==> p_dot(#[trigger] s[j], d) < p_dot(
                s[first_max_index(s, d)],
                d,
            ),
    decreases s.len(),
{
    if s.len() > 1 {
        lemma_first_max_index(s.drop_last(), d);
        let k = first_max_index(s.drop_last(), d);
        assert forall|j: int| 0 <= j < s.len() - 1 implies #[trigger] s[j] == s.drop_last()[j] by {}
    }
}

/// `|scaled(r, a, n)| <= r` when `a * a <= n * n`.
pub proof fn lemma_scaled_within(r: int, a: int, n: int)
    requires
        0 <= r,
        0 < n,
        a * a <= n * n,
    ensures
        -r <= scaled(r, a, n) <= r,
{
    let b = if a >= 0 { a } else { -a };
    assert(b * b == a * a) by (nonlinear_arith)
        requires
            b == a || b == -a,
    ;
    assert(b <= n) by (nonlinear_arith)
        requires
            b * b <= n * n,
            0 <= b,
            0 < n,
            b == a || b == -a,
    ;
    assert(0 <= (r * b) / n <= r) by (nonlinear_arith)
        requires
            0 <= b <= n,
            0 < n,
            0 <= r,
    ;
}

pub proof fn lemma_sphere_offset_within(r: int, d: Point)
    requires
        0 <= r,
        within(d, dir_bound()),
    ensures
        within(sphere_offset(r, d), r),
{
    if !p_is_zero(d) {
        lemma_magnified_within(d);
        let m = p_scale(d, magnifier(d));
        let s = norm2(m);
        let n = ceil_sqrt(s);
        assert(s > 0) by (nonlinear_arith)
            requires
                s == m.x * m.x + m.y * m.y + m.z * m.z,
                !(m.x == 0 && m.y == 0 && m.z == 0),
        ;
        lemma_ceil_sqrt_exists(s);
        assert(n > 0) by (nonlinear_arith)
            requires
                s <= n * n,
                s > 0,
                0 <= n,
        ;
        assert(m.x * m.x <= n * n && m.y * m.y <= n * n && m.z * m.z <= n * n) by (nonlinear_arith)
            requires
                s == m.x * m.x + m.y * m.y + m.z * m.z,
                s <= n * n,
        ;
        lemma_scaled_within(r, m.x, n);
        lemma_scaled_within(r, m.y, n);
        lemma_scaled_within(r, m.z, n);
    }
}

/// A support point of a well-formed collider stays within twice the coordinate limit.
pub proof fn lemma_support_within(c: ColliderView, d: Point)
    requires
        c.wf(),
        within(d, dir_bound()),
    ensures
        within(support_point(c, d), 2 * coord_limit()),
{
    match c.shape {
        Shapes::Sphere { radius } => {
            lemma_sphere_offset_within(radius as int, d);
            assert(within(c.world[0], coord_limit()));
        },
        Shapes::Polyhedron => {
            lemma_first_max_index(c.world, d);
            let k = first_max_index(c.world, d);
            assert(within(c.world[k], coord_limit()));
        },
    }
}

pub open spec fn sign(k: int) -> int {
    if k > 0 {
        1
    } else if k < 0 {
        -1
    } else {
        0
    }
}

/// Scaling by `r` a coordinate whose magnitude is the whole length gives `r` or `-r`; a zero
/// coordinate stays zero.
proof fn lemma_scaled_whole(r: int, a: int, n: int)
    requires
        0 < n,
        n == a || n == -a,
    ensures
        scaled(r, a, n) == sign(a) * r,
        scaled(r, 0, n) == 0,
{
    assert((r * n) / n == r) by (nonlinear_arith)
        requires
            0 < n,
    ;
    assert(r * 0 == 0);
    assert(-a == n ==> r * -a == r * n);
}

/// The support offset of a sphere of radius `r` along a coordinate axis is exactly `r`.
proof fn lemma_offset_on_axes(r: int, k: int)
    requires
        0 <= r,
        k != 0,
    ensures
        sphere_offset(r, point(k, 0, 0)) == point(sign(k) * r, 0, 0),
        sphere_offset(r, point(0, k, 0)) == point(0, sign(k) * r, 0),
        sphere_offset(r, point(0, 0, k)) == point(0, 0, sign(k) * r),
{
    let ds = seq![point(k, 0, 0), point(0, k, 0), point(0, 0, k)];
    let f = magnifier(point(k, 0, 0));
    assert(max_abs(point(0, k, 0)) == max_abs(point(k, 0, 0)));
    assert(max_abs(point(0, 0, k)) == max_abs(point(k, 0, 0)));
    lemma_magnifier_positive(point(k, 0, 0));
    let a = k * f;
    let n = if a >= 0 { a } else { -a };
    assert(0 * f == 0);
    assert(a != 0 && (a > 0 <==> k > 0)) by (nonlinear_arith)
        requires
            k != 0,
            f >= 1,
            a == k * f,
    ;
    assert(norm2(point(a, 0, 0)) == n * n) by (nonlinear_arith)
        requires
            n == a || n == -a,
    ;
    assert(norm2(point(0, a, 0)) == n * n) by (nonlinear_arith)
        requires
            n == a || n == -a,
    ;
    assert(norm2(point(0, 0, a)) == n * n) by (nonlinear_arith)
        requires
            n == a || n == -a,
    ;
    lemma_ceil_sqrt_of_square(n);
    lemma_scaled_whole(r, a, n);
    assert(sign(a) == sign(k));
    assert(p_scale(point(k, 0, 0), f) == point(a, 0, 0));
    assert(p_scale(point(0, k, 0), f) == point(0, a, 0));
    assert(p_scale(point(0, 0, k), f) == point(0, 0, a));
}

/// Along a coordinate axis, a sphere's support point lies exactly one radius from its
/// centre, on the side the direction points to.
pub proof fn lemma_sphere_support_on_axes(c: ColliderView, r: i64, k: int)
    requires
        c.wf(),
        c.shape == (Shapes::Sphere { radius: r }),
        k != 0,
    ensures
        support_point(c, point(k, 0, 0)) == p_add(c.world[0], point(sign(k) * r, 0, 0)),
        support_point(c, point(0, k, 0)) == p_add(c.world[0], point(0, sign(k) * r, 0)),
        support_point(c, point(0, 0, k)) == p_add(c.world[0], point(0, 0, sign(k) * r)),
{
    lemma_offset_on_axes(r as int, k);
}

/// `scaled(r, a, n)` has the sign of `a` and at most `r * |a| / n` magnitude.
pub proof fn lemma_scaled_magnitude(r: int, a: int, n: int)
    requires
        0 <= r,
        0 < n,
    ensures
        a >= 0 ==> 0 <= scaled(r, a, n) && n * scaled(r, a, n) <= r * a,
        a < 0 ==> scaled(r, a, n) <= 0 && n * -scaled(r, a, n) <= r * -a,
        scaled(r, -a, n) == -scaled(r, a, n),
{
    let b = if a >= 0 { a } else { -a };
    assert(0 <= (r * b) / n && n * ((r * b) / n) <= r * b) by (nonlinear_arith)
        requires
            0 <= r,
            0 < n,
            0 <= b,
    ;
    if a == 0 {
        assert(r * 0 == 0);
        assert(r * -0 == 0);
    }
}

/// The sum of two sphere offsets along the same direction, one per radius, is no longer
/// than the sum of the radii.
pub proof fn lemma_offset_sum_norm(ra: int, rb: int, g: Point, n: int)
    requires
        0 <= ra,
        0 <= rb,
        0 < n,
        norm2(g) <= n * n,
    ensures
        norm2(point(
            scaled(ra, g.x, n) + scaled(rb, g.x, n),
            scaled(ra, g.y, n) + scaled(rb, g.y, n),
            scaled(ra, g.z, n) + scaled(rb, g.z, n),
        )) <= (ra + rb) * (ra + rb),
{
    let rr = ra + rb;
    let ux = scaled(ra, g.x, n) + scaled(rb, g.x, n);
    let uy = scaled(ra, g.y, n) + scaled(rb, g.y, n);
    let uz = scaled(ra, g.z, n) + scaled(rb, g.z, n);
    lemma_offset_component(ra, rb, g.x, n);
    lemma_offset_component(ra, rb, g.y, n);
    lemma_offset_component(ra, rb, g.z, n);
    let (gx, gy, gz) = (g.x, g.y, g.z);
    assert(n * n * (ux * ux + uy * uy + uz * uz) <= rr * rr * (gx * gx + gy * gy + gz * gz))
        by (nonlinear_arith)
        requires
            n * n * (ux * ux) <= rr * rr * (gx * gx),
            n * n * (uy * uy) <= rr * rr * (gy * gy),
            n * n * (uz * uz) <= rr * rr * (gz * gz),
    ;
    assert(rr * rr * (gx * gx + gy * gy + gz * gz) <= rr * rr * (n * n)) by (nonlinear_arith)
        requires
            gx * gx + gy * gy + gz * gz <= n * n,
    ;
    assert(ux * ux + uy * uy + uz * uz <= rr * rr) by (nonlinear_arith)
        requires
            n * n * (ux * ux + uy * uy + uz * uz) <= rr * rr * (n * n),
            0 < n,
    ;
}

proof fn lemma_offset_component(ra: int, rb: int, a: int, n: int)
    requires
        0 <= ra,
        0 <= rb,
        0 < n,
    ensures
        ({
            let u = scaled(ra, a, n) + scaled(rb, a, n);
            n * n * (u * u) <= (ra + rb) * (ra + rb) * (a * a)
        }),
{
    lemma_scaled_magnitude(ra, a, n);
    lemma_scaled_magnitude(rb, a, n);
    let sa = scaled(ra, a, n);
    let sb = scaled(rb, a, n);
    let u = sa + sb;
    let b = if a >= 0 { a } else { -a };
    let v = if a >= 0 { u } else { -u };
    assert(0 <= n * v <= (ra + rb) * b) by (nonlinear_arith)
        requires
            0 < n,
            a >= 0 ==> 0 <= sa && n * sa <= ra * a && 0 <= sb && n * sb <= rb * a && v == sa + sb
                && b == a,
            a < 0 ==> sa <= 0 && n * -sa <= ra * -a && sb <= 0 && n * -sb <= rb * -a && v == -(sa
                + sb) && b == -a,
    ;
    assert(n * n * (u * u) <= (ra + rb) * (ra + rb) * (a * a)) by (nonlinear_arith)
        requires
            0 <= n * v <= (ra + rb) * b,
            v == u || v == -u,
            b == a || b == -a,
    ;
}

/// The corners of the cube of half-extent `h` centred on `t`, in the order of the signs of
/// their coordinates from `(+, +, +)` to `(-, -, -)`.
pub open spec fn cube_corners(h: int, t: Point) -> Seq<Point> {
    seq![
        p_add(point(h, h, h), t),
        p_add(point(h, h, -h), t),
        p_add(point(h, -h, h), t),
        p_add(point(h, -h, -h), t),
        p_add(point(-h, h, h), t),
        p_add(point(-h, h, -h), t),
        p_add(point(-h, -h, h), t),
        p_add(point(-h, -h, -h), t),
    ]
}

/// A vertex that lies strictly farther along `d` than every other is the support point.
proof fn lemma_unique_max_is_support(s: Seq<Point>, d: Point, m: int)
    requires
        0 <= m < s.len(),
        forall|j: int| 0 <= j < s.len() && j != m ==> p_dot(#[trigger] s[j], d) < p_dot(s[m], d),
    ensures
        first_max_index(s, d) == m,
{
    lemma_first_max_index(s, d);
    let k = first_max_index(s, d);
    if k != m {
        assert(p_dot(s[m], d) <= p_dot(s[k], d));
        assert(p_dot(s[k], d) < p_dot(s[m], d));
    }
}

proof fn lemma_corner_dot(a: int, b: int, c: int, t: Point, d: Point)
    ensures
        p_dot(p_add(point(a, b, c), t), d) == a * d.x + b * d.y + c * d.z + p_dot(t, d),
{
    let (tx, ty, tz, dx, dy, dz) = (t.x, t.y, t.z, d.x, d.y, d.z);
    assert((a + tx) * dx == a * dx + tx * dx) by (nonlinear_arith);
    assert((b + ty) * dy == b * dy + ty * dy) by (nonlinear_arith);
    assert((c + tz) * dz == c * dz + tz * dz) by (nonlinear_arith);
}

/// The support point of a translated cube along `(k, k, k)` is its `(+, +, +)` corner, and
/// along `(-k, k, -k)` its `(-, +, -)` corner.
pub proof fn lemma_cube_support(c: ColliderView, h: int, t: Point, k: int)
    requires
        c.shape == Shapes::Polyhedron,
        c.world == cube_corners(h, t),
        h > 0,
        k > 0,
    ensures
        support_point(c, point(k, k, k)) == p_add(point(h, h, h), t),
        support_point(c, point(-k, k, -k)) == p_add(point(-h, h, -h), t),
{
    let s = cube_corners(h, t);
    let hk = h * k;
    assert(hk > 0 && (-h) * k == -hk && h * (-k) == -hk && (-h) * (-k) == hk) by (nonlinear_arith)
        requires
            h > 0,
            k > 0,
            hk == h * k,
    ;
    let d1 = point(k, k, k);
    let d2 = point(-k, k, -k);
    let signs = seq![
        point(h, h, h),
        point(h, h, -h),
        point(h, -h, h),
        point(h, -h, -h),
        point(-h, h, h),
        point(-h, h, -h),
        point(-h, -h, h),
        point(-h, -h, -h),
    ];
    assert forall|j: int| 0 <= j < 8 implies #[trigger] s[j] == p_add(signs[j], t) by {}
    assert forall|j: int| 0 <= j < 8 implies p_dot(#[trigger] s[j], d1) == signs[j].x * k
        + signs[j].y * k + signs[j].z * k + p_dot(t, d1) && p_dot(s[j], d2) == signs[j].x * (-k)
        + signs[j].y * k + signs[j].z * (-k) + p_dot(t, d2) by {
        lemma_corner_dot(signs[j].x, signs[j].y, signs[j].z, t, d1);
        lemma_corner_dot(signs[j].x, signs[j].y, signs[j].z, t, d2);
    }
    assert forall|j: int| 0 <= j < s.len() && j != 0 implies p_dot(#[trigger] s[j], d1) < p_dot(
        s[0],
        d1,
    ) by {}
    lemma_unique_max_is_support(s, d1, 0);
    assert forall|j: int| 0 <= j < s.len() && j != 5 implies p_dot(#[trigger] s[j], d2) < p_dot(
        s[5],
        d2,
    ) by {}
    lemma_unique_max_is_support(s, d2, 5);
}

/// A fine support point of a well-formed collider stays within the fine support bound.
pub proof fn lemma_fine_support_within(c: ColliderView, d: Point)
    requires
        c.wf(),
        within(d, dir_bound()),
    ensures
        within(fine_support(c, d), fine_support_bound()),
{
    let f = fine_scale();
    match c.shape {
        Shapes::Sphere { radius } => {
            lemma_sphere_offset_within(radius * f, d);
            assert(within(c.world[0], coord_limit()));
            let w = c.world[0];
            lemma_mul_within(w.x, f, coord_limit(), f);
            lemma_mul_within(w.y, f, coord_limit(), f);
            lemma_mul_within(w.z, f, coord_limit(), f);
            assert(radius * f <= radius_limit() * f) by (nonlinear_arith)
                requires
                    radius <= radius_limit(),
                    f > 0,
            ;
        },
        Shapes::Polyhedron => {
            lemma_first_max_index(c.world, d);
            let k = first_max_index(c.world, d);
            assert(within(c.world[k], coord_limit()));
            let w = c.world[k];
            lemma_mul_within(w.x, f, coord_limit(), f);
            lemma_mul_within(w.y, f, coord_limit(), f);
            lemma_mul_within(w.z, f, coord_limit(), f);
        },
    }
}

/// The collision shape of one object, with its points in its own frame and in the world.
pub struct Collider {
    shape: Shapes,
    local_points: Vec<Vec3>,
    transformed_points: Vec<Vec3>,
}

impl Collider {
    pub closed spec fn view(&self) -> ColliderView {
        ColliderView {
            shape: self.shape,
            local: points_view(self.local_points@),
            world: points_view(self.transformed_points@),
        }
    }

    /// A sphere of the given radius, centred on its object's position.
    pub fn sphere_from_radius(radius: i64) -> (r: Self)
        requires
            0 <= radius <= radius_limit(),
        ensures
            r@.wf(),
            r@.shape == (Shapes::Sphere { radius }),
            r@.local == seq![origin()],
            r@.world == seq![origin()],
    {
        let r = Collider {
            shape: Shapes::Sphere { radius },
            local_points: vec![Vec3::zero()],
            transformed_points: vec![Vec3::zero()],
        };
        assert(points_view(r.local_points@) =~= seq![origin()]);
        assert(points_view(r.transformed_points@) =~= seq![origin()]);
        r
    }

    /// A convex polyhedron spanned by the given vertices, in its object's frame.
    pub fn poly_from_points(points: Vec<Vec3>) -> (r: Self)
        requires
            points@.len() >= 1,
            all_within(points_view(points@), coord_limit()),
        ensures
            r@.wf(),
            r@.shape == Shapes::Polyhedron,
            r@.local == points_view(points@),
            r@.world == points_view(points@),
    {
        let world = copy_points(&points);
        Collider { shape: Shapes::Polyhedron, local_points: points, transformed_points: world }
    }

    pub fn shape(&self) -> (r: Shapes)
        ensures
            r == self@.shape,
    {
        self.shape
    }

    /// The collider's points in the world, as the last transform left them.
    pub fn world_points(&self) -> (r: Vec<Vec3>)
        ensures
            points_view(r@) == self@.world,
    {
        copy_points(&self.transformed_points)
    }

    /// The point of the collider that lies farthest along `d`: a vertex of a polyhedron; for
    /// a sphere, the point one radius from the centre along `d`, each coordinate rounded
    /// toward the centre, so that off the axes it lies just inside the ball.
    pub fn support(&self, d: Vec3) -> (r: Vec3)
        requires
            self@.wf(),
            within(d@, dir_bound()),
        ensures
            r@ == support_point(self@, d@),
            within(r@, 2 * coord_limit()),
    {
        proof {
            lemma_support_within(self@, d@);
        }
        match self.shape {
            Shapes::Sphere { radius } => {
                let c = self.transformed_points[0];
                assert(c@ == self@.world[0]);
                let off = sphere_offset_exec(radius, d);
                vec_add(c, off)
            },
            Shapes::Polyhedron => {
                let k = first_max_index_exec(&self.transformed_points, d);
                assert(self.transformed_points[k as int]@ == self@.world[k as int]);
                self.transformed_points[k]
            },
        }
    }

    /// The support point in direction `d` on the fine grid, where the intersection search
    /// works.
    pub fn fine_support(&self, d: Vec3) -> (r: Vec3)
        requires
            self@.wf(),
            within(d@, dir_bound()),
        ensures
            r@ == fine_support(self@, d@),
            within(r@, fine_support_bound()),
    {
        proof {
            lemma_fine_support_within(self@, d@);
        }
        let f = FINE_SCALE;
        match self.shape {
            Shapes::Sphere { radius } => {
                let c = self.transformed_points[0];
                assert(c@ == self@.world[0]);
                assert(within(c@, coord_limit()));
                proof {
                    lemma_mul_within(c.x as int, f as int, coord_limit(), fine_scale());
                    lemma_mul_within(c.y as int, f as int, coord_limit(), fine_scale());
                    lemma_mul_within(c.z as int, f as int, coord_limit(), fine_scale());
                    lemma_mul_within(radius as int, f as int, radius_limit(), fine_scale());
                }
                let cf = Vec3::new(c.x * f, c.y * f, c.z * f);
                let off = sphere_offset_exec(radius * f, d);
                vec_add(cf, off)
            },
            Shapes::Polyhedron => {
                let k = first_max_index_exec(&self.transformed_points, d);
                let v = self.transformed_points[k];
                assert(v@ == self@.world[k as int]);
                assert(within(v@, coord_limit()));
                proof {
                    lemma_mul_within(v.x as int, f as int, coord_limit(), fine_scale());
                    lemma_mul_within(v.y as int, f as int, coord_limit(), fine_scale());
                    lemma_mul_within(v.z as int, f as int, coord_limit(), fine_scale());
                }
                Vec3::new(v.x * f, v.y * f, v.z * f)
            },
        }
    }

    /// Moves the world points to the local points shifted by `translation`. Where a shifted
    /// point would leave the coordinate range, nothing changes and the result is false.
    pub fn apply_transform(&mut self, translation: Vec3) -> (ok: bool)
        requires
            old(self)@.wf(),
        ensures
            final(self)@.wf(),
            ok == fits_translation(old(self)@, translation@),
            final(self)@ == transformed(old(self)@, translation@),
    {
        let ghost c = self@;
        if translation.x < -2 * COORD_LIMIT || translation.x > 2 * COORD_LIMIT
            || translation.y < -2 * COORD_LIMIT || translation.y > 2 * COORD_LIMIT
            || translation.z < -2 * COORD_LIMIT || translation.z > 2 * COORD_LIMIT {
            proof {
                assert(within(c.local[0], coord_limit()));
                assert(!within(p_add(c.local[0], translation@), coord_limit()));
            }
            return false;
        }
        let n = self.local_points.len();
        let mut moved: Vec<Vec3> = Vec::new();
        let mut i: usize = 0;
        while i < n
            invariant
                n == self.local_points@.len(),
                self@ == c,
                c.wf(),
                within(translation@, 2 * coord_limit()),
                0 <= i <= n,
                moved@.len() == i,
                forall|j: int|
                    0 <= j < i ==> within(
                        p_add(#[trigger] c.local[j], translation@),
                        coord_limit(),
                    ),
                forall|j: int|
                    0 <= j < i ==> (#[trigger] moved@[j])@ == p_add(c.local[j], translation@),
            decreases n - i,
        {
            let p = self.local_points[i];
            assert(p@ == c.local[i as int]);
            assert(within(p@, coord_limit()));
            let q = vec_add(p, translation);
            if q.x < -COORD_LIMIT || q.x > COORD_LIMIT || q.y < -COORD_LIMIT || q.y > COORD_LIMIT
                || q.z < -COORD_LIMIT || q.z > COORD_LIMIT {
                return false;
            }
            moved.push(q);
            i = i + 1;
        }
        proof {
            assert(points_view(moved@) =~= translate(c.local, translation@));
        }
        self.transformed_points = moved;
        true
    }
}

/// Every local point of `c` shifted by `t` stays in the coordinate range.
pub open spec fn fits_translation(c: ColliderView, t: Point) -> bool {
    forall|i: int| 0 <= i < c.local.len() ==> within(p_add(#[trigger] c.local[i], t), coord_limit())
}

/// `c` with its world points moved to its local points shifted by `t`, where they fit.
pub open spec fn transformed(c: ColliderView, t: Point) -> ColliderView {
    if fits_translation(c, t) {
        ColliderView { shape: c.shape, local: c.local, world: translate(c.local, t) }
    } else {
        c
    }
}

/// Applies `translations[i]` to `colliders[i]` for every `i`; a collider whose points would
/// leave the coordinate range keeps its world points. True when every one fitted.
pub fn apply_transform_collider(
    colliders: &mut Vec<Collider>,
    translations: &Vec<Vec3>,
) -> (all_ok: bool)
    requires
        old(colliders)@.len() == translations@.len(),
        forall|i: int| 0 <= i < old(colliders)@.len() ==> (#[trigger] old(colliders)@[i])@.wf(),
    ensures
        final(colliders)@.len() == old(colliders)@.len(),
        forall|i: int|
            0 <= i < final(colliders)@.len() ==> (#[trigger] final(colliders)@[i])@ == transformed(
                old(colliders)@[i]@,
                translations@[i]@,
            ),
        forall|i: int| 0 <= i < final(colliders)@.len() ==> (#[trigger] final(colliders)@[i])@.wf(),
        all_ok == (forall|i: int|
            0 <= i < old(colliders)@.len() ==> fits_translation(
                (#[trigger] old(colliders)@[i])@,
                translations@[i]@,
            )),
{
    let ghost before = colliders@;
    let mut rest: Vec<Collider> = Vec::new();
    std::mem::swap(colliders, &mut rest);
    let n = rest.len();
    let mut all_ok = true;
    let mut i: usize = 0;
    while i < n
        invariant
            n == before.len(),
            n == translations@.len(),
            forall|j: int| 0 <= j < n ==> (#[trigger] before[j])@.wf(),
            0 <= i <= n,
            rest@ == before.subrange(i as int, n as int),
            colliders@.len() == i,
            forall|j: int|
                0 <= j < i ==> (#[trigger] colliders@[j])@ == transformed(
                    before[j]@,
                    translations@[j]@,
                ),
            forall|j: int| 0 <= j < i ==> (#[trigger] colliders@[j])@.wf(),
            all_ok == (forall|j: int|
                0 <= j < i ==> fits_translation((#[trigger] before[j])@, translations@[j]@)),
        decreases n - i,
    {
        let mut c = rest.remove(0);
        assert(c == before[i as int]);
        let ok = c.apply_transform(translations[i]);
        all_ok = all_ok && ok;
        colliders.push(c);
        proof {
            assert(rest@ =~= before.subrange(i as int + 1, n as int));
        }
        i = i + 1;
    }
    all_ok
}

/// Each point of `s` shifted by `t`.
pub open spec fn translate(s: Seq<Point>, t: Point) -> Seq<Point> {
    s.map_values(|p: Point| p_add(p, t))
}

fn copy_points(points: &Vec<Vec3>) -> (r: Vec<Vec3>)
    ensures
        r@ == points@,
{
    let mut r: Vec<Vec3> = Vec::new();
    let mut i: usize = 0;
    while i < points.len()
        invariant
            0 <= i <= points@.len(),
            r@ == points@.subrange(0, i as int),
        decreases points@.len() - i,
    {
        r.push(points[i]);
        i = i + 1;
        assert(r@ =~= points@.subrange(0, i as int));
    }
    assert(r@ =~= points@);
    r
}

/// `r * a / n`, rounded toward zero, for `|a| <= n`.
fn scaled_exec(r: i64, a: i64, n: u128) -> (out: i64)
    requires
        0 <= r <= fine_radius_bound(),
        0 < n,
        (a as int) * (a as int) <= (n as int) * (n as int),
        -dir_bound() <= a <= dir_bound(),
    ensures
        out == scaled(r as int, a as int, n as int),
{
    proof {
        lemma_scaled_within(r as int, a as int, n as int);
        lemma_mul_within(r as int, a as int, fine_radius_bound(), dir_bound());
    }
    if a >= 0 {
        let q = (r as u128) * (a as u128) / n;
        q as i64
    } else {
        let b: i64 = -a;
        proof {
            lemma_mul_within(r as int, b as int, fine_radius_bound(), dir_bound());
        }
        let q = (r as u128) * (b as u128) / n;
        -(q as i64)
    }
}

fn abs_i64(a: i64) -> (r: i64)
    requires
        -dir_bound() <= a <= dir_bound(),
    ensures
        r == (if a >= 0 { a as int } else { -(a as int) }),
{
    if a >= 0 {
        a
    } else {
        -a
    }
}

fn sphere_offset_exec(r: i64, d: Vec3) -> (out: Vec3)
    requires
        0 <= r <= fine_radius_bound(),
        within(d@, dir_bound()),
    ensures
        out@ == sphere_offset(r as int, d@),
{
    if d.is_zero() {
        return Vec3::new(r, 0, 0);
    }
    let ax = abs_i64(d.x);
    let ay = abs_i64(d.y);
    let az = abs_i64(d.z);
    let mx = if ax >= ay && ax >= az {
        ax
    } else if ay >= az {
        ay
    } else {
        az
    };
    assert(mx == max_abs(d@));
    let k: i64 = if mx >= 0x100_0000_0000 {
        1
    } else {
        0x100_0000_0000 / mx
    };
    proof {
        lemma_magnified_within(d@);
        lemma_mul_within(d.x as int, k as int, dir_bound(), dir_bound());
        lemma_mul_within(d.y as int, k as int, dir_bound(), dir_bound());
        lemma_mul_within(d.z as int, k as int, dir_bound(), dir_bound());
    }
    let m = Vec3::new(d.x * k, d.y * k, d.z * k);
    assert(m@ == p_scale(d@, magnifier(d@)));
    let ghost g = dir_bound();
    proof {
        lemma_mul_within(m.x as int, m.x as int, g, g);
        lemma_mul_within(m.y as int, m.y as int, g, g);
        lemma_mul_within(m.z as int, m.z as int, g, g);
    }
    let xx = (m.x as i128) * (m.x as i128);
    let yy = (m.y as i128) * (m.y as i128);
    let zz = (m.z as i128) * (m.z as i128);
    assert(xx >= 0 && yy >= 0 && zz >= 0) by (nonlinear_arith)
        requires
            xx == (m.x as int) * (m.x as int),
            yy == (m.y as int) * (m.y as int),
            zz == (m.z as int) * (m.z as int),
    ;
    let s = (xx + yy + zz) as u128;
    let n = ceil_sqrt_u128(s);
    proof {
        lemma_ceil_sqrt_exists(s as int);
        assert(s > 0) by (nonlinear_arith)
            requires
                s == xx + yy + zz,
                xx == (m.x as int) * (m.x as int),
                yy == (m.y as int) * (m.y as int),
                zz == (m.z as int) * (m.z as int),
                !(m.x == 0 && m.y == 0 && m.z == 0),
        ;
        assert(n > 0) by (nonlinear_arith)
            requires
                s <= n * n,
                s > 0,
        ;
        assert((m.x as int) * (m.x as int) <= n * n && (m.y as int) * (m.y as int) <= n * n
            && (m.z as int) * (m.z as int) <= n * n) by (nonlinear_arith)
            requires
                s == xx + yy + zz,
                xx >= 0,
                yy >= 0,
                zz >= 0,
                xx == (m.x as int) * (m.x as int),
                yy == (m.y as int) * (m.y as int),
                zz == (m.z as int) * (m.z as int),
                s <= n * n,
        ;
    }
    let x = scaled_exec(r, m.x, n);
    let y = scaled_exec(r, m.y, n);
    let z = scaled_exec(r, m.z, n);
    Vec3::new(x, y, z)
}

fn first_max_index_exec(points: &Vec<Vec3>, d: Vec3) -> (k: usize)
    requires
        points@.len() >= 1,
        all_within(points_view(points@), coord_limit()),
        within(d@, dir_bound()),
    ensures
        k as int == first_max_index(points_view(points@), d@),
        k < points@.len(),
{
    let ghost s = points_view(points@);
    proof {
        lemma_within_mono(d@, dir_bound(), small_bound());
        assert(within(s[0], coord_limit()));
    }
    let mut best: usize = 0;
    let mut best_dot = vec_dot(points[0], d);
    let mut i: usize = 1;
    while i < points.len()
        invariant
            1 <= i <= points@.len(),
            s == points_view(points@),
            all_within(s, coord_limit()),
            within(d@, small_bound()),
            best < i,
            best as int == first_max_index(s.subrange(0, i as int), d@),
            best_dot == p_dot(s[best as int], d@),
        decreases points@.len() - i,
    {
        assert(within(s[i as int], coord_limit()));
        let v = vec_dot(points[i], d);
        proof {
            let t = s.subrange(0, i as int + 1);
            assert(t.drop_last() =~= s.subrange(0, i as int));
            assert(t.last() == s[i as int]);
            assert(t[best as int] == s[best as int]);
        }
        if v > best_dot {
            best = i;
            best_dot = v;
        }
        i = i + 1;
    }
    assert(s.subrange(0, i as int) =~= s);
    best
}

} // verus!
