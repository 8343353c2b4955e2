use vstd::prelude::*;

verus! {

/// A point or vector of three unbounded integer coordinates: the model of `Vec3`.
pub struct Point {
    pub x: int,
    pub y: int,
    pub z: int,
}

pub open spec fn point(x: int, y: int, z: int) -> Point {
    Point { x, y, z }
}

pub open spec fn p_add(a: Point, b: Point) -> Point {
    point(a.x + b.x, a.y + b.y, a.z + b.z)
}

pub open spec fn p_sub(a: Point, b: Point) -> Point {
    point(a.x - b.x, a.y - b.y, a.z - b.z)
}

pub open spec fn p_neg(a: Point) -> Point {
    point(-a.x, -a.y, -a.z)
}

pub open spec fn p_scale(a: Point, k: int) -> Point {
    point(a.x * k, a.y * k, a.z * k)
}

pub open spec fn p_dot(a: Point, b: Point) -> int {
    a.x * b.x + a.y * b.y + a.z * b.z
}

pub open spec fn p_cross(a: Point, b: Point) -> Point {
    point(a.y * b.z - a.z * b.y, a.z * b.x - a.x * b.z, a.x * b.y - a.y * b.x)
}

pub open spec fn p_is_zero(a: Point) -> bool {
    a.x == 0 && a.y == 0 && a.z == 0
}

/// The squared length of `a`.
pub open spec fn norm2(a: Point) -> int {
    p_dot(a, a)
}

/// Every coordinate of `a` lies in `-k ..= k`.
pub open spec fn within(a: Point, k: int) -> bool {
    -k <= a.x <= k && -k <= a.y <= k && -k <= a.z <= k
}

/// Coordinates up to this bound are safe for every product the vector code forms.
pub open spec fn small_bound() -> int {
    0x4000_0000_0000_0000
}

/// A vector of three integer coordinates on the caller's grid.
#[derive(Clone, Copy, Debug, PartialEq, Eq, Structural)]
pub struct Vec3 {
    pub x: i64,
    pub y: i64,
    pub z: i64,
}

impl Vec3 {
    pub open spec fn view(&self) -> Point {
        point(self.x as int, self.y as int, self.z as int)
    }

    pub fn new(x: i64, y: i64, z: i64) -> (r: Vec3)
        ensures
            r@ == point(x as int, y as int, z as int),
    {
        Vec3 { x, y, z }
    }

    pub fn zero() -> (r: Vec3)
        ensures
            p_is_zero(r@),
    {
        Vec3 { x: 0, y: 0, z: 0 }
    }

    pub fn is_zero(&self) -> (r: bool)
        ensures
            r == p_is_zero(self@),
    {
        self.x == 0 && self.y == 0 && self.z == 0
    }
}

pub open spec fn fits_i64(a: Point) -> bool {
    within(a, i64::MAX as int)
}

pub fn vec_add(a: Vec3, b: Vec3) -> (r: Vec3)
    requires
        fits_i64(p_add(a@, b@)),
    ensures
        r@ == p_add(a@, b@),
{
    Vec3 { x: a.x + b.x, y: a.y + b.y, z: a.z + b.z }
}

pub fn vec_sub(a: Vec3, b: Vec3) -> (r: Vec3)
    requires
        fits_i64(p_sub(a@, b@)),
    ensures
        r@ == p_sub(a@, b@),
{
    Vec3 { x: a.x - b.x, y: a.y - b.y, z: a.z - b.z }
}

pub fn vec_neg(a: Vec3) -> (r: Vec3)
    requires
        fits_i64(a@),
    ensures
        r@ == p_neg(a@),
{
    Vec3 { x: -a.x, y: -a.y, z: -a.z }
}

/// `|a * b| <= ka * kb` when `|a| <= ka` and `|b| <= kb`.
pub proof fn lemma_mul_within(a: int, b: int, ka: int, kb: int)
    requires
        -ka <= a <= ka,
        -kb <= b <= kb,
    ensures
        -(ka * kb) <= a * b <= ka * kb,
        0 <= ka * kb,
{
    assert(-(ka * kb) <= a * b <= ka * kb && 0 <= ka * kb) by (nonlinear_arith)
        requires
            -ka <= a <= ka,
            -kb <= b <= kb,
    ;
}

/// Each coordinate of a cross product is bounded by twice the product of the bounds.
pub proof fn lemma_cross_within(a: Point, b: Point, ka: int, kb: int)
    requires
        within(a, ka),
        within(b, kb),
    ensures
        within(p_cross(a, b), 2 * (ka * kb)),
{
    lemma_mul_within(a.y, b.z, ka, kb);
    lemma_mul_within(a.z, b.y, ka, kb);
    lemma_mul_within(a.z, b.x, ka, kb);
    lemma_mul_within(a.x, b.z, ka, kb);
    lemma_mul_within(a.x, b.y, ka, kb);
    lemma_mul_within(a.y, b.x, ka, kb);
}

/// A dot product is bounded by three times the product of the bounds.
pub proof fn lemma_dot_within(a: Point, b: Point, ka: int, kb: int)
    requires
        within(a, ka),
        within(b, kb),
    ensures
        -(3 * (ka * kb)) <= p_dot(a, b) <= 3 * (ka * kb),
{
    lemma_mul_within(a.x, b.x, ka, kb);
    lemma_mul_within(a.y, b.y, ka, kb);
    lemma_mul_within(a.z, b.z, ka, kb);
}

pub proof fn lemma_within_mono(a: Point, k1: int, k2: int)
    requires
        within(a, k1),
        k1 <= k2,
    ensures
        within(a, k2),
{
}

pub fn vec_cross(a: Vec3, b: Vec3) -> (r: Vec3)
    requires
        within(a@, small_bound()),
        within(b@, small_bound()),
        fits_i64(p_cross(a@, b@)),
    ensures
        r@ == p_cross(a@, b@),
{
    let ghost k = small_bound();
    proof {
        lemma_mul_within(a.y as int, b.z as int, k, k);
        lemma_mul_within(a.z as int, b.y as int, k, k);
        lemma_mul_within(a.z as int, b.x as int, k, k);
        lemma_mul_within(a.x as int, b.z as int, k, k);
        lemma_mul_within(a.x as int, b.y as int, k, k);
        lemma_mul_within(a.y as int, b.x as int, k, k);
    }
    let x = (a.y as i128) * (b.z as i128) - (a.z as i128) * (b.y as i128);
    let y = (a.z as i128) * (b.x as i128) - (a.x as i128) * (b.z as i128);
    let z = (a.x as i128) * (b.y as i128) - (a.y as i128) * (b.x as i128);
    Vec3 { x: x as i64, y: y as i64, z: z as i64 }
}

pub fn vec_dot(a: Vec3, b: Vec3) -> (r: i128)
    requires
        within(a@, small_bound()),
        within(b@, small_bound()),
    ensures
        r == p_dot(a@, b@),
{
    let ghost k = small_bound();
    proof {
        lemma_mul_within(a.x as int, b.x as int, k, k);
        lemma_mul_within(a.y as int, b.y as int, k, k);
        lemma_mul_within(a.z as int, b.z as int, k, k);
    }
    (a.x as i128) * (b.x as i128) + (a.y as i128) * (b.y as i128) + (a.z as i128) * (b.z as i128)
}

/// `n` is the least natural number whose square is at least `s`.
pub open spec fn is_ceil_sqrt(n: int, s: int) -> bool {
    0 <= n && s <= n * n && (n == 0 || (n - 1) * (n - 1) < s)
}

/// The least natural number whose square is at least `s`.
pub open spec fn ceil_sqrt(s: int) -> int {
    choose|n: int| is_ceil_sqrt(n, s)
}

pub proof fn lemma_ceil_sqrt_unique(n1: int, n2: int, s: int)
    requires
        is_ceil_sqrt(n1, s),
        is_ceil_sqrt(n2, s),
    ensures
        n1 == n2,
{
    if n1 < n2 {
        assert((n2 - 1) * (n2 - 1) >= n1 * n1) by (nonlinear_arith)
            requires
                0 <= n1 < n2,
        ;
    } else if n2 < n1 {
        assert((n1 - 1) * (n1 - 1) >= n2 * n2) by (nonlinear_arith)
            requires
                0 <= n2 < n1,
        ;
    }
}

/// Every non-negative integer has a ceiling square root.
pub proof fn lemma_ceil_sqrt_exists(s: int)
    requires
        0 <= s,
    ensures
        is_ceil_sqrt(ceil_sqrt(s), s),
{
    lemma_ceil_sqrt_search(0, s);
}

proof fn lemma_ceil_sqrt_search(n: int, s: int)
    requires
        0 <= n,
        0 <= s,
        n == 0 || (n - 1) * (n - 1) < s,
    ensures
        is_ceil_sqrt(ceil_sqrt(s), s),
    decreases s - n,
{
    if n * n >= s {
        assert(is_ceil_sqrt(n, s));
    } else {
        assert(n < s) by (nonlinear_arith)
            requires
                n * n < s,
                0 <= n,
        ;
        lemma_ceil_sqrt_search(n + 1, s);
    }
}

/// The ceiling square root of `n * n` is `n`.
pub proof fn lemma_ceil_sqrt_of_square(n: int)
    requires
        0 <= n,
    ensures
        ceil_sqrt(n * n) == n,
{
    assert(n == 0 || (n - 1) * (n - 1) < n * n) by (nonlinear_arith)
        requires
            0 <= n,
    ;
    assert(is_ceil_sqrt(n, n * n));
    let c = ceil_sqrt(n * n);
    lemma_ceil_sqrt_unique(c, n, n * n);
}

/// Computes the least `n` with `n * n >= s` by bisection.
pub fn ceil_sqrt_u128(s: u128) -> (r: u128)
    requires
        s <= 0x4000_0000_0000_0000_0000_0000_0000_0000,
    ensures
        r as int == ceil_sqrt(s as int),
        r <= 0x8000_0000_0000_0000,
{
    if s == 0 {
        proof {
            assert(is_ceil_sqrt(0, 0));
            lemma_ceil_sqrt_unique(ceil_sqrt(0), 0, 0);
        }
        return 0;
    }
    let mut lo: u128 = 0;
    let mut hi: u128 = 0x8000_0000_0000_0000;
    assert(hi * hi == 0x4000_0000_0000_0000_0000_0000_0000_0000);
    while hi - lo > 1
        invariant
            lo < hi <= 0x8000_0000_0000_0000,
            lo * lo < s,
            s <= hi * hi,
        decreases hi - lo,
    {
        let mid = lo + (hi - lo) / 2;
        assert(mid * mid <= 0x4000_0000_0000_0000_0000_0000_0000_0000) by (nonlinear_arith)
            requires
                mid <= 0x8000_0000_0000_0000,
        ;
        if mid * mid >= s {
            hi = mid;
        } else {
            lo = mid;
        }
    }
    proof {
        assert(is_ceil_sqrt(hi as int, s as int));
        lemma_ceil_sqrt_unique(ceil_sqrt(s as int), hi as int, s as int);
    }
    hi
}

} // verus!
