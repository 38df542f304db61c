//! Exact fixed-point geometry.
//!
//! Positions on the unit sphere are carried as integer vectors in units of
//! `1 / SCALE`, so every geometric question the surface engine asks — squared
//! distances, dot products, orientation of a planar triangle, renormalising a
//! midpoint back onto the sphere — has an exact integer answer.

use vstd::prelude::*;

verus! {

/// Number of fixed-point units in one planet radius.
pub const SCALE: i64 = 1000000;

/// A point or direction in space, in fixed-point units.
#[derive(Clone, Copy, PartialEq, Eq, Structural, Debug)]
pub struct Vec3 {
    pub x: i64,
    pub y: i64,
    pub z: i64,
}

/// A point in a planar projection, in fixed-point units.
#[derive(Clone, Copy, PartialEq, Eq, Structural, Debug)]
pub struct Vec2 {
    pub x: i64,
    pub y: i64,
}

/// Rotational direction of a planar triangle.
#[derive(Clone, Copy, PartialEq, Eq, Structural, Debug)]
pub enum Orientation {
    Clockwise,
    CounterClockwise,
    Collinear,
}

/// Every component of `v` lies in `[-b, b]`.
pub open spec fn bounded3(v: Vec3, b: int) -> bool {
    -b <= v.x <= b && -b <= v.y <= b && -b <= v.z <= b
}

/// Every component of `v` lies in `[-b, b]`.
pub open spec fn bounded2(v: Vec2, b: int) -> bool {
    -b <= v.x <= b && -b <= v.y <= b
}

pub open spec fn dot_spec(a: Vec3, b: Vec3) -> int {
    a.x * b.x + a.y * b.y + a.z * b.z
}

pub open spec fn norm_sq_spec(a: Vec3) -> int {
    dot_spec(a, a)
}

pub open spec fn dist_sq_spec(a: Vec3, b: Vec3) -> int {
    (a.x - b.x) * (a.x - b.x) + (a.y - b.y) * (a.y - b.y) + (a.z - b.z) * (a.z - b.z)
}

/// The componentwise sum of two vectors; twice their midpoint, which points
/// the same way from the origin.
pub open spec fn sum_spec(a: Vec3, b: Vec3) -> Vec3 {
    Vec3 { x: (a.x + b.x) as i64, y: (a.y + b.y) as i64, z: (a.z + b.z) as i64 }
}

proof fn lemma_mul_bound(x: int, y: int, b: int, c: int)
    by (nonlinear_arith)
    requires
        -b <= x <= b,
        -c <= y <= c,
        0 <= b,
        0 <= c,
    ensures
        -b * c <= x * y <= b * c,
{
}

proof fn lemma_square_nonneg(x: int)
    by (nonlinear_arith)
    ensures
        x * x >= 0,
{
}

impl Vec3 {
    /// The dot product, exact.
    pub fn dot(self, o: Vec3) -> (r: i64)
        requires
            bounded3(self, 4 * SCALE as int),
            bounded3(o, 4 * SCALE as int),
        ensures
            r == dot_spec(self, o),
    {
        proof {
            lemma_mul_bound(self.x as int, o.x as int, 4000000, 4000000);
            lemma_mul_bound(self.y as int, o.y as int, 4000000, 4000000);
            lemma_mul_bound(self.z as int, o.z as int, 4000000, 4000000);
        }
        self.x * o.x + self.y * o.y + self.z * o.z
    }

    /// The squared Euclidean distance to `o`, exact.
    pub fn dist_sq(self, o: Vec3) -> (r: i64)
        requires
            bounded3(self, 2 * SCALE as int),
            bounded3(o, 2 * SCALE as int),
        ensures
            r == dist_sq_spec(self, o),
    {
        let dx = self.x - o.x;
        let dy = self.y - o.y;
        let dz = self.z - o.z;
        proof {
            lemma_mul_bound(dx as int, dx as int, 4000000, 4000000);
            lemma_mul_bound(dy as int, dy as int, 4000000, 4000000);
            lemma_mul_bound(dz as int, dz as int, 4000000, 4000000);
            lemma_square_nonneg(dx as int);
            lemma_square_nonneg(dy as int);
            lemma_square_nonneg(dz as int);
        }
        dx * dx + dy * dy + dz * dz
    }

    /// The componentwise sum with `o`.
    pub fn sum_with(self, o: Vec3) -> (r: Vec3)
        requires
            bounded3(self, 2 * SCALE as int),
            bounded3(o, 2 * SCALE as int),
        ensures
            r == sum_spec(self, o),
            bounded3(r, 4 * SCALE as int),
    {
        Vec3 { x: self.x + o.x, y: self.y + o.y, z: self.z + o.z }
    }
}

/// On the sphere of radius `SCALE`, within the rounding its renormalising
/// arithmetic can leave.
pub open spec fn on_sphere(v: Vec3) -> bool {
    SCALE * SCALE - 7 * SCALE <= norm_sq_spec(v) <= SCALE * SCALE + 7 * SCALE
}

/// A value at least `c²` has a floor square root of at least `c`.
pub proof fn lemma_sqrt_floor_at_least(m: int, c: int)
    requires
        0 <= c,
        c * c <= m,
    ensures
        sqrt_floor(m) >= c,
{
    lemma_sqrt_floor_bounds(m);
    if sqrt_floor(m) < c {
        assert((sqrt_floor(m) + 1) * (sqrt_floor(m) + 1) <= c * c) by (nonlinear_arith)
            requires
                0 <= sqrt_floor(m),
                sqrt_floor(m) + 1 <= c,
        {
        }
    }
}

/// A squared norm is never negative.
pub proof fn lemma_norm_sq_nonneg(v: Vec3)
    ensures
        norm_sq_spec(v) >= 0,
{
    lemma_square_nonneg(v.x as int);
    lemma_square_nonneg(v.y as int);
    lemma_square_nonneg(v.z as int);
}

/// The product of values within `±b` and `±c` lies within `±b·c`.
pub proof fn lemma_mul_range(x: int, y: int, b: int, c: int)
    by (nonlinear_arith)
    requires
        -b <= x <= b,
        -c <= y <= c,
        0 <= b,
        0 <= c,
    ensures
        -(b * c) <= x * y <= b * c,
{
}

/// The squared distance of two positions bounded by `c` is at most
/// `12·c²`, and never negative.
pub proof fn lemma_dist_sq_range(a: Vec3, b: Vec3, c: int)
    requires
        0 <= c,
        bounded3(a, c),
        bounded3(b, c),
    ensures
        0 <= dist_sq_spec(a, b) <= 12 * c * c,
{
    assert(0 <= (a.x - b.x) * (a.x - b.x) + (a.y - b.y) * (a.y - b.y) + (a.z - b.z) * (a.z
        - b.z) <= 12 * c * c) by (nonlinear_arith)
        requires
            -c <= a.x <= c,
            -c <= a.y <= c,
            -c <= a.z <= c,
            -c <= b.x <= c,
            -c <= b.y <= c,
            -c <= b.z <= c,
    {
    }
}

/// The dot product of two vectors bounded by `b` and `c` lies within
/// `±3·b·c`.
pub proof fn lemma_dot_range(a: Vec3, o: Vec3, b: int, c: int)
    requires
        0 <= b,
        0 <= c,
        bounded3(a, b),
        bounded3(o, c),
    ensures
        -3 * (b * c) <= dot_spec(a, o) <= 3 * (b * c),
{
    assert(-3 * (b * c) <= a.x * o.x + a.y * o.y + a.z * o.z <= 3 * (b * c))
        by (nonlinear_arith)
        requires
            0 <= b,
            0 <= c,
            -b <= a.x <= b,
            -b <= a.y <= b,
            -b <= a.z <= b,
            -c <= o.x <= c,
            -c <= o.y <= c,
            -c <= o.z <= c,
    {
    }
}

/// The greatest integer whose square does not exceed `n`.
pub open spec fn sqrt_floor(n: int) -> int
    decreases n,
{
    if n < 1 {
        0
    } else {
        let r = sqrt_floor(n - 1);
        if (r + 1) * (r + 1) <= n {
            r + 1
        } else {
            r
        }
    }
}

pub proof fn lemma_sqrt_floor_bounds(n: int)
    requires
        0 <= n,
    ensures
        0 <= sqrt_floor(n),
        sqrt_floor(n) * sqrt_floor(n) <= n,
        n < (sqrt_floor(n) + 1) * (sqrt_floor(n) + 1),
    decreases n,
{
    if n >= 1 {
        lemma_sqrt_floor_bounds(n - 1);
        let r = sqrt_floor(n - 1);
        if (r + 1) * (r + 1) <= n {
            assert(n < (r + 2) * (r + 2)) by (nonlinear_arith)
                requires
                    n - 1 < (r + 1) * (r + 1),
                    r >= 0,
            {
            }
        }
    }
}

proof fn lemma_sqrt_unique(n: int, r: int)
    requires
        0 <= n,
        0 <= r,
        r * r <= n,
        n < (r + 1) * (r + 1),
    ensures
        r == sqrt_floor(n),
{
    lemma_sqrt_floor_bounds(n);
    let s = sqrt_floor(n);
    if r < s {
        assert((r + 1) * (r + 1) <= s * s) by (nonlinear_arith)
            requires
                0 <= r,
                r + 1 <= s,
        {
        }
    }
    if s < r {
        assert((s + 1) * (s + 1) <= r * r) by (nonlinear_arith)
            requires
                0 <= s,
                s + 1 <= r,
        {
        }
    }
}

proof fn lemma_sqrt_le(n: int, m: int, cap: int)
    requires
        0 <= n,
        n * n <= m,
        0 <= cap,
        m < (cap + 1) * (cap + 1),
    ensures
        n <= cap,
{
    if n > cap {
        assert((cap + 1) * (cap + 1) <= n * n) by (nonlinear_arith)
            requires
                0 <= cap,
                cap + 1 <= n,
        {
        }
    }
}

/// Integer square root by bisection.
pub fn isqrt(n: u64) -> (r: u64)
    requires
        n < 0x4000000000000000,
    ensures
        r == sqrt_floor(n as int),
        r * r <= n < (r + 1) * (r + 1),
{
    let mut lo: u64 = 0;
    let mut hi: u64 = 0x80000000;
    while lo + 1 < hi
        invariant
            lo < hi,
            hi <= 0x80000000,
            lo * lo <= n,
            (n as int) < (hi as int) * (hi as int),
        decreases hi - lo,
    {
        let mid = lo + (hi - lo) / 2;
        proof {
            lemma_mul_bound(mid as int, mid as int, 0x7fffffff, 0x7fffffff);
        }
        if mid * mid <= n {
            lo = mid;
        } else {
            hi = mid;
        }
    }
    proof {
        lemma_sqrt_unique(n as int, lo as int);
    }
    lo
}

/// Integer division rounded toward zero, the way machine division rounds.
pub open spec fn tdiv(a: int, b: int) -> int {
    if a >= 0 {
        a / b
    } else {
        -((-a) / b)
    }
}

/// Division rounded toward zero.
pub fn div_trunc(a: i64, b: i64) -> (r: i64)
    requires
        0 < b,
        -0x4000000000000000 <= a <= 0x4000000000000000,
    ensures
        r == tdiv(a as int, b as int),
{
    if a >= 0 {
        ((a as u64) / (b as u64)) as i64
    } else {
        let q = ((-a) as u64) / (b as u64);
        proof {
            vstd::arithmetic::div_mod::lemma_div_nonincreasing(-a as int, b as int);
            vstd::arithmetic::div_mod::lemma_div_pos_is_pos(-a as int, b as int);
        }
        -(q as i64)
    }
}

/// A dividend within `±c·b` divides down to within `±c`.
pub proof fn lemma_tdiv_bound(a: int, b: int, c: int)
    requires
        0 < b,
        0 <= c,
        -(c * b) <= a <= c * b,
    ensures
        -c <= tdiv(a, b) <= c,
{
    if a >= 0 {
        vstd::arithmetic::div_mod::lemma_div_is_ordered(a, c * b, b);
        assert(c * b / b == c) by (nonlinear_arith)
            requires
                b > 0,
        {
        }
        vstd::arithmetic::div_mod::lemma_div_pos_is_pos(a, b);
    } else {
        vstd::arithmetic::div_mod::lemma_div_is_ordered(-a, c * b, b);
        assert(c * b / b == c) by (nonlinear_arith)
            requires
                b > 0,
        {
        }
        vstd::arithmetic::div_mod::lemma_div_pos_is_pos(-a, b);
    }
}

/// Truncating division is monotone in the dividend for a positive divisor.
pub proof fn lemma_tdiv_monotone(a: int, c: int, b: int)
    requires
        a <= c,
        0 < b,
    ensures
        tdiv(a, b) <= tdiv(c, b),
{
    if a >= 0 {
        vstd::arithmetic::div_mod::lemma_div_is_ordered(a, c, b);
    } else if c >= 0 {
        vstd::arithmetic::div_mod::lemma_div_pos_is_pos(-a, b);
        vstd::arithmetic::div_mod::lemma_div_pos_is_pos(c, b);
    } else {
        vstd::arithmetic::div_mod::lemma_div_is_ordered(-c, -a, b);
    }
}

/// `a` scaled by `SCALE / n`, rounded toward zero.
pub open spec fn scaled_div(a: int, n: int) -> int {
    if a >= 0 {
        a * SCALE / n
    } else {
        -((-a) * SCALE / n)
    }
}

/// The projection of `v` onto the sphere of radius `SCALE`: each component
/// scaled by `SCALE` over the floor square root of the squared norm.
pub open spec fn normalize_spec(v: Vec3) -> Vec3 {
    let n = sqrt_floor(norm_sq_spec(v));
    Vec3 {
        x: scaled_div(v.x as int, n) as i64,
        y: scaled_div(v.y as int, n) as i64,
        z: scaled_div(v.z as int, n) as i64,
    }
}

proof fn lemma_component_le_norm(x: int, m: int, n: int)
    requires
        0 <= m,
        x * x <= m,
        0 <= n,
        n * n <= m,
        m < (n + 1) * (n + 1),
    ensures
        -n <= x <= n,
{
    if x > n {
        assert((n + 1) * (n + 1) <= x * x) by (nonlinear_arith)
            requires
                0 <= n,
                n + 1 <= x,
        {
        }
    }
    if x < -n {
        assert((n + 1) * (n + 1) <= x * x) by (nonlinear_arith)
            requires
                0 <= n,
                n + 1 <= -x,
        {
        }
    }
}

proof fn lemma_scaled_div_bounds(a: int, n: int)
    requires
        0 < n,
        -n <= a <= n,
    ensures
        -SCALE <= scaled_div(a, n) <= SCALE,
{
    if a >= 0 {
        assert(a * SCALE <= n * SCALE) by (nonlinear_arith)
            requires
                a <= n,
                SCALE > 0,
        {
        }
        assert(a * SCALE / n <= n * SCALE / n) by {
            vstd::arithmetic::div_mod::lemma_div_is_ordered(
                a * SCALE, n * SCALE, n);
        }
        assert(n * SCALE / n == SCALE) by (nonlinear_arith)
            requires
                n > 0,
        {
        }
        assert(a * SCALE >= 0) by (nonlinear_arith)
            requires
                a >= 0,
                SCALE > 0,
        {
        }
        assert(a * SCALE / n >= 0) by {
            vstd::arithmetic::div_mod::lemma_div_pos_is_pos(a * SCALE, n);
        }
    } else {
        let b = -a;
        assert(b * SCALE <= n * SCALE) by (nonlinear_arith)
            requires
                b <= n,
                SCALE > 0,
        {
        }
        assert(b * SCALE / n <= n * SCALE / n) by {
            vstd::arithmetic::div_mod::lemma_div_is_ordered(
                b * SCALE, n * SCALE, n);
        }
        assert(n * SCALE / n == SCALE) by (nonlinear_arith)
            requires
                n > 0,
        {
        }
        assert(b * SCALE >= 0) by (nonlinear_arith)
            requires
                b >= 0,
                SCALE > 0,
        {
        }
        assert(b * SCALE / n >= 0) by {
            vstd::arithmetic::div_mod::lemma_div_pos_is_pos(b * SCALE, n);
        }
    }
}

impl Vec3 {
    /// Scales `self` onto the sphere of radius `SCALE`; `None` exactly when
    /// `self` is the zero vector, which names no direction.
    pub fn normalize(self) -> (r: Option<Vec3>)
        requires
            bounded3(self, 4 * SCALE as int),
        ensures
            match r {
                Some(u) => norm_sq_spec(self) > 0 && u == normalize_spec(self)
                    && bounded3(u, SCALE as int),
                None => norm_sq_spec(self) == 0,
            },
    {
        let m = self.dot(self);
        proof {
            lemma_square_nonneg(self.x as int);
            lemma_square_nonneg(self.y as int);
            lemma_square_nonneg(self.z as int);
            lemma_mul_bound(self.x as int, self.x as int, 4000000, 4000000);
            lemma_mul_bound(self.y as int, self.y as int, 4000000, 4000000);
            lemma_mul_bound(self.z as int, self.z as int, 4000000, 4000000);
        }
        if m == 0 {
            return None;
        }
        let n = isqrt(m as u64);
        proof {
            lemma_sqrt_le(n as int, m as int, 6999999);
            lemma_component_le_norm(self.x as int, m as int, n as int);
            lemma_component_le_norm(self.y as int, m as int, n as int);
            lemma_component_le_norm(self.z as int, m as int, n as int);
            lemma_scaled_div_bounds(self.x as int, n as int);
            lemma_scaled_div_bounds(self.y as int, n as int);
            lemma_scaled_div_bounds(self.z as int, n as int);
        }
        let rx = scale_component(self.x, n);
        let ry = scale_component(self.y, n);
        let rz = scale_component(self.z, n);
        Some(Vec3 { x: rx, y: ry, z: rz })
    }
}

/// One component of a renormalisation: `a * SCALE / n`, rounded toward zero.
fn scale_component(a: i64, n: u64) -> (r: i64)
    requires
        0 < n,
        -(n as int) <= a as int <= n as int,
        n <= 7000000,
    ensures
        r == scaled_div(a as int, n as int),
{
    proof {
        lemma_scaled_div_bounds(a as int, n as int);
    }
    if a >= 0 {
        proof {
            lemma_mul_bound(a as int, SCALE as int, 7000000, 1000000);
        }
        let q = (a as u64) * (SCALE as u64) / n;
        q as i64
    } else {
        let b = (-a) as u64;
        proof {
            lemma_mul_bound(b as int, SCALE as int, 7000000, 1000000);
        }
        let q = b * (SCALE as u64) / n;
        -(q as i64)
    }
}

proof fn lemma_roundness_component(a: int, n: int) -> (q: int)
    requires
        500000 <= n,
        0 <= a <= n,
    ensures
        q == a * SCALE / n,
        0 <= q <= SCALE,
        n * q <= a * SCALE <= n * q + n - 1,
        n * n * (q * q) <= (a * a) * (SCALE * SCALE),
        (a * a) * (SCALE * SCALE) <= n * n * ((q + 1) * (q + 1)),
{
    let q = a * SCALE / n;
    assert(a * SCALE >= 0) by (nonlinear_arith)
        requires
            a >= 0,
    {
    }
    lemma_scaled_div_bounds(a, n);
    vstd::arithmetic::div_mod::lemma_fundamental_div_mod(a * SCALE, n);
    vstd::arithmetic::div_mod::lemma_mod_bound(a * SCALE, n);
    vstd::arithmetic::div_mod::lemma_div_pos_is_pos(a * SCALE, n);
    assert(n * n * (q * q) <= (a * a) * (SCALE * SCALE)) by (nonlinear_arith)
        requires
            0 <= n * q <= a * SCALE,
    {
    }
    assert((a * a) * (SCALE * SCALE) <= n * n * ((q + 1) * (q + 1))) by (nonlinear_arith)
        requires
            0 <= a * SCALE <= n * q + n - 1,
            0 <= q,
    {
    }
    q
}

/// A vector of healthy length — its floor square root at least half of
/// `SCALE` — renormalises onto the sphere within rounding distance: the
/// squared norm of the result stays within `7·SCALE` of `SCALE²`.
pub proof fn lemma_normalize_roundness(v: Vec3)
    requires
        sqrt_floor(norm_sq_spec(v)) >= 500000,
    ensures
        SCALE * SCALE - 7 * SCALE <= norm_sq_spec(normalize_spec(v)),
        norm_sq_spec(normalize_spec(v)) <= SCALE * SCALE + 7 * SCALE,
{
    let m = norm_sq_spec(v);
    lemma_square_nonneg(v.x as int);
    lemma_square_nonneg(v.y as int);
    lemma_square_nonneg(v.z as int);
    lemma_sqrt_floor_bounds(m);
    let n = sqrt_floor(m);
    lemma_component_le_norm(v.x as int, m, n);
    lemma_component_le_norm(v.y as int, m, n);
    lemma_component_le_norm(v.z as int, m, n);
    let ax: int = if v.x >= 0 { v.x as int } else { -(v.x as int) };
    let ay: int = if v.y >= 0 { v.y as int } else { -(v.y as int) };
    let az: int = if v.z >= 0 { v.z as int } else { -(v.z as int) };
    let qx = lemma_roundness_component(ax, n);
    let qy = lemma_roundness_component(ay, n);
    let qz = lemma_roundness_component(az, n);
    lemma_scaled_div_bounds(v.x as int, n);
    lemma_scaled_div_bounds(v.y as int, n);
    lemma_scaled_div_bounds(v.z as int, n);
    let u = normalize_spec(v);
    assert(u.x == scaled_div(v.x as int, n) && u.y == scaled_div(v.y as int, n)
        && u.z == scaled_div(v.z as int, n));
    let s2 = qx * qx + qy * qy + qz * qz;
    assert(norm_sq_spec(u) == s2) by {
        assert((-qx) * (-qx) == qx * qx) by (nonlinear_arith);
        assert((-qy) * (-qy) == qy * qy) by (nonlinear_arith);
        assert((-qz) * (-qz) == qz * qz) by (nonlinear_arith);
    }
    assert(m == ax * ax + ay * ay + az * az) by {
        assert((-(v.x as int)) * (-(v.x as int)) == (v.x as int) * (v.x as int))
            by (nonlinear_arith);
        assert((-(v.y as int)) * (-(v.y as int)) == (v.y as int) * (v.y as int))
            by (nonlinear_arith);
        assert((-(v.z as int)) * (-(v.z as int)) == (v.z as int) * (v.z as int))
            by (nonlinear_arith);
    }
    // upper bound: the scaled squares sum to at most SCALE²·m over n²,
    // and m is under n² + 2n
    assert(n * n * s2 <= (SCALE * SCALE) * m) by (nonlinear_arith)
        requires
            n * n * (qx * qx) <= (ax * ax) * (SCALE * SCALE),
            n * n * (qy * qy) <= (ay * ay) * (SCALE * SCALE),
            n * n * (qz * qz) <= (az * az) * (SCALE * SCALE),
            s2 == qx * qx + qy * qy + qz * qz,
            m == ax * ax + ay * ay + az * az,
    {
    }
    assert(m <= n * n + 2 * n) by (nonlinear_arith)
        requires
            m < (n + 1) * (n + 1),
    {
    }
    assert(s2 <= SCALE * SCALE + 4 * SCALE) by (nonlinear_arith)
        requires
            n * n * s2 <= (SCALE * SCALE) * m,
            m <= n * n + 2 * n,
            n >= 500000,
            SCALE == 1000000,
    {
    }
    // lower bound: SCALE²·m is at most the sum of the rounded-up squares
    assert((SCALE * SCALE) * m <= n * n * (s2 + 2 * (qx + qy + qz) + 3)) by (nonlinear_arith)
        requires
            (ax * ax) * (SCALE * SCALE) <= n * n * ((qx + 1) * (qx + 1)),
            (ay * ay) * (SCALE * SCALE) <= n * n * ((qy + 1) * (qy + 1)),
            (az * az) * (SCALE * SCALE) <= n * n * ((qz + 1) * (qz + 1)),
            s2 == qx * qx + qy * qy + qz * qz,
            m == ax * ax + ay * ay + az * az,
    {
    }
    assert(s2 >= SCALE * SCALE - 7 * SCALE) by (nonlinear_arith)
        requires
            (SCALE * SCALE) * m <= n * n * (s2 + 2 * (qx + qy + qz) + 3),
            n * n <= m,
            n >= 500000,
            0 <= qx <= SCALE,
            0 <= qy <= SCALE,
            0 <= qz <= SCALE,
            SCALE == 1000000,
    {
    }
}

/// Twice the signed area of the planar triangle `a b c`: positive when the
/// triangle winds counter-clockwise.
pub open spec fn orient2d_spec(a: Vec2, b: Vec2, c: Vec2) -> int {
    (b.x - a.x) * (c.y - a.y) - (b.y - a.y) * (c.x - a.x)
}

/// The orientation named by the sign of twice a signed area.
pub open spec fn orientation_of(det: int) -> Orientation {
    if det > 0 {
        Orientation::CounterClockwise
    } else if det < 0 {
        Orientation::Clockwise
    } else {
        Orientation::Collinear
    }
}

/// Rotational direction of three planar points, exact.
pub fn tri_orientation(a: Vec2, b: Vec2, c: Vec2) -> (r: Orientation)
    requires
        bounded2(a, 0x7fffffffffff),
        bounded2(b, 0x7fffffffffff),
        bounded2(c, 0x7fffffffffff),
    ensures
        r == orientation_of(orient2d_spec(a, b, c)),
{
    let ux = b.x as i128 - a.x as i128;
    let uy = b.y as i128 - a.y as i128;
    let vx = c.x as i128 - a.x as i128;
    let vy = c.y as i128 - a.y as i128;
    proof {
        lemma_mul_bound(ux as int, vy as int, 0x1000000000000, 0x1000000000000);
        lemma_mul_bound(uy as int, vx as int, 0x1000000000000, 0x1000000000000);
    }
    let det = ux * vy - uy * vx;
    if det > 0 {
        Orientation::CounterClockwise
    } else if det < 0 {
        Orientation::Clockwise
    } else {
        Orientation::Collinear
    }
}

/// Whether segment `a` and segment `b` cross: each segment's endpoints lie
/// strictly on opposite rotational sides of the other.
pub open spec fn edges_intersect_spec(a: (Vec2, Vec2), b: (Vec2, Vec2)) -> bool {
    orientation_of(orient2d_spec(a.0, a.1, b.1)) != orientation_of(orient2d_spec(a.0, a.1, b.0))
        && orientation_of(orient2d_spec(b.0, b.1, a.1))
            != orientation_of(orient2d_spec(b.0, b.1, a.0))
}

/// Whether two planar segments cross, by the orientation test.
pub fn do_edges_intersect(a: (Vec2, Vec2), b: (Vec2, Vec2)) -> (r: bool)
    requires
        bounded2(a.0, 0x7fffffffffff),
        bounded2(a.1, 0x7fffffffffff),
        bounded2(b.0, 0x7fffffffffff),
        bounded2(b.1, 0x7fffffffffff),
    ensures
        r == edges_intersect_spec(a, b),
{
    let o1 = tri_orientation(a.0, a.1, b.1);
    let o2 = tri_orientation(a.0, a.1, b.0);
    let o3 = tri_orientation(b.0, b.1, a.1);
    let o4 = tri_orientation(b.0, b.1, a.0);
    o1 != o2 && o3 != o4
}

/// Division rounded toward zero, for wide intermediates.
pub fn div_trunc128(a: i128, b: i128) -> (r: i128)
    requires
        0 < b,
        -0x40000000000000000000000000000000 <= a <= 0x40000000000000000000000000000000,
    ensures
        r == tdiv(a as int, b as int),
{
    if a >= 0 {
        ((a as u128) / (b as u128)) as i128
    } else {
        let q = ((-a) as u128) / (b as u128);
        proof {
            vstd::arithmetic::div_mod::lemma_div_nonincreasing(-a as int, b as int);
            vstd::arithmetic::div_mod::lemma_div_pos_is_pos(-a as int, b as int);
        }
        -(q as i128)
    }
}

/// Twice the squared magnitude of the edge cross product of triangle
/// `a b c`: zero exactly when the triangle is collinear.
pub open spec fn circ_den_spec(a: Vec3, b: Vec3, c: Vec3) -> int {
    let acx = c.x - a.x;
    let acy = c.y - a.y;
    let acz = c.z - a.z;
    let abx = b.x - a.x;
    let aby = b.y - a.y;
    let abz = b.z - a.z;
    let cx = acy * abz - acz * aby;
    let cy = acz * abx - acx * abz;
    let cz = acx * aby - acy * abx;
    2 * (cx * cx + cy * cy + cz * cz)
}

/// The vector from the circumcentre to corner `a`, scaled by
/// `circ_den_spec`: the numerators of the closed-form circumcentre.
pub open spec fn circ_num_spec(a: Vec3, b: Vec3, c: Vec3) -> (int, int, int) {
    let acx = c.x - a.x;
    let acy = c.y - a.y;
    let acz = c.z - a.z;
    let abx = b.x - a.x;
    let aby = b.y - a.y;
    let abz = b.z - a.z;
    let cx = acy * abz - acz * aby;
    let cy = acz * abx - acx * abz;
    let cz = acx * aby - acy * abx;
    let m1 = acx * acx + acy * acy + acz * acz;
    let m2 = abx * abx + aby * aby + abz * abz;
    let px = cy * abz - cz * aby;
    let py = cz * abx - cx * abz;
    let pz = cx * aby - cy * abx;
    let qx = acy * cz - acz * cy;
    let qy = acz * cx - acx * cz;
    let qz = acx * cy - acy * cx;
    (px * m1 + qx * m2, py * m1 + qy * m2, pz * m1 + qz * m2)
}

/// A circumcentre offset small enough to subtract within the word.
pub open spec fn circ_fits(q: int) -> bool {
    -0x2000000000000000 <= q <= 0x2000000000000000
}

/// The circumcentre of triangle `tri` of `points`, by the closed-form
/// cross-product formula, each component rounded toward zero. `None`
/// exactly when the triangle is collinear — its circumcircle has no
/// centre — or the centre lies beyond the coordinate word.
pub fn circumcenter(points: &Vec<Vec3>, tri: Vec<u32>) -> (r: Option<Vec3>)
    requires
        tri@.len() == 3,
        forall|i: int| 0 <= i < 3 ==> ((#[trigger] tri@[i]) as int) < points@.len(),
        forall|i: int| 0 <= i < points@.len() ==> bounded3(#[trigger] points@[i], 0x100000),
    ensures
        ({
            let a = points@[tri@[0] as int];
            let b = points@[tri@[1] as int];
            let c = points@[tri@[2] as int];
            let den = circ_den_spec(a, b, c);
            let q0 = tdiv(circ_num_spec(a, b, c).0, den);
            let q1 = tdiv(circ_num_spec(a, b, c).1, den);
            let q2 = tdiv(circ_num_spec(a, b, c).2, den);
            match r {
                Some(u) => den != 0 && circ_fits(q0) && circ_fits(q1) && circ_fits(q2)
                    && u.x == a.x - q0 && u.y == a.y - q1 && u.z == a.z - q2,
                None => den == 0 || !circ_fits(q0) || !circ_fits(q1) || !circ_fits(q2),
            }
        }),
{
    let a = points[tri[0] as usize];
    let b = points[tri[1] as usize];
    let c = points[tri[2] as usize];
    let acx = c.x as i128 - a.x as i128;
    let acy = c.y as i128 - a.y as i128;
    let acz = c.z as i128 - a.z as i128;
    let abx = b.x as i128 - a.x as i128;
    let aby = b.y as i128 - a.y as i128;
    let abz = b.z as i128 - a.z as i128;
    proof {
        lemma_mul_range(acy as int, abz as int, 0x200000, 0x200000);
        lemma_mul_range(acz as int, aby as int, 0x200000, 0x200000);
        lemma_mul_range(acz as int, abx as int, 0x200000, 0x200000);
        lemma_mul_range(acx as int, abz as int, 0x200000, 0x200000);
        lemma_mul_range(acx as int, aby as int, 0x200000, 0x200000);
        lemma_mul_range(acy as int, abx as int, 0x200000, 0x200000);
        lemma_mul_range(acx as int, acx as int, 0x200000, 0x200000);
        lemma_mul_range(acy as int, acy as int, 0x200000, 0x200000);
        lemma_mul_range(acz as int, acz as int, 0x200000, 0x200000);
        lemma_mul_range(abx as int, abx as int, 0x200000, 0x200000);
        lemma_mul_range(aby as int, aby as int, 0x200000, 0x200000);
        lemma_mul_range(abz as int, abz as int, 0x200000, 0x200000);
    }
    let cx = acy * abz - acz * aby;
    let cy = acz * abx - acx * abz;
    let cz = acx * aby - acy * abx;
    let m1 = acx * acx + acy * acy + acz * acz;
    let m2 = abx * abx + aby * aby + abz * abz;
    proof {
        lemma_mul_range(cx as int, cx as int, 0x100000000000, 0x100000000000);
        lemma_mul_range(cy as int, cy as int, 0x100000000000, 0x100000000000);
        lemma_mul_range(cz as int, cz as int, 0x100000000000, 0x100000000000);
        assert(cx as int * (cx as int) >= 0) by (nonlinear_arith);
        assert(cy as int * (cy as int) >= 0) by (nonlinear_arith);
        assert(cz as int * (cz as int) >= 0) by (nonlinear_arith);
    }
    let den = 2 * (cx * cx + cy * cy + cz * cz);
    if den == 0 {
        return None;
    }
    proof {
        lemma_mul_range(cy as int, abz as int, 0x100000000000, 0x200000);
        lemma_mul_range(cz as int, aby as int, 0x100000000000, 0x200000);
        lemma_mul_range(cz as int, abx as int, 0x100000000000, 0x200000);
        lemma_mul_range(cx as int, abz as int, 0x100000000000, 0x200000);
        lemma_mul_range(cx as int, aby as int, 0x100000000000, 0x200000);
        lemma_mul_range(cy as int, abx as int, 0x100000000000, 0x200000);
        lemma_mul_range(acy as int, cz as int, 0x200000, 0x100000000000);
        lemma_mul_range(acz as int, cy as int, 0x200000, 0x100000000000);
        lemma_mul_range(acz as int, cx as int, 0x200000, 0x100000000000);
        lemma_mul_range(acx as int, cz as int, 0x200000, 0x100000000000);
        lemma_mul_range(acx as int, cy as int, 0x200000, 0x100000000000);
        lemma_mul_range(acy as int, cx as int, 0x200000, 0x100000000000);
    }
    let px = cy * abz - cz * aby;
    let py = cz * abx - cx * abz;
    let pz = cx * aby - cy * abx;
    let qx = acy * cz - acz * cy;
    let qy = acz * cx - acx * cz;
    let qz = acx * cy - acy * cx;
    proof {
        lemma_mul_range(px as int, m1 as int, 0x40000000000000000, 0x1000000000000);
        lemma_mul_range(py as int, m1 as int, 0x40000000000000000, 0x1000000000000);
        lemma_mul_range(pz as int, m1 as int, 0x40000000000000000, 0x1000000000000);
        lemma_mul_range(qx as int, m2 as int, 0x40000000000000000, 0x1000000000000);
        lemma_mul_range(qy as int, m2 as int, 0x40000000000000000, 0x1000000000000);
        lemma_mul_range(qz as int, m2 as int, 0x40000000000000000, 0x1000000000000);
    }
    let nx = px * m1 + qx * m2;
    let ny = py * m1 + qy * m2;
    let nz = pz * m1 + qz * m2;
    let q0 = div_trunc128(nx, den);
    let q1 = div_trunc128(ny, den);
    let q2 = div_trunc128(nz, den);
    if q0 > 0x2000000000000000 || q0 < -0x2000000000000000 || q1 > 0x2000000000000000
        || q1 < -0x2000000000000000 || q2 > 0x2000000000000000 || q2 < -0x2000000000000000 {
        return None;
    }
    Some(
        Vec3 {
            x: a.x - q0 as i64,
            y: a.y - q1 as i64,
            z: a.z - q2 as i64,
        },
    )
}

} // verus!
