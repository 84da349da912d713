//! Fixed-point plane geometry.
//!
//! Every coordinate, length and offset is an integer count of thousandths
//! of a unit. Points stay within [`LIMIT`] of the origin on both axes, which
//! keeps every squared distance inside a 64-bit integer.

use vstd::prelude::*;

verus! {

/// Thousandths in one unit.
pub const SCALE: i64 = 1000;

/// Largest magnitude a point's coordinate may have: one million units.
pub const LIMIT: i64 = 1_000_000_000;

/// A point or an offset in the plane, in thousandths of a unit.
#[derive(Clone, Copy, Debug, PartialEq, Eq, Structural)]
pub struct Vector2 {
    pub x: i64,
    pub y: i64,
}

/// Whether a coordinate lies within [`LIMIT`] of zero.
pub open spec fn coord_in_bounds(c: int) -> bool {
    -LIMIT <= c <= LIMIT
}

/// The square of the distance between two points.
pub open spec fn distance_sq(a: Vector2, b: Vector2) -> int {
    (a.x - b.x) * (a.x - b.x) + (a.y - b.y) * (a.y - b.y)
}

/// `r` is the integer square root of `v`: the largest integer whose square
/// does not exceed `v`.
pub open spec fn is_sqrt(r: int, v: int) -> bool {
    0 <= r && r * r <= v < (r + 1) * (r + 1)
}

/// The integer square root of `v`.
pub open spec fn sqrt(v: int) -> int {
    choose|r: int| is_sqrt(r, v)
}

/// The distance between `a` and `b`, rounded down to a whole thousandth.
pub open spec fn distance(a: Vector2, b: Vector2) -> int {
    sqrt(distance_sq(a, b))
}

/// Half of `d`, rounded toward zero.
pub open spec fn half(d: int) -> int {
    if d >= 0 {
        d / 2
    } else {
        -((-d) / 2)
    }
}

/// The point halfway from `a` to `b`; each coordinate of the step from `a`
/// is rounded toward zero.
pub open spec fn midpoint(a: Vector2, b: Vector2) -> Vector2 {
    Vector2 { x: (a.x + half(b.x - a.x)) as i64, y: (a.y + half(b.y - a.y)) as i64 }
}

/// `c` clamped into the coordinate bounds.
pub open spec fn clamp(c: int) -> int {
    if c < -LIMIT {
        -LIMIT as int
    } else if c > LIMIT {
        LIMIT as int
    } else {
        c
    }
}

impl Vector2 {
    /// Both coordinates lie within [`LIMIT`] of zero.
    pub open spec fn in_bounds(self) -> bool {
        coord_in_bounds(self.x as int) && coord_in_bounds(self.y as int)
    }

    pub fn new(x: i64, y: i64) -> (v: Vector2)
        ensures
            v.x == x,
            v.y == y,
    {
        Vector2 { x, y }
    }

    /// The origin.
    pub fn zero() -> (v: Vector2)
        ensures
            v.x == 0,
            v.y == 0,
    {
        Vector2 { x: 0, y: 0 }
    }

    /// Whether both coordinates lie within the coordinate bounds.
    pub fn is_in_bounds(&self) -> (b: bool)
        ensures
            b == self.in_bounds(),
    {
        -LIMIT <= self.x && self.x <= LIMIT && -LIMIT <= self.y && self.y <= LIMIT
    }

    /// The distance to `other`, rounded down to a whole thousandth.
    pub fn distance_to(&self, other: Vector2) -> (w: i64)
        requires
            self.in_bounds(),
            other.in_bounds(),
        ensures
            w == distance(*self, other),
            is_sqrt(w as int, distance_sq(*self, other)),
    {
        let dx: i64 = self.x - other.x;
        let dy: i64 = self.y - other.y;
        assert(dx * dx <= 4_000_000_000_000_000_000 && dx * dx >= 0) by (nonlinear_arith)
            requires
                -2_000_000_000 <= dx <= 2_000_000_000,
        ;
        assert(dy * dy <= 4_000_000_000_000_000_000 && dy * dy >= 0) by (nonlinear_arith)
            requires
                -2_000_000_000 <= dy <= 2_000_000_000,
        ;
        let sq: i64 = dx * dx + dy * dy;
        let r: u64 = isqrt(sq as u64);
        assert(r <= 4_000_000_000) by (nonlinear_arith)
            requires
                r * r <= 8_000_000_000_000_000_000,
        ;
        proof {
            lemma_sqrt_is(r as int, sq as int);
        }
        r as i64
    }

    /// The point halfway to `other`.
    pub fn lerp_half(&self, other: Vector2) -> (m: Vector2)
        requires
            self.in_bounds(),
            other.in_bounds(),
        ensures
            m == midpoint(*self, other),
            m.in_bounds(),
    {
        Vector2 { x: self.x + half_of(other.x - self.x), y: self.y + half_of(other.y - self.y) }
    }

    /// Whether `self` lies within `radius` of `center`, the rim included.
    pub fn within(&self, center: Vector2, radius: i64) -> (hit: bool)
        requires
            self.in_bounds(),
            center.in_bounds(),
            0 <= radius <= LIMIT,
        ensures
            hit == (distance_sq(*self, center) <= radius * radius),
    {
        let dx: i64 = self.x - center.x;
        let dy: i64 = self.y - center.y;
        assert(dx * dx <= 4_000_000_000_000_000_000 && dx * dx >= 0) by (nonlinear_arith)
            requires
                -2_000_000_000 <= dx <= 2_000_000_000,
        ;
        assert(dy * dy <= 4_000_000_000_000_000_000 && dy * dy >= 0) by (nonlinear_arith)
            requires
                -2_000_000_000 <= dy <= 2_000_000_000,
        ;
        assert(radius * radius <= 1_000_000_000_000_000_000 && radius * radius >= 0)
            by (nonlinear_arith)
            requires
                0 <= radius <= 1_000_000_000,
        ;
        dx * dx + dy * dy <= radius * radius
    }
}

/// Half of `d`, rounded toward zero.
pub fn half_of(d: i64) -> (h: i64)
    requires
        d > i64::MIN,
    ensures
        h == half(d as int),
{
    if d >= 0 {
        d / 2
    } else {
        -((-d) / 2)
    }
}

/// `c` clamped into the coordinate bounds.
pub fn clamp_coord(c: i64) -> (r: i64)
    ensures
        r == clamp(c as int),
        coord_in_bounds(r as int),
{
    if c < -LIMIT {
        -LIMIT
    } else if c > LIMIT {
        LIMIT
    } else {
        c
    }
}

/// The integer square root: the largest `r` with `r * r <= v`.
pub fn isqrt(v: u64) -> (r: u64)
    ensures
        is_sqrt(r as int, v as int),
{
    let mut lo: u64 = 0;
    let mut hi: u64 = 4_294_967_296;
    assert(hi * hi > v) by (nonlinear_arith)
        requires
            hi == 4_294_967_296,
            v <= u64::MAX,
    ;
    while hi - lo > 1
        invariant
            lo < hi <= 4_294_967_296,
            lo * lo <= v < hi * hi,
        decreases hi - lo,
    {
        let mid: u64 = lo + (hi - lo) / 2;
        assert(mid * mid <= u64::MAX) by (nonlinear_arith)
            requires
                mid <= 4_294_967_295,
        ;
        if mid * mid <= v {
            lo = mid;
        } else {
            hi = mid;
        }
    }
    lo
}

/// The integer square root of a number is unique.
pub proof fn lemma_sqrt_unique(r1: int, r2: int, v: int)
    requires
        is_sqrt(r1, v),
        is_sqrt(r2, v),
    ensures
        r1 == r2,
{
    if r1 < r2 {
        assert((r1 + 1) * (r1 + 1) <= r2 * r2) by (nonlinear_arith)
            requires
                0 <= r1 + 1 <= r2,
        ;
    } else if r2 < r1 {
        assert((r2 + 1) * (r2 + 1) <= r1 * r1) by (nonlinear_arith)
            requires
                0 <= r2 + 1 <= r1,
        ;
    }
}

/// Whatever satisfies the definition of the integer square root of `v` is
/// the integer square root of `v`.
pub proof fn lemma_sqrt_is(r: int, v: int)
    requires
        is_sqrt(r, v),
    ensures
        r == sqrt(v),
        is_sqrt(sqrt(v), v),
{
    lemma_sqrt_unique(r, sqrt(v), v);
}

/// Two points in bounds have a distance, and it fits the range of a
/// length.
pub proof fn lemma_distance_exists(a: Vector2, b: Vector2)
    requires
        a.in_bounds(),
        b.in_bounds(),
    ensures
        is_sqrt(distance(a, b), distance_sq(a, b)),
        0 <= distance(a, b) <= 4 * LIMIT,
{
    let v = distance_sq(a, b);
    let dx = a.x - b.x;
    let dy = a.y - b.y;
    assert(0 <= dx * dx <= 4_000_000_000_000_000_000) by (nonlinear_arith)
        requires
            -2_000_000_000 <= dx <= 2_000_000_000,
    ;
    assert(0 <= dy * dy <= 4_000_000_000_000_000_000) by (nonlinear_arith)
        requires
            -2_000_000_000 <= dy <= 2_000_000_000,
    ;
    lemma_sqrt_exists(v);
    let r = sqrt(v);
    assert(r <= 4_000_000_000) by (nonlinear_arith)
        requires
            0 <= r,
            r * r <= 8_000_000_000_000_000_000,
    ;
}

/// Every number that is not negative has an integer square root.
pub proof fn lemma_sqrt_exists(v: int)
    requires
        0 <= v,
    ensures
        is_sqrt(sqrt(v), v),
    decreases v,
{
    if v == 0 {
        assert(is_sqrt(0, 0));
    } else {
        lemma_sqrt_exists(v - 1);
        let r = sqrt(v - 1);
        if (r + 1) * (r + 1) <= v {
            assert((r + 2) * (r + 2) > v) by (nonlinear_arith)
                requires
                    0 <= r,
                    v - 1 < (r + 1) * (r + 1),
            ;
            assert(is_sqrt(r + 1, v));
        } else {
            assert(r * r <= v) by (nonlinear_arith)
                requires
                    r * r <= v - 1,
            ;
            assert(is_sqrt(r, v));
        }
    }
}

/// The midpoint of two points in bounds is in bounds.
pub proof fn lemma_midpoint_in_bounds(a: Vector2, b: Vector2)
    requires
        a.in_bounds(),
        b.in_bounds(),
    ensures
        midpoint(a, b).in_bounds(),
{
}

/// Squares keep the order of numbers that are not negative.
pub proof fn lemma_square_le(a: int, b: int)
    requires
        0 <= a <= b,
    ensures
        a * a <= b * b,
{
    assert(a * a <= b * b) by (nonlinear_arith)
        requires
            0 <= a <= b,
    ;
}

/// A number whose square is below the square of `b` is below `b`.
pub proof fn lemma_square_lt(a: int, b: int)
    requires
        0 <= b,
        a * a < b * b,
    ensures
        a < b,
{
    if a >= b {
        lemma_square_le(b, a);
    }
}

/// The square of an inner product is at most the product of the squared
/// lengths.
pub proof fn lemma_inner_product(hx: int, hy: int, gx: int, gy: int)
    ensures
        (hx * gx + hy * gy) * (hx * gx + hy * gy) <= (hx * hx + hy * hy) * (gx * gx + gy * gy),
{
    let a1 = hx * hx;
    let a2 = hy * hy;
    let b1 = gx * gx;
    let b2 = gy * gy;
    let p = hx * gx;
    let q = hy * gy;
    let c = hx * gy;
    let e = hy * gx;
    assert(a1 * b1 == p * p) by (nonlinear_arith)
        requires
            a1 == hx * hx,
            b1 == gx * gx,
            p == hx * gx,
    ;
    assert(a2 * b2 == q * q) by (nonlinear_arith)
        requires
            a2 == hy * hy,
            b2 == gy * gy,
            q == hy * gy,
    ;
    assert(a1 * b2 == c * c) by (nonlinear_arith)
        requires
            a1 == hx * hx,
            b2 == gy * gy,
            c == hx * gy,
    ;
    assert(a2 * b1 == e * e) by (nonlinear_arith)
        requires
            a2 == hy * hy,
            b1 == gx * gx,
            e == hy * gx,
    ;
    assert(p * q == c * e) by (nonlinear_arith)
        requires
            p == hx * gx,
            q == hy * gy,
            c == hx * gy,
            e == hy * gx,
    ;
    assert((a1 + a2) * (b1 + b2) == a1 * b1 + a1 * b2 + a2 * b1 + a2 * b2) by (nonlinear_arith);
    assert((p + q) * (p + q) == p * p + 2 * (p * q) + q * q) by (nonlinear_arith);
    assert((c - e) * (c - e) == c * c - 2 * (c * e) + e * e) by (nonlinear_arith);
    assert((c - e) * (c - e) >= 0) by (nonlinear_arith);
}

/// The length of a sum of two offsets is at most one more than the sum of
/// their lengths, all lengths rounded down.
pub proof fn lemma_length_of_sum(hx: int, hy: int, gx: int, gy: int, w1: int, w2: int, w: int)
    requires
        is_sqrt(w1, hx * hx + hy * hy),
        is_sqrt(w2, gx * gx + gy * gy),
        is_sqrt(w, (hx + gx) * (hx + gx) + (hy + gy) * (hy + gy)),
    ensures
        w <= w1 + w2 + 1,
{
    if w >= w1 + w2 + 2 {
        let hh = hx * hx + hy * hy;
        let gg = gx * gx + gy * gy;
        let dd = (hx + gx) * (hx + gx) + (hy + gy) * (hy + gy);
        let p = hx * gx + hy * gy;
        let a = w1 + 1;
        let b = w2 + 1;
        let q = a * b;
        assert(dd == hh + gg + 2 * p) by (nonlinear_arith)
            requires
                hh == hx * hx + hy * hy,
                gg == gx * gx + gy * gy,
                dd == (hx + gx) * (hx + gx) + (hy + gy) * (hy + gy),
                p == hx * gx + hy * gy,
        ;
        lemma_square_le(a + b, w);
        assert((a + b) * (a + b) == a * a + b * b + 2 * q) by (nonlinear_arith)
            requires
                q == a * b,
        ;
        assert(p >= q + 1);
        assert(q >= 1) by (nonlinear_arith)
            requires
                q == a * b,
                a >= 1,
                b >= 1,
        ;
        lemma_inner_product(hx, hy, gx, gy);
        assert(hh * gg < (a * a) * (b * b)) by (nonlinear_arith)
            requires
                0 <= hh < a * a,
                0 <= gg < b * b,
        ;
        assert((a * a) * (b * b) == q * q) by (nonlinear_arith)
            requires
                q == a * b,
        ;
        lemma_square_le(q, p);
    }
}

/// Cutting a segment at its midpoint keeps its length: the two halves
/// together are as long as the whole, to within one thousandth.
pub proof fn lemma_midpoint_lengths(a: Vector2, b: Vector2)
    requires
        a.in_bounds(),
        b.in_bounds(),
    ensures
        -1 <= distance(a, midpoint(a, b)) + distance(midpoint(a, b), b) - distance(a, b) <= 1,
{
    let m = midpoint(a, b);
    lemma_midpoint_in_bounds(a, b);
    lemma_distance_exists(a, m);
    lemma_distance_exists(m, b);
    lemma_distance_exists(a, b);
    let dx = b.x - a.x;
    let dy = b.y - a.y;
    let hx = half(dx);
    let hy = half(dy);
    let gx = dx - hx;
    let gy = dy - hy;
    let w1 = distance(a, m);
    let w2 = distance(m, b);
    let w = distance(a, b);
    let hh = hx * hx + hy * hy;
    let gg = gx * gx + gy * gy;
    let dd = dx * dx + dy * dy;
    assert(m.x == a.x + hx && m.y == a.y + hy);
    assert(distance_sq(a, m) == hh) by (nonlinear_arith)
        requires
            distance_sq(a, m) == (a.x - m.x) * (a.x - m.x) + (a.y - m.y) * (a.y - m.y),
            a.x - m.x == -hx,
            a.y - m.y == -hy,
            hh == hx * hx + hy * hy,
    ;
    assert(distance_sq(m, b) == gg) by (nonlinear_arith)
        requires
            distance_sq(m, b) == (m.x - b.x) * (m.x - b.x) + (m.y - b.y) * (m.y - b.y),
            m.x - b.x == -gx,
            m.y - b.y == -gy,
            gg == gx * gx + gy * gy,
    ;
    assert(distance_sq(a, b) == dd) by (nonlinear_arith)
        requires
            distance_sq(a, b) == (a.x - b.x) * (a.x - b.x) + (a.y - b.y) * (a.y - b.y),
            a.x - b.x == -dx,
            a.y - b.y == -dy,
            dd == dx * dx + dy * dy,
    ;
    assert(dd == (hx + gx) * (hx + gx) + (hy + gy) * (hy + gy));
    lemma_length_of_sum(hx, hy, gx, gy, w1, w2, w);
    // The first half is at most half of the whole.
    assert(4 * (hx * hx) <= dx * dx) by {
        lemma_half_squares(dx);
    }
    assert(4 * (hy * hy) <= dy * dy) by {
        lemma_half_squares(dy);
    }
    assert((2 * w1) * (2 * w1) == 4 * (w1 * w1)) by (nonlinear_arith);
    assert((2 * w1) * (2 * w1) < (w + 1) * (w + 1));
    lemma_square_lt(2 * w1, w + 1);
    // The second half is at most half of the whole and a little.
    let sx = if dx >= 0 {
        dx
    } else {
        -dx
    };
    let sy = if dy >= 0 {
        dy
    } else {
        -dy
    };
    assert(4 * (gx * gx) <= dx * dx + 2 * sx + 1) by {
        lemma_half_squares(dx);
    }
    assert(4 * (gy * gy) <= dy * dy + 2 * sy + 1) by {
        lemma_half_squares(dy);
    }
    assert(sx + sy < 2 * (w + 1)) by {
        if sx + sy >= 2 * (w + 1) {
            lemma_square_le(2 * (w + 1), sx + sy);
            assert(sx * sx == dx * dx) by (nonlinear_arith)
                requires
                    sx == dx || sx == -dx,
            ;
            assert(sy * sy == dy * dy) by (nonlinear_arith)
                requires
                    sy == dy || sy == -dy,
            ;
            assert((sx - sy) * (sx - sy) >= 0) by (nonlinear_arith);
            assert((sx + sy) * (sx + sy) <= 2 * dd) by (nonlinear_arith)
                requires
                    dd == dx * dx + dy * dy,
                    sx * sx == dx * dx,
                    sy * sy == dy * dy,
                    (sx - sy) * (sx - sy) >= 0,
            ;
            assert((2 * (w + 1)) * (2 * (w + 1)) == 4 * ((w + 1) * (w + 1))) by (nonlinear_arith);
        }
    }
    assert((2 * w2) * (2 * w2) == 4 * (w2 * w2)) by (nonlinear_arith);
    assert((w + 3) * (w + 3) == (w + 1) * (w + 1) + 4 * (w + 1) + 4) by (nonlinear_arith);
    assert((2 * w2) * (2 * w2) < (w + 3) * (w + 3));
    lemma_square_lt(2 * w2, w + 3);
}

/// How the two parts of a number that was halved toward zero compare with
/// the number itself.
pub proof fn lemma_half_squares(d: int)
    ensures
        4 * (half(d) * half(d)) <= d * d,
        4 * ((d - half(d)) * (d - half(d))) <= d * d + 2 * (if d >= 0 {
            d
        } else {
            -d
        }) + 1,
{
    let h = half(d);
    let g = d - h;
    if d >= 0 {
        assert(2 * h <= d <= 2 * h + 1);
        assert(0 <= h);
        assert(4 * (h * h) <= d * d) by (nonlinear_arith)
            requires
                0 <= 2 * h <= d,
        ;
        assert(4 * (g * g) <= d * d + 2 * d + 1) by (nonlinear_arith)
            requires
                0 <= 2 * g <= d + 1,
        ;
    } else {
        assert(2 * h >= d >= 2 * h - 1);
        assert(h <= 0);
        assert(4 * (h * h) <= d * d) by (nonlinear_arith)
            requires
                0 >= 2 * h >= d,
        ;
        assert(4 * (g * g) <= d * d - 2 * d + 1) by (nonlinear_arith)
            requires
                0 >= 2 * g >= d - 1,
        ;
    }
}

/// The sum of two vectors.
pub fn vector2_add(v1: Vector2, v2: Vector2) -> (r: Vector2)
    requires
        i64::MIN <= v1.x + v2.x <= i64::MAX,
        i64::MIN <= v1.y + v2.y <= i64::MAX,
    ensures
        r.x == v1.x + v2.x,
        r.y == v1.y + v2.y,
{
    Vector2 { x: v1.x + v2.x, y: v1.y + v2.y }
}

/// The difference of two vectors.
pub fn vector2_subtract(v1: Vector2, v2: Vector2) -> (r: Vector2)
    requires
        i64::MIN <= v1.x - v2.x <= i64::MAX,
        i64::MIN <= v1.y - v2.y <= i64::MAX,
    ensures
        r.x == v1.x - v2.x,
        r.y == v1.y - v2.y,
{
    Vector2 { x: v1.x - v2.x, y: v1.y - v2.y }
}

/// Sums and differences of vectors, as methods.
pub trait Vector2Maths: Sized {
    /// The coordinates of the vector, first `x`, then `y`.
    spec fn coordinates(&self) -> (int, int);

    /// The sum of this vector and `p2`.
    fn add(&self, p2: Vector2) -> (r: Vector2)
        requires
            i64::MIN <= self.coordinates().0 + p2.x <= i64::MAX,
            i64::MIN <= self.coordinates().1 + p2.y <= i64::MAX,
        ensures
            r.x == self.coordinates().0 + p2.x,
            r.y == self.coordinates().1 + p2.y,
    ;

    /// The difference of this vector and `p2`.
    fn sub(&self, p2: Vector2) -> (r: Vector2)
        requires
            i64::MIN <= self.coordinates().0 - p2.x <= i64::MAX,
            i64::MIN <= self.coordinates().1 - p2.y <= i64::MAX,
        ensures
            r.x == self.coordinates().0 - p2.x,
            r.y == self.coordinates().1 - p2.y,
    ;
}

impl Vector2Maths for Vector2 {
    open spec fn coordinates(&self) -> (int, int) {
        (self.x as int, self.y as int)
    }

    fn add(&self, p2: Vector2) -> (r: Vector2) {
        vector2_add(*self, p2)
    }

    fn sub(&self, p2: Vector2) -> (r: Vector2) {
        vector2_subtract(*self, p2)
    }
}

} // verus!
