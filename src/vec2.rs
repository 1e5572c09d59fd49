use vstd::prelude::*;

verus! {

/// A 2D vector of fixed-point integer components.
#[derive(Clone, Copy, Debug, PartialEq, Eq, Structural)]
pub struct Vec2 {
    pub x: i64,
    pub y: i64,
}

/// Division rounding toward zero, as integer division does on machine integers.
pub open spec fn trunc_div(a: int, d: int) -> int {
    if a >= 0 {
        a / d
    } else {
        -((-a) / d)
    }
}

/// Division rounding away from zero.
pub open spec fn away_div(a: int, d: int) -> int {
    if a >= 0 {
        (a + d - 1) / d
    } else {
        -((-a + d - 1) / d)
    }
}

/// For `a >= 0`, `away_div(a, d)` is the least `q` with `q * d >= a`; so it is at most
/// any `m` with `a <= m * d`.
pub proof fn lemma_away_div(a: int, d: int, m: int)
    requires
        a >= 0,
        d > 0,
    ensures
        away_div(a, d) * d >= a,
        away_div(a, d) >= 0,
        a <= m * d ==> away_div(a, d) <= m,
{
    let q = (a + d - 1) / d;
    let r = (a + d - 1) % d;
    vstd::arithmetic::div_mod::lemma_fundamental_div_mod(a + d - 1, d);
    assert(0 <= r < d);
    assert(q * d >= a) by (nonlinear_arith)
        requires d * q + r == a + d - 1, r < d;
    assert(q >= 0) by (nonlinear_arith)
        requires d * q + r == a + d - 1, r < d, a >= 0, d > 0;
    if a <= m * d {
        assert(q <= m) by (nonlinear_arith)
            requires d * q + r == a + d - 1, r >= 0, a <= m * d, d > 0;
    }
}

/// Squared Euclidean distance between two points.
pub open spec fn dist_sq(a: Vec2, b: Vec2) -> int {
    (a.x - b.x) * (a.x - b.x) + (a.y - b.y) * (a.y - b.y)
}

/// Squared length of a vector.
pub open spec fn len_sq(v: Vec2) -> int {
    v.x * v.x + v.y * v.y
}

/// A steering direction within the range that the tick's sums are proved safe for.
pub open spec fn dir_bounded(v: Vec2) -> bool {
    -0x100_0000_0000_0000 <= v.x <= 0x100_0000_0000_0000 && -0x100_0000_0000_0000 <= v.y
        <= 0x100_0000_0000_0000
}

/// Whether `v` lies within `dir_bounded`.
pub fn within_dir_bound(v: Vec2) -> (r: bool)
    ensures
        r == dir_bounded(v),
{
    -0x100_0000_0000_0000 <= v.x && v.x <= 0x100_0000_0000_0000 && -0x100_0000_0000_0000 <= v.y
        && v.y <= 0x100_0000_0000_0000
}

/// Dividing rounds toward zero, so it never leaves a symmetric bound.
pub proof fn lemma_trunc_div_bound(a: int, d: int, b: int)
    requires
        d >= 1,
        -b <= a <= b,
    ensures
        -b <= trunc_div(a, d) <= b,
{
    if a >= 0 {
        assert(a / d <= a) by (nonlinear_arith)
            requires a >= 0, d >= 1;
        assert(a / d >= 0) by (nonlinear_arith)
            requires a >= 0, d >= 1;
    } else {
        assert((-a) / d <= -a) by (nonlinear_arith)
            requires -a >= 0, d >= 1;
        assert((-a) / d >= 0) by (nonlinear_arith)
            requires -a >= 0, d >= 1;
    }
}

/// Divides `a` by `d`, rounding toward zero.
pub fn div_toward_zero(a: i64, d: i64) -> (r: i64)
    requires
        d > 0,
        a > i64::MIN,
    ensures
        r == trunc_div(a as int, d as int),
{
    if a >= 0 {
        a / d
    } else {
        let n: i64 = -a;
        -(n / d)
    }
}

/// Divides `a` by `d`, rounding away from zero.
pub fn div_away_from_zero(a: i64, d: i64) -> (r: i64)
    requires
        d > 0,
        -0x4000_0000_0000_0000 <= a <= 0x4000_0000_0000_0000,
        d <= 0x4000_0000_0000_0000,
    ensures
        r == away_div(a as int, d as int),
{
    proof {
        lemma_away_div(if a >= 0 { a as int } else { -a }, d as int, if a >= 0 { a as int } else { -a });
    }
    if a >= 0 {
        (a + (d - 1)) / d
    } else {
        let n: i64 = -a;
        -((n + (d - 1)) / d)
    }
}

impl Vec2 {
    pub fn new(x: i64, y: i64) -> (r: Vec2)
        ensures
            r.x == x,
            r.y == y,
    {
        Vec2 { x, y }
    }

    pub fn zero() -> (r: Vec2)
        ensures
            r.x == 0,
            r.y == 0,
    {
        Vec2 { x: 0, y: 0 }
    }

    pub fn add(self, o: Vec2) -> (r: Vec2)
        requires
            i64::MIN <= self.x + o.x <= i64::MAX,
            i64::MIN <= self.y + o.y <= i64::MAX,
        ensures
            r.x == self.x + o.x,
            r.y == self.y + o.y,
    {
        Vec2 { x: self.x + o.x, y: self.y + o.y }
    }

    pub fn sub(self, o: Vec2) -> (r: Vec2)
        requires
            i64::MIN <= self.x - o.x <= i64::MAX,
            i64::MIN <= self.y - o.y <= i64::MAX,
        ensures
            r.x == self.x - o.x,
            r.y == self.y - o.y,
    {
        Vec2 { x: self.x - o.x, y: self.y - o.y }
    }

    /// Each component divided by `d`, rounding toward zero.
    pub fn div_by(self, d: i64) -> (r: Vec2)
        requires
            d > 0,
            self.x > i64::MIN,
            self.y > i64::MIN,
        ensures
            r.x == trunc_div(self.x as int, d as int),
            r.y == trunc_div(self.y as int, d as int),
    {
        Vec2 { x: div_toward_zero(self.x, d), y: div_toward_zero(self.y, d) }
    }

    /// Squared distance to `o`; coordinates must lie within the screen's order of magnitude.
    pub fn distance_squared(self, o: Vec2) -> (r: i64)
        requires
            -0x2000_0000 <= self.x <= 0x2000_0000,
            -0x2000_0000 <= self.y <= 0x2000_0000,
            -0x2000_0000 <= o.x <= 0x2000_0000,
            -0x2000_0000 <= o.y <= 0x2000_0000,
        ensures
            r == dist_sq(self, o),
    {
        let dx: i64 = self.x - o.x;
        let dy: i64 = self.y - o.y;
        assert(dx * dx <= 0x4000_0000 * 0x4000_0000) by (nonlinear_arith)
            requires -0x4000_0000 <= dx <= 0x4000_0000;
        assert(dy * dy <= 0x4000_0000 * 0x4000_0000) by (nonlinear_arith)
            requires -0x4000_0000 <= dy <= 0x4000_0000;
        assert(dx * dx >= 0 && dy * dy >= 0) by (nonlinear_arith);
        dx * dx + dy * dy
    }
}

} // verus!
