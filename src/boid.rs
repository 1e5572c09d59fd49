use vstd::prelude::*;
use crate::constants::{MAX_BOID_VELOCITY, MIN_BOID_VELOCITY, SCREEN_HEIGHT, SCREEN_WIDTH};
use crate::vec2::{away_div, lemma_away_div, len_sq, Vec2};

verus! {

/// The color class of a boid; boids align and cohere with their own color only.
#[derive(Clone, Copy, Debug, PartialEq, Eq, Structural)]
pub enum BoidColor {
    Black,
    Yellow,
    Blue,
    Magenta,
    Green,
    Red,
    Cyan,
}

pub const BOID_COLOR_COUNT: usize = 7;

pub open spec fn color_of_index(i: nat) -> BoidColor {
    let k = i % 7;
    if k == 0 {
        BoidColor::Black
    } else if k == 1 {
        BoidColor::Yellow
    } else if k == 2 {
        BoidColor::Blue
    } else if k == 3 {
        BoidColor::Magenta
    } else if k == 4 {
        BoidColor::Green
    } else if k == 5 {
        BoidColor::Red
    } else {
        BoidColor::Cyan
    }
}

/// The colors are handed out in turn: boid `i` gets color `i % 7`.
pub fn boid_color(i: usize) -> (r: BoidColor)
    ensures
        r == color_of_index(i as nat),
{
    let k: usize = i % BOID_COLOR_COUNT;
    if k == 0 {
        BoidColor::Black
    } else if k == 1 {
        BoidColor::Yellow
    } else if k == 2 {
        BoidColor::Blue
    } else if k == 3 {
        BoidColor::Magenta
    } else if k == 4 {
        BoidColor::Green
    } else if k == 5 {
        BoidColor::Red
    } else {
        BoidColor::Cyan
    }
}

/// The integer square root: the largest `s` with `s * s <= n`.
pub open spec fn is_isqrt(n: int, s: int) -> bool {
    0 <= s && s * s <= n < (s + 1) * (s + 1)
}

/// Integer square root, for the magnitudes of velocities.
pub fn isqrt(n: u64) -> (s: u64)
    requires
        n <= 0x1_0000_0000,
    ensures
        is_isqrt(n as int, s as int),
{
    let mut s: u64 = 0;
    loop
        invariant
            s * s <= n,
            n <= 0x1_0000_0000,
            s <= 0x1_0000,
        ensures
            s * s <= n < (s + 1) * (s + 1),
        decreases n - s * s,
    {
        let t: u64 = s + 1;
        assert(t * t <= 0x1_0001 * 0x1_0001) by (nonlinear_arith)
            requires t <= 0x1_0001;
        if t * t > n {
            break;
        }
        assert(t <= 0x1_0000) by (nonlinear_arith)
            requires t * t <= n, n <= 0x1_0000_0000;
        assert(t * t > s * s) by (nonlinear_arith)
            requires t == s + 1;
        s = t;
    }
    s
}

/// A velocity clamped to `[-MAX_BOID_VELOCITY, MAX_BOID_VELOCITY]` on each axis.
pub open spec fn clamp_axis(a: int) -> int {
    if a < -MAX_BOID_VELOCITY {
        -MAX_BOID_VELOCITY as int
    } else if a > MAX_BOID_VELOCITY {
        MAX_BOID_VELOCITY as int
    } else {
        a
    }
}

/// `c` rescaled to length `MIN_BOID_VELOCITY`, with `s` the integer square root of its
/// squared length; components round away from zero, so the result is never shorter.
pub open spec fn rescaled(c: Vec2, s: int) -> Vec2 {
    Vec2 {
        x: away_div(c.x * MIN_BOID_VELOCITY, s) as i64,
        y: away_div(c.y * MIN_BOID_VELOCITY, s) as i64,
    }
}

/// The velocity that steering gives: `v + d`, clamped per axis, then raised to the
/// minimum speed in its own direction when slower (the zero vector stays zero).
pub open spec fn steered(v: Vec2, d: Vec2, s: int) -> Vec2 {
    let c = Vec2 { x: clamp_axis(v.x + d.x) as i64, y: clamp_axis(v.y + d.y) as i64 };
    if len_sq(c) >= MIN_BOID_VELOCITY * MIN_BOID_VELOCITY {
        c
    } else if c.x == 0 && c.y == 0 {
        c
    } else {
        rescaled(c, s)
    }
}

pub open spec fn clamped(v: Vec2, d: Vec2) -> Vec2 {
    Vec2 { x: clamp_axis(v.x + d.x) as i64, y: clamp_axis(v.y + d.y) as i64 }
}

#[derive(Clone, Copy)]
pub struct Boid {
    pub pos: Vec2,
    pub speed: Vec2,
    pub color: BoidColor,
}

impl Boid {
    pub open spec fn on_screen(&self) -> bool {
        0 <= self.pos.x < SCREEN_WIDTH && 0 <= self.pos.y < SCREEN_HEIGHT
    }

    pub open spec fn speed_bounded(&self) -> bool {
        -MAX_BOID_VELOCITY <= self.speed.x <= MAX_BOID_VELOCITY && -MAX_BOID_VELOCITY
            <= self.speed.y <= MAX_BOID_VELOCITY
    }

    /// A boid at `(initial_x, initial_y)` moving at half the top speed on both axes.
    pub fn new(initial_x: i64, initial_y: i64, color: BoidColor) -> (r: Boid)
        ensures
            r.pos == (Vec2 { x: initial_x, y: initial_y }),
            r.speed == (Vec2 { x: 3000, y: 3000 }),
            r.color == color,
    {
        Boid {
            pos: Vec2::new(initial_x, initial_y),
            speed: Vec2::new(MAX_BOID_VELOCITY / 2, MAX_BOID_VELOCITY / 2),
            color,
        }
    }

    /// Moves the boid by its velocity and wraps the position around the screen.
    pub fn go_forward(&mut self)
        requires
            i64::MIN <= old(self).pos.x + old(self).speed.x <= i64::MAX,
            i64::MIN <= old(self).pos.y + old(self).speed.y <= i64::MAX,
        ensures
            final(self).pos.x == (old(self).pos.x + old(self).speed.x) % (SCREEN_WIDTH as int),
            final(self).pos.y == (old(self).pos.y + old(self).speed.y) % (SCREEN_HEIGHT as int),
            final(self).on_screen(),
            final(self).speed == old(self).speed,
            final(self).color == old(self).color,
    {
        let x: i64 = self.pos.x + self.speed.x;
        let y: i64 = self.pos.y + self.speed.y;
        let wx = x.checked_rem_euclid(SCREEN_WIDTH);
        let wy = y.checked_rem_euclid(SCREEN_HEIGHT);
        match (wx, wy) {
            (Some(a), Some(b)) => {
                self.pos = Vec2::new(a, b);
            },
            _ => {},
        }
    }

    pub fn pos(&self) -> (r: Vec2)
        ensures
            r == self.pos,
    {
        self.pos
    }

    pub fn speed(&self) -> (r: Vec2)
        ensures
            r == self.speed,
    {
        self.speed
    }

    pub fn color(&self) -> (r: BoidColor)
        ensures
            r == self.color,
    {
        self.color
    }

    /// Steers the boid: adds `direction` to its velocity, clamps each axis to the top
    /// speed, then raises a velocity below the minimum speed to that speed in its own
    /// direction, rounding each axis away from zero. A zero velocity stays zero; any other
    /// result is at least the minimum speed long.
    pub fn add_dir(&mut self, direction: Vec2)
        requires
            i64::MIN <= old(self).speed.x + direction.x <= i64::MAX,
            i64::MIN <= old(self).speed.y + direction.y <= i64::MAX,
        ensures
            exists|s: int|
                is_isqrt(len_sq(clamped(old(self).speed, direction)), s) && final(self).speed
                    == steered(old(self).speed, direction, s),
            final(self).speed_bounded(),
            len_sq(final(self).speed) >= MIN_BOID_VELOCITY * MIN_BOID_VELOCITY || (
            final(self).speed == (Vec2 { x: 0, y: 0 }) && clamped(old(self).speed, direction)
                == (Vec2 { x: 0, y: 0 })),
            final(self).pos == old(self).pos,
            final(self).color == old(self).color,
    {
        let sx: i64 = self.speed.x + direction.x;
        let sy: i64 = self.speed.y + direction.y;
        // Limit speed:
        let cx: i64 = if sx < -MAX_BOID_VELOCITY {
            -MAX_BOID_VELOCITY
        } else if sx > MAX_BOID_VELOCITY {
            MAX_BOID_VELOCITY
        } else {
            sx
        };
        let cy: i64 = if sy < -MAX_BOID_VELOCITY {
            -MAX_BOID_VELOCITY
        } else if sy > MAX_BOID_VELOCITY {
            MAX_BOID_VELOCITY
        } else {
            sy
        };
        let c = Vec2::new(cx, cy);
        assert(cx * cx <= 36_000_000 && cy * cy <= 36_000_000 && cx * cx >= 0 && cy * cy >= 0)
            by (nonlinear_arith)
            requires -6000 <= cx <= 6000, -6000 <= cy <= 6000;
        let n: u64 = (cx * cx + cy * cy) as u64;
        let s: u64 = isqrt(n);
        if n < (MIN_BOID_VELOCITY * MIN_BOID_VELOCITY) as u64 && (cx != 0 || cy != 0) {
            assert(s >= 1) by (nonlinear_arith)
                requires is_isqrt(n as int, s as int), n == cx * cx + cy * cy, cx != 0 || cy != 0;
            assert(-(s as int) <= cx <= s && -(s as int) <= cy <= s) by (nonlinear_arith)
                requires is_isqrt(n as int, s as int), n == cx * cx + cy * cy;
            assert(s < 5000) by (nonlinear_arith)
                requires is_isqrt(n as int, s as int), n < 25_000_000;
            let si: i64 = s as i64;
            let px: i64 = cx * MIN_BOID_VELOCITY;
            let py: i64 = cy * MIN_BOID_VELOCITY;
            let rx: i64 = crate::vec2::div_away_from_zero(px, si);
            let ry: i64 = crate::vec2::div_away_from_zero(py, si);
            proof {
                let ax: int = if cx >= 0 { cx as int } else { -cx };
                let ay: int = if cy >= 0 { cy as int } else { -cy };
                lemma_away_div(ax * 5000, si as int, 5000);
                lemma_away_div(ay * 5000, si as int, 5000);
                assert(ax * 5000 <= 5000 * si) by (nonlinear_arith)
                    requires ax <= si;
                assert(ay * 5000 <= 5000 * si) by (nonlinear_arith)
                    requires ay <= si;
                let u = away_div(ax * 5000, si as int);
                let w = away_div(ay * 5000, si as int);
                assert(px == if cx >= 0 { ax * 5000 } else { -(ax * 5000) });
                assert(py == if cy >= 0 { ay * 5000 } else { -(ay * 5000) });
                assert(rx == if cx >= 0 { u } else { -u });
                assert(ry == if cy >= 0 { w } else { -w });
                assert(ax * ax + ay * ay == cx * cx + cy * cy) by (nonlinear_arith)
                    requires ax == cx || ax == -cx, ay == cy || ay == -cy;
                assert(ax <= si && ay <= si);
                assert(u * u + w * w >= 25_000_000) by (nonlinear_arith)
                    requires
                        u * si >= ax * 5000,
                        w * si >= ay * 5000,
                        ax >= 0,
                        ay >= 0,
                        si >= 1,
                        ax * ax + ay * ay >= si * si,
                ;
                assert(rx * rx + ry * ry == u * u + w * w) by (nonlinear_arith)
                    requires rx == u || rx == -u, ry == w || ry == -w;
            }
            self.speed = Vec2::new(rx, ry);
            assert(is_isqrt(len_sq(clamped(old(self).speed, direction)), s as int));
            assert(self.speed == steered(old(self).speed, direction, s as int));
        } else {
            self.speed = c;
            assert(is_isqrt(len_sq(clamped(old(self).speed, direction)), s as int));
            assert(self.speed == steered(old(self).speed, direction, s as int));
        }
    }
}

// Two boids are equal when their positions and velocities are; the color does not count.
impl PartialEq for Boid {
    fn eq(&self, other: &Boid) -> (r: bool) {
        self.pos == other.pos && self.speed == other.speed
    }
}

impl vstd::std_specs::cmp::PartialEqSpecImpl for Boid {
    open spec fn obeys_eq_spec() -> bool {
        true
    }

    open spec fn eq_spec(&self, other: &Boid) -> bool {
        self.pos == other.pos && self.speed == other.speed
    }
}

impl Eq for Boid {

}

/// A boid together with the cell of the location grid that holds its index.
#[derive(Clone, Copy)]
pub struct GridBoid {
    pub boid: Boid,
    pub row: usize,
    pub col: usize,
}

} // verus!
