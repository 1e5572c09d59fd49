use vstd::prelude::*;
use crate::boid::{boid_color, clamped, color_of_index, is_isqrt, steered, Boid, GridBoid};
use crate::constants::{
    ALIGNMENT_DIVISOR, BOIDS_NUM, COHESION_DIVISOR, EVASION_FACTOR, INFLUENCE_DISTANCE,
    INFLUENCE_DISTANCE_SQUARED, LEADER_DIVISOR, LOCATION_GRID_HEIGHT, LOCATION_GRID_WIDTH, MARGIN,
    MAX_BOIDS, SCREEN_HEIGHT, SCREEN_WIDTH, SEPARATION_DIVISOR, STEERING_DISTANCE_SQUARED,
    TARGET_DIVISOR,
};
use crate::grid::{
    lemma_distinct_indices_len, lemma_neighbor_cells_in_grid, neighbor_cells, neighbor_cells_from,
    run_for_neighbor_cells,
};
use std::collections::HashMap;
use crate::vec2::{dir_bounded, len_sq, within_dir_bound, dist_sq, lemma_trunc_div_bound, trunc_div, Vec2};

verus! {

broadcast use vstd::std_specs::hash::group_hash_axioms;

/// Index of cell `(row, col)` in the row-major cell list of the location grid.
pub open spec fn cell_index(row: int, col: int) -> int {
    row * LOCATION_GRID_WIDTH + col
}

pub open spec fn cell_of_boid(gb: GridBoid) -> int {
    cell_index(gb.row as int, gb.col as int)
}

/// The grid row of a point: its y coordinate divided by the influence distance.
pub open spec fn row_of(p: Vec2) -> int {
    p.y as int / INFLUENCE_DISTANCE as int
}

/// The grid column of a point: its x coordinate divided by the influence distance.
pub open spec fn col_of(p: Vec2) -> int {
    p.x as int / INFLUENCE_DISTANCE as int
}

/// A target point within reach of the fixed-point arithmetic.
pub open spec fn target_in_range(t: Vec2) -> bool {
    -0x1000_0000 <= t.x <= 0x1000_0000 && -0x1000_0000 <= t.y <= 0x1000_0000
}

pub const GRID_CELLS: usize = 266;

/// The simulation state: the boids, the location grid of their indices, and the
/// user-controlled target, leader and wall toggle.
pub struct BoidsSim {
    /// Row-major cells; each holds the indices into `boids` of the boids inside it.
    pub location_grid: Vec<Vec<usize>>,
    /// All boids in the simulation and their cells in the location grid.
    pub boids: Vec<GridBoid>,
    /// A location all boids aim towards.
    pub target: Option<Vec2>,
    /// Whether boids avoid the walls.
    pub restrict_walls: bool,
    /// Index of the leader boid.
    pub leader_idx: Option<usize>,
}

/// The sum of six rule directions.
pub open spec fn sum6(a: Vec2, b: Vec2, c: Vec2, d: Vec2, e: Vec2, f: Vec2) -> Vec2 {
    Vec2 { x: (a.x + b.x + c.x + d.x + e.x + f.x) as i64, y: (a.y + b.y + c.y + d.y + e.y + f.y) as i64 }
}

/// Six rule direction lists with one direction per boid, each within `dir_bounded`.
pub open spec fn rules_fit(
    n: int,
    sep: Seq<Vec2>,
    align: Seq<Vec2>,
    coh: Seq<Vec2>,
    eva: Seq<Vec2>,
    target: Seq<Vec2>,
    leader: Seq<Vec2>,
) -> bool {
    &&& sep.len() == n && align.len() == n && coh.len() == n
    &&& eva.len() == n && target.len() == n && leader.len() == n
    &&& forall|j: int|
        0 <= j < n ==> {
            &&& dir_bounded(#[trigger] sep[j]) && dir_bounded(align[j])
            &&& dir_bounded(coh[j]) && dir_bounded(eva[j])
            &&& dir_bounded(target[j]) && dir_bounded(leader[j])
        }
}

/// A key press that the simulation reacts to.
#[derive(Clone, Copy, Debug, PartialEq, Eq, Structural)]
pub enum SimKey {
    /// Clears the target.
    Space,
    /// Toggles wall evasion.
    W,
    /// Toggles the leader between none and boid 0.
    L,
    /// Any other key; ignored.
    Other,
}

/// Relies on rand's `Rng::gen_range` on `thread_rng()`: a value in `[lo, hi)`, which it
/// documents for a non-empty range (it panics on an empty one).
#[verifier::external_body]
fn rand_between(lo: i64, hi: i64) -> (r: i64)
    requires
        lo < hi,
    ensures
        lo <= r < hi,
{
    let mut rng = rand::thread_rng();
    rand::Rng::gen_range(&mut rng, lo..hi)
}

/// The direction towards `target` from `p`, scaled by the target factor.
pub open spec fn toward(target: Vec2, p: Vec2, divisor: int) -> Vec2 {
    Vec2 {
        x: trunc_div(target.x - p.x, divisor) as i64,
        y: trunc_div(target.y - p.y, divisor) as i64,
    }
}

/// The push away from the two walls of one axis, for a coordinate `p` on a screen side
/// of length `side`.
pub open spec fn evasion_axis(p: int, side: int) -> int {
    if p < MARGIN {
        EVASION_FACTOR as int
    } else if p > side - MARGIN {
        -EVASION_FACTOR as int
    } else {
        0
    }
}

/// The indices held by the cells `cs` of the grid, cell after cell.
pub open spec fn cells_indices(cells: Seq<Vec<usize>>, cs: Seq<(usize, usize)>) -> Seq<usize>
    decreases cs.len(),
{
    if cs.len() == 0 {
        seq![]
    } else {
        cells_indices(cells, cs.drop_last()) + cells[cell_index(
            cs.last().0 as int,
            cs.last().1 as int,
        )]@
    }
}

/// The sum of `p_i - p_j` over the candidates `j` in `js` other than `i` that lie within
/// the steering distance of boid `i`.
pub open spec fn separation_sum(boids: Seq<GridBoid>, i: int, js: Seq<usize>) -> (int, int)
    decreases js.len(),
{
    if js.len() == 0 {
        (0, 0)
    } else {
        let prev = separation_sum(boids, i, js.drop_last());
        let j = js.last() as int;
        let p = boids[i].boid.pos;
        let q = boids[j].boid.pos;
        if j != i && dist_sq(p, q) <= STEERING_DISTANCE_SQUARED {
            (prev.0 + (p.x - q.x), prev.1 + (p.y - q.y))
        } else {
            prev
        }
    }
}

/// What a boid contributes to a group average: its position or its velocity.
pub open spec fn member_value(gb: GridBoid, of_pos: bool) -> Vec2 {
    if of_pos {
        gb.boid.pos
    } else {
        gb.boid.speed
    }
}

/// The sum of `member_value` and the count over the candidates `j` in `js` that share boid
/// `i`'s color and lie within the influence distance of it, `i` itself included.
pub open spec fn group_sum(boids: Seq<GridBoid>, i: int, js: Seq<usize>, of_pos: bool) -> (
    int,
    int,
    int,
)
    decreases js.len(),
{
    if js.len() == 0 {
        (0, 0, 0)
    } else {
        let prev = group_sum(boids, i, js.drop_last(), of_pos);
        let j = js.last() as int;
        let v = member_value(boids[j], of_pos);
        if dist_sq(boids[i].boid.pos, boids[j].boid.pos) <= INFLUENCE_DISTANCE_SQUARED
            && boids[j].boid.color == boids[i].boid.color {
            (prev.0 + v.x, prev.1 + v.y, prev.2 + 1)
        } else {
            prev
        }
    }
}

/// The steering toward a group average: zero when the group is the boid alone (or
/// empty), else the average minus the boid's own value, divided by `divisor`.
pub open spec fn group_direction(s: (int, int, int), own: Vec2, divisor: int) -> Vec2 {
    if s.2 <= 1 {
        Vec2 { x: 0, y: 0 }
    } else {
        Vec2 {
            x: trunc_div(trunc_div(s.0, s.2) - own.x, divisor) as i64,
            y: trunc_div(trunc_div(s.1, s.2) - own.y, divisor) as i64,
        }
    }
}

/// Key of the unordered pair `{lo, hi}` with `lo < hi` in the displacement cache.
pub open spec fn pair_key(lo: int, hi: int) -> int {
    lo * 0x10_0000 + hi
}

/// Every cached displacement of a pair `lo < hi` is `p_hi - p_lo`.
pub open spec fn cache_valid(boids: Seq<GridBoid>, cache: Map<u64, Vec2>) -> bool {
    forall|lo: int, hi: int|
        0 <= lo < hi < boids.len() && cache.contains_key(#[trigger] pair_key(lo, hi) as u64)
            ==> cache[pair_key(lo, hi) as u64] == (Vec2 {
            x: (boids[hi].boid.pos.x - boids[lo].boid.pos.x) as i64,
            y: (boids[hi].boid.pos.y - boids[lo].boid.pos.y) as i64,
        })
}

proof fn lemma_pair_key_injective(lo: int, hi: int, lo2: int, hi2: int)
    requires
        0 <= lo < 0x10_0000,
        0 <= hi < 0x10_0000,
        0 <= lo2 < 0x10_0000,
        0 <= hi2 < 0x10_0000,
        pair_key(lo, hi) == pair_key(lo2, hi2),
    ensures
        lo == lo2 && hi == hi2,
{
    assert(lo == lo2 && hi == hi2) by (nonlinear_arith)
        requires
            0 <= hi < 0x10_0000,
            0 <= hi2 < 0x10_0000,
            lo * 0x10_0000 + hi == lo2 * 0x10_0000 + hi2,
    ;
}

impl BoidsSim {
    pub open spec fn cells(&self) -> Seq<Vec<usize>> {
        self.location_grid@
    }

    pub open spec fn pos(&self, i: int) -> Vec2 {
        self.boids@[i].boid.pos
    }

    /// The indices held by the 3x3 block of cells around boid `i`'s recorded cell.
    pub open spec fn neighborhood(&self, i: int) -> Seq<usize> {
        cells_indices(
            self.cells(),
            neighbor_cells(
                self.boids@[i].row as int,
                self.boids@[i].col as int,
                LOCATION_GRID_WIDTH as int,
                LOCATION_GRID_HEIGHT as int,
            ),
        )
    }

    /// Separation for boid `i`: minus the separation factor times the sum of `p_i - p_j`
    /// over the other boids `j` of its neighborhood within the steering distance.
    pub open spec fn separation_direction(&self, i: int) -> Vec2 {
        let s = separation_sum(self.boids@, i, self.neighborhood(i));
        Vec2 {
            x: trunc_div(-s.0, SEPARATION_DIVISOR as int) as i64,
            y: trunc_div(-s.1, SEPARATION_DIVISOR as int) as i64,
        }
    }

    /// Alignment for boid `i`: the alignment factor times the average velocity of its
    /// same-colored neighbors within the influence distance (itself included) minus its own
    /// velocity; zero when it is alone.
    pub open spec fn alignment_direction(&self, i: int) -> Vec2 {
        group_direction(
            group_sum(self.boids@, i, self.neighborhood(i), false),
            self.boids@[i].boid.speed,
            ALIGNMENT_DIVISOR as int,
        )
    }

    /// Cohesion for boid `i`: as alignment, with positions in place of velocities.
    pub open spec fn cohesion_direction(&self, i: int) -> Vec2 {
        group_direction(
            group_sum(self.boids@, i, self.neighborhood(i), true),
            self.boids@[i].boid.pos,
            COHESION_DIVISOR as int,
        )
    }

    /// Target seeking for boid `i`: the target factor times `target - p_i`; zero
    /// without a target.
    pub open spec fn target_direction(&self, i: int) -> Vec2 {
        match self.target {
            Some(t) => toward(t, self.pos(i), TARGET_DIVISOR as int),
            None => Vec2 { x: 0, y: 0 },
        }
    }

    /// Leader following for boid `i`: the leader factor times `p_leader - p_i`; zero
    /// without a leader.
    pub open spec fn leader_direction(&self, i: int) -> Vec2 {
        match self.leader_idx {
            Some(l) => toward(self.pos(l as int), self.pos(i), LEADER_DIVISOR as int),
            None => Vec2 { x: 0, y: 0 },
        }
    }

    /// Wall evasion for boid `i`; zero when evasion is off.
    pub open spec fn evasion_direction(&self, i: int) -> Vec2 {
        if self.restrict_walls {
            Vec2 {
                x: evasion_axis(self.pos(i).x as int, SCREEN_WIDTH as int) as i64,
                y: evasion_axis(self.pos(i).y as int, SCREEN_HEIGHT as int) as i64,
            }
        } else {
            Vec2 { x: 0, y: 0 }
        }
    }

    /// The sum of the six rule directions for boid `i`.
    pub open spec fn total_direction(&self, i: int) -> Vec2 {
        sum6(
            self.separation_direction(i),
            self.alignment_direction(i),
            self.cohesion_direction(i),
            self.evasion_direction(i),
            self.target_direction(i),
            self.leader_direction(i),
        )
    }

    /// `fin` is `mid` after every boid steered by `mid`'s rule directions and moved.
    pub open spec fn stepped(mid: BoidsSim, fin: BoidsSim) -> bool {
        &&& fin.boids@.len() == mid.boids@.len()
        &&& forall|i: int|
            0 <= i < mid.boids@.len() ==> {
                let b = (#[trigger] mid.boids@[i]).boid;
                let f = fin.boids@[i].boid;
                &&& exists|s: int|
                    is_isqrt(len_sq(clamped(b.speed, mid.total_direction(i))), s) && f.speed
                        == steered(b.speed, mid.total_direction(i), s)
                &&& f.pos.x == (b.pos.x + f.speed.x) % (SCREEN_WIDTH as int)
                &&& f.pos.y == (b.pos.y + f.speed.y) % (SCREEN_HEIGHT as int)
                &&& f.color == b.color
            }
    }

    /// The state is well formed: boids on screen with bounded velocities, each boid's
    /// recorded cell in the grid, and the grid holding each index exactly in the boid's
    /// recorded cell.
    pub open spec fn wf(&self) -> bool {
        let n = self.boids@.len();
        &&& n <= MAX_BOIDS
        &&& self.cells().len() == GRID_CELLS
        &&& forall|i: int|
            0 <= i < n ==> {
                let gb = #[trigger] self.boids@[i];
                &&& gb.boid.on_screen()
                &&& gb.boid.speed_bounded()
                &&& gb.row < LOCATION_GRID_HEIGHT
                &&& gb.col < LOCATION_GRID_WIDTH
            }
        &&& forall|k: int, m: int|
            0 <= k < GRID_CELLS && 0 <= m < self.cells()[k]@.len() ==> {
                &&& (#[trigger] self.cells()[k]@[m]) < n
                &&& cell_of_boid(self.boids@[self.cells()[k]@[m] as int]) == k
            }
        &&& forall|i: int|
            0 <= i < n ==> (#[trigger] self.cells()[cell_of_boid(self.boids@[i])]@).contains(
                i as usize,
            )
        &&& forall|k: int| 0 <= k < GRID_CELLS ==> (#[trigger] self.cells()[k]@).no_duplicates()
        &&& self.leader_idx matches Some(l) ==> l < n
        &&& self.target matches Some(t) ==> target_in_range(t)
    }

    /// Every boid's recorded cell is the cell its position lies in.
    pub open spec fn indexed(&self) -> bool {
        forall|i: int|
            0 <= i < self.boids@.len() ==> {
                &&& (#[trigger] self.boids@[i]).row == row_of(self.boids@[i].boid.pos)
                &&& self.boids@[i].col == col_of(self.boids@[i].boid.pos)
            }
    }

    /// A simulation with no boids: empty grid cells, no target, no leader, walls on.
    fn empty() -> (r: BoidsSim)
        ensures
            r.wf(),
            r.indexed(),
            r.boids@.len() == 0,
            r.target is None,
            r.leader_idx is None,
            r.restrict_walls,
    {
        let mut location_grid: Vec<Vec<usize>> = Vec::new();
        let mut k: usize = 0;
        while k < GRID_CELLS
            invariant
                k <= GRID_CELLS,
                location_grid@.len() == k,
                forall|q: int| 0 <= q < k ==> (#[trigger] location_grid@[q])@.len() == 0,
            decreases GRID_CELLS - k,
        {
            location_grid.push(Vec::new());
            k = k + 1;
        }
        BoidsSim {
            location_grid,
            boids: Vec::new(),
            target: None,
            restrict_walls: true,
            leader_idx: None,
        }
    }

    /// Appends `boid` with the next index and files that index under its cell.
    fn add_boid(&mut self, boid: Boid)
        requires
            old(self).wf(),
            old(self).indexed(),
            old(self).boids@.len() < MAX_BOIDS,
            boid.on_screen(),
            boid.speed_bounded(),
        ensures
            final(self).wf(),
            final(self).indexed(),
            final(self).boids@.len() == old(self).boids@.len() + 1,
            forall|j: int|
                0 <= j < old(self).boids@.len() ==> (#[trigger] final(self).boids@[j]).boid
                    == old(self).boids@[j].boid,
            final(self).boids@.last().boid == boid,
            final(self).target == old(self).target,
            final(self).leader_idx == old(self).leader_idx,
            final(self).restrict_walls == old(self).restrict_walls,
    {
        let ghost old_cells = self.cells();
        let ghost old_boids = self.boids@;
        let i: usize = self.boids.len();
        let pos = boid.pos();
        let row: usize = (pos.y / INFLUENCE_DISTANCE) as usize;
        let col: usize = (pos.x / INFLUENCE_DISTANCE) as usize;
        let k: usize = row * LOCATION_GRID_WIDTH + col;
        assert(k < GRID_CELLS) by (nonlinear_arith)
            requires k == row * 19 + col, row < 14, col < 19;
        let ghost c = old_cells[k as int]@;
        assert(!c.contains(i)) by {
            if c.contains(i) {
                let q = choose|q: int| 0 <= q < c.len() && c[q] == i;
                assert(old_cells[k as int]@[q] < i);
            }
        }
        self.location_grid[k].push(i);
        self.boids.push(GridBoid { boid, row, col });
        let ghost n = self.boids@.len();
        assert(self.cells() == old_cells.update(k as int, self.cells()[k as int]));
        assert forall|q: int| 0 <= q < n implies {
            let gq = #[trigger] self.boids@[q];
            &&& gq.boid.on_screen()
            &&& gq.boid.speed_bounded()
            &&& gq.row < LOCATION_GRID_HEIGHT
            &&& gq.col < LOCATION_GRID_WIDTH
        } by {
            if q < i {
                assert(old_boids[q] == self.boids@[q]);
            }
        }
        assert forall|kk: int, m: int|
            0 <= kk < GRID_CELLS && 0 <= m < self.cells()[kk]@.len() implies {
                &&& (#[trigger] self.cells()[kk]@[m]) < n
                &&& cell_of_boid(self.boids@[self.cells()[kk]@[m] as int]) == kk
            } by {
            if kk == k && m == c.len() {
            } else {
                assert(self.cells()[kk]@[m] == old_cells[kk]@[m]);
                assert(old_cells[kk]@[m] < i);
                assert(cell_of_boid(old_boids[old_cells[kk]@[m] as int]) == kk);
            }
        }
        assert forall|q: int| 0 <= q < n implies (#[trigger] self.cells()[cell_of_boid(
            self.boids@[q],
        )]@).contains(q as usize) by {
            if q == i {
                assert(self.cells()[k as int]@[c.len() as int] == i);
            } else {
                assert(self.boids@[q] == old_boids[q]);
                let kq = cell_of_boid(old_boids[q]);
                assert(old_cells[kq]@.contains(q as usize));
                let w = choose|w: int| 0 <= w < old_cells[kq]@.len() && old_cells[kq]@[w] == q;
                assert(self.cells()[kq]@[w] == q);
            }
        }
        assert forall|kk: int| 0 <= kk < GRID_CELLS implies (#[trigger] self.cells()[kk]@).no_duplicates() by {
            if kk == k {
                let nc = self.cells()[kk]@;
                assert forall|a: int, b: int| 0 <= a < nc.len() && 0 <= b < nc.len() && a != b implies nc[a] != nc[b] by {
                    if a < c.len() && b < c.len() {
                        assert(c[a] != c[b]);
                    } else if a < c.len() {
                        assert(c[a] != i);
                    } else if b < c.len() {
                        assert(c[b] != i);
                    }
                }
            }
        }
        assert forall|q: int| 0 <= q < n implies {
            &&& (#[trigger] self.boids@[q]).row == row_of(self.boids@[q].boid.pos)
            &&& self.boids@[q].col == col_of(self.boids@[q].boid.pos)
        } by {
            if q < i {
                assert(old_boids[q] == self.boids@[q]);
            }
        }
    }

    /// A simulation of boids at the given positions, each at the default velocity, boid
    /// `i` of color `i % 7`; `None` when a position lies off the screen or there are more
    /// than `MAX_BOIDS` positions.
    pub fn from_positions(positions: &Vec<Vec2>) -> (r: Option<BoidsSim>)
        ensures
            r is Some <==> positions@.len() <= MAX_BOIDS && forall|i: int|
                0 <= i < positions@.len() ==> 0 <= (#[trigger] positions@[i]).x < SCREEN_WIDTH
                    && 0 <= positions@[i].y < SCREEN_HEIGHT,
            r matches Some(sim) ==> {
                &&& sim.wf()
                &&& sim.indexed()
                &&& sim.boids@.len() == positions@.len()
                &&& forall|i: int|
                    0 <= i < positions@.len() ==> {
                        let b = (#[trigger] sim.boids@[i]).boid;
                        &&& b.pos == positions@[i]
                        &&& b.speed == (Vec2 { x: 3000, y: 3000 })
                        &&& b.color == color_of_index(i as nat)
                    }
                &&& sim.target is None
                &&& sim.leader_idx is None
                &&& sim.restrict_walls
            },
    {
        if positions.len() > MAX_BOIDS {
            return None;
        }
        let mut sim = BoidsSim::empty();
        let mut i: usize = 0;
        while i < positions.len()
            invariant
                positions@.len() <= MAX_BOIDS,
                i <= positions@.len(),
                sim.wf(),
                sim.indexed(),
                sim.boids@.len() == i,
                forall|j: int|
                    0 <= j < i ==> 0 <= (#[trigger] positions@[j]).x < SCREEN_WIDTH && 0
                        <= positions@[j].y < SCREEN_HEIGHT,
                forall|j: int|
                    0 <= j < i ==> {
                        let b = (#[trigger] sim.boids@[j]).boid;
                        &&& b.pos == positions@[j]
                        &&& b.speed == (Vec2 { x: 3000, y: 3000 })
                        &&& b.color == color_of_index(j as nat)
                    },
                sim.target is None,
                sim.leader_idx is None,
                sim.restrict_walls,
            decreases positions@.len() - i,
        {
            let p = positions[i];
            if p.x < 0 || p.x >= SCREEN_WIDTH || p.y < 0 || p.y >= SCREEN_HEIGHT {
                return None;
            }
            let boid = Boid::new(p.x, p.y, boid_color(i));
            sim.add_boid(boid);
            i = i + 1;
        }
        Some(sim)
    }

    /// `BOIDS_NUM` boids at random positions at least `MARGIN` away from every wall, at
    /// the default velocity, colored in turn, with the grid that indexes them.
    fn get_random_boids() -> (r: BoidsSim)
        ensures
            r.wf(),
            r.indexed(),
            r.boids@.len() == BOIDS_NUM,
            forall|i: int|
                0 <= i < BOIDS_NUM ==> {
                    let b = (#[trigger] r.boids@[i]).boid;
                    &&& MARGIN <= b.pos.x < SCREEN_WIDTH - MARGIN
                    &&& MARGIN <= b.pos.y < SCREEN_HEIGHT - MARGIN
                    &&& b.speed == (Vec2 { x: 3000, y: 3000 })
                    &&& b.color == color_of_index(i as nat)
                },
            r.target is None,
            r.leader_idx is None,
            r.restrict_walls,
    {
        let mut sim = BoidsSim::empty();
        let mut i: usize = 0;
        while i < BOIDS_NUM
            invariant
                i <= BOIDS_NUM,
                sim.wf(),
                sim.indexed(),
                sim.boids@.len() == i,
                forall|j: int|
                    0 <= j < i ==> {
                        let b = (#[trigger] sim.boids@[j]).boid;
                        &&& MARGIN <= b.pos.x < SCREEN_WIDTH - MARGIN
                        &&& MARGIN <= b.pos.y < SCREEN_HEIGHT - MARGIN
                        &&& b.speed == (Vec2 { x: 3000, y: 3000 })
                        &&& b.color == color_of_index(j as nat)
                    },
                sim.target is None,
                sim.leader_idx is None,
                sim.restrict_walls,
            decreases BOIDS_NUM - i,
        {
            let x = rand_between(MARGIN, SCREEN_WIDTH - MARGIN);
            let y = rand_between(MARGIN, SCREEN_HEIGHT - MARGIN);
            let boid = Boid::new(x, y, boid_color(i));
            sim.add_boid(boid);
            i = i + 1;
        }
        sim
    }

    /// A simulation of `BOIDS_NUM` randomly placed boids, with no target, no leader and
    /// wall evasion on.
    pub fn new() -> (r: BoidsSim)
        ensures
            r.wf(),
            r.indexed(),
            r.boids@.len() == BOIDS_NUM,
            forall|i: int|
                0 <= i < BOIDS_NUM ==> {
                    let b = (#[trigger] r.boids@[i]).boid;
                    &&& MARGIN <= b.pos.x < SCREEN_WIDTH - MARGIN
                    &&& MARGIN <= b.pos.y < SCREEN_HEIGHT - MARGIN
                    &&& b.speed == (Vec2 { x: 3000, y: 3000 })
                    &&& b.color == color_of_index(i as nat)
                },
            r.target is None,
            r.leader_idx is None,
            r.restrict_walls,
    {
        BoidsSim::get_random_boids()
    }

    /// Sets or clears the target point.
    pub fn set_target(&mut self, target: Option<Vec2>)
        requires
            old(self).wf(),
            target matches Some(t) ==> target_in_range(t),
        ensures
            final(self).wf(),
            final(self).target == target,
            final(self).boids@ == old(self).boids@,
            final(self).location_grid@ == old(self).location_grid@,
            final(self).leader_idx == old(self).leader_idx,
            final(self).restrict_walls == old(self).restrict_walls,
    {
        self.target = target;
    }

    /// Sets or clears the leader; an index outside the boids clears it.
    pub fn set_leader(&mut self, leader: Option<usize>)
        requires
            old(self).wf(),
        ensures
            final(self).wf(),
            final(self).leader_idx == match leader {
                Some(l) => if l < old(self).boids@.len() { Some(l) } else { None },
                None => None,
            },
            final(self).boids@ == old(self).boids@,
            final(self).location_grid@ == old(self).location_grid@,
            final(self).target == old(self).target,
            final(self).restrict_walls == old(self).restrict_walls,
    {
        self.leader_idx = match leader {
            Some(l) => if l < self.boids.len() { Some(l) } else { None },
            None => None,
        };
    }

    /// Reacts to a key press: Space clears the target, W toggles wall evasion, L clears
    /// the leader if there is one and otherwise makes boid 0 the leader (when there is a
    /// boid 0); other keys change nothing.
    pub fn key_down_event(&mut self, key: SimKey)
        requires
            old(self).wf(),
        ensures
            final(self).wf(),
            final(self).boids@ == old(self).boids@,
            final(self).location_grid@ == old(self).location_grid@,
            final(self).target == if key == SimKey::Space { None } else { old(self).target },
            final(self).restrict_walls == if key == SimKey::W {
                !old(self).restrict_walls
            } else {
                old(self).restrict_walls
            },
            final(self).leader_idx == if key == SimKey::L {
                if old(self).leader_idx is Some || old(self).boids@.len() == 0 {
                    None
                } else {
                    Some(0usize)
                }
            } else {
                old(self).leader_idx
            },
    {
        match key {
            SimKey::Space => {
                self.target = None;
            },
            SimKey::W => {
                self.restrict_walls = !self.restrict_walls;
            },
            SimKey::L => {
                if self.leader_idx.is_some() || self.boids.len() == 0 {
                    self.leader_idx = None;
                } else {
                    self.leader_idx = Some(0);
                }
            },
            SimKey::Other => {},
        }
    }

    /// The direction of each boid towards the target, scaled by the target factor; all
    /// zero when no target is set.
    pub fn calc_target_directions(&self) -> (r: Vec<Vec2>)
        requires
            self.wf(),
        ensures
            r@.len() == self.boids@.len(),
            forall|i: int| 0 <= i < r@.len() ==> #[trigger] r@[i] == self.target_direction(i),
            forall|i: int| 0 <= i < r@.len() ==> dir_bounded(#[trigger] r@[i]),
    {
        let mut r: Vec<Vec2> = Vec::new();
        let mut i: usize = 0;
        while i < self.boids.len()
            invariant
                self.wf(),
                i <= self.boids@.len(),
                r@.len() == i,
                forall|j: int|
                    0 <= j < i ==> #[trigger] r@[j] == match self.target {
                        Some(t) => toward(t, self.pos(j), TARGET_DIVISOR as int),
                        None => Vec2 { x: 0, y: 0 },
                    },
                forall|j: int| 0 <= j < i ==> dir_bounded(#[trigger] r@[j]),
            decreases self.boids@.len() - i,
        {
            let d = match self.target {
                Some(t) => {
                    let p = self.boids[i].boid.pos();
                    proof {
                        lemma_trunc_div_bound(t.x - p.x, 2000, 0x100_0000_0000_0000);
                        lemma_trunc_div_bound(t.y - p.y, 2000, 0x100_0000_0000_0000);
                    }
                    t.sub(p).div_by(TARGET_DIVISOR)
                },
                None => Vec2::zero(),
            };
            r.push(d);
            i = i + 1;
        }
        r
    }

    /// The direction of each boid towards the leader, scaled by the leader factor; all
    /// zero when no leader is set. The leader's own direction is zero.
    pub fn calc_leader_directions(&self) -> (r: Vec<Vec2>)
        requires
            self.wf(),
        ensures
            r@.len() == self.boids@.len(),
            forall|i: int| 0 <= i < r@.len() ==> #[trigger] r@[i] == self.leader_direction(i),
            self.leader_idx matches Some(l) ==> r@[l as int] == (Vec2 { x: 0, y: 0 }),
            forall|i: int| 0 <= i < r@.len() ==> dir_bounded(#[trigger] r@[i]),
    {
        let mut r: Vec<Vec2> = Vec::new();
        let mut i: usize = 0;
        while i < self.boids.len()
            invariant
                self.wf(),
                i <= self.boids@.len(),
                r@.len() == i,
                forall|j: int|
                    0 <= j < i ==> #[trigger] r@[j] == match self.leader_idx {
                        Some(l) => toward(self.pos(l as int), self.pos(j), LEADER_DIVISOR as int),
                        None => Vec2 { x: 0, y: 0 },
                    },
                forall|j: int| 0 <= j < i ==> dir_bounded(#[trigger] r@[j]),
            decreases self.boids@.len() - i,
        {
            let d = match self.leader_idx {
                Some(l) => {
                    let lp = self.boids[l].boid.pos();
                    let p = self.boids[i].boid.pos();
                    proof {
                        lemma_trunc_div_bound(lp.x - p.x, 2000, 0x100_0000_0000_0000);
                        lemma_trunc_div_bound(lp.y - p.y, 2000, 0x100_0000_0000_0000);
                    }
                    lp.sub(p).div_by(LEADER_DIVISOR)
                },
                None => Vec2::zero(),
            };
            r.push(d);
            i = i + 1;
        }
        r
    }

    /// The push of each boid away from the walls it is within the margin of; all zero
    /// when wall evasion is off.
    pub fn calc_evasion_directions(&self) -> (r: Vec<Vec2>)
        requires
            self.wf(),
        ensures
            r@.len() == self.boids@.len(),
            forall|i: int| 0 <= i < r@.len() ==> #[trigger] r@[i] == self.evasion_direction(i),
            forall|i: int| 0 <= i < r@.len() ==> dir_bounded(#[trigger] r@[i]),
    {
        let mut r: Vec<Vec2> = Vec::new();
        let mut i: usize = 0;
        while i < self.boids.len()
            invariant
                i <= self.boids@.len(),
                r@.len() == i,
                forall|j: int|
                    0 <= j < i ==> #[trigger] r@[j] == if self.restrict_walls {
                        Vec2 {
                            x: evasion_axis(self.pos(j).x as int, SCREEN_WIDTH as int) as i64,
                            y: evasion_axis(self.pos(j).y as int, SCREEN_HEIGHT as int) as i64,
                        }
                    } else {
                        Vec2 { x: 0, y: 0 }
                    },
                forall|j: int| 0 <= j < i ==> dir_bounded(#[trigger] r@[j]),
            decreases self.boids@.len() - i,
        {
            let mut dir = Vec2::zero();
            if self.restrict_walls {
                let pos = self.boids[i].boid.pos();
                // Floor and ceiling:
                if pos.y < MARGIN {
                    dir.y = EVASION_FACTOR;
                } else if pos.y > SCREEN_HEIGHT - MARGIN {
                    dir.y = -EVASION_FACTOR;
                }
                // The two side walls:
                if pos.x < MARGIN {
                    dir.x = EVASION_FACTOR;
                } else if pos.x > SCREEN_WIDTH - MARGIN {
                    dir.x = -EVASION_FACTOR;
                }
            }
            r.push(dir);
            i = i + 1;
        }
        r
    }

    /// Moves the index of every boid whose position left its recorded cell to the cell it
    /// is now in, and records that cell in the boid. Positions and velocities are untouched.
    pub fn recalculate_boid_indices(&mut self)
        requires
            old(self).wf(),
        ensures
            final(self).wf(),
            final(self).indexed(),
            final(self).boids@.len() == old(self).boids@.len(),
            forall|i: int|
                0 <= i < old(self).boids@.len() ==> (#[trigger] final(self).boids@[i]).boid
                    == old(self).boids@[i].boid,
            final(self).target == old(self).target,
            final(self).leader_idx == old(self).leader_idx,
            final(self).restrict_walls == old(self).restrict_walls,
    {
        let n: usize = self.boids.len();
        let mut i: usize = 0;
        while i < n
            invariant
                self.wf(),
                n == self.boids@.len(),
                n == old(self).boids@.len(),
                i <= n,
                forall|j: int| 0 <= j < n ==> (#[trigger] self.boids@[j]).boid == old(self).boids@[j].boid,
                forall|j: int|
                    0 <= j < i ==> {
                        &&& (#[trigger] self.boids@[j]).row == row_of(self.boids@[j].boid.pos)
                        &&& self.boids@[j].col == col_of(self.boids@[j].boid.pos)
                    },
                self.target == old(self).target,
                self.leader_idx == old(self).leader_idx,
                self.restrict_walls == old(self).restrict_walls,
            decreases n - i,
        {
            let gb = self.boids[i];
            let pos = gb.boid.pos();
            let row: usize = (pos.y / INFLUENCE_DISTANCE) as usize;
            let col: usize = (pos.x / INFLUENCE_DISTANCE) as usize;
            assert(row == row_of(pos) && col == col_of(pos));
            if row != gb.row || col != gb.col {
                self.move_index(i, row, col);
            }
            assert(self.boids@[i as int].row == row_of(self.boids@[i as int].boid.pos));
            i = i + 1;
        }
    }

    /// Moves index `i` from its recorded cell to cell `(row, col)` and records the new cell.
    fn move_index(&mut self, i: usize, row: usize, col: usize)
        requires
            old(self).wf(),
            i < old(self).boids@.len(),
            row < LOCATION_GRID_HEIGHT,
            col < LOCATION_GRID_WIDTH,
            row != old(self).boids@[i as int].row || col != old(self).boids@[i as int].col,
        ensures
            final(self).wf(),
            final(self).boids@ == old(self).boids@.update(
                i as int,
                GridBoid { boid: old(self).boids@[i as int].boid, row, col },
            ),
            final(self).target == old(self).target,
            final(self).leader_idx == old(self).leader_idx,
            final(self).restrict_walls == old(self).restrict_walls,
    {
        let ghost n = self.boids@.len();
        let ghost old_cells = self.cells();
        let ghost old_boids = self.boids@;
        let gb = self.boids[i];
        let k0: usize = gb.row * LOCATION_GRID_WIDTH + gb.col;
        let k1: usize = row * LOCATION_GRID_WIDTH + col;
        assert(k0 != k1) by (nonlinear_arith)
            requires
                k0 == gb.row * 19 + gb.col,
                k1 == row * 19 + col,
                gb.col < 19,
                col < 19,
                row != gb.row || col != gb.col,
        ;
        assert(k0 < GRID_CELLS && k1 < GRID_CELLS) by (nonlinear_arith)
            requires
                k0 == gb.row * 19 + gb.col,
                k1 == row * 19 + col,
                gb.col < 19,
                col < 19,
                gb.row < 14,
                row < 14,
        ;
        assert(self.cells()[cell_of_boid(self.boids@[i as int])]@.contains(i));
        assert(cell_of_boid(self.boids@[i as int]) == k0 as int);
        assert(self.cells()[k0 as int]@.contains(i));
        // Find the index in its old cell:
        let mut m: usize = 0;
        while m < self.location_grid[k0].len() && self.location_grid[k0][m] != i
            invariant
                self.cells() == old_cells,
                k0 < GRID_CELLS,
                self.cells().len() == GRID_CELLS,
                m <= self.cells()[k0 as int]@.len(),
                forall|q: int| 0 <= q < m ==> self.cells()[k0 as int]@[q] != i,
            decreases self.cells()[k0 as int]@.len() - m,
        {
            m = m + 1;
        }
        assert(m < self.cells()[k0 as int]@.len());
        let ghost c0 = old_cells[k0 as int]@;
        let ghost c1 = old_cells[k1 as int]@;
        assert(!c1.contains(i)) by {
            if c1.contains(i) {
                let q = choose|q: int| 0 <= q < c1.len() && c1[q] == i;
                assert(old_cells[k1 as int]@[q] == i);
            }
        }
        self.location_grid[k0].remove(m);
        self.location_grid[k1].push(i);
        self.boids.set(i, GridBoid { boid: gb.boid, row, col });
        let ghost new_c0 = c0.remove(m as int);
        let ghost new_c1 = c1.push(i);
        assert(self.cells() == old_cells.update(k0 as int, self.cells()[k0 as int]).update(
            k1 as int,
            self.cells()[k1 as int],
        ));
        assert(self.cells()[k0 as int]@ == new_c0);
        assert(self.cells()[k1 as int]@ == new_c1);
        assert forall|k: int, q: int|
            0 <= k < GRID_CELLS && 0 <= q < self.cells()[k]@.len() implies {
                &&& (#[trigger] self.cells()[k]@[q]) < n
                &&& cell_of_boid(self.boids@[self.cells()[k]@[q] as int]) == k
            } by {
            if k == k0 {
                let q0 = if q < m { q } else { q + 1 };
                assert(self.cells()[k]@[q] == old_cells[k]@[q0]);
                assert(old_cells[k]@[q0] != i) by {
                    assert(old_cells[k]@[m as int] == i);
                }
            } else if k == k1 {
                if q < c1.len() {
                    assert(self.cells()[k]@[q] == old_cells[k]@[q]);
                    assert(old_cells[k]@[q] != i);
                }
            } else {
                assert(self.cells()[k]@[q] == old_cells[k]@[q]);
                if self.cells()[k]@[q] == i {
                    assert(cell_of_boid(old_boids[i as int]) == k);
                }
            }
        }
        assert forall|j: int| 0 <= j < n implies (#[trigger] self.cells()[cell_of_boid(
            self.boids@[j],
        )]@).contains(j as usize) by {
            if j == i {
                assert(self.cells()[k1 as int]@[c1.len() as int] == i);
            } else {
                let k = cell_of_boid(old_boids[j]);
                assert(old_cells[k]@.contains(j as usize));
                let q = choose|q: int| 0 <= q < old_cells[k]@.len() && old_cells[k]@[q] == j;
                if k == k0 {
                    assert(q != m);
                    let q1 = if q < m { q } else { q - 1 };
                    assert(self.cells()[k]@[q1] == j);
                } else if k == k1 {
                    assert(self.cells()[k]@[q] == j);
                } else {
                    assert(self.cells()[k]@[q] == j);
                }
            }
        }
        assert forall|k: int| 0 <= k < GRID_CELLS implies (#[trigger] self.cells()[k]@).no_duplicates() by {
            if k == k0 {
                assert forall|a: int, b: int|
                    0 <= a < new_c0.len() && 0 <= b < new_c0.len() && a != b implies new_c0[a]
                    != new_c0[b] by {
                    let a0 = if a < m { a } else { a + 1 };
                    let b0 = if b < m { b } else { b + 1 };
                    assert(c0[a0] != c0[b0]);
                }
            } else if k == k1 {
                assert forall|a: int, b: int|
                    0 <= a < new_c1.len() && 0 <= b < new_c1.len() && a != b implies new_c1[a]
                    != new_c1[b] by {
                    if a < c1.len() && b < c1.len() {
                        assert(c1[a] != c1[b]);
                    } else if a < c1.len() {
                        assert(c1[a] != i);
                    } else if b < c1.len() {
                        assert(c1[b] != i);
                    }
                }
            }
        }
        assert forall|j: int| 0 <= j < n implies {
            let gb = #[trigger] self.boids@[j];
            &&& gb.boid.on_screen()
            &&& gb.boid.speed_bounded()
            &&& gb.row < LOCATION_GRID_HEIGHT
            &&& gb.col < LOCATION_GRID_WIDTH
        } by {
            assert(old_boids[j] == old_boids[j]);
        }
    }

    /// Separation for every boid. A displacement between two boids is computed once per
    /// call and its negation reused for the reverse pair; the result is that of
    /// `separation_direction`, which computes every displacement afresh.
    pub fn calc_separation_directions(&self) -> (r: Vec<Vec2>)
        requires
            self.wf(),
        ensures
            r@.len() == self.boids@.len(),
            forall|i: int| 0 <= i < r@.len() ==> #[trigger] r@[i] == self.separation_direction(i),
            forall|i: int| 0 <= i < r@.len() ==> dir_bounded(#[trigger] r@[i]),
    {
        let mut sub_cache: HashMap<u64, Vec2> = HashMap::new();
        let mut r: Vec<Vec2> = Vec::new();
        let mut i: usize = 0;
        while i < self.boids.len()
            invariant
                self.wf(),
                i <= self.boids@.len(),
                r@.len() == i,
                cache_valid(self.boids@, sub_cache@),
                forall|j: int| 0 <= j < i ==> #[trigger] r@[j] == self.separation_direction(j),
                forall|j: int| 0 <= j < i ==> dir_bounded(#[trigger] r@[j]),
            decreases self.boids@.len() - i,
        {
            let d = self.separation_of(i, &mut sub_cache);
            r.push(d);
            i = i + 1;
        }
        r
    }

    fn separation_of(&self, i: usize, cache: &mut HashMap<u64, Vec2>) -> (r: Vec2)
        requires
            self.wf(),
            i < self.boids@.len(),
            cache_valid(self.boids@, old(cache)@),
        ensures
            cache_valid(self.boids@, final(cache)@),
            r == self.separation_direction(i as int),
            dir_bounded(r),
    {
        let ghost n = self.boids@.len();
        let this = self.boids[i];
        let p = this.boid.pos();
        let cs = run_for_neighbor_cells(this.row, this.col, LOCATION_GRID_WIDTH, LOCATION_GRID_HEIGHT);
        proof {
            lemma_neighbor_cells_in_grid(
                this.row as int,
                this.col as int,
                LOCATION_GRID_WIDTH as int,
                LOCATION_GRID_HEIGHT as int,
                0,
            );
        }
        let mut sx: i64 = 0;
        let mut sy: i64 = 0;
        let mut ci: usize = 0;
        while ci < cs.len()
            invariant
                self.wf(),
                i < n,
                n == self.boids@.len(),
                p == self.pos(i as int),
                cs@ == neighbor_cells(
                    this.row as int,
                    this.col as int,
                    LOCATION_GRID_WIDTH as int,
                    LOCATION_GRID_HEIGHT as int,
                ),
                this == self.boids@[i as int],
                forall|q: int|
                    0 <= q < cs@.len() ==> {
                        let c = #[trigger] cs@[q];
                        &&& (c.0 as int) < LOCATION_GRID_HEIGHT
                        &&& (c.1 as int) < LOCATION_GRID_WIDTH
                    },
                ci <= cs@.len(),
                cs@.len() <= 9,
                cache_valid(self.boids@, cache@),
                (sx as int, sy as int) == separation_sum(
                    self.boids@,
                    i as int,
                    cells_indices(self.cells(), cs@.take(ci as int)),
                ),
                cells_indices(self.cells(), cs@.take(ci as int)).len() <= ci * n,
                -(ci * n * 0x20_0000) <= sx <= ci * n * 0x20_0000,
                -(ci * n * 0x20_0000) <= sy <= ci * n * 0x20_0000,
            decreases cs@.len() - ci,
        {
            let (row, col) = cs[ci];
            let k: usize = row * LOCATION_GRID_WIDTH + col;
            assert(k < GRID_CELLS) by (nonlinear_arith)
                requires k == row * 19 + col, row < 14, col < 19;
            let cell = &self.location_grid[k];
            let ghost before = cells_indices(self.cells(), cs@.take(ci as int));
            proof {
                assert forall|q: int| 0 <= q < cell@.len() implies cell@[q] < n by {
                    assert(self.cells()[k as int]@[q] < n);
                }
                lemma_distinct_indices_len(cell@, n);
                assert(cs@.take(ci + 1).drop_last() =~= cs@.take(ci as int));
                assert(cells_indices(self.cells(), cs@.take(ci + 1)) == before + cell@);
            }
            let mut m: usize = 0;
            while m < cell.len()
                invariant
                    self.wf(),
                    i < n,
                    n == self.boids@.len(),
                    p == self.pos(i as int),
                    k < GRID_CELLS,
                    cell@ == self.cells()[k as int]@,
                    cell@.len() <= n,
                    m <= cell@.len(),
                    cache_valid(self.boids@, cache@),
                    (sx as int, sy as int) == separation_sum(
                        self.boids@,
                        i as int,
                        before + cell@.take(m as int),
                    ),
                    before.len() <= ci * n,
                    -(ci * n * 0x20_0000 + m * 0x20_0000) <= sx <= ci * n * 0x20_0000 + m
                        * 0x20_0000,
                    -(ci * n * 0x20_0000 + m * 0x20_0000) <= sy <= ci * n * 0x20_0000 + m
                        * 0x20_0000,
                    ci < 9,
                    n <= MAX_BOIDS,
                decreases cell@.len() - m,
            {
                let j: usize = cell[m];
                let ghost js = before + cell@.take(m as int);
                assert((before + cell@.take(m + 1)).drop_last() =~= js);
                assert(j < n) by {
                    assert(self.cells()[k as int]@[m as int] < n);
                }
                let q = self.boids[j].boid.pos();
                if j != i && p.distance_squared(q) <= STEERING_DISTANCE_SQUARED {
                    let lo: usize = if i < j { i } else { j };
                    let hi: usize = if i < j { j } else { i };
                    let key: u64 = (lo as u64) * 0x10_0000 + hi as u64;
                    let ghost expect = Vec2 {
                        x: (self.pos(hi as int).x - self.pos(lo as int).x) as i64,
                        y: (self.pos(hi as int).y - self.pos(lo as int).y) as i64,
                    };
                    assert(key == pair_key(lo as int, hi as int) as u64);
                    let d: Vec2 = match cache.get(&key) {
                        Some(v) => *v,
                        None => {
                            let v = self.boids[hi].boid.pos().sub(self.boids[lo].boid.pos());
                            let ghost before_cache = cache@;
                            cache.insert(key, v);
                            proof {
                                assert forall|lo2: int, hi2: int|
                                    0 <= lo2 < hi2 < n && cache@.contains_key(
                                        #[trigger] pair_key(lo2, hi2) as u64,
                                    ) implies cache@[pair_key(lo2, hi2) as u64] == (Vec2 {
                                    x: (self.pos(hi2).x - self.pos(lo2).x) as i64,
                                    y: (self.pos(hi2).y - self.pos(lo2).y) as i64,
                                }) by {
                                    if pair_key(lo2, hi2) as u64 == key {
                                        lemma_pair_key_injective(lo2, hi2, lo as int, hi as int);
                                    } else {
                                        assert(before_cache.contains_key(pair_key(lo2, hi2) as u64));
                                    }
                                }
                            }
                            v
                        },
                    };
                    assert(d == expect);
                    let disp = if i == hi {
                        d
                    } else {
                        Vec2::new(-d.x, -d.y)
                    };
                    assert(disp.x == p.x - q.x && disp.y == p.y - q.y);
                    assert(m * 0x20_0000 + 0x20_0000 == (m + 1) * 0x20_0000) by (nonlinear_arith);
                    assert(ci * n * 0x20_0000 + (m + 1) * 0x20_0000 <= 9 * 0x10_0000 * 0x20_0000
                        + 0x10_0000 * 0x20_0000) by (nonlinear_arith)
                        requires ci < 9, n <= 1_000_000, m < n;
                    sx = sx + disp.x;
                    sy = sy + disp.y;
                } else {
                    assert(m * 0x20_0000 + 0x20_0000 == (m + 1) * 0x20_0000) by (nonlinear_arith);
                }
                m = m + 1;
            }
            assert(cell@.take(cell@.len() as int) =~= cell@);
            assert(ci * n * 0x20_0000 + cell@.len() * 0x20_0000 <= (ci + 1) * n * 0x20_0000)
                by (nonlinear_arith)
                requires cell@.len() <= n;
            assert(ci * n + cell@.len() <= (ci + 1) * n) by (nonlinear_arith)
                requires cell@.len() <= n;
            ci = ci + 1;
        }
        assert(cs@.take(cs@.len() as int) =~= cs@);
        assert(ci * n * 0x20_0000 <= 9 * 0x10_0000 * 0x20_0000) by (nonlinear_arith)
            requires ci <= 9, n <= 1_000_000;
        proof {
            lemma_trunc_div_bound(-sx, 10, 0x100_0000_0000_0000);
            lemma_trunc_div_bound(-sy, 10, 0x100_0000_0000_0000);
        }
        Vec2::new(-sx, -sy).div_by(SEPARATION_DIVISOR)
    }

    /// Alignment for every boid.
    pub fn calc_alignment_directions(&self) -> (r: Vec<Vec2>)
        requires
            self.wf(),
        ensures
            r@.len() == self.boids@.len(),
            forall|i: int| 0 <= i < r@.len() ==> #[trigger] r@[i] == self.alignment_direction(i),
            forall|i: int| 0 <= i < r@.len() ==> dir_bounded(#[trigger] r@[i]),
    {
        let mut r: Vec<Vec2> = Vec::new();
        let mut i: usize = 0;
        while i < self.boids.len()
            invariant
                self.wf(),
                i <= self.boids@.len(),
                r@.len() == i,
                forall|j: int| 0 <= j < i ==> #[trigger] r@[j] == self.alignment_direction(j),
                forall|j: int| 0 <= j < i ==> dir_bounded(#[trigger] r@[j]),
            decreases self.boids@.len() - i,
        {
            let (sx, sy, count) = self.group_of(i, false);
            let d = self.steer_to_average(sx, sy, count, self.boids[i].boid.speed(), ALIGNMENT_DIVISOR);
            r.push(d);
            i = i + 1;
        }
        r
    }

    /// Cohesion for every boid.
    pub fn calc_cohesion_directions(&self) -> (r: Vec<Vec2>)
        requires
            self.wf(),
        ensures
            r@.len() == self.boids@.len(),
            forall|i: int| 0 <= i < r@.len() ==> #[trigger] r@[i] == self.cohesion_direction(i),
            forall|i: int| 0 <= i < r@.len() ==> dir_bounded(#[trigger] r@[i]),
    {
        let mut r: Vec<Vec2> = Vec::new();
        let mut i: usize = 0;
        while i < self.boids.len()
            invariant
                self.wf(),
                i <= self.boids@.len(),
                r@.len() == i,
                forall|j: int| 0 <= j < i ==> #[trigger] r@[j] == self.cohesion_direction(j),
                forall|j: int| 0 <= j < i ==> dir_bounded(#[trigger] r@[j]),
            decreases self.boids@.len() - i,
        {
            let (sx, sy, count) = self.group_of(i, true);
            let d = self.steer_to_average(sx, sy, count, self.boids[i].boid.pos(), COHESION_DIVISOR);
            r.push(d);
            i = i + 1;
        }
        r
    }

    fn steer_to_average(&self, sx: i64, sy: i64, count: usize, own: Vec2, divisor: i64) -> (r: Vec2)
        requires
            divisor > 0,
            -0x40_0000_0000_0000 <= sx <= 0x40_0000_0000_0000,
            -0x40_0000_0000_0000 <= sy <= 0x40_0000_0000_0000,
            -0x20_0000 <= own.x <= 0x20_0000,
            -0x20_0000 <= own.y <= 0x20_0000,
            count <= 0x1000_0000,
        ensures
            r == group_direction((sx as int, sy as int, count as int), own, divisor as int),
            dir_bounded(r),
    {
        if count <= 1 {
            Vec2::zero()
        } else {
            let c: i64 = count as i64;
            let ax = crate::vec2::div_toward_zero(sx, c);
            let ay = crate::vec2::div_toward_zero(sy, c);
            assert(-0x40_0000_0000_0000 <= ax <= 0x40_0000_0000_0000) by (nonlinear_arith)
                requires
                    ax == trunc_div(sx as int, c as int),
                    c >= 2,
                    -0x40_0000_0000_0000 <= sx <= 0x40_0000_0000_0000,
            ;
            assert(-0x40_0000_0000_0000 <= ay <= 0x40_0000_0000_0000) by (nonlinear_arith)
                requires
                    ay == trunc_div(sy as int, c as int),
                    c >= 2,
                    -0x40_0000_0000_0000 <= sy <= 0x40_0000_0000_0000,
            ;
            proof {
                lemma_trunc_div_bound(ax - own.x, divisor as int, 0x100_0000_0000_0000);
                lemma_trunc_div_bound(ay - own.y, divisor as int, 0x100_0000_0000_0000);
            }
            Vec2::new(ax, ay).sub(own).div_by(divisor)
        }
    }

    /// Sum of `member_value` and count over boid `i`'s group of its neighborhood.
    fn group_of(&self, i: usize, of_pos: bool) -> (r: (i64, i64, usize))
        requires
            self.wf(),
            i < self.boids@.len(),
        ensures
            (r.0 as int, r.1 as int, r.2 as int) == group_sum(
                self.boids@,
                i as int,
                self.neighborhood(i as int),
                of_pos,
            ),
            -0x40_0000_0000_0000 <= r.0 <= 0x40_0000_0000_0000,
            -0x40_0000_0000_0000 <= r.1 <= 0x40_0000_0000_0000,
            r.2 <= 0x1000_0000,
    {
        let ghost n = self.boids@.len();
        let this = self.boids[i];
        let p = this.boid.pos();
        let cs = run_for_neighbor_cells(this.row, this.col, LOCATION_GRID_WIDTH, LOCATION_GRID_HEIGHT);
        proof {
            lemma_neighbor_cells_in_grid(
                this.row as int,
                this.col as int,
                LOCATION_GRID_WIDTH as int,
                LOCATION_GRID_HEIGHT as int,
                0,
            );
        }
        let mut sx: i64 = 0;
        let mut sy: i64 = 0;
        let mut count: usize = 0;
        let mut ci: usize = 0;
        while ci < cs.len()
            invariant
                self.wf(),
                i < n,
                n == self.boids@.len(),
                p == self.pos(i as int),
                cs@ == neighbor_cells(
                    this.row as int,
                    this.col as int,
                    LOCATION_GRID_WIDTH as int,
                    LOCATION_GRID_HEIGHT as int,
                ),
                this == self.boids@[i as int],
                forall|q: int|
                    0 <= q < cs@.len() ==> {
                        let c = #[trigger] cs@[q];
                        &&& (c.0 as int) < LOCATION_GRID_HEIGHT
                        &&& (c.1 as int) < LOCATION_GRID_WIDTH
                    },
                ci <= cs@.len(),
                cs@.len() <= 9,
                (sx as int, sy as int, count as int) == group_sum(
                    self.boids@,
                    i as int,
                    cells_indices(self.cells(), cs@.take(ci as int)),
                    of_pos,
                ),
                count <= ci * n,
                -(ci * n * 0x20_0000) <= sx <= ci * n * 0x20_0000,
                -(ci * n * 0x20_0000) <= sy <= ci * n * 0x20_0000,
            decreases cs@.len() - ci,
        {
            let (row, col) = cs[ci];
            let k: usize = row * LOCATION_GRID_WIDTH + col;
            assert(k < GRID_CELLS) by (nonlinear_arith)
                requires k == row * 19 + col, row < 14, col < 19;
            let cell = &self.location_grid[k];
            let ghost before = cells_indices(self.cells(), cs@.take(ci as int));
            proof {
                assert forall|q: int| 0 <= q < cell@.len() implies cell@[q] < n by {
                    assert(self.cells()[k as int]@[q] < n);
                }
                lemma_distinct_indices_len(cell@, n);
                assert(cs@.take(ci + 1).drop_last() =~= cs@.take(ci as int));
                assert(cells_indices(self.cells(), cs@.take(ci + 1)) == before + cell@);
            }
            let mut m: usize = 0;
            while m < cell.len()
                invariant
                    self.wf(),
                    i < n,
                    n == self.boids@.len(),
                    p == self.pos(i as int),
                    this == self.boids@[i as int],
                    k < GRID_CELLS,
                    cell@ == self.cells()[k as int]@,
                    cell@.len() <= n,
                    m <= cell@.len(),
                    (sx as int, sy as int, count as int) == group_sum(
                        self.boids@,
                        i as int,
                        before + cell@.take(m as int),
                        of_pos,
                    ),
                    count <= ci * n + m,
                    -(ci * n * 0x20_0000 + m * 0x20_0000) <= sx <= ci * n * 0x20_0000 + m
                        * 0x20_0000,
                    -(ci * n * 0x20_0000 + m * 0x20_0000) <= sy <= ci * n * 0x20_0000 + m
                        * 0x20_0000,
                    ci < 9,
                    n <= MAX_BOIDS,
                decreases cell@.len() - m,
            {
                let j: usize = cell[m];
                let ghost js = before + cell@.take(m as int);
                assert((before + cell@.take(m + 1)).drop_last() =~= js);
                assert(j < n) by {
                    assert(self.cells()[k as int]@[m as int] < n);
                }
                let other = self.boids[j];
                assert(m * 0x20_0000 + 0x20_0000 == (m + 1) * 0x20_0000) by (nonlinear_arith);
                if p.distance_squared(other.boid.pos()) <= INFLUENCE_DISTANCE_SQUARED
                    && other.boid.color() == this.boid.color() {
                    let v = if of_pos {
                        other.boid.pos()
                    } else {
                        other.boid.speed()
                    };
                    assert(ci * n * 0x20_0000 + (m + 1) * 0x20_0000 <= 9 * 0x10_0000 * 0x20_0000
                        + 0x10_0000 * 0x20_0000) by (nonlinear_arith)
                        requires ci < 9, n <= 1_000_000, m < n;
                    assert(ci * n + m + 1 <= 10 * 0x10_0000) by (nonlinear_arith)
                        requires ci < 9, n <= 1_000_000, m < n;
                    sx = sx + v.x;
                    sy = sy + v.y;
                    count = count + 1;
                }
                m = m + 1;
            }
            assert(cell@.take(cell@.len() as int) =~= cell@);
            assert(ci * n * 0x20_0000 + cell@.len() * 0x20_0000 <= (ci + 1) * n * 0x20_0000)
                by (nonlinear_arith)
                requires cell@.len() <= n;
            assert(ci * n + cell@.len() <= (ci + 1) * n) by (nonlinear_arith)
                requires cell@.len() <= n;
            ci = ci + 1;
        }
        assert(cs@.take(cs@.len() as int) =~= cs@);
        assert(ci * n * 0x20_0000 <= 9 * 0x10_0000 * 0x20_0000) by (nonlinear_arith)
            requires ci <= 9, n <= 1_000_000;
        assert(ci * n <= 9 * 0x10_0000) by (nonlinear_arith)
            requires ci <= 9, n <= 1_000_000;
        (sx, sy, count)
    }

    /// Steers every boid by the sum of its six rule directions, all computed from the
    /// same state before any velocity changes. Positions and the grid are untouched.
    pub fn update_boids_directions(&mut self)
        requires
            old(self).wf(),
        ensures
            final(self).wf(),
            final(self).location_grid@ == old(self).location_grid@,
            final(self).boids@.len() == old(self).boids@.len(),
            forall|i: int|
                0 <= i < old(self).boids@.len() ==> {
                    let b = (#[trigger] old(self).boids@[i]).boid;
                    let f = final(self).boids@[i];
                    &&& exists|s: int|
                        is_isqrt(len_sq(clamped(b.speed, old(self).total_direction(i))), s)
                            && f.boid.speed == steered(b.speed, old(self).total_direction(i), s)
                    &&& f.boid.pos == b.pos
                    &&& f.boid.color == b.color
                    &&& f.row == old(self).boids@[i].row
                    &&& f.col == old(self).boids@[i].col
                },
            final(self).target == old(self).target,
            final(self).leader_idx == old(self).leader_idx,
            final(self).restrict_walls == old(self).restrict_walls,
    {
        // Each rule reads the same snapshot of the boids:
        let sep = self.calc_separation_directions();
        let align = self.calc_alignment_directions();
        let coh = self.calc_cohesion_directions();
        let eva = self.calc_evasion_directions();
        let target = self.calc_target_directions();
        let leader = self.calc_leader_directions();
        let ok = self.apply_rule_directions(&sep, &align, &coh, &eva, &target, &leader);
        assert forall|i: int| 0 <= i < old(self).boids@.len() implies old(self).total_direction(i)
            == sum6(sep@[i], align@[i], coh@[i], eva@[i], target@[i], leader@[i]) by {
            assert(sep@[i] == old(self).separation_direction(i));
        }
        assert forall|i: int| 0 <= i < old(self).boids@.len() implies {
            let b = (#[trigger] old(self).boids@[i]).boid;
            let f = self.boids@[i];
            &&& exists|s: int|
                is_isqrt(len_sq(clamped(b.speed, old(self).total_direction(i))), s)
                    && f.boid.speed == steered(b.speed, old(self).total_direction(i), s)
            &&& f.boid.pos == b.pos
            &&& f.boid.color == b.color
            &&& f.row == old(self).boids@[i].row
            &&& f.col == old(self).boids@[i].col
        } by {
            assert(old(self).total_direction(i) == sum6(
                sep@[i],
                align@[i],
                coh@[i],
                eva@[i],
                target@[i],
                leader@[i],
            ));
        }
    }

    /// Steers every boid by the sum of its entries in the six rule direction lists, as
    /// `add_dir` does, and returns `true`; when a list does not hold one direction per
    /// boid, or a direction lies outside `dir_bounded`, returns `false` and changes nothing.
    pub fn apply_rule_directions(
        &mut self,
        sep: &Vec<Vec2>,
        align: &Vec<Vec2>,
        coh: &Vec<Vec2>,
        eva: &Vec<Vec2>,
        target: &Vec<Vec2>,
        leader: &Vec<Vec2>,
    ) -> (ok: bool)
        requires
            old(self).wf(),
        ensures
            ok == rules_fit(old(self).boids@.len() as int, sep@, align@, coh@, eva@, target@, leader@),
            !ok ==> *final(self) == *old(self),
            final(self).wf(),
            final(self).location_grid@ == old(self).location_grid@,
            final(self).boids@.len() == old(self).boids@.len(),
            ok ==> forall|i: int|
                0 <= i < old(self).boids@.len() ==> {
                    let b = (#[trigger] old(self).boids@[i]).boid;
                    let f = final(self).boids@[i];
                    let d = sum6(sep@[i], align@[i], coh@[i], eva@[i], target@[i], leader@[i]);
                    &&& exists|s: int|
                        is_isqrt(len_sq(clamped(b.speed, d)), s) && f.boid.speed == steered(b.speed, d, s)
                    &&& f.boid.pos == b.pos
                    &&& f.boid.color == b.color
                    &&& f.row == old(self).boids@[i].row
                    &&& f.col == old(self).boids@[i].col
                },
            final(self).target == old(self).target,
            final(self).leader_idx == old(self).leader_idx,
            final(self).restrict_walls == old(self).restrict_walls,
    {
        let n: usize = self.boids.len();
        if sep.len() != n || align.len() != n || coh.len() != n || eva.len() != n || target.len()
            != n || leader.len() != n {
            return false;
        }
        let mut q: usize = 0;
        while q < n
            invariant
                *self == *old(self),
                self.wf(),
                n == old(self).boids@.len(),
                q <= n,
                sep@.len() == n && align@.len() == n && coh@.len() == n,
                eva@.len() == n && target@.len() == n && leader@.len() == n,
                forall|j: int|
                    0 <= j < q ==> {
                        &&& dir_bounded(#[trigger] sep@[j]) && dir_bounded(align@[j])
                        &&& dir_bounded(coh@[j]) && dir_bounded(eva@[j])
                        &&& dir_bounded(target@[j]) && dir_bounded(leader@[j])
                    },
            decreases n - q,
        {
            if !(within_dir_bound(sep[q]) && within_dir_bound(align[q]) && within_dir_bound(coh[q])
                && within_dir_bound(eva[q]) && within_dir_bound(target[q]) && within_dir_bound(
                leader[q],
            )) {
                return false;
            }
            assert(dir_bounded(sep@[q as int]) && dir_bounded(align@[q as int]) && dir_bounded(
                coh@[q as int],
            ) && dir_bounded(eva@[q as int]) && dir_bounded(target@[q as int]) && dir_bounded(
                leader@[q as int],
            ));
            assert forall|j: int| 0 <= j < q + 1 implies {
                &&& dir_bounded(#[trigger] sep@[j]) && dir_bounded(align@[j])
                &&& dir_bounded(coh@[j]) && dir_bounded(eva@[j])
                &&& dir_bounded(target@[j]) && dir_bounded(leader@[j])
            } by {
                if j == q {
                } else {
                    assert(j < q);
                }
            }
            q = q + 1;
        }
        let mut i: usize = 0;
        while i < n
            invariant
                self.wf(),
                n == self.boids@.len(),
                n == old(self).boids@.len(),
                i <= n,
                sep@.len() == n && align@.len() == n && coh@.len() == n,
                eva@.len() == n && target@.len() == n && leader@.len() == n,
                forall|j: int|
                    0 <= j < n ==> {
                        &&& dir_bounded(#[trigger] sep@[j]) && dir_bounded(align@[j])
                        &&& dir_bounded(coh@[j]) && dir_bounded(eva@[j])
                        &&& dir_bounded(target@[j]) && dir_bounded(leader@[j])
                    },
                self.location_grid@ == old(self).location_grid@,
                forall|j: int|
                    0 <= j < n ==> {
                        let b = (#[trigger] old(self).boids@[j]).boid;
                        let f = self.boids@[j];
                        let d = sum6(sep@[j], align@[j], coh@[j], eva@[j], target@[j], leader@[j]);
                        &&& j < i ==> exists|s: int|
                            is_isqrt(len_sq(clamped(b.speed, d)), s) && f.boid.speed == steered(b.speed, d, s)
                        &&& j >= i ==> f.boid.speed == b.speed
                        &&& f.boid.pos == b.pos
                        &&& f.boid.color == b.color
                        &&& f.row == old(self).boids@[j].row
                        &&& f.col == old(self).boids@[j].col
                    },
                self.target == old(self).target,
                self.leader_idx == old(self).leader_idx,
                self.restrict_walls == old(self).restrict_walls,
            decreases n - i,
        {
            let ghost j = i as int;
            assert(dir_bounded(sep@[j]));
            let d = sep[i].add(align[i]).add(coh[i]).add(eva[i]).add(target[i]).add(leader[i]);
            assert(d == sum6(sep@[j], align@[j], coh@[j], eva@[j], target@[j], leader@[j]));
            let mut gb = self.boids[i];
            gb.boid.add_dir(d);
            let ghost before = *self;
            self.boids.set(i, gb);
            proof {
                lemma_wf_after_moving_in_place(before, *self, i as int);
            }
            i = i + 1;
        }
        true
    }

    /// Moves every boid by its velocity, wrapping around the screen. Velocities, colors
    /// and the grid are untouched.
    pub fn advance_boids(&mut self)
        requires
            old(self).wf(),
        ensures
            final(self).wf(),
            final(self).location_grid@ == old(self).location_grid@,
            final(self).boids@.len() == old(self).boids@.len(),
            forall|j: int|
                0 <= j < old(self).boids@.len() ==> {
                    let f = #[trigger] final(self).boids@[j];
                    let s = old(self).boids@[j];
                    &&& f.boid.speed == s.boid.speed
                    &&& f.boid.color == s.boid.color
                    &&& f.row == s.row
                    &&& f.col == s.col
                    &&& f.boid.pos.x == (s.boid.pos.x + f.boid.speed.x) % (SCREEN_WIDTH as int)
                    &&& f.boid.pos.y == (s.boid.pos.y + f.boid.speed.y) % (SCREEN_HEIGHT as int)
                },
            final(self).target == old(self).target,
            final(self).leader_idx == old(self).leader_idx,
            final(self).restrict_walls == old(self).restrict_walls,
    {
        let n: usize = self.boids.len();
        let mut i: usize = 0;
        while i < n
            invariant
                self.wf(),
                n == self.boids@.len(),
                n == old(self).boids@.len(),
                i <= n,
                self.location_grid@ == old(self).location_grid@,
                forall|j: int|
                    0 <= j < n ==> {
                        let f = #[trigger] self.boids@[j];
                        let s = old(self).boids@[j];
                        &&& f.boid.speed == s.boid.speed
                        &&& f.boid.color == s.boid.color
                        &&& f.row == s.row
                        &&& f.col == s.col
                        &&& j >= i ==> f.boid.pos == s.boid.pos
                        &&& j < i ==> f.boid.pos.x == (s.boid.pos.x + f.boid.speed.x) % (
                        SCREEN_WIDTH as int)
                        &&& j < i ==> f.boid.pos.y == (s.boid.pos.y + f.boid.speed.y) % (
                        SCREEN_HEIGHT as int)
                    },
                self.target == old(self).target,
                self.leader_idx == old(self).leader_idx,
                self.restrict_walls == old(self).restrict_walls,
            decreases n - i,
        {
            let mut gb = self.boids[i];
            gb.boid.go_forward();
            let ghost before = *self;
            self.boids.set(i, gb);
            proof {
                lemma_wf_after_moving_in_place(before, *self, i as int);
            }
            i = i + 1;
        }
    }

    /// One tick: re-index the grid, steer every boid by its rule directions, then move it.
    pub fn update_boids(&mut self)
        requires
            old(self).wf(),
        ensures
            final(self).wf(),
            final(self).boids@.len() == old(self).boids@.len(),
            exists|mid: BoidsSim|
                {
                    &&& mid.wf()
                    &&& mid.indexed()
                    &&& mid.boids@.len() == old(self).boids@.len()
                    &&& forall|i: int|
                        0 <= i < mid.boids@.len() ==> (#[trigger] mid.boids@[i]).boid
                            == old(self).boids@[i].boid
                    &&& mid.target == old(self).target
                    &&& mid.leader_idx == old(self).leader_idx
                    &&& mid.restrict_walls == old(self).restrict_walls
                    &&& BoidsSim::stepped(mid, *final(self))
                },
            final(self).target == old(self).target,
            final(self).leader_idx == old(self).leader_idx,
            final(self).restrict_walls == old(self).restrict_walls,
    {
        self.recalculate_boid_indices();
        let ghost mid = *self;
        self.update_boids_directions();
        let ghost steered_state = *self;
        self.advance_boids();
        assert forall|i: int| 0 <= i < mid.boids@.len() implies {
            let b = (#[trigger] mid.boids@[i]).boid;
            let f = self.boids@[i].boid;
            &&& exists|s: int|
                is_isqrt(len_sq(clamped(b.speed, mid.total_direction(i))), s) && f.speed
                    == steered(b.speed, mid.total_direction(i), s)
            &&& f.pos.x == (b.pos.x + f.speed.x) % (SCREEN_WIDTH as int)
            &&& f.pos.y == (b.pos.y + f.speed.y) % (SCREEN_HEIGHT as int)
            &&& f.color == b.color
        } by {
            assert(steered_state.boids@[i].boid.pos == mid.boids@[i].boid.pos);
        }
        assert(BoidsSim::stepped(mid, *self));
    }
}

/// Changing one boid's position or velocity, but not its recorded cell, keeps a state well
/// formed as long as the boid stays on screen with a bounded velocity.
proof fn lemma_wf_after_moving_in_place(before: BoidsSim, after: BoidsSim, i: int)
    requires
        before.wf(),
        0 <= i < before.boids@.len(),
        after.location_grid@ == before.location_grid@,
        after.boids@ == before.boids@.update(i, after.boids@[i]),
        after.boids@[i].row == before.boids@[i].row,
        after.boids@[i].col == before.boids@[i].col,
        after.boids@[i].boid.on_screen(),
        after.boids@[i].boid.speed_bounded(),
        after.target == before.target,
        after.leader_idx == before.leader_idx,
    ensures
        after.wf(),
{
    let n = before.boids@.len();
    assert forall|q: int| 0 <= q < n implies cell_of_boid(#[trigger] after.boids@[q]) == cell_of_boid(
        before.boids@[q],
    ) by {
        if q != i {
            assert(after.boids@[q] == before.boids@[q]);
        }
    }
    assert forall|q: int| 0 <= q < n implies {
        let gq = #[trigger] after.boids@[q];
        &&& gq.boid.on_screen()
        &&& gq.boid.speed_bounded()
        &&& gq.row < LOCATION_GRID_HEIGHT
        &&& gq.col < LOCATION_GRID_WIDTH
    } by {
        if q != i {
            assert(after.boids@[q] == before.boids@[q]);
        }
    }
    assert forall|k: int, m: int|
        0 <= k < GRID_CELLS && 0 <= m < after.cells()[k]@.len() implies {
            &&& (#[trigger] after.cells()[k]@[m]) < n
            &&& cell_of_boid(after.boids@[after.cells()[k]@[m] as int]) == k
        } by {
        assert(cell_of_boid(before.boids@[before.cells()[k]@[m] as int]) == k);
        assert(cell_of_boid(after.boids@[after.cells()[k]@[m] as int]) == cell_of_boid(
            before.boids@[after.cells()[k]@[m] as int],
        ));
    }
    assert forall|q: int| 0 <= q < n implies (#[trigger] after.cells()[cell_of_boid(
        after.boids@[q],
    )]@).contains(q as usize) by {
        assert(cell_of_boid(after.boids@[q]) == cell_of_boid(before.boids@[q]));
        assert(before.cells()[cell_of_boid(before.boids@[q])]@.contains(q as usize));
    }
}

/// In a well-formed state a cell holds exactly the indices of the boids recorded in it.
pub proof fn lemma_cell_contents(sim: BoidsSim, k: int, j: usize)
    requires
        sim.wf(),
        0 <= k < GRID_CELLS,
    ensures
        sim.cells()[k]@.contains(j) <==> (j < sim.boids@.len() && cell_of_boid(sim.boids@[j as int])
            == k),
{
    if sim.cells()[k]@.contains(j) {
        let m = choose|m: int| 0 <= m < sim.cells()[k]@.len() && sim.cells()[k]@[m] == j;
        assert(sim.cells()[k]@[m] < sim.boids@.len());
    }
    if j < sim.boids@.len() && cell_of_boid(sim.boids@[j as int]) == k {
        assert(sim.cells()[cell_of_boid(sim.boids@[j as int])]@.contains(j));
    }
}

/// Moving one boid from cell `c0` to cell `c1` while every other boid keeps its cell takes
/// its index out of `c0`, puts it into `c1`, and leaves every other cell holding the same
/// indices.
pub proof fn reindex_moves_only_the_moved_index(
    before: BoidsSim,
    after: BoidsSim,
    a: usize,
    c0: int,
    c1: int,
)
    requires
        before.wf(),
        after.wf(),
        after.boids@.len() == before.boids@.len(),
        a < before.boids@.len(),
        cell_of_boid(before.boids@[a as int]) == c0,
        cell_of_boid(after.boids@[a as int]) == c1,
        c0 != c1,
        forall|j: int|
            0 <= j < before.boids@.len() && j != a ==> cell_of_boid(#[trigger] after.boids@[j])
                == cell_of_boid(before.boids@[j]),
    ensures
        after.cells()[c0]@.to_set() == before.cells()[c0]@.to_set().remove(a),
        after.cells()[c1]@.to_set() == before.cells()[c1]@.to_set().insert(a),
        forall|k: int|
            0 <= k < GRID_CELLS && k != c0 && k != c1 ==> (#[trigger] after.cells()[k])@.to_set()
                == before.cells()[k]@.to_set(),
{
    assert(0 <= c0 < GRID_CELLS && 0 <= c1 < GRID_CELLS) by {
        assert(before.cells()[cell_of_boid(before.boids@[a as int])]@.contains(a));
        assert(after.cells()[cell_of_boid(after.boids@[a as int])]@.contains(a));
        let m0 = choose|m: int| 0 <= m < before.cells()[c0]@.len() && before.cells()[c0]@[m] == a;
        let m1 = choose|m: int| 0 <= m < after.cells()[c1]@.len() && after.cells()[c1]@[m] == a;
    }
    assert forall|k: int| 0 <= k < GRID_CELLS implies {
        &&& k == c0 ==> (#[trigger] after.cells()[k])@.to_set() == before.cells()[k]@.to_set().remove(a)
        &&& k == c1 ==> after.cells()[k]@.to_set() == before.cells()[k]@.to_set().insert(a)
        &&& (k != c0 && k != c1) ==> after.cells()[k]@.to_set() == before.cells()[k]@.to_set()
    } by {
        assert forall|j: usize| true implies {
            &&& after.cells()[k]@.contains(j) <==> (j < after.boids@.len() && cell_of_boid(after.boids@[j as int]) == k)
            &&& before.cells()[k]@.contains(j) <==> (j < before.boids@.len() && cell_of_boid(before.boids@[j as int]) == k)
        } by {
            lemma_cell_contents(after, k, j);
            lemma_cell_contents(before, k, j);
        }
        if k == c0 {
            assert(after.cells()[k]@.to_set() =~= before.cells()[k]@.to_set().remove(a));
        } else if k == c1 {
            assert(after.cells()[k]@.to_set() =~= before.cells()[k]@.to_set().insert(a));
        } else {
            assert(after.cells()[k]@.to_set() =~= before.cells()[k]@.to_set());
        }
    }
}

/// How many times `v` occurs in `s`.
pub open spec fn occurrences(s: Seq<usize>, v: usize) -> nat
    decreases s.len(),
{
    if s.len() == 0 {
        0
    } else {
        occurrences(s.drop_last(), v) + if s.last() == v {
            1nat
        } else {
            0nat
        }
    }
}

/// How many of the cells `cs` are the cell with index `k`.
pub open spec fn cell_hits(cs: Seq<(usize, usize)>, k: int) -> nat
    decreases cs.len(),
{
    if cs.len() == 0 {
        0
    } else {
        cell_hits(cs.drop_last(), k) + if cell_index(cs.last().0 as int, cs.last().1 as int) == k {
            1nat
        } else {
            0nat
        }
    }
}

proof fn lemma_occurrences_append(a: Seq<usize>, b: Seq<usize>, v: usize)
    ensures
        occurrences(a + b, v) == occurrences(a, v) + occurrences(b, v),
    decreases b.len(),
{
    if b.len() == 0 {
        assert(a + b =~= a);
    } else {
        assert((a + b).drop_last() =~= a + b.drop_last());
        lemma_occurrences_append(a, b.drop_last(), v);
    }
}

proof fn lemma_occurrences_bound(s: Seq<usize>, v: usize)
    requires
        s.no_duplicates(),
    ensures
        occurrences(s, v) <= 1,
        !s.contains(v) ==> occurrences(s, v) == 0,
    decreases s.len(),
{
    if s.len() > 0 {
        let t = s.drop_last();
        assert(t.no_duplicates()) by {
            assert forall|a: int, b: int| 0 <= a < t.len() && 0 <= b < t.len() && a != b implies t[a] != t[b] by {
                assert(s[a] != s[b]);
            }
        }
        lemma_occurrences_bound(t, v);
        if s.last() == v {
            assert(!t.contains(v)) by {
                if t.contains(v) {
                    let q = choose|q: int| 0 <= q < t.len() && t[q] == v;
                    assert(s[q] == s[s.len() - 1]);
                }
            }
        }
        if !s.contains(v) {
            assert(!t.contains(v)) by {
                if t.contains(v) {
                    let q = choose|q: int| 0 <= q < t.len() && t[q] == v;
                    assert(s[q] == v);
                }
            }
        }
    }
}

/// Index `i` occurs in the indices of cells `cs` at most as often as its own cell is
/// among them.
proof fn lemma_occurrences_in_cells(sim: BoidsSim, cs: Seq<(usize, usize)>, i: int)
    requires
        sim.wf(),
        0 <= i < sim.boids@.len(),
        forall|q: int|
            0 <= q < cs.len() ==> ((#[trigger] cs[q]).0 as int) < LOCATION_GRID_HEIGHT && (
            cs[q].1 as int) < LOCATION_GRID_WIDTH,
    ensures
        occurrences(cells_indices(sim.cells(), cs), i as usize) <= cell_hits(
            cs,
            cell_of_boid(sim.boids@[i]),
        ),
    decreases cs.len(),
{
    if cs.len() > 0 {
        let c = cs.last();
        let k = cell_index(c.0 as int, c.1 as int);
        assert(0 <= k < GRID_CELLS) by (nonlinear_arith)
            requires k == c.0 * 19 + c.1, c.0 < 14, c.1 < 19;
        lemma_occurrences_in_cells(sim, cs.drop_last(), i);
        lemma_occurrences_append(
            cells_indices(sim.cells(), cs.drop_last()),
            sim.cells()[k]@,
            i as usize,
        );
        lemma_occurrences_bound(sim.cells()[k]@, i as usize);
        lemma_cell_contents(sim, k, i as usize);
    }
}

/// The offset of the `k`-th cell of a 3x3 block from its top-left cell, in cell indices.
pub open spec fn block_offset(k: int) -> int {
    (k / 3) * LOCATION_GRID_WIDTH + k % 3
}

/// The cells of a neighborhood come in strictly increasing cell index.
proof fn lemma_neighbor_cells_sorted(row: int, col: int, k: int)
    requires
        0 <= k <= 9,
    ensures
        forall|q: int|
            0 <= q < neighbor_cells_from(row, col, 19, 14, k).len() ==> cell_index(
                (#[trigger] neighbor_cells_from(row, col, 19, 14, k)[q]).0 as int,
                neighbor_cells_from(row, col, 19, 14, k)[q].1 as int,
            ) >= cell_index(row - 1, col - 1) + block_offset(k),
        forall|a: int, b: int|
            0 <= a < b < neighbor_cells_from(row, col, 19, 14, k).len() ==> cell_index(
                (#[trigger] neighbor_cells_from(row, col, 19, 14, k)[a]).0 as int,
                neighbor_cells_from(row, col, 19, 14, k)[a].1 as int,
            ) < cell_index(
                (#[trigger] neighbor_cells_from(row, col, 19, 14, k)[b]).0 as int,
                neighbor_cells_from(row, col, 19, 14, k)[b].1 as int,
            ),
    decreases 9 - k,
{
    if k < 9 {
        lemma_neighbor_cells_sorted(row, col, k + 1);
        assert(k == 0 || k == 1 || k == 2 || k == 3 || k == 4 || k == 5 || k == 6 || k == 7 || k == 8);
        assert(block_offset(k + 1) > block_offset(k));
        let a0 = row + k / 3 - 1;
        let b0 = col + k % 3 - 1;
        assert(cell_index(a0, b0) == cell_index(row - 1, col - 1) + block_offset(k));
        let nc = neighbor_cells_from(row, col, 19, 14, k);
        let rest = neighbor_cells_from(row, col, 19, 14, k + 1);
        if 0 <= a0 < 14 && 0 <= b0 < 19 {
            let x = (a0 as usize, b0 as usize);
            assert(nc == seq![x] + rest);
            assert(cell_index(x.0 as int, x.1 as int) == cell_index(a0, b0));
            assert forall|q: int| 0 <= q < nc.len() implies cell_index(
                (#[trigger] nc[q]).0 as int,
                nc[q].1 as int,
            ) >= cell_index(row - 1, col - 1) + block_offset(k) by {
                if q > 0 {
                    assert(nc[q] == rest[q - 1]);
                }
            }
            assert forall|a: int, b: int| 0 <= a < b < nc.len() implies cell_index(
                (#[trigger] nc[a]).0 as int,
                nc[a].1 as int,
            ) < cell_index((#[trigger] nc[b]).0 as int, nc[b].1 as int) by {
                assert(nc[b] == rest[b - 1]);
                if a > 0 {
                    assert(nc[a] == rest[a - 1]);
                }
            }
        } else {
            assert(nc == rest);
        }
    }
}

proof fn lemma_hits_sorted(cs: Seq<(usize, usize)>, k: int)
    requires
        forall|a: int, b: int|
            0 <= a < b < cs.len() ==> cell_index((#[trigger] cs[a]).0 as int, cs[a].1 as int)
                < cell_index((#[trigger] cs[b]).0 as int, cs[b].1 as int),
    ensures
        cell_hits(cs, k) <= 1,
        (forall|q: int| 0 <= q < cs.len() ==> cell_index((#[trigger] cs[q]).0 as int, cs[q].1 as int) < k)
            ==> cell_hits(cs, k) == 0,
    decreases cs.len(),
{
    if cs.len() > 0 {
        let t = cs.drop_last();
        lemma_hits_sorted(t, k);
        let last = cs.last();
        if cell_index(last.0 as int, last.1 as int) == k {
            assert forall|q: int| 0 <= q < t.len() implies cell_index((#[trigger] t[q]).0 as int, t[q].1 as int) < k by {
                assert(cs[q] == t[q]);
                assert(cs[cs.len() - 1] == last);
            }
        }
    }
}

/// A boid with no other boid of its color within the influence distance has zero
/// alignment and zero cohesion.
pub proof fn isolated_boid_has_no_group_pull(sim: BoidsSim, i: int)
    requires
        sim.wf(),
        0 <= i < sim.boids@.len(),
        forall|j: int|
            0 <= j < sim.boids@.len() && j != i ==> !(dist_sq(
                sim.boids@[i].boid.pos,
                #[trigger] sim.boids@[j].boid.pos,
            ) <= INFLUENCE_DISTANCE_SQUARED && sim.boids@[j].boid.color == sim.boids@[i].boid.color),
    ensures
        sim.alignment_direction(i) == (Vec2 { x: 0, y: 0 }),
        sim.cohesion_direction(i) == (Vec2 { x: 0, y: 0 }),
{
    let row = sim.boids@[i].row as int;
    let col = sim.boids@[i].col as int;
    let cs = neighbor_cells(row, col, 19, 14);
    lemma_neighbor_cells_in_grid(row, col, 19, 14, 0);
    lemma_neighbor_cells_sorted(row, col, 0);
    lemma_hits_sorted(cs, cell_of_boid(sim.boids@[i]));
    lemma_occurrences_in_cells(sim, cs, i);
    let js = sim.neighborhood(i);
    assert forall|q: int| 0 <= q < js.len() implies (#[trigger] js[q]) < sim.boids@.len() by {
        lemma_indices_in_range(sim, cs, q);
    }
    lemma_group_count(sim.boids@, i, js, true);
    lemma_group_count(sim.boids@, i, js, false);
}

/// Every index held by cells of the grid names a boid.
proof fn lemma_indices_in_range(sim: BoidsSim, cs: Seq<(usize, usize)>, q: int)
    requires
        sim.wf(),
        forall|p: int|
            0 <= p < cs.len() ==> ((#[trigger] cs[p]).0 as int) < LOCATION_GRID_HEIGHT && (
            cs[p].1 as int) < LOCATION_GRID_WIDTH,
        0 <= q < cells_indices(sim.cells(), cs).len(),
    ensures
        cells_indices(sim.cells(), cs)[q] < sim.boids@.len(),
    decreases cs.len(),
{
    if cs.len() > 0 {
        let c = cs.last();
        let k = cell_index(c.0 as int, c.1 as int);
        assert(0 <= k < GRID_CELLS) by (nonlinear_arith)
            requires k == c.0 * 19 + c.1, c.0 < 14, c.1 < 19;
        let pre = cells_indices(sim.cells(), cs.drop_last());
        if q < pre.len() {
            lemma_indices_in_range(sim, cs.drop_last(), q);
        } else {
            assert(sim.cells()[k]@[q - pre.len()] < sim.boids@.len());
        }
    }
}

/// Where no boid but `i` joins `i`'s group, the group counts at most the occurrences of `i`.
proof fn lemma_group_count(boids: Seq<GridBoid>, i: int, js: Seq<usize>, of_pos: bool)
    requires
        0 <= i < boids.len(),
        forall|q: int| 0 <= q < js.len() ==> (#[trigger] js[q]) < boids.len(),
        forall|j: int|
            0 <= j < boids.len() && j != i ==> !(dist_sq(
                boids[i].boid.pos,
                #[trigger] boids[j].boid.pos,
            ) <= INFLUENCE_DISTANCE_SQUARED && boids[j].boid.color == boids[i].boid.color),
    ensures
        group_sum(boids, i, js, of_pos).2 <= occurrences(js, i as usize),
    decreases js.len(),
{
    if js.len() > 0 {
        lemma_group_count(boids, i, js.drop_last(), of_pos);
        let j = js.last() as int;
        assert(js[js.len() - 1] < boids.len());
    }
}

} // verus!
