use boids_sim::boid::{boid_color, isqrt, Boid, BoidColor};
use boids_sim::constants::{
    BOIDS_NUM, LOCATION_GRID_HEIGHT, LOCATION_GRID_WIDTH, MAX_BOID_VELOCITY, SCREEN_HEIGHT,
    SCREEN_WIDTH,
};
use boids_sim::grid::run_for_neighbor_cells;
use boids_sim::sim::{BoidsSim, SimKey};
use boids_sim::vec2::{div_toward_zero, Vec2};

fn sim_at(points: &[(i64, i64)]) -> BoidsSim {
    let positions: Vec<Vec2> = points.iter().map(|&(x, y)| Vec2::new(x, y)).collect();
    BoidsSim::from_positions(&positions).expect("positions on screen")
}

#[test]
fn go_forward_wraps_past_the_right_edge() {
    let mut b = Boid::new(1_399_000, 0, BoidColor::Black);
    b.go_forward();
    assert_eq!(b.pos(), Vec2::new(2000, 3000));
}

#[test]
fn go_forward_wraps_below_zero() {
    let mut b = Boid::new(1000, 1000, BoidColor::Red);
    b.add_dir(Vec2::new(-10_000, -10_000));
    assert_eq!(b.speed(), Vec2::new(-6000, -6000));
    b.go_forward();
    assert_eq!(b.pos(), Vec2::new(1_395_000, 995_000));
    assert_eq!(b.color(), BoidColor::Red);
}

#[test]
fn add_dir_clamps_each_axis() {
    let mut b = Boid::new(0, 0, BoidColor::Blue);
    b.add_dir(Vec2::new(10_000, -1000));
    assert_eq!(b.speed(), Vec2::new(6000, 2000));
}

#[test]
fn add_dir_raises_slow_velocity_to_min_speed() {
    let mut b = Boid::new(0, 0, BoidColor::Blue);
    b.add_dir(Vec2::new(-3000, -2000));
    assert_eq!(b.speed(), Vec2::new(0, 5000));
    let mut c = Boid::new(0, 0, BoidColor::Blue);
    c.add_dir(Vec2::new(-2997, -2996));
    assert_eq!(c.speed(), Vec2::new(3000, 4000));
}

#[test]
fn add_dir_never_leaves_a_velocity_below_min_speed() {
    let mut b = Boid::new(0, 0, BoidColor::Blue);
    b.add_dir(Vec2::new(-2999, -2999));
    assert_eq!(b.speed(), Vec2::new(5000, 5000));
    let mut c = Boid::new(0, 0, BoidColor::Blue);
    c.add_dir(Vec2::new(-2000, -4000));
    let v = c.speed();
    assert!(v.x * v.x + v.y * v.y >= 5000 * 5000);
    assert!(v.x.abs() <= MAX_BOID_VELOCITY && v.y.abs() <= MAX_BOID_VELOCITY);
}

#[test]
fn add_dir_keeps_zero_velocity_at_zero() {
    let mut b = Boid::new(0, 0, BoidColor::Green);
    b.add_dir(Vec2::new(-3000, -3000));
    assert_eq!(b.speed(), Vec2::new(0, 0));
}

#[test]
fn integer_square_root() {
    assert_eq!(isqrt(0), 0);
    assert_eq!(isqrt(24), 4);
    assert_eq!(isqrt(25), 5);
    assert_eq!(isqrt(72_000_000), 8485);
}

#[test]
fn division_rounds_toward_zero() {
    assert_eq!(div_toward_zero(7, 2), 3);
    assert_eq!(div_toward_zero(-7, 2), -3);
}

#[test]
fn colors_are_handed_out_in_turn() {
    assert_eq!(boid_color(0), BoidColor::Black);
    assert_eq!(boid_color(6), BoidColor::Cyan);
    assert_eq!(boid_color(7), BoidColor::Black);
}

#[test]
fn corner_cell_has_four_neighbor_cells() {
    let cells = run_for_neighbor_cells(0, 0, LOCATION_GRID_WIDTH, LOCATION_GRID_HEIGHT);
    assert_eq!(cells, vec![(0, 0), (0, 1), (1, 0), (1, 1)]);
}

#[test]
fn inner_and_edge_cells_neighbor_counts() {
    assert_eq!(run_for_neighbor_cells(5, 5, LOCATION_GRID_WIDTH, LOCATION_GRID_HEIGHT).len(), 9);
    assert_eq!(run_for_neighbor_cells(0, 5, LOCATION_GRID_WIDTH, LOCATION_GRID_HEIGHT).len(), 6);
    assert_eq!(run_for_neighbor_cells(13, 18, LOCATION_GRID_WIDTH, LOCATION_GRID_HEIGHT).len(), 4);
}

#[test]
fn from_positions_rejects_off_screen_points() {
    let positions = vec![Vec2::new(0, 0), Vec2::new(SCREEN_WIDTH, 0)];
    assert!(BoidsSim::from_positions(&positions).is_none());
    let negative = vec![Vec2::new(0, -1)];
    assert!(BoidsSim::from_positions(&negative).is_none());
}

#[test]
fn from_positions_fills_the_grid() {
    let sim = sim_at(&[(10_000, 10_000), (80_000, 160_000)]);
    assert_eq!(sim.location_grid[0], vec![0]);
    assert_eq!(sim.location_grid[2 * LOCATION_GRID_WIDTH + 1], vec![1]);
    assert_eq!(sim.boids[1].row, 2);
    assert_eq!(sim.boids[1].col, 1);
}

#[test]
fn target_directions_without_and_with_target() {
    let mut sim = sim_at(&[(0, 0), (100_000, 200_000)]);
    assert_eq!(sim.calc_target_directions(), vec![Vec2::new(0, 0), Vec2::new(0, 0)]);
    sim.set_target(Some(Vec2::new(500_000, 500_000)));
    let dirs = sim.calc_target_directions();
    assert_eq!(dirs[0], Vec2::new(250, 250));
    assert_eq!(dirs[1], Vec2::new(200, 150));
}

#[test]
fn leader_directions_point_to_the_leader() {
    let mut sim = sim_at(&[(100_000, 100_000), (120_000, 100_000)]);
    assert_eq!(sim.calc_leader_directions(), vec![Vec2::new(0, 0), Vec2::new(0, 0)]);
    sim.set_leader(Some(0));
    assert_eq!(sim.calc_leader_directions(), vec![Vec2::new(0, 0), Vec2::new(-10, 0)]);
    sim.set_leader(Some(5));
    assert_eq!(sim.leader_idx, None);
}

#[test]
fn evasion_pushes_away_from_walls() {
    let mut sim = sim_at(&[(10_000, 500_000), (1_390_000, 990_000), (700_000, 500_000)]);
    let dirs = sim.calc_evasion_directions();
    assert_eq!(dirs[0], Vec2::new(1300, 0));
    assert_eq!(dirs[1], Vec2::new(-1300, -1300));
    assert_eq!(dirs[2], Vec2::new(0, 0));
    sim.key_down_event(SimKey::W);
    assert_eq!(sim.calc_evasion_directions(), vec![Vec2::new(0, 0); 3]);
}

#[test]
fn separation_of_a_close_pair() {
    let sim = sim_at(&[(100_000, 100_000), (110_000, 100_000), (600_000, 600_000)]);
    let dirs = sim.calc_separation_directions();
    assert_eq!(dirs[0], Vec2::new(1000, 0));
    assert_eq!(dirs[1], Vec2::new(-1000, 0));
    assert_eq!(dirs[2], Vec2::new(0, 0));
}

#[test]
fn isolated_boid_has_zero_alignment_and_cohesion() {
    let sim = sim_at(&[(300_000, 300_000)]);
    assert_eq!(sim.calc_alignment_directions(), vec![Vec2::new(0, 0)]);
    assert_eq!(sim.calc_cohesion_directions(), vec![Vec2::new(0, 0)]);
}

#[test]
fn cohesion_pulls_same_colored_neighbors_together() {
    // Boids 0 and 7 share a color; the others are far away.
    let mut points = vec![(100_000, 100_000)];
    for k in 1..7 {
        points.push((600_000 + 100_000 * k, 800_000));
    }
    points.push((110_000, 100_000));
    let sim = sim_at(&points);
    let coh = sim.calc_cohesion_directions();
    assert_eq!(coh[0], Vec2::new(25, 0));
    assert_eq!(coh[7], Vec2::new(-25, 0));
    let align = sim.calc_alignment_directions();
    assert_eq!(align[0], Vec2::new(0, 0));
}

#[test]
fn reindex_moves_one_boid_between_cells() {
    let mut sim = sim_at(&[(10_000, 10_000), (20_000, 20_000)]);
    sim.boids[0].boid.pos = Vec2::new(80_000, 80_000);
    let before = sim.location_grid.clone();
    sim.recalculate_boid_indices();
    let moved = LOCATION_GRID_WIDTH + 1;
    assert_eq!(sim.location_grid[0], vec![1]);
    assert_eq!(sim.location_grid[moved], vec![0]);
    for k in 0..sim.location_grid.len() {
        if k != 0 && k != moved {
            assert_eq!(sim.location_grid[k], before[k]);
        }
    }
    assert_eq!((sim.boids[0].row, sim.boids[0].col), (1, 1));
}

#[test]
fn key_presses_change_target_walls_and_leader() {
    let mut sim = sim_at(&[(0, 0)]);
    sim.set_target(Some(Vec2::new(1, 1)));
    sim.key_down_event(SimKey::Space);
    assert_eq!(sim.target, None);
    sim.key_down_event(SimKey::L);
    assert_eq!(sim.leader_idx, Some(0));
    sim.key_down_event(SimKey::L);
    assert_eq!(sim.leader_idx, None);
    assert!(sim.restrict_walls);
    sim.key_down_event(SimKey::W);
    assert!(!sim.restrict_walls);
    sim.key_down_event(SimKey::Other);
    assert!(!sim.restrict_walls);
}

#[test]
fn one_tick_moves_a_lone_boid() {
    let mut sim = sim_at(&[(700_000, 500_000)]);
    sim.update_boids();
    // The default velocity is below the minimum speed, so it is raised to it first.
    assert_eq!(sim.boids[0].boid.speed(), Vec2::new(3537, 3537));
    assert_eq!(sim.boids[0].boid.pos(), Vec2::new(703_537, 503_537));
}

#[test]
fn new_places_boids_away_from_walls() {
    let sim = BoidsSim::new();
    assert_eq!(sim.boids.len(), BOIDS_NUM);
    for gb in &sim.boids {
        let p = gb.boid.pos();
        assert!(p.x >= 140_000 && p.x < SCREEN_WIDTH - 140_000);
        assert!(p.y >= 140_000 && p.y < SCREEN_HEIGHT - 140_000);
    }
}

#[test]
fn hundred_ticks_stay_on_screen_and_under_top_speed() {
    let mut sim = BoidsSim::new();
    sim.set_target(Some(Vec2::new(0, 0)));
    sim.set_leader(Some(0));
    assert!(sim.restrict_walls);
    for _ in 0..100 {
        sim.update_boids();
        for gb in &sim.boids {
            let p = gb.boid.pos();
            let v = gb.boid.speed();
            assert!(p.x >= 0 && p.x < SCREEN_WIDTH && p.y >= 0 && p.y < SCREEN_HEIGHT);
            assert!(v.x.abs() <= MAX_BOID_VELOCITY && v.y.abs() <= MAX_BOID_VELOCITY);
        }
    }
}

#[test]
fn apply_rule_directions_checks_lengths() {
    let mut sim = sim_at(&[(700_000, 500_000), (100_000, 100_000)]);
    let one = vec![Vec2::new(0, 0)];
    let two = vec![Vec2::new(0, 0); 2];
    assert!(!sim.apply_rule_directions(&one, &two, &two, &two, &two, &two));
    assert_eq!(sim.boids[0].boid.speed(), Vec2::new(3000, 3000));
    let push = vec![Vec2::new(1000, 0), Vec2::new(0, 0)];
    assert!(sim.apply_rule_directions(&push, &two, &two, &two, &two, &push));
    assert_eq!(sim.boids[0].boid.speed(), Vec2::new(5000, 3000));
    sim.advance_boids();
    assert_eq!(sim.boids[0].boid.pos(), Vec2::new(705_000, 503_000));
}

#[test]
fn apply_rule_directions_rejects_out_of_range_directions() {
    let mut sim = sim_at(&[(700_000, 500_000)]);
    let zero = vec![Vec2::new(0, 0)];
    let huge = vec![Vec2::new(i64::MAX, 0)];
    assert!(!sim.apply_rule_directions(&huge, &zero, &zero, &zero, &zero, &zero));
    assert_eq!(sim.boids[0].boid.speed(), Vec2::new(3000, 3000));
}

#[test]
fn boids_compare_by_position_and_velocity() {
    let a = Boid::new(10, 20, BoidColor::Black);
    let b = Boid::new(10, 20, BoidColor::Red);
    let c = Boid::new(11, 20, BoidColor::Black);
    assert!(a == b);
    assert!(a != c);
    let mut d = Boid::new(10, 20, BoidColor::Black);
    d.add_dir(Vec2::new(0, 100));
    assert!(a != d);
}
