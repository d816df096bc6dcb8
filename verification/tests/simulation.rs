use boids::sim::{
    confine_boids, make_boid, push_boids_away_from_walls, spawn_boids, update_boids, Boid,
    Configuration, FlockSimulator, NUMBER_OF_BOIDS,
};
use boids::vec2::{clamp_length, normalize, Vec2};

fn boid(px: i64, py: i64, vx: i64, vy: i64) -> Boid {
    Boid { position: Vec2 { x: px, y: py }, velocity: Vec2 { x: vx, y: vy } }
}

fn speed_sq(b: &Boid) -> i128 {
    let x = b.velocity.x as i128;
    let y = b.velocity.y as i128;
    x * x + y * y
}

// Two agents one unit's tenth apart on the x axis, heading at each
// other: alignment and cohesion apply, separation does not (squared
// distance 100 unit^2 is beyond closeness^2 = 25 unit^2).
#[test]
fn two_agents_align_and_cohere() {
    let cfg = Configuration { attraction: 100, repulsion: 10, direction: 10, closeness: 5 };
    let mut flock = vec![boid(0, 0, 1000, 0), boid(10000, 0, -1000, 0)];
    update_boids(&mut flock, &cfg);
    // alignment: +/- (2000 / (1 * 10)); cohesion: +/- (10000 / (1 * 100))
    assert_eq!(flock[0].velocity, Vec2 { x: 900, y: 0 });
    assert_eq!(flock[1].velocity, Vec2 { x: -900, y: 0 });
    // positions move by the accumulated velocities
    assert_eq!(flock[0].position, Vec2 { x: 900, y: 0 });
    assert_eq!(flock[1].position, Vec2 { x: 9100, y: 0 });
}

// An agent hugging the left wall gets the +1.0 horizontal nudge, and
// confinement then leaves its (in-bounds) position alone.
#[test]
fn left_wall_nudge_then_confinement_keeps_position() {
    let mut flock = vec![boid(5000, 500000, 0, 0)];
    push_boids_away_from_walls(&mut flock, 1000000, 1000000);
    assert_eq!(flock[0].velocity, Vec2 { x: 1000, y: 0 });
    confine_boids(&mut flock, 1000000, 1000000);
    assert_eq!(flock[0].position, Vec2 { x: 5000, y: 500000 });
}

// A zero attraction skips the whole interaction phase: nothing moves.
#[test]
fn zero_attraction_freezes_interaction() {
    let cfg = Configuration { attraction: 0, repulsion: 10, direction: 10, closeness: 5 };
    let before = vec![boid(0, 0, 1000, 0), boid(10000, 0, -1000, 0)];
    let mut flock = before.clone();
    update_boids(&mut flock, &cfg);
    assert_eq!(flock, before);
}

// Two agents within the closeness radius are pushed apart as well.
#[test]
fn close_agents_are_separated() {
    let cfg = Configuration { attraction: 100, repulsion: 10, direction: 10, closeness: 5 };
    let mut flock = vec![boid(0, 0, 0, 0), boid(1000, 0, 0, 0)];
    update_boids(&mut flock, &cfg);
    // cohesion: +/- (1000 / 100); separation: -/+ (1000 / 10)
    assert_eq!(flock[0].velocity, Vec2 { x: -90, y: 0 });
    assert_eq!(flock[1].velocity, Vec2 { x: 90, y: 0 });
    assert_eq!(flock[0].position, Vec2 { x: -90, y: 0 });
    assert_eq!(flock[1].position, Vec2 { x: 1090, y: 0 });
}

// A pair exactly at the 200-unit radius is unaffected by the
// interaction rules (the test is a strict less-than).
#[test]
fn pair_at_radius_boundary_does_not_interact() {
    let cfg = Configuration { attraction: 100, repulsion: 10, direction: 10, closeness: 5 };
    let mut flock = vec![boid(0, 0, 1000, 0), boid(200000, 0, -1000, 0)];
    update_boids(&mut flock, &cfg);
    assert_eq!(flock[0].velocity, Vec2 { x: 1000, y: 0 });
    assert_eq!(flock[1].velocity, Vec2 { x: -1000, y: 0 });
    assert_eq!(flock[0].position, Vec2 { x: 1000, y: 0 });
    assert_eq!(flock[1].position, Vec2 { x: 199000, y: 0 });
}

// A zero direction skips only the alignment sub-rule.
#[test]
fn zero_direction_skips_alignment() {
    let cfg = Configuration { attraction: 100, repulsion: 10, direction: 0, closeness: 5 };
    let mut flock = vec![boid(0, 0, 1000, 0), boid(10000, 0, -1000, 0)];
    update_boids(&mut flock, &cfg);
    // only cohesion: +/- (10000 / 100)
    assert_eq!(flock[0].velocity, Vec2 { x: 1100, y: 0 });
    assert_eq!(flock[1].velocity, Vec2 { x: -1100, y: 0 });
}

// A zero repulsion skips only the separation sub-rule.
#[test]
fn zero_repulsion_skips_separation() {
    let cfg = Configuration { attraction: 100, repulsion: 0, direction: 10, closeness: 5 };
    let mut flock = vec![boid(0, 0, 0, 0), boid(1000, 0, 0, 0)];
    update_boids(&mut flock, &cfg);
    // only cohesion: +/- (1000 / 100)
    assert_eq!(flock[0].velocity, Vec2 { x: 10, y: 0 });
    assert_eq!(flock[1].velocity, Vec2 { x: -10, y: 0 });
}

#[test]
fn degenerate_configuration_is_reported() {
    let sound = Configuration { attraction: 100, repulsion: 10, direction: 10, closeness: 5 };
    assert!(!sound.is_degenerate());
    assert!(Configuration { repulsion: 0, ..sound }.is_degenerate());
    assert!(Configuration { direction: 0, ..sound }.is_degenerate());
    assert!(Configuration { closeness: 0, ..sound }.is_degenerate());
}

// The speed clamp: a zero velocity falls back to the slowest rightward
// motion; short and long vectors are rescaled exactly on 3-4-5 shapes.
#[test]
fn clamp_length_cases() {
    assert_eq!(clamp_length(Vec2 { x: 0, y: 0 }), Vec2 { x: 100, y: 0 });
    assert_eq!(clamp_length(Vec2 { x: 3, y: 4 }), Vec2 { x: 60, y: 80 });
    assert_eq!(clamp_length(Vec2 { x: 3000, y: 4000 }), Vec2 { x: 600, y: 800 });
    assert_eq!(clamp_length(Vec2 { x: 500, y: 0 }), Vec2 { x: 500, y: 0 });
    assert_eq!(clamp_length(Vec2 { x: -3, y: -4 }), Vec2 { x: -60, y: -80 });
}

#[test]
fn normalize_cases() {
    assert_eq!(normalize(Vec2 { x: 0, y: 0 }), Vec2 { x: 1000, y: 0 });
    assert_eq!(normalize(Vec2 { x: 3, y: 4 }), Vec2 { x: 600, y: 800 });
    assert_eq!(normalize(Vec2 { x: 999, y: 0 }), Vec2 { x: 1000, y: 0 });
}

// Wall avoidance steers near every edge, and clamps every speed into
// [0.1, 1.0] units per tick (squared: [10000, 1000000]).
#[test]
fn wall_avoidance_steers_and_clamps() {
    let mut flock = vec![
        boid(5000, 500000, 0, 0),       // near the left wall
        boid(995000, 500000, 0, 0),     // near the right wall
        boid(500000, 5000, 0, 0),       // near the bottom wall
        boid(500000, 995000, 0, 0),     // near the top wall
        boid(500000, 500000, 9000, 0),  // too fast
        boid(500000, 500000, 0, 0),     // still, away from every wall
    ];
    push_boids_away_from_walls(&mut flock, 1000000, 1000000);
    assert_eq!(flock[0].velocity, Vec2 { x: 1000, y: 0 });
    assert_eq!(flock[1].velocity, Vec2 { x: -1000, y: 0 });
    assert_eq!(flock[2].velocity, Vec2 { x: 0, y: 500 });
    assert_eq!(flock[3].velocity, Vec2 { x: 0, y: -500 });
    assert_eq!(flock[4].velocity, Vec2 { x: 1000, y: 0 });
    assert_eq!(flock[5].velocity, Vec2 { x: 100, y: 0 });
    for b in &flock {
        let s = speed_sq(b);
        assert!(10000 <= s && s <= 1000000);
    }
}

// Hard confinement saturates positions into the box without touching
// velocities.
#[test]
fn confinement_saturates_positions() {
    let mut flock = vec![
        boid(-50, 2000000, 700, 0),
        boid(1000001, -3, 0, 700),
        boid(400000, 400000, -700, 0),
    ];
    confine_boids(&mut flock, 1000000, 1000000);
    assert_eq!(flock[0].position, Vec2 { x: 0, y: 1000000 });
    assert_eq!(flock[1].position, Vec2 { x: 1000000, y: 0 });
    assert_eq!(flock[2].position, Vec2 { x: 400000, y: 400000 });
    assert_eq!(flock[0].velocity, Vec2 { x: 700, y: 0 });
    assert_eq!(flock[1].velocity, Vec2 { x: 0, y: 700 });
    assert_eq!(flock[2].velocity, Vec2 { x: -700, y: 0 });
}

// An agent built from fixed samples is deterministic.
#[test]
fn make_boid_is_deterministic() {
    let b = make_boid(7, 9, 3, 4, 1000000, 1000000);
    assert_eq!(b.position, Vec2 { x: 7, y: 9 });
    assert_eq!(b.velocity, Vec2 { x: 600, y: 800 });
    let again = make_boid(7, 9, 3, 4, 1000000, 1000000);
    assert_eq!(b, again);
    // samples above the half extent wrap into it
    let wrapped = make_boid(500007, 9, 3, 4, 1000000, 1000000);
    assert_eq!(wrapped.position, Vec2 { x: 7, y: 9 });
}

// Spawning lands every agent in half the viewport with a unit-length
// velocity (squared length within [10^6, 2 * 10^6]).
#[test]
fn spawning_fills_half_the_viewport() {
    let flock = spawn_boids(NUMBER_OF_BOIDS, 1000000, 800000);
    assert_eq!(flock.len(), NUMBER_OF_BOIDS);
    for b in &flock {
        assert!(0 <= b.position.x && b.position.x < 500000);
        assert!(0 <= b.position.y && b.position.y < 400000);
        let s = speed_sq(b);
        assert!(1000000 <= s && s <= 2000000);
    }
}

// Stepping the simulator keeps the population constant, every position
// inside the viewport, and every speed within the clamp range.
#[test]
fn step_preserves_population_and_confines() {
    let cfg = Configuration { attraction: 100, repulsion: 10, direction: 10, closeness: 5 };
    let mut sim = FlockSimulator::new(NUMBER_OF_BOIDS, 1000000, 800000);
    for _ in 0..50 {
        sim.step(&cfg, 1000000, 800000);
        assert_eq!(sim.len(), NUMBER_OF_BOIDS);
        for b in sim.boids() {
            assert!(0 <= b.position.x && b.position.x <= 1000000);
            assert!(0 <= b.position.y && b.position.y <= 800000);
            let s = speed_sq(b);
            assert!(10000 <= s && s <= 1000000);
        }
    }
}

// A zero-size viewport must not panic: confinement collapses to the
// origin and wall avoidance still clamps speeds.
#[test]
fn zero_viewport_degrades_gracefully() {
    let cfg = Configuration { attraction: 100, repulsion: 10, direction: 10, closeness: 5 };
    let mut sim = FlockSimulator::from_boids(vec![boid(10, 20, 1000, 0), boid(30, 40, 0, 1000)]);
    sim.step(&cfg, 0, 0);
    assert_eq!(sim.len(), 2);
    for b in sim.boids() {
        assert_eq!(b.position, Vec2 { x: 0, y: 0 });
    }
}

// Out-of-range configuration values degrade gracefully: huge divisors
// shrink the nudges to nothing instead of overflowing.
#[test]
fn huge_configuration_values_do_not_crash() {
    let cfg = Configuration {
        attraction: u64::MAX,
        repulsion: u64::MAX,
        direction: u64::MAX,
        closeness: u64::MAX,
    };
    let mut flock = vec![boid(0, 0, 1000, 0), boid(10000, 0, -1000, 0)];
    update_boids(&mut flock, &cfg);
    // every divisor dwarfs every numerator, so velocities are unchanged
    assert_eq!(flock[0].velocity, Vec2 { x: 1000, y: 0 });
    assert_eq!(flock[1].velocity, Vec2 { x: -1000, y: 0 });
    assert_eq!(flock[0].position, Vec2 { x: 1000, y: 0 });
    assert_eq!(flock[1].position, Vec2 { x: 9000, y: 0 });
}

// Cohesion symmetry: with alignment and separation switched off, the
// two nudges of a pair are exact opposites, truncation included
// (999/100 rounds to 9 and -999/100 to -9, both toward zero).
#[test]
fn cohesion_nudges_are_exact_opposites() {
    let cfg = Configuration { attraction: 100, repulsion: 0, direction: 0, closeness: 5 };
    let mut flock = vec![boid(0, 0, 0, 0), boid(999, 500, 0, 0)];
    update_boids(&mut flock, &cfg);
    assert_eq!(flock[0].velocity, Vec2 { x: 9, y: 5 });
    assert_eq!(flock[1].velocity, Vec2 { x: -9, y: -5 });
}

// Three agents in a row, cohesion only: the pairs run in index order
// (0,1), (0,2), (1,2), each acting on the velocities the earlier pairs
// accumulated.
#[test]
fn pairs_run_in_index_order() {
    let cfg = Configuration { attraction: 1, repulsion: 0, direction: 0, closeness: 0 };
    let mut flock = vec![boid(0, 0, 0, 0), boid(1000, 0, 0, 0), boid(2000, 0, 0, 0)];
    update_boids(&mut flock, &cfg);
    assert_eq!(flock[0].velocity, Vec2 { x: 1500, y: 0 });
    assert_eq!(flock[1].velocity, Vec2 { x: 0, y: 0 });
    assert_eq!(flock[2].velocity, Vec2 { x: -1500, y: 0 });
    assert_eq!(flock[0].position, Vec2 { x: 1500, y: 0 });
    assert_eq!(flock[1].position, Vec2 { x: 1000, y: 0 });
    assert_eq!(flock[2].position, Vec2 { x: 500, y: 0 });
}

// Degenerate populations: an empty flock stays empty, and a lone agent
// has no pairs to interact with but still coasts by its velocity.
#[test]
fn tiny_populations_are_fine() {
    let cfg = Configuration { attraction: 100, repulsion: 10, direction: 10, closeness: 5 };
    let mut empty: Vec<Boid> = Vec::new();
    update_boids(&mut empty, &cfg);
    assert!(empty.is_empty());
    let mut lone = vec![boid(1000, 2000, 30, -40)];
    update_boids(&mut lone, &cfg);
    assert_eq!(lone[0].position, Vec2 { x: 1030, y: 1960 });
    assert_eq!(lone[0].velocity, Vec2 { x: 30, y: -40 });
}
