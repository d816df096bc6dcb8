//! The flocking simulation: a fixed population of agents, each a
//! position and a velocity in fixed-point plane coordinates, advanced
//! tick by tick. Every tick runs three phases in order: the pairwise
//! interaction phase (alignment, cohesion, separation, with the
//! accumulated velocity then applied to the position), the
//! wall-avoidance phase (steering nudges near the edges, then the speed
//! clamp), and the hard confinement phase (positions saturated into the
//! viewport box).

use vstd::prelude::*;
use crate::math::{sat64, div_trunc, lemma_div_trunc_small, lemma_div_trunc_neg};
use crate::vec2::{
    Vec2, len_sq, dist_sq, vadd_spec, vsub_spec, vdiv_spec, clamp_spec, clamp_length,
    dist_sq_below, normalize_spec, normalize,
};

verus! {

/// Number of agents in the default flock.
pub const NUMBER_OF_BOIDS: usize = 30;

/// The tunable interaction gains. All four are whole-number scalars,
/// live-editable between ticks; a zero value switches the affected
/// sub-rule off for the tick instead of dividing by zero.
#[derive(Clone, Copy, PartialEq, Eq, Structural, Debug, Default)]
pub struct Configuration {
    /// Cohesion divisor: larger means a weaker pull toward neighbours.
    /// Zero disables the whole interaction phase.
    pub attraction: u64,
    /// Separation divisor: larger means a weaker push away from very
    /// close neighbours. Zero disables separation.
    pub repulsion: u64,
    /// Alignment divisor: larger means a weaker pull toward the
    /// neighbour's heading. Zero disables alignment.
    pub direction: u64,
    /// Separation radius in whole world units.
    pub closeness: u64,
}

impl Configuration {
    /// A configuration is degenerate when one of the divisors that the
    /// interaction phase would divide by is zero; the affected sub-rule
    /// is then skipped for the tick.
    pub open spec fn degenerate_spec(&self) -> bool {
        self.repulsion == 0 || self.direction == 0 || self.closeness == 0
    }

    /// Report whether some sub-rule will be skipped this tick.
    pub fn is_degenerate(&self) -> (r: bool)
        ensures
            r == self.degenerate_spec(),
    {
        self.repulsion == 0 || self.direction == 0 || self.closeness == 0
    }
}

/// One agent: a position and a velocity, both in thousandths of a world
/// unit.
#[derive(Clone, Copy, PartialEq, Eq, Structural, Debug)]
pub struct Boid {
    pub position: Vec2,
    pub velocity: Vec2,
}

/// The alignment nudge on `own`: the fraction `1 / (scaler * direction)`
/// of the way from `own` toward the neighbour's velocity `other`, or no
/// nudge when `direction` is zero.
pub open spec fn align_nudge(own: Vec2, other: Vec2, scaler: int, direction: int) -> Vec2 {
    if direction >= 1 {
        vdiv_spec(vsub_spec(other, own), scaler * direction)
    } else {
        Vec2 { x: 0, y: 0 }
    }
}

/// The cohesion nudge on the agent at `own`: the displacement toward the
/// neighbour's position `other`, divided by `divisor`.
pub open spec fn cohesion_nudge(own: Vec2, other: Vec2, divisor: int) -> Vec2 {
    vdiv_spec(vsub_spec(other, own), divisor)
}

/// The separation nudge on the agent at `own`: the displacement away
/// from the close neighbour at `other`, divided by `repulsion`.
pub open spec fn separation_nudge(own: Vec2, other: Vec2, repulsion: int) -> Vec2 {
    vdiv_spec(vsub_spec(own, other), repulsion)
}

/// One pairwise interaction. Within the 200-unit radius (squared
/// distance below 40000 unit^2, i.e. 40_000_000_000 in squared
/// thousandths), both agents are aligned from the pair's pre-update
/// velocities, then pulled toward each other's position, and, within the
/// `closeness` radius and with a nonzero `repulsion`, pushed apart.
/// Positions are untouched. Pairs at or beyond the radius are unchanged.
pub open spec fn interact_pair_spec(a: Boid, b: Boid, cfg: Configuration, scaler: int) -> (
    Boid,
    Boid,
) {
    if dist_sq(a.position, b.position) < 40000000000 {
        let av1 = vadd_spec(
            a.velocity,
            align_nudge(a.velocity, b.velocity, scaler, cfg.direction as int),
        );
        let bv1 = vadd_spec(
            b.velocity,
            align_nudge(b.velocity, a.velocity, scaler, cfg.direction as int),
        );
        let av2 = vadd_spec(
            av1,
            cohesion_nudge(a.position, b.position, scaler * (cfg.attraction as int)),
        );
        let bv2 = vadd_spec(
            bv1,
            cohesion_nudge(b.position, a.position, scaler * (cfg.attraction as int)),
        );
        if cfg.repulsion >= 1 && dist_sq(a.position, b.position) < (cfg.closeness as int) * (
        cfg.closeness as int) * 1000000 {
            let av3 = vadd_spec(
                av2,
                separation_nudge(a.position, b.position, cfg.repulsion as int),
            );
            let bv3 = vadd_spec(
                bv2,
                separation_nudge(b.position, a.position, cfg.repulsion as int),
            );
            (Boid { position: a.position, velocity: av3 }, Boid {
                position: b.position,
                velocity: bv3,
            })
        } else {
            (Boid { position: a.position, velocity: av2 }, Boid {
                position: b.position,
                velocity: bv2,
            })
        }
    } else {
        (a, b)
    }
}

/// Componentwise truncated division of `delta` by a positive divisor
/// that may exceed the reach of `i128`; such a divisor yields zero.
fn nudge_div(delta: Vec2, divisor: u128) -> (r: Vec2)
    requires
        divisor >= 1,
    ensures
        r == vdiv_spec(delta, divisor as int),
{
    if divisor > 0x8000_0000_0000_0000u128 {
        proof {
            lemma_div_trunc_small(delta.x as int, divisor as int);
            lemma_div_trunc_small(delta.y as int, divisor as int);
        }
        Vec2 { x: 0, y: 0 }
    } else {
        delta.div_round(divisor as i128)
    }
}

/// The alignment nudge, executably.
fn align_nudge_of(own: Vec2, other: Vec2, scaler: u64, direction: u64) -> (r: Vec2)
    requires
        scaler >= 1,
    ensures
        r == align_nudge(own, other, scaler as int, direction as int),
{
    if direction == 0 {
        Vec2 { x: 0, y: 0 }
    } else {
        proof {
            assert((scaler as int) * (direction as int) >= 1 && (scaler as int) * (
            direction as int) <= u128::MAX) by (nonlinear_arith)
                requires
                    1 <= scaler as int <= u64::MAX as int,
                    1 <= direction as int <= u64::MAX as int,
            ;
        }
        let d: u128 = (scaler as u128) * (direction as u128);
        nudge_div(other.sub_sat(own), d)
    }
}

/// The cohesion nudge, executably; `divisor` is `scaler * attraction`.
fn cohesion_nudge_of(own: Vec2, other: Vec2, scaler: u64, attraction: u64) -> (r: Vec2)
    requires
        scaler >= 1,
        attraction >= 1,
    ensures
        r == cohesion_nudge(own, other, (scaler as int) * (attraction as int)),
{
    proof {
        assert((scaler as int) * (attraction as int) >= 1 && (scaler as int) * (
        attraction as int) <= u128::MAX) by (nonlinear_arith)
            requires
                1 <= scaler as int <= u64::MAX as int,
                1 <= attraction as int <= u64::MAX as int,
        ;
    }
    let d: u128 = (scaler as u128) * (attraction as u128);
    nudge_div(other.sub_sat(own), d)
}

/// The separation nudge, executably.
fn separation_nudge_of(own: Vec2, other: Vec2, repulsion: u64) -> (r: Vec2)
    requires
        repulsion >= 1,
    ensures
        r == separation_nudge(own, other, repulsion as int),
{
    nudge_div(own.sub_sat(other), repulsion as u128)
}

/// One pairwise interaction, executably.
fn interact_pair(a: &Boid, b: &Boid, cfg: &Configuration, scaler: u64) -> (r: (Boid, Boid))
    requires
        scaler >= 1,
        cfg.attraction >= 1,
    ensures
        r == interact_pair_spec(*a, *b, *cfg, scaler as int),
{
    if dist_sq_below(&a.position, &b.position, 40000000000u64) {
        let av1 = a.velocity.add_sat(align_nudge_of(a.velocity, b.velocity, scaler, cfg.direction));
        let bv1 = b.velocity.add_sat(align_nudge_of(b.velocity, a.velocity, scaler, cfg.direction));
        let av2 = av1.add_sat(cohesion_nudge_of(a.position, b.position, scaler, cfg.attraction));
        let bv2 = bv1.add_sat(cohesion_nudge_of(b.position, a.position, scaler, cfg.attraction));
        let close: bool = if cfg.repulsion == 0 {
            false
        } else if cfg.closeness > 200 {
            proof {
                assert(dist_sq(a.position, b.position) < (cfg.closeness as int) * (
                cfg.closeness as int) * 1000000) by (nonlinear_arith)
                    requires
                        dist_sq(a.position, b.position) < 40000000000,
                        cfg.closeness as int >= 201,
                ;
            }
            true
        } else {
            proof {
                assert((cfg.closeness as int) * (cfg.closeness as int) <= 40000 && (
                cfg.closeness as int) * (cfg.closeness as int) * 1000000 <= 40000000000)
                    by (nonlinear_arith)
                    requires
                        0 <= cfg.closeness as int <= 200,
                ;
            }
            let bound: u64 = cfg.closeness * cfg.closeness * 1000000;
            dist_sq_below(&a.position, &b.position, bound)
        };
        if close {
            let av3 = av2.add_sat(separation_nudge_of(a.position, b.position, cfg.repulsion));
            let bv3 = bv2.add_sat(separation_nudge_of(b.position, a.position, cfg.repulsion));
            (Boid { position: a.position, velocity: av3 }, Boid {
                position: b.position,
                velocity: bv3,
            })
        } else {
            (Boid { position: a.position, velocity: av2 }, Boid {
                position: b.position,
                velocity: bv2,
            })
        }
    } else {
        (*a, *b)
    }
}

/// The inner sweep: starting from `s`, interact the pair `(i, j)`, then
/// `(i, j + 1)`, and so on up to `(i, n - 1)`.
pub open spec fn sweep_inner(
    s: Seq<Boid>,
    cfg: Configuration,
    scaler: int,
    n: int,
    i: int,
    j: int,
) -> Seq<Boid>
    decreases n - j,
{
    if 0 <= i && i < j && j < n {
        let p = interact_pair_spec(s[i], s[j], cfg, scaler);
        sweep_inner(s.update(i, p.0).update(j, p.1), cfg, scaler, n, i, j + 1)
    } else {
        s
    }
}

/// The outer sweep: run the inner sweep for agent `i` against all later
/// agents, then for `i + 1`, and so on. Together the two sweeps visit
/// every unordered pair exactly once, in index order, each pair acting
/// on the velocities as already updated by the earlier pairs.
pub open spec fn sweep_outer(s: Seq<Boid>, cfg: Configuration, scaler: int, n: int, i: int) -> Seq<
    Boid,
>
    decreases n - i,
{
    if 0 <= i && i + 1 < n {
        sweep_outer(sweep_inner(s, cfg, scaler, n, i, i + 1), cfg, scaler, n, i + 1)
    } else {
        s
    }
}

/// The inner sweep never changes the number of agents.
pub proof fn lemma_sweep_inner_len(
    s: Seq<Boid>,
    cfg: Configuration,
    scaler: int,
    n: int,
    i: int,
    j: int,
)
    requires
        n == s.len(),
    ensures
        sweep_inner(s, cfg, scaler, n, i, j).len() == s.len(),
    decreases n - j,
{
    if 0 <= i && i < j && j < n {
        let p = interact_pair_spec(s[i], s[j], cfg, scaler);
        lemma_sweep_inner_len(s.update(i, p.0).update(j, p.1), cfg, scaler, n, i, j + 1);
        assert(s.update(i, p.0).update(j, p.1).len() == s.len());
        assert(sweep_inner(s, cfg, scaler, n, i, j) == sweep_inner(
            s.update(i, p.0).update(j, p.1),
            cfg,
            scaler,
            n,
            i,
            j + 1,
        ));
    }
}

/// The outer sweep never changes the number of agents.
pub proof fn lemma_sweep_outer_len(s: Seq<Boid>, cfg: Configuration, scaler: int, n: int, i: int)
    requires
        n == s.len(),
    ensures
        sweep_outer(s, cfg, scaler, n, i).len() == s.len(),
    decreases n - i,
{
    if 0 <= i && i + 1 < n {
        lemma_sweep_inner_len(s, cfg, scaler, n, i, i + 1);
        lemma_sweep_outer_len(sweep_inner(s, cfg, scaler, n, i, i + 1), cfg, scaler, n, i + 1);
    }
}

/// Applying each agent's accumulated velocity to its position, with
/// saturating coordinates.
pub open spec fn integrate_spec(s: Seq<Boid>) -> Seq<Boid> {
    s.map(
        |k: int, b: Boid|
            Boid { position: vadd_spec(b.position, b.velocity), velocity: b.velocity },
    )
}

/// The whole interaction phase of one tick: if `attraction` is zero the
/// phase is skipped entirely (nothing moves); otherwise every unordered
/// pair interacts once, with `scaler` fixed to the population minus one,
/// and each agent then steps by its accumulated velocity.
pub open spec fn update_spec(s: Seq<Boid>, cfg: Configuration) -> Seq<Boid> {
    if cfg.attraction == 0 {
        s
    } else {
        integrate_spec(sweep_outer(s, cfg, s.len() - 1, s.len() as int, 0))
    }
}

/// Overwrite one agent in place.
fn set_boid(v: &mut Vec<Boid>, idx: usize, b: Boid)
    requires
        idx < old(v).len(),
    ensures
        final(v)@ == old(v)@.update(idx as int, b),
{
    let slot = &mut v[idx];
    *slot = b;
}

/// The interaction phase of one tick, in place: every unordered pair of
/// agents within the 200-unit radius exchanges alignment, cohesion and
/// separation nudges, in index order, and every agent then moves by its
/// accumulated velocity. A zero `attraction` skips the phase entirely,
/// leaving every agent untouched.
pub fn update_boids(boids: &mut Vec<Boid>, cfg: &Configuration)
    ensures
        final(boids)@ == update_spec(old(boids)@, *cfg),
        final(boids)@.len() == old(boids)@.len(),
        cfg.attraction == 0 ==> final(boids)@ == old(boids)@,
{
    if cfg.attraction == 0 {
        return ;
    }
    let n: usize = boids.len();
    let ghost s0 = boids@;
    let ghost scaler_g: int = n as int - 1;
    let ghost goal = sweep_outer(s0, *cfg, scaler_g, n as int, 0);
    proof {
        lemma_sweep_outer_len(s0, *cfg, scaler_g, n as int, 0);
    }
    if n >= 2 {
        let scaler: u64 = (n - 1) as u64;
        let mut i: usize = 0;
        while i < n - 1
            invariant
                2 <= n <= usize::MAX,
                scaler as int == n as int - 1,
                cfg.attraction >= 1,
                i <= n,
                boids@.len() == n,
                sweep_outer(boids@, *cfg, scaler as int, n as int, i as int) == goal,
            decreases n - i,
        {
            let ghost entry = boids@;
            let ghost inner_goal = sweep_inner(
                entry,
                *cfg,
                scaler as int,
                n as int,
                i as int,
                i as int + 1,
            );
            let mut j: usize = i + 1;
            while j < n
                invariant
                    2 <= n <= usize::MAX,
                    scaler as int == n as int - 1,
                    cfg.attraction >= 1,
                    i < j <= n,
                    i + 1 < n,
                    boids@.len() == n,
                    sweep_inner(boids@, *cfg, scaler as int, n as int, i as int, j as int)
                        == inner_goal,
                decreases n - j,
            {
                let ghost before = boids@;
                let pa: Boid = boids[i];
                let pb: Boid = boids[j];
                let pair = interact_pair(&pa, &pb, cfg, scaler);
                set_boid(boids, i, pair.0);
                set_boid(boids, j, pair.1);
                proof {
                    let p = interact_pair_spec(
                        before[i as int],
                        before[j as int],
                        *cfg,
                        scaler as int,
                    );
                    assert(boids@ == before.update(i as int, p.0).update(j as int, p.1));
                    assert(sweep_inner(before, *cfg, scaler as int, n as int, i as int, j as int)
                        == sweep_inner(
                        boids@,
                        *cfg,
                        scaler as int,
                        n as int,
                        i as int,
                        j as int + 1,
                    ));
                }
                j = j + 1;
            }
            proof {
                assert(sweep_inner(boids@, *cfg, scaler as int, n as int, i as int, n as int)
                    == boids@);
                assert(sweep_outer(entry, *cfg, scaler as int, n as int, i as int) == sweep_outer(
                    inner_goal,
                    *cfg,
                    scaler as int,
                    n as int,
                    i as int + 1,
                ));
            }
            i = i + 1;
        }
        proof {
            assert(sweep_outer(boids@, *cfg, scaler as int, n as int, i as int) == boids@);
        }
    } else {
        proof {
            assert(sweep_outer(s0, *cfg, scaler_g, n as int, 0) == s0);
        }
    }
    proof {
        assert(boids@ == goal);
    }
    let mut k: usize = 0;
    while k < n
        invariant
            boids@.len() == n,
            goal.len() == n,
            k <= n,
            forall|m: int|
                0 <= m < k ==> boids@[m] == (Boid {
                    position: vadd_spec(goal[m].position, goal[m].velocity),
                    velocity: goal[m].velocity,
                }),
            forall|m: int| k <= m < n ==> boids@[m] == goal[m],
        decreases n - k,
    {
        let b: Boid = boids[k];
        let moved = Boid { position: b.position.add_sat(b.velocity), velocity: b.velocity };
        set_boid(boids, k, moved);
        k = k + 1;
    }
    proof {
        assert(boids@ =~= integrate_spec(goal));
    }
}

/// The wall-avoidance steering of one agent: within 50 units (50000
/// thousandths) of a wall, the velocity is nudged back toward the
/// inside, by half a unit per tick vertically and a whole unit
/// horizontally, and the result is clamped to the speed range.
pub open spec fn wall_spec(b: Boid, width: i64, height: i64) -> Boid {
    let vy = if b.position.y < 50000 {
        sat64(b.velocity.y + 500) as i64
    } else if b.position.y > height - 50000 {
        sat64(b.velocity.y - 500) as i64
    } else {
        b.velocity.y
    };
    let vx = if b.position.x < 50000 {
        sat64(b.velocity.x + 1000) as i64
    } else if b.position.x > width - 50000 {
        sat64(b.velocity.x - 1000) as i64
    } else {
        b.velocity.x
    };
    Boid { position: b.position, velocity: clamp_spec(Vec2 { x: vx, y: vy }) }
}

/// The wall-avoidance phase over the whole population.
pub open spec fn wall_all_spec(s: Seq<Boid>, width: i64, height: i64) -> Seq<Boid> {
    s.map(|k: int, b: Boid| wall_spec(b, width, height))
}

/// Wall-avoidance steering of one agent, executably.
fn steer_one(b: &Boid, width: i64, height: i64) -> (r: Boid)
    ensures
        r == wall_spec(*b, width, height),
        10000 <= len_sq(r.velocity) <= 1000000,
{
    let mut vy: i64 = b.velocity.y;
    if b.position.y < 50000 {
        vy = crate::math::sat_add64(vy, 500);
    } else if (b.position.y as i128) > (height as i128) - 50000 {
        vy = crate::math::sat_sub64(vy, 500);
    }
    let mut vx: i64 = b.velocity.x;
    if b.position.x < 50000 {
        vx = crate::math::sat_add64(vx, 1000);
    } else if (b.position.x as i128) > (width as i128) - 50000 {
        vx = crate::math::sat_sub64(vx, 1000);
    }
    let clamped = clamp_length(Vec2 { x: vx, y: vy });
    Boid { position: b.position, velocity: clamped }
}

/// The wall-avoidance phase, in place: every agent near a wall is
/// steered back toward the inside, and every agent's speed is then
/// clamped into `[0.1, 1.0]` units per tick (squared length between
/// 10000 and 1000000 in thousandths).
pub fn push_boids_away_from_walls(boids: &mut Vec<Boid>, width: i64, height: i64)
    ensures
        final(boids)@ == wall_all_spec(old(boids)@, width, height),
        final(boids)@.len() == old(boids)@.len(),
        forall|k: int|
            0 <= k < final(boids)@.len() ==> 10000 <= len_sq(#[trigger] final(boids)@[k].velocity)
                <= 1000000,
{
    let n: usize = boids.len();
    let ghost s0 = boids@;
    let mut k: usize = 0;
    while k < n
        invariant
            boids@.len() == n,
            s0.len() == n,
            k <= n,
            forall|m: int| 0 <= m < k ==> #[trigger] boids@[m] == wall_spec(s0[m], width, height),
            forall|m: int|
                0 <= m < k ==> 10000 <= len_sq(#[trigger] boids@[m].velocity) <= 1000000,
            forall|m: int| k <= m < n ==> #[trigger] boids@[m] == s0[m],
        decreases n - k,
    {
        let b: Boid = boids[k];
        let steered = steer_one(&b, width, height);
        set_boid(boids, k, steered);
        k = k + 1;
    }
    proof {
        assert(boids@ =~= wall_all_spec(s0, width, height));
    }
}

/// One coordinate saturated into `[0, hi]`: the test against zero is
/// made first, so for a negative `hi` the upper clamp wins.
pub open spec fn clamp_axis(x: i64, hi: i64) -> i64 {
    if x < 0 {
        0
    } else if x > hi {
        hi
    } else {
        x
    }
}

/// Hard confinement of one agent: each position coordinate is saturated
/// into the viewport box, the velocity is untouched.
pub open spec fn confine_spec(b: Boid, width: i64, height: i64) -> Boid {
    Boid {
        position: Vec2 {
            x: clamp_axis(b.position.x, width),
            y: clamp_axis(b.position.y, height),
        },
        velocity: b.velocity,
    }
}

/// The confinement phase over the whole population.
pub open spec fn confine_all_spec(s: Seq<Boid>, width: i64, height: i64) -> Seq<Boid> {
    s.map(|k: int, b: Boid| confine_spec(b, width, height))
}

/// The hard confinement phase, in place: every position is saturated
/// into `[0, width] x [0, height]`, axis by axis; no velocity changes.
pub fn confine_boids(boids: &mut Vec<Boid>, width: i64, height: i64)
    ensures
        final(boids)@ == confine_all_spec(old(boids)@, width, height),
        final(boids)@.len() == old(boids)@.len(),
        forall|k: int|
            0 <= k < final(boids)@.len() ==> #[trigger] final(boids)@[k].velocity == old(
                boids,
            )@[k].velocity,
        width >= 0 && height >= 0 ==> forall|k: int|
            0 <= k < final(boids)@.len() ==> 0 <= #[trigger] final(boids)@[k].position.x <= width
                && 0 <= final(boids)@[k].position.y <= height,
{
    let n: usize = boids.len();
    let ghost s0 = boids@;
    let mut k: usize = 0;
    while k < n
        invariant
            boids@.len() == n,
            s0.len() == n,
            k <= n,
            forall|m: int|
                0 <= m < k ==> #[trigger] boids@[m] == confine_spec(s0[m], width, height),
            forall|m: int| k <= m < n ==> #[trigger] boids@[m] == s0[m],
        decreases n - k,
    {
        let b: Boid = boids[k];
        let mut px: i64 = b.position.x;
        if px < 0 {
            px = 0;
        } else if px > width {
            px = width;
        }
        let mut py: i64 = b.position.y;
        if py < 0 {
            py = 0;
        } else if py > height {
            py = height;
        }
        let confined = Boid { position: Vec2 { x: px, y: py }, velocity: b.velocity };
        set_boid(boids, k, confined);
        k = k + 1;
    }
    proof {
        assert(boids@ =~= confine_all_spec(s0, width, height));
    }
}

/// One whole tick: the interaction phase, then wall avoidance, then
/// hard confinement, in that order.
pub open spec fn step_spec(s: Seq<Boid>, cfg: Configuration, width: i64, height: i64) -> Seq<
    Boid,
> {
    confine_all_spec(wall_all_spec(update_spec(s, cfg), width, height), width, height)
}

/// The simulator: owns the agent population and advances it one tick at
/// a time against a caller-supplied configuration and viewport.
pub struct FlockSimulator {
    boids: Vec<Boid>,
}

impl View for FlockSimulator {
    type V = Seq<Boid>;

    closed spec fn view(&self) -> Seq<Boid> {
        self.boids@
    }
}

impl FlockSimulator {
    /// Take ownership of an existing population.
    pub fn from_boids(boids: Vec<Boid>) -> (sim: FlockSimulator)
        ensures
            sim@ == boids@,
    {
        FlockSimulator { boids }
    }

    /// Spawn a fresh population of `n` agents within half the viewport.
    pub fn new(n: usize, width: i64, height: i64) -> (sim: FlockSimulator)
        ensures
            sim@.len() == n,
            forall|k: int| 0 <= k < n ==> well_spawned(#[trigger] sim@[k], width, height),
    {
        FlockSimulator { boids: spawn_boids(n, width, height) }
    }

    /// The read-only view of the population, for drawing.
    pub fn boids(&self) -> (r: &Vec<Boid>)
        ensures
            r@ == self@,
    {
        &self.boids
    }

    /// The population size.
    pub fn len(&self) -> (n: usize)
        ensures
            n == self@.len(),
    {
        self.boids.len()
    }

    /// Advance the simulation one tick: interaction, wall avoidance,
    /// confinement. The population never changes size; every velocity
    /// ends the tick clamped into the speed range; and, for a sensible
    /// viewport, every position ends the tick inside it.
    pub fn step(&mut self, cfg: &Configuration, width: i64, height: i64)
        ensures
            final(self)@ == step_spec(old(self)@, *cfg, width, height),
            final(self)@.len() == old(self)@.len(),
            forall|k: int|
                0 <= k < final(self)@.len() ==> 10000 <= len_sq(
                    #[trigger] final(self)@[k].velocity,
                ) <= 1000000,
            width >= 0 && height >= 0 ==> forall|k: int|
                0 <= k < final(self)@.len() ==> 0 <= #[trigger] final(self)@[k].position.x
                    <= width && 0 <= final(self)@[k].position.y <= height,
    {
        update_boids(&mut self.boids, cfg);
        push_boids_away_from_walls(&mut self.boids, width, height);
        confine_boids(&mut self.boids, width, height);
    }
}

/// Relies on rand::random::<u64>: a sample from the host's entropy
/// source; nothing is assumed of the value.
#[verifier::external_body]
fn random_u64() -> u64 {
    rand::random::<u64>()
}

/// Half of a nonnegative extent (zero for a negative one), as spawning
/// confines fresh agents to half the viewport.
pub open spec fn half_extent(w: i64) -> int {
    if w >= 0 {
        (w as int) / 2
    } else {
        0
    }
}

/// What spawning guarantees of one agent: each position coordinate lies
/// in `[0, extent / 2)` (zero where the halved extent is zero), and the
/// velocity has unit length up to rounding.
pub open spec fn well_spawned(b: Boid, width: i64, height: i64) -> bool {
    &&& 0 <= b.position.x
    &&& (half_extent(width) > 0 ==> b.position.x < half_extent(width))
    &&& (half_extent(width) == 0 ==> b.position.x == 0)
    &&& 0 <= b.position.y
    &&& (half_extent(height) > 0 ==> b.position.y < half_extent(height))
    &&& (half_extent(height) == 0 ==> b.position.y == 0)
    &&& 1000000 <= len_sq(b.velocity) <= 2000000
}

/// The agent built from four raw samples: the position reduces the
/// first two samples into `[0, width / 2) x [0, height / 2)`, and the
/// velocity is a raw vector with components in `[0, 1000)` rescaled to
/// unit length (the zero vector falls back to the unit vector along x).
pub open spec fn make_boid_spec(
    rx: u64,
    ry: u64,
    rvx: u64,
    rvy: u64,
    width: i64,
    height: i64,
) -> Boid {
    let px = if half_extent(width) > 0 {
        (rx as int) % half_extent(width)
    } else {
        0
    };
    let py = if half_extent(height) > 0 {
        (ry as int) % half_extent(height)
    } else {
        0
    };
    let raw = Vec2 { x: ((rvx as int) % 1000) as i64, y: ((rvy as int) % 1000) as i64 };
    Boid { position: Vec2 { x: px as i64, y: py as i64 }, velocity: normalize_spec(raw) }
}

/// Build one agent from four raw samples, deterministically.
pub fn make_boid(rx: u64, ry: u64, rvx: u64, rvy: u64, width: i64, height: i64) -> (b: Boid)
    ensures
        b == make_boid_spec(rx, ry, rvx, rvy, width, height),
        well_spawned(b, width, height),
{
    let half_w: u64 = if width >= 0 {
        (width as u64) / 2
    } else {
        0
    };
    let half_h: u64 = if height >= 0 {
        (height as u64) / 2
    } else {
        0
    };
    let px: u64 = if half_w > 0 {
        rx % half_w
    } else {
        0
    };
    let py: u64 = if half_h > 0 {
        ry % half_h
    } else {
        0
    };
    let raw = Vec2 { x: (rvx % 1000) as i64, y: (rvy % 1000) as i64 };
    proof {
        assert(len_sq(raw) <= 2000000) by (nonlinear_arith)
            requires
                0 <= raw.x < 1000,
                0 <= raw.y < 1000,
        ;
    }
    let vel = normalize(raw);
    Boid { position: Vec2 { x: px as i64, y: py as i64 }, velocity: vel }
}

/// Spawn `n` agents from the host's entropy source: positions uniform
/// in half the viewport, velocities of unit length up to rounding.
pub fn spawn_boids(n: usize, width: i64, height: i64) -> (r: Vec<Boid>)
    ensures
        r@.len() == n,
        forall|k: int| 0 <= k < n ==> well_spawned(#[trigger] r@[k], width, height),
{
    let mut out: Vec<Boid> = Vec::new();
    let mut k: usize = 0;
    while k < n
        invariant
            out@.len() == k,
            k <= n,
            forall|m: int| 0 <= m < k ==> well_spawned(#[trigger] out@[m], width, height),
        decreases n - k,
    {
        let b = make_boid(random_u64(), random_u64(), random_u64(), random_u64(), width, height);
        out.push(b);
        k = k + 1;
    }
    out
}

/// Cohesion symmetry: within a pair, the cohesion nudges the two agents
/// receive are exact opposites, componentwise, whenever neither
/// coordinate difference saturates the fixed-point range.
pub proof fn lemma_cohesion_antisymmetric(p1: Vec2, p2: Vec2, divisor: int)
    requires
        divisor >= 1,
        -(i64::MAX as int) <= p1.x - p2.x <= i64::MAX as int,
        -(i64::MAX as int) <= p1.y - p2.y <= i64::MAX as int,
    ensures
        cohesion_nudge(p1, p2, divisor).x as int == -(cohesion_nudge(p2, p1, divisor).x as int),
        cohesion_nudge(p1, p2, divisor).y as int == -(cohesion_nudge(p2, p1, divisor).y as int),
{
    lemma_cohesion_antisymmetric_axis(p1.x as int, p2.x as int, divisor);
    lemma_cohesion_antisymmetric_axis(p1.y as int, p2.y as int, divisor);
}

/// One axis of the cohesion symmetry: truncated division by a positive
/// divisor is symmetric under negation of the difference.
proof fn lemma_cohesion_antisymmetric_axis(a: int, b: int, divisor: int)
    requires
        divisor >= 1,
        -(i64::MAX as int) <= a - b <= i64::MAX as int,
    ensures
        div_trunc(sat64(b - a), divisor) == -div_trunc(sat64(a - b), divisor),
{
    assert(sat64(b - a) == b - a && sat64(a - b) == a - b);
    lemma_div_trunc_neg(a - b, divisor);
}

} // verus!
