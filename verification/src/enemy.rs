//! The enemy behaviour state machine.
//!
//! An enemy is idle, wandering toward a sampled destination, or attacking
//! with a sweeping beam.  The three modes are one tagged field, so no enemy
//! can be claimed by two behaviours at once.  Each tick the host hands in the
//! elapsed milliseconds, a freshly sampled destination (already checked
//! against the navmesh; `None` means the sample was rejected or no mesh
//! exists), the swept beam direction while attacking, and the player's
//! whereabouts; the step functions here make every decision.

use vstd::prelude::*;

verus! {

use crate::DT_LIMIT;
use crate::beam::beam_hits_circle;
use crate::geom::{
    COORD_LIMIT, DIR_LIMIT, TARGET_LIMIT, Vec2, advance_toward, dist_sq, dist_sq_between, in_box,
    isqrt, stepped,
};
use crate::health::{Health, DamageEvent, hp_wf};
use crate::smooth::{ease_toward, eased, lemma_ease_converges};

/// How long an eyeball's beam attack lasts, in milliseconds.
pub const EYE_ATTACK_MS: i64 = 2000;

/// How long a flock-sphere's beam attack lasts, in milliseconds.
pub const FLOCK_ATTACK_MS: i64 = 5000;

/// Cooldown armed after each successful beam hit, in milliseconds.
pub const HIT_COOLDOWN_MS: i64 = 200;

/// Length of the attack beam (milli-units).
pub const BEAM_LENGTH: i64 = 2000;

/// Radius of the circle around a target that the beam must meet
/// (milli-units).
pub const TARGET_RADIUS: i64 = 500;

/// An arriving eyeball attacks only if the player is closer than this
/// (milli-units); a flock-sphere attacks unconditionally.
pub const AGGRO_RADIUS: i64 = 3000;

/// Strength of one beam hit, in milli hit points.
pub const BEAM_STRENGTH: i64 = 5000;

/// A wanderer has arrived once it is closer to its destination than this
/// (milli-units).
pub const ARRIVE_RADIUS: i64 = 100;

/// Starting health of an eyeball, in milli hit points.
pub const EYE_HEALTH: i64 = 50_000;

/// Starting health of a flock-sphere, in milli hit points.
pub const FLOCK_HEALTH: i64 = 25_000;

/// Spawn-animation grace: a fresh enemy does not pick wander targets until
/// this many milliseconds have passed.
pub const SPAWN_GRACE_MS: i64 = 250;

/// Time constant of the facing's easing toward the travel direction.
pub const FACING_TAU: i64 = 200;

/// The two hostile actor variants.
#[derive(Clone, Copy, Debug, PartialEq, Eq, Structural)]
pub enum EnemyKind {
    Eyeball,
    FlockSphere,
}

/// The behavioural mode an enemy is in; exactly one at a time.
#[derive(Clone, Copy, Debug, PartialEq, Eq, Structural)]
pub enum Mode {
    /// Not moving and not attacking; eligible for a wander target.
    Idle,
    /// Pacing from `from` toward `to` at unit speed.
    Wandering { from: Vec2, to: Vec2 },
    /// Sweeping the beam; both timers count down in milliseconds, and a
    /// cooldown of zero means hits are not gated.
    Attacking { attack_left: i64, cooldown_left: i64 },
}

/// One hostile actor.
#[derive(Clone, Copy, Debug, PartialEq, Eq, Structural)]
pub struct Enemy {
    pub id: u64,
    pub kind: EnemyKind,
    pub pos: Vec2,
    /// The heading, eased toward the travel direction while wandering and
    /// snapped to the player when an eyeball starts attacking.
    pub facing: Vec2,
    /// Remaining spawn-animation grace, in milliseconds.
    pub grace_left: i64,
    pub mode: Mode,
    pub health: Health,
}

/// The health a fresh enemy of this kind starts with.
pub open spec fn spawn_health(kind: EnemyKind) -> int {
    match kind {
        EnemyKind::Eyeball => EYE_HEALTH as int,
        EnemyKind::FlockSphere => FLOCK_HEALTH as int,
    }
}

/// Whether an arriving enemy of this kind attacks only when the player is
/// within `AGGRO_RADIUS`.
pub open spec fn aggro_gated(kind: EnemyKind) -> bool {
    kind is Eyeball
}

/// Well-formed enemy: position in the arena, bounded heading and timers,
/// wander targets inside the sampling box, a live attack timer.
pub open spec fn enemy_wf(e: Enemy) -> bool {
    &&& in_box(e.pos, COORD_LIMIT as int)
    &&& in_box(e.facing, DIR_LIMIT as int)
    &&& 0 <= e.grace_left <= SPAWN_GRACE_MS
    &&& hp_wf(e.health)
    &&& match e.mode {
        Mode::Idle => true,
        Mode::Wandering { from, to } => in_box(from, COORD_LIMIT as int) && in_box(
            to,
            TARGET_LIMIT as int,
        ),
        Mode::Attacking { attack_left, cooldown_left } => 1 <= attack_left <= FLOCK_ATTACK_MS
            && 0 <= cooldown_left <= HIT_COOLDOWN_MS,
    }
}

/// Spawn-grace countdown: one tick of the spawn animation timers.
pub open spec fn settled(e: Enemy, dt: int) -> Enemy {
    if e.grace_left <= dt {
        Enemy { grace_left: 0, ..e }
    } else {
        Enemy { grace_left: (e.grace_left - dt) as i64, ..e }
    }
}

/// Wander-target assignment: an idle enemy past its spawn grace starts
/// wandering from its position toward an accepted sample; a rejected sample
/// (or a missing navmesh) leaves it idle for this tick.
pub open spec fn wander_assigned(e: Enemy, sample: Option<Vec2>) -> Enemy {
    match sample {
        Option::Some(s) => {
            if e.mode is Idle && e.grace_left == 0 {
                Enemy { mode: Mode::Wandering { from: e.pos, to: s }, ..e }
            } else {
                e
            }
        },
        Option::None => e,
    }
}

/// The integer square root, as a specification value: the unique `r >= 0`
/// with `r * r <= n < (r + 1) * (r + 1)`.
pub open spec fn int_sqrt(n: int) -> int {
    choose|r: int| r >= 0 && #[trigger] (r * r) <= n && n < (r + 1) * (r + 1)
}

/// A witness pins `int_sqrt` down.
pub proof fn lemma_int_sqrt_unique(n: int, r: int)
    requires
        r >= 0,
        r * r <= n < (r + 1) * (r + 1),
    ensures
        int_sqrt(n) == r,
{
    assert(exists|r2: int| r2 >= 0 && #[trigger] (r2 * r2) <= n && n < (r2 + 1) * (r2 + 1)) by {
        assert(r >= 0 && r * r <= n && n < (r + 1) * (r + 1));
    }
    let r2 = int_sqrt(n);
    assert(r2 >= 0 && r2 * r2 <= n && n < (r2 + 1) * (r2 + 1));
    if r2 < r {
        assert((r2 + 1) * (r2 + 1) <= r * r) by (nonlinear_arith)
            requires
                0 <= r2 < r,
        ;
    }
    if r < r2 {
        assert((r + 1) * (r + 1) <= r2 * r2) by (nonlinear_arith)
            requires
                0 <= r < r2,
        ;
    }
}

/// Whether a wandering enemy has arrived at its destination.
pub open spec fn arrived(e: Enemy, to: Vec2) -> bool {
    dist_sq(e.pos, to) < ARRIVE_RADIUS * ARRIVE_RADIUS
}

/// The enemy after one wander-movement tick.
///
/// On arrival no further movement is applied toward that destination: the
/// enemy either turns to attack (unconditionally for a flock-sphere, only
/// with the player within `AGGRO_RADIUS` for an eyeball, snapping its facing
/// to the player), or — for an eyeball with no player near — starts toward a
/// newly accepted sample, or keeps waiting at the old destination.  While
/// under way it covers `dt` milli-units along the straight line and its
/// facing eases toward the direction of travel.
#[verifier::opaque]
pub open spec fn wander_moved(
    e: Enemy,
    dt: int,
    sample: Option<Vec2>,
    player_pos: Option<Vec2>,
) -> Enemy
    recommends
        e.mode is Wandering,
{
    match e.mode {
        Mode::Wandering { from, to } => {
            if arrived(e, to) {
                if aggro_gated(e.kind) {
                    match player_pos {
                        Option::Some(p) => {
                            if dist_sq(p, e.pos) < AGGRO_RADIUS * AGGRO_RADIUS {
                                Enemy {
                                    mode: Mode::Attacking {
                                        attack_left: EYE_ATTACK_MS,
                                        cooldown_left: 0,
                                    },
                                    facing: Vec2 {
                                        x: (p.x - e.pos.x) as i64,
                                        z: (p.z - e.pos.z) as i64,
                                    },
                                    ..e
                                }
                            } else {
                                wander_resampled(e, sample)
                            }
                        },
                        Option::None => wander_resampled(e, sample),
                    }
                } else {
                    Enemy {
                        mode: Mode::Attacking {
                            attack_left: FLOCK_ATTACK_MS,
                            cooldown_left: 0,
                        },
                        ..e
                    }
                }
            } else {
                let dist = int_sqrt(dist_sq(e.pos, to));
                let np = Vec2 {
                    x: stepped(e.pos.x as int, to.x as int, dt, dist) as i64,
                    z: stepped(e.pos.z as int, to.z as int, dt, dist) as i64,
                };
                Enemy {
                    pos: np,
                    facing: Vec2 {
                        x: eased(e.facing.x as int, to.x - np.x, dt, FACING_TAU as int) as i64,
                        z: eased(e.facing.z as int, to.z - np.z, dt, FACING_TAU as int) as i64,
                    },
                    ..e
                }
            }
        },
        _ => e,
    }
}

/// An arrived eyeball with no player in range: pick a new destination from
/// the sample, or stay put when the sample was rejected.
pub open spec fn wander_resampled(e: Enemy, sample: Option<Vec2>) -> Enemy {
    match sample {
        Option::Some(s) => Enemy { mode: Mode::Wandering { from: e.pos, to: s }, ..e },
        Option::None => e,
    }
}

/// The beam direction used this tick: the sweep direction handed in by the
/// host, or the stored facing when none came.
pub open spec fn beam_of(e: Enemy, beam_in: Option<Vec2>) -> Vec2 {
    match beam_in {
        Option::Some(b) => b,
        Option::None => e.facing,
    }
}

/// Whether this attack tick scores a hit: the attack is still running after
/// this tick, the cooldown has run out, a player exists, and the beam —
/// a nonzero direction — meets the circle around the player.
pub open spec fn attack_emits(
    e: Enemy,
    dt: int,
    beam_in: Option<Vec2>,
    player: Option<(u64, Vec2)>,
) -> bool {
    &&& e.mode matches Mode::Attacking { attack_left, cooldown_left }
    &&& e.mode matches Mode::Attacking { attack_left, cooldown_left } ==> {
        &&& attack_left > dt
        &&& cooldown_left <= dt
        &&& player matches Option::Some(p) && !(beam_of(e, beam_in).x == 0 && beam_of(
            e,
            beam_in,
        ).z == 0) && beam_hits_circle(
            e.pos,
            beam_of(e, beam_in),
            BEAM_LENGTH as int,
            p.1,
            TARGET_RADIUS as int,
        )
    }
}

/// The damage event one beam hit raises.
pub open spec fn beam_event(e: Enemy, receiver: u64) -> DamageEvent {
    DamageEvent { attacker: e.id, receiver, strength: BEAM_STRENGTH }
}

/// The enemy after one attack tick: the attack ends (dropping all its data)
/// once its timer runs out, and an ending tick scores no hit; otherwise the
/// cooldown counts down, and a hit re-arms it at `HIT_COOLDOWN_MS`.
pub open spec fn attack_next(
    e: Enemy,
    dt: int,
    beam_in: Option<Vec2>,
    player: Option<(u64, Vec2)>,
) -> Enemy
    recommends
        e.mode is Attacking,
{
    match e.mode {
        Mode::Attacking { attack_left, cooldown_left } => {
            if attack_left <= dt {
                Enemy { mode: Mode::Idle, ..e }
            } else {
                let cd = if attack_emits(e, dt, beam_in, player) {
                    HIT_COOLDOWN_MS as int
                } else if cooldown_left <= dt {
                    0
                } else {
                    cooldown_left - dt
                };
                Enemy {
                    mode: Mode::Attacking {
                        attack_left: (attack_left - dt) as i64,
                        cooldown_left: cd as i64,
                    },
                    ..e
                }
            }
        },
        _ => e,
    }
}

/// A tick spent inside the hit cooldown never scores: the window between two
/// hits is at least `HIT_COOLDOWN_MS` of elapsed time.
pub proof fn lemma_cooldown_gates_hits(
    e: Enemy,
    dt: int,
    beam_in: Option<Vec2>,
    player: Option<(u64, Vec2)>,
)
    ensures
        (e.mode matches Mode::Attacking { cooldown_left, .. } && cooldown_left > dt)
            ==> !attack_emits(e, dt, beam_in, player),
        attack_emits(e, dt, beam_in, player) ==> (attack_next(
            e,
            dt,
            beam_in,
            player,
        ).mode matches Mode::Attacking { cooldown_left, .. } && cooldown_left == HIT_COOLDOWN_MS),
{
}

/// One tick's worth of host input to an attack step.
pub struct AttackTick {
    pub dt: int,
    pub beam: Option<Vec2>,
    pub player: Option<(u64, Vec2)>,
}

/// The enemy after a run of attack ticks, first tick first.
pub open spec fn run_attack(e: Enemy, steps: Seq<AttackTick>) -> Enemy
    decreases steps.len(),
{
    if steps.len() == 0 {
        e
    } else {
        run_attack(
            attack_next(e, steps.first().dt, steps.first().beam, steps.first().player),
            steps.drop_first(),
        )
    }
}

/// Whether any tick of the run scores a hit.
pub open spec fn any_emits(e: Enemy, steps: Seq<AttackTick>) -> bool
    decreases steps.len(),
{
    if steps.len() == 0 {
        false
    } else {
        attack_emits(e, steps.first().dt, steps.first().beam, steps.first().player) || any_emits(
            attack_next(e, steps.first().dt, steps.first().beam, steps.first().player),
            steps.drop_first(),
        )
    }
}

/// Total elapsed time over a run of ticks.
pub open spec fn run_time(steps: Seq<AttackTick>) -> int
    decreases steps.len(),
{
    if steps.len() == 0 {
        0
    } else {
        steps.first().dt + run_time(steps.drop_first())
    }
}

/// All the run's ticks take nonnegative time.
pub open spec fn ticks_nonneg(steps: Seq<AttackTick>) -> bool {
    forall|i: int| 0 <= i < steps.len() ==> (#[trigger] steps[i]).dt >= 0
}

/// An enemy that is not attacking scores no hit, however long the run:
/// attack ticks leave it untouched.
pub proof fn lemma_not_attacking_never_emits(e: Enemy, steps: Seq<AttackTick>)
    requires
        !(e.mode is Attacking),
    ensures
        !any_emits(e, steps),
        run_attack(e, steps) == e,
    decreases steps.len(),
{
    if steps.len() > 0 {
        lemma_not_attacking_never_emits(e, steps.drop_first());
    }
}

/// While the armed cooldown outlasts the run's total elapsed time, no tick
/// of the run scores, whatever the beam sweeps to and wherever the player
/// moves.
pub proof fn lemma_cooldown_window_blocks_hits(e: Enemy, steps: Seq<AttackTick>)
    requires
        e.mode matches Mode::Attacking { cooldown_left, .. } && run_time(steps) < cooldown_left,
        ticks_nonneg(steps),
    ensures
        !any_emits(e, steps),
    decreases steps.len(),
{
    if steps.len() > 0 {
        let t = steps.first();
        let rest = steps.drop_first();
        assert(ticks_nonneg(rest)) by {
            assert(forall|i: int| 0 <= i < rest.len() ==> rest[i] == steps[i + 1]);
        }
        assert(run_time(rest) >= 0) by {
            lemma_run_time_nonneg(rest);
        }
        assert(t.dt < e.mode->Attacking_cooldown_left);
        assert(!attack_emits(e, t.dt, t.beam, t.player));
        let e2 = attack_next(e, t.dt, t.beam, t.player);
        if e.mode->Attacking_attack_left <= t.dt {
            lemma_not_attacking_never_emits(e2, rest);
        } else {
            assert(e2.mode->Attacking_cooldown_left == e.mode->Attacking_cooldown_left - t.dt);
            lemma_cooldown_window_blocks_hits(e2, rest);
        }
    }
}

/// A run of nonnegative ticks takes nonnegative time.
proof fn lemma_run_time_nonneg(steps: Seq<AttackTick>)
    requires
        ticks_nonneg(steps),
    ensures
        run_time(steps) >= 0,
    decreases steps.len(),
{
    if steps.len() > 0 {
        let rest = steps.drop_first();
        assert(ticks_nonneg(rest)) by {
            assert(forall|i: int| 0 <= i < rest.len() ==> rest[i] == steps[i + 1]);
        }
        lemma_run_time_nonneg(rest);
    }
}

/// A scored hit opens a full cooldown window: after it, no run of ticks
/// totalling less than `HIT_COOLDOWN_MS` of elapsed time scores again — the
/// target is hit at most once per cooldown window.
pub proof fn lemma_hit_at_most_once_per_window(
    e: Enemy,
    dt: int,
    beam: Option<Vec2>,
    player: Option<(u64, Vec2)>,
    steps: Seq<AttackTick>,
)
    requires
        attack_emits(e, dt, beam, player),
        ticks_nonneg(steps),
        run_time(steps) < HIT_COOLDOWN_MS,
    ensures
        !any_emits(attack_next(e, dt, beam, player), steps),
{
    lemma_cooldown_gates_hits(e, dt, beam, player);
    lemma_cooldown_window_blocks_hits(attack_next(e, dt, beam, player), steps);
}

/// One spawn-grace tick, executed.
pub fn settle_step(e: Enemy, dt: i64) -> (r: Enemy)
    requires
        enemy_wf(e),
        0 <= dt <= DT_LIMIT,
    ensures
        r == settled(e, dt as int),
        enemy_wf(r),
{
    if e.grace_left <= dt {
        Enemy { grace_left: 0, ..e }
    } else {
        Enemy { grace_left: e.grace_left - dt, ..e }
    }
}

/// One wander-target assignment, executed.
pub fn assign_step(e: Enemy, sample: Option<Vec2>) -> (r: Enemy)
    requires
        enemy_wf(e),
        sample matches Option::Some(s) ==> in_box(s, TARGET_LIMIT as int),
    ensures
        r == wander_assigned(e, sample),
        enemy_wf(r),
{
    match sample {
        Option::Some(s) => {
            if matches!(e.mode, Mode::Idle) && e.grace_left == 0 {
                Enemy { mode: Mode::Wandering { from: e.pos, to: s }, ..e }
            } else {
                e
            }
        },
        Option::None => e,
    }
}

/// One wander-movement tick, executed.  On arrival — within `ARRIVE_RADIUS`
/// of the destination — the position is left untouched.
pub fn wander_move_step(
    e: Enemy,
    dt: i64,
    sample: Option<Vec2>,
    player_pos: Option<Vec2>,
) -> (r: Enemy)
    requires
        enemy_wf(e),
        e.mode is Wandering,
        0 <= dt <= DT_LIMIT,
        sample matches Option::Some(s) ==> in_box(s, TARGET_LIMIT as int),
        player_pos matches Option::Some(p) ==> in_box(p, COORD_LIMIT as int),
    ensures
        r == wander_moved(e, dt as int, sample, player_pos),
        enemy_wf(r),
        arrived(e, e.mode->Wandering_to) ==> r.pos == e.pos,
        r.id == e.id && r.kind == e.kind && r.health == e.health && r.grace_left == e.grace_left,
{
    proof {
        reveal(wander_moved);
    }
    let (from, to) = match e.mode {
        Mode::Wandering { from, to } => (from, to),
        _ => (e.pos, e.pos),
    };
    let d2: i64 = dist_sq_between(e.pos, to);
    if d2 < ARRIVE_RADIUS * ARRIVE_RADIUS {
        if matches!(e.kind, EnemyKind::Eyeball) {
            let near: bool = match player_pos {
                Option::Some(p) => dist_sq_between(p, e.pos) < AGGRO_RADIUS * AGGRO_RADIUS,
                Option::None => false,
            };
            match player_pos {
                Option::Some(p) if near => Enemy {
                    mode: Mode::Attacking { attack_left: EYE_ATTACK_MS, cooldown_left: 0 },
                    facing: Vec2 { x: p.x - e.pos.x, z: p.z - e.pos.z },
                    ..e
                },
                _ => {
                    match sample {
                        Option::Some(s) => Enemy {
                            mode: Mode::Wandering { from: e.pos, to: s },
                            ..e
                        },
                        Option::None => e,
                    }
                },
            }
        } else {
            Enemy {
                mode: Mode::Attacking { attack_left: FLOCK_ATTACK_MS, cooldown_left: 0 },
                ..e
            }
        }
    } else {
        let root: u64 = isqrt(d2 as u64);
        proof {
            assert(root <= 2_000_000) by (nonlinear_arith)
                requires
                    root * root <= 2_880_000_000_000,
            ;
        }
        let dist: i64 = root as i64;
        proof {
            lemma_int_sqrt_unique(d2 as int, dist as int);
            assert(dist > 0) by (nonlinear_arith)
                requires
                    dist >= 0,
                    dist * dist <= d2,
                    d2 >= ARRIVE_RADIUS * ARRIVE_RADIUS,
                    d2 < (dist + 1) * (dist + 1),
                    ARRIVE_RADIUS == 100,
            ;
        }
        let np: Vec2 = advance_toward(e.pos, to, dt, dist);
        proof {
            lemma_ease_converges(e.facing.x as int, to.x - np.x, dt as int, FACING_TAU as int);
            lemma_ease_converges(e.facing.z as int, to.z - np.z, dt as int, FACING_TAU as int);
        }
        let fx: i64 = ease_toward(e.facing.x, to.x - np.x, dt, FACING_TAU);
        let fz: i64 = ease_toward(e.facing.z, to.z - np.z, dt, FACING_TAU);
        Enemy { pos: np, facing: Vec2 { x: fx, z: fz }, ..e }
    }
}

/// One attack tick, executed: returns the stepped enemy and the damage event
/// of a scored hit, if any.
pub fn attack_step(
    e: Enemy,
    dt: i64,
    beam_in: Option<Vec2>,
    player: Option<(u64, Vec2)>,
) -> (r: (Enemy, Option<DamageEvent>))
    requires
        enemy_wf(e),
        e.mode is Attacking,
        0 <= dt <= DT_LIMIT,
        beam_in matches Option::Some(b) ==> in_box(b, DIR_LIMIT as int),
        player matches Option::Some(p) ==> in_box(p.1, COORD_LIMIT as int),
    ensures
        r.0 == attack_next(e, dt as int, beam_in, player),
        enemy_wf(r.0),
        r.1 is Some <==> attack_emits(e, dt as int, beam_in, player),
        attack_emits(e, dt as int, beam_in, player) ==> (player matches Option::Some(p) && r.1
            == Option::Some(beam_event(e, p.0))),
{
    let (attack_left, cooldown_left) = match e.mode {
        Mode::Attacking { attack_left, cooldown_left } => (attack_left, cooldown_left),
        _ => (0, 0),
    };
    if attack_left <= dt {
        (Enemy { mode: Mode::Idle, ..e }, Option::None)
    } else {
        let beam: Vec2 = match beam_in {
            Option::Some(b) => b,
            Option::None => e.facing,
        };
        let mut hit: Option<DamageEvent> = Option::None;
        if cooldown_left <= dt {
            match player {
                Option::Some((pid, ppos)) => {
                    if !(beam.x == 0 && beam.z == 0) {
                        if crate::beam::beam_hit(e.pos, beam, BEAM_LENGTH, ppos, TARGET_RADIUS) {
                            hit = Option::Some(
                                DamageEvent {
                                    attacker: e.id,
                                    receiver: pid,
                                    strength: BEAM_STRENGTH,
                                },
                            );
                        }
                    }
                },
                Option::None => {},
            }
        }
        let cd: i64 = if hit.is_some() {
            HIT_COOLDOWN_MS
        } else if cooldown_left <= dt {
            0
        } else {
            cooldown_left - dt
        };
        (
            Enemy {
                mode: Mode::Attacking { attack_left: attack_left - dt, cooldown_left: cd },
                ..e
            },
            hit,
        )
    }
}

} // verus!
