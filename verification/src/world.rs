//! The world: every record the gameplay rules touch, and the fixed-order
//! tick that drives them.
//!
//! A tick runs the phases in the order the design relies on: spawn grace,
//! wander-target assignment (visible to the movement step of the same tick),
//! movement with its arrival transitions, the attack sweep that raises
//! damage events, a full FIFO drain of those events into the health records,
//! the display easing, the effect timers, the sweep that queues dead
//! non-player records, and finally the end-of-frame drain of the removal
//! queue — so nothing is destroyed while a phase might still read it, and
//! the player record is never auto-removed.

use vstd::prelude::*;

verus! {

use crate::{DT_LIMIT, HP_LIMIT, SCALE, STRENGTH_LIMIT};
use crate::enemy::{
    Enemy, EnemyKind, Mode, SPAWN_GRACE_MS, attack_emits, attack_next, beam_event, enemy_wf,
    settled, spawn_health, wander_assigned, wander_moved, assign_step, attack_step, settle_step,
    wander_move_step, EYE_HEALTH, FLOCK_HEALTH,
};
use crate::geom::{
    COORD_LIMIT, DIR_LIMIT, TARGET_LIMIT, Vec2, circles_overlap, circles_overlap_at, in_box,
};
use crate::health::{
    DamageEvent, Health, damaged, damaged_all, event_wf, hp_wf, lerp_display, apply_damage,
    DEAD_THRESHOLD,
};
use vstd::pervasive::VecAdditionalExecFns;


/// Strength of the player's hammer strike, in milli hit points.
pub const SMACK_STRENGTH: i64 = 20_000;

/// Radius of the hammer strike's area-of-effect circle (milli-units).
pub const SMACK_RADIUS: i64 = 1500;

/// Radius of the circle around each damageable entity that the strike tests
/// (milli-units).
pub const ENEMY_RADIUS: i64 = 500;

/// Lifetime of the strike's transient visual effect, in milliseconds.
pub const SMACK_LIFETIME_MS: i64 = 100;

/// Starting health of the player, in milli hit points.
pub const PLAYER_HEALTH: i64 = 50_000;

/// Effect centers may stand a strike's reach outside the arena box.
pub const EFFECT_LIMIT: i64 = 302_000;

/// The player's record: identity, position and health.
#[derive(Clone, Copy, Debug, PartialEq, Eq, Structural)]
pub struct PlayerRec {
    pub id: u64,
    pub pos: Vec2,
    pub health: Health,
}

/// A transient hammer-strike effect; its age drives the shader from zero to
/// full over `SMACK_LIFETIME_MS`, then it is queued for removal.
#[derive(Clone, Copy, Debug, PartialEq, Eq, Structural)]
pub struct SmackEffect {
    pub id: u64,
    pub pos: Vec2,
    pub age: i64,
}

/// What the host hands in for one enemy on one tick: a sampled wander
/// destination (`None`: rejected or no navmesh) and the current sweep
/// direction of its beam (`None`: use the stored facing).
#[derive(Clone, Copy, Debug, PartialEq, Eq, Structural)]
pub struct EnemyInput {
    pub sample: Option<Vec2>,
    pub beam: Option<Vec2>,
}

/// Bounds on one enemy's tick input.
pub open spec fn input_wf(inp: EnemyInput) -> bool {
    &&& (inp.sample matches Option::Some(s) ==> in_box(s, TARGET_LIMIT as int))
    &&& (inp.beam matches Option::Some(b) ==> in_box(b, DIR_LIMIT as int))
}

/// All of one tick's inputs are bounded and cover each enemy once.
pub open spec fn inputs_wf(inputs: Seq<EnemyInput>, n: int) -> bool {
    &&& inputs.len() == n
    &&& forall|i: int| 0 <= i < inputs.len() ==> input_wf(#[trigger] inputs[i])
}

/// The whole game state the rules operate on.
pub struct World {
    pub enemies: Vec<Enemy>,
    pub player: Option<PlayerRec>,
    /// Damage raised this tick, drained in order before the removal sweep.
    pub damage_queue: Vec<DamageEvent>,
    /// Entities queued for removal, drained at the end of the frame.
    pub pending_removal: Vec<u64>,
    pub effects: Vec<SmackEffect>,
    /// Source of fresh entity identities; above every id in use.
    pub next_id: u64,
}

/// The player's identity and position, as the behaviour steps consume them.
pub open spec fn player_pair(p: Option<PlayerRec>) -> Option<(u64, Vec2)> {
    match p {
        Option::Some(pr) => Option::Some((pr.id, pr.pos)),
        Option::None => Option::None,
    }
}

/// Period of the repeating timer that paces random enemy spawns, in
/// milliseconds.
pub const SPAWN_PERIOD_MS: i64 = 5000;

/// The repeating countdown that paces random enemy spawns: it fires once
/// when its remaining time runs out within a tick, then rewinds to its full
/// period — at most one spawn per expiry.
#[derive(Clone, Copy, Debug, PartialEq, Eq, Structural)]
pub struct SpawnCadence {
    /// Time left until the next expiry, in milliseconds.
    pub remaining: i64,
    /// The full period, in milliseconds.
    pub period: i64,
}

/// Well-formed cadence: a positive period, the countdown within it.
pub open spec fn cadence_wf(c: SpawnCadence) -> bool {
    0 < c.period <= 86_400_000 && 0 < c.remaining <= c.period
}

impl SpawnCadence {
    /// A fresh countdown over the given period.
    pub fn new(period: i64) -> (c: SpawnCadence)
        requires
            0 < period <= 86_400_000,
        ensures
            c.period == period,
            c.remaining == period,
            cadence_wf(c),
    {
        SpawnCadence { remaining: period, period }
    }

    /// One tick of the countdown; the result says whether it fired.
    pub fn tick(&mut self, dt: i64) -> (fired: bool)
        requires
            cadence_wf(*old(self)),
            0 <= dt <= crate::DT_LIMIT,
        ensures
            fired == (old(self).remaining <= dt),
            final(self).period == old(self).period,
            final(self).remaining == (if old(self).remaining <= dt {
                old(self).period as int
            } else {
                old(self).remaining - dt
            }),
            cadence_wf(*final(self)),
    {
        if self.remaining <= dt {
            self.remaining = self.period;
            true
        } else {
            self.remaining = self.remaining - dt;
            false
        }
    }
}

/// The enemy a spawn creates: idle, facing along the first axis, with its
/// kind's full health and the spawn-animation grace still to run.
pub open spec fn fresh_enemy(kind: EnemyKind, pos: Vec2, id: u64) -> Enemy {
    Enemy {
        id,
        kind,
        pos,
        facing: Vec2 { x: SCALE, z: 0 },
        grace_left: SPAWN_GRACE_MS,
        mode: Mode::Idle,
        health: Health {
            total: spawn_health(kind) as i64,
            last: spawn_health(kind) as i64,
            current: spawn_health(kind) as i64,
        },
    }
}

/// The player's position alone.
pub open spec fn player_pos(p: Option<PlayerRec>) -> Option<Vec2> {
    match p {
        Option::Some(pr) => Option::Some(pr.pos),
        Option::None => Option::None,
    }
}

impl World {
    /// Well-formed world: every record bounded, every identity distinct and
    /// below `next_id`.
    pub open spec fn wf(self) -> bool {
        &&& forall|i: int|
            0 <= i < self.enemies.len() ==> enemy_wf(#[trigger] self.enemies@[i])
        &&& forall|i: int|
            0 <= i < self.enemies.len() ==> (#[trigger] self.enemies@[i]).id < self.next_id
        &&& forall|i: int, j: int|
            0 <= i < j < self.enemies.len() ==> (#[trigger] self.enemies@[i]).id != (
            #[trigger] self.enemies@[j]).id
        &&& match self.player {
            Option::Some(p) => {
                &&& in_box(p.pos, COORD_LIMIT as int)
                &&& hp_wf(p.health)
                &&& p.id < self.next_id
                &&& forall|i: int|
                    0 <= i < self.enemies.len() ==> (#[trigger] self.enemies@[i]).id != p.id
            },
            Option::None => true,
        }
        &&& forall|i: int|
            0 <= i < self.damage_queue.len() ==> event_wf(#[trigger] self.damage_queue@[i])
        &&& forall|i: int, j: int|
            0 <= i < j < self.pending_removal.len() ==> self.pending_removal@[i] != (
            self.pending_removal@[j])
        &&& forall|i: int|
            0 <= i < self.effects.len() ==> {
                &&& in_box((#[trigger] self.effects@[i]).pos, EFFECT_LIMIT as int)
                &&& 0 <= self.effects@[i].age <= SMACK_LIFETIME_MS
                &&& self.effects@[i].id < self.next_id
            }
        &&& forall|i: int, j: int|
            0 <= i < j < self.effects.len() ==> (#[trigger] self.effects@[i]).id != (
            #[trigger] self.effects@[j]).id
    }

    /// An empty world.
    pub fn new() -> (w: World)
        ensures
            w.wf(),
            w.enemies@.len() == 0,
            w.player is None,
            w.damage_queue@.len() == 0,
            w.pending_removal@.len() == 0,
            w.effects@.len() == 0,
            w.next_id == 0,
    {
        World {
            enemies: Vec::new(),
            player: Option::None,
            damage_queue: Vec::new(),
            pending_removal: Vec::new(),
            effects: Vec::new(),
            next_id: 0,
        }
    }

    /// Spawn an enemy of the given kind at a walkable position.  It starts
    /// idle, facing along the first axis, with its kind's full health and
    /// the spawn-animation grace still to run.
    pub fn spawn_enemy(&mut self, kind: EnemyKind, pos: Vec2) -> (id: u64)
        requires
            old(self).wf(),
            in_box(pos, TARGET_LIMIT as int),
            old(self).next_id < u64::MAX,
        ensures
            final(self).wf(),
            id == old(self).next_id,
            final(self).next_id == old(self).next_id + 1,
            final(self).enemies@ == old(self).enemies@.push(fresh_enemy(kind, pos, id)),
            final(self).player == old(self).player,
            final(self).damage_queue == old(self).damage_queue,
            final(self).pending_removal == old(self).pending_removal,
            final(self).effects == old(self).effects,
    {
        let id: u64 = self.next_id;
        let total: i64 = match kind {
            EnemyKind::Eyeball => EYE_HEALTH,
            EnemyKind::FlockSphere => FLOCK_HEALTH,
        };
        let e = Enemy {
            id,
            kind,
            pos,
            facing: Vec2 { x: SCALE, z: 0 },
            grace_left: SPAWN_GRACE_MS,
            mode: Mode::Idle,
            health: Health::new(total),
        };
        self.enemies.push(e);
        self.next_id = id + 1;
        id
    }

    /// Spawn an enemy at a sampled point, or do nothing when the sample was
    /// rejected: a spawn attempt whose sample fell off the navmesh is
    /// skipped, not retried.
    pub fn spawn_at_sample(&mut self, kind: EnemyKind, sample: Option<Vec2>) -> (r: Option<u64>)
        requires
            old(self).wf(),
            sample matches Option::Some(s) ==> in_box(s, TARGET_LIMIT as int),
            old(self).next_id < u64::MAX,
        ensures
            final(self).wf(),
            sample is None ==> r is None && *final(self) == *old(self),
            sample matches Option::Some(s) ==> {
                &&& r == Option::Some(old(self).next_id)
                &&& final(self).next_id == old(self).next_id + 1
                &&& final(self).enemies@ == old(self).enemies@.push(
                    fresh_enemy(kind, s, old(self).next_id),
                )
                &&& final(self).player == old(self).player
                &&& final(self).damage_queue == old(self).damage_queue
                &&& final(self).pending_removal == old(self).pending_removal
                &&& final(self).effects == old(self).effects
            },
    {
        match sample {
            Option::Some(s) => Option::Some(self.spawn_enemy(kind, s)),
            Option::None => Option::None,
        }
    }

    /// Install the player at a position, with the remaining health carried
    /// over from an earlier life, or a fresh record at full health.
    pub fn spawn_player(&mut self, pos: Vec2, remaining: Option<Health>) -> (id: u64)
        requires
            old(self).wf(),
            in_box(pos, COORD_LIMIT as int),
            remaining matches Option::Some(h) ==> hp_wf(h),
            old(self).next_id < u64::MAX,
        ensures
            final(self).wf(),
            id == old(self).next_id,
            final(self).next_id == old(self).next_id + 1,
            final(self).player matches Option::Some(p) && p.id == id && p.pos == pos && (
            match remaining {
                Option::Some(h) => p.health == h,
                Option::None => p.health == Health {
                    total: PLAYER_HEALTH,
                    last: PLAYER_HEALTH,
                    current: PLAYER_HEALTH,
                },
            }),
            final(self).enemies == old(self).enemies,
            final(self).damage_queue == old(self).damage_queue,
            final(self).pending_removal == old(self).pending_removal,
            final(self).effects == old(self).effects,
    {
        let id: u64 = self.next_id;
        let health: Health = match remaining {
            Option::Some(h) => h,
            Option::None => Health::new(PLAYER_HEALTH),
        };
        self.player = Option::Some(PlayerRec { id, pos, health });
        self.next_id = id + 1;
        id
    }

    /// Move the player; the controls that decide where live with the host.
    pub fn set_player_pos(&mut self, pos: Vec2)
        requires
            old(self).wf(),
            in_box(pos, COORD_LIMIT as int),
        ensures
            final(self).wf(),
            final(self).player matches Option::Some(p) <==> old(self).player is Some,
            old(self).player matches Option::Some(p) ==> final(self).player == Option::Some(
                PlayerRec { pos, ..p },
            ),
            old(self).player is None ==> *final(self) == *old(self),
            final(self).enemies == old(self).enemies,
            final(self).damage_queue == old(self).damage_queue,
            final(self).pending_removal == old(self).pending_removal,
            final(self).effects == old(self).effects,
            final(self).next_id == old(self).next_id,
    {
        match self.player {
            Option::Some(p) => {
                self.player = Option::Some(PlayerRec { pos, ..p });
            },
            Option::None => {},
        }
    }

    /// Push a damage event for later resolution; one the host raises, or a
    /// test injects.
    pub fn queue_damage(&mut self, ev: DamageEvent)
        requires
            old(self).wf(),
            -STRENGTH_LIMIT <= ev.strength <= STRENGTH_LIMIT,
        ensures
            final(self).wf(),
            final(self).damage_queue@ == old(self).damage_queue@.push(ev),
            final(self).enemies == old(self).enemies,
            final(self).player == old(self).player,
            final(self).pending_removal == old(self).pending_removal,
            final(self).effects == old(self).effects,
            final(self).next_id == old(self).next_id,
    {
        self.damage_queue.push(ev);
    }

    /// Spawn-grace phase: every enemy's grace timer counts down.
    pub fn settle_spawns(&mut self, dt: i64)
        requires
            old(self).wf(),
            0 <= dt <= DT_LIMIT,
        ensures
            final(self).wf(),
            final(self).enemies@.len() == old(self).enemies@.len(),
            forall|j: int|
                0 <= j < old(self).enemies@.len() ==> final(self).enemies@[j] == settled(
                    #[trigger] old(self).enemies@[j],
                    dt as int,
                ),
            final(self).player == old(self).player,
            final(self).damage_queue == old(self).damage_queue,
            final(self).pending_removal == old(self).pending_removal,
            final(self).effects == old(self).effects,
            final(self).next_id == old(self).next_id,
    {
        let n: usize = self.enemies.len();
        let mut i: usize = 0;
        while i < n
            invariant
                old(self).wf(),
                0 <= dt <= DT_LIMIT,
                i <= n,
                self.enemies@.len() == n,
                n == old(self).enemies@.len(),
                forall|j: int|
                    0 <= j < i ==> self.enemies@[j] == settled(
                        #[trigger] old(self).enemies@[j],
                        dt as int,
                    ),
                forall|j: int| i <= j < n ==> self.enemies@[j] == old(self).enemies@[j],
                forall|j: int|
                    0 <= j < n ==> enemy_wf(#[trigger] self.enemies@[j]) && self.enemies@[j].id
                        == old(self).enemies@[j].id,
                self.player == old(self).player,
                self.damage_queue == old(self).damage_queue,
                self.pending_removal == old(self).pending_removal,
                self.effects == old(self).effects,
                self.next_id == old(self).next_id,
            decreases n - i,
        {
            let e: Enemy = self.enemies[i];
            let e2: Enemy = settle_step(e, dt);
            self.enemies.set(i, e2);
            i += 1;
        }
    }

    /// Wander-assignment phase: idle enemies past their grace start toward
    /// their accepted samples; this runs before movement, which sees the new
    /// targets within the same tick.
    pub fn assign_wander_targets(&mut self, inputs: &Vec<EnemyInput>)
        requires
            old(self).wf(),
            inputs_wf(inputs@, old(self).enemies@.len() as int),
        ensures
            final(self).wf(),
            final(self).enemies@.len() == old(self).enemies@.len(),
            forall|j: int|
                0 <= j < old(self).enemies@.len() ==> final(self).enemies@[j] == wander_assigned(
                    #[trigger] old(self).enemies@[j],
                    inputs@[j].sample,
                ),
            final(self).player == old(self).player,
            final(self).damage_queue == old(self).damage_queue,
            final(self).pending_removal == old(self).pending_removal,
            final(self).effects == old(self).effects,
            final(self).next_id == old(self).next_id,
    {
        let n: usize = self.enemies.len();
        let mut i: usize = 0;
        while i < n
            invariant
                old(self).wf(),
                inputs_wf(inputs@, n as int),
                i <= n,
                self.enemies@.len() == n,
                n == old(self).enemies@.len(),
                forall|j: int|
                    0 <= j < i ==> self.enemies@[j] == wander_assigned(
                        #[trigger] old(self).enemies@[j],
                        inputs@[j].sample,
                    ),
                forall|j: int| i <= j < n ==> self.enemies@[j] == old(self).enemies@[j],
                forall|j: int|
                    0 <= j < n ==> enemy_wf(#[trigger] self.enemies@[j]) && self.enemies@[j].id
                        == old(self).enemies@[j].id,
                self.player == old(self).player,
                self.damage_queue == old(self).damage_queue,
                self.pending_removal == old(self).pending_removal,
                self.effects == old(self).effects,
                self.next_id == old(self).next_id,
            decreases n - i,
        {
            let e: Enemy = self.enemies[i];
            let e2: Enemy = assign_step(e, inputs[i].sample);
            self.enemies.set(i, e2);
            i += 1;
        }
    }

    /// Movement phase: every wandering enemy takes its step — or, on
    /// arrival, transitions as its kind dictates.
    #[verifier::rlimit(50)]
    pub fn move_wanderers(&mut self, dt: i64, inputs: &Vec<EnemyInput>)
        requires
            old(self).wf(),
            0 <= dt <= DT_LIMIT,
            inputs_wf(inputs@, old(self).enemies@.len() as int),
        ensures
            final(self).wf(),
            final(self).enemies@.len() == old(self).enemies@.len(),
            forall|j: int|
                0 <= j < old(self).enemies@.len() ==> final(self).enemies@[j] == moved_enemy(
                    #[trigger] old(self).enemies@[j],
                    dt as int,
                    inputs@[j].sample,
                    player_pos(old(self).player),
                ),
            final(self).player == old(self).player,
            final(self).damage_queue == old(self).damage_queue,
            final(self).pending_removal == old(self).pending_removal,
            final(self).effects == old(self).effects,
            final(self).next_id == old(self).next_id,
    {
        let n: usize = self.enemies.len();
        let ppos: Option<Vec2> = match &self.player {
            Option::Some(p) => Option::Some(p.pos),
            Option::None => Option::None,
        };
        let mut i: usize = 0;
        while i < n
            invariant
                old(self).wf(),
                0 <= dt <= DT_LIMIT,
                inputs_wf(inputs@, n as int),
                i <= n,
                self.enemies@.len() == n,
                n == old(self).enemies@.len(),
                ppos == player_pos(old(self).player),
                ppos matches Option::Some(p) ==> in_box(p, COORD_LIMIT as int),
                forall|j: int|
                    0 <= j < i ==> self.enemies@[j] == moved_enemy(
                        #[trigger] old(self).enemies@[j],
                        dt as int,
                        inputs@[j].sample,
                        player_pos(old(self).player),
                    ),
                forall|j: int| i <= j < n ==> self.enemies@[j] == old(self).enemies@[j],
                forall|j: int|
                    0 <= j < n ==> enemy_wf(#[trigger] self.enemies@[j]) && self.enemies@[j].id
                        == old(self).enemies@[j].id,
                self.player == old(self).player,
                self.damage_queue == old(self).damage_queue,
                self.pending_removal == old(self).pending_removal,
                self.effects == old(self).effects,
                self.next_id == old(self).next_id,
            decreases n - i,
        {
            let e: Enemy = self.enemies[i];
            let e2: Enemy = if matches!(e.mode, Mode::Wandering { .. }) {
                wander_move_step(e, dt, inputs[i].sample, ppos)
            } else {
                e
            };
            self.enemies.set(i, e2);
            i += 1;
        }
    }
}

/// The movement phase's effect on one enemy: wanderers step, others hold.
pub open spec fn moved_enemy(
    e: Enemy,
    dt: int,
    sample: Option<Vec2>,
    ppos: Option<Vec2>,
) -> Enemy {
    if e.mode is Wandering {
        wander_moved(e, dt, sample, ppos)
    } else {
        e
    }
}


/// The attack phase's effect on one enemy: attackers step, others hold.
pub open spec fn attacked_enemy(
    e: Enemy,
    dt: int,
    beam_in: Option<Vec2>,
    pp: Option<(u64, Vec2)>,
) -> Enemy {
    if e.mode is Attacking {
        attack_next(e, dt, beam_in, pp)
    } else {
        e
    }
}

/// The damage events one enemy's attack tick raises: one per scored hit.
pub open spec fn emitted_events(
    e: Enemy,
    inp: EnemyInput,
    pp: Option<(u64, Vec2)>,
    dt: int,
) -> Seq<DamageEvent> {
    match pp {
        Option::Some(p) => {
            if attack_emits(e, dt, inp.beam, pp) {
                seq![beam_event(e, p.0)]
            } else {
                Seq::empty()
            }
        },
        Option::None => Seq::empty(),
    }
}

/// All damage the attack phase raises, in enemy order — the FIFO order in
/// which the queue drain will apply it.
pub open spec fn beam_events(
    es: Seq<Enemy>,
    ins: Seq<EnemyInput>,
    pp: Option<(u64, Vec2)>,
    dt: int,
) -> Seq<DamageEvent>
    recommends
        ins.len() == es.len(),
    decreases es.len(),
{
    if es.len() == 0 {
        Seq::empty()
    } else {
        beam_events(es.drop_last(), ins.drop_last(), pp, dt) + emitted_events(
            es.last(),
            ins.last(),
            pp,
            dt,
        )
    }
}

/// One more enemy extends the raised events by exactly its own.
proof fn lemma_beam_events_step(
    es: Seq<Enemy>,
    ins: Seq<EnemyInput>,
    pp: Option<(u64, Vec2)>,
    dt: int,
    i: int,
)
    requires
        0 <= i < es.len(),
        ins.len() == es.len(),
    ensures
        beam_events(es.take(i + 1), ins.take(i + 1), pp, dt) == beam_events(
            es.take(i),
            ins.take(i),
            pp,
            dt,
        ) + emitted_events(es[i], ins[i], pp, dt),
{
    assert(es.take(i + 1).drop_last() =~= es.take(i));
    assert(ins.take(i + 1).drop_last() =~= ins.take(i));
    assert(es.take(i + 1).last() == es[i]);
    assert(ins.take(i + 1).last() == ins[i]);
}

/// The strengths of the queued events addressed to one receiver, in queue
/// order.
pub open spec fn strengths_for(q: Seq<DamageEvent>, id: u64) -> Seq<int>
    decreases q.len(),
{
    if q.len() == 0 {
        Seq::empty()
    } else {
        strengths_for(q.drop_last(), id) + (if q.last().receiver == id {
            seq![q.last().strength as int]
        } else {
            Seq::empty()
        })
    }
}

/// One more event extends one receiver's strengths by its own, or not at all.
proof fn lemma_strengths_step(q: Seq<DamageEvent>, id: u64, k: int)
    requires
        0 <= k < q.len(),
    ensures
        q[k].receiver == id ==> strengths_for(q.take(k + 1), id) == strengths_for(
            q.take(k),
            id,
        ).push(q[k].strength as int),
        q[k].receiver != id ==> strengths_for(q.take(k + 1), id) == strengths_for(q.take(k), id),
{
    assert(q.take(k + 1).drop_last() =~= q.take(k));
    assert(q.take(k + 1).last() == q[k]);
    if q[k].receiver == id {
        assert(strengths_for(q.take(k), id) + seq![q[k].strength as int] =~= strengths_for(
            q.take(k),
            id,
        ).push(q[k].strength as int));
    } else {
        assert(strengths_for(q.take(k), id) + Seq::<int>::empty() =~= strengths_for(
            q.take(k),
            id,
        ));
    }
}

/// Appending one strength applies it after all the others.
proof fn lemma_damaged_all_push(cur: int, s: Seq<int>, x: int)
    ensures
        damaged_all(cur, s.push(x)) == damaged(damaged_all(cur, s), x),
{
    assert(s.push(x).drop_last() =~= s);
    assert(s.push(x).last() == x);
}

/// Damage keeps the authoritative value within the machine budget.
proof fn lemma_damaged_all_range(cur: int, qs: Seq<int>)
    requires
        -HP_LIMIT <= cur <= HP_LIMIT,
    ensures
        -HP_LIMIT <= damaged_all(cur, qs) <= HP_LIMIT,
    decreases qs.len(),
{
    if qs.len() > 0 {
        lemma_damaged_all_range(cur, qs.drop_last());
    }
}

/// One health record after the whole queue is drained onto it.
pub open spec fn drained_health(h: Health, q: Seq<DamageEvent>, id: u64) -> Health {
    Health { current: damaged_all(h.current as int, strengths_for(q, id)) as i64, ..h }
}

/// One enemy after the whole queue is drained onto it.
pub open spec fn drained_enemy(e: Enemy, q: Seq<DamageEvent>) -> Enemy {
    Enemy { health: drained_health(e.health, q, e.id), ..e }
}

/// Every strength addressed to a receiver is one of the queue's strengths.
proof fn lemma_strengths_for_nonneg(q: Seq<DamageEvent>, id: u64)
    requires
        forall|k: int| 0 <= k < q.len() ==> (#[trigger] q[k]).strength >= 0,
    ensures
        forall|i: int| 0 <= i < strengths_for(q, id).len() ==> #[trigger] strengths_for(q, id)[i]
            >= 0,
    decreases q.len(),
{
    if q.len() > 0 {
        let head = q.drop_last();
        assert(forall|k: int| 0 <= k < head.len() ==> (#[trigger] head[k]).strength >= 0);
        lemma_strengths_for_nonneg(head, id);
        let hs = strengths_for(head, id);
        let full = strengths_for(q, id);
        assert(q[q.len() - 1].strength >= 0);
        assert forall|i: int| 0 <= i < full.len() implies #[trigger] full[i] >= 0 by {
            if i < hs.len() {
                assert(full[i] == hs[i]);
            } else {
                assert(full[i] == q.last().strength as int);
            }
        }
    }
}

/// Damage events accumulate additively on their receiver: draining a queue
/// of nonnegative strengths whose running total stays within the machine
/// budget leaves the record at exactly its old value minus the sum of the
/// strengths addressed to it — no clamping at zero or at the total.
pub proof fn lemma_drain_is_additive(h: Health, q: Seq<DamageEvent>, id: u64)
    requires
        hp_wf(h),
        forall|k: int| 0 <= k < q.len() ==> (#[trigger] q[k]).strength >= 0,
        h.current - crate::health::strength_sum(strengths_for(q, id)) >= -HP_LIMIT,
    ensures
        drained_health(h, q, id).current == h.current - crate::health::strength_sum(
            strengths_for(q, id),
        ),
{
    lemma_strengths_for_nonneg(q, id);
    crate::health::lemma_damage_accumulates(h.current as int, strengths_for(q, id));
    lemma_damaged_all_range(h.current as int, strengths_for(q, id));
}

/// One health record after a display tick.
pub open spec fn lerped_health(h: Health, dt: int) -> Health {
    Health {
        last: crate::smooth::eased(
            h.last as int,
            h.current as int,
            dt,
            crate::health::HEALTH_TAU as int,
        ) as i64,
        ..h
    }
}

/// One enemy after a display tick.
pub open spec fn lerped_enemy(e: Enemy, dt: int) -> Enemy {
    Enemy { health: lerped_health(e.health, dt), ..e }
}

/// One effect after a tick: its age advances and stops at the lifetime.
pub open spec fn aged_effect(ef: SmackEffect, dt: int) -> SmackEffect {
    if ef.age + dt >= SMACK_LIFETIME_MS {
        SmackEffect { age: SMACK_LIFETIME_MS, ..ef }
    } else {
        SmackEffect { age: (ef.age + dt) as i64, ..ef }
    }
}

/// Whether an effect's lifetime elapses within this tick.
pub open spec fn effect_finished(ef: SmackEffect, dt: int) -> bool {
    ef.age + dt >= SMACK_LIFETIME_MS
}

/// The spawn-grace phase over the whole roster.
pub open spec fn settled_all(es: Seq<Enemy>, dt: int) -> Seq<Enemy> {
    Seq::new(es.len(), |i: int| settled(es[i], dt))
}

/// The wander-assignment phase over the whole roster.
pub open spec fn assigned_all(es: Seq<Enemy>, ins: Seq<EnemyInput>) -> Seq<Enemy> {
    Seq::new(es.len(), |i: int| wander_assigned(es[i], ins[i].sample))
}

/// The movement phase over the whole roster.
pub open spec fn moved_all(es: Seq<Enemy>, dt: int, ins: Seq<EnemyInput>, ppos: Option<Vec2>) -> Seq<
    Enemy,
> {
    Seq::new(es.len(), |i: int| moved_enemy(es[i], dt, ins[i].sample, ppos))
}

/// The attack phase over the whole roster.
pub open spec fn attacked_all(
    es: Seq<Enemy>,
    dt: int,
    ins: Seq<EnemyInput>,
    pp: Option<(u64, Vec2)>,
) -> Seq<Enemy> {
    Seq::new(es.len(), |i: int| attacked_enemy(es[i], dt, ins[i].beam, pp))
}

/// The damage drain over the whole roster.
pub open spec fn drained_all(es: Seq<Enemy>, q: Seq<DamageEvent>) -> Seq<Enemy> {
    Seq::new(es.len(), |i: int| drained_enemy(es[i], q))
}

/// The display phase over the whole roster.
pub open spec fn lerped_all(es: Seq<Enemy>, dt: int) -> Seq<Enemy> {
    Seq::new(es.len(), |i: int| lerped_enemy(es[i], dt))
}

/// The effect phase over all effects.
pub open spec fn aged_all(efs: Seq<SmackEffect>, dt: int) -> Seq<SmackEffect> {
    Seq::new(efs.len(), |i: int| aged_effect(efs[i], dt))
}

/// A dead record: at or below the removal threshold.
pub open spec fn dead(e: Enemy) -> bool {
    e.health.current <= DEAD_THRESHOLD
}

/// The id belongs to a dead enemy of the sequence.
pub open spec fn id_of_dead(es: Seq<Enemy>, id: u64) -> bool {
    exists|j: int| 0 <= j < es.len() && (#[trigger] es[j]).id == id && dead(es[j])
}

/// The id belongs to an effect of the sequence whose lifetime elapses within
/// `dt`.
pub open spec fn id_of_finished(efs: Seq<SmackEffect>, id: u64, dt: int) -> bool {
    exists|j: int| 0 <= j < efs.len() && (#[trigger] efs[j]).id == id && effect_finished(efs[j], dt)
}

/// The removal queue after the dead-sweep has walked the enemies in order:
/// each dead enemy's id is appended once, unless already queued.
pub open spec fn swept_pending(pending: Seq<u64>, es: Seq<Enemy>) -> Seq<u64>
    decreases es.len(),
{
    if es.len() == 0 {
        pending
    } else {
        let prev = swept_pending(pending, es.drop_last());
        if dead(es.last()) && !prev.contains(es.last().id) {
            prev.push(es.last().id)
        } else {
            prev
        }
    }
}

/// One more enemy extends the sweep's queue by its id, or not at all.
proof fn lemma_swept_pending_step(pending: Seq<u64>, es: Seq<Enemy>, i: int)
    requires
        0 <= i < es.len(),
    ensures
        ({
            let prev = swept_pending(pending, es.take(i));
            swept_pending(pending, es.take(i + 1)) == (if dead(es[i]) && !prev.contains(es[i].id) {
                prev.push(es[i].id)
            } else {
                prev
            })
        }),
{
    assert(es.take(i + 1).drop_last() =~= es.take(i));
    assert(es.take(i + 1).last() == es[i]);
}

/// The removal queue after the effect phase has walked the effects in order:
/// each finishing effect's id is appended once, unless already queued.
pub open spec fn aged_pending(pending: Seq<u64>, efs: Seq<SmackEffect>, dt: int) -> Seq<u64>
    decreases efs.len(),
{
    if efs.len() == 0 {
        pending
    } else {
        let prev = aged_pending(pending, efs.drop_last(), dt);
        if effect_finished(efs.last(), dt) && !prev.contains(efs.last().id) {
            prev.push(efs.last().id)
        } else {
            prev
        }
    }
}

/// One more effect extends the phase's queue by its id, or not at all.
proof fn lemma_aged_pending_step(pending: Seq<u64>, efs: Seq<SmackEffect>, dt: int, i: int)
    requires
        0 <= i < efs.len(),
    ensures
        ({
            let prev = aged_pending(pending, efs.take(i), dt);
            aged_pending(pending, efs.take(i + 1), dt) == (if effect_finished(efs[i], dt)
                && !prev.contains(efs[i].id) {
                prev.push(efs[i].id)
            } else {
                prev
            })
        }),
{
    assert(efs.take(i + 1).drop_last() =~= efs.take(i));
    assert(efs.take(i + 1).last() == efs[i]);
}

/// Where the hammer strike lands: a fixed reach ahead of the player along
/// its forward direction (`forward` is the facing scaled to `SCALE`).
pub open spec fn hammer_center(p: Vec2, forward: Vec2) -> Vec2 {
    Vec2 { x: (p.x + 2 * forward.x) as i64, z: (p.z + 2 * forward.z) as i64 }
}

/// Whether the strike circle reaches an enemy's circle.
pub open spec fn smacked(e: Enemy, center: Vec2) -> bool {
    circles_overlap(e.pos, ENEMY_RADIUS as int, center, SMACK_RADIUS as int)
}

/// The damage the strike raises: one event per reached enemy, in enemy
/// order, each with the strike's full strength.
pub open spec fn smack_events(es: Seq<Enemy>, center: Vec2, attacker: u64) -> Seq<DamageEvent>
    decreases es.len(),
{
    if es.len() == 0 {
        Seq::empty()
    } else {
        smack_events(es.drop_last(), center, attacker) + (if smacked(es.last(), center) {
            seq![
                DamageEvent {
                    attacker,
                    receiver: es.last().id,
                    strength: SMACK_STRENGTH,
                },
            ]
        } else {
            Seq::empty()
        })
    }
}

/// One more enemy extends the strike's events by its own, or not at all.
proof fn lemma_smack_events_step(es: Seq<Enemy>, center: Vec2, attacker: u64, i: int)
    requires
        0 <= i < es.len(),
    ensures
        smacked(es[i], center) ==> smack_events(es.take(i + 1), center, attacker) == smack_events(
            es.take(i),
            center,
            attacker,
        ).push(DamageEvent { attacker, receiver: es[i].id, strength: SMACK_STRENGTH }),
        !smacked(es[i], center) ==> smack_events(es.take(i + 1), center, attacker) == smack_events(
            es.take(i),
            center,
            attacker,
        ),
{
    assert(es.take(i + 1).drop_last() =~= es.take(i));
    assert(es.take(i + 1).last() == es[i]);
    if smacked(es[i], center) {
        assert(smack_events(es.take(i), center, attacker) + seq![
            DamageEvent { attacker, receiver: es[i].id, strength: SMACK_STRENGTH },
        ] =~= smack_events(es.take(i), center, attacker).push(
            DamageEvent { attacker, receiver: es[i].id, strength: SMACK_STRENGTH },
        ));
    } else {
        assert(smack_events(es.take(i), center, attacker) + Seq::<DamageEvent>::empty()
            =~= smack_events(es.take(i), center, attacker));
    }
}

/// The enemies left standing after the end-of-frame drain: those whose id
/// is not in the removal queue, in their original order.
pub open spec fn surviving_enemies(es: Seq<Enemy>, pending: Seq<u64>) -> Seq<Enemy>
    decreases es.len(),
{
    if es.len() == 0 {
        Seq::empty()
    } else {
        surviving_enemies(es.drop_last(), pending) + (if pending.contains(es.last().id) {
            Seq::empty()
        } else {
            seq![es.last()]
        })
    }
}

/// The effects left standing after the end-of-frame drain.
pub open spec fn surviving_effects(efs: Seq<SmackEffect>, pending: Seq<u64>) -> Seq<SmackEffect>
    decreases efs.len(),
{
    if efs.len() == 0 {
        Seq::empty()
    } else {
        surviving_effects(efs.drop_last(), pending) + (if pending.contains(efs.last().id) {
            Seq::empty()
        } else {
            seq![efs.last()]
        })
    }
}

/// One more enemy extends the survivors by itself, or not at all.
proof fn lemma_surviving_enemies_step(es: Seq<Enemy>, pending: Seq<u64>, i: int)
    requires
        0 <= i < es.len(),
    ensures
        pending.contains(es[i].id) ==> surviving_enemies(es.take(i + 1), pending)
            == surviving_enemies(es.take(i), pending),
        !pending.contains(es[i].id) ==> surviving_enemies(es.take(i + 1), pending)
            == surviving_enemies(es.take(i), pending).push(es[i]),
{
    assert(es.take(i + 1).drop_last() =~= es.take(i));
    assert(es.take(i + 1).last() == es[i]);
    if pending.contains(es[i].id) {
        assert(surviving_enemies(es.take(i), pending) + Seq::<Enemy>::empty() =~= surviving_enemies(
            es.take(i),
            pending,
        ));
    } else {
        assert(surviving_enemies(es.take(i), pending) + seq![es[i]] =~= surviving_enemies(
            es.take(i),
            pending,
        ).push(es[i]));
    }
}

/// One more effect extends the survivors by itself, or not at all.
proof fn lemma_surviving_effects_step(efs: Seq<SmackEffect>, pending: Seq<u64>, i: int)
    requires
        0 <= i < efs.len(),
    ensures
        pending.contains(efs[i].id) ==> surviving_effects(efs.take(i + 1), pending)
            == surviving_effects(efs.take(i), pending),
        !pending.contains(efs[i].id) ==> surviving_effects(efs.take(i + 1), pending)
            == surviving_effects(efs.take(i), pending).push(efs[i]),
{
    assert(efs.take(i + 1).drop_last() =~= efs.take(i));
    assert(efs.take(i + 1).last() == efs[i]);
    if pending.contains(efs[i].id) {
        assert(surviving_effects(efs.take(i), pending) + Seq::<SmackEffect>::empty()
            =~= surviving_effects(efs.take(i), pending));
    } else {
        assert(surviving_effects(efs.take(i), pending) + seq![efs[i]] =~= surviving_effects(
            efs.take(i),
            pending,
        ).push(efs[i]));
    }
}

/// Every surviving enemy is one of the originals and was not queued for
/// removal; with pairwise-distinct original ids the survivors' ids stay
/// pairwise distinct.
proof fn lemma_surviving_enemies_facts(es: Seq<Enemy>, pending: Seq<u64>)
    requires
        forall|i: int, j: int|
            0 <= i < j < es.len() ==> (#[trigger] es[i]).id != (#[trigger] es[j]).id,
    ensures
        forall|i: int|
            0 <= i < surviving_enemies(es, pending).len() ==> es.contains(
                #[trigger] surviving_enemies(es, pending)[i],
            ) && !pending.contains(surviving_enemies(es, pending)[i].id),
        forall|i: int, j: int|
            0 <= i < j < surviving_enemies(es, pending).len() ==> (#[trigger] surviving_enemies(
                es,
                pending,
            )[i]).id != (#[trigger] surviving_enemies(es, pending)[j]).id,
    decreases es.len(),
{
    if es.len() > 0 {
        let head = es.drop_last();
        assert(forall|i: int, j: int|
            0 <= i < j < head.len() ==> (#[trigger] head[i]).id != (#[trigger] head[j]).id);
        lemma_surviving_enemies_facts(head, pending);
        let out = surviving_enemies(es, pending);
        let hout = surviving_enemies(head, pending);
        assert forall|i: int| 0 <= i < out.len() implies es.contains(#[trigger] out[i])
            && !pending.contains(out[i].id) by {
            if i < hout.len() {
                assert(out[i] == hout[i]);
                assert(head.contains(hout[i]));
                let k0 = choose|k0: int| 0 <= k0 < head.len() && head[k0] == hout[i];
                assert(es[k0] == out[i]);
            } else {
                assert(out[i] == es.last());
                assert(es[es.len() - 1] == out[i]);
            }
        }
        assert forall|i: int, j: int| 0 <= i < j < out.len() implies (#[trigger] out[i]).id != (
        #[trigger] out[j]).id by {
            if j < hout.len() {
                assert(out[i] == hout[i] && out[j] == hout[j]);
            } else {
                assert(out[j] == es.last());
                assert(out[i] == hout[i]);
                assert(head.contains(hout[i]));
                let k0 = choose|k0: int| 0 <= k0 < head.len() && head[k0] == hout[i];
                assert(es[k0].id != es[es.len() - 1].id);
            }
        }
    }
}

/// The same membership and distinctness facts for surviving effects.
proof fn lemma_surviving_effects_facts(efs: Seq<SmackEffect>, pending: Seq<u64>)
    requires
        forall|i: int, j: int|
            0 <= i < j < efs.len() ==> (#[trigger] efs[i]).id != (#[trigger] efs[j]).id,
    ensures
        forall|i: int|
            0 <= i < surviving_effects(efs, pending).len() ==> efs.contains(
                #[trigger] surviving_effects(efs, pending)[i],
            ) && !pending.contains(surviving_effects(efs, pending)[i].id),
        forall|i: int, j: int|
            0 <= i < j < surviving_effects(efs, pending).len() ==> (#[trigger] surviving_effects(
                efs,
                pending,
            )[i]).id != (#[trigger] surviving_effects(efs, pending)[j]).id,
    decreases efs.len(),
{
    if efs.len() > 0 {
        let head = efs.drop_last();
        assert(forall|i: int, j: int|
            0 <= i < j < head.len() ==> (#[trigger] head[i]).id != (#[trigger] head[j]).id);
        lemma_surviving_effects_facts(head, pending);
        let out = surviving_effects(efs, pending);
        let hout = surviving_effects(head, pending);
        assert forall|i: int| 0 <= i < out.len() implies efs.contains(#[trigger] out[i])
            && !pending.contains(out[i].id) by {
            if i < hout.len() {
                assert(out[i] == hout[i]);
                assert(head.contains(hout[i]));
                let k0 = choose|k0: int| 0 <= k0 < head.len() && head[k0] == hout[i];
                assert(efs[k0] == out[i]);
            } else {
                assert(out[i] == efs.last());
                assert(efs[efs.len() - 1] == out[i]);
            }
        }
        assert forall|i: int, j: int| 0 <= i < j < out.len() implies (#[trigger] out[i]).id != (
        #[trigger] out[j]).id by {
            if j < hout.len() {
                assert(out[i] == hout[i] && out[j] == hout[j]);
            } else {
                assert(out[j] == efs.last());
                assert(out[i] == hout[i]);
                assert(head.contains(hout[i]));
                let k0 = choose|k0: int| 0 <= k0 < head.len() && head[k0] == hout[i];
                assert(efs[k0].id != efs[efs.len() - 1].id);
            }
        }
    }
}

/// What one whole tick leaves behind: the phase specifications composed in
/// the tick's order.  Wander targets assigned this tick are visible to the
/// same tick's movement; damage raised by the attack sweep is fully drained
/// before the display easing; the effect timers and the dead-sweep fill the
/// removal queue, which the end-of-frame drain then empties.
pub open spec fn tick_rel(pre: World, post: World, dt: int, inputs: Seq<EnemyInput>) -> bool {
    let pp = player_pair(pre.player);
    let ppos = player_pos(pre.player);
    let roster1 = settled_all(pre.enemies@, dt);
    let roster2 = assigned_all(roster1, inputs);
    let roster3 = moved_all(roster2, dt, inputs, ppos);
    let roster4 = attacked_all(roster3, dt, inputs, pp);
    let queue1 = pre.damage_queue@ + beam_events(roster3, inputs, pp, dt);
    let roster5 = drained_all(roster4, queue1);
    let roster6 = lerped_all(roster5, dt);
    let effects1 = aged_all(pre.effects@, dt);
    let pending1 = aged_pending(pre.pending_removal@, pre.effects@, dt);
    let pending2 = swept_pending(pending1, roster6);
    &&& post.enemies@ == surviving_enemies(roster6, pending2)
    &&& post.effects@ == surviving_effects(effects1, pending2)
    &&& post.player == (match pre.player {
        Option::Some(p) => Option::Some(
            PlayerRec { health: lerped_health(drained_health(p.health, queue1, p.id), dt), ..p },
        ),
        Option::None => Option::<PlayerRec>::None,
    })
    &&& post.damage_queue@.len() == 0
    &&& post.pending_removal@.len() == 0
    &&& post.next_id == pre.next_id
}

/// Whether an id is already queued for removal.
fn contains_id(v: &Vec<u64>, id: u64) -> (r: bool)
    ensures
        r == v@.contains(id),
{
    let n: usize = v.len();
    let mut i: usize = 0;
    while i < n
        invariant
            i <= n,
            n == v@.len(),
            forall|k: int| 0 <= k < i ==> v@[k] != id,
        decreases n - i,
    {
        if v[i] == id {
            assert(v@[i as int] == id);
            return true;
        }
        i += 1;
    }
    assert(forall|k: int| 0 <= k < v@.len() ==> v@[k] != id);
    false
}

impl World {
    /// Attack phase: every attacking enemy ticks its timers, sweeps its
    /// beam, and — at most once per cooldown window — raises one damage
    /// event against the player, appended to the queue in enemy order.
    pub fn spin_lasers(&mut self, dt: i64, inputs: &Vec<EnemyInput>)
        requires
            old(self).wf(),
            0 <= dt <= DT_LIMIT,
            inputs_wf(inputs@, old(self).enemies@.len() as int),
        ensures
            final(self).wf(),
            final(self).enemies@.len() == old(self).enemies@.len(),
            forall|j: int|
                0 <= j < old(self).enemies@.len() ==> final(self).enemies@[j] == attacked_enemy(
                    #[trigger] old(self).enemies@[j],
                    dt as int,
                    inputs@[j].beam,
                    player_pair(old(self).player),
                ),
            final(self).damage_queue@ == old(self).damage_queue@ + beam_events(
                old(self).enemies@,
                inputs@,
                player_pair(old(self).player),
                dt as int,
            ),
            final(self).player == old(self).player,
            final(self).pending_removal == old(self).pending_removal,
            final(self).effects == old(self).effects,
            final(self).next_id == old(self).next_id,
    {
        let n: usize = self.enemies.len();
        let pp: Option<(u64, Vec2)> = match &self.player {
            Option::Some(p) => Option::Some((p.id, p.pos)),
            Option::None => Option::None,
        };
        let mut i: usize = 0;
        while i < n
            invariant
                old(self).wf(),
                0 <= dt <= DT_LIMIT,
                inputs_wf(inputs@, n as int),
                i <= n,
                self.enemies@.len() == n,
                n == old(self).enemies@.len(),
                pp == player_pair(old(self).player),
                pp matches Option::Some(p) ==> in_box(p.1, COORD_LIMIT as int),
                forall|j: int|
                    0 <= j < i ==> self.enemies@[j] == attacked_enemy(
                        #[trigger] old(self).enemies@[j],
                        dt as int,
                        inputs@[j].beam,
                        player_pair(old(self).player),
                    ),
                forall|j: int| i <= j < n ==> self.enemies@[j] == old(self).enemies@[j],
                forall|j: int|
                    0 <= j < n ==> enemy_wf(#[trigger] self.enemies@[j]) && self.enemies@[j].id
                        == old(self).enemies@[j].id,
                self.damage_queue@ == old(self).damage_queue@ + beam_events(
                    old(self).enemies@.take(i as int),
                    inputs@.take(i as int),
                    pp,
                    dt as int,
                ),
                forall|k: int|
                    0 <= k < self.damage_queue@.len() ==> event_wf(#[trigger] self.damage_queue@[k]),
                self.player == old(self).player,
                self.pending_removal == old(self).pending_removal,
                self.effects == old(self).effects,
                self.next_id == old(self).next_id,
            decreases n - i,
        {
            let e: Enemy = self.enemies[i];
            proof {
                lemma_beam_events_step(
                    old(self).enemies@,
                    inputs@,
                    pp,
                    dt as int,
                    i as int,
                );
            }
            if matches!(e.mode, Mode::Attacking { .. }) {
                let (e2, ev) = attack_step(e, dt, inputs[i].beam, pp);
                self.enemies.set(i, e2);
                match ev {
                    Option::Some(event) => {
                        self.damage_queue.push(event);
                        proof {
                            assert(self.damage_queue@ =~= old(self).damage_queue@ + beam_events(
                                old(self).enemies@.take(i + 1),
                                inputs@.take(i + 1),
                                pp,
                                dt as int,
                            ));
                        }
                    },
                    Option::None => {
                        proof {
                            assert(self.damage_queue@ =~= old(self).damage_queue@ + beam_events(
                                old(self).enemies@.take(i + 1),
                                inputs@.take(i + 1),
                                pp,
                                dt as int,
                            ));
                        }
                    },
                }
            } else {
                proof {
                    assert(!attack_emits(e, dt as int, inputs@[i as int].beam, pp));
                    assert(self.damage_queue@ =~= old(self).damage_queue@ + beam_events(
                        old(self).enemies@.take(i + 1),
                        inputs@.take(i + 1),
                        pp,
                        dt as int,
                    ));
                }
            }
            i += 1;
        }
        proof {
            assert(old(self).enemies@.take(n as int) =~= old(self).enemies@);
            assert(inputs@.take(n as int) =~= inputs@);
        }
    }

    /// Damage-resolution phase: the queue is drained in order onto every
    /// record it addresses — events against one receiver accumulate
    /// additively — and events whose receiver no longer exists are dropped
    /// silently.  The queue is empty afterwards.
    pub fn resolve_damage_queue(&mut self)
        requires
            old(self).wf(),
        ensures
            final(self).wf(),
            final(self).damage_queue@.len() == 0,
            final(self).enemies@.len() == old(self).enemies@.len(),
            forall|j: int|
                0 <= j < old(self).enemies@.len() ==> final(self).enemies@[j] == drained_enemy(
                    #[trigger] old(self).enemies@[j],
                    old(self).damage_queue@,
                ),
            match old(self).player {
                Option::Some(p) => final(self).player == Option::Some(
                    PlayerRec { health: drained_health(p.health, old(self).damage_queue@, p.id), ..p },
                ),
                Option::None => final(self).player is None,
            },
            final(self).pending_removal == old(self).pending_removal,
            final(self).effects == old(self).effects,
            final(self).next_id == old(self).next_id,
    {
        let n: usize = self.enemies.len();
        let q: usize = self.damage_queue.len();
        let mut j: usize = 0;
        while j < n
            invariant
                old(self).wf(),
                j <= n,
                self.enemies@.len() == n,
                n == old(self).enemies@.len(),
                q == old(self).damage_queue@.len(),
                forall|a: int|
                    0 <= a < j ==> self.enemies@[a] == drained_enemy(
                        #[trigger] old(self).enemies@[a],
                        old(self).damage_queue@,
                    ),
                forall|a: int| j <= a < n ==> self.enemies@[a] == old(self).enemies@[a],
                forall|a: int|
                    0 <= a < n ==> enemy_wf(#[trigger] self.enemies@[a]) && self.enemies@[a].id
                        == old(self).enemies@[a].id,
                self.player == old(self).player,
                self.damage_queue == old(self).damage_queue,
                self.pending_removal == old(self).pending_removal,
                self.effects == old(self).effects,
                self.next_id == old(self).next_id,
            decreases n - j,
        {
            let e: Enemy = self.enemies[j];
            let mut h: Health = e.health;
            let mut k: usize = 0;
            while k < q
                invariant
                    old(self).wf(),
                    k <= q,
                    q == old(self).damage_queue@.len(),
                    self.damage_queue == old(self).damage_queue,
                    e == self.enemies@[j as int],
                    hp_wf(e.health),
                    h == drained_health(
                        e.health,
                        old(self).damage_queue@.take(k as int),
                        e.id,
                    ),
                    hp_wf(h),
                decreases q - k,
            {
                let ev: DamageEvent = self.damage_queue[k];
                proof {
                    lemma_strengths_step(old(self).damage_queue@, e.id, k as int);
                    if ev.receiver == e.id {
                        lemma_damaged_all_push(
                            e.health.current as int,
                            strengths_for(old(self).damage_queue@.take(k as int), e.id),
                            ev.strength as int,
                        );
                        lemma_damaged_all_range(
                            e.health.current as int,
                            strengths_for(old(self).damage_queue@.take(k as int), e.id),
                        );
                    }
                }
                if ev.receiver == e.id {
                    apply_damage(&mut h, ev.strength);
                }
                k += 1;
            }
            proof {
                assert(old(self).damage_queue@.take(q as int) =~= old(self).damage_queue@);
            }
            self.enemies.set(j, Enemy { health: h, ..e });
            j += 1;
        }
        // the player's record drains the same way
        match &self.player {
            Option::Some(pref) => {
                let p: PlayerRec = *pref;
                let mut h: Health = p.health;
                let mut k: usize = 0;
                while k < q
                    invariant
                        old(self).wf(),
                        k <= q,
                        q == old(self).damage_queue@.len(),
                        self.damage_queue == old(self).damage_queue,
                        old(self).player matches Option::Some(p0) && p == p0,
                        hp_wf(p.health),
                        h == drained_health(
                            p.health,
                            old(self).damage_queue@.take(k as int),
                            p.id,
                        ),
                        hp_wf(h),
                    decreases q - k,
                {
                    let ev: DamageEvent = self.damage_queue[k];
                    proof {
                        lemma_strengths_step(old(self).damage_queue@, p.id, k as int);
                        if ev.receiver == p.id {
                            lemma_damaged_all_push(
                                p.health.current as int,
                                strengths_for(old(self).damage_queue@.take(k as int), p.id),
                                ev.strength as int,
                            );
                            lemma_damaged_all_range(
                                p.health.current as int,
                                strengths_for(old(self).damage_queue@.take(k as int), p.id),
                            );
                        }
                    }
                    if ev.receiver == p.id {
                        apply_damage(&mut h, ev.strength);
                    }
                    k += 1;
                }
                proof {
                    assert(old(self).damage_queue@.take(q as int) =~= old(self).damage_queue@);
                }
                self.player = Option::Some(PlayerRec { health: h, ..p });
            },
            Option::None => {},
        }
        self.damage_queue = Vec::new();
    }

    /// Display phase: every record's trailing value eases toward its
    /// authoritative value.
    pub fn lerp_health(&mut self, dt: i64)
        requires
            old(self).wf(),
            0 <= dt <= DT_LIMIT,
        ensures
            final(self).wf(),
            final(self).enemies@.len() == old(self).enemies@.len(),
            forall|j: int|
                0 <= j < old(self).enemies@.len() ==> final(self).enemies@[j] == lerped_enemy(
                    #[trigger] old(self).enemies@[j],
                    dt as int,
                ),
            match old(self).player {
                Option::Some(p) => final(self).player == Option::Some(
                    PlayerRec { health: lerped_health(p.health, dt as int), ..p },
                ),
                Option::None => final(self).player is None,
            },
            final(self).damage_queue == old(self).damage_queue,
            final(self).pending_removal == old(self).pending_removal,
            final(self).effects == old(self).effects,
            final(self).next_id == old(self).next_id,
    {
        let n: usize = self.enemies.len();
        let mut j: usize = 0;
        while j < n
            invariant
                old(self).wf(),
                0 <= dt <= DT_LIMIT,
                j <= n,
                self.enemies@.len() == n,
                n == old(self).enemies@.len(),
                forall|a: int|
                    0 <= a < j ==> self.enemies@[a] == lerped_enemy(
                        #[trigger] old(self).enemies@[a],
                        dt as int,
                    ),
                forall|a: int| j <= a < n ==> self.enemies@[a] == old(self).enemies@[a],
                forall|a: int|
                    0 <= a < n ==> enemy_wf(#[trigger] self.enemies@[a]) && self.enemies@[a].id
                        == old(self).enemies@[a].id,
                self.player == old(self).player,
                self.damage_queue == old(self).damage_queue,
                self.pending_removal == old(self).pending_removal,
                self.effects == old(self).effects,
                self.next_id == old(self).next_id,
            decreases n - j,
        {
            let e: Enemy = self.enemies[j];
            let mut h: Health = e.health;
            lerp_display(&mut h, dt);
            self.enemies.set(j, Enemy { health: h, ..e });
            j += 1;
        }
        match &self.player {
            Option::Some(pref) => {
                let p: PlayerRec = *pref;
                let mut h: Health = p.health;
                lerp_display(&mut h, dt);
                self.player = Option::Some(PlayerRec { health: h, ..p });
            },
            Option::None => {},
        }
    }

    /// Effect phase: strike effects age toward their lifetime; one whose
    /// lifetime elapses this tick is queued for removal at the end of the
    /// frame.
    pub fn update_smack(&mut self, dt: i64)
        requires
            old(self).wf(),
            0 <= dt <= DT_LIMIT,
        ensures
            final(self).wf(),
            final(self).effects@.len() == old(self).effects@.len(),
            forall|j: int|
                0 <= j < old(self).effects@.len() ==> final(self).effects@[j] == aged_effect(
                    #[trigger] old(self).effects@[j],
                    dt as int,
                ),
            forall|j: int|
                0 <= j < old(self).effects@.len() && effect_finished(
                    #[trigger] old(self).effects@[j],
                    dt as int,
                ) ==> final(self).pending_removal@.contains(old(self).effects@[j].id),
            final(self).pending_removal@.take(old(self).pending_removal@.len() as int) == old(
                self,
            ).pending_removal@,
            forall|a: int|
                old(self).pending_removal@.len() <= a < final(self).pending_removal@.len()
                    ==> id_of_finished(
                    old(self).effects@,
                    #[trigger] final(self).pending_removal@[a],
                    dt as int,
                ),
            final(self).pending_removal@ == aged_pending(
                old(self).pending_removal@,
                old(self).effects@,
                dt as int,
            ),
            final(self).enemies == old(self).enemies,
            final(self).player == old(self).player,
            final(self).damage_queue == old(self).damage_queue,
            final(self).next_id == old(self).next_id,
    {
        let n: usize = self.effects.len();
        let mut j: usize = 0;
        while j < n
            invariant
                old(self).wf(),
                0 <= dt <= DT_LIMIT,
                j <= n,
                self.effects@.len() == n,
                n == old(self).effects@.len(),
                forall|a: int|
                    0 <= a < j ==> self.effects@[a] == aged_effect(
                        #[trigger] old(self).effects@[a],
                        dt as int,
                    ),
                forall|a: int| j <= a < n ==> self.effects@[a] == old(self).effects@[a],
                forall|a: int|
                    0 <= a < n ==> {
                        &&& (#[trigger] self.effects@[a]).id == old(self).effects@[a].id
                        &&& in_box(self.effects@[a].pos, EFFECT_LIMIT as int)
                        &&& 0 <= self.effects@[a].age <= SMACK_LIFETIME_MS
                    },
                self.pending_removal@ == aged_pending(
                    old(self).pending_removal@,
                    old(self).effects@.take(j as int),
                    dt as int,
                ),
                forall|a: int|
                    0 <= a < j && effect_finished(#[trigger] old(self).effects@[a], dt as int)
                        ==> self.pending_removal@.contains(old(self).effects@[a].id),
                self.pending_removal@.take(old(self).pending_removal@.len() as int) == old(
                    self,
                ).pending_removal@,
                self.pending_removal@.len() >= old(self).pending_removal@.len(),
                forall|a: int, b: int|
                    0 <= a < b < self.pending_removal@.len() ==> self.pending_removal@[a] != (
                    self.pending_removal@[b]),
                forall|a: int|
                    old(self).pending_removal@.len() <= a < self.pending_removal@.len()
                        ==> id_of_finished(
                        old(self).effects@,
                        #[trigger] self.pending_removal@[a],
                        dt as int,
                    ),
                self.enemies == old(self).enemies,
                self.player == old(self).player,
                self.damage_queue == old(self).damage_queue,
                self.next_id == old(self).next_id,
            decreases n - j,
        {
            let ef: SmackEffect = self.effects[j];
            let ghost pre = self.pending_removal@;
            let ghost oldlen = old(self).pending_removal@.len() as int;
            proof {
                lemma_aged_pending_step(
                    old(self).pending_removal@,
                    old(self).effects@,
                    dt as int,
                    j as int,
                );
            }
            if ef.age + dt >= SMACK_LIFETIME_MS {
                self.effects.set(j, SmackEffect { age: SMACK_LIFETIME_MS, ..ef });
                if !contains_id(&self.pending_removal, ef.id) {
                    self.pending_removal.push(ef.id);
                    proof {
                        let cur = self.pending_removal@;
                        assert(cur.take(oldlen) =~= pre.take(oldlen));
                        assert(cur[cur.len() - 1] == ef.id);
                        assert forall|a: int| oldlen <= a < cur.len() implies id_of_finished(
                            old(self).effects@,
                            #[trigger] cur[a],
                            dt as int,
                        ) by {
                            if a < pre.len() {
                                assert(cur[a] == pre[a]);
                            } else {
                                assert(cur[a] == ef.id);
                                assert(old(self).effects@[j as int].id == cur[a]
                                    && effect_finished(old(self).effects@[j as int], dt as int));
                            }
                        }
                    }
                }
                proof {
                    let cur = self.pending_removal@;
                    assert forall|a: int|
                        0 <= a <= j as int && effect_finished(
                            #[trigger] old(self).effects@[a],
                            dt as int,
                        ) implies cur.contains(old(self).effects@[a].id) by {
                        if a < j as int {
                            let idx = choose|idx: int|
                                0 <= idx < pre.len() && pre[idx] == old(self).effects@[a].id;
                            assert(cur[idx] == old(self).effects@[a].id);
                        } else {
                            if pre.contains(ef.id) {
                                let idx = choose|idx: int|
                                    0 <= idx < pre.len() && pre[idx] == ef.id;
                                assert(cur[idx] == ef.id);
                            } else {
                                assert(cur[cur.len() - 1] == ef.id);
                            }
                        }
                    }
                }
            } else {
                self.effects.set(j, SmackEffect { age: ef.age + dt, ..ef });
            }
            j += 1;
        }
        proof {
            assert(old(self).effects@.take(n as int) =~= old(self).effects@);
        }
    }

    /// The shader intensity an effect drives, in thousandths: its age as a
    /// fraction of its lifetime.
    pub fn smack_fraction(ef: &SmackEffect) -> (r: i64)
        requires
            0 <= ef.age <= SMACK_LIFETIME_MS,
        ensures
            r == ef.age as int * 1000 / (SMACK_LIFETIME_MS as int),
            0 <= r <= 1000,
    {
        proof {
            assert(ef.age as int * 1000 == (ef.age * 1000) as int);
            if ef.age as int * 1000 > 0 {
                vstd::arithmetic::div_mod::lemma_div_pos_is_pos(ef.age as int * 1000, 100);
            }
            vstd::arithmetic::div_mod::lemma_div_is_ordered(
                ef.age as int * 1000,
                100_000,
                100,
            );
        }
        ((ef.age as u64 * 1000) / (SMACK_LIFETIME_MS as u64)) as i64
    }

    /// Removal sweep: every dead non-player record — the player is exempt,
    /// whatever its value — is queued for removal; nothing is destroyed yet.
    pub fn remove_dead(&mut self)
        requires
            old(self).wf(),
        ensures
            final(self).wf(),
            forall|j: int|
                0 <= j < old(self).enemies@.len() && dead(#[trigger] old(self).enemies@[j])
                    ==> final(self).pending_removal@.contains(old(self).enemies@[j].id),
            final(self).pending_removal@.take(old(self).pending_removal@.len() as int) == old(
                self,
            ).pending_removal@,
            forall|a: int|
                old(self).pending_removal@.len() <= a < final(self).pending_removal@.len()
                    ==> id_of_dead(old(self).enemies@, #[trigger] final(self).pending_removal@[a]),
            final(self).pending_removal@ == swept_pending(
                old(self).pending_removal@,
                old(self).enemies@,
            ),
            final(self).enemies == old(self).enemies,
            final(self).player == old(self).player,
            final(self).damage_queue == old(self).damage_queue,
            final(self).effects == old(self).effects,
            final(self).next_id == old(self).next_id,
    {
        let n: usize = self.enemies.len();
        let mut j: usize = 0;
        while j < n
            invariant
                old(self).wf(),
                j <= n,
                n == old(self).enemies@.len(),
                self.pending_removal@ == swept_pending(
                    old(self).pending_removal@,
                    old(self).enemies@.take(j as int),
                ),
                forall|a: int|
                    0 <= a < j && dead(#[trigger] old(self).enemies@[a])
                        ==> self.pending_removal@.contains(old(self).enemies@[a].id),
                self.pending_removal@.take(old(self).pending_removal@.len() as int) == old(
                    self,
                ).pending_removal@,
                self.pending_removal@.len() >= old(self).pending_removal@.len(),
                forall|a: int, b: int|
                    0 <= a < b < self.pending_removal@.len() ==> self.pending_removal@[a] != (
                    self.pending_removal@[b]),
                forall|a: int|
                    old(self).pending_removal@.len() <= a < self.pending_removal@.len()
                        ==> id_of_dead(
                        old(self).enemies@,
                        #[trigger] self.pending_removal@[a],
                    ),
                self.enemies == old(self).enemies,
                self.player == old(self).player,
                self.damage_queue == old(self).damage_queue,
                self.effects == old(self).effects,
                self.next_id == old(self).next_id,
            decreases n - j,
        {
            let e: Enemy = self.enemies[j];
            let ghost pre = self.pending_removal@;
            let ghost oldlen = old(self).pending_removal@.len() as int;
            proof {
                lemma_swept_pending_step(
                    old(self).pending_removal@,
                    old(self).enemies@,
                    j as int,
                );
            }
            if e.health.current <= DEAD_THRESHOLD {
                if !contains_id(&self.pending_removal, e.id) {
                    self.pending_removal.push(e.id);
                    proof {
                        let cur = self.pending_removal@;
                        assert(cur.take(oldlen) =~= pre.take(oldlen));
                        assert(cur[cur.len() - 1] == e.id);
                        assert forall|a: int| oldlen <= a < cur.len() implies id_of_dead(
                            old(self).enemies@,
                            #[trigger] cur[a],
                        ) by {
                            if a < pre.len() {
                                assert(cur[a] == pre[a]);
                            } else {
                                assert(cur[a] == e.id);
                                assert(old(self).enemies@[j as int].id == cur[a] && dead(
                                    old(self).enemies@[j as int],
                                ));
                            }
                        }
                    }
                }
                proof {
                    let cur = self.pending_removal@;
                    assert forall|a: int|
                        0 <= a <= j as int && dead(#[trigger] old(self).enemies@[a]) implies (
                    cur.contains(old(self).enemies@[a].id)) by {
                        if a < j as int {
                            let idx = choose|idx: int|
                                0 <= idx < pre.len() && pre[idx] == old(self).enemies@[a].id;
                            assert(cur[idx] == old(self).enemies@[a].id);
                        } else {
                            if pre.contains(e.id) {
                                let idx = choose|idx: int|
                                    0 <= idx < pre.len() && pre[idx] == e.id;
                                assert(cur[idx] == e.id);
                            } else {
                                assert(cur[cur.len() - 1] == e.id);
                            }
                        }
                    }
                }
            }
            j += 1;
        }
        proof {
            assert(old(self).enemies@.take(n as int) =~= old(self).enemies@);
        }
    }

    /// End-of-frame drain: every entity whose id was queued is removed —
    /// enemies and effects alike; the player record is never touched.
    pub fn despawn_pending(&mut self)
        requires
            old(self).wf(),
        ensures
            final(self).wf(),
            final(self).enemies@ == surviving_enemies(
                old(self).enemies@,
                old(self).pending_removal@,
            ),
            final(self).effects@ == surviving_effects(
                old(self).effects@,
                old(self).pending_removal@,
            ),
            final(self).pending_removal@.len() == 0,
            final(self).player == old(self).player,
            final(self).damage_queue == old(self).damage_queue,
            final(self).next_id == old(self).next_id,
    {
        let n: usize = self.enemies.len();
        let mut kept: Vec<Enemy> = Vec::new();
        let mut j: usize = 0;
        while j < n
            invariant
                old(self).wf(),
                j <= n,
                n == old(self).enemies@.len(),
                self.enemies == old(self).enemies,
                self.pending_removal == old(self).pending_removal,
                kept@ == surviving_enemies(
                    old(self).enemies@.take(j as int),
                    old(self).pending_removal@,
                ),
            decreases n - j,
        {
            let e: Enemy = self.enemies[j];
            proof {
                lemma_surviving_enemies_step(
                    old(self).enemies@,
                    old(self).pending_removal@,
                    j as int,
                );
            }
            if !contains_id(&self.pending_removal, e.id) {
                kept.push(e);
            }
            j += 1;
        }
        proof {
            assert(old(self).enemies@.take(n as int) =~= old(self).enemies@);
        }
        self.enemies = kept;
        let m: usize = self.effects.len();
        let mut keptf: Vec<SmackEffect> = Vec::new();
        let mut k: usize = 0;
        while k < m
            invariant
                old(self).wf(),
                k <= m,
                m == old(self).effects@.len(),
                self.effects == old(self).effects,
                self.pending_removal == old(self).pending_removal,
                keptf@ == surviving_effects(
                    old(self).effects@.take(k as int),
                    old(self).pending_removal@,
                ),
            decreases m - k,
        {
            let ef: SmackEffect = self.effects[k];
            proof {
                lemma_surviving_effects_step(
                    old(self).effects@,
                    old(self).pending_removal@,
                    k as int,
                );
            }
            if !contains_id(&self.pending_removal, ef.id) {
                keptf.push(ef);
            }
            k += 1;
        }
        proof {
            assert(old(self).effects@.take(m as int) =~= old(self).effects@);
        }
        self.effects = keptf;
        self.pending_removal = Vec::new();
        proof {
            lemma_surviving_enemies_facts(old(self).enemies@, old(self).pending_removal@);
            lemma_surviving_effects_facts(old(self).effects@, old(self).pending_removal@);
            assert forall|i: int| 0 <= i < self.enemies@.len() implies enemy_wf(
                #[trigger] self.enemies@[i],
            ) && self.enemies@[i].id < self.next_id by {
                assert(old(self).enemies@.contains(self.enemies@[i]));
                let k0 = choose|k0: int|
                    0 <= k0 < old(self).enemies@.len() && old(self).enemies@[k0]
                        == self.enemies@[i];
                assert(enemy_wf(old(self).enemies@[k0]));
            }
            assert forall|i: int| 0 <= i < self.effects@.len() implies in_box(
                (#[trigger] self.effects@[i]).pos,
                EFFECT_LIMIT as int,
            ) && 0 <= self.effects@[i].age <= SMACK_LIFETIME_MS && self.effects@[i].id
                < self.next_id by {
                assert(old(self).effects@.contains(self.effects@[i]));
                let k0 = choose|k0: int|
                    0 <= k0 < old(self).effects@.len() && old(self).effects@[k0]
                        == self.effects@[i];
            }
            match self.player {
                Option::Some(p) => {
                    assert forall|i: int| 0 <= i < self.enemies@.len() implies (
                    #[trigger] self.enemies@[i]).id != p.id by {
                        assert(old(self).enemies@.contains(self.enemies@[i]));
                        let k0 = choose|k0: int|
                            0 <= k0 < old(self).enemies@.len() && old(self).enemies@[k0]
                                == self.enemies@[i];
                    }
                },
                Option::None => {},
            }
        }
    }

    /// The player's hammer strike, raised by the animation's impact instant:
    /// a transient effect appears a fixed reach ahead of the player, and
    /// every enemy whose circle meets the strike circle receives exactly one
    /// damage event of the strike's strength — no cooldown gates this path.
    pub fn hammer_slam_hit(&mut self, forward: Vec2)
        requires
            old(self).wf(),
            in_box(forward, SCALE as int),
            old(self).player is Some ==> old(self).next_id < u64::MAX,
        ensures
            final(self).wf(),
            old(self).player is None ==> *final(self) == *old(self),
            old(self).player matches Option::Some(p) ==> {
                &&& final(self).damage_queue@ == old(self).damage_queue@ + smack_events(
                    old(self).enemies@,
                    hammer_center(p.pos, forward),
                    p.id,
                )
                &&& final(self).effects@ == old(self).effects@.push(
                    SmackEffect {
                        id: old(self).next_id,
                        pos: hammer_center(p.pos, forward),
                        age: 0,
                    },
                )
            },
            final(self).enemies == old(self).enemies,
            final(self).player == old(self).player,
            final(self).pending_removal == old(self).pending_removal,
            old(self).player is Some ==> final(self).next_id == old(self).next_id + 1,
    {
        let p: PlayerRec = match &self.player {
            Option::Some(pr) => *pr,
            Option::None => {
                // a missing player degrades the strike to a silent no-op
                return ;
            },
        };
        let center: Vec2 = Vec2 { x: p.pos.x + 2 * forward.x, z: p.pos.z + 2 * forward.z };
        let n: usize = self.enemies.len();
        let mut j: usize = 0;
        while j < n
            invariant
                old(self).wf(),
                j <= n,
                n == old(self).enemies@.len(),
                old(self).player matches Option::Some(p0) && p == p0,
                center == hammer_center(p.pos, forward),
                in_box(center, EFFECT_LIMIT as int),
                self.damage_queue@ == old(self).damage_queue@ + smack_events(
                    old(self).enemies@.take(j as int),
                    center,
                    p.id,
                ),
                forall|k: int|
                    0 <= k < self.damage_queue@.len() ==> event_wf(#[trigger] self.damage_queue@[k]),
                self.enemies == old(self).enemies,
                self.player == old(self).player,
                self.pending_removal == old(self).pending_removal,
                self.effects == old(self).effects,
                self.next_id == old(self).next_id,
            decreases n - j,
        {
            let e: Enemy = self.enemies[j];
            proof {
                lemma_smack_events_step(old(self).enemies@, center, p.id, j as int);
            }
            if circles_overlap_at(e.pos, ENEMY_RADIUS, center, SMACK_RADIUS) {
                self.damage_queue.push(
                    DamageEvent { attacker: p.id, receiver: e.id, strength: SMACK_STRENGTH },
                );
            }
            j += 1;
        }
        proof {
            assert(old(self).enemies@.take(n as int) =~= old(self).enemies@);
        }
        let id: u64 = self.next_id;
        self.effects.push(SmackEffect { id, pos: center, age: 0 });
        self.next_id = id + 1;
    }

    /// One fixed tick, phases in the order the design relies on.  Afterwards
    /// the damage queue is fully drained, every dead non-player record —
    /// dead at the sweep, whether it entered the tick dead or died to this
    /// tick's damage — is gone, and the player record survives with its
    /// identity and position intact, whatever its health.
    pub fn tick(&mut self, dt: i64, inputs: &Vec<EnemyInput>)
        requires
            old(self).wf(),
            0 <= dt <= DT_LIMIT,
            inputs_wf(inputs@, old(self).enemies@.len() as int),
        ensures
            final(self).wf(),
            tick_rel(*old(self), *final(self), dt as int, inputs@),
            final(self).damage_queue@.len() == 0,
            final(self).pending_removal@.len() == 0,
            forall|j: int|
                0 <= j < final(self).enemies@.len() ==> !dead(#[trigger] final(self).enemies@[j]),
            final(self).player is Some <==> old(self).player is Some,
            old(self).player matches Option::Some(p) ==> (final(self).player matches Option::Some(
                p2,
            ) && p2.id == p.id && p2.pos == p.pos),
    {
        let ghost w0 = *old(self);
        self.settle_spawns(dt);
        proof {
            assert(self.enemies@ =~= settled_all(w0.enemies@, dt as int));
        }
        let ghost roster1 = self.enemies@;
        self.assign_wander_targets(inputs);
        proof {
            assert(self.enemies@ =~= assigned_all(roster1, inputs@));
        }
        let ghost roster2 = self.enemies@;
        self.move_wanderers(dt, inputs);
        proof {
            assert(self.enemies@ =~= moved_all(roster2, dt as int, inputs@, player_pos(w0.player)));
        }
        let ghost roster3 = self.enemies@;
        self.spin_lasers(dt, inputs);
        proof {
            assert(self.enemies@ =~= attacked_all(
                roster3,
                dt as int,
                inputs@,
                player_pair(w0.player),
            ));
            assert(self.damage_queue@ == w0.damage_queue@ + beam_events(
                roster3,
                inputs@,
                player_pair(w0.player),
                dt as int,
            ));
        }
        let ghost roster4 = self.enemies@;
        let ghost queue1 = self.damage_queue@;
        self.resolve_damage_queue();
        proof {
            assert(self.enemies@ =~= drained_all(roster4, queue1));
        }
        let ghost roster5 = self.enemies@;
        self.lerp_health(dt);
        proof {
            assert(self.enemies@ =~= lerped_all(roster5, dt as int));
        }
        let ghost roster6 = self.enemies@;
        self.update_smack(dt);
        proof {
            assert(self.effects@ =~= aged_all(w0.effects@, dt as int));
            assert(self.pending_removal@ == aged_pending(
                w0.pending_removal@,
                w0.effects@,
                dt as int,
            ));
        }
        self.remove_dead();
        let ghost swept = *self;
        proof {
            assert(swept.enemies@ == roster6);
            assert(swept.pending_removal@ == swept_pending(
                aged_pending(w0.pending_removal@, w0.effects@, dt as int),
                roster6,
            ));
        }
        self.despawn_pending();
        proof {
            lemma_surviving_enemies_facts(swept.enemies@, swept.pending_removal@);
            assert forall|j: int| 0 <= j < self.enemies@.len() implies !dead(
                #[trigger] self.enemies@[j],
            ) by {
                assert(swept.enemies@.contains(self.enemies@[j]));
                let k0 = choose|k0: int|
                    0 <= k0 < swept.enemies@.len() && swept.enemies@[k0] == self.enemies@[j];
                if dead(self.enemies@[j]) {
                    assert(dead(swept.enemies@[k0]));
                    assert(swept.pending_removal@.contains(swept.enemies@[k0].id));
                }
            }
            assert(tick_rel(w0, *self, dt as int, inputs@));
        }
    }
}

} // verus!
