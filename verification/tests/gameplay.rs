use jam_core::enemy::{attack_step, wander_move_step, Enemy, EnemyKind, Mode};
use jam_core::geom::{circles_overlap_at, dist_sq_between, isqrt, Vec2};
use jam_core::health::{apply_damage, lerp_display, DamageEvent, Health};
use jam_core::smooth::ease_toward;
use jam_core::world::{EnemyInput, SpawnCadence, World, SPAWN_PERIOD_MS};
use jam_core::beam::beam_hit;

fn no_inputs(n: usize) -> Vec<EnemyInput> {
    let mut v = Vec::new();
    for _ in 0..n {
        v.push(EnemyInput {
            sample: None,
            beam: None,
        });
    }
    v
}

fn eyeball_attacking(cooldown_left: i64) -> Enemy {
    Enemy {
        id: 1,
        kind: EnemyKind::Eyeball,
        pos: Vec2 { x: 0, z: 0 },
        facing: Vec2 { x: 1000, z: 0 },
        grace_left: 0,
        mode: Mode::Attacking {
            attack_left: 2000,
            cooldown_left,
        },
        health: Health::new(50_000),
    }
}

#[test]
fn damage_accumulates_without_clamping() {
    let mut h = Health::new(50_000);
    apply_damage(&mut h, 20_000);
    assert_eq!(h.current, 30_000);
    apply_damage(&mut h, 20_000);
    apply_damage(&mut h, 20_000);
    // 50 - 20 - 20 - 20 = -10: no floor at zero
    assert_eq!(h.current, -10_000);
    assert_eq!(h.total, 50_000);
    // a negative strength over-heals past the total: no ceiling either
    apply_damage(&mut h, -70_000);
    assert_eq!(h.current, 60_000);
}

#[test]
fn display_value_converges_and_never_overshoots() {
    let mut h = Health {
        total: 50_000,
        last: 50_000,
        current: 30_000,
    };
    let mut prev_gap = h.last - h.current;
    for _ in 0..200 {
        lerp_display(&mut h, 100);
        let gap = h.last - h.current;
        assert!(gap >= 0, "the display value never overshoots");
        assert!(gap <= prev_gap, "the gap closes monotonically");
        prev_gap = gap;
    }
    assert_eq!(h.last, 30_000, "the display value reaches the target");
    lerp_display(&mut h, 100);
    assert_eq!(h.last, 30_000, "easing is idempotent at the target");
    assert_eq!(h.current, 30_000);
}

#[test]
fn ease_step_values() {
    // half the gap after one time constant's worth of elapsed time
    assert_eq!(ease_toward(0, 1000, 1000, 1000), 500);
    // at the target it stays put
    assert_eq!(ease_toward(1000, 1000, 500, 1000), 1000);
    // a tiny gap still closes by at least one grid step when time passed
    assert_eq!(ease_toward(0, 5, 1, 1000), 1);
    // no time, no movement
    assert_eq!(ease_toward(0, 5, 0, 1000), 0);
}

#[test]
fn dead_enemy_removed_by_end_of_frame_player_exempt() {
    let mut w = World::new();
    let pid = w.spawn_player(Vec2 { x: 50_000, z: 0 }, None);
    let eid = w.spawn_enemy(EnemyKind::Eyeball, Vec2 { x: 0, z: 0 });
    w.queue_damage(DamageEvent {
        attacker: pid,
        receiver: eid,
        strength: 20_000,
    });
    let inputs = no_inputs(1);
    w.tick(100, &inputs);
    assert_eq!(w.enemies.len(), 1);
    assert_eq!(w.enemies[0].health.current, 30_000);

    w.queue_damage(DamageEvent {
        attacker: pid,
        receiver: eid,
        strength: 20_000,
    });
    w.queue_damage(DamageEvent {
        attacker: pid,
        receiver: eid,
        strength: 20_000,
    });
    // 30 - 20 - 20 = -10: dead, swept and gone by the end of the same frame
    w.tick(100, &inputs);
    assert_eq!(w.enemies.len(), 0);
    assert_eq!(w.pending_removal.len(), 0);

    // the player is never auto-removed, however low its record falls
    w.queue_damage(DamageEvent {
        attacker: eid,
        receiver: pid,
        strength: 60_000,
    });
    w.tick(100, &no_inputs(0));
    let p = w.player.unwrap();
    assert_eq!(p.health.current, -10_000);
}

#[test]
fn damage_to_missing_receiver_is_dropped() {
    let mut w = World::new();
    let eid = w.spawn_enemy(EnemyKind::FlockSphere, Vec2 { x: 0, z: 0 });
    w.queue_damage(DamageEvent {
        attacker: 999,
        receiver: eid + 77,
        strength: 20_000,
    });
    w.tick(100, &no_inputs(1));
    assert_eq!(w.enemies[0].health.current, 25_000);
    assert_eq!(w.damage_queue.len(), 0, "the queue is still fully drained");
}

#[test]
fn arrival_stops_movement_toward_that_destination() {
    // within 0.1 units of the target: the next tick applies no movement
    let e = Enemy {
        id: 3,
        kind: EnemyKind::Eyeball,
        pos: Vec2 { x: 0, z: 0 },
        facing: Vec2 { x: 1000, z: 0 },
        grace_left: 0,
        mode: Mode::Wandering {
            from: Vec2 { x: -5000, z: 0 },
            to: Vec2 { x: 50, z: 0 },
        },
        health: Health::new(50_000),
    };
    let stepped = wander_move_step(e, 1000, None, None);
    assert_eq!(stepped.pos, e.pos);
    // no player near: it keeps waiting at the old destination
    assert!(matches!(stepped.mode, Mode::Wandering { .. }));
}

#[test]
fn arrival_with_player_near_starts_attack() {
    let e = Enemy {
        id: 3,
        kind: EnemyKind::Eyeball,
        pos: Vec2 { x: 0, z: 0 },
        facing: Vec2 { x: 1000, z: 0 },
        grace_left: 0,
        mode: Mode::Wandering {
            from: Vec2 { x: -5000, z: 0 },
            to: Vec2 { x: 0, z: 0 },
        },
        health: Health::new(50_000),
    };
    let near = wander_move_step(e, 100, None, Some(Vec2 { x: 1000, z: 500 }));
    match near.mode {
        Mode::Attacking {
            attack_left,
            cooldown_left,
        } => {
            assert_eq!(attack_left, 2000);
            assert_eq!(cooldown_left, 0);
        }
        _ => panic!("an eyeball with the player within 3 units turns to attack"),
    }
    // the facing snaps to the player once, at the transition
    assert_eq!(near.facing, Vec2 { x: 1000, z: 500 });

    // the player beyond 3 units leaves it wandering
    let far = wander_move_step(e, 100, None, Some(Vec2 { x: 4000, z: 0 }));
    assert!(matches!(far.mode, Mode::Wandering { .. }));
}

#[test]
fn movement_covers_elapsed_time_at_unit_speed() {
    let e = Enemy {
        id: 4,
        kind: EnemyKind::FlockSphere,
        pos: Vec2 { x: 0, z: 0 },
        facing: Vec2 { x: 1000, z: 0 },
        grace_left: 0,
        mode: Mode::Wandering {
            from: Vec2 { x: 0, z: 0 },
            to: Vec2 { x: 10_000, z: 0 },
        },
        health: Health::new(25_000),
    };
    // one second at unit speed: exactly one world unit along the line
    let stepped = wander_move_step(e, 1000, None, None);
    assert_eq!(stepped.pos, Vec2 { x: 1000, z: 0 });
}

#[test]
fn beam_hits_once_per_cooldown_window() {
    let e = eyeball_attacking(0);
    let player = Some((7u64, Vec2 { x: 2000, z: 0 }));
    // on the ray at exactly the beam's length: hit, cooldown armed at 0.2s
    let (e1, ev1) = attack_step(e, 100, None, player);
    let ev1 = ev1.expect("a target on the ray within reach is hit");
    assert_eq!(ev1.attacker, 1);
    assert_eq!(ev1.receiver, 7);
    assert_eq!(ev1.strength, 5000);
    match e1.mode {
        Mode::Attacking { cooldown_left, .. } => assert_eq!(cooldown_left, 200),
        _ => panic!("the attack keeps running"),
    }
    // 0.1s later the window is still closed, wherever the player stands
    let (e2, ev2) = attack_step(e1, 100, None, player);
    assert!(ev2.is_none(), "no second hit within the cooldown window");
    // another 0.1s closes out the window: the hit fires again
    let (_, ev3) = attack_step(e2, 100, None, player);
    assert!(ev3.is_some(), "the next window scores again");
}

#[test]
fn beam_misses_outside_radius_or_beyond_reach() {
    let e = eyeball_attacking(0);
    // beyond the beam's length plus the target's radius: never hit
    let (_, far) = attack_step(e, 100, None, Some((7, Vec2 { x: 2600, z: 0 })));
    assert!(far.is_none());
    // tangent at exactly length plus radius still counts as a hit
    let (_, edge) = attack_step(e, 100, None, Some((7, Vec2 { x: 2500, z: 0 })));
    assert!(edge.is_some());
    // laterally outside the circle's radius: never hit
    let (_, side) = attack_step(e, 100, None, Some((7, Vec2 { x: 0, z: 600 })));
    assert!(side.is_none());
}

#[test]
fn attack_ends_when_its_timer_runs_out() {
    let e = eyeball_attacking(0);
    let (done, ev) = attack_step(e, 2000, None, Some((7, Vec2 { x: 1000, z: 0 })));
    assert!(matches!(done.mode, Mode::Idle));
    assert!(ev.is_none(), "an ending tick scores no hit");
}

#[test]
fn hammer_strike_damages_each_reached_enemy_once() {
    let mut w = World::new();
    w.spawn_player(Vec2 { x: 0, z: 0 }, None);
    let eid = w.spawn_enemy(EnemyKind::Eyeball, Vec2 { x: 2000, z: 0 });
    // an enemy far outside the strike circle
    let far = w.spawn_enemy(EnemyKind::Eyeball, Vec2 { x: 10_000, z: 0 });
    // forward = +X: the strike lands two units ahead, at the enemy
    w.hammer_slam_hit(Vec2 { x: 1000, z: 0 });
    assert_eq!(w.damage_queue.len(), 1, "exactly one event per reached enemy");
    assert_eq!(w.damage_queue[0].receiver, eid);
    assert_eq!(w.damage_queue[0].strength, 20_000);
    assert_eq!(w.effects.len(), 1);
    assert_eq!(w.effects[0].pos, Vec2 { x: 2000, z: 0 });

    w.tick(100, &no_inputs(2));
    let hit = w.enemies.iter().find(|e| e.id == eid).unwrap();
    assert_eq!(hit.health.current, 30_000);
    let missed = w.enemies.iter().find(|e| e.id == far).unwrap();
    assert_eq!(missed.health.current, 50_000);
    // the effect's whole lifetime elapsed within that tick: it is gone
    assert_eq!(w.effects.len(), 0);
}

#[test]
fn spawn_grace_delays_wandering() {
    let mut w = World::new();
    w.spawn_enemy(EnemyKind::Eyeball, Vec2 { x: 0, z: 0 });
    let sample = vec![EnemyInput {
        sample: Some(Vec2 { x: 5000, z: 5000 }),
        beam: None,
    }];
    // grace runs 250 ms: two 100 ms ticks leave it idle
    w.tick(100, &sample);
    assert!(matches!(w.enemies[0].mode, Mode::Idle));
    w.tick(100, &sample);
    assert!(matches!(w.enemies[0].mode, Mode::Idle));
    // the third tick ends the grace and the sample is taken
    w.tick(100, &sample);
    assert!(matches!(w.enemies[0].mode, Mode::Wandering { .. }));
}

#[test]
fn rejected_sample_leaves_enemy_idle() {
    let mut w = World::new();
    w.spawn_enemy(EnemyKind::Eyeball, Vec2 { x: 0, z: 0 });
    for _ in 0..5 {
        w.tick(100, &no_inputs(1));
    }
    assert!(matches!(w.enemies[0].mode, Mode::Idle));
}

#[test]
fn spawn_at_sample_skips_rejected_samples() {
    let mut w = World::new();
    assert_eq!(w.spawn_at_sample(EnemyKind::FlockSphere, None), None);
    assert_eq!(w.enemies.len(), 0);
    let id = w.spawn_at_sample(EnemyKind::FlockSphere, Some(Vec2 { x: 100, z: 100 }));
    assert!(id.is_some());
    assert_eq!(w.enemies.len(), 1);
    assert_eq!(w.enemies[0].health.total, 25_000);
}

#[test]
fn geometry_helpers_are_exact() {
    assert_eq!(isqrt(0), 0);
    assert_eq!(isqrt(10), 3);
    assert_eq!(isqrt(1_000_000), 1000);
    assert_eq!(
        dist_sq_between(Vec2 { x: 3, z: 4 }, Vec2 { x: 0, z: 0 }),
        25
    );
    // circles touch at exactly the sum of their radii
    let a = Vec2 { x: 0, z: 0 };
    let b = Vec2 { x: 2000, z: 0 };
    assert!(circles_overlap_at(a, 500, b, 1500));
    assert!(!circles_overlap_at(a, 500, Vec2 { x: 2001, z: 0 }, 1500));
}

#[test]
fn beam_test_boundaries() {
    let origin = Vec2 { x: 0, z: 0 };
    let dir = Vec2 { x: 1000, z: 0 };
    // tangent at the tip: length plus radius away, on the ray
    assert!(beam_hit(origin, dir, 2000, Vec2 { x: 2500, z: 0 }, 500));
    assert!(!beam_hit(origin, dir, 2000, Vec2 { x: 2501, z: 0 }, 500));
    // a target behind the origin but overlapping it
    assert!(beam_hit(origin, dir, 2000, Vec2 { x: -400, z: 0 }, 500));
    assert!(!beam_hit(origin, dir, 2000, Vec2 { x: -501, z: 0 }, 500));
    // lateral tangency
    assert!(beam_hit(origin, dir, 2000, Vec2 { x: 1000, z: 500 }, 500));
    assert!(!beam_hit(origin, dir, 2000, Vec2 { x: 1000, z: 501 }, 500));
}

#[test]
fn hammer_without_player_is_silent_noop() {
    let mut w = World::new();
    let eid = w.spawn_enemy(EnemyKind::Eyeball, Vec2 { x: 2000, z: 0 });
    let next = w.next_id;
    // no player: the strike degrades to a no-op — nothing spawned, nothing hit
    w.hammer_slam_hit(Vec2 { x: 1000, z: 0 });
    assert_eq!(w.damage_queue.len(), 0);
    assert_eq!(w.effects.len(), 0);
    assert_eq!(w.next_id, next);
    assert_eq!(w.enemies.len(), 1);
    assert_eq!(w.enemies[0].id, eid);
}

#[test]
fn spawn_cadence_fires_once_per_period() {
    assert_eq!(World::new().next_id, 0);
    let mut timer = SpawnCadence::new(SPAWN_PERIOD_MS);
    assert!(!timer.tick(4000));
    assert_eq!(timer.remaining, 1000);
    // the expiry tick fires exactly once and rewinds the full period
    assert!(timer.tick(1000));
    assert_eq!(timer.remaining, SPAWN_PERIOD_MS);
    assert!(!timer.tick(4999));
    assert!(timer.tick(1));
}

#[test]
fn flock_sphere_attacks_unconditionally_on_arrival() {
    let e = Enemy {
        id: 9,
        kind: EnemyKind::FlockSphere,
        pos: Vec2 { x: 0, z: 0 },
        facing: Vec2 { x: 1000, z: 0 },
        grace_left: 0,
        mode: Mode::Wandering {
            from: Vec2 { x: -1000, z: 0 },
            to: Vec2 { x: 0, z: 0 },
        },
        health: Health::new(25_000),
    };
    // no player anywhere, yet the flock-sphere still turns to attack
    let stepped = wander_move_step(e, 100, None, None);
    match stepped.mode {
        Mode::Attacking { attack_left, .. } => assert_eq!(attack_left, 5000),
        _ => panic!("a flock-sphere attacks unconditionally on arrival"),
    }
}
