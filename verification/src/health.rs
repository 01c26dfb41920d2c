//! Health records and damage resolution.
//!
//! A record keeps `total` (the starting maximum), `current` (the
//! authoritative value, changed only by damage events) and `last` (a trailing
//! display value that eases toward `current` every tick and feeds the health
//! bar).  Damage subtracts its strength from `current` with no floor at zero
//! and no ceiling at `total`; only at the far machine limit `HP_LIMIT` does
//! the subtraction saturate instead of overflowing.

use vstd::prelude::*;

verus! {

use crate::{DT_LIMIT, HP_LIMIT, STRENGTH_LIMIT};
use crate::smooth::{ease_toward, eased, gap, lemma_ease_converges};

/// Time constant of the display value's easing, in milliseconds.
pub const HEALTH_TAU: i64 = 1000;

/// A record is dead once `current` falls to this threshold (milli hit
/// points).
pub const DEAD_THRESHOLD: i64 = 100;

/// Remaining vitality of a damageable entity, in milli hit points.
#[derive(Clone, Copy, Debug, PartialEq, Eq, Structural)]
pub struct Health {
    /// The maximum total health the entity started with.
    pub total: i64,
    /// The trailing health value shown as the "damage chunk" in a health bar.
    pub last: i64,
    /// The authoritative health value.
    pub current: i64,
}

/// An ephemeral message asking the receiver's health record to be reduced.
#[derive(Clone, Copy, Debug, PartialEq, Eq, Structural)]
pub struct DamageEvent {
    pub attacker: u64,
    pub receiver: u64,
    /// Milli hit points to subtract from the receiver's `current`.
    pub strength: i64,
}

/// Well-formed health record: every field within the machine budget.
pub open spec fn hp_wf(h: Health) -> bool {
    &&& 0 <= h.total <= HP_LIMIT
    &&& -HP_LIMIT <= h.last <= HP_LIMIT
    &&& -HP_LIMIT <= h.current <= HP_LIMIT
}

/// Well-formed damage event: strength within the machine budget.
pub open spec fn event_wf(ev: DamageEvent) -> bool {
    -STRENGTH_LIMIT <= ev.strength <= STRENGTH_LIMIT
}

impl Health {
    /// A fresh record: display and authoritative values both start at the
    /// maximum.
    pub fn new(total: i64) -> (h: Health)
        requires
            0 <= total <= HP_LIMIT,
        ensures
            h.total == total,
            h.last == total,
            h.current == total,
            hp_wf(h),
    {
        Health { total, last: total, current: total }
    }
}

/// The authoritative value after one damage event: `strength` subtracted,
/// saturating at the machine budget.
pub open spec fn damaged(cur: int, strength: int) -> int {
    let raw = cur - strength;
    if raw < -HP_LIMIT {
        -HP_LIMIT as int
    } else if raw > HP_LIMIT {
        HP_LIMIT as int
    } else {
        raw
    }
}

/// The authoritative value after a sequence of damage strengths, applied in
/// order.
pub open spec fn damaged_all(cur: int, strengths: Seq<int>) -> int
    decreases strengths.len(),
{
    if strengths.len() == 0 {
        cur
    } else {
        damaged(damaged_all(cur, strengths.drop_last()), strengths.last())
    }
}

/// Sum of a sequence of strengths.
pub open spec fn strength_sum(strengths: Seq<int>) -> int
    decreases strengths.len(),
{
    if strengths.len() == 0 {
        0
    } else {
        strength_sum(strengths.drop_last()) + strengths.last()
    }
}

/// Damage accumulates additively: after any number of damage events whose
/// running total never leaves the machine budget, the record holds exactly
/// its starting value minus the sum of the strengths — there is no clamping
/// at zero or at `total`.
pub proof fn lemma_damage_accumulates(cur: int, strengths: Seq<int>)
    requires
        cur <= HP_LIMIT,
        forall|i: int| 0 <= i < strengths.len() ==> #[trigger] strengths[i] >= 0,
        cur - strength_sum(strengths) >= -HP_LIMIT,
    ensures
        damaged_all(cur, strengths) == cur - strength_sum(strengths),
    decreases strengths.len(),
{
    if strengths.len() > 0 {
        let head = strengths.drop_last();
        assert(strengths.last() >= 0);
        assert(forall|i: int| 0 <= i < head.len() ==> #[trigger] head[i] >= 0);
        assert(strength_sum(head) == strength_sum(strengths) - strengths.last());
        lemma_damage_accumulates(cur, head);
    }
}

/// Two unconditional faces of unclamped damage: a hit that meets or exceeds
/// the remaining health leaves the record at or below zero — there is no
/// floor at zero — and whenever the exact difference lies inside the machine
/// budget, the result is that exact difference.
pub proof fn lemma_damage_unclamped(cur: int, strength: int)
    ensures
        cur - strength <= 0 ==> damaged(cur, strength) <= 0,
        -HP_LIMIT <= cur - strength <= HP_LIMIT ==> damaged(cur, strength) == cur - strength,
{
}

/// Apply one damage event's strength to a record.
pub fn apply_damage(h: &mut Health, strength: i64) -> (u: ())
    requires
        hp_wf(*old(h)),
        -STRENGTH_LIMIT <= strength <= STRENGTH_LIMIT,
    ensures
        final(h).current == damaged(old(h).current as int, strength as int),
        final(h).last == old(h).last,
        final(h).total == old(h).total,
        hp_wf(*final(h)),
{
    let raw: i64 = h.current - strength;
    if raw < -HP_LIMIT {
        h.current = -HP_LIMIT;
    } else if raw > HP_LIMIT {
        h.current = HP_LIMIT;
    } else {
        h.current = raw;
    }
}

/// One display tick: ease `last` toward `current`; `current` and `total` are
/// untouched, `last` moves toward `current` without overshooting and closes
/// a nonzero gap whenever time passed.
pub fn lerp_display(h: &mut Health, dt: i64) -> (u: ())
    requires
        hp_wf(*old(h)),
        0 <= dt <= DT_LIMIT,
    ensures
        final(h).last == eased(
            old(h).last as int,
            old(h).current as int,
            dt as int,
            HEALTH_TAU as int,
        ),
        final(h).current == old(h).current,
        final(h).total == old(h).total,
        hp_wf(*final(h)),
        gap(final(h).last as int, final(h).current as int) <= gap(
            old(h).last as int,
            old(h).current as int,
        ),
        old(h).last == old(h).current ==> final(h).last == old(h).last,
{
    proof {
        lemma_ease_converges(h.last as int, h.current as int, dt as int, HEALTH_TAU as int);
    }
    h.last = ease_toward(h.last, h.current, dt, HEALTH_TAU);
}

} // verus!
