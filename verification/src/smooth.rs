//! Exponential-style easing on the integer grid.
//!
//! Displayed health and an enemy's facing both trail their authoritative
//! value: each tick they move a time-scaled fraction of the remaining gap,
//! never past it, and by at least one grid step whenever time passed, so the
//! trailing value converges and then stays put.

use vstd::prelude::*;

verus! {

use crate::DT_LIMIT;
use vstd::arithmetic::div_mod::{
    lemma_div_is_ordered,
    lemma_div_multiples_vanish,
    lemma_div_pos_is_pos,
};
use vstd::arithmetic::mul::lemma_mul_inequality;

/// Bound on the values the easing functions accept (milli-units).
pub const EASE_LIMIT: i64 = 2_000_000_000_000;

/// Bound on the easing time constant, in milliseconds.
pub const TAU_LIMIT: i64 = 1_000_000;

/// Magnitude of the gap between the trailing value and its target.
pub open spec fn gap(cur: int, target: int) -> int {
    if target >= cur {
        target - cur
    } else {
        cur - target
    }
}

/// The value one easing step leaves behind: `cur` moved toward `target` by
/// `gap * dt / (dt + tau)`, rounded down, but by at least one grid step when
/// time passed and the gap is not yet closed.
pub open spec fn eased(cur: int, target: int, dt: int, tau: int) -> int
    recommends
        dt >= 0,
        tau >= 1,
{
    let diff = gap(cur, target);
    let raw = (diff * dt) / (dt + tau);
    let mag = if raw == 0 && diff > 0 && dt > 0 {
        1int
    } else {
        raw
    };
    if target >= cur {
        cur + mag
    } else {
        cur - mag
    }
}

/// The step magnitude never exceeds the gap itself, and is nonnegative.
proof fn lemma_step_bounded(diff: int, dt: int, tau: int)
    requires
        diff >= 0,
        dt >= 0,
        tau >= 1,
    ensures
        0 <= (diff * dt) / (dt + tau) <= diff,
{
    let den = dt + tau;
    if diff * dt > 0 {
        lemma_div_pos_is_pos(diff * dt, den);
    }
    lemma_mul_inequality(dt, den, diff);
    assert(diff * dt == dt * diff) by (nonlinear_arith);
    assert(diff * den == den * diff) by (nonlinear_arith);
    lemma_div_is_ordered(diff * dt, diff * den, den);
    lemma_div_multiples_vanish(diff, den);
}

/// An easing step stays between the trailing value and its target, holds
/// still exactly at the target, and strictly closes a nonzero gap whenever
/// time passed.
pub proof fn lemma_ease_converges(cur: int, target: int, dt: int, tau: int)
    requires
        dt >= 0,
        tau >= 1,
    ensures
        cur <= target ==> cur <= eased(cur, target, dt, tau) <= target,
        target <= cur ==> target <= eased(cur, target, dt, tau) <= cur,
        gap(eased(cur, target, dt, tau), target) <= gap(cur, target),
        cur == target ==> eased(cur, target, dt, tau) == cur,
        dt > 0 && cur != target ==> gap(eased(cur, target, dt, tau), target) < gap(cur, target),
{
    lemma_step_bounded(gap(cur, target), dt, tau);
}

/// One easing step, executed on the grid.
pub fn ease_toward(cur: i64, target: i64, dt: i64, tau: i64) -> (r: i64)
    requires
        0 <= dt <= DT_LIMIT,
        1 <= tau <= TAU_LIMIT,
        -EASE_LIMIT <= cur <= EASE_LIMIT,
        -EASE_LIMIT <= target <= EASE_LIMIT,
    ensures
        r == eased(cur as int, target as int, dt as int, tau as int),
        -EASE_LIMIT <= r <= EASE_LIMIT,
{
    proof {
        lemma_step_bounded(gap(cur as int, target as int), dt as int, tau as int);
    }
    let diff: u64 = if target >= cur {
        (target - cur) as u64
    } else {
        (cur - target) as u64
    };
    proof {
        assert(diff as int * dt as int <= 4_000_000_000_000int * 10_000int) by (nonlinear_arith)
            requires
                0 <= diff <= 4_000_000_000_000,
                0 <= dt <= 10_000,
        ;
    }
    let raw: u64 = (diff * (dt as u64)) / ((dt + tau) as u64);
    let mag: i64 = if raw == 0 && diff > 0 && dt > 0 {
        1
    } else {
        raw as i64
    };
    if target >= cur {
        cur + mag
    } else {
        cur - mag
    }
}

} // verus!
