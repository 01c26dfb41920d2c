//! Points, distances and movement on the horizontal plane.
//!
//! Positions live on a milli-unit grid: a `Vec2` holds thousandths of a world
//! unit.  All range tests compare squared distances, so they are exact; the
//! one place a root is needed — scaling a displacement to unit speed — uses a
//! verified integer square root and states the rounding exactly.

use vstd::prelude::*;

verus! {

use crate::DT_LIMIT;
use vstd::arithmetic::div_mod::{
    lemma_div_is_ordered,
    lemma_div_multiples_vanish,
    lemma_div_nonincreasing,
    lemma_div_of0,
    lemma_div_pos_is_pos,
};
use vstd::arithmetic::mul::lemma_mul_inequality;

/// A point or direction on the horizontal plane, in milli-units.
#[derive(Clone, Copy, Debug, PartialEq, Eq, Structural)]
pub struct Vec2 {
    pub x: i64,
    pub z: i64,
}

/// Bound on entity positions (milli-units): the arena fits in this box.
pub const COORD_LIMIT: i64 = 300_000;

/// Bound on sampled wander destinations and spawn points; tighter than
/// `COORD_LIMIT` so a step taken toward a destination stays in the arena box.
pub const TARGET_LIMIT: i64 = 200_000;

/// Bound on the components of a direction vector handed in by the host.
pub const DIR_LIMIT: i64 = 1_000_000;

/// Bound on circle radii and beam lengths (milli-units).
pub const RADIUS_LIMIT: i64 = 10_000;

/// Both components of `v` lie within `lim` of zero.
pub open spec fn in_box(v: Vec2, lim: int) -> bool {
    -lim <= v.x <= lim && -lim <= v.z <= lim
}

/// Squared length of `v`.
pub open spec fn norm_sq(v: Vec2) -> int {
    v.x * v.x + v.z * v.z
}

/// Squared distance between two points.
pub open spec fn dist_sq(a: Vec2, b: Vec2) -> int {
    (a.x - b.x) * (a.x - b.x) + (a.z - b.z) * (a.z - b.z)
}

/// Two circles touch or overlap: their centers are no farther apart than the
/// sum of their radii.
pub open spec fn circles_overlap(ca: Vec2, ra: int, cb: Vec2, rb: int) -> bool {
    dist_sq(ca, cb) <= (ra + rb) * (ra + rb)
}

/// A square of a value bounded by `lim` is bounded by `lim * lim`.
pub proof fn lemma_square_bound(a: int, lim: int)
    requires
        -lim <= a <= lim,
    ensures
        0 <= a * a <= lim * lim,
{
    assert(0 <= a * a <= lim * lim) by (nonlinear_arith)
        requires
            -lim <= a <= lim,
    ;
}

/// Squared distance between two points of the arena box.
pub fn dist_sq_between(a: Vec2, b: Vec2) -> (r: i64)
    requires
        in_box(a, 2 * COORD_LIMIT as int),
        in_box(b, 2 * COORD_LIMIT as int),
    ensures
        r == dist_sq(a, b),
        0 <= r <= 2_880_000_000_000,
{
    proof {
        lemma_square_bound(a.x - b.x, 1_200_000);
        lemma_square_bound(a.z - b.z, 1_200_000);
    }
    let dx: i64 = a.x - b.x;
    let dz: i64 = a.z - b.z;
    dx * dx + dz * dz
}

/// Whether two bounded circles touch or overlap.
pub fn circles_overlap_at(ca: Vec2, ra: i64, cb: Vec2, rb: i64) -> (r: bool)
    requires
        in_box(ca, 2 * COORD_LIMIT as int),
        in_box(cb, 2 * COORD_LIMIT as int),
        0 <= ra <= RADIUS_LIMIT,
        0 <= rb <= RADIUS_LIMIT,
    ensures
        r == circles_overlap(ca, ra as int, cb, rb as int),
{
    let d2: i64 = dist_sq_between(ca, cb);
    proof {
        lemma_square_bound(ra + rb, 20_000);
    }
    let rr: i64 = ra + rb;
    d2 <= rr * rr
}

/// Integer square root: the greatest `r` with `r * r <= n`.
pub fn isqrt(n: u64) -> (r: u64)
    requires
        n <= 4_000_000_000_000_000_000,
    ensures
        r * r <= n < (r + 1) * (r + 1),
{
    let mut lo: u64 = 0;
    let mut hi: u64 = 2_000_000_000;
    assert(n < (hi + 1) * (hi + 1)) by (nonlinear_arith)
        requires
            n <= 4_000_000_000_000_000_000,
            hi == 2_000_000_000,
    ;
    while lo < hi
        invariant
            lo <= hi <= 2_000_000_000,
            lo * lo <= n,
            n < (hi + 1) * (hi + 1),
        decreases hi - lo,
    {
        let mid: u64 = lo + (hi - lo + 1) / 2;
        assert(lo < mid <= hi);
        assert(mid * mid <= 4_000_000_000_000_000_000) by (nonlinear_arith)
            requires
                0 <= mid <= 2_000_000_000,
        ;
        if mid * mid <= n {
            lo = mid;
        } else {
            hi = mid - 1;
        }
    }
    lo
}

/// Division rounded toward zero, as the movement step uses it on a signed
/// displacement.
pub open spec fn div_toward_zero(a: int, b: int) -> int
    recommends
        b > 0,
{
    if a >= 0 {
        a / b
    } else {
        -((-a) / b)
    }
}

/// Where one coordinate lands after moving toward `toc` for `dt` milliseconds
/// at unit speed: the displacement `toc - posc` is scaled by `dt / dist`,
/// rounded toward zero, where `dist` is the integer length of the whole
/// displacement vector.
pub open spec fn stepped(posc: int, toc: int, dt: int, dist: int) -> int
    recommends
        dist > 0,
{
    posc + div_toward_zero((toc - posc) * dt, dist)
}

/// For `0 <= b <= c`, scaling `a >= 0` by `b / c` stays within `[0, a]`.
proof fn lemma_scale_le(a: int, b: int, c: int)
    requires
        a >= 0,
        0 <= b <= c,
        c > 0,
    ensures
        0 <= (a * b) / c <= a,
{
    if a * b > 0 {
        lemma_div_pos_is_pos(a * b, c);
    }
    lemma_mul_inequality(b, c, a);
    assert(a * b == b * a) by (nonlinear_arith);
    assert(a * c == c * a) by (nonlinear_arith);
    lemma_div_is_ordered(a * b, a * c, c);
    lemma_div_multiples_vanish(a, c);
}

/// Facts about one coordinate of a movement step: the result stays in the
/// arena box, never moves away from the destination, and moving is the
/// identity when the coordinate already agrees with its destination.
proof fn lemma_step_facts(posc: int, toc: int, dt: int, dist: int)
    requires
        -COORD_LIMIT <= posc <= COORD_LIMIT,
        -TARGET_LIMIT <= toc <= TARGET_LIMIT,
        0 <= dt <= DT_LIMIT,
        dist > 0,
        -dist <= toc - posc <= dist,
    ensures
        -COORD_LIMIT <= stepped(posc, toc, dt, dist) <= COORD_LIMIT,
        dt <= dist ==> (stepped(posc, toc, dt, dist) - toc) * (stepped(posc, toc, dt, dist) - toc)
            <= (posc - toc) * (posc - toc),
        posc == toc ==> stepped(posc, toc, dt, dist) == posc,
{
    let delta = toc - posc;
    let mag = if delta >= 0 {
        delta
    } else {
        -delta
    };
    let step = div_toward_zero(delta * dt, dist);
    if delta == 0 {
        assert(delta * dt == 0) by (nonlinear_arith)
            requires
                delta == 0,
        ;
        lemma_div_of0(dist);
    }
    if delta >= 0 {
        assert(delta * dt >= 0) by (nonlinear_arith)
            requires
                delta >= 0,
                dt >= 0,
        ;
        lemma_scale_le(dt, mag, dist);
        assert(dt * mag == delta * dt) by (nonlinear_arith)
            requires
                mag == delta,
        ;
        if dt <= dist {
            lemma_scale_le(mag, dt, dist);
            assert(mag * dt == delta * dt) by (nonlinear_arith)
                requires
                    mag == delta,
            ;
        }
    } else {
        assert(delta * dt <= 0) by (nonlinear_arith)
            requires
                delta < 0,
                dt >= 0,
        ;
        assert(-(delta * dt) == mag * dt) by (nonlinear_arith)
            requires
                mag == -delta,
        ;
        lemma_scale_le(dt, mag, dist);
        assert(dt * mag == mag * dt) by (nonlinear_arith);
        if dt <= dist {
            lemma_scale_le(mag, dt, dist);
        }
    }
    // step lies between 0 and delta-capped-by-dt, in delta's direction
    assert(delta >= 0 ==> 0 <= step <= dt);
    assert(delta < 0 ==> -dt <= step <= 0);
    if dt <= dist {
        assert(delta >= 0 ==> step <= delta);
        assert(delta < 0 ==> delta <= step);
        let land = posc + step - toc;
        assert(land * land <= (posc - toc) * (posc - toc)) by (nonlinear_arith)
            requires
                land == posc + step - toc,
                delta == toc - posc,
                (delta >= 0 && 0 <= step <= delta) || (delta < 0 && delta <= step <= 0),
        ;
    }
}

/// One movement step toward a destination at unit speed.
///
/// `dist` must be the integer square root of the squared distance between
/// `pos` and `to`, as `isqrt` returns it; the two squared bounds below say
/// exactly that.
pub fn advance_toward(pos: Vec2, to: Vec2, dt: i64, dist: i64) -> (np: Vec2)
    requires
        in_box(pos, COORD_LIMIT as int),
        in_box(to, TARGET_LIMIT as int),
        0 <= dt <= DT_LIMIT,
        dist > 0,
        dist * dist <= dist_sq(pos, to) < (dist + 1) * (dist + 1),
    ensures
        np.x == stepped(pos.x as int, to.x as int, dt as int, dist as int),
        np.z == stepped(pos.z as int, to.z as int, dt as int, dist as int),
        in_box(np, COORD_LIMIT as int),
        dt <= dist ==> dist_sq(np, to) <= dist_sq(pos, to),
        pos == to ==> np == pos,
{
    proof {
        let dx = pos.x - to.x;
        let dz = pos.z - to.z;
        assert(dist_sq(pos, to) == dx * dx + dz * dz);
        assert(-dist <= dx <= dist && -dist <= dz <= dist) by (nonlinear_arith)
            requires
                dx * dx + dz * dz < (dist + 1) * (dist + 1),
                dist > 0,
        ;
        lemma_step_facts(pos.x as int, to.x as int, dt as int, dist as int);
        lemma_step_facts(pos.z as int, to.z as int, dt as int, dist as int);
    }
    let nx: i64 = step_component(pos.x, to.x, dt, dist);
    let nz: i64 = step_component(pos.z, to.z, dt, dist);
    Vec2 { x: nx, z: nz }
}

/// One coordinate of a movement step, executed on the grid.
fn step_component(posc: i64, toc: i64, dt: i64, dist: i64) -> (r: i64)
    requires
        -COORD_LIMIT <= posc <= COORD_LIMIT,
        -TARGET_LIMIT <= toc <= TARGET_LIMIT,
        0 <= dt <= DT_LIMIT,
        dist > 0,
    ensures
        r == stepped(posc as int, toc as int, dt as int, dist as int),
{
    let neg: bool = toc < posc;
    let mag: u64 = if neg {
        (posc - toc) as u64
    } else {
        (toc - posc) as u64
    };
    proof {
        assert(mag as int * dt as int <= 500_000int * 10_000int) by (nonlinear_arith)
            requires
                0 <= mag <= 500_000,
                0 <= dt <= 10_000,
        ;
    }
    let q: u64 = (mag * (dt as u64)) / (dist as u64);
    proof {
        if mag as int * dt as int > 0 {
            lemma_div_pos_is_pos(mag as int * dt as int, dist as int);
        }
        lemma_div_nonincreasing(mag as int * dt as int, dist as int);
        let delta = toc as int - posc as int;
        if neg {
            assert((mag as int) * (dt as int) == -(delta * dt)) by (nonlinear_arith)
                requires
                    mag as int == -delta,
            ;
        }
    }
    if neg {
        posc - (q as i64)
    } else {
        posc + (q as i64)
    }
}

} // verus!
