//! The sweeping-beam hit test: a bounded ray against a circle.
//!
//! An attacking enemy casts a beam of fixed length from its position along
//! its current facing and tests it against a circle around the target.  The
//! beam's points are `origin + t * dir` for real `t >= 0` with
//! `|t * dir| <= len`; the test asks whether some such point lies within
//! `radius` of `center`.  Because the squared distance to the beam is a
//! quadratic in `t`, the closest approach falls at the beam's origin, in its
//! interior, or at its tip, and each case compares squared lengths with the
//! denominators multiplied away — so the whole predicate stays integral and
//! is decided exactly.

use vstd::prelude::*;

verus! {

use crate::geom::{COORD_LIMIT, DIR_LIMIT, RADIUS_LIMIT, Vec2, dist_sq, in_box, lemma_square_bound, norm_sq};

/// Squared perpendicular offset of `center` from the infinite line through
/// `origin` along `dir`, scaled by `norm_sq(dir)`: the squared cross product
/// of `dir` with `center - origin`.
pub open spec fn beam_lateral_sq(origin: Vec2, dir: Vec2, center: Vec2) -> int {
    let wx = center.x - origin.x;
    let wz = center.z - origin.z;
    (dir.x * wz - dir.z * wx) * (dir.x * wz - dir.z * wx)
}

/// Whether the beam from `origin` along `dir`, truncated to length `len`,
/// meets the circle of the given `radius` around `center`.
///
/// With `f = origin - center`, `nn = |dir|^2`, `dd = f . dir` and
/// `ff = |f|^2`, the closest approach of the line to `center` falls at
/// `t = -dd / nn`.  If `dd >= 0` that is behind the origin, so the origin is
/// the closest beam point; if `dd^2 <= len^2 * nn` it lies within the beam,
/// whose squared distance there is `(ff * nn - dd^2) / nn`; otherwise the tip
/// is closest, at squared distance `ff + len^2 + 2 * len * dd / sqrt(nn)`,
/// and the final comparison squares once more to clear the root (the side
/// `ee <= 0` is where the tip inequality holds for any sign).
pub open spec fn beam_hits_circle(origin: Vec2, dir: Vec2, len: int, center: Vec2, radius: int) -> bool
    recommends
        !(dir.x == 0 && dir.z == 0),
        len >= 0,
        radius >= 0,
{
    let fx = origin.x - center.x;
    let fz = origin.z - center.z;
    let nn = dir.x * dir.x + dir.z * dir.z;
    let dd = fx * dir.x + fz * dir.z;
    let ff = fx * fx + fz * fz;
    if dd >= 0 {
        ff <= radius * radius
    } else if dd * dd <= len * len * nn {
        ff * nn - dd * dd <= radius * radius * nn
    } else {
        let ee = ff + len * len - radius * radius;
        ee <= 0 || ee * ee * nn <= 4 * (len * len) * (dd * dd)
    }
}

/// The decision procedure for `beam_hits_circle`, on bounded inputs.
pub fn beam_hit(origin: Vec2, dir: Vec2, len: i64, center: Vec2, radius: i64) -> (r: bool)
    requires
        in_box(origin, COORD_LIMIT as int),
        in_box(center, COORD_LIMIT as int),
        in_box(dir, DIR_LIMIT as int),
        !(dir.x == 0 && dir.z == 0),
        0 <= len <= RADIUS_LIMIT,
        0 <= radius <= RADIUS_LIMIT,
    ensures
        r == beam_hits_circle(origin, dir, len as int, center, radius as int),
{
    let fx: i128 = (origin.x - center.x) as i128;
    let fz: i128 = (origin.z - center.z) as i128;
    let dx: i128 = dir.x as i128;
    let dz: i128 = dir.z as i128;
    proof {
        lemma_products_bounded(fx as int, fz as int, dx as int, dz as int, len as int, radius as int);
    }
    let nn: i128 = dx * dx + dz * dz;
    let dd: i128 = fx * dx + fz * dz;
    let ff: i128 = fx * fx + fz * fz;
    let ll: i128 = (len as i128) * (len as i128);
    let rr: i128 = (radius as i128) * (radius as i128);
    if dd >= 0 {
        ff <= rr
    } else if dd * dd <= ll * nn {
        ff * nn - dd * dd <= rr * nn
    } else {
        let ee: i128 = ff + ll - rr;
        ee <= 0 || ee * ee * nn <= 4 * ll * (dd * dd)
    }
}

/// Every product the decision procedure forms stays far inside `i128`.
proof fn lemma_products_bounded(fx: int, fz: int, dx: int, dz: int, len: int, radius: int)
    requires
        -600_000 <= fx <= 600_000,
        -600_000 <= fz <= 600_000,
        -1_000_000 <= dx <= 1_000_000,
        -1_000_000 <= dz <= 1_000_000,
        0 <= len <= 10_000,
        0 <= radius <= 10_000,
    ensures
        0 <= dx * dx <= 1_000_000_000_000,
        0 <= dz * dz <= 1_000_000_000_000,
        0 <= fx * fx <= 360_000_000_000,
        0 <= fz * fz <= 360_000_000_000,
        -600_000_000_000 <= fx * dx <= 600_000_000_000,
        -600_000_000_000 <= fz * dz <= 600_000_000_000,
        0 <= len * len <= 100_000_000,
        0 <= radius * radius <= 100_000_000,
        0 <= (fx * dx + fz * dz) * (fx * dx + fz * dz) <= 0x10_0000_0000_0000_0000_0000_0000,
        0 <= (fx * fx + fz * fz) * (dx * dx + dz * dz) <= 0x10_0000_0000_0000_0000_0000_0000,
        0 <= (radius * radius) * (dx * dx + dz * dz) <= 0x1_0000_0000_0000_0000_0000,
        0 <= (len * len) * (dx * dx + dz * dz) <= 0x1_0000_0000_0000_0000_0000,
        -0x1000_0000_0000_0000_0000_0000_0000_0000 <= (fx * fx + fz * fz + len * len - radius
            * radius) * (fx * fx + fz * fz + len * len - radius * radius) * (dx * dx + dz * dz)
            <= 0x1000_0000_0000_0000_0000_0000_0000_0000,
        0 <= (fx * fx + fz * fz + len * len - radius * radius)
            * (fx * fx + fz * fz + len * len - radius * radius)
            <= 540_000_000_000_000_000_000_000,
        0 <= 4 * (len * len) * ((fx * dx + fz * dz) * (fx * dx + fz * dz))
            <= 0x1_0000_0000_0000_0000_0000_0000_0000,
{
    lemma_square_bound(dx, 1_000_000);
    lemma_square_bound(dz, 1_000_000);
    lemma_square_bound(fx, 600_000);
    lemma_square_bound(fz, 600_000);
    lemma_abs_mul_bound(fx, dx, 600_000, 1_000_000);
    lemma_abs_mul_bound(fz, dz, 600_000, 1_000_000);
    lemma_square_bound(len, 10_000);
    lemma_square_bound(radius, 10_000);
    let nn = dx * dx + dz * dz;
    let dd = fx * dx + fz * dz;
    let ff = fx * fx + fz * fz;
    let ee = ff + len * len - radius * radius;
    lemma_square_bound(dd, 1_200_000_000_000);
    lemma_abs_mul_bound(ff, nn, 720_000_000_000, 2_000_000_000_000);
    lemma_abs_mul_bound(radius * radius, nn, 100_000_000, 2_000_000_000_000);
    lemma_abs_mul_bound(len * len, nn, 100_000_000, 2_000_000_000_000);
    lemma_square_bound(ee, 730_000_000_000);
    lemma_abs_mul_bound(ee * ee, nn, 532_900_000_000_000_000_000_000, 2_000_000_000_000);
    lemma_abs_mul_bound(4 * (len * len), dd * dd, 400_000_000, 1_440_000_000_000_000_000_000_000);
}

/// A product of two bounded factors is bounded by the product of the bounds.
proof fn lemma_abs_mul_bound(a: int, b: int, am: int, bm: int)
    requires
        -am <= a <= am,
        -bm <= b <= bm,
        0 <= am,
        0 <= bm,
    ensures
        -(am * bm) <= a * b <= am * bm,
{
    assert(-(am * bm) <= a * b <= am * bm) by (nonlinear_arith)
        requires
            -am <= a <= am,
            -bm <= b <= bm,
            0 <= am,
            0 <= bm,
    ;
}

/// Lagrange's identity on the plane: the product of two squared norms splits
/// into the squared dot product plus the squared cross product.
proof fn lemma_lagrange(fx: int, fz: int, dx: int, dz: int)
    ensures
        (fx * fx + fz * fz) * (dx * dx + dz * dz)
            == (fx * dx + fz * dz) * (fx * dx + fz * dz)
                + (fx * dz - fz * dx) * (fx * dz - fz * dx),
{
    let a = fx * dx;
    let b = fz * dz;
    let c = fx * dz;
    let d = fz * dx;
    assert((a + b) * (a + b) == a * a + 2 * (a * b) + b * b) by (nonlinear_arith);
    assert((c - d) * (c - d) == c * c - 2 * (c * d) + d * d) by (nonlinear_arith);
    assert(a * b == c * d) by (nonlinear_arith)
        requires
            a == fx * dx,
            b == fz * dz,
            c == fx * dz,
            d == fz * dx,
    ;
    assert(a * a == (fx * fx) * (dx * dx)) by (nonlinear_arith)
        requires
            a == fx * dx,
    ;
    assert(b * b == (fz * fz) * (dz * dz)) by (nonlinear_arith)
        requires
            b == fz * dz,
    ;
    assert(c * c == (fx * fx) * (dz * dz)) by (nonlinear_arith)
        requires
            c == fx * dz,
    ;
    assert(d * d == (fz * fz) * (dx * dx)) by (nonlinear_arith)
        requires
            d == fz * dx,
    ;
    assert((fx * fx + fz * fz) * (dx * dx + dz * dz) == (fx * fx) * (dx * dx) + (fx * fx) * (dz
        * dz) + (fz * fz) * (dx * dx) + (fz * fz) * (dz * dz)) by (nonlinear_arith);
}

/// A nonzero direction has a positive squared norm.
pub proof fn lemma_dir_norm_pos(dir: Vec2)
    requires
        !(dir.x == 0 && dir.z == 0),
    ensures
        norm_sq(dir) > 0,
{
    assert(dir.x * dir.x + dir.z * dir.z > 0) by (nonlinear_arith)
        requires
            !(dir.x == 0 && dir.z == 0),
    ;
}

/// A target standing on the beam is hit: if `center` equals
/// `origin + (tn / td) * dir` for some rational parameter `0 <= tn / td`
/// whose beam point lies within the beam's length, the test reports a hit
/// for every radius.
pub proof fn lemma_on_beam_is_hit(
    origin: Vec2,
    dir: Vec2,
    len: int,
    center: Vec2,
    radius: int,
    tn: int,
    td: int,
)
    requires
        !(dir.x == 0 && dir.z == 0),
        len >= 0,
        radius >= 0,
        0 <= tn,
        0 < td,
        (center.x - origin.x) * td == tn * dir.x,
        (center.z - origin.z) * td == tn * dir.z,
        tn * tn * norm_sq(dir) <= (len * len) * (td * td),
    ensures
        beam_hits_circle(origin, dir, len, center, radius),
{
    let fx = origin.x - center.x;
    let fz = origin.z - center.z;
    let dx = dir.x as int;
    let dz = dir.z as int;
    let nn = dx * dx + dz * dz;
    let dd = fx * dx + fz * dz;
    let ff = fx * fx + fz * fz;
    lemma_dir_norm_pos(dir);
    assert(fx * td == -(tn * dx) && fz * td == -(tn * dz)) by (nonlinear_arith)
        requires
            (center.x - origin.x) * td == tn * dir.x,
            (center.z - origin.z) * td == tn * dir.z,
            fx == origin.x - center.x,
            fz == origin.z - center.z,
            dx == dir.x,
            dz == dir.z,
    ;
    if tn == 0 {
        assert(fx == 0 && fz == 0) by (nonlinear_arith)
            requires
                fx * td == -(tn * dx),
                fz * td == -(tn * dz),
                tn == 0,
                td > 0,
        ;
        assert(radius * radius >= 0) by (nonlinear_arith);
    } else {
        // the dot product is negative: the center lies strictly ahead
        assert((fx * dx + fz * dz) * td == (fx * td) * dx + (fz * td) * dz) by (nonlinear_arith);
        assert((fx * td) * dx + (fz * td) * dz == -(tn * nn)) by (nonlinear_arith)
            requires
                fx * td == -(tn * dx),
                fz * td == -(tn * dz),
                nn == dx * dx + dz * dz,
        ;
        assert(tn * nn > 0) by (nonlinear_arith)
            requires
                tn > 0,
                nn > 0,
        ;
        assert(dd < 0) by (nonlinear_arith)
            requires
                dd * td == -(tn * nn),
                tn * nn > 0,
                td > 0,
        ;
        // squares of the scaled components
        assert((fx * td) * (fx * td) == (fx * fx) * (td * td)) by (nonlinear_arith);
        assert((fz * td) * (fz * td) == (fz * fz) * (td * td)) by (nonlinear_arith);
        assert((-(tn * dx)) * (-(tn * dx)) == (tn * tn) * (dx * dx)) by (nonlinear_arith);
        assert((-(tn * dz)) * (-(tn * dz)) == (tn * tn) * (dz * dz)) by (nonlinear_arith);
        assert((fx * fx) * (td * td) == (tn * tn) * (dx * dx));
        assert((fz * fz) * (td * td) == (tn * tn) * (dz * dz));
        assert(ff * (td * td) == (fx * fx) * (td * td) + (fz * fz) * (td * td))
            by (nonlinear_arith)
            requires
                ff == fx * fx + fz * fz,
        ;
        assert((tn * tn) * (dx * dx) + (tn * tn) * (dz * dz) == (tn * tn) * nn)
            by (nonlinear_arith)
            requires
                nn == dx * dx + dz * dz,
        ;
        assert(ff * (td * td) == (tn * tn) * nn);
        // square of the scaled dot product
        assert((dd * td) * (dd * td) == (dd * dd) * (td * td)) by (nonlinear_arith);
        assert((-(tn * nn)) * (-(tn * nn)) == (tn * tn) * (nn * nn)) by (nonlinear_arith);
        assert((dd * dd) * (td * td) == (tn * tn) * (nn * nn));
        // the beam parameter is within range, so the interior case applies
        assert((tn * tn) * (nn * nn) == ((tn * tn) * nn) * nn) by (nonlinear_arith);
        assert(((tn * tn) * nn) * nn <= ((len * len) * (td * td)) * nn) by (nonlinear_arith)
            requires
                (tn * tn) * nn <= (len * len) * (td * td),
                nn > 0,
        ;
        assert(((len * len) * (td * td)) * nn == ((len * len) * nn) * (td * td))
            by (nonlinear_arith);
        assert((dd * dd) * (td * td) <= ((len * len) * nn) * (td * td));
        assert(dd * dd <= (len * len) * nn) by (nonlinear_arith)
            requires
                (dd * dd) * (td * td) <= ((len * len) * nn) * (td * td),
                td > 0,
        ;
        assert(dd * dd <= len * len * nn) by (nonlinear_arith)
            requires
                dd * dd <= (len * len) * nn,
        ;
        // the center lies on the line, so the interior distance is zero
        assert((ff * nn) * (td * td) == (ff * (td * td)) * nn) by (nonlinear_arith);
        assert((ff * (td * td)) * nn == ((tn * tn) * nn) * nn) by (nonlinear_arith)
            requires
                ff * (td * td) == (tn * tn) * nn,
        ;
        assert((ff * nn) * (td * td) == (dd * dd) * (td * td));
        assert(ff * nn == dd * dd) by (nonlinear_arith)
            requires
                (ff * nn) * (td * td) == (dd * dd) * (td * td),
                td > 0,
        ;
        assert(radius * radius * nn >= 0) by (nonlinear_arith)
            requires
                radius >= 0,
                nn > 0,
        ;
    }
}

/// A target farther from the beam's origin than the beam can reach — beyond
/// its length plus the target circle's radius — is never hit.
pub proof fn lemma_far_target_missed(origin: Vec2, dir: Vec2, len: int, center: Vec2, radius: int)
    requires
        !(dir.x == 0 && dir.z == 0),
        len >= 0,
        radius >= 0,
        dist_sq(origin, center) > (len + radius) * (len + radius),
    ensures
        !beam_hits_circle(origin, dir, len, center, radius),
{
    let fx = origin.x - center.x;
    let fz = origin.z - center.z;
    let dx = dir.x as int;
    let dz = dir.z as int;
    let nn = dx * dx + dz * dz;
    let dd = fx * dx + fz * dz;
    let ff = fx * fx + fz * fz;
    let ee = ff + len * len - radius * radius;
    lemma_dir_norm_pos(dir);
    assert(ff == dist_sq(origin, center));
    assert((len + radius) * (len + radius) == len * len + 2 * (len * radius) + radius * radius)
        by (nonlinear_arith);
    assert(len * radius >= 0) by (nonlinear_arith)
        requires
            len >= 0,
            radius >= 0,
    ;
    assert(len * len >= 0 && radius * radius >= 0) by (nonlinear_arith);
    assert(ff > len * len + radius * radius);
    if dd >= 0 {
        assert(!(ff <= radius * radius));
    } else if dd * dd <= len * len * nn {
        assert((len * len + radius * radius) * nn == (len * len) * nn + (radius * radius) * nn)
            by (nonlinear_arith);
        assert(ff * nn > (len * len + radius * radius) * nn) by (nonlinear_arith)
            requires
                ff > len * len + radius * radius,
                nn > 0,
        ;
        assert(len * len * nn == (len * len) * nn) by (nonlinear_arith);
        assert(radius * radius * nn == (radius * radius) * nn) by (nonlinear_arith);
        assert(!(ff * nn - dd * dd <= radius * radius * nn));
    } else {
        assert(ee > 0);
        lemma_lagrange(fx, fz, dx, dz);
        assert((fx * dz - fz * dx) * (fx * dz - fz * dx) >= 0) by (nonlinear_arith);
        assert(dd * dd <= ff * nn);
        let e0 = ff - (len + radius) * (len + radius);
        assert(e0 > 0);
        let g = 2 * (len * len) + 2 * (len * radius);
        assert(ee == e0 + g);
        assert((e0 + g) * (e0 + g) == e0 * e0 + 2 * (e0 * g) + g * g) by (nonlinear_arith);
        assert(2 * (e0 * g) == 4 * (len * len) * e0 + 4 * (len * radius) * e0)
            by (nonlinear_arith)
            requires
                g == 2 * (len * len) + 2 * (len * radius),
        ;
        assert(g * g == 4 * (len * len) * ((len + radius) * (len + radius))) by (nonlinear_arith)
            requires
                g == 2 * (len * len) + 2 * (len * radius),
        ;
        assert(4 * (len * len) * ff == 4 * (len * len) * e0 + 4 * (len * len) * ((len + radius)
            * (len + radius))) by (nonlinear_arith)
            requires
                ff == e0 + (len + radius) * (len + radius),
        ;
        assert(ee * ee - 4 * (len * len) * ff == 4 * (len * radius) * e0 + e0 * e0);
        assert(4 * (len * radius) * e0 >= 0) by (nonlinear_arith)
            requires
                len * radius >= 0,
                e0 > 0,
        ;
        assert(e0 * e0 > 0) by (nonlinear_arith)
            requires
                e0 > 0,
        ;
        assert(ee * ee > 4 * (len * len) * ff);
        assert(!(ee * ee * nn <= 4 * (len * len) * (dd * dd))) by (nonlinear_arith)
            requires
                ee * ee > 4 * (len * len) * ff,
                dd * dd <= ff * nn,
                nn > 0,
                ff >= 0,
                len * len >= 0,
        ;
    }
}

/// A target whose perpendicular offset from the beam's line exceeds the
/// target circle's radius is never hit, whatever the beam's length.
pub proof fn lemma_lateral_target_missed(
    origin: Vec2,
    dir: Vec2,
    len: int,
    center: Vec2,
    radius: int,
)
    requires
        !(dir.x == 0 && dir.z == 0),
        len >= 0,
        radius >= 0,
        beam_lateral_sq(origin, dir, center) > radius * radius * norm_sq(dir),
    ensures
        !beam_hits_circle(origin, dir, len, center, radius),
{
    let fx = origin.x - center.x;
    let fz = origin.z - center.z;
    let dx = dir.x as int;
    let dz = dir.z as int;
    let nn = dx * dx + dz * dz;
    let dd = fx * dx + fz * dz;
    let ff = fx * fx + fz * fz;
    let ee = ff + len * len - radius * radius;
    let cross = fx * dz - fz * dx;
    lemma_dir_norm_pos(dir);
    assert(cross * cross == beam_lateral_sq(origin, dir, center)) by (nonlinear_arith)
        requires
            cross == fx * dz - fz * dx,
            fx == origin.x - center.x,
            fz == origin.z - center.z,
            dx == dir.x,
            dz == dir.z,
            beam_lateral_sq(origin, dir, center) == (dir.x * (center.z - origin.z) - dir.z * (
            center.x - origin.x)) * (dir.x * (center.z - origin.z) - dir.z * (center.x
                - origin.x)),
    ;
    assert(radius * radius * norm_sq(dir) == (radius * radius) * nn) by (nonlinear_arith)
        requires
            norm_sq(dir) == nn,
    ;
    lemma_lagrange(fx, fz, dx, dz);
    assert(ff * nn == dd * dd + cross * cross);
    assert(cross * cross > (radius * radius) * nn);
    assert(dd * dd >= 0) by (nonlinear_arith);
    assert(ff * nn > (radius * radius) * nn);
    assert(ff > radius * radius) by (nonlinear_arith)
        requires
            ff * nn > (radius * radius) * nn,
            nn > 0,
    ;
    assert(len * len >= 0) by (nonlinear_arith);
    if dd >= 0 {
        assert(!(ff <= radius * radius));
    } else if dd * dd <= len * len * nn {
        assert(radius * radius * nn == (radius * radius) * nn) by (nonlinear_arith);
        assert(!(ff * nn - dd * dd <= radius * radius * nn));
    } else {
        assert(ee > 0);
        let y = ff - radius * radius;
        assert(y > 0);
        assert((ff - radius * radius) * nn == ff * nn - (radius * radius) * nn)
            by (nonlinear_arith);
        assert(dd * dd < y * nn);
        assert((y + len * len) * (y + len * len) - 4 * (len * len) * y == (y - len * len) * (y
            - len * len)) by (nonlinear_arith);
        assert((y - len * len) * (y - len * len) >= 0) by (nonlinear_arith);
        assert(ee == y + len * len);
        assert(ee * ee >= 4 * (len * len) * y);
        if len == 0 {
            assert(4 * (len * len) * (dd * dd) == 0) by (nonlinear_arith)
                requires
                    len == 0,
            ;
            assert(ee * ee * nn > 0) by (nonlinear_arith)
                requires
                    ee > 0,
                    nn > 0,
        ;
        } else {
            assert(len * len > 0) by (nonlinear_arith)
                requires
                    len != 0,
            ;
            assert(4 * (len * len) * (dd * dd) < 4 * (len * len) * (y * nn)) by (nonlinear_arith)
                requires
                    dd * dd < y * nn,
                    len * len > 0,
            ;
            assert(4 * (len * len) * (y * nn) == (4 * (len * len) * y) * nn) by (nonlinear_arith);
            assert((4 * (len * len) * y) * nn <= (ee * ee) * nn) by (nonlinear_arith)
                requires
                    4 * (len * len) * y <= ee * ee,
                    nn > 0,
            ;
            assert(ee * ee * nn == (ee * ee) * nn) by (nonlinear_arith);
            assert(!(ee * ee * nn <= 4 * (len * len) * (dd * dd)));
        }
    }
}

} // verus!
