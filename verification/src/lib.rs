//! Core gameplay rules of a small 3D action prototype, stated and proved
//! exactly on a fixed-point integer grid.
//!
//! The crate models the part of the game that makes decisions: the enemy
//! wander/attack state machine, health and damage resolution with deferred
//! removal of dead entities, and the hit tests behind both the enemies'
//! sweeping beam and the player's hammer strike.  Every length is an `i64`
//! count of thousandths of a world unit and every duration a count of
//! milliseconds, so each rule is an exact statement about integers.
//!
//! The host engine (rendering, input, asset loading, the navmesh sampler and
//! the random number source) stays outside: it hands the library plain values
//! each tick — the elapsed time, a sampled wander destination, the swept beam
//! direction — and reads plain values back.

use vstd::prelude::*;

pub mod beam;
pub mod enemy;
pub mod geom;
pub mod health;
pub mod smooth;
pub mod world;

verus! {

/// Milli-units per world unit; all lengths in the crate are scaled by this.
pub const SCALE: i64 = 1000;

/// Longest tick the simulation accepts, in milliseconds.
pub const DT_LIMIT: i64 = 10_000;

/// Bound on the magnitude of health values (milli hit points); damage
/// saturates here instead of overflowing the machine integers.
pub const HP_LIMIT: i64 = 1_000_000_000_000;

/// Bound on the strength of a single damage event (milli hit points).
pub const STRENGTH_LIMIT: i64 = 1_000_000_000;

} // verus!
