//! Skymask: the visible-horizon profile around a ground observer.
//!
//! Obstructions are vertical-faced wall segments, each given by two 3-D
//! endpoints (planar position plus top elevation over a shared datum).  For an
//! observer position the library prunes the segments near the observer,
//! projects each survivor into an angular interval paired with a linear
//! elevation profile, and merges the projections into one ordered,
//! non-overlapping interval map: the upper envelope, or skyline.  The skyline
//! can be exported whole or sampled at query angles, sequentially or in
//! parallel.
//!
//! All coordinates are fixed-point integers; the caller picks the scale.  This
//! keeps every geometric comparison exact, so the merge is deterministic and
//! the sampled value is provably the maximum over the covering obstructions.

use vstd::prelude::*;

pub mod arith;
pub mod geom;
pub mod envelope;
pub mod skymask;
pub mod world;

verus! {

/// Bound on the magnitude of every input coordinate and elevation.
pub const COORD_BOUND: i64 = 1_000_000;

/// Scale of the angular domain: one quadrant-equivalent of the pseudo-angle.
pub const ANG_SCALE: i64 = 1_000_000;

/// Least value of the angular domain.
pub const ANG_MIN: i64 = -1_000_000;

/// Greatest value of the angular domain.
pub const ANG_MAX: i64 = 3_000_000;

/// Scale of the elevation codomain: the projected elevation is the tangent of
/// the elevation angle times this scale, rounded down.
pub const ELEV_SCALE: i64 = 1_000_000;

/// Bound on the magnitude of a projected elevation value.
pub const ELEV_BOUND: i64 = 2_000_000_000_000;

/// Bound on the magnitude of the scaled interpolation numerator of a
/// well-formed candidate at an angle of the domain.
pub const NUM_BOUND: i128 = 24_000_000_000_000_000_000;

} // verus!
