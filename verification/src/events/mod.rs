//! The event layers' plain data and the integer geometry they share.

pub mod basins;
pub mod dissection;
pub mod drainage;
pub mod forest;
pub mod lithology;
pub mod metrics;
pub mod migration;
pub mod motion;
pub mod orogen;
pub mod spines;
pub mod survey;
pub mod thickening;
pub mod thrusting;
pub mod tilt;

use vstd::prelude::*;
use crate::lattice::{fits_i32, hex_dist};

verus! {

/// Snapshot of event metrics for external consumption.
pub struct EventMetricsSnapshot {
    pub visible: usize,
    pub tile_hits: u64,
    pub tile_misses: u64,
    pub layers: Vec<LayerMetricsSnapshot>,
}

/// One layer's metrics in a snapshot.
pub struct LayerMetricsSnapshot {
    pub name: String,
    /// Cells currently cached with index entries (gauge — current coverage).
    pub indexed: usize,
    pub cell_hits: u64,
    pub cell_misses: u64,
}

/// Tiles in a hex ball of the given radius.
pub open spec fn ball_tiles(r: int) -> int {
    3 * r * r + 3 * r + 1
}

/// Tiles in a hex ball of the given radius.
pub fn hex_ball_tiles(radius: u32) -> (n: usize)
    requires
        ball_tiles(radius as int) <= usize::MAX,
    ensures
        n == ball_tiles(radius as int),
{
    let r = radius as usize;
    assert(0 <= 3 * r * r <= 3 * r * r + 3 * r + 1) by (nonlinear_arith) requires r >= 0;
    assert(r * r <= 3 * r * r) by (nonlinear_arith) requires r >= 0;
    3 * r * r + 3 * r + 1
}

/// The half-sum form of the hex distance: the three cube components in
/// magnitude, halved.
pub open spec fn half_sum_dist(dq: int, dr: int) -> int {
    ((if dq < 0 { -dq } else { dq }) + (if dr < 0 { -dr } else { dr })
        + (if dq + dr < 0 { -(dq + dr) } else { dq + dr })) / 2
}

/// **Half the sum of the cube components is the largest of them: the two
/// ways the crate measures hex distance agree.**
pub proof fn law_half_sum_is_max(dq: int, dr: int)
    ensures
        half_sum_dist(dq, dr) == hex_dist(dq, dr),
{
}

/// Hex distance between two tile coordinates, as half the sum of the cube
/// components.
pub fn hex_distance(a: (i32, i32), b: (i32, i32)) -> (d: i32)
    requires
        fits_i32(a.0 - b.0, a.1 - b.1),
        2 * hex_dist(a.0 - b.0, a.1 - b.1) <= i32::MAX,
    ensures
        d == hex_dist(a.0 - b.0, a.1 - b.1),
{
    let (dq, dr) = (a.0 - b.0, a.1 - b.1);
    let s = dq + dr;
    let x = if dq < 0 { -dq } else { dq };
    let y = if dr < 0 { -dr } else { dr };
    let z = if s < 0 { -s } else { s };
    (x + y + z) / 2
}

} // verus!
