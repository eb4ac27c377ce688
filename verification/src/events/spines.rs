//! Spine epicentres: candidate plate centroids thinned to a minimum spacing.

use vstd::prelude::*;
use super::survey::{keep_spaced, rank_candidates, ranking, lemma_ranking_total, spread_fits, thinned};

verus! {

/// Minimum hex distance between spine epicentres.
pub const SPINE_EXCLUSION_TILES: u32 = 10_000;

/// Deterministic priority-ordered greedy exclusion.
///
/// Each candidate takes a priority from its coordinates and the seed;
/// highest first, and a candidate is kept only if it clears every
/// already-kept one by `distance`. Priority comes from the candidate rather
/// than its position in the list, so the result does not depend on the
/// order the candidates were yielded in.
pub fn thin_by_spacing(candidates: &[(i32, i32)], distance: u32, seed: u64) -> (selected: Vec<(i32, i32)>)
    requires
        spread_fits(candidates@),
    ensures
        selected@ == thinned(candidates@, distance, seed),
{
    let dist = distance as i32;
    let prioritized = rank_candidates(candidates, seed);
    proof {
        lemma_ranking_total(seed);
        candidates@.lemma_sort_by_ensures(ranking(seed));
    }
    keep_spaced(&prioritized, dist)
}

} // verus!
