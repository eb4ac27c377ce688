//! Hit and miss counters a cache keeps for the console.

use vstd::prelude::*;
use std::sync::atomic::AtomicU64;
use std::sync::atomic::Ordering;

verus! {

/// Atomic hit/miss counters. Lock-free, safe for concurrent access.
/// Counters are cumulative lifetime totals; the console computes rates.
///
/// Other threads may count between any two reads, so what a read returns
/// is whatever the counter holds at that moment: no contract here pins it.
pub struct HitCounters {
    hits: AtomicU64,
    misses: AtomicU64,
}

impl HitCounters {
    /// Two counters, both at zero.
    pub fn new() -> (c: Self) {
        HitCounters { hits: AtomicU64::new(0), misses: AtomicU64::new(0) }
    }

    /// Counts one lookup as a hit or a miss.
    pub fn record(&self, hit: bool) {
        if hit {
            self.hits.fetch_add(1, Ordering::Relaxed);
        } else {
            self.misses.fetch_add(1, Ordering::Relaxed);
        }
    }

    /// Hits counted so far.
    pub fn hits(&self) -> (n: u64) {
        self.hits.load(Ordering::Relaxed)
    }

    /// Misses counted so far.
    pub fn misses(&self) -> (n: u64) {
        self.misses.load(Ordering::Relaxed)
    }
}

} // verus!
