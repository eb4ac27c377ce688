//! Orogen: the mountain belts.

use vstd::prelude::*;

verus! {

/// The orogen layer: the mountain belts standing on convergent edges.
pub struct OrogenEvent;

impl OrogenEvent {
    pub fn new() -> (e: Self)
        ensures
            e == OrogenEvent,
    {
        OrogenEvent
    }
}

impl Default for OrogenEvent {
    fn default() -> (e: Self)
        ensures
            e == OrogenEvent,
    {
        Self::new()
    }
}

} // verus!
