//! Forest: the stands of trees on the ground.

use vstd::prelude::*;

verus! {

/// The forest layer: stands of trees where the ground holds water.
pub struct ForestEvent;

impl ForestEvent {
    pub fn new() -> (e: Self)
        ensures
            e == ForestEvent,
    {
        ForestEvent
    }
}

impl Default for ForestEvent {
    fn default() -> (e: Self)
        ensures
            e == ForestEvent,
    {
        Self::new()
    }
}

} // verus!
