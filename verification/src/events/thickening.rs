//! Thickening: the plateau behind the ranges.

use vstd::prelude::*;

verus! {

/// The thickening layer: the plateau held up behind the ranges.
pub struct ThickeningEvent;

impl ThickeningEvent {
    pub fn new() -> (e: Self)
        ensures
            e == ThickeningEvent,
    {
        ThickeningEvent
    }
}

impl Default for ThickeningEvent {
    fn default() -> (e: Self)
        ensures
            e == ThickeningEvent,
    {
        Self::new()
    }
}

} // verus!
