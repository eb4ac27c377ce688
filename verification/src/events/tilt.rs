//! Tilt: the lean of a continent.

use vstd::prelude::*;

verus! {

/// The tilt layer: the grade a continent leans at.
pub struct TiltEvent;

impl TiltEvent {
    pub fn new() -> (e: Self)
        ensures
            e == TiltEvent,
    {
        TiltEvent
    }
}

impl Default for TiltEvent {
    fn default() -> (e: Self)
        ensures
            e == TiltEvent,
    {
        Self::new()
    }
}

} // verus!
