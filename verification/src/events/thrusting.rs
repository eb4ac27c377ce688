//! Thrusting: the ranges stacked at convergent edges.

use vstd::prelude::*;

verus! {

/// The thrusting layer: the ranges a convergent edge stacks.
pub struct ThrustingEvent;

impl ThrustingEvent {
    pub fn new() -> (e: Self)
        ensures
            e == ThrustingEvent,
    {
        ThrustingEvent
    }
}

impl Default for ThrustingEvent {
    fn default() -> (e: Self)
        ensures
            e == ThrustingEvent,
    {
        Self::new()
    }
}

} // verus!
