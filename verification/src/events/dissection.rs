//! Dissection: the valleys the rivers cut.

use vstd::prelude::*;

verus! {

/// The dissection layer: valleys cut down to the channels drainage routed.
pub struct DissectionEvent;

impl DissectionEvent {
    pub fn new() -> (e: Self)
        ensures
            e == DissectionEvent,
    {
        DissectionEvent
    }
}

impl Default for DissectionEvent {
    fn default() -> (e: Self)
        ensures
            e == DissectionEvent,
    {
        Self::new()
    }
}

} // verus!
