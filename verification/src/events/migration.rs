//! Migration: channels that swing across their valleys.

use vstd::prelude::*;

verus! {

/// The migration layer: channels swinging across their valley floors.
pub struct MigrationEvent;

impl MigrationEvent {
    pub fn new() -> (e: Self)
        ensures
            e == MigrationEvent,
    {
        MigrationEvent
    }
}

impl Default for MigrationEvent {
    fn default() -> (e: Self)
        ensures
            e == MigrationEvent,
    {
        Self::new()
    }
}

} // verus!
