//! The current-pointer: which availability set and which schedule snapshot
//! are active.
//!
//! This is the singleton parameters record of the engine. The generator
//! advances the schedule pointer after committing a new snapshot; the
//! administrative operations below move it by hand.

use vstd::prelude::*;

use crate::ids::EntityId;

verus! {

/// The singleton record naming the active availability set and the active
/// schedule snapshot; either may be unset.
#[derive(Copy, Clone, Debug)]
pub struct Parameters {
    pub availability: Option<EntityId>,
    pub schedule: Option<EntityId>,
}

impl Parameters {
    /// A record with both pointers unset.
    pub fn new() -> (r: Parameters)
        ensures
            r.availability is None,
            r.schedule is None,
    {
        Parameters { availability: None, schedule: None }
    }

    /// Overwrite whichever pointers are given; leave the others untouched.
    pub fn update(&mut self, availability: Option<EntityId>, schedule: Option<EntityId>)
        ensures
            final(self).availability == if availability is Some {
                availability
            } else {
                old(self).availability
            },
            final(self).schedule == if schedule is Some {
                schedule
            } else {
                old(self).schedule
            },
    {
        if availability.is_some() {
            self.availability = availability;
        }
        if schedule.is_some() {
            self.schedule = schedule;
        }
    }

    /// Move the schedule pointer without creating a node: to a chosen
    /// snapshot, or to unset (back before the root).
    pub fn revert(&mut self, target: Option<EntityId>)
        ensures
            final(self).schedule == target,
            final(self).availability == old(self).availability,
    {
        self.schedule = target;
    }
}

} // verus!
