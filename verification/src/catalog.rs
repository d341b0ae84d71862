//! The durable leaf catalogs: subjects eligible for assignment and the
//! schedulable time slots, each with its stable identity.

use vstd::prelude::*;

use crate::ids::EntityId;

verus! {

/// One schedulable time slot, with the external ordering key that sorts
/// slots into the weekly grid. The key is unique across slots.
#[derive(Copy, Clone, Debug, PartialEq, Eq, Hash, Structural)]
pub struct Slot {
    pub id: EntityId,
    pub w2m_id: i32,
}

impl Slot {
    pub fn new(id: EntityId, w2m_id: i32) -> (r: Slot)
        ensures
            r.id == id,
            r.w2m_id == w2m_id,
    {
        Slot { id, w2m_id }
    }
}

/// One person eligible for assignment: stable identity, import tag, and an
/// optional display name that may be updated later.
#[derive(Clone, Debug)]
pub struct Subject {
    pub id: EntityId,
    pub tag: String,
    pub name: Option<String>,
}

} // verus!
