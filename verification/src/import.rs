//! Request types of the availability import interface. How a third-party
//! grid page is scraped and normalized into an availability set is a
//! collaborator's concern; the engine only requires a committed set with
//! complete (slot, subject) entries.

use vstd::prelude::*;

verus! {

/// Which external format an import request names.
#[derive(Copy, Clone, Debug, PartialEq, Eq, Structural)]
pub enum ParseType {
    When2Meet,
}

/// One availability import request: the format and the source location.
#[derive(Clone, Debug)]
pub struct ImportRequest {
    pub format: ParseType,
    pub source: String,
}

} // verus!
