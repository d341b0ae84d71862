//! Arguments of the availability commands.

use vstd::prelude::*;

verus! {

/// Which external source format to pull availability data from.
#[derive(Copy, Clone, Debug, PartialEq, Eq, Structural)]
pub enum PullType {
    When2Meet,
}

/// Fetch a fresh availability snapshot from an external page.
#[derive(Clone, Debug)]
pub struct FetchCommand {
    pub url: String,
    pub parse_type: PullType,
}

/// Show the active availability snapshot as a per-slot head count.
#[derive(Copy, Clone, Debug)]
pub struct ShowCommand;

/// Make a chosen availability snapshot the active one.
#[derive(Clone, Debug)]
pub struct UseCommand {
    pub id: String,
}

} // verus!
