//! Arguments of the schedule commands.

use vstd::prelude::*;

verus! {

/// Run the generator once against the active availability set and head.
#[derive(Copy, Clone, Debug)]
pub struct GenerateCommand;

/// Print one snapshot's grid and the per-subject aggregate summary.
#[derive(Clone, Debug)]
pub struct ShowCommand {
    pub schedule: Option<String>,
}

/// Write one snapshot's grid report to a file.
#[derive(Clone, Debug)]
pub struct ExportCommand {
    pub schedule: Option<String>,
}

/// Move the current-pointer to a chosen snapshot, or unset it.
#[derive(Clone, Debug)]
pub struct RevertCommand {
    pub hash: String,
}

} // verus!
