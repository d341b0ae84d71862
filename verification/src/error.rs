//! Error taxonomy of the scheduling engine.

use vstd::prelude::*;

verus! {

/// Why an engine operation could not be carried out.
///
/// `NotFound` covers a missing record or an unset current-pointer, and
/// surfaces directly to the caller. `DataIntegrity` marks a fatal
/// inconsistency in the stored data, such as a broken parent link or a slot
/// with fewer than two eligible subjects at generation time; the whole
/// operation is aborted with nothing committed. `Input` marks a malformed
/// identifier handed in by the caller.
#[derive(Copy, Clone, Debug, PartialEq, Eq, Structural)]
pub enum Error {
    NotFound,
    DataIntegrity,
    Input,
}

impl Error {
    /// A short human-readable label for reports and logs.
    pub fn label(&self) -> (r: &'static str)
        ensures
            self is NotFound ==> r@ == "not found"@,
            self is DataIntegrity ==> r@ == "data integrity error"@,
            self is Input ==> r@ == "malformed input"@,
    {
        match self {
            Error::NotFound => "not found",
            Error::DataIntegrity => "data integrity error",
            Error::Input => "malformed input",
        }
    }
}

} // verus!
