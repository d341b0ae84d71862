//! Arguments of the subject commands.

use vstd::prelude::*;

verus! {

/// Look subjects up by display name.
#[derive(Clone, Debug)]
pub struct ResolveCommand {
    pub name: String,
}

} // verus!
