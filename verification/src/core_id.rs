//! Shared identification of the core crate.

use vstd::prelude::*;

verus! {

/// Returns the crate identifier.
pub fn crate_id() -> (id: &'static str)
    ensures
        id@ == "ogham-core"@,
{
    "ogham-core"
}

} // verus!
