//! Phase marks. They are switched off in every build and cost nothing.

use vstd::prelude::*;

verus! {

/// Whether phase marks are taken: never.
pub fn enabled() -> (r: bool)
    ensures
        !r,
{
    false
}

/// Starts a series of marks. Does nothing.
pub fn begin(_label: &str) {
}

/// Takes a mark. Does nothing.
pub fn mark(_label: &str) {
}

} // verus!
