//! The single failure kind a search can report.

use vstd::prelude::*;

verus! {

/// A search failure. Every way a search can come up empty — no candidate
/// directory matched, the target list was empty, the starting directory
/// could not be resolved, or a listing failed on every branch that might
/// have held the answer — is folded into the one kind `NotFound`.
#[derive(Debug, Clone, Copy, PartialEq, Eq, Structural)]
pub enum SearchError {
    /// No directory satisfied the search within the configured bound.
    NotFound,
}

impl SearchError {
    /// A short description of the failure.
    pub fn message(&self) -> (r: &'static str)
        ensures
            r@ == "entity not found"@,
    {
        "entity not found"
    }
}

} // verus!
