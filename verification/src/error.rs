//! Why a run was abandoned.

use vstd::prelude::*;

verus! {

/// The failures that end a run.  None is recovered from: the first one is
/// handed upward and nothing is written.
#[derive(Debug, Clone, Copy, PartialEq, Eq, Structural)]
pub enum PipelineError {
    /// A request for a page did not complete.
    Transport,
    /// A reply did not have the shape of a page.
    Shape,
    /// A record has neither a numeric height nor a name to be ordered by.
    Data,
}

} // verus!
