//! Errors of the organize logic.

use vstd::prelude::*;

verus! {

/// Why an organize operation was refused.
#[derive(Clone, Debug)]
pub enum OrganizeError {
    /// Organize tasks are supported only on Windows.
    UnsupportedPlatform,
    /// A path is not a usable physical path.
    InvalidPhysicalPath(String),
    /// A move or discard layout would be unsafe to execute.
    UnsafeTopology(String),
    /// The task tree or a decision over it is malformed.
    InvalidTree(String),
    /// A decision on an already applied item cannot change.
    AppliedDecisionImmutable(u128),
    /// The caller's revision is stale; the payload is the current revision.
    StaleRevision(i64),
    /// The task is in a state that does not allow the operation.
    InvalidTaskState(String),
}

} // verus!
