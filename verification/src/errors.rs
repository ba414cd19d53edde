use vstd::prelude::*;

verus! {

/// The failure conditions of the planner.
///
/// `NotInitialized`, `CorruptData` and `IoFailure` arise around the persisted
/// store; `ParseFailure` on a malformed timestamp string; `InvalidParent` when
/// an `add` names a parent id that does not exist; `IncompleteChildren` when
/// the completion gate rejects a `check`; `NotFound` when a `rm` or `check`
/// target is absent (soft, non-fatal); `CyclicHierarchy` when the parent
/// relation cannot be resolved into a forest.
#[derive(Clone, Copy, Debug, PartialEq, Eq, Structural)]
pub enum PlannerError {
    NotInitialized,
    CorruptData,
    ParseFailure,
    InvalidParent,
    IncompleteChildren,
    NotFound,
    IoFailure,
    CyclicHierarchy,
}

} // verus!
