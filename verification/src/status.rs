//! The closed set of outcomes a node tick can produce, and the spec-level
//! vocabulary used throughout the crate's contracts.
use vstd::prelude::*;

verus! {

/// Outcome of ticking one node.
#[derive(Copy, Clone, PartialEq, Eq, Structural, Debug)]
pub enum Status {
    /// The node reported success.
    Success,
    /// The node reported failure.
    Failure,
    /// A task is in progress.
    Running,
    /// The node is ticking while it awaits a timer.
    RunningTimer,
    /// Ticking is suspended until an external report arrives.
    AwaitingTrigger,
    /// On the next tick this node and its subtree reset to initial state.
    PendingReset,
}

/// A status that must not be re-evaluated until the node is reset.
pub open spec fn is_terminal(s: Status) -> bool {
    s == Status::Success || s == Status::Failure
}

/// How a parent reads a child's tick result: the loop-back signal of a
/// looping child counts as still running, and travels no further up.
pub open spec fn spec_absorb(s: Status) -> Status {
    if s == Status::PendingReset {
        Status::Running
    } else {
        s
    }
}

/// Success and failure swapped; every other status passes through unchanged.
pub open spec fn spec_invert(s: Status) -> Status {
    if s == Status::Success {
        Status::Failure
    } else if s == Status::Failure {
        Status::Success
    } else {
        s
    }
}

impl Status {
    /// Executable form of [`is_terminal`].
    pub fn terminal(&self) -> (r: bool)
        ensures
            r == is_terminal(*self),
    {
        matches!(*self, Status::Success | Status::Failure)
    }

    /// Executable form of [`spec_absorb`].
    pub fn absorb(self) -> (r: Status)
        ensures
            r == spec_absorb(self),
    {
        if self == Status::PendingReset {
            Status::Running
        } else {
            self
        }
    }

    /// Executable form of [`spec_invert`].
    pub fn invert(self) -> (r: Status)
        ensures
            r == spec_invert(self),
    {
        match self {
            Status::Success => Status::Failure,
            Status::Failure => Status::Success,
            other => other,
        }
    }
}

/// What the host should do with a tree after a whole-tree tick returned `s`.
#[derive(Copy, Clone, PartialEq, Eq, Structural, Debug)]
pub enum TreeAction {
    /// Stop scheduling the tree until a status report arrives.
    Suspend,
    /// The tree finished with the given outcome; stop scheduling it for good.
    Finish(bool),
    /// Keep scheduling the tree.
    Continue,
}

/// Classifies a root tick result into the host-side scheduling action.
pub fn tree_action(s: Status) -> (r: TreeAction)
    ensures
        s == Status::AwaitingTrigger ==> r == TreeAction::Suspend,
        s == Status::Success ==> r == TreeAction::Finish(true),
        s == Status::Failure ==> r == TreeAction::Finish(false),
        (s == Status::Running || s == Status::RunningTimer || s == Status::PendingReset)
            ==> r == TreeAction::Continue,
{
    match s {
        Status::AwaitingTrigger => TreeAction::Suspend,
        Status::Success => TreeAction::Finish(true),
        Status::Failure => TreeAction::Finish(false),
        _ => TreeAction::Continue,
    }
}

/// Inserted by the host on a tree that has finished, carrying the outcome.
#[derive(Copy, Clone, PartialEq, Eq, Structural, Debug)]
pub struct BehaveFinished(pub bool);

} // verus!
