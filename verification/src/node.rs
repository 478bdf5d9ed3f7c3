//! Runtime state of one tree node: the authored behaviour plus the mutable
//! bits needed to tick it again, and the subtree size that fixes the node's
//! block of the flat preorder arena.
use vstd::prelude::*;

use crate::status::Status;
use crate::template::Behave;

verus! {

/// Progress of the external task owned by a spawn-task leaf.
#[derive(Copy, Clone, PartialEq, Eq, Structural, Debug)]
pub enum EntityTaskStatus {
    /// Nothing spawned yet.
    NotStarted,
    /// A task was spawned; the value is its handle.
    Started(u64),
    /// A completion report arrived with this outcome.
    Complete(bool),
}

/// Progress of the condition owned by a trigger leaf.
#[derive(Copy, Clone, PartialEq, Eq, Structural, Debug)]
pub enum TriggerTaskStatus {
    /// The condition has not been fired yet.
    NotTriggered,
    /// The condition was fired; no report has been consumed yet.
    Triggered,
    /// A report arrived with this outcome.
    Complete(bool),
}

/// One live node of a behaviour tree: the immutable template part plus the
/// runtime fields, laid out in a flat preorder arena.  `subtree` is the
/// number of nodes in this node's subtree, itself included, so the subtree
/// of the node at index `i` is exactly the index interval
/// `[i, i + subtree)`.
#[derive(Clone, Debug)]
pub struct BehaveNode {
    /// The authored behaviour of this node.
    pub behave: Behave,
    /// The status of the most recent tick, if any.
    pub status: Option<Status>,
    /// When a wait leaf started waiting, in host clock milliseconds.
    pub start_time: Option<u64>,
    /// External-task progress of a spawn-task leaf.
    pub task: EntityTaskStatus,
    /// Condition progress of a trigger leaf.
    pub trig: TriggerTaskStatus,
    /// Number of nodes in this node's subtree, itself included.
    pub subtree: usize,
}

/// The construction-time runtime state for a behaviour, with the given
/// subtree size.
pub open spec fn spec_initial_node(b: Behave, size: usize) -> BehaveNode {
    BehaveNode {
        behave: b,
        status: None,
        start_time: None,
        task: EntityTaskStatus::NotStarted,
        trig: TriggerTaskStatus::NotTriggered,
        subtree: size,
    }
}

/// `n` with every mutable runtime field restored to construction defaults.
pub open spec fn spec_reset_node(n: BehaveNode) -> BehaveNode {
    spec_initial_node(n.behave, n.subtree)
}

/// A node whose runtime fields hold the construction defaults.
pub open spec fn is_initial(n: BehaveNode) -> bool {
    n == spec_reset_node(n)
}

/// `n` with its last status replaced.
pub open spec fn with_status(n: BehaveNode, s: Status) -> BehaveNode {
    BehaveNode { status: Some(s), ..n }
}

/// Whether a stored status is terminal (success or failure).
pub open spec fn terminal_opt(s: Option<Status>) -> bool {
    s == Some(Status::Success) || s == Some(Status::Failure)
}

impl BehaveNode {
    /// Stores the status of the tick that just evaluated this node.
    pub fn set_status(&mut self, s: Status)
        ensures
            *final(self) == with_status(*old(self), s),
    {
        self.status = Some(s);
    }

    /// Starts a wait leaf: records the clock and reports it running.
    pub fn start_wait(&mut self, now: u64)
        ensures
            *final(self) == (BehaveNode {
                status: Some(Status::Running),
                start_time: Some(now),
                ..*old(self)
            }),
    {
        self.status = Some(Status::Running);
        self.start_time = Some(now);
    }

    /// Marks a trigger leaf as fired and running.
    pub fn mark_triggered(&mut self)
        ensures
            *final(self) == (BehaveNode {
                status: Some(Status::Running),
                trig: TriggerTaskStatus::Triggered,
                ..*old(self)
            }),
    {
        self.status = Some(Status::Running);
        self.trig = TriggerTaskStatus::Triggered;
    }

    /// Marks a spawn leaf as started with the given task handle.
    pub fn mark_started(&mut self, h: u64)
        ensures
            *final(self) == (BehaveNode {
                status: Some(Status::Running),
                task: EntityTaskStatus::Started(h),
                ..*old(self)
            }),
    {
        self.status = Some(Status::Running);
        self.task = EntityTaskStatus::Started(h);
    }

    /// Stores the reported outcome of a spawned task.
    pub fn complete_task(&mut self, success: bool)
        ensures
            *final(self) == (BehaveNode {
                task: EntityTaskStatus::Complete(success),
                ..*old(self)
            }),
    {
        self.task = EntityTaskStatus::Complete(success);
    }

    /// Stores the reported outcome of a fired condition.
    pub fn complete_trig(&mut self, success: bool)
        ensures
            *final(self) == (BehaveNode {
                trig: TriggerTaskStatus::Complete(success),
                ..*old(self)
            }),
    {
        self.trig = TriggerTaskStatus::Complete(success);
    }

    /// The construction-time runtime state for a behaviour.
    pub fn new(behave: Behave, subtree: usize) -> (r: BehaveNode)
        ensures
            r == spec_initial_node(behave, subtree),
    {
        BehaveNode {
            behave,
            status: None,
            start_time: None,
            task: EntityTaskStatus::NotStarted,
            trig: TriggerTaskStatus::NotTriggered,
            subtree,
        }
    }

    /// Restores every mutable runtime field to its construction default;
    /// the behaviour and the subtree size are kept.
    pub fn reset(&mut self)
        ensures
            *final(self) == spec_reset_node(*old(self)),
    {
        self.status = None;
        self.start_time = None;
        self.task = EntityTaskStatus::NotStarted;
        self.trig = TriggerTaskStatus::NotTriggered;
    }
}

} // verus!
