//! Correlation contexts and status reports: the values through which
//! external collaborators receive work from the tree and report completion
//! back to the exact originating node.
//!
//! Entities and task handles are plain `u64` tokens; the host keeps the
//! mapping from a token to whatever concrete resource backs it.
use vstd::prelude::*;

verus! {

/// Per-tick inputs the host hands to the tick engine: identity of the tree
/// and of the controlled subject, the optional supervisor, and the host
/// clock in milliseconds.
#[derive(Copy, Clone, PartialEq, Eq, Structural, Debug)]
pub struct TickCtx {
    /// Token of the entity holding the behaviour tree.
    pub bt_entity: u64,
    /// Token of the subject entity the tree is controlling.
    pub target_entity: u64,
    /// Token of the supervisor controlling the tree, if any.
    pub supervisor_entity: Option<u64>,
    /// Host clock at this tick, in milliseconds.
    pub elapsed_millis: u64,
}

impl TickCtx {
    /// A tick context without a supervisor.
    pub fn new(bt_entity: u64, target_entity: u64, elapsed_millis: u64) -> (r: TickCtx)
        ensures
            r == (TickCtx { bt_entity, target_entity, supervisor_entity: None, elapsed_millis }),
    {
        TickCtx { bt_entity, target_entity, supervisor_entity: None, elapsed_millis }
    }

    /// Sets the optional supervisor entity.
    pub fn with_optional_sup_entity(self, sup_entity: Option<u64>) -> (r: TickCtx)
        ensures
            r == (TickCtx { supervisor_entity: sup_entity, ..self }),
    {
        TickCtx { supervisor_entity: sup_entity, ..self }
    }
}

/// Whether a context was created for a fired condition or a spawned task.
#[derive(Copy, Clone, PartialEq, Eq, Structural, Debug)]
pub enum CtxType {
    /// The context belongs to a fired condition.
    Trigger,
    /// The context belongs to a spawned external task.
    Entity,
}

/// The correlation context handed to the external collaborator working for
/// one leaf: enough to route a completion report back to the exact node,
/// and to look up the controlled subject.  Created fresh each time a leaf
/// starts working; never stored long-term by the tree.
#[derive(Copy, Clone, PartialEq, Eq, Structural, Debug)]
pub struct BehaveCtx {
    /// Token of the entity holding the behaviour tree.
    pub bt_entity: u64,
    /// Handle of the task spawned for this node; `None` for conditions.
    pub task_entity: Option<u64>,
    /// Arena index of the leaf this context is for.
    pub task_node: usize,
    /// Token of the subject entity the tree is controlling.
    pub target_entity: u64,
    /// Token of the supervisor controlling the tree, if any.
    pub sup_entity: Option<u64>,
    /// Whether this context belongs to a condition or a task.
    pub ctx_type: CtxType,
    /// Host clock when the leaf started working, in milliseconds.
    pub elapsed_millis: u64,
}

/// The context created when the node at `task_node` fires a condition.
pub open spec fn spec_ctx_for_trigger(task_node: usize, tc: TickCtx) -> BehaveCtx {
    BehaveCtx {
        bt_entity: tc.bt_entity,
        task_entity: None,
        task_node,
        target_entity: tc.target_entity,
        sup_entity: tc.supervisor_entity,
        ctx_type: CtxType::Trigger,
        elapsed_millis: tc.elapsed_millis,
    }
}

/// The context created when the node at `task_node` spawns the task with
/// handle `task_entity`.
pub open spec fn spec_ctx_for_entity(task_node: usize, tc: TickCtx, task_entity: u64) -> BehaveCtx {
    BehaveCtx {
        task_entity: Some(task_entity),
        ctx_type: CtxType::Entity,
        ..spec_ctx_for_trigger(task_node, tc)
    }
}

impl BehaveCtx {
    /// Context for a condition fired by the node at `task_node`.
    pub(crate) fn new_for_trigger(task_node: usize, tc: &TickCtx) -> (r: BehaveCtx)
        ensures
            r == spec_ctx_for_trigger(task_node, *tc),
    {
        BehaveCtx {
            bt_entity: tc.bt_entity,
            task_entity: None,
            task_node,
            target_entity: tc.target_entity,
            sup_entity: tc.supervisor_entity,
            ctx_type: CtxType::Trigger,
            elapsed_millis: tc.elapsed_millis,
        }
    }

    /// Context for the task with handle `task_entity`, spawned by the node
    /// at `task_node`.
    pub(crate) fn new_for_entity(task_node: usize, tc: &TickCtx, task_entity: u64) -> (r:
        BehaveCtx)
        ensures
            r == spec_ctx_for_entity(task_node, *tc, task_entity),
    {
        BehaveCtx {
            bt_entity: tc.bt_entity,
            task_entity: Some(task_entity),
            task_node,
            target_entity: tc.target_entity,
            sup_entity: tc.supervisor_entity,
            ctx_type: CtxType::Entity,
            elapsed_millis: tc.elapsed_millis,
        }
    }

    /// Host clock when this context's leaf started working, in
    /// milliseconds; subtracting it from the current clock gives how long
    /// the behaviour has been running.
    pub fn elapsed_millis_epoch(&self) -> (r: u64)
        ensures
            r == self.elapsed_millis,
    {
        self.elapsed_millis
    }

    /// Was this context created for a fired condition?
    pub fn is_for_trigger(&self) -> (r: bool)
        ensures
            r == (self.ctx_type == CtxType::Trigger),
    {
        self.ctx_type == CtxType::Trigger
    }

    /// Was this context created for a spawned task?
    pub fn is_for_entity(&self) -> (r: bool)
        ensures
            r == (self.ctx_type == CtxType::Entity),
    {
        self.ctx_type == CtxType::Entity
    }

    /// The report that signals success for this context.
    pub fn success(&self) -> (r: BehaveStatusReport)
        ensures
            r == BehaveStatusReport::Success(*self),
    {
        BehaveStatusReport::Success(*self)
    }

    /// The report that signals failure for this context.
    pub fn failure(&self) -> (r: BehaveStatusReport)
        ensures
            r == BehaveStatusReport::Failure(*self),
    {
        BehaveStatusReport::Failure(*self)
    }

    /// The subject entity this behaviour tree is controlling.
    pub fn target_entity(&self) -> (r: u64)
        ensures
            r == self.target_entity,
    {
        self.target_entity
    }

    /// The entity holding the behaviour tree this context belongs to.
    pub fn behave_entity(&self) -> (r: u64)
        ensures
            r == self.bt_entity,
    {
        self.bt_entity
    }

    /// The handle of the task spawned for this node; `None` for condition
    /// contexts.
    pub fn task_entity(&self) -> (r: Option<u64>)
        ensures
            r == self.task_entity,
    {
        self.task_entity
    }

    /// The supervisor entity controlling the tree, if any.
    pub fn supervisor_entity(&self) -> (r: Option<u64>)
        ensures
            r == self.sup_entity,
    {
        self.sup_entity
    }

    /// The arena index of the leaf this context is for.
    pub fn task_node(&self) -> (r: usize)
        ensures
            r == self.task_node,
    {
        self.task_node
    }
}

/// A completion report for one leaf: the only way data re-enters the tree
/// after a leaf has started external work.
#[derive(Copy, Clone, PartialEq, Eq, Structural, Debug)]
pub enum BehaveStatusReport {
    /// The task or condition finished successfully.
    Success(BehaveCtx),
    /// The task or condition failed.
    Failure(BehaveCtx),
}

impl BehaveStatusReport {
    /// The context this report is for.
    pub fn ctx(&self) -> (r: &BehaveCtx)
        ensures
            *r == self.spec_ctx(),
    {
        match self {
            BehaveStatusReport::Success(ctx) => ctx,
            BehaveStatusReport::Failure(ctx) => ctx,
        }
    }

    /// Spec view of the report's context.
    pub open spec fn spec_ctx(self) -> BehaveCtx {
        match self {
            BehaveStatusReport::Success(ctx) => ctx,
            BehaveStatusReport::Failure(ctx) => ctx,
        }
    }

    /// Spec view of the report's outcome.
    pub open spec fn spec_outcome(self) -> bool {
        self is Success
    }

    /// The reported outcome: true for success.
    pub fn outcome(&self) -> (r: bool)
        ensures
            r == self.spec_outcome(),
    {
        matches!(self, BehaveStatusReport::Success(_))
    }
}

} // verus!
