//! The suspend/resume protocol: applying an external completion report to
//! the exact leaf that requested the work.
//!
//! A report that does not match an awaiting leaf is a protocol violation:
//! it is rejected with an error and the tree is left untouched, never
//! applied silently.  This legitimately happens when the subject of a task
//! was destroyed by unrelated host logic before the task finished.
use vstd::prelude::*;

use crate::ctx::{BehaveCtx, CtxType};
use crate::node::{BehaveNode, EntityTaskStatus, TriggerTaskStatus};
use crate::tree::{BehaveTree, lemma_wf_same_shape, same_shape};

verus! {

broadcast use crate::tree::lemma_tree_view, crate::tree::lemma_tree_counter;

/// Why a status report was rejected.
#[derive(Copy, Clone, PartialEq, Eq, Structural, Debug)]
pub enum ProtocolError {
    /// The report names a node id outside the tree.
    UnknownNode,
    /// The named node's kind cannot accept this report.
    NodeKindMismatch,
    /// The named node is not currently waiting for a report.
    NotAwaiting,
}

/// What applying the report `(ctx, success)` to the arena `v` does: either
/// the updated arena and the task handle to release, or the error that
/// rejects the report, with `v` untouched.
pub open spec fn spec_apply_report(v: Seq<BehaveNode>, ctx: BehaveCtx, success: bool) -> Result<
    (Seq<BehaveNode>, Option<u64>),
    ProtocolError,
> {
    let id = ctx.task_node as int;
    if id >= v.len() {
        Err(ProtocolError::UnknownNode)
    } else {
        let n = v[id];
        match n.behave {
            crate::template::Behave::DynamicEntity { .. } => {
                if ctx.ctx_type != CtxType::Entity {
                    Err(ProtocolError::NodeKindMismatch)
                } else {
                    match n.task {
                        EntityTaskStatus::Started(h) => Ok(
                            (
                                v.update(
                                    id,
                                    BehaveNode { task: EntityTaskStatus::Complete(success), ..n },
                                ),
                                Some(h),
                            ),
                        ),
                        _ => Err(ProtocolError::NotAwaiting),
                    }
                }
            },
            crate::template::Behave::TriggerReq(_) => {
                if ctx.ctx_type != CtxType::Trigger {
                    Err(ProtocolError::NodeKindMismatch)
                } else {
                    match n.trig {
                        TriggerTaskStatus::Triggered => Ok(
                            (
                                v.update(
                                    id,
                                    BehaveNode { trig: TriggerTaskStatus::Complete(success), ..n },
                                ),
                                None,
                            ),
                        ),
                        _ => Err(ProtocolError::NotAwaiting),
                    }
                }
            },
            _ => Err(ProtocolError::NodeKindMismatch),
        }
    }
}

impl BehaveTree {
    /// Stores a completion report into the leaf it is for, so that the
    /// next tick observes the outcome.  Returns the handle of the task
    /// that was running the node, to be released exactly once by the
    /// host; `None` for condition nodes, which own no task.  A report for
    /// an unknown node, for a node of the wrong kind, or for a node that
    /// is not awaiting one, is rejected and changes nothing.
    pub fn set_node_result(&mut self, ctx: &BehaveCtx, success: bool) -> (r: Result<
        Option<u64>,
        ProtocolError,
    >)
        requires
            old(self).wf(),
        ensures
            final(self).wf(),
            final(self).handle_counter() == old(self).handle_counter(),
            match spec_apply_report(old(self)@, *ctx, success) {
                Ok((w, h)) => r == Ok::<Option<u64>, ProtocolError>(h) && final(self)@ == w,
                Err(e) => r == Err::<Option<u64>, ProtocolError>(e) && final(self)@ == old(self)@,
            },
    {
        let ghost v = self@;
        let id = ctx.task_node();
        if id >= self.nodes.len() {
            return Err(ProtocolError::UnknownNode);
        }
        let r = if matches!(self.nodes[id].behave, crate::template::Behave::DynamicEntity { .. }) {
            if !ctx.is_for_entity() {
                Err(ProtocolError::NodeKindMismatch)
            } else {
                match self.nodes[id].task {
                    EntityTaskStatus::Started(h) => {
                        self.nodes[id].complete_task(success);
                        Ok(Some(h))
                    },
                    _ => Err(ProtocolError::NotAwaiting),
                }
            }
        } else if matches!(self.nodes[id].behave, crate::template::Behave::TriggerReq(_)) {
            if !ctx.is_for_trigger() {
                Err(ProtocolError::NodeKindMismatch)
            } else {
                match self.nodes[id].trig {
                    TriggerTaskStatus::Triggered => {
                        self.nodes[id].complete_trig(success);
                        Ok(None)
                    },
                    _ => Err(ProtocolError::NotAwaiting),
                }
            }
        } else {
            Err(ProtocolError::NodeKindMismatch)
        };
        proof {
            if self@ != v {
                assert(same_shape(v, self@));
                lemma_wf_same_shape(v, self@);
                assert forall|j: int|
                    0 <= j < self@.len() && (#[trigger] self@[j]).status == Some(
                        crate::status::Status::PendingReset,
                    ) implies crate::tree::looper(self@[j].behave) by {
                    if j != id {
                        assert(self@[j] == v[j]);
                    } else {
                        assert(self@[j].status == v[j].status);
                    }
                }
                assert(self.wf());
            }
        }
        r
    }
}

} // verus!
