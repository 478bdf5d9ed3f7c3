//! The tick engine: one synchronous evaluation pass over the tree,
//! propagating a [`Status`] from the leaves to the root and emitting the
//! external work the host must perform.
//!
//! A node whose stored status is terminal returns it again with no side
//! effects until an ancestor resets it.  A looping node marks itself
//! `PendingReset` to re-run its subtree on its own next tick; a parent
//! reading `PendingReset` from a child treats it as `Running`, so the
//! loop-back signal never travels further than one level up.
use vstd::prelude::*;

use crate::ctx::{BehaveCtx, TickCtx, spec_ctx_for_entity, spec_ctx_for_trigger};
use crate::node::{
    BehaveNode, EntityTaskStatus, TriggerTaskStatus, spec_reset_node, terminal_opt, with_status,
};
use crate::status::{Status, is_terminal, spec_absorb, spec_invert};
use crate::template::Behave;
use crate::tree::{
    BehaveTree, closed_range, extends, frame_outside, is_kid, is_kid_from, kid_count,
    lemma_kid_bounds, lemma_kid_separation, lemma_kid_step, lemma_walk_same_subtree,
    lemma_wf_same_shape, same_shape,
};

verus! {

broadcast use crate::tree::lemma_tree_view, crate::tree::lemma_tree_counter;

/// External work requested by a tick, performed by the host after the tick
/// returns.
#[derive(Clone, Debug, PartialEq, Eq)]
pub enum Effect {
    /// Spawn the external task named by the descriptor token, correlated
    /// through `ctx`; `ctx.task_entity` carries the handle the tree
    /// recorded for it.
    SpawnTask {
        /// Descriptor token of the task to spawn.
        task: u64,
        /// Display name of the task.
        name: String,
        /// Correlation context for the completion report.
        ctx: BehaveCtx,
    },
    /// Fire the condition named by the descriptor token, correlated
    /// through `ctx`.
    FireTrigger {
        /// Descriptor token of the condition to fire.
        desc: u64,
        /// Correlation context for the completion report.
        ctx: BehaveCtx,
    },
}

/// The stored status's value; only meaningful when it is present.
pub open spec fn stored(s: Option<Status>) -> Status {
    match s {
        Some(x) => x,
        None => Status::Running,
    }
}

/// The handle a spawn leaf recorded; only meaningful when started.
pub open spec fn started_handle(n: BehaveNode) -> u64 {
    match n.task {
        EntityTaskStatus::Started(h) => h,
        _ => 0,
    }
}

/// Shared frame of every tick: the shape is preserved, nothing outside the
/// ticked subtree changes, the ticked node stores the status it returned,
/// and emitted effects are only appended.
pub open spec fn tick_frame(
    v: Seq<BehaveNode>,
    w: Seq<BehaveNode>,
    i: int,
    r: Status,
    e0: Seq<Effect>,
    e1: Seq<Effect>,
) -> bool {
    &&& same_shape(v, w)
    &&& frame_outside(v, w, i, i + v[i].subtree)
    &&& w[i].status == Some(r)
    &&& extends(e0, e1)
}

/// The state a tick of the node at `c` evaluates from: if the node is
/// marked to loop back, the short-circuit rule first resets its block.
pub open spec fn spec_pretick(v: Seq<BehaveNode>, c: int) -> Seq<BehaveNode> {
    if 0 <= c < v.len() && v[c].status == Some(Status::PendingReset) {
        Seq::new(
            v.len(),
            |j: int|
                if c <= j < c + v[c].subtree {
                    spec_reset_node(v[j])
                } else {
                    v[j]
                },
        )
    } else {
        v
    }
}

/// What ticking the non-terminal node at `i` does: the state relation by
/// kind together with the effects it emits.
pub open spec fn spec_tick_kind(
    v: Seq<BehaveNode>,
    w: Seq<BehaveNode>,
    i: int,
    r: Status,
    tc: TickCtx,
    e0: Seq<Effect>,
    e1: Seq<Effect>,
) -> bool {
    &&& spec_tick_state(v, w, i, r, tc)
    &&& spec_tick_effects(v, w, i, r, tc, e0, e1)
}

/// The effects one tick of the node at `i` emits: leaves starting external
/// work append exactly one request; other leaves and empty composites
/// append nothing; a composite's effects are those of the children it
/// evaluated, already covered by their own relations.
pub open spec fn spec_tick_effects(
    v: Seq<BehaveNode>,
    w: Seq<BehaveNode>,
    i: int,
    r: Status,
    tc: TickCtx,
    e0: Seq<Effect>,
    e1: Seq<Effect>,
) -> bool {
    let n = v[i];
    match n.behave {
        Behave::AlwaysSucceed => e1 == e0,
        Behave::AlwaysFail => e1 == e0,
        Behave::Wait(_) => e1 == e0,
        Behave::TriggerReq(d) => match n.trig {
            TriggerTaskStatus::NotTriggered => e1 == e0.push(
                Effect::FireTrigger { desc: d, ctx: spec_ctx_for_trigger(i as usize, tc) },
            ),
            _ => e1 == e0,
        },
        Behave::DynamicEntity { .. } => match n.task {
            EntityTaskStatus::NotStarted => e1 == e0.push(
                Effect::SpawnTask {
                    task: n.behave->DynamicEntity_task,
                    name: n.behave->DynamicEntity_name,
                    ctx: spec_ctx_for_entity(i as usize, tc, started_handle(w[i])),
                },
            ),
            _ => e1 == e0,
        },
        Behave::Sequence => n.subtree == 1 ==> e1 == e0,
        Behave::Fallback => n.subtree == 1 ==> e1 == e0,
        _ => true,
    }
}

/// The state relation of one tick of the node at `i`, by kind.
pub open spec fn spec_tick_state(
    v: Seq<BehaveNode>,
    w: Seq<BehaveNode>,
    i: int,
    r: Status,
    tc: TickCtx,
) -> bool
    decreases v[i].subtree, 2int,
{
    let n = v[i];
    match n.behave {
        Behave::AlwaysSucceed => {
            &&& r == Status::Success
            &&& w[i] == with_status(n, r)
        },
        Behave::AlwaysFail => {
            &&& r == Status::Failure
            &&& w[i] == with_status(n, r)
        },
        Behave::Wait(_) => spec_tick_wait(v, w, i, r, tc),
        Behave::TriggerReq(_) => spec_tick_trigger(v, w, i, r),
        Behave::DynamicEntity { .. } => spec_tick_dynamic(v, w, i, r),
        Behave::Sequence => spec_tick_sequence(v, w, i, r, tc),
        Behave::Fallback => spec_tick_fallback(v, w, i, r, tc),
        Behave::Invert => spec_tick_invert(v, w, i, r, tc),
        Behave::Forever => spec_tick_forever(v, w, i, r, tc),
        Behave::While => spec_tick_while(v, w, i, r, tc),
        Behave::IfThen => spec_tick_ifthen(v, w, i, r, tc),
    }
}

/// What one tick of the child block at `c` guarantees, stated between the
/// enclosing tick's own pre- and post-states: an already-terminal child
/// keeps its status and its whole block; any other child satisfies its own
/// per-kind relation, evaluated from its reset block if it was marked to
/// loop back.  This composes because a child's tick touches only its own
/// block.
pub open spec fn spec_child_tick(
    v: Seq<BehaveNode>,
    w: Seq<BehaveNode>,
    c: int,
    tc: TickCtx,
) -> bool
    decreases v[c].subtree, 3int,
{
    &&& w[c].status is Some
    &&& (terminal_opt(v[c].status) ==> w[c].status == v[c].status && (forall|j: int|
        c <= j < c + v[c].subtree ==> w[j] == v[j]))
    &&& (!terminal_opt(v[c].status) ==> spec_tick_state(
        spec_pretick(v, c),
        w,
        c,
        stored(w[c].status),
        tc,
    ))
}

/// [`spec_child_tick`] for the child at `d` of the node at `i`, guarded by
/// the block containment that every well-formed tree provides.
pub open spec fn spec_kid_tick(
    v: Seq<BehaveNode>,
    w: Seq<BehaveNode>,
    i: int,
    d: int,
    tc: TickCtx,
) -> bool
    decreases v[i].subtree, 0int,
{
    if 0 <= i < v.len() && i < d < i + v[i].subtree && i + v[i].subtree <= v.len() && 1 <= v[d].subtree
        && v[d].subtree < v[i].subtree && d + v[d].subtree <= i + v[i].subtree {
        spec_child_tick(v, w, d, tc)
    } else {
        true
    }
}

/// Tick of a wait leaf: arm the timer, then run it out, then succeed once
/// strictly more than the duration has passed.
#[verifier::opaque]
pub open spec fn spec_tick_wait(
    v: Seq<BehaveNode>,
    w: Seq<BehaveNode>,
    i: int,
    r: Status,
    tc: TickCtx,
) -> bool {
    let n = v[i];
    let ms = n.behave->Wait_0;
    match n.start_time {
        None => {
            &&& r == Status::Running
            &&& w[i] == (BehaveNode {
                status: Some(Status::Running),
                start_time: Some(tc.elapsed_millis),
                ..n
            })
        },
        Some(st) => {
            &&& r == (if tc.elapsed_millis > st + ms {
                Status::Success
            } else {
                Status::RunningTimer
            })
            &&& w[i] == with_status(n, r)
        },
    }
}

/// Tick of a condition leaf: fire once, then suspend until the report,
/// then translate the reported outcome.
#[verifier::opaque]
pub open spec fn spec_tick_trigger(
    v: Seq<BehaveNode>,
    w: Seq<BehaveNode>,
    i: int,
    r: Status,
) -> bool {
    let n = v[i];
    match n.trig {
        TriggerTaskStatus::NotTriggered => {
            &&& r == Status::Running
            &&& w[i] == (BehaveNode {
                status: Some(Status::Running),
                trig: TriggerTaskStatus::Triggered,
                ..n
            })
        },
        TriggerTaskStatus::Triggered => {
            &&& r == Status::AwaitingTrigger
            &&& w[i] == with_status(n, r)
        },
        TriggerTaskStatus::Complete(b) => {
            &&& r == (if b {
                Status::Success
            } else {
                Status::Failure
            })
            &&& w[i] == with_status(n, r)
        },
    }
}

/// Tick of a spawn leaf: request the task once and stay running for one
/// grace tick, then suspend until the report, then translate the outcome.
#[verifier::opaque]
pub open spec fn spec_tick_dynamic(
    v: Seq<BehaveNode>,
    w: Seq<BehaveNode>,
    i: int,
    r: Status,
) -> bool {
    let n = v[i];
    match n.task {
        EntityTaskStatus::NotStarted => {
            &&& r == Status::Running
            &&& w[i].task is Started
            &&& w[i] == (BehaveNode { status: Some(Status::Running), task: w[i].task, ..n })
        },
        EntityTaskStatus::Started(_) => {
            &&& r == Status::AwaitingTrigger
            &&& w[i] == with_status(n, r)
        },
        EntityTaskStatus::Complete(b) => {
            &&& r == (if b {
                Status::Success
            } else {
                Status::Failure
            })
            &&& w[i] == with_status(n, r)
        },
    }
}

/// Tick of a sequence: succeeds exactly when every child succeeded in
/// order, each child it reached satisfying its own tick relation;
/// otherwise the first non-success child decides the result, and
/// everything after its block is untouched.
pub open spec fn spec_tick_sequence(
    v: Seq<BehaveNode>,
    w: Seq<BehaveNode>,
    i: int,
    r: Status,
    tc: TickCtx,
) -> bool
    decreases v[i].subtree, 1int,
{
    let n = v[i];
    let end = i + n.subtree;
    &&& r != Status::PendingReset
    &&& (n.subtree == 1 ==> r == Status::Success && w[i] == with_status(n, r))
    &&& (r == Status::Success ==> forall|d: int|
        #[trigger] is_kid(v, i, d) ==> w[d].status == Some(Status::Success) && spec_kid_tick(
            v,
            w,
            i,
            d,
            tc,
        ))
    &&& (r != Status::Success ==> exists|c: int|
        {
            &&& #[trigger] is_kid(v, i, c)
            &&& w[c].status is Some
            &&& w[c].status != Some(Status::Success)
            &&& spec_absorb(stored(w[c].status)) == r
            &&& spec_kid_tick(v, w, i, c, tc)
            &&& forall|d: int|
                #[trigger] is_kid(v, i, d) && d < c ==> w[d].status == Some(Status::Success)
                    && spec_kid_tick(v, w, i, d, tc)
            &&& forall|j: int| c + v[c].subtree <= j < end ==> w[j] == v[j]
        })
}

/// Tick of a fallback: fails exactly when every child failed in order,
/// each child it reached satisfying its own tick relation; otherwise the
/// first non-failure child decides the result, and everything after its
/// block is untouched.
pub open spec fn spec_tick_fallback(
    v: Seq<BehaveNode>,
    w: Seq<BehaveNode>,
    i: int,
    r: Status,
    tc: TickCtx,
) -> bool
    decreases v[i].subtree, 1int,
{
    let n = v[i];
    let end = i + n.subtree;
    &&& r != Status::PendingReset
    &&& (n.subtree == 1 ==> r == Status::Success && w[i] == with_status(n, r))
    &&& (r == Status::Failure ==> forall|d: int|
        #[trigger] is_kid(v, i, d) ==> w[d].status == Some(Status::Failure) && spec_kid_tick(
            v,
            w,
            i,
            d,
            tc,
        ))
    &&& (n.subtree > 1 && r != Status::Failure ==> exists|c: int|
        {
            &&& #[trigger] is_kid(v, i, c)
            &&& w[c].status is Some
            &&& w[c].status != Some(Status::Failure)
            &&& spec_absorb(stored(w[c].status)) == r
            &&& spec_kid_tick(v, w, i, c, tc)
            &&& forall|d: int|
                #[trigger] is_kid(v, i, d) && d < c ==> w[d].status == Some(Status::Failure)
                    && spec_kid_tick(v, w, i, d, tc)
            &&& forall|j: int| c + v[c].subtree <= j < end ==> w[j] == v[j]
        })
}

/// Tick of an invert node: its single child is ticked and the result is
/// the child's, with success and failure swapped.
pub open spec fn spec_tick_invert(
    v: Seq<BehaveNode>,
    w: Seq<BehaveNode>,
    i: int,
    r: Status,
    tc: TickCtx,
) -> bool
    decreases v[i].subtree, 1int,
{
    let end = i + v[i].subtree;
    let c = i + 1;
    &&& r != Status::PendingReset
    &&& (c < end ==> {
        &&& w[c].status is Some
        &&& r == spec_invert(spec_absorb(stored(w[c].status)))
        &&& spec_kid_tick(v, w, i, c, tc)
    })
}

/// Tick of a forever node: its single child is ticked; the node is never
/// terminal, and a finished child re-arms the subtree for the next tick.
pub open spec fn spec_tick_forever(
    v: Seq<BehaveNode>,
    w: Seq<BehaveNode>,
    i: int,
    r: Status,
    tc: TickCtx,
) -> bool
    decreases v[i].subtree, 1int,
{
    let end = i + v[i].subtree;
    let c = i + 1;
    &&& !is_terminal(r)
    &&& (c < end ==> {
        &&& w[c].status is Some
        &&& (terminal_opt(w[c].status) ==> r == Status::PendingReset)
        &&& (!terminal_opt(w[c].status) ==> r == spec_absorb(stored(w[c].status)))
        &&& spec_kid_tick(v, w, i, c, tc)
    })
}

/// Tick of a while node: the ticked condition's failure fails the node on
/// the same tick; its success runs the optional body, and a completed pass
/// re-arms the subtree for the next tick.
pub open spec fn spec_tick_while(
    v: Seq<BehaveNode>,
    w: Seq<BehaveNode>,
    i: int,
    r: Status,
    tc: TickCtx,
) -> bool
    decreases v[i].subtree, 1int,
{
    let n = v[i];
    let end = i + n.subtree;
    let c1 = i + 1;
    c1 < end ==> {
        let c2 = c1 + v[c1].subtree;
        let has_body = c2 < end;
        let s1 = spec_absorb(stored(w[c1].status));
        &&& w[c1].status is Some
        &&& spec_kid_tick(v, w, i, c1, tc)
        &&& (s1 == Status::Failure ==> r == Status::Failure && (forall|j: int|
            c2 <= j < end ==> w[j] == v[j]))
        &&& (s1 == Status::Success && !has_body ==> r == Status::PendingReset)
        &&& (s1 == Status::Success && has_body ==> {
            let s2 = spec_absorb(stored(w[c2].status));
            &&& w[c2].status is Some
            &&& spec_kid_tick(v, w, i, c2, tc)
            &&& (s2 == Status::Success ==> r == Status::PendingReset)
            &&& (s2 != Status::Success ==> r == s2)
        })
        &&& (s1 != Status::Success && s1 != Status::Failure ==> r == s1 && (forall|j: int|
            c2 <= j < end ==> w[j] == v[j]))
    }
}

/// Tick of an if-then node: the ticked condition's success routes to the
/// then child, its failure to the else child if present, else the node
/// fails; a non-terminal condition bubbles up with the branches untouched.
pub open spec fn spec_tick_ifthen(
    v: Seq<BehaveNode>,
    w: Seq<BehaveNode>,
    i: int,
    r: Status,
    tc: TickCtx,
) -> bool
    decreases v[i].subtree, 1int,
{
    let n = v[i];
    let end = i + n.subtree;
    let c1 = i + 1;
    c1 < end ==> {
        let c2 = c1 + v[c1].subtree;
        let s1 = spec_absorb(stored(w[c1].status));
        &&& w[c1].status is Some
        &&& spec_kid_tick(v, w, i, c1, tc)
        &&& (s1 == Status::Success && c2 < end ==> {
            let c3 = c2 + v[c2].subtree;
            &&& w[c2].status is Some
            &&& r == spec_absorb(stored(w[c2].status))
            &&& spec_kid_tick(v, w, i, c2, tc)
            &&& (c3 < end ==> forall|j: int| c3 <= j < end ==> w[j] == v[j])
        })
        &&& (s1 == Status::Failure && c2 < end ==> {
            let c3 = c2 + v[c2].subtree;
            if c3 < end {
                &&& w[c3].status is Some
                &&& r == spec_absorb(stored(w[c3].status))
                &&& spec_kid_tick(v, w, i, c3, tc)
                &&& forall|j: int| c2 <= j < c3 ==> w[j] == v[j]
            } else {
                &&& r == Status::Failure
                &&& forall|j: int| c2 <= j < end ==> w[j] == v[j]
            }
        })
        &&& (s1 != Status::Success && s1 != Status::Failure ==> r == s1 && forall|j: int|
            c2 <= j < end ==> w[j] == v[j])
    }
}

/// Shape and content of the pre-tick state: the reset, when it happens,
/// touches only the node's block and keeps every behaviour and size.
proof fn lemma_pretick_shape(v: Seq<BehaveNode>, c: int)
    requires
        0 <= c < v.len(),
    ensures
        spec_pretick(v, c).len() == v.len(),
        spec_pretick(v, c)[c].subtree == v[c].subtree,
        forall|j: int|
            0 <= j < v.len() ==> (#[trigger] spec_pretick(v, c)[j]).subtree == v[j].subtree
                && spec_pretick(v, c)[j].behave == v[j].behave,
        forall|j: int|
            0 <= j < v.len() && !(c <= j < c + v[c].subtree) ==> #[trigger] spec_pretick(v, c)[j]
                == v[j],
        v[c].status == Some(Status::PendingReset) ==> forall|j: int|
            c <= j < c + v[c].subtree && j < v.len() ==> #[trigger] spec_pretick(v, c)[j]
                == spec_reset_node(v[j]),
        v[c].status != Some(Status::PendingReset) ==> spec_pretick(v, c) == v,
{
}

/// The per-kind state relation only reads the ticked node's block, so it
/// carries over to any pair of states that agree there.
#[verifier::rlimit(100)]
proof fn lemma_state_tick_local(
    a: Seq<BehaveNode>,
    a2: Seq<BehaveNode>,
    b: Seq<BehaveNode>,
    b2: Seq<BehaveNode>,
    c: int,
    r: Status,
    tc: TickCtx,
)
    requires
        0 <= c < a.len(),
        a.len() == a2.len(),
        b.len() == b2.len(),
        a.len() == b.len(),
        1 <= a[c].subtree,
        c + a[c].subtree <= a.len(),
        forall|j: int| c <= j < c + a[c].subtree ==> a2[j] == a[j] && b2[j] == b[j],
        spec_tick_state(a, b, c, r, tc),
    ensures
        spec_tick_state(a2, b2, c, r, tc),
    decreases a[c].subtree, 0int,
{
    assert(a2[c] == a[c]);
    assert(b2[c] == b[c]);
    let n = a[c];
    let end = c + n.subtree;
    assert forall|d: int| #[trigger] spec_kid_tick(a, b, c, d, tc) && c < d < end implies
        spec_kid_tick(a2, b2, c, d, tc) by {
        assert(a2[d] == a[d]);
        if 1 <= a[d].subtree && a[d].subtree < a[c].subtree && d + a[d].subtree <= end {
            assert(spec_child_tick(a, b, d, tc)) by {
                reveal(spec_kid_tick);
            }
            lemma_child_tick_stable(a, a2, b, b2, d, tc);
            assert(spec_kid_tick(a2, b2, c, d, tc)) by {
                reveal(spec_kid_tick);
            }
        } else {
            assert(spec_kid_tick(a2, b2, c, d, tc)) by {
                reveal(spec_kid_tick);
            }
        }
    }
    match n.behave {
        Behave::AlwaysSucceed => {
            assert(spec_tick_state(a2, b2, c, r, tc)) by {
                reveal(spec_tick_state);
            }
        },
        Behave::AlwaysFail => {
            assert(spec_tick_state(a2, b2, c, r, tc)) by {
                reveal(spec_tick_state);
            }
        },
        Behave::Wait(_) => {
            assert(spec_tick_state(a2, b2, c, r, tc)) by {
                reveal(spec_tick_state);
                reveal(spec_tick_wait);
            }
        },
        Behave::TriggerReq(_) => {
            assert(spec_tick_state(a2, b2, c, r, tc)) by {
                reveal(spec_tick_state);
                reveal(spec_tick_trigger);
            }
        },
        Behave::DynamicEntity { .. } => {
            assert(spec_tick_state(a2, b2, c, r, tc)) by {
                reveal(spec_tick_state);
                reveal(spec_tick_dynamic);
            }
        },
        Behave::Sequence => {
            lemma_walk_same_subtree(a, a2, c + 1, end);
            assert(spec_tick_state(a2, b2, c, r, tc)) by {
                reveal(spec_tick_state);
                reveal(spec_tick_sequence);
                assert forall|d: int| #[trigger] is_kid(a, c, d) implies c < d < end && b2[d]
                    == b[d] by {
                    lemma_kid_bounds(a, c + 1, end, d);
                }
                if r == Status::Success {
                    assert forall|d: int| #[trigger] is_kid(a2, c, d) implies b2[d].status
                        == Some(Status::Success) && spec_kid_tick(a2, b2, c, d, tc) by {
                        assert(is_kid(a, c, d));
                        assert(spec_kid_tick(a, b, c, d, tc));
                        assert(c < d < end);
                    }
                }
                if r != Status::Success {
                    let cc = choose|cc: int|
                        {
                            &&& #[trigger] is_kid(a, c, cc)
                            &&& b[cc].status is Some
                            &&& b[cc].status != Some(Status::Success)
                            &&& spec_absorb(stored(b[cc].status)) == r
                            &&& spec_kid_tick(a, b, c, cc, tc)
                            &&& forall|d: int|
                                #[trigger] is_kid(a, c, d) && d < cc ==> b[d].status == Some(
                                    Status::Success,
                                ) && spec_kid_tick(a, b, c, d, tc)
                            &&& forall|j: int| cc + a[cc].subtree <= j < end ==> b[j] == a[j]
                        };
                    lemma_kid_bounds(a, c + 1, end, cc);
                    assert(is_kid(a2, c, cc));
                    assert(b2[cc].status == b[cc].status);
                    assert(spec_kid_tick(a, b, c, cc, tc) && c < cc < end);
                    assert(spec_kid_tick(a2, b2, c, cc, tc));
                    assert forall|d: int| #[trigger] is_kid(a2, c, d) && d < cc implies
                        b2[d].status == Some(Status::Success) && spec_kid_tick(a2, b2, c, d, tc) by {
                        assert(is_kid(a, c, d));
                        assert(spec_kid_tick(a, b, c, d, tc));
                        assert(c < d < end);
                    }
                    assert forall|j: int| cc + a2[cc].subtree <= j < end implies b2[j]
                        == a2[j] by {
                        assert(b[j] == a[j]);
                    }
                }
            }
        },
        Behave::Fallback => {
            lemma_walk_same_subtree(a, a2, c + 1, end);
            assert(spec_tick_state(a2, b2, c, r, tc)) by {
                reveal(spec_tick_state);
                reveal(spec_tick_fallback);
                assert forall|d: int| #[trigger] is_kid(a, c, d) implies c < d < end && b2[d]
                    == b[d] by {
                    lemma_kid_bounds(a, c + 1, end, d);
                }
                if r == Status::Failure {
                    assert forall|d: int| #[trigger] is_kid(a2, c, d) implies b2[d].status
                        == Some(Status::Failure) && spec_kid_tick(a2, b2, c, d, tc) by {
                        assert(is_kid(a, c, d));
                        assert(spec_kid_tick(a, b, c, d, tc));
                        assert(c < d < end);
                    }
                }
                if n.subtree > 1 && r != Status::Failure {
                    let cc = choose|cc: int|
                        {
                            &&& #[trigger] is_kid(a, c, cc)
                            &&& b[cc].status is Some
                            &&& b[cc].status != Some(Status::Failure)
                            &&& spec_absorb(stored(b[cc].status)) == r
                            &&& spec_kid_tick(a, b, c, cc, tc)
                            &&& forall|d: int|
                                #[trigger] is_kid(a, c, d) && d < cc ==> b[d].status == Some(
                                    Status::Failure,
                                ) && spec_kid_tick(a, b, c, d, tc)
                            &&& forall|j: int| cc + a[cc].subtree <= j < end ==> b[j] == a[j]
                        };
                    lemma_kid_bounds(a, c + 1, end, cc);
                    assert(is_kid(a2, c, cc));
                    assert(b2[cc].status == b[cc].status);
                    assert(spec_kid_tick(a, b, c, cc, tc) && c < cc < end);
                    assert(spec_kid_tick(a2, b2, c, cc, tc));
                    assert forall|d: int| #[trigger] is_kid(a2, c, d) && d < cc implies
                        b2[d].status == Some(Status::Failure) && spec_kid_tick(a2, b2, c, d, tc) by {
                        assert(is_kid(a, c, d));
                        assert(spec_kid_tick(a, b, c, d, tc));
                        assert(c < d < end);
                    }
                    assert forall|j: int| cc + a2[cc].subtree <= j < end implies b2[j]
                        == a2[j] by {
                        assert(b[j] == a[j]);
                    }
                }
            }
        },
        Behave::Invert => {
            assert(spec_tick_invert(a, b, c, r, tc)) by {
                reveal(spec_tick_state);
            }
            if c + 1 < end {
                assert(a2[c + 1] == a[c + 1]);
                assert(b2[c + 1] == b[c + 1]);
                assert(spec_kid_tick(a, b, c, c + 1, tc)) by {
                    reveal(spec_tick_invert);
                }
                assert(spec_kid_tick(a2, b2, c, c + 1, tc));
            }
            assert(spec_tick_state(a2, b2, c, r, tc)) by {
                reveal(spec_tick_state);
                reveal(spec_tick_invert);
            }
        },
        Behave::Forever => {
            assert(spec_tick_forever(a, b, c, r, tc)) by {
                reveal(spec_tick_state);
            }
            if c + 1 < end {
                assert(a2[c + 1] == a[c + 1]);
                assert(b2[c + 1] == b[c + 1]);
                assert(spec_kid_tick(a, b, c, c + 1, tc)) by {
                    reveal(spec_tick_forever);
                }
                assert(spec_kid_tick(a2, b2, c, c + 1, tc));
            }
            assert(spec_tick_state(a2, b2, c, r, tc)) by {
                reveal(spec_tick_state);
                reveal(spec_tick_forever);
            }
        },
        Behave::While => {
            assert(spec_tick_while(a, b, c, r, tc)) by {
                reveal(spec_tick_state);
            }
            if c + 1 < end {
                assert(a2[c + 1] == a[c + 1]);
                assert(b2[c + 1] == b[c + 1]);
                assert(spec_kid_tick(a, b, c, c + 1, tc)) by {
                    reveal(spec_tick_while);
                }
                assert(spec_kid_tick(a2, b2, c, c + 1, tc));
                let cb = c + 1 + a[c + 1].subtree;
                if cb < end {
                    assert(a2[cb] == a[cb]);
                    assert(b2[cb] == b[cb]);
                    if spec_kid_tick(a, b, c, cb, tc) && c < cb < end {
                        assert(spec_kid_tick(a2, b2, c, cb, tc));
                    }
                }
                assert forall|j: int| cb <= j < end implies a2[j] == a[j] && b2[j] == b[j] by {}
            }
            assert(spec_tick_state(a2, b2, c, r, tc)) by {
                reveal(spec_tick_state);
                reveal(spec_tick_while);
            }
        },
        Behave::IfThen => {
            assert(spec_tick_ifthen(a, b, c, r, tc)) by {
                reveal(spec_tick_state);
            }
            if c + 1 < end {
                assert(a2[c + 1] == a[c + 1]);
                assert(b2[c + 1] == b[c + 1]);
                assert(spec_kid_tick(a, b, c, c + 1, tc)) by {
                    reveal(spec_tick_ifthen);
                }
                assert(spec_kid_tick(a2, b2, c, c + 1, tc));
                let cb = c + 1 + a[c + 1].subtree;
                if cb < end {
                    assert(a2[cb] == a[cb]);
                    assert(b2[cb] == b[cb]);
                    if spec_kid_tick(a, b, c, cb, tc) && c < cb < end {
                        assert(spec_kid_tick(a2, b2, c, cb, tc));
                    }
                    let cd = cb + a[cb].subtree;
                    if cd < end {
                        assert(a2[cd] == a[cd]);
                        assert(b2[cd] == b[cd]);
                        if spec_kid_tick(a, b, c, cd, tc) && c < cd < end {
                            assert(spec_kid_tick(a2, b2, c, cd, tc));
                        }
                    }
                }
                assert forall|j: int| cb <= j < end implies a2[j] == a[j] && b2[j] == b[j] by {}
            }
            assert(spec_tick_state(a2, b2, c, r, tc)) by {
                reveal(spec_tick_state);
                reveal(spec_tick_ifthen);
            }
        },
    }
}

/// One child's tick relation carries over to any pair of enclosing states
/// that agree on the child's block.
#[verifier::rlimit(100)]
proof fn lemma_child_tick_stable(
    v: Seq<BehaveNode>,
    v2: Seq<BehaveNode>,
    w: Seq<BehaveNode>,
    w2: Seq<BehaveNode>,
    d: int,
    tc: TickCtx,
)
    requires
        0 <= d < v.len(),
        v.len() == v2.len(),
        w.len() == w2.len(),
        v.len() == w.len(),
        d + v[d].subtree <= v.len(),
        1 <= v[d].subtree,
        forall|j: int| d <= j < d + v[d].subtree ==> v2[j] == v[j] && w2[j] == w[j],
        spec_child_tick(v, w, d, tc),
    ensures
        spec_child_tick(v2, w2, d, tc),
    decreases v[d].subtree, 1int,
{
    assert(v2[d] == v[d]);
    assert(w2[d] == w[d]);
    assert(w[d].status is Some && (terminal_opt(v[d].status) ==> w[d].status == v[d].status && (
    forall|j: int| d <= j < d + v[d].subtree ==> w[j] == v[j])) && (!terminal_opt(v[d].status)
        ==> spec_tick_state(spec_pretick(v, d), w, d, stored(w[d].status), tc))) by {
        reveal(spec_child_tick);
    }
    if !terminal_opt(v[d].status) {
        lemma_pretick_shape(v, d);
        lemma_pretick_shape(v2, d);
        let p = spec_pretick(v, d);
        let p2 = spec_pretick(v2, d);
        assert forall|j: int| d <= j < d + p[d].subtree implies p2[j] == p[j] && w2[j]
            == w[j] by {
            if v[d].status == Some(Status::PendingReset) {
                assert(p[j] == spec_reset_node(v[j]));
                assert(p2[j] == spec_reset_node(v2[j]));
            } else {
                assert(p[j] == v[j]);
                assert(p2[j] == v2[j]);
            }
        }
        lemma_state_tick_local(p, p2, w, w2, d, stored(w[d].status), tc);
        assert(stored(w2[d].status) == stored(w[d].status));
    } else {
        assert forall|j: int| d <= j < d + v2[d].subtree implies w2[j] == v2[j] by {
            assert(w[j] == v[j]);
        }
    }
    assert(spec_child_tick(v2, w2, d, tc)) by {
        reveal(spec_child_tick);
    }
}

/// Introduction form of [`spec_tick_while`]: packaging the per-branch
/// facts a while tick establishes.
#[verifier::rlimit(100)]
proof fn lemma_while_intro(v: Seq<BehaveNode>, w: Seq<BehaveNode>, i: int, r: Status, tc: TickCtx)
    requires
        ({
            let n = v[i];
            let end = i + n.subtree;
            let c1 = i + 1;
            c1 < end ==> {
                let c2 = c1 + v[c1].subtree;
                let has_body = c2 < end;
                let s1 = spec_absorb(stored(w[c1].status));
                &&& w[c1].status is Some
                &&& spec_kid_tick(v, w, i, c1, tc)
                &&& (s1 == Status::Failure ==> r == Status::Failure && (forall|j: int|
                    c2 <= j < end ==> w[j] == v[j]))
                &&& (s1 == Status::Success && !has_body ==> r == Status::PendingReset)
                &&& (s1 == Status::Success && has_body ==> {
                    let s2 = spec_absorb(stored(w[c2].status));
                    &&& w[c2].status is Some
                    &&& spec_kid_tick(v, w, i, c2, tc)
                    &&& (s2 == Status::Success ==> r == Status::PendingReset)
                    &&& (s2 != Status::Success ==> r == s2)
                })
                &&& (s1 != Status::Success && s1 != Status::Failure ==> r == s1 && (forall|j: int|
                    c2 <= j < end ==> w[j] == v[j]))
            }
        }),
        0 <= i < v.len(),
        v[i].behave is While,
    ensures
        spec_tick_state(v, w, i, r, tc),
{
    reveal(spec_tick_state);
    reveal(spec_tick_while);
}

/// Introduction form of [`spec_tick_ifthen`]: packaging the per-branch
/// facts an if-then tick establishes.
#[verifier::rlimit(100)]
proof fn lemma_ifthen_intro(v: Seq<BehaveNode>, w: Seq<BehaveNode>, i: int, r: Status, tc: TickCtx)
    requires
        ({
            let n = v[i];
            let end = i + n.subtree;
            let c1 = i + 1;
            c1 < end ==> {
                let c2 = c1 + v[c1].subtree;
                let s1 = spec_absorb(stored(w[c1].status));
                &&& w[c1].status is Some
                &&& spec_kid_tick(v, w, i, c1, tc)
                &&& (s1 == Status::Success && c2 < end ==> {
                    let c3 = c2 + v[c2].subtree;
                    &&& w[c2].status is Some
                    &&& r == spec_absorb(stored(w[c2].status))
                    &&& spec_kid_tick(v, w, i, c2, tc)
                    &&& (c3 < end ==> forall|j: int| c3 <= j < end ==> w[j] == v[j])
                })
                &&& (s1 == Status::Failure && c2 < end ==> {
                    let c3 = c2 + v[c2].subtree;
                    if c3 < end {
                        &&& w[c3].status is Some
                        &&& r == spec_absorb(stored(w[c3].status))
                        &&& spec_kid_tick(v, w, i, c3, tc)
                        &&& forall|j: int| c2 <= j < c3 ==> w[j] == v[j]
                    } else {
                        &&& r == Status::Failure
                        &&& forall|j: int| c2 <= j < end ==> w[j] == v[j]
                    }
                })
                &&& (s1 != Status::Success && s1 != Status::Failure ==> r == s1 && forall|j: int|
                    c2 <= j < end ==> w[j] == v[j])
            }
        }),
        0 <= i < v.len(),
        v[i].behave is IfThen,
    ensures
        spec_tick_state(v, w, i, r, tc),
{
    reveal(spec_tick_state);
    reveal(spec_tick_ifthen);
}

/// A node with at least one child has its first child's block directly
/// after it, contained in its own block.
proof fn lemma_first_kid(v: Seq<BehaveNode>, i: int)
    requires
        crate::tree::wf_range(v, 0, v.len() as int),
        0 <= i < v.len(),
        kid_count(v, i + 1, i + v[i].subtree) >= 1,
    ensures
        i + 1 < i + v[i].subtree,
        i + v[i].subtree <= v.len(),
        1 <= v[i + 1].subtree,
        i + 1 + v[i + 1].subtree <= i + v[i].subtree,
{
    let end = i + v[i].subtree;
    if i + 1 >= end {
        assert(kid_count(v, i + 1, end) == 0);
        assert(false);
    }
}

/// An if-then node has at least two children: the then child starts
/// inside the subtree.
proof fn lemma_ifthen_kids(v: Seq<BehaveNode>, i: int)
    requires
        crate::tree::wf_range(v, 0, v.len() as int),
        crate::tree::arity_range(v, 0, v.len() as int),
        0 <= i < v.len(),
        v[i].behave is IfThen,
    ensures
        i + 1 < i + v[i].subtree,
        i + 1 + v[i + 1].subtree < i + v[i].subtree,
        i + v[i].subtree <= v.len(),
{
    let end = i + v[i].subtree;
    if i + 1 >= end {
        assert(kid_count(v, i + 1, end) == 0);
        assert(false);
    }
    lemma_kid_bounds(v, i + 1, end, i + 1);
    if i + 1 + v[i + 1].subtree >= end {
        assert(kid_count(v, i + 1, end) == 1 + kid_count(v, i + 1 + v[i + 1].subtree, end));
        assert(kid_count(v, i + 1 + v[i + 1].subtree, end) == 0);
        assert(false);
    }
}

/// One pass of a sequence- or fallback-style child walk: after the child
/// block at `c` was ticked (touching only its own block), the walk facts
/// needed to continue with the next sibling.  `want` is the status that
/// lets the walk advance.
#[verifier::rlimit(100)]
proof fn lemma_loop_step(
    v: Seq<BehaveNode>,
    pre: Seq<BehaveNode>,
    post: Seq<BehaveNode>,
    ii: int,
    gend: int,
    c: int,
    want: Status,
    tc: TickCtx,
)
    requires
        0 <= ii < v.len(),
        gend == ii + v[ii].subtree,
        gend <= v.len(),
        closed_range(v, ii + 1, gend),
        is_kid(v, ii, c),
        v.len() == pre.len(),
        pre.len() == post.len(),
        same_shape(v, pre),
        forall|j: int| 0 <= j < v.len() && !(ii + 1 <= j < c) ==> v[j] == #[trigger] pre[j],
        forall|d: int|
            #[trigger] is_kid(v, ii, d) && d < c ==> pre[d].status == Some(want)
                && spec_child_tick(v, pre, d, tc),
        forall|j: int|
            0 <= j < v.len() && !(c <= j < c + pre[c].subtree) ==> pre[j] == #[trigger] post[j],
        spec_child_tick(pre, post, c, tc),
    ensures
        ii + 1 <= c < gend,
        1 <= v[c].subtree,
        c + v[c].subtree <= gend,
        c + v[c].subtree == gend || is_kid(v, ii, c + v[c].subtree),
        forall|j: int|
            0 <= j < v.len() && !(ii + 1 <= j < c + v[c].subtree) ==> v[j] == #[trigger] post[j],
        forall|j: int| c + v[c].subtree <= j < gend ==> v[j] == #[trigger] post[j],
        forall|d: int|
            #[trigger] is_kid(v, ii, d) && d < c ==> post[d].status == Some(want)
                && spec_child_tick(v, post, d, tc),
        spec_child_tick(v, post, c, tc),
        forall|d: int|
            #[trigger] is_kid(v, ii, d) ==> ii + 1 <= d < gend && (d <= c || d >= c
                + v[c].subtree),
{
    lemma_kid_bounds(v, ii + 1, gend, c);
    lemma_kid_step(v, ii + 1, gend, c);
    lemma_kid_separation(v, ii + 1, gend, c);
    assert(pre[c].subtree == v[c].subtree);
    assert forall|d: int| #[trigger] is_kid(v, ii, d) && d < c implies post[d].status == Some(
        want,
    ) && spec_child_tick(v, post, d, tc) by {
        lemma_kid_bounds(v, ii + 1, gend, d);
        assert(post[d] == pre[d]);
        lemma_child_tick_stable(v, v, pre, post, d, tc);
    }
    assert(spec_child_tick(v, post, c, tc)) by {
        assert forall|j: int| c <= j < c + pre[c].subtree implies v[j] == pre[j] && post[j]
            == post[j] by {}
        lemma_child_tick_stable(pre, v, post, post, c, tc);
    }
    assert forall|d: int| #[trigger] is_kid(v, ii, d) implies ii + 1 <= d < gend && (d <= c || d
        >= c + v[c].subtree) by {
        assert(is_kid_from(v, ii + 1, gend, d));
    }
}

/// What one `tick_node` call on the block at `c` establishes, folded into
/// the child relation its parent states.
#[verifier::rlimit(100)]
proof fn lemma_into_child_tick(
    pre: Seq<BehaveNode>,
    post: Seq<BehaveNode>,
    c: int,
    r: Status,
    tc: TickCtx,
)
    requires
        0 <= c < pre.len(),
        pre.len() == post.len(),
        post[c].status == Some(r),
        terminal_opt(pre[c].status) ==> post == pre && Some(r) == pre[c].status,
        !terminal_opt(pre[c].status) ==> spec_tick_state(spec_pretick(pre, c), post, c, r, tc),
    ensures
        spec_child_tick(pre, post, c, tc),
{
    assert(post[c].status is Some);
    if terminal_opt(pre[c].status) {
        assert(post[c].status == pre[c].status);
    } else {
        assert(stored(post[c].status) == r);
        assert(spec_tick_state(spec_pretick(pre, c), post, c, stored(post[c].status), tc));
    }
    assert(spec_child_tick(pre, post, c, tc)) by {
        reveal(spec_child_tick);
    }
}

/// Assembles a while tick's relation once its condition succeeded and its
/// body child was ticked: `mid1` is the state after the condition, `w` the
/// final state with the node's own status stored.
#[verifier::rlimit(100)]
proof fn lemma_while_finish(
    v: Seq<BehaveNode>,
    mid1: Seq<BehaveNode>,
    w: Seq<BehaveNode>,
    ii: int,
    r2: Status,
    tc: TickCtx,
)
    requires
        v.len() == mid1.len(),
        mid1.len() == w.len(),
        0 <= ii < v.len(),
        ii + v[ii].subtree <= v.len(),
        crate::tree::wf_range(v, 0, v.len() as int),
        v[ii].behave is While,
        ii + 1 < ii + v[ii].subtree,
        ii + 1 + v[ii + 1].subtree < ii + v[ii].subtree,
        same_shape(v, mid1),
        same_shape(mid1, w),
        forall|j: int|
            0 <= j < v.len() && !(ii + 1 <= j < ii + 1 + v[ii + 1].subtree) ==> v[j]
                == #[trigger] mid1[j],
        spec_child_tick(v, mid1, ii + 1, tc),
        spec_absorb(stored(mid1[ii + 1].status)) == Status::Success,
        forall|j: int|
            0 <= j < v.len() && !(ii + 1 + v[ii + 1].subtree <= j < ii + 1 + v[ii + 1].subtree
                + v[ii + 1 + v[ii + 1].subtree].subtree) && j != ii ==> mid1[j] == #[trigger] w[j],
        spec_child_tick(mid1, w, ii + 1 + v[ii + 1].subtree, tc),
        w[ii].status == Some(r2),
        spec_absorb(stored(w[ii + 1 + v[ii + 1].subtree].status)) == Status::Success ==> r2
            == Status::PendingReset,
        spec_absorb(stored(w[ii + 1 + v[ii + 1].subtree].status)) != Status::Success ==> r2
            == spec_absorb(stored(w[ii + 1 + v[ii + 1].subtree].status)),
    ensures
        spec_tick_state(v, w, ii, r2, tc),
{
    let c1 = ii + 1;
    let c2 = c1 + v[c1].subtree;
    assert(c1 + v[c1].subtree <= ii + v[ii].subtree);
    assert(c2 + v[c2].subtree <= ii + v[ii].subtree);
    assert(w[c1].status == mid1[c1].status);
    lemma_child_tick_stable(v, v, mid1, w, c1, tc);
    assert(spec_kid_tick(v, w, ii, c1, tc));
    lemma_child_tick_stable(mid1, v, w, w, c2, tc);
    assert(spec_kid_tick(v, w, ii, c2, tc));
    lemma_while_intro(v, w, ii, r2, tc);
}

/// Assembles an if-then tick's relation once its condition finished and
/// the routed branch child at `b` was ticked by [`BehaveTree::tick_branch_of`]:
/// `mid1` is the state after the condition, `w` the final state.
#[verifier::rlimit(100)]
proof fn lemma_ifthen_finish(
    v: Seq<BehaveNode>,
    mid1: Seq<BehaveNode>,
    w: Seq<BehaveNode>,
    ii: int,
    b: int,
    r: Status,
    tc: TickCtx,
)
    requires
        v.len() == mid1.len(),
        mid1.len() == w.len(),
        0 <= ii < v.len(),
        ii + v[ii].subtree <= v.len(),
        crate::tree::wf_range(v, 0, v.len() as int),
        v[ii].behave is IfThen,
        ii + 1 < ii + v[ii].subtree,
        ii + 1 + v[ii + 1].subtree < ii + v[ii].subtree,
        same_shape(v, mid1),
        same_shape(mid1, w),
        forall|j: int|
            0 <= j < v.len() && !(ii + 1 <= j < ii + 1 + v[ii + 1].subtree) ==> v[j]
                == #[trigger] mid1[j],
        spec_child_tick(v, mid1, ii + 1, tc),
        spec_absorb(stored(mid1[ii + 1].status)) == Status::Success ==> b == ii + 1 + v[ii
            + 1].subtree,
        spec_absorb(stored(mid1[ii + 1].status)) == Status::Failure ==> b == ii + 1 + v[ii
            + 1].subtree + v[ii + 1 + v[ii + 1].subtree].subtree && b < ii + v[ii].subtree,
        spec_absorb(stored(mid1[ii + 1].status)) == Status::Success || spec_absorb(
            stored(mid1[ii + 1].status),
        ) == Status::Failure,
        b + v[b].subtree <= ii + v[ii].subtree,
        forall|j: int|
            0 <= j < v.len() && !(b <= j < b + v[b].subtree) && j != ii ==> mid1[j]
                == #[trigger] w[j],
        spec_child_tick(mid1, w, b, tc),
        w[ii].status == Some(r),
        r == spec_absorb(stored(w[b].status)),
    ensures
        spec_tick_state(v, w, ii, r, tc),
{
    let c1 = ii + 1;
    let c2 = c1 + v[c1].subtree;
    assert(c1 + v[c1].subtree <= ii + v[ii].subtree);
    assert(b + v[b].subtree <= ii + v[ii].subtree);
    assert(w[c1].status == mid1[c1].status);
    lemma_child_tick_stable(v, v, mid1, w, c1, tc);
    assert(spec_kid_tick(v, w, ii, c1, tc));
    lemma_child_tick_stable(mid1, v, w, w, b, tc);
    assert(spec_kid_tick(v, w, ii, b, tc));
    lemma_ifthen_intro(v, w, ii, r, tc);
}

/// Assembles a while tick's relation for the exits that tick no body:
/// `m` is the state after the condition, `w` the final state.
#[verifier::rlimit(100)]
proof fn lemma_while_settled(
    v: Seq<BehaveNode>,
    m: Seq<BehaveNode>,
    w: Seq<BehaveNode>,
    ii: int,
    r0: Status,
    tc: TickCtx,
)
    requires
        v.len() == m.len(),
        m.len() == w.len(),
        0 <= ii < v.len(),
        ii + v[ii].subtree <= v.len(),
        v[ii].behave is While,
        ii + 1 < ii + v[ii].subtree,
        ii + 1 + v[ii + 1].subtree <= ii + v[ii].subtree,
        same_shape(v, w),
        forall|j: int|
            0 <= j < v.len() && !(ii + 1 <= j < ii + 1 + v[ii + 1].subtree) ==> v[j]
                == #[trigger] m[j],
        forall|j: int| 0 <= j < v.len() && j != ii ==> m[j] == #[trigger] w[j],
        spec_child_tick(v, w, ii + 1, tc),
        spec_kid_tick(v, w, ii, ii + 1, tc),
        w[ii].status == Some(r0),
        ({
            let s1 = spec_absorb(stored(w[ii + 1].status));
            &&& (s1 == Status::Failure ==> r0 == Status::Failure)
            &&& (s1 == Status::Success ==> r0 == Status::PendingReset && ii + 1 + v[ii
                + 1].subtree >= ii + v[ii].subtree)
            &&& (s1 != Status::Success && s1 != Status::Failure ==> r0 == s1)
        }),
    ensures
        spec_tick_state(v, w, ii, r0, tc),
{
    let c1 = ii + 1;
    let c2 = c1 + v[c1].subtree;
    assert forall|j: int| c2 <= j < ii + v[ii].subtree implies #[trigger] w[j] == v[j] by {
        assert(m[j] == v[j]);
    }
    lemma_while_intro(v, w, ii, r0, tc);
}

/// Assembles an if-then tick's relation for the exits that tick no branch:
/// `m` is the state after the condition, `w` the final state.
#[verifier::rlimit(100)]
proof fn lemma_ifthen_settled(
    v: Seq<BehaveNode>,
    m: Seq<BehaveNode>,
    w: Seq<BehaveNode>,
    ii: int,
    r0: Status,
    tc: TickCtx,
)
    requires
        v.len() == m.len(),
        m.len() == w.len(),
        0 <= ii < v.len(),
        ii + v[ii].subtree <= v.len(),
        v[ii].behave is IfThen,
        ii + 1 < ii + v[ii].subtree,
        ii + 1 + v[ii + 1].subtree <= ii + v[ii].subtree,
        same_shape(v, w),
        forall|j: int|
            0 <= j < v.len() && !(ii + 1 <= j < ii + 1 + v[ii + 1].subtree) ==> v[j]
                == #[trigger] m[j],
        forall|j: int| 0 <= j < v.len() && j != ii ==> m[j] == #[trigger] w[j],
        spec_child_tick(v, w, ii + 1, tc),
        spec_kid_tick(v, w, ii, ii + 1, tc),
        w[ii].status == Some(r0),
        ({
            let s1 = spec_absorb(stored(w[ii + 1].status));
            &&& s1 != Status::Success
            &&& (s1 == Status::Failure ==> r0 == Status::Failure && ii + 1 + v[ii + 1].subtree
                + v[ii + 1 + v[ii + 1].subtree].subtree >= ii + v[ii].subtree)
            &&& (s1 != Status::Failure ==> r0 == s1)
        }),
    ensures
        spec_tick_state(v, w, ii, r0, tc),
{
    let c1 = ii + 1;
    let c2 = c1 + v[c1].subtree;
    assert forall|j: int| c2 <= j < ii + v[ii].subtree implies #[trigger] w[j] == v[j] by {
        assert(m[j] == v[j]);
    }
    lemma_ifthen_intro(v, w, ii, r0, tc);
}

impl BehaveTree {
    /// Ticks the node at arena index `i` once: evaluates its subtree,
    /// stores and returns the resulting status, and appends the external
    /// work the host must now perform to `effects`.
    ///
    /// A node already terminal returns its stored status with no state
    /// change and no effects.  One marked `PendingReset` first resets its
    /// whole subtree and then evaluates as a fresh node.
    #[verifier::rlimit(100)]
    pub fn tick_node(&mut self, i: usize, tc: &TickCtx, effects: &mut Vec<Effect>) -> (r: Status)
        requires
            old(self).wf(),
            i < old(self)@.len(),
        ensures
            final(self).wf(),
            tick_frame(old(self)@, final(self)@, i as int, r, old(effects)@, final(effects)@),
            terminal_opt(old(self)@[i as int].status) ==> final(self)@ == old(self)@ && Some(r)
                == old(self)@[i as int].status && final(effects)@ == old(effects)@,
            !terminal_opt(old(self)@[i as int].status) ==> spec_tick_state(
                spec_pretick(old(self)@, i as int),
                final(self)@,
                i as int,
                r,
                *tc,
            ),
            !terminal_opt(old(self)@[i as int].status) ==> spec_tick_effects(
                old(self)@,
                final(self)@,
                i as int,
                r,
                *tc,
                old(effects)@,
                final(effects)@,
            ),
            final(self).handle_counter() >= old(self).handle_counter(),
            !terminal_opt(old(self)@[i as int].status) && old(self)@[i as int].behave
                is DynamicEntity && old(self)@[i as int].task is NotStarted ==> started_handle(
                final(self)@[i as int],
            ) == old(self).handle_counter() && (old(self).handle_counter() < u64::MAX
                ==> final(self).handle_counter() == old(self).handle_counter() + 1),
        decreases old(self)@.len() - i, 2int,
    {
        let ghost v = self@;
        let ghost pend = v[i as int].status == Some(Status::PendingReset);
        if matches!(self.nodes[i].status, Some(Status::Success)) {
            return Status::Success;
        }
        if matches!(self.nodes[i].status, Some(Status::Failure)) {
            return Status::Failure;
        }
        if matches!(self.nodes[i].status, Some(Status::PendingReset)) {
            let end = i + self.nodes[i].subtree;
            self.reset_range(i, end);
            proof {
                assert(same_shape(v, self@));
                lemma_wf_same_shape(v, self@);
                assert forall|j: int|
                    0 <= j < self@.len() && (#[trigger] self@[j]).status == Some(
                        Status::PendingReset,
                    ) implies crate::tree::looper(self@[j].behave) by {
                    if i <= j < end {
                        assert(self@[j].status is None);
                    } else {
                        assert(self@[j] == v[j]);
                    }
                }
                assert(self.wf());
            }
        }
        let ghost v1 = self@;
        assert(!terminal_opt(v1[i as int].status));
        if matches!(self.nodes[i].behave, Behave::AlwaysSucceed) {
            self.nodes[i].set_status(Status::Success);
            proof {
                assert(same_shape(v1, self@));
                lemma_wf_same_shape(v1, self@);
                assert(self.wf());
                assert(spec_tick_kind(
                    v1,
                    self@,
                    i as int,
                    Status::Success,
                    *tc,
                    old(effects)@,
                    effects@,
                )) by {
                    reveal(spec_tick_state);
                }
            }
            return Status::Success;
        }
        if matches!(self.nodes[i].behave, Behave::AlwaysFail) {
            self.nodes[i].set_status(Status::Failure);
            proof {
                assert(same_shape(v1, self@));
                lemma_wf_same_shape(v1, self@);
                assert(self.wf());
                assert(spec_tick_kind(
                    v1,
                    self@,
                    i as int,
                    Status::Failure,
                    *tc,
                    old(effects)@,
                    effects@,
                )) by {
                    reveal(spec_tick_state);
                }
            }
            return Status::Failure;
        }
        if matches!(self.nodes[i].behave, Behave::Wait(_)) {
            return self.tick_wait(i, tc, effects);
        }
        if matches!(self.nodes[i].behave, Behave::TriggerReq(_)) {
            return self.tick_trigger_req(i, tc, effects);
        }
        if matches!(self.nodes[i].behave, Behave::DynamicEntity { .. }) {
            return self.tick_dynamic(i, tc, effects);
        }
        if matches!(self.nodes[i].behave, Behave::Invert) {
            return self.tick_invert(i, tc, effects);
        }
        if matches!(self.nodes[i].behave, Behave::Sequence) {
            return self.tick_sequence(i, tc, effects);
        }
        if matches!(self.nodes[i].behave, Behave::Fallback) {
            return self.tick_fallback(i, tc, effects);
        }
        if matches!(self.nodes[i].behave, Behave::IfThen) {
            return self.tick_ifthen(i, tc, effects);
        }
        assert(self@[i as int].behave is Forever || self@[i as int].behave is While);
        let r = if matches!(self.nodes[i].behave, Behave::Forever) {
            self.tick_forever(i, tc, effects)
        } else {
            self.tick_while(i, tc, effects)
        };
        proof {
            let w = self@;
            let ii = i as int;
            let end = ii + v[ii].subtree;
            if pend {
                // a reset ran first: its outcome is exactly the pre-tick
                // state the contract evaluates the node from
                assert(same_shape(v, w));
                assert forall|j: int| 0 <= j < v.len() && !(ii <= j < end) implies v[j]
                    == #[trigger] w[j] by {
                    assert(v1[j] == v[j]);
                }
                assert(tick_frame(v, w, ii, r, old(effects)@, final(effects)@));
                assert(v1 =~= spec_pretick(v, ii));
                assert(spec_tick_state(spec_pretick(v, ii), w, ii, r, *tc));
                assert(spec_tick_effects(v, w, ii, r, *tc, old(effects)@, final(effects)@));
            } else {
                assert(spec_pretick(v, ii) == v);
            }
        }
        r
    }

    /// Ticks a wait leaf: arms the timer on first tick, then succeeds once
    /// the recorded duration has passed, strictly.
    #[verifier::rlimit(100)]
    fn tick_wait(&mut self, i: usize, tc: &TickCtx, effects: &mut Vec<Effect>) -> (r: Status)
        requires
            old(self).wf(),
            i < old(self)@.len(),
            old(self)@[i as int].behave is Wait,
            !terminal_opt(old(self)@[i as int].status),
        ensures
            final(self).wf(),
            final(self).handle_counter() >= old(self).handle_counter(),
            tick_frame(old(self)@, final(self)@, i as int, r, old(effects)@, final(effects)@),
            spec_tick_kind(
                old(self)@,
                final(self)@,
                i as int,
                r,
                *tc,
                old(effects)@,
                final(effects)@,
            ),
    {
        let ghost v = self@;
        let ms = match &self.nodes[i].behave {
            Behave::Wait(ms) => *ms,
            _ => vstd::pervasive::unreached(),
        };
        let r = match self.nodes[i].start_time {
            None => {
                self.nodes[i].start_wait(tc.elapsed_millis);
                Status::Running
            },
            Some(st) => {
                let now = tc.elapsed_millis;
                let expired = now > st && now - st > ms;
                if expired {
                    self.nodes[i].set_status(Status::Success);
                    Status::Success
                } else {
                    self.nodes[i].set_status(Status::RunningTimer);
                    Status::RunningTimer
                }
            },
        };
        proof {
            assert(same_shape(v, self@));
            lemma_wf_same_shape(v, self@);
            assert(self.wf());
            assert(spec_tick_kind(v, self@, i as int, r, *tc, old(effects)@, effects@)) by {
                reveal(spec_tick_state);
                reveal(spec_tick_wait);
            }
        }
        r
    }

    /// Ticks a condition leaf: fires the condition once, then suspends
    /// until the report arrives, then translates the reported outcome.
    #[verifier::rlimit(100)]
    fn tick_trigger_req(&mut self, i: usize, tc: &TickCtx, effects: &mut Vec<Effect>) -> (r:
        Status)
        requires
            old(self).wf(),
            i < old(self)@.len(),
            old(self)@[i as int].behave is TriggerReq,
            !terminal_opt(old(self)@[i as int].status),
        ensures
            final(self).wf(),
            final(self).handle_counter() >= old(self).handle_counter(),
            tick_frame(old(self)@, final(self)@, i as int, r, old(effects)@, final(effects)@),
            spec_tick_kind(
                old(self)@,
                final(self)@,
                i as int,
                r,
                *tc,
                old(effects)@,
                final(effects)@,
            ),
    {
        let ghost v = self@;
        let d = match &self.nodes[i].behave {
            Behave::TriggerReq(d) => *d,
            _ => vstd::pervasive::unreached(),
        };
        let r = match self.nodes[i].trig {
            TriggerTaskStatus::NotTriggered => {
                let ctx = BehaveCtx::new_for_trigger(i, tc);
                effects.push(Effect::FireTrigger { desc: d, ctx });
                self.nodes[i].mark_triggered();
                Status::Running
            },
            TriggerTaskStatus::Triggered => {
                self.nodes[i].set_status(Status::AwaitingTrigger);
                Status::AwaitingTrigger
            },
            TriggerTaskStatus::Complete(b) => {
                let s = if b {
                    Status::Success
                } else {
                    Status::Failure
                };
                self.nodes[i].set_status(s);
                s
            },
        };
        proof {
            assert(same_shape(v, self@));
            lemma_wf_same_shape(v, self@);
            assert(self.wf());
            assert(spec_tick_kind(v, self@, i as int, r, *tc, old(effects)@, effects@)) by {
                reveal(spec_tick_state);
                reveal(spec_tick_trigger);
            }
        }
        r
    }

    /// Ticks a spawn leaf: requests the external task once and stays
    /// running for one grace tick, then suspends until the report arrives,
    /// then translates the reported outcome.
    #[verifier::rlimit(100)]
    fn tick_dynamic(&mut self, i: usize, tc: &TickCtx, effects: &mut Vec<Effect>) -> (r: Status)
        requires
            old(self).wf(),
            i < old(self)@.len(),
            old(self)@[i as int].behave is DynamicEntity,
            !terminal_opt(old(self)@[i as int].status),
        ensures
            final(self).wf(),
            final(self).handle_counter() >= old(self).handle_counter(),
            old(self)@[i as int].task is NotStarted ==> started_handle(final(self)@[i as int])
                == old(self).handle_counter() && (old(self).handle_counter() < u64::MAX
                ==> final(self).handle_counter() == old(self).handle_counter() + 1),
            tick_frame(old(self)@, final(self)@, i as int, r, old(effects)@, final(effects)@),
            spec_tick_kind(
                old(self)@,
                final(self)@,
                i as int,
                r,
                *tc,
                old(effects)@,
                final(effects)@,
            ),
    {
        let ghost v = self@;
        let (name, task) = match &self.nodes[i].behave {
            Behave::DynamicEntity { name, task } => (name.clone(), *task),
            _ => vstd::pervasive::unreached(),
        };
        let r = match self.nodes[i].task {
            EntityTaskStatus::NotStarted => {
                let h = self.next_handle;
                if self.next_handle < u64::MAX {
                    self.next_handle = self.next_handle + 1;
                }
                let ctx = BehaveCtx::new_for_entity(i, tc, h);
                effects.push(Effect::SpawnTask { task, name, ctx });
                self.nodes[i].mark_started(h);
                Status::Running
            },
            EntityTaskStatus::Started(_) => {
                self.nodes[i].set_status(Status::AwaitingTrigger);
                Status::AwaitingTrigger
            },
            EntityTaskStatus::Complete(b) => {
                let s = if b {
                    Status::Success
                } else {
                    Status::Failure
                };
                self.nodes[i].set_status(s);
                s
            },
        };
        proof {
            assert(same_shape(v, self@));
            lemma_wf_same_shape(v, self@);
            assert(self.wf());
            assert(spec_tick_kind(v, self@, i as int, r, *tc, old(effects)@, effects@)) by {
                reveal(spec_tick_state);
                reveal(spec_tick_dynamic);
            }
        }
        r
    }

    /// The children of `i` walk exactly the block-closed interval below it.
    proof fn lemma_kids_interval(self, i: int)
        requires
            self.wf(),
            0 <= i < self@.len(),
        ensures
            i + self@[i].subtree <= self@.len(),
            closed_range(self@, i + 1, i + self@[i].subtree),
    {
        let v = self@;
        let end = i + v[i].subtree;
        assert forall|j: int| i + 1 <= j < end implies 1 <= (#[trigger] v[j].subtree) && j
            + v[j].subtree <= end by {
            assert(1 <= v[j].subtree);
        }
    }

    /// Ticks an invert node: its single child's result with success and
    /// failure swapped.
    #[verifier::rlimit(100)]
    fn tick_invert(&mut self, i: usize, tc: &TickCtx, effects: &mut Vec<Effect>) -> (r: Status)
        requires
            old(self).wf(),
            i < old(self)@.len(),
            old(self)@[i as int].behave is Invert,
            !terminal_opt(old(self)@[i as int].status),
        ensures
            final(self).wf(),
            final(self).handle_counter() >= old(self).handle_counter(),
            tick_frame(old(self)@, final(self)@, i as int, r, old(effects)@, final(effects)@),
            spec_tick_kind(
                old(self)@,
                final(self)@,
                i as int,
                r,
                *tc,
                old(effects)@,
                final(effects)@,
            ),
        decreases old(self)@.len() - i, 1int,
    {
        let ghost v = self@;
        proof {
            self.lemma_kids_interval(i as int);
            if i as int + 1 >= i as int + v[i as int].subtree {
                assert(kid_count(v, i as int + 1, i as int + v[i as int].subtree) == 0);
                assert(false);
            }
        }
        let c = i + 1;
        let s = self.tick_node(c, tc, effects);
        let ghost mid = self@;
        let r = s.absorb().invert();
        self.nodes[i].set_status(r);
        proof {
            assert(same_shape(v, self@));
            lemma_wf_same_shape(v, self@);
            assert(self.wf());
            let ii = i as int;
            let cc = c as int;
            assert(cc + v[cc].subtree <= ii + v[ii].subtree);
            lemma_into_child_tick(v, mid, cc, s, *tc);
            lemma_child_tick_stable(v, v, mid, self@, cc, *tc);
            assert(spec_kid_tick(v, self@, ii, cc, *tc));
            assert(spec_tick_kind(v, self@, ii, r, *tc, old(effects)@, effects@)) by {
                reveal(spec_tick_state);
                reveal(spec_tick_invert);
            }
        }
        r
    }

    /// Ticks a forever node: re-arms its subtree for another run whenever
    /// the child finishes, and never itself reports a terminal status.
    #[verifier::rlimit(100)]
    fn tick_forever(&mut self, i: usize, tc: &TickCtx, effects: &mut Vec<Effect>) -> (r: Status)
        requires
            old(self).wf(),
            i < old(self)@.len(),
            old(self)@[i as int].behave is Forever,
            !terminal_opt(old(self)@[i as int].status),
        ensures
            final(self).wf(),
            final(self).handle_counter() >= old(self).handle_counter(),
            tick_frame(old(self)@, final(self)@, i as int, r, old(effects)@, final(effects)@),
            spec_tick_kind(
                old(self)@,
                final(self)@,
                i as int,
                r,
                *tc,
                old(effects)@,
                final(effects)@,
            ),
        decreases old(self)@.len() - i, 1int,
    {
        let ghost v = self@;
        proof {
            self.lemma_kids_interval(i as int);
            if i as int + 1 >= i as int + v[i as int].subtree {
                assert(kid_count(v, i as int + 1, i as int + v[i as int].subtree) == 0);
                assert(false);
            }
        }
        let c = i + 1;
        let s = self.tick_node(c, tc, effects);
        let ghost mid = self@;
        let r = if s.terminal() {
            Status::PendingReset
        } else {
            s.absorb()
        };
        self.nodes[i].set_status(r);
        proof {
            assert(same_shape(v, self@));
            lemma_wf_same_shape(v, self@);
            assert(self.wf());
            let ii = i as int;
            let cc = c as int;
            assert(cc + v[cc].subtree <= ii + v[ii].subtree);
            lemma_into_child_tick(v, mid, cc, s, *tc);
            lemma_child_tick_stable(v, v, mid, self@, cc, *tc);
            assert(spec_kid_tick(v, self@, ii, cc, *tc));
            assert(spec_tick_kind(v, self@, ii, r, *tc, old(effects)@, effects@)) by {
                reveal(spec_tick_state);
                reveal(spec_tick_forever);
            }
        }
        r
    }

    /// Ticks a sequence node: children run left to right; the first
    /// non-success short-circuits, leaving later siblings untouched; with
    /// no children the sequence succeeds vacuously.
    #[verifier::rlimit(100)]
    fn tick_sequence(&mut self, i: usize, tc: &TickCtx, effects: &mut Vec<Effect>) -> (r: Status)
        requires
            old(self).wf(),
            i < old(self)@.len(),
            old(self)@[i as int].behave is Sequence,
            !terminal_opt(old(self)@[i as int].status),
        ensures
            final(self).wf(),
            final(self).handle_counter() >= old(self).handle_counter(),
            tick_frame(old(self)@, final(self)@, i as int, r, old(effects)@, final(effects)@),
            spec_tick_kind(
                old(self)@,
                final(self)@,
                i as int,
                r,
                *tc,
                old(effects)@,
                final(effects)@,
            ),
        decreases old(self)@.len() - i, 1int,
    {
        let ghost v = self@;
        let ghost ii = i as int;
        let ghost gend = ii + v[ii].subtree;
        proof {
            self.lemma_kids_interval(ii);
        }
        let end = i + self.nodes[i].subtree;
        if i + 1 >= end {
            self.nodes[i].set_status(Status::Success);
            proof {
                assert(same_shape(v, self@));
                lemma_wf_same_shape(v, self@);
                assert(self@ =~= v.update(ii, with_status(v[ii], Status::Success)));
                assert forall|d: int| #[trigger] is_kid(v, ii, d) implies self@[d].status == Some(
                    Status::Success,
                ) by {
                    lemma_kid_bounds(v, ii + 1, gend, d);
                }
                assert(spec_tick_kind(v, self@, ii, Status::Success, *tc, old(effects)@, effects@))
                    by {
                    reveal(spec_tick_state);
                reveal(spec_tick_sequence);
                }
            }
            return Status::Success;
        }
        let mut c = i + 1;
        let mut res = Status::Running;
        let mut done = false;
        let ghost mut wit: int = 0;
        proof {
            assert(is_kid_from(v, ii + 1, gend, ii + 1));
            assert forall|d: int| #[trigger] is_kid(v, ii, d) implies ii + 1 <= d < gend by {
                lemma_kid_bounds(v, ii + 1, gend, d);
            }
        }
        while !done
            invariant
                self.wf(),
                v == old(self)@,
                same_shape(v, self@),
                self.handle_counter() >= old(self).handle_counter(),
                0 <= ii < v.len(),
                v[ii].behave is Sequence,
                !terminal_opt(v[ii].status),
                gend == ii + v[ii].subtree,
                gend <= v.len(),
                end == gend,
                closed_range(v, ii + 1, gend),
                self@[ii] == v[ii],
                extends(old(effects)@, effects@),
                forall|j: int| 0 <= j < v.len() && !(ii + 1 <= j < gend) ==> v[j] == #[trigger] self@[j],
                !done ==> {
                    &&& i + 1 <= c < end
                    &&& is_kid(v, ii, c as int)
                    &&& forall|d: int|
                        #[trigger] is_kid(v, ii, d) && d < c ==> self@[d].status == Some(
                            Status::Success,
                        ) && spec_child_tick(v, self@, d, *tc)
                    &&& forall|j: int| c <= j < gend ==> v[j] == #[trigger] self@[j]
                },
                done ==> res != Status::PendingReset,
                done && res == Status::Success ==> forall|d: int|
                    #[trigger] is_kid(v, ii, d) ==> self@[d].status == Some(Status::Success)
                        && spec_child_tick(v, self@, d, *tc),
                done && res != Status::Success ==> {
                    &&& is_kid(v, ii, wit)
                    &&& self@[wit].status is Some
                    &&& self@[wit].status != Some(Status::Success)
                    &&& spec_absorb(stored(self@[wit].status)) == res
                    &&& spec_child_tick(v, self@, wit, *tc)
                    &&& forall|d: int|
                        #[trigger] is_kid(v, ii, d) && d < wit ==> self@[d].status == Some(
                            Status::Success,
                        ) && spec_child_tick(v, self@, d, *tc)
                    &&& forall|j: int| wit + v[wit].subtree <= j < gend ==> v[j] == #[trigger] self@[j]
                },
            decreases (if done { 0int } else { gend - c + 1 }),
        {
            let ghost pre = self@;
            proof {
                lemma_kid_bounds(v, ii + 1, gend, c as int);
            }
            let s = self.tick_node(c, tc, effects);
            let sa = s.absorb();
            proof {
                assert(self@[c as int].status == Some(s));
                lemma_into_child_tick(pre, self@, c as int, s, *tc);
                lemma_loop_step(v, pre, self@, ii, gend, c as int, Status::Success, *tc);
            }
            if matches!(sa, Status::Success) {
                let next = c + self.nodes[c].subtree;
                proof {
                    assert forall|d: int| #[trigger] is_kid(v, ii, d) && d < next implies
                        self@[d].status == Some(Status::Success) && spec_child_tick(
                        v,
                        self@,
                        d,
                        *tc,
                    ) by {}
                }
                if next >= end {
                    proof {
                        assert(next == gend);
                        assert forall|d: int| #[trigger] is_kid(v, ii, d) implies self@[d].status
                            == Some(Status::Success) && spec_child_tick(v, self@, d, *tc) by {
                            lemma_kid_bounds(v, ii + 1, gend, d);
                        }
                    }
                    res = Status::Success;
                    done = true;
                } else {
                    c = next;
                }
            } else {
                proof {
                    wit = c as int;
                }
                res = sa;
                done = true;
            }
        }
        let ghost preset = self@;
        self.nodes[i].set_status(res);
        proof {
            assert(same_shape(v, self@));
            lemma_wf_same_shape(v, self@);
            assert(self.wf());
            assert forall|d: int| ii + 1 <= d < v.len() implies #[trigger] self@[d]
                == preset[d] by {}
            // the node's own status write leaves every child block as the
            // loop left it
            assert forall|d: int| #[trigger] is_kid(v, ii, d) && spec_child_tick(
                v,
                preset,
                d,
                *tc,
            ) implies spec_child_tick(v, self@, d, *tc) && spec_kid_tick(v, self@, ii, d, *tc) by {
                lemma_kid_bounds(v, ii + 1, gend, d);
                lemma_child_tick_stable(v, v, preset, self@, d, *tc);
            }
            if res != Status::Success {
                assert(is_kid(v, ii, wit));
                assert(ii + 1 <= wit < gend) by {
                    lemma_kid_bounds(v, ii + 1, gend, wit);
                }
                assert(self@[wit].status == preset[wit].status);
            }
            assert(spec_tick_kind(v, self@, ii, res, *tc, old(effects)@, effects@)) by {
                reveal(spec_tick_state);
                reveal(spec_tick_sequence);
            }
        }
        res
    }

    /// Ticks a fallback node: children run left to right; the first
    /// non-failure short-circuits, leaving later siblings untouched; with
    /// no children the fallback succeeds vacuously.
    #[verifier::rlimit(100)]
    fn tick_fallback(&mut self, i: usize, tc: &TickCtx, effects: &mut Vec<Effect>) -> (r: Status)
        requires
            old(self).wf(),
            i < old(self)@.len(),
            old(self)@[i as int].behave is Fallback,
            !terminal_opt(old(self)@[i as int].status),
        ensures
            final(self).wf(),
            final(self).handle_counter() >= old(self).handle_counter(),
            tick_frame(old(self)@, final(self)@, i as int, r, old(effects)@, final(effects)@),
            spec_tick_kind(
                old(self)@,
                final(self)@,
                i as int,
                r,
                *tc,
                old(effects)@,
                final(effects)@,
            ),
        decreases old(self)@.len() - i, 1int,
    {
        let ghost v = self@;
        let ghost ii = i as int;
        let ghost gend = ii + v[ii].subtree;
        proof {
            self.lemma_kids_interval(ii);
        }
        let end = i + self.nodes[i].subtree;
        if i + 1 >= end {
            self.nodes[i].set_status(Status::Success);
            proof {
                assert(same_shape(v, self@));
                lemma_wf_same_shape(v, self@);
                assert(self@ =~= v.update(ii, with_status(v[ii], Status::Success)));
                assert forall|d: int| #[trigger] is_kid(v, ii, d) implies self@[d].status == Some(
                    Status::Success,
                ) by {
                    lemma_kid_bounds(v, ii + 1, gend, d);
                }
                assert(spec_tick_kind(v, self@, ii, Status::Success, *tc, old(effects)@, effects@))
                    by {
                    reveal(spec_tick_state);
                reveal(spec_tick_fallback);
                }
            }
            return Status::Success;
        }
        let mut c = i + 1;
        let mut res = Status::Running;
        let mut done = false;
        let ghost mut wit: int = 0;
        proof {
            assert(is_kid_from(v, ii + 1, gend, ii + 1));
            assert forall|d: int| #[trigger] is_kid(v, ii, d) implies ii + 1 <= d < gend by {
                lemma_kid_bounds(v, ii + 1, gend, d);
            }
        }
        while !done
            invariant
                self.wf(),
                v == old(self)@,
                same_shape(v, self@),
                self.handle_counter() >= old(self).handle_counter(),
                0 <= ii < v.len(),
                v[ii].behave is Fallback,
                !terminal_opt(v[ii].status),
                gend == ii + v[ii].subtree,
                gend <= v.len(),
                end == gend,
                closed_range(v, ii + 1, gend),
                self@[ii] == v[ii],
                extends(old(effects)@, effects@),
                forall|j: int| 0 <= j < v.len() && !(ii + 1 <= j < gend) ==> v[j] == #[trigger] self@[j],
                !done ==> {
                    &&& i + 1 <= c < end
                    &&& is_kid(v, ii, c as int)
                    &&& forall|d: int|
                        #[trigger] is_kid(v, ii, d) && d < c ==> self@[d].status == Some(
                            Status::Failure,
                        ) && spec_child_tick(v, self@, d, *tc)
                    &&& forall|j: int| c <= j < gend ==> v[j] == #[trigger] self@[j]
                },
                done ==> res != Status::PendingReset,
                done && res == Status::Failure ==> forall|d: int|
                    #[trigger] is_kid(v, ii, d) ==> self@[d].status == Some(Status::Failure)
                        && spec_child_tick(v, self@, d, *tc),
                done && res != Status::Failure ==> {
                    &&& is_kid(v, ii, wit)
                    &&& self@[wit].status is Some
                    &&& self@[wit].status != Some(Status::Failure)
                    &&& spec_absorb(stored(self@[wit].status)) == res
                    &&& spec_child_tick(v, self@, wit, *tc)
                    &&& forall|d: int|
                        #[trigger] is_kid(v, ii, d) && d < wit ==> self@[d].status == Some(
                            Status::Failure,
                        ) && spec_child_tick(v, self@, d, *tc)
                    &&& forall|j: int| wit + v[wit].subtree <= j < gend ==> v[j] == #[trigger] self@[j]
                },
            decreases (if done { 0int } else { gend - c + 1 }),
        {
            let ghost pre = self@;
            proof {
                lemma_kid_bounds(v, ii + 1, gend, c as int);
            }
            let s = self.tick_node(c, tc, effects);
            let sa = s.absorb();
            proof {
                assert(self@[c as int].status == Some(s));
                lemma_into_child_tick(pre, self@, c as int, s, *tc);
                lemma_loop_step(v, pre, self@, ii, gend, c as int, Status::Failure, *tc);
            }
            if matches!(sa, Status::Failure) {
                let next = c + self.nodes[c].subtree;
                proof {
                    assert forall|d: int| #[trigger] is_kid(v, ii, d) && d < next implies
                        self@[d].status == Some(Status::Failure) && spec_child_tick(
                        v,
                        self@,
                        d,
                        *tc,
                    ) by {}
                }
                if next >= end {
                    proof {
                        assert(next == gend);
                        assert forall|d: int| #[trigger] is_kid(v, ii, d) implies self@[d].status
                            == Some(Status::Failure) && spec_child_tick(v, self@, d, *tc) by {
                            lemma_kid_bounds(v, ii + 1, gend, d);
                        }
                    }
                    res = Status::Failure;
                    done = true;
                } else {
                    c = next;
                }
            } else {
                proof {
                    wit = c as int;
                }
                res = sa;
                done = true;
            }
        }
        let ghost preset = self@;
        self.nodes[i].set_status(res);
        proof {
            assert(same_shape(v, self@));
            lemma_wf_same_shape(v, self@);
            assert(self.wf());
            assert forall|d: int| ii + 1 <= d < v.len() implies #[trigger] self@[d]
                == preset[d] by {}
            // the node's own status write leaves every child block as the
            // loop left it
            assert forall|d: int| #[trigger] is_kid(v, ii, d) && spec_child_tick(
                v,
                preset,
                d,
                *tc,
            ) implies spec_child_tick(v, self@, d, *tc) && spec_kid_tick(v, self@, ii, d, *tc) by {
                lemma_kid_bounds(v, ii + 1, gend, d);
                lemma_child_tick_stable(v, v, preset, self@, d, *tc);
            }
            if res != Status::Failure {
                assert(is_kid(v, ii, wit));
                assert(ii + 1 <= wit < gend) by {
                    lemma_kid_bounds(v, ii + 1, gend, wit);
                }
                assert(self@[wit].status == preset[wit].status);
            }
            assert(spec_tick_kind(v, self@, ii, res, *tc, old(effects)@, effects@)) by {
                reveal(spec_tick_state);
                reveal(spec_tick_fallback);
            }
        }
        res
    }

    /// Ticks the body child at `b` of the while node `i` after its
    /// condition succeeded: a finished body pass re-arms the subtree.
    #[verifier::rlimit(100)]
    fn tick_while_body(&mut self, i: usize, b: usize, tc: &TickCtx, effects: &mut Vec<Effect>) -> (r:
        Status)
        requires
            old(self).wf(),
            i < old(self)@.len(),
            old(self)@[i as int].behave is While,
            i as int + 1 <= b as int,
            b < old(self)@.len(),
            b + old(self)@[b as int].subtree <= i + old(self)@[i as int].subtree,
        ensures
            final(self).wf(),
            final(self).handle_counter() >= old(self).handle_counter(),
            same_shape(old(self)@, final(self)@),
            extends(old(effects)@, final(effects)@),
            final(self)@[i as int].status == Some(r),
            final(self)@[b as int].status is Some,
            spec_absorb(stored(final(self)@[b as int].status)) == Status::Success ==> r
                == Status::PendingReset,
            spec_absorb(stored(final(self)@[b as int].status)) != Status::Success ==> r
                == spec_absorb(stored(final(self)@[b as int].status)),
            forall|j: int|
                0 <= j < old(self)@.len() && !(b <= j < b + old(self)@[b as int].subtree) && j != i
                    ==> old(self)@[j] == #[trigger] final(self)@[j],
            spec_child_tick(old(self)@, final(self)@, b as int, *tc),
        decreases old(self)@.len() - i, 0int,
    {
        let ghost v = self@;
        let s2r = self.tick_node(b, tc, effects);
        let ghost mid = self@;
        let s2 = s2r.absorb();
        let r = if matches!(s2, Status::Success) {
            Status::PendingReset
        } else {
            s2
        };
        self.nodes[i].set_status(r);
        proof {
            assert(same_shape(v, self@));
            lemma_wf_same_shape(v, self@);
            assert(self.wf());
            lemma_into_child_tick(v, mid, b as int, s2r, *tc);
            lemma_child_tick_stable(v, v, mid, self@, b as int, *tc);
        }
        r
    }

    /// Stores the routing node's own result after its condition child was
    /// ticked, for the paths that tick no further child.  `v` is the state
    /// the enclosing tick started from; only the condition's block has
    /// changed since.
    #[verifier::rlimit(100)]
    fn settle_after_cond(
        &mut self,
        i: usize,
        r0: Status,
        Ghost(v): Ghost<Seq<BehaveNode>>,
        tc: &TickCtx,
    ) -> (r: Status)
        requires
            old(self).wf(),
            i < old(self)@.len(),
            v.len() == old(self)@.len(),
            same_shape(v, old(self)@),
            crate::tree::wf_range(v, 0, v.len() as int),
            i as int + 1 < i as int + v[i as int].subtree,
            i as int + v[i as int].subtree <= v.len(),
            i as int + 1 + v[i as int + 1].subtree <= i as int + v[i as int].subtree,
            forall|j: int|
                0 <= j < v.len() && !(i + 1 <= j < i + 1 + v[i as int + 1].subtree) ==> v[j]
                    == #[trigger] old(self)@[j],
            spec_child_tick(v, old(self)@, i as int + 1, *tc),
            r0 != Status::Success,
            r0 != Status::Failure || spec_absorb(stored(old(self)@[i as int + 1].status))
                == Status::Failure,
            r0 == Status::PendingReset ==> crate::tree::looper(old(self)@[i as int].behave),
        ensures
            final(self).wf(),
            final(self).handle_counter() >= old(self).handle_counter(),
            final(self)@.len() == old(self)@.len(),
            same_shape(v, final(self)@),
            final(self)@[i as int].status == Some(r),
            r == r0,
            forall|j: int|
                0 <= j < v.len() && j != i ==> old(self)@[j] == #[trigger] final(self)@[j],
            spec_kid_tick(v, final(self)@, i as int, i as int + 1, *tc),
            spec_child_tick(v, final(self)@, i as int + 1, *tc),
            forall|j: int|
                0 <= j < v.len() && !(i <= j < i + v[i as int].subtree) ==> v[j]
                    == #[trigger] final(self)@[j],
        decreases old(self)@.len() - i, 0int,
    {
        let ghost mid = self@;
        self.nodes[i].set_status(r0);
        proof {
            let ii = i as int;
            let c1 = ii + 1;
            assert(same_shape(mid, self@));
            lemma_wf_same_shape(mid, self@);
            assert forall|j: int|
                0 <= j < self@.len() && (#[trigger] self@[j]).status == Some(
                    Status::PendingReset,
                ) implies crate::tree::looper(self@[j].behave) by {
                if j != ii {
                    assert(self@[j] == mid[j]);
                }
            }
            assert(self.wf());
            lemma_child_tick_stable(v, v, mid, self@, c1, *tc);
            assert(spec_kid_tick(v, self@, ii, c1, *tc));
        }
        r0
    }

    /// Ticks a while node: the first child is the condition; while it
    /// succeeds the optional body runs, and a completed pass re-arms the
    /// subtree for the next tick; a failed condition fails the while.
    #[verifier::rlimit(100)]
    fn tick_while(&mut self, i: usize, tc: &TickCtx, effects: &mut Vec<Effect>) -> (r: Status)
        requires
            old(self).wf(),
            i < old(self)@.len(),
            old(self)@[i as int].behave is While,
            !terminal_opt(old(self)@[i as int].status),
        ensures
            final(self).wf(),
            final(self).handle_counter() >= old(self).handle_counter(),
            tick_frame(old(self)@, final(self)@, i as int, r, old(effects)@, final(effects)@),
            spec_tick_kind(
                old(self)@,
                final(self)@,
                i as int,
                r,
                *tc,
                old(effects)@,
                final(effects)@,
            ),
        decreases old(self)@.len() - i, 1int,
    {
        let ghost v = self@;
        let ghost ii = i as int;
        let ghost gend = ii + v[ii].subtree;
        proof {
            self.lemma_kids_interval(ii);
            assert(kid_count(v, ii + 1, gend) >= 1);
            lemma_first_kid(v, ii);
        }
        let end = i + self.nodes[i].subtree;
        let c1 = i + 1;
        let s1r = self.tick_node(c1, tc, effects);
        let ghost mid1 = self@;
        let s1 = s1r.absorb();
        proof {
            lemma_into_child_tick(v, mid1, c1 as int, s1r, *tc);
        }
        if !matches!(s1, Status::Success) {
            let r0 = self.settle_after_cond(i, s1, Ghost(v), tc);
            proof {
                lemma_while_settled(v, mid1, self@, ii, r0, *tc);
            }
            return r0;
        }
        let c2 = c1 + self.nodes[c1].subtree;
        if c2 >= end {
            let r0 = self.settle_after_cond(i, Status::PendingReset, Ghost(v), tc);
            proof {
                lemma_while_settled(v, mid1, self@, ii, r0, *tc);
            }
            return r0;
        }
        let r2 = self.tick_while_body(i, c2, tc, effects);
        proof {
            lemma_while_finish(v, mid1, self@, ii, r2, *tc);
        }
        r2
    }

    /// Ticks the branch child whose block starts at `b` on behalf of the
    /// routing node `i`, and stores the absorbed result as `i`'s status.
    #[verifier::rlimit(100)]
    fn tick_branch_of(&mut self, i: usize, b: usize, tc: &TickCtx, effects: &mut Vec<Effect>) -> (r:
        Status)
        requires
            old(self).wf(),
            i < old(self)@.len(),
            i as int + 1 <= b as int,
            b < old(self)@.len(),
            b + old(self)@[b as int].subtree <= i + old(self)@[i as int].subtree,
        ensures
            final(self).wf(),
            final(self).handle_counter() >= old(self).handle_counter(),
            same_shape(old(self)@, final(self)@),
            extends(old(effects)@, final(effects)@),
            final(self)@[i as int].status == Some(r),
            final(self)@[b as int].status is Some,
            r == spec_absorb(stored(final(self)@[b as int].status)),
            r != Status::PendingReset,
            forall|j: int|
                0 <= j < old(self)@.len() && !(b <= j < b + old(self)@[b as int].subtree) && j != i
                    ==> old(self)@[j] == #[trigger] final(self)@[j],
            spec_child_tick(old(self)@, final(self)@, b as int, *tc),
        decreases old(self)@.len() - i, 0int,
    {
        let ghost v = self@;
        let sr = self.tick_node(b, tc, effects);
        let ghost mid = self@;
        let s = sr.absorb();
        self.nodes[i].set_status(s);
        proof {
            assert(same_shape(v, self@));
            lemma_wf_same_shape(v, self@);
            assert(self.wf());
            lemma_into_child_tick(v, mid, b as int, sr, *tc);
            lemma_child_tick_stable(v, v, mid, self@, b as int, *tc);
        }
        s
    }

    /// Ticks an if-then node: the condition's success routes to the then
    /// child, its failure to the else child if present, else the node
    /// fails; a non-terminal condition bubbles up untouched.
    #[verifier::rlimit(100)]
    fn tick_ifthen(&mut self, i: usize, tc: &TickCtx, effects: &mut Vec<Effect>) -> (r: Status)
        requires
            old(self).wf(),
            i < old(self)@.len(),
            old(self)@[i as int].behave is IfThen,
            !terminal_opt(old(self)@[i as int].status),
        ensures
            final(self).wf(),
            final(self).handle_counter() >= old(self).handle_counter(),
            tick_frame(old(self)@, final(self)@, i as int, r, old(effects)@, final(effects)@),
            spec_tick_kind(
                old(self)@,
                final(self)@,
                i as int,
                r,
                *tc,
                old(effects)@,
                final(effects)@,
            ),
        decreases old(self)@.len() - i, 1int,
    {
        let ghost v = self@;
        let ghost ii = i as int;
        let ghost gend = ii + v[ii].subtree;
        proof {
            self.lemma_kids_interval(ii);
            lemma_ifthen_kids(v, ii);
        }
        let end = i + self.nodes[i].subtree;
        let c1 = i + 1;
        let s1r = self.tick_node(c1, tc, effects);
        let ghost mid1 = self@;
        let s1 = s1r.absorb();
        proof {
            assert(c1 as int + v[c1 as int].subtree <= gend);
            lemma_into_child_tick(v, mid1, c1 as int, s1r, *tc);
        }
        let c2 = c1 + self.nodes[c1].subtree;
        if matches!(s1, Status::Success) {
            let r = self.tick_branch_of(i, c2, tc, effects);
            proof {
                assert(c2 as int + v[c2 as int].subtree <= gend);
                lemma_ifthen_finish(v, mid1, self@, ii, c2 as int, r, *tc);
            }
            return r;
        }
        if !matches!(s1, Status::Failure) {
            let r0 = self.settle_after_cond(i, s1, Ghost(v), tc);
            proof {
                lemma_ifthen_settled(v, mid1, self@, ii, r0, *tc);
            }
            return r0;
        }
        let c3 = c2 + self.nodes[c2].subtree;
        if c3 < end {
            let r = self.tick_branch_of(i, c3, tc, effects);
            proof {
                assert(c3 as int + v[c3 as int].subtree <= gend);
                lemma_ifthen_finish(v, mid1, self@, ii, c3 as int, r, *tc);
            }
            r
        } else {
            let r0 = self.settle_after_cond(i, Status::Failure, Ghost(v), tc);
            proof {
                lemma_ifthen_settled(v, mid1, self@, ii, r0, *tc);
            }
            r0
        }
    }

    /// Ticks the whole tree once, starting at the root.  The host performs
    /// the appended effects after the call, and uses [`tree_action`] on the
    /// result to decide whether to keep scheduling the tree.
    ///
    /// [`tree_action`]: crate::status::tree_action
    pub fn tick(&mut self, tc: &TickCtx, effects: &mut Vec<Effect>) -> (r: Status)
        requires
            old(self).wf(),
        ensures
            final(self).wf(),
            tick_frame(old(self)@, final(self)@, 0, r, old(effects)@, final(effects)@),
            terminal_opt(old(self)@[0].status) ==> final(self)@ == old(self)@ && Some(r) == old(
                self,
            )@[0].status && final(effects)@ == old(effects)@,
            !terminal_opt(old(self)@[0].status) ==> spec_tick_state(
                spec_pretick(old(self)@, 0),
                final(self)@,
                0,
                r,
                *tc,
            ),
            !terminal_opt(old(self)@[0].status) ==> spec_tick_effects(
                old(self)@,
                final(self)@,
                0,
                r,
                *tc,
                old(effects)@,
                final(effects)@,
            ),
            final(self).handle_counter() >= old(self).handle_counter(),
            !terminal_opt(old(self)@[0].status) && old(self)@[0].behave is DynamicEntity && old(
                self,
            )@[0].task is NotStarted ==> started_handle(final(self)@[0]) == old(
                self,
            ).handle_counter() && (old(self).handle_counter() < u64::MAX
                ==> final(self).handle_counter() == old(self).handle_counter() + 1),
    {
        self.tick_node(0, tc, effects)
    }
}

} // verus!
