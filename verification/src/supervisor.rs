//! Timeout and interrupt supervisors: watchers attached to a running
//! external task that can inject a synthetic completion report from
//! outside the tick path.  Both only ever produce the same kind of report
//! an ordinary task would, through the same channel.
use vstd::prelude::*;

use crate::ctx::{BehaveCtx, BehaveStatusReport, TickCtx};
use crate::tick::Effect;

verus! {

/// Reports a fixed outcome once a duration has elapsed, regardless of the
/// underlying task's own state.
#[derive(Copy, Clone, PartialEq, Eq, Structural, Debug)]
pub struct BehaveTimeout {
    /// How long the watched task may run, in milliseconds.
    pub duration_millis: u64,
    /// The outcome to report when the deadline passes.
    pub should_succeed: bool,
    /// Host clock when the watcher was armed, in milliseconds.
    pub start_time: u64,
}

impl BehaveTimeout {
    /// A timeout reporting `should_succeed` once `duration_millis` has
    /// elapsed; armed by [`BehaveTimeout::set_start`].
    pub fn new(duration_millis: u64, should_succeed: bool) -> (r: BehaveTimeout)
        ensures
            r == (BehaveTimeout { duration_millis, should_succeed, start_time: 0 }),
    {
        BehaveTimeout { duration_millis, should_succeed, start_time: 0 }
    }

    /// A timeout counted in whole seconds.
    pub fn from_secs(secs: u64, should_succeed: bool) -> (r: BehaveTimeout)
        requires
            secs * 1000 <= u64::MAX,
        ensures
            r == (BehaveTimeout { duration_millis: (secs * 1000) as u64, should_succeed, start_time: 0 }),
    {
        BehaveTimeout { duration_millis: secs * 1000, should_succeed, start_time: 0 }
    }

    /// Records when the watcher started observing its task.
    pub fn set_start(&mut self, now: u64)
        ensures
            *final(self) == (BehaveTimeout { start_time: now, ..*old(self) }),
    {
        self.start_time = now;
    }

    /// The synthetic outcome to report now, if the deadline has passed:
    /// exactly `should_succeed` once `now` is at or after start plus
    /// duration, and nothing before.
    pub fn poll(&self, now: u64) -> (r: Option<bool>)
        ensures
            r == (if now >= self.start_time + self.duration_millis {
                Some(self.should_succeed)
            } else {
                None::<bool>
            }),
    {
        if now >= self.start_time && now - self.start_time >= self.duration_millis {
            Some(self.should_succeed)
        } else {
            None
        }
    }
}

/// One auxiliary condition an interrupt checks, optionally inverted.
#[derive(Copy, Clone, PartialEq, Eq, Structural, Debug)]
pub struct InterruptTrigger {
    /// Descriptor token of the condition to fire.
    pub desc: u64,
    /// Whether the condition's result is inverted before it is read.
    pub inverted: bool,
}

/// Interrupts a running task with a forced success as soon as any of its
/// conditions (each optionally inverted) reports true.
#[derive(Clone, PartialEq, Eq, Debug)]
pub struct BehaveInterrupt {
    /// The conditions checked every scheduling step, in order.
    pub triggers: Vec<InterruptTrigger>,
}

impl BehaveInterrupt {
    /// Interrupts when the given condition reports success.
    pub fn by_trigger(desc: u64) -> (r: BehaveInterrupt)
        ensures
            r.triggers@ == seq![InterruptTrigger { desc, inverted: false }],
    {
        let mut triggers: Vec<InterruptTrigger> = Vec::new();
        triggers.push(InterruptTrigger { desc, inverted: false });
        BehaveInterrupt { triggers }
    }

    /// Interrupts when `desc` reports failure.
    pub fn by_not(desc: u64) -> (r: BehaveInterrupt)
        ensures
            r.triggers@ == seq![InterruptTrigger { desc, inverted: true }],
    {
        let mut triggers: Vec<InterruptTrigger> = Vec::new();
        triggers.push(InterruptTrigger { desc, inverted: true });
        BehaveInterrupt { triggers }
    }

    /// Also interrupts when `desc` reports success.
    pub fn or(self, desc: u64) -> (r: BehaveInterrupt)
        ensures
            r.triggers@ == self.triggers@.push(InterruptTrigger { desc, inverted: false }),
    {
        let mut triggers = self.triggers;
        triggers.push(InterruptTrigger { desc, inverted: false });
        BehaveInterrupt { triggers }
    }

    /// Also interrupts when `desc` reports failure.
    pub fn or_not(self, desc: u64) -> (r: BehaveInterrupt)
        ensures
            r.triggers@ == self.triggers@.push(InterruptTrigger { desc, inverted: true }),
    {
        let mut triggers = self.triggers;
        triggers.push(InterruptTrigger { desc, inverted: true });
        BehaveInterrupt { triggers }
    }
}

/// What an armed probe remembers: the watched task's own context and
/// whether the probe's answer is inverted.
#[derive(Copy, Clone, PartialEq, Eq, Structural, Debug)]
pub struct InterruptContext {
    /// The context of the task being watched.
    pub ctx: BehaveCtx,
    /// Whether the probe's reported result is inverted before it is read.
    pub inverted: bool,
}

/// Book-keeping for in-flight interrupt probes: each armed condition runs
/// under a short-lived probe token, so that its report is never confused
/// with the watched task's own context.
pub struct InterruptState {
    /// In-flight probes: probe token and what it stands for.
    pub pending: Vec<(u64, InterruptContext)>,
    /// Source of fresh probe tokens.
    pub next_probe: u64,
    /// Watched entities already armed during this scheduling step.
    pub processed: Vec<u64>,
}

/// Whether a probe token is among the pending keys.
pub open spec fn spec_pending_key(p: Seq<(u64, InterruptContext)>, key: u64) -> bool {
    exists|k: int| 0 <= k < p.len() && (#[trigger] p[k]).0 == key
}

impl InterruptState {
    /// No probes in flight.
    pub fn new() -> (r: InterruptState)
        ensures
            r.pending@ == Seq::<(u64, InterruptContext)>::empty(),
            r.processed@ == Seq::<u64>::empty(),
    {
        InterruptState { pending: Vec::new(), next_probe: 0, processed: Vec::new() }
    }

    /// Starts a scheduling step: every watched entity may be armed again.
    pub fn begin_step(&mut self)
        ensures
            final(self).pending == old(self).pending,
            final(self).next_probe == old(self).next_probe,
            final(self).processed@ == Seq::<u64>::empty(),
    {
        self.processed.clear();
    }

    /// Whether the watched entity was already armed during this step.
    pub fn already_armed(&self, entity: u64) -> (r: bool)
        ensures
            r == self.processed@.contains(entity),
    {
        let mut k: usize = 0;
        while k < self.processed.len()
            invariant
                k <= self.processed@.len(),
                forall|j: int| 0 <= j < k ==> self.processed@[j] != entity,
            decreases self.processed@.len() - k,
        {
            if self.processed[k] == entity {
                assert(self.processed@[k as int] == entity);
                return true;
            }
            k = k + 1;
        }
        false
    }

    /// Arms every condition of `interrupt` for one step on behalf of the
    /// task context `ctx` attached to `entity`: each condition gets a
    /// fresh probe token, is remembered in `pending`, and a fire effect is
    /// emitted whose context carries the probe token as its tree identity
    /// and the watched node as its target node.  An entity already armed
    /// this step is not armed again.
    pub fn arm(
        &mut self,
        entity: u64,
        interrupt: &BehaveInterrupt,
        ctx: &BehaveCtx,
        effects: &mut Vec<Effect>,
    )
        requires
            old(self).next_probe as int + interrupt.triggers@.len() <= u64::MAX,
        ensures
            old(self).processed@.contains(entity) ==> *final(self) == *old(self) && final(effects)@
                == old(effects)@,
            !old(self).processed@.contains(entity) ==> {
                &&& final(self).processed@ == old(self).processed@.push(entity)
                &&& final(self).next_probe == old(self).next_probe + interrupt.triggers@.len()
                &&& final(self).pending@.len() == old(self).pending@.len()
                    + interrupt.triggers@.len()
                &&& final(effects)@.len() == old(effects)@.len() + interrupt.triggers@.len()
                &&& forall|k: int| 0 <= k < old(self).pending@.len() ==> final(self).pending@[k]
                    == old(self).pending@[k]
                &&& forall|k: int|
                    0 <= k < interrupt.triggers@.len() ==> {
                        let probe = (old(self).next_probe + k) as u64;
                        let t = interrupt.triggers@[k];
                        &&& #[trigger] final(self).pending@[old(self).pending@.len() + k] == (
                        probe,
                        InterruptContext { ctx: *ctx, inverted: t.inverted },
                        )
                        &&& final(effects)@[old(effects)@.len() + k] == (Effect::FireTrigger {
                            desc: t.desc,
                            ctx: crate::ctx::spec_ctx_for_trigger(
                                ctx.task_node,
                                TickCtx {
                                    bt_entity: probe,
                                    target_entity: ctx.target_entity,
                                    supervisor_entity: ctx.sup_entity,
                                    elapsed_millis: 0,
                                },
                            ),
                        })
                    }
                &&& forall|k: int| 0 <= k < old(effects)@.len() ==> final(effects)@[k] == old(
                    effects,
                )@[k]
            },
    {
        if self.already_armed(entity) {
            return ;
        }
        self.processed.push(entity);
        let ghost pend0 = self.pending@;
        let ghost eff0 = effects@;
        let ghost probe0 = self.next_probe;
        let n = interrupt.triggers.len();
        let mut k: usize = 0;
        while k < n
            invariant
                k <= n,
                n == interrupt.triggers@.len(),
                probe0 + n <= u64::MAX,
                self.next_probe == probe0 + k,
                self.pending@.len() == pend0.len() + k,
                effects@.len() == eff0.len() + k,
                forall|j: int| 0 <= j < pend0.len() ==> self.pending@[j] == pend0[j],
                forall|j: int| 0 <= j < eff0.len() ==> effects@[j] == eff0[j],
                forall|j: int|
                    0 <= j < k ==> {
                        let probe = (probe0 + j) as u64;
                        let t = interrupt.triggers@[j];
                        &&& #[trigger] self.pending@[pend0.len() + j] == (
                        probe,
                        InterruptContext { ctx: *ctx, inverted: t.inverted },
                        )
                        &&& effects@[eff0.len() + j] == (Effect::FireTrigger {
                            desc: t.desc,
                            ctx: crate::ctx::spec_ctx_for_trigger(
                                ctx.task_node,
                                TickCtx {
                                    bt_entity: probe,
                                    target_entity: ctx.target_entity,
                                    supervisor_entity: ctx.sup_entity,
                                    elapsed_millis: 0,
                                },
                            ),
                        })
                    },
                self.processed@ == old(self).processed@.push(entity),
            decreases n - k,
        {
            let t = interrupt.triggers[k];
            let probe = self.next_probe;
            self.next_probe = self.next_probe + 1;
            self.pending.push((probe, InterruptContext { ctx: *ctx, inverted: t.inverted }));
            let probe_tc = TickCtx {
                bt_entity: probe,
                target_entity: ctx.target_entity(),
                supervisor_entity: ctx.supervisor_entity(),
                elapsed_millis: 0,
            };
            let probe_ctx = BehaveCtx::new_for_trigger(ctx.task_node(), &probe_tc);
            effects.push(Effect::FireTrigger { desc: t.desc, ctx: probe_ctx });
            k = k + 1;
        }
    }

    /// Consumes a report addressed to one of the in-flight probes: when
    /// the report's tree identity is a pending probe token, the first
    /// matching probe is removed, and if its (possibly inverted) result is
    /// true, the watched task's own context is forced to report success,
    /// pre-empting whatever the task was doing.  Reports for unknown
    /// probes are ignored.  Returns the consumed probe token and the
    /// forced report to send, if any.
    pub fn on_response(&mut self, report: &BehaveStatusReport) -> (r: Option<
        (u64, Option<BehaveStatusReport>),
    >)
        ensures
            ({
                let key = report.spec_ctx().bt_entity;
                let p = old(self).pending@;
                let k = spec_first_pending(p, key);
                &&& final(self).next_probe == old(self).next_probe
                &&& final(self).processed == old(self).processed
                &&& (!spec_pending_key(p, key) ==> r is None && final(self).pending == old(
                    self,
                ).pending)
                &&& (spec_pending_key(p, key) ==> {
                    &&& final(self).pending@ == p.remove(k)
                    &&& r == Some(
                        (
                            key,
                            if p[k].1.inverted != report.spec_outcome() {
                                Some(BehaveStatusReport::Success(p[k].1.ctx))
                            } else {
                                None::<BehaveStatusReport>
                            },
                        ),
                    )
                })
            }),
    {
        let key = report.ctx().behave_entity();
        let mut k: usize = 0;
        while k < self.pending.len()
            invariant
                k <= self.pending@.len(),
                key == report.spec_ctx().bt_entity,
                self.pending == old(self).pending,
                self.next_probe == old(self).next_probe,
                self.processed == old(self).processed,
                forall|j: int| 0 <= j < k ==> (#[trigger] self.pending@[j]).0 != key,
            decreases self.pending@.len() - k,
        {
            if self.pending[k].0 == key {
                let ghost p = self.pending@;
                let ghost kk = k as int;
                let entry = self.pending.remove(k);
                proof {
                    assert(p[kk].0 == key);
                    assert(spec_pending_key(p, key));
                    lemma_first_pending_at(p, key, kk);
                    assert(self.pending@ == p.remove(kk));
                }
                let should = if entry.1.inverted {
                    !report.outcome()
                } else {
                    report.outcome()
                };
                let forced = if should {
                    Some(entry.1.ctx.success())
                } else {
                    None
                };
                return Some((key, forced));
            }
            k = k + 1;
        }
        proof {
            assert(!spec_pending_key(self.pending@, key));
        }
        None
    }
}

/// The index of the first pending entry carrying `key`.
pub open spec fn spec_first_pending(p: Seq<(u64, InterruptContext)>, key: u64) -> int
    decreases p.len(),
{
    if p.len() == 0 {
        0
    } else if p[0].0 == key {
        0
    } else {
        1 + spec_first_pending(p.drop_first(), key)
    }
}

/// A match at `k` with no earlier match is the first match.
proof fn lemma_first_pending_at(p: Seq<(u64, InterruptContext)>, key: u64, k: int)
    requires
        0 <= k < p.len(),
        p[k].0 == key,
        forall|j: int| 0 <= j < k ==> (#[trigger] p[j]).0 != key,
    ensures
        spec_first_pending(p, key) == k,
    decreases k,
{
    if k > 0 {
        assert(p.drop_first()[k - 1] == p[k]);
        assert forall|j: int| 0 <= j < k - 1 implies (#[trigger] p.drop_first()[j]).0 != key by {
            assert(p.drop_first()[j] == p[j + 1]);
        }
        lemma_first_pending_at(p.drop_first(), key, k - 1);
    }
}

} // verus!
