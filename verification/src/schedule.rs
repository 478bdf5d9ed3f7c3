//! Host-side scheduling policy, as data and decisions: which entity a tree
//! controls, and the bounded drain loop that re-ticks trees within one
//! step until no tree makes further progress.
use vstd::prelude::*;

use crate::status::Status;

verus! {

/// How the host resolves the subject entity a tree controls, once per
/// tick: its direct parent, its root ancestor, or a fixed entity.
#[derive(Copy, Clone, PartialEq, Eq, Structural, Debug)]
pub enum BehaveTargetEntity {
    /// Use the direct parent of the tree's entity.
    Parent,
    /// Use the root ancestor of the tree's entity.
    RootAncestor,
    /// Always use this entity.
    Entity(u64),
}

/// Hard ceiling on drain passes within one scheduling step, so a logic
/// error that would otherwise re-tick forever fails fast instead.
pub const SANITY_LOOP_LIMIT: usize = 1000;

/// Whether a tree's tick result counts as progress for the drain loop: a
/// tree waiting on a timer need not be re-ticked until the clock advances,
/// so timer waits never count.
pub fn counts_as_progress(s: Status) -> (r: bool)
    ensures
        r == (s != Status::RunningTimer),
{
    !matches!(s, Status::RunningTimer)
}

/// The pass counter of one drain step: trees are re-ticked pass after
/// pass until a pass makes no progress or the sanity ceiling is hit.
#[derive(Copy, Clone, PartialEq, Eq, Structural, Debug)]
pub struct DrainGate {
    /// Passes begun during this step.
    pub passes: usize,
}

impl DrainGate {
    /// A fresh gate for one scheduling step.
    pub fn new() -> (r: DrainGate)
        ensures
            r.passes == 0,
    {
        DrainGate { passes: 0 }
    }

    /// Begins one more pass: true while under the sanity ceiling, false
    /// as soon as the ceiling is hit, at which point the host must abort
    /// the step.
    pub fn begin_pass(&mut self) -> (ok: bool)
        ensures
            ok == (old(self).passes < SANITY_LOOP_LIMIT),
            ok ==> final(self).passes == old(self).passes + 1,
            !ok ==> *final(self) == *old(self),
    {
        if self.passes < SANITY_LOOP_LIMIT {
            self.passes = self.passes + 1;
            true
        } else {
            false
        }
    }

    /// Whether another pass should run after one that ticked trees: only
    /// if some tree made progress.
    pub fn continue_after(&self, trees_processed: usize) -> (r: bool)
        ensures
            r == (trees_processed > 0),
    {
        trees_processed > 0
    }
}

} // verus!
