//! Host-style scenarios: a miniature scheduling loop drives trees through
//! effects and status reports, with deferred and drain disciplines.
use behave::ctx::{BehaveCtx, BehaveStatusReport, TickCtx};
use behave::schedule::{counts_as_progress, DrainGate};
use behave::status::{tree_action, Status, TreeAction};
use behave::supervisor::{BehaveInterrupt, BehaveTimeout, InterruptState};
use behave::template::{Behave, Tree};
use behave::tick::Effect;
use behave::tree::BehaveTree;

/// Descriptor for a condition whose observer reports success at once.
const CHECK_TRUE: u64 = 1;
/// Descriptor for the run-once assertion condition.
const RUN_ASSERT: u64 = 2;
/// Descriptor for the counted condition.
const COUNT: u64 = 3;
/// Task descriptor meaning "spawn the nested tree".
const NESTED_TREE_TASK: u64 = 10;

struct SimTree {
    id: u64,
    bt: BehaveTree,
    suspended: bool,
    finished: Option<bool>,
    /// The outer task context to report to when this tree finishes.
    parent_ctx: Option<BehaveCtx>,
}

struct Sim {
    trees: Vec<SimTree>,
    next_id: u64,
    frame: u32,
    /// Reports waiting to be applied.
    inbox: Vec<BehaveStatusReport>,
    /// How often each condition descriptor fired.
    fired: Vec<(u64, u32)>,
    /// Handles released so far.
    released: Vec<u64>,
}

impl Sim {
    fn new() -> Sim {
        Sim { trees: Vec::new(), next_id: 100, frame: 0, inbox: Vec::new(), fired: Vec::new(), released: Vec::new() }
    }

    fn add_tree(&mut self, template: Tree, parent_ctx: Option<BehaveCtx>) -> u64 {
        let id = self.next_id;
        self.next_id += 1;
        let bt = BehaveTree::new(template).expect("valid tree");
        self.trees.push(SimTree { id, bt, suspended: false, finished: None, parent_ctx });
        id
    }

    fn note_fired(&mut self, desc: u64) -> u32 {
        for e in self.fired.iter_mut() {
            if e.0 == desc {
                e.1 += 1;
                return e.1;
            }
        }
        self.fired.push((desc, 1));
        1
    }

    fn fire_count(&self, desc: u64) -> u32 {
        self.fired.iter().find(|e| e.0 == desc).map(|e| e.1).unwrap_or(0)
    }

    /// Handles the effects of one tick: conditions respond at once
    /// (through the inbox), spawn effects create nested trees.
    fn perform_effects(&mut self, effects: Vec<Effect>) {
        for eff in effects {
            match eff {
                Effect::FireTrigger { desc, ctx } => {
                    self.note_fired(desc);
                    // every condition in these scenarios reports success
                    assert!(desc == CHECK_TRUE || desc == RUN_ASSERT || desc == COUNT);
                    self.inbox.push(ctx.success());
                }
                Effect::SpawnTask { task, name: _, ctx } => {
                    assert_eq!(task, NESTED_TREE_TASK);
                    let nested = Tree::leaf(Behave::trigger(CHECK_TRUE));
                    self.add_tree(nested, Some(ctx));
                }
            }
        }
    }

    /// Applies all queued reports; new trees may finish only on a later
    /// tick, but reports un-suspend their tree immediately.
    fn drain_inbox(&mut self) {
        while let Some(report) = self.inbox.pop() {
            let ctx = *report.ctx();
            let outcome = matches!(report, BehaveStatusReport::Success(_));
            let tree = self
                .trees
                .iter_mut()
                .find(|t| t.id == ctx.behave_entity())
                .expect("report for a live tree");
            match tree.bt.set_node_result(&ctx, outcome) {
                Ok(handle) => {
                    tree.suspended = false;
                    if let Some(h) = handle {
                        assert!(!self.released.contains(&h), "handle released twice");
                        self.released.push(h);
                    }
                }
                Err(e) => panic!("protocol violation: {:?}", e),
            }
        }
    }

    /// Ticks every eligible tree once; returns how many counted as
    /// progress.  A finishing nested tree reports to its parent context.
    fn tick_pass(&mut self, now_ms: u64) -> usize {
        let mut progressed = 0;
        let mut produced: Vec<Effect> = Vec::new();
        let mut parent_reports: Vec<BehaveStatusReport> = Vec::new();
        for k in 0..self.trees.len() {
            if self.trees[k].suspended || self.trees[k].finished.is_some() {
                continue;
            }
            let id = self.trees[k].id;
            let tc = TickCtx::new(id, 0, now_ms);
            let mut effects: Vec<Effect> = Vec::new();
            let status = self.trees[k].bt.tick(&tc, &mut effects);
            produced.append(&mut effects);
            match tree_action(status) {
                TreeAction::Suspend => self.trees[k].suspended = true,
                TreeAction::Finish(outcome) => {
                    self.trees[k].finished = Some(outcome);
                    if let Some(ctx) = self.trees[k].parent_ctx {
                        parent_reports.push(if outcome { ctx.success() } else { ctx.failure() });
                    }
                }
                TreeAction::Continue => {}
            }
            if counts_as_progress(status) {
                progressed += 1;
            }
        }
        self.perform_effects(produced);
        self.inbox.extend(parent_reports);
        self.drain_inbox();
        progressed
    }

    fn outer_finished(&self) -> Option<bool> {
        self.trees.first().and_then(|t| t.finished)
    }
}

fn frame_delay_tree() -> Tree {
    Tree::node(
        Behave::Sequence,
        vec![
            Tree::leaf(Behave::trigger(CHECK_TRUE)),
            Tree::leaf(Behave::spawn_named("Nested tree".to_string(), NESTED_TREE_TASK)),
        ],
    )
}

fn run_frame_delays(sync: bool, expected_final_frame: u32) {
    let mut sim = Sim::new();
    sim.add_tree(frame_delay_tree(), None);
    while sim.outer_finished().is_none() {
        sim.frame += 1;
        assert!(sim.frame < 100, "scenario did not finish");
        let now = sim.frame as u64 * 100;
        if sync {
            let mut gate = DrainGate::new();
            loop {
                assert!(gate.begin_pass(), "sanity ceiling hit");
                let progressed = sim.tick_pass(now);
                if !gate.continue_after(progressed) {
                    break;
                }
                if sim.outer_finished().is_some() {
                    break;
                }
            }
        } else {
            sim.tick_pass(now);
        }
    }
    assert_eq!(sim.outer_finished(), Some(true));
    assert_eq!(sim.frame, expected_final_frame, "Mismatch on final frame number");
}

#[test]
fn test_frame_delays_async() {
    run_frame_delays(false, 5);
}

#[test]
fn test_frame_delays_sync() {
    run_frame_delays(true, 1);
}

#[test]
fn test_while_node() {
    // Forever { Sequence { RunAssert, While { AlwaysSucceed, Count } } }:
    // the sequence's first child must run exactly once while the while
    // node's body keeps looping.
    let tree = Tree::node(
        Behave::Forever,
        vec![Tree::node(
            Behave::Sequence,
            vec![
                Tree::leaf(Behave::trigger(RUN_ASSERT)),
                Tree::node(
                    Behave::While,
                    vec![
                        Tree::leaf(Behave::AlwaysSucceed),
                        Tree::leaf(Behave::trigger(COUNT)),
                    ],
                ),
            ],
        )],
    );
    let mut sim = Sim::new();
    sim.add_tree(tree, None);
    let mut frames = 0u32;
    while sim.fire_count(COUNT) < 2 {
        frames += 1;
        assert!(frames < 100, "while body never looped");
        sim.tick_pass(frames as u64 * 100);
        assert_eq!(sim.fire_count(RUN_ASSERT), 1);
    }
    assert_eq!(sim.fire_count(RUN_ASSERT), 1);
}

/// Descriptor for the interrupt probe condition.
const CHECK_INTERRUPT: u64 = 20;
/// Descriptor for the second, inverted interrupt probe condition.
const CHECK_SECOND_INTERRUPT: u64 = 21;
/// Task descriptor of a task that never completes on its own.
const LONG_RUNNING_TASK: u64 = 30;

/// Runs a tree of one long-running guarded task to completion; probe
/// conditions answer according to `answers`: `(desc, outcome)`.
fn run_interrupted(interrupt: BehaveInterrupt, answers: &[(u64, bool)]) -> bool {
    let tree = Tree::leaf(Behave::spawn_named(
        "Long task with interrupt".to_string(),
        LONG_RUNNING_TASK,
    ));
    let mut bt = BehaveTree::new(tree).expect("valid tree");
    let timeout = BehaveTimeout::from_secs(1, false);
    let mut suspended = false;
    let mut finished: Option<bool> = None;
    // set when the task entity exists: its context plus its supervisors
    let mut task: Option<(BehaveCtx, BehaveTimeout, BehaveInterrupt)> = None;
    let mut released: Vec<u64> = Vec::new();
    let mut ints = InterruptState::new();
    let mut frame = 0u32;
    while finished.is_none() {
        frame += 1;
        assert!(frame < 100, "task never ended");
        let now = frame as u64 * 100;
        let mut inbox: Vec<BehaveStatusReport> = Vec::new();
        // supervisors run first, like the plugin schedules them
        if let Some((ctx, tm, ic)) = &task {
            if let Some(outcome) = tm.poll(now) {
                inbox.push(if outcome { ctx.success() } else { ctx.failure() });
            }
            ints.begin_step();
            let mut probe_effects: Vec<Effect> = Vec::new();
            ints.arm(ctx.task_entity().unwrap(), ic, ctx, &mut probe_effects);
            for eff in probe_effects {
                let Effect::FireTrigger { desc, ctx: probe_ctx } = eff else {
                    panic!("probe must be a condition");
                };
                let outcome = answers
                    .iter()
                    .find(|a| a.0 == desc)
                    .expect("answer for probe")
                    .1;
                let report = if outcome { probe_ctx.success() } else { probe_ctx.failure() };
                if let Some((_probe, forced)) = ints.on_response(&report) {
                    if let Some(forced_report) = forced {
                        inbox.push(forced_report);
                    }
                }
            }
        }
        // tick the tree if eligible
        if !suspended && finished.is_none() && inbox.is_empty() {
            let tc = TickCtx::new(1, 0, now);
            let mut effects: Vec<Effect> = Vec::new();
            let status = bt.tick(&tc, &mut effects);
            match tree_action(status) {
                behave::status::TreeAction::Suspend => suspended = true,
                behave::status::TreeAction::Finish(outcome) => finished = Some(outcome),
                behave::status::TreeAction::Continue => {}
            }
            for eff in effects {
                let Effect::SpawnTask { task: desc, name: _, ctx } = eff else {
                    panic!("this tree only spawns");
                };
                assert_eq!(desc, LONG_RUNNING_TASK);
                let mut tm = timeout;
                tm.set_start(now);
                task = Some((ctx, tm, interrupt.clone()));
            }
        }
        // deliver reports; a consumed task is torn down
        for report in inbox {
            let ctx = *report.ctx();
            let outcome = matches!(report, BehaveStatusReport::Success(_));
            match bt.set_node_result(&ctx, outcome) {
                Ok(handle) => {
                    suspended = false;
                    if let Some(h) = handle {
                        assert!(!released.contains(&h), "handle released twice");
                        released.push(h);
                        task = None;
                    }
                }
                Err(_) => { /* benign race: task already torn down */ }
            }
        }
    }
    assert_eq!(released.len(), 1, "task must be torn down exactly once");
    finished.unwrap()
}

#[test]
fn test_behave_interrupt() {
    let result = run_interrupted(
        BehaveInterrupt::by_trigger(CHECK_INTERRUPT),
        &[(CHECK_INTERRUPT, true)],
    );
    assert!(result, "long task was not interrupted.");
}

#[test]
fn test_behave_interrupt_inverted() {
    // the first probe keeps failing; the second also fails, but is
    // inverted, so it forces the interrupt
    let result = run_interrupted(
        BehaveInterrupt::by_trigger(CHECK_INTERRUPT).or_not(CHECK_SECOND_INTERRUPT),
        &[(CHECK_INTERRUPT, false), (CHECK_SECOND_INTERRUPT, false)],
    );
    assert!(result, "long task was not interrupted.");
}

#[test]
fn test_timeout_reports_failure_at_deadline() {
    let mut tm = BehaveTimeout::from_secs(1, false);
    tm.set_start(500);
    assert_eq!(tm.poll(500), None);
    assert_eq!(tm.poll(1499), None);
    assert_eq!(tm.poll(1500), Some(false));
    assert_eq!(tm.poll(9000), Some(false));
}

#[test]
fn test_timeout_forces_failure_of_unfinished_task() {
    // a guarded task that never completes: the timeout fires at the
    // deadline and the leaf fails
    let result_holder = run_timeout_scenario();
    assert_eq!(result_holder, Some(false));
}

fn run_timeout_scenario() -> Option<bool> {
    let tree = Tree::leaf(Behave::spawn_named("slow".to_string(), LONG_RUNNING_TASK));
    let mut bt = BehaveTree::new(tree).expect("valid tree");
    let mut suspended = false;
    let mut finished: Option<bool> = None;
    let mut task: Option<(BehaveCtx, BehaveTimeout)> = None;
    let mut frame = 0u32;
    while finished.is_none() && frame < 100 {
        frame += 1;
        let now = frame as u64 * 100;
        let mut inbox: Vec<BehaveStatusReport> = Vec::new();
        if let Some((ctx, tm)) = &task {
            if let Some(outcome) = tm.poll(now) {
                inbox.push(if outcome { ctx.success() } else { ctx.failure() });
            }
        }
        if !suspended && finished.is_none() && inbox.is_empty() {
            let tc = TickCtx::new(1, 0, now);
            let mut effects: Vec<Effect> = Vec::new();
            let status = bt.tick(&tc, &mut effects);
            match tree_action(status) {
                behave::status::TreeAction::Suspend => suspended = true,
                behave::status::TreeAction::Finish(outcome) => finished = Some(outcome),
                behave::status::TreeAction::Continue => {}
            }
            for eff in effects {
                if let Effect::SpawnTask { ctx, .. } = eff {
                    let mut tm = BehaveTimeout::from_secs(1, false);
                    tm.set_start(now);
                    task = Some((ctx, tm));
                }
            }
        }
        for report in inbox {
            let ctx = *report.ctx();
            let outcome = matches!(report, BehaveStatusReport::Success(_));
            if bt.set_node_result(&ctx, outcome).is_ok() {
                suspended = false;
                task = None;
            }
        }
    }
    finished
}
