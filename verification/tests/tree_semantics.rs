//! Semantics of the tick engine on concrete trees: composites, leaves,
//! validation, and the suspend/resume protocol.
use behave::ctx::TickCtx;
use behave::report::ProtocolError;
use behave::status::Status;
use behave::template::{Behave, Tree};
use behave::tick::Effect;
use behave::tree::{kind_label, BehaveTree};

fn tc(now: u64) -> TickCtx {
    TickCtx::new(1, 2, now)
}

fn tick(bt: &mut BehaveTree, now: u64) -> (Status, Vec<Effect>) {
    let mut effects: Vec<Effect> = Vec::new();
    let s = bt.tick(&tc(now), &mut effects);
    (s, effects)
}

fn seq(children: Vec<Tree>) -> Tree {
    Tree::node(Behave::Sequence, children)
}

fn ok() -> Tree {
    Tree::leaf(Behave::AlwaysSucceed)
}

fn fail() -> Tree {
    Tree::leaf(Behave::AlwaysFail)
}

#[test]
fn test_empty_control_flow() {
    let tree = seq(vec![]);
    assert!(BehaveTree::verify(&tree));
    assert_eq!(kind_label(&tree.value), "Sequence");
    let mut bt = BehaveTree::new(tree).unwrap();
    assert_eq!(tick(&mut bt, 0).0, Status::Success);

    let tree = Tree::node(Behave::Fallback, vec![]);
    assert!(BehaveTree::verify(&tree));
    assert_eq!(kind_label(&tree.value), "Fallback");
    let mut bt = BehaveTree::new(tree).unwrap();
    assert_eq!(tick(&mut bt, 0).0, Status::Success);
}

#[test]
fn sequence_succeeds_iff_all_children_succeed() {
    let mut bt = BehaveTree::new(seq(vec![ok(), ok(), ok()])).unwrap();
    assert_eq!(tick(&mut bt, 0).0, Status::Success);

    let mut bt = BehaveTree::new(seq(vec![ok(), fail(), ok()])).unwrap();
    assert_eq!(tick(&mut bt, 0).0, Status::Failure);
}

#[test]
fn sequence_stops_at_first_failure() {
    // the third child is a condition; were it evaluated, an effect would
    // be emitted
    let tree = seq(vec![ok(), fail(), Tree::leaf(Behave::trigger(7))]);
    let mut bt = BehaveTree::new(tree).unwrap();
    let (s, effects) = tick(&mut bt, 0);
    assert_eq!(s, Status::Failure);
    assert!(effects.is_empty());
}

#[test]
fn fallback_fails_iff_all_children_fail() {
    let mut bt = BehaveTree::new(Tree::node(Behave::Fallback, vec![fail(), fail()])).unwrap();
    assert_eq!(tick(&mut bt, 0).0, Status::Failure);

    let tree = Tree::node(Behave::Fallback, vec![fail(), ok(), Tree::leaf(Behave::trigger(7))]);
    let mut bt = BehaveTree::new(tree).unwrap();
    let (s, effects) = tick(&mut bt, 0);
    assert_eq!(s, Status::Success);
    assert!(effects.is_empty());
}

#[test]
fn invert_swaps_success_and_failure() {
    let mut bt = BehaveTree::new(Tree::node(Behave::Invert, vec![ok()])).unwrap();
    assert_eq!(tick(&mut bt, 0).0, Status::Failure);

    let mut bt = BehaveTree::new(Tree::node(Behave::Invert, vec![fail()])).unwrap();
    assert_eq!(tick(&mut bt, 0).0, Status::Success);
}

#[test]
fn invert_passes_non_terminal_statuses_through() {
    let tree = Tree::node(Behave::Invert, vec![Tree::leaf(Behave::Wait(1000))]);
    let mut bt = BehaveTree::new(tree).unwrap();
    assert_eq!(tick(&mut bt, 0).0, Status::Running);
    assert_eq!(tick(&mut bt, 500).0, Status::RunningTimer);
}

#[test]
fn forever_never_terminates() {
    let mut bt = BehaveTree::new(Tree::node(Behave::Forever, vec![ok()])).unwrap();
    for k in 0..6u64 {
        let s = tick(&mut bt, k).0;
        assert!(s != Status::Success && s != Status::Failure);
    }
}

#[test]
fn while_fails_when_condition_fails() {
    let tree = Tree::node(Behave::While, vec![fail(), ok()]);
    let mut bt = BehaveTree::new(tree).unwrap();
    assert_eq!(tick(&mut bt, 0).0, Status::Failure);
    // the failure is terminal: repeated ticks return it unchanged
    assert_eq!(tick(&mut bt, 1).0, Status::Failure);
}

#[test]
fn while_loops_while_condition_and_body_succeed() {
    let tree = Tree::node(Behave::While, vec![ok(), ok()]);
    let mut bt = BehaveTree::new(tree).unwrap();
    for k in 0..5u64 {
        let s = tick(&mut bt, k).0;
        assert!(s != Status::Success && s != Status::Failure);
    }
}

#[test]
fn ifthen_routes_on_condition() {
    // condition success routes to "then"
    let mut bt = BehaveTree::new(Tree::node(Behave::IfThen, vec![ok(), fail()])).unwrap();
    assert_eq!(tick(&mut bt, 0).0, Status::Failure);

    // condition failure without an else fails
    let mut bt = BehaveTree::new(Tree::node(Behave::IfThen, vec![fail(), ok()])).unwrap();
    assert_eq!(tick(&mut bt, 0).0, Status::Failure);

    // condition failure with an else routes to "else"
    let mut bt = BehaveTree::new(Tree::node(Behave::IfThen, vec![fail(), fail(), ok()])).unwrap();
    assert_eq!(tick(&mut bt, 0).0, Status::Success);
}

#[test]
fn finished_trees_tick_idempotently() {
    let tree = seq(vec![ok(), Tree::leaf(Behave::trigger(7))]);
    let mut bt = BehaveTree::new(tree).unwrap();
    let (s1, e1) = tick(&mut bt, 0);
    assert_eq!(s1, Status::Running);
    assert_eq!(e1.len(), 1);
    // report success for the condition so the tree finishes
    let Effect::FireTrigger { ctx, .. } = &e1[0] else { panic!() };
    bt.set_node_result(ctx, true).unwrap();
    assert_eq!(tick(&mut bt, 1).0, Status::Success);
    // finished: repeated ticks return the same status and no effects
    for k in 2..6u64 {
        let (s, effects) = tick(&mut bt, k);
        assert_eq!(s, Status::Success);
        assert!(effects.is_empty());
    }
}

#[test]
fn wait_succeeds_strictly_after_duration() {
    let mut bt = BehaveTree::new(Tree::leaf(Behave::Wait(1000))).unwrap();
    assert_eq!(tick(&mut bt, 500).0, Status::Running);
    assert_eq!(tick(&mut bt, 1000).0, Status::RunningTimer);
    assert_eq!(tick(&mut bt, 1500).0, Status::RunningTimer);
    assert_eq!(tick(&mut bt, 1501).0, Status::Success);
}

#[test]
fn construction_rejects_bad_arity_with_one_violation_per_node() {
    // an invert with no child and one with two children
    let t = Tree::node(Behave::Invert, vec![]);
    let vs = BehaveTree::new(t).unwrap_err();
    assert_eq!(vs.len(), 1);
    assert_eq!(vs[0].label, "Invert");
    assert_eq!(vs[0].actual, 0);
    assert_eq!(vs[0].min, 1);
    assert_eq!(vs[0].max, 1);

    let t = Tree::node(Behave::Invert, vec![ok(), ok()]);
    let vs = BehaveTree::new(t).unwrap_err();
    assert_eq!(vs.len(), 1);
    assert_eq!(vs[0].actual, 2);

    // an if-then with one child and one with four children
    let t = Tree::node(Behave::IfThen, vec![ok()]);
    let vs = BehaveTree::new(t).unwrap_err();
    assert_eq!(vs.len(), 1);
    assert_eq!(vs[0].label, "IfThen");
    assert_eq!(vs[0].actual, 1);
    assert_eq!(vs[0].min, 2);
    assert_eq!(vs[0].max, 3);

    let t = Tree::node(Behave::IfThen, vec![ok(), ok(), ok(), ok()]);
    assert!(!BehaveTree::verify(&t));

    // two offending nodes give two violations, in preorder
    let t = seq(vec![Tree::node(Behave::Invert, vec![]), Tree::node(Behave::Forever, vec![])]);
    let vs = BehaveTree::new(t).unwrap_err();
    assert_eq!(vs.len(), 2);
    assert_eq!(vs[0].label, "Invert");
    assert_eq!(vs[1].label, "Forever");
}

#[test]
fn spawned_task_report_is_consumed_once() {
    let mut bt = BehaveTree::new(Tree::leaf(Behave::spawn_named("t".to_string(), 9))).unwrap();
    let (s, effects) = tick(&mut bt, 0);
    assert_eq!(s, Status::Running);
    let Effect::SpawnTask { task, ctx, .. } = &effects[0] else { panic!() };
    assert_eq!(*task, 9);
    let handle = ctx.task_entity().unwrap();
    // synthetic completion while started: the handle comes back exactly once
    assert_eq!(bt.set_node_result(ctx, true).unwrap(), Some(handle));
    assert!(bt.set_node_result(ctx, true).is_err());
    // the next tick translates the stored outcome into the terminal status
    assert_eq!(tick(&mut bt, 1).0, Status::Success);
}

#[test]
fn reports_for_wrong_nodes_are_rejected() {
    // take a condition context from a two-node tree
    let tree = seq(vec![Tree::leaf(Behave::trigger(7))]);
    let mut bt = BehaveTree::new(tree).unwrap();
    let (_, effects) = tick(&mut bt, 0);
    let Effect::FireTrigger { ctx, .. } = &effects[0] else { panic!() };

    // a tree too small for the node id rejects it as unknown
    let mut small = BehaveTree::new(ok()).unwrap();
    assert_eq!(small.set_node_result(ctx, true).unwrap_err(), ProtocolError::UnknownNode);

    // a tree whose node at that id is no condition rejects the kind
    let mut other = BehaveTree::new(seq(vec![ok()])).unwrap();
    assert_eq!(other.set_node_result(ctx, true).unwrap_err(), ProtocolError::NodeKindMismatch);

    // a condition that was never fired is not awaiting a report
    let mut idle = BehaveTree::new(seq(vec![Tree::leaf(Behave::trigger(7))])).unwrap();
    assert_eq!(idle.set_node_result(ctx, true).unwrap_err(), ProtocolError::NotAwaiting);
}

#[test]
fn end_to_end_wait_then_task() {
    // Sequence { Wait(1.0s), SpawnExternalTask }: tick at t=0 arms the
    // wait; at t=1.5s the wait succeeds and the task starts; after a
    // successful report the whole tree succeeds.
    let tree = seq(vec![
        Tree::leaf(Behave::Wait(1000)),
        Tree::leaf(Behave::spawn_named("T".to_string(), 9)),
    ]);
    let mut bt = BehaveTree::new(tree).unwrap();
    let (s, effects) = tick(&mut bt, 0);
    assert_eq!(s, Status::Running);
    assert!(effects.is_empty());
    let (s, effects) = tick(&mut bt, 1500);
    assert_eq!(s, Status::Running);
    assert_eq!(effects.len(), 1);
    let Effect::SpawnTask { ctx, .. } = &effects[0] else { panic!() };
    // one more tick without a report suspends the tree
    let (s, effects) = tick(&mut bt, 1600);
    assert_eq!(s, Status::AwaitingTrigger);
    assert!(effects.is_empty());
    // the completion report arrives; the next tick finishes the tree
    bt.set_node_result(ctx, true).unwrap();
    assert_eq!(tick(&mut bt, 1700).0, Status::Success);
}

#[test]
fn spawn_constructors_build_the_expected_templates() {
    let b = Behave::spawn(5);
    let Behave::DynamicEntity { name, task } = b else { panic!() };
    assert_eq!(name, "unnamed");
    assert_eq!(task, 5);
    let b = Behave::spawn_named("fetch".to_string(), 6);
    assert_eq!(kind_label(&b), "Spawn(fetch)");
    let Behave::DynamicEntity { name, task } = b else { panic!() };
    assert_eq!(name, "fetch");
    assert_eq!(task, 6);
    let (min, max) = Behave::While.permitted_children();
    assert_eq!((min, max), (1, 2));
}
