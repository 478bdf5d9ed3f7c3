//! Authored behaviour templates: the immutable description of one node kind
//! with its parameters, the template tree, and the arity validator.
//!
//! External work is named by plain descriptor tokens: the host keeps the
//! mapping from a descriptor to whatever concrete unit of work it spawns or
//! fires, so the tree logic itself never holds host resources.
use vstd::prelude::*;
use vstd::string::StringExecFns;

verus! {

/// A behaviour authored by a user; the template of one tree node without any
/// runtime state.  Durations are in milliseconds of the host clock.
#[derive(Clone, Debug)]
pub enum Behave {
    /// Waits this many milliseconds before succeeding.
    Wait(u64),
    /// Spawns an external task described by the descriptor token, then waits
    /// for it to report a status.  `name` is a display name for diagnostics.
    DynamicEntity {
        /// Display name for the spawned task.
        name: String,
        /// Descriptor token the host resolves to the concrete task to spawn.
        task: u64,
    },
    /// Runs children in order, failing if any fails, succeeding if all do.
    Sequence,
    /// Runs children in order until one succeeds; fails if all fail.
    Fallback,
    /// Inverts success and failure of its single child.
    Invert,
    /// Always succeeds.
    AlwaysSucceed,
    /// Always fails.
    AlwaysFail,
    /// Fires a condition described by the descriptor token and waits for the
    /// reported result.
    TriggerReq(u64),
    /// Loops its single child forever.
    Forever,
    /// Runs the second child in a loop as long as the first child succeeds.
    While,
    /// If the first child succeeds runs the second child, otherwise the
    /// third child if present.
    IfThen,
}

/// The permitted child count range of a node kind, as `(min, max)`.
pub open spec fn spec_permitted_children(b: Behave) -> (usize, usize) {
    match b {
        Behave::Sequence => (0usize, usize::MAX),
        Behave::Fallback => (0usize, usize::MAX),
        Behave::Forever => (1usize, 1usize),
        Behave::While => (1usize, 2usize),
        Behave::IfThen => (2usize, 3usize),
        Behave::Invert => (1usize, 1usize),
        Behave::Wait(_) => (0usize, 0usize),
        Behave::TriggerReq(_) => (0usize, 0usize),
        Behave::DynamicEntity { .. } => (0usize, 0usize),
        Behave::AlwaysSucceed => (0usize, 0usize),
        Behave::AlwaysFail => (0usize, 0usize),
    }
}

/// Whether `n` children are permitted for a node of kind `b`.
pub open spec fn arity_ok(b: Behave, n: nat) -> bool {
    spec_permitted_children(b).0 <= n <= spec_permitted_children(b).1
}

impl Behave {
    /// Creates a spawn-task behaviour from a descriptor token.
    pub fn spawn(task: u64) -> (r: Behave)
        ensures
            ({
                &&& r matches Behave::DynamicEntity { name: n, task: t }
                &&& n@ == "unnamed"@
                &&& t == task
            }),
    {
        Behave::DynamicEntity { name: unnamed_label(), task }
    }

    /// Creates a named spawn-task behaviour from a descriptor token.
    pub fn spawn_named(name: String, task: u64) -> (r: Behave)
        ensures
            r == (Behave::DynamicEntity { name, task }),
    {
        Behave::DynamicEntity { name, task }
    }

    /// Creates a condition behaviour that fires the descriptor token.
    pub fn trigger(desc: u64) -> (r: Behave)
        ensures
            r == Behave::TriggerReq(desc),
    {
        Behave::TriggerReq(desc)
    }

    /// The permitted number of children for this node kind, as `(min, max)`.
    pub fn permitted_children(&self) -> (r: (usize, usize))
        ensures
            r == spec_permitted_children(*self),
    {
        match self {
            Behave::Sequence => (0, usize::MAX),
            Behave::Fallback => (0, usize::MAX),
            Behave::Forever => (1, 1),
            Behave::While => (1, 2),
            Behave::IfThen => (2, 3),
            Behave::Invert => (1, 1),
            Behave::Wait(_) => (0, 0),
            Behave::TriggerReq(_) => (0, 0),
            Behave::DynamicEntity { .. } => (0, 0),
            Behave::AlwaysSucceed => (0, 0),
            Behave::AlwaysFail => (0, 0),
        }
    }
}

fn unnamed_label() -> (r: String)
    ensures
        r@ == "unnamed"@,
{
    let mut s = String::new();
    s.append("unnamed");
    s
}

/// An authored template tree: one behaviour and its child subtrees.
pub struct Tree {
    /// The behaviour at this node.
    pub value: Behave,
    /// The child subtrees, in evaluation order.
    pub children: Vec<Tree>,
}

/// Total number of nodes in a template tree.
pub open spec fn t_count(t: Tree) -> nat
    decreases t,
{
    1 + t_count_seq(t.children@)
}

/// Total number of nodes in a forest of template trees.
pub open spec fn t_count_seq(s: Seq<Tree>) -> nat
    decreases s,
{
    if s.len() == 0 {
        0
    } else {
        t_count(s[0]) + t_count_seq(s.drop_first())
    }
}

/// Every node of the template has a child count its kind permits.
pub open spec fn spec_valid(t: Tree) -> bool
    decreases t,
{
    arity_ok(t.value, t.children@.len()) && spec_valid_seq(t.children@)
}

/// Every node of every tree in the forest has a permitted child count.
pub open spec fn spec_valid_seq(s: Seq<Tree>) -> bool
    decreases s,
{
    if s.len() == 0 {
        true
    } else {
        spec_valid(s[0]) && spec_valid_seq(s.drop_first())
    }
}

impl Tree {
    /// A leaf template node.
    pub fn leaf(value: Behave) -> (r: Tree)
        ensures
            r.value == value,
            r.children@.len() == 0,
    {
        Tree { value, children: Vec::new() }
    }

    /// A template node with the given children.
    pub fn node(value: Behave, children: Vec<Tree>) -> (r: Tree)
        ensures
            r.value == value,
            r.children == children,
    {
        Tree { value, children }
    }
}

} // verus!
