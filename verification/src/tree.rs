//! The runtime tree: a flat preorder arena of [`BehaveNode`]s with stable
//! indices as node ids.  The subtree of the node at index `i` is the index
//! interval `[i, i + subtree(i))`; the children of `i` are the block starts
//! obtained by walking that interval.
use vstd::prelude::*;

use crate::node::{BehaveNode, EntityTaskStatus, TriggerTaskStatus, spec_initial_node, spec_reset_node, is_initial};
use crate::status::Status;
use crate::template::{Behave, Tree, arity_ok, spec_permitted_children, t_count, t_count_seq, spec_valid, spec_valid_seq};

verus! {

/// Number of child blocks found when walking the interval `[from, end)`,
/// where each block starting at `c` spans `subtree(c)` nodes.
pub open spec fn kid_count(v: Seq<BehaveNode>, from: int, end: int) -> nat
    decreases end - from,
{
    if 0 <= from < end <= v.len() && 1 <= v[from].subtree <= end - from {
        1 + kid_count(v, from + v[from].subtree, end)
    } else {
        0
    }
}

/// Whether `c` is one of the block starts found when walking `[from, end)`.
pub open spec fn is_kid_from(v: Seq<BehaveNode>, from: int, end: int, c: int) -> bool
    decreases end - from,
{
    if 0 <= from < end <= v.len() && 1 <= v[from].subtree <= end - from {
        c == from || is_kid_from(v, from + v[from].subtree, end, c)
    } else {
        false
    }
}

/// Whether `c` is a direct child of the node at `i`.
pub open spec fn is_kid(v: Seq<BehaveNode>, i: int, c: int) -> bool {
    is_kid_from(v, i + 1, i + v[i].subtree, c)
}

/// The nodes in `[a, b)` form well-nested subtree blocks: every subtree is
/// non-empty, stays inside `[a, b)`, and every inner node's subtree stays
/// inside its ancestor's.
pub open spec fn wf_range(v: Seq<BehaveNode>, a: int, b: int) -> bool {
    &&& 0 <= a <= b <= v.len()
    &&& forall|i: int| a <= i < b ==> 1 <= (#[trigger] v[i].subtree) && i + v[i].subtree <= b
    &&& forall|i: int, j: int|
        a <= i < b && i < j < i + (#[trigger] v[i].subtree) ==> j + (#[trigger] v[j].subtree) <= i
            + v[i].subtree
}

/// Every node in `[a, b)` has a child count its kind permits.
pub open spec fn arity_range(v: Seq<BehaveNode>, a: int, b: int) -> bool {
    forall|i: int|
        a <= i < b ==> arity_ok(
            (#[trigger] v[i]).behave,
            kid_count(v, i + 1, i + v[i].subtree),
        )
}

/// A node kind that loops its subtree and may mark itself `PendingReset`.
pub open spec fn looper(b: Behave) -> bool {
    b is Forever || b is While
}

/// The walk of `[from, end)` only depends on the `subtree` fields inside
/// the interval, so it is unchanged between `v` and `w` whenever those
/// agree there.
pub proof fn lemma_walk_same_subtree(v: Seq<BehaveNode>, w: Seq<BehaveNode>, from: int, end: int)
    requires
        v.len() == w.len(),
        forall|k: int| from <= k < end ==> (#[trigger] v[k]).subtree == w[k].subtree,
    ensures
        kid_count(v, from, end) == kid_count(w, from, end),
        forall|c: int| is_kid_from(v, from, end, c) <==> is_kid_from(w, from, end, c),
    decreases end - from,
{
    if 0 <= from < end <= v.len() && 1 <= v[from].subtree <= end - from {
        lemma_walk_same_subtree(v, w, from + v[from].subtree, end);
    }
    assert forall|c: int| is_kid_from(v, from, end, c) <==> is_kid_from(w, from, end, c) by {
        lemma_walk_same_subtree_at(v, w, from, end, c);
    }
}

/// Pointwise form of [`lemma_walk_same_subtree`] for one candidate child.
proof fn lemma_walk_same_subtree_at(
    v: Seq<BehaveNode>,
    w: Seq<BehaveNode>,
    from: int,
    end: int,
    c: int,
)
    requires
        v.len() == w.len(),
        forall|k: int| from <= k < end ==> (#[trigger] v[k]).subtree == w[k].subtree,
    ensures
        is_kid_from(v, from, end, c) <==> is_kid_from(w, from, end, c),
    decreases end - from,
{
    if 0 <= from < end <= v.len() && 1 <= v[from].subtree <= end - from {
        lemma_walk_same_subtree_at(v, w, from + v[from].subtree, end, c);
    }
}

/// Shifting a walk by `off` into another sequence that holds the same nodes
/// preserves the child count and the child positions.
pub proof fn lemma_walk_embed(
    v: Seq<BehaveNode>,
    w: Seq<BehaveNode>,
    off: int,
    from: int,
    end: int,
)
    requires
        0 <= from,
        end <= v.len(),
        0 <= off,
        off + end <= w.len(),
        forall|k: int| from <= k < end ==> #[trigger] w[off + k] == v[k],
    ensures
        kid_count(w, off + from, off + end) == kid_count(v, from, end),
        forall|c: int|
            from <= c < end ==> (is_kid_from(w, off + from, off + end, off + c) <==> is_kid_from(
                v,
                from,
                end,
                c,
            )),
        forall|c: int|
            #[trigger] is_kid_from(w, off + from, off + end, c) ==> from <= c - off < end
                && is_kid_from(v, from, end, c - off),
    decreases end - from,
{
    if 0 <= from < end <= v.len() && 1 <= v[from].subtree <= end - from {
        assert(w[off + from] == v[from]);
        lemma_walk_embed(v, w, off, from + v[from].subtree, end);
    }
    assert forall|c: int|
        #[trigger] is_kid_from(w, off + from, off + end, c) implies from <= c - off < end
        && is_kid_from(v, from, end, c - off) by {
        lemma_walk_embed_at(v, w, off, from, end, c - off);
    }
    assert forall|c: int| from <= c < end implies (is_kid_from(w, off + from, off + end, off + c)
        <==> is_kid_from(v, from, end, c)) by {
        lemma_walk_embed_at(v, w, off, from, end, c);
    }
}

/// Pointwise form of [`lemma_walk_embed`] for one candidate child.
proof fn lemma_walk_embed_at(
    v: Seq<BehaveNode>,
    w: Seq<BehaveNode>,
    off: int,
    from: int,
    end: int,
    c: int,
)
    requires
        0 <= from,
        end <= v.len(),
        0 <= off,
        off + end <= w.len(),
        forall|k: int| from <= k < end ==> #[trigger] w[off + k] == v[k],
    ensures
        is_kid_from(w, off + from, off + end, off + c) <==> is_kid_from(v, from, end, c),
        is_kid_from(w, off + from, off + end, off + c) ==> from <= c < end,
    decreases end - from,
{
    if 0 <= from < end <= v.len() && 1 <= v[from].subtree <= end - from {
        assert(w[off + from] == v[from]);
        lemma_walk_embed_at(v, w, off, from + v[from].subtree, end, c);
    }
}

/// Embedding a well-nested range at an offset keeps it well-nested.
pub proof fn lemma_wf_range_embed(
    v: Seq<BehaveNode>,
    w: Seq<BehaveNode>,
    off: int,
    a: int,
    b: int,
)
    requires
        wf_range(v, a, b),
        0 <= off,
        off + b <= w.len(),
        forall|k: int| a <= k < b ==> #[trigger] w[off + k] == v[k],
    ensures
        wf_range(w, off + a, off + b),
{
    assert forall|i: int| off + a <= i < off + b implies 1 <= (#[trigger] w[i].subtree) && i
        + w[i].subtree <= off + b by {
        assert(w[off + (i - off)] == v[i - off]);
    }
    assert forall|i: int, j: int|
        off + a <= i < off + b && i < j < i + (#[trigger] w[i].subtree) implies j + (
    #[trigger] w[j].subtree) <= i + w[i].subtree by {
        assert(w[off + (i - off)] == v[i - off]);
        assert(w[off + (j - off)] == v[j - off]);
    }
}

/// Embedding a range whose nodes all have permitted child counts keeps
/// those counts permitted.
pub proof fn lemma_arity_embed(v: Seq<BehaveNode>, w: Seq<BehaveNode>, off: int, a: int, b: int)
    requires
        wf_range(v, a, b),
        arity_range(v, a, b),
        0 <= off,
        off + b <= w.len(),
        forall|k: int| a <= k < b ==> #[trigger] w[off + k] == v[k],
    ensures
        arity_range(w, off + a, off + b),
{
    assert forall|i: int| off + a <= i < off + b implies arity_ok(
        (#[trigger] w[i]).behave,
        kid_count(w, i + 1, i + w[i].subtree),
    ) by {
        let i0 = i - off;
        assert(w[off + i0] == v[i0]);
        lemma_walk_embed(v, w, off, i0 + 1, i0 + v[i0].subtree);
    }
}

// ---------------------------------------------------------------------
// The flat preorder model of a template tree.
// ---------------------------------------------------------------------
/// The flat preorder arena a template tree converts to: the root's initial
/// runtime node followed by the flattened children, left to right.
pub open spec fn flat(t: Tree) -> Seq<BehaveNode>
    decreases t,
{
    seq![spec_initial_node(t.value, t_count(t) as usize)] + flat_seq(t.children@)
}

/// The concatenated flat arenas of a forest of template trees.
pub open spec fn flat_seq(s: Seq<Tree>) -> Seq<BehaveNode>
    decreases s,
{
    if s.len() == 0 {
        Seq::empty()
    } else {
        flat(s[0]) + flat_seq(s.drop_first())
    }
}

/// Spec-level content of one arity violation: the offending node's label,
/// its actual child count, and the permitted range.
pub struct ViolV {
    /// Label of the offending node.
    pub label: Seq<char>,
    /// The child count the node actually has.
    pub actual: nat,
    /// Smallest permitted child count.
    pub min: nat,
    /// Largest permitted child count.
    pub max: nat,
}

/// Diagnostic label of a behaviour kind.
pub open spec fn spec_label(b: Behave) -> Seq<char> {
    match b {
        Behave::Wait(_) => "Wait"@,
        Behave::DynamicEntity { name, .. } => "Spawn("@ + name@ + ")"@,
        Behave::Sequence => "Sequence"@,
        Behave::Fallback => "Fallback"@,
        Behave::Invert => "Invert"@,
        Behave::AlwaysSucceed => "AlwaysSucceed"@,
        Behave::AlwaysFail => "AlwaysFail"@,
        Behave::TriggerReq(_) => "Trigger"@,
        Behave::Forever => "Forever"@,
        Behave::While => "While"@,
        Behave::IfThen => "IfThen"@,
    }
}

/// The violation reported for a single template node, if its child count is
/// not permitted.
pub open spec fn spec_viol_here(t: Tree) -> Seq<ViolV> {
    if arity_ok(t.value, t.children@.len()) {
        Seq::empty()
    } else {
        seq![
            ViolV {
                label: spec_label(t.value),
                actual: t.children@.len(),
                min: spec_permitted_children(t.value).0 as nat,
                max: spec_permitted_children(t.value).1 as nat,
            },
        ]
    }
}

/// All arity violations of a template tree, one per offending node, in
/// preorder.
pub open spec fn spec_viols(t: Tree) -> Seq<ViolV>
    decreases t,
{
    spec_viol_here(t) + spec_viols_seq(t.children@)
}

/// All arity violations of a forest, in order.
pub open spec fn spec_viols_seq(s: Seq<Tree>) -> Seq<ViolV>
    decreases s,
{
    if s.len() == 0 {
        Seq::empty()
    } else {
        spec_viols(s[0]) + spec_viols_seq(s.drop_first())
    }
}

// ---------------------------------------------------------------------
// Push and split lemmas for the recursive forest functions.
// ---------------------------------------------------------------------
/// Appending one tree to a forest adds its node count.
pub proof fn lemma_t_count_seq_push(u: Seq<Tree>, x: Tree)
    ensures
        t_count_seq(u.push(x)) == t_count_seq(u) + t_count(x),
    decreases u.len(),
{
    assert(u.push(x).len() == u.len() + 1);
    if u.len() == 0 {
        assert(u.push(x)[0] == x);
        assert(u.push(x).drop_first() =~= Seq::<Tree>::empty());
        assert(t_count_seq(u.push(x)) == t_count(u.push(x)[0]) + t_count_seq(
            u.push(x).drop_first(),
        ));
        assert(t_count_seq(Seq::<Tree>::empty()) == 0);
        assert(t_count_seq(u) == 0);
    } else {
        assert(u.push(x)[0] == u[0]);
        assert(u.push(x).drop_first() =~= u.drop_first().push(x));
        lemma_t_count_seq_push(u.drop_first(), x);
        assert(t_count_seq(u.push(x)) == t_count(u.push(x)[0]) + t_count_seq(
            u.push(x).drop_first(),
        ));
        assert(t_count_seq(u) == t_count(u[0]) + t_count_seq(u.drop_first()));
    }
}

/// Appending one tree to a forest appends its flat arena.
pub proof fn lemma_flat_seq_push(u: Seq<Tree>, x: Tree)
    ensures
        flat_seq(u.push(x)) == flat_seq(u) + flat(x),
    decreases u.len(),
{
    assert(u.push(x).len() == u.len() + 1);
    if u.len() == 0 {
        assert(u.push(x)[0] == x);
        assert(u.push(x).drop_first() =~= Seq::<Tree>::empty());
        assert(flat_seq(u.push(x)) == flat(u.push(x)[0]) + flat_seq(u.push(x).drop_first()));
        assert(flat_seq(Seq::<Tree>::empty()) == Seq::<BehaveNode>::empty());
        assert(flat_seq(u) == Seq::<BehaveNode>::empty());
        assert(flat_seq(u.push(x)) =~= flat_seq(u) + flat(x));
    } else {
        assert(u.push(x)[0] == u[0]);
        assert(u.push(x).drop_first() =~= u.drop_first().push(x));
        lemma_flat_seq_push(u.drop_first(), x);
        assert(flat_seq(u.push(x)) == flat(u.push(x)[0]) + flat_seq(u.push(x).drop_first()));
        assert(flat_seq(u) == flat(u[0]) + flat_seq(u.drop_first()));
        assert(flat_seq(u.push(x)) =~= flat_seq(u) + flat(x));
    }
}

/// Appending one tree to a forest appends its violations.
pub proof fn lemma_viols_seq_push(u: Seq<Tree>, x: Tree)
    ensures
        spec_viols_seq(u.push(x)) == spec_viols_seq(u) + spec_viols(x),
    decreases u.len(),
{
    assert(u.push(x).len() == u.len() + 1);
    if u.len() == 0 {
        assert(u.push(x)[0] == x);
        assert(u.push(x).drop_first() =~= Seq::<Tree>::empty());
        assert(spec_viols_seq(u.push(x)) == spec_viols(u.push(x)[0]) + spec_viols_seq(
            u.push(x).drop_first(),
        ));
        assert(spec_viols_seq(Seq::<Tree>::empty()) == Seq::<ViolV>::empty());
        assert(spec_viols_seq(u) == Seq::<ViolV>::empty());
        assert(spec_viols_seq(u.push(x)) =~= spec_viols_seq(u) + spec_viols(x));
    } else {
        assert(u.push(x)[0] == u[0]);
        assert(u.push(x).drop_first() =~= u.drop_first().push(x));
        lemma_viols_seq_push(u.drop_first(), x);
        assert(spec_viols_seq(u.push(x)) == spec_viols(u.push(x)[0]) + spec_viols_seq(
            u.push(x).drop_first(),
        ));
        assert(spec_viols_seq(u) == spec_viols(u[0]) + spec_viols_seq(u.drop_first()));
        assert(spec_viols_seq(u.push(x)) =~= spec_viols_seq(u) + spec_viols(x));
    }
}

/// A forest's node count splits at any position.
pub proof fn lemma_t_count_seq_split(s: Seq<Tree>, k: int)
    requires
        0 <= k <= s.len(),
    ensures
        t_count_seq(s) == t_count_seq(s.take(k)) + t_count_seq(s.skip(k)),
    decreases k,
{
    if k == 0 {
        assert(s.take(0) =~= Seq::<Tree>::empty());
        assert(s.skip(0) =~= s);
    } else {
        lemma_t_count_seq_split(s, k - 1);
        assert(s.take(k) =~= s.take(k - 1).push(s[k - 1]));
        lemma_t_count_seq_push(s.take(k - 1), s[k - 1]);
        assert(s.skip(k - 1)[0] == s[k - 1]);
        assert(s.skip(k - 1).drop_first() =~= s.skip(k));
    }
}

/// One tree's node count is bounded by the whole forest's.
pub proof fn lemma_t_count_seq_parts(s: Seq<Tree>, k: int)
    requires
        0 <= k < s.len(),
    ensures
        t_count_seq(s.take(k)) + t_count(s[k]) <= t_count_seq(s),
        t_count(s[k]) <= t_count_seq(s),
    decreases s.len(),
{
    lemma_t_count_seq_split(s, k);
    assert(s.skip(k)[0] == s[k]);
    assert(s.skip(k).drop_first() =~= s.skip(k + 1));
    assert(t_count_seq(s.skip(k)) == t_count(s[k]) + t_count_seq(s.skip(k + 1)));
}

/// A template is valid exactly when it reports no violations.
pub proof fn lemma_valid_iff_no_viols(t: Tree)
    ensures
        spec_valid(t) <==> spec_viols(t).len() == 0,
    decreases t_count(t), 0int,
{
    lemma_valid_seq_iff_no_viols(t.children@);
    assert(t_count_seq(t.children@) < t_count(t));
}

/// A forest is valid exactly when it reports no violations.
pub proof fn lemma_valid_seq_iff_no_viols(s: Seq<Tree>)
    ensures
        spec_valid_seq(s) <==> spec_viols_seq(s).len() == 0,
    decreases t_count_seq(s), 1int,
{
    if s.len() > 0 {
        lemma_valid_iff_no_viols(s[0]);
        assert(t_count_seq(s) == t_count(s[0]) + t_count_seq(s.drop_first()));
        lemma_valid_seq_iff_no_viols(s.drop_first());
    }
}

/// Structure of the flat arena of one template tree: its length is the
/// node count, the root block covers everything, the blocks nest, the child
/// walk below the root finds one block per template child, every node
/// starts in its initial runtime state, and a valid template yields
/// permitted child counts throughout.
pub proof fn lemma_flat_wf(t: Tree)
    requires
        t_count(t) <= usize::MAX,
    ensures
        flat(t).len() == t_count(t),
        flat(t)[0] == spec_initial_node(t.value, t_count(t) as usize),
        wf_range(flat(t), 0, flat(t).len() as int),
        kid_count(flat(t), 1, flat(t).len() as int) == t.children@.len(),
        forall|i: int| 0 <= i < flat(t).len() ==> is_initial(#[trigger] flat(t)[i]),
        spec_valid(t) ==> arity_range(flat(t), 0, flat(t).len() as int),
    decreases t_count(t), 0int,
{
    let v = flat(t);
    let y = flat_seq(t.children@);
    let n0 = spec_initial_node(t.value, t_count(t) as usize);
    assert(t_count_seq(t.children@) < t_count(t));
    lemma_flat_seq_wf(t.children@);
    let n = v.len() as int;
    assert(v[0] == n0);
    assert(n == 1 + y.len());
    assert(n0.subtree == t_count(t));
    assert forall|k: int| 0 <= k < y.len() implies #[trigger] v[1 + k] == y[k] by {}
    lemma_wf_range_embed(y, v, 1, 0, y.len() as int);
    lemma_walk_embed(y, v, 1, 0, y.len() as int);
    assert(wf_range(v, 1, n));
    assert(kid_count(v, 1, n) == t.children@.len());
    assert forall|i: int| 0 <= i < n implies 1 <= (#[trigger] v[i].subtree) && i + v[i].subtree
        <= n by {}
    assert(wf_range(v, 0, n));
    assert forall|i: int| 0 <= i < v.len() implies is_initial(#[trigger] v[i]) by {
        if i >= 1 {
            assert(v[1 + (i - 1)] == y[i - 1]);
        }
    }
    if spec_valid(t) {
        lemma_arity_embed(y, v, 1, 0, y.len() as int);
        assert forall|i: int| 0 <= i < n implies arity_ok(
            (#[trigger] v[i]).behave,
            kid_count(v, i + 1, i + v[i].subtree),
        ) by {}
    }
}

/// Structure of the concatenated flat arenas of a forest: its length is the
/// total node count, the blocks nest, the top-level walk finds one block
/// per tree, and every node starts initial.
pub proof fn lemma_flat_seq_wf(s: Seq<Tree>)
    requires
        t_count_seq(s) <= usize::MAX,
    ensures
        flat_seq(s).len() == t_count_seq(s),
        wf_range(flat_seq(s), 0, flat_seq(s).len() as int),
        kid_count(flat_seq(s), 0, flat_seq(s).len() as int) == s.len(),
        forall|i: int| 0 <= i < flat_seq(s).len() ==> is_initial(#[trigger] flat_seq(s)[i]),
        spec_valid_seq(s) ==> arity_range(flat_seq(s), 0, flat_seq(s).len() as int),
    decreases t_count_seq(s), 1int,
{
    if s.len() == 0 {
        assert(flat_seq(s) == Seq::<BehaveNode>::empty());
    } else {
        let v = flat_seq(s);
        let x = flat(s[0]);
        let rest = s.drop_first();
        let y = flat_seq(rest);
        assert(v == x + y);
        assert(t_count_seq(s) == t_count(s[0]) + t_count_seq(rest));
        assert(t_count(s[0]) >= 1);
        lemma_flat_wf(s[0]);
        lemma_flat_seq_wf(rest);
        let m = x.len() as int;
        let n = v.len() as int;
        assert forall|k: int| 0 <= k < m implies #[trigger] v[0 + k] == x[k] by {}
        assert forall|k: int| 0 <= k < y.len() implies #[trigger] v[m + k] == y[k] by {}
        lemma_wf_range_embed(x, v, 0, 0, m);
        lemma_wf_range_embed(y, v, m, 0, y.len() as int);
        assert forall|i: int| 0 <= i < n implies 1 <= (#[trigger] v[i].subtree) && i
            + v[i].subtree <= n by {}
        assert(wf_range(v, 0, n));
        // the walk from 0 first takes the whole block of `x`, then walks `y`
        lemma_walk_embed(y, v, m, 0, y.len() as int);
        assert(v[0] == x[0]);
        assert(v[0].subtree == m);
        assert(kid_count(v, 0, n) == 1 + kid_count(v, m, n));
        assert(kid_count(v, m, n) == rest.len());
        assert forall|i: int| 0 <= i < n implies is_initial(#[trigger] v[i]) by {
            if i < m {
                assert(v[0 + i] == x[i]);
            } else {
                assert(v[m + (i - m)] == y[i - m]);
            }
        }
        if spec_valid_seq(s) {
            assert(spec_valid(s[0]));
            lemma_arity_embed(x, v, 0, 0, m);
            lemma_arity_embed(y, v, m, 0, y.len() as int);
            assert forall|i: int| 0 <= i < n implies arity_ok(
                (#[trigger] v[i]).behave,
                kid_count(v, i + 1, i + v[i].subtree),
            ) by {}
        }
    }
}

// ---------------------------------------------------------------------
// The runtime tree and its builder.
// ---------------------------------------------------------------------
/// One arity violation found while validating a template: the offending
/// node's label, its actual child count, and the permitted range.
#[derive(Clone, Debug)]
pub struct Violation {
    /// Label of the offending node.
    pub label: String,
    /// The child count the node actually has.
    pub actual: usize,
    /// Smallest permitted child count.
    pub min: usize,
    /// Largest permitted child count.
    pub max: usize,
}

impl View for Violation {
    type V = ViolV;

    open spec fn view(&self) -> ViolV {
        ViolV {
            label: self.label@,
            actual: self.actual as nat,
            min: self.min as nat,
            max: self.max as nat,
        }
    }
}

/// Copies a string slice into an owned `String`.
fn str_to_string(s: &str) -> (r: String)
    ensures
        r@ == s@,
{
    let mut r = String::new();
    r.append(s);
    r
}

/// Diagnostic label of a behaviour kind; executable form of [`spec_label`].
pub fn kind_label(b: &Behave) -> (r: String)
    ensures
        r@ == spec_label(*b),
{
    match b {
        Behave::Wait(_) => str_to_string("Wait"),
        Behave::DynamicEntity { name, .. } => {
            let mut r = str_to_string("Spawn(");
            r.append(name.as_str());
            r.append(")");
            r
        },
        Behave::Sequence => str_to_string("Sequence"),
        Behave::Fallback => str_to_string("Fallback"),
        Behave::Invert => str_to_string("Invert"),
        Behave::AlwaysSucceed => str_to_string("AlwaysSucceed"),
        Behave::AlwaysFail => str_to_string("AlwaysFail"),
        Behave::TriggerReq(_) => str_to_string("Trigger"),
        Behave::Forever => str_to_string("Forever"),
        Behave::While => str_to_string("While"),
        Behave::IfThen => str_to_string("IfThen"),
    }
}

/// Number of nodes of a template tree.
fn count_nodes(t: &Tree) -> (c: usize)
    requires
        t_count(*t) <= usize::MAX,
    ensures
        c as nat == t_count(*t),
    decreases t_count(*t),
{
    let n = t.children.len();
    let mut c: usize = 1;
    for k in 0..n
        invariant
            n == t.children@.len(),
            t_count(*t) <= usize::MAX,
            c as nat == 1 + t_count_seq(t.children@.take(k as int)),
    {
        proof {
            lemma_t_count_seq_parts(t.children@, k as int);
            assert(t_count(t.children@[k as int]) < t_count(*t));
        }
        let ck = count_nodes(&t.children[k]);
        proof {
            assert(t.children@.take(k as int + 1) =~= t.children@.take(k as int).push(
                t.children@[k as int],
            ));
            lemma_t_count_seq_push(t.children@.take(k as int), t.children@[k as int]);
        }
        c = c + ck;
    }
    proof {
        assert(t.children@.take(n as int) =~= t.children@);
    }
    c
}

/// Appends all arity violations of the template to `out`, one per
/// offending node, in preorder.
fn collect_viols(t: &Tree, out: &mut Vec<Violation>)
    ensures
        final(out)@.len() == old(out)@.len() + spec_viols(*t).len(),
        forall|k: int| 0 <= k < old(out)@.len() ==> final(out)@[k] == old(out)@[k],
        forall|k: int|
            0 <= k < spec_viols(*t).len() ==> (#[trigger] final(out)@[old(out)@.len() + k])@
                == spec_viols(*t)[k],
    decreases t_count(*t),
{
    let n = t.children.len();
    let (min, max) = t.value.permitted_children();
    if n < min || n > max {
        let v = Violation { label: kind_label(&t.value), actual: n, min, max };
        out.push(v);
    }
    let ghost head = spec_viol_here(*t);
    let ghost base = out@;
    assert(base.len() == old(out)@.len() + head.len());
    assert(forall|k: int| 0 <= k < head.len() ==> (#[trigger] base[old(out)@.len() + k])@
        == head[k]);
    for k in 0..n
        invariant
            n == t.children@.len(),
            out@.len() == base.len() + spec_viols_seq(t.children@.take(k as int)).len(),
            forall|j: int| 0 <= j < base.len() ==> out@[j] == base[j],
            forall|j: int|
                0 <= j < spec_viols_seq(t.children@.take(k as int)).len() ==> (#[trigger] out@[
                base.len() + j])@ == spec_viols_seq(t.children@.take(k as int))[j],
    {
        let ghost pre = out@;
        let ghost done = spec_viols_seq(t.children@.take(k as int));
        let ghost child_vs = spec_viols(t.children@[k as int]);
        proof {
            lemma_t_count_seq_parts(t.children@, k as int);
            assert(t_count(t.children@[k as int]) < t_count(*t));
        }
        collect_viols(&t.children[k], out);
        proof {
            assert(t.children@.take(k as int + 1) =~= t.children@.take(k as int).push(
                t.children@[k as int],
            ));
            lemma_viols_seq_push(t.children@.take(k as int), t.children@[k as int]);
            let next = spec_viols_seq(t.children@.take(k as int + 1));
            assert(next == done + child_vs);
            assert forall|j: int| 0 <= j < base.len() implies out@[j] == base[j] by {
                assert(out@[j] == pre[j]);
            }
            assert forall|j: int| 0 <= j < next.len() implies (#[trigger] out@[base.len() + j])@
                == next[j] by {
                if j < done.len() {
                    assert(out@[base.len() + j] == pre[base.len() + j]);
                } else {
                    assert(out@[pre.len() + (j - done.len())]@ == child_vs[j - done.len()]);
                    assert(base.len() + j == pre.len() + (j - done.len()));
                }
            }
        }
    }
    proof {
        assert(t.children@.take(n as int) =~= t.children@);
        assert(spec_viols(*t) == head + spec_viols_seq(t.children@));
        assert forall|k: int| 0 <= k < old(out)@.len() implies out@[k] == old(out)@[k] by {
            assert(out@[k] == base[k]);
        }
        assert forall|k: int| 0 <= k < spec_viols(*t).len() implies (#[trigger] out@[old(
            out,
        )@.len() + k])@ == spec_viols(*t)[k] by {
            if k < head.len() {
                assert(out@[old(out)@.len() + k] == base[old(out)@.len() + k]);
            } else {
                assert(out@[base.len() + (k - head.len())]@ == spec_viols_seq(t.children@)[k
                    - head.len()]);
                assert(old(out)@.len() + k == base.len() + (k - head.len()));
            }
        }
    }
}

/// Appends the flat preorder arena of the template to `out`, consuming the
/// template.  The ghost copy `t0` of the template carries the measure and
/// the model past the move.
fn flatten(t: Tree, Ghost(t0): Ghost<Tree>, out: &mut Vec<BehaveNode>)
    requires
        t0 == t,
        old(out)@.len() + t_count(t0) <= usize::MAX,
    ensures
        final(out)@ == old(out)@ + flat(t0),
    decreases t_count(t0),
{
    let c = count_nodes(&t);
    let Tree { value, children } = t;
    out.push(BehaveNode::new(value, c));
    let ghost base = out@;
    let mut rest = children;
    let ghost all = rest@;
    let ghost k: int = 0;
    proof {
        assert(base =~= old(out)@ + seq![spec_initial_node(t0.value, t_count(t0) as usize)]);
        assert(flat_seq(all.take(0)) =~= Seq::<BehaveNode>::empty());
        assert(out@ =~= base + flat_seq(all.take(0)));
    }
    while rest.len() > 0
        invariant
            0 <= k <= all.len(),
            rest@ == all.skip(k),
            t0.children@ == all,
            old(out)@.len() + t_count(t0) <= usize::MAX,
            t_count(t0) == 1 + t_count_seq(all),
            base.len() == old(out)@.len() + 1,
            out@ == base + flat_seq(all.take(k)),
        decreases rest@.len(),
    {
        let ghost pre = out@;
        let ch = rest.remove(0);
        proof {
            assert(all.skip(k)[0] == all[k]);
            assert(ch == all[k]);
            assert(rest@ =~= all.skip(k + 1));
            lemma_t_count_seq_parts(all, k);
            assert(t_count(ch) < t_count(t0));
            lemma_flat_seq_len(all.take(k));
            assert(out@.len() == base.len() + t_count_seq(all.take(k)));
        }
        flatten(ch, Ghost(all[k]), out);
        proof {
            assert(all.take(k + 1) =~= all.take(k).push(all[k]));
            lemma_flat_seq_push(all.take(k), all[k]);
            assert(out@ =~= base + flat_seq(all.take(k + 1)));
            k = k + 1;
        }
    }
    proof {
        assert(all.take(k) =~= all);
        assert(out@ =~= old(out)@ + flat(t0));
    }
}

/// The flat arena of a tree is as long as its node count.
pub proof fn lemma_flat_len(t: Tree)
    ensures
        flat(t).len() == t_count(t),
    decreases t_count(t), 0int,
{
    assert(t_count_seq(t.children@) < t_count(t));
    lemma_flat_seq_len(t.children@);
}

/// The flat arena of a forest is as long as its node count.
pub proof fn lemma_flat_seq_len(s: Seq<Tree>)
    ensures
        flat_seq(s).len() == t_count_seq(s),
    decreases t_count_seq(s), 1int,
{
    if s.len() > 0 {
        assert(t_count_seq(s) == t_count(s[0]) + t_count_seq(s.drop_first()));
        assert(t_count(s[0]) >= 1);
        lemma_flat_len(s[0]);
        lemma_flat_seq_len(s.drop_first());
    }
}

/// The main behaviour tree: a flat preorder arena of runtime nodes, plus a
/// counter handing out task handles.  Node ids are arena indices and stay
/// valid across resets.
#[derive(Clone, Debug)]
pub struct BehaveTree {
    pub(crate) nodes: Vec<BehaveNode>,
    pub(crate) next_handle: u64,
}

impl View for BehaveTree {
    type V = Seq<BehaveNode>;

    closed spec fn view(&self) -> Seq<BehaveNode> {
        self.nodes@
    }
}

/// Inside the crate the tree's view is its node vector.
pub(crate) broadcast proof fn lemma_tree_view(t: &BehaveTree)
    ensures
        #[trigger] t@ == t.nodes@,
{
}

/// Inside the crate the handle counter is the `next_handle` field.
pub(crate) broadcast proof fn lemma_tree_counter(t: &BehaveTree)
    ensures
        #[trigger] t.handle_counter() == t.next_handle,
{
}

impl BehaveTree {
    /// The source of task handles: it never decreases, and each spawned
    /// task records the counter's value at the moment it started, so
    /// handles of distinct spawns are distinct.
    pub closed spec fn handle_counter(self) -> u64 {
        self.next_handle
    }

    /// The tree's structural invariant: a non-empty arena whose root block
    /// covers everything, well-nested subtree blocks, a permitted child
    /// count at every node, and the loop-back marker only on looping nodes.
    pub open spec fn wf(self) -> bool {
        &&& self@.len() >= 1
        &&& self@[0].subtree == self@.len()
        &&& wf_range(self@, 0, self@.len() as int)
        &&& arity_range(self@, 0, self@.len() as int)
        &&& forall|i: int|
            0 <= i < self@.len() ==> ((#[trigger] self@[i]).status == Some(Status::PendingReset)
                ==> looper(self@[i].behave))
    }

    /// Checks a template: true exactly when every node's child count is in
    /// its kind's permitted range.
    pub fn verify(tree: &Tree) -> (ok: bool)
        ensures
            ok == spec_valid(*tree),
    {
        let mut vs: Vec<Violation> = Vec::new();
        collect_viols(tree, &mut vs);
        proof {
            lemma_valid_iff_no_viols(*tree);
        }
        vs.len() == 0
    }

    /// Builds the runtime tree from a validated template.  Fails closed: a
    /// template with any node whose child count is outside its kind's range
    /// is rejected with one reported violation per offending node, in
    /// preorder, and is never converted.
    pub fn new(tree: Tree) -> (r: Result<BehaveTree, Vec<Violation>>)
        requires
            t_count(tree) <= usize::MAX,
        ensures
            r is Ok <==> spec_valid(tree),
            r matches Ok(bt) ==> bt@ == flat(tree) && bt.wf() && forall|i: int|
                0 <= i < bt@.len() ==> is_initial(#[trigger] bt@[i]),
            r matches Err(vs) ==> {
                &&& vs@.len() == spec_viols(tree).len()
                &&& vs@.len() > 0
                &&& forall|k: int| 0 <= k < vs@.len() ==> (#[trigger] vs@[k])@ == spec_viols(tree)[k]
            },
    {
        let mut vs: Vec<Violation> = Vec::new();
        collect_viols(&tree, &mut vs);
        proof {
            lemma_valid_iff_no_viols(tree);
        }
        if vs.len() > 0 {
            proof {
                assert forall|k: int| 0 <= k < vs@.len() implies (#[trigger] vs@[k])@
                    == spec_viols(tree)[k] by {
                    assert(vs@[0 + k]@ == spec_viols(tree)[k]);
                }
            }
            Err(vs)
        } else {
            let ghost t0 = tree;
            let mut nodes: Vec<BehaveNode> = Vec::new();
            flatten(tree, Ghost(t0), &mut nodes);
            proof {
                lemma_flat_wf(t0);
            }
            Ok(BehaveTree { nodes, next_handle: 0 })
        }
    }
}

// ---------------------------------------------------------------------
// Shape preservation and child-walk facts used by the tick engine.
// ---------------------------------------------------------------------
/// `w` has the same length and the same immutable parts (behaviour and
/// subtree size) as `v` at every node: only runtime fields differ.
pub open spec fn same_shape(v: Seq<BehaveNode>, w: Seq<BehaveNode>) -> bool {
    &&& w.len() == v.len()
    &&& forall|j: int|
        0 <= j < v.len() ==> (#[trigger] w[j]).behave == v[j].behave && w[j].subtree
            == v[j].subtree
}

/// Everything outside the index interval `[a, b)` is unchanged.
pub open spec fn frame_outside(v: Seq<BehaveNode>, w: Seq<BehaveNode>, a: int, b: int) -> bool {
    forall|j: int| 0 <= j < v.len() && !(a <= j < b) ==> v[j] == #[trigger] w[j]
}

/// `e1` extends `e0`: the old entries are unchanged and in place.
pub open spec fn extends<T>(e0: Seq<T>, e1: Seq<T>) -> bool {
    &&& e1.len() >= e0.len()
    &&& forall|k: int| 0 <= k < e0.len() ==> e0[k] == #[trigger] e1[k]
}

/// Well-nestedness, permitted child counts and child positions carry over
/// to any sequence of the same shape.
pub proof fn lemma_wf_same_shape(v: Seq<BehaveNode>, w: Seq<BehaveNode>)
    requires
        same_shape(v, w),
        wf_range(v, 0, v.len() as int),
        arity_range(v, 0, v.len() as int),
    ensures
        wf_range(w, 0, w.len() as int),
        arity_range(w, 0, w.len() as int),
        forall|i: int, c: int|
            0 <= i < v.len() ==> (#[trigger] is_kid(v, i, c) <==> #[trigger] is_kid(w, i, c)),
{
    let n = v.len() as int;
    assert forall|i: int| 0 <= i < n implies 1 <= (#[trigger] w[i].subtree) && i + w[i].subtree
        <= n by {
        assert(w[i].subtree == v[i].subtree);
    }
    assert forall|i: int, j: int|
        0 <= i < n && i < j < i + (#[trigger] w[i].subtree) implies j + (#[trigger] w[j].subtree)
        <= i + w[i].subtree by {
        assert(w[i].subtree == v[i].subtree);
        assert(w[j].subtree == v[j].subtree);
    }
    assert forall|i: int| 0 <= i < n implies arity_ok(
        (#[trigger] w[i]).behave,
        kid_count(w, i + 1, i + w[i].subtree),
    ) by {
        lemma_walk_same_subtree(v, w, i + 1, i + v[i].subtree);
    }
    assert forall|i: int, c: int| 0 <= i < v.len() implies (#[trigger] is_kid(v, i, c)
        <==> #[trigger] is_kid(w, i, c)) by {
        lemma_walk_same_subtree_at(v, w, i + 1, i + v[i].subtree, c);
    }
}

/// Every child position found by the walk lies inside the walked interval.
pub proof fn lemma_kid_bounds(v: Seq<BehaveNode>, from: int, end: int, c: int)
    requires
        is_kid_from(v, from, end, c),
    ensures
        from <= c < end,
        1 <= v[c].subtree <= end - c,
    decreases end - from,
{
    if 0 <= from < end <= v.len() && 1 <= v[from].subtree <= end - from {
        if c != from {
            lemma_kid_bounds(v, from + v[from].subtree, end, c);
        }
    }
}

/// The interval `[a, b)` is block-closed: every block inside starts a
/// non-empty subtree that ends inside it.
pub open spec fn closed_range(v: Seq<BehaveNode>, a: int, b: int) -> bool {
    forall|j: int| a <= j < b ==> 1 <= (#[trigger] v[j].subtree) && j + v[j].subtree <= b
}

/// After a child's block the walk finds the next child, or the interval
/// ends exactly there.
pub proof fn lemma_kid_step(v: Seq<BehaveNode>, from: int, end: int, c: int)
    requires
        is_kid_from(v, from, end, c),
        closed_range(v, from, end),
    ensures
        c + v[c].subtree == end || is_kid_from(v, from, end, c + v[c].subtree),
    decreases end - from,
{
    if 0 <= from < end <= v.len() && 1 <= v[from].subtree <= end - from {
        if c != from {
            lemma_kid_step(v, from + v[from].subtree, end, c);
        } else {
            lemma_kid_bounds(v, from, end, c);
        }
    }
}

/// Distinct children are separated by at least the earlier one's block.
pub proof fn lemma_kid_order(v: Seq<BehaveNode>, from: int, end: int, c: int, d: int)
    requires
        is_kid_from(v, from, end, c),
        is_kid_from(v, from, end, d),
        c < d,
    ensures
        d >= c + v[c].subtree,
    decreases end - from,
{
    if 0 <= from < end <= v.len() && 1 <= v[from].subtree <= end - from {
        if c == from {
            lemma_kid_bounds(v, from + v[from].subtree, end, d);
        } else {
            lemma_kid_bounds(v, from + v[from].subtree, end, c);
            lemma_kid_order(v, from + v[from].subtree, end, c, d);
        }
    }
}

/// Every child found by the walk lies left of `c`'s block or at or after
/// its end; children left of `c` end at or before `c`.
pub proof fn lemma_kid_separation(v: Seq<BehaveNode>, a: int, b: int, c: int)
    requires
        closed_range(v, a, b),
        is_kid_from(v, a, b, c),
    ensures
        forall|d: int|
            #[trigger] is_kid_from(v, a, b, d) ==> a <= d < b && (d <= c || d >= c + v[c].subtree)
                && (d < c ==> d + v[d].subtree <= c),
{
    assert forall|d: int| #[trigger] is_kid_from(v, a, b, d) implies a <= d < b && (d <= c || d >= c
        + v[c].subtree) && (d < c ==> d + v[d].subtree <= c) by {
        lemma_kid_bounds(v, a, b, d);
        if d < c {
            lemma_kid_order(v, a, b, d, c);
        } else if d > c {
            lemma_kid_order(v, a, b, c, d);
        }
    }
}

impl BehaveTree {
    /// Resets every node in `[a, b)` to its construction state.
    pub(crate) fn reset_range(&mut self, a: usize, b: usize)
        requires
            a <= b <= old(self)@.len(),
        ensures
            final(self)@.len() == old(self)@.len(),
            forall|j: int|
                0 <= j < old(self)@.len() && !(a <= j < b) ==> final(self)@[j] == old(self)@[j],
            forall|j: int|
                a <= j < b ==> final(self)@[j] == spec_reset_node(#[trigger] old(self)@[j]),
            final(self).next_handle == old(self).next_handle,
    {
        let mut c = a;
        while c < b
            invariant
                a <= c <= b <= self@.len(),
                self@.len() == old(self)@.len(),
                self.next_handle == old(self).next_handle,
                forall|j: int|
                    0 <= j < old(self)@.len() && !(a <= j < c) ==> self@[j] == old(self)@[j],
                forall|j: int| a <= j < c ==> self@[j] == spec_reset_node(#[trigger] old(self)@[j]),
            decreases b - c,
        {
            let ghost pre = self@;
            self.nodes[c].reset();
            proof {
                assert(self@[c as int] == spec_reset_node(pre[c as int]));
                assert(pre[c as int] == old(self)@[c as int]);
            }
            c = c + 1;
        }
    }
}

} // verus!
