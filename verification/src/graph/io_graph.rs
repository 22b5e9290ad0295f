//! The concurrent-execution engine: the execution plan (a transposed graph
//! annotated with fan-in and fan-out), the chain compactor, and the
//! breadth-first fork/join scheduler.
//!
//! The scheduler implements the same evaluation semantics as the recursive
//! engine in `concurrent` — both are specified against `graph_output` — but
//! drives the graph with a work list: it dispatches one compacted chain per
//! branch, counts arrivals at every join, lets a join execute exactly once,
//! only after all of its fan-in branches have delivered, and never schedules
//! a node twice.  The arrival-count and at-most-once invariants that the
//! original design asserts defensively are proved here instead.

use vstd::prelude::*;

verus! {

use crate::transform::Transform;
use crate::graph::concurrent::{
    ConcurrentGraphNode, ConcurrentInternalGraphNode, StageExecutionError, clone_elems,
    extend_elems, lists_child, graph_wf, has_child, reachable, parent_list, merged_inputs,
    node_out, sink_concat, graph_output, failed_at, internal_matches, lemma_has_child_lt,
    lemma_reachable_bounds, lemma_reachable_child, lemma_reachable_root,
    lemma_reachable_has_parent, lemma_failure_propagates, lemma_parent_list_witness,
    lemma_parent_list_two, lemma_parent_list_len, lemma_merged_single_parent,
};

/// Order-preserving de-duplication of the first `i` elements of `s`: each
/// value keeps its first occurrence only.
pub open spec fn dedup_prefix(s: Seq<usize>, i: int) -> Seq<usize>
    decreases i,
{
    if i <= 0 {
        Seq::empty()
    } else {
        let d = dedup_prefix(s, i - 1);
        if d.contains(s[i - 1]) {
            d
        } else {
            d.push(s[i - 1])
        }
    }
}

/// De-duplication keeps exactly the values of the prefix.
pub proof fn lemma_dedup_membership(s: Seq<usize>, i: int, x: usize)
    requires
        0 <= i <= s.len(),
    ensures
        dedup_prefix(s, i).contains(x) == s.take(i).contains(x),
    decreases i,
{
    if i > 0 {
        lemma_dedup_membership(s, i - 1, x);
        assert(s.take(i).drop_last() =~= s.take(i - 1));
        if s.take(i).contains(x) {
            let j = choose|j: int| 0 <= j < i && #[trigger] s.take(i)[j] == x;
            let d = dedup_prefix(s, i - 1);
            if j < i - 1 {
                assert(s.take(i - 1)[j] == x);
                assert(s.take(i - 1).contains(x));
                let k = choose|k: int| 0 <= k < d.len() && #[trigger] d[k] == x;
                assert(dedup_prefix(s, i)[k] == x);
            } else {
                assert(s[i - 1] == x);
                if !d.contains(s[i - 1]) {
                    assert(dedup_prefix(s, i)[d.len() as int] == x);
                }
            }
            assert(dedup_prefix(s, i).contains(x));
        }
        if dedup_prefix(s, i).contains(x) {
            if dedup_prefix(s, i - 1).contains(x) {
                let j = choose|j: int| 0 <= j < i - 1 && #[trigger] s.take(i - 1)[j] == x;
                assert(s.take(i)[j] == x);
            } else {
                assert(x == s[i - 1]);
                assert(s.take(i)[i - 1] == x);
            }
        }
    }
}

/// De-duplication never keeps a value twice.
pub proof fn lemma_dedup_no_duplicates(s: Seq<usize>, i: int)
    requires
        0 <= i <= s.len(),
    ensures
        dedup_prefix(s, i).no_duplicates(),
    decreases i,
{
    if i > 0 {
        lemma_dedup_no_duplicates(s, i - 1);
    }
}

/// The number of parents of `t` below `hi` that carry a mark, whatever the
/// marks stand for.
pub open spec fn marked_parent_count<F>(
    nodes: Seq<ConcurrentGraphNode<F>>,
    flags: Seq<bool>,
    t: int,
    hi: int,
) -> int
    decreases hi,
{
    if hi <= 0 {
        0
    } else {
        marked_parent_count(nodes, flags, t, hi - 1) + if flags[hi - 1] && has_child(
            nodes,
            hi - 1,
            t,
        ) {
            1int
        } else {
            0int
        }
    }
}

/// When only reachable nodes are marked, the marked parents are no more
/// numerous than the reachable parents.
pub proof fn lemma_mpc_le_parents<F>(
    nodes: Seq<ConcurrentGraphNode<F>>,
    root: int,
    flags: Seq<bool>,
    t: int,
    hi: int,
)
    requires
        forall|p: int| 0 <= p < flags.len() && flags[p] ==> reachable(nodes, root, p),
        hi <= flags.len(),
    ensures
        marked_parent_count(nodes, flags, t, hi) >= 0,
        marked_parent_count(nodes, flags, t, hi) <= parent_list(nodes, root, t, hi).len(),
    decreases hi,
{
    if hi > 0 {
        lemma_mpc_le_parents(nodes, root, flags, t, hi - 1);
    }
}

/// When every reachable parent is marked the two counts agree, and when the
/// counts agree every reachable parent is marked.
pub proof fn lemma_mpc_full<F>(
    nodes: Seq<ConcurrentGraphNode<F>>,
    root: int,
    flags: Seq<bool>,
    t: int,
    hi: int,
)
    requires
        forall|p: int| 0 <= p < flags.len() && flags[p] ==> reachable(nodes, root, p),
        hi <= flags.len(),
        marked_parent_count(nodes, flags, t, hi) == parent_list(nodes, root, t, hi).len(),
    ensures
        forall|p: int|
            0 <= p < hi && reachable(nodes, root, p) && has_child(nodes, p, t) ==> flags[p],
    decreases hi,
{
    if hi > 0 {
        lemma_mpc_le_parents(nodes, root, flags, t, hi - 1);
        lemma_mpc_full(nodes, root, flags, t, hi - 1);
    }
}

/// Marking one unmarked node shifts each count by exactly its edges.
pub proof fn lemma_mpc_update<F>(
    nodes: Seq<ConcurrentGraphNode<F>>,
    flags: Seq<bool>,
    m: int,
    t: int,
    hi: int,
)
    requires
        0 <= m < flags.len(),
        !flags[m],
        hi <= flags.len(),
    ensures
        marked_parent_count(nodes, flags.update(m, true), t, hi) == marked_parent_count(
            nodes,
            flags,
            t,
            hi,
        ) + if 0 <= m < hi && has_child(nodes, m, t) {
            1int
        } else {
            0int
        },
    decreases hi,
{
    if hi > 0 {
        lemma_mpc_update(nodes, flags, m, t, hi - 1);
    }
}

/// A node is a scheduling stopper when a compacted chain may not run past
/// it: a join (more than one distinct reachable parent), a fork (more than
/// one distinct child), or a sink (no children).  The scheduler materializes
/// every such node as its own dispatch unit so that join and fork policy is
/// applied exactly once per node.
#[verifier::opaque]
pub open spec fn is_stopper<F>(nodes: Seq<ConcurrentGraphNode<F>>, root: int, n: int) -> bool {
    ||| parent_list(nodes, root, n, nodes.len() as int).len() > 1
    ||| dedup_prefix(nodes[n].children@, nodes[n].children@.len() as int).len() > 1
    ||| nodes[n].children@.len() == 0
}

/// De-duplication yields an empty list exactly for an empty child list.
pub proof fn lemma_dedup_empty(s: Seq<usize>)
    ensures
        (dedup_prefix(s, s.len() as int).len() == 0) == (s.len() == 0),
{
    if s.len() > 0 {
        assert(s.take(s.len() as int)[0] == s[0]);
        assert(s.take(s.len() as int).contains(s[0]));
        lemma_dedup_membership(s, s.len() as int, s[0]);
        let d = dedup_prefix(s, s.len() as int);
        assert(d.contains(s[0]));
    }
}

/// The execution-oriented form of a graph node: forward edges with
/// duplicates collapsed, the exact fan-in over distinct reachable parents,
/// a fork flag, and whether the node takes part in the graph at all.  One
/// entry per arena slot, built once per compute graph, read-only afterwards.
pub struct IoInternalGraphNode {
    pub name: String,
    pub children: Vec<usize>,
    pub n_parents: usize,
    pub forkable: bool,
    pub reachable: bool,
}

/// `plan` is the faithful execution plan of the graph `(nodes, root)`.
pub open spec fn plan_matches<F>(
    plan: Seq<IoInternalGraphNode>,
    nodes: Seq<ConcurrentGraphNode<F>>,
    root: int,
) -> bool {
    &&& plan.len() == nodes.len()
    &&& forall|c: int|
        0 <= c < nodes.len() ==> {
            &&& (#[trigger] plan[c]).children@ == dedup_prefix(
                nodes[c].children@,
                nodes[c].children@.len() as int,
            )
            &&& plan[c].n_parents == parent_list(nodes, root, c, nodes.len() as int).len()
            &&& plan[c].forkable == (plan[c].children@.len() > 1)
            &&& plan[c].reachable == reachable(nodes, root, c)
            &&& plan[c].name@ == nodes[c].name@
        }
}

/// Does `v` hold `x`?
fn contains_val(v: &Vec<usize>, x: usize) -> (b: bool)
    ensures
        b == v@.contains(x),
{
    let mut j: usize = 0;
    while j < v.len()
        invariant
            0 <= j <= v@.len(),
            forall|k: int| 0 <= k < j ==> v@[k] != x,
        decreases v@.len() - j,
    {
        if v[j] == x {
            assert(v@[j as int] == x);
            return true;
        }
        j += 1;
    }
    false
}

/// The child list with duplicate edges collapsed, first occurrences kept.
fn dedup_children(children: &Vec<usize>) -> (r: Vec<usize>)
    ensures
        r@ == dedup_prefix(children@, children@.len() as int),
{
    let mut out: Vec<usize> = Vec::new();
    let mut j: usize = 0;
    proof {
        assert(out@ =~= dedup_prefix(children@, 0));
    }
    while j < children.len()
        invariant
            0 <= j <= children@.len(),
            out@ == dedup_prefix(children@, j as int),
        decreases children@.len() - j,
    {
        if !contains_val(&out, children[j]) {
            out.push(children[j]);
        }
        proof {
            assert(out@ =~= dedup_prefix(children@, j + 1));
        }
        j += 1;
    }
    out
}

impl IoInternalGraphNode {
    /// Builds the execution plan from the user graph: transposes it once to
    /// obtain each node's distinct reachable parents, then annotates every
    /// node with its fan-in, collapsed child list and fork flag.
    pub fn from<F>(nodes: &Vec<ConcurrentGraphNode<F>>, root: usize) -> (r: Vec<
        IoInternalGraphNode,
    >)
        requires
            graph_wf(nodes@, root as int),
        ensures
            plan_matches(r@, nodes@, root as int),
    {
        let internal = ConcurrentInternalGraphNode::from(nodes, root);
        let mut plan: Vec<IoInternalGraphNode> = Vec::new();
        let mut c: usize = 0;
        while c < nodes.len()
            invariant
                graph_wf(nodes@, root as int),
                internal_matches(internal@, nodes@, root as int),
                0 <= c <= nodes@.len(),
                plan@.len() == c,
                forall|m: int|
                    0 <= m < c ==> {
                        &&& (#[trigger] plan@[m]).children@ == dedup_prefix(
                            nodes@[m].children@,
                            nodes@[m].children@.len() as int,
                        )
                        &&& plan@[m].n_parents == parent_list(
                            nodes@,
                            root as int,
                            m,
                            nodes@.len() as int,
                        ).len()
                        &&& plan@[m].forkable == (plan@[m].children@.len() > 1)
                        &&& plan@[m].reachable == reachable(nodes@, root as int, m)
                        &&& plan@[m].name@ == nodes@[m].name@
                    },
            decreases nodes@.len() - c,
        {
            let dc = dedup_children(&nodes[c].children);
            let fk = dc.len() > 1;
            let np = internal[c].parents.len();
            let rc = internal[c].reachable;
            let nm = nodes[c].name.clone();
            plan.push(
                IoInternalGraphNode {
                    name: nm,
                    children: dc,
                    n_parents: np,
                    forkable: fk,
                    reachable: rc,
                },
            );
            c += 1;
        }
        plan
    }

    /// The chain compactor: starting from `node`, greedily extends a chain
    /// of schedulable stages through single-child, single-parent nodes and
    /// stops at the first join, fork or sink, which is returned as the
    /// chain's terminal and is not advanced past.  Called on a stopper the
    /// chain is empty: the node is its own terminal.
    pub fn to_exec_plan<F>(
        plan: &Vec<IoInternalGraphNode>,
        Ghost(nodes): Ghost<Seq<ConcurrentGraphNode<F>>>,
        Ghost(root): Ghost<int>,
        node: usize,
    ) -> (r: (usize, Vec<usize>))
        requires
            graph_wf(nodes, root),
            plan_matches(plan@, nodes, root),
            node < plan@.len(),
        ensures
            r.0 < plan@.len(),
            is_stopper(nodes, root, r.0 as int),
            r.1@.len() == 0 ==> r.0 == node,
            r.1@.len() > 0 ==> {
                &&& r.1@[0] == node
                &&& has_child(nodes, r.1@.last() as int, r.0 as int)
            },
            forall|k: int| 0 <= k < r.1@.len() ==> !is_stopper(nodes, root, #[trigger] r.1@[k] as int),
            forall|k: int| 0 <= k < r.1@.len() ==> (#[trigger] r.1@[k]) < plan@.len(),
            forall|k: int|
                0 <= k < r.1@.len() - 1 ==> has_child(nodes, #[trigger] r.1@[k] as int, r.1@[k + 1] as int),
    {
        let mut chain: Vec<usize> = Vec::new();
        let mut cur: usize = node;
        loop
            invariant
                graph_wf(nodes, root),
                plan_matches(plan@, nodes, root),
                cur < plan@.len(),
                chain@.len() == 0 ==> cur == node,
                chain@.len() > 0 ==> {
                    &&& chain@[0] == node
                    &&& has_child(nodes, chain@.last() as int, cur as int)
                },
                forall|k: int|
                    0 <= k < chain@.len() ==> !is_stopper(nodes, root, #[trigger] chain@[k] as int),
                forall|k: int| 0 <= k < chain@.len() ==> (#[trigger] chain@[k]) < plan@.len(),
                forall|k: int|
                    0 <= k < chain@.len() - 1 ==> has_child(
                        nodes,
                        #[trigger] chain@[k] as int,
                        chain@[k + 1] as int,
                    ),
            decreases cur,
        {
            let stop = plan[cur].n_parents > 1 || plan[cur].forkable || plan[cur].children.len()
                == 0;
            proof {
                reveal(is_stopper);
                lemma_dedup_empty(nodes[cur as int].children@);
                assert(stop == is_stopper(nodes, root, cur as int));
            }
            if stop {
                return (cur, chain);
            }
            let next = plan[cur].children[0];
            proof {
                let raw = nodes[cur as int].children@;
                assert(plan@[cur as int].children@.contains(next));
                lemma_dedup_membership(raw, raw.len() as int, next);
                assert(raw.take(raw.len() as int) =~= raw);
                assert(has_child(nodes, cur as int, next as int));
                lemma_has_child_lt(nodes, cur as int, next as int);
            }
            chain.push(cur);
            cur = next;
        }
    }
}

/// The data-carrying part of the scheduler's run state invariant: only
/// reachable nodes are ever visited; a visited node's recorded output is
/// exactly what the evaluation semantics assign it; expansion implies a
/// visit; and every expanded node has dispatched all of its linear (middle)
/// children.
pub open spec fn sched_core<F: Transform>(
    nodes: Seq<ConcurrentGraphNode<F>>,
    root: int,
    x: Seq<F::Elem>,
    visited: Seq<bool>,
    expanded: Seq<bool>,
    out_vals: Seq<Option<Vec<F::Elem>>>,
) -> bool {
    let n = nodes.len();
    &&& visited.len() == n
    &&& expanded.len() == n
    &&& out_vals.len() == n
    &&& forall|m: int| 0 <= m < n && visited[m] ==> reachable(nodes, root, m)
    &&& forall|m: int|
        0 <= m < n && visited[m] ==> match out_vals[m] {
            Some(v) => node_out(nodes, root, x, m) == Some(v@),
            None => false,
        }
    &&& forall|m: int| 0 <= m < n && expanded[m] ==> visited[m]
    &&& forall|p: int, c: int|
        0 <= p < n && expanded[p] && #[trigger] has_child(nodes, p, c) && !is_stopper(
            nodes,
            root,
            c,
        ) ==> visited[c]
}

/// The arrival counters agree exactly with the number of expanded parents
/// of every stopper; nodes inside chains never use their counter.
pub open spec fn counters_ok<F: Transform>(
    nodes: Seq<ConcurrentGraphNode<F>>,
    root: int,
    expanded: Seq<bool>,
    counter: Seq<usize>,
) -> bool {
    let n = nodes.len();
    &&& counter.len() == n
    &&& forall|s: int|
        0 <= s < n && is_stopper(nodes, root, s) ==> counter[s] == marked_parent_count(
            nodes,
            expanded,
            s,
            n as int,
        )
    &&& forall|s: int| 0 <= s < n && !is_stopper(nodes, root, s) ==> counter[s] == 0
}

/// `s` still waits in the unread part of the work queue.
pub open spec fn in_tail(queue: Seq<usize>, head: int, s: int) -> bool {
    exists|j: int| head <= j < queue.len() && queue[j] == s
}

/// The work queue holds only reachable stoppers, and any stopper whose
/// arrivals are complete but which has not executed yet still waits in the
/// queue — the fact that lets the run terminate only when everything
/// reachable has executed.
pub open spec fn queue_inv<F: Transform>(
    nodes: Seq<ConcurrentGraphNode<F>>,
    root: int,
    visited: Seq<bool>,
    counter: Seq<usize>,
    plan: Seq<IoInternalGraphNode>,
    queue: Seq<usize>,
    head: int,
) -> bool {
    &&& 0 <= head <= queue.len()
    &&& forall|j: int|
        head <= j < queue.len() ==> {
            &&& (#[trigger] queue[j]) < nodes.len()
            &&& is_stopper(nodes, root, queue[j] as int)
            &&& reachable(nodes, root, queue[j] as int)
        }
    &&& forall|s: int|
        0 <= s < nodes.len() && is_stopper(nodes, root, s) && !visited[s] && counter[s]
            == plan[s].n_parents && plan[s].n_parents > 0 ==> in_tail(queue, head, s)
}

/// The total number of arrivals still owed across the whole plan.
pub open spec fn arrears(plan: Seq<IoInternalGraphNode>, counter: Seq<usize>, hi: int) -> int
    decreases hi,
{
    if hi <= 0 {
        0
    } else {
        arrears(plan, counter, hi - 1) + plan[hi - 1].n_parents - counter[hi - 1]
    }
}

pub proof fn lemma_arrears_nonneg(plan: Seq<IoInternalGraphNode>, counter: Seq<usize>, hi: int)
    requires
        forall|m: int| 0 <= m < hi ==> (#[trigger] counter[m]) <= plan[m].n_parents,
    ensures
        arrears(plan, counter, hi) >= 0,
    decreases hi,
{
    if hi > 0 {
        lemma_arrears_nonneg(plan, counter, hi - 1);
    }
}

pub proof fn lemma_arrears_update(
    plan: Seq<IoInternalGraphNode>,
    counter: Seq<usize>,
    s: int,
    w: usize,
    hi: int,
)
    requires
        0 <= s < counter.len(),
        hi <= counter.len(),
    ensures
        arrears(plan, counter.update(s, w), hi) == arrears(plan, counter, hi) - if 0 <= s < hi {
            w - counter[s]
        } else {
            0int
        },
    decreases hi,
{
    if hi > 0 {
        lemma_arrears_update(plan, counter, s, w, hi - 1);
    }
}

/// Pointwise equal parent predicates give equal counts.
pub proof fn lemma_mpc_eq_parents<F>(
    nodes: Seq<ConcurrentGraphNode<F>>,
    root: int,
    flags: Seq<bool>,
    t: int,
    hi: int,
)
    requires
        forall|p: int|
            0 <= p < hi ==> ((flags[p] && #[trigger] has_child(nodes, p, t)) <==> (reachable(
                nodes,
                root,
                p,
            ) && has_child(nodes, p, t))),
    ensures
        marked_parent_count(nodes, flags, t, hi) == parent_list(nodes, root, t, hi).len(),
    decreases hi,
{
    if hi > 0 {
        lemma_mpc_eq_parents(nodes, root, flags, t, hi - 1);
    }
}

/// A node whose collapsed child list is a single entry has exactly that one
/// child, whatever its raw list repeats.
pub proof fn lemma_only_child<F>(nodes: Seq<ConcurrentGraphNode<F>>, q: int, cu: usize)
    requires
        0 <= q < nodes.len(),
        dedup_prefix(nodes[q].children@, nodes[q].children@.len() as int) =~= seq![cu],
    ensures
        forall|c: int| #[trigger] has_child(nodes, q, c) ==> c == cu,
{
    let raw = nodes[q].children@;
    assert forall|c: int| #[trigger] has_child(nodes, q, c) implies c == cu by {
        let j = choose|j: int| 0 <= j < raw.len() && raw[j] == c;
        assert(raw.take(raw.len() as int)[j] == c);
        assert(raw.take(raw.len() as int).contains(raw[j]));
        lemma_dedup_membership(raw, raw.len() as int, raw[j]);
        let d = dedup_prefix(raw, raw.len() as int);
        assert(d.contains(raw[j]));
        let k = choose|k: int| 0 <= k < d.len() && #[trigger] d[k] == raw[j];
        assert(d[k] == cu);
    }
}

/// The expansion bookkeeping step: marking one more node as expanded shifts
/// every stopper's expanded-parent count by exactly its edges into it.
pub proof fn lemma_expand_node<F>(
    nodes: Seq<ConcurrentGraphNode<F>>,
    expanded: Seq<bool>,
    q: int,
)
    requires
        0 <= q < expanded.len(),
        !expanded[q],
        expanded.len() == nodes.len(),
    ensures
        forall|s: int|
            marked_parent_count(nodes, expanded.update(q, true), s, nodes.len() as int)
                == marked_parent_count(nodes, expanded, s, nodes.len() as int) + if has_child(
                nodes,
                q,
                s,
            ) {
                1int
            } else {
                0int
            },
{
    assert forall|s: int|
        marked_parent_count(nodes, expanded.update(q, true), s, nodes.len() as int)
            == marked_parent_count(nodes, expanded, s, nodes.len() as int) + if has_child(
            nodes,
            q,
            s,
        ) {
            1int
        } else {
            0int
        } by {
        lemma_mpc_update(nodes, expanded, q, s, nodes.len() as int);
    }
}

/// Closing the branch behind a chain node: marking it expanded moves no
/// arrival counter, because its only child is itself inside a chain, and
/// keeps the rest of the run state consistent.
pub proof fn lemma_expand_middle<F: Transform>(
    nodes: Seq<ConcurrentGraphNode<F>>,
    root: int,
    x: Seq<F::Elem>,
    visited: Seq<bool>,
    exp: Seq<bool>,
    counter: Seq<usize>,
    out_vals: Seq<Option<Vec<F::Elem>>>,
    q: int,
    cu: int,
)
    requires
        0 <= q < nodes.len(),
        !exp[q],
        visited[q],
        0 <= cu < nodes.len(),
        visited[cu],
        has_child(nodes, q, cu),
        !is_stopper(nodes, root, cu),
        dedup_prefix(nodes[q].children@, nodes[q].children@.len() as int).len() == 1,
        sched_core(nodes, root, x, visited, exp, out_vals),
        counters_ok(nodes, root, exp, counter),
    ensures
        sched_core(nodes, root, x, visited, exp.update(q, true), out_vals),
        counters_ok(nodes, root, exp.update(q, true), counter),
{
    let d = dedup_prefix(nodes[q].children@, nodes[q].children@.len() as int);
    assert(d =~= seq![d[0]]);
    lemma_only_child(nodes, q, d[0]);
    assert(cu == d[0]);
    lemma_expand_node(nodes, exp, q);
    let n = nodes.len() as int;
    assert forall|s: int|
        0 <= s < n && is_stopper(nodes, root, s) implies counter[s] == marked_parent_count(
        nodes,
        exp.update(q, true),
        s,
        n,
    ) by {
        if has_child(nodes, q, s) {
            assert(s == cu);
            assert(false);
        }
    }
    assert forall|p: int, c: int|
        0 <= p < n && exp.update(q, true)[p] && #[trigger] has_child(nodes, p, c) && !is_stopper(
            nodes,
            root,
            c,
        ) implies visited[c] by {
        if p == q {
            assert(c == cu);
        }
    }
}

/// Closing the branch behind the last chain node before a terminal: its
/// expansion raises the terminal's arrival counter by exactly one, which
/// then stays strictly within the terminal's fan-in.
#[verifier::rlimit(100)]
pub proof fn lemma_expand_last<F: Transform>(
    nodes: Seq<ConcurrentGraphNode<F>>,
    root: int,
    x: Seq<F::Elem>,
    visited: Seq<bool>,
    exp: Seq<bool>,
    counter: Seq<usize>,
    out_vals: Seq<Option<Vec<F::Elem>>>,
    q: int,
    term: int,
)
    requires
        graph_wf(nodes, root),
        nodes.len() <= usize::MAX,
        0 <= q < nodes.len(),
        !exp[q],
        visited[q],
        reachable(nodes, root, q),
        0 <= term < nodes.len(),
        has_child(nodes, q, term),
        is_stopper(nodes, root, term),
        dedup_prefix(nodes[q].children@, nodes[q].children@.len() as int).len() == 1,
        sched_core(nodes, root, x, visited, exp, out_vals),
        counters_ok(nodes, root, exp, counter),
    ensures
        counter[term] < parent_list(nodes, root, term, nodes.len() as int).len(),
        sched_core(nodes, root, x, visited, exp.update(q, true), out_vals),
        counters_ok(
            nodes,
            root,
            exp.update(q, true),
            counter.update(term, (counter[term] + 1) as usize),
        ),
{
    let n = nodes.len() as int;
    let d = dedup_prefix(nodes[q].children@, nodes[q].children@.len() as int);
    assert(d =~= seq![d[0]]);
    lemma_only_child(nodes, q, d[0]);
    assert(term == d[0]);
    lemma_expand_node(nodes, exp, q);
    let exp2 = exp.update(q, true);
    assert forall|pp: int| 0 <= pp < exp2.len() && exp2[pp] implies reachable(
        nodes,
        root,
        pp,
    ) by {
        if pp != q {
            assert(exp[pp]);
            assert(visited[pp]);
        }
    }
    lemma_mpc_le_parents(nodes, root, exp2, term, n);
    assert(marked_parent_count(nodes, exp2, term, n) == marked_parent_count(nodes, exp, term, n)
        + 1);
    assert(counter[term] < parent_list(nodes, root, term, n).len());
    lemma_parent_list_len(nodes, root, term, n);
    assert(counter[term] + 1 <= n <= usize::MAX);
    let counter2 = counter.update(term, (counter[term] + 1) as usize);
    assert forall|s: int|
        0 <= s < n && is_stopper(nodes, root, s) implies counter2[s] == marked_parent_count(
        nodes,
        exp2,
        s,
        n,
    ) by {
        if has_child(nodes, q, s) {
            assert(s == term);
        }
    }
    assert forall|p: int, c: int|
        0 <= p < n && exp2[p] && #[trigger] has_child(nodes, p, c) && !is_stopper(
            nodes,
            root,
            c,
        ) implies visited[c] by {
        if p == q {
            assert(c == term);
            assert(false);
        }
    }
}

/// Appending to the work queue keeps every waiting entry waiting and makes
/// the new entry wait as well.
pub proof fn lemma_in_tail_push(queue0: Seq<usize>, head: int, t: usize)
    requires
        0 <= head <= queue0.len(),
    ensures
        forall|s: int| in_tail(queue0, head, s) ==> in_tail(queue0.push(t), head, s),
        in_tail(queue0.push(t), head, t as int),
{
    assert(queue0.push(t)[queue0.len() as int] == t);
    assert forall|s: int| in_tail(queue0, head, s) implies in_tail(queue0.push(t), head, s) by {
        let j = choose|j: int| head <= j < queue0.len() && queue0[j] == s;
        assert(queue0.push(t)[j] == s);
    }
}

/// One step of chain execution: applies the transform of the linear node
/// `cu` to the value its single parent delivered, records the output, and
/// marks the node visited.  A failing transform aborts the whole run.
fn chain_step<F: Transform>(
    nodes: &Vec<ConcurrentGraphNode<F>>,
    root: usize,
    Ghost(x): Ghost<Seq<F::Elem>>,
    visited: &mut Vec<bool>,
    out_vals: &mut Vec<Option<Vec<F::Elem>>>,
    Ghost(exp): Ghost<Seq<bool>>,
    Ghost(prev): Ghost<int>,
    cu: usize,
    val_cur: &Vec<F::Elem>,
) -> (res: Result<Vec<F::Elem>, StageExecutionError>) where F::Elem: Copy
    requires
        graph_wf(nodes@, root as int),
        nodes@[root as int].children@.len() > 0,
        0 <= prev < nodes@.len(),
        reachable(nodes@, root as int, prev),
        node_out(nodes@, root as int, x, prev) == Some(val_cur@),
        cu < nodes@.len(),
        has_child(nodes@, prev, cu as int),
        !is_stopper(nodes@, root as int, cu as int),
        !old(visited)@[cu as int],
        old(visited)@[root as int],
        sched_core(nodes@, root as int, x, old(visited)@, exp, old(out_vals)@),
    ensures
        match res {
            Ok(v2) => {
                &&& node_out(nodes@, root as int, x, cu as int) == Some(v2@)
                &&& final(visited)@ == old(visited)@.update(cu as int, true)
                &&& final(out_vals)@.len() == old(out_vals)@.len()
                &&& forall|j: int|
                    0 <= j < old(out_vals)@.len() && j != cu ==> final(out_vals)@[j] == old(
                        out_vals,
                    )@[j]
                &&& sched_core(nodes@, root as int, x, final(visited)@, exp, final(out_vals)@)
                &&& reachable(nodes@, root as int, cu as int)
            },
            Err(e) => {
                &&& graph_output(nodes@, root as int, x) is None
                &&& e.id < nodes@.len()
                &&& failed_at(nodes@, root as int, x, e.id as int)
                &&& e.name@ == nodes@[e.id as int].name@
            },
        },
{
    let ghost n = nodes@.len() as int;
    proof {
        reveal(is_stopper);
        lemma_reachable_child(nodes@, root as int, prev, cu as int);
        assert(parent_list(nodes@, root as int, cu as int, n).len() <= 1);
        assert(cu as int != root as int);
        lemma_merged_single_parent(nodes@, root as int, x, cu as int, prev, val_cur@, n);
    }
    match nodes[cu].f.apply(val_cur) {
        None => {
            proof {
                assert(node_out(nodes@, root as int, x, cu as int) is None);
                assert(failed_at(nodes@, root as int, x, cu as int));
                lemma_failure_propagates(nodes@, root as int, x, cu as int);
            }
            Err(StageExecutionError { name: nodes[cu].name.clone(), id: cu })
        },
        Some(v2) => {
            proof {
                assert(node_out(nodes@, root as int, x, cu as int) == Some(v2@));
            }
            let stored = clone_elems(&v2);
            out_vals[cu] = Some(stored);
            visited[cu] = true;
            proof {
                assert(final(visited)@ =~= old(visited)@.update(cu as int, true));
            }
            Ok(v2)
        },
    }
}

/// An entry of a node's collapsed child list is a real edge of the graph,
/// pointing strictly downward to a reachable node.
pub proof fn lemma_plan_child_edge<F>(
    nodes: Seq<ConcurrentGraphNode<F>>,
    root: int,
    plan: Seq<IoInternalGraphNode>,
    m: int,
    j: int,
)
    requires
        graph_wf(nodes, root),
        plan_matches(plan, nodes, root),
        0 <= m < nodes.len(),
        reachable(nodes, root, m),
        0 <= j < plan[m].children@.len(),
    ensures
        has_child(nodes, m, plan[m].children@[j] as int),
        (plan[m].children@[j] as int) < m,
        reachable(nodes, root, plan[m].children@[j] as int),
    decreases 0int,
{
    let c = plan[m].children@[j];
    let raw = nodes[m].children@;
    assert(plan[m].children@.contains(c));
    lemma_dedup_membership(raw, raw.len() as int, c);
    assert(raw.take(raw.len() as int) =~= raw);
    let jj = choose|jj: int| 0 <= jj < raw.len() && #[trigger] raw.take(raw.len() as int)[jj] == c;
    assert(raw[jj] == c);
    assert(has_child(nodes, m, c as int));
    lemma_has_child_lt(nodes, m, c as int);
    lemma_reachable_child(nodes, root, m, c as int);
}

/// The stopper test the scheduler runs over the plan's annotations agrees
/// with the specification's notion of a stopper.
pub proof fn lemma_stop_test<F>(
    nodes: Seq<ConcurrentGraphNode<F>>,
    root: int,
    plan: Seq<IoInternalGraphNode>,
    c: int,
)
    requires
        graph_wf(nodes, root),
        plan_matches(plan, nodes, root),
        0 <= c < nodes.len(),
    ensures
        (plan[c].n_parents > 1 || plan[c].forkable || plan[c].children@.len() == 0)
            == is_stopper(nodes, root, c),
{
    reveal(is_stopper);
    lemma_dedup_empty(nodes[c].children@);
}

/// Runs one compacted chain: starting from the linear child `c` of the node
/// `m0` that just executed with output `val`, applies each stage of the
/// chain in turn, marks it visited, and finally records one arrival at the
/// chain's terminal and enqueues it.  If the chain runs into an
/// already-visited stage it stops without recording anything: that branch
/// was already delivered, and no node is ever scheduled twice.
#[verifier::rlimit(100)]
fn run_chain<F: Transform>(
    nodes: &Vec<ConcurrentGraphNode<F>>,
    plan: &Vec<IoInternalGraphNode>,
    root: usize,
    Ghost(x): Ghost<Seq<F::Elem>>,
    visited: &mut Vec<bool>,
    counter: &mut Vec<usize>,
    queue: &mut Vec<usize>,
    head: usize,
    out_vals: &mut Vec<Option<Vec<F::Elem>>>,
    Ghost(expanded): Ghost<Seq<bool>>,
    Ghost(m0): Ghost<int>,
    c: usize,
    val: &Vec<F::Elem>,
) -> (res: Result<Ghost<Seq<bool>>, StageExecutionError>) where F::Elem: Copy
    requires
        graph_wf(nodes@, root as int),
        plan_matches(plan@, nodes@, root as int),
        nodes@[root as int].children@.len() > 0,
        0 <= m0 < nodes@.len(),
        reachable(nodes@, root as int, m0),
        old(visited)@[m0],
        old(visited)@[root as int],
        !expanded[m0],
        node_out(nodes@, root as int, x, m0) == Some(val@),
        c < nodes@.len(),
        has_child(nodes@, m0, c as int),
        !is_stopper(nodes@, root as int, c as int),
        !old(visited)@[c as int],
        sched_core(nodes@, root as int, x, old(visited)@, expanded, old(out_vals)@),
        counters_ok(nodes@, root as int, expanded, old(counter)@),
        queue_inv(
            nodes@,
            root as int,
            old(visited)@,
            old(counter)@,
            plan@,
            old(queue)@,
            head as int,
        ),
        forall|k: int| 0 <= k < nodes@.len() && k != m0 ==> expanded[k] == old(visited)@[k],
    ensures
        match res {
            Ok(g) => {
                &&& sched_core(nodes@, root as int, x, final(visited)@, g@, final(out_vals)@)
                &&& counters_ok(nodes@, root as int, g@, final(counter)@)
                &&& queue_inv(
                    nodes@,
                    root as int,
                    final(visited)@,
                    final(counter)@,
                    plan@,
                    final(queue)@,
                    head as int,
                )
                &&& !g@[m0]
                &&& final(visited)@[m0]
                &&& final(visited)@[root as int]
                &&& final(visited)@[c as int]
                &&& forall|k: int| 0 <= k < nodes@.len() && k != m0 ==> g@[k] == final(visited)@[k]
                &&& forall|k: int|
                    0 <= k < nodes@.len() && old(visited)@[k] ==> final(visited)@[k]
                &&& final(queue)@.len() + arrears(
                    plan@,
                    final(counter)@,
                    nodes@.len() as int,
                ) == old(queue)@.len() + arrears(plan@, old(counter)@, nodes@.len() as int)
            },
            Err(e) => {
                &&& graph_output(nodes@, root as int, x) is None
                &&& e.id < nodes@.len()
                &&& failed_at(nodes@, root as int, x, e.id as int)
                &&& e.name@ == nodes@[e.id as int].name@
            },
        },
{
    let ghost n = nodes@.len() as int;
    let nlen = nodes.len();
    proof {
        assert(n == nlen as int);
    }
    let ghost mut exp: Seq<bool> = expanded;
    let (term, chain) = IoInternalGraphNode::to_exec_plan::<F>(
        plan,
        Ghost(nodes@),
        Ghost(root as int),
        c,
    );
    proof {
        assert(chain@.len() > 0);
    }
    let mut val_cur: Vec<F::Elem> = clone_elems(val);
    let mut k: usize = 0;
    let mut aborted = false;
    while !aborted && k < chain.len()
        invariant
            graph_wf(nodes@, root as int),
            plan_matches(plan@, nodes@, root as int),
            nodes@[root as int].children@.len() > 0,
            n == nodes@.len() as int,
            nodes@.len() <= usize::MAX,
            0 <= k <= chain@.len(),
            chain@.len() > 0,
            chain@[0] == c,
            c < nodes@.len(),
            term < nodes@.len(),
            is_stopper(nodes@, root as int, term as int),
            has_child(nodes@, chain@.last() as int, term as int),
            forall|j: int|
                0 <= j < chain@.len() ==> !is_stopper(
                    nodes@,
                    root as int,
                    #[trigger] chain@[j] as int,
                ),
            forall|j: int| 0 <= j < chain@.len() ==> (#[trigger] chain@[j]) < nodes@.len(),
            forall|j: int|
                0 <= j < chain@.len() - 1 ==> has_child(
                    nodes@,
                    #[trigger] chain@[j] as int,
                    chain@[j + 1] as int,
                ),
            0 <= m0 < nodes@.len(),
            has_child(nodes@, m0, c as int),
            reachable(nodes@, root as int, m0),
            visited@[m0],
            visited@[root as int],
            !exp[m0],
            node_out(nodes@, root as int, x, m0) == Some(val@),
            sched_core(nodes@, root as int, x, visited@, exp, out_vals@),
            counters_ok(nodes@, root as int, exp, counter@),
            counter@ == old(counter)@,
            queue@ == old(queue)@,
            forall|kk: int| 0 <= kk < n && old(visited)@[kk] ==> visited@[kk],
            (aborted || k > 0) ==> visited@[c as int],
            aborted ==> forall|kk: int| 0 <= kk < n && kk != m0 ==> exp[kk] == visited@[kk],
            !aborted && k == 0 ==> {
                &&& val_cur@ == val@
                &&& !visited@[c as int]
                &&& forall|kk: int| 0 <= kk < n && kk != m0 ==> exp[kk] == visited@[kk]
            },
            !aborted && k > 0 ==> {
                &&& visited@[chain@[k - 1] as int]
                &&& !exp[chain@[k - 1] as int]
                &&& chain@[k - 1] != m0
                &&& reachable(nodes@, root as int, chain@[k - 1] as int)
                &&& node_out(nodes@, root as int, x, chain@[k - 1] as int) == Some(val_cur@)
                &&& forall|kk: int|
                    0 <= kk < n && kk != m0 && kk != chain@[k - 1] ==> exp[kk] == visited@[kk]
            },
        decreases chain@.len() - k + if aborted { 0int } else { 1int },
    {
        let cu = chain[k];
        let ghost prev: int = if k == 0 {
            m0
        } else {
            chain@[k - 1] as int
        };
        proof {
            if k > 0 {
                assert(has_child(nodes@, prev, cu as int));
            } else {
                assert(cu == c);
                assert(has_child(nodes@, prev, cu as int));
            }
            lemma_reachable_child(nodes@, root as int, prev, cu as int);
            lemma_reachable_bounds(nodes@, root as int, cu as int);
        }
        if visited[cu] {
            // This run has already executed: never schedule a node twice.
            // Close the branch and stop.
            proof {
                reveal(is_stopper);
                if k > 0 {
                    let q = chain@[k - 1] as int;
                    lemma_dedup_empty(nodes@[q].children@);
                    lemma_expand_middle(
                        nodes@,
                        root as int,
                        x,
                        visited@,
                        exp,
                        counter@,
                        out_vals@,
                        q,
                        cu as int,
                    );
                    exp = exp.update(q, true);
                }
            }
            aborted = true;
        } else {
            match chain_step(
                nodes,
                root,
                Ghost(x),
                visited,
                out_vals,
                Ghost(exp),
                Ghost(prev),
                cu,
                &val_cur,
            ) {
                Err(e) => {
                    return Err(e);
                },
                Ok(v2) => {
                    proof {
                        reveal(is_stopper);
                        if k > 0 {
                            let q = chain@[k - 1] as int;
                            lemma_dedup_empty(nodes@[q].children@);
                            lemma_expand_middle(
                                nodes@,
                                root as int,
                                x,
                                visited@,
                                exp,
                                counter@,
                                out_vals@,
                                q,
                                cu as int,
                            );
                            exp = exp.update(q, true);
                        }
                    }
                    val_cur = v2;
                    k += 1;
                },
            }
        }
    }
    if !aborted {
        // The chain delivered its value at the terminal: record one arrival
        // there and enqueue it.
        let ghost q = chain@[chain@.len() - 1] as int;
        proof {
            reveal(is_stopper);
            assert(k == chain@.len());
            lemma_reachable_child(nodes@, root as int, q, term as int);
            lemma_dedup_empty(nodes@[q].children@);
            lemma_expand_last(
                nodes@,
                root as int,
                x,
                visited@,
                exp,
                counter@,
                out_vals@,
                q,
                term as int,
            );
            lemma_parent_list_len(nodes@, root as int, term as int, n);
        }
        let ghost counter0 = counter@;
        let ghost queue0 = queue@;
        let cnt = counter[term];
        counter[term] = cnt + 1;
        queue.push(term);
        proof {
            assert(counter@ =~= counter0.update(term as int, (cnt + 1) as usize));
            lemma_arrears_update(plan@, counter0, term as int, (cnt + 1) as usize, n);
            lemma_in_tail_push(queue0, head as int, term);
            exp = exp.update(q, true);
            assert forall|s: int|
                0 <= s < n && is_stopper(nodes@, root as int, s) && !visited@[s] && counter@[s]
                    == plan@[s].n_parents && plan@[s].n_parents > 0 implies in_tail(
                queue@,
                head as int,
                s,
            ) by {
                if s == term as int {
                    assert(in_tail(queue@, head as int, term as int));
                } else {
                    assert(counter0[s] == counter@[s]);
                    assert(in_tail(queue0, head as int, s));
                }
            }
        }
    }
    Ok(Ghost(exp))
}

/// Dispatches every outgoing branch of the just-executed node `m`, whose
/// output is `val`.  For each child the compaction plan is computed; the
/// chain of linear stages behind the child runs immediately, one stage at
/// most once, and one arrival is recorded at the chain's terminal, which is
/// enqueued for the main loop.  Stopper children deliver their arrival from
/// `m` itself.  A failing stage aborts the whole run.  `expanded` is the
/// ghost record of nodes whose branches are fully dispatched; on success it
/// catches up with `visited` again.
#[verifier::rlimit(100)]
fn dispatch_children<F: Transform>(
    nodes: &Vec<ConcurrentGraphNode<F>>,
    plan: &Vec<IoInternalGraphNode>,
    root: usize,
    Ghost(x): Ghost<Seq<F::Elem>>,
    visited: &mut Vec<bool>,
    counter: &mut Vec<usize>,
    queue: &mut Vec<usize>,
    head: usize,
    out_vals: &mut Vec<Option<Vec<F::Elem>>>,
    Ghost(expanded): Ghost<Seq<bool>>,
    m: usize,
    val: &Vec<F::Elem>,
) -> (res: Result<Ghost<Seq<bool>>, StageExecutionError>) where F::Elem: Copy
    requires
        graph_wf(nodes@, root as int),
        plan_matches(plan@, nodes@, root as int),
        nodes@[root as int].children@.len() > 0,
        m < nodes@.len(),
        reachable(nodes@, root as int, m as int),
        old(visited)@[m as int],
        old(visited)@[root as int],
        !expanded[m as int],
        node_out(nodes@, root as int, x, m as int) == Some(val@),
        sched_core(nodes@, root as int, x, old(visited)@, expanded, old(out_vals)@),
        counters_ok(nodes@, root as int, expanded, old(counter)@),
        queue_inv(
            nodes@,
            root as int,
            old(visited)@,
            old(counter)@,
            plan@,
            old(queue)@,
            head as int,
        ),
        forall|k: int| 0 <= k < nodes@.len() && k != m ==> expanded[k] == old(visited)@[k],
    ensures
        match res {
            Ok(g) => {
                &&& sched_core(nodes@, root as int, x, final(visited)@, g@, final(out_vals)@)
                &&& counters_ok(nodes@, root as int, g@, final(counter)@)
                &&& queue_inv(
                    nodes@,
                    root as int,
                    final(visited)@,
                    final(counter)@,
                    plan@,
                    final(queue)@,
                    head as int,
                )
                &&& forall|k: int| 0 <= k < nodes@.len() ==> g@[k] == final(visited)@[k]
                &&& forall|k: int|
                    0 <= k < nodes@.len() && old(visited)@[k] ==> final(visited)@[k]
                &&& final(queue)@.len() + arrears(
                    plan@,
                    final(counter)@,
                    nodes@.len() as int,
                ) == old(queue)@.len() + arrears(plan@, old(counter)@, nodes@.len() as int)
            },
            Err(e) => {
                &&& graph_output(nodes@, root as int, x) is None
                &&& e.id < nodes@.len()
                &&& failed_at(nodes@, root as int, x, e.id as int)
                &&& e.name@ == nodes@[e.id as int].name@
            },
        },
{
    let ghost n = nodes@.len() as int;
    let nlen = nodes.len();
    proof {
        assert(n == nlen as int);
    }
    let ghost entry_measure = old(queue)@.len() + arrears(plan@, old(counter)@, n);
    let ghost mut exp: Seq<bool> = expanded;
    let n_children = plan[m].children.len();
    let mut i: usize = 0;
    while i < n_children
        invariant
            graph_wf(nodes@, root as int),
            plan_matches(plan@, nodes@, root as int),
            nodes@[root as int].children@.len() > 0,
            m < nodes@.len(),
            n == nodes@.len() as int,
            n_children == plan@[m as int].children@.len(),
            0 <= i <= n_children,
            reachable(nodes@, root as int, m as int),
            visited@[m as int],
            visited@[root as int],
            !exp[m as int],
            node_out(nodes@, root as int, x, m as int) == Some(val@),
            sched_core(nodes@, root as int, x, visited@, exp, out_vals@),
            counters_ok(nodes@, root as int, exp, counter@),
            queue_inv(nodes@, root as int, visited@, counter@, plan@, queue@, head as int),
            forall|k: int| 0 <= k < n && k != m ==> exp[k] == visited@[k],
            forall|k: int| 0 <= k < n && old(visited)@[k] ==> visited@[k],
            queue@.len() + arrears(plan@, counter@, n) == entry_measure,
            forall|j: int|
                0 <= j < i && !is_stopper(
                    nodes@,
                    root as int,
                    #[trigger] plan@[m as int].children@[j] as int,
                ) ==> visited@[plan@[m as int].children@[j] as int],
        decreases n_children - i,
    {
        let ghost visited_entry = visited@;
        let c = plan[m].children[i];
        proof {
            lemma_plan_child_edge(nodes@, root as int, plan@, m as int, i as int);
            lemma_reachable_bounds(nodes@, root as int, c as int);
        }
        let c_stop = plan[c].n_parents > 1 || plan[c].forkable || plan[c].children.len() == 0;
        proof {
            lemma_stop_test(nodes@, root as int, plan@, c as int);
        }
        if !c_stop && !visited[c] {
            match run_chain(
                nodes,
                plan,
                root,
                Ghost(x),
                visited,
                counter,
                queue,
                head,
                out_vals,
                Ghost(exp),
                Ghost(m as int),
                c,
                val,
            ) {
                Err(e) => {
                    return Err(e);
                },
                Ok(g) => {
                    proof {
                        exp = g@;
                    }
                },
            }
        }
        proof {
            assert(plan@[m as int].children@[i as int] == c);
            if !c_stop {
                assert(visited@[c as int]);
            }
            assert(forall|kk: int| 0 <= kk < n && visited_entry[kk] ==> visited@[kk]);
            assert forall|j: int|
                0 <= j < i + 1 && !is_stopper(
                    nodes@,
                    root as int,
                    #[trigger] plan@[m as int].children@[j] as int,
                ) implies visited@[plan@[m as int].children@[j] as int] by {
                if j < i {
                    lemma_plan_child_edge(nodes@, root as int, plan@, m as int, j);
                    assert(visited_entry[plan@[m as int].children@[j] as int]);
                }
            }
        }
        i += 1;
    }
    // All branches are dispatched: record the arrivals that this node
    // itself delivers to its stopper children, and close the expansion.
    let mut i2: usize = 0;
    proof {
        lemma_dedup_no_duplicates(
            nodes@[m as int].children@,
            nodes@[m as int].children@.len() as int,
        );
    }
    while i2 < n_children
        invariant
            graph_wf(nodes@, root as int),
            plan_matches(plan@, nodes@, root as int),
            nodes@[root as int].children@.len() > 0,
            m < nodes@.len(),
            n == nodes@.len() as int,
            n_children == plan@[m as int].children@.len(),
            0 <= i2 <= n_children,
            plan@[m as int].children@.no_duplicates(),
            reachable(nodes@, root as int, m as int),
            visited@[m as int],
            visited@[root as int],
            !exp[m as int],
            sched_core(nodes@, root as int, x, visited@, exp, out_vals@),
            counter@.len() == n,
            forall|s: int|
                0 <= s < n && is_stopper(nodes@, root as int, s) ==> counter@[s]
                    == marked_parent_count(nodes@, exp, s, n) + if exists|j: int|
                    0 <= j < i2 && (#[trigger] plan@[m as int].children@[j]) == s {
                    1int
                } else {
                    0int
                },
            forall|s: int| 0 <= s < n && !is_stopper(nodes@, root as int, s) ==> counter@[s] == 0,
            queue_inv(nodes@, root as int, visited@, counter@, plan@, queue@, head as int),
            forall|k: int| 0 <= k < n && k != m ==> exp[k] == visited@[k],
            forall|k: int| 0 <= k < n && old(visited)@[k] ==> visited@[k],
            queue@.len() + arrears(plan@, counter@, n) == entry_measure,
            forall|j: int|
                0 <= j < n_children && !is_stopper(
                    nodes@,
                    root as int,
                    #[trigger] plan@[m as int].children@[j] as int,
                ) ==> visited@[plan@[m as int].children@[j] as int],
        decreases n_children - i2,
    {
        let c = plan[m].children[i2];
        proof {
            lemma_plan_child_edge(nodes@, root as int, plan@, m as int, i2 as int);
            lemma_reachable_bounds(nodes@, root as int, c as int);
        }
        let c_stop = plan[c].n_parents > 1 || plan[c].forkable || plan[c].children.len() == 0;
        proof {
            lemma_stop_test(nodes@, root as int, plan@, c as int);
        }
        if c_stop {
            proof {
                assert(!(exists|j: int|
                    0 <= j < i2 && (#[trigger] plan@[m as int].children@[j]) == c as int)) by {
                    if exists|j: int|
                        0 <= j < i2 && (#[trigger] plan@[m as int].children@[j]) == c as int {
                        let j = choose|j: int|
                            0 <= j < i2 && (#[trigger] plan@[m as int].children@[j]) == c as int;
                        assert(plan@[m as int].children@[j] == plan@[m as int].children@[i2 as int]);
                    }
                }
                assert(counter@[c as int] == marked_parent_count(nodes@, exp, c as int, n));
                lemma_mpc_update(nodes@, exp, m as int, c as int, n);
                assert forall|pp: int|
                    0 <= pp < exp.update(m as int, true).len() && exp.update(m as int, true)[pp]
                        implies reachable(nodes@, root as int, pp) by {
                    if pp != m as int {
                        assert(exp[pp]);
                        assert(visited@[pp]);
                    }
                }
                lemma_mpc_le_parents(nodes@, root as int, exp.update(m as int, true), c as int, n);
                lemma_parent_list_len(nodes@, root as int, c as int, n);
                assert(counter@[c as int] < plan@[c as int].n_parents);
            }
            let ghost counter0 = counter@;
            let ghost queue0 = queue@;
            let cnt = counter[c];
            counter[c] = cnt + 1;
            queue.push(c);
            proof {
                assert(counter@ =~= counter0.update(c as int, (cnt + 1) as usize));
                lemma_arrears_update(plan@, counter0, c as int, (cnt + 1) as usize, n);
                lemma_in_tail_push(queue0, head as int, c);
                assert forall|s: int|
                    0 <= s < n && is_stopper(nodes@, root as int, s) && !visited@[s] && counter@[s]
                        == plan@[s].n_parents && plan@[s].n_parents > 0 implies in_tail(
                    queue@,
                    head as int,
                    s,
                ) by {
                    if s == c as int {
                        assert(in_tail(queue@, head as int, c as int));
                    } else {
                        assert(counter0[s] == counter@[s]);
                        assert(in_tail(queue0, head as int, s));
                    }
                }
                assert forall|s: int|
                    0 <= s < n && is_stopper(nodes@, root as int, s) implies counter@[s]
                    == marked_parent_count(nodes@, exp, s, n) + if exists|j: int|
                    0 <= j < i2 + 1 && (#[trigger] plan@[m as int].children@[j]) == s {
                    1int
                } else {
                    0int
                } by {
                    if s == c as int {
                        assert(plan@[m as int].children@[i2 as int] == s);
                    } else {
                        if exists|j: int|
                            0 <= j < i2 + 1 && (#[trigger] plan@[m as int].children@[j]) == s {
                            let j = choose|j: int|
                                0 <= j < i2 + 1 && (#[trigger] plan@[m as int].children@[j]) == s;
                            assert(j < i2);
                        }
                    }
                }
            }
        } else {
            proof {
                assert forall|s: int|
                    0 <= s < n && is_stopper(nodes@, root as int, s) implies counter@[s]
                    == marked_parent_count(nodes@, exp, s, n) + if exists|j: int|
                    0 <= j < i2 + 1 && (#[trigger] plan@[m as int].children@[j]) == s {
                    1int
                } else {
                    0int
                } by {
                    if exists|j: int|
                        0 <= j < i2 + 1 && (#[trigger] plan@[m as int].children@[j]) == s {
                        let j = choose|j: int|
                            0 <= j < i2 + 1 && (#[trigger] plan@[m as int].children@[j]) == s;
                        if j == i2 {
                            assert(s == c as int);
                            assert(false);
                        }
                    }
                }
            }
        }
        i2 += 1;
    }
    proof {
        lemma_expand_node(nodes@, exp, m as int);
        let exp2 = exp.update(m as int, true);
        assert forall|s: int|
            0 <= s < n && is_stopper(nodes@, root as int, s) implies counter@[s]
            == marked_parent_count(nodes@, exp2, s, n) by {
            let raw = nodes@[m as int].children@;
            if has_child(nodes@, m as int, s) {
                let j = choose|j: int| 0 <= j < raw.len() && raw[j] == s;
                assert(raw.take(raw.len() as int)[j] == s);
                assert(raw.take(raw.len() as int).contains(raw[j]));
                lemma_dedup_membership(raw, raw.len() as int, raw[j]);
                let d = dedup_prefix(raw, raw.len() as int);
                assert(d.contains(raw[j]));
                let kk = choose|kk: int| 0 <= kk < d.len() && #[trigger] d[kk] == raw[j];
                assert(plan@[m as int].children@[kk] == s);
            } else {
                if exists|j: int|
                    0 <= j < n_children && (#[trigger] plan@[m as int].children@[j]) == s {
                    let j = choose|j: int|
                        0 <= j < n_children && (#[trigger] plan@[m as int].children@[j]) == s;
                    lemma_dedup_membership(raw, raw.len() as int, s as usize);
                    assert(dedup_prefix(raw, raw.len() as int).contains(s as usize));
                    assert(raw.take(raw.len() as int).contains(s as usize));
                    let jj = choose|jj: int|
                        0 <= jj < raw.len() && #[trigger] raw.take(raw.len() as int)[jj] == s
                            as usize;
                    assert(raw[jj] == s as usize);
                    assert(has_child(nodes@, m as int, s));
                    assert(false);
                }
            }
        }
        assert forall|p: int, cc: int|
            0 <= p < n && exp2[p] && #[trigger] has_child(nodes@, p, cc) && !is_stopper(
                nodes@,
                root as int,
                cc,
            ) implies visited@[cc] by {
            if p == m as int {
                let raw = nodes@[m as int].children@;
                let j = choose|j: int| 0 <= j < raw.len() && raw[j] == cc;
                assert(raw.take(raw.len() as int)[j] == cc);
                assert(raw.take(raw.len() as int).contains(raw[j]));
                lemma_dedup_membership(raw, raw.len() as int, raw[j]);
                let d = dedup_prefix(raw, raw.len() as int);
                assert(d.contains(raw[j]));
                let kk = choose|kk: int| 0 <= kk < d.len() && #[trigger] d[kk] == raw[j];
                assert(plan@[m as int].children@[kk] as int == cc);
            }
        }
        exp = exp2;
    }
    Ok(Ghost(exp))
}

/// A sequence of all-false marks counts nothing.
proof fn lemma_mpc_zero<F>(nodes: Seq<ConcurrentGraphNode<F>>, flags: Seq<bool>, t: int, hi: int)
    requires
        forall|p: int| 0 <= p < flags.len() ==> !flags[p],
        hi <= flags.len(),
    ensures
        marked_parent_count(nodes, flags, t, hi) == 0,
    decreases hi,
{
    if hi > 0 {
        lemma_mpc_zero(nodes, flags, t, hi - 1);
    }
}

/// Completeness of the scheduling run: once the work queue has drained and
/// every visited node has been expanded, every reachable node has executed.
/// A join cannot starve — its last arrival left it waiting in the queue —
/// and a chain node cannot be skipped — its unique parent dispatched it.
proof fn lemma_node_visited<F: Transform>(
    nodes: Seq<ConcurrentGraphNode<F>>,
    root: int,
    x: Seq<F::Elem>,
    visited: Seq<bool>,
    counter: Seq<usize>,
    plan: Seq<IoInternalGraphNode>,
    queue: Seq<usize>,
    head: int,
    out_vals: Seq<Option<Vec<F::Elem>>>,
    nn: int,
)
    requires
        graph_wf(nodes, root),
        plan_matches(plan, nodes, root),
        sched_core(nodes, root, x, visited, visited, out_vals),
        counters_ok(nodes, root, visited, counter),
        queue_inv(nodes, root, visited, counter, plan, queue, head),
        head == queue.len(),
        visited[root],
        reachable(nodes, root, nn),
    ensures
        visited[nn],
    decreases root - nn,
{
    reveal(is_stopper);
    lemma_reachable_bounds(nodes, root, nn);
    let n = nodes.len() as int;
    if nn != root {
        assert forall|p: int|
            reachable(nodes, root, p) && #[trigger] has_child(nodes, p, nn) implies visited[p] by {
            lemma_reachable_bounds(nodes, root, p);
            lemma_has_child_lt(nodes, p, nn);
            lemma_node_visited(nodes, root, x, visited, counter, plan, queue, head, out_vals, p);
        }
        lemma_reachable_has_parent(nodes, root, nn);
        let q = choose|q: int|
            reachable(nodes, root, q) && has_child(nodes, q, nn) && 0 <= q < nodes.len();
        if is_stopper(nodes, root, nn) {
            assert forall|p: int|
                0 <= p < n implies ((visited[p] && #[trigger] has_child(nodes, p, nn)) <==> (
            reachable(nodes, root, p) && has_child(nodes, p, nn))) by {}
            lemma_mpc_eq_parents(nodes, root, visited, nn, n);
            assert(counter[nn] == plan[nn].n_parents);
            lemma_parent_list_witness(nodes, root, nn, q, n);
            assert(plan[nn].n_parents > 0);
            if !visited[nn] {
                assert(in_tail(queue, head, nn));
                assert(false);
            }
        } else {
            assert(visited[q]);
            assert(has_child(nodes, q, nn));
        }
    }
}

/// The arrival counters never exceed the fan-ins, so the arrears are never
/// negative.
proof fn lemma_measure_nonneg<F: Transform>(
    nodes: Seq<ConcurrentGraphNode<F>>,
    root: int,
    exp: Seq<bool>,
    counter: Seq<usize>,
    plan: Seq<IoInternalGraphNode>,
    visited: Seq<bool>,
)
    requires
        graph_wf(nodes, root),
        plan_matches(plan, nodes, root),
        counters_ok(nodes, root, exp, counter),
        exp.len() == nodes.len(),
        visited.len() == nodes.len(),
        forall|k: int| 0 <= k < nodes.len() && exp[k] ==> visited[k],
        forall|k: int| 0 <= k < nodes.len() && visited[k] ==> reachable(nodes, root, k),
    ensures
        forall|m: int| 0 <= m < nodes.len() ==> (#[trigger] counter[m]) <= plan[m].n_parents,
        arrears(plan, counter, nodes.len() as int) >= 0,
{
    let n = nodes.len() as int;
    assert forall|m: int| 0 <= m < nodes.len() implies (#[trigger] counter[m])
        <= plan[m].n_parents by {
        if is_stopper(nodes, root, m) {
            lemma_mpc_le_parents(nodes, root, exp, m, n);
        }
    }
    lemma_arrears_nonneg(plan, counter, n);
}

/// Executes a node whose arrivals are complete: merges the recorded parent
/// outputs in ascending parent order, applies the node's transform exactly
/// once, marks the node visited and dispatches its outgoing branches.
#[verifier::rlimit(100)]
fn execute_ready<F: Transform>(
    nodes: &Vec<ConcurrentGraphNode<F>>,
    plan: &Vec<IoInternalGraphNode>,
    root: usize,
    Ghost(x): Ghost<Seq<F::Elem>>,
    visited: &mut Vec<bool>,
    counter: &mut Vec<usize>,
    queue: &mut Vec<usize>,
    head: usize,
    out_vals: &mut Vec<Option<Vec<F::Elem>>>,
    Ghost(exp0): Ghost<Seq<bool>>,
    t: usize,
) -> (res: Result<Ghost<Seq<bool>>, StageExecutionError>) where F::Elem: Copy
    requires
        graph_wf(nodes@, root as int),
        plan_matches(plan@, nodes@, root as int),
        nodes@[root as int].children@.len() > 0,
        t < nodes@.len(),
        reachable(nodes@, root as int, t as int),
        t != root,
        !old(visited)@[t as int],
        old(visited)@[root as int],
        old(counter)@[t as int] == plan@[t as int].n_parents,
        is_stopper(nodes@, root as int, t as int),
        sched_core(nodes@, root as int, x, old(visited)@, exp0, old(out_vals)@),
        counters_ok(nodes@, root as int, exp0, old(counter)@),
        0 <= head as int <= old(queue)@.len(),
        forall|j: int|
            head <= j < old(queue)@.len() ==> {
                &&& (#[trigger] old(queue)@[j]) < nodes@.len()
                &&& is_stopper(nodes@, root as int, old(queue)@[j] as int)
                &&& reachable(nodes@, root as int, old(queue)@[j] as int)
            },
        forall|s: int|
            0 <= s < nodes@.len() && s != t as int && is_stopper(nodes@, root as int, s)
                && !old(visited)@[s] && old(counter)@[s] == plan@[s].n_parents
                && plan@[s].n_parents > 0 ==> in_tail(old(queue)@, head as int, s),
        forall|k: int| 0 <= k < nodes@.len() ==> exp0[k] == old(visited)@[k],
    ensures
        match res {
            Ok(g) => {
                &&& sched_core(nodes@, root as int, x, final(visited)@, g@, final(out_vals)@)
                &&& counters_ok(nodes@, root as int, g@, final(counter)@)
                &&& queue_inv(
                    nodes@,
                    root as int,
                    final(visited)@,
                    final(counter)@,
                    plan@,
                    final(queue)@,
                    head as int,
                )
                &&& forall|k: int| 0 <= k < nodes@.len() ==> g@[k] == final(visited)@[k]
                &&& final(visited)@[root as int]
                &&& final(queue)@.len() + arrears(
                    plan@,
                    final(counter)@,
                    nodes@.len() as int,
                ) == old(queue)@.len() + arrears(plan@, old(counter)@, nodes@.len() as int)
            },
            Err(e) => {
                &&& graph_output(nodes@, root as int, x) is None
                &&& e.id < nodes@.len()
                &&& failed_at(nodes@, root as int, x, e.id as int)
                &&& e.name@ == nodes@[e.id as int].name@
            },
        },
{
    let ghost n = nodes@.len() as int;
    let nlen = nodes.len();
    proof {
        assert(n == nlen as int);
        assert(old(counter)@[t as int] == marked_parent_count(nodes@, exp0, t as int, n));
        lemma_mpc_full(nodes@, root as int, exp0, t as int, n);
    }
    let mut ins: Vec<F::Elem> = Vec::new();
    let mut p: usize = 0;
    proof {
        assert(merged_inputs(nodes@, root as int, x, t as int, 0) == Some(
            Seq::<F::Elem>::empty(),
        ));
        assert(ins@ =~= Seq::<F::Elem>::empty());
    }
    while p < nlen
        invariant
            graph_wf(nodes@, root as int),
            plan_matches(plan@, nodes@, root as int),
            n == nodes@.len() as int,
            nlen as int == n,
            0 <= p <= nlen,
            t < nodes@.len(),
            reachable(nodes@, root as int, t as int),
            t != root,
            !visited@[t as int],
            visited@ == old(visited)@,
            out_vals@ == old(out_vals)@,
            sched_core(nodes@, root as int, x, visited@, exp0, out_vals@),
            forall|q: int|
                0 <= q < n && reachable(nodes@, root as int, q) && has_child(
                    nodes@,
                    q,
                    t as int,
                ) ==> exp0[q],
            forall|k: int| 0 <= k < n ==> exp0[k] == visited@[k],
            Some(ins@) == merged_inputs(nodes@, root as int, x, t as int, p as int),
        decreases nlen - p,
    {
        if plan[p].reachable && lists_child(&nodes[p], t) {
            proof {
                assert(has_child(nodes@, p as int, t as int));
                assert(visited@[p as int]);
            }
            match &out_vals[p] {
                Some(v) => {
                    extend_elems(&mut ins, v);
                    proof {
                        assert(merged_inputs(nodes@, root as int, x, t as int, p + 1) == Some(
                            ins@,
                        ));
                    }
                },
                None => {
                    proof {
                        assert(false);
                    }
                },
            }
        } else {
            proof {
                assert(merged_inputs(nodes@, root as int, x, t as int, p + 1) == Some(ins@));
            }
        }
        p += 1;
    }
    match nodes[t].f.apply(&ins) {
        None => {
            proof {
                assert(node_out(nodes@, root as int, x, t as int) is None);
                assert(failed_at(nodes@, root as int, x, t as int));
                lemma_failure_propagates(nodes@, root as int, x, t as int);
            }
            Err(StageExecutionError { name: nodes[t].name.clone(), id: t })
        },
        Some(val) => {
            proof {
                assert(node_out(nodes@, root as int, x, t as int) == Some(val@));
            }
            let stored = clone_elems(&val);
            out_vals[t] = Some(stored);
            visited[t] = true;
            proof {
                assert(queue_inv(
                    nodes@,
                    root as int,
                    visited@,
                    counter@,
                    plan@,
                    queue@,
                    head as int,
                ));
            }
            dispatch_children(
                nodes,
                plan,
                root,
                Ghost(x),
                visited,
                counter,
                queue,
                head,
                out_vals,
                Ghost(exp0),
                t,
                &val,
            )
        },
    }
}

impl IoInternalGraphNode {
    /// The breadth-first fork/join scheduler.  Starting from the root, one
    /// compacted chain is dispatched per outgoing branch; every arrival at a
    /// join is counted, a node whose arrivals are complete executes its
    /// transform exactly once on the branches' outputs merged in ascending
    /// parent order, and the visited set keeps any node from being scheduled
    /// twice.  The run either returns the concatenated outputs of the
    /// reachable sinks or fails atomically with a failing stage's name and
    /// identity — partial results from other branches are discarded.
    #[verifier::rlimit(100)]
    pub fn schedule_bfs<F: Transform>(
        nodes: &Vec<ConcurrentGraphNode<F>>,
        plan: &Vec<IoInternalGraphNode>,
        root: usize,
        datum: Vec<F::Elem>,
    ) -> (r: Result<Vec<F::Elem>, StageExecutionError>) where F::Elem: Copy
        requires
            graph_wf(nodes@, root as int),
            plan_matches(plan@, nodes@, root as int),
        ensures
            match r {
                Ok(v) => graph_output(nodes@, root as int, datum@) == Some(v@),
                Err(e) => {
                    &&& graph_output(nodes@, root as int, datum@) is None
                    &&& e.id < nodes@.len()
                    &&& failed_at(nodes@, root as int, datum@, e.id as int)
                    &&& e.name@ == nodes@[e.id as int].name@
                },
            },
    {
        proof {
            lemma_reachable_root(nodes@, root as int);
        }
        if nodes[root].children.len() == 0 {
            // A root with no children degenerates to applying its transform
            // directly.
            return match nodes[root].f.apply(&datum) {
                Some(v) => Ok(v),
                None => Err(
                    StageExecutionError { name: nodes[root].name.clone(), id: root },
                ),
            };
        }
        let nlen = nodes.len();
        let ghost n = nodes@.len() as int;
        let mut visited: Vec<bool> = Vec::new();
        let mut counter: Vec<usize> = Vec::new();
        let mut out_vals: Vec<Option<Vec<F::Elem>>> = Vec::new();
        let mut i: usize = 0;
        while i < nlen
            invariant
                0 <= i <= nlen,
                visited@.len() == i,
                counter@.len() == i,
                out_vals@.len() == i,
                forall|k: int| 0 <= k < i ==> !visited@[k],
                forall|k: int| 0 <= k < i ==> counter@[k] == 0,
                forall|k: int| 0 <= k < i ==> out_vals@[k] is None,
            decreases nlen - i,
        {
            visited.push(false);
            counter.push(0);
            out_vals.push(None);
            i += 1;
        }
        let mut queue: Vec<usize> = Vec::new();
        let mut head: usize = 0;
        visited[root] = true;
        out_vals[root] = Some(clone_elems(&datum));
        let ghost mut exp: Seq<bool> = Seq::new(nodes@.len(), |k: int| false);
        proof {
            assert(n == nlen as int);
            assert forall|t: int| true implies marked_parent_count(nodes@, exp, t, n) == 0 by {
                lemma_mpc_zero(nodes@, exp, t, n);
            }
            assert(sched_core(nodes@, root as int, datum@, visited@, exp, out_vals@));
            assert(counters_ok(nodes@, root as int, exp, counter@));
            assert(queue_inv(
                nodes@,
                root as int,
                visited@,
                counter@,
                plan@,
                queue@,
                head as int,
            ));
        }
        match dispatch_children(
            nodes,
            plan,
            root,
            Ghost(datum@),
            &mut visited,
            &mut counter,
            &mut queue,
            head,
            &mut out_vals,
            Ghost(exp),
            root,
            &datum,
        ) {
            Err(e) => {
                return Err(e);
            },
            Ok(g) => {
                proof {
                    exp = g@;
                }
            },
        }
        while head < queue.len()
            invariant
                graph_wf(nodes@, root as int),
                plan_matches(plan@, nodes@, root as int),
                nodes@[root as int].children@.len() > 0,
                n == nodes@.len() as int,
                nlen as int == n,
                nodes@.len() <= usize::MAX,
                root < nodes@.len(),
                visited@[root as int],
                sched_core(nodes@, root as int, datum@, visited@, exp, out_vals@),
                counters_ok(nodes@, root as int, exp, counter@),
                queue_inv(nodes@, root as int, visited@, counter@, plan@, queue@, head as int),
                forall|k: int| 0 <= k < n ==> exp[k] == visited@[k],
            decreases queue@.len() - head + arrears(plan@, counter@, n),
        {
            let t = queue[head];
            let ghost head0 = head as int;
            head += 1;
            proof {
                assert forall|s: int|
                    0 <= s < n && is_stopper(nodes@, root as int, s) && !visited@[s] && counter@[s]
                        == plan@[s].n_parents && plan@[s].n_parents > 0 && s != t as int implies
                    in_tail(queue@, head as int, s) by {
                    let j = choose|j: int| head0 <= j < queue@.len() && queue@[j] == s;
                    assert(queue@[j] == s && j != head0);
                }
            }
            if !visited[t] && counter[t] == plan[t].n_parents {
                proof {
                    assert(queue@[head0] == t);
                    assert(is_stopper(nodes@, root as int, t as int));
                    assert(reachable(nodes@, root as int, t as int));
                }
                match execute_ready(
                    nodes,
                    plan,
                    root,
                    Ghost(datum@),
                    &mut visited,
                    &mut counter,
                    &mut queue,
                    head,
                    &mut out_vals,
                    Ghost(exp),
                    t,
                ) {
                    Err(e) => {
                        return Err(e);
                    },
                    Ok(g) => {
                        proof {
                            exp = g@;
                        }
                    },
                }
            }
            proof {
                lemma_measure_nonneg(nodes@, root as int, exp, counter@, plan@, visited@);
            }
        }
        // The queue has drained: every reachable node has executed.  Merge
        // the outputs of the reachable sinks in ascending index order.
        proof {
            assert forall|nn: int| reachable(nodes@, root as int, nn) implies visited@[nn] by {
                assert(exp =~= visited@);
                lemma_node_visited(
                    nodes@,
                    root as int,
                    datum@,
                    visited@,
                    counter@,
                    plan@,
                    queue@,
                    head as int,
                    out_vals@,
                    nn,
                );
            }
        }
        let mut out: Vec<F::Elem> = Vec::new();
        let mut s: usize = 0;
        proof {
            assert(sink_concat(nodes@, root as int, datum@, 0) == Some(Seq::<F::Elem>::empty()));
            assert(out@ =~= Seq::<F::Elem>::empty());
        }
        while s < nlen
            invariant
                graph_wf(nodes@, root as int),
                plan_matches(plan@, nodes@, root as int),
                nodes@[root as int].children@.len() > 0,
                n == nodes@.len() as int,
                nlen as int == n,
                0 <= s <= nlen,
                sched_core(nodes@, root as int, datum@, visited@, exp, out_vals@),
                forall|nn: int| reachable(nodes@, root as int, nn) ==> visited@[nn],
                Some(out@) == sink_concat(nodes@, root as int, datum@, s as int),
            decreases nlen - s,
        {
            if plan[s].reachable && nodes[s].children.len() == 0 {
                proof {
                    assert(visited@[s as int]);
                }
                match &out_vals[s] {
                    Some(v) => {
                        extend_elems(&mut out, v);
                        proof {
                            assert(sink_concat(nodes@, root as int, datum@, s + 1) == Some(out@));
                        }
                    },
                    None => {
                        proof {
                            assert(false);
                        }
                    },
                }
            } else {
                proof {
                    assert(sink_concat(nodes@, root as int, datum@, s + 1) == Some(out@));
                }
            }
            s += 1;
        }
        Ok(out)
    }
}

/// The facade of the scheduling engine: compiles the user graph into an
/// execution plan once and runs the fork/join scheduler on demand.  It
/// implements the same evaluation semantics as `ConcurrentComputeGraph` —
/// scheduling changes when work runs, never what comes out.
pub struct IoConcurrentComputeGraph<F> {
    pub root: usize,
    pub nodes: Vec<ConcurrentGraphNode<F>>,
    pub plan: Vec<IoInternalGraphNode>,
}

impl<F: Transform> IoConcurrentComputeGraph<F> {
    /// The graph is well formed and carries its faithful execution plan.
    pub open spec fn wf(&self) -> bool {
        &&& graph_wf(self.nodes@, self.root as int)
        &&& plan_matches(self.plan@, self.nodes@, self.root as int)
    }

    /// Builds the compute graph: the plan is compiled once, here, and every
    /// later run reuses it read-only.
    pub fn new(nodes: Vec<ConcurrentGraphNode<F>>, root: usize) -> (r: Self)
        requires
            graph_wf(nodes@, root as int),
        ensures
            r.wf(),
            r.nodes == nodes,
            r.root == root,
    {
        let plan = IoInternalGraphNode::from(&nodes, root);
        IoConcurrentComputeGraph { root, nodes, plan }
    }

    /// Runs the graph on one input through the fork/join scheduler.  The
    /// result is exactly what the recursive reference engine returns: either
    /// the whole merged output, or an atomic failure carrying the name and
    /// identity of a failing stage.
    pub fn apply(&self, datum: Vec<F::Elem>) -> (r: Result<
        Vec<F::Elem>,
        StageExecutionError,
    >) where F::Elem: Copy
        requires
            self.wf(),
        ensures
            match r {
                Ok(v) => graph_output(self.nodes@, self.root as int, datum@) == Some(v@),
                Err(e) => {
                    &&& graph_output(self.nodes@, self.root as int, datum@) is None
                    &&& e.id < self.nodes@.len()
                    &&& failed_at(self.nodes@, self.root as int, datum@, e.id as int)
                    &&& e.name@ == self.nodes@[e.id as int].name@
                },
            },
    {
        IoInternalGraphNode::schedule_bfs(&self.nodes, &self.plan, self.root, datum)
    }
}

} // verus!
