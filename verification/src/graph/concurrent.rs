//! The user-facing compute graph, its mathematical model, and the recursive
//! (non-concurrent) evaluation engine.
//!
//! A graph is an arena: a vector of nodes in which a node's identity is its
//! index, and edges point from a node to its children by index.  Nodes are
//! built bottom-up — sinks first, sources last — so every child index is
//! strictly below its parent's index, which makes the arena acyclic by
//! construction.  The designated root is the source of the data flow.
//!
//! Evaluation semantics: the root acts as a pure source and hands the call's
//! input unchanged to each of its children (its own transform runs only in
//! the degenerate single-node graph, a dedicated fast path).  Every other
//! reachable node receives the concatenation of its distinct parents'
//! outputs, ordered by ascending parent index, applies its transform to that
//! merged input exactly once, and passes the result on.  The output of the
//! graph is the concatenation of the outputs of its reachable sinks in
//! ascending index order.  A failing transform fails the whole evaluation.

use vstd::prelude::*;

verus! {

use crate::transform::Transform;

/// A stage of the dataflow raised by a run: the name and identity of the
/// node whose transform failed.
#[derive(Debug)]
pub struct StageExecutionError {
    pub name: String,
    pub id: usize,
}

/// A user-authored graph node: a pure transform, a diagnostic name, and the
/// ordered list of children, as indices into the arena the node lives in.
/// Several nodes may list the same child (shared sub-graph); that is the
/// expected way to express diamonds, not an error.
pub struct ConcurrentGraphNode<F> {
    pub f: F,
    pub name: String,
    pub children: Vec<usize>,
}

impl<F> ConcurrentGraphNode<F> {
    /// A node with the given transform, name and children.
    pub fn new(f: F, m: String, children: Vec<usize>) -> (r: Self)
        ensures
            r.f == f,
            r.name == m,
            r.children == children,
    {
        ConcurrentGraphNode { f, name: m, children }
    }

    /// A node with no children: a sink.
    pub fn empty(f: F, m: String) -> (r: Self)
        ensures
            r.f == f,
            r.name == m,
            r.children@ == Seq::<usize>::empty(),
    {
        let children: Vec<usize> = Vec::new();
        ConcurrentGraphNode { f, name: m, children }
    }
}

/// Node `p` lists `c` among its children.
pub open spec fn has_child<F>(nodes: Seq<ConcurrentGraphNode<F>>, p: int, c: int) -> bool {
    exists|j: int| 0 <= j < nodes[p].children@.len() && nodes[p].children@[j] == c
}

/// Every child index lies strictly below its parent's index.  This is the
/// arena's well-formedness invariant: it is what bottom-up construction
/// produces, and it rules out cycles.
pub open spec fn nodes_wf<F>(nodes: Seq<ConcurrentGraphNode<F>>) -> bool {
    forall|i: int, j: int|
        0 <= i < nodes.len() && 0 <= j < nodes[i].children@.len() ==> (#[trigger] nodes[i].children@[j]) < i
}

/// The root index is in range.
pub open spec fn graph_wf<F>(nodes: Seq<ConcurrentGraphNode<F>>, root: int) -> bool {
    &&& nodes_wf(nodes)
    &&& 0 <= root < nodes.len()
}

/// `path` is a walk through the arena following child edges.
pub open spec fn is_path<F>(nodes: Seq<ConcurrentGraphNode<F>>, path: Seq<int>) -> bool {
    &&& path.len() >= 1
    &&& forall|k: int| 0 <= k < path.len() ==> 0 <= #[trigger] path[k] < nodes.len()
    &&& forall|k: int| 0 <= k < path.len() - 1 ==> has_child(nodes, #[trigger] path[k], path[k + 1])
}

/// Node `n` can be reached from the root by following child edges.
pub open spec fn reachable<F>(nodes: Seq<ConcurrentGraphNode<F>>, root: int, n: int) -> bool {
    exists|path: Seq<int>|
        is_path(nodes, path) && path.first() == root && path.last() == n
}

pub proof fn lemma_has_child_lt<F>(nodes: Seq<ConcurrentGraphNode<F>>, p: int, c: int)
    requires
        nodes_wf(nodes),
        0 <= p < nodes.len(),
        has_child(nodes, p, c),
    ensures
        c < p,
{
    let j = choose|j: int| 0 <= j < nodes[p].children@.len() && nodes[p].children@[j] == c;
    assert(nodes[p].children@[j] < p);
}

/// The root reaches itself.
pub proof fn lemma_reachable_root<F>(nodes: Seq<ConcurrentGraphNode<F>>, root: int)
    requires
        graph_wf(nodes, root),
    ensures
        reachable(nodes, root, root),
{
    let path = seq![root];
    assert(path.len() == 1 && path[0] == root);
    assert(is_path(nodes, path));
    assert(path.first() == root && path.last() == root);
}

/// Reachability steps through a child edge.
pub proof fn lemma_reachable_child<F>(
    nodes: Seq<ConcurrentGraphNode<F>>,
    root: int,
    p: int,
    c: int,
)
    requires
        graph_wf(nodes, root),
        reachable(nodes, root, p),
        has_child(nodes, p, c),
        0 <= c < nodes.len(),
    ensures
        reachable(nodes, root, c),
{
    let path = choose|path: Seq<int>|
        is_path(nodes, path) && path.first() == root && path.last() == p;
    let path2 = path.push(c);
    assert forall|k: int| 0 <= k < path2.len() - 1 implies has_child(
        nodes,
        #[trigger] path2[k],
        path2[k + 1],
    ) by {
        if k < path.len() - 1 {
            assert(path2[k] == path[k] && path2[k + 1] == path[k + 1]);
        } else {
            assert(path2[k] == p && path2[k + 1] == c);
        }
    }
    assert(is_path(nodes, path2) && path2.first() == root && path2.last() == c);
}

pub proof fn lemma_path_last_le_first<F>(nodes: Seq<ConcurrentGraphNode<F>>, path: Seq<int>)
    requires
        nodes_wf(nodes),
        is_path(nodes, path),
    ensures
        path.last() <= path.first(),
    decreases path.len(),
{
    if path.len() > 1 {
        let rest = path.drop_first();
        assert forall|k: int| 0 <= k < rest.len() - 1 implies has_child(
            nodes,
            #[trigger] rest[k],
            rest[k + 1],
        ) by {
            assert(rest[k] == path[k + 1] && rest[k + 1] == path[k + 2]);
        }
        assert(is_path(nodes, rest));
        lemma_path_last_le_first(nodes, rest);
        lemma_has_child_lt(nodes, path[0], path[1]);
        assert(rest.last() == path.last());
    }
}

/// A reachable node's index is in range and does not exceed the root's.
pub proof fn lemma_reachable_bounds<F>(nodes: Seq<ConcurrentGraphNode<F>>, root: int, n: int)
    requires
        graph_wf(nodes, root),
        reachable(nodes, root, n),
    ensures
        0 <= n < nodes.len(),
        n <= root,
{
    let path = choose|path: Seq<int>|
        is_path(nodes, path) && path.first() == root && path.last() == n;
    lemma_path_last_le_first(nodes, path);
}

/// The output of node `n`: the root passes the input through; every other
/// node applies its transform to its merged parent outputs.  `None` marks a
/// failure somewhere at or upstream of `n`.
pub open spec fn node_out<F: Transform>(
    nodes: Seq<ConcurrentGraphNode<F>>,
    root: int,
    x: Seq<F::Elem>,
    n: int,
) -> Option<Seq<F::Elem>>
    decreases root - n, 1int, 0int,
    when graph_wf(nodes, root) && reachable(nodes, root, n)
{
    if n == root {
        Some(x)
    } else {
        match merged_inputs(nodes, root, x, n, nodes.len() as int) {
            Some(ins) => nodes[n].f.spec_apply(ins),
            None => None,
        }
    }
}

/// The concatenation, in ascending index order, of the outputs of the
/// reachable parents of `n` with index below `hi`; `None` as soon as one of
/// them fails.  With `hi` at the arena's length this is the merged input
/// that node `n` consumes.
pub open spec fn merged_inputs<F: Transform>(
    nodes: Seq<ConcurrentGraphNode<F>>,
    root: int,
    x: Seq<F::Elem>,
    n: int,
    hi: int,
) -> Option<Seq<F::Elem>>
    decreases root - n, 0int, hi,
    when graph_wf(nodes, root) && reachable(nodes, root, n) && n != root
{
    if hi <= 0 {
        Some(Seq::empty())
    } else {
        let p = hi - 1;
        let rest = merged_inputs(nodes, root, x, n, p);
        if reachable(nodes, root, p) && has_child(nodes, p, n) {
            proof {
                lemma_reachable_bounds(nodes, root, p);
                lemma_has_child_lt(nodes, p, n);
            }
            match (rest, node_out(nodes, root, x, p)) {
                (Some(a), Some(b)) => Some(a + b),
                _ => None,
            }
        } else {
            rest
        }
    }
}

/// Node `n` has no outgoing edges.
pub open spec fn is_sink<F>(nodes: Seq<ConcurrentGraphNode<F>>, n: int) -> bool {
    nodes[n].children@.len() == 0
}

/// The concatenation, in ascending index order, of the outputs of the
/// reachable sinks with index below `hi`; `None` as soon as one fails.
pub open spec fn sink_concat<F: Transform>(
    nodes: Seq<ConcurrentGraphNode<F>>,
    root: int,
    x: Seq<F::Elem>,
    hi: int,
) -> Option<Seq<F::Elem>>
    decreases hi,
{
    if hi <= 0 {
        Some(Seq::empty())
    } else {
        let s = hi - 1;
        let rest = sink_concat(nodes, root, x, hi - 1);
        if reachable(nodes, root, s) && is_sink(nodes, s) {
            match (rest, node_out(nodes, root, x, s)) {
                (Some(a), Some(b)) => Some(a + b),
                _ => None,
            }
        } else {
            rest
        }
    }
}

/// What one run of the graph on input `x` returns: the fast path applies a
/// childless root's transform directly; otherwise the concatenated outputs
/// of the reachable sinks, in ascending index order.  `None` when any
/// transform involved fails.
pub open spec fn graph_output<F: Transform>(
    nodes: Seq<ConcurrentGraphNode<F>>,
    root: int,
    x: Seq<F::Elem>,
) -> Option<Seq<F::Elem>> {
    if nodes[root].children@.len() == 0 {
        nodes[root].f.spec_apply(x)
    } else {
        sink_concat(nodes, root, x, nodes.len() as int)
    }
}

/// The run failed at node `n`: `n`'s own transform is the one that failed,
/// on the merged input that the evaluation semantics hand it.
pub open spec fn failed_at<F: Transform>(
    nodes: Seq<ConcurrentGraphNode<F>>,
    root: int,
    x: Seq<F::Elem>,
    n: int,
) -> bool {
    &&& reachable(nodes, root, n)
    &&& if n == root {
        nodes[root].f.spec_apply(x) is None
    } else {
        merged_inputs(nodes, root, x, n, nodes.len() as int) matches Some(ins)
            && nodes[n].f.spec_apply(ins) is None
    }
}

/// The reachable parents of `c` with index below `hi`, in ascending order.
/// Duplicate edges between the same pair of nodes collapse: each parent
/// appears at most once, whatever the shape of its child list.
pub open spec fn parent_list<F>(
    nodes: Seq<ConcurrentGraphNode<F>>,
    root: int,
    c: int,
    hi: int,
) -> Seq<usize>
    decreases hi,
{
    if hi <= 0 {
        Seq::empty()
    } else {
        parent_list(nodes, root, c, hi - 1) + if reachable(nodes, root, hi - 1) && has_child(
            nodes,
            hi - 1,
            c,
        ) {
            seq![(hi - 1) as usize]
        } else {
            Seq::empty()
        }
    }
}

/// A reachable parent below `hi` makes the parent list nonempty.
pub proof fn lemma_parent_list_witness<F>(
    nodes: Seq<ConcurrentGraphNode<F>>,
    root: int,
    c: int,
    q: int,
    hi: int,
)
    requires
        0 <= q < hi,
        reachable(nodes, root, q),
        has_child(nodes, q, c),
    ensures
        parent_list(nodes, root, c, hi).len() >= 1,
    decreases hi,
{
    if q < hi - 1 {
        lemma_parent_list_witness(nodes, root, c, q, hi - 1);
    }
}

/// Two distinct reachable parents below `hi` make the parent list hold at
/// least two entries.
pub proof fn lemma_parent_list_two<F>(
    nodes: Seq<ConcurrentGraphNode<F>>,
    root: int,
    c: int,
    q1: int,
    q2: int,
    hi: int,
)
    requires
        0 <= q1 < q2 < hi,
        reachable(nodes, root, q1),
        has_child(nodes, q1, c),
        reachable(nodes, root, q2),
        has_child(nodes, q2, c),
    ensures
        parent_list(nodes, root, c, hi).len() >= 2,
    decreases hi,
{
    if q2 < hi - 1 {
        lemma_parent_list_two(nodes, root, c, q1, q2, hi - 1);
    } else {
        lemma_parent_list_witness(nodes, root, c, q1, hi - 1);
    }
}

/// A node on a path is itself reachable, and a reachable non-root node has
/// a reachable parent.
pub proof fn lemma_reachable_has_parent<F>(nodes: Seq<ConcurrentGraphNode<F>>, root: int, n: int)
    requires
        graph_wf(nodes, root),
        reachable(nodes, root, n),
        n != root,
    ensures
        exists|q: int|
            reachable(nodes, root, q) && has_child(nodes, q, n) && 0 <= q < nodes.len(),
{
    let path = choose|path: Seq<int>|
        is_path(nodes, path) && path.first() == root && path.last() == n;
    assert(path.len() >= 2);
    let prefix = path.take(path.len() - 1);
    assert forall|k: int| 0 <= k < prefix.len() - 1 implies has_child(
        nodes,
        #[trigger] prefix[k],
        prefix[k + 1],
    ) by {
        assert(prefix[k] == path[k] && prefix[k + 1] == path[k + 1]);
    }
    assert(is_path(nodes, prefix));
    let q = path[path.len() - 2];
    assert(prefix.first() == root && prefix.last() == q);
    assert(reachable(nodes, root, q));
    assert(has_child(nodes, q, n));
}

/// Once one of a node's merged inputs fails, widening the scan keeps the
/// failure.
pub proof fn lemma_merged_none_mono<F: Transform>(
    nodes: Seq<ConcurrentGraphNode<F>>,
    root: int,
    x: Seq<F::Elem>,
    n: int,
    h1: int,
    h2: int,
)
    requires
        graph_wf(nodes, root),
        reachable(nodes, root, n),
        n != root,
        0 <= h1 <= h2,
        merged_inputs(nodes, root, x, n, h1) is None,
    ensures
        merged_inputs(nodes, root, x, n, h2) is None,
    decreases h2 - h1,
{
    if h2 > h1 {
        lemma_merged_none_mono(nodes, root, x, n, h1, h2 - 1);
    }
}

/// A failing reachable sink poisons the concatenated sink outputs.
pub proof fn lemma_sink_concat_none<F: Transform>(
    nodes: Seq<ConcurrentGraphNode<F>>,
    root: int,
    x: Seq<F::Elem>,
    s: int,
    hi: int,
)
    requires
        graph_wf(nodes, root),
        reachable(nodes, root, s),
        is_sink(nodes, s),
        node_out(nodes, root, x, s) is None,
        s < hi,
    ensures
        sink_concat(nodes, root, x, hi) is None,
    decreases hi,
{
    if s < hi - 1 {
        lemma_sink_concat_none(nodes, root, x, s, hi - 1);
    }
}

/// A node with a single reachable parent receives exactly that parent's
/// output as its merged input.
pub proof fn lemma_merged_single_parent<F: Transform>(
    nodes: Seq<ConcurrentGraphNode<F>>,
    root: int,
    x: Seq<F::Elem>,
    n: int,
    q: int,
    v: Seq<F::Elem>,
    hi: int,
)
    requires
        graph_wf(nodes, root),
        reachable(nodes, root, n),
        n != root,
        reachable(nodes, root, q),
        has_child(nodes, q, n),
        parent_list(nodes, root, n, nodes.len() as int).len() <= 1,
        node_out(nodes, root, x, q) == Some(v),
        q < hi <= nodes.len(),
    ensures
        merged_inputs(nodes, root, x, n, hi) == Some(v),
    decreases hi,
{
    lemma_reachable_bounds(nodes, root, q);
    let p = hi - 1;
    if p == q {
        assert(merged_inputs(nodes, root, x, n, p) == Some(Seq::<F::Elem>::empty())) by {
            lemma_merged_no_parents_below(nodes, root, x, n, q, p);
        }
        assert(Seq::<F::Elem>::empty() + v =~= v);
    } else {
        if reachable(nodes, root, p) && has_child(nodes, p, n) {
            lemma_parent_list_two(nodes, root, n, q, p, nodes.len() as int);
            assert(false);
        }
        lemma_merged_single_parent(nodes, root, x, n, q, v, hi - 1);
    }
}

proof fn lemma_merged_no_parents_below<F: Transform>(
    nodes: Seq<ConcurrentGraphNode<F>>,
    root: int,
    x: Seq<F::Elem>,
    n: int,
    q: int,
    hi: int,
)
    requires
        graph_wf(nodes, root),
        reachable(nodes, root, n),
        n != root,
        reachable(nodes, root, q),
        has_child(nodes, q, n),
        q < nodes.len(),
        parent_list(nodes, root, n, nodes.len() as int).len() <= 1,
        0 <= hi <= q,
    ensures
        merged_inputs(nodes, root, x, n, hi) == Some(Seq::<F::Elem>::empty()),
    decreases hi,
{
    if hi > 0 {
        let p = hi - 1;
        if reachable(nodes, root, p) && has_child(nodes, p, n) {
            lemma_parent_list_two(nodes, root, n, p, q, nodes.len() as int);
            assert(false);
        }
        lemma_merged_no_parents_below(nodes, root, x, n, q, hi - 1);
    }
}

/// A failure anywhere reachable poisons the whole run: every downstream
/// chain of children carries the `None` through to some sink.
pub proof fn lemma_failure_propagates<F: Transform>(
    nodes: Seq<ConcurrentGraphNode<F>>,
    root: int,
    x: Seq<F::Elem>,
    t: int,
)
    requires
        graph_wf(nodes, root),
        reachable(nodes, root, t),
        node_out(nodes, root, x, t) is None,
    ensures
        sink_concat(nodes, root, x, nodes.len() as int) is None,
    decreases t,
{
    lemma_reachable_bounds(nodes, root, t);
    if is_sink(nodes, t) {
        lemma_sink_concat_none(nodes, root, x, t, nodes.len() as int);
    } else {
        let c = nodes[t].children@[0] as int;
        assert(has_child(nodes, t, c));
        lemma_has_child_lt(nodes, t, c);
        lemma_reachable_child(nodes, root, t, c);
        assert(c != root) by {
            lemma_reachable_bounds(nodes, root, t);
        }
        assert(merged_inputs(nodes, root, x, c, t + 1) is None);
        lemma_merged_none_mono(nodes, root, x, c, t + 1, nodes.len() as int);
        assert(node_out(nodes, root, x, c) is None);
        lemma_failure_propagates(nodes, root, x, c);
    }
}

/// A fresh vector holding the same elements.
pub(crate) fn clone_elems<T: Copy>(v: &Vec<T>) -> (r: Vec<T>)
    ensures
        r@ == v@,
{
    let mut r: Vec<T> = Vec::new();
    let mut i: usize = 0;
    while i < v.len()
        invariant
            0 <= i <= v@.len(),
            r@ == v@.take(i as int),
        decreases v@.len() - i,
    {
        r.push(v[i]);
        proof {
            assert(v@.take(i + 1) =~= v@.take(i as int).push(v@[i as int]));
        }
        i += 1;
    }
    proof {
        assert(v@.take(v@.len() as int) =~= v@);
    }
    r
}

/// Appends all elements of `src` to `dst`.
pub(crate) fn extend_elems<T: Copy>(dst: &mut Vec<T>, src: &Vec<T>)
    ensures
        final(dst)@ == old(dst)@ + src@,
{
    let mut i: usize = 0;
    while i < src.len()
        invariant
            0 <= i <= src@.len(),
            dst@ == old(dst)@ + src@.take(i as int),
        decreases src@.len() - i,
    {
        dst.push(src[i]);
        proof {
            assert(old(dst)@ + src@.take(i + 1) =~= (old(dst)@ + src@.take(i as int)).push(
                src@[i as int],
            ));
        }
        i += 1;
    }
    proof {
        assert(src@.take(src@.len() as int) =~= src@);
    }
}

/// Does `node` list `c` among its children?
pub(crate) fn lists_child<F>(node: &ConcurrentGraphNode<F>, c: usize) -> (b: bool)
    ensures
        b == exists|j: int| 0 <= j < node.children@.len() && node.children@[j] == c,
{
    let mut j: usize = 0;
    while j < node.children.len()
        invariant
            0 <= j <= node.children@.len(),
            forall|k: int| 0 <= k < j ==> node.children@[k] != c,
        decreases node.children@.len() - j,
    {
        if node.children[j] == c {
            return true;
        }
        j += 1;
    }
    false
}

proof fn lemma_path_marked<F>(
    nodes: Seq<ConcurrentGraphNode<F>>,
    marked: Seq<bool>,
    path: Seq<int>,
)
    requires
        nodes_wf(nodes),
        marked.len() == nodes.len(),
        is_path(nodes, path),
        marked[path.first()],
        forall|q: int, j: int|
            0 <= q < nodes.len() && marked[q] && 0 <= j < nodes[q].children@.len()
                ==> marked[#[trigger] nodes[q].children@[j] as int],
    ensures
        marked[path.last()],
    decreases path.len(),
{
    if path.len() > 1 {
        let prefix = path.drop_last();
        assert forall|k: int| 0 <= k < prefix.len() - 1 implies has_child(
            nodes,
            #[trigger] prefix[k],
            prefix[k + 1],
        ) by {
            assert(prefix[k] == path[k] && prefix[k + 1] == path[k + 1]);
        }
        assert(is_path(nodes, prefix));
        lemma_path_marked(nodes, marked, prefix);
        let q = path[path.len() - 2];
        assert(has_child(nodes, q, path.last()));
        let j = choose|j: int|
            0 <= j < nodes[q].children@.len() && nodes[q].children@[j] == path.last();
        assert(marked[nodes[q].children@[j] as int]);
    }
}

/// A marked set that contains the root and is closed under child edges
/// covers every reachable node.
proof fn lemma_closed_marked_complete<F>(
    nodes: Seq<ConcurrentGraphNode<F>>,
    root: int,
    marked: Seq<bool>,
)
    requires
        graph_wf(nodes, root),
        marked.len() == nodes.len(),
        marked[root],
        forall|q: int, j: int|
            0 <= q < nodes.len() && marked[q] && 0 <= j < nodes[q].children@.len()
                ==> marked[#[trigger] nodes[q].children@[j] as int],
    ensures
        forall|n: int| reachable(nodes, root, n) ==> marked[n],
{
    assert forall|n: int| reachable(nodes, root, n) implies marked[n] by {
        let path = choose|path: Seq<int>|
            is_path(nodes, path) && path.first() == root && path.last() == n;
        lemma_path_marked(nodes, marked, path);
    }
}

/// Marks exactly the nodes reachable from the root.  Children sit strictly
/// below their parents, so one descending sweep settles reachability: by the
/// time a node is inspected every one of its possible parents has been.
pub(crate) fn compute_reachable<F>(nodes: &Vec<ConcurrentGraphNode<F>>, root: usize) -> (r: Vec<
    bool,
>)
    requires
        graph_wf(nodes@, root as int),
    ensures
        r@.len() == nodes@.len(),
        forall|n: int| 0 <= n < nodes@.len() ==> r@[n] == reachable(nodes@, root as int, n),
{
    let n_len = nodes.len();
    let mut marked: Vec<bool> = Vec::new();
    let mut i: usize = 0;
    while i < n_len
        invariant
            0 <= i <= n_len,
            marked@.len() == i,
            forall|m: int| 0 <= m < i ==> !marked@[m],
        decreases n_len - i,
    {
        marked.push(false);
        i += 1;
    }
    marked[root] = true;
    proof {
        lemma_reachable_root(nodes@, root as int);
    }
    let mut p: usize = root + 1;
    while p > 0
        invariant
            graph_wf(nodes@, root as int),
            0 <= p <= root + 1,
            root < nodes@.len() == marked@.len(),
            marked@[root as int],
            forall|m: int| 0 <= m < marked@.len() && marked@[m] ==> reachable(
                nodes@,
                root as int,
                m,
            ),
            forall|q: int, j: int|
                p <= q < nodes@.len() && marked@[q] && 0 <= j < nodes@[q].children@.len()
                    ==> marked@[#[trigger] nodes@[q].children@[j] as int],
        decreases p,
    {
        p -= 1;
        if marked[p] {
            let mut j: usize = 0;
            while j < nodes[p].children.len()
                invariant
                    graph_wf(nodes@, root as int),
                    0 <= p < nodes@.len(),
                    0 <= j <= nodes@[p as int].children@.len(),
                    root < nodes@.len() == marked@.len(),
                    marked@[root as int],
                    marked@[p as int],
                    reachable(nodes@, root as int, p as int),
                    forall|m: int| 0 <= m < marked@.len() && marked@[m] ==> reachable(
                        nodes@,
                        root as int,
                        m,
                    ),
                    forall|q: int, jj: int|
                        p + 1 <= q < nodes@.len() && marked@[q] && 0 <= jj < nodes@[q].children@.len()
                            ==> marked@[#[trigger] nodes@[q].children@[jj] as int],
                    forall|jj: int| 0 <= jj < j ==> marked@[#[trigger] nodes@[p as int].children@[jj] as int],
                decreases nodes@[p as int].children@.len() - j,
            {
                let c = nodes[p].children[j];
                proof {
                    assert(has_child(nodes@, p as int, c as int));
                    lemma_has_child_lt(nodes@, p as int, c as int);
                    lemma_reachable_child(nodes@, root as int, p as int, c as int);
                }
                marked[c] = true;
                j += 1;
            }
        }
    }
    proof {
        lemma_closed_marked_complete(nodes@, root as int, marked@);
    }
    marked
}

/// The transposed form of the graph: one entry per arena slot, pointing to
/// its distinct reachable parents (ascending) instead of its children, with
/// a flag saying whether the node takes part in the graph at all.  Built
/// once per compute graph and read-only afterwards.
pub struct ConcurrentInternalGraphNode {
    pub name: String,
    pub parents: Vec<usize>,
    pub reachable: bool,
}

/// `internal` is the faithful transposition of the graph `(nodes, root)`.
pub open spec fn internal_matches<F>(
    internal: Seq<ConcurrentInternalGraphNode>,
    nodes: Seq<ConcurrentGraphNode<F>>,
    root: int,
) -> bool {
    &&& internal.len() == nodes.len()
    &&& forall|c: int|
        0 <= c < nodes.len() ==> {
            &&& (#[trigger] internal[c]).reachable == reachable(nodes, root, c)
            &&& internal[c].parents@ == parent_list(nodes, root, c, nodes.len() as int)
            &&& internal[c].name@ == nodes[c].name@
        }
}

impl ConcurrentInternalGraphNode {
    /// Transposes the graph reachable from `root`.  Fan-in is counted by a
    /// set union over all (parent, child) edges — a duplicate edge between
    /// the same pair of nodes collapses into one — and only nodes reachable
    /// from the root contribute.
    pub fn from<F>(nodes: &Vec<ConcurrentGraphNode<F>>, root: usize) -> (r: Vec<
        ConcurrentInternalGraphNode,
    >)
        requires
            graph_wf(nodes@, root as int),
        ensures
            internal_matches(r@, nodes@, root as int),
    {
        let reach = compute_reachable(nodes, root);
        let mut internal: Vec<ConcurrentInternalGraphNode> = Vec::new();
        let mut c: usize = 0;
        while c < nodes.len()
            invariant
                graph_wf(nodes@, root as int),
                0 <= c <= nodes@.len(),
                reach@.len() == nodes@.len(),
                forall|n: int| 0 <= n < nodes@.len() ==> reach@[n] == reachable(
                    nodes@,
                    root as int,
                    n,
                ),
                internal@.len() == c,
                forall|m: int|
                    0 <= m < c ==> {
                        &&& (#[trigger] internal@[m]).reachable == reachable(
                            nodes@,
                            root as int,
                            m,
                        )
                        &&& internal@[m].parents@ == parent_list(
                            nodes@,
                            root as int,
                            m,
                            nodes@.len() as int,
                        )
                        &&& internal@[m].name@ == nodes@[m].name@
                    },
            decreases nodes@.len() - c,
        {
            let mut parents: Vec<usize> = Vec::new();
            let mut p: usize = 0;
            proof {
                assert(parents@ =~= parent_list(nodes@, root as int, c as int, 0));
            }
            while p < nodes.len()
                invariant
                    graph_wf(nodes@, root as int),
                    0 <= c < nodes@.len(),
                    0 <= p <= nodes@.len(),
                    reach@.len() == nodes@.len(),
                    forall|n: int| 0 <= n < nodes@.len() ==> reach@[n] == reachable(
                        nodes@,
                        root as int,
                        n,
                    ),
                    parents@ == parent_list(nodes@, root as int, c as int, p as int),
                decreases nodes@.len() - p,
            {
                if reach[p] && lists_child(&nodes[p], c) {
                    parents.push(p);
                    proof {
                        assert(parent_list(nodes@, root as int, c as int, p + 1) =~= parent_list(
                            nodes@,
                            root as int,
                            c as int,
                            p as int,
                        ) + seq![p]);
                    }
                } else {
                    proof {
                        assert(parent_list(nodes@, root as int, c as int, p + 1) =~= parent_list(
                            nodes@,
                            root as int,
                            c as int,
                            p as int,
                        ));
                    }
                }
                p += 1;
            }
            let nm = nodes[c].name.clone();
            let rc = reach[c];
            internal.push(ConcurrentInternalGraphNode { name: nm, parents, reachable: rc });
            c += 1;
        }
        internal
    }
}

impl ConcurrentInternalGraphNode {
    /// Evaluates node `n` by structural recursion: evaluate every distinct
    /// reachable parent, merge their outputs in ascending parent order, and
    /// apply this node's transform once to the merged input.  The root hands
    /// the run's input through unchanged.  This is the simple reference
    /// engine: no concurrency, no compaction.
    pub fn apply<F: Transform>(
        nodes: &Vec<ConcurrentGraphNode<F>>,
        internal: &Vec<ConcurrentInternalGraphNode>,
        root: usize,
        x: &Vec<F::Elem>,
        n: usize,
    ) -> (r: Result<Vec<F::Elem>, StageExecutionError>) where F::Elem: Copy
        requires
            graph_wf(nodes@, root as int),
            internal_matches(internal@, nodes@, root as int),
            reachable(nodes@, root as int, n as int),
        ensures
            match r {
                Ok(v) => node_out(nodes@, root as int, x@, n as int) == Some(v@),
                Err(e) => {
                    &&& node_out(nodes@, root as int, x@, n as int) is None
                    &&& e.id < nodes@.len()
                    &&& failed_at(nodes@, root as int, x@, e.id as int)
                    &&& e.name@ == nodes@[e.id as int].name@
                },
            },
        decreases root - n,
    {
        proof {
            lemma_reachable_bounds(nodes@, root as int, n as int);
        }
        if n == root {
            return Ok(clone_elems(x));
        }
        let mut ins: Vec<F::Elem> = Vec::new();
        let mut p: usize = 0;
        proof {
            assert(merged_inputs(nodes@, root as int, x@, n as int, 0) == Some(
                Seq::<F::Elem>::empty(),
            ));
            assert(ins@ =~= Seq::<F::Elem>::empty());
        }
        while p < nodes.len()
            invariant
                graph_wf(nodes@, root as int),
                internal_matches(internal@, nodes@, root as int),
                reachable(nodes@, root as int, n as int),
                n != root,
                0 <= n < nodes@.len(),
                n <= root,
                0 <= p <= nodes@.len(),
                Some(ins@) == merged_inputs(nodes@, root as int, x@, n as int, p as int),
            decreases nodes@.len() - p,
        {
            if internal[p].reachable && lists_child(&nodes[p], n) {
                proof {
                    assert(has_child(nodes@, p as int, n as int));
                    lemma_has_child_lt(nodes@, p as int, n as int);
                    lemma_reachable_bounds(nodes@, root as int, p as int);
                }
                match ConcurrentInternalGraphNode::apply(nodes, internal, root, x, p) {
                    Ok(v) => {
                        extend_elems(&mut ins, &v);
                        proof {
                            assert(merged_inputs(nodes@, root as int, x@, n as int, p + 1)
                                == Some(ins@));
                        }
                    },
                    Err(e) => {
                        proof {
                            assert(merged_inputs(nodes@, root as int, x@, n as int, p + 1)
                                is None);
                            lemma_merged_none_mono(
                                nodes@,
                                root as int,
                                x@,
                                n as int,
                                p + 1,
                                nodes@.len() as int,
                            );
                            assert(node_out(nodes@, root as int, x@, n as int) is None);
                        }
                        return Err(e);
                    },
                }
            } else {
                proof {
                    assert(merged_inputs(nodes@, root as int, x@, n as int, p + 1) == Some(
                        ins@,
                    ));
                }
            }
            p += 1;
        }
        match nodes[n].f.apply(&ins) {
            Some(v) => {
                proof {
                    assert(node_out(nodes@, root as int, x@, n as int) == Some(v@));
                }
                Ok(v)
            },
            None => {
                proof {
                    assert(node_out(nodes@, root as int, x@, n as int) is None);
                    assert(failed_at(nodes@, root as int, x@, n as int));
                }
                Err(StageExecutionError { name: nodes[n].name.clone(), id: n })
            },
        }
    }
}

/// The facade of the recursive engine: transposes the user graph once at
/// construction and evaluates it by structural recursion on demand.
pub struct ConcurrentComputeGraph<F> {
    pub root: usize,
    pub nodes: Vec<ConcurrentGraphNode<F>>,
    pub internal: Vec<ConcurrentInternalGraphNode>,
}

impl<F: Transform> ConcurrentComputeGraph<F> {
    /// The graph is well formed and carries its faithful transposition.
    pub open spec fn wf(&self) -> bool {
        &&& graph_wf(self.nodes@, self.root as int)
        &&& internal_matches(self.internal@, self.nodes@, self.root as int)
    }

    /// Builds the compute graph: the transposition happens once, here, and
    /// is reused by every later call.
    pub fn new(nodes: Vec<ConcurrentGraphNode<F>>, root: usize) -> (r: Self)
        requires
            graph_wf(nodes@, root as int),
        ensures
            r.wf(),
            r.nodes == nodes,
            r.root == root,
    {
        let internal = ConcurrentInternalGraphNode::from(&nodes, root);
        ConcurrentComputeGraph { root, nodes, internal }
    }

    /// Runs the graph on one input.  Either the whole merged result comes
    /// back, or the call fails atomically with the name and identity of a
    /// failing stage; no partial result is ever returned.
    pub fn apply(&self, datum: Vec<F::Elem>) -> (r: Result<
        Vec<F::Elem>,
        StageExecutionError,
    >) where F::Elem: Copy
        requires
            self.wf(),
        ensures
            match r {
                Ok(v) => graph_output(self.nodes@, self.root as int, datum@) == Some(v@),
                Err(e) => {
                    &&& graph_output(self.nodes@, self.root as int, datum@) is None
                    &&& e.id < self.nodes@.len()
                    &&& failed_at(self.nodes@, self.root as int, datum@, e.id as int)
                    &&& e.name@ == self.nodes@[e.id as int].name@
                },
            },
    {
        proof {
            lemma_reachable_root(self.nodes@, self.root as int);
        }
        if self.nodes[self.root].children.len() == 0 {
            // A root with no children degenerates to applying its transform
            // directly.
            match self.nodes[self.root].f.apply(&datum) {
                Some(v) => Ok(v),
                None => Err(
                    StageExecutionError {
                        name: self.nodes[self.root].name.clone(),
                        id: self.root,
                    },
                ),
            }
        } else {
            let mut out: Vec<F::Elem> = Vec::new();
            let mut s: usize = 0;
            proof {
                assert(sink_concat(self.nodes@, self.root as int, datum@, 0) == Some(
                    Seq::<F::Elem>::empty(),
                ));
                assert(out@ =~= Seq::<F::Elem>::empty());
            }
            while s < self.nodes.len()
                invariant
                    self.wf(),
                    self.nodes@[self.root as int].children@.len() != 0,
                    0 <= s <= self.nodes@.len(),
                    Some(out@) == sink_concat(self.nodes@, self.root as int, datum@, s as int),
                decreases self.nodes@.len() - s,
            {
                if self.internal[s].reachable && self.nodes[s].children.len() == 0 {
                    match ConcurrentInternalGraphNode::apply(
                        &self.nodes,
                        &self.internal,
                        self.root,
                        &datum,
                        s,
                    ) {
                        Ok(v) => {
                            extend_elems(&mut out, &v);
                            proof {
                                assert(sink_concat(
                                    self.nodes@,
                                    self.root as int,
                                    datum@,
                                    s + 1,
                                ) == Some(out@));
                            }
                        },
                        Err(e) => {
                            proof {
                                lemma_sink_concat_none(
                                    self.nodes@,
                                    self.root as int,
                                    datum@,
                                    s as int,
                                    self.nodes@.len() as int,
                                );
                            }
                            return Err(e);
                        },
                    }
                } else {
                    proof {
                        assert(sink_concat(self.nodes@, self.root as int, datum@, s + 1)
                            == Some(out@));
                    }
                }
                s += 1;
            }
            Ok(out)
        }
    }

    /// Runs the same structural plan independently over each input of a
    /// batch.  One failing element fails the whole call; elements never
    /// contaminate each other.
    pub fn apply_batch(&self, data: Vec<Vec<F::Elem>>) -> (r: Result<
        Vec<Vec<F::Elem>>,
        StageExecutionError,
    >) where F::Elem: Copy
        requires
            self.wf(),
        ensures
            match r {
                Ok(vs) => {
                    &&& vs@.len() == data@.len()
                    &&& forall|i: int|
                        0 <= i < data@.len() ==> graph_output(
                            self.nodes@,
                            self.root as int,
                            data@[i]@,
                        ) == Some((#[trigger] vs@[i])@)
                },
                Err(e) => exists|i: int|
                    0 <= i < data@.len() && {
                        &&& graph_output(self.nodes@, self.root as int, (#[trigger] data@[i])@)
                            is None
                        &&& e.id < self.nodes@.len()
                        &&& failed_at(self.nodes@, self.root as int, data@[i]@, e.id as int)
                        &&& e.name@ == self.nodes@[e.id as int].name@
                    },
            },
    {
        let mut vs: Vec<Vec<F::Elem>> = Vec::new();
        let mut i: usize = 0;
        while i < data.len()
            invariant
                self.wf(),
                0 <= i <= data@.len(),
                vs@.len() == i,
                forall|k: int|
                    0 <= k < i ==> graph_output(self.nodes@, self.root as int, data@[k]@)
                        == Some((#[trigger] vs@[k])@),
            decreases data@.len() - i,
        {
            let one = clone_elems(&data[i]);
            match self.apply(one) {
                Ok(v) => {
                    vs.push(v);
                },
                Err(e) => {
                    return Err(e);
                },
            }
            i += 1;
        }
        Ok(vs)
    }
}


/// The parent list never exceeds the scanned range.
pub proof fn lemma_parent_list_len<F>(
    nodes: Seq<ConcurrentGraphNode<F>>,
    root: int,
    c: int,
    hi: int,
)
    requires
        hi >= 0,
    ensures
        parent_list(nodes, root, c, hi).len() <= hi,
    decreases hi,
{
    if hi > 0 {
        lemma_parent_list_len(nodes, root, c, hi - 1);
    }
}

/// Fan-in counts distinct parents only: whatever the shape of the child
/// lists, the parent list of a node is strictly ascending — every distinct
/// reachable parent appears exactly once, and a duplicate edge between the
/// same pair of nodes is collapsed, never double-counted.
pub proof fn lemma_parent_list_distinct<F>(
    nodes: Seq<ConcurrentGraphNode<F>>,
    root: int,
    c: int,
    hi: int,
)
    requires
        0 <= hi <= usize::MAX,
    ensures
        forall|k1: int, k2: int|
            0 <= k1 < k2 < parent_list(nodes, root, c, hi).len() ==> (#[trigger] parent_list(
                nodes,
                root,
                c,
                hi,
            )[k1]) < #[trigger] parent_list(nodes, root, c, hi)[k2],
        forall|k: int|
            0 <= k < parent_list(nodes, root, c, hi).len() ==> {
                &&& (#[trigger] parent_list(nodes, root, c, hi)[k] as int) < hi
                &&& reachable(nodes, root, parent_list(nodes, root, c, hi)[k] as int)
                &&& has_child(nodes, parent_list(nodes, root, c, hi)[k] as int, c)
            },
    decreases hi,
{
    if hi > 0 {
        lemma_parent_list_distinct(nodes, root, c, hi - 1);
        let l0 = parent_list(nodes, root, c, hi - 1);
        let l = parent_list(nodes, root, c, hi);
        if reachable(nodes, root, hi - 1) && has_child(nodes, hi - 1, c) {
            assert(l =~= l0 + seq![(hi - 1) as usize]);
            assert forall|k: int| 0 <= k < l.len() implies {
                &&& (#[trigger] l[k] as int) < hi
                &&& reachable(nodes, root, l[k] as int)
                &&& has_child(nodes, l[k] as int, c)
            } by {
                if k < l0.len() {
                    assert(l[k] == l0[k]);
                } else {
                    assert(l[k] == (hi - 1) as usize);
                }
            }
            assert forall|k1: int, k2: int| 0 <= k1 < k2 < l.len() implies (#[trigger] l[k1])
                < #[trigger] l[k2] by {
                if k2 < l0.len() {
                    assert(l[k1] == l0[k1] && l[k2] == l0[k2]);
                } else {
                    assert(l[k2] == (hi - 1) as usize);
                    assert(l[k1] == l0[k1]);
                    assert((l0[k1] as int) < hi - 1);
                }
            }
        } else {
            assert(l =~= l0);
        }
    }
}

/// A join produces an output only once every one of its incoming branches
/// has delivered: if the merged input of a node exists, then every distinct
/// reachable parent of that node produced an output that went into it.
pub proof fn lemma_join_requires_all_branches<F: Transform>(
    nodes: Seq<ConcurrentGraphNode<F>>,
    root: int,
    x: Seq<F::Elem>,
    j: int,
    hi: int,
)
    requires
        graph_wf(nodes, root),
        reachable(nodes, root, j),
        j != root,
        merged_inputs(nodes, root, x, j, hi) is Some,
    ensures
        forall|p: int|
            0 <= p < hi && reachable(nodes, root, p) && has_child(nodes, p, j) ==> node_out(
                nodes,
                root,
                x,
                p,
            ) is Some,
    decreases hi,
{
    if hi > 0 {
        lemma_join_requires_all_branches(nodes, root, x, j, hi - 1);
    }
}

proof fn lemma_fork_only_reaches_sinks<F>(
    nodes: Seq<ConcurrentGraphNode<F>>,
    root: int,
    m: int,
)
    requires
        graph_wf(nodes, root),
        forall|jj: int|
            0 <= jj < nodes[root].children@.len() ==> is_sink(
                nodes,
                #[trigger] nodes[root].children@[jj] as int,
            ),
        reachable(nodes, root, m),
        m != root,
    ensures
        is_sink(nodes, m),
        has_child(nodes, root, m),
{
    let path = choose|path: Seq<int>|
        is_path(nodes, path) && path.first() == root && path.last() == m;
    assert(path.len() >= 2);
    assert(has_child(nodes, path[0], path[1]));
    let jj = choose|jj: int|
        0 <= jj < nodes[root].children@.len() && nodes[root].children@[jj] == path[1];
    assert(is_sink(nodes, path[1]));
    if path.len() > 2 {
        assert(has_child(nodes, path[1], path[2]));
        let j2 = choose|j2: int|
            0 <= j2 < nodes[path[1] as int].children@.len() && nodes[path[1] as int].children@[j2]
                == path[2];
        assert(false);
    }
    assert(m == path[1]);
}

/// A pure fork: when every child of the root is a sink, each branch's
/// output is exactly that child's transform applied to the run's input —
/// no branch is dropped, none is duplicated, and none sees another
/// branch's data.
pub proof fn lemma_fork_branch_outputs<F: Transform>(
    nodes: Seq<ConcurrentGraphNode<F>>,
    root: int,
    x: Seq<F::Elem>,
)
    requires
        graph_wf(nodes, root),
        forall|jj: int|
            0 <= jj < nodes[root].children@.len() ==> is_sink(
                nodes,
                #[trigger] nodes[root].children@[jj] as int,
            ),
    ensures
        forall|jj: int|
            0 <= jj < nodes[root].children@.len() ==> node_out(
                nodes,
                root,
                x,
                #[trigger] nodes[root].children@[jj] as int,
            ) == nodes[nodes[root].children@[jj] as int].f.spec_apply(x),
        forall|m: int|
            reachable(nodes, root, m) && m != root && is_sink(nodes, m) ==> has_child(
                nodes,
                root,
                m,
            ),
{
    lemma_reachable_root(nodes, root);
    assert forall|jj: int| 0 <= jj < nodes[root].children@.len() implies node_out(
        nodes,
        root,
        x,
        #[trigger] nodes[root].children@[jj] as int,
    ) == nodes[nodes[root].children@[jj] as int].f.spec_apply(x) by {
        let c = nodes[root].children@[jj] as int;
        assert(has_child(nodes, root, c));
        lemma_has_child_lt(nodes, root, c);
        lemma_reachable_child(nodes, root, root, c);
        assert forall|p: int|
            reachable(nodes, root, p) && #[trigger] has_child(nodes, p, c) implies p == root by {
            if p != root {
                lemma_fork_only_reaches_sinks(nodes, root, p);
                let j2 = choose|j2: int|
                    0 <= j2 < nodes[p].children@.len() && nodes[p].children@[j2] == c;
                assert(false);
            }
        }
        lemma_fork_merged_only_root(nodes, root, x, c, nodes.len() as int);
        assert(merged_inputs(nodes, root, x, c, nodes.len() as int) == Some(x));
    }
    assert forall|m: int|
        reachable(nodes, root, m) && m != root && is_sink(nodes, m) implies has_child(
        nodes,
        root,
        m,
    ) by {
        lemma_fork_only_reaches_sinks(nodes, root, m);
    }
}

/// A child of the root with no other distinct reachable parent receives
/// the run's input itself: its branch output is exactly its own transform
/// over the fork's input, whatever hangs below it.
pub proof fn lemma_fork_child_receives_input<F: Transform>(
    nodes: Seq<ConcurrentGraphNode<F>>,
    root: int,
    x: Seq<F::Elem>,
    c: int,
)
    requires
        graph_wf(nodes, root),
        has_child(nodes, root, c),
        parent_list(nodes, root, c, nodes.len() as int).len() <= 1,
    ensures
        node_out(nodes, root, x, c) == nodes[c].f.spec_apply(x),
{
    lemma_reachable_root(nodes, root);
    lemma_has_child_lt(nodes, root, c);
    lemma_reachable_child(nodes, root, root, c);
    assert(node_out(nodes, root, x, root) == Some(x));
    lemma_merged_single_parent(nodes, root, x, c, root, x, nodes.len() as int);
}

/// One step of a join-free chain: a node with a single distinct reachable
/// parent applies its transform to exactly that parent's output.
/// Composing this step along a fork-free, join-free run gives the chain's
/// composed transform — the branch semantics of the compacted chains.
pub proof fn lemma_chain_step_out<F: Transform>(
    nodes: Seq<ConcurrentGraphNode<F>>,
    root: int,
    x: Seq<F::Elem>,
    n: int,
    q: int,
)
    requires
        graph_wf(nodes, root),
        reachable(nodes, root, n),
        n != root,
        reachable(nodes, root, q),
        has_child(nodes, q, n),
        parent_list(nodes, root, n, nodes.len() as int).len() <= 1,
    ensures
        node_out(nodes, root, x, n) == match node_out(nodes, root, x, q) {
            Some(v) => nodes[n].f.spec_apply(v),
            None => None,
        },
{
    lemma_reachable_bounds(nodes, root, q);
    match node_out(nodes, root, x, q) {
        Some(v) => {
            lemma_merged_single_parent(nodes, root, x, n, q, v, nodes.len() as int);
        },
        None => {
            assert(merged_inputs(nodes, root, x, n, q + 1) is None);
            lemma_merged_none_mono(nodes, root, x, n, q + 1, nodes.len() as int);
        },
    }
}

proof fn lemma_fork_merged_only_root<F: Transform>(
    nodes: Seq<ConcurrentGraphNode<F>>,
    root: int,
    x: Seq<F::Elem>,
    c: int,
    hi: int,
)
    requires
        graph_wf(nodes, root),
        reachable(nodes, root, c),
        c != root,
        has_child(nodes, root, c),
        forall|p: int|
            reachable(nodes, root, p) && #[trigger] has_child(nodes, p, c) ==> p == root,
        0 <= hi <= nodes.len(),
    ensures
        merged_inputs(nodes, root, x, c, hi) == if hi <= root {
            Some(Seq::<F::Elem>::empty())
        } else {
            Some(x)
        },
    decreases hi,
{
    lemma_reachable_root(nodes, root);
    if hi > 0 {
        lemma_fork_merged_only_root(nodes, root, x, c, hi - 1);
        let p = hi - 1;
        if p == root {
            assert(node_out(nodes, root, x, root as int) == Some(x));
            assert(Seq::<F::Elem>::empty() + x =~= x);
        } else {
            if reachable(nodes, root, p) && has_child(nodes, p, c) {
                assert(p == root);
                assert(false);
            }
            if p > root {
                assert(!reachable(nodes, root, p)) by {
                    if reachable(nodes, root, p) {
                        lemma_reachable_bounds(nodes, root, p);
                    }
                }
            }
        }
    }
}


/// Checks the arena's well-formedness at run time: every child index lies
/// strictly below its parent's, and the root is in range.  Callers outside
/// the verified world use this to establish the engines' precondition.
pub fn is_well_formed<F>(nodes: &Vec<ConcurrentGraphNode<F>>, root: usize) -> (b: bool)
    ensures
        b == graph_wf(nodes@, root as int),
{
    if root >= nodes.len() {
        return false;
    }
    let mut i: usize = 0;
    while i < nodes.len()
        invariant
            0 <= i <= nodes@.len(),
            forall|m: int, j: int|
                0 <= m < i && 0 <= j < nodes@[m].children@.len() ==> (#[trigger] nodes@[m].children@[j]) < m,
        decreases nodes@.len() - i,
    {
        let mut j: usize = 0;
        while j < nodes[i].children.len()
            invariant
                0 <= i < nodes@.len(),
                0 <= j <= nodes@[i as int].children@.len(),
                forall|jj: int|
                    0 <= jj < j ==> (#[trigger] nodes@[i as int].children@[jj]) < i,
            decreases nodes@[i as int].children@.len() - j,
        {
            if nodes[i].children[j] >= i {
                return false;
            }
            j += 1;
        }
        i += 1;
    }
    true
}

} // verus!
