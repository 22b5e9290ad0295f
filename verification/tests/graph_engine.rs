use flowgraph::graph::concurrent::{ConcurrentComputeGraph, ConcurrentGraphNode};
use flowgraph::graph::easy_functions::EasyFn;
use flowgraph::graph::io_graph::IoConcurrentComputeGraph;

/// The diamond graph of the worked example: start fans out to two middle
/// stages whose results rejoin at the last node.
fn diamond(last: EasyFn) -> (Vec<ConcurrentGraphNode<EasyFn>>, usize) {
    let last_node = ConcurrentGraphNode::empty(last, String::from("last node"));
    let mid1 = ConcurrentGraphNode::new(EasyFn::AddOne, String::from("mid node 1"), vec![0]);
    let mid2 = ConcurrentGraphNode::new(EasyFn::AddFive, String::from("mid node 2"), vec![0]);
    let start = ConcurrentGraphNode::new(EasyFn::AddOne, String::from("start node"), vec![1, 2]);
    (vec![last_node, mid1, mid2, start], 3)
}

#[test]
fn diamond_single_input_recursive_engine() {
    let (nodes, root) = diamond(EasyFn::Square);
    let g = ConcurrentComputeGraph::new(nodes, root);
    let r = g.apply(vec![1, 2]).unwrap();
    assert_eq!(r, vec![4, 9, 36, 49]);
}

#[test]
fn diamond_single_input_scheduler_engine() {
    let (nodes, root) = diamond(EasyFn::Square);
    let g = IoConcurrentComputeGraph::new(nodes, root);
    let r = g.apply(vec![1, 2]).unwrap();
    assert_eq!(r, vec![4, 9, 36, 49]);
}

#[test]
fn both_engines_agree_on_diamond() {
    let (nodes, root) = diamond(EasyFn::Square);
    let g1 = ConcurrentComputeGraph::new(nodes, root);
    let (nodes2, root2) = diamond(EasyFn::Square);
    let g2 = IoConcurrentComputeGraph::new(nodes2, root2);
    for input in [vec![1, 2], vec![0], vec![-3, 7, 11], vec![]] {
        assert_eq!(g1.apply(input.clone()).unwrap(), g2.apply(input).unwrap());
    }
}

#[test]
fn batch_inputs_stay_independent() {
    let (nodes, root) = diamond(EasyFn::Square);
    let g = ConcurrentComputeGraph::new(nodes, root);
    let r = g.apply_batch(vec![vec![1, 2], vec![5, 5]]).unwrap();
    assert_eq!(r.len(), 2);
    assert_eq!(r[0], vec![4, 9, 36, 49]);
    assert_eq!(r[1], vec![36, 36, 100, 100]);
}

#[test]
fn join_executes_once_on_merged_input() {
    // Sum at the join collapses the merged branches to one element: if the
    // join ran once per arriving branch the result would be [5, 13], not
    // the single sum of the merged input [2, 3, 6, 7].
    let (nodes, root) = diamond(EasyFn::Sum);
    let g = IoConcurrentComputeGraph::new(nodes, root);
    let r = g.apply(vec![1, 2]).unwrap();
    assert_eq!(r, vec![18]);
    let (nodes2, root2) = diamond(EasyFn::Sum);
    let g2 = ConcurrentComputeGraph::new(nodes2, root2);
    assert_eq!(g2.apply(vec![1, 2]).unwrap(), vec![18]);
}

#[test]
fn failing_branch_fails_the_whole_call() {
    // mid node 1 fails: the whole run must fail and must not return a
    // partial result built from mid node 2 alone.
    let last_node = ConcurrentGraphNode::empty(EasyFn::Square, String::from("last node"));
    let mid1 = ConcurrentGraphNode::new(EasyFn::Fail, String::from("mid node 1"), vec![0]);
    let mid2 = ConcurrentGraphNode::new(EasyFn::AddFive, String::from("mid node 2"), vec![0]);
    let start = ConcurrentGraphNode::new(EasyFn::AddOne, String::from("start node"), vec![1, 2]);
    let nodes = vec![last_node, mid1, mid2, start];
    let g = IoConcurrentComputeGraph::new(nodes, 3);
    let e = g.apply(vec![1, 2]).unwrap_err();
    assert_eq!(e.name, "mid node 1");
    assert_eq!(e.id, 1);
}

#[test]
fn failing_branch_fails_recursive_engine_too() {
    let last_node = ConcurrentGraphNode::empty(EasyFn::Square, String::from("last node"));
    let mid1 = ConcurrentGraphNode::new(EasyFn::Fail, String::from("mid node 1"), vec![0]);
    let mid2 = ConcurrentGraphNode::new(EasyFn::AddFive, String::from("mid node 2"), vec![0]);
    let start = ConcurrentGraphNode::new(EasyFn::AddOne, String::from("start node"), vec![1, 2]);
    let nodes = vec![last_node, mid1, mid2, start];
    let g = ConcurrentComputeGraph::new(nodes, 3);
    assert!(g.apply(vec![1, 2]).is_err());
}

#[test]
fn duplicate_edges_collapse_in_fan_in() {
    // The root lists the same child twice: the duplicate edge collapses, so
    // the child's fan-in is 1 and its transform runs once.
    let sink = ConcurrentGraphNode::empty(EasyFn::Square, String::from("sink"));
    let mid = ConcurrentGraphNode::new(EasyFn::AddOne, String::from("mid"), vec![0]);
    let root = ConcurrentGraphNode::new(EasyFn::AddOne, String::from("root"), vec![1, 1]);
    let g = IoConcurrentComputeGraph::new(vec![sink, mid, root], 2);
    assert_eq!(g.plan[1].n_parents, 1);
    assert_eq!(g.plan[0].n_parents, 1);
    assert_eq!(g.apply(vec![3]).unwrap(), vec![16]);
}

#[test]
fn diamond_join_has_fan_in_two() {
    let (nodes, root) = diamond(EasyFn::Square);
    let g = IoConcurrentComputeGraph::new(nodes, root);
    assert_eq!(g.plan[0].n_parents, 2);
    assert!(!g.plan[0].forkable);
    assert!(g.plan[3].forkable);
    // The transposed view carries the join's two distinct parents.
    let internal = &ConcurrentComputeGraph::new(diamond(EasyFn::Square).0, root).internal;
    assert_eq!(internal[0].parents, vec![1, 2]);
}

#[test]
fn fork_branch_outputs_are_all_delivered() {
    // A pure fork with sink children: the output is each branch's transform
    // over the input, merged in ascending node order — nothing dropped,
    // nothing duplicated.
    let c1 = ConcurrentGraphNode::empty(EasyFn::AddOne, String::from("branch one"));
    let c2 = ConcurrentGraphNode::empty(EasyFn::AddFive, String::from("branch two"));
    let root = ConcurrentGraphNode::new(EasyFn::AddOne, String::from("root"), vec![0, 1]);
    let g = IoConcurrentComputeGraph::new(vec![c1, c2, root], 2);
    assert_eq!(g.apply(vec![1, 2]).unwrap(), vec![2, 3, 6, 7]);
}

#[test]
fn straight_pipeline_is_compaction_transparent() {
    // A fork- and join-free pipeline: the scheduler compacts it into one
    // chain, the recursive engine does not; the results must be identical.
    let sink = ConcurrentGraphNode::empty(EasyFn::Square, String::from("third"));
    let mid = ConcurrentGraphNode::new(EasyFn::AddFive, String::from("second"), vec![0]);
    let first = ConcurrentGraphNode::new(EasyFn::AddOne, String::from("first"), vec![1]);
    let nodes = vec![sink, mid, first];
    let g1 = ConcurrentComputeGraph::new(rebuild(&nodes), 2);
    let g2 = IoConcurrentComputeGraph::new(nodes, 2);
    let r1 = g1.apply(vec![2]).unwrap();
    let r2 = g2.apply(vec![2]).unwrap();
    assert_eq!(r1, r2);
    assert_eq!(r1, vec![49]);
}

fn rebuild(nodes: &[ConcurrentGraphNode<EasyFn>]) -> Vec<ConcurrentGraphNode<EasyFn>> {
    let mut out = Vec::new();
    for n in nodes {
        out.push(ConcurrentGraphNode::new(n.f, n.name.clone(), n.children.clone()));
    }
    out
}

#[test]
fn single_node_graph_applies_its_transform() {
    let only = ConcurrentGraphNode::empty(EasyFn::Square, String::from("only"));
    let g = IoConcurrentComputeGraph::new(vec![only], 0);
    assert_eq!(g.apply(vec![2, 3]).unwrap(), vec![4, 9]);
    let only2 = ConcurrentGraphNode::empty(EasyFn::Fail, String::from("only"));
    let g2 = IoConcurrentComputeGraph::new(vec![only2], 0);
    let e = g2.apply(vec![2]).unwrap_err();
    assert_eq!(e.id, 0);
}

#[test]
fn eight_node_graph_runs_through_the_scheduler() {
    // A larger shape: two paths of different lengths reconverging twice.
    let node8 = ConcurrentGraphNode::empty(EasyFn::AddOne, String::from("node 8"));
    let node7 = ConcurrentGraphNode::new(EasyFn::AddOne, String::from("node 7"), vec![0]);
    let node3 = ConcurrentGraphNode::new(EasyFn::AddOne, String::from("node 3"), vec![0]);
    let node5 = ConcurrentGraphNode::new(EasyFn::AddOne, String::from("node 5"), vec![1]);
    let node6 = ConcurrentGraphNode::new(EasyFn::AddOne, String::from("node 6"), vec![1]);
    let node4 = ConcurrentGraphNode::new(EasyFn::AddOne, String::from("node 4"), vec![3, 4]);
    let node2 = ConcurrentGraphNode::new(EasyFn::AddOne, String::from("node 2"), vec![2]);
    let node1 = ConcurrentGraphNode::new(EasyFn::AddOne, String::from("node 1"), vec![6, 5]);
    let nodes = vec![node8, node7, node3, node5, node6, node4, node2, node1];
    let g1 = IoConcurrentComputeGraph::new(nodes, 7);
    let mut nodes2 = Vec::new();
    for n in g1.nodes.iter() {
        nodes2.push(ConcurrentGraphNode::new(n.f, n.name.clone(), n.children.clone()));
    }
    let g2 = ConcurrentComputeGraph::new(nodes2, 7);
    let r1 = g1.apply(vec![1, 2]).unwrap();
    let r2 = g2.apply(vec![1, 2]).unwrap();
    assert_eq!(r1, r2);
}

#[test]
fn unreachable_nodes_do_not_count_into_fan_in() {
    // The arena holds a node that the root never reaches; its edge into the
    // sink must not raise the sink's fan-in, or the join would starve.
    let sink = ConcurrentGraphNode::empty(EasyFn::AddOne, String::from("sink"));
    let orphan = ConcurrentGraphNode::new(EasyFn::AddFive, String::from("orphan"), vec![0]);
    let root = ConcurrentGraphNode::new(EasyFn::AddOne, String::from("root"), vec![0]);
    let g = IoConcurrentComputeGraph::new(vec![sink, orphan, root], 2);
    assert_eq!(g.plan[0].n_parents, 1);
    assert!(!g.plan[1].reachable);
    assert_eq!(g.apply(vec![3]).unwrap(), vec![4]);
}

#[test]
fn empty_input_flows_through() {
    let (nodes, root) = diamond(EasyFn::Square);
    let g = IoConcurrentComputeGraph::new(nodes, root);
    assert_eq!(g.apply(vec![]).unwrap(), Vec::<i64>::new());
}

#[test]
fn fork_branches_with_chains_compose_their_transforms() {
    // A fork whose branches are join-free chains: each branch output is
    // the composed transform of its chain applied to the fork's input.
    let b_sink = ConcurrentGraphNode::empty(EasyFn::Square, String::from("after a"));
    let a_mid = ConcurrentGraphNode::new(EasyFn::AddOne, String::from("a"), vec![0]);
    let c_sink = ConcurrentGraphNode::empty(EasyFn::AddFive, String::from("c"));
    let root = ConcurrentGraphNode::new(EasyFn::AddOne, String::from("root"), vec![1, 2]);
    let g = IoConcurrentComputeGraph::new(vec![b_sink, a_mid, c_sink, root], 3);
    // branch one: square(add_one([2, 3])) = [9, 16]; branch two: add_five = [7, 8]
    assert_eq!(g.apply(vec![2, 3]).unwrap(), vec![9, 16, 7, 8]);
}
