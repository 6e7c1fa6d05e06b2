use cascade::compute::{
    Betweeness, Capacity, Compute, ComputeStatus, CopyIteration, DeleteMaxBetweenness,
    DeleteOverloaded, State, UpdatePaths, Zmax,
};
use cascade::graph::{GraphDesc, NodeDesc};
use cascade::node::Node;
use cascade::ratio::Ratio;

fn triangle() -> GraphDesc {
    GraphDesc {
        nodes: vec![
            NodeDesc { node_id: 0, nodes: vec![1, 2] },
            NodeDesc { node_id: 1, nodes: vec![2] },
            NodeDesc { node_id: 2, nodes: vec![] },
        ],
    }
}

fn path_three(edges: &[(u32, u32)]) -> GraphDesc {
    GraphDesc {
        nodes: vec![
            NodeDesc {
                node_id: 0,
                nodes: edges.iter().filter(|e| e.0 == 0).map(|e| e.1).collect(),
            },
            NodeDesc {
                node_id: 1,
                nodes: edges.iter().filter(|e| e.0 == 1).map(|e| e.1).collect(),
            },
            NodeDesc {
                node_id: 2,
                nodes: edges.iter().filter(|e| e.0 == 2).map(|e| e.1).collect(),
            },
        ],
    }
}

// Path reconstruction round trip: costs are symmetric between reachable
// alive nodes, and both endpoints appear in their own membership entries.
#[test]
fn cost_symmetry_and_endpoint_membership() {
    let desc = GraphDesc::example();
    let mut state = State::new(&desc, Ratio::new(3, 1)).unwrap();
    assert!(UpdatePaths.compute(&mut state));
    let it = state.get();
    for s in 0..10u32 {
        for t in 0..10u32 {
            if s != t {
                let ns = Node::new(s);
                let nt = Node::new(t);
                let there = it.graph.path_finder.cost(ns, nt);
                let back = it.graph.path_finder.cost(nt, ns);
                assert_eq!(there, back);
                assert!(there >= 2);
                assert!(it.graph.path_finder.contains((ns, nt), ns));
                assert!(it.graph.path_finder.contains((ns, nt), nt));
            }
        }
    }
}

// Interior nodes of a shortest path are recorded as containing the pair,
// in both pair orders, alongside the endpoints.
#[test]
fn interior_nodes_are_recorded() {
    let chain = path_three(&[(0, 1), (1, 2)]);
    let mut state = State::new(&chain, Ratio::new(3, 1)).unwrap();
    assert!(UpdatePaths.compute(&mut state));
    let pf = &state.get().graph.path_finder;
    assert_eq!(pf.cost(Node::new(0), Node::new(2)), 4);
    assert!(pf.contains((Node::new(0), Node::new(2)), Node::new(1)));
    assert!(pf.contains((Node::new(2), Node::new(0)), Node::new(1)));
    assert!(pf.contains((Node::new(0), Node::new(2)), Node::new(0)));
    assert!(pf.contains((Node::new(0), Node::new(2)), Node::new(2)));
}

// Relabeling scenario: permuting the labels of a three-node path permutes
// the betweenness values identically.
#[test]
fn betweenness_permutes_with_labels() {
    // 0 - 1 - 2, node 1 in the middle
    let original = path_three(&[(0, 1), (1, 2)]);
    // relabeled by 0 -> 2, 1 -> 0, 2 -> 1: node 0 in the middle
    let relabeled = path_three(&[(2, 0), (0, 1)]);
    let perm = [2u32, 0, 1];

    let mut st1 = State::new(&original, Ratio::new(3, 1)).unwrap();
    assert!(UpdatePaths.compute(&mut st1));
    assert!(Betweeness.compute(&mut st1));
    let mut st2 = State::new(&relabeled, Ratio::new(3, 1)).unwrap();
    assert!(UpdatePaths.compute(&mut st2));
    assert!(Betweeness.compute(&mut st2));

    for i in 0..3usize {
        let before = st1.get().info.betweenness.at(Node::new(i as u32));
        let after = st2.get().info.betweenness.at(Node::new(perm[i]));
        assert_eq!(before, after);
    }
    assert_eq!(st1.get().info.betweenness.at(Node::new(1)), 3);
    assert_eq!(st1.get().info.betweenness.at(Node::new(0)), 2);
}

// Exact metric values on the triangle: every cost 2, every z value 12/8,
// beta 0/12, beta delta 12/12, every capacity (1 + 3) * 2 = 8/1.
#[test]
fn triangle_metrics_exact() {
    let mut state = State::new(&triangle(), Ratio::new(3, 1)).unwrap();
    assert!(UpdatePaths.compute(&mut state));
    assert!(Zmax.compute(&mut state));
    assert!(Betweeness.compute(&mut state));
    assert!(Capacity.compute(&mut state));

    let it = state.get();
    for i in 0..3u32 {
        assert_eq!(it.info.zs.at(Node::new(i)), Ratio { num: 12, den: 8 });
        assert_eq!(it.info.betweenness.at(Node::new(i)), 2);
        assert_eq!(it.info.capacity.at(Node::new(i)), Ratio { num: 8, den: 1 });
    }
    assert_eq!(it.info.zmax, Ratio { num: 12, den: 8 });
    assert_eq!(it.info.beta, Ratio { num: 0, den: 12 });
    assert_eq!(it.info.beta_delta, Ratio { num: 12, den: 12 });
    // ties resolve to the first alive node in ascending order
    assert_eq!(it.info.max_betweenness, Node::new(0));
    assert_eq!(it.info.min_betweenness, Node::new(0));
    assert_eq!(it.info.max_capacity, Node::new(0));
    assert_eq!(it.info.min_capacity, Node::new(0));
    assert_eq!(state.beta_deltas, vec![Ratio { num: 12, den: 12 }]);
}

// Capacity equals (1 + alpha) * betweenness exactly, for every alive node,
// immediately after a capacity step — here with alpha = 1/4.
#[test]
fn capacity_is_exactly_scaled_betweenness() {
    let desc = GraphDesc::example();
    let alpha = Ratio::new(1, 4);
    let mut state = State::new(&desc, alpha).unwrap();
    assert!(UpdatePaths.compute(&mut state));
    assert!(Betweeness.compute(&mut state));
    assert!(Capacity.compute(&mut state));
    let it = state.get();
    for i in 0..10u32 {
        let b = it.info.betweenness.at(Node::new(i));
        let c = it.info.capacity.at(Node::new(i));
        assert_eq!(c.num, 5 * b as i64);
        assert_eq!(c.den, 4);
    }
}

// One canonical round on the ten-node example: exactly one node removed
// by the maximum-betweenness step, zero or more by the overload step, and
// exactly one entry appended to each log.
#[test]
fn one_round_on_example() {
    let desc = GraphDesc::example();
    let mut state = State::new(&desc, Ratio::new(3, 1)).unwrap();

    assert!(UpdatePaths.compute(&mut state));
    assert!(Zmax.compute(&mut state));
    assert!(Betweeness.compute(&mut state));
    assert!(Capacity.compute(&mut state));
    assert!(CopyIteration.compute(&mut state));
    assert_eq!(state.iter_count(), 2);
    assert_eq!(state.current_iter(), 1);

    let max_node = state.get().info.max_betweenness;
    assert!(DeleteMaxBetweenness.compute(&mut state));
    assert_eq!(state.get().graph.alive(), 9);
    assert!(!state.get().graph.tracker.is_alive(max_node));
    // the untouched "before" snapshot still has every node alive
    assert_eq!(state.at(0).graph.alive(), 10);

    assert!(UpdatePaths.compute(&mut state));
    assert!(Betweeness.compute(&mut state));
    assert!(DeleteOverloaded.compute(&mut state));
    assert!(state.get().graph.alive() <= 9);

    assert_eq!(state.ks.len(), 1);
    assert_eq!(state.beta_deltas.len(), 1);
}

// A full run terminates, leaves a strictly decreasing alive history, and
// uses at most one round per initially alive node.
#[test]
fn full_run_terminates_with_decreasing_history() {
    let desc = GraphDesc::example();
    let mut compute = Compute::new(&desc, Ratio::new(3, 1)).unwrap();
    let status = compute.run();
    assert!(
        status == ComputeStatus::Converged || status == ComputeStatus::HaltedDisconnected
    );
    let n = compute.state.iter_count();
    assert!(n >= 1);
    assert!(n <= 10);
    for k in 0..n - 1 {
        assert!(compute.state.at(k + 1).graph.alive() < compute.state.at(k).graph.alive());
    }
    // a round halted between its two measurements leaves one extra delta
    assert!(compute.state.ks.len() <= compute.state.beta_deltas.len());
    assert!(compute.state.beta_deltas.len() <= compute.state.ks.len() + 1);
}

// Re-running the identical input yields an identical history: the kernel
// is deterministic.
#[test]
fn identical_runs_identical_history() {
    let desc = GraphDesc::example();
    let alpha = Ratio::new(3, 1);
    let mut first = Compute::new(&desc, alpha).unwrap();
    let s1 = first.run();
    let mut second = Compute::new(&desc, alpha).unwrap();
    let s2 = second.run();
    assert_eq!(s1, s2);
    assert_eq!(first.state, second.state);
}

// A round that removes no node in the overload step records that no
// severity was measurable.
#[test]
fn overload_round_without_removals_logs_none() {
    let mut state = State::new(&triangle(), Ratio::new(3, 1)).unwrap();
    assert!(UpdatePaths.compute(&mut state));
    assert!(Zmax.compute(&mut state));
    assert!(Betweeness.compute(&mut state));
    assert!(Capacity.compute(&mut state));
    assert!(CopyIteration.compute(&mut state));
    assert!(DeleteMaxBetweenness.compute(&mut state));
    assert!(UpdatePaths.compute(&mut state));
    assert!(Betweeness.compute(&mut state));
    assert!(DeleteOverloaded.compute(&mut state));
    assert_eq!(state.ks, vec![None]);
    assert_eq!(state.get().graph.alive(), 2);
}

// The resilience step declines to divide by zero on degenerate inputs.
#[test]
fn zmax_declines_degenerate_networks() {
    let two = GraphDesc {
        nodes: vec![
            NodeDesc { node_id: 0, nodes: vec![1] },
            NodeDesc { node_id: 1, nodes: vec![] },
        ],
    };
    let mut state = State::new(&two, Ratio::new(3, 1)).unwrap();
    assert!(UpdatePaths.compute(&mut state));
    assert!(!Zmax.compute(&mut state));
    assert_eq!(state.beta_deltas.len(), 0);

    // alive enough, but the costs were never computed
    let mut fresh = State::new(&triangle(), Ratio::new(3, 1)).unwrap();
    assert!(!Zmax.compute(&mut fresh));
}

// A fragmented network halts the paths update, not the process.
#[test]
fn disconnected_topology_halts() {
    let split = GraphDesc {
        nodes: vec![
            NodeDesc { node_id: 0, nodes: vec![1] },
            NodeDesc { node_id: 1, nodes: vec![] },
            NodeDesc { node_id: 2, nodes: vec![3] },
            NodeDesc { node_id: 3, nodes: vec![] },
        ],
    };
    let mut state = State::new(&split, Ratio::new(3, 1)).unwrap();
    assert!(!UpdatePaths.compute(&mut state));

    let mut compute = Compute::new(&split, Ratio::new(3, 1)).unwrap();
    assert_eq!(compute.run(), ComputeStatus::HaltedDisconnected);
    assert_eq!(compute.state.iter_count(), 1);
}

// The display cursor wraps in both directions.
#[test]
fn cursor_scrubbing_wraps() {
    let desc = GraphDesc::example();
    let mut compute = Compute::new(&desc, Ratio::new(3, 1)).unwrap();
    compute.run();
    let n = compute.state.iter_count();
    assert!(n >= 2);
    compute.state.set_current_iter(0);
    compute.state.prev();
    assert_eq!(compute.state.current_iter(), n - 1);
    compute.state.next();
    assert_eq!(compute.state.current_iter(), 0);
    compute.state.next_by(-(n as isize) - 1);
    assert_eq!(compute.state.current_iter(), n - 1);
    compute.state.next_by(2 * n as isize + 1);
    assert_eq!(compute.state.current_iter(), 0);
}

// Rational comparisons are value comparisons, independent of form.
#[test]
fn ratio_value_comparisons() {
    let half = Ratio::new(1, 2);
    let two_quarters = Ratio::new(2, 4);
    let third = Ratio::new(1, 3);
    assert!(half.eq_value(&two_quarters));
    assert!(third.lt(&half));
    assert!(third.le(&two_quarters));
    assert!(!half.lt(&two_quarters));
    let cap = Ratio::new(7, 2);
    assert!(cap.count_exceeds(4));
    assert!(!cap.count_exceeds(3));
}
