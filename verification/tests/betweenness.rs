use centrality::betweenness::{compute_betweenness, dependency_steps, Step, PAIR_DIVISOR};
use centrality::shortest_paths::shortest_paths;
use petgraph::graph::DiGraph;

fn graph_of(nodes: u32, edges: &[(u32, u32)]) -> DiGraph<u32, ()> {
    let mut graph: DiGraph<u32, ()> = DiGraph::new();
    let mut indices = Vec::new();
    for label in 0..nodes {
        indices.push(graph.add_node(100 + label));
    }
    for &(from, to) in edges {
        graph.add_edge(indices[from as usize], indices[to as usize], ());
    }
    graph
}

fn betweenness(graph: &DiGraph<u32, ()>) -> Vec<f64> {
    let n = graph.node_count();
    let mut total = vec![0.0f64; n];
    let plans = compute_betweenness(graph).unwrap();
    assert_eq!(plans.len(), n);
    for (source, steps) in plans.into_iter().enumerate() {
        assert_eq!(Some(steps.clone()), dependency_steps(graph, source));
        let mut delta = vec![0.0f64; n];
        for step in steps {
            match step {
                Step::Propagate { from, to, paths_to, paths_from } => {
                    delta[to] += (paths_to as f64 / paths_from as f64) * (1.0 + delta[from]);
                }
                Step::Credit { node } => total[node] += delta[node],
            }
        }
    }
    for value in total.iter_mut() {
        *value /= PAIR_DIVISOR as f64;
    }
    total
}

#[test]
fn test_betweenness_nonnegative() {
    let graph = graph_of(
        8,
        &[(0, 1), (0, 2), (1, 3), (2, 3), (3, 4), (4, 0), (5, 6), (6, 5), (3, 3), (1, 3)],
    );
    let scores = betweenness(&graph);
    assert_eq!(scores.len(), 8);
    for (node, &score) in scores.iter().enumerate() {
        assert!(score >= 0.0, "Node {:?} has negative betweenness: {}", node, score);
    }
}

#[test]
fn betweenness_of_empty_graph_is_empty() {
    let graph = graph_of(0, &[]);
    assert!(betweenness(&graph).is_empty());
}

#[test]
fn betweenness_of_single_node_is_zero() {
    let graph = graph_of(1, &[]);
    assert_eq!(betweenness(&graph), vec![0.0]);
    assert_eq!(dependency_steps(&graph, 0), Some(vec![]));
}

#[test]
fn betweenness_on_directed_path() {
    let graph = graph_of(3, &[(0, 1), (1, 2)]);
    assert_eq!(betweenness(&graph), vec![0.0, 0.5, 0.0]);
}

#[test]
fn betweenness_of_two_disconnected_nodes_is_zero() {
    let graph = graph_of(2, &[]);
    assert_eq!(betweenness(&graph), vec![0.0, 0.0]);
}

#[test]
fn betweenness_twice_gives_the_same_scores() {
    let graph = graph_of(5, &[(0, 1), (0, 2), (1, 3), (2, 3), (3, 4), (4, 0)]);
    assert_eq!(betweenness(&graph), betweenness(&graph));
    assert_eq!(dependency_steps(&graph, 2), dependency_steps(&graph, 2));
}

#[test]
fn betweenness_splits_between_two_equal_paths() {
    // 0 -> 1 -> 3 and 0 -> 2 -> 3: each middle node carries half a path.
    let graph = graph_of(4, &[(0, 1), (0, 2), (1, 3), (2, 3)]);
    assert_eq!(betweenness(&graph), vec![0.0, 0.25, 0.25, 0.0]);
}

#[test]
fn steps_on_directed_path() {
    let graph = graph_of(3, &[(0, 1), (1, 2)]);
    assert_eq!(
        dependency_steps(&graph, 0),
        Some(vec![
            Step::Propagate { from: 2, to: 1, paths_to: 1, paths_from: 1 },
            Step::Credit { node: 2 },
            Step::Propagate { from: 1, to: 0, paths_to: 1, paths_from: 1 },
            Step::Credit { node: 1 },
        ])
    );
    assert_eq!(
        dependency_steps(&graph, 1),
        Some(vec![
            Step::Propagate { from: 2, to: 1, paths_to: 1, paths_from: 1 },
            Step::Credit { node: 2 },
        ])
    );
    assert_eq!(dependency_steps(&graph, 2), Some(vec![]));
}

#[test]
fn shortest_paths_on_a_diamond() {
    let graph = graph_of(5, &[(0, 1), (0, 2), (1, 3), (2, 3), (3, 4)]);
    let paths = shortest_paths(&graph, 0).unwrap();
    // Out-neighbours come latest edge first, so 2 is met before 1.
    assert_eq!(paths.order, vec![0, 2, 1, 3, 4]);
    assert_eq!(paths.dist, vec![Some(0), Some(1), Some(1), Some(2), Some(3)]);
    assert_eq!(paths.sigma, vec![1, 1, 1, 2, 2]);
    assert_eq!(paths.pred, vec![vec![], vec![0], vec![0], vec![2, 1], vec![3]]);
}

#[test]
fn shortest_paths_count_parallel_edges_apart() {
    let graph = graph_of(3, &[(0, 1), (0, 1), (1, 2), (1, 2), (1, 2)]);
    let paths = shortest_paths(&graph, 0).unwrap();
    assert_eq!(paths.sigma, vec![1, 2, 6]);
    assert_eq!(paths.pred, vec![vec![], vec![0, 0], vec![1, 1, 1]]);
}

#[test]
fn shortest_paths_leave_nodes_out_of_reach_unset() {
    let graph = graph_of(4, &[(0, 1), (2, 0), (3, 3)]);
    let paths = shortest_paths(&graph, 0).unwrap();
    assert_eq!(paths.order, vec![0, 1]);
    assert_eq!(paths.dist, vec![Some(0), Some(1), None, None]);
    assert_eq!(paths.sigma, vec![1, 1, 0, 0]);
    assert_eq!(paths.pred, vec![vec![], vec![0], vec![], vec![]]);
}

#[test]
fn shortest_paths_ignore_edges_that_are_no_shortcut() {
    // The self-loop and the edge back to the source lie on no shortest path.
    let graph = graph_of(3, &[(0, 1), (1, 1), (1, 0), (1, 2), (0, 2)]);
    let paths = shortest_paths(&graph, 0).unwrap();
    assert_eq!(paths.dist, vec![Some(0), Some(1), Some(1)]);
    assert_eq!(paths.sigma, vec![1, 1, 1]);
    assert_eq!(paths.pred, vec![vec![], vec![0], vec![0]]);
}

#[test]
fn path_counts_beyond_64_bits_are_refused() {
    // 65 stages of two parallel edges: 2^65 shortest paths to the last node.
    let mut edges = Vec::new();
    for stage in 0..65u32 {
        edges.push((stage, stage + 1));
        edges.push((stage, stage + 1));
    }
    let graph = graph_of(66, &edges);
    assert!(shortest_paths(&graph, 0).is_none());
    assert!(dependency_steps(&graph, 0).is_none());
    assert!(compute_betweenness(&graph).is_none());
    // From the second node on there are 2^64 - which is one too many.
    assert!(shortest_paths(&graph, 1).is_none());
    // 2^63 fits.
    let paths = shortest_paths(&graph, 2).unwrap();
    assert_eq!(paths.sigma[65], 1u64 << 63);
}

#[test]
fn betweenness_of_a_hub() {
    // Every path between two leaves runs through the hub 0.
    let graph = graph_of(4, &[(1, 0), (2, 0), (3, 0), (0, 1), (0, 2), (0, 3)]);
    assert_eq!(betweenness(&graph), vec![3.0, 0.0, 0.0, 0.0]);
}

#[test]
fn steps_read_a_dependency_only_once_it_is_complete() {
    let graph = graph_of(
        7,
        &[(0, 1), (0, 2), (1, 3), (2, 3), (3, 4), (3, 5), (4, 6), (5, 6), (6, 0), (2, 2)],
    );
    for source in 0..7 {
        let steps = dependency_steps(&graph, source).unwrap();
        for (later, step) in steps.iter().enumerate() {
            if let Step::Propagate { to, paths_to, paths_from, .. } = *step {
                assert!(paths_to >= 1 && paths_from >= 1);
                for earlier in &steps[..later] {
                    let read = match *earlier {
                        Step::Propagate { from, .. } => from,
                        Step::Credit { node } => node,
                    };
                    assert_ne!(read, to);
                }
            }
        }
    }
}

/// The betweenness by its definition: for every pair of a source and a target,
/// the part of their shortest paths that pass through the node.
fn betweenness_by_pairs(graph: &DiGraph<u32, ()>) -> Vec<f64> {
    let n = graph.node_count();
    let mut from = Vec::new();
    for source in 0..n {
        from.push(shortest_paths(graph, source).unwrap());
    }
    let mut scores = vec![0.0f64; n];
    for v in 0..n {
        for s in 0..n {
            for t in 0..n {
                if s == v || t == v || s == t {
                    continue;
                }
                if let (Some(sv), Some(vt), Some(st)) = (from[s].dist[v], from[v].dist[t], from[s].dist[t]) {
                    if sv + vt == st {
                        let through = from[s].sigma[v] * from[v].sigma[t];
                        scores[v] += through as f64 / from[s].sigma[t] as f64;
                    }
                }
            }
        }
        scores[v] /= 2.0;
    }
    scores
}

#[test]
fn betweenness_is_the_part_of_shortest_paths_through_a_node() {
    let graphs = [
        graph_of(3, &[(0, 1), (1, 2)]),
        graph_of(4, &[(0, 1), (0, 2), (1, 3), (2, 3)]),
        graph_of(4, &[(1, 0), (2, 0), (3, 0), (0, 1), (0, 2), (0, 3)]),
        graph_of(
            8,
            &[(0, 1), (0, 2), (1, 3), (2, 3), (3, 4), (4, 0), (5, 6), (6, 5), (3, 3), (1, 3)],
        ),
        graph_of(
            7,
            &[(0, 1), (0, 2), (1, 3), (2, 3), (3, 4), (3, 5), (4, 6), (5, 6), (6, 0), (2, 2)],
        ),
        graph_of(5, &[(0, 1), (0, 1), (1, 2), (1, 3), (2, 4), (3, 4), (3, 4), (4, 0)]),
    ];
    for graph in &graphs {
        let planned = betweenness(graph);
        let defined = betweenness_by_pairs(graph);
        assert_eq!(planned.len(), defined.len());
        for (node, (a, b)) in planned.iter().zip(&defined).enumerate() {
            assert!((a - b).abs() < 1e-9, "node {}: {} against {}", node, a, b);
        }
    }
}

#[test]
fn betweenness_with_parallel_edges() {
    // Two edges 0 -> 1, one edge 0 -> 2, and one edge from each to 3: of the
    // three shortest paths from 0 to 3, two pass through 1 and one through 2.
    let graph = graph_of(4, &[(0, 1), (0, 1), (0, 2), (1, 3), (2, 3)]);
    let scores = betweenness(&graph);
    assert!((scores[1] - 1.0 / 3.0).abs() < 1e-12);
    assert!((scores[2] - 1.0 / 6.0).abs() < 1e-12);
    assert_eq!(scores[0], 0.0);
    assert_eq!(scores[3], 0.0);
}
