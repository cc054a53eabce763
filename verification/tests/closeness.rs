use centrality::closeness::{compute_closeness, node_closeness, Ratio};
use petgraph::graph::DiGraph;

fn graph_of(nodes: u32, edges: &[(u32, u32)]) -> DiGraph<u32, ()> {
    let mut graph: DiGraph<u32, ()> = DiGraph::new();
    let mut indices = Vec::new();
    for label in 0..nodes {
        indices.push(graph.add_node(100 + label));
    }
    for &(from, to) in edges {
        graph.add_edge(indices[from as usize], indices[to as usize], ());
    }
    graph
}

fn value(score: Ratio) -> f64 {
    score.num as f64 / score.den as f64
}

#[test]
fn test_closeness_nonnegative() {
    let graph = graph_of(
        8,
        &[(0, 1), (0, 2), (1, 3), (2, 3), (3, 4), (4, 0), (5, 6), (6, 5), (3, 3), (1, 3)],
    );
    let scores = compute_closeness(&graph);
    assert_eq!(scores.len(), 8);
    for (node, &score) in scores.iter().enumerate() {
        let score = value(score);
        assert!(score >= 0.0, "Node {:?} has negative closeness: {}", node, score);
    }
}

#[test]
fn closeness_of_empty_graph_is_empty() {
    let graph = graph_of(0, &[]);
    assert!(compute_closeness(&graph).is_empty());
}

#[test]
fn closeness_of_single_node_is_zero() {
    let graph = graph_of(1, &[]);
    let scores = compute_closeness(&graph);
    assert_eq!(scores, vec![Ratio { num: 0, den: 1 }]);
    assert_eq!(value(scores[0]), 0.0);
}

#[test]
fn closeness_on_directed_path() {
    let graph = graph_of(3, &[(0, 1), (1, 2)]);
    let scores = compute_closeness(&graph);
    assert_eq!(scores[0], Ratio { num: 2, den: 3 });
    assert_eq!(scores[1], Ratio { num: 1, den: 1 });
    assert_eq!(scores[2], Ratio { num: 0, den: 1 });
    assert!((value(scores[0]) - 0.667).abs() < 0.001);
    assert_eq!(value(scores[2]), 0.0);
}

#[test]
fn closeness_of_two_disconnected_nodes_is_zero() {
    let graph = graph_of(2, &[]);
    let scores = compute_closeness(&graph);
    assert_eq!(scores, vec![Ratio { num: 0, den: 1 }, Ratio { num: 0, den: 1 }]);
}

#[test]
fn closeness_ignores_nodes_out_of_reach() {
    // 0 -> 1 -> 2 and, apart from them, 3 -> 0.
    let graph = graph_of(4, &[(0, 1), (1, 2), (3, 0)]);
    let scores = compute_closeness(&graph);
    assert_eq!(scores[0], Ratio { num: 2, den: 3 });
    assert_eq!(scores[3], Ratio { num: 3, den: 6 });
}

#[test]
fn closeness_counts_a_self_loop_as_no_distance() {
    let graph = graph_of(2, &[(0, 0), (0, 1)]);
    let scores = compute_closeness(&graph);
    assert_eq!(scores[0], Ratio { num: 1, den: 1 });
    assert_eq!(scores[1], Ratio { num: 0, den: 1 });
}

#[test]
fn closeness_on_a_cycle() {
    let graph = graph_of(4, &[(0, 1), (1, 2), (2, 3), (3, 0)]);
    let scores = compute_closeness(&graph);
    for score in scores {
        assert_eq!(score, Ratio { num: 3, den: 6 });
    }
}

#[test]
fn closeness_twice_gives_the_same_scores() {
    let graph = graph_of(5, &[(0, 1), (0, 2), (1, 3), (2, 3), (3, 4), (4, 0)]);
    assert_eq!(compute_closeness(&graph), compute_closeness(&graph));
}

#[test]
fn closeness_does_not_fall_when_a_path_gets_shorter() {
    // 0 -> 1 -> 2 -> 3; the new edge 0 -> 3 shortens the way to 3.
    let before = graph_of(4, &[(0, 1), (1, 2), (2, 3)]);
    let after = graph_of(4, &[(0, 1), (1, 2), (2, 3), (0, 3)]);
    let old = node_closeness(&before, 0);
    let new = node_closeness(&after, 0);
    assert_eq!(old, Ratio { num: 3, den: 6 });
    assert_eq!(new, Ratio { num: 3, den: 4 });
    assert!(old.num * new.den <= new.num * old.den);
}

#[test]
fn closeness_may_fall_when_a_new_node_comes_into_reach() {
    let before = graph_of(3, &[(0, 1)]);
    let after = graph_of(3, &[(0, 1), (1, 2)]);
    assert_eq!(node_closeness(&before, 0), Ratio { num: 1, den: 1 });
    assert_eq!(node_closeness(&after, 0), Ratio { num: 2, den: 3 });
}
