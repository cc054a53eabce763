use centrality::bfs::breadth_first;
use petgraph::graph::DiGraph;

fn graph_of(nodes: u32, edges: &[(u32, u32)]) -> DiGraph<u32, ()> {
    let mut graph: DiGraph<u32, ()> = DiGraph::new();
    let mut indices = Vec::new();
    for label in 0..nodes {
        indices.push(graph.add_node(100 + label));
    }
    for &(from, to) in edges {
        graph.add_edge(indices[from as usize], indices[to as usize], ());
    }
    graph
}

#[test]
fn search_expands_the_latest_edge_first() {
    let graph = graph_of(5, &[(0, 1), (0, 2), (0, 3), (0, 2), (3, 4)]);
    let found = breadth_first(&graph, 0);
    assert_eq!(found.order, vec![0, 2, 3, 1, 4]);
    assert_eq!(found.dist, vec![Some(0), Some(1), Some(1), Some(1), Some(2)]);
}

#[test]
fn search_follows_out_edges_only() {
    let graph = graph_of(4, &[(0, 1), (1, 2), (3, 0)]);
    let found = breadth_first(&graph, 0);
    assert_eq!(found.order, vec![0, 1, 2]);
    assert_eq!(found.dist, vec![Some(0), Some(1), Some(2), None]);
    let found = breadth_first(&graph, 3);
    assert_eq!(found.order, vec![3, 0, 1, 2]);
    assert_eq!(found.dist, vec![Some(1), Some(2), Some(3), Some(0)]);
}

#[test]
fn search_meets_nodes_level_by_level() {
    let graph = graph_of(6, &[(0, 1), (0, 2), (1, 3), (2, 4), (4, 5), (3, 5), (5, 0)]);
    let found = breadth_first(&graph, 0);
    assert_eq!(found.order, vec![0, 2, 1, 4, 3, 5]);
    assert_eq!(found.dist, vec![Some(0), Some(1), Some(1), Some(2), Some(2), Some(3)]);
}

#[test]
fn search_of_isolated_source_finds_only_the_source() {
    let graph = graph_of(3, &[(1, 2)]);
    let found = breadth_first(&graph, 0);
    assert_eq!(found.order, vec![0]);
    assert_eq!(found.dist, vec![Some(0), None, None]);
}
