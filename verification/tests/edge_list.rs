use centrality::shortest_paths::shortest_paths;
use centrality::closeness::{compute_closeness, Ratio};
use centrality::edge_list::{build_graph, load_graph, LoadError};
use centrality::parse::{parse_line, Line};

fn lines(text: &[&str]) -> Vec<String> {
    text.iter().map(|line| line.to_string()).collect()
}

#[test]
fn line_with_two_numbers_is_an_edge() {
    assert_eq!(parse_line("3 14"), Line::Edge(3, 14));
    assert_eq!(parse_line("0\t4294967295"), Line::Edge(0, 4294967295));
    assert_eq!(parse_line("  7   8  "), Line::Edge(7, 8));
    assert_eq!(parse_line("+7 008"), Line::Edge(7, 8));
    assert_eq!(parse_line("1\u{3000}2\r"), Line::Edge(1, 2));
    assert_eq!(parse_line("1\u{85}2\u{2028}"), Line::Edge(1, 2));
}

#[test]
fn comments_and_blank_lines_are_skipped() {
    assert_eq!(parse_line("# Nodes: 6301 Edges: 20777"), Line::Skipped);
    assert_eq!(parse_line("#"), Line::Skipped);
    assert_eq!(parse_line("#1 2"), Line::Skipped);
    assert_eq!(parse_line(""), Line::Skipped);
    assert_eq!(parse_line("   \t "), Line::Skipped);
    assert_eq!(parse_line("\u{a0}\u{1680}\u{2003}\u{202f}\u{205f}"), Line::Skipped);
}

#[test]
fn lines_without_exactly_two_fields_are_skipped() {
    assert_eq!(parse_line("1"), Line::Skipped);
    assert_eq!(parse_line("1 2 3"), Line::Skipped);
    assert_eq!(parse_line("a"), Line::Skipped);
    assert_eq!(parse_line("a b c"), Line::Skipped);
    assert_eq!(parse_line(" # 1"), Line::Malformed);
    assert_eq!(parse_line(" # 1 2"), Line::Skipped);
}

#[test]
fn two_fields_that_are_no_numbers_are_malformed() {
    assert_eq!(parse_line("a b"), Line::Malformed);
    assert_eq!(parse_line("1 b"), Line::Malformed);
    assert_eq!(parse_line("-1 2"), Line::Malformed);
    assert_eq!(parse_line("1 +"), Line::Malformed);
    assert_eq!(parse_line("1 ++2"), Line::Malformed);
    assert_eq!(parse_line("1 2.0"), Line::Malformed);
    assert_eq!(parse_line("1 4294967296"), Line::Malformed);
    assert_eq!(parse_line("99999999999999999999999 1"), Line::Malformed);
    assert_eq!(parse_line("1,2 3"), Line::Malformed);
    assert_eq!(parse_line("1 \u{663}"), Line::Malformed);
    assert_eq!(parse_line("1\u{200b}2 3"), Line::Malformed);
}

#[test]
fn parse_line_agrees_with_the_standard_library() {
    let samples = [
        "1 2", " 1 2", "1  2 ", "+1 +2", "01 002", "1", "", " ", "# x", "#", "1 2 3", "a b",
        "1 -2", "4294967295 4294967296", "+ 1", "1\t2", "1\u{b}2", "1\u{c}2", "1\u{1c}2",
        "1\u{85}2", "1\u{a0}2", "1\u{1680}2", "1\u{2000}2", "1\u{200a}2", "1\u{200b}2",
        "1\u{2028}2", "1\u{2029}2", "1\u{202f}2", "1\u{205f}2", "1\u{3000}2", "1\u{feff}2",
        "1\u{180e}2", "\u{3000}#1 2", "12 34\r", "1 2 ", "١ ٢",
    ];
    for sample in samples {
        let expected = if sample.starts_with('#') || sample.trim().is_empty() {
            Line::Skipped
        } else {
            let parts: Vec<&str> = sample.split_whitespace().collect();
            if parts.len() != 2 {
                Line::Skipped
            } else {
                match (parts[0].parse::<u32>(), parts[1].parse::<u32>()) {
                    (Ok(from), Ok(to)) => Line::Edge(from, to),
                    _ => Line::Malformed,
                }
            }
        };
        assert_eq!(parse_line(sample), expected, "line {:?}", sample);
    }
}

#[test]
fn build_graph_numbers_labels_by_first_appearance() {
    let (graph, index) = build_graph(&vec![(30, 10), (10, 20), (30, 20), (20, 20)]).unwrap();
    assert_eq!(graph.node_count(), 3);
    assert_eq!(graph.edge_count(), 4);
    let labels: Vec<u32> = graph.node_weights().copied().collect();
    assert_eq!(labels, vec![30, 10, 20]);
    assert_eq!(index.len(), 3);
    assert_eq!(index[&30], 0);
    assert_eq!(index[&10], 1);
    assert_eq!(index[&20], 2);
    let edges: Vec<(usize, usize)> = graph
        .raw_edges()
        .iter()
        .map(|edge| (edge.source().index(), edge.target().index()))
        .collect();
    assert_eq!(edges, vec![(0, 1), (1, 2), (0, 2), (2, 2)]);
    // The later edge out of a node is walked first.
    let out: Vec<usize> = graph.neighbors(0.into()).map(|node| node.index()).collect();
    assert_eq!(out, vec![2, 1]);
}

#[test]
fn build_graph_keeps_parallel_edges() {
    let (graph, index) = build_graph(&vec![(5, 6), (5, 6), (6, 5)]).unwrap();
    assert_eq!(graph.node_count(), 2);
    assert_eq!(graph.edge_count(), 3);
    assert_eq!(index[&5], 0);
    assert_eq!(index[&6], 1);
    assert_eq!(shortest_paths(&graph, 0).unwrap().sigma, vec![1, 2]);
}

#[test]
fn build_graph_of_nothing_is_empty() {
    let (graph, index) = build_graph(&vec![]).unwrap();
    assert_eq!(graph.node_count(), 0);
    assert_eq!(graph.edge_count(), 0);
    assert!(index.is_empty());
}

#[test]
fn load_graph_reads_an_edge_list() {
    let text = lines(&[
        "# Directed graph",
        "# FromNodeId\tToNodeId",
        "0\t1",
        "",
        "1\t2",
        "this line is passed over",
        "7 0",
    ]);
    let (graph, index) = load_graph(&text).unwrap();
    assert_eq!(graph.node_count(), 4);
    assert_eq!(graph.edge_count(), 3);
    assert_eq!(index[&0], 0);
    assert_eq!(index[&1], 1);
    assert_eq!(index[&2], 2);
    assert_eq!(index[&7], 3);
    let scores = compute_closeness(&graph);
    assert_eq!(scores[0], Ratio { num: 2, den: 3 });
    assert_eq!(scores[3], Ratio { num: 3, den: 6 });
}

#[test]
fn load_graph_stops_at_the_first_malformed_line() {
    let text = lines(&["1 2", "# fine", "2 x", "y 3"]);
    assert_eq!(load_graph(&text).err(), Some(LoadError::Malformed { line: 2 }));
}

#[test]
fn load_graph_of_no_lines_is_empty() {
    let (graph, index) = load_graph(&lines(&[])).unwrap();
    assert_eq!(graph.node_count(), 0);
    assert!(index.is_empty());
    assert!(compute_closeness(&graph).is_empty());
}
