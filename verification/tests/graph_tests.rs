use std::collections::HashSet;

use rath::bfs::path_to;
use rath::graph::{Graph, UndirectedDenseGraph, UndirectedSparseGraph};

#[test]
fn undirected_dense_add_edge() {
    let mut g = UndirectedDenseGraph::new(2);
    assert_eq!(g.data.len(), 2);
    assert_eq!(g.data[0].len(), 2);

    assert!(!g.data[0][1]);
    g.add_edge(0, 1);
    assert!(g.data[0][1]);
}

#[test]
fn undirected_dense_adjacent() {
    let mut g = UndirectedDenseGraph::new(5);
    assert_eq!(g.num_edges(), 0);

    g.add_edge(2, 1);
    g.add_edge(2, 3);

    assert_eq!(g.num_edges(), 2);
    assert_eq!(g.adjacent(2), HashSet::from([1, 3]));
}

#[test]
fn undirected_sparse_add_edge() {
    let mut g = UndirectedSparseGraph::new();
    assert_eq!(g.data.len(), 0);

    g.add_edge(0, 1);
    assert_eq!(g.data.get(&0).unwrap().clone(), HashSet::from([1]));
}

#[test]
fn undirected_sparse_adjacent() {
    let mut g = UndirectedSparseGraph::new();
    assert_eq!(g.num_edges(), 0);

    g.add_edge(2, 1);
    g.add_edge(2, 3);

    assert_eq!(g.num_edges(), 2);
    let expected: HashSet<usize> = HashSet::from([1, 3]);
    assert_eq!(g.adjacent(2), expected);
}

#[test]
fn bfs_path_to() {
    let mut graph = UndirectedSparseGraph::new();
    graph.add_edge(0, 1);
    graph.add_edge(1, 2);

    let actual = path_to(&graph, 0, 2);
    assert_eq!(actual, Some(vec![0, 1, 2]));
}

#[test]
fn bfs_path_to_returns_none_for_node_with_no_paths() {
    let mut graph = UndirectedSparseGraph::new();
    graph.add_edge(0, 1);
    graph.add_edge(1, 2);
    graph.add_edge(5, 5);
    graph.add_edge(5, 6);

    assert_eq!(path_to(&graph, 0, 5), None);
}

#[test]
fn bfs_never_reports_a_path_from_a_node_to_itself() {
    let mut graph = UndirectedSparseGraph::new();
    graph.add_edge(0, 1);
    graph.add_edge(1, 0);

    assert_eq!(path_to(&graph, 0, 0), None);
}

#[test]
fn dense_graph_search_finds_a_path() {
    let mut graph = UndirectedDenseGraph::new(4);
    graph.add_edge(0, 1);
    graph.add_edge(1, 3);

    let path = path_to(&graph, 0, 3).unwrap();
    assert_eq!(path.first(), Some(&0));
    assert_eq!(path.last(), Some(&3));
    for pair in path.windows(2) {
        assert!(graph.adjacent(pair[0]).contains(&pair[1]));
    }
}
