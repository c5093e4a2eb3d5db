use grafferous::{Graph, GraphError};
use std::collections::HashSet;

fn assert_invariants(g: &Graph<u32, u32>) {
    let listed: HashSet<u32> = g.nodes.iter().copied().collect();
    assert_eq!(listed.len(), g.nodes.len());
    let with_data: HashSet<u32> = g.node_data.keys().copied().collect();
    assert_eq!(listed, with_data);
    let with_edges: HashSet<u32> = g.edges.keys().copied().collect();
    assert_eq!(listed, with_edges);
    let with_reverse_edges: HashSet<u32> = g.reverse_edges.keys().copied().collect();
    assert_eq!(listed, with_reverse_edges);
    for (from, tos) in g.edges.iter() {
        let distinct: HashSet<u32> = tos.iter().copied().collect();
        assert_eq!(distinct.len(), tos.len());
        for to in tos {
            assert!(g.reverse_edges[to].contains(from));
        }
    }
    for (to, froms) in g.reverse_edges.iter() {
        let distinct: HashSet<u32> = froms.iter().copied().collect();
        assert_eq!(distinct.len(), froms.len());
        for from in froms {
            assert!(g.edges[from].contains(to));
        }
    }
}

#[test]
fn invariants_hold_after_every_call() {
    let mut g = Graph::<u32, u32>::new();
    assert_invariants(&g);
    assert_eq!(g.add_node(4), Ok(()));
    assert_invariants(&g);
    assert_eq!(g.add_node_with_data(9, 90), Ok(()));
    assert_invariants(&g);
    g.add_directed_edge(4, 9);
    assert_invariants(&g);
    g.add_directed_edge(9, 1);
    assert_invariants(&g);
    g.add_edge(1, 4);
    assert_invariants(&g);
    g.add_edge(7, 7);
    assert_invariants(&g);
    g.add_directed_edge(4, 9);
    assert_invariants(&g);
    assert_eq!(g.add_node(9), Err(GraphError::DuplicateNode));
    assert_invariants(&g);
    assert_eq!(g.nodes, vec![4, 9, 1, 7]);
}

#[test]
fn new_graph_is_empty() {
    let g = Graph::<u32, u32>::new();
    assert!(g.nodes.is_empty());
    assert!(g.node_data.is_empty());
    assert!(g.edges.is_empty());
    assert!(g.reverse_edges.is_empty());
    let d: Graph<u32, u32> = Graph::default();
    assert_eq!(g, d);
}

#[test]
fn add_node_appends_with_zero_payload_and_empty_lists() {
    let mut g = Graph::<u32, u32>::new();
    assert_eq!(g.add_node(3), Ok(()));
    assert_eq!(g.add_node(1), Ok(()));
    assert_eq!(g.nodes, vec![3, 1]);
    assert_eq!(g.node_data[&3], 0);
    assert_eq!(g.node_data[&1], 0);
    assert_eq!(g.edges[&3], Vec::<u32>::new());
    assert_eq!(g.reverse_edges[&3], Vec::<u32>::new());
    assert_eq!(g.edges.len(), 2);
    assert_eq!(g.reverse_edges.len(), 2);
}

#[test]
fn add_node_with_data_stores_the_payload() {
    let mut g = Graph::<u32, String>::new();
    assert_eq!(g.add_node_with_data(8, String::from("eight")), Ok(()));
    assert_eq!(g.node_data[&8], "eight");
    assert_eq!(g.nodes, vec![8]);
}

#[test]
fn duplicate_node_is_reported_and_changes_nothing() {
    let mut g = Graph::<u32, u32>::new();
    assert_eq!(g.add_node_with_data(1, 42), Ok(()));
    g.add_directed_edge(1, 2);
    let before = g.clone();
    assert_eq!(g.add_node(1), Err(GraphError::DuplicateNode));
    assert_eq!(g, before);
    assert_eq!(g.add_node_with_data(1, 7), Err(GraphError::DuplicateNode));
    assert_eq!(g, before);
    assert_eq!(g.node_data[&1], 42);
    assert_eq!(g.nodes, vec![1, 2]);
}

#[test]
fn directed_edge_creates_missing_endpoints_in_order() {
    let mut g = Graph::<u32, u32>::new();
    g.add_directed_edge(5, 6);
    assert_eq!(g.nodes, vec![5, 6]);
    assert_eq!(g.node_data[&5], 0);
    assert_eq!(g.node_data[&6], 0);
    assert_eq!(g.neighbors(5), vec![6]);
    assert_eq!(g.neighbors(6), Vec::<u32>::new());
    assert_eq!(g.reverse_neighbors(6), vec![5]);
    assert_eq!(g.reverse_neighbors(5), Vec::<u32>::new());
}

#[test]
fn directed_edge_keeps_payload_of_known_endpoints() {
    let mut g = Graph::<u32, u32>::new();
    assert_eq!(g.add_node_with_data(5, 55), Ok(()));
    g.add_directed_edge(5, 6);
    g.add_directed_edge(7, 5);
    assert_eq!(g.node_data[&5], 55);
    assert_eq!(g.nodes, vec![5, 6, 7]);
}

#[test]
fn directed_edge_twice_is_the_same_as_once() {
    let mut once = Graph::<u32, u32>::new();
    once.add_directed_edge(1, 2);
    let mut twice = Graph::<u32, u32>::new();
    twice.add_directed_edge(1, 2);
    twice.add_directed_edge(1, 2);
    assert_eq!(once, twice);
    assert_eq!(twice.neighbors(1), vec![1 + 1]);
    assert_eq!(twice.reverse_neighbors(2), vec![1]);
    assert_eq!(twice.edge_tuples(), vec![(1, 2)]);
}

#[test]
fn successors_and_predecessors_keep_insertion_order() {
    let mut g = Graph::<u32, u32>::new();
    g.add_directed_edge(1, 9);
    g.add_directed_edge(1, 3);
    g.add_directed_edge(1, 5);
    g.add_directed_edge(1, 3);
    g.add_directed_edge(7, 5);
    g.add_directed_edge(2, 5);
    assert_eq!(g.neighbors(1), vec![9, 3, 5]);
    assert_eq!(g.reverse_neighbors(5), vec![1, 7, 2]);
}

#[test]
fn self_loop_is_recorded_once() {
    let mut g = Graph::<u32, u32>::new();
    g.add_edge(3, 3);
    assert_eq!(g.neighbors(3), vec![3]);
    assert_eq!(g.reverse_neighbors(3), vec![3]);
    assert_eq!(g.nodes, vec![3]);
    assert_eq!(g.edge_tuples(), vec![(3, 3)]);
}

#[test]
fn undirected_edge_is_two_directed_edges() {
    let mut g = Graph::<u32, u32>::new();
    g.add_edge(1, 2);
    let mut h = Graph::<u32, u32>::new();
    h.add_directed_edge(1, 2);
    h.add_directed_edge(2, 1);
    assert_eq!(g, h);
    assert_eq!(g.neighbors(1), vec![2]);
    assert_eq!(g.neighbors(2), vec![1]);
    assert_eq!(g.reverse_neighbors(1), vec![2]);
    assert_eq!(g.reverse_neighbors(2), vec![1]);
}

#[test]
fn from_edges_follows_first_occurrence() {
    let g: Graph<u32, u32> = Graph::from_edges(&[(3, 1), (1, 2), (3, 2), (3, 1)]);
    assert_eq!(g.nodes, vec![3, 1, 2]);
    assert_eq!(g.neighbors(3), vec![1, 2]);
    assert_eq!(g.neighbors(1), vec![2]);
    assert_eq!(g.reverse_neighbors(2), vec![1, 3]);
    let mut h = Graph::<u32, u32>::new();
    h.add_directed_edge(3, 1);
    h.add_directed_edge(1, 2);
    h.add_directed_edge(3, 2);
    assert_eq!(g, h);
}

#[test]
fn from_no_edges_is_the_empty_graph() {
    let g: Graph<u32, u32> = Graph::from_edges(&[]);
    assert_eq!(g, Graph::new());
}

#[test]
fn lookups_of_unknown_nodes_are_empty() {
    let mut g = Graph::<u32, u32>::new();
    g.add_directed_edge(1, 2);
    assert_eq!(g.neighbors(77), Vec::<u32>::new());
    assert_eq!(g.reverse_neighbors(77), Vec::<u32>::new());
    assert_eq!(g.neighborhood(77), vec![77]);
}

#[test]
fn neighborhood_is_successors_then_the_node() {
    let mut g = Graph::<u32, u32>::new();
    g.add_directed_edge(4, 2);
    g.add_directed_edge(4, 4);
    g.add_directed_edge(4, 1);
    assert_eq!(g.neighborhood(4), vec![2, 4, 1, 4]);
    assert_eq!(g.neighborhood(1), vec![1]);
}

#[test]
fn edge_tuples_are_the_recorded_edges() {
    let mut g = Graph::<u32, u32>::new();
    g.add_directed_edge(1, 2);
    g.add_edge(2, 3);
    g.add_edge(4, 4);
    let _ = g.add_node(9);
    let pairs = g.edge_tuples();
    let as_set: HashSet<(u32, u32)> = pairs.iter().copied().collect();
    assert_eq!(as_set.len(), pairs.len());
    let expected: HashSet<(u32, u32)> = [(1, 2), (2, 3), (3, 2), (4, 4)].into_iter().collect();
    assert_eq!(as_set, expected);
    assert_eq!(Graph::<u32, u32>::new().edge_tuples(), Vec::<(u32, u32)>::new());
}

#[test]
fn pair_identifiers_work() {
    let mut g = Graph::<(i8, i8), u32>::new();
    g.add_edge((0, 1), (1, 0));
    g.add_directed_edge((1, 0), (-1, -1));
    assert_eq!(g.nodes, vec![(0, 1), (1, 0), (-1, -1)]);
    assert_eq!(g.neighbors((1, 0)), vec![(0, 1), (-1, -1)]);
    assert_eq!(g.reverse_neighbors((-1, -1)), vec![(1, 0)]);
}
