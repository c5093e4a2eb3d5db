use grafferous::{count_paths, Graph, GraphError};

fn chain() -> Graph<usize, u32> {
    let mut g = Graph::<usize, u32>::new();
    for i in 0..6 {
        g.add_directed_edge(i, i + 1);
    }
    g
}

#[test]
fn chain_has_one_path_from_end_to_end() {
    let g = chain();
    assert_eq!(count_paths(&g, &0, &6), Ok(1));
}

#[test]
fn every_node_has_one_path_to_itself() {
    let g = chain();
    for k in 0..7 {
        assert_eq!(count_paths(&g, &k, &k), Ok(1));
    }
}

#[test]
fn against_the_edges_there_is_no_path() {
    let g = chain();
    assert_eq!(count_paths(&g, &6, &0), Ok(0));
    assert_eq!(count_paths(&g, &3, &2), Ok(0));
}

#[test]
fn diamond_has_two_paths() {
    let g: Graph<usize, u32> = Graph::from_edges(&[(0, 1), (0, 2), (1, 3), (2, 3)]);
    assert_eq!(count_paths(&g, &0, &3), Ok(2));
    assert_eq!(count_paths(&g, &1, &3), Ok(1));
    assert_eq!(count_paths(&g, &1, &2), Ok(0));
}

#[test]
fn two_diamonds_in_a_row_have_four_paths() {
    let g: Graph<usize, u32> = Graph::from_edges(
        &[(0, 1), (0, 2), (1, 3), (2, 3), (3, 4), (3, 5), (4, 6), (5, 6)],
    );
    assert_eq!(count_paths(&g, &0, &6), Ok(4));
    assert_eq!(count_paths(&g, &0, &4), Ok(2));
}

#[test]
fn direct_edge_beside_a_detour_counts() {
    let g: Graph<usize, u32> = Graph::from_edges(&[(0, 1), (1, 2), (0, 2)]);
    assert_eq!(count_paths(&g, &0, &2), Ok(2));
}

#[test]
fn closed_ring_is_not_acyclic() {
    let mut g = Graph::<usize, u32>::new();
    for i in 0..7 {
        g.add_edge(i, (i + 1) % 7);
    }
    assert_eq!(count_paths(&g, &0, &6), Err(GraphError::NotAcyclic));
    assert_eq!(count_paths(&g, &2, &2), Err(GraphError::NotAcyclic));
}

#[test]
fn directed_cycle_is_not_acyclic() {
    let g: Graph<usize, u32> = Graph::from_edges(&[(0, 1), (1, 2), (2, 0), (2, 3)]);
    assert_eq!(count_paths(&g, &0, &3), Err(GraphError::NotAcyclic));
}

#[test]
fn graph_without_edges_is_not_acyclic() {
    let mut g = Graph::<usize, u32>::new();
    let _ = g.add_node(1);
    assert_eq!(count_paths(&g, &1, &1), Err(GraphError::NotAcyclic));
}

#[test]
fn unknown_start_is_reported() {
    let g = chain();
    assert_eq!(count_paths(&g, &70, &6), Err(GraphError::UnknownNode));
}

#[test]
fn unknown_end_is_reported() {
    let g = chain();
    assert_eq!(count_paths(&g, &0, &60), Err(GraphError::UnknownNode));
}

#[test]
fn unknown_node_comes_before_not_acyclic() {
    let mut g = Graph::<usize, u32>::new();
    g.add_edge(0, 1);
    assert_eq!(count_paths(&g, &0, &5), Err(GraphError::UnknownNode));
    assert_eq!(count_paths(&g, &5, &0), Err(GraphError::UnknownNode));
    assert_eq!(count_paths(&g, &0, &1), Err(GraphError::NotAcyclic));
}

#[test]
fn failed_count_leaves_the_graph_as_it_was() {
    let mut g = Graph::<usize, u32>::new();
    g.add_edge(0, 1);
    let before = g.clone();
    assert_eq!(count_paths(&g, &0, &1), Err(GraphError::NotAcyclic));
    assert_eq!(g, before);
}
