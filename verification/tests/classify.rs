use grafferous::Graph;

fn chain() -> Graph<usize, u32> {
    let mut g = Graph::<usize, u32>::new();
    for i in 0..6 {
        g.add_directed_edge(i, i + 1);
    }
    g
}

fn ring() -> Graph<usize, u32> {
    let mut g = Graph::<usize, u32>::new();
    for i in 0..7 {
        g.add_edge(i, (i + 1) % 7);
    }
    g
}

#[test]
fn graph_of_undirected_edges_is_undirected() {
    let mut g = Graph::<usize, u32>::new();
    g.add_edge(0, 1);
    g.add_edge(1, 2);
    g.add_edge(5, 5);
    g.add_edge(2, 0);
    assert!(g.is_undirected());
    assert!(ring().is_undirected());
}

#[test]
fn one_unmirrored_edge_makes_it_directed() {
    let mut g = Graph::<usize, u32>::new();
    g.add_edge(0, 1);
    g.add_edge(1, 2);
    g.add_directed_edge(2, 3);
    assert!(!g.is_undirected());
    g.add_directed_edge(3, 2);
    assert!(g.is_undirected());
}

#[test]
fn edge_to_a_node_without_successors_is_unmirrored() {
    let mut g = Graph::<usize, u32>::new();
    g.add_directed_edge(0, 1);
    assert!(!g.is_undirected());
}

#[test]
fn graph_without_edges_is_undirected_and_not_a_dag() {
    let mut g = Graph::<usize, u32>::new();
    assert!(g.is_undirected());
    assert!(!g.is_directed_acyclic());
    let _ = g.add_node(1);
    let _ = g.add_node(2);
    assert!(g.is_undirected());
    assert!(!g.is_directed_acyclic());
}

#[test]
fn self_loop_alone_is_undirected() {
    let mut g = Graph::<usize, u32>::new();
    g.add_directed_edge(1, 1);
    assert!(g.is_undirected());
    assert!(!g.is_directed_acyclic());
    assert!(g.is_part_of_a_cycle(1));
}

#[test]
fn directed_chain_is_a_dag() {
    let g = chain();
    assert!(!g.is_undirected());
    assert!(g.is_directed_acyclic());
    for i in 0..7 {
        assert!(!g.is_part_of_a_cycle(i));
    }
}

#[test]
fn ring_of_undirected_edges_is_not_a_dag() {
    let g = ring();
    assert!(!g.is_directed_acyclic());
    assert!(g.is_part_of_a_cycle(3));
}

#[test]
fn directed_cycle_is_not_a_dag() {
    let mut g = Graph::<usize, u32>::new();
    g.add_directed_edge(0, 1);
    g.add_directed_edge(1, 2);
    g.add_directed_edge(2, 0);
    assert!(!g.is_undirected());
    assert!(!g.is_directed_acyclic());
    assert!(g.is_part_of_a_cycle(0));
    assert!(g.is_part_of_a_cycle(1));
    assert!(g.is_part_of_a_cycle(2));
}

#[test]
fn cycle_as_long_as_the_graph_is_found() {
    let mut g = Graph::<usize, u32>::new();
    for i in 0..5 {
        g.add_directed_edge(i, (i + 1) % 5);
    }
    assert_eq!(g.nodes.len(), 5);
    assert!(g.is_part_of_a_cycle(0));
    assert!(g.is_part_of_a_cycle(4));
    assert!(!g.is_directed_acyclic());
}

#[test]
fn node_that_leads_into_a_cycle_is_not_on_it() {
    let mut g = Graph::<usize, u32>::new();
    g.add_directed_edge(9, 0);
    g.add_directed_edge(0, 1);
    g.add_directed_edge(1, 0);
    assert!(!g.is_part_of_a_cycle(9));
    assert!(g.is_part_of_a_cycle(0));
    assert!(!g.is_part_of_a_cycle(77));
    assert!(!g.is_directed_acyclic());
}

#[test]
fn diamond_is_a_dag() {
    let g: Graph<usize, u32> = Graph::from_edges(&[(0, 1), (0, 2), (1, 3), (2, 3)]);
    assert!(g.is_directed_acyclic());
}
