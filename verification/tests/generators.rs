use grafferous::{generate_cycle_graph, generate_grid_graph, generate_random_graph, Graph};

#[test]
fn cycle_of_ten_thousand_has_two_successors_everywhere() {
    let g = generate_cycle_graph::<u32>(10_000);
    assert_eq!(g.nodes.len(), 10_000);
    assert_eq!(g.edges.len(), 10_000);
    for tos in g.edges.values() {
        assert_eq!(tos.len(), 2);
    }
    assert_eq!(g.neighbors(0), vec![1, 9_999]);
    assert_eq!(g.neighbors(9_999), vec![0, 9_998]);
    assert_eq!(g.neighbors(17), vec![18, 16]);
}

#[test]
fn cycle_lists_nodes_in_order_with_zero_payload() {
    let g = generate_cycle_graph::<u32>(5);
    assert_eq!(g.nodes, vec![0, 1, 2, 3, 4]);
    for id in 0..5 {
        assert_eq!(g.node_data[&id], 0);
    }
    assert!(g.is_undirected());
    assert_eq!(g.reverse_neighbors(0).len(), 2);
}

#[test]
fn small_cycles() {
    let none = generate_cycle_graph::<u32>(0);
    assert_eq!(none, Graph::new());
    let one = generate_cycle_graph::<u32>(1);
    assert_eq!(one.nodes, vec![0]);
    assert_eq!(one.neighbors(0), vec![0]);
    let two = generate_cycle_graph::<u32>(2);
    assert_eq!(two.neighbors(0), vec![1]);
    assert_eq!(two.neighbors(1), vec![0]);
    let three = generate_cycle_graph::<u32>(3);
    assert_eq!(three.neighbors(0), vec![1, 2]);
    assert_eq!(three.neighbors(1), vec![2, 0]);
    assert_eq!(three.neighbors(2), vec![0, 1]);
}

#[test]
fn grid_of_hundred_by_hundred() {
    let g = generate_grid_graph::<u32>(100, 100);
    assert_eq!(g.nodes.len(), 10_000);
    let total: usize = g.edges.values().map(|tos| tos.len()).sum();
    assert_eq!(total, 39_600);
    assert!(g.is_undirected());
}

#[test]
fn grid_neighbours_are_left_right_below_above() {
    let g = generate_grid_graph::<u32>(3, 4);
    assert_eq!(g.nodes.len(), 12);
    assert_eq!(g.nodes[0], (0, 0));
    assert_eq!(g.nodes[1], (0, 1));
    assert_eq!(g.nodes[4], (1, 0));
    assert_eq!(g.nodes[11], (2, 3));
    assert_eq!(g.neighbors((1, 1)), vec![(0, 1), (2, 1), (1, 0), (1, 2)]);
    assert_eq!(g.neighbors((0, 0)), vec![(1, 0), (0, 1)]);
    assert_eq!(g.neighbors((2, 3)), vec![(1, 3), (2, 2)]);
    assert_eq!(g.neighbors((0, 2)), vec![(1, 2), (0, 1), (0, 3)]);
    assert_eq!(g.node_data[&(2, 2)], 0);
    assert_eq!(g.reverse_neighbors((0, 0)).len(), 2);
}

#[test]
fn small_grids() {
    assert_eq!(generate_grid_graph::<u32>(0, 5), Graph::new());
    assert_eq!(generate_grid_graph::<u32>(5, 0), Graph::new());
    let cell = generate_grid_graph::<u32>(1, 1);
    assert_eq!(cell.nodes, vec![(0, 0)]);
    assert_eq!(cell.neighbors((0, 0)), Vec::<(usize, usize)>::new());
    let row = generate_grid_graph::<u32>(3, 1);
    assert_eq!(row.nodes, vec![(0, 0), (1, 0), (2, 0)]);
    assert_eq!(row.neighbors((1, 0)), vec![(0, 0), (2, 0)]);
}

#[test]
fn picks_decide_the_edges() {
    let picks = vec![
        vec![false, true, true],
        vec![false, false, false],
        vec![true, false, true],
    ];
    let g = generate_random_graph::<u32>(3, &picks);
    assert_eq!(g.nodes, vec![0, 1, 2]);
    assert_eq!(g.neighbors(0), vec![1, 2]);
    assert_eq!(g.neighbors(1), Vec::<usize>::new());
    assert_eq!(g.neighbors(2), vec![0, 2]);
    assert_eq!(g.reverse_neighbors(2), vec![0, 2]);
    assert_eq!(g.node_data[&1], 0);
}

#[test]
fn picks_that_are_missing_or_beyond_the_nodes_give_no_edge() {
    let picks = vec![vec![true, true, true, true], vec![true]];
    let g = generate_random_graph::<u32>(3, &picks);
    assert_eq!(g.nodes, vec![0, 1, 2]);
    assert_eq!(g.neighbors(0), vec![0, 1, 2]);
    assert_eq!(g.neighbors(1), vec![0]);
    assert_eq!(g.neighbors(2), Vec::<usize>::new());
    let none = generate_random_graph::<u32>(4, &Vec::new());
    assert_eq!(none.nodes.len(), 4);
    assert_eq!(none.edge_tuples().len(), 0);
}

#[test]
fn all_picks_give_the_complete_graph() {
    let picks = vec![vec![true; 5]; 5];
    let g = generate_random_graph::<u32>(5, &picks);
    assert_eq!(g.edge_tuples().len(), 25);
    assert!(g.is_undirected());
}

#[test]
fn generated_predecessors_come_in_node_order() {
    let ring = generate_cycle_graph::<u32>(5);
    assert_eq!(ring.reverse_neighbors(0), vec![1, 4]);
    assert_eq!(ring.reverse_neighbors(2), vec![1, 3]);
    assert_eq!(ring.reverse_neighbors(4), vec![0, 3]);
    let pair = generate_cycle_graph::<u32>(2);
    assert_eq!(pair.reverse_neighbors(0), vec![1]);
    assert_eq!(pair.reverse_neighbors(1), vec![0]);
    let grid = generate_grid_graph::<u32>(3, 4);
    assert_eq!(grid.reverse_neighbors((1, 1)), vec![(0, 1), (1, 0), (1, 2), (2, 1)]);
    assert_eq!(grid.reverse_neighbors((0, 0)), vec![(0, 1), (1, 0)]);
    let picks = vec![vec![false, true, false], vec![false, true, false], vec![true, true, false]];
    let random = generate_random_graph::<u32>(3, &picks);
    assert_eq!(random.reverse_neighbors(1), vec![0, 1, 2]);
    assert_eq!(random.reverse_neighbors(0), vec![2]);
    assert_eq!(random.reverse_neighbors(2), Vec::<usize>::new());
}
