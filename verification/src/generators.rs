//! Ready-made graphs: rings and grids, and graphs from a table of picks.

use crate::graph::grown_with_defaults;
use crate::graph::lawful_ids;
use crate::graph::Graph;
use crate::model::Topology;
use vstd::prelude::*;

verus! {

/// Machine integers hash and compare by their value.
pub proof fn lemma_lawful_usize()
    ensures
        lawful_ids::<usize>(),
{
    broadcast use vstd::std_specs::hash::group_hash_axioms;

    reveal(vstd::laws_eq::obeys_concrete_eq);
}

/// Pairs of machine integers compare by their value; that they hash by it
/// is taken from the caller.
pub proof fn lemma_lawful_pairs()
    requires
        vstd::std_specs::hash::obeys_key_model::<(usize, usize)>(),
    ensures
        lawful_ids::<(usize, usize)>(),
{
    reveal(vstd::laws_eq::obeys_concrete_eq);
}

/// The numbers `0, 1, .., n - 1` in this order.
pub open spec fn first_numbers(n: nat) -> Seq<usize> {
    Seq::new(n, |k: int| k as usize)
}

/// The neighbours of node `i` on a ring of `n` nodes: the next node, then
/// the node before, where these are two nodes.
pub open spec fn ring_neighbors(n: int, i: int) -> Seq<usize> {
    let next = ((i + 1) % n) as usize;
    let before = ((i + n - 1) % n) as usize;
    if next == before {
        seq![next]
    } else {
        seq![next, before]
    }
}

/// On a ring of three nodes or more every node has two neighbours.
pub proof fn law_ring_nodes_have_two_neighbors(n: int, i: int)
    requires
        3 <= n <= usize::MAX,
        0 <= i < n,
    ensures
        ring_neighbors(n, i).len() == 2,
{
    if i + 1 < n {
        vstd::arithmetic::div_mod::lemma_small_mod((i + 1) as nat, n as nat);
    } else {
        vstd::arithmetic::div_mod::lemma_mod_self_0(n);
    }
    if i == 0 {
        vstd::arithmetic::div_mod::lemma_small_mod((n - 1) as nat, n as nat);
    } else {
        vstd::arithmetic::div_mod::lemma_mod_add_multiples_vanish(i - 1, n);
        vstd::arithmetic::div_mod::lemma_small_mod((i - 1) as nat, n as nat);
    }
}

/// A graph of the nodes `0, .., n - 1` without edges.
fn isolated_nodes<Data: Default>(n: usize) -> (g: Graph<usize, Data>)
    ensures
        g.wf(),
        g@.nodes == first_numbers(n as nat),
        forall|x: usize| (#[trigger] g@.successors(x)).len() == 0,
        forall|x: usize| (#[trigger] g@.predecessors(x)).len() == 0,
        grown_with_defaults(Map::<usize, Data>::empty(), g.payloads()),
{
    proof {
        lemma_lawful_usize();
    }
    let mut g: Graph<usize, Data> = Graph::new();
    let mut i: usize = 0;
    while i < n
        invariant
            i <= n,
            g.wf(),
            g@.nodes == first_numbers(i as nat),
            forall|x: usize| (#[trigger] g@.successors(x)).len() == 0,
            forall|x: usize| (#[trigger] g@.predecessors(x)).len() == 0,
            grown_with_defaults(Map::<usize, Data>::empty(), g.payloads()),
        decreases n - i,
    {
        let ghost start = g@;
        proof {
            assert(!start.has_node(i));
            assert(first_numbers(i as nat).push(i) =~= first_numbers((i + 1) as nat));
            start.lemma_add_new_node(i, i);
            assert forall|x: usize| (#[trigger] start.add_node(i).successors(x)).len() == 0 by {
                start.lemma_add_new_node(i, x);
                assert(start.successors(x).len() == 0);
            }
            assert forall|x: usize| (#[trigger] start.add_node(i).predecessors(x)).len() == 0 by {
                start.lemma_add_new_node(i, x);
                assert(start.predecessors(x).len() == 0);
            }
        }
        let _ = g.add_node(i);
        i += 1;
    }
    g
}

/// A ring of `n` nodes `0, .., n - 1`: each node has an edge to the next
/// node and an edge to the node before it, the last node being before the
/// first.
pub fn generate_cycle_graph<Data: Default + Send>(n: usize) -> (g: Graph<usize, Data>)
    ensures
        g.wf(),
        g@.nodes == first_numbers(n as nat),
        forall|i: usize| i < n ==> #[trigger] g@.successors(i) == ring_neighbors(n as int, i as int),
        g@.predecessors_in_node_order(),
        grown_with_defaults(Map::<usize, Data>::empty(), g.payloads()),
{
    let mut g: Graph<usize, Data> = isolated_nodes(n);
    proof {
        g@.lemma_no_edges_in_order();
    }
    let mut i: usize = 0;
    while i < n
        invariant
            i <= n,
            g.wf(),
            g@.nodes == first_numbers(n as nat),
            forall|k: usize| k < i ==> #[trigger] g@.successors(k) == ring_neighbors(n as int, k as int),
            forall|k: usize| k >= i ==> (#[trigger] g@.successors(k)).len() == 0,
            g@.predecessors_in_node_order(),
            g@.edges_start_within(i as int),
            grown_with_defaults(Map::<usize, Data>::empty(), g.payloads()),
        decreases n - i,
    {
        let next = (i + 1) % n;
        let before = if i == 0 {
            n - 1
        } else {
            i - 1
        };
        proof {
            assert(before == (i + n - 1) % (n as int)) by {
                if i == 0 {
                    vstd::arithmetic::div_mod::lemma_small_mod((n - 1) as nat, n as nat);
                } else {
                    vstd::arithmetic::div_mod::lemma_mod_add_multiples_vanish((i - 1) as int, n as int);
                    vstd::arithmetic::div_mod::lemma_small_mod((i - 1) as nat, n as nat);
                }
            }
        }
        let ghost start = g@;
        let ghost mid = start.add_directed_edge(i, next);
        proof {
            assert(start.nodes[i as int] == i);
            assert(start.nodes[next as int] == next);
            assert(start.nodes[before as int] == before);
            assert(start.has_node(i) && start.has_node(next) && start.has_node(before));
            start.lemma_add_directed_edge_wf(i, next);
            start.lemma_add_directed_edge_known(i, next, i);
            mid.lemma_add_directed_edge_known(i, before, i);
            start.lemma_edges_start_within_more(i as int, i + 1);
            start.lemma_edge_keeps_source_order(i, next, i as int);
            mid.lemma_add_directed_edge_known(i, before, before);
            mid.lemma_edge_keeps_source_order(i, before, i as int);
            assert(start.successors(i).len() == 0);
            assert(!start.has_edge(i, next));
            assert(start.successors(i).push(next) =~= seq![next]);
            assert(mid.successors(i) == seq![next]);
            assert(seq![next].push(before) =~= seq![next, before]);
            if next == before {
                assert(seq![next][0] == before);
                assert(mid.has_edge(i, before));
            } else {
                assert(!mid.has_edge(i, before));
            }
            assert(mid.add_directed_edge(i, before).successors(i) == ring_neighbors(
                n as int,
                i as int,
            ));
            assert forall|k: usize| k != i implies #[trigger] mid.add_directed_edge(
                i,
                before,
            ).successors(k) == start.successors(k) by {
                start.lemma_add_directed_edge_known(i, next, k);
                mid.lemma_add_directed_edge_known(i, before, k);
            }
        }
        g.add_directed_edge(i, next);
        g.add_directed_edge(i, before);
        i += 1;
    }
    g
}

/// Where the node `(x, y)` stands in the directory of a grid that is `height` high.
pub open spec fn grid_index(height: int, x: int, y: int) -> int {
    x * height + y
}

/// The neighbours of the node `(x, y)` on a grid: the node to the left, to
/// the right, below and above, in this order, as far as the grid has them.
pub open spec fn grid_neighbors(width: int, height: int, x: int, y: int) -> Seq<(usize, usize)> {
    let none = Seq::<(usize, usize)>::empty();
    let left = if x > 0 {
        none.push(((x - 1) as usize, y as usize))
    } else {
        none
    };
    let right = if x < width - 1 {
        left.push(((x + 1) as usize, y as usize))
    } else {
        left
    };
    let below = if y > 0 {
        right.push((x as usize, (y - 1) as usize))
    } else {
        right
    };
    if y < height - 1 {
        below.push((x as usize, (y + 1) as usize))
    } else {
        below
    }
}

/// Whether `(a, b)` comes before `(x, y)` when a grid is walked column by column.
pub open spec fn comes_before(a: int, b: int, x: int, y: int) -> bool {
    a < x || (a == x && b < y)
}

/// A cell of the grid has its place within the directory.
pub proof fn lemma_grid_index_bound(width: int, height: int, x: int, y: int)
    requires
        0 <= x < width,
        0 <= y < height,
    ensures
        0 <= grid_index(height, x, y) < width * height,
        grid_index(height, x + 1, 0) == grid_index(height, x, 0) + height,
{
    assert(x * height >= 0 && x * height + height <= width * height && (x + 1) * height == x
        * height + height) by (nonlinear_arith)
        requires
            0 <= x < width,
            0 < height,
    ;
}

/// Adds the edge `from -> to` between two nodes that the graph has.
fn connect<ID: Eq + core::hash::Hash + Copy, Data: Default>(
    g: &mut Graph<ID, Data>,
    from: ID,
    to: ID,
    Ghost(at): Ghost<int>,
)
    requires
        old(g).wf(),
        0 <= at < old(g)@.nodes.len(),
        old(g)@.nodes[at] == from,
        old(g)@.has_node(to),
        !old(g)@.has_edge(from, to),
        old(g)@.predecessors_in_node_order(),
        old(g)@.edges_start_within(at + 1),
    ensures
        final(g).wf(),
        final(g)@.predecessors_in_node_order(),
        final(g)@.edges_start_within(at + 1),
        final(g)@.nodes == old(g)@.nodes,
        final(g).payloads() == old(g).payloads(),
        final(g)@.successors(from) == old(g)@.successors(from).push(to),
        forall|id: ID| id != from ==> #[trigger] final(g)@.successors(id) == old(g)@.successors(id),
        forall|id: ID| #[trigger] final(g)@.has_edge(from, id) <==> old(g)@.has_edge(from, id) || id == to,
{
    let ghost start = g@;
    proof {
        start.lemma_add_directed_edge_known(from, to, from);
        start.lemma_edge_keeps_source_order(from, to, at);
        assert forall|id: ID| id != from implies #[trigger] start.add_directed_edge(
            from,
            to,
        ).successors(id) == start.successors(id) by {
            start.lemma_add_directed_edge_known(from, to, id);
        }
        assert forall|id: ID| #[trigger]
            start.add_directed_edge(from, to).has_edge(from, id) <==> start.has_edge(from, id) || id
                == to by {
            start.lemma_add_directed_edge_edges(from, to, from, id);
        }
    }
    g.add_directed_edge(from, to);
    proof {
        assert(g.payloads() =~= old(g).payloads()) by {
            assert forall|id: ID| g.payloads().contains_key(id) implies old(g).payloads().contains_key(
                id,
            ) by {
                assert(g@.has_node(id));
            }
        }
    }
}

/// A graph of the nodes of a grid, column by column, without edges.
fn isolated_grid<Data: Default>(width: usize, height: usize) -> (g: Graph<(usize, usize), Data>)
    requires
        vstd::std_specs::hash::obeys_key_model::<(usize, usize)>(),
    ensures
        g.wf(),
        g@.nodes.len() == width * height,
        forall|x: usize, y: usize|
            x < width && y < height ==> g@.nodes[#[trigger] grid_index(
                height as int,
                x as int,
                y as int,
            )] == (x, y),
        forall|id: (usize, usize)| (#[trigger] g@.successors(id)).len() == 0,
        forall|id: (usize, usize)| (#[trigger] g@.predecessors(id)).len() == 0,
        grown_with_defaults(Map::<(usize, usize), Data>::empty(), g.payloads()),
{
    proof {
        lemma_lawful_pairs();
    }
    let mut g: Graph<(usize, usize), Data> = Graph::new();
    let mut x: usize = 0;
    while x < width
        invariant
            x <= width,
            g.wf(),
            g@.nodes.len() == x * height,
            forall|k: int| 0 <= k < g@.nodes.len() ==> (#[trigger] g@.nodes[k]).0 < x,
            forall|a: usize, b: usize|
                a < x && b < height ==> g@.nodes[#[trigger] grid_index(
                    height as int,
                    a as int,
                    b as int,
                )] == (a, b),
            forall|id: (usize, usize)| (#[trigger] g@.successors(id)).len() == 0,
            forall|id: (usize, usize)| (#[trigger] g@.predecessors(id)).len() == 0,
            grown_with_defaults(Map::<(usize, usize), Data>::empty(), g.payloads()),
        decreases width - x,
    {
        let mut y: usize = 0;
        while y < height
            invariant
                x < width,
                y <= height,
                g.wf(),
                g@.nodes.len() == x * height + y,
                forall|k: int|
                    0 <= k < g@.nodes.len() ==> comes_before(
                        (#[trigger] g@.nodes[k]).0 as int,
                        g@.nodes[k].1 as int,
                        x as int,
                        y as int,
                    ),
                forall|a: usize, b: usize|
                    comes_before(a as int, b as int, x as int, y as int) && b < height
                        ==> g@.nodes[#[trigger] grid_index(height as int, a as int, b as int)] == (
                        a,
                        b,
                    ),
                forall|id: (usize, usize)| (#[trigger] g@.successors(id)).len() == 0,
                forall|id: (usize, usize)| (#[trigger] g@.predecessors(id)).len() == 0,
                grown_with_defaults(Map::<(usize, usize), Data>::empty(), g.payloads()),
            decreases height - y,
        {
            let ghost start = g@;
            proof {
                assert(!start.has_node((x, y))) by {
                    if start.has_node((x, y)) {
                        let k = choose|k: int| 0 <= k < start.nodes.len() && start.nodes[k] == (x, y);
                        assert(comes_before(
                            start.nodes[k].0 as int,
                            start.nodes[k].1 as int,
                            x as int,
                            y as int,
                        ));
                    }
                }
                start.lemma_add_new_node((x, y), (x, y));
                assert forall|id: (usize, usize)|
                    (#[trigger] start.add_node((x, y)).successors(id)).len() == 0 by {
                    start.lemma_add_new_node((x, y), id);
                    assert(start.successors(id).len() == 0);
                }
                assert forall|id: (usize, usize)|
                    (#[trigger] start.add_node((x, y)).predecessors(id)).len() == 0 by {
                    start.lemma_add_new_node((x, y), id);
                    assert(start.predecessors(id).len() == 0);
                }
                assert forall|a: usize, b: usize|
                    comes_before(a as int, b as int, x as int, y + 1) && b < height implies start.add_node(
                    (x, y),
                ).nodes[#[trigger] grid_index(height as int, a as int, b as int)] == (a, b) by {
                    if a == x && b == y {
                    } else {
                        assert(comes_before(a as int, b as int, x as int, y as int));
                        lemma_grid_index_bound(x + 1, height as int, a as int, b as int);
                        assert(grid_index(height as int, a as int, b as int) < x * height + y) by (nonlinear_arith)
                            requires
                                comes_before(a as int, b as int, x as int, y as int),
                                0 <= b < height,
                                0 <= a,
                                0 <= y,
                                grid_index(height as int, a as int, b as int) == a * height + b,
                        ;
                    }
                }
            }
            let _ = g.add_node((x, y));
            y += 1;
        }
        proof {
            assert((x + 1) * height == x * height + height) by (nonlinear_arith);
        }
        x += 1;
    }
    g
}

/// A grid of `width` by `height` nodes `(x, y)`: each node has an edge to
/// the node on its left, on its right, below it and above it, as far as they
/// exist. Pairs of integers have to fit the model of hash-map keys, which is
/// known of the integers themselves and taken from the caller for pairs.
pub fn generate_grid_graph<Data: Default + Send>(width: usize, height: usize) -> (g: Graph<
    (usize, usize),
    Data,
>)
    requires
        vstd::std_specs::hash::obeys_key_model::<(usize, usize)>(),
    ensures
        g.wf(),
        g@.nodes.len() == width * height,
        forall|x: usize, y: usize|
            x < width && y < height ==> g@.nodes[#[trigger] grid_index(
                height as int,
                x as int,
                y as int,
            )] == (x, y),
        forall|x: usize, y: usize|
            x < width && y < height ==> #[trigger] g@.successors((x, y)) == grid_neighbors(
                width as int,
                height as int,
                x as int,
                y as int,
            ),
        g@.predecessors_in_node_order(),
        grown_with_defaults(Map::<(usize, usize), Data>::empty(), g.payloads()),
{
    let mut g: Graph<(usize, usize), Data> = isolated_grid(width, height);
    let ghost cells = g@.nodes;
    proof {
        g@.lemma_no_edges_in_order();
    }
    let mut x: usize = 0;
    while x < width
        invariant
            x <= width,
            g.wf(),
            g@.nodes == cells,
            cells.len() == width * height,
            forall|a: usize, b: usize|
                a < width && b < height ==> cells[#[trigger] grid_index(
                    height as int,
                    a as int,
                    b as int,
                )] == (a, b),
            forall|a: usize, b: usize|
                a < x && b < height ==> #[trigger] g@.successors((a, b)) == grid_neighbors(
                    width as int,
                    height as int,
                    a as int,
                    b as int,
                ),
            forall|id: (usize, usize)| id.0 >= x ==> (#[trigger] g@.successors(id)).len() == 0,
            g@.predecessors_in_node_order(),
            g@.edges_start_within(x * height),
            grown_with_defaults(Map::<(usize, usize), Data>::empty(), g.payloads()),
        decreases width - x,
    {
        let mut y: usize = 0;
        while y < height
            invariant
                x < width,
                y <= height,
                g.wf(),
                g@.nodes == cells,
                cells.len() == width * height,
                forall|a: usize, b: usize|
                    a < width && b < height ==> cells[#[trigger] grid_index(
                        height as int,
                        a as int,
                        b as int,
                    )] == (a, b),
                forall|a: usize, b: usize|
                    comes_before(a as int, b as int, x as int, y as int) && b < height
                        ==> #[trigger] g@.successors((a, b)) == grid_neighbors(
                        width as int,
                        height as int,
                        a as int,
                        b as int,
                    ),
                forall|id: (usize, usize)|
                    !comes_before(id.0 as int, id.1 as int, x as int, y as int) ==> (
                    #[trigger] g@.successors(id)).len() == 0,
                g@.predecessors_in_node_order(),
                g@.edges_start_within(x * height + y),
                grown_with_defaults(Map::<(usize, usize), Data>::empty(), g.payloads()),
            decreases height - y,
        {
            let id = (x, y);
            let ghost at = grid_index(height as int, x as int, y as int);
            proof {
                lemma_grid_index_bound(width as int, height as int, x as int, y as int);
                g@.lemma_edges_start_within_more(at, at + 1);
                assert(g@.nodes[grid_index(height as int, x as int, y as int)] == id);
                assert(g@.has_node(id));
                assert(g@.successors(id).len() == 0);
                assert(forall|to: (usize, usize)| !g@.has_edge(id, to));
                assert(g@.successors(id) =~= Seq::<(usize, usize)>::empty());
            }
            if x > 0 {
                proof {
                    lemma_grid_index_bound(width as int, height as int, x - 1, y as int);
                    assert(g@.nodes[grid_index(height as int, (x - 1) as int, y as int)] == (
                        (x - 1) as usize,
                        y,
                    ));
                }
                connect(&mut g, id, (x - 1, y), Ghost(at));
            }
            if x < width - 1 {
                proof {
                    lemma_grid_index_bound(width as int, height as int, x + 1, y as int);
                    assert(g@.nodes[grid_index(height as int, (x + 1) as int, y as int)] == (
                        (x + 1) as usize,
                        y,
                    ));
                }
                connect(&mut g, id, (x + 1, y), Ghost(at));
            }
            if y > 0 {
                proof {
                    lemma_grid_index_bound(width as int, height as int, x as int, y - 1);
                    assert(g@.nodes[grid_index(height as int, x as int, (y - 1) as int)] == (
                        x,
                        (y - 1) as usize,
                    ));
                }
                connect(&mut g, id, (x, y - 1), Ghost(at));
            }
            if y < height - 1 {
                proof {
                    lemma_grid_index_bound(width as int, height as int, x as int, y + 1);
                    assert(g@.nodes[grid_index(height as int, x as int, (y + 1) as int)] == (
                        x,
                        (y + 1) as usize,
                    ));
                }
                connect(&mut g, id, (x, y + 1), Ghost(at));
            }
            y += 1;
        }
        proof {
            assert((x + 1) * height == x * height + height) by (nonlinear_arith);
        }
        x += 1;
    }
    g
}

/// Whether the table of picks asks for the edge `from -> to`: row `from`
/// has an entry `to`, and it is `true`.
pub open spec fn is_picked(picks: Seq<Vec<bool>>, from: int, to: int) -> bool {
    0 <= from < picks.len() && 0 <= to < picks[from]@.len() && picks[from]@[to]
}

/// The nodes below `bound` that the table picks as successors of `from`, ascending.
pub open spec fn picked_below(picks: Seq<Vec<bool>>, from: int, bound: int) -> Seq<usize>
    decreases bound,
{
    if bound <= 0 {
        Seq::empty()
    } else if is_picked(picks, from, bound - 1) {
        picked_below(picks, from, bound - 1).push((bound - 1) as usize)
    } else {
        picked_below(picks, from, bound - 1)
    }
}

/// A graph of the nodes `0, .., n - 1` with the edges that a table of picks
/// asks for: `from -> to` where row `from` of the table holds `true` at
/// `to`. Filled with independent draws that are `true` with one probability,
/// the table gives a random graph with that edge probability.
pub fn generate_random_graph<Data: Default + Send>(n: usize, picks: &Vec<Vec<bool>>) -> (g: Graph<
    usize,
    Data,
>)
    ensures
        g.wf(),
        g@.nodes == first_numbers(n as nat),
        forall|i: usize|
            i < n ==> #[trigger] g@.successors(i) == picked_below(picks@, i as int, n as int),
        g@.predecessors_in_node_order(),
        grown_with_defaults(Map::<usize, Data>::empty(), g.payloads()),
{
    let mut g: Graph<usize, Data> = isolated_nodes(n);
    proof {
        g@.lemma_no_edges_in_order();
    }
    let mut from: usize = 0;
    while from < n
        invariant
            from <= n,
            g.wf(),
            g@.nodes == first_numbers(n as nat),
            forall|k: usize|
                k < from ==> #[trigger] g@.successors(k) == picked_below(picks@, k as int, n as int),
            forall|k: usize| k >= from ==> (#[trigger] g@.successors(k)).len() == 0,
            g@.predecessors_in_node_order(),
            g@.edges_start_within(from as int),
            grown_with_defaults(Map::<usize, Data>::empty(), g.payloads()),
        decreases n - from,
    {
        proof {
            assert(g@.successors(from).len() == 0);
            assert(g@.successors(from) =~= picked_below(picks@, from as int, 0));
            assert(forall|t: usize| !g@.has_edge(from, t));
            g@.lemma_edges_start_within_more(from as int, from + 1);
        }
        let mut to: usize = 0;
        while to < n
            invariant
                from < n,
                to <= n,
                g.wf(),
                g@.nodes == first_numbers(n as nat),
                forall|k: usize|
                    k < from ==> #[trigger] g@.successors(k) == picked_below(
                        picks@,
                        k as int,
                        n as int,
                    ),
                forall|k: usize| k > from ==> (#[trigger] g@.successors(k)).len() == 0,
                g@.successors(from) == picked_below(picks@, from as int, to as int),
                forall|t: usize| #[trigger] g@.has_edge(from, t) ==> t < to,
                g@.predecessors_in_node_order(),
                g@.edges_start_within(from + 1),
                grown_with_defaults(Map::<usize, Data>::empty(), g.payloads()),
            decreases n - to,
        {
            let pick = from < picks.len() && to < picks[from].len() && picks[from][to];
            if pick {
                proof {
                    assert(g@.nodes[from as int] == from);
                    assert(g@.nodes[to as int] == to);
                    assert(!g@.has_edge(from, to));
                }
                connect(&mut g, from, to, Ghost(from as int));
            }
            to += 1;
        }
        from += 1;
    }
    g
}

} // verus!
