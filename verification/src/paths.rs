//! Counting the paths between two nodes of a directed acyclic graph.

use crate::error::GraphError;
use crate::graph::contains_id;
use crate::graph::Graph;
use crate::model::Topology;
use core::hash::Hash;
use vstd::prelude::*;

verus! {

impl<ID> Topology<ID> {
    /// The sum over one more end is the sum so far plus the count for that end.
    pub proof fn lemma_sum_walks_step(self, start: ID, ends: Seq<ID>, budget: nat, k: int)
        requires
            0 <= k < ends.len(),
        ensures
            self.sum_walks(start, ends.take(k + 1), budget) == self.sum_walks(
                start,
                ends.take(k),
                budget,
            ) + self.count_walks(start, ends[k], budget),
    {
        assert(ends.take(k + 1).drop_last() =~= ends.take(k));
    }

    /// The sum over the first `k` ends is at most the sum over all of them.
    pub proof fn lemma_sum_walks_prefix(self, start: ID, ends: Seq<ID>, budget: nat, k: int)
        requires
            0 <= k <= ends.len(),
        ensures
            self.sum_walks(start, ends.take(k), budget) <= self.sum_walks(start, ends, budget),
        decreases ends.len() - k,
    {
        if k == ends.len() {
            assert(ends.take(k) =~= ends);
        } else {
            self.lemma_sum_walks_step(start, ends, budget, k);
            self.lemma_sum_walks_prefix(start, ends, budget, k + 1);
        }
    }

    /// A walk stays a walk when a predecessor of its first node is put in front.
    pub proof fn lemma_walk_extends_back(self, walk: Seq<ID>, before: ID)
        requires
            self.wf(),
            self.is_walk(walk),
            self.predecessors(walk[0]).contains(before),
        ensures
            self.is_walk(seq![before] + walk),
    {
        let longer = seq![before] + walk;
        assert forall|i: int| 0 <= i < longer.len() - 1 implies #[trigger] self.is_step(longer, i) by {
            if i == 0 {
                assert(self.has_mirrored_edge(before, walk[0]));
                assert(self.has_edge(before, walk[0]));
            } else {
                assert(self.is_step(walk, i - 1));
            }
        }
    }
}

/// The number of paths from `start` to `end`, where `trail` is the way by
/// which the count came to `end`.
fn count_paths_to<ID: Eq + Hash + Copy, Data: Default>(
    graph: &Graph<ID, Data>,
    start: &ID,
    end: &ID,
    Ghost(trail): Ghost<Seq<ID>>,
) -> (count: usize)
    requires
        graph.wf(),
        graph@.no_node_on_cycle(),
        graph@.is_walk(trail),
        trail[0] == *end,
        graph@.has_node(trail.last()),
        graph@.count_walks(*start, *end, (graph@.nodes.len() + 1 - trail.len()) as nat)
            <= usize::MAX,
    ensures
        count == graph@.count_walks(
            *start,
            *end,
            (graph@.nodes.len() + 1 - trail.len()) as nat,
        ),
    decreases graph@.nodes.len() + 1 - trail.len(),
{
    proof {
        reveal(vstd::laws_eq::obeys_concrete_eq);
        graph@.lemma_walk_is_short(trail);
    }
    if *start == *end {
        return 1;
    }
    let ghost budget = (graph@.nodes.len() - trail.len()) as nat;
    let reverse_neighbors = graph.reverse_neighbors(*end);
    let mut paths: usize = 0;
    let mut k: usize = 0;
    while k < reverse_neighbors.len()
        invariant
            k <= reverse_neighbors.len(),
            graph.wf(),
            graph@.no_node_on_cycle(),
            graph@.is_walk(trail),
            trail[0] == *end,
            graph@.has_node(trail.last()),
            trail.len() <= graph@.nodes.len(),
            budget == graph@.nodes.len() - trail.len(),
            reverse_neighbors@ == graph@.predecessors(*end),
            graph@.sum_walks(*start, reverse_neighbors@, budget) <= usize::MAX,
            paths == graph@.sum_walks(*start, reverse_neighbors@.take(k as int), budget),
        decreases reverse_neighbors.len() - k,
    {
        let reverse_neighbor = reverse_neighbors[k];
        proof {
            reveal(vstd::laws_eq::obeys_concrete_eq);
            graph@.lemma_sum_walks_step(*start, reverse_neighbors@, budget, k as int);
            graph@.lemma_sum_walks_prefix(*start, reverse_neighbors@, budget, k + 1);
            graph@.lemma_walk_extends_back(trail, reverse_neighbor);
        }
        if reverse_neighbor == *start {
            paths += 1;
        } else {
            let ghost longer = seq![reverse_neighbor] + trail;
            let through = count_paths_to(graph, start, &reverse_neighbor, Ghost(longer));
            paths += through;
        }
        k += 1;
    }
    proof {
        assert(reverse_neighbors@.take(k as int) =~= reverse_neighbors@);
    }
    paths
}

/// Counts the paths from `start` to `end` in a directed acyclic graph: one if
/// they are the same node, else the paths from `start` to each predecessor of
/// `end`, added up. That is the number of walks from `start` to `end`. A node
/// that the graph does not know is reported as `UnknownNode`, a graph that is
/// not directed and acyclic as `NotAcyclic`. The count has to fit the result type.
pub fn count_paths<ID: Eq + Hash + Copy, Data: Default>(
    graph: &Graph<ID, Data>,
    start: &ID,
    end: &ID,
) -> (result: Result<usize, GraphError>)
    requires
        graph.wf(),
        graph@.has_node(*start) && graph@.has_node(*end) && graph@.is_directed_acyclic()
            ==> graph@.count_paths(*start, *end) <= usize::MAX,
    ensures
        !graph@.has_node(*start) || !graph@.has_node(*end) ==> result == Err::<usize, GraphError>(
            GraphError::UnknownNode,
        ),
        graph@.has_node(*start) && graph@.has_node(*end) && !graph@.is_directed_acyclic()
            ==> result == Err::<usize, GraphError>(GraphError::NotAcyclic),
        graph@.has_node(*start) && graph@.has_node(*end) && graph@.is_directed_acyclic()
            ==> result == Ok::<usize, GraphError>(graph@.count_paths(*start, *end) as usize),
        graph@.has_node(*start) && graph@.has_node(*end) && graph@.is_directed_acyclic()
            ==> result == Ok::<usize, GraphError>(
            graph@.walks_between(*start, *end).len() as usize,
        ),
{
    if !contains_id(&graph.nodes, *start) {
        return Err(GraphError::UnknownNode);
    }
    if !contains_id(&graph.nodes, *end) {
        return Err(GraphError::UnknownNode);
    }
    if !graph.is_directed_acyclic() {
        return Err(GraphError::NotAcyclic);
    }
    proof {
        assert(graph@.is_walk(seq![*end]));
        graph@.law_count_paths_counts_walks(*start, *end);
    }
    let ghost trail = seq![*end];
    let count = count_paths_to(graph, start, end, Ghost(trail));
    Ok(count)
}

} // verus!
