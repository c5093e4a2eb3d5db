//! The order of predecessor lists in graphs that are filled source by source.

use crate::model::Topology;
use vstd::prelude::*;

verus! {

impl<ID> Topology<ID> {
    /// Two graphs that agree on the edges from `candidates` to `to` have the
    /// same sources among them.
    pub proof fn lemma_sources_agree(self, other: Self, candidates: Seq<ID>, to: ID)
        requires
            forall|k: int|
                0 <= k < candidates.len() ==> (self.has_edge(#[trigger] candidates[k], to)
                    <==> other.has_edge(candidates[k], to)),
        ensures
            self.sources_among(candidates, to) == other.sources_among(candidates, to),
        decreases candidates.len(),
    {
        if candidates.len() > 0 {
            let rest = candidates.drop_last();
            assert forall|k: int| 0 <= k < rest.len() implies (self.has_edge(#[trigger] rest[k], to)
                <==> other.has_edge(rest[k], to)) by {
                assert(rest[k] == candidates[k]);
            }
            self.lemma_sources_agree(other, rest, to);
            assert(candidates.last() == candidates[candidates.len() - 1]);
        }
    }

    /// Candidates without an edge to `to` add no sources.
    pub proof fn lemma_sources_beyond(self, candidates: Seq<ID>, count: int, to: ID)
        requires
            0 <= count <= candidates.len(),
            forall|k: int| count <= k < candidates.len() ==> !self.has_edge(#[trigger] candidates[k], to),
        ensures
            self.sources_among(candidates, to) == self.sources_among(candidates.take(count), to),
        decreases candidates.len() - count,
    {
        if count == candidates.len() {
            assert(candidates.take(count) =~= candidates);
        } else {
            let rest = candidates.drop_last();
            assert(!self.has_edge(candidates[candidates.len() - 1], to));
            assert forall|k: int| count <= k < rest.len() implies !self.has_edge(
                #[trigger] rest[k],
                to,
            ) by {
                assert(rest[k] == candidates[k]);
            }
            self.lemma_sources_beyond(rest, count, to);
            assert(rest.take(count) =~= candidates.take(count));
        }
    }

    /// A graph in which predecessors stand in the order of the directory,
    /// and in which no node after `from` has an edge yet, keeps that order
    /// when it gets an edge from `from`.
    pub proof fn lemma_edge_keeps_source_order(self, from: ID, to: ID, at: int)
        requires
            self.wf(),
            self.predecessors_in_node_order(),
            0 <= at < self.nodes.len(),
            self.nodes[at] == from,
            self.has_node(to),
            self.edges_start_within(at + 1),
        ensures
            self.add_directed_edge(from, to).predecessors_in_node_order(),
            self.add_directed_edge(from, to).edges_start_within(at + 1),
    {
        let after = self.add_directed_edge(from, to);
        assert(self.has_node(from));
        self.lemma_add_directed_edge_known(from, to, to);
        assert(self.nodes.take(at + 1)[at] == from);
        assert forall|a: ID, b: ID| #[trigger] after.has_edge(a, b) implies after.nodes.take(
            at + 1,
        ).contains(a) by {
            self.lemma_add_directed_edge_edges(from, to, a, b);
            if self.has_edge(a, b) {
                assert(self.nodes.take(at + 1).contains(a));
            }
        }
        assert forall|x: ID| #[trigger] after.predecessors(x) == after.sources_among(
            after.nodes,
            x,
        ) by {
            self.lemma_add_directed_edge_known(from, to, x);
            assert(self.predecessors(x) == self.sources_among(self.nodes, x));
            let firsts = self.nodes.take(at);
            let upto = self.nodes.take(at + 1);
            assert forall|k: int| at + 1 <= k < self.nodes.len() implies !self.has_edge(
                #[trigger] self.nodes[k],
                x,
            ) && !after.has_edge(self.nodes[k], x) by {
                self.lemma_add_directed_edge_edges(from, to, self.nodes[k], x);
                if self.has_edge(self.nodes[k], x) {
                    let j = choose|j: int| 0 <= j < upto.len() && upto[j] == self.nodes[k];
                    assert(self.nodes[j] == self.nodes[k]);
                }
            }
            self.lemma_sources_beyond(self.nodes, at + 1, x);
            after.lemma_sources_beyond(self.nodes, at + 1, x);
            assert(upto.drop_last() =~= firsts);
            assert(upto.last() == from);
            assert forall|k: int| 0 <= k < firsts.len() implies (self.has_edge(
                #[trigger] firsts[k],
                x,
            ) <==> after.has_edge(firsts[k], x)) by {
                self.lemma_add_directed_edge_edges(from, to, firsts[k], x);
                assert(self.nodes[k] != self.nodes[at]);
            }
            self.lemma_sources_agree(after, firsts, x);
            self.lemma_add_directed_edge_edges(from, to, from, x);
        }
    }

    /// A graph without edges lists its predecessors, none, in the order of
    /// the directory.
    pub proof fn lemma_no_edges_in_order(self)
        requires
            forall|id: ID| (#[trigger] self.successors(id)).len() == 0,
            forall|id: ID| (#[trigger] self.predecessors(id)).len() == 0,
        ensures
            self.predecessors_in_node_order(),
            self.edges_start_within(0),
    {
        assert forall|from: ID, to: ID| !#[trigger] self.has_edge(from, to) by {
            assert(self.successors(from).len() == 0);
        }
        assert forall|to: ID| #[trigger] self.predecessors(to) == self.sources_among(
            self.nodes,
            to,
        ) by {
            self.lemma_sources_beyond(self.nodes, 0, to);
            assert(self.nodes.take(0) =~= Seq::<ID>::empty());
            assert(self.predecessors(to).len() == 0);
            assert(self.predecessors(to) =~= Seq::<ID>::empty());
        }
    }

    /// Edges that start within the first nodes start within a longer stretch of them.
    pub proof fn lemma_edges_start_within_more(self, count: int, more: int)
        requires
            self.edges_start_within(count),
            0 <= count <= more <= self.nodes.len(),
        ensures
            self.edges_start_within(more),
    {
        assert forall|from: ID, to: ID| #[trigger] self.has_edge(from, to) implies self.nodes.take(
            more,
        ).contains(from) by {
            let firsts = self.nodes.take(count);
            assert(firsts.contains(from));
            let k = choose|k: int| 0 <= k < firsts.len() && firsts[k] == from;
            assert(self.nodes.take(more)[k] == from);
        }
    }
}

} // verus!
