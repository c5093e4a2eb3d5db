//! Laws of the store and of the classification, stated over the model.

use crate::model::Step;
use crate::model::Topology;
use vstd::prelude::*;

verus! {

impl<ID> Topology<ID> {
    /// The invariant of the store holds after every request of every
    /// sequence of requests, on whatever well-formed graph they are made.
    pub proof fn law_invariant_after_every_request(self, requests: Seq<Step<ID>>, k: int)
        requires
            self.wf(),
            0 <= k <= requests.len(),
        ensures
            self.run(requests.take(k)).wf(),
        decreases k,
    {
        if k > 0 {
            self.law_invariant_after_every_request(requests, k - 1);
            assert(requests.take(k).drop_last() =~= requests.take(k - 1));
            let before = self.run(requests.take(k - 1));
            match requests.take(k).last() {
                Step::Node(id) => {
                    before.lemma_add_node_wf(id);
                },
                Step::DirectedEdge(from, to) => {
                    before.lemma_add_directed_edge_wf(from, to);
                },
                Step::Edge(a, b) => {
                    before.lemma_add_edge_wf(a, b);
                },
            }
        }
    }

    /// A graph built from directed edges is well formed.
    pub proof fn law_built_by_directed_edges_is_well_formed(pairs: Seq<(ID, ID)>)
        ensures
            Self::empty().add_directed_edges(pairs).wf(),
        decreases pairs.len(),
    {
        if pairs.len() > 0 {
            Self::law_built_by_directed_edges_is_well_formed(pairs.drop_last());
            Self::empty().add_directed_edges(pairs.drop_last()).lemma_add_directed_edge_wf(
                pairs.last().0,
                pairs.last().1,
            );
        }
    }

    /// A graph built from directed edges lists its nodes in the order in
    /// which the edges name them first.
    pub proof fn law_node_order_follows_first_occurrence(pairs: Seq<(ID, ID)>)
        ensures
            Self::empty().add_directed_edges(pairs).nodes == Self::first_occurrences(
                Self::endpoints(pairs),
            ),
        decreases pairs.len(),
    {
        if pairs.len() > 0 {
            Self::law_node_order_follows_first_occurrence(pairs.drop_last());
            let named = Self::endpoints(pairs.drop_last());
            let from = pairs.last().0;
            let to = pairs.last().1;
            let before = Self::empty().add_directed_edges(pairs.drop_last());
            let first = Self::first_occurrences(named);
            assert(named.push(from).drop_last() =~= named);
            assert(named.push(from).last() == from);
            let second = Self::first_occurrences(named.push(from));
            assert(second == if first.contains(from) {
                first
            } else {
                first.push(from)
            });
            assert(before.add_node(from).nodes == second);
            assert(named.push(from).push(to).drop_last() =~= named.push(from));
            assert(named.push(from).push(to).last() == to);
            let third = Self::first_occurrences(named.push(from).push(to));
            assert(third == if second.contains(to) {
                second
            } else {
                second.push(to)
            });
            assert(before.add_node(from).add_node(to).nodes == third);
            assert(Self::endpoints(pairs) == named.push(from).push(to));
        }
    }

    /// Adding a node a second time changes nothing.
    pub proof fn law_add_node_idempotent(self, id: ID)
        ensures
            self.add_node(id).add_node(id) == self.add_node(id),
    {
        self.lemma_add_node_nodes(id, id);
    }

    /// Adding a directed edge a second time changes nothing: the adjacency
    /// state after two requests is the state after one.
    pub proof fn law_add_directed_edge_idempotent(self, from: ID, to: ID)
        ensures
            self.add_directed_edge(from, to).add_directed_edge(from, to) == self.add_directed_edge(
                from,
                to,
            ),
    {
        let once = self.add_directed_edge(from, to);
        self.lemma_add_directed_edge_nodes(from, to, from);
        self.lemma_add_directed_edge_nodes(from, to, to);
        let grown = self.add_node(from).add_node(to);
        if !grown.has_edge(from, to) {
            Self::lemma_push_contains(grown.successors(from), to, to);
        }
        assert(once.has_edge(from, to));
        assert(once.add_node(from) == once);
        assert(once.add_node(from).add_node(to) == once);
    }

    /// An undirected edge from a node to itself is one directed edge: the
    /// second insertion finds the first. Where the node had no successor, it
    /// is then its own only successor, once.
    pub proof fn law_self_loop_once(self, id: ID)
        requires
            self.wf(),
        ensures
            self.add_edge(id, id) == self.add_directed_edge(id, id),
            self.add_edge(id, id).has_edge(id, id),
            self.add_edge(id, id).successors(id).no_duplicates(),
            self.successors(id).len() == 0 ==> self.add_edge(id, id).successors(id) == seq![id],
    {
        self.law_add_directed_edge_idempotent(id, id);
        self.lemma_add_directed_edge_edges(id, id, id, id);
        self.lemma_add_directed_edge_wf(id, id);
        if self.successors(id).len() == 0 {
            let grown = self.add_node(id).add_node(id);
            self.lemma_add_node_nodes(id, id);
            assert(grown == self.add_node(id));
            assert(grown.successors(id) =~= Seq::<ID>::empty());
            assert(!grown.has_edge(id, id));
            assert(Seq::<ID>::empty().push(id) =~= seq![id]);
        }
    }

    /// A graph that is undirected stays so when an undirected edge is added.
    pub proof fn law_add_edge_keeps_undirected(self, a: ID, b: ID)
        requires
            self.wf(),
            self.is_undirected(),
        ensures
            self.add_edge(a, b).is_undirected(),
    {
        let half = self.add_directed_edge(a, b);
        let full = self.add_edge(a, b);
        self.lemma_add_directed_edge_wf(a, b);
        assert forall|from: ID, to: ID| #[trigger] full.has_edge(from, to) implies full.has_edge(
            to,
            from,
        ) by {
            self.lemma_add_directed_edge_edges(a, b, from, to);
            half.lemma_add_directed_edge_edges(b, a, from, to);
            self.lemma_add_directed_edge_edges(a, b, to, from);
            half.lemma_add_directed_edge_edges(b, a, to, from);
            if self.has_edge(from, to) {
                assert(self.has_edge(to, from));
            }
        }
    }

    /// A graph that is undirected stays so when a node is added.
    pub proof fn law_add_node_keeps_undirected(self, id: ID)
        requires
            self.wf(),
            self.is_undirected(),
        ensures
            self.add_node(id).is_undirected(),
    {
        let grown = self.add_node(id);
        if !self.has_node(id) {
            assert forall|from: ID, to: ID| #[trigger] grown.has_edge(from, to) implies grown.has_edge(
                to,
                from,
            ) by {
                self.lemma_add_new_node(id, from);
                self.lemma_add_new_node(id, to);
                assert(self.has_edge(from, to));
                assert(self.has_edge(to, from));
            }
        }
    }

    /// A graph built from nothing by undirected edges alone is undirected.
    pub proof fn law_built_by_add_edge_is_undirected(pairs: Seq<(ID, ID)>)
        ensures
            Self::empty().add_edges(pairs).wf(),
            Self::empty().add_edges(pairs).is_undirected(),
        decreases pairs.len(),
    {
        if pairs.len() == 0 {
            let none = Self::empty();
            assert(none.wf());
            assert forall|from: ID, to: ID| #[trigger] none.has_edge(from, to) implies none.has_edge(
                to,
                from,
            ) by {
                assert(none.successors(from).len() == 0);
            }
        } else {
            Self::law_built_by_add_edge_is_undirected(pairs.drop_last());
            let before = Self::empty().add_edges(pairs.drop_last());
            before.lemma_add_edge_wf(pairs.last().0, pairs.last().1);
            before.law_add_edge_keeps_undirected(pairs.last().0, pairs.last().1);
        }
    }

    /// A directed edge between two nodes whose mirror is not recorded makes
    /// the graph directed: it is not undirected afterwards.
    pub proof fn law_unmirrored_edge_is_directed(self, from: ID, to: ID)
        requires
            self.wf(),
            from != to,
            !self.has_edge(to, from),
        ensures
            !self.add_directed_edge(from, to).is_undirected(),
    {
        let after = self.add_directed_edge(from, to);
        self.lemma_add_directed_edge_edges(from, to, from, to);
        self.lemma_add_directed_edge_edges(from, to, to, from);
        assert(after.has_edge(from, to));
        assert(!after.has_edge(to, from));
    }

    /// From a node to itself there is one path, the one without edges.
    pub proof fn law_one_path_to_itself(self, id: ID)
        ensures
            self.count_paths(id, id) == 1,
    {
    }
}

} // verus!
