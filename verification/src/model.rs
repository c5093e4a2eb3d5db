//! The mathematical model of a graph's structure: the node directory and the
//! two adjacency maps, with the operations that grow them.

use vstd::prelude::*;

verus! {

/// Nodes in insertion order, and for each node its successors and its
/// predecessors in insertion order.
#[verifier::reject_recursive_types(ID)]
pub struct Topology<ID> {
    /// The node directory.
    pub nodes: Seq<ID>,
    /// The forward adjacency: the successors of each node.
    pub succ: Map<ID, Seq<ID>>,
    /// The reverse adjacency: the predecessors of each node.
    pub pred: Map<ID, Seq<ID>>,
}

/// One request to grow a graph.
pub enum Step<ID> {
    /// Add a node.
    Node(ID),
    /// Add the directed edge from the first node to the second.
    DirectedEdge(ID, ID),
    /// Add the undirected edge between the two nodes.
    Edge(ID, ID),
}

impl<ID> Topology<ID> {
    /// The structure without nodes.
    pub open spec fn empty() -> Self {
        Topology { nodes: Seq::empty(), succ: Map::empty(), pred: Map::empty() }
    }

    /// Whether the directory lists `id`.
    pub open spec fn has_node(self, id: ID) -> bool {
        self.nodes.contains(id)
    }

    /// The successors of `id`; none if `id` is unknown.
    pub open spec fn successors(self, id: ID) -> Seq<ID> {
        if self.succ.contains_key(id) {
            self.succ[id]
        } else {
            Seq::empty()
        }
    }

    /// The predecessors of `id`; none if `id` is unknown.
    pub open spec fn predecessors(self, id: ID) -> Seq<ID> {
        if self.pred.contains_key(id) {
            self.pred[id]
        } else {
            Seq::empty()
        }
    }

    /// Whether the forward adjacency records the edge `from -> to`.
    pub open spec fn has_edge(self, from: ID, to: ID) -> bool {
        self.successors(from).contains(to)
    }

    /// Whether the reverse adjacency records the edge `from -> to`.
    pub open spec fn has_mirrored_edge(self, from: ID, to: ID) -> bool {
        self.predecessors(to).contains(from)
    }

    /// The recorded edges as a set of pairs.
    pub open spec fn edge_set(self) -> Set<(ID, ID)> {
        Set::new(|e: (ID, ID)| self.has_edge(e.0, e.1))
    }

    /// The invariant of the store: the directory lists every node once, both
    /// adjacency maps have an entry for exactly the listed nodes, no list
    /// names a neighbour twice, and the two maps mirror each other.
    pub open spec fn wf(self) -> bool {
        &&& self.nodes.no_duplicates()
        &&& forall|id: ID| #[trigger] self.succ.contains_key(id) <==> self.has_node(id)
        &&& forall|id: ID| #[trigger] self.pred.contains_key(id) <==> self.has_node(id)
        &&& forall|id: ID| (#[trigger] self.successors(id)).no_duplicates()
        &&& forall|id: ID| (#[trigger] self.predecessors(id)).no_duplicates()
        &&& forall|from: ID, to: ID|
            #![trigger self.has_edge(from, to)]
            #![trigger self.has_mirrored_edge(from, to)]
            self.has_edge(from, to) <==> self.has_mirrored_edge(from, to)
    }

    /// Adding a node: a known `id` changes nothing, a new one goes to the end
    /// of the directory with empty adjacency lists.
    pub open spec fn add_node(self, id: ID) -> Self {
        if self.has_node(id) {
            self
        } else {
            Topology {
                nodes: self.nodes.push(id),
                succ: self.succ.insert(id, Seq::empty()),
                pred: self.pred.insert(id, Seq::empty()),
            }
        }
    }

    /// Adding the edge `from -> to`: both endpoints are added as nodes first,
    /// `from` before `to`; then the edge is appended to both adjacency maps
    /// unless `to` already is a successor of `from`.
    pub open spec fn add_directed_edge(self, from: ID, to: ID) -> Self {
        let g = self.add_node(from).add_node(to);
        if g.has_edge(from, to) {
            g
        } else {
            let succ = g.succ.insert(from, g.successors(from).push(to));
            let pred = g.pred.insert(to, g.predecessors(to).push(from));
            Topology { nodes: g.nodes, succ, pred }
        }
    }

    /// Adding the undirected edge between `a` and `b`: `a -> b`, then `b -> a`.
    pub open spec fn add_edge(self, a: ID, b: ID) -> Self {
        self.add_directed_edge(a, b).add_directed_edge(b, a)
    }

    /// Whether every recorded edge is recorded in the other direction too.
    pub open spec fn is_undirected(self) -> bool {
        forall|from: ID, to: ID| #[trigger] self.has_edge(from, to) ==> self.has_edge(to, from)
    }

    /// The successors of every node of `layer`, in the order of `layer`.
    pub open spec fn expand(self, layer: Seq<ID>) -> Seq<ID>
        decreases layer.len(),
    {
        if layer.len() == 0 {
            Seq::empty()
        } else {
            self.expand(layer.drop_last()) + self.successors(layer.last())
        }
    }

    /// The frontier of a breadth-first expansion from `origin`: its successors
    /// at `hops == 0`, and each further hop the expansion of the frontier
    /// before. A node stands in it once for every way of reaching it.
    pub open spec fn frontier(self, origin: ID, hops: nat) -> Seq<ID>
        decreases hops,
    {
        if hops == 0 {
            self.successors(origin)
        } else {
            self.expand(self.frontier(origin, (hops - 1) as nat))
        }
    }

    /// Whether `origin` shows up in one of the first `nodes.len()` frontiers
    /// of the expansion that starts from it.
    pub open spec fn on_cycle(self, origin: ID) -> bool {
        exists|hops: nat|
            hops < self.nodes.len() && #[trigger] self.frontier(origin, hops).contains(origin)
    }

    /// Whether no node of the directory is on a cycle.
    pub open spec fn no_node_on_cycle(self) -> bool {
        forall|i: int| 0 <= i < self.nodes.len() ==> !self.on_cycle(#[trigger] self.nodes[i])
    }

    /// Whether the graph counts as directed and acyclic: it is not undirected,
    /// and no node is on a cycle. A graph without edges is undirected, and so
    /// does not count.
    pub open spec fn is_directed_acyclic(self) -> bool {
        &&& !self.is_undirected()
        &&& self.no_node_on_cycle()
    }

    /// Whether an edge leads from item `i` of `walk` to the next.
    pub open spec fn is_step(self, walk: Seq<ID>, i: int) -> bool {
        self.has_edge(walk[i], walk[i + 1])
    }

    /// Whether `walk` follows recorded edges from its first node to its last.
    /// A single node is a walk without edges.
    pub open spec fn is_walk(self, walk: Seq<ID>) -> bool {
        &&& walk.len() >= 1
        &&& forall|i: int| 0 <= i < walk.len() - 1 ==> #[trigger] self.is_step(walk, i)
    }

    /// The walks that lead from `start` to `end`.
    pub open spec fn walks_between(self, start: ID, end: ID) -> Set<Seq<ID>> {
        Set::new(|walk: Seq<ID>| self.is_walk(walk) && walk[0] == start && walk.last() == end)
    }

    /// The walks from `start` to `end` whose last edge comes from one of `sources`.
    pub open spec fn walks_through(self, start: ID, end: ID, sources: Seq<ID>) -> Set<Seq<ID>> {
        Set::new(
            |walk: Seq<ID>|
                self.is_walk(walk) && walk[0] == start && walk.last() == end && walk.len() >= 2
                    && sources.contains(walk[walk.len() - 2]),
        )
    }

    /// The number of ways to get from `start` to `end` along at most `budget`
    /// edges: one if they are the same node, else the ways to get from
    /// `start` to each predecessor of `end`, added up.
    pub open spec fn count_walks(self, start: ID, end: ID, budget: nat) -> nat
        decreases budget, 0nat, 0nat,
    {
        if start == end {
            1
        } else if budget == 0 {
            0
        } else {
            self.sum_walks(start, self.predecessors(end), (budget - 1) as nat)
        }
    }

    /// The ways to get from `start` to each node of `ends` along at most
    /// `budget` edges, added up.
    pub open spec fn sum_walks(self, start: ID, ends: Seq<ID>, budget: nat) -> nat
        decreases budget, 1nat, ends.len(),
    {
        if ends.len() == 0 {
            0
        } else {
            self.sum_walks(start, ends.drop_last(), budget) + self.count_walks(
                start,
                ends.last(),
                budget,
            )
        }
    }

    /// The number of paths from `start` to `end`. In a graph with `n` nodes
    /// that has no cycle a path has fewer than `n` edges.
    pub open spec fn count_paths(self, start: ID, end: ID) -> nat {
        self.count_walks(start, end, self.nodes.len())
    }

    /// The nodes of `candidates` from which an edge leads to `to`, in the
    /// order of `candidates`.
    pub open spec fn sources_among(self, candidates: Seq<ID>, to: ID) -> Seq<ID>
        decreases candidates.len(),
    {
        if candidates.len() == 0 {
            Seq::empty()
        } else if self.has_edge(candidates.last(), to) {
            self.sources_among(candidates.drop_last(), to).push(candidates.last())
        } else {
            self.sources_among(candidates.drop_last(), to)
        }
    }

    /// Whether every list of predecessors names its nodes in the order of the
    /// directory.
    pub open spec fn predecessors_in_node_order(self) -> bool {
        forall|to: ID| #[trigger] self.predecessors(to) == self.sources_among(self.nodes, to)
    }

    /// Whether every edge starts at one of the first `count` nodes of the directory.
    pub open spec fn edges_start_within(self, count: int) -> bool {
        forall|from: ID, to: ID| #[trigger]
            self.has_edge(from, to) ==> self.nodes.take(count).contains(from)
    }

    /// The items of `list` in the order in which each comes first.
    pub open spec fn first_occurrences(list: Seq<ID>) -> Seq<ID>
        decreases list.len(),
    {
        if list.len() == 0 {
            Seq::empty()
        } else {
            let before = Self::first_occurrences(list.drop_last());
            if before.contains(list.last()) {
                before
            } else {
                before.push(list.last())
            }
        }
    }

    /// The endpoints of `pairs`, pair by pair, the source of each before its target.
    pub open spec fn endpoints(pairs: Seq<(ID, ID)>) -> Seq<ID>
        decreases pairs.len(),
    {
        if pairs.len() == 0 {
            Seq::empty()
        } else {
            Self::endpoints(pairs.drop_last()).push(pairs.last().0).push(pairs.last().1)
        }
    }

    /// The structure after one request.
    pub open spec fn step(self, request: Step<ID>) -> Self {
        match request {
            Step::Node(id) => self.add_node(id),
            Step::DirectedEdge(from, to) => self.add_directed_edge(from, to),
            Step::Edge(a, b) => self.add_edge(a, b),
        }
    }

    /// The structure after the requests of `requests`, one after the other.
    pub open spec fn run(self, requests: Seq<Step<ID>>) -> Self
        decreases requests.len(),
    {
        if requests.len() == 0 {
            self
        } else {
            self.run(requests.drop_last()).step(requests.last())
        }
    }

    /// Adding the undirected edges of `pairs` one after the other.
    pub open spec fn add_edges(self, pairs: Seq<(ID, ID)>) -> Self
        decreases pairs.len(),
    {
        if pairs.len() == 0 {
            self
        } else {
            self.add_edges(pairs.drop_last()).add_edge(pairs.last().0, pairs.last().1)
        }
    }

    /// Adding the directed edges of `pairs` one after the other.
    pub open spec fn add_directed_edges(self, pairs: Seq<(ID, ID)>) -> Self
        decreases pairs.len(),
    {
        if pairs.len() == 0 {
            self
        } else {
            self.add_directed_edges(pairs.drop_last()).add_directed_edge(
                pairs.last().0,
                pairs.last().1,
            )
        }
    }
}

impl<ID> Topology<ID> {
    /// What a list holds after one more item.
    pub proof fn lemma_push_contains(list: Seq<ID>, item: ID, x: ID)
        ensures
            list.push(item).contains(x) <==> list.contains(x) || x == item,
    {
        if list.contains(x) {
            let i = choose|i: int| 0 <= i < list.len() && list[i] == x;
            assert(list.push(item)[i] == x);
        }
        if x == item {
            assert(list.push(item)[list.len() as int] == x);
        }
    }

    /// Adding a node keeps the invariant.
    pub proof fn lemma_add_node_wf(self, id: ID)
        requires
            self.wf(),
        ensures
            self.add_node(id).wf(),
    {
        let g = self.add_node(id);
        if !self.has_node(id) {
            assert forall|x: ID| g.has_node(x) <==> self.has_node(x) || x == id by {
                Self::lemma_push_contains(self.nodes, id, x);
            }
            assert forall|x: ID| (#[trigger] g.successors(x)).no_duplicates() by {
                if x != id {
                    assert(g.successors(x) == self.successors(x));
                }
            }
            assert forall|x: ID| (#[trigger] g.predecessors(x)).no_duplicates() by {
                if x != id {
                    assert(g.predecessors(x) == self.predecessors(x));
                }
            }
            assert forall|from: ID, to: ID|
                #![trigger g.has_edge(from, to)]
                #![trigger g.has_mirrored_edge(from, to)]
                g.has_edge(from, to) <==> g.has_mirrored_edge(from, to) by {
                assert(self.has_edge(from, to) <==> self.has_mirrored_edge(from, to));
                assert(!self.succ.contains_key(id));
                assert(!self.pred.contains_key(id));
                if from != id {
                    assert(g.successors(from) == self.successors(from));
                }
                if to != id {
                    assert(g.predecessors(to) == self.predecessors(to));
                }
            }
        }
    }

    /// A list without repetitions stays so when it gets an item it did not hold.
    pub proof fn lemma_push_no_duplicates(list: Seq<ID>, item: ID)
        requires
            list.no_duplicates(),
            !list.contains(item),
        ensures
            list.push(item).no_duplicates(),
    {
        let longer = list.push(item);
        assert forall|i: int, j: int| 0 <= i < longer.len() && 0 <= j < longer.len() && i != j implies longer[i] != longer[j] by {
            if i < list.len() {
                assert(list.contains(list[i]));
            }
            if j < list.len() {
                assert(list.contains(list[j]));
            }
        }
    }

    /// The nodes after adding one: those before, and the new one.
    pub proof fn lemma_add_node_nodes(self, id: ID, x: ID)
        ensures
            self.add_node(id).has_node(x) <==> self.has_node(x) || x == id,
    {
        if !self.has_node(id) {
            Self::lemma_push_contains(self.nodes, id, x);
        }
    }

    /// The edges after adding one: those before, and the new one. Both
    /// adjacency maps record it.
    pub proof fn lemma_add_directed_edge_edges(self, from: ID, to: ID, a: ID, b: ID)
        requires
            self.wf(),
        ensures
            self.add_directed_edge(from, to).has_edge(a, b) <==> self.has_edge(a, b) || (a == from
                && b == to),
            self.add_directed_edge(from, to).has_mirrored_edge(a, b) <==> self.has_mirrored_edge(
                a,
                b,
            ) || (a == from && b == to),
    {
        let g1 = self.add_node(from);
        let g = g1.add_node(to);
        let h = self.add_directed_edge(from, to);
        self.lemma_add_node_wf(from);
        g1.lemma_add_node_wf(to);
        assert(g1.successors(a) == self.successors(a));
        assert(g.successors(a) == g1.successors(a));
        assert(g1.predecessors(b) == self.predecessors(b));
        assert(g.predecessors(b) == g1.predecessors(b));
        assert(g.has_edge(from, to) <==> g.has_mirrored_edge(from, to));
        if !g.has_edge(from, to) {
            Self::lemma_push_contains(g.successors(from), to, b);
            Self::lemma_push_contains(g.predecessors(to), from, a);
        }
    }

    /// The nodes after adding an edge: those before, and its two endpoints.
    pub proof fn lemma_add_directed_edge_nodes(self, from: ID, to: ID, x: ID)
        ensures
            self.add_directed_edge(from, to).has_node(x) <==> self.has_node(x) || x == from || x
                == to,
    {
        self.lemma_add_node_nodes(from, x);
        self.add_node(from).lemma_add_node_nodes(to, x);
    }

    /// Adding a directed edge keeps the invariant.
    pub proof fn lemma_add_directed_edge_wf(self, from: ID, to: ID)
        requires
            self.wf(),
        ensures
            self.add_directed_edge(from, to).wf(),
    {
        let g1 = self.add_node(from);
        let g = g1.add_node(to);
        let h = self.add_directed_edge(from, to);
        self.lemma_add_node_wf(from);
        g1.lemma_add_node_wf(to);
        g1.lemma_add_node_nodes(to, from);
        self.lemma_add_node_nodes(from, from);
        g1.lemma_add_node_nodes(to, to);
        if !g.has_edge(from, to) {
            assert(g.has_edge(from, to) <==> g.has_mirrored_edge(from, to));
            assert(g.successors(from).no_duplicates());
            assert(g.predecessors(to).no_duplicates());
            Self::lemma_push_no_duplicates(g.successors(from), to);
            Self::lemma_push_no_duplicates(g.predecessors(to), from);
            assert forall|x: ID| #[trigger] h.succ.contains_key(x) <==> h.has_node(x) by {
                assert(g.succ.contains_key(x) <==> g.has_node(x));
            }
            assert forall|x: ID| #[trigger] h.pred.contains_key(x) <==> h.has_node(x) by {
                assert(g.pred.contains_key(x) <==> g.has_node(x));
            }
            assert forall|x: ID| (#[trigger] h.successors(x)).no_duplicates() by {
                if x != from {
                    assert(h.successors(x) == g.successors(x));
                }
            }
            assert forall|x: ID| (#[trigger] h.predecessors(x)).no_duplicates() by {
                if x != to {
                    assert(h.predecessors(x) == g.predecessors(x));
                }
            }
            assert forall|a: ID, b: ID|
                #![trigger h.has_edge(a, b)]
                #![trigger h.has_mirrored_edge(a, b)]
                h.has_edge(a, b) <==> h.has_mirrored_edge(a, b) by {
                self.lemma_add_directed_edge_edges(from, to, a, b);
                assert(self.has_edge(a, b) <==> self.has_mirrored_edge(a, b));
            }
        }
    }

    /// Adding an undirected edge keeps the invariant.
    pub proof fn lemma_add_edge_wf(self, a: ID, b: ID)
        requires
            self.wf(),
        ensures
            self.add_edge(a, b).wf(),
    {
        self.lemma_add_directed_edge_wf(a, b);
        self.add_directed_edge(a, b).lemma_add_directed_edge_wf(b, a);
    }

    /// What adding a new node changes: it goes to the end of the directory
    /// with empty adjacency lists, and the lists of the others stay.
    pub proof fn lemma_add_new_node(self, id: ID, x: ID)
        requires
            self.wf(),
            !self.has_node(id),
        ensures
            self.add_node(id).nodes == self.nodes.push(id),
            self.add_node(id).successors(x) == self.successors(x),
            self.add_node(id).predecessors(x) == self.predecessors(x),
    {
        assert(!self.succ.contains_key(id));
        assert(!self.pred.contains_key(id));
    }

    /// What adding an edge between two known nodes changes: nothing if the
    /// edge is recorded; else `to` goes to the end of the successors of
    /// `from`, and `from` to the end of the predecessors of `to`.
    pub proof fn lemma_add_directed_edge_known(self, from: ID, to: ID, x: ID)
        requires
            self.wf(),
            self.has_node(from),
            self.has_node(to),
        ensures
            self.add_directed_edge(from, to).nodes == self.nodes,
            self.add_directed_edge(from, to).successors(x) == if x == from && !self.has_edge(
                from,
                to,
            ) {
                self.successors(from).push(to)
            } else {
                self.successors(x)
            },
            self.add_directed_edge(from, to).predecessors(x) == if x == to && !self.has_edge(
                from,
                to,
            ) {
                self.predecessors(to).push(from)
            } else {
                self.predecessors(x)
            },
    {
    }
}

} // verus!
