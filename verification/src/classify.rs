//! Structural classification: undirected graphs and directed acyclic graphs.

use crate::graph::contains_id;
use crate::graph::Graph;
use crate::hashing::map_get;
use core::hash::Hash;
use vstd::prelude::*;

verus! {

impl<ID: Eq + Hash + Copy, Data: Default> Graph<ID, Data> {
    /// Whether every recorded edge is recorded in the other direction too.
    pub fn is_undirected(&self) -> (undirected: bool)
        requires
            self.wf(),
        ensures
            undirected == self@.is_undirected(),
    {
        let mut i: usize = 0;
        while i < self.nodes.len()
            invariant
                i <= self.nodes.len(),
                self.wf(),
                forall|k: int, to: ID|
                    0 <= k < i && #[trigger] self@.has_edge(self.nodes@[k], to) ==> self@.has_edge(
                        to,
                        self.nodes@[k],
                    ),
            decreases self.nodes.len() - i,
        {
            let from = self.nodes[i];
            let successors = self.neighbors(from);
            let mut j: usize = 0;
            while j < successors.len()
                invariant
                    j <= successors.len(),
                    self.wf(),
                    successors@ == self@.successors(from),
                    forall|k: int| 0 <= k < j ==> self@.has_edge(#[trigger] successors@[k], from),
                decreases successors.len() - j,
            {
                let to = successors[j];
                proof {
                    assert(self@.has_edge(from, to));
                }
                match map_get(&self.edges, &to) {
                    None => {
                        return false;
                    },
                    Some(back) => {
                        if !contains_id(back, from) {
                            return false;
                        }
                    },
                }
                j += 1;
            }
            proof {
                assert forall|to: ID| #[trigger] self@.has_edge(from, to) implies self@.has_edge(
                    to,
                    from,
                ) by {
                    let k = choose|k: int| 0 <= k < successors@.len() && successors@[k] == to;
                    assert(self@.has_edge(successors@[k], from));
                }
            }
            i += 1;
        }
        proof {
            assert forall|from: ID, to: ID| #[trigger] self@.has_edge(from, to) implies self@.has_edge(
                to,
                from,
            ) by {
                assert(self@.succ.contains_key(from));
                assert(self@.has_node(from));
                let k = choose|k: int| 0 <= k < self.nodes@.len() && self.nodes@[k] == from;
                assert(self@.has_edge(self.nodes@[k], to));
            }
        }
        true
    }

    /// Whether the graph is directed and acyclic: not undirected, and no node
    /// is reached again from itself. A graph without edges is undirected, and
    /// so is never classified as directed and acyclic.
    pub fn is_directed_acyclic(&self) -> (acyclic: bool)
        requires
            self.wf(),
        ensures
            acyclic == self@.is_directed_acyclic(),
    {
        if self.is_undirected() {
            return false;
        }
        let mut i: usize = 0;
        while i < self.nodes.len()
            invariant
                i <= self.nodes.len(),
                self.wf(),
                !self@.is_undirected(),
                forall|k: int| 0 <= k < i ==> !self@.on_cycle(#[trigger] self.nodes@[k]),
            decreases self.nodes.len() - i,
        {
            if self.is_part_of_a_cycle(self.nodes[i]) {
                return false;
            }
            i += 1;
        }
        true
    }

    /// Whether a breadth-first expansion from `origin` along the forward
    /// adjacency comes back to `origin` within as many hops as there are nodes.
    pub fn is_part_of_a_cycle(&self, origin: ID) -> (cyclic: bool)
        requires
            self.wf(),
        ensures
            cyclic == self@.on_cycle(origin),
    {
        let mut depth: usize = 0;
        let mut current_layer = self.neighbors(origin);
        while depth < self.nodes.len()
            invariant
                depth <= self.nodes.len(),
                self.wf(),
                current_layer@ == self@.frontier(origin, depth as nat),
                forall|hops: nat|
                    hops < depth ==> !(#[trigger] self@.frontier(origin, hops)).contains(origin),
            decreases self.nodes.len() - depth,
        {
            let mut next_layer: Vec<ID> = Vec::new();
            let mut k: usize = 0;
            while k < current_layer.len()
                invariant
                    k <= current_layer.len(),
                    depth < self.nodes.len(),
                    self.wf(),
                    current_layer@ == self@.frontier(origin, depth as nat),
                    next_layer@ == self@.expand(current_layer@.take(k as int)),
                    forall|j: int| 0 <= j < k ==> current_layer@[j] != origin,
                decreases current_layer.len() - k,
            {
                let node = current_layer[k];
                proof {
                    reveal(vstd::laws_eq::obeys_concrete_eq);
                }
                if node == origin {
                    proof {
                        assert(self@.frontier(origin, depth as nat).contains(origin));
                    }
                    return true;
                } else {
                    let mut successors = self.neighbors(node);
                    next_layer.append(&mut successors);
                }
                proof {
                    assert(current_layer@.take(k + 1).drop_last() =~= current_layer@.take(k as int));
                }
                k += 1;
            }
            proof {
                assert(current_layer@.take(k as int) =~= current_layer@);
            }
            depth += 1;
            current_layer = next_layer;
        }
        proof {
            assert(forall|hops: nat|
                hops < self.nodes@.len() ==> !(#[trigger] self@.frontier(origin, hops)).contains(
                    origin,
                ));
        }
        false
    }
}

} // verus!
