//! Facts about walks: how they relate to the breadth-first frontiers, and why
//! a graph that passes the acyclicity test has none that comes back to a node.

use crate::model::Topology;
use vstd::prelude::*;

verus! {

impl<ID> Topology<ID> {
    /// The expansion of a layer holds every successor of every node of the layer.
    pub proof fn lemma_expand_contains(self, layer: Seq<ID>, node: ID, next: ID)
        requires
            layer.contains(node),
            self.has_edge(node, next),
        ensures
            self.expand(layer).contains(next),
        decreases layer.len(),
    {
        let i = choose|i: int| 0 <= i < layer.len() && layer[i] == node;
        let head = self.expand(layer.drop_last());
        let tail = self.successors(layer.last());
        if i == layer.len() - 1 {
            let j = choose|j: int| 0 <= j < tail.len() && tail[j] == next;
            assert((head + tail)[head.len() + j] == next);
        } else {
            assert(layer.drop_last()[i] == node);
            self.lemma_expand_contains(layer.drop_last(), node, next);
            let j = choose|j: int| 0 <= j < head.len() && head[j] == next;
            assert((head + tail)[j] == next);
        }
    }

    /// The end of a walk with `k + 1` edges stands in the frontier that the
    /// expansion from its first node reaches after `k` further hops.
    pub proof fn lemma_walk_in_frontier(self, walk: Seq<ID>)
        requires
            self.is_walk(walk),
            walk.len() >= 2,
        ensures
            self.frontier(walk[0], (walk.len() - 2) as nat).contains(walk.last()),
        decreases walk.len(),
    {
        if walk.len() == 2 {
            assert(self.is_step(walk, 0));
        } else {
            let shorter = walk.drop_last();
            assert(self.is_walk(shorter)) by {
                assert forall|i: int| 0 <= i < shorter.len() - 1 implies #[trigger] self.is_step(
                    shorter,
                    i,
                ) by {
                    assert(self.is_step(walk, i));
                }
            }
            self.lemma_walk_in_frontier(shorter);
            let before = walk.len() - 2;
            assert(self.is_step(walk, before));
            self.lemma_expand_contains(
                self.frontier(walk[0], (walk.len() - 3) as nat),
                shorter.last(),
                walk.last(),
            );
        }
    }

    /// A piece of a walk is a walk.
    pub proof fn lemma_subwalk(self, walk: Seq<ID>, from: int, to: int)
        requires
            self.is_walk(walk),
            0 <= from <= to < walk.len(),
        ensures
            self.is_walk(walk.subrange(from, to + 1)),
    {
        let piece = walk.subrange(from, to + 1);
        assert forall|i: int| 0 <= i < piece.len() - 1 implies #[trigger] self.is_step(piece, i) by {
            assert(self.is_step(walk, from + i));
        }
    }

    /// Every node of a walk with an edge, and every node of a walk that ends
    /// in a known node, is a known node.
    pub proof fn lemma_walk_nodes(self, walk: Seq<ID>, i: int)
        requires
            self.wf(),
            self.is_walk(walk),
            self.has_node(walk.last()),
            0 <= i < walk.len(),
        ensures
            self.has_node(walk[i]),
    {
        if i < walk.len() - 1 {
            assert(self.is_step(walk, i));
            assert(self.succ.contains_key(walk[i]));
        }
    }

    /// More items than there are nodes, all of them nodes: one comes twice.
    pub proof fn lemma_pigeonhole(self, items: Seq<ID>)
        requires
            self.nodes.no_duplicates(),
            forall|i: int| 0 <= i < items.len() ==> self.has_node(#[trigger] items[i]),
            items.len() > self.nodes.len(),
        ensures
            !items.no_duplicates(),
    {
        if items.no_duplicates() {
            items.unique_seq_to_set();
            self.nodes.unique_seq_to_set();
            assert(items.to_set().subset_of(self.nodes.to_set())) by {
                assert forall|x: ID| items.to_set().contains(x) implies self.nodes.to_set().contains(
                    x,
                ) by {
                    let i = choose|i: int| 0 <= i < items.len() && items[i] == x;
                    assert(self.has_node(items[i]));
                }
            }
            vstd::set_lib::lemma_len_subset(items.to_set(), self.nodes.to_set());
        }
    }

    /// A node of the expansion of a layer is a successor of a node of the layer.
    pub proof fn lemma_expand_source(self, layer: Seq<ID>, next: ID) -> (node: ID)
        requires
            self.expand(layer).contains(next),
        ensures
            layer.contains(node),
            self.has_edge(node, next),
        decreases layer.len(),
    {
        let whole = self.expand(layer);
        let i = choose|i: int| 0 <= i < whole.len() && whole[i] == next;
        assert(layer.len() > 0);
        let head = self.expand(layer.drop_last());
        let tail = self.successors(layer.last());
        if i < head.len() {
            assert(head[i] == next);
            let node = self.lemma_expand_source(layer.drop_last(), next);
            let k = choose|k: int| 0 <= k < layer.drop_last().len() && layer.drop_last()[k] == node;
            assert(layer[k] == node);
            node
        } else {
            assert(tail[i - head.len()] == next);
            assert(layer[layer.len() - 1] == layer.last());
            layer.last()
        }
    }

    /// A node of a frontier is the end of a walk from the origin, with one
    /// edge more than the frontier has hops.
    pub proof fn lemma_frontier_walk(self, origin: ID, hops: nat, end: ID) -> (walk: Seq<ID>)
        requires
            self.frontier(origin, hops).contains(end),
        ensures
            self.is_walk(walk),
            walk.len() == hops + 2,
            walk[0] == origin,
            walk.last() == end,
        decreases hops,
    {
        if hops == 0 {
            let walk = seq![origin, end];
            assert forall|i: int| 0 <= i < walk.len() - 1 implies #[trigger] self.is_step(walk, i) by {
                assert(walk[0] == origin && walk[1] == end);
            }
            walk
        } else {
            let before = self.lemma_expand_source(self.frontier(origin, (hops - 1) as nat), end);
            let shorter = self.lemma_frontier_walk(origin, (hops - 1) as nat, before);
            let walk = shorter.push(end);
            assert forall|i: int| 0 <= i < walk.len() - 1 implies #[trigger] self.is_step(walk, i) by {
                if i < shorter.len() - 1 {
                    assert(self.is_step(shorter, i));
                }
            }
            walk
        }
    }

    /// A walk stays a walk when the piece between two visits of one node is cut out.
    pub proof fn lemma_cut_walk(self, walk: Seq<ID>, i: int, j: int)
        requires
            self.is_walk(walk),
            0 <= i < j < walk.len() - 1,
            walk[i] == walk[j],
        ensures
            self.is_walk(walk.subrange(0, i + 1) + walk.subrange(j + 1, walk.len() as int)),
    {
        let cut = walk.subrange(0, i + 1) + walk.subrange(j + 1, walk.len() as int);
        assert forall|k: int| 0 <= k < cut.len() - 1 implies #[trigger] self.is_step(cut, k) by {
            if k < i {
                assert(self.is_step(walk, k));
            } else if k == i {
                assert(self.is_step(walk, j));
            } else {
                assert(self.is_step(walk, k + (j - i)));
            }
        }
    }

    /// The search from a node finds every way back to it: a node from which
    /// a walk with an edge leads back to itself is on a cycle, however long
    /// the walk is.
    pub proof fn law_cycle_is_found(self, walk: Seq<ID>)
        requires
            self.wf(),
            self.is_walk(walk),
            walk.len() >= 2,
            walk[0] == walk.last(),
        ensures
            self.has_node(walk[0]),
            self.on_cycle(walk[0]),
        decreases walk.len(),
    {
        assert(self.is_step(walk, 0));
        assert(self.succ.contains_key(walk[0]));
        if walk.len() - 2 < self.nodes.len() {
            self.lemma_walk_in_frontier(walk);
            let hops = (walk.len() - 2) as nat;
            assert(self.frontier(walk[0], hops).contains(walk[0]));
        } else {
            let items = walk.drop_last();
            assert forall|i: int| 0 <= i < items.len() implies self.has_node(#[trigger] items[i]) by {
                self.lemma_walk_nodes(walk, i);
            }
            self.lemma_pigeonhole(items);
            let (i, j) = choose|i: int, j: int|
                0 <= i < items.len() && 0 <= j < items.len() && i != j && items[i] == items[j];
            let (lo, hi) = if i < j {
                (i, j)
            } else {
                (j, i)
            };
            let cut = walk.subrange(0, lo + 1) + walk.subrange(hi + 1, walk.len() as int);
            self.lemma_cut_walk(walk, lo, hi);
            assert(cut[0] == walk[0]);
            assert(cut.last() == walk.last());
            self.law_cycle_is_found(cut);
        }
    }

    /// The search reports no cycle that is not there: from a node on a cycle
    /// a walk with an edge leads back to the node.
    pub proof fn law_found_cycle_is_there(self, origin: ID) -> (walk: Seq<ID>)
        requires
            self.on_cycle(origin),
        ensures
            self.is_walk(walk),
            walk.len() >= 2,
            walk[0] == origin,
            walk.last() == origin,
    {
        let hops = choose|hops: nat|
            hops < self.nodes.len() && #[trigger] self.frontier(origin, hops).contains(origin);
        self.lemma_frontier_walk(origin, hops, origin)
    }

    /// Where no node is on a cycle, no walk with an edge ends where it began,
    /// however long it is.
    pub proof fn lemma_no_closed_walk(self, walk: Seq<ID>)
        requires
            self.wf(),
            self.no_node_on_cycle(),
            self.is_walk(walk),
            walk.len() >= 2,
        ensures
            walk[0] != walk.last(),
    {
        if walk[0] == walk.last() {
            self.law_cycle_is_found(walk);
            let i = choose|i: int| 0 <= i < self.nodes.len() && self.nodes[i] == walk[0];
            assert(!self.on_cycle(self.nodes[i]));
        }
    }

    /// Where no node is on a cycle, a walk passes no node twice.
    pub proof fn lemma_walk_is_simple(self, walk: Seq<ID>)
        requires
            self.wf(),
            self.no_node_on_cycle(),
            self.is_walk(walk),
        ensures
            walk.no_duplicates(),
    {
        assert forall|i: int, j: int| 0 <= i < walk.len() && 0 <= j < walk.len() && i < j implies walk[i]
            != walk[j] by {
            let piece = walk.subrange(i, j + 1);
            self.lemma_subwalk(walk, i, j);
            assert(piece[0] == walk[i]);
            assert(piece.last() == walk[j]);
            self.lemma_no_closed_walk(piece);
        }
    }

    /// Where no node is on a cycle, a walk that ends in a known node has at
    /// most as many nodes as the graph.
    pub proof fn lemma_walk_is_short(self, walk: Seq<ID>)
        requires
            self.wf(),
            self.no_node_on_cycle(),
            self.is_walk(walk),
            self.has_node(walk.last()),
        ensures
            walk.len() <= self.nodes.len(),
    {
        if walk.len() > self.nodes.len() {
            assert forall|i: int| 0 <= i < walk.len() implies self.has_node(#[trigger] walk[i]) by {
                self.lemma_walk_nodes(walk, i);
            }
            self.lemma_pigeonhole(walk);
            self.lemma_walk_is_simple(walk);
        }
    }
}

} // verus!
