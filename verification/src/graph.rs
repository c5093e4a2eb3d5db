//! The node and edge store.

use crate::error::GraphError;
use crate::hashing::map_contains;
use crate::hashing::map_get;
use crate::hashing::map_insert;
use crate::hashing::map_remove;
use crate::model::Topology;
use core::hash::Hash;
use fnv::FnvHashMap;
use vstd::laws_eq::obeys_concrete_eq;
use vstd::prelude::*;
use vstd::std_specs::hash::obeys_key_model;

verus! {

/// A graph with nodes named by `ID` and a payload of type `Data` per node.
#[derive(Debug, Clone, PartialEq, Eq)]
pub struct Graph<ID, Data> where ID: Eq + Hash + Copy {
    /// Payload of every known node.
    pub node_data: FnvHashMap<ID, Data>,
    /// Successors of every known node, in insertion order.
    pub edges: FnvHashMap<ID, Vec<ID>>,
    /// Predecessors of every known node, in insertion order.
    pub reverse_edges: FnvHashMap<ID, Vec<ID>>,
    /// Every known node, in insertion order.
    pub nodes: Vec<ID>,
}

/// What identifiers must offer: hashing and `==` that agree with equality of values.
pub open spec fn lawful_ids<ID: Eq + Hash>() -> bool {
    obeys_key_model::<ID>() && obeys_concrete_eq::<ID>()
}

/// An adjacency map with each list taken as a sequence.
pub open spec fn lists_of<ID>(m: Map<ID, Vec<ID>>) -> Map<ID, Seq<ID>> {
    Map::new(|id: ID| m.contains_key(id), |id: ID| m[id]@)
}

/// `after` keeps every payload of `before`, and each node it has beyond those
/// of `before` carries a zero value of the payload type.
pub open spec fn grown_with_defaults<ID, Data: Default>(
    before: Map<ID, Data>,
    after: Map<ID, Data>,
) -> bool {
    &&& forall|id: ID| #[trigger]
        before.contains_key(id) ==> after.contains_key(id) && after[id] == before[id]
    &&& forall|id: ID| #[trigger]
        after.contains_key(id) && !before.contains_key(id) ==> call_ensures(
            Data::default,
            (),
            after[id],
        )
}

impl<ID: Eq + Hash + Copy, Data> View for Graph<ID, Data> {
    type V = Topology<ID>;

    open spec fn view(&self) -> Topology<ID> {
        Topology {
            nodes: self.nodes@,
            succ: lists_of(self.edges@),
            pred: lists_of(self.reverse_edges@),
        }
    }
}

/// Whether `list` holds `id`.
pub(crate) fn contains_id<ID: Eq + Copy>(list: &Vec<ID>, id: ID) -> (found: bool)
    requires
        obeys_concrete_eq::<ID>(),
    ensures
        found == list@.contains(id),
{
    proof {
        reveal(obeys_concrete_eq);
    }
    let mut i: usize = 0;
    while i < list.len()
        invariant
            i <= list.len(),
            obeys_concrete_eq::<ID>(),
            forall|j: int| 0 <= j < i ==> list@[j] != id,
        decreases list.len() - i,
    {
        proof {
            reveal(obeys_concrete_eq);
        }
        if list[i] == id {
            return true;
        }
        i += 1;
    }
    false
}

/// A copy of `list`.
pub(crate) fn copy_ids<ID: Copy>(list: &Vec<ID>) -> (copy: Vec<ID>)
    ensures
        copy@ == list@,
{
    let mut copy: Vec<ID> = Vec::new();
    let mut i: usize = 0;
    while i < list.len()
        invariant
            i <= list.len(),
            copy@ == list@.take(i as int),
        decreases list.len() - i,
    {
        copy.push(list[i]);
        i += 1;
    }
    copy
}

/// Appends `item` to the list stored under `key`, starting a list if there is none.
fn push_to_list<ID: Eq + Hash + Copy>(m: &mut FnvHashMap<ID, Vec<ID>>, key: ID, item: ID)
    requires
        obeys_key_model::<ID>(),
    ensures
        lists_of(final(m)@) == lists_of(old(m)@).insert(
            key,
            (if old(m)@.contains_key(key) {
                old(m)@[key]@
            } else {
                Seq::empty()
            }).push(item),
        ),
{
    let mut list = match map_remove(m, &key) {
        Some(list) => list,
        None => Vec::new(),
    };
    list.push(item);
    map_insert(m, key, list);
    assert(lists_of(m@) =~= lists_of(old(m)@).insert(
        key,
        (if old(m)@.contains_key(key) {
            old(m)@[key]@
        } else {
            Seq::empty()
        }).push(item),
    ));
}

impl<ID: Eq + Hash + Copy, Data: Default> Graph<ID, Data> {
    /// The payload of every known node.
    pub open spec fn payloads(&self) -> Map<ID, Data> {
        self.node_data@
    }

    /// The invariant that every operation keeps: the structure is well formed,
    /// exactly the listed nodes have a payload, and identifiers are lawful.
    pub open spec fn wf(&self) -> bool {
        &&& lawful_ids::<ID>()
        &&& self@.wf()
        &&& forall|id: ID| #[trigger] self.node_data@.contains_key(id) <==> self@.has_node(id)
    }

    /// Creates a graph without nodes.
    pub fn new() -> (g: Self)
        ensures
            g@ == Topology::<ID>::empty(),
            lawful_ids::<ID>() ==> g.wf(),
            g.payloads() == Map::<ID, Data>::empty(),
    {
        let g = Graph {
            node_data: FnvHashMap::default(),
            edges: FnvHashMap::default(),
            reverse_edges: FnvHashMap::default(),
            nodes: Vec::new(),
        };
        assert(lists_of(g.edges@) =~= Map::<ID, Seq<ID>>::empty());
        assert(lists_of(g.reverse_edges@) =~= Map::<ID, Seq<ID>>::empty());
        g
    }

    /// Adds the node `id` with the payload `data`. A known `id` is reported as
    /// `DuplicateNode` and nothing changes, its payload included.
    pub fn add_node_with_data(&mut self, id: ID, data: Data) -> (result: Result<(), GraphError>)
        requires
            old(self).wf(),
        ensures
            final(self).wf(),
            final(self)@ == old(self)@.add_node(id),
            old(self)@.has_node(id) ==> result == Err::<(), GraphError>(GraphError::DuplicateNode)
                && *final(self) == *old(self),
            !old(self)@.has_node(id) ==> result == Ok::<(), GraphError>(())
                && final(self).payloads() == old(self).payloads().insert(id, data),
    {
        if map_contains(&self.node_data, &id) {
            return Err(GraphError::DuplicateNode);
        }
        self.nodes.push(id);
        map_insert(&mut self.edges, id, Vec::new());
        map_insert(&mut self.reverse_edges, id, Vec::new());
        map_insert(&mut self.node_data, id, data);
        proof {
            assert(lists_of(self.edges@) =~= lists_of(old(self).edges@).insert(id, Seq::empty()));
            assert(lists_of(self.reverse_edges@) =~= lists_of(old(self).reverse_edges@).insert(
                id,
                Seq::empty(),
            ));
            old(self)@.lemma_add_node_wf(id);
            assert forall|x: ID| #[trigger] self.node_data@.contains_key(x) <==> self@.has_node(
                x,
            ) by {
                if x != id {
                    assert(old(self).node_data@.contains_key(x) <==> old(self)@.has_node(x));
                }
                Topology::lemma_push_contains(old(self).nodes@, id, x);
            }
        }
        Ok(())
    }

    /// Builds a graph from directed edges, added in the order given.
    pub fn from_edges(edges: &[(ID, ID)]) -> (g: Self)
        requires
            lawful_ids::<ID>(),
        ensures
            g.wf(),
            g@ == Topology::<ID>::empty().add_directed_edges(edges@),
            grown_with_defaults(Map::<ID, Data>::empty(), g.payloads()),
    {
        let mut graph = Self::new();
        let mut i: usize = 0;
        while i < edges.len()
            invariant
                i <= edges.len(),
                graph.wf(),
                graph@ == Topology::<ID>::empty().add_directed_edges(edges@.take(i as int)),
                grown_with_defaults(Map::<ID, Data>::empty(), graph.payloads()),
            decreases edges.len() - i,
        {
            let (from, to) = edges[i];
            graph.add_directed_edge(from, to);
            proof {
                assert(edges@.take(i + 1).drop_last() =~= edges@.take(i as int));
            }
            i += 1;
        }
        proof {
            assert(edges@.take(i as int) =~= edges@);
        }
        graph
    }

    /// Adds the node `id` with a zero value as payload. A known `id` is
    /// reported as `DuplicateNode` and nothing changes, its payload included.
    pub fn add_node(&mut self, id: ID) -> (result: Result<(), GraphError>)
        requires
            old(self).wf(),
        ensures
            final(self).wf(),
            final(self)@ == old(self)@.add_node(id),
            grown_with_defaults(old(self).payloads(), final(self).payloads()),
            old(self)@.has_node(id) ==> result == Err::<(), GraphError>(GraphError::DuplicateNode)
                && *final(self) == *old(self),
            !old(self)@.has_node(id) ==> result == Ok::<(), GraphError>(())
                && final(self).payloads() == old(self).payloads().insert(
                id,
                final(self).payloads()[id],
            ) && call_ensures(Data::default, (), final(self).payloads()[id]),
    {
        let data = Data::default();
        let result = self.add_node_with_data(id, data);
        proof {
            if !old(self)@.has_node(id) {
                assert(self.payloads() =~= old(self).payloads().insert(id, self.payloads()[id]));
            }
        }
        result
    }

    /// Adds the directed edge `from -> to`. An endpoint that is not yet a node
    /// is added first, with a zero value as payload. An edge that is already
    /// recorded is not recorded again.
    pub fn add_directed_edge(&mut self, from: ID, to: ID)
        requires
            old(self).wf(),
        ensures
            final(self).wf(),
            final(self)@ == old(self)@.add_directed_edge(from, to),
            grown_with_defaults(old(self).payloads(), final(self).payloads()),
    {
        if !map_contains(&self.node_data, &from) {
            let _ = self.add_node(from);
        }
        if !map_contains(&self.node_data, &to) {
            let _ = self.add_node(to);
        }
        let recorded = match map_get(&self.edges, &from) {
            Some(successors) => contains_id(successors, to),
            None => false,
        };
        if !recorded {
            push_to_list(&mut self.edges, from, to);
            push_to_list(&mut self.reverse_edges, to, from);
        }
        proof {
            old(self)@.lemma_add_directed_edge_wf(from, to);
        }
    }

    /// Adds the undirected edge between `from` and `to`: the directed edge
    /// `from -> to` and then `to -> from`. A self-loop is recorded once.
    pub fn add_edge(&mut self, from: ID, to: ID)
        requires
            old(self).wf(),
        ensures
            final(self).wf(),
            final(self)@ == old(self)@.add_edge(from, to),
            grown_with_defaults(old(self).payloads(), final(self).payloads()),
    {
        self.add_directed_edge(from, to);
        self.add_directed_edge(to, from);
    }

    /// The successors of `id` in insertion order; none if `id` is unknown.
    pub fn neighbors(&self, id: ID) -> (list: Vec<ID>)
        requires
            self.wf(),
        ensures
            list@ == self@.successors(id),
    {
        match map_get(&self.edges, &id) {
            Some(successors) => copy_ids(successors),
            None => Vec::new(),
        }
    }

    /// The successors of `id` followed by `id` itself.
    pub fn neighborhood(&self, id: ID) -> (list: Vec<ID>)
        requires
            self.wf(),
        ensures
            list@ == self@.successors(id).push(id),
    {
        let mut neighborhood = self.neighbors(id);
        neighborhood.push(id);
        neighborhood
    }

    /// The predecessors of `id` in insertion order; none if `id` is unknown.
    pub fn reverse_neighbors(&self, id: ID) -> (list: Vec<ID>)
        requires
            self.wf(),
        ensures
            list@ == self@.predecessors(id),
    {
        match map_get(&self.reverse_edges, &id) {
            Some(predecessors) => copy_ids(predecessors),
            None => Vec::new(),
        }
    }

    /// Every recorded edge as a pair `(from, to)`, each once, in no promised order.
    pub fn edge_tuples(&self) -> (pairs: Vec<(ID, ID)>)
        requires
            self.wf(),
        ensures
            pairs@.no_duplicates(),
            pairs@.to_set() == self@.edge_set(),
    {
        let mut pairs: Vec<(ID, ID)> = Vec::new();
        let mut i: usize = 0;
        while i < self.nodes.len()
            invariant
                i <= self.nodes.len(),
                self.wf(),
                pairs@.no_duplicates(),
                forall|e: (ID, ID)| #[trigger]
                    pairs@.contains(e) <==> self.nodes@.take(i as int).contains(e.0)
                        && self@.has_edge(e.0, e.1),
            decreases self.nodes.len() - i,
        {
            let from = self.nodes[i];
            let successors = self.neighbors(from);
            let mut j: usize = 0;
            proof {
                assert(!self.nodes@.take(i as int).contains(from)) by {
                    if self.nodes@.take(i as int).contains(from) {
                        let k = choose|k: int|
                            0 <= k < i && self.nodes@.take(i as int)[k] == from;
                        assert(self.nodes@[k] == self.nodes@[i as int]);
                    }
                }
                assert(self@.successors(from).no_duplicates());
            }
            while j < successors.len()
                invariant
                    j <= successors.len(),
                    i < self.nodes.len(),
                    from == self.nodes@[i as int],
                    successors@ == self@.successors(from),
                    successors@.no_duplicates(),
                    !self.nodes@.take(i as int).contains(from),
                    pairs@.no_duplicates(),
                    forall|e: (ID, ID)| #[trigger]
                        pairs@.contains(e) <==> (self.nodes@.take(i as int).contains(e.0)
                            && self@.has_edge(e.0, e.1)) || (e.0 == from && successors@.take(
                            j as int,
                        ).contains(e.1)),
                decreases successors.len() - j,
            {
                let to = successors[j];
                proof {
                    let ghost before = pairs@;
                    assert(!successors@.take(j as int).contains(to)) by {
                        if successors@.take(j as int).contains(to) {
                            let k = choose|k: int|
                                0 <= k < j && successors@.take(j as int)[k] == to;
                            assert(successors@[k] == successors@[j as int]);
                        }
                    }
                    assert(!before.contains((from, to)));
                    Topology::lemma_push_no_duplicates(before, (from, to));
                    assert(successors@.take(j + 1) =~= successors@.take(j as int).push(to));
                    assert forall|e: (ID, ID)| #[trigger]
                        before.push((from, to)).contains(e) <==> (self.nodes@.take(
                            i as int,
                        ).contains(e.0) && self@.has_edge(e.0, e.1)) || (e.0 == from
                            && successors@.take(j + 1).contains(e.1)) by {
                        Topology::lemma_push_contains(before, (from, to), e);
                        Topology::lemma_push_contains(successors@.take(j as int), to, e.1);
                    }
                }
                pairs.push((from, to));
                j += 1;
            }
            proof {
                assert(successors@.take(j as int) =~= successors@);
                assert(self.nodes@.take(i + 1) =~= self.nodes@.take(i as int).push(from));
                assert forall|e: (ID, ID)| #[trigger]
                    pairs@.contains(e) <==> self.nodes@.take(i + 1).contains(e.0)
                        && self@.has_edge(e.0, e.1) by {
                    Topology::lemma_push_contains(self.nodes@.take(i as int), from, e.0);
                }
            }
            i += 1;
        }
        proof {
            assert(self.nodes@.take(i as int) =~= self.nodes@);
            assert forall|e: (ID, ID)| pairs@.contains(e) <==> self@.has_edge(e.0, e.1) by {
                if self@.has_edge(e.0, e.1) {
                    assert(self@.succ.contains_key(e.0));
                }
            }
            assert(pairs@.to_set() =~= self@.edge_set());
        }
        pairs
    }
}

impl<ID: Eq + Hash + Copy, Data: Default> Default for Graph<ID, Data> {
    /// A graph without nodes.
    fn default() -> (g: Self)
        ensures
            g@ == Topology::<ID>::empty(),
            lawful_ids::<ID>() ==> g.wf(),
            g.payloads() == Map::<ID, Data>::empty(),
    {
        Self::new()
    }
}

} // verus!
