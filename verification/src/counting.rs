//! Why the recursive count is the number of paths: in a graph without
//! cycles it is the size of the set of walks between the two nodes.

use crate::model::Topology;
use vstd::prelude::*;

verus! {

impl<ID> Topology<ID> {
    /// A walk with one more edge at its end is a walk.
    pub proof fn lemma_walk_extends(self, walk: Seq<ID>, next: ID)
        requires
            self.is_walk(walk),
            self.has_edge(walk.last(), next),
        ensures
            self.is_walk(walk.push(next)),
    {
        let longer = walk.push(next);
        assert forall|i: int| 0 <= i < longer.len() - 1 implies #[trigger] self.is_step(longer, i) by {
            if i < walk.len() - 1 {
                assert(self.is_step(walk, i));
            }
        }
    }

    /// A walk with an edge, without its last node, is a walk to the node
    /// before the last, and an edge leads from there to the last.
    pub proof fn lemma_walk_shortens(self, walk: Seq<ID>)
        requires
            self.is_walk(walk),
            walk.len() >= 2,
        ensures
            self.is_walk(walk.drop_last()),
            self.has_edge(walk[walk.len() - 2], walk.last()),
            walk.drop_last().push(walk.last()) == walk,
    {
        self.lemma_subwalk(walk, 0, walk.len() - 2);
        assert(walk.subrange(0, walk.len() - 1) =~= walk.drop_last());
        assert(self.is_step(walk, walk.len() - 2));
        assert(walk.drop_last().push(walk.last()) =~= walk);
    }

    /// In a graph without cycles, the walks from `start` to `end` whose last
    /// edge comes from one of the first `k` predecessors of `end` are as many
    /// as the counts for these predecessors add up to.
    pub proof fn lemma_walks_through_counted(
        self,
        start: ID,
        end: ID,
        trail: Seq<ID>,
        k: int,
    )
        requires
            self.wf(),
            self.no_node_on_cycle(),
            self.is_walk(trail),
            trail[0] == end,
            self.has_node(trail.last()),
            trail.len() <= self.nodes.len(),
            0 <= k <= self.predecessors(end).len(),
        ensures
            self.walks_through(start, end, self.predecessors(end).take(k)).finite(),
            self.walks_through(start, end, self.predecessors(end).take(k)).len()
                == self.sum_walks(
                start,
                self.predecessors(end).take(k),
                (self.nodes.len() - trail.len()) as nat,
            ),
        decreases self.nodes.len() + 1 - trail.len(), 0nat, k,
    {
        let sources = self.predecessors(end);
        let budget = (self.nodes.len() - trail.len()) as nat;
        let now = self.walks_through(start, end, sources.take(k));
        if k == 0 {
            assert(now =~= Set::<Seq<ID>>::empty());
        } else {
            let source = sources[k - 1];
            let before = self.walks_through(start, end, sources.take(k - 1));
            self.lemma_walks_through_counted(start, end, trail, k - 1);
            self.lemma_sum_walks_step(start, sources, budget, k - 1);
            assert(sources.contains(source));
            self.lemma_walk_extends_back(trail, source);
            let longer = seq![source] + trail;
            assert(longer.last() == trail.last());
            self.lemma_walks_counted(start, source, longer);
            let to_source = self.walks_between(start, source);
            let extend = |walk: Seq<ID>| walk.push(end);
            let added = to_source.map(extend);
            assert(self.has_mirrored_edge(source, end));
            assert(self.has_edge(source, end));
            assert(vstd::relations::injective_on(extend, to_source)) by {
                assert forall|a: Seq<ID>, b: Seq<ID>|
                    to_source.contains(a) && to_source.contains(b) && #[trigger] extend(a)
                        == #[trigger] extend(b) implies a == b by {
                    assert(a.push(end).drop_last() =~= a);
                    assert(b.push(end).drop_last() =~= b);
                }
            }
            vstd::set_lib::lemma_map_size(to_source, added, extend);
            assert(sources.take(k).drop_last() =~= sources.take(k - 1));
            assert(sources.take(k).last() == source);
            assert(now =~= before + added) by {
                assert forall|walk: Seq<ID>| now.contains(walk) implies (before + added).contains(
                    walk,
                ) by {
                    let via = walk[walk.len() - 2];
                    Self::lemma_push_contains(sources.take(k - 1), source, via);
                    assert(sources.take(k - 1).push(source) =~= sources.take(k));
                    if via == source {
                        self.lemma_walk_shortens(walk);
                        let shorter = walk.drop_last();
                        assert(to_source.contains(shorter));
                        assert(extend(shorter) == walk);
                    }
                }
                assert forall|walk: Seq<ID>| (before + added).contains(walk) implies now.contains(
                    walk,
                ) by {
                    if before.contains(walk) {
                        let via = walk[walk.len() - 2];
                        Self::lemma_push_contains(sources.take(k - 1), source, via);
                        assert(sources.take(k - 1).push(source) =~= sources.take(k));
                    } else {
                        let shorter = choose|shorter: Seq<ID>|
                            to_source.contains(shorter) && extend(shorter) == walk;
                        self.lemma_walk_extends(shorter, end);
                        assert(walk[walk.len() - 2] == source);
                        assert(sources.take(k)[k - 1] == source);
                    }
                }
            }
            assert(before.disjoint(added)) by {
                assert forall|walk: Seq<ID>| before.contains(walk) implies !added.contains(walk) by {
                    if added.contains(walk) {
                        let shorter = choose|shorter: Seq<ID>|
                            to_source.contains(shorter) && extend(shorter) == walk;
                        assert(walk[walk.len() - 2] == source);
                        let firsts = sources.take(k - 1);
                        assert(firsts.contains(source));
                        let i = choose|i: int| 0 <= i < firsts.len() && firsts[i] == source;
                        assert(sources[i] == sources[k - 1]);
                        assert(sources.no_duplicates());
                    }
                }
            }
            vstd::set_lib::lemma_set_disjoint_lens(before, added);
        }
    }

    /// In a graph without cycles, the walks from `start` to `end` are as
    /// many as the count says, where `trail` is a walk that leads on from `end`.
    pub proof fn lemma_walks_counted(self, start: ID, end: ID, trail: Seq<ID>)
        requires
            self.wf(),
            self.no_node_on_cycle(),
            self.is_walk(trail),
            trail[0] == end,
            self.has_node(trail.last()),
        ensures
            self.walks_between(start, end).finite(),
            self.walks_between(start, end).len() == self.count_walks(
                start,
                end,
                (self.nodes.len() + 1 - trail.len()) as nat,
            ),
        decreases self.nodes.len() + 1 - trail.len(), 1nat, 0nat,
    {
        self.lemma_walk_is_short(trail);
        let all = self.walks_between(start, end);
        if start == end {
            let only = seq![start];
            assert(self.is_walk(only));
            assert(all =~= set![only]) by {
                assert forall|walk: Seq<ID>| all.contains(walk) implies walk == only by {
                    if walk.len() >= 2 {
                        self.lemma_no_closed_walk(walk);
                    }
                    assert(walk =~= only);
                }
            }
            assert(set![only].len() == 1) by {
                broadcast use vstd::set::group_set_axioms;

            }
        } else {
            let sources = self.predecessors(end);
            self.lemma_walks_through_counted(start, end, trail, sources.len() as int);
            assert(sources.take(sources.len() as int) =~= sources);
            assert(all =~= self.walks_through(start, end, sources)) by {
                assert forall|walk: Seq<ID>| all.contains(walk) implies self.walks_through(
                    start,
                    end,
                    sources,
                ).contains(walk) by {
                    self.lemma_walk_shortens(walk);
                    assert(self.has_mirrored_edge(walk[walk.len() - 2], end));
                }
            }
        }
    }

    /// In a graph without cycles the count of paths from `start` to a node
    /// `end` is the number of walks that lead from `start` to `end`. None of
    /// them passes a node twice.
    pub proof fn law_count_paths_counts_walks(self, start: ID, end: ID)
        requires
            self.wf(),
            self.no_node_on_cycle(),
            self.has_node(end),
        ensures
            self.walks_between(start, end).finite(),
            self.walks_between(start, end).len() == self.count_paths(start, end),
            forall|walk: Seq<ID>| #[trigger]
                self.walks_between(start, end).contains(walk) ==> walk.no_duplicates(),
    {
        let trail = seq![end];
        assert(self.is_walk(trail));
        self.lemma_walks_counted(start, end, trail);
        assert forall|walk: Seq<ID>| #[trigger]
            self.walks_between(start, end).contains(walk) implies walk.no_duplicates() by {
            self.lemma_walk_is_simple(walk);
        }
    }
}

} // verus!
