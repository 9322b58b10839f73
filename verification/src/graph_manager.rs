//! The graph store: an undirected graph built once from edge-list lines,
//! with external node IDs mapped to dense indices in first-seen order.

use crate::clustering::clustering_of;
use crate::edge_list::{edge_of, parse_edge};
use crate::error::AnalysisError;
use crate::graph_model::{
    graph_edges, graph_node_count, link_count, empty_graph, neighbors_of, node_total, push_edge,
    push_node,
};
use crate::paths::{hop_distance, reach_set};
use petgraph::graph::UnGraph;
use std::collections::HashMap;
use vstd::prelude::*;

verus! {

broadcast use vstd::std_specs::hash::group_hash_axioms;

/// The labels after the node ID `id` was met: it is appended unless it is
/// already there.
pub open spec fn absorb(labels: Seq<usize>, id: usize) -> Seq<usize> {
    if labels.contains(id) {
        labels
    } else {
        labels.push(id)
    }
}

/// The labels after every pair of `pairs` was met in turn, the first ID of
/// a pair before the second.
pub open spec fn absorb_all(labels: Seq<usize>, pairs: Seq<(usize, usize)>) -> Seq<usize>
    decreases pairs.len(),
{
    if pairs.len() == 0 {
        labels
    } else {
        absorb(absorb(absorb_all(labels, pairs.drop_last()), pairs.last().0), pairs.last().1)
    }
}

/// The index at which `id` stands in `labels`.
pub open spec fn position(labels: Seq<usize>, id: usize) -> usize {
    labels.index_of(id) as usize
}

/// The pairs of `pairs` with each ID replaced by its index in `labels`.
pub open spec fn placed(labels: Seq<usize>, pairs: Seq<(usize, usize)>) -> Seq<(usize, usize)> {
    Seq::new(pairs.len(), |i: int| (position(labels, pairs[i].0), position(labels, pairs[i].1)))
}

/// Whether every line denotes an edge.
pub open spec fn all_parse(lines: Seq<String>) -> bool {
    forall|i: int| 0 <= i < lines.len() ==> edge_of(#[trigger] lines[i]@) is Some
}

/// The edges that the lines denote, as pairs of node IDs.
pub open spec fn pairs_of(lines: Seq<String>) -> Seq<(usize, usize)> {
    Seq::new(lines.len(), |i: int| edge_of(lines[i]@).unwrap())
}

/// In a sequence without duplicates every element stands at one index only.
pub proof fn lemma_position(labels: Seq<usize>, i: int)
    requires
        labels.no_duplicates(),
        0 <= i < labels.len(),
    ensures
        labels.index_of(labels[i]) == i,
{
}

/// Meeting an ID keeps the labels free of duplicates and moves none of them.
pub proof fn lemma_absorb(labels: Seq<usize>, id: usize)
    requires
        labels.no_duplicates(),
    ensures
        absorb(labels, id).no_duplicates(),
        absorb(labels, id).contains(id),
        labels.len() <= absorb(labels, id).len() <= labels.len() + 1,
        forall|i: int| 0 <= i < labels.len() ==> absorb(labels, id)[i] == #[trigger] labels[i],
{
    if !labels.contains(id) {
        assert(labels.push(id)[labels.len() as int] == id);
    }
}

/// Meeting pairs keeps the labels free of duplicates, adds at most two for
/// each pair and never makes them fewer than after a part of the pairs.
pub proof fn lemma_absorb_all(labels: Seq<usize>, pairs: Seq<(usize, usize)>, part: int)
    requires
        labels.no_duplicates(),
        0 <= part <= pairs.len(),
    ensures
        absorb_all(labels, pairs).no_duplicates(),
        absorb_all(labels, pairs.take(part)).len() <= absorb_all(labels, pairs).len(),
        labels.len() <= absorb_all(labels, pairs).len() <= labels.len() + 2 * pairs.len(),
    decreases pairs.len(),
{
    if pairs.len() > 0 {
        let rest = pairs.drop_last();
        if part < pairs.len() {
            lemma_absorb_all(labels, rest, part);
            assert(rest.take(part) == pairs.take(part));
        } else {
            lemma_absorb_all(labels, rest, 0);
            assert(pairs.take(part) == pairs);
        }
        let before = absorb_all(labels, rest);
        lemma_absorb(before, pairs.last().0);
        lemma_absorb(absorb(before, pairs.last().0), pairs.last().1);
    } else {
        assert(pairs.take(part) == pairs);
    }
}

/// The graph with the table that maps node IDs to node indices.
pub struct GraphManager {
    pub graph: UnGraph<(), u32>,
    node_indices: HashMap<usize, usize>,
    labels: Ghost<Seq<usize>>,
}

impl GraphManager {
    /// The node IDs in the order in which they were first met: the ID of
    /// node `i` stands at index `i`.
    pub closed spec fn labels(&self) -> Seq<usize> {
        self.labels@
    }

    /// The graph that the store holds.
    pub closed spec fn store(&self) -> UnGraph<(), u32> {
        self.graph
    }

    /// The edges, as pairs of node indices, in the order of the input.
    pub open spec fn edges(&self) -> Seq<(usize, usize)> {
        graph_edges(self.store())
    }

    /// The table holds exactly the labels, each with its index.
    pub closed spec fn table_agrees(&self) -> bool {
        &&& forall|i: int|
            0 <= i < self.labels@.len() ==> self.node_indices@.contains_key(
                #[trigger] self.labels@[i],
            ) && self.node_indices@[self.labels@[i]] == i
        &&& forall|id: usize| #[trigger]
            self.node_indices@.contains_key(id) ==> self.node_indices@[id] < self.labels@.len()
                && self.labels@[self.node_indices@[id] as int] == id
    }

    /// The store is consistent: one label per node of the graph, no label
    /// twice, every edge between nodes that exist.
    pub open spec fn wf(&self) -> bool {
        &&& self.labels().len() == graph_node_count(self.store())
        &&& self.labels().len() <= u32::MAX
        &&& self.labels().no_duplicates()
        &&& self.table_agrees()
        &&& forall|i: int|
            0 <= i < self.edges().len() ==> (#[trigger] self.edges()[i]).0 < self.labels().len()
                && self.edges()[i].1 < self.labels().len()
    }

    /// Whether the store holds exactly what the lines give when they are
    /// read into an empty store.
    pub open spec fn built_from(&self, lines: Seq<String>) -> bool {
        &&& all_parse(lines)
        &&& self.labels() == absorb_all(Seq::empty(), pairs_of(lines))
        &&& self.edges() == placed(self.labels(), pairs_of(lines))
    }

    /// A store with no node and no edge.
    pub fn new() -> (manager: Self)
        ensures
            manager.wf(),
            manager.labels() == Seq::<usize>::empty(),
            manager.edges() == Seq::<(usize, usize)>::empty(),
    {
        Self { graph: empty_graph(), node_indices: HashMap::new(), labels: Ghost(Seq::empty()) }
    }

    /// The index of the node with the ID `id`, which becomes a new node when
    /// the ID was not met before.
    fn intern(&mut self, id: usize) -> (index: usize)
        requires
            old(self).wf(),
            old(self).labels().contains(id) || old(self).labels().len() < u32::MAX,
        ensures
            final(self).wf(),
            final(self).labels() == absorb(old(self).labels(), id),
            final(self).edges() == old(self).edges(),
            index == position(final(self).labels(), id),
            index < final(self).labels().len(),
    {
        let found = match self.node_indices.get(&id) {
            Some(index) => Some(*index),
            None => None,
        };
        match found {
            Some(index) => {
                proof {
                    lemma_position(self.labels@, index as int);
                }
                index
            },
            None => {
                proof {
                    if self.labels@.contains(id) {
                        let i = choose|i: int| 0 <= i < self.labels@.len() && self.labels@[i] == id;
                        assert(self.node_indices@.contains_key(self.labels@[i]));
                    }
                    lemma_absorb(self.labels@, id);
                }
                let index = push_node(&mut self.graph);
                self.node_indices.insert(id, index);
                self.labels = Ghost(self.labels@.push(id));
                proof {
                    lemma_position(self.labels@, index as int);
                    assert forall|i: int| 0 <= i < self.labels@.len() implies {
                        &&& self.node_indices@.contains_key(#[trigger] self.labels@[i])
                        &&& self.node_indices@[self.labels@[i]] == i
                    } by {
                        if i < old(self).labels@.len() {
                            assert(old(self).labels@[i] == self.labels@[i]);
                        }
                    }
                    assert forall|key: usize| #[trigger]
                        self.node_indices@.contains_key(key) implies {
                        &&& self.node_indices@[key] < self.labels@.len()
                        &&& self.labels@[self.node_indices@[key] as int] == key
                    } by {
                        if key != id {
                            assert(old(self).node_indices@.contains_key(key));
                        }
                    }
                    assert forall|i: int| 0 <= i < self.edges().len() implies {
                        &&& (#[trigger] self.edges()[i]).0 < self.labels().len()
                        &&& self.edges()[i].1 < self.labels().len()
                    } by {
                        assert(old(self).edges()[i].0 < old(self).labels().len());
                    }
                }
                index
            },
        }
    }

    /// Adds the edges that `lines` denote, in order, creating a node for
    /// each ID when it is first met. When a line denotes no edge, nothing
    /// is added and the error names the first such line.
    pub fn build_graph(&mut self, lines: &Vec<String>) -> (r: Result<(), AnalysisError>)
        requires
            old(self).wf(),
            all_parse(lines@) ==> absorb_all(old(self).labels(), pairs_of(lines@)).len() <= u32::MAX
                && old(self).edges().len() + lines@.len() <= u32::MAX,
        ensures
            final(self).wf(),
            match r {
                Ok(()) => {
                    &&& all_parse(lines@)
                    &&& final(self).labels() == absorb_all(old(self).labels(), pairs_of(lines@))
                    &&& final(self).edges() == old(self).edges() + placed(
                        final(self).labels(),
                        pairs_of(lines@),
                    )
                },
                Err(e) => {
                    &&& *final(self) == *old(self)
                    &&& exists|bad: int|
                        {
                            &&& 0 <= bad < lines@.len()
                            &&& e == (AnalysisError::Parse { line: bad as usize })
                            &&& edge_of(#[trigger] lines@[bad]@) is None
                            &&& forall|j: int| 0 <= j < bad ==> edge_of(#[trigger] lines@[j]@) is Some
                        }
                },
            },
    {
        let mut pairs: Vec<(usize, usize)> = Vec::new();
        let mut i: usize = 0;
        while i < lines.len()
            invariant
                *self == *old(self),
                self.wf(),
                i <= lines@.len(),
                pairs@.len() == i,
                forall|j: int| 0 <= j < i ==> edge_of(#[trigger] lines@[j]@) == Some(pairs@[j]),
            decreases lines@.len() - i,
        {
            match parse_edge(lines[i].as_str()) {
                None => {
                    assert(edge_of(lines@[i as int]@) is None);
                    return Err(AnalysisError::Parse { line: i });
                },
                Some(pair) => {
                    pairs.push(pair);
                },
            }
            i += 1;
        }
        assert(pairs@ == pairs_of(lines@));
        let ghost labels0 = self.labels();
        let ghost edges0 = self.edges();
        let mut k: usize = 0;
        while k < pairs.len()
            invariant
                k <= pairs@.len(),
                labels0.no_duplicates(),
                absorb_all(labels0, pairs@).len() <= u32::MAX,
                edges0.len() + pairs@.len() <= u32::MAX,
                self.wf(),
                self.labels() == absorb_all(labels0, pairs@.take(k as int)),
                self.edges() == edges0 + placed(self.labels(), pairs@.take(k as int)),
            decreases pairs@.len() - k,
        {
            let (a, b) = pairs[k];
            let ghost before = self.labels();
            let ghost part = pairs@.take(k as int);
            let ghost next = pairs@.take(k + 1);
            proof {
                assert(next.drop_last() == part);
                assert(next.last() == (a, b));
                lemma_absorb_all(labels0, pairs@, k + 1);
                lemma_absorb(before, a);
                lemma_absorb(absorb(before, a), b);
            }
            let ia = self.intern(a);
            let ib = self.intern(b);
            push_edge(&mut self.graph, ia, ib);
            proof {
                let after = self.labels();
                assert(after == absorb_all(labels0, next));
                assert(self.edges() =~= edges0 + placed(after, next)) by {
                    assert forall|j: int| 0 <= j < part.len() implies placed(before, part)[j]
                        == placed(after, next)[j] by {
                        Self::lemma_placed_stable(labels0, pairs@, k as int, j);
                    }
                    lemma_absorb(before, a);
                    let mid = absorb(before, a);
                    let at = mid.index_of(a);
                    assert(mid.contains(a));
                    assert(after[at] == mid[at]);
                    lemma_position(after, at);
                }
            }
            k += 1;
        }
        assert(pairs@.take(k as int) == pairs@);
        Ok(())
    }

    /// The store that the lines give, or the error that names the first line
    /// that denotes no edge.
    pub fn from_lines(lines: &Vec<String>) -> (r: Result<GraphManager, AnalysisError>)
        requires
            all_parse(lines@) ==> absorb_all(Seq::empty(), pairs_of(lines@)).len() <= u32::MAX
                && lines@.len() <= u32::MAX,
        ensures
            match r {
                Ok(manager) => manager.wf() && manager.built_from(lines@),
                Err(e) => exists|bad: int|
                    {
                        &&& 0 <= bad < lines@.len()
                        &&& e == (AnalysisError::Parse { line: bad as usize })
                        &&& edge_of(#[trigger] lines@[bad]@) is None
                        &&& forall|j: int| 0 <= j < bad ==> edge_of(#[trigger] lines@[j]@) is Some
                    },
            },
    {
        let mut manager = GraphManager::new();
        match manager.build_graph(lines) {
            Ok(()) => {
                assert(manager.edges() =~= placed(manager.labels(), pairs_of(lines@)));
                Ok(manager)
            },
            Err(e) => Err(e),
        }
    }

    /// Reading the same lines twice gives the same store: every ID has the
    /// same index in both and the edges are the same, and with them every
    /// hop distance, every reachable set and every local clustering.
    pub proof fn lemma_rebuild_agrees(one: GraphManager, two: GraphManager, lines: Seq<String>)
        requires
            one.built_from(lines),
            two.built_from(lines),
        ensures
            one.labels() == two.labels(),
            one.edges() == two.edges(),
            forall|id: usize| position(one.labels(), id) == position(two.labels(), id),
            forall|a: usize, b: usize|
                hop_distance(one.edges(), a, b) == hop_distance(two.edges(), a, b),
            forall|a: usize, k: nat| reach_set(one.edges(), a, k) == reach_set(two.edges(), a, k),
            forall|v: usize| clustering_of(one.edges(), v) == clustering_of(two.edges(), v),
    {
    }

    /// The index of an ID met while a part of the pairs was absorbed stays
    /// what it is when one more pair is absorbed.
    proof fn lemma_placed_stable(labels: Seq<usize>, pairs: Seq<(usize, usize)>, k: int, j: int)
        requires
            labels.no_duplicates(),
            0 <= j < k < pairs.len(),
        ensures
            placed(absorb_all(labels, pairs.take(k)), pairs.take(k))[j] == placed(
                absorb_all(labels, pairs.take(k + 1)),
                pairs.take(k + 1),
            )[j],
    {
        let part = pairs.take(k);
        let next = pairs.take(k + 1);
        let before = absorb_all(labels, part);
        let after = absorb_all(labels, next);
        assert(next.drop_last() == part);
        lemma_absorb_all(labels, part, k);
        lemma_absorb(before, next.last().0);
        lemma_absorb(absorb(before, next.last().0), next.last().1);
        Self::lemma_absorbed_contains(labels, part, j);
        let ia = before.index_of(part[j].0);
        let ib = before.index_of(part[j].1);
        assert(after[ia] == before[ia] && after[ib] == before[ib]);
        lemma_position(after, ia);
        lemma_position(after, ib);
    }

    /// Both IDs of an absorbed pair stand among the labels.
    proof fn lemma_absorbed_contains(labels: Seq<usize>, pairs: Seq<(usize, usize)>, j: int)
        requires
            labels.no_duplicates(),
            0 <= j < pairs.len(),
        ensures
            absorb_all(labels, pairs).contains(pairs[j].0),
            absorb_all(labels, pairs).contains(pairs[j].1),
        decreases pairs.len(),
    {
        let rest = pairs.drop_last();
        let before = absorb_all(labels, rest);
        lemma_absorb_all(labels, rest, 0);
        lemma_absorb(before, pairs.last().0);
        let mid = absorb(before, pairs.last().0);
        lemma_absorb(mid, pairs.last().1);
        let after = absorb(mid, pairs.last().1);
        if j < rest.len() {
            Self::lemma_absorbed_contains(labels, rest, j);
            let ia = before.index_of(pairs[j].0);
            let ib = before.index_of(pairs[j].1);
            assert(mid[ia] == before[ia] && after[ia] == mid[ia]);
            assert(mid[ib] == before[ib] && after[ib] == mid[ib]);
        } else {
            let ia = mid.index_of(pairs[j].0);
            assert(after[ia] == mid[ia]);
        }
    }

    /// The graph itself, for the traversals.
    pub fn graph(&self) -> (graph: &UnGraph<(), u32>)
        ensures
            *graph == self.store(),
    {
        &self.graph
    }

    /// The node indices, in ascending order.
    pub fn get_node_indices(&self) -> (indices: Vec<usize>)
        ensures
            indices@.len() == graph_node_count(self.store()),
            forall|i: int| 0 <= i < indices@.len() ==> indices@[i] == i,
    {
        let n = node_total(&self.graph);
        let mut indices: Vec<usize> = Vec::new();
        let mut i: usize = 0;
        while i < n
            invariant
                i <= n,
                indices@.len() == i,
                forall|j: int| 0 <= j < i ==> indices@[j] == j,
            decreases n - i,
        {
            indices.push(i);
            i += 1;
        }
        indices
    }

    /// The number of nodes.
    pub fn node_count(&self) -> (n: usize)
        ensures
            n == graph_node_count(self.store()),
    {
        node_total(&self.graph)
    }

    /// The index of the node with the ID `id`, if the ID was met.
    pub fn index_of(&self, id: usize) -> (r: Option<usize>)
        requires
            self.wf(),
        ensures
            r == if self.labels().contains(id) {
                Some(position(self.labels(), id))
            } else {
                None
            },
    {
        match self.node_indices.get(&id) {
            Some(index) => {
                proof {
                    lemma_position(self.labels@, *index as int);
                }
                Some(*index)
            },
            None => {
                proof {
                    if self.labels@.contains(id) {
                        let i = choose|i: int| 0 <= i < self.labels@.len() && self.labels@[i] == id;
                        assert(self.node_indices@.contains_key(self.labels@[i]));
                    }
                }
                None
            },
        }
    }

    /// The nodes at the other end of the edges of `node`, one entry for each
    /// edge, in no particular order.
    pub fn neighbors(&self, node: usize) -> (list: Vec<usize>)
        requires
            self.wf(),
        ensures
            forall|w: usize| #[trigger]
                list@.to_multiset().count(w) == link_count(self.edges(), node, w),
            forall|i: int| 0 <= i < list@.len() ==> #[trigger] list@[i] < self.labels().len(),
    {
        if node > u32::MAX as usize {
            let list: Vec<usize> = Vec::new();
            proof {
                assert forall|w: usize| #[trigger]
                    list@.to_multiset().count(w) == link_count(self.edges(), node, w) by {
                    crate::graph_model::lemma_link_count_adjacent(self.edges(), node, w);
                    vstd::seq_lib::to_multiset_contains(list@, w);
                    if crate::graph_model::adjacent(self.edges(), node, w) {
                        let i = choose|i: int|
                            0 <= i < self.edges().len() && crate::graph_model::joins(
                                #[trigger] self.edges()[i],
                                node,
                                w,
                            );
                        assert(self.edges()[i].0 < self.labels().len());
                    }
                }
            }
            list
        } else {
            neighbors_of(&self.graph, node)
        }
    }
}

} // verus!
