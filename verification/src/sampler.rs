//! Sampling: nodes and pairs of nodes drawn from a population with a seeded
//! random number generator, and the traversal results collected over them.

use crate::bfs::{bfs_reachability, bfs_shortest_path};
use crate::graph_model::{graph_edges, graph_node_count};
use crate::paths::{hop_distance, reach_set};
use crate::statistics::Statistics;
use petgraph::graph::UnGraph;
use rand::rngs::StdRng;
use rand::seq::SliceRandom;
use rand::SeedableRng;
use vstd::prelude::*;

verus! {

/// `rand::rngs::StdRng`, carried as an opaque value: nothing is known of
/// its state.
#[verifier::external_type_specification]
#[verifier::external_body]
pub struct ExStdRng(StdRng);

/// Calls `SeedableRng::seed_from_u64` for `StdRng`, which builds a generator
/// from the seed. Nothing is claimed of the generator.
#[verifier::external_body]
pub(crate) fn seeded_rng(seed: u64) -> (rng: StdRng) {
    StdRng::seed_from_u64(seed)
}

/// Calls `SliceRandom::choose` on the slice of `nodes`, which returns `None`
/// for an empty slice and otherwise one of its elements, picked by the
/// generator. Which one is not claimed.
#[verifier::external_body]
pub(crate) fn choose_node(nodes: &Vec<usize>, rng: &mut StdRng) -> (r: Option<usize>)
    ensures
        r is None <==> nodes@.len() == 0,
        r is Some ==> nodes@.contains(r->0),
{
    nodes.choose(rng).copied()
}

/// Whether every node of `drawn` is one of `nodes`.
pub open spec fn drawn_from(drawn: Seq<usize>, nodes: Seq<usize>) -> bool {
    forall|i: int| 0 <= i < drawn.len() ==> nodes.contains(#[trigger] drawn[i])
}

/// Whether both nodes of every pair of `drawn` are among `nodes`.
pub open spec fn pairs_drawn_from(drawn: Seq<(usize, usize)>, nodes: Seq<usize>) -> bool {
    forall|i: int|
        0 <= i < drawn.len() ==> nodes.contains((#[trigger] drawn[i]).0) && nodes.contains(
            drawn[i].1,
        )
}

/// The hop distances of the pairs that a walk joins, in the order of the
/// pairs. Pairs that no walk joins are left out.
pub open spec fn collected(edges: Seq<(usize, usize)>, pairs: Seq<(usize, usize)>) -> Seq<u32>
    decreases pairs.len(),
{
    if pairs.len() == 0 {
        Seq::empty()
    } else {
        let rest = collected(edges, pairs.drop_last());
        match hop_distance(edges, pairs.last().0, pairs.last().1) {
            Some(d) => rest.push(d as u32),
            None => rest,
        }
    }
}

/// For each start node, the number of nodes within `max_depth` hops of it.
pub open spec fn reach_counts_of(edges: Seq<(usize, usize)>, starts: Seq<usize>, max_depth: u32) -> Seq<
    u32,
> {
    Seq::new(starts.len(), |i: int| reach_set(edges, starts[i], max_depth as nat).len() as u32)
}

/// No more lengths are collected than there are pairs.
pub proof fn lemma_collected_len(edges: Seq<(usize, usize)>, pairs: Seq<(usize, usize)>)
    ensures
        collected(edges, pairs).len() <= pairs.len(),
    decreases pairs.len(),
{
    if pairs.len() > 0 {
        lemma_collected_len(edges, pairs.drop_last());
    }
}

/// Draws `count` nodes from `nodes`, each independently of the others.
pub fn draw_nodes(nodes: &Vec<usize>, count: usize, rng: &mut StdRng) -> (drawn: Vec<usize>)
    requires
        nodes@.len() > 0,
    ensures
        drawn@.len() == count,
        drawn_from(drawn@, nodes@),
{
    let mut drawn: Vec<usize> = Vec::new();
    let mut i: usize = 0;
    while i < count
        invariant
            i <= count,
            nodes@.len() > 0,
            drawn@.len() == i,
            drawn_from(drawn@, nodes@),
        decreases count - i,
    {
        match choose_node(nodes, rng) {
            Some(node) => {
                drawn.push(node);
            },
            None => {
                assert(false);
            },
        }
        i += 1;
    }
    drawn
}

/// Draws `count` pairs of nodes from `nodes`, each node independently of the
/// others, the first node of a pair before the second.
pub fn draw_pairs(nodes: &Vec<usize>, count: usize, rng: &mut StdRng) -> (drawn: Vec<
    (usize, usize),
>)
    requires
        nodes@.len() > 0,
    ensures
        drawn@.len() == count,
        pairs_drawn_from(drawn@, nodes@),
{
    let mut drawn: Vec<(usize, usize)> = Vec::new();
    let mut i: usize = 0;
    while i < count
        invariant
            i <= count,
            nodes@.len() > 0,
            drawn@.len() == i,
            pairs_drawn_from(drawn@, nodes@),
        decreases count - i,
    {
        let start = choose_node(nodes, rng);
        let end = choose_node(nodes, rng);
        match (start, end) {
            (Some(a), Some(b)) => {
                drawn.push((a, b));
            },
            _ => {
                assert(false);
            },
        }
        i += 1;
    }
    drawn
}

/// The hop distance of each pair that a walk joins; the other pairs are
/// dropped.
pub fn path_lengths(graph: &UnGraph<(), u32>, pairs: &Vec<(usize, usize)>) -> (stats: Statistics)
    requires
        forall|i: int| 0 <= i < pairs@.len() ==> (#[trigger] pairs@[i]).0 < graph_node_count(*graph),
    ensures
        stats@ == collected(graph_edges(*graph), pairs@),
{
    let mut stats = Statistics::new();
    let mut i: usize = 0;
    while i < pairs.len()
        invariant
            i <= pairs@.len(),
            forall|j: int|
                0 <= j < pairs@.len() ==> (#[trigger] pairs@[j]).0 < graph_node_count(*graph),
            stats@ == collected(graph_edges(*graph), pairs@.take(i as int)),
        decreases pairs@.len() - i,
    {
        let (start, end) = pairs[i];
        proof {
            let next = pairs@.take(i + 1);
            assert(next.drop_last() == pairs@.take(i as int));
            assert(next.last() == pairs@[i as int]);
        }
        if let Some(length) = bfs_shortest_path(graph, start, end) {
            stats.add_length(length);
        }
        i += 1;
    }
    assert(pairs@.take(i as int) == pairs@);
    stats
}

/// For each start node, the number of nodes within `max_depth` hops of it.
pub fn reach_counts(graph: &UnGraph<(), u32>, starts: &Vec<usize>, max_depth: u32) -> (counts: Vec<
    u32,
>)
    requires
        forall|i: int| 0 <= i < starts@.len() ==> #[trigger] starts@[i] < graph_node_count(*graph),
    ensures
        counts@ == reach_counts_of(graph_edges(*graph), starts@, max_depth),
        forall|i: int| 0 <= i < counts@.len() ==> 1 <= #[trigger] counts@[i],
{
    let mut counts: Vec<u32> = Vec::new();
    let mut i: usize = 0;
    while i < starts.len()
        invariant
            i <= starts@.len(),
            forall|j: int|
                0 <= j < starts@.len() ==> #[trigger] starts@[j] < graph_node_count(*graph),
            counts@.len() == i,
            forall|j: int|
                0 <= j < i ==> #[trigger] counts@[j] == reach_set(
                    graph_edges(*graph),
                    starts@[j],
                    max_depth as nat,
                ).len(),
            forall|j: int| 0 <= j < i ==> 1 <= #[trigger] counts@[j],
        decreases starts@.len() - i,
    {
        let count = bfs_reachability(graph, starts[i], max_depth);
        counts.push(count);
        i += 1;
    }
    assert(counts@ =~= reach_counts_of(graph_edges(*graph), starts@, max_depth));
    counts
}

/// Draws `count` pairs of nodes from `nodes` and collects the hop distance
/// of each pair that a walk joins.
pub fn sample_shortest_paths(
    graph: &UnGraph<(), u32>,
    nodes: &Vec<usize>,
    count: usize,
    rng: &mut StdRng,
) -> (stats: Statistics)
    requires
        nodes@.len() > 0,
        forall|i: int| 0 <= i < nodes@.len() ==> #[trigger] nodes@[i] < graph_node_count(*graph),
    ensures
        exists|pairs: Seq<(usize, usize)>|
            pairs.len() == count && pairs_drawn_from(pairs, nodes@) && stats@ == #[trigger] collected(
                graph_edges(*graph),
                pairs,
            ),
        stats@.len() <= count,
{
    let pairs = draw_pairs(nodes, count, rng);
    proof {
        assert forall|i: int| 0 <= i < pairs@.len() implies (#[trigger] pairs@[i]).0
            < graph_node_count(*graph) by {
            let a = pairs@[i].0;
            assert(nodes@.contains(a));
            let j = choose|j: int| 0 <= j < nodes@.len() && nodes@[j] == a;
            assert(nodes@[j] < graph_node_count(*graph));
        }
        lemma_collected_len(graph_edges(*graph), pairs@);
    }
    path_lengths(graph, &pairs)
}

/// Draws `count` nodes from `nodes` and counts, for each, the nodes within
/// `max_depth` hops of it.
pub fn sample_reachability(
    graph: &UnGraph<(), u32>,
    nodes: &Vec<usize>,
    count: usize,
    max_depth: u32,
    rng: &mut StdRng,
) -> (counts: Vec<u32>)
    requires
        nodes@.len() > 0,
        forall|i: int| 0 <= i < nodes@.len() ==> #[trigger] nodes@[i] < graph_node_count(*graph),
    ensures
        exists|starts: Seq<usize>|
            starts.len() == count && drawn_from(starts, nodes@) && counts@ == #[trigger] reach_counts_of(
                graph_edges(*graph),
                starts,
                max_depth,
            ),
        counts@.len() == count,
        forall|i: int| 0 <= i < counts@.len() ==> 1 <= #[trigger] counts@[i],
{
    let starts = draw_nodes(nodes, count, rng);
    proof {
        assert forall|i: int| 0 <= i < starts@.len() implies #[trigger] starts@[i]
            < graph_node_count(*graph) by {
            let a = starts@[i];
            assert(nodes@.contains(a));
            let j = choose|j: int| 0 <= j < nodes@.len() && nodes@[j] == a;
            assert(nodes@[j] < graph_node_count(*graph));
        }
    }
    reach_counts(graph, &starts, max_depth)
}

} // verus!
