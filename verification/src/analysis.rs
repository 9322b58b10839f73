//! The whole analysis of a graph: sampled path-length statistics with the
//! small-world finding, sampled reachability, and the clustering of every
//! node, as exact integers.

use crate::clustering::{clustering_coefficients, clustering_of, LocalClustering};
use crate::error::AnalysisError;
use crate::graph_manager::GraphManager;
use crate::graph_model::{graph_edges, graph_node_count, node_total};
use crate::sampler::{
    collected, draw_nodes, draw_pairs, lemma_collected_len, path_lengths, reach_counts,
    reach_counts_of, seeded_rng,
};
use crate::statistics::{sum_of, summary_of, total, Summary};
use petgraph::graph::UnGraph;
use rand::rngs::StdRng;
use vstd::prelude::*;

verus! {

/// What an analysis is run with.
#[derive(Clone, Copy, Debug, PartialEq, Eq, Structural)]
pub struct Config {
    /// The number of pairs drawn for the path lengths, and of nodes drawn
    /// for the reachability.
    pub sample_count: usize,
    /// The number of hops within which reachability is counted.
    pub max_depth: u32,
    /// The seed of the random number generator.
    pub seed: u64,
}

impl Config {
    /// 1000 samples, 6 hops, seed 12345.
    pub fn standard() -> (config: Config)
        ensures
            config == (Config { sample_count: 1000, max_depth: 6, seed: 12345 }),
    {
        Config { sample_count: 1000, max_depth: 6, seed: 12345 }
    }
}

/// The figures of an analysis. The average share of the graph within reach
/// is `reach_total / reach_samples / node_count`.
#[derive(Debug)]
pub struct Report {
    /// The summary of the collected path lengths.
    pub paths: Summary,
    /// Whether the mean path length is at most 6.
    pub small_world: bool,
    /// The sum of the reachability counts.
    pub reach_total: u128,
    /// The number of reachability counts.
    pub reach_samples: usize,
    /// The number of nodes of the graph.
    pub node_count: usize,
    /// The local clustering of every node, by node index.
    pub clustering: Vec<LocalClustering>,
}

/// Whether `r` is the outcome of the analysis of a graph with the edges
/// `edges` and `n` nodes for the drawn `pairs` and `starts`.
pub open spec fn assessed(
    r: Result<Report, AnalysisError>,
    edges: Seq<(usize, usize)>,
    n: nat,
    pairs: Seq<(usize, usize)>,
    starts: Seq<usize>,
    max_depth: u32,
) -> bool {
    match r {
        Ok(report) => {
            &&& collected(edges, pairs).len() > 0
            &&& report.paths == summary_of(collected(edges, pairs))
            &&& report.small_world == report.paths.mean_at_most(6)
            &&& report.reach_total == total(reach_counts_of(edges, starts, max_depth))
            &&& report.reach_samples == starts.len()
            &&& report.node_count == n
            &&& report.clustering@.len() == n
            &&& forall|v: int|
                0 <= v < n ==> #[trigger] report.clustering@[v] == clustering_of(edges, v as usize)
        },
        Err(e) => collected(edges, pairs).len() == 0 && e == AnalysisError::EmptySample,
    }
}

/// The draws decide the outcome: two analyses of one graph for the same pairs
/// and start nodes end alike, and where they succeed every figure agrees.
pub proof fn lemma_assessment_determined(
    one: Result<Report, AnalysisError>,
    two: Result<Report, AnalysisError>,
    edges: Seq<(usize, usize)>,
    n: nat,
    pairs: Seq<(usize, usize)>,
    starts: Seq<usize>,
    max_depth: u32,
)
    requires
        assessed(one, edges, n, pairs, starts, max_depth),
        assessed(two, edges, n, pairs, starts, max_depth),
    ensures
        one is Ok <==> two is Ok,
        one is Err ==> one == two,
        one is Ok ==> {
            &&& one->Ok_0.paths == two->Ok_0.paths
            &&& one->Ok_0.small_world == two->Ok_0.small_world
            &&& one->Ok_0.reach_total == two->Ok_0.reach_total
            &&& one->Ok_0.reach_samples == two->Ok_0.reach_samples
            &&& one->Ok_0.node_count == two->Ok_0.node_count
            &&& one->Ok_0.clustering@ == two->Ok_0.clustering@
        },
{
    if one is Ok {
        assert(one->Ok_0.clustering@ =~= two->Ok_0.clustering@);
    }
}

/// Whether `r` is the outcome of the analysis for some `sample_count` pairs
/// and some `sample_count` start nodes, all of them nodes of the graph.
pub open spec fn sampled(
    r: Result<Report, AnalysisError>,
    edges: Seq<(usize, usize)>,
    n: nat,
    sample_count: usize,
    max_depth: u32,
) -> bool {
    exists|pairs: Seq<(usize, usize)>, starts: Seq<usize>|
        {
            &&& pairs.len() == sample_count
            &&& starts.len() == sample_count
            &&& forall|i: int| 0 <= i < pairs.len() ==> (#[trigger] pairs[i]).0 < n && pairs[i].1 < n
            &&& forall|i: int| 0 <= i < starts.len() ==> #[trigger] starts[i] < n
            &&& #[trigger] assessed(r, edges, n, pairs, starts, max_depth)
        }
}

/// The analysis of `graph` for the drawn `pairs` and `starts`:
/// `EmptySample` when no walk joins any of the pairs.
pub fn assess(
    graph: &UnGraph<(), u32>,
    pairs: &Vec<(usize, usize)>,
    starts: &Vec<usize>,
    max_depth: u32,
) -> (r: Result<Report, AnalysisError>)
    requires
        forall|i: int| 0 <= i < pairs@.len() ==> (#[trigger] pairs@[i]).0 < graph_node_count(*graph),
        forall|i: int| 0 <= i < starts@.len() ==> #[trigger] starts@[i] < graph_node_count(*graph),
    ensures
        assessed(r, graph_edges(*graph), graph_node_count(*graph), pairs@, starts@, max_depth),
{
    let stats = path_lengths(graph, pairs);
    let paths = match stats.compute() {
        Ok(summary) => summary,
        Err(e) => {
            return Err(e);
        },
    };
    let small_world = paths.supports_small_world();
    let counts = reach_counts(graph, starts, max_depth);
    let reach_total = sum_of(&counts);
    let clustering = clustering_coefficients(graph);
    Ok(
        Report {
            paths,
            small_world,
            reach_total,
            reach_samples: starts.len(),
            node_count: node_total(graph),
            clustering,
        },
    )
}

/// Draws `sample_count` pairs and then `sample_count` start nodes from the
/// nodes of `graph` with `rng`, and analyses the graph for them. A graph
/// without nodes leaves nothing to draw: `EmptySample`.
pub fn analyze_with(
    graph: &UnGraph<(), u32>,
    sample_count: usize,
    max_depth: u32,
    rng: &mut StdRng,
) -> (r: Result<Report, AnalysisError>)
    ensures
        graph_node_count(*graph) == 0 || sample_count == 0 ==> r == Err::<Report, AnalysisError>(
            AnalysisError::EmptySample,
        ),
        graph_node_count(*graph) > 0 ==> sampled(
            r,
            graph_edges(*graph),
            graph_node_count(*graph),
            sample_count,
            max_depth,
        ),
        match r {
            Ok(report) => {
                &&& 0 < report.paths.count <= sample_count
                &&& report.small_world == report.paths.mean_at_most(6)
                &&& report.reach_samples == sample_count
                &&& report.node_count == graph_node_count(*graph)
                &&& report.clustering@.len() == graph_node_count(*graph)
                &&& forall|v: int|
                    0 <= v < report.clustering@.len() ==> #[trigger] report.clustering@[v]
                        == clustering_of(graph_edges(*graph), v as usize)
            },
            Err(e) => e == AnalysisError::EmptySample,
        },
{
    let n = node_total(graph);
    if n == 0 {
        return Err(AnalysisError::EmptySample);
    }
    let mut nodes: Vec<usize> = Vec::new();
    let mut v: usize = 0;
    while v < n
        invariant
            v <= n,
            nodes@.len() == v,
            forall|i: int| 0 <= i < v ==> nodes@[i] == i,
        decreases n - v,
    {
        nodes.push(v);
        v += 1;
    }
    let pairs = draw_pairs(&nodes, sample_count, rng);
    let starts = draw_nodes(&nodes, sample_count, rng);
    proof {
        assert forall|i: int| 0 <= i < pairs@.len() implies (#[trigger] pairs@[i]).0 < n
            && pairs@[i].1 < n by {
            let a = pairs@[i].0;
            let b = pairs@[i].1;
            assert(nodes@.contains(a) && nodes@.contains(b));
            let j = choose|j: int| 0 <= j < nodes@.len() && nodes@[j] == a;
            let k = choose|k: int| 0 <= k < nodes@.len() && nodes@[k] == b;
        }
        assert forall|i: int| 0 <= i < starts@.len() implies #[trigger] starts@[i] < n by {
            let a = starts@[i];
            assert(nodes@.contains(a));
            let j = choose|j: int| 0 <= j < nodes@.len() && nodes@[j] == a;
        }
        lemma_collected_len(graph_edges(*graph), pairs@);
    }
    let r = assess(graph, &pairs, &starts, max_depth);
    proof {
        assert(assessed(r, graph_edges(*graph), n as nat, pairs@, starts@, max_depth));
        if sample_count == 0 {
            assert(r is Err);
        }
    }
    r
}

/// The analysis of the stored graph with a generator seeded from the
/// configuration: the same store and configuration give the same draws.
pub fn analyze(manager: &GraphManager, config: &Config) -> (r: Result<Report, AnalysisError>)
    ensures
        graph_node_count(manager.store()) == 0 || config.sample_count == 0 ==> r == Err::<
            Report,
            AnalysisError,
        >(AnalysisError::EmptySample),
        graph_node_count(manager.store()) > 0 ==> sampled(
            r,
            manager.edges(),
            graph_node_count(manager.store()),
            config.sample_count,
            config.max_depth,
        ),
        match r {
            Ok(report) => {
                &&& 0 < report.paths.count <= config.sample_count
                &&& report.small_world == report.paths.mean_at_most(6)
                &&& report.reach_samples == config.sample_count
                &&& report.node_count == graph_node_count(manager.store())
                &&& report.clustering@.len() == graph_node_count(manager.store())
                &&& forall|v: int|
                    0 <= v < report.clustering@.len() ==> #[trigger] report.clustering@[v]
                        == clustering_of(manager.edges(), v as usize)
            },
            Err(e) => e == AnalysisError::EmptySample,
        },
{
    let mut rng = seeded_rng(config.seed);
    analyze_with(manager.graph(), config.sample_count, config.max_depth, &mut rng)
}

} // verus!
