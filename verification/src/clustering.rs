//! Local clustering: how many pairs of a node's neighbors are themselves
//! joined by an edge, out of how many pairs there are.

use crate::graph_model::{
    adjacent, graph_edges, graph_node_count, lemma_adjacent_symmetric, neighbors_of, node_total,
};
use crate::paths::{below, lemma_below_len, lemma_usize_set_finite};
use petgraph::graph::UnGraph;
use vstd::prelude::*;

verus! {

/// The distinct nodes adjacent to `v`.
pub open spec fn neighbor_set(edges: Seq<(usize, usize)>, v: usize) -> Set<usize> {
    Set::new(|w: usize| adjacent(edges, v, w))
}

/// The pairs of distinct neighbors of `v` that an edge joins, each pair once,
/// the smaller node first.
pub open spec fn linked_pairs(edges: Seq<(usize, usize)>, v: usize) -> Set<(usize, usize)> {
    Set::new(
        |p: (usize, usize)|
            p.0 < p.1 && adjacent(edges, v, p.0) && adjacent(edges, v, p.1) && adjacent(
                edges,
                p.0,
                p.1,
            ),
    )
}

/// The number of pairs that can be picked from `k` things.
pub open spec fn pair_count(k: nat) -> nat {
    if k < 2 {
        0
    } else {
        (k * (k - 1) / 2) as nat
    }
}

/// A local clustering coefficient as an exact fraction: `links` of the
/// `pairs` pairs of neighbors are joined. With no pair the coefficient is 0.
#[derive(Clone, Copy, Debug, PartialEq, Eq, Structural)]
pub struct LocalClustering {
    pub links: u64,
    pub pairs: u64,
}

/// The local clustering of the node `v`.
pub open spec fn clustering_of(edges: Seq<(usize, usize)>, v: usize) -> LocalClustering {
    LocalClustering {
        links: linked_pairs(edges, v).len() as u64,
        pairs: pair_count(neighbor_set(edges, v).len()) as u64,
    }
}

/// The pairs of distinct members of `nodes`, the smaller first.
pub open spec fn pairs_within(nodes: Set<usize>) -> Set<(usize, usize)> {
    Set::new(|p: (usize, usize)| p.0 < p.1 && nodes.contains(p.0) && nodes.contains(p.1))
}

/// The pairs that `x` makes with the members of `nodes`, the smaller first.
spec fn pairs_with(x: usize, nodes: Set<usize>) -> Set<(usize, usize)> {
    Set::new(
        |p: (usize, usize)|
            p.0 < p.1 && ((p.0 == x && nodes.contains(p.1)) || (p.1 == x && nodes.contains(p.0))),
    )
}

/// A node makes one pair with each of the other nodes.
proof fn lemma_pairs_with(x: usize, nodes: Set<usize>)
    requires
        nodes.finite(),
        !nodes.contains(x),
    ensures
        pairs_with(x, nodes).finite(),
        pairs_with(x, nodes).len() == nodes.len(),
    decreases nodes.len(),
{
    if nodes.len() == 0 {
        nodes.lemma_len0_is_empty();
        assert(pairs_with(x, nodes) =~= Set::<(usize, usize)>::empty());
    } else {
        let y = nodes.choose();
        let rest = nodes.remove(y);
        lemma_pairs_with(x, rest);
        assert(pairs_with(x, nodes) =~= pairs_with(x, rest).insert(ordered(x, y)));
    }
}

/// From `k` nodes `k * (k - 1) / 2` pairs can be picked.
pub proof fn lemma_pairs_within(nodes: Set<usize>)
    requires
        nodes.finite(),
    ensures
        pairs_within(nodes).finite(),
        pairs_within(nodes).len() == pair_count(nodes.len()),
    decreases nodes.len(),
{
    if nodes.len() == 0 {
        nodes.lemma_len0_is_empty();
        assert(pairs_within(nodes) =~= Set::<(usize, usize)>::empty());
    } else {
        let x = nodes.choose();
        let rest = nodes.remove(x);
        let m = rest.len();
        lemma_pairs_within(rest);
        lemma_pairs_with(x, rest);
        assert(pairs_within(nodes) =~= pairs_within(rest) + pairs_with(x, rest));
        assert(pairs_within(rest).disjoint(pairs_with(x, rest)));
        vstd::set_lib::lemma_set_disjoint_lens(pairs_within(rest), pairs_with(x, rest));
        assert(pair_count(m) + m == pair_count(m + 1)) by {
            if m >= 2 {
                assert(m * (m - 1) + 2 * m == (m + 1) * m) by (nonlinear_arith);
            } else if m == 1 {
                assert((m + 1) * m == 2) by (nonlinear_arith)
                    requires
                        m == 1,
                ;
            }
        }
    }
}

/// In every graph and for every node, the pairs of neighbors that are joined
/// are at most as many as the pairs of neighbors, so the local clustering
/// coefficient lies between 0 and 1; and a node with fewer than two
/// neighbors has no joined pair.
pub proof fn lemma_clustering_bounds(edges: Seq<(usize, usize)>, v: usize)
    ensures
        linked_pairs(edges, v).finite(),
        linked_pairs(edges, v).len() <= pair_count(neighbor_set(edges, v).len()),
        neighbor_set(edges, v).len() < 2 ==> linked_pairs(edges, v).len() == 0,
{
    let nodes = neighbor_set(edges, v);
    lemma_usize_set_finite(nodes);
    lemma_pairs_within(nodes);
    assert(linked_pairs(edges, v).subset_of(pairs_within(nodes)));
    vstd::set_lib::lemma_len_subset(linked_pairs(edges, v), pairs_within(nodes));
}

/// The pair of `a` and `b` with the smaller first.
spec fn ordered(a: usize, b: usize) -> (usize, usize) {
    if a <= b {
        (a, b)
    } else {
        (b, a)
    }
}

/// Whether the position pair `(a, b)` comes before `(i, j)` when pairs are
/// walked row by row.
spec fn earlier(a: int, b: int, i: int, j: int) -> bool {
    a < i || (a == i && b < j)
}

/// What holds of the pairs found when the walk over the position pairs of
/// `nb` has come to `(i, j)`.
spec fn walked(
    edges: Seq<(usize, usize)>,
    v: usize,
    nb: Seq<usize>,
    found: Set<(usize, usize)>,
    i: int,
    j: int,
) -> bool {
    &&& found.finite()
    &&& forall|p: (usize, usize)| #[trigger] found.contains(p) ==> linked_pairs(edges, v).contains(p)
    &&& forall|a: int, b: int|
        0 <= a < b < nb.len() && earlier(a, b, i, j) && adjacent(edges, nb[a], nb[b])
            ==> found.contains(#[trigger] ordered(nb[a], nb[b]))
    &&& forall|p: (usize, usize)| #[trigger]
        found.contains(p) ==> exists|a: int, b: int|
            0 <= a < b < nb.len() && earlier(a, b, i, j) && p == #[trigger] ordered(nb[a], nb[b])
}

/// A pair of neighbors that is joined and not walked yet is a new pair.
proof fn lemma_walk_found(
    edges: Seq<(usize, usize)>,
    v: usize,
    nb: Seq<usize>,
    found: Set<(usize, usize)>,
    i: int,
    j: int,
)
    requires
        walked(edges, v, nb, found, i, j),
        nb.no_duplicates(),
        0 <= i < j < nb.len(),
        forall|w: usize| #[trigger] nb.contains(w) <==> adjacent(edges, v, w),
        adjacent(edges, nb[i], nb[j]),
    ensures
        !found.contains(ordered(nb[i], nb[j])),
        walked(edges, v, nb, found.insert(ordered(nb[i], nb[j])), i, j + 1),
{
    let p = ordered(nb[i], nb[j]);
    let found2 = found.insert(p);
    assert(nb.contains(nb[i]) && nb.contains(nb[j]));
    lemma_adjacent_symmetric(edges, nb[i], nb[j]);
    if found.contains(p) {
        let (a, b) = choose|a: int, b: int|
            0 <= a < b < nb.len() && earlier(a, b, i, j) && p == #[trigger] ordered(nb[a], nb[b]);
        assert(nb[a] == nb[i] || nb[a] == nb[j]);
        assert(nb[b] == nb[i] || nb[b] == nb[j]);
    }
    assert(linked_pairs(edges, v).contains(p));
    assert forall|a: int, b: int|
        0 <= a < b < nb.len() && earlier(a, b, i, j + 1) && adjacent(
            edges,
            nb[a],
            nb[b],
        ) implies found2.contains(#[trigger] ordered(nb[a], nb[b])) by {
        if !(a == i && b == j) {
            assert(earlier(a, b, i, j));
        }
    }
    assert forall|q: (usize, usize)| #[trigger] found2.contains(q) implies exists|a: int, b: int|
        0 <= a < b < nb.len() && earlier(a, b, i, j + 1) && q == #[trigger] ordered(
            nb[a],
            nb[b],
        ) by {
        if q == p {
            assert(earlier(i, j, i, j + 1) && q == ordered(nb[i], nb[j]));
        } else {
            let (a, b) = choose|a: int, b: int|
                0 <= a < b < nb.len() && earlier(a, b, i, j) && q == #[trigger] ordered(
                    nb[a],
                    nb[b],
                );
            assert(earlier(a, b, i, j + 1) && q == ordered(nb[a], nb[b]));
        }
    }
}

/// A pair of neighbors that is not joined adds nothing.
proof fn lemma_walk_skip(
    edges: Seq<(usize, usize)>,
    v: usize,
    nb: Seq<usize>,
    found: Set<(usize, usize)>,
    i: int,
    j: int,
)
    requires
        walked(edges, v, nb, found, i, j),
        0 <= i < j < nb.len(),
        !adjacent(edges, nb[i], nb[j]),
    ensures
        walked(edges, v, nb, found, i, j + 1),
{
    assert forall|a: int, b: int|
        0 <= a < b < nb.len() && earlier(a, b, i, j + 1) && adjacent(
            edges,
            nb[a],
            nb[b],
        ) implies found.contains(#[trigger] ordered(nb[a], nb[b])) by {
        assert(earlier(a, b, i, j));
    }
    assert forall|q: (usize, usize)| #[trigger] found.contains(q) implies exists|a: int, b: int|
        0 <= a < b < nb.len() && earlier(a, b, i, j + 1) && q == #[trigger] ordered(
            nb[a],
            nb[b],
        ) by {
        let (a, b) = choose|a: int, b: int|
            0 <= a < b < nb.len() && earlier(a, b, i, j) && q == #[trigger] ordered(nb[a], nb[b]);
        assert(earlier(a, b, i, j + 1) && q == ordered(nb[a], nb[b]));
    }
}

/// A finished row is the start of the next one.
proof fn lemma_walk_row(
    edges: Seq<(usize, usize)>,
    v: usize,
    nb: Seq<usize>,
    found: Set<(usize, usize)>,
    i: int,
    j: int,
)
    requires
        walked(edges, v, nb, found, i, j),
        0 <= i < nb.len(),
        j >= nb.len(),
    ensures
        walked(edges, v, nb, found, i + 1, i + 2),
{
    assert forall|a: int, b: int|
        0 <= a < b < nb.len() && earlier(a, b, i + 1, i + 2) && adjacent(
            edges,
            nb[a],
            nb[b],
        ) implies found.contains(#[trigger] ordered(nb[a], nb[b])) by {
        assert(earlier(a, b, i, j));
    }
    assert forall|q: (usize, usize)| #[trigger] found.contains(q) implies exists|a: int, b: int|
        0 <= a < b < nb.len() && earlier(a, b, i + 1, i + 2) && q == #[trigger] ordered(
            nb[a],
            nb[b],
        ) by {
        let (a, b) = choose|a: int, b: int|
            0 <= a < b < nb.len() && earlier(a, b, i, j) && q == #[trigger] ordered(nb[a], nb[b]);
        assert(earlier(a, b, i + 1, i + 2) && q == ordered(nb[a], nb[b]));
    }
}

/// When every row is walked, the pairs found are the linked pairs.
proof fn lemma_walk_done(
    edges: Seq<(usize, usize)>,
    v: usize,
    nb: Seq<usize>,
    found: Set<(usize, usize)>,
    j: int,
)
    requires
        walked(edges, v, nb, found, nb.len() as int, j),
        nb.no_duplicates(),
        forall|w: usize| #[trigger] nb.contains(w) <==> adjacent(edges, v, w),
    ensures
        found == linked_pairs(edges, v),
{
    let k = nb.len() as int;
    assert forall|p: (usize, usize)| linked_pairs(edges, v).contains(p) implies found.contains(
        p,
    ) by {
        assert(nb.contains(p.0) && nb.contains(p.1));
        let a = choose|a: int| 0 <= a < nb.len() && nb[a] == p.0;
        let b = choose|b: int| 0 <= b < nb.len() && nb[b] == p.1;
        lemma_adjacent_symmetric(edges, p.0, p.1);
        if a < b {
            assert(earlier(a, b, k, j));
            assert(found.contains(ordered(nb[a], nb[b])));
        } else {
            assert(earlier(b, a, k, j));
            assert(found.contains(ordered(nb[b], nb[a])));
        }
    }
    assert(found =~= linked_pairs(edges, v));
}

/// A list of distinct nodes of a graph is no longer than the graph has nodes.
proof fn lemma_distinct_len(nb: Seq<usize>, n: nat)
    requires
        nb.no_duplicates(),
        n <= usize::MAX,
        forall|i: int| 0 <= i < nb.len() ==> #[trigger] nb[i] < n,
    ensures
        nb.len() <= n,
        nb.to_set().finite(),
        nb.to_set().len() == nb.len(),
{
    nb.unique_seq_to_set();
    lemma_below_len(n);
    assert(nb.to_set().subset_of(below(n)));
    vstd::set_lib::lemma_len_subset(nb.to_set(), below(n));
}

/// Whether `x` occurs in `list`.
fn holds(list: &Vec<usize>, x: usize) -> (r: bool)
    ensures
        r == list@.contains(x),
{
    let mut i: usize = 0;
    while i < list.len()
        invariant
            i <= list@.len(),
            forall|j: int| 0 <= j < i ==> list@[j] != x,
        decreases list@.len() - i,
    {
        if list[i] == x {
            return true;
        }
        i += 1;
    }
    false
}

/// The elements of `list`, each once, in the order of their first
/// occurrence.
fn distinct(list: &Vec<usize>) -> (nb: Vec<usize>)
    ensures
        nb@.no_duplicates(),
        forall|w: usize| #[trigger] nb@.contains(w) <==> list@.contains(w),
{
    let mut nb: Vec<usize> = Vec::new();
    let mut i: usize = 0;
    while i < list.len()
        invariant
            i <= list@.len(),
            nb@.no_duplicates(),
            forall|w: usize| #[trigger] nb@.contains(w) <==> list@.take(i as int).contains(w),
        decreases list@.len() - i,
    {
        let x = list[i];
        let ghost before = nb@;
        let ghost part = list@.take(i as int);
        let ghost next = list@.take(i + 1);
        assert(next == part.push(x));
        if !holds(&nb, x) {
            nb.push(x);
        }
        proof {
            assert forall|w: usize| #[trigger] nb@.contains(w) <==> next.contains(w) by {
                if nb@.contains(w) {
                    let a = choose|a: int| 0 <= a < nb@.len() && nb@[a] == w;
                    if a < before.len() {
                        assert(before[a] == w);
                        assert(before.contains(w));
                        assert(part.contains(w));
                        let b = choose|b: int| 0 <= b < part.len() && part[b] == w;
                        assert(next[b] == w);
                    } else {
                        assert(next[i as int] == w);
                    }
                }
                if next.contains(w) {
                    let b = choose|b: int| 0 <= b < next.len() && next[b] == w;
                    if b < part.len() {
                        assert(part[b] == w);
                        assert(before.contains(w));
                        let a = choose|a: int| 0 <= a < before.len() && before[a] == w;
                        assert(nb@[a] == w);
                    } else if before.contains(x) {
                        let a = choose|a: int| 0 <= a < before.len() && before[a] == x;
                        assert(nb@[a] == w);
                    } else {
                        assert(nb@[before.len() as int] == w);
                    }
                }
            }
        }
        i += 1;
    }
    assert(list@.take(i as int) == list@);
    nb
}

/// The local clustering of `node`: among its distinct neighbors, the number
/// of pairs and the number of pairs that an edge joins. Parallel edges count
/// once and a loop joins no pair.
pub fn local_clustering(graph: &UnGraph<(), u32>, node: usize) -> (c: LocalClustering)
    requires
        node < graph_node_count(*graph),
    ensures
        c == clustering_of(graph_edges(*graph), node),
        c.links == linked_pairs(graph_edges(*graph), node).len(),
        c.pairs == pair_count(neighbor_set(graph_edges(*graph), node).len()),
        c.links <= c.pairs,
        neighbor_set(graph_edges(*graph), node).len() < 2 ==> c.links == 0 && c.pairs == 0,
{
    let ghost edges = graph_edges(*graph);
    let n = node_total(graph);
    let list = neighbors_of(graph, node);
    let nb = distinct(&list);
    let k = nb.len();
    proof {
        assert forall|i: int| 0 <= i < nb@.len() implies #[trigger] nb@[i] < n by {
            assert(nb@.contains(nb@[i]));
            let a = choose|a: int| 0 <= a < list@.len() && list@[a] == nb@[i];
        }
        lemma_distinct_len(nb@, n as nat);
        assert(nb@.to_set() =~= neighbor_set(edges, node));
    }
    let pairs: u64 = if k < 2 {
        0
    } else {
        assert((k as u64) * ((k - 1) as u64) <= 0xffff_ffff * 0xffff_fffe) by (nonlinear_arith)
            requires
                2 <= k <= 0xffff_ffff,
        ;
        (k as u64) * ((k - 1) as u64) / 2
    };
    let mut links: u64 = 0;
    let ghost mut found: Set<(usize, usize)> = Set::empty();
    let mut i: usize = 0;
    while i < k
        invariant
            i <= k,
            k == nb@.len(),
            k <= n,
            n == graph_node_count(*graph),
            n <= u32::MAX,
            edges == graph_edges(*graph),
            nb@.no_duplicates(),
            forall|a: int| 0 <= a < nb@.len() ==> #[trigger] nb@[a] < n,
            forall|w: usize| #[trigger] nb@.contains(w) <==> adjacent(edges, node, w),
            walked(edges, node, nb@, found, i as int, i + 1),
            links == found.len(),
            2 * links <= i * (2 * k - i - 1),
        decreases k - i,
    {
        let others = neighbors_of(graph, nb[i]);
        let mut j: usize = i + 1;
        while j < k
            invariant
                i < j <= k,
                k == nb@.len(),
                k <= u32::MAX,
                nb@.no_duplicates(),
                forall|w: usize| #[trigger] nb@.contains(w) <==> adjacent(edges, node, w),
                forall|w: usize| #[trigger] others@.contains(w) <==> adjacent(edges, nb@[i as int], w),
                walked(edges, node, nb@, found, i as int, j as int),
                links == found.len(),
                2 * links <= i * (2 * k - i - 1) + 2 * (j - i - 1),
            decreases k - j,
        {
            assert(i * (2 * k - i - 1) + 2 * (j - i - 1) < 0x1_0000_0000 * 0x1_0000_0000)
                by (nonlinear_arith)
                requires
                    i < j < k <= 0xffff_ffff,
            ;
            if holds(&others, nb[j]) {
                proof {
                    lemma_walk_found(edges, node, nb@, found, i as int, j as int);
                    found = found.insert(ordered(nb@[i as int], nb@[j as int]));
                }
                links = links + 1;
            } else {
                proof {
                    lemma_walk_skip(edges, node, nb@, found, i as int, j as int);
                }
            }
            j += 1;
        }
        proof {
            lemma_walk_row(edges, node, nb@, found, i as int, j as int);
            assert(i * (2 * k - i - 1) + 2 * (k - i - 1) == (i + 1) * (2 * k - (i + 1) - 1))
                by (nonlinear_arith);
        }
        i += 1;
    }
    proof {
        lemma_walk_done(edges, node, nb@, found, k + 1);
        assert(k * (2 * k - k - 1) == k * (k - 1)) by (nonlinear_arith);
        if k >= 2 {
            assert(2 * links <= k * (k - 1));
            assert(links <= pairs);
        } else {
            assert(k * (k - 1) <= 0) by (nonlinear_arith)
                requires
                    0 <= k < 2,
            ;
        }
    }
    LocalClustering { links, pairs }
}

/// The local clustering of every node, by node index.
pub fn clustering_coefficients(graph: &UnGraph<(), u32>) -> (all: Vec<LocalClustering>)
    ensures
        all@.len() == graph_node_count(*graph),
        forall|v: int|
            0 <= v < all@.len() ==> #[trigger] all@[v] == clustering_of(
                graph_edges(*graph),
                v as usize,
            ),
        forall|v: int| 0 <= v < all@.len() ==> (#[trigger] all@[v]).links <= all@[v].pairs,
{
    let n = node_total(graph);
    let mut all: Vec<LocalClustering> = Vec::new();
    let mut v: usize = 0;
    while v < n
        invariant
            v <= n,
            n == graph_node_count(*graph),
            all@.len() == v,
            forall|u: int|
                0 <= u < v ==> #[trigger] all@[u] == clustering_of(graph_edges(*graph), u as usize),
            forall|u: int| 0 <= u < v ==> (#[trigger] all@[u]).links <= all@[u].pairs,
        decreases n - v,
    {
        let c = local_clustering(graph, v);
        all.push(c);
        v += 1;
    }
    all
}

} // verus!
