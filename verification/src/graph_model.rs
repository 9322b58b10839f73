//! The mathematical model of an undirected `petgraph` graph, and the
//! trusted boundary through which the verified code reaches it.

use petgraph::graph::{Graph, NodeIndex, UnGraph};
use petgraph::Undirected;
use vstd::prelude::*;

verus! {

/// `petgraph::Undirected`, the marker of graphs whose edges have no
/// direction. It has no values.
#[verifier::external_type_specification]
#[verifier::external_body]
pub struct ExUndirected(Undirected);

/// `petgraph::graph::Graph`, carried as an opaque value: what it holds is
/// known only through `graph_node_count` and `graph_edges`.
#[verifier::external_type_specification]
#[verifier::external_body]
#[verifier::reject_recursive_types(N)]
#[verifier::reject_recursive_types(E)]
#[verifier::reject_recursive_types(Ty)]
#[verifier::reject_recursive_types(Ix)]
pub struct ExGraph<N, E, Ty, Ix>(Graph<N, E, Ty, Ix>);

/// The number of nodes of a graph. Nodes are the integers below it.
pub uninterp spec fn graph_node_count(g: Graph<(), u32, Undirected, u32>) -> nat;

/// The edges of a graph in the order of their edge indices, each as the pair
/// of node indices that it joins. While no edge is removed this is the order
/// in which the edges were added.
pub uninterp spec fn graph_edges(g: Graph<(), u32, Undirected, u32>) -> Seq<(usize, usize)>;

/// Whether the edge `e` joins the nodes `a` and `b`, in either direction.
pub open spec fn joins(e: (usize, usize), a: usize, b: usize) -> bool {
    (e.0 == a && e.1 == b) || (e.0 == b && e.1 == a)
}

/// The number of edges in `edges` that join `a` and `b`.
pub open spec fn link_count(edges: Seq<(usize, usize)>, a: usize, b: usize) -> nat
    decreases edges.len(),
{
    if edges.len() == 0 {
        0
    } else {
        link_count(edges.drop_last(), a, b) + if joins(edges.last(), a, b) {
            1nat
        } else {
            0nat
        }
    }
}

/// Whether some edge joins `a` and `b`.
pub open spec fn adjacent(edges: Seq<(usize, usize)>, a: usize, b: usize) -> bool {
    exists|i: int| 0 <= i < edges.len() && joins(#[trigger] edges[i], a, b)
}

/// Calls `Graph::new_undirected`, which builds a graph with no node and no
/// edge.
#[verifier::external_body]
pub(crate) fn empty_graph() -> (g: UnGraph<(), u32>)
    ensures
        graph_node_count(g) == 0,
        graph_edges(g) == Seq::<(usize, usize)>::empty(),
{
    UnGraph::new_undirected()
}

/// Calls `Graph::node_count`. With `u32` indices `add_node` refuses to grow a
/// graph beyond `u32::MAX` nodes, so the count is at most that.
#[verifier::external_body]
pub(crate) fn node_total(graph: &UnGraph<(), u32>) -> (n: usize)
    ensures
        n == graph_node_count(*graph),
        n <= u32::MAX,
{
    graph.node_count()
}

/// Calls `Graph::add_node`, which appends one node, leaves the edges alone
/// and returns the new node's index: the node count before the call. It
/// panics when the graph already holds `u32::MAX` nodes.
#[verifier::external_body]
pub(crate) fn push_node(graph: &mut UnGraph<(), u32>) -> (index: usize)
    requires
        graph_node_count(*old(graph)) < u32::MAX,
    ensures
        index == graph_node_count(*old(graph)),
        graph_node_count(*final(graph)) == graph_node_count(*old(graph)) + 1,
        graph_edges(*final(graph)) == graph_edges(*old(graph)),
{
    graph.add_node(()).index()
}

/// Calls `Graph::add_edge` with weight 1, which appends the edge `(a, b)` and
/// leaves the nodes alone. It panics when either node does not exist or the
/// graph already holds `u32::MAX` edges. Both nodes fit the `u32` index, so
/// `NodeIndex::new` keeps their values.
#[verifier::external_body]
pub(crate) fn push_edge(graph: &mut UnGraph<(), u32>, a: usize, b: usize)
    requires
        a < graph_node_count(*old(graph)),
        b < graph_node_count(*old(graph)),
        graph_node_count(*old(graph)) <= u32::MAX,
        graph_edges(*old(graph)).len() < u32::MAX,
    ensures
        graph_node_count(*final(graph)) == graph_node_count(*old(graph)),
        graph_edges(*final(graph)) == graph_edges(*old(graph)).push((a, b)),
{
    graph.add_edge(NodeIndex::new(a), NodeIndex::new(b), 1);
}

/// Calls `Graph::neighbors`, which for an undirected graph walks every edge
/// from or to `a` once (a self-loop once) and yields the node at its other
/// end, in no documented order: a node is listed as often as edges join it
/// with `a`, and a node that does not exist has no neighbors. Every node
/// yielded exists. `a` fits the `u32` index, so `NodeIndex::new` keeps its
/// value.
#[verifier::external_body]
pub(crate) fn neighbor_list(graph: &UnGraph<(), u32>, a: usize) -> (list: Vec<usize>)
    requires
        a <= u32::MAX,
    ensures
        forall|w: usize| #[trigger]
            list@.to_multiset().count(w) == link_count(graph_edges(*graph), a, w),
        forall|i: int| 0 <= i < list@.len() ==> #[trigger] list@[i] < graph_node_count(*graph),
{
    graph.neighbors(NodeIndex::new(a)).map(|n| n.index()).collect()
}

/// Two nodes are adjacent exactly when at least one edge joins them.
pub proof fn lemma_link_count_adjacent(edges: Seq<(usize, usize)>, a: usize, b: usize)
    ensures
        link_count(edges, a, b) > 0 <==> adjacent(edges, a, b),
    decreases edges.len(),
{
    if edges.len() > 0 {
        let rest = edges.drop_last();
        lemma_link_count_adjacent(rest, a, b);
        if adjacent(rest, a, b) {
            let i = choose|i: int| 0 <= i < rest.len() && joins(#[trigger] rest[i], a, b);
            assert(joins(edges[i], a, b));
        }
        if joins(edges.last(), a, b) {
            assert(joins(edges[edges.len() - 1], a, b));
        }
        if adjacent(edges, a, b) {
            let i = choose|i: int| 0 <= i < edges.len() && joins(#[trigger] edges[i], a, b);
            if i < rest.len() {
                assert(joins(rest[i], a, b));
            }
        }
    }
}

/// Adjacency does not depend on the direction in which it is asked.
pub proof fn lemma_adjacent_symmetric(edges: Seq<(usize, usize)>, a: usize, b: usize)
    ensures
        adjacent(edges, a, b) == adjacent(edges, b, a),
{
    if adjacent(edges, a, b) {
        let i = choose|i: int| 0 <= i < edges.len() && joins(#[trigger] edges[i], a, b);
        assert(joins(edges[i], b, a));
    }
    if adjacent(edges, b, a) {
        let i = choose|i: int| 0 <= i < edges.len() && joins(#[trigger] edges[i], b, a);
        assert(joins(edges[i], a, b));
    }
}

/// Calls the trusted neighbor walk and adds what follows from it: a node is
/// listed exactly when it is adjacent to `a`.
pub(crate) fn neighbors_of(graph: &UnGraph<(), u32>, a: usize) -> (list: Vec<usize>)
    requires
        a <= u32::MAX,
    ensures
        forall|w: usize| #[trigger]
            list@.to_multiset().count(w) == link_count(graph_edges(*graph), a, w),
        forall|w: usize| #[trigger] list@.contains(w) <==> adjacent(graph_edges(*graph), a, w),
        forall|i: int| 0 <= i < list@.len() ==> #[trigger] list@[i] < graph_node_count(*graph),
{
    let list = neighbor_list(graph, a);
    proof {
        assert forall|w: usize| #[trigger] list@.contains(w) <==> adjacent(
            graph_edges(*graph),
            a,
            w,
        ) by {
            vstd::seq_lib::to_multiset_contains(list@, w);
            lemma_link_count_adjacent(graph_edges(*graph), a, w);
        }
    }
    list
}

} // verus!
