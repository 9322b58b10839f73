//! Walks, hop distance and reachability over an edge list, as mathematics.

use crate::graph_model::{adjacent, lemma_adjacent_symmetric};
use vstd::prelude::*;

verus! {

/// Whether `b` can be reached from `a` along at most `k` edges.
pub open spec fn within(edges: Seq<(usize, usize)>, a: usize, b: usize, k: nat) -> bool
    decreases k,
{
    if k == 0 {
        a == b
    } else {
        within(edges, a, b, (k - 1) as nat) || exists|c: usize|
            within(edges, a, c, (k - 1) as nat) && #[trigger] adjacent(edges, c, b)
    }
}

/// Whether some walk leads from `a` to `b`.
pub open spec fn connected(edges: Seq<(usize, usize)>, a: usize, b: usize) -> bool {
    exists|k: nat| within(edges, a, b, k)
}

/// Whether `d` is the hop distance from `a` to `b`: the length of a shortest
/// walk between them.
pub open spec fn is_distance(edges: Seq<(usize, usize)>, a: usize, b: usize, d: nat) -> bool {
    &&& within(edges, a, b, d)
    &&& forall|k: nat| k < d ==> !within(edges, a, b, k)
}

/// The hop distance from `a` to `b`, if some walk joins them.
pub open spec fn hop_distance(edges: Seq<(usize, usize)>, a: usize, b: usize) -> Option<nat> {
    if connected(edges, a, b) {
        Some(choose|d: nat| is_distance(edges, a, b, d))
    } else {
        None
    }
}

/// The nodes whose hop distance from `a` is at most `k`.
pub open spec fn reach_set(edges: Seq<(usize, usize)>, a: usize, k: nat) -> Set<usize> {
    Set::new(|v: usize| within(edges, a, v, k))
}

/// A walk of at most `k` edges is also a walk of at most `m` edges for any
/// larger `m`.
pub proof fn lemma_within_monotone(edges: Seq<(usize, usize)>, a: usize, b: usize, k: nat, m: nat)
    requires
        within(edges, a, b, k),
        k <= m,
    ensures
        within(edges, a, b, m),
    decreases m,
{
    if k < m {
        lemma_within_monotone(edges, a, b, k, (m - 1) as nat);
    }
}

/// A walk can be extended at its far end by one edge.
pub proof fn lemma_within_step(edges: Seq<(usize, usize)>, a: usize, c: usize, b: usize, k: nat)
    requires
        within(edges, a, c, k),
        adjacent(edges, c, b),
    ensures
        within(edges, a, b, k + 1),
{
}

/// A walk can be extended at its near end by one edge.
pub proof fn lemma_within_prepend(edges: Seq<(usize, usize)>, a: usize, c: usize, b: usize, k: nat)
    requires
        adjacent(edges, a, c),
        within(edges, c, b, k),
    ensures
        within(edges, a, b, k + 1),
    decreases k,
{
    if k == 0 {
        assert(within(edges, a, a, 0));
        lemma_within_step(edges, a, a, b, 0);
    } else if within(edges, c, b, (k - 1) as nat) {
        lemma_within_prepend(edges, a, c, b, (k - 1) as nat);
        lemma_within_monotone(edges, a, b, k, k + 1);
    } else {
        let m = choose|m: usize|
            within(edges, c, m, (k - 1) as nat) && #[trigger] adjacent(edges, m, b);
        lemma_within_prepend(edges, a, c, m, (k - 1) as nat);
        lemma_within_step(edges, a, m, b, k);
    }
}

/// In an undirected graph a walk can be taken backwards.
pub proof fn lemma_within_symmetric(edges: Seq<(usize, usize)>, a: usize, b: usize, k: nat)
    ensures
        within(edges, a, b, k) == within(edges, b, a, k),
    decreases k,
{
    if k > 0 {
        let j = (k - 1) as nat;
        lemma_within_symmetric(edges, a, b, j);
        if within(edges, a, b, k) && !within(edges, a, b, j) {
            let c = choose|c: usize| within(edges, a, c, j) && #[trigger] adjacent(edges, c, b);
            lemma_within_symmetric(edges, a, c, j);
            lemma_adjacent_symmetric(edges, c, b);
            lemma_within_prepend(edges, b, c, a, j);
        }
        if within(edges, b, a, k) && !within(edges, b, a, j) {
            let c = choose|c: usize| within(edges, b, c, j) && #[trigger] adjacent(edges, c, a);
            lemma_within_symmetric(edges, b, c, j);
            lemma_adjacent_symmetric(edges, c, a);
            lemma_within_prepend(edges, a, c, b, j);
        }
        if within(edges, a, b, j) {
            lemma_within_monotone(edges, b, a, j, k);
            lemma_within_monotone(edges, a, b, j, k);
        }
    }
}

/// Every node is at distance 0 from itself, in every graph.
pub proof fn lemma_distance_to_self(edges: Seq<(usize, usize)>, a: usize)
    ensures
        is_distance(edges, a, a, 0),
{
}

/// Two nodes have at most one hop distance.
pub proof fn lemma_distance_unique(edges: Seq<(usize, usize)>, a: usize, b: usize, d: nat, e: nat)
    requires
        is_distance(edges, a, b, d),
        is_distance(edges, a, b, e),
    ensures
        d == e,
{
}

/// A distance that was found is the hop distance.
pub proof fn lemma_hop_distance(edges: Seq<(usize, usize)>, a: usize, b: usize, d: nat)
    requires
        is_distance(edges, a, b, d),
    ensures
        hop_distance(edges, a, b) == Some(d),
{
    let e = choose|e: nat| is_distance(edges, a, b, e);
    lemma_distance_unique(edges, a, b, d, e);
}

/// Hop distance and connectedness are the same in both directions: whatever
/// is the distance from `a` to `b` is the distance from `b` to `a`, and `b`
/// can be reached from `a` exactly when `a` can be reached from `b`.
pub proof fn lemma_distance_symmetric(edges: Seq<(usize, usize)>, a: usize, b: usize, d: nat)
    ensures
        is_distance(edges, a, b, d) == is_distance(edges, b, a, d),
        connected(edges, a, b) == connected(edges, b, a),
        hop_distance(edges, a, b) == hop_distance(edges, b, a),
{
    assert forall|k: nat| within(edges, a, b, k) == within(edges, b, a, k) by {
        lemma_within_symmetric(edges, a, b, k);
    }
    assert forall|e: nat| is_distance(edges, a, b, e) == is_distance(edges, b, a, e) by {
        assert forall|k: nat| within(edges, a, b, k) == within(edges, b, a, k) by {
            lemma_within_symmetric(edges, a, b, k);
        }
    }
    if connected(edges, a, b) {
        let k = choose|k: nat| within(edges, a, b, k);
        assert(within(edges, b, a, k));
        lemma_distance_exists(edges, a, b, k);
        let e = choose|e: nat| is_distance(edges, a, b, e);
        lemma_hop_distance(edges, a, b, e);
        lemma_hop_distance(edges, b, a, e);
    } else if connected(edges, b, a) {
        let k = choose|k: nat| within(edges, b, a, k);
        assert(within(edges, a, b, k));
    }
}

/// Two nodes that a walk joins have a hop distance.
pub proof fn lemma_distance_exists(edges: Seq<(usize, usize)>, a: usize, b: usize, k: nat)
    requires
        within(edges, a, b, k),
    ensures
        exists|d: nat| d <= k && is_distance(edges, a, b, d),
    decreases k,
{
    if k > 0 && within(edges, a, b, (k - 1) as nat) {
        lemma_distance_exists(edges, a, b, (k - 1) as nat);
    } else {
        assert forall|j: nat| j < k implies !within(edges, a, b, j) by {
            if within(edges, a, b, j) {
                lemma_within_monotone(edges, a, b, j, (k - 1) as nat);
            }
        }
        assert(is_distance(edges, a, b, k));
    }
}

/// The set of all `usize` values below `n`.
pub open spec fn below(n: nat) -> Set<usize> {
    Set::new(|v: usize| v < n)
}

/// There are exactly `n` machine integers below `n`.
pub proof fn lemma_below_len(n: nat)
    requires
        n <= usize::MAX + 1,
    ensures
        below(n).finite(),
        below(n).len() == n,
    decreases n,
{
    if n == 0 {
        assert(below(n) =~= Set::<usize>::empty());
    } else {
        lemma_below_len((n - 1) as nat);
        let last = (n - 1) as usize;
        assert(below(n) =~= below((n - 1) as nat).insert(last));
    }
}

/// A set of machine integers is finite.
pub proof fn lemma_usize_set_finite(s: Set<usize>)
    ensures
        s.finite(),
        s.len() <= usize::MAX + 1,
{
    let all = below((usize::MAX + 1) as nat);
    lemma_below_len((usize::MAX + 1) as nat);
    assert(s.subset_of(all));
    vstd::set_lib::lemma_len_subset(s, all);
}

/// The number of nodes within `k` hops of `a` never shrinks as `k` grows, and
/// is at least 1, since `a` itself is within 0 hops.
pub proof fn lemma_reach_monotone(edges: Seq<(usize, usize)>, a: usize, k: nat, m: nat)
    requires
        k <= m,
    ensures
        1 <= reach_set(edges, a, k).len() <= reach_set(edges, a, m).len(),
{
    let small = reach_set(edges, a, k);
    let large = reach_set(edges, a, m);
    lemma_usize_set_finite(small);
    lemma_usize_set_finite(large);
    assert forall|v: usize| small.contains(v) implies large.contains(v) by {
        lemma_within_monotone(edges, a, v, k, m);
    }
    vstd::set_lib::lemma_len_subset(small, large);
    lemma_within_monotone(edges, a, a, 0, k);
    assert(small.contains(a));
    if small.len() == 0 {
        small.lemma_len0_is_empty();
    }
}

} // verus!
