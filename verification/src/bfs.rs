//! Breadth-first search over an undirected graph: the hop distance between
//! two nodes, and the number of nodes within a bounded number of hops.

use crate::graph_model::{adjacent, graph_edges, graph_node_count, neighbors_of, node_total};
use crate::paths::{
    below, connected, hop_distance, is_distance, lemma_below_len, lemma_hop_distance,
    lemma_reach_monotone, lemma_within_monotone, reach_set, within,
};
use petgraph::graph::UnGraph;
use std::collections::VecDeque;
use vstd::prelude::*;

verus! {

/// The nodes that a marker array marks.
spec fn seen(visited: Seq<bool>) -> Set<usize> {
    Set::new(|v: usize| v < visited.len() && visited[v as int])
}

/// Every neighbor of `v` is marked, at most one level below `v`.
spec fn closed_at(edges: Seq<(usize, usize)>, visited: Seq<bool>, depth: Seq<u32>, v: usize) -> bool {
    forall|w: usize| #[trigger]
        adjacent(edges, v, w) ==> w < visited.len() && visited[w as int] && depth[w as int]
            <= depth[v as int] + 1
}

/// Every node within `bound` hops of `start` is marked, and no walk to it is
/// shorter than its recorded level.
spec fn settled(
    edges: Seq<(usize, usize)>,
    start: usize,
    visited: Seq<bool>,
    depth: Seq<u32>,
    bound: nat,
) -> bool {
    forall|v: usize, k: nat|
        k <= bound && #[trigger] within(edges, start, v, k) ==> v < visited.len()
            && visited[v as int] && depth[v as int] <= k
}

/// What holds of a search at every moment: `done` are the nodes already
/// expanded, `q` the frontier in the order of discovery.
spec fn common(
    edges: Seq<(usize, usize)>,
    start: usize,
    visited: Seq<bool>,
    depth: Seq<u32>,
    q: Seq<usize>,
    done: Set<usize>,
) -> bool {
    &&& visited.len() == depth.len()
    &&& visited.len() <= u32::MAX
    &&& start < visited.len()
    &&& visited[start as int]
    &&& depth[start as int] == 0
    &&& done.finite()
    &&& forall|v: usize| #[trigger]
        done.contains(v) ==> v < visited.len() && visited[v as int] && closed_at(
            edges,
            visited,
            depth,
            v,
        )
    &&& forall|j: int|
        0 <= j < q.len() ==> (#[trigger] q[j]) < visited.len() && visited[q[j] as int]
            && !done.contains(q[j])
    &&& forall|i: int, j: int| 0 <= i < j < q.len() ==> #[trigger] q[i] != #[trigger] q[j]
    &&& forall|v: usize|
        v < visited.len() && #[trigger] visited[v as int] ==> within(
            edges,
            start,
            v,
            depth[v as int] as nat,
        )
    &&& forall|i: int, j: int|
        0 <= i <= j < q.len() ==> depth[#[trigger] q[i] as int] <= depth[#[trigger] q[j] as int]
}

/// The state between two expansions.
spec fn steady(
    edges: Seq<(usize, usize)>,
    start: usize,
    visited: Seq<bool>,
    depth: Seq<u32>,
    q: Seq<usize>,
    done: Set<usize>,
) -> bool {
    &&& common(edges, start, visited, depth, q, done)
    &&& forall|v: usize|
        v < visited.len() && #[trigger] visited[v as int] ==> done.contains(v) || q.contains(v)
    &&& seen(visited).len() == done.len() + q.len()
    &&& forall|j: int|
        0 <= j < q.len() ==> depth[#[trigger] q[j] as int] <= depth[q[0] as int] + 1
    &&& forall|v: usize|
        q.len() > 0 && #[trigger] done.contains(v) ==> depth[v as int] <= depth[q[0] as int]
    &&& forall|j: int| 0 <= j < q.len() ==> depth[#[trigger] q[j] as int] <= done.len() + j
    &&& q.len() > 0 ==> settled(edges, start, visited, depth, depth[q[0] as int] as nat)
}

/// The state while the node `h`, taken from the frontier, is being expanded.
spec fn expanding(
    edges: Seq<(usize, usize)>,
    start: usize,
    visited: Seq<bool>,
    depth: Seq<u32>,
    q: Seq<usize>,
    done: Set<usize>,
    h: usize,
) -> bool {
    &&& common(edges, start, visited, depth, q, done)
    &&& h < visited.len()
    &&& visited[h as int]
    &&& !done.contains(h)
    &&& !q.contains(h)
    &&& forall|v: usize|
        v < visited.len() && #[trigger] visited[v as int] ==> done.contains(v) || q.contains(v)
            || v == h
    &&& seen(visited).len() == done.len() + 1 + q.len()
    &&& forall|j: int|
        0 <= j < q.len() ==> depth[h as int] <= depth[#[trigger] q[j] as int] <= depth[h as int]
            + 1
    &&& forall|v: usize| #[trigger] done.contains(v) ==> depth[v as int] <= depth[h as int]
    &&& depth[h as int] <= done.len()
    &&& forall|j: int| 0 <= j < q.len() ==> depth[#[trigger] q[j] as int] <= done.len() + 1 + j
    &&& settled(edges, start, visited, depth, depth[h as int] as nat)
}

proof fn lemma_seen_bound(visited: Seq<bool>)
    requires
        visited.len() <= usize::MAX,
    ensures
        seen(visited).finite(),
        seen(visited).len() <= visited.len(),
{
    lemma_below_len(visited.len());
    assert(seen(visited).subset_of(below(visited.len())));
    vstd::set_lib::lemma_len_subset(seen(visited), below(visited.len()));
}

proof fn lemma_seen_mark(visited: Seq<bool>, w: usize)
    requires
        visited.len() <= usize::MAX,
        w < visited.len(),
        !visited[w as int],
    ensures
        seen(visited.update(w as int, true)).len() == seen(visited).len() + 1,
{
    lemma_seen_bound(visited);
    assert(seen(visited.update(w as int, true)) =~= seen(visited).insert(w));
}

/// Taking the first node off the frontier starts its expansion.
proof fn lemma_take(
    edges: Seq<(usize, usize)>,
    start: usize,
    visited: Seq<bool>,
    depth: Seq<u32>,
    q: Seq<usize>,
    done: Set<usize>,
)
    requires
        steady(edges, start, visited, depth, q, done),
        q.len() > 0,
    ensures
        expanding(edges, start, visited, depth, q.subrange(1, q.len() as int), done, q[0]),
{
    let rest = q.subrange(1, q.len() as int);
    let h = q[0];
    assert forall|j: int| 0 <= j < rest.len() implies #[trigger] rest[j] == q[j + 1] by {}
    assert(common(edges, start, visited, depth, rest, done)) by {
        assert forall|i: int, j: int| 0 <= i <= j < rest.len() implies depth[#[trigger] rest[i] as int]
            <= depth[#[trigger] rest[j] as int] by {
            assert(rest[i] == q[i + 1] && rest[j] == q[j + 1]);
        }
        assert forall|i: int, j: int| 0 <= i < j < rest.len() implies #[trigger] rest[i]
            != #[trigger] rest[j] by {
            assert(rest[i] == q[i + 1] && rest[j] == q[j + 1]);
        }
    }
    if rest.contains(h) {
        let j = choose|j: int| 0 <= j < rest.len() && rest[j] == h;
        assert(q[j + 1] == q[0]);
    }
    assert forall|v: usize| v < visited.len() && #[trigger] visited[v as int] implies done.contains(
        v,
    ) || rest.contains(v) || v == h by {
        if !done.contains(v) && v != h {
            let j = choose|j: int| 0 <= j < q.len() && q[j] == v;
            assert(rest[j - 1] == v);
        }
    }
    assert forall|j: int| 0 <= j < rest.len() implies depth[h as int] <= depth[#[trigger] rest[j] as int]
        <= depth[h as int] + 1 by {
        assert(rest[j] == q[j + 1]);
    }
    assert forall|j: int| 0 <= j < rest.len() implies depth[#[trigger] rest[j] as int] <= done.len()
        + 1 + j by {
        assert(rest[j] == q[j + 1]);
    }
}

/// Marking an unmarked neighbor of `h` and appending it to the frontier
/// keeps the expansion of `h` going.
proof fn lemma_discover(
    edges: Seq<(usize, usize)>,
    start: usize,
    visited: Seq<bool>,
    depth: Seq<u32>,
    q: Seq<usize>,
    done: Set<usize>,
    h: usize,
    w: usize,
)
    requires
        expanding(edges, start, visited, depth, q, done, h),
        w < visited.len(),
        !visited[w as int],
        adjacent(edges, h, w),
    ensures
        depth[h as int] + 1 <= u32::MAX,
        expanding(
            edges,
            start,
            visited.update(w as int, true),
            depth.update(w as int, (depth[h as int] + 1) as u32),
            q.push(w),
            done,
            h,
        ),
{
    let d = depth[h as int];
    lemma_seen_bound(visited);
    lemma_seen_mark(visited, w);
    let level = (d + 1) as u32;
    let visited2 = visited.update(w as int, true);
    let depth2 = depth.update(w as int, level);
    let q2 = q.push(w);
    lemma_seen_bound(visited2);
    assert forall|j: int| 0 <= j < q.len() implies #[trigger] q[j] != w by {}
    assert forall|v: usize| #[trigger] done.contains(v) implies v < visited2.len()
        && visited2[v as int] && closed_at(edges, visited2, depth2, v) by {
        assert(closed_at(edges, visited, depth, v));
    }
    assert forall|v: usize| v < visited2.len() && #[trigger] visited2[v as int] implies within(
        edges,
        start,
        v,
        depth2[v as int] as nat,
    ) by {
        if v == w {
            assert(within(edges, start, h, d as nat));
            crate::paths::lemma_within_step(edges, start, h, w, d as nat);
        } else {
            assert(visited[v as int]);
        }
    }
    assert forall|i: int, j: int| 0 <= i <= j < q2.len() implies depth2[#[trigger] q2[i] as int]
        <= depth2[#[trigger] q2[j] as int] by {
        if j < q.len() {
            assert(q2[i] == q[i] && q2[j] == q[j]);
        } else if i < q.len() {
            assert(q2[i] == q[i]);
        }
    }
    assert forall|i: int, j: int| 0 <= i < j < q2.len() implies #[trigger] q2[i]
        != #[trigger] q2[j] by {
        if j < q.len() {
            assert(q2[i] == q[i] && q2[j] == q[j]);
        } else {
            assert(q2[i] == q[i]);
        }
    }
    assert forall|j: int| 0 <= j < q2.len() implies (#[trigger] q2[j]) < visited2.len()
        && visited2[q2[j] as int] && !done.contains(q2[j]) by {
        if j < q.len() {
            assert(q2[j] == q[j]);
        }
    }
    assert(common(edges, start, visited2, depth2, q2, done));
    if q2.contains(h) {
        let j = choose|j: int| 0 <= j < q2.len() && q2[j] == h;
        if j < q.len() {
            assert(q[j] == h);
        }
    }
    assert forall|v: usize| v < visited2.len() && #[trigger] visited2[v as int] implies done.contains(
        v,
    ) || q2.contains(v) || v == h by {
        if v == w {
            assert(q2[q.len() as int] == w);
        } else if !done.contains(v) && v != h {
            assert(visited[v as int]);
            let j = choose|j: int| 0 <= j < q.len() && q[j] == v;
            assert(q2[j] == v);
        }
    }
    assert forall|j: int| 0 <= j < q2.len() implies depth2[h as int] <= depth2[#[trigger] q2[j] as int]
        <= depth2[h as int] + 1 by {
        if j < q.len() {
            assert(q2[j] == q[j]);
        }
    }
    assert forall|j: int| 0 <= j < q2.len() implies depth2[#[trigger] q2[j] as int] <= done.len()
        + 1 + j by {
        if j < q.len() {
            assert(q2[j] == q[j]);
        }
    }
    assert(settled(edges, start, visited2, depth2, d as nat)) by {
        assert forall|v: usize, k: nat| k <= d && #[trigger] within(edges, start, v, k) implies v
            < visited2.len() && visited2[v as int] && depth2[v as int] <= k by {
            assert(visited[v as int]);
        }
    }
}

/// Once every node up to level `bound` has been expanded, every node within
/// `bound + 1` hops is marked.
proof fn lemma_level_up(
    edges: Seq<(usize, usize)>,
    start: usize,
    visited: Seq<bool>,
    depth: Seq<u32>,
    q: Seq<usize>,
    done: Set<usize>,
    bound: nat,
)
    requires
        common(edges, start, visited, depth, q, done),
        settled(edges, start, visited, depth, bound),
        forall|v: usize|
            v < visited.len() && #[trigger] visited[v as int] && depth[v as int] <= bound
                ==> done.contains(v),
    ensures
        settled(edges, start, visited, depth, bound + 1),
{
    assert forall|v: usize, k: nat| k <= bound + 1 && #[trigger] within(edges, start, v, k) implies v
        < visited.len() && visited[v as int] && depth[v as int] <= k by {
        if k == bound + 1 {
            if within(edges, start, v, bound) {
            } else {
                let c = choose|c: usize|
                    within(edges, start, c, bound) && #[trigger] adjacent(edges, c, v);
                assert(visited[c as int] && depth[c as int] <= bound);
                assert(done.contains(c));
                assert(closed_at(edges, visited, depth, c));
            }
        }
    }
}

/// When the frontier is empty, every node that can be reached at all is
/// marked.
proof fn lemma_exhausted(
    edges: Seq<(usize, usize)>,
    start: usize,
    visited: Seq<bool>,
    depth: Seq<u32>,
    done: Set<usize>,
    bound: nat,
)
    requires
        steady(edges, start, visited, depth, Seq::<usize>::empty(), done),
    ensures
        settled(edges, start, visited, depth, bound),
    decreases bound,
{
    let q = Seq::<usize>::empty();
    if bound == 0 {
        assert forall|v: usize, k: nat| k <= 0 && #[trigger] within(edges, start, v, k) implies v
            < visited.len() && visited[v as int] && depth[v as int] <= k by {}
    } else {
        lemma_exhausted(edges, start, visited, depth, done, (bound - 1) as nat);
        assert forall|v: usize|
            v < visited.len() && #[trigger] visited[v as int] && depth[v as int] <= bound
                - 1 implies done.contains(v) by {
            assert(!q.contains(v));
        }
        lemma_level_up(edges, start, visited, depth, q, done, (bound - 1) as nat);
    }
}

/// When all neighbors of `h` are marked, its expansion is over.
proof fn lemma_finish(
    edges: Seq<(usize, usize)>,
    start: usize,
    visited: Seq<bool>,
    depth: Seq<u32>,
    q: Seq<usize>,
    done: Set<usize>,
    h: usize,
)
    requires
        expanding(edges, start, visited, depth, q, done, h),
        closed_at(edges, visited, depth, h),
    ensures
        steady(edges, start, visited, depth, q, done.insert(h)),
{
    let done2 = done.insert(h);
    let d = depth[h as int];
    assert forall|j: int| 0 <= j < q.len() implies #[trigger] q[j] != h by {}
    assert(common(edges, start, visited, depth, q, done2));
    if q.len() > 0 {
        let top = depth[q[0] as int];
        if top == d {
        } else {
            assert(top == d + 1);
            assert forall|v: usize|
                v < visited.len() && #[trigger] visited[v as int] && depth[v as int]
                    <= d implies done2.contains(v) by {
                if q.contains(v) {
                    let j = choose|j: int| 0 <= j < q.len() && q[j] == v;
                    assert(depth[q[0] as int] <= depth[q[j] as int]);
                }
            }
            lemma_level_up(edges, start, visited, depth, q, done2, d as nat);
        }
    }
}

/// The bookkeeping of one breadth-first traversal.
struct Search {
    visited: Vec<bool>,
    depth: Vec<u32>,
    queue: VecDeque<usize>,
    done: Ghost<Set<usize>>,
}

impl Search {
    spec fn wf(&self, edges: Seq<(usize, usize)>, start: usize) -> bool {
        steady(edges, start, self.visited@, self.depth@, self.queue@, self.done@)
    }

    spec fn mid(&self, edges: Seq<(usize, usize)>, start: usize, h: usize) -> bool {
        expanding(edges, start, self.visited@, self.depth@, self.queue@, self.done@, h)
    }

    /// Marks `start` at level 0 and puts it on the frontier.
    fn begin(graph: &UnGraph<(), u32>, start: usize) -> (s: Search)
        requires
            start < graph_node_count(*graph),
        ensures
            s.wf(graph_edges(*graph), start),
            s.visited@.len() == graph_node_count(*graph),
            s.done@ == Set::<usize>::empty(),
    {
        let n = node_total(graph);
        let mut visited: Vec<bool> = Vec::new();
        let mut depth: Vec<u32> = Vec::new();
        let mut i: usize = 0;
        while i < n
            invariant
                i <= n,
                visited@.len() == i,
                depth@.len() == i,
                forall|j: int| 0 <= j < i ==> !visited@[j] && depth@[j] == 0,
            decreases n - i,
        {
            visited.push(false);
            depth.push(0);
            i += 1;
        }
        let mut queue: VecDeque<usize> = VecDeque::new();
        visited.set(start, true);
        queue.push_back(start);
        proof {
            let edges = graph_edges(*graph);
            assert(seen(visited@) =~= Set::<usize>::empty().insert(start));
            assert(queue@[0] == start);
            assert forall|v: usize, k: nat| k <= 0 && #[trigger] within(edges, start, v, k) implies v
                < visited@.len() && visited@[v as int] && depth@[v as int] <= k by {}
            assert forall|v: usize| v < visited@.len() && #[trigger] visited@[v as int] implies queue@.contains(
                v,
            ) by {
                assert(queue@[0] == v);
            }
        }
        Search { visited, depth, queue, done: Ghost(Set::empty()) }
    }

    /// Takes the oldest node off the frontier, if there is one.
    fn take(&mut self, Ghost(edges): Ghost<Seq<(usize, usize)>>, Ghost(start): Ghost<usize>) -> (r:
        Option<usize>)
        requires
            old(self).wf(edges, start),
        ensures
            final(self).visited@ == old(self).visited@,
            final(self).depth@ == old(self).depth@,
            final(self).done@ == old(self).done@,
            match r {
                None => old(self).queue@.len() == 0 && final(self).queue@.len() == 0,
                Some(h) => final(self).mid(edges, start, h),
            },
    {
        let r = self.queue.pop_front();
        proof {
            if r is Some {
                lemma_take(edges, start, self.visited@, self.depth@, old(self).queue@, self.done@);
            }
        }
        r
    }

    /// Marks every unmarked neighbor of `h` one level below `h` and appends
    /// it to the frontier.
    fn expand(&mut self, graph: &UnGraph<(), u32>, h: usize, Ghost(start): Ghost<usize>)
        requires
            old(self).mid(graph_edges(*graph), start, h),
            old(self).visited@.len() == graph_node_count(*graph),
        ensures
            final(self).wf(graph_edges(*graph), start),
            final(self).done@ == old(self).done@.insert(h),
            final(self).visited@.len() == old(self).visited@.len(),
            forall|v: usize|
                v < old(self).visited@.len() && #[trigger] old(self).visited@[v as int]
                    ==> final(self).visited@[v as int] && final(self).depth@[v as int] == old(
                    self,
                ).depth@[v as int],
    {
        let ghost edges = graph_edges(*graph);
        let ghost visited0 = self.visited@;
        let ghost depth0 = self.depth@;
        let level = self.depth[h];
        let list = neighbors_of(graph, h);
        let mut i: usize = 0;
        while i < list.len()
            invariant
                i <= list.len(),
                edges == graph_edges(*graph),
                self.mid(edges, start, h),
                self.depth@[h as int] == level,
                self.visited@.len() == graph_node_count(*graph),
                self.visited@.len() == visited0.len(),
                self.done@ == old(self).done@,
                forall|w: usize| #[trigger] list@.contains(w) <==> adjacent(edges, h, w),
                forall|j: int| 0 <= j < list@.len() ==> #[trigger] list@[j] < graph_node_count(*graph),
                forall|j: int|
                    0 <= j < i ==> self.visited@[#[trigger] list@[j] as int]
                        && self.depth@[list@[j] as int] <= level + 1,
                forall|v: usize|
                    v < visited0.len() && #[trigger] visited0[v as int] ==> self.visited@[v as int]
                        && self.depth@[v as int] == depth0[v as int],
            decreases list.len() - i,
        {
            let next = list[i];
            if !self.visited[next] {
                proof {
                    assert(list@.contains(next));
                    lemma_discover(
                        edges,
                        start,
                        self.visited@,
                        self.depth@,
                        self.queue@,
                        self.done@,
                        h,
                        next,
                    );
                }
                self.visited.set(next, true);
                self.depth.set(next, level + 1);
                self.queue.push_back(next);
            } else {
                proof {
                    assert(self.depth@[next as int] <= level + 1) by {
                        let q = self.queue@;
                        if self.done@.contains(next) {
                        } else if q.contains(next) {
                            let j = choose|j: int| 0 <= j < q.len() && q[j] == next;
                            assert(self.depth@[q[j] as int] <= level + 1);
                        }
                    }
                }
            }
            i += 1;
        }
        proof {
            assert(closed_at(edges, self.visited@, self.depth@, h)) by {
                assert forall|w: usize| #[trigger] adjacent(edges, h, w) implies w
                    < self.visited@.len() && self.visited@[w as int] && self.depth@[w as int]
                    <= self.depth@[h as int] + 1 by {
                    assert(list@.contains(w));
                    let j = choose|j: int| 0 <= j < list@.len() && list@[j] == w;
                    assert(self.visited@[list@[j] as int]);
                }
            }
            lemma_finish(edges, start, self.visited@, self.depth@, self.queue@, self.done@, h);
        }
        self.done = Ghost(self.done@.insert(h));
    }
}

/// The hop distance from `start` to `end`, or `None` when no walk joins them.
pub fn bfs_shortest_path(graph: &UnGraph<(), u32>, start: usize, end: usize) -> (r: Option<u32>)
    requires
        start < graph_node_count(*graph),
    ensures
        match r {
            Some(d) => is_distance(graph_edges(*graph), start, end, d as nat),
            None => !connected(graph_edges(*graph), start, end),
        },
        match r {
            Some(d) => hop_distance(graph_edges(*graph), start, end) == Some(d as nat),
            None => hop_distance(graph_edges(*graph), start, end) is None,
        },
        start == end ==> r == Some(0u32),
{
    let ghost edges = graph_edges(*graph);
    let mut search = Search::begin(graph, start);
    loop
        invariant
            edges == graph_edges(*graph),
            search.wf(edges, start),
            search.visited@.len() == graph_node_count(*graph),
            !search.done@.contains(end),
        decreases graph_node_count(*graph) - search.done@.len(),
    {
        let ghost before = search.done@;
        match search.take(Ghost(edges), Ghost(start)) {
            None => {
                proof {
                    assert(search.queue@ =~= Seq::<usize>::empty());
                    assert forall|k: nat| !within(edges, start, end, k) by {
                        lemma_exhausted(edges, start, search.visited@, search.depth@, search.done@, k);
                        if within(edges, start, end, k) {
                            assert(search.visited@[end as int]);
                            assert(!search.queue@.contains(end));
                        }
                    }
                    assert(within(edges, start, start, 0));
                }
                return None;
            },
            Some(node) => {
                let distance = search.depth[node];
                if node == end {
                    proof {
                        assert(within(edges, start, end, distance as nat));
                        assert forall|k: nat| k < distance implies !within(edges, start, end, k) by {}
                        lemma_hop_distance(edges, start, end, distance as nat);
                    }
                    return Some(distance);
                }
                search.expand(graph, node, Ghost(start));
                proof {
                    lemma_seen_bound(search.visited@);
                }
            },
        }
    }
}

/// The nodes of `done` whose level is at most `limit`.
spec fn near(done: Set<usize>, depth: Seq<u32>, limit: u32) -> Set<usize> {
    Set::new(|v: usize| done.contains(v) && depth[v as int] <= limit)
}

/// The number of nodes whose hop distance from `start` is at most
/// `max_depth`, `start` itself included.
pub fn bfs_reachability(graph: &UnGraph<(), u32>, start: usize, max_depth: u32) -> (count: u32)
    requires
        start < graph_node_count(*graph),
    ensures
        count == reach_set(graph_edges(*graph), start, max_depth as nat).len(),
        count >= 1,
{
    let ghost edges = graph_edges(*graph);
    let mut search = Search::begin(graph, start);
    let mut count: u32 = 0;
    proof {
        assert(near(search.done@, search.depth@, max_depth) =~= Set::<usize>::empty());
        lemma_seen_bound(search.visited@);
    }
    loop
        invariant
            edges == graph_edges(*graph),
            search.wf(edges, start),
            search.visited@.len() == graph_node_count(*graph),
            near(search.done@, search.depth@, max_depth).finite(),
            count == near(search.done@, search.depth@, max_depth).len(),
            count <= search.done@.len(),
            search.done@.len() <= search.visited@.len(),
        decreases graph_node_count(*graph) - search.done@.len(),
    {
        let ghost done0 = search.done@;
        let ghost depth0 = search.depth@;
        match search.take(Ghost(edges), Ghost(start)) {
            None => {
                proof {
                    let limit = max_depth as nat;
                    assert(search.queue@ =~= Seq::<usize>::empty());
                    lemma_exhausted(edges, start, search.visited@, search.depth@, search.done@, limit);
                    assert forall|v: usize|
                        near(search.done@, search.depth@, max_depth).contains(v) implies reach_set(
                        edges,
                        start,
                        limit,
                    ).contains(v) by {
                        assert(search.visited@[v as int]);
                        lemma_within_monotone(
                            edges,
                            start,
                            v,
                            search.depth@[v as int] as nat,
                            limit,
                        );
                    }
                    assert forall|v: usize|
                        reach_set(edges, start, limit).contains(v) implies near(
                        search.done@,
                        search.depth@,
                        max_depth,
                    ).contains(v) by {
                        assert(within(edges, start, v, limit));
                        assert(search.visited@[v as int]);
                        assert(!search.queue@.contains(v));
                    }
                    assert(reach_set(edges, start, limit) =~= near(
                        search.done@,
                        search.depth@,
                        max_depth,
                    ));
                    lemma_reach_monotone(edges, start, 0, limit);
                }
                return count;
            },
            Some(node) => {
                let level = search.depth[node];
                search.expand(graph, node, Ghost(start));
                proof {
                    lemma_seen_bound(search.visited@);
                    let old_near = near(done0, depth0, max_depth);
                    let new_near = near(search.done@, search.depth@, max_depth);
                    if level <= max_depth {
                        assert(new_near =~= old_near.insert(node));
                    } else {
                        assert(new_near =~= old_near);
                    }
                }
                if level <= max_depth {
                    count = count + 1;
                }
            },
        }
    }
}

} // verus!
