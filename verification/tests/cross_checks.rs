use petgraph::graph::{NodeIndex, UnGraph};
use small_world::bfs::{bfs_reachability, bfs_shortest_path};
use small_world::clustering::local_clustering;

struct Lcg(u64);

impl Lcg {
    fn next(&mut self, bound: usize) -> usize {
        self.0 = self.0.wrapping_mul(6364136223846793005).wrapping_add(1442695040888963407);
        ((self.0 >> 33) as usize) % bound
    }
}

fn random_graph(nodes: usize, edges: usize, seed: u64) -> (UnGraph<(), u32>, Vec<Vec<bool>>) {
    let mut graph = UnGraph::<(), u32>::new_undirected();
    for _ in 0..nodes {
        graph.add_node(());
    }
    let mut joined = vec![vec![false; nodes]; nodes];
    let mut lcg = Lcg(seed);
    for _ in 0..edges {
        let a = lcg.next(nodes);
        let b = lcg.next(nodes);
        graph.add_edge(NodeIndex::new(a), NodeIndex::new(b), 1);
        joined[a][b] = true;
        joined[b][a] = true;
    }
    (graph, joined)
}

fn all_distances(joined: &[Vec<bool>]) -> Vec<Vec<Option<u32>>> {
    let n = joined.len();
    let mut distance = vec![vec![None; n]; n];
    for a in 0..n {
        for b in 0..n {
            if a == b {
                distance[a][b] = Some(0);
            } else if joined[a][b] {
                distance[a][b] = Some(1);
            }
        }
    }
    for k in 0..n {
        for a in 0..n {
            for b in 0..n {
                if let (Some(x), Some(y)) = (distance[a][k], distance[k][b]) {
                    if distance[a][b].map_or(true, |d| x + y < d) {
                        distance[a][b] = Some(x + y);
                    }
                }
            }
        }
    }
    distance
}

#[test]
fn distances_agree_with_all_pairs_search() {
    for seed in 0..6 {
        let (graph, joined) = random_graph(24, 20 + 4 * seed as usize, seed);
        let distance = all_distances(&joined);
        for a in 0..24 {
            for b in 0..24 {
                assert_eq!(bfs_shortest_path(&graph, a, b), distance[a][b]);
            }
        }
    }
}

#[test]
fn reachability_agrees_with_all_pairs_search() {
    for seed in 0..6 {
        let (graph, joined) = random_graph(24, 18 + 5 * seed as usize, seed + 100);
        let distance = all_distances(&joined);
        for a in 0..24 {
            for depth in 0..8 {
                let expected = distance[a].iter().filter(|d| d.map_or(false, |d| d <= depth)).count();
                assert_eq!(bfs_reachability(&graph, a, depth) as usize, expected);
            }
        }
    }
}

#[test]
fn clustering_agrees_with_counting_pairs() {
    for seed in 0..6 {
        let (graph, joined) = random_graph(16, 30 + 6 * seed as usize, seed + 200);
        for v in 0..16 {
            let neighbors: Vec<usize> = (0..16).filter(|&w| joined[v][w]).collect();
            let mut links = 0;
            let mut pairs = 0;
            for (i, &a) in neighbors.iter().enumerate() {
                for &b in &neighbors[i + 1..] {
                    pairs += 1;
                    if joined[a][b] {
                        links += 1;
                    }
                }
            }
            let c = local_clustering(&graph, v);
            assert_eq!((c.links, c.pairs), (links, pairs));
            assert!(c.links <= c.pairs);
        }
    }
}
