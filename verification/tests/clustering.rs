use small_world::clustering::{clustering_coefficients, local_clustering, LocalClustering};
use small_world::graph_manager::GraphManager;

fn built(text: &[&str]) -> GraphManager {
    let mut manager = GraphManager::new();
    let lines: Vec<String> = text.iter().map(|line| line.to_string()).collect();
    assert_eq!(manager.build_graph(&lines), Ok(()));
    manager
}

#[test]
fn triangle_is_fully_clustered() {
    let manager = built(&["0 1", "1 2", "2 0"]);
    for node in 0..3 {
        assert_eq!(local_clustering(&manager.graph, node), LocalClustering { links: 1, pairs: 1 });
    }
}

#[test]
fn star_has_no_links() {
    let manager = built(&["0 1", "0 2", "0 3", "0 4"]);
    assert_eq!(local_clustering(&manager.graph, 0), LocalClustering { links: 0, pairs: 6 });
    assert_eq!(local_clustering(&manager.graph, 1), LocalClustering { links: 0, pairs: 0 });
}

#[test]
fn partly_linked_neighbors() {
    let manager = built(&["0 1", "0 2", "0 3", "1 2", "3 4"]);
    assert_eq!(local_clustering(&manager.graph, 0), LocalClustering { links: 1, pairs: 3 });
    assert_eq!(local_clustering(&manager.graph, 1), LocalClustering { links: 1, pairs: 1 });
    assert_eq!(local_clustering(&manager.graph, 3), LocalClustering { links: 0, pairs: 1 });
    assert_eq!(local_clustering(&manager.graph, 4), LocalClustering { links: 0, pairs: 0 });
}

#[test]
fn fewer_than_two_neighbors_give_zero() {
    let manager = built(&["0 1", "2 2"]);
    assert_eq!(local_clustering(&manager.graph, 0), LocalClustering { links: 0, pairs: 0 });
    assert_eq!(local_clustering(&manager.graph, 1), LocalClustering { links: 0, pairs: 0 });
    assert_eq!(local_clustering(&manager.graph, 2), LocalClustering { links: 0, pairs: 0 });
}

#[test]
fn parallel_edges_count_once() {
    let manager = built(&["0 1", "0 1", "0 2", "2 0", "1 2", "2 1", "1 2"]);
    for node in 0..3 {
        assert_eq!(local_clustering(&manager.graph, node), LocalClustering { links: 1, pairs: 1 });
    }
}

#[test]
fn loops_on_neighbors_join_no_pair() {
    let manager = built(&["0 1", "0 2", "1 1", "2 2"]);
    assert_eq!(local_clustering(&manager.graph, 0), LocalClustering { links: 0, pairs: 1 });
}

#[test]
fn every_coefficient_is_between_zero_and_one() {
    let manager = built(&[
        "0 1", "0 2", "0 3", "1 2", "2 3", "3 4", "4 5", "5 3", "5 5", "0 1", "6 7", "7 6", "1 3",
    ]);
    let all = clustering_coefficients(&manager.graph);
    assert_eq!(all.len(), manager.node_count());
    for (node, c) in all.iter().enumerate() {
        assert!(c.links <= c.pairs);
        assert_eq!(*c, local_clustering(&manager.graph, node));
    }
    assert_eq!(all[0], LocalClustering { links: 3, pairs: 3 });
    assert_eq!(all[6], LocalClustering { links: 0, pairs: 0 });
}

#[test]
fn empty_graph_has_no_coefficient() {
    let manager = GraphManager::new();
    assert_eq!(clustering_coefficients(&manager.graph), Vec::<LocalClustering>::new());
}
