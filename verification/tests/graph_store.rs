use small_world::bfs::{bfs_reachability, bfs_shortest_path};
use small_world::error::AnalysisError;
use small_world::graph_manager::GraphManager;

fn lines(text: &[&str]) -> Vec<String> {
    text.iter().map(|line| line.to_string()).collect()
}

fn built(text: &[&str]) -> GraphManager {
    let mut manager = GraphManager::new();
    assert_eq!(manager.build_graph(&lines(text)), Ok(()));
    manager
}

fn sorted(mut list: Vec<usize>) -> Vec<usize> {
    list.sort();
    list
}

#[test]
fn new_store_is_empty() {
    let manager = GraphManager::new();
    assert_eq!(manager.node_count(), 0);
    assert_eq!(manager.get_node_indices(), Vec::<usize>::new());
    assert_eq!(manager.graph.edge_count(), 0);
    assert_eq!(manager.index_of(0), None);
}

#[test]
fn indices_follow_first_seen_order() {
    let manager = built(&["10 20", "20 30", "5 10"]);
    assert_eq!(manager.node_count(), 4);
    assert_eq!(manager.index_of(10), Some(0));
    assert_eq!(manager.index_of(20), Some(1));
    assert_eq!(manager.index_of(30), Some(2));
    assert_eq!(manager.index_of(5), Some(3));
    assert_eq!(manager.index_of(0), None);
    assert_eq!(manager.get_node_indices(), vec![0, 1, 2, 3]);
}

#[test]
fn edges_join_the_resolved_indices() {
    let manager = built(&["10 20", "20 30", "5 10"]);
    assert_eq!(manager.graph.edge_count(), 3);
    assert_eq!(sorted(manager.neighbors(0)), vec![1, 3]);
    assert_eq!(sorted(manager.neighbors(1)), vec![0, 2]);
    assert_eq!(sorted(manager.neighbors(2)), vec![1]);
    assert_eq!(sorted(manager.neighbors(3)), vec![0]);
    assert_eq!(manager.neighbors(4), Vec::<usize>::new());
    assert_eq!(manager.neighbors(usize::MAX), Vec::<usize>::new());
}

#[test]
fn repeated_pairs_add_parallel_edges() {
    let manager = built(&["1 2", "1 2", "2 1", "2 2"]);
    assert_eq!(manager.node_count(), 2);
    assert_eq!(manager.graph.edge_count(), 4);
    assert_eq!(sorted(manager.neighbors(0)), vec![1, 1, 1]);
    assert_eq!(sorted(manager.neighbors(1)), vec![0, 0, 0, 1]);
}

#[test]
fn path_graph_scenario() {
    let manager = built(&["1 2", "2 3", "3 4"]);
    let first = manager.index_of(1).unwrap();
    let last = manager.index_of(4).unwrap();
    assert_eq!(bfs_shortest_path(&manager.graph, first, last), Some(3));
    assert_eq!(bfs_reachability(&manager.graph, first, 6), 4);
    assert_eq!(bfs_shortest_path(manager.graph(), last, first), Some(3));
}

#[test]
fn malformed_line_is_reported_and_nothing_is_added() {
    let mut manager = GraphManager::new();
    let result = manager.build_graph(&lines(&["1 2", "2 3", "oops", "4 5", "bad"]));
    assert_eq!(result, Err(AnalysisError::Parse { line: 2 }));
    assert_eq!(manager.node_count(), 0);
    assert_eq!(manager.graph.edge_count(), 0);
    assert_eq!(manager.index_of(1), None);
}

#[test]
fn blank_line_is_malformed() {
    let mut manager = built(&["1 2"]);
    let result = manager.build_graph(&lines(&["2 3", ""]));
    assert_eq!(result, Err(AnalysisError::Parse { line: 1 }));
    assert_eq!(manager.node_count(), 2);
    assert_eq!(manager.graph.edge_count(), 1);
    assert_eq!(manager.index_of(3), None);
}

#[test]
fn building_twice_extends_the_store() {
    let mut manager = built(&["7 8"]);
    assert_eq!(manager.build_graph(&lines(&["8 9", "7 9"])), Ok(()));
    assert_eq!(manager.node_count(), 3);
    assert_eq!(manager.index_of(7), Some(0));
    assert_eq!(manager.index_of(8), Some(1));
    assert_eq!(manager.index_of(9), Some(2));
    assert_eq!(sorted(manager.neighbors(2)), vec![0, 1]);
}

#[test]
fn no_lines_build_an_empty_graph() {
    let manager = built(&[]);
    assert_eq!(manager.node_count(), 0);
}

#[test]
fn rebuilding_gives_the_same_store() {
    let text = ["3 1", "1 4", "4 1", "5 9", "2 6", "5 3", "5 5", "8 9", "7 9"];
    let one = built(&text);
    let two = built(&text);
    assert_eq!(one.node_count(), two.node_count());
    assert_eq!(one.get_node_indices(), two.get_node_indices());
    for id in 0..12 {
        assert_eq!(one.index_of(id), two.index_of(id));
    }
    for node in one.get_node_indices() {
        assert_eq!(sorted(one.neighbors(node)), sorted(two.neighbors(node)));
        for other in two.get_node_indices() {
            assert_eq!(
                bfs_shortest_path(&one.graph, node, other),
                bfs_shortest_path(&two.graph, node, other)
            );
        }
        assert_eq!(bfs_reachability(&one.graph, node, 2), bfs_reachability(&two.graph, node, 2));
    }
}

#[test]
fn store_from_lines() {
    let manager = GraphManager::from_lines(&lines(&["4 2", "2 9"])).ok().unwrap();
    assert_eq!(manager.node_count(), 3);
    assert_eq!(manager.index_of(4), Some(0));
    assert_eq!(manager.index_of(2), Some(1));
    assert_eq!(manager.index_of(9), Some(2));
    assert_eq!(sorted(manager.neighbors(1)), vec![0, 2]);
    let refused = GraphManager::from_lines(&lines(&["4 2", "2"]));
    assert_eq!(refused.err(), Some(AnalysisError::Parse { line: 1 }));
}
