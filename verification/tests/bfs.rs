use petgraph::graph::UnGraph;
use small_world::bfs::{bfs_reachability, bfs_shortest_path};

fn path_graph(nodes: usize) -> UnGraph<(), u32> {
    let mut graph = UnGraph::<(), u32>::new_undirected();
    let mut previous = None;
    for _ in 0..nodes {
        let node = graph.add_node(());
        if let Some(before) = previous {
            graph.add_edge(before, node, 1);
        }
        previous = Some(node);
    }
    graph
}

#[test]
fn test_bfs_shortest_path() {
    let mut graph = UnGraph::<(), u32>::new_undirected();
    let n1 = graph.add_node(());
    let n2 = graph.add_node(());
    let n3 = graph.add_node(());
    graph.add_edge(n1, n2, 1);
    graph.add_edge(n2, n3, 1);
    assert_eq!(bfs_shortest_path(&graph, n1.index(), n3.index()), Some(2));
}

#[test]
fn test_bfs_reachability() {
    let mut graph = UnGraph::<(), u32>::new_undirected();
    let n1 = graph.add_node(());
    let n2 = graph.add_node(());
    let n3 = graph.add_node(());
    let n4 = graph.add_node(());
    graph.add_edge(n1, n2, 1);
    graph.add_edge(n2, n3, 1);
    graph.add_edge(n3, n4, 1);
    assert_eq!(bfs_reachability(&graph, n1.index(), 6), 4);
}

#[test]
fn shortest_path_to_self_is_zero() {
    let mut graph = path_graph(4);
    let lonely = graph.add_node(());
    for node in 0..5 {
        assert_eq!(bfs_shortest_path(&graph, node, node), Some(0));
    }
    assert_eq!(bfs_shortest_path(&graph, lonely.index(), lonely.index()), Some(0));
}

#[test]
fn shortest_path_is_symmetric() {
    let mut graph = path_graph(5);
    let a = graph.add_node(());
    let b = graph.add_node(());
    graph.add_edge(a, b, 1);
    graph.add_edge(petgraph::graph::NodeIndex::new(4), petgraph::graph::NodeIndex::new(1), 1);
    for from in 0..7 {
        for to in 0..7 {
            assert_eq!(
                bfs_shortest_path(&graph, from, to),
                bfs_shortest_path(&graph, to, from)
            );
        }
    }
    assert_eq!(bfs_shortest_path(&graph, 0, 4), Some(2));
    assert_eq!(bfs_shortest_path(&graph, 4, 0), Some(2));
    assert_eq!(bfs_shortest_path(&graph, 0, 3), Some(3));
}

#[test]
fn shortest_path_across_components_is_none() {
    let mut graph = path_graph(3);
    let a = graph.add_node(());
    let b = graph.add_node(());
    graph.add_edge(a, b, 1);
    assert_eq!(bfs_shortest_path(&graph, 0, a.index()), None);
    assert_eq!(bfs_shortest_path(&graph, b.index(), 2), None);
    assert_eq!(bfs_shortest_path(&graph, a.index(), b.index()), Some(1));
}

#[test]
fn shortest_path_to_a_missing_node_is_none() {
    let graph = path_graph(3);
    assert_eq!(bfs_shortest_path(&graph, 0, 3), None);
    assert_eq!(bfs_shortest_path(&graph, 0, usize::MAX), None);
}

#[test]
fn shortest_path_takes_the_shorter_way_round() {
    let mut graph = path_graph(6);
    graph.add_edge(petgraph::graph::NodeIndex::new(5), petgraph::graph::NodeIndex::new(0), 1);
    assert_eq!(bfs_shortest_path(&graph, 0, 5), Some(1));
    assert_eq!(bfs_shortest_path(&graph, 0, 4), Some(2));
    assert_eq!(bfs_shortest_path(&graph, 0, 3), Some(3));
    assert_eq!(bfs_shortest_path(&graph, 1, 4), Some(3));
}

#[test]
fn loops_and_parallel_edges_do_not_change_distances() {
    let mut graph = path_graph(3);
    let n0 = petgraph::graph::NodeIndex::new(0);
    let n1 = petgraph::graph::NodeIndex::new(1);
    graph.add_edge(n0, n0, 1);
    graph.add_edge(n0, n1, 1);
    graph.add_edge(n1, n0, 1);
    assert_eq!(bfs_shortest_path(&graph, 0, 2), Some(2));
    assert_eq!(bfs_reachability(&graph, 0, 1), 2);
    assert_eq!(bfs_reachability(&graph, 0, 2), 3);
}

#[test]
fn reachability_grows_with_depth() {
    let graph = path_graph(4);
    let counts: Vec<u32> = (0..6).map(|depth| bfs_reachability(&graph, 0, depth)).collect();
    assert_eq!(counts, vec![1, 2, 3, 4, 4, 4]);
    for pair in counts.windows(2) {
        assert!(pair[0] <= pair[1]);
    }
    for node in 0..4 {
        assert!(bfs_reachability(&graph, node, 0) == 1);
        assert!(bfs_reachability(&graph, node, u32::MAX) == 4);
    }
    assert_eq!(bfs_reachability(&graph, 1, 1), 3);
}

#[test]
fn reachability_stays_inside_the_component() {
    let mut graph = path_graph(3);
    let a = graph.add_node(());
    let b = graph.add_node(());
    graph.add_edge(a, b, 1);
    assert_eq!(bfs_reachability(&graph, 0, 6), 3);
    assert_eq!(bfs_reachability(&graph, a.index(), 6), 2);
    let lonely = graph.add_node(());
    assert_eq!(bfs_reachability(&graph, lonely.index(), 6), 1);
}
