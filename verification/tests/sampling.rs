use rand::rngs::StdRng;
use rand::SeedableRng;
use small_world::analysis::{analyze, analyze_with, assess, Config};
use small_world::error::AnalysisError;
use small_world::graph_manager::GraphManager;
use small_world::sampler::{
    draw_nodes, draw_pairs, path_lengths, reach_counts, sample_reachability, sample_shortest_paths,
};

fn built(text: &[&str]) -> GraphManager {
    let mut manager = GraphManager::new();
    let lines: Vec<String> = text.iter().map(|line| line.to_string()).collect();
    assert_eq!(manager.build_graph(&lines), Ok(()));
    manager
}

fn two_components() -> GraphManager {
    built(&["1 2", "2 3", "10 11"])
}

#[test]
fn drawn_nodes_come_from_the_population() {
    let mut rng = StdRng::seed_from_u64(7);
    let population = vec![4, 8, 15];
    let drawn = draw_nodes(&population, 200, &mut rng);
    assert_eq!(drawn.len(), 200);
    assert!(drawn.iter().all(|node| population.contains(node)));
    for node in &population {
        assert!(drawn.contains(node));
    }
    assert_eq!(draw_nodes(&population, 0, &mut rng), Vec::<usize>::new());
}

#[test]
fn drawn_pairs_come_from_the_population() {
    let mut rng = StdRng::seed_from_u64(7);
    let population = vec![0, 1, 2, 3];
    let drawn = draw_pairs(&population, 300, &mut rng);
    assert_eq!(drawn.len(), 300);
    assert!(drawn.iter().all(|(a, b)| population.contains(a) && population.contains(b)));
    assert!(drawn.iter().any(|(a, b)| a != b));
}

#[test]
fn the_same_seed_gives_the_same_draws() {
    let population: Vec<usize> = (0..50).collect();
    let one = draw_pairs(&population, 100, &mut StdRng::seed_from_u64(12345));
    let two = draw_pairs(&population, 100, &mut StdRng::seed_from_u64(12345));
    assert_eq!(one, two);
}

#[test]
fn path_lengths_drop_unconnected_pairs() {
    let manager = two_components();
    let pairs = vec![(0, 2), (0, 3), (3, 4), (4, 0), (1, 1), (2, 0)];
    let stats = path_lengths(&manager.graph, &pairs);
    assert_eq!(stats.lengths(), &vec![2, 1, 0, 2]);
    assert_eq!(path_lengths(&manager.graph, &vec![]).len(), 0);
}

#[test]
fn reach_counts_keep_every_start() {
    let manager = two_components();
    assert_eq!(reach_counts(&manager.graph, &vec![0, 3, 1, 4], 6), vec![3, 2, 3, 2]);
    assert_eq!(reach_counts(&manager.graph, &vec![0, 3, 1], 1), vec![2, 2, 3]);
    assert_eq!(reach_counts(&manager.graph, &vec![0, 3], 0), vec![1, 1]);
}

#[test]
fn two_components_scenario() {
    let manager = two_components();
    let nodes = manager.get_node_indices();
    let mut rng = StdRng::seed_from_u64(12345);
    let stats = sample_shortest_paths(&manager.graph, &nodes, 1000, &mut rng);
    assert!(stats.len() > 0);
    assert!(stats.len() < 1000);
    assert!(stats.lengths().iter().all(|&length| length <= 2));
    let counts = sample_reachability(&manager.graph, &nodes, 1000, 6, &mut rng);
    assert_eq!(counts.len(), 1000);
    assert!(counts.iter().all(|&count| count == 3 || count == 2));
    assert!(counts.contains(&3));
    assert!(counts.contains(&2));
}

#[test]
fn assessment_of_given_draws_is_exact() {
    let manager = two_components();
    let pairs = vec![(0, 2), (0, 3), (3, 4), (1, 1)];
    let starts = vec![0, 3, 4];
    let report = assess(&manager.graph, &pairs, &starts, 6).unwrap();
    assert_eq!(report.paths.count, 3);
    assert_eq!(report.paths.sum, 3);
    assert_eq!(report.paths.sum_squares, 5);
    assert_eq!(report.paths.median, 1);
    assert!(report.small_world);
    assert_eq!(report.reach_total, 7);
    assert_eq!(report.reach_samples, 3);
    assert_eq!(report.node_count, 5);
    assert_eq!(report.clustering.len(), 5);
    assert!(report.clustering.iter().all(|c| c.links == 0));
    assert_eq!(report.clustering[1].pairs, 1);
}

#[test]
fn assessment_without_a_connected_pair_is_an_error() {
    let manager = two_components();
    let result = assess(&manager.graph, &vec![(0, 3), (4, 1)], &vec![0], 6);
    assert_eq!(result.err(), Some(AnalysisError::EmptySample));
    let result = assess(&manager.graph, &vec![], &vec![0], 6);
    assert_eq!(result.err(), Some(AnalysisError::EmptySample));
}

#[test]
fn long_paths_are_no_small_world() {
    let manager = built(&["0 1", "1 2", "2 3", "3 4", "4 5", "5 6", "6 7", "7 8"]);
    let report = assess(&manager.graph, &vec![(0, 8), (0, 7)], &vec![0], 6).unwrap();
    assert_eq!(report.paths.sum, 15);
    assert!(!report.small_world);
    assert_eq!(report.reach_total, 7);
}

#[test]
fn analysis_of_an_empty_graph_is_an_error() {
    let manager = GraphManager::new();
    let result = analyze(&manager, &Config::standard());
    assert_eq!(result.err(), Some(AnalysisError::EmptySample));
}

#[test]
fn analysis_without_samples_is_an_error() {
    let manager = two_components();
    let config = Config { sample_count: 0, max_depth: 6, seed: 1 };
    assert_eq!(analyze(&manager, &config).err(), Some(AnalysisError::EmptySample));
}

#[test]
fn standard_configuration() {
    assert_eq!(Config::standard(), Config { sample_count: 1000, max_depth: 6, seed: 12345 });
}

#[test]
fn analysis_is_reproducible_for_a_seed() {
    let text = ["3 1", "1 4", "4 1", "5 9", "2 6", "5 3", "5 5", "8 9", "7 9", "20 21"];
    let one = analyze(&built(&text), &Config::standard()).unwrap();
    let two = analyze(&built(&text), &Config::standard()).unwrap();
    assert_eq!(one.paths, two.paths);
    assert_eq!(one.small_world, two.small_world);
    assert_eq!(one.reach_total, two.reach_total);
    assert_eq!(one.reach_samples, 1000);
    assert_eq!(one.node_count, two.node_count);
    assert_eq!(one.clustering, two.clustering);
    assert!(one.paths.count > 0 && one.paths.count <= 1000);
    assert!(one.reach_total >= 1000);
}

#[test]
fn analysis_with_a_generator_matches_the_seeded_one() {
    let manager = two_components();
    let config = Config { sample_count: 200, max_depth: 1, seed: 99 };
    let seeded = analyze(&manager, &config).unwrap();
    let mut rng = StdRng::seed_from_u64(99);
    let given = analyze_with(&manager.graph, 200, 1, &mut rng).unwrap();
    assert_eq!(seeded.paths, given.paths);
    assert_eq!(seeded.reach_total, given.reach_total);
}
