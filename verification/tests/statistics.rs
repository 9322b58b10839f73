use small_world::error::AnalysisError;
use small_world::statistics::{sum_of, Statistics, Summary};

fn collect(lengths: &[u32]) -> Statistics {
    let mut stats = Statistics::new();
    for &length in lengths {
        stats.add_length(length);
    }
    stats
}

fn mean(summary: &Summary) -> f64 {
    summary.sum as f64 / summary.count as f64
}

fn std_deviation(summary: &Summary) -> f64 {
    let mean = mean(summary);
    (summary.sum_squares as f64 / summary.count as f64 - mean * mean).sqrt()
}

#[test]
fn test_statistics_computation() {
    let mut stats = Statistics::new();
    stats.add_length(1);
    stats.add_length(2);
    stats.add_length(3);
    stats.add_length(4);
    stats.add_length(5);
    let summary = stats.compute().unwrap();
    let (mean, median, std_dev) = (mean(&summary), summary.median, std_deviation(&summary));
    assert_eq!(mean, 3.0);
    assert_eq!(median, 3);
    assert_eq!((std_dev * 1000.0).round() / 1000.0, 1.414);
}

#[test]
fn summary_holds_exact_sums() {
    let summary = collect(&[1, 2, 3, 4, 5]).compute().unwrap();
    assert_eq!(summary, Summary { count: 5, sum: 15, sum_squares: 55, median: 3 });
}

#[test]
fn median_of_an_even_count_is_truncated() {
    let summary = collect(&[1, 2, 3, 4]).compute().unwrap();
    assert_eq!(summary.median, 2);
    assert_eq!(collect(&[1, 2]).compute().unwrap().median, 1);
    assert_eq!(collect(&[7, 7]).compute().unwrap().median, 7);
}

#[test]
fn median_ranks_unsorted_lengths() {
    assert_eq!(collect(&[5, 1, 4, 2, 3]).compute().unwrap().median, 3);
    assert_eq!(collect(&[9, 1, 8, 2]).compute().unwrap().median, 5);
    assert_eq!(collect(&[4]).compute().unwrap().median, 4);
}

#[test]
fn median_of_large_values_does_not_overflow() {
    let summary = collect(&[u32::MAX, u32::MAX]).compute().unwrap();
    assert_eq!(summary.median, u32::MAX);
    assert_eq!(summary.sum, 2 * (u32::MAX as u128));
    assert_eq!(summary.sum_squares, 2 * (u32::MAX as u128) * (u32::MAX as u128));
}

#[test]
fn empty_statistics_are_an_error() {
    assert_eq!(Statistics::new().compute(), Err(AnalysisError::EmptySample));
}

#[test]
fn lengths_keep_insertion_order() {
    let stats = collect(&[3, 1, 2]);
    assert_eq!(stats.lengths(), &vec![3, 1, 2]);
    assert_eq!(stats.len(), 3);
    assert_eq!(Statistics::new().len(), 0);
}

#[test]
fn small_world_means_mean_at_most_six() {
    assert!(collect(&[6, 6, 6]).compute().unwrap().supports_small_world());
    assert!(collect(&[1, 11]).compute().unwrap().supports_small_world());
    assert!(!collect(&[6, 6, 7]).compute().unwrap().supports_small_world());
    assert!(collect(&[0]).compute().unwrap().supports_small_world());
    assert!(!collect(&[7]).compute().unwrap().supports_small_world());
}

#[test]
fn sum_of_adds_all_values() {
    assert_eq!(sum_of(&vec![]), 0);
    assert_eq!(sum_of(&vec![4, 3, 2]), 9);
    assert_eq!(sum_of(&vec![u32::MAX, u32::MAX, 1]), 2 * (u32::MAX as u128) + 1);
}

#[test]
fn error_messages_differ() {
    let parse = AnalysisError::Parse { line: 3 }.message();
    let empty = AnalysisError::EmptySample.message();
    assert_eq!(parse, "malformed edge line");
    assert_eq!(empty, "no connected pair was sampled");
}

#[test]
fn variance_follows_from_the_sums() {
    let lengths = [1u32, 2, 3, 4, 5];
    let summary = collect(&lengths).compute().unwrap();
    let count = summary.count as u128;
    let numerator = count * summary.sum_squares - summary.sum * summary.sum;
    assert_eq!(numerator, 50);
    let mean = mean(&summary);
    let direct: f64 =
        lengths.iter().map(|&x| (x as f64 - mean) * (x as f64 - mean)).sum::<f64>() / 5.0;
    assert_eq!(direct, numerator as f64 / (count * count) as f64);
    assert_eq!(direct, 2.0);
}
