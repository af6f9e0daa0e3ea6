use hskclustering::selection::{improves, Change};
use hskclustering::selection::{distinct_metrics, pareto, pareto_panel, Relation, SelectionMetric};

fn ids(n: usize) -> Vec<String> {
    (0..n).map(|i| format!("c{i}")).collect()
}

/// Relations of every pair of candidates from scalar scores, one per metric.
fn relations(scores: &[Option<[f64; 7]>]) -> Vec<Vec<Vec<Relation>>> {
    scores
        .iter()
        .map(|b| {
            scores
                .iter()
                .map(|a| {
                    (0..7)
                        .map(|m| match (a, b) {
                            (Some(x), Some(y)) => {
                                if y[m] < x[m] {
                                    Relation::Below
                                } else if y[m] > x[m] {
                                    Relation::Above
                                } else if y[m] == x[m] {
                                    Relation::Equal
                                } else {
                                    Relation::Unordered
                                }
                            }
                            _ => Relation::Missing,
                        })
                        .collect()
                })
                .collect()
        })
        .collect()
}

#[test]
fn dominated_and_incomplete_candidates_leave_the_front() {
    let scores = [Some([0.5; 7]), Some([0.6; 7]), None, Some([0.7, 0.1, 0.1, 0.1, 0.1, 0.1, 0.1])];
    let front = pareto(&vec![true; 4], &vec![false; 4], &ids(4), &relations(&scores));
    assert_eq!(front, vec![1, 3]);
    let with_baseline = pareto(&vec![true; 4], &vec![true, false, false, false], &ids(4), &relations(&scores));
    assert_eq!(with_baseline, vec![0, 1, 3]);
    let invalid = pareto(&vec![true, false, true, true], &vec![false; 4], &ids(4), &relations(&scores));
    assert_eq!(invalid, vec![0, 3]);
}

#[test]
fn unordered_values_neither_block_nor_establish_domination() {
    // A value that is not a number compares neither way, so the other six
    // metrics decide.
    let scores = [Some([0.5; 7]), Some([f64::NAN, 0.9, 0.9, 0.9, 0.9, 0.9, 0.9])];
    assert_eq!(pareto(&vec![true; 2], &vec![false; 2], &ids(2), &relations(&scores)), vec![1]);
    let even = [Some([0.5; 7]), Some([f64::NAN, 0.5, 0.5, 0.5, 0.5, 0.5, 0.5])];
    assert_eq!(pareto(&vec![true; 2], &vec![false; 2], &ids(2), &relations(&even)), vec![0, 1]);
}

#[test]
fn policy_metrics_must_be_distinct() {
    assert!(distinct_metrics(&pareto_panel()));
    assert!(!distinct_metrics(&vec![SelectionMetric::Margin, SelectionMetric::Cohesion, SelectionMetric::Margin]));
    assert_eq!(pareto_panel().len(), 7);
}

#[test]
fn improvement_needs_a_gain_and_no_loss_beyond_tolerance() {
    assert!(improves(&vec![Change::Within, Change::Better]));
    assert!(!improves(&vec![Change::Within, Change::Within]));
    assert!(!improves(&vec![Change::Better, Change::Worse]));
    assert!(!improves(&vec![Change::Better, Change::Missing]));
    assert!(!improves(&vec![]));
}
