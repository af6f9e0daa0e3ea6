use hskclustering::agreement::contingency;
use hskclustering::partition::AssignmentError;
use hskclustering::ranking::top_entries_usize;
use hskclustering::tally::nearest_cumulative_bin;
use hskclustering::tally::{
    community_sizes, count_equal, degree_band, degree_histogram, quintile_boundaries, size_summary, SizeSummary,
};

#[test]
fn community_sizes_follow_canonical_labels() {
    assert_eq!(community_sizes(&[4, 4, 1, 4, 7]), vec![3, 1, 1]);
    assert!(community_sizes(&[]).is_empty());
}

#[test]
fn size_bands_count_communities_and_tokens() {
    let sizes = [1, 2, 3, 30, 31, 100, 101, 1, 250];
    assert_eq!(
        size_summary(&sizes),
        SizeSummary {
            communities: 9,
            largest: 250,
            singletons: 2,
            pairs: 1,
            tokens_in_3_to_30: 33,
            tokens_over_100: 351,
        }
    );
    assert_eq!(
        size_summary(&[]),
        SizeSummary { communities: 0, largest: 0, singletons: 0, pairs: 0, tokens_in_3_to_30: 0, tokens_over_100: 0 }
    );
}

#[test]
fn degree_histogram_counts_each_degree() {
    assert_eq!(degree_histogram(&[3, 1, 3, 0, 3, 1]), vec![(0, 1), (1, 2), (3, 3)]);
    assert!(degree_histogram(&[]).is_empty());
    assert_eq!(count_equal(&[3, 0, 1, 0], 0), 2);
}

#[test]
fn quintile_boundaries_and_bands() {
    let degrees: Vec<usize> = (0..11).rev().collect();
    assert_eq!(quintile_boundaries(&degrees), vec![2, 4, 6, 8]);
    assert_eq!(quintile_boundaries(&[5]), vec![5, 5, 5, 5]);
    let bounds = [2, 4, 6, 8];
    assert_eq!(degree_band(&bounds, 0), 1);
    assert_eq!(degree_band(&bounds, 2), 1);
    assert_eq!(degree_band(&bounds, 3), 2);
    assert_eq!(degree_band(&bounds, 9), 5);
    // Tied degrees stay in the lower band.
    assert_eq!(degree_band(&[1, 1, 1, 1], 1), 1);
}

#[test]
fn top_entries_rank_by_count_then_name() {
    let entries: Vec<(String, usize)> = vec![("b".into(), 3), ("a".into(), 3), ("c".into(), 5), ("d".into(), 1)];
    assert_eq!(
        top_entries_usize(&entries, 3),
        vec![("c".to_string(), 5), ("a".to_string(), 3), ("b".to_string(), 3)]
    );
    assert!(top_entries_usize(&entries, 0).is_empty());
    assert_eq!(top_entries_usize(&entries, 10).len(), 4);
}

#[test]
fn contingency_ignores_label_identities() {
    let c = contingency(&[0, 0, 1, 1], &[8, 8, 3, 3]).unwrap();
    assert_eq!(c.left, vec![2, 2]);
    assert_eq!(c.right, vec![2, 2]);
    assert_eq!(c.joint, vec![(0, 0, 2), (1, 1, 2)]);
    let crossed = contingency(&[0, 0, 1, 1], &[0, 1, 0, 1]).unwrap();
    assert_eq!(crossed.joint, vec![(0, 0, 1), (0, 1, 1), (1, 0, 1), (1, 1, 1)]);
    assert_eq!(contingency(&[0], &[0, 1]).unwrap_err(), AssignmentError::IncompleteAssignments);
}

#[test]
fn threshold_bin_has_the_cumulative_count_nearest_the_target() {
    let histogram = vec![0, 2, 3, 1];
    assert_eq!(nearest_cumulative_bin(&histogram, 4), (2, vec![6, 6, 4, 1]));
    // Bins 0, 1 and 2 are all one edge away from 5: the highest wins.
    assert_eq!(nearest_cumulative_bin(&histogram, 5).0, 2);
    assert_eq!(nearest_cumulative_bin(&histogram, 0).0, 3);
    assert_eq!(nearest_cumulative_bin(&vec![0], 7), (0, vec![0]));
}
