use hskclustering::levels::{aggregate_level, flatten};
use hskclustering::tally::nonsingleton_members;

#[test]
fn aggregation_sums_mass_and_gathers_sorted_originals() {
    // Five nodes refined into communities {0, 2}, {1, 4}, {3}.
    let mass = vec![1, 2, 3, 4, 5];
    let originals = vec![vec![7], vec![3, 1], vec![0], vec![2], vec![6, 4]];
    let refined = vec![0, 1, 0, 2, 1];
    let parent = vec![5, 9, 5, 9, 9];
    let coarse = aggregate_level(&mass, &originals, &refined, &parent);
    assert_eq!(coarse.mass, vec![4, 7, 4]);
    assert_eq!(coarse.originals, vec![vec![0, 7], vec![1, 3, 4, 6], vec![2]]);
    // Parents 5, 9, 9 become canonical labels 0, 1, 1.
    assert_eq!(coarse.labels, vec![0, 1, 1]);
    assert_eq!(coarse.mass.iter().sum::<usize>(), mass.iter().sum::<usize>());
}

#[test]
fn aggregation_relabels_refined_communities_by_first_appearance() {
    let coarse = aggregate_level(&vec![1, 1, 1], &vec![vec![0], vec![1], vec![2]], &vec![8, 3, 8], &vec![4, 4, 2]);
    assert_eq!(coarse.mass, vec![2, 1]);
    assert_eq!(coarse.originals, vec![vec![0, 2], vec![1]]);
    assert_eq!(coarse.labels, vec![0, 0]);
}

#[test]
fn flattening_reads_level_labels_back_onto_original_nodes() {
    let originals = vec![vec![0, 3], vec![1], vec![2, 4]];
    let labels = vec![6, 2, 6];
    assert_eq!(flatten(&originals, &labels, 5), vec![0, 1, 0, 0, 0]);
    let labels = vec![1, 0, 2];
    assert_eq!(flatten(&originals, &labels, 5), vec![0, 1, 2, 0, 2]);
}

#[test]
fn nonsingleton_members_counts_tokens_sharing_a_community() {
    let labels = vec![4, 4, 7, 9, 9, 9];
    assert_eq!(nonsingleton_members(&labels, &[0, 1, 2, 3]), 3);
    assert_eq!(nonsingleton_members(&labels, &[2]), 0);
    assert_eq!(nonsingleton_members(&labels, &[]), 0);
}
