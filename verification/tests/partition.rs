use hskclustering::partition::{canonicalize, groups};

#[test]
fn canonical_labels_follow_first_appearance() {
    assert_eq!(canonicalize(&[7, 7, 3, 9, 3]), vec![0, 0, 1, 2, 1]);
    assert_eq!(canonicalize(&[]), Vec::<usize>::new());
}

#[test]
fn groups_list_members_in_token_order() {
    assert_eq!(groups(&[5, 2, 5, 2, 8]), vec![vec![0, 2], vec![1, 3], vec![4]]);
}
