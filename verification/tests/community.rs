use hskclustering::community::{canonicalize_partition, PartitionError};

fn strings(items: &[&str]) -> Vec<String> {
    items.iter().map(|s| s.to_string()).collect()
}

#[test]
fn partition_is_sorted_within_and_across_communities() {
    let nodes = strings(&["a", "b", "c", "d", "isolate"]);
    let communities = vec![strings(&["isolate"]), strings(&["d", "c"]), strings(&["b", "a"])];
    assert_eq!(
        canonicalize_partition(&nodes, &communities),
        Ok(vec![strings(&["a", "b"]), strings(&["c", "d"]), strings(&["isolate"])])
    );
}

#[test]
fn partition_must_cover_every_node_once() {
    let nodes = strings(&["a", "b", "c"]);
    assert_eq!(
        canonicalize_partition(&nodes, &vec![strings(&["a"]), vec![], strings(&["zzz"])]),
        Err(PartitionError::EmptyCommunity)
    );
    assert_eq!(
        canonicalize_partition(&nodes, &vec![strings(&["a", "b"]), strings(&["b", "c"])]),
        Err(PartitionError::UnknownOrDuplicate("b".to_string()))
    );
    assert_eq!(
        canonicalize_partition(&nodes, &vec![strings(&["a", "zzz"])]),
        Err(PartitionError::UnknownOrDuplicate("zzz".to_string()))
    );
    assert_eq!(
        canonicalize_partition(&nodes, &vec![strings(&["c"])]),
        Err(PartitionError::Omitted(2))
    );
}
