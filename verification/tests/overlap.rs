use hskclustering::graph::{Edge, Graph};
use hskclustering::overlap::edge_overlap_counts;

fn graph(tokens: &[&str], edges: &[(usize, usize)]) -> Graph {
    Graph {
        tokens: tokens.iter().map(|t| t.to_string()).collect(),
        edges: edges.iter().map(|&(u, v)| Edge { u, v }).collect(),
    }
}

#[test]
fn edges_are_matched_by_token_names_not_indices() {
    // Same named edge a-c is (0, 2) on the left and (0, 1) on the right.
    let left = graph(&["a", "b", "c"], &[(0, 1), (0, 2)]);
    let right = graph(&["a", "c", "d"], &[(0, 1), (1, 2)]);
    assert_eq!(edge_overlap_counts(&left, &right), (1, 3));
    assert_eq!(edge_overlap_counts(&right, &left), (1, 3));
}

#[test]
fn identical_and_disjoint_edge_sets() {
    let g = graph(&["x", "y", "z"], &[(0, 1), (0, 2), (1, 2)]);
    assert_eq!(edge_overlap_counts(&g, &g), (3, 3));
    let h = graph(&["p", "q"], &[(0, 1)]);
    assert_eq!(edge_overlap_counts(&g, &h), (0, 4));
    let empty = graph(&["p"], &[]);
    assert_eq!(edge_overlap_counts(&empty, &empty), (0, 0));
}

#[test]
fn induced_subgraph_shares_its_edges_with_the_whole() {
    let whole = graph(&["a", "b", "c", "d"], &[(0, 1), (1, 2), (2, 3)]);
    let (part, _) = whole.induced(&vec![1, 2, 3]);
    assert_eq!(edge_overlap_counts(&part, &whole), (2, 3));
}
