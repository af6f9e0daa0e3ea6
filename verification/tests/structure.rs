use hskclustering::components::{community_components, component_roots, graph_components};
use hskclustering::graph::{Edge, Graph, GraphError};
use hskclustering::leiden::Partition;
use hskclustering::neighbors::{
    candidate_pairs, effective_scales, neighbor_counts, neighbor_rank, shared_neighbors, ScaleError,
};
use hskclustering::partition::AssignmentError;

fn graph(tokens: &[&str], edges: &[(usize, usize)]) -> Graph {
    Graph {
        tokens: tokens.iter().map(|s| s.to_string()).collect(),
        edges: edges.iter().map(|&(u, v)| Edge { u, v }).collect(),
    }
}

#[test]
fn validation_reports_the_first_broken_rule() {
    assert_eq!(graph(&[], &[]).validate(), Err(GraphError::Empty));
    assert_eq!(graph(&["b", "a"], &[]).validate(), Err(GraphError::UnsortedTokens));
    assert_eq!(graph(&["a", "a"], &[]).validate(), Err(GraphError::UnsortedTokens));
    assert_eq!(graph(&["", "a"], &[]).validate(), Err(GraphError::InvalidToken));
    assert_eq!(graph(&["a", "b\u{1}"], &[]).validate(), Err(GraphError::InvalidToken));
    assert_eq!(graph(&["a", "b"], &[(1, 0)]).validate(), Err(GraphError::InvalidEdge));
    assert_eq!(graph(&["a", "b"], &[(0, 2)]).validate(), Err(GraphError::InvalidEdge));
    assert_eq!(graph(&["a", "b", "c"], &[(1, 2), (0, 1)]).validate(), Err(GraphError::UnorderedEdges));
    assert_eq!(graph(&["a", "b", "c"], &[(0, 1), (0, 1)]).validate(), Err(GraphError::UnorderedEdges));
    assert_eq!(graph(&["a", "b", "c", "中"], &[(0, 1), (0, 2), (2, 3)]).validate(), Ok(()));
}

#[test]
fn degrees_and_adjacency_list_every_endpoint() {
    let g = graph(&["a", "b", "c", "d"], &[(0, 1), (0, 2), (1, 2)]);
    assert_eq!(g.degrees(), vec![2, 2, 2, 0]);
    assert_eq!(
        g.adjacency(),
        vec![vec![(1, 0), (2, 1)], vec![(0, 0), (2, 2)], vec![(0, 1), (1, 2)], vec![]]
    );
}

#[test]
fn components_are_found_within_communities() {
    let g = graph(&["a", "b", "c", "d", "e"], &[(0, 1), (1, 2), (3, 4)]);
    assert_eq!(graph_components(&g), vec![(0, 3), (3, 2)]);
    assert_eq!(component_roots(&g, &[0, 0, 0, 0, 0]), vec![0, 0, 0, 3, 3]);
    // Splitting b from its neighbours leaves a and c unconnected inside community 7.
    assert_eq!(component_roots(&g, &[7, 8, 7, 7, 7]), vec![0, 1, 2, 3, 3]);
    assert_eq!(community_components(&g, &[7, 8, 7, 7, 7]), Ok(vec![3, 1]));
    assert_eq!(community_components(&g, &[0, 0, 0, 1, 1]), Ok(vec![1, 1]));
    assert_eq!(
        community_components(&g, &[0, 0]),
        Err(AssignmentError::IncompleteAssignments)
    );
    let isolated = graph(&["x"], &[]);
    assert_eq!(graph_components(&isolated), vec![(0, 1)]);
}

#[test]
fn candidate_pairs_follow_union_or_mutual_neighbours() {
    // Three identical vectors with one neighbour each: a->b, b->a, c->a.
    let neighbors = vec![vec![1], vec![0], vec![0]];
    assert_eq!(candidate_pairs(&neighbors, false), vec![Edge { u: 0, v: 1 }, Edge { u: 0, v: 2 }]);
    assert_eq!(candidate_pairs(&neighbors, true), vec![Edge { u: 0, v: 1 }]);
    assert!(candidate_pairs(&vec![vec![], vec![]], false).is_empty());
}

#[test]
fn shared_neighbours_and_ranks() {
    assert_eq!(shared_neighbors(&vec![1, 2, 3], &vec![3, 4, 1]), 2);
    assert_eq!(shared_neighbors(&vec![1, 1, 2], &vec![1]), 1);
    assert_eq!(shared_neighbors(&vec![], &vec![1]), 0);
    assert_eq!(neighbor_rank(&vec![5, 2, 9], 9), Some(3));
    assert_eq!(neighbor_rank(&vec![5, 2, 9], 5), Some(1));
    assert_eq!(neighbor_rank(&vec![5, 2, 9], 4), None);
}

#[test]
fn effective_neighbour_counts_and_local_scales() {
    assert_eq!(effective_scales(3, 1, None), Ok((1, 1)));
    assert_eq!(effective_scales(3, 2, Some(1)), Ok((2, 1)));
    assert_eq!(effective_scales(100, 20, None), Ok((20, 7)));
    assert_eq!(effective_scales(1, 20, None), Ok((0, 0)));
    assert_eq!(effective_scales(3, 1, Some(2)), Err(ScaleError::ScaleTooLarge(1)));
    assert_eq!(effective_scales(0, 1, None), Err(ScaleError::EmptyInput));
}

#[test]
fn incoming_and_reciprocated_neighbours() {
    let neighbors = vec![vec![1, 2], vec![0], vec![1]];
    let counts = neighbor_counts(&neighbors);
    assert_eq!(counts.incoming, vec![1, 2, 1]);
    assert_eq!(counts.total, 4);
    // 0->1 and 1->0 reciprocate; 0->2 and 2->1 do not.
    assert_eq!(counts.reciprocated, 2);
}

#[test]
fn partition_bookkeeping_follows_moves() {
    let mass = vec![1, 2, 3, 4];
    let mut p = Partition::new(&mass, &vec![9, 9, 4, 9]);
    assert_eq!(p.labels, vec![0, 0, 1, 0]);
    assert_eq!(p.mass, vec![7, 3, 0, 0]);
    assert_eq!(p.count, vec![3, 1, 0, 0]);
    assert_eq!(p.first_empty(), Some(2));
    p.move_node(&mass, 2, 0);
    assert_eq!(p.labels, vec![0, 0, 0, 0]);
    assert_eq!(p.mass, vec![10, 0, 0, 0]);
    assert_eq!(p.count, vec![4, 0, 0, 0]);
    assert_eq!(p.first_empty(), Some(1));
    p.move_node(&mass, 3, 3);
    assert_eq!(p.count, vec![3, 0, 0, 1]);
    assert_eq!(p.mass, vec![6, 0, 0, 4]);
    assert_eq!(p.first_empty(), Some(1));
    p.move_node(&mass, 0, 1);
    assert_eq!(p.first_empty(), Some(2));
}

#[test]
fn weights_are_checked_edge_by_edge() {
    let g = Graph {
        tokens: vec!["a".to_string(), "b".to_string(), "c".to_string()],
        edges: vec![Edge { u: 0, v: 1 }, Edge { u: 0, v: 2 }, Edge { u: 2, v: 1 }],
    };
    assert_eq!(g.validate_weighted(&vec![true, false, true]), Err(GraphError::InvalidWeight));
    assert_eq!(g.validate_weighted(&vec![true, true, false]), Err(GraphError::InvalidEdge));
    let ordered = Graph { tokens: g.tokens.clone(), edges: vec![Edge { u: 0, v: 2 }, Edge { u: 0, v: 1 }] };
    assert_eq!(ordered.validate_weighted(&vec![true, false]), Err(GraphError::InvalidWeight));
    assert_eq!(ordered.validate_weighted(&vec![true, true]), Err(GraphError::UnorderedEdges));
    let fine = Graph { tokens: g.tokens.clone(), edges: vec![Edge { u: 0, v: 1 }, Edge { u: 1, v: 2 }] };
    assert_eq!(fine.validate_weighted(&vec![true, true]), Ok(()));
    let empty = Graph { tokens: vec![], edges: vec![] };
    assert_eq!(empty.validate_weighted(&vec![]), Err(GraphError::Empty));
}
