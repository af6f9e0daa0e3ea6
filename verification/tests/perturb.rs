use hskclustering::graph::{Edge, Graph};
use hskclustering::perturb::{cohort_shuffles, label_shuffles, remove_edges, subsample_indices};

fn graph(n: usize, edges: &[(usize, usize)]) -> Graph {
    Graph {
        tokens: (0..n).map(|i| format!("n{i}")).collect(),
        edges: edges.iter().map(|&(u, v)| Edge { u, v }).collect(),
    }
}

#[test]
fn subsamples_are_increasing_seeded_and_sized() {
    let a = subsample_indices(20, 18, 7);
    assert_eq!(a.len(), 18);
    assert!(a.windows(2).all(|w| w[0] < w[1]));
    assert!(a.iter().all(|&i| i < 20));
    assert_eq!(a, subsample_indices(20, 18, 7));
    assert_eq!(subsample_indices(5, 9, 1), vec![0, 1, 2, 3, 4]);
    assert!(subsample_indices(0, 1, 3).is_empty());
}

#[test]
fn edge_removal_keeps_tokens_and_order() {
    let g = graph(5, &[(0, 1), (0, 2), (1, 2), (2, 3), (3, 4)]);
    let (kept, positions) = remove_edges(&g, 2, 11);
    assert_eq!(kept.tokens, g.tokens);
    assert_eq!(positions.len(), 3);
    assert!(positions.windows(2).all(|w| w[0] < w[1]));
    for (edge, &p) in kept.edges.iter().zip(&positions) {
        assert_eq!(*edge, g.edges[p]);
    }
    let (same, _) = remove_edges(&g, 2, 11);
    assert_eq!(same.edges, kept.edges);
    let (none, positions) = remove_edges(&g, 10, 1);
    assert!(none.edges.is_empty() && positions.is_empty());
}

#[test]
fn induced_subgraphs_renumber_tokens() {
    let g = graph(5, &[(0, 1), (0, 2), (1, 2), (2, 3), (3, 4)]);
    let (sub, positions) = g.induced(&vec![1, 2, 4]);
    assert_eq!(sub.tokens, vec!["n1", "n2", "n4"]);
    assert_eq!(sub.edges, vec![Edge { u: 0, v: 1 }]);
    assert_eq!(positions, vec![2]);
}

#[test]
fn label_and_cohort_shuffles_are_permutations() {
    let labels = vec![0, 0, 1, 2, 2, 2];
    let shuffled = label_shuffles(&labels, &vec![1, 2, 3]);
    assert_eq!(shuffled.len(), 3);
    for s in &shuffled {
        let mut sorted = s.clone();
        sorted.sort();
        assert_eq!(sorted, labels);
    }
    assert_eq!(shuffled, label_shuffles(&labels, &vec![1, 2, 3]));
    let cohorts = cohort_shuffles(6, 4, 5, 60000);
    assert_eq!(cohorts.len(), 5);
    for (solver, perturbation) in &cohorts {
        let mut s = solver.clone();
        s.sort();
        assert_eq!(s, (0..6).collect::<Vec<_>>());
        let mut p = perturbation.clone();
        p.sort();
        assert_eq!(p, (0..4).collect::<Vec<_>>());
    }
}

#[test]
fn seeded_orders_move_items_and_depend_on_the_seed() {
    let labels: Vec<usize> = (0..20).collect();
    let shuffled = label_shuffles(&labels, &vec![7, 8]);
    assert_ne!(shuffled[0], labels);
    assert_ne!(shuffled[0], shuffled[1]);
    assert_eq!(shuffled[0], label_shuffles(&labels, &vec![7])[0]);
    let kept = subsample_indices(20, 10, 7);
    assert_ne!(kept, (0..10).collect::<Vec<_>>());
    assert_ne!(kept, subsample_indices(20, 10, 8));
    let edges: Vec<(usize, usize)> = (0..20).map(|i| (i, i + 1)).collect();
    let (_, positions) = remove_edges(&graph(21, &edges), 10, 7);
    assert_ne!(positions, (10..20).collect::<Vec<_>>());
    let cohorts = cohort_shuffles(8, 8, 3, 5);
    assert!(cohorts.iter().any(|(s, _)| *s != (0..8).collect::<Vec<_>>()));
    assert!(cohorts.iter().any(|(s, p)| s != p));
}

#[test]
fn edge_removal_removes_exactly_the_requested_count() {
    let edges: Vec<(usize, usize)> = (0..30).map(|i| (i, i + 1)).collect();
    let g = graph(31, &edges);
    for remove in [0, 1, 2, 15, 29, 30, 31, 100] {
        let (kept, positions) = remove_edges(&g, remove, 4);
        assert_eq!(positions.len(), 30 - remove.min(30));
        assert_eq!(kept.edges.len(), positions.len());
    }
}
