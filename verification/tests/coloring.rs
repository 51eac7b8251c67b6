use odis::coloring::{chromatic_number_exact, chromatic_number_heuristic, dsatur_with_ordering};

#[test]
fn test_chromatic_number_empty_graph() {
    let (k, colors) = chromatic_number_exact(0, &[]);
    assert_eq!(k, 0);
    assert!(colors.is_empty());
}

#[test]
fn test_chromatic_number_single_vertex() {
    let (k, colors) = chromatic_number_exact(1, &[]);
    assert_eq!(k, 1);
    assert_eq!(colors.len(), 1);
}

#[test]
fn test_chromatic_number_complete_graph() {
    let edges = vec![(0, 1), (0, 2), (1, 2)];
    let (k, _) = chromatic_number_exact(3, &edges);
    assert_eq!(k, 3);
}

#[test]
fn test_chromatic_number_path() {
    let edges = vec![(0, 1), (1, 2)];
    let (k, _) = chromatic_number_exact(3, &edges);
    assert_eq!(k, 2);
}

#[test]
fn test_dsatur_empty_graph() {
    let (k, colors) = chromatic_number_heuristic(0, &[]);
    assert_eq!(k, 0);
    assert!(colors.is_empty());
}

#[test]
fn test_dsatur_single_vertex() {
    let (k, colors) = chromatic_number_heuristic(1, &[]);
    assert_eq!(k, 1);
    assert_eq!(colors.len(), 1);
}

#[test]
fn test_dsatur_complete_graph() {
    let edges = vec![(0, 1), (0, 2), (1, 2)];
    let (k, _) = chromatic_number_heuristic(3, &edges);
    assert_eq!(k, 3);
}

#[test]
fn test_dsatur_path() {
    let edges = vec![(0, 1), (1, 2)];
    let (k, _) = chromatic_number_heuristic(3, &edges);
    assert_eq!(k, 2);
}

#[test]
fn test_dsatur_upper_bound() {
    let edges = vec![(0, 1), (0, 2), (1, 2)];
    let (exact_k, _) = chromatic_number_exact(3, &edges);
    let (heur_k, _) = chromatic_number_heuristic(3, &edges);
    assert!(heur_k >= exact_k);
}

#[test]
fn test_dsatur_cycle_5() {
    let edges = vec![(0, 1), (1, 2), (2, 3), (3, 4), (4, 0)];
    let (exact_k, _) = chromatic_number_exact(5, &edges);
    let (heur_k, _) = chromatic_number_heuristic(5, &edges);
    assert_eq!(exact_k, 3);
    assert!(heur_k >= exact_k, "DSatur ({}) < exact ({})", heur_k, exact_k);
}

fn is_proper(edges: &[(usize, usize)], colors: &[usize], k: usize) -> bool {
    colors.iter().all(|&c| c < k) && edges.iter().all(|&(u, v)| u == v || colors[u] != colors[v])
}

#[test]
fn exact_coloring_is_proper_and_uses_every_color_below_k() {
    let edges = vec![(0, 1), (1, 2), (2, 3), (3, 0), (0, 2)];
    let (k, colors) = chromatic_number_exact(4, &edges);
    assert_eq!(k, 3);
    assert!(is_proper(&edges, &colors, k));
}

#[test]
fn dsatur_colors_in_its_ordering_greedily() {
    let edges = vec![(0, 1), (1, 2), (2, 3), (3, 4), (4, 0)];
    let (k, colors, ordering) = dsatur_with_ordering(5, &edges);
    assert_eq!(ordering.len(), 5);
    let mut sorted = ordering.clone();
    sorted.sort();
    assert_eq!(sorted, vec![0, 1, 2, 3, 4]);
    assert!(is_proper(&edges, &colors, k));
    assert_eq!(k, colors.iter().copied().max().unwrap() + 1);
}

#[test]
fn self_loops_are_ignored_by_the_coloring() {
    let edges = vec![(0, 0), (0, 1)];
    let (k, colors) = chromatic_number_exact(2, &edges);
    assert_eq!(k, 2);
    assert_ne!(colors[0], colors[1]);
}
