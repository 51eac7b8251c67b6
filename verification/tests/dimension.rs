use odis::dimension::{get_var, hypergraph_coloring_solve};

fn no_edge_monochromatic(colors: &[usize], hyperedges: &[Vec<usize>]) -> bool {
    hyperedges.iter().all(|e| e.iter().any(|&v| colors[v] != colors[e[0]]))
}

#[test]
fn a_triangle_of_pair_edges_needs_three_colors() {
    let edges = vec![vec![0, 1], vec![1, 2], vec![0, 2]];
    assert_eq!(hypergraph_coloring_solve(3, &edges, 2), None);
    let colors = hypergraph_coloring_solve(3, &edges, 3).unwrap();
    assert_eq!(colors.len(), 3);
    assert!(colors.iter().all(|&c| c < 3));
    assert!(no_edge_monochromatic(&colors, &edges));
}

#[test]
fn a_hyperedge_of_three_is_broken_by_two_colors() {
    let edges = vec![vec![0, 1, 2]];
    assert_eq!(hypergraph_coloring_solve(3, &edges, 1), None);
    let colors = hypergraph_coloring_solve(3, &edges, 2).unwrap();
    assert!(no_edge_monochromatic(&colors, &edges));
    // The search tries colours in order, so the first vertices keep colour 0.
    assert_eq!(colors, vec![0, 0, 1]);
}

#[test]
fn no_vertices_and_no_colors() {
    assert_eq!(hypergraph_coloring_solve(0, &[], 0), Some(vec![]));
    assert_eq!(hypergraph_coloring_solve(2, &[], 0), None);
    assert_eq!(hypergraph_coloring_solve(2, &[], 1), Some(vec![0, 0]));
}

#[test]
fn a_singleton_hyperedge_cannot_be_colored() {
    assert_eq!(hypergraph_coloring_solve(2, &[vec![1]], 5), None);
}

#[test]
fn sat_variables_are_numbered_per_extension() {
    let pairs = vec![(0, 1), (2, 3), (1, 3)];
    assert_eq!(get_var(0, 1, &pairs, 3, 0), Some(1));
    assert_eq!(get_var(2, 3, &pairs, 3, 0), Some(2));
    assert_eq!(get_var(3, 1, &pairs, 3, 0), Some(-3));
    assert_eq!(get_var(1, 3, &pairs, 3, 2), Some(9));
    assert_eq!(get_var(3, 2, &pairs, 3, 1), Some(-5));
    assert_eq!(get_var(0, 2, &pairs, 3, 0), None);
}
