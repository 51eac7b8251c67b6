use odis::alternating::{
    build_alternating_cycle_adj, build_incompatibility_graph, find_circuits_in_realizer, is_strict_alternating_cycle,
    is_strict_cycle,
};
use odis::cycles::find_cycle_dfs;
use odis::hybrid::{check_cycle_involving, hybrid_backtrack, CycleBufs};
use odis::hyperedges::find_minimal_hyperedges;
use odis::poset::Poset;

/// The standard example S_3: minimal nodes 0..3, maximal 3..6, node i
/// below node 3 + j exactly when i != j.
fn standard_example() -> Poset<u8> {
    let mut edges = Vec::new();
    for i in 0..3u32 {
        for j in 0..3u32 {
            if i != j {
                edges.push((i, 3 + j));
            }
        }
    }
    Poset::from_covering_relation(vec![0u8; 6], edges).unwrap()
}

fn critical_pairs() -> Vec<(u32, u32)> {
    vec![(0, 3), (1, 4), (2, 5)]
}

#[test]
fn two_pairs_of_the_standard_example_form_a_strict_cycle() {
    let poset = standard_example();
    let pairs = critical_pairs();
    assert!(is_strict_cycle(&[0, 1], &pairs, &poset));
    assert!(is_strict_alternating_cycle(&[0, 1], &pairs, &poset));
    assert!(is_strict_cycle(&[2, 0], &pairs, &poset));
}

#[test]
fn three_pairs_of_the_standard_example_are_not_strict() {
    // Node 0 lies below both 4 and 5, not only below the next pair's second.
    let poset = standard_example();
    let pairs = critical_pairs();
    assert!(!is_strict_cycle(&[0, 1, 2], &pairs, &poset));
    assert!(!is_strict_alternating_cycle(&[0, 1, 2], &pairs, &poset));
}

#[test]
fn a_single_pair_is_no_cycle() {
    let poset = standard_example();
    let pairs = critical_pairs();
    assert!(!is_strict_cycle(&[0], &pairs, &poset));
    assert!(!is_strict_alternating_cycle(&[0], &pairs, &poset));
    assert!(!is_strict_cycle(&[], &pairs, &poset));
}

#[test]
fn repeated_elements_spoil_an_alternating_cycle() {
    let poset = standard_example();
    // The same pair twice repeats its first element.
    let pairs = vec![(0, 3), (0, 3)];
    assert!(!is_strict_alternating_cycle(&[0, 1], &pairs, &poset));
}

#[test]
fn every_pair_of_the_standard_example_leads_to_the_others() {
    let poset = standard_example();
    let adj = build_alternating_cycle_adj(&critical_pairs(), &poset);
    assert_eq!(adj, vec![vec![1, 2], vec![0, 2], vec![0, 1]]);
}

#[test]
fn opposite_pairs_are_incompatible() {
    let poset = standard_example();
    assert_eq!(build_incompatibility_graph(&critical_pairs(), &poset), Vec::<(usize, usize)>::new());
    let pairs = vec![(0, 3), (1, 4), (3, 0)];
    assert_eq!(build_incompatibility_graph(&pairs, &poset), vec![(0, 2)]);
}

#[test]
fn a_three_cycle_is_found_along_its_edges() {
    let adj = vec![vec![1], vec![2], vec![0]];
    let mut state = vec![0u8; 3];
    let mut parent = vec![usize::MAX; 3];
    let cycle = find_cycle_dfs(0, &adj, &mut state, &mut parent).unwrap();
    assert_eq!(cycle, vec![1, 2, 0]);
}

#[test]
fn an_acyclic_graph_has_no_cycle_and_ends_black() {
    let adj = vec![vec![1, 2], vec![2], vec![]];
    let mut state = vec![0u8; 3];
    let mut parent = vec![usize::MAX; 3];
    assert!(find_cycle_dfs(0, &adj, &mut state, &mut parent).is_none());
    assert_eq!(state, vec![2, 2, 2]);
    assert_eq!(parent, vec![usize::MAX, 0, 1]);
}

#[test]
fn a_colour_class_with_an_alternating_cycle_gives_circuits() {
    let poset = standard_example();
    let pairs = critical_pairs();
    assert_eq!(find_circuits_in_realizer(&pairs, &[0, 0, 1], 2, &poset), vec![(0, 1), (0, 1)]);
    assert_eq!(find_circuits_in_realizer(&pairs, &[0, 1, 2], 3, &poset), Vec::<(usize, usize)>::new());
}

#[test]
fn a_colour_class_with_a_strict_cycle_is_caught() {
    let poset = standard_example();
    let pairs = critical_pairs();
    let adj = build_alternating_cycle_adj(&pairs, &poset);
    let mut bufs = CycleBufs { path: Vec::new(), visited: vec![false; 3], seen_x: vec![false; 6], seen_y: vec![false; 6] };
    let colored = vec![true; 3];
    assert!(check_cycle_involving(0, 0, &vec![0, 0, 0], &colored, &adj, &pairs, &poset, &mut bufs));
    assert!(!check_cycle_involving(0, 0, &vec![0, 1, 1], &colored, &adj, &pairs, &poset, &mut bufs));
    assert!(!check_cycle_involving(0, 0, &vec![0, 0, 0], &vec![true, false, false], &adj, &pairs, &poset, &mut bufs));
}

#[test]
fn the_standard_example_needs_three_colours() {
    let poset = standard_example();
    let pairs = critical_pairs();
    let hg_adj = build_alternating_cycle_adj(&pairs, &poset);
    let graph_adj = vec![vec![1], vec![0], vec![]];
    let ordering = vec![0, 1, 2];
    let hints = vec![0, 0, 0];
    let mut bufs = CycleBufs { path: Vec::new(), visited: vec![false; 3], seen_x: vec![false; 6], seen_y: vec![false; 6] };

    let mut colors = vec![0usize; 3];
    let mut colored = vec![false; 3];
    assert!(!hybrid_backtrack(0, 2, &mut colors, &mut colored, &graph_adj, &hg_adj, &ordering, &hints, &pairs, &poset, &mut bufs));
    assert_eq!(colored, vec![false; 3]);

    let mut colors = vec![0usize; 3];
    let mut colored = vec![false; 3];
    assert!(hybrid_backtrack(0, 3, &mut colors, &mut colored, &graph_adj, &hg_adj, &ordering, &hints, &pairs, &poset, &mut bufs));
    assert_eq!(colors, vec![0, 1, 2]);
    assert_eq!(colored, vec![true; 3]);
}

fn diamond_poset() -> Poset<u32> {
    Poset::from_covering_relation(vec![0u32, 1, 2, 3], vec![(0, 1), (0, 2), (1, 3), (2, 3)]).unwrap()
}

#[test]
fn test_incompatibility_graph_diamond() {
    let p = diamond_poset();
    // The critical pairs of the diamond.
    let cp = vec![(1, 2), (2, 1)];
    let edges = build_incompatibility_graph(&cp, &p);
    // Diamond has 2 critical pairs (1,2) and (2,1), which are opposite
    // and thus incompatible
    assert!(!edges.is_empty(), "diamond should have incompatibility edges");
}

#[test]
fn test_incompatibility_graph_antichain() {
    // Antichain of 3 elements: 6 critical pairs, all opposite pairs
    // are incompatible
    let p = Poset::from_covering_relation(vec![0u32, 1, 2], vec![]).unwrap();
    let cp = vec![(0, 1), (0, 2), (1, 0), (1, 2), (2, 0), (2, 1)];
    assert_eq!(cp.len(), 6, "antichain should have 6 critical pairs");
    let edges = build_incompatibility_graph(&cp, &p);
    // 3 opposite pairs: (0,1)-(1,0), (0,2)-(2,0), (1,2)-(2,1)
    assert!(edges.len() >= 3, "antichain should have at least 3 edges (opposite pairs)");
}

#[test]
fn test_incompatibility_graph_s3() {
    // Standard example S₃: 3 critical pairs, no 2-alternating cycles
    let p = standard_example();
    let cp = critical_pairs();
    assert_eq!(cp.len(), 3, "S₃ should have 3 critical pairs");
    let edges = build_incompatibility_graph(&cp, &p);
    assert_eq!(edges.len(), 0, "S₃ critical pairs have no incompatibility edges");
}

#[test]
fn minimal_hyperedges_of_the_standard_example_are_its_three_strict_two_cycles() {
    let poset = standard_example();
    let pairs = critical_pairs();
    let hyperedges = find_minimal_hyperedges(&pairs, &poset);
    let mut sets: Vec<Vec<usize>> = hyperedges
        .iter()
        .map(|h| {
            let mut s = h.clone();
            s.sort();
            s
        })
        .collect();
    sets.sort();
    assert_eq!(sets, vec![vec![0, 1], vec![0, 2], vec![1, 2]]);
}

#[test]
fn fewer_than_two_pairs_give_no_hyperedges() {
    let poset = standard_example();
    assert!(find_minimal_hyperedges(&vec![(0, 3)], &poset).is_empty());
    assert!(find_minimal_hyperedges(&vec![], &poset).is_empty());
}

#[test]
fn a_chain_has_no_alternating_cycles() {
    let chain = Poset::from_covering_relation(vec![0u8; 3], vec![(0, 1), (1, 2)]).unwrap();
    // Pairs chosen among comparable elements never close a strict cycle here.
    let hyperedges = find_minimal_hyperedges(&vec![(2, 0), (1, 0)], &chain);
    assert!(hyperedges.is_empty());
}
