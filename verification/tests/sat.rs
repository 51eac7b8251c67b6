use odis::poset::Poset;
use odis::sat::{build_transitivity_clauses, clauses_for_k, decode_sat_realizer, solve_for_k};

#[test]
fn the_clauses_for_two_extensions() {
    let base = vec![vec![1, -2]];
    let clauses = clauses_for_k(&base, 2, 2);
    assert_eq!(
        clauses,
        vec![vec![1, -2], vec![3, -4], vec![1, 3], vec![-1, -3], vec![2, 4], vec![-2, -4]]
    );
}

#[test]
fn one_extension_cannot_orient_a_pair_both_ways() {
    // Without base clauses, one extension must set and clear each variable.
    let empty: Vec<Vec<i32>> = Vec::new();
    assert!(solve_for_k(&empty, 1, 1).is_none());
    let model = solve_for_k(&empty, 1, 2).unwrap();
    assert!(model == vec![1, -2] || model == vec![-1, 2]);
}

#[test]
fn an_antichain_of_three_nodes_gives_transitivity_clauses() {
    let poset = Poset::from_covering_relation(vec![0u8; 3], vec![]).unwrap();
    let pairs = vec![(0, 1), (0, 2), (1, 2)];
    let clauses = build_transitivity_clauses(&poset, &pairs);
    assert_eq!(clauses, vec![vec![-2, 3, 1], vec![-1, -3, 2], vec![1, -2, 3]]);
}

#[test]
fn a_chain_rules_out_reversed_middle_steps() {
    // 0 < 1, and 2 incomparable with both.
    let poset = Poset::from_covering_relation(vec![0u8; 3], vec![(0, 1)]).unwrap();
    let pairs = vec![(0, 2), (1, 2)];
    let clauses = build_transitivity_clauses(&poset, &pairs);
    // From 0 < 1: not (1 before 2 and 2 before 0).
    assert!(clauses.contains(&vec![-2, 1]));
    let solved = solve_for_k(&clauses, 2, 2);
    assert!(solved.is_some());
}

#[test]
fn a_model_decodes_into_extensions() {
    // Two chains 0 < 1 and 2 < 3.
    let poset = Poset::from_covering_relation(vec![0u8; 4], vec![(0, 1), (2, 3)]).unwrap();
    let pairs = vec![(0, 2), (0, 3), (1, 2), (1, 3)];
    let model = vec![1, 2, 3, 4, -5, -6, -7, -8];
    let realizer = decode_sat_realizer(&poset, 2, &model, &pairs, 4);
    assert_eq!(realizer, vec![vec![0, 1, 2, 3], vec![2, 3, 0, 1]]);
}

#[test]
fn a_cyclic_orientation_decodes_into_index_order() {
    let poset = Poset::from_covering_relation(vec![0u8; 2], vec![(0, 1)]).unwrap();
    let realizer = decode_sat_realizer(&poset, 1, &[1], &[(1, 0)], 1);
    assert_eq!(realizer, vec![vec![0, 1]]);
}
