use odis::poset::{Poset, PosetError};

#[test]
fn test_from_covering_chain() {
    let p = Poset::from_covering_relation(vec![0usize, 1, 2], vec![(0, 1), (1, 2)]).unwrap();
    assert_eq!(p.covering_edges.len(), 2);
    assert!(p.transitive_edges.contains(&(0, 1)));
    assert!(p.transitive_edges.contains(&(1, 2)));
    assert!(p.transitive_edges.contains(&(0, 2)));
    assert_eq!(p.transitive_edges.len(), 3);
}

#[test]
fn test_from_covering_diamond() {
    let p = Poset::from_covering_relation(vec![0usize, 1, 2, 3], vec![(0, 1), (0, 2), (1, 3), (2, 3)]).unwrap();
    assert!(p.transitive_edges.contains(&(0, 3)));
    assert!(p.transitive_edges.contains(&(0, 1)));
    assert!(p.transitive_edges.contains(&(0, 2)));
    assert!(p.transitive_edges.contains(&(1, 3)));
    assert!(p.transitive_edges.contains(&(2, 3)));
}

#[test]
fn test_from_transitive_diamond() {
    let transitive = vec![(0u32, 1u32), (0, 2), (1, 3), (2, 3), (0, 3)];
    let p = Poset::from_transitive_relation(vec![0usize, 1, 2, 3], transitive).unwrap();
    let mut cov = p.covering_edges.clone();
    cov.sort();
    assert_eq!(cov, vec![(0, 1), (0, 2), (1, 3), (2, 3)]);
}

#[test]
fn test_cycle_detection() {
    let result = Poset::from_covering_relation(vec![0usize, 1], vec![(0, 1), (1, 0)]);
    assert_eq!(result.unwrap_err(), PosetError::Cycle);
}

#[test]
fn test_is_leq() {
    let p = Poset::from_covering_relation(vec![0usize, 1, 2, 3], vec![(0, 1), (0, 2), (1, 3), (2, 3)]).unwrap();
    assert!(p.is_leq(0, 3));
    assert!(p.is_leq(0, 0));
    assert!(!p.is_leq(1, 2));
    assert!(!p.is_leq(3, 0));
}

#[test]
fn test_covers() {
    let p = Poset::from_covering_relation(vec![0usize, 1, 2, 3], vec![(0, 1), (0, 2), (1, 3), (2, 3)]).unwrap();
    assert!(p.covers(0, 1));
    assert!(!p.covers(0, 3));
    assert!(!p.covers(1, 2));
}

#[test]
fn test_linear_extension() {
    let p = Poset::from_covering_relation(vec![0usize, 1, 2], vec![(0, 1), (1, 2)]).unwrap();
    let le = p.linear_extension().unwrap();
    assert_eq!(le, vec![0, 1, 2]);
}

#[test]
fn the_documented_chains_are_ordered() {
    let p = Poset::from_covering_relation(vec!["a", "b", "c"], vec![(0, 1), (1, 2)]).unwrap();
    assert_eq!(p.nodes.len(), 3);
    assert!(p.is_leq(0, 2));
    assert!(!p.is_leq(2, 0));
    let q = Poset::from_transitive_relation(vec!["a", "b", "c"], vec![(0, 1), (1, 2), (0, 2)]).unwrap();
    assert_eq!(q.covering_edges, vec![(0, 1), (1, 2)]);
}

#[test]
fn transitive_edges_come_sorted() {
    let p = Poset::from_covering_relation(vec![0usize, 1, 2, 3], vec![(2, 3), (1, 3), (0, 2), (0, 1)]).unwrap();
    assert_eq!(p.transitive_edges, vec![(0, 1), (0, 2), (0, 3), (1, 3), (2, 3)]);
}

#[test]
fn a_self_loop_is_a_cycle() {
    assert_eq!(Poset::from_covering_relation(vec![0usize], vec![(0, 0)]).unwrap_err(), PosetError::Cycle);
    assert_eq!(
        Poset::from_transitive_relation(vec![0usize, 1, 2], vec![(0, 1), (1, 2), (2, 0)]).unwrap_err(),
        PosetError::Cycle
    );
}

#[test]
fn kahn_takes_sources_first_and_successors_in_ascending_order() {
    let p = Poset::from_covering_relation(vec![0usize; 5], vec![(4, 1), (4, 0), (2, 3), (0, 3)]).unwrap();
    assert_eq!(p.linear_extension().unwrap(), vec![2, 4, 0, 1, 3]);
}

#[test]
fn the_static_extension_orders_a_raw_edge_set() {
    assert_eq!(Poset::<u8>::linear_extension_static(3, &[(2, 0), (0, 1)]), Some(vec![2, 0, 1]));
    assert_eq!(Poset::<u8>::linear_extension_static(2, &[(0, 1), (1, 0)]), None);
}
