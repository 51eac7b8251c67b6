use odis::lattice::Lattice;
use odis::poset::Poset;

fn diamond_lattice() -> Lattice<usize> {
    let poset = Poset::from_covering_relation(vec![0usize, 1, 2, 3], vec![(0, 1), (0, 2), (1, 3), (2, 3)]).unwrap();
    Lattice::from_poset(poset).unwrap()
}

#[test]
fn test_from_poset_diamond() {
    let l = diamond_lattice();
    assert_eq!(l.bottom, 0);
    assert_eq!(l.top, 3);
}

#[test]
fn test_join_diamond() {
    let l = diamond_lattice();
    assert_eq!(l.join(1, 2), 3);
    assert_eq!(l.join(0, 1), 1);
    assert_eq!(l.join(0, 0), 0);
    assert_eq!(l.join(0, 3), 3);
}

#[test]
fn test_meet_diamond() {
    let l = diamond_lattice();
    assert_eq!(l.meet(1, 2), 0);
    assert_eq!(l.meet(1, 3), 1);
    assert_eq!(l.meet(0, 3), 0);
}

#[test]
fn test_trivial_single_node() {
    let poset = Poset::from_covering_relation(vec![42usize], vec![]).unwrap();
    let l = Lattice::from_poset(poset).unwrap();
    assert_eq!(l.top, 0);
    assert_eq!(l.bottom, 0);
    assert_eq!(l.join(0, 0), 0);
    assert_eq!(l.meet(0, 0), 0);
}

#[test]
fn test_non_lattice_returns_none() {
    let poset = Poset::from_covering_relation(vec![0usize, 1], vec![]).unwrap();
    assert!(Lattice::from_poset(poset).is_none());
}

#[test]
fn an_empty_poset_is_no_lattice() {
    let poset = Poset::<u8>::from_covering_relation(vec![], vec![]).unwrap();
    assert!(Lattice::from_poset(poset).is_none());
}

#[test]
fn join_and_meet_commute() {
    let l = diamond_lattice();
    for a in 0..4u32 {
        for b in 0..4u32 {
            assert_eq!(l.join(a, b), l.join(b, a));
            assert_eq!(l.meet(a, b), l.meet(b, a));
            assert!(l.poset.is_leq(a, l.join(a, b)));
            assert!(l.poset.is_leq(l.meet(a, b), b));
        }
    }
}

#[test]
fn without_a_least_upper_bound_join_falls_back_to_the_top() {
    // 0, 1 below both 2 and 3, which are below 4; 0 and 1 have no least upper bound.
    let poset = Poset::from_covering_relation(
        vec![0usize; 6],
        vec![(5, 0), (5, 1), (0, 2), (0, 3), (1, 2), (1, 3), (2, 4), (3, 4)],
    )
    .unwrap();
    let l = Lattice::from_poset(poset).unwrap();
    assert_eq!(l.top, 4);
    assert_eq!(l.bottom, 5);
    assert_eq!(l.join(0, 1), 4);
    assert_eq!(l.meet(2, 3), 5);
}
