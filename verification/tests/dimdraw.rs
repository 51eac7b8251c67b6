use odis::dimdraw::{
    automorphisms, get_bit, group_pairs_by_orbit, incomparable_pairs, linear_order_matrix,
    random_linear_extension, reaches, transitive_closure, DimDraw, Rng,
};
use odis::dimdraw_search::{prepare_search, run_search};
use odis::SearchBudget;

fn diamond_edges() -> Vec<(u32, u32)> {
    vec![(0, 1), (0, 2), (1, 3), (2, 3)]
}

#[test]
fn the_generator_is_xorshift() {
    let mut rng = Rng(1);
    assert_eq!(rng.next_u64(), 1082269761);
    let mut rng = Rng(0x2545_F491_4F6C_DD1D);
    assert_eq!(rng.next_u64(), 9181757771948286951);
    assert_eq!(rng.0, 9181757771948286951);
    assert_eq!(rng.next_u64(), 16460966181113277408);
    let mut rng = Rng(0x2545_F491_4F6C_DD1D);
    assert_eq!(rng.below(7), 6);
}

#[test]
fn the_closure_of_a_diamond() {
    let c = transitive_closure(4, 1, &diamond_edges()).unwrap();
    assert_eq!(c.len(), 4);
    for (u, v, expected) in [
        (0, 1, true),
        (0, 2, true),
        (0, 3, true),
        (1, 3, true),
        (2, 3, true),
        (1, 2, false),
        (2, 1, false),
        (3, 0, false),
        (0, 0, false),
    ] {
        assert_eq!(reaches(&c, 1, u, v), expected, "{u} {v}");
        assert_eq!(get_bit(&c, 1, u, v), expected);
    }
}

#[test]
fn a_cycle_or_a_stray_edge_has_no_closure() {
    assert!(transitive_closure(3, 1, &[(0, 1), (1, 2), (2, 0)]).is_none());
    assert!(transitive_closure(3, 1, &[(0, 5)]).is_none());
    assert!(transitive_closure(3, 1, &[(1, 1)]).is_none());
}

#[test]
fn a_closure_spans_several_words() {
    // A chain of 70 nodes needs two words per row.
    let edges: Vec<(u32, u32)> = (0..69).map(|i| (i, i + 1)).collect();
    let c = transitive_closure(70, 2, &edges).unwrap();
    assert_eq!(c.len(), 140);
    assert!(reaches(&c, 2, 0, 69));
    assert!(reaches(&c, 2, 3, 65));
    assert!(!reaches(&c, 2, 65, 3));
}

#[test]
fn incomparable_pairs_come_most_constrained_first() {
    let c = transitive_closure(4, 1, &diamond_edges()).unwrap();
    assert_eq!(incomparable_pairs(4, 1, &c), vec![(1, 2)]);
    // Only 2 < 3: nodes 0 and 1 have three partners, 2 and 3 two each.
    let c = transitive_closure(4, 1, &[(2, 3)]).unwrap();
    assert_eq!(incomparable_pairs(4, 1, &c), vec![(0, 1), (0, 2), (0, 3), (1, 2), (1, 3)]);
}

#[test]
fn a_linear_order_as_a_matrix() {
    let m = linear_order_matrix(&[2, 0, 1], 3, 1);
    assert!(get_bit(&m, 1, 2, 0) && get_bit(&m, 1, 2, 1) && get_bit(&m, 1, 0, 1));
    assert!(!get_bit(&m, 1, 0, 2) && !get_bit(&m, 1, 1, 0) && !get_bit(&m, 1, 1, 2));
}

#[test]
fn random_extensions_respect_the_order() {
    let edges = vec![(0, 1), (0, 2), (1, 3), (2, 3), (3, 4), (5, 4)];
    let c = transitive_closure(6, 1, &edges).unwrap();
    let mut rng = Rng(0x2545_F491_4F6C_DD1D);
    for _ in 0..20 {
        let order = random_linear_extension(6, 1, &c, &mut rng);
        assert_eq!(order.len(), 6);
        let pos: Vec<usize> = (0..6).map(|x| order.iter().position(|&y| y == x).unwrap()).collect();
        for &(u, v) in &edges {
            assert!(pos[u as usize] < pos[v as usize]);
        }
    }
}

#[test]
fn collected_maps_preserve_the_order() {
    let c = transitive_closure(4, 1, &diamond_edges()).unwrap();
    let maps = automorphisms(4, 1, &c);
    assert_eq!(maps, vec![vec![0, 2, 1, 3]]);
    // An antichain of three has all five non-identity permutations.
    let c = transitive_closure(3, 1, &[]).unwrap();
    let maps = automorphisms(3, 1, &c);
    assert_eq!(maps.len(), 5);
    for map in &maps {
        for u in 0..3 {
            for v in 0..3 {
                if u != v {
                    assert_eq!(reaches(&c, 1, u, v), reaches(&c, 1, map[u], map[v]));
                }
            }
        }
    }
}

#[test]
fn pairs_of_one_orbit_end_up_together() {
    // Two chains 0 < 1 and 2 < 3: swapping them maps (0, 2) to itself,
    // (0, 3) to (1, 2).
    let c = transitive_closure(4, 1, &[(0, 1), (2, 3)]).unwrap();
    let mut pairs = incomparable_pairs(4, 1, &c);
    let maps = automorphisms(4, 1, &c);
    assert!(!maps.is_empty());
    let before = pairs.clone();
    group_pairs_by_orbit(&mut pairs, 4, &maps);
    assert_eq!(pairs.len(), before.len());
    for p in &before {
        assert!(pairs.contains(p));
    }
    let at = |p: (usize, usize)| pairs.iter().position(|&q| q == p).unwrap();
    assert_eq!((at((0, 3)) as isize - at((1, 2)) as isize).abs(), 1);
}

#[test]
fn the_search_finds_a_drawing_without_agreements_for_a_diamond() {
    let setup = prepare_search(4, &diamond_edges()).unwrap();
    assert_eq!(setup.pairs, vec![(1, 2)]);
    let start = std::time::Instant::now();
    let result = run_search(&setup, &[0, 1, 2, 3], &[0, 1, 2, 3], 1, false, SearchBudget::Unbounded, start);
    assert_eq!(result.best_cost, 0);
    assert!(!result.timed_out);
    // Bottom highest count of nodes above: node 0 stands lowest in both.
    assert_eq!(result.heights_first[0], 0);
    assert_eq!(result.heights_second[0], 0);
    assert_eq!(result.heights_first[3], 3);
    assert_ne!(result.heights_first[1], result.heights_second[1]);
}

#[test]
fn the_result_is_never_worse_than_the_incumbent() {
    // Two chains of three: the optimum has one agreement at least among the
    // nine incomparable pairs.
    let edges = vec![(0, 1), (1, 2), (3, 4), (4, 5)];
    let setup = prepare_search(6, &edges).unwrap();
    let start = std::time::Instant::now();
    let first = [0, 1, 2, 3, 4, 5];
    let second = [3, 4, 5, 0, 1, 2];
    let seeded = run_search(&setup, &first, &second, 9, true, SearchBudget::Unbounded, start);
    assert!(seeded.best_cost <= 9);
    let blind = run_search(&setup, &first, &second, 9, false, SearchBudget::Unbounded, start);
    assert_eq!(seeded.best_cost, blind.best_cost);
    assert_eq!(blind.best_cost, 0);
}

#[test]
fn a_cyclic_order_cannot_be_searched() {
    assert!(prepare_search(3, &[(0, 1), (1, 2), (2, 0)]).is_none());
}

#[test]
fn the_default_drawing_budget() {
    let d = DimDraw::default();
    assert_eq!(d.budget, SearchBudget::Milliseconds(1000));
}
