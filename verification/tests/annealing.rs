use odis::annealing::{anneal, search_with_incumbent};
use odis::dimdraw::{random_linear_extension, transitive_closure, Rng};
use odis::dimdraw_search::prepare_search;
use odis::formal_context::{crosses_fit, FormalContext};
use odis::SearchBudget;

/// The "2+2": two incomparable chains of two nodes each.
fn two_chains() -> Vec<(u32, u32)> {
    vec![(0, 1), (2, 3)]
}

/// The standard example S_3: minimal elements 0..3, maximal 3..6, each
/// minimal one below all maximal ones but its own.
fn standard_example() -> Vec<(u32, u32)> {
    let mut edges = Vec::new();
    for i in 0..3u32 {
        for j in 0..3u32 {
            if i != j {
                edges.push((i, 3 + j));
            }
        }
    }
    edges
}

fn position(order: &[usize], x: usize) -> usize {
    order.iter().position(|&y| y == x).unwrap()
}

fn agreements(pairs: &[(usize, usize)], first: &[usize], second: &[usize]) -> u32 {
    pairs
        .iter()
        .filter(|&&(u, v)| (position(first, u) < position(first, v)) == (position(second, u) < position(second, v)))
        .count() as u32
}

fn is_extension(order: &[usize], n: usize, edges: &[(u32, u32)]) -> bool {
    let mut seen = order.to_vec();
    seen.sort();
    seen == (0..n).collect::<Vec<_>>()
        && edges.iter().all(|&(u, v)| position(order, u as usize) < position(order, v as usize))
}

#[test]
fn annealing_returns_two_extensions_and_their_count() {
    for (n, edges) in [(4usize, two_chains()), (6, standard_example())] {
        let setup = prepare_search(n, &edges).unwrap();
        let (first, second, cost) = anneal(&setup, &|_: u64, _: u64, _: u64| true, &|| false);
        assert!(is_extension(&first, n, &edges));
        assert!(is_extension(&second, n, &edges));
        assert_eq!(cost, agreements(&setup.pairs, &first, &second));
    }
}

#[test]
fn annealing_without_uphill_moves_still_counts_exactly() {
    let setup = prepare_search(6, &standard_example()).unwrap();
    let (first, second, cost) = anneal(&setup, &|_: u64, _: u64, _: u64| false, &|| false);
    assert_eq!(cost, agreements(&setup.pairs, &first, &second));
}

#[test]
fn annealing_stopped_at_once_keeps_its_first_pair() {
    let setup = prepare_search(4, &two_chains()).unwrap();
    let (first, second, cost) = anneal(&setup, &|_: u64, _: u64, _: u64| true, &|| true);
    assert!(is_extension(&first, 4, &two_chains()));
    assert!(is_extension(&second, 4, &two_chains()));
    assert_eq!(cost, agreements(&setup.pairs, &first, &second));
}

#[test]
fn two_chains_need_no_agreement() {
    // The 2+2 has dimension two: a pair of extensions disagrees on every
    // incomparable pair.
    let setup = prepare_search(4, &two_chains()).unwrap();
    let (result, baseline) = search_with_incumbent(&setup, true, SearchBudget::Unbounded, &|_: u64, _: u64, _: u64| true);
    assert_eq!(result.best_cost, 0);
    assert!(result.best_cost <= baseline);
    assert_eq!(result.heights_first.len(), 4);
    assert_eq!(result.heights_second.len(), 4);
}

#[test]
fn the_standard_example_needs_an_agreement() {
    // S_3 has dimension three: no two extensions realize it.
    let setup = prepare_search(6, &standard_example()).unwrap();
    let (seeded, baseline) = search_with_incumbent(&setup, true, SearchBudget::Unbounded, &|_: u64, _: u64, _: u64| true);
    let (blind, _) = search_with_incumbent(&setup, false, SearchBudget::Unbounded, &|_: u64, _: u64, _: u64| true);
    assert!(seeded.best_cost >= 1);
    assert!(seeded.best_cost <= baseline);
    assert_eq!(seeded.best_cost, blind.best_cost);
}

#[test]
fn random_extensions_of_an_order_hold_every_node() {
    let closure = transitive_closure(6, 1, &standard_example()).unwrap();
    let mut rng = Rng(7);
    for _ in 0..10 {
        let order = random_linear_extension(6, 1, &closure, &mut rng);
        assert!(is_extension(&order, 6, &standard_example()));
    }
}

#[test]
fn crosses_beyond_the_attributes_do_not_fit() {
    assert!(crosses_fit(b"B\n\n2\n2\n\ncat\ndog\nx\ny\nXX\nX.\n"));
    assert!(!crosses_fit(b"B\n\n1\n1\n\ncat\nx\nXX\n"));
    assert!(!crosses_fit(b"B\n\n1\n1\n\ncat\nx\n.x\n"));
    assert!(crosses_fit(b"B\n\n1\n1\n\ncat\nx\nX.\n"));
    // A file the reader rejects asks nothing of its crosses.
    assert!(crosses_fit(b"A\n"));
    assert!(FormalContext::<String>::from(b"B\n\n1\n1\n\ncat\nx\nX.\n").is_ok());
}
