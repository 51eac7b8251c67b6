use odis::bitset::BitSet;
use odis::formal_context::FormalContext;
use odis::lattice::Lattice;
use odis::poset::Poset;

fn bits(items: &[usize]) -> BitSet {
    let mut b = BitSet::new();
    for &i in items {
        b.insert(i);
    }
    b
}

fn names(v: &[&str]) -> Vec<String> {
    v.iter().map(|s| s.to_string()).collect()
}

#[test]
fn each_label_is_written_at_the_concept_it_generates() {
    let ctx = FormalContext::<String>::from(b"B\n\n2\n2\n\ncat\ndog\nx\ny\nXX\nX.\n").unwrap();
    // Node 0 is the top ({cat, dog}, {x}), node 1 the bottom ({cat}, {x, y}).
    let nodes = vec![(bits(&[0, 1]), bits(&[0])), (bits(&[0]), bits(&[0, 1]))];
    let poset = Poset::from_covering_relation(nodes, vec![(1, 0)]).unwrap();
    let lattice = Lattice::from_poset(poset).unwrap();
    let labels = ctx.reduced_labels(&lattice);
    assert_eq!(labels.len(), 2);
    assert_eq!(labels[0], (names(&["dog"]), names(&["x"])));
    assert_eq!(labels[1], (names(&["cat"]), names(&["y"])));
}

#[test]
fn a_label_without_its_concept_is_written_nowhere() {
    let ctx = FormalContext::<String>::from(b"B\n\n2\n2\n\ncat\ndog\nx\ny\nXX\nX.\n").unwrap();
    // Only the top concept is present.
    let nodes = vec![(bits(&[0, 1]), bits(&[0]))];
    let poset = Poset::from_covering_relation(nodes, vec![]).unwrap();
    let lattice = Lattice::from_poset(poset).unwrap();
    let labels = ctx.reduced_labels(&lattice);
    assert_eq!(labels, vec![(names(&["dog"]), names(&["x"]))]);
}
