use odis::bitset::BitSet;
use odis::formal_context::FormalContext;
use odis::graph::concept_cover_graph;

fn bits(items: &[usize]) -> BitSet {
    let mut b = BitSet::new();
    for &i in items {
        b.insert(i);
    }
    b
}

#[test]
fn cover_graph_of_two_concepts_has_one_edge_and_the_object_and_attribute_labels() {
    let ctx = FormalContext::<String>::from(b"B\n\n2\n2\n\ncat\ndog\nx\ny\nXX\nX.\n").unwrap();
    let concepts = vec![(bits(&[0, 1]), bits(&[0])), (bits(&[0]), bits(&[0, 1]))];
    let (edges, objs, attrs) = concept_cover_graph(&concepts, &ctx).unwrap();
    assert_eq!(edges, vec![(0, 1)]);
    assert_eq!(objs, vec![(1, 0), (0, 1)]);
    assert_eq!(attrs, vec![(0, 0), (1, 1)]);
}

#[test]
fn cover_graph_of_a_chain_skips_the_transitive_pair() {
    let ctx = FormalContext::<String>::from(b"B\n\n3\n3\n\na\nb\nc\nx\ny\nz\nXXX\nXX.\nX..\n").unwrap();
    let concepts = vec![
        (bits(&[0, 1, 2]), bits(&[0])),
        (bits(&[0, 1]), bits(&[0, 1])),
        (bits(&[0]), bits(&[0, 1, 2])),
    ];
    let (edges, _, _) = concept_cover_graph(&concepts, &ctx).unwrap();
    assert_eq!(edges, vec![(0, 1), (1, 2)]);
}

#[test]
fn a_single_concept_gives_no_graph() {
    let ctx = FormalContext::<String>::from(b"B\n\n1\n1\n\na\nx\nX\n").unwrap();
    let concepts = vec![(bits(&[0]), bits(&[0]))];
    assert!(concept_cover_graph(&concepts, &ctx).is_none());
}
