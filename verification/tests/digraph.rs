use odis::digraph::{DiNode, Digraph};

fn make_node(id: usize) -> DiNode<usize> {
    DiNode { id, label: id }
}

#[test]
fn test_empty_graph() {
    let g: Digraph<usize> = Digraph::new(vec![], vec![]);
    assert_eq!(g.node_count(), 0);
    assert_eq!(g.edge_count(), 0);
    assert_eq!(g.successors(0).len(), 0);
    assert_eq!(g.predecessors(0).len(), 0);
}

#[test]
fn test_chain_graph() {
    let g = Digraph::new(vec![make_node(0), make_node(1), make_node(2)], vec![(0, 1), (1, 2)]);
    let succ_a: Vec<u32> = g.successors(0);
    let succ_b: Vec<u32> = g.successors(1);
    let succ_c: Vec<u32> = g.successors(2);
    assert_eq!(succ_a, vec![1]);
    assert_eq!(succ_b, vec![2]);
    assert_eq!(succ_c, Vec::<u32>::new());

    let pred_a: Vec<u32> = g.predecessors(0);
    let pred_b: Vec<u32> = g.predecessors(1);
    assert_eq!(pred_a, Vec::<u32>::new());
    assert_eq!(pred_b, vec![0]);
}

#[test]
fn test_diamond_graph() {
    let g = Digraph::new(
        vec![make_node(0), make_node(1), make_node(2), make_node(3)],
        vec![(0, 1), (0, 2), (1, 3), (2, 3)],
    );
    let mut succ_a: Vec<u32> = g.successors(0);
    succ_a.sort();
    assert_eq!(succ_a, vec![1, 2]);

    let mut pred_d: Vec<u32> = g.predecessors(3);
    pred_d.sort();
    assert_eq!(pred_d, vec![1, 2]);

    assert_eq!(g.predecessors(0).len(), 0);
    assert_eq!(g.successors(3).len(), 0);
}

#[test]
fn parallel_edges_are_listed_each_time() {
    let g = Digraph::new(vec![make_node(0), make_node(1)], vec![(0, 1), (0, 1), (1, 0)]);
    assert_eq!(g.edge_count(), 3);
    assert_eq!(g.successors(0), vec![1, 1]);
    assert_eq!(g.predecessors(0), vec![1]);
}
