//! Directed graphs given by a node list and an edge list.
use vstd::prelude::*;

verus! {

/// A node in a directed graph.
#[derive(PartialEq, Debug, Clone)]
pub struct DiNode<T> {
    /// Position index of the node in the parent `Digraph.nodes` vector.
    pub id: usize,
    /// Data associated with this node.
    pub label: T,
}

/// A directed graph. Nodes are indexed by their position in `nodes`; an edge
/// `(u, v)` means `u → v`.
pub struct Digraph<T> {
    /// All nodes in the graph, indexed by position (0-based).
    pub nodes: Vec<DiNode<T>>,
    /// All directed edges as `(u, v)` index pairs (u → v).
    pub edges: Vec<(u32, u32)>,
}

/// The target of `e` if `e` leaves `u`.
pub open spec fn target_if_from(u: u32) -> spec_fn((u32, u32)) -> Option<u32> {
    |e: (u32, u32)| if e.0 == u { Some(e.1) } else { None::<u32> }
}

/// The source of `e` if `e` enters `v`.
pub open spec fn source_if_into(v: u32) -> spec_fn((u32, u32)) -> Option<u32> {
    |e: (u32, u32)| if e.1 == v { Some(e.0) } else { None::<u32> }
}

/// The targets of the edges leaving `u`, in edge order.
pub open spec fn successors_of(edges: Seq<(u32, u32)>, u: u32) -> Seq<u32> {
    edges.filter_map(target_if_from(u))
}

/// The sources of the edges entering `v`, in edge order.
pub open spec fn predecessors_of(edges: Seq<(u32, u32)>, v: u32) -> Seq<u32> {
    edges.filter_map(source_if_into(v))
}

impl<T: Clone> Digraph<T> {
    /// Creates a new `Digraph` with the given nodes and directed edges.
    pub fn new(nodes: Vec<DiNode<T>>, edges: Vec<(u32, u32)>) -> (r: Self)
        ensures
            r.nodes == nodes,
            r.edges == edges,
    {
        Digraph { nodes, edges }
    }

    /// The IDs of all direct successors of `node_id`, one per edge leaving it,
    /// in the order of `edges`.
    pub fn successors(&self, node_id: u32) -> (r: Vec<u32>)
        ensures
            r@ == successors_of(self.edges@, node_id),
    {
                let mut out: Vec<u32> = Vec::new();
        let mut i: usize = 0;
        while i < self.edges.len()
            invariant
                i <= self.edges@.len(),
                out@ == self.edges@.take(i as int).filter_map(target_if_from(node_id)),
            decreases self.edges@.len() - i,
        {
            proof {
                self.edges@.lemma_filter_map_take_succ(target_if_from(node_id), i as int);
            }
            let (u, v) = self.edges[i];
            let ghost before = out@;
            if u == node_id {
                out.push(v);
                assert(out@ == before + seq![v]);
            }
            assert(target_if_from(node_id)(self.edges@[i as int]) == (if u == node_id { Some(v) } else { None::<u32> }));
            i = i + 1;
        }
        proof {
            assert(self.edges@.take(self.edges@.len() as int) == self.edges@);
        }
        out
    }

    /// The IDs of all direct predecessors of `node_id`, one per edge entering
    /// it, in the order of `edges`.
    pub fn predecessors(&self, node_id: u32) -> (r: Vec<u32>)
        ensures
            r@ == predecessors_of(self.edges@, node_id),
    {
                let mut out: Vec<u32> = Vec::new();
        let mut i: usize = 0;
        while i < self.edges.len()
            invariant
                i <= self.edges@.len(),
                out@ == self.edges@.take(i as int).filter_map(source_if_into(node_id)),
            decreases self.edges@.len() - i,
        {
            proof {
                self.edges@.lemma_filter_map_take_succ(source_if_into(node_id), i as int);
            }
            let (u, v) = self.edges[i];
            let ghost before = out@;
            if v == node_id {
                out.push(u);
                assert(out@ == before + seq![u]);
            }
            assert(source_if_into(node_id)(self.edges@[i as int]) == (if v == node_id { Some(u) } else { None::<u32> }));
            i = i + 1;
        }
        proof {
            assert(self.edges@.take(self.edges@.len() as int) == self.edges@);
        }
        out
    }

    /// Returns the number of nodes in this graph.
    pub fn node_count(&self) -> (r: usize)
        ensures
            r == self.nodes@.len(),
    {
        self.nodes.len()
    }

    /// Returns the number of directed edges in this graph.
    pub fn edge_count(&self) -> (r: usize)
        ensures
            r == self.edges@.len(),
    {
        self.edges.len()
    }
}

} // verus!
