//! Iceberg concept lattices: the concepts of a context whose extent reaches
//! a minimum support, ordered by extent inclusion.
use crate::bitset::BitSet;
use crate::poset::{is_topological, Poset};
use vstd::prelude::*;

verus! {

/// An iceberg concept lattice: a concept lattice restricted to concepts whose
/// extent size (support) meets a minimum threshold.
///
/// Nodes are ordered by inclusion of extents: `i < j` if `extent(i) ⊊ extent(j)`.
pub struct IcebergLattice {
    /// The diagram of the iceberg concepts; each node is `(extent, intent)`.
    pub poset: Poset<(BitSet, BitSet)>,
    /// Absolute support count for each node (parallel to `poset.nodes`).
    pub support: Vec<u32>,
    /// Total number of objects in the underlying formal context.
    pub total_objects: u32,
}

impl IcebergLattice {
    /// Construct an `IcebergLattice` from its components, one support count
    /// per node.
    pub fn new(poset: Poset<(BitSet, BitSet)>, support: Vec<u32>, total_objects: u32) -> (r: Self)
        requires
            support@.len() == poset.nodes@.len(),
        ensures
            r.poset == poset,
            r.support == support,
            r.total_objects == total_objects,
    {
        IcebergLattice { poset, support, total_objects }
    }

    /// Construct an empty `IcebergLattice` (no concepts).
    pub fn empty(total_objects: u32) -> (r: Self)
        ensures
            r.poset.wf(),
            r.poset.nodes@.len() == 0,
            r.support@.len() == 0,
            r.total_objects == total_objects,
    {
        let poset = match Poset::from_covering_relation(Vec::new(), Vec::new()) {
            Ok(p) => p,
            Err(_) => {
                proof {
                    assert(is_topological(0, Seq::empty(), Seq::empty()));
                }
                vstd::pervasive::unreached()
            },
        };
        IcebergLattice { poset, support: Vec::new(), total_objects }
    }
}

} // verus!
