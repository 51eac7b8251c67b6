//! Configuration of the Sugiyama hierarchical layout.
use vstd::prelude::*;

verus! {

/// Configuration for the Sugiyama hierarchical layout algorithm, which the
/// `rust_sugiyama` crate carries out.
pub struct Sugiyama {
    /// Minimum horizontal spacing between vertices in the same layer.
    pub vertex_spacing: usize,
}

} // verus!
