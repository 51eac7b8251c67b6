//! Configuration of the DimFlux force-directed additive drawing.
use crate::search_budget::SearchBudget;
use vstd::prelude::*;

verus! {

/// Force-directed additive lattice drawing: a DimDraw layout, refined.
#[derive(Clone, Copy, Debug)]
pub struct DimFlux {
    /// How long the DimDraw initial layout may search. The refinement that
    /// follows is bounded by `iterations`, not by the clock.
    pub budget: SearchBudget,
    /// Maximum number of conjugate gradient iterations in the refinement.
    pub iterations: usize,
}

/// Iterations the refinement runs at most.
pub const DEFAULT_REFINEMENT_ITERATIONS: usize = 200;

impl Default for DimFlux {
    fn default() -> (r: Self)
        ensures
            r.budget == SearchBudget::Milliseconds(crate::search_budget::DEFAULT_SEARCH_BUDGET_MS),
            r.iterations == DEFAULT_REFINEMENT_ITERATIONS,
    {
        DimFlux { budget: SearchBudget::default(), iterations: DEFAULT_REFINEMENT_ITERATIONS }
    }
}

} // verus!
