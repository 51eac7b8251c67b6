//! How long a search may run.
use vstd::prelude::*;

verus! {

/// The budget a time-bounded search is given.
///
/// "No limit" is a case of its own rather than a sentinel value of the
/// limit, so that a search runs without a limit only where someone wrote
/// [`SearchBudget::Unbounded`].
#[derive(Clone, Copy, Debug, PartialEq, Eq)]
pub enum SearchBudget {
    /// Stop exploring new branches once this many milliseconds have passed.
    /// Zero is a real budget: it keeps whatever the initial heuristic found.
    Milliseconds(u64),
    /// Run until the search is exhausted.
    Unbounded,
}

/// The budget the drawing algorithms take when the caller does not name one.
pub const DEFAULT_SEARCH_BUDGET_MS: u64 = 1000;

impl Default for SearchBudget {
    fn default() -> (r: Self)
        ensures
            r == SearchBudget::Milliseconds(DEFAULT_SEARCH_BUDGET_MS),
    {
        SearchBudget::Milliseconds(DEFAULT_SEARCH_BUDGET_MS)
    }
}

impl SearchBudget {
    /// The limit in milliseconds, or `None` if there is none.
    pub fn limit_ms(self) -> (r: Option<u64>)
        ensures
            match self {
                SearchBudget::Milliseconds(ms) => r == Some(ms),
                SearchBudget::Unbounded => r is None,
            },
    {
        match self {
            SearchBudget::Milliseconds(ms) => Some(ms),
            SearchBudget::Unbounded => None,
        }
    }
}

} // verus!
