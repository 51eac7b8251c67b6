use odis::search_budget::{SearchBudget, DEFAULT_SEARCH_BUDGET_MS};

#[test]
fn test_the_default_budget_is_bounded() {
    assert_eq!(SearchBudget::default().limit_ms(), Some(DEFAULT_SEARCH_BUDGET_MS));
}

#[test]
fn test_zero_milliseconds_is_a_limit() {
    assert_eq!(SearchBudget::Milliseconds(0).limit_ms(), Some(0));
    assert_eq!(SearchBudget::Unbounded.limit_ms(), None);
}

#[test]
fn a_budget_hands_back_its_limit() {
    assert_eq!(SearchBudget::Milliseconds(1234).limit_ms(), Some(1234));
    assert_eq!(DEFAULT_SEARCH_BUDGET_MS, 1000);
}
