//! A step-wise state machine for attribute exploration: the caller answers
//! each proposed implication, and supplies the context as it grows.
use crate::bitset::BitSet;
use crate::canonical_basis::{
    below, index_next_preclosure, lectic_rank, lemma_next_advances, lemma_next_no_skip, lemma_rank_eq_agree, respects,
    two_to,
};
use crate::formal_context::FormalContext;
use vstd::prelude::*;

verus! {

/// Current state of the attribute exploration machine.
#[derive(Debug, PartialEq, Default)]
pub enum ExplorationState {
    /// The machine is idle and has not yet started exploration.
    #[default]
    Idle,
    /// An implication has been proposed and awaits confirmation or counterexample.
    ValidatingImplication {
        /// Premise of the current implication.
        premise: BitSet,
        /// Proposed conclusion of the current implication.
        conclusion: BitSet,
    },
    /// A counterexample was offered and is awaiting submission.
    AwaitingCounterexample {
        /// Premise of the disputed implication.
        premise: BitSet,
        /// Conclusion of the disputed implication.
        conclusion: BitSet,
    },
    /// Exploration is complete: all implications have been confirmed.
    Finished,
}

/// A state with its sets as sets.
pub enum StateView {
    Idle,
    Validating(Set<usize>, Set<usize>),
    Awaiting(Set<usize>, Set<usize>),
    Finished,
}

impl View for ExplorationState {
    type V = StateView;

    open spec fn view(&self) -> StateView {
        match self {
            ExplorationState::Idle => StateView::Idle,
            ExplorationState::ValidatingImplication { premise, conclusion } => StateView::Validating(
                premise@,
                conclusion@,
            ),
            ExplorationState::AwaitingCounterexample { premise, conclusion } => StateView::Awaiting(
                premise@,
                conclusion@,
            ),
            ExplorationState::Finished => StateView::Finished,
        }
    }
}

impl Clone for ExplorationState {
    fn clone(&self) -> (r: Self)
        ensures
            r@ == self@,
    {
        match self {
            ExplorationState::Idle => ExplorationState::Idle,
            ExplorationState::ValidatingImplication { premise, conclusion } => {
                ExplorationState::ValidatingImplication {
                    premise: premise.clone(),
                    conclusion: conclusion.clone(),
                }
            },
            ExplorationState::AwaitingCounterexample { premise, conclusion } => {
                ExplorationState::AwaitingCounterexample {
                    premise: premise.clone(),
                    conclusion: conclusion.clone(),
                }
            },
            ExplorationState::Finished => ExplorationState::Finished,
        }
    }
}

/// Input event sent to the [`ExplorationMachine`].
#[derive(Debug, PartialEq)]
pub enum ExplorationInput {
    /// Begin a new exploration session.
    Start,
    /// Confirm the current implication as valid.
    Yes,
    /// Reject the current implication (a counterexample will be requested).
    No,
    /// Submit a counterexample (a new object's attribute set) to refute the
    /// current implication. The caller adds the object to the context it
    /// passes in next.
    Submit {
        /// Index-based attribute set of the proposed counterexample object.
        counterexample: BitSet,
    },
    /// Abort the exploration session.
    Stop,
}

/// Step-wise state machine for attribute exploration over a formal context.
///
/// Drives the Ganter–Wille attribute exploration algorithm interactively.
/// Each call to [`ExplorationMachine::process_input`] advances the state by
/// one step.
#[derive(Debug, PartialEq)]
pub struct ExplorationMachine {
    /// Current state of exploration.
    pub state: ExplorationState,
    /// Implications confirmed so far (premise → conclusion, index-based).
    pub basis: Vec<(BitSet, BitSet)>,
    /// The set under examination.
    pub temp_set: BitSet,
    /// The closure of the set under examination in the context.
    pub temp_hull: BitSet,
}

impl ExplorationMachine {
    /// The sets the machine holds lie among the context's `n` attributes.
    pub open spec fn fits(&self, n: nat) -> bool {
        &&& self.temp_set@.subset_of(below(n as usize))
        &&& self.temp_hull@.subset_of(below(n as usize))
        &&& n <= usize::MAX
        &&& forall|i: int|
            0 <= i < self.basis@.len() ==> #[trigger] self.basis@[i].1@.subset_of(below(n as usize))
    }

    /// What an exploration step ends in: either the set under examination is
    /// all attributes and the machine has finished, or it differs from its
    /// closure and that implication is proposed.
    pub open spec fn step_outcome<T>(&self, context: FormalContext<T>, r: StateView) -> bool {
        &&& r == self.state@
        &&& match r {
            StateView::Finished => self.temp_set@ == below(context.attributes@.len() as usize),
            StateView::Validating(p, c) => {
                &&& p == self.temp_set@
                &&& c == self.temp_hull@
                &&& c == context.intent_of(context.extent_of(p))
                &&& p != c
            },
            _ => false,
        }
    }

    /// No attribute set that the basis holds in and that is not closed lies
    /// lectically from `from` on (after it, where `strict`) and before `to`:
    /// `to` is the lectically next candidate for a premise.
    pub open spec fn none_skipped<T>(
        context: FormalContext<T>,
        basis: Seq<(BitSet, BitSet)>,
        from: Set<usize>,
        strict: bool,
        to: Set<usize>,
    ) -> bool {
        let n = context.attributes@.len();
        forall|b: Set<usize>|
            b.subset_of(below(n as usize)) && #[trigger] respects(basis, b) && b != context.intent_of(context.extent_of(b))
                && (if strict {
                lectic_rank(from, n) < lectic_rank(b, n)
            } else {
                lectic_rank(from, n) <= lectic_rank(b, n)
            }) ==> lectic_rank(to, n) <= lectic_rank(b, n)
    }

    /// Creates a new `ExplorationMachine` in the `Idle` state.
    pub fn new() -> (r: Self)
        ensures
            r.state@ == StateView::Idle,
            r.basis@.len() == 0,
            r.temp_set@ == Set::<usize>::empty(),
            r.temp_hull@ == Set::<usize>::empty(),
    {
        ExplorationMachine {
            state: ExplorationState::Idle,
            basis: Vec::new(),
            temp_set: BitSet::new(),
            temp_hull: BitSet::new(),
        }
    }

    /// Advance the machine by one input event, with the context as it stands
    /// now. Returns the new state.
    pub fn process_input(&mut self, context: &FormalContext<String>, input: ExplorationInput) -> (r:
        ExplorationState)
        requires
            context.wf(),
            old(self).fits(context.attributes@.len()),
        ensures
            final(self).fits(context.attributes@.len()),
            r@ == final(self).state@,
            match (old(self).state@, input) {
                (_, ExplorationInput::Stop) => {
                    &&& r@ == StateView::Idle
                    &&& final(self).basis@.len() == 0
                    &&& final(self).temp_set@ == Set::<usize>::empty()
                },
                (StateView::Idle, ExplorationInput::Start) => {
                    &&& final(self).basis == old(self).basis
                    &&& final(self).step_outcome(*context, r@)
                    &&& Self::none_skipped(*context, final(self).basis@, Set::empty(), false, final(self).temp_set@)
                },
                (StateView::Finished, ExplorationInput::Start) => {
                    &&& final(self).basis@.len() == 0
                    &&& final(self).step_outcome(*context, r@)
                    &&& Self::none_skipped(*context, final(self).basis@, Set::empty(), false, final(self).temp_set@)
                },
                (StateView::Validating(p, c), ExplorationInput::Yes) => {
                    &&& final(self).basis@.len() == old(self).basis@.len() + 1
                    &&& final(self).basis@[old(self).basis@.len() as int].0@ == old(self).temp_set@
                    &&& final(self).basis@[old(self).basis@.len() as int].1@ == old(self).temp_hull@
                    &&& final(self).step_outcome(*context, r@)
                    &&& Self::none_skipped(*context, final(self).basis@, old(self).temp_set@, true, final(self).temp_set@)
                },
                (StateView::Validating(p, c), ExplorationInput::No) => {
                    &&& r@ == StateView::Awaiting(p, c)
                    &&& final(self).basis == old(self).basis
                },
                (StateView::Awaiting(_, _), ExplorationInput::Submit { .. }) => {
                    &&& final(self).basis == old(self).basis
                    &&& final(self).step_outcome(*context, r@)
                    &&& Self::none_skipped(*context, final(self).basis@, old(self).temp_set@, false, final(self).temp_set@)
                },
                _ => r@ == old(self).state@ && final(self).basis == old(self).basis,
            },
    {
        let is_start = match input {
            ExplorationInput::Start => true,
            _ => false,
        };
        match input {
            ExplorationInput::Stop => {
                self.reset();
                return ExplorationState::Idle;
            },
            _ => {},
        }
        match self.state {
            ExplorationState::Idle => {
                if is_start {
                    return self.start_exploration(context);
                }
            },
            ExplorationState::ValidatingImplication { .. } => {
                match input {
                    ExplorationInput::Yes => {
                        return self.handle_yes(context);
                    },
                    ExplorationInput::No => {
                        let next = match &self.state {
                            ExplorationState::ValidatingImplication { premise, conclusion } => {
                                ExplorationState::AwaitingCounterexample {
                                    premise: premise.clone(),
                                    conclusion: conclusion.clone(),
                                }
                            },
                            _ => ExplorationState::Idle,
                        };
                        self.state = next;
                        return self.state.clone();
                    },
                    _ => {},
                }
            },
            ExplorationState::AwaitingCounterexample { .. } => {
                match input {
                    ExplorationInput::Submit { counterexample } => {
                        return self.handle_submit(context, counterexample);
                    },
                    _ => {},
                }
            },
            ExplorationState::Finished => {
                if is_start {
                    self.reset();
                    return self.start_exploration(context);
                }
            },
        }
        self.state.clone()
    }

    fn start_exploration(&mut self, context: &FormalContext<String>) -> (r: ExplorationState)
        requires
            context.wf(),
            old(self).fits(context.attributes@.len()),
        ensures
            final(self).fits(context.attributes@.len()),
            final(self).basis == old(self).basis,
            final(self).step_outcome(*context, r@),
            Self::none_skipped(*context, final(self).basis@, Set::empty(), false, final(self).temp_set@),
    {
        self.temp_set = BitSet::new();
        assert(self.temp_set@ =~= Set::<usize>::empty());
        self.temp_hull = BitSet::new();
        self.explore_next(context)
    }

    /// Walks the preclosed sets in lectic order from the current one until
    /// one differs from its closure, which is proposed, or all attributes
    /// are reached.
    fn explore_next(&mut self, context: &FormalContext<String>) -> (r: ExplorationState)
        requires
            context.wf(),
            old(self).fits(context.attributes@.len()),
        ensures
            final(self).fits(context.attributes@.len()),
            final(self).basis == old(self).basis,
            final(self).step_outcome(*context, r@),
            Self::none_skipped(*context, final(self).basis@, old(self).temp_set@, false, final(self).temp_set@),
    {
        let n = context.attributes.len();
        let all_attributes = crate::canonical_basis::set_below(n);
        loop
            invariant
                context.wf(),
                n == context.attributes@.len(),
                all_attributes@ == below(n),
                self.fits(n as nat),
                self.basis == old(self).basis,
                old(self).temp_set@.subset_of(below(n)),
                Self::none_skipped(*context, self.basis@, old(self).temp_set@, false, self.temp_set@),
            decreases two_to(n as nat) - lectic_rank(self.temp_set@, n as nat),
        {
            if self.temp_set.set_eq(&all_attributes) {
                self.state = ExplorationState::Finished;
                return ExplorationState::Finished;
            }
            self.temp_hull = context.index_attribute_hull(&self.temp_set);
            if !self.temp_set.set_eq(&self.temp_hull) {
                self.state = ExplorationState::ValidatingImplication {
                    premise: self.temp_set.clone(),
                    conclusion: self.temp_hull.clone(),
                };
                return self.state.clone();
            } else {
                let next = index_next_preclosure(context, self.basis.as_slice(), &self.temp_set);
                proof {
                    lemma_next_advances(self.basis@, self.temp_set@, next@, n);
                    let a = self.temp_set@;
                    assert forall|b: Set<usize>|
                        b.subset_of(below(n)) && #[trigger] respects(self.basis@, b) && b != context.intent_of(
                            context.extent_of(b),
                        ) && lectic_rank(old(self).temp_set@, n as nat) <= lectic_rank(b, n as nat) implies lectic_rank(
                        next@,
                        n as nat,
                    ) <= lectic_rank(b, n as nat) by {
                        if lectic_rank(a, n as nat) == lectic_rank(b, n as nat) {
                            lemma_rank_eq_agree(a, b, n as nat);
                            assert(a =~= b);
                        } else {
                            lemma_next_no_skip(self.basis@, a, b, next@, n);
                        }
                    }
                }
                self.temp_set = next;
            }
        }
    }

    fn handle_yes(&mut self, context: &FormalContext<String>) -> (r: ExplorationState)
        requires
            context.wf(),
            old(self).fits(context.attributes@.len()),
        ensures
            final(self).fits(context.attributes@.len()),
            final(self).basis@.len() == old(self).basis@.len() + 1,
            final(self).basis@[old(self).basis@.len() as int].0@ == old(self).temp_set@,
            final(self).basis@[old(self).basis@.len() as int].1@ == old(self).temp_hull@,
            final(self).step_outcome(*context, r@),
            Self::none_skipped(*context, final(self).basis@, old(self).temp_set@, true, final(self).temp_set@),
    {
        let n = context.attributes.len();
        let entry = (self.temp_set.clone(), self.temp_hull.clone());
        self.basis.push(entry);
        let next = index_next_preclosure(context, self.basis.as_slice(), &self.temp_set);
        proof {
            if self.temp_set@ != below(n) {
                lemma_next_advances(self.basis@, self.temp_set@, next@, n);
            } else {
                assert forall|m: usize| m < n implies !#[trigger] crate::canonical_basis::advances(
                    self.basis@,
                    self.temp_set@,
                    m,
                    n,
                ) by {
                    assert(below(n).contains(m));
                }
            }
        }
        let ghost basis1 = self.basis@;
        let ghost a = self.temp_set@;
        self.temp_set = next;
        let r = self.explore_next(context);
        proof {
            assert forall|b: Set<usize>|
                b.subset_of(below(n)) && #[trigger] respects(self.basis@, b) && b != context.intent_of(context.extent_of(b))
                    && lectic_rank(a, n as nat) < lectic_rank(b, n as nat) implies lectic_rank(self.temp_set@, n as nat)
                <= lectic_rank(b, n as nat) by {
                lemma_next_no_skip(basis1, a, b, next@, n);
            }
        }
        r
    }

    fn handle_submit(&mut self, context: &FormalContext<String>, counterexample: BitSet) -> (r: ExplorationState)
        requires
            context.wf(),
            old(self).fits(context.attributes@.len()),
        ensures
            final(self).fits(context.attributes@.len()),
            final(self).basis == old(self).basis,
            final(self).step_outcome(*context, r@),
            Self::none_skipped(*context, final(self).basis@, old(self).temp_set@, false, final(self).temp_set@),
    {
        self.explore_next(context)
    }

    /// Reset the machine to the initial `Idle` state, clearing all accumulated state.
    pub fn reset(&mut self)
        ensures
            final(self).state@ == StateView::Idle,
            final(self).basis@.len() == 0,
            final(self).temp_set@ == Set::<usize>::empty(),
            final(self).temp_hull@ == Set::<usize>::empty(),
    {
        self.state = ExplorationState::Idle;
        self.basis = Vec::new();
        self.temp_set = BitSet::new();
        self.temp_hull = BitSet::new();
    }
}

impl Default for ExplorationMachine {
    fn default() -> (r: Self)
        ensures
            r.state@ == StateView::Idle,
            r.basis@.len() == 0,
    {
        Self::new()
    }
}

} // verus!
