//! Searches behind a common interface, each keeping its own state between searches.
pub mod minimax;
pub mod minimax_alphabeta;
pub mod negamax;
pub mod negamax_alphabeta;
pub mod negamax_alphabeta_exp;

use vstd::prelude::*;

verus! {

/// A search that picks the best move of a position to a given depth. Each search offers
/// `evaluate_moves_impl`, generic over the heuristic, with its own contract.
pub trait Evaluator {
    /// What the search keeps from one search to the next.
    type EvaluatorState;

    /// The kept state is usable.
    spec fn state_ok(st: &Self::EvaluatorState) -> bool;

    fn name() -> (r: String);

    fn new_state() -> (r: Self::EvaluatorState)
        ensures
            Self::state_ok(&r),
    ;

    /// The kept state stays usable through `new_search`.
    spec fn can_advance(st: &Self::EvaluatorState) -> bool;

    /// Prepares for the search of a new position.
    fn new_search(st: &mut Self::EvaluatorState)
        requires
            Self::state_ok(old(st)),
            Self::can_advance(old(st)),
        ensures
            Self::state_ok(final(st)),
    ;

    /// Forgets everything kept.
    fn reset(st: &mut Self::EvaluatorState)
        requires
            Self::state_ok(old(st)),
        ensures
            Self::state_ok(final(st)),
    ;

}

} // verus!
