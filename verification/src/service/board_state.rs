//! The essential record of a game: its moves and its position.
use vstd::prelude::*;
use crate::game::santorini::Move;
use crate::game::santorini::state::State;

verus! {

/// The moves made so far (a replay) and the position they led to.
#[derive(Debug, Clone)]
pub struct BoardState {
    pub moves: Vec<Move>,
    pub state: State,
}

impl BoardState {
    /// A game at `state` with no move made.
    pub fn new(state: State) -> (r: BoardState)
        ensures
            r.moves@ == Seq::<Move>::empty(),
            r.state == state,
    {
        BoardState { moves: Vec::new(), state: state }
    }
}

} // verus!
