//! Games between two computer players.
use vstd::prelude::*;
use crate::game::util::Player;
use crate::game::santorini::{Depth, Move, HeuristicValue};
use crate::game::santorini::state::State;
use crate::game::santorini::board::{StandardBoard, spec_apply, spec_ascension, move_in_range};

verus! {

/// The heuristics a computer player can search with.
#[derive(Debug, Copy, Clone, PartialEq, Eq, Structural, Hash)]
pub enum HeuristicName {
    Simple,
    Neighbour,
    AdjustedNeighbour,
}

/// A span of time in milliseconds.
pub type Milliseconds = u64;

/// How a computer player searches: how deep, with which heuristic, and within how much
/// time if there is a limit.
#[derive(Debug, Copy, Clone, PartialEq, Eq, Structural, Hash)]
pub struct AIProfile {
    pub depth: Depth,
    pub heuristic: HeuristicName,
    pub time_limit: Option<Milliseconds>,
}

/// The depth a computer player searches to at move `move_count` of a game: one less than
/// its profile's depth, but at least 2, for the first two moves (the placements); its
/// profile's depth after that.
pub open spec fn spec_playout_depth(move_count: u32, depth: Depth) -> Depth {
    if move_count < 2 {
        if depth - 1 >= 2 { (depth - 1) as Depth } else { 2 }
    } else {
        depth
    }
}

pub fn playout_depth(move_count: u32, depth: Depth) -> (r: Depth)
    requires
        move_count < 2 ==> depth >= 1,
    ensures
        r == spec_playout_depth(move_count, depth),
{
    if move_count < 2 {
        let d = depth - 1;
        if d >= 2 { d } else { 2 }
    } else {
        depth
    }
}

/// One turn of a game between computer players: the best move found is played, and wins
/// when it climbs onto a third storey; with no move found, the other player wins.
/// Returns the position after the turn and the winner, if the game is over.
pub fn playout_turn(board: &StandardBoard, state: &State, best_move: Option<(Move, HeuristicValue)>) -> (r: (State, Option<Player>))
    requires
        0 <= state.to_move.0 < 2,
        best_move matches Some(b) ==> move_in_range(b.0),
    ensures
        r == (match best_move {
            Some(b) => (spec_apply(*state, b.0), if spec_ascension(*state, b.0) { Some(state.to_move) } else { None }),
            None => (*state, Some(state.spec_next_player())),
        }),
{
    match best_move {
        Some((mve, _)) => {
            let is_winning_move = board.ascension_winning_move(state, mve);
            let next = board.apply(mve, state);
            if is_winning_move {
                (next, Some(state.to_move))
            } else {
                (next, None)
            }
        },
        None => (*state, Some(state.next_player())),
    }
}

} // verus!
