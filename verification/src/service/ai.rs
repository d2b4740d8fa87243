//! What a computer player's search reports, and how the deepening of a search decides
//! when to stop.
use vstd::prelude::*;
use crate::game::util::Player;
use crate::game::santorini::{Move, HeuristicValue, Depth};
use crate::game::santorini::state::State;
use crate::game::santorini::heuristic::{PLAYER_0_WIN, PLAYER_1_WIN};

verus! {

/// The report of a search at one depth: the position, the depth, the best move with its
/// score, whether the search stops there, and whether it found its player lost (it then
/// still offers the move of that depth).
#[derive(Debug, Clone, Copy)]
pub struct StateAnalysis {
    pub state: State,
    pub depth: Depth,
    pub best_move: Option<(Move, HeuristicValue)>,
    pub terminal: bool,
    pub rollback: bool,
}

/// The player a score says has won, if it says so.
pub open spec fn spec_winning_player(v: HeuristicValue) -> Option<Player> {
    if v == PLAYER_0_WIN {
        Some(Player(0))
    } else if v == PLAYER_1_WIN {
        Some(Player(1))
    } else {
        None
    }
}

/// The player the score `heuristic_value` says has won: player 0 for the best score,
/// player 1 for the worst, else none.
pub fn winning_player(heuristic_value: HeuristicValue) -> (r: Option<Player>)
    ensures
        r == spec_winning_player(heuristic_value),
{
    if heuristic_value == PLAYER_0_WIN {
        Some(Player(0))
    } else if heuristic_value == PLAYER_1_WIN {
        Some(Player(1))
    } else {
        None
    }
}

/// What a deepening search reports at `depth`, and whether it stops there. When the best
/// score says who wins, the search stops, and reports a loss of the player to move as a
/// rollback. Otherwise it stops from depth 2 on once the depth is the last one or the next
/// depth would take longer than the time limit allows (`over_time`).
pub open spec fn spec_analysis_step(state: State, depth: Depth, max_depth: Depth,
    best_move: Option<(Move, HeuristicValue)>, over_time: bool) -> (StateAnalysis, bool) {
    let winner = match best_move {
        Some(b) => spec_winning_player(b.1),
        None => None,
    };
    match winner {
        Some(p) => (StateAnalysis { state: state, depth: depth, best_move: best_move, terminal: true,
            rollback: p != state.to_move && depth > 0 }, true),
        None => {
            let stop = depth >= 2 && (depth >= max_depth || over_time);
            (StateAnalysis { state: state, depth: depth, best_move: best_move, terminal: stop, rollback: false }, stop)
        },
    }
}

/// How a deepening search goes on: a best score that names a winner stops it at once;
/// otherwise it never stops, nor calls its report final, below depth 2, whatever the time
/// estimate says; from depth 2 on it stops at the last depth or when the next depth would
/// take too long. The report is always of the position and depth searched, with the best
/// move found, and it is rolled back exactly when the winner it names is not the player
/// to move (past depth 0).
pub proof fn lemma_analysis_stops(state: State, depth: Depth, max_depth: Depth, best_move: Option<(Move, HeuristicValue)>,
    over_time: bool)
    ensures
        ({
            let (a, stop) = spec_analysis_step(state, depth, max_depth, best_move, over_time);
            let decided = best_move matches Some(b) && (b.1 == PLAYER_0_WIN || b.1 == PLAYER_1_WIN);
            &&& a.state == state && a.depth == depth && a.best_move == best_move
            &&& a.terminal == stop
            &&& decided ==> stop
            &&& !decided && depth < 2 ==> !stop
            &&& !decided && depth >= 2 ==> (stop <==> (depth >= max_depth || over_time))
            &&& a.rollback <==> decided && depth > 0 && !(best_move matches Some(b)
                && ((b.1 == PLAYER_0_WIN && state.to_move == Player(0)) || (b.1 == PLAYER_1_WIN && state.to_move == Player(1))))
        }),
{
}

/// One depth of a deepening search: the report to send, and whether to stop (see
/// `spec_analysis_step`).
pub fn analysis_step(state: &State, depth: Depth, max_depth: Depth, best_move: Option<(Move, HeuristicValue)>,
    over_time: bool) -> (r: (StateAnalysis, bool))
    ensures
        r == spec_analysis_step(*state, depth, max_depth, best_move, over_time),
{
    let winner = match best_move {
        Some((_, score)) => winning_player(score),
        None => None,
    };
    match winner {
        Some(player) => {
            let rollback = player != state.to_move && depth > 0;
            (StateAnalysis { state: *state, depth: depth, best_move: best_move, terminal: true, rollback: rollback }, true)
        },
        None => {
            let terminate = depth >= 2 && (depth >= max_depth || over_time);
            (StateAnalysis { state: *state, depth: depth, best_move: best_move, terminal: terminate, rollback: false }, terminate)
        },
    }
}

} // verus!
