//! The decisions of a game played on one machine against a computer player: whose turn
//! it is, what a person's clicks do, which reported move is played, and what the board
//! shows while a move is animated.
use vstd::prelude::*;
use crate::bits::bit;
use crate::game::util::{Player, Slot};
use crate::game::santorini::Move;
use crate::game::santorini::state::State;
use crate::game::santorini::move_builder::{BoardState, contains_move, tentative_count, moves_continuing, completed_move, first_completed};
use crate::service::ai::StateAnalysis;

verus! {

/// Who plays a place: a computer or a person.
#[derive(Debug, Copy, Clone, PartialEq, Eq, Structural)]
pub enum PlayerType {
    AI,
    Human,
}

/// A computer plays the player to move when that player is one of `cpu_players`.
pub fn player_type_for(state: &State, cpu_players: &Vec<Player>) -> (r: PlayerType)
    ensures
        r == (if cpu_players@.contains(state.to_move) { PlayerType::AI } else { PlayerType::Human }),
{
    let mut i: usize = 0;
    while i < cpu_players.len()
        invariant
            0 <= i <= cpu_players@.len(),
            forall|k: int| 0 <= k < i ==> cpu_players@[k] != state.to_move,
        decreases cpu_players@.len() - i,
    {
        if cpu_players[i] == state.to_move {
            return PlayerType::AI;
        }
        i = i + 1;
    }
    PlayerType::Human
}

/// The move to play from a computer player's report: its best move, once the report is
/// final and that move is on offer.
pub fn reported_move(analysis: &Option<StateAnalysis>, next_moves: &Vec<Move>) -> (r: Option<Move>)
    ensures
        r == (match analysis {
            Some(a) => match a.best_move {
                Some(b) => if a.terminal && next_moves@.contains(b.0) { Some(b.0) } else { None },
                None => None,
            },
            None => None,
        }),
{
    match analysis {
        Some(a) => {
            if a.terminal {
                match a.best_move {
                    Some((mve, _)) => {
                        if contains_move(next_moves, mve) { Some(mve) } else { None }
                    },
                    None => None,
                }
            } else {
                None
            }
        },
        None => None,
    }
}

/// A person's clicks in one frame: a left click on the square under the pointer clicks
/// it when some move on offer goes on with it; a right click takes back the last clicked
/// square. Returns whether a square was clicked, whether one was taken back, and the move
/// the clicked squares now complete, if any.
pub fn human_input_step(board_state: &BoardState, positions: &mut Vec<Slot>, mouse_over: Option<Slot>,
    left_released: bool, right_released: bool) -> (r: (bool, bool, Option<Move>))
    requires
        old(positions)@.len() + 1 < usize::MAX,
    ensures
        ({
            let pushed = left_released && mouse_over is Some
                && tentative_count(board_state.next_moves@, old(positions)@, mouse_over) > 0;
            let after_push = if pushed { old(positions)@.push(mouse_over->0) } else { old(positions)@ };
            let popped = right_released && after_push.len() > 0;
            &&& r.0 == pushed
            &&& r.1 == popped
            &&& final(positions)@ == (if popped { after_push.drop_last() } else { after_push })
            &&& first_completed(board_state.next_moves@, final(positions)@, r.2)
        }),
{
    let move_count = moves_continuing(&board_state.next_moves, positions, mouse_over);
    let mut pushed = false;
    if let Some(sl) = mouse_over {
        if left_released && move_count > 0 {
            positions.push(sl);
            pushed = true;
        }
    }
    let mut popped = false;
    if right_released && positions.len() > 0 {
        positions.pop();
        popped = true;
    }
    let completed = completed_move(&board_state.next_moves, positions);
    (pushed, popped, completed)
}

/// The position shown while `mve` is animated from `state`: a stepping builder is
/// lifted off its square; a placement shows the position itself.
pub fn subtract(state: &State, mve: Move) -> (r: State)
    requires
        mve matches Move::Move { from, .. } ==> 0 <= from.0 < 32,
    ensures
        match mve {
            Move::PlaceBuilders { .. } => r == *state,
            Move::Move { from, .. } => {
                &&& forall|p: int, i: u32| 0 <= p < 2 ==> #[trigger] bit(r.builders[p].0, i) == (bit(state.builders[p].0, i) && i != from.0)
                &&& r.building_major == state.building_major
                &&& r.building_minor == state.building_minor
                &&& r.domes == state.domes
                &&& r.to_move == state.to_move
            },
        },
{
    let mut new_state = *state;
    match mve {
        Move::PlaceBuilders { .. } => {},
        Move::Move { from, .. } => {
            new_state = new_state.without_builder_at(from);
        },
    }
    new_state
}

} // verus!
