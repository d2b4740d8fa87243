//! The picture of the move a player is entering.
use vstd::prelude::*;
use crate::game::util::Slot;
use crate::game::santorini::move_builder::{
    tentative_state, modify_ok, entered, tentative_count, spec_modify_state, moves_from, next_square,
};
use crate::service::game::{BoardWithMoves, UIState};

pub use crate::game::santorini::move_builder::TentativeState;

verus! {

impl TentativeState {
    /// The picture of the move that `ui` is entering on the game `board_with_moves`: its
    /// clicked squares are entered and its pointed square is tentative (see
    /// `tentative_state`).
    pub fn from(board_with_moves: &BoardWithMoves, ui: &UIState) -> (r: TentativeState)
        requires
            board_with_moves.wf(),
            modify_ok(board_with_moves@.1, entered(board_with_moves@.2, ui.current_slots@, ui.tentative_slot)),
            ui.current_slots@.len() < usize::MAX,
        ensures
            r.move_count == tentative_count(board_with_moves@.2, ui.current_slots@, ui.tentative_slot),
            r.proposed_state == spec_modify_state(board_with_moves@.1, entered(board_with_moves@.2, ui.current_slots@, ui.tentative_slot)),
            r.matching_slots@.no_duplicates(),
            forall|x: Slot| #[trigger] r.matching_slots@.contains(x)
                <==> next_square(moves_from(board_with_moves@.2, ui.current_slots@), ui.current_slots@.len() as int, x),
    {
        proof {
            board_with_moves.lemma_wf();
        }
        tentative_state(board_with_moves.state(), board_with_moves.legal_moves(), &ui.current_slots, ui.tentative_slot)
    }
}

} // verus!
