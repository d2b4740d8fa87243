//! What happens on a client between frames.
use vstd::prelude::*;
use crate::game::util::Slot;
use crate::game::santorini::{Move, HeuristicValue};
use crate::service::game::InteractionState;
use crate::service::ai::StateAnalysis;

verus! {

/// An event of a client: the pointed square changes, a square is clicked or taken back,
/// a move is played, the person wins or loses, what is shown changes, or a report of the
/// computer player arrives.
#[derive(Debug, Clone)]
pub enum ClientLocalEvent {
    UpdateTentativeSlot(Option<Slot>),
    PushCurrentSlot(Slot),
    PopCurrentSlot,
    PlayMove(Move, Option<HeuristicValue>),
    PlayerWin,
    PlayerLoss,
    NewInteractionState(InteractionState),
    NewAnalysis(StateAnalysis),
}

} // verus!
