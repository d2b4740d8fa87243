//! Santorini on a 5x5 board: state, rules, hashing, heuristics and search.
pub mod state;
pub mod board;
pub mod move_stack;
pub mod transposition;
pub mod heuristic;
pub mod perft;
pub mod playout;
pub mod search;
pub mod evaluator_info;
pub mod evaluator;
pub mod minimax;
pub mod negamax;
pub mod negamax_alphabeta;
pub mod negamax_alphabeta_exp;
pub mod picture;
pub mod move_builder;

use vstd::prelude::*;
use crate::game::util::{Slot, Position, fits, rotate_90_matrix, rotate_180_matrix, rotate_270_matrix};
use crate::game::santorini::board::StandardBoard;
use crate::game::santorini::state::State;
use crate::game::santorini::heuristic::Heuristic;

verus! {

pub type MoveCount = u32;

pub type HeuristicValue = i16;

pub type Depth = u8;

/// Marker square of a builder not yet on the board.
pub const UNPLACED_BUILDER_INDEX: i8 = -100;

/// Marker square of a builder that left the game.
pub const DEAD_BUILDER_INDEX: i8 = -101;

/// Marker square meaning "no square" (ends a neighbour list).
pub const NONE_INDEX: i8 = -102;

pub const PLAYERS: usize = 2;

pub const BUILDERS: usize = 2;

pub const BOARD_SIZE: usize = 5;

/// The eight symmetries of the board other than the identity, as maps on positions.
/// `k` numbers them in the order quarter turn, half turn, three quarter turn,
/// mirror in x, mirror in y, main diagonal, anti diagonal.
pub open spec fn symmetry(k: int, p: Position) -> Position {
    if k == 0 {
        Position { x: (4 - p.y) as i8, y: p.x }
    } else if k == 1 {
        Position { x: (4 - p.x) as i8, y: (4 - p.y) as i8 }
    } else if k == 2 {
        Position { x: p.y, y: (4 - p.x) as i8 }
    } else if k == 3 {
        Position { x: (4 - p.x) as i8, y: p.y }
    } else if k == 4 {
        Position { x: p.x, y: (4 - p.y) as i8 }
    } else if k == 5 {
        Position { x: p.y, y: p.x }
    } else {
        Position { x: (4 - p.y) as i8, y: (4 - p.x) as i8 }
    }
}

/// Whether a position lies on the 5x5 board.
pub open spec fn on_board(p: Position) -> bool {
    0 <= p.x < 5 && 0 <= p.y < 5
}

pub open spec fn rotate_90_defined(p: Position) -> bool {
    fits(p.x - 2) && fits(p.y - 2) && fits(-(p.y - 2)) && fits(-(p.y - 2) + 2)
}

pub open spec fn rotate_180_defined(p: Position) -> bool {
    fits(p.x - 2) && fits(p.y - 2) && fits(-(p.x - 2)) && fits(-(p.y - 2)) && fits(-(p.x - 2) + 2)
        && fits(-(p.y - 2) + 2)
}

pub open spec fn rotate_270_defined(p: Position) -> bool {
    fits(p.x - 2) && fits(p.y - 2) && fits(-(p.x - 2)) && fits(-(p.x - 2) + 2)
}

pub open spec fn reflect_defined(v: i8) -> bool {
    fits(v - 2) && fits((v - 2) * -1) && fits((v - 2) * -1 + 2)
}

/// Quarter turn about the centre square.
pub fn rotate_90(pos: Position) -> (r: Position)
    requires
        rotate_90_defined(pos),
    ensures
        r.x == 4 - pos.y,
        r.y == pos.x,
        on_board(pos) ==> r == symmetry(0, pos) && on_board(r),
{
    let pre = Position { x: -2, y: -2 };
    let post = Position { x: 2, y: 2 };
    (rotate_90_matrix() * (pos + pre)) + post
}

/// Half turn about the centre square.
pub fn rotate_180(pos: Position) -> (r: Position)
    requires
        rotate_180_defined(pos),
    ensures
        r.x == 4 - pos.x,
        r.y == 4 - pos.y,
        on_board(pos) ==> r == symmetry(1, pos) && on_board(r),
{
    let pre = Position { x: -2, y: -2 };
    let post = Position { x: 2, y: 2 };
    (rotate_180_matrix() * (pos + pre)) + post
}

/// Three quarter turns about the centre square.
pub fn rotate_270(pos: Position) -> (r: Position)
    requires
        rotate_270_defined(pos),
    ensures
        r.x == pos.y,
        r.y == 4 - pos.x,
        on_board(pos) ==> r == symmetry(2, pos) && on_board(r),
{
    let pre = Position { x: -2, y: -2 };
    let post = Position { x: 2, y: 2 };
    (rotate_270_matrix() * (pos + pre)) + post
}

/// Mirror across the middle column.
pub fn reflect_x(pos: Position) -> (r: Position)
    requires
        reflect_defined(pos.x),
    ensures
        r.x == 4 - pos.x,
        r.y == pos.y,
        on_board(pos) ==> r == symmetry(3, pos) && on_board(r),
{
    let mut p = pos;
    p.x = (p.x - 2) * -1 + 2;
    p
}

/// Mirror across the middle row.
pub fn reflect_y(pos: Position) -> (r: Position)
    requires
        reflect_defined(pos.y),
    ensures
        r.x == pos.x,
        r.y == 4 - pos.y,
        on_board(pos) ==> r == symmetry(4, pos) && on_board(r),
{
    let mut p = pos;
    p.y = (p.y - 2) * -1 + 2;
    p
}

/// Mirror across the main diagonal.
pub fn reflect_diag_a(pos: Position) -> (r: Position)
    ensures
        r.x == pos.y,
        r.y == pos.x,
        on_board(pos) ==> r == symmetry(5, pos) && on_board(r),
{
    Position { x: pos.y, y: pos.x }
}

/// Mirror across the anti diagonal.
pub fn reflect_diag_b(pos: Position) -> (r: Position)
    requires
        rotate_180_defined(pos),
    ensures
        r.x == 4 - pos.y,
        r.y == 4 - pos.x,
        on_board(pos) ==> r == symmetry(6, pos) && on_board(r),
{
    reflect_diag_a(rotate_180(pos))
}

#[derive(Debug, Copy, Clone, Eq, PartialEq, Structural, Hash)]
pub enum Move {
    PlaceBuilders { a: Slot, b: Slot },
    Move { from: Slot, to: Slot, build: Slot },
}

impl Move {
    /// The squares a player clicks to make this move, in order.
    pub open spec fn spec_slots(self) -> Seq<Slot> {
        match self {
            Move::PlaceBuilders { a, b } => seq![a, b],
            Move::Move { from, to, build } => seq![from, to, build],
        }
    }

    pub fn to_slots(&self) -> (r: Vec<Slot>)
        ensures
            r@ == self.spec_slots(),
    {
        match *self {
            Move::PlaceBuilders { a, b } => {
                let mut v = Vec::new();
                v.push(a);
                v.push(b);
                v
            },
            Move::Move { from, to, build } => {
                let mut v = Vec::new();
                v.push(from);
                v.push(to);
                v.push(build);
                v
            },
        }
    }
}

/// A search that scores every move of a position to a given depth, with the heuristic
/// `H` at its horizon.
pub trait Evaluation<H: Heuristic> {
    /// The search of `state` to `depth` stays within the machine's integers.
    spec fn within_limits(board: StandardBoard, state: State, depth: Depth) -> bool;

    /// The moves of `state` with their scores, in the order the moves are listed.
    spec fn scored(board: StandardBoard, state: State, depth: Depth) -> Seq<(Move, HeuristicValue)>;

    /// The number of positions the search counts.
    spec fn counted(board: StandardBoard, state: State, depth: Depth) -> nat;

    /// The scored moves, highest score first for player 0 and lowest first for player 1,
    /// moves of equal score in the order they are listed; and the number of positions
    /// counted.
    fn evaluate(board: &StandardBoard, state: &State, depth: Depth) -> (r: (Vec<(Move, HeuristicValue)>, MoveCount))
        requires
            board.wf(),
            state.wf(),
            1 <= depth,
            <Self as Evaluation<H>>::within_limits(*board, *state, depth),
        ensures
            crate::game::santorini::search::stable_sort_of(r.0@, <Self as Evaluation<H>>::scored(*board, *state, depth),
                state.to_move.0 == 0),
            r.1 as nat == <Self as Evaluation<H>>::counted(*board, *state, depth),
    ;
}

} // verus!
