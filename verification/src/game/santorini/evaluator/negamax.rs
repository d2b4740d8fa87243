//! Negamax: every position is scored from the point of view of the player to move, so
//! both players maximise.
use vstd::prelude::*;
use crate::game::santorini::{Move, HeuristicValue, MoveCount, Depth};
use crate::game::santorini::board::{StandardBoard, spec_next_moves, spec_ascension, move_on_board};
use crate::game::santorini::state::State;
use crate::game::santorini::heuristic::{Heuristic, BEST, WORST};
use crate::game::santorini::evaluator_info::{EvaluatorInfo, zero_info};
use crate::game::santorini::search::{imax, color_of, color, child, lemma_children};
use crate::game::santorini::evaluator::Evaluator;
use crate::game::santorini::evaluator::minimax::{first_best, minimax_from};

verus! {

pub struct NegaMax {}

/// The negamax value of `s` searched `d` plies deep, over its moves from place `i` on,
/// for the player of sign `color`, and the number of positions the search counts. At
/// depth 0 a position without a move is the worst score, else its heuristic value times
/// `color`. A winning move scores the best and ends the search of its position.
pub open spec fn negamax_from<H: Heuristic>(board: StandardBoard, s: State, d: nat, i: int, color: int) -> (int, nat)
    decreases d, spec_next_moves(board, s).len() - i,
{
    let moves = spec_next_moves(board, s);
    if d == 0 {
        (if moves.len() == 0 { -32767 } else { H::heuristic_value(board, s) * color }, 1)
    } else if i < 0 || i >= moves.len() {
        (-32767, 0)
    } else if spec_ascension(s, moves[i]) {
        (32767, 1)
    } else {
        let c = negamax_from::<H>(board, child(board, s, i), (d - 1) as nat, 0, -color);
        let r = negamax_from::<H>(board, s, d, i + 1, color);
        (imax(-c.0, r.0), c.1 + r.1)
    }
}

pub open spec fn negamax<H: Heuristic>(board: StandardBoard, s: State, d: nat, color: int) -> (int, nat) {
    negamax_from::<H>(board, s, d, 0, color)
}

/// Negamax values are scores: between the worst and the best.
pub proof fn lemma_negamax_range<H: Heuristic>(board: StandardBoard, s: State, d: nat, i: int, color: int)
    requires
        board.wf(),
        s.wf(),
        color == 1 || color == -1,
    ensures
        -32767 <= negamax_from::<H>(board, s, d, i, color).0 <= 32767,
    decreases d, spec_next_moves(board, s).len() - i,
{
    lemma_children(board, s);
    if d == 0 {
        H::lemma_value_range(board, s);
    } else if i < 0 || i >= spec_next_moves(board, s).len() {
    } else if spec_ascension(s, spec_next_moves(board, s)[i]) {
    } else {
        lemma_negamax_range::<H>(board, child(board, s, i), (d - 1) as nat, 0, -color);
        lemma_negamax_range::<H>(board, s, d, i + 1, color);
    }
}

/// Negamax is minimax seen from the player to move: searched for the sign of the player
/// to move, the negamax value is the minimax value times that sign, and both searches
/// count the same positions.
pub proof fn lemma_negamax_matches_minimax<H: Heuristic>(board: StandardBoard, s: State, d: nat, i: int)
    requires
        board.wf(),
        s.wf(),
    ensures
        negamax_from::<H>(board, s, d, i, color_of(s.to_move)).0 == color_of(s.to_move) * minimax_from::<H>(board, s, d, i).0,
        negamax_from::<H>(board, s, d, i, color_of(s.to_move)).1 == minimax_from::<H>(board, s, d, i).1,
    decreases d, spec_next_moves(board, s).len() - i,
{
    lemma_children(board, s);
    let k = color_of(s.to_move);
    let n = negamax_from::<H>(board, s, d, i, k);
    let m = minimax_from::<H>(board, s, d, i);
    if d == 0 {
        if k == 1 {
            assert(n.0 == m.0);
        } else {
            assert(n.0 == -m.0);
        }
    } else if i < 0 || i >= spec_next_moves(board, s).len() {
    } else if spec_ascension(s, spec_next_moves(board, s)[i]) {
    } else {
        let c = child(board, s, i);
        assert(color_of(c.to_move) == -k);
        lemma_negamax_matches_minimax::<H>(board, c, (d - 1) as nat, 0);
        lemma_negamax_matches_minimax::<H>(board, s, d, i + 1);
        if k == 1 {
            assert(n.0 == m.0);
        } else {
            assert(n.0 == -m.0);
        }
    }
}

/// The score the root search gives the `i`-th move of `s`, from player 0's point of
/// view: the best score times the sign of the player to move for a winning move, else
/// the negamax value one ply down times the sign of the player to move.
pub open spec fn negamax_root_score<H: Heuristic>(board: StandardBoard, s: State, d: nat, i: int) -> int {
    let c = color_of(s.to_move);
    if spec_ascension(s, spec_next_moves(board, s)[i]) {
        32767 * c
    } else {
        negamax::<H>(board, child(board, s, i), (d - 1) as nat, -c).0 * -c
    }
}

pub open spec fn negamax_scores<H: Heuristic>(board: StandardBoard, s: State, d: nat) -> spec_fn(int) -> int {
    |i: int| negamax_root_score::<H>(board, s, d, i)
}

/// Positions the root search counts for its moves from place `i` on.
pub open spec fn negamax_root_count<H: Heuristic>(board: StandardBoard, s: State, d: nat, i: int) -> nat
    decreases spec_next_moves(board, s).len() - i,
{
    if i < 0 || i >= spec_next_moves(board, s).len() {
        0
    } else {
        (if spec_ascension(s, spec_next_moves(board, s)[i]) { 1 } else {
            negamax::<H>(board, child(board, s, i), (d - 1) as nat, -color_of(s.to_move)).1
        }) + negamax_root_count::<H>(board, s, d, i + 1)
    }
}

impl NegaMax {
    /// The negamax value of `state` searched `depth` plies deep for the player of sign
    /// `color`, with the number of positions counted.
    pub fn eval<H: Heuristic>(board: &StandardBoard, state: &State, depth: Depth, color: HeuristicValue) -> (r: (HeuristicValue, MoveCount))
        requires
            board.wf(),
            state.wf(),
            color == 1 || color == -1,
            negamax::<H>(*board, *state, depth as nat, color as int).1 <= u32::MAX,
        ensures
            r.0 as int == negamax::<H>(*board, *state, depth as nat, color as int).0,
            r.1 as nat == negamax::<H>(*board, *state, depth as nat, color as int).1,
            -32767 <= r.0,
        decreases depth,
    {
        let mut moves: Vec<Move> = Vec::with_capacity(200);
        proof {
            lemma_children(*board, *state);
            lemma_negamax_range::<H>(*board, *state, depth as nat, 0, color as int);
        }
        board.next_moves(state, &mut moves);
        assert(moves@ =~= spec_next_moves(*board, *state));
        if depth == 0 {
            let v = if moves.len() == 0 {
                WORST
            } else {
                proof {
                    H::lemma_value_range(*board, *state);
                }
                H::evaluate(board, state) * color
            };
            return (v, 1);
        }
        let ghost total_spec = negamax::<H>(*board, *state, depth as nat, color as int);
        let mut total_moves: MoveCount = 0;
        let mut best_observed: HeuristicValue = WORST;
        let mut i: usize = 0;
        while i < moves.len()
            invariant
                board.wf(),
                state.wf(),
                depth > 0,
                color == 1 || color == -1,
                moves@ == spec_next_moves(*board, *state),
                moves.len() <= 250000,
                forall|k: int| 0 <= k < moves.len() ==> (#[trigger] child(*board, *state, k)).wf(),
                forall|k: int| 0 <= k < moves.len() ==> move_on_board(#[trigger] moves@[k]),
                0 <= i <= moves.len(),
                total_spec == negamax::<H>(*board, *state, depth as nat, color as int),
                total_spec.1 <= u32::MAX,
                -32767 <= best_observed,
                -32767 <= total_spec.0,
                imax(best_observed as int, negamax_from::<H>(*board, *state, depth as nat, i as int, color as int).0) == total_spec.0,
                total_moves + negamax_from::<H>(*board, *state, depth as nat, i as int, color as int).1 == total_spec.1,
            decreases moves.len() - i,
        {
            let mve = moves[i];
            if board.ascension_winning_move(state, mve) {
                return (BEST, total_moves + 1);
            }
            let new_state = board.apply(mve, state);
            let (v, move_count) = Self::eval::<H>(board, &new_state, depth - 1, -color);
            total_moves = total_moves + move_count;
            if -v > best_observed {
                best_observed = -v;
            }
            i = i + 1;
        }
        (best_observed, total_moves)
    }

    /// Each move is scored from player 0's point of view (a winning move by the best
    /// score for the player to move, else by the negamax value one ply down); the first
    /// move with the best score for the player to move is returned with its score.
    pub fn evaluate_moves_impl<H: Heuristic>(st: &mut (), board: &StandardBoard, state: &State, depth: Depth)
        -> (r: (Option<(Move, HeuristicValue)>, EvaluatorInfo))
        requires
            board.wf(),
            state.wf(),
            1 <= depth,
            negamax_root_count::<H>(*board, *state, depth as nat, 0) <= u32::MAX,
        ensures
            spec_next_moves(*board, *state).len() == 0 <==> r.0 is None,
            r.0 matches Some((m, v)) ==> exists|j: int| first_best(negamax_scores::<H>(*board, *state, depth as nat),
                spec_next_moves(*board, *state).len() as int, state.to_move.0 == 0, j)
                && m == spec_next_moves(*board, *state)[j] && v == negamax_root_score::<H>(*board, *state, depth as nat, j),
            r.1 == (EvaluatorInfo { move_count: negamax_root_count::<H>(*board, *state, depth as nat, 0) as u32, ..zero_info() }),
    {
        let color = color(state.to_move);
        let mut moves: Vec<Move> = Vec::with_capacity(200);
        proof {
            lemma_children(*board, *state);
        }
        board.next_moves(state, &mut moves);
        assert(moves@ =~= spec_next_moves(*board, *state));
        let ghost scores = negamax_scores::<H>(*board, *state, depth as nat);
        let maximise = color == 1;
        let mut total_moves: MoveCount = 0;
        let mut best: Option<(Move, HeuristicValue)> = None;
        let ghost mut best_j: int = 0;
        let mut i: usize = 0;
        while i < moves.len()
            invariant
                board.wf(),
                state.wf(),
                1 <= depth,
                color == color_of(state.to_move),
                moves@ == spec_next_moves(*board, *state),
                moves.len() <= 250000,
                forall|k: int| 0 <= k < moves.len() ==> (#[trigger] child(*board, *state, k)).wf(),
                forall|k: int| 0 <= k < moves.len() ==> move_on_board(#[trigger] moves@[k]),
                maximise == (state.to_move.0 == 0),
                scores == negamax_scores::<H>(*board, *state, depth as nat),
                0 <= i <= moves.len(),
                negamax_root_count::<H>(*board, *state, depth as nat, 0) <= u32::MAX,
                total_moves + negamax_root_count::<H>(*board, *state, depth as nat, i as int)
                    == negamax_root_count::<H>(*board, *state, depth as nat, 0),
                i == 0 <==> best is None,
                best matches Some((m, v)) ==> first_best(scores, i as int, maximise, best_j) && m == moves@[best_j]
                    && v == scores(best_j),
            decreases moves.len() - i,
        {
            let mve = moves[i];
            let v = if board.ascension_winning_move(state, mve) {
                total_moves = total_moves + 1;
                BEST * color
            } else {
                let new_state = board.apply(mve, state);
                proof {
                    lemma_negamax_range::<H>(*board, new_state, (depth - 1) as nat, 0, -color);
                }
                let (val, move_count) = Self::eval::<H>(board, &new_state, depth - 1, -color);
                total_moves = total_moves + move_count;
                val * -color
            };
            assert(v == scores(i as int));
            let better = match best {
                None => true,
                Some((_, bv)) => if maximise { v > bv } else { v < bv },
            };
            if better {
                best = Some((mve, v));
                proof {
                    best_j = i as int;
                }
            }
            i = i + 1;
        }
        (best, EvaluatorInfo::from_moves_depth(total_moves, depth))
    }
}

impl Evaluator for NegaMax {
    type EvaluatorState = ();

    open spec fn state_ok(st: &()) -> bool {
        true
    }

    open spec fn can_advance(st: &()) -> bool {
        true
    }

    fn name() -> (r: String)
        ensures
            r@ == "NegaMax"@,
    {
        "NegaMax".to_owned()
    }

    fn new_state() -> (r: ()) {
        ()
    }

    fn new_search(st: &mut ()) {
    }

    fn reset(st: &mut ()) {
    }
}

} // verus!
