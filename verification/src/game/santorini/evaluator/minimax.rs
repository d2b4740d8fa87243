//! Minimax: player 0 maximises the score, player 1 minimises it.
use vstd::prelude::*;
use crate::game::util::Player;
use crate::game::santorini::{Move, HeuristicValue, MoveCount, Depth};
use crate::game::santorini::board::{StandardBoard, spec_next_moves, spec_ascension};
use crate::game::santorini::state::State;
use crate::game::santorini::heuristic::{Heuristic, PLAYER_0_WIN, PLAYER_1_WIN};
use crate::game::santorini::evaluator_info::{EvaluatorInfo, zero_info};
use crate::game::santorini::search::{imax, imin, win_score, child, lemma_children};
use crate::game::santorini::evaluator::Evaluator;
use crate::game::santorini::perft::perft_from;

verus! {

pub struct MiniMax {}

/// The minimax value of `s` searched `d` plies deep, over its moves from place `i` on,
/// and the number of positions the search counts. At depth 0 a position without a
/// move is lost for the player to move, else it scores its heuristic value. A winning
/// move ends the search of its position; the moves before it count.
pub open spec fn minimax_from<H: Heuristic>(board: StandardBoard, s: State, d: nat, i: int) -> (int, nat)
    decreases d, spec_next_moves(board, s).len() - i,
{
    let moves = spec_next_moves(board, s);
    if d == 0 {
        (if moves.len() == 0 { -win_score(s.to_move) } else { H::heuristic_value(board, s) }, 1)
    } else if i < 0 || i >= moves.len() {
        (-win_score(s.to_move), 0)
    } else if spec_ascension(s, moves[i]) {
        (win_score(s.to_move), 1)
    } else {
        let c = minimax_from::<H>(board, child(board, s, i), (d - 1) as nat, 0);
        let r = minimax_from::<H>(board, s, d, i + 1);
        (if s.to_move.0 == 0 { imax(c.0, r.0) } else { imin(c.0, r.0) }, c.1 + r.1)
    }
}

pub open spec fn minimax<H: Heuristic>(board: StandardBoard, s: State, d: nat) -> (int, nat) {
    minimax_from::<H>(board, s, d, 0)
}

/// Minimax values are scores: between the two wins.
pub proof fn lemma_minimax_range<H: Heuristic>(board: StandardBoard, s: State, d: nat, i: int)
    requires
        board.wf(),
        s.wf(),
    ensures
        -32767 <= minimax_from::<H>(board, s, d, i).0 <= 32767,
    decreases d, spec_next_moves(board, s).len() - i,
{
    lemma_children(board, s);
    if d == 0 {
        H::lemma_value_range(board, s);
    } else if i < 0 || i >= spec_next_moves(board, s).len() {
    } else if spec_ascension(s, spec_next_moves(board, s)[i]) {
    } else {
        lemma_minimax_range::<H>(board, child(board, s, i), (d - 1) as nat, 0);
        lemma_minimax_range::<H>(board, s, d, i + 1);
    }
}

/// Minimax never counts more positions than `perft` counts move sequences: it stops at a
/// winning move, where `perft` goes on with the other moves.
pub proof fn lemma_minimax_counts_within_perft<H: Heuristic>(board: StandardBoard, s: State, d: nat, i: int)
    ensures
        minimax_from::<H>(board, s, d, i).1 <= perft_from(board, s, d, i),
    decreases d, spec_next_moves(board, s).len() - i,
{
    let moves = spec_next_moves(board, s);
    if d == 0 {
    } else if i < 0 || i >= moves.len() {
    } else if spec_ascension(s, moves[i]) {
    } else {
        lemma_minimax_counts_within_perft::<H>(board, child(board, s, i), (d - 1) as nat, 0);
        lemma_minimax_counts_within_perft::<H>(board, s, d, i + 1);
    }
}

/// The score the root search gives the `i`-th move of `s`: the win of the player to
/// move for a winning move, else the minimax value one ply down.
pub open spec fn minimax_root_score<H: Heuristic>(board: StandardBoard, s: State, d: nat, i: int) -> int {
    if spec_ascension(s, spec_next_moves(board, s)[i]) {
        win_score(s.to_move)
    } else {
        minimax::<H>(board, child(board, s, i), (d - 1) as nat).0
    }
}

/// Positions the root search counts for its moves from place `i` on.
pub open spec fn minimax_root_count<H: Heuristic>(board: StandardBoard, s: State, d: nat, i: int) -> nat
    decreases spec_next_moves(board, s).len() - i,
{
    if i < 0 || i >= spec_next_moves(board, s).len() {
        0
    } else {
        (if spec_ascension(s, spec_next_moves(board, s)[i]) { 1 } else {
            minimax::<H>(board, child(board, s, i), (d - 1) as nat).1
        }) + minimax_root_count::<H>(board, s, d, i + 1)
    }
}

/// `j` is the first of the moves whose score is best for the player to move: the
/// highest for player 0, the lowest for player 1.
pub open spec fn first_best(scores: spec_fn(int) -> int, n: int, maximise: bool, j: int) -> bool {
    &&& 0 <= j < n
    &&& forall|k: int| 0 <= k < n ==> if maximise { #[trigger] scores(k) <= scores(j) } else { scores(k) >= scores(j) }
    &&& forall|k: int| 0 <= k < j ==> if maximise { #[trigger] scores(k) < scores(j) } else { scores(k) > scores(j) }
}

pub open spec fn minimax_scores<H: Heuristic>(board: StandardBoard, s: State, d: nat) -> spec_fn(int) -> int {
    |i: int| minimax_root_score::<H>(board, s, d, i)
}

impl MiniMax {
    /// The minimax value of `state` searched `depth` plies deep, with the number of
    /// positions counted.
    pub fn eval<H: Heuristic>(board: &StandardBoard, state: &State, depth: Depth) -> (r: (HeuristicValue, MoveCount))
        requires
            board.wf(),
            state.wf(),
            minimax::<H>(*board, *state, depth as nat).1 <= u32::MAX,
        ensures
            r.0 as int == minimax::<H>(*board, *state, depth as nat).0,
            r.1 as nat == minimax::<H>(*board, *state, depth as nat).1,
            -32767 <= r.0,
        decreases depth,
    {
        let mut moves: Vec<Move> = Vec::with_capacity(200);
        proof {
            lemma_children(*board, *state);
        }
        board.next_moves(state, &mut moves);
        assert(moves@ =~= spec_next_moves(*board, *state));
        if depth == 0 {
            let v = if moves.len() == 0 {
                if state.to_move.0 == 0 { PLAYER_1_WIN } else { PLAYER_0_WIN }
            } else {
                H::evaluate(board, state)
            };
            return (v, 1);
        }
        let ghost total_spec = minimax::<H>(*board, *state, depth as nat);
        proof {
            lemma_minimax_range::<H>(*board, *state, depth as nat, 0);
        }
        let mut total_moves: MoveCount = 0;
        let maximise = state.to_move.0 == 0;
        let mut best_observed: HeuristicValue = if maximise { PLAYER_1_WIN } else { PLAYER_0_WIN };
        let mut i: usize = 0;
        while i < moves.len()
            invariant
                board.wf(),
                state.wf(),
                depth > 0,
                moves@ == spec_next_moves(*board, *state),
                moves.len() <= 250000,
                forall|k: int| 0 <= k < moves.len() ==> (#[trigger] child(*board, *state, k)).wf(),
                forall|k: int| 0 <= k < moves.len() ==> crate::game::santorini::board::move_on_board(#[trigger] moves@[k]),
                maximise == (state.to_move.0 == 0),
                0 <= i <= moves.len(),
                total_spec == minimax::<H>(*board, *state, depth as nat),
                total_spec.1 <= u32::MAX,
                -32767 <= best_observed,
                maximise ==> imax(best_observed as int, minimax_from::<H>(*board, *state, depth as nat, i as int).0) == total_spec.0,
                !maximise ==> imin(best_observed as int, minimax_from::<H>(*board, *state, depth as nat, i as int).0) == total_spec.0,
                total_moves + minimax_from::<H>(*board, *state, depth as nat, i as int).1 == total_spec.1,
            decreases moves.len() - i,
        {
            let mve = moves[i];
            if board.ascension_winning_move(state, mve) {
                return (if maximise { PLAYER_0_WIN } else { PLAYER_1_WIN }, total_moves + 1);
            }
            let new_state = board.apply(mve, state);
            let (v, move_count) = Self::eval::<H>(board, &new_state, depth - 1);
            total_moves = total_moves + move_count;
            if maximise {
                if v > best_observed {
                    best_observed = v;
                }
            } else {
                if v < best_observed {
                    best_observed = v;
                }
            }
            i = i + 1;
        }
        (best_observed, total_moves)
    }

    /// Each move is scored (a winning move by the win of the player to move, else by its
    /// minimax value one ply down); the first move with the best score for the player
    /// to move is returned with its score.
    pub fn evaluate_moves_impl<H: Heuristic>(st: &mut (), board: &StandardBoard, state: &State, depth: Depth)
        -> (r: (Option<(Move, HeuristicValue)>, EvaluatorInfo))
        requires
            board.wf(),
            state.wf(),
            1 <= depth,
            minimax_root_count::<H>(*board, *state, depth as nat, 0) <= u32::MAX,
        ensures
            spec_next_moves(*board, *state).len() == 0 <==> r.0 is None,
            r.0 matches Some((m, v)) ==> exists|j: int| first_best(minimax_scores::<H>(*board, *state, depth as nat),
                spec_next_moves(*board, *state).len() as int, state.to_move.0 == 0, j)
                && m == spec_next_moves(*board, *state)[j] && v == minimax_root_score::<H>(*board, *state, depth as nat, j),
            r.1 == (EvaluatorInfo { move_count: minimax_root_count::<H>(*board, *state, depth as nat, 0) as u32, ..zero_info() }),
    {
        let mut moves: Vec<Move> = Vec::with_capacity(200);
        proof {
            lemma_children(*board, *state);
        }
        board.next_moves(state, &mut moves);
        assert(moves@ =~= spec_next_moves(*board, *state));
        let ghost scores = minimax_scores::<H>(*board, *state, depth as nat);
        let ghost n = moves.len() as int;
        let maximise = state.to_move.0 == 0;
        let mut total_moves: MoveCount = 0;
        let mut best: Option<(Move, HeuristicValue)> = None;
        let ghost mut best_j: int = 0;
        let mut i: usize = 0;
        while i < moves.len()
            invariant
                board.wf(),
                state.wf(),
                1 <= depth,
                moves@ == spec_next_moves(*board, *state),
                n == moves.len(),
                moves.len() <= 250000,
                forall|k: int| 0 <= k < moves.len() ==> (#[trigger] child(*board, *state, k)).wf(),
                forall|k: int| 0 <= k < moves.len() ==> crate::game::santorini::board::move_on_board(#[trigger] moves@[k]),
                maximise == (state.to_move.0 == 0),
                scores == minimax_scores::<H>(*board, *state, depth as nat),
                0 <= i <= moves.len(),
                minimax_root_count::<H>(*board, *state, depth as nat, 0) <= u32::MAX,
                total_moves + minimax_root_count::<H>(*board, *state, depth as nat, i as int)
                    == minimax_root_count::<H>(*board, *state, depth as nat, 0),
                i == 0 <==> best is None,
                best matches Some((m, v)) ==> first_best(scores, i as int, maximise, best_j) && m == moves@[best_j]
                    && v == scores(best_j),
            decreases moves.len() - i,
        {
            let mve = moves[i];
            let v = if board.ascension_winning_move(state, mve) {
                total_moves = total_moves + 1;
                if maximise { PLAYER_0_WIN } else { PLAYER_1_WIN }
            } else {
                let new_state = board.apply(mve, state);
                let (val, move_count) = Self::eval::<H>(board, &new_state, depth - 1);
                total_moves = total_moves + move_count;
                val
            };
            assert(v == scores(i as int));
            let better = match best {
                None => true,
                Some((_, bv)) => if maximise { v > bv } else { v < bv },
            };
            if better {
                best = Some((mve, v));
                proof {
                    best_j = i as int;
                }
            }
            i = i + 1;
        }
        (best, EvaluatorInfo::from_moves_depth(total_moves, depth))
    }
}

impl Evaluator for MiniMax {
    type EvaluatorState = ();

    open spec fn state_ok(st: &()) -> bool {
        true
    }

    open spec fn can_advance(st: &()) -> bool {
        true
    }

    fn name() -> (r: String)
        ensures
            r@ == "MiniMax"@,
    {
        "MiniMax".to_owned()
    }

    fn new_state() -> (r: ()) {
        ()
    }

    fn new_search(st: &mut ()) {
    }

    fn reset(st: &mut ()) {
    }

}

} // verus!
