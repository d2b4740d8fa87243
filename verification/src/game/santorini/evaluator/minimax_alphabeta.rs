//! Minimax with alpha-beta bounds: player 0 raises `alpha`, player 1 lowers `beta`, and
//! the children are searched with the bounds so far.
use vstd::prelude::*;
use crate::game::santorini::{Move, HeuristicValue, MoveCount, Depth};
use crate::game::santorini::board::{StandardBoard, spec_next_moves, spec_ascension, move_on_board};
use crate::game::santorini::state::State;
use crate::game::santorini::heuristic::{Heuristic, PLAYER_0_WIN, PLAYER_1_WIN};
use crate::game::santorini::evaluator_info::{EvaluatorInfo, zero_info};
use crate::game::santorini::search::{imax, imin, win_score, child, lemma_children};
use crate::game::santorini::evaluator::Evaluator;
use crate::game::santorini::evaluator::minimax::{first_best, minimax, minimax_from, lemma_minimax_range};

verus! {

pub struct MiniMaxAlphaBeta {}

/// The search of `s` with `d` plies left and bounds `(alpha, beta)`, resumed at its move
/// `i` with the moving bound `bound` (alpha for player 0, beta for player 1), best value
/// so far `best` and `total` positions counted; the value and the final count. At depth
/// 0 a position without a move is lost for the player to move, else it scores its
/// heuristic value. A winning move returns the win of the player to move. Player 0
/// searches each child with `(bound, beta)` and keeps the highest value, player 1 with
/// `(alpha, bound)` and keeps the lowest; the search stops after a child when the bounds
/// it was given have `beta <= alpha`.
pub open spec fn mmab_from<H: Heuristic>(board: StandardBoard, s: State, d: nat, i: int, alpha: int, beta: int,
    bound: int, best: int, total: nat) -> (int, nat)
    decreases d, spec_next_moves(board, s).len() - i,
{
    let moves = spec_next_moves(board, s);
    let maximise = s.to_move.0 == 0;
    if d == 0 {
        (if moves.len() == 0 { -win_score(s.to_move) } else { H::heuristic_value(board, s) }, 1)
    } else if i < 0 || i >= moves.len() {
        (best, total)
    } else if spec_ascension(s, moves[i]) {
        (win_score(s.to_move), total + 1)
    } else {
        let cs = child(board, s, i);
        let cmax = cs.to_move.0 == 0;
        let (ca, cb) = if maximise { (bound, beta) } else { (alpha, bound) };
        let c = mmab_from::<H>(board, cs, (d - 1) as nat, 0, ca, cb, if cmax { ca } else { cb }, -win_score(cs.to_move), 0);
        let bound2 = if maximise { imax(c.0, bound) } else { imin(bound, c.0) };
        let best2 = if maximise { imax(c.0, best) } else { imin(c.0, best) };
        if beta <= alpha {
            (best2, total + c.1)
        } else {
            mmab_from::<H>(board, s, d, i + 1, alpha, beta, bound2, best2, total + c.1)
        }
    }
}

/// The search of `s` to depth `d` with bounds `(alpha, beta)`.
pub open spec fn mmab<H: Heuristic>(board: StandardBoard, s: State, d: nat, alpha: int, beta: int) -> (int, nat) {
    let maximise = s.to_move.0 == 0;
    mmab_from::<H>(board, s, d, 0, alpha, beta, if maximise { alpha } else { beta }, -win_score(s.to_move), 0)
}
/// The search counts at least what it had counted, and its value is a score.
pub proof fn lemma_mmab_facts<H: Heuristic>(board: StandardBoard, s: State, d: nat, i: int, alpha: int, beta: int,
    bound: int, best: int, total: nat)
    requires
        board.wf(),
        s.wf(),
        -32767 <= best <= 32767,
        d == 0 ==> total == 0,
    ensures
        mmab_from::<H>(board, s, d, i, alpha, beta, bound, best, total).1 >= total,
        -32767 <= mmab_from::<H>(board, s, d, i, alpha, beta, bound, best, total).0 <= 32767,
    decreases d, spec_next_moves(board, s).len() - i,
{
    lemma_children(board, s);
    let moves = spec_next_moves(board, s);
    let maximise = s.to_move.0 == 0;
    if d == 0 {
        H::lemma_value_range(board, s);
    } else if i < 0 || i >= moves.len() {
    } else if spec_ascension(s, moves[i]) {
    } else {
        let cs = child(board, s, i);
        let cmax = cs.to_move.0 == 0;
        let (ca, cb) = if maximise { (bound, beta) } else { (alpha, bound) };
        let c = mmab_from::<H>(board, cs, (d - 1) as nat, 0, ca, cb, if cmax { ca } else { cb }, -win_score(cs.to_move), 0);
        lemma_mmab_facts::<H>(board, cs, (d - 1) as nat, 0, ca, cb, if cmax { ca } else { cb }, -win_score(cs.to_move), 0);
        let bound2 = if maximise { imax(c.0, bound) } else { imin(bound, c.0) };
        let best2 = if maximise { imax(c.0, best) } else { imin(c.0, best) };
        lemma_mmab_facts::<H>(board, s, d, i + 1, alpha, beta, bound2, best2, total + c.1);
    }
}

/// What a search with bounds `(alpha, beta)` that answered `r` tells of the true value
/// `v`: `r` is `v` when it lies strictly inside the bounds, and it is on the same side
/// of a bound as `v` otherwise.
pub open spec fn window_answer(r: int, v: int, alpha: int, beta: int) -> bool {
    &&& (alpha < r < beta ==> r == v)
    &&& (r <= alpha ==> v <= alpha)
    &&& (beta <= r ==> beta <= v)
}

/// The loop of a position of player 0 resumed at move `i`: `t` is the largest minimax
/// value of the moves already searched (the loss if none), `best` the largest answer the
/// search gave them, and `bound` the larger of `alpha` and `best` (or `alpha` itself,
/// below every score, before the first move).
proof fn lemma_mmab_max_loop<H: Heuristic>(board: StandardBoard, s: State, d: nat, i: int, alpha: int, beta: int,
    bound: int, best: int, t: int, total: nat)
    requires
        board.wf(),
        s.wf(),
        s.to_move.0 == 0,
        d > 0,
        0 <= i,
        -32768 <= alpha < beta <= 32767,
        -32767 <= best <= 32767,
        -32767 <= t <= 32767,
        bound == imax(alpha, best) || (bound == alpha && best == -32767 && t == -32767),
        best < beta ==> t <= imax(alpha, best) && (best > alpha ==> t == best),
        best >= beta ==> t >= beta,
    ensures
        window_answer(mmab_from::<H>(board, s, d, i, alpha, beta, bound, best, total).0,
            imax(t, minimax_from::<H>(board, s, d, i).0), alpha, beta),
    decreases d, spec_next_moves(board, s).len() - i, 0int,
{
    lemma_children(board, s);
    let moves = spec_next_moves(board, s);
    lemma_minimax_range::<H>(board, s, d, i);
    if i >= moves.len() {
    } else if spec_ascension(s, moves[i]) {
    } else {
        let cs = child(board, s, i);
        let c = mmab::<H>(board, cs, (d - 1) as nat, bound, beta);
        let vc = minimax::<H>(board, cs, (d - 1) as nat).0;
        lemma_minimax_range::<H>(board, cs, (d - 1) as nat, 0);
        lemma_mmab_facts::<H>(board, cs, (d - 1) as nat, 0, bound, beta, if cs.to_move.0 == 0 { bound } else { beta },
            -win_score(cs.to_move), 0);
        if bound < beta {
            lemma_mmab_window::<H>(board, cs, (d - 1) as nat, bound, beta);
        }
        lemma_minimax_range::<H>(board, s, d, i + 1);
        lemma_mmab_max_loop::<H>(board, s, d, i + 1, alpha, beta, imax(c.0, bound), imax(c.0, best), imax(t, vc), total + c.1);
    }
}

/// The loop of a position of player 1 resumed at move `i`: `t` is the smallest minimax
/// value of the moves already searched (the loss if none), `best` the smallest answer the
/// search gave them.
proof fn lemma_mmab_min_loop<H: Heuristic>(board: StandardBoard, s: State, d: nat, i: int, alpha: int, beta: int,
    best: int, t: int, total: nat)
    requires
        board.wf(),
        s.wf(),
        s.to_move.0 == 1,
        d > 0,
        0 <= i,
        -32768 <= alpha < beta <= 32767,
        -32767 <= best <= 32767,
        -32767 <= t <= 32767,
        best > alpha ==> t >= imin(beta, best) && (best < beta ==> t == best),
        best <= alpha ==> t <= alpha,
    ensures
        window_answer(mmab_from::<H>(board, s, d, i, alpha, beta, imin(beta, best), best, total).0,
            imin(t, minimax_from::<H>(board, s, d, i).0), alpha, beta),
    decreases d, spec_next_moves(board, s).len() - i, 0int,
{
    lemma_children(board, s);
    let moves = spec_next_moves(board, s);
    lemma_minimax_range::<H>(board, s, d, i);
    if i >= moves.len() {
    } else if spec_ascension(s, moves[i]) {
    } else {
        let cs = child(board, s, i);
        let bound = imin(beta, best);
        let c = mmab::<H>(board, cs, (d - 1) as nat, alpha, bound);
        let vc = minimax::<H>(board, cs, (d - 1) as nat).0;
        lemma_minimax_range::<H>(board, cs, (d - 1) as nat, 0);
        lemma_mmab_facts::<H>(board, cs, (d - 1) as nat, 0, alpha, bound, if cs.to_move.0 == 0 { alpha } else { bound },
            -win_score(cs.to_move), 0);
        if alpha < bound {
            lemma_mmab_window::<H>(board, cs, (d - 1) as nat, alpha, bound);
        }
        lemma_minimax_range::<H>(board, s, d, i + 1);
        lemma_mmab_min_loop::<H>(board, s, d, i + 1, alpha, beta, imin(c.0, best), imin(t, vc), total + c.1);
    }
}

/// Alpha-beta with bounds `alpha < beta` answers the minimax value when its answer lies
/// strictly inside the bounds, and otherwise an answer on the same side of a bound as the
/// minimax value; with the full window, the minimax value itself.
pub proof fn lemma_mmab_window<H: Heuristic>(board: StandardBoard, s: State, d: nat, alpha: int, beta: int)
    requires
        board.wf(),
        s.wf(),
        -32768 <= alpha < beta <= 32767,
    ensures
        window_answer(mmab::<H>(board, s, d, alpha, beta).0, minimax::<H>(board, s, d).0, alpha, beta),
        alpha == -32767 && beta == 32767 ==> mmab::<H>(board, s, d, alpha, beta).0 == minimax::<H>(board, s, d).0,
    decreases d, spec_next_moves(board, s).len() + 1, 1int,
{
    lemma_minimax_range::<H>(board, s, d, 0);
    lemma_mmab_facts::<H>(board, s, d, 0, alpha, beta, if s.to_move.0 == 0 { alpha } else { beta }, -win_score(s.to_move), 0);
    if d == 0 {
    } else if s.to_move.0 == 0 {
        lemma_mmab_max_loop::<H>(board, s, d, 0, alpha, beta, alpha, -32767, -32767, 0);
    } else {
        lemma_mmab_min_loop::<H>(board, s, d, 0, alpha, beta, 32767, 32767, 0);
    }
}

/// Alpha-beta never counts more positions than minimax over the same moves: a cut-off
/// only leaves moves out.
pub proof fn lemma_mmab_counts_no_more<H: Heuristic>(board: StandardBoard, s: State, d: nat, i: int, alpha: int, beta: int,
    bound: int, best: int, total: nat)
    requires
        d == 0 ==> total == 0,
    ensures
        mmab_from::<H>(board, s, d, i, alpha, beta, bound, best, total).1 <= total + minimax_from::<H>(board, s, d, i).1,
    decreases d, spec_next_moves(board, s).len() - i,
{
    let moves = spec_next_moves(board, s);
    let maximise = s.to_move.0 == 0;
    if d == 0 {
    } else if i < 0 || i >= moves.len() {
    } else if spec_ascension(s, moves[i]) {
    } else {
        let cs = child(board, s, i);
        let cmax = cs.to_move.0 == 0;
        let (ca, cb) = if maximise { (bound, beta) } else { (alpha, bound) };
        let c = mmab_from::<H>(board, cs, (d - 1) as nat, 0, ca, cb, if cmax { ca } else { cb }, -win_score(cs.to_move), 0);
        lemma_mmab_counts_no_more::<H>(board, cs, (d - 1) as nat, 0, ca, cb, if cmax { ca } else { cb }, -win_score(cs.to_move), 0);
        let bound2 = if maximise { imax(c.0, bound) } else { imin(bound, c.0) };
        let best2 = if maximise { imax(c.0, best) } else { imin(c.0, best) };
        lemma_mmab_counts_no_more::<H>(board, s, d, i + 1, alpha, beta, bound2, best2, total + c.1);
    }
}

/// Score and count of the root search's move `i` with bounds `(a, b)`: the win of the
/// player to move for a winning move, else the search one ply down with those bounds.
pub open spec fn mmab_root_step<H: Heuristic>(board: StandardBoard, s: State, d: nat, i: int, a: int, b: int) -> (int, nat) {
    if spec_ascension(s, spec_next_moves(board, s)[i]) {
        (win_score(s.to_move), 1)
    } else {
        mmab::<H>(board, child(board, s, i), (d - 1) as nat, a, b)
    }
}

/// Bounds of the root search before its move `i`.
pub open spec fn mmab_root_bounds<H: Heuristic>(board: StandardBoard, s: State, d: nat, i: int) -> (int, int)
    decreases i,
{
    if i <= 0 {
        (-32767, 32767)
    } else {
        let ab = mmab_root_bounds::<H>(board, s, d, i - 1);
        let v = mmab_root_step::<H>(board, s, d, i - 1, ab.0, ab.1).0;
        if s.to_move.0 == 0 { (imax(ab.0, v), ab.1) } else { (ab.0, imin(ab.1, v)) }
    }
}

pub open spec fn mmab_scores<H: Heuristic>(board: StandardBoard, s: State, d: nat) -> spec_fn(int) -> int {
    |i: int| mmab_root_step::<H>(board, s, d, i, mmab_root_bounds::<H>(board, s, d, i).0, mmab_root_bounds::<H>(board, s, d, i).1).0
}

/// Positions the root search counts for its first `n` moves.
pub open spec fn mmab_root_count<H: Heuristic>(board: StandardBoard, s: State, d: nat, n: int) -> nat
    decreases n,
{
    if n <= 0 {
        0
    } else {
        mmab_root_count::<H>(board, s, d, n - 1) + mmab_root_step::<H>(board, s, d, n - 1,
            mmab_root_bounds::<H>(board, s, d, n - 1).0, mmab_root_bounds::<H>(board, s, d, n - 1).1).1
    }
}

proof fn lemma_mmab_root_count_mono<H: Heuristic>(board: StandardBoard, s: State, d: nat, a: int, b: int)
    requires
        a <= b,
    ensures
        mmab_root_count::<H>(board, s, d, a) <= mmab_root_count::<H>(board, s, d, b),
    decreases b - a,
{
    if a < b {
        lemma_mmab_root_count_mono::<H>(board, s, d, a, b - 1);
    }
}

impl MiniMaxAlphaBeta {
    /// The value of `state` searched `depth` plies deep with bounds `(alpha, beta)`, with
    /// the number of positions counted.
    pub fn eval<H: Heuristic>(board: &StandardBoard, state: &State, depth: Depth, alpha: HeuristicValue, beta: HeuristicValue)
        -> (r: (HeuristicValue, MoveCount))
        requires
            board.wf(),
            state.wf(),
            mmab::<H>(*board, *state, depth as nat, alpha as int, beta as int).1 <= u32::MAX,
        ensures
            r.0 as int == mmab::<H>(*board, *state, depth as nat, alpha as int, beta as int).0,
            r.1 as nat == mmab::<H>(*board, *state, depth as nat, alpha as int, beta as int).1,
            -32767 <= r.0,
        decreases depth,
    {
        let mut moves: Vec<Move> = Vec::with_capacity(200);
        let maximise = state.to_move.0 == 0;
        proof {
            lemma_children(*board, *state);
            lemma_mmab_facts::<H>(*board, *state, depth as nat, 0, alpha as int, beta as int,
                if maximise { alpha as int } else { beta as int }, -win_score(state.to_move), 0);
        }
        board.next_moves(state, &mut moves);
        assert(moves@ =~= spec_next_moves(*board, *state));
        if depth == 0 {
            let v = if moves.len() == 0 {
                if maximise { PLAYER_1_WIN } else { PLAYER_0_WIN }
            } else {
                H::evaluate(board, state)
            };
            return (v, 1);
        }
        let ghost total_spec = mmab::<H>(*board, *state, depth as nat, alpha as int, beta as int);
        let mut total_moves: MoveCount = 0;
        let mut bound: HeuristicValue = if maximise { alpha } else { beta };
        let mut best_observed: HeuristicValue = if maximise { PLAYER_1_WIN } else { PLAYER_0_WIN };
        let mut i: usize = 0;
        while i < moves.len()
            invariant_except_break
                total_spec == mmab_from::<H>(*board, *state, depth as nat, i as int, alpha as int, beta as int, bound as int,
                    best_observed as int, total_moves as nat),
            invariant
                board.wf(),
                state.wf(),
                depth > 0,
                maximise == (state.to_move.0 == 0),
                moves@ == spec_next_moves(*board, *state),
                moves.len() <= 250000,
                forall|k: int| 0 <= k < moves.len() ==> (#[trigger] child(*board, *state, k)).wf(),
                forall|k: int| 0 <= k < moves.len() ==> move_on_board(#[trigger] moves@[k]),
                0 <= i <= moves.len(),
                -32767 <= best_observed,
                total_spec.1 <= u32::MAX,
                total_spec == mmab::<H>(*board, *state, depth as nat, alpha as int, beta as int),
            ensures
                total_spec == (best_observed as int, total_moves as nat),
            decreases moves.len() - i,
        {
            let mve = moves[i];
            if board.ascension_winning_move(state, mve) {
                return (if maximise { PLAYER_0_WIN } else { PLAYER_1_WIN }, total_moves + 1);
            }
            let new_state = board.apply(mve, state);
            let (ca, cb) = if maximise { (bound, beta) } else { (alpha, bound) };
            proof {
                let cmax = new_state.to_move.0 == 0;
                let c = mmab::<H>(*board, new_state, (depth - 1) as nat, ca as int, cb as int);
                lemma_mmab_facts::<H>(*board, new_state, (depth - 1) as nat, 0, ca as int, cb as int,
                    if cmax { ca as int } else { cb as int }, -win_score(new_state.to_move), 0);
                let bound2 = if maximise { imax(c.0, bound as int) } else { imin(bound as int, c.0) };
                let best2 = if maximise { imax(c.0, best_observed as int) } else { imin(c.0, best_observed as int) };
                lemma_mmab_facts::<H>(*board, *state, depth as nat, i + 1, alpha as int, beta as int, bound2, best2,
                    (total_moves + c.1) as nat);
            }
            let (v, move_count) = Self::eval::<H>(board, &new_state, depth - 1, ca, cb);
            total_moves = total_moves + move_count;
            if maximise {
                if v > bound {
                    bound = v;
                }
                if v > best_observed {
                    best_observed = v;
                }
            } else {
                if v < best_observed {
                    best_observed = v;
                }
                if v < bound {
                    bound = v;
                }
            }
            if beta <= alpha {
                break;
            }
            i = i + 1;
        }
        (best_observed, total_moves)
    }

    /// Each move is scored (a winning move by the win of the player to move, else by the
    /// search one ply down with the root's bounds, player 0 raising alpha and player 1
    /// lowering beta as the scores come); the first move with the best score for the
    /// player to move is returned with its score.
    pub fn evaluate_moves_impl<H: Heuristic>(st: &mut (), board: &StandardBoard, state: &State, depth: Depth)
        -> (r: (Option<(Move, HeuristicValue)>, EvaluatorInfo))
        requires
            board.wf(),
            state.wf(),
            1 <= depth,
            mmab_root_count::<H>(*board, *state, depth as nat, spec_next_moves(*board, *state).len() as int) <= u32::MAX,
        ensures
            spec_next_moves(*board, *state).len() == 0 <==> r.0 is None,
            r.0 matches Some((m, v)) ==> exists|j: int| first_best(mmab_scores::<H>(*board, *state, depth as nat),
                spec_next_moves(*board, *state).len() as int, state.to_move.0 == 0, j)
                && m == spec_next_moves(*board, *state)[j] && v == mmab_scores::<H>(*board, *state, depth as nat)(j),
            r.1 == (EvaluatorInfo { move_count: mmab_root_count::<H>(*board, *state, depth as nat,
                spec_next_moves(*board, *state).len() as int) as u32, ..zero_info() }),
    {
        let mut moves: Vec<Move> = Vec::with_capacity(200);
        proof {
            lemma_children(*board, *state);
        }
        board.next_moves(state, &mut moves);
        assert(moves@ =~= spec_next_moves(*board, *state));
        let ghost scores = mmab_scores::<H>(*board, *state, depth as nat);
        let ghost n = moves.len() as int;
        let maximise = state.to_move.0 == 0;
        let mut total_moves: MoveCount = 0;
        let mut alpha: HeuristicValue = -32767;
        let mut beta: HeuristicValue = 32767;
        let mut best: Option<(Move, HeuristicValue)> = None;
        let ghost mut best_j: int = 0;
        let mut i: usize = 0;
        while i < moves.len()
            invariant
                board.wf(),
                state.wf(),
                1 <= depth,
                moves@ == spec_next_moves(*board, *state),
                n == moves.len(),
                moves.len() <= 250000,
                forall|k: int| 0 <= k < moves.len() ==> (#[trigger] child(*board, *state, k)).wf(),
                forall|k: int| 0 <= k < moves.len() ==> move_on_board(#[trigger] moves@[k]),
                maximise == (state.to_move.0 == 0),
                scores == mmab_scores::<H>(*board, *state, depth as nat),
                0 <= i <= moves.len(),
                (alpha as int, beta as int) == mmab_root_bounds::<H>(*board, *state, depth as nat, i as int),
                -32767 <= alpha,
                -32767 <= beta,
                mmab_root_count::<H>(*board, *state, depth as nat, n) <= u32::MAX,
                total_moves == mmab_root_count::<H>(*board, *state, depth as nat, i as int),
                i == 0 <==> best is None,
                best matches Some((m, v)) ==> first_best(scores, i as int, maximise, best_j) && m == moves@[best_j]
                    && v == scores(best_j),
            decreases moves.len() - i,
        {
            proof {
                lemma_mmab_root_count_mono::<H>(*board, *state, depth as nat, i as int + 1, n);
            }
            let ghost a0 = alpha as int;
            let ghost b0 = beta as int;
            let ghost step = mmab_root_step::<H>(*board, *state, depth as nat, i as int, a0, b0);
            let mve = moves[i];
            let v = if board.ascension_winning_move(state, mve) {
                total_moves = total_moves + 1;
                if maximise {
                    alpha = PLAYER_0_WIN;
                    PLAYER_0_WIN
                } else {
                    beta = PLAYER_1_WIN;
                    PLAYER_1_WIN
                }
            } else {
                let new_state = board.apply(mve, state);
                proof {
                    let cmax = new_state.to_move.0 == 0;
                    lemma_mmab_facts::<H>(*board, new_state, (depth - 1) as nat, 0, alpha as int, beta as int,
                        if cmax { alpha as int } else { beta as int }, -win_score(new_state.to_move), 0);
                }
                let (val, move_count) = Self::eval::<H>(board, &new_state, depth - 1, alpha, beta);
                if maximise {
                    if val > alpha {
                        alpha = val;
                    }
                } else {
                    if val < beta {
                        beta = val;
                    }
                }
                total_moves = total_moves + move_count;
                val
            };
            assert(v == step.0 && total_moves == mmab_root_count::<H>(*board, *state, depth as nat, i as int) + step.1);
            assert(v == scores(i as int));
            assert(mmab_root_bounds::<H>(*board, *state, depth as nat, i as int + 1)
                == (if maximise { (imax(a0, step.0), b0) } else { (a0, imin(b0, step.0)) }));
            let better = match best {
                None => true,
                Some((_, bv)) => if maximise { v > bv } else { v < bv },
            };
            if better {
                best = Some((mve, v));
                proof {
                    best_j = i as int;
                }
            }
            i = i + 1;
        }
        (best, EvaluatorInfo::from_moves_depth(total_moves, depth))
    }
}

impl Evaluator for MiniMaxAlphaBeta {
    type EvaluatorState = ();

    open spec fn state_ok(st: &()) -> bool {
        true
    }

    open spec fn can_advance(st: &()) -> bool {
        true
    }

    fn name() -> (r: String)
        ensures
            r@ == "MiniMaxAlphaBeta"@,
    {
        "MiniMaxAlphaBeta".to_owned()
    }

    fn new_state() -> (r: ()) {
        ()
    }

    fn new_search(st: &mut ()) {
    }

    fn reset(st: &mut ()) {
    }
}

} // verus!
