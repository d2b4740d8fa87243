//! Negamax with alpha-beta pruning: the search of a position stops as soon as a move
//! reaches `beta`, and the children are searched with the window `(-beta, -alpha)`.
use vstd::prelude::*;
use crate::game::santorini::{Move, HeuristicValue, MoveCount, Depth};
use crate::game::santorini::board::{StandardBoard, spec_next_moves, spec_ascension, move_on_board};
use crate::game::santorini::state::State;
use crate::game::santorini::heuristic::{Heuristic, BEST, WORST};
use crate::game::santorini::evaluator_info::{EvaluatorInfo, zero_info};
use crate::game::santorini::search::{imax, imin, win_score, color_of, color, child, lemma_children};
use crate::game::santorini::evaluator::Evaluator;
use crate::game::santorini::evaluator::minimax::first_best;
use crate::game::santorini::evaluator::negamax::negamax_from;
use crate::game::santorini::negamax_alphabeta_exp::fail_soft;

verus! {

pub struct NegaMaxAlphaBeta {}

/// The alpha-beta search of `s` with `d` plies left, for the player of sign `color`,
/// resumed at its move `i` with lower bound `alpha`, best score so far `best` and
/// `total` positions counted; the value and the final count. At depth 0 the heuristic
/// value times `color`, counting one. A winning move returns the best score; otherwise
/// a move scores minus its child's search with window `(-beta, -alpha)`, and the search
/// stops once `alpha` reaches `beta`.
pub open spec fn nab_from<H: Heuristic>(board: StandardBoard, s: State, d: nat, i: int, alpha: int, beta: int,
    color: int, best: int, total: nat) -> (int, nat)
    decreases d, spec_next_moves(board, s).len() - i,
{
    let moves = spec_next_moves(board, s);
    if d == 0 {
        (H::heuristic_value(board, s) * color, 1)
    } else if i < 0 || i >= moves.len() {
        (best, total)
    } else if spec_ascension(s, moves[i]) {
        (32767, total + 1)
    } else {
        let c = nab_from::<H>(board, child(board, s, i), (d - 1) as nat, 0, -beta, -alpha, -color, -32767, 0);
        let v = -c.0;
        let best2 = imax(best, v);
        let alpha2 = imax(alpha, v);
        if beta <= alpha2 {
            (best2, total + c.1)
        } else {
            nab_from::<H>(board, s, d, i + 1, alpha2, beta, color, best2, total + c.1)
        }
    }
}

/// The alpha-beta search of `s` to depth `d` with window `(alpha, beta)`.
pub open spec fn nab<H: Heuristic>(board: StandardBoard, s: State, d: nat, alpha: int, beta: int, color: int) -> (int, nat) {
    nab_from::<H>(board, s, d, 0, alpha, beta, color, -32767, 0)
}

/// The search counts at least what it had counted, and its value is a score.
pub proof fn lemma_nab_facts<H: Heuristic>(board: StandardBoard, s: State, d: nat, i: int, alpha: int, beta: int,
    color: int, best: int, total: nat)
    requires
        board.wf(),
        s.wf(),
        color == 1 || color == -1,
        -32767 <= best <= 32767,
        d == 0 ==> total == 0,
    ensures
        nab_from::<H>(board, s, d, i, alpha, beta, color, best, total).1 >= total,
        -32767 <= nab_from::<H>(board, s, d, i, alpha, beta, color, best, total).0 <= 32767,
    decreases d, spec_next_moves(board, s).len() - i,
{
    lemma_children(board, s);
    let moves = spec_next_moves(board, s);
    if d == 0 {
        H::lemma_value_range(board, s);
    } else if i < 0 || i >= moves.len() {
    } else if spec_ascension(s, moves[i]) {
    } else {
        let c = nab_from::<H>(board, child(board, s, i), (d - 1) as nat, 0, -beta, -alpha, -color, -32767, 0);
        lemma_nab_facts::<H>(board, child(board, s, i), (d - 1) as nat, 0, -beta, -alpha, -color, -32767, 0);
        let v = -c.0;
        lemma_nab_facts::<H>(board, s, d, i + 1, imax(alpha, v), beta, color, imax(best, v), total + c.1);
    }
}

/// Negamax that scores every position at the horizon by its heuristic value times
/// `color`, a position without a move too: the value `nab` searches for. A winning move
/// scores the best and ends the search of its position.
pub open spec fn plain_negamax_from<H: Heuristic>(board: StandardBoard, s: State, d: nat, i: int, color: int) -> int
    decreases d, spec_next_moves(board, s).len() - i,
{
    let moves = spec_next_moves(board, s);
    if d == 0 {
        H::heuristic_value(board, s) * color
    } else if i < 0 || i >= moves.len() {
        -32767
    } else if spec_ascension(s, moves[i]) {
        32767
    } else {
        imax(-plain_negamax_from::<H>(board, child(board, s, i), (d - 1) as nat, 0, -color),
            plain_negamax_from::<H>(board, s, d, i + 1, color))
    }
}

/// Minimax with every position at the horizon scored by its heuristic value, one without
/// a move included: player 0 takes the highest value, player 1 the lowest, a winning move
/// gives the win of the player to move, and a position without a move above the horizon
/// is lost for the player to move.
pub open spec fn plain_minimax_from<H: Heuristic>(board: StandardBoard, s: State, d: nat, i: int) -> int
    decreases d, spec_next_moves(board, s).len() - i,
{
    let moves = spec_next_moves(board, s);
    if d == 0 {
        H::heuristic_value(board, s)
    } else if i < 0 || i >= moves.len() {
        -win_score(s.to_move)
    } else if spec_ascension(s, moves[i]) {
        win_score(s.to_move)
    } else {
        let c = plain_minimax_from::<H>(board, child(board, s, i), (d - 1) as nat, 0);
        let r = plain_minimax_from::<H>(board, s, d, i + 1);
        if s.to_move.0 == 0 { imax(c, r) } else { imin(c, r) }
    }
}

/// The plain negamax value, for the sign of the player to move, is that sign times the
/// plain minimax value.
pub proof fn lemma_plain_negamax_is_minimax<H: Heuristic>(board: StandardBoard, s: State, d: nat, i: int)
    requires
        board.wf(),
        s.wf(),
    ensures
        plain_negamax_from::<H>(board, s, d, i, color_of(s.to_move)) == color_of(s.to_move) * plain_minimax_from::<H>(board, s, d, i),
    decreases d, spec_next_moves(board, s).len() - i,
{
    lemma_children(board, s);
    let k = color_of(s.to_move);
    let n = plain_negamax_from::<H>(board, s, d, i, k);
    let m = plain_minimax_from::<H>(board, s, d, i);
    if d == 0 {
        let h = H::heuristic_value(board, s);
        if k == 1 {
            assert(n == m) by (nonlinear_arith) requires n == h * k, m == h, k == 1;
        } else {
            assert(n == -m) by (nonlinear_arith) requires n == h * k, m == h, k == -1;
        }
    } else if i < 0 || i >= spec_next_moves(board, s).len() {
    } else if spec_ascension(s, spec_next_moves(board, s)[i]) {
    } else {
        let c = child(board, s, i);
        assert(color_of(c.to_move) == -k);
        lemma_plain_negamax_is_minimax::<H>(board, c, (d - 1) as nat, 0);
        lemma_plain_negamax_is_minimax::<H>(board, s, d, i + 1);
    }
    if k == 1 {
        assert(n == m);
    } else {
        assert(n == -m);
    }
}

proof fn lemma_plain_negamax_range<H: Heuristic>(board: StandardBoard, s: State, d: nat, i: int, color: int)
    requires
        board.wf(),
        s.wf(),
        color == 1 || color == -1,
    ensures
        -32767 <= plain_negamax_from::<H>(board, s, d, i, color) <= 32767,
    decreases d, spec_next_moves(board, s).len() - i,
{
    lemma_children(board, s);
    if d == 0 {
        H::lemma_value_range(board, s);
        let hv = H::heuristic_value(board, s);
        assert(-32767 <= hv * color <= 32767) by (nonlinear_arith)
            requires
                -32767 <= hv <= 32767,
                color == 1 || color == -1;
    } else if i < 0 || i >= spec_next_moves(board, s).len() {
    } else if spec_ascension(s, spec_next_moves(board, s)[i]) {
    } else {
        lemma_plain_negamax_range::<H>(board, child(board, s, i), (d - 1) as nat, 0, -color);
        lemma_plain_negamax_range::<H>(board, s, d, i + 1, color);
    }
}

proof fn lemma_nab_loop<H: Heuristic>(board: StandardBoard, s: State, d: nat, i: int, alpha0: int, beta: int,
    color: int, alpha: int, best: int, t: int, total: nat)
    requires
        board.wf(),
        s.wf(),
        color == 1 || color == -1,
        d > 0,
        0 <= i,
        -32767 <= alpha0 < beta <= 32767,
        -32767 <= best <= 32767,
        -32767 <= t <= 32767,
        alpha == imax(alpha0, best),
        imax(alpha0, t) == alpha,
        t <= best,
        alpha < beta,
    ensures
        fail_soft(nab_from::<H>(board, s, d, i, alpha, beta, color, best, total).0,
            imax(t, plain_negamax_from::<H>(board, s, d, i, color)), alpha0, beta),
    decreases d, spec_next_moves(board, s).len() - i,
{
    lemma_children(board, s);
    let moves = spec_next_moves(board, s);
    lemma_plain_negamax_range::<H>(board, s, d, i, color);
    if i >= moves.len() {
    } else if spec_ascension(s, moves[i]) {
    } else {
        let c = child(board, s, i);
        let rc = nab_from::<H>(board, c, (d - 1) as nat, 0, -beta, -alpha, -color, -32767, 0);
        let tc = plain_negamax_from::<H>(board, c, (d - 1) as nat, 0, -color);
        lemma_nab_window::<H>(board, c, (d - 1) as nat, -beta, -alpha, -color);
        lemma_plain_negamax_range::<H>(board, c, (d - 1) as nat, 0, -color);
        lemma_nab_facts::<H>(board, c, (d - 1) as nat, 0, -beta, -alpha, -color, -32767, 0);
        lemma_plain_negamax_range::<H>(board, s, d, i + 1, color);
        let v = -rc.0;
        let tv = -tc;
        if beta <= imax(alpha, v) {
        } else {
            lemma_nab_loop::<H>(board, s, d, i + 1, alpha0, beta, color, imax(alpha, v), imax(best, v), imax(t, tv), total + rc.1);
        }
    }
}

/// Fail-soft alpha-beta: searched with a window `(alpha, beta)`, the search answers the
/// negamax value (every horizon position scored by the heuristic) when that lies inside
/// the window, an upper bound of it no higher than `alpha` when it is at most `alpha`,
/// and a lower bound of it no lower than `beta` when it is at least `beta`; with the full
/// window, the value itself.
pub proof fn lemma_nab_window<H: Heuristic>(board: StandardBoard, s: State, d: nat, alpha: int, beta: int, color: int)
    requires
        board.wf(),
        s.wf(),
        color == 1 || color == -1,
        -32767 <= alpha < beta <= 32767,
    ensures
        fail_soft(nab::<H>(board, s, d, alpha, beta, color).0, plain_negamax_from::<H>(board, s, d, 0, color), alpha, beta),
        alpha == -32767 && beta == 32767 ==> nab::<H>(board, s, d, alpha, beta, color).0 == plain_negamax_from::<H>(board, s, d, 0, color),
        color == color_of(s.to_move) ==> fail_soft(nab::<H>(board, s, d, alpha, beta, color).0,
            color * plain_minimax_from::<H>(board, s, d, 0), alpha, beta),
    decreases d, spec_next_moves(board, s).len() + 1,
{
    if color == color_of(s.to_move) {
        lemma_plain_negamax_is_minimax::<H>(board, s, d, 0);
    }
    lemma_plain_negamax_range::<H>(board, s, d, 0, color);
    if d == 0 {
    } else {
        lemma_nab_loop::<H>(board, s, d, 0, alpha, beta, color, alpha, -32767, -32767, 0);
    }
}

/// Alpha-beta never counts more positions than the plain negamax search over the same
/// moves: a cut-off only leaves moves out.
pub proof fn lemma_nab_counts_no_more<H: Heuristic>(board: StandardBoard, s: State, d: nat, i: int, alpha: int, beta: int,
    color: int, best: int, total: nat)
    requires
        d == 0 ==> total == 0,
    ensures
        nab_from::<H>(board, s, d, i, alpha, beta, color, best, total).1 <= total + negamax_from::<H>(board, s, d, i, color).1,
    decreases d, spec_next_moves(board, s).len() - i,
{
    let moves = spec_next_moves(board, s);
    if d == 0 {
    } else if i < 0 || i >= moves.len() {
    } else if spec_ascension(s, moves[i]) {
    } else {
        let c = nab_from::<H>(board, child(board, s, i), (d - 1) as nat, 0, -beta, -alpha, -color, -32767, 0);
        lemma_nab_counts_no_more::<H>(board, child(board, s, i), (d - 1) as nat, 0, -beta, -alpha, -color, -32767, 0);
        let v = -c.0;
        lemma_nab_counts_no_more::<H>(board, s, d, i + 1, imax(alpha, v), beta, color, imax(best, v), total + c.1);
    }
}

/// The score the root search gives the move at place `i` of `s` and what it counts,
/// when `alpha` is the root's bound so far, from player 0's point of view.
pub open spec fn nab_root_step<H: Heuristic>(board: StandardBoard, s: State, d: nat, i: int, alpha: int) -> (int, nat) {
    let c = color_of(s.to_move);
    if spec_ascension(s, spec_next_moves(board, s)[i]) {
        (32767 * c, 1)
    } else {
        let r = nab::<H>(board, child(board, s, i), (d - 1) as nat, -32767, -alpha, -c);
        (r.0 * -c, r.1)
    }
}

/// The root's bound after the move at place `i`.
pub open spec fn nab_root_alpha<H: Heuristic>(board: StandardBoard, s: State, d: nat, i: int, alpha: int) -> int {
    let c = color_of(s.to_move);
    if spec_ascension(s, spec_next_moves(board, s)[i]) {
        imax(alpha, 32767 * c)
    } else {
        imax(alpha, -nab::<H>(board, child(board, s, i), (d - 1) as nat, -32767, -alpha, -c).0)
    }
}

/// The root's bound before the move at place `i`.
pub open spec fn nab_root_bound<H: Heuristic>(board: StandardBoard, s: State, d: nat, i: int) -> int
    decreases i,
{
    if i <= 0 {
        -32767
    } else {
        nab_root_alpha::<H>(board, s, d, i - 1, nab_root_bound::<H>(board, s, d, i - 1))
    }
}

pub open spec fn nab_scores<H: Heuristic>(board: StandardBoard, s: State, d: nat) -> spec_fn(int) -> int {
    |i: int| nab_root_step::<H>(board, s, d, i, nab_root_bound::<H>(board, s, d, i)).0
}

/// Positions the root search counts for its first `n` moves.
pub open spec fn nab_root_count<H: Heuristic>(board: StandardBoard, s: State, d: nat, n: int) -> nat
    decreases n,
{
    if n <= 0 {
        0
    } else {
        nab_root_count::<H>(board, s, d, n - 1) + nab_root_step::<H>(board, s, d, n - 1, nab_root_bound::<H>(board, s, d, n - 1)).1
    }
}

impl NegaMaxAlphaBeta {
    /// The alpha-beta value of `state` searched `depth` plies deep with window
    /// `(alpha, beta)` for the player of sign `color`, with the number of positions counted.
    pub fn eval<H: Heuristic>(board: &StandardBoard, state: &State, depth: Depth, alpha: HeuristicValue, beta: HeuristicValue,
        color: HeuristicValue) -> (r: (HeuristicValue, MoveCount))
        requires
            board.wf(),
            state.wf(),
            color == 1 || color == -1,
            depth > 0 ==> -32767 <= alpha,
            depth > 0 ==> -32767 <= beta,
            nab::<H>(*board, *state, depth as nat, alpha as int, beta as int, color as int).1 <= u32::MAX,
        ensures
            r.0 as int == nab::<H>(*board, *state, depth as nat, alpha as int, beta as int, color as int).0,
            r.1 as nat == nab::<H>(*board, *state, depth as nat, alpha as int, beta as int, color as int).1,
            -32767 <= r.0,
        decreases depth,
    {
        if depth == 0 {
            proof {
                lemma_nab_facts::<H>(*board, *state, 0, 0, alpha as int, beta as int, color as int, -32767, 0);
            }
            return (H::evaluate(board, state) * color, 1);
        }
        let mut moves: Vec<Move> = Vec::with_capacity(200);
        proof {
            lemma_children(*board, *state);
            lemma_nab_facts::<H>(*board, *state, depth as nat, 0, alpha as int, beta as int, color as int, -32767, 0);
        }
        board.next_moves(state, &mut moves);
        assert(moves@ =~= spec_next_moves(*board, *state));
        let ghost total_spec = nab::<H>(*board, *state, depth as nat, alpha as int, beta as int, color as int);
        let mut total_moves: MoveCount = 0;
        let mut best_observed: HeuristicValue = WORST;
        let mut new_alpha = alpha;
        let mut i: usize = 0;
        while i < moves.len()
            invariant_except_break
                total_spec == nab_from::<H>(*board, *state, depth as nat, i as int, new_alpha as int, beta as int, color as int,
                    best_observed as int, total_moves as nat),
            invariant
                board.wf(),
                state.wf(),
                depth > 0,
                color == 1 || color == -1,
                -32767 <= alpha,
                -32767 <= beta,
                moves@ == spec_next_moves(*board, *state),
                moves.len() <= 250000,
                forall|k: int| 0 <= k < moves.len() ==> (#[trigger] child(*board, *state, k)).wf(),
                forall|k: int| 0 <= k < moves.len() ==> move_on_board(#[trigger] moves@[k]),
                0 <= i <= moves.len(),
                -32767 <= best_observed,
                -32767 <= new_alpha,
                total_spec.1 <= u32::MAX,
                total_spec == nab::<H>(*board, *state, depth as nat, alpha as int, beta as int, color as int),
            ensures
                total_spec == (best_observed as int, total_moves as nat),
            decreases moves.len() - i,
        {
            let mve = moves[i];
            if board.ascension_winning_move(state, mve) {
                return (BEST, total_moves + 1);
            }
            let new_state = board.apply(mve, state);
            proof {
                let c = nab::<H>(*board, new_state, (depth - 1) as nat, -beta, -new_alpha, -color);
                lemma_nab_facts::<H>(*board, new_state, (depth - 1) as nat, 0, -beta, -new_alpha, -color, -32767, 0);
                lemma_nab_facts::<H>(*board, *state, depth as nat, i + 1, imax(new_alpha as int, -c.0), beta as int, color as int,
                    imax(best_observed as int, -c.0), (total_moves + c.1) as nat);
            }
            let (new_v, move_count) = Self::eval::<H>(board, &new_state, depth - 1, -beta, -new_alpha, -color);
            let v = -new_v;
            total_moves = total_moves + move_count;
            if v > best_observed {
                best_observed = v;
            }
            if v > new_alpha {
                new_alpha = v;
            }
            if beta <= new_alpha {
                break;
            }
            i = i + 1;
        }
        (best_observed, total_moves)
    }

    /// Each move is scored from player 0's point of view (a winning move by the best
    /// score times the sign of the player to move, else by the alpha-beta value one ply
    /// down with the window `(WORST, -alpha)`, alpha rising with the scores seen); the
    /// first move with the best score for the player to move is returned with its score.
    pub fn evaluate_moves_impl<H: Heuristic>(st: &mut (), board: &StandardBoard, state: &State, depth: Depth)
        -> (r: (Option<(Move, HeuristicValue)>, EvaluatorInfo))
        requires
            board.wf(),
            state.wf(),
            1 <= depth,
            nab_root_count::<H>(*board, *state, depth as nat, spec_next_moves(*board, *state).len() as int) <= u32::MAX,
        ensures
            spec_next_moves(*board, *state).len() == 0 <==> r.0 is None,
            r.0 matches Some((m, v)) ==> exists|j: int| first_best(nab_scores::<H>(*board, *state, depth as nat),
                spec_next_moves(*board, *state).len() as int, state.to_move.0 == 0, j)
                && m == spec_next_moves(*board, *state)[j] && v == nab_scores::<H>(*board, *state, depth as nat)(j),
            r.1 == (EvaluatorInfo { move_count: nab_root_count::<H>(*board, *state, depth as nat,
                spec_next_moves(*board, *state).len() as int) as u32, ..zero_info() }),
    {
        let color = color(state.to_move);
        let mut moves: Vec<Move> = Vec::with_capacity(200);
        proof {
            lemma_children(*board, *state);
        }
        board.next_moves(state, &mut moves);
        assert(moves@ =~= spec_next_moves(*board, *state));
        let ghost scores = nab_scores::<H>(*board, *state, depth as nat);
        let ghost n = moves.len() as int;
        let maximise = color == 1;
        let mut total_moves: MoveCount = 0;
        let mut alpha: HeuristicValue = WORST;
        let mut best: Option<(Move, HeuristicValue)> = None;
        let ghost mut best_j: int = 0;
        let mut i: usize = 0;
        while i < moves.len()
            invariant
                board.wf(),
                state.wf(),
                1 <= depth,
                color == color_of(state.to_move),
                moves@ == spec_next_moves(*board, *state),
                n == moves.len(),
                moves.len() <= 250000,
                forall|k: int| 0 <= k < moves.len() ==> (#[trigger] child(*board, *state, k)).wf(),
                forall|k: int| 0 <= k < moves.len() ==> move_on_board(#[trigger] moves@[k]),
                maximise == (state.to_move.0 == 0),
                scores == nab_scores::<H>(*board, *state, depth as nat),
                0 <= i <= moves.len(),
                -32767 <= alpha,
                alpha == nab_root_bound::<H>(*board, *state, depth as nat, i as int),
                nab_root_count::<H>(*board, *state, depth as nat, n) <= u32::MAX,
                total_moves == nab_root_count::<H>(*board, *state, depth as nat, i as int),
                i == 0 <==> best is None,
                best matches Some((m, v)) ==> first_best(scores, i as int, maximise, best_j) && m == moves@[best_j]
                    && v == scores(best_j),
            decreases moves.len() - i,
        {
            proof {
                lemma_nab_root_count_mono::<H>(*board, *state, depth as nat, i as int + 1, n);
            }
            let mve = moves[i];
            let v = if board.ascension_winning_move(state, mve) {
                let av = BEST * color;
                if av > alpha {
                    alpha = av;
                }
                total_moves = total_moves + 1;
                av
            } else {
                let new_state = board.apply(mve, state);
                proof {
                    lemma_nab_facts::<H>(*board, new_state, (depth - 1) as nat, 0, -32767, -alpha, -color, -32767, 0);
                }
                let (v, move_count) = Self::eval::<H>(board, &new_state, depth - 1, WORST, -alpha, -color);
                let av = v * -color;
                if -v > alpha {
                    alpha = -v;
                }
                total_moves = total_moves + move_count;
                av
            };
            assert(v == scores(i as int));
            let better = match best {
                None => true,
                Some((_, bv)) => if maximise { v > bv } else { v < bv },
            };
            if better {
                best = Some((mve, v));
                proof {
                    best_j = i as int;
                }
            }
            i = i + 1;
        }
        (best, EvaluatorInfo::from_moves_depth(total_moves, depth))
    }
}

/// The root count grows with the number of moves searched.
proof fn lemma_nab_root_count_mono<H: Heuristic>(board: StandardBoard, s: State, d: nat, a: int, b: int)
    requires
        a <= b,
    ensures
        nab_root_count::<H>(board, s, d, a) <= nab_root_count::<H>(board, s, d, b),
    decreases b - a,
{
    if a < b {
        lemma_nab_root_count_mono::<H>(board, s, d, a, b - 1);
    }
}

impl Evaluator for NegaMaxAlphaBeta {
    type EvaluatorState = ();

    open spec fn state_ok(st: &()) -> bool {
        true
    }

    open spec fn can_advance(st: &()) -> bool {
        true
    }

    fn name() -> (r: String)
        ensures
            r@ == "NegaMaxAlphaBeta"@,
    {
        "NegaMaxAlphaBeta".to_owned()
    }

    fn new_state() -> (r: ()) {
        ()
    }

    fn new_search(st: &mut ()) {
    }

    fn reset(st: &mut ()) {
    }
}

} // verus!
