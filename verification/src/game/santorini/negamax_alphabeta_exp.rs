//! Negamax with fail-soft alpha-beta pruning, a position without a move at the horizon
//! scoring the worst.
use vstd::prelude::*;
use crate::game::santorini::{Move, HeuristicValue, MoveCount, Depth, Evaluation};
use crate::game::santorini::board::{StandardBoard, spec_next_moves, spec_ascension, move_on_board};
use crate::game::santorini::state::State;
use crate::game::santorini::heuristic::{Heuristic, BEST, WORST};
use crate::game::santorini::search::{imax, imin, color_of, color, child, lemma_children, sort_by_score, stable_sort_of, key_is,
    score_key, win_score, lemma_stable_sort_permutes, lemma_scored_moves_permute, scored_moves};
use crate::game::santorini::board::lemma_next_moves_no_duplicates;
use crate::game::santorini::evaluator::negamax::{negamax_from, lemma_negamax_range, lemma_negamax_matches_minimax};
use crate::game::santorini::evaluator::minimax::{minimax, minimax_from, minimax_root_score, lemma_minimax_range};
use crate::game::santorini::minimax::{better_of, minimax_root_prefix, lemma_minimax_prefix_rest, lemma_minimax_prefix_grows};

verus! {

pub struct NegaMaxAlphaBetaExp {}

/// The fail-soft alpha-beta search of `s` with `d` plies left, for the player of sign
/// `color`, resumed at its move `i` with lower bound `alpha`, best score so far `best`
/// and `total` positions counted; the value and the final count. At depth 0 a position
/// without a move is the worst score, else its heuristic value times `color`, counting
/// one. A winning move returns the best score; otherwise a move scores minus its
/// child's search with window `(-beta, -alpha)`, and the search stops once `alpha`
/// reaches `beta`.
pub open spec fn abx_from<H: Heuristic>(board: StandardBoard, s: State, d: nat, i: int, alpha: int, beta: int,
    color: int, best: int, total: nat) -> (int, nat)
    decreases d, spec_next_moves(board, s).len() - i,
{
    let moves = spec_next_moves(board, s);
    if d == 0 {
        (if moves.len() == 0 { -32767 } else { H::heuristic_value(board, s) * color }, 1)
    } else if i < 0 || i >= moves.len() {
        (best, total)
    } else if spec_ascension(s, moves[i]) {
        (32767, total + 1)
    } else {
        let c = abx_from::<H>(board, child(board, s, i), (d - 1) as nat, 0, -beta, -alpha, -color, -32767, 0);
        let v = -c.0;
        let best2 = imax(best, v);
        let alpha2 = imax(alpha, v);
        if beta <= alpha2 {
            (best2, total + c.1)
        } else {
            abx_from::<H>(board, s, d, i + 1, alpha2, beta, color, best2, total + c.1)
        }
    }
}

/// The search of `s` to depth `d` with window `(alpha, beta)`.
pub open spec fn abx<H: Heuristic>(board: StandardBoard, s: State, d: nat, alpha: int, beta: int, color: int) -> (int, nat) {
    abx_from::<H>(board, s, d, 0, alpha, beta, color, -32767, 0)
}

/// The search counts at least what it had counted, and its value is a score.
pub proof fn lemma_abx_facts<H: Heuristic>(board: StandardBoard, s: State, d: nat, i: int, alpha: int, beta: int,
    color: int, best: int, total: nat)
    requires
        board.wf(),
        s.wf(),
        color == 1 || color == -1,
        -32767 <= best <= 32767,
        d == 0 ==> total == 0,
    ensures
        abx_from::<H>(board, s, d, i, alpha, beta, color, best, total).1 >= total,
        -32767 <= abx_from::<H>(board, s, d, i, alpha, beta, color, best, total).0 <= 32767,
    decreases d, spec_next_moves(board, s).len() - i,
{
    lemma_children(board, s);
    let moves = spec_next_moves(board, s);
    if d == 0 {
        H::lemma_value_range(board, s);
    } else if i < 0 || i >= moves.len() {
    } else if spec_ascension(s, moves[i]) {
    } else {
        let c = abx_from::<H>(board, child(board, s, i), (d - 1) as nat, 0, -beta, -alpha, -color, -32767, 0);
        lemma_abx_facts::<H>(board, child(board, s, i), (d - 1) as nat, 0, -beta, -alpha, -color, -32767, 0);
        let v = -c.0;
        lemma_abx_facts::<H>(board, s, d, i + 1, imax(alpha, v), beta, color, imax(best, v), total + c.1);
    }
}

/// What a fail-soft search with window `(alpha, beta)` may answer when the exact value
/// is `v`: `v` itself when it lies inside the window, an upper bound of `v` no higher
/// than `alpha` when it is at most `alpha`, a lower bound of `v` no lower than `beta`
/// when it is at least `beta`.
pub open spec fn fail_soft(r: int, v: int, alpha: int, beta: int) -> bool {
    &&& (alpha < v < beta ==> r == v)
    &&& (v <= alpha ==> v <= r <= alpha)
    &&& (beta <= v ==> beta <= r <= v)
}

/// The search loop resumed at move `i`: `t` is the largest exact score of the moves
/// already searched (the worst score if none), `best` the largest score the search
/// gave them and `alpha` its bound.
proof fn lemma_abx_loop<H: Heuristic>(board: StandardBoard, s: State, d: nat, i: int, alpha0: int, beta: int,
    color: int, alpha: int, best: int, t: int, total: nat)
    requires
        board.wf(),
        s.wf(),
        color == 1 || color == -1,
        d > 0,
        0 <= i,
        -32767 <= alpha0 < beta <= 32767,
        -32767 <= best <= 32767,
        -32767 <= t <= 32767,
        alpha == imax(alpha0, best),
        imax(alpha0, t) == alpha,
        t <= best,
        alpha < beta,
    ensures
        fail_soft(abx_from::<H>(board, s, d, i, alpha, beta, color, best, total).0,
            imax(t, negamax_from::<H>(board, s, d, i, color).0), alpha0, beta),
    decreases d, spec_next_moves(board, s).len() - i,
{
    lemma_children(board, s);
    let moves = spec_next_moves(board, s);
    lemma_negamax_range::<H>(board, s, d, i, color);
    if i >= moves.len() {
    } else if spec_ascension(s, moves[i]) {
    } else {
        let c = child(board, s, i);
        let rc = abx_from::<H>(board, c, (d - 1) as nat, 0, -beta, -alpha, -color, -32767, 0);
        let tc = negamax_from::<H>(board, c, (d - 1) as nat, 0, -color).0;
        lemma_abx_window::<H>(board, c, (d - 1) as nat, -beta, -alpha, -color);
        lemma_negamax_range::<H>(board, c, (d - 1) as nat, 0, -color);
        lemma_abx_facts::<H>(board, c, (d - 1) as nat, 0, -beta, -alpha, -color, -32767, 0);
        lemma_negamax_range::<H>(board, s, d, i + 1, color);
        let v = -rc.0;
        let tv = -tc;
        if beta <= imax(alpha, v) {
        } else {
            lemma_abx_loop::<H>(board, s, d, i + 1, alpha0, beta, color, imax(alpha, v), imax(best, v), imax(t, tv), total + rc.1);
        }
    }
}

/// Fail-soft alpha-beta: searched with a window `(alpha, beta)`, the search answers the
/// negamax value when that lies inside the window, an upper bound of it no higher than
/// `alpha` when it is at most `alpha`, and a lower bound of it no lower than `beta` when
/// it is at least `beta`.
pub proof fn lemma_abx_window<H: Heuristic>(board: StandardBoard, s: State, d: nat, alpha: int, beta: int, color: int)
    requires
        board.wf(),
        s.wf(),
        color == 1 || color == -1,
        -32767 <= alpha < beta <= 32767,
    ensures
        fail_soft(abx::<H>(board, s, d, alpha, beta, color).0, negamax_from::<H>(board, s, d, 0, color).0, alpha, beta),
    decreases d, spec_next_moves(board, s).len() + 1,
{
    if d == 0 {
    } else {
        lemma_abx_loop::<H>(board, s, d, 0, alpha, beta, color, alpha, -32767, -32767, 0);
    }
}

impl NegaMaxAlphaBetaExp {
    /// The fail-soft alpha-beta value of `state` searched `depth` plies deep with window
    /// `(alpha, beta)` for the player of sign `color`, with the number of positions counted.
    pub fn eval<H: Heuristic>(board: &StandardBoard, state: &State, depth: Depth, alpha: HeuristicValue, beta: HeuristicValue,
        color: HeuristicValue) -> (r: (HeuristicValue, MoveCount))
        requires
            board.wf(),
            state.wf(),
            color == 1 || color == -1,
            depth > 0 ==> -32767 <= alpha,
            depth > 0 ==> -32767 <= beta,
            abx::<H>(*board, *state, depth as nat, alpha as int, beta as int, color as int).1 <= u32::MAX,
        ensures
            r.0 as int == abx::<H>(*board, *state, depth as nat, alpha as int, beta as int, color as int).0,
            r.1 as nat == abx::<H>(*board, *state, depth as nat, alpha as int, beta as int, color as int).1,
            -32767 <= r.0,
        decreases depth,
    {
        let mut moves: Vec<Move> = Vec::with_capacity(200);
        proof {
            lemma_children(*board, *state);
            lemma_abx_facts::<H>(*board, *state, depth as nat, 0, alpha as int, beta as int, color as int, -32767, 0);
        }
        board.next_moves(state, &mut moves);
        assert(moves@ =~= spec_next_moves(*board, *state));
        if depth == 0 {
            let v = if moves.len() == 0 {
                WORST
            } else {
                H::evaluate(board, state) * color
            };
            return (v, 1);
        }
        let ghost total_spec = abx::<H>(*board, *state, depth as nat, alpha as int, beta as int, color as int);
        let mut total_moves: MoveCount = 0;
        let mut best_observed: HeuristicValue = WORST;
        let mut new_alpha = alpha;
        let mut i: usize = 0;
        while i < moves.len()
            invariant_except_break
                total_spec == abx_from::<H>(*board, *state, depth as nat, i as int, new_alpha as int, beta as int, color as int,
                    best_observed as int, total_moves as nat),
            invariant
                board.wf(),
                state.wf(),
                depth > 0,
                color == 1 || color == -1,
                -32767 <= alpha,
                -32767 <= beta,
                moves@ == spec_next_moves(*board, *state),
                moves.len() <= 250000,
                forall|k: int| 0 <= k < moves.len() ==> (#[trigger] child(*board, *state, k)).wf(),
                forall|k: int| 0 <= k < moves.len() ==> move_on_board(#[trigger] moves@[k]),
                0 <= i <= moves.len(),
                -32767 <= best_observed,
                -32767 <= new_alpha,
                total_spec.1 <= u32::MAX,
                total_spec == abx::<H>(*board, *state, depth as nat, alpha as int, beta as int, color as int),
            ensures
                total_spec == (best_observed as int, total_moves as nat),
            decreases moves.len() - i,
        {
            let mve = moves[i];
            if board.ascension_winning_move(state, mve) {
                return (BEST, total_moves + 1);
            }
            let new_state = board.apply(mve, state);
            proof {
                let c = abx::<H>(*board, new_state, (depth - 1) as nat, -beta, -new_alpha, -color);
                lemma_abx_facts::<H>(*board, new_state, (depth - 1) as nat, 0, -beta, -new_alpha, -color, -32767, 0);
                lemma_abx_facts::<H>(*board, *state, depth as nat, i + 1, imax(new_alpha as int, -c.0), beta as int, color as int,
                    imax(best_observed as int, -c.0), (total_moves + c.1) as nat);
            }
            let (v, move_count) = Self::eval::<H>(board, &new_state, depth - 1, -beta, -new_alpha, -color);
            total_moves = total_moves + move_count;
            if -v > best_observed {
                best_observed = -v;
            }
            if -v > new_alpha {
                new_alpha = -v;
            }
            if beta <= new_alpha {
                break;
            }
            i = i + 1;
        }
        (best_observed, total_moves)
    }
}

/// Score from player 0's point of view and count of the root's move `i`, when the
/// root's bound is `bound` (alpha for player 0, beta for player 1): a winning move scores
/// the best times the sign of the player to move; another is searched with window
/// `(WORST, -alpha)` for player 0 and `(WORST, beta)` for player 1.
pub open spec fn abx_root_step<H: Heuristic>(board: StandardBoard, s: State, d: nat, i: int, bound: int) -> (int, nat) {
    let c = color_of(s.to_move);
    if spec_ascension(s, spec_next_moves(board, s)[i]) {
        (32767 * c, 1)
    } else {
        let r = abx::<H>(board, child(board, s, i), (d - 1) as nat, -32767, if s.to_move.0 == 0 { -bound } else { bound }, -c);
        (r.0 * -c, r.1)
    }
}

/// The root's bound before its move `i`: player 0 raises alpha, player 1 lowers beta.
pub open spec fn abx_root_bound<H: Heuristic>(board: StandardBoard, s: State, d: nat, i: int) -> int
    decreases i,
{
    if i <= 0 {
        if s.to_move.0 == 0 { -32767 } else { 32767 }
    } else {
        let b = abx_root_bound::<H>(board, s, d, i - 1);
        let v = abx_root_step::<H>(board, s, d, i - 1, b).0;
        if s.to_move.0 == 0 { imax(b, v) } else { imin(b, v) }
    }
}

/// The moves of `s` with their root scores.
pub open spec fn abx_scored<H: Heuristic>(board: StandardBoard, s: State, d: nat) -> Seq<(Move, i16)> {
    let moves = spec_next_moves(board, s);
    Seq::new(moves.len(), |i: int| (moves[i], abx_root_step::<H>(board, s, d, i, abx_root_bound::<H>(board, s, d, i)).0 as i16))
}

/// Positions the root counts for its first `n` moves.
pub open spec fn abx_root_count<H: Heuristic>(board: StandardBoard, s: State, d: nat, n: int) -> nat
    decreases n,
{
    if n <= 0 {
        0
    } else {
        abx_root_count::<H>(board, s, d, n - 1) + abx_root_step::<H>(board, s, d, n - 1, abx_root_bound::<H>(board, s, d, n - 1)).1
    }
}

proof fn lemma_abx_root_count_mono<H: Heuristic>(board: StandardBoard, s: State, d: nat, a: int, b: int)
    requires
        a <= b,
    ensures
        abx_root_count::<H>(board, s, d, a) <= abx_root_count::<H>(board, s, d, b),
    decreases b - a,
{
    if a < b {
        lemma_abx_root_count_mono::<H>(board, s, d, a, b - 1);
    }
}

/// What the root learns of its move `i` with bound `b`: the score is no better than the
/// better of `b` and the move's minimax score, it moves the bound as that minimax score
/// would, and it is that minimax score when this beats `b`.
proof fn lemma_abx_root_step_facts<H: Heuristic>(board: StandardBoard, s: State, d: nat, i: int, b: int)
    requires
        board.wf(),
        s.wf(),
        d >= 1,
        0 <= i < spec_next_moves(board, s).len(),
        -32767 <= b <= 32767,
    ensures
        ({
            let sc = abx_root_step::<H>(board, s, d, i, b).0;
            let tv = minimax_root_score::<H>(board, s, d, i);
            &&& -32767 <= sc <= 32767
            &&& -32767 <= tv <= 32767
            &&& s.to_move.0 == 0 ==> sc <= imax(b, tv) && imax(b, sc) == imax(b, tv) && (tv > b ==> sc == tv)
            &&& s.to_move.0 != 0 ==> sc >= imin(b, tv) && imin(b, sc) == imin(b, tv) && (tv < b ==> sc == tv)
        }),
{
    lemma_children(board, s);
    if !spec_ascension(s, spec_next_moves(board, s)[i]) {
        let c = child(board, s, i);
        let k = color_of(s.to_move);
        let hi = if s.to_move.0 == 0 { -b } else { b };
        lemma_abx_facts::<H>(board, c, (d - 1) as nat, 0, -32767, hi, -k, -32767, 0);
        lemma_negamax_matches_minimax::<H>(board, c, (d - 1) as nat, 0);
        lemma_minimax_range::<H>(board, c, (d - 1) as nat, 0);
        assert(color_of(c.to_move) == -k);
        if -32767 < hi {
            lemma_abx_window::<H>(board, c, (d - 1) as nat, -32767, hi, -k);
        }
    }
}

/// The root's bound before its move `i` is the best minimax score of the moves before it.
proof fn lemma_abx_root_bound_prefix<H: Heuristic>(board: StandardBoard, s: State, d: nat, i: int)
    requires
        board.wf(),
        s.wf(),
        d >= 1,
        0 <= i <= spec_next_moves(board, s).len(),
    ensures
        abx_root_bound::<H>(board, s, d, i) == minimax_root_prefix::<H>(board, s, d, i),
        -32767 <= minimax_root_prefix::<H>(board, s, d, i) <= 32767,
    decreases i,
{
    if i > 0 {
        lemma_abx_root_bound_prefix::<H>(board, s, d, i - 1);
        lemma_abx_root_step_facts::<H>(board, s, d, i - 1, abx_root_bound::<H>(board, s, d, i - 1));
    }
}

/// Some move among the first `i` scores the best minimax score among them.
proof fn lemma_abx_root_attains<H: Heuristic>(board: StandardBoard, s: State, d: nat, i: int)
    requires
        board.wf(),
        s.wf(),
        d >= 1,
        1 <= i <= spec_next_moves(board, s).len(),
    ensures
        exists|j: int| 0 <= j < i && abx_scored::<H>(board, s, d)[j].1 == minimax_root_prefix::<H>(board, s, d, i),
    decreases i,
{
    let b = abx_root_bound::<H>(board, s, d, i - 1);
    lemma_abx_root_bound_prefix::<H>(board, s, d, i - 1);
    lemma_abx_root_step_facts::<H>(board, s, d, i - 1, b);
    let sc = abx_root_step::<H>(board, s, d, i - 1, b).0;
    let tv = minimax_root_score::<H>(board, s, d, i - 1);
    assert(abx_scored::<H>(board, s, d)[i - 1].1 == sc);
    if s.to_move.0 == 0 {
        if tv > b || i == 1 {
            assert(abx_scored::<H>(board, s, d)[i - 1].1 == minimax_root_prefix::<H>(board, s, d, i));
        } else {
            lemma_abx_root_attains::<H>(board, s, d, i - 1);
        }
    } else {
        if tv < b || i == 1 {
            assert(abx_scored::<H>(board, s, d)[i - 1].1 == minimax_root_prefix::<H>(board, s, d, i));
        } else {
            lemma_abx_root_attains::<H>(board, s, d, i - 1);
        }
    }
}

/// The root scores of the search: none is better for the player to move than the minimax
/// value of the position, and when there is a move, one of them is that value.
pub proof fn lemma_abx_root_best<H: Heuristic>(board: StandardBoard, s: State, d: nat)
    requires
        board.wf(),
        s.wf(),
        d >= 1,
    ensures
        forall|i: int| 0 <= i < abx_scored::<H>(board, s, d).len() ==> if s.to_move.0 == 0 {
            #[trigger] abx_scored::<H>(board, s, d)[i].1 <= minimax::<H>(board, s, d).0
        } else {
            abx_scored::<H>(board, s, d)[i].1 >= minimax::<H>(board, s, d).0
        },
        abx_scored::<H>(board, s, d).len() > 0 ==> exists|i: int| 0 <= i < abx_scored::<H>(board, s, d).len()
            && abx_scored::<H>(board, s, d)[i].1 == minimax::<H>(board, s, d).0,
{
    let n = spec_next_moves(board, s).len() as int;
    lemma_minimax_prefix_rest::<H>(board, s, d, n);
    lemma_minimax_range::<H>(board, s, d, 0);
    lemma_abx_root_bound_prefix::<H>(board, s, d, n);
    assert forall|i: int| 0 <= i < abx_scored::<H>(board, s, d).len() implies if s.to_move.0 == 0 {
        #[trigger] abx_scored::<H>(board, s, d)[i].1 <= minimax::<H>(board, s, d).0
    } else {
        abx_scored::<H>(board, s, d)[i].1 >= minimax::<H>(board, s, d).0
    } by {
        lemma_abx_root_bound_prefix::<H>(board, s, d, i);
        lemma_abx_root_step_facts::<H>(board, s, d, i, abx_root_bound::<H>(board, s, d, i));
        lemma_minimax_prefix_grows::<H>(board, s, d, i + 1, n);
    }
    if n > 0 {
        lemma_abx_root_attains::<H>(board, s, d, n);
    }
}

/// What the search's `evaluate` returns: the moves of the position with their root
/// scores, in some order; best first for the player to move, the first one's score being
/// the minimax value of the position.
pub proof fn lemma_evaluate_best_first<H: Heuristic>(board: StandardBoard, s: State, d: nat, r: Seq<(Move, i16)>)
    requires
        board.wf(),
        s.wf(),
        d >= 1,
        stable_sort_of(r, abx_scored::<H>(board, s, d), s.to_move.0 == 0),
    ensures
        r.to_multiset() == abx_scored::<H>(board, s, d).to_multiset(),
        scored_moves(r).to_multiset() == spec_next_moves(board, s).to_multiset(),
        forall|i: int, j: int| 0 <= i < j < r.len() ==> if s.to_move.0 == 0 {
            #[trigger] r[i].1 >= #[trigger] r[j].1
        } else {
            r[i].1 <= r[j].1
        },
        r.len() > 0 ==> r[0].1 == minimax::<H>(board, s, d).0,
{
    let q = abx_scored::<H>(board, s, d);
    let desc = s.to_move.0 == 0;
    lemma_stable_sort_permutes(r, q, desc);
    lemma_next_moves_no_duplicates(board, s);
    lemma_scored_moves_permute(r, q, spec_next_moves(board, s));
    assert forall|i: int, j: int| 0 <= i < j < r.len() implies if s.to_move.0 == 0 {
        #[trigger] r[i].1 >= #[trigger] r[j].1
    } else {
        r[i].1 <= r[j].1
    } by {
        assert(score_key(r[i], desc) <= score_key(r[j], desc));
    }
    if r.len() > 0 {
        lemma_abx_root_best::<H>(board, s, d);
        vstd::seq_lib::to_multiset_contains(r, r[0]);
        vstd::seq_lib::to_multiset_contains(q, r[0]);
        assert(r.contains(r[0]));
        let i = choose|i: int| 0 <= i < q.len() && q[i] == r[0];
        let b = choose|b: int| 0 <= b < q.len() && q[b].1 == minimax::<H>(board, s, d).0;
        vstd::seq_lib::to_multiset_contains(r, q[b]);
        vstd::seq_lib::to_multiset_contains(q, q[b]);
        assert(q.contains(q[b]));
        let j = choose|j: int| 0 <= j < r.len() && r[j] == q[b];
        if j > 0 {
            assert(score_key(r[0], desc) <= score_key(r[j], desc));
        }
    }
}

impl<H: Heuristic> Evaluation<H> for NegaMaxAlphaBetaExp {
    open spec fn within_limits(board: StandardBoard, state: State, depth: Depth) -> bool {
        abx_root_count::<H>(board, state, depth as nat, spec_next_moves(board, state).len() as int) <= u32::MAX
    }

    open spec fn scored(board: StandardBoard, state: State, depth: Depth) -> Seq<(Move, HeuristicValue)> {
        abx_scored::<H>(board, state, depth as nat)
    }

    open spec fn counted(board: StandardBoard, state: State, depth: Depth) -> nat {
        abx_root_count::<H>(board, state, depth as nat, spec_next_moves(board, state).len() as int)
    }

    fn evaluate(board: &StandardBoard, state: &State, depth: Depth) -> (r: (Vec<(Move, HeuristicValue)>, MoveCount)) {
        let color = color(state.to_move);
        let mut moves: Vec<Move> = Vec::with_capacity(200);
        proof {
            lemma_children(*board, *state);
        }
        board.next_moves(state, &mut moves);
        assert(moves@ =~= spec_next_moves(*board, *state));
        let ghost scored = abx_scored::<H>(*board, *state, depth as nat);
        let ghost n = moves.len() as int;
        let maximise = state.to_move.0 == 0;
        let mut total_moves: MoveCount = 0;
        let mut unsorted_moves: Vec<(Move, HeuristicValue)> = Vec::with_capacity(200);
        let mut bound: HeuristicValue = if maximise { WORST } else { BEST };
        let mut i: usize = 0;
        while i < moves.len()
            invariant
                board.wf(),
                state.wf(),
                1 <= depth,
                color == color_of(state.to_move),
                moves@ == spec_next_moves(*board, *state),
                n == moves.len(),
                moves.len() <= 250000,
                forall|k: int| 0 <= k < moves.len() ==> (#[trigger] child(*board, *state, k)).wf(),
                forall|k: int| 0 <= k < moves.len() ==> move_on_board(#[trigger] moves@[k]),
                maximise == (state.to_move.0 == 0),
                scored == abx_scored::<H>(*board, *state, depth as nat),
                0 <= i <= moves.len(),
                -32767 <= bound,
                bound == abx_root_bound::<H>(*board, *state, depth as nat, i as int),
                unsorted_moves@ == scored.subrange(0, i as int),
                abx_root_count::<H>(*board, *state, depth as nat, n) <= u32::MAX,
                total_moves == abx_root_count::<H>(*board, *state, depth as nat, i as int),
            decreases moves.len() - i,
        {
            proof {
                lemma_abx_root_count_mono::<H>(*board, *state, depth as nat, i as int + 1, n);
            }
            let mve = moves[i];
            let ghost step = abx_root_step::<H>(*board, *state, depth as nat, i as int, bound as int);
            let (av, count) = if board.ascension_winning_move(state, mve) {
                (BEST * color, 1)
            } else {
                let new_state = board.apply(mve, state);
                assert(new_state == child(*board, *state, i as int));
                let child_beta = if maximise { -bound } else { bound };
                proof {
                    lemma_abx_facts::<H>(*board, new_state, (depth - 1) as nat, 0, -32767, child_beta as int, -color, -32767, 0);
                }
                let (v, move_count) = Self::eval::<H>(board, &new_state, depth - 1, WORST, child_beta, -color);
                proof {
                    assert(-32767 <= v * -color <= 32767) by (nonlinear_arith)
                        requires
                            -32767 <= v <= 32767,
                            color == 1 || color == -1;
                }
                (v * -color, move_count)
            };
            assert(av == step.0 && count == step.1);
            if maximise {
                if av > bound {
                    bound = av;
                }
            } else {
                if av < bound {
                    bound = av;
                }
            }
            unsorted_moves.push((mve, av));
            total_moves = total_moves + count;
            assert(unsorted_moves@ =~= scored.subrange(0, i + 1));
            i = i + 1;
        }
        assert(unsorted_moves@ =~= scored);
        (sort_by_score(unsorted_moves, maximise), total_moves)
    }
}

} // verus!
