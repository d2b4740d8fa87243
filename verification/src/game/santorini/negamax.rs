//! Negamax scoring every move of a position, each position's value counted for the
//! player of sign `color`.
use vstd::prelude::*;
use crate::game::santorini::{Move, HeuristicValue, MoveCount, Depth, Evaluation};
use crate::game::santorini::board::{StandardBoard, spec_next_moves, spec_ascension, move_on_board};
use crate::game::santorini::state::State;
use crate::game::santorini::heuristic::{Heuristic, PLAYER_0_WIN, PLAYER_1_WIN, WORST};
use crate::game::santorini::search::{imax, imin, win_score, color_of, color, child, lemma_children, sort_by_score, stable_sort_of,
    score_key, scored_moves, lemma_stable_sort_permutes, lemma_scored_moves_permute};
use crate::game::santorini::board::lemma_next_moves_no_duplicates;
use crate::game::santorini::evaluator::minimax::{minimax_from, lemma_minimax_range};
use crate::game::santorini::perft::perft_from;
use crate::game::santorini::minimax::minimax_scored;

verus! {

pub struct NegaMax {}

/// The value of `s` searched `d` plies deep for the player of sign `color`, over its
/// moves from place `i` on, and the number of positions counted. At depth 0: `color`
/// times (a loss for the player to move without a move, else the heuristic value).
/// Otherwise the highest of the move scores: a winning move scores `color` times the
/// win of the player to move and counts one; another move scores minus its child's
/// value for `-color`.
pub open spec fn negamax_scores_from<H: Heuristic>(board: StandardBoard, s: State, d: nat, i: int, color: int) -> (int, nat)
    decreases d, spec_next_moves(board, s).len() - i,
{
    let moves = spec_next_moves(board, s);
    if d == 0 {
        (color * (if moves.len() == 0 { -win_score(s.to_move) } else { H::heuristic_value(board, s) }), 1)
    } else if i < 0 || i >= moves.len() {
        (-32767, 0)
    } else {
        let here: (int, nat) = if spec_ascension(s, moves[i]) {
            (win_score(s.to_move) * color, 1)
        } else {
            let c = negamax_scores_from::<H>(board, child(board, s, i), (d - 1) as nat, 0, -color);
            (-c.0, c.1)
        };
        let r = negamax_scores_from::<H>(board, s, d, i + 1, color);
        (imax(here.0, r.0), here.1 + r.1)
    }
}

pub open spec fn old_negamax<H: Heuristic>(board: StandardBoard, s: State, d: nat, color: int) -> (int, nat) {
    negamax_scores_from::<H>(board, s, d, 0, color)
}

/// The values are scores and the counts never shrink along the moves.
pub proof fn lemma_old_negamax_facts<H: Heuristic>(board: StandardBoard, s: State, d: nat, i: int, color: int)
    requires
        board.wf(),
        s.wf(),
        color == 1 || color == -1,
    ensures
        -32767 <= negamax_scores_from::<H>(board, s, d, i, color).0 <= 32767,
    decreases d, spec_next_moves(board, s).len() - i,
{
    lemma_children(board, s);
    let moves = spec_next_moves(board, s);
    if d == 0 {
        H::lemma_value_range(board, s);
        let v = if moves.len() == 0 { -win_score(s.to_move) } else { H::heuristic_value(board, s) };
        assert(-32767 <= color * v <= 32767) by (nonlinear_arith)
            requires
                -32767 <= v <= 32767,
                color == 1 || color == -1;
    } else if i < 0 || i >= moves.len() {
    } else {
        if !spec_ascension(s, moves[i]) {
            lemma_old_negamax_facts::<H>(board, child(board, s, i), (d - 1) as nat, 0, -color);
        }
        lemma_old_negamax_facts::<H>(board, s, d, i + 1, color);
    }
}

/// The score the root gives move `i`, for player 0 the move's score, for player 1 its
/// child's value as is: a winning move scores the win of the player to move.
pub open spec fn old_negamax_root<H: Heuristic>(board: StandardBoard, s: State, d: nat, i: int) -> (int, nat) {
    if spec_ascension(s, spec_next_moves(board, s)[i]) {
        (win_score(s.to_move), 1)
    } else {
        let c = old_negamax::<H>(board, child(board, s, i), (d - 1) as nat, -color_of(s.to_move));
        (if s.to_move.0 == 0 { -c.0 } else { c.0 }, c.1)
    }
}

/// The moves of `s` with their root scores.
pub open spec fn old_negamax_scored<H: Heuristic>(board: StandardBoard, s: State, d: nat) -> Seq<(Move, i16)> {
    let moves = spec_next_moves(board, s);
    Seq::new(moves.len(), |i: int| (moves[i], old_negamax_root::<H>(board, s, d, i).0 as i16))
}

/// Positions the root counts for its first `n` moves.
pub open spec fn old_negamax_count<H: Heuristic>(board: StandardBoard, s: State, d: nat, n: int) -> nat
    decreases n,
{
    if n <= 0 { 0 } else { old_negamax_count::<H>(board, s, d, n - 1) + old_negamax_root::<H>(board, s, d, n - 1).1 }
}

proof fn lemma_old_negamax_count_mono<H: Heuristic>(board: StandardBoard, s: State, d: nat, a: int, b: int)
    requires
        a <= b,
    ensures
        old_negamax_count::<H>(board, s, d, a) <= old_negamax_count::<H>(board, s, d, b),
    decreases b - a,
{
    if a < b {
        lemma_old_negamax_count_mono::<H>(board, s, d, a, b - 1);
    }
}

/// This search visits every move it lists, so it counts exactly the move sequences
/// `perft` counts: a winning move counts one, a position at depth 0 counts one.
pub proof fn lemma_old_negamax_counts_perft<H: Heuristic>(board: StandardBoard, s: State, d: nat, i: int, color: int)
    ensures
        negamax_scores_from::<H>(board, s, d, i, color).1 == perft_from(board, s, d, i),
    decreases d, spec_next_moves(board, s).len() - i,
{
    let moves = spec_next_moves(board, s);
    if d == 0 {
    } else if i < 0 || i >= moves.len() {
    } else {
        if !spec_ascension(s, moves[i]) {
            lemma_old_negamax_counts_perft::<H>(board, child(board, s, i), (d - 1) as nat, 0, -color);
        }
        lemma_old_negamax_counts_perft::<H>(board, s, d, i + 1, color);
    }
}

/// Searched for the sign of the player to move, this search's value is the minimax value
/// times that sign.
pub proof fn lemma_old_negamax_matches_minimax<H: Heuristic>(board: StandardBoard, s: State, d: nat, i: int)
    requires
        board.wf(),
        s.wf(),
    ensures
        negamax_scores_from::<H>(board, s, d, i, color_of(s.to_move)).0 == color_of(s.to_move) * minimax_from::<H>(board, s, d, i).0,
    decreases d, spec_next_moves(board, s).len() - i,
{
    lemma_children(board, s);
    let k = color_of(s.to_move);
    let moves = spec_next_moves(board, s);
    let n = negamax_scores_from::<H>(board, s, d, i, k);
    let m = minimax_from::<H>(board, s, d, i);
    if d == 0 {
        let x = if moves.len() == 0 { -win_score(s.to_move) } else { H::heuristic_value(board, s) };
        assert(n.0 == k * x);
        assert(m.0 == x);
        if k == 1 {
            assert(n.0 == m.0) by (nonlinear_arith) requires n.0 == k * x, m.0 == x, k == 1;
        } else {
            assert(n.0 == -m.0) by (nonlinear_arith) requires n.0 == k * x, m.0 == x, k == -1;
        }
    } else if i < 0 || i >= moves.len() {
    } else {
        lemma_old_negamax_matches_minimax::<H>(board, s, d, i + 1);
        lemma_old_negamax_facts::<H>(board, s, d, i + 1, k);
        let r = negamax_scores_from::<H>(board, s, d, i + 1, k);
        let rm = minimax_from::<H>(board, s, d, i + 1);
        assert(r.0 == k * rm.0);
        if spec_ascension(s, moves[i]) {
            if s.to_move.0 == 0 {
                assert(win_score(s.to_move) == 32767 && k == 1);
            } else {
                assert(win_score(s.to_move) == -32767 && k == -1);
            }
            assert(win_score(s.to_move) * k == 32767) by (nonlinear_arith)
                requires
                    (win_score(s.to_move) == 32767 && k == 1) || (win_score(s.to_move) == -32767 && k == -1);
            assert(n.0 == 32767);
        } else {
            let c = child(board, s, i);
            assert(color_of(c.to_move) == -k);
            lemma_old_negamax_matches_minimax::<H>(board, c, (d - 1) as nat, 0);
            let cn = negamax_scores_from::<H>(board, c, (d - 1) as nat, 0, -k);
            let cm = minimax_from::<H>(board, c, (d - 1) as nat, 0);
            assert(cn.0 == -k * cm.0);
            assert(n.0 == imax(-cn.0, r.0));
            if k == 1 {
                assert(m.0 == imax(cm.0, rm.0));
            } else {
                assert(m.0 == imin(cm.0, rm.0));
            }
        }
        if k == 1 {
            assert(n.0 == m.0);
        } else {
            assert(n.0 == -m.0);
        }
    }
}

/// The root's counts of its first `i` moves and what `perft` counts for the rest make
/// up `perft`'s count.
proof fn lemma_old_negamax_count_perft<H: Heuristic>(board: StandardBoard, s: State, d: nat, i: int)
    requires
        d >= 1,
        0 <= i <= spec_next_moves(board, s).len(),
    ensures
        old_negamax_count::<H>(board, s, d, i) + perft_from(board, s, d, i) == perft_from(board, s, d, 0),
    decreases i,
{
    if i > 0 {
        lemma_old_negamax_count_perft::<H>(board, s, d, i - 1);
        if !spec_ascension(s, spec_next_moves(board, s)[i - 1]) {
            lemma_old_negamax_counts_perft::<H>(board, child(board, s, i - 1), (d - 1) as nat, 0, -color_of(s.to_move));
        }
    }
}

/// What this search's `evaluate` sorts: each listed move with the win of the player to
/// move for a winning move, else the minimax value one ply down, as minimax scores them;
/// and it counts what `perft` counts.
pub proof fn lemma_old_negamax_root_is_minimax<H: Heuristic>(board: StandardBoard, s: State, d: nat)
    requires
        board.wf(),
        s.wf(),
        d >= 1,
    ensures
        old_negamax_scored::<H>(board, s, d) == minimax_scored::<H>(board, s, d),
        old_negamax_count::<H>(board, s, d, spec_next_moves(board, s).len() as int) == perft_from(board, s, d, 0),
{
    lemma_children(board, s);
    let n = spec_next_moves(board, s).len() as int;
    let a = old_negamax_scored::<H>(board, s, d);
    let b = minimax_scored::<H>(board, s, d);
    assert forall|i: int| 0 <= i < n implies a[i] == b[i] by {
        if !spec_ascension(s, spec_next_moves(board, s)[i]) {
            let c = child(board, s, i);
            assert(color_of(c.to_move) == -color_of(s.to_move));
            lemma_old_negamax_matches_minimax::<H>(board, c, (d - 1) as nat, 0);
            let m = crate::game::santorini::evaluator::minimax::minimax::<H>(board, c, (d - 1) as nat).0;
            let v = old_negamax::<H>(board, c, (d - 1) as nat, -color_of(s.to_move)).0;
            if s.to_move.0 == 0 {
                assert(color_of(c.to_move) == -1);
                assert(v == -m);
            } else {
                assert(color_of(c.to_move) == 1);
                assert(v == m);
            }
            assert(old_negamax_root::<H>(board, s, d, i).0 == m);
        }
    }
    assert(a =~= b);
    lemma_old_negamax_count_perft::<H>(board, s, d, n);
}

/// What this search's `evaluate` returns: every listed move once, with the win of the
/// player to move for a winning move and else the minimax value one ply down, best first
/// for the player to move; and the count `perft` gives.
pub proof fn lemma_old_negamax_evaluate<H: Heuristic>(board: StandardBoard, s: State, d: nat, r: Seq<(Move, i16)>)
    requires
        board.wf(),
        s.wf(),
        d >= 1,
        stable_sort_of(r, old_negamax_scored::<H>(board, s, d), s.to_move.0 == 0),
    ensures
        r.to_multiset() == minimax_scored::<H>(board, s, d).to_multiset(),
        scored_moves(r).to_multiset() == spec_next_moves(board, s).to_multiset(),
        forall|i: int, j: int| 0 <= i < j < r.len() ==> if s.to_move.0 == 0 {
            #[trigger] r[i].1 >= #[trigger] r[j].1
        } else {
            r[i].1 <= r[j].1
        },
        old_negamax_count::<H>(board, s, d, spec_next_moves(board, s).len() as int) == perft_from(board, s, d, 0),
{
    let q = old_negamax_scored::<H>(board, s, d);
    let desc = s.to_move.0 == 0;
    lemma_old_negamax_root_is_minimax::<H>(board, s, d);
    lemma_stable_sort_permutes(r, q, desc);
    lemma_next_moves_no_duplicates(board, s);
    lemma_scored_moves_permute(r, q, spec_next_moves(board, s));
    assert forall|i: int, j: int| 0 <= i < j < r.len() implies if s.to_move.0 == 0 {
        #[trigger] r[i].1 >= #[trigger] r[j].1
    } else {
        r[i].1 <= r[j].1
    } by {
        assert(score_key(r[i], desc) <= score_key(r[j], desc));
    }
}

impl NegaMax {
    /// The value of `state` searched `depth` plies deep for the player of sign `color`,
    /// with the number of positions counted.
    pub fn eval<H: Heuristic>(board: &StandardBoard, state: &State, depth: Depth, color: HeuristicValue) -> (r: (HeuristicValue, MoveCount))
        requires
            board.wf(),
            state.wf(),
            color == 1 || color == -1,
            old_negamax::<H>(*board, *state, depth as nat, color as int).1 <= u32::MAX,
        ensures
            r.0 as int == old_negamax::<H>(*board, *state, depth as nat, color as int).0,
            r.1 as nat == old_negamax::<H>(*board, *state, depth as nat, color as int).1,
            -32767 <= r.0,
        decreases depth,
    {
        let mut moves: Vec<Move> = Vec::new();
        proof {
            lemma_children(*board, *state);
            lemma_old_negamax_facts::<H>(*board, *state, depth as nat, 0, color as int);
        }
        board.next_moves(state, &mut moves);
        assert(moves@ =~= spec_next_moves(*board, *state));
        if depth == 0 {
            let v = if moves.len() == 0 {
                if state.to_move.0 == 0 { PLAYER_1_WIN } else { PLAYER_0_WIN }
            } else {
                proof {
                    H::lemma_value_range(*board, *state);
                }
                H::evaluate(board, state)
            };
            proof {
                assert(-32767 <= color * v <= 32767) by (nonlinear_arith)
                    requires
                        -32767 <= v <= 32767,
                        color == 1 || color == -1;
            }
            return (color * v, 1);
        }
        let ghost total_spec = old_negamax::<H>(*board, *state, depth as nat, color as int);
        let mut total_moves: MoveCount = 0;
        let mut best_observed: HeuristicValue = WORST;
        let mut i: usize = 0;
        while i < moves.len()
            invariant
                board.wf(),
                state.wf(),
                depth > 0,
                color == 1 || color == -1,
                moves@ == spec_next_moves(*board, *state),
                moves.len() <= 250000,
                forall|k: int| 0 <= k < moves.len() ==> (#[trigger] child(*board, *state, k)).wf(),
                forall|k: int| 0 <= k < moves.len() ==> move_on_board(#[trigger] moves@[k]),
                0 <= i <= moves.len(),
                total_spec == old_negamax::<H>(*board, *state, depth as nat, color as int),
                total_spec.1 <= u32::MAX,
                -32767 <= best_observed,
                -32767 <= total_spec.0,
                imax(best_observed as int, negamax_scores_from::<H>(*board, *state, depth as nat, i as int, color as int).0) == total_spec.0,
                total_moves + negamax_scores_from::<H>(*board, *state, depth as nat, i as int, color as int).1 == total_spec.1,
            decreases moves.len() - i,
        {
            let mve = moves[i];
            let (v, move_count) = if board.ascension_winning_move(state, mve) {
                let wv = if state.to_move.0 == 0 { PLAYER_0_WIN } else { PLAYER_1_WIN };
                (wv * color, 1)
            } else {
                let new_state = board.apply(mve, state);
                proof {
                    lemma_old_negamax_facts::<H>(*board, new_state, (depth - 1) as nat, 0, -color);
                }
                let (v, mves) = Self::eval::<H>(board, &new_state, depth - 1, -color);
                (-v, mves)
            };
            total_moves = total_moves + move_count;
            if v > best_observed {
                best_observed = v;
            }
            i = i + 1;
        }
        (best_observed, total_moves)
    }
}

impl<H: Heuristic> Evaluation<H> for NegaMax {
    open spec fn within_limits(board: StandardBoard, state: State, depth: Depth) -> bool {
        old_negamax_count::<H>(board, state, depth as nat, spec_next_moves(board, state).len() as int) <= u32::MAX
    }

    open spec fn scored(board: StandardBoard, state: State, depth: Depth) -> Seq<(Move, HeuristicValue)> {
        old_negamax_scored::<H>(board, state, depth as nat)
    }

    open spec fn counted(board: StandardBoard, state: State, depth: Depth) -> nat {
        old_negamax_count::<H>(board, state, depth as nat, spec_next_moves(board, state).len() as int)
    }

    fn evaluate(board: &StandardBoard, state: &State, depth: Depth) -> (r: (Vec<(Move, HeuristicValue)>, MoveCount)) {
        let color = color(state.to_move);
        let mut moves: Vec<Move> = Vec::new();
        proof {
            lemma_children(*board, *state);
        }
        board.next_moves(state, &mut moves);
        assert(moves@ =~= spec_next_moves(*board, *state));
        let ghost scored = old_negamax_scored::<H>(*board, *state, depth as nat);
        let ghost n = moves.len() as int;
        let maximise = state.to_move.0 == 0;
        let mut total_moves: MoveCount = 0;
        let mut unsorted_moves: Vec<(Move, HeuristicValue)> = Vec::new();
        let mut i: usize = 0;
        while i < moves.len()
            invariant
                board.wf(),
                state.wf(),
                1 <= depth,
                color == color_of(state.to_move),
                moves@ == spec_next_moves(*board, *state),
                n == moves.len(),
                moves.len() <= 250000,
                forall|k: int| 0 <= k < moves.len() ==> (#[trigger] child(*board, *state, k)).wf(),
                forall|k: int| 0 <= k < moves.len() ==> move_on_board(#[trigger] moves@[k]),
                maximise == (state.to_move.0 == 0),
                scored == old_negamax_scored::<H>(*board, *state, depth as nat),
                0 <= i <= moves.len(),
                unsorted_moves@ == scored.subrange(0, i as int),
                old_negamax_count::<H>(*board, *state, depth as nat, n) <= u32::MAX,
                total_moves == old_negamax_count::<H>(*board, *state, depth as nat, i as int),
            decreases moves.len() - i,
        {
            proof {
                lemma_old_negamax_count_mono::<H>(*board, *state, depth as nat, i as int + 1, n);
            }
            let mve = moves[i];
            if board.ascension_winning_move(state, mve) {
                unsorted_moves.push((mve, if maximise { PLAYER_0_WIN } else { PLAYER_1_WIN }));
                total_moves = total_moves + 1;
            } else {
                let new_state = board.apply(mve, state);
                proof {
                    lemma_old_negamax_facts::<H>(*board, new_state, (depth - 1) as nat, 0, -color);
                }
                let (v, move_count) = NegaMax::eval::<H>(board, &new_state, depth - 1, -color);
                unsorted_moves.push((mve, if maximise { -v } else { v }));
                total_moves = total_moves + move_count;
            }
            assert(unsorted_moves@ =~= scored.subrange(0, i + 1));
            i = i + 1;
        }
        assert(unsorted_moves@ =~= scored);
        (sort_by_score(unsorted_moves, maximise), total_moves)
    }
}

} // verus!
