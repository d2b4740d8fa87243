//! Minimax scoring every move of a position.
use vstd::prelude::*;
use crate::game::santorini::{Move, HeuristicValue, MoveCount, Depth, Evaluation};
use crate::game::santorini::board::{StandardBoard, spec_next_moves, spec_ascension, move_on_board};
use crate::game::santorini::state::State;
use crate::game::santorini::heuristic::{Heuristic, PLAYER_0_WIN, PLAYER_1_WIN};
use crate::game::santorini::search::{imax, imin, win_score, child, lemma_children, sort_by_score, stable_sort_of};
use crate::game::santorini::evaluator::minimax::{minimax, minimax_from, minimax_root_score, lemma_minimax_range};

verus! {

pub struct MiniMax {}

/// The moves of `s` with their scores: the win of the player to move for a winning
/// move, else the minimax value one ply down.
pub open spec fn minimax_scored<H: Heuristic>(board: StandardBoard, s: State, d: nat) -> Seq<(Move, i16)> {
    let moves = spec_next_moves(board, s);
    Seq::new(moves.len(), |i: int| (moves[i], (if spec_ascension(s, moves[i]) {
        win_score(s.to_move)
    } else {
        minimax::<H>(board, child(board, s, i), (d - 1) as nat).0
    }) as i16))
}

/// The better of two scores for the player to move in `s`: the higher for player 0, the
/// lower for player 1.
pub open spec fn better_of(s: State, a: int, b: int) -> int {
    if s.to_move.0 == 0 { imax(a, b) } else { imin(a, b) }
}

/// The best minimax score among the root's first `i` moves (the loss of the player to
/// move if none).
pub open spec fn minimax_root_prefix<H: Heuristic>(board: StandardBoard, s: State, d: nat, i: int) -> int
    decreases i,
{
    if i <= 0 {
        -win_score(s.to_move)
    } else {
        better_of(s, minimax_root_prefix::<H>(board, s, d, i - 1), minimax_root_score::<H>(board, s, d, i - 1))
    }
}

/// The best of the first `i` minimax scores and the minimax value of the rest is the
/// minimax value of the position.
pub proof fn lemma_minimax_prefix_rest<H: Heuristic>(board: StandardBoard, s: State, d: nat, i: int)
    requires
        board.wf(),
        s.wf(),
        d >= 1,
        0 <= i <= spec_next_moves(board, s).len(),
    ensures
        better_of(s, minimax_root_prefix::<H>(board, s, d, i), minimax_from::<H>(board, s, d, i).0)
            == minimax::<H>(board, s, d).0,
    decreases i,
{
    lemma_children(board, s);
    lemma_minimax_range::<H>(board, s, d, i);
    if i > 0 {
        lemma_minimax_prefix_rest::<H>(board, s, d, i - 1);
        lemma_minimax_range::<H>(board, s, d, i);
        if !spec_ascension(s, spec_next_moves(board, s)[i - 1]) {
            lemma_minimax_range::<H>(board, child(board, s, i - 1), (d - 1) as nat, 0);
        }
        lemma_minimax_prefix_range::<H>(board, s, d, i - 1);
    }
}

/// The best minimax score among the first `i` moves only gets better with `i`.
pub proof fn lemma_minimax_prefix_grows<H: Heuristic>(board: StandardBoard, s: State, d: nat, i: int, j: int)
    requires
        0 <= i <= j,
    ensures
        s.to_move.0 == 0 ==> minimax_root_prefix::<H>(board, s, d, i) <= minimax_root_prefix::<H>(board, s, d, j),
        s.to_move.0 != 0 ==> minimax_root_prefix::<H>(board, s, d, i) >= minimax_root_prefix::<H>(board, s, d, j),
    decreases j - i,
{
    if i < j {
        lemma_minimax_prefix_grows::<H>(board, s, d, i, j - 1);
    }
}

/// The best minimax score among the first `i` moves is a score.
pub proof fn lemma_minimax_prefix_range<H: Heuristic>(board: StandardBoard, s: State, d: nat, i: int)
    requires
        board.wf(),
        s.wf(),
        d >= 1,
        0 <= i <= spec_next_moves(board, s).len(),
    ensures
        -32767 <= minimax_root_prefix::<H>(board, s, d, i) <= 32767,
    decreases i,
{
    lemma_children(board, s);
    if i > 0 {
        lemma_minimax_prefix_range::<H>(board, s, d, i - 1);
        if !spec_ascension(s, spec_next_moves(board, s)[i - 1]) {
            lemma_minimax_range::<H>(board, child(board, s, i - 1), (d - 1) as nat, 0);
        }
    }
}

/// Some move among the first `i` has the best minimax score among them.
proof fn lemma_minimax_prefix_attained<H: Heuristic>(board: StandardBoard, s: State, d: nat, i: int)
    requires
        board.wf(),
        s.wf(),
        d >= 1,
        1 <= i <= spec_next_moves(board, s).len(),
    ensures
        exists|j: int| 0 <= j < i && minimax_root_score::<H>(board, s, d, j) == minimax_root_prefix::<H>(board, s, d, i),
    decreases i,
{
    lemma_children(board, s);
    if !spec_ascension(s, spec_next_moves(board, s)[i - 1]) {
        lemma_minimax_range::<H>(board, child(board, s, i - 1), (d - 1) as nat, 0);
    }
    if i > 1 {
        lemma_minimax_prefix_attained::<H>(board, s, d, i - 1);
        let prev = minimax_root_prefix::<H>(board, s, d, i - 1);
        let here = minimax_root_score::<H>(board, s, d, i - 1);
        if better_of(s, prev, here) == here {
            assert(minimax_root_score::<H>(board, s, d, i - 1) == minimax_root_prefix::<H>(board, s, d, i));
        }
    } else {
        assert(minimax_root_prefix::<H>(board, s, d, 0) == -win_score(s.to_move));
        assert(minimax_root_score::<H>(board, s, d, 0) == minimax_root_prefix::<H>(board, s, d, 1));
    }
}

/// The minimax value of a position searched at least one ply deep: the win of the player
/// to move when one of its moves wins at once; its loss when it has no move; otherwise
/// the best, for the player to move, of its moves' scores (a winning move scoring the
/// win, another the minimax value one ply down).
pub proof fn lemma_minimax_over_moves<H: Heuristic>(board: StandardBoard, s: State, d: nat)
    requires
        board.wf(),
        s.wf(),
        d >= 1,
    ensures
        (exists|i: int| 0 <= i < spec_next_moves(board, s).len() && spec_ascension(s, #[trigger] spec_next_moves(board, s)[i]))
            ==> minimax::<H>(board, s, d).0 == win_score(s.to_move),
        spec_next_moves(board, s).len() == 0 ==> minimax::<H>(board, s, d).0 == -win_score(s.to_move),
        forall|i: int| 0 <= i < spec_next_moves(board, s).len() ==> if s.to_move.0 == 0 {
            #[trigger] minimax_root_score::<H>(board, s, d, i) <= minimax::<H>(board, s, d).0
        } else {
            minimax_root_score::<H>(board, s, d, i) >= minimax::<H>(board, s, d).0
        },
        spec_next_moves(board, s).len() > 0 ==> exists|i: int| 0 <= i < spec_next_moves(board, s).len()
            && minimax_root_score::<H>(board, s, d, i) == minimax::<H>(board, s, d).0,
{
    let n = spec_next_moves(board, s).len() as int;
    lemma_children(board, s);
    lemma_minimax_prefix_rest::<H>(board, s, d, n);
    lemma_minimax_range::<H>(board, s, d, 0);
    lemma_minimax_prefix_range::<H>(board, s, d, n);
    assert(minimax_root_prefix::<H>(board, s, d, n) == minimax::<H>(board, s, d).0);
    assert forall|i: int| 0 <= i < n implies if s.to_move.0 == 0 {
        #[trigger] minimax_root_score::<H>(board, s, d, i) <= minimax::<H>(board, s, d).0
    } else {
        minimax_root_score::<H>(board, s, d, i) >= minimax::<H>(board, s, d).0
    } by {
        lemma_minimax_prefix_grows::<H>(board, s, d, i + 1, n);
    }
    if exists|i: int| 0 <= i < n && spec_ascension(s, #[trigger] spec_next_moves(board, s)[i]) {
        let i = choose|i: int| 0 <= i < n && spec_ascension(s, #[trigger] spec_next_moves(board, s)[i]);
        assert(minimax_root_score::<H>(board, s, d, i) == win_score(s.to_move));
    }
    if n > 0 {
        lemma_minimax_prefix_attained::<H>(board, s, d, n);
    }
}

impl MiniMax {
    /// The minimax value of `state` searched `depth` plies deep.
    pub fn eval<H: Heuristic>(board: &StandardBoard, state: &State, depth: Depth) -> (r: HeuristicValue)
        requires
            board.wf(),
            state.wf(),
        ensures
            r as int == minimax::<H>(*board, *state, depth as nat).0,
        decreases depth,
    {
        let mut moves: Vec<Move> = Vec::with_capacity(200);
        proof {
            lemma_children(*board, *state);
            lemma_minimax_range::<H>(*board, *state, depth as nat, 0);
        }
        board.next_moves(state, &mut moves);
        assert(moves@ =~= spec_next_moves(*board, *state));
        if depth == 0 {
            return if moves.len() == 0 {
                if state.to_move.0 == 0 { PLAYER_1_WIN } else { PLAYER_0_WIN }
            } else {
                H::evaluate(board, state)
            };
        }
        let ghost total = minimax::<H>(*board, *state, depth as nat).0;
        let maximise = state.to_move.0 == 0;
        let mut best_observed: HeuristicValue = if maximise { PLAYER_1_WIN } else { PLAYER_0_WIN };
        let mut i: usize = 0;
        while i < moves.len()
            invariant
                board.wf(),
                state.wf(),
                depth > 0,
                moves@ == spec_next_moves(*board, *state),
                moves.len() <= 250000,
                forall|k: int| 0 <= k < moves.len() ==> (#[trigger] child(*board, *state, k)).wf(),
                forall|k: int| 0 <= k < moves.len() ==> move_on_board(#[trigger] moves@[k]),
                maximise == (state.to_move.0 == 0),
                0 <= i <= moves.len(),
                total == minimax::<H>(*board, *state, depth as nat).0,
                -32767 <= best_observed,
                -32767 <= total,
                maximise ==> imax(best_observed as int, crate::game::santorini::evaluator::minimax::minimax_from::<H>(*board, *state,
                    depth as nat, i as int).0) == total,
                !maximise ==> imin(best_observed as int, crate::game::santorini::evaluator::minimax::minimax_from::<H>(*board, *state,
                    depth as nat, i as int).0) == total,
            decreases moves.len() - i,
        {
            let mve = moves[i];
            if board.ascension_winning_move(state, mve) {
                return if maximise { PLAYER_0_WIN } else { PLAYER_1_WIN };
            }
            let new_state = board.apply(mve, state);
            proof {
                lemma_minimax_range::<H>(*board, new_state, (depth - 1) as nat, 0);
            }
            let v = Self::eval::<H>(board, &new_state, depth - 1);
            if maximise {
                if v > best_observed {
                    best_observed = v;
                }
            } else {
                if v < best_observed {
                    best_observed = v;
                }
            }
            i = i + 1;
        }
        best_observed
    }
}

impl<H: Heuristic> Evaluation<H> for MiniMax {
    open spec fn within_limits(board: StandardBoard, state: State, depth: Depth) -> bool {
        true
    }

    open spec fn scored(board: StandardBoard, state: State, depth: Depth) -> Seq<(Move, HeuristicValue)> {
        minimax_scored::<H>(board, state, depth as nat)
    }

    /// This search counts no positions.
    open spec fn counted(board: StandardBoard, state: State, depth: Depth) -> nat {
        0
    }

    fn evaluate(board: &StandardBoard, state: &State, depth: Depth) -> (r: (Vec<(Move, HeuristicValue)>, MoveCount)) {
        let mut moves: Vec<Move> = Vec::with_capacity(200);
        proof {
            lemma_children(*board, *state);
        }
        board.next_moves(state, &mut moves);
        assert(moves@ =~= spec_next_moves(*board, *state));
        let ghost scored = minimax_scored::<H>(*board, *state, depth as nat);
        let maximise = state.to_move.0 == 0;
        let mut unsorted_moves: Vec<(Move, HeuristicValue)> = Vec::new();
        let mut i: usize = 0;
        while i < moves.len()
            invariant
                board.wf(),
                state.wf(),
                1 <= depth,
                moves@ == spec_next_moves(*board, *state),
                moves.len() <= 250000,
                forall|k: int| 0 <= k < moves.len() ==> (#[trigger] child(*board, *state, k)).wf(),
                forall|k: int| 0 <= k < moves.len() ==> move_on_board(#[trigger] moves@[k]),
                maximise == (state.to_move.0 == 0),
                scored == minimax_scored::<H>(*board, *state, depth as nat),
                0 <= i <= moves.len(),
                unsorted_moves@ == scored.subrange(0, i as int),
            decreases moves.len() - i,
        {
            let mve = moves[i];
            let v = if board.ascension_winning_move(state, mve) {
                if maximise { PLAYER_0_WIN } else { PLAYER_1_WIN }
            } else {
                let new_state = board.apply(mve, state);
                assert(new_state == child(*board, *state, i as int));
                Self::eval::<H>(board, &new_state, depth - 1)
            };
            unsorted_moves.push((mve, v));
            assert(unsorted_moves@ =~= scored.subrange(0, i + 1));
            i = i + 1;
        }
        assert(unsorted_moves@ =~= scored);
        (sort_by_score(unsorted_moves, maximise), 0)
    }
}

} // verus!
