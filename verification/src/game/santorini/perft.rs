//! Counting the moves of the game tree to a fixed depth, the usual check and benchmark
//! of a move generator.
use vstd::prelude::*;
use crate::game::santorini::board::{StandardBoard, spec_next_moves, spec_apply, spec_ascension, move_on_board,
    lemma_next_moves_on_board, lemma_apply_wf, lemma_next_moves_len};
use crate::game::santorini::state::State;
use crate::game::santorini::Move;
use crate::game::santorini::move_stack::{MoveStack, MAX_MOVE_STACK};
use crate::game::santorini::heuristic::Heuristic;

verus! {

pub const PERFT_DEPTH: usize = 4;

/// The most stack room that one of the moves of `s` from place `i` on needs for the
/// search one level down (`d` levels are left at `s`); a winning move needs none.
pub open spec fn child_need(board: StandardBoard, s: State, d: nat, i: int) -> nat
    decreases d, spec_next_moves(board, s).len() - i,
{
    let moves = spec_next_moves(board, s);
    if d == 0 || i < 0 || i >= moves.len() {
        0
    } else {
        let m = moves[i];
        let c = spec_apply(s, m);
        let here: nat = if spec_ascension(s, m) || d == 1 {
            0
        } else {
            spec_next_moves(board, c).len() + child_need(board, c, (d - 1) as nat, 0)
        };
        let rest = child_need(board, s, d, i + 1);
        if here >= rest { here } else { rest }
    }
}

/// Stack room a search of `d` levels from `s` needs: the moves of `s` and what the
/// hungriest of them needs below.
pub open spec fn stack_need(board: StandardBoard, s: State, d: nat) -> nat {
    if d == 0 {
        0
    } else {
        spec_next_moves(board, s).len() + child_need(board, s, d, 0)
    }
}

/// The count `perft` returns for the moves of `s` from place `i` on with `d` levels
/// left: a position at depth 0 counts one, and so does a winning move.
pub open spec fn perft_from(board: StandardBoard, s: State, d: nat, i: int) -> nat
    decreases d, spec_next_moves(board, s).len() - i,
{
    let moves = spec_next_moves(board, s);
    if d == 0 {
        1
    } else if i < 0 || i >= moves.len() {
        0
    } else {
        let m = moves[i];
        let here: nat = if spec_ascension(s, m) { 1 } else { perft_from(board, spec_apply(s, m), (d - 1) as nat, 0) };
        here + perft_from(board, s, d, i + 1)
    }
}

/// The sum of the heuristic values `perft_heuristic` adds up: over the positions at
/// depth 0, reached without a winning move.
pub open spec fn perft_value_from<H: Heuristic>(board: StandardBoard, s: State, d: nat, i: int) -> int
    decreases d, spec_next_moves(board, s).len() - i,
{
    let moves = spec_next_moves(board, s);
    if d == 0 {
        H::heuristic_value(board, s)
    } else if i < 0 || i >= moves.len() {
        0
    } else {
        let m = moves[i];
        let here: int = if spec_ascension(s, m) { 0 } else { perft_value_from::<H>(board, spec_apply(s, m), (d - 1) as nat, 0) };
        here + perft_value_from::<H>(board, s, d, i + 1)
    }
}

/// Every running total of the sum `perft_heuristic` keeps for the moves of `s` from place
/// `i` on, in the position and in those below it, fits in an `i64`.
pub open spec fn heuristic_sums_fit<H: Heuristic>(board: StandardBoard, s: State, d: nat, i: int) -> bool
    decreases d, spec_next_moves(board, s).len() - i,
{
    let moves = spec_next_moves(board, s);
    if d == 0 || i < 0 || i >= moves.len() {
        true
    } else {
        let m = moves[i];
        let total = perft_value_from::<H>(board, s, d, 0) - perft_value_from::<H>(board, s, d, i + 1);
        &&& (spec_ascension(s, m) || heuristic_sums_fit::<H>(board, spec_apply(s, m), (d - 1) as nat, 0))
        &&& i64::MIN <= total <= i64::MAX
        &&& heuristic_sums_fit::<H>(board, s, d, i + 1)
    }
}

/// The count from a later place is no more than from an earlier one.
proof fn lemma_perft_from_mono(board: StandardBoard, s: State, d: nat, i: int, j: int)
    requires
        0 <= i <= j,
    ensures
        perft_from(board, s, d, j) <= perft_from(board, s, d, i),
    decreases j - i,
{
    if i < j {
        lemma_perft_from_mono(board, s, d, i + 1, j);
    }
}

/// What one move needs is no more than what the hungriest move needs.
pub proof fn lemma_child_need(board: StandardBoard, s: State, d: nat, i: int, j: int)
    requires
        d > 0,
        0 <= i <= j < spec_next_moves(board, s).len(),
    ensures
        child_need(board, s, d, i) >= (if spec_ascension(s, spec_next_moves(board, s)[j]) {
            0
        } else {
            stack_need(board, spec_apply(s, spec_next_moves(board, s)[j]), (d - 1) as nat)
        }),
    decreases j - i,
{
    if i < j {
        lemma_child_need(board, s, d, i + 1, j);
    }
}

/// A search of `d` levels never needs more stack room than `d` full move lists.
pub proof fn lemma_stack_need_bound(board: StandardBoard, s: State, d: nat)
    ensures
        stack_need(board, s, d) <= d * 250000,
    decreases d, 1int, 0int,
{
    if d > 0 {
        lemma_next_moves_len(board, s);
        lemma_child_need_bound(board, s, d, 0);
        assert((d - 1) * 250000 + 250000 == d * 250000) by (nonlinear_arith);
    }
}

/// What the moves from place `i` on need is no more than `d - 1` full move lists.
proof fn lemma_child_need_bound(board: StandardBoard, s: State, d: nat, i: int)
    requires
        d > 0,
    ensures
        child_need(board, s, d, i) <= (d - 1) * 250000,
    decreases d, 0int, spec_next_moves(board, s).len() - i,
{
    let moves = spec_next_moves(board, s);
    if 0 <= i < moves.len() {
        let c = spec_apply(s, moves[i]);
        if !(spec_ascension(s, moves[i]) || d == 1) {
            lemma_stack_need_bound(board, c, (d - 1) as nat);
        }
        lemma_child_need_bound(board, s, d, i + 1);
    }
    assert(0 <= (d - 1) * 250000) by (nonlinear_arith) requires d > 0;
}

impl StandardBoard {
    /// The number of move sequences of `depth` moves from `state`, a winning move ending
    /// its sequence early and counting one. The moves are pushed on `move_stack` above
    /// what it holds, which is left as it was.
    pub fn perft(&self, state: &State, depth: usize, move_stack: &mut MoveStack) -> (r: u64)
        requires
            self.wf(),
            state.wf(),
            old(move_stack).wf(),
            old(move_stack).next + stack_need(*self, *state, depth as nat) <= MAX_MOVE_STACK,
            perft_from(*self, *state, depth as nat, 0) <= u64::MAX,
        ensures
            r == perft_from(*self, *state, depth as nat, 0),
            final(move_stack).next == old(move_stack).next,
            final(move_stack).stacked() == old(move_stack).stacked(),
        decreases depth,
    {
        if depth == 0 {
            return 1;
        }
        let mut n: u64 = 0;
        let ghost below = move_stack.stacked();
        let stack_begin = move_stack.next;
        self.next_moves(state, move_stack);
        let stack_end = move_stack.next;
        let ghost moves = spec_next_moves(*self, *state);
        let ghost filled = move_stack.stacked();
        proof {
            lemma_next_moves_on_board(*self, *state);
        }
        let mut idx = stack_begin;
        while idx < stack_end
            invariant
                self.wf(),
                state.wf(),
                depth > 0,
                moves == spec_next_moves(*self, *state),
                forall|k: int| 0 <= k < moves.len() ==> move_on_board(#[trigger] moves[k]),
                stack_begin <= idx <= stack_end,
                stack_begin == below.len(),
                stack_end == stack_begin + moves.len(),
                filled == below + moves,
                move_stack.wf(),
                move_stack.next == stack_end,
                move_stack.stacked() == filled,
                stack_end + child_need(*self, *state, depth as nat, 0) <= MAX_MOVE_STACK,
                n + perft_from(*self, *state, depth as nat, idx - stack_begin) == perft_from(*self, *state, depth as nat, 0),
                perft_from(*self, *state, depth as nat, 0) <= u64::MAX,
            decreases stack_end - idx,
        {
            let mve = move_stack.moves[idx];
            let ghost j = idx - stack_begin;
            assert(move_stack.stacked()[idx as int] == mve);
            assert(mve == moves[j]);
            let count = if self.ascension_winning_move(state, mve) {
                1
            } else {
                let new_state = self.apply(mve, state);
                proof {
                    lemma_apply_wf(*state, mve);
                    lemma_child_need(*self, *state, depth as nat, 0, j);
                }
                self.perft(&new_state, depth - 1, move_stack)
            };
            n = n + count;
            idx = idx + 1;
        }
        move_stack.next = stack_begin;
        proof {
            assert(move_stack.stacked() =~= below);
        }
        n
    }

    /// With `perft`'s count, the sum of the heuristic values of the positions at depth 0.
    pub fn perft_heuristic<H: Heuristic>(&self, state: &State, depth: usize, move_stack: &mut MoveStack) -> (r: (u64, i64))
        requires
            self.wf(),
            state.wf(),
            old(move_stack).wf(),
            old(move_stack).next + stack_need(*self, *state, depth as nat) <= MAX_MOVE_STACK,
            perft_from(*self, *state, depth as nat, 0) <= u64::MAX,
            heuristic_sums_fit::<H>(*self, *state, depth as nat, 0),
        ensures
            r.0 == perft_from(*self, *state, depth as nat, 0),
            r.1 == perft_value_from::<H>(*self, *state, depth as nat, 0),
            -32767 * r.0 <= r.1 <= 32767 * r.0,
            final(move_stack).next == old(move_stack).next,
            final(move_stack).stacked() == old(move_stack).stacked(),
        decreases depth,
    {
        if depth == 0 {
            let v = H::evaluate(self, state);
            return (1, v as i64);
        }
        let mut n: u64 = 0;
        let mut h: i64 = 0;
        let ghost below = move_stack.stacked();
        let stack_begin = move_stack.next;
        self.next_moves(state, move_stack);
        let stack_end = move_stack.next;
        let ghost moves = spec_next_moves(*self, *state);
        let ghost filled = move_stack.stacked();
        proof {
            lemma_next_moves_on_board(*self, *state);
        }
        let mut idx = stack_begin;
        while idx < stack_end
            invariant
                self.wf(),
                state.wf(),
                depth > 0,
                moves == spec_next_moves(*self, *state),
                forall|k: int| 0 <= k < moves.len() ==> move_on_board(#[trigger] moves[k]),
                stack_begin <= idx <= stack_end,
                stack_begin == below.len(),
                stack_end == stack_begin + moves.len(),
                filled == below + moves,
                move_stack.wf(),
                move_stack.next == stack_end,
                move_stack.stacked() == filled,
                stack_end + child_need(*self, *state, depth as nat, 0) <= MAX_MOVE_STACK,
                n + perft_from(*self, *state, depth as nat, idx - stack_begin) == perft_from(*self, *state, depth as nat, 0),
                h + perft_value_from::<H>(*self, *state, depth as nat, idx - stack_begin)
                    == perft_value_from::<H>(*self, *state, depth as nat, 0),
                -32767 * n <= h <= 32767 * n,
                perft_from(*self, *state, depth as nat, 0) <= u64::MAX,
                heuristic_sums_fit::<H>(*self, *state, depth as nat, idx - stack_begin),
            decreases stack_end - idx,
        {
            let mve = move_stack.moves[idx];
            let ghost j = idx - stack_begin;
            assert(move_stack.stacked()[idx as int] == mve);
            assert(mve == moves[j]);
            proof {
                lemma_perft_from_mono(*self, *state, depth as nat, 0, j);
                lemma_perft_from_mono(*self, *state, depth as nat, 0, j + 1);
            }
            if self.ascension_winning_move(state, mve) {
                n = n + 1;
            } else {
                let new_state = self.apply(mve, state);
                proof {
                    lemma_apply_wf(*state, mve);
                    lemma_child_need(*self, *state, depth as nat, 0, j);
                }
                let (moves_below, total_h) = self.perft_heuristic::<H>(&new_state, depth - 1, move_stack);
                proof {
                    assert(-32767 * (n + moves_below) <= h + total_h <= 32767 * (n + moves_below)) by (nonlinear_arith)
                        requires
                            -32767 * n <= h <= 32767 * n,
                            -32767 * moves_below <= total_h <= 32767 * moves_below;
                }
                h = h + total_h;
                n = n + moves_below;
            }
            idx = idx + 1;
        }
        move_stack.next = stack_begin;
        proof {
            assert(move_stack.stacked() =~= below);
        }
        (n, h)
    }

    /// The stack room a search of `depth` levels from `state` needs: the length of the
    /// move list of `state` and, below it, the most that one of its moves needs (a
    /// winning move ends its line and needs none). It walks the whole tree, keeping the
    /// move lists in vectors of its own.
    pub fn stack_need_of(&self, state: &State, depth: u8) -> (r: u64)
        requires
            self.wf(),
            state.wf(),
        ensures
            r == stack_need(*self, *state, depth as nat),
        decreases depth,
    {
        if depth == 0 {
            return 0;
        }
        let mut moves: Vec<Move> = Vec::new();
        proof {
            lemma_next_moves_len(*self, *state);
        }
        self.next_moves(state, &mut moves);
        let ghost ms = spec_next_moves(*self, *state);
        assert(moves@ =~= ms);
        proof {
            lemma_next_moves_on_board(*self, *state);
            lemma_stack_need_bound(*self, *state, depth as nat);
            lemma_child_need_bound(*self, *state, depth as nat, 0);
            assert((depth - 1) * 250000 <= 255 * 250000) by (nonlinear_arith) requires depth <= 255;
        }
        let mut need: u64 = 0;
        let mut i: usize = moves.len();
        while i > 0
            invariant
                self.wf(),
                state.wf(),
                depth > 0,
                moves@ == ms,
                ms == spec_next_moves(*self, *state),
                forall|k: int| 0 <= k < ms.len() ==> move_on_board(#[trigger] ms[k]),
                i <= ms.len(),
                need == child_need(*self, *state, depth as nat, i as int),
            decreases i,
        {
            i = i - 1;
            let mve = moves[i];
            let here: u64 = if depth == 1 || self.ascension_winning_move(state, mve) {
                0
            } else {
                let child = self.apply(mve, state);
                proof {
                    lemma_apply_wf(*state, mve);
                    lemma_stack_need_bound(*self, child, (depth - 1) as nat);
                    assert((depth - 1) * 250000 <= 255 * 250000) by (nonlinear_arith) requires depth <= 255;
                }
                self.stack_need_of(&child, depth - 1)
            };
            if here > need {
                need = here;
            }
        }
        moves.len() as u64 + need
    }
}

} // verus!
