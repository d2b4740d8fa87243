//! Negamax with fail-soft alpha-beta pruning and a transposition table: a position's
//! entry can answer for it, narrow its window or suggest the move to search first, and
//! each search leaves an entry for its position.
use vstd::prelude::*;
use crate::game::santorini::{Move, HeuristicValue, MoveCount, Depth};
use crate::game::santorini::board::{StandardBoard, spec_next_moves, spec_apply, spec_ascension, spec_delta_hash, spec_hash,
    move_on_board, sane, listed_legal, lemma_apply_sane};
use crate::game::santorini::state::State;
use crate::game::santorini::heuristic::{Heuristic, BEST, WORST};
use crate::game::santorini::evaluator_info::{EvaluatorInfo, zero_info};
use crate::game::santorini::search::{imax, imin, color_of, color, child, lemma_children, lemma_children_sane, move_first,
    moved_from, lemma_move_first, first_index, lemma_first_index};
use crate::game::santorini::transposition::{TranspositionTable, TableView, EntryType, StateHash, lemma_ready_probe, spec_null_entry};
use crate::game::santorini::move_stack::{MoveStack, MAX_MOVE_STACK};
use crate::game::santorini::perft::{stack_need, lemma_child_need};
use crate::game::santorini::evaluator::Evaluator;
use crate::game::santorini::evaluator::minimax::{first_best, minimax_root_score};
use crate::game::santorini::search::win_score;
use crate::game::santorini::board::lemma_hash_after_move;
use crate::game::santorini::transposition::{lemma_bucket_in_table, first_free_or_match};

verus! {

pub struct NegaMaxAlphaBetaExp {}

/// What the search keeps between searches: its transposition table.
pub struct EvState {
    pub transposition: TranspositionTable,
}

/// Counts a search adds to its report: the table's answers (valid entry, suggestion
/// only, miss) and the principal variation nodes.
pub struct Tally {
    pub valid: nat,
    pub suggest: nat,
    pub miss: nat,
    pub pv: nat,
}

pub open spec fn tally_zero() -> Tally {
    Tally { valid: 0, suggest: 0, miss: 0, pv: 0 }
}

pub open spec fn tally_add(a: Tally, b: Tally) -> Tally {
    Tally { valid: a.valid + b.valid, suggest: a.suggest + b.suggest, miss: a.miss + b.miss, pv: a.pv + b.pv }
}

pub open spec fn tally_le(a: Tally, b: Tally) -> bool {
    a.valid <= b.valid && a.suggest <= b.suggest && a.miss <= b.miss && a.pv <= b.pv
}

/// `info` plus the counts of `t`, with room for them.
pub open spec fn info_fits(info: EvaluatorInfo, t: Tally) -> bool {
    &&& info.tt_valid + t.valid <= u64::MAX
    &&& info.tt_suggest + t.suggest <= u64::MAX
    &&& info.tt_miss + t.miss <= u64::MAX
    &&& info.pv_count + t.pv <= u32::MAX
}

/// `after` is `before` with the counts of `t` added.
pub open spec fn info_added(before: EvaluatorInfo, after: EvaluatorInfo, t: Tally) -> bool {
    &&& after.tt_valid == before.tt_valid + t.valid
    &&& after.tt_suggest == before.tt_suggest + t.suggest
    &&& after.tt_miss == before.tt_miss + t.miss
    &&& after.pv_count == before.pv_count + t.pv
    &&& after.move_count == before.move_count
}

/// What the table's answer for `hash` counts: a valid entry (found, searched at least
/// `d` plies deep), a suggestion (found, shallower) or a miss.
pub open spec fn probe_tally(t: TableView, hash: StateHash, d: nat) -> Tally {
    let p = t.probe(hash);
    let e = t.entries[p.0];
    if p.1 && e.depth >= d {
        Tally { valid: 1, ..tally_zero() }
    } else if p.1 {
        Tally { suggest: 1, ..tally_zero() }
    } else {
        Tally { miss: 1, ..tally_zero() }
    }
}

/// The score of a position at the search's horizon for the player of sign `color`: a
/// loss when the player to move has no move, else the heuristic.
pub open spec fn leaf_value<H: Heuristic>(board: StandardBoard, s: State, color: int) -> int {
    if spec_next_moves(board, s).len() == 0 { -32767 } else { H::heuristic_value(board, s) * color }
}

/// The table answers the search of `hash` with `d` plies left and window `(alpha, beta)`
/// at once: its entry is found, searched at least `d` plies deep, and exact or closing
/// the window.
pub open spec fn table_answers(t: TableView, hash: StateHash, d: nat, alpha: int, beta: int) -> bool {
    let p = t.probe(hash);
    let e = t.entries[p.0];
    let hit = p.1 && e.depth >= d;
    let na = if hit && e.entry_type == EntryType::Lower { imax(alpha, e.value as int) } else { alpha };
    let nb = if hit && e.entry_type == EntryType::Upper { imin(beta, e.value as int) } else { beta };
    hit && (e.entry_type == EntryType::Exact || na >= nb)
}

/// The search of `s` (of hash `hash`) with `d` plies left and window `(alpha, beta)` for
/// the player of sign `color`, starting from table `t`: its value, the positions it
/// counts, the table it leaves and its counts. The entry of `hash`, if found and searched
/// at least `d` plies deep, answers an exact value, or narrows the window (a lower bound
/// raises alpha, an upper bound lowers beta) and answers when the window closes; such an
/// answer counts no position. At depth 0 its `leaf_value`, counting one. Otherwise the
/// moves are searched in order, the entry's move first, as the fail-soft alpha-beta
/// search does, and the result is stored as an upper bound when no higher than alpha, a
/// lower bound when reaching the narrowed beta, else as exact.
pub open spec fn ttx<H: Heuristic>(board: StandardBoard, s: State, hash: StateHash, d: nat, alpha: int, beta: int,
    color: int, t: TableView) -> (int, nat, TableView, Tally)
    decreases d, 1int, 0int,
{
    let p = t.probe(hash);
    let e = t.entries[p.0];
    let found = p.1;
    let hit = found && e.depth >= d;
    let tally1 = probe_tally(t, hash, d);
    let na = if hit && e.entry_type == EntryType::Lower { imax(alpha, e.value as int) } else { alpha };
    let nb = if hit && e.entry_type == EntryType::Upper { imin(beta, e.value as int) } else { beta };
    if hit && (e.entry_type == EntryType::Exact || na >= nb) {
        (e.value as int, 0, t, tally1)
    } else if d == 0 {
        (leaf_value::<H>(board, s, color), 1, t, tally1)
    } else {
        let ms = move_first(spec_next_moves(board, s), if found { e.best_move } else { None });
        let l = ttx_loop::<H>(board, s, ms, hash, d, 0, na, nb, color, -32767, None, 0, t, tally1);
        let best = l.0;
        let ty = if best <= alpha {
            EntryType::Upper
        } else if best >= nb {
            EntryType::Lower
        } else {
            EntryType::Exact
        };
        let tally3 = if ty == EntryType::Exact { Tally { pv: l.5.pv + 1, ..l.5 } } else { l.5 };
        (best, l.3, l.4.store(p.0, hash, best as i16, d as i8, ty, l.1), tally3)
    }
}

/// The move loop of `ttx` resumed at place `i` of the ordered moves `ms`, with bounds
/// `na` and `nb`, the best score and move so far, the positions counted, the table and
/// the counts; what it ends with: best score, best move, alpha, positions, table, counts.
/// A winning move scores the best and counts one; otherwise a move scores minus its
/// child's search with window `(-nb, -na)`. The loop stops once alpha reaches `nb`.
pub open spec fn ttx_loop<H: Heuristic>(board: StandardBoard, s: State, ms: Seq<Move>, hash: StateHash, d: nat, i: int,
    na: int, nb: int, color: int, best: int, best_move: Option<Move>, total: nat, t: TableView, acc: Tally)
    -> (int, Option<Move>, int, nat, TableView, Tally)
    decreases d, 0int, ms.len() - i,
{
    if i < 0 || i >= ms.len() || d == 0 {
        (best, best_move, na, total, t, acc)
    } else {
        let m = ms[i];
        let r: (int, nat, TableView, Tally) = if spec_ascension(s, m) {
            (32767, 1, t, acc)
        } else {
            let c = ttx::<H>(board, spec_apply(s, m), StateHash(hash.0 ^ spec_delta_hash(board.hash, s, m)), (d - 1) as nat,
                -nb, -na, -color, t);
            (-c.0, c.1, c.2, tally_add(acc, c.3))
        };
        let best2 = if r.0 > best { r.0 } else { best };
        let bm2 = if r.0 > best { Some(m) } else { best_move };
        let na2 = imax(na, r.0);
        if nb <= na2 {
            (best2, bm2, na2, total + r.1, r.2, r.3)
        } else {
            ttx_loop::<H>(board, s, ms, hash, d, i + 1, na2, nb, color, best2, bm2, total + r.1, r.2, r.3)
        }
    }
}

/// The loop only adds to what it counted.
pub proof fn lemma_ttx_loop_grows<H: Heuristic>(board: StandardBoard, s: State, ms: Seq<Move>, hash: StateHash, d: nat,
    i: int, na: int, nb: int, color: int, best: int, best_move: Option<Move>, total: nat, t: TableView, acc: Tally)
    ensures
        ttx_loop::<H>(board, s, ms, hash, d, i, na, nb, color, best, best_move, total, t, acc).3 >= total,
        tally_le(acc, ttx_loop::<H>(board, s, ms, hash, d, i, na, nb, color, best, best_move, total, t, acc).5),
    decreases ms.len() - i,
{
    if i < 0 || i >= ms.len() || d == 0 {
    } else {
        let m = ms[i];
        let r: (int, nat, TableView, Tally) = if spec_ascension(s, m) {
            (32767, 1, t, acc)
        } else {
            let c = ttx::<H>(board, spec_apply(s, m), StateHash(hash.0 ^ spec_delta_hash(board.hash, s, m)), (d - 1) as nat,
                -nb, -na, -color, t);
            (-c.0, c.1, c.2, tally_add(acc, c.3))
        };
        let best2 = if r.0 > best { r.0 } else { best };
        let bm2 = if r.0 > best { Some(m) } else { best_move };
        let na2 = imax(na, r.0);
        if nb > na2 {
            lemma_ttx_loop_grows::<H>(board, s, ms, hash, d, i + 1, na2, nb, color, best2, bm2, total + r.1, r.2, r.3);
        }
    }
}

/// The search counts at least the table's first answer.
pub proof fn lemma_ttx_tally<H: Heuristic>(board: StandardBoard, s: State, hash: StateHash, d: nat, alpha: int, beta: int,
    color: int, t: TableView)
    ensures
        tally_le(probe_tally(t, hash, d), ttx::<H>(board, s, hash, d, alpha, beta, color, t).3),
{
    let p = t.probe(hash);
    let e = t.entries[p.0];
    let found = p.1;
    let hit = found && e.depth >= d;
    let na = if hit && e.entry_type == EntryType::Lower { imax(alpha, e.value as int) } else { alpha };
    let nb = if hit && e.entry_type == EntryType::Upper { imin(beta, e.value as int) } else { beta };
    if hit && (e.entry_type == EntryType::Exact || na >= nb) {
    } else if d == 0 {
    } else {
        let ms = move_first(spec_next_moves(board, s), if found { e.best_move } else { None });
        lemma_ttx_loop_grows::<H>(board, s, ms, hash, d, 0, na, nb, color, -32767, None, 0, t, probe_tally(t, hash, d));
    }
}

/// Storing a score searched from a depth of 0 to 127 keeps a table ready for the searches.
pub proof fn lemma_store_ready(t: TableView, idx: int, hash: StateHash, value: HeuristicValue, depth: i8, ty: EntryType,
    best_move: Option<Move>)
    requires
        t.ready(),
        0 <= idx < t.entries.len(),
        -32767 <= value,
        0 <= depth,
    ensures
        t.store(idx, hash, value, depth, ty, best_move).ready(),
        t.store(idx, hash, value, depth, ty, best_move).generation == t.generation,
        t.store(idx, hash, value, depth, ty, best_move).bucket_mask == t.bucket_mask,
{
    let u = t.store(idx, hash, value, depth, ty, best_move);
    assert forall|i: int| 0 <= i < u.entries.len() implies {
        &&& ((#[trigger] u.entries[i]).hash.0 != 0 ==> u.entries[i].value_defined(u.generation))
        &&& -32767 <= u.entries[i].value
        &&& 0 <= u.entries[i].depth
    } by {
        if i == idx {
            assert(u.entries[i].age(u.generation) == 0 || u.entries[i] == t.entries[i]);
        }
    }
}

/// Brings the first of the stacked moves from place `begin` on that equals `mve` to
/// place `begin`, exchanging the two; nothing changes if there is none.
fn bring_first(move_stack: &mut MoveStack, begin: usize, mve: Move)
    requires
        old(move_stack).wf(),
        begin <= old(move_stack).next,
    ensures
        final(move_stack).wf(),
        final(move_stack).next == old(move_stack).next,
        final(move_stack).stacked() == old(move_stack).stacked().subrange(0, begin as int)
            + move_first(old(move_stack).stacked().subrange(begin as int, old(move_stack).next as int), Some(mve)),
{
    let ghost below = move_stack.stacked().subrange(0, begin as int);
    let ghost moves = move_stack.stacked().subrange(begin as int, move_stack.next as int);
    let stack_begin = begin;
    let stack_end = move_stack.next;
    assert(move_stack.stacked() =~= below + moves);
    let mut idx = stack_begin;
    proof {
        lemma_first_index(moves, mve, 0);
    }
    while idx < stack_end
        invariant_except_break
            move_stack.stacked() == below + moves,
        invariant
            stack_begin <= idx <= stack_end,
            stack_begin == below.len(),
            stack_end == stack_begin + moves.len(),
            move_stack.wf(),
            move_stack.next == stack_end,
            first_index(moves, mve, 0) >= idx - stack_begin,
            forall|j: int| 0 <= j < idx - stack_begin ==> moves[j] != mve,
            first_index(moves, mve, 0) < moves.len() ==> moves[first_index(moves, mve, 0)] == mve,
            forall|j: int| 0 <= j < first_index(moves, mve, 0) ==> moves[j] != mve,
            first_index(moves, mve, 0) <= moves.len(),
        ensures
            move_stack.wf(),
            move_stack.next == stack_end,
            move_stack.stacked() == below + move_first(moves, Some(mve)),
        decreases stack_end - idx,
    {
        assert(move_stack.stacked()[idx as int] == moves[idx - stack_begin]);
        if move_stack.moves[idx] == mve {
            let ghost before = move_stack.stacked();
            let ghost arr_old = move_stack.moves@;
            let a = move_stack.moves[stack_begin];
            let b = move_stack.moves[idx];
            assert(before[stack_begin as int] == a);
            assert(a == moves[0]);
            assert(b == moves[idx - stack_begin]);
            move_stack.moves[stack_begin] = b;
            move_stack.moves[idx] = a;
            proof {
                let k = idx - stack_begin;
                assert(first_index(moves, mve, 0) == k);
                let rhs = below + moves.update(0, moves[k]).update(k, moves[0]);
                assert(move_stack.moves@ == arr_old.update(stack_begin as int, b).update(idx as int, a));
                assert forall|p: int| 0 <= p < stack_end implies #[trigger] move_stack.stacked()[p] == rhs[p] by {
                    assert(before[p] == arr_old[p]);
                    if p < stack_begin {
                        assert(before[p] == below[p]);
                    } else if p != stack_begin && p != idx {
                        assert(before[p] == moves[p - stack_begin]);
                    }
                }
                assert(move_stack.stacked() =~= rhs);
            }
            break;
        }
        idx = idx + 1;
    }
    proof {
        if first_index(moves, mve, 0) >= moves.len() {
            assert(move_first(moves, Some(mve)) == moves);
        }
    }
}

/// The hash the root search looks its position up by.
pub open spec fn root_hash(board: StandardBoard, s: State) -> StateHash {
    StateHash(spec_hash(board.hash, s))
}

/// The root's window after reading the table: a valid lower bound raises the worst
/// score, a valid upper bound lowers the best.
pub open spec fn root_window(board: StandardBoard, s: State, d: nat, t: TableView) -> (int, int) {
    let p = t.probe(root_hash(board, s));
    let e = t.entries[p.0];
    let hit = p.1 && e.depth >= d;
    (if hit && e.entry_type == EntryType::Lower { imax(-32767, e.value as int) } else { -32767 },
     if hit && e.entry_type == EntryType::Upper { imin(32767, e.value as int) } else { 32767 })
}

/// The move and score the table answers the root with at once: a valid entry with a
/// move, exact or closing the window.
pub open spec fn root_early(board: StandardBoard, s: State, d: nat, t: TableView) -> Option<(Move, int)> {
    let p = t.probe(root_hash(board, s));
    let e = t.entries[p.0];
    let hit = p.1 && e.depth >= d;
    let w = root_window(board, s, d, t);
    if hit && (e.entry_type == EntryType::Exact || w.0 >= w.1) && e.best_move is Some {
        Some((e.best_move->0, e.value as int))
    } else {
        None
    }
}

/// The root's moves in search order: the entry's move first when the entry is found.
pub open spec fn root_moves(board: StandardBoard, s: State, t: TableView) -> Seq<Move> {
    let p = t.probe(root_hash(board, s));
    move_first(spec_next_moves(board, s), if p.1 { t.entries[p.0].best_move } else { None })
}

/// The root loop resumed at place `i` of `ms`, with its alpha, best move and score so
/// far, the (move, score) list, the positions counted, the table and the counts. Scores
/// are from player 0's point of view: a winning move scores the best times `color`,
/// another minus its child's search with window `(-beta, -alpha)`, times `color`. A move
/// whose score for the player to move beats alpha raises alpha and becomes the best.
pub open spec fn ttx_root_loop<H: Heuristic>(board: StandardBoard, s: State, ms: Seq<Move>, hash: StateHash, d: nat, i: int,
    alpha: int, beta: int, color: int, best_move: Option<Move>, best: int, list: Seq<(Move, int)>, mc: nat, t: TableView,
    acc: Tally) -> (Seq<(Move, int)>, Option<Move>, int, nat, TableView, Tally)
    decreases ms.len() - i,
{
    if i < 0 || i >= ms.len() || d == 0 {
        (list, best_move, best, mc, t, acc)
    } else {
        let m = ms[i];
        if spec_ascension(s, m) {
            let av = 32767 * color;
            let better = av > alpha;
            ttx_root_loop::<H>(board, s, ms, hash, d, i + 1, if better { av } else { alpha }, beta, color,
                if better { Some(m) } else { best_move }, if better { av } else { best }, list.push((m, av)), mc + 1, t,
                if better { Tally { pv: acc.pv + 1, ..acc } } else { acc })
        } else {
            let c = ttx::<H>(board, spec_apply(s, m), StateHash(hash.0 ^ spec_delta_hash(board.hash, s, m)), (d - 1) as nat,
                -beta, -alpha, -color, t);
            let av = c.0 * -color;
            let better = -c.0 > alpha;
            let acc2 = tally_add(acc, c.3);
            ttx_root_loop::<H>(board, s, ms, hash, d, i + 1, if better { -c.0 } else { alpha }, beta, color,
                if better { Some(m) } else { best_move }, if better { av } else { best }, list.push((m, av)), mc + c.1, c.2,
                if better { Tally { pv: acc2.pv + 1, ..acc2 } } else { acc2 })
        }
    }
}

/// What the root loop ends with when the table does not answer at once.
pub open spec fn ttx_root_run<H: Heuristic>(board: StandardBoard, s: State, d: nat, t: TableView)
    -> (Seq<(Move, int)>, Option<Move>, int, nat, TableView, Tally) {
    let w = root_window(board, s, d, t);
    ttx_root_loop::<H>(board, s, root_moves(board, s, t), root_hash(board, s), d, 0, w.0, w.1, color_of(s.to_move), None,
        -32767, seq![], 0, t, probe_tally(t, root_hash(board, s), d))
}

/// The root loop only adds to what it counted and lists one entry per move.
pub proof fn lemma_root_loop_grows<H: Heuristic>(board: StandardBoard, s: State, ms: Seq<Move>, hash: StateHash, d: nat,
    i: int, alpha: int, beta: int, color: int, best_move: Option<Move>, best: int, list: Seq<(Move, int)>, mc: nat,
    t: TableView, acc: Tally)
    requires
        0 <= i <= ms.len(),
        d > 0,
    ensures
        ttx_root_loop::<H>(board, s, ms, hash, d, i, alpha, beta, color, best_move, best, list, mc, t, acc).3 >= mc,
        tally_le(acc, ttx_root_loop::<H>(board, s, ms, hash, d, i, alpha, beta, color, best_move, best, list, mc, t, acc).5),
        ttx_root_loop::<H>(board, s, ms, hash, d, i, alpha, beta, color, best_move, best, list, mc, t, acc).0.len()
            == list.len() + ms.len() - i,
        forall|k: int| 0 <= k < list.len() ==> #[trigger] ttx_root_loop::<H>(board, s, ms, hash, d, i, alpha, beta, color,
            best_move, best, list, mc, t, acc).0[k] == list[k],
    decreases ms.len() - i,
{
    if i < ms.len() {
        let m = ms[i];
        if spec_ascension(s, m) {
            let av = 32767 * color;
            let better = av > alpha;
            lemma_root_loop_grows::<H>(board, s, ms, hash, d, i + 1, if better { av } else { alpha }, beta, color,
                if better { Some(m) } else { best_move }, if better { av } else { best }, list.push((m, av)), mc + 1, t,
                if better { Tally { pv: acc.pv + 1, ..acc } } else { acc });
        } else {
            let c = ttx::<H>(board, spec_apply(s, m), StateHash(hash.0 ^ spec_delta_hash(board.hash, s, m)), (d - 1) as nat,
                -beta, -alpha, -color, t);
            let av = c.0 * -color;
            let better = -c.0 > alpha;
            let acc2 = tally_add(acc, c.3);
            lemma_root_loop_grows::<H>(board, s, ms, hash, d, i + 1, if better { -c.0 } else { alpha }, beta, color,
                if better { Some(m) } else { best_move }, if better { av } else { best }, list.push((m, av)), mc + c.1, c.2,
                if better { Tally { pv: acc2.pv + 1, ..acc2 } } else { acc2 });
        }
    }
}

/// The root search stays within the machine's integers: its move count and principal
/// variation count fit a `u32`, its table counts a `u64`.
pub open spec fn root_fits<H: Heuristic>(board: StandardBoard, s: State, d: nat, t: TableView) -> bool {
    let l = ttx_root_run::<H>(board, s, d, t);
    root_early(board, s, d, t) is None ==> {
        &&& l.3 <= u32::MAX
        &&& info_fits(zero_info(), Tally { pv: l.5.pv + 1, ..l.5 })
    }
}

/// Every place of the table is empty.
pub open spec fn table_empty(t: TableView) -> bool {
    forall|i: int| 0 <= i < t.entries.len() ==> #[trigger] t.entries[i] == spec_null_entry()
}

/// An empty table finds no entry for a non-zero hash.
proof fn lemma_empty_probe(t: TableView, hash: StateHash)
    requires
        t.wf(),
        table_empty(t),
        hash.0 != 0,
    ensures
        !t.probe(hash).1,
        t.entries[t.probe(hash).0] == spec_null_entry(),
{
    lemma_bucket_in_table(t, hash);
    let b = t.bucket(hash);
    assert(t.entries[b] == spec_null_entry());
    assert(first_free_or_match(t.entries, b, hash, 0) == b);
}

/// The scores a fresh search gives the root's moves one ply deep: each listed move with
/// its minimax score from player 0's point of view.
pub open spec fn fresh_scores<H: Heuristic>(board: StandardBoard, s: State) -> Seq<(Move, int)> {
    let moves = spec_next_moves(board, s);
    Seq::new(moves.len(), |k: int| (moves[k], minimax_root_score::<H>(board, s, 1, k)))
}

/// The hashes the search reads one ply deep are not zero: the root's, and those of the
/// positions its moves lead to (but for winning moves).
pub open spec fn hashes_nonzero(board: StandardBoard, s: State) -> bool {
    &&& spec_hash(board.hash, s) != 0
    &&& forall|k: int| 0 <= k < spec_next_moves(board, s).len() && !spec_ascension(s, spec_next_moves(board, s)[k])
        ==> spec_hash(board.hash, #[trigger] child(board, s, k)) != 0
}

proof fn lemma_fresh_root_loop<H: Heuristic>(board: StandardBoard, s: State, i: int, alpha: int, beta: int,
    best_move: Option<Move>, best: int, list: Seq<(Move, int)>, mc: nat, t: TableView, acc: Tally)
    requires
        board.wf(),
        board.hash.wf(),
        s.wf(),
        sane(s),
        t.wf(),
        table_empty(t),
        hashes_nonzero(board, s),
        0 <= i <= spec_next_moves(board, s).len(),
        list.len() == i,
        forall|k: int| 0 <= k < i ==> #[trigger] list[k] == fresh_scores::<H>(board, s)[k],
    ensures
        ttx_root_loop::<H>(board, s, spec_next_moves(board, s), root_hash(board, s), 1, i, alpha, beta, color_of(s.to_move),
            best_move, best, list, mc, t, acc).0 == fresh_scores::<H>(board, s),
    decreases spec_next_moves(board, s).len() - i,
{
    let moves = spec_next_moves(board, s);
    let color = color_of(s.to_move);
    let hash = root_hash(board, s);
    lemma_children(board, s);
    lemma_children_sane(board, s);
    if i >= moves.len() {
        assert(list =~= fresh_scores::<H>(board, s));
    } else {
        let m = moves[i];
        if spec_ascension(s, m) {
            let av = 32767 * color;
            let better = av > alpha;
            assert(av == win_score(s.to_move));
            let list2 = list.push((m, av));
            assert(forall|k: int| 0 <= k < i + 1 ==> #[trigger] list2[k] == fresh_scores::<H>(board, s)[k]);
            lemma_fresh_root_loop::<H>(board, s, i + 1, if better { av } else { alpha }, beta,
                if better { Some(m) } else { best_move }, if better { av } else { best }, list2, mc + 1, t,
                if better { Tally { pv: acc.pv + 1, ..acc } } else { acc });
        } else {
            let cs = spec_apply(s, m);
            assert(cs == child(board, s, i));
            lemma_hash_after_move(board, s, m);
            let ch = StateHash(hash.0 ^ spec_delta_hash(board.hash, s, m));
            assert(ch.0 == spec_hash(board.hash, cs));
            lemma_empty_probe(t, ch);
            let c = ttx::<H>(board, cs, ch, 0, -beta, -alpha, -color, t);
            assert(c.0 == leaf_value::<H>(board, cs, -color) && c.2 == t);
            assert(color_of(cs.to_move) == -color);
            let av = c.0 * -color;
            let lv = if spec_next_moves(board, cs).len() == 0 { -win_score(cs.to_move) } else { H::heuristic_value(board, cs) };
            assert(minimax_root_score::<H>(board, s, 1, i) == lv);
            if spec_next_moves(board, cs).len() == 0 {
                assert(c.0 == -32767);
                if color == 1 {
                    assert(cs.to_move.0 != 0);
                    assert(av == 32767) by (nonlinear_arith) requires av == c.0 * -color, c.0 == -32767, color == 1;
                    assert(av == lv);
                } else {
                    assert(cs.to_move.0 == 0);
                    assert(av == -32767) by (nonlinear_arith) requires av == c.0 * -color, c.0 == -32767, color == -1;
                    assert(av == lv);
                }
            } else {
                let h = H::heuristic_value(board, cs);
                assert(av == lv) by (nonlinear_arith)
                    requires
                        av == c.0 * -color,
                        c.0 == h * -color,
                        lv == h,
                        color == 1 || color == -1;
            }
            let better = -c.0 > alpha;
            let acc2 = tally_add(acc, c.3);
            let list2 = list.push((m, av));
            assert(forall|k: int| 0 <= k < i + 1 ==> #[trigger] list2[k] == fresh_scores::<H>(board, s)[k]);
            lemma_fresh_root_loop::<H>(board, s, i + 1, if better { -c.0 } else { alpha }, beta,
                if better { Some(m) } else { best_move }, if better { av } else { best }, list2, mc + c.1, c.2,
                if better { Tally { pv: acc2.pv + 1, ..acc2 } } else { acc2 });
        }
    }
}

/// A search one ply deep from an empty table, where the root's hash and those of the
/// positions its moves lead to are not zero: the table does not answer at once, and the
/// root scores every listed move with its minimax score, so the move chosen is the first
/// with the best minimax score.
pub proof fn lemma_fresh_search_depth_one<H: Heuristic>(board: StandardBoard, s: State, t: TableView)
    requires
        board.wf(),
        board.hash.wf(),
        s.wf(),
        sane(s),
        t.wf(),
        table_empty(t),
        hashes_nonzero(board, s),
    ensures
        root_early(board, s, 1, t) is None,
        ttx_root_run::<H>(board, s, 1, t).0 == fresh_scores::<H>(board, s),
{
    lemma_empty_probe(t, root_hash(board, s));
    assert(root_moves(board, s, t) == spec_next_moves(board, s));
    assert(root_window(board, s, 1, t) == (-32767int, 32767int));
    lemma_fresh_root_loop::<H>(board, s, 0, -32767, 32767, None, -32767, seq![], 0, t, probe_tally(t, root_hash(board, s), 1));
}

impl NegaMaxAlphaBetaExp {
    /// The search `ttx` describes, with the moves pushed on `move_stack` above what it
    /// holds (left as it was), the counts added to `info`, and the table of `ev_state`
    /// read and written.
    #[verifier::rlimit(50)]
    pub fn eval<H: Heuristic>(board: &StandardBoard, state: &State, hash: StateHash, depth: Depth, alpha: HeuristicValue,
        beta: HeuristicValue, color: HeuristicValue, move_stack: &mut MoveStack, info: &mut EvaluatorInfo,
        ev_state: &mut EvState) -> (r: (HeuristicValue, MoveCount))
        requires
            board.wf(),
            state.wf(),
            sane(*state),
            color == 1 || color == -1,
            depth > 0 ==> -32767 <= alpha,
            depth > 0 ==> -32767 <= beta,
            depth <= 127,
            old(ev_state).transposition@.ready(),
            old(move_stack).wf(),
            old(move_stack).next + stack_need(*board, *state, depth as nat) <= MAX_MOVE_STACK,
            ttx::<H>(*board, *state, hash, depth as nat, alpha as int, beta as int, color as int,
                old(ev_state).transposition@).1 <= u32::MAX,
            info_fits(*old(info), ttx::<H>(*board, *state, hash, depth as nat, alpha as int, beta as int, color as int,
                old(ev_state).transposition@).3),
        ensures
            r.0 == ttx::<H>(*board, *state, hash, depth as nat, alpha as int, beta as int, color as int,
                old(ev_state).transposition@).0,
            r.1 == ttx::<H>(*board, *state, hash, depth as nat, alpha as int, beta as int, color as int,
                old(ev_state).transposition@).1,
            final(ev_state).transposition@ == ttx::<H>(*board, *state, hash, depth as nat, alpha as int, beta as int,
                color as int, old(ev_state).transposition@).2,
            info_added(*old(info), *final(info), ttx::<H>(*board, *state, hash, depth as nat, alpha as int, beta as int,
                color as int, old(ev_state).transposition@).3),
            final(ev_state).transposition@.ready(),
            final(ev_state).transposition.generation == old(ev_state).transposition.generation,
            final(ev_state).transposition.bucket_mask == old(ev_state).transposition.bucket_mask,
            -32767 <= r.0,
            final(move_stack).next == old(move_stack).next,
            final(move_stack).stacked() == old(move_stack).stacked(),
            table_answers(old(ev_state).transposition@, hash, depth as nat, alpha as int, beta as int) || depth == 0
                ==> *final(move_stack) == *old(move_stack),
        decreases depth,
    {
        let ghost t0 = ev_state.transposition@;
        let ghost info0 = *info;
        let ghost x = ttx::<H>(*board, *state, hash, depth as nat, alpha as int, beta as int, color as int, t0);
        let mut new_alpha = alpha;
        let mut new_beta = beta;
        let mut tt_best_move: Option<Move> = None;
        proof {
            lemma_ttx_tally::<H>(*board, *state, hash, depth as nat, alpha as int, beta as int, color as int, t0);
            lemma_ready_probe(ev_state.transposition, hash);
        }
        let (tt_idx, found) = ev_state.transposition.probe(hash);
        let _n = ev_state.transposition.entries.len();
        let ghost tally1: Tally;
        if found {
            let entry = ev_state.transposition.entries[tt_idx];
            if entry.depth as i16 >= depth as i16 {
                info.tt_valid = info.tt_valid + 1;
                proof {
                    tally1 = Tally { valid: 1, ..tally_zero() };
                }
                match entry.entry_type {
                    EntryType::Exact => {
                        return (entry.value, 0);
                    },
                    EntryType::Lower => {
                        if entry.value > new_alpha {
                            new_alpha = entry.value;
                        }
                    },
                    EntryType::Upper => {
                        if entry.value < new_beta {
                            new_beta = entry.value;
                        }
                    },
                }
                if new_alpha >= new_beta {
                    return (entry.value, 0);
                }
            } else {
                info.tt_suggest = info.tt_suggest + 1;
                proof {
                    tally1 = Tally { suggest: 1, ..tally_zero() };
                }
            }
            tt_best_move = entry.best_move;
        } else {
            info.tt_miss = info.tt_miss + 1;
            proof {
                tally1 = Tally { miss: 1, ..tally_zero() };
            }
        }
        if depth == 0 {
            proof {
                H::lemma_value_range(*board, *state);
                let hv = H::heuristic_value(*board, *state);
                assert(-32767 <= hv * color <= 32767) by (nonlinear_arith)
                    requires
                        -32767 <= hv <= 32767,
                        color == 1 || color == -1;
            }
            if !board.has_moves(state) {
                return (-32767, 1);
            }
            return (H::evaluate(board, state) * color, 1);
        }
        let ghost below = move_stack.stacked();
        let stack_begin = move_stack.next;
        proof {
            lemma_children(*board, *state);
            lemma_children_sane(*board, *state);
        }
        board.next_moves(state, move_stack);
        let stack_end = move_stack.next;
        let ghost moves = spec_next_moves(*board, *state);
        let ghost ms = move_first(moves, tt_best_move);
        proof {
            lemma_move_first(moves, tt_best_move);
        }
        match tt_best_move {
            Some(mve) => {
                assert(move_stack.stacked().subrange(0, stack_begin as int) =~= below);
                assert(move_stack.stacked().subrange(stack_begin as int, stack_end as int) =~= moves);
                bring_first(move_stack, stack_begin, mve);
            },
            None => {},
        }
        assert(move_stack.stacked() == below + ms);
        let ghost filled = move_stack.stacked();
        let ghost t1 = ev_state.transposition@;
        let ghost lfinal = ttx_loop::<H>(*board, *state, ms, hash, depth as nat, 0, new_alpha as int, new_beta as int,
            color as int, -32767, None, 0, t1, tally1);
        let mut total_moves: MoveCount = 0;
        let mut best_observed: HeuristicValue = WORST;
        let mut best_move: Option<Move> = None;
        let ghost mut acc: Tally = tally1;
        let mut idx = stack_begin;
        proof {
            lemma_ttx_loop_grows::<H>(*board, *state, ms, hash, depth as nat, 0, new_alpha as int, new_beta as int,
                color as int, -32767, None, 0, t1, tally1);
        }
        while idx < stack_end
            invariant_except_break
                lfinal == ttx_loop::<H>(*board, *state, ms, hash, depth as nat, idx - stack_begin, new_alpha as int,
                    new_beta as int, color as int, best_observed as int, best_move, total_moves as nat,
                    ev_state.transposition@, acc),
            invariant
                board.wf(),
                state.wf(),
                sane(*state),
                depth > 0,
                depth <= 127,
                color == 1 || color == -1,
                moves == spec_next_moves(*board, *state),
                ms == move_first(moves, tt_best_move),
                ms.len() == moves.len(),
                forall|i: int| 0 <= i < moves.len() ==> 0 <= #[trigger] moved_from(moves, tt_best_move, i) < moves.len()
                    && ms[i] == moves[moved_from(moves, tt_best_move, i)],
                forall|k: int| 0 <= k < moves.len() ==> move_on_board(#[trigger] moves[k]),
                forall|k: int| 0 <= k < moves.len() ==> listed_legal(*state, #[trigger] moves[k]),
                forall|k: int| 0 <= k < moves.len() ==> (#[trigger] child(*board, *state, k)).wf(),
                forall|k: int| 0 <= k < moves.len() ==> sane(#[trigger] child(*board, *state, k)),
                stack_begin <= idx <= stack_end,
                stack_begin == below.len(),
                stack_end == stack_begin + moves.len(),
                filled == below + ms,
                move_stack.wf(),
                move_stack.next == stack_end,
                move_stack.stacked() == filled,
                stack_end + crate::game::santorini::perft::child_need(*board, *state, depth as nat, 0) <= MAX_MOVE_STACK,
                -32767 <= new_alpha,
                -32767 <= new_beta,
                -32767 <= best_observed,
                ev_state.transposition@.ready(),
                ev_state.transposition.generation == t0.generation,
                ev_state.transposition.bucket_mask == t0.bucket_mask,
                info_added(info0, *info, acc),
                lfinal.3 <= u32::MAX,
                info_fits(info0, lfinal.5),
            ensures
                lfinal == (best_observed as int, best_move, new_alpha as int, total_moves as nat, ev_state.transposition@, acc),
                move_stack.next == stack_end,
                move_stack.stacked() == filled,
                ev_state.transposition@.ready(),
                ev_state.transposition.generation == t0.generation,
                ev_state.transposition.bucket_mask == t0.bucket_mask,
                info_added(info0, *info, acc),
                -32767 <= best_observed,
            decreases stack_end - idx,
        {
            let mve = move_stack.moves[idx];
            let ghost j = idx - stack_begin;
            let ghost k = moved_from(moves, tt_best_move, j);
            assert(move_stack.stacked()[idx as int] == mve);
            assert(mve == ms[j]);
            assert(mve == moves[k]);
            let ghost t_before = ev_state.transposition@;
            let ghost acc_before = acc;
            let (score, count) = if board.ascension_winning_move(state, mve) {
                (BEST, 1)
            } else {
                let new_state = board.apply(mve, state);
                proof {
                    lemma_apply_sane(*state, mve);
                    lemma_child_need(*board, *state, depth as nat, 0, k);
                    assert(new_state == child(*board, *state, k));
                }
                let delta_hash = board.delta_hash(state, mve);
                proof {
                    let c = ttx::<H>(*board, new_state, StateHash(hash.0 ^ delta_hash.0), (depth - 1) as nat,
                        -new_beta, -new_alpha, -color, t_before);
                    let r: (int, nat, TableView, Tally) = (-c.0, c.1, c.2, tally_add(acc, c.3));
                    let best2 = if r.0 > best_observed { r.0 } else { best_observed as int };
                    let bm2 = if r.0 > best_observed { Some(mve) } else { best_move };
                    let na2 = imax(new_alpha as int, r.0);
                    if new_beta > na2 {
                        lemma_ttx_loop_grows::<H>(*board, *state, ms, hash, depth as nat, j + 1, na2, new_beta as int,
                            color as int, best2, bm2, (total_moves + r.1) as nat, r.2, r.3);
                    }
                }
                let (v, move_count) = Self::eval::<H>(board, &new_state, hash ^ delta_hash, depth - 1, -new_beta, -new_alpha,
                    -color, move_stack, info, ev_state);
                proof {
                    let c = ttx::<H>(*board, new_state, StateHash(hash.0 ^ delta_hash.0), (depth - 1) as nat,
                        -new_beta, -new_alpha, -color, t_before);
                    acc = tally_add(acc, c.3);
                }
                (-v, move_count)
            };
            if score > best_observed {
                best_move = Some(mve);
                best_observed = score;
            }
            if score > new_alpha {
                new_alpha = score;
            }
            total_moves = total_moves + count;
            if new_beta <= new_alpha {
                break;
            }
            idx = idx + 1;
        }
        let score_type = if best_observed <= alpha {
            EntryType::Upper
        } else if best_observed >= new_beta {
            EntryType::Lower
        } else {
            info.pv_count = info.pv_count + 1;
            EntryType::Exact
        };
        proof {
            lemma_store_ready(ev_state.transposition@, tt_idx as int, hash, best_observed, depth as i8, score_type, best_move);
        }
        ev_state.transposition.store(tt_idx, hash, best_observed, depth as i8, score_type, best_move);
        move_stack.next = stack_begin;
        proof {
            assert(move_stack.stacked() =~= below);
        }
        (best_observed, total_moves)
    }

    /// The root search: when the table answers at once, its move and score; otherwise
    /// every move is scored as `ttx_root_loop` says (the entry's move first), the result is
    /// stored as exact, and the first move with the best score for the player to move is
    /// returned with its score, with the counts of the search.
    #[verifier::rlimit(80)]
    pub fn evaluate_moves_impl<H: Heuristic>(evaluator_state: &mut EvState, board: &StandardBoard, state: &State, depth: Depth)
        -> (r: (Option<(Move, HeuristicValue)>, EvaluatorInfo))
        requires
            board.wf(),
            state.wf(),
            sane(*state),
            1 <= depth <= 127,
            old(evaluator_state).transposition@.ready(),
            stack_need(*board, *state, depth as nat) <= MAX_MOVE_STACK,
            root_fits::<H>(*board, *state, depth as nat, old(evaluator_state).transposition@),
        ensures
            final(evaluator_state).transposition@.ready(),
            final(evaluator_state).transposition.generation == old(evaluator_state).transposition.generation,
            ({
                let t0 = old(evaluator_state).transposition@;
                let early = root_early(*board, *state, depth as nat, t0);
                let pt = probe_tally(t0, root_hash(*board, *state), depth as nat);
                &&& early matches Some((m, v)) ==> r.0 == Some((m, v as i16)) && final(evaluator_state).transposition@ == t0
                    && r.1 == (EvaluatorInfo { tt_valid: pt.valid as u64, tt_suggest: pt.suggest as u64, tt_miss: pt.miss as u64,
                        ..zero_info() })
                &&& early is None ==> {
                    let l = ttx_root_run::<H>(*board, *state, depth as nat, t0);
                    let n = l.0.len() as int;
                    &&& (n == 0 <==> r.0 is None)
                    &&& r.0 matches Some((m, v)) ==> exists|j: int| first_best(|k: int| l.0[k].1, n, state.to_move.0 == 0, j)
                        && m == l.0[j].0 && v == l.0[j].1
                    &&& final(evaluator_state).transposition@ == l.4.store(t0.probe(root_hash(*board, *state)).0,
                        root_hash(*board, *state), l.2 as i16, depth as i8, EntryType::Exact, l.1)
                    &&& r.1 == (EvaluatorInfo { move_count: l.3 as u32, pv_count: (l.5.pv + 1) as u32, tt_valid: l.5.valid as u64,
                        tt_suggest: l.5.suggest as u64, tt_miss: l.5.miss as u64 })
                }
            }),
    {
        let ghost t0 = evaluator_state.transposition@;
        let color = color(state.to_move);
        let mut unsorted: Vec<(Move, HeuristicValue)> = Vec::with_capacity(200);
        let mut move_stack = MoveStack::new();
        let stack_begin: usize = 0;
        proof {
            lemma_children(*board, *state);
            lemma_children_sane(*board, *state);
        }
        board.next_moves(state, &mut move_stack);
        let stack_end = move_stack.next;
        let ghost moves = spec_next_moves(*board, *state);
        assert(move_stack.stacked() =~= moves);
        let mut alpha: HeuristicValue = WORST;
        let mut beta: HeuristicValue = BEST;
        let mut info = EvaluatorInfo::new();
        let hash = board.hash(state);
        assert(hash == root_hash(*board, *state));
        let mut tt_best_move: Option<Move> = None;
        proof {
            lemma_ready_probe(evaluator_state.transposition, hash);
        }
        let (tt_idx, found) = evaluator_state.transposition.probe(hash);
        let _n = evaluator_state.transposition.entries.len();
        if found {
            let entry = evaluator_state.transposition.entries[tt_idx];
            if entry.depth as i16 >= depth as i16 {
                info.tt_valid = info.tt_valid + 1;
                match entry.entry_type {
                    EntryType::Exact => {
                        match entry.best_move {
                            Some(mv) => {
                                return (Some((mv, entry.value)), info);
                            },
                            None => {},
                        }
                    },
                    EntryType::Lower => {
                        if entry.value > alpha {
                            alpha = entry.value;
                        }
                    },
                    EntryType::Upper => {
                        if entry.value < beta {
                            beta = entry.value;
                        }
                    },
                }
                if alpha >= beta {
                    match entry.best_move {
                        Some(mv) => {
                            return (Some((mv, entry.value)), info);
                        },
                        None => {},
                    }
                }
            } else {
                info.tt_suggest = info.tt_suggest + 1;
            }
            tt_best_move = entry.best_move;
        } else {
            info.tt_miss = info.tt_miss + 1;
        }
        let ghost ms = move_first(moves, tt_best_move);
        proof {
            lemma_move_first(moves, tt_best_move);
        }
        match tt_best_move {
            Some(mve) => {
                assert(move_stack.stacked().subrange(0, 0) =~= Seq::<Move>::empty());
                assert(move_stack.stacked().subrange(0, stack_end as int) =~= moves);
                bring_first(&mut move_stack, stack_begin, mve);
                assert(move_stack.stacked() =~= ms);
            },
            None => {},
        }
        assert(move_stack.stacked() == ms);
        assert(ms == root_moves(*board, *state, t0));
        assert((alpha as int, beta as int) == root_window(*board, *state, depth as nat, t0));
        let ghost lfinal = ttx_root_run::<H>(*board, *state, depth as nat, t0);
        let ghost pt = probe_tally(t0, hash, depth as nat);
        let mut best_move: Option<Move> = None;
        let mut best_observed: HeuristicValue = WORST;
        let ghost mut acc: Tally = pt;
        let mut idx = stack_begin;
        assert(unsorted@.map_values(|e: (Move, HeuristicValue)| (e.0, e.1 as int)) =~= seq![]);
        proof {
            lemma_root_loop_grows::<H>(*board, *state, ms, hash, depth as nat, 0, alpha as int, beta as int, color as int,
                None, -32767, seq![], 0, t0, pt);
        }
        while idx < stack_end
            invariant
                board.wf(),
                state.wf(),
                sane(*state),
                1 <= depth <= 127,
                color == color_of(state.to_move),
                moves == spec_next_moves(*board, *state),
                ms == move_first(moves, tt_best_move),
                ms.len() == moves.len(),
                forall|i: int| 0 <= i < moves.len() ==> 0 <= #[trigger] moved_from(moves, tt_best_move, i) < moves.len()
                    && ms[i] == moves[moved_from(moves, tt_best_move, i)],
                forall|k: int| 0 <= k < moves.len() ==> move_on_board(#[trigger] moves[k]),
                forall|k: int| 0 <= k < moves.len() ==> listed_legal(*state, #[trigger] moves[k]),
                forall|k: int| 0 <= k < moves.len() ==> (#[trigger] child(*board, *state, k)).wf(),
                forall|k: int| 0 <= k < moves.len() ==> sane(#[trigger] child(*board, *state, k)),
                0 <= idx <= stack_end,
                stack_end == moves.len(),
                move_stack.wf(),
                move_stack.next == stack_end,
                move_stack.stacked() == ms,
                stack_end + crate::game::santorini::perft::child_need(*board, *state, depth as nat, 0) <= MAX_MOVE_STACK,
                -32767 <= alpha,
                -32767 <= beta,
                -32767 <= best_observed,
                evaluator_state.transposition@.ready(),
                evaluator_state.transposition.generation == t0.generation,
                evaluator_state.transposition.bucket_mask == t0.bucket_mask,
                unsorted@.len() == idx,
                lfinal == ttx_root_loop::<H>(*board, *state, ms, hash, depth as nat, idx as int, alpha as int, beta as int,
                    color as int, best_move, best_observed as int, unsorted@.map_values(|e: (Move, HeuristicValue)| (e.0, e.1 as int)),
                    info.move_count as nat, evaluator_state.transposition@, acc),
                info.pv_count == acc.pv,
                info.tt_valid == acc.valid,
                info.tt_suggest == acc.suggest,
                info.tt_miss == acc.miss,
                lfinal.3 <= u32::MAX,
                info_fits(zero_info(), Tally { pv: lfinal.5.pv + 1, ..lfinal.5 }),
            decreases stack_end - idx,
        {
            let mve = move_stack.moves[idx];
            let ghost j = idx as int;
            let ghost k = moved_from(moves, tt_best_move, j);
            assert(move_stack.stacked()[idx as int] == mve);
            assert(mve == ms[j]);
            assert(mve == moves[k]);
            let ghost listed = unsorted@.map_values(|e: (Move, HeuristicValue)| (e.0, e.1 as int));
            let ghost t_before = evaluator_state.transposition@;
            let (v, count) = if board.ascension_winning_move(state, mve) {
                let av = BEST * color;
                proof {
                    let better = av > alpha;
                    lemma_root_loop_grows::<H>(*board, *state, ms, hash, depth as nat, j + 1, if better { av as int } else { alpha as int },
                        beta as int, color as int, if better { Some(mve) } else { best_move }, if better { av as int } else { best_observed as int },
                        listed.push((mve, av as int)), (info.move_count + 1) as nat, t_before,
                        if better { Tally { pv: acc.pv + 1, ..acc } } else { acc });
                }
                if av > alpha {
                    alpha = av;
                    best_move = Some(mve);
                    best_observed = av;
                    info.pv_count = info.pv_count + 1;
                    proof {
                        acc = Tally { pv: acc.pv + 1, ..acc };
                    }
                }
                (av, 1)
            } else {
                let new_state = board.apply(mve, state);
                proof {
                    lemma_apply_sane(*state, mve);
                    lemma_child_need(*board, *state, depth as nat, 0, k);
                    assert(new_state == child(*board, *state, k));
                }
                let delta_hash = board.delta_hash(state, mve);
                proof {
                    let c = ttx::<H>(*board, new_state, StateHash(hash.0 ^ delta_hash.0), (depth - 1) as nat,
                        -beta, -alpha, -color, t_before);
                    let av = c.0 * -color;
                    let better = -c.0 > alpha;
                    let acc2 = tally_add(acc, c.3);
                    lemma_root_loop_grows::<H>(*board, *state, ms, hash, depth as nat, j + 1, if better { -c.0 } else { alpha as int },
                        beta as int, color as int, if better { Some(mve) } else { best_move }, if better { av } else { best_observed as int },
                        listed.push((mve, av)), (info.move_count + c.1) as nat, c.2,
                        if better { Tally { pv: acc2.pv + 1, ..acc2 } } else { acc2 });
                }
                let (v, move_count) = Self::eval::<H>(board, &new_state, hash ^ delta_hash, depth - 1, -beta, -alpha, -color,
                    &mut move_stack, &mut info, evaluator_state);
                proof {
                    let c = ttx::<H>(*board, new_state, StateHash(hash.0 ^ delta_hash.0), (depth - 1) as nat,
                        -beta, -alpha, -color, t_before);
                    acc = tally_add(acc, c.3);
                    assert(-32767 <= c.0 * -color <= 32767) by (nonlinear_arith)
                        requires
                            -32767 <= c.0 <= 32767,
                            color == 1 || color == -1;
                }
                let av = v * -color;
                if -v > alpha {
                    alpha = -v;
                    best_move = Some(mve);
                    best_observed = av;
                    info.pv_count = info.pv_count + 1;
                    proof {
                        acc = Tally { pv: acc.pv + 1, ..acc };
                    }
                }
                (av, move_count)
            };
            info.move_count = info.move_count + count;
            unsorted.push((mve, v));
            proof {
                assert(unsorted@.map_values(|e: (Move, HeuristicValue)| (e.0, e.1 as int)) =~= listed.push((mve, v as int)));
            }
            idx = idx + 1;
        }
        info.pv_count = info.pv_count + 1;
        proof {
            lemma_store_ready(evaluator_state.transposition@, tt_idx as int, hash, best_observed, depth as i8, EntryType::Exact,
                best_move);
        }
        evaluator_state.transposition.store(tt_idx, hash, best_observed, depth as i8, EntryType::Exact, best_move);
        let ghost listed = unsorted@.map_values(|e: (Move, HeuristicValue)| (e.0, e.1 as int));
        let ghost scores = |k: int| lfinal.0[k].1;
        let ghost n = unsorted@.len() as int;
        let maximise = color == 1;
        let mut best: Option<(Move, HeuristicValue)> = None;
        let ghost mut best_j: int = 0;
        let mut i: usize = 0;
        while i < unsorted.len()
            invariant
                listed == unsorted@.map_values(|e: (Move, HeuristicValue)| (e.0, e.1 as int)),
                listed == lfinal.0,
                n == unsorted@.len(),
                scores == (|k: int| lfinal.0[k].1),
                0 <= i <= n,
                i == 0 <==> best is None,
                best matches Some((m, v)) ==> first_best(scores, i as int, maximise, best_j) && m == listed[best_j].0
                    && v == listed[best_j].1,
            decreases n - i,
        {
            let (mve, v) = unsorted[i];
            assert(listed[i as int] == (mve, v as int));
            let better = match best {
                None => true,
                Some((_, bv)) => if maximise { v > bv } else { v < bv },
            };
            if better {
                best = Some((mve, v));
                proof {
                    best_j = i as int;
                }
            }
            i = i + 1;
        }
        (best, info)
    }
}

impl NegaMaxAlphaBetaExp {
    /// Whether `new_search` may be called on `st`: the generation can advance without
    /// wrapping, and every used entry keeps a defined value in the next generation.
    pub fn can_advance_now(st: &EvState) -> (r: bool)
        ensures
            r == <NegaMaxAlphaBetaExp as Evaluator>::can_advance(st),
    {
        let g = st.transposition.generation;
        if g >= 255 {
            return false;
        }
        let next = g + 1;
        let n = st.transposition.entries.len();
        let mut i: usize = 0;
        while i < n
            invariant
                0 <= i <= n,
                n == st.transposition@.entries.len(),
                next == st.transposition@.generation + 1,
                forall|k: int| 0 <= k < i && (#[trigger] st.transposition@.entries[k]).hash.0 != 0
                    ==> st.transposition@.entries[k].value_defined(next),
            decreases n - i,
        {
            let e = &st.transposition.entries[i];
            if e.hash.0 != 0 && !e.value_defined_at(next) {
                return false;
            }
            i = i + 1;
        }
        true
    }
}

impl Evaluator for NegaMaxAlphaBetaExp {
    type EvaluatorState = EvState;

    open spec fn state_ok(st: &EvState) -> bool {
        st.transposition@.ready()
    }

    /// The next generation neither wraps nor makes a used entry's value undefined.
    open spec fn can_advance(st: &EvState) -> bool {
        let t = st.transposition@;
        &&& t.generation < 255
        &&& forall|i: int| 0 <= i < t.entries.len() && (#[trigger] t.entries[i]).hash.0 != 0
            ==> t.entries[i].value_defined((t.generation + 1) as u8)
    }

    fn name() -> (r: String)
        ensures
            r@ == "NegaMaxAlphaBetaExp"@,
    {
        "NegaMaxAlphaBetaExp".to_owned()
    }

    /// A table of `2^22` empty places, in buckets of four.
    fn new_state() -> (r: EvState)
        ensures
            r.transposition.entries@.len() == 0x40_0000,
            r.transposition.generation == 0,
            r.transposition.bucket_mask + 1 == (1u64 << 20u64),
            forall|i: int| 0 <= i < r.transposition.entries@.len() ==> #[trigger] r.transposition.entries@[i] == spec_null_entry(),
    {
        assert((1usize << 22usize) == 0x40_0000usize) by (bit_vector);
        EvState { transposition: TranspositionTable::new(22) }
    }

    /// Starts a new generation of the table.
    fn new_search(st: &mut EvState)
        ensures
            final(st).transposition.generation == old(st).transposition.generation + 1,
            final(st).transposition.entries == old(st).transposition.entries,
    {
        st.transposition.increment_generation();
    }

    /// Empties the table.
    fn reset(st: &mut EvState)
        ensures
            final(st).transposition.entries@.len() == old(st).transposition.entries@.len(),
            forall|i: int| 0 <= i < final(st).transposition.entries@.len() ==> #[trigger] final(st).transposition.entries@[i] == spec_null_entry(),
            final(st).transposition.generation == old(st).transposition.generation,
    {
        st.transposition.reset();
    }
}

} // verus!
