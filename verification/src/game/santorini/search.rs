//! What the searches share: the children of a position and the scores of a won game.
use vstd::prelude::*;
use crate::game::util::Player;
use crate::game::santorini::Move;
use crate::game::santorini::board::{StandardBoard, spec_next_moves, spec_apply, move_on_board, lemma_next_moves_on_board,
    lemma_next_moves_len, lemma_apply_wf, sane, listed_legal, lemma_next_moves_legal, lemma_apply_sane};
use crate::game::santorini::state::State;
use vstd::seq_lib::to_multiset_contains;

verus! {

pub open spec fn imax(a: int, b: int) -> int {
    if a >= b { a } else { b }
}

pub open spec fn imin(a: int, b: int) -> int {
    if a <= b { a } else { b }
}

/// The score of a game won by `p`, from player 0's point of view.
pub open spec fn win_score(p: Player) -> int {
    if p.0 == 0 { 32767 } else { -32767 }
}

/// The sign that turns a score from player 0's point of view into the point of view of
/// the player to move.
pub open spec fn color_of(p: Player) -> int {
    if p.0 == 0 { 1 } else { -1 }
}

/// 1 for player 0, -1 for player 1.
pub fn color(player: Player) -> (r: i16)
    requires
        player.0 == 0 || player.0 == 1,
    ensures
        r == color_of(player),
{
    if player.0 == 0 { 1 } else { -1 }
}

/// The position after the `i`-th listed move of `s`.
pub open spec fn child(board: StandardBoard, s: State, i: int) -> State {
    spec_apply(s, spec_next_moves(board, s)[i])
}

/// The listed moves of a well-formed position are few, name squares of the board, and
/// lead to well-formed positions.
pub proof fn lemma_children(board: StandardBoard, s: State)
    requires
        s.wf(),
    ensures
        spec_next_moves(board, s).len() <= 250000,
        forall|i: int| 0 <= i < spec_next_moves(board, s).len() ==> move_on_board(#[trigger] spec_next_moves(board, s)[i]),
        forall|i: int| 0 <= i < spec_next_moves(board, s).len() ==> (#[trigger] child(board, s, i)).wf(),
{
    lemma_next_moves_len(board, s);
    lemma_next_moves_on_board(board, s);
    assert forall|i: int| 0 <= i < spec_next_moves(board, s).len() implies (#[trigger] child(board, s, i)).wf() by {
        lemma_apply_wf(s, spec_next_moves(board, s)[i]);
    }
}

/// The listed moves of a sane position are legal and lead to sane positions.
pub proof fn lemma_children_sane(board: StandardBoard, s: State)
    requires
        s.wf(),
        sane(s),
    ensures
        forall|i: int| 0 <= i < spec_next_moves(board, s).len() ==> listed_legal(s, #[trigger] spec_next_moves(board, s)[i]),
        forall|i: int| 0 <= i < spec_next_moves(board, s).len() ==> sane(#[trigger] child(board, s, i)),
{
    lemma_children(board, s);
    lemma_next_moves_legal(board, s);
    assert forall|i: int| 0 <= i < spec_next_moves(board, s).len() implies sane(#[trigger] child(board, s, i)) by {
        lemma_apply_sane(s, spec_next_moves(board, s)[i]);
    }
}

/// The first place from `k` on where `ms` holds `m`; the length of `ms` if none.
pub open spec fn first_index(ms: Seq<Move>, m: Move, k: int) -> int
    decreases ms.len() - k,
{
    if k < 0 || k >= ms.len() {
        ms.len() as int
    } else if ms[k] == m {
        k
    } else {
        first_index(ms, m, k + 1)
    }
}

/// `ms` with the first occurrence of `m`, if any, exchanged with its first move.
pub open spec fn move_first(ms: Seq<Move>, m: Option<Move>) -> Seq<Move> {
    match m {
        Some(mv) => {
            let k = first_index(ms, mv, 0);
            if k < ms.len() { ms.update(0, ms[k]).update(k, ms[0]) } else { ms }
        },
        None => ms,
    }
}

pub proof fn lemma_first_index(ms: Seq<Move>, m: Move, k: int)
    requires
        0 <= k <= ms.len(),
    ensures
        k <= first_index(ms, m, k) <= ms.len(),
        first_index(ms, m, k) < ms.len() ==> ms[first_index(ms, m, k)] == m,
        forall|j: int| k <= j < first_index(ms, m, k) ==> ms[j] != m,
    decreases ms.len() - k,
{
    if k < ms.len() && ms[k] != m {
        lemma_first_index(ms, m, k + 1);
    }
}

/// The place of `ms` that place `i` of `move_first(ms, m)` comes from.
pub open spec fn moved_from(ms: Seq<Move>, m: Option<Move>, i: int) -> int {
    match m {
        Some(mv) => {
            let k = first_index(ms, mv, 0);
            if k < ms.len() {
                if i == k { 0 } else if i == 0 { k } else { i }
            } else {
                i
            }
        },
        None => i,
    }
}

/// Moving a move first only exchanges two places.
pub proof fn lemma_move_first(ms: Seq<Move>, m: Option<Move>)
    ensures
        move_first(ms, m).len() == ms.len(),
        forall|i: int| 0 <= i < ms.len() ==> 0 <= #[trigger] moved_from(ms, m, i) < ms.len()
            && move_first(ms, m)[i] == ms[moved_from(ms, m, i)],
{
    match m {
        Some(mv) => {
            lemma_first_index(ms, mv, 0);
        },
        None => {},
    }
}

/// The key a scored move is sorted by: its score, negated when the highest comes first.
pub open spec fn score_key(e: (Move, i16), descending: bool) -> int {
    if descending { -(e.1 as int) } else { e.1 as int }
}

/// The scored moves whose key is `k`.
pub open spec fn key_is(k: int, descending: bool) -> spec_fn((Move, i16)) -> bool {
    |e: (Move, i16)| score_key(e, descending) == k
}

/// Sorted by key, smallest first.
pub open spec fn sorted_by_key(q: Seq<(Move, i16)>, descending: bool) -> bool {
    forall|i: int, j: int| 0 <= i < j < q.len() ==> score_key(#[trigger] q[i], descending) <= score_key(#[trigger] q[j], descending)
}

/// `r` is `q` sorted stably by key: sorted, and for each key the moves of that key in the
/// order `q` has them.
pub open spec fn stable_sort_of(r: Seq<(Move, i16)>, q: Seq<(Move, i16)>, descending: bool) -> bool {
    &&& r.len() == q.len()
    &&& sorted_by_key(r, descending)
    &&& forall|k: int| #[trigger] r.filter(key_is(k, descending)) == q.filter(key_is(k, descending))
}

/// Inserting after every element of no larger key keeps a sorted sequence sorted and
/// appends to the subsequence of its key.
proof fn lemma_insert_sorted(r: Seq<(Move, i16)>, x: (Move, i16), p: int, descending: bool)
    requires
        0 <= p <= r.len(),
        sorted_by_key(r, descending),
        forall|i: int| 0 <= i < p ==> score_key(#[trigger] r[i], descending) <= score_key(x, descending),
        forall|i: int| p <= i < r.len() ==> score_key(#[trigger] r[i], descending) > score_key(x, descending),
    ensures
        sorted_by_key(r.insert(p, x), descending),
        forall|k: int| #[trigger] r.insert(p, x).filter(key_is(k, descending)) == if score_key(x, descending) == k {
            r.filter(key_is(k, descending)).push(x)
        } else {
            r.filter(key_is(k, descending))
        },
{
    broadcast use Seq::filter_distributes_over_add;
    let r2 = r.insert(p, x);
    assert forall|i: int, j: int| 0 <= i < j < r2.len() implies score_key(#[trigger] r2[i], descending)
        <= score_key(#[trigger] r2[j], descending) by {
        if i < p && j < p {
            assert(r2[i] == r[i] && r2[j] == r[j]);
        } else if i < p && j == p {
            assert(r2[i] == r[i]);
        } else if i < p {
            assert(r2[i] == r[i] && r2[j] == r[j - 1]);
        } else if i == p {
            assert(r2[j] == r[j - 1]);
        } else {
            assert(r2[i] == r[i - 1] && r2[j] == r[j - 1]);
        }
    }
    let a = r.subrange(0, p);
    let b = r.subrange(p, r.len() as int);
    assert(r =~= a + b);
    assert(r2 =~= a + seq![x] + b);
    assert forall|k: int| #[trigger] r2.filter(key_is(k, descending)) == if score_key(x, descending) == k {
        r.filter(key_is(k, descending)).push(x)
    } else {
        r.filter(key_is(k, descending))
    } by {
        let pr = key_is(k, descending);
        assert(r2.filter(pr) == (a + seq![x]).filter(pr) + b.filter(pr));
        assert(r.filter(pr) == a.filter(pr) + b.filter(pr));
        assert((a + seq![x]).filter(pr) == a.filter(pr) + seq![x].filter(pr));
        reveal_with_fuel(Seq::filter, 2);
        assert(seq![x].drop_last() =~= Seq::<(Move, i16)>::empty());
        if score_key(x, descending) == k {
            assert(seq![x].filter(pr) =~= seq![x]);
            assert forall|i: int| 0 <= i < b.len() implies !pr(#[trigger] b[i]) by {
                assert(b[i] == r[p + i]);
            }
            b.lemma_all_neg_filter_empty(pr);
            assert(b.filter(pr) =~= Seq::<(Move, i16)>::empty());
            assert(r2.filter(pr) =~= r.filter(pr).push(x));
        } else {
            assert(seq![x].filter(pr) =~= Seq::<(Move, i16)>::empty());
            assert(r2.filter(pr) =~= r.filter(pr));
        }
    }
}

/// Whether score `a` sorts no later than score `b`.
fn key_not_after(a: i16, b: i16, descending: bool) -> (r: bool)
    ensures
        r == (if descending { -(a as int) <= -(b as int) } else { a <= b }),
{
    if descending { a >= b } else { a <= b }
}

/// Sorts scored moves stably by score: highest first when `descending`, else lowest first.
pub fn sort_by_score(moves: Vec<(Move, i16)>, descending: bool) -> (r: Vec<(Move, i16)>)
    ensures
        stable_sort_of(r@, moves@, descending),
{
    let mut out: Vec<(Move, i16)> = Vec::new();
    let mut i: usize = 0;
    while i < moves.len()
        invariant
            0 <= i <= moves.len(),
            out@.len() == i,
            sorted_by_key(out@, descending),
            forall|k: int| #[trigger] out@.filter(key_is(k, descending)) == moves@.subrange(0, i as int).filter(key_is(k, descending)),
        decreases moves.len() - i,
    {
        let x = moves[i];
        let mut p: usize = 0;
        while p < out.len() && key_not_after(out[p].1, x.1, descending)
            invariant
                0 <= p <= out@.len(),
                sorted_by_key(out@, descending),
                forall|j: int| 0 <= j < p ==> score_key(#[trigger] out@[j], descending) <= score_key(x, descending),
            decreases out@.len() - p,
        {
            p = p + 1;
        }
        proof {
            assert forall|j: int| p <= j < out@.len() implies score_key(#[trigger] out@[j], descending) > score_key(x, descending) by {
                assert(score_key(out@[p as int], descending) > score_key(x, descending));
            }
            lemma_insert_sorted(out@, x, p as int, descending);
            assert(moves@.subrange(0, i + 1) =~= moves@.subrange(0, i as int).push(x));
        }
        let ghost old_out = out@;
        out.insert(p, x);
        proof {
            let pre = moves@.subrange(0, i as int);
            assert forall|k: int| #[trigger] out@.filter(key_is(k, descending)) == moves@.subrange(0, i + 1).filter(key_is(k, descending)) by {
                assert(moves@.subrange(0, i + 1) == pre.push(x));
                pre.lemma_filter_push(x, key_is(k, descending));
                assert(pre.push(x).filter(key_is(k, descending)) == if key_is(k, descending)(x) {
                    pre.filter(key_is(k, descending)).push(x)
                } else {
                    pre.filter(key_is(k, descending))
                });
                assert(old_out.filter(key_is(k, descending)) == pre.filter(key_is(k, descending)));
            }
        }
        i = i + 1;
    }
    assert(moves@.subrange(0, moves@.len() as int) =~= moves@);
    out
}

/// Keeping the elements that satisfy `p` keeps every copy of an element that does.
proof fn lemma_filter_count<A>(q: Seq<A>, p: spec_fn(A) -> bool, x: A)
    requires
        p(x),
    ensures
        q.filter(p).to_multiset().count(x) == q.to_multiset().count(x),
    decreases q.len(),
{
    reveal(Seq::filter);
    if q.len() > 0 {
        let rest = q.drop_last();
        lemma_filter_count(rest, p, x);
        rest.to_multiset_ensures();
        rest.filter(p).to_multiset_ensures();
        assert(q =~= rest.push(q.last()));
    }
}

/// A stable sort by score is a permutation of what it sorted.
pub proof fn lemma_stable_sort_permutes(r: Seq<(Move, i16)>, q: Seq<(Move, i16)>, descending: bool)
    requires
        stable_sort_of(r, q, descending),
    ensures
        r.to_multiset() == q.to_multiset(),
{
    assert forall|x: (Move, i16)| r.to_multiset().count(x) == q.to_multiset().count(x) by {
        let k = score_key(x, descending);
        lemma_filter_count(r, key_is(k, descending), x);
        lemma_filter_count(q, key_is(k, descending), x);
        assert(r.filter(key_is(k, descending)) == q.filter(key_is(k, descending)));
    }
    assert(r.to_multiset() =~= q.to_multiset());
}

/// The moves of a list of scored moves, in its order.
pub open spec fn scored_moves(r: Seq<(Move, i16)>) -> Seq<Move> {
    r.map_values(|e: (Move, i16)| e.0)
}

/// A permutation of the scored moves `q`, whose moves are the distinct `moves` in order,
/// holds each of those moves once.
pub proof fn lemma_scored_moves_permute(r: Seq<(Move, i16)>, q: Seq<(Move, i16)>, moves: Seq<Move>)
    requires
        r.to_multiset() == q.to_multiset(),
        q.len() == moves.len(),
        forall|i: int| 0 <= i < q.len() ==> #[trigger] q[i].0 == moves[i],
        moves.no_duplicates(),
    ensures
        scored_moves(r).to_multiset() == moves.to_multiset(),
{
    let rm = scored_moves(r);
    assert(q.no_duplicates()) by {
        assert forall|a: int, b: int| 0 <= a < q.len() && 0 <= b < q.len() && a != b implies q[a] != q[b] by {
            assert(q[a].0 == moves[a] && q[b].0 == moves[b]);
        }
    }
    q.lemma_multiset_has_no_duplicates();
    assert forall|x: (Move, i16)| r.to_multiset().contains(x) implies r.to_multiset().count(x) == 1 by {}
    r.lemma_multiset_has_no_duplicates_conv();
    assert forall|m: Move| rm.contains(m) <==> moves.contains(m) by {
        if rm.contains(m) {
            let j = choose|j: int| 0 <= j < rm.len() && rm[j] == m;
            to_multiset_contains(r, r[j]);
            to_multiset_contains(q, r[j]);
            assert(r.contains(r[j]));
            let i = choose|i: int| 0 <= i < q.len() && q[i] == r[j];
            assert(moves[i] == m);
        }
        if moves.contains(m) {
            let i = choose|i: int| 0 <= i < moves.len() && moves[i] == m;
            to_multiset_contains(r, q[i]);
            to_multiset_contains(q, q[i]);
            assert(q.contains(q[i]));
            let j = choose|j: int| 0 <= j < r.len() && r[j] == q[i];
            assert(rm[j] == m);
        }
    }
    assert(rm.no_duplicates()) by {
        assert forall|j: int, k: int| 0 <= j < rm.len() && 0 <= k < rm.len() && j != k implies rm[j] != rm[k] by {
            to_multiset_contains(r, r[j]);
            to_multiset_contains(q, r[j]);
            to_multiset_contains(r, r[k]);
            to_multiset_contains(q, r[k]);
            assert(r.contains(r[j]) && r.contains(r[k]));
            let a = choose|a: int| 0 <= a < q.len() && q[a] == r[j];
            let b = choose|b: int| 0 <= b < q.len() && q[b] == r[k];
            if rm[j] == rm[k] {
                assert(moves[a] == moves[b]);
            }
        }
    }
    rm.lemma_multiset_has_no_duplicates();
    moves.lemma_multiset_has_no_duplicates();
    assert forall|m: Move| rm.to_multiset().count(m) == moves.to_multiset().count(m) by {
        to_multiset_contains(rm, m);
        to_multiset_contains(moves, m);
    }
    assert(rm.to_multiset() =~= moves.to_multiset());
}

} // verus!
