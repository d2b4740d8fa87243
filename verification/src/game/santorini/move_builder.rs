//! A game in progress: the moves so far, the position, the moves on offer, and the
//! picture of a move that is still being entered square by square.
use vstd::prelude::*;
use crate::bits::bit;
use crate::game::util::{Player, Slot, Packed};
use crate::game::packed::Packed1;
use crate::game::santorini::Move;
use crate::game::santorini::state::State;
use crate::game::santorini::board::{
    StandardBoard, spec_apply, spec_ascension, spec_player_moves, player_legal, move_on_board,
    lemma_player_moves_exactly_legal, lemma_apply_wf, with_current, current, legal_step,
};
use crate::game::santorini::state::lemma_build_at_heights;

verus! {

/// Who is to move, or who has won.
#[derive(Debug, Copy, Clone, Eq, PartialEq, Structural)]
pub enum MatchStatus {
    ToMove(Player),
    Won(Player),
}

/// The status once a move has led to `s`: the player who moved has won if the move
/// climbed onto a third storey or the other player has no move; else that other
/// player is to move.
pub open spec fn status_after(s: State, ascended: bool, next: Seq<Move>) -> MatchStatus {
    if ascended || next.len() == 0 {
        MatchStatus::Won(s.spec_next_player())
    } else {
        MatchStatus::ToMove(s.to_move)
    }
}

/// `p` is a prefix of `s`.
pub open spec fn starts_with(s: Seq<Slot>, p: Seq<Slot>) -> bool {
    p.len() <= s.len() && s.subrange(0, p.len() as int) == p
}

pub open spec fn prefixed_by(p: Seq<Slot>) -> spec_fn(Seq<Slot>) -> bool {
    |sl: Seq<Slot>| starts_with(sl, p)
}

pub open spec fn slots_of_move() -> spec_fn(Move) -> Seq<Slot> {
    |m: Move| m.spec_slots()
}

/// The squares of the moves that begin with the squares `p`, in the order of `moves`.
pub open spec fn moves_from(moves: Seq<Move>, p: Seq<Slot>) -> Seq<Seq<Slot>> {
    moves.map_values(slots_of_move()).filter(prefixed_by(p))
}

/// How many of the moves that begin with `positions` go on with the square `tentative`
/// (none when there is no such square).
pub open spec fn tentative_count(moves: Seq<Move>, positions: Seq<Slot>, tentative: Option<Slot>) -> nat {
    match tentative {
        Some(t) => moves_from(moves, positions).filter(prefixed_by(positions.push(t))).len(),
        None => 0,
    }
}

/// The squares entered so far, with the tentative one when some move goes on with it.
pub open spec fn entered(moves: Seq<Move>, positions: Seq<Slot>, tentative: Option<Slot>) -> Seq<Slot> {
    match tentative {
        Some(t) => if tentative_count(moves, positions, tentative) > 0 { positions.push(t) } else { positions },
        None => positions,
    }
}

/// Square `x` comes at index `n` of one of `cands`.
pub open spec fn next_square(cands: Seq<Seq<Slot>>, n: int, x: Slot) -> bool {
    exists|k: int| 0 <= k < cands.len() && n < cands[k].len() && #[trigger] cands[k][n] == x
}

/// `x` with the bits of the squares `slots` set.
pub open spec fn or_slots(x: u32, slots: Seq<Slot>) -> u32
    decreases slots.len(),
{
    if slots.len() == 0 {
        x
    } else {
        or_slots(x, slots.drop_last()) | (1u32 << slots.last().0 as u32)
    }
}

/// `s` with `b` as the builders of the player to move.
pub open spec fn with_builders(s: State, b: u32) -> State {
    State {
        builders: with_current(s, b),
        building_major: s.building_major,
        building_minor: s.building_minor,
        domes: s.domes,
        to_move: s.to_move,
    }
}

/// The position once the squares `slots` of a move are entered: while the player to
/// move has no builder, a builder on each square; else, when the first square holds one
/// of its builders and a second square is given, that builder moves there and, when a
/// third square is given, one level is built on it; else the position itself.
pub open spec fn spec_modify_state(s: State, slots: Seq<Slot>) -> State {
    if current(s) == 0 {
        with_builders(s, or_slots(current(s), slots))
    } else if slots.len() >= 2 && 0 <= slots[0].0 < 32 && bit(current(s), slots[0].0 as u32) {
        let moved = with_builders(s, current(s) ^ ((1u32 << slots[0].0 as u32) | (1u32 << slots[1].0 as u32)));
        if slots.len() >= 3 { moved.spec_build_at(slots[2].0 as u32) } else { moved }
    } else {
        s
    }
}

/// Entering the three squares of a legal step shows the position that step leads to:
/// the same builders, buildings and domes as playing it (only the player to move is not
/// yet switched). The builder has left `from` for `to`, the square built on stands one
/// storey higher (or carries a dome on a third storey), and every other square keeps its
/// height.
pub proof fn lemma_preview_shows_move(s: State, from: int, to: int, build: int)
    requires
        s.wf(),
        legal_step(s, from, to, build),
    ensures
        ({
            let m = Move::Move { from: Slot(from as i8), to: Slot(to as i8), build: Slot(build as i8) };
            let p = spec_modify_state(s, seq![Slot(from as i8), Slot(to as i8), Slot(build as i8)]);
            let a = spec_apply(s, m);
            &&& p.builders == a.builders
            &&& p.building_major == a.building_major
            &&& p.building_minor == a.building_minor
            &&& p.domes == a.domes
            &&& p.to_move == s.to_move
            &&& s.height(build as u32) < 3 ==> p.height(build as u32) == s.height(build as u32) + 1 && p.domes == s.domes
            &&& s.height(build as u32) == 3 ==> bit(p.domes.0, build as u32) != bit(s.domes.0, build as u32)
            &&& forall|i: u32| i != build ==> #[trigger] p.height(i) == s.height(i)
        }),
{
    let slots = seq![Slot(from as i8), Slot(to as i8), Slot(build as i8)];
    assert(slots[0].0 == from && slots[1].0 == to && slots[2].0 == build);
    assert(current(s) != 0) by {
        crate::bits::lemma_bit_zero(from as u32);
    }
    let moved = with_builders(s, current(s) ^ ((1u32 << from as u32) | (1u32 << to as u32)));
    lemma_build_at_heights(moved, build as u32);
    if s.height(build as u32) == 3 {
        let x = s.domes.0;
        let b = build as u32;
        assert(b < 32);
        assert(bit(x ^ (1u32 << b), b) != bit(x, b)) by (bit_vector)
            requires b < 32;
    }
}

/// Entering the two squares of a placement, while the player to move has no builder,
/// shows the position that placement leads to: the same builders as playing it, and the
/// buildings and domes as they were.
pub proof fn lemma_preview_shows_placement(s: State, a: int, b: int)
    requires
        s.wf(),
        current(s) == 0,
        0 <= a < 25,
        0 <= b < 25,
    ensures
        ({
            let m = Move::PlaceBuilders { a: Slot(a as i8), b: Slot(b as i8) };
            let p = spec_modify_state(s, seq![Slot(a as i8), Slot(b as i8)]);
            &&& p.builders == spec_apply(s, m).builders
            &&& p.building_major == s.building_major
            &&& p.building_minor == s.building_minor
            &&& p.domes == s.domes
            &&& p.to_move == s.to_move
        }),
{
    let slots = seq![Slot(a as i8), Slot(b as i8)];
    assert(slots.drop_last() =~= seq![Slot(a as i8)]);
    assert(seq![Slot(a as i8)].drop_last() =~= Seq::<Slot>::empty());
    let x = current(s);
    let ua = a as u32;
    let ub = b as u32;
    assert((x | (1u32 << ua)) | (1u32 << ub) == x | ((1u32 << ua) | (1u32 << ub))) by (bit_vector);
    assert(or_slots(x, Seq::<Slot>::empty()) == x);
    assert(or_slots(x, seq![Slot(a as i8)]) == x | (1u32 << ua));
    assert(or_slots(x, slots) == (x | (1u32 << ua)) | (1u32 << ub));
}

/// The squares that `spec_modify_state` shifts by are within the 32 bits of a board.
pub open spec fn modify_ok(s: State, slots: Seq<Slot>) -> bool {
    if current(s) == 0 {
        forall|i: int| 0 <= i < slots.len() ==> 0 <= #[trigger] slots[i].0 < 32
    } else if slots.len() >= 2 && 0 <= slots[0].0 < 32 && bit(current(s), slots[0].0 as u32) {
        &&& 0 <= slots[1].0 < 32
        &&& slots.len() >= 3 ==> 0 <= slots[2].0 < 32
    } else {
        true
    }
}

/// The position with the squares `slots` of a move entered (see `spec_modify_state`).
pub fn modify_state(base_state: &State, slots: &Vec<Slot>) -> (r: State)
    requires
        0 <= base_state.to_move.0 < 2,
        modify_ok(*base_state, slots@),
    ensures
        r == spec_modify_state(*base_state, slots@),
{
    let mut new_state = *base_state;
    let p = new_state.to_move.0 as usize;
    let current_builders = new_state.current_builders();
    if !current_builders.any() {
        assert(new_state.builders@ =~= with_current(*base_state, 0)@);
        assert(new_state.builders == with_current(*base_state, 0));
        assert(slots@.subrange(0, 0) =~= Seq::<Slot>::empty());
        assert(or_slots(0, slots@.subrange(0, 0)) == 0);
        let mut i: usize = 0;
        while i < slots.len()
            invariant
                0 <= i <= slots@.len(),
                0 <= base_state.to_move.0 < 2,
                p == base_state.to_move.0,
                current(*base_state) == 0,
                modify_ok(*base_state, slots@),
                new_state == with_builders(*base_state, or_slots(0, slots@.subrange(0, i as int))),
            decreases slots@.len() - i,
        {
            let slot = slots[i];
            assert(0 <= slots@[i as int].0 < 32);
            let ghost pre = or_slots(0, slots@.subrange(0, i as int));
            new_state.builders[p] = Packed1(new_state.builders[p].0 | (1u32 << slot.0 as u32));
            proof {
                assert(slots@.subrange(0, i + 1).drop_last() =~= slots@.subrange(0, i as int));
                assert(or_slots(0, slots@.subrange(0, i + 1)) == pre | (1u32 << slot.0 as u32));
                assert(new_state.builders@ =~= with_current(*base_state, or_slots(0, slots@.subrange(0, i + 1)))@);
                assert(new_state.builders == with_current(*base_state, or_slots(0, slots@.subrange(0, i + 1))));
                assert(new_state == with_builders(*base_state, or_slots(0, slots@.subrange(0, i + 1))));
            }
            i = i + 1;
        }
        assert(slots@.subrange(0, slots@.len() as int) =~= slots@);
    } else if slots.len() >= 2 && 0 <= slots[0].0 && slots[0].0 < 32 && current_builders.get(slots[0]) == 1 {
        let from = slots[0];
        let to = slots[1];
        proof {
            crate::bits::lemma_bit_read(current(*base_state), from.0 as u32);
        }
        let movement_mask = Packed1((1u32 << from.0 as u32) | (1u32 << to.0 as u32));
        new_state.builders[p] = new_state.builders[p] ^ movement_mask;
        assert(new_state.builders@ =~= with_current(*base_state, current(*base_state) ^ movement_mask.0)@);
        assert(new_state.builders == with_current(*base_state, current(*base_state) ^ movement_mask.0));
        assert(new_state == with_builders(*base_state, current(*base_state) ^ movement_mask.0));
        if slots.len() >= 3 {
            new_state.build_at(slots[2]);
        }
    } else {
        proof {
            if slots@.len() >= 2 && 0 <= slots@[0].0 < 32 {
                crate::bits::lemma_bit_read(current(*base_state), slots@[0].0 as u32);
            }
        }
    }
    new_state
}

/// The picture of a move being entered.
#[derive(Debug)]
pub struct TentativeState {
    pub proposed_state: State,
    /// The squares that can come next, each once.
    pub matching_slots: Vec<Slot>,
    pub move_count: usize,
}

fn starts_with_slots(s: &Vec<Slot>, p: &Vec<Slot>) -> (r: bool)
    ensures
        r == starts_with(s@, p@),
{
    if p.len() > s.len() {
        return false;
    }
    let mut i: usize = 0;
    while i < p.len()
        invariant
            p@.len() <= s@.len(),
            0 <= i <= p@.len(),
            s@.subrange(0, i as int) == p@.subrange(0, i as int),
        decreases p@.len() - i,
    {
        if s[i] != p[i] {
            assert(s@.subrange(0, p@.len() as int)[i as int] != p@[i as int]);
            return false;
        }
        assert(s@.subrange(0, i + 1) =~= p@.subrange(0, i + 1));
        i = i + 1;
    }
    assert(p@.subrange(0, p@.len() as int) =~= p@);
    true
}

fn contains_slot(v: &Vec<Slot>, x: Slot) -> (r: bool)
    ensures
        r == v@.contains(x),
{
    let mut i: usize = 0;
    while i < v.len()
        invariant
            0 <= i <= v@.len(),
            forall|k: int| 0 <= k < i ==> v@[k] != x,
        decreases v@.len() - i,
    {
        if v[i] == x {
            return true;
        }
        i = i + 1;
    }
    false
}

/// The squares of the moves in `moves` that begin with `positions`, in order.
fn matching_moves(moves: &Vec<Move>, positions: &Vec<Slot>) -> (r: Vec<Vec<Slot>>)
    ensures
        r@.map_values(|v: Vec<Slot>| v@) == moves_from(moves@, positions@),
{
    let mut out: Vec<Vec<Slot>> = Vec::new();
    let mut i: usize = 0;
    while i < moves.len()
        invariant
            0 <= i <= moves@.len(),
            out@.map_values(|v: Vec<Slot>| v@) == moves_from(moves@.subrange(0, i as int), positions@),
        decreases moves@.len() - i,
    {
        let sl = moves[i].to_slots();
        let ghost pre = moves@.subrange(0, i as int);
        let ghost views = out@.map_values(|v: Vec<Slot>| v@);
        proof {
            assert(moves@.subrange(0, i + 1) =~= pre.push(moves@[i as int]));
            assert(pre.push(moves@[i as int]).map_values(slots_of_move()) =~= pre.map_values(slots_of_move()).push(sl@));
            pre.map_values(slots_of_move()).lemma_filter_push(sl@, prefixed_by(positions@));
        }
        if starts_with_slots(&sl, positions) {
            out.push(sl);
            assert(out@.map_values(|v: Vec<Slot>| v@) =~= views.push(sl@));
        }
        i = i + 1;
    }
    assert(moves@.subrange(0, moves@.len() as int) =~= moves@);
    out
}

/// The picture of the move being entered, from the moves on offer: the squares
/// `positions` are entered, and `tentative` is the square being pointed at. Returns how
/// many moves go on with `tentative`, the position with the entered squares (the
/// tentative one too when some move goes on with it), and the squares that can follow
/// `positions`.
pub fn tentative_state(state: &State, moves: &Vec<Move>, positions: &Vec<Slot>, tentative: Option<Slot>) -> (r: TentativeState)
    requires
        0 <= state.to_move.0 < 2,
        modify_ok(*state, entered(moves@, positions@, tentative)),
        positions@.len() < usize::MAX,
    ensures
        r.move_count == tentative_count(moves@, positions@, tentative),
        r.proposed_state == spec_modify_state(*state, entered(moves@, positions@, tentative)),
        r.matching_slots@.no_duplicates(),
        forall|x: Slot| #[trigger] r.matching_slots@.contains(x)
            <==> next_square(moves_from(moves@, positions@), positions@.len() as int, x),
{
    let legal = matching_moves(moves, positions);
    let ghost cands = legal@.map_values(|v: Vec<Slot>| v@);
    let mut with_tentative = positions.clone();
    assert(with_tentative@ == positions@);
    let mut tentative_move_count: usize = 0;
    if let Some(slot) = tentative {
        with_tentative.push(slot);
        let mut i: usize = 0;
        while i < legal.len()
            invariant
                0 <= i <= legal@.len(),
                cands == legal@.map_values(|v: Vec<Slot>| v@),
                with_tentative@ == positions@.push(slot),
                tentative_move_count == cands.subrange(0, i as int).filter(prefixed_by(positions@.push(slot))).len(),
                tentative_move_count <= i,
            decreases legal@.len() - i,
        {
            proof {
                assert(cands.subrange(0, i + 1) =~= cands.subrange(0, i as int).push(cands[i as int]));
                cands.subrange(0, i as int).lemma_filter_push(cands[i as int], prefixed_by(positions@.push(slot)));
            }
            if starts_with_slots(&legal[i], &with_tentative) {
                tentative_move_count = tentative_move_count + 1;
            }
            i = i + 1;
        }
        assert(cands.subrange(0, cands.len() as int) =~= cands);
        if tentative_move_count == 0 {
            with_tentative.pop();
            assert(with_tentative@ =~= positions@);
        }
    }
    let new_state = modify_state(state, &with_tentative);
    let mut matching_slots: Vec<Slot> = Vec::new();
    let n = positions.len();
    let mut i: usize = 0;
    while i < legal.len()
        invariant
            0 <= i <= legal@.len(),
            n == positions@.len(),
            cands == legal@.map_values(|v: Vec<Slot>| v@),
            matching_slots@.no_duplicates(),
            forall|x: Slot| #[trigger] matching_slots@.contains(x) <==> next_square(cands.subrange(0, i as int), n as int, x),
        decreases legal@.len() - i,
    {
        let ghost before = matching_slots@;
        let ghost fresh = n < cands[i as int].len();
        assert(cands[i as int] == legal@[i as int]@);
        if n < legal[i].len() {
            let x = legal[i][n];
            assert(cands[i as int][n as int] == x);
            if !contains_slot(&matching_slots, x) {
                matching_slots.push(x);
                proof {
                    assert forall|y: Slot| #[trigger] matching_slots@.contains(y) <==> (before.contains(y) || y == x) by {
                        if matching_slots@.contains(y) {
                            let j = choose|j: int| 0 <= j < matching_slots@.len() && matching_slots@[j] == y;
                            if j < before.len() {
                                assert(before[j] == y);
                            }
                        }
                        if before.contains(y) {
                            let j = choose|j: int| 0 <= j < before.len() && before[j] == y;
                            assert(matching_slots@[j] == y);
                        }
                        if y == x {
                            assert(matching_slots@[before.len() as int] == y);
                        }
                    }
                    assert forall|a: int, b: int| 0 <= a < matching_slots@.len() && 0 <= b < matching_slots@.len() && a != b
                        implies matching_slots@[a] != matching_slots@[b] by {
                        if a < before.len() && b < before.len() {
                        } else if a < before.len() {
                            assert(before.contains(before[a]));
                        } else if b < before.len() {
                            assert(before.contains(before[b]));
                        }
                    }
                }
            }
            assert(matching_slots@.contains(x));
            assert(forall|y: Slot| #[trigger] matching_slots@.contains(y) <==> (before.contains(y) || y == x));
        }
        proof {
            let pre = cands.subrange(0, i as int);
            let cur = cands.subrange(0, i + 1);
            assert(forall|y: Slot| #[trigger] matching_slots@.contains(y) <==> (before.contains(y) || (fresh && y == cands[i as int][n as int])));
            assert forall|x: Slot| #[trigger] matching_slots@.contains(x) <==> next_square(cur, n as int, x) by {
                if next_square(pre, n as int, x) {
                    let k = choose|k: int| 0 <= k < pre.len() && n < pre[k].len() && #[trigger] pre[k][n as int] == x;
                    assert(cur[k] == pre[k]);
                }
                if next_square(cur, n as int, x) {
                    let k = choose|k: int| 0 <= k < cur.len() && n < cur[k].len() && #[trigger] cur[k][n as int] == x;
                    if k < i {
                        assert(pre[k] == cur[k]);
                        assert(next_square(pre, n as int, x));
                    } else {
                        assert(cur[k] == cands[i as int]);
                    }
                }
                if fresh && x == cands[i as int][n as int] {
                    assert(cur[i as int] == cands[i as int]);
                    assert(next_square(cur, n as int, x));
                }
            }
        }
        i = i + 1;
    }
    assert(cands.subrange(0, cands.len() as int) =~= cands);
    TentativeState {
        proposed_state: new_state,
        matching_slots: matching_slots,
        move_count: tentative_move_count,
    }
}

/// How many of the moves in `moves` that begin with `positions` go on with `tentative`
/// (see `tentative_count`).
pub fn moves_continuing(moves: &Vec<Move>, positions: &Vec<Slot>, tentative: Option<Slot>) -> (r: usize)
    requires
        positions@.len() < usize::MAX,
    ensures
        r == tentative_count(moves@, positions@, tentative),
{
    match tentative {
        None => 0,
        Some(slot) => {
            let legal = matching_moves(moves, positions);
            let ghost cands = legal@.map_values(|v: Vec<Slot>| v@);
            let mut with_tentative = positions.clone();
            with_tentative.push(slot);
            let mut count: usize = 0;
            let mut i: usize = 0;
            while i < legal.len()
                invariant
                    0 <= i <= legal@.len(),
                    cands == legal@.map_values(|v: Vec<Slot>| v@),
                    with_tentative@ == positions@.push(slot),
                    count == cands.subrange(0, i as int).filter(prefixed_by(positions@.push(slot))).len(),
                    count <= i,
                decreases legal@.len() - i,
            {
                proof {
                    assert(cands.subrange(0, i + 1) =~= cands.subrange(0, i as int).push(cands[i as int]));
                    cands.subrange(0, i as int).lemma_filter_push(cands[i as int], prefixed_by(positions@.push(slot)));
                }
                if starts_with_slots(&legal[i], &with_tentative) {
                    count = count + 1;
                }
                i = i + 1;
            }
            assert(cands.subrange(0, cands.len() as int) =~= cands);
            count
        },
    }
}

/// The first of `moves` whose squares are exactly `slots`, if any.
pub open spec fn first_completed(moves: Seq<Move>, slots: Seq<Slot>, r: Option<Move>) -> bool {
    match r {
        Some(m) => exists|i: int| 0 <= i < moves.len() && #[trigger] moves[i] == m && m.spec_slots() == slots
            && forall|j: int| 0 <= j < i ==> (#[trigger] moves[j]).spec_slots() != slots,
        None => forall|j: int| 0 <= j < moves.len() ==> (#[trigger] moves[j]).spec_slots() != slots,
    }
}

/// The first move whose squares are exactly the entered squares `slots`: the move they
/// complete.
pub fn completed_move(moves: &Vec<Move>, slots: &Vec<Slot>) -> (r: Option<Move>)
    ensures
        first_completed(moves@, slots@, r),
{
    let mut i: usize = 0;
    while i < moves.len()
        invariant
            0 <= i <= moves@.len(),
            forall|j: int| 0 <= j < i ==> (#[trigger] moves@[j]).spec_slots() != slots@,
        decreases moves@.len() - i,
    {
        let sl = moves[i].to_slots();
        if sl.len() == slots.len() && starts_with_slots(&sl, slots) {
            assert(sl@ =~= slots@) by {
                assert(sl@.subrange(0, slots@.len() as int) =~= sl@);
            }
            return Some(moves[i]);
        }
        proof {
            if moves@[i as int].spec_slots() == slots@ {
                assert(sl@.subrange(0, slots@.len() as int) =~= sl@);
            }
        }
        i = i + 1;
    }
    None
}

/// Whether `mve` is one of `moves`.
pub fn contains_move(moves: &Vec<Move>, mve: Move) -> (r: bool)
    ensures
        r == moves@.contains(mve),
{
    let mut i: usize = 0;
    while i < moves.len()
        invariant
            0 <= i <= moves@.len(),
            forall|k: int| 0 <= k < i ==> moves@[k] != mve,
        decreases moves@.len() - i,
    {
        if moves[i] == mve {
            return true;
        }
        i = i + 1;
    }
    false
}

/// The squares of a move name it: two moves with the same squares are the same move.
pub proof fn lemma_slots_name_move(a: Move, b: Move)
    requires
        a.spec_slots() == b.spec_slots(),
    ensures
        a == b,
{
    let sa = a.spec_slots();
    let sb = b.spec_slots();
    assert(sa.len() == sb.len());
    match a {
        Move::PlaceBuilders { a: a1, b: b1 } => match b {
            Move::PlaceBuilders { a: a2, b: b2 } => {
                assert(a1 == sa[0] && a2 == sb[0]);
                assert(b1 == sa[1] && b2 == sb[1]);
            },
            Move::Move { .. } => {
                assert(sa.len() == 2 && sb.len() == 3);
            },
        },
        Move::Move { from: f1, to: t1, build: u1 } => match b {
            Move::PlaceBuilders { .. } => {
                assert(sa.len() == 3 && sb.len() == 2);
            },
            Move::Move { from: f2, to: t2, build: u2 } => {
                assert(f1 == sa[0] && f2 == sb[0]);
                assert(t1 == sa[1] && t2 == sb[1]);
                assert(u1 == sa[2] && u2 == sb[2]);
            },
        },
    }
}

/// Every move on offer can be entered square by square: after any of its first squares,
/// some move on offer goes on with its next square.
pub proof fn lemma_move_can_be_entered(moves: Seq<Move>, m: Move, k: int)
    requires
        moves.contains(m),
        0 <= k < m.spec_slots().len(),
    ensures
        tentative_count(moves, m.spec_slots().subrange(0, k), Some(m.spec_slots()[k])) > 0,
{
    broadcast use vstd::seq_lib::group_filter_ensures;
    let sl = m.spec_slots();
    let p = sl.subrange(0, k);
    let q = p.push(sl[k]);
    let i = choose|i: int| 0 <= i < moves.len() && moves[i] == m;
    let mapped = moves.map_values(slots_of_move());
    assert(mapped[i] == sl);
    assert(sl.subrange(0, p.len() as int) =~= p);
    assert(prefixed_by(p)(sl));
    assert(moves_from(moves, p).contains(sl));
    assert(q =~= sl.subrange(0, k + 1));
    assert(sl.subrange(0, q.len() as int) =~= q);
    assert(prefixed_by(q)(sl));
    let cands = moves_from(moves, p);
    let j = choose|j: int| 0 <= j < cands.len() && cands[j] == sl;
    assert(cands.filter(prefixed_by(q)).contains(sl));
}

/// Entering all the squares of a move on offer completes that very move.
pub proof fn lemma_entered_move_completes(moves: Seq<Move>, m: Move, r: Option<Move>)
    requires
        moves.contains(m),
        first_completed(moves, m.spec_slots(), r),
    ensures
        r == Some(m),
{
    let i = choose|i: int| 0 <= i < moves.len() && moves[i] == m;
    match r {
        Some(m2) => {
            lemma_slots_name_move(m2, m);
        },
        None => {
            assert(moves[i].spec_slots() != m.spec_slots());
        },
    }
}

/// A square that some move on offer goes on with is one of that move's squares: on the
/// board when every move on offer is.
pub proof fn lemma_continuing_square_on_board(moves: Seq<Move>, positions: Seq<Slot>, t: Slot)
    requires
        forall|k: int| 0 <= k < moves.len() ==> move_on_board(#[trigger] moves[k]),
        tentative_count(moves, positions, Some(t)) > 0,
    ensures
        0 <= t.0 < 25,
{
    broadcast use vstd::seq_lib::group_filter_ensures;
    let q = positions.push(t);
    let cands = moves_from(moves, positions);
    let f = cands.filter(prefixed_by(q));
    let sl = f[0];
    assert(f.contains(sl));
    cands.lemma_filter_contains_rev(prefixed_by(q), sl);
    let mapped = moves.map_values(slots_of_move());
    mapped.lemma_filter_contains_rev(prefixed_by(positions), sl);
    let i = choose|i: int| 0 <= i < mapped.len() && mapped[i] == sl;
    assert(sl == moves[i].spec_slots());
    assert(prefixed_by(q)(sl));
    assert(sl.subrange(0, q.len() as int)[positions.len() as int] == t);
    assert(move_on_board(moves[i]));
}

/// A game in progress on a board.
#[derive(Debug, Clone)]
pub struct BoardState {
    /// The moves so far, in order.
    pub moves: Vec<Move>,
    pub state: State,
    pub board: StandardBoard,
    /// The moves on offer.
    pub next_moves: Vec<Move>,
}

/// Every move `next_moves_for_player` lists is legal.
pub proof fn lemma_player_moves_legal(s: State)
    requires
        s.wf(),
    ensures
        forall|k: int| 0 <= k < spec_player_moves(s).len() ==> player_legal(s, #[trigger] spec_player_moves(s)[k]),
{
    assert forall|k: int| 0 <= k < spec_player_moves(s).len() implies player_legal(s, #[trigger] spec_player_moves(s)[k]) by {
        assert(spec_player_moves(s).contains(spec_player_moves(s)[k]));
        lemma_player_moves_exactly_legal(s, spec_player_moves(s)[k]);
    }
}

impl BoardState {
    /// The board's tables, a well-formed position, and legal moves only on offer.
    pub open spec fn wf(&self) -> bool {
        &&& self.board.wf()
        &&& self.state.wf()
        &&& forall|k: int| 0 <= k < self.next_moves@.len() ==> player_legal(self.state, #[trigger] self.next_moves@[k])
    }

    /// A game from `state`, with no move made yet and every legal move on offer.
    pub fn new(board: StandardBoard, state: State) -> (r: BoardState)
        requires
            board.wf(),
            state.wf(),
        ensures
            r.wf(),
            r.moves@ == Seq::<Move>::empty(),
            r.state == state,
            r.board == board,
            r.next_moves@ == spec_player_moves(state),
    {
        let mut next_moves = Vec::new();
        board.next_moves_for_player(&state, &mut next_moves);
        proof {
            lemma_player_moves_legal(state);
            assert(next_moves@ =~= spec_player_moves(state));
        }
        BoardState { moves: Vec::new(), state: state, board: board, next_moves: next_moves }
    }

    /// Makes `mve`, one of the moves on offer. After a climb onto a third storey nothing
    /// more is on offer; otherwise every legal move of the next player is.
    pub fn make_move(&mut self, mve: Move) -> (r: MatchStatus)
        requires
            old(self).wf(),
            old(self).next_moves@.contains(mve),
        ensures
            final(self).wf(),
            final(self).board == old(self).board,
            final(self).moves@ == old(self).moves@.push(mve),
            final(self).state == spec_apply(old(self).state, mve),
            final(self).next_moves@ == (if spec_ascension(old(self).state, mve) {
                Seq::<Move>::empty()
            } else {
                spec_player_moves(final(self).state)
            }),
            r == status_after(final(self).state, spec_ascension(old(self).state, mve), final(self).next_moves@),
    {
        proof {
            let k = choose|k: int| 0 <= k < self.next_moves@.len() && self.next_moves@[k] == mve;
            assert(player_legal(self.state, self.next_moves@[k]));
            assert(move_on_board(mve));
            lemma_apply_wf(self.state, mve);
        }
        let is_winning_move = self.board.ascension_winning_move(&self.state, mve);
        self.moves.push(mve);
        self.state = self.board.apply(mve, &self.state);
        self.next_moves.clear();
        if !is_winning_move {
            self.board.next_moves_for_player(&self.state, &mut self.next_moves);
            proof {
                lemma_player_moves_legal(self.state);
                assert(self.next_moves@ =~= spec_player_moves(self.state));
            }
        }
        if is_winning_move {
            MatchStatus::Won(self.state.next_player())
        } else if self.next_moves.len() == 0 {
            MatchStatus::Won(self.state.next_player())
        } else {
            MatchStatus::ToMove(self.state.to_move)
        }
    }

    /// The picture of the move being entered: squares `positions` entered, `tentative`
    /// pointed at (see `tentative_state`).
    pub fn tentative(&self, positions: &Vec<Slot>, tentative: Option<Slot>) -> (r: TentativeState)
        requires
            self.state.wf(),
            modify_ok(self.state, entered(self.next_moves@, positions@, tentative)),
            positions@.len() < usize::MAX,
        ensures
            r.move_count == tentative_count(self.next_moves@, positions@, tentative),
            r.proposed_state == spec_modify_state(self.state, entered(self.next_moves@, positions@, tentative)),
            r.matching_slots@.no_duplicates(),
            forall|x: Slot| #[trigger] r.matching_slots@.contains(x)
                <==> next_square(moves_from(self.next_moves@, positions@), positions@.len() as int, x),
    {
        tentative_state(&self.state, &self.next_moves, positions, tentative)
    }
}

} // verus!
