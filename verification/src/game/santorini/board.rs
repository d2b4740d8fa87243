//! The 5x5 board: geometry, symmetries, move listing, move application and hashing.
use vstd::prelude::*;
use crate::bits::{bit, lemma_bit_or, lemma_bit_single, lemma_bit_zero, lemma_bit_and, lemma_bit_xor, lemma_bit_not, lemma_bit_small};
use crate::game::util::{Slot, SlotTransform, Position, Packed, fits, empty_slot_transform};
use crate::game::packed::{Packed1, packed1_empty, popcount, count_below, lemma_popcount_count, lemma_count_below_add};
use crate::game::santorini::{Move, NONE_INDEX, symmetry, on_board, rotate_90, rotate_180, rotate_270, reflect_x, reflect_y, reflect_diag_a, reflect_diag_b};
use crate::game::santorini::state::{State, HEIGHT_BUILDER_ORDER};
use crate::game::santorini::transposition::{ZobristHash, StateHash};

verus! {

pub const SLOT_COUNT: usize = 25;

/// Square `i` as a position: column `i % 5`, row `i / 5`.
pub open spec fn spec_position(i: int) -> Position {
    Position { x: (i % 5) as i8, y: (i / 5) as i8 }
}

/// Division by 5 rounding toward zero, as Rust's `/` does.
pub open spec fn trunc_div5(a: int) -> int {
    if a >= 0 { a / 5 } else { -((-a) / 5) }
}

/// The square of a position.
pub open spec fn spec_slot_of(p: Position) -> int {
    p.x + p.y * 5
}

/// Two distinct squares that touch, by side or corner.
pub open spec fn adjacent(i: int, j: int) -> bool {
    &&& 0 <= i < 25
    &&& 0 <= j < 25
    &&& i != j
    &&& -1 <= i % 5 - j % 5 <= 1
    &&& -1 <= i / 5 - j / 5 <= 1
}

/// The `k`-th square of the 3x3 block around `i` (columns first), if it is a
/// different square on the board.
pub open spec fn neighbour_candidate(i: int, k: int) -> Option<int> {
    let x = i % 5 + k / 3 - 1;
    let y = i / 5 + k % 3 - 1;
    if k != 4 && 0 <= x < 5 && 0 <= y < 5 {
        Some(x + 5 * y)
    } else {
        None
    }
}

/// The neighbours of `i` among the first `k` places of the 3x3 block, in scan order.
pub open spec fn neighbours_upto(i: int, k: int) -> Seq<Slot>
    decreases k,
{
    if k <= 0 {
        seq![]
    } else {
        match neighbour_candidate(i, k - 1) {
            Some(j) => neighbours_upto(i, k - 1).push(Slot(j as i8)),
            None => neighbours_upto(i, k - 1),
        }
    }
}

/// The neighbours of square `i`, scanning the 3x3 block column by column.
pub open spec fn neighbours(i: int) -> Seq<Slot> {
    neighbours_upto(i, 9)
}

proof fn lemma_div_mod_3(a: int, c: int)
    requires
        0 <= a < 3,
        0 <= c < 3,
    ensures
        (a * 3 + c) / 3 == a,
        (a * 3 + c) % 3 == c,
{
    assert((a * 3 + c) / 3 == a && (a * 3 + c) % 3 == c) by (nonlinear_arith)
        requires 0 <= a < 3, 0 <= c < 3;
}

proof fn lemma_div_mod_5(x: int, y: int)
    requires
        0 <= x < 5,
    ensures
        (x + 5 * y) % 5 == x,
        (x + 5 * y) / 5 == y,
{
    assert((x + 5 * y) % 5 == x && (x + 5 * y) / 5 == y) by (nonlinear_arith)
        requires 0 <= x < 5;
}

/// A candidate of the scan is a square adjacent to `i`, and every adjacent square is one.
proof fn lemma_candidate_adjacent(i: int, k: int, b: int)
    requires
        0 <= i < 25,
        0 <= k < 9,
    ensures
        neighbour_candidate(i, k) == Some(b) ==> adjacent(i, b),
{
    if neighbour_candidate(i, k) == Some(b) {
        let x = i % 5 + k / 3 - 1;
        let y = i / 5 + k % 3 - 1;
        lemma_div_mod_5(x, y);
        lemma_div_mod_5(i % 5, i / 5);
        assert(i == i % 5 + 5 * (i / 5));
        if b == i {
            assert(k / 3 == 1 && k % 3 == 1);
            assert(k == (k / 3) * 3 + k % 3);
        }
    }
}

proof fn lemma_adjacent_candidate(i: int, b: int)
    requires
        adjacent(i, b),
    ensures
        neighbour_candidate(i, (b % 5 - i % 5 + 1) * 3 + (b / 5 - i / 5 + 1)) == Some(b),
{
    let k = (b % 5 - i % 5 + 1) * 3 + (b / 5 - i / 5 + 1);
    lemma_div_mod_3(b % 5 - i % 5 + 1, b / 5 - i / 5 + 1);
    assert(b == b % 5 + 5 * (b / 5));
}

/// What the scan has listed after `k` places.
proof fn lemma_neighbours_upto(i: int, k: int)
    requires
        0 <= i < 25,
        0 <= k <= 9,
    ensures
        neighbours_upto(i, k).len() <= (if k <= 4 { k } else { k - 1 }),
        forall|b: int| #[trigger] neighbours_upto(i, k).contains(Slot(b as i8)) && 0 <= b < 128 <==> exists|l: int| 0 <= l < k && #[trigger] neighbour_candidate(i, l) == Some(b),
        forall|m: int| #![trigger neighbours_upto(i, k)[m]] 0 <= m < neighbours_upto(i, k).len() ==> exists|l: int| 0 <= l < k && #[trigger] neighbour_candidate(i, l) == Some(neighbours_upto(i, k)[m].0 as int)
            && 0 <= neighbours_upto(i, k)[m].0 < 25,
    decreases k,
{
    if k > 0 {
        lemma_neighbours_upto(i, k - 1);
        let prev = neighbours_upto(i, k - 1);
        match neighbour_candidate(i, k - 1) {
            Some(j) => {
                assert(0 <= j < 25);
                let cur = prev.push(Slot(j as i8));
                assert forall|b: int| #[trigger] cur.contains(Slot(b as i8)) && 0 <= b < 128 <==> exists|l: int| 0 <= l < k && #[trigger] neighbour_candidate(i, l) == Some(b) by {
                    if cur.contains(Slot(b as i8)) && 0 <= b < 128 {
                        if b == j {
                            assert(neighbour_candidate(i, k - 1) == Some(b));
                        } else {
                            let m = choose|m: int| 0 <= m < cur.len() && cur[m] == Slot(b as i8);
                            assert(m < prev.len());
                            assert(prev[m] == Slot(b as i8));
                            assert(prev.contains(Slot(b as i8)));
                            let l = choose|l: int| 0 <= l < k - 1 && #[trigger] neighbour_candidate(i, l) == Some(b);
                            assert(neighbour_candidate(i, l) == Some(b));
                        }
                    }
                    if exists|l: int| 0 <= l < k && #[trigger] neighbour_candidate(i, l) == Some(b) {
                        let l = choose|l: int| 0 <= l < k && #[trigger] neighbour_candidate(i, l) == Some(b);
                        if l == k - 1 {
                            assert(cur[cur.len() - 1] == Slot(b as i8));
                        } else {
                            assert(neighbour_candidate(i, l) == Some(b) && 0 <= l < k - 1);
                            assert(prev.contains(Slot(b as i8)) || !prev.contains(Slot(b as i8)));
                            assert(prev.contains(Slot(b as i8)));
                            let m = choose|m: int| 0 <= m < prev.len() && prev[m] == Slot(b as i8);
                            assert(cur[m] == Slot(b as i8));
                        }
                    }
                }
                assert forall|m: int| #![trigger cur[m]] 0 <= m < cur.len() implies exists|l: int| 0 <= l < k && #[trigger] neighbour_candidate(i, l) == Some(cur[m].0 as int)
                    && 0 <= cur[m].0 < 25 by {
                    if m == cur.len() - 1 {
                        assert(neighbour_candidate(i, k - 1) == Some(cur[m].0 as int));
                    } else {
                        assert(cur[m] == prev[m]);
                    }
                }
            },
            None => {
                assert(k - 1 == 4 ==> neighbour_candidate(i, 4) is None);
            },
        }
    }
}

/// Each symmetry sends a square of the board to a square of the board.
pub proof fn lemma_symmetry_on_board(t: int, i: int)
    requires
        0 <= t < 7,
        0 <= i < 25,
    ensures
        0 <= symmetric_slot(t, i) < 25,
{
}

/// The neighbours of a square are the squares adjacent to it; there are at most eight.
pub proof fn lemma_neighbours(i: int)
    requires
        0 <= i < 25,
    ensures
        neighbours(i).len() <= 8,
        forall|b: int| 0 <= b < 32 ==> (neighbours(i).contains(Slot(b as i8)) <==> adjacent(i, b)),
        forall|k: int| 0 <= k < neighbours(i).len() ==> 0 <= #[trigger] neighbours(i)[k].0 < 25,
{
    lemma_neighbours_upto(i, 9);
    assert forall|b: int| 0 <= b < 32 implies (neighbours(i).contains(Slot(b as i8)) <==> adjacent(i, b)) by {
        if adjacent(i, b) {
            lemma_adjacent_candidate(i, b);
        }
        if neighbours(i).contains(Slot(b as i8)) {
            let l = choose|l: int| 0 <= l < 9 && #[trigger] neighbour_candidate(i, l) == Some(b);
            lemma_candidate_adjacent(i, l, b);
        }
    }
}

/// The square that symmetry `t` sends square `i` to.
pub open spec fn symmetric_slot(t: int, i: int) -> int {
    spec_slot_of(symmetry(t, spec_position(i)))
}

/// The squares of `x` below `n`, each moved by `t`, as a mask.
pub open spec fn image_upto(t: SlotTransform, x: u32, n: int) -> u32
    decreases n,
{
    if n <= 0 {
        0
    } else {
        let prev = image_upto(t, x, n - 1);
        if bit(x, (n - 1) as u32) {
            prev | (1u32 << (t.slots[n - 1].0 as u32))
        } else {
            prev
        }
    }
}

/// The squares of `x` moved by `t`.
pub open spec fn image(t: SlotTransform, x: u32) -> u32 {
    image_upto(t, x, 25)
}

/// Every occupied square of `x` is one of the 25 and is sent to one of the 32 bits.
pub open spec fn image_defined(t: SlotTransform, x: u32) -> bool {
    &&& x < 0x200_0000u32
    &&& forall|i: int| 0 <= i < 25 && bit(x, i as u32) ==> 0 <= #[trigger] t.slots[i].0 < 32
}

/// The set bits of `image_upto(t, x, n)` are the targets of the set bits of `x` below `n`.
proof fn lemma_image_upto_bits(t: SlotTransform, x: u32, n: int)
    requires
        0 <= n <= 25,
        forall|i: int| 0 <= i < n && bit(x, i as u32) ==> 0 <= #[trigger] t.slots[i].0 < 32,
    ensures
        forall|j: u32| #[trigger] bit(image_upto(t, x, n), j) <==> exists|i: int| 0 <= i < n && bit(x, i as u32)
            && t.slots[i].0 == j,
    decreases n,
{
    if n > 0 {
        lemma_image_upto_bits(t, x, n - 1);
        let prev = image_upto(t, x, n - 1);
        if bit(x, (n - 1) as u32) {
            let tgt = t.slots[n - 1].0 as u32;
            assert forall|j: u32| #[trigger] bit(image_upto(t, x, n), j) <==> exists|i: int| 0 <= i < n && bit(x, i as u32)
                && t.slots[i].0 == j by {
                lemma_bit_or(prev, 1u32 << tgt, j);
                lemma_bit_single(tgt, j);
                if j == tgt {
                    assert(bit(x, (n - 1) as u32) && t.slots[n - 1].0 == j);
                }
                if exists|i: int| 0 <= i < n && bit(x, i as u32) && t.slots[i].0 == j {
                    let i = choose|i: int| 0 <= i < n && bit(x, i as u32) && t.slots[i].0 == j;
                    if i < n - 1 {
                        assert(bit(prev, j));
                    }
                }
            }
        } else {
            assert forall|j: u32| #[trigger] bit(image_upto(t, x, n), j) <==> exists|i: int| 0 <= i < n && bit(x, i as u32)
                && t.slots[i].0 == j by {
                if exists|i: int| 0 <= i < n && bit(x, i as u32) && t.slots[i].0 == j {
                    let i = choose|i: int| 0 <= i < n && bit(x, i as u32) && t.slots[i].0 == j;
                    assert(i != n - 1);
                    assert(bit(prev, j));
                }
            }
        }
    } else {
        assert forall|j: u32| !#[trigger] bit(image_upto(t, x, n), j) by {
            lemma_bit_zero(j);
        }
    }
}

/// Moving two masks' squares by `t` and joining them is moving the squares of their join.
pub proof fn lemma_image_union(t: SlotTransform, a: u32, b: u32)
    requires
        image_defined(t, a),
        image_defined(t, b),
    ensures
        image_defined(t, a | b),
        image(t, a | b) == image(t, a) | image(t, b),
{
    assert forall|i: u32| 25 <= i < 32 implies !#[trigger] bit(a | b, i) by {
        lemma_bit_or(a, b, i);
        lemma_bit_small(a, i);
        lemma_bit_small(b, i);
    }
    crate::bits::lemma_small_from_bits(a | b);
    assert forall|i: int| 0 <= i < 25 && bit(a | b, i as u32) implies 0 <= #[trigger] t.slots[i].0 < 32 by {
        lemma_bit_or(a, b, i as u32);
    }
    lemma_image_upto_bits(t, a, 25);
    lemma_image_upto_bits(t, b, 25);
    lemma_image_upto_bits(t, a | b, 25);
    let ia = image(t, a);
    let ib = image(t, b);
    let iab = image(t, a | b);
    assert forall|j: u32| j < 32 implies #[trigger] bit(iab, j) == bit(ia | ib, j) by {
        lemma_bit_or(ia, ib, j);
        if bit(iab, j) {
            let i = choose|i: int| 0 <= i < 25 && bit(a | b, i as u32) && t.slots[i].0 == j;
            lemma_bit_or(a, b, i as u32);
            if bit(a, i as u32) {
                assert(bit(ia, j));
            } else {
                assert(bit(ib, j));
            }
        }
        if bit(ia, j) {
            let i = choose|i: int| 0 <= i < 25 && bit(a, i as u32) && t.slots[i].0 == j;
            lemma_bit_or(a, b, i as u32);
            assert(bit(iab, j));
        }
        if bit(ib, j) {
            let i = choose|i: int| 0 <= i < 25 && bit(b, i as u32) && t.slots[i].0 == j;
            lemma_bit_or(a, b, i as u32);
            assert(bit(iab, j));
        }
    }
    crate::bits::lemma_bits_ext(iab, ia | ib);
}

proof fn lemma_image_count(t: SlotTransform, x: u32, n: int)
    requires
        0 <= n <= 25,
        image_defined(t, x),
        t.spec_is_permutation(),
    ensures
        count_below(image_upto(t, x, n), 32) == count_below(x, n),
    decreases n,
{
    if n > 0 {
        lemma_image_count(t, x, n - 1);
        if bit(x, (n - 1) as u32) {
            let prev = image_upto(t, x, n - 1);
            let tgt = t.slots[n - 1].0 as u32;
            lemma_image_upto_bits(t, x, n - 1);
            if bit(prev, tgt) {
                let i = choose|i: int| 0 <= i < n - 1 && bit(x, i as u32) && t.slots[i].0 == tgt;
                assert(t.slots[i] != t.slots[n - 1]);
            }
            lemma_count_below_add(prev, tgt, 32);
        }
    } else {
        lemma_count_below_zero(32);
    }
}

proof fn lemma_count_below_zero(n: int)
    requires
        0 <= n,
    ensures
        count_below(0u32, n) == 0,
    decreases n,
{
    if n > 0 {
        lemma_count_below_zero(n - 1);
        lemma_bit_zero((n - 1) as u32);
    }
}

proof fn lemma_count_below_high(x: u32, n: int)
    requires
        x < 0x200_0000u32,
        25 <= n <= 32,
    ensures
        count_below(x, n) == count_below(x, 25),
    decreases n,
{
    if n > 25 {
        lemma_count_below_high(x, n - 1);
        lemma_bit_small(x, (n - 1) as u32);
    }
}

/// A transform that sends no two squares to the same place moves as many squares as it
/// is given: the image of a mask has as many set bits as the mask.
pub proof fn lemma_image_popcount(t: SlotTransform, x: u32)
    requires
        image_defined(t, x),
        t.spec_is_permutation(),
    ensures
        popcount(image(t, x)) == popcount(x),
{
    lemma_image_count(t, x, 25);
    lemma_popcount_count(image(t, x));
    lemma_popcount_count(x);
    lemma_count_below_high(x, 32);
}

/// Building heights and domes of `s` carried by `t` over `base`, squares `0..n` done in order.
pub open spec fn carry_upto(s: State, t: SlotTransform, base: State, n: int) -> State
    decreases n,
{
    if n <= 0 {
        base
    } else {
        let prev = carry_upto(s, t, base, n - 1);
        let to = t.slots[n - 1].0 as u32;
        let lifted = prev.with_height(to, s.height((n - 1) as u32) as u8);
        State {
            builders: lifted.builders,
            building_major: lifted.building_major,
            building_minor: lifted.building_minor,
            domes: Packed1(crate::game::santorini::state::spec_setb(lifted.domes.0, to,
                if bit(s.domes.0, (n - 1) as u32) { 1u32 } else { 0u32 })),
            to_move: lifted.to_move,
        }
    }
}

/// `s` moved square by square by `t`: heights and domes written in square order
/// (a later square wins a shared target), builders moved as masks.
pub open spec fn spec_transform_state(s: State, t: SlotTransform) -> State {
    let carried = carry_upto(s, t, s, 25);
    State {
        builders: [Packed1(image(t, s.builders[0].0)), Packed1(image(t, s.builders[1].0))],
        building_major: carried.building_major,
        building_minor: carried.building_minor,
        domes: carried.domes,
        to_move: s.to_move,
    }
}

/// The moves `f` gives for the keys below `n`, in key order.
pub open spec fn listing(f: spec_fn(int) -> Option<Move>, n: int) -> Seq<Move>
    decreases n,
{
    if n <= 0 {
        seq![]
    } else {
        match f(n - 1) {
            Some(m) => listing(f, n - 1).push(m),
            None => listing(f, n - 1),
        }
    }
}

/// Keys without a move add nothing to the listing.
pub proof fn lemma_listing_skip(f: spec_fn(int) -> Option<Move>, k1: int, k2: int)
    requires
        0 <= k1 <= k2,
        forall|k: int| k1 <= k < k2 ==> #[trigger] f(k) is None,
    ensures
        listing(f, k2) == listing(f, k1),
    decreases k2 - k1,
{
    if k1 < k2 {
        lemma_listing_skip(f, k1, k2 - 1);
    }
}

/// A listing grows with its bound and never holds more moves than keys.
pub proof fn lemma_listing_len(f: spec_fn(int) -> Option<Move>, k1: int, k2: int)
    requires
        0 <= k1 <= k2,
    ensures
        listing(f, k1).len() <= listing(f, k2).len(),
        listing(f, k2).len() <= k2,
    decreases k2,
{
    if k2 > 0 {
        if k1 < k2 {
            lemma_listing_len(f, k1, k2 - 1);
        } else {
            lemma_listing_len(f, k2 - 1, k2 - 1);
        }
    }
}

/// A move is in the listing exactly when some key below `n` gives it.
pub proof fn lemma_listing_contains(f: spec_fn(int) -> Option<Move>, n: int, m: Move)
    requires
        0 <= n,
    ensures
        listing(f, n).contains(m) <==> exists|k: int| 0 <= k < n && #[trigger] f(k) == Some(m),
    decreases n,
{
    if n > 0 {
        lemma_listing_contains(f, n - 1, m);
        let prev = listing(f, n - 1);
        match f(n - 1) {
            Some(x) => {
                let cur = prev.push(x);
                if cur.contains(m) {
                    let i = choose|i: int| 0 <= i < cur.len() && cur[i] == m;
                    if i < prev.len() {
                        assert(prev[i] == m);
                    } else {
                        assert(f(n - 1) == Some(m));
                    }
                }
                if exists|k: int| 0 <= k < n && #[trigger] f(k) == Some(m) {
                    let k = choose|k: int| 0 <= k < n && #[trigger] f(k) == Some(m);
                    if k == n - 1 {
                        assert(cur[cur.len() - 1] == m);
                    } else {
                        assert(prev.contains(m));
                        let i = choose|i: int| 0 <= i < prev.len() && prev[i] == m;
                        assert(cur[i] == m);
                    }
                }
            },
            None => {
                if exists|k: int| 0 <= k < n && #[trigger] f(k) == Some(m) {
                    let k = choose|k: int| 0 <= k < n && #[trigger] f(k) == Some(m);
                    assert(k != n - 1);
                }
            },
        }
    }
}

/// Square `i` holds no builder and no dome.
pub open spec fn free(s: State, i: int) -> bool {
    0 <= i < 25 && !s.occupied(i as u32)
}

/// The builders of the player to move.
pub open spec fn current(s: State) -> u32 {
    s.builders[s.to_move.0 as int].0
}

/// A move in the moving phase: a builder of the player to move on `from` steps to a
/// free neighbour `to` at most one storey higher, then builds on a neighbour of `to`
/// that is free or is the square just left.
pub open spec fn legal_step(s: State, from: int, to: int, build: int) -> bool {
    &&& 0 <= from < 25
    &&& bit(current(s), from as u32)
    &&& adjacent(from, to)
    &&& free(s, to)
    &&& s.height(to as u32) <= s.height(from as u32) + 1
    &&& adjacent(to, build)
    &&& (free(s, build) || build == from)
}

/// A placement: two different free squares.
pub open spec fn legal_placement(s: State, a: int, b: int) -> bool {
    a != b && free(s, a) && free(s, b)
}

/// The move with key `k` in the order `next_moves_for_player` lists them, if it is legal:
/// while the player to move has no builder, placements by `(a, b)`; after that, steps by
/// `(from, to, build)`.
pub open spec fn player_move_at(s: State, k: int) -> Option<Move> {
    if current(s) == 0 {
        let a = k / 25;
        let b = k % 25;
        if 0 <= k < 625 && legal_placement(s, a, b) {
            Some(Move::PlaceBuilders { a: Slot(a as i8), b: Slot(b as i8) })
        } else {
            None
        }
    } else {
        let from = k / 625;
        let to = (k / 25) % 25;
        let build = k % 25;
        if 0 <= k < 15625 && legal_step(s, from, to, build) {
            Some(Move::Move { from: Slot(from as i8), to: Slot(to as i8), build: Slot(build as i8) })
        } else {
            None
        }
    }
}

/// Every legal move of the player to move, listed by `next_moves_for_player`'s order.
pub open spec fn spec_player_moves(s: State) -> Seq<Move> {
    listing(|k: int| player_move_at(s, k), 15625)
}

/// A mask with no bit set is zero.
pub proof fn lemma_bits_zero_ext(x: u32)
    requires
        forall|i: u32| i < 32 ==> !#[trigger] bit(x, i),
    ensures
        x == 0,
{
    assert forall|i: u32| i < 32 implies #[trigger] bit(x, i) == bit(0u32, i) by {
        lemma_bit_zero(i);
    }
    crate::bits::lemma_bits_ext(x, 0u32);
}

/// Testing one square against a mask with `&`.
pub proof fn lemma_mask_free(m: u32, c: u32, a: u32)
    requires
        a < 32,
        m == 1u32 << a,
    ensures
        (m & c == 0) == !bit(c, a),
{
    assert forall|i: u32| i < 32 && i != a implies !#[trigger] bit(m & c, i) by {
        lemma_bit_and(m, c, i);
        lemma_bit_single(a, i);
    }
    lemma_bit_and(m, c, a);
    lemma_bit_single(a, a);
    if !bit(c, a) {
        lemma_bits_zero_ext(m & c);
    } else {
        lemma_bit_zero(a);
    }
}

proof fn lemma_key3(a: int, b: int, c: int)
    requires
        0 <= a < 25,
        0 <= b < 25,
        0 <= c < 25,
    ensures
        (a * 625 + b * 25 + c) / 625 == a,
        ((a * 625 + b * 25 + c) / 25) % 25 == b,
        (a * 625 + b * 25 + c) % 25 == c,
{
    assert((a * 625 + b * 25 + c) / 625 == a) by (nonlinear_arith)
        requires 0 <= a < 25, 0 <= b < 25, 0 <= c < 25;
    assert((a * 625 + b * 25 + c) / 25 == a * 25 + b) by (nonlinear_arith)
        requires 0 <= a < 25, 0 <= b < 25, 0 <= c < 25;
    assert((a * 25 + b) % 25 == b) by (nonlinear_arith)
        requires 0 <= a < 25, 0 <= b < 25;
    assert((a * 625 + b * 25 + c) % 25 == c) by (nonlinear_arith)
        requires 0 <= a < 25, 0 <= b < 25, 0 <= c < 25;
}

/// Adjacency is symmetric.
pub proof fn lemma_adjacent_symmetric(i: int, j: int)
    ensures
        adjacent(i, j) == adjacent(j, i),
{
}

/// The key of a step, read through the masks `next_moves_for_player` tests.
proof fn lemma_player_step_at(board: StandardBoard, s: State, available: u32, from: int, to: int, build: int)
    requires
        board.wf(),
        s.wf(),
        current(s) != 0,
        0 <= from < 25,
        0 <= to < 25,
        0 <= build < 25,
        forall|i: u32| i < 32 ==> #[trigger] bit(available, i) == !s.occupied(i),
    ensures
        player_move_at(s, from * 625 + to * 25 + build) == (if bit(current(s), from as u32)
            && bit(board.packed_adjacencies[from].0 & available, to as u32)
            && s.height(to as u32) <= s.height(from as u32) + 1
            && bit((board.packed_adjacencies[to].0 & available) ^ (1u32 << from as u32), build as u32) {
            Some(Move::Move { from: Slot(from as i8), to: Slot(to as i8), build: Slot(build as i8) })
        } else {
            None
        }),
{
    lemma_key3(from, to, build);
    lemma_bit_and(board.packed_adjacencies[from].0, available, to as u32);
    lemma_bit_xor(board.packed_adjacencies[to].0 & available, 1u32 << from as u32, build as u32);
    lemma_bit_and(board.packed_adjacencies[to].0, available, build as u32);
    lemma_bit_single(from as u32, build as u32);
    lemma_adjacent_symmetric(from, to);
    if bit(current(s), from as u32) {
        assert(s.occupied(from as u32));
    }
}

/// The move with key `k` in the order `next_moves` lists steps, if it is legal: by
/// destination height (highest first), then `from`, then `to`, then the height built on
/// (highest first), then the square built on.
pub open spec fn step_at(s: State, k: int) -> Option<Move> {
    let build = k % 25;
    let bp = (k / 25) % 4;
    let to = (k / 100) % 25;
    let from = (k / 2500) % 25;
    let hp = k / 62500;
    if 0 <= k < 250000 && legal_step(s, from, to, build) && s.height(to as u32) == 3 - hp
        && s.height(build as u32) == 3 - bp {
        Some(Move::Move { from: Slot(from as i8), to: Slot(to as i8), build: Slot(build as i8) })
    } else {
        None
    }
}

/// The key of a step in `next_moves`' order.
pub open spec fn step_key(hp: int, from: int, to: int, bp: int, build: int) -> int {
    (((hp * 25 + from) * 25 + to) * 4 + bp) * 25 + build
}

proof fn lemma_step_key(hp: int, from: int, to: int, bp: int, build: int)
    requires
        0 <= hp < 4,
        0 <= from < 25,
        0 <= to < 25,
        0 <= bp < 4,
        0 <= build < 25,
    ensures
        step_key(hp, from, to, bp, build) % 25 == build,
        (step_key(hp, from, to, bp, build) / 25) % 4 == bp,
        (step_key(hp, from, to, bp, build) / 100) % 25 == to,
        (step_key(hp, from, to, bp, build) / 2500) % 25 == from,
        step_key(hp, from, to, bp, build) / 62500 == hp,
        0 <= step_key(hp, from, to, bp, build) < 250000,
{
    let k = step_key(hp, from, to, bp, build);
    assert(k == hp * 62500 + from * 2500 + to * 100 + bp * 25 + build);
    assert(k % 25 == build && k / 25 == hp * 2500 + from * 100 + to * 4 + bp) by (nonlinear_arith)
        requires k == hp * 62500 + from * 2500 + to * 100 + bp * 25 + build, 0 <= build < 25, 0 <= bp < 4, 0 <= to < 25, 0 <= from < 25, 0 <= hp < 4;
    assert((hp * 2500 + from * 100 + to * 4 + bp) % 4 == bp) by (nonlinear_arith)
        requires 0 <= bp < 4, 0 <= to < 25, 0 <= from < 25, 0 <= hp < 4;
    assert(k / 100 == hp * 625 + from * 25 + to && (hp * 625 + from * 25 + to) % 25 == to) by (nonlinear_arith)
        requires k == hp * 62500 + from * 2500 + to * 100 + bp * 25 + build, 0 <= build < 25, 0 <= bp < 4, 0 <= to < 25, 0 <= from < 25, 0 <= hp < 4;
    assert(k / 2500 == hp * 25 + from && (hp * 25 + from) % 25 == from) by (nonlinear_arith)
        requires k == hp * 62500 + from * 2500 + to * 100 + bp * 25 + build, 0 <= build < 25, 0 <= bp < 4, 0 <= to < 25, 0 <= from < 25, 0 <= hp < 4;
    assert(k / 62500 == hp) by (nonlinear_arith)
        requires k == hp * 62500 + from * 2500 + to * 100 + bp * 25 + build, 0 <= build < 25, 0 <= bp < 4, 0 <= to < 25, 0 <= from < 25, 0 <= hp < 4;
}

/// Builders that can climb to height `h`: all for heights 0 and 1, else those standing
/// no lower than `h - 1`.
pub open spec fn can_reach(s: State, from: int, h: int) -> bool {
    bit(current(s), from as u32) && h <= s.height(from as u32) + 1
}

/// A step key, read through the masks `next_moves` tests.
proof fn lemma_step_at(board: StandardBoard, s: State, available: u32, reach: u32, heights_to: u32, heights_build: u32,
    hp: int, from: int, to: int, bp: int, build: int)
    requires
        board.wf(),
        s.wf(),
        current(s) != 0,
        0 <= hp < 4,
        0 <= from < 25,
        0 <= to < 25,
        0 <= bp < 4,
        0 <= build < 25,
        forall|i: u32| i < 32 ==> #[trigger] bit(available, i) == !s.occupied(i),
        forall|i: u32| i < 32 ==> #[trigger] bit(heights_to, i) == (s.height(i) == 3 - hp),
        forall|i: u32| i < 32 ==> #[trigger] bit(heights_build, i) == (s.height(i) == 3 - bp),
        forall|i: u32| i < 25 ==> #[trigger] bit(reach, i) == can_reach(s, i as int, 3 - hp),
    ensures
        step_at(s, step_key(hp, from, to, bp, build)) == (if bit(reach, from as u32)
            && bit((heights_to & available) & board.packed_adjacencies[from].0, to as u32)
            && bit(((board.packed_adjacencies[to].0 & available) ^ (1u32 << from as u32)) & heights_build, build as u32) {
            Some(Move::Move { from: Slot(from as i8), to: Slot(to as i8), build: Slot(build as i8) })
        } else {
            None
        }),
{
    lemma_step_key(hp, from, to, bp, build);
    lemma_bit_and(heights_to & available, board.packed_adjacencies[from].0, to as u32);
    lemma_bit_and(heights_to, available, to as u32);
    lemma_bit_and((board.packed_adjacencies[to].0 & available) ^ (1u32 << from as u32), heights_build, build as u32);
    lemma_bit_xor(board.packed_adjacencies[to].0 & available, 1u32 << from as u32, build as u32);
    lemma_bit_and(board.packed_adjacencies[to].0, available, build as u32);
    lemma_bit_single(from as u32, build as u32);
    lemma_adjacent_symmetric(from, to);
    if bit(current(s), from as u32) {
        assert(s.occupied(from as u32));
    }
}

/// The first square at or after `i` whose bit is set in `mask`; 25 when there is none
/// on the board.
fn next_bit(mask: u32, i: u32) -> (r: u32)
    requires
        i <= 25,
    ensures
        i <= r <= 25,
        forall|j: u32| i <= j < r ==> !#[trigger] bit(mask, j),
        r < 25 ==> bit(mask, r),
{
    let rest = mask >> i;
    if rest == 0 {
        proof {
            assert forall|j: u32| i <= j < 25 implies !#[trigger] bit(mask, j) by {
                crate::bits::lemma_bit_shr(mask, i, (j - i) as u32);
                lemma_bit_zero((j - i) as u32);
            }
        }
        return 25;
    }
    let tz = Packed1(rest).bitscan();
    let t = tz.0 as u32;
    proof {
        assert forall|j: u32| i <= j < i + t implies !#[trigger] bit(mask, j) by {
            crate::bits::lemma_bit_shr(mask, i, (j - i) as u32);
        }
        crate::bits::lemma_bit_shr(mask, i, t);
    }
    if t >= 25 - i {
        25
    } else {
        i + t
    }
}

/// A step key splits into its places.
proof fn lemma_key_split(d: int)
    requires
        0 <= d,
    ensures
        d == (d / 2500) * 2500 + ((d / 100) % 25) * 100 + ((d / 25) % 4) * 25 + d % 25,
        0 <= (d / 100) % 25 < 25,
        0 <= (d / 25) % 4 < 4,
        0 <= d % 25 < 25,
{
    assert(d == 25 * (d / 25) + d % 25) by (nonlinear_arith)
        requires
            0 <= d;
    assert(d / 25 == 4 * (d / 100) + (d / 25) % 4) by (nonlinear_arith)
        requires
            0 <= d;
    assert(d / 100 == 25 * (d / 2500) + (d / 100) % 25) by (nonlinear_arith)
        requires
            0 <= d;
}

/// The facts about the masks `next_moves` reads while listing the steps of destination
/// height `3 - hp`.
pub open spec fn step_masks(s: State, available: u32, reach: u32, heights: [Packed1; 4], hp: int) -> bool {
    &&& forall|i: u32| i < 32 ==> #[trigger] bit(available, i) == !s.occupied(i)
    &&& forall|hh: int, i: u32| 0 <= hh < 4 && i < 32 ==> #[trigger] bit(heights[hh].0, i) == (s.height(i) == hh)
    &&& forall|i: u32| i < 25 ==> #[trigger] bit(reach, i) == can_reach(s, i as int, 3 - hp)
}

/// Builders that cannot reach the height list no step.
proof fn lemma_skip_froms(board: StandardBoard, s: State, available: u32, reach: u32, heights: [Packed1; 4],
    hp: int, f1: int, f2: int)
    requires
        board.wf(),
        s.wf(),
        current(s) != 0,
        0 <= hp < 4,
        0 <= f1 <= f2 <= 25,
        step_masks(s, available, reach, heights, hp),
        forall|j: u32| f1 <= j < f2 ==> !#[trigger] bit(reach, j),
    ensures
        listing(|k: int| step_at(s, k), step_key(hp, f2, 0, 0, 0)) == listing(|k: int| step_at(s, k), step_key(hp, f1, 0, 0, 0)),
{
    let k0 = step_key(hp, f1, 0, 0, 0);
    let k1 = step_key(hp, f2, 0, 0, 0);
    assert forall|k: int| k0 <= k < k1 implies #[trigger] step_at(s, k) is None by {
        let d = k - k0;
        lemma_key_split(d);
        let f = f1 + d / 2500;
        let t = (d / 100) % 25;
        let bp = (d / 25) % 4;
        let b = d % 25;
        assert(d / 2500 < f2 - f1) by (nonlinear_arith)
            requires
                0 <= d < (f2 - f1) * 2500;
        assert(k == step_key(hp, f, t, bp, b));
        lemma_step_at(board, s, available, reach, heights[3 - hp].0, heights[3 - bp].0, hp, f, t, bp, b);
        assert(!bit(reach, f as u32));
    }
    lemma_listing_skip(|k: int| step_at(s, k), k0, k1);
}

/// Destinations a builder cannot step to list no step.
proof fn lemma_skip_tos(board: StandardBoard, s: State, available: u32, reach: u32, heights: [Packed1; 4],
    hp: int, from: int, t1: int, t2: int)
    requires
        board.wf(),
        s.wf(),
        current(s) != 0,
        0 <= hp < 4,
        0 <= from < 25,
        0 <= t1 <= t2 <= 25,
        step_masks(s, available, reach, heights, hp),
        forall|j: u32| t1 <= j < t2 ==> !#[trigger] bit((heights[3 - hp].0 & available) & board.packed_adjacencies[from].0, j),
    ensures
        listing(|k: int| step_at(s, k), step_key(hp, from, t2, 0, 0)) == listing(|k: int| step_at(s, k), step_key(hp, from, t1, 0, 0)),
{
    let k0 = step_key(hp, from, t1, 0, 0);
    let k1 = step_key(hp, from, t2, 0, 0);
    assert forall|k: int| k0 <= k < k1 implies #[trigger] step_at(s, k) is None by {
        let d = k - k0;
        lemma_key_split(d);
        let t = t1 + d / 100;
        let bp = (d / 25) % 4;
        let b = d % 25;
        assert(d / 100 < t2 - t1 && d == (d / 100) * 100 + bp * 25 + b) by (nonlinear_arith)
            requires
                0 <= d < (t2 - t1) * 100,
                d == (d / 2500) * 2500 + ((d / 100) % 25) * 100 + ((d / 25) % 4) * 25 + d % 25,
                bp == (d / 25) % 4,
                b == d % 25;
        assert(k == step_key(hp, from, t, bp, b));
        lemma_step_at(board, s, available, reach, heights[3 - hp].0, heights[3 - bp].0, hp, from, t, bp, b);
    }
    lemma_listing_skip(|k: int| step_at(s, k), k0, k1);
}

/// Squares that cannot be built on list no step.
proof fn lemma_skip_builds(board: StandardBoard, s: State, available: u32, reach: u32, heights: [Packed1; 4],
    hp: int, from: int, to: int, bp: int, b1: int, b2: int)
    requires
        board.wf(),
        s.wf(),
        current(s) != 0,
        0 <= hp < 4,
        0 <= from < 25,
        0 <= to < 25,
        0 <= bp < 4,
        0 <= b1 <= b2 <= 25,
        step_masks(s, available, reach, heights, hp),
        forall|j: u32| b1 <= j < b2 ==> !#[trigger] bit(((board.packed_adjacencies[to].0 & available) ^ (1u32 << from as u32))
            & heights[3 - bp].0, j),
    ensures
        listing(|k: int| step_at(s, k), step_key(hp, from, to, bp, b2)) == listing(|k: int| step_at(s, k), step_key(hp, from, to, bp, b1)),
{
    let k0 = step_key(hp, from, to, bp, b1);
    let k1 = step_key(hp, from, to, bp, b2);
    assert forall|k: int| k0 <= k < k1 implies #[trigger] step_at(s, k) is None by {
        let b = b1 + (k - k0);
        assert(k == step_key(hp, from, to, bp, b));
        lemma_step_at(board, s, available, reach, heights[3 - hp].0, heights[3 - bp].0, hp, from, to, bp, b);
    }
    lemma_listing_skip(|k: int| step_at(s, k), k0, k1);
}

/// Builders of the player to move once it places on `a` and `b`, as the pair of masks
/// (player 0's, player 1's).
pub open spec fn placed_builders(s: State, a: int, b: int) -> (u32, u32) {
    let m = (1u32 << a as u32) | (1u32 << b as u32);
    if s.to_move.0 == 0 { (m, s.builders[1].0) } else { (s.builders[0].0, m) }
}

/// Some symmetry of the board sends `nb` to a pair already in `seen`.
pub open spec fn symmetric_seen(board: StandardBoard, seen: Seq<(u32, u32)>, b0: u32, b1: u32) -> bool {
    exists|t: int| 0 <= t < 7 && #[trigger] seen.contains((image(board.transforms[t], b0), image(board.transforms[t], b1)))
}

/// Pair number `c` is `(c / 25, c % 25)` with `a < b`, both squares free.
pub open spec fn placement_candidate(s: State, c: int) -> bool {
    c / 25 < c % 25 && free(s, c / 25) && free(s, c % 25)
}

/// The placements `next_moves` lists among the first `c` pairs `(c / 25, c % 25)` with
/// `a < b` on free squares, skipping a pair whose builders are a symmetric image of a
/// pair already listed; with the builder pairs listed so far.
pub open spec fn placements_upto(board: StandardBoard, s: State, c: int) -> (Seq<Move>, Seq<(u32, u32)>)
    decreases c,
{
    if c <= 0 {
        (seq![], seq![])
    } else {
        let prev = placements_upto(board, s, c - 1);
        let a = (c - 1) / 25;
        let b = (c - 1) % 25;
        let nb = placed_builders(s, a, b);
        if placement_candidate(s, c - 1) && !symmetric_seen(board, prev.1, nb.0, nb.1) {
            (prev.0.push(Move::PlaceBuilders { a: Slot(a as i8), b: Slot(b as i8) }), prev.1.push(nb))
        } else {
            prev
        }
    }
}

/// The moves `next_moves` lists: placements up to symmetry while the player to move has
/// no builder, else every legal step in its order.
pub open spec fn spec_next_moves(board: StandardBoard, s: State) -> Seq<Move> {
    if current(s) == 0 {
        placements_upto(board, s, 625).0
    } else {
        listing(|k: int| step_at(s, k), 250000)
    }
}

proof fn lemma_placements_skip(board: StandardBoard, s: State, c1: int, c2: int)
    requires
        0 <= c1 <= c2,
        forall|c: int| c1 <= c < c2 ==> !#[trigger] placement_candidate(s, c),
    ensures
        placements_upto(board, s, c2) == placements_upto(board, s, c1),
    decreases c2 - c1,
{
    if c1 < c2 {
        lemma_placements_skip(board, s, c1, c2 - 1);
    }
}

proof fn lemma_placements_len(board: StandardBoard, s: State, c1: int, c2: int)
    requires
        0 <= c1 <= c2,
    ensures
        placements_upto(board, s, c1).0.len() <= placements_upto(board, s, c2).0.len(),
        placements_upto(board, s, c2).0.len() <= c2,
    decreases c2,
{
    if c2 > 0 {
        if c1 < c2 {
            lemma_placements_len(board, s, c1, c2 - 1);
        } else {
            lemma_placements_len(board, s, c2 - 1, c2 - 1);
        }
    }
}

/// The builders of the player to move replaced by `b` (player 0 or 1 to move).
pub open spec fn with_current(s: State, b: u32) -> [Packed1; 2] {
    if s.to_move.0 == 0 { [Packed1(b), s.builders[1]] } else { [s.builders[0], Packed1(b)] }
}

/// The state after `m`: a placement adds both builders; a step moves the builder from
/// `from` to `to` (as an exchange of the two bits) and builds on `build`; then the other
/// player is to move.
pub open spec fn spec_apply(s: State, m: Move) -> State {
    match m {
        Move::PlaceBuilders { a, b } => State {
            builders: with_current(s, current(s) | ((1u32 << a.0 as u32) | (1u32 << b.0 as u32))),
            building_major: s.building_major,
            building_minor: s.building_minor,
            domes: s.domes,
            to_move: s.spec_next_player(),
        },
        Move::Move { from, to, build } => {
            let moved = State {
                builders: with_current(s, current(s) ^ ((1u32 << from.0 as u32) | (1u32 << to.0 as u32))),
                building_major: s.building_major,
                building_minor: s.building_minor,
                domes: s.domes,
                to_move: s.to_move,
            };
            let built = moved.spec_build_at(build.0 as u32);
            State {
                builders: built.builders,
                building_major: built.building_major,
                building_minor: built.building_minor,
                domes: built.domes,
                to_move: s.spec_next_player(),
            }
        },
    }
}

/// The squares a move names are on the 32-bit board.
pub open spec fn move_in_range(m: Move) -> bool {
    match m {
        Move::PlaceBuilders { a, b } => 0 <= a.0 < 32 && 0 <= b.0 < 32,
        Move::Move { from, to, build } => 0 <= from.0 < 32 && 0 <= to.0 < 32 && 0 <= build.0 < 32,
    }
}

/// XOR of `acc` with the keys of player `p`'s builders on the squares of `x` below `n`,
/// taken in square order.
pub open spec fn xor_builders(z: ZobristHash, p: int, x: u32, acc: u64, n: int) -> u64
    decreases n,
{
    if n <= 0 {
        acc
    } else {
        let prev = xor_builders(z, p, x, acc, n - 1);
        if bit(x, (n - 1) as u32) { prev ^ z.builders[p][n - 1].0 } else { prev }
    }
}

/// XOR of `acc` with the key of the hash height of each square below `n`.
pub open spec fn xor_buildings(z: ZobristHash, s: State, acc: u64, n: int) -> u64
    decreases n,
{
    if n <= 0 {
        acc
    } else {
        xor_buildings(z, s, acc, n - 1) ^ z.buildings[n - 1][s.spec_hash_height((n - 1) as u32) as int].0
    }
}

/// The Zobrist hash of a state: the key of the player to move, then the keys of the
/// builders of player 0 and player 1, then the key of each square's hash height.
pub open spec fn spec_hash(z: ZobristHash, s: State) -> u64 {
    xor_buildings(z, s, xor_builders(z, 1, s.builders[1].0, xor_builders(z, 0, s.builders[0].0, z.to_move[s.to_move.0 as int].0, 25), 25), 25)
}

/// The XOR that takes the hash of `s` to the hash after `m`.
pub open spec fn spec_delta_hash(z: ZobristHash, s: State, m: Move) -> u64 {
    let p = s.to_move.0 as int;
    match m {
        Move::PlaceBuilders { a, b } => z.switch_move.0 ^ z.builders[p][a.0 as int].0 ^ z.builders[p][b.0 as int].0,
        Move::Move { from, to, build } => {
            let h = s.spec_hash_height(build.0 as u32) as int;
            z.switch_move.0 ^ z.builders[p][from.0 as int].0 ^ z.builders[p][to.0 as int].0
                ^ z.buildings[build.0 as int][h].0 ^ z.buildings[build.0 as int][h + 1].0
        },
    }
}

/// A step onto a height-3 building; it wins the game.
pub open spec fn spec_ascension(s: State, m: Move) -> bool {
    match m {
        Move::PlaceBuilders { .. } => false,
        Move::Move { to, .. } => s.height(to.0 as u32) == 3,
    }
}

/// Every square a move names is on the board.
pub open spec fn move_on_board(m: Move) -> bool {
    match m {
        Move::PlaceBuilders { a, b } => 0 <= a.0 < 25 && 0 <= b.0 < 25,
        Move::Move { from, to, build } => 0 <= from.0 < 25 && 0 <= to.0 < 25 && 0 <= build.0 < 25,
    }
}

proof fn lemma_placements_on_board(board: StandardBoard, s: State, c: int)
    ensures
        forall|k: int| 0 <= k < placements_upto(board, s, c).0.len() ==> move_on_board(#[trigger] placements_upto(board, s, c).0[k]),
    decreases c,
{
    if c > 0 {
        lemma_placements_on_board(board, s, c - 1);
        let prev = placements_upto(board, s, c - 1).0;
        let cur = placements_upto(board, s, c).0;
        assert forall|k: int| 0 <= k < cur.len() implies move_on_board(#[trigger] cur[k]) by {
            if k < prev.len() {
                assert(cur[k] == prev[k]);
            } else {
                assert(placement_candidate(s, c - 1));
            }
        }
    }
}

/// The moves `next_moves` lists name squares of the board only.
pub proof fn lemma_next_moves_on_board(board: StandardBoard, s: State)
    ensures
        forall|k: int| 0 <= k < spec_next_moves(board, s).len() ==> move_on_board(#[trigger] spec_next_moves(board, s)[k]),
{
    if current(s) == 0 {
        lemma_placements_on_board(board, s, 625);
    } else {
        let f = |k: int| step_at(s, k);
        assert forall|k: int| 0 <= k < spec_next_moves(board, s).len() implies move_on_board(#[trigger] spec_next_moves(board, s)[k]) by {
            let m = listing(f, 250000)[k];
            assert(listing(f, 250000).contains(m));
            lemma_listing_contains(f, 250000, m);
            let key = choose|key: int| 0 <= key < 250000 && #[trigger] f(key) == Some(m);
            assert(step_at(s, key) == Some(m));
        }
    }
}

/// `next_moves` lists at most one move per key.
pub proof fn lemma_next_moves_len(board: StandardBoard, s: State)
    ensures
        spec_next_moves(board, s).len() <= 250000,
{
    if current(s) == 0 {
        lemma_placements_len(board, s, 625, 625);
    } else {
        lemma_listing_len(|k: int| step_at(s, k), 250000, 250000);
    }
}

/// No square holds builders of both players, nor a builder and a dome.
pub open spec fn sane(s: State) -> bool {
    forall|i: u32| i < 32 ==> {
        &&& !(#[trigger] bit(s.builders[0].0, i) && bit(s.builders[1].0, i))
        &&& !(bit(s.domes.0, i) && (bit(s.builders[0].0, i) || bit(s.builders[1].0, i)))
    }
}

/// Whether the searches take `state`: player 0 or 1 to move, every builder on the board,
/// and no square with builders of both players or a builder and a dome.
pub fn searchable(state: &State) -> (r: bool)
    ensures
        r == (state.wf() && sane(*state)),
{
    let b0 = state.builders[0].0;
    let b1 = state.builders[1].0;
    let d = state.domes.0;
    let clash = (b0 & b1) | ((b0 | b1) & d);
    proof {
        assert forall|i: u32| i < 32 implies #[trigger] bit(clash, i) == ((bit(b0, i) && bit(b1, i))
            || (bit(d, i) && (bit(b0, i) || bit(b1, i)))) by {
            lemma_bit_or(b0 & b1, (b0 | b1) & d, i);
            lemma_bit_and(b0, b1, i);
            lemma_bit_and(b0 | b1, d, i);
            lemma_bit_or(b0, b1, i);
        }
        if clash == 0 {
            assert forall|i: u32| i < 32 implies !(#[trigger] bit(b0, i) && bit(b1, i))
                && !(bit(d, i) && (bit(b0, i) || bit(b1, i))) by {
                lemma_bit_zero(i);
            }
        } else {
            if sane(*state) {
                assert forall|i: u32| i < 32 implies #[trigger] bit(clash, i) == bit(0u32, i) by {
                    lemma_bit_zero(i);
                }
                crate::bits::lemma_bits_ext(clash, 0u32);
            }
        }
    }
    (state.to_move.0 == 0 || state.to_move.0 == 1) && b0 < 0x200_0000u32 && b1 < 0x200_0000u32 && clash == 0
}

/// What a listed move is: two different free squares while the player to move has no
/// builder, else a legal step.
pub open spec fn listed_legal(s: State, m: Move) -> bool {
    match m {
        Move::PlaceBuilders { a, b } => current(s) == 0 && legal_placement(s, a.0 as int, b.0 as int),
        Move::Move { from, to, build } => legal_step(s, from.0 as int, to.0 as int, build.0 as int),
    }
}

proof fn lemma_placements_legal(board: StandardBoard, s: State, c: int)
    ensures
        forall|k: int| 0 <= k < placements_upto(board, s, c).0.len() ==> {
            let m = #[trigger] placements_upto(board, s, c).0[k];
            m matches Move::PlaceBuilders { a, b } && legal_placement(s, a.0 as int, b.0 as int)
        },
    decreases c,
{
    if c > 0 {
        lemma_placements_legal(board, s, c - 1);
        let prev = placements_upto(board, s, c - 1).0;
        let cur = placements_upto(board, s, c).0;
        assert forall|k: int| 0 <= k < cur.len() implies {
            let m = #[trigger] cur[k];
            m matches Move::PlaceBuilders { a, b } && legal_placement(s, a.0 as int, b.0 as int)
        } by {
            if k < prev.len() {
                assert(cur[k] == prev[k]);
            } else {
                assert(placement_candidate(s, c - 1));
            }
        }
    }
}

/// The moves `next_moves` lists are legal.
pub proof fn lemma_next_moves_legal(board: StandardBoard, s: State)
    ensures
        forall|k: int| 0 <= k < spec_next_moves(board, s).len() ==> listed_legal(s, #[trigger] spec_next_moves(board, s)[k]),
{
    if current(s) == 0 {
        lemma_placements_legal(board, s, 625);
    } else {
        let f = |k: int| step_at(s, k);
        assert forall|k: int| 0 <= k < spec_next_moves(board, s).len() implies listed_legal(s, #[trigger] spec_next_moves(board, s)[k]) by {
            let m = listing(f, 250000)[k];
            assert(listing(f, 250000).contains(m));
            lemma_listing_contains(f, 250000, m);
            let key = choose|key: int| 0 <= key < 250000 && #[trigger] f(key) == Some(m);
            assert(step_at(s, key) == Some(m));
        }
    }
}

/// The image of the builder pair `p` under symmetry number `t`.
pub open spec fn pair_image(board: StandardBoard, t: int, p: (u32, u32)) -> (u32, u32) {
    (image(board.transforms[t], p.0), image(board.transforms[t], p.1))
}

proof fn lemma_placements_seen(board: StandardBoard, s: State, c: int)
    ensures
        ({
            let (ms, seen) = placements_upto(board, s, c);
            &&& ms.len() == seen.len()
            &&& forall|k: int| 0 <= k < ms.len() ==> (#[trigger] ms[k] matches Move::PlaceBuilders { a, b }
                && 0 <= a.0 < 25 && 0 <= b.0 < 25 && seen[k] == placed_builders(s, a.0 as int, b.0 as int))
            &&& forall|i: int, j: int, t: int| 0 <= i < j < seen.len() && 0 <= t < 7
                ==> #[trigger] pair_image(board, t, seen[j]) != #[trigger] seen[i]
        }),
    decreases c,
{
    if c > 0 {
        lemma_placements_seen(board, s, c - 1);
        let prev = placements_upto(board, s, c - 1);
        let cur = placements_upto(board, s, c);
        let a = (c - 1) / 25;
        let b = (c - 1) % 25;
        let nb = placed_builders(s, a, b);
        if placement_candidate(s, c - 1) && !symmetric_seen(board, prev.1, nb.0, nb.1) {
            assert forall|k: int| 0 <= k < cur.0.len() implies (#[trigger] cur.0[k] matches Move::PlaceBuilders { a, b }
                && 0 <= a.0 < 25 && 0 <= b.0 < 25 && cur.1[k] == placed_builders(s, a.0 as int, b.0 as int)) by {
                if k < prev.0.len() {
                    assert(cur.0[k] == prev.0[k]);
                    assert(cur.1[k] == prev.1[k]);
                }
            }
            assert forall|i: int, j: int, t: int| 0 <= i < j < cur.1.len() && 0 <= t < 7
                implies #[trigger] pair_image(board, t, cur.1[j]) != #[trigger] cur.1[i] by {
                assert(cur.1[i] == prev.1[i]);
                if j < prev.1.len() {
                    assert(cur.1[j] == prev.1[j]);
                } else {
                    assert(cur.1[j] == nb);
                    if pair_image(board, t, nb) == prev.1[i] {
                        assert(prev.1.contains((image(board.transforms[t], nb.0), image(board.transforms[t], nb.1))));
                    }
                }
            }
        }
    }
}

/// `next_moves` lists placements up to the symmetries of the board: no placement it
/// lists puts the builders on the image, under one of the seven symmetries, of the
/// squares of a placement listed before it.
pub proof fn lemma_placements_up_to_symmetry(board: StandardBoard, s: State, i: int, j: int, t: int)
    requires
        current(s) == 0,
        0 <= i < j < spec_next_moves(board, s).len(),
        0 <= t < 7,
    ensures
        ({
            let ms = spec_next_moves(board, s);
            &&& ms[i] matches Move::PlaceBuilders { a: ai, b: bi }
            &&& ms[j] matches Move::PlaceBuilders { a: aj, b: bj }
            &&& pair_image(board, t, placed_builders(s, aj.0 as int, bj.0 as int)) != placed_builders(s, ai.0 as int, bi.0 as int)
        }),
{
    lemma_placements_seen(board, s, 625);
    let (ms, seen) = placements_upto(board, s, 625);
    assert(ms[i] matches Move::PlaceBuilders { .. });
    assert(ms[j] matches Move::PlaceBuilders { .. });
    assert(pair_image(board, t, seen[j]) != seen[i]);
}

proof fn lemma_placements_grow(board: StandardBoard, s: State, c1: int, c2: int)
    requires
        0 <= c1 <= c2,
    ensures
        placements_upto(board, s, c1).1.len() <= placements_upto(board, s, c2).1.len(),
        forall|k: int| 0 <= k < placements_upto(board, s, c1).1.len()
            ==> #[trigger] placements_upto(board, s, c2).1[k] == placements_upto(board, s, c1).1[k],
    decreases c2 - c1,
{
    if c1 < c2 {
        lemma_placements_grow(board, s, c1, c2 - 1);
        let mid = placements_upto(board, s, c2 - 1).1;
        let last = placements_upto(board, s, c2).1;
        assert forall|k: int| 0 <= k < mid.len() implies #[trigger] last[k] == mid[k] by {}
    }
}

/// `next_moves` covers every placement: a placement on two free squares `a < b` is
/// listed, or the squares of a listed placement are its image under one of the seven
/// symmetries of the board.
pub proof fn lemma_placements_cover(board: StandardBoard, s: State, a: int, b: int)
    requires
        current(s) == 0,
        0 <= a < b < 25,
        legal_placement(s, a, b),
    ensures
        exists|k: int| #![trigger spec_next_moves(board, s)[k]]
            0 <= k < spec_next_moves(board, s).len() && (spec_next_moves(board, s)[k] matches Move::PlaceBuilders { a: x, b: y }
            && (placed_builders(s, x.0 as int, y.0 as int) == placed_builders(s, a, b)
                || exists|t: int| 0 <= t < 7 && #[trigger] pair_image(board, t, placed_builders(s, a, b)) == placed_builders(s, x.0 as int, y.0 as int))),
{
    let c = a * 25 + b;
    assert(c / 25 == a && c % 25 == b);
    lemma_placements_seen(board, s, 625);
    lemma_placements_seen(board, s, c + 1);
    lemma_placements_grow(board, s, c, c + 1);
    lemma_placements_grow(board, s, c + 1, 625);
    let prev = placements_upto(board, s, c);
    let cur = placements_upto(board, s, c + 1);
    let all = placements_upto(board, s, 625);
    let p = placed_builders(s, a, b);
    assert(placement_candidate(s, c));
    let ms = spec_next_moves(board, s);
    assert(ms == all.0);
    if !symmetric_seen(board, prev.1, p.0, p.1) {
        let k = prev.1.len() as int;
        assert(cur.1[k] == p);
        assert(all.1[k] == cur.1[k]);
        assert(ms[k] matches Move::PlaceBuilders { a: x, b: y } && placed_builders(s, x.0 as int, y.0 as int) == p);
    } else {
        let t = choose|t: int| 0 <= t < 7 && #[trigger] prev.1.contains((image(board.transforms[t], p.0), image(board.transforms[t], p.1)));
        let k = choose|k: int| 0 <= k < prev.1.len() && prev.1[k] == (image(board.transforms[t], p.0), image(board.transforms[t], p.1));
        assert(cur.1[k] == prev.1[k]);
        assert(all.1[k] == cur.1[k]);
        assert(pair_image(board, t, p) == all.1[k]);
        assert(ms[k] matches Move::PlaceBuilders { a: x, b: y } && pair_image(board, t, p) == placed_builders(s, x.0 as int, y.0 as int));
    }
}

/// A legal move keeps a sane position sane, and never builds on a dome.
pub proof fn lemma_apply_sane(s: State, m: Move)
    requires
        s.wf(),
        sane(s),
        move_on_board(m),
        listed_legal(s, m),
    ensures
        sane(spec_apply(s, m)),
        m matches Move::Move { build, .. } ==> s.spec_hash_height(build.0 as u32) < 4,
{
    let r = spec_apply(s, m);
    match m {
        Move::PlaceBuilders { a, b } => {
            let x = (1u32 << a.0 as u32) | (1u32 << b.0 as u32);
            assert forall|i: u32| i < 32 implies {
                &&& !(#[trigger] bit(r.builders[0].0, i) && bit(r.builders[1].0, i))
                &&& !(bit(r.domes.0, i) && (bit(r.builders[0].0, i) || bit(r.builders[1].0, i)))
            } by {
                lemma_bit_or(current(s), x, i);
                lemma_bit_or(1u32 << a.0 as u32, 1u32 << b.0 as u32, i);
                lemma_bit_single(a.0 as u32, i);
                lemma_bit_single(b.0 as u32, i);
            }
        },
        Move::Move { from, to, build } => {
            let x = (1u32 << from.0 as u32) | (1u32 << to.0 as u32);
            let moved = State { builders: with_current(s, current(s) ^ x), ..s };
            assert forall|i: u32| i < 32 implies {
                &&& !(#[trigger] bit(r.builders[0].0, i) && bit(r.builders[1].0, i))
                &&& !(bit(r.domes.0, i) && (bit(r.builders[0].0, i) || bit(r.builders[1].0, i)))
            } by {
                lemma_bit_xor(current(s), x, i);
                lemma_bit_or(1u32 << from.0 as u32, 1u32 << to.0 as u32, i);
                lemma_bit_single(from.0 as u32, i);
                lemma_bit_single(to.0 as u32, i);
                lemma_bit_xor(s.domes.0, 1u32 << build.0 as u32, i);
                lemma_bit_single(build.0 as u32, i);
                assert(bit(s.domes.0, i) ==> !bit(s.builders[0].0, i) && !bit(s.builders[1].0, i));
            }
        },
    }
}

/// A legal move of the player to move: while it has no builder, a placement on two
/// different free squares; after that, a step of one of its builders to a free
/// neighbour at most one storey higher, building on a neighbour of the destination that
/// is free or was just left.
pub open spec fn player_legal(s: State, m: Move) -> bool {
    match m {
        Move::PlaceBuilders { a, b } => current(s) == 0 && legal_placement(s, a.0 as int, b.0 as int),
        Move::Move { from, to, build } => current(s) != 0 && legal_step(s, from.0 as int, to.0 as int, build.0 as int),
    }
}

/// `next_moves_for_player` lists exactly the legal moves of the player to move.
pub proof fn lemma_player_moves_exactly_legal(s: State, m: Move)
    requires
        s.wf(),
    ensures
        spec_player_moves(s).contains(m) <==> player_legal(s, m),
{
    let f = |k: int| player_move_at(s, k);
    lemma_listing_contains(f, 15625, m);
    if spec_player_moves(s).contains(m) {
        let k = choose|k: int| 0 <= k < 15625 && #[trigger] f(k) == Some(m);
        assert(player_move_at(s, k) == Some(m));
    }
    if player_legal(s, m) {
        match m {
            Move::PlaceBuilders { a, b } => {
                let k = a.0 * 25 + b.0;
                assert(k / 25 == a.0 && k % 25 == b.0);
                assert(f(k) == Some(m));
            },
            Move::Move { from, to, build } => {
                lemma_adjacent_symmetric(from.0 as int, to.0 as int);
                let k = from.0 * 625 + to.0 * 25 + build.0;
                assert(k / 625 == from.0 && (k / 25) % 25 == to.0 && k % 25 == build.0) by (nonlinear_arith)
                    requires
                        k == from.0 * 625 + to.0 * 25 + build.0,
                        0 <= from.0 < 25,
                        0 <= to.0 < 25,
                        0 <= build.0 < 25;
                assert(f(k) == Some(m));
            },
        }
    }
}

/// `next_moves` lists legal moves only; once the player to move has a builder, it lists
/// every legal step.
pub proof fn lemma_next_moves_legal_steps(board: StandardBoard, s: State, m: Move)
    requires
        s.wf(),
    ensures
        spec_next_moves(board, s).contains(m) ==> player_legal(s, m),
        current(s) != 0 ==> (spec_next_moves(board, s).contains(m) <==> player_legal(s, m)),
{
    lemma_next_moves_legal(board, s);
    if spec_next_moves(board, s).contains(m) {
        let i = choose|i: int| 0 <= i < spec_next_moves(board, s).len() && spec_next_moves(board, s)[i] == m;
        assert(listed_legal(s, spec_next_moves(board, s)[i]));
        if let Move::Move { from, .. } = m {
            lemma_bit_zero(from.0 as u32);
        }
    }
    if current(s) != 0 {
        let f = |k: int| step_at(s, k);
        lemma_listing_contains(f, 250000, m);
        if player_legal(s, m) {
            match m {
                Move::Move { from, to, build } => {
                    lemma_adjacent_symmetric(from.0 as int, to.0 as int);
                    lemma_adjacent_symmetric(to.0 as int, build.0 as int);
                    let hp = 3 - s.height(to.0 as u32);
                    let bp = 3 - s.height(build.0 as u32);
                    lemma_step_key(hp, from.0 as int, to.0 as int, bp, build.0 as int);
                    let k = step_key(hp, from.0 as int, to.0 as int, bp, build.0 as int);
                    assert(f(k) == Some(m));
                },
                _ => {},
            }
        }
    }
}

/// A listing whose keys give different moves holds no move twice.
pub proof fn lemma_listing_no_duplicates(f: spec_fn(int) -> Option<Move>, n: int)
    requires
        0 <= n,
        forall|k1: int, k2: int| 0 <= k1 < n && 0 <= k2 < n && #[trigger] f(k1) == #[trigger] f(k2) && f(k1) is Some
            ==> k1 == k2,
    ensures
        listing(f, n).no_duplicates(),
    decreases n,
{
    if n > 0 {
        lemma_listing_no_duplicates(f, n - 1);
        let prev = listing(f, n - 1);
        if let Some(m) = f(n - 1) {
            lemma_listing_contains(f, n - 1, m);
            if prev.contains(m) {
                let k = choose|k: int| 0 <= k < n - 1 && #[trigger] f(k) == Some(m);
                assert(f(k) == f(n - 1));
            }
            let cur = prev.push(m);
            assert forall|i: int, j: int| 0 <= i < cur.len() && 0 <= j < cur.len() && i != j implies cur[i] != cur[j] by {
                if i == prev.len() {
                    assert(prev[j] == cur[j]);
                } else if j == prev.len() {
                    assert(prev[i] == cur[i]);
                }
            }
        }
    }
}

/// A number below 250000 is the step key of its digits.
proof fn lemma_step_key_of(k: int)
    requires
        0 <= k < 250000,
    ensures
        k == step_key(k / 62500, (k / 2500) % 25, (k / 100) % 25, (k / 25) % 4, k % 25),
{
    let q1 = k / 25;
    let q2 = k / 100;
    let q3 = k / 2500;
    vstd::arithmetic::div_mod::lemma_fundamental_div_mod(k, 25);
    vstd::arithmetic::div_mod::lemma_fundamental_div_mod(q1, 4);
    vstd::arithmetic::div_mod::lemma_div_denominator(k, 25, 4);
    vstd::arithmetic::div_mod::lemma_fundamental_div_mod(q2, 25);
    vstd::arithmetic::div_mod::lemma_div_denominator(k, 100, 25);
    vstd::arithmetic::div_mod::lemma_fundamental_div_mod(q3, 25);
    vstd::arithmetic::div_mod::lemma_div_denominator(k, 2500, 25);
    assert(q1 / 4 == q2);
    assert(q2 / 25 == q3);
    assert(q3 / 25 == k / 62500);
}

/// Two keys that give the same step are the same key.
proof fn lemma_step_at_one_key(s: State, k1: int, k2: int)
    requires
        step_at(s, k1) is Some,
        step_at(s, k1) == step_at(s, k2),
    ensures
        k1 == k2,
{
    lemma_step_key_of(k1);
    lemma_step_key_of(k2);
}

/// Two keys that give the same move of `next_moves_for_player`'s order are the same key.
proof fn lemma_player_move_one_key(s: State, k1: int, k2: int)
    requires
        player_move_at(s, k1) is Some,
        player_move_at(s, k1) == player_move_at(s, k2),
    ensures
        k1 == k2,
{
    vstd::arithmetic::div_mod::lemma_fundamental_div_mod(k1, 25);
    vstd::arithmetic::div_mod::lemma_fundamental_div_mod(k2, 25);
    vstd::arithmetic::div_mod::lemma_fundamental_div_mod(k1 / 25, 25);
    vstd::arithmetic::div_mod::lemma_fundamental_div_mod(k2 / 25, 25);
    if k1 >= 0 && k2 >= 0 {
        vstd::arithmetic::div_mod::lemma_div_denominator(k1, 25, 25);
        vstd::arithmetic::div_mod::lemma_div_denominator(k2, 25, 25);
    }
}

/// The number of the square pair a placement names.
pub open spec fn placement_key(m: Move) -> int {
    match m {
        Move::PlaceBuilders { a, b } => a.0 * 25 + b.0,
        _ => -1,
    }
}

/// The placements listed among the first `c` pairs are placements of pairs below `c`,
/// none listed twice.
proof fn lemma_placements_distinct(board: StandardBoard, s: State, c: int)
    requires
        0 <= c <= 625,
    ensures
        placements_upto(board, s, c).0.no_duplicates(),
        forall|j: int| 0 <= j < placements_upto(board, s, c).0.len() ==> 0 <= #[trigger] placement_key(
            placements_upto(board, s, c).0[j]) < c,
    decreases c,
{
    if c > 0 {
        lemma_placements_distinct(board, s, c - 1);
        let prev = placements_upto(board, s, c - 1);
        let a = (c - 1) / 25;
        let b = (c - 1) % 25;
        vstd::arithmetic::div_mod::lemma_fundamental_div_mod(c - 1, 25);
        let m = Move::PlaceBuilders { a: Slot(a as i8), b: Slot(b as i8) };
        assert(placement_key(m) == c - 1);
        let cur = prev.0.push(m);
        assert forall|i: int, j: int| 0 <= i < cur.len() && 0 <= j < cur.len() && i != j implies cur[i] != cur[j] by {
            if i == prev.0.len() {
                assert(placement_key(prev.0[j]) < c - 1);
            } else if j == prev.0.len() {
                assert(placement_key(prev.0[i]) < c - 1);
            } else {
                assert(prev.0[i] == cur[i] && prev.0[j] == cur[j]);
            }
        }
        assert forall|j: int| 0 <= j < cur.len() implies 0 <= #[trigger] placement_key(cur[j]) < c by {
            if j < prev.0.len() {
                assert(cur[j] == prev.0[j]);
            }
        }
    }
}

/// `next_moves` lists no move twice.
pub proof fn lemma_next_moves_no_duplicates(board: StandardBoard, s: State)
    ensures
        spec_next_moves(board, s).no_duplicates(),
{
    if current(s) == 0 {
        lemma_placements_distinct(board, s, 625);
    } else {
        let f = |k: int| step_at(s, k);
        assert forall|k1: int, k2: int| 0 <= k1 < 250000 && 0 <= k2 < 250000 && #[trigger] f(k1) == #[trigger] f(k2)
            && f(k1) is Some implies k1 == k2 by {
            lemma_step_at_one_key(s, k1, k2);
        }
        lemma_listing_no_duplicates(f, 250000);
    }
}

/// `next_moves_for_player` lists no move twice.
pub proof fn lemma_player_moves_no_duplicates(s: State)
    ensures
        spec_player_moves(s).no_duplicates(),
{
    let f = |k: int| player_move_at(s, k);
    assert forall|k1: int, k2: int| 0 <= k1 < 15625 && 0 <= k2 < 15625 && #[trigger] f(k1) == #[trigger] f(k2)
        && f(k1) is Some implies k1 == k2 by {
        lemma_player_move_one_key(s, k1, k2);
    }
    lemma_listing_no_duplicates(f, 15625);
}

/// Once the player to move has a builder, `next_moves` and `next_moves_for_player` list
/// the same moves, each once, in different orders.
pub proof fn lemma_next_moves_same_as_player_moves(board: StandardBoard, s: State)
    requires
        s.wf(),
        current(s) != 0,
    ensures
        spec_next_moves(board, s).to_multiset() == spec_player_moves(s).to_multiset(),
{
    let a = spec_next_moves(board, s);
    let b = spec_player_moves(s);
    lemma_next_moves_no_duplicates(board, s);
    lemma_player_moves_no_duplicates(s);
    a.lemma_multiset_has_no_duplicates();
    b.lemma_multiset_has_no_duplicates();
    assert forall|m: Move| a.to_multiset().count(m) == b.to_multiset().count(m) by {
        lemma_next_moves_legal_steps(board, s, m);
        lemma_player_moves_exactly_legal(s, m);
        vstd::seq_lib::to_multiset_contains(a, m);
        vstd::seq_lib::to_multiset_contains(b, m);
    }
    assert(a.to_multiset() =~= b.to_multiset());
}

/// Adding or exchanging bits of two squares keeps a mask on the 25 squares.
proof fn lemma_mask_stays_small(x: u32, a: u32, b: u32, exchange: bool)
    requires
        x < 0x200_0000u32,
        a < 25,
        b < 25,
    ensures
        (if exchange { x ^ ((1u32 << a) | (1u32 << b)) } else { x | ((1u32 << a) | (1u32 << b)) }) < 0x200_0000u32,
{
    let m = (1u32 << a) | (1u32 << b);
    let y = if exchange { x ^ m } else { x | m };
    assert forall|i: u32| 25 <= i < 32 implies !#[trigger] bit(y, i) by {
        lemma_bit_or(1u32 << a, 1u32 << b, i);
        lemma_bit_single(a, i);
        lemma_bit_single(b, i);
        lemma_bit_small(x, i);
        lemma_bit_xor(x, m, i);
        lemma_bit_or(x, m, i);
    }
    crate::bits::lemma_small_from_bits(y);
}

/// A move on the board leads from a well-formed state to a well-formed state.
pub proof fn lemma_apply_wf(s: State, m: Move)
    requires
        s.wf(),
        move_on_board(m),
    ensures
        spec_apply(s, m).wf(),
{
    match m {
        Move::PlaceBuilders { a, b } => {
            lemma_mask_stays_small(current(s), a.0 as u32, b.0 as u32, false);
        },
        Move::Move { from, to, build } => {
            lemma_mask_stays_small(current(s), from.0 as u32, to.0 as u32, true);
        },
    }
}

proof fn lemma_xor(a: u64, b: u64, c: u64)
    ensures
        a ^ 0 == a,
        0 ^ a == a,
        (a ^ b) ^ c == a ^ (b ^ c),
        a ^ b == b ^ a,
        a ^ a == 0,
{
    assert(a ^ 0 == a && 0 ^ a == a && (a ^ b) ^ c == a ^ (b ^ c) && a ^ b == b ^ a && a ^ a == 0) by (bit_vector);
}

proof fn lemma_switch(a: u64, b: u64)
    ensures
        a ^ (a ^ b) == b,
        b ^ (a ^ b) == a,
{
    assert(a ^ (a ^ b) == b && b ^ (a ^ b) == a) by (bit_vector);
}

proof fn lemma_xor_builders_acc(z: ZobristHash, p: int, x: u32, acc: u64, n: int)
    ensures
        xor_builders(z, p, x, acc, n) == acc ^ xor_builders(z, p, x, 0, n),
    decreases n,
{
    lemma_xor(acc, 0, 0);
    if n > 0 {
        lemma_xor_builders_acc(z, p, x, acc, n - 1);
        lemma_xor(acc, xor_builders(z, p, x, 0, n - 1), z.builders[p][n - 1].0);
    }
}

proof fn lemma_xor_builders_toggle(z: ZobristHash, p: int, x: u32, y: u32, j: int, n: int)
    requires
        0 <= j < n <= 32,
        forall|i: u32| i < 32 ==> #[trigger] bit(y, i) == (bit(x, i) != (i == j)),
    ensures
        xor_builders(z, p, y, 0, n) == xor_builders(z, p, x, 0, n) ^ z.builders[p][j].0,
    decreases n,
{
    let k = z.builders[p][j].0;
    if n - 1 == j {
        lemma_xor_builders_congr(z, p, x, y, 0, j);
        let a = xor_builders(z, p, x, 0, j);
        assert(bit(y, j as u32) == !bit(x, j as u32));
        lemma_xor(a, k, k);
        lemma_xor(k, 0, 0);
        lemma_xor(a, 0, 0);
    } else {
        assert(bit(y, (n - 1) as u32) == bit(x, (n - 1) as u32));
        lemma_xor_builders_toggle(z, p, x, y, j, n - 1);
        let a = xor_builders(z, p, x, 0, n - 1);
        let kn = z.builders[p][n - 1].0;
        lemma_xor(a, k, kn);
        lemma_xor(a, kn, k);
        lemma_xor(k, kn, 0);
    }
}

proof fn lemma_xor_builders_congr(z: ZobristHash, p: int, x: u32, y: u32, acc: u64, n: int)
    requires
        n <= 32,
        forall|i: u32| i < n ==> #[trigger] bit(x, i) == bit(y, i),
    ensures
        xor_builders(z, p, x, acc, n) == xor_builders(z, p, y, acc, n),
    decreases n,
{
    if n > 0 {
        lemma_xor_builders_congr(z, p, x, y, acc, n - 1);
        assert(bit(x, (n - 1) as u32) == bit(y, (n - 1) as u32));
    }
}

proof fn lemma_xor_buildings_acc(z: ZobristHash, s: State, acc: u64, n: int)
    ensures
        xor_buildings(z, s, acc, n) == acc ^ xor_buildings(z, s, 0, n),
    decreases n,
{
    lemma_xor(acc, 0, 0);
    if n > 0 {
        lemma_xor_buildings_acc(z, s, acc, n - 1);
        lemma_xor(acc, xor_buildings(z, s, 0, n - 1), z.buildings[n - 1][s.spec_hash_height((n - 1) as u32) as int].0);
    }
}

proof fn lemma_xor_buildings_change(z: ZobristHash, s: State, s2: State, j: int, n: int)
    requires
        0 <= j < n <= 32,
        forall|i: u32| i < 32 && i != j ==> #[trigger] s2.spec_hash_height(i) == s.spec_hash_height(i),
    ensures
        xor_buildings(z, s2, 0, n) == xor_buildings(z, s, 0, n) ^ (z.buildings[j][s.spec_hash_height(j as u32) as int].0
            ^ z.buildings[j][s2.spec_hash_height(j as u32) as int].0),
    decreases n,
{
    let k1 = z.buildings[j][s.spec_hash_height(j as u32) as int].0;
    let k2 = z.buildings[j][s2.spec_hash_height(j as u32) as int].0;
    if n - 1 == j {
        lemma_xor_buildings_same(z, s, s2, j);
        let a = xor_buildings(z, s, 0, j);
        lemma_xor(a, k1, k1 ^ k2);
        lemma_xor(k1, k1, k2);
        lemma_xor(k1, 0, 0);
        lemma_xor(k2, 0, 0);
    } else {
        lemma_xor_buildings_change(z, s, s2, j, n - 1);
        let a = xor_buildings(z, s, 0, n - 1);
        let kn = z.buildings[n - 1][s.spec_hash_height((n - 1) as u32) as int].0;
        assert(s2.spec_hash_height((n - 1) as u32) == s.spec_hash_height((n - 1) as u32));
        lemma_xor(a, k1 ^ k2, kn);
        lemma_xor(a, kn, k1 ^ k2);
        lemma_xor(k1 ^ k2, kn, 0);
    }
}

proof fn lemma_xor_buildings_same(z: ZobristHash, s: State, s2: State, n: int)
    requires
        n <= 32,
        forall|i: u32| i < n ==> #[trigger] s2.spec_hash_height(i) == s.spec_hash_height(i),
    ensures
        xor_buildings(z, s2, 0, n) == xor_buildings(z, s, 0, n),
    decreases n,
{
    if n > 0 {
        lemma_xor_buildings_same(z, s, s2, n - 1);
        assert(s2.spec_hash_height((n - 1) as u32) == s.spec_hash_height((n - 1) as u32));
    }
}

/// The hash of a position as the XOR of its three parts.
proof fn lemma_hash_parts(z: ZobristHash, s: State)
    ensures
        spec_hash(z, s) == z.to_move[s.to_move.0 as int].0 ^ (xor_builders(z, 0, s.builders[0].0, 0, 25)
            ^ (xor_builders(z, 1, s.builders[1].0, 0, 25) ^ xor_buildings(z, s, 0, 25))),
{
    let t = z.to_move[s.to_move.0 as int].0;
    let b0 = xor_builders(z, 0, s.builders[0].0, 0, 25);
    let b1 = xor_builders(z, 1, s.builders[1].0, 0, 25);
    let w = xor_buildings(z, s, 0, 25);
    lemma_xor_builders_acc(z, 0, s.builders[0].0, t, 25);
    lemma_xor_builders_acc(z, 1, s.builders[1].0, t ^ b0, 25);
    lemma_xor_buildings_acc(z, s, (t ^ b0) ^ b1, 25);
    lemma_xor(t, b0, b1);
    lemma_xor(t ^ b0, b1, w);
    lemma_xor(t, b0 ^ b1, w);
    lemma_xor(b0, b1, w);
}

proof fn lemma_xor_regroup(t: u64, sw: u64, bp: u64, ka: u64, kb: u64, bq: u64, w: u64, first: bool)
    ensures
        (t ^ sw) ^ ((if first { (bp ^ ka) ^ kb } else { bq }) ^ ((if first { bq } else { (bp ^ ka) ^ kb }) ^ w))
            == (t ^ ((if first { bp } else { bq }) ^ ((if first { bq } else { bp }) ^ w))) ^ ((sw ^ ka) ^ kb),
{
    assert((t ^ sw) ^ ((if first { (bp ^ ka) ^ kb } else { bq }) ^ ((if first { bq } else { (bp ^ ka) ^ kb }) ^ w))
        == (t ^ ((if first { bp } else { bq }) ^ ((if first { bq } else { bp }) ^ w))) ^ ((sw ^ ka) ^ kb)) by (bit_vector);
}

proof fn lemma_xor_regroup2(t: u64, sw: u64, bp: u64, kf: u64, kt: u64, bq: u64, w: u64, k1: u64, k2: u64, first: bool)
    ensures
        (t ^ sw) ^ ((if first { (bp ^ kf) ^ kt } else { bq }) ^ ((if first { bq } else { (bp ^ kf) ^ kt }) ^ (w ^ (k1 ^ k2))))
            == (t ^ ((if first { bp } else { bq }) ^ ((if first { bq } else { bp }) ^ w))) ^ ((((sw ^ kf) ^ kt) ^ k1) ^ k2),
{
    assert((t ^ sw) ^ ((if first { (bp ^ kf) ^ kt } else { bq }) ^ ((if first { bq } else { (bp ^ kf) ^ kt }) ^ (w ^ (k1 ^ k2))))
        == (t ^ ((if first { bp } else { bq }) ^ ((if first { bq } else { bp }) ^ w))) ^ ((((sw ^ kf) ^ kt) ^ k1) ^ k2))
        by (bit_vector);
}

/// The Zobrist hash follows the moves: the hash of the position after a legal move is
/// the hash before it XOR the move's delta.
pub proof fn lemma_hash_after_move(board: StandardBoard, s: State, m: Move)
    requires
        board.hash.wf(),
        s.wf(),
        sane(s),
        move_on_board(m),
        listed_legal(s, m),
    ensures
        spec_hash(board.hash, spec_apply(s, m)) == spec_hash(board.hash, s) ^ spec_delta_hash(board.hash, s, m),
{
    let z = board.hash;
    let r = spec_apply(s, m);
    let p = s.to_move.0 as int;
    lemma_hash_parts(z, s);
    lemma_hash_parts(z, r);
    let t = z.to_move[p].0;
    let t2 = z.to_move[r.to_move.0 as int].0;
    let sw = z.switch_move.0;
    lemma_switch(z.to_move[0].0, z.to_move[1].0);
    assert(t2 == t ^ sw);
    let b0 = xor_builders(z, 0, s.builders[0].0, 0, 25);
    let b1 = xor_builders(z, 1, s.builders[1].0, 0, 25);
    let w = xor_buildings(z, s, 0, 25);
    let c0 = xor_builders(z, 0, r.builders[0].0, 0, 25);
    let c1 = xor_builders(z, 1, r.builders[1].0, 0, 25);
    let v = xor_buildings(z, r, 0, 25);
    match m {
        Move::PlaceBuilders { a, b } => {
            let ka = z.builders[p][a.0 as int].0;
            let kb = z.builders[p][b.0 as int].0;
            let x = current(s);
            let y1 = x ^ (1u32 << a.0 as u32);
            let y2 = x | ((1u32 << a.0 as u32) | (1u32 << b.0 as u32));
            assert(!bit(x, a.0 as u32) && !bit(x, b.0 as u32) && a.0 != b.0);
            assert forall|i: u32| i < 32 implies #[trigger] bit(y1, i) == (bit(x, i) != (i == a.0)) by {
                lemma_bit_xor(x, 1u32 << a.0 as u32, i);
                lemma_bit_single(a.0 as u32, i);
            }
            assert forall|i: u32| i < 32 implies #[trigger] bit(y2, i) == (bit(y1, i) != (i == b.0)) by {
                lemma_bit_xor(x, 1u32 << a.0 as u32, i);
                lemma_bit_or(x, (1u32 << a.0 as u32) | (1u32 << b.0 as u32), i);
                lemma_bit_or(1u32 << a.0 as u32, 1u32 << b.0 as u32, i);
                lemma_bit_single(a.0 as u32, i);
                lemma_bit_single(b.0 as u32, i);
            }
            lemma_xor_builders_toggle(z, p, x, y1, a.0 as int, 25);
            lemma_xor_builders_toggle(z, p, y1, y2, b.0 as int, 25);
            lemma_xor_buildings_same(z, s, r, 25);
            let bp = xor_builders(z, p, x, 0, 25);
            let bq = if p == 0 { b1 } else { b0 };
            lemma_xor(bp, ka, kb);
            lemma_xor(t, sw, 0);
            // both sides regrouped
            assert(spec_hash(z, r) == (t ^ sw) ^ ((if p == 0 { (bp ^ ka) ^ kb } else { b0 }) ^ ((if p == 0 { b1 } else { (bp ^ ka) ^ kb }) ^ w)));
            lemma_xor_regroup(t, sw, bp, ka, kb, bq, w, p == 0);
        },
        Move::Move { from, to, build } => {
            let kf = z.builders[p][from.0 as int].0;
            let kt = z.builders[p][to.0 as int].0;
            let x = current(s);
            let y1 = x ^ (1u32 << from.0 as u32);
            let y2 = x ^ ((1u32 << from.0 as u32) | (1u32 << to.0 as u32));
            lemma_adjacent_symmetric(from.0 as int, to.0 as int);
            assert forall|i: u32| i < 32 implies #[trigger] bit(y1, i) == (bit(x, i) != (i == from.0)) by {
                lemma_bit_xor(x, 1u32 << from.0 as u32, i);
                lemma_bit_single(from.0 as u32, i);
            }
            assert forall|i: u32| i < 32 implies #[trigger] bit(y2, i) == (bit(y1, i) != (i == to.0)) by {
                lemma_bit_xor(x, 1u32 << from.0 as u32, i);
                lemma_bit_xor(x, (1u32 << from.0 as u32) | (1u32 << to.0 as u32), i);
                lemma_bit_or(1u32 << from.0 as u32, 1u32 << to.0 as u32, i);
                lemma_bit_single(from.0 as u32, i);
                lemma_bit_single(to.0 as u32, i);
            }
            lemma_xor_builders_toggle(z, p, x, y1, from.0 as int, 25);
            lemma_xor_builders_toggle(z, p, y1, y2, to.0 as int, 25);
            lemma_apply_sane(s, m);
            let moved = State { builders: with_current(s, current(s) ^ ((1u32 << from.0 as u32) | (1u32 << to.0 as u32))), ..s };
            crate::game::santorini::state::lemma_build_at_heights(moved, build.0 as u32);
            assert forall|i: u32| i < 32 && i != build.0 implies #[trigger] r.spec_hash_height(i) == s.spec_hash_height(i) by {
                lemma_bit_xor(s.domes.0, 1u32 << build.0 as u32, i);
                lemma_bit_single(build.0 as u32, i);
                assert(moved.spec_build_at(build.0 as u32).height(i) == s.height(i));
            }
            lemma_bit_xor(s.domes.0, 1u32 << build.0 as u32, build.0 as u32);
            lemma_bit_single(build.0 as u32, build.0 as u32);
            assert(r.spec_hash_height(build.0 as u32) == s.spec_hash_height(build.0 as u32) + 1);
            lemma_xor_buildings_change(z, s, r, build.0 as int, 25);
            let h = s.spec_hash_height(build.0 as u32) as int;
            let k1 = z.buildings[build.0 as int][h].0;
            let k2 = z.buildings[build.0 as int][h + 1].0;
            let bp = xor_builders(z, p, x, 0, 25);
            let bq = if p == 0 { b1 } else { b0 };
            lemma_xor(bp, kf, kt);
            lemma_xor(w, k1, k2);
            lemma_xor_regroup2(t, sw, bp, kf, kt, bq, w, k1, k2, p == 0);
        },
    }
}

/// Receives moves as they are listed.
pub trait MoveSink {
    /// The moves received so far.
    spec fn sunk(&self) -> Seq<Move>;

    /// How many more moves can be received.
    spec fn room(&self) -> nat;

    /// The sink is in a usable state.
    spec fn inv(&self) -> bool;

    fn sink(&mut self, mve: Move)
        requires
            old(self).inv(),
            old(self).room() >= 1,
        ensures
            final(self).inv(),
            final(self).sunk() == old(self).sunk().push(mve),
            final(self).room() == old(self).room() - 1,
    ;
}

impl MoveSink for Vec<Move> {
    open spec fn sunk(&self) -> Seq<Move> {
        self@
    }

    open spec fn room(&self) -> nat {
        (usize::MAX - self@.len()) as nat
    }

    open spec fn inv(&self) -> bool {
        true
    }

    fn sink(&mut self, mve: Move) {
        let _n = self.len();
        self.push(mve);
    }
}

/// Counts the moves it receives; the moves themselves are kept for the proof only.
pub struct MoveCounter {
    pub count: usize,
    pub seen: Ghost<Seq<Move>>,
}

impl MoveSink for MoveCounter {
    open spec fn sunk(&self) -> Seq<Move> {
        self.seen@
    }

    open spec fn room(&self) -> nat {
        (usize::MAX - self.count) as nat
    }

    open spec fn inv(&self) -> bool {
        self.count == self.seen@.len()
    }

    fn sink(&mut self, mve: Move) {
        self.count = self.count + 1;
        self.seen = Ghost(self.seen@.push(mve));
    }
}

#[derive(Debug, Clone)]
pub struct StandardBoard {
    pub slots: [Slot; 25],
    pub adjacencies: [[Slot; 8]; 25],
    pub packed_adjacencies: [Packed1; 25],
    pub transforms: [SlotTransform; 7],
    pub hash: ZobristHash,
}

impl StandardBoard {
    /// The tables are those of the 5x5 board: squares in order, neighbour lists in
    /// scan order ended by the "none" square, neighbour masks, and the seven symmetries.
    pub open spec fn wf(&self) -> bool {
        &&& forall|i: int| 0 <= i < 25 ==> #[trigger] self.slots[i] == Slot(i as i8)
        &&& forall|i: int, j: u32| 0 <= i < 25 ==> #[trigger] bit(self.packed_adjacencies[i].0, j) == adjacent(i, j as int)
        &&& forall|i: int, k: int| 0 <= i < 25 && 0 <= k < 8 ==> #[trigger] self.adjacencies[i][k]
            == (if k < neighbours(i).len() { neighbours(i)[k] } else { Slot(NONE_INDEX) })
        &&& forall|t: int, i: int| 0 <= t < 7 && 0 <= i < 25 ==> #[trigger] self.transforms[t].slots[i]
            == Slot(symmetric_slot(t, i) as i8)
    }

    /// Square `i` as a position.
    pub fn position(slot: Slot) -> (r: Position)
        ensures
            r.x == slot.0 - 5 * trunc_div5(slot.0 as int),
            r.y == trunc_div5(slot.0 as int),
            0 <= slot.0 ==> r == spec_position(slot.0 as int),
    {
        let x = slot.0 % 5;
        let y = slot.0 / 5;
        Position { x: x, y: y }
    }

    /// The square of a position.
    pub fn slot(position: Position) -> (r: Slot)
        requires
            fits(position.y * 5),
            fits(position.x + position.y * 5),
        ensures
            r.0 == spec_slot_of(position),
    {
        Slot(position.x + position.y * 5)
    }

    /// Whether a square is a real square rather than one of the marker values.
    pub fn valid(slot: Slot) -> (r: bool)
        ensures
            r == (slot.0 >= 0),
    {
        slot.0 >= 0
    }

    /// The square of a position whose coordinates are below 5.
    pub fn slot_for(&self, position: Position) -> (r: Option<Slot>)
        requires
            position.x < 5 && position.y < 5 ==> fits(position.y * 5) && fits(position.x + position.y * 5),
        ensures
            position.x < 5 && position.y < 5 ==> r == Some(Slot(spec_slot_of(position) as i8)),
            !(position.x < 5 && position.y < 5) ==> r is None,
    {
        if position.x < 5 && position.y < 5 {
            Some(StandardBoard::slot(position))
        } else {
            None
        }
    }
    /// The relabelling of squares induced by a map on positions.
    pub fn transform<F: Fn(Position) -> Position>(&self, f: F) -> (r: SlotTransform)
        requires
            forall|i: int| 0 <= i < 25 ==> #[trigger] f.requires((spec_position(i),)),
            forall|p: Position, q: Position| on_board(p) && #[trigger] f.ensures((p,), q) ==> fits(q.y * 5) && fits(q.x + q.y * 5),
        ensures
            forall|i: int, q: Position| #![trigger r.slots[i], spec_slot_of(q)] 0 <= i < 25
                && (forall|q2: Position| #[trigger] f.ensures((spec_position(i),), q2) ==> q2 == q)
                ==> r.slots[i] == Slot(spec_slot_of(q) as i8),
    {
        let ghost f0 = f;
        let mut transform = empty_slot_transform();
        let ghost mut qs: Seq<Position> = Seq::new(25, |i: int| Position { x: 0, y: 0 });
        let mut x: i8 = 0;
        while x < 5
            invariant
                0 <= x <= 5,
                qs.len() == 25,
                forall|i: int| 0 <= i < 25 ==> #[trigger] f.requires((spec_position(i),)),
                forall|p: Position, q: Position| on_board(p) && #[trigger] f.ensures((p,), q) ==> fits(q.y * 5) && fits(q.x + q.y * 5),
                f0 == f,
                forall|i: int| #![trigger qs[i]] 0 <= i < 25 && i % 5 < x ==> f.ensures((spec_position(i),), qs[i])
                    && transform.slots[i] == Slot(spec_slot_of(qs[i]) as i8),
            decreases 5 - x,
        {
            let mut y: i8 = 0;
            while y < 5
                invariant
                    0 <= x < 5,
                    0 <= y <= 5,
                    qs.len() == 25,
                    forall|i: int| 0 <= i < 25 ==> #[trigger] f.requires((spec_position(i),)),
                    forall|p: Position, q: Position| on_board(p) && #[trigger] f.ensures((p,), q) ==> fits(q.y * 5) && fits(q.x + q.y * 5),
                    f0 == f,
                    forall|i: int| #![trigger qs[i]] 0 <= i < 25 && (i % 5 < x || (i % 5 == x && i / 5 < y)) ==> f.ensures((spec_position(i),), qs[i])
                        && transform.slots[i] == Slot(spec_slot_of(qs[i]) as i8),
                decreases 5 - y,
            {
                let position = Position { x: x, y: y };
                let sl = StandardBoard::slot(position);
                assert(sl.0 % 5 == x && sl.0 / 5 == y);
                assert(position == spec_position(sl.0 as int));
                let t_position = f(position);
                let t = StandardBoard::slot(t_position);
                transform.slots[sl.0 as usize] = t;
                proof {
                    qs = qs.update(sl.0 as int, t_position);
                }
                y = y + 1;
            }
            x = x + 1;
        }
        let r = transform;
        assert forall|i: int, q: Position| #![trigger r.slots[i], spec_slot_of(q)] 0 <= i < 25
            && (forall|q2: Position| #[trigger] f.ensures((spec_position(i),), q2) ==> q2 == q)
            implies r.slots[i] == Slot(spec_slot_of(q) as i8) by {
            assert(i % 5 < 5);
            assert(f.ensures((spec_position(i),), qs[i]));
        }
        r
    }

    /// The neighbour list and neighbour mask of square `i`.
    fn adjacency_of(i: usize) -> (r: ([Slot; 8], Packed1))
        requires
            i < 25,
        ensures
            forall|k: int| 0 <= k < 8 ==> #[trigger] r.0[k] == (if k < neighbours(i as int).len() { neighbours(i as int)[k] } else { Slot(NONE_INDEX) }),
            forall|b: u32| #[trigger] bit(r.1.0, b) == adjacent(i as int, b as int),
    {
        let slot = Slot(i as i8);
        let pos = StandardBoard::position(slot);
        let x = pos.x;
        let y = pos.y;
        let none = Slot(NONE_INDEX);
        let mut row = [none; 8];
        let mut j: usize = 0;
        let mut packed = packed1_empty();
        proof {
            lemma_neighbours_upto(i as int, 9);
            lemma_neighbours(i as int);
            assert forall|b: u32| !#[trigger] bit(packed.0, b) by {
                lemma_bit_zero(b);
            }
        }
        let mut nx: i8 = x - 1;
        while nx < x + 2
            invariant
                i < 25,
                x == i % 5,
                y == i / 5,
                x - 1 <= nx <= x + 2,
                j == neighbours_upto(i as int, (nx - x + 1) * 3).len(),
                j <= 8,
                forall|k: int| 0 <= k < 8 ==> #[trigger] row[k] == (if k < j { neighbours_upto(i as int, (nx - x + 1) * 3)[k] } else { none }),
                forall|b: u32| #[trigger] bit(packed.0, b) == (b < 128 && neighbours_upto(i as int, (nx - x + 1) * 3).contains(Slot(b as i8))),
                none == Slot(NONE_INDEX),
            decreases x + 2 - nx,
        {
            let mut ny: i8 = y - 1;
            while ny < y + 2
                invariant
                    i < 25,
                    x == i % 5,
                    y == i / 5,
                    x - 1 <= nx < x + 2,
                    y - 1 <= ny <= y + 2,
                    j == neighbours_upto(i as int, (nx - x + 1) * 3 + (ny - y + 1)).len(),
                    j <= 8,
                    forall|k: int| 0 <= k < 8 ==> #[trigger] row[k] == (if k < j { neighbours_upto(i as int, (nx - x + 1) * 3 + (ny - y + 1))[k] } else { none }),
                    forall|b: u32| #[trigger] bit(packed.0, b) == (b < 128 && neighbours_upto(i as int, (nx - x + 1) * 3 + (ny - y + 1)).contains(Slot(b as i8))),
                    none == Slot(NONE_INDEX),
                decreases y + 2 - ny,
            {
                let ghost k = (nx - x + 1) * 3 + (ny - y + 1);
                proof {
                    lemma_div_mod_3(nx - x + 1, ny - y + 1);
                    lemma_neighbours_upto(i as int, k + 1);
                    lemma_neighbours_upto(i as int, k);
                }
                if !(nx == x && ny == y) && nx >= 0 && nx < 5 && ny >= 0 && ny < 5 {
                    let adjacent_position = Position { x: nx, y: ny };
                    let s = StandardBoard::slot(adjacent_position);
                    assert(neighbour_candidate(i as int, k) == Some(s.0 as int));
                    row[j] = s;
                    j = j + 1;
                    let old_packed = packed.0;
                    packed.0 = packed.0 | (1u32 << s.0 as u32);
                    proof {
                        let cur = neighbours_upto(i as int, k + 1);
                        let prev = neighbours_upto(i as int, k);
                        assert(cur == prev.push(s));
                        assert forall|b: u32| #[trigger] bit(packed.0, b) == (b < 128 && cur.contains(Slot(b as i8))) by {
                            lemma_bit_or(old_packed, 1u32 << s.0 as u32, b);
                            lemma_bit_single(s.0 as u32, b);
                            if b < 128 && cur.contains(Slot(b as i8)) {
                                let m = choose|m: int| 0 <= m < cur.len() && cur[m] == Slot(b as i8);
                                if m < prev.len() {
                                    assert(prev[m] == Slot(b as i8));
                                }
                            }
                            if b < 128 && prev.contains(Slot(b as i8)) {
                                let m = choose|m: int| 0 <= m < prev.len() && prev[m] == Slot(b as i8);
                                assert(cur[m] == Slot(b as i8));
                            }
                            if b == s.0 {
                                assert(cur[cur.len() - 1] == Slot(b as i8));
                            }
                        }
                    }
                } else {
                    assert(neighbour_candidate(i as int, k) is None);
                }
                ny = ny + 1;
            }
            nx = nx + 1;
        }
        proof {
            assert forall|b: u32| #[trigger] bit(packed.0, b) == adjacent(i as int, b as int) by {
                if b >= 32 {
                    assert(!bit(packed.0, b));
                }
            }
        }
        (row, packed)
    }

    /// The board of 5x5 squares with its neighbour tables and symmetries, hashing with `hash`.
    pub fn new(hash: ZobristHash) -> (board: StandardBoard)
        ensures
            board.wf(),
            board.hash == hash,
    {
        let mut slots = [Slot(0); 25];
        let none = Slot(NONE_INDEX);
        let mut adjacencies = [[none; 8]; 25];
        let mut packed_adjacencies = [packed1_empty(); SLOT_COUNT];
        let mut i: usize = 0;
        while i < 25
            invariant
                0 <= i <= 25,
                forall|l: int| 0 <= l < i ==> #[trigger] slots[l] == Slot(l as i8),
                forall|l: int, j: u32| 0 <= l < i ==> #[trigger] bit(packed_adjacencies[l].0, j) == adjacent(l, j as int),
                forall|l: int, k: int| 0 <= l < i && 0 <= k < 8 ==> #[trigger] adjacencies[l][k]
                    == (if k < neighbours(l).len() { neighbours(l)[k] } else { Slot(NONE_INDEX) }),
            decreases 25 - i,
        {
            slots[i] = Slot(i as i8);
            let (row, packed) = StandardBoard::adjacency_of(i);
            adjacencies[i] = row;
            packed_adjacencies[i] = packed;
            i = i + 1;
        }
        let mut board = StandardBoard {
            slots: slots,
            adjacencies: adjacencies,
            packed_adjacencies: packed_adjacencies,
            transforms: [empty_slot_transform(); 7],
            hash: hash,
        };
        let t0 = board.transform(rotate_90);
        let t1 = board.transform(rotate_180);
        let t2 = board.transform(rotate_270);
        let t3 = board.transform(reflect_x);
        let t4 = board.transform(reflect_y);
        let t5 = board.transform(reflect_diag_a);
        let t6 = board.transform(reflect_diag_b);
        board.transforms = [t0, t1, t2, t3, t4, t5, t6];
        proof {
            assert forall|t: int, i: int| 0 <= t < 7 && 0 <= i < 25 implies #[trigger] board.transforms[t].slots[i]
                == Slot(symmetric_slot(t, i) as i8) by {
                let p = spec_position(i);
                assert(on_board(p));
                if t == 0 {
                    assert(forall|q2: Position| #[trigger] call_ensures(rotate_90, (p,), q2) ==> q2 == symmetry(0, p));
                } else if t == 1 {
                    assert(forall|q2: Position| #[trigger] call_ensures(rotate_180, (p,), q2) ==> q2 == symmetry(1, p));
                } else if t == 2 {
                    assert(forall|q2: Position| #[trigger] call_ensures(rotate_270, (p,), q2) ==> q2 == symmetry(2, p));
                } else if t == 3 {
                    assert(forall|q2: Position| #[trigger] call_ensures(reflect_x, (p,), q2) ==> q2 == symmetry(3, p));
                } else if t == 4 {
                    assert(forall|q2: Position| #[trigger] call_ensures(reflect_y, (p,), q2) ==> q2 == symmetry(4, p));
                } else if t == 5 {
                    assert(forall|q2: Position| #[trigger] call_ensures(reflect_diag_a, (p,), q2) ==> q2 == symmetry(5, p));
                } else {
                    assert(forall|q2: Position| #[trigger] call_ensures(reflect_diag_b, (p,), q2) ==> q2 == symmetry(6, p));
                }
            }
        }
        board
    }

    /// The squares of `packed` moved by `transform`.
    pub fn transform_packed(transform: &SlotTransform, packed: Packed1) -> (r: Packed1)
        requires
            image_defined(*transform, packed.0),
        ensures
            r.0 == image(*transform, packed.0),
            forall|j: u32| #[trigger] bit(r.0, j) <==> exists|i: int| 0 <= i < 25 && bit(packed.0, i as u32) && transform.slots[i].0 == j,
    {
        let x = packed.0;
        let mut out: u32 = 0;
        let mut i: usize = 0;
        proof {
            assert forall|j: u32| !#[trigger] bit(out, j) by {
                lemma_bit_zero(j);
            }
        }
        while i < 25
            invariant
                0 <= i <= 25,
                x == packed.0,
                image_defined(*transform, x),
                out == image_upto(*transform, x, i as int),
                forall|j: u32| #[trigger] bit(out, j) <==> exists|l: int| 0 <= l < i && bit(x, l as u32) && transform.slots[l].0 == j,
            decreases 25 - i,
        {
            proof {
                crate::bits::lemma_bit_read(x, i as u32);
            }
            if (x >> i as u32) & 1 == 1 {
                let t = transform.slots[i].0;
                let old_out = out;
                out = out | (1u32 << t as u32);
                proof {
                    assert forall|j: u32| #[trigger] bit(out, j) <==> exists|l: int| 0 <= l < i + 1 && bit(x, l as u32) && transform.slots[l].0 == j by {
                        lemma_bit_or(old_out, 1u32 << t as u32, j);
                        lemma_bit_single(t as u32, j);
                        if j == t as u32 {
                            assert(bit(x, i as u32) && transform.slots[i as int].0 == j);
                        }
                    }
                }
            } else {
                proof {
                    assert forall|j: u32| #[trigger] bit(out, j) <==> exists|l: int| 0 <= l < i + 1 && bit(x, l as u32) && transform.slots[l].0 == j by {
                        if exists|l: int| 0 <= l < i + 1 && bit(x, l as u32) && transform.slots[l].0 == j {
                            let l = choose|l: int| 0 <= l < i + 1 && bit(x, l as u32) && transform.slots[l].0 == j;
                            assert(l != i);
                        }
                    }
                }
            }
            i = i + 1;
        }
        Packed1(out)
    }

    /// Both players' builders moved by `transform`.
    pub fn transform_packed2(transform: &SlotTransform, packed: [Packed1; 2]) -> (r: [Packed1; 2])
        requires
            image_defined(*transform, packed[0].0),
            image_defined(*transform, packed[1].0),
        ensures
            r[0].0 == image(*transform, packed[0].0),
            r[1].0 == image(*transform, packed[1].0),
    {
        let a = StandardBoard::transform_packed(transform, packed[0]);
        let b = StandardBoard::transform_packed(transform, packed[1]);
        [a, b]
    }

    /// `state` moved square by square by `slot_transform`.
    pub fn transform_state(&self, state: &State, slot_transform: &SlotTransform) -> (r: State)
        requires
            forall|i: int| 0 <= i < 25 ==> 0 <= #[trigger] slot_transform.slots[i].0 < 32,
            state.builders[0].0 < 0x200_0000u32,
            state.builders[1].0 < 0x200_0000u32,
        ensures
            r == spec_transform_state(*state, *slot_transform),
    {
        let mut new_state = *state;
        let mut i: usize = 0;
        while i < 25
            invariant
                0 <= i <= 25,
                forall|l: int| 0 <= l < 25 ==> 0 <= #[trigger] slot_transform.slots[l].0 < 32,
                new_state == carry_upto(*state, *slot_transform, *state, i as int),
                new_state.builders == state.builders,
                new_state.to_move == state.to_move,
            decreases 25 - i,
        {
            let from = Slot(i as i8);
            let to = slot_transform.slots[i];
            let h = state.get_building_height(from);
            new_state.set_building_height(to, h);
            let d = state.domes.get(from);
            new_state.domes.setb(to, d);
            i = i + 1;
        }
        new_state.builders[0] = StandardBoard::transform_packed(slot_transform, new_state.builders[0]);
        new_state.builders[1] = StandardBoard::transform_packed(slot_transform, new_state.builders[1]);
        let ghost expected = spec_transform_state(*state, *slot_transform);
        assert(new_state.builders@ =~= expected.builders@);
        assert(new_state.builders == expected.builders);
        new_state
    }

    /// The seven symmetric images of `state`, appended to `sink`.
    pub fn permute(&self, state: &State, sink: &mut Vec<State>)
        requires
            self.wf(),
            state.builders[0].0 < 0x200_0000u32,
            state.builders[1].0 < 0x200_0000u32,
        ensures
            final(sink)@.len() == old(sink)@.len() + 7,
            final(sink)@.subrange(0, old(sink)@.len() as int) == old(sink)@,
            forall|k: int| 0 <= k < 7 ==> #[trigger] final(sink)@[old(sink)@.len() + k] == spec_transform_state(*state, self.transforms[k]),
    {
        let mut k: usize = 0;
        while k < 7
            invariant
                0 <= k <= 7,
                self.wf(),
                state.builders[0].0 < 0x200_0000u32,
                state.builders[1].0 < 0x200_0000u32,
                sink@.len() == old(sink)@.len() + k,
                sink@.subrange(0, old(sink)@.len() as int) == old(sink)@,
                forall|l: int| 0 <= l < k ==> #[trigger] sink@[old(sink)@.len() + l] == spec_transform_state(*state, self.transforms[l]),
            decreases 7 - k,
        {
            proof {
                assert forall|i: int| 0 <= i < 25 implies 0 <= #[trigger] self.transforms[k as int].slots[i].0 < 32 by {
                    lemma_symmetry_on_board(k as int, i);
                }
            }
            let st = self.transform_state(state, &self.transforms[k]);
            sink.push(st);
            k = k + 1;
        }
    }

    /// Builder squares moved by `transform`; marker values (negative squares) are kept.
    pub fn transform_slots(transform: &SlotTransform, slots: [[Slot; 2]; 2]) -> (r: [[Slot; 2]; 2])
        requires
            forall|p: int, i: int| 0 <= p < 2 && 0 <= i < 2 ==> #[trigger] slots[p][i].0 < 25,
        ensures
            forall|p: int, i: int| 0 <= p < 2 && 0 <= i < 2 ==> #[trigger] r[p][i]
                == (if slots[p][i].0 >= 0 { transform.slots[slots[p][i].0 as int] } else { slots[p][i] }),
    {
        let mut out: [[Slot; 2]; 2] = [[Slot(0); 2]; 2];
        let mut player_id: usize = 0;
        while player_id < 2
            invariant
                0 <= player_id <= 2,
                forall|p: int, i: int| 0 <= p < 2 && 0 <= i < 2 ==> #[trigger] slots[p][i].0 < 25,
                forall|p: int, i: int| 0 <= p < player_id && 0 <= i < 2 ==> #[trigger] out[p][i]
                    == (if slots[p][i].0 >= 0 { transform.slots[slots[p][i].0 as int] } else { slots[p][i] }),
            decreases 2 - player_id,
        {
            let mut i: usize = 0;
            while i < 2
                invariant
                    0 <= player_id < 2,
                    0 <= i <= 2,
                    forall|p: int, j: int| 0 <= p < 2 && 0 <= j < 2 ==> #[trigger] slots[p][j].0 < 25,
                    forall|p: int, j: int| 0 <= p < player_id && 0 <= j < 2 ==> #[trigger] out[p][j]
                        == (if slots[p][j].0 >= 0 { transform.slots[slots[p][j].0 as int] } else { slots[p][j] }),
                    forall|j: int| 0 <= j < i ==> #[trigger] out[player_id as int][j]
                        == (if slots[player_id as int][j].0 >= 0 { transform.slots[slots[player_id as int][j].0 as int] } else { slots[player_id as int][j] }),
                decreases 2 - i,
            {
                let sl = slots[player_id][i];
                if Self::valid(sl) {
                    out[player_id][i] = transform.slots[sl.0 as usize];
                } else {
                    out[player_id][i] = sl;
                }
                i = i + 1;
            }
            player_id = player_id + 1;
        }
        out
    }

    /// Appends every legal move of the player to move, in `(from, to, build)` order
    /// (placements in `(a, b)` order while that player has no builder).
    pub fn next_moves_for_player(&self, state: &State, move_sink: &mut Vec<Move>)
        requires
            self.wf(),
            state.wf(),
            old(move_sink)@.len() + 15625 <= usize::MAX,
        ensures
            final(move_sink)@ == old(move_sink)@ + spec_player_moves(*state),
    {
        let ghost f = |k: int| player_move_at(*state, k);
        let ghost start = move_sink@;
        let player_to_move = state.to_move;
        let builders = state.builders[player_to_move.0 as usize];
        let in_placement_phase = builders.0 == 0;
        let collision = state.collision();
        let available = Packed1(!collision.0);
        proof {
            assert forall|i: u32| i < 32 implies #[trigger] bit(available.0, i) == !state.occupied(i) by {
                lemma_bit_not(collision.0, i);
            }
        }
        if in_placement_phase {
            let mut a: i8 = 0;
            while a < 25
                invariant
                    0 <= a <= 25,
                    state.wf(),
                    current(*state) == 0,
                    forall|i: u32| #[trigger] bit(collision.0, i) == state.occupied(i),
                    f == (|k: int| player_move_at(*state, k)),
                    start.len() + 15625 <= usize::MAX,
                    move_sink@ == start + listing(f, a * 25),
                decreases 25 - a,
            {
                let a_mask: u32 = 1u32 << a as u32;
                proof {
                    lemma_mask_free(a_mask, collision.0, a as u32);
                }
                if a_mask & collision.0 == 0 {
                    let mut b: i8 = 0;
                    while b < 25
                        invariant
                            0 <= a < 25,
                            0 <= b <= 25,
                            free(*state, a as int),
                            current(*state) == 0,
                            forall|i: u32| #[trigger] bit(collision.0, i) == state.occupied(i),
                            f == (|k: int| player_move_at(*state, k)),
                            start.len() + 15625 <= usize::MAX,
                            move_sink@ == start + listing(f, a * 25 + b),
                        decreases 25 - b,
                    {
                        let b_mask: u32 = 1u32 << b as u32;
                        proof {
                            lemma_mask_free(b_mask, collision.0, b as u32);
                            lemma_listing_len(f, a * 25 + b, 15625);
                            assert((a * 25 + b) / 25 == a && (a * 25 + b) % 25 == b);
                        }
                        if a != b && b_mask & collision.0 == 0 {
                            move_sink.push(Move::PlaceBuilders { a: Slot(a), b: Slot(b) });
                        }
                        proof {
                            assert(move_sink@ =~= start + listing(f, a * 25 + b + 1));
                        }
                        b = b + 1;
                    }
                } else {
                    proof {
                        assert forall|k: int| a * 25 <= k < a * 25 + 25 implies #[trigger] f(k) is None by {
                            assert(k / 25 == a);
                        }
                        lemma_listing_skip(f, a * 25, a * 25 + 25);
                    }
                }
                a = a + 1;
            }
            proof {
                assert forall|k: int| 625 <= k < 15625 implies #[trigger] f(k) is None by {}
                lemma_listing_skip(f, 625, 15625);
            }
        } else {
            let mut from: i8 = 0;
            while from < 25
                invariant
                    0 <= from <= 25,
                    self.wf(),
                    state.wf(),
                    current(*state) == builders.0,
                    builders.0 != 0,
                    forall|i: u32| i < 32 ==> #[trigger] bit(available.0, i) == !state.occupied(i),
                    f == (|k: int| player_move_at(*state, k)),
                    start.len() + 15625 <= usize::MAX,
                    move_sink@ == start + listing(f, from * 625),
                decreases 25 - from,
            {
                proof {
                    crate::bits::lemma_bit_read(builders.0, from as u32);
                }
                if (builders.0 >> from as u32) & 1 == 1 {
                    let current_height = state.get_building_height(Slot(from));
                    let moveable_adjacencies = self.packed_adjacencies[from as usize] & available;
                    let mut to: i8 = 0;
                    while to < 25
                        invariant
                            0 <= from < 25,
                            0 <= to <= 25,
                            self.wf(),
                            state.wf(),
                            current(*state) == builders.0,
                            builders.0 != 0,
                            bit(builders.0, from as u32),
                            current_height == state.height(from as u32),
                            moveable_adjacencies.0 == self.packed_adjacencies[from as int].0 & available.0,
                            forall|i: u32| i < 32 ==> #[trigger] bit(available.0, i) == !state.occupied(i),
                            f == (|k: int| player_move_at(*state, k)),
                            start.len() + 15625 <= usize::MAX,
                            move_sink@ == start + listing(f, from * 625 + to * 25),
                        decreases 25 - to,
                    {
                        proof {
                            crate::bits::lemma_bit_read(moveable_adjacencies.0, to as u32);
                        }
                        if (moveable_adjacencies.0 >> to as u32) & 1 == 1 && state.get_building_height(Slot(to)) <= current_height + 1 {
                            let buildable_adjacencies = (self.packed_adjacencies[to as usize] & available) ^ Packed1(1u32 << from as u32);
                            let mut build: i8 = 0;
                            while build < 25
                                invariant
                                    0 <= from < 25,
                                    0 <= to < 25,
                                    0 <= build <= 25,
                                    self.wf(),
                                    state.wf(),
                                    current(*state) == builders.0,
                                    builders.0 != 0,
                                    bit(builders.0, from as u32),
                                    bit(self.packed_adjacencies[from as int].0 & available.0, to as u32),
                                    state.height(to as u32) <= state.height(from as u32) + 1,
                                    buildable_adjacencies.0 == (self.packed_adjacencies[to as int].0 & available.0) ^ (1u32 << from as u32),
                                    forall|i: u32| i < 32 ==> #[trigger] bit(available.0, i) == !state.occupied(i),
                                    f == (|k: int| player_move_at(*state, k)),
                                    start.len() + 15625 <= usize::MAX,
                                    move_sink@ == start + listing(f, from * 625 + to * 25 + build),
                                decreases 25 - build,
                            {
                                proof {
                                    crate::bits::lemma_bit_read(buildable_adjacencies.0, build as u32);
                                    lemma_player_step_at(*self, *state, available.0, from as int, to as int, build as int);
                                    lemma_listing_len(f, from * 625 + to * 25 + build, 15625);
                                }
                                if (buildable_adjacencies.0 >> build as u32) & 1 == 1 {
                                    move_sink.push(Move::Move { from: Slot(from), to: Slot(to), build: Slot(build) });
                                }
                                proof {
                                    assert(move_sink@ =~= start + listing(f, from * 625 + to * 25 + build + 1));
                                }
                                build = build + 1;
                            }
                        } else {
                            proof {
                                assert forall|k: int| from * 625 + to * 25 <= k < from * 625 + to * 25 + 25 implies #[trigger] f(k) is None by {
                                    lemma_player_step_at(*self, *state, available.0, from as int, to as int, k - from * 625 - to * 25);
                                }
                                lemma_listing_skip(f, from * 625 + to * 25, from * 625 + to * 25 + 25);
                            }
                        }
                        to = to + 1;
                    }
                } else {
                    proof {
                        assert forall|k: int| from * 625 <= k < from * 625 + 625 implies #[trigger] f(k) is None by {
                            let t = (k - from * 625) / 25;
                            let b = (k - from * 625) % 25;
                            assert(k == from * 625 + t * 25 + b);
                            lemma_player_step_at(*self, *state, available.0, from as int, t, b);
                        }
                        lemma_listing_skip(f, from * 625, from * 625 + 625);
                    }
                }
                from = from + 1;
            }
        }
    }

    /// Whether `seen` holds `pair`.
    fn seen_contains(seen: &Vec<(u32, u32)>, pair: (u32, u32)) -> (r: bool)
        ensures
            r == seen@.contains(pair),
    {
        let mut i: usize = 0;
        while i < seen.len()
            invariant
                0 <= i <= seen@.len(),
                forall|j: int| 0 <= j < i ==> seen@[j] != pair,
            decreases seen@.len() - i,
        {
            if seen[i].0 == pair.0 && seen[i].1 == pair.1 {
                return true;
            }
            i = i + 1;
        }
        false
    }

    /// Whether some symmetry of the board sends `pair` into `seen`.
    fn symmetric_dupe(&self, seen: &Vec<(u32, u32)>, pair: [Packed1; 2]) -> (r: bool)
        requires
            self.wf(),
            pair[0].0 < 0x200_0000u32,
            pair[1].0 < 0x200_0000u32,
        ensures
            r == symmetric_seen(*self, seen@, pair[0].0, pair[1].0),
    {
        let mut t: usize = 0;
        while t < 7
            invariant
                0 <= t <= 7,
                self.wf(),
                pair[0].0 < 0x200_0000u32,
                pair[1].0 < 0x200_0000u32,
                forall|u: int| 0 <= u < t ==> !#[trigger] seen@.contains((image(self.transforms[u], pair[0].0), image(self.transforms[u], pair[1].0))),
            decreases 7 - t,
        {
            proof {
                assert forall|i: int| 0 <= i < 25 implies 0 <= #[trigger] self.transforms[t as int].slots[i].0 < 32 by {
                    lemma_symmetry_on_board(t as int, i);
                }
            }
            let transformed_builders = StandardBoard::transform_packed2(&self.transforms[t], pair);
            if Self::seen_contains(seen, (transformed_builders[0].0, transformed_builders[1].0)) {
                assert(seen@.contains((image(self.transforms[t as int], pair[0].0), image(self.transforms[t as int], pair[1].0))));
                return true;
            }
            t = t + 1;
        }
        false
    }

    /// Sends every move of the player to move to `move_sink`: while that player has no
    /// builder, the placements on two free squares `a < b`, skipping any whose builders
    /// are a symmetric image of a placement already sent; else every legal step, by
    /// destination height (highest first), then `from`, `to`, the height built on
    /// (highest first) and the square built on.
    pub fn next_moves<T: MoveSink>(&self, state: &State, move_sink: &mut T)
        requires
            self.wf(),
            state.wf(),
            old(move_sink).inv(),
            old(move_sink).room() >= spec_next_moves(*self, *state).len(),
        ensures
            final(move_sink).inv(),
            final(move_sink).sunk() == old(move_sink).sunk() + spec_next_moves(*self, *state),
            final(move_sink).room() == old(move_sink).room() - spec_next_moves(*self, *state).len(),
    {
        let ghost start = move_sink.sunk();
        let ghost start_room = move_sink.room();
        let player_to_move = state.to_move;
        let builders = state.builders[player_to_move.0 as usize];
        let in_placement_phase = builders.0 == 0;
        let collision = state.collision();
        let available = Packed1(!collision.0);
        proof {
            assert forall|i: u32| i < 32 implies #[trigger] bit(available.0, i) == !state.occupied(i) by {
                lemma_bit_not(collision.0, i);
            }
        }
        if in_placement_phase {
            let mut seen: Vec<(u32, u32)> = Vec::new();
            let mut a: i8 = 0;
            while a < 25
                invariant
                    0 <= a <= 25,
                    self.wf(),
                    state.wf(),
                    current(*state) == 0,
                    player_to_move == state.to_move,
                    forall|i: u32| #[trigger] bit(collision.0, i) == state.occupied(i),
                    start_room >= spec_next_moves(*self, *state).len(),
                    move_sink.sunk() == start + placements_upto(*self, *state, a * 25).0,
                    move_sink.room() == start_room - placements_upto(*self, *state, a * 25).0.len(),
                    move_sink.inv(),
                    seen@ == placements_upto(*self, *state, a * 25).1,
                decreases 25 - a,
            {
                let a_mask: u32 = 1u32 << a as u32;
                proof {
                    lemma_mask_free(a_mask, collision.0, a as u32);
                }
                if a_mask & collision.0 == 0 {
                    proof {
                        assert forall|c: int| a * 25 <= c < a * 25 + a + 1 implies !#[trigger] placement_candidate(*state, c) by {
                            assert(c / 25 == a && c % 25 == c - a * 25);
                        }
                        lemma_placements_skip(*self, *state, a * 25, a * 25 + a + 1);
                    }
                    let mut b: i8 = a + 1;
                    while b < 25
                        invariant
                            0 <= a < 25,
                            a + 1 <= b <= 25,
                            self.wf(),
                            state.wf(),
                            free(*state, a as int),
                            current(*state) == 0,
                            player_to_move == state.to_move,
                            a_mask == 1u32 << a as u32,
                            forall|i: u32| #[trigger] bit(collision.0, i) == state.occupied(i),
                            start_room >= spec_next_moves(*self, *state).len(),
                            move_sink.sunk() == start + placements_upto(*self, *state, a * 25 + b).0,
                            move_sink.room() == start_room - placements_upto(*self, *state, a * 25 + b).0.len(),
                            move_sink.inv(),
                            seen@ == placements_upto(*self, *state, a * 25 + b).1,
                        decreases 25 - b,
                    {
                        let b_mask: u32 = 1u32 << b as u32;
                        proof {
                            lemma_mask_free(b_mask, collision.0, b as u32);
                            assert((a * 25 + b) / 25 == a && (a * 25 + b) % 25 == b);
                        }
                        if b_mask & collision.0 == 0 {
                            let both_placed = Packed1(a_mask | b_mask);
                            let mut new_builders = state.builders;
                            new_builders[player_to_move.0 as usize] = both_placed;
                            proof {
                                assert forall|i: u32| 25 <= i < 32 implies !#[trigger] bit(a_mask | b_mask, i) by {
                                    lemma_bit_or(a_mask, b_mask, i);
                                    lemma_bit_single(a as u32, i);
                                    lemma_bit_single(b as u32, i);
                                }
                                crate::bits::lemma_small_from_bits(a_mask | b_mask);
                                assert((new_builders[0].0, new_builders[1].0) == placed_builders(*state, a as int, b as int));
                            }
                            let dupe = self.symmetric_dupe(&seen, new_builders);
                            if !dupe {
                                proof {
                                    lemma_placements_len(*self, *state, a * 25 + b + 1, 625);
                                }
                                move_sink.sink(Move::PlaceBuilders { a: Slot(a), b: Slot(b) });
                                seen.push((new_builders[0].0, new_builders[1].0));
                            }
                        }
                        b = b + 1;
                    }
                } else {
                    proof {
                        assert forall|c: int| a * 25 <= c < a * 25 + 25 implies !#[trigger] placement_candidate(*state, c) by {
                            assert(c / 25 == a);
                        }
                        lemma_placements_skip(*self, *state, a * 25, a * 25 + 25);
                    }
                }
                a = a + 1;
            }
        } else {
            let heights = state.building_map();
            let mut available_builders = [builders, builders, packed1_empty(), packed1_empty()];
            proof {
                assert forall|h: int, i: u32| 2 <= h < 4 && i < 32 implies !#[trigger] bit(available_builders[h].0, i) by {
                    lemma_bit_zero(i);
                }
            }
            let mut bl: i8 = 0;
            while bl < 25
                invariant
                    0 <= bl <= 25,
                    state.wf(),
                    builders.0 == current(*state),
                    available_builders[0] == builders,
                    available_builders[1] == builders,
                    forall|h: int, i: u32| 2 <= h < 4 && i < 32 ==> #[trigger] bit(available_builders[h].0, i)
                        == (i < bl && can_reach(*state, i as int, h)),
                decreases 25 - bl,
            {
                proof {
                    crate::bits::lemma_bit_read(builders.0, bl as u32);
                }
                if (builders.0 >> bl as u32) & 1 == 1 {
                    let height = state.get_building_height(Slot(bl));
                    let max_height: u8 = if height + 1 < 3 { height + 1 } else { 3 };
                    let mut h: u8 = 2;
                    while h < max_height + 1
                        invariant
                            0 <= bl < 25,
                            2 <= h <= 4,
                            height == state.height(bl as u32),
                            max_height == (if height + 1 < 3 { height + 1 } else { 3 }),
                            h <= max_height + 1 || h == 2,
                            bit(builders.0, bl as u32),
                            builders.0 == current(*state),
                            available_builders[0] == builders,
                            available_builders[1] == builders,
                            forall|hh: int, i: u32| 2 <= hh < 4 && i < 32 ==> #[trigger] bit(available_builders[hh].0, i)
                                == ((i < bl && can_reach(*state, i as int, hh)) || (i == bl && hh < h)),
                        decreases 4 - h,
                    {
                        let old_ab = available_builders[h as usize].0;
                        available_builders[h as usize].0 = old_ab | (1u32 << bl as u32);
                        proof {
                            assert forall|i: u32| i < 32 implies #[trigger] bit(available_builders[h as int].0, i) == (bit(old_ab, i) || i == bl) by {
                                lemma_bit_or(old_ab, 1u32 << bl as u32, i);
                                lemma_bit_single(bl as u32, i);
                            }
                        }
                        h = h + 1;
                    }
                }
                bl = bl + 1;
            }
            proof {
                assert forall|h: int, i: u32| 2 <= h < 4 && i < 32 implies #[trigger] bit(available_builders[h].0, i)
                    == can_reach(*state, i as int, h) by {
                    if i >= 25 {
                        lemma_bit_small(builders.0, i);
                    }
                }
            }
            let mut hp: usize = 0;
            while hp < 4
                invariant
                    0 <= hp <= 4,
                    self.wf(),
                    state.wf(),
                    builders.0 == current(*state),
                    builders.0 != 0,
                    available_builders[0] == builders,
                    available_builders[1] == builders,
                    forall|h: int, i: u32| 2 <= h < 4 && i < 32 ==> #[trigger] bit(available_builders[h].0, i)
                        == can_reach(*state, i as int, h),
                    forall|h: int, i: u32| 0 <= h < 4 && i < 32 ==> #[trigger] bit(heights[h].0, i) == (state.height(i) == h),
                    forall|i: u32| i < 32 ==> #[trigger] bit(available.0, i) == !state.occupied(i),
                    start_room >= spec_next_moves(*self, *state).len(),
                    move_sink.sunk() == start + listing(|k: int| step_at(*state, k), hp * 62500),
                    move_sink.room() == start_room - listing(|k: int| step_at(*state, k), hp * 62500).len(),
                    move_sink.inv(),
                decreases 4 - hp,
            {
                let h = 3 - hp;
                let receive = heights[h] & available;
                let reach = available_builders[h];
                proof {
                    assert forall|i: u32| i < 25 implies #[trigger] bit(reach.0, i) == can_reach(*state, i as int, h as int) by {
                        if h < 2 {
                            assert(bit(builders.0, i) == can_reach(*state, i as int, h as int));
                        }
                    }
                }
                let mut from: i8 = 0;
                while from < 25
                    invariant
                        0 <= hp < 4,
                        h == 3 - hp,
                        0 <= from <= 25,
                        self.wf(),
                        state.wf(),
                        builders.0 == current(*state),
                        builders.0 != 0,
                        receive.0 == heights[h as int].0 & available.0,
                        forall|i: u32| i < 25 ==> #[trigger] bit(reach.0, i) == can_reach(*state, i as int, h as int),
                        forall|hh: int, i: u32| 0 <= hh < 4 && i < 32 ==> #[trigger] bit(heights[hh].0, i) == (state.height(i) == hh),
                        forall|i: u32| i < 32 ==> #[trigger] bit(available.0, i) == !state.occupied(i),
                        start_room >= spec_next_moves(*self, *state).len(),
                        move_sink.sunk() == start + listing(|k: int| step_at(*state, k), step_key(hp as int, from as int, 0, 0, 0)),
                        move_sink.room() == start_room - listing(|k: int| step_at(*state, k), step_key(hp as int, from as int, 0, 0, 0)).len(),
                        move_sink.inv(),
                    decreases 25 - from,
                {
                    let next_from = next_bit(reach.0, from as u32);
                    proof {
                        lemma_skip_froms(*self, *state, available.0, reach.0, heights, hp as int, from as int, next_from as int);
                    }
                    from = next_from as i8;
                    if from < 25 {
                        let move_tos = receive & self.packed_adjacencies[from as usize];
                        let mut to: i8 = 0;
                        while to < 25
                            invariant
                                0 <= hp < 4,
                                h == 3 - hp,
                                0 <= from < 25,
                                0 <= to <= 25,
                                self.wf(),
                                state.wf(),
                                builders.0 == current(*state),
                                builders.0 != 0,
                                bit(reach.0, from as u32),
                                move_tos.0 == (heights[h as int].0 & available.0) & self.packed_adjacencies[from as int].0,
                                forall|i: u32| i < 25 ==> #[trigger] bit(reach.0, i) == can_reach(*state, i as int, h as int),
                                forall|hh: int, i: u32| 0 <= hh < 4 && i < 32 ==> #[trigger] bit(heights[hh].0, i) == (state.height(i) == hh),
                                forall|i: u32| i < 32 ==> #[trigger] bit(available.0, i) == !state.occupied(i),
                                start_room >= spec_next_moves(*self, *state).len(),
                                move_sink.sunk() == start + listing(|k: int| step_at(*state, k), step_key(hp as int, from as int, to as int, 0, 0)),
                                move_sink.room() == start_room - listing(|k: int| step_at(*state, k), step_key(hp as int, from as int, to as int, 0, 0)).len(),
                                move_sink.inv(),
                            decreases 25 - to,
                        {
                            let next_to = next_bit(move_tos.0, to as u32);
                            proof {
                                lemma_skip_tos(*self, *state, available.0, reach.0, heights, hp as int, from as int, to as int, next_to as int);
                            }
                            to = next_to as i8;
                            if to < 25 {
                                let buildable_adjacencies = (self.packed_adjacencies[to as usize] & available) ^ Packed1(1u32 << from as u32);
                                let mut bp: usize = 0;
                                while bp < 4
                                    invariant
                                        0 <= hp < 4,
                                        h == 3 - hp,
                                        0 <= from < 25,
                                        0 <= to < 25,
                                        0 <= bp <= 4,
                                        self.wf(),
                                        state.wf(),
                                        builders.0 == current(*state),
                                        builders.0 != 0,
                                        bit(reach.0, from as u32),
                                        bit(move_tos.0, to as u32),
                                        move_tos.0 == (heights[h as int].0 & available.0) & self.packed_adjacencies[from as int].0,
                                        buildable_adjacencies.0 == (self.packed_adjacencies[to as int].0 & available.0) ^ (1u32 << from as u32),
                                        forall|i: u32| i < 25 ==> #[trigger] bit(reach.0, i) == can_reach(*state, i as int, h as int),
                                        forall|hh: int, i: u32| 0 <= hh < 4 && i < 32 ==> #[trigger] bit(heights[hh].0, i) == (state.height(i) == hh),
                                        forall|i: u32| i < 32 ==> #[trigger] bit(available.0, i) == !state.occupied(i),
                                        start_room >= spec_next_moves(*self, *state).len(),
                                        move_sink.sunk() == start + listing(|k: int| step_at(*state, k), step_key(hp as int, from as int, to as int, bp as int, 0)),
                                        move_sink.room() == start_room - listing(|k: int| step_at(*state, k), step_key(hp as int, from as int, to as int, bp as int, 0)).len(),
                                        move_sink.inv(),
                                    decreases 4 - bp,
                                {
                                    let build_height = HEIGHT_BUILDER_ORDER[bp];
                                    assert(build_height == 3 - bp);
                                    let buildings_of_height = buildable_adjacencies & heights[build_height];
                                    let mut build: i8 = 0;
                                    while build < 25
                                        invariant
                                            0 <= hp < 4,
                                            h == 3 - hp,
                                            0 <= from < 25,
                                            0 <= to < 25,
                                            0 <= bp < 4,
                                            build_height == 3 - bp,
                                            0 <= build <= 25,
                                            self.wf(),
                                            state.wf(),
                                            builders.0 == current(*state),
                                            builders.0 != 0,
                                            bit(reach.0, from as u32),
                                            bit(move_tos.0, to as u32),
                                            move_tos.0 == (heights[h as int].0 & available.0) & self.packed_adjacencies[from as int].0,
                                            buildings_of_height.0 == ((self.packed_adjacencies[to as int].0 & available.0) ^ (1u32 << from as u32)) & heights[build_height as int].0,
                                            forall|i: u32| i < 25 ==> #[trigger] bit(reach.0, i) == can_reach(*state, i as int, h as int),
                                            forall|hh: int, i: u32| 0 <= hh < 4 && i < 32 ==> #[trigger] bit(heights[hh].0, i) == (state.height(i) == hh),
                                            forall|i: u32| i < 32 ==> #[trigger] bit(available.0, i) == !state.occupied(i),
                                            start_room >= spec_next_moves(*self, *state).len(),
                                            move_sink.sunk() == start + listing(|k: int| step_at(*state, k), step_key(hp as int, from as int, to as int, bp as int, build as int)),
                                            move_sink.room() == start_room - listing(|k: int| step_at(*state, k), step_key(hp as int, from as int, to as int, bp as int, build as int)).len(),
                                            move_sink.inv(),
                                        decreases 25 - build,
                                    {
                                        let next_build = next_bit(buildings_of_height.0, build as u32);
                                        proof {
                                            lemma_skip_builds(*self, *state, available.0, reach.0, heights, hp as int, from as int, to as int,
                                                bp as int, build as int, next_build as int);
                                        }
                                        build = next_build as i8;
                                        if build < 25 {
                                            proof {
                                                lemma_step_at(*self, *state, available.0, reach.0, heights[h as int].0, heights[build_height as int].0,
                                                    hp as int, from as int, to as int, bp as int, build as int);
                                                lemma_step_key(hp as int, from as int, to as int, bp as int, build as int);
                                                lemma_listing_len(|k: int| step_at(*state, k), step_key(hp as int, from as int, to as int, bp as int, build as int) + 1, 250000);
                                            }
                                            move_sink.sink(Move::Move { from: Slot(from), to: Slot(to), build: Slot(build) });
                                            proof {
                                                assert(step_key(hp as int, from as int, to as int, bp as int, build as int) + 1
                                                    == step_key(hp as int, from as int, to as int, bp as int, build as int + 1));
                                            }
                                            build = build + 1;
                                        }
                                    }
                                    proof {
                                        assert(step_key(hp as int, from as int, to as int, bp as int, 25) == step_key(hp as int, from as int, to as int, bp as int + 1, 0));
                                    }
                                    bp = bp + 1;
                                }
                                proof {
                                    assert(step_key(hp as int, from as int, to as int, 4, 0) == step_key(hp as int, from as int, to as int + 1, 0, 0));
                                }
                                to = to + 1;
                            }
                        }
                        proof {
                            assert(step_key(hp as int, from as int, 25, 0, 0) == step_key(hp as int, from as int + 1, 0, 0, 0));
                        }
                        from = from + 1;
                    }
                }
                proof {
                    assert(step_key(hp as int, 25, 0, 0, 0) == (hp + 1) * 62500);
                }
                hp = hp + 1;
            }
        }
    }

    /// The Zobrist hash of `state`.
    pub fn hash(&self, state: &State) -> (r: StateHash)
        requires
            self.wf(),
            state.wf(),
        ensures
            r.0 == spec_hash(self.hash, *state),
    {
        let z = &self.hash;
        let mut hash = z.to_move[state.to_move.0 as usize];
        let ghost t = hash.0;
        let mut p: usize = 0;
        while p < 2
            invariant
                0 <= p <= 2,
                state.wf(),
                z == &self.hash,
                hash.0 == (if p == 0 { t } else if p == 1 { xor_builders(*z, 0, state.builders[0].0, t, 25) }
                    else { xor_builders(*z, 1, state.builders[1].0, xor_builders(*z, 0, state.builders[0].0, t, 25), 25) }),
            decreases 2 - p,
        {
            let x = state.builders[p].0;
            let ghost acc = hash.0;
            let mut bl: usize = 0;
            while bl < 25
                invariant
                    0 <= p < 2,
                    0 <= bl <= 25,
                    x == state.builders[p as int].0,
                    hash.0 == xor_builders(*z, p as int, x, acc, bl as int),
                decreases 25 - bl,
            {
                proof {
                    crate::bits::lemma_bit_read(x, bl as u32);
                }
                if (x >> bl as u32) & 1 == 1 {
                    hash = hash ^ z.builders[p][bl];
                }
                bl = bl + 1;
            }
            p = p + 1;
        }
        let ghost acc = hash.0;
        let mut sl: usize = 0;
        while sl < 25
            invariant
                0 <= sl <= 25,
                self.wf(),
                z == &self.hash,
                hash.0 == xor_buildings(*z, *state, acc, sl as int),
            decreases 25 - sl,
        {
            let hh = state.hash_height(self.slots[sl]);
            hash = hash ^ z.buildings[sl][hh];
            sl = sl + 1;
        }
        hash
    }

    /// The state after `mve`, the other player to move. Legality is not checked.
    pub fn apply(&self, mve: Move, state: &State) -> (r: State)
        requires
            0 <= state.to_move.0 < 2,
            move_in_range(mve),
        ensures
            r == spec_apply(*state, mve),
    {
        match mve {
            Move::PlaceBuilders { a, b } => {
                let player_to_move = state.to_move;
                let mut new_state = *state;
                let new_builder_mask = Packed1((1u32 << a.0 as u32) | (1u32 << b.0 as u32));
                new_state.builders[player_to_move.0 as usize] = new_state.builders[player_to_move.0 as usize] | new_builder_mask;
                new_state.to_move = new_state.next_player();
                let ghost expected = spec_apply(*state, mve);
                assert(new_state.builders@ =~= expected.builders@);
                assert(new_state.builders == expected.builders);
                assert(new_state == expected);
                new_state
            },
            Move::Move { from, to, build } => {
                let player_to_move = state.to_move;
                let mut new_state = *state;
                let movement_mask = Packed1((1u32 << from.0 as u32) | (1u32 << to.0 as u32));
                new_state.builders[player_to_move.0 as usize] = new_state.builders[player_to_move.0 as usize] ^ movement_mask;
                let ghost moved = new_state;
                new_state.build_at(build);
                new_state.to_move = new_state.next_player();
                let ghost expected = spec_apply(*state, mve);
                assert(moved.builders@ =~= with_current(*state, current(*state) ^ movement_mask.0)@);
                assert(new_state.builders@ =~= expected.builders@);
                assert(new_state.builders == expected.builders);
                assert(new_state == expected);
                new_state
            },
        }
    }

    /// The XOR that turns the hash of `state` into the hash of the state after `mve`.
    pub fn delta_hash(&self, state: &State, mve: Move) -> (r: StateHash)
        requires
            0 <= state.to_move.0 < 2,
            match mve {
                Move::PlaceBuilders { a, b } => 0 <= a.0 < 25 && 0 <= b.0 < 25,
                Move::Move { from, to, build } => 0 <= from.0 < 25 && 0 <= to.0 < 25 && 0 <= build.0 < 25
                    && state.spec_hash_height(build.0 as u32) < 4,
            },
        ensures
            r.0 == spec_delta_hash(self.hash, *state, mve),
    {
        match mve {
            Move::PlaceBuilders { a, b } => {
                let to_move = state.to_move.0 as usize;
                self.hash.switch_move ^ self.hash.builders[to_move][a.0 as usize] ^ self.hash.builders[to_move][b.0 as usize]
            },
            Move::Move { from, to, build } => {
                let to_move = state.to_move.0 as usize;
                let prior_height = state.hash_height(build);
                let build_at = build.0 as usize;
                self.hash.switch_move ^ self.hash.builders[to_move][from.0 as usize] ^ self.hash.builders[to_move][to.0 as usize]
                    ^ self.hash.buildings[build_at][prior_height] ^ self.hash.buildings[build_at][prior_height + 1]
            },
        }
    }

    /// Whether the player to move has a move: `next_moves` lists one.
    pub fn has_moves(&self, state: &State) -> (r: bool)
        requires
            self.wf(),
            state.wf(),
        ensures
            r == (spec_next_moves(*self, *state).len() > 0),
    {
        let mut counter = MoveCounter { count: 0, seen: Ghost(Seq::empty()) };
        proof {
            lemma_next_moves_len(*self, *state);
        }
        self.next_moves(state, &mut counter);
        counter.count > 0
    }

    /// Whether `mve` steps onto a height-3 building, which wins the game.
    pub fn ascension_winning_move(&self, state: &State, mve: Move) -> (r: bool)
        requires
            match mve {
                Move::Move { to, .. } => 0 <= to.0 < 32,
                _ => true,
            },
        ensures
            r == spec_ascension(*state, mve),
    {
        match mve {
            Move::PlaceBuilders { .. } => false,
            Move::Move { to, .. } => state.get_building_height(to) == 3,
        }
    }
}

} // verus!
