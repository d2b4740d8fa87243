//! Static evaluations of a position, from player 0's point of view.
use vstd::prelude::*;
use crate::bits::{bit, lemma_bit_small};
use crate::game::util::{Player, Slot};
use crate::game::packed::{Packed1, slots_of, bits_from, popcount, lemma_bits_from_facts};
use crate::game::santorini::{HeuristicValue, NONE_INDEX};
use crate::game::santorini::state::State;
use crate::game::santorini::board::{StandardBoard, neighbours, lemma_neighbours, adjacent};

verus! {

/// A score of a winning position for the side that wins.
pub const VICTORY: HeuristicValue = 32000;

/// The best score; its negation is the worst, so that negating a score never overflows.
pub const BEST: HeuristicValue = 32767;

pub const WORST: HeuristicValue = -32767;

pub const PLAYER_0_WIN: HeuristicValue = 32767;

pub const PLAYER_1_WIN: HeuristicValue = -32767;

/// A static evaluation: positive is good for player 0, negative for player 1.
pub trait Heuristic {
    /// The value `evaluate` gives.
    spec fn heuristic_value(board: StandardBoard, state: State) -> int;

    /// Heuristic values of well-formed positions lie between the worst and the best score.
    proof fn lemma_value_range(board: StandardBoard, state: State)
        requires
            board.wf(),
            state.wf(),
        ensures
            WORST <= Self::heuristic_value(board, state) <= BEST,
    ;

    fn name() -> (r: String);

    fn evaluate(board: &StandardBoard, state: &State) -> (r: HeuristicValue)
        requires
            board.wf(),
            state.wf(),
        ensures
            r as int == Self::heuristic_value(*board, *state),
            WORST <= r,
    ;
}

/// Sum of `f` over the squares of `q` from place `k` on.
pub open spec fn sum_from(q: Seq<Slot>, f: spec_fn(Slot) -> int, k: int) -> int
    decreases q.len() - k,
{
    if k < 0 || k >= q.len() {
        0
    } else {
        f(q[k]) + sum_from(q, f, k + 1)
    }
}

/// A sum of terms each between 0 and `hi` is between 0 and `hi` times their number.
pub proof fn lemma_sum_from_bounds(q: Seq<Slot>, f: spec_fn(Slot) -> int, k: int, hi: int)
    requires
        0 <= k <= q.len(),
        0 <= hi,
        forall|j: int| k <= j < q.len() ==> 0 <= #[trigger] f(q[j]) <= hi,
    ensures
        0 <= sum_from(q, f, k) <= hi * (q.len() - k),
    decreases q.len() - k,
{
    if k < q.len() {
        lemma_sum_from_bounds(q, f, k + 1, hi);
        assert(hi * (q.len() - (k + 1)) + hi == hi * (q.len() - k)) by (nonlinear_arith);
    }
}

/// The builders of a mask on the 25 squares are listed as at most 32 squares, each on the board.
pub proof fn lemma_slots_on_board(x: u32)
    requires
        x < 0x200_0000u32,
    ensures
        slots_of(x).len() <= 32,
        forall|k: int| 0 <= k < slots_of(x).len() ==> 0 <= #[trigger] slots_of(x)[k].0 < 25,
{
    lemma_bits_from_facts(x, 0);
    assert forall|k: int| 0 <= k < slots_of(x).len() implies 0 <= #[trigger] slots_of(x)[k].0 < 25 by {
        let e = slots_of(x)[k].0;
        if e >= 25 {
            lemma_bit_small(x, e as u32);
        }
    }
}

/// The building height of a square.
pub open spec fn height_of(s: State) -> spec_fn(Slot) -> int {
    |b: Slot| s.height(b.0 as u32) as int
}

/// Heights under player 0's builders minus heights under player 1's.
pub open spec fn simple_height_value(s: State) -> int {
    sum_from(slots_of(s.builders[0].0), height_of(s), 0) - sum_from(slots_of(s.builders[1].0), height_of(s), 0)
}

/// What a neighbour adds to the freedom of a builder at height `hb`: one more than its
/// height when the builder can step there (free, at most one storey up), else nothing.
pub open spec fn step_score(s: State, hb: int) -> spec_fn(Slot) -> int {
    |t: Slot| if !s.occupied(t.0 as u32) && s.height(t.0 as u32) <= hb + 1 { s.height(t.0 as u32) + 1int } else { 0int }
}

/// The freedom of one builder: one more than its height, plus the scores of its neighbours.
pub open spec fn builder_freedom(s: State) -> spec_fn(Slot) -> int {
    |b: Slot| s.height(b.0 as u32) + 1int + sum_from(neighbours(b.0 as int), step_score(s, s.height(b.0 as u32) as int), 0)
}

/// The freedom of player `p`: the sum of the freedoms of its builders.
pub open spec fn neighbour_freedom(s: State, p: int) -> int {
    sum_from(slots_of(s.builders[p].0), builder_freedom(s), 0)
}

/// Score of standing at height `h`.
pub open spec fn standing_score(h: int) -> int {
    if h == 1 { 2 } else if h == 2 { 8 } else if h == 3 { 2 } else { 0 }
}

/// Score of each reachable free square of height `h`.
pub open spec fn neighbour_score(h: int) -> int {
    if h == 0 { 1 } else if h == 1 { 2 } else if h == 2 { 4 } else { 8 }
}

/// The squares of height `h`, ignoring domes, as `State::building_map` gives them.
pub open spec fn height_mask(s: State, h: int) -> u32 {
    let a = s.building_major.0;
    let b = s.building_minor.0;
    if h == 0 { !a & !b } else if h == 1 { !a & b } else if h == 2 { a & !b } else { a & b }
}

/// The squares next to a builder of `q` (from place `k` on) that can climb to height `h`,
/// that is, one standing at height `h - 1` or above.
pub open spec fn reach_from(board: StandardBoard, s: State, q: Seq<Slot>, h: int, k: int) -> u32
    decreases q.len() - k,
{
    if k < 0 || k >= q.len() {
        0
    } else {
        let here = if h <= s.height(q[k].0 as u32) + 1 { board.packed_adjacencies[q[k].0 as int].0 } else { 0 };
        here | reach_from(board, s, q, h, k + 1)
    }
}

/// Score of the builders of player `p` standing where they stand.
pub open spec fn standing_of(s: State) -> spec_fn(Slot) -> int {
    |b: Slot| standing_score(s.height(b.0 as u32) as int)
}

/// The free squares of height `h` that a builder of player `p` can climb to.
pub open spec fn reachable_of_height(board: StandardBoard, s: State, p: int, h: int) -> u32 {
    let occupied = s.builders[0].0 | s.builders[1].0 | s.domes.0;
    (!occupied & reach_from(board, s, slots_of(s.builders[p].0), h, 0)) & height_mask(s, h)
}

/// Standing scores of player `p`'s builders plus, for each height, the number of free
/// squares of that height next to a builder that can climb there, times its score.
pub open spec fn adjusted_freedom(board: StandardBoard, s: State, p: int) -> int {
    sum_from(slots_of(s.builders[p].0), standing_of(s), 0)
        + popcount(reachable_of_height(board, s, p, 0)) * neighbour_score(0)
        + popcount(reachable_of_height(board, s, p, 1)) * neighbour_score(1)
        + popcount(reachable_of_height(board, s, p, 2)) * neighbour_score(2)
        + popcount(reachable_of_height(board, s, p, 3)) * neighbour_score(3)
}

pub struct SimpleHeightHeuristic {}

impl Heuristic for SimpleHeightHeuristic {
    open spec fn heuristic_value(board: StandardBoard, state: State) -> int {
        simple_height_value(state)
    }

    proof fn lemma_value_range(board: StandardBoard, state: State) {
        lemma_slots_on_board(state.builders[0].0);
        lemma_slots_on_board(state.builders[1].0);
        lemma_sum_from_bounds(slots_of(state.builders[0].0), height_of(state), 0, 3);
        lemma_sum_from_bounds(slots_of(state.builders[1].0), height_of(state), 0, 3);
    }

    fn name() -> (r: String)
        ensures
            r@ == "SimpleHeightHeuristic"@,
    {
        "SimpleHeightHeuristic".to_owned()
    }

    fn evaluate(board: &StandardBoard, state: &State) -> (r: HeuristicValue) {
        let mut n: HeuristicValue = 0;
        let mut p: usize = 0;
        while p < 2
            invariant
                0 <= p <= 2,
                state.wf(),
                n == (if p == 0 { 0 } else if p == 1 { sum_from(slots_of(state.builders[0].0), height_of(*state), 0) }
                    else { simple_height_value(*state) }),
                -96 <= n <= 96,
                p == 1 ==> 0 <= n,
            decreases 2 - p,
        {
            let x = state.builders[p].0;
            let ghost q = slots_of(x);
            let ghost n0 = n as int;
            proof {
                lemma_slots_on_board(x);
                lemma_sum_from_bounds(q, height_of(*state), 0, 3);
            }
            let mut it = state.builders[p].iter();
            let ghost mut k: int = 0;
            let mut part: HeuristicValue = 0;
            loop
                invariant
                    0 <= p < 2,
                    x == state.builders[p as int].0,
                    q == slots_of(x),
                    q.len() <= 32,
                    forall|j: int| 0 <= j < q.len() ==> 0 <= #[trigger] q[j].0 < 25,
                    0 <= k <= q.len(),
                    it.remaining() == q.subrange(k, q.len() as int),
                    part + sum_from(q, height_of(*state), k) == sum_from(q, height_of(*state), 0),
                    0 <= sum_from(q, height_of(*state), 0) <= 96,
                    0 <= part <= 3 * k,
                ensures
                    k == q.len(),
                decreases q.len() - k,
            {
                let nx = it.next();
                let bl = match nx {
                    Some(bl) => bl,
                    None => {
                        break;
                    },
                };
                assert(bl == q[k]);
                proof {
                    lemma_sum_from_bounds(q, height_of(*state), k + 1, 3);
                }
                if StandardBoard::valid(bl) {
                    let h = state.get_building_height(bl) as HeuristicValue;
                    part = part + h;
                } else {
                    return 0;
                }
                proof {
                    assert(it.remaining() =~= q.subrange(k + 1, q.len() as int));
                    k = k + 1;
                }
            }
            if p == 0 {
                n = n + part;
            } else {
                n = n - part;
            }
            p = p + 1;
        }
        n
    }
}

pub struct NeighbourHeuristic {}

impl Heuristic for NeighbourHeuristic {
    open spec fn heuristic_value(board: StandardBoard, state: State) -> int {
        neighbour_freedom(state, 0) - neighbour_freedom(state, 1)
    }

    proof fn lemma_value_range(board: StandardBoard, state: State) {
        lemma_neighbour_freedom_range(state, 0);
        lemma_neighbour_freedom_range(state, 1);
    }

    fn name() -> (r: String)
        ensures
            r@ == "NeighbourHeuristic"@,
    {
        "NeighbourHeuristic".to_owned()
    }

    fn evaluate(board: &StandardBoard, state: &State) -> (r: HeuristicValue) {
        let a = Self::freedom_for(board, state, Player(0));
        let b = Self::freedom_for(board, state, Player(1));
        a - b
    }
}

impl NeighbourHeuristic {
    /// The freedom of `player`: over its builders, one more than the height it stands
    /// on, plus, for each neighbour it could step to, one more than that neighbour's height.
    pub fn freedom_for(board: &StandardBoard, state: &State, player: Player) -> (r: HeuristicValue)
        requires
            board.wf(),
            state.wf(),
            player.0 == 0 || player.0 == 1,
        ensures
            r as int == neighbour_freedom(*state, player.0 as int),
            0 <= r <= 1152,
    {
        let mut n: HeuristicValue = 0;
        let collision = state.collision();
        let x = state.builders[player.0 as usize].0;
        let ghost q = slots_of(x);
        proof {
            lemma_slots_on_board(x);
        }
        let mut it = state.builders[player.0 as usize].iter();
        let ghost mut k: int = 0;
        loop
            invariant
                board.wf(),
                state.wf(),
                player.0 == 0 || player.0 == 1,
                x == state.builders[player.0 as int].0,
                forall|i: u32| #[trigger] bit(collision.0, i) == state.occupied(i),
                q == slots_of(x),
                q.len() <= 32,
                forall|j: int| 0 <= j < q.len() ==> 0 <= #[trigger] q[j].0 < 25,
                0 <= k <= q.len(),
                it.remaining() == q.subrange(k, q.len() as int),
                n + sum_from(q, builder_freedom(*state), k) == sum_from(q, builder_freedom(*state), 0),
                0 <= n <= 36 * k,
            ensures
                k == q.len(),
            decreases q.len() - k,
        {
            let nx = it.next();
            let bl = match nx {
                Some(bl) => bl,
                None => {
                    break;
                },
            };
            assert(bl == q[k]);
            if StandardBoard::valid(bl) {
                let current_height = state.get_building_height(bl);
                let ghost hb = current_height as int;
                let ghost nb = neighbours(bl.0 as int);
                let mut m: HeuristicValue = (current_height + 1) as HeuristicValue;
                proof {
                    lemma_neighbours(bl.0 as int);
                }
                let mut j: usize = 0;
                while j < 8
                    invariant_except_break
                        j <= nb.len(),
                    invariant
                        board.wf(),
                        state.wf(),
                        0 <= bl.0 < 25,
                        nb == neighbours(bl.0 as int),
                        nb.len() <= 8,
                        forall|t: int| 0 <= t < nb.len() ==> 0 <= #[trigger] nb[t].0 < 25,
                        forall|i: u32| #[trigger] bit(collision.0, i) == state.occupied(i),
                        hb == state.height(bl.0 as u32),
                        current_height == hb,
                        0 <= j <= 8,
                        m + sum_from(nb, step_score(*state, hb), j as int) == hb + 1 + sum_from(nb, step_score(*state, hb), 0),
                        1 <= m <= 4 + 4 * j,
                    ensures
                        m == hb + 1 + sum_from(nb, step_score(*state, hb), 0),
                        1 <= m <= 36,
                    decreases 8 - j,
                {
                    let move_to = board.adjacencies[bl.0 as usize][j];
                    if move_to.0 == NONE_INDEX {
                        assert(j >= nb.len());
                        break;
                    }
                    assert(j < nb.len() && move_to == nb[j as int]);
                    let target_height = state.get_building_height(move_to);
                    proof {
                        crate::bits::lemma_bit_read(collision.0, move_to.0 as u32);
                    }
                    if (collision.0 >> move_to.0 as u32) & 1 == 0 && target_height <= current_height + 1 {
                        m = m + (target_height + 1) as HeuristicValue;
                    }
                    j = j + 1;
                }
                proof {
                    assert(builder_freedom(*state)(bl) == m);
                }
                n = n + m;
            }
            proof {
                assert(it.remaining() =~= q.subrange(k + 1, q.len() as int));
                k = k + 1;
            }
        }
        n
    }
}

pub const STANDING_SCORE: [HeuristicValue; 4] = [0, 2, 8, 2];

pub const NEIGHBOUR_SCORE: [HeuristicValue; 4] = [1, 2, 4, 8];

pub struct AdjustedNeighbourHeuristic {}

impl Heuristic for AdjustedNeighbourHeuristic {
    open spec fn heuristic_value(board: StandardBoard, state: State) -> int {
        adjusted_freedom(board, state, 0) - adjusted_freedom(board, state, 1)
    }

    proof fn lemma_value_range(board: StandardBoard, state: State) {
        lemma_adjusted_freedom_range(board, state, 0);
        lemma_adjusted_freedom_range(board, state, 1);
    }

    fn name() -> (r: String)
        ensures
            r@ == "AdjustedNeighbourHeuristic"@,
    {
        "AdjustedNeighbourHeuristic".to_owned()
    }

    fn evaluate(board: &StandardBoard, state: &State) -> (r: HeuristicValue) {
        let heights = state.building_map();
        let collision = state.collision();
        let available = Packed1(!collision.0);
        let a = Self::freedom_for(board, state, Player(0), &heights, available);
        let b = Self::freedom_for(board, state, Player(1), &heights, available);
        a - b
    }
}

impl AdjustedNeighbourHeuristic {
    /// Standing scores of `player`'s builders, plus each free square of each height next
    /// to a builder that can climb there, scored by its height.
    pub fn freedom_for(board: &StandardBoard, state: &State, player: Player, heights: &[Packed1; 4], available: Packed1) -> (r: HeuristicValue)
        requires
            board.wf(),
            state.wf(),
            player.0 == 0 || player.0 == 1,
            forall|h: int| 0 <= h < 4 ==> #[trigger] heights[h].0 == height_mask(*state, h),
            available.0 == !(state.builders[0].0 | state.builders[1].0 | state.domes.0),
        ensures
            r as int == adjusted_freedom(*board, *state, player.0 as int),
            0 <= r <= 736,
    {
        let mut n: HeuristicValue = 0;
        let x = state.builders[player.0 as usize].0;
        let ghost q = slots_of(x);
        proof {
            lemma_slots_on_board(x);
        }
        let mut builder_adjacencies: [Packed1; 4] = [Packed1(0), Packed1(0), Packed1(0), Packed1(0)];
        let mut shared_adjacencies = Packed1(0);
        let mut it = state.builders[player.0 as usize].iter();
        let ghost mut k: int = 0;
        proof {
            lemma_or_zero(reach_from(*board, *state, q, 0, 0));
            lemma_or_zero(reach_from(*board, *state, q, 2, 0));
            lemma_or_zero(reach_from(*board, *state, q, 3, 0));
        }
        loop
            invariant
                board.wf(),
                state.wf(),
                player.0 == 0 || player.0 == 1,
                x == state.builders[player.0 as int].0,
                q == slots_of(x),
                q.len() <= 32,
                forall|j: int| 0 <= j < q.len() ==> 0 <= #[trigger] q[j].0 < 25,
                0 <= k <= q.len(),
                it.remaining() == q.subrange(k, q.len() as int),
                n + sum_from(q, standing_of(*state), k) == sum_from(q, standing_of(*state), 0),
                0 <= n <= 8 * k,
                shared_adjacencies.0 | reach_from(*board, *state, q, 0, k) == reach_from(*board, *state, q, 0, 0),
                forall|h: int| 2 <= h < 4 ==> #[trigger] builder_adjacencies[h].0 | reach_from(*board, *state, q, h, k)
                    == reach_from(*board, *state, q, h, 0),
            ensures
                k == q.len(),
            decreases q.len() - k,
        {
            let nx = it.next();
            let bl = match nx {
                Some(bl) => bl,
                None => {
                    break;
                },
            };
            assert(bl == q[k]);
            let h = state.get_building_height(bl);
            let hv = STANDING_SCORE[h as usize];
            assert(hv == standing_of(*state)(bl));
            n = n + hv;
            let adjacencies = board.packed_adjacencies[bl.0 as usize];
            let ghost old_shared = shared_adjacencies.0;
            let ghost old_ba = builder_adjacencies;
            shared_adjacencies = Packed1(shared_adjacencies.0 | adjacencies.0);
            let max_height: u8 = if h + 1 < 3 { h + 1 } else { 3 };
            let mut hh: u8 = 2;
            while hh < max_height + 1
                invariant
                    2 <= hh <= 4,
                    hh <= max_height + 1,
                    max_height == (if h + 1 < 3 { h + 1 } else { 3 }),
                    forall|g: int| 2 <= g < 4 ==> #[trigger] builder_adjacencies[g].0
                        == if g < hh { old_ba[g].0 | adjacencies.0 } else { old_ba[g].0 },
                decreases 4 - hh,
            {
                builder_adjacencies[hh as usize] = Packed1(builder_adjacencies[hh as usize].0 | adjacencies.0);
                hh = hh + 1;
            }
            proof {
                let a = adjacencies.0;
                let r0 = reach_from(*board, *state, q, 0, k + 1);
                lemma_or_assoc(old_shared, a, r0);
                assert forall|g: int| 2 <= g < 4 implies #[trigger] builder_adjacencies[g].0 | reach_from(*board, *state, q, g, k + 1)
                    == reach_from(*board, *state, q, g, 0) by {
                    let o = old_ba[g].0;
                    let r = reach_from(*board, *state, q, g, k + 1);
                    lemma_or_assoc(o, a, r);
                    lemma_or_zero(r);
                }
                assert(it.remaining() =~= q.subrange(k + 1, q.len() as int));
                k = k + 1;
            }
        }
        proof {
            assert(reach_from(*board, *state, q, 1, 0) == reach_from(*board, *state, q, 0, 0)) by {
                lemma_reach_low(*board, *state, q, 0);
            }
            lemma_or_zero(shared_adjacencies.0);
            assert forall|g: int| 2 <= g < 4 implies #[trigger] builder_adjacencies[g].0 == reach_from(*board, *state, q, g, 0) by {
                lemma_or_zero(builder_adjacencies[g].0);
            }
        }
        builder_adjacencies[0] = shared_adjacencies;
        builder_adjacencies[1] = shared_adjacencies;
        let mut h: usize = 0;
        while h < 4
            invariant
                0 <= h <= 4,
                board.wf(),
                state.wf(),
                player.0 == 0 || player.0 == 1,
                x == state.builders[player.0 as int].0,
                q == slots_of(x),
                forall|g: int| 0 <= g < 4 ==> #[trigger] heights[g].0 == height_mask(*state, g),
                available.0 == !(state.builders[0].0 | state.builders[1].0 | state.domes.0),
                forall|g: int| 0 <= g < 4 ==> #[trigger] builder_adjacencies[g].0 == reach_from(*board, *state, q, g, 0),
                n == sum_from(q, standing_of(*state), 0) + adjusted_tail(*board, *state, player.0 as int, h as int),
                0 <= n <= 256 + 32 * (if h == 0 { 0int } else if h == 1 { 1int } else if h == 2 { 3int } else if h == 3 { 7int } else { 15int }),
            decreases 4 - h,
        {
            let m = (available & builder_adjacencies[h]) & heights[h];
            let neighbour_count = m.count();
            proof {
                lemma_popcount_bound(m.0);
            }
            let ns = NEIGHBOUR_SCORE[h];
            proof {
                assert(ns == neighbour_score(h as int));
                assert(0 <= neighbour_count * ns <= 32 * ns) by (nonlinear_arith)
                    requires
                        0 <= neighbour_count <= 32,
                        1 <= ns <= 8;
            }
            let hv = (neighbour_count as HeuristicValue) * ns;
            n = n + hv;
            h = h + 1;
        }
        proof {
            reveal_with_fuel(adjusted_tail, 5);
        }
        n
    }
}

/// The neighbour part of `adjusted_freedom` for the heights below `h`.
pub open spec fn adjusted_tail(board: StandardBoard, s: State, p: int, h: int) -> int
    decreases h,
{
    if h <= 0 {
        0
    } else {
        adjusted_tail(board, s, p, h - 1) + popcount(reachable_of_height(board, s, p, h - 1)) * neighbour_score(h - 1)
    }
}

/// Terms that are each no larger sum to no more; one strictly smaller term makes the sum
/// strictly smaller.
proof fn lemma_sum_from_mono(q: Seq<Slot>, f: spec_fn(Slot) -> int, g: spec_fn(Slot) -> int, k: int)
    requires
        0 <= k <= q.len(),
        forall|j: int| k <= j < q.len() ==> #[trigger] g(q[j]) <= f(q[j]),
    ensures
        sum_from(q, g, k) <= sum_from(q, f, k),
        (exists|j: int| k <= j < q.len() && #[trigger] g(q[j]) < f(q[j])) ==> sum_from(q, g, k) < sum_from(q, f, k),
    decreases q.len() - k,
{
    if k < q.len() {
        lemma_sum_from_mono(q, f, g, k + 1);
        if exists|j: int| k <= j < q.len() && #[trigger] g(q[j]) < f(q[j]) {
            let j = choose|j: int| k <= j < q.len() && #[trigger] g(q[j]) < f(q[j]);
            if j > k {
                assert(k + 1 <= j < q.len() && g(q[j]) < f(q[j]));
            }
        }
    }
}

/// What a neighbour adds to a builder's freedom: nothing when a builder or a dome stands
/// on it or it is more than one storey above the builder; else one more than its height.
pub proof fn lemma_step_score(s: State, hb: int, t: Slot)
    ensures
        s.occupied(t.0 as u32) ==> step_score(s, hb)(t) == 0,
        s.height(t.0 as u32) > hb + 1 ==> step_score(s, hb)(t) == 0,
        !s.occupied(t.0 as u32) && s.height(t.0 as u32) <= hb + 1 ==> step_score(s, hb)(t) == s.height(t.0 as u32) + 1,
{
}

/// A builder counts one more than the height it stands on, plus what its neighbours add:
/// so a builder with no neighbour it could step to (each holds a builder or a dome, or
/// stands more than one storey above it) counts exactly one more than its height.
pub proof fn lemma_boxed_in_freedom(s: State, b: int)
    requires
        0 <= b < 25,
    ensures
        builder_freedom(s)(Slot(b as i8)) >= s.height(b as u32) + 1,
        (forall|x: int| adjacent(b, x) ==> #[trigger] s.occupied(x as u32) || s.height(x as u32) > s.height(b as u32) + 1)
            ==> builder_freedom(s)(Slot(b as i8)) == s.height(b as u32) + 1,
{
    let nb = neighbours(b);
    let hb = s.height(b as u32) as int;
    lemma_neighbours(b);
    assert forall|k: int| 0 <= k < nb.len() implies 0 <= #[trigger] step_score(s, hb)(nb[k]) <= 4 by {}
    lemma_sum_from_bounds(nb, step_score(s, hb), 0, 4);
    if forall|x: int| adjacent(b, x) ==> #[trigger] s.occupied(x as u32) || s.height(x as u32) > s.height(b as u32) + 1 {
        assert forall|k: int| 0 <= k < nb.len() implies 0 <= #[trigger] step_score(s, hb)(nb[k]) <= 0 by {
            let x = nb[k].0 as int;
            assert(nb.contains(Slot(x as i8)));
            assert(adjacent(b, x));
        }
        lemma_sum_from_bounds(nb, step_score(s, hb), 0, 0);
    }
}

/// Putting builders of the other player or domes on squares never raises a player's
/// freedom, and lowers it when such a square is a neighbour that one of its builders
/// could have stepped to: the freedom counts only free neighbours at most one storey up.
pub proof fn lemma_occupying_never_frees(s: State, s2: State, p: int)
    requires
        s.wf(),
        0 <= p < 2,
        s2.builders[p] == s.builders[p],
        forall|i: u32| #[trigger] s2.height(i) == s.height(i),
        forall|i: u32| s.occupied(i) ==> #[trigger] s2.occupied(i),
    ensures
        neighbour_freedom(s2, p) <= neighbour_freedom(s, p),
        (exists|b: int, x: int| #![trigger adjacent(b, x)] bit(s.builders[p].0, b as u32) && adjacent(b, x)
            && !s.occupied(x as u32) && s2.occupied(x as u32) && s.height(x as u32) <= s.height(b as u32) + 1)
            ==> neighbour_freedom(s2, p) < neighbour_freedom(s, p),
{
    let q = slots_of(s.builders[p].0);
    lemma_slots_on_board(s.builders[p].0);
    lemma_bits_from_facts(s.builders[p].0, 0);
    assert forall|j: int| 0 <= j < q.len() implies #[trigger] builder_freedom(s2)(q[j]) <= builder_freedom(s)(q[j]) by {
        let b = q[j];
        let hb = s.height(b.0 as u32) as int;
        let nb = neighbours(b.0 as int);
        assert forall|k: int| 0 <= k < nb.len() implies #[trigger] step_score(s2, hb)(nb[k]) <= step_score(s, hb)(nb[k]) by {
            assert(s2.height(nb[k].0 as u32) == s.height(nb[k].0 as u32));
        }
        lemma_sum_from_mono(nb, step_score(s, hb), step_score(s2, hb), 0);
        assert(s2.height(b.0 as u32) == s.height(b.0 as u32));
    }
    lemma_sum_from_mono(q, builder_freedom(s), builder_freedom(s2), 0);
    if exists|b: int, x: int| #![trigger adjacent(b, x)] bit(s.builders[p].0, b as u32) && adjacent(b, x)
        && !s.occupied(x as u32) && s2.occupied(x as u32) && s.height(x as u32) <= s.height(b as u32) + 1 {
        let (b, x) = choose|b: int, x: int| #![trigger adjacent(b, x)] bit(s.builders[p].0, b as u32) && adjacent(b, x)
            && !s.occupied(x as u32) && s2.occupied(x as u32) && s.height(x as u32) <= s.height(b as u32) + 1;
        assert(q.contains(Slot(b as i8)));
        let jb = choose|jb: int| 0 <= jb < q.len() && q[jb] == Slot(b as i8);
        lemma_neighbours(b);
        let nb = neighbours(b);
        assert(nb.contains(Slot(x as i8)));
        let jx = choose|jx: int| 0 <= jx < nb.len() && nb[jx] == Slot(x as i8);
        let hb = s.height(b as u32) as int;
        assert(step_score(s2, hb)(nb[jx]) < step_score(s, hb)(nb[jx]));
        assert forall|k: int| 0 <= k < nb.len() implies #[trigger] step_score(s2, hb)(nb[k]) <= step_score(s, hb)(nb[k]) by {
            assert(s2.height(nb[k].0 as u32) == s.height(nb[k].0 as u32));
        }
        lemma_sum_from_mono(nb, step_score(s, hb), step_score(s2, hb), 0);
        assert(s2.height(b as u32) == s.height(b as u32));
        assert(builder_freedom(s2)(q[jb]) < builder_freedom(s)(q[jb]));
    }
}

/// The freedom of a player lies between 0 and 1152.
pub proof fn lemma_neighbour_freedom_range(s: State, p: int)
    requires
        s.wf(),
        0 <= p < 2,
    ensures
        0 <= neighbour_freedom(s, p) <= 1152,
{
    let q = slots_of(s.builders[p].0);
    lemma_slots_on_board(s.builders[p].0);
    assert forall|j: int| 0 <= j < q.len() implies 0 <= #[trigger] builder_freedom(s)(q[j]) <= 36 by {
        let b = q[j];
        let nb = neighbours(b.0 as int);
        let hb = s.height(b.0 as u32) as int;
        lemma_neighbours(b.0 as int);
        lemma_sum_from_bounds(nb, step_score(s, hb), 0, 4);
    }
    lemma_sum_from_bounds(q, builder_freedom(s), 0, 36);
}

/// The adjusted freedom of a player lies between 0 and 736.
pub proof fn lemma_adjusted_freedom_range(board: StandardBoard, s: State, p: int)
    requires
        s.wf(),
        0 <= p < 2,
    ensures
        0 <= adjusted_freedom(board, s, p) <= 736,
{
    let q = slots_of(s.builders[p].0);
    lemma_slots_on_board(s.builders[p].0);
    lemma_sum_from_bounds(q, standing_of(s), 0, 8);
    lemma_popcount_bound(reachable_of_height(board, s, p, 0));
    lemma_popcount_bound(reachable_of_height(board, s, p, 1));
    lemma_popcount_bound(reachable_of_height(board, s, p, 2));
    lemma_popcount_bound(reachable_of_height(board, s, p, 3));
}

/// Heights 0 and 1 can be reached from any height.
proof fn lemma_reach_low(board: StandardBoard, s: State, q: Seq<Slot>, k: int)
    requires
        0 <= k <= q.len(),
    ensures
        reach_from(board, s, q, 1, k) == reach_from(board, s, q, 0, k),
    decreases q.len() - k,
{
    if k < q.len() {
        lemma_reach_low(board, s, q, k + 1);
    }
}

proof fn lemma_or_zero(a: u32)
    ensures
        0u32 | a == a,
        a | 0u32 == a,
{
    assert(0u32 | a == a && a | 0u32 == a) by (bit_vector);
}

proof fn lemma_or_assoc(a: u32, b: u32, c: u32)
    ensures
        (a | b) | c == a | (b | c),
{
    assert((a | b) | c == a | (b | c)) by (bit_vector);
}

/// At most 32 squares are set in a mask.
proof fn lemma_popcount_bound(x: u32)
    ensures
        popcount(x) <= 32,
{
    lemma_bits_from_facts(x, 0);
}

} // verus!
