//! A Santorini position: builders, buildings, domes and the player to move.
use vstd::prelude::*;
use crate::bits::{bit, lemma_bit_and, lemma_bit_or, lemma_bit_not, lemma_bit_single, lemma_bit_small};
use crate::game::util::{Player, Slot, Packed};
use crate::game::packed::{Packed1, packed1_empty, ALL_MASK_32};

verus! {

/// Order in which build heights are tried when listing moves.
pub const HEIGHT_BUILDER_ORDER: [usize; 4] = [3, 2, 1, 0];

/// Heights are held in two one-bit boards: `building_major` is the 2s bit and
/// `building_minor` the 1s bit.
#[derive(Debug, Copy, Clone, PartialEq, Hash, Eq)]
pub struct State {
    pub builders: [Packed1; 2],
    pub building_major: Packed1,
    pub building_minor: Packed1,
    pub domes: Packed1,
    pub to_move: Player,
}

/// `x` with bit `s` replaced by the low bits of `v` shifted to `s`, as `Packed1::setb` does it.
pub open spec fn spec_setb(x: u32, s: u32, v: u32) -> u32 {
    (x & ((1u32 << s) ^ 0xffffffffu32)) | (v << s)
}

impl State {
    /// This state with the building height on `slot` set to `h` modulo 4.
    pub open spec fn with_height(self, slot: u32, h: u8) -> State {
        State {
            builders: self.builders,
            building_major: Packed1(spec_setb(self.building_major.0, slot, ((h >> 1u8) & 1u8) as u32)),
            building_minor: Packed1(spec_setb(self.building_minor.0, slot, (h & 1u8) as u32)),
            domes: self.domes,
            to_move: self.to_move,
        }
    }

    /// This state after one level is built on `slot`.
    pub open spec fn spec_build_at(self, slot: u32) -> State {
        if self.height(slot) == 3 {
            State {
                builders: self.builders,
                building_major: self.building_major,
                building_minor: self.building_minor,
                domes: Packed1(self.domes.0 ^ (1u32 << slot)),
                to_move: self.to_move,
            }
        } else {
            self.with_height(slot, (self.height(slot) + 1) as u8)
        }
    }

    /// Building height (0 to 3) on square `i`.
    pub open spec fn height(&self, i: u32) -> nat {
        (if bit(self.building_major.0, i) { 2nat } else { 0nat }) + (if bit(self.building_minor.0, i) { 1nat } else { 0nat })
    }

    /// Whether a builder, of either player, or a dome stands on square `i`.
    pub open spec fn occupied(&self, i: u32) -> bool {
        bit(self.builders[0].0, i) || bit(self.builders[1].0, i) || bit(self.domes.0, i)
    }

    /// The player to move is 0 or 1 and every builder stands on one of the 25 squares.
    pub open spec fn wf(&self) -> bool {
        &&& (self.to_move.0 == 0 || self.to_move.0 == 1)
        &&& self.builders[0].0 < 0x200_0000u32
        &&& self.builders[1].0 < 0x200_0000u32
    }

    /// Height used by the hash: 4 for a dome, else the building height.
    pub open spec fn spec_hash_height(&self, i: u32) -> nat {
        if bit(self.domes.0, i) { 4 } else { self.height(i) }
    }

    /// `(to_move + 1)` modulo 2, with the sign of the dividend as Rust's `%` has it.
    pub open spec fn spec_next_player(&self) -> Player {
        let v = self.to_move.0 + 1;
        Player((if v >= 0 { v % 2 } else { -((-v) % 2) }) as i8)
    }

    /// The empty board with player 0 to move.
    pub open spec fn spec_initial() -> State {
        State {
            builders: [Packed1(0), Packed1(0)],
            building_major: Packed1(0),
            building_minor: Packed1(0),
            domes: Packed1(0),
            to_move: Player(0),
        }
    }

    /// The empty board with player 0 to move.
    pub fn initial() -> (r: State)
        ensures
            r == State::spec_initial(),
            r.builders[0].0 == 0,
            r.builders[1].0 == 0,
            r.building_major.0 == 0,
            r.building_minor.0 == 0,
            r.domes.0 == 0,
            r.to_move == Player(0),
            r.wf(),
    {
        let r = State {
            builders: [packed1_empty(); 2],
            building_major: packed1_empty(),
            building_minor: packed1_empty(),
            domes: packed1_empty(),
            to_move: Player(0),
        };
        assert(r.builders@ =~= State::spec_initial().builders@);
        assert(r.builders == State::spec_initial().builders);
        r
    }

    /// The squares of each height 0, 1, 2 and 3, ignoring domes.
    pub fn building_map(&self) -> (r: [Packed1; 4])
        ensures
            r[0].0 == !self.building_major.0 & !self.building_minor.0,
            r[1].0 == !self.building_major.0 & self.building_minor.0,
            r[2].0 == self.building_major.0 & !self.building_minor.0,
            r[3].0 == self.building_major.0 & self.building_minor.0,
            forall|h: int, i: u32| 0 <= h < 4 && i < 32 ==> #[trigger] bit(r[h].0, i) == (self.height(i) == h),
    {
        let major = self.building_major;
        let minor = self.building_minor;
        let r = [
            Packed1(!major.0 & !minor.0),
            Packed1(!major.0 & minor.0),
            Packed1(major.0 & !minor.0),
            Packed1(major.0 & minor.0),
        ];
        proof {
            let a = self.building_major.0;
            let b = self.building_minor.0;
            assert forall|h: int, i: u32| 0 <= h < 4 && i < 32 implies #[trigger] bit(r[h].0, i) == (self.height(i) == h) by {
                lemma_bit_not(a, i);
                lemma_bit_not(b, i);
                lemma_bit_and(!a, !b, i);
                lemma_bit_and(!a, b, i);
                lemma_bit_and(a, !b, i);
                lemma_bit_and(a, b, i);
            }
        }
        r
    }

    /// The builders of the player to move.
    pub fn current_builders(&self) -> (r: Packed1)
        requires
            0 <= self.to_move.0 < 2,
        ensures
            r == self.builders[self.to_move.0 as int],
    {
        self.builders[self.to_move.0 as usize]
    }

    /// Squares that cannot be entered: builders of both players and domes.
    pub fn collision(&self) -> (r: Packed1)
        ensures
            r.0 == self.builders[0].0 | self.builders[1].0 | self.domes.0,
            forall|i: u32| #[trigger] bit(r.0, i) == self.occupied(i),
    {
        let r = self.builders[0] | self.builders[1] | self.domes;
        proof {
            assert forall|i: u32| #[trigger] bit(r.0, i) == self.occupied(i) by {
                lemma_bit_or(self.builders[0].0 | self.builders[1].0, self.domes.0, i);
                lemma_bit_or(self.builders[0].0, self.builders[1].0, i);
            }
        }
        r
    }

    /// The same position: every board and the player to move equal.
    pub fn same_as(&self, other: &State) -> (r: bool)
        ensures
            r == (*self == *other),
    {
        let r = self.builders[0] == other.builders[0] && self.builders[1] == other.builders[1]
            && self.building_major == other.building_major && self.building_minor == other.building_minor
            && self.domes == other.domes && self.to_move == other.to_move;
        proof {
            if r {
                assert(self.builders@ =~= other.builders@);
                assert(self.builders == other.builders);
            }
        }
        r
    }

    pub fn player(&self) -> (r: Player)
        ensures
            r == self.to_move,
    {
        self.to_move
    }

    /// The other player.
    pub fn next_player(&self) -> (r: Player)
        requires
            self.to_move.0 < 127,
        ensures
            r == self.spec_next_player(),
            self.to_move.0 == 0 ==> r == Player(1),
            self.to_move.0 == 1 ==> r == Player(0),
    {
        Player((self.to_move.0 + 1) % 2)
    }

    /// Height as seen by the hash: 4 on a dome, else the building height.
    pub fn hash_height(&self, slot: Slot) -> (r: usize)
        requires
            0 <= slot.0 < 32,
        ensures
            r == self.spec_hash_height(slot.0 as u32),
    {
        if self.domes.get(slot) == 1 {
            4
        } else {
            self.get_building_height(slot) as usize
        }
    }

    /// This state with no builder, of either player, on `slot`.
    pub fn without_builder_at(&self, slot: Slot) -> (r: State)
        requires
            0 <= slot.0 < 32,
        ensures
            r.builders[0].0 == self.builders[0].0 & ((1u32 << slot.0 as u32) ^ ALL_MASK_32),
            r.builders[1].0 == self.builders[1].0 & ((1u32 << slot.0 as u32) ^ ALL_MASK_32),
            forall|p: int, i: u32| 0 <= p < 2 ==> #[trigger] bit(r.builders[p].0, i) == (bit(self.builders[p].0, i) && i != slot.0),
            r.building_major == self.building_major,
            r.building_minor == self.building_minor,
            r.domes == self.domes,
            r.to_move == self.to_move,
    {
        let mut new_state = *self;
        let s = slot.0 as u32;
        let mask: u32 = (1u32 << s) ^ ALL_MASK_32;
        new_state.builders[0].0 = new_state.builders[0].0 & mask;
        new_state.builders[1].0 = new_state.builders[1].0 & mask;
        proof {
            assert forall|i: u32| #[trigger] bit(mask, i) == (i < 32 && i != s) by {
                assert(s < 32 ==> bit((1u32 << s) ^ 0xffffffffu32, i) == (i < 32 && i != s)) by (bit_vector);
            }
            assert forall|p: int, i: u32| 0 <= p < 2 implies #[trigger] bit(new_state.builders[p].0, i) == (bit(self.builders[p].0, i) && i != s) by {
                lemma_bit_and(self.builders[p].0, mask, i);
            }
        }
        new_state
    }

    /// Building height on `slot`, 0 to 3.
    pub fn get_building_height(&self, slot: Slot) -> (r: u8)
        requires
            0 <= slot.0 < 32,
        ensures
            r == self.height(slot.0 as u32),
    {
        self.building_major.get(slot) * 2 + self.building_minor.get(slot)
    }

    /// Sets the building height on `slot` to `height` modulo 4.
    pub fn set_building_height(&mut self, slot: Slot, height: u8)
        requires
            0 <= slot.0 < 32,
        ensures
            *final(self) == old(self).with_height(slot.0 as u32, height),
            final(self).height(slot.0 as u32) == height % 4,
            forall|i: u32| i != slot.0 ==> #[trigger] final(self).height(i) == old(self).height(i),
            final(self).builders == old(self).builders,
            final(self).domes == old(self).domes,
            final(self).to_move == old(self).to_move,
    {
        let hi = (height >> 1) & 1;
        let lo = height & 1;
        assert(hi <= 1 && lo <= 1 && hi * 2 + lo == height % 4) by (bit_vector)
            requires hi == (height >> 1) & 1u8, lo == height & 1u8;
        self.building_major.setb(slot, hi);
        self.building_minor.setb(slot, lo);
    }

    /// Builds one level on `slot`: a dome on top of height 3, else one storey.
    pub fn build_at(&mut self, slot: Slot)
        requires
            0 <= slot.0 < 32,
        ensures
            *final(self) == old(self).spec_build_at(slot.0 as u32),
            old(self).height(slot.0 as u32) == 3 ==> final(self).building_major == old(self).building_major
                && final(self).building_minor == old(self).building_minor
                && final(self).domes.0 == old(self).domes.0 ^ (1u32 << slot.0 as u32),
            old(self).height(slot.0 as u32) < 3 ==> final(self).domes == old(self).domes
                && final(self).height(slot.0 as u32) == old(self).height(slot.0 as u32) + 1
                && forall|i: u32| i != slot.0 ==> #[trigger] final(self).height(i) == old(self).height(i),
            forall|i: u32| i != slot.0 ==> (#[trigger] bit(final(self).domes.0, i) == bit(old(self).domes.0, i)),
            old(self).height(slot.0 as u32) == 3 ==> bit(final(self).domes.0, slot.0 as u32) == !bit(old(self).domes.0, slot.0 as u32),
            final(self).builders == old(self).builders,
            final(self).to_move == old(self).to_move,
    {
        let height = self.get_building_height(slot);
        let build_dome = height == 3;
        if build_dome {
            self.domes.toggle(slot);
        } else {
            self.set_building_height(slot, height + 1);
        }
    }
}

/// Bits of `spec_setb`: bit `s` becomes `v`, the others stay.
pub proof fn lemma_setb_bits(x: u32, s: u32, v: u32, i: u32)
    requires
        s < 32,
        v <= 1,
    ensures
        bit(spec_setb(x, s, v), i) == if i == s { v == 1 } else { bit(x, i) },
{
    assert(s < 32 && v <= 1 ==> bit((x & ((1u32 << s) ^ 0xffffffffu32)) | (v << s), i) == if i == s { v == 1 } else { bit(x, i) })
        by (bit_vector);
}

/// Building on `slot` changes no height elsewhere, and one storey more on `slot` unless
/// it stood at height 3.
pub proof fn lemma_build_at_heights(st: State, slot: u32)
    requires
        slot < 32,
    ensures
        forall|i: u32| i != slot ==> #[trigger] st.spec_build_at(slot).height(i) == st.height(i),
        st.height(slot) < 3 ==> st.spec_build_at(slot).height(slot) == st.height(slot) + 1,
        st.height(slot) < 3 ==> st.spec_build_at(slot).domes == st.domes,
        st.height(slot) == 3 ==> st.spec_build_at(slot).domes.0 == st.domes.0 ^ (1u32 << slot),
{
    let h = (st.height(slot) + 1) as u8;
    if st.height(slot) < 3 {
        let hi = ((h >> 1u8) & 1u8) as u32;
        let lo = (h & 1u8) as u32;
        assert(hi <= 1 && lo <= 1 && (h <= 3 ==> hi * 2 + lo == h)) by (bit_vector)
            requires
                hi == ((h >> 1u8) & 1u8) as u32,
                lo == (h & 1u8) as u32;
        assert forall|i: u32| #[trigger] st.spec_build_at(slot).height(i) == if i == slot { h as nat } else { st.height(i) } by {
            lemma_setb_bits(st.building_major.0, slot, hi, i);
            lemma_setb_bits(st.building_minor.0, slot, lo, i);
        }
    }
}

} // verus!
