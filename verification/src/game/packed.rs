//! The one-bit board: a set of squares packed into a `u32`.
use vstd::prelude::*;
use crate::bits::{bit, lemma_bit_and, lemma_bit_or, lemma_bit_xor, lemma_bit_not, lemma_bit_single, lemma_bit_zero, lemma_bit_read};
use crate::game::util::{Slot, Packed, grid, grid_text};

verus! {

#[derive(Copy, Clone, Eq, PartialEq, Structural, Hash, Debug)]
pub struct Packed1(pub u32);

pub const ONE_MASK: u32 = 1;

pub const ALL_MASK_32: u32 = 0xffffffff;

/// The empty board.
pub fn packed1_empty() -> (r: Packed1)
    ensures
        r.0 == 0,
{
    Packed1(0)
}

/// The squares whose bit is set in `x`, from square `i` up, in increasing order.
pub open spec fn bits_from(x: u32, i: int) -> Seq<Slot>
    decreases 32 - i,
{
    if i < 0 || i >= 32 {
        seq![]
    } else if bit(x, i as u32) {
        seq![Slot(i as i8)] + bits_from(x, i + 1)
    } else {
        bits_from(x, i + 1)
    }
}

/// The squares of `x`, in increasing order.
pub open spec fn slots_of(x: u32) -> Seq<Slot> {
    bits_from(x, 0)
}

/// Number of set bits of `x`.
pub open spec fn popcount(x: u32) -> nat {
    slots_of(x).len()
}

/// Number of set bits of `x` below bit `n`.
pub open spec fn count_below(x: u32, n: int) -> nat
    decreases n,
{
    if n <= 0 {
        0
    } else {
        count_below(x, n - 1) + if bit(x, (n - 1) as u32) { 1nat } else { 0nat }
    }
}

proof fn lemma_bits_from_count(x: u32, i: int)
    requires
        0 <= i <= 32,
    ensures
        bits_from(x, i).len() + count_below(x, i) == count_below(x, 32),
    decreases 32 - i,
{
    if i < 32 {
        lemma_bits_from_count(x, i + 1);
    }
}

/// The set bits of `x`, counted from the bottom.
pub proof fn lemma_popcount_count(x: u32)
    ensures
        popcount(x) == count_below(x, 32),
{
    lemma_bits_from_count(x, 0);
}

/// Setting a clear bit `k` adds one to the count of the bits below any `n` above `k`.
pub proof fn lemma_count_below_add(x: u32, k: u32, n: int)
    requires
        k < 32,
        !bit(x, k),
        0 <= n <= 32,
    ensures
        count_below(x | (1u32 << k), n) == count_below(x, n) + if k < n { 1nat } else { 0nat },
    decreases n,
{
    if n > 0 {
        lemma_count_below_add(x, k, n - 1);
        lemma_bit_or(x, 1u32 << k, (n - 1) as u32);
        lemma_bit_single(k, (n - 1) as u32);
    }
}

/// Skipping a run of clear bits does not change the listed squares.
pub proof fn lemma_bits_from_skip(x: u32, i: int, t: int)
    requires
        0 <= i <= t,
        forall|j: u32| i <= j < t ==> !#[trigger] bit(x, j),
    ensures
        bits_from(x, i) == bits_from(x, t),
    decreases t - i,
{
    if i < t && i < 32 {
        assert(!bit(x, i as u32));
        lemma_bits_from_skip(x, i + 1, t);
    } else if i < t {
        lemma_bits_from_empty(x, i);
        lemma_bits_from_empty(x, t);
    }
}

pub proof fn lemma_bits_from_empty(x: u32, i: int)
    requires
        i >= 32,
    ensures
        bits_from(x, i) == Seq::<Slot>::empty(),
{
}

/// Two masks agreeing from bit `i` up list the same squares from `i` up.
pub proof fn lemma_bits_from_congr(x: u32, y: u32, i: int)
    requires
        0 <= i,
        forall|j: u32| i <= j < 32 ==> #[trigger] bit(x, j) == bit(y, j),
    ensures
        bits_from(x, i) == bits_from(y, i),
    decreases 32 - i,
{
    if i < 32 {
        assert(bit(x, i as u32) == bit(y, i as u32));
        lemma_bits_from_congr(x, y, i + 1);
    }
}

/// Every listed square is a set bit at or above `i`, the list is strictly increasing,
/// and every set bit at or above `i` is listed.
pub proof fn lemma_bits_from_facts(x: u32, i: int)
    requires
        0 <= i,
    ensures
        forall|k: int| 0 <= k < bits_from(x, i).len() ==> i <= #[trigger] bits_from(x, i)[k].0 < 32
            && bit(x, bits_from(x, i)[k].0 as u32),
        forall|k: int, l: int| 0 <= k < l < bits_from(x, i).len() ==> bits_from(x, i)[k].0 < bits_from(x, i)[l].0,
        forall|j: u32| i <= j < 32 && bit(x, j) ==> bits_from(x, i).contains(Slot(j as i8)),
        bits_from(x, i).len() <= 32 - i || i >= 32,
    decreases 32 - i,
{
    if i < 32 {
        lemma_bits_from_facts(x, i + 1);
        let rest = bits_from(x, i + 1);
        if bit(x, i as u32) {
            let s = seq![Slot(i as i8)] + rest;
            assert(s[0] == Slot(i as i8));
            assert forall|k: int| 0 < k < s.len() implies s[k] == rest[k - 1] by {}
            assert forall|j: u32| i <= j < 32 && bit(x, j) implies s.contains(Slot(j as i8)) by {
                if j == i {
                    assert(s[0] == Slot(j as i8));
                } else {
                    let k = choose|k: int| 0 <= k < rest.len() && rest[k] == Slot(j as i8);
                    assert(s[k + 1] == Slot(j as i8));
                }
            }
        } else {
            assert forall|j: u32| i <= j < 32 && bit(x, j) implies rest.contains(Slot(j as i8)) by {
                assert(j != i);
            }
        }
    }
}

impl Packed1 {
    pub open spec fn has(self, i: int) -> bool {
        0 <= i < 32 && bit(self.0, i as u32)
    }

    /// The lowest occupied square; square 32 stands for "none".
    #[inline]
    pub fn bitscan(&self) -> (r: Slot)
        ensures
            r.0 == vstd::std_specs::bits::u32_trailing_zeros(self.0),
            self.0 != 0 ==> 0 <= r.0 < 32 && bit(self.0, r.0 as u32)
                && forall|j: u32| j < r.0 ==> !#[trigger] bit(self.0, j),
            self.0 == 0 ==> r.0 == 32,
    {
        proof {
            vstd::std_specs::bits::axiom_u32_trailing_zeros(self.0);
        }
        let t = self.0.trailing_zeros();
        proof {
            if self.0 != 0 {
                assert forall|j: u32| j < t implies !#[trigger] bit(self.0, j) by {
                    assert(0 <= j < vstd::std_specs::bits::u32_trailing_zeros(self.0));
                }
            }
        }
        Slot(t as i8)
    }

    /// The board holding only the lowest occupied square.
    #[inline]
    pub fn lsb(&self) -> (r: Packed1)
        ensures
            self.0 != 0 ==> forall|j: u32| #[trigger] bit(r.0, j) == (j == vstd::std_specs::bits::u32_trailing_zeros(self.0)),
            self.0 == 0 ==> r.0 == 0,
    {
        let x = self.0;
        let w = 0u32.wrapping_sub(x);
        let r = x & w;
        proof {
            vstd::std_specs::bits::axiom_u32_trailing_zeros(x);
            if x == 0 {
                assert(r == 0) by (bit_vector)
                    requires x == 0u32, r == x & w;
            } else {
                let t = vstd::std_specs::bits::u32_trailing_zeros(x);
                let u = (32 - t) as u32;
                assert(x << u == 0);
                assert(w == 0x1_0000_0000 - x);
                assert(t < 32 && u == 32 - t && (x >> t) & 1u32 == 1u32 && x << u == 0 && w == 0x1_0000_0000 - x
                    && x > 0 && r == x & w ==> r == 1u32 << t) by (bit_vector);
                assert forall|j: u32| #[trigger] bit(r, j) == (j == t) by {
                    lemma_bit_single(t, j);
                }
            }
        }
        Packed1(r)
    }

    /// The squares of this board, lowest first.
    #[inline]
    pub fn iter(self) -> (r: Packed1Iterator)
        ensures
            r.remaining() == slots_of(self.0),
    {
        Packed1Iterator(self)
    }

    /// Puts `value` (0 or 1 for the usual use) at `slot`.
    pub fn setb(&mut self, slot: Slot, value: u8)
        requires
            0 <= slot.0 < 32,
        ensures
            final(self).0 == (old(self).0 & ((1u32 << slot.0 as u32) ^ ALL_MASK_32)) | ((value as u32) << slot.0 as u32),
            value <= 1 ==> forall|i: u32| #[trigger] bit(final(self).0, i) == if i == slot.0 { value == 1 && i < 32 } else { bit(old(self).0, i) },
    {
        let s = slot.0 as u32;
        let remove_mask: u32 = (1u32 << s) ^ ALL_MASK_32;
        let old_v = self.0;
        let v = value as u32;
        self.0 = (self.0 & remove_mask) | (v << s);
        let new_v = self.0;
        proof {
            if value <= 1 {
                assert forall|i: u32| #[trigger] bit(new_v, i) == if i == s { v == 1 && i < 32 } else { bit(old_v, i) } by {
                    assert(s < 32 && v <= 1 && new_v == (old_v & ((1u32 << s) ^ 0xffffffffu32)) | (v << s)
                        ==> bit(new_v, i) == if i == s { v == 1 && i < 32 } else { bit(old_v, i) }) by (bit_vector);
                }
            }
        }
    }

    /// Whether any square is occupied.
    pub fn any(&self) -> (r: bool)
        ensures
            r == (self.0 != 0),
    {
        self.0 != 0
    }

    /// Number of occupied squares.
    pub fn count(&self) -> (r: u32)
        ensures
            r == popcount(self.0),
    {
        let mut it = self.iter();
        let mut n: u32 = 0;
        proof {
            lemma_bits_from_facts(self.0, 0);
        }
        loop
            invariant
                n + it.remaining().len() == popcount(self.0),
                popcount(self.0) <= 32,
            ensures
                n == popcount(self.0),
            decreases it.remaining().len(),
        {
            match it.next() {
                None => {
                    break;
                },
                Some(_) => {
                    n = n + 1;
                },
            }
        }
        n
    }

    /// Flips `slot`.
    pub fn toggle(&mut self, slot: Slot)
        requires
            0 <= slot.0 < 32,
        ensures
            final(self).0 == old(self).0 ^ (1u32 << slot.0 as u32),
            forall|i: u32| #[trigger] bit(final(self).0, i) == if i == slot.0 { !bit(old(self).0, i) } else { bit(old(self).0, i) },
    {
        let s = slot.0 as u32;
        let old_v = self.0;
        self.0 = self.0 ^ (1u32 << s);
        proof {
            assert forall|i: u32| #[trigger] bit(self.0, i) == if i == s { !bit(old_v, i) } else { bit(old_v, i) } by {
                lemma_bit_xor(old_v, 1u32 << s, i);
                lemma_bit_single(s, i);
            }
        }
    }
}

impl Packed for Packed1 {
    open spec fn value_at(&self, i: int) -> u8 {
        if bit(self.0, i as u32) { 1 } else { 0 }
    }

    open spec fn max_value() -> u8 {
        1
    }

    fn empty() -> (r: Packed1) {
        let r = Packed1(0);
        assert forall|i: int| 0 <= i < 32 implies #[trigger] r.value_at(i) == 0 by {
            lemma_bit_zero(i as u32);
        }
        r
    }

    fn get(&self, slot: Slot) -> (r: u8) {
        proof {
            lemma_bit_read(self.0, slot.0 as u32);
        }
        ((self.0 >> (slot.0 as u32)) & ONE_MASK) as u8
    }

    fn set(&mut self, slot: Slot, value: u8)
        ensures
            final(self).0 == (old(self).0 & ((1u32 << slot.0 as u32) ^ ALL_MASK_32)) | ((value as u32) << slot.0 as u32),
    {
        self.setb(slot, value);
    }
}

impl std::ops::BitAnd for Packed1 {
    type Output = Packed1;

    fn bitand(self, other: Packed1) -> (r: Packed1)
        ensures
            r.0 == self.0 & other.0,
    {
        Packed1(self.0 & other.0)
    }
}

impl vstd::std_specs::ops::BitAndSpecImpl for Packed1 {
    open spec fn obeys_bitand_spec() -> bool {
        true
    }

    open spec fn bitand_req(self, rhs: Packed1) -> bool {
        true
    }

    open spec fn bitand_spec(self, rhs: Packed1) -> Packed1 {
        Packed1(self.0 & rhs.0)
    }
}

impl Packed1 {
    /// The board as a 5x5 grid of 0s and 1s, named `Packed1`.
    pub fn grid(&self) -> (r: String)
        ensures
            r@ == grid_text("Packed1"@, Seq::new(25, |i: int| self.value_at(i))),
    {
        let mut values: Vec<u8> = Vec::new();
        let mut i: i8 = 0;
        while i < 25
            invariant
                0 <= i <= 25,
                values@ == Seq::new(i as nat, |k: int| self.value_at(k)),
                forall|k: int| 0 <= k < i ==> values@[k] <= 3,
            decreases 25 - i,
        {
            let v = self.get(Slot(i));
            values.push(v);
            assert(values@ =~= Seq::new((i + 1) as nat, |k: int| self.value_at(k)));
            i = i + 1;
        }
        grid("Packed1", &values)
    }
}

impl std::ops::BitAndAssign for Packed1 {
    fn bitand_assign(&mut self, other: Packed1)
        ensures
            final(self).0 == old(self).0 & other.0,
    {
        self.0 = self.0 & other.0;
    }
}

impl std::ops::BitOrAssign for Packed1 {
    fn bitor_assign(&mut self, other: Packed1)
        ensures
            final(self).0 == old(self).0 | other.0,
    {
        self.0 = self.0 | other.0;
    }
}

impl std::ops::BitXorAssign for Packed1 {
    fn bitxor_assign(&mut self, other: Packed1)
        ensures
            final(self).0 == old(self).0 ^ other.0,
    {
        self.0 = self.0 ^ other.0;
    }
}

impl std::ops::BitOr for Packed1 {
    type Output = Packed1;

    fn bitor(self, other: Packed1) -> (r: Packed1)
        ensures
            r.0 == self.0 | other.0,
    {
        Packed1(self.0 | other.0)
    }
}

impl vstd::std_specs::ops::BitOrSpecImpl for Packed1 {
    open spec fn obeys_bitor_spec() -> bool {
        true
    }

    open spec fn bitor_req(self, rhs: Packed1) -> bool {
        true
    }

    open spec fn bitor_spec(self, rhs: Packed1) -> Packed1 {
        Packed1(self.0 | rhs.0)
    }
}

impl std::ops::BitXor for Packed1 {
    type Output = Packed1;

    fn bitxor(self, other: Packed1) -> (r: Packed1)
        ensures
            r.0 == self.0 ^ other.0,
    {
        Packed1(self.0 ^ other.0)
    }
}

impl vstd::std_specs::ops::BitXorSpecImpl for Packed1 {
    open spec fn obeys_bitxor_spec() -> bool {
        true
    }

    open spec fn bitxor_req(self, rhs: Packed1) -> bool {
        true
    }

    open spec fn bitxor_spec(self, rhs: Packed1) -> Packed1 {
        Packed1(self.0 ^ rhs.0)
    }
}

impl std::ops::Not for Packed1 {
    type Output = Packed1;

    fn not(self) -> (r: Packed1)
        ensures
            r.0 == !self.0,
    {
        Packed1(!self.0)
    }
}

impl vstd::std_specs::ops::NotSpecImpl for Packed1 {
    open spec fn obeys_not_spec() -> bool {
        true
    }

    open spec fn not_req(self) -> bool {
        true
    }

    open spec fn not_spec(self) -> Packed1 {
        Packed1(!self.0)
    }
}

/// Walks the occupied squares of a board, lowest first.
pub struct Packed1Iterator(pub Packed1);

impl Packed1Iterator {
    /// The squares still to come.
    pub open spec fn remaining(&self) -> Seq<Slot> {
        slots_of((self.0).0)
    }

    /// The next occupied square, which is then removed.
    #[inline]
    pub fn next(&mut self) -> (r: Option<Slot>)
        ensures
            old(self).remaining().len() == 0 ==> r is None && final(self).remaining() == old(self).remaining(),
            old(self).remaining().len() > 0 ==> r == Some(old(self).remaining()[0])
                && final(self).remaining() == old(self).remaining().drop_first(),
    {
        let x = (self.0).0;
        if x == 0 {
            proof {
                assert forall|j: u32| 0 <= j < 32 implies !#[trigger] bit(x, j) by {
                    lemma_bit_zero(j);
                }
                lemma_bits_from_skip(x, 0, 32);
            }
            return None;
        }
        let sq = self.0.bitscan();
        let lsb = self.0.lsb();
        self.0 = Packed1(x ^ lsb.0);
        proof {
            let t = sq.0 as u32;
            let y = x ^ lsb.0;
            assert forall|j: u32| #[trigger] bit(y, j) == (bit(x, j) && j != t) by {
                lemma_bit_xor(x, lsb.0, j);
            }
            lemma_bits_from_skip(x, 0, t as int);
            assert forall|j: u32| 0 <= j < t + 1 implies !#[trigger] bit(y, j) by {}
            lemma_bits_from_skip(y, 0, t as int + 1);
            lemma_bits_from_congr(x, y, t as int + 1);
            assert(slots_of(x) == seq![Slot(t as i8)] + slots_of(y));
            assert(slots_of(x).drop_first() =~= slots_of(y));
        }
        Some(sq)
    }
}

} // verus!
