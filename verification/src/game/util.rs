//! Players, squares, positions and the two-bit board.
use vstd::prelude::*;

verus! {

#[derive(Debug, Copy, Clone, Eq, PartialEq, Structural, Hash, Ord, PartialOrd)]
pub struct Player(pub i8);

#[derive(Debug, Copy, Clone, Eq, PartialEq, Structural, Hash, Ord, PartialOrd)]
pub struct Slot(pub i8);

/// A relabelling of the 25 squares: square `i` goes to `slots[i]`.
#[derive(Copy, Clone, Debug)]
pub struct SlotTransform {
    pub slots: [Slot; 25],
}

impl SlotTransform {
    /// No two squares are sent to the same place.
    pub open spec fn spec_is_permutation(&self) -> bool {
        forall|i: int, j: int| 0 <= i < j < 25 ==> self.slots[i] != self.slots[j]
    }

    /// Whether the 25 targets are pairwise distinct (a relabelling that loses no square).
    pub fn check(&self) -> (r: bool)
        ensures
            r == self.spec_is_permutation(),
    {
        let mut i: usize = 0;
        while i < 25
            invariant
                0 <= i <= 25,
                forall|a: int, b: int| 0 <= a < b < 25 && a < i ==> self.slots[a] != self.slots[b],
            decreases 25 - i,
        {
            let mut j: usize = i + 1;
            while j < 25
                invariant
                    0 <= i < 25,
                    i + 1 <= j <= 25,
                    forall|a: int, b: int| 0 <= a < b < 25 && a < i ==> self.slots[a] != self.slots[b],
                    forall|b: int| i < b < j ==> self.slots[i as int] != self.slots[b],
                decreases 25 - j,
            {
                if self.slots[i].0 == self.slots[j].0 {
                    return false;
                }
                j = j + 1;
            }
            i = i + 1;
        }
        true
    }
}

/// A board of 32 squares holding values 0 and 1.
pub trait Packed where Self: std::marker::Sized {
    /// The value held at square `i`.
    spec fn value_at(&self, i: int) -> u8;

    /// The largest value a square can hold.
    spec fn max_value() -> u8;

    fn empty() -> (r: Self)
        ensures
            forall|i: int| 0 <= i < 32 ==> #[trigger] r.value_at(i) == 0,
    ;

    fn get(&self, slot: Slot) -> (r: u8)
        requires
            0 <= slot.0 < 32,
        ensures
            r == self.value_at(slot.0 as int),
    ;

    fn set(&mut self, slot: Slot, value: u8)
        requires
            0 <= slot.0 < 32,
        ensures
            value <= Self::max_value() ==> final(self).value_at(slot.0 as int) == value,
            value <= Self::max_value() ==> forall|i: int| 0 <= i < 32 && i != slot.0 ==> #[trigger] final(self).value_at(i) == old(self).value_at(i),
    ;
}

/// The relabelling that sends every square to square 0 (a placeholder).
pub fn empty_slot_transform() -> (r: SlotTransform)
    ensures
        forall|i: int| 0 <= i < 25 ==> r.slots[i] == Slot(0),
{
    SlotTransform { slots: [Slot(0); 25] }
}

#[derive(Debug, Copy, Clone, Eq, PartialEq, Structural, Hash)]
pub struct Position {
    pub x: i8,
    pub y: i8,
}

/// Whether an integer fits in an `i8`.
pub open spec fn fits(v: int) -> bool {
    -128 <= v <= 127
}

pub fn pos(x: i8, y: i8) -> (r: Position)
    ensures
        r == (Position { x, y }),
{
    Position { x: x, y: y }
}

impl std::ops::Mul<i8> for Position {
    type Output = Position;

    fn mul(self, rhs: i8) -> (r: Position)
        ensures
            r.x == self.x * rhs,
            r.y == self.y * rhs,
    {
        Position { x: self.x * rhs, y: self.y * rhs }
    }
}

impl vstd::std_specs::ops::MulSpecImpl<i8> for Position {
    open spec fn obeys_mul_spec() -> bool {
        true
    }

    open spec fn mul_req(self, rhs: i8) -> bool {
        fits(self.x * rhs) && fits(self.y * rhs)
    }

    open spec fn mul_spec(self, rhs: i8) -> Position {
        Position { x: (self.x * rhs) as i8, y: (self.y * rhs) as i8 }
    }
}

impl std::ops::Add for Position {
    type Output = Position;

    fn add(self, rhs: Position) -> (r: Position)
        ensures
            r.x == self.x + rhs.x,
            r.y == self.y + rhs.y,
    {
        Position { x: self.x + rhs.x, y: self.y + rhs.y }
    }
}

impl vstd::std_specs::ops::AddSpecImpl for Position {
    open spec fn obeys_add_spec() -> bool {
        true
    }

    open spec fn add_req(self, rhs: Position) -> bool {
        fits(self.x + rhs.x) && fits(self.y + rhs.y)
    }

    open spec fn add_spec(self, rhs: Position) -> Position {
        Position { x: (self.x + rhs.x) as i8, y: (self.y + rhs.y) as i8 }
    }
}

/// A 2x2 integer matrix acting on positions (column vectors `(x, y)`).
#[derive(Debug, Copy, Clone, Eq, PartialEq, Structural, Hash)]
pub struct Transform {
    pub m00: i8,
    pub m01: i8,
    pub m10: i8,
    pub m11: i8,
}

impl Transform {
    /// No intermediate of the product with `p` leaves the `i8` range.
    pub open spec fn apply_fits(self, p: Position) -> bool {
        &&& fits(self.m00 * p.x) && fits(self.m10 * p.y) && fits(self.m00 * p.x + self.m10 * p.y)
        &&& fits(self.m01 * p.x) && fits(self.m11 * p.y) && fits(self.m01 * p.x + self.m11 * p.y)
    }

    pub open spec fn spec_apply(self, p: Position) -> Position {
        Position {
            x: (self.m00 * p.x + self.m10 * p.y) as i8,
            y: (self.m01 * p.x + self.m11 * p.y) as i8,
        }
    }

    /// No intermediate of the product with `rhs` leaves the `i8` range.
    pub open spec fn compose_fits(self, rhs: Transform) -> bool {
        &&& fits(self.m00 * rhs.m00) && fits(self.m10 * rhs.m01) && fits(self.m00 * rhs.m00 + self.m10 * rhs.m01)
        &&& fits(self.m01 * rhs.m00) && fits(self.m11 * rhs.m01) && fits(self.m01 * rhs.m00 + self.m11 * rhs.m01)
        &&& fits(self.m00 * rhs.m10) && fits(self.m10 * rhs.m11) && fits(self.m00 * rhs.m10 + self.m10 * rhs.m11)
        &&& fits(self.m01 * rhs.m10) && fits(self.m11 * rhs.m11) && fits(self.m01 * rhs.m10 + self.m11 * rhs.m11)
    }

    pub open spec fn spec_compose(self, rhs: Transform) -> Transform {
        Transform {
            m00: (self.m00 * rhs.m00 + self.m10 * rhs.m01) as i8,
            m01: (self.m01 * rhs.m00 + self.m11 * rhs.m01) as i8,
            m10: (self.m00 * rhs.m10 + self.m10 * rhs.m11) as i8,
            m11: (self.m01 * rhs.m10 + self.m11 * rhs.m11) as i8,
        }
    }
}

impl std::ops::Mul<Position> for Transform {
    type Output = Position;

    fn mul(self, rhs: Position) -> (r: Position)
        ensures
            r.x == self.m00 * rhs.x + self.m10 * rhs.y,
            r.y == self.m01 * rhs.x + self.m11 * rhs.y,
    {
        Position {
            x: self.m00 * rhs.x + self.m10 * rhs.y,
            y: self.m01 * rhs.x + self.m11 * rhs.y,
        }
    }
}

impl vstd::std_specs::ops::MulSpecImpl<Position> for Transform {
    open spec fn obeys_mul_spec() -> bool {
        true
    }

    open spec fn mul_req(self, rhs: Position) -> bool {
        self.apply_fits(rhs)
    }

    open spec fn mul_spec(self, rhs: Position) -> Position {
        self.spec_apply(rhs)
    }
}

impl std::ops::Mul<Transform> for Transform {
    type Output = Transform;

    fn mul(self, rhs: Transform) -> (r: Transform)
        ensures
            r == self.spec_compose(rhs),
    {
        Transform {
            m00: self.m00 * rhs.m00 + self.m10 * rhs.m01,
            m01: self.m01 * rhs.m00 + self.m11 * rhs.m01,
            m10: self.m00 * rhs.m10 + self.m10 * rhs.m11,
            m11: self.m01 * rhs.m10 + self.m11 * rhs.m11,
        }
    }
}

impl vstd::std_specs::ops::MulSpecImpl<Transform> for Transform {
    open spec fn obeys_mul_spec() -> bool {
        true
    }

    open spec fn mul_req(self, rhs: Transform) -> bool {
        self.compose_fits(rhs)
    }

    open spec fn mul_spec(self, rhs: Transform) -> Transform {
        self.spec_compose(rhs)
    }
}

/// Quarter turn: `(x, y)` goes to `(-y, x)`.
pub fn rotate_90_matrix() -> (r: Transform)
    ensures
        r.m00 == 0 && r.m01 == 1 && r.m10 == -1 && r.m11 == 0,
{
    Transform { m00: 0, m01: 1, m10: -1, m11: 0 }
}

/// Half turn: `(x, y)` goes to `(-x, -y)`.
pub fn rotate_180_matrix() -> (r: Transform)
    ensures
        r.m00 == -1 && r.m01 == 0 && r.m10 == 0 && r.m11 == -1,
{
    Transform { m00: -1, m01: 0, m10: 0, m11: -1 }
}

/// Three quarter turns: `(x, y)` goes to `(y, -x)`.
pub fn rotate_270_matrix() -> (r: Transform)
    ensures
        r.m00 == 0 && r.m01 == -1 && r.m10 == 1 && r.m11 == 0,
{
    Transform { m00: 0, m01: -1, m10: 1, m11: 0 }
}

pub fn packed2_empty() -> (r: Packed2)
    ensures
        r.0 == 0,
{
    Packed2(0)
}

pub const TWO_MASK: u64 = 3;

pub const ALL_MASK_64: u64 = 0xffffffffffffffff;

/// A board of 32 squares holding values 0 to 3, two bits per square.
#[derive(Copy, Clone, Eq, PartialEq, Structural, Hash, Debug)]
pub struct Packed2(pub u64);

impl Packed2 {
    pub open spec fn spec_value_at(self, i: int) -> u8 {
        ((self.0 >> ((2 * i) as u64)) & 3u64) as u8
    }
}

impl Packed for Packed2 {
    open spec fn value_at(&self, i: int) -> u8 {
        self.spec_value_at(i)
    }

    open spec fn max_value() -> u8 {
        3
    }

    fn empty() -> (r: Packed2) {
        let r = Packed2(0);
        assert forall|i: int| 0 <= i < 32 implies #[trigger] r.value_at(i) == 0 by {
            let k = (2 * i) as u64;
            assert((0u64 >> k) & 3u64 == 0u64) by (bit_vector);
        }
        r
    }

    fn get(&self, slot: Slot) -> (r: u8) {
        let k: u64 = (slot.0 as u64) * 2;
        let x = self.0;
        let v = (x >> k) & TWO_MASK;
        assert(v <= 3) by (bit_vector)
            requires v == (x >> k) & 3u64;
        v as u8
    }

    fn set(&mut self, slot: Slot, value: u8)
        ensures
            final(self).0 == (old(self).0 & ((3u64 << (2 * slot.0) as u64) ^ ALL_MASK_64)) | ((value as u64) << (2 * slot.0) as u64),
    {
        let s: u64 = slot.0 as u64;
        let k: u64 = s * 2;
        let remove_mask: u64 = (3u64 << k) ^ ALL_MASK_64;
        let old_v = self.0;
        let v = value as u64;
        self.0 = (self.0 & remove_mask) | (v << k);
        let new_v = self.0;
        if value <= 3 {
            assert forall|i: int| 0 <= i < 32 && i != slot.0 implies #[trigger] self.value_at(i) == old(self).value_at(i) by {
                let t = i as u64;
                assert(s < 32 && t < 32 && t != s && v <= 3
                    && new_v == (old_v & ((3u64 << (2 * s)) ^ 0xffffffffffffffffu64)) | (v << (2 * s))
                    ==> (new_v >> (2 * t)) & 3u64 == (old_v >> (2 * t)) & 3u64) by (bit_vector);
            }
            assert(s < 32 && new_v == (old_v & ((3u64 << (2 * s)) ^ 0xffffffffffffffffu64)) | (v << (2 * s)) && v <= 3
                ==> (new_v >> (2 * s)) & 3u64 == v) by (bit_vector);
        }
    }
}

/// The numeral of a square's value, 0 to 3.
pub open spec fn numeral(v: u8) -> Seq<char> {
    if v == 0 { "0"@ } else if v == 1 { "1"@ } else if v == 2 { "2"@ } else { "3"@ }
}

/// The numerals of row `y` of a 5x5 grid of values, for the columns below `x`.
pub open spec fn grid_row(values: Seq<u8>, y: int, x: int) -> Seq<char>
    decreases x,
{
    if x <= 0 { seq![] } else { grid_row(values, y, x - 1) + numeral(values[y * 5 + x - 1]) }
}

/// The rows below `y`, each indented by two spaces and ended by a newline.
pub open spec fn grid_rows(values: Seq<u8>, y: int) -> Seq<char>
    decreases y,
{
    if y <= 0 { seq![] } else { grid_rows(values, y - 1) + "  "@ + grid_row(values, y - 1, 5) + "\n"@ }
}

/// `name`, an opening bracket, the five rows of the 25 values, and a closing bracket.
pub open spec fn grid_text(name: Seq<char>, values: Seq<u8>) -> Seq<char> {
    name + "(\n"@ + grid_rows(values, 5) + ")\n"@
}

fn numeral_str(v: u8) -> (r: &'static str)
    requires
        v <= 3,
    ensures
        r@ == numeral(v),
{
    if v == 0 {
        "0"
    } else if v == 1 {
        "1"
    } else if v == 2 {
        "2"
    } else {
        "3"
    }
}

/// The 25 values of a board as a 5x5 grid of numerals (see `grid_text`).
pub fn grid(name: &str, values: &Vec<u8>) -> (r: String)
    requires
        values@.len() == 25,
        forall|i: int| 0 <= i < 25 ==> values@[i] <= 3,
    ensures
        r@ == grid_text(name@, values@),
{
    let mut out = String::new();
    out.append(name);
    out.append("(\n");
    let ghost head = out@;
    let mut y: usize = 0;
    while y < 5
        invariant
            0 <= y <= 5,
            values@.len() == 25,
            forall|i: int| 0 <= i < 25 ==> values@[i] <= 3,
            out@ == head + grid_rows(values@, y as int),
        decreases 5 - y,
    {
        out.append("  ");
        let ghost row_start = out@;
        let mut x: usize = 0;
        while x < 5
            invariant
                0 <= x <= 5,
                0 <= y < 5,
                values@.len() == 25,
                forall|i: int| 0 <= i < 25 ==> values@[i] <= 3,
                out@ == row_start + grid_row(values@, y as int, x as int),
            decreases 5 - x,
        {
            out.append(numeral_str(values[y * 5 + x]));
            x = x + 1;
        }
        out.append("\n");
        y = y + 1;
    }
    out.append(")\n");
    out
}

impl Packed2 {
    /// The board as a 5x5 grid of its values, named `Packed2`.
    pub fn grid(&self) -> (r: String)
        ensures
            r@ == grid_text("Packed2"@, Seq::new(25, |i: int| self.spec_value_at(i))),
    {
        let mut values: Vec<u8> = Vec::new();
        let mut i: i8 = 0;
        while i < 25
            invariant
                0 <= i <= 25,
                values@ == Seq::new(i as nat, |k: int| self.spec_value_at(k)),
                forall|k: int| 0 <= k < i ==> values@[k] <= 3,
            decreases 25 - i,
        {
            let v = self.get(Slot(i));
            proof {
                let x = self.0;
                let k = (2 * i) as u64;
                assert((x >> k) & 3u64 <= 3u64) by (bit_vector);
            }
            values.push(v);
            assert(values@ =~= Seq::new((i + 1) as nat, |k: int| self.spec_value_at(k)));
            i = i + 1;
        }
        grid("Packed2", &values)
    }
}

} // verus!
