//! Zobrist hashing and the transposition table of the searches.
use vstd::prelude::*;
use crate::game::util::fits;
use crate::game::santorini::{Move, HeuristicValue};

verus! {

#[derive(Eq, Copy, PartialEq, Structural, Clone, Debug)]
pub enum EntryType {
    Exact,
    Lower,
    Upper,
}

pub type Generation = u8;

#[derive(Eq, Copy, PartialEq, Structural, Clone, Debug, Hash)]
pub struct StateHash(pub u64);

pub const BUCKET_SIZE: usize = 4;

impl std::ops::BitXor for StateHash {
    type Output = StateHash;

    fn bitxor(self, other: StateHash) -> (r: StateHash)
        ensures
            r.0 == self.0 ^ other.0,
    {
        StateHash(self.0 ^ other.0)
    }
}

impl vstd::std_specs::ops::BitXorSpecImpl for StateHash {
    open spec fn obeys_bitxor_spec() -> bool {
        true
    }

    open spec fn bitxor_req(self, rhs: StateHash) -> bool {
        true
    }

    open spec fn bitxor_spec(self, rhs: StateHash) -> StateHash {
        StateHash(self.0 ^ rhs.0)
    }
}

#[derive(Eq, Copy, PartialEq, Clone, Debug)]
pub struct TranspositionEntry {
    pub hash: StateHash,
    pub value: HeuristicValue,
    pub entry_type: EntryType,
    pub depth: i8,
    pub generation: Generation,
    pub best_move: Option<Move>,
}

/// The entry of an unused place in the table.
pub open spec fn spec_null_entry() -> TranspositionEntry {
    TranspositionEntry {
        hash: StateHash(0),
        value: 0,
        entry_type: EntryType::Lower,
        depth: 0,
        generation: 0,
        best_move: None,
    }
}

pub fn null_entry() -> (r: TranspositionEntry)
    ensures
        r == spec_null_entry(),
{
    TranspositionEntry {
        hash: StateHash(0),
        value: 0,
        entry_type: EntryType::Lower,
        depth: 0,
        generation: 0,
        best_move: None,
    }
}

impl TranspositionEntry {
    /// Age of the entry, as the `i8` that `(current - generation) as i8` gives.
    pub open spec fn age(&self, current_generation: Generation) -> int {
        ((current_generation - self.generation) as u8) as i8 as int
    }

    /// Whether `value` is defined: no subtraction underflows and no product overflows.
    pub open spec fn value_defined(&self, current_generation: Generation) -> bool {
        &&& self.generation <= current_generation
        &&& fits(self.age(current_generation) * 2)
        &&& fits(self.depth - self.age(current_generation) * 2)
    }

    /// Whether `value` is defined at `current_generation` (see `value_defined`).
    pub fn value_defined_at(&self, current_generation: Generation) -> (r: bool)
        ensures
            r == self.value_defined(current_generation),
    {
        if self.generation > current_generation {
            return false;
        }
        let age = (current_generation - self.generation) as i8;
        let twice = (age as i16) * 2;
        let rest = (self.depth as i16) - twice;
        -128 <= twice && twice <= 127 && -128 <= rest && rest <= 127
    }

    pub open spec fn spec_value(&self, current_generation: Generation) -> int {
        self.depth - self.age(current_generation) * 2
    }

    /// How much the entry is worth keeping: its depth, less two per generation of age.
    pub fn value(&self, current_generation: Generation) -> (r: i8)
        requires
            self.value_defined(current_generation),
        ensures
            r == self.spec_value(current_generation),
    {
        self.depth - (current_generation - self.generation) as i8 * 2
    }
}

pub struct TranspositionTable {
    pub generation: Generation,
    pub bucket_mask: u64,
    pub entries: Vec<TranspositionEntry>,
}

/// First place in `[b, b + 4)` from `i` on that is empty or holds `hash`; `b + 4` if none.
pub open spec fn first_free_or_match(entries: Seq<TranspositionEntry>, b: int, hash: StateHash, i: int) -> int
    decreases 4 - i,
{
    if i >= 4 {
        b + 4
    } else if entries[b + i].hash.0 == 0 || entries[b + i].hash == hash {
        b + i
    } else {
        first_free_or_match(entries, b, hash, i + 1)
    }
}

/// First place of least value among `[b, b + i)`.
pub open spec fn least_valuable(entries: Seq<TranspositionEntry>, b: int, generation: Generation, i: int) -> int
    decreases i,
{
    if i <= 1 {
        b
    } else {
        let prev = least_valuable(entries, b, generation, i - 1);
        if entries[prev].spec_value(generation) > entries[b + i - 1].spec_value(generation) {
            b + i - 1
        } else {
            prev
        }
    }
}

/// Bytes taken by `c` entries.
pub open spec fn entry_bytes(c: int) -> int {
    c * vstd::layout::size_of::<TranspositionEntry>()
}

/// The contents of a transposition table.
pub struct TableView {
    pub generation: Generation,
    pub bucket_mask: u64,
    pub entries: Seq<TranspositionEntry>,
}

impl View for TranspositionTable {
    type V = TableView;

    open spec fn view(&self) -> TableView {
        TableView { generation: self.generation, bucket_mask: self.bucket_mask, entries: self.entries@ }
    }
}

impl TableView {
    /// Four places for each bucket of the mask.
    pub open spec fn wf(self) -> bool {
        self.entries.len() == 4 * (self.bucket_mask + 1)
    }

    /// First place of the bucket of `hash`.
    pub open spec fn bucket(self, hash: StateHash) -> int {
        (hash.0 & self.bucket_mask) * 4
    }

    /// Where `probe` answers for `hash`, and whether the entry there is `hash`'s.
    pub open spec fn probe(self, hash: StateHash) -> (int, bool) {
        let b = self.bucket(hash);
        let f = first_free_or_match(self.entries, b, hash, 0);
        if f < b + 4 {
            (f, self.entries[f].hash == hash)
        } else {
            (least_valuable(self.entries, b, self.generation, 4), false)
        }
    }

    /// The table after `store`: place `idx` is overwritten unless it holds `hash`
    /// searched at least four plies deeper and the new entry is not exact.
    pub open spec fn store(self, idx: int, hash: StateHash, value: HeuristicValue, depth: i8, entry_type: EntryType,
        best_move: Option<Move>) -> TableView {
        let e = self.entries[idx];
        if e.hash != hash || depth > e.depth - 4 || entry_type == EntryType::Exact {
            TableView {
                entries: self.entries.update(idx, TranspositionEntry {
                    hash, value, entry_type, depth, generation: self.generation, best_move }),
                ..self
            }
        } else {
            self
        }
    }

    /// Every used entry has a defined value, and every entry has a score as value and a
    /// depth of at least 0: what the searches need of the table.
    pub open spec fn ready(self) -> bool {
        &&& self.wf()
        &&& forall|i: int| 0 <= i < self.entries.len() ==> {
            &&& ((#[trigger] self.entries[i]).hash.0 != 0 ==> self.entries[i].value_defined(self.generation))
            &&& -32767 <= self.entries[i].value
            &&& 0 <= self.entries[i].depth
        }
    }
}

/// A bucket lies within the table.
pub proof fn lemma_bucket_in_table(t: TableView, hash: StateHash)
    requires
        t.wf(),
    ensures
        0 <= t.bucket(hash),
        t.bucket(hash) + 4 <= t.entries.len(),
{
    let h = hash.0;
    let mask = t.bucket_mask;
    let m = h & mask;
    assert(m <= mask) by (bit_vector)
        requires
            m == h & mask;
}

/// When a bucket has no empty place and no place of `hash`, every place is used.
proof fn lemma_bucket_full(entries: Seq<TranspositionEntry>, b: int, hash: StateHash, i: int)
    requires
        0 <= i <= 4,
        first_free_or_match(entries, b, hash, i) == b + 4,
    ensures
        forall|j: int| b + i <= j < b + 4 ==> (#[trigger] entries[j]).hash.0 != 0,
    decreases 4 - i,
{
    if i < 4 {
        lemma_bucket_full(entries, b, hash, i + 1);
    }
}

/// A ready table can be probed for any hash.
pub proof fn lemma_ready_probe(t: TranspositionTable, hash: StateHash)
    requires
        t@.ready(),
    ensures
        t.probe_defined(hash),
        t@.bucket(hash) + 4 <= t@.entries.len(),
{
    lemma_bucket_in_table(t@, hash);
    let b = t.spec_bucket(hash);
    if first_free_or_match(t.entries@, b, hash, 0) == b + 4 {
        lemma_bucket_full(t.entries@, b, hash, 0);
    }
}

/// The first empty-or-matching place of a bucket is found again when the places before
/// it are unchanged and the place itself now holds `hash`.
proof fn lemma_first_free_after_write(e1: Seq<TranspositionEntry>, e2: Seq<TranspositionEntry>, b: int, hash: StateHash,
    i: int, f: int)
    requires
        0 <= i <= 4,
        b + i <= f < b + 4,
        first_free_or_match(e1, b, hash, i) == f || (first_free_or_match(e1, b, hash, i) == b + 4
            && forall|j: int| b + i <= j < f ==> (#[trigger] e1[j]).hash.0 != 0 && e1[j].hash != hash),
        forall|j: int| b <= j < f ==> #[trigger] e2[j] == e1[j],
        e2[f].hash == hash,
    ensures
        first_free_or_match(e2, b, hash, i) == f,
    decreases 4 - i,
{
    if b + i < f {
        lemma_first_free_after_write(e1, e2, b, hash, i + 1, f);
    }
}

/// Places from `i` on before the first empty-or-matching one are used and not `hash`'s.
proof fn lemma_first_free_skipped(e: Seq<TranspositionEntry>, b: int, hash: StateHash, i: int)
    requires
        0 <= i <= 4,
    ensures
        b + i <= first_free_or_match(e, b, hash, i) <= b + 4,
        forall|j: int| b + i <= j < first_free_or_match(e, b, hash, i) ==> (#[trigger] e[j]).hash.0 != 0 && e[j].hash != hash,
    decreases 4 - i,
{
    if i < 4 {
        lemma_first_free_skipped(e, b, hash, i + 1);
    }
}

/// The least valuable place lies in the bucket.
proof fn lemma_least_valuable_in(e: Seq<TranspositionEntry>, b: int, g: Generation, i: int)
    requires
        1 <= i <= 4,
    ensures
        b <= least_valuable(e, b, g, i) < b + i,
    decreases i,
{
    if i > 1 {
        lemma_least_valuable_in(e, b, g, i - 1);
    }
}

/// What is stored is found: once `hash`'s entry is stored at the place `probe` gave for
/// it, probing `hash` again finds it at that place.
pub proof fn lemma_probe_after_store(t: TableView, hash: StateHash, value: HeuristicValue, depth: i8,
    entry_type: EntryType, best_move: Option<Move>)
    requires
        t.wf(),
    ensures
        t.store(t.probe(hash).0, hash, value, depth, entry_type, best_move).probe(hash) == (t.probe(hash).0, true),
{
    lemma_bucket_in_table(t, hash);
    let b = t.bucket(hash);
    let p = t.probe(hash);
    let idx = p.0;
    let t2 = t.store(idx, hash, value, depth, entry_type, best_move);
    lemma_first_free_skipped(t.entries, b, hash, 0);
    let f = first_free_or_match(t.entries, b, hash, 0);
    if f >= b + 4 {
        lemma_least_valuable_in(t.entries, b, t.generation, 4);
    }
    assert(t2.entries[idx].hash == hash);
    assert forall|j: int| b <= j < idx implies #[trigger] t2.entries[j] == t.entries[j] by {}
    lemma_first_free_after_write(t.entries, t2.entries, b, hash, 0, idx);
    assert(t2.bucket(hash) == b);
}

impl TranspositionTable {
    /// Four places for each bucket of the mask.
    pub open spec fn wf(&self) -> bool {
        self@.wf()
    }

    pub open spec fn spec_bucket(&self, hash: StateHash) -> int {
        self@.bucket(hash)
    }

    /// Where `probe` answers for `hash`, and whether the entry there is `hash`'s.
    pub open spec fn spec_probe(&self, hash: StateHash) -> (int, bool) {
        self@.probe(hash)
    }

    /// The entries of `hash`'s bucket have a defined value, where it is needed.
    pub open spec fn probe_defined(&self, hash: StateHash) -> bool {
        let b = self.spec_bucket(hash);
        first_free_or_match(self.entries@, b, hash, 0) == b + 4 ==> forall|i: int| b <= i < b + 4
            ==> #[trigger] self.entries@[i].value_defined(self.generation)
    }

    /// First place of the bucket of `hash`.
    #[inline]
    pub fn bucket_location_for(&self, hash: StateHash) -> (r: usize)
        requires
            self.wf(),
        ensures
            r == self.spec_bucket(hash),
            r + 4 <= self.entries@.len(),
    {
        let _n = self.entries.len();
        let h = hash.0;
        let mask = self.bucket_mask;
        let m = h & mask;
        assert(m <= mask) by (bit_vector)
            requires m == h & mask;
        (m as usize) * BUCKET_SIZE
    }

    /// Next generation, wrapping after 255.
    pub fn increment_generation(&mut self)
        ensures
            final(self).generation == (if old(self).generation == 255 { 0 } else { old(self).generation + 1 }),
            final(self).bucket_mask == old(self).bucket_mask,
            final(self).entries == old(self).entries,
    {
        self.generation = self.generation.wrapping_add(1)
    }

    /// The place for `hash` and whether it already holds `hash`: the first place of the
    /// bucket that is empty or holds `hash`, else the first of least value.
    pub fn probe(&self, hash: StateHash) -> (r: (usize, bool))
        requires
            self.wf(),
            self.probe_defined(hash),
        ensures
            r.0 == self.spec_probe(hash).0,
            r.1 == self.spec_probe(hash).1,
            self.spec_bucket(hash) <= r.0 < self.spec_bucket(hash) + 4,
    {
        let bucket_location = self.bucket_location_for(hash);
        let _n = self.entries.len();
        let ghost b = bucket_location as int;
        let mut i: usize = 0;
        while i < BUCKET_SIZE
            invariant
                0 <= i <= 4,
                b == bucket_location,
                b == self.spec_bucket(hash),
                b + 4 <= self.entries@.len(),
                self.entries@.len() <= usize::MAX,
                first_free_or_match(self.entries@, b, hash, 0) == first_free_or_match(self.entries@, b, hash, i as int),
            decreases 4 - i,
        {
            let entry_location = bucket_location + i;
            let entry = &self.entries[entry_location];
            let same_hash = entry.hash == hash;
            if entry.hash.0 == 0 || same_hash {
                return (entry_location, same_hash);
            }
            i = i + 1;
        }
        let current_generation = self.generation;
        let mut replace_idx: usize = bucket_location;
        let mut i: usize = 0;
        while i < BUCKET_SIZE
            invariant
                0 <= i <= 4,
                b == bucket_location,
                b == self.spec_bucket(hash),
                b + 4 <= self.entries@.len(),
                self.entries@.len() <= usize::MAX,
                current_generation == self.generation,
                first_free_or_match(self.entries@, b, hash, 0) == b + 4,
                self.probe_defined(hash),
                replace_idx == least_valuable(self.entries@, b, current_generation, if i == 0 { 1 } else { i as int }),
                b <= replace_idx < b + 4,
            decreases 4 - i,
        {
            let entry_location = bucket_location + i;
            assert(self.entries@[replace_idx as int].value_defined(self.generation));
            assert(self.entries@[entry_location as int].value_defined(self.generation));
            if self.entries[replace_idx].value(current_generation) > self.entries[entry_location].value(current_generation) {
                replace_idx = entry_location;
            }
            i = i + 1;
        }
        (replace_idx, false)
    }

    /// Overwrites place `idx` unless it holds `hash` searched at least four plies deeper
    /// and the new entry is not exact.
    pub fn store(&mut self, idx: usize, hash: StateHash, value: HeuristicValue, depth: i8, entry_type: EntryType, best_move: Option<Move>)
        requires
            idx < old(self).entries@.len(),
            old(self).entries@[idx as int].depth >= -124,
        ensures
            ({
                let e = old(self).entries@[idx as int];
                let replace = e.hash != hash || depth > e.depth - 4 || entry_type == EntryType::Exact;
                &&& replace ==> final(self).entries@ == old(self).entries@.update(idx as int, TranspositionEntry {
                    hash, value, entry_type, depth, generation: old(self).generation, best_move })
                &&& !replace ==> final(self).entries@ == old(self).entries@
            }),
            final(self).generation == old(self).generation,
            final(self).bucket_mask == old(self).bucket_mask,
            final(self)@ == old(self)@.store(idx as int, hash, value, depth, entry_type, best_move),
    {
        let entry = self.entries[idx];
        if entry.hash != hash || depth > (entry.depth - 4) || entry_type == EntryType::Exact {
            let generation = self.generation;
            self.entries.set(idx, TranspositionEntry {
                hash: hash,
                value: value,
                entry_type: entry_type,
                depth: depth,
                generation: generation,
                best_move: best_move,
            });
        }
    }

    /// Bytes taken by the entries the table has room for.
    pub fn size_bytes(&self) -> (r: usize)
        ensures
            exists|c: int| c >= self.entries@.len() && r == #[trigger] entry_bytes(c),
    {
        let c = vec_capacity(&self.entries);
        let r = TranspositionTable::approx_size_bytes(c);
        assert(c as int >= self.entries@.len() && r == entry_bytes(c as int));
        r
    }

    /// Bytes taken by `entry_count` entries.
    pub fn approx_size_bytes(entry_count: usize) -> (r: usize)
        requires
            entry_count * vstd::layout::size_of::<TranspositionEntry>() <= usize::MAX,
        ensures
            r == entry_count * vstd::layout::size_of::<TranspositionEntry>(),
    {
        std::mem::size_of::<TranspositionEntry>() * entry_count
    }

    /// Empties every place.
    pub fn reset(&mut self)
        ensures
            final(self).entries@.len() == old(self).entries@.len(),
            forall|i: int| 0 <= i < final(self).entries@.len() ==> #[trigger] final(self).entries@[i] == spec_null_entry(),
            final(self).generation == old(self).generation,
            final(self).bucket_mask == old(self).bucket_mask,
    {
        let n = self.entries.len();
        let mut i: usize = 0;
        while i < n
            invariant
                0 <= i <= n,
                n == self.entries@.len(),
                n == old(self).entries@.len(),
                self.generation == old(self).generation,
                self.bucket_mask == old(self).bucket_mask,
                forall|j: int| 0 <= j < i ==> #[trigger] self.entries@[j] == spec_null_entry(),
            decreases n - i,
        {
            self.entries.set(i, null_entry());
            i = i + 1;
        }
    }

    /// A table of `2^power_of_two` empty places in buckets of four.
    pub fn new(power_of_two: usize) -> (r: TranspositionTable)
        requires
            3 <= power_of_two < usize::BITS,
        ensures
            r.wf(),
            r.generation == 0,
            r.entries@.len() == (1usize << power_of_two),
            r.bucket_mask + 1 == (1u64 << (power_of_two - 2) as u64),
            forall|i: int| 0 <= i < r.entries@.len() ==> #[trigger] r.entries@[i] == spec_null_entry(),
    {
        let size: usize = 1usize << power_of_two;
        let mut bucket_mask: u64 = 1;
        let mut k: usize = 0;
        let n = power_of_two - 1 - 2;
        assert(bucket_mask + 1 == (1u64 << 1u64)) by (bit_vector)
            requires bucket_mask == 1u64;
        while k < n
            invariant
                0 <= k <= n,
                n == power_of_two - 3,
                3 <= power_of_two < usize::BITS,
                power_of_two < 64,
                bucket_mask + 1 == (1u64 << (k + 1) as u64),
            decreases n - k,
        {
            let j: u64 = (k + 1) as u64;
            let jj: u64 = j + 1;
            let m = bucket_mask;
            assert((m | (m << 1u64)) + 1 == (1u64 << jj)) by (bit_vector)
                requires 1u64 <= j < 62u64, jj == j + 1u64, m + 1u64 == (1u64 << j);
            bucket_mask = bucket_mask | (bucket_mask << 1);
            k = k + 1;
        }
        let mut entries: Vec<TranspositionEntry> = Vec::with_capacity(size);
        entries.resize(size, null_entry());
        let p = power_of_two as u64;
        let q: u64 = p - 2;
        let m = bucket_mask;
        let ps = power_of_two;
        assert(p < 64 && p >= 2 && q == p - 2 && m + 1 == (1u64 << q) && ps == p && ps < usize::BITS
            ==> 4 * (m + 1) == (1usize << ps)) by (bit_vector);
        TranspositionTable {
            generation: 0,
            bucket_mask: bucket_mask as u64,
            entries: entries,
        }
    }
}

/// Random keys for each feature of a position; a position's hash is the XOR of the
/// keys of its features. Index 0 of `buildings` is kept too (it stands for height 0).
#[derive(Debug, Copy, Clone)]
pub struct ZobristHash {
    pub to_move: [StateHash; 2],
    pub switch_move: StateHash,
    pub builders: [[StateHash; 25]; 2],
    pub buildings: [[StateHash; 5]; 25],
}

/// Number of keys a `ZobristHash` is made of.
pub const ZOBRIST_KEY_COUNT: usize = 177;

impl ZobristHash {
    /// Changing the player to move is one XOR with `switch_move`.
    pub open spec fn wf(&self) -> bool {
        self.switch_move.0 == self.to_move[0].0 ^ self.to_move[1].0
    }

    /// The keys laid out as drawn: the two players, then 25 squares for each player's
    /// builders, then 5 heights for each of the 25 squares.
    pub open spec fn made_of(&self, keys: Seq<u64>) -> bool {
        &&& keys.len() == 177
        &&& forall|p: int| 0 <= p < 2 ==> #[trigger] self.to_move[p].0 == keys[p]
        &&& forall|p: int, i: int| 0 <= p < 2 && 0 <= i < 25 ==> #[trigger] self.builders[p][i].0 == keys[2 + 25 * p + i]
        &&& forall|i: int, h: int| 0 <= i < 25 && 0 <= h < 5 ==> #[trigger] self.buildings[i][h].0 == keys[52 + 5 * i + h]
    }

    /// Builds the keys from 177 numbers, in the order `made_of` describes.
    pub fn new(keys: &Vec<u64>) -> (r: ZobristHash)
        requires
            keys@.len() == 177,
        ensures
            r.wf(),
            r.made_of(keys@),
    {
        let zero = StateHash(0);
        let mut hash = ZobristHash {
            to_move: [zero; 2],
            switch_move: zero,
            builders: [[zero; 25]; 2],
            buildings: [[zero; 5]; 25],
        };
        hash.to_move[0] = StateHash(keys[0]);
        hash.to_move[1] = StateHash(keys[1]);
        hash.switch_move = hash.to_move[0] ^ hash.to_move[1];
        let mut p: usize = 0;
        while p < 2
            invariant
                0 <= p <= 2,
                keys@.len() == 177,
                hash.wf(),
                forall|q: int| 0 <= q < 2 ==> #[trigger] hash.to_move[q].0 == keys@[q],
                forall|q: int, i: int| 0 <= q < p && 0 <= i < 25 ==> #[trigger] hash.builders[q][i].0 == keys@[2 + 25 * q + i],
            decreases 2 - p,
        {
            let mut i: usize = 0;
            while i < 25
                invariant
                    0 <= p < 2,
                    0 <= i <= 25,
                    keys@.len() == 177,
                    hash.wf(),
                    forall|q: int| 0 <= q < 2 ==> #[trigger] hash.to_move[q].0 == keys@[q],
                    forall|q: int, j: int| 0 <= q < p && 0 <= j < 25 ==> #[trigger] hash.builders[q][j].0 == keys@[2 + 25 * q + j],
                    forall|j: int| 0 <= j < i ==> #[trigger] hash.builders[p as int][j].0 == keys@[2 + 25 * p + j],
                decreases 25 - i,
            {
                hash.builders[p][i] = StateHash(keys[2 + 25 * p + i]);
                i = i + 1;
            }
            p = p + 1;
        }
        let mut i: usize = 0;
        while i < 25
            invariant
                0 <= i <= 25,
                keys@.len() == 177,
                hash.wf(),
                forall|q: int| 0 <= q < 2 ==> #[trigger] hash.to_move[q].0 == keys@[q],
                forall|q: int, j: int| 0 <= q < 2 && 0 <= j < 25 ==> #[trigger] hash.builders[q][j].0 == keys@[2 + 25 * q + j],
                forall|j: int, h: int| 0 <= j < i && 0 <= h < 5 ==> #[trigger] hash.buildings[j][h].0 == keys@[52 + 5 * j + h],
            decreases 25 - i,
        {
            let mut h: usize = 0;
            while h < 5
                invariant
                    0 <= i < 25,
                    0 <= h <= 5,
                    keys@.len() == 177,
                    hash.wf(),
                    forall|q: int| 0 <= q < 2 ==> #[trigger] hash.to_move[q].0 == keys@[q],
                    forall|q: int, j: int| 0 <= q < 2 && 0 <= j < 25 ==> #[trigger] hash.builders[q][j].0 == keys@[2 + 25 * q + j],
                    forall|j: int, g: int| 0 <= j < i && 0 <= g < 5 ==> #[trigger] hash.buildings[j][g].0 == keys@[52 + 5 * j + g],
                    forall|g: int| 0 <= g < h ==> #[trigger] hash.buildings[i as int][g].0 == keys@[52 + 5 * i + g],
                decreases 5 - h,
            {
                hash.buildings[i][h] = StateHash(keys[52 + 5 * i + h]);
                h = h + 1;
            }
            i = i + 1;
        }
        hash
    }

    /// The keys are the first 177 numbers an unseeded xorshift generator yields (the
    /// same keys on every run).
    pub fn new_unseeded() -> (r: ZobristHash)
        ensures
            r.wf(),
            r.made_of(unseeded_xorshift_numbers(177)),
    {
        let keys = xorshift_unseeded_numbers(ZOBRIST_KEY_COUNT);
        Self::new(&keys)
    }

    /// The keys are the first 177 numbers an unseeded ChaCha generator yields (the same
    /// keys on every run).
    pub fn new_unseeded_secure() -> (r: ZobristHash)
        ensures
            r.wf(),
            r.made_of(unseeded_chacha_numbers(177)),
    {
        let keys = chacha_unseeded_numbers(ZOBRIST_KEY_COUNT);
        Self::new(&keys)
    }
}

/// The first `n` numbers that `rand::Rng::next_u64` yields from a generator made by
/// `rand::XorShiftRng::new_unseeded`.
pub uninterp spec fn unseeded_xorshift_numbers(n: nat) -> Seq<u64>;

/// The first `n` numbers that `rand::Rng::next_u64` yields from a generator made by
/// `rand::ChaChaRng::new_unseeded`.
pub uninterp spec fn unseeded_chacha_numbers(n: nat) -> Seq<u64>;

/// `rand::XorShiftRng::new_unseeded`, then `n` calls of `rand::Rng::next_u64` on it: the
/// generator starts from fixed constants and steps without chance, so the numbers depend
/// on `n` alone. Claimed: there are `n` of them, and they are the named stream; which
/// numbers these are is left to the generator.
#[verifier::external_body]
fn xorshift_unseeded_numbers(n: usize) -> (r: Vec<u64>)
    ensures
        r@.len() == n,
        r@ == unseeded_xorshift_numbers(n as nat),
{
    let mut rng = rand::XorShiftRng::new_unseeded();
    (0..n).map(|_| rand::Rng::next_u64(&mut rng)).collect()
}

/// `rand::ChaChaRng::new_unseeded`, then `n` calls of `rand::Rng::next_u64` on it: the
/// generator is keyed with zeros and steps without chance, so the numbers depend on `n`
/// alone. Claimed: there are `n` of them, and they are the named stream; which numbers
/// these are is left to the generator.
#[verifier::external_body]
fn chacha_unseeded_numbers(n: usize) -> (r: Vec<u64>)
    ensures
        r@.len() == n,
        r@ == unseeded_chacha_numbers(n as nat),
{
    let mut rng = rand::ChaChaRng::new_unseeded();
    (0..n).map(|_| rand::Rng::next_u64(&mut rng)).collect()
}

/// `Vec::capacity`: never below the length, and a vector never spans more than
/// `isize::MAX` bytes. The exact capacity is the allocator's choice and is left unsaid.
#[verifier::external_body]
fn vec_capacity(v: &Vec<TranspositionEntry>) -> (r: usize)
    ensures
        r >= v@.len(),
        r * vstd::layout::size_of::<TranspositionEntry>() <= isize::MAX,
{
    v.capacity()
}

} // verus!
