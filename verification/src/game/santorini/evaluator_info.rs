//! What a search reports besides its answer.
use vstd::prelude::*;
use crate::game::santorini::{MoveCount, Depth};

verus! {

/// Counters of a search: positions visited, principal variation nodes, and how the
/// transposition table answered (valid entry, move suggestion only, miss).
#[derive(Debug, Clone, Copy, PartialEq, Eq, Structural)]
pub struct EvaluatorInfo {
    pub move_count: MoveCount,
    pub pv_count: MoveCount,
    pub tt_valid: u64,
    pub tt_suggest: u64,
    pub tt_miss: u64,
}

/// All counters zero.
pub open spec fn zero_info() -> EvaluatorInfo {
    EvaluatorInfo { move_count: 0, pv_count: 0, tt_valid: 0, tt_suggest: 0, tt_miss: 0 }
}

impl EvaluatorInfo {
    /// All counters zero.
    pub fn new() -> (r: EvaluatorInfo)
        ensures
            r == zero_info(),
    {
        EvaluatorInfo { move_count: 0, pv_count: 0, tt_valid: 0, tt_suggest: 0, tt_miss: 0 }
    }

    /// The report of a search that visited `move_count` positions to depth `depth`.
    pub fn from_moves_depth(move_count: MoveCount, depth: Depth) -> (r: EvaluatorInfo)
        ensures
            r == (EvaluatorInfo { move_count, ..zero_info() }),
    {
        EvaluatorInfo { move_count: move_count, pv_count: 0, tt_valid: 0, tt_suggest: 0, tt_miss: 0 }
    }

    /// The counters of `self` and `other` added up.
    pub fn add(&self, other: &EvaluatorInfo) -> (r: EvaluatorInfo)
        requires
            self.move_count + other.move_count <= u32::MAX,
            self.pv_count + other.pv_count <= u32::MAX,
            self.tt_valid + other.tt_valid <= u64::MAX,
            self.tt_suggest + other.tt_suggest <= u64::MAX,
            self.tt_miss + other.tt_miss <= u64::MAX,
        ensures
            r.move_count == self.move_count + other.move_count,
            r.pv_count == self.pv_count + other.pv_count,
            r.tt_valid == self.tt_valid + other.tt_valid,
            r.tt_suggest == self.tt_suggest + other.tt_suggest,
            r.tt_miss == self.tt_miss + other.tt_miss,
    {
        EvaluatorInfo {
            move_count: self.move_count + other.move_count,
            pv_count: self.pv_count + other.pv_count,
            tt_valid: self.tt_valid + other.tt_valid,
            tt_suggest: self.tt_suggest + other.tt_suggest,
            tt_miss: self.tt_miss + other.tt_miss,
        }
    }
}

} // verus!
