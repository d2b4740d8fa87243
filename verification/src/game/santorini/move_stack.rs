//! A fixed stack of moves shared by the levels of a search: each level pushes its moves
//! on top and pops them when done.
use vstd::prelude::*;
use crate::game::util::Slot;
use crate::game::santorini::Move;
use crate::game::santorini::board::MoveSink;

verus! {

pub const MAX_DEPTH: usize = 15;

pub const MAX_MOVES: usize = 256;

pub const MAX_MOVE_STACK: usize = 3840;

pub struct MoveStack {
    pub moves: [Move; 3840],
    pub next: usize,
}

impl MoveStack {
    /// The stack holds `next` moves.
    pub open spec fn wf(&self) -> bool {
        self.next <= MAX_MOVE_STACK
    }

    /// The moves on the stack, bottom first.
    pub open spec fn stacked(&self) -> Seq<Move> {
        self.moves@.subrange(0, self.next as int)
    }

    /// An empty stack, every place filled with the placement on square 0 twice.
    pub fn new() -> (r: MoveStack)
        ensures
            r.wf(),
            r.next == 0,
            forall|i: int| 0 <= i < MAX_MOVE_STACK ==> #[trigger] r.moves[i] == (Move::PlaceBuilders { a: Slot(0), b: Slot(0) }),
    {
        MoveStack { moves: [Move::PlaceBuilders { a: Slot(0), b: Slot(0) }; 3840], next: 0 }
    }

    /// Puts `mve` on top.
    pub fn push(&mut self, mve: Move)
        requires
            old(self).next < MAX_MOVE_STACK,
        ensures
            final(self).moves@ == old(self).moves@.update(old(self).next as int, mve),
            final(self).next == old(self).next + 1,
    {
        self.moves[self.next] = mve;
        self.next = self.next + 1;
    }
}

impl MoveSink for MoveStack {
    open spec fn sunk(&self) -> Seq<Move> {
        self.stacked()
    }

    open spec fn room(&self) -> nat {
        if self.next <= MAX_MOVE_STACK { (MAX_MOVE_STACK - self.next) as nat } else { 0 }
    }

    open spec fn inv(&self) -> bool {
        self.wf()
    }

    fn sink(&mut self, mve: Move) {
        let ghost before = self.stacked();
        self.push(mve);
        assert(self.stacked() =~= before.push(mve));
    }
}

} // verus!
