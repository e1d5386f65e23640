//! The evaluation the search sees.

use vstd::prelude::*;
use crate::board::{Board, Dirty};
use crate::nnue::{Network, NnueState, evaluable, leads, value_for};
use crate::position::has_kings;
use crate::types::Piece;

verus! {

/// Incrementally maintained evaluation state, one per searcher. The stack
/// mirrors the search stack: `push` on every move made, `pop` on every move
/// unmade.
pub struct EvalState {
    pub nnue: NnueState,
}

impl EvalState {
    /// Every recorded position can be evaluated.
    pub open spec fn ok(&self, n: Network) -> bool {
        self.nnue.ok(n)
    }

    /// Moves recorded since the root.
    pub open spec fn height(&self) -> int {
        self.nnue.height()
    }

    /// The placements recorded, from the root to the current one.
    pub open spec fn path(&self) -> Seq<Seq<Piece>> {
        self.nnue.path()
    }

    pub open spec fn shaped(&self) -> bool {
        self.nnue.shaped()
    }

    pub fn new() -> (r: EvalState)
        ensures
            r.shaped(),
    {
        EvalState { nnue: NnueState::new() }
    }

    /// Rebuilds from the board. Called at the root of every search.
    pub fn reset(&mut self, n: &Network, b: &Board)
        requires
            old(self).shaped(),
            n.ok(),
            b.placed(),
            has_kings(b.q()),
        ensures
            final(self).ok(*n),
            final(self).height() == 0,
            final(self).path() == seq![b.q()],
    {
        self.nnue.reset(n, b);
    }

    /// Records one move. `b` is the board after it.
    pub fn push(&mut self, n: &Network, b: &Board, d: &Dirty)
        requires
            old(self).ok(*n),
            old(self).height() < 261,
            b.placed(),
            has_kings(b.q()),
            leads(old(self).path().last(), *d, b.q()),
        ensures
            final(self).ok(*n),
            final(self).height() == old(self).height() + 1,
            final(self).path() == old(self).path().push(b.q()),
    {
        self.nnue.push(n, b, d);
    }

    /// A null move moves no piece, but the stack still grows, because `pop` is
    /// driven by the search and does not know which kind of move it undoes.
    pub fn push_null(&mut self, n: &Network)
        requires
            old(self).ok(*n),
            old(self).height() < 261,
        ensures
            final(self).ok(*n),
            final(self).height() == old(self).height() + 1,
            final(self).path() == old(self).path().push(old(self).path().last()),
    {
        self.nnue.push_null(n);
    }

    pub fn pop(&mut self, n: &Network)
        requires
            old(self).ok(*n),
            old(self).height() > 0,
        ensures
            final(self).ok(*n),
            final(self).height() == old(self).height() - 1,
            final(self).path() == old(self).path().drop_last(),
    {
        self.nnue.pop(n);
    }

    /// Side-to-move-relative score, in centipawns: the same that a full
    /// recomputation gives.
    pub fn evaluate(&mut self, n: &Network, b: &Board) -> (r: i32)
        requires
            old(self).ok(*n),
            b.placed(),
            evaluable(b.q()),
            b.q() == old(self).path().last(),
        ensures
            final(self).ok(*n),
            final(self).height() == old(self).height(),
            final(self).path() == old(self).path(),
            r == value_for(*n, b.q(), b.stm),
            -131586 <= r <= 131586,
    {
        self.nnue.evaluate(n, b)
    }
}

impl Default for EvalState {
    fn default() -> (r: EvalState)
        ensures
            r.shaped(),
    {
        EvalState::new()
    }
}

} // verus!
