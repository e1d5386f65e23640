//! Staged move ordering.
//!
//! Moves come out in the order a good search wants to see them: the hash move,
//! the winning captures and promotions, the two killers, the counter move, the
//! quiets by history, and finally the losing captures. Generation is deferred
//! stage by stage, so a node that fails high on its hash move never builds a
//! move list at all.

use vstd::prelude::*;
use vstd::seq_lib::seq_to_set_is_finite;
use vstd::set_lib::lemma_len_subset;
use crate::attacks::Tables;
use crate::board::Board;
use crate::history::{
    Conts, Histories, NULL_CONT, capture_at, cont_cell, conts_ok, main_cell, pawn_cell,
    victim_axis, victim_kind,
};
use crate::movegen::{
    GEN_ALL, GEN_CAPTURES, GEN_QUIETS, Gen, MoveList, gen_of, generate, is_quiet, moves_of,
    swapped, takes, wanted,
};
use crate::movegen_laws::{generated_exactly_legal, lemma_board_gen};
use crate::params::VAL_PAWN;
use crate::position::in_check_at;
use crate::see::{LEAST_THRESHOLD, piece_value, see, see_ge, see_value};
use crate::types::{Color, Move, Piece, PieceType, Square};

verus! {

pub const STAGE_TT: u8 = 0;

pub const STAGE_GEN_CAPTURES: u8 = 1;

pub const STAGE_GOOD_CAPTURES: u8 = 2;

pub const STAGE_KILLER_1: u8 = 3;

pub const STAGE_KILLER_2: u8 = 4;

pub const STAGE_COUNTER: u8 = 5;

pub const STAGE_GEN_QUIETS: u8 = 6;

pub const STAGE_QUIETS: u8 = 7;

pub const STAGE_BAD_CAPTURES: u8 = 8;

pub const STAGE_DONE: u8 = 9;

pub const STAGE_EVASION_GEN: u8 = 10;

pub const STAGE_EVASIONS: u8 = 11;

/// Losing captures, deferred to the end.
pub const MAX_BAD: usize = 128;

/// Static value of what a move wins, before history: the victim, plus the
/// upgrade if it promotes.
pub open spec fn mvv_of(q: Seq<Piece>, m: Move) -> int {
    (if m.is_en_passant() {
        VAL_PAWN as int
    } else {
        piece_value(q[m.to().0 as int])
    }) + (if m.is_promotion() {
        see_value(m.promo_kind()) - VAL_PAWN
    } else {
        0
    })
}

pub fn mvv(b: &Board, m: Move) -> (r: i32)
    requires
        b.placed(),
        m.to().valid(),
    ensures
        r == mvv_of(b.q(), m),
        -100 <= r <= 1898,
{
    let victim: i32 = if m.is_en_passant() {
        VAL_PAWN
    } else {
        let p = b.piece_at(m.to());
        if p.is_none() {
            0
        } else {
            see_value(p.piece_type())
        }
    };
    let promo: i32 = if m.is_promotion() {
        see_value(m.promo()) - VAL_PAWN
    } else {
        0
    };
    victim + promo
}

/// The victim of a move, with `King` standing for "captured nothing".
pub open spec fn victim_by(q: Seq<Piece>, m: Move) -> PieceType {
    if m.is_en_passant() {
        PieceType::Pawn
    } else {
        victim_kind(q[m.to().0 as int])
    }
}

/// The capture-history cell a move belongs in: `[mover][to][victim]`, with
/// `King` standing for "captured nothing".
pub fn capture_cell(b: &Board, m: Move) -> (r: (Piece, Square, PieceType))
    requires
        b.placed(),
        m.from().valid(),
        m.to().valid(),
    ensures
        r.0 == b.q()[m.from().0 as int],
        r.1 == m.to(),
        r.2 == victim_by(b.q(), m),
{
    let victim = if m.is_en_passant() {
        PieceType::Pawn
    } else {
        victim_axis(b.piece_at(m.to()))
    };
    (b.piece_at(m.from()), m.to(), victim)
}

/// Hands out the moves of one position.
pub struct MovePicker {
    pub stage: u8,
    pub tt_move: Move,
    pub killers: [Move; 2],
    pub counter: Move,
    pub list: MoveList,
    pub bad: Vec<Move>,
    pub idx: usize,
    pub bad_idx: usize,
    /// Quiescence and ProbCut: captures and promotions only, no quiet stages.
    pub noisy_only: bool,
    pub see_threshold: i32,
    /// What the moves of the list are scored by.
    pub order: Ghost<spec_fn(Move) -> int>,
}

/// Every listed move has its score by `order`.
pub open spec fn scored(l: &MoveList, order: spec_fn(Move) -> int) -> bool {
    forall|i: int| 0 <= i < l@.len() ==> #[trigger] l.scores@[i] == order(l@[i])
}

/// Every listed move is legal.
pub open spec fn all_legal(b: &Board, s: Seq<Move>) -> bool {
    forall|i: int| 0 <= i < s.len() ==> #[trigger] b.legal_here(s[i]) && s[i].compact()
}

impl MovePicker {
    /// The picker serves the position on `b`.
    pub open spec fn serves(&self, b: &Board) -> bool {
        &&& self.stage <= 11
        &&& self.list.ok()
        &&& all_legal(b, self.list@)
        &&& all_legal(b, self.bad@)
        &&& self.list@.no_duplicates()
        &&& self.bad@.no_duplicates()
        &&& self.bad@.len() <= MAX_BAD
        &&& self.idx <= self.list@.len()
        &&& self.bad_idx <= self.bad@.len()
        &&& self.see_threshold >= LEAST_THRESHOLD
        &&& STAGE_KILLER_1 <= self.stage <= STAGE_BAD_CAPTURES ==> !self.noisy_only
        &&& self.stage <= STAGE_GEN_CAPTURES ==> self.bad@.len() == 0
        &&& self.stage != STAGE_BAD_CAPTURES ==> self.bad_idx == 0
        &&& forall|m: Move| #[trigger]
            in_tail(self.bad@, 0, m) ==> is_noisy(b.q(), m) && m != self.tt_move && see(
                b.q(),
                b.stm,
                m,
            ) < self.see_threshold
        &&& self.lists() ==> scored(&self.list, self.order@)
        &&& self.stage == STAGE_EVASIONS ==> forall|i: int|
            0 <= i < self.list@.len() ==> #[trigger] self.list.scores@[i] <= 0x1000_0000 && (
            self.list.scores@[i] == 0x1000_0000 <==> self.list@[i] == self.tt_move)
        &&& self.stage == STAGE_GOOD_CAPTURES ==> forall|m: Move| #[trigger]
            in_tail(self.list@, self.idx as int, m) ==> is_noisy(b.q(), m) && !in_tail(
                self.bad@,
                0,
                m,
            )
        &&& self.stage == STAGE_QUIETS ==> forall|m: Move| #[trigger]
            in_tail(self.list@, self.idx as int, m) ==> !is_noisy(b.q(), m)
    }

    /// Moves are handed out from the list.
    pub open spec fn lists(&self) -> bool {
        self.stage == STAGE_GOOD_CAPTURES || self.stage == STAGE_QUIETS || self.stage
            == STAGE_EVASIONS
    }

    /// The list is scored by what the tables say: captures and promotions by what
    /// they win and their history, quiets by history, evasions with the hash move
    /// first and quiets last.
    pub open spec fn orders_by(&self, b: &Board, h: &Histories, c: &Conts) -> bool {
        forall|m: Move| #[trigger]
            (self.order@)(m) == if self.stage == STAGE_GOOD_CAPTURES {
                Self::capture_order(b.q(), h, m)
            } else if self.stage == STAGE_QUIETS {
                Self::quiet_order(b.q(), b.stm, b.pawn_key, h, *c, m)
            } else {
                Self::evasion_order(b.q(), b.stm, b.pawn_key, h, *c, self.tt_move, m)
            }
    }

    /// Where `m` comes from when it is handed out and leaves the picker in this
    /// stage.
    pub open spec fn handed_out(&self, b: &Board, m: Move) -> bool {
        let s = self.stage;
        &&& STAGE_GEN_CAPTURES <= s <= STAGE_BAD_CAPTURES || s == STAGE_EVASIONS
        &&& s != STAGE_KILLER_1
        &&& s == STAGE_GEN_CAPTURES ==> m == self.tt_move && self.tt_usable(b)
        &&& s != STAGE_GEN_CAPTURES && s != STAGE_EVASIONS ==> m != self.tt_move
        &&& self.lists() ==> self.best_first(m)
        &&& s == STAGE_GOOD_CAPTURES ==> is_noisy(b.q(), m) && see(b.q(), b.stm, m)
            >= self.see_threshold
        &&& s == STAGE_KILLER_2 ==> m == self.killers[0]
        &&& s == STAGE_COUNTER ==> m == self.killers[1] && m != self.killers[0]
        &&& s == STAGE_GEN_QUIETS ==> m == self.counter && m != self.killers[0] && m
            != self.killers[1]
        &&& s == STAGE_QUIETS ==> !self.is_special(m)
        &&& STAGE_KILLER_2 <= s <= STAGE_QUIETS ==> !is_noisy(b.q(), m)
        &&& s == STAGE_BAD_CAPTURES ==> 0 < self.bad_idx <= self.bad@.len() && m
            == self.bad@[self.bad_idx - 1] && is_noisy(b.q(), m) && see(b.q(), b.stm, m)
            < self.see_threshold
    }

    /// The stages follow one another in their order, and those in check are apart
    /// from the others.
    pub open spec fn comes_after(&self, o: &MovePicker) -> bool {
        if o.stage <= STAGE_DONE {
            o.stage <= self.stage <= STAGE_DONE
        } else {
            self.stage == STAGE_DONE || o.stage <= self.stage <= STAGE_EVASIONS
        }
    }

    /// There is room to put off every losing capture.
    pub open spec fn roomy(&self, b: &Board) -> bool {
        !self.noisy_only && self.stage <= STAGE_GOOD_CAPTURES ==> losing(
            gen_of(b, GEN_CAPTURES),
            self.see_threshold as int,
        ).len() <= MAX_BAD
    }

    /// Killers and the counter move are tried on their own.
    pub open spec fn is_special(&self, m: Move) -> bool {
        m == self.tt_move || m == self.killers[0] || m == self.killers[1] || m == self.counter
    }

    /// Is `m` still to come, if quiets are skipped or not from now on?
    pub open spec fn to_come(&self, b: &Board, skip: bool, m: Move) -> bool {
        let s = self.stage;
        if s == STAGE_EVASION_GEN {
            moves_of(gen_of(b, GEN_ALL)).contains(m)
        } else if s == STAGE_EVASIONS {
            in_tail(self.list@, self.idx as int, m)
        } else if s >= STAGE_DONE {
            false
        } else {
            self.noisy_to_come(b, m) || (!self.noisy_only && !skip && self.quiet_to_come(b, m))
        }
    }

    pub open spec fn worth_trying(&self, b: &Board, m: Move) -> bool {
        m != self.tt_move && (!self.noisy_only || see(b.q(), b.stm, m) >= self.see_threshold)
    }

    /// The hash move, the captures and the promotions.
    pub open spec fn noisy_to_come(&self, b: &Board, m: Move) -> bool {
        let s = self.stage;
        ||| s == STAGE_TT && m == self.tt_move && self.tt_usable(b)
        ||| s <= STAGE_GEN_CAPTURES && moves_of(gen_of(b, GEN_CAPTURES)).contains(m)
            && self.worth_trying(b, m)
        ||| s == STAGE_GOOD_CAPTURES && in_tail(self.list@, self.idx as int, m)
            && self.worth_trying(b, m)
        ||| !self.noisy_only && in_tail(self.bad@, self.bad_idx as int, m)
    }

    /// The killers, the counter move, and the other quiet moves.
    pub open spec fn quiet_to_come(&self, b: &Board, m: Move) -> bool {
        let s = self.stage;
        ||| s <= STAGE_KILLER_1 && m == self.killers[0] && self.is_quiet_candidate(b, m)
        ||| s <= STAGE_KILLER_2 && m == self.killers[1] && m != self.killers[0]
            && self.is_quiet_candidate(b, m)
        ||| s <= STAGE_COUNTER && m == self.counter && m != self.killers[0] && m != self.killers[1]
            && self.is_quiet_candidate(b, m)
        ||| s <= STAGE_GEN_QUIETS && moves_of(gen_of(b, GEN_QUIETS)).contains(m)
            && !self.is_special(m)
        ||| s == STAGE_QUIETS && in_tail(self.list@, self.idx as int, m) && !self.is_special(m)
    }

    /// One step from `o` to `n`: the picker has moved on, and what is to come has
    /// lost exactly the move handed out.
    pub open spec fn stepped(o: &MovePicker, n: &MovePicker, b: &Board, skip: bool, r: Option<Move>) -> bool {
        &&& n.serves(b)
        &&& n.past(o)
        &&& n.tt_move == o.tt_move
        &&& n.killers == o.killers
        &&& n.counter == o.counter
        &&& n.noisy_only == o.noisy_only
        &&& n.see_threshold == o.see_threshold
        &&& r matches Some(m) ==> b.legal_here(m) && n.handed_out(b, m)
        &&& n.comes_after(o)
        &&& n.stage == o.stage ==> n.order == o.order
        &&& o.stage == STAGE_TT ==> n.stage == STAGE_GEN_CAPTURES && (r is Some <==> o.tt_usable(b))
        &&& o.writes_compactly() ==> (r matches Some(m) ==> m.compact())
        &&& o.roomy(b) ==> n.roomy(b) && match r {
            Some(m) => o.to_come(b, skip, m) && forall|x: Move| #[trigger]
                n.to_come(b, skip, x) <==> o.to_come(b, skip, x) && x != m,
            None => forall|x: Move| #[trigger]
                n.to_come(b, skip, x) <==> o.to_come(b, skip, x),
        }
    }

    /// The moves given to the picker are written compactly, as the generated ones
    /// are.
    pub open spec fn writes_compactly(&self) -> bool {
        &&& self.tt_move.compact()
        &&& self.killers[0].compact()
        &&& self.killers[1].compact()
        &&& self.counter.compact()
    }

    /// A move handed out from the list has the best score of those left in it.
    pub open spec fn best_first(&self, m: Move) -> bool {
        self.stage == STAGE_GOOD_CAPTURES || self.stage == STAGE_QUIETS || self.stage
            == STAGE_EVASIONS ==> 0 < self.idx <= self.list@.len() && m == self.list@[self.idx - 1]
            && forall|i: int|
            self.idx <= i < self.list@.len() ==> #[trigger] self.list.scores@[i]
                <= self.list.scores@[self.idx - 1]
    }

    /// Stages still to come.
    pub open spec fn rank(&self) -> int {
        if self.stage == STAGE_EVASION_GEN {
            2
        } else if self.stage == STAGE_EVASIONS {
            1
        } else if self.stage <= STAGE_DONE {
            STAGE_DONE - self.stage
        } else {
            0
        }
    }

    /// Moves still to come in the current stage.
    pub open spec fn left(&self) -> int {
        if self.stage == STAGE_BAD_CAPTURES {
            self.bad@.len() - self.bad_idx
        } else {
            self.list@.len() - self.idx
        }
    }

    /// Further along than `o`.
    pub open spec fn past(&self, o: &MovePicker) -> bool {
        self.rank() < o.rank() || (self.rank() == o.rank() && 0 <= self.left() < o.left())
    }

    /// Nothing has been generated yet.
    pub open spec fn unused(&self) -> bool {
        &&& self.list.ok()
        &&& self.list@.len() == 0
        &&& self.bad@.len() == 0
        &&& self.idx == 0
        &&& self.bad_idx == 0
    }

    pub fn new(tt_move: Move, killers: [Move; 2], counter: Move, in_check: bool) -> (r: MovePicker)
        ensures
            r.stage == if in_check {
                STAGE_EVASION_GEN
            } else {
                STAGE_TT
            },
            r.tt_move == tt_move,
            r.killers == killers,
            r.counter == counter,
            !r.noisy_only,
            r.see_threshold == 0,
            r.unused(),
            forall|b: &Board| #[trigger] r.serves(b),
    {
        MovePicker {
            stage: if in_check {
                STAGE_EVASION_GEN
            } else {
                STAGE_TT
            },
            tt_move,
            killers,
            counter,
            list: MoveList::new(),
            bad: Vec::new(),
            idx: 0,
            bad_idx: 0,
            noisy_only: false,
            see_threshold: 0,
            order: Ghost(|m: Move| 0int),
        }
    }

    pub fn new_qsearch(tt_move: Move, in_check: bool) -> (r: MovePicker)
        ensures
            r.stage == if in_check {
                STAGE_EVASION_GEN
            } else {
                STAGE_TT
            },
            r.tt_move == tt_move,
            r.killers[0] == Move::none(),
            r.killers[1] == Move::none(),
            r.counter == Move::none(),
            r.noisy_only,
            r.see_threshold == 0,
            r.unused(),
            forall|b: &Board| #[trigger] r.serves(b),
    {
        let mut mp = MovePicker::new(tt_move, [Move::none();2], Move::none(), in_check);
        mp.noisy_only = true;
        mp
    }

    /// Captures and promotions winning at least `threshold`, for ProbCut.
    pub fn new_probcut(tt_move: Move, threshold: i32) -> (r: MovePicker)
        requires
            threshold >= LEAST_THRESHOLD,
        ensures
            r.stage == STAGE_TT,
            r.tt_move == tt_move,
            r.killers[0] == Move::none(),
            r.killers[1] == Move::none(),
            r.counter == Move::none(),
            r.noisy_only,
            r.see_threshold == threshold,
            r.unused(),
            forall|b: &Board| #[trigger] r.serves(b),
    {
        let mut mp = MovePicker::new(tt_move, [Move::none();2], Move::none(), false);
        mp.noisy_only = true;
        mp.see_threshold = threshold;
        mp
    }

    /// The order of a capture or promotion.
    pub open spec fn capture_order(q: Seq<Piece>, h: &Histories, m: Move) -> int {
        mvv_of(q, m) * 16 + h.capture@[capture_at(
            q[m.from().0 as int],
            m.to(),
            victim_by(q, m),
        )]
    }

    fn capture_rank(b: &Board, h: &Histories, m: Move) -> (r: i32)
        requires
            b.wf(),
            h.ok(),
            b.legal_here(m),
        ensures
            r == Self::capture_order(b.q(), h, m),
            -20000 <= r <= 50000,
    {
        let (p, to, victim) = capture_cell(b, m);
        mvv(b, m) * 16 + h.capture_score(p, to, victim)
    }

    fn score_captures(&mut self, b: &Board, h: &Histories)
        requires
            b.wf(),
            h.ok(),
            old(self).list.ok(),
            all_legal(b, old(self).list@),
        ensures
            final(self).list.ok(),
            final(self).list@ == old(self).list@,
            final(self).same_but_list(old(self)),
            forall|i: int| 0 <= i < final(self).list@.len() ==> #[trigger] final(self).list.scores@[i]
                == Self::capture_order(b.q(), h, final(self).list@[i]),
    {
        let n = self.list.len();
        let mut i: usize = 0;
        while i < n
            invariant
                b.wf(),
                h.ok(),
                n == self.list@.len(),
                i <= n,
                self.list.ok(),
                self.list@ == old(self).list@,
                all_legal(b, self.list@),
                self.same_but_list(old(self)),
                forall|k: int| 0 <= k < i ==> #[trigger] self.list.scores@[k]
                    == Self::capture_order(b.q(), h, self.list@[k]),
            decreases n - i,
        {
            let m = self.list.get(i);
            assert(b.legal_here(self.list@[i as int]));
            let s = MovePicker::capture_rank(b, h, m);
            self.list.set_score(i, s);
            i += 1;
        }
    }

    /// Everything but the list.
    pub open spec fn same_but_list(&self, o: &MovePicker) -> bool {
        &&& self.stage == o.stage
        &&& self.tt_move == o.tt_move
        &&& self.killers == o.killers
        &&& self.counter == o.counter
        &&& self.bad == o.bad
        &&& self.idx == o.idx
        &&& self.bad_idx == o.bad_idx
        &&& self.noisy_only == o.noisy_only
        &&& self.see_threshold == o.see_threshold
        &&& self.order == o.order
    }

    /// What the planes `c` say about a move, up to plane `k`.
    pub open spec fn cont_sum(h: &Histories, c: Conts, p: Piece, to: Square, k: int) -> int
        decreases k,
    {
        if k <= 0 {
            0
        } else {
            Self::cont_sum(h, c, p, to, k - 1) + if c[k - 1] == NULL_CONT {
                0
            } else {
                h.cont@[cont_cell(c[k - 1] as int, p, to)] as int
            }
        }
    }

    /// The order of a quiet move.
    pub open spec fn quiet_order(q: Seq<Piece>, stm: Color, pawn_key: u64, h: &Histories, c: Conts, m: Move) -> int {
        let p = q[m.from().0 as int];
        h.main@[main_cell(stm, m)] + h.pawn@[pawn_cell(pawn_key, p, m.to())] + Self::cont_sum(
            h,
            c,
            p,
            m.to(),
            4,
        )
    }

    fn quiet_score(b: &Board, h: &Histories, conts: &Conts, m: Move) -> (r: i32)
        requires
            b.wf(),
            h.ok(),
            conts_ok(*conts),
            b.legal_here(m),
        ensures
            r == Self::quiet_order(b.q(), b.stm, b.pawn_key, h, *conts, m),
            -100000 <= r <= 100000,
    {
        let p = b.piece_at(m.from());
        let mut s: i32 = h.main_score(b.stm, m) + h.pawn_score(b.pawn_key, p, m.to());
        let ghost base = s as int;
        let mut k: usize = 0;
        while k < 4
            invariant
                k <= 4,
                h.ok(),
                conts_ok(*conts),
                p.valid(),
                m.to().valid(),
                -32768 <= base <= 32768,
                s == base + Self::cont_sum(h, *conts, p, m.to(), k as int),
                -32768 - 16384 * k <= s <= 32768 + 16384 * k,
            decreases 4 - k,
        {
            let c = conts[k];
            assert(conts[k as int] <= NULL_CONT);
            if c != NULL_CONT {
                s = s + h.cont_score(c, p, m.to());
            }
            k += 1;
        }
        s
    }

    fn score_quiets(&mut self, b: &Board, h: &Histories, conts: &Conts)
        requires
            b.wf(),
            h.ok(),
            conts_ok(*conts),
            old(self).list.ok(),
            all_legal(b, old(self).list@),
        ensures
            final(self).list.ok(),
            final(self).list@ == old(self).list@,
            final(self).same_but_list(old(self)),
            forall|i: int| 0 <= i < final(self).list@.len() ==> #[trigger] final(self).list.scores@[i]
                == Self::quiet_order(b.q(), b.stm, b.pawn_key, h, *conts, final(self).list@[i]),
    {
        let n = self.list.len();
        let mut i: usize = 0;
        while i < n
            invariant
                b.wf(),
                h.ok(),
                conts_ok(*conts),
                n == self.list@.len(),
                i <= n,
                self.list.ok(),
                self.list@ == old(self).list@,
                all_legal(b, self.list@),
                self.same_but_list(old(self)),
                forall|k: int| 0 <= k < i ==> #[trigger] self.list.scores@[k]
                    == Self::quiet_order(b.q(), b.stm, b.pawn_key, h, *conts, self.list@[k]),
            decreases n - i,
        {
            assert(b.legal_here(self.list@[i as int]));
            let s = MovePicker::quiet_score(b, h, conts, self.list.get(i));
            self.list.set_score(i, s);
            i += 1;
        }
    }

    /// The order of an evasion: the hash move, then anything that wins material,
    /// then the rest by quiet history.
    pub open spec fn evasion_order(
        q: Seq<Piece>,
        stm: Color,
        pawn_key: u64,
        h: &Histories,
        c: Conts,
        tt: Move,
        m: Move,
    ) -> int {
        if m == tt {
            0x1000_0000
        } else if !m.is_promotion() && !takes(q, m) {
            Self::quiet_order(q, stm, pawn_key, h, c, m)
        } else {
            0x40_0000 + Self::capture_order(q, h, m)
        }
    }

    /// In check the whole list is generated at once, so noisy and quiet
    /// evasions are scored on one scale: anything that wins material first, the
    /// rest by quiet history.
    fn score_evasions(&mut self, b: &Board, h: &Histories, conts: &Conts)
        requires
            b.wf(),
            h.ok(),
            conts_ok(*conts),
            old(self).list.ok(),
            all_legal(b, old(self).list@),
        ensures
            final(self).list.ok(),
            final(self).list@ == old(self).list@,
            final(self).same_but_list(old(self)),
            forall|i: int| 0 <= i < final(self).list@.len() ==> #[trigger] final(self).list.scores@[i]
                == Self::evasion_order(
                b.q(),
                b.stm,
                b.pawn_key,
                h,
                *conts,
                old(self).tt_move,
                final(self).list@[i],
            ),
            forall|i: int| 0 <= i < final(self).list@.len() ==> #[trigger] final(self).list.scores@[i]
                <= 0x1000_0000 && (final(self).list.scores@[i] == 0x1000_0000 <==> final(
                self).list@[i] == old(self).tt_move),
    {
        let n = self.list.len();
        let mut i: usize = 0;
        while i < n
            invariant
                b.wf(),
                h.ok(),
                conts_ok(*conts),
                n == self.list@.len(),
                i <= n,
                self.list.ok(),
                self.list@ == old(self).list@,
                all_legal(b, self.list@),
                self.same_but_list(old(self)),
                forall|k: int| 0 <= k < i ==> #[trigger] self.list.scores@[k]
                    == Self::evasion_order(
                    b.q(),
                    b.stm,
                    b.pawn_key,
                    h,
                    *conts,
                    self.tt_move,
                    self.list@[k],
                ),
                forall|k: int| 0 <= k < i ==> #[trigger] self.list.scores@[k] <= 0x1000_0000 && (
                self.list.scores@[k] == 0x1000_0000 <==> self.list@[k] == self.tt_move),
            decreases n - i,
        {
            let m = self.list.get(i);
            assert(b.legal_here(self.list@[i as int]));
            let s: i32 = if m == self.tt_move {
                0x1000_0000
            } else if is_quiet(b, m) {
                MovePicker::quiet_score(b, h, conts, m)
            } else {
                0x40_0000 + MovePicker::capture_rank(b, h, m)
            };
            self.list.set_score(i, s);
            i += 1;
        }
    }

    /// The hash move is worth trying: legal here and, in a noisy-only search,
    /// noisy enough.
    pub open spec fn tt_usable(&self, b: &Board) -> bool {
        b.legal_here(self.tt_move) && (!self.noisy_only || ((self.tt_move.is_promotion() || takes(
            b.q(),
            self.tt_move,
        )) && see(b.q(), b.stm, self.tt_move) >= self.see_threshold))
    }

    /// A hash move is worth trying only if it is legal here *and*, in a
    /// noisy-only search, noisy enough. `is_pseudo_legal` comes first because
    /// everything after it reads the board at the move's squares.
    fn tt_move_usable(&self, b: &Board, t: &Tables) -> (r: bool)
        requires
            b.wf(),
            self.see_threshold >= LEAST_THRESHOLD,
        ensures
            r == self.tt_usable(b),
    {
        let m = self.tt_move;
        if m.is_none() || !b.is_pseudo_legal(t, m) {
            return false;
        }
        !self.noisy_only || (!is_quiet(b, m) && see_ge(b, t, m, self.see_threshold))
    }

    /// A killer or counter move that can be tried: legal, quiet in this position,
    /// and not the hash move.
    pub open spec fn is_quiet_candidate(&self, b: &Board, m: Move) -> bool {
        m != self.tt_move && b.legal_here(m) && !m.is_promotion() && !takes(b.q(), m)
    }

    /// A killer or counter move is only ever tried in the quiet stages, so it
    /// has to still be quiet in *this* position; not merely quiet when it was
    /// stored.
    fn quiet_candidate(&self, b: &Board, t: &Tables, m: Move) -> (r: bool)
        requires
            b.wf(),
        ensures
            r == self.is_quiet_candidate(b, m),
    {
        !m.is_none() && m != self.tt_move && b.is_pseudo_legal(t, m) && is_quiet(b, m)
    }

    /// Whether the move just yielded came from the losing-capture stage.
    ///
    /// True only while that stage is handing moves out, so every move it
    /// describes is a capture or promotion the exchange test rejected. It is
    /// false for evasions, which never reach the stage, and in the quiescence and
    /// ProbCut pickers, which leave `STAGE_GOOD_CAPTURES` for `STAGE_DONE`.
    pub fn in_bad_captures(&self) -> (r: bool)
        ensures
            r == (self.stage == STAGE_BAD_CAPTURES),
    {
        self.stage == STAGE_BAD_CAPTURES
    }

    /// Generates a fresh list.
    fn refill<const T: u8>(&mut self, b: &Board, t: &Tables)
        requires
            b.wf(),
        ensures
            final(self).list.ok(),
            final(self).list@ == moves_of(gen_of(b, T)),
            all_legal(b, final(self).list@),
            final(self).list@.no_duplicates(),
            forall|m: Move| #[trigger] final(self).list@.contains(m) ==> wanted(gen_of(b, T), m),
            final(self).same_but_list(old(self)),
    {
        self.list.clear();
        generate::<T>(b, t, &mut self.list);
        proof {
            assert(self.list@ =~= moves_of(gen_of(b, T)));
            lemma_board_gen(b, T);
            generated_exactly_legal(gen_of(b, T));
            assert forall|i: int| 0 <= i < self.list@.len() implies #[trigger] b.legal_here(
                self.list@[i],
            ) && self.list@[i].compact() by {
                assert(moves_of(gen_of(b, T)).contains(self.list@[i]));
            }
        }
    }

    /// The best listed move from `idx` on, moving `idx` past it.
    fn take_best(&mut self, b: &Board) -> (r: Move)
        requires
            old(self).list.ok(),
            old(self).idx < old(self).list@.len(),
            all_legal(b, old(self).list@),
            old(self).list@.no_duplicates(),
        ensures
            final(self).list.ok(),
            final(self).idx == old(self).idx + 1,
            r == final(self).list@[old(self).idx as int],
            forall|i: int|
                final(self).idx <= i < final(self).list@.len() ==> #[trigger] final(self).list.scores@[i]
                    <= final(self).list.scores@[old(self).idx as int],
            all_legal(b, final(self).list@),
            final(self).list@.no_duplicates(),
            final(self).list@.len() == old(self).list@.len(),
            forall|x: Move| #[trigger]
                in_tail(final(self).list@, final(self).idx as int, x) <==> in_tail(
                    old(self).list@,
                    old(self).idx as int,
                    x,
                ) && x != r,
            in_tail(old(self).list@, old(self).idx as int, r),
            b.legal_here(r),
            r.compact(),
            final(self).stage == old(self).stage,
            final(self).tt_move == old(self).tt_move,
            final(self).killers == old(self).killers,
            final(self).counter == old(self).counter,
            final(self).bad == old(self).bad,
            final(self).bad_idx == old(self).bad_idx,
            final(self).noisy_only == old(self).noisy_only,
            final(self).see_threshold == old(self).see_threshold,
            final(self).order == old(self).order,
            forall|f: spec_fn(Move) -> int|
                scored(&old(self).list, f) ==> #[trigger] scored(&final(self).list, f),
            forall|i: int| 0 <= i < final(self).list@.len() ==> old(self).list.has(
                final(self).list@[i],
                #[trigger] final(self).list.scores@[i],
            ),
    {
        let n = self.list.len();
        let m = self.list.pick_best(self.idx);
        assert(self.idx < n);
        proof {
            let best = choose|best: int| #[trigger]
                old(self).list.is_best(old(self).idx as int, best) && self.list@ == swapped(
                    old(self).list@,
                    old(self).idx as int,
                    best,
                ) && self.list.scores@ == swapped(
                    old(self).list.scores@,
                    old(self).idx as int,
                    best,
                );
            lemma_swapped(b, old(self).list@, self.list@, old(self).idx as int, best);
            assert forall|f: spec_fn(Move) -> int|
                scored(&old(self).list, f) implies #[trigger] scored(&self.list, f) by {
                assert forall|i: int| 0 <= i < self.list@.len() implies #[trigger] self.list.scores@[i]
                    == f(self.list@[i]) by {
                    let j = if i == old(self).idx {
                        best
                    } else if i == best {
                        old(self).idx as int
                    } else {
                        i
                    };
                    assert(self.list.scores@[i] == old(self).list.scores@[j]);
                }
            }
            assert forall|i: int| 0 <= i < self.list@.len() implies old(self).list.has(
                self.list@[i],
                #[trigger] self.list.scores@[i],
            ) by {
                let j = if i == old(self).idx {
                    best
                } else if i == best {
                    old(self).idx as int
                } else {
                    i
                };
                assert(old(self).list.holds(j, self.list@[i], self.list.scores@[i]));
            }
        }
        self.idx = self.idx + 1;
        m
    }

    /// Puts a losing capture off to the end, as long as there is room.
    fn defer(&mut self, b: &Board, m: Move)
        requires
            old(self).bad@.len() <= MAX_BAD,
            all_legal(b, old(self).bad@),
            old(self).bad@.no_duplicates(),
            !in_tail(old(self).bad@, 0, m),
            b.legal_here(m),
            m.compact(),
        ensures
            final(self).bad@ == if old(self).bad@.len() < MAX_BAD {
                old(self).bad@.push(m)
            } else {
                old(self).bad@
            },
            final(self).bad@.len() <= MAX_BAD,
            all_legal(b, final(self).bad@),
            final(self).bad@.no_duplicates(),
            forall|x: Move| #[trigger]
                in_tail(final(self).bad@, 0, x) <==> in_tail(old(self).bad@, 0, x) || (x == m
                    && old(self).bad@.len() < MAX_BAD),
            final(self).stage == old(self).stage,
            final(self).tt_move == old(self).tt_move,
            final(self).killers == old(self).killers,
            final(self).counter == old(self).counter,
            final(self).list == old(self).list,
            final(self).idx == old(self).idx,
            final(self).bad_idx == old(self).bad_idx,
            final(self).noisy_only == old(self).noisy_only,
            final(self).see_threshold == old(self).see_threshold,
            final(self).order == old(self).order,
    {
        if self.bad.len() < MAX_BAD {
            let ghost before = self.bad@;
            self.bad.push(m);
            proof {
                assert forall|i: int| 0 <= i < self.bad@.len() implies #[trigger] b.legal_here(
                    self.bad@[i],
                ) && self.bad@[i].compact() by {
                    if i < before.len() {
                        assert(b.legal_here(before[i]));
                    }
                }
                assert forall|x: Move| #[trigger] in_tail(self.bad@, 0, x) <==> in_tail(
                    before,
                    0,
                    x,
                ) || x == m by {
                    if in_tail(self.bad@, 0, x) {
                        let i = choose|i: int| 0 <= i < self.bad@.len() && self.bad@[i] == x;
                        if i < before.len() {
                            assert(before[i] == x);
                        }
                    }
                    if in_tail(before, 0, x) {
                        let i = choose|i: int| 0 <= i < before.len() && before[i] == x;
                        assert(self.bad@[i] == x);
                    }
                    if x == m {
                        assert(self.bad@[before.len() as int] == m);
                    }
                }
                assert(self.bad@.no_duplicates()) by {
                    assert forall|i: int, j: int|
                        0 <= i < self.bad@.len() && 0 <= j < self.bad@.len() && i
                            != j implies self.bad@[i] != self.bad@[j] by {
                        if i == before.len() {
                            assert(before[j] == self.bad@[j]);
                            if self.bad@[j] == m {
                                assert(in_tail(before, 0, m));
                            }
                        } else if j == before.len() {
                            assert(before[i] == self.bad@[i]);
                            if self.bad@[i] == m {
                                assert(in_tail(before, 0, m));
                            }
                        }
                    }
                }
            }
        }
    }

    /// Leaves the quiet stages for the losing captures.
    fn to_bad_captures(&mut self)
        ensures
            final(self).stage == STAGE_BAD_CAPTURES,
            final(self).bad_idx == 0,
            final(self).tt_move == old(self).tt_move,
            final(self).killers == old(self).killers,
            final(self).counter == old(self).counter,
            final(self).list == old(self).list,
            final(self).bad == old(self).bad,
            final(self).idx == old(self).idx,
            final(self).noisy_only == old(self).noisy_only,
            final(self).see_threshold == old(self).see_threshold,
            final(self).order == old(self).order,
    {
        self.stage = STAGE_BAD_CAPTURES;
        self.bad_idx = 0;
    }

    fn step_tt(&mut self, b: &Board, t: &Tables, skip_quiets: bool) -> (r: Option<Move>)
        requires
            b.wf(),
            old(self).serves(b),
            old(self).stage == STAGE_TT,
        ensures
            Self::stepped(old(self), final(self), b, skip_quiets, r),
            final(self).stage != old(self).stage ==> !final(self).lists(),
    {
        self.stage = STAGE_GEN_CAPTURES;
        assert(self.bad@.len() == 0);
        if self.tt_move_usable(b, t) {
            Some(self.tt_move)
        } else {
            None
        }
    }

    fn step_gen_captures(&mut self, b: &Board, t: &Tables, h: &Histories, skip_quiets: bool) -> (r: Option<Move>)
        requires
            b.wf(),
            h.ok(),
            old(self).serves(b),
            old(self).stage == STAGE_GEN_CAPTURES,
        ensures
            Self::stepped(old(self), final(self), b, skip_quiets, r),
            r is None,
            final(self).stage == STAGE_GOOD_CAPTURES,
            forall|c: &Conts| #[trigger] final(self).orders_by(b, h, c),
    {
        self.refill::<GEN_CAPTURES>(b, t);
        self.score_captures(b, h);
        self.idx = 0;
        self.order = Ghost(|m: Move| Self::capture_order(b.q(), h, m));
        self.stage = STAGE_GOOD_CAPTURES;
        proof {
            lemma_tail_all(self.list@);
            let g = gen_of(b, GEN_CAPTURES);
            assert forall|m: Move| #[trigger] in_tail(self.list@, 0, m) implies is_noisy(b.q(), m)
                && !in_tail(self.bad@, 0, m) by {
                assert(self.list@.contains(m));
                assert(wanted(g, m));
            }
        }
        None
    }

    fn step_good_captures(&mut self, b: &Board, t: &Tables, skip_quiets: bool) -> (r: Option<Move>)
        requires
            b.wf(),
            old(self).serves(b),
            old(self).stage == STAGE_GOOD_CAPTURES,
        ensures
            Self::stepped(old(self), final(self), b, skip_quiets, r),
            final(self).stage != old(self).stage ==> !final(self).lists(),
    {
        if self.idx < self.list.len() {
            let m = self.take_best(b);
            proof {
                assert(is_noisy(b.q(), m));
                lemma_quiets(b);
            }
            if m == self.tt_move {
                return None;
            }
            if see_ge(b, t, m, self.see_threshold) {
                return Some(m);
            }
            proof {
                if old(self).roomy(b) && !self.noisy_only {
                    lemma_room_left(b, self.bad@, self.see_threshold as int, m);
                }
            }
            self.defer(b, m);
            return None;
        }
        self.stage = if self.noisy_only {
            STAGE_DONE
        } else {
            STAGE_KILLER_1
        };
        None
    }

    fn step_killer(&mut self, b: &Board, t: &Tables, skip_quiets: bool) -> (r: Option<Move>)
        requires
            b.wf(),
            old(self).serves(b),
            old(self).stage == STAGE_KILLER_1 || old(self).stage == STAGE_KILLER_2,
        ensures
            Self::stepped(old(self), final(self), b, skip_quiets, r),
            final(self).stage != old(self).stage ==> !final(self).lists(),
    {
        if skip_quiets {
            self.to_bad_captures();
            return None;
        }
        if self.stage == STAGE_KILLER_1 {
            let k = self.killers[0];
            self.stage = STAGE_KILLER_2;
            if self.quiet_candidate(b, t, k) {
                return Some(k);
            }
        } else {
            let k = self.killers[1];
            self.stage = STAGE_COUNTER;
            if k != self.killers[0] && self.quiet_candidate(b, t, k) {
                return Some(k);
            }
        }
        None
    }

    fn step_counter(&mut self, b: &Board, t: &Tables, skip_quiets: bool) -> (r: Option<Move>)
        requires
            b.wf(),
            old(self).serves(b),
            old(self).stage == STAGE_COUNTER,
        ensures
            Self::stepped(old(self), final(self), b, skip_quiets, r),
            final(self).stage != old(self).stage ==> !final(self).lists(),
    {
        if skip_quiets {
            self.to_bad_captures();
            return None;
        }
        let c = self.counter;
        self.stage = STAGE_GEN_QUIETS;
        if c != self.killers[0] && c != self.killers[1] && self.quiet_candidate(b, t, c) {
            return Some(c);
        }
        None
    }

    fn step_gen_quiets(
        &mut self,
        b: &Board,
        t: &Tables,
        h: &Histories,
        conts: &Conts,
        skip_quiets: bool,
    ) -> (r: Option<Move>)
        requires
            b.wf(),
            h.ok(),
            conts_ok(*conts),
            old(self).serves(b),
            old(self).stage == STAGE_GEN_QUIETS,
        ensures
            Self::stepped(old(self), final(self), b, skip_quiets, r),
            r is None,
            final(self).stage == STAGE_QUIETS,
            final(self).orders_by(b, h, conts),
    {
        if skip_quiets {
            self.list.clear();
        } else {
            self.refill::<GEN_QUIETS>(b, t);
            self.score_quiets(b, h, conts);
        }
        self.idx = 0;
        self.order = Ghost(
            |m: Move| Self::quiet_order(b.q(), b.stm, b.pawn_key, h, *conts, m),
        );
        self.stage = STAGE_QUIETS;
        proof {
            lemma_tail_all(self.list@);
            let g = gen_of(b, GEN_QUIETS);
            assert forall|m: Move| #[trigger] in_tail(self.list@, 0, m) implies !is_noisy(
                b.q(),
                m,
            ) by {
                assert(self.list@.contains(m));
                assert(wanted(g, m));
            }
        }
        None
    }

    fn step_quiets(&mut self, b: &Board, skip_quiets: bool) -> (r: Option<Move>)
        requires
            b.wf(),
            old(self).serves(b),
            old(self).stage == STAGE_QUIETS,
        ensures
            Self::stepped(old(self), final(self), b, skip_quiets, r),
            final(self).stage != old(self).stage ==> !final(self).lists(),
    {
        if !skip_quiets && self.idx < self.list.len() {
            let m = self.take_best(b);
            proof {
                assert(!is_noisy(b.q(), m));
            }
            if m == self.tt_move || m == self.killers[0] || m == self.killers[1] || m
                == self.counter {
                return None;
            }
            return Some(m);
        }
        self.to_bad_captures();
        None
    }

    fn step_bad_captures(&mut self, b: &Board, skip_quiets: bool) -> (r: Option<Move>)
        requires
            b.wf(),
            old(self).serves(b),
            old(self).stage == STAGE_BAD_CAPTURES,
        ensures
            Self::stepped(old(self), final(self), b, skip_quiets, r),
            final(self).stage != old(self).stage ==> !final(self).lists(),
    {
        let n = self.bad.len();
        if self.bad_idx < n {
            let m = self.bad[self.bad_idx];
            proof {
                assert(b.legal_here(self.bad@[self.bad_idx as int]));
                lemma_tail_first(self.bad@, self.bad_idx as int);
                assert(in_tail(self.bad@, 0, m));
            }
            self.bad_idx = self.bad_idx + 1;
            Some(m)
        } else {
            self.stage = STAGE_DONE;
            self.bad_idx = 0;
            None
        }
    }

    fn step_evasion_gen(
        &mut self,
        b: &Board,
        t: &Tables,
        h: &Histories,
        conts: &Conts,
        skip_quiets: bool,
    ) -> (r: Option<Move>)
        requires
            b.wf(),
            h.ok(),
            conts_ok(*conts),
            old(self).serves(b),
            old(self).stage == STAGE_EVASION_GEN,
        ensures
            Self::stepped(old(self), final(self), b, skip_quiets, r),
            r is None,
            final(self).stage == STAGE_EVASIONS,
            final(self).orders_by(b, h, conts),
            old(self).tt_move.compact() && b.legal_here(old(self).tt_move) ==> in_tail(
                final(self).list@,
                0,
                old(self).tt_move,
            ),
            final(self).idx == 0,
    {
        self.refill::<GEN_ALL>(b, t);
        self.score_evasions(b, h, conts);
        self.idx = 0;
        self.order = Ghost(
            |m: Move|
                Self::evasion_order(b.q(), b.stm, b.pawn_key, h, *conts, old(self).tt_move, m),
        );
        self.stage = STAGE_EVASIONS;
        proof {
            lemma_tail_all(self.list@);
            lemma_board_gen(b, GEN_ALL);
            generated_exactly_legal(gen_of(b, GEN_ALL));
        }
        None
    }

    fn step_evasions(&mut self, b: &Board, skip_quiets: bool) -> (r: Option<Move>)
        requires
            b.wf(),
            old(self).serves(b),
            old(self).stage == STAGE_EVASIONS,
        ensures
            Self::stepped(old(self), final(self), b, skip_quiets, r),
            final(self).stage != old(self).stage ==> !final(self).lists(),
            in_tail(old(self).list@, old(self).idx as int, old(self).tt_move) ==> r == Some(
                old(self).tt_move,
            ),
    {
        if self.idx < self.list.len() {
            let ghost o = *self;
            let m = self.take_best(b);
            proof {
                assert forall|i: int| 0 <= i < self.list@.len() implies #[trigger] self.list.scores@[i]
                    <= 0x1000_0000 && (self.list.scores@[i] == 0x1000_0000 <==> self.list@[i]
                    == self.tt_move) by {
                    assert(o.list.has(self.list@[i], self.list.scores@[i]));
                    let j = choose|j: int| #[trigger]
                        o.list.holds(j, self.list@[i], self.list.scores@[i]);
                    assert(o.list.scores@[j] <= 0x1000_0000);
                }
                if in_tail(o.list@, o.idx as int, o.tt_move) && m != o.tt_move {
                    assert(in_tail(self.list@, self.idx as int, o.tt_move));
                    let k = choose|k: int|
                        self.idx <= k < self.list@.len() && #[trigger] self.list@[k] == o.tt_move;
                    assert(self.list.scores@[k] <= self.list.scores@[o.idx as int]);
                }
            }
            Some(m)
        } else {
            self.stage = STAGE_DONE;
            None
        }
    }

    /// One step of the current stage: a move, or none yet.
    fn step(&mut self, b: &Board, t: &Tables, h: &Histories, conts: &Conts, skip_quiets: bool) -> (r:
        Option<Move>)
        requires
            b.wf(),
            h.ok(),
            conts_ok(*conts),
            old(self).serves(b),
            old(self).stage != STAGE_DONE,
        ensures
            Self::stepped(old(self), final(self), b, skip_quiets, r),
            final(self).stage != old(self).stage && final(self).lists() ==> final(self).orders_by(
                b,
                h,
                conts,
            ),
            old(self).stage == STAGE_EVASION_GEN ==> r is None && final(self).stage
                == STAGE_EVASIONS && final(self).idx == 0 && (old(self).tt_move.compact()
                && b.legal_here(old(self).tt_move) ==> in_tail(
                final(self).list@,
                0,
                old(self).tt_move,
            )),
            old(self).stage == STAGE_EVASIONS && in_tail(
                old(self).list@,
                old(self).idx as int,
                old(self).tt_move,
            ) ==> r == Some(old(self).tt_move),
    {
        match self.stage {
            STAGE_TT => self.step_tt(b, t, skip_quiets),
            STAGE_GEN_CAPTURES => self.step_gen_captures(b, t, h, skip_quiets),
            STAGE_GOOD_CAPTURES => self.step_good_captures(b, t, skip_quiets),
            STAGE_KILLER_1 => self.step_killer(b, t, skip_quiets),
            STAGE_KILLER_2 => self.step_killer(b, t, skip_quiets),
            STAGE_COUNTER => self.step_counter(b, t, skip_quiets),
            STAGE_GEN_QUIETS => self.step_gen_quiets(b, t, h, conts, skip_quiets),
            STAGE_QUIETS => self.step_quiets(b, skip_quiets),
            STAGE_BAD_CAPTURES => self.step_bad_captures(b, skip_quiets),
            STAGE_EVASION_GEN => self.step_evasion_gen(b, t, h, conts, skip_quiets),
            _ => self.step_evasions(b, skip_quiets),
        }
    }

    /// `n` is `o` after it was asked for the next move, which is `r`.
    #[verifier::opaque]
    pub open spec fn is_next(
        o: MovePicker,
        n: MovePicker,
        b: &Board,
        h: &Histories,
        c: &Conts,
        skip: bool,
        r: Option<Move>,
    ) -> bool {
        &&& n.serves(b)
        &&& n.tt_move == o.tt_move
        &&& n.killers == o.killers
        &&& n.counter == o.counter
        &&& n.noisy_only == o.noisy_only
        &&& n.see_threshold == o.see_threshold
        &&& r matches Some(m) ==> n.handed_out(b, m)
        &&& n.comes_after(&o)
        &&& n.lists() ==> if n.stage == o.stage {
            n.order == o.order
        } else {
            n.orders_by(b, h, c)
        }
        &&& o.roomy(b) ==> n.roomy(b) && match r {
            Some(m) => o.to_come(b, skip, m) && forall|x: Move| #[trigger]
                n.to_come(b, skip, x) <==> o.to_come(b, skip, x) && x != m,
            None => forall|x: Move| !#[trigger] o.to_come(b, skip, x),
        }
    }

    /// Where a move stands in the order out of check: the hash move, winning captures and
    /// promotions, the killers, the counter move, the other quiet moves, and the losing
    /// captures and promotions.
    pub open spec fn rank_of(&self, b: &Board, m: Move) -> int {
        if m == self.tt_move {
            0
        } else if is_noisy(b.q(), m) {
            if see(b.q(), b.stm, m) >= self.see_threshold {
                1
            } else {
                6
            }
        } else if m == self.killers[0] {
            2
        } else if m == self.killers[1] {
            3
        } else if m == self.counter {
            4
        } else {
            5
        }
    }

    /// The next move, or `None` when there is none left.
    ///
    /// Every move to come is handed out exactly once, stage by stage; a move from
    /// the list is the best scored of those left in it.
    pub fn next(&mut self, b: &Board, t: &Tables, h: &Histories, conts: &Conts, skip_quiets: bool) -> (r:
        Option<Move>)
        requires
            b.wf(),
            h.ok(),
            conts_ok(*conts),
            old(self).serves(b),
        ensures
            Self::is_next(*old(self), *final(self), b, h, conts, skip_quiets, r),
            final(self).serves(b),
            final(self).tt_move == old(self).tt_move,
            final(self).killers == old(self).killers,
            final(self).counter == old(self).counter,
            final(self).noisy_only == old(self).noisy_only,
            final(self).see_threshold == old(self).see_threshold,
            r matches Some(m) ==> b.legal_here(m) && final(self).past(old(self)) && final(
                self).handed_out(b, m),
            r is None ==> final(self).stage == STAGE_DONE,
            // Stage by stage, each list by the tables as they are when it is made.
            final(self).comes_after(old(self)),
            final(self).lists() ==> if final(self).stage == old(self).stage {
                final(self).order == old(self).order
            } else {
                final(self).orders_by(b, h, conts)
            },
            // A hash move that can be tried comes first.
            old(self).stage == STAGE_TT && old(self).tt_usable(b) ==> r == Some(old(self).tt_move),
            old(self).stage == STAGE_EVASION_GEN && old(self).tt_move.compact() && b.legal_here(
                old(self).tt_move,
            ) ==> r == Some(old(self).tt_move),
            old(self).writes_compactly() ==> (r matches Some(m) ==> m.compact()),
            old(self).roomy(b) ==> final(self).roomy(b) && match r {
                Some(m) => old(self).to_come(b, skip_quiets, m) && forall|x: Move| #[trigger]
                    final(self).to_come(b, skip_quiets, x) <==> old(self).to_come(
                        b,
                        skip_quiets,
                        x,
                    ) && x != m,
                None => forall|x: Move| !#[trigger] old(self).to_come(b, skip_quiets, x),
            },
    {
        let ghost start = *self;
        proof {
            reveal(MovePicker::is_next);
        }
        while self.stage != STAGE_DONE
            invariant
                b.wf(),
                h.ok(),
                conts_ok(*conts),
                self.serves(b),
                self.tt_move == start.tt_move,
                self.killers == start.killers,
                self.counter == start.counter,
                self.noisy_only == start.noisy_only,
                self.see_threshold == start.see_threshold,
                *old(self) == start,
                *self == start || self.past(&start),
                self.comes_after(&start),
                self.stage == start.stage ==> self.order == start.order,
                self.stage != start.stage && self.lists() ==> self.orders_by(b, h, conts),
                start.stage == STAGE_TT && start.tt_usable(b) ==> self.stage == STAGE_TT,
                start.stage == STAGE_EVASION_GEN && start.tt_move.compact() && b.legal_here(
                    start.tt_move,
                ) ==> self.stage == STAGE_EVASION_GEN || (self.stage == STAGE_EVASIONS && in_tail(
                    self.list@,
                    self.idx as int,
                    start.tt_move,
                )),
                start.roomy(b) ==> self.roomy(b) && forall|x: Move| #[trigger]
                    self.to_come(b, skip_quiets, x) <==> start.to_come(b, skip_quiets, x),
            decreases self.rank(), self.left(),
        {
            let ghost here = *self;
            match self.step(b, t, h, conts, skip_quiets) {
                Some(m) => {
                    proof {
                        reveal(MovePicker::is_next);
                        if start.roomy(b) {
                            assert forall|x: Move| #[trigger] self.to_come(b, skip_quiets, x)
                                <==> start.to_come(b, skip_quiets, x) && x != m by {
                                assert(here.to_come(b, skip_quiets, x) <==> start.to_come(
                                    b,
                                    skip_quiets,
                                    x,
                                ));
                            }
                        }
                    }
                    return Some(m);
                },
                None => {
                    proof {
                        if start.roomy(b) {
                            assert forall|x: Move| #[trigger] self.to_come(b, skip_quiets, x)
                                <==> start.to_come(b, skip_quiets, x) by {
                                assert(here.to_come(b, skip_quiets, x) <==> start.to_come(
                                    b,
                                    skip_quiets,
                                    x,
                                ));
                            }
                        }
                    }
                },
            }
        }
        proof {
            if start.roomy(b) {
                assert forall|x: Move| !#[trigger] start.to_come(b, skip_quiets, x) by {
                    assert(!self.to_come(b, skip_quiets, x));
                }
            }
        }
        None
    }
}

/// What is legal in a position is legal on every board with that position.
pub proof fn lemma_all_legal_same(a: &Board, b: &Board, s: Seq<Move>)
    requires
        all_legal(a, s),
        a.q() == b.q(),
        a.stm == b.stm,
        a.ep == b.ep,
    ensures
        all_legal(b, s),
{
    if !all_legal(b, s) {
        let i = choose|i: int|
            0 <= i < s.len() && !(#[trigger] b.legal_here(s[i]) && s[i].compact());
        assert(a.legal_here(s[i]) && s[i].compact());
        assert(b.legal_here(s[i]));
    }
}

/// A picker serves every board with the same position.
pub proof fn lemma_serves_same(p: MovePicker, a: &Board, b: &Board)
    requires
        p.serves(a),
        a.q() == b.q(),
        a.stm == b.stm,
        a.ep == b.ep,
    ensures
        p.serves(b),
{
    lemma_all_legal_same(a, b, p.list@);
    lemma_all_legal_same(a, b, p.bad@);
}

/// What is to come without quiets is the same on every board with the position.
pub proof fn lemma_noisy_same(p: MovePicker, a: &Board, b: &Board, m: Move)
    requires
        a.q() == b.q(),
        a.stm == b.stm,
        a.ep == b.ep,
    ensures
        p.to_come(a, true, m) == p.to_come(b, true, m),
{
    assert(a.legal_here(p.tt_move) == b.legal_here(p.tt_move));
    assert(gen_of(a, GEN_ALL) == gen_of(b, GEN_ALL));
    assert(gen_of(a, GEN_CAPTURES) == gen_of(b, GEN_CAPTURES));
}

/// Law: a new picker out of check will hand out exactly the legal moves.
pub proof fn picker_covers_the_legal_moves(p: MovePicker, b: &Board, m: Move)
    requires
        b.wf(),
        !in_check_at(b.q(), b.stm),
        p.stage == STAGE_TT,
        p.unused(),
        !p.noisy_only,
        p.tt_move.compact(),
        p.killers[0].compact(),
        p.killers[1].compact(),
        p.counter.compact(),
    ensures
        p.to_come(b, false, m) <==> b.legal_here(m) && m.compact(),
{
    let gc = gen_of(b, GEN_CAPTURES);
    let gq = gen_of(b, GEN_QUIETS);
    lemma_board_gen(b, GEN_CAPTURES);
    lemma_board_gen(b, GEN_QUIETS);
    generated_exactly_legal(gc);
    generated_exactly_legal(gq);
    assert(moves_of(gc).contains(m) <==> m.compact() && b.legal_here(m) && is_noisy(b.q(), m));
    assert(moves_of(gq).contains(m) <==> m.compact() && b.legal_here(m) && !is_noisy(b.q(), m));
}

/// Law: a new picker in check will hand out exactly the legal moves.
pub proof fn picker_covers_the_evasions(p: MovePicker, b: &Board, skip: bool, m: Move)
    requires
        b.wf(),
        p.stage == STAGE_EVASION_GEN,
    ensures
        p.to_come(b, skip, m) <==> b.legal_here(m) && m.compact(),
{
    lemma_board_gen(b, GEN_ALL);
    generated_exactly_legal(gen_of(b, GEN_ALL));
}

/// Law: the quiescence picker out of check will hand out exactly the captures and
/// promotions that win at least the threshold.
pub proof fn picker_covers_the_noisy_moves(p: MovePicker, b: &Board, skip: bool, m: Move)
    requires
        b.wf(),
        !in_check_at(b.q(), b.stm),
        p.stage == STAGE_TT,
        p.unused(),
        p.noisy_only,
        p.tt_move.compact(),
    ensures
        p.to_come(b, skip, m) <==> b.legal_here(m) && m.compact() && is_noisy(b.q(), m) && see(
            b.q(),
            b.stm,
            m,
        ) >= p.see_threshold,
{
    let gc = gen_of(b, GEN_CAPTURES);
    lemma_board_gen(b, GEN_CAPTURES);
    generated_exactly_legal(gc);
    assert(moves_of(gc).contains(m) <==> m.compact() && b.legal_here(m) && is_noisy(b.q(), m));
}

/// The captures and promotions among the generated moves that win less than the
/// threshold.
pub open spec fn losing(g: Gen, threshold: int) -> Set<Move> {
    moves_of(g).to_set().filter(|m: Move| see(g.q, g.us, m) < threshold)
}

/// With one more losing move to put off there is room for it.
proof fn lemma_room_left(b: &Board, bad: Seq<Move>, threshold: int, m: Move)
    requires
        b.wf(),
        all_legal(b, bad),
        bad.no_duplicates(),
        forall|x: Move| #[trigger]
            in_tail(bad, 0, x) ==> is_noisy(b.q(), x) && see(b.q(), b.stm, x) < threshold,
        !in_tail(bad, 0, m),
        b.legal_here(m),
        m.compact(),
        is_noisy(b.q(), m),
        see(b.q(), b.stm, m) < threshold,
    ensures
        bad.len() < losing(gen_of(b, GEN_CAPTURES), threshold).len(),
{
    let g = gen_of(b, GEN_CAPTURES);
    let l = losing(g, threshold);
    let off = bad.to_set();
    lemma_board_gen(b, GEN_CAPTURES);
    generated_exactly_legal(g);
    lemma_tail_all(bad);
    seq_to_set_is_finite(moves_of(g));
    moves_of(g).to_set().lemma_len_filter(|m: Move| see(g.q, g.us, m) < threshold);
    seq_to_set_is_finite(bad);
    bad.unique_seq_to_set();
    assert(!off.contains(m));
    assert forall|x: Move| #[trigger] off.insert(m).contains(x) implies l.contains(x) by {
        if x != m {
            assert(bad.contains(x));
            assert(in_tail(bad, 0, x));
            let i = choose|i: int| 0 <= i < bad.len() && #[trigger] bad[i] == x;
            assert(b.legal_here(bad[i]));
            assert(bad[i].compact());
        }
        assert(wanted(g, x));
        assert(moves_of(g).contains(x));
        assert(moves_of(g).to_set().contains(x));
    }
    lemma_len_subset(off.insert(m), l);
}

/// A run of a picker: asked again and again, it hands out `ms`, and then nothing.
pub open spec fn is_full_run(
    ps: Seq<MovePicker>,
    ms: Seq<Move>,
    b: &Board,
    h: &Histories,
    c: &Conts,
    skip: bool,
) -> bool {
    &&& ps.len() == ms.len() + 2
    &&& forall|i: int, j: int|
        0 <= i < ms.len() && j == i + 1 ==> MovePicker::is_next(
            #[trigger] ps[i],
            #[trigger] ps[j],
            b,
            h,
            c,
            skip,
            Some(ms[i]),
        )
    &&& MovePicker::is_next(
        ps[ms.len() as int],
        ps[ms.len() as int + 1],
        b,
        h,
        c,
        skip,
        None,
    )
}

/// What holds of a picker throughout its run, seen from its start and from after move
/// `i`: it has moved on, and what was handed out is gone.
proof fn lemma_run(
    ps: Seq<MovePicker>,
    ms: Seq<Move>,
    b: &Board,
    h: &Histories,
    c: &Conts,
    skip: bool,
    i: int,
    j: int,
)
    requires
        is_full_run(ps, ms, b, h, c, skip),
        ps[0].roomy(b),
        ps[0].stage <= STAGE_EVASIONS,
        0 <= i <= j <= ms.len(),
    ensures
        ps[j].stage <= STAGE_EVASIONS,
        ps[j].roomy(b),
        ps[j].tt_move == ps[0].tt_move,
        ps[j].killers == ps[0].killers,
        ps[j].counter == ps[0].counter,
        ps[j].noisy_only == ps[0].noisy_only,
        ps[j].see_threshold == ps[0].see_threshold,
        ps[j].comes_after(&ps[i]),
        ps[j].stage == ps[i].stage && ps[j].lists() ==> ps[j].order == ps[i].order,
        ps[j].stage != ps[i].stage && ps[j].lists() ==> ps[j].orders_by(b, h, c),
        forall|x: Move| #[trigger]
            ps[j].to_come(b, skip, x) ==> ps[i].to_come(b, skip, x) && forall|k: int|
                i <= k < j ==> #[trigger] ms[k] != x,
        forall|x: Move| #[trigger]
            ps[i].to_come(b, skip, x) ==> ps[j].to_come(b, skip, x) || exists|k: int|
                i <= k < j && #[trigger] ms[k] == x,
    decreases j,
{
    if i < j {
        lemma_run(ps, ms, b, h, c, skip, i, j - 1);
        reveal(MovePicker::is_next);
        assert(MovePicker::is_next(ps[j - 1], ps[j], b, h, c, skip, Some(ms[j - 1])));
    } else if i > 0 {
        lemma_run(ps, ms, b, h, c, skip, i - 1, j - 1);
        reveal(MovePicker::is_next);
        assert(MovePicker::is_next(ps[j - 1], ps[j], b, h, c, skip, Some(ms[j - 1])));
    }
}

/// Where a move stands by the stage that it leaves the picker in.
proof fn lemma_rank(p: MovePicker, b: &Board, m: Move)
    requires
        p.handed_out(b, m),
        p.stage <= STAGE_DONE,
    ensures
        p.rank_of(b, m) == if p.stage == STAGE_GEN_CAPTURES {
            0
        } else if p.stage == STAGE_GOOD_CAPTURES {
            1
        } else {
            p.stage - 2
        },
{
}

/// Law: out of check a new picker hands out exactly the legal moves, each once: the hash
/// move first, then the captures and promotions that win, the killers, the counter move,
/// the other quiet moves by descending history, and last the captures and promotions that
/// lose.
pub proof fn a_run_goes_by_stages(
    ps: Seq<MovePicker>,
    ms: Seq<Move>,
    b: &Board,
    h: &Histories,
    c: &Conts,
)
    requires
        is_full_run(ps, ms, b, h, c, false),
        b.wf(),
        !in_check_at(b.q(), b.stm),
        ps[0].stage == STAGE_TT,
        ps[0].unused(),
        !ps[0].noisy_only,
        ps[0].writes_compactly(),
        ps[0].roomy(b),
    ensures
        ms.no_duplicates(),
        forall|m: Move| #[trigger] ms.contains(m) <==> b.legal_here(m) && m.compact(),
        forall|i: int, j: int|
            0 <= i < j < ms.len() ==> ps[0].rank_of(b, #[trigger] ms[i]) <= ps[0].rank_of(
                b,
                #[trigger] ms[j],
            ),
        forall|i: int, j: int|
            0 <= i < j < ms.len() && ps[0].rank_of(b, #[trigger] ms[i]) == 5 && ps[0].rank_of(
                b,
                #[trigger] ms[j],
            ) == 5 ==> MovePicker::quiet_order(b.q(), b.stm, b.pawn_key, h, *c, ms[i])
                >= MovePicker::quiet_order(b.q(), b.stm, b.pawn_key, h, *c, ms[j]),
        forall|i: int, j: int|
            0 <= i < j < ms.len() && ps[0].rank_of(b, #[trigger] ms[i]) == 1 && ps[0].rank_of(
                b,
                #[trigger] ms[j],
            ) == 1 ==> MovePicker::capture_order(b.q(), h, ms[i]) >= MovePicker::capture_order(
                b.q(),
                h,
                ms[j],
            ),
{
    let n = ms.len() as int;
    assert forall|i: int| 0 <= i < n implies ps[0].to_come(b, false, #[trigger] ms[i]) by {
        lemma_run(ps, ms, b, h, c, false, 0, i);
        reveal(MovePicker::is_next);
        assert(MovePicker::is_next(ps[i], ps[i + 1], b, h, c, false, Some(ms[i])));
    }
    assert forall|m: Move| #[trigger] ms.contains(m) <==> b.legal_here(m) && m.compact() by {
        picker_covers_the_legal_moves(ps[0], b, m);
        if ms.contains(m) {
            let i = choose|i: int| 0 <= i < n && ms[i] == m;
            assert(ps[0].to_come(b, false, ms[i]));
        } else if b.legal_here(m) && m.compact() {
            lemma_run(ps, ms, b, h, c, false, 0, n);
            reveal(MovePicker::is_next);
            assert(ps[n].to_come(b, false, m));
        }
    }
    assert forall|i: int, j: int| 0 <= i < j < n implies #[trigger] ms[i] != #[trigger] ms[j] && ps[0].rank_of(
        b,
        ms[i],
    ) <= ps[0].rank_of(b, ms[j]) && (ps[0].rank_of(b, ms[i]) == 5 && ps[0].rank_of(b, ms[j]) == 5
        ==> MovePicker::quiet_order(b.q(), b.stm, b.pawn_key, h, *c, ms[i])
        >= MovePicker::quiet_order(b.q(), b.stm, b.pawn_key, h, *c, ms[j])) && (ps[0].rank_of(
        b,
        ms[i],
    ) == 1 && ps[0].rank_of(b, ms[j]) == 1 ==> MovePicker::capture_order(b.q(), h, ms[i])
        >= MovePicker::capture_order(b.q(), h, ms[j])) by {
        lemma_handed_in_order(ps, ms, b, h, c, i, j);
    }
}

proof fn lemma_handed_in_order(
    ps: Seq<MovePicker>,
    ms: Seq<Move>,
    b: &Board,
    h: &Histories,
    c: &Conts,
    i: int,
    j: int,
)
    requires
        is_full_run(ps, ms, b, h, c, false),
        b.wf(),
        ps[0].stage == STAGE_TT,
        !ps[0].noisy_only,
        ps[0].roomy(b),
        0 <= i < j < ms.len(),
    ensures
        ms[i] != ms[j],
        ps[0].rank_of(b, ms[i]) <= ps[0].rank_of(b, ms[j]),
        ps[0].rank_of(b, ms[i]) == 5 && ps[0].rank_of(b, ms[j]) == 5 ==> MovePicker::quiet_order(
            b.q(),
            b.stm,
            b.pawn_key,
            h,
            *c,
            ms[i],
        ) >= MovePicker::quiet_order(b.q(), b.stm, b.pawn_key, h, *c, ms[j]),
        ps[0].rank_of(b, ms[i]) == 1 && ps[0].rank_of(b, ms[j]) == 1
            ==> MovePicker::capture_order(b.q(), h, ms[i]) >= MovePicker::capture_order(
            b.q(),
            h,
            ms[j],
        ),
{
    let p = ps[i + 1];
    lemma_run(ps, ms, b, h, c, false, 0, i + 1);
    lemma_run(ps, ms, b, h, c, false, 0, j + 1);
    lemma_run(ps, ms, b, h, c, false, i + 1, j + 1);
    lemma_run(ps, ms, b, h, c, false, i + 1, j);
    assert(MovePicker::is_next(ps[i], ps[i + 1], b, h, c, false, Some(ms[i])));
    assert(MovePicker::is_next(ps[j], ps[j + 1], b, h, c, false, Some(ms[j])));
    reveal(MovePicker::is_next);
    lemma_rank(ps[i + 1], b, ms[i]);
    lemma_rank(ps[j + 1], b, ms[j]);
    assert(ps[j].to_come(b, false, ms[j]));
    assert(p.to_come(b, false, ms[j]));
    assert(ms[i] != ms[j]) by {
        assert(!p.to_come(b, false, ms[i]));
    }
    if p.lists() && ps[j + 1].stage == p.stage {
        assert(in_tail(p.list@, p.idx as int, ms[j])) by {
            lemma_quiets(b);
            if in_tail(p.bad@, p.bad_idx as int, ms[j]) {
                assert(in_tail(p.bad@, 0, ms[j]));
            }
        }
        let x = choose|x: int| p.idx <= x < p.list@.len() && #[trigger] p.list@[x] == ms[j];
        assert(p.list.scores@[x] <= p.list.scores@[p.idx - 1]);
        assert(p.orders_by(b, h, c));
        assert((p.order@)(ms[i]) == p.list.scores@[p.idx - 1]);
        assert((p.order@)(ms[j]) == p.list.scores@[x]);
    }
}

/// What is generated as quiet is quiet.
proof fn lemma_quiets(b: &Board)
    requires
        b.wf(),
    ensures
        forall|m: Move| #[trigger]
            moves_of(gen_of(b, GEN_QUIETS)).contains(m) ==> !is_noisy(b.q(), m),
{
    let g = gen_of(b, GEN_QUIETS);
    lemma_board_gen(b, GEN_QUIETS);
    generated_exactly_legal(g);
    assert forall|m: Move| #[trigger] moves_of(g).contains(m) implies !is_noisy(b.q(), m) by {
        assert(wanted(g, m));
    }
}

/// A capture or a promotion.
pub open spec fn is_noisy(q: Seq<Piece>, m: Move) -> bool {
    m.is_promotion() || takes(q, m)
}

/// `m` occurs in `s` from position `from` on.
pub open spec fn in_tail(s: Seq<Move>, from: int, m: Move) -> bool {
    exists|i: int| from <= i < s.len() && #[trigger] s[i] == m
}

proof fn lemma_tail_all(s: Seq<Move>)
    ensures
        forall|m: Move| #[trigger] in_tail(s, 0, m) <==> s.contains(m),
{
    assert forall|m: Move| #[trigger] in_tail(s, 0, m) <==> s.contains(m) by {
        if in_tail(s, 0, m) {
            let i = choose|i: int| 0 <= i < s.len() && #[trigger] s[i] == m;
            assert(s[i] == m);
        }
        if s.contains(m) {
            let i = choose|i: int| 0 <= i < s.len() && s[i] == m;
            assert(s[i] == m);
        }
    }
}

/// Taking the first move of a tail.
proof fn lemma_tail_first(s: Seq<Move>, from: int)
    requires
        0 <= from < s.len(),
        s.no_duplicates(),
    ensures
        in_tail(s, from, s[from]),
        forall|x: Move| #[trigger] in_tail(s, from + 1, x) <==> in_tail(s, from, x) && x != s[from],
{
    assert forall|x: Move| #[trigger] in_tail(s, from + 1, x) <==> in_tail(s, from, x) && x
        != s[from] by {
        if in_tail(s, from + 1, x) {
            let i = choose|i: int| from + 1 <= i < s.len() && #[trigger] s[i] == x;
            assert(s[i] != s[from]);
        }
        if in_tail(s, from, x) && x != s[from] {
            let i = choose|i: int| from <= i < s.len() && #[trigger] s[i] == x;
            assert(i != from);
        }
    }
}

/// A selection step keeps the tail, less the move selected.
proof fn lemma_swapped(b: &Board, before: Seq<Move>, after: Seq<Move>, start: int, best: int)
    requires
        all_legal(b, before),
        before.no_duplicates(),
        0 <= start <= best < before.len(),
        after == swapped(before, start, best),
    ensures
        all_legal(b, after),
        after.no_duplicates(),
        after.len() == before.len(),
        b.legal_here(after[start]),
        after[start].compact(),
        in_tail(before, start, after[start]),
        forall|x: Move| #[trigger]
            in_tail(after, start + 1, x) <==> in_tail(before, start, x) && x != after[start],
{
    assert(b.legal_here(before[best]));
    assert(after[start] == before[best]);
    assert forall|i: int| 0 <= i < after.len() implies #[trigger] b.legal_here(after[i])
        && after[i].compact() by {
        if i == best {
            assert(b.legal_here(before[start]));
        } else if i != start {
            assert(b.legal_here(before[i]));
        }
    }
    assert forall|i: int, j: int|
        0 <= i < after.len() && 0 <= j < after.len() && i != j implies after[i] != after[j] by {
        let a = if i == start {
            best
        } else if i == best {
            start
        } else {
            i
        };
        let c = if j == start {
            best
        } else if j == best {
            start
        } else {
            j
        };
        assert(after[i] == before[a] && after[j] == before[c] && a != c);
    }
    assert forall|x: Move| #[trigger] in_tail(after, start + 1, x) <==> in_tail(before, start, x)
        && x != after[start] by {
        if in_tail(after, start + 1, x) {
            let i = choose|i: int| start + 1 <= i < after.len() && #[trigger] after[i] == x;
            if i == best {
                assert(before[start] == x);
            } else {
                assert(before[i] == x);
            }
            assert(after[i] != after[start]);
        }
        if in_tail(before, start, x) && x != after[start] {
            let i = choose|i: int| start <= i < before.len() && #[trigger] before[i] == x;
            if i == start {
                assert(after[best] == x);
                assert(best != start);
            } else {
                assert(i != best);
                assert(after[i] == x);
            }
        }
    }
}

} // verus!
