//! Move-ordering statistics: butterfly history, capture history, continuation
//! history, counter moves, pawn-structure history, and the correction histories
//! that adjust the static evaluation.
//!
//! Every table is one flat vector; the index functions say where a cell lies.

use vstd::prelude::*;
use crate::board::Board;
use crate::params::{CORR_CONT_W, CORR_PAWN_W};
use crate::types::{Color, Move, Piece, PieceType, Square};

verus! {

pub const MAX_HISTORY: i32 = 16384;

/// Number of pawn-structure buckets.
pub const PAWN_HIST_SIZE: usize = 512;

/// Correction-history buckets, per side.
pub const CORR_SIZE: usize = 16384;

/// Continuation-history planes: one per (piece, destination) pair.
pub const CONT_SIZE: usize = 1600;

/// What a null move (or a stack entry before the root) records instead of a
/// plane.
pub const NULL_CONT: usize = 1600;

/// Fixed-point grain of the correction tables, and their clamp.
pub const CORR_GRAIN: i32 = 256;

pub const CORR_MAX: i32 = 8192;

/// Continuation-history planes of the preceding moves. Every entry is a valid
/// plane: [`NULL_CONT`] where the corresponding ply held a null move or lies
/// before the root.
pub type Conts = [usize; 4];

/// Every entry is a plane or the marker for none.
pub open spec fn conts_ok(c: Conts) -> bool {
    forall|i: int| 0 <= i < 4 ==> #[trigger] c[i] <= NULL_CONT
}

// -- arithmetic -------------------------------------------------------------------------

/// Division that drops the fraction, towards zero.
pub open spec fn trunc(a: int, b: int) -> int {
    if a >= 0 {
        a / b
    } else {
        -((-a) / b)
    }
}

pub fn trunc_div(a: i32, b: i32) -> (r: i32)
    requires
        b > 0,
        a > i32::MIN,
    ensures
        r == trunc(a as int, b as int),
{
    if a >= 0 {
        a / b
    } else {
        -((-a) / b)
    }
}

pub open spec fn clamp_to(x: int, lo: int, hi: int) -> int {
    if x < lo {
        lo
    } else if x > hi {
        hi
    } else {
        x
    }
}

pub open spec fn magnitude_of(x: int) -> int {
    if x < 0 {
        -x
    } else {
        x
    }
}

/// An entry after an update with `bonus`: the bonus is added, and the entry decays
/// in proportion to its size.
pub open spec fn gravity_of(entry: int, bonus: int) -> int {
    let b = clamp_to(bonus, -16384, 16384);
    entry + b - trunc(entry * magnitude_of(b), 16384)
}

/// Law: an update never leaves the range of the entries.
pub proof fn gravity_stays_bounded(entry: int, bonus: int)
    requires
        -16384 <= entry <= 16384,
    ensures
        -16384 <= gravity_of(entry, bonus) <= 16384,
{
    let b = clamp_to(bonus, -16384, 16384);
    let w = magnitude_of(b);
    let e = magnitude_of(entry);
    let p = e * w;
    assert(p >= 16384 * (e + w - 16384) && 0 <= p && p <= 16384 * e && p <= 16384 * w)
        by (nonlinear_arith)
        requires
            p == e * w,
            0 <= e <= 16384,
            0 <= w <= 16384,
    ;
    assert(entry * w == if entry >= 0 {
        p
    } else {
        -p
    }) by (nonlinear_arith)
        requires
            p == e * w,
            e == if entry < 0 {
                -entry
            } else {
                entry
            },
    ;
    assert(trunc(entry * w, 16384) == if entry >= 0 {
        p / 16384
    } else {
        -(p / 16384)
    });
}

/// Exponential-decay update.
fn gravity(entry: i16, bonus: i32) -> (r: i16)
    requires
        -16384 <= entry <= 16384,
    ensures
        r == gravity_of(entry as int, bonus as int),
        -16384 <= r <= 16384,
{
    let b: i32 = if bonus < -MAX_HISTORY {
        -MAX_HISTORY
    } else if bonus > MAX_HISTORY {
        MAX_HISTORY
    } else {
        bonus
    };
    let w: i32 = if b < 0 {
        -b
    } else {
        b
    };
    let v: i32 = entry as i32;
    proof {
        gravity_stays_bounded(entry as int, bonus as int);
        assert(-268435456 <= v * w <= 268435456) by (nonlinear_arith)
            requires
                -16384 <= v <= 16384,
                0 <= w <= 16384,
        ;
    }
    (v + b - trunc_div(v * w, MAX_HISTORY)) as i16
}

// -- cells ----------------------------------------------------------------------------

/// The victim axis of capture history.
///
/// `King` is the "no victim" column: a promotion that captures nothing is still
/// a noisy move and still wants its own statistics, and it must not share a cell
/// with a pawn capture on the same square.
pub fn victim_axis(captured: Piece) -> (r: PieceType)
    requires
        captured.valid() || captured == Piece::none(),
    ensures
        r == victim_kind(captured),
{
    if captured.is_none() {
        PieceType::King
    } else {
        captured.piece_type()
    }
}

pub open spec fn victim_kind(captured: Piece) -> PieceType {
    if captured == Piece::none() {
        PieceType::King
    } else {
        captured.kind()
    }
}

/// The continuation-history plane a move leads to.
pub fn cont_index(p: Piece, to: Square) -> (r: usize)
    requires
        p.valid(),
        to.valid(),
    ensures
        r == p.0 * 100 + to.0,
        r < CONT_SIZE,
        cont_piece(r) == p.0,
        cont_to(r) == to.0,
{
    p.idx() * 100 + to.idx()
}

/// The piece half of a `cont_index`.
#[verifier::allow_in_spec]
pub fn cont_piece(i: usize) -> usize
    returns
        (i / 100) as usize,
{
    i / 100
}

/// The destination half of a `cont_index`.
#[verifier::allow_in_spec]
pub fn cont_to(i: usize) -> usize
    returns
        (i % 100) as usize,
{
    i % 100
}

#[verifier::allow_in_spec]
pub fn pawn_bucket(pawn_key: u64) -> usize
    returns
        (pawn_key % 512) as usize,
{
    (pawn_key % 512) as usize
}

pub open spec fn main_cell(c: Color, m: Move) -> int {
    (c.idx() * 100 + m.from().0) * 100 + m.to().0
}

pub open spec fn pawn_cell(pawn_key: u64, p: Piece, to: Square) -> int {
    (pawn_bucket(pawn_key) * 16 + p.0) * 100 + to.0
}

pub open spec fn capture_at(p: Piece, to: Square, victim: PieceType) -> int {
    (p.0 * 100 + to.0) * 8 + victim.idx()
}

pub open spec fn cont_cell(plane: int, p: Piece, to: Square) -> int {
    (plane * 16 + p.0) * 100 + to.0
}

pub open spec fn pawn_corr_cell(c: Color, pawn_key: u64) -> int {
    c.idx() * 16384 + pawn_key % 16384
}

pub open spec fn cont_corr_cell(prev: int, c: Color) -> int {
    prev * 2 + c.idx()
}

/// Law: different arguments never share a capture cell.
pub proof fn capture_cells_are_distinct(
    p: Piece,
    to: Square,
    v: PieceType,
    p2: Piece,
    to2: Square,
    v2: PieceType,
)
    requires
        p.valid(),
        p2.valid(),
        to.valid(),
        to2.valid(),
        capture_at(p, to, v) == capture_at(p2, to2, v2),
    ensures
        p == p2,
        to == to2,
        v == v2,
{
    assert(p.0 * 100 + to.0 == p2.0 * 100 + to2.0);
}

pub struct Histories {
    /// `[side to move][from][to]`
    pub main: Vec<i16>,
    /// `[moved piece][to][victim]`
    pub capture: Vec<i16>,
    /// `[cont_index(prev piece, prev to)][moved piece][to]`
    pub cont: Vec<i16>,
    /// `[prev piece][prev to]`
    pub counter: Vec<Move>,
    /// Quiet history conditioned on the pawn structure:
    /// `[pawn key bucket][moved piece][to]`
    pub pawn: Vec<i16>,
    /// Pawn-structure correction of the static evaluation, per side.
    pub pawn_corr: Vec<i32>,
    /// Correction keyed on the move that led here, per side.
    pub cont_corr: Vec<i32>,
}

pub open spec fn entries_ok(s: Seq<i16>, n: int) -> bool {
    s.len() == n && forall|i: int| 0 <= i < n ==> -16384 <= #[trigger] s[i] <= 16384
}

pub open spec fn corrections_ok(s: Seq<i32>, n: int) -> bool {
    s.len() == n && forall|i: int| 0 <= i < n ==> -8192 <= #[trigger] s[i] <= 8192
}

/// A vector of `n` zeros.
fn zeros(n: usize) -> (r: Vec<i16>)
    ensures
        r@ == Seq::new(n as nat, |i: int| 0i16),
{
    let r = vec![0i16; n];
    assert(r@ =~= Seq::new(n as nat, |i: int| 0i16));
    r
}

fn wide_zeros(n: usize) -> (r: Vec<i32>)
    ensures
        r@ == Seq::new(n as nat, |i: int| 0i32),
{
    let r = vec![0i32; n];
    assert(r@ =~= Seq::new(n as nat, |i: int| 0i32));
    r
}

/// The contents of the tables.
#[verifier::ext_equal]
pub struct HistView {
    pub main: Seq<i16>,
    pub capture: Seq<i16>,
    pub cont: Seq<i16>,
    pub counter: Seq<Move>,
    pub pawn: Seq<i16>,
    pub pawn_corr: Seq<i32>,
    pub cont_corr: Seq<i32>,
}

impl View for Histories {
    type V = HistView;

    open spec fn view(&self) -> HistView {
        HistView {
            main: self.main@,
            capture: self.capture@,
            cont: self.cont@,
            counter: self.counter@,
            pawn: self.pawn@,
            pawn_corr: self.pawn_corr@,
            cont_corr: self.cont_corr@,
        }
    }
}

impl Default for Histories {
    fn default() -> (r: Histories)
        ensures
            r.ok(),
            r.blank(),
    {
        Histories::new()
    }
}

/// A correction is small.
pub proof fn lemma_correction(h: &Histories, c: Color, pawn_key: u64, prev: usize)
    requires
        h.ok(),
        prev <= NULL_CONT,
    ensures
        -32 <= h.correction_of(c, pawn_key, prev) <= 32,
{
    assert(CORR_GRAIN * (CORR_PAWN_W + CORR_CONT_W) == 1280);
    assert(0 <= pawn_corr_cell(c, pawn_key) < 32768);
    assert(-8192 <= h.pawn_corr@[pawn_corr_cell(c, pawn_key)] <= 8192);
    if prev != NULL_CONT {
        assert(0 <= cont_corr_cell(prev as int, c) < 3200);
        assert(-8192 <= h.cont_corr@[cont_corr_cell(prev as int, c)] <= 8192);
    }
}

impl Histories {
    /// Every table has its size, and every entry is within its range.
    pub open spec fn ok(&self) -> bool {
        &&& entries_ok(self.main@, 20000)
        &&& entries_ok(self.capture@, 12800)
        &&& entries_ok(self.cont@, 2560000)
        &&& self.counter@.len() == 1600
        &&& forall|i: int| 0 <= i < 1600 ==> (#[trigger] self.counter@[i]).compact()
        &&& entries_ok(self.pawn@, 819200)
        &&& corrections_ok(self.pawn_corr@, 32768)
        &&& corrections_ok(self.cont_corr@, 3200)
    }

    /// Nothing is recorded.
    pub open spec fn blank(&self) -> bool {
        &&& self.main@ == Seq::new(20000, |i: int| 0i16)
        &&& self.capture@ == Seq::new(12800, |i: int| 0i16)
        &&& self.cont@ == Seq::new(2560000, |i: int| 0i16)
        &&& self.counter@ == Seq::new(1600, |i: int| Move::none())
        &&& self.pawn@ == Seq::new(819200, |i: int| 0i16)
        &&& self.pawn_corr@ == Seq::new(32768, |i: int| 0i32)
        &&& self.cont_corr@ == Seq::new(3200, |i: int| 0i32)
    }

    pub fn new() -> (r: Histories)
        ensures
            r.ok(),
            r.blank(),
    {
        let counter = vec![Move::none(); 1600];
        assert(counter@ =~= Seq::new(1600, |i: int| Move::none()));
        Histories {
            main: zeros(20000),
            capture: zeros(12800),
            cont: zeros(2560000),
            counter,
            pawn: zeros(819200),
            pawn_corr: wide_zeros(32768),
            cont_corr: wide_zeros(3200),
        }
    }

    /// Forgets everything.
    pub fn clear(&mut self)
        ensures
            final(self).ok(),
            final(self).blank(),
    {
        *self = Histories::new();
    }

    // -- butterfly history ---------------------------------------------------

    pub fn main_score(&self, c: Color, m: Move) -> (r: i32)
        requires
            self.ok(),
            m.from().valid(),
            m.to().valid(),
        ensures
            r == self.main@[main_cell(c, m)],
            -16384 <= r <= 16384,
    {
        self.main[(c.idx() * 100 + m.from().idx()) * 100 + m.to().idx()] as i32
    }

    pub fn update_main(&mut self, c: Color, m: Move, bonus: i32)
        requires
            old(self).ok(),
            m.from().valid(),
            m.to().valid(),
        ensures
            final(self).ok(),
            final(self).main@ == old(self).main@.update(
                main_cell(c, m),
                gravity_of(old(self).main@[main_cell(c, m)] as int, bonus as int) as i16,
            ),
            final(self).capture == old(self).capture,
            final(self).cont == old(self).cont,
            final(self).counter == old(self).counter,
            final(self).pawn == old(self).pawn,
            final(self).pawn_corr == old(self).pawn_corr,
            final(self).cont_corr == old(self).cont_corr,
    {
        let i = (c.idx() * 100 + m.from().idx()) * 100 + m.to().idx();
        let e = gravity(self.main[i], bonus);
        self.main[i] = e;
    }

    // -- pawn-structure history ----------------------------------------------

    pub fn pawn_score(&self, pawn_key: u64, p: Piece, to: Square) -> (r: i32)
        requires
            self.ok(),
            p.valid(),
            to.valid(),
        ensures
            r == self.pawn@[pawn_cell(pawn_key, p, to)],
            -16384 <= r <= 16384,
    {
        self.pawn[(pawn_bucket(pawn_key) * 16 + p.idx()) * 100 + to.idx()] as i32
    }

    pub fn update_pawn(&mut self, pawn_key: u64, p: Piece, to: Square, bonus: i32)
        requires
            old(self).ok(),
            p.valid(),
            to.valid(),
        ensures
            final(self).ok(),
            final(self).pawn@ == old(self).pawn@.update(
                pawn_cell(pawn_key, p, to),
                gravity_of(old(self).pawn@[pawn_cell(pawn_key, p, to)] as int, bonus as int) as i16,
            ),
            final(self).main == old(self).main,
            final(self).capture == old(self).capture,
            final(self).cont == old(self).cont,
            final(self).counter == old(self).counter,
            final(self).pawn_corr == old(self).pawn_corr,
            final(self).cont_corr == old(self).cont_corr,
    {
        let i = (pawn_bucket(pawn_key) * 16 + p.idx()) * 100 + to.idx();
        let e = gravity(self.pawn[i], bonus);
        self.pawn[i] = e;
    }

    // -- capture history -----------------------------------------------------

    pub fn capture_score(&self, p: Piece, to: Square, victim: PieceType) -> (r: i32)
        requires
            self.ok(),
            p.valid(),
            to.valid(),
        ensures
            r == self.capture@[capture_at(p, to, victim)],
            -16384 <= r <= 16384,
    {
        self.capture[(p.idx() * 100 + to.idx()) * 8 + victim.idx()] as i32
    }

    pub fn update_capture(&mut self, p: Piece, to: Square, victim: PieceType, bonus: i32)
        requires
            old(self).ok(),
            p.valid(),
            to.valid(),
        ensures
            final(self).ok(),
            final(self).capture@ == old(self).capture@.update(
                capture_at(p, to, victim),
                gravity_of(
                    old(self).capture@[capture_at(p, to, victim)] as int,
                    bonus as int,
                ) as i16,
            ),
            final(self).main == old(self).main,
            final(self).cont == old(self).cont,
            final(self).counter == old(self).counter,
            final(self).pawn == old(self).pawn,
            final(self).pawn_corr == old(self).pawn_corr,
            final(self).cont_corr == old(self).cont_corr,
    {
        let i = (p.idx() * 100 + to.idx()) * 8 + victim.idx();
        let e = gravity(self.capture[i], bonus);
        self.capture[i] = e;
    }

    // -- continuation history ------------------------------------------------

    pub fn cont_score(&self, plane: usize, p: Piece, to: Square) -> (r: i32)
        requires
            self.ok(),
            plane < CONT_SIZE,
            p.valid(),
            to.valid(),
        ensures
            r == self.cont@[cont_cell(plane as int, p, to)],
            -16384 <= r <= 16384,
    {
        self.cont[(plane * 16 + p.idx()) * 100 + to.idx()] as i32
    }

    pub fn update_cont(&mut self, plane: usize, p: Piece, to: Square, bonus: i32)
        requires
            old(self).ok(),
            plane < CONT_SIZE,
            p.valid(),
            to.valid(),
        ensures
            final(self).ok(),
            final(self).cont@ == old(self).cont@.update(
                cont_cell(plane as int, p, to),
                gravity_of(old(self).cont@[cont_cell(plane as int, p, to)] as int, bonus as int) as i16,
            ),
            final(self).main == old(self).main,
            final(self).capture == old(self).capture,
            final(self).counter == old(self).counter,
            final(self).pawn == old(self).pawn,
            final(self).pawn_corr == old(self).pawn_corr,
            final(self).cont_corr == old(self).cont_corr,
    {
        let i = (plane * 16 + p.idx()) * 100 + to.idx();
        let e = gravity(self.cont[i], bonus);
        self.cont[i] = e;
    }

    // -- counter moves -------------------------------------------------------

    pub fn counter_move(&self, plane: usize) -> (r: Move)
        requires
            self.ok(),
            plane < CONT_SIZE,
        ensures
            r == self.counter@[plane as int],
            r.compact(),
    {
        self.counter[cont_piece(plane) * 100 + cont_to(plane)]
    }

    pub fn set_counter_move(&mut self, plane: usize, m: Move)
        requires
            old(self).ok(),
            plane < CONT_SIZE,
            m.compact(),
        ensures
            final(self).ok(),
            final(self).counter@ == old(self).counter@.update(plane as int, m),
            final(self).main == old(self).main,
            final(self).capture == old(self).capture,
            final(self).cont == old(self).cont,
            final(self).pawn == old(self).pawn,
            final(self).pawn_corr == old(self).pawn_corr,
            final(self).cont_corr == old(self).cont_corr,
    {
        self.counter[cont_piece(plane) * 100 + cont_to(plane)] = m;
    }

    // -- correction history --------------------------------------------------

    /// The weighted mean of the two corrections, in evaluation units.
    pub open spec fn correction_of(&self, c: Color, pawn_key: u64, prev: usize) -> int {
        let p = self.pawn_corr@[pawn_corr_cell(c, pawn_key)] as int;
        let k = if prev == NULL_CONT {
            0
        } else {
            self.cont_corr@[cont_corr_cell(prev as int, c)] as int
        };
        trunc(p * CORR_PAWN_W + k * CORR_CONT_W, CORR_GRAIN * (CORR_PAWN_W + CORR_CONT_W))
    }

    /// How much the search has historically disagreed with the static
    /// evaluation in positions that share this pawn structure or this
    /// predecessor move.
    pub fn correction(&self, b: &Board, prev: usize) -> (r: i32)
        requires
            self.ok(),
            prev <= NULL_CONT,
        ensures
            r == self.correction_of(b.stm, b.pawn_key, prev),
            -32 <= r <= 32,
    {
        let c = b.stm.idx();
        let p: i32 = self.pawn_corr[c * 16384 + (b.pawn_key % 16384) as usize];
        let k: i32 = if prev == NULL_CONT {
            0
        } else {
            self.cont_corr[prev * 2 + c]
        };
        let grain: i32 = CORR_GRAIN * (CORR_PAWN_W + CORR_CONT_W);
        assert(grain == 1280);
        trunc_div(p * CORR_PAWN_W + k * CORR_CONT_W, grain)
    }

    pub fn update_correction(&mut self, b: &Board, prev: usize, diff: i32, depth: i32)
        requires
            old(self).ok(),
            prev <= NULL_CONT,
            -523_807 <= diff <= 523_807,
            -1 <= depth < i32::MAX,
        ensures
            final(self).ok(),
            final(self).pawn_corr@ == old(self).pawn_corr@.update(
                pawn_corr_cell(b.stm, b.pawn_key),
                blended(
                    old(self).pawn_corr@[pawn_corr_cell(b.stm, b.pawn_key)] as int,
                    diff as int,
                    depth as int,
                ) as i32,
            ),
            prev == NULL_CONT ==> final(self).cont_corr == old(self).cont_corr,
            prev != NULL_CONT ==> final(self).cont_corr@ == old(self).cont_corr@.update(
                cont_corr_cell(prev as int, b.stm),
                blended(
                    old(self).cont_corr@[cont_corr_cell(prev as int, b.stm)] as int,
                    diff as int,
                    depth as int,
                ) as i32,
            ),
            final(self).main == old(self).main,
            final(self).capture == old(self).capture,
            final(self).cont == old(self).cont,
            final(self).counter == old(self).counter,
            final(self).pawn == old(self).pawn,
    {
        let c = b.stm.idx();
        let i = c * 16384 + (b.pawn_key % 16384) as usize;
        let e = blend(self.pawn_corr[i], diff, depth);
        self.pawn_corr[i] = e;
        if prev != NULL_CONT {
            let j = prev * 2 + c;
            let e = blend(self.cont_corr[j], diff, depth);
            self.cont_corr[j] = e;
        }
    }
}

/// A correction after seeing a difference of `diff` at `depth`: a mean weighted by
/// the depth, within the clamp.
pub open spec fn blended(entry: int, diff: int, depth: int) -> int {
    let weight = if depth + 1 < 16 {
        depth + 1
    } else {
        16
    };
    clamp_to(trunc(entry * (256 - weight) + diff * 256 * weight, 256), -8192, 8192)
}

fn blend(entry: i32, diff: i32, depth: i32) -> (r: i32)
    requires
        -8192 <= entry <= 8192,
        -523_807 <= diff <= 523_807,
        -1 <= depth < i32::MAX,
    ensures
        r == blended(entry as int, diff as int, depth as int),
        -8192 <= r <= 8192,
{
    let weight: i32 = if depth + 1 < 16 {
        depth + 1
    } else {
        16
    };
    let target: i32 = diff * CORR_GRAIN;
    let keep: i32 = 256 - weight;
    proof {
        let t = 134_094_592int;
        assert(-t <= target <= t);
        assert(-8192 * keep <= entry * keep <= 8192 * keep && -(t * weight) <= target * weight
            <= t * weight) by (nonlinear_arith)
            requires
                -8192 <= entry <= 8192,
                -t <= target <= t,
                0 <= keep,
                0 <= weight,
        ;
        assert(8192 * keep + t * weight <= 2_147_479_552) by (nonlinear_arith)
            requires
                keep == 256 - weight,
                0 <= weight <= 16,
                t == 134_094_592,
        ;
    }
    let e = trunc_div(entry * keep + target * weight, 256);
    if e < -CORR_MAX {
        -CORR_MAX
    } else if e > CORR_MAX {
        CORR_MAX
    } else {
        e
    }
}

} // verus!
