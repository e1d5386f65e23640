//! Fully legal move generation.
//!
//! Moves are generated straight into a legal list: targets are restricted by the
//! check mask, pinned pieces are held on their pin ray, and king moves and en
//! passant get an explicit safety test.
//!
//! Promotion is optional on two ranks and mandatory on a third, and the outcome
//! depends on the side's promotion inventory. So pawn destinations are computed
//! against the check mask alone and classified one at a time, by destination
//! rank, in `add_pawn`.

use vstd::prelude::*;
use crate::attacks::{Tables, aligned, between, king_attacks, line, pawn_attacks, piece_attacks};
use crate::board::Board;
use crate::geometry::{between_sq, king_att, knight_att, lemma_rook_sym, on_ray, pawn_att, type_att};
use crate::legal::{lemma_check_path, lemma_king_move, pin_allows};
use crate::play::inventory;
use crate::position::{
    attacked, col_at, empty_at, ep_real, forward_of, has_kings, in_check_at, is_blocker,
    is_checker, is_placement, kind_at, king_of, legal, lemma_king_of, lemma_occ_of, lemma_piece,
    lemma_piece_on, occ_at, occ_of, pawns_inside, piece_on, promo_open, reaches,
};
use crate::squareset::{
    SquareSet, bit, group_bits, lemma_bits_equal, lemma_squares_empty, lemma_squares_members,
    squares,
};
use crate::types::{Color, Move, Piece, PieceType, Square, rel_rank};

verus! {

broadcast use {group_bits, lemma_occ_of};

pub const GEN_ALL: u8 = 0;

pub const GEN_CAPTURES: u8 = 1;

pub const GEN_QUIETS: u8 = 2;

/// Room that a move list starts with.
pub const MAX_MOVES: usize = 256;

/// Does `m` take something?
pub open spec fn takes(q: Seq<Piece>, m: Move) -> bool {
    occ_at(q, m.to().0 as int) || m.is_en_passant()
}

/// Does this move win material outright: capture, en passant, or promotion?
pub fn is_capture(b: &Board, m: Move) -> (r: bool)
    requires
        b.placed(),
        m.to().valid(),
    ensures
        r == (takes(b.q(), m) || m.is_promotion()),
{
    proof {
        lemma_piece(b.q()[m.to().0 as int]);
    }
    !b.piece_at(m.to()).is_none() || m.is_en_passant() || m.is_promotion()
}

/// The complement of [`is_capture`] within non-promoting moves, i.e. exactly
/// what `GEN_QUIETS` generates.
pub fn is_quiet(b: &Board, m: Move) -> (r: bool)
    requires
        b.placed(),
        m.to().valid(),
    ensures
        r == (!m.is_promotion() && !takes(b.q(), m)),
{
    !m.is_promotion() && !is_capture(b, m)
}

/// A list of moves, each with a score.
pub struct MoveList {
    pub moves: Vec<Move>,
    pub scores: Vec<i32>,
}

impl View for MoveList {
    type V = Seq<Move>;

    open spec fn view(&self) -> Seq<Move> {
        self.moves@
    }
}

impl Default for MoveList {
    fn default() -> (r: MoveList)
        ensures
            r.ok(),
            r@.len() == 0,
    {
        MoveList::new()
    }
}

impl MoveList {
    /// Every move has a score.
    pub open spec fn ok(&self) -> bool {
        self.moves@.len() == self.scores@.len()
    }

    /// The list is `o` with moves added, which have no score yet.
    pub open spec fn grown(&self, o: &MoveList) -> bool {
        &&& o.scores@.len() <= self.scores@.len()
        &&& forall|i: int| 0 <= i < self.scores@.len() ==> #[trigger] self.scores@[i] == if i
            < o.scores@.len() {
            o.scores@[i]
        } else {
            0
        }
    }

    /// Entry `i` is `m` with this score.
    pub open spec fn holds(&self, i: int, m: Move, score: i32) -> bool {
        0 <= i < self@.len() && self@[i] == m && self.scores@[i] == score
    }

    /// `m` is listed with this score.
    pub open spec fn has(&self, m: Move, score: i32) -> bool {
        exists|i: int| #[trigger] self.holds(i, m, score)
    }

    pub fn new() -> (r: MoveList)
        ensures
            r.ok(),
            r@ == Seq::<Move>::empty(),
    {
        MoveList { moves: Vec::with_capacity(MAX_MOVES), scores: Vec::with_capacity(MAX_MOVES) }
    }

    /// How many moves there are.
    pub fn len(&self) -> (r: usize)
        ensures
            r == self@.len(),
    {
        self.moves.len()
    }

    /// Appends a move, with score 0.
    pub fn push(&mut self, m: Move)
        requires
            old(self).ok(),
        ensures
            final(self).ok(),
            final(self)@ == old(self)@.push(m),
            final(self).scores@ == old(self).scores@.push(0),
    {
        self.moves.push(m);
        self.scores.push(0);
    }

    pub fn get(&self, i: usize) -> (r: Move)
        requires
            i < self@.len(),
        ensures
            r == self@[i as int],
    {
        self.moves[i]
    }

    pub fn score(&self, i: usize) -> (r: i32)
        requires
            self.ok(),
            i < self@.len(),
        ensures
            r == self.scores@[i as int],
    {
        self.scores[i]
    }

    pub fn set_score(&mut self, i: usize, s: i32)
        requires
            old(self).ok(),
            i < old(self)@.len(),
        ensures
            final(self).ok(),
            final(self)@ == old(self)@,
            final(self).scores@ == old(self).scores@.update(i as int, s),
    {
        self.scores[i] = s;
    }

    pub fn clear(&mut self)
        ensures
            final(self).ok(),
            final(self)@ == Seq::<Move>::empty(),
    {
        self.moves.clear();
        self.scores.clear();
    }

    pub fn as_slice(&self) -> (r: &[Move])
        ensures
            r@ == self@,
    {
        self.moves.as_slice()
    }

    /// `best` is the first position from `start` on with the greatest score.
    pub open spec fn is_best(&self, start: int, best: int) -> bool {
        &&& start <= best < self@.len()
        &&& forall|i: int| start <= i < self@.len() ==> #[trigger] self.scores@[i] <= self.scores@[best]
        &&& forall|i: int| start <= i < best ==> #[trigger] self.scores@[i] < self.scores@[best]
    }

    /// Selection sort step: bring the best remaining move to `start`.
    pub fn pick_best(&mut self, start: usize) -> (r: Move)
        requires
            old(self).ok(),
            start < old(self)@.len(),
        ensures
            final(self).ok(),
            r == final(self)@[start as int],
            exists|best: int| #[trigger]
                old(self).is_best(start as int, best) && final(self)@ == swapped(
                    old(self)@,
                    start as int,
                    best,
                ) && final(self).scores@ == swapped(old(self).scores@, start as int, best),
    {
        let n = self.len();
        let mut best = start;
        let mut best_score: i32 = self.score(start);
        let mut i: usize = start + 1;
        while i < n
            invariant
                self.ok(),
                n == self@.len(),
                start < i <= self@.len(),
                start <= best < i,
                best_score == self.scores@[best as int],
                forall|j: int| start <= j < i ==> #[trigger] self.scores@[j] <= best_score,
                forall|j: int| start <= j < best ==> #[trigger] self.scores@[j] < best_score,
            decreases self@.len() - i,
        {
            let s: i32 = self.score(i);
            if s > best_score {
                best = i;
                best_score = s;
            }
            i += 1;
        }
        assert(self.is_best(start as int, best as int));
        let m = self.moves[start];
        let n = self.moves[best];
        self.moves[start] = n;
        self.moves[best] = m;
        let s: i32 = self.scores[start];
        let o: i32 = self.scores[best];
        self.scores[start] = o;
        self.scores[best] = s;
        assert(self@ =~= swapped(old(self)@, start as int, best as int));
        assert(self.scores@ =~= swapped(old(self).scores@, start as int, best as int));
        self.get(start)
    }
}

/// `s` with elements `i` and `j` exchanged.
pub open spec fn swapped<A>(s: Seq<A>, i: int, j: int) -> Seq<A> {
    s.update(i, s[j]).update(j, s[i])
}

// -- the moves of a position, in order --------------------------------------------------

/// A position to generate moves for, and which moves are wanted.
pub struct Gen {
    pub q: Seq<Piece>,
    pub us: Color,
    pub ep: Square,
    pub mode: u8,
}

/// Is `m` of the wanted sort?
pub open spec fn wanted(g: Gen, m: Move) -> bool {
    if g.mode == GEN_CAPTURES {
        takes(g.q, m) || m.is_promotion()
    } else if g.mode == GEN_QUIETS {
        !takes(g.q, m) && !m.is_promotion()
    } else {
        true
    }
}

pub open spec fn wants_quiet(g: Gen) -> bool {
    g.mode != GEN_CAPTURES
}

pub open spec fn wants_noisy(g: Gen) -> bool {
    g.mode != GEN_QUIETS
}

/// The difference of square numbers of a pawn capture.
pub open spec fn capture_step(c: Color, east: bool) -> int {
    match c {
        Color::White => if east {
            11
        } else {
            9
        },
        Color::Black => if east {
            -9
        } else {
            -11
        },
    }
}

pub open spec fn king(g: Gen) -> int {
    king_of(g.q, g.us)
}

/// A square that meets every check: any square where there is none.
pub open spec fn evasion(g: Gen, t: int) -> bool {
    forall|x: int| #[trigger] is_checker(g.q, g.us, x) ==> t == x || between_sq(king(g), x, t)
}

pub open spec fn double_check(g: Gen) -> bool {
    exists|x: int, y: int| #[trigger]
        is_checker(g.q, g.us, x) && #[trigger] is_checker(g.q, g.us, y) && x != y
}

/// The stages in order: king moves, single and double pawn pushes, pawn captures
/// eastward and westward, en passant, and 10 plus the number of a piece type for
/// that type's moves.
pub open spec fn eligible(g: Gen, stage: int, x: int) -> bool {
    let us = g.us;
    let q = g.q;
    let up = forward_of(us);
    0 <= x < 100 && if stage == 0 {
        king_att(king(g), x) && !col_at(q, x, us) && (wants_quiet(g) || col_at(q, x, us.flip()))
            && (wants_noisy(g) || !col_at(q, x, us.flip()))
    } else if stage == 1 {
        piece_on(q, x - up, us, PieceType::Pawn) && empty_at(q, x) && evasion(g, x)
    } else if stage == 2 {
        wants_quiet(g) && piece_on(q, x - 2 * up, us, PieceType::Pawn) && empty_at(q, x - up)
            && rel_rank(us, x - up) == 3 && empty_at(q, x) && evasion(g, x)
    } else if stage == 3 || stage == 4 {
        let f = x - capture_step(us, stage == 3);
        piece_on(q, f, us, PieceType::Pawn) && pawn_att(us, f, x) && col_at(q, x, us.flip())
            && evasion(g, x)
    } else if stage == 5 {
        wants_noisy(g) && g.ep != Square::none() && pawn_att(us.flip(), g.ep.0 as int, x)
            && piece_on(q, x, us, PieceType::Pawn)
    } else if 11 <= stage < 17 {
        piece_on(q, x, us, PieceType::numbered(stage - 10))
    } else {
        false
    }
}

/// The squares below `n` that a stage considers, as a word.
pub open spec fn stage_upto(g: Gen, stage: int, n: int) -> u128
    decreases n,
{
    if n <= 0 {
        0
    } else if eligible(g, stage, n - 1) {
        stage_upto(g, stage, n - 1) | (1u128 << ((n - 1) as u128))
    } else {
        stage_upto(g, stage, n - 1)
    }
}

#[verifier::opaque]
pub open spec fn stage_set(g: Gen, stage: int) -> u128 {
    stage_upto(g, stage, 100)
}

proof fn lemma_stage_upto(g: Gen, stage: int, n: int, x: int)
    requires
        0 <= n <= 100,
    ensures
        bit(stage_upto(g, stage, n), x) == (0 <= x < n && eligible(g, stage, x)),
    decreases n,
{
    if n > 0 {
        lemma_stage_upto(g, stage, n - 1, x);
    }
}

pub proof fn lemma_stage_set(g: Gen, stage: int, x: int)
    ensures
        bit(stage_set(g, stage), x) == eligible(g, stage, x),
{
    reveal(stage_set);
    lemma_stage_upto(g, stage, 100, x);
}

/// The destinations of the piece on `f`.
pub open spec fn reach(g: Gen, f: int, t: int) -> bool {
    &&& 0 <= t < 100
    &&& type_att(g.q[f].kind(), f, occ_of(g.q), t)
    &&& !col_at(g.q, t, g.us)
    &&& evasion(g, t)
    &&& wants_quiet(g) || col_at(g.q, t, g.us.flip())
    &&& wants_noisy(g) || !col_at(g.q, t, g.us.flip())
    &&& pin_allows(g.q, g.us, f, t)
}

pub open spec fn reach_upto(g: Gen, f: int, n: int) -> u128
    decreases n,
{
    if n <= 0 {
        0
    } else if reach(g, f, n - 1) {
        reach_upto(g, f, n - 1) | (1u128 << ((n - 1) as u128))
    } else {
        reach_upto(g, f, n - 1)
    }
}

#[verifier::opaque]
pub open spec fn reach_set(g: Gen, f: int) -> u128 {
    reach_upto(g, f, 100)
}

proof fn lemma_reach_upto(g: Gen, f: int, n: int, x: int)
    requires
        0 <= n <= 100,
    ensures
        bit(reach_upto(g, f, n), x) == (0 <= x < n && reach(g, f, x)),
    decreases n,
{
    if n > 0 {
        lemma_reach_upto(g, f, n - 1, x);
    }
}

pub proof fn lemma_reach_set(g: Gen, f: int, x: int)
    ensures
        bit(reach_set(g, f), x) == reach(g, f, x),
{
    reveal(reach_set);
    lemma_reach_upto(g, f, 100, x);
}

pub open spec fn plain(f: int, t: int) -> Move {
    Move::fields(f, t, 0, false)
}

/// One move from `f` to each square of `to`.
pub open spec fn fan(f: int, to: Seq<int>) -> Seq<Move> {
    Seq::new(to.len(), |i: int| plain(f, to[i]))
}

/// The promotion to `pt`, if it is open.
pub open spec fn promoting(g: Gen, f: int, t: int, pt: PieceType) -> Seq<Move> {
    if promo_open(g.q, g.us, pt) {
        seq![Move::fields(f, t, pt.idx() as int, false)]
    } else {
        Seq::empty()
    }
}

pub open spec fn promotions(g: Gen, f: int, t: int) -> Seq<Move> {
    promoting(g, f, t, PieceType::Knight) + promoting(g, f, t, PieceType::Bishop) + promoting(
        g,
        f,
        t,
        PieceType::Rook,
    ) + promoting(g, f, t, PieceType::Queen) + promoting(g, f, t, PieceType::Marshal) + promoting(
        g,
        f,
        t,
        PieceType::Cardinal,
    )
}

/// The outcomes of one pawn move: staying a pawn, up to the ninth rank, and each
/// open promotion, from the eighth.
pub open spec fn outcomes(g: Gen, f: int, t: int, capture: bool) -> Seq<Move> {
    let rr = rel_rank(g.us, t);
    (if rr <= 8 && (if capture {
        wants_noisy(g)
    } else {
        wants_quiet(g)
    }) {
        seq![plain(f, t)]
    } else {
        Seq::empty()
    }) + (if rr >= 7 && wants_noisy(g) {
        promotions(g, f, t)
    } else {
        Seq::empty()
    })
}

/// What a stage makes of one square.
pub open spec fn yields(g: Gen, stage: int, x: int) -> Seq<Move> {
    let k = king(g);
    let up = forward_of(g.us);
    if stage == 0 {
        if legal(g.q, g.us, g.ep, plain(k, x)) {
            seq![plain(k, x)]
        } else {
            Seq::empty()
        }
    } else if stage == 1 {
        if pin_allows(g.q, g.us, x - up, x) {
            outcomes(g, x - up, x, false)
        } else {
            Seq::empty()
        }
    } else if stage == 2 {
        if pin_allows(g.q, g.us, x - 2 * up, x) {
            seq![plain(x - 2 * up, x)]
        } else {
            Seq::empty()
        }
    } else if stage == 3 || stage == 4 {
        let f = x - capture_step(g.us, stage == 3);
        if pin_allows(g.q, g.us, f, x) {
            outcomes(g, f, x, true)
        } else {
            Seq::empty()
        }
    } else if stage == 5 {
        let m = Move::fields(x, g.ep.0 as int, 0, true);
        if legal(g.q, g.us, g.ep, m) {
            seq![m]
        } else {
            Seq::empty()
        }
    } else {
        fan(x, squares(reach_set(g, x)))
    }
}

/// What a stage makes of a row of squares.
pub open spec fn emitted(g: Gen, stage: int, xs: Seq<int>) -> Seq<Move>
    decreases xs.len(),
{
    if xs.len() == 0 {
        Seq::empty()
    } else {
        yields(g, stage, xs[0]) + emitted(g, stage, xs.drop_first())
    }
}

#[verifier::opaque]
pub open spec fn stage_moves(g: Gen, stage: int) -> Seq<Move> {
    emitted(g, stage, squares(stage_set(g, stage)))
}

/// The wanted moves, in order.
pub open spec fn moves_of(g: Gen) -> Seq<Move> {
    stage_moves(g, 0) + if double_check(g) {
        Seq::empty()
    } else {
        stage_moves(g, 1) + stage_moves(g, 2) + stage_moves(g, 3) + stage_moves(g, 4)
            + stage_moves(g, 5) + stage_moves(g, 11) + stage_moves(g, 12) + stage_moves(g, 13)
            + stage_moves(g, 14) + stage_moves(g, 15) + stage_moves(g, 16)
    }
}

/// The position of a board, for generation.
pub open spec fn gen_of(b: &Board, mode: u8) -> Gen {
    Gen { q: b.q(), us: b.stm, ep: b.ep, mode }
}

// -- generation -------------------------------------------------------------------------

fn shift_capture(ss: SquareSet, c: Color, east: bool) -> (r: SquareSet)
    requires
        ss.on_board(),
    ensures
        forall|x: int| #[trigger]
            r.contains(x) <==> 0 <= x < 100 && ss.contains(x - capture_step(c, east)) && pawn_att(
                c,
                x - capture_step(c, east),
                x,
            ),
{
    proof {
        reveal(pawn_att);
    }
    match c {
        Color::White => if east {
            ss.north_east()
        } else {
            ss.north_west()
        },
        Color::Black => if east {
            ss.south_east()
        } else {
            ss.south_west()
        },
    }
}

/// Pawns that can reach the promotion zone in one move: relative ranks 6, 7 and
/// 8, which move to relative ranks 7, 8 and 9.
fn zone_sources(c: Color) -> (r: SquareSet)
    ensures
        forall|x: int| #[trigger] r.contains(x) <==> 0 <= x < 100 && 6 <= rel_rank(c, x) <= 8,
{
    SquareSet::relative_rank(c, 6) | SquareSet::relative_rank(c, 7) | SquareSet::relative_rank(c, 8)
}

/// Adds the promotion to `pt` if `inv` has its bit.
fn add_promotion(list: &mut MoveList, from: Square, to: Square, open: bool, pt: PieceType)
    requires
        old(list).ok(),
        from.valid(),
        to.valid(),
        pt != PieceType::Pawn,
        pt != PieceType::King,
    ensures
        final(list).ok(),
        final(list).grown(old(list)),
        final(list)@ == old(list)@ + if open {
            seq![Move::fields(from.0 as int, to.0 as int, pt.idx() as int, false)]
        } else {
            Seq::empty()
        },
{
    let ghost before = list@;
    if open {
        list.push(Move::promotion(from, to, pt));
        assert(list@ =~= before + seq![
            Move::fields(from.0 as int, to.0 as int, pt.idx() as int, false),
        ]);
    } else {
        assert(list@ =~= before + Seq::<Move>::empty());
    }
}

proof fn lemma_assoc(a: Seq<Move>, b: Seq<Move>, c: Seq<Move>)
    ensures
        (a + b) + c == a + (b + c),
{
    assert((a + b) + c =~= a + (b + c));
}

/// Adds every open promotion, given the inventory.
fn add_promotions(list: &mut MoveList, from: Square, to: Square, inv: u8, Ghost(g): Ghost<Gen>)
    requires
        old(list).ok(),
        from.valid(),
        to.valid(),
        inv == inventory(g.q, g.us),
    ensures
        final(list).ok(),
        final(list).grown(old(list)),
        final(list)@ == old(list)@ + promotions(g, from.0 as int, to.0 as int),
{
    let ghost mid = list@;
    let ghost f = from.0 as int;
    let ghost x = to.0 as int;
    proof {
        lemma_inventory_bits(g.q, g.us, inv);
    }
    add_promotion(list, from, to, inv / 2 % 2 == 1, PieceType::Knight);
    add_promotion(list, from, to, inv / 4 % 2 == 1, PieceType::Bishop);
    add_promotion(list, from, to, inv / 8 % 2 == 1, PieceType::Rook);
    add_promotion(list, from, to, inv / 16 % 2 == 1, PieceType::Queen);
    add_promotion(list, from, to, inv / 32 % 2 == 1, PieceType::Marshal);
    add_promotion(list, from, to, inv / 64 % 2 == 1, PieceType::Cardinal);
    proof {
        let k = promoting(g, f, x, PieceType::Knight);
        let b = promoting(g, f, x, PieceType::Bishop);
        let r = promoting(g, f, x, PieceType::Rook);
        let q = promoting(g, f, x, PieceType::Queen);
        let m = promoting(g, f, x, PieceType::Marshal);
        let c = promoting(g, f, x, PieceType::Cardinal);
        lemma_assoc(mid, k, b);
        lemma_assoc(mid, k + b, r);
        lemma_assoc(mid, k + b + r, q);
        lemma_assoc(mid, k + b + r + q, m);
        lemma_assoc(mid, k + b + r + q + m, c);
    }
}

/// Emits every legal outcome of one pawn move, given the side's promotion
/// inventory as a bitmask over `PieceType::idx()`.
fn add_pawn<const T: u8>(
    list: &mut MoveList,
    from: Square,
    to: Square,
    us: Color,
    inv: u8,
    capture: bool,
    Ghost(g): Ghost<Gen>,
)
    requires
        old(list).ok(),
        from.valid(),
        to.valid(),
        g.us == us,
        g.mode == T,
        rel_rank(us, to.0 as int) >= 7 ==> inv == inventory(g.q, us),
    ensures
        final(list).ok(),
        final(list).grown(old(list)),
        final(list)@ == old(list)@ + outcomes(g, from.0 as int, to.0 as int, capture),
{
    let ghost before = list@;
    let f = Ghost(from.0 as int);
    let x = Ghost(to.0 as int);
    let rr = to.relative_rank(us);
    let plain_wanted = if capture {
        T != GEN_QUIETS
    } else {
        T != GEN_CAPTURES
    };
    if rr <= 8 && plain_wanted {
        list.push(Move::new(from, to));
        assert(list@ =~= before + seq![plain(f@, x@)]);
    } else {
        assert(list@ =~= before + Seq::<Move>::empty());
    }
    let ghost mid = list@;
    if rr >= 7 && T != GEN_QUIETS {
        add_promotions(list, from, to, inv, Ghost(g));
    } else {
        assert(list@ =~= mid + Seq::<Move>::empty());
    }
    proof {
        let first = if rr <= 8 && plain_wanted {
            seq![plain(f@, x@)]
        } else {
            Seq::empty()
        };
        let second = if rr >= 7 && T != GEN_QUIETS {
            promotions(g, f@, x@)
        } else {
            Seq::empty()
        };
        lemma_assoc(before, first, second);
    }
}

proof fn lemma_inventory_bits(q: Seq<Piece>, c: Color, inv: u8)
    requires
        inv == inventory(q, c),
    ensures
        (inv / 2 % 2 == 1) == promo_open(q, c, PieceType::Knight),
        (inv / 4 % 2 == 1) == promo_open(q, c, PieceType::Bishop),
        (inv / 8 % 2 == 1) == promo_open(q, c, PieceType::Rook),
        (inv / 16 % 2 == 1) == promo_open(q, c, PieceType::Queen),
        (inv / 32 % 2 == 1) == promo_open(q, c, PieceType::Marshal),
        (inv / 64 % 2 == 1) == promo_open(q, c, PieceType::Cardinal),
        inv == 0 ==> !promo_open(q, c, PieceType::Knight) && !promo_open(q, c, PieceType::Bishop)
            && !promo_open(q, c, PieceType::Rook) && !promo_open(q, c, PieceType::Queen)
            && !promo_open(q, c, PieceType::Marshal) && !promo_open(q, c, PieceType::Cardinal),
{
}

/// A set given by its squares is the set of its stage.
proof fn lemma_is_stage(g: Gen, stage: int, s: SquareSet)
    requires
        forall|x: int| #[trigger] s.contains(x) <==> eligible(g, stage, x),
    ensures
        s.0 == stage_set(g, stage),
{
    assert forall|x: int| bit(s.0, x) == bit(stage_set(g, stage), x) by {
        lemma_stage_set(g, stage, x);
    }
    lemma_bits_equal(s.0, stage_set(g, stage));
}

/// The first square of a row, and the rest.
proof fn lemma_emit_step(g: Gen, stage: int, done: Seq<Move>, xs: Seq<int>, rest: Seq<int>, all: Seq<Move>)
    requires
        xs.len() > 0,
        rest == xs.drop_first(),
        done + emitted(g, stage, xs) == all,
    ensures
        (done + yields(g, stage, xs[0])) + emitted(g, stage, rest) == all,
{
    assert((done + yields(g, stage, xs[0])) + emitted(g, stage, rest) =~= done + (yields(
        g,
        stage,
        xs[0],
    ) + emitted(g, stage, rest)));
}

proof fn lemma_emit_end(g: Gen, stage: int, done: Seq<Move>, x: u128)
    requires
        x == 0,
    ensures
        done + emitted(g, stage, squares(x)) == done,
{
    lemma_squares_empty(x);
    assert(done + emitted(g, stage, squares(x)) =~= done);
}

/// Generates the moves of the piece on `from`.
fn add_piece(list: &mut MoveList, from: Square, to_set: SquareSet, Ghost(g): Ghost<Gen>)
    requires
        old(list).ok(),
        from.valid(),
        to_set.0 == reach_set(g, from.0 as int),
        to_set.on_board(),
    ensures
        final(list).ok(),
        final(list).grown(old(list)),
        final(list)@ == old(list)@ + fan(from.0 as int, squares(reach_set(g, from.0 as int))),
{
    let ghost before = list@;
    let ghost f = from.0 as int;
    let mut rest = to_set;
    assert(before + fan(f, rest.members()) =~= before + fan(f, to_set.members()));
    while rest.any()
        invariant
            list.ok(),
            list.grown(old(list)),
            from.valid(),
            f == from.0,
            rest.on_board(),
            list@ + fan(f, rest.members()) == before + fan(f, to_set.members()),
        decreases rest.members().len(),
    {
        let ghost xs = rest.members();
        let ghost had = list@;
        let to = rest.pop();
        list.push(Move::new(from, to));
        assert(list@ + fan(f, rest.members()) =~= had + fan(f, xs));
    }
    proof {
        lemma_squares_empty(rest.0);
        assert(list@ + fan(f, rest.members()) =~= list@);
    }
}

/// May the piece on `from` go to `to`, as far as a pin is concerned?
fn unpinned(b: &Board, t: &Tables, ksq: Square, from: Square, to: Square) -> (r: bool)
    requires
        b.wf(),
        from.valid(),
        to.valid(),
        ksq.valid(),
        ksq.0 == king_of(b.q(), b.stm),
    ensures
        r == pin_allows(b.q(), b.stm, from.0 as int, to.0 as int),
{
    !b.blockers[b.stm.idx()].has(from) || aligned(t, ksq, from, to)
}

/// The square that lies `d` before `to`.
fn back(to: Square, d: i16) -> (r: Square)
    requires
        0 <= to.0 - d < 256,
    ensures
        r.0 == to.0 - d,
{
    Square((to.0 as i16 - d) as u8)
}

/// Index delta added to `from` to reach `to` for a single pawn push.
fn forward_delta(c: Color) -> (r: i16)
    ensures
        r == forward_of(c),
{
    match c {
        Color::White => 10,
        Color::Black => -10,
    }
}

fn capture_delta(c: Color, east: bool) -> (r: i16)
    ensures
        r == capture_step(c, east),
{
    match c {
        Color::White => if east {
            11
        } else {
            9
        },
        Color::Black => if east {
            -9
        } else {
            -11
        },
    }
}

/// Adds the king's moves.
fn add_king_moves<const T: u8>(b: &Board, t: &Tables, list: &mut MoveList)
    requires
        b.wf(),
        old(list).ok(),
    ensures
        final(list).ok(),
        final(list).grown(old(list)),
        final(list)@ == old(list)@ + stage_moves(gen_of(b, T), 0),
{
    let ghost g = gen_of(b, T);
    let us = b.stm;
    let them = us.flip();
    let ours = b.colors(us);
    let theirs = b.colors(them);
    let ksq = b.king_sq(us);
    let mut king_targets = king_attacks(t, ksq) - ours;
    if T == GEN_CAPTURES {
        king_targets = king_targets & theirs;
    } else if T == GEN_QUIETS {
        king_targets = king_targets - theirs;
    }
    // The king is removed from the occupancy so it cannot shield itself along a
    // ray it is fleeing down.
    let occ_no_king = b.occupied() - SquareSet::from_square(ksq);
    let ghost before = list@;
    let ghost all = before + stage_moves(g, 0);
    let mut rest = king_targets;
    proof {
        reveal(king_att);
        lemma_is_stage(g, 0, king_targets);
        reveal(stage_moves);
    }
    while rest.any()
        invariant
            b.wf(),
            list.ok(),
            list.grown(old(list)),
            us == b.stm,
            them == us.flip(),
            ksq.valid(),
            ksq.0 == king_of(b.q(), us),
            g == gen_of(b, T),
            forall|u: int| #[trigger]
                occ_no_king.contains(u) <==> occ_at(b.q(), u) && u != ksq.0,
            forall|x: int| #[trigger] rest.contains(x) ==> eligible(g, 0, x),
            list@ + emitted(g, 0, rest.members()) == all,
        decreases rest.members().len(),
    {
        let ghost xs = rest.members();
        let ghost had = list@;
        let to = rest.pop();
        proof {
            lemma_emit_step(g, 0, had, xs, rest.members(), all);
            assert(eligible(g, 0, to.0 as int));
            lemma_king_step(b.q(), us, b.ep, plain(ksq.0 as int, to.0 as int), occ_no_king.0);
        }
        if !b.attacked_by(t, them, to, occ_no_king) {
            list.push(Move::new(ksq, to));
            assert(list@ =~= had + yields(g, 0, to.0 as int));
        } else {
            assert(list@ =~= had + yields(g, 0, to.0 as int));
        }
    }
    proof {
        lemma_emit_end(g, 0, list@, rest.0);
    }
}

/// Adds the pawn pushes.
fn add_pawn_pushes<const T: u8>(b: &Board, t: &Tables, list: &mut MoveList, base_target: SquareSet, inv: u8)
    requires
        b.wf(),
        old(list).ok(),
        forall|x: int| 0 <= x < 100 && !col_at(b.q(), x, b.stm) ==> (#[trigger] base_target.contains(x) <==> evasion(gen_of(b, T), x)),
        inv == inventory(b.q(), b.stm) || (inv == 0 && forall|i: int| #[trigger]
            piece_on(b.q(), i, b.stm, PieceType::Pawn) ==> rel_rank(b.stm, i) < 6),
    ensures
        final(list).ok(),
        final(list).grown(old(list)),
        final(list)@ == old(list)@ + stage_moves(gen_of(b, T), 1) + stage_moves(gen_of(b, T), 2),
{
    let ghost g = gen_of(b, T);
    let ghost q = b.q();
    let us = b.stm;
    let ksq = b.king_sq(us);
    let occ = b.occupied();
    let pawns = b.colored(us, PieceType::Pawn);
    let empty = SquareSet(!occ.0);
    let d: i16 = forward_delta(us);
    let one = pawns.forward(us) & empty;
    let ghost before = list@;
    let ghost all = before + stage_moves(g, 1);
    proof {
        assert(occ.on_board());
        assert forall|x: int| #[trigger] one.contains(x) <==> 0 <= x < 100 && piece_on(
            q,
            x - forward_of(us),
            us,
            PieceType::Pawn,
        ) && empty_at(q, x) by {
            lemma_piece(q[x]);
        }
    }
    if T != GEN_CAPTURES || inv != 0 {
        let first = one & base_target;
        let mut rest = first;
        proof {
            assert forall|x: int| #[trigger] first.contains(x) <==> eligible(g, 1, x) by {
                if one.contains(x) {
                    lemma_piece(q[x]);
                    assert(!col_at(q, x, us));
                }
            }
            lemma_is_stage(g, 1, first);
            reveal(stage_moves);
        }
        while rest.any()
            invariant
                b.wf(),
                list.ok(),
                list.grown(old(list)),
                us == b.stm,
                ksq.valid(),
                ksq.0 == king_of(b.q(), us),
                g == gen_of(b, T),
                q == b.q(),
                d == forward_of(us),
                inv == inventory(q, us) || (inv == 0 && forall|i: int| #[trigger]
                    piece_on(q, i, us, PieceType::Pawn) ==> rel_rank(us, i) < 6),
                forall|x: int| #[trigger] rest.contains(x) ==> eligible(g, 1, x),
                list@ + emitted(g, 1, rest.members()) == all,
            decreases rest.members().len(),
        {
            let ghost xs = rest.members();
            let ghost had = list@;
            let to = rest.pop();
            proof {
                lemma_emit_step(g, 1, had, xs, rest.members(), all);
                assert(eligible(g, 1, to.0 as int));
                assert(piece_on(q, to.0 - d, us, PieceType::Pawn));
            }
            let from = back(to, d);
            if unpinned(b, t, ksq, from, to) {
                add_pawn::<T>(list, from, to, us, inv, false, Ghost(g));
            } else {
                assert(list@ =~= had + yields(g, 1, to.0 as int));
            }
        }
        proof {
            lemma_emit_end(g, 1, list@, rest.0);
        }
    } else {
        proof {
            lemma_no_push_outcomes(b, g, inv);
            assert(list@ =~= all);
        }
    }
    assert(list@ == all);
    let ghost all2 = all + stage_moves(g, 2);
    if T != GEN_CAPTURES {
        let two = (one & SquareSet::relative_rank(us, 3)).forward(us) & empty;
        let second = two & base_target;
        let mut rest = second;
        proof {
            assert forall|x: int| #[trigger] second.contains(x) <==> eligible(g, 2, x) by {
                let y = x - forward_of(us);
                assert(one.contains(y) <==> 0 <= y < 100 && piece_on(
                    q,
                    y - forward_of(us),
                    us,
                    PieceType::Pawn,
                ) && empty_at(q, y));
                lemma_piece(q[x]);
            }
            lemma_is_stage(g, 2, second);
            reveal(stage_moves);
        }
        while rest.any()
            invariant
                b.wf(),
                list.ok(),
                list.grown(old(list)),
                us == b.stm,
                ksq.valid(),
                ksq.0 == king_of(b.q(), us),
                g == gen_of(b, T),
                q == b.q(),
                d == forward_of(us),
                forall|x: int| #[trigger] rest.contains(x) ==> eligible(g, 2, x),
                list@ + emitted(g, 2, rest.members()) == all2,
            decreases rest.members().len(),
        {
            let ghost xs = rest.members();
            let ghost had = list@;
            let to = rest.pop();
            proof {
                lemma_emit_step(g, 2, had, xs, rest.members(), all2);
                assert(eligible(g, 2, to.0 as int));
                assert(piece_on(q, to.0 - 2 * d, us, PieceType::Pawn));
            }
            let from = back(to, 2 * d);
            if unpinned(b, t, ksq, from, to) {
                list.push(Move::new(from, to));
                assert(list@ =~= had + yields(g, 2, to.0 as int));
            } else {
                assert(list@ =~= had + yields(g, 2, to.0 as int));
            }
        }
        proof {
            lemma_emit_end(g, 2, list@, rest.0);
        }
    } else {
        proof {
            reveal(stage_moves);
            assert(stage_set(g, 2) == 0) by {
                assert forall|x: int| #[trigger] SquareSet::empty().contains(x) <==> eligible(
                    g,
                    2,
                    x,
                ) by {}
                lemma_is_stage(g, 2, SquareSet::empty());
            }
            lemma_emit_end(g, 2, list@, stage_set(g, 2));
        }
    }
}

/// Without an open promotion no push is noisy.
proof fn lemma_no_push_outcomes(b: &Board, g: Gen, inv: u8)
    requires
        g == gen_of(b, GEN_CAPTURES),
        inv == 0,
        inv == inventory(b.q(), b.stm) || forall|i: int| #[trigger]
            piece_on(b.q(), i, b.stm, PieceType::Pawn) ==> rel_rank(b.stm, i) < 6,
    ensures
        stage_moves(g, 1) == Seq::<Move>::empty(),
{
    reveal(stage_moves);
    let x = stage_set(g, 1);
    assert forall|s: int| #[trigger] bit(x, s) implies yields(g, 1, s) =~= Seq::<Move>::empty() by {
        lemma_stage_set(g, 1, s);
        assert(piece_on(g.q, s - forward_of(g.us), g.us, PieceType::Pawn));
        if inv == inventory(b.q(), b.stm) {
            lemma_inventory_bits(g.q, g.us, inv);
        }
    }
    lemma_squares_members(x);
    assert forall|i: int| 0 <= i < squares(x).len() implies yields(g, 1, #[trigger] squares(x)[i])
        =~= Seq::<Move>::empty() by {
        assert(squares(x).contains(squares(x)[i]));
    }
    lemma_emit_nothing(g, 1, squares(x));
}

proof fn lemma_emit_nothing(g: Gen, stage: int, xs: Seq<int>)
    requires
        forall|i: int| 0 <= i < xs.len() ==> yields(g, stage, #[trigger] xs[i]) =~= Seq::<Move>::empty(),
    ensures
        emitted(g, stage, xs) == Seq::<Move>::empty(),
    decreases xs.len(),
{
    if xs.len() > 0 {
        let r = xs.drop_first();
        assert forall|i: int| 0 <= i < r.len() implies yields(g, stage, #[trigger] r[i])
            =~= Seq::<Move>::empty() by {
            assert(r[i] == xs[i + 1]);
        }
        lemma_emit_nothing(g, stage, r);
    }
}

/// Adds the pawn captures to one side.
fn add_pawn_captures<const T: u8>(
    b: &Board,
    t: &Tables,
    list: &mut MoveList,
    base_target: SquareSet,
    inv: u8,
    east: bool,
)
    requires
        b.wf(),
        old(list).ok(),
        forall|x: int| 0 <= x < 100 && !col_at(b.q(), x, b.stm) ==> (#[trigger] base_target.contains(x) <==> evasion(gen_of(b, T), x)),
        inv == inventory(b.q(), b.stm) || (inv == 0 && forall|i: int| #[trigger]
            piece_on(b.q(), i, b.stm, PieceType::Pawn) ==> rel_rank(b.stm, i) < 6),
    ensures
        final(list).ok(),
        final(list).grown(old(list)),
        final(list)@ == old(list)@ + stage_moves(gen_of(b, T), if east { 3 } else { 4 }),
{
    let ghost g = gen_of(b, T);
    let ghost q = b.q();
    let ghost stage: int = if east {
        3
    } else {
        4
    };
    let us = b.stm;
    let ksq = b.king_sq(us);
    let theirs = b.colors(us.flip());
    let pawns = b.colored(us, PieceType::Pawn);
    let d: i16 = capture_delta(us, east);
    let set = shift_capture(pawns, us, east) & theirs & base_target;
    let ghost before = list@;
    let ghost all = before + stage_moves(g, stage);
    let mut rest = set;
    proof {
        assert forall|x: int| #[trigger] set.contains(x) <==> eligible(g, stage, x) by {}
        lemma_is_stage(g, stage, set);
        reveal(stage_moves);
    }
    while rest.any()
        invariant
            b.wf(),
            list.ok(),
            list.grown(old(list)),
            us == b.stm,
            ksq.valid(),
            ksq.0 == king_of(b.q(), us),
            g == gen_of(b, T),
            q == b.q(),
            d == capture_step(us, east),
            stage == if east {
                3int
            } else {
                4
            },
            inv == inventory(q, us) || (inv == 0 && forall|i: int| #[trigger]
                piece_on(q, i, us, PieceType::Pawn) ==> rel_rank(us, i) < 6),
            forall|x: int| #[trigger] rest.contains(x) ==> eligible(g, stage, x),
            list@ + emitted(g, stage, rest.members()) == all,
        decreases rest.members().len(),
    {
        let ghost xs = rest.members();
        let ghost had = list@;
        let to = rest.pop();
        proof {
            lemma_emit_step(g, stage, had, xs, rest.members(), all);
            assert(eligible(g, stage, to.0 as int));
            assert(piece_on(q, to.0 - d, us, PieceType::Pawn));
            reveal(pawn_att);
        }
        let from = back(to, d);
        if unpinned(b, t, ksq, from, to) {
            add_pawn::<T>(list, from, to, us, inv, true, Ghost(g));
        } else {
            assert(list@ =~= had + yields(g, stage, to.0 as int));
        }
    }
    proof {
        lemma_emit_end(g, stage, list@, rest.0);
    }
}

/// Adds the en passant captures, which need a legality test of their own.
fn add_en_passant<const T: u8>(b: &Board, t: &Tables, list: &mut MoveList)
    requires
        b.wf(),
        old(list).ok(),
    ensures
        final(list).ok(),
        final(list).grown(old(list)),
        final(list)@ == old(list)@ + stage_moves(gen_of(b, T), 5),
{
    let ghost g = gen_of(b, T);
    let ghost q = b.q();
    let us = b.stm;
    let ghost before = list@;
    let ghost all = before + stage_moves(g, 5);
    if T != GEN_QUIETS && b.ep != Square::none() {
        let ep = b.ep;
        let set = pawn_attacks(t, us.flip(), ep) & b.colored(us, PieceType::Pawn);
        let mut rest = set;
        proof {
            assert forall|x: int| #[trigger] set.contains(x) <==> eligible(g, 5, x) by {}
            lemma_is_stage(g, 5, set);
            reveal(stage_moves);
        }
        while rest.any()
            invariant
                b.wf(),
                list.ok(),
                list.grown(old(list)),
                us == b.stm,
                ep == b.ep,
                ep.valid(),
                ep_real(b.q(), us, ep.0 as int),
                g == gen_of(b, T),
                q == b.q(),
                forall|x: int| #[trigger] rest.contains(x) ==> eligible(g, 5, x),
                list@ + emitted(g, 5, rest.members()) == all,
            decreases rest.members().len(),
        {
            let ghost xs = rest.members();
            let ghost had = list@;
            let from = rest.pop();
            proof {
                lemma_emit_step(g, 5, had, xs, rest.members(), all);
                assert(eligible(g, 5, from.0 as int));
            }
            let m = Move::en_passant(from, ep);
            proof {
                lemma_piece_on(q, from.0 as int, us, PieceType::Pawn);
                lemma_rook_sym(from.0 as int, 0, ep.0 as int);
                lemma_rook_sym(ep.0 as int, 0, from.0 as int);
                reveal(pawn_att);
                assert(reaches(q, us, ep, m));
            }
            if b.is_legal(t, m) {
                list.push(m);
                assert(list@ =~= had + yields(g, 5, from.0 as int));
            } else {
                assert(list@ =~= had + yields(g, 5, from.0 as int));
            }
        }
        proof {
            lemma_emit_end(g, 5, list@, rest.0);
        }
    } else {
        proof {
            reveal(stage_moves);
            assert(stage_set(g, 5) == 0) by {
                assert forall|x: int| #[trigger] SquareSet::empty().contains(x) <==> eligible(
                    g,
                    5,
                    x,
                ) by {}
                lemma_is_stage(g, 5, SquareSet::empty());
            }
            lemma_emit_end(g, 5, list@, stage_set(g, 5));
        }
    }
}

/// Adds the moves of the pieces of type `pt`.
fn add_pieces<const T: u8>(b: &Board, t: &Tables, list: &mut MoveList, target: SquareSet, pt: PieceType)
    requires
        b.wf(),
        old(list).ok(),
        1 <= pt.idx() <= 6,
        forall|x: int| 0 <= x < 100 ==> (#[trigger] target.contains(x) <==> !col_at(b.q(), x, b.stm)
            && evasion(gen_of(b, T), x) && (wants_quiet(gen_of(b, T)) || col_at(
            b.q(),
            x,
            b.stm.flip(),
        )) && (wants_noisy(gen_of(b, T)) || !col_at(b.q(), x, b.stm.flip()))),
    ensures
        final(list).ok(),
        final(list).grown(old(list)),
        final(list)@ == old(list)@ + stage_moves(gen_of(b, T), 10 + pt.idx()),
{
    let ghost g = gen_of(b, T);
    let ghost q = b.q();
    let ghost stage = 10 + pt.idx();
    let us = b.stm;
    let ksq = b.king_sq(us);
    let occ = b.occupied();
    let blockers = b.blockers[us.idx()];
    let set = b.colored(us, pt);
    let ghost before = list@;
    let ghost all = before + stage_moves(g, stage);
    let mut rest = set;
    proof {
        assert(PieceType::numbered(stage - 10) == pt);
        assert forall|x: int| #[trigger] set.contains(x) <==> eligible(g, stage, x) by {}
        lemma_is_stage(g, stage, set);
        reveal(stage_moves);
    }
    while rest.any()
        invariant
            b.wf(),
            list.ok(),
            list.grown(old(list)),
            us == b.stm,
            ksq.valid(),
            ksq.0 == king_of(b.q(), us),
            occ.0 == occ_of(q),
            blockers == b.blockers[us.idx() as int],
            g == gen_of(b, T),
            q == b.q(),
            stage == 10 + pt.idx(),
            1 <= pt.idx() <= 6,
            PieceType::numbered(stage - 10) == pt,
            forall|x: int| 0 <= x < 100 ==> (#[trigger] target.contains(x) <==> !col_at(q, x, us)
                && evasion(g, x) && (wants_quiet(g) || col_at(q, x, us.flip())) && (wants_noisy(g)
                || !col_at(q, x, us.flip()))),
            forall|x: int| #[trigger] rest.contains(x) ==> eligible(g, stage, x),
            list@ + emitted(g, stage, rest.members()) == all,
        decreases rest.members().len(),
    {
        let ghost xs = rest.members();
        let ghost had = list@;
        let from = rest.pop();
        let ghost f = from.0 as int;
        proof {
            lemma_emit_step(g, stage, had, xs, rest.members(), all);
            assert(eligible(g, stage, f));
            lemma_piece_on(q, f, us, pt);
        }
        let attacks = piece_attacks(t, pt, from, occ);
        let mut to_set = attacks & target;
        let pinned = blockers.has(from);
        if pinned {
            to_set = to_set & line(t, ksq, from);
        }
        proof {
            assert forall|x: int| #[trigger] to_set.contains(x) == reach(g, f, x) by {
                if attacks.contains(x) || reach(g, f, x) {
                    lemma_att_board(pt, f, occ.0, x);
                }
                assert(pinned == is_blocker(q, us, f));
            }
            assert(to_set.0 == reach_set(g, f)) by {
                assert forall|x: int| bit(to_set.0, x) == bit(reach_set(g, f), x) by {
                    lemma_reach_set(g, f, x);
                }
                lemma_bits_equal(to_set.0, reach_set(g, f));
            }
        }
        add_piece(list, from, to_set, Ghost(g));
    }
    proof {
        lemma_emit_end(g, stage, list@, rest.0);
    }
}

/// Attacked squares are on the board.
pub proof fn lemma_att_board(pt: PieceType, f: int, occ: u128, x: int)
    requires
        type_att(pt, f, occ, x),
    ensures
        0 <= f < 100,
        0 <= x < 100,
        f != x,
{
    reveal(knight_att);
    reveal(king_att);
    reveal(on_ray);
}

/// A king move to a square next to it, of the sort that the generator considers.
proof fn lemma_king_step(q: Seq<Piece>, us: Color, ep: Square, m: Move, occ: u128)
    requires
        is_placement(q),
        has_kings(q),
        pawns_inside(q),
        !in_check_at(q, us.flip()),
        ep == Square::none() || ep_real(q, us, ep.0 as int),
        ({
            let k = king_of(q, us);
            let x = m.to().0 as int;
            &&& m == plain(k, x)
            &&& m.from().0 == k
            &&& !m.is_en_passant()
            &&& !m.is_promotion()
            &&& king_att(k, x)
            &&& !col_at(q, x, us)
        }),
        forall|u: int| #[trigger] bit(occ, u) == (occ_at(q, u) && u != m.from().0),
    ensures
        legal(q, us, ep, m) == !attacked(q, occ, us.flip(), m.to().0 as int),
{
    lemma_king_of(q, us);
    reveal(king_att);
    assert(reaches(q, us, ep, m));
    lemma_king_move(q, us, ep, m, occ);
}

/// Generates the legal moves of the wanted sort: all of them, those that capture
/// or promote, or the rest.
pub fn generate<const T: u8>(b: &Board, t: &Tables, list: &mut MoveList)
    requires
        b.wf(),
        old(list).ok(),
    ensures
        final(list).ok(),
        final(list).grown(old(list)),
        final(list)@ == old(list)@ + moves_of(gen_of(b, T)),
{
    let ghost g = gen_of(b, T);
    let ghost q = b.q();
    let ghost before = list@;
    let us = b.stm;
    let them = us.flip();
    let ours = b.colors(us);
    let theirs = b.colors(them);
    let ksq = b.king_sq(us);
    add_king_moves::<T>(b, t, list);
    proof {
        lemma_checker_count(b, g);
    }
    if b.checkers.more_than_one() {
        // Only the king can move out of a double check.
        assert(list@ =~= before + moves_of(g));
        return;
    }
    // Target squares for every other piece.
    let base_target = if b.checkers.any() {
        between(t, ksq, b.checkers.lsb()) | b.checkers
    } else {
        SquareSet(!ours.0)
    };
    proof {
        lemma_evasion_set(b, g, base_target);
    }
    let mut target = base_target;
    if T == GEN_CAPTURES {
        target = target & theirs;
    } else if T == GEN_QUIETS {
        target = target - theirs;
    }
    let pawns = b.colored(us, PieceType::Pawn);
    let zone_pawns = pawns & zone_sources(us);
    let in_zone = zone_pawns.any();
    let inv: u8 = if in_zone {
        b.promo_inventory(us)
    } else {
        0
    };
    proof {
        if !in_zone {
            assert forall|i: int| #[trigger] piece_on(q, i, us, PieceType::Pawn) implies rel_rank(
                us,
                i,
            ) < 6 by {
                assert(!zone_pawns.contains(i));
                lemma_piece_on(q, i, us, PieceType::Pawn);
                assert(kind_at(q, i, PieceType::Pawn));
            }
        }
    }
    add_pawn_pushes::<T>(b, t, list, base_target, inv);
    add_pawn_captures::<T>(b, t, list, base_target, inv, true);
    add_pawn_captures::<T>(b, t, list, base_target, inv, false);
    add_en_passant::<T>(b, t, list);
    add_pieces::<T>(b, t, list, target, PieceType::Knight);
    add_pieces::<T>(b, t, list, target, PieceType::Bishop);
    add_pieces::<T>(b, t, list, target, PieceType::Rook);
    add_pieces::<T>(b, t, list, target, PieceType::Queen);
    add_pieces::<T>(b, t, list, target, PieceType::Marshal);
    add_pieces::<T>(b, t, list, target, PieceType::Cardinal);
    assert(list@ =~= before + moves_of(g));
}

proof fn lemma_checker_count(b: &Board, g: Gen)
    requires
        b.wf(),
        g.q == b.q(),
        g.us == b.stm,
    ensures
        (b.checkers.members().len() > 1) == double_check(g),
{
    let s = b.checkers.members();
    lemma_squares_members(b.checkers.0);
    if s.len() > 1 {
        assert(s.contains(s[0]) && s.contains(s[1]));
        assert(is_checker(g.q, g.us, s[0]) && is_checker(g.q, g.us, s[1]));
        assert(s[0] != s[1]);
    }
    if double_check(g) {
        let (x, y) = choose|x: int, y: int| #[trigger]
            is_checker(g.q, g.us, x) && #[trigger] is_checker(g.q, g.us, y) && x != y;
        assert(b.checkers.contains(x) && b.checkers.contains(y));
        assert(s.contains(x) && s.contains(y));
    }
}

/// The check mask holds exactly the evasions.
proof fn lemma_evasion_set(b: &Board, g: Gen, base: SquareSet)
    requires
        b.wf(),
        g.q == b.q(),
        g.us == b.stm,
        b.checkers.members().len() <= 1,
        b.checkers.0 == 0 ==> forall|x: int| 0 <= x < 100 ==> (#[trigger] base.contains(x) <==> !col_at(b.q(), x, b.stm)),
        b.checkers.0 != 0 ==> forall|x: int| #[trigger] base.contains(x) <==> between_sq(king(g), b.checkers.members()[0], x) || b.checkers.contains(x),
    ensures
        forall|x: int| 0 <= x < 100 ==> (#[trigger] base.contains(x) && !col_at(b.q(), x, b.stm) <==> !col_at(b.q(), x, b.stm) && evasion(g, x)),
        forall|x: int| 0 <= x < 100 && #[trigger] base.contains(x) ==> !col_at(b.q(), x, b.stm),
{
    let q = b.q();
    let us = b.stm;
    let s = b.checkers.members();
    lemma_squares_members(b.checkers.0);
    lemma_squares_empty(b.checkers.0);
    if b.checkers.0 == 0 {
        assert forall|x: int| !#[trigger] is_checker(q, us, x) by {
            assert(!bit(b.checkers.0, x));
        }
    } else {
        let c = s[0];
        assert(s.contains(c));
        assert(is_checker(q, us, c));
        assert forall|x: int| #[trigger] is_checker(q, us, x) implies x == c by {
            assert(b.checkers.contains(x));
            assert(s.contains(x));
        }
        assert forall|x: int| 0 <= x < 100 && #[trigger] base.contains(x) implies !col_at(
            q,
            x,
            us,
        ) by {
            if between_sq(king(g), c, x) {
                lemma_check_path(q, us, c, x);
            } else {
                assert(is_checker(q, us, x));
            }
        }
        assert forall|x: int| 0 <= x < 100 && !col_at(q, x, us) implies (#[trigger] base.contains(
            x,
        ) <==> evasion(g, x)) by {
            if b.checkers.contains(x) {
                assert(is_checker(q, us, x));
            }
        }
    }
}

} // verus!
