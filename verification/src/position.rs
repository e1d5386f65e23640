//! Positions as mathematics: what stands where, who attacks what, which moves
//! exist, and what a move does.
//!
//! A placement is a sequence of one hundred pieces, one per square, with
//! `Piece::none()` on the empty ones.

use vstd::prelude::*;
use crate::geometry::{abs, between_sq, bishop_line, pawn_att, piece_att, rk, rook_line, type_att};
use crate::squareset::{bit, group_bits, squares};
use crate::types::{Color, Move, Piece, PieceType, Square, promo_max, rel_rank};
use crate::zobrist::{ep_key, psq_key, side_key};

verus! {

broadcast use group_bits;

/// One hundred squares, each empty or holding a real piece.
pub open spec fn is_placement(q: Seq<Piece>) -> bool {
    q.len() == 100 && forall|i: int| 0 <= i < 100 ==> (#[trigger] q[i]).valid() || q[i]
        == Piece::none()
}

/// Is square `i` occupied?
pub open spec fn occ_at(q: Seq<Piece>, i: int) -> bool {
    0 <= i < 100 && q[i].valid()
}

/// Does a piece of colour `c` stand on `i`?
pub open spec fn col_at(q: Seq<Piece>, i: int, c: Color) -> bool {
    0 <= i < 100 && q[i].valid() && q[i].col() == c
}

/// Does a piece of type `pt` stand on `i`?
pub open spec fn kind_at(q: Seq<Piece>, i: int, pt: PieceType) -> bool {
    0 <= i < 100 && q[i].valid() && q[i].kind() == pt
}

/// Does `c`'s piece of type `pt` stand on `i`?
pub open spec fn piece_on(q: Seq<Piece>, i: int, c: Color, pt: PieceType) -> bool {
    0 <= i < 100 && q[i] == Piece::of(c, pt)
}

pub open spec fn empty_at(q: Seq<Piece>, i: int) -> bool {
    0 <= i < 100 && q[i] == Piece::none()
}

/// The code of a piece and its colour and type determine each other.
pub proof fn lemma_piece(p: Piece)
    ensures
        p.valid() ==> p == Piece::of(p.col(), p.kind()),
        p.valid() ==> p.col().idx() == p.0 / 8 && p.kind().idx() == p.0 % 8,
        !Piece::none().valid(),
{
}

pub proof fn lemma_piece_of(c: Color, pt: PieceType)
    ensures
        Piece::of(c, pt).valid(),
        Piece::of(c, pt).col() == c,
        Piece::of(c, pt).kind() == pt,
        Piece::of(c, pt) != Piece::none(),
{
}

/// `piece_on` is colour and type together.
pub proof fn lemma_piece_on(q: Seq<Piece>, i: int, c: Color, pt: PieceType)
    ensures
        piece_on(q, i, c, pt) == (col_at(q, i, c) && kind_at(q, i, pt)),
{
    lemma_piece(q[i]);
    lemma_piece_of(c, pt);
}

// -- sets of squares ----------------------------------------------------------------

/// The occupied squares below `n`, as a word.
pub open spec fn occ_upto(q: Seq<Piece>, n: int) -> u128
    decreases n,
{
    if n <= 0 {
        0
    } else if q[n - 1].valid() {
        occ_upto(q, n - 1) | (1u128 << ((n - 1) as u128))
    } else {
        occ_upto(q, n - 1)
    }
}

/// The squares below `n` on which `p` stands, as a word.
pub open spec fn set_upto(q: Seq<Piece>, p: Piece, n: int) -> u128
    decreases n,
{
    if n <= 0 {
        0
    } else if q[n - 1] == p {
        set_upto(q, p, n - 1) | (1u128 << ((n - 1) as u128))
    } else {
        set_upto(q, p, n - 1)
    }
}

proof fn lemma_occ_upto(q: Seq<Piece>, n: int, i: int)
    requires
        0 <= n <= 100,
    ensures
        bit(occ_upto(q, n), i) == (0 <= i < n && q[i].valid()),
    decreases n,
{
    if n > 0 {
        lemma_occ_upto(q, n - 1, i);
    }
}

proof fn lemma_set_upto(q: Seq<Piece>, p: Piece, n: int, i: int)
    requires
        0 <= n <= 100,
    ensures
        bit(set_upto(q, p, n), i) == (0 <= i < n && q[i] == p),
    decreases n,
{
    if n > 0 {
        lemma_set_upto(q, p, n - 1, i);
    }
}

/// The occupied squares.
#[verifier::opaque]
pub open spec fn occ_of(q: Seq<Piece>) -> u128 {
    occ_upto(q, 100)
}

/// The squares on which `p` stands.
#[verifier::opaque]
pub open spec fn set_of(q: Seq<Piece>, p: Piece) -> u128 {
    set_upto(q, p, 100)
}

pub broadcast proof fn lemma_occ_of(q: Seq<Piece>, i: int)
    ensures
        #[trigger] bit(occ_of(q), i) == occ_at(q, i),
{
    reveal(occ_of);
    lemma_occ_upto(q, 100, i);
}

pub broadcast proof fn lemma_set_of(q: Seq<Piece>, p: Piece, i: int)
    ensures
        #[trigger] bit(set_of(q, p), i) == (0 <= i < 100 && q[i] == p),
{
    reveal(set_of);
    lemma_set_upto(q, p, 100, i);
}

/// How many of `p` are on the board.
pub open spec fn count_of(q: Seq<Piece>, p: Piece) -> nat {
    squares(set_of(q, p)).len()
}

// -- attacks -------------------------------------------------------------------------

/// Does the piece on `a` attack `s`, given the occupied squares `occ`?
pub open spec fn attacker(q: Seq<Piece>, occ: u128, s: int, a: int) -> bool {
    0 <= a < 100 && piece_att(q[a], a, occ, s)
}

/// Does `c` attack `s`, given the occupied squares `occ`?
pub open spec fn attacked(q: Seq<Piece>, occ: u128, c: Color, s: int) -> bool {
    exists|a: int| #[trigger] attacker(q, occ, s, a) && col_at(q, a, c)
}

/// `k` is where `c`'s only king stands.
pub open spec fn king_on(q: Seq<Piece>, c: Color, k: int) -> bool {
    piece_on(q, k, c, PieceType::King) && forall|j: int| #[trigger]
        piece_on(q, j, c, PieceType::King) ==> j == k
}

/// Each side has exactly one king.
pub open spec fn has_kings(q: Seq<Piece>) -> bool {
    &&& exists|k: int| #[trigger] king_on(q, Color::White, k)
    &&& exists|k: int| #[trigger] king_on(q, Color::Black, k)
}

/// Where `c`'s king stands.
pub open spec fn king_of(q: Seq<Piece>, c: Color) -> int {
    choose|k: int| king_on(q, c, k)
}

pub proof fn lemma_king_of(q: Seq<Piece>, c: Color)
    requires
        has_kings(q),
    ensures
        king_on(q, c, king_of(q, c)),
        0 <= king_of(q, c) < 100,
        col_at(q, king_of(q, c), c),
        kind_at(q, king_of(q, c), PieceType::King),
{
    assert(exists|k: int| #[trigger] king_on(q, c, k)) by {
        match c {
            Color::White => {},
            Color::Black => {},
        }
    }
    lemma_piece_on(q, king_of(q, c), c, PieceType::King);
}

/// A king square found is the king square.
pub proof fn lemma_king_is(q: Seq<Piece>, c: Color, k: int)
    requires
        king_on(q, c, k),
    ensures
        king_of(q, c) == k,
{
    assert(king_on(q, c, king_of(q, c)));
}

/// Is `c`'s king attacked?
pub open spec fn in_check_at(q: Seq<Piece>, c: Color) -> bool {
    attacked(q, occ_of(q), c.flip(), king_of(q, c))
}

/// Does the piece on `a` give check to `c`?
pub open spec fn is_checker(q: Seq<Piece>, c: Color, a: int) -> bool {
    attacker(q, occ_of(q), king_of(q, c), a) && col_at(q, a, c.flip())
}

pub open spec fn straight_kind(pt: PieceType) -> bool {
    pt == PieceType::Rook || pt == PieceType::Queen || pt == PieceType::Marshal
}

pub open spec fn diagonal_kind(pt: PieceType) -> bool {
    pt == PieceType::Bishop || pt == PieceType::Queen || pt == PieceType::Cardinal
}

pub open spec fn knight_kind(pt: PieceType) -> bool {
    pt == PieceType::Knight || pt == PieceType::Marshal || pt == PieceType::Cardinal
}

/// An enemy slider on a line with `c`'s king, whatever stands in between.
pub open spec fn is_sniper(q: Seq<Piece>, c: Color, a: int) -> bool {
    col_at(q, a, c.flip()) && ((rook_line(king_of(q, c), a) && straight_kind(q[a].kind())) || (
    bishop_line(king_of(q, c), a) && diagonal_kind(q[a].kind())))
}

/// A piece that is not itself a sniper, between `c`'s king and the sniper `a`.
pub open spec fn screens(q: Seq<Piece>, c: Color, a: int, x: int) -> bool {
    between_sq(king_of(q, c), a, x) && occ_at(q, x) && !is_sniper(q, c, x)
}

/// `x` stands alone between `c`'s king and the sniper `a`.
pub open spec fn lone_screen(q: Seq<Piece>, c: Color, a: int, x: int) -> bool {
    is_sniper(q, c, a) && screens(q, c, a, x) && forall|y: int| #[trigger]
        screens(q, c, a, y) ==> y == x
}

/// `x` stands alone between `c`'s king and some enemy slider.
pub open spec fn is_blocker(q: Seq<Piece>, c: Color, x: int) -> bool {
    exists|a: int| #[trigger] lone_screen(q, c, a, x)
}

/// May `c` still promote a pawn to `pt`?
pub open spec fn promo_open(q: Seq<Piece>, c: Color, pt: PieceType) -> bool {
    count_of(q, Piece::of(c, pt)) < promo_max(pt)
}

// -- moves ---------------------------------------------------------------------------

/// One step forward for `c`, as a difference of square numbers.
pub open spec fn forward_of(c: Color) -> int {
    match c {
        Color::White => 10,
        Color::Black => -10,
    }
}

/// A pawn push: one square ahead, or two from the third rank, onto empty squares.
pub open spec fn pushes(q: Seq<Piece>, us: Color, f: int, t: int) -> bool {
    ||| t == f + forward_of(us) && empty_at(q, t)
    ||| t == f + 2 * forward_of(us) && rel_rank(us, f) == 2 && empty_at(q, f + forward_of(us))
        && empty_at(q, t)
}

/// The promotion field fits the destination: optional on the eighth and ninth
/// rank, mandatory on the tenth, impossible before, and only to a type that the
/// side is missing.
pub open spec fn promo_fits(q: Seq<Piece>, us: Color, m: Move, t: int) -> bool {
    if m.is_promotion() {
        rel_rank(us, t) >= 7 && promo_open(q, us, m.promo_kind())
    } else {
        rel_rank(us, t) != 9
    }
}

/// Is `m` a way for `us` to move, king safety aside?
pub open spec fn reaches(q: Seq<Piece>, us: Color, ep: Square, m: Move) -> bool {
    let f = m.from().0 as int;
    let t = m.to().0 as int;
    &&& f < 100
    &&& t < 100
    &&& f != t
    &&& col_at(q, f, us)
    &&& if m.is_en_passant() {
        q[f].kind() == PieceType::Pawn && m.to() == ep && !m.is_promotion() && pawn_att(us, f, t)
    } else {
        !col_at(q, t, us) && if q[f].kind() == PieceType::Pawn {
            promo_fits(q, us, m, t) && if col_at(q, t, us.flip()) {
                pawn_att(us, f, t)
            } else {
                pushes(q, us, f, t)
            }
        } else {
            !m.is_promotion() && type_att(q[f].kind(), f, occ_of(q), t)
        }
    }
}

/// The square of the pawn that `us` captures en passant by moving to `t`.
pub open spec fn victim_of(us: Color, t: int) -> int {
    t - forward_of(us)
}

/// What arrives on the destination.
pub open spec fn arriving(q: Seq<Piece>, us: Color, m: Move) -> Piece {
    if !m.is_en_passant() && m.is_promotion() {
        Piece::of(us, m.promo_kind())
    } else {
        q[m.from().0 as int]
    }
}

/// The placement after `us` plays `m`.
pub open spec fn moved(q: Seq<Piece>, us: Color, m: Move) -> Seq<Piece> {
    let f = m.from().0 as int;
    let t = m.to().0 as int;
    let cleared = if m.is_en_passant() {
        q.update(victim_of(us, t), Piece::none())
    } else {
        q
    };
    cleared.update(f, Piece::none()).update(t, arriving(q, us, m))
}

/// Is `m` a legal move: a way to move that leaves the own king safe?
pub open spec fn legal(q: Seq<Piece>, us: Color, ep: Square, m: Move) -> bool {
    reaches(q, us, ep, m) && !in_check_at(moved(q, us, m), us)
}

/// The en passant square that `m` leaves behind: the square a double push
/// crossed, if an enemy pawn stands ready to capture there.
pub open spec fn ep_after(q: Seq<Piece>, us: Color, m: Move) -> Square {
    let f = m.from().0 as int;
    let t = m.to().0 as int;
    let cross = (f + t) / 2;
    if !m.is_en_passant() && q[f].kind() == PieceType::Pawn && abs(rk(f) - rk(t)) == 2 && exists|
        a: int,
    | #[trigger]
        pawn_att(us, cross, a) && piece_on(moved(q, us, m), a, us.flip(), PieceType::Pawn) {
        Square(cross as u8)
    } else {
        Square::none()
    }
}

/// Is `ep` a square on which `us` can capture en passant: empty, with an enemy
/// pawn in front, an empty square behind, and an own pawn ready?
pub open spec fn ep_real(q: Seq<Piece>, us: Color, ep: int) -> bool {
    &&& 0 <= ep < 100
    &&& rel_rank(us, ep) == 6
    &&& empty_at(q, ep)
    &&& piece_on(q, ep - forward_of(us), us.flip(), PieceType::Pawn)
    &&& empty_at(q, ep + forward_of(us))
    &&& exists|a: int| #[trigger]
        pawn_att(us.flip(), ep, a) && piece_on(q, a, us, PieceType::Pawn)
}

/// No pawn stands on the first or the last rank.
pub open spec fn pawns_inside(q: Seq<Piece>) -> bool {
    forall|i: int| #[trigger]
        kind_at(q, i, PieceType::Pawn) ==> 10 <= i < 90
}

// -- hash keys -----------------------------------------------------------------------

/// What the content of square `i` contributes to the key.
pub open spec fn square_key(p: Piece, i: int) -> u64 {
    if p.valid() {
        psq_key(p.0 as int, i)
    } else {
        0
    }
}

/// What the content of square `i` contributes to the pawn key.
pub open spec fn square_pawn_key(p: Piece, i: int) -> u64 {
    if p.valid() && p.kind() == PieceType::Pawn {
        psq_key(p.0 as int, i)
    } else {
        0
    }
}

/// The contributions of the first `n` squares together.
pub open spec fn keys_upto(q: Seq<Piece>, f: spec_fn(Piece, int) -> u64, n: int) -> u64
    decreases n,
{
    if n <= 0 {
        0
    } else {
        keys_upto(q, f, n - 1) ^ f(q[n - 1], n - 1)
    }
}

/// The key of a placement.
pub open spec fn placement_key(q: Seq<Piece>) -> u64 {
    keys_upto(q, |p: Piece, i: int| square_key(p, i), 100)
}

/// The key of the pawns of a placement.
pub open spec fn pawn_key_of(q: Seq<Piece>) -> u64 {
    keys_upto(q, |p: Piece, i: int| square_pawn_key(p, i), 100)
}

/// The key of an en passant square, 0 for none.
pub open spec fn ep_part(ep: Square) -> u64 {
    if ep == Square::none() {
        0
    } else {
        ep_key(ep.0 as int)
    }
}

/// The key of the side to move, 0 for White.
pub open spec fn side_part(c: Color) -> u64 {
    match c {
        Color::White => 0u64,
        Color::Black => side_key(),
    }
}

/// The key of a position.
pub open spec fn position_key(q: Seq<Piece>, ep: Square, stm: Color) -> u64 {
    placement_key(q) ^ ep_part(ep) ^ side_part(stm)
}

pub proof fn lemma_xor(a: u64, b: u64, c: u64)
    ensures
        a ^ b == b ^ a,
        (a ^ b) ^ c == a ^ (b ^ c),
        a ^ a == 0,
        a ^ 0 == a,
        0 ^ a == a,
        (a ^ b) ^ b == a,
        (a ^ b) ^ c == (a ^ c) ^ b,
{
    assert(a ^ b == b ^ a && (a ^ b) ^ c == a ^ (b ^ c) && a ^ a == 0 && a ^ 0 == a && 0 ^ a == a
        && (a ^ b) ^ b == a && (a ^ b) ^ c == (a ^ c) ^ b) by (bit_vector);
}

/// Changing one square changes the key by the two contributions.
pub proof fn lemma_keys_update(q: Seq<Piece>, f: spec_fn(Piece, int) -> u64, s: int, p: Piece, n: int)
    requires
        0 <= s < q.len(),
        0 <= n <= q.len(),
    ensures
        keys_upto(q.update(s, p), f, n) == if s < n {
            (keys_upto(q, f, n) ^ f(q[s], s)) ^ f(p, s)
        } else {
            keys_upto(q, f, n)
        },
    decreases n,
{
    if n > 0 {
        lemma_keys_update(q, f, s, p, n - 1);
        let a = keys_upto(q, f, n - 1);
        if s == n - 1 {
            lemma_xor(a, f(q[s], s), f(p, s));
        } else if s < n - 1 {
            let x = f(q[s], s);
            let y = f(p, s);
            let z = f(q[n - 1], n - 1);
            lemma_xor(a, x, z);
            lemma_xor(a ^ x, y, z);
        }
    }
}

/// The two placement keys after changing one square.
pub proof fn lemma_key_update(q: Seq<Piece>, s: int, p: Piece)
    requires
        q.len() == 100,
        0 <= s < 100,
    ensures
        placement_key(q.update(s, p)) == (placement_key(q) ^ square_key(q[s], s)) ^ square_key(
            p,
            s,
        ),
        pawn_key_of(q.update(s, p)) == (pawn_key_of(q) ^ square_pawn_key(q[s], s))
            ^ square_pawn_key(p, s),
{
    lemma_keys_update(q, |p: Piece, i: int| square_key(p, i), s, p, 100);
    lemma_keys_update(q, |p: Piece, i: int| square_pawn_key(p, i), s, p, 100);
}

/// An empty board has key 0.
pub proof fn lemma_key_empty(q: Seq<Piece>, f: spec_fn(Piece, int) -> u64, n: int)
    requires
        forall|i: int| 0 <= i < n ==> f(#[trigger] q[i], i) == 0,
        0 <= n <= q.len(),
    ensures
        keys_upto(q, f, n) == 0,
    decreases n,
{
    if n > 0 {
        lemma_key_empty(q, f, n - 1);
        lemma_xor(0, 0, 0);
    }
}

} // verus!
