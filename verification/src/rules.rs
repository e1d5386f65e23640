//! The rules of the game on square and piece numbers, and the proof that move
//! generation follows them.
//!
//! Square `s` is on file `s % 10` and rank `s / 10`, both counted from White's left
//! corner. Piece `p` is White's below 8 and Black's from 8 on; `p % 8` is 0 for a
//! pawn, then knight, bishop, rook, queen, marshal, cardinal and king; 16 is an
//! empty square.

use vstd::prelude::*;

use crate::squareset::{bit, group_bits, lemma_squares_members, squares};
use crate::geometry::{bishop_att, king_att, knight_att, on_ray, pawn_att, rook_att, slides};
use crate::attacks::Tables;
use crate::board::Board;
use crate::movegen::{
    GEN_ALL, GEN_CAPTURES, GEN_QUIETS, MoveList, gen_of, generate, is_capture, is_quiet, moves_of,
    plain,
};
use crate::movegen_laws::generated_exactly_legal;
use crate::play::{lemma_moved, lemma_moved_kings};
use crate::position::{
    attacker, col_at, ep_real, has_kings, in_check_at, is_checker, is_placement, king_of, king_on,
    legal, lemma_king_is, lemma_king_of, lemma_occ_of, lemma_piece, lemma_set_of, moved, occ_of,
    pawns_inside, piece_on, promo_open, reaches, set_of,
};
use crate::types::{Color, Move, Piece, PieceType, Square, promo_max};

verus! {

broadcast use {group_bits, lemma_occ_of};

/// Does `s` hold nothing?
pub open spec fn free(q: Seq<Piece>, s: int) -> bool {
    0 <= s < 100 && q[s].0 == 16
}

/// 0 for White, 8 for Black: the first number of a side's pieces.
pub open spec fn first_of(c: Color) -> int {
    if c == Color::White {
        0
    } else {
        8
    }
}

/// Does a piece of `c` stand on `s`?
pub open spec fn is_own(q: Seq<Piece>, c: Color, s: int) -> bool {
    0 <= s < 100 && first_of(c) <= q[s].0 < first_of(c) + 8
}

/// `a` and `b` share a rank or a file, with nothing between them.
pub open spec fn open_line(q: Seq<Piece>, a: int, b: int) -> bool {
    ||| a % 10 == b % 10 && a != b && forall|u: int|
        u % 10 == a % 10 && (a < u < b || b < u < a) ==> #[trigger] free(q, u)
    ||| a / 10 == b / 10 && a != b && forall|u: int| a < u < b || b < u < a ==> #[trigger] free(q, u)
}

/// `u` is as many files as ranks away from `a`.
pub open spec fn diagonal_to(a: int, u: int) -> bool {
    u % 10 - a % 10 == u / 10 - a / 10 || u % 10 - a % 10 == a / 10 - u / 10
}

/// `u` lies inside the box that `a` and `b` span.
pub open spec fn inside(a: int, b: int, u: int) -> bool {
    &&& a % 10 < u % 10 < b % 10 || b % 10 < u % 10 < a % 10
    &&& a / 10 < u / 10 < b / 10 || b / 10 < u / 10 < a / 10
}

/// `a` and `b` share a diagonal, with nothing between them.
pub open spec fn open_diagonal(q: Seq<Piece>, a: int, b: int) -> bool {
    &&& a != b
    &&& diagonal_to(a, b)
    &&& forall|u: int|
        0 <= u < 100 && diagonal_to(a, u) && diagonal_to(b, u) && inside(a, b, u)
            ==> #[trigger] free(q, u)
}

/// Two squares one way and one the other.
pub open spec fn knight_apart(a: int, b: int) -> bool {
    let x = b % 10 - a % 10;
    let y = b / 10 - a / 10;
    x * x + y * y == 5
}

/// Neighbours, along a line or a diagonal.
pub open spec fn next_to(a: int, b: int) -> bool {
    a != b && -1 <= b % 10 - a % 10 <= 1 && -1 <= b / 10 - a / 10 <= 1
}

/// The piece on `a` strikes at `s`.
pub open spec fn hits(q: Seq<Piece>, a: int, s: int) -> bool {
    let p = q[a].0 as int;
    &&& 0 <= a < 100
    &&& 0 <= s < 100
    &&& p < 16
    &&& p % 8 == 0 ==> (s % 10 == a % 10 + 1 || s % 10 == a % 10 - 1) && s / 10 == a / 10 + (
    if p < 8 {
        1int
    } else {
        -1
    })
    &&& p % 8 == 1 ==> knight_apart(a, s)
    &&& p % 8 == 2 ==> open_diagonal(q, a, s)
    &&& p % 8 == 3 ==> open_line(q, a, s)
    &&& p % 8 == 4 ==> open_line(q, a, s) || open_diagonal(q, a, s)
    &&& p % 8 == 5 ==> open_line(q, a, s) || knight_apart(a, s)
    &&& p % 8 == 6 ==> open_diagonal(q, a, s) || knight_apart(a, s)
    &&& p % 8 == 7 ==> next_to(a, s)
}

/// `c`'s king is struck at.
pub open spec fn is_struck(q: Seq<Piece>, c: Color) -> bool {
    exists|a: int, k: int| #[trigger]
        hits(q, a, k) && is_own(q, c.flip(), a) && q[k].0 == first_of(c) + 7
}

pub proof fn lemma_open_line(q: Seq<Piece>, a: int, b: int)
    requires
        is_placement(q),
        0 <= a < 100,
        0 <= b < 100,
    ensures
        rook_att(a, occ_of(q), b) == open_line(q, a, b),
{
    reveal(on_ray);
    let occ = occ_of(q);
    if open_line(q, a, b) {
        let d: int = if a % 10 == b % 10 {
            if a < b { 0 } else { 4 }
        } else {
            if a < b { 2 } else { 6 }
        };
        assert(on_ray(a, d, b));
        assert forall|u: int| #[trigger] on_ray(a, d, u) && on_ray(u, d, b) implies !bit(occ, u) by {
            assert(free(q, u));
        }
        assert(slides(a, d, occ, b));
    }
    if rook_att(a, occ, b) {
        let d: int = if slides(a, 0, occ, b) {
            0
        } else if slides(a, 2, occ, b) {
            2
        } else if slides(a, 4, occ, b) {
            4
        } else {
            6
        };
        assert forall|u: int|
            (if d == 0 || d == 4 {
                u % 10 == a % 10
            } else {
                true
            }) && (a < u < b || b < u < a) implies #[trigger] free(q, u) by {
            assert(on_ray(a, d, u) && on_ray(u, d, b));
            assert(!bit(occ, u));
        }
    }
}

pub proof fn lemma_open_diagonal(q: Seq<Piece>, a: int, b: int)
    requires
        is_placement(q),
        0 <= a < 100,
        0 <= b < 100,
    ensures
        bishop_att(a, occ_of(q), b) == open_diagonal(q, a, b),
{
    reveal(on_ray);
    let occ = occ_of(q);
    if open_diagonal(q, a, b) {
        let d: int = if b / 10 > a / 10 {
            if b % 10 > a % 10 { 1 } else { 7 }
        } else {
            if b % 10 > a % 10 { 3 } else { 5 }
        };
        assert(on_ray(a, d, b));
        assert forall|u: int| #[trigger] on_ray(a, d, u) && on_ray(u, d, b) implies !bit(occ, u) by {
            assert(diagonal_to(a, u) && diagonal_to(b, u) && inside(a, b, u));
            assert(free(q, u));
        }
        assert(slides(a, d, occ, b));
    }
    if bishop_att(a, occ, b) {
        let d: int = if slides(a, 1, occ, b) {
            1
        } else if slides(a, 3, occ, b) {
            3
        } else if slides(a, 5, occ, b) {
            5
        } else {
            7
        };
        assert forall|u: int|
            0 <= u < 100 && diagonal_to(a, u) && diagonal_to(b, u) && inside(a, b, u) implies #[trigger] free(
            q,
            u,
        ) by {
            assert(on_ray(a, d, u) && on_ray(u, d, b));
            assert(!bit(occ, u));
        }
    }
}

pub proof fn lemma_knight_apart(a: int, b: int)
    requires
        0 <= a < 100,
        0 <= b < 100,
    ensures
        knight_att(a, b) == knight_apart(a, b),
{
    reveal(knight_att);
    let x = b % 10 - a % 10;
    let y = b / 10 - a / 10;
    assert(x * x + y * y == 5 <==> ((x == 1 || x == -1) && (y == 2 || y == -2)) || ((x == 2 || x
        == -2) && (y == 1 || y == -1))) by (nonlinear_arith);
}

/// Law: each piece attacks as it strikes: the rook along ranks and files, the bishop along
/// diagonals, the queen as both, the knight by its leap, the marshal as rook and
/// knight, the cardinal as bishop and knight, the king next to itself, and the pawn
/// one step diagonally ahead.
pub proof fn pieces_attack_as_they_strike(q: Seq<Piece>, a: int, s: int)
    requires
        is_placement(q),
        0 <= a < 100,
        0 <= s < 100,
    ensures
        attacker(q, occ_of(q), s, a) <==> hits(q, a, s),
{
    lemma_open_line(q, a, s);
    lemma_open_diagonal(q, a, s);
    lemma_knight_apart(a, s);
    reveal(king_att);
    reveal(pawn_att);
}

/// Law: a side with one king is in check exactly when an enemy piece strikes at it.
pub proof fn check_is_a_struck_king(q: Seq<Piece>, c: Color, k: int)
    requires
        is_placement(q),
        king_on(q, c, k),
    ensures
        in_check_at(q, c) <==> is_struck(q, c),
{
    lemma_king_is(q, c, k);
    if in_check_at(q, c) {
        let a = choose|a: int| #[trigger] attacker(q, occ_of(q), k, a) && col_at(q, a, c.flip());
        pieces_attack_as_they_strike(q, a, k);
        assert(hits(q, a, k) && is_own(q, c.flip(), a));
    }
    if is_struck(q, c) {
        let (a, k2) = choose|a: int, k: int| #[trigger]
            hits(q, a, k) && is_own(q, c.flip(), a) && q[k].0 == first_of(c) + 7;
        assert(piece_on(q, k2, c, PieceType::King));
        assert(k2 == k);
        pieces_attack_as_they_strike(q, a, k);
        assert(attacker(q, occ_of(q), k, a) && col_at(q, a, c.flip()));
    }
}

// -- promotion -----------------------------------------------------------------------

/// The piece number `p` stands on two squares or more.
pub open spec fn stands_twice(q: Seq<Piece>, p: int) -> bool {
    exists|i: int, j: int|
        0 <= i < j < 100 && #[trigger] q[i].0 == p && #[trigger] q[j].0 == p
}

/// The piece number `p` stands somewhere.
pub open spec fn stands(q: Seq<Piece>, p: int) -> bool {
    exists|i: int| 0 <= i < 100 && #[trigger] q[i].0 == p
}

/// `c` has lost a piece of type number `kind`, so that a pawn may become one: each side
/// starts with two knights, bishops and rooks, and with one queen, marshal and cardinal.
pub open spec fn is_missing(q: Seq<Piece>, c: Color, kind: int) -> bool {
    let p = first_of(c) + kind;
    ||| 1 <= kind <= 3 && !stands_twice(q, p)
    ||| 4 <= kind <= 6 && !stands(q, p)
}

/// Law: a pawn may become exactly what its side is missing: a knight, bishop or rook
/// while fewer than two of them stand, a queen, marshal or cardinal while none does,
/// and never a pawn or a king.
pub proof fn a_pawn_becomes_what_is_missing(q: Seq<Piece>, c: Color, pt: PieceType)
    requires
        is_placement(q),
    ensures
        promo_open(q, c, pt) <==> is_missing(q, c, pt.idx() as int),
{
    let p = Piece::of(c, pt);
    let w = set_of(q, p);
    lemma_squares_members(w);
    let s = squares(w);
    assert forall|i: int| #[trigger] s.contains(i) <==> 0 <= i < 100 && q[i] == p by {
        lemma_set_of(q, p, i);
    }
    assert(p.0 == first_of(c) + pt.idx());
    if s.len() >= 1 {
        assert(s.contains(s[0]));
        assert(q[s[0]].0 == p.0);
    }
    if s.len() >= 2 {
        assert(s.contains(s[1]));
        assert(s[0] != s[1]);
        let (i, j) = if s[0] < s[1] { (s[0], s[1]) } else { (s[1], s[0]) };
        assert(q[i].0 == p.0 && q[j].0 == p.0);
    }
    if stands(q, p.0 as int) {
        let i = choose|i: int| 0 <= i < 100 && #[trigger] q[i].0 == p.0;
        assert(s.contains(i));
    }
    if stands_twice(q, p.0 as int) {
        let (i, j) = choose|i: int, j: int|
            0 <= i < j < 100 && #[trigger] q[i].0 == p.0 && #[trigger] q[j].0 == p.0;
        assert(s.contains(i) && s.contains(j));
    }
}

/// Law: a board offers exactly what is missing.
pub proof fn a_board_offers_what_is_missing(b: Board, c: Color, pt: PieceType, r: bool)
    requires
        b.wf(),
        call_ensures(Board::promo_available, (&b, c, pt), r),
    ensures
        r <==> is_missing(b.q(), c, pt.idx() as int),
{
    a_pawn_becomes_what_is_missing(b.q(), c, pt);
}

// -- moves ---------------------------------------------------------------------------

/// One rank ahead for `c`.
pub open spec fn ahead(c: Color) -> int {
    if c == Color::White {
        10
    } else {
        -10
    }
}

/// The rank of `s`, counted from 1 at `c`'s own end.
pub open spec fn rank_for(c: Color, s: int) -> int {
    if c == Color::White {
        s / 10 + 1
    } else {
        10 - s / 10
    }
}

/// A pawn of `us` may go from `f` to `t`: one square ahead, two from the third rank, or
/// diagonally to take.
pub open spec fn pawn_goes(q: Seq<Piece>, us: Color, f: int, t: int) -> bool {
    ||| t == f + ahead(us) && free(q, t)
    ||| t == f + 2 * ahead(us) && rank_for(us, f) == 3 && free(q, f + ahead(us)) && free(q, t)
    ||| hits(q, f, t) && is_own(q, us.flip(), t)
}

/// The rules let `us` move from `f` to `t`, the own king aside: the moving piece turns
/// into type number `kind` unless that is 0, and `passing` is a capture en passant on `ep`.
pub open spec fn may_move(q: Seq<Piece>, us: Color, ep: Square, f: int, t: int, kind: int, passing: bool) -> bool {
    &&& is_own(q, us, f)
    &&& 0 <= t < 100
    &&& if passing {
        q[f].0 % 8 == 0 && kind == 0 && t == ep.0 && hits(q, f, t)
    } else if q[f].0 % 8 == 0 {
        &&& pawn_goes(q, us, f, t)
        &&& if kind == 0 {
            rank_for(us, t) < 10
        } else {
            rank_for(us, t) >= 8 && is_missing(q, us, kind)
        }
    } else {
        kind == 0 && hits(q, f, t) && !is_own(q, us, t)
    }
}

/// `q2` is `q` after that move: the piece has left `f` for `t`, perhaps as another
/// one, and a pawn taken in passing has left the square behind it.
pub open spec fn is_after(q: Seq<Piece>, us: Color, f: int, t: int, kind: int, passing: bool, q2: Seq<Piece>) -> bool {
    &&& q2.len() == 100
    &&& q2[f].0 == 16
    &&& q2[t].0 == if kind == 0 {
        q[f].0 as int
    } else {
        first_of(us) + kind
    }
    &&& passing ==> q2[t - ahead(us)].0 == 16
    &&& forall|s: int|
        0 <= s < 100 && s != f && s != t && !(passing && s == t - ahead(us)) ==> #[trigger] q2[s]
            == q[s]
}

/// The number of a move: its squares, the type that a pawn becomes and the mark of a
/// capture en passant.
pub open spec fn move_number(f: int, t: int, kind: int, passing: bool) -> int {
    f + 128 * t + 16384 * kind + if passing {
        131072int
    } else {
        0
    }
}

/// A position in which `us` is to move: one king each, no pawn on an end rank, the
/// other side not in check, and an en passant square only where a capture is at hand.
pub open spec fn can_arise(q: Seq<Piece>, us: Color, ep: Square) -> bool {
    &&& is_placement(q)
    &&& has_kings(q)
    &&& pawns_inside(q)
    &&& !in_check_at(q, us.flip())
    &&& ep == Square::none() || ep_real(q, us, ep.0 as int)
}

pub proof fn lemma_number(m: Move, f: int, t: int, kind: int, passing: bool)
    requires
        0 <= f < 100,
        0 <= t < 100,
        0 <= kind < 8,
        m.0 == move_number(f, t, kind, passing),
    ensures
        m.compact(),
        m.from().0 == f,
        m.to().0 == t,
        m.promo_bits() == kind,
        m.is_promotion() == (kind != 0),
        m.promo_kind().idx() == kind,
        m.is_en_passant() == passing,
{
}

pub proof fn lemma_may_move(q: Seq<Piece>, us: Color, ep: Square, m: Move, f: int, t: int, kind: int, passing: bool)
    requires
        can_arise(q, us, ep),
        0 <= f < 100,
        0 <= t < 100,
        0 <= kind < 8,
        m.0 == move_number(f, t, kind, passing),
    ensures
        m.compact(),
        m.from().0 == f,
        m.to().0 == t,
        m.promo_bits() == kind,
        m.is_en_passant() == passing,
        reaches(q, us, ep, m) <==> may_move(q, us, ep, f, t, kind, passing),
{
    lemma_number(m, f, t, kind, passing);
    pieces_attack_as_they_strike(q, f, t);
    a_pawn_becomes_what_is_missing(q, us, m.promo_kind());
    reveal(pawn_att);
    reveal(knight_att);
    reveal(king_att);
    reveal(on_ray);
    assert(col_at(q, f, us) == is_own(q, us, f));
    assert(col_at(q, t, us) == is_own(q, us, t));
    assert(col_at(q, t, us.flip()) == is_own(q, us.flip(), t));
}

/// Law: the legal moves are those that the rules allow and that leave the own king
/// unstruck.
pub proof fn legal_moves_follow_the_rules(
    q: Seq<Piece>,
    us: Color,
    ep: Square,
    m: Move,
    f: int,
    t: int,
    kind: int,
    passing: bool,
    q2: Seq<Piece>,
)
    requires
        can_arise(q, us, ep),
        0 <= f < 100,
        0 <= t < 100,
        0 <= kind < 8,
        m.0 == move_number(f, t, kind, passing),
        is_after(q, us, f, t, kind, passing, q2),
    ensures
        legal(q, us, ep, m) <==> may_move(q, us, ep, f, t, kind, passing) && !is_struck(q2, us),
{
    lemma_may_move(q, us, ep, m, f, t, kind, passing);
    if reaches(q, us, ep, m) {
        lemma_moved(q, us, ep, m);
        lemma_moved_kings(q, us, ep, m);
        lemma_moved_is_after(q, us, ep, m, f, t, kind, passing, q2);
        lemma_king_of(q2, us);
        check_is_a_struck_king(q2, us, king_of(q2, us));
    }
}

/// Law: what is generated for a board is every move that the rules allow there, king
/// safety included, and nothing else; captures and promotions on the one hand and the
/// rest on the other can be asked for alone.
pub proof fn generated_moves_follow_the_rules(
    b: Board,
    m: Move,
    f: int,
    t: int,
    kind: int,
    passing: bool,
    q2: Seq<Piece>,
)
    requires
        b.wf(),
        0 <= f < 100,
        0 <= t < 100,
        0 <= kind < 8,
        m.0 == move_number(f, t, kind, passing),
        is_after(b.q(), b.stm, f, t, kind, passing, q2),
    ensures
        ({
            let allowed = may_move(b.q(), b.stm, b.ep, f, t, kind, passing) && !is_struck(q2, b.stm);
            let forcing = b.q()[t].0 != 16 || kind != 0 || passing;
            &&& moves_of(gen_of(&b, GEN_ALL)).contains(m) <==> allowed
            &&& moves_of(gen_of(&b, GEN_CAPTURES)).contains(m) <==> allowed && forcing
            &&& moves_of(gen_of(&b, GEN_QUIETS)).contains(m) <==> allowed && !forcing
        }),
{
    lemma_may_move(b.q(), b.stm, b.ep, m, f, t, kind, passing);
    legal_moves_follow_the_rules(b.q(), b.stm, b.ep, m, f, t, kind, passing, q2);
    generated_exactly_legal(gen_of(&b, GEN_ALL));
    generated_exactly_legal(gen_of(&b, GEN_CAPTURES));
    generated_exactly_legal(gen_of(&b, GEN_QUIETS));
    lemma_piece(b.q()[t]);
}

/// Law: a pawn that can safely step onto the last rank may become whatever its side is
/// missing there, one knight, bishop or rook of two being enough, and nothing else; it
/// cannot stay a pawn.
pub proof fn a_pawn_on_the_last_rank_becomes_what_is_missing(b: Board, m: Move, f: int, kind: int, q2: Seq<Piece>)
    requires
        b.wf(),
        0 <= f < 100,
        0 <= kind < 8,
        b.q()[f].0 == first_of(b.stm),
        f / 10 == if b.stm == Color::White {
            8int
        } else {
            1
        },
        b.q()[f + ahead(b.stm)].0 == 16,
        m.0 == move_number(f, f + ahead(b.stm), kind, false),
        is_after(b.q(), b.stm, f, f + ahead(b.stm), kind, false, q2),
        !is_struck(q2, b.stm),
    ensures
        kind == 0 || kind == 7 ==> !moves_of(gen_of(&b, GEN_ALL)).contains(m),
        1 <= kind <= 3 ==> (moves_of(gen_of(&b, GEN_ALL)).contains(m) <==> !stands_twice(
            b.q(),
            first_of(b.stm) + kind,
        )),
        4 <= kind <= 6 ==> (moves_of(gen_of(&b, GEN_ALL)).contains(m) <==> !stands(
            b.q(),
            first_of(b.stm) + kind,
        )),
{
    generated_moves_follow_the_rules(b, m, f, f + ahead(b.stm), kind, false, q2);
}

/// Law: on the eighth and ninth rank a pawn may become something or stay a pawn, and
/// before that it stays one.
pub proof fn promotion_is_optional_before_the_last_rank(b: Board, f: int, t: int, kind: int, stays: Move, turns: Move)
    requires
        b.wf(),
        0 <= f < 100,
        0 <= t < 100,
        1 <= kind < 8,
        b.q()[f].0 == first_of(b.stm),
        stays.0 == move_number(f, t, 0, false),
        turns.0 == move_number(f, t, kind, false),
    ensures
        reaches(b.q(), b.stm, b.ep, turns) <==> rank_for(b.stm, t) >= 8 && is_missing(
            b.q(),
            b.stm,
            kind,
        ) && pawn_goes(b.q(), b.stm, f, t),
        reaches(b.q(), b.stm, b.ep, stays) <==> rank_for(b.stm, t) <= 9 && pawn_goes(
            b.q(),
            b.stm,
            f,
            t,
        ),
{
    lemma_may_move(b.q(), b.stm, b.ep, stays, f, t, 0, false);
    lemma_may_move(b.q(), b.stm, b.ep, turns, f, t, kind, false);
}

/// Law: a board takes a remembered move for playable exactly when the rules allow it.
pub proof fn a_remembered_move_follows_the_rules(
    b: Board,
    tables: Tables,
    m: Move,
    f: int,
    t: int,
    kind: int,
    passing: bool,
    q2: Seq<Piece>,
    r: bool,
)
    requires
        b.wf(),
        call_ensures(Board::is_pseudo_legal, (&b, &tables, m), r),
        0 <= f < 100,
        0 <= t < 100,
        0 <= kind < 8,
        m.0 == move_number(f, t, kind, passing),
        is_after(b.q(), b.stm, f, t, kind, passing, q2),
    ensures
        r <==> may_move(b.q(), b.stm, b.ep, f, t, kind, passing) && !is_struck(q2, b.stm),
{
    legal_moves_follow_the_rules(b.q(), b.stm, b.ep, m, f, t, kind, passing, q2);
}

/// Law: a move gives check exactly when the enemy king is struck at after it.
pub proof fn a_check_strikes_at_the_king(
    b: Board,
    tables: Tables,
    m: Move,
    f: int,
    t: int,
    kind: int,
    passing: bool,
    q2: Seq<Piece>,
    r: bool,
)
    requires
        b.wf(),
        b.check_square_info(),
        b.legal_here(m),
        call_ensures(Board::gives_check, (&b, &tables, m), r),
        0 <= f < 100,
        0 <= t < 100,
        0 <= kind < 8,
        m.0 == move_number(f, t, kind, passing),
        is_after(b.q(), b.stm, f, t, kind, passing, q2),
    ensures
        r <==> is_struck(q2, b.stm.flip()),
{
    let q = b.q();
    let us = b.stm;
    lemma_may_move(q, us, b.ep, m, f, t, kind, passing);
    lemma_moved_is_after(q, us, b.ep, m, f, t, kind, passing, q2);
    lemma_moved_kings(q, us, b.ep, m);
    lemma_moved(q, us, b.ep, m);
    lemma_king_of(q2, us.flip());
    check_is_a_struck_king(q2, us.flip(), king_of(q2, us.flip()));
}

/// Law: a board says that it is in check exactly when the king of the side to move is
/// struck at.
pub proof fn a_board_knows_its_checks(b: Board, r: bool)
    requires
        b.wf(),
        call_ensures(Board::in_check, (&b,), r),
    ensures
        r <==> is_struck(b.q(), b.stm),
{
    lemma_king_of(b.q(), b.stm);
    check_is_a_struck_king(b.q(), b.stm, king_of(b.q(), b.stm));
}

/// The placement after a move is what the rules say.
pub proof fn lemma_moved_is_after(
    q: Seq<Piece>,
    us: Color,
    ep: Square,
    m: Move,
    f: int,
    t: int,
    kind: int,
    passing: bool,
    q2: Seq<Piece>,
)
    requires
        can_arise(q, us, ep),
        0 <= f < 100,
        0 <= t < 100,
        0 <= kind < 8,
        m.0 == move_number(f, t, kind, passing),
        reaches(q, us, ep, m),
    ensures
        is_after(q, us, f, t, kind, passing, q2) <==> moved(q, us, m) == q2,
{
    lemma_may_move(q, us, ep, m, f, t, kind, passing);
    lemma_moved(q, us, ep, m);
    let q1 = moved(q, us, m);
    if is_after(q, us, f, t, kind, passing, q2) {
        assert forall|s: int| 0 <= s < 100 implies #[trigger] q1[s] == q2[s] by {
            if s != f && s != t && !(passing && s == t - ahead(us)) {
                assert(q2[s] == q[s]);
            }
        }
        assert(q1 =~= q2);
    }
}

/// Law: generating for a board fills an empty list with what the rules allow, once each:
/// all of it, the captures and promotions, or the rest.
pub proof fn generating_appends_the_allowed_moves(
    b: Board,
    tables: Tables,
    all: &mut MoveList,
    forcing: &mut MoveList,
    quiet: &mut MoveList,
    m: Move,
    f: int,
    t: int,
    kind: int,
    passing: bool,
    q2: Seq<Piece>,
)
    requires
        b.wf(),
        all.ok(),
        forcing.ok(),
        quiet.ok(),
        call_ensures(generate::<0>, (&b, &tables, all), ()),
        call_ensures(generate::<1>, (&b, &tables, forcing), ()),
        call_ensures(generate::<2>, (&b, &tables, quiet), ()),
        old(all)@.len() == 0,
        old(forcing)@.len() == 0,
        old(quiet)@.len() == 0,
        0 <= f < 100,
        0 <= t < 100,
        0 <= kind < 8,
        m.0 == move_number(f, t, kind, passing),
        is_after(b.q(), b.stm, f, t, kind, passing, q2),
    ensures
        ({
            let allowed = may_move(b.q(), b.stm, b.ep, f, t, kind, passing) && !is_struck(q2, b.stm);
            let takes_or_turns = b.q()[t].0 != 16 || kind != 0 || passing;
            &&& final(all)@.contains(m) <==> allowed
            &&& final(forcing)@.contains(m) <==> allowed && takes_or_turns
            &&& final(quiet)@.contains(m) <==> allowed && !takes_or_turns
            &&& final(all)@.no_duplicates()
        }),
{
    generated_moves_follow_the_rules(b, m, f, t, kind, passing, q2);
    generated_exactly_legal(gen_of(&b, GEN_ALL));
    assert(final(all)@ =~= moves_of(gen_of(&b, GEN_ALL)));
    assert(final(forcing)@ =~= moves_of(gen_of(&b, GEN_CAPTURES)));
    assert(final(quiet)@ =~= moves_of(gen_of(&b, GEN_QUIETS)));
}

/// Law: out of check, a move that the rules allow the king aside is legal where it leaves
/// the king unstruck.
pub proof fn a_pinned_piece_may_not_uncover_its_king(
    b: Board,
    tables: Tables,
    m: Move,
    f: int,
    t: int,
    kind: int,
    passing: bool,
    q2: Seq<Piece>,
    r: bool,
)
    requires
        b.wf(),
        !is_struck(b.q(), b.stm),
        call_ensures(Board::is_legal, (&b, &tables, m), r),
        0 <= f < 100,
        0 <= t < 100,
        0 <= kind < 8,
        m.0 == move_number(f, t, kind, passing),
        may_move(b.q(), b.stm, b.ep, f, t, kind, passing),
        is_after(b.q(), b.stm, f, t, kind, passing, q2),
    ensures
        r <==> !is_struck(q2, b.stm),
{
    let q = b.q();
    lemma_king_of(q, b.stm);
    check_is_a_struck_king(q, b.stm, king_of(q, b.stm));
    legal_moves_follow_the_rules(q, b.stm, b.ep, m, f, t, kind, passing, q2);
    assert forall|x: int| !#[trigger] is_checker(q, b.stm, x) by {}
    assert(crate::legal::evades(q, b.stm, t));
    lemma_may_move(q, b.stm, b.ep, m, f, t, kind, passing);
}

/// Law: a move wins material outright where it takes, turns a pawn into something or
/// takes in passing, and is quiet where it does none of these.
pub proof fn what_wins_material_outright(b: Board, m: Move, f: int, t: int, kind: int, passing: bool, wins: bool, quiet: bool)
    requires
        b.wf(),
        0 <= f < 100,
        0 <= t < 100,
        0 <= kind < 8,
        m.0 == move_number(f, t, kind, passing),
        call_ensures(is_capture, (&b, m), wins),
        call_ensures(is_quiet, (&b, m), quiet),
    ensures
        wins <==> b.mailbox[t].0 != 16 || kind != 0 || passing,
        quiet <==> !wins,
{
    lemma_number(m, f, t, kind, passing);
    lemma_piece(b.q()[t]);
}

/// Law: the inventory of promotions has a bit for each type that is missing.
pub proof fn the_inventory_lists_what_is_missing(b: Board, c: Color, r: u8)
    requires
        b.wf(),
        call_ensures(Board::promo_inventory, (&b, c), r),
    ensures
        r % 2 == 0,
        r / 2 % 2 == 1 <==> is_missing(b.q(), c, 1),
        r / 4 % 2 == 1 <==> is_missing(b.q(), c, 2),
        r / 8 % 2 == 1 <==> is_missing(b.q(), c, 3),
        r / 16 % 2 == 1 <==> is_missing(b.q(), c, 4),
        r / 32 % 2 == 1 <==> is_missing(b.q(), c, 5),
        r / 64 % 2 == 1 <==> is_missing(b.q(), c, 6),
        r < 128,
{
    let q = b.q();
    a_pawn_becomes_what_is_missing(q, c, PieceType::Knight);
    a_pawn_becomes_what_is_missing(q, c, PieceType::Bishop);
    a_pawn_becomes_what_is_missing(q, c, PieceType::Rook);
    a_pawn_becomes_what_is_missing(q, c, PieceType::Queen);
    a_pawn_becomes_what_is_missing(q, c, PieceType::Marshal);
    a_pawn_becomes_what_is_missing(q, c, PieceType::Cardinal);
    assert(promo_open(q, c, PieceType::Knight) == is_missing(q, c, 1));
    assert(promo_open(q, c, PieceType::Bishop) == is_missing(q, c, 2));
    assert(promo_open(q, c, PieceType::Rook) == is_missing(q, c, 3));
    assert(promo_open(q, c, PieceType::Queen) == is_missing(q, c, 4));
    assert(promo_open(q, c, PieceType::Marshal) == is_missing(q, c, 5));
    assert(promo_open(q, c, PieceType::Cardinal) == is_missing(q, c, 6));
}

/// Law: a move is the number of its squares, what the pawn becomes and whether it takes
/// in passing, and gives each of them back.
pub proof fn a_move_is_its_number(f: Square, t: Square, pt: PieceType, plain: Move, turns: Move, passing: Move, promo: PieceType)
    requires
        f.valid(),
        t.valid(),
        pt != PieceType::Pawn,
        pt != PieceType::King,
        call_ensures(Move::new, (f, t), plain),
        call_ensures(Move::promotion, (f, t, pt), turns),
        call_ensures(Move::en_passant, (f, t), passing),
        call_ensures(Move::promo, (turns,), promo),
    ensures
        plain.0 == move_number(f.0 as int, t.0 as int, 0, false),
        turns.0 == move_number(f.0 as int, t.0 as int, pt.idx() as int, false),
        passing.0 == move_number(f.0 as int, t.0 as int, 0, true),
        plain.from() == f && turns.from() == f && passing.from() == f,
        plain.to() == t && turns.to() == t && passing.to() == t,
        turns.is_promotion() && !plain.is_promotion() && !passing.is_promotion(),
        passing.is_en_passant() && !plain.is_en_passant() && !turns.is_en_passant(),
        promo == pt,
{
    assert(turns.promo_bits() == pt.idx());
}

/// Law: a piece is the number of its side and type, and gives both back.
pub proof fn a_piece_is_its_number(c: Color, pt: PieceType, p: Piece, side: Color, kind: PieceType, s: Square, r: u8)
    requires
        s.valid(),
        call_ensures(Piece::new, (c, pt), p),
        call_ensures(Piece::color, (p,), side),
        call_ensures(Piece::piece_type, (p,), kind),
        call_ensures(Square::relative_rank, (s, c), r),
    ensures
        p.0 == first_of(c) + pt.idx(),
        side == c,
        kind == pt,
        r + 1 == rank_for(c, s.0 as int),
{
}

/// Law: a side may have two knights, bishops and rooks, one queen, marshal and cardinal
/// by promotion, and no pawn or king.
pub proof fn how_many_may_stand(pt: PieceType, n: u32)
    requires
        call_ensures(promo_max, (pt,), n),
    ensures
        1 <= pt.idx() <= 3 ==> n == 2,
        4 <= pt.idx() <= 6 ==> n == 1,
        pt.idx() == 0 || pt.idx() == 7 ==> n == 0,
{
}

} // verus!
