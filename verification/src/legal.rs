//! Which moves are legal, and which give check.

use vstd::prelude::*;
use crate::attacks::{
    Tables, aligned, between, bishop_attacks, pawn_attacks, piece_attacks, rook_attacks,
};
use crate::board::{Board, checks_from, lemma_attack_view};
use crate::geometry::{
    between_sq, bishop_line, dir, dist, is_dir, king_att, knight_att, lemma_dir,
    lemma_leap_between, lemma_ray_board, lemma_ray_flip, lemma_ray_order, lemma_ray_trans,
    lemma_rook_is_line, lemma_rook_sym, line_sq, on_ray, opp, pawn_att, piece_att, rook_line,
};
use crate::play::{lemma_moved, lemma_moved_kings};
use crate::position::{
    arriving, attacked, attacker, col_at, diagonal_kind, ep_real, forward_of, has_kings,
    in_check_at, is_blocker, is_checker, is_placement, is_sniper, king_of, legal, lemma_king_of,
    lemma_occ_of, lemma_piece, lemma_piece_of, lemma_piece_on, lone_screen, moved, occ_at, occ_of,
    pawns_inside, pushes, reaches, screens, straight_kind, victim_of,
};
use crate::squareset::{SquareSet, bit, group_bits, lemma_bits_equal, lemma_squares_members};
use crate::types::{Color, Move, Piece, PieceType, Square, promo_max, rel_rank};

verus! {

broadcast use {group_bits, lemma_occ_of};

// -- attacks taken apart --------------------------------------------------------------

/// The part of an attack that nothing can block.
pub open spec fn leaps(p: Piece, a: int, s: int) -> bool {
    p.valid() && match p.kind() {
        PieceType::Pawn => pawn_att(p.col(), a, s),
        PieceType::Knight => knight_att(a, s),
        PieceType::Marshal => knight_att(a, s),
        PieceType::Cardinal => knight_att(a, s),
        PieceType::King => king_att(a, s),
        _ => false,
    }
}

/// `p` on `a` is a slider on a line with `s`.
pub open spec fn lined(p: Piece, s: int, a: int) -> bool {
    p.valid() && ((rook_line(s, a) && straight_kind(p.kind())) || (bishop_line(s, a)
        && diagonal_kind(p.kind())))
}

/// Nothing of `occ` stands strictly between `s` and `a`.
pub open spec fn clear_between(s: int, a: int, occ: u128) -> bool {
    forall|u: int| #[trigger] between_sq(s, a, u) ==> !bit(occ, u)
}

pub proof fn lemma_att_parts(p: Piece, a: int, occ: u128, s: int)
    ensures
        piece_att(p, a, occ, s) <==> leaps(p, a, s) || (lined(p, s, a) && clear_between(s, a, occ)),
        leaps(p, a, s) ==> forall|u: int| !#[trigger] between_sq(s, a, u),
        piece_att(p, a, occ, s) ==> 0 <= a < 100 && 0 <= s < 100 && a != s,
{
    lemma_rook_sym(s, occ, a);
    lemma_rook_sym(a, occ, s);
    lemma_rook_is_line(s, occ, a);
    lemma_dir(s, a);
    let d = dir(s, a);
    assert(clear_between(s, a, occ) <==> forall|u: int| #[trigger]
        on_ray(s, d, u) && on_ray(u, d, a) ==> !bit(occ, u)) by {
        if clear_between(s, a, occ) {
            assert forall|u: int| #[trigger] on_ray(s, d, u) && on_ray(u, d, a) implies !bit(
                occ,
                u,
            ) by {
                assert(between_sq(s, a, u));
            }
        }
    }
    if leaps(p, a, s) {
        assert(knight_att(s, a) || king_att(s, a) || pawn_att(Color::White, s, a) || pawn_att(
            Color::Black,
            s,
            a,
        ));
        assert forall|u: int| !#[trigger] between_sq(s, a, u) by {
            lemma_leap_between(s, a, u);
        }
        reveal(knight_att);
        reveal(king_att);
        reveal(pawn_att);
    }
    if lined(p, s, a) {
        lemma_ray_board(s, d, a);
    }
}

pub proof fn lemma_between(s: int, a: int, u: int)
    requires
        between_sq(s, a, u),
    ensures
        0 <= s < 100,
        0 <= a < 100,
        0 <= u < 100,
        u != s,
        u != a,
        s != a,
        dir(s, u) == dir(s, a),
        is_dir(dir(s, a)),
        on_ray(s, dir(s, a), a),
{
    lemma_ray_trans(s, dir(s, a), u, a);
    lemma_ray_board(s, dir(s, a), u);
    lemma_ray_board(u, dir(s, a), a);
    lemma_ray_board(s, dir(s, a), a);
}

/// The slider nearest to `c`'s king on the line to the sniper `a`.
proof fn lemma_nearest_sniper(q: Seq<Piece>, c: Color, a: int) -> (s: int)
    requires
        is_sniper(q, c, a),
    ensures
        is_sniper(q, c, s),
        s == a || between_sq(king_of(q, c), a, s),
        dir(king_of(q, c), s) == dir(king_of(q, c), a),
        forall|u: int| #[trigger]
            between_sq(king_of(q, c), s, u) ==> !is_sniper(q, c, u) && between_sq(
                king_of(q, c),
                a,
                u,
            ),
    decreases dist(king_of(q, c), a),
{
    let k = king_of(q, c);
    if exists|u: int| #[trigger] between_sq(k, a, u) && is_sniper(q, c, u) {
        let u = choose|u: int| #[trigger] between_sq(k, a, u) && is_sniper(q, c, u);
        lemma_between(k, a, u);
        lemma_ray_trans(k, dir(k, a), u, a);
        let s = lemma_nearest_sniper(q, c, u);
        let d = dir(k, a);
        if s != u {
            lemma_between(k, u, s);
            lemma_ray_trans(s, d, u, a);
        }
        assert forall|w: int| #[trigger] between_sq(k, s, w) implies !is_sniper(q, c, w)
            && between_sq(k, a, w) by {
            assert(between_sq(k, u, w));
            lemma_ray_trans(w, d, u, a);
        }
        s
    } else {
        a
    }
}

// -- the occupied squares after a move --------------------------------------------------

pub proof fn lemma_occ_after(q: Seq<Piece>, us: Color, ep: Square, m: Move, u: int)
    requires
        is_placement(q),
        reaches(q, us, ep, m),
        m.is_en_passant() ==> ep_real(q, us, ep.0 as int),
    ensures
        bit(occ_of(moved(q, us, m)), u) == (0 <= u < 100 && (u == m.to().0 || (occ_at(q, u) && u
            != m.from().0 && !(m.is_en_passant() && u == victim_of(us, m.to().0 as int))))),
{
    lemma_moved(q, us, ep, m);
}

/// No move jumps over a piece.
proof fn lemma_no_jump(q: Seq<Piece>, us: Color, ep: Square, m: Move, u: int)
    requires
        is_placement(q),
        reaches(q, us, ep, m),
        !m.is_en_passant(),
        between_sq(m.from().0 as int, m.to().0 as int, u),
    ensures
        !occ_at(q, u),
{
    let f = m.from().0 as int;
    let t = m.to().0 as int;
    lemma_piece(q[f]);
    if q[f].kind() == PieceType::Pawn {
        if col_at(q, t, us.flip()) {
            lemma_leap_between(f, t, u);
        } else {
            reveal(on_ray);
            reveal(dir);
            assert(u == f + forward_of(us));
        }
    } else {
        let p = q[f];
        assert(piece_att(p, f, occ_of(q), t));
        lemma_att_parts(p, t, occ_of(q), f);
        lemma_rook_sym(f, occ_of(q), t);
        assert(piece_att(p, t, occ_of(q), f));
        if leaps(p, t, f) {
            assert(false);
        }
    }
}

/// A piece that stands between `k` and `a` and moves along their line without
/// passing `k` or `a` stays between them.
proof fn lemma_stays_on_line(q: Seq<Piece>, us: Color, ep: Square, m: Move, k: int, a: int)
    requires
        is_placement(q),
        reaches(q, us, ep, m),
        !m.is_en_passant(),
        between_sq(k, a, m.from().0 as int),
        occ_at(q, k),
        occ_at(q, a),
        m.to().0 != k,
        line_sq(k, m.from().0 as int, m.to().0 as int),
    ensures
        m.to().0 == a || between_sq(k, a, m.to().0 as int),
{
    let f = m.from().0 as int;
    let t = m.to().0 as int;
    let d = dir(k, a);
    lemma_between(k, a, f);
    assert(on_ray(k, d, f) && on_ray(f, d, a));
    lemma_ray_board(k, d, f);
    if on_ray(k, d, t) {
        lemma_ray_order(k, d, t, a);
        if on_ray(a, d, t) {
            lemma_ray_trans(f, d, a, t);
            lemma_ray_board(f, d, t);
            assert(between_sq(f, t, a));
            lemma_no_jump(q, us, ep, m, a);
        }
    } else {
        assert(on_ray(k, opp(d), t));
        lemma_ray_flip(k, d, f);
        lemma_ray_trans(f, opp(d), k, t);
        lemma_ray_board(f, opp(d), t);
        assert(between_sq(f, t, k));
        lemma_no_jump(q, us, ep, m, k);
    }
}

// -- king safety ----------------------------------------------------------------------

/// The move to `t` deals with every check: there is at most one checker, and `t`
/// takes it or stands in its way.
pub open spec fn evades(q: Seq<Piece>, us: Color, t: int) -> bool {
    &&& forall|x: int, y: int|
        #[trigger] is_checker(q, us, x) && #[trigger] is_checker(q, us, y) ==> x == y
    &&& forall|x: int| #[trigger]
        is_checker(q, us, x) ==> t == x || between_sq(king_of(q, us), x, t)
}

/// A pinned piece moves along the line of the pin only.
pub open spec fn pin_allows(q: Seq<Piece>, us: Color, f: int, t: int) -> bool {
    is_blocker(q, us, f) ==> line_sq(king_of(q, us), f, t)
}

/// A slider that `f` alone screened from `c`'s king reaches the king once `f` has
/// left the line.
proof fn lemma_screen_opens(
    q: Seq<Piece>,
    us: Color,
    ep: Square,
    m: Move,
    c: Color,
)
    requires
        is_placement(q),
        has_kings(q),
        reaches(q, us, ep, m),
        m.is_en_passant() ==> ep_real(q, us, ep.0 as int),
        is_blocker(q, c, m.from().0 as int),
        !line_sq(king_of(q, c), m.from().0 as int, m.to().0 as int),
    ensures
        attacked(moved(q, us, m), occ_of(moved(q, us, m)), c.flip(), king_of(q, c)),
{
    let f = m.from().0 as int;
    let t = m.to().0 as int;
    let k = king_of(q, c);
    let q1 = moved(q, us, m);
    let a = choose|a: int| #[trigger] lone_screen(q, c, a, f);
    let s = lemma_nearest_sniper(q, c, a);
    lemma_moved(q, us, ep, m);
    lemma_between(k, a, f);
    assert(dir(k, f) == dir(k, a));
    lemma_dir(k, s);
    assert(on_ray(k, dir(k, s), s));
    assert(s != t);
    assert(s != f);
    if m.is_en_passant() {
        lemma_piece_of(us.flip(), PieceType::Pawn);
        assert(s != victim_of(us, t));
    }
    assert(q1[s] == q[s]);
    assert(clear_between(k, s, occ_of(q1))) by {
        assert forall|u: int| #[trigger] between_sq(k, s, u) implies !bit(occ_of(q1), u) by {
            lemma_occ_after(q, us, ep, m, u);
            lemma_between(k, s, u);
            assert(u != t);
            if occ_at(q, u) && u != f {
                assert(screens(q, c, a, u));
            }
        }
    }
    lemma_att_parts(q1[s], s, occ_of(q1), k);
    assert(attacker(q1, occ_of(q1), k, s) && col_at(q1, s, c.flip()));
}

/// An attack on `k` by an unmoved piece that appears with the move comes through
/// the squares that the move emptied.
proof fn lemma_opened_by(q: Seq<Piece>, us: Color, ep: Square, m: Move, k: int, a: int) -> (u: int)
    requires
        is_placement(q),
        reaches(q, us, ep, m),
        m.is_en_passant() ==> ep_real(q, us, ep.0 as int),
        0 <= a < 100,
        moved(q, us, m)[a] == q[a],
        attacker(moved(q, us, m), occ_of(moved(q, us, m)), k, a),
        !attacker(q, occ_of(q), k, a),
    ensures
        between_sq(k, a, u),
        u == m.from().0 || (m.is_en_passant() && u == victim_of(us, m.to().0 as int)),
        lined(q[a], k, a),
        !between_sq(k, a, m.to().0 as int),
        forall|w: int| #[trigger]
            between_sq(k, a, w) && occ_at(q, w) ==> w == m.from().0 || (m.is_en_passant() && w
                == victim_of(us, m.to().0 as int)),
{
    let q1 = moved(q, us, m);
    let t = m.to().0 as int;
    lemma_att_parts(q[a], a, occ_of(q), k);
    lemma_att_parts(q[a], a, occ_of(q1), k);
    assert(!clear_between(k, a, occ_of(q)));
    let u = choose|u: int| #[trigger] between_sq(k, a, u) && bit(occ_of(q), u);
    lemma_occ_after(q, us, ep, m, u);
    lemma_occ_after(q, us, ep, m, t);
    assert forall|w: int| #[trigger] between_sq(k, a, w) && occ_at(q, w) implies w == m.from().0
        || (m.is_en_passant() && w == victim_of(us, m.to().0 as int)) by {
        lemma_occ_after(q, us, ep, m, w);
    }
    u
}

/// Law: a move of a piece other than the king, not en passant, leaves the king
/// safe exactly if it deals with every check and keeps to the line of its pin.
pub proof fn pin_and_evasion_rules(q: Seq<Piece>, us: Color, ep: Square, m: Move)
    requires
        is_placement(q),
        has_kings(q),
        pawns_inside(q),
        !in_check_at(q, us.flip()),
        ep == Square::none() || ep_real(q, us, ep.0 as int),
        reaches(q, us, ep, m),
        !m.is_en_passant(),
        m.from().0 != king_of(q, us),
    ensures
        !in_check_at(moved(q, us, m), us) <==> evades(q, us, m.to().0 as int) && pin_allows(
            q,
            us,
            m.from().0 as int,
            m.to().0 as int,
        ),
{
    let f = m.from().0 as int;
    let t = m.to().0 as int;
    let k = king_of(q, us);
    let q1 = moved(q, us, m);
    let them = us.flip();
    let occ = occ_of(q);
    let occ1 = occ_of(q1);
    lemma_moved(q, us, ep, m);
    lemma_moved_kings(q, us, ep, m);
    lemma_king_of(q, us);
    if in_check_at(q1, us) && evades(q, us, t) && pin_allows(q, us, f, t) {
        let a = choose|a: int| #[trigger] attacker(q1, occ1, k, a) && col_at(q1, a, them);
        assert(a != t && a != f);
        assert(q1[a] == q[a]);
        lemma_att_parts(q[a], a, occ, k);
        lemma_att_parts(q[a], a, occ1, k);
        if attacker(q, occ, k, a) {
            assert(is_checker(q, us, a));
            assert(between_sq(k, a, t));
            lemma_occ_after(q, us, ep, m, t);
            assert(false);
        }
        let u = lemma_opened_by(q, us, ep, m, k, a);
        assert(u == f);
        assert(is_sniper(q, us, a));
        assert(lone_screen(q, us, a, f));
        assert(is_blocker(q, us, f));
        lemma_stays_on_line(q, us, ep, m, k, a);
        assert(false);
    }
    if !in_check_at(q1, us) {
        assert forall|x: int| #[trigger] is_checker(q, us, x) implies t == x || between_sq(
            k,
            x,
            t,
        ) by {
            if t != x {
                assert(x != f);
                assert(q1[x] == q[x]);
                lemma_att_parts(q[x], x, occ, k);
                lemma_att_parts(q[x], x, occ1, k);
                assert(!attacker(q1, occ1, k, x)) by {
                    assert(col_at(q1, x, them));
                }
                assert(!clear_between(k, x, occ1));
                let u = choose|u: int| #[trigger] between_sq(k, x, u) && bit(occ1, u);
                lemma_occ_after(q, us, ep, m, u);
                assert(u == t);
            }
        }
        assert forall|x: int, y: int| #[trigger] is_checker(q, us, x) && #[trigger] is_checker(
            q,
            us,
            y,
        ) implies x == y by {
            lemma_one_way(q, us, x, y, t);
        }
        if is_blocker(q, us, f) && !line_sq(k, f, t) {
            lemma_screen_opens(q, us, ep, m, us);
            assert(false);
        }
    }
}

/// Two checkers cannot be dealt with on one square.
proof fn lemma_one_way(q: Seq<Piece>, us: Color, x: int, y: int, t: int)
    requires
        is_checker(q, us, x),
        is_checker(q, us, y),
        t == x || between_sq(king_of(q, us), x, t),
        t == y || between_sq(king_of(q, us), y, t),
    ensures
        x == y,
{
    let k = king_of(q, us);
    let occ = occ_of(q);
    lemma_att_parts(q[x], x, occ, k);
    lemma_att_parts(q[y], y, occ, k);
    if x != y {
        assert(occ_at(q, x) && occ_at(q, y));
        if t == x {
            assert(between_sq(k, y, x));
        } else if t == y {
            assert(between_sq(k, x, y));
        } else {
            lemma_between(k, x, t);
            lemma_between(k, y, t);
            lemma_ray_order(k, dir(k, t), x, y);
            assert(between_sq(k, x, y) || between_sq(k, y, x));
        }
        assert(false);
    }
}

/// A checker that survives an en passant capture is one whose line the capturing
/// pawn blocks.
proof fn lemma_ep_blocks(q: Seq<Piece>, us: Color, ep: Square, m: Move, x: int)
    requires
        is_placement(q),
        has_kings(q),
        pawns_inside(q),
        !in_check_at(q, us.flip()),
        ep_real(q, us, ep.0 as int),
        m.is_en_passant(),
        legal(q, us, ep, m),
        is_checker(q, us, x),
        x != victim_of(us, m.to().0 as int),
    ensures
        between_sq(king_of(q, us), x, m.to().0 as int),
{
    let k = king_of(q, us);
    let t = m.to().0 as int;
    let q1 = moved(q, us, m);
    lemma_moved(q, us, ep, m);
    lemma_moved_kings(q, us, ep, m);
    lemma_king_of(q, us);
    lemma_piece_of(us, PieceType::King);
    lemma_piece_of(us, PieceType::Pawn);
    assert(k != m.from().0);
    assert(q1[x] == q[x]);
    assert(col_at(q1, x, us.flip()));
    lemma_att_parts(q[x], x, occ_of(q), k);
    lemma_att_parts(q[x], x, occ_of(q1), k);
    assert(!attacker(q1, occ_of(q1), k, x));
    assert(!clear_between(k, x, occ_of(q1)));
    let u = choose|u: int| #[trigger] between_sq(k, x, u) && bit(occ_of(q1), u);
    lemma_occ_after(q, us, ep, m, u);
}

/// Law: no en passant capture answers a double check. One check would have to be
/// the captured pawn's and the other run through the square behind it, which no
/// line to the king does.
pub proof fn no_en_passant_out_of_double_check(
    q: Seq<Piece>,
    us: Color,
    ep: Square,
    m: Move,
    x: int,
    y: int,
)
    requires
        is_placement(q),
        has_kings(q),
        pawns_inside(q),
        !in_check_at(q, us.flip()),
        ep_real(q, us, ep.0 as int),
        m.is_en_passant(),
        legal(q, us, ep, m),
        is_checker(q, us, x),
        is_checker(q, us, y),
    ensures
        x == y,
{
    let k = king_of(q, us);
    let t = m.to().0 as int;
    let v = victim_of(us, t);
    if x != v {
        lemma_ep_blocks(q, us, ep, m, x);
    }
    if y != v {
        lemma_ep_blocks(q, us, ep, m, y);
    }
    if x != v && y != v {
        lemma_one_way(q, us, x, y, t);
    } else if x != y {
        lemma_moved(q, us, ep, m);
        lemma_piece_of(us.flip(), PieceType::Pawn);
        assert(pawn_att(us.flip(), v, k));
        let z = if x == v {
            y
        } else {
            x
        };
        lemma_between(k, z, t);
        reveal(pawn_att);
        reveal(on_ray);
        assert(!on_ray(k, dir(k, z), t));
    }
}

/// Nothing stands between the king and a checker.
pub proof fn lemma_check_path(q: Seq<Piece>, us: Color, x: int, u: int)
    requires
        is_checker(q, us, x),
        between_sq(king_of(q, us), x, u),
    ensures
        !occ_at(q, u),
{
    lemma_att_parts(q[x], x, occ_of(q), king_of(q, us));
}

/// A king move is safe exactly if its destination is not attacked with the king
/// off the board.
pub proof fn lemma_king_move(q: Seq<Piece>, us: Color, ep: Square, m: Move, occ: u128)
    requires
        is_placement(q),
        has_kings(q),
        pawns_inside(q),
        !in_check_at(q, us.flip()),
        ep == Square::none() || ep_real(q, us, ep.0 as int),
        reaches(q, us, ep, m),
        !m.is_en_passant(),
        m.from().0 == king_of(q, us),
        forall|u: int| #[trigger] bit(occ, u) == (occ_at(q, u) && u != m.from().0),
    ensures
        in_check_at(moved(q, us, m), us) == attacked(q, occ, us.flip(), m.to().0 as int),
{
    let f = m.from().0 as int;
    let t = m.to().0 as int;
    let q1 = moved(q, us, m);
    let them = us.flip();
    let occ1 = occ_of(q1);
    lemma_moved(q, us, ep, m);
    lemma_moved_kings(q, us, ep, m);
    assert(clear_same(q, us, t, occ, occ1)) by {
        assert forall|a: int, u: int| #[trigger] between_sq(t, a, u) implies bit(occ, u) == bit(
            occ1,
            u,
        ) by {
            lemma_between(t, a, u);
            lemma_occ_after(q, us, ep, m, u);
        }
    }
    if in_check_at(q1, us) {
        let a = choose|a: int| #[trigger] attacker(q1, occ1, t, a) && col_at(q1, a, them);
        assert(a != t && a != f);
        assert(q1[a] == q[a]);
        lemma_att_parts(q[a], a, occ, t);
        lemma_att_parts(q[a], a, occ1, t);
        assert(attacker(q, occ, t, a) && col_at(q, a, them));
    }
    if attacked(q, occ, them, t) {
        let a = choose|a: int| #[trigger] attacker(q, occ, t, a) && col_at(q, a, them);
        lemma_att_parts(q[a], a, occ, t);
        assert(a != t && a != f);
        assert(q1[a] == q[a]);
        lemma_att_parts(q[a], a, occ1, t);
        assert(attacker(q1, occ1, t, a) && col_at(q1, a, them));
    }
}

/// The two sets of occupied squares agree on every line from `t`.
spec fn clear_same(q: Seq<Piece>, us: Color, t: int, occ: u128, occ1: u128) -> bool {
    forall|a: int, u: int| #[trigger] between_sq(t, a, u) ==> bit(occ, u) == bit(occ1, u)
}

impl Board {
    // -- move validation ----------------------------------------------------

    /// Legality of a pseudo-legal move: does it leave our own king safe?
    ///
    /// The generator already restricts targets so that only three cases reach
    /// here in anger: en passant, king moves, and pinned pieces.
    pub fn is_legal(&self, t: &Tables, m: Move) -> (r: bool)
        requires
            self.wf(),
            reaches(self.q(), self.stm, self.ep, m),
        ensures
            m.is_en_passant() || m.from().0 == king_of(self.q(), self.stm) ==> r
                == self.legal_here(m),
            !m.is_en_passant() && m.from().0 != king_of(self.q(), self.stm) ==> r == pin_allows(
                self.q(),
                self.stm,
                m.from().0 as int,
                m.to().0 as int,
            ),
            !m.is_en_passant() && m.from().0 != king_of(self.q(), self.stm) && evades(
                self.q(),
                self.stm,
                m.to().0 as int,
            ) ==> r == self.legal_here(m),
    {
        let ghost q = self.q();
        let us = self.stm;
        let them = us.flip();
        let from = m.from();
        let to = m.to();
        let ksq = self.king_sq(us);
        proof {
            lemma_moved(q, us, self.ep, m);
            lemma_moved_kings(q, us, self.ep, m);
            lemma_king_of(q, us);
            if !m.is_en_passant() && from.0 != king_of(q, us) {
                pin_and_evasion_rules(q, us, self.ep, m);
            }
        }
        if m.is_en_passant() {
            let cap_ss = SquareSet::from_square(Board::ep_victim(us, to));
            let occ = (self.occupied() - SquareSet::from_square(from) - cap_ss)
                | SquareSet::from_square(to);
            let left = self.attackers_to(t, ksq, occ) & (self.colors(them) - cap_ss);
            let r = left.is_empty();
            proof {
                let q1 = moved(q, us, m);
                let k = king_of(q, us);
                lemma_piece(q[from.0 as int]);
                lemma_piece_of(us.flip(), PieceType::Pawn);
                assert(from.0 != k);
                assert(occ.0 == occ_of(q1)) by {
                    assert forall|u: int| bit(occ.0, u) == bit(occ_of(q1), u) by {
                        lemma_occ_after(q, us, self.ep, m, u);
                    }
                    lemma_bits_equal(occ.0, occ_of(q1));
                }
                if !r {
                    let a = choose|a: int| #[trigger] left.contains(a);
                    assert(a != to.0);
                    assert(q1[a] == q[a]);
                    assert(attacker(q1, occ_of(q1), k, a) && col_at(q1, a, them));
                }
                if in_check_at(q1, us) {
                    let a = choose|a: int| #[trigger]
                        attacker(q1, occ_of(q1), k, a) && col_at(q1, a, them);
                    assert(a != to.0 && a != from.0);
                    assert(q1[a] == q[a]);
                    assert(left.contains(a));
                }
            }
            return r;
        }
        if from == ksq {
            let occ = self.occupied() - SquareSet::from_square(from);
            proof {
                lemma_king_move(q, us, self.ep, m, occ.0);
            }
            return !self.attacked_by(t, them, to, occ);
        }
        !self.blockers[us.idx()].has(from) || aligned(t, ksq, from, to)
    }

    /// Whether a move from the hash table or from a killer slot is a legal move
    /// in this position. Must be strict: bad moves here corrupt the search.
    #[verifier::spinoff_prover]
    #[verifier::rlimit(40)]
    pub fn is_pseudo_legal(&self, t: &Tables, m: Move) -> (r: bool)
        requires
            self.wf(),
        ensures
            r == self.legal_here(m),
    {
        let ghost q = self.q();
        if m.is_none() || m == Move::null() {
            return false;
        }
        let us = self.stm;
        let from = m.from();
        let to = m.to();
        if from.0 >= 100 || to.0 >= 100 || from == to {
            return false;
        }
        let moved_piece = self.piece_at(from);
        if moved_piece.is_none() || moved_piece.color() != us {
            return false;
        }
        let occ = self.occupied();
        let pt = moved_piece.piece_type();
        proof {
            lemma_piece(moved_piece);
            lemma_piece(q[to.0 as int]);
        }
        if m.is_en_passant() {
            if pt != PieceType::Pawn || to != self.ep {
                return false;
            }
            if m.is_promotion() || !pawn_attacks(t, us, from).has(to) {
                return false;
            }
            return self.is_legal(t, m);
        }
        if self.colors(us).has(to) {
            return false;
        }
        if pt == PieceType::Pawn {
            // Promotion shape. Relative rank 7 and 8 are the optional zone,
            // where both outcomes are legal; 9 is the last rank, where
            // promotion is mandatory.
            let to_rr = to.relative_rank(us);
            if m.is_promotion() {
                if to_rr < 7 {
                    return false;
                }
                // A move that was legal when it was stored can be illegal now,
                // because the piece it promotes to has since been recaptured.
                if !self.promo_available(us, m.promo()) {
                    return false;
                }
            } else if to_rr == 9 {
                return false;
            }
            let ok = if self.colors(us.flip()).has(to) {
                pawn_attacks(t, us, from).has(to)
            } else {
                let one = SquareSet::from_square(from).forward(us) - occ;
                let two = (one & SquareSet::relative_rank(us, 3)).forward(us) - occ;
                proof {
                    lemma_push_sets(q, us, from.0 as int, one, two);
                }
                (one | two).has(to)
            };
            if !ok {
                return false;
            }
        } else {
            if m.is_promotion() {
                return false;
            }
            if !piece_attacks(t, pt, from, occ).has(to) {
                return false;
            }
        }
        assert(reaches(q, us, self.ep, m));
        let ghost k = king_of(q, us);
        proof {
            lemma_king_of(q, us);
            assert(pt == PieceType::King <==> from.0 == k) by {
                lemma_piece_on(q, from.0 as int, us, PieceType::King);
            }
            if from.0 != k {
                pin_and_evasion_rules(q, us, self.ep, m);
            }
        }
        // Must resolve an existing check.
        if self.in_check() && pt != PieceType::King {
            proof {
                lemma_squares_members(self.checkers.0);
            }
            if self.checkers.more_than_one() {
                proof {
                    let s = self.checkers.members();
                    assert(s.contains(s[0]) && s.contains(s[1]));
                    assert(is_checker(q, us, s[0]) && is_checker(q, us, s[1]));
                    assert(s[0] != s[1]);
                    assert(!evades(q, us, to.0 as int));
                }
                return false;
            }
            let checker = self.checkers.lsb();
            assert(is_checker(q, us, checker.0 as int));
            let way = between(t, self.king_sq(us), checker) | self.checkers;
            proof {
                assert forall|x: int| #[trigger] is_checker(q, us, x) implies x == checker.0 by {
                    assert(self.checkers.contains(x));
                    assert(self.checkers.members().contains(x));
                }
                assert(way.contains(to.0 as int) <==> evades(q, us, to.0 as int)) by {
                    if way.contains(to.0 as int) && bit(self.checkers.0, to.0 as int) {
                        assert(is_checker(q, us, to.0 as int));
                    }
                }
            }
            if !way.has(to) {
                return false;
            }
        }
        proof {
            if self.checkers.0 == 0 {
                assert forall|x: int| !#[trigger] is_checker(q, us, x) by {
                    assert(!bit(self.checkers.0, x));
                }
                assert(evades(q, us, to.0 as int));
            }
        }
        self.is_legal(t, m)
    }

    /// Does `m` give check to the opponent? `m` must be legal.
    #[verifier::spinoff_prover]
    #[verifier::rlimit(60)]
    pub fn gives_check(&self, t: &Tables, m: Move) -> (r: bool)
        requires
            self.wf(),
            self.check_square_info(),
            self.legal_here(m),
        ensures
            r == in_check_at(moved(self.q(), self.stm, m), self.stm.flip()),
    {
        let ghost q = self.q();
        let from = m.from();
        let to = m.to();
        let us = self.stm;
        let them = us.flip();
        let them_king = self.king_sq(them);
        let pt = self.piece_at(from).piece_type();
        let ghost q1 = moved(q, us, m);
        let ghost k = king_of(q, them);
        let ghost f = from.0 as int;
        let ghost x = to.0 as int;
        proof {
            lemma_moved(q, us, self.ep, m);
            lemma_moved_kings(q, us, self.ep, m);
            lemma_king_of(q, them);
            lemma_piece(q[f]);
            lemma_piece(arriving(q, us, m));
            assert(us == them.flip());
        }
        // Direct check.
        if m.is_promotion() {
            let occ = (self.occupied() - SquareSet::from_square(from)) | SquareSet::from_square(to);
            proof {
                assert(occ.0 == occ_of(q1)) by {
                    assert forall|u: int| bit(occ.0, u) == bit(occ_of(q1), u) by {
                        lemma_occ_after(q, us, self.ep, m, u);
                    }
                    lemma_bits_equal(occ.0, occ_of(q1));
                }
                assert(promo_max(m.promo_kind()) > 0);
                lemma_piece_of(us, m.promo_kind());
            }
            if piece_attacks(t, m.promo(), to, occ).has(them_king) {
                assert(attacker(q1, occ_of(q1), k, x) && col_at(q1, x, us));
                return true;
            }
            assert(!attacker(q1, occ_of(q1), k, x));
        } else {
            proof {
                lemma_direct_check(q, us, self.ep, m);
            }
            if self.check_squares[pt.idx()].has(to) {
                assert(attacker(q1, occ_of(q1), k, x) && col_at(q1, x, us));
                return true;
            }
            assert(!attacker(q1, occ_of(q1), k, x));
        }
        // Discovered check.
        if self.blockers[them.idx()].has(from) && !aligned(t, them_king, from, to) {
            proof {
                lemma_screen_opens(q, us, self.ep, m, them);
            }
            return true;
        }
        if m.is_en_passant() {
            let cap_sq = Board::ep_victim(us, to);
            let occ = (self.occupied() - SquareSet::from_square(from) - SquareSet::from_square(
                cap_sq,
            )) | SquareSet::from_square(to);
            proof {
                assert(occ.0 == occ_of(q1)) by {
                    assert forall|u: int| bit(occ.0, u) == bit(occ_of(q1), u) by {
                        lemma_occ_after(q, us, self.ep, m, u);
                    }
                    lemma_bits_equal(occ.0, occ_of(q1));
                }
            }
            let straight = rook_attacks(t, them_king, occ) & self.straight_sliders(us);
            let diagonal = bishop_attacks(t, them_king, occ) & self.diagonal_sliders(us);
            let by_straight = straight.any();
            let by_diagonal = diagonal.any();
            let r = by_straight || by_diagonal;
            proof {
                let all = SquareSet(straight.0 | diagonal.0);
                assert forall|a: int| #[trigger] all.contains(a) implies attacker(
                    q1,
                    occ_of(q1),
                    k,
                    a,
                ) && col_at(q1, a, us) by {
                    assert(a != f && a != x && a != cap_sq.0);
                    assert(q1[a] == q[a]);
                    lemma_attack_view(q1, occ_of(q1), k, a);
                }
                if straight.0 != 0 {
                    let a = choose|a: int| #[trigger] straight.contains(a);
                    assert(all.contains(a));
                }
                if diagonal.0 != 0 {
                    let a = choose|a: int| #[trigger] diagonal.contains(a);
                    assert(all.contains(a));
                }
                if in_check_at(q1, them) {
                    let a = choose|a: int| #[trigger]
                        attacker(q1, occ_of(q1), k, a) && col_at(q1, a, us);
                    assert(a != x && a != f);
                    assert(q1[a] == q[a]);
                    assert(!attacker(q, occ_of(q), k, a)) by {
                        if attacker(q, occ_of(q), k, a) {
                            assert(col_at(q, a, us));
                            assert(in_check_at(q, them));
                        }
                    }
                    let u = lemma_opened_by(q, us, self.ep, m, k, a);
                    lemma_attack_view(q1, occ_of(q1), k, a);
                    lemma_att_parts(q[a], a, occ_of(q), k);
                    lemma_rook_sym(k, occ.0, a);
                    lemma_rook_sym(a, occ.0, k);
                    assert(!leaps(q[a], a, k));
                    assert(straight.contains(a) || diagonal.contains(a));
                }
            }
            r
        } else {
            proof {
                if in_check_at(q1, them) {
                    let a = choose|a: int| #[trigger]
                        attacker(q1, occ_of(q1), k, a) && col_at(q1, a, us);
                    assert(a != x && a != f);
                    assert(q1[a] == q[a]);
                    assert(!attacker(q, occ_of(q), k, a)) by {
                        if attacker(q, occ_of(q), k, a) {
                            assert(col_at(q, a, us));
                            assert(in_check_at(q, them));
                        }
                    }
                    let u = lemma_opened_by(q, us, self.ep, m, k, a);
                    assert(u == f);
                    assert(is_sniper(q, them, a));
                    assert(!is_sniper(q, them, f)) by {
                        if is_sniper(q, them, f) {
                            lemma_no_hidden_slider(q, us, k, a, f);
                        }
                    }
                    assert(screens(q, them, a, f));
                    assert(lone_screen(q, them, a, f));
                    assert(is_blocker(q, them, f));
                    lemma_stays_on_line(q, us, self.ep, m, k, a);
                    assert(false);
                }
            }
            false
        }
    }
}

/// A slider standing on the line alone before another would already give check.
proof fn lemma_no_hidden_slider(q: Seq<Piece>, us: Color, k: int, a: int, f: int)
    requires
        k == king_of(q, us.flip()),
        between_sq(k, a, f),
        is_sniper(q, us.flip(), f),
        forall|w: int| #[trigger] between_sq(k, a, w) && occ_at(q, w) ==> w == f,
    ensures
        in_check_at(q, us.flip()),
{
    let d = dir(k, a);
    lemma_between(k, a, f);
    assert(clear_between(k, f, occ_of(q))) by {
        assert forall|u: int| #[trigger] between_sq(k, f, u) implies !bit(occ_of(q), u) by {
            lemma_between(k, f, u);
            lemma_ray_trans(u, d, f, a);
            assert(between_sq(k, a, u));
        }
    }
    lemma_att_parts(q[f], f, occ_of(q), k);
    assert(us.flip().flip() == us);
    assert(attacker(q, occ_of(q), k, f) && col_at(q, f, us));
}

/// Whether the moved piece itself checks can be read off the board before the
/// move.
proof fn lemma_direct_check(q: Seq<Piece>, us: Color, ep: Square, m: Move)
    requires
        is_placement(q),
        has_kings(q),
        pawns_inside(q),
        !in_check_at(q, us.flip()),
        ep == Square::none() || ep_real(q, us, ep.0 as int),
        legal(q, us, ep, m),
        !m.is_promotion(),
    ensures
        attacker(
            moved(q, us, m),
            occ_of(moved(q, us, m)),
            king_of(q, us.flip()),
            m.to().0 as int,
        ) == checks_from(q, us.flip(), q[m.from().0 as int].kind(), m.to().0 as int),
{
    let f = m.from().0 as int;
    let t = m.to().0 as int;
    let them = us.flip();
    let q1 = moved(q, us, m);
    let occ = occ_of(q);
    let occ1 = occ_of(q1);
    let k = king_of(q, them);
    let p = q[f];
    lemma_moved(q, us, ep, m);
    lemma_moved_kings(q, us, ep, m);
    lemma_king_of(q, them);
    lemma_king_of(q, us);
    lemma_piece(p);
    lemma_rook_sym(k, occ, t);
    lemma_rook_sym(t, occ, k);
    assert(them.flip() == us);
    if p.kind() == PieceType::Pawn {
    } else if p.kind() == PieceType::King {
        lemma_piece_on(q, f, us, PieceType::King);
        assert(f == king_of(q, us));
        if king_att(t, k) {
            lemma_king_of(q1, them);
            lemma_rook_sym(t, occ1, k);
            assert(attacker(q1, occ1, t, k) && col_at(q1, k, them));
            assert(in_check_at(q1, us));
        }
    } else {
        assert(!m.is_en_passant());
        lemma_att_parts(p, t, occ, k);
        lemma_att_parts(p, t, occ1, k);
        assert(checks_from(q, them, p.kind(), t) == piece_att(p, t, occ, k));
        if piece_att(p, t, occ, k) && !leaps(p, t, k) {
            assert(clear_between(k, t, occ1)) by {
                assert forall|u: int| #[trigger] between_sq(k, t, u) implies !bit(occ1, u) by {
                    lemma_between(k, t, u);
                    lemma_occ_after(q, us, ep, m, u);
                }
            }
        }
        if piece_att(p, t, occ1, k) && !leaps(p, t, k) && !piece_att(p, t, occ, k) {
            let u = choose|u: int| #[trigger] between_sq(k, t, u) && bit(occ, u);
            lemma_occ_after(q, us, ep, m, u);
            assert(u == f);
            lemma_between(k, t, f);
            let d = dir(k, t);
            assert(clear_between(k, f, occ)) by {
                assert forall|w: int| #[trigger] between_sq(k, f, w) implies !bit(occ, w) by {
                    lemma_between(k, f, w);
                    lemma_ray_trans(w, d, f, t);
                    assert(between_sq(k, t, w));
                    lemma_occ_after(q, us, ep, m, w);
                }
            }
            lemma_att_parts(p, f, occ, k);
            assert(attacker(q, occ, k, f) && col_at(q, f, us));
            assert(in_check_at(q, them));
        }
    }
}

/// The two squares in front of a pawn, as sets.
pub proof fn lemma_push_sets(q: Seq<Piece>, us: Color, f: int, one: SquareSet, two: SquareSet)
    requires
        is_placement(q),
        0 <= f < 100,
        forall|t: int| #[trigger]
            one.contains(t) <==> 0 <= t < 100 && t == f + forward_of(us) && !occ_at(q, t),
        forall|t: int| #[trigger]
            two.contains(t) <==> 0 <= t < 100 && !occ_at(q, t) && one.contains(t - forward_of(us))
                && rel_rank(us, t - forward_of(us)) == 3,
    ensures
        forall|t: int| 0 <= t < 100 ==> (one.contains(t) || two.contains(t) <==> #[trigger] pushes(
            q,
            us,
            f,
            t,
        )),
{
    assert forall|t: int| 0 <= t < 100 implies (one.contains(t) || two.contains(t)
        <==> #[trigger] pushes(q, us, f, t)) by {
        lemma_piece(q[t]);
        lemma_piece(q[f + forward_of(us)]);
        let s = t - forward_of(us);
        assert(two.contains(t) <==> 0 <= t < 100 && !occ_at(q, t) && one.contains(s) && rel_rank(
            us,
            s,
        ) == 3);
        assert(one.contains(s) <==> 0 <= s < 100 && s == f + forward_of(us) && !occ_at(q, s));
    }
}

} // verus!
