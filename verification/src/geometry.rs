//! The geometry of the ten by ten board: directions, rays, lines, and which
//! squares each piece attacks.
//!
//! Squares are numbered 0 to 99, rank by rank. The eight directions are numbered
//! clockwise from north, so the direction opposite to `d` is `d + 4` modulo 8,
//! and the straight directions are the even ones.

use vstd::prelude::*;
use crate::squareset::bit;
use crate::types::{Color, Piece, PieceType};

verus! {

/// The file of square `s`.
pub open spec fn fl(s: int) -> int {
    s % 10
}

/// The rank of square `s`.
pub open spec fn rk(s: int) -> int {
    s / 10
}

pub open spec fn abs(x: int) -> int {
    if x < 0 {
        -x
    } else {
        x
    }
}

/// Does `t` lie on the ray that leaves `s` in direction `d`?
#[verifier::opaque]
pub open spec fn on_ray(s: int, d: int, t: int) -> bool {
    let x = fl(t) - fl(s);
    let y = rk(t) - rk(s);
    0 <= s < 100 && 0 <= t < 100 && if d == 0 {
        x == 0 && y > 0
    } else if d == 1 {
        x == y && x > 0
    } else if d == 2 {
        y == 0 && x > 0
    } else if d == 3 {
        x == -y && x > 0
    } else if d == 4 {
        x == 0 && y < 0
    } else if d == 5 {
        x == y && x < 0
    } else if d == 6 {
        y == 0 && x < 0
    } else if d == 7 {
        x == -y && x < 0
    } else {
        false
    }
}

/// The opposite direction.
pub open spec fn opp(d: int) -> int {
    if d < 4 {
        d + 4
    } else {
        d - 4
    }
}

pub open spec fn is_dir(d: int) -> bool {
    0 <= d < 8
}

pub open spec fn is_straight(d: int) -> bool {
    d == 0 || d == 2 || d == 4 || d == 6
}

pub open spec fn is_diagonal(d: int) -> bool {
    d == 1 || d == 3 || d == 5 || d == 7
}

/// King-move distance.
pub open spec fn dist(s: int, t: int) -> int {
    let x = abs(fl(t) - fl(s));
    let y = abs(rk(t) - rk(s));
    if x < y {
        y
    } else {
        x
    }
}

/// The direction from `a` to `b`, or -1 if they are not aligned.
#[verifier::opaque]
pub open spec fn dir(a: int, b: int) -> int {
    if on_ray(a, 0, b) {
        0
    } else if on_ray(a, 1, b) {
        1
    } else if on_ray(a, 2, b) {
        2
    } else if on_ray(a, 3, b) {
        3
    } else if on_ray(a, 4, b) {
        4
    } else if on_ray(a, 5, b) {
        5
    } else if on_ray(a, 6, b) {
        6
    } else if on_ray(a, 7, b) {
        7
    } else {
        -1
    }
}

/// Is `t` strictly between the aligned squares `a` and `b`?
pub open spec fn between_sq(a: int, b: int, t: int) -> bool {
    on_ray(a, dir(a, b), t) && on_ray(t, dir(a, b), b)
}

/// Is `t` on the whole line through the aligned squares `a` and `b`?
pub open spec fn line_sq(a: int, b: int, t: int) -> bool {
    dir(a, b) >= 0 && (t == a || on_ray(a, dir(a, b), t) || on_ray(a, opp(dir(a, b)), t))
}

/// A slider on `s` reaches `t` in direction `d`: `t` is on the ray and nothing
/// in `occ` stands strictly before it.
pub open spec fn slides(s: int, d: int, occ: u128, t: int) -> bool {
    on_ray(s, d, t) && forall|u: int| #[trigger]
        on_ray(s, d, u) && on_ray(u, d, t) ==> !bit(occ, u)
}

pub open spec fn rook_att(s: int, occ: u128, t: int) -> bool {
    slides(s, 0, occ, t) || slides(s, 2, occ, t) || slides(s, 4, occ, t) || slides(s, 6, occ, t)
}

pub open spec fn bishop_att(s: int, occ: u128, t: int) -> bool {
    slides(s, 1, occ, t) || slides(s, 3, occ, t) || slides(s, 5, occ, t) || slides(s, 7, occ, t)
}

/// Straight alignment, whatever stands in between.
pub open spec fn rook_line(s: int, t: int) -> bool {
    is_straight(dir(s, t))
}

/// Diagonal alignment, whatever stands in between.
pub open spec fn bishop_line(s: int, t: int) -> bool {
    is_diagonal(dir(s, t))
}

#[verifier::opaque]
pub open spec fn knight_att(s: int, t: int) -> bool {
    let x = abs(fl(t) - fl(s));
    let y = abs(rk(t) - rk(s));
    0 <= s < 100 && 0 <= t < 100 && ((x == 1 && y == 2) || (x == 2 && y == 1))
}

#[verifier::opaque]
pub open spec fn king_att(s: int, t: int) -> bool {
    let x = abs(fl(t) - fl(s));
    let y = abs(rk(t) - rk(s));
    0 <= s < 100 && 0 <= t < 100 && s != t && x <= 1 && y <= 1
}

/// Does a pawn of colour `c` on `s` attack `t`?
#[verifier::opaque]
pub open spec fn pawn_att(c: Color, s: int, t: int) -> bool {
    0 <= s < 100 && 0 <= t < 100 && abs(fl(t) - fl(s)) == 1 && rk(t) - rk(s) == match c {
        Color::White => 1int,
        Color::Black => -1,
    }
}

/// Attacks of a non-pawn piece type.
pub open spec fn type_att(pt: PieceType, s: int, occ: u128, t: int) -> bool {
    match pt {
        PieceType::Knight => knight_att(s, t),
        PieceType::Bishop => bishop_att(s, occ, t),
        PieceType::Rook => rook_att(s, occ, t),
        PieceType::Queen => rook_att(s, occ, t) || bishop_att(s, occ, t),
        PieceType::Marshal => rook_att(s, occ, t) || knight_att(s, t),
        PieceType::Cardinal => bishop_att(s, occ, t) || knight_att(s, t),
        PieceType::King => king_att(s, t),
        PieceType::Pawn => false,
    }
}

/// Does the piece `p`, standing on `s`, attack `t` given the occupied squares
/// `occ`?
pub open spec fn piece_att(p: Piece, s: int, occ: u128, t: int) -> bool {
    p.valid() && if p.kind() == PieceType::Pawn {
        pawn_att(p.col(), s, t)
    } else {
        type_att(p.kind(), s, occ, t)
    }
}

// -- basic facts -----------------------------------------------------------------

pub proof fn lemma_ray_board(s: int, d: int, t: int)
    requires
        on_ray(s, d, t),
    ensures
        0 <= s < 100,
        0 <= t < 100,
        is_dir(d),
        s != t,
        dir(s, t) == d,
{
    reveal(on_ray);
    reveal(dir);
}

pub proof fn lemma_dir(s: int, t: int)
    ensures
        dir(s, t) >= 0 ==> on_ray(s, dir(s, t), t) && is_dir(dir(s, t)),
        dir(s, t) >= 0 <==> dir(t, s) >= 0,
        dir(s, t) >= 0 ==> dir(t, s) == opp(dir(s, t)),
        -1 <= dir(s, t) < 8,
        dir(s, t) < 0 ==> forall|u: int| !#[trigger] on_ray(s, dir(s, t), u),
        dir(s, t) < 0 ==> !on_ray(s, dir(s, t), t),
{
    reveal(on_ray);
    reveal(dir);
}

pub proof fn lemma_ray_flip(s: int, d: int, t: int)
    requires
        is_dir(d),
    ensures
        on_ray(s, d, t) == on_ray(t, opp(d), s),
{
    reveal(on_ray);
}

/// Rays are transitive.
pub proof fn lemma_ray_trans(s: int, d: int, u: int, t: int)
    requires
        on_ray(s, d, u),
        on_ray(u, d, t),
    ensures
        on_ray(s, d, t),
        dist(s, u) < dist(s, t),
{
    reveal(on_ray);
}

/// Two squares on one ray are ordered along it.
pub proof fn lemma_ray_order(s: int, d: int, u: int, t: int)
    requires
        on_ray(s, d, u),
        on_ray(s, d, t),
    ensures
        u == t || on_ray(u, d, t) || on_ray(t, d, u),
        on_ray(u, d, t) == (dist(s, u) < dist(s, t)),
        !(on_ray(u, d, t) && on_ray(t, d, u)),
{
    reveal(on_ray);
}

/// Along the four directions that climb the board square numbers grow.
pub proof fn lemma_ray_climb(s: int, d: int, u: int, t: int)
    requires
        on_ray(s, d, u),
        on_ray(s, d, t),
    ensures
        (d == 0 || d == 1 || d == 7 || d == 2) ==> (on_ray(u, d, t) == (u < t)),
        (d == 4 || d == 3 || d == 5 || d == 6) ==> (on_ray(u, d, t) == (t < u)),
{
    reveal(on_ray);
}

/// The same reach seen from the other end.
pub proof fn lemma_slides_flip(s: int, d: int, occ: u128, t: int)
    requires
        is_dir(d),
    ensures
        slides(s, d, occ, t) == slides(t, opp(d), occ, s),
{
    lemma_ray_flip(s, d, t);
    assert forall|u: int| (#[trigger] on_ray(s, d, u) && on_ray(u, d, t)) == (on_ray(
        t,
        opp(d),
        u,
    ) && on_ray(u, opp(d), s)) by {
        lemma_ray_flip(s, d, u);
        lemma_ray_flip(u, d, t);
    }
    if slides(s, d, occ, t) {
        assert forall|u: int| #[trigger] on_ray(t, opp(d), u) && on_ray(u, opp(d), s) implies !bit(
            occ,
            u,
        ) by {
            assert(on_ray(s, d, u) && on_ray(u, d, t)) by {
                lemma_ray_flip(s, d, u);
                lemma_ray_flip(u, d, t);
            }
        }
    }
    if slides(t, opp(d), occ, s) {
        assert forall|u: int| #[trigger] on_ray(s, d, u) && on_ray(u, d, t) implies !bit(
            occ,
            u,
        ) by {
            assert(on_ray(t, opp(d), u) && on_ray(u, opp(d), s));
        }
    }
}

pub proof fn lemma_rook_sym(s: int, occ: u128, t: int)
    ensures
        rook_att(s, occ, t) == rook_att(t, occ, s),
        bishop_att(s, occ, t) == bishop_att(t, occ, s),
        knight_att(s, t) == knight_att(t, s),
        king_att(s, t) == king_att(t, s),
        pawn_att(Color::White, s, t) == pawn_att(Color::Black, t, s),
{
    lemma_slides_flip(s, 0, occ, t);
    lemma_slides_flip(s, 2, occ, t);
    lemma_slides_flip(s, 4, occ, t);
    lemma_slides_flip(s, 6, occ, t);
    lemma_slides_flip(s, 1, occ, t);
    lemma_slides_flip(s, 3, occ, t);
    lemma_slides_flip(s, 5, occ, t);
    lemma_slides_flip(s, 7, occ, t);
    reveal(knight_att);
    reveal(king_att);
    reveal(pawn_att);
}

/// A slider reach is an alignment with nothing in between.
pub proof fn lemma_rook_is_line(s: int, occ: u128, t: int)
    ensures
        rook_att(s, occ, t) <==> rook_line(s, t) && forall|u: int| #[trigger]
            on_ray(s, dir(s, t), u) && on_ray(u, dir(s, t), t) ==> !bit(occ, u),
        bishop_att(s, occ, t) <==> bishop_line(s, t) && forall|u: int| #[trigger]
            on_ray(s, dir(s, t), u) && on_ray(u, dir(s, t), t) ==> !bit(occ, u),
        rook_att(s, occ, t) || bishop_att(s, occ, t) <==> slides(s, dir(s, t), occ, t),
{
    lemma_dir(s, t);
    if on_ray(s, 0, t) {
        lemma_ray_board(s, 0, t);
    }
    if on_ray(s, 1, t) {
        lemma_ray_board(s, 1, t);
    }
    if on_ray(s, 2, t) {
        lemma_ray_board(s, 2, t);
    }
    if on_ray(s, 3, t) {
        lemma_ray_board(s, 3, t);
    }
    if on_ray(s, 4, t) {
        lemma_ray_board(s, 4, t);
    }
    if on_ray(s, 5, t) {
        lemma_ray_board(s, 5, t);
    }
    if on_ray(s, 6, t) {
        lemma_ray_board(s, 6, t);
    }
    if on_ray(s, 7, t) {
        lemma_ray_board(s, 7, t);
    }
}

/// Leapers and neighbours have nothing between them and their target.
pub proof fn lemma_leap_between(s: int, t: int, u: int)
    requires
        knight_att(s, t) || king_att(s, t) || pawn_att(Color::White, s, t) || pawn_att(
            Color::Black,
            s,
            t,
        ),
    ensures
        !between_sq(s, t, u),
        knight_att(s, t) ==> dir(s, t) < 0,
{
    reveal(on_ray);
    reveal(dir);
    reveal(knight_att);
    reveal(king_att);
    reveal(pawn_att);
}

} // verus!
