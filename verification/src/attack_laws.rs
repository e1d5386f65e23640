//! What a board says of its pieces and their attacks, on square and piece numbers.

use vstd::prelude::*;

use crate::attacks::{
    Tables, aligned, between, bishop_attacks, cardinal_attacks, king_attacks, knight_attacks,
    marshal_attacks, pawn_attacks, queen_attacks, rook_attacks,
};
use crate::board::Board;
use crate::geometry::{dir, king_att, on_ray, pawn_att};
use crate::position::{
    attacker, col_at, kind_at, lemma_king_of, lemma_occ_of, lemma_piece, occ_at, occ_of, piece_on,
};
use crate::rules::{
    ahead, diagonal_to, first_of, hits, inside, is_own, knight_apart, lemma_knight_apart,
    lemma_open_diagonal, lemma_open_line, next_to, open_diagonal, open_line,
    pieces_attack_as_they_strike,
};
use crate::squareset::{SquareSet, group_bits};
use crate::types::{Color, Piece, PieceType, Square};

verus! {

broadcast use {group_bits, lemma_occ_of};

/// Law: a board knows its pieces by side, by type, by both and together, and what stands
/// on a square.
pub proof fn a_board_knows_its_pieces(
    b: Board,
    c: Color,
    pt: PieceType,
    s: Square,
    by_side: SquareSet,
    by_type: SquareSet,
    both: SquareSet,
    all: SquareSet,
    on: Piece,
)
    requires
        b.wf(),
        s.valid(),
        call_ensures(Board::colors, (&b, c), by_side),
        call_ensures(Board::pieces, (&b, pt), by_type),
        call_ensures(Board::colored, (&b, c, pt), both),
        call_ensures(Board::occupied, (&b,), all),
        call_ensures(Board::piece_at, (&b, s), on),
    ensures
        by_side.contains(s.0 as int) <==> first_of(c) <= b.mailbox[s.0 as int].0 < first_of(c) + 8,
        by_type.contains(s.0 as int) <==> b.mailbox[s.0 as int].0 < 16 && b.mailbox[s.0 as int].0 % 8
            == pt.idx(),
        both.contains(s.0 as int) <==> b.mailbox[s.0 as int].0 == first_of(c) + pt.idx(),
        all.contains(s.0 as int) <==> b.mailbox[s.0 as int].0 != 16,
        on == b.mailbox[s.0 as int],
{
    let i = s.0 as int;
    assert(by_side.contains(i) <==> col_at(b.q(), i, c));
    assert(by_type.contains(i) <==> kind_at(b.q(), i, pt));
    assert(both.contains(i) <==> piece_on(b.q(), i, c, pt));
    assert(all.contains(i) <==> occ_at(b.q(), i));
    lemma_piece(b.q()[i]);
}

/// Law: a board knows where a side's king stands, and whether that side has nothing but
/// pawns beside it.
pub proof fn a_board_knows_its_kings(b: Board, c: Color, k: Square, r: bool)
    requires
        b.wf(),
        call_ensures(Board::king_sq, (&b, c), k),
        call_ensures(Board::only_pawns, (&b, c), r),
    ensures
        k.0 < 100 && b.mailbox[k.0 as int].0 == first_of(c) + 7,
        r <==> forall|i: int|
            0 <= i < 100 && first_of(c) <= #[trigger] b.mailbox[i].0 < first_of(c) + 8 ==> b.mailbox[i].0
                == first_of(c) || b.mailbox[i].0 == first_of(c) + 7,
{
    let q = b.q();
    lemma_king_of(q, c);
    if r {
        assert forall|i: int|
            0 <= i < 100 && first_of(c) <= #[trigger] b.mailbox[i].0 < first_of(c) + 8 implies b.mailbox[i].0
            == first_of(c) || b.mailbox[i].0 == first_of(c) + 7 by {
            assert(col_at(q, i, c));
        }
    } else {
        let i = choose|i: int| #[trigger]
            col_at(q, i, c) && !(q[i].kind() == PieceType::Pawn || q[i].kind() == PieceType::King);
        assert(b.mailbox[i].0 != first_of(c) && b.mailbox[i].0 != first_of(c) + 7);
    }
}

/// Law: the squares that pieces of each type reach on the board as it stands.
pub proof fn pieces_reach_what_is_open(
    b: Board,
    t: Tables,
    s: Square,
    x: int,
    occ: SquareSet,
    rook: SquareSet,
    bishop: SquareSet,
    queen: SquareSet,
    marshal: SquareSet,
    cardinal: SquareSet,
    knight: SquareSet,
    king: SquareSet,
)
    requires
        b.wf(),
        s.valid(),
        0 <= x < 100,
        call_ensures(Board::occupied, (&b,), occ),
        call_ensures(rook_attacks, (&t, s, occ), rook),
        call_ensures(bishop_attacks, (&t, s, occ), bishop),
        call_ensures(queen_attacks, (&t, s, occ), queen),
        call_ensures(marshal_attacks, (&t, s, occ), marshal),
        call_ensures(cardinal_attacks, (&t, s, occ), cardinal),
        call_ensures(knight_attacks, (&t, s), knight),
        call_ensures(king_attacks, (&t, s), king),
    ensures
        rook.contains(x) <==> open_line(b.mailbox@, s.0 as int, x),
        bishop.contains(x) <==> open_diagonal(b.mailbox@, s.0 as int, x),
        queen.contains(x) <==> open_line(b.mailbox@, s.0 as int, x) || open_diagonal(
            b.mailbox@,
            s.0 as int,
            x,
        ),
        marshal.contains(x) <==> open_line(b.mailbox@, s.0 as int, x) || knight_apart(s.0 as int, x),
        cardinal.contains(x) <==> open_diagonal(b.mailbox@, s.0 as int, x) || knight_apart(
            s.0 as int,
            x,
        ),
        knight.contains(x) <==> knight_apart(s.0 as int, x),
        king.contains(x) <==> next_to(s.0 as int, x),
{
    lemma_open_line(b.q(), s.0 as int, x);
    lemma_open_diagonal(b.q(), s.0 as int, x);
    lemma_knight_apart(s.0 as int, x);
    reveal(king_att);
}

/// Law: a pawn reaches the squares one rank ahead on the files beside it.
pub proof fn pawns_reach_ahead(t: Tables, c: Color, s: Square, x: int, r: SquareSet)
    requires
        s.valid(),
        0 <= x < 100,
        call_ensures(pawn_attacks, (&t, c, s), r),
    ensures
        r.contains(x) <==> (x == s.0 + ahead(c) - 1 && s.0 % 10 > 0) || (x == s.0 + ahead(c) + 1 && s.0
            % 10 < 9),
{
    reveal(pawn_att);
}

/// Law: a board knows who strikes at a square, and whether one side does.
pub proof fn a_board_knows_its_attackers(b: Board, t: Tables, s: Square, c: Color, a: int, occ: SquareSet, r: SquareSet, any: bool)
    requires
        b.wf(),
        s.valid(),
        0 <= a < 100,
        call_ensures(Board::occupied, (&b,), occ),
        call_ensures(Board::attackers_to, (&b, &t, s, occ), r),
        call_ensures(Board::attacked_by, (&b, &t, c, s, occ), any),
    ensures
        r.contains(a) <==> hits(b.mailbox@, a, s.0 as int),
        hits(b.mailbox@, a, s.0 as int) && is_own(b.mailbox@, c, a) ==> any,
        any ==> exists|x: int| #[trigger] hits(b.mailbox@, x, s.0 as int) && is_own(b.mailbox@, c, x),
{
    let q = b.q();
    pieces_attack_as_they_strike(q, a, s.0 as int);
    if hits(q, a, s.0 as int) && is_own(q, c, a) {
        assert(attacker(q, occ_of(q), s.0 as int, a) && col_at(q, a, c));
    }
    if any {
        let x = choose|x: int| #[trigger] attacker(q, occ_of(q), s.0 as int, x) && col_at(q, x, c);
        pieces_attack_as_they_strike(q, x, s.0 as int);
        assert(hits(b.mailbox@, x, s.0 as int) && is_own(b.mailbox@, c, x));
    }
}

/// Law: between two squares on a line lie those in between, and between two others none.
pub proof fn what_lies_between(t: Tables, a: Square, b: Square, x: int, r: SquareSet)
    requires
        a.valid(),
        b.valid(),
        0 <= x < 100,
        call_ensures(between, (&t, a, b), r),
    ensures
        ({
            let (a, b) = (a.0 as int, b.0 as int);
            let within = a < x < b || b < x < a;
            r.contains(x) <==> (a % 10 == b % 10 && x % 10 == a % 10 && within) || (a / 10 == b / 10
                && within) || (diagonal_to(a, b) && diagonal_to(a, x) && diagonal_to(b, x) && inside(
                a,
                b,
                x,
            ))
        }),
{
    reveal(on_ray);
    reveal(dir);
}

/// Law: stepping a set moves every square of it by a rank or a file, off the board at the
/// edges.
pub proof fn sets_step_over_the_board(s: SquareSet, x: int, n: SquareSet, so: SquareSet, e: SquareSet, w: SquareSet)
    requires
        s.on_board(),
        0 <= x < 100,
        call_ensures(SquareSet::north, (s,), n),
        call_ensures(SquareSet::south, (s,), so),
        call_ensures(SquareSet::east, (s,), e),
        call_ensures(SquareSet::west, (s,), w),
    ensures
        n.contains(x) <==> x >= 10 && s.contains(x - 10),
        so.contains(x) <==> x < 90 && s.contains(x + 10),
        e.contains(x) <==> x % 10 > 0 && s.contains(x - 1),
        w.contains(x) <==> x % 10 < 9 && s.contains(x + 1),
{
}

/// Law: the first and the last square of a set are in it, with none below and none above.
pub proof fn the_ends_of_a_set(s: SquareSet, x: int, lo: Square, hi: Square)
    requires
        s.on_board(),
        s.contains(x),
        call_ensures(SquareSet::lsb, (s,), lo),
        call_ensures(SquareSet::msb, (s,), hi),
    ensures
        s.contains(lo.0 as int),
        s.contains(hi.0 as int),
        lo.0 <= x <= hi.0,
{
}

/// Law: two squares on a line reach along it to both ends of the board.
pub proof fn what_is_aligned(t: Tables, a: Square, b: Square, c: Square, r: bool)
    requires
        a.valid(),
        b.valid(),
        c.valid(),
        a != b,
        call_ensures(aligned, (&t, a, b, c), r),
    ensures
        ({
            let (x, y) = (b.0 as int % 10 - a.0 as int % 10, b.0 as int / 10 - a.0 as int / 10);
            let (u, v) = (c.0 as int % 10 - a.0 as int % 10, c.0 as int / 10 - a.0 as int / 10);
            r <==> (x == 0 && u == 0) || (y == 0 && v == 0) || (x == y && u == v) || (x == -y && u == -v)
        }),
{
    reveal(on_ray);
    reveal(dir);
}

/// Law: the set of one square holds that square alone.
pub proof fn a_set_of_one_square(x: Square, i: int, one: SquareSet, held: bool)
    requires
        x.0 < 128,
        call_ensures(SquareSet::from_square, (x,), one),
        call_ensures(SquareSet::has, (one, x), held),
    ensures
        held,
        one.contains(i) <==> i == x.0,
{
}

/// Law: taking out the lowest square lowers the count by one.
pub proof fn a_set_counts_its_squares(s: &mut SquareSet, r: Square, n: u32, left: u32, several: bool)
    requires
        old(s).0 != 0,
        call_ensures(SquareSet::count, (*old(s),), n),
        call_ensures(SquareSet::more_than_one, (*old(s),), several),
        call_ensures(SquareSet::pop, (s,), r),
        call_ensures(SquareSet::count, (*final(s),), left),
    ensures
        old(s).contains(r.0 as int),
        !final(s).contains(r.0 as int),
        n == left + 1,
        several <==> n > 1,
{
}

} // verus!
