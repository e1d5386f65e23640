//! The starting position.

use vstd::prelude::*;
use crate::attacks::Tables;
use crate::board::{Board, lemma_attack_view};
use crate::geometry::{
    dir, fl, king_att, knight_att, lemma_dir, lemma_rook_is_line, on_ray, pawn_att, rk,
};
use crate::position::{
    attacker, col_at, has_kings, in_check_at, is_placement, kind_at, king_of, king_on,
    lemma_king_is, lemma_occ_of, lemma_piece, lemma_piece_on, lemma_xor, occ_of, pawn_key_of,
    pawns_inside, piece_on, placement_key,
};
use crate::squareset::{bit, group_bits};
use crate::types::{Color, Piece, PieceType, Square, rel_rank};


verus! {

broadcast use {group_bits, lemma_occ_of};

/// The second rank of either side: a gap, knight, bishop, queen, king, marshal,
/// cardinal, bishop, knight, a gap.
pub open spec fn second_rank(file: int) -> Option<PieceType> {
    if file == 1 || file == 8 {
        Some(PieceType::Knight)
    } else if file == 2 || file == 7 {
        Some(PieceType::Bishop)
    } else if file == 3 {
        Some(PieceType::Queen)
    } else if file == 4 {
        Some(PieceType::King)
    } else if file == 5 {
        Some(PieceType::Marshal)
    } else if file == 6 {
        Some(PieceType::Cardinal)
    } else {
        None
    }
}

/// What a side has at the start on its rank `r`: rooks in the corners, the pieces,
/// the pawns.
pub open spec fn start_kind(r: int, file: int) -> Option<PieceType> {
    if r == 0 {
        if file == 0 || file == 9 {
            Some(PieceType::Rook)
        } else {
            None
        }
    } else if r == 1 {
        second_rank(file)
    } else if r == 2 {
        Some(PieceType::Pawn)
    } else {
        None
    }
}

/// What stands on square `i` at the start.
pub open spec fn start_piece(i: int) -> Piece {
    let c = if rk(i) < 5 {
        Color::White
    } else {
        Color::Black
    };
    match start_kind(rel_rank(c, i), fl(i)) {
        Some(pt) => Piece::of(c, pt),
        None => Piece::none(),
    }
}

/// The placement at the start.
pub open spec fn start_placement() -> Seq<Piece> {
    Seq::new(100, |i: int| start_piece(i))
}

fn kind_at_start(r: u8, file: u8) -> (k: Option<PieceType>)
    ensures
        k == start_kind(r as int, file as int),
{
    if r == 0 {
        if file == 0 || file == 9 {
            Some(PieceType::Rook)
        } else {
            None
        }
    } else if r == 1 {
        if file == 1 || file == 8 {
            Some(PieceType::Knight)
        } else if file == 2 || file == 7 {
            Some(PieceType::Bishop)
        } else if file == 3 {
            Some(PieceType::Queen)
        } else if file == 4 {
            Some(PieceType::King)
        } else if file == 5 {
            Some(PieceType::Marshal)
        } else if file == 6 {
            Some(PieceType::Cardinal)
        } else {
            None
        }
    } else if r == 2 {
        Some(PieceType::Pawn)
    } else {
        None
    }
}

proof fn lemma_start_kings()
    ensures
        is_placement(start_placement()),
        has_kings(start_placement()),
        pawns_inside(start_placement()),
        king_of(start_placement(), Color::White) == 14,
        king_of(start_placement(), Color::Black) == 84,
{
    let q = start_placement();
    assert forall|i: int| 0 <= i < 100 implies (#[trigger] q[i]).valid() || q[i]
        == Piece::none() by {}
    assert forall|i: int, pt: PieceType| #[trigger] kind_at(q, i, pt) implies (pt
        == PieceType::King ==> i == 14 || i == 84) && (pt == PieceType::Pawn ==> 10 <= i < 90) by {
        lemma_piece(q[i]);
    }
    assert(king_on(q, Color::White, 14)) by {
        assert forall|j: int| #[trigger] piece_on(q, j, Color::White, PieceType::King) implies j
            == 14 by {
            lemma_piece_on(q, j, Color::White, PieceType::King);
            assert(kind_at(q, j, PieceType::King));
        }
    }
    assert(king_on(q, Color::Black, 84)) by {
        assert forall|j: int| #[trigger] piece_on(q, j, Color::Black, PieceType::King) implies j
            == 84 by {
            lemma_piece_on(q, j, Color::Black, PieceType::King);
            assert(kind_at(q, j, PieceType::King));
        }
    }
    lemma_king_is(q, Color::White, 14);
    lemma_king_is(q, Color::Black, 84);
}

/// The pawns shield the black king.
proof fn lemma_start_quiet()
    ensures
        !in_check_at(start_placement(), Color::Black),
{
    let q = start_placement();
    let occ = occ_of(q);
    lemma_start_kings();
    assert forall|a: int| #[trigger] attacker(q, occ, 84, a) implies !col_at(
        q,
        a,
        Color::White,
    ) by {
        if col_at(q, a, Color::White) {
            assert(rk(a) < 5);
            lemma_attack_view(q, occ, 84, a);
            reveal(knight_att);
            reveal(king_att);
            reveal(pawn_att);
            lemma_rook_is_line(84, occ, a);
            let d = dir(84, a);
            lemma_dir(84, a);
            reveal(on_ray);
            let u: int = if d == 4 {
                74
            } else if d == 3 {
                75
            } else {
                73
            };
            assert(start_piece(u) == Piece::of(Color::Black, PieceType::Pawn));
            assert(q[u].valid());
            assert(bit(occ, u));
            assert(on_ray(84, d, u) && on_ray(u, d, a));
        }
    }
}

impl Board {
    /// The starting position, White to move.
    pub fn startpos(t: &Tables) -> (b: Board)
        ensures
            b.wf(),
            b.check_square_info(),
            b.q() == start_placement(),
            b.stm == Color::White,
            b.ep == Square::none(),
            b.halfmove == 0,
            b.game_ply == 0,
            b.plies_from_null == 0,
            b.hist@ == seq![b.key],
    {
        let mut b = Board::empty();
        let ghost start = b;
        let mut s: u8 = 0;
        while s < 100
            invariant
                s <= 100,
                b.placed(),
                b.key_rest() == start.key_rest(),
                b.pawn_key_rest() == start.pawn_key_rest(),
                b.same_rest(&start),
                forall|i: int| 0 <= i < s ==> #[trigger] b.q()[i] == start_piece(i),
                forall|i: int| s <= i < 100 ==> #[trigger] b.q()[i] == Piece::none(),
            decreases 100 - s,
        {
            let sq = Square(s);
            let c = if sq.rank() < 5 {
                Color::White
            } else {
                Color::Black
            };
            match kind_at_start(sq.relative_rank(c), sq.file()) {
                Some(pt) => {
                    assert(b.q()[s as int] == Piece::none());
                    b.put(t, Piece::new(c, pt), sq);
                },
                None => {},
            }
            s += 1;
        }
        assert(b.q() =~= start_placement());
        proof {
            lemma_start_kings();
            lemma_start_quiet();
            lemma_xor(placement_key(start.q()), 0, 0);
            lemma_xor(placement_key(b.q()), 0, 0);
            lemma_xor(0, 0, 0);
            lemma_same_word(b.key, placement_key(b.q()));
            lemma_same_word(b.pawn_key, pawn_key_of(b.q()));
        }
        b.update_check_info(t);
        b.update_check_squares(t);
        b.hist.push(b.key);
        b
    }
}

proof fn lemma_same_word(a: u64, b: u64)
    ensures
        a ^ b == 0 ==> a == b,
{
    assert(a ^ b == 0 ==> a == b) by (bit_vector);
}

impl Clone for Board {
    fn clone(&self) -> (r: Board)
        ensures
            r@ == self@,
            r.by_color == self.by_color,
            r.by_type == self.by_type,
    {
        let r = Board {
            by_color: self.by_color,
            by_type: self.by_type,
            mailbox: self.mailbox,
            ep: self.ep,
            stm: self.stm,
            halfmove: self.halfmove,
            game_ply: self.game_ply,
            plies_from_null: self.plies_from_null,
            key: self.key,
            pawn_key: self.pawn_key,
            checkers: self.checkers,
            blockers: self.blockers,
            check_squares: self.check_squares,
            hist: self.hist.clone(),
        };
        assert(r.hist@ =~= self.hist@);
        r
    }
}

/// A copy of a board is as good as the board.
pub proof fn lemma_clone(a: Board, b: Board)
    requires
        a@ == b@,
        a.by_color == b.by_color,
        a.by_type == b.by_type,
        b.wf(),
    ensures
        a.wf(),
        b.check_square_info() ==> a.check_square_info(),
{
    assert(a.mailbox@ == b.mailbox@);
    assert(a.placed());
}

} // verus!
