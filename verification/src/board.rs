//! The board: square sets per colour and piece type, a piece array, and the
//! derived state every node needs (checkers, pin blockers, hash keys).

use vstd::prelude::*;
use crate::attacks::{
    Tables, between, bishop_attacks, bishop_rays, king_attacks, knight_attacks, pawn_attacks,
    rook_attacks, rook_rays,
};
use crate::geometry::{
    bishop_att, king_att, knight_att, lemma_rook_sym, pawn_att, rook_att, type_att,
};
use crate::position::{
    attacked, attacker, col_at, diagonal_kind, empty_at, ep_part, ep_real, has_kings, in_check_at,
    is_blocker, is_checker, is_placement, is_sniper, kind_at, king_of, knight_kind, legal,
    lemma_key_empty, lemma_key_update, lemma_king_of, lemma_occ_of, lemma_piece, lemma_piece_on,
    lemma_set_of, lemma_xor, lone_screen, occ_at, occ_of, pawn_key_of, pawns_inside, piece_on,
    placement_key, position_key, promo_open, screens, set_of, square_key, square_pawn_key,
    straight_kind, victim_of,
};
use crate::squareset::{
    SquareSet, bit, group_bits, lemma_bits_equal, lemma_squares_empty, lemma_squares_members,
    squares,
};
use crate::types::{Color, Move, Piece, PieceType, Square, promo_max};


verus! {

broadcast use {group_bits, lemma_occ_of};

/// Up to two pieces removed and one added by a move, for incremental evaluation.
#[derive(Clone, Copy)]
pub struct Dirty {
    pub n_sub: u8,
    pub n_add: u8,
    pub sub: [(Piece, Square); 2],
    pub add: [(Piece, Square); 2],
}

impl Default for Dirty {
    fn default() -> (r: Dirty)
        ensures
            r.n_sub == 0,
            r.n_add == 0,
    {
        let none = (Piece::none(), Square(0));
        Dirty { n_sub: 0, n_add: 0, sub: [none, none], add: [none, none] }
    }
}

/// What a move has to remember so that it can be taken back.
#[derive(Clone, Copy)]
pub struct Undo {
    pub ep: Square,
    pub halfmove: u16,
    pub plies_from_null: u16,
    pub key: u64,
    pub pawn_key: u64,
    pub captured: Piece,
    pub capture_sq: Square,
    pub checkers: SquareSet,
    pub blockers: [SquareSet; 2],
    pub check_squares: [SquareSet; 8],
    pub dirty: Dirty,
}

impl Default for Undo {
    fn default() -> (r: Undo)
        ensures
            r.ep == Square::none(),
            r.halfmove == 0,
            r.plies_from_null == 0,
            r.key == 0,
            r.pawn_key == 0,
            r.captured == Piece::none(),
            r.capture_sq == Square::none(),
            r.checkers == SquareSet::empty(),
            forall|i: int| 0 <= i < 2 ==> r.blockers[i] == SquareSet::empty(),
            forall|i: int| 0 <= i < 8 ==> r.check_squares[i] == SquareSet::empty(),
            r.dirty.n_sub == 0,
            r.dirty.n_add == 0,
    {
        Undo {
            ep: Square::none(),
            halfmove: 0,
            plies_from_null: 0,
            key: 0,
            pawn_key: 0,
            captured: Piece::none(),
            capture_sq: Square::none(),
            checkers: SquareSet::empty(),
            blockers: [SquareSet::empty();2],
            check_squares: [SquareSet::empty();8],
            dirty: Dirty::default(),
        }
    }
}

/// A position with everything that is kept up to date about it.
pub struct Board {
    pub by_color: [SquareSet; 2],
    pub by_type: [SquareSet; 8],
    pub mailbox: [Piece; 100],
    pub ep: Square,
    pub stm: Color,
    pub halfmove: u16,
    pub game_ply: u16,
    pub plies_from_null: u16,
    pub key: u64,
    pub pawn_key: u64,
    pub checkers: SquareSet,
    /// Pieces of *either* colour standing alone between `c`'s king and an enemy
    /// slider. Intersected with our own pieces it gives pins; intersected with
    /// our pieces using `blockers[them]` it gives discovered-check candidates.
    pub blockers: [SquareSet; 2],
    /// Squares from which a piece of each type would check the side *not* to
    /// move (i.e. the king of the opponent of `stm`).
    pub check_squares: [SquareSet; 8],
    /// Position keys of the whole game so far; the last entry is `key`.
    pub hist: Vec<u64>,
}

/// The observable state of a board.
#[verifier::ext_equal]
pub struct BoardView {
    pub q: Seq<Piece>,
    pub ep: Square,
    pub stm: Color,
    pub halfmove: u16,
    pub game_ply: u16,
    pub plies_from_null: u16,
    pub key: u64,
    pub pawn_key: u64,
    pub checkers: SquareSet,
    pub blockers: Seq<SquareSet>,
    pub check_squares: Seq<SquareSet>,
    pub hist: Seq<u64>,
}

impl View for Board {
    type V = BoardView;

    open spec fn view(&self) -> BoardView {
        BoardView {
            q: self.mailbox@,
            ep: self.ep,
            stm: self.stm,
            halfmove: self.halfmove,
            game_ply: self.game_ply,
            plies_from_null: self.plies_from_null,
            key: self.key,
            pawn_key: self.pawn_key,
            checkers: self.checkers,
            blockers: self.blockers@,
            check_squares: self.check_squares@,
            hist: self.hist@,
        }
    }
}

impl Board {
    /// What stands where.
    pub open spec fn q(&self) -> Seq<Piece> {
        self.mailbox@
    }

    /// The square sets say the same as the piece array.
    pub open spec fn placed(&self) -> bool {
        &&& is_placement(self.mailbox@)
        &&& forall|k: int, i: int| #![trigger bit(self.by_color[k].0, i)]
            0 <= k < 2 ==> bit(self.by_color[k].0, i) == (0 <= i < 100 && self.mailbox[i].valid()
                && self.mailbox[i].0 as int / 8 == k)
        &&& forall|k: int, i: int| #![trigger bit(self.by_type[k].0, i)]
            0 <= k < 8 ==> bit(self.by_type[k].0, i) == (0 <= i < 100 && self.mailbox[i].valid()
                && self.mailbox[i].0 as int % 8 == k)
    }

    /// `checkers` and the side to move's `blockers` describe the position.
    pub open spec fn check_info(&self) -> bool {
        &&& forall|a: int| #[trigger]
            bit(self.checkers.0, a) == is_checker(self.q(), self.stm, a)
        &&& forall|x: int| #[trigger]
            bit(self.blockers[self.stm.idx() as int].0, x) == is_blocker(self.q(), self.stm, x)
    }

    /// `check_squares` and the opponent's `blockers` describe the position.
    pub open spec fn check_square_info(&self) -> bool {
        let them = self.stm.flip();
        let k = king_of(self.q(), them);
        &&& forall|x: int| #[trigger]
            bit(self.blockers[them.idx() as int].0, x) == is_blocker(self.q(), them, x)
        &&& forall|pt: PieceType, x: int| #![trigger bit(self.check_squares[pt.idx() as int].0, x)]
            bit(self.check_squares[pt.idx() as int].0, x) == checks_from(
                self.q(),
                them,
                pt,
                x,
            )
    }

    /// The keys are those of the position, and the history ends with them.
    pub open spec fn keyed(&self) -> bool {
        &&& self.key == position_key(self.q(), self.ep, self.stm)
        &&& self.pawn_key == pawn_key_of(self.q())
    }

    /// A position that can arise: one king each, no pawn on an end rank, the
    /// side that just moved not in check, and an en passant square only where a
    /// capture is at hand.
    pub open spec fn sound(&self) -> bool {
        &&& has_kings(self.q())
        &&& pawns_inside(self.q())
        &&& !in_check_at(self.q(), self.stm.flip())
        &&& self.ep == Square::none() || ep_real(self.q(), self.stm, self.ep.0 as int)
    }

    /// The invariant of a board in play.
    pub open spec fn wf(&self) -> bool {
        &&& self.placed()
        &&& self.sound()
        &&& self.keyed()
        &&& self.check_info()
        &&& self.hist@.len() > 0
        &&& self.hist@.last() == self.key
    }

    /// Is `m` legal here?
    pub open spec fn legal_here(&self, m: Move) -> bool {
        legal(self.q(), self.stm, self.ep, m)
    }
}

/// Would a piece of type `pt` on `x` check `c`'s king, as the board stands?
pub open spec fn checks_from(q: Seq<Piece>, c: Color, pt: PieceType, x: int) -> bool {
    let k = king_of(q, c);
    if pt == PieceType::Pawn {
        pawn_att(c, k, x)
    } else if pt == PieceType::King {
        false
    } else {
        type_att(pt, k, occ_of(q), x)
    }
}

impl Board {
    pub fn empty() -> (b: Board)
        ensures
            b.placed(),
            forall|i: int| 0 <= i < 100 ==> b.mailbox[i] == Piece::none(),
            b.ep == Square::none(),
            b.stm == Color::White,
            b.halfmove == 0,
            b.game_ply == 0,
            b.plies_from_null == 0,
            b.keyed(),
            b.key == 0,
            b.pawn_key == 0,
            b.checkers == SquareSet::empty(),
            forall|i: int| 0 <= i < 2 ==> b.blockers[i] == SquareSet::empty(),
            forall|i: int| 0 <= i < 8 ==> b.check_squares[i] == SquareSet::empty(),
            b.hist@.len() == 0,
    {
        let b = Board {
            by_color: [SquareSet::empty();2],
            by_type: [SquareSet::empty();8],
            mailbox: [Piece::none();100],
            ep: Square::none(),
            stm: Color::White,
            halfmove: 0,
            game_ply: 0,
            plies_from_null: 0,
            key: 0,
            pawn_key: 0,
            checkers: SquareSet::empty(),
            blockers: [SquareSet::empty();2],
            check_squares: [SquareSet::empty();8],
            hist: Vec::new(),
        };
        proof {
            lemma_key_empty(b.mailbox@, |p: Piece, i: int| square_key(p, i), 100);
            lemma_key_empty(b.mailbox@, |p: Piece, i: int| square_pawn_key(p, i), 100);
            lemma_xor(0, 0, 0);
        }
        b
    }

    // -- accessors ----------------------------------------------------------

    pub fn colors(&self, c: Color) -> (r: SquareSet)
        requires
            self.placed(),
        ensures
            forall|i: int| #[trigger] r.contains(i) <==> col_at(self.q(), i, c),
            r == self.by_color[c.idx() as int],
    {
        let r = self.by_color[c.idx()];
        proof {
            assert forall|i: int| #[trigger] r.contains(i) <==> col_at(self.q(), i, c) by {
                lemma_piece(self.mailbox[i]);
                assert(bit(self.by_color[c.idx() as int].0, i) == bit(r.0, i));
            }
        }
        r
    }

    pub fn pieces(&self, pt: PieceType) -> (r: SquareSet)
        requires
            self.placed(),
        ensures
            forall|i: int| #[trigger] r.contains(i) <==> kind_at(self.q(), i, pt),
            r == self.by_type[pt.idx() as int],
    {
        let r = self.by_type[pt.idx()];
        proof {
            assert forall|i: int| #[trigger] r.contains(i) <==> kind_at(self.q(), i, pt) by {
                lemma_piece(self.mailbox[i]);
                assert(bit(self.by_type[pt.idx() as int].0, i) == bit(r.0, i));
            }
        }
        r
    }

    pub fn colored(&self, c: Color, pt: PieceType) -> (r: SquareSet)
        requires
            self.placed(),
        ensures
            forall|i: int| #[trigger] r.contains(i) <==> piece_on(self.q(), i, c, pt),
            r.0 == set_of(self.q(), Piece::of(c, pt)),
    {
        let r = self.colors(c) & self.pieces(pt);
        proof {
            assert forall|i: int| #[trigger] r.contains(i) <==> piece_on(self.q(), i, c, pt) by {
                lemma_piece_on(self.q(), i, c, pt);
            }
            assert forall|i: int| bit(r.0, i) == bit(set_of(self.q(), Piece::of(c, pt)), i) by {
                lemma_set_of(self.q(), Piece::of(c, pt), i);
            }
            lemma_bits_equal(r.0, set_of(self.q(), Piece::of(c, pt)));
        }
        r
    }

    pub fn occupied(&self) -> (r: SquareSet)
        requires
            self.placed(),
        ensures
            r.0 == occ_of(self.q()),
            r.on_board(),
    {
        let r = self.by_color[0] | self.by_color[1];
        proof {
            assert forall|i: int| bit(r.0, i) == bit(occ_of(self.q()), i) by {
                assert(bit(self.by_color[0].0, i) == (0 <= i < 100 && self.mailbox[i].valid()
                    && self.mailbox[i].0 as int / 8 == 0));
                assert(bit(self.by_color[1].0, i) == (0 <= i < 100 && self.mailbox[i].valid()
                    && self.mailbox[i].0 as int / 8 == 1));
            }
            lemma_bits_equal(r.0, occ_of(self.q()));
        }
        r
    }

    /// What stands on `s`.
    ///
    /// A `Move`'s square fields are seven bits wide, so they can hold 100 to 127:
    /// values no legal move carries but a corrupt table entry can. Every caller
    /// that has not already run the move past `is_pseudo_legal` must check first.
    pub fn piece_at(&self, s: Square) -> (r: Piece)
        requires
            s.valid(),
        ensures
            r == self.q()[s.0 as int],
    {
        self.mailbox[s.idx()]
    }

    pub fn king_sq(&self, c: Color) -> (r: Square)
        requires
            self.placed(),
            has_kings(self.q()),
        ensures
            r.valid(),
            r.0 == king_of(self.q(), c),
    {
        let set = self.colored(c, PieceType::King);
        proof {
            lemma_king_of(self.q(), c);
            assert(set.contains(king_of(self.q(), c)));
        }
        let r = set.lsb();
        proof {
            assert(piece_on(self.q(), r.0 as int, c, PieceType::King));
        }
        r
    }

    /// Bishop, queen, and cardinal.
    pub fn diagonal_sliders(&self, c: Color) -> (r: SquareSet)
        requires
            self.placed(),
        ensures
            forall|i: int| #[trigger]
                r.contains(i) <==> col_at(self.q(), i, c) && diagonal_kind(self.q()[i].kind()),
    {
        self.colors(c) & (self.pieces(PieceType::Bishop) | self.pieces(PieceType::Queen)
            | self.pieces(PieceType::Cardinal))
    }

    /// Rook, queen and marshal.
    pub fn straight_sliders(&self, c: Color) -> (r: SquareSet)
        requires
            self.placed(),
        ensures
            forall|i: int| #[trigger]
                r.contains(i) <==> col_at(self.q(), i, c) && straight_kind(self.q()[i].kind()),
    {
        self.colors(c) & (self.pieces(PieceType::Rook) | self.pieces(PieceType::Queen)
            | self.pieces(PieceType::Marshal))
    }

    /// Everything with a knight's leap: knight, marshal and cardinal.
    pub fn knight_movers(&self) -> (r: SquareSet)
        requires
            self.placed(),
        ensures
            forall|i: int| #[trigger]
                r.contains(i) <==> occ_at(self.q(), i) && knight_kind(self.q()[i].kind()),
    {
        self.pieces(PieceType::Knight) | self.pieces(PieceType::Marshal) | self.pieces(
            PieceType::Cardinal,
        )
    }

    pub fn in_check(&self) -> (r: bool)
        ensures
            r == (self.checkers.0 != 0),
            self.check_info() ==> r == in_check_at(self.q(), self.stm),
    {
        let r = self.checkers.any();
        proof {
            if self.check_info() {
                let k = king_of(self.q(), self.stm);
                if r {
                    let a = choose|a: int| #[trigger] self.checkers.contains(a);
                    assert(is_checker(self.q(), self.stm, a));
                    assert(attacker(self.q(), occ_of(self.q()), k, a));
                }
                if in_check_at(self.q(), self.stm) {
                    let a = choose|a: int| #[trigger]
                        attacker(self.q(), occ_of(self.q()), k, a) && col_at(
                            self.q(),
                            a,
                            self.stm.flip(),
                        );
                    assert(self.checkers.contains(a));
                }
            }
        }
        r
    }

    /// Number of pieces of both colours, kings included.
    pub fn piece_count(&self) -> (r: u32)
        requires
            self.placed(),
        ensures
            r == squares(occ_of(self.q())).len(),
    {
        self.occupied().count()
    }

    /// True when `c` has no piece other than king and pawns.
    pub fn only_pawns(&self, c: Color) -> (r: bool)
        requires
            self.placed(),
        ensures
            r <==> forall|i: int| #[trigger]
                col_at(self.q(), i, c) ==> self.q()[i].kind() == PieceType::Pawn
                    || self.q()[i].kind() == PieceType::King,
    {
        let set = self.colors(c) - self.pieces(PieceType::Pawn) - self.pieces(PieceType::King);
        let r = set.is_empty();
        proof {
            if r {
                assert forall|i: int| #[trigger] col_at(self.q(), i, c) implies self.q()[i].kind()
                    == PieceType::Pawn || self.q()[i].kind() == PieceType::King by {
                    assert(!set.contains(i));
                }
            } else {
                let i = choose|i: int| #[trigger] set.contains(i);
                assert(col_at(self.q(), i, c));
            }
        }
        r
    }

    // -- promotion inventory -------------------------------------------------

    /// May `c` still promote a pawn to `pt`?
    pub fn promo_available(&self, c: Color, pt: PieceType) -> (r: bool)
        requires
            self.placed(),
        ensures
            r == promo_open(self.q(), c, pt),
    {
        self.colored(c, pt).count() < promo_max(pt)
    }

    // -- piece placement ----------------------------------------------------

    /// What the key has beyond the placement.
    pub open spec fn key_rest(&self) -> u64 {
        self.key ^ placement_key(self.q())
    }

    pub open spec fn pawn_key_rest(&self) -> u64 {
        self.pawn_key ^ pawn_key_of(self.q())
    }

    /// Everything but the placement and the keys.
    pub open spec fn same_rest(&self, o: &Board) -> bool {
        &&& self.ep == o.ep
        &&& self.stm == o.stm
        &&& self.halfmove == o.halfmove
        &&& self.game_ply == o.game_ply
        &&& self.plies_from_null == o.plies_from_null
        &&& self.checkers == o.checkers
        &&& self.blockers == o.blockers
        &&& self.check_squares == o.check_squares
        &&& self.hist == o.hist
    }

    fn hash_piece(&mut self, t: &Tables, p: Piece, s: Square)
        requires
            p.valid(),
            s.valid(),
        ensures
            final(self).key == old(self).key ^ square_key(p, s.0 as int),
            final(self).pawn_key == old(self).pawn_key ^ square_pawn_key(p, s.0 as int),
            final(self).same_rest(old(self)),
            final(self).by_color == old(self).by_color,
            final(self).by_type == old(self).by_type,
            final(self).mailbox == old(self).mailbox,
    {
        let k: u64 = t.zobrist().psq(p, s);
        proof {
            lemma_xor(self.pawn_key, 0, 0);
        }
        self.key = self.key ^ k;
        if p.piece_type() == PieceType::Pawn {
            self.pawn_key = self.pawn_key ^ k;
        }
    }

    /// Puts a piece on an empty square.
    pub(crate) fn put(&mut self, t: &Tables, p: Piece, s: Square)
        requires
            old(self).placed(),
            p.valid(),
            s.valid(),
            empty_at(old(self).q(), s.0 as int),
        ensures
            final(self).placed(),
            final(self).q() == old(self).q().update(s.0 as int, p),
            final(self).key_rest() == old(self).key_rest(),
            final(self).pawn_key_rest() == old(self).pawn_key_rest(),
            final(self).same_rest(old(self)),
    {
        let c = p.color().idx();
        let mut set = self.by_color[c];
        set.set(s);
        self.by_color[c] = set;
        let k = p.piece_type().idx();
        let mut set = self.by_type[k];
        set.set(s);
        self.by_type[k] = set;
        self.mailbox[s.idx()] = p;
        let ghost mid = *self;
        self.hash_piece(t, p, s);
        proof {
            lemma_piece(p);
            lemma_key_update(old(self).q(), s.0 as int, p);
            lemma_rest_step(old(self).key, placement_key(old(self).q()), 0, square_key(p, s.0 as int));
            lemma_rest_step(old(self).pawn_key, pawn_key_of(old(self).q()), 0, square_pawn_key(p, s.0 as int));
            assert(self.q() =~= old(self).q().update(s.0 as int, p));
        }
    }

    /// Takes the piece off an occupied square.
    pub(crate) fn remove(&mut self, t: &Tables, s: Square) -> (p: Piece)
        requires
            old(self).placed(),
            s.valid(),
            occ_at(old(self).q(), s.0 as int),
        ensures
            p == old(self).q()[s.0 as int],
            final(self).placed(),
            final(self).q() == old(self).q().update(s.0 as int, Piece::none()),
            final(self).key_rest() == old(self).key_rest(),
            final(self).pawn_key_rest() == old(self).pawn_key_rest(),
            final(self).same_rest(old(self)),
    {
        let p = self.piece_at(s);
        let c = p.color().idx();
        let mut set = self.by_color[c];
        set.clear(s);
        self.by_color[c] = set;
        let k = p.piece_type().idx();
        let mut set = self.by_type[k];
        set.clear(s);
        self.by_type[k] = set;
        self.mailbox[s.idx()] = Piece::none();
        self.hash_piece(t, p, s);
        proof {
            lemma_piece(p);
            lemma_key_update(old(self).q(), s.0 as int, Piece::none());
            lemma_rest_step(old(self).key, placement_key(old(self).q()), square_key(p, s.0 as int), 0);
            lemma_rest_step(old(self).pawn_key, pawn_key_of(old(self).q()), square_pawn_key(p, s.0 as int), 0);
            assert(self.q() =~= old(self).q().update(s.0 as int, Piece::none()));
        }
        p
    }

    /// Moves a piece to an empty square.
    pub(crate) fn relocate(&mut self, t: &Tables, from: Square, to: Square)
        requires
            old(self).placed(),
            from.valid(),
            to.valid(),
            occ_at(old(self).q(), from.0 as int),
            empty_at(old(self).q(), to.0 as int),
        ensures
            final(self).placed(),
            final(self).q() == old(self).q().update(from.0 as int, Piece::none()).update(
                to.0 as int,
                old(self).q()[from.0 as int],
            ),
            final(self).key_rest() == old(self).key_rest(),
            final(self).pawn_key_rest() == old(self).pawn_key_rest(),
            final(self).same_rest(old(self)),
    {
        let p = self.remove(t, from);
        self.put(t, p, to);
    }

    pub(crate) fn set_ep(&mut self, t: &Tables, new: Square)
        requires
            new.valid() || new == Square::none(),
            old(self).ep.valid() || old(self).ep == Square::none(),
        ensures
            final(self).ep == new,
            final(self).key == (old(self).key ^ ep_part(old(self).ep)) ^ ep_part(new),
            final(self).q() == old(self).q(),
            final(self).by_color == old(self).by_color,
            final(self).by_type == old(self).by_type,
            final(self).pawn_key == old(self).pawn_key,
            final(self).stm == old(self).stm,
            final(self).halfmove == old(self).halfmove,
            final(self).game_ply == old(self).game_ply,
            final(self).plies_from_null == old(self).plies_from_null,
            final(self).checkers == old(self).checkers,
            final(self).blockers == old(self).blockers,
            final(self).check_squares == old(self).check_squares,
            final(self).hist == old(self).hist,
    {
        proof {
            lemma_xor(self.key, ep_part(self.ep), 0);
            lemma_xor(self.key, 0, 0);
            lemma_xor(self.key, 0, ep_part(new));
        }
        if self.ep != new {
            if self.ep != Square::none() {
                self.key = self.key ^ t.zobrist().ep(self.ep);
            }
            proof {
                lemma_xor(self.key, 0, 0);
            }
            if new != Square::none() {
                self.key = self.key ^ t.zobrist().ep(new);
            }
            self.ep = new;
        }
    }

    /// The square the pawn captured en passant stands on.
    pub(crate) fn ep_victim(us: Color, to: Square) -> (r: Square)
        requires
            0 <= victim_of(us, to.0 as int) < 256,
        ensures
            r.0 == victim_of(us, to.0 as int),
    {
        Square(
            if us == Color::White {
                to.0 - 10
            } else {
                to.0 + 10
            },
        )
    }

    // -- attacks ------------------------------------------------------------

    /// All pieces of both colours attacking `s` given occupancy `occ`.
    pub fn attackers_to(&self, t: &Tables, s: Square, occ: SquareSet) -> (r: SquareSet)
        requires
            self.placed(),
            s.valid(),
        ensures
            forall|a: int| #[trigger] r.contains(a) <==> attacker(self.q(), occ.0, s.0 as int, a),
    {
        let r = (pawn_attacks(t, Color::White, s) & self.colored(Color::Black, PieceType::Pawn)) | (
        pawn_attacks(t, Color::Black, s) & self.colored(Color::White, PieceType::Pawn)) | (
        knight_attacks(t, s) & self.knight_movers()) | (king_attacks(t, s) & self.pieces(
            PieceType::King,
        )) | (rook_attacks(t, s, occ) & (self.pieces(PieceType::Rook) | self.pieces(
            PieceType::Queen,
        ) | self.pieces(PieceType::Marshal))) | (bishop_attacks(t, s, occ) & (self.pieces(
            PieceType::Bishop,
        ) | self.pieces(PieceType::Queen) | self.pieces(PieceType::Cardinal)));
        proof {
            assert forall|a: int| #[trigger] r.contains(a) <==> attacker(
                self.q(),
                occ.0,
                s.0 as int,
                a,
            ) by {
                lemma_attack_view(self.q(), occ.0, s.0 as int, a);
                lemma_piece_on(self.q(), a, Color::White, PieceType::Pawn);
                lemma_piece_on(self.q(), a, Color::Black, PieceType::Pawn);
            }
        }
        r
    }

    /// True if `c` attacks `s` with occupancy `occ`.
    pub fn attacked_by(&self, t: &Tables, c: Color, s: Square, occ: SquareSet) -> (r: bool)
        requires
            self.placed(),
            s.valid(),
        ensures
            r == attacked(self.q(), occ.0, c, s.0 as int),
    {
        let them = self.colors(c);
        let by_pawn = pawn_attacks(t, c.flip(), s) & them & self.pieces(PieceType::Pawn);
        let by_knight = knight_attacks(t, s) & them & self.knight_movers();
        let by_king = king_attacks(t, s) & them & self.pieces(PieceType::King);
        let by_rook = rook_attacks(t, s, occ) & self.straight_sliders(c);
        let by_bishop = bishop_attacks(t, s, occ) & self.diagonal_sliders(c);
        let all = by_pawn | by_knight | by_king | by_rook | by_bishop;
        let r = all.any();
        proof {
            let q = self.q();
            assert forall|a: int| #[trigger] all.contains(a) <==> attacker(q, occ.0, s.0 as int, a)
                && col_at(q, a, c) by {
                lemma_attack_view(q, occ.0, s.0 as int, a);
            }
            if r {
                let a = choose|a: int| #[trigger] all.contains(a);
                assert(attacker(q, occ.0, s.0 as int, a) && col_at(q, a, c));
            }
            if attacked(q, occ.0, c, s.0 as int) {
                let a = choose|a: int| #[trigger] attacker(q, occ.0, s.0 as int, a) && col_at(q, a, c);
                assert(all.contains(a));
            }
        }
        r
    }

    /// The pieces standing alone between `c`'s king and an enemy slider: they
    /// may only move along the line of the pin.
    fn slider_blockers(&self, t: &Tables, c: Color) -> (r: SquareSet)
        requires
            self.placed(),
            has_kings(self.q()),
        ensures
            forall|x: int| #[trigger] r.contains(x) <==> is_blocker(self.q(), c, x),
    {
        let ghost q = self.q();
        let ksq = self.king_sq(c);
        let them = c.flip();
        let snipers = (rook_rays(t, ksq) & self.straight_sliders(them)) | (bishop_rays(t, ksq)
            & self.diagonal_sliders(them));
        assert forall|a: int| #[trigger] snipers.contains(a) <==> is_sniper(q, c, a) by {}
        let occ = self.occupied() - snipers;
        let mut blockers = SquareSet::empty();
        let mut rest = snipers;
        while rest.any()
            invariant
                q == self.q(),
                ksq.valid(),
                ksq.0 == king_of(q, c),
                forall|a: int| #[trigger] snipers.contains(a) <==> is_sniper(q, c, a),
                forall|x: int| #[trigger]
                    occ.contains(x) <==> occ_at(q, x) && !is_sniper(q, c, x),
                forall|a: int| #[trigger] rest.contains(a) ==> is_sniper(q, c, a),
                forall|x: int| #[trigger]
                    blockers.contains(x) <==> exists|a: int| #[trigger]
                        lone_screen(q, c, a, x) && !rest.contains(a),
            decreases rest.members().len(),
        {
            let ghost before = rest;
            let ghost old_blockers = blockers;
            let sniper = rest.pop();
            let ghost sn = sniper.0 as int;
            assert(is_sniper(q, c, sn));
            let b = between(t, ksq, sniper) & occ;
            assert forall|x: int| #[trigger] b.contains(x) <==> screens(q, c, sn, x) by {}
            if b.any() && !b.more_than_one() {
                blockers = blockers | b;
            }
            proof {
                lemma_squares_members(b.0);
                let only = b.members().len() == 1;
                assert forall|x: int| #[trigger] lone_screen(q, c, sn, x) <==> b.contains(x)
                    && only by {
                    if lone_screen(q, c, sn, x) {
                        assert(b.members().contains(x));
                        if b.members().len() > 1 {
                            let y0 = b.members()[0];
                            let y1 = b.members()[1];
                            assert(b.members().contains(y0) && b.members().contains(y1));
                            assert(screens(q, c, sn, y0) && screens(q, c, sn, y1));
                        }
                    }
                    if b.contains(x) && only {
                        assert(b.members().contains(x));
                        assert forall|y: int| #[trigger] screens(q, c, sn, y) implies y == x by {
                            assert(b.contains(y));
                            assert(b.members().contains(y));
                        }
                    }
                }
                assert(b.0 != 0 <==> b.members().len() > 0) by {
                    lemma_squares_empty(b.0);
                }
                assert forall|x: int| #[trigger] blockers.contains(x) <==> exists|a: int|
                    #[trigger]
                    lone_screen(q, c, a, x) && !rest.contains(a) by {
                    assert(blockers.contains(x) <==> old_blockers.contains(x) || (b.contains(x)
                        && only));
                    if old_blockers.contains(x) {
                        let a = choose|a: int| #[trigger]
                            lone_screen(q, c, a, x) && !before.contains(a);
                        assert(lone_screen(q, c, a, x) && !rest.contains(a));
                    }
                    if b.contains(x) && only {
                        assert(lone_screen(q, c, sn, x) && !rest.contains(sn));
                    }
                    if exists|a: int| #[trigger] lone_screen(q, c, a, x) && !rest.contains(a) {
                        let a = choose|a: int| #[trigger]
                            lone_screen(q, c, a, x) && !rest.contains(a);
                        if a != sn {
                            assert(lone_screen(q, c, a, x) && !before.contains(a));
                        }
                    }
                }
            }
        }
        proof {
            assert forall|x: int| #[trigger] blockers.contains(x) <==> is_blocker(q, c, x) by {
                if is_blocker(q, c, x) {
                    let a = choose|a: int| #[trigger] lone_screen(q, c, a, x);
                    assert(!rest.contains(a));
                }
            }
        }
        blockers
    }

    /// Everything but the check information.
    pub open spec fn same_position(&self, o: &Board) -> bool {
        &&& self.by_color == o.by_color
        &&& self.by_type == o.by_type
        &&& self.mailbox == o.mailbox
        &&& self.ep == o.ep
        &&& self.stm == o.stm
        &&& self.halfmove == o.halfmove
        &&& self.game_ply == o.game_ply
        &&& self.plies_from_null == o.plies_from_null
        &&& self.key == o.key
        &&& self.pawn_key == o.pawn_key
        &&& self.hist == o.hist
    }

    /// The part every node needs: what is giving check, and which of our own
    /// pieces are pinned.
    pub fn update_check_info(&mut self, t: &Tables)
        requires
            old(self).placed(),
            has_kings(old(self).q()),
        ensures
            final(self).check_info(),
            final(self).same_position(old(self)),
            final(self).check_squares == old(self).check_squares,
            final(self).blockers[1 - final(self).stm.idx()] == old(self).blockers[1 - final(
                self).stm.idx()],
    {
        let us = self.stm;
        let blockers = self.slider_blockers(t, us);
        self.blockers[us.idx()] = blockers;
        let ksq = self.king_sq(us);
        self.checkers = self.attackers_to(t, ksq, self.occupied()) & self.colors(us.flip());
    }

    /// The extra information `gives_check` needs. Quiescence never asks, and
    /// neither do nodes that return on a hash hit, so this is deferred until a
    /// node actually starts walking its moves.
    pub fn update_check_squares(&mut self, t: &Tables)
        requires
            old(self).placed(),
            has_kings(old(self).q()),
        ensures
            final(self).check_square_info(),
            final(self).same_position(old(self)),
            final(self).checkers == old(self).checkers,
            final(self).blockers[final(self).stm.idx() as int] == old(self).blockers[final(
                self).stm.idx() as int],
    {
        let them = self.stm.flip();
        let blockers = self.slider_blockers(t, them);
        self.blockers[them.idx()] = blockers;
        let them_king = self.king_sq(them);
        let occ = self.occupied();
        let rook = rook_attacks(t, them_king, occ);
        let bishop = bishop_attacks(t, them_king, occ);
        let knight = knight_attacks(t, them_king);
        let pawn = pawn_attacks(t, them, them_king);
        self.check_squares[0] = pawn;
        self.check_squares[1] = knight;
        self.check_squares[2] = bishop;
        self.check_squares[3] = rook;
        self.check_squares[4] = bishop | rook;
        self.check_squares[5] = rook | knight;
        self.check_squares[6] = bishop | knight;
        self.check_squares[7] = SquareSet::empty();
    }
}

proof fn lemma_rest_step(key: u64, place: u64, gone: u64, come: u64)
    ensures
        (key ^ gone) ^ come == (key ^ come) ^ gone,
        ((key ^ gone) ^ come) ^ ((place ^ gone) ^ come) == key ^ place,
        key ^ 0 == key,
        (place ^ 0) ^ come == place ^ come,
        (place ^ gone) ^ 0 == place ^ gone,
        (key ^ come) ^ (place ^ come) == key ^ place,
        (key ^ gone) ^ (place ^ gone) == key ^ place,
{
    assert((key ^ gone) ^ come == (key ^ come) ^ gone && ((key ^ gone) ^ come) ^ ((place ^ gone)
        ^ come) == key ^ place && key ^ 0 == key && (place ^ 0) ^ come == place ^ come && (place
        ^ gone) ^ 0 == place ^ gone && (key ^ come) ^ (place ^ come) == key ^ place && (key ^ gone)
        ^ (place ^ gone) == key ^ place) by (bit_vector);
}

/// Attack seen from the attacked square.
pub proof fn lemma_attack_view(q: Seq<Piece>, occ: u128, s: int, a: int)
    ensures
        attacker(q, occ, s, a) <==> 0 <= a < 100 && q[a].valid() && {
            let k = q[a].kind();
            ||| k == PieceType::Pawn && pawn_att(q[a].col().flip(), s, a)
            ||| knight_kind(k) && knight_att(s, a)
            ||| k == PieceType::King && king_att(s, a)
            ||| straight_kind(k) && rook_att(s, occ, a)
            ||| diagonal_kind(k) && bishop_att(s, occ, a)
        },
{
    lemma_rook_sym(s, occ, a);
    lemma_rook_sym(a, occ, s);
}

} // verus!
