//! Making and taking back moves, and the draw rules.

use vstd::prelude::*;
use crate::attacks::{Tables, pawn_attacks};
use crate::board::{Board, BoardView, Dirty, Undo};
use crate::geometry::pawn_att;
use crate::position::{
    arriving, attacked, attacker, col_at, empty_at, ep_after, ep_part, ep_real, forward_of,
    has_kings, in_check_at, is_placement, kind_at, king_of, king_on, lemma_king_is, lemma_king_of,
    lemma_occ_of, lemma_piece, lemma_piece_of, lemma_xor, moved, occ_at, occ_of, pawn_key_of,
    pawns_inside, piece_on, placement_key, position_key, promo_open, pushes, reaches, side_part,
    victim_of,
};
use crate::squareset::{group_bits, lemma_squares_members};
use crate::types::{Color, Move, Piece, PieceType, Square, promo_max};
use crate::zobrist::side_key;

verus! {

broadcast use {group_bits, lemma_occ_of};

// -- what a move does to a board ----------------------------------------------------

/// The piece that `m` captures, if any.
pub open spec fn captured_by(q: Seq<Piece>, us: Color, m: Move) -> Piece {
    if m.is_en_passant() {
        q[victim_of(us, m.to().0 as int)]
    } else {
        q[m.to().0 as int]
    }
}

/// Where it stood.
pub open spec fn capture_square(q: Seq<Piece>, us: Color, m: Move) -> Square {
    if m.is_en_passant() {
        Square(victim_of(us, m.to().0 as int) as u8)
    } else if q[m.to().0 as int] == Piece::none() {
        Square::none()
    } else {
        m.to()
    }
}

/// Does `m` restart the fifty-move count: a capture or a pawn move?
pub open spec fn irreversible(q: Seq<Piece>, us: Color, m: Move) -> bool {
    captured_by(q, us, m) != Piece::none() || q[m.from().0 as int].kind() == PieceType::Pawn
}

pub open spec fn count_up(x: u16) -> u16 {
    if x == u16::MAX {
        x
    } else {
        (x + 1) as u16
    }
}

pub open spec fn count_down(x: u16) -> u16 {
    if x == 0 {
        u16::MAX
    } else {
        (x - 1) as u16
    }
}

/// Game plies count modulo 2 to the 16th.
pub open spec fn ply_up(x: u16) -> u16 {
    if x == u16::MAX {
        0
    } else {
        (x + 1) as u16
    }
}

/// `d` lists what `m` takes off the board and puts on it.
pub open spec fn dirty_for(d: Dirty, q: Seq<Piece>, us: Color, m: Move) -> bool {
    let f = m.from();
    let t = m.to();
    let moved = q[f.0 as int];
    &&& d.n_add == 1
    &&& d.add[0] == (arriving(q, us, m), t)
    &&& if m.is_en_passant() {
        d.n_sub == 2 && d.sub[0] == (moved, f) && d.sub[1] == (
            captured_by(q, us, m),
            capture_square(q, us, m),
        )
    } else if q[t.0 as int] != Piece::none() {
        d.n_sub == 2 && d.sub[0] == (q[t.0 as int], t) && d.sub[1] == (moved, f)
    } else {
        d.n_sub == 1 && d.sub[0] == (moved, f)
    }
}

/// `u` remembers the state of `b` that a move overwrites.
pub open spec fn remembers(u: Undo, b: Board, save: bool) -> bool {
    &&& u.ep == b.ep
    &&& u.halfmove == b.halfmove
    &&& u.plies_from_null == b.plies_from_null
    &&& u.key == b.key
    &&& u.pawn_key == b.pawn_key
    &&& u.checkers == b.checkers
    &&& u.blockers@ == b.blockers@
    &&& save ==> u.check_squares@ == b.check_squares@
}

/// `b1` is `b0` after `m`, and `u` is what takes it back.
pub open spec fn made(b0: Board, m: Move, b1: Board, u: Undo, save: bool) -> bool {
    let q = b0.q();
    let us = b0.stm;
    &&& b1.placed()
    &&& b1.q() == moved(q, us, m)
    &&& b1.stm == us.flip()
    &&& b1.ep == ep_after(q, us, m)
    &&& b1.halfmove == if irreversible(q, us, m) {
        0
    } else {
        count_up(b0.halfmove)
    }
    &&& b1.plies_from_null == count_up(b0.plies_from_null)
    &&& b1.game_ply == ply_up(b0.game_ply)
    &&& b1.keyed()
    &&& b1.check_info()
    &&& b1.blockers[us.idx() as int] == b0.blockers[us.idx() as int]
    &&& b1.check_squares@ == b0.check_squares@
    &&& b1.hist@ == b0.hist@.push(b1.key)
    &&& remembers(u, b0, save)
    &&& u.captured == captured_by(q, us, m)
    &&& u.capture_sq == capture_square(q, us, m)
    &&& dirty_for(u.dirty, q, us, m)
}

/// The placement before `m`, from the placement after it and what was captured.
pub open spec fn unmoved(q: Seq<Piece>, us: Color, m: Move, u: Undo) -> Seq<Piece> {
    let f = m.from().0 as int;
    let t = m.to().0 as int;
    let mover = if !m.is_en_passant() && m.is_promotion() {
        Piece::of(us, PieceType::Pawn)
    } else {
        q[t]
    };
    let back = q.update(t, Piece::none()).update(f, mover);
    if m.is_en_passant() {
        back.update(u.capture_sq.0 as int, u.captured)
    } else if u.captured != Piece::none() {
        back.update(t, u.captured)
    } else {
        back
    }
}

/// `m` can be taken back from `b` with `u`.
pub open spec fn can_unmake(b: Board, m: Move, u: Undo) -> bool {
    let f = m.from().0 as int;
    let t = m.to().0 as int;
    &&& b.placed()
    &&& f < 100
    &&& t < 100
    &&& empty_at(b.q(), f)
    &&& occ_at(b.q(), t)
    &&& if m.is_en_passant() {
        u.captured.valid() && u.capture_sq.valid() && u.capture_sq.0 != f && (u.capture_sq.0 == t
            || empty_at(b.q(), u.capture_sq.0 as int))
    } else {
        u.captured.valid() || u.captured == Piece::none()
    }
}

/// `b0` is `b1` with `m` taken back.
pub open spec fn unmade(b1: Board, m: Move, b0: Board, u: Undo, save: bool) -> bool {
    &&& b0.placed()
    &&& b0.q() == unmoved(b1.q(), b1.stm.flip(), m, u)
    &&& b0.stm == b1.stm.flip()
    &&& b0.game_ply == count_down(b1.game_ply)
    &&& b0.hist@ == if b1.hist@.len() > 0 {
        b1.hist@.drop_last()
    } else {
        b1.hist@
    }
    &&& remembers(u, b0, save)
    &&& !save ==> b0.check_squares@ == b1.check_squares@
}

/// The two boards are the same but for what `update_check_squares` sets.
pub open spec fn same_game(a: BoardView, b: BoardView) -> bool {
    &&& a.q == b.q
    &&& a.ep == b.ep
    &&& a.stm == b.stm
    &&& a.halfmove == b.halfmove
    &&& a.game_ply == b.game_ply
    &&& a.plies_from_null == b.plies_from_null
    &&& a.key == b.key
    &&& a.pawn_key == b.pawn_key
    &&& a.checkers == b.checkers
    &&& a.blockers.len() == 2
    &&& b.blockers.len() == 2
    &&& a.blockers[a.stm.idx() as int] == b.blockers[a.stm.idx() as int]
    &&& a.hist == b.hist
}

// -- the placement after a move -----------------------------------------------------

/// What a move does square by square.
pub proof fn lemma_moved(q: Seq<Piece>, us: Color, ep: Square, m: Move)
    requires
        is_placement(q),
        reaches(q, us, ep, m),
        m.is_en_passant() ==> ep_real(q, us, ep.0 as int),
    ensures
        is_placement(moved(q, us, m)),
        ({
            let f = m.from().0 as int;
            let t = m.to().0 as int;
            let v = victim_of(us, t);
            &&& 0 <= f < 100
            &&& 0 <= t < 100
            &&& moved(q, us, m)[t] == arriving(q, us, m)
            &&& moved(q, us, m)[f] == Piece::none()
            &&& m.is_en_passant() ==> 0 <= v < 100 && v != f && v != t && q[v] == Piece::of(
                us.flip(),
                PieceType::Pawn,
            ) && moved(q, us, m)[v] == Piece::none() && q[t] == Piece::none()
            &&& forall|i: int|
                0 <= i < 100 && i != f && i != t && !(m.is_en_passant() && i == v)
                    ==> #[trigger] moved(q, us, m)[i] == q[i]
            &&& arriving(q, us, m).valid()
            &&& arriving(q, us, m).col() == us
            &&& (q[f].kind() == PieceType::King <==> arriving(q, us, m).kind() == PieceType::King)
        }),
{
    lemma_piece_of(us, m.promo_kind());
    lemma_piece_of(us.flip(), PieceType::Pawn);
    lemma_piece_of(us, PieceType::Pawn);
    lemma_piece(q[m.from().0 as int]);
    if m.is_en_passant() {
        reveal(pawn_att);
    }
}

/// A move that obeys the rules leaves one king each, captures none, and keeps the
/// pawns off the end ranks.
pub proof fn lemma_moved_kings(q: Seq<Piece>, us: Color, ep: Square, m: Move)
    requires
        is_placement(q),
        has_kings(q),
        pawns_inside(q),
        !in_check_at(q, us.flip()),
        ep == Square::none() || ep_real(q, us, ep.0 as int),
        reaches(q, us, ep, m),
    ensures
        has_kings(moved(q, us, m)),
        pawns_inside(moved(q, us, m)),
        king_of(moved(q, us, m), us.flip()) == king_of(q, us.flip()),
        king_of(moved(q, us, m), us) == if m.from().0 == king_of(q, us) {
            m.to().0 as int
        } else {
            king_of(q, us)
        },
        m.to().0 != king_of(q, us.flip()),
{
    let f = m.from().0 as int;
    let t = m.to().0 as int;
    let them = us.flip();
    let q1 = moved(q, us, m);
    let kt = king_of(q, them);
    let ku = king_of(q, us);
    lemma_moved(q, us, ep, m);
    lemma_king_of(q, us);
    lemma_king_of(q, them);
    lemma_piece_of(us, PieceType::King);
    lemma_piece_of(them, PieceType::King);
    lemma_piece_of(us, PieceType::Pawn);
    lemma_piece_of(them, PieceType::Pawn);
    lemma_piece(q[f]);
    lemma_piece(q[t]);
    lemma_piece(arriving(q, us, m));
    if t == kt {
        assert(col_at(q, t, them));
        assert(attacker(q, occ_of(q), kt, f));
        assert(attacked(q, occ_of(q), us, kt));
        assert(us == them.flip());
        assert(false);
    }
    assert(q1[kt] == q[kt]);
    assert(king_on(q1, them, kt)) by {
        assert forall|j: int| #[trigger] piece_on(q1, j, them, PieceType::King) implies j == kt by {
            if j == t {
            } else {
                assert(piece_on(q, j, them, PieceType::King));
            }
        }
    }
    lemma_king_is(q1, them, kt);
    let ku1 = if f == ku {
        t
    } else {
        ku
    };
    assert(q[ku] == Piece::of(us, PieceType::King));
    if f == ku {
        assert(!m.is_promotion());
        assert(arriving(q, us, m) == q[f]);
    } else {
        assert(t != ku);
        assert(q1[ku] == q[ku]);
    }
    assert(king_on(q1, us, ku1)) by {
        assert forall|j: int| #[trigger] piece_on(q1, j, us, PieceType::King) implies j == ku1 by {
            if j == t {
                assert(q[f].kind() == PieceType::King);
                assert(piece_on(q, f, us, PieceType::King));
            } else {
                assert(piece_on(q, j, us, PieceType::King));
            }
        }
    }
    lemma_king_is(q1, us, ku1);
    assert(exists|k: int| #[trigger] king_on(q1, Color::White, k)) by {
        match us {
            Color::White => assert(king_on(q1, Color::White, ku1)),
            Color::Black => assert(king_on(q1, Color::White, kt)),
        }
    }
    assert(exists|k: int| #[trigger] king_on(q1, Color::Black, k)) by {
        match us {
            Color::White => assert(king_on(q1, Color::Black, kt)),
            Color::Black => assert(king_on(q1, Color::Black, ku1)),
        }
    }
    assert forall|i: int| #[trigger] kind_at(q1, i, PieceType::Pawn) implies 10 <= i < 90 by {
        if i == t {
            if m.is_promotion() && !m.is_en_passant() {
                assert(promo_max(m.promo_kind()) > 0);
                assert(false);
            }
            assert(kind_at(q, f, PieceType::Pawn));
            reveal(pawn_att);
        } else {
            assert(kind_at(q, i, PieceType::Pawn));
        }
    }
}

/// The en passant square that a move leaves is a real one.
pub proof fn lemma_moved_ep(q: Seq<Piece>, us: Color, ep: Square, m: Move)
    requires
        is_placement(q),
        pawns_inside(q),
        reaches(q, us, ep, m),
        ep == Square::none() || ep_real(q, us, ep.0 as int),
    ensures
        ep_after(q, us, m) == Square::none() || ep_real(
            moved(q, us, m),
            us.flip(),
            ep_after(q, us, m).0 as int,
        ),
        ep_after(q, us, m).valid() || ep_after(q, us, m) == Square::none(),
{
    let f = m.from().0 as int;
    let t = m.to().0 as int;
    let cross = (f + t) / 2;
    let q1 = moved(q, us, m);
    lemma_moved(q, us, ep, m);
    if ep_after(q, us, m) != Square::none() {
        lemma_piece(q[f]);
        reveal(pawn_att);
        assert(kind_at(q, f, PieceType::Pawn));
        assert(pushes(q, us, f, t));
        assert(t == f + 2 * forward_of(us));
        assert(cross == f + forward_of(us));
        assert(!m.is_promotion());
        assert(q1[cross] == q[cross]);
    }
}

// -- keys ---------------------------------------------------------------------------

proof fn lemma_key_turn(k0: u64, p0: u64, e0: u64, s0: u64, k1: u64, p1: u64, e1: u64, side: u64, s1: u64)
    requires
        k0 == p0 ^ e0 ^ s0,
        k1 ^ p1 == k0 ^ p0,
        s1 == s0 ^ side,
    ensures
        ((k1 ^ e0) ^ e1) ^ side == p1 ^ e1 ^ s1,
{
    assert(((k1 ^ e0) ^ e1) ^ side == p1 ^ e1 ^ s1) by (bit_vector)
        requires
            k0 == p0 ^ e0 ^ s0,
            k1 ^ p1 == k0 ^ p0,
            s1 == s0 ^ side,
    ;
}

proof fn lemma_xor_same(a: u64, b: u64)
    ensures
        a ^ b == 0 <==> a == b,
{
    assert(a ^ b == 0 <==> a == b) by (bit_vector);
}

impl Board {
    // -- make / unmake ------------------------------------------------------

    pub fn make_move(&mut self, t: &Tables, m: Move, undo: &mut Undo)
        requires
            old(self).wf(),
            reaches(old(self).q(), old(self).stm, old(self).ep, m),
        ensures
            made(*old(self), m, *final(self), *final(undo), true),
            old(self).legal_here(m) ==> final(self).wf(),
            can_unmake(*final(self), m, *final(undo)),
    {
        self.make_move_impl::<true>(t, m, undo);
    }

    /// Search quiescence never reads check-square masks. Its caller must not
    /// inspect them until it next calls `update_check_squares`.
    pub fn make_move_without_check_squares(&mut self, t: &Tables, m: Move, undo: &mut Undo)
        requires
            old(self).wf(),
            reaches(old(self).q(), old(self).stm, old(self).ep, m),
        ensures
            made(*old(self), m, *final(self), *final(undo), false),
            old(self).legal_here(m) ==> final(self).wf(),
            can_unmake(*final(self), m, *final(undo)),
    {
        self.make_move_impl::<false>(t, m, undo);
    }

    #[verifier::rlimit(60)]
    #[verifier::spinoff_prover]
    fn make_move_impl<const SAVE_CHECK_SQUARES: bool>(&mut self, t: &Tables, m: Move, undo: &mut Undo)
        requires
            old(self).wf(),
            reaches(old(self).q(), old(self).stm, old(self).ep, m),
        ensures
            made(*old(self), m, *final(self), *final(undo), SAVE_CHECK_SQUARES),
            old(self).legal_here(m) ==> final(self).wf(),
            can_unmake(*final(self), m, *final(undo)),
    {
        let ghost b0 = *self;
        let ghost q = self.q();
        undo.ep = self.ep;
        undo.halfmove = self.halfmove;
        undo.plies_from_null = self.plies_from_null;
        undo.key = self.key;
        undo.pawn_key = self.pawn_key;
        undo.checkers = self.checkers;
        undo.blockers = self.blockers;
        if SAVE_CHECK_SQUARES {
            undo.check_squares = self.check_squares;
        }
        undo.captured = Piece::none();
        undo.capture_sq = Square::none();
        let none = (Piece::none(), Square(0));
        let mut d = Dirty { n_sub: 0, n_add: 0, sub: [none, none], add: [none, none] };
        let us = self.stm;
        let them = us.flip();
        let from = m.from();
        let to = m.to();
        let moved_piece = self.piece_at(from);
        proof {
            lemma_moved(q, us, self.ep, m);
            lemma_moved_kings(q, us, self.ep, m);
            lemma_moved_ep(q, us, self.ep, m);
            lemma_piece(moved_piece);
            lemma_piece(q[to.0 as int]);
        }
        self.halfmove = self.halfmove.saturating_add(1);
        self.plies_from_null = self.plies_from_null.saturating_add(1);
        self.game_ply = self.game_ply.wrapping_add(1);
        // The en passant right expires unless this move creates a new one.
        let mut new_ep = Square::none();
        if m.is_en_passant() {
            let cap_sq = Board::ep_victim(us, to);
            let captured = self.remove(t, cap_sq);
            self.relocate(t, from, to);
            undo.captured = captured;
            undo.capture_sq = cap_sq;
            d.sub = [(moved_piece, from), (captured, cap_sq)];
            d.add = [(moved_piece, to), none];
            d.n_sub = 2;
            d.n_add = 1;
            self.halfmove = 0;
            proof {
                assert(self.q() =~= moved(q, us, m));
            }
        } else {
            let captured = self.piece_at(to);
            if !captured.is_none() {
                self.remove(t, to);
                undo.captured = captured;
                undo.capture_sq = to;
                d.sub = [(captured, to), (moved_piece, from)];
                d.n_sub = 2;
                self.halfmove = 0;
            } else {
                d.sub = [(moved_piece, from), none];
                d.n_sub = 1;
            }
            if m.is_promotion() {
                let promoted = Piece::new(us, m.promo());
                self.remove(t, from);
                self.put(t, promoted, to);
                d.add = [(promoted, to), none];
                d.n_add = 1;
            } else {
                self.relocate(t, from, to);
                d.add = [(moved_piece, to), none];
                d.n_add = 1;
            }
            proof {
                assert(self.q() =~= moved(q, us, m));
            }
            if moved_piece.piece_type() == PieceType::Pawn {
                self.halfmove = 0;
                let rank_gap: u8 = if from.rank() > to.rank() {
                    from.rank() - to.rank()
                } else {
                    to.rank() - from.rank()
                };
                if rank_gap == 2 {
                    // The two squares differ by exactly 20, so this is exact.
                    let cross = Square((from.0 + to.0) / 2);
                    // Recorded only when an enemy pawn could actually capture
                    // there, whether or not doing so would expose its own king.
                    // This keeps the hash key sharp for repetitions.
                    let ready = pawn_attacks(t, us, cross) & self.colored(them, PieceType::Pawn);
                    if ready.any() {
                        new_ep = cross;
                    }
                    proof {
                        let c = cross.0 as int;
                        if ready.0 != 0 {
                            let a = choose|a: int| #[trigger] ready.contains(a);
                            assert(pawn_att(us, c, a) && piece_on(
                                moved(q, us, m),
                                a,
                                them,
                                PieceType::Pawn,
                            ));
                        } else {
                            assert forall|a: int| #[trigger] pawn_att(us, c, a) implies !piece_on(
                                moved(q, us, m),
                                a,
                                them,
                                PieceType::Pawn,
                            ) by {
                                assert(!ready.contains(a));
                            }
                        }
                    }
                }
            }
        }
        undo.dirty = d;
        assert(new_ep == ep_after(q, us, m));
        let ghost mid = *self;
        self.set_ep(t, new_ep);
        self.stm = them;
        self.key = self.key ^ t.zobrist().side();
        proof {
            let s0 = side_part(us);
            let s1 = side_part(them);
            lemma_xor(s0, side_key(), 0);
            lemma_xor(side_key(), side_key(), 0);
            lemma_key_turn(
                b0.key,
                placement_key(q),
                ep_part(b0.ep),
                s0,
                mid.key,
                placement_key(mid.q()),
                ep_part(new_ep),
                side_key(),
                s1,
            );
            assert(self.key == position_key(self.q(), self.ep, self.stm));
            lemma_xor_same(b0.pawn_key, pawn_key_of(q));
            lemma_xor_same(mid.pawn_key, pawn_key_of(mid.q()));
        }
        self.update_check_info(t);
        self.hist.push(self.key);
    }

    pub fn unmake_move(&mut self, t: &Tables, m: Move, undo: &Undo)
        requires
            can_unmake(*old(self), m, *undo),
        ensures
            unmade(*old(self), m, *final(self), *undo, true),
    {
        self.unmake_move_impl::<true>(t, m, undo);
    }

    pub fn unmake_move_without_check_squares(&mut self, t: &Tables, m: Move, undo: &Undo)
        requires
            can_unmake(*old(self), m, *undo),
        ensures
            unmade(*old(self), m, *final(self), *undo, false),
    {
        self.unmake_move_impl::<false>(t, m, undo);
    }

    fn unmake_move_impl<const SAVE_CHECK_SQUARES: bool>(&mut self, t: &Tables, m: Move, undo: &Undo)
        requires
            can_unmake(*old(self), m, *undo),
        ensures
            unmade(*old(self), m, *final(self), *undo, SAVE_CHECK_SQUARES),
    {
        let ghost b1 = *self;
        if self.hist.len() > 0 {
            self.hist.pop();
        }
        self.stm = self.stm.flip();
        let us = self.stm;
        let from = m.from();
        let to = m.to();
        proof {
            lemma_piece_of(us, PieceType::Pawn);
        }
        if m.is_en_passant() {
            self.relocate(t, to, from);
            self.put(t, undo.captured, undo.capture_sq);
        } else {
            if m.is_promotion() {
                self.remove(t, to);
                self.put(t, Piece::new(us, PieceType::Pawn), from);
            } else {
                self.relocate(t, to, from);
            }
            if !undo.captured.is_none() {
                self.put(t, undo.captured, to);
            }
        }
        proof {
            assert(self.q() =~= unmoved(b1.q(), us, m, *undo));
        }
        self.ep = undo.ep;
        self.halfmove = undo.halfmove;
        self.plies_from_null = undo.plies_from_null;
        self.game_ply = self.game_ply.wrapping_sub(1);
        self.key = undo.key;
        self.pawn_key = undo.pawn_key;
        self.checkers = undo.checkers;
        self.blockers = undo.blockers;
        if SAVE_CHECK_SQUARES {
            self.check_squares = undo.check_squares;
        }
    }

    /// Passes the turn.
    pub fn make_null(&mut self, t: &Tables, undo: &mut Undo)
        requires
            old(self).wf(),
        ensures
            made_null(*old(self), *final(self), *final(undo)),
            !in_check_at(old(self).q(), old(self).stm) ==> final(self).wf(),
    {
        let ghost b0 = *self;
        undo.ep = self.ep;
        undo.halfmove = self.halfmove;
        undo.plies_from_null = self.plies_from_null;
        undo.key = self.key;
        undo.pawn_key = self.pawn_key;
        undo.checkers = self.checkers;
        undo.blockers = self.blockers;
        undo.check_squares = self.check_squares;
        undo.dirty.n_sub = 0;
        undo.dirty.n_add = 0;
        self.set_ep(t, Square::none());
        self.stm = self.stm.flip();
        self.key = self.key ^ t.zobrist().side();
        proof {
            let s0 = side_part(b0.stm);
            lemma_xor(s0, side_key(), 0);
            lemma_xor(side_key(), side_key(), 0);
            lemma_key_turn(
                b0.key,
                placement_key(b0.q()),
                ep_part(b0.ep),
                s0,
                b0.key,
                placement_key(b0.q()),
                ep_part(Square::none()),
                side_key(),
                side_part(b0.stm.flip()),
            );
        }
        self.halfmove = self.halfmove.saturating_add(1);
        self.game_ply = self.game_ply.wrapping_add(1);
        self.plies_from_null = 0;
        self.update_check_info(t);
        self.hist.push(self.key);
    }

    /// Takes back a passed turn.
    pub fn unmake_null(&mut self, undo: &Undo)
        ensures
            unmade_null(*old(self), *final(self), *undo),
    {
        if self.hist.len() > 0 {
            self.hist.pop();
        }
        self.stm = self.stm.flip();
        self.ep = undo.ep;
        self.halfmove = undo.halfmove;
        self.plies_from_null = undo.plies_from_null;
        self.game_ply = self.game_ply.wrapping_sub(1);
        self.key = undo.key;
        self.pawn_key = undo.pawn_key;
        self.checkers = undo.checkers;
        self.blockers = undo.blockers;
        self.check_squares = undo.check_squares;
    }

    // -- promotion inventory -------------------------------------------------

    /// Bit `pt.idx()` set for each type `c` may still promote to.
    pub fn promo_inventory(&self, c: Color) -> (r: u8)
        requires
            self.placed(),
        ensures
            r == inventory(self.q(), c),
    {
        let knight: u8 = if self.promo_available(c, PieceType::Knight) { 2 } else { 0 };
        let bishop: u8 = if self.promo_available(c, PieceType::Bishop) { 4 } else { 0 };
        let rook: u8 = if self.promo_available(c, PieceType::Rook) { 8 } else { 0 };
        let queen: u8 = if self.promo_available(c, PieceType::Queen) { 16 } else { 0 };
        let marshal: u8 = if self.promo_available(c, PieceType::Marshal) { 32 } else { 0 };
        let cardinal: u8 = if self.promo_available(c, PieceType::Cardinal) { 64 } else { 0 };
        knight + bishop + rook + queen + marshal + cardinal
    }

    // -- draws --------------------------------------------------------------

    /// The current position has occurred `i` plies back.
    pub open spec fn repeats(&self, i: int) -> bool {
        &&& 4 <= i <= self.halfmove
        &&& i <= self.plies_from_null
        &&& i < self.hist@.len()
        &&& i % 2 == 0
        &&& self.hist@[self.hist@.len() - 1 - i] == self.key
    }

    /// A repetition of the current position: one repeat inside the search tree
    /// or two in the game history before it.
    pub fn has_repetition(&self, ply: usize) -> (r: bool)
        ensures
            r <==> (exists|i: int| #[trigger] self.repeats(i) && i <= ply) || (exists|i: int, j: int|
                #[trigger] self.repeats(i) && #[trigger] self.repeats(j) && i < j),
    {
        let n = self.hist.len();
        let mut max: usize = self.halfmove as usize;
        if (self.plies_from_null as usize) < max {
            max = self.plies_from_null as usize;
        }
        let back: usize = if n > 0 {
            n - 1
        } else {
            0
        };
        if back < max {
            max = back;
        }
        let mut count: usize = 0;
        let ghost mut seen: int = 0;
        let mut i: usize = 4;
        while i <= max
            invariant
                n == self.hist@.len(),
                max <= 65535,
                i <= max + 2 || i == 4,
                i % 2 == 0,
                i >= 4,
                max <= self.halfmove,
                max <= self.plies_from_null,
                max < n || max == 0,
                max == self.halfmove || max == self.plies_from_null || max == n - 1 || max == 0,
                n == 0 ==> max == 0,
                max == 0 && n > 0 ==> self.halfmove == 0 || self.plies_from_null == 0 || n == 1,
                count <= 1,
                count == 1 ==> self.repeats(seen) && seen < i && seen > ply,
                forall|j: int| #[trigger]
                    self.repeats(j) && j < i ==> j > ply && count == 1 && j == seen,
            decreases max + 2 - i,
        {
            if self.hist[n - 1 - i] == self.key {
                proof {
                    assert(self.repeats(i as int));
                }
                if i <= ply {
                    return true;
                }
                count += 1;
                if count >= 2 {
                    return true;
                }
                proof {
                    seen = i as int;
                }
            }
            i += 2;
            assert forall|j: int| #[trigger] self.repeats(j) && j < i implies j > ply && count == 1
                && j == seen by {
                if j >= i - 2 {
                    assert(j == i - 2);
                }
            }
        }
        assert forall|j: int| #[trigger] self.repeats(j) implies j < i by {}
        false
    }

    /// Insufficient material for either side to mate.
    pub fn insufficient_material(&self) -> (r: bool)
        requires
            self.placed(),
        ensures
            r == too_little(self.q()),
    {
        let majors = self.pieces(PieceType::Pawn) | self.pieces(PieceType::Rook) | self.pieces(
            PieceType::Queen,
        ) | self.pieces(PieceType::Marshal) | self.pieces(PieceType::Cardinal);
        if majors.any() {
            proof {
                let i = choose|i: int| #[trigger] majors.contains(i);
                assert(occ_at(self.q(), i));
            }
            return false;
        }
        let minors = self.pieces(PieceType::Knight) | self.pieces(PieceType::Bishop);
        let r = minors.count() <= 1;
        proof {
            let q = self.q();
            assert forall|i: int| #[trigger] occ_at(q, i) implies kind_at(q, i, PieceType::King)
                || minor_at(q, i) by {
                assert(!majors.contains(i));
                lemma_piece(q[i]);
            }
            lemma_squares_members(minors.0);
            let s = minors.members();
            if r {
                assert forall|i: int, j: int| #[trigger] minor_at(q, i) && #[trigger] minor_at(
                    q,
                    j,
                ) implies i == j by {
                    assert(minors.contains(i) && minors.contains(j));
                    assert(s.contains(i) && s.contains(j));
                }
            } else {
                assert(s.contains(s[0]) && s.contains(s[1]));
                assert(minor_at(q, s[0]) && minor_at(q, s[1]));
                assert(s[0] != s[1]);
            }
        }
        r
    }
}

pub open spec fn minor_at(q: Seq<Piece>, i: int) -> bool {
    kind_at(q, i, PieceType::Knight) || kind_at(q, i, PieceType::Bishop)
}

/// Nothing but kings and at most one knight or bishop.
pub open spec fn too_little(q: Seq<Piece>) -> bool {
    &&& forall|i: int| #[trigger]
        occ_at(q, i) ==> kind_at(q, i, PieceType::King) || minor_at(q, i)
    &&& forall|i: int, j: int| #[trigger] minor_at(q, i) && #[trigger] minor_at(q, j) ==> i == j
}

/// The promotion inventory as a number: bit `pt.idx()` for each type still open.
pub open spec fn inventory(q: Seq<Piece>, c: Color) -> int {
    (if promo_open(q, c, PieceType::Knight) { 2int } else { 0 })
        + (if promo_open(q, c, PieceType::Bishop) { 4int } else { 0 })
        + (if promo_open(q, c, PieceType::Rook) { 8int } else { 0 })
        + (if promo_open(q, c, PieceType::Queen) { 16int } else { 0 })
        + (if promo_open(q, c, PieceType::Marshal) { 32int } else { 0 })
        + (if promo_open(q, c, PieceType::Cardinal) { 64int } else { 0 })
}

/// `b1` is `b0` with the turn passed.
pub open spec fn made_null(b0: Board, b1: Board, u: Undo) -> bool {
    &&& b1.placed()
    &&& b1.q() == b0.q()
    &&& b1.stm == b0.stm.flip()
    &&& b1.ep == Square::none()
    &&& b1.halfmove == count_up(b0.halfmove)
    &&& b1.plies_from_null == 0
    &&& b1.game_ply == ply_up(b0.game_ply)
    &&& b1.keyed()
    &&& b1.check_info()
    &&& b1.blockers[b0.stm.idx() as int] == b0.blockers[b0.stm.idx() as int]
    &&& b1.check_squares@ == b0.check_squares@
    &&& b1.hist@ == b0.hist@.push(b1.key)
    &&& remembers(u, b0, true)
    &&& u.dirty.n_sub == 0
    &&& u.dirty.n_add == 0
}

/// `b0` is `b1` with the passed turn taken back.
pub open spec fn unmade_null(b1: Board, b0: Board, u: Undo) -> bool {
    &&& b0.by_color == b1.by_color
    &&& b0.by_type == b1.by_type
    &&& b0.q() == b1.q()
    &&& b0.stm == b1.stm.flip()
    &&& b0.game_ply == count_down(b1.game_ply)
    &&& b0.hist@ == if b1.hist@.len() > 0 {
        b1.hist@.drop_last()
    } else {
        b1.hist@
    }
    &&& remembers(u, b0, true)
}

// -- laws ---------------------------------------------------------------------------

/// Law: taking a move back restores the board that it was made on, whatever
/// `update_check_squares` did in between.
pub proof fn unmake_restores(b0: Board, m: Move, b1: Board, after: Board, b2: Board, u: Undo)
    requires
        b0.wf(),
        reaches(b0.q(), b0.stm, b0.ep, m),
        made(b0, m, b1, u, true),
        after.placed(),
        same_game(after@, b1@),
        unmade(after, m, b2, u, true),
    ensures
        can_unmake(after, m, u),
        b2@ == b0@,
        b2.wf(),
{
    lemma_unmoved(b0, m, u);
    assert(b2.hist@ =~= b0.hist@);
    assert(b2@ =~= b0@);
}

/// Law: the same without saved check squares, which are left as they are found.
pub proof fn unmake_restores_without_check_squares(
    b0: Board,
    m: Move,
    b1: Board,
    after: Board,
    b2: Board,
    u: Undo,
)
    requires
        b0.wf(),
        reaches(b0.q(), b0.stm, b0.ep, m),
        made(b0, m, b1, u, false),
        after.placed(),
        same_game(after@, b1@),
        unmade(after, m, b2, u, false),
    ensures
        can_unmake(after, m, u),
        same_game(b2@, b0@),
        b2.blockers@ == b0.blockers@,
        b2.check_squares@ == after.check_squares@,
        b2.wf(),
{
    lemma_unmoved(b0, m, u);
    assert(b2.hist@ =~= b0.hist@);
}

/// Law: taking back a passed turn restores the board.
pub proof fn unmake_null_restores(b0: Board, b1: Board, after: Board, b2: Board, u: Undo)
    requires
        b0.wf(),
        made_null(b0, b1, u),
        after.placed(),
        same_game(after@, b1@),
        unmade_null(after, b2, u),
    ensures
        b2@ == b0@,
        b2.wf(),
{
    assert(b2.hist@ =~= b0.hist@);
    assert(b2@ =~= b0@);
    assert(b2.placed()) by {
        assert(b2.mailbox@ == after.mailbox@);
    }
}

/// Law: the key says only what stands where, who is to move, and the en passant
/// square: two boards in play that agree on these have the same keys.
pub proof fn key_is_the_position(a: Board, b: Board)
    requires
        a.wf(),
        b.wf(),
        a.q() == b.q(),
        a.stm == b.stm,
        a.ep == b.ep,
    ensures
        a.key == b.key,
        a.pawn_key == b.pawn_key,
{
}

proof fn lemma_unmoved(b0: Board, m: Move, u: Undo)
    requires
        b0.wf(),
        reaches(b0.q(), b0.stm, b0.ep, m),
        u.captured == captured_by(b0.q(), b0.stm, m),
        u.capture_sq == capture_square(b0.q(), b0.stm, m),
    ensures
        unmoved(moved(b0.q(), b0.stm, m), b0.stm, m, u) == b0.q(),
        b0.stm.flip().flip() == b0.stm,
{
    let q = b0.q();
    let us = b0.stm;
    let f = m.from().0 as int;
    let t = m.to().0 as int;
    lemma_moved(q, us, b0.ep, m);
    lemma_piece(q[f]);
    lemma_piece(q[t]);
    let back = unmoved(moved(q, us, m), us, m, u);
    assert forall|i: int| 0 <= i < 100 implies back[i] == q[i] by {
        if i != f && i != t && !(m.is_en_passant() && i == victim_of(us, t)) {
            assert(moved(q, us, m)[i] == q[i]);
        }
    }
    assert(back =~= q);
}

} // verus!
