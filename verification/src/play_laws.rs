//! What playing a move changes, on the fields of the board.

use vstd::prelude::*;

use crate::geometry::pawn_att;
use crate::attacks::Tables;
use crate::board::{Board, Undo};
use crate::play::{lemma_moved, made, made_null, unmake_null_restores, unmake_restores};
use crate::position::{
    ep_part, lemma_key_update, lemma_xor, moved, piece_on, placement_key, reaches, side_part,
    square_key, square_pawn_key,
};
use crate::rules::{
    ahead, first_of, is_after, is_struck, legal_moves_follow_the_rules, lemma_may_move,
    lemma_moved_is_after, may_move, move_number,
};
use crate::types::{Move, PieceType, Square};
use crate::zobrist::{draw, ep_key, psq_key, side_key};

verus! {

/// Law: the fifty-move count starts again with every move of a pawn, a promotion
/// included, and with every capture; any other move adds one to it, up to the most it
/// can hold.
pub proof fn pawn_moves_and_captures_restart_the_count(b: Board, m: Move, after: Board, u: Undo, save: bool)
    requires
        b.wf(),
        reaches(b.q(), b.stm, b.ep, m),
        made(b, m, after, u, save),
    ensures
        b.mailbox[m.from().0 as int].0 % 8 == 0 ==> after.halfmove == 0,
        b.mailbox[m.to().0 as int].0 != 16 ==> after.halfmove == 0,
        b.mailbox[m.from().0 as int].0 % 8 != 0 && b.mailbox[m.to().0 as int].0 == 16
            && b.halfmove < 65535 ==> after.halfmove == b.halfmove + 1,
        b.mailbox[m.from().0 as int].0 % 8 != 0 && b.mailbox[m.to().0 as int].0 == 16
            && b.halfmove == 65535 ==> after.halfmove == 65535,
{
}

/// Law: a move takes the piece from its square to the other one, where it may become
/// another piece, removes what it captures, and touches nothing else.
pub proof fn a_move_moves_one_piece(
    b: Board,
    m: Move,
    after: Board,
    u: Undo,
    save: bool,
    f: int,
    t: int,
    kind: int,
    passing: bool,
)
    requires
        b.wf(),
        0 <= f < 100,
        0 <= t < 100,
        0 <= kind < 8,
        m.0 == move_number(f, t, kind, passing),
        may_move(b.q(), b.stm, b.ep, f, t, kind, passing),
        made(b, m, after, u, save),
    ensures
        is_after(b.mailbox@, b.stm, f, t, kind, passing, after.mailbox@),
        passing ==> u.captured.0 == first_of(b.stm.flip()) && u.capture_sq.0 == t - ahead(b.stm),
        !passing ==> u.captured == b.mailbox[t],
        !passing && u.captured.0 != 16 ==> u.capture_sq.0 == t,
{
    lemma_may_move(b.q(), b.stm, b.ep, m, f, t, kind, passing);
    lemma_moved_is_after(b.q(), b.stm, b.ep, m, f, t, kind, passing, after.q());
    lemma_moved(b.q(), b.stm, b.ep, m);
}

/// Law: a move passes the turn and counts one ply, in the game and since the last
/// pass, and the game remembers the position it leads to.
pub proof fn a_move_is_one_ply(b: Board, m: Move, after: Board, u: Undo, save: bool)
    requires
        b.wf(),
        reaches(b.q(), b.stm, b.ep, m),
        made(b, m, after, u, save),
    ensures
        after.stm != b.stm,
        after.game_ply == (b.game_ply + 1) % 65536,
        b.plies_from_null < 65535 ==> after.plies_from_null == b.plies_from_null + 1,
        after.hist@.len() == b.hist@.len() + 1,
        after.hist@.last() == after.key,
        forall|i: int| 0 <= i < b.hist@.len() ==> #[trigger] after.hist@[i] == b.hist@[i],
{
}

/// Law: a pawn that moves two squares can be taken in passing on the square it
/// crossed if an enemy pawn stands beside it, and after any other move nothing can.
pub proof fn a_double_step_can_be_taken_in_passing(b: Board, m: Move, after: Board, u: Undo, save: bool)
    requires
        b.wf(),
        reaches(b.q(), b.stm, b.ep, m),
        made(b, m, after, u, save),
    ensures
        ({
            let f = m.from().0 as int;
            let t = m.to().0 as int;
            let foe = first_of(b.stm.flip());
            let beside = (t % 10 > 0 && b.mailbox[t - 1].0 == foe) || (t % 10 < 9 && b.mailbox[t
                + 1].0 == foe);
            if b.mailbox[f].0 % 8 == 0 && t == f + 2 * ahead(b.stm) && beside {
                after.ep.0 == f + ahead(b.stm)
            } else {
                after.ep == Square::none()
            }
        }),
{
    reveal(pawn_att);
    let q = b.q();
    let us = b.stm;
    let f = m.from().0 as int;
    let t = m.to().0 as int;
    let foe = first_of(us.flip());
    let q1 = moved(q, us, m);
    lemma_moved(q, us, b.ep, m);
    let cross = (f + t) / 2;
    if q[f].kind() == PieceType::Pawn && t == f + 2 * ahead(us) {
        assert(cross == f + ahead(us));
        if t % 10 > 0 && q[t - 1].0 == foe {
            assert(pawn_att(us, cross, t - 1) && piece_on(q1, t - 1, us.flip(), PieceType::Pawn));
        }
        if t % 10 < 9 && q[t + 1].0 == foe {
            assert(pawn_att(us, cross, t + 1) && piece_on(q1, t + 1, us.flip(), PieceType::Pawn));
        }
    }
    if after.ep != Square::none() {
        let a = choose|a: int| #[trigger]
            pawn_att(us, cross, a) && piece_on(q1, a, us.flip(), PieceType::Pawn);
        assert(a / 10 == t / 10);
        assert(a == t - 1 || a == t + 1);
    }
}

/// Law: passing the turn changes no piece, gives up the capture en passant, counts one
/// ply towards the fifty moves and bars repetitions across the pass.
pub proof fn a_pass_moves_nothing(b: Board, after: Board, u: Undo)
    requires
        b.wf(),
        made_null(b, after, u),
    ensures
        after.mailbox@ == b.mailbox@,
        after.stm != b.stm,
        after.ep.0 == 100,
        b.halfmove < 65535 ==> after.halfmove == b.halfmove + 1,
        after.plies_from_null == 0,
        after.game_ply == (b.game_ply + 1) % 65536,
        after.hist@ == b.hist@.push(after.key),
{
}

/// Law: making a move does all of this, with the masks for checks or without.
pub proof fn making_a_move_plays_it(
    b: &mut Board,
    u: &mut Undo,
    tables: Tables,
    m: Move,
    f: int,
    t: int,
    kind: int,
    passing: bool,
    masks: bool,
)
    requires
        b.wf(),
        0 <= f < 100,
        0 <= t < 100,
        0 <= kind < 8,
        m.0 == move_number(f, t, kind, passing),
        may_move(b.q(), b.stm, b.ep, f, t, kind, passing),
        if masks {
            call_ensures(Board::make_move, (b, &tables, m, u), ())
        } else {
            call_ensures(Board::make_move_without_check_squares, (b, &tables, m, u), ())
        },
    ensures
        is_after(old(b).mailbox@, old(b).stm, f, t, kind, passing, final(b).mailbox@),
        final(b).stm != old(b).stm,
        final(b).hist@.len() == old(b).hist@.len() + 1,
        final(b).hist@.last() == final(b).key,
        old(b).mailbox[f].0 % 8 == 0 || old(b).mailbox[t].0 != 16 ==> final(b).halfmove == 0,
        old(b).mailbox[f].0 % 8 != 0 && old(b).mailbox[t].0 == 16 && old(b).halfmove < 65535
            ==> final(b).halfmove == old(b).halfmove + 1,
        !is_struck(final(b).q(), old(b).stm) ==> final(b).wf(),
{
    lemma_may_move(b.q(), b.stm, b.ep, m, f, t, kind, passing);
    assert(made(*old(b), m, *final(b), *final(u), masks));
    a_move_moves_one_piece(*old(b), m, *final(b), *final(u), masks, f, t, kind, passing);
    pawn_moves_and_captures_restart_the_count(*old(b), m, *final(b), *final(u), masks);
    legal_moves_follow_the_rules(
        old(b).q(),
        old(b).stm,
        old(b).ep,
        m,
        f,
        t,
        kind,
        passing,
        final(b).q(),
    );
}

/// Law: a move made and taken back leaves the board as it was.
pub proof fn a_move_taken_back_leaves_nothing(b: &mut Board, after: &mut Board, u: &mut Undo, tables: Tables, m: Move)
    requires
        b.wf(),
        reaches(b.q(), b.stm, b.ep, m),
        call_ensures(Board::make_move, (b, &tables, m, u), ()),
        *old(after) == *final(b),
        call_ensures(Board::unmake_move, (after, &tables, m, &*final(u)), ()),
    ensures
        final(after)@ == old(b)@,
        final(after).mailbox@ == old(b).mailbox@,
        final(after).key == old(b).key,
        final(after).halfmove == old(b).halfmove,
        final(after).ep == old(b).ep,
        final(after).stm == old(b).stm,
        final(after).hist@ == old(b).hist@,
{
    unmake_restores(*old(b), m, *final(b), *old(after), *final(after), *final(u));
}

/// Law: so does a pass.
pub proof fn a_pass_taken_back_leaves_nothing(b: &mut Board, after: &mut Board, u: &mut Undo, tables: Tables)
    requires
        b.wf(),
        call_ensures(Board::make_null, (b, &tables, u), ()),
        *old(after) == *final(b),
        call_ensures(Board::unmake_null, (after, &*final(u)), ()),
    ensures
        final(after)@ == old(b)@,
        final(after).mailbox@ == old(b).mailbox@,
        final(after).key == old(b).key,
        final(after).ep == old(b).ep,
        final(after).stm == old(b).stm,
        final(after).hist@ == old(b).hist@,
{
    unmake_null_restores(*old(b), *final(b), *old(after), *final(after), *final(u));
}

// -- keys ----------------------------------------------------------------------------

proof fn lemma_xor_out(p: u64, e: u64, s: u64, e2: u64, s2: u64)
    ensures
        (p ^ e ^ s) ^ (p ^ e2 ^ s2) == e ^ e2 ^ s ^ s2,
{
    assert((p ^ e ^ s) ^ (p ^ e2 ^ s2) == e ^ e2 ^ s ^ s2) by (bit_vector);
}

/// Law: two boards with the same pieces and the same en passant square have keys that
/// differ by the key of the turn exactly when different sides are to move.
pub proof fn the_key_tells_the_turn(a: Board, b: Board)
    requires
        a.wf(),
        b.wf(),
        a.mailbox@ == b.mailbox@,
        a.ep == b.ep,
    ensures
        a.stm == b.stm ==> a.key == b.key,
        a.stm != b.stm ==> a.key ^ b.key == side_key(),
{
    let e = ep_part(a.ep);
    lemma_xor_out(placement_key(a.q()), e, side_part(a.stm), e, side_part(b.stm));
    lemma_xor(e, e, 0);
    lemma_xor(side_key(), 0, 0);
}

/// Law: two boards with the same pieces and the same side to move, of which one has an
/// en passant square, have keys that differ by the key of that square.
pub proof fn the_key_tells_the_en_passant_square(a: Board, b: Board)
    requires
        a.wf(),
        b.wf(),
        a.mailbox@ == b.mailbox@,
        a.stm == b.stm,
        a.ep.0 < 100,
        b.ep.0 == 100,
    ensures
        a.key ^ b.key == ep_key(a.ep.0 as int),
{
    let s = side_part(a.stm);
    lemma_xor_out(placement_key(a.q()), ep_part(a.ep), s, ep_part(b.ep), s);
    let e = ep_key(a.ep.0 as int);
    lemma_xor(e, 0, s);
    lemma_xor(e, s, s);
}

/// Law: two boards that differ in the content of one square have keys that differ by
/// the keys of the two contents there, and pawn keys that differ by those of the
/// pawns among them.
pub proof fn the_key_tells_the_pieces(a: Board, b: Board, s: int)
    requires
        a.wf(),
        b.wf(),
        a.stm == b.stm,
        a.ep == b.ep,
        0 <= s < 100,
        b.mailbox@ == a.mailbox@.update(s, b.mailbox[s]),
    ensures
        a.key ^ b.key == (if a.mailbox[s].0 < 16 {
            psq_key(a.mailbox[s].0 as int, s)
        } else {
            0
        }) ^ (if b.mailbox[s].0 < 16 {
            psq_key(b.mailbox[s].0 as int, s)
        } else {
            0
        }),
        a.pawn_key ^ b.pawn_key == (if a.mailbox[s].0 == 0 || a.mailbox[s].0 == 8 {
            psq_key(a.mailbox[s].0 as int, s)
        } else {
            0
        }) ^ (if b.mailbox[s].0 == 0 || b.mailbox[s].0 == 8 {
            psq_key(b.mailbox[s].0 as int, s)
        } else {
            0
        }),
{
    lemma_key_update(a.q(), s, b.mailbox[s]);
    let (p, e, t) = (placement_key(a.q()), ep_part(a.ep), side_part(a.stm));
    let (x, y) = (square_key(a.mailbox[s], s), square_key(b.mailbox[s], s));
    assert((p ^ e ^ t) ^ (((p ^ x) ^ y) ^ e ^ t) == x ^ y) by (bit_vector);
    let pk = a.pawn_key;
    let (v, w) = (square_pawn_key(a.mailbox[s], s), square_pawn_key(b.mailbox[s], s));
    assert(pk ^ ((pk ^ v) ^ w) == v ^ w) by (bit_vector);
}

/// Law: the seventeen hundred and one keys are drawn from one stream, each from
/// its own place: sixteen pieces on a hundred squares, then the en passant squares, then
/// the turn.
pub proof fn keys_come_from_one_stream(p: int, s: int, e: int)
    ensures
        psq_key(p, s) == draw(p * 100 + s),
        ep_key(e) == draw(1600 + e),
        side_key() == draw(1700),
{
    reveal(psq_key);
    reveal(ep_key);
    reveal(side_key);
}

} // verus!
