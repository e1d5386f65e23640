//! When a game is drawn, on the counts, keys and pieces of the board.

use vstd::prelude::*;

use crate::board::Board;
use crate::movegen::{GEN_ALL, gen_of, moves_of};
use crate::movegen_laws::generated_exactly_legal;
use crate::play::minor_at;
use crate::position::{kind_at, king_of, legal, lemma_king_of, occ_at};
use crate::rules::{check_is_a_struck_king, is_struck};

use crate::searcher::Searcher;
use crate::timing::Shared;
use crate::types::{Move, Piece, PieceType};
use crate::worth::{
    Task, a_draw_is_a_draw, a_quiet_draw_is_a_draw, game_of, quiet_worth, search_worth,
};

verus! {

/// The key `back` plies ago was the one now, with the same side to move, and neither a pawn
/// move, a capture nor a pass has come between.
pub open spec fn came_back(hist: Seq<u64>, key: u64, halfmove: u16, plies_from_null: u16, back: int) -> bool {
    &&& back >= 4
    &&& back % 2 == 0
    &&& back <= halfmove
    &&& back <= plies_from_null
    &&& back < hist.len()
    &&& hist[hist.len() - 1 - back] == key
}

/// Law: a board that came back to a position within the last `ply` plies has a
/// repetition, and so has one that came back to it twice; no other has.
pub proof fn a_position_that_came_back_is_a_repetition(b: Board, ply: usize, r: bool)
    requires
        call_ensures(Board::has_repetition, (&b, ply), r),
    ensures
        forall|back: int|
            back <= ply && #[trigger] came_back(
                b.hist@,
                b.key,
                b.halfmove,
                b.plies_from_null,
                back,
            ) ==> r,
        forall|near: int, far: int|
            near < far && #[trigger] came_back(
                b.hist@,
                b.key,
                b.halfmove,
                b.plies_from_null,
                near,
            ) && #[trigger] came_back(b.hist@, b.key, b.halfmove, b.plies_from_null, far) ==> r,
        r ==> exists|back: int|
            #[trigger] came_back(b.hist@, b.key, b.halfmove, b.plies_from_null, back),
        r && (forall|back: int| #[trigger]
            came_back(b.hist@, b.key, b.halfmove, b.plies_from_null, back) ==> back > ply)
            ==> exists|near: int, far: int|
            near < far && #[trigger] came_back(
                b.hist@,
                b.key,
                b.halfmove,
                b.plies_from_null,
                near,
            ) && #[trigger] came_back(b.hist@, b.key, b.halfmove, b.plies_from_null, far),
{
    assert forall|i: int| #![trigger b.repeats(i)] #![trigger came_back(
        b.hist@,
        b.key,
        b.halfmove,
        b.plies_from_null,
        i,
    )] b.repeats(i) == came_back(b.hist@, b.key, b.halfmove, b.plies_from_null, i) by {}
    if r {
        if exists|i: int| #[trigger] b.repeats(i) && i <= ply {
            let i = choose|i: int| #[trigger] b.repeats(i) && i <= ply;
            assert(came_back(b.hist@, b.key, b.halfmove, b.plies_from_null, i));
        } else {
            let (i, j) = choose|i: int, j: int| #[trigger]
                b.repeats(i) && #[trigger] b.repeats(j) && i < j;
            assert(came_back(b.hist@, b.key, b.halfmove, b.plies_from_null, i));
            assert(came_back(b.hist@, b.key, b.halfmove, b.plies_from_null, j));
        }
    }
}

/// Law: before the hundredth ply, a node whose position came back within the tree is a
/// draw.
pub proof fn a_repetition_in_the_tree_is_a_draw(s: Searcher, sh: &Shared, ply: usize, back: int, r: bool)
    requires
        call_ensures(Searcher::is_draw, (&s, sh, ply), r),
        s.board.wf(),
        s.board.halfmove < 100,
        back <= ply,
        came_back(
            s.board.hist@,
            s.board.key,
            s.board.halfmove,
            s.board.plies_from_null,
            back,
        ),
    ensures
        r,
{
    assert(s.board.repeats(back));
}

/// Law: and so is one whose position came back twice, wherever.
pub proof fn a_threefold_repetition_is_a_draw(s: Searcher, sh: &Shared, ply: usize, near: int, far: int, r: bool)
    requires
        call_ensures(Searcher::is_draw, (&s, sh, ply), r),
        s.board.wf(),
        s.board.halfmove < 100,
        near < far,
        came_back(
            s.board.hist@,
            s.board.key,
            s.board.halfmove,
            s.board.plies_from_null,
            near,
        ),
        came_back(s.board.hist@, s.board.key, s.board.halfmove, s.board.plies_from_null, far),
    ensures
        r,
{
    assert(s.board.repeats(near) && s.board.repeats(far));
}

/// Law: from the hundredth ply without a pawn move or capture on, a node is a draw if
/// its king is not struck at, or if it has a move; mate comes first.
pub proof fn a_hundred_plies_are_a_draw(s: Searcher, sh: &Shared, ply: usize, r: bool)
    requires
        call_ensures(Searcher::is_draw, (&s, sh, ply), r),
        s.board.wf(),
        s.board.halfmove >= 100,
    ensures
        !is_struck(s.board.q(), s.board.stm) ==> r,
        forall|m: Move|
            m.compact() && #[trigger] legal(s.board.q(), s.board.stm, s.board.ep, m) ==> r,
        is_struck(s.board.q(), s.board.stm) && (forall|m: Move|
            m.compact() ==> !#[trigger] legal(s.board.q(), s.board.stm, s.board.ep, m)) ==> !r,
{
    let b = s.board;
    lemma_king_of(b.q(), b.stm);
    check_is_a_struck_king(b.q(), b.stm, king_of(b.q(), b.stm));
    let l = moves_of(gen_of(&b, GEN_ALL));
    generated_exactly_legal(gen_of(&b, GEN_ALL));
    if l.len() > 0 {
        assert(l.contains(l[0]));
    }
    assert forall|m: Move| m.compact() && #[trigger] legal(b.q(), b.stm, b.ep, m) implies r by {
        assert(l.contains(m));
    }
}

/// A knight or bishop of either side stands on `i`.
pub open spec fn holds_minor(q: Seq<Piece>, i: int) -> bool {
    q[i].0 == 1 || q[i].0 == 2 || q[i].0 == 9 || q[i].0 == 10
}

/// Law: kings alone, or with a single knight or bishop, cannot mate; two of those, or any pawn,
/// rook, queen, marshal or cardinal, can.
pub proof fn a_lone_minor_piece_cannot_mate(b: Board, r: bool)
    requires
        b.wf(),
        call_ensures(Board::insufficient_material, (&b,), r),
    ensures
        forall|i: int|
            0 <= i < 100 && #[trigger] b.mailbox[i].0 != 16 && b.mailbox[i].0 % 8 != 7
                && !holds_minor(b.mailbox@, i) ==> !r,
        forall|i: int, j: int|
            0 <= i < j < 100 && #[trigger] holds_minor(b.mailbox@, i) && #[trigger] holds_minor(
                b.mailbox@,
                j,
            ) ==> !r,
        (forall|i: int|
            0 <= i < 100 ==> #[trigger] b.mailbox[i].0 == 16 || b.mailbox[i].0 % 8 == 7) ==> r,
        forall|lone: int|
            #[trigger] holds_minor(b.mailbox@, lone) && 0 <= lone < 100 && (forall|i: int|
                0 <= i < 100 && i != lone ==> #[trigger] b.mailbox[i].0 == 16 || b.mailbox[i].0 % 8
                    == 7) ==> r,
{
    let q = b.q();
    assert forall|i: int| #![trigger minor_at(q, i)] #![trigger holds_minor(q, i)]
        0 <= i < 100 implies minor_at(q, i) == holds_minor(q, i) by {}
    assert forall|i: int|
        0 <= i < 100 && #[trigger] b.mailbox[i].0 != 16 && b.mailbox[i].0 % 8 != 7 && !holds_minor(
            b.mailbox@,
            i,
        ) implies !r by {
        assert(occ_at(q, i));
    }
    assert forall|i: int, j: int|
        0 <= i < j < 100 && #[trigger] holds_minor(b.mailbox@, i) && #[trigger] holds_minor(
            b.mailbox@,
            j,
        ) implies !r by {
        assert(minor_at(q, i) && minor_at(q, j));
    }
    if forall|i: int| 0 <= i < 100 ==> #[trigger] b.mailbox[i].0 == 16 || b.mailbox[i].0 % 8 == 7 {
        assert forall|i: int| #[trigger] occ_at(q, i) implies kind_at(q, i, PieceType::King) by {}
        assert forall|i: int| !#[trigger] minor_at(q, i) by {}
    }
    assert forall|lone: int|
        #[trigger] holds_minor(b.mailbox@, lone) && 0 <= lone < 100 && (forall|i: int|
            0 <= i < 100 && i != lone ==> #[trigger] b.mailbox[i].0 == 16 || b.mailbox[i].0 % 8
                == 7) implies r by {
        assert forall|i: int| #[trigger] occ_at(q, i) implies kind_at(q, i, PieceType::King)
            || minor_at(q, i) by {
            if i != lone {
                assert(b.mailbox[i].0 % 8 == 7);
            }
        }
        assert forall|i: int, j: int| #[trigger] minor_at(q, i) && #[trigger] minor_at(
            q,
            j,
        ) implies i == j by {
            assert(i == lone && j == lone);
        }
    }
}

/// Law: a node with too little material is a draw, and before the hundredth ply a node is one
/// only for lack of material or because its position came back.
pub proof fn a_draw_has_a_reason(s: Searcher, sh: &Shared, ply: usize, r: bool, short: bool, again: bool)
    requires
        call_ensures(Searcher::is_draw, (&s, sh, ply), r),
        call_ensures(Board::insufficient_material, (&s.board,), short),
        call_ensures(Board::has_repetition, (&s.board, ply), again),
        s.board.wf(),
        s.board.halfmove < 100,
    ensures
        r <==> short || again,
{
}

/// Law: inside the tree a search scores a position that came back there as a draw,
/// whatever it is worth otherwise.
pub proof fn a_search_scores_a_repetition_as_a_draw(sh: &Shared, b: Board, t: Task, back: int, r: i32)
    requires
        b.wf(),
        search_worth(sh, game_of(&b), t, r),
        0 < t.ply < 246,
        b.halfmove < 100,
        back <= t.ply,
        came_back(b.hist@, b.key, b.halfmove, b.plies_from_null, back),
    ensures
        r == 0,
{
    assert(game_of(&b).repeats(back));
    a_draw_is_a_draw(sh, game_of(&b), t, r);
}

/// Law: quiescence does too.
pub proof fn quiescence_scores_a_repetition_as_a_draw(
    sh: &Shared,
    b: Board,
    alpha: i32,
    beta: i32,
    ply: usize,
    pv: bool,
    r: i32,
    line: Seq<Move>,
    back: int,
)
    requires
        b.wf(),
        quiet_worth(sh, game_of(&b), alpha, beta, ply, pv, r, line),
        ply < 246,
        b.halfmove < 100,
        back <= ply,
        came_back(b.hist@, b.key, b.halfmove, b.plies_from_null, back),
    ensures
        r == 0,
{
    assert(game_of(&b).repeats(back));
    a_quiet_draw_is_a_draw(sh, game_of(&b), alpha, beta, ply, pv, r, line);
}

/// Law: inside the tree a search scores a position with nothing but kings as a draw.
pub proof fn a_search_scores_bare_kings_as_a_draw(sh: &Shared, b: Board, t: Task, r: i32)
    requires
        b.wf(),
        search_worth(sh, game_of(&b), t, r),
        0 < t.ply < 246,
        b.halfmove < 100,
        forall|i: int| 0 <= i < 100 ==> #[trigger] b.mailbox[i].0 == 16 || b.mailbox[i].0 % 8 == 7,
    ensures
        r == 0,
{
    let q = b.q();
    assert forall|i: int| #[trigger] occ_at(q, i) implies kind_at(q, i, PieceType::King) by {
        assert(b.mailbox[i].0 % 8 == 7);
    }
    assert forall|i: int| !#[trigger] minor_at(q, i) by {
        if 0 <= i < 100 {
            assert(b.mailbox[i].0 == 16 || b.mailbox[i].0 % 8 == 7);
        }
    }
    a_draw_is_a_draw(sh, game_of(&b), t, r);
}

/// Law: inside the tree a search scores a hundred plies without a pawn move or capture as a
/// draw where the side to move is not in check.
pub proof fn a_search_scores_a_hundred_plies_as_a_draw(sh: &Shared, b: Board, t: Task, r: i32)
    requires
        b.wf(),
        search_worth(sh, game_of(&b), t, r),
        0 < t.ply < 246,
        b.halfmove >= 100,
        !is_struck(b.q(), b.stm),
    ensures
        r == 0,
{
    lemma_king_of(b.q(), b.stm);
    check_is_a_struck_king(b.q(), b.stm, king_of(b.q(), b.stm));
    a_draw_is_a_draw(sh, game_of(&b), t, r);
}

} // verus!
