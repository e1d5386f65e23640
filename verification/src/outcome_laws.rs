//! What a search makes of the end of a game.

use vstd::prelude::*;

use crate::board::Board;

use crate::movegen::{GEN_ALL, gen_of, moves_of};
use crate::movegen_laws::generated_exactly_legal;
use crate::nnue::{evaluable, evaluate_scratch};
use crate::position::{king_of, legal, lemma_king_of};

use crate::rules::{check_is_a_struck_king, is_struck};
use crate::score::{adjusted, damped, greater};
use crate::searcher::{is_drawn, listed_at};
use crate::timing::Shared;
use crate::tt::Hit;
use crate::types::Move;
use crate::worth::{
    Task, Trial, a_mate_is_seen, a_quiet_mate_is_seen, best_of, game_of, is_stand, is_static,
    lemma_drawn_game, line_of, quiet_found, quiet_tried, quiet_worth, raw_of, search_worth,
};

verus! {

/// The king of the side to move is struck at, and it has no legal move.
pub open spec fn is_checkmate(b: Board) -> bool {
    is_struck(b.q(), b.stm) && forall|m: Move| !#[trigger] legal(b.q(), b.stm, b.ep, m)
}

proof fn lemma_checkmate(b: Board)
    requires
        b.wf(),
        is_checkmate(b),
    ensures
        game_of(&b).mated(),
{
    let g = game_of(&b);
    lemma_king_of(b.q(), b.stm);
    check_is_a_struck_king(b.q(), b.stm, king_of(b.q(), b.stm));
    generated_exactly_legal(gen_of(&b, GEN_ALL));
    let l = listed_at(g.pos());
    assert(l == moves_of(gen_of(&b, GEN_ALL)));
    if l.len() > 0 {
        assert(l.contains(l[0]));
        assert(!legal(b.q(), b.stm, b.ep, l[0]));
    }
    assert forall|m: Move| !#[trigger] g.allows(m) by {
        assert(!legal(b.q(), b.stm, b.ep, m));
    }
}

/// Law: a search scores checkmate as the loss that it is, `ply` plies from the root, in a
/// variation or where nothing is stored: 32000 less the plies, against the side to move.
/// Only where a sooner mate is certain already does it not look.
pub proof fn checkmate_is_a_loss(sh: &Shared, b: Board, t: Task, r: i32)
    requires
        b.wf(),
        is_checkmate(b),
        search_worth(sh, game_of(&b), t, r),
        0 < t.ply < 246,
        !is_drawn(&b, t.ply as int),
        t.excluded.0 == 0,
        t.pv || sh.tt.has_nothing(b.key),
        t.alpha < t.beta,
        t.alpha < 32000 - (t.ply + 1),
    ensures
        r == t.ply - 32000,
{
    lemma_checkmate(b);
    lemma_drawn_game(&b, t.ply as int);
    a_mate_is_seen(sh, game_of(&b), t, r);
}

/// Law: so does quiescence.
pub proof fn checkmate_is_a_loss_in_quiescence(
    sh: &Shared,
    b: Board,
    alpha: i32,
    beta: i32,
    ply: usize,
    pv: bool,
    r: i32,
    line: Seq<Move>,
)
    requires
        b.wf(),
        is_checkmate(b),
        quiet_worth(sh, game_of(&b), alpha, beta, ply, pv, r, line),
        ply < 246,
        !is_drawn(&b, ply as int),
        pv || sh.tt.has_nothing(b.key),
    ensures
        r == ply - 32000,
{
    lemma_checkmate(b);
    lemma_drawn_game(&b, ply as int);
    a_quiet_mate_is_seen(sh, game_of(&b), alpha, beta, ply, pv, r, line);
}

proof fn lemma_best_start(ts: Seq<Trial>, start: i32)
    ensures
        best_of(ts, start) >= start,
    decreases ts.len(),
{
    if ts.len() > 0 {
        lemma_best_start(ts.drop_last(), start);
    }
}

/// Law: a side that is not in check need not take: where nothing is stored, quiescence
/// never scores it below what the network says of the position, give or take the
/// correction of 32, with the fifty-move count at 0.
pub proof fn nobody_has_to_take(
    sh: &Shared,
    b: Board,
    alpha: i32,
    beta: i32,
    ply: usize,
    pv: bool,
    r: i32,
    line: Seq<Move>,
    e: i32,
)
    requires
        b.wf(),
        evaluable(b.q()),
        sh.net.ok(),
        !is_struck(b.q(), b.stm),
        b.halfmove == 0,
        quiet_worth(sh, game_of(&b), alpha, beta, ply, pv, r, line),
        ply < 246,
        !is_drawn(&b, ply as int),
        sh.tt.has_nothing(b.key),
        call_ensures(evaluate_scratch, (sh.net, &b), e),
        -31721 <= e <= 31721,
    ensures
        r >= e - 32,
{
    let g = game_of(&b);
    lemma_king_of(b.q(), b.stm);
    check_is_a_struck_king(b.q(), b.stm, king_of(b.q(), b.stm));
    lemma_drawn_game(&b, ply as int);
    reveal(quiet_worth);
    reveal(quiet_found);
    reveal(quiet_tried);
    let hit = choose|hit: Option<Hit>| #[trigger]
        sh.tt.may_find(g.key(), hit) && quiet_found(sh, g, hit, alpha, beta, ply, pv, r, line);
    assert(hit is None);
    let stand = choose|stand: i32| #[trigger]
        is_stand(sh, g, hit, ply, stand) && if stand >= beta {
            r == stand && (pv ==> line.len() == 0)
        } else {
            exists|ts: Seq<Trial>|
                quiet_tried(sh, g, stand, greater(alpha, stand), beta, ply, pv, ts) && r
                    == #[trigger] best_of(ts, stand) && (pv ==> line == line_of(
                    ts,
                    stand,
                    greater(alpha, stand),
                ))
        };
    assert(is_static(sh, g, None, stand));
    let c = choose|c: int| -32 <= c <= 32 && stand == #[trigger] adjusted(raw_of(sh, g, None), g.halfmove, c);
    assert(raw_of(sh, g, None) == e);
    assert(damped(e, 0) == e);
    if stand < beta {
        let ts = choose|ts: Seq<Trial>|
            quiet_tried(sh, g, stand, greater(alpha, stand), beta, ply, pv, ts) && r
                == #[trigger] best_of(ts, stand) && (pv ==> line == line_of(
                ts,
                stand,
                greater(alpha, stand),
            ));
        lemma_best_start(ts, stand);
    }
}

} // verus!
