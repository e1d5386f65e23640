//! What a search leaves behind: its lines, its answer, and what it tells the tables.

use vstd::prelude::*;


use crate::board::{Board, BoardView};
use crate::history::{Conts, HistView, main_cell};
use crate::history_laws::{is_drawn_to, is_pulled, lemma_drawn_to, lemma_is_pulled};
use crate::iterate::{
    Attempt, has_clock, hint_for, knows, placed, prev_score_of, ranking, root_task, stretched,
};
use crate::movegen::{GEN_ALL, gen_of, moves_of};

use crate::movepick::{all_legal, is_noisy};
use crate::nnue::{delta, evaluable};
use crate::node::{Node, corrects, lesson};
use crate::order_laws::is_forcing;

use crate::position::{legal, lemma_piece, moved};
use crate::score::{node_bound, opp_swing_bonus, score_to_tt};
use crate::searcher::{Pos, RootLine, Searcher, add_capped, pos_after};
use crate::timing::{Limits, Shared, answer_is_known};

use crate::types::{Color, DEEPEST, Move};

verus! {

// -- lines ---------------------------------------------------------------------------

proof fn lemma_placed_sorted(ls: Seq<RootLine>, l: RootLine)
    requires
        forall|i: int, j: int|
            0 <= i < j < ls.len() ==> (#[trigger] ls[i]).score >= (#[trigger] ls[j]).score,
    ensures
        placed(ls, l).len() == ls.len() + 1,
        forall|i: int, j: int|
            0 <= i < j < placed(ls, l).len() ==> (#[trigger] placed(ls, l)[i]).score >= (
            #[trigger] placed(ls, l)[j]).score,
        forall|i: int|
            0 <= i < placed(ls, l).len() ==> (#[trigger] placed(ls, l)[i]) == l || ls.contains(
                placed(ls, l)[i],
            ),
        placed(ls, l).contains(l),
        forall|x: RootLine| #[trigger] ls.contains(x) ==> placed(ls, l).contains(x),
    decreases ls.len(),
{
    let p = placed(ls, l);
    if ls.len() == 0 || ls.last().score >= l.score {
        assert(p == ls.push(l));
        assert(p[ls.len() as int] == l);
        assert forall|i: int, j: int| 0 <= i < j < p.len() implies (#[trigger] p[i]).score >= (
        #[trigger] p[j]).score by {
            if j == ls.len() && i < ls.len() - 1 {
                assert(ls[i].score >= ls[ls.len() - 1].score);
            }
        }
        assert forall|x: RootLine| #[trigger] ls.contains(x) implies p.contains(x) by {
            let i = choose|i: int| 0 <= i < ls.len() && ls[i] == x;
            assert(p[i] == x);
        }
        assert forall|i: int| 0 <= i < p.len() implies (#[trigger] p[i]) == l || ls.contains(p[i]) by {
            if i < ls.len() {
                assert(ls[i] == p[i]);
            }
        }
    } else {
        let us = ls.drop_last();
        let m = ls.last();
        let pu = placed(us, l);
        assert forall|i: int, j: int| 0 <= i < j < us.len() implies (#[trigger] us[i]).score >= (
        #[trigger] us[j]).score by {
            assert(ls[i].score >= ls[j].score);
        }
        lemma_placed_sorted(us, l);
        assert(p == pu.push(m));
        assert forall|i: int| 0 <= i < pu.len() implies (#[trigger] pu[i]).score >= m.score by {
            if pu[i] != l {
                let k = choose|k: int| 0 <= k < us.len() && us[k] == pu[i];
                assert(ls[k].score >= ls[ls.len() - 1].score);
            }
        }
        assert forall|i: int, j: int| 0 <= i < j < p.len() implies (#[trigger] p[i]).score >= (
        #[trigger] p[j]).score by {
            if j < pu.len() {
                assert(pu[i].score >= pu[j].score);
            } else {
                assert(pu[i].score >= m.score);
            }
        }
        assert forall|x: RootLine| #[trigger] ls.contains(x) implies p.contains(x) by {
            let i = choose|i: int| 0 <= i < ls.len() && ls[i] == x;
            if i < us.len() {
                assert(us[i] == x);
                assert(us.contains(x));
                let k = choose|k: int| 0 <= k < pu.len() && pu[k] == x;
                assert(p[k] == x);
            } else {
                assert(p[pu.len() as int] == x);
            }
        }
        assert forall|i: int| 0 <= i < p.len() implies (#[trigger] p[i]) == l || ls.contains(p[i]) by {
            if i < pu.len() {
                assert(p[i] == pu[i]);
                if pu[i] != l {
                    let k = choose|k: int| 0 <= k < us.len() && us[k] == pu[i];
                    assert(ls[k] == p[i]);
                }
            } else {
                assert(ls[ls.len() - 1] == p[i]);
            }
        }
        let k = choose|k: int| 0 <= k < pu.len() && pu[k] == l;
        assert(p[k] == l);
    }
}

/// Law: ranking lines puts them in the order of their scores, best first, and loses none
/// and adds none.
pub proof fn lines_are_ranked_by_score(found: Seq<RootLine>)
    ensures
        ranking(found).len() == found.len(),
        forall|i: int, j: int|
            0 <= i < j < found.len() ==> (#[trigger] ranking(found)[i]).score >= (
            #[trigger] ranking(found)[j]).score,
        forall|x: RootLine| #[trigger] ranking(found).contains(x) <==> found.contains(x),
    decreases found.len(),
{
    if found.len() > 0 {
        let us = found.drop_last();
        let l = found.last();
        lines_are_ranked_by_score(us);
        let rs = ranking(us);
        lemma_placed_sorted(rs, l);
        let r = ranking(found);
        assert(r == placed(rs, l));
        assert forall|x: RootLine| #[trigger] r.contains(x) <==> found.contains(x) by {
            if r.contains(x) {
                let i = choose|i: int| 0 <= i < r.len() && r[i] == x;
                if placed(rs, l)[i] == l {
                    assert(found[found.len() - 1] == x);
                } else {
                    assert(rs.contains(x));
                    assert(us.contains(x));
                    let k = choose|k: int| 0 <= k < us.len() && us[k] == x;
                    assert(found[k] == x);
                }
            }
            if found.contains(x) {
                let i = choose|i: int| 0 <= i < found.len() && found[i] == x;
                if i < us.len() {
                    assert(us[i] == x);
                    assert(us.contains(x));
                    assert(rs.contains(x));
                }
            }
        }
    }
}

/// Law: a thread takes the position it is given; only the first searches more than one line.
pub proof fn a_search_takes_its_position(s: &mut Searcher, b: Board, multipv: usize)
    requires
        s.tables_ok(),
        b.wf(),
        call_ensures(Searcher::prepare, (s, &b, multipv), ()),
    ensures
        final(s).board.mailbox@ == b.mailbox@,
        final(s).board.stm == b.stm,
        final(s).board.ep == b.ep,
        final(s).board.hist@ == b.hist@,
        final(s).board.halfmove == b.halfmove,
        old(s).id == 0 && multipv >= 1 ==> final(s).multipv == multipv,
        old(s).id != 0 || multipv == 0 ==> final(s).multipv == 1,
        final(s).hist == old(s).hist,
{
    assert(final(s).board@ == b@);
}

/// Law: a search goes no deeper than it is allowed, 245 plies where nothing is said. With
/// an iteration complete it has as many lines as it was asked for, one at least and no
/// more than there are legal moves, best first, and its answer is the move of the first;
/// an endless search that nobody stopped has come to its limit.
pub proof fn what_a_search_comes_to<R: Fn(&Searcher, i32), T: Fn(&Searcher, i32) -> bool>(
    s: &mut Searcher,
    sh: &Shared,
    report: R,
    time_is_up: T,
    i: int,
    j: int,
)
    requires
        s.tables_ok(),
        s.eval.shaped(),
        s.board.wf(),
        evaluable(s.board.q()),
        sh.ok(),
        sh.limits.depth matches Some(d) ==> d <= DEEPEST,
        call_ensures(Searcher::iterate::<R, T>, (s, sh, report, time_is_up), ()),
    ensures
        ({
            let n = moves_of(gen_of(&old(s).board, GEN_ALL)).len();
            let deepest = match sh.limits.depth {
                Some(d) => if d < 0 { 0 } else { d as int },
                None => 245,
            };
            &&& final(s).completed_depth <= deepest
            &&& n == 0 ==> final(s).best_move.0 == 0 && final(s).completed_depth == 0
            &&& final(s).completed_depth > 0 ==> {
                &&& final(s).multipv <= 1 || n <= 1 ==> final(s).lines@.len() == 1
                &&& 1 <= final(s).multipv <= n ==> final(s).lines@.len() == final(s).multipv
                &&& 1 <= n < final(s).multipv ==> final(s).lines@.len() == n
                &&& final(s).final_move == final(s).lines@[0].mv
                &&& final(s).final_score == final(s).lines@[0].score
            }
            &&& 0 <= i < j < final(s).lines@.len() ==> final(s).lines@[i].score
                >= final(s).lines@[j].score
            &&& final(s).best_move.0 == 0 || legal(
                old(s).board.q(),
                old(s).board.stm,
                old(s).board.ep,
                final(s).best_move,
            )
            &&& n > 0 && sh.limits.infinite && !final(s).stopped ==> final(s).completed_depth == deepest
        }),
{
    assert(final(s).settled(*sh.net));
    assert(final(s).board@.q == old(s).board@.q);
}

// -- what is told to the tables ------------------------------------------------------

/// Law: a finished node is recorded under its position with its best move, its score
/// counted from the position, what the network said, its depth and the bound that its
/// window makes it, unless a move was left out or a line before it has claimed the root.
pub proof fn a_finished_node_is_recorded(
    s: &mut Searcher,
    sh: &Shared,
    node: Node,
    best_move: Move,
    best: i32,
    alpha: i32,
    beta: i32,
    depth: i32,
    ply: usize,
    pv: bool,
    killers: [Move; 2],
    quiets: Vec<Move>,
    captures: Vec<Move>,
    stored: i32,
    bound: u8,
)
    requires
        s.fit(*sh.net, ply as int),
        ply <= 246,
        node.ok(&s.board),
        best_move.0 == 0 || s.board.legal_here(best_move),
        best_move.compact(),
        killers[0].compact(),
        killers[1].compact(),
        -36000 <= best <= 36000,
        0 <= depth <= 10_000,
        all_legal(&s.board, quiets@),
        all_legal(&s.board, captures@),
        call_ensures(
            Searcher::finish_node,
            (s, sh, &node, best_move, best, alpha, beta, depth, ply, pv, killers, &quiets, &captures),
            (),
        ),
        call_ensures(score_to_tt, (best, ply), stored),
        call_ensures(node_bound, (best, beta, alpha, pv, best_move.0 != 0), bound),
    ensures
        node.excluded.0 == 0 && (ply > 0 || old(s).pv_idx == 0) ==> sh.tt.records(
            old(s).board.key,
            best_move,
            stored,
            node.raw,
            depth,
            bound,
            node.tt_pv,
        ),
        best < beta || best_move.0 == 0 ==> final(s).hist.main@ == old(s).hist.main@
            && final(s).hist.counter@ == old(s).hist.counter@ && final(s).hist.capture@
            == old(s).hist.capture@,
{
    assert(best_move != Move::none() <==> best_move.0 != 0);
}

/// Law: the evaluation is corrected only by a node out of check that has one, by no
/// capture or promotion, and neither where a lower bound says no more than the evaluation
/// nor an upper bound no less.
pub proof fn what_corrects_an_evaluation(b: Board, node: Node, best_move: Move, best: int, beta: int)
    requires
        b.wf(),
        best_move.0 == 0 || b.legal_here(best_move),
    ensures
        corrects(b.q(), node, best_move, best, beta) <==> !node.in_check && node.static_eval != 32002 && (best_move.0
            == 0 || !is_forcing(b.q(), best_move)) && (best < beta || best > node.static_eval) && (best_move.0
            != 0 || best < node.static_eval),
{
    if best_move.0 != 0 {
        lemma_piece(b.q()[best_move.to().0 as int]);
        assert(is_forcing(b.q(), best_move) == is_noisy(b.q(), best_move));
    }
}

/// Law: the opponent's last move, if it was quiet and both sides have an evaluation, is
/// credited or debited by the swing, and nothing else is.
pub proof fn the_last_move_is_judged_by_the_swing(s: &mut Searcher, node: Node, ply: usize, bonus: i32, i: int)
    requires
        s.tables_ok(),
        1 <= ply <= 246,
        node.ok(&s.board),
        !node.in_check,
        node.excluded.0 == 0,
        0 <= i < 20000,
        call_ensures(Searcher::credit_reply, (s, &node, ply), ()),
        call_ensures(
            opp_swing_bonus,
            (s.ss@[ply + 7].static_eval, node.static_eval),
            bonus,
        ),
        ({
            let prev = s.ss@[ply + 7];
            &&& prev.static_eval != 32002
            &&& prev.current_move.0 != 0
            &&& prev.current_move.0 != 0xFFFF_FFFF
            &&& prev.current_move.0 / 16384 % 8 == 0
            &&& s.undos@[ply + 7].captured.0 == 16
        }),
    ensures
        ({
            let m = old(s).ss@[ply + 7].current_move;
            let cell = (if old(s).board.stm == Color::White { 10000int } else { 0 }) + 100 * m.from().0 + m.to().0;
            &&& is_pulled(old(s).hist.main@[cell] as int, bonus as int, final(s).hist.main@[cell] as int)
            &&& i != cell ==> final(s).hist.main@[i] == old(s).hist.main@[i]
        }),
{
    let prev = old(s).ss@[ply + 7];
    assert(prev.ok());
    assert(old(s).judges_reply(node, ply as int));
    let cell = main_cell(old(s).board.stm.flip(), prev.current_move);
    assert(0 <= cell < 20000);
    lemma_is_pulled(old(s).hist.main@[cell] as int, bonus as int);
}

/// Law: a search looks at the clock and the flags every 512 nodes; in between it goes on,
/// and once stopped it stays so.
pub proof fn a_search_looks_up_every_512_nodes(s: &mut Searcher, sh: &Shared, r: bool)
    requires
        call_ensures(Searcher::check_stop, (s, sh), r),
    ensures
        r == final(s).stopped,
        old(s).stopped ==> r,
        !old(s).stopped && old(s).nodes % 512 != 0 ==> !r,
        final(s).nodes == old(s).nodes,
{
}

/// Law: each line of an iteration starts from its score and move of the one before, and
/// its window widens by a third each time.
pub proof fn an_iteration_follows_the_last(prev: Seq<RootLine>, first: Move, count: int, k: int, delta: i32)
    requires
        0 <= k,
        1 <= delta < 1_000_000,
    ensures
        k < prev.len() ==> prev_score_of(prev, k) == prev[k].score && hint_for(prev, first, count, k) == prev[k].mv,
        k >= prev.len() ==> prev_score_of(prev, k) == 0,
        k >= prev.len() && count <= 1 ==> hint_for(prev, first, count, k) == first,
        3 * (stretched(delta) - delta) <= delta < 3 * (stretched(delta) - delta + 1),
{
}

/// Law: the root is searched at ply 0 as a variation with all its moves but those
/// claimed, and nothing behind it.
pub proof fn how_the_root_is_searched(depth: i32, claimed: Seq<Move>, a: Attempt)
    ensures
        ({
            let t = root_task(depth, claimed, a);
            &&& t.alpha == a.alpha && t.beta == a.beta && t.depth == a.depth
            &&& t.ply == 0 && t.pv && !t.cut_node
            &&& t.excluded.0 == 0
            &&& t.claimed == claimed
            &&& t.hint == Some(a.hint)
            &&& !t.path.passed && t.path.root_depth == depth
        }),
{
}

/// Law: the position after a move is where the search goes on.
pub proof fn where_a_line_goes_on(p: Pos, m: Move)
    ensures
        pos_after(p, m).q == moved(p.q, p.stm, m),
        pos_after(p, m).stm == p.stm.flip(),
{
}

/// Law: counts add up, and stop at the greatest number there is.
pub proof fn counts_add_up(a: u64, b: u64, r: u64)
    requires
        call_ensures(add_capped, (a, b), r),
    ensures
        a + b <= u64::MAX ==> r == a + b,
        a + b > u64::MAX ==> r == u64::MAX,
{
}

/// Law: a search knows its answer, whatever the clock says, where an only move or a mate
/// within its depth makes it known; and the clock governs it where it was given one, or a
/// time for the move.
pub proof fn when_a_search_knows_its_answer(s: Searcher, l: Limits, r: bool)
    requires
        s.root_moves@.len() <= usize::MAX,
        s.final_score > i32::MIN,
        call_ensures(answer_is_known, (s.root_moves@.len() as usize, s.completed_depth, s.final_score), r),
    ensures
        knows(s) <==> r,
        has_clock(l) <==> l.has_time || l.movetime is Some,
{
}

/// Law: a node without a best move that stays below its evaluation draws the corrections
/// for its pawns and for the last move towards the difference.
pub proof fn a_correction_goes_by_the_difference(
    h: HistView,
    b: BoardView,
    c: Conts,
    node: Node,
    best: int,
    beta: int,
    depth: int,
    none: Seq<Move>,
    writes: bool,
    cell: int,
    last: int,
)
    requires
        h.pawn_corr.len() == 32768,
        h.cont_corr.len() == 3200,
        -8192 <= h.pawn_corr[cell] <= 8192,
        -8192 <= h.cont_corr[last] <= 8192,
        !node.in_check,
        node.static_eval != 32002,
        best < node.static_eval,
        best < beta,
        depth >= 0,
        c[0] < 1600,
        cell == (if b.stm == Color::White { 0int } else { 16384 }) + b.pawn_key % 16384,
        last == 2 * c[0] + (if b.stm == Color::White { 0int } else { 1 }),
    ensures
        ({
            let weight = if depth < 15 {
                depth + 1
            } else {
                16
            };
            let after = lesson(h, b, c, node, Move(0u32), best, beta, depth, none, none, writes);
            &&& writes ==> is_drawn_to(
                h.pawn_corr[cell] as int,
                best - node.static_eval,
                weight,
                after.pawn_corr[cell] as int,
            )
            &&& writes ==> is_drawn_to(
                h.cont_corr[last] as int,
                best - node.static_eval,
                weight,
                after.cont_corr[last] as int,
            )
            &&& !writes ==> after == h
            &&& after.main == h.main
        }),
{
    lemma_drawn_to(h.pawn_corr[cell] as int, best - node.static_eval, depth);
    lemma_drawn_to(h.cont_corr[last] as int, best - node.static_eval, depth);
}

/// Law: a new variation is its move and the variation of the reply.
pub proof fn a_variation_grows_by_its_move(s: &mut Searcher, ply: usize, m: Move)
    requires
        s.tables_ok(),
        ply <= 246,
        call_ensures(Searcher::update_pv, (s, ply, m), ()),
    ensures
        final(s).row(ply as int) == seq![m] + old(s).row(ply + 1),
        final(s).row(ply as int)[0] == m,
        final(s).row(ply as int).len() == old(s).row(ply + 1).len() + 1,
{
}

/// Law: an iteration that is completed publishes its lines and answers with the first;
/// one that is stopped leaves the last complete answer. How many iterations in a row have
/// answered the same is counted, up to seven.
pub proof fn what_an_iteration_leaves(s: &mut Searcher, sh: &Shared, depth: i32, r: bool)
    requires
        s.settled(*sh.net),
        sh.ok(),
        1 <= depth <= DEEPEST,
        s.completed_depth == depth - 1,
        s.root_moves@.len() > 0,
        !s.stopped,
        call_ensures(Searcher::deepen, (s, sh, depth), r),
    ensures
        r ==> final(s).completed_depth == depth,
        r ==> final(s).best_move == final(s).lines@[0].mv,
        r ==> final(s).final_score == final(s).lines@[0].score,
        !r ==> final(s).completed_depth == depth - 1 && final(s).lines == old(s).lines && final(s).final_move
            == old(s).final_move && final(s).final_score == old(s).final_score,
        r && final(s).best_move != old(s).last_best ==> final(s).stability == 0,
        r && final(s).best_move == old(s).last_best && old(s).stability < 7 ==> final(s).stability
            == old(s).stability + 1,
        r && final(s).best_move == old(s).last_best && old(s).stability >= 7 ==> final(s).stability == 7,
        r ==> final(s).last_best == final(s).best_move,
{
}

} // verus!
