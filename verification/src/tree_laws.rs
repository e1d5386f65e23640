//! When the search trusts the table, prunes, reduces and extends, in plies and centipawns.

use vstd::prelude::*;

use crate::nnue::{evaluable, evaluate_scratch};
use crate::movegen_laws::generated_exactly_legal;
use crate::attacks::{Tables, line};
use crate::board::Board;


use crate::movegen::{GEN_ALL, gen_of, moves_of};
use crate::movepick::{is_noisy, mvv, victim_by};
use crate::node::{
    Node, Verdict, checks, drop_quiet, ends_quiets, judge_noisy, judged, quiets_are_futile,
    reduced_by,
};
use crate::position::{col_at, in_check_at, is_placement, king_of, legal, lemma_king_of, moved};
use crate::quiesce::{informed, is_decided};
use crate::rules::{check_is_a_struck_king, is_own, is_struck};
use crate::score::{
    LmrTable, greater, improves, late_enough, late_reduction, lesser, mate_in, mated_in,
    null_reduction, probcut_beta, reduced_depth, reverse_futility, score_from_tt,
};
use crate::search::is_deep;
use crate::searcher::{is_drawn, listed_at};
use crate::see::see;

use crate::timing::Shared;
use crate::tt::{Hit, hit_ok};
use crate::types::{Move, Piece, PieceType};
use crate::worth::{
    Game, Outcome, Task, Trial, best_of, cut_by_many, extends_by, floor_of, game_of, iir_depth,
    is_bad_trade, is_beneath, is_cut, is_node_at, is_pruned, is_uncut, lemma_drawn_game, line_of,
    may_see, moves_worth, node_worth, number_of, probes_at, promises, quiet_found, quiet_worth,
    raw_of, search_worth, stands_up,
};

verus! {

/// A probe of `key` finds `h`, whenever it is made.
pub open spec fn surely_holds(sh: &Shared, key: u64, h: Hit) -> bool {
    forall|hit: Option<Hit>| #[trigger] sh.tt.may_find(key, hit) ==> hit == Some(h)
}

/// Law: outside a variation, an exact entry that is as deep as the search asked for is
/// taken for its score, as long as the fifty-move count is below 90; and so is a lower
/// bound that reaches beta and an upper bound that does not exceed alpha.
pub proof fn a_deep_entry_is_taken(sh: &Shared, b: Board, t: Task, h: Hit, s: i32, r: i32)
    requires
        b.wf(),
        search_worth(sh, game_of(&b), t, r),
        0 < t.ply < 246,
        0 < t.depth,
        !t.pv,
        t.excluded.0 == 0,
        !is_drawn(&b, t.ply as int),
        b.halfmove < 90,
        -31754 <= t.alpha < t.beta <= 31753,
        surely_holds(sh, b.key, h),
        hit_ok(h),
        h.depth >= t.depth,
        call_ensures(score_from_tt, (h.score, t.ply), s),
        h.bound == 3 || (h.bound == 2 && s >= t.beta) || (h.bound == 1 && s <= t.alpha),
    ensures
        r == s,
{
    let g = game_of(&b);
    lemma_drawn_game(&b, t.ply as int);
    reveal(search_worth);
    reveal(node_worth);
    let low = greater(t.alpha, mated_in(t.ply));
    let high = lesser(t.beta, mate_in((t.ply + 1) as usize));
    assert(low == t.alpha && high == t.beta);
    let u = Task { alpha: low, beta: high, ..t };
    let hit = choose|hit: Option<Hit>| #[trigger]
        may_see(sh, g, t.excluded, hit) && node_worth(sh, g, hit, u, r);
    assert(hit == Some(h));
    assert(is_deep(hit, u.depth));
    assert(is_decided(hit, u.alpha, u.beta, u.ply as int));
}

/// Law: outside a variation quiescence takes an entry of any depth in the same way.
pub proof fn quiescence_takes_any_entry(
    sh: &Shared,
    b: Board,
    alpha: i32,
    beta: i32,
    ply: usize,
    r: i32,
    line: Seq<Move>,
    h: Hit,
    s: i32,
)
    requires
        b.wf(),
        quiet_worth(sh, game_of(&b), alpha, beta, ply, false, r, line),
        ply < 246,
        !is_drawn(&b, ply as int),
        surely_holds(sh, b.key, h),
        hit_ok(h),
        call_ensures(score_from_tt, (h.score, ply), s),
        h.bound == 3 || (h.bound == 2 && s >= beta) || (h.bound == 1 && s <= alpha),
    ensures
        r == s,
{
    let g = game_of(&b);
    lemma_drawn_game(&b, ply as int);
    reveal(quiet_worth);
    reveal(quiet_found);
    let hit = choose|hit: Option<Hit>| #[trigger]
        sh.tt.may_find(g.key(), hit) && quiet_found(sh, g, hit, alpha, beta, ply, false, r, line);
    assert(hit == Some(h));
    assert(is_decided(hit, alpha, beta, ply as int));
}

/// Law: the root never trusts the table for its score: nor does any node of a variation.
/// What it is worth is what its moves come to, or what quiescence finds.
pub proof fn a_variation_is_searched(sh: &Shared, g: Game, t: Task, r: i32) -> (node: Node)
    requires
        search_worth(sh, g, t, r),
        t.ply == 0,
        t.pv,
        0 < t.depth,
        t.alpha < t.beta,
    ensures
        moves_worth(sh, g, node, t, r),
        node.in_check == in_check_at(g.q, g.stm),
{
    reveal(search_worth);
    reveal(node_worth);
    reveal(moves_worth);
    assert((Task { alpha: t.alpha, beta: t.beta, ..t }) == t);
    let hit = choose|hit: Option<Hit>| #[trigger]
        may_see(sh, g, t.excluded, hit) && node_worth(sh, g, hit, t, r);
    let node = choose|node: Node| #[trigger]
        is_node_at(sh, g, hit, t, node) && {
            ||| t.may_prune(node) && is_pruned(sh, g, node, t, r)
            ||| t.may_prune(node) && stands_up(sh, g, node, t) && is_cut(sh, g, node, t, r)
            ||| (t.may_prune(node) ==> stands_up(sh, g, node, t) && is_uncut(sh, g, node, t)) && if iir_depth(
                t,
                node,
            ) <= 0 {
                quiet_worth(sh, g, t.alpha, t.beta, t.ply, t.pv, r, t.line)
            } else {
                moves_worth(sh, g, node, Task { depth: iir_depth(t, node), ..t }, r)
            }
        };
    assert(iir_depth(t, node) == t.depth);
    assert((Task { depth: t.depth, ..t }) == t);
    node
}

/// Law: a node is pruned as a whole only outside a variation, out of check, in a search
/// of all its moves and against a beta that is no mate.
pub proof fn when_a_node_may_be_pruned(t: Task, node: Node)
    ensures
        t.may_prune(node) <==> !t.pv && !node.in_check && t.excluded.0 == 0 && -31754 < t.beta < 31754,
{
}

/// Law: it is cut off at sight where reverse futility says so.
pub proof fn reverse_futility_cuts(t: Task, node: Node, r: Option<i32>)
    requires
        -33000 <= node.eval <= 33000,
        -33000 <= t.beta <= 33000,
        1 <= t.depth,
        call_ensures(reverse_futility, (node.eval, t.beta, t.depth, node.improving), r),
    ensures
        t.is_above(node) <==> r is Some,
{
}

/// Law: the turn is passed only from depth 3 on, where both the evaluation and, with 16
/// for each ply, the static one reach beta, the side has a piece beside its pawns and
/// king, and the last turn was not passed. The reply then has a window just above minus
/// beta, and is shallower by the null move's reduction.
pub proof fn when_the_turn_is_passed(g: Game, t: Task, node: Node, i: int, less: i32)
    requires
        is_placement(g.q),
        t.ply < 246,
        3 <= t.depth <= 1000,
        -33000 <= t.beta <= node.eval <= 33000,
        call_ensures(null_reduction, (t.depth, node.eval, t.beta), less),
    ensures
        t.tries_pass(g, node) ==> node.static_eval + 16 * t.depth >= t.beta && !t.path.passed,
        t.tries_pass(g, node) ==> exists|i: int|
            0 <= i < 100 && is_own(g.q, g.stm, i) && #[trigger] g.q[i].0 % 8 != 0 && g.q[i].0 % 8 != 7,
        node.static_eval + 16 * t.depth >= t.beta && !t.path.passed && 0 <= i < 100 && is_own(
            g.q,
            g.stm,
            i,
        ) && g.q[i].0 % 8 != 0 && g.q[i].0 % 8 != 7 ==> t.tries_pass(g, node),
        t.pass(node).alpha == -t.beta,
        t.pass(node).beta == -t.beta + 1,
        t.pass(node).depth == t.depth - less,
        t.pass(node).ply == t.ply + 1,
        !t.pass(node).pv,
        t.pass(node).cut_node == !t.cut_node,
        t.pass(node).path.passed,
{
    if t.tries_pass(g, node) {
        let x = choose|x: int| #[trigger]
            col_at(g.q, x, g.stm) && !(g.q[x].kind() == PieceType::Pawn || g.q[x].kind()
                == PieceType::King);
        assert(g.q[x].0 % 8 != 0 && g.q[x].0 % 8 != 7);
        assert(is_own(g.q, g.stm, x));
    }
    if 0 <= i < 100 && is_own(g.q, g.stm, i) && g.q[i].0 % 8 != 0 && g.q[i].0 % 8 != 7 {
        assert(col_at(g.q, i, g.stm));
    }
}

/// Law: no turn is passed before depth 3, below beta, or twice in a row.
pub proof fn when_no_turn_is_passed(g: Game, t: Task, node: Node)
    ensures
        t.depth < 3 || node.eval < t.beta || t.path.passed ==> !t.tries_pass(g, node),
{
}

/// Law: a mate found by passing counts as beta, and a score below beta cuts nothing off.
pub proof fn a_pass_proves_no_mate(t: Task, w: i32, r: i32)
    requires
        -33000 <= w <= 33000,
        t.passes_with(w, r),
    ensures
        -w >= t.beta,
        -w >= 31754 ==> r == t.beta,
        -w < 31754 ==> r == -w,
{
}

/// Law: captures are tried against the raised beta from depth 5 on, unless an entry at
/// most three plies shallower stays below it.
pub proof fn when_captures_are_tried_early(t: Task, node: Node, raised: i32)
    requires
        -33000 <= t.beta <= 33000,
        call_ensures(probcut_beta, (t.beta, node.improving), raised),
    ensures
        t.raised(node) == raised,
        t.tries_cut(node) <==> t.depth >= 5 && node.eval != 32002 && !(node.tt_depth + 3 >= t.depth
            && node.tt_score != 32002 && node.tt_score < raised),
{
}

/// Law: without a hash move a node below the root is searched a ply shallower from depth
/// 2 on, or two in a variation.
pub proof fn a_node_without_a_hash_move_is_shallower(t: Task, node: Node)
    requires
        -1000 <= t.depth <= 1000,
    ensures
        t.ply > 0 && t.depth >= 2 && node.tt_move.0 == 0 && !t.pv ==> iir_depth(t, node) == t.depth - 1,
        t.ply > 0 && t.depth >= 2 && node.tt_move.0 == 0 && t.pv ==> iir_depth(t, node) == t.depth - 2,
        t.ply == 0 || t.depth < 2 || node.tt_move.0 != 0 ==> iir_depth(t, node) == t.depth,
{
}

/// Law: from depth 2 on every move after the first is searched shallow at first, at the
/// root after the third; captures and promotions not where the table holds the node for
/// one of a variation.
pub proof fn when_a_move_is_late(g: Game, t: Task, node: Node, i: int, m: Move)
    requires
        0 <= i < 1000,
    ensures
        t.is_late(g, node, i, m) <==> t.depth >= 2 && i >= (if t.ply == 0 { 3int } else { 1 }) && (
        !is_noisy(g.q, m) || !node.tt_pv),
{
}

/// Law: the hash move is tested from depth 6 on, where its entry is at most three plies
/// shallower, bounds the node from below and is no mate; against a window two for each
/// ply below its score, at half the depth less one ply.
pub proof fn when_the_hash_move_is_tested(t: Task, node: Node, m: Move, window: int)
    requires
        1 <= t.depth <= 1000,
        -33000 <= node.tt_score <= 33000,
        -33000 <= window <= 33000,
    ensures
        t.is_tested(node, m) <==> t.depth >= 6 && m == node.tt_move && t.excluded.0 == 0 && node.tt_depth + 3
            >= t.depth && (node.tt_bound == 2 || node.tt_bound == 3) && -31754 < node.tt_score < 31754,
        t.lowered(node) == node.tt_score - 2 * t.depth,
        t.without(node, m, window).excluded == m,
        t.without(node, m, window).beta == window,
        t.without(node, m, window).alpha == window - 1,
        t.without(node, m, window).depth == (t.depth - 1) as int / 2,
        t.without(node, m, window).ply == t.ply,
        !t.without(node, m, window).pv,
{
}

/// Law: moves are extended below the root, up to twice the depth of the iteration: there,
/// a move that is not tested by a ply where it checks at more than five plies, and else
/// not at all.
pub proof fn a_check_is_extended(sh: &Shared, g: Game, node: Node, t: Task, m: Move, e: i32)
    requires
        extends_by(sh, g, node, t, m, e),
        0 <= t.path.root_depth <= 1000,
    ensures
        t.ply == 0 || t.ply >= 2 * t.path.root_depth ==> e == 0,
        0 < t.ply < 2 * t.path.root_depth && m != node.tt_move && t.depth > 5 && in_check_at(
            moved(g.q, g.stm, m),
            g.stm.flip(),
        ) ==> e == 1,
        m != node.tt_move && (t.depth <= 5 || !in_check_at(moved(g.q, g.stm, m), g.stm.flip())) ==> e == 0,
{
    reveal(extends_by);
}

/// Law: the reply to a move is searched from the other side, a ply further down, and
/// remembers the move.
pub proof fn a_reply_is_seen_from_the_other_side(t: Task, g: Game, node: Node, m: Move, alpha: i32, beta: i32, depth: i32, pv: bool, cut: bool, line: Seq<Move>)
    requires
        t.ply < 246,
        t.path.trail.len() > 0,
    ensures
        ({
            let u = t.reply(g, node, m, alpha as int, beta as int, depth as int, pv, cut, line);
            &&& u.ply == t.ply + 1
            &&& u.alpha == alpha && u.beta == beta && u.depth == depth
            &&& u.pv == pv && u.cut_node == cut
            &&& u.excluded.0 == 0
            &&& u.claimed.len() == 0
            &&& u.path.trail.last() == 100 * g.q[m.from().0 as int].0 + m.to().0
            &&& u.path.evals.last() == node.static_eval
            &&& !u.path.passed
            &&& u.path.root_depth == t.path.root_depth
        }),
{
    let p = g.q[m.from().0 as int].0;
    let to = m.to().0;
    assert(p * 100 + to == 100 * p + to);
}

/// Law: once a move does not lose to a mate, quiescence out of check passes over what
/// would not reach alpha with its victim and 174 on top, and what loses more than 34.
pub proof fn what_quiescence_passes_over(b: Board, best: i32, now: i32, floor: i32, m: Move, win: i32)
    requires
        b.wf(),
        m.to().valid(),
        -40000 <= best <= 40000,
        !is_struck(b.q(), b.stm),
        call_ensures(mvv, (&b, m), win),
    ensures
        is_beneath(game_of(&b), best, now, floor, m) <==> now > -31754 && best + 174 + win <= floor,
        is_bad_trade(game_of(&b), best, now, floor, m) <==> now > -31754 && best + 174 + win > floor && see(
            b.q(),
            b.stm,
            m,
        ) < -34,
{
    lemma_king_of(b.q(), b.stm);
    check_is_a_struck_king(b.q(), b.stm, king_of(b.q(), b.stm));
}

/// Law: in check quiescence passes over nothing.
pub proof fn quiescence_passes_over_no_evasion(b: Board, best: i32, now: i32, floor: i32, m: Move)
    requires
        b.wf(),
        is_struck(b.q(), b.stm),
    ensures
        !is_beneath(game_of(&b), best, now, floor, m),
        !is_bad_trade(game_of(&b), best, now, floor, m),
{
    lemma_king_of(b.q(), b.stm);
    check_is_a_struck_king(b.q(), b.stm, king_of(b.q(), b.stm));
}

/// Law: trials are worth the best of their scores, and raise the window only with a new best.
pub proof fn the_best_score_counts(ts: Seq<Trial>, start: i32, floor: i32, v: i32, tr: Trial)
    requires
        tr.outcome == Outcome::Scored(v),
    ensures
        best_of(ts.push(tr), start) >= v,
        best_of(ts.push(tr), start) >= best_of(ts, start),
        best_of(ts.push(tr), start) == v || best_of(ts.push(tr), start) == best_of(ts, start),
        floor_of(ts.push(tr), start, floor) >= floor_of(ts, start, floor),
        v > best_of(ts, start) && v > floor_of(ts, start, floor) ==> floor_of(ts.push(tr), start, floor)
            == v && line_of(ts.push(tr), start, floor) == seq![tr.m] + tr.line,
{
    assert(ts.push(tr).drop_last() =~= ts);
}

/// Law: a late move is first searched shallower by its reduction, which the table of
/// reductions starts from; a late one that beats the window there goes on to its full
/// depth, and any other one at once, but for the first of a variation.
pub proof fn how_deep_a_late_move_is_searched(
    lmr: LmrTable,
    g: Game,
    t: Task,
    node: Node,
    i: int,
    tr: Trial,
    deep: i32,
    base: i32,
    less: i32,
    d: i32,
)
    requires
        0 <= i < 1000,
        -1000 <= deep <= 1000,
        -70_000 <= t.history(g, tr) <= 70_000,
        call_ensures(LmrTable::lmr, (&lmr, t.depth, (i + 1) as i32), base),
        call_ensures(
            late_reduction,
            (
                base,
                t.pv,
                t.cut_node,
                node.tt_pv,
                node.improving,
                checks(g.q, g.stm, tr.m),
                !is_noisy(g.q, tr.m),
                t.history(g, tr) as i32,
                tr.busy,
            ),
            less,
        ),
        call_ensures(reduced_depth, (deep, less), d),
    ensures
        t.late_depth(lmr, g, node, i, tr, deep as int) == d,
{
    assert(number_of(i) == i + 1);
}

/// Law: which searches a move gets. A late one that stays at or below the window in its
/// shallow search gets no other; one that beats it is searched to its full depth, if that
/// is deeper; one that is not late is searched to its full depth at once, but for the
/// first of a variation, which gets the full window, as does whatever beats the window in
/// a variation.
pub proof fn which_searches_a_move_gets(t: Task, shallow: int, deep: int, i: int, floor: i32, s1: i32, s2: i32)
    requires
        0 <= i < 1000,
    ensures
        s1 <= floor ==> !t.goes_deep(true, shallow, deep, i, floor, s1),
        s1 > floor && shallow < deep ==> t.goes_deep(true, shallow, deep, i, floor, s1),
        t.goes_deep(false, shallow, deep, i, floor, s1) <==> !t.pv || i > 0,
        !t.pv ==> !t.opens(true, shallow, deep, i, floor, s1, s2) && !t.opens(
            false,
            shallow,
            deep,
            i,
            floor,
            s1,
            s2,
        ),
        t.pv && i == 0 ==> t.opens(false, shallow, deep, i, floor, s1, s2),
        t.pv && i > 0 ==> (t.opens(false, shallow, deep, i, floor, s1, s2) <==> s2 > floor),
        t.pv && i > 0 && s1 <= floor ==> !t.opens(true, shallow, deep, i, floor, s1, s2),
        t.pv && i > 0 && s1 > floor && shallow < deep ==> (t.opens(
            true,
            shallow,
            deep,
            i,
            floor,
            s1,
            s2,
        ) <==> s2 > floor),
{
}

/// Law: a node looks at every legal move but the one that is left out and those that
/// other lines have claimed; without any, it is mate in check and else a draw.
pub proof fn what_a_node_looks_at(b: Board, t: Task, m: Move)
    requires
        b.wf(),
    ensures
        t.is_choice(game_of(&b), m) <==> m.compact() && legal(b.q(), b.stm, b.ep, m) && m != t.excluded
            && !t.claimed.contains(m),
        t.excluded.0 == 0 && t.ply <= 246 && is_struck(b.q(), b.stm) ==> t.comes_to(
            game_of(&b),
            Seq::empty(),
        ) == t.ply - 32000,
        t.excluded.0 == 0 && !is_struck(b.q(), b.stm) ==> t.comes_to(game_of(&b), Seq::empty()) == 0,
{
    lemma_king_of(b.q(), b.stm);
    check_is_a_struck_king(b.q(), b.stm, king_of(b.q(), b.stm));
    generated_exactly_legal(gen_of(&b, GEN_ALL));
    assert(listed_at(game_of(&b).pos()) == moves_of(gen_of(&b, GEN_ALL)));
}

/// Law: below the root, once a move does not lose to a mate, a quiet move is searched
/// where it is not dropped, and a capture or promotion where it is judged worth a try.
pub proof fn which_moves_are_searched(
    lmr: LmrTable,
    b: Board,
    tables: Tables,
    node: Node,
    pv: bool,
    alpha: i32,
    depth: i32,
    moves: i32,
    h: i32,
    m: Move,
    base: i32,
    reduced: i32,
    futile: bool,
    dropped: bool,
    check: bool,
    verdict: Verdict,
)
    requires
        b.wf(),
        b.check_square_info(),
        b.legal_here(m),
        node.ok(&b),
        node.eval <= 33000,
        -33000 <= alpha <= 33000,
        0 <= depth <= 8000,
        -70_000 <= h <= 70_000,
        call_ensures(LmrTable::lmr, (&lmr, depth, moves), base),
        reduced == if depth - base < 0 { 0 } else { depth - base },
        call_ensures(quiets_are_futile, (node.in_check, node.eval, alpha, reduced), futile),
        call_ensures(drop_quiet, (&b, &tables, m, futile, depth, reduced, h), dropped),
        call_ensures(Board::gives_check, (&b, &tables, m), check),
        call_ensures(
            judge_noisy,
            (
                &b,
                &tables,
                m,
                pv,
                &node,
                check,
                m != node.tt_move && see(b.q(), b.stm, m) < 0,
                alpha,
                depth,
                reduced,
                victim_by(b.q(), m),
                h,
            ),
            verdict,
        ),
    ensures
        !is_noisy(b.q(), m) ==> judged(lmr, b.q(), b.stm, node, pv, alpha, depth, moves, h as int, m) == if dropped {
            Verdict::Skip
        } else {
            Verdict::Try
        },
        is_noisy(b.q(), m) ==> judged(lmr, b.q(), b.stm, node, pv, alpha, depth, moves, h as int, m) == verdict,
{
    reveal(judged);
    assert(reduced_by(lmr, depth, moves) == reduced);
}

/// Law: a stored score stands in for the evaluation where it is the better estimate.
pub proof fn a_stored_score_informs_the_evaluation(eval: i32, bound: u8, s: i32, better: bool)
    requires
        call_ensures(improves, (bound, s, eval), better),
    ensures
        informed(eval, bound, s) == if better { s } else { eval },
{
}

/// Law: the evaluation of a stored position is taken from the table where there is one,
/// and from the network where there is none.
pub proof fn an_evaluation_is_stored_once(sh: &Shared, b: Board, h: Hit, e: i32)
    requires
        b.wf(),
        evaluable(b.q()),
        sh.net.ok(),
        call_ensures(evaluate_scratch, (sh.net, &b), e),
    ensures
        raw_of(sh, game_of(&b), None) == e,
        -31754 < h.eval < 31754 ==> raw_of(sh, game_of(&b), Some(h)) == h.eval,
        h.eval <= -31754 || h.eval >= 31754 ==> raw_of(sh, game_of(&b), Some(h)) == e,
{
}

/// Law: quiet moves end with one that comes late enough, or once they are futile.
pub proof fn when_quiet_moves_end(
    lmr: LmrTable,
    q: Seq<Piece>,
    node: Node,
    alpha: i32,
    depth: i32,
    moves: i32,
    m: Move,
    base: i32,
    late: bool,
    futile: bool,
)
    requires
        0 <= depth <= 8000,
        node.eval <= 33000,
        call_ensures(LmrTable::lmr, (&lmr, depth, moves), base),
        call_ensures(late_enough, (moves, depth, node.improving), late),
        call_ensures(
            quiets_are_futile,
            (node.in_check, node.eval, alpha, (if depth - base < 0 { 0 } else { depth - base }) as i32),
            futile,
        ),
    ensures
        ends_quiets(lmr, q, node, alpha, depth, moves, m) <==> !is_noisy(q, m) && (late || futile),
{
}

/// Law: a cut against the raised beta is earned by a legal capture or promotion that wins
/// what is missing to it, and by nothing shallower than depth 5.
pub proof fn an_early_cut_is_earned(sh: &Shared, b: Board, node: Node, t: Task, r: i32, raised: i32)
    requires
        b.wf(),
        -33000 <= t.beta <= 33000,
        call_ensures(probcut_beta, (t.beta, node.improving), raised),
        is_cut(sh, game_of(&b), node, t, r),
    ensures
        r >= raised,
        t.depth >= 5,
        exists|m: Move| #[trigger]
            legal(b.q(), b.stm, b.ep, m) && is_noisy(b.q(), m) && see(b.q(), b.stm, m) >= raised - node.eval && m
                != t.excluded,
{
    reveal(is_cut);
    reveal(probes_at);
    let g = game_of(&b);
    let m = choose|m: Move| #[trigger]
        promises(g, t.excluded, t.raised(node) - node.eval, m) && probes_at(sh, g, node, t, m, r);
    assert(promises(g, t.excluded, t.raised(node) - node.eval, m));
    assert(legal(b.q(), b.stm, b.ep, m));
}

/// Law: a node is cut by several good moves only where one other than the hash move beats
/// a window beyond beta, and then it is worth that window.
pub proof fn several_good_moves_cut(sh: &Shared, g: Game, node: Node, t: Task, r: i32)
    requires
        cut_by_many(sh, g, node, t, r),
        1 <= t.depth <= 1000,
    ensures
        r == node.tt_score - 2 * t.depth,
        r >= t.beta,
        t.depth >= 6,
        t.ply > 0,
        node.tt_depth + 3 >= t.depth,
{
    reveal(cut_by_many);
    reveal(search_worth);
}

/// Law: what beats the raised beta was searched against it, three plies shallower than
/// the node.
pub proof fn an_early_cut_is_searched(sh: &Shared, g: Game, node: Node, t: Task, m: Move, v: i32, raised: i32) -> (u: Task)
    requires
        -33000 <= t.beta <= 33000,
        5 <= t.depth <= 1000,
        call_ensures(probcut_beta, (t.beta, node.improving), raised),
        probes_at(sh, g, node, t, m, v),
        v >= raised,
    ensures
        search_worth(sh, g.after(m), u, (-v) as i32),
        u.depth == t.depth - 3,
        u.alpha == -raised,
        u.beta == -raised + 1,
        u.ply == t.ply + 1,
        !u.pv,
        u.cut_node == !t.cut_node,
{
    reveal(probes_at);
    reveal(search_worth);
    reveal(quiet_worth);
    t.reply(
        g,
        node,
        m,
        -t.raised(node),
        -t.raised(node) + 1,
        t.depth - 3,
        false,
        !t.cut_node,
        Seq::empty(),
    )
}

} // verus!
