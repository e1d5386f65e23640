//! What the search decides of its nodes and moves, in plies and centipawns.

use vstd::prelude::*;

use crate::attacks::Tables;
use crate::board::Board;
use crate::history::{Conts, Histories, conts_ok};
use crate::iterate::{first_window, widen};

use crate::movepick::mvv;
use crate::node::{
    MoveFacts, Node, Verdict, does_better, drop_quiet, judge_noisy, look_at, quiets_are_futile,
    recall,
};
use crate::position::{ep_real, lemma_piece};
use crate::rules::{lemma_number, move_number};
use crate::score::score_from_tt;
use crate::see::{see_ge, see_value};
use crate::see_laws::{gain_of, worth_of};
use crate::tt::{Hit, hit_ok};
use crate::types::{Move, PieceType};

verus! {

/// Law: a node takes its move, its score counted from its own ply, its depth and its
/// bound from the table; at the root the best move so far comes first, and without an
/// entry there is nothing but that.
pub proof fn a_node_recalls_the_table(h: Hit, best: Option<Move>, excluded: Move, pv: bool, ply: usize, s: i32, r: Node, none: Node)
    requires
        ply <= 246,
        hit_ok(h),
        best matches Some(m) ==> m.compact(),
        call_ensures(recall, (&Some(h), best, excluded, pv, ply), r),
        call_ensures(recall, (&None::<Hit>, best, excluded, pv, ply), none),
        call_ensures(score_from_tt, (h.score, ply), s),
    ensures
        r.tt_score == s,
        r.tt_depth == h.depth,
        r.tt_bound == h.bound,
        r.tt_pv == (pv || h.was_pv),
        best is None || (best->0).0 == 0 ==> r.tt_move == h.mv,
        best matches Some(m) && m.0 != 0 ==> r.tt_move == best->0,
        r.excluded == excluded,
        none.tt_bound == 0,
        none.tt_depth < 0,
        none.tt_pv == pv,
        best is None ==> none.tt_move.0 == 0,
        best is Some ==> none.tt_move == best->0,
{
}

/// Law: a node improves if it is evaluated above the node two plies ago, or where that
/// was in check above the one four plies ago, or where neither is known.
pub proof fn when_a_node_improves(eval: i32, two: i32, four: i32, r: bool, far: bool, unknown: bool)
    requires
        two != 32002,
        four != 32002,
        call_ensures(does_better, (eval, two, four), r),
        call_ensures(does_better, (eval, 32002, four), far),
        call_ensures(does_better, (eval, 32002, 32002), unknown),
    ensures
        r <==> eval > two,
        far <==> eval > four,
        unknown,
{
}

/// Law: out of check, within eight plies of reduced depth, quiet moves are futile where
/// the evaluation stays at or below alpha with 150 and 106 for each ply added; a mate
/// score says nothing.
pub proof fn when_quiet_moves_are_futile(eval: i32, alpha: i32, depth: i32, r: bool, checked: bool)
    requires
        -33000 <= eval <= 32001,
        0 <= depth <= 8323,
        call_ensures(quiets_are_futile, (false, eval, alpha, depth), r),
        call_ensures(quiets_are_futile, (true, eval, alpha, depth), checked),
    ensures
        !checked,
        r <==> depth <= 8 && -31754 < eval < 31754 && alpha - eval >= 150 + 106 * depth,
{
}

/// Law: a quiet move is dropped where it is futile, where within four plies its history
/// is below minus 3579 for each ply of depth, or where it loses more than 31 by the
/// square of its reduced depth.
pub proof fn when_a_quiet_move_is_dropped(
    b: Board,
    tables: Tables,
    m: Move,
    futile: bool,
    depth: i32,
    reduced: i32,
    h: i32,
    threshold: i32,
    holds: bool,
    r: bool,
)
    requires
        b.wf(),
        b.legal_here(m),
        0 <= depth <= 10_000,
        0 <= reduced <= 8_323,
        threshold == -(31 * (reduced * reduced)),
        call_ensures(see_ge, (&b, &tables, m, threshold), holds),
        call_ensures(drop_quiet, (&b, &tables, m, futile, depth, reduced, h), r),
    ensures
        r <==> futile || (reduced <= 4 && h + 3579 * depth < 0) || !holds,
{
    assert(-31 * reduced * reduced == -(31 * (reduced * reduced))) by (nonlinear_arith);
}

/// Law: what is decided of a capture or promotion. Out of check, where it gives none and
/// does not promote: once only losing ones are left, at fewer than nine plies, all of
/// them are given up if the evaluation stays at or below alpha with 63 and 91 for each
/// ply; outside a variation, at fewer than seven plies of reduced depth, one other than
/// the hash move is passed over if the evaluation stays at or below alpha with 139, 151
/// for each ply, its victim and a fifth of its history. Any is skipped that loses more
/// than 89 for each of up to seven plies.
pub proof fn when_a_capture_is_dropped(
    b: Board,
    tables: Tables,
    m: Move,
    pv: bool,
    node: Node,
    check: bool,
    bad: bool,
    alpha: i32,
    depth: i32,
    reduced: i32,
    victim: PieceType,
    h: i32,
    threshold: i32,
    holds: bool,
    r: Verdict,
)
    requires
        b.wf(),
        b.legal_here(m),
        node.ok(&b),
        -33000 <= alpha <= 33000,
        0 <= depth <= 8_323,
        0 <= reduced <= 8_323,
        0 <= h <= 70_000,
        threshold == -89 * depth,
        call_ensures(see_ge, (&b, &tables, m, threshold), holds),
        call_ensures(
            judge_noisy,
            (&b, &tables, m, pv, &node, check, bad, alpha, depth, reduced, victim, h),
            r,
        ),
    ensures
        ({
            let calm = !node.in_check && !check && m.0 / 16384 % 8 == 0 && -31754 < node.eval < 31754;
            let gives_up = calm && bad && depth <= 8 && node.eval + 63 + 91 * depth <= alpha;
            let hope = node.eval + 139 + 151 * reduced + worth_of(victim.idx() as int) + h as int / 5;
            let passes = calm && !pv && m != node.tt_move && reduced <= 6 && hope <= alpha;
            let loses = depth <= 7 && !holds;
            &&& gives_up ==> r == Verdict::Stop((node.eval + 63 + 91 * depth) as i32)
            &&& !gives_up && passes ==> r == Verdict::Raise(hope as i32)
            &&& !gives_up && !passes && loses ==> r == Verdict::Skip
            &&& !gives_up && !passes && !loses ==> r == Verdict::Try
        }),
{
    assert(see_value(victim) == worth_of(victim.idx() as int));
}

/// Law: what is known of a move before it is searched: whether it is quiet, what it would
/// take, whether it checks, and its history, for a capture or promotion by mover, square
/// and victim, else by squares, by pawns and after each of the last two moves.
pub proof fn what_is_known_of_a_move(
    b: Board,
    tables: Tables,
    hist: Histories,
    c: Conts,
    m: Move,
    r: MoveFacts,
    check: bool,
    own: i32,
    pawn: i32,
    one: i32,
    two: i32,
    capture: i32,
)
    requires
        b.wf(),
        b.check_square_info(),
        b.legal_here(m),
        hist.ok(),
        conts_ok(c),
        c[0] < 1600,
        c[1] < 1600,
        call_ensures(look_at, (&b, &tables, &hist, &c, m), r),
        call_ensures(Board::gives_check, (&b, &tables, m), check),
        call_ensures(Histories::main_score, (&hist, b.stm, m), own),
        call_ensures(
            Histories::pawn_score,
            (&hist, b.pawn_key, b.mailbox[m.from().0 as int], m.to()),
            pawn,
        ),
        call_ensures(
            Histories::cont_score,
            (&hist, c[0], b.mailbox[m.from().0 as int], m.to()),
            one,
        ),
        call_ensures(
            Histories::cont_score,
            (&hist, c[1], b.mailbox[m.from().0 as int], m.to()),
            two,
        ),
        call_ensures(
            Histories::capture_score,
            (&hist, b.mailbox[m.from().0 as int], m.to(), r.victim),
            capture,
        ),
    ensures
        r.quiet <==> b.mailbox[m.to().0 as int].0 == 16 && m.0 / 16384 % 8 == 0 && m.0 / 131072 % 2 == 0,
        r.gives_check == check,
        r.quiet ==> r.hist_score == own + pawn + one + two,
        !r.quiet ==> r.hist_score == capture,
        b.mailbox[m.to().0 as int].0 < 16 ==> r.victim.idx() == b.mailbox[m.to().0 as int].0 % 8,
        m.0 / 131072 % 2 == 1 ==> r.victim == PieceType::Pawn,
        b.mailbox[m.to().0 as int].0 == 16 && m.0 / 131072 % 2 == 0 ==> r.victim == PieceType::King,
{
    lemma_piece(b.q()[m.to().0 as int]);
    if m.0 / 131072 % 2 == 1 {
        assert(m.is_en_passant());
        assert(ep_real(b.q(), b.stm, b.ep.0 as int));
    }
}

/// Law: a capture or promotion is ranked by its victim and by what the pawn gains.
pub proof fn what_a_move_wins_at_once(b: Board, m: Move, f: int, t: int, kind: int, passing: bool, r: i32)
    requires
        b.wf(),
        0 <= f < 100,
        0 <= t < 100,
        0 <= kind < 8,
        m.0 == move_number(f, t, kind, passing),
        call_ensures(mvv, (&b, m), r),
    ensures
        r == gain_of(b.q(), t, kind, passing),
{
    lemma_number(m, f, t, kind, passing);
    let q = b.q();
    lemma_piece(q[t]);
    if q[t].valid() {
        assert(see_value(q[t].kind()) == worth_of(q[t].0 as int % 8));
    }
    assert(see_value(m.promo_kind()) == worth_of(kind));
}

/// Law: from depth 4 on a line is first searched within 10 of its score, and a
/// twelve-thousandth of its square more, either way; before that without bounds.
pub proof fn the_first_window_is_narrow(depth: i32, prev: i32, r: (i32, i32, i32), mirrored: (i32, i32, i32))
    requires
        -10_000 <= prev <= 10_000,
        call_ensures(first_window, (depth, prev), r),
        call_ensures(first_window, (depth, (-prev) as i32), mirrored),
    ensures
        12000 * (r.2 - 10) <= prev * prev < 12000 * (r.2 - 9),
        depth >= 4 ==> prev - r.0 == r.2 && r.1 - prev == r.2,
        depth < 4 ==> r.0 == -32001 && r.1 == 32001,
        mirrored.0 == -r.1 && mirrored.1 == -r.0 && mirrored.2 == r.2,
{
    assert(0 <= prev * prev <= 100_000_000) by (nonlinear_arith)
        requires
            -10_000 <= prev <= 10_000,
    ;
    assert((-prev) * (-prev) == prev * prev) by (nonlinear_arith);
}

/// Law: a score inside its window ends the search of a line. One at or below alpha lowers
/// alpha below itself by the step and beta to the middle, at full depth; one at or above
/// beta raises beta above itself, a ply shallower, two at most. A bound that is open
/// already stays.
pub proof fn a_window_is_widened_where_it_fails(
    s: i32,
    alpha: i32,
    beta: i32,
    delta: i32,
    now: i32,
    depth: i32,
    r: Option<(i32, i32, i32)>,
)
    requires
        -32001 <= s <= 32001,
        -32001 <= alpha < beta <= 32001,
        0 <= alpha + beta,
        10 <= delta <= 100_000,
        1 <= now <= depth <= 10_000,
        call_ensures(widen, (s, alpha, beta, delta, now, depth), r),
    ensures
        alpha < s < beta ==> r is None,
        s <= alpha && alpha > -32001 ==> r is Some && (r->0).2 == depth && 2 * (r->0).1 <= alpha + beta <= 2
            * (r->0).1 + 1 && (s - delta >= -32001 ==> (r->0).0 == s - delta) && (s - delta < -32001
            ==> (r->0).0 == -32001),
        s >= beta && beta < 32001 ==> r is Some && (r->0).0 == alpha && (s + delta <= 32001 ==> (r->0).1
            == s + delta) && (s + delta > 32001 ==> (r->0).1 == 32001),
        s >= beta && beta < 32001 && depth >= 3 && now > depth - 2 ==> (r->0).2 == now - 1,
        s >= beta && beta < 32001 && depth >= 3 && now <= depth - 2 ==> (r->0).2 == depth - 2,
        s <= alpha && alpha == -32001 ==> r is None,
        s >= beta && beta == 32001 ==> r is None,
{
}

} // verus!
