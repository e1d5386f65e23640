//! What the scores and margins mean, in plies and centipawns.

use vstd::prelude::*;


use crate::score::{
    LmrTable, adjust, bare_node, decides, history_bonus, history_malus, improves, is_eval,
    is_mate, late_enough, late_reduction, mate_in, mated_in, node_bound, null_reduction, one_if,
    opp_swing_bonus, probcut_beta, razors, reduced_depth, reverse_futility, score_from_tt,
    score_to_tt, score_to_uci, singular_extension,
};
use crate::text::decimal_int;



verus! {

// -- mates ---------------------------------------------------------------------------

/// Law: a mate is worth 32000 less the plies to it, to either side; a sooner one is
/// worth more, and every other score less than any mate within the horizon.
pub proof fn a_sooner_mate_is_worth_more(ply: usize, later: usize, r: i32, rl: i32, lost: i32, s: i32, mate: bool)
    requires
        ply < later <= 246,
        call_ensures(mate_in, (ply,), r),
        call_ensures(mate_in, (later,), rl),
        call_ensures(mated_in, (ply,), lost),
        call_ensures(is_mate, (s,), mate),
    ensures
        r + ply == 32000,
        rl < r,
        lost == -r,
        mate <==> s >= 31754 || s <= -31754,
        !mate ==> lost < s < rl,
{
}

/// Law: a mate that is `n` plies from a position stays `n` plies from it in the table:
/// stored at one ply and found at another, it counts from where it is found. A score
/// that is no mate does not change.
pub proof fn a_stored_mate_counts_from_the_position(
    n: int,
    at: usize,
    found: usize,
    win: i32,
    loss: i32,
    s: i32,
    win_in: i32,
    win_out: i32,
    loss_in: i32,
    loss_out: i32,
    s_in: i32,
    s_out: i32,
)
    requires
        0 <= n,
        at + n <= 246,
        found <= 246,
        win == 32000 - (at + n),
        loss == (at + n) - 32000,
        -31754 < s < 31754,
        call_ensures(score_to_tt, (win, at), win_in),
        call_ensures(score_from_tt, (win_in, found), win_out),
        call_ensures(score_to_tt, (loss, at), loss_in),
        call_ensures(score_from_tt, (loss_in, found), loss_out),
        call_ensures(score_to_tt, (s, at), s_in),
        call_ensures(score_from_tt, (s_in, found), s_out),
    ensures
        win_in == 32000 - n,
        win_out == 32000 - (found + n),
        loss_in == n - 32000,
        loss_out == (found + n) - 32000,
        s_in == s,
        s_out == s,
{
}

/// Law: a score is reported in centipawns, and a mate in moves: the mate that the side
/// to move gives with its `n`th move as `n`, the one it suffers after `n` moves of its own
/// as minus `n`.
pub proof fn a_mate_is_reported_in_moves(s: i32, n: int, win: i32, loss: i32, r: String, rw: String, rl: String)
    requires
        -31754 < s < 31754,
        1 <= n <= 123,
        win == 32000 - (2 * n - 1),
        loss == 2 * n - 32000,
        call_ensures(score_to_uci, (s,), r),
        call_ensures(score_to_uci, (win,), rw),
        call_ensures(score_to_uci, (loss,), rl),
    ensures
        r@ == seq!['c', 'p', ' '] + decimal_int(s as int),
        rw@ == seq!['m', 'a', 't', 'e', ' '] + decimal_int(n),
        rl@ == seq!['m', 'a', 't', 'e', ' '] + decimal_int(-n),
{
    reveal_strlit("cp ");
    reveal_strlit("mate ");
    assert("cp "@ =~= seq!['c', 'p', ' ']);
    assert("mate "@ =~= seq!['m', 'a', 't', 'e', ' ']);
}

/// Law: a node without a move is mate where the king is in check and else a draw; where
/// a move was left out it proves nothing above the window.
pub proof fn a_node_without_moves_is_mate_or_stalemate(alpha: i32, ply: usize, mate: i32, stalemate: i32, left: i32)
    requires
        ply <= 246,
        call_ensures(bare_node, (false, true, alpha, ply), mate),
        call_ensures(bare_node, (false, false, alpha, ply), stalemate),
        call_ensures(bare_node, (true, true, alpha, ply), left),
    ensures
        mate == ply - 32000,
        stalemate == 0,
        left == alpha,
{
}

// -- bounds --------------------------------------------------------------------------

/// Law: a stored score decides a window that it lies outside of on the side its bound
/// covers, or any if it is exact: a lower bound one that it reaches the top of, an upper bound
/// one that it stays at the bottom of.
pub proof fn a_bound_decides_its_side(s: i32, alpha: i32, beta: i32, exact: bool, lower: bool, upper: bool, none: bool)
    requires
        call_ensures(decides, (3, s, alpha, beta), exact),
        call_ensures(decides, (2, s, alpha, beta), lower),
        call_ensures(decides, (1, s, alpha, beta), upper),
        call_ensures(decides, (0, s, alpha, beta), none),
    ensures
        exact,
        lower <==> s >= beta,
        upper <==> s <= alpha,
        !none,
{
}

/// Law: a stored score is a better estimate than the evaluation where it is exact, a lower
/// bound above it or an upper bound below it.
pub proof fn a_bound_improves_its_side(s: i32, eval: i32, exact: bool, lower: bool, upper: bool, none: bool)
    requires
        call_ensures(improves, (3, s, eval), exact),
        call_ensures(improves, (2, s, eval), lower),
        call_ensures(improves, (1, s, eval), upper),
        call_ensures(improves, (0, s, eval), none),
    ensures
        exact,
        lower <==> s > eval,
        upper <==> s < eval,
        !none,
{
}

/// Law: what a node found is a lower bound from beta on, exact inside the window of a variation
/// with a best move, and else an upper bound.
pub proof fn a_node_is_bounded_by_its_window(best: i32, beta: i32, alpha: i32, pv: bool, has_best: bool, r: u8)
    requires
        call_ensures(node_bound, (best, beta, alpha, pv, has_best), r),
    ensures
        best >= beta ==> r == 2,
        alpha < best < beta && pv && has_best ==> r == 3,
        best < beta && (best <= alpha || !pv || !has_best) ==> r == 1,
{
}

/// Law: an evaluation is any score that is no mate.
pub proof fn an_evaluation_is_no_mate(e: i32, r: bool)
    requires
        call_ensures(is_eval, (e,), r),
    ensures
        r <==> -31754 < e < 31754,
{
}

// -- the evaluation of a node --------------------------------------------------------

/// Law: the fifty-move count damps an evaluation towards nothing, by one part in 214 for
/// each ply; the correction comes on top.
pub proof fn the_count_damps_the_evaluation(raw: i32, halfmove: u16, correction: i32, r: i32, mirrored: i32)
    requires
        -131586 <= raw <= 131586,
        halfmove <= 214,
        -32 <= correction <= 32,
        call_ensures(adjust, (raw, halfmove, correction), r),
        call_ensures(adjust, ((-raw) as i32, halfmove, (-correction) as i32), mirrored),
    ensures
        mirrored == -r,
        -31753 <= r <= 31753,
        raw >= 0 && -31753 < r < 31753 ==> 214 * (r - correction) <= raw * (214 - halfmove) < 214 * (
        r - correction + 1),
        raw >= 0 && r == 31753 ==> raw * (214 - halfmove) >= 214 * (31753 - correction),
{
    let x = raw * (214 - halfmove);
    assert(-131586 * 214 <= x <= 131586 * 214 && (raw >= 0 ==> x >= 0) && (raw <= 0 ==> x <= 0))
        by (nonlinear_arith)
        requires
            x == raw * (214 - halfmove),
            -131586 <= raw <= 131586,
            0 <= halfmove <= 214,
    ;
    assert((-raw) * (214 - halfmove) == -x) by (nonlinear_arith)
        requires
            x == raw * (214 - halfmove),
    ;
}

// -- pruning -------------------------------------------------------------------------

/// Law: within six plies of the horizon a node so far above beta that it could lose 62
/// for every ply, one less if it improves, is cut off, a third of the way from beta to
/// its evaluation.
pub proof fn a_node_far_above_beta_is_cut(eval: i32, beta: i32, depth: i32, r: Option<i32>, ri: Option<i32>)
    requires
        -40000 <= eval <= 40000,
        -40000 <= beta <= 40000,
        1 <= depth <= 1000,
        call_ensures(reverse_futility, (eval, beta, depth, false), r),
        call_ensures(reverse_futility, (eval, beta, depth, true), ri),
    ensures
        depth > 6 ==> r is None && ri is None,
        depth <= 6 ==> (r is Some <==> eval >= beta + 62 * depth),
        depth <= 6 ==> (ri is Some <==> eval >= beta + 62 * depth - 62),
        r matches Some(v) ==> 3 * (v - beta) <= eval - beta < 3 * (v - beta) + 3,
        ri matches Some(v) ==> 3 * (v - beta) <= eval - beta < 3 * (v - beta) + 3,
{
}

/// Law: within three plies of the horizon a node that stays below alpha with 308 and 442
/// for each ply added is razored.
pub proof fn a_node_far_below_alpha_is_razored(eval: i32, alpha: i32, depth: i32, r: bool)
    requires
        -40000 <= eval <= 40000,
        -40000 <= alpha <= 40000,
        0 <= depth <= 1000,
        call_ensures(razors, (eval, alpha, depth), r),
    ensures
        r <==> depth <= 3 && alpha - eval > 308 + 442 * depth,
{
}

/// Law: a null move is searched five plies shallower, one more for every three plies of depth
/// and one more for every 217 above beta, three of those at most.
pub proof fn a_null_move_is_reduced(depth: i32, eval: i32, beta: i32, r: i32, deeper: i32, higher: i32)
    requires
        3 <= depth <= 1000,
        -40000 <= beta <= eval <= 40000,
        call_ensures(null_reduction, (depth, eval, beta), r),
        call_ensures(null_reduction, ((depth + 3) as i32, eval, beta), deeper),
        call_ensures(null_reduction, (depth, (eval + 217) as i32, beta), higher),
    ensures
        deeper == r + 1,
        eval - beta < 217 ==> r == 5 + depth / 3,
        eval - beta < 651 ==> higher == r + 1,
        eval - beta >= 651 ==> higher == r && r == 8 + depth / 3,
{
}

/// Law: the raised beta is 209 above beta, or 157 where the side improves.
pub proof fn a_raised_beta(beta: i32, r: i32, ri: i32)
    requires
        -40000 <= beta <= 40000,
        call_ensures(probcut_beta, (beta, false), r),
        call_ensures(probcut_beta, (beta, true), ri),
    ensures
        r == beta + 209,
        ri == beta + 157,
{
}

/// Law: quiet moves are given up after as many as the square of the depth and three more, or
/// half as many where the side does not improve.
pub proof fn late_moves_are_given_up(moves: i32, depth: i32, r: bool, ri: bool)
    requires
        0 <= depth <= 46_340,
        moves >= 0,
        call_ensures(late_enough, (moves, depth, false), r),
        call_ensures(late_enough, (moves, depth, true), ri),
    ensures
        ri <==> moves >= depth * depth + 3,
        r <==> 2 * moves + 1 >= depth * depth + 3,
{
    let x = 3 + depth * depth;
    assert(depth * depth >= 0) by (nonlinear_arith);
    assert(x / (2 - one_if(true)) == x) by (nonlinear_arith)
        requires
            one_if(true) == 1,
    ;
    assert(x / (2 - one_if(false)) == x / 2) by (nonlinear_arith)
        requires
            one_if(false) == 0,
    ;
}

/// Law: a late move is reduced by one ply more outside a variation, at a node expected to
/// fail high and where an earlier reply failed high often; by one less where the table or
/// the evaluation speaks for it or it gives check; and by up to two either way with its
/// history, a ply for every 5956 of a quiet move and every 5679 of a capture.
pub proof fn what_reduces_a_late_move(
    base: i32,
    pv: bool,
    cut: bool,
    tt_pv: bool,
    improving: bool,
    check: bool,
    quiet: bool,
    h: i32,
    busy: bool,
    plain: i32,
    r: i32,
)
    requires
        0 <= base <= 1000,
        -40000 <= h <= 40000,
        call_ensures(late_reduction, (base, true, false, false, false, false, quiet, h, false), plain),
        call_ensures(late_reduction, (base, pv, cut, tt_pv, improving, check, quiet, h, busy), r),
    ensures
        r == plain + (if pv { 0int } else { 1 }) + (if cut { 1int } else { 0 }) + (if busy { 1int } else {
            0
        }) - (if tt_pv { 1int } else { 0 }) - (if improving { 1int } else { 0 }) - (if check { 1int } else {
            0
        }),
        ({
            let unit = if quiet { 5956int } else { 5679 };
            &&& -unit < h < unit ==> plain == base
            &&& unit <= h < 2 * unit ==> plain == base - 1
            &&& 2 * unit <= h ==> plain == base - 2
            &&& -2 * unit < h <= -unit ==> plain == base + 1
            &&& h <= -2 * unit ==> plain == base + 2
        }),
{
}

/// Law: a reduced search is as much shallower as asked, but no shallower than one ply and no
/// deeper than the full search.
pub proof fn a_reduced_search_keeps_a_ply(depth: i32, r: i32, d: i32)
    requires
        -1000 <= depth <= 1000,
        -1000 <= r <= 1000,
        call_ensures(reduced_depth, (depth, r), d),
    ensures
        1 <= depth - r <= depth ==> d == depth - r,
        depth - r < 1 ==> d == 1,
        depth >= 1 && r < 0 ==> d == depth,
{
}

/// Law: a move without a rival is searched a ply deeper, or two outside a variation where
/// the rivals stay more than 11 behind; one of several good ones is not, less so where it
/// is expected to fail high or its stored score does, and where all of them beat beta the
/// node is done.
pub proof fn a_move_without_a_rival_is_extended(
    score: i32,
    bar: i32,
    beta: i32,
    tt_score: i32,
    pv: bool,
    cut: bool,
    r: Option<i32>,
)
    requires
        bar >= i32::MIN + 11,
        call_ensures(singular_extension, (score, bar, beta, tt_score, pv, cut), r),
    ensures
        score < bar && (pv || bar - score <= 11) ==> r == Some(1i32),
        bar - score > 11 && !pv ==> r == Some(2i32),
        score >= bar ==> (r is None <==> bar >= beta),
        bar <= score && bar < beta && tt_score >= beta ==> r == Some(-2i32),
        bar <= score && bar < beta && tt_score < beta && cut ==> r == Some(-1i32),
        bar <= score && bar < beta && tt_score < beta && !cut ==> r == Some(0i32),
{
}

// -- history bonuses -----------------------------------------------------------------

/// Law: the credit of a move that fails high grows by 137 with every ply, from 19 at depth 1
/// up to 1900; the debit of those before it by 149, from 94, up to 1400.
pub proof fn credit_grows_with_depth(depth: i32, bonus: i32, next: i32, malus: i32, next_malus: i32)
    requires
        1 <= depth <= 1000,
        call_ensures(history_bonus, (depth,), bonus),
        call_ensures(history_bonus, ((depth + 1) as i32,), next),
        call_ensures(history_malus, (depth,), malus),
        call_ensures(history_malus, ((depth + 1) as i32,), next_malus),
    ensures
        depth == 1 ==> bonus == 19 && malus == 94,
        bonus + 137 <= 1900 ==> next == bonus + 137,
        bonus + 137 > 1900 ==> next == 1900,
        malus + 149 <= 1400 ==> next_malus == malus + 149,
        malus + 149 > 1400 ==> next_malus == 1400,
{
}

/// Law: the opponent's last move is credited with 596, less 13 for each centipawn by which both
/// sides think they stand better, from 2074 down to minus 960.
pub proof fn a_lost_ground_is_debited(prev: i32, eval: i32, r: i32)
    requires
        -80_000_000 <= prev <= 80_000_000,
        -80_000_000 <= eval <= 80_000_000,
        call_ensures(opp_swing_bonus, (prev, eval), r),
    ensures
        -113 <= prev + eval <= 119 ==> r == 596 - 13 * (prev + eval),
        prev + eval >= 120 ==> r == -960,
        prev + eval <= -114 ==> r == 2074,
{
}

// -- the table of reductions ---------------------------------------------------------

/// Law: a table of reductions is read back by depth and move number, 256 to a row; beyond
/// its edges the last row and the last column go on.
pub proof fn a_reduction_is_looked_up(rows: Vec<i32>, t: LmrTable, depth: i32, moves: i32, r: i32)
    requires
        call_ensures(LmrTable::from_rows, (rows,), Some(t)),
        call_ensures(LmrTable::lmr, (&t, depth, moves), r),
    ensures
        0 <= depth <= 63 && 0 <= moves <= 255 ==> r == rows@[256 * depth + moves],
        depth > 63 && 0 <= moves <= 255 ==> r == rows@[256 * 63 + moves],
        0 <= depth <= 63 && moves > 255 ==> r == rows@[256 * depth + 255],
{
}

} // verus!
