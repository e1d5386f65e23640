//! What a node of the main search knows of itself, and what it decides from that.

use vstd::prelude::*;
use crate::attacks::Tables;
use crate::board::{Board, BoardView};

use crate::history::{
    Conts, HistView, Histories, NULL_CONT, blended, capture_at, clamp_to, cont_cell,
    cont_corr_cell, conts_ok, gravity_of, main_cell, pawn_cell, pawn_corr_cell, trunc, trunc_div,
};
use crate::movegen::is_quiet;
use crate::movepick::{all_legal, capture_cell, is_noisy, victim_by};
use crate::nnue::value_for;
use crate::params::{
    BNFP_BASE, BNFP_DEPTH, BNFP_SLOPE, CFP_BASE, CFP_DEPTH, CFP_HIST_DIV, CFP_SLOPE, FP_BASE,
    FP_MAX_DEPTH, FP_SLOPE, HP_MAX_DEPTH, HP_SLOPE, SEE_NOISY, SEE_NOISY_DEPTH, SEE_QUIET,
    UNDERPROMO_PRUNE_DEPTH,
};

use crate::position::{empty_at, in_check_at, moved, pawn_key_of, promo_open};
use crate::quiesce::{informed, stored_eval};
use crate::score::{
    LmrTable, MATE_IN_MAX, SCORE_LIMIT, adjusted, bound_of, improves, is_mate, node_bound,
    node_score, one_if, opp_swing_bonus, score_from_tt, score_to_tt, table_score,
};
use crate::searcher::{OFF, Searcher, cutoff_recorded, puts_in_front};
use crate::see::{see, see_ge, see_value};

use crate::timing::Shared;
use crate::tt::{BOUND_NONE, Hit, VALUE_NONE, hit_ok};
use crate::types::{Color, Move, Piece, PieceType, Square};

verus! {

/// How many late quiets keep their identity for the history malus.
pub const MAX_QUIETS_TRIED: usize = 64;

/// The same, for noisy moves. The capture stage is captures and all promoting
/// moves, so one advanced pawn can contribute eighteen.
pub const MAX_CAPTURES_TRIED: usize = 48;

/// A node of the main search, before its moves.
#[derive(Clone, Copy)]
pub struct Node {
    pub excluded: Move,
    pub in_check: bool,
    pub tt_move: Move,
    pub tt_score: i32,
    pub tt_depth: i32,
    pub tt_bound: u8,
    pub tt_pv: bool,
    /// What the network says, or `VALUE_NONE`.
    pub raw: i32,
    pub static_eval: i32,
    /// The static evaluation in the light of the table.
    pub eval: i32,
    pub improving: bool,
}

impl Node {
    pub open spec fn ok(&self, b: &Board) -> bool {
        &&& self.in_check == in_check_at(b.q(), b.stm)
        &&& self.tt_move.compact()
        &&& -33000 <= self.tt_score <= 33000
        &&& -1 <= self.tt_depth <= 255
        &&& self.tt_bound <= 3
        &&& -33000 <= self.eval <= 33000
        &&& self.static_eval == VALUE_NONE || -MATE_IN_MAX < self.static_eval < MATE_IN_MAX
    }

    /// The table's part of a node.
    pub open spec fn recalls(&self, hit: Option<Hit>, root_best: Option<Move>, pv: bool, ply: int) -> bool {
        match hit {
            Some(h) => {
                &&& self.tt_move == match root_best {
                    Some(m) => if m == Move::none() {
                        h.mv
                    } else {
                        m
                    },
                    None => h.mv,
                }
                &&& self.tt_score == node_score(h.score as int, ply)
                &&& self.tt_depth == h.depth
                &&& self.tt_bound == h.bound
                &&& self.tt_pv == (pv || h.was_pv)
            },
            None => {
                &&& self.tt_move == match root_best {
                    Some(m) => m,
                    None => Move::none(),
                }
                &&& self.tt_score == VALUE_NONE
                &&& self.tt_depth == -1
                &&& self.tt_bound == BOUND_NONE
                &&& self.tt_pv == pv
            },
        }
    }
}

/// What the table says of a node. `root_best` is the best move of the search so
/// far, at the root, and comes before the table's.
pub fn recall(hit: &Option<Hit>, root_best: Option<Move>, excluded: Move, pv: bool, ply: usize) -> (r: Node)
    requires
        ply <= 246,
        hit matches Some(h) ==> hit_ok(*h),
        root_best matches Some(m) ==> m.compact(),
    ensures
        r.recalls(*hit, root_best, pv, ply as int),
        r.excluded == excluded,
        r.raw == VALUE_NONE,
        r.static_eval == VALUE_NONE,
        r.eval == VALUE_NONE,
        r.tt_move.compact(),
        -33000 <= r.tt_score <= 33000,
        -1 <= r.tt_depth <= 255,
        r.tt_bound <= 3,
{
    let mut node = Node {
        excluded,
        in_check: false,
        tt_move: Move::none(),
        tt_score: VALUE_NONE,
        tt_depth: -1,
        tt_bound: BOUND_NONE,
        tt_pv: pv,
        raw: VALUE_NONE,
        static_eval: VALUE_NONE,
        eval: VALUE_NONE,
        improving: false,
    };
    if let Some(m) = root_best {
        node.tt_move = m;
    }
    if let Some(h) = hit {
        if root_best.is_none() || node.tt_move.is_none() {
            node.tt_move = h.mv;
        }
        node.tt_score = score_from_tt(h.score, ply);
        node.tt_depth = h.depth;
        node.tt_bound = h.bound;
        node.tt_pv = pv || h.was_pv;
    }
    node
}

/// Is the node doing better than two plies ago, or four where there is nothing to
/// compare with?
#[verifier::allow_in_spec]
pub fn does_better(static_eval: i32, two_ago: i32, four_ago: i32) -> bool
    returns
        if two_ago != VALUE_NONE {
            static_eval > two_ago
        } else {
            four_ago == VALUE_NONE || static_eval > four_ago
        },
{
    if two_ago != VALUE_NONE {
        static_eval > two_ago
    } else {
        four_ago == VALUE_NONE || static_eval > four_ago
    }
}

/// What to do with a move before it is searched.
#[derive(Clone, Copy, PartialEq, Eq, Structural, Debug)]
pub enum Verdict {
    Try,
    Skip,
    /// Skip it; the node is worth at least this much.
    Raise(i32),
    /// Skip it and all that follow; the node is worth at least this much.
    Stop(i32),
}

/// No quiet move can lift a losing position to alpha any more.
#[verifier::allow_in_spec]
pub fn quiets_are_futile(in_check: bool, eval: i32, alpha: i32, lmr_depth: i32) -> bool
    requires
        eval <= i32::MAX - 998,
        0 <= lmr_depth,
    returns
        !in_check && lmr_depth <= 8 && eval != VALUE_NONE && !is_mate(eval) && eval + 150 + 106
            * lmr_depth <= alpha,
{
    !in_check && lmr_depth <= FP_MAX_DEPTH && eval != VALUE_NONE && !is_mate(eval) && eval + FP_BASE
        + FP_SLOPE * lmr_depth <= alpha
}

/// Quiet moves that are not worth a subtree: futile ones, those with a bad enough
/// history, and those that lose too much on the exchange.
pub open spec fn drops_quiet(
    q: Seq<Piece>,
    stm: Color,
    m: Move,
    futile: bool,
    depth: int,
    lmr_depth: int,
    hist_score: int,
) -> bool {
    futile || (lmr_depth <= 4 && hist_score < -3579 * depth) || see(q, stm, m) < -31 * lmr_depth
        * lmr_depth
}

pub fn drop_quiet(
    b: &Board,
    t: &Tables,
    m: Move,
    futile: bool,
    depth: i32,
    lmr_depth: i32,
    hist_score: i32,
) -> (r: bool)
    requires
        b.wf(),
        b.legal_here(m),
        0 <= depth <= 10_000,
        0 <= lmr_depth <= 8_323,
    ensures
        r == drops_quiet(
            b.q(),
            b.stm,
            m,
            futile,
            depth as int,
            lmr_depth as int,
            hist_score as int,
        ),
{
    if futile {
        return true;
    }
    if lmr_depth <= HP_MAX_DEPTH && hist_score < -HP_SLOPE * depth {
        return true;
    }
    assert(0 <= 31 * lmr_depth * lmr_depth <= 2_147_442_199) by (nonlinear_arith)
        requires
            0 <= lmr_depth <= 8_323,
    ;
    assert(-(31 * lmr_depth * lmr_depth) == -31 * lmr_depth * lmr_depth) by (nonlinear_arith);
    !see_ge(b, t, m, -(SEE_QUIET * lmr_depth * lmr_depth))
}

/// What is decided of a capture or promotion: once only losing captures are left
/// and a free move would not reach alpha, to stop; where it could not lift the
/// node to alpha even by winning its victim outright, to skip it; and to skip it
/// where it loses too much on the exchange.
pub open spec fn noisy_verdict(
    q: Seq<Piece>,
    stm: Color,
    m: Move,
    pv: bool,
    node: Node,
    gives_check: bool,
    only_bad_left: bool,
    alpha: int,
    depth: int,
    lmr_depth: int,
    victim: PieceType,
    hist_score: int,
) -> Verdict {
    let futile = !node.in_check && !gives_check && !m.is_promotion() && !is_mate(node.eval);
    let stop_at = node.eval + 63 + 91 * depth;
    let skip_at = node.eval + 139 + 151 * lmr_depth + see_value(victim) + trunc(hist_score, 5);
    if futile && depth < 9 && only_bad_left && stop_at <= alpha {
        Verdict::Stop(stop_at as i32)
    } else if !pv && futile && m != node.tt_move && lmr_depth < 7 && skip_at <= alpha {
        Verdict::Raise(skip_at as i32)
    } else if depth <= 7 && see(q, stm, m) < -89 * depth {
        Verdict::Skip
    } else {
        Verdict::Try
    }
}

pub fn judge_noisy(
    b: &Board,
    t: &Tables,
    m: Move,
    pv: bool,
    node: &Node,
    gives_check: bool,
    only_bad_left: bool,
    alpha: i32,
    depth: i32,
    lmr_depth: i32,
    victim: PieceType,
    hist_score: i32,
) -> (r: Verdict)
    requires
        b.wf(),
        b.legal_here(m),
        node.ok(b),
        -33000 <= alpha <= 33000,
        0 <= depth <= 8_323,
        0 <= lmr_depth <= 8_323,
        -70_000 <= hist_score <= 70_000,
    ensures
        r == noisy_verdict(
            b.q(),
            b.stm,
            m,
            pv,
            *node,
            gives_check,
            only_bad_left,
            alpha as int,
            depth as int,
            lmr_depth as int,
            victim,
            hist_score as int,
        ),
        r matches Verdict::Raise(v) ==> v <= alpha,
        r matches Verdict::Stop(v) ==> v <= alpha,
{
    let futile = !node.in_check && !gives_check && !m.is_promotion() && !is_mate(node.eval);
    // Everything left is a losing capture, ordered worst last, and even a free
    // move would not reach alpha.
    if futile && depth < BNFP_DEPTH && only_bad_left {
        let fv: i32 = node.eval + BNFP_BASE + BNFP_SLOPE * depth;
        if fv <= alpha {
            return Verdict::Stop(fv);
        }
    }
    // This capture cannot lift the node to alpha even if it wins its victim
    // outright.
    if !pv && futile && m != node.tt_move && lmr_depth < CFP_DEPTH {
        let value: i32 = see_value(victim);
        let fv: i32 = node.eval + CFP_BASE + CFP_SLOPE * lmr_depth + value + trunc_div(
            hist_score,
            CFP_HIST_DIV,
        );
        if fv <= alpha {
            return Verdict::Raise(fv);
        }
    }
    if depth <= SEE_NOISY_DEPTH && !see_ge(b, t, m, -SEE_NOISY * depth) {
        return Verdict::Skip;
    }
    Verdict::Try
}

/// An underpromotion to an empty square that could be to something better. Off
/// while `UNDERPROMO_PRUNE_DEPTH` is 0.
pub open spec fn underpromoted(q: Seq<Piece>, stm: Color, m: Move, gives_check: bool, depth: i32) -> bool {
    UNDERPROMO_PRUNE_DEPTH > 0 && depth <= UNDERPROMO_PRUNE_DEPTH && m.is_promotion() && empty_at(
        q,
        m.to().0 as int,
    ) && !gives_check && exists|pt: PieceType| #[trigger]
        promo_open(q, stm, pt) && see_value(pt) > see_value(m.promo_kind())
}

/// The move gives check.
pub open spec fn checks(q: Seq<Piece>, stm: Color, m: Move) -> bool {
    in_check_at(moved(q, stm, m), stm.flip())
}

/// What the move takes, or the king for a quiet one.
pub open spec fn prey_of(q: Seq<Piece>, m: Move) -> PieceType {
    if is_noisy(q, m) {
        victim_by(q, m)
    } else {
        PieceType::King
    }
}

/// Out of check the move comes last: it is a capture or promotion that loses, and not
/// the hash move.
pub open spec fn comes_last(q: Seq<Piece>, stm: Color, hash_move: Move, m: Move) -> bool {
    m != hash_move && is_noisy(q, m) && see(q, stm, m) < 0
}

/// The depth of a move after its reduction.
pub open spec fn reduced_by(t: LmrTable, depth: i32, moves: i32) -> i32 {
    let d = depth - t.entries()[clamp_to(depth as int, 0, 63) * 256 + clamp_to(
        moves as int,
        0,
        255,
    )];
    (if d < 0 {
        0
    } else {
        d
    }) as i32
}

/// What is decided of the move that comes as number `moves`, with the history
/// `hist_score`, in a window from `alpha` on: quiet moves that are futile, have a bad
/// history or lose are skipped, and so are captures and promotions that cannot matter.
#[verifier::opaque]
pub open spec fn judged(
    lmr: LmrTable,
    q: Seq<Piece>,
    stm: Color,
    node: Node,
    pv: bool,
    alpha: i32,
    depth: i32,
    moves: i32,
    hist_score: int,
    m: Move,
) -> Verdict {
    let lmr_depth = reduced_by(lmr, depth, moves);
    let futile = quiets_are_futile(node.in_check, node.eval, alpha, lmr_depth);
    let lesser_piece = underpromoted(q, stm, m, checks(q, stm, m), depth);
    if !is_noisy(q, m) {
        if drops_quiet(q, stm, m, futile, depth as int, lmr_depth as int, hist_score)
            || lesser_piece {
            Verdict::Skip
        } else {
            Verdict::Try
        }
    } else {
        let noisy = noisy_verdict(
            q,
            stm,
            m,
            pv,
            node,
            checks(q, stm, m),
            comes_last(q, stm, node.tt_move, m),
            alpha as int,
            depth as int,
            lmr_depth as int,
            prey_of(q, m),
            hist_score,
        );
        if noisy == Verdict::Try && lesser_piece {
            Verdict::Skip
        } else {
            noisy
        }
    }
}

/// After this quiet move, which comes as number `moves`, the other quiet moves are
/// skipped: enough moves have been tried, or none can lift the node to alpha.
pub open spec fn ends_quiets(
    lmr: LmrTable,
    q: Seq<Piece>,
    node: Node,
    alpha: i32,
    depth: i32,
    moves: i32,
    m: Move,
) -> bool {
    !is_noisy(q, m) && (moves >= (3 + depth * depth) / (2 - one_if(node.improving))
        || quiets_are_futile(node.in_check, node.eval, alpha, reduced_by(lmr, depth, moves)))
}

/// What the tables say of a move, and what it would take.
#[derive(Clone, Copy)]
pub struct MoveFacts {
    pub quiet: bool,
    pub gives_check: bool,
    pub hist_score: i32,
    pub victim: PieceType,
}

/// The history of a move that pruning and reductions consult: the same statistics
/// the picker sorts by, with only the two most recent continuation planes, since
/// the older pair is too noisy to prune on.
pub open spec fn history_of(h: HistView, q: Seq<Piece>, stm: Color, c: Conts, m: Move) -> int {
    let p = q[m.from().0 as int];
    if is_noisy(q, m) {
        h.capture[capture_at(p, m.to(), victim_by(q, m))] as int
    } else {
        h.main[main_cell(stm, m)] + h.pawn[pawn_cell(pawn_key_of(q), p, m.to())] + plane_score(
            h,
            c[0],
            p,
            m.to(),
        ) + plane_score(h, c[1], p, m.to())
    }
}

pub open spec fn plane_score(h: HistView, plane: usize, p: Piece, to: Square) -> int {
    if plane == NULL_CONT {
        0
    } else {
        h.cont[cont_cell(plane as int, p, to)] as int
    }
}

fn score_in_plane(h: &Histories, plane: usize, p: Piece, to: Square) -> (r: i32)
    requires
        h.ok(),
        plane <= NULL_CONT,
        p.valid(),
        to.valid(),
    ensures
        r == plane_score(h@, plane, p, to),
        -16384 <= r <= 16384,
{
    if plane == NULL_CONT {
        0
    } else {
        h.cont_score(plane, p, to)
    }
}

pub fn look_at(b: &Board, t: &Tables, h: &Histories, conts: &Conts, m: Move) -> (r: MoveFacts)
    requires
        b.wf(),
        b.check_square_info(),
        b.legal_here(m),
        h.ok(),
        conts_ok(*conts),
    ensures
        r.quiet == !is_noisy(b.q(), m),
        r.gives_check == checks(b.q(), b.stm, m),
        r.hist_score == history_of(h@, b.q(), b.stm, *conts, m),
        r.victim == prey_of(b.q(), m),
        -65536 <= r.hist_score <= 65536,
{
    let quiet = is_quiet(b, m);
    let gives_check = b.gives_check(t, m);
    if quiet {
        let piece = b.piece_at(m.from());
        let to = m.to();
        assert(conts[0] <= NULL_CONT && conts[1] <= NULL_CONT);
        let own: i32 = h.main_score(b.stm, m) + h.pawn_score(b.pawn_key, piece, to);
        let one: i32 = score_in_plane(h, conts[0], piece, to);
        let two: i32 = score_in_plane(h, conts[1], piece, to);
        MoveFacts { quiet, gives_check, hist_score: own + one + two, victim: PieceType::King }
    } else {
        let (p, to, victim) = capture_cell(b, m);
        MoveFacts { quiet, gives_check, hist_score: h.capture_score(p, to, victim), victim }
    }
}

/// The tables once the evaluation has been corrected by `diff` in this position.
pub open spec fn corrected(h: HistView, b: BoardView, prev: usize, diff: int, depth: int) -> HistView {
    let pc = pawn_corr_cell(b.stm, b.pawn_key);
    let cc = cont_corr_cell(prev as int, b.stm);
    HistView {
        pawn_corr: h.pawn_corr.update(pc, blended(h.pawn_corr[pc] as int, diff, depth) as i32),
        cont_corr: if prev == NULL_CONT {
            h.cont_corr
        } else {
            h.cont_corr.update(cc, blended(h.cont_corr[cc] as int, diff, depth) as i32)
        },
        ..h
    }
}

/// Does a finished node say something about its static evaluation?
pub open spec fn corrects(q: Seq<Piece>, node: Node, best_move: Move, best: int, beta: int) -> bool {
    &&& !node.in_check
    &&& node.static_eval != VALUE_NONE
    &&& best_move == Move::none() || !is_noisy(q, best_move)
    &&& !(best >= beta && best <= node.static_eval)
    &&& !(best_move == Move::none() && best >= node.static_eval)
}

/// What a finished node leaves in the histories.
pub open spec fn lesson(
    h: HistView,
    b: BoardView,
    c: Conts,
    node: Node,
    best_move: Move,
    best: int,
    beta: int,
    depth: int,
    quiets: Seq<Move>,
    captures: Seq<Move>,
    writes: bool,
) -> HistView {
    let credited = if best_move != Move::none() && best >= beta {
        cutoff_recorded(h, b, c, best_move, depth, quiets, captures)
    } else {
        h
    };
    if writes && corrects(b.q, node, best_move, best, beta) {
        corrected(credited, b, c[0], best - node.static_eval, depth)
    } else {
        credited
    }
}

impl Searcher {
    /// May a node write to the table and the correction history? Nothing is
    /// written under exclusion: the entry being tested is the one that would be
    /// overwritten. Nor for the later lines of the root.
    pub open spec fn writes(&self, node: Node, ply: int) -> bool {
        node.excluded == Move::none() && !(ply == 0 && self.pv_idx > 0)
    }

    /// Records what a node has found in the histories and the table.
    pub fn finish_node(
        &mut self,
        sh: &Shared,
        node: &Node,
        best_move: Move,
        best: i32,
        orig_alpha: i32,
        beta: i32,
        depth: i32,
        ply: usize,
        pv: bool,
        killers: [Move; 2],
        quiets_tried: &Vec<Move>,
        captures_tried: &Vec<Move>,
    )
        requires
            old(self).fit(*sh.net, ply as int),
            ply <= 246,
            node.ok(&old(self).board),
            best_move == Move::none() || old(self).board.legal_here(best_move),
            best_move.compact(),
            killers[0].compact(),
            killers[1].compact(),
            -SCORE_LIMIT <= best <= SCORE_LIMIT,
            0 <= depth <= 10_000,
            all_legal(&old(self).board, quiets_tried@),
            all_legal(&old(self).board, captures_tried@),
        ensures
            final(self).fit(*sh.net, ply as int),
            final(self).board == old(self).board,
            final(self).eval == old(self).eval,
            final(self).undos == old(self).undos,
            final(self).same_pv(old(self)),
            final(self).nodes == old(self).nodes,
            final(self).best_move == old(self).best_move,
            final(self).best_score == old(self).best_score,
            final(self).stopped == old(self).stopped,
            final(self).root_nodes == old(self).root_nodes,
            final(self).same_root(old(self)),
            forall|i: int|
                0 <= i < 262 && i != ply + 8 ==> #[trigger] final(self).ss@[i] == old(self).ss@[i],
            final(self).ss@[ply + 8].excluded == old(self).ss@[ply + 8].excluded,
            final(self).ss@[ply + 8].static_eval == old(self).ss@[ply + 8].static_eval,
            if best_move != Move::none() && best >= beta && !is_noisy(
                old(self).board.q(),
                best_move,
            ) {
                puts_in_front(final(self).ss@[ply + 8].killers, killers, best_move)
            } else {
                final(self).ss@[ply + 8].killers == old(self).ss@[ply + 8].killers
            },
            final(self).hist@ == lesson(
                old(self).hist@,
                old(self).board@,
                old(self).planes(ply as int),
                *node,
                best_move,
                best as int,
                beta as int,
                depth as int,
                quiets_tried@,
                captures_tried@,
                old(self).writes(*node, ply as int),
            ),
            old(self).writes(*node, ply as int) ==> sh.tt.records(
                old(self).board.key,
                best_move,
                table_score(best as int, ply as int) as i32,
                node.raw,
                depth,
                bound_of(best, beta, orig_alpha, pv && best_move != Move::none()),
                node.tt_pv,
            ),
    {
        let ghost o = *self;
        if !best_move.is_none() && best >= beta {
            self.update_histories(best_move, depth, ply, killers, quiets_tried, captures_tried);
        }
        if node.excluded.is_none() && !(ply == 0 && self.pv_idx > 0) {
            let bound = node_bound(best, beta, orig_alpha, pv, !best_move.is_none());
            sh.tt.store(
                self.board.key,
                best_move,
                score_to_tt(best, ply),
                node.raw,
                depth,
                bound,
                node.tt_pv,
            );
            // Learn the difference between what the evaluation said and what the
            // search found, keyed on the pawn structure and the move that led here.
            if !node.in_check && node.static_eval != VALUE_NONE && (best_move.is_none() || is_quiet(
                &self.board,
                best_move,
            )) && !(best >= beta && best <= node.static_eval) && !(best_move.is_none() && best
                >= node.static_eval) {
                let prev = self.ss[ply + OFF - 1].cont_idx;
                assert(self.ss@[ply + 7] == o.ss@[ply + 7] && self.ss@[ply + 7].ok());
                assert(prev == o.planes(ply as int)[0]);
                let ghost h1 = self.hist@;
                self.hist.update_correction(&self.board, prev, best - node.static_eval, depth);
                assert(self.hist@ =~= corrected(
                    h1,
                    o.board@,
                    prev,
                    best - node.static_eval,
                    depth as int,
                ));
            }
        }
    }

    /// Credits or debits the opponent's last quiet move by the swing of the
    /// evaluation.
    pub fn credit_reply(&mut self, node: &Node, ply: usize)
        requires
            old(self).tables_ok(),
            ply <= 246,
            node.ok(&old(self).board),
        ensures
            final(self).tables_ok(),
            final(self).same_but_hist(old(self)),
            final(self).hist@ == if old(self).judges_reply(*node, ply as int) {
                let prev = old(self).ss@[ply + 7];
                let cell = main_cell(old(self).board.stm.flip(), prev.current_move);
                HistView {
                    main: old(self).hist@.main.update(
                        cell,
                        gravity_of(
                            old(self).hist@.main[cell] as int,
                            clamp_to(-13 * (prev.static_eval + node.static_eval), -1556, 1478) + 596,
                        ) as i16,
                    ),
                    ..old(self).hist@
                }
            } else {
                old(self).hist@
            },
    {
        let ghost o = *self;
        if !node.in_check && node.excluded.is_none() && ply >= 1 {
            let prev = self.ss[ply + OFF - 1];
            assert(self.ss@[ply + 7].ok());
            let pm = prev.current_move;
            if !pm.is_none() && pm != Move::null() && !pm.is_promotion() && prev.static_eval
                != VALUE_NONE && self.undos[ply + OFF - 1].captured.is_none() {
                let bonus = opp_swing_bonus(prev.static_eval, node.static_eval);
                let them = self.board.stm.flip();
                self.hist.update_main(them, pm, bonus);
                assert(o.judges_reply(*node, ply as int));
            }
        }
    }

    /// Is the move before `ply` a quiet one with an evaluation on both sides?
    pub open spec fn judges_reply(&self, node: Node, ply: int) -> bool {
        let prev = self.ss@[ply + 7];
        &&& !node.in_check
        &&& node.excluded == Move::none()
        &&& ply >= 1
        &&& prev.current_move != Move::none()
        &&& prev.current_move != Move::null()
        &&& !prev.current_move.is_promotion()
        &&& prev.static_eval != VALUE_NONE
        &&& self.undos@[ply + 7].captured == Piece::none()
    }

    /// Evaluates the node, and leaves what its descendants will look back at on
    /// the stack.
    pub(crate) fn evaluate_node(&mut self, sh: &Shared, hit: &Option<Hit>, node: &mut Node, ply: usize)
        requires
            old(self).fit(*sh.net, ply as int),
            ply < 246,
            hit matches Some(h) ==> hit_ok(*h),
            old(node).tt_move.compact(),
            -33000 <= old(node).tt_score <= 33000,
            -1 <= old(node).tt_depth <= 255,
            old(node).tt_bound <= 3,
            old(node).raw == VALUE_NONE,
            old(node).static_eval == VALUE_NONE,
            old(node).eval == VALUE_NONE,
        ensures
            final(self).fit(*sh.net, ply as int),
            final(node).ok(&final(self).board),
            final(self).board == old(self).board,
            final(self).eval.path() == old(self).eval.path(),
            final(self).hist == old(self).hist,
            final(self).undos == old(self).undos,
            final(self).same_pv(old(self)),
            final(self).nodes == old(self).nodes,
            final(self).best_move == old(self).best_move,
            final(self).best_score == old(self).best_score,
            final(self).stopped == old(self).stopped,
            final(self).same_root(old(self)),
            forall|i: int|
                0 <= i < 262 && i != ply + 8 && i != ply + 9 ==> #[trigger] final(self).ss@[i]
                    == old(self).ss@[i],
            final(self).ss@[ply + 8].excluded == old(self).ss@[ply + 8].excluded,
            final(self).ss@[ply + 8].killers == old(self).ss@[ply + 8].killers,
            final(self).ss@[ply + 8].in_check == final(node).in_check,
            final(self).ss@[ply + 9].killers[0] == Move::none(),
            final(self).ss@[ply + 9].killers[1] == Move::none(),
            final(self).ss@[ply + 9].cutoff_cnt == 0,
            final(node).excluded == old(node).excluded,
            final(node).tt_move == old(node).tt_move,
            final(node).tt_score == old(node).tt_score,
            final(node).tt_depth == old(node).tt_depth,
            final(node).tt_bound == old(node).tt_bound,
            final(node).tt_pv == old(node).tt_pv,
            // In check there is no evaluation.
            final(node).in_check ==> final(node).eval == VALUE_NONE && final(node).static_eval
                == VALUE_NONE && final(self).ss@[ply + 8].static_eval == VALUE_NONE,
            // A singular search takes the evaluation that the stack holds.
            !final(node).in_check && final(node).excluded != Move::none() ==> final(node).raw
                == VALUE_NONE && final(node).static_eval == old(self).ss@[ply + 8].static_eval
                && final(node).eval == final(node).static_eval && final(self).ss@[ply
                + 8].static_eval == final(node).static_eval,
            // Every other node has its own.
            !final(node).in_check && final(node).excluded == Move::none() ==> {
                &&& final(node).raw == match stored_eval(*hit) {
                    Some(e) => e as int,
                    None => value_for(*sh.net, old(self).board.q(), old(self).board.stm),
                }
                &&& final(node).static_eval == adjusted(
                    final(node).raw,
                    old(self).board.halfmove,
                    old(self).hist.correction_of(
                        old(self).board.stm,
                        old(self).board.pawn_key,
                        old(self).ss@[ply + 7].cont_idx,
                    ),
                )
                &&& final(node).eval == if final(node).tt_score != VALUE_NONE {
                    informed(
                        final(node).static_eval,
                        final(node).tt_bound,
                        final(node).tt_score,
                    )
                } else {
                    final(node).static_eval
                }
                &&& final(self).ss@[ply + 8].static_eval == final(node).static_eval
            },
            // A first look at a position leaves its evaluation in the table.
            !final(node).in_check && final(node).excluded == Move::none() && hit is None
                ==> sh.tt.records(
                old(self).board.key,
                Move::none(),
                VALUE_NONE,
                final(node).raw,
                (-1) as i32,
                BOUND_NONE,
                final(node).tt_pv,
            ),
            final(node).improving == (!final(node).in_check && does_better(
                final(node).static_eval,
                old(self).ss@[ply + 6].static_eval,
                old(self).ss@[ply + 4].static_eval,
            )),
    {
        let ghost o = *self;
        let in_check = self.board.in_check();
        let mut here = self.ss[ply + OFF];
        assert(self.ss@[ply + 8].ok());
        here.in_check = in_check;
        let mut next = self.ss[ply + OFF + 1];
        assert(self.ss@[ply + 9].ok());
        next.killers = [Move::none(), Move::none()];
        next.cutoff_cnt = 0;
        self.ss[ply + OFF + 1] = next;
        node.in_check = in_check;
        if in_check {
            here.static_eval = VALUE_NONE;
        } else if !node.excluded.is_none() {
            // The singular search is the same position and the same path: the
            // stack's adjusted value is already right, and adjusting it again
            // would apply the correction twice.
            node.static_eval = here.static_eval;
            node.eval = here.static_eval;
        } else {
            node.raw = self.raw_eval(sh, hit, Ghost(ply as int));
            node.static_eval = self.adjust_eval(node.raw, ply);
            node.eval = node.static_eval;
            if node.tt_score != VALUE_NONE && improves(
                node.tt_bound,
                node.tt_score,
                node.static_eval,
            ) {
                node.eval = node.tt_score;
            }
            here.static_eval = node.static_eval;
            if hit.is_none() {
                sh.tt.store(
                    self.board.key,
                    Move::none(),
                    VALUE_NONE,
                    node.raw,
                    -1,
                    BOUND_NONE,
                    node.tt_pv,
                );
            }
        }
        self.ss[ply + OFF] = here;
        node.improving = !in_check && does_better(
            node.static_eval,
            self.ss[ply + OFF - 2].static_eval,
            self.ss[ply + OFF - 4].static_eval,
        );
    }

    /// Underpromotions to an empty square that could be to something better.
    pub(crate) fn underpromotes(&self, m: Move, gives_check: bool, depth: i32) -> (r: bool)
        requires
            self.board.wf(),
            self.board.legal_here(m),
        ensures
            r == underpromoted(self.board.q(), self.board.stm, m, gives_check, depth),
    {
        if UNDERPROMO_PRUNE_DEPTH > 0 && depth <= UNDERPROMO_PRUNE_DEPTH && m.is_promotion()
            && self.board.piece_at(m.to()).is_none() && !gives_check {
            match self.best_promo() {
                Some(pt) => pt != m.promo(),
                None => false,
            }
        } else {
            false
        }
    }
}

} // verus!
