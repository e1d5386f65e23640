//! What the score of a search stands for.
//!
//! A search does not compute a function of the position: what it finds depends on
//! what other searches left in the table, on the histories and on the clock. But
//! every score it returns has a reason, and these relations say which: a draw, a
//! mate, what the table had stored, the evaluation, a named pruning rule, or the
//! greatest of the negated scores of the replies.

use vstd::prelude::*;
use crate::board::Board;
use crate::history::{Conts, HistView, NULL_CONT, clamp_to, trunc};
use crate::movegen::{GEN_ALL, GEN_CAPTURES, Gen, gen_of};
use crate::movepick::{MAX_BAD, MovePicker, is_noisy, losing, mvv_of};
use crate::nnue::value_for;
use crate::node::{
    MAX_CAPTURES_TRIED, MAX_QUIETS_TRIED, Node, Verdict, checks, comes_last, does_better,
    ends_quiets, history_of, judged,
};
use crate::params::{IIR_DEPTH, QS_FUTILITY, QS_PROMO_DELTA, QS_SEE, SE_BETA_SLOPE, SE_MIN_DEPTH};
use crate::play::{count_up, irreversible, too_little};
use crate::position::{col_at, ep_after, in_check_at, legal, moved, position_key};
use crate::quiesce::{informed, is_decided, stored_eval};
use crate::score::{
    DRAW, INFINITE, LmrTable, MATE_IN_MAX, SCORE_LIMIT, adjusted, depth_reduced, extension_after,
    greater, improves, is_mate, lesser, mate_in, mated_in, node_score, one_if, razors,
    reduction_of,
};
use crate::search::{bounds_below, has_room, is_deep};
use crate::searcher::{Pos, is_drawn, listed_at};
use crate::see::{see, without};
use crate::timing::Shared;
use crate::tt::{BOUND_NONE, Hit, VALUE_NONE};
use crate::types::{Color, Move, Piece, PieceType, Square};

verus! {

// -- games --------------------------------------------------------------------------

/// A position together with what its draws depend on.
pub struct Game {
    pub q: Seq<Piece>,
    pub stm: Color,
    pub ep: Square,
    pub halfmove: u16,
    pub plies_from_null: u16,
    pub hist: Seq<u64>,
}

impl Game {
    pub open spec fn key(&self) -> u64 {
        position_key(self.q, self.ep, self.stm)
    }

    pub open spec fn pos(&self) -> Pos {
        Pos { q: self.q, stm: self.stm, ep: self.ep }
    }

    pub open spec fn in_check(&self) -> bool {
        in_check_at(self.q, self.stm)
    }

    /// The side to move is mated.
    pub open spec fn mated(&self) -> bool {
        self.in_check() && listed_at(self.pos()).len() == 0 && forall|m: Move| !#[trigger]
            self.allows(m)
    }

    pub open spec fn allows(&self, m: Move) -> bool {
        legal(self.q, self.stm, self.ep, m)
    }

    /// The current position has occurred `i` plies back.
    pub open spec fn repeats(&self, i: int) -> bool {
        &&& 4 <= i <= self.halfmove
        &&& i <= self.plies_from_null
        &&& i < self.hist.len()
        &&& i % 2 == 0
        &&& self.hist[self.hist.len() - 1 - i] == self.key()
    }

    /// A draw at `ply` of a search.
    pub open spec fn drawn(&self, ply: int) -> bool {
        if self.halfmove >= 100 {
            !(self.in_check() && listed_at(self.pos()).len() == 0)
        } else {
            too_little(self.q) || (exists|i: int| #[trigger] self.repeats(i) && i <= ply) || (
            exists|i: int, j: int| #[trigger]
                self.repeats(i) && #[trigger] self.repeats(j) && i < j)
        }
    }

    pub open spec fn after(&self, m: Move) -> Game {
        let q = moved(self.q, self.stm, m);
        let ep = ep_after(self.q, self.stm, m);
        let stm = self.stm.flip();
        Game {
            q,
            stm,
            ep,
            halfmove: if irreversible(self.q, self.stm, m) {
                0
            } else {
                count_up(self.halfmove)
            },
            plies_from_null: count_up(self.plies_from_null),
            hist: self.hist.push(position_key(q, ep, stm)),
        }
    }

    /// The game with the turn passed.
    pub open spec fn passed(&self) -> Game {
        let stm = self.stm.flip();
        Game {
            q: self.q,
            stm,
            ep: Square::none(),
            halfmove: count_up(self.halfmove),
            plies_from_null: 0,
            hist: self.hist.push(position_key(self.q, Square::none(), stm)),
        }
    }

    /// The picker can put off every losing capture.
    pub open spec fn has_room(&self) -> bool {
        losing(Gen { q: self.q, us: self.stm, ep: self.ep, mode: GEN_CAPTURES }, 0).len()
            <= MAX_BAD
    }
}

pub open spec fn game_of(b: &Board) -> Game {
    Game {
        q: b.q(),
        stm: b.stm,
        ep: b.ep,
        halfmove: b.halfmove,
        plies_from_null: b.plies_from_null,
        hist: b.hist@,
    }
}

pub proof fn lemma_drawn_game(b: &Board, ply: int)
    requires
        b.keyed(),
    ensures
        is_drawn(b, ply) == game_of(b).drawn(ply),
{
    let g = game_of(b);
    assert forall|i: int| #![trigger b.repeats(i)] #![trigger g.repeats(i)]
        b.repeats(i) == g.repeats(i) by {}
    assert(gen_of(b, GEN_ALL) == (Gen { q: g.q, us: g.stm, ep: g.ep, mode: GEN_ALL }));
}

// -- evaluations ---------------------------------------------------------------------

/// The raw evaluation: the stored one, or the network's.
pub open spec fn raw_of(sh: &Shared, g: Game, hit: Option<Hit>) -> i32 {
    match stored_eval(hit) {
        Some(e) => e,
        None => value_for(*sh.net, g.q, g.stm) as i32,
    }
}

/// `e` is the static evaluation: the raw one, damped, with a correction.
pub open spec fn is_static(sh: &Shared, g: Game, hit: Option<Hit>, e: i32) -> bool {
    exists|c: int| -32 <= c <= 32 && e == #[trigger] adjusted(raw_of(sh, g, hit), g.halfmove, c)
}

pub proof fn lemma_static(sh: &Shared, g: Game, hit: Option<Hit>, c: int, e: i32)
    requires
        -32 <= c <= 32,
        e == adjusted(raw_of(sh, g, hit), g.halfmove, c),
    ensures
        is_static(sh, g, hit, e),
{
}

/// `e` is what quiescence takes the position for: the static evaluation in the
/// light of a stored score.
pub open spec fn is_stand(sh: &Shared, g: Game, hit: Option<Hit>, ply: usize, e: i32) -> bool {
    exists|s: i32| #[trigger]
        is_static(sh, g, hit, s) && e == match hit {
            Some(h) => informed(s, h.bound, node_score(h.score as int, ply as int) as i32),
            None => s,
        }
}

// -- moves tried ---------------------------------------------------------------------

/// What became of a move.
pub enum Outcome {
    /// It was searched, with this score.
    Scored(i32),
    /// It was left out, the node being worth this much at least.
    Worth(i32),
    /// It was left out.
    Dropped,
}

/// A move that was tried.
pub struct Trial {
    pub m: Move,
    pub outcome: Outcome,
    /// The history tables that were consulted.
    pub hist: HistView,
    /// Did the replies before it often fail high?
    pub busy: bool,
    /// In a variation, the line that its reply was found to lead to.
    pub line: Seq<Move>,
}

/// The best score after these trials.
pub open spec fn best_of(ts: Seq<Trial>, start: i32) -> i32
    decreases ts.len(),
{
    if ts.len() == 0 {
        start
    } else {
        let b = best_of(ts.drop_last(), start);
        match ts.last().outcome {
            Outcome::Scored(v) => greater(b, v),
            Outcome::Worth(v) => greater(b, v),
            Outcome::Dropped => b,
        }
    }
}

/// The lower end of the window after these trials: a score that is the best so far
/// raises it.
pub open spec fn floor_of(ts: Seq<Trial>, best: i32, floor: i32) -> i32
    decreases ts.len(),
{
    if ts.len() == 0 {
        floor
    } else {
        let f = floor_of(ts.drop_last(), best, floor);
        match ts.last().outcome {
            Outcome::Scored(v) => if v > best_of(ts.drop_last(), best) {
                greater(f, v)
            } else {
                f
            },
            _ => f,
        }
    }
}

/// The line that these trials leave: the last move that raised the window, and what its
/// reply leads to.
pub open spec fn line_of(ts: Seq<Trial>, best: i32, floor: i32) -> Seq<Move>
    decreases ts.len(),
{
    if ts.len() == 0 {
        Seq::empty()
    } else {
        let before = ts.drop_last();
        match ts.last().outcome {
            Outcome::Scored(v) => if v > best_of(before, best) && v > floor_of(before, best, floor) {
                seq![ts.last().m] + ts.last().line
            } else {
                line_of(before, best, floor)
            },
            _ => line_of(before, best, floor),
        }
    }
}

/// The move that these trials leave in front: the last one whose score was the best
/// so far, if there is one.
pub open spec fn lead_of(ts: Seq<Trial>, best: i32) -> Move
    decreases ts.len(),
{
    if ts.len() == 0 {
        Move::none()
    } else {
        let m = lead_of(ts.drop_last(), best);
        match ts.last().outcome {
            Outcome::Scored(v) => if v > best_of(ts.drop_last(), best) {
                ts.last().m
            } else {
                m
            },
            _ => m,
        }
    }
}

/// The first `most` quiet moves of these trials that were searched and did not cut, or
/// the first such captures and promotions.
pub open spec fn failed_of(q: Seq<Piece>, ts: Seq<Trial>, beta: i32, quiet: bool, most: int) -> Seq<
    Move,
>
    decreases ts.len(),
{
    if ts.len() == 0 {
        Seq::empty()
    } else {
        let before = failed_of(q, ts.drop_last(), beta, quiet, most);
        match ts.last().outcome {
            Outcome::Scored(v) => if (v < beta || v <= best_of(ts.drop_last(), (-INFINITE) as i32))
                && quiet == !is_noisy(q, ts.last().m) && before.len() < most {
                before.push(ts.last().m)
            } else {
                before
            },
            _ => before,
        }
    }
}

/// After these trials `lead` is in front, and these quiet moves and these captures and
/// promotions did not cut.
#[verifier::opaque]
pub open spec fn is_tally(
    q: Seq<Piece>,
    ts: Seq<Trial>,
    beta: i32,
    lead: Move,
    quiets: Seq<Move>,
    captures: Seq<Move>,
) -> bool {
    &&& lead == lead_of(ts, (-INFINITE) as i32)
    &&& quiets == failed_of(q, ts, beta, true, MAX_QUIETS_TRIED as int)
    &&& captures == failed_of(q, ts, beta, false, MAX_CAPTURES_TRIED as int)
}

/// Before the first trial there is nothing.
pub proof fn lemma_tally_start(q: Seq<Piece>, beta: i32)
    ensures
        is_tally(q, Seq::empty(), beta, Move::none(), Seq::empty(), Seq::empty()),
{
    reveal(is_tally);
}

/// A move that is not searched changes nothing.
pub proof fn lemma_tally_other(
    q: Seq<Piece>,
    ts: Seq<Trial>,
    beta: i32,
    lead: Move,
    quiets: Seq<Move>,
    captures: Seq<Move>,
    tr: Trial,
)
    requires
        is_tally(q, ts, beta, lead, quiets, captures),
        !(tr.outcome is Scored),
    ensures
        is_tally(q, ts.push(tr), beta, lead, quiets, captures),
{
    reveal(is_tally);
    assert(ts.push(tr).drop_last() =~= ts);
    assert(ts.push(tr).last() == tr);
}

/// One that is searched leads if it is the best so far, and is listed if it does not
/// cut.
pub proof fn lemma_tally_scored(
    q: Seq<Piece>,
    ts: Seq<Trial>,
    beta: i32,
    lead: Move,
    quiets: Seq<Move>,
    captures: Seq<Move>,
    tr: Trial,
    v: i32,
)
    requires
        is_tally(q, ts, beta, lead, quiets, captures),
        tr.outcome == Outcome::Scored(v),
    ensures
        ({
            let best = best_of(ts, (-INFINITE) as i32);
            let failed = v < beta || v <= best;
            is_tally(
                q,
                ts.push(tr),
                beta,
                if v > best {
                    tr.m
                } else {
                    lead
                },
                if failed && !is_noisy(q, tr.m) && quiets.len() < MAX_QUIETS_TRIED {
                    quiets.push(tr.m)
                } else {
                    quiets
                },
                if failed && is_noisy(q, tr.m) && captures.len() < MAX_CAPTURES_TRIED {
                    captures.push(tr.m)
                } else {
                    captures
                },
            )
        }),
{
    reveal(is_tally);
    assert(ts.push(tr).drop_last() =~= ts);
    assert(ts.push(tr).last() == tr);
}

/// `m` is among these trials.
pub open spec fn is_tried(ts: Seq<Trial>, m: Move) -> bool {
    exists|i: int| 0 <= i < ts.len() && (#[trigger] ts[i]).m == m
}

/// One more trial leaves the ones before it as they are.
pub proof fn lemma_one_more(ts: Seq<Trial>, t: Trial)
    ensures
        forall|i: int| 0 <= i <= ts.len() ==> #[trigger] ts.push(t).take(i) == ts.take(i),
        ts.push(t).drop_last() == ts,
        ts.take(ts.len() as int) == ts,
        forall|m: Move| #[trigger] is_tried(ts.push(t), m) <==> is_tried(ts, m) || m == t.m,
{
    assert forall|i: int| 0 <= i <= ts.len() implies #[trigger] ts.push(t).take(i) == ts.take(
        i,
    ) by {
        assert(ts.push(t).take(i) =~= ts.take(i));
    }
    assert(ts.push(t).drop_last() =~= ts);
    assert(ts.take(ts.len() as int) =~= ts);
    assert forall|m: Move| #[trigger] is_tried(ts.push(t), m) <==> is_tried(ts, m) || m == t.m by {
        if is_tried(ts, m) {
            let i = choose|i: int| 0 <= i < ts.len() && (#[trigger] ts[i]).m == m;
            assert(ts.push(t)[i].m == m);
        }
        if m == t.m {
            assert(ts.push(t)[ts.len() as int].m == m);
        }
        if is_tried(ts.push(t), m) {
            let i = choose|i: int| 0 <= i < ts.push(t).len() && (#[trigger] ts.push(t)[i]).m == m;
            if i < ts.len() {
                assert(ts[i].m == m);
            }
        }
    }
}

/// No trial scored more than the best score.
pub proof fn lemma_best(ts: Seq<Trial>, start: i32, i: int)
    requires
        0 <= i < ts.len(),
    ensures
        ts[i].outcome matches Outcome::Scored(v) ==> v <= best_of(ts, start),
    decreases ts.len(),
{
    if i < ts.len() - 1 {
        lemma_best(ts.drop_last(), start, i);
    }
}

/// A score can only rise, and so can the window.
pub proof fn lemma_floor(ts: Seq<Trial>, best: i32, floor: i32)
    ensures
        floor_of(ts, best, floor) >= floor,
        best_of(ts, best) >= best,
        floor_of(ts, best, floor) <= floor || floor_of(ts, best, floor) <= best_of(ts, best),
    decreases ts.len(),
{
    if ts.len() > 0 {
        lemma_floor(ts.drop_last(), best, floor);
    }
}

// -- quiescence ----------------------------------------------------------------------

/// A move that quiescence looks at: every evasion of a check, and otherwise the
/// captures and promotions that lose nothing.
pub open spec fn is_wanted_quiet(g: Game, m: Move) -> bool {
    g.allows(m) && m.compact() && (g.in_check() || (is_noisy(g.q, m) && see(g.q, g.stm, m) >= 0))
}

/// What the evasions come to: without one it is mate.
pub open spec fn evasions_worth(ply: usize, ts: Seq<Trial>) -> i32 {
    if ts.len() == 0 {
        mated_in(ply)
    } else {
        best_of(ts, (-INFINITE) as i32)
    }
}

/// `r` is what quiescence finds the game worth at `ply` in this window.
#[verifier::opaque]
pub open spec fn quiet_worth(
    sh: &Shared,
    g: Game,
    alpha: i32,
    beta: i32,
    ply: usize,
    pv: bool,
    r: i32,
    line: Seq<Move>,
) -> bool
    decreases 247 - ply, 3int,
{
    if ply >= 246 {
        is_static(sh, g, None, r) && (pv ==> line.len() == 0)
    } else if g.drawn(ply as int) {
        r == DRAW && (pv ==> line.len() == 0)
    } else {
        exists|hit: Option<Hit>| #[trigger]
            sh.tt.may_find(g.key(), hit) && quiet_found(sh, g, hit, alpha, beta, ply, pv, r, line)
    }
}

/// The same where the table says `hit`: a stored score that decides, the
/// evaluation where that is enough, or the best of the moves tried.
#[verifier::opaque]
pub open spec fn quiet_found(
    sh: &Shared,
    g: Game,
    hit: Option<Hit>,
    alpha: i32,
    beta: i32,
    ply: usize,
    pv: bool,
    r: i32,
    line: Seq<Move>,
) -> bool
    decreases 247 - ply, 2int,
{
    if !pv && is_decided(hit, alpha, beta, ply as int) {
        hit matches Some(h) && r == node_score(h.score as int, ply as int)
    } else if g.in_check() {
        exists|ts: Seq<Trial>|
            quiet_tried(sh, g, (-INFINITE) as i32, alpha, beta, ply, pv, ts) && r
                == #[trigger] evasions_worth(ply, ts) && (pv ==> line == line_of(
                ts,
                (-INFINITE) as i32,
                alpha,
            ))
    } else {
        exists|stand: i32| #[trigger]
            is_stand(sh, g, hit, ply, stand) && if stand >= beta {
                r == stand && (pv ==> line.len() == 0)
            } else {
                exists|ts: Seq<Trial>|
                    quiet_tried(sh, g, stand, greater(alpha, stand), beta, ply, pv, ts) && r
                        == #[trigger] best_of(ts, stand) && (pv ==> line == line_of(
                        ts,
                        stand,
                        greater(alpha, stand),
                    ))
            }
    }
}

/// Quiescence leaves `m` out because even winning the victim outright would not matter.
pub open spec fn is_beneath(g: Game, best: i32, now: i32, floor: i32, m: Move) -> bool {
    !g.in_check() && now > -MATE_IN_MAX && !(m.is_promotion() && QS_PROMO_DELTA == 0) && best
        + QS_FUTILITY + mvv_of(g.q, m) <= floor
}

/// Quiescence leaves `m` out because it loses.
pub open spec fn is_bad_trade(g: Game, best: i32, now: i32, floor: i32, m: Move) -> bool {
    !g.in_check() && now > -MATE_IN_MAX && !is_beneath(g, best, now, floor, m) && see(g.q, g.stm, m)
        < -QS_SEE
}

/// From `best` on these moves were tried: none where the evaluation is enough.
pub open spec fn is_quiet_search(
    sh: &Shared,
    g: Game,
    hit: Option<Hit>,
    alpha: i32,
    beta: i32,
    ply: usize,
    pv: bool,
    best: i32,
    ts: Seq<Trial>,
) -> bool {
    if g.in_check() {
        best == -INFINITE && quiet_tried(sh, g, best, alpha, beta, ply, pv, ts)
    } else {
        is_stand(sh, g, hit, ply, best) && if best >= beta {
            ts.len() == 0
        } else {
            quiet_tried(sh, g, best, greater(alpha, best), beta, ply, pv, ts)
        }
    }
}

/// One move, tried with `now` as the best score and in a window from `floor` on: its
/// reply searched, or left out
/// because even winning the victim outright would not matter, or because it loses.
#[verifier::opaque]
pub open spec fn quiet_trial(
    sh: &Shared,
    g: Game,
    best: i32,
    now: i32,
    floor: i32,
    beta: i32,
    ply: usize,
    pv: bool,
    t: Trial,
) -> bool
    decreases 247 - ply, 0int,
{
    &&& ply < 246
    &&& floor < beta
    &&& g.allows(t.m)
    &&& match t.outcome {
        Outcome::Scored(v) => -SCORE_LIMIT <= v <= SCORE_LIMIT && !is_beneath(
            g,
            best,
            now,
            floor,
            t.m,
        ) && !is_bad_trade(g, best, now, floor, t.m) && quiet_worth(
            sh,
            g.after(t.m),
            (-beta) as i32,
            (-floor) as i32,
            (ply + 1) as usize,
            pv,
            (-v) as i32,
            t.line,
        ),
        Outcome::Worth(v) => is_beneath(g, best, now, floor, t.m) && v == best + QS_FUTILITY
            + mvv_of(g.q, t.m),
        Outcome::Dropped => is_bad_trade(g, best, now, floor, t.m),
    }
}

/// These moves were tried, one after the other, from `best` and `floor` on: until
/// one reached beta, or until none was left.
#[verifier::opaque]
pub open spec fn quiet_tried(
    sh: &Shared,
    g: Game,
    best: i32,
    floor: i32,
    beta: i32,
    ply: usize,
    pv: bool,
    ts: Seq<Trial>,
) -> bool
    decreases 247 - ply, 1int,
{
    &&& ply < 246
    &&& forall|i: int|
        0 <= i < ts.len() ==> quiet_trial(
            sh,
            g,
            best,
            best_of(ts.take(i), best),
            floor_of(ts.take(i), best, floor),
            beta,
            ply,
            pv,
            #[trigger] ts[i],
        )
    &&& floor_of(ts, best, floor) < beta ==> forall|m: Move| #[trigger]
        is_wanted_quiet(g, m) ==> is_tried(ts, m)
}

/// A score that the last ply, a draw or the table gives.
pub proof fn lemma_quiet_worth(
    sh: &Shared,
    g: Game,
    hit: Option<Hit>,
    alpha: i32,
    beta: i32,
    ply: usize,
    pv: bool,
    r: i32,
    line: Seq<Move>,
)
    requires
        if ply >= 246 {
            is_static(sh, g, None, r) && (pv ==> line.len() == 0)
        } else if g.drawn(ply as int) {
            r == DRAW && (pv ==> line.len() == 0)
        } else {
            sh.tt.may_find(g.key(), hit) && quiet_found(sh, g, hit, alpha, beta, ply, pv, r, line)
        },
    ensures
        quiet_worth(sh, g, alpha, beta, ply, pv, r, line),
{
    reveal(quiet_worth);
    reveal(quiet_found);
}

/// A stored score that decides, or an evaluation that is enough.
pub proof fn lemma_quiet_early(
    sh: &Shared,
    g: Game,
    hit: Option<Hit>,
    alpha: i32,
    beta: i32,
    ply: usize,
    pv: bool,
    r: i32,
    line: Seq<Move>,
)
    requires
        if !pv && is_decided(hit, alpha, beta, ply as int) {
            hit matches Some(h) && r == node_score(h.score as int, ply as int)
        } else {
            !g.in_check() && is_stand(sh, g, hit, ply, r) && r >= beta && (pv ==> line.len() == 0)
        },
    ensures
        quiet_found(sh, g, hit, alpha, beta, ply, pv, r, line),
{
    reveal(quiet_found);
}

/// The moves tried until one was enough or none was left.
proof fn lemma_quiet_tried(
    sh: &Shared,
    g: Game,
    best: i32,
    floor: i32,
    beta: i32,
    ply: usize,
    pv: bool,
    ts: Seq<Trial>,
)
    requires
        ply < 246,
        trials_ok(sh, g, best, floor, beta, ply, pv, ts),
        floor_of(ts, best, floor) < beta ==> forall|m: Move| #[trigger]
            is_wanted_quiet(g, m) ==> is_tried(ts, m),
    ensures
        quiet_tried(sh, g, best, floor, beta, ply, pv, ts),
{
    reveal(quiet_tried);
    reveal(quiet_trial);
}

/// The best of the moves tried.
pub proof fn lemma_quiet_best(
    sh: &Shared,
    g: Game,
    hit: Option<Hit>,
    alpha: i32,
    beta: i32,
    ply: usize,
    pv: bool,
    best: i32,
    floor: i32,
    ts: Seq<Trial>,
    r: i32,
    line: Seq<Move>,
)
    requires
        pv || !is_decided(hit, alpha, beta, ply as int),
        if g.in_check() {
            best == -INFINITE && floor == alpha
        } else {
            is_stand(sh, g, hit, ply, best) && best < beta && floor == greater(alpha, best)
        },
        ply < 246,
        trials_ok(sh, g, best, floor, beta, ply, pv, ts),
        floor_of(ts, best, floor) < beta ==> forall|m: Move| #[trigger]
            is_wanted_quiet(g, m) ==> is_tried(ts, m),
        r == if g.in_check() && ts.len() == 0 {
            mated_in(ply)
        } else {
            best_of(ts, best)
        },
        pv ==> line == line_of(ts, best, floor),
    ensures
        is_quiet_search(sh, g, hit, alpha, beta, ply, pv, best, ts),
        quiet_found(sh, g, hit, alpha, beta, ply, pv, r, line),
{
    lemma_quiet_tried(sh, g, best, floor, beta, ply, pv, ts);
    lemma_floor(ts, best, floor);
    reveal(quiet_found);
    reveal(quiet_tried);
    if g.in_check() {
        assert(best == (-INFINITE) as i32);
        assert(quiet_tried(sh, g, (-INFINITE) as i32, alpha, beta, ply, pv, ts));
        assert(r == evasions_worth(ply, ts));
    } else {
        assert(quiet_tried(sh, g, best, greater(alpha, best), beta, ply, pv, ts));
        assert(r == best_of(ts, best));
    }
}

/// Each of these moves was tried as quiescence does.
pub open spec fn trials_ok(
    sh: &Shared,
    g: Game,
    best: i32,
    floor: i32,
    beta: i32,
    ply: usize,
    pv: bool,
    ts: Seq<Trial>,
) -> bool {
    forall|i: int|
        0 <= i < ts.len() ==> quiet_trial(
            sh,
            g,
            best,
            best_of(ts.take(i), best),
            floor_of(ts.take(i), best, floor),
            beta,
            ply,
            pv,
            #[trigger] ts[i],
        )
}

/// One more trial.
pub proof fn lemma_quiet_trial(
    sh: &Shared,
    g: Game,
    best: i32,
    floor: i32,
    beta: i32,
    ply: usize,
    pv: bool,
    ts: Seq<Trial>,
    t: Trial,
)
    requires
        trials_ok(sh, g, best, floor, beta, ply, pv, ts),
        ply < 246,
        floor_of(ts, best, floor) < beta,
        g.allows(t.m),
        match t.outcome {
            Outcome::Scored(v) => -SCORE_LIMIT <= v <= SCORE_LIMIT && !is_beneath(
                g,
                best,
                best_of(ts, best),
                floor_of(ts, best, floor),
                t.m,
            ) && !is_bad_trade(g, best, best_of(ts, best), floor_of(ts, best, floor), t.m)
                && quiet_worth(
                sh,
                g.after(t.m),
                (-beta) as i32,
                (-floor_of(ts, best, floor)) as i32,
                (ply + 1) as usize,
                pv,
                (-v) as i32,
                t.line,
            ),
            Outcome::Worth(v) => is_beneath(
                g,
                best,
                best_of(ts, best),
                floor_of(ts, best, floor),
                t.m,
            ) && v == best + QS_FUTILITY + mvv_of(g.q, t.m),
            Outcome::Dropped => is_bad_trade(
                g,
                best,
                best_of(ts, best),
                floor_of(ts, best, floor),
                t.m,
            ),
        },
    ensures
        trials_ok(sh, g, best, floor, beta, ply, pv, ts.push(t)),
        best_of(ts.push(t), best) == match t.outcome {
            Outcome::Scored(v) => greater(best_of(ts, best), v),
            Outcome::Worth(v) => greater(best_of(ts, best), v),
            Outcome::Dropped => best_of(ts, best),
        },
        floor_of(ts.push(t), best, floor) == match t.outcome {
            Outcome::Scored(v) => if v > best_of(ts, best) {
                greater(floor_of(ts, best, floor), v)
            } else {
                floor_of(ts, best, floor)
            },
            _ => floor_of(ts, best, floor),
        },
        lead_of(ts.push(t), best) == match t.outcome {
            Outcome::Scored(v) => if v > best_of(ts, best) {
                t.m
            } else {
                lead_of(ts, best)
            },
            _ => lead_of(ts, best),
        },
        line_of(ts.push(t), best, floor) == match t.outcome {
            Outcome::Scored(v) => if v > best_of(ts, best) && v > floor_of(ts, best, floor) {
                seq![t.m] + t.line
            } else {
                line_of(ts, best, floor)
            },
            _ => line_of(ts, best, floor),
        },
        forall|m: Move| #[trigger] is_tried(ts.push(t), m) <==> is_tried(ts, m) || m == t.m,
{
    reveal(quiet_trial);
    reveal(quiet_worth);
    lemma_one_more(ts, t);
    let us = ts.push(t);
    assert(quiet_trial(
        sh,
        g,
        best,
        best_of(ts, best),
        floor_of(ts, best, floor),
        beta,
        ply,
        pv,
        t,
    ));
    assert forall|i: int| 0 <= i < us.len() implies quiet_trial(
        sh,
        g,
        best,
        best_of(us.take(i), best),
        floor_of(us.take(i), best, floor),
        beta,
        ply,
        pv,
        #[trigger] us[i],
    ) by {
        assert(us.take(i) == ts.take(i));
        if i < ts.len() {
            assert(us[i] == ts[i]);
        }
    }
}

// -- the main search -----------------------------------------------------------------

/// How a search has come to a node: the moves, by the planes that they select, and the
/// static evaluations on the way; whether the last turn was passed; and the depth of the
/// iteration.
pub struct Path {
    pub trail: Seq<usize>,
    pub evals: Seq<i32>,
    pub passed: bool,
    pub root_depth: i32,
}

impl Path {
    /// The planes of the four moves that a history looks back on.
    pub open spec fn planes(&self) -> Conts {
        let n = self.trail.len();
        [self.trail[n - 1], self.trail[n - 2], self.trail[n - 4], self.trail[n - 6]]
    }

    /// Is a node with this evaluation doing better than two plies ago, or four?
    pub open spec fn improves(&self, static_eval: i32) -> bool {
        let n = self.evals.len();
        does_better(static_eval, self.evals[n - 2], self.evals[n - 4])
    }

    /// One move on, from a node with this evaluation.
    pub open spec fn moved(&self, static_eval: i32, q: Seq<Piece>, m: Move) -> Path {
        Path {
            trail: self.trail.push((q[m.from().0 as int].0 * 100 + m.to().0) as usize),
            evals: self.evals.push(static_eval),
            passed: false,
            root_depth: self.root_depth,
        }
    }

    /// One passed turn on.
    pub open spec fn turned_over(&self, static_eval: i32) -> Path {
        Path {
            trail: self.trail.push(NULL_CONT),
            evals: self.evals.push(static_eval),
            passed: true,
            root_depth: self.root_depth,
        }
    }
}

/// A search to make: the window, the depth, what is left out and how it was come to;
/// and, in a variation, the line that it finds.
pub struct Task {
    pub alpha: i32,
    pub beta: i32,
    pub depth: i32,
    pub ply: usize,
    /// Is a variation asked for?
    pub pv: bool,
    /// Is the node expected to fail high?
    pub cut_node: bool,
    /// The move that a singular search leaves out.
    pub excluded: Move,
    /// The static evaluation that a singular search takes over.
    pub known: i32,
    /// The root moves that earlier lines have claimed.
    pub claimed: Seq<Move>,
    /// At the root, the best move so far.
    pub hint: Option<Move>,
    pub path: Path,
    pub line: Seq<Move>,
}

/// The search from `ply`, come to by `path`.
pub open spec fn plain_task(
    ply: usize,
    path: Path,
    alpha: int,
    beta: int,
    depth: int,
    pv: bool,
    cut_node: bool,
    line: Seq<Move>,
) -> Task {
    Task {
        alpha: alpha as i32,
        beta: beta as i32,
        depth: depth as i32,
        ply,
        pv,
        cut_node,
        excluded: Move::none(),
        known: VALUE_NONE,
        claimed: Seq::empty(),
        hint: None,
        path,
        line,
    }
}

/// The number of the move that comes after `i` others, as far as a counter goes.
pub open spec fn number_of(i: int) -> i32 {
    if i < i32::MAX {
        (i + 1) as i32
    } else {
        i32::MAX
    }
}

impl Task {
    /// The search of the reply to `m`.
    pub open spec fn reply(
        &self,
        g: Game,
        node: Node,
        m: Move,
        alpha: int,
        beta: int,
        depth: int,
        pv: bool,
        cut_node: bool,
        line: Seq<Move>,
    ) -> Task {
        plain_task(
            (self.ply + 1) as usize,
            self.path.moved(node.static_eval, g.q, m),
            alpha,
            beta,
            depth,
            pv,
            cut_node,
            line,
        )
    }

    /// The search with the turn passed.
    pub open spec fn pass(&self, node: Node) -> Task {
        plain_task(
            (self.ply + 1) as usize,
            self.path.turned_over(node.static_eval),
            -self.beta,
            -self.beta + 1,
            self.depth - null_plies(self.depth, node.eval, self.beta),
            false,
            !self.cut_node,
            Seq::empty(),
        )
    }

    /// The search of everything but `m` against a lowered window.
    pub open spec fn without(&self, node: Node, m: Move, window: int) -> Task {
        Task {
            alpha: (window - 1) as i32,
            beta: window as i32,
            depth: trunc(self.depth - 1, 2) as i32,
            ply: self.ply,
            pv: false,
            cut_node: self.cut_node,
            excluded: m,
            known: node.static_eval,
            claimed: Seq::empty(),
            hint: None,
            path: self.path,
            line: Seq::empty(),
        }
    }

    /// Whole plies only.
    pub open spec fn plies(&self) -> int {
        if self.depth > 0 {
            self.depth as int
        } else {
            0
        }
    }

    /// A move to look at.
    pub open spec fn is_choice(&self, g: Game, m: Move) -> bool {
        listed_at(g.pos()).contains(m) && m != self.excluded && !self.claimed.contains(m)
    }

    /// What the moves tried come to.
    pub open spec fn comes_to(&self, g: Game, ts: Seq<Trial>) -> i32 {
        if ts.len() > 0 {
            best_of(ts, (-INFINITE) as i32)
        } else if self.excluded != Move::none() {
            self.alpha
        } else if g.in_check() {
            mated_in(self.ply)
        } else {
            DRAW
        }
    }

    /// Whole nodes may be pruned here.
    pub open spec fn may_prune(&self, node: Node) -> bool {
        !self.pv && !node.in_check && self.excluded == Move::none() && !is_mate(self.beta)
    }

    /// Reverse futility: so far above beta that the node is taken for good enough.
    pub open spec fn is_above(&self, node: Node) -> bool {
        self.depth <= 6 && node.eval - 62 * (self.depth - one_if(node.improving)) >= self.beta
    }

    /// The turn is passed to see whether the node still holds: where it is good enough,
    /// there is more than pawns, and the last turn was not passed as well.
    pub open spec fn tries_pass(&self, g: Game, node: Node) -> bool {
        &&& self.depth >= 3
        &&& node.eval >= self.beta
        &&& node.static_eval + 16 * self.depth >= self.beta
        &&& !has_only_pawns(g.q, g.stm)
        &&& !self.path.passed
    }

    /// With the turn passed the reply scores `w`, which beats beta. A mate that is
    /// proved by not moving is not a mate.
    pub open spec fn passes_with(&self, w: i32, r: i32) -> bool {
        -w >= self.beta && r == if -w >= MATE_IN_MAX {
            self.beta as int
        } else {
            -w
        }
    }

    /// The raised beta of ProbCut.
    pub open spec fn raised(&self, node: Node) -> int {
        self.beta + 209 - 52 * one_if(node.improving)
    }

    /// ProbCut is tried, unless a deep enough entry says that it will not do.
    pub open spec fn tries_cut(&self, node: Node) -> bool {
        self.depth >= 5 && node.eval != VALUE_NONE && !(node.tt_depth >= self.depth - 3
            && node.tt_score != VALUE_NONE && node.tt_score < self.raised(node))
    }

    /// Is the move that comes after `i` others searched shallow first?
    pub open spec fn is_late(&self, g: Game, node: Node, i: int, m: Move) -> bool {
        &&& self.depth >= 2
        &&& number_of(i) > if self.ply == 0 {
            3
        } else {
            1int
        }
        &&& !is_noisy(g.q, m) || !node.tt_pv
    }

    /// The depth of that search, with a full depth of `deep`.
    pub open spec fn late_depth(&self, lmr: LmrTable, g: Game, node: Node, i: int, tr: Trial, deep: int) -> int {
        depth_reduced(
            deep,
            reduction_of(
                lmr.entries()[clamp_to(self.depth as int, 0, 63) * 256 + clamp_to(
                    number_of(i) as int,
                    0,
                    255,
                )] as int,
                self.pv,
                self.cut_node,
                node.tt_pv,
                node.improving,
                checks(g.q, g.stm, tr.m),
                !is_noisy(g.q, tr.m),
                self.history(g, tr),
                tr.busy,
            ),
        )
    }

    /// The history of a move as the tables were when it was tried.
    pub open spec fn history(&self, g: Game, tr: Trial) -> int {
        history_of(tr.hist, g.q, g.stm, self.path.planes(), tr.m)
    }

    /// The move is searched to its full depth against a null window: a late one where
    /// the shallow search, which gave `s1`, beats the window; another one unless it is
    /// the first of a variation.
    pub open spec fn goes_deep(&self, late: bool, shallow: int, deep: int, i: int, floor: i32, s1: i32) -> bool {
        if late {
            s1 > floor && shallow < deep
        } else {
            !self.pv || number_of(i) > 1
        }
    }

    /// In a variation the first move, and one that beats the window so far, is searched
    /// with the full window.
    pub open spec fn opens(&self, late: bool, shallow: int, deep: int, i: int, floor: i32, s1: i32, s2: i32) -> bool {
        self.pv && (number_of(i) == 1 || if self.goes_deep(late, shallow, deep, i, floor, s1) {
            s2 > floor
        } else {
            late ==> s1 > floor
        })
    }

    /// The score of the last of these searches is `v`.
    pub open spec fn ends_with(
        &self,
        late: bool,
        shallow: int,
        deep: int,
        i: int,
        floor: i32,
        s1: i32,
        s2: i32,
        v: i32,
    ) -> bool {
        !self.opens(late, shallow, deep, i, floor, s1, s2) ==> v == if self.goes_deep(
            late,
            shallow,
            deep,
            i,
            floor,
            s1,
        ) {
            s2
        } else {
            s1
        }
    }

    /// The hash move is tested for being the only good one.
    pub open spec fn is_tested(&self, node: Node, m: Move) -> bool {
        &&& self.depth >= SE_MIN_DEPTH
        &&& m == node.tt_move
        &&& self.excluded == Move::none()
        &&& node.tt_depth >= self.depth - 3
        &&& bounds_below(node.tt_bound)
        &&& !is_mate(node.tt_score)
    }

    /// Moves are extended here: not at the root, nor far from it.
    pub open spec fn extends(&self) -> bool {
        0 < self.ply < self.path.root_depth * 2
    }

    /// The lowered window of such a test.
    pub open spec fn lowered(&self, node: Node) -> int {
        node.tt_score - self.depth * SE_BETA_SLOPE
    }

    /// A test that gives `w` extends the hash move by `e`.
    pub open spec fn extends_after(&self, node: Node, w: i32, e: i32) -> bool {
        extension_after(
            w,
            self.lowered(node) as i32,
            self.beta,
            node.tt_score,
            self.pv,
            self.cut_node,
        ) == Some(e)
    }
}

/// Nothing but pawns and the king.
pub open spec fn has_only_pawns(q: Seq<Piece>, c: Color) -> bool {
    forall|i: int| #[trigger]
        col_at(q, i, c) ==> q[i].kind() == PieceType::Pawn || q[i].kind() == PieceType::King
}

/// What a search may see of the table: a singular search sees nothing.
pub open spec fn may_see(sh: &Shared, g: Game, excluded: Move, hit: Option<Hit>) -> bool {
    if excluded == Move::none() {
        sh.tt.may_find(g.key(), hit)
    } else {
        hit is None
    }
}

/// The depth after internal iterative reduction: without a hash move a node below
/// the root is searched a little shallower.
pub open spec fn iir_depth(t: Task, node: Node) -> i32 {
    if t.depth >= IIR_DEPTH && t.ply > 0 && node.tt_move == Move::none() {
        (t.depth - if t.pv {
            2int
        } else {
            1
        }) as i32
    } else {
        t.depth
    }
}

pub open spec fn hash_score_of(hit: Option<Hit>, ply: usize) -> i32 {
    match hit {
        Some(h) => node_score(h.score as int, ply as int) as i32,
        None => VALUE_NONE,
    }
}

/// `node` is what a node knows of itself where the table says `hit`: nothing of its
/// worth in check, in a singular search what was known before, and otherwise the static
/// evaluation, in the light of a stored score.
pub open spec fn is_node_at(sh: &Shared, g: Game, hit: Option<Hit>, t: Task, node: Node) -> bool {
    &&& node.recalls(hit, t.hint, t.pv, t.ply as int)
    &&& node.excluded == t.excluded
    &&& node.in_check == g.in_check()
    &&& node.improving == (!node.in_check && t.path.improves(node.static_eval))
    &&& if node.in_check {
        node.static_eval == VALUE_NONE && node.eval == VALUE_NONE
    } else if t.excluded != Move::none() {
        node.static_eval == t.known && node.eval == t.known
    } else {
        is_static(sh, g, hit, node.static_eval) && node.eval == if node.tt_score != VALUE_NONE {
            informed(node.static_eval, node.tt_bound, node.tt_score)
        } else {
            node.static_eval
        }
    }
}

/// `r` is what the search finds the game worth.
#[verifier::opaque]
pub open spec fn search_worth(sh: &Shared, g: Game, t: Task, r: i32) -> bool
    decreases 247 - t.ply, t.plies(), 8int,
{
    if t.depth <= 0 {
        quiet_worth(sh, g, t.alpha, t.beta, t.ply, t.pv, r, t.line)
    } else if t.ply > 0 && g.drawn(t.ply as int) {
        r == DRAW && (t.pv ==> t.line.len() == 0)
    } else if t.ply >= 246 {
        is_static(sh, g, None, r) && (t.pv ==> t.line.len() == 0)
    } else {
        let low = if t.ply > 0 {
            greater(t.alpha, mated_in(t.ply))
        } else {
            t.alpha
        };
        let high = if t.ply > 0 {
            lesser(t.beta, mate_in((t.ply + 1) as usize))
        } else {
            t.beta
        };
        if low >= high {
            r == low && (t.pv ==> t.line.len() == 0)
        } else {
            exists|hit: Option<Hit>| #[trigger]
                may_see(sh, g, t.excluded, hit) && node_worth(
                    sh,
                    g,
                    hit,
                    Task { alpha: low, beta: high, ..t },
                    r,
                )
        }
    }
}

/// The same for a node of which the table says `hit`: the stored score where it
/// decides, what a pruning rule gives, or else what the moves come to.
#[verifier::opaque]
pub open spec fn node_worth(sh: &Shared, g: Game, hit: Option<Hit>, t: Task, r: i32) -> bool
    decreases 247 - t.ply, t.plies(), 7int,
{
    &&& 0 < t.depth
    &&& t.ply < 246
    &&& if !t.pv && is_deep(hit, t.depth) && is_decided(hit, t.alpha, t.beta, t.ply as int)
        && g.halfmove < 90 {
        r == hash_score_of(hit, t.ply)
    } else {
        exists|node: Node| #[trigger]
            is_node_at(sh, g, hit, t, node) && {
                ||| t.may_prune(node) && is_pruned(sh, g, node, t, r)
                ||| t.may_prune(node) && stands_up(sh, g, node, t) && is_cut(sh, g, node, t, r)
                ||| (t.may_prune(node) ==> stands_up(sh, g, node, t) && is_uncut(sh, g, node, t))
                    && if iir_depth(t, node) <= 0 {
                    quiet_worth(sh, g, t.alpha, t.beta, t.ply, t.pv, r, t.line)
                } else {
                    moves_worth(sh, g, node, Task { depth: iir_depth(t, node), ..t }, r)
                }
            }
    }
}

/// The node is given the score `r` at sight: by reverse futility, by razoring, or by
/// passing the turn.
#[verifier::opaque]
pub open spec fn is_pruned(sh: &Shared, g: Game, node: Node, t: Task, r: i32) -> bool
    decreases 247 - t.ply, t.plies(), 6int,
{
    &&& 0 < t.depth
    &&& t.ply < 246
    &&& if t.is_above(node) {
        r == t.beta + trunc(node.eval - t.beta, 3)
    } else {
        ||| razors(node.eval, t.alpha, t.depth) && r < t.alpha && quiet_worth(
            sh,
            g,
            (t.alpha - 1) as i32,
            t.alpha,
            t.ply,
            false,
            r,
            Seq::empty(),
        )
        ||| t.tries_pass(g, node) && outlives_razor(sh, g, node, t) && exists|w: i32| #[trigger]
            t.passes_with(w, r) && search_worth(sh, g.passed(), t.pass(node), w)
    }
}

/// Razoring does not apply, or quiescence saves the node.
pub open spec fn outlives_razor(sh: &Shared, g: Game, node: Node, t: Task) -> bool {
    razors(node.eval, t.alpha, t.depth) ==> exists|v: i32|
        v >= t.alpha && #[trigger] quiet_worth(
            sh,
            g,
            (t.alpha - 1) as i32,
            t.alpha,
            t.ply,
            false,
            v,
            Seq::empty(),
        )
}

/// None of these rules prunes the node.
#[verifier::opaque]
pub open spec fn stands_up(sh: &Shared, g: Game, node: Node, t: Task) -> bool
    decreases 247 - t.ply, t.plies(), 6int,
{
    &&& 0 < t.depth
    &&& t.ply < 246
    &&& !t.is_above(node)
    &&& outlives_razor(sh, g, node, t)
    &&& t.tries_pass(g, node) ==> exists|w: i32| #[trigger]
        is_short_of(w, t.beta) && search_worth(sh, g.passed(), t.pass(node), w)
}

/// A reply that scores `w` leaves less than `beta`.
pub open spec fn is_short_of(w: i32, beta: i32) -> bool {
    -w < beta
}

/// A move that ProbCut tries: a capture or promotion that wins `threshold` and is
/// not left out.
pub open spec fn promises(g: Game, excluded: Move, threshold: int, m: Move) -> bool {
    &&& g.allows(m)
    &&& m.compact()
    &&& is_noisy(g.q, m)
    &&& see(g.q, g.stm, m) >= threshold
    &&& m != excluded
}

/// Against the raised beta quiescence says `-w`, and only where that reaches it the
/// search after it says `v`.
pub open spec fn is_probed(raised: int, w: i32, v: i32) -> bool {
    -w < raised ==> v == -w
}

/// ProbCut finds `m` worth `v`, first in quiescence, then in a reduced search.
#[verifier::opaque]
pub open spec fn probes_at(sh: &Shared, g: Game, node: Node, t: Task, m: Move, v: i32) -> bool
    decreases 247 - t.ply, t.plies(), 5int,
{
    &&& t.ply < 246
    &&& exists|w: i32| #[trigger]
        is_probed(t.raised(node), w, v) && quiet_worth(
            sh,
            g.after(m),
            (-t.raised(node)) as i32,
            (-t.raised(node) + 1) as i32,
            (t.ply + 1) as usize,
            false,
            w,
            Seq::empty(),
        ) && (-w >= t.raised(node) ==> search_worth(
            sh,
            g.after(m),
            t.reply(
                g,
                node,
                m,
                -t.raised(node),
                -t.raised(node) + 1,
                t.depth - 3,
                false,
                !t.cut_node,
                Seq::empty(),
            ),
            (-v) as i32,
        ))
}

/// ProbCut: a capture or promotion beats the raised beta, with `r`.
#[verifier::opaque]
pub open spec fn is_cut(sh: &Shared, g: Game, node: Node, t: Task, r: i32) -> bool
    decreases 247 - t.ply, t.plies(), 6int,
{
    t.tries_cut(node) && r >= t.raised(node) && exists|m: Move| #[trigger]
        promises(g, t.excluded, t.raised(node) - node.eval, m) && probes_at(sh, g, node, t, m, r)
}

/// None of them does.
#[verifier::opaque]
pub open spec fn is_uncut(sh: &Shared, g: Game, node: Node, t: Task) -> bool
    decreases 247 - t.ply, t.plies(), 6int,
{
    t.tries_cut(node) ==> forall|m: Move| #[trigger]
        promises(g, t.excluded, t.raised(node) - node.eval, m) ==> exists|v: i32| #[trigger]
            is_below(v, t.raised(node)) && probes_at(sh, g, node, t, m, v)
}

pub open spec fn is_below(v: i32, x: int) -> bool {
    v < x
}

/// The moves of a node come to `r`: the best of those tried, or, where several moves
/// beat beta without the hash move, what they beat.
#[verifier::opaque]
pub open spec fn moves_worth(sh: &Shared, g: Game, node: Node, t: Task, r: i32) -> bool
    decreases 247 - t.ply, t.plies(), 5int,
{
    ||| exists|ts: Seq<Trial>|
        moves_tried(sh, g, node, t, ts) && r == #[trigger] t.comes_to(g, ts)
    ||| t.ply > 0 && cut_by_many(sh, g, node, t, r)
}

/// Multi-cut: even without the hash move something beats a window that lies beyond
/// beta, so the node fails high without its moves being searched properly.
#[verifier::opaque]
pub open spec fn cut_by_many(sh: &Shared, g: Game, node: Node, t: Task, r: i32) -> bool
    decreases 247 - t.ply, t.plies(), 4int,
{
    &&& t.extends()
    &&& t.is_tested(node, node.tt_move)
    &&& g.allows(node.tt_move)
    &&& r == t.lowered(node)
    &&& r >= t.beta
    &&& exists|w: i32| #[trigger]
        is_at_least(w, r) && search_worth(sh, g, t.without(node, node.tt_move, r as int), w)
}

pub open spec fn is_at_least(w: i32, r: i32) -> bool {
    w >= r
}

/// These moves were tried, one after the other, until one reached beta or none was
/// left. At the root every move is searched; elsewhere some may be left out.
#[verifier::opaque]
pub open spec fn moves_tried(sh: &Shared, g: Game, node: Node, t: Task, ts: Seq<Trial>) -> bool
    decreases 247 - t.ply, t.plies(), 4int,
{
    &&& forall|i: int|
        0 <= i < ts.len() ==> move_trial(
            sh,
            g,
            node,
            t,
            best_of(ts.take(i), (-INFINITE) as i32),
            floor_of(ts.take(i), (-INFINITE) as i32, t.alpha),
            i,
            #[trigger] ts[i],
        )
    &&& all_searched(sh, g, node, t, ts)
    &&& is_sorted(g, node, t, ts)
    &&& is_steady(ts)
    &&& t.pv ==> t.line == line_of(ts, (-INFINITE) as i32, t.alpha)
}

/// The turn of a move out of check: the hash move, winning captures and promotions, quiet
/// moves, losing captures and promotions.
pub open spec fn turn_of(q: Seq<Piece>, stm: Color, hash_move: Move, m: Move) -> int {
    if m == hash_move {
        0
    } else if !is_noisy(q, m) {
        2
    } else if see(q, stm, m) >= 0 {
        1
    } else {
        3
    }
}

/// Only the search of a move changes the tables that the next one is judged by.
#[verifier::opaque]
pub open spec fn is_steady(ts: Seq<Trial>) -> bool {
    forall|i: int, j: int|
        0 <= i && j == i + 1 && j < ts.len() && !((#[trigger] ts[i]).outcome is Scored)
            ==> (#[trigger] ts[j]).hist == ts[i].hist
}

/// The hash move comes first, and out of check the moves come turn by turn.
#[verifier::opaque]
pub open spec fn is_sorted(g: Game, node: Node, t: Task, ts: Seq<Trial>) -> bool {
    &&& t.is_choice(g, node.tt_move) && ts.len() > 0 ==> ts[0].m == node.tt_move
    &&& !node.in_check ==> forall|i: int, j: int|
        0 <= i < j < ts.len() ==> turn_of(g.q, g.stm, node.tt_move, (#[trigger] ts[i]).m)
            <= turn_of(g.q, g.stm, node.tt_move, (#[trigger] ts[j]).m)
}

/// Below the root, once a move does not lose to a mate, moves are judged before they
/// are searched.
pub open spec fn is_judging(t: Task, best: i32) -> bool {
    t.ply > 0 && best > -MATE_IN_MAX
}

/// Trial `j` ends the quiet moves.
pub open spec fn ends_quiets_at(sh: &Shared, g: Game, node: Node, t: Task, ts: Seq<Trial>, j: int) -> bool {
    is_judging(t, best_of(ts.take(j), (-INFINITE) as i32)) && ends_quiets(
        *sh.lmr,
        g.q,
        node,
        floor_of(ts.take(j), (-INFINITE) as i32, t.alpha),
        t.depth,
        number_of(j),
        ts[j].m,
    )
}

/// The quiet moves left are skipped.
#[verifier::opaque]
pub open spec fn skips_quiets(sh: &Shared, g: Game, node: Node, t: Task, ts: Seq<Trial>) -> bool {
    exists|j: int| 0 <= j < ts.len() && #[trigger] ends_quiets_at(sh, g, node, t, ts, j)
}

/// What was decided of trial `i`.
pub open spec fn verdict_at(
    sh: &Shared,
    g: Game,
    node: Node,
    t: Task,
    floor: i32,
    i: int,
    tr: Trial,
) -> Verdict {
    judged(
        *sh.lmr,
        g.q,
        g.stm,
        node,
        t.pv,
        floor,
        t.depth,
        number_of(i),
        t.history(g, tr),
        tr.m,
    )
}

/// The losing captures left are skipped: the last trial says so.
pub open spec fn skips_losing(sh: &Shared, g: Game, node: Node, t: Task, ts: Seq<Trial>) -> bool {
    let i = ts.len() - 1;
    i >= 0 && is_judging(t, best_of(ts.take(i), (-INFINITE) as i32)) && verdict_at(
        sh,
        g,
        node,
        t,
        floor_of(ts.take(i), (-INFINITE) as i32, t.alpha),
        i,
        ts[i],
    ) is Stop
}

/// Nothing is missing where nothing may be.
pub open spec fn all_searched(sh: &Shared, g: Game, node: Node, t: Task, ts: Seq<Trial>) -> bool {
    floor_of(ts, (-INFINITE) as i32, t.alpha) < t.beta && g.has_room() ==> forall|m: Move|
        #[trigger]
        t.is_choice(g, m) ==> is_tried(ts, m) || (!is_noisy(g.q, m) && skips_quiets(
            sh,
            g,
            node,
            t,
            ts,
        )) || (comes_last(g.q, g.stm, node.tt_move, m) && skips_losing(sh, g, node, t, ts))
}

/// One move, tried after `i` others with this best score and window: left out where it
/// is judged so, and otherwise searched.
#[verifier::opaque]
pub open spec fn move_trial(
    sh: &Shared,
    g: Game,
    node: Node,
    t: Task,
    best: i32,
    floor: i32,
    i: int,
    tr: Trial,
) -> bool
    decreases 247 - t.ply, t.plies(), 3int,
{
    let verdict = verdict_at(sh, g, node, t, floor, i, tr);
    &&& floor < t.beta
    &&& t.is_choice(g, tr.m)
    &&& match tr.outcome {
        Outcome::Scored(v) => -SCORE_LIMIT <= v <= SCORE_LIMIT && (is_judging(t, best) ==> verdict
            is Try) && reply_worth(sh, g, node, t, i, floor, tr, v),
        Outcome::Worth(v) => is_judging(t, best) && v <= floor && (verdict == Verdict::Raise(v)
            || verdict == Verdict::Stop(v)),
        Outcome::Dropped => is_judging(t, best) && verdict is Skip,
    }
}

/// `v` is the negated score of the reply to the move of `tr`, which comes after `i`
/// others: a late move is searched shallow against a null window first; if it beats the
/// window, it is searched to the full depth; and if it does so in a variation, with the
/// full window.
#[verifier::opaque]
pub open spec fn reply_worth(
    sh: &Shared,
    g: Game,
    node: Node,
    t: Task,
    i: int,
    floor: i32,
    tr: Trial,
    v: i32,
) -> bool
    decreases 247 - t.ply, t.plies(), 2int,
{
    let late = t.is_late(g, node, i, tr.m);
    t.ply < 246 && exists|e: i32, s1: i32, s2: i32|
        {
            let deep = t.depth - 1 + e;
            let shallow = t.late_depth(*sh.lmr, g, node, i, tr, deep);
            &&& #[trigger] is_staged(e, s1, s2)
            &&& t.ends_with(late, shallow, deep, i, floor, s1, s2, v)
            &&& extends_by(sh, g, node, t, tr.m, e)
            &&& late ==> search_worth(
                sh,
                g.after(tr.m),
                t.reply(g, node, tr.m, -floor - 1, -floor, shallow, false, true, Seq::empty()),
                (-s1) as i32,
            )
            &&& t.goes_deep(late, shallow, deep, i, floor, s1) ==> search_worth(
                sh,
                g.after(tr.m),
                t.reply(g, node, tr.m, -floor - 1, -floor, deep, false, !t.cut_node, Seq::empty()),
                (-s2) as i32,
            )
            &&& t.opens(late, shallow, deep, i, floor, s1, s2) ==> search_worth(
                sh,
                g.after(tr.m),
                t.reply(g, node, tr.m, -t.beta, -floor, deep, true, false, tr.line),
                (-v) as i32,
            )
        }
}

/// An extension, and the scores of a shallow and of a deep search.
pub open spec fn is_staged(e: i32, s1: i32, s2: i32) -> bool {
    -2 <= e <= 2 && -SCORE_LIMIT <= s1 <= SCORE_LIMIT && -SCORE_LIMIT <= s2 <= SCORE_LIMIT
}

/// `m` is extended by `e`: the hash move, where it is tested, by how far behind the other
/// moves stay; another move by a ply where it gives check.
#[verifier::opaque]
pub open spec fn extends_by(sh: &Shared, g: Game, node: Node, t: Task, m: Move, e: i32) -> bool
    decreases 247 - t.ply, t.plies(), 1int,
{
    if !t.extends() {
        e == 0
    } else if t.is_tested(node, m) {
        exists|w: i32| #[trigger]
            t.extends_after(node, w, e) && search_worth(
                sh,
                g,
                t.without(node, m, t.lowered(node)),
                w,
            )
    } else {
        e == if checks(g.q, g.stm, m) && t.depth > 5 {
            1
        } else {
            0int
        }
    }
}

/// The reduction of a search with the turn passed.
pub open spec fn null_plies(depth: i32, e: i32, beta: i32) -> int {
    5 + depth / 3 + if (e - beta) / 217 < 3 {
        (e - beta) / 217
    } else {
        3
    }
}

// -- reasons for a score -------------------------------------------------------------

pub proof fn lemma_search_worth(sh: &Shared, g: Game, hit: Option<Hit>, t: Task, r: i32)
    requires
        if t.depth <= 0 {
            quiet_worth(sh, g, t.alpha, t.beta, t.ply, t.pv, r, t.line)
        } else if t.ply > 0 && g.drawn(t.ply as int) {
            r == DRAW && (t.pv ==> t.line.len() == 0)
        } else if t.ply >= 246 {
            is_static(sh, g, None, r) && (t.pv ==> t.line.len() == 0)
        } else {
            let low = if t.ply > 0 {
                greater(t.alpha, mated_in(t.ply))
            } else {
                t.alpha
            };
            let high = if t.ply > 0 {
                lesser(t.beta, mate_in((t.ply + 1) as usize))
            } else {
                t.beta
            };
            if low >= high {
                r == low && (t.pv ==> t.line.len() == 0)
            } else {
                may_see(sh, g, t.excluded, hit) && node_worth(
                    sh,
                    g,
                    hit,
                    Task { alpha: low, beta: high, ..t },
                    r,
                )
            }
        },
    ensures
        search_worth(sh, g, t, r),
{
    reveal(search_worth);
    reveal(node_worth);
}

pub proof fn lemma_node_stored(sh: &Shared, g: Game, hit: Option<Hit>, t: Task, r: i32)
    requires
        0 < t.depth,
        t.ply < 246,
        !t.pv,
        is_deep(hit, t.depth),
        is_decided(hit, t.alpha, t.beta, t.ply as int),
        g.halfmove < 90,
        r == hash_score_of(hit, t.ply),
    ensures
        node_worth(sh, g, hit, t, r),
{
    reveal(node_worth);
}

/// The table does not settle the node.
pub open spec fn is_open(g: Game, hit: Option<Hit>, t: Task) -> bool {
    t.pv || !(is_deep(hit, t.depth) && is_decided(hit, t.alpha, t.beta, t.ply as int) && g.halfmove
        < 90)
}

pub proof fn lemma_node_pruned(sh: &Shared, g: Game, hit: Option<Hit>, t: Task, node: Node, r: i32)
    requires
        0 < t.depth,
        t.ply < 246,
        is_open(g, hit, t),
        is_node_at(sh, g, hit, t, node),
        t.may_prune(node),
        is_pruned(sh, g, node, t, r) || (stands_up(sh, g, node, t) && is_cut(sh, g, node, t, r)),
    ensures
        node_worth(sh, g, hit, t, r),
{
    reveal(node_worth);
    reveal(is_pruned);
    reveal(stands_up);
    reveal(is_cut);
}

pub proof fn lemma_node_moves(sh: &Shared, g: Game, hit: Option<Hit>, t: Task, node: Node, r: i32)
    requires
        0 < t.depth,
        t.ply < 246,
        is_open(g, hit, t),
        is_node_at(sh, g, hit, t, node),
        t.may_prune(node) ==> stands_up(sh, g, node, t) && is_uncut(sh, g, node, t),
        if iir_depth(t, node) <= 0 {
            quiet_worth(sh, g, t.alpha, t.beta, t.ply, t.pv, r, t.line)
        } else {
            moves_worth(sh, g, node, Task { depth: iir_depth(t, node), ..t }, r)
        },
    ensures
        node_worth(sh, g, hit, t, r),
{
    reveal(node_worth);
    reveal(stands_up);
    reveal(is_uncut);
    reveal(moves_worth);
}

pub proof fn lemma_pruned_early(sh: &Shared, g: Game, node: Node, t: Task, r: i32)
    requires
        0 < t.depth,
        t.ply < 246,
        if t.is_above(node) {
            r == t.beta + trunc(node.eval - t.beta, 3)
        } else {
            razors(node.eval, t.alpha, t.depth) && r < t.alpha && quiet_worth(
                sh,
                g,
                (t.alpha - 1) as i32,
                t.alpha,
                t.ply,
                false,
                r,
                Seq::empty(),
            )
        },
    ensures
        is_pruned(sh, g, node, t, r),
{
    reveal(is_pruned);
}

pub proof fn lemma_pruned_by_passing(sh: &Shared, g: Game, node: Node, t: Task, w: i32, r: i32)
    requires
        3 <= t.depth,
        t.ply < 246,
        !t.is_above(node),
        outlives_razor(sh, g, node, t),
        t.tries_pass(g, node),
        t.passes_with(w, r),
        search_worth(sh, g.passed(), t.pass(node), w),
    ensures
        is_pruned(sh, g, node, t, r),
{
    reveal(is_pruned);
    reveal(search_worth);
}

pub proof fn lemma_stands_up(sh: &Shared, g: Game, node: Node, t: Task, w: i32)
    requires
        0 < t.depth,
        t.ply < 246,
        !t.is_above(node),
        outlives_razor(sh, g, node, t),
        t.tries_pass(g, node) ==> -w < t.beta && search_worth(sh, g.passed(), t.pass(node), w),
    ensures
        stands_up(sh, g, node, t),
{
    reveal(stands_up);
    reveal(search_worth);
    assert(t.tries_pass(g, node) ==> is_short_of(w, t.beta));
}

pub proof fn lemma_probes(sh: &Shared, g: Game, node: Node, t: Task, m: Move, w: i32, v: i32)
    requires
        t.ply < 246,
        is_probed(t.raised(node), w, v),
        quiet_worth(
            sh,
            g.after(m),
            (-t.raised(node)) as i32,
            (-t.raised(node) + 1) as i32,
            (t.ply + 1) as usize,
            false,
            w,
            Seq::empty(),
        ),
        -w >= t.raised(node) ==> search_worth(
            sh,
            g.after(m),
            t.reply(
                g,
                node,
                m,
                -t.raised(node),
                -t.raised(node) + 1,
                t.depth - 3,
                false,
                !t.cut_node,
                Seq::empty(),
            ),
            (-v) as i32,
        ),
    ensures
        probes_at(sh, g, node, t, m, v),
{
    reveal(probes_at);
    reveal(search_worth);
}

pub proof fn lemma_cut(sh: &Shared, g: Game, node: Node, t: Task, m: Move, r: i32)
    requires
        t.tries_cut(node),
        r >= t.raised(node),
        promises(g, t.excluded, t.raised(node) - node.eval, m),
        probes_at(sh, g, node, t, m, r),
    ensures
        is_cut(sh, g, node, t, r),
{
    reveal(is_cut);
    reveal(probes_at);
}

/// `m` fails to cut.
pub open spec fn is_refused(sh: &Shared, g: Game, node: Node, t: Task, m: Move) -> bool {
    exists|v: i32| v < t.raised(node) && #[trigger] probes_at(sh, g, node, t, m, v)
}

pub proof fn lemma_uncut(sh: &Shared, g: Game, node: Node, t: Task)
    requires
        t.tries_cut(node) ==> forall|m: Move| #[trigger]
            promises(g, t.excluded, t.raised(node) - node.eval, m) ==> is_refused(
                sh,
                g,
                node,
                t,
                m,
            ),
    ensures
        is_uncut(sh, g, node, t),
{
    reveal(is_uncut);
    reveal(probes_at);
    if t.tries_cut(node) {
        assert forall|m: Move| #[trigger]
            promises(g, t.excluded, t.raised(node) - node.eval, m) implies exists|v: i32|
            #[trigger] is_below(v, t.raised(node)) && probes_at(sh, g, node, t, m, v) by {
            assert(is_refused(sh, g, node, t, m));
            let v = choose|v: i32|
                v < t.raised(node) && #[trigger] probes_at(sh, g, node, t, m, v);
            assert(is_below(v, t.raised(node)));
        }
    }
}

/// Each of these moves was tried as the search does.
pub open spec fn moves_ok(sh: &Shared, g: Game, node: Node, t: Task, ts: Seq<Trial>) -> bool {
    forall|i: int|
        0 <= i < ts.len() ==> move_trial(
            sh,
            g,
            node,
            t,
            best_of(ts.take(i), (-INFINITE) as i32),
            floor_of(ts.take(i), (-INFINITE) as i32, t.alpha),
            i,
            #[trigger] ts[i],
        )
}

/// How a move is extended does not depend on the line that is found in the end.
proof fn lemma_extends_any(sh: &Shared, g: Game, node: Node, t: Task, line: Seq<Move>, m: Move, e: i32)
    requires
        extends_by(sh, g, node, t, m, e),
    ensures
        extends_by(sh, g, node, Task { line, ..t }, m, e),
{
    let u = Task { line, ..t };
    if t.extends() && t.is_tested(node, m) {
        let w = lemma_tested(sh, g, node, t, m, e);
        assert(u.without(node, m, u.lowered(node)) == t.without(node, m, t.lowered(node)));
        lemma_extends_tested(sh, g, node, u, w, e);
    } else {
        reveal(extends_by);
        lemma_extends(sh, g, node, u, m, e);
    }
}

proof fn lemma_tested(sh: &Shared, g: Game, node: Node, t: Task, m: Move, e: i32) -> (w: i32)
    requires
        extends_by(sh, g, node, t, m, e),
        t.extends(),
        t.is_tested(node, m),
    ensures
        t.extends_after(node, w, e),
        search_worth(sh, g, t.without(node, m, t.lowered(node)), w),
{
    reveal(extends_by);
    reveal(search_worth);
    choose|w: i32| #[trigger]
        t.extends_after(node, w, e) && search_worth(
            sh,
            g,
            t.without(node, m, t.lowered(node)),
            w,
        )
}

/// The stages of a reply's search.
proof fn lemma_stages(
    sh: &Shared,
    g: Game,
    node: Node,
    t: Task,
    i: int,
    floor: i32,
    tr: Trial,
    v: i32,
) -> (x: (i32, i32, i32))
    requires
        reply_worth(sh, g, node, t, i, floor, tr, v),
    ensures
        t.ply < 246,
        is_staged(x.0, x.1, x.2),
        extends_by(sh, g, node, t, tr.m, x.0),
        ({
            let late = t.is_late(g, node, i, tr.m);
            let deep = t.depth - 1 + x.0;
            let shallow = t.late_depth(*sh.lmr, g, node, i, tr, deep);
            &&& t.ends_with(late, shallow, deep, i, floor, x.1, x.2, v)
            &&& late ==> search_worth(
                sh,
                g.after(tr.m),
                t.reply(g, node, tr.m, -floor - 1, -floor, shallow, false, true, Seq::empty()),
                (-x.1) as i32,
            )
            &&& t.goes_deep(late, shallow, deep, i, floor, x.1) ==> search_worth(
                sh,
                g.after(tr.m),
                t.reply(g, node, tr.m, -floor - 1, -floor, deep, false, !t.cut_node, Seq::empty()),
                (-x.2) as i32,
            )
            &&& t.opens(late, shallow, deep, i, floor, x.1, x.2) ==> search_worth(
                sh,
                g.after(tr.m),
                t.reply(g, node, tr.m, -t.beta, -floor, deep, true, false, tr.line),
                (-v) as i32,
            )
        }),
{
    reveal(reply_worth);
    reveal(search_worth);
    reveal(extends_by);
    let late = t.is_late(g, node, i, tr.m);
    choose|e: i32, s1: i32, s2: i32|
        {
            let deep = t.depth - 1 + e;
            let shallow = t.late_depth(*sh.lmr, g, node, i, tr, deep);
            &&& #[trigger] is_staged(e, s1, s2)
            &&& t.ends_with(late, shallow, deep, i, floor, s1, s2, v)
            &&& extends_by(sh, g, node, t, tr.m, e)
            &&& late ==> search_worth(
                sh,
                g.after(tr.m),
                t.reply(g, node, tr.m, -floor - 1, -floor, shallow, false, true, Seq::empty()),
                (-s1) as i32,
            )
            &&& t.goes_deep(late, shallow, deep, i, floor, s1) ==> search_worth(
                sh,
                g.after(tr.m),
                t.reply(g, node, tr.m, -floor - 1, -floor, deep, false, !t.cut_node, Seq::empty()),
                (-s2) as i32,
            )
            &&& t.opens(late, shallow, deep, i, floor, s1, s2) ==> search_worth(
                sh,
                g.after(tr.m),
                t.reply(g, node, tr.m, -t.beta, -floor, deep, true, false, tr.line),
                (-v) as i32,
            )
        }
}

proof fn lemma_trial_any(
    sh: &Shared,
    g: Game,
    node: Node,
    t: Task,
    line: Seq<Move>,
    best: i32,
    floor: i32,
    i: int,
    tr: Trial,
)
    requires
        move_trial(sh, g, node, t, best, floor, i, tr),
    ensures
        move_trial(sh, g, node, Task { line, ..t }, best, floor, i, tr),
{
    let u = Task { line, ..t };
    if let Outcome::Scored(v) = tr.outcome {
        assert(reply_worth(sh, g, node, t, i, floor, tr, v)) by {
            reveal(move_trial);
            reveal(reply_worth);
        }
        let (e, s1, s2) = lemma_stages(sh, g, node, t, i, floor, tr, v);
        lemma_extends_any(sh, g, node, t, line, tr.m, e);
        lemma_reply(sh, g, node, u, i, floor, tr, v, e, s1, s2);
    }
    assert(u.is_choice(g, tr.m) == t.is_choice(g, tr.m));
    assert(verdict_at(sh, g, node, u, floor, i, tr) == verdict_at(sh, g, node, t, floor, i, tr));
    reveal(move_trial);
    reveal(reply_worth);
}

/// What a move goes through does not depend on it either.
pub proof fn lemma_any_line(sh: &Shared, g: Game, node: Node, t: Task, ts: Seq<Trial>, line: Seq<Move>)
    requires
        moves_ok(sh, g, node, t, ts),
    ensures
        moves_ok(sh, g, node, Task { line, ..t }, ts),
{
    let u = Task { line, ..t };
    assert forall|i: int| 0 <= i < ts.len() implies move_trial(
        sh,
        g,
        node,
        u,
        best_of(ts.take(i), (-INFINITE) as i32),
        floor_of(ts.take(i), (-INFINITE) as i32, u.alpha),
        i,
        #[trigger] ts[i],
    ) by {
        lemma_trial_any(
            sh,
            g,
            node,
            t,
            line,
            best_of(ts.take(i), (-INFINITE) as i32),
            floor_of(ts.take(i), (-INFINITE) as i32, t.alpha),
            i,
            ts[i],
        );
    }
}

pub proof fn lemma_moves_worth(sh: &Shared, g: Game, node: Node, t: Task, ts: Seq<Trial>, line: Seq<Move>)
    requires
        moves_ok(sh, g, node, t, ts),
        all_searched(sh, g, node, t, ts),
        is_sorted(g, node, t, ts),
        is_steady(ts),
        t.pv ==> line == line_of(ts, (-INFINITE) as i32, t.alpha),
    ensures
        moves_tried(sh, g, node, Task { line, ..t }, ts),
        moves_worth(sh, g, node, Task { line, ..t }, t.comes_to(g, ts)),
{
    let u = Task { line, ..t };
    lemma_any_line(sh, g, node, t, ts, line);
    assert(skips_quiets(sh, g, node, u, ts) == skips_quiets(sh, g, node, t, ts)) by {
        reveal(skips_quiets);
        assert forall|j: int|
            #![trigger ends_quiets_at(sh, g, node, u, ts, j)]
            #![trigger ends_quiets_at(sh, g, node, t, ts, j)]
            ends_quiets_at(sh, g, node, u, ts, j) == ends_quiets_at(sh, g, node, t, ts, j) by {}
    }
    assert forall|m: Move| #[trigger] u.is_choice(g, m) implies t.is_choice(g, m) by {}
    assert(is_sorted(g, node, u, ts)) by {
        reveal(is_sorted);
    }
    assert(moves_tried(sh, g, node, u, ts)) by {
        reveal(moves_tried);
        reveal(move_trial);
    }
    reveal(moves_worth);
    reveal(moves_tried);
    let r = u.comes_to(g, ts);
    assert(moves_tried(sh, g, node, u, ts) && r == u.comes_to(g, ts));
}

pub proof fn lemma_many_worth(sh: &Shared, g: Game, node: Node, t: Task, w: i32, r: i32)
    requires
        t.extends(),
        t.is_tested(node, node.tt_move),
        g.allows(node.tt_move),
        r == t.lowered(node),
        r >= t.beta,
        w >= r,
        search_worth(sh, g, t.without(node, node.tt_move, r as int), w),
    ensures
        cut_by_many(sh, g, node, t, r),
{
    reveal(cut_by_many);
    reveal(search_worth);
    assert(is_at_least(w, r));
}

pub proof fn lemma_moves_many(sh: &Shared, g: Game, node: Node, t: Task, r: i32, line: Seq<Move>)
    requires
        t.ply > 0,
        cut_by_many(sh, g, node, t, r),
    ensures
        cut_by_many(sh, g, node, Task { line, ..t }, r),
        moves_worth(sh, g, node, Task { line, ..t }, r),
{
    let u = Task { line, ..t };
    reveal(cut_by_many);
    assert(u.without(node, node.tt_move, r as int) == t.without(node, node.tt_move, r as int));
    assert(cut_by_many(sh, g, node, u, r));
    reveal(moves_worth);
}

/// One more move.
pub proof fn lemma_move_trial(sh: &Shared, g: Game, node: Node, t: Task, ts: Seq<Trial>, tr: Trial)
    requires
        moves_ok(sh, g, node, t, ts),
        floor_of(ts, (-INFINITE) as i32, t.alpha) < t.beta,
        t.is_choice(g, tr.m),
        ({
            let best = best_of(ts, (-INFINITE) as i32);
            let floor = floor_of(ts, (-INFINITE) as i32, t.alpha);
            let verdict = verdict_at(sh, g, node, t, floor, ts.len() as int, tr);
            match tr.outcome {
                Outcome::Scored(v) => -SCORE_LIMIT <= v <= SCORE_LIMIT && (is_judging(t, best)
                    ==> verdict is Try) && reply_worth(
                    sh,
                    g,
                    node,
                    t,
                    ts.len() as int,
                    floor,
                    tr,
                    v,
                ),
                Outcome::Worth(v) => is_judging(t, best) && v <= floor && (verdict
                    == Verdict::Raise(v) || verdict == Verdict::Stop(v)),
                Outcome::Dropped => is_judging(t, best) && verdict is Skip,
            }
        }),
    ensures
        moves_ok(sh, g, node, t, ts.push(tr)),
        best_of(ts.push(tr), (-INFINITE) as i32) == match tr.outcome {
            Outcome::Scored(v) => greater(best_of(ts, (-INFINITE) as i32), v),
            Outcome::Worth(v) => greater(best_of(ts, (-INFINITE) as i32), v),
            Outcome::Dropped => best_of(ts, (-INFINITE) as i32),
        },
        floor_of(ts.push(tr), (-INFINITE) as i32, t.alpha) == match tr.outcome {
            Outcome::Scored(v) => if v > best_of(ts, (-INFINITE) as i32) {
                greater(floor_of(ts, (-INFINITE) as i32, t.alpha), v)
            } else {
                floor_of(ts, (-INFINITE) as i32, t.alpha)
            },
            _ => floor_of(ts, (-INFINITE) as i32, t.alpha),
        },
        line_of(ts.push(tr), (-INFINITE) as i32, t.alpha) == match tr.outcome {
            Outcome::Scored(v) => if v > best_of(ts, (-INFINITE) as i32) && v > floor_of(
                ts,
                (-INFINITE) as i32,
                t.alpha,
            ) {
                seq![tr.m] + tr.line
            } else {
                line_of(ts, (-INFINITE) as i32, t.alpha)
            },
            _ => line_of(ts, (-INFINITE) as i32, t.alpha),
        },
        forall|m: Move| #[trigger] is_tried(ts.push(tr), m) <==> is_tried(ts, m) || m == tr.m,
        skips_quiets(sh, g, node, t, ts) ==> skips_quiets(sh, g, node, t, ts.push(tr)),
        is_judging(t, best_of(ts, (-INFINITE) as i32)) && ends_quiets(
            *sh.lmr,
            g.q,
            node,
            floor_of(ts, (-INFINITE) as i32, t.alpha),
            t.depth,
            number_of(ts.len() as int),
            tr.m,
        ) ==> skips_quiets(sh, g, node, t, ts.push(tr)),
        is_judging(t, best_of(ts, (-INFINITE) as i32)) && verdict_at(
            sh,
            g,
            node,
            t,
            floor_of(ts, (-INFINITE) as i32, t.alpha),
            ts.len() as int,
            tr,
        ) is Stop ==> skips_losing(sh, g, node, t, ts.push(tr)),
{
    lemma_one_more(ts, tr);
    let us = ts.push(tr);
    assert(us.last() == tr);
    assert(move_trial(
        sh,
        g,
        node,
        t,
        best_of(ts, (-INFINITE) as i32),
        floor_of(ts, (-INFINITE) as i32, t.alpha),
        ts.len() as int,
        tr,
    )) by {
        reveal(move_trial);
        reveal(reply_worth);
    }
    assert forall|i: int| 0 <= i < us.len() implies move_trial(
        sh,
        g,
        node,
        t,
        best_of(us.take(i), (-INFINITE) as i32),
        floor_of(us.take(i), (-INFINITE) as i32, t.alpha),
        i,
        #[trigger] us[i],
    ) by {
        assert(us.take(i) == ts.take(i));
        if i < ts.len() {
            assert(us[i] == ts[i]);
        }
    }
    reveal(skips_quiets);
    if skips_quiets(sh, g, node, t, ts) {
        let j = choose|j: int| 0 <= j < ts.len() && #[trigger] ends_quiets_at(sh, g, node, t, ts, j);
        assert(us.take(j) == ts.take(j) && us[j] == ts[j]);
        assert(ends_quiets_at(sh, g, node, t, us, j));
    }
    assert(us.take(ts.len() as int) == ts);
    if ends_quiets_at(sh, g, node, t, us, ts.len() as int) {
        assert(skips_quiets(sh, g, node, t, us));
    }
}

/// These trials have come to `best`, raised the window to `floor`, left `lead` in front,
/// and found `line`; these quiet moves and these captures and promotions did not cut.
#[verifier::opaque]
pub open spec fn is_run(
    sh: &Shared,
    g: Game,
    node: Node,
    t: Task,
    ts: Seq<Trial>,
    best: i32,
    floor: i32,
    lead: Move,
    quiets: Seq<Move>,
    captures: Seq<Move>,
    line: Seq<Move>,
) -> bool {
    &&& moves_ok(sh, g, node, t, ts)
    &&& best == best_of(ts, (-INFINITE) as i32)
    &&& floor == floor_of(ts, (-INFINITE) as i32, t.alpha)
    &&& is_tally(g.q, ts, t.beta, lead, quiets, captures)
    &&& t.pv ==> line == line_of(ts, (-INFINITE) as i32, t.alpha)
}

pub proof fn lemma_run_start(sh: &Shared, g: Game, node: Node, t: Task)
    ensures
        is_run(
            sh,
            g,
            node,
            t,
            Seq::empty(),
            (-INFINITE) as i32,
            t.alpha,
            Move::none(),
            Seq::empty(),
            Seq::empty(),
            Seq::empty(),
        ),
{
    reveal(is_run);
    lemma_tally_start(g.q, t.beta);
}

/// What a further trial adds.
pub open spec fn adds(
    sh: &Shared,
    g: Game,
    node: Node,
    t: Task,
    ts: Seq<Trial>,
    best: i32,
    floor: i32,
    tr: Trial,
) -> bool {
    &&& skips_quiets(sh, g, node, t, ts) ==> skips_quiets(sh, g, node, t, ts.push(tr))
    &&& is_judging(t, best) && ends_quiets(
        *sh.lmr,
        g.q,
        node,
        floor,
        t.depth,
        number_of(ts.len() as int),
        tr.m,
    ) ==> skips_quiets(sh, g, node, t, ts.push(tr))
    &&& is_judging(t, best) && verdict_at(sh, g, node, t, floor, ts.len() as int, tr) is Stop
        ==> skips_losing(sh, g, node, t, ts.push(tr))
}

/// A move that is left out.
pub proof fn lemma_run_left(
    sh: &Shared,
    g: Game,
    node: Node,
    t: Task,
    ts: Seq<Trial>,
    best: i32,
    floor: i32,
    lead: Move,
    quiets: Seq<Move>,
    captures: Seq<Move>,
    line: Seq<Move>,
    tr: Trial,
)
    requires
        is_run(sh, g, node, t, ts, best, floor, lead, quiets, captures, line),
        floor < t.beta,
        t.is_choice(g, tr.m),
        is_judging(t, best),
        match tr.outcome {
            Outcome::Scored(v) => false,
            Outcome::Worth(v) => v <= floor && (verdict_at(
                sh,
                g,
                node,
                t,
                floor,
                ts.len() as int,
                tr,
            ) == Verdict::Raise(v) || verdict_at(sh, g, node, t, floor, ts.len() as int, tr)
                == Verdict::Stop(v)),
            Outcome::Dropped => verdict_at(sh, g, node, t, floor, ts.len() as int, tr) is Skip,
        },
    ensures
        is_run(
            sh,
            g,
            node,
            t,
            ts.push(tr),
            match tr.outcome {
                Outcome::Worth(v) => greater(best, v),
                _ => best,
            },
            floor,
            lead,
            quiets,
            captures,
            line,
        ),
        adds(sh, g, node, t, ts, best, floor, tr),
{
    reveal(is_run);
    lemma_move_trial(sh, g, node, t, ts, tr);
    lemma_tally_other(g.q, ts, t.beta, lead, quiets, captures, tr);
}

/// A move that is searched.
pub proof fn lemma_run_scored(
    sh: &Shared,
    g: Game,
    node: Node,
    t: Task,
    ts: Seq<Trial>,
    best: i32,
    floor: i32,
    lead: Move,
    quiets: Seq<Move>,
    captures: Seq<Move>,
    line: Seq<Move>,
    tr: Trial,
    v: i32,
)
    requires
        is_run(sh, g, node, t, ts, best, floor, lead, quiets, captures, line),
        floor < t.beta,
        t.is_choice(g, tr.m),
        tr.outcome == Outcome::Scored(v),
        -SCORE_LIMIT <= v <= SCORE_LIMIT,
        is_judging(t, best) ==> verdict_at(sh, g, node, t, floor, ts.len() as int, tr) is Try,
        reply_worth(sh, g, node, t, ts.len() as int, floor, tr, v),
    ensures
        ({
            let failed = v < t.beta || v <= best;
            is_run(
                sh,
                g,
                node,
                t,
                ts.push(tr),
                greater(best, v),
                if v > best {
                    greater(floor, v)
                } else {
                    floor
                },
                if v > best {
                    tr.m
                } else {
                    lead
                },
                if failed && !is_noisy(g.q, tr.m) && quiets.len() < MAX_QUIETS_TRIED {
                    quiets.push(tr.m)
                } else {
                    quiets
                },
                if failed && is_noisy(g.q, tr.m) && captures.len() < MAX_CAPTURES_TRIED {
                    captures.push(tr.m)
                } else {
                    captures
                },
                if t.pv && v > best && v > floor {
                    seq![tr.m] + tr.line
                } else {
                    line
                },
            )
        }),
        adds(sh, g, node, t, ts, best, floor, tr),
{
    reveal(is_run);
    lemma_move_trial(sh, g, node, t, ts, tr);
    lemma_tally_scored(g.q, ts, t.beta, lead, quiets, captures, tr, v);
}

/// What the trials come to in the end.
pub proof fn lemma_run_end(
    sh: &Shared,
    g: Game,
    node: Node,
    t: Task,
    ts: Seq<Trial>,
    best: i32,
    floor: i32,
    lead: Move,
    quiets: Seq<Move>,
    captures: Seq<Move>,
    line: Seq<Move>,
)
    requires
        is_run(sh, g, node, t, ts, best, floor, lead, quiets, captures, line),
        floor < t.beta ==> all_searched(sh, g, node, t, ts),
        is_sorted(g, node, t, ts),
        is_steady(ts),
    ensures
        moves_tried(sh, g, node, Task { line, ..t }, ts),
        moves_worth(sh, g, node, Task { line, ..t }, t.comes_to(g, ts)),
        ts.len() > 0 ==> t.comes_to(g, ts) == best,
        lead == lead_of(ts, (-INFINITE) as i32),
        quiets == failed_of(g.q, ts, t.beta, true, MAX_QUIETS_TRIED as int),
        captures == failed_of(g.q, ts, t.beta, false, MAX_CAPTURES_TRIED as int),
{
    reveal(is_run);
    reveal(is_tally);
    lemma_moves_worth(sh, g, node, t, ts, line);
}

/// The tables are `h` now, and were `first` before the first trial.
#[verifier::opaque]
pub open spec fn is_steady_to(ts: Seq<Trial>, first: HistView, h: HistView) -> bool {
    &&& is_steady(ts)
    &&& ts.len() == 0 ==> h == first
    &&& ts.len() > 0 ==> ts[0].hist == first
    &&& ts.len() > 0 && !(ts.last().outcome is Scored) ==> h == ts.last().hist
}

pub proof fn lemma_steady_start(h: HistView)
    ensures
        is_steady_to(Seq::empty(), h, h),
{
    reveal(is_steady);
    reveal(is_steady_to);
}

pub proof fn lemma_steady_more(ts: Seq<Trial>, first: HistView, h: HistView, tr: Trial, next: HistView)
    requires
        is_steady_to(ts, first, h),
        tr.hist == h,
        tr.outcome is Scored || next == h,
    ensures
        is_steady_to(ts.push(tr), first, next),
{
    reveal(is_steady);
    reveal(is_steady_to);
    let us = ts.push(tr);
    assert(us.last() == tr);
    assert forall|i: int, j: int|
        0 <= i && j == i + 1 && j < us.len() && !((#[trigger] us[i]).outcome is Scored) implies (
    #[trigger] us[j]).hist == us[i].hist by {
        assert(us[i] == ts[i]);
        if j < ts.len() {
            assert(us[j] == ts[j]);
        } else {
            assert(ts[i] == ts.last());
        }
    }
}

pub proof fn lemma_steady_end(ts: Seq<Trial>, first: HistView, h: HistView)
    requires
        is_steady_to(ts, first, h),
    ensures
        is_steady(ts),
        ts.len() > 0 ==> ts[0].hist == first,
        ts.len() > 0 && !(ts.last().outcome is Scored) ==> h == ts.last().hist,
{
    reveal(is_steady_to);
}

/// The moves have come turn by turn, up to `top`.
#[verifier::opaque]
pub open spec fn is_sorted_to(g: Game, node: Node, t: Task, ts: Seq<Trial>, top: int) -> bool {
    is_sorted(g, node, t, ts) && (!node.in_check ==> forall|i: int|
        0 <= i < ts.len() ==> turn_of(g.q, g.stm, node.tt_move, (#[trigger] ts[i]).m) <= top)
}

pub proof fn lemma_sorted_start(g: Game, node: Node, t: Task, top: int)
    ensures
        is_sorted_to(g, node, t, Seq::empty(), top),
{
    reveal(is_sorted);
    reveal(is_sorted_to);
}

pub proof fn lemma_sorted_on(g: Game, node: Node, t: Task, ts: Seq<Trial>, top: int, next: int)
    requires
        is_sorted_to(g, node, t, ts, top),
        !node.in_check ==> top <= next,
    ensures
        is_sorted_to(g, node, t, ts, next),
{
    reveal(is_sorted_to);
}

pub proof fn lemma_sorted_more(g: Game, node: Node, t: Task, ts: Seq<Trial>, top: int, tr: Trial)
    requires
        is_sorted_to(g, node, t, ts, top),
        !node.in_check ==> turn_of(g.q, g.stm, node.tt_move, tr.m) == top,
        ts.len() == 0 && t.is_choice(g, node.tt_move) ==> tr.m == node.tt_move,
    ensures
        is_sorted_to(g, node, t, ts.push(tr), top),
{
    reveal(is_sorted);
    reveal(is_sorted_to);
    let us = ts.push(tr);
    assert forall|i: int| 0 <= i < ts.len() implies #[trigger] us[i] == ts[i] by {}
}

pub proof fn lemma_sorted_end(g: Game, node: Node, t: Task, ts: Seq<Trial>, top: int)
    requires
        is_sorted_to(g, node, t, ts, top),
    ensures
        is_sorted(g, node, t, ts),
{
    reveal(is_sorted_to);
}

/// Every choice is still to come, was tried, or is a quiet move that is skipped; or it is
/// `x`.
#[verifier::opaque]
pub open spec fn covers(
    p: MovePicker,
    b: &Board,
    skip: bool,
    g: Game,
    t: Task,
    ts: Seq<Trial>,
    x: Option<Move>,
) -> bool {
    forall|m: Move| #[trigger]
        t.is_choice(g, m) ==> p.to_come(b, skip, m) || is_tried(ts, m) || (!is_noisy(g.q, m) && skip)
            || x == Some(m)
}

/// The move that was handed out is tried.
pub proof fn lemma_covers_tried(
    p: MovePicker,
    b: &Board,
    skip: bool,
    g: Game,
    t: Task,
    ts: Seq<Trial>,
    x: Move,
    tr: Trial,
)
    requires
        covers(p, b, skip, g, t, ts, Some(x)),
        tr.m == x,
    ensures
        covers(p, b, skip, g, t, ts.push(tr), None),
{
    reveal(covers);
    lemma_one_more(ts, tr);
}

/// It is none to try.
pub proof fn lemma_covers_passed(
    p: MovePicker,
    b: &Board,
    skip: bool,
    g: Game,
    t: Task,
    ts: Seq<Trial>,
    x: Move,
)
    requires
        covers(p, b, skip, g, t, ts, Some(x)),
        !t.is_choice(g, x),
    ensures
        covers(p, b, skip, g, t, ts, None),
{
    reveal(covers);
}

pub proof fn lemma_extends_tested(sh: &Shared, g: Game, node: Node, t: Task, w: i32, e: i32)
    requires
        t.extends(),
        t.is_tested(node, node.tt_move),
        t.extends_after(node, w, e),
        search_worth(sh, g, t.without(node, node.tt_move, t.lowered(node)), w),
    ensures
        extends_by(sh, g, node, t, node.tt_move, e),
{
    reveal(extends_by);
    reveal(search_worth);
}

pub proof fn lemma_extends(sh: &Shared, g: Game, node: Node, t: Task, m: Move, e: i32)
    requires
        !(t.extends() && t.is_tested(node, m)),
        e == if t.extends() && checks(g.q, g.stm, m) && t.depth > 5 {
            1
        } else {
            0int
        },
    ensures
        extends_by(sh, g, node, t, m, e),
{
    reveal(extends_by);
}

pub proof fn lemma_reply(
    sh: &Shared,
    g: Game,
    node: Node,
    t: Task,
    i: int,
    floor: i32,
    tr: Trial,
    v: i32,
    e: i32,
    s1: i32,
    s2: i32,
)
    requires
        t.ply < 246,
        is_staged(e, s1, s2),
        extends_by(sh, g, node, t, tr.m, e),
        ({
            let late = t.is_late(g, node, i, tr.m);
            let deep = t.depth - 1 + e;
            let shallow = t.late_depth(*sh.lmr, g, node, i, tr, deep);
            &&& t.ends_with(late, shallow, deep, i, floor, s1, s2, v)
            &&& late ==> search_worth(
                sh,
                g.after(tr.m),
                t.reply(g, node, tr.m, -floor - 1, -floor, shallow, false, true, Seq::empty()),
                (-s1) as i32,
            )
            &&& t.goes_deep(late, shallow, deep, i, floor, s1) ==> search_worth(
                sh,
                g.after(tr.m),
                t.reply(g, node, tr.m, -floor - 1, -floor, deep, false, !t.cut_node, Seq::empty()),
                (-s2) as i32,
            )
            &&& t.opens(late, shallow, deep, i, floor, s1, s2) ==> search_worth(
                sh,
                g.after(tr.m),
                t.reply(g, node, tr.m, -t.beta, -floor, deep, true, false, tr.line),
                (-v) as i32,
            )
        }),
    ensures
        reply_worth(sh, g, node, t, i, floor, tr, v),
{
    reveal(reply_worth);
    reveal(search_worth);
    reveal(extends_by);
}

// -- laws ----------------------------------------------------------------------------

/// Law: quiescence takes a draw for a draw.
pub proof fn a_quiet_draw_is_a_draw(
    sh: &Shared,
    g: Game,
    alpha: i32,
    beta: i32,
    ply: usize,
    pv: bool,
    r: i32,
    line: Seq<Move>,
)
    requires
        quiet_worth(sh, g, alpha, beta, ply, pv, r, line),
        ply < 246,
        g.drawn(ply as int),
    ensures
        r == DRAW,
{
    reveal(quiet_worth);
}

/// Law: a search takes a draw for a draw.
pub proof fn a_draw_is_a_draw(sh: &Shared, g: Game, t: Task, r: i32)
    requires
        search_worth(sh, g, t, r),
        0 < t.ply < 246,
        g.drawn(t.ply as int),
    ensures
        r == DRAW,
{
    reveal(search_worth);
    if t.depth <= 0 {
        a_quiet_draw_is_a_draw(sh, g, t.alpha, t.beta, t.ply, t.pv, r, t.line);
    }
}

/// Nobody who is mated has a move to try.
proof fn lemma_mated_tries_nothing(
    sh: &Shared,
    g: Game,
    best: i32,
    floor: i32,
    beta: i32,
    ply: usize,
    pv: bool,
    ts: Seq<Trial>,
)
    requires
        quiet_tried(sh, g, best, floor, beta, ply, pv, ts),
        g.mated(),
    ensures
        ts.len() == 0,
{
    reveal(quiet_tried);
    reveal(quiet_trial);
    if ts.len() > 0 {
        assert(!g.allows(ts[0].m));
    }
}

/// Law: quiescence sees a mate, in a variation or where nothing is stored.
pub proof fn a_quiet_mate_is_seen(
    sh: &Shared,
    g: Game,
    alpha: i32,
    beta: i32,
    ply: usize,
    pv: bool,
    r: i32,
    line: Seq<Move>,
)
    requires
        quiet_worth(sh, g, alpha, beta, ply, pv, r, line),
        ply < 246,
        !g.drawn(ply as int),
        g.mated(),
        pv || sh.tt.has_nothing(g.key()),
    ensures
        r == mated_in(ply),
{
    reveal(quiet_worth);
    reveal(quiet_found);
    reveal(quiet_tried);
    let hit = choose|hit: Option<Hit>| #[trigger]
        sh.tt.may_find(g.key(), hit) && quiet_found(sh, g, hit, alpha, beta, ply, pv, r, line);
    let ts = choose|ts: Seq<Trial>|
        quiet_tried(sh, g, (-INFINITE) as i32, alpha, beta, ply, pv, ts) && r
            == #[trigger] evasions_worth(ply, ts) && (pv ==> line == line_of(
            ts,
            (-INFINITE) as i32,
            alpha,
        ));
    lemma_mated_tries_nothing(sh, g, (-INFINITE) as i32, alpha, beta, ply, pv, ts);
}

/// Law: a search sees a mate, in a variation or where nothing is stored, unless no
/// line from there can beat a mate found closer to the root.
pub proof fn a_mate_is_seen(sh: &Shared, g: Game, t: Task, r: i32)
    requires
        search_worth(sh, g, t, r),
        0 < t.ply < 246,
        !g.drawn(t.ply as int),
        g.mated(),
        t.excluded == Move::none(),
        t.pv || sh.tt.has_nothing(g.key()),
        t.alpha < t.beta,
    ensures
        r == mated_in(t.ply) || (t.alpha >= mate_in((t.ply + 1) as usize) && r == t.alpha),
{
    if t.depth <= 0 {
        reveal(search_worth);
        a_quiet_mate_is_seen(sh, g, t.alpha, t.beta, t.ply, t.pv, r, t.line);
    } else {
        let low = greater(t.alpha, mated_in(t.ply));
        let high = lesser(t.beta, mate_in((t.ply + 1) as usize));
        if low < high {
            let u = Task { alpha: low, beta: high, ..t };
            let hit = lemma_search_sees(sh, g, t, r);
            assert(t.pv || hit is None);
            let node = lemma_node_in_check(sh, g, hit, u, r);
            let d = iir_depth(u, node);
            if d <= 0 {
                a_quiet_mate_is_seen(sh, g, low, high, t.ply, t.pv, r, t.line);
            } else {
                lemma_mated_moves(sh, g, node, Task { depth: d, ..u }, r);
            }
        } else {
            reveal(search_worth);
        }
    }
}

/// What the table says to a node that is not decided before it is asked.
proof fn lemma_search_sees(sh: &Shared, g: Game, t: Task, r: i32) -> (hit: Option<Hit>)
    requires
        search_worth(sh, g, t, r),
        t.depth > 0,
        t.ply < 246,
        t.ply > 0 ==> !g.drawn(t.ply as int) && greater(t.alpha, mated_in(t.ply)) < lesser(
            t.beta,
            mate_in((t.ply + 1) as usize),
        ),
        t.ply == 0 ==> t.alpha < t.beta,
    ensures
        may_see(sh, g, t.excluded, hit),
        node_worth(
            sh,
            g,
            hit,
            if t.ply > 0 {
                Task {
                    alpha: greater(t.alpha, mated_in(t.ply)),
                    beta: lesser(t.beta, mate_in((t.ply + 1) as usize)),
                    ..t
                }
            } else {
                t
            },
            r,
        ),
{
    reveal(search_worth);
    reveal(node_worth);
    let u = if t.ply > 0 {
        Task {
            alpha: greater(t.alpha, mated_in(t.ply)),
            beta: lesser(t.beta, mate_in((t.ply + 1) as usize)),
            ..t
        }
    } else {
        t
    };
    assert(t.ply == 0 ==> (Task { alpha: t.alpha, beta: t.beta, ..t }) == t);
    choose|hit: Option<Hit>| #[trigger]
        may_see(sh, g, t.excluded, hit) && node_worth(sh, g, hit, u, r)
}

/// A node in check, or in a variation, is pruned by no rule.
proof fn lemma_node_in_check(sh: &Shared, g: Game, hit: Option<Hit>, t: Task, r: i32) -> (node: Node)
    requires
        node_worth(sh, g, hit, t, r),
        t.pv || (g.in_check() && hit is None),
    ensures
        is_node_at(sh, g, hit, t, node),
        if iir_depth(t, node) <= 0 {
            quiet_worth(sh, g, t.alpha, t.beta, t.ply, t.pv, r, t.line)
        } else {
            moves_worth(sh, g, node, Task { depth: iir_depth(t, node), ..t }, r)
        },
{
    reveal(node_worth);
    reveal(moves_worth);
    choose|node: Node| #[trigger]
        is_node_at(sh, g, hit, t, node) && if iir_depth(t, node) <= 0 {
            quiet_worth(sh, g, t.alpha, t.beta, t.ply, t.pv, r, t.line)
        } else {
            moves_worth(sh, g, node, Task { depth: iir_depth(t, node), ..t }, r)
        }
}

proof fn lemma_mated_moves(sh: &Shared, g: Game, node: Node, t: Task, r: i32)
    requires
        moves_worth(sh, g, node, t, r),
        g.mated(),
        t.excluded == Move::none(),
    ensures
        r == mated_in(t.ply),
{
    reveal(moves_worth);
    reveal(moves_tried);
    reveal(cut_by_many);
    if !(t.ply > 0 && cut_by_many(sh, g, node, t, r)) {
        let ts = choose|ts: Seq<Trial>|
            moves_tried(sh, g, node, t, ts) && r == #[trigger] t.comes_to(g, ts);
        if ts.len() > 0 {
            reveal(move_trial);
            assert(t.is_choice(g, ts[0].m));
        }
    }
}

/// Law: quiescence misses no way out of a check: an evasion that draws is worth a
/// draw at least.
pub proof fn no_escape_is_missed(
    sh: &Shared,
    g: Game,
    hit: Option<Hit>,
    alpha: i32,
    beta: i32,
    ply: usize,
    pv: bool,
    r: i32,
    line: Seq<Move>,
    m: Move,
)
    requires
        quiet_found(sh, g, hit, alpha, beta, ply, pv, r, line),
        pv || !is_decided(hit, alpha, beta, ply as int),
        g.in_check(),
        g.allows(m),
        m.compact(),
        ply < 245,
        alpha < beta,
        g.after(m).drawn(ply + 1),
    ensures
        r >= DRAW || r >= beta,
{
    let ts = lemma_evasions(sh, g, hit, alpha, beta, ply, pv, r, line);
    lemma_floor(ts, (-INFINITE) as i32, alpha);
    if floor_of(ts, (-INFINITE) as i32, alpha) < beta {
        let (i, v) = lemma_evasion(sh, g, alpha, beta, ply, pv, ts, m);
        a_quiet_draw_is_a_draw(
            sh,
            g.after(m),
            (-beta) as i32,
            (-floor_of(ts.take(i), (-INFINITE) as i32, alpha)) as i32,
            (ply + 1) as usize,
            pv,
            (-v) as i32,
            ts[i].line,
        );
        lemma_best(ts, (-INFINITE) as i32, i);
    }
}

/// Law: in a variation quiescence misses no evasion that mates.
pub proof fn no_mating_evasion_is_missed(
    sh: &Shared,
    g: Game,
    hit: Option<Hit>,
    alpha: i32,
    beta: i32,
    ply: usize,
    r: i32,
    line: Seq<Move>,
    m: Move,
)
    requires
        quiet_found(sh, g, hit, alpha, beta, ply, true, r, line),
        g.in_check(),
        g.allows(m),
        m.compact(),
        ply < 245,
        alpha < beta,
        g.after(m).mated(),
        !g.after(m).drawn(ply + 1),
    ensures
        r >= mate_in((ply + 1) as usize) || r >= beta,
{
    let ts = lemma_evasions(sh, g, hit, alpha, beta, ply, true, r, line);
    lemma_floor(ts, (-INFINITE) as i32, alpha);
    if floor_of(ts, (-INFINITE) as i32, alpha) < beta {
        let (i, v) = lemma_evasion(sh, g, alpha, beta, ply, true, ts, m);
        a_quiet_mate_is_seen(
            sh,
            g.after(m),
            (-beta) as i32,
            (-floor_of(ts.take(i), (-INFINITE) as i32, alpha)) as i32,
            (ply + 1) as usize,
            true,
            (-v) as i32,
            ts[i].line,
        );
        lemma_best(ts, (-INFINITE) as i32, i);
    }
}

/// The evasions that were tried.
proof fn lemma_evasions(
    sh: &Shared,
    g: Game,
    hit: Option<Hit>,
    alpha: i32,
    beta: i32,
    ply: usize,
    pv: bool,
    r: i32,
    line: Seq<Move>,
) -> (ts: Seq<Trial>)
    requires
        quiet_found(sh, g, hit, alpha, beta, ply, pv, r, line),
        pv || !is_decided(hit, alpha, beta, ply as int),
        g.in_check(),
    ensures
        quiet_tried(sh, g, (-INFINITE) as i32, alpha, beta, ply, pv, ts),
        r == if ts.len() == 0 {
            mated_in(ply)
        } else {
            best_of(ts, (-INFINITE) as i32)
        },
{
    reveal(quiet_found);
    reveal(quiet_tried);
    choose|ts: Seq<Trial>|
        quiet_tried(sh, g, (-INFINITE) as i32, alpha, beta, ply, pv, ts) && r
            == #[trigger] evasions_worth(ply, ts) && (pv ==> line == line_of(
            ts,
            (-INFINITE) as i32,
            alpha,
        ))
}

/// One of them, and its score.
proof fn lemma_evasion(
    sh: &Shared,
    g: Game,
    alpha: i32,
    beta: i32,
    ply: usize,
    pv: bool,
    ts: Seq<Trial>,
    m: Move,
) -> (r: (int, i32))
    requires
        quiet_tried(sh, g, (-INFINITE) as i32, alpha, beta, ply, pv, ts),
        floor_of(ts, (-INFINITE) as i32, alpha) < beta,
        g.in_check(),
        g.allows(m),
        m.compact(),
    ensures
        0 <= r.0 < ts.len(),
        ts[r.0].outcome == Outcome::Scored(r.1),
        -SCORE_LIMIT <= r.1 <= SCORE_LIMIT,
        quiet_worth(
            sh,
            g.after(m),
            (-beta) as i32,
            (-floor_of(ts.take(r.0), (-INFINITE) as i32, alpha)) as i32,
            (ply + 1) as usize,
            pv,
            (-r.1) as i32,
            ts[r.0].line,
        ),
{
    reveal(quiet_tried);
    reveal(quiet_trial);
    reveal(quiet_worth);
    assert(is_wanted_quiet(g, m));
    assert(is_tried(ts, m));
    let i = choose|i: int| 0 <= i < ts.len() && (#[trigger] ts[i]).m == m;
    (i, ts[i].outcome->Scored_0)
}

/// Law: a search of the root that does not reach beta has searched every move that
/// is neither left out nor claimed, and its score is the best of theirs.
pub proof fn the_root_tries_every_move(sh: &Shared, g: Game, t: Task, r: i32) -> (x: (Node, Seq<Trial>))
    requires
        search_worth(sh, g, t, r),
        t.ply == 0,
        t.pv,
        t.depth > 0,
        t.alpha < t.beta,
        g.has_room(),
    ensures
        moves_tried(sh, g, x.0, t, x.1),
        r == t.comes_to(g, x.1),
        forall|i: int| 0 <= i < x.1.len() ==> (#[trigger] x.1[i]).outcome is Scored,
        r < t.beta ==> forall|m: Move| #[trigger] t.is_choice(g, m) ==> is_tried(x.1, m),
{
    let hit = lemma_search_sees(sh, g, t, r);
    let node = lemma_node_in_check(sh, g, hit, t, r);
    assert(Task { depth: iir_depth(t, node), ..t } == t);
    reveal(moves_worth);
    reveal(moves_tried);
    reveal(skips_quiets);
    let ts = choose|ts: Seq<Trial>|
        moves_tried(sh, g, node, t, ts) && r == #[trigger] t.comes_to(g, ts);
    assert forall|i: int| 0 <= i < ts.len() implies (#[trigger] ts[i]).outcome is Scored by {
        reveal(move_trial);
    }
    lemma_floor(ts, (-INFINITE) as i32, t.alpha);
    if r < t.beta && ts.len() > 0 {
        assert(floor_of(ts, (-INFINITE) as i32, t.alpha) < t.beta);
    }
    (node, ts)
}

/// The line that trials leave begins with the move in front, where that raises the
/// window.
pub proof fn lemma_line_leads(ts: Seq<Trial>, best: i32, floor: i32)
    requires
        best <= floor || floor < best_of(ts, best) && best < best_of(ts, best),
        forall|i: int| 0 <= i < ts.len() ==> match (#[trigger] ts[i]).outcome {
            Outcome::Worth(v) => v <= floor_of(ts.take(i), best, floor),
            _ => true,
        },
    ensures
        best_of(ts, best) > floor && best_of(ts, best) > best ==> line_of(ts, best, floor).len() > 0
            && line_of(ts, best, floor)[0] == lead_of(ts, best) && floor_of(ts, best, floor)
            == best_of(ts, best),
        best_of(ts, best) <= floor ==> line_of(ts, best, floor).len() == 0 && floor_of(
            ts,
            best,
            floor,
        ) == floor,
    decreases ts.len(),
{
    if ts.len() > 0 {
        let us = ts.drop_last();
        assert forall|i: int| 0 <= i < us.len() implies match (#[trigger] us[i]).outcome {
            Outcome::Worth(v) => v <= floor_of(us.take(i), best, floor),
            _ => true,
        } by {
            assert(us[i] == ts[i]);
            assert(us.take(i) =~= ts.take(i));
        }
        assert(ts.take(ts.len() - 1) =~= us);
        assert(ts[ts.len() - 1] == ts.last());
        lemma_floor(us, best, floor);
        if best <= floor || (floor < best_of(us, best) && best < best_of(us, best)) {
            lemma_line_leads(us, best, floor);
        }
    }
}

/// Law: a search of the root that beats alpha finds the line that begins with the move
/// that its trials leave in front.
pub proof fn the_root_leads_with_its_best_move(sh: &Shared, g: Game, t: Task, r: i32) -> (x: (Node, Seq<Trial>))
    requires
        search_worth(sh, g, t, r),
        t.ply == 0,
        t.pv,
        t.depth > 0,
        -INFINITE <= t.alpha < t.beta,
        r > t.alpha,
    ensures
        moves_tried(sh, g, x.0, t, x.1),
        r == t.comes_to(g, x.1),
        x.1.len() > 0 ==> t.line.len() > 0 && t.line[0] == lead_of(x.1, (-INFINITE) as i32),
{
    let hit = lemma_search_sees(sh, g, t, r);
    let node = lemma_node_in_check(sh, g, hit, t, r);
    assert(Task { depth: iir_depth(t, node), ..t } == t);
    reveal(moves_worth);
    reveal(moves_tried);
    let ts = choose|ts: Seq<Trial>|
        moves_tried(sh, g, node, t, ts) && r == #[trigger] t.comes_to(g, ts);
    assert forall|i: int| 0 <= i < ts.len() implies (#[trigger] ts[i]).outcome is Scored by {
        reveal(move_trial);
    }
    lemma_line_leads(ts, (-INFINITE) as i32, t.alpha);
    (node, ts)
}

/// The trial that a line comes from.
proof fn lemma_line_from(ts: Seq<Trial>, best: i32, floor: i32) -> (x: (int, i32))
    requires
        line_of(ts, best, floor).len() > 0,
    ensures
        0 <= x.0 < ts.len(),
        ts[x.0].outcome == Outcome::Scored(x.1),
        x.1 > floor_of(ts.take(x.0), best, floor),
        line_of(ts, best, floor) == seq![ts[x.0].m] + ts[x.0].line,
    decreases ts.len(),
{
    let n = ts.len() - 1;
    let us = ts.drop_last();
    assert(ts.take(n) =~= us);
    assert(ts[n] == ts.last());
    if line_of(ts, best, floor) == line_of(us, best, floor) && line_of(us, best, floor).len() > 0
        && !(ts.last().outcome matches Outcome::Scored(v) && v > best_of(us, best) && v > floor_of(
        us,
        best,
        floor,
    )) {
        let x = lemma_line_from(us, best, floor);
        assert(us[x.0] == ts[x.0]);
        assert(us.take(x.0) =~= ts.take(x.0));
        x
    } else {
        (n, ts[n].outcome->Scored_0)
    }
}

/// Law: a variation is a move that was tried, followed by the variation that the search of
/// its reply found.
pub proof fn a_line_goes_on_with_its_reply(sh: &Shared, g: Game, node: Node, t: Task, ts: Seq<Trial>) -> (x: (
    int,
    Task,
))
    requires
        moves_tried(sh, g, node, t, ts),
        t.pv,
        t.line.len() > 0,
    ensures
        0 <= x.0 < ts.len(),
        t.line == seq![ts[x.0].m] + x.1.line,
        x.1.pv,
        x.1.ply == t.ply + 1,
        ts[x.0].outcome matches Outcome::Scored(v) && search_worth(
            sh,
            g.after(ts[x.0].m),
            x.1,
            (-v) as i32,
        ),
{
    assert(t.line == line_of(ts, (-INFINITE) as i32, t.alpha)) by {
        reveal(moves_tried);
        reveal(move_trial);
    }
    let (i, v) = lemma_line_from(ts, (-INFINITE) as i32, t.alpha);
    lemma_move_at(sh, g, node, t, ts, i);
    let u = lemma_reply_task(
        sh,
        g,
        node,
        t,
        i,
        floor_of(ts.take(i), (-INFINITE) as i32, t.alpha),
        ts[i],
        v,
    );
    (i, u)
}

/// Law: at any depth a node whose moves do not reach beta has left out no capture or
/// promotion that loses nothing.
pub proof fn no_sound_capture_is_left_out(
    sh: &Shared,
    g: Game,
    node: Node,
    t: Task,
    r: i32,
    m: Move,
) -> (ts: Seq<Trial>)
    requires
        moves_worth(sh, g, node, t, r),
        r < t.beta,
        t.alpha < t.beta,
        t.depth > 0,
        g.has_room(),
        t.is_choice(g, m),
        is_noisy(g.q, m),
        see(g.q, g.stm, m) >= 0,
    ensures
        moves_tried(sh, g, node, t, ts),
        r == t.comes_to(g, ts),
        exists|i: int| 0 <= i < ts.len() && (#[trigger] ts[i]).m == m && !(ts[i].outcome is Dropped),
{
    reveal(moves_worth);
    reveal(moves_tried);
    reveal(cut_by_many);
    let ts = choose|ts: Seq<Trial>|
        moves_tried(sh, g, node, t, ts) && r == #[trigger] t.comes_to(g, ts);
    lemma_floor(ts, (-INFINITE) as i32, t.alpha);
    if ts.len() > 0 {
        assert(floor_of(ts, (-INFINITE) as i32, t.alpha) < t.beta);
    }
    assert(is_tried(ts, m));
    let i = choose|i: int| 0 <= i < ts.len() && (#[trigger] ts[i]).m == m;
    assert(!(ts[i].outcome is Dropped)) by {
        reveal(move_trial);
        reveal(judged);
    }
    ts
}

/// The reply to a root move that was tried.
proof fn lemma_root_reply(sh: &Shared, g: Game, node: Node, t: Task, ts: Seq<Trial>, m: Move) -> (r: (int, i32))
    requires
        moves_tried(sh, g, node, t, ts),
        t.ply == 0,
        is_tried(ts, m),
    ensures
        0 <= r.0 < ts.len(),
        ts[r.0].m == m,
        ts[r.0].outcome == Outcome::Scored(r.1),
        -SCORE_LIMIT <= r.1 <= SCORE_LIMIT,
        reply_worth(
            sh,
            g,
            node,
            t,
            r.0,
            floor_of(ts.take(r.0), (-INFINITE) as i32, t.alpha),
            ts[r.0],
            r.1,
        ),
        floor_of(ts.take(r.0), (-INFINITE) as i32, t.alpha) < t.beta,
{
    reveal(moves_tried);
    reveal(move_trial);
    reveal(reply_worth);
    let i = choose|i: int| 0 <= i < ts.len() && (#[trigger] ts[i]).m == m;
    (i, ts[i].outcome->Scored_0)
}

/// Law: a search of the root misses no move that draws at once.
pub proof fn the_root_misses_no_draw(sh: &Shared, g: Game, t: Task, r: i32, m: Move)
    requires
        search_worth(sh, g, t, r),
        t.ply == 0,
        t.pv,
        t.depth > 0,
        t.alpha < t.beta,
        g.has_room(),
        t.is_choice(g, m),
        g.after(m).drawn(1),
    ensures
        r >= DRAW || r >= t.beta,
{
    let (node, ts) = the_root_tries_every_move(sh, g, t, r);
    if r < t.beta {
        let (i, v) = lemma_root_reply(sh, g, node, t, ts, m);
        let floor = floor_of(ts.take(i), (-INFINITE) as i32, t.alpha);
        let u = lemma_reply_task(sh, g, node, t, i, floor, ts[i], v);
        a_draw_is_a_draw(sh, g.after(m), u, (-v) as i32);
        lemma_best(ts, (-INFINITE) as i32, i);
    }
}

/// The task that a reply was.
proof fn lemma_reply_task(
    sh: &Shared,
    g: Game,
    node: Node,
    t: Task,
    i: int,
    floor: i32,
    tr: Trial,
    v: i32,
) -> (u: Task)
    requires
        reply_worth(sh, g, node, t, i, floor, tr, v),
        0 <= i,
    ensures
        search_worth(sh, g.after(tr.m), u, (-v) as i32),
        t.ply < 246,
        u.ply == t.ply + 1,
        u.excluded == Move::none(),
        u.beta == (-floor) as i32,
        u.alpha == if u.pv {
            (-t.beta) as i32
        } else {
            (-floor - 1) as i32
        },
        t.pv && (i == 0 || v > floor) ==> u.pv,
        u.pv ==> u.line == tr.line,
{
    let late = t.is_late(g, node, i, tr.m);
    let (e, s1, s2) = lemma_stages(sh, g, node, t, i, floor, tr, v);
    let deep = t.depth - 1 + e;
    let shallow = t.late_depth(*sh.lmr, g, node, i, tr, deep);
    if t.opens(late, shallow, deep, i, floor, s1, s2) {
        t.reply(g, node, tr.m, -t.beta, -floor, deep, true, false, tr.line)
    } else if t.goes_deep(late, shallow, deep, i, floor, s1) {
        t.reply(g, node, tr.m, -floor - 1, -floor, deep, false, !t.cut_node, Seq::empty())
    } else {
        t.reply(g, node, tr.m, -floor - 1, -floor, shallow, false, true, Seq::empty())
    }
}

/// Law: a search of the root misses no mate in one, where nothing is stored of the
/// position that it leads to.
pub proof fn the_root_misses_no_mate(sh: &Shared, g: Game, t: Task, r: i32, m: Move)
    requires
        search_worth(sh, g, t, r),
        t.ply == 0,
        t.pv,
        t.depth > 0,
        -INFINITE <= t.alpha < t.beta <= INFINITE,
        g.has_room(),
        t.is_choice(g, m),
        g.after(m).mated(),
        !g.after(m).drawn(1),
        sh.tt.has_nothing(g.after(m).key()),
    ensures
        r >= mate_in(1) || r >= t.beta,
{
    let (node, ts) = the_root_tries_every_move(sh, g, t, r);
    if r < t.beta {
        let (i, v) = lemma_root_reply(sh, g, node, t, ts, m);
        let floor = floor_of(ts.take(i), (-INFINITE) as i32, t.alpha);
        let u = lemma_reply_task(sh, g, node, t, i, floor, ts[i], v);
        lemma_floor(ts.take(i), (-INFINITE) as i32, t.alpha);
        a_mate_is_seen(sh, g.after(m), u, (-v) as i32);
        lemma_best(ts, (-INFINITE) as i32, i);
    }
}

/// Law: a reply that draws scores a draw.
pub proof fn a_drawing_reply_is_a_draw(
    sh: &Shared,
    g: Game,
    node: Node,
    t: Task,
    i: int,
    floor: i32,
    tr: Trial,
    v: i32,
)
    requires
        reply_worth(sh, g, node, t, i, floor, tr, v),
        0 <= i,
        -SCORE_LIMIT <= v <= SCORE_LIMIT,
        t.ply < 245,
        g.after(tr.m).drawn(t.ply + 1),
    ensures
        v == DRAW,
{
    let u = lemma_reply_task(sh, g, node, t, i, floor, tr, v);
    a_draw_is_a_draw(sh, g.after(tr.m), u, (-v) as i32);
}

/// Law: in a variation the first move scores a mate if it mates.
pub proof fn a_mating_reply_is_a_mate(
    sh: &Shared,
    g: Game,
    node: Node,
    t: Task,
    floor: i32,
    tr: Trial,
    v: i32,
)
    requires
        reply_worth(sh, g, node, t, 0, floor, tr, v),
        -SCORE_LIMIT <= v <= SCORE_LIMIT,
        t.ply < 245,
        t.pv,
        floor < t.beta,
        -SCORE_LIMIT <= floor,
        t.beta <= SCORE_LIMIT,
        -t.beta < mate_in((t.ply + 2) as usize),
        g.after(tr.m).mated(),
        !g.after(tr.m).drawn(t.ply + 1),
    ensures
        v == mate_in((t.ply + 1) as usize),
{
    let u = lemma_reply_task(sh, g, node, t, 0, floor, tr, v);
    a_mate_is_seen(sh, g.after(tr.m), u, (-v) as i32);
}

// -- the range of scores -------------------------------------------------------------

/// Every score in the table lies between being mated and mating.
pub open spec fn is_sane(sh: &Shared) -> bool {
    forall|key: u64, hit: Option<Hit>| #[trigger]
        sh.tt.may_find(key, hit) ==> (hit matches Some(h) ==> h.bound == BOUND_NONE || -32000
            <= h.score <= 32000)
}

/// A score between being mated and mating.
pub open spec fn is_score(r: int) -> bool {
    -32000 <= r <= 32000
}

/// A window of scores.
pub open spec fn is_window(alpha: i32, beta: i32) -> bool {
    -32001 <= alpha < beta <= 32001
}

proof fn lemma_stand_range(sh: &Shared, g: Game, hit: Option<Hit>, ply: usize, e: i32)
    requires
        is_sane(sh),
        sh.tt.may_find(g.key(), hit),
        ply < 246,
    ensures
        is_stand(sh, g, hit, ply, e) ==> is_score(e as int),
{
    assert forall|s: i32| #[trigger] is_static(sh, g, hit, s) implies -31753 <= s <= 31753 by {}
}

/// Scored replies and limited raises keep the best score in range.
proof fn lemma_best_range(ts: Seq<Trial>, start: i32, beta: i32)
    requires
        beta <= 32001,
        start <= 32000,
        forall|i: int| 0 <= i < ts.len() ==> match (#[trigger] ts[i]).outcome {
            Outcome::Scored(v) => is_score(v as int),
            Outcome::Worth(v) => v < beta,
            Outcome::Dropped => true,
        },
    ensures
        best_of(ts, start) <= 32000,
        best_of(ts, start) >= start,
        ts.len() > 0 && ts[0].outcome is Scored ==> best_of(ts, start) >= -32000,
    decreases ts.len(),
{
    if ts.len() > 0 {
        let u = ts.drop_last();
        assert forall|i: int| 0 <= i < u.len() implies match (#[trigger] u[i]).outcome {
            Outcome::Scored(v) => is_score(v as int),
            Outcome::Worth(v) => v < beta,
            Outcome::Dropped => true,
        } by {
            assert(u[i] == ts[i]);
        }
        lemma_best_range(u, start, beta);
        assert(ts[ts.len() - 1] == ts.last());
        if u.len() > 0 {
            assert(u[0] == ts[0]);
        }
    }
}

/// Law: where the table holds scores between being mated and mating only, so does
/// quiescence find.
pub proof fn quiet_scores_stay_in_range(
    sh: &Shared,
    g: Game,
    alpha: i32,
    beta: i32,
    ply: usize,
    pv: bool,
    r: i32,
    line: Seq<Move>,
)
    requires
        is_sane(sh),
        quiet_worth(sh, g, alpha, beta, ply, pv, r, line),
        is_window(alpha, beta),
        ply <= 246,
    ensures
        is_score(r as int),
    decreases 247 - ply, 1int,
{
    if ply >= 246 || g.drawn(ply as int) {
        reveal(quiet_worth);
    } else {
        let hit = lemma_quiet_sees(sh, g, alpha, beta, ply, pv, r, line);
        if !pv && is_decided(hit, alpha, beta, ply as int) {
            reveal(quiet_found);
        } else if g.in_check() {
            let ts = lemma_evasions(sh, g, hit, alpha, beta, ply, pv, r, line);
            lemma_quiet_trials_range(sh, g, (-INFINITE) as i32, alpha, beta, ply, pv, ts);
            lemma_best_range(ts, (-INFINITE) as i32, beta);
        } else {
            let (stand, ts) = lemma_quiet_stand(sh, g, hit, alpha, beta, ply, pv, r, line);
            lemma_stand_range(sh, g, hit, ply, stand);
            if stand < beta {
                lemma_quiet_trials_range(
                    sh,
                    g,
                    stand,
                    greater(alpha, stand),
                    beta,
                    ply,
                    pv,
                    ts,
                );
                lemma_best_range(ts, stand, beta);
            }
        }
    }
}

proof fn lemma_quiet_sees(sh: &Shared, g: Game, alpha: i32, beta: i32, ply: usize, pv: bool, r: i32, line: Seq<Move>) -> (hit: Option<
    Hit,
>)
    requires
        quiet_worth(sh, g, alpha, beta, ply, pv, r, line),
        ply < 246,
        !g.drawn(ply as int),
    ensures
        sh.tt.may_find(g.key(), hit),
        quiet_found(sh, g, hit, alpha, beta, ply, pv, r, line),
{
    reveal(quiet_worth);
    reveal(quiet_found);
    choose|hit: Option<Hit>| #[trigger]
        sh.tt.may_find(g.key(), hit) && quiet_found(sh, g, hit, alpha, beta, ply, pv, r, line)
}

proof fn lemma_quiet_stand(
    sh: &Shared,
    g: Game,
    hit: Option<Hit>,
    alpha: i32,
    beta: i32,
    ply: usize,
    pv: bool,
    r: i32,
    line: Seq<Move>,
) -> (x: (i32, Seq<Trial>))
    requires
        quiet_found(sh, g, hit, alpha, beta, ply, pv, r, line),
        pv || !is_decided(hit, alpha, beta, ply as int),
        !g.in_check(),
    ensures
        is_stand(sh, g, hit, ply, x.0),
        if x.0 >= beta {
            r == x.0
        } else {
            quiet_tried(sh, g, x.0, greater(alpha, x.0), beta, ply, pv, x.1) && r == best_of(
                x.1,
                x.0,
            )
        },
{
    reveal(quiet_found);
    reveal(quiet_tried);
    let stand = choose|stand: i32| #[trigger]
        is_stand(sh, g, hit, ply, stand) && if stand >= beta {
            r == stand && (pv ==> line.len() == 0)
        } else {
            exists|ts: Seq<Trial>|
                quiet_tried(sh, g, stand, greater(alpha, stand), beta, ply, pv, ts) && r
                    == #[trigger] best_of(ts, stand) && (pv ==> line == line_of(
                    ts,
                    stand,
                    greater(alpha, stand),
                ))
        };
    if stand >= beta {
        (stand, Seq::empty())
    } else {
        let ts = choose|ts: Seq<Trial>|
            quiet_tried(sh, g, stand, greater(alpha, stand), beta, ply, pv, ts) && r
                == #[trigger] best_of(ts, stand) && (pv ==> line == line_of(
                ts,
                stand,
                greater(alpha, stand),
            ));
        (stand, ts)
    }
}

proof fn lemma_quiet_trials_range(
    sh: &Shared,
    g: Game,
    best: i32,
    floor: i32,
    beta: i32,
    ply: usize,
    pv: bool,
    ts: Seq<Trial>,
)
    requires
        is_sane(sh),
        quiet_tried(sh, g, best, floor, beta, ply, pv, ts),
        -32001 <= floor,
        beta <= 32001,
        ply < 246,
    ensures
        forall|i: int| 0 <= i < ts.len() ==> match (#[trigger] ts[i]).outcome {
            Outcome::Scored(v) => is_score(v as int),
            Outcome::Worth(v) => v < beta,
            Outcome::Dropped => true,
        },
        g.in_check() && ts.len() > 0 ==> ts[0].outcome is Scored,
    decreases 247 - ply, 0int,
{
    assert forall|i: int| 0 <= i < ts.len() implies match (#[trigger] ts[i]).outcome {
        Outcome::Scored(v) => is_score(v as int),
        Outcome::Worth(v) => v < beta,
        Outcome::Dropped => true,
    } by {
        let f = floor_of(ts.take(i), best, floor);
        lemma_floor(ts.take(i), best, floor);
        lemma_quiet_trial_at(sh, g, best, floor, beta, ply, pv, ts, i);
        if let Outcome::Scored(v) = ts[i].outcome {
            quiet_scores_stay_in_range(
                sh,
                g.after(ts[i].m),
                (-beta) as i32,
                (-f) as i32,
                (ply + 1) as usize,
                pv,
                (-v) as i32,
                ts[i].line,
            );
        }
    }
    if ts.len() > 0 {
        lemma_quiet_trial_at(sh, g, best, floor, beta, ply, pv, ts, 0);
    }
}

proof fn lemma_quiet_trial_at(
    sh: &Shared,
    g: Game,
    best: i32,
    floor: i32,
    beta: i32,
    ply: usize,
    pv: bool,
    ts: Seq<Trial>,
    i: int,
)
    requires
        quiet_tried(sh, g, best, floor, beta, ply, pv, ts),
        0 <= i < ts.len(),
    ensures
        floor_of(ts.take(i), best, floor) < beta,
        g.allows(ts[i].m),
        match ts[i].outcome {
            Outcome::Scored(v) => -SCORE_LIMIT <= v <= SCORE_LIMIT && quiet_worth(
                sh,
                g.after(ts[i].m),
                (-beta) as i32,
                (-floor_of(ts.take(i), best, floor)) as i32,
                (ply + 1) as usize,
                pv,
                (-v) as i32,
                ts[i].line,
            ),
            Outcome::Worth(v) => !g.in_check() && v <= floor_of(ts.take(i), best, floor),
            Outcome::Dropped => !g.in_check(),
        },
{
    reveal(quiet_tried);
    reveal(quiet_trial);
    reveal(quiet_worth);
}

/// Law: where the table holds scores between being mated and mating only, so does
/// the search find.
pub proof fn scores_stay_in_range(sh: &Shared, g: Game, t: Task, r: i32)
    requires
        is_sane(sh),
        search_worth(sh, g, t, r),
        is_window(t.alpha, t.beta),
        t.ply <= 246,
        t.ply == 0 ==> t.excluded == Move::none(),
    ensures
        is_score(r as int),
    decreases 247 - t.ply, t.plies(), 3int,
{
    if t.depth <= 0 {
        reveal(search_worth);
        quiet_scores_stay_in_range(sh, g, t.alpha, t.beta, t.ply, t.pv, r, t.line);
    } else if (t.ply > 0 && g.drawn(t.ply as int)) || t.ply >= 246 {
        reveal(search_worth);
    } else if t.ply > 0 && greater(t.alpha, mated_in(t.ply)) >= lesser(
        t.beta,
        mate_in((t.ply + 1) as usize),
    ) {
        reveal(search_worth);
    } else {
        let hit = lemma_search_sees(sh, g, t, r);
        let u = if t.ply > 0 {
            Task {
                alpha: greater(t.alpha, mated_in(t.ply)),
                beta: lesser(t.beta, mate_in((t.ply + 1) as usize)),
                ..t
            }
        } else {
            t
        };
        lemma_node_range(sh, g, hit, u, r);
    }
}

proof fn lemma_node_range(sh: &Shared, g: Game, hit: Option<Hit>, t: Task, r: i32)
    requires
        is_sane(sh),
        may_see(sh, g, t.excluded, hit),
        node_worth(sh, g, hit, t, r),
        is_window(t.alpha, t.beta),
        t.ply < 246,
        t.depth > 0,
        t.ply > 0 ==> t.alpha >= -32000,
        t.ply == 0 ==> t.excluded == Move::none(),
    ensures
        is_score(r as int),
    decreases 247 - t.ply, t.plies(), 2int,
{
    if !t.pv && is_deep(hit, t.depth) && is_decided(hit, t.alpha, t.beta, t.ply as int)
        && g.halfmove < 90 {
        lemma_node_stored_is(sh, g, hit, t, r);
        assert(t.excluded == Move::none());
        assert(sh.tt.may_find(g.key(), hit));
    } else {
        let node = lemma_node_ways(sh, g, hit, t, r);
        if t.may_prune(node) && is_pruned(sh, g, node, t, r) {
            lemma_eval_range(sh, g, hit, t, node);
            lemma_pruned_range(sh, g, node, t, r);
        } else if t.may_prune(node) && is_cut(sh, g, node, t, r) {
            lemma_cut_range(sh, g, node, t, r);
        } else if iir_depth(t, node) <= 0 {
            quiet_scores_stay_in_range(sh, g, t.alpha, t.beta, t.ply, t.pv, r, t.line);
        } else {
            lemma_moves_range(sh, g, hit, node, Task { depth: iir_depth(t, node), ..t }, r);
        }
    }
}

/// What a node that may be pruned is taken for.
proof fn lemma_eval_range(sh: &Shared, g: Game, hit: Option<Hit>, t: Task, node: Node)
    requires
        is_sane(sh),
        t.ply < 246,
        t.excluded == Move::none(),
        sh.tt.may_find(g.key(), hit),
        is_node_at(sh, g, hit, t, node),
        !node.in_check,
    ensures
        is_score(node.eval as int),
{
    assert forall|s: i32| #[trigger] is_static(sh, g, hit, s) implies -31753 <= s <= 31753 by {}
}

proof fn lemma_node_stored_is(sh: &Shared, g: Game, hit: Option<Hit>, t: Task, r: i32)
    requires
        node_worth(sh, g, hit, t, r),
        !t.pv && is_deep(hit, t.depth) && is_decided(hit, t.alpha, t.beta, t.ply as int)
            && g.halfmove < 90,
    ensures
        r == hash_score_of(hit, t.ply),
{
    reveal(node_worth);
}

proof fn lemma_node_ways(sh: &Shared, g: Game, hit: Option<Hit>, t: Task, r: i32) -> (node: Node)
    requires
        node_worth(sh, g, hit, t, r),
        is_open(g, hit, t),
    ensures
        is_node_at(sh, g, hit, t, node),
        (t.may_prune(node) && is_pruned(sh, g, node, t, r)) || (t.may_prune(node) && is_cut(
            sh,
            g,
            node,
            t,
            r,
        )) || if iir_depth(t, node) <= 0 {
            quiet_worth(sh, g, t.alpha, t.beta, t.ply, t.pv, r, t.line)
        } else {
            moves_worth(sh, g, node, Task { depth: iir_depth(t, node), ..t }, r)
        },
{
    reveal(node_worth);
    reveal(is_pruned);
    reveal(is_cut);
    reveal(moves_worth);
    choose|node: Node| #[trigger]
        is_node_at(sh, g, hit, t, node) && ((t.may_prune(node) && is_pruned(sh, g, node, t, r)) || (
        t.may_prune(node) && is_cut(sh, g, node, t, r)) || if iir_depth(t, node) <= 0 {
            quiet_worth(sh, g, t.alpha, t.beta, t.ply, t.pv, r, t.line)
        } else {
            moves_worth(sh, g, node, Task { depth: iir_depth(t, node), ..t }, r)
        })
}

proof fn lemma_pruned_range(sh: &Shared, g: Game, node: Node, t: Task, r: i32)
    requires
        is_sane(sh),
        is_pruned(sh, g, node, t, r),
        is_score(node.eval as int),
        is_window(t.alpha, t.beta),
        !is_mate(t.beta),
        t.ply < 246,
    ensures
        is_score(r as int),
    decreases 247 - t.ply, t.plies(), 1int,
{
    reveal(is_pruned);
    reveal(search_worth);
    if t.is_above(node) {
    } else if razors(node.eval, t.alpha, t.depth) && r < t.alpha && quiet_worth(
        sh,
        g,
        (t.alpha - 1) as i32,
        t.alpha,
        t.ply,
        false,
        r,
        Seq::empty(),
    ) {
        quiet_scores_stay_in_range(
            sh,
            g,
            (t.alpha - 1) as i32,
            t.alpha,
            t.ply,
            false,
            r,
            Seq::empty(),
        );
    } else {
        let u = t.pass(node);
        let w = choose|w: i32| #[trigger]
            t.passes_with(w, r) && search_worth(sh, g.passed(), u, w);
        scores_stay_in_range(sh, g.passed(), u, w);
    }
}

proof fn lemma_cut_range(sh: &Shared, g: Game, node: Node, t: Task, r: i32)
    requires
        is_sane(sh),
        is_cut(sh, g, node, t, r),
        is_window(t.alpha, t.beta),
        !is_mate(t.beta),
        t.ply < 246,
    ensures
        is_score(r as int),
    decreases 247 - t.ply, t.plies(), 1int,
{
    let m = lemma_cut_by(sh, g, node, t, r);
    let w = lemma_probed(sh, g, node, t, m, r);
    if -w >= t.raised(node) {
        let u = t.reply(
            g,
            node,
            m,
            -t.raised(node),
            -t.raised(node) + 1,
            t.depth - 3,
            false,
            !t.cut_node,
            Seq::empty(),
        );
        scores_stay_in_range(sh, g.after(m), u, (-r) as i32);
    }
}

proof fn lemma_cut_by(sh: &Shared, g: Game, node: Node, t: Task, r: i32) -> (m: Move)
    requires
        is_cut(sh, g, node, t, r),
    ensures
        r >= t.raised(node),
        probes_at(sh, g, node, t, m, r),
{
    reveal(is_cut);
    reveal(probes_at);
    choose|m: Move| #[trigger]
        promises(g, t.excluded, t.raised(node) - node.eval, m) && probes_at(sh, g, node, t, m, r)
}

proof fn lemma_probed(sh: &Shared, g: Game, node: Node, t: Task, m: Move, v: i32) -> (w: i32)
    requires
        probes_at(sh, g, node, t, m, v),
    ensures
        is_probed(t.raised(node), w, v),
        -w >= t.raised(node) ==> search_worth(
            sh,
            g.after(m),
            t.reply(
                g,
                node,
                m,
                -t.raised(node),
                -t.raised(node) + 1,
                t.depth - 3,
                false,
                !t.cut_node,
                Seq::empty(),
            ),
            (-v) as i32,
        ),
{
    reveal(probes_at);
    reveal(search_worth);
    choose|w: i32| #[trigger]
        is_probed(t.raised(node), w, v) && (-w >= t.raised(node) ==> search_worth(
            sh,
            g.after(m),
            t.reply(
                g,
                node,
                m,
                -t.raised(node),
                -t.raised(node) + 1,
                t.depth - 3,
                false,
                !t.cut_node,
                Seq::empty(),
            ),
            (-v) as i32,
        ))
}

proof fn lemma_moves_range(sh: &Shared, g: Game, hit: Option<Hit>, node: Node, t: Task, r: i32)
    requires
        is_sane(sh),
        may_see(sh, g, t.excluded, hit),
        node.recalls(hit, t.hint, t.pv, t.ply as int),
        moves_worth(sh, g, node, t, r),
        is_window(t.alpha, t.beta),
        t.ply < 246,
        t.depth > 0,
        t.ply > 0 ==> t.alpha >= -32000,
        t.ply == 0 ==> t.excluded == Move::none(),
    ensures
        is_score(r as int),
    decreases 247 - t.ply, t.plies(), 1int,
{
    reveal(moves_worth);
    reveal(moves_tried);
    reveal(cut_by_many);
    if t.ply > 0 && cut_by_many(sh, g, node, t, r) {
        assert(t.depth * SE_BETA_SLOPE >= 0) by (nonlinear_arith)
            requires
                t.depth > 0,
                SE_BETA_SLOPE >= 0,
        ;
    } else {
        let ts = choose|ts: Seq<Trial>|
            moves_tried(sh, g, node, t, ts) && r == #[trigger] t.comes_to(g, ts);
        assert forall|i: int| 0 <= i < ts.len() implies match (#[trigger] ts[i]).outcome {
            Outcome::Scored(v) => is_score(v as int),
            Outcome::Worth(v) => v < t.beta,
            Outcome::Dropped => true,
        } by {
            lemma_move_at(sh, g, node, t, ts, i);
            let f = floor_of(ts.take(i), (-INFINITE) as i32, t.alpha);
            lemma_floor(ts.take(i), (-INFINITE) as i32, t.alpha);
            if let Outcome::Scored(v) = ts[i].outcome {
                let u = lemma_reply_task(sh, g, node, t, i, f, ts[i], v);
                scores_stay_in_range(sh, g.after(ts[i].m), u, (-v) as i32);
            }
        }
        if ts.len() > 0 {
            lemma_move_at(sh, g, node, t, ts, 0);
            assert(ts.take(0) =~= Seq::empty());
        }
        lemma_best_range(ts, (-INFINITE) as i32, t.beta);
    }
}

proof fn lemma_move_at(sh: &Shared, g: Game, node: Node, t: Task, ts: Seq<Trial>, i: int)
    requires
        moves_tried(sh, g, node, t, ts),
        0 <= i < ts.len(),
    ensures
        floor_of(ts.take(i), (-INFINITE) as i32, t.alpha) < t.beta,
        match ts[i].outcome {
            Outcome::Scored(v) => -SCORE_LIMIT <= v <= SCORE_LIMIT && reply_worth(
                sh,
                g,
                node,
                t,
                i,
                floor_of(ts.take(i), (-INFINITE) as i32, t.alpha),
                ts[i],
                v,
            ),
            Outcome::Worth(v) => best_of(ts.take(i), (-INFINITE) as i32) > -MATE_IN_MAX && v
                <= floor_of(ts.take(i), (-INFINITE) as i32, t.alpha),
            Outcome::Dropped => best_of(ts.take(i), (-INFINITE) as i32) > -MATE_IN_MAX,
        },
{
    let best = best_of(ts.take(i), (-INFINITE) as i32);
    let floor = floor_of(ts.take(i), (-INFINITE) as i32, t.alpha);
    assert(move_trial(sh, g, node, t, best, floor, i, ts[i])) by {
        reveal(moves_tried);
        reveal(move_trial);
    }
    reveal(move_trial);
    reveal(reply_worth);
}

} // verus!
