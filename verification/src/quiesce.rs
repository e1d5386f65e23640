//! Quiescence search.

use vstd::prelude::*;
use crate::attacks::line;
use crate::board::Board;

use crate::history::conts_ok;

use crate::movepick::{
    MovePicker, lemma_noisy_same, lemma_serves_same, mvv, picker_covers_the_evasions,
    picker_covers_the_noisy_moves,
};
use crate::nnue::{Network, value_for};
use crate::params::{QS_FUTILITY, QS_PROMO_DELTA, QS_SEE};
use crate::play::unmake_restores_without_check_squares;
use crate::position::{in_check_at, legal};
use crate::score::{
    DRAW, INFINITE, MATE_IN_MAX, SCORE_LIMIT, adjusted, bound_of, decides, greater, improves,
    is_eval, mated_in, node_score, score_from_tt, score_to_tt, table_score,
};
use crate::searcher::{
    OFF, Pos, Searcher, is_drawn, legal_line, lemma_told_counted, lemma_told_nothing,
    lemma_told_twice, pos_after, pos_of,
};
use crate::see::see_ge;

use crate::timing::{CHECK_INTERVAL, Shared};
use crate::tt::{BOUND_LOWER, BOUND_NONE, BOUND_UPPER, Hit, VALUE_NONE, hit_ok};
use crate::types::{MAX_PLY, Move};
use crate::worth::{
    Outcome, Trial, best_of, floor_of, game_of, is_quiet_search, is_stand, is_tried,
    is_wanted_quiet, lead_of, lemma_drawn_game, lemma_quiet_best, lemma_quiet_early,
    lemma_quiet_trial, lemma_quiet_worth, lemma_static, line_of, quiet_found, quiet_worth, raw_of,
    trials_ok,
};

verus! {

broadcast use lemma_told_nothing;

/// A move before a legal line makes a legal line.
pub proof fn lemma_line(p: Pos, m: Move, rest: Seq<Move>)
    requires
        legal(p.q, p.stm, p.ep, m),
        legal_line(pos_after(p, m), rest),
    ensures
        legal_line(p, seq![m] + rest),
{
    let s = seq![m] + rest;
    assert(s[0] == m);
    assert(s.drop_first() =~= rest);
}

/// Rows before `ply` that are the same hold the same line.
pub proof fn lemma_row(a: &Searcher, b: &Searcher, ply: int, i: int)
    requires
        a.tables_ok(),
        b.tables_ok(),
        a.pv_below(b, ply),
        0 <= i < ply <= 248,
    ensures
        a.row(i) == b.row(i),
{
    assert(a.pv_len@[i] == b.pv_len@[i]);
    assert(a.pv_len@[i] + i <= 247);
    assert forall|k: int| 0 <= k < a.row(i).len() implies a.row(i)[k] == b.row(i)[k] by {
        assert(a.pv@[i * 248 + k] == b.pv@[i * 248 + k]);
    }
    assert(a.row(i) =~= b.row(i));
}

/// What a position already stored says of its evaluation: the stored one where
/// there is one.
pub open spec fn stored_eval(hit: Option<Hit>) -> Option<i32> {
    match hit {
        Some(h) => if is_eval(h.eval) {
            Some(h.eval)
        } else {
            None
        },
        None => None,
    }
}

/// Does what is stored decide a node at `ply` with this window?
pub open spec fn is_decided(hit: Option<Hit>, alpha: i32, beta: i32, ply: int) -> bool {
    match hit {
        Some(h) => decides(h.bound, node_score(h.score as int, ply) as i32, alpha, beta),
        None => false,
    }
}

/// The evaluation of a node in the light of a stored score.
pub open spec fn informed(static_eval: i32, bound: u8, s: i32) -> i32 {
    if improves(bound, s, static_eval) {
        s
    } else {
        static_eval
    }
}

impl Searcher {
    /// `self` is `o` after a search from `ply`: the game stands where it stood,
    /// and the line found, if one was asked for, can be played.
    pub open spec fn searched(&self, o: &Searcher, sh: &Shared, ply: int, pv: bool) -> bool {
        &&& self.fit(*sh.net, ply)
        &&& self.kept(o, ply)
        &&& self.stops_duly(o, sh)
        &&& self.ss@[ply + 8].excluded == o.ss@[ply + 8].excluded
        &&& !pv ==> self.same_pv(o)
        &&& pv ==> self.pv_below(o, ply) && self.line_ok(ply)
    }

    /// The same where not even the check squares have changed, nor what the node
    /// knew of itself.
    pub open spec fn quiesced(&self, o: &Searcher, sh: &Shared, ply: int, pv: bool) -> bool {
        &&& self.searched(o, sh, ply, pv)
        &&& self.board@ == o.board@
        &&& self.ss@[ply + 8].static_eval == o.ss@[ply + 8].static_eval
        &&& self.ss@[ply + 8].killers == o.ss@[ply + 8].killers
        &&& self.ss@[ply + 8].cutoff_cnt == o.ss@[ply + 8].cutoff_cnt
        &&& self.best_move == o.best_move
        &&& self.best_score == o.best_score
    }

    /// What is left of a search once the move `m` that it followed is taken back:
    /// rows up to `ply` are as before, and the line found beyond follows `m`.
    pub open spec fn tried(&self, o: &Searcher, sh: &Shared, m: Move, ply: int, pv: bool) -> bool {
        &&& self.fit(*sh.net, ply)
        &&& self.stops_duly(o, sh)
        &&& self.board@ == o.board@
        &&& self.eval.path() == o.eval.path()
        &&& forall|i: int| 0 <= i < ply + 8 ==> #[trigger] self.ss@[i] == o.ss@[i]
        &&& forall|i: int| 0 <= i < ply + 8 ==> #[trigger] self.undos@[i] == o.undos@[i]
        &&& self.ss@[ply + 8].excluded == o.ss@[ply + 8].excluded
        &&& self.ss@[ply + 8].static_eval == o.ss@[ply + 8].static_eval
        &&& self.ss@[ply + 8].killers == o.ss@[ply + 8].killers
        &&& self.same_root(o)
        &&& self.nodes >= o.nodes
        &&& o.stopped ==> self.stopped
        &&& self.best_move == o.best_move
        &&& self.best_score == o.best_score
        &&& !pv ==> self.same_pv(o)
        &&& pv ==> self.pv_below(o, ply + 1)
    }

    /// Makes `m`, runs quiescence on the reply and takes `m` back.
    fn try_quiet_reply<const PV: bool>(
        &mut self,
        sh: &Shared,
        m: Move,
        alpha: i32,
        beta: i32,
        ply: usize,
    ) -> (r: i32)
        requires
            old(self).fit(*sh.net, ply as int),
            sh.ok(),
            ply < 246,
            -33000 <= alpha < beta <= 33000,
            old(self).board.legal_here(m),
        ensures
            final(self).tried(old(self), sh, m, ply as int, PV),
            PV ==> legal_line(pos_after(pos_of(old(self).board@), m), final(self).row(ply + 1)),
            final(self).ss@[ply + 8].cutoff_cnt == old(self).ss@[ply + 8].cutoff_cnt,
            final(self).counted(old(self)),
            -SCORE_LIMIT <= r <= SCORE_LIMIT,
            !final(self).stopped ==> quiet_worth(
                sh,
                game_of(&old(self).board).after(m),
                (-beta) as i32,
                (-alpha) as i32,
                (ply + 1) as usize,
                PV,
                (-r) as i32,
                final(self).line_at(ply + 1, PV),
            ),
        decreases 247 - ply, 0int,
    {
        let ghost o = *self;
        self.do_move::<false>(sh, m, ply);
        let ghost mid = *self;
        assert(game_of(&mid.board).hist =~= game_of(&o.board).after(m).hist);
        assert(game_of(&mid.board) == game_of(&o.board).after(m));
        let score = -self.qsearch::<PV>(sh, -beta, -alpha, ply + 1);
        let ghost after = *self;
        proof {
            assert(after.undos@[ply + 8] == mid.undos@[ply + 8]);
            assert(after.ss@[ply + 8] == mid.ss@[ply + 8]);
        }
        self.undo_move::<false>(sh, m, ply);
        proof {
            unmake_restores_without_check_squares(
                o.board,
                m,
                mid.board,
                after.board,
                self.board,
                mid.undos@[ply + 8],
            );
            assert(self.board@ =~= o.board@);
            lemma_told_counted(&*self, &mid, &o, sh);
            assert(self.eval.path() =~= o.eval.path());
        }
        score
    }

    /// Captures, promotions and evasions only, until the position is quiet.
    pub(crate) fn qsearch<const PV: bool>(&mut self, sh: &Shared, alpha: i32, beta: i32, ply: usize) -> (r: i32)
        requires
            old(self).fit(*sh.net, ply as int),
            sh.ok(),
            ply <= 246,
            -33000 <= alpha < beta <= 33000,
        ensures
            final(self).quiesced(old(self), sh, ply as int, PV),
            final(self).looks_first(old(self), sh),
            // A node that is decided at sight counts nothing, and between two looks it
            // does not stop.
            ply == 246 || is_drawn(&old(self).board, ply as int) ==> final(self).nodes == old(
                self).nodes && (old(self).nodes % CHECK_INTERVAL != 0 ==> final(self).stopped
                == old(self).stopped),
            -SCORE_LIMIT <= r <= SCORE_LIMIT,
            old(self).stopped ==> r == DRAW,
            !final(self).stopped && ply == 246 ==> r == old(self).static_value(*sh.net, ply as int),
            !final(self).stopped && ply < 246 && is_drawn(&old(self).board, ply as int) ==> r == DRAW,
            PV && !final(self).stopped && ply < 246 && !is_drawn(&old(self).board, ply as int)
                && is_mated(&old(self).board) ==> r == mated_in(ply),
            !final(self).stopped ==> quiet_worth(
                sh,
                game_of(&old(self).board),
                alpha,
                beta,
                ply,
                PV,
                r,
                final(self).line_at(ply as int, PV),
            ),
        decreases 247 - ply, 2int,
    {
        let ghost g = game_of(&self.board);
        proof {
            lemma_drawn_game(&self.board, ply as int);
        }
        if PV {
            self.pv_len[ply] = 0;
            assert(self.row(ply as int) =~= Seq::empty());
        }
        if self.check_stop(sh) {
            return DRAW;
        }
        if self.sel_depth < ply {
            self.sel_depth = ply;
        }
        if ply >= MAX_PLY {
            let v = self.evaluate(sh, ply);
            proof {
                lemma_quiet_worth(sh, g, None, alpha, beta, ply, PV, v, self.line_at(ply as int, PV));
            }
            return v;
        }
        if self.is_draw(sh, ply) {
            proof {
                lemma_quiet_worth(sh, g, None, alpha, beta, ply, PV, DRAW, self.line_at(ply as int, PV));
            }
            return DRAW;
        }
        let hit = sh.tt.probe(self.board.key);
        let ghost before = *self;
        let v = self.quiet_node::<PV>(sh, hit, alpha, beta, ply);
        proof {
            lemma_told_twice(&*self, &before, old(self), sh);
            if !self.stopped {
                lemma_quiet_worth(sh, g, hit, alpha, beta, ply, PV, v, self.line_at(ply as int, PV));
            }
        }
        v
    }

    /// What the node stands at before any move is tried.
    pub open spec fn stand_pat(&self, n: Network, hit: Option<Hit>, ply: int) -> i32 {
        let raw = match stored_eval(hit) {
            Some(e) => e,
            None => value_for(n, self.board.q(), self.board.stm) as i32,
        };
        let static_eval = adjusted(
            raw,
            self.board.halfmove,
            self.hist.correction_of(
                self.board.stm,
                self.board.pawn_key,
                self.ss@[ply + 7].cont_idx,
            ),
        ) as i32;
        match hit {
            Some(h) => informed(static_eval, h.bound, node_score(h.score as int, ply) as i32),
            None => static_eval,
        }
    }

    /// Out of check the node stands above beta before any move is tried.
    pub open spec fn stands(&self, n: Network, hit: Option<Hit>, beta: i32, ply: int) -> bool {
        !in_check_at(self.board.q(), self.board.stm) && self.stand_pat(n, hit, ply) >= beta
    }

    /// The raw evaluation that quiescence stores: none in check.
    pub open spec fn quiet_raw(&self, n: Network, hit: Option<Hit>) -> i32 {
        if in_check_at(self.board.q(), self.board.stm) {
            VALUE_NONE
        } else {
            match stored_eval(hit) {
                Some(e) => e,
                None => value_for(n, self.board.q(), self.board.stm) as i32,
            }
        }
    }

    /// Quiescence at a node of which the table says `hit`: a stored score that
    /// decides is returned, a node that stands above beta stands, and no node is
    /// worth less than what it stands at.
    #[verifier::rlimit(60)]
    #[verifier::spinoff_prover]
    fn quiet_node<const PV: bool>(
        &mut self,
        sh: &Shared,
        hit: Option<Hit>,
        alpha: i32,
        beta: i32,
        ply: usize,
    ) -> (r: i32)
        requires
            old(self).fit(*sh.net, ply as int),
            sh.ok(),
            ply < 246,
            -33000 <= alpha < beta <= 33000,
            hit matches Some(h) ==> hit_ok(h),
            PV ==> old(self).pv_len@[ply as int] == 0,
        ensures
            final(self).quiesced(old(self), sh, ply as int, PV),
            -SCORE_LIMIT <= r <= SCORE_LIMIT,
            ({
                let stand = old(self).stand_pat(*sh.net, hit, ply as int);
                if !PV && is_decided(hit, alpha, beta, ply as int) {
                    hit matches Some(h) && r == node_score(h.score as int, ply as int)
                } else if !in_check_at(old(self).board.q(), old(self).board.stm) {
                    (stand >= beta ==> r == stand) && (!final(self).stopped ==> r >= stand)
                } else {
                    !final(self).stopped && is_mated(&old(self).board) ==> r == mated_in(ply)
                }
            }),
            // What is found is left in the table, but for a stored score, a stand that
            // was known, and a mate.
            !final(self).stopped && (PV || !is_decided(hit, alpha, beta, ply as int)) && (in_check_at(
                old(self).board.q(),
                old(self).board.stm,
            ) ==> exists|x: Move| #[trigger] is_wanted_quiet(game_of(&old(self).board), x)) && !(old(
                self).stands(*sh.net, hit, beta, ply as int) && hit is Some) ==> exists|
                best: i32,
                ts: Seq<Trial>,
            | #[trigger]
                is_quiet_search(
                    sh,
                    game_of(&old(self).board),
                    hit,
                    alpha,
                    beta,
                    ply,
                    PV,
                    best,
                    ts,
                ) && r == best_of(ts, best) && sh.tt.records(
                    old(self).board.key,
                    lead_of(ts, best),
                    table_score(r as int, ply as int) as i32,
                    old(self).quiet_raw(*sh.net, hit),
                    0,
                    bound_of(r, beta, beta, false),
                    PV,
                ),
            !final(self).stopped ==> quiet_found(
                sh,
                game_of(&old(self).board),
                hit,
                alpha,
                beta,
                ply,
                PV,
                r,
                final(self).line_at(ply as int, PV),
            ),
        decreases 247 - ply, 1int,
    {
        let ghost o = *self;
        proof {
            if PV {
                assert(self.row(ply as int) =~= Seq::empty());
            }
        }
        let in_check = self.board.in_check();
        let mut tt_move = Move::none();
        let mut tt_score: i32 = VALUE_NONE;
        let mut tt_bound: u8 = BOUND_NONE;
        if let Some(h) = hit {
            tt_move = h.mv;
            tt_bound = h.bound;
            tt_score = score_from_tt(h.score, ply);
            if !PV && decides(h.bound, tt_score, alpha, beta) {
                proof {
                    lemma_quiet_early(sh, game_of(&o.board), hit, alpha, beta, ply, PV, tt_score, self.line_at(ply as int, PV));
                }
                return tt_score;
            }
        }
        // Stand pat. In check there is no standing still: every evasion must be
        // examined, so the floor starts at minus infinity and the picker generates
        // the whole move list rather than just the captures.
        let raw: i32;
        let mut floor: i32 = alpha;
        let mut best: i32;
        if in_check {
            raw = VALUE_NONE;
            best = -INFINITE;
        } else {
            raw = self.raw_eval(sh, &hit, Ghost(ply as int));
            let static_eval = self.adjust_eval(raw, ply);
            assert(raw == raw_of(sh, game_of(&o.board), hit));
            proof {
                lemma_static(
                    sh,
                    game_of(&o.board),
                    hit,
                    self.hist.correction_of(
                        self.board.stm,
                        self.board.pawn_key,
                        self.ss@[ply + 7].cont_idx,
                    ),
                    static_eval,
                );
            }
            // A hash score is a better estimate of the node than the static
            // evaluation, when the bound points the right way.
            let ev: i32 = if hit.is_some() && improves(tt_bound, tt_score, static_eval) {
                tt_score
            } else {
                static_eval
            };
            assert(is_stand(sh, game_of(&o.board), hit, ply, ev));
            if ev >= beta {
                proof {
                    lemma_quiet_early(sh, game_of(&o.board), hit, alpha, beta, ply, PV, ev, self.line_at(ply as int, PV));
                }
                if hit.is_none() {
                    sh.tt.store(
                        self.board.key,
                        Move::none(),
                        score_to_tt(ev, ply),
                        raw,
                        0,
                        BOUND_LOWER,
                        PV,
                    );
                    assert(is_quiet_search(
                        sh,
                        game_of(&o.board),
                        hit,
                        alpha,
                        beta,
                        ply,
                        PV,
                        ev,
                        Seq::empty(),
                    ));
                    assert(best_of(Seq::empty(), ev) == ev && lead_of(Seq::empty(), ev)
                        == Move::none());
                    assert(sh.tt.records(
                        o.board.key,
                        Move::none(),
                        table_score(ev as int, ply as int) as i32,
                        o.quiet_raw(*sh.net, hit),
                        0,
                        bound_of(ev, beta, beta, false),
                        PV,
                    ));
                }
                return ev;
            }
            floor = greater(alpha, ev);
            best = ev;
        }
        let mut slot = self.ss[ply + OFF];
        assert(self.ss@[ply + 8].ok());
        slot.in_check = in_check;
        self.ss[ply + OFF] = slot;
        let conts = self.conts(ply);
        let mut mp = MovePicker::new_qsearch(tt_move, in_check);
        let mut best_move = Move::none();
        let mut moved_any = false;
        let futility: i32 = best + QS_FUTILITY;
        let ghost g = game_of(&o.board);
        let ghost best0 = best;
        let ghost floor0 = floor;
        let ghost mut ts: Seq<Trial> = Seq::empty();
        proof {
            assert forall|m: Move| #[trigger] is_wanted_quiet(g, m) implies mp.to_come(
                &o.board,
                true,
                m,
            ) by {
                if in_check {
                    picker_covers_the_evasions(mp, &o.board, true, m);
                } else {
                    picker_covers_the_noisy_moves(mp, &o.board, true, m);
                }
            }
        }
        loop
            invariant_except_break
                mp.noisy_only,
                forall|m: Move| #[trigger]
                    is_wanted_quiet(g, m) ==> mp.to_come(&o.board, true, m) || is_tried(ts, m),
                -33000 <= floor < beta <= 33000,
                mp.serves(&o.board),
            invariant
                o == *old(self),
                self.quiesced(&o, sh, ply as int, PV),
                o.board.wf(),
                o.board.q() == self.board.q(),
                sh.ok(),
                ply < 246,
                -SCORE_LIMIT <= best <= SCORE_LIMIT,
                conts_ok(conts),
                mp.writes_compactly(),
                best_move.compact(),
                -40_000 <= futility <= 40_000,
                in_check == in_check_at(o.board.q(), o.board.stm),
                PV || !is_decided(hit, alpha, beta, ply as int),
                !in_check ==> best >= o.stand_pat(*sh.net, hit, ply as int) && beta > o.stand_pat(
                    *sh.net,
                    hit,
                    ply as int,
                ),
                moved_any ==> exists|x: Move| #[trigger] o.board.legal_here(x),
                g == game_of(&o.board),
                raw == o.quiet_raw(*sh.net, hit),
                alpha < beta,
                futility == best0 + QS_FUTILITY,
                best0 == if in_check {
                    -INFINITE
                } else {
                    best0 as int
                },
                floor0 == if in_check {
                    alpha
                } else {
                    greater(alpha, best0)
                },
                !in_check ==> is_stand(sh, g, hit, ply, best0) && best0 < beta,
                best == best_of(ts, best0),
                best_move == lead_of(ts, best0),
                PV ==> self.row(ply as int) == line_of(ts, best0, floor0),
                floor == floor_of(ts, best0, floor0),
                moved_any <==> ts.len() > 0,
                trials_ok(sh, g, best0, floor0, beta, ply, PV, ts),
            ensures
                floor < beta ==> forall|m: Move| #[trigger] is_wanted_quiet(g, m) ==> is_tried(ts, m),
            decreases mp.rank(), mp.left(),
        {
            proof {
                lemma_serves_same(mp, &o.board, &self.board);
            }
            let ghost asked = mp;
            let next = mp.next(&self.board, sh.tables, &self.hist, &conts, true);
            proof {
                assert forall|x: Move|
                    #![trigger asked.to_come(&self.board, true, x)]
                    #![trigger asked.to_come(&o.board, true, x)]
                    asked.to_come(&self.board, true, x) == asked.to_come(&o.board, true, x) by {
                    lemma_noisy_same(asked, &self.board, &o.board, x);
                }
                assert forall|x: Move|
                    #![trigger mp.to_come(&self.board, true, x)]
                    #![trigger mp.to_come(&o.board, true, x)]
                    mp.to_come(&o.board, true, x) == mp.to_come(&self.board, true, x) by {
                    lemma_noisy_same(mp, &self.board, &o.board, x);
                }
            }
            match next {
                None => {
                    break;
                },
                Some(m) => {
                    proof {
                        lemma_serves_same(mp, &self.board, &o.board);
                        assert(o.board.legal_here(m));
                    }
                    moved_any = true;
                    if !in_check && best > -MATE_IN_MAX {
                        // Delta pruning: even winning the victim outright would not
                        // reach alpha, so the move cannot matter.
                        if !(m.is_promotion() && QS_PROMO_DELTA == 0) {
                            let gain = mvv(&self.board, m);
                            if futility + gain <= floor {
                                proof {
                                    let t = Trial {
                                        m,
                                        outcome: Outcome::Worth((futility + gain) as i32),
                                        hist: self.hist@,
                                        busy: false,
                                        line: Seq::empty(),
                                    };
                                    lemma_quiet_trial(sh, g, best0, floor0, beta, ply, PV, ts, t);
                                    ts = ts.push(t);
                                }
                                best = greater(best, futility + gain);
                                continue;
                            }
                        }
                        // A losing capture cannot raise alpha in quiescence often
                        // enough to pay for its subtree.
                        if !see_ge(&self.board, sh.tables, m, -QS_SEE) {
                            proof {
                                let t = Trial {
                                    m,
                                    outcome: Outcome::Dropped,
                                    hist: self.hist@,
                                    busy: false,
                                    line: Seq::empty(),
                                };
                                lemma_quiet_trial(sh, g, best0, floor0, beta, ply, PV, ts, t);
                                ts = ts.push(t);
                            }
                            continue;
                        }
                    }
                    let ghost before = *self;
                    let score = self.try_quiet_reply::<PV>(sh, m, floor, beta, ply);
                    proof {
                        lemma_told_twice(&*self, &before, &o, sh);
                        if PV {
                            lemma_row(&*self, &before, ply + 1, ply as int);
                        }
                    }
                    if self.stopped {
                        return DRAW;
                    }
                    proof {
                        assert(game_of(&before.board) == g);
                        let t = Trial {
                            m,
                            outcome: Outcome::Scored(score),
                            hist: before.hist@,
                            busy: false,
                            line: self.line_at(ply + 1, PV),
                        };
                        lemma_quiet_trial(sh, g, best0, floor0, beta, ply, PV, ts, t);
                        ts = ts.push(t);
                    }
                    if score > best {
                        best = score;
                        best_move = m;
                        if score > floor {
                            floor = score;
                            if PV {
                                proof {
                                    lemma_line(
                                        pos_of(o.board@),
                                        m,
                                        self.row(ply + 1),
                                    );
                                }
                                self.update_pv(ply, m);
                            }
                            if score >= beta {
                                break;
                            }
                        }
                    }
                },
            }
        }
        proof {
            lemma_quiet_best(
                sh,
                g,
                hit,
                alpha,
                beta,
                ply,
                PV,
                best0,
                floor0,
                ts,
                if in_check && ts.len() == 0 {
                    mated_in(ply)
                } else {
                    best
                },
                self.line_at(ply as int, PV),
            );
        }
        if in_check && !moved_any {
            assert forall|x: Move| !#[trigger] is_wanted_quiet(g, x) by {
                assert(!is_tried(ts, x));
            }
            return mated_in(ply);
        }
        let bound = if best >= beta {
            BOUND_LOWER
        } else {
            BOUND_UPPER
        };
        sh.tt.store(self.board.key, best_move, score_to_tt(best, ply), raw, 0, bound, PV);
        assert(is_quiet_search(sh, g, hit, alpha, beta, ply, PV, best0, ts));
        assert(sh.tt.records(
            o.board.key,
            best_move,
            table_score(best as int, ply as int) as i32,
            o.quiet_raw(*sh.net, hit),
            0,
            bound_of(best, beta, beta, false),
            PV,
        ));
        best
    }

    /// The raw evaluation: the stored one, or the network's.
    pub(crate) fn raw_eval(&mut self, sh: &Shared, hit: &Option<Hit>, Ghost(ply): Ghost<int>) -> (r: i32)
        requires
            old(self).fit(*sh.net, ply),
        ensures
            final(self).fit(*sh.net, ply),
            final(self).same_but_eval(old(self)),
            r == match stored_eval(*hit) {
                Some(e) => e as int,
                None => value_for(*sh.net, old(self).board.q(), old(self).board.stm),
            },
    {
        if let Some(h) = hit {
            if is_eval(h.eval) {
                return h.eval;
            }
        }
        self.evaluate_raw(sh, Ghost(ply))
    }
}

/// The side to move has no move and is not in check.
pub open spec fn is_stalemated(b: &Board) -> bool {
    !in_check_at(b.q(), b.stm) && forall|m: Move| !#[trigger] b.legal_here(m)
}

/// The side to move is mated.
pub open spec fn is_mated(b: &Board) -> bool {
    in_check_at(b.q(), b.stm) && forall|m: Move| !#[trigger] b.legal_here(m)
}

} // verus!
