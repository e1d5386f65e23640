//! A fail-soft principal variation search.

use vstd::prelude::*;
use crate::attacks::line;
use crate::board::Board;

use crate::history::{Conts, HistView, NULL_CONT, conts_ok, lemma_correction, trunc};
use crate::movegen::{GEN_ALL, GEN_CAPTURES, GEN_QUIETS, gen_of, is_quiet, moves_of, wanted};
use crate::movegen_laws::{generated_exactly_legal, lemma_board_gen};
use crate::movepick::{
    MAX_BAD, MovePicker, STAGE_BAD_CAPTURES, STAGE_DONE, STAGE_EVASION_GEN, STAGE_GEN_CAPTURES,
    STAGE_GOOD_CAPTURES, STAGE_QUIETS, STAGE_TT, all_legal, in_tail, is_noisy,
    lemma_all_legal_same, lemma_noisy_same, lemma_serves_same, losing, picker_covers_the_evasions,
    picker_covers_the_legal_moves, picker_covers_the_noisy_moves,
};
use crate::nnue::value_for;
use crate::node::{
    MAX_CAPTURES_TRIED, MAX_QUIETS_TRIED, MoveFacts, Node, Verdict, checks, comes_last,
    drop_quiet, ends_quiets, history_of, judge_noisy, judged, lesson, look_at, prey_of,
    quiets_are_futile, recall,
};
use crate::params::{
    CHECK_EXT_DEPTH, IIR_DEPTH, NMP_MIN_DEPTH, NMP_VERIFY_SLOPE, PROBCUT_DEPTH, PROBCUT_RED,
    SE_BETA_SLOPE, SE_MIN_DEPTH,
};
use crate::play::{
    count_up, irreversible, same_game, too_little, unmake_null_restores, unmake_restores,
};
use crate::position::{ep_after, in_check_at, moved};
use crate::quiesce::{is_decided, is_mated, is_stalemated, lemma_line, lemma_row};
use crate::score::{
    DRAW, INFINITE, MATE_IN_MAX, SCORE_LIMIT, adjusted, bare_node, bound_of, decides, greater,
    history_bonus, is_mate, late_enough, late_reduction, lesser, mate_in, mated_in, node_score,
    null_reduction, one_if, probcut_beta, razors, reduced_depth, reverse_futility, score_to_tt,
    singular_extension, table_score,
};
use crate::searcher::{
    OFF, Searcher, Stack, add_capped, capped, is_drawn, legal_line, lemma_told_counted,
    lemma_told_nothing, lemma_told_twice, listed_at, pos_after, pos_of, puts_in_front,
};
use crate::see::see;

use crate::timing::{CHECK_INTERVAL, Shared};
use crate::tt::{BOUND_EXACT, BOUND_LOWER, Hit, VALUE_NONE, hit_ok};
use crate::types::{Color, DEEPEST, MAX_PLY, Move, Piece};
use crate::worth::{
    Game, Outcome, Path, Task, Trial, all_searched, covers, cut_by_many, extends_by, failed_of,
    game_of, iir_depth, is_cut, is_node_at, is_probed, is_pruned, is_refused, is_run,
    is_sorted_to, is_steady_to, is_tried, is_uncut, lead_of, lemma_covers_passed,
    lemma_covers_tried, lemma_cut, lemma_drawn_game, lemma_extends, lemma_extends_tested,
    lemma_many_worth, lemma_moves_many, lemma_node_moves, lemma_node_pruned, lemma_node_stored,
    lemma_probes, lemma_pruned_by_passing, lemma_pruned_early, lemma_reply, lemma_run_end,
    lemma_run_left, lemma_run_scored, lemma_run_start, lemma_search_worth, lemma_sorted_end,
    lemma_sorted_more, lemma_sorted_on, lemma_sorted_start, lemma_stands_up, lemma_static,
    lemma_steady_end, lemma_steady_more, lemma_steady_start, lemma_uncut, moves_tried,
    moves_worth, node_worth, number_of, plain_task, probes_at, promises, quiet_worth, reply_worth,
    search_worth, skips_losing, skips_quiets, stands_up, turn_of,
};

verus! {

broadcast use lemma_told_nothing;

/// Whole plies only.
pub open spec fn plies_of(depth: i32) -> int {
    if depth > 0 {
        depth as int
    } else {
        0
    }
}

/// Does a stored bound say that the score is at least that much?
#[verifier::allow_in_spec]
pub fn bounds_below(bound: u8) -> bool
    returns
        bound == BOUND_LOWER || bound == BOUND_EXACT,
{
    bound == BOUND_LOWER || bound == BOUND_EXACT
}

/// Notes a move that was searched and did not cut, as far as there is room.
fn note_failed(
    quiets: &mut Vec<Move>,
    captures: &mut Vec<Move>,
    quiet: bool,
    m: Move,
    Ghost(b): Ghost<Board>,
)
    requires
        all_legal(&b, old(quiets)@),
        all_legal(&b, old(captures)@),
        b.legal_here(m),
        m.compact(),
    ensures
        all_legal(&b, final(quiets)@),
        all_legal(&b, final(captures)@),
        final(quiets)@ == if quiet && old(quiets)@.len() < MAX_QUIETS_TRIED {
            old(quiets)@.push(m)
        } else {
            old(quiets)@
        },
        final(captures)@ == if !quiet && old(captures)@.len() < MAX_CAPTURES_TRIED {
            old(captures)@.push(m)
        } else {
            old(captures)@
        },
{
    if quiet {
        if quiets.len() < MAX_QUIETS_TRIED {
            quiets.push(m);
            assert forall|i: int| 0 <= i < quiets@.len() implies #[trigger] b.legal_here(quiets@[i])
                && quiets@[i].compact() by {
                if i < old(quiets)@.len() {
                    assert(b.legal_here(old(quiets)@[i]));
                }
            }
        }
    } else if captures.len() < MAX_CAPTURES_TRIED {
        captures.push(m);
        assert forall|i: int| 0 <= i < captures@.len() implies #[trigger] b.legal_here(captures@[i])
            && captures@[i].compact() by {
            if i < old(captures)@.len() {
                assert(b.legal_here(old(captures)@[i]));
            }
        }
    }
}

/// How a node goes on with a move.
pub enum Extension {
    By(i32),
    /// The node is decided: return this score.
    Decided(i32),
}

/// What the search of a move comes to.
pub enum Reply {
    Scored(i32),
    /// The node is decided: return this score.
    Decided(i32),
}

/// One more, as far as a counter goes.
fn one_more(n: i32) -> (r: i32)
    ensures
        r == if n < i32::MAX {
            n + 1
        } else {
            n as int
        },
{
    if n < i32::MAX {
        n + 1
    } else {
        n
    }
}

/// Trying a move leaves what a search leaves alone.
proof fn lemma_tried_kept(c: &Searcher, b: &Searcher, a: &Searcher, sh: &Shared, m: Move, ply: int, pv: bool)
    requires
        c.tried(b, sh, m, ply, pv),
        b.fit(*sh.net, ply),
        b.kept(a, ply),
        a.board.placed(),
    ensures
        c.kept(a, ply),
{
    assert(b.board.check_square_info() ==> c.board.check_square_info()) by {
        assert(c.board@ == b.board@);
        assert(c.board.blockers@ == b.board.blockers@);
        assert(c.board.check_squares@ == b.board.check_squares@);
    }
    assert forall|i: int| 0 <= i < ply + 8 implies #[trigger] c.ss@[i] == a.ss@[i] by {
        assert(c.ss@[i] == b.ss@[i]);
    }
    assert forall|i: int| 0 <= i < ply + 8 implies #[trigger] c.undos@[i] == a.undos@[i] by {
        assert(c.undos@[i] == b.undos@[i]);
    }
}

/// Two searches of a reply, one after the other, are one as far as the node before
/// can tell.
proof fn lemma_step(c: &Searcher, b: &Searcher, a: &Searcher, sh: &Shared, ply: int)
    requires
        c.stepped(b, sh, ply),
        b.stepped(a, sh, ply),
    ensures
        c.stepped(a, sh, ply),
{
    lemma_told_twice(c, b, a, sh);
    assert forall|i: int| 0 <= i < ply + 9 implies #[trigger] c.ss@[i] == a.ss@[i] by {
        assert(c.ss@[i] == b.ss@[i]);
    }
    assert forall|i: int| 0 <= i < ply + 9 implies #[trigger] c.undos@[i] == a.undos@[i] by {
        assert(c.undos@[i] == b.undos@[i]);
    }
    assert(c.pv_below(a, ply + 1)) by {
        assert forall|i: int| 0 <= i < ply + 1 implies #[trigger] c.pv_len@[i] == a.pv_len@[i] by {
            assert(c.pv_len@[i] == b.pv_len@[i]);
        }
        assert forall|i: int| 0 <= i < (ply + 1) * 248 implies #[trigger] c.pv@[i] == a.pv@[i] by {
            assert(c.pv@[i] == b.pv@[i]);
        }
    }
}

/// A singular search leaves what a search leaves alone, and the lines as well.
proof fn lemma_extended(c: &Searcher, b: &Searcher, a: &Searcher, sh: &Shared, ply: int, pv: bool)
    requires
        c.searched(b, sh, ply, false),
        b.searched(a, sh, ply, pv),
        a.board.placed(),
    ensures
        c.searched(a, sh, ply, pv),
{
    lemma_told_twice(c, b, a, sh);
    assert forall|i: int| 0 <= i < ply + 8 implies #[trigger] c.ss@[i] == a.ss@[i] by {
        assert(c.ss@[i] == b.ss@[i]);
    }
    assert forall|i: int| 0 <= i < ply + 8 implies #[trigger] c.undos@[i] == a.undos@[i] by {
        assert(c.undos@[i] == b.undos@[i]);
    }
    assert(pos_of(c.board@) == pos_of(b.board@));
    if pv {
        assert(c.row(ply) == b.row(ply));
    }
}

/// So does trying a move, with the line found so far.
proof fn lemma_tried_searched(
    c: &Searcher,
    b: &Searcher,
    a: &Searcher,
    sh: &Shared,
    m: Move,
    ply: int,
    pv: bool,
)
    requires
        c.tried(b, sh, m, ply, pv),
        b.searched(a, sh, ply, pv),
        c.kept(a, ply),
        0 <= ply < 247,
    ensures
        c.searched(a, sh, ply, pv),
        pv ==> c.row(ply) == b.row(ply),
{
    lemma_told_twice(c, b, a, sh);
    if pv {
        lemma_row(c, b, ply + 1, ply);
        assert forall|i: int| 0 <= i < ply implies #[trigger] c.pv_len@[i] == a.pv_len@[i] by {
            assert(c.pv_len@[i] == b.pv_len@[i]);
        }
        assert forall|i: int| 0 <= i < ply * 248 implies #[trigger] c.pv@[i] == a.pv@[i] by {
            assert(c.pv@[i] == b.pv@[i]);
        }
    }
}

/// Two searches of one node, one after the other, are one.
pub proof fn lemma_then(c: &Searcher, b: &Searcher, a: &Searcher, sh: &Shared, ply: int, pv: bool)
    requires
        c.searched(b, sh, ply, pv),
        b.searched(a, sh, ply, pv),
        a.board.placed(),
    ensures
        c.searched(a, sh, ply, pv),
{
    lemma_told_twice(c, b, a, sh);
    assert forall|i: int| 0 <= i < ply + 8 implies #[trigger] c.ss@[i] == a.ss@[i] by {
        assert(c.ss@[i] == b.ss@[i]);
    }
    assert forall|i: int| 0 <= i < ply + 8 implies #[trigger] c.undos@[i] == a.undos@[i] by {
        assert(c.undos@[i] == b.undos@[i]);
    }
    if pv {
        assert forall|i: int| 0 <= i < ply implies #[trigger] c.pv_len@[i] == a.pv_len@[i] by {
            assert(c.pv_len@[i] == b.pv_len@[i]);
        }
        assert forall|i: int| 0 <= i < ply * 248 implies #[trigger] c.pv@[i] == a.pv@[i] by {
            assert(c.pv@[i] == b.pv@[i]);
        }
    }
}

/// Does the table's entry reach as deep as `depth`?
pub open spec fn is_deep(hit: Option<Hit>, depth: i32) -> bool {
    hit matches Some(h) && h.depth >= depth
}

/// A move that a node is to look at: a listed one that is neither left out nor
/// claimed.
pub open spec fn is_candidate(b: &Board, excluded: Move, claimed: Seq<Move>, m: Move) -> bool {
    listed_at(pos_of(b@)).contains(m) && m != excluded && !claimed.contains(m)
}

/// Every candidate is still to come.
pub open spec fn all_to_come(p: MovePicker, b: &Board, excluded: Move, claimed: Seq<Move>) -> bool {
    forall|m: Move| #[trigger] is_candidate(b, excluded, claimed, m) ==> p.to_come(b, false, m)
}

/// The picker can put off every losing capture of this position.
pub open spec fn has_room(b: &Board) -> bool {
    losing(gen_of(b, GEN_CAPTURES), 0).len() <= MAX_BAD
}

/// There is a move besides `m`.
pub open spec fn has_other(b: &Board, m: Move) -> bool {
    exists|x: Move| #[trigger] is_candidate(b, m, Seq::empty(), x)
}

/// A legal move besides `m` shows that there is one.
proof fn lemma_other(b: &Board, m: Move, x: Move)
    requires
        b.wf(),
        b.legal_here(x),
        x.compact(),
        x != m,
    ensures
        has_other(b, m),
{
    lemma_board_gen(b, GEN_ALL);
    generated_exactly_legal(gen_of(b, GEN_ALL));
    assert(is_candidate(b, m, Seq::empty(), x));
}

/// A legal move is listed.
proof fn lemma_listed(b: &Board, m: Move)
    requires
        b.wf(),
        b.legal_here(m),
        m.compact(),
    ensures
        listed_at(game_of(b).pos()).contains(m),
{
    lemma_board_gen(b, GEN_ALL);
    generated_exactly_legal(gen_of(b, GEN_ALL));
}

/// The same on every board with the position.
proof fn lemma_other_same(a: &Board, b: &Board, m: Move)
    requires
        pos_of(a@) == pos_of(b@),
    ensures
        has_other(a, m) == has_other(b, m),
        has_room(a) == has_room(b),
{
    assert(gen_of(a, GEN_CAPTURES) == gen_of(b, GEN_CAPTURES));
    if has_other(a, m) {
        let x = choose|x: Move| #[trigger] is_candidate(a, m, Seq::empty(), x);
        assert(is_candidate(b, m, Seq::empty(), x));
    }
    if has_other(b, m) {
        let x = choose|x: Move| #[trigger] is_candidate(b, m, Seq::empty(), x);
        assert(is_candidate(a, m, Seq::empty(), x));
    }
}

/// With the turn passed the position is a draw: by the fifty-move rule or by
/// material. A passed turn repeats nothing.
pub open spec fn draws_by_passing(b: &Board) -> bool {
    count_up(b.halfmove) >= 100 || too_little(b.q())
}

/// `c` is the game on `b` after `m`.
pub open spec fn follows(b: &Board, m: Move, c: &Board) -> bool {
    &&& c.q() == moved(b.q(), b.stm, m)
    &&& c.stm == b.stm.flip()
    &&& c.ep == ep_after(b.q(), b.stm, m)
    &&& c.halfmove == if irreversible(b.q(), b.stm, m) {
        0
    } else {
        count_up(b.halfmove)
    }
    &&& c.plies_from_null == count_up(b.plies_from_null)
    &&& c.keyed()
    &&& c.hist@ == b.hist@.push(c.key)
}

/// After `m` the position is a draw at `ply`.
pub open spec fn draws_by(b: &Board, m: Move, ply: int) -> bool {
    forall|c: &Board| #[trigger] follows(b, m, c) ==> is_drawn(c, ply)
}

/// Without the quiets the rest is still to come.
proof fn lemma_quiets_skipped(p: MovePicker, b: &Board)
    requires
        b.wf(),
        p.serves(b),
    ensures
        forall|m: Move| #[trigger]
            p.to_come(b, true, m) <== p.to_come(b, false, m) && is_noisy(b.q(), m),
{
    let g = gen_of(b, GEN_QUIETS);
    lemma_board_gen(b, GEN_QUIETS);
    generated_exactly_legal(g);
    assert forall|m: Move| p.to_come(b, false, m) && is_noisy(b.q(), m) implies #[trigger] p.to_come(
        b,
        true,
        m,
    ) by {
        if moves_of(g).contains(m) {
            assert(wanted(g, m));
        }
    }
}

/// What is still to come among the losing captures loses.
proof fn lemma_losing_left(p: MovePicker, b: &Board, skip: bool)
    requires
        p.serves(b),
        p.stage == STAGE_BAD_CAPTURES,
        p.see_threshold == 0,
    ensures
        forall|m: Move| #[trigger]
            p.to_come(b, skip, m) ==> comes_last(b.q(), b.stm, p.tt_move, m),
{
    assert forall|m: Move| #[trigger] p.to_come(b, skip, m) implies comes_last(
        b.q(),
        b.stm,
        p.tt_move,
        m,
    ) by {
        assert(in_tail(p.bad@, p.bad_idx as int, m));
        let i = choose|i: int| p.bad_idx <= i < p.bad@.len() && #[trigger] p.bad@[i] == m;
        assert(in_tail(p.bad@, 0, m));
    }
}

/// The game on the board after `m`.
proof fn lemma_after(b: &Board, m: Move, c: &Board)
    requires
        follows(b, m, c),
    ensures
        game_of(c) == game_of(b).after(m),
{
    assert(game_of(c).hist =~= game_of(b).after(m).hist);
}

/// Moves lead to the same draws on boards with the same game.
proof fn lemma_draws_same(a: &Board, b: &Board, m: Move, ply: int)
    requires
        same_game(a@, b@),
    ensures
        draws_by(a, m, ply) == draws_by(b, m, ply),
{
    assert forall|c: &Board| #![trigger follows(a, m, c)] #![trigger follows(b, m, c)]
        follows(a, m, c) == follows(b, m, c) by {}
}

/// A ProbCut by `m` with the score `v` is left in the table.
pub open spec fn records_cut(sh: &Shared, key: u64, m: Move, v: i32, node: Node, depth: i32, ply: usize) -> bool {
    sh.tt.records(
        key,
        m,
        table_score(v as int, ply as int) as i32,
        node.raw,
        (depth - 2) as i32,
        BOUND_LOWER,
        node.tt_pv,
    )
}

/// Boards with the same game are draws together.
proof fn lemma_drawn_same(a: &Board, b: &Board, ply: int)
    requires
        same_game(a@, b@),
    ensures
        is_drawn(a, ply) == is_drawn(b, ply),
{
    assert(gen_of(a, GEN_ALL) == gen_of(b, GEN_ALL));
    assert forall|i: int| #![trigger a.repeats(i)] #![trigger b.repeats(i)]
        a.repeats(i) == b.repeats(i) by {}
}

/// A move that ProbCut tries: a capture or promotion that wins `threshold` and is
/// not left out.
pub open spec fn is_promising(b: &Board, excluded: Move, threshold: int, m: Move) -> bool {
    &&& b.legal_here(m)
    &&& m.compact()
    &&& is_noisy(b.q(), m)
    &&& see(b.q(), b.stm, m) >= threshold
    &&& m != excluded
}

/// The lower end of the window at `ply`: nothing is worse than being mated there.
pub open spec fn low_end(alpha: i32, ply: usize) -> i32 {
    greater(alpha, mated_in(ply))
}

/// The upper end: nothing is better than mating with the next move. A window that
/// is empty by then holds no line that beats a mate already found closer to the
/// root.
pub open spec fn high_end(beta: i32, ply: usize) -> i32 {
    lesser(beta, mate_in((ply + 1) as usize))
}

proof fn lemma_all_start(p: MovePicker, b: &Board, excluded: Move, claimed: Seq<Move>)
    requires
        b.wf(),
        p.stage == if in_check_at(b.q(), b.stm) {
            STAGE_EVASION_GEN
        } else {
            STAGE_TT
        },
        p.unused(),
        !p.noisy_only,
        p.see_threshold == 0,
        p.writes_compactly(),
    ensures
        all_to_come(p, b, excluded, claimed),
        has_room(b) ==> p.roomy(b),
{
    lemma_board_gen(b, GEN_ALL);
    generated_exactly_legal(gen_of(b, GEN_ALL));
    assert forall|m: Move| #[trigger] is_candidate(b, excluded, claimed, m) implies p.to_come(
        b,
        false,
        m,
    ) by {
        if in_check_at(b.q(), b.stm) {
            picker_covers_the_evasions(p, b, false, m);
        } else {
            picker_covers_the_legal_moves(p, b, m);
        }
    }
}

/// What is to come is the same on every board with the position.
proof fn lemma_to_come_same(p: MovePicker, a: &Board, b: &Board, m: Move)
    requires
        a.q() == b.q(),
        a.stm == b.stm,
        a.ep == b.ep,
    ensures
        p.to_come(a, false, m) == p.to_come(b, false, m),
        p.roomy(a) == p.roomy(b),
{
    assert(a.legal_here(p.tt_move) == b.legal_here(p.tt_move));
    assert(gen_of(a, GEN_ALL) == gen_of(b, GEN_ALL));
    assert(gen_of(a, GEN_CAPTURES) == gen_of(b, GEN_CAPTURES));
    assert(gen_of(a, GEN_QUIETS) == gen_of(b, GEN_QUIETS));
}

/// So it is with quiets or without.
proof fn lemma_come_same(p: MovePicker, a: &Board, b: &Board, skip: bool, m: Move)
    requires
        a.q() == b.q(),
        a.stm == b.stm,
        a.ep == b.ep,
    ensures
        p.to_come(a, skip, m) == p.to_come(b, skip, m),
{
    lemma_to_come_same(p, a, b, m);
    lemma_noisy_same(p, a, b, m);
}

/// The turn of the moves that leave a picker out of check in this stage.
pub open spec fn turn_at(stage: u8) -> int {
    if stage <= STAGE_GEN_CAPTURES {
        0
    } else if stage == STAGE_GOOD_CAPTURES {
        1
    } else if stage <= STAGE_QUIETS {
        2
    } else {
        3
    }
}

/// A picker goes from turn to turn.
proof fn lemma_turns(b: &Board, p: MovePicker, n: MovePicker, in_check: bool, r: Option<Move>)
    requires
        n.comes_after(&p),
        n.see_threshold == 0,
        if in_check {
            p.stage >= STAGE_DONE
        } else {
            p.stage <= STAGE_DONE
        },
        r matches Some(m) ==> n.handed_out(b, m),
    ensures
        if in_check {
            n.stage >= STAGE_DONE
        } else {
            n.stage <= STAGE_DONE
        },
        !in_check ==> turn_at(p.stage) <= turn_at(n.stage),
        in_check ==> turn_at(n.stage) == 3,
        in_check ==> turn_at(p.stage) == 3,
        r matches Some(m) ==> !in_check ==> turn_of(b.q(), b.stm, n.tt_move, m) == turn_at(n.stage),
        r matches Some(m) ==> !in_check ==> (n.stage == STAGE_BAD_CAPTURES) == comes_last(
            b.q(),
            b.stm,
            n.tt_move,
            m,
        ),
{
}

/// A move to look at is legal.
proof fn lemma_choice_legal(b: &Board, t: Task, m: Move)
    requires
        b.wf(),
        t.is_choice(game_of(b), m),
    ensures
        b.legal_here(m),
        m.compact(),
{
    lemma_board_gen(b, GEN_ALL);
    generated_exactly_legal(gen_of(b, GEN_ALL));
}

/// At first everything is to come.
proof fn lemma_covers_start(p: MovePicker, b: &Board, g: Game, t: Task)
    requires
        g == game_of(b),
        all_to_come(p, b, t.excluded, t.claimed),
    ensures
        covers(p, b, false, g, t, Seq::empty(), None),
{
    reveal(covers);
    assert forall|m: Move| #[trigger] t.is_choice(g, m) implies p.to_come(b, false, m) by {
        assert(is_candidate(b, t.excluded, t.claimed, m));
    }
}

/// A move handed out is the only one that goes, and the last is handed out when nothing is
/// left.
proof fn lemma_covers_next(
    p: MovePicker,
    n: MovePicker,
    a: &Board,
    b: &Board,
    skip: bool,
    g: Game,
    t: Task,
    ts: Seq<Trial>,
    r: Option<Move>,
)
    requires
        covers(p, b, skip, g, t, ts, None),
        a.q() == b.q(),
        a.stm == b.stm,
        a.ep == b.ep,
        p.roomy(b),
        p.roomy(a) ==> n.roomy(a) && match r {
            Some(m) => p.to_come(a, skip, m) && forall|x: Move| #[trigger]
                n.to_come(a, skip, x) <==> p.to_come(a, skip, x) && x != m,
            None => forall|x: Move| !#[trigger] p.to_come(a, skip, x),
        },
    ensures
        n.roomy(b),
        r is Some ==> covers(n, b, skip, g, t, ts, r),
        r is None ==> forall|m: Move| #[trigger]
            t.is_choice(g, m) ==> is_tried(ts, m) || (!is_noisy(g.q, m) && skip),
{
    reveal(covers);
    lemma_to_come_same(p, a, b, Move::none());
    lemma_to_come_same(n, a, b, Move::none());
    assert forall|m: Move| #[trigger] t.is_choice(g, m) implies match r {
        Some(x) => n.to_come(b, skip, m) || is_tried(ts, m) || (!is_noisy(g.q, m) && skip) || x
            == m,
        None => is_tried(ts, m) || (!is_noisy(g.q, m) && skip),
    } by {
        lemma_come_same(p, a, b, skip, m);
        lemma_come_same(n, a, b, skip, m);
    }
}

/// From now on without the quiets.
proof fn lemma_covers_skip(p: MovePicker, b: &Board, g: Game, t: Task, ts: Seq<Trial>, x: Option<Move>)
    requires
        b.wf(),
        g == game_of(b),
        p.serves(b),
        covers(p, b, false, g, t, ts, x),
    ensures
        covers(p, b, true, g, t, ts, x),
{
    reveal(covers);
    lemma_quiets_skipped(p, b);
}

/// Where the losing captures are left out, nothing else is missing.
proof fn lemma_covers_stop(
    sh: &Shared,
    p: MovePicker,
    b: &Board,
    skip: bool,
    g: Game,
    node: Node,
    t: Task,
    ts: Seq<Trial>,
)
    requires
        g == game_of(b),
        covers(p, b, skip, g, t, ts, None),
        p.serves(b),
        p.stage == STAGE_BAD_CAPTURES,
        p.see_threshold == 0,
        p.tt_move == node.tt_move,
        skip ==> skips_quiets(sh, g, node, t, ts),
        skips_losing(sh, g, node, t, ts),
    ensures
        all_searched(sh, g, node, t, ts),
{
    reveal(covers);
    lemma_losing_left(p, b, skip);
}

/// One move handed out: a candidate goes only by being handed out.
proof fn lemma_all_next(
    p: MovePicker,
    n: MovePicker,
    a: &Board,
    b: &Board,
    r: Option<Move>,
    excluded: Move,
    claimed: Seq<Move>,
)
    requires
        a.q() == b.q(),
        a.stm == b.stm,
        a.ep == b.ep,
        all_to_come(p, b, excluded, claimed),
        p.roomy(b),
        p.roomy(a) ==> n.roomy(a) && match r {
            Some(m) => p.to_come(a, false, m) && forall|x: Move| #[trigger]
                n.to_come(a, false, x) <==> p.to_come(a, false, x) && x != m,
            None => forall|x: Move| !#[trigger] p.to_come(a, false, x),
        },
    ensures
        n.roomy(b),
        r matches Some(m) ==> m == excluded || claimed.contains(m) ==> all_to_come(
            n,
            b,
            excluded,
            claimed,
        ),
        r is None ==> forall|m: Move| !#[trigger] is_candidate(b, excluded, claimed, m),
{
    lemma_to_come_same(p, a, b, excluded);
    lemma_to_come_same(n, a, b, excluded);
    assert forall|x: Move| #[trigger] is_candidate(b, excluded, claimed, x) implies r is Some && (
    r == Some(x) || n.to_come(b, false, x)) by {
        lemma_to_come_same(p, a, b, x);
        lemma_to_come_same(n, a, b, x);
        assert(p.to_come(a, false, x));
    }
}

/// The path is the same where the stack before is.
proof fn lemma_path_same(a: &Searcher, b: &Searcher, ply: usize)
    requires
        forall|i: int| 0 <= i < ply + 8 ==> #[trigger] a.ss@[i] == b.ss@[i],
        a.root_depth == b.root_depth,
    ensures
        a.path(ply) == b.path(ply),
{
    assert(a.path(ply).trail =~= b.path(ply).trail);
    assert(a.path(ply).evals =~= b.path(ply).evals);
    assert(a.ss@[ply + 7] == b.ss@[ply + 7]);
}

/// One move on.
proof fn lemma_path_moved(o: &Searcher, n: &Searcher, ply: usize, m: Move)
    requires
        ply < 246,
        o.board.legal_here(m),
        n.ss@ == o.ss@.update(
            ply + 8,
            (Stack {
                current_move: m,
                cont_idx: (o.board.q()[m.from().0 as int].0 * 100 + m.to().0) as usize,
                ..o.ss@[ply + 8]
            }),
        ),
        o.ss@.len() == 262,
        n.root_depth == o.root_depth,
    ensures
        n.path((ply + 1) as usize) == o.path(ply).moved(
            o.ss@[ply + 8].static_eval,
            o.board.q(),
            m,
        ),
{
    let p = n.path((ply + 1) as usize);
    let e = o.path(ply).moved(o.ss@[ply + 8].static_eval, o.board.q(), m);
    assert(p.trail =~= e.trail);
    assert(p.evals =~= e.evals);
    lemma_move_is_no_pass(&o.board, m);
}

/// The search of a reply is the task that it should be.
proof fn lemma_reply_is(
    n: &Searcher,
    g: Game,
    node: Node,
    t: Task,
    m: Move,
    alpha: i32,
    beta: i32,
    depth: i32,
    pv: bool,
    cut_node: bool,
    line: Seq<Move>,
)
    requires
        t.ply < 246,
        n.whole((t.ply + 1) as usize),
        n.path((t.ply + 1) as usize) == t.path.moved(node.static_eval, g.q, m),
    ensures
        n.task(alpha, beta, depth, (t.ply + 1) as usize, pv, cut_node, line) == t.reply(
            g,
            node,
            m,
            alpha as int,
            beta as int,
            depth as int,
            pv,
            cut_node,
            line,
        ),
{
}

/// One passed turn on.
proof fn lemma_path_turned(o: &Searcher, n: &Searcher, ply: usize)
    requires
        ply < 246,
        n.ss@ == o.ss@.update(
            ply + 8,
            (Stack { current_move: Move::null(), cont_idx: NULL_CONT, ..o.ss@[ply + 8] }),
        ),
        o.ss@.len() == 262,
        n.root_depth == o.root_depth,
    ensures
        n.path((ply + 1) as usize) == o.path(ply).turned_over(o.ss@[ply + 8].static_eval),
{
    let p = n.path((ply + 1) as usize);
    let e = o.path(ply).turned_over(o.ss@[ply + 8].static_eval);
    assert(p.trail =~= e.trail);
    assert(p.evals =~= e.evals);
}

/// A legal move goes somewhere.
proof fn lemma_move_is_no_pass(b: &Board, m: Move)
    requires
        b.legal_here(m),
    ensures
        m != Move::null(),
        m != Move::none(),
{
}

/// A history by the same two planes is the same.
proof fn lemma_history_same(h: HistView, q: Seq<Piece>, stm: Color, c: Conts, d: Conts, m: Move)
    requires
        c@ == d@,
    ensures
        history_of(h, q, stm, c, m) == history_of(h, q, stm, d, m),
{
    assert(c[0] == c@[0] && d[0] == d@[0] && c[1] == c@[1] && d[1] == d@[1]);
}

/// These trials come to `r` and leave `m` in front.
pub open spec fn is_led_by(
    sh: &Shared,
    g: Game,
    node: Node,
    t: Task,
    ts: Seq<Trial>,
    m: Move,
    r: i32,
) -> bool {
    &&& moves_tried(sh, g, node, t, ts)
    &&& r == t.comes_to(g, ts)
    &&& ts.len() > 0 ==> m == lead_of(ts, (-INFINITE) as i32)
}

impl Searcher {
    /// `self` is `o` after the reply to the move at `ply` was searched, or not.
    pub open spec fn stepped(&self, o: &Searcher, sh: &Shared, ply: int) -> bool {
        &&& self.fit(*sh.net, ply + 1)
        &&& self.stops_duly(o, sh)
        &&& self.kept(o, ply + 1)
        &&& self.pv_below(o, ply + 1)
    }

    /// The searcher can search from `ply` to `depth` with this window.
    pub open spec fn ready(
        &self,
        sh: &Shared,
        alpha: i32,
        beta: i32,
        depth: i32,
        ply: usize,
        pv: bool,
    ) -> bool {
        &&& self.fit(*sh.net, ply as int)
        &&& sh.ok()
        &&& ply <= 246
        &&& -33000 <= alpha < beta <= 33000
        &&& -10_000 <= depth <= DEEPEST + ply
        &&& 0 <= self.root_depth <= DEEPEST
        &&& !self.whole(ply) && in_check_at(self.board.q(), self.board.stm) ==> self.ss@[ply
            + 8].static_eval == VALUE_NONE
        &&& ply == 0 ==> pv && depth > 0 && alpha >= -INFINITE
    }

    /// Nobody is asked to leave a move out at `ply`.
    pub open spec fn whole(&self, ply: usize) -> bool {
        self.ss@[ply + 8].excluded == Move::none()
    }

    /// A root search that finds a line finds it with its best move in front.
    pub open spec fn leads_with_best(&self, o: &Searcher, alpha: i32, r: i32) -> bool {
        &&& self.row(0).len() > 0 ==> self.row(0)[0] == self.best_move
            && !self.root_excluded@.contains(self.best_move) && (self.stopped || self.best_score
            == r)
        &&& !self.stopped && has_room(&o.board) && o.has_candidate() ==> self.counted(o) && (r
            > alpha ==> self.row(0).len() > 0)
    }

    /// A search of the moves besides the one left out: with none there the score is
    /// alpha, otherwise one is tried.
    pub open spec fn tests(&self, o: &Searcher, alpha: i32, ply: usize, r: i32) -> bool {
        if has_other(&o.board, o.ss@[ply + 8].excluded) {
            !self.stopped && has_room(&o.board) ==> self.counted(o)
        } else {
            r == alpha
        }
    }

    /// How the search has come to `ply`.
    pub open spec fn path(&self, ply: usize) -> Path {
        Path {
            trail: Seq::new((ply + 8) as nat, |i: int| self.ss@[i].cont_idx),
            evals: Seq::new((ply + 8) as nat, |i: int| self.ss@[i].static_eval),
            passed: self.ss@[ply + 7].current_move == Move::null(),
            root_depth: self.root_depth,
        }
    }

    /// The search from `ply` with this window and depth, which finds this line.
    pub open spec fn task(
        &self,
        alpha: i32,
        beta: i32,
        depth: i32,
        ply: usize,
        pv: bool,
        cut_node: bool,
        line: Seq<Move>,
    ) -> Task {
        Task {
            alpha,
            beta,
            depth,
            ply,
            pv,
            cut_node,
            excluded: self.ss@[ply + 8].excluded,
            known: if self.ss@[ply + 8].excluded != Move::none() {
                self.ss@[ply + 8].static_eval
            } else {
                VALUE_NONE
            },
            claimed: if ply == 0 {
                self.root_excluded@
            } else {
                Seq::empty()
            },
            hint: if ply == 0 {
                Some(self.best_move)
            } else {
                None
            },
            path: self.path(ply),
            line,
        }
    }

    /// In a variation, the line found at `ply`.
    pub open spec fn line_at(&self, ply: int, pv: bool) -> Seq<Move> {
        if pv {
            self.row(ply)
        } else {
            Seq::empty()
        }
    }

    /// There is a root move to look at.
    pub open spec fn has_candidate(&self) -> bool {
        exists|m: Move| #[trigger]
            is_candidate(&self.board, self.ss@[8].excluded, self.root_excluded@, m)
    }

    /// Passes the turn and searches whether the node still holds.
    fn try_pass(&mut self, sh: &Shared, beta: i32, depth: i32, cut_node: bool, ply: usize) -> (r: i32)
        requires
            old(self).fit(*sh.net, ply as int),
            sh.ok(),
            1 <= ply < 246,
            -32999 <= beta <= 32999,
            -10_000 <= depth <= DEEPEST + ply,
            0 <= old(self).root_depth <= DEEPEST,
            !in_check_at(old(self).board.q(), old(self).board.stm),
        ensures
            final(self).tried(old(self), sh, Move::null(), ply as int, false),
            -SCORE_LIMIT <= r <= SCORE_LIMIT,
            // What follows is known to follow a passed turn.
            final(self).ss@[ply + 8].current_move == Move::null(),
            final(self).ss@[ply + 8].cont_idx == NULL_CONT,
            old(self).stopped ==> r == DRAW,
            !final(self).stopped ==> {
                let drawn = draws_by_passing(&old(self).board);
                let low = low_end((-beta) as i32, (ply + 1) as usize);
                if drawn && (ply < 245 || depth > 0) {
                    r == DRAW
                } else if ply == 245 {
                    r == -adjusted(
                        value_for(*sh.net, old(self).board.q(), old(self).board.stm.flip()) as i32,
                        count_up(old(self).board.halfmove),
                        old(self).hist.correction_of(
                            old(self).board.stm.flip(),
                            old(self).board.pawn_key,
                            NULL_CONT,
                        ),
                    )
                } else {
                    depth > 0 && low >= high_end((-beta + 1) as i32, (ply + 1) as usize) ==> r
                        == -low
                }
            },
            !final(self).stopped ==> search_worth(
                sh,
                game_of(&old(self).board).passed(),
                plain_task(
                    (ply + 1) as usize,
                    old(self).path(ply).turned_over(old(self).ss@[ply + 8].static_eval),
                    -beta,
                    -beta + 1,
                    depth as int,
                    false,
                    !cut_node,
                    Seq::empty(),
                ),
                (-r) as i32,
            ),
        decreases 247 - ply, 0int, 3int,
    {
        let ghost o = *self;
        let mut here = self.ss[ply + OFF];
        assert(self.ss@[ply + 8].ok());
        here.current_move = Move::null();
        here.cont_idx = NULL_CONT;
        self.ss[ply + OFF] = here;
        let mut undo = self.undos[ply + OFF];
        self.board.make_null(sh.tables, &mut undo);
        self.undos[ply + OFF] = undo;
        self.eval.push_null(sh.net);
        let ghost mid = *self;
        proof {
            assert(is_drawn(&mid.board, ply + 1) == draws_by_passing(&o.board)) by {
                assert forall|i: int| !#[trigger] mid.board.repeats(i) by {}
            }
            assert(game_of(&mid.board).hist =~= game_of(&o.board).passed().hist);
            assert(game_of(&mid.board) == game_of(&o.board).passed());
            assert(mid.ss@[ply + 9].excluded == Move::none());
            lemma_path_turned(&o, &mid, ply);
        }
        let score = -self.search::<false>(sh, -beta, -beta + 1, depth, !cut_node, ply + 1);
        let ghost after = *self;
        proof {
            assert(after.undos@[ply + 8] == mid.undos@[ply + 8]);
            assert(after.ss@[ply + 8] == mid.ss@[ply + 8]);
        }
        self.eval.pop(sh.net);
        let undo = self.undos[ply + OFF];
        self.board.unmake_null(&undo);
        proof {
            unmake_null_restores(o.board, mid.board, after.board, self.board, undo);
            assert(self.eval.path() =~= o.eval.path());
        }
        score
    }

    /// Whole-node pruning: reverse futility, razoring, and the null move.
    fn prune_node(
        &mut self,
        sh: &Shared,
        node: &Node,
        alpha: i32,
        beta: i32,
        depth: i32,
        cut_node: bool,
        ply: usize,
    ) -> (r: Option<i32>)
        requires
            old(self).ready(sh, alpha, beta, depth, ply, false),
            ply < 246,
            depth > 0,
            -32001 <= alpha,
            node.ok(&old(self).board),
            !node.in_check,
            old(self).ss@[ply + 8].static_eval == node.static_eval,
            !is_mate(beta),
        ensures
            final(self).searched(old(self), sh, ply as int, false),
            final(self).ss@[ply + 8].killers == old(self).ss@[ply + 8].killers,
            final(self).ss@[ply + 8].static_eval == old(self).ss@[ply + 8].static_eval,
            r matches Some(v) ==> -SCORE_LIMIT <= v <= SCORE_LIMIT,
            // Reverse futility looks at nothing but the evaluation.
            depth <= 6 && node.eval - 62 * (depth - one_if(node.improving)) >= beta ==> r == Some(
                (beta + trunc(node.eval - beta, 3)) as i32,
            ),
            // Between the margins nothing is pruned.
            depth > 3 && node.eval < beta ==> r is None,
            // A node is pruned by one of the rules, or by none.
            !final(self).stopped ==> match r {
                Some(v) => is_pruned(
                    sh,
                    game_of(&old(self).board),
                    *node,
                    old(self).task(alpha, beta, depth, ply, false, cut_node, Seq::empty()),
                    v,
                ),
                None => stands_up(
                    sh,
                    game_of(&old(self).board),
                    *node,
                    old(self).task(alpha, beta, depth, ply, false, cut_node, Seq::empty()),
                ),
            },
        decreases 247 - ply, plies_of(depth), 4int,
    {
        let ghost o = *self;
        // Reverse futility pruning.
        let ghost g = game_of(&o.board);
        let ghost t = o.task(alpha, beta, depth, ply, false, cut_node, Seq::empty());
        let ghost mut w: i32 = 0;
        if let Some(v) = reverse_futility(node.eval, beta, depth, node.improving) {
            proof {
                lemma_pruned_early(sh, g, *node, t, v);
            }
            return Some(v);
        }
        // Razoring.
        if razors(node.eval, alpha, depth) {
            let v = self.qsearch::<false>(sh, alpha - 1, alpha, ply);
            assert(self.searched(&o, sh, ply as int, false));
            if v < alpha {
                proof {
                    if !self.stopped {
                        lemma_pruned_early(sh, g, *node, t, v);
                    }
                }
                return Some(v);
            }
        }
        // Null move pruning.
        if depth >= NMP_MIN_DEPTH && node.eval >= beta && self.ss[ply + OFF].static_eval
            + NMP_VERIFY_SLOPE * depth >= beta && !self.board.only_pawns(self.board.stm)
            && self.ss[ply + OFF - 1].current_move != Move::null() {
            let r = null_reduction(depth, node.eval, beta);
            let ghost before = *self;
            let score = self.try_pass(sh, beta, depth - r, cut_node, ply);
            proof {
                lemma_told_twice(&*self, &before, &o, sh);
                lemma_path_same(&before, &o, ply);
                w = (-score) as i32;
            }
            if self.stopped {
                return Some(DRAW);
            }
            if score >= beta {
                proof {
                    lemma_pruned_by_passing(
                        sh,
                        g,
                        *node,
                        t,
                        w,
                        if score >= MATE_IN_MAX {
                            beta
                        } else {
                            score
                        },
                    );
                }
                // A mate score proved by not moving is not a mate.
                return Some(
                    if score >= MATE_IN_MAX {
                        beta
                    } else {
                        score
                    },
                );
            }
        }
        proof {
            if !self.stopped {
                lemma_stands_up(sh, g, *node, t, w);
            }
        }
        None
    }

    /// Makes `m`, searches the reply against the raised beta, first quietly, and
    /// takes `m` back.
    fn try_noisy(
        &mut self,
        sh: &Shared,
        m: Move,
        pc_beta: i32,
        depth: i32,
        cut_node: bool,
        ply: usize,
    ) -> (r: i32)
        requires
            old(self).fit(*sh.net, ply as int),
            sh.ok(),
            1 <= ply < 246,
            -32999 <= pc_beta <= 32999,
            -10_000 <= depth <= DEEPEST + ply,
            0 <= old(self).root_depth <= DEEPEST,
            old(self).board.legal_here(m),
        ensures
            final(self).tried(old(self), sh, m, ply as int, false),
            final(self).counted(old(self)),
            -SCORE_LIMIT <= r <= SCORE_LIMIT,
            !final(self).stopped && ply < 245 && draws_by(&old(self).board, m, ply + 1) ==> r
                == DRAW,
            !final(self).stopped ==> exists|w: i32| #[trigger]
                is_probed(pc_beta as int, w, r) && quiet_worth(
                    sh,
                    game_of(&old(self).board).after(m),
                    (-pc_beta) as i32,
                    (-pc_beta + 1) as i32,
                    (ply + 1) as usize,
                    false,
                    w,
                    Seq::empty(),
                ) && (-w >= pc_beta ==> search_worth(
                    sh,
                    game_of(&old(self).board).after(m),
                    plain_task(
                        (ply + 1) as usize,
                        old(self).path(ply).moved(
                            old(self).ss@[ply + 8].static_eval,
                            old(self).board.q(),
                            m,
                        ),
                        -pc_beta,
                        -pc_beta + 1,
                        depth as int,
                        false,
                        !cut_node,
                        Seq::empty(),
                    ),
                    (-r) as i32,
                )),
        decreases 247 - ply, 0int, 3int,
    {
        let ghost o = *self;
        self.do_move::<true>(sh, m, ply);
        let ghost mid = *self;
        let mut score = -self.qsearch::<false>(sh, -pc_beta, -pc_beta + 1, ply + 1);
        proof {
            assert(self.undos@[ply + 8] == mid.undos@[ply + 8]);
            assert(self.ss@[ply + 8] == mid.ss@[ply + 8]);
        }
        let ghost quieted = *self;
        let ghost w = (-score) as i32;
        proof {
            assert(follows(&o.board, m, &mid.board));
            lemma_after(&o.board, m, &mid.board);
            assert(game_of(&quieted.board) == game_of(&mid.board));
            assert(mid.ss@[ply + 9].excluded == Move::none());
            lemma_path_moved(&o, &mid, ply, m);
            lemma_path_same(&quieted, &mid, (ply + 1) as usize);
            lemma_drawn_same(&quieted.board, &mid.board, ply + 1);
        }
        if score >= pc_beta {
            score = -self.search::<false>(sh, -pc_beta, -pc_beta + 1, depth, !cut_node, ply + 1);
        }
        let ghost after = *self;
        proof {
            assert(after.undos@[ply + 8] == quieted.undos@[ply + 8]);
            assert(after.ss@[ply + 8] == quieted.ss@[ply + 8]);
            assert forall|i: int| 0 <= i < ply + 8 implies #[trigger] after.ss@[i] == o.ss@[i] by {
                assert(after.ss@[i] == quieted.ss@[i]);
                assert(quieted.ss@[i] == mid.ss@[i]);
            }
            assert forall|i: int| 0 <= i < ply + 8 implies #[trigger] after.undos@[i]
                == o.undos@[i] by {
                assert(after.undos@[i] == quieted.undos@[i]);
                assert(quieted.undos@[i] == mid.undos@[i]);
            }
        }
        self.undo_move::<true>(sh, m, ply);
        proof {
            unmake_restores(o.board, m, mid.board, after.board, self.board, mid.undos@[ply + 8]);
            assert(self.eval.path() =~= o.eval.path());
            assert(is_probed(pc_beta as int, w, score));
            lemma_told_twice(&after, &quieted, &mid, sh);
            lemma_told_counted(&*self, &mid, &o, sh);
        }
        score
    }

    /// ProbCut: a capture that beats a raised beta in a reduced search beats beta.
    #[verifier::rlimit(50)]
    #[verifier::spinoff_prover]
    fn probcut(
        &mut self,
        sh: &Shared,
        node: &Node,
        Ghost(alpha): Ghost<i32>,
        beta: i32,
        depth: i32,
        cut_node: bool,
        ply: usize,
    ) -> (r: Option<i32>)
        requires
            old(self).fit(*sh.net, ply as int),
            sh.ok(),
            1 <= ply < 246,
            5 <= depth <= DEEPEST + ply,
            0 <= old(self).root_depth <= DEEPEST,
            node.ok(&old(self).board),
            !node.in_check,
            node.eval != VALUE_NONE,
            node.excluded == old(self).ss@[ply + 8].excluded,
            node.static_eval == old(self).ss@[ply + 8].static_eval,
            !is_mate(beta),
        ensures
            final(self).searched(old(self), sh, ply as int, false),
            final(self).ss@[ply + 8].killers == old(self).ss@[ply + 8].killers,
            final(self).ss@[ply + 8].static_eval == old(self).ss@[ply + 8].static_eval,
            r matches Some(v) ==> -SCORE_LIMIT <= v <= SCORE_LIMIT,
            // The move that cuts is left in the table.
            !final(self).stopped && r is Some ==> exists|m: Move, v: i32| #[trigger]
                records_cut(sh, old(self).board.key, m, v, *node, depth, ply) && r == Some(v)
                    && probes_at(
                    sh,
                    game_of(&old(self).board),
                    *node,
                    old(self).task(alpha, beta, depth, ply, false, cut_node, Seq::empty()),
                    m,
                    v,
                ),
            // A node is cut, or no move cuts it.
            !final(self).stopped ==> match r {
                Some(v) => is_cut(
                    sh,
                    game_of(&old(self).board),
                    *node,
                    old(self).task(alpha, beta, depth, ply, false, cut_node, Seq::empty()),
                    v,
                ),
                None => is_uncut(
                    sh,
                    game_of(&old(self).board),
                    *node,
                    old(self).task(alpha, beta, depth, ply, false, cut_node, Seq::empty()),
                ),
            },
            ({
                let raised = beta + 209 - 52 * one_if(node.improving);
                let refuted = node.tt_depth >= depth - 3 && node.tt_score != VALUE_NONE
                    && node.tt_score < raised;
                let any = exists|m: Move| #[trigger]
                    is_promising(&old(self).board, node.excluded, raised - node.eval, m);
                &&& r matches Some(v) ==> (final(self).stopped && v == DRAW) || v >= raised
                // With nothing to try nothing is cut.
                &&& refuted || !any ==> r is None && final(self).nodes == old(self).nodes
                // Otherwise something is tried,
                &&& !refuted && any ==> final(self).counted(old(self)) && (final(self).stopped ==> r
                    == Some(DRAW))
                // and a draw that is good enough cuts.
                &&& !refuted && raised <= DRAW && ply < 245 && (exists|m: Move| #[trigger]
                    is_promising(&old(self).board, node.excluded, raised - node.eval, m)
                        && draws_by(&old(self).board, m, ply + 1)) ==> r is Some
            }),
        decreases 247 - ply, plies_of(depth), 4int,
    {
        let ghost o = *self;
        let ghost g = game_of(&o.board);
        let ghost t = o.task(alpha, beta, depth, ply, false, cut_node, Seq::empty());
        let pc_beta = probcut_beta(beta, node.improving);
        let deep_enough = node.tt_depth >= depth - 3 && node.tt_score != VALUE_NONE;
        if deep_enough && node.tt_score < pc_beta {
            proof {
                lemma_uncut(sh, g, *node, t);
            }
            return None;
        }
        let conts = self.conts(ply);
        let mut mp = MovePicker::new_probcut(node.tt_move, pc_beta - node.eval);
        let ghost threshold = pc_beta - node.eval;
        proof {
            assert forall|m: Move| #[trigger]
                is_promising(&o.board, node.excluded, threshold, m) implies mp.to_come(
                &o.board,
                true,
                m,
            ) by {
                picker_covers_the_noisy_moves(mp, &o.board, true, m);
            }
            assert forall|m: Move| #[trigger] mp.to_come(&o.board, true, m) && m
                != node.excluded implies is_promising(&o.board, node.excluded, threshold, m) by {
                picker_covers_the_noisy_moves(mp, &o.board, true, m);
            }
        }
        proof {
            assert forall|m: Move| #[trigger]
                promises(g, node.excluded, threshold as int, m) implies mp.to_come(
                &o.board,
                true,
                m,
            ) by {
                assert(is_promising(&o.board, node.excluded, threshold as int, m));
            }
        }
        let ghost mut tried_any = false;
        loop
            invariant_except_break
                mp.serves(&o.board),
                mp.noisy_only,
                // Whatever is still to come is promising, and a promising move that
                // has gone was tried in vain.
                forall|m: Move| #[trigger] mp.to_come(&o.board, true, m) && m != node.excluded
                    ==> is_promising(&o.board, node.excluded, threshold, m),
                forall|m: Move| #[trigger]
                    is_promising(&o.board, node.excluded, threshold, m) && (!tried_any || (pc_beta
                        <= DRAW && ply < 245 && draws_by(&o.board, m, ply + 1))) ==> mp.to_come(
                        &o.board,
                        true,
                        m,
                    ),
                forall|m: Move| #[trigger]
                    promises(g, node.excluded, threshold as int, m) ==> mp.to_come(&o.board, true, m)
                        || is_refused(sh, g, *node, t, m),
            invariant
                g == game_of(&o.board),
                t == o.task(alpha, beta, depth, ply, false, cut_node, Seq::empty()),
                node.excluded == o.ss@[ply + 8].excluded,
                node.static_eval == o.ss@[ply + 8].static_eval,
                self.ss@[ply + 8].static_eval == o.ss@[ply + 8].static_eval,
                t.tries_cut(*node),
                threshold == pc_beta - node.eval,
                tried_any ==> self.counted(&o) && !self.stopped && exists|m: Move| #[trigger]
                    is_promising(&o.board, node.excluded, threshold, m),
                !tried_any ==> self.nodes == o.nodes && self.stopped == o.stopped,
                o == *old(self),
                self.searched(&o, sh, ply as int, false),
                self.ss@[ply + 8].killers == o.ss@[ply + 8].killers,
                o.board.wf(),
                self.board.q() == o.board.q(),
                sh.ok(),
                1 <= ply < 246,
                5 <= depth <= DEEPEST + ply,
                0 <= self.root_depth <= DEEPEST,
                -31754 < beta < 31754,
                pc_beta == beta + 209 - 52 * one_if(node.improving),
                conts_ok(conts),
                mp.writes_compactly(),
                !(node.tt_depth >= depth - 3 && node.tt_score != VALUE_NONE && node.tt_score
                    < pc_beta),
            ensures
                forall|m: Move| #[trigger]
                    promises(g, node.excluded, threshold as int, m) ==> is_refused(
                        sh,
                        g,
                        *node,
                        t,
                        m,
                    ),
                forall|m: Move| #[trigger]
                    is_promising(&o.board, node.excluded, threshold, m) ==> tried_any && !(pc_beta
                        <= DRAW && ply < 245 && draws_by(&o.board, m, ply + 1)),
            decreases mp.rank(), mp.left(),
        {
            proof {
                lemma_serves_same(mp, &o.board, &self.board);
            }
            let ghost asked = mp;
            let next = mp.next(&self.board, sh.tables, &self.hist, &conts, true);
            proof {
                assert forall|x: Move|
                    #![trigger asked.to_come(&self.board, true, x)]
                    #![trigger asked.to_come(&o.board, true, x)]
                    asked.to_come(&self.board, true, x) == asked.to_come(&o.board, true, x) by {
                    lemma_noisy_same(asked, &self.board, &o.board, x);
                }
                assert forall|x: Move|
                    #![trigger mp.to_come(&self.board, true, x)]
                    #![trigger mp.to_come(&o.board, true, x)]
                    mp.to_come(&o.board, true, x) == mp.to_come(&self.board, true, x) by {
                    lemma_noisy_same(mp, &self.board, &o.board, x);
                }
            }
            match next {
                None => {
                    break;
                },
                Some(m) => {
                    proof {
                        lemma_serves_same(mp, &self.board, &o.board);
                    }
                    if m == node.excluded {
                        continue;
                    }
                    assert(is_promising(&o.board, node.excluded, threshold, m));
                    let ghost before = *self;
                    let score = self.try_noisy(sh, m, pc_beta, depth - PROBCUT_RED, cut_node, ply);
                    proof {
                        lemma_tried_kept(&*self, &before, &o, sh, m, ply as int, false);
                        lemma_told_twice(&*self, &before, &o, sh);
                        lemma_draws_same(&before.board, &o.board, m, ply + 1);
                        tried_any = true;
                    }
                    if self.stopped {
                        return Some(DRAW);
                    }
                    proof {
                        lemma_path_same(&before, &o, ply);
                        assert(game_of(&before.board) == g);
                        let w = choose|w: i32| #[trigger]
                            is_probed(pc_beta as int, w, score) && quiet_worth(
                                sh,
                                g.after(m),
                                (-pc_beta) as i32,
                                (-pc_beta + 1) as i32,
                                (ply + 1) as usize,
                                false,
                                w,
                                Seq::empty(),
                            ) && (-w >= pc_beta ==> search_worth(
                                sh,
                                g.after(m),
                                t.reply(
                                    g,
                                    *node,
                                    m,
                                    -pc_beta as int,
                                    -pc_beta + 1,
                                    depth - 3,
                                    false,
                                    !cut_node,
                                    Seq::empty(),
                                ),
                                (-score) as i32,
                            ));
                        lemma_probes(sh, g, *node, t, m, w, score);
                        if score < pc_beta {
                            assert(is_refused(sh, g, *node, t, m));
                        }
                    }
                    if score >= pc_beta {
                        proof {
                            assert(promises(g, t.excluded, t.raised(*node) - node.eval, m));
                            lemma_cut(sh, g, *node, t, m, score);
                        }
                        sh.tt.store(
                            self.board.key,
                            m,
                            score_to_tt(score, ply),
                            node.raw,
                            depth - (PROBCUT_RED - 1),
                            BOUND_LOWER,
                            node.tt_pv,
                        );
                        assert(records_cut(sh, o.board.key, m, score, *node, depth, ply));
                        return Some(score);
                    }
                },
            }
        }
        proof {
            lemma_uncut(sh, g, *node, t);
        }
        None
    }

    /// Searches everything *except* the hash move against a lowered window. If
    /// nothing else comes close, the hash move is the only move.
    fn try_without(&mut self, sh: &Shared, m: Move, window: i32, depth: i32, cut_node: bool, ply: usize) -> (r:
        i32)
        requires
            old(self).fit(*sh.net, ply as int),
            sh.ok(),
            1 <= ply < 246,
            -32999 <= window <= 33000,
            0 < depth <= DEEPEST + ply,
            0 <= old(self).root_depth <= DEEPEST,
            old(self).whole(ply),
            m != Move::none(),
            in_check_at(old(self).board.q(), old(self).board.stm) ==> old(self).ss@[ply
                + 8].static_eval == VALUE_NONE,
        ensures
            final(self).searched(old(self), sh, ply as int, false),
            final(self).ss@[ply + 8].static_eval == old(self).ss@[ply + 8].static_eval,
            -SCORE_LIMIT <= r <= SCORE_LIMIT,
            old(self).stopped ==> r == DRAW,
            !final(self).stopped ==> {
                let low = low_end((window - 1) as i32, ply);
                if is_drawn(&old(self).board, ply as int) {
                    r == DRAW
                } else if low >= high_end(window, ply) {
                    r == low
                } else if !has_other(&old(self).board, m) {
                    // Nothing else comes close to an only move.
                    r == low
                } else {
                    has_room(&old(self).board) ==> final(self).counted(
                        old(self),
                    )
                }
            },
            !final(self).stopped ==> search_worth(
                sh,
                game_of(&old(self).board),
                Task {
                    alpha: (window - 1) as i32,
                    beta: window,
                    depth,
                    ply,
                    pv: false,
                    cut_node,
                    excluded: m,
                    known: old(self).ss@[ply + 8].static_eval,
                    claimed: Seq::empty(),
                    hint: None,
                    path: old(self).path(ply),
                    line: Seq::empty(),
                },
                r,
            ),
        decreases 247 - ply, depth, 7int,
    {
        let ghost o = *self;
        let mut here = self.ss[ply + OFF];
        assert(self.ss@[ply + 8].ok());
        here.excluded = m;
        self.ss[ply + OFF] = here;
        let ghost marked = *self;
        proof {
            lemma_path_same(&marked, &o, ply);
        }
        let score = self.search::<false>(sh, window - 1, window, depth, cut_node, ply);
        let ghost after = *self;
        let mut here = self.ss[ply + OFF];
        assert(self.ss@[ply + 8].ok());
        here.excluded = Move::none();
        self.ss[ply + OFF] = here;
        proof {
            assert(self.board == after.board);
            assert forall|i: int| 0 <= i < ply + 8 implies #[trigger] self.ss@[i] == o.ss@[i] by {
                assert(after.ss@[i] == marked.ss@[i]);
            }
        }
        score
    }

    /// By how much the search of `m` is extended, bounded so that a chain of
    /// extensions cannot run the search away from the iteration it belongs to.
    fn extend(
        &mut self,
        sh: &Shared,
        node: &Node,
        m: Move,
        gives_check: bool,
        beta: i32,
        depth: i32,
        cut_node: bool,
        pv: bool,
        ply: usize,
        Ghost(t): Ghost<Task>,
    ) -> (r: Extension)
        requires
            t.beta == beta,
            t.depth == depth,
            t.ply == ply,
            t.excluded == node.excluded,
            t.pv == pv,
            t.cut_node == cut_node,
            t.path == old(self).path(ply),
            node.static_eval == old(self).ss@[ply + 8].static_eval,
            node.in_check ==> node.static_eval == VALUE_NONE,
            gives_check == checks(old(self).board.q(), old(self).board.stm, m),
            old(self).board.legal_here(m),
            old(self).fit(*sh.net, ply as int),
            sh.ok(),
            ply < 246,
            0 < depth <= DEEPEST + ply,
            0 <= old(self).root_depth <= DEEPEST,
            beta <= 33000,
            node.ok(&old(self).board),
            node.excluded == old(self).ss@[ply + 8].excluded,
        ensures
            final(self).searched(old(self), sh, ply as int, false),
            final(self).best_move == old(self).best_move,
            final(self).best_score == old(self).best_score,
            final(self).ss@[ply + 8].static_eval == old(self).ss@[ply + 8].static_eval,
            r matches Extension::By(e) ==> -2 <= e <= 2 && (ply == 0 ==> e == 0),
            r matches Extension::Decided(v) ==> -SCORE_LIMIT <= v <= SCORE_LIMIT && ply > 0
                && node.excluded == Move::none() && (final(self).stopped || v >= beta),
            // The hash move is extended by what a search without it shows, another move
            // where it gives check.
            !final(self).stopped ==> match r {
                Extension::By(e) => extends_by(sh, game_of(&old(self).board), *node, t, m, e),
                Extension::Decided(v) => cut_by_many(sh, game_of(&old(self).board), *node, t, v),
            },
        decreases 247 - ply, depth, 2int,
    {
        let ghost g = game_of(&self.board);
        proof {
            lemma_move_is_no_pass(&self.board, m);
        }
        if ply == 0 || ply >= (self.root_depth * 2) as usize {
            proof {
                lemma_extends(sh, g, *node, t, m, 0);
            }
            return Extension::By(0);
        }
        if depth >= SE_MIN_DEPTH && m == node.tt_move && node.excluded.is_none() && node.tt_depth
            >= depth - 3 && bounds_below(node.tt_bound) && !is_mate(node.tt_score) {
            let singular_beta: i32 = node.tt_score - depth * SE_BETA_SLOPE;
            let singular_depth: i32 = (depth - 1) / 2;
            let score = self.try_without(sh, m, singular_beta, singular_depth, cut_node, ply);
            if self.stopped {
                return Extension::Decided(DRAW);
            }
            match singular_extension(score, singular_beta, beta, node.tt_score, pv, cut_node) {
                Some(e) => {
                    proof {
                        lemma_extends_tested(sh, g, *node, t, score, e);
                    }
                    Extension::By(e)
                },
                // Multi-cut: several moves beat beta, so this node is a fail-high
                // without searching any of them properly.
                None => {
                    proof {
                        lemma_many_worth(sh, g, *node, t, score, singular_beta);
                    }
                    Extension::Decided(singular_beta)
                },
            }
        } else if gives_check && depth > CHECK_EXT_DEPTH {
            proof {
                lemma_extends(sh, g, *node, t, m, 1);
            }
            Extension::By(1)
        } else {
            proof {
                lemma_extends(sh, g, *node, t, m, 0);
            }
            Extension::By(0)
        }
    }

    /// One search of the reply to `m`, which is made.
    fn search_reply<const PV: bool>(
        &mut self,
        sh: &Shared,
        alpha: i32,
        beta: i32,
        depth: i32,
        cut_node: bool,
        ply: usize,
        Ghost(g): Ghost<Game>,
        Ghost(node): Ghost<Node>,
        Ghost(t): Ghost<Task>,
        Ghost(m): Ghost<Move>,
    ) -> (r: i32)
        requires
            old(self).fit(*sh.net, ply + 1),
            sh.ok(),
            ply < 246,
            -33000 <= alpha < beta <= 33000,
            -10_000 <= depth <= DEEPEST + ply + 1,
            0 <= old(self).root_depth <= DEEPEST,
            t.ply == ply,
            old(self).follows(g, node, t, m),
        ensures
            final(self).stepped(old(self), sh, ply as int),
            !PV ==> final(self).same_pv(old(self)),
            final(self).looks_first(old(self), sh),
            final(self).follows(g, node, t, m),
            PV ==> final(self).line_ok(ply + 1),
            -SCORE_LIMIT <= r <= SCORE_LIMIT,
            !final(self).stopped ==> search_worth(
                sh,
                g.after(m),
                t.reply(
                    g,
                    node,
                    m,
                    alpha as int,
                    beta as int,
                    depth as int,
                    PV,
                    cut_node,
                    final(self).line_at(ply + 1, PV),
                ),
                (-r) as i32,
            ),
        decreases 247 - ply, 0int, 0int,
    {
        let ghost o = *self;
        let score = -self.search::<PV>(sh, alpha, beta, depth, cut_node, ply + 1);
        proof {
            lemma_path_same(&*self, &o, (ply + 1) as usize);
            assert(game_of(&self.board) == game_of(&o.board));
            lemma_reply_is(
                &o,
                g,
                node,
                t,
                m,
                alpha,
                beta,
                depth,
                PV,
                cut_node,
                self.line_at(ply + 1, PV),
            );
        }
        score
    }

    /// The position is that after `m`, played at the node that `t` searches.
    pub open spec fn follows(&self, g: Game, node: Node, t: Task, m: Move) -> bool {
        &&& game_of(&self.board) == g.after(m)
        &&& self.path((t.ply + 1) as usize) == t.path.moved(node.static_eval, g.q, m)
        &&& self.whole((t.ply + 1) as usize)
    }

    /// Searches the reply to `m`, which is made: shallow against a null window first if it
    /// comes late, to the full depth if it beats alpha, and with the full window if it does
    /// so in a PV node.
    #[verifier::rlimit(60)]
    #[verifier::spinoff_prover]
    fn search_stages<const PV: bool>(
        &mut self,
        sh: &Shared,
        node: &Node,
        facts: &MoveFacts,
        moves: i32,
        alpha: i32,
        beta: i32,
        depth: i32,
        new_depth: i32,
        cut_node: bool,
        ply: usize,
        Ghost(g): Ghost<Game>,
        Ghost(t): Ghost<Task>,
        Ghost(i): Ghost<int>,
        Ghost(m): Ghost<Move>,
        Ghost(h): Ghost<HistView>,
    ) -> (r: i32)
        requires
            old(self).fit(*sh.net, ply + 1),
            sh.ok(),
            ply < 246,
            -33000 <= alpha < beta <= 33000,
            alpha < 33000,
            0 < depth <= DEEPEST + ply,
            depth - 3 <= new_depth <= depth + 1,
            0 <= old(self).root_depth <= DEEPEST,
            -65536 <= facts.hist_score <= 65536,
            t.beta == beta,
            t.depth == depth,
            t.ply == ply,
            t.pv == PV,
            t.cut_node == cut_node,
            0 <= i,
            moves == number_of(i),
            facts.quiet == !is_noisy(g.q, m),
            facts.gives_check == checks(g.q, g.stm, m),
            facts.hist_score == history_of(h, g.q, g.stm, t.path.planes(), m),
            old(self).follows(g, *node, t, m),
            !old(self).stopped ==> extends_by(
                sh,
                g,
                *node,
                t,
                m,
                (new_depth - (depth - 1)) as i32,
            ),
        ensures
            final(self).stepped(old(self), sh, ply as int),
            !PV ==> final(self).same_pv(old(self)),
            final(self).looks_first(old(self), sh),
            final(self).whole((ply + 1) as usize),
            PV && r > alpha ==> final(self).line_ok(ply + 1),
            -SCORE_LIMIT <= r <= SCORE_LIMIT,
            !final(self).stopped ==> reply_worth(
                sh,
                g,
                *node,
                t,
                i,
                alpha,
                Trial {
                    m,
                    outcome: Outcome::Scored(r),
                    hist: h,
                    busy: old(self).ss@[ply + 9].cutoff_cnt > 3,
                    line: final(self).line_at(ply + 1, PV),
                },
                r,
            ),
        decreases 247 - ply, 0int, 1int,
    {
        let ghost o = *self;
        let ghost mut s1: i32 = 0;
        let ghost mut s2: i32 = 0;
        let mut score: i32;
        let full_depth_search: bool;
        if depth >= 2 && moves > (if ply == 0 {
            3i32
        } else {
            1i32
        }) && (facts.quiet || !node.tt_pv) {
            let base = sh.lmr.lmr(depth, moves);
            // A node whose children keep failing high is badly ordered, so its
            // ordering is trusted less.
            let busy = self.ss[ply + OFF + 1].cutoff_cnt > 3;
            let r = late_reduction(
                base,
                PV,
                cut_node,
                node.tt_pv,
                node.improving,
                facts.gives_check,
                facts.quiet,
                facts.hist_score,
                busy,
            );
            let d = reduced_depth(new_depth, r);
            score = self.search_reply::<false>(
                sh,
                -alpha - 1,
                -alpha,
                d,
                true,
                ply,
                Ghost(g),
                Ghost(*node),
                Ghost(t),
                Ghost(m),
            );
            proof {
                s1 = score;
            }
            full_depth_search = score > alpha && d < new_depth;
        } else {
            full_depth_search = !PV || moves > 1;
            score = alpha + 1;
        }
        let ghost one = *self;
        if full_depth_search {
            score = self.search_reply::<false>(
                sh,
                -alpha - 1,
                -alpha,
                new_depth,
                !cut_node,
                ply,
                Ghost(g),
                Ghost(*node),
                Ghost(t),
                Ghost(m),
            );
            proof {
                s2 = score;
                lemma_step(&*self, &one, &o, sh, ply as int);
            }
        }
        let ghost two = *self;
        if PV && (moves == 1 || score > alpha) {
            score = self.search_reply::<PV>(
                sh,
                -beta,
                -alpha,
                new_depth,
                false,
                ply,
                Ghost(g),
                Ghost(*node),
                Ghost(t),
                Ghost(m),
            );
            proof {
                lemma_step(&*self, &two, &o, sh, ply as int);
            }
        }
        proof {
            if !self.stopped {
                let tr = Trial {
                    m,
                    outcome: Outcome::Scored(score),
                    hist: h,
                    busy: o.ss@[ply + 9].cutoff_cnt > 3,
                    line: self.line_at(ply + 1, PV),
                };
                lemma_reply(
                    sh,
                    g,
                    *node,
                    t,
                    i,
                    alpha,
                    tr,
                    score,
                    (new_depth - (depth - 1)) as i32,
                    s1,
                    s2,
                );
            }
        }
        score
    }

    /// Makes `m`, searches it and takes it back.
    #[verifier::rlimit(60)]
    #[verifier::spinoff_prover]
    fn search_move<const PV: bool>(
        &mut self,
        sh: &Shared,
        node: &Node,
        m: Move,
        facts: &MoveFacts,
        moves: i32,
        alpha: i32,
        beta: i32,
        depth: i32,
        new_depth: i32,
        cut_node: bool,
        ply: usize,
        Ghost(t): Ghost<Task>,
        Ghost(i): Ghost<int>,
        Ghost(h): Ghost<HistView>,
    ) -> (r: i32)
        requires
            t.beta == beta,
            t.depth == depth,
            t.ply == ply,
            t.pv == PV,
            t.cut_node == cut_node,
            t.path == old(self).path(ply),
            node.static_eval == old(self).ss@[ply + 8].static_eval,
            0 <= i,
            moves == number_of(i),
            facts.quiet == !is_noisy(old(self).board.q(), m),
            facts.gives_check == checks(old(self).board.q(), old(self).board.stm, m),
            facts.hist_score == history_of(
                h,
                old(self).board.q(),
                old(self).board.stm,
                t.path.planes(),
                m,
            ),
            !old(self).stopped ==> extends_by(
                sh,
                game_of(&old(self).board),
                *node,
                t,
                m,
                (new_depth - (depth - 1)) as i32,
            ),
            old(self).fit(*sh.net, ply as int),
            sh.ok(),
            ply < 246,
            -33000 <= alpha < beta <= 33000,
            alpha < 33000,
            0 < depth <= DEEPEST + ply,
            depth - 3 <= new_depth <= depth + 1,
            0 <= old(self).root_depth <= DEEPEST,
            old(self).board.legal_here(m),
            moves >= 1,
            -65536 <= facts.hist_score <= 65536,
        ensures
            final(self).tried(old(self), sh, m, ply as int, PV),
            final(self).counted(old(self)),
            PV && r > alpha ==> legal_line(
                pos_after(pos_of(old(self).board@), m),
                final(self).row(ply + 1),
            ),
            -SCORE_LIMIT <= r <= SCORE_LIMIT,
            !final(self).stopped ==> reply_worth(
                sh,
                game_of(&old(self).board),
                *node,
                t,
                i,
                alpha,
                Trial {
                    m,
                    outcome: Outcome::Scored(r),
                    hist: h,
                    busy: old(self).ss@[ply + 9].cutoff_cnt > 3,
                    line: final(self).line_at(ply + 1, PV),
                },
                r,
            ),
        decreases 247 - ply, 0int, 2int,
    {
        let ghost o = *self;
        let ghost g = game_of(&o.board);
        self.do_move::<true>(sh, m, ply);
        let ghost mid = *self;
        proof {
            lemma_after(&o.board, m, &mid.board);
            assert(mid.ss@[ply + 9].excluded == Move::none());
            lemma_path_moved(&o, &mid, ply, m);
        }
        let score = self.search_stages::<PV>(
            sh,
            node,
            facts,
            moves,
            alpha,
            beta,
            depth,
            new_depth,
            cut_node,
            ply,
            Ghost(g),
            Ghost(t),
            Ghost(i),
            Ghost(m),
            Ghost(h),
        );
        let ghost after = *self;
        proof {
            assert(after.undos@[ply + 8] == mid.undos@[ply + 8]);
            assert(after.ss@[ply + 8] == mid.ss@[ply + 8]);
            assert forall|i: int| 0 <= i < ply + 8 implies #[trigger] after.ss@[i] == o.ss@[i] by {
                assert(after.ss@[i] == mid.ss@[i]);
            }
            assert forall|i: int| 0 <= i < ply + 8 implies #[trigger] after.undos@[i]
                == o.undos@[i] by {
                assert(after.undos@[i] == mid.undos@[i]);
            }
            assert(PV ==> after.pv_below(&mid, ply + 1));
        }
        self.undo_move::<true>(sh, m, ply);
        proof {
            unmake_restores(o.board, m, mid.board, after.board, self.board, mid.undos@[ply + 8]);
            assert(self.eval.path() =~= o.eval.path());
            lemma_told_counted(&*self, &mid, &o, sh);
            assert(self.board@ =~= o.board@);
            if PV && score > alpha {
                assert(after.line_ok(ply + 1));
                assert(pos_of(after.board@) == pos_after(pos_of(o.board@), m));
            }
        }
        score
    }

    /// Extends `m` and searches it, or finds that the node is decided without it. Says too
    /// whether the replies before it often failed high.
    #[verifier::rlimit(60)]
    #[verifier::spinoff_prover]
    fn try_move<const PV: bool>(
        &mut self,
        sh: &Shared,
        node: &Node,
        m: Move,
        facts: &MoveFacts,
        moves: i32,
        alpha: i32,
        beta: i32,
        depth: i32,
        cut_node: bool,
        ply: usize,
        Ghost(o): Ghost<Searcher>,
        Ghost(t): Ghost<Task>,
        Ghost(i): Ghost<int>,
        Ghost(h): Ghost<HistView>,
    ) -> (r: (Reply, Ghost<bool>))
        requires
            old(self).searched(&o, sh, ply as int, PV),
            o.board.wf(),
            sh.ok(),
            ply < 246,
            -33000 <= alpha < beta <= 33000,
            0 < depth <= DEEPEST + ply,
            0 <= old(self).root_depth <= DEEPEST,
            old(self).board.legal_here(m),
            old(self).board.check_square_info(),
            node.ok(&old(self).board),
            node.excluded == old(self).ss@[ply + 8].excluded,
            node.static_eval == old(self).ss@[ply + 8].static_eval,
            node.in_check ==> node.static_eval == VALUE_NONE,
            moves >= 1,
            -65536 <= facts.hist_score <= 65536,
            t.beta == beta,
            t.depth == depth,
            t.ply == ply,
            t.pv == PV,
            t.cut_node == cut_node,
            t.excluded == node.excluded,
            t.path == old(self).path(ply),
            0 <= i,
            moves == number_of(i),
            facts.quiet == !is_noisy(old(self).board.q(), m),
            facts.gives_check == checks(old(self).board.q(), old(self).board.stm, m),
            facts.hist_score == history_of(
                h,
                old(self).board.q(),
                old(self).board.stm,
                t.path.planes(),
                m,
            ),
        ensures
            final(self).searched(&o, sh, ply as int, PV),
            final(self).board.q() == old(self).board.q(),
            final(self).board.check_square_info(),
            final(self).best_move == old(self).best_move,
            final(self).best_score == old(self).best_score,
            final(self).ss@[ply + 8].static_eval == old(self).ss@[ply + 8].static_eval,
            final(self).line_at(ply as int, PV) == old(self).line_at(ply as int, PV),
            PV ==> final(self).row(ply as int) == old(self).row(ply as int),
            final(self).nodes >= old(self).nodes,
            match r.0 {
                Reply::Scored(v) => {
                    &&& -SCORE_LIMIT <= v <= SCORE_LIMIT
                    &&& final(self).counted(old(self))
                    &&& PV && v > alpha ==> legal_line(
                        pos_after(pos_of(old(self).board@), m),
                        final(self).row(ply + 1),
                    )
                    &&& !final(self).stopped ==> reply_worth(
                        sh,
                        game_of(&old(self).board),
                        *node,
                        t,
                        i,
                        alpha,
                        Trial {
                            m,
                            outcome: Outcome::Scored(v),
                            hist: h,
                            busy: r.1@,
                            line: final(self).line_at(ply + 1, PV),
                        },
                        v,
                    )
                },
                Reply::Decided(v) => {
                    &&& -SCORE_LIMIT <= v <= SCORE_LIMIT
                    &&& ply > 0
                    &&& node.excluded == Move::none()
                    &&& !final(self).stopped ==> cut_by_many(
                        sh,
                        game_of(&old(self).board),
                        *node,
                        t,
                        v,
                    )
                },
            },
        decreases 247 - ply, depth, 3int,
    {
        let ghost first = *self;
        let ghost g = game_of(&first.board);
        let extension: i32 = match self.extend(
            sh,
            node,
            m,
            facts.gives_check,
            beta,
            depth,
            cut_node,
            PV,
            ply,
            Ghost(t),
        ) {
            Extension::By(e) => e,
            Extension::Decided(v) => {
                proof {
                    lemma_extended(&*self, &first, &o, sh, ply as int, PV);
                }
                return (Reply::Decided(v), Ghost(false));
            },
        };
        let new_depth: i32 = depth - 1 + extension;
        let ghost before = *self;
        proof {
            lemma_extended(&before, &first, &o, sh, ply as int, PV);
            lemma_path_same(&before, &first, ply);
            assert(game_of(&before.board) == g);
            assert(pos_of(before.board@) == pos_of(first.board@));
        }
        let score = self.search_move::<PV>(
            sh,
            node,
            m,
            facts,
            moves,
            alpha,
            beta,
            depth,
            new_depth,
            cut_node,
            ply,
            Ghost(t),
            Ghost(i),
            Ghost(h),
        );
        proof {
            lemma_tried_kept(&*self, &before, &o, sh, m, ply as int, PV);
            lemma_tried_searched(&*self, &before, &o, sh, m, ply as int, PV);
        }
        (Reply::Scored(score), Ghost(before.ss@[ply + 9].cutoff_cnt > 3))
    }

    /// Notes a move that beats alpha: it heads the line, at the root it is the best move,
    /// and a cut is counted.
    fn take_lead<const PV: bool>(
        &mut self,
        sh: &Shared,
        m: Move,
        score: i32,
        beta: i32,
        ply: usize,
        Ghost(o): Ghost<Searcher>,
    )
        requires
            old(self).searched(&o, sh, ply as int, PV),
            o.board.wf(),
            ply < 246,
            o.board.legal_here(m),
            m.compact(),
            PV ==> legal_line(pos_after(pos_of(o.board@), m), old(self).row(ply + 1)),
        ensures
            final(self).searched(&o, sh, ply as int, PV),
            final(self).board == old(self).board,
            final(self).hist == old(self).hist,
            final(self).nodes == old(self).nodes,
            final(self).stopped == old(self).stopped,
            final(self).ss@[ply + 8].static_eval == old(self).ss@[ply + 8].static_eval,
            PV ==> final(self).row(ply as int) == seq![m] + old(self).row(ply + 1),
            final(self).line_at(ply as int, PV) == if PV {
                seq![m] + old(self).line_at(ply + 1, PV)
            } else {
                old(self).line_at(ply as int, PV)
            },
            ply == 0 ==> final(self).best_move == m && final(self).best_score == score,
            ply != 0 ==> final(self).best_move == old(self).best_move && final(self).best_score
                == old(self).best_score,
    {
        let ghost first = *self;
        if PV {
            proof {
                lemma_line(pos_of(o.board@), m, self.row(ply + 1));
            }
            self.update_pv(ply, m);
        }
        if ply == 0 {
            self.best_move = m;
            self.best_score = score;
        }
        if score >= beta {
            let mut here = self.ss[ply + OFF];
            assert(self.ss@[ply + 8].ok());
            here.cutoff_cnt = one_more(here.cutoff_cnt);
            self.ss[ply + OFF] = here;
        }
        proof {
            assert(pos_of(self.board@) == pos_of(o.board@));
            assert forall|i: int| 0 <= i < ply + 8 implies #[trigger] self.ss@[i] == o.ss@[i] by {
                assert(first.ss@[i] == o.ss@[i]);
            }
        }
    }

    /// The moves that pruning leaves out, before they are searched: quiet moves
    /// that come too late, are futile or have a bad history, and noisy moves that
    /// cannot matter. Says too whether to skip the quiets from here on.
    fn judge(
        &self,
        sh: &Shared,
        node: &Node,
        m: Move,
        facts: &MoveFacts,
        pv: bool,
        only_bad_left: bool,
        alpha: i32,
        depth: i32,
        moves: i32,
        skip_quiets: bool,
    ) -> (r: (Verdict, bool))
        requires
            self.board.wf(),
            self.board.legal_here(m),
            node.ok(&self.board),
            facts.quiet == !is_noisy(self.board.q(), m),
            facts.gives_check == checks(self.board.q(), self.board.stm, m),
            facts.victim == prey_of(self.board.q(), m),
            !node.in_check ==> only_bad_left == comes_last(
                self.board.q(),
                self.board.stm,
                node.tt_move,
                m,
            ),
            -65536 <= facts.hist_score <= 65536,
            -33000 <= alpha <= 33000,
            0 < depth <= 8_323,
        ensures
            r.0 == judged(
                *sh.lmr,
                self.board.q(),
                self.board.stm,
                *node,
                pv,
                alpha,
                depth,
                moves,
                facts.hist_score as int,
                m,
            ),
            r.1 == (skip_quiets || ends_quiets(
                *sh.lmr,
                self.board.q(),
                *node,
                alpha,
                depth,
                moves,
                m,
            )),
            r.0 matches Verdict::Raise(v) ==> v <= alpha,
            r.0 matches Verdict::Stop(v) ==> v <= alpha && !node.in_check && only_bad_left,
    {
        proof {
            reveal(judged);
        }
        // The depth this move will actually be searched at, which is what the
        // margins have to be measured against.
        let lmr_depth: i32 = greater(depth - sh.lmr.lmr(depth, moves), 0);
        let mut skip = skip_quiets;
        if facts.quiet {
            if late_enough(moves, depth, node.improving) {
                skip = true;
            }
            let futile = quiets_are_futile(node.in_check, node.eval, alpha, lmr_depth);
            if futile {
                skip = true;
            }
            if drop_quiet(
                &self.board,
                sh.tables,
                m,
                futile,
                depth,
                lmr_depth,
                facts.hist_score,
            ) {
                return (Verdict::Skip, skip);
            }
        } else {
            match judge_noisy(
                &self.board,
                sh.tables,
                m,
                pv,
                node,
                facts.gives_check,
                only_bad_left,
                alpha,
                depth,
                lmr_depth,
                facts.victim,
                facts.hist_score,
            ) {
                Verdict::Try => {},
                other => {
                    return (other, skip);
                },
            }
        }
        if self.underpromotes(m, facts.gives_check, depth) {
            return (Verdict::Skip, skip);
        }
        (Verdict::Try, skip)
    }

    /// Has an earlier line of the root claimed `m`?
    fn is_claimed(&self, m: Move) -> (r: bool)
        ensures
            r == self.root_excluded@.contains(m),
    {
        let mut i: usize = 0;
        while i < self.root_excluded.len()
            invariant
                i <= self.root_excluded@.len(),
                forall|k: int| 0 <= k < i ==> #[trigger] self.root_excluded@[k] != m,
            decreases self.root_excluded@.len() - i,
        {
            if self.root_excluded[i] == m {
                return true;
            }
            i += 1;
        }
        false
    }

    /// The place of `m` among the root moves.
    pub fn root_index(&self, m: Move) -> (r: Option<usize>)
        ensures
            match r {
                Some(i) => i < self.root_moves@.len() && self.root_moves@[i as int] == m && forall|
                    k: int,
                |
                    0 <= k < i ==> #[trigger] self.root_moves@[k] != m,
                None => !self.root_moves@.contains(m),
            },
    {
        let mut i: usize = 0;
        while i < self.root_moves.len()
            invariant
                i <= self.root_moves@.len(),
                forall|k: int| 0 <= k < i ==> #[trigger] self.root_moves@[k] != m,
            decreases self.root_moves@.len() - i,
        {
            if self.root_moves[i] == m {
                return Some(i);
            }
            i += 1;
        }
        None
    }

    /// Charges the nodes spent since `before` to the root move `m`.
    fn charge_root(&mut self, m: Move, before: u64)
        requires
            old(self).root_nodes@.len() == old(self).root_moves@.len(),
            before <= old(self).nodes,
        ensures
            final(self).same_but_root_nodes(old(self)),
            final(self).root_nodes@.len() == old(self).root_nodes@.len(),
            forall|i: int|
                0 <= i < old(self).root_nodes@.len() ==> #[trigger] final(self).root_nodes@[i]
                    == if old(self).root_moves@[i] == m && !old(self).root_moves@.take(i).contains(
                    m,
                ) {
                    capped(old(self).root_nodes@[i] + old(self).nodes - before) as u64
                } else {
                    old(self).root_nodes@[i]
                },
    {
        if let Some(i) = self.root_index(m) {
            self.root_nodes[i] = add_capped(self.root_nodes[i], self.nodes - before);
            proof {
                let ms = self.root_moves@;
                assert forall|k: int| 0 <= k < ms.len() implies (k == i <==> ms[k] == m
                    && !ms.take(k).contains(m)) by {
                    if k > i {
                        assert(ms.take(k)[i as int] == m);
                    }
                }
            }
        }
    }

    pub open spec fn same_but_root_nodes(&self, o: &Searcher) -> bool {
        *self == (Searcher { root_nodes: self.root_nodes, ..*o })
    }

    /// The killers, the counter move and the planes that a node orders its moves
    /// by, and the picker that does so.
    fn order_moves(&self, node: &Node, ply: usize) -> (r: MovePicker)
        requires
            self.tables_ok(),
            ply <= 246,
            node.tt_move.compact(),
        ensures
            r.stage == if node.in_check {
                STAGE_EVASION_GEN
            } else {
                STAGE_TT
            },
            r.tt_move == node.tt_move,
            r.killers == self.ss@[ply + 8].killers,
            r.counter == if self.ss@[ply + 7].cont_idx == NULL_CONT {
                Move::none()
            } else {
                self.hist.counter@[self.ss@[ply + 7].cont_idx as int]
            },
            !r.noisy_only,
            r.see_threshold == 0,
            r.unused(),
            r.writes_compactly(),
            forall|b: &Board| #[trigger] r.serves(b),
    {
        assert(self.ss@[ply + 7].ok() && self.ss@[ply + 8].ok());
        let prev = self.ss[ply + OFF - 1].cont_idx;
        let counter = if prev == NULL_CONT {
            Move::none()
        } else {
            self.hist.counter_move(prev)
        };
        MovePicker::new(node.tt_move, self.ss[ply + OFF].killers, counter, node.in_check)
    }

    /// `self` has left a node after these trials, which come to `r`: from the tables
    /// `h` it has learned what they show, and the table records the move that they
    /// leave in front.
    pub open spec fn is_left_by(
        &self,
        o: &Searcher,
        sh: &Shared,
        node: Node,
        t: Task,
        ts: Seq<Trial>,
        h: HistView,
        r: i32,
    ) -> bool {
        let m = lead_of(ts, (-INFINITE) as i32);
        &&& moves_tried(sh, game_of(&o.board), node, t, ts)
        &&& r == t.comes_to(game_of(&o.board), ts)
        // At the root it is the best move, where it beats alpha.
        &&& t.ply == 0 && ts.len() > 0 && r > t.alpha ==> self.best_move == m
        // The first move is judged by the tables as they were.
        &&& ts.len() > 0 ==> ts[0].hist == o.hist@
        &&& ts.len() > 0 && !(ts.last().outcome is Scored) ==> h == ts.last().hist
        &&& ts.len() > 0 ==> self.hist@ == lesson(
            h,
            self.board@,
            o.planes(t.ply as int),
            node,
            m,
            r as int,
            t.beta as int,
            t.depth as int,
            failed_of(o.board.q(), ts, t.beta, true, MAX_QUIETS_TRIED as int),
            failed_of(o.board.q(), ts, t.beta, false, MAX_CAPTURES_TRIED as int),
            o.writes(node, t.ply as int),
        )
        // A quiet move that cuts becomes the first killer.
        &&& ts.len() > 0 && m != Move::none() && r >= t.beta && !is_noisy(o.board.q(), m)
            ==> puts_in_front(
            self.ss@[t.ply + 8].killers,
            o.ss@[t.ply + 8].killers,
            m,
        )
        &&& ts.len() > 0 && o.writes(node, t.ply as int) ==> sh.tt.records(
            o.board.key,
            m,
            table_score(r as int, t.ply as int) as i32,
            node.raw,
            t.depth,
            bound_of(r, t.beta, t.alpha, t.pv && m != Move::none()),
            node.tt_pv,
        )
    }

    /// Searches the moves of a node, best first.
    #[verifier::rlimit(100)]
    #[verifier::spinoff_prover]
    fn search_moves<const PV: bool>(
        &mut self,
        sh: &Shared,
        node: &Node,
        alpha: i32,
        beta: i32,
        depth: i32,
        cut_node: bool,
        ply: usize,
    ) -> (r: i32)
        requires
            old(self).ready(sh, alpha, beta, depth, ply, PV),
            ply < 246,
            depth > 0,
            old(self).board.check_square_info(),
            node.ok(&old(self).board),
            node.excluded == old(self).ss@[ply + 8].excluded,
            node.static_eval == old(self).ss@[ply + 8].static_eval,
            node.in_check ==> node.static_eval == VALUE_NONE,
            PV ==> old(self).pv_len@[ply as int] == 0,
        ensures
            final(self).searched(old(self), sh, ply as int, PV),
            -SCORE_LIMIT <= r <= SCORE_LIMIT,
            ply == 0 ==> final(self).leads_with_best(old(self), alpha, r),
            ply > 0 && !old(self).whole(ply) ==> final(self).tests(old(self), alpha, ply, r),
            final(self).ss@[ply + 8].static_eval == old(self).ss@[ply + 8].static_eval,
            !final(self).stopped ==> moves_worth(
                sh,
                game_of(&old(self).board),
                *node,
                old(self).task(
                    alpha,
                    beta,
                    depth,
                    ply,
                    PV,
                    cut_node,
                    final(self).line_at(ply as int, PV),
                ),
                r,
            ),
            // Unless several moves cut, the node is left with what its moves came to.
            !final(self).stopped ==> (ply > 0 && cut_by_many(
                sh,
                game_of(&old(self).board),
                *node,
                old(self).task(
                    alpha,
                    beta,
                    depth,
                    ply,
                    PV,
                    cut_node,
                    final(self).line_at(ply as int, PV),
                ),
                r,
            )) || exists|ts: Seq<Trial>, h: HistView| #[trigger]
                final(self).is_left_by(
                    old(self),
                    sh,
                    *node,
                    old(self).task(
                        alpha,
                        beta,
                        depth,
                        ply,
                        PV,
                        cut_node,
                        final(self).line_at(ply as int, PV),
                    ),
                    ts,
                    h,
                    r,
                ),
            (forall|m: Move| !#[trigger] old(self).board.legal_here(m)) ==> r == if !old(self).whole(
                ply,
            ) {
                alpha
            } else if node.in_check {
                mated_in(ply)
            } else {
                DRAW
            },
        decreases 247 - ply, depth, 4int,
    {
        let ghost o = *self;
        proof {
            if PV {
                assert(self.row(ply as int) =~= Seq::empty());
            }
        }
        let conts = self.conts(ply);
        let killers = self.ss[ply + OFF].killers;
        assert(self.ss@[ply + 8].ok());
        let mut mp = self.order_moves(node, ply);
        let ghost claimed = if ply == 0 {
            o.root_excluded@
        } else {
            Seq::empty()
        };
        proof {
            lemma_all_start(mp, &o.board, node.excluded, claimed);
        }
        let ghost g = game_of(&o.board);
        let ghost t = o.task(alpha, beta, depth, ply, PV, cut_node, Seq::empty());
        let ghost mut ts: Seq<Trial> = Seq::empty();
        proof {
            lemma_covers_start(mp, &o.board, g, t);
            lemma_run_start(sh, g, *node, t);
            lemma_sorted_start(g, *node, t, turn_at(mp.stage));
            lemma_steady_start(o.hist@);
        }
        let mut floor: i32 = alpha;
        let mut best: i32 = -INFINITE;
        let mut best_move = Move::none();
        let mut moves: i32 = 0;
        let mut skip_quiets = false;
        let mut quiets_tried: Vec<Move> = Vec::new();
        let mut captures_tried: Vec<Move> = Vec::new();
        proof {
            assert(quiets_tried@ =~= Seq::empty() && captures_tried@ =~= Seq::empty());
        }
        loop
            invariant_except_break
                mp.serves(&o.board),
                floor < beta,
                moves == 0 ==> !skip_quiets,
                has_room(&o.board) ==> mp.roomy(&o.board),
                moves == 0 && has_room(&o.board) ==> all_to_come(
                    mp,
                    &o.board,
                    node.excluded,
                    claimed,
                ),
                skip_quiets ==> skips_quiets(sh, g, *node, t, ts),
                has_room(&o.board) ==> covers(mp, &o.board, skip_quiets, g, t, ts, None),
            invariant
                g == game_of(&o.board),
                t == o.task(alpha, beta, depth, ply, PV, cut_node, Seq::empty()),
                t.path == o.path(ply),
                conts@ == t.path.planes()@,
                mp.tt_move == node.tt_move,
                is_sorted_to(g, *node, t, ts, turn_at(mp.stage)),
                is_steady_to(ts, o.hist@, self.hist@),
                ts.len() == 0 && t.is_choice(g, node.tt_move) ==> mp.stage == if node.in_check {
                    STAGE_EVASION_GEN
                } else {
                    STAGE_TT
                },
                if node.in_check {
                    mp.stage >= STAGE_DONE
                } else {
                    mp.stage <= STAGE_DONE
                },
                node.static_eval == o.ss@[ply + 8].static_eval,
                node.in_check ==> node.static_eval == VALUE_NONE,
                self.ss@[ply + 8].static_eval == o.ss@[ply + 8].static_eval,
                mp.see_threshold == 0,
                !mp.noisy_only,
                moves == if ts.len() < i32::MAX {
                    ts.len() as int
                } else {
                    i32::MAX as int
                },
                is_run(
                    sh,
                    g,
                    *node,
                    t,
                    ts,
                    best,
                    floor,
                    best_move,
                    quiets_tried@,
                    captures_tried@,
                    self.line_at(ply as int, PV),
                ),
                alpha <= floor,
                moves == 0 <==> ts.len() == 0,
                o == *old(self),
                o.board.wf(),
                self.searched(&o, sh, ply as int, PV),
                self.board.q() == o.board.q(),
                self.board.check_square_info(),
                claimed == if ply == 0 {
                    o.root_excluded@
                } else {
                    Seq::empty()
                },
                node.ok(&o.board),
                node.excluded == o.ss@[ply + 8].excluded,
                sh.ok(),
                ply < 246,
                0 < depth <= DEEPEST + ply,
                0 <= o.root_depth <= DEEPEST,
                ply == 0 ==> PV && alpha >= -INFINITE,
                -33000 <= alpha < beta <= 33000,
                conts_ok(conts),
                killers == o.ss@[ply + 8].killers,
                killers[0].compact(),
                killers[1].compact(),
                mp.writes_compactly(),
                moves == 0 ==> floor == alpha,
                -SCORE_LIMIT <= best <= SCORE_LIMIT,
                best_move == Move::none() || o.board.legal_here(best_move),
                best_move.compact(),
                moves >= 0,
                moves > 0 ==> exists|x: Move| #[trigger] o.board.legal_here(x),
                moves > 0 ==> has_other(&o.board, node.excluded),
                moves == 0 ==> best == -INFINITE,
                (ply == 0 || node.excluded != Move::none()) && moves > 0 ==> self.counted(&o),
                all_legal(&o.board, quiets_tried@),
                all_legal(&o.board, captures_tried@),
                ply == 0 ==> self.root_state(&o, alpha, floor, best, best_move),
            ensures
                moves == 0 && has_room(&o.board) ==> forall|x: Move| !#[trigger]
                    is_candidate(&o.board, node.excluded, claimed, x),
                floor < beta ==> all_searched(sh, g, *node, t, ts),
            decreases mp.rank(), mp.left(),
        {
            proof {
                lemma_serves_same(mp, &o.board, &self.board);
            }
            let ghost asked = mp;
            let next = mp.next(&self.board, sh.tables, &self.hist, &conts, skip_quiets);
            proof {
                assert(g.has_room() == has_room(&o.board));
                if has_room(&o.board) {
                    lemma_covers_next(
                        asked,
                        mp,
                        &self.board,
                        &o.board,
                        skip_quiets,
                        g,
                        t,
                        ts,
                        next,
                    );
                }
                if moves == 0 && has_room(&o.board) {
                    lemma_all_next(
                        asked,
                        mp,
                        &self.board,
                        &o.board,
                        next,
                        node.excluded,
                        claimed,
                    );
                }
            }
            proof {
                lemma_turns(&o.board, asked, mp, node.in_check, next);
                lemma_sorted_on(g, *node, t, ts, turn_at(asked.stage), turn_at(mp.stage));
                if ts.len() == 0 && t.is_choice(g, node.tt_move) {
                    lemma_choice_legal(&o.board, t, node.tt_move);
                    assert(asked.tt_usable(&self.board));
                    assert(next == Some(node.tt_move));
                }
            }
            match next {
                None => {
                    break;
                },
                Some(m) => {
                    proof {
                        lemma_serves_same(mp, &self.board, &o.board);
                        assert(o.board.legal_here(m));
                    }
                    if m == node.excluded {
                        proof {
                            if has_room(&o.board) {
                                lemma_covers_passed(mp, &o.board, skip_quiets, g, t, ts, m);
                            }
                        }
                        continue;
                    }
                    proof {
                        lemma_listed(&o.board, m);
                    }
                    if ply == 0 && self.is_claimed(m) {
                        proof {
                            if has_room(&o.board) {
                                lemma_covers_passed(mp, &o.board, skip_quiets, g, t, ts, m);
                            }
                        }
                        continue;
                    }
                    proof {
                        lemma_other(&o.board, node.excluded, m);
                    }
                    assert(t.is_choice(g, m));
                    moves = one_more(moves);
                    let facts = look_at(&self.board, sh.tables, &self.hist, &conts, m);
                    let ghost h = self.hist@;
                    proof {
                        lemma_history_same(h, g.q, g.stm, conts, t.path.planes(), m);
                    }
                    let before_nodes = self.nodes;
                    if ply != 0 && best > -MATE_IN_MAX {
                        let (verdict, skip) = self.judge(
                            sh,
                            node,
                            m,
                            &facts,
                            PV,
                            mp.in_bad_captures(),
                            floor,
                            depth,
                            moves,
                            skip_quiets,
                        );
                        proof {
                            if skip && !skip_quiets && has_room(&o.board) {
                                lemma_covers_skip(mp, &o.board, g, t, ts, Some(m));
                            }
                        }
                        skip_quiets = skip;
                        match verdict {
                            Verdict::Try => {},
                            Verdict::Skip => {
                                proof {
                                    let tr = Trial {
                                        m,
                                        outcome: Outcome::Dropped,
                                        hist: h,
                                        busy: false,
                                        line: Seq::empty(),
                                    };
                                    lemma_run_left(
                                        sh,
                                        g,
                                        *node,
                                        t,
                                        ts,
                                        best,
                                        floor,
                                        best_move,
                                        quiets_tried@,
                                        captures_tried@,
                                        self.line_at(ply as int, PV),
                                        tr,
                                    );
                                    if has_room(&o.board) {
                                        lemma_covers_tried(
                                            mp,
                                            &o.board,
                                            skip_quiets,
                                            g,
                                            t,
                                            ts,
                                            m,
                                            tr,
                                        );
                                    }
                                    lemma_steady_more(ts, o.hist@, h, tr, h);
                                    lemma_sorted_more(
                                        g,
                                        *node,
                                        t,
                                        ts,
                                        turn_at(mp.stage),
                                        tr,
                                    );
                                    ts = ts.push(tr);
                                }
                                continue;
                            },
                            Verdict::Raise(v) => {
                                proof {
                                    let tr = Trial {
                                        m,
                                        outcome: Outcome::Worth(v),
                                        hist: h,
                                        busy: false,
                                        line: Seq::empty(),
                                    };
                                    lemma_run_left(
                                        sh,
                                        g,
                                        *node,
                                        t,
                                        ts,
                                        best,
                                        floor,
                                        best_move,
                                        quiets_tried@,
                                        captures_tried@,
                                        self.line_at(ply as int, PV),
                                        tr,
                                    );
                                    if has_room(&o.board) {
                                        lemma_covers_tried(
                                            mp,
                                            &o.board,
                                            skip_quiets,
                                            g,
                                            t,
                                            ts,
                                            m,
                                            tr,
                                        );
                                    }
                                    lemma_steady_more(ts, o.hist@, h, tr, h);
                                    lemma_sorted_more(
                                        g,
                                        *node,
                                        t,
                                        ts,
                                        turn_at(mp.stage),
                                        tr,
                                    );
                                    ts = ts.push(tr);
                                }
                                best = greater(best, v);
                                continue;
                            },
                            Verdict::Stop(v) => {
                                proof {
                                    let tr = Trial {
                                        m,
                                        outcome: Outcome::Worth(v),
                                        hist: h,
                                        busy: false,
                                        line: Seq::empty(),
                                    };
                                    lemma_run_left(
                                        sh,
                                        g,
                                        *node,
                                        t,
                                        ts,
                                        best,
                                        floor,
                                        best_move,
                                        quiets_tried@,
                                        captures_tried@,
                                        self.line_at(ply as int, PV),
                                        tr,
                                    );
                                    if has_room(&o.board) {
                                        lemma_covers_tried(
                                            mp,
                                            &o.board,
                                            skip_quiets,
                                            g,
                                            t,
                                            ts,
                                            m,
                                            tr,
                                        );
                                    }
                                    lemma_steady_more(ts, o.hist@, h, tr, h);
                                    lemma_sorted_more(
                                        g,
                                        *node,
                                        t,
                                        ts,
                                        turn_at(mp.stage),
                                        tr,
                                    );
                                    ts = ts.push(tr);
                                    if has_room(&o.board) {
                                        lemma_covers_stop(
                                            sh,
                                            mp,
                                            &o.board,
                                            skip_quiets,
                                            g,
                                            *node,
                                            t,
                                            ts,
                                        );
                                    }
                                }
                                best = greater(best, v);
                                break;
                            },
                        }
                    }
                    let ghost before = *self;
                    proof {
                        lemma_path_same(&before, &o, ply);
                        assert(game_of(&before.board) == g);
                    }
                    let (result, busy) = self.try_move::<PV>(
                        sh,
                        node,
                        m,
                        &facts,
                        moves,
                        floor,
                        beta,
                        depth,
                        cut_node,
                        ply,
                        Ghost(o),
                        Ghost(t),
                        Ghost(ts.len() as int),
                        Ghost(h),
                    );
                    let score: i32 = match result {
                        Reply::Scored(v) => v,
                        Reply::Decided(v) => {
                            proof {
                                if !self.stopped {
                                    lemma_moves_many(
                                        sh,
                                        g,
                                        *node,
                                        t,
                                        v,
                                        self.line_at(ply as int, PV),
                                    );
                                }
                            }
                            return v;
                        },
                    };
                    if self.stopped {
                        return DRAW;
                    }
                    proof {
                        let tr = Trial {
                            m,
                            outcome: Outcome::Scored(score),
                            hist: h,
                            busy: busy@,
                            line: self.line_at(ply + 1, PV),
                        };
                        lemma_run_scored(
                            sh,
                            g,
                            *node,
                            t,
                            ts,
                            best,
                            floor,
                            best_move,
                            quiets_tried@,
                            captures_tried@,
                            self.line_at(ply as int, PV),
                            tr,
                            score,
                        );
                        if has_room(&o.board) {
                            lemma_covers_tried(mp, &o.board, skip_quiets, g, t, ts, m, tr);
                        }
                        lemma_sorted_more(g, *node, t, ts, turn_at(mp.stage), tr);
                        lemma_steady_more(ts, o.hist@, h, tr, self.hist@);
                        ts = ts.push(tr);
                    }
                    if ply == 0 {
                        self.charge_root(m, before_nodes);
                    }
                    if score > best {
                        best = score;
                        best_move = m;
                        if score > floor {
                            floor = score;
                            self.take_lead::<PV>(sh, m, score, beta, ply, Ghost(o));
                            if score >= beta {
                                break;
                            }
                        }
                    }
                    // Recorded after the cutoff check: the move that caused it is
                    // credited separately and must not also collect the malus.
                    note_failed(
                        &mut quiets_tried,
                        &mut captures_tried,
                        facts.quiet,
                        m,
                        Ghost(o.board),
                    );
                },
            }
        }
        proof {
            lemma_sorted_end(g, *node, t, ts, turn_at(mp.stage));
            lemma_steady_end(ts, o.hist@, self.hist@);
            lemma_run_end(
                sh,
                g,
                *node,
                t,
                ts,
                best,
                floor,
                best_move,
                quiets_tried@,
                captures_tried@,
                self.line_at(ply as int, PV),
            );
        }
        if moves == 0 {
            assert(self.is_left_by(
                &o,
                sh,
                *node,
                o.task(alpha, beta, depth, ply, PV, cut_node, self.line_at(ply as int, PV)),
                ts,
                self.hist@,
                t.comes_to(g, ts),
            ));
            return bare_node(!node.excluded.is_none(), node.in_check, floor, ply);
        }
        let ghost found = *self;
        proof {
            lemma_all_legal_same(&o.board, &self.board, quiets_tried@);
            lemma_all_legal_same(&o.board, &self.board, captures_tried@);
        }
        self.finish_node(
            sh,
            node,
            best_move,
            best,
            alpha,
            beta,
            depth,
            ply,
            PV,
            killers,
            &quiets_tried,
            &captures_tried,
        );
        proof {
            assert(found.planes(ply as int) == o.planes(ply as int)) by {
                assert(found.ss@[ply + 7] == o.ss@[ply + 7]);
                assert(found.ss@[ply + 6] == o.ss@[ply + 6]);
                assert(found.ss@[ply + 4] == o.ss@[ply + 4]);
                assert(found.ss@[ply + 2] == o.ss@[ply + 2]);
            }
            assert(self.line_at(ply as int, PV) == found.line_at(ply as int, PV));
            assert(self.is_left_by(
                &o,
                sh,
                *node,
                o.task(alpha, beta, depth, ply, PV, cut_node, self.line_at(ply as int, PV)),
                ts,
                found.hist@,
                best,
            ));
        }
        best
    }

    /// The root between two moves: either alpha stands and nothing is found, or the
    /// line found leads with the best move.
    pub open spec fn root_state(&self, o: &Searcher, alpha: i32, floor: i32, best: i32, lead: Move) -> bool {
        if self.row(0).len() > 0 {
            self.row(0)[0] == self.best_move && self.best_move == lead && !self.root_excluded@.contains(self.best_move)
                && self.best_score == best && best == floor && best > alpha
        } else {
            best <= alpha && floor == alpha
        }
    }

    /// Searches a node of which the table says `hit`.
    #[verifier::rlimit(60)]
    #[verifier::spinoff_prover]
    fn node_search<const PV: bool>(
        &mut self,
        sh: &Shared,
        hit: Option<Hit>,
        alpha: i32,
        beta: i32,
        depth: i32,
        cut_node: bool,
        ply: usize,
    ) -> (r: i32)
        requires
            old(self).ready(sh, alpha, beta, depth, ply, PV),
            ply < 246,
            depth > 0,
            ply > 0 ==> alpha >= -32000,
            hit matches Some(h) ==> hit_ok(h),
            PV ==> old(self).pv_len@[ply as int] == 0,
        ensures
            final(self).searched(old(self), sh, ply as int, PV),
            -SCORE_LIMIT <= r <= SCORE_LIMIT,
            ply == 0 ==> final(self).leads_with_best(old(self), alpha, r),
            ply > 0 && !PV && hit is None && !old(self).whole(ply) ==> final(self).tests(
                old(self),
                alpha,
                ply,
                r,
            ),
            !final(self).stopped ==> node_worth(
                sh,
                game_of(&old(self).board),
                hit,
                old(self).task(
                    alpha,
                    beta,
                    depth,
                    ply,
                    PV,
                    cut_node,
                    final(self).line_at(ply as int, PV),
                ),
                r,
            ),
            !old(self).whole(ply) ==> final(self).ss@[ply + 8].static_eval == old(self).ss@[ply
                + 8].static_eval,
            // The best move of the root is the one that its trials leave in front.
            ply == 0 && !final(self).stopped && r > alpha ==> exists|node: Node, ts: Seq<Trial>|
                #[trigger]
                is_led_by(
                    sh,
                    game_of(&old(self).board),
                    node,
                    old(self).task(
                        alpha,
                        beta,
                        depth,
                        ply,
                        PV,
                        cut_node,
                        final(self).line_at(ply as int, PV),
                    ),
                    ts,
                    final(self).best_move,
                    r,
                ),
            // Away from the fifty-move boundary a stored score that is deep enough
            // and decides is the answer.
            !PV && is_deep(hit, depth) && is_decided(hit, alpha, beta, ply as int) && old(
                self).board.halfmove < 90 ==> (hit matches Some(h) && r == node_score(
                h.score as int,
                ply as int,
            )),
            (PV || hit is None) && !final(self).stopped && old(self).whole(ply) && is_mated(
                &old(self).board,
            ) && (ply == 0 || !is_drawn(&old(self).board, ply as int)) ==> r == mated_in(ply),
            ply == 0 && old(self).whole(ply) && is_stalemated(&old(self).board) ==> r == DRAW,
        decreases 247 - ply, depth, 5int,
    {
        let ghost o = *self;
        proof {
            if PV {
                assert(self.row(ply as int) =~= Seq::empty());
            }
        }
        let ghost g = game_of(&o.board);
        let ghost t = o.task(alpha, beta, depth, ply, PV, cut_node, Seq::empty());
        let excluded = self.ss[ply + OFF].excluded;
        let root_best = if ply == 0 {
            Some(self.best_move)
        } else {
            None
        };
        let mut node = recall(&hit, root_best, excluded, PV, ply);
        if !PV {
            if let Some(h) = hit {
                if h.depth >= depth && decides(h.bound, node.tt_score, alpha, beta) {
                    // A cutoff on a hash hit still deserves a history nudge, but
                    // the move has to be legal here first.
                    if node.tt_score >= beta && !h.mv.is_none() && self.board.is_pseudo_legal(
                        sh.tables,
                        h.mv,
                    ) && is_quiet(&self.board, h.mv) {
                        self.update_quiet_histories(h.mv, history_bonus(depth), ply);
                    }
                    // Near the fifty-move boundary a transposition is not really
                    // the same position: the draw clock differs.
                    if self.board.halfmove < 90 {
                        proof {
                            lemma_node_stored(sh, g, hit, t, node.tt_score);
                        }
                        return node.tt_score;
                    }
                }
            }
        }
        assert(self.searched(&o, sh, ply as int, PV));
        let ghost known = *self;
        self.evaluate_node(sh, &hit, &mut node, ply);
        assert(self.searched(&o, sh, ply as int, PV));
        proof {
            if !node.in_check && excluded == Move::none() {
                assert(known.ss@[ply + 7].ok());
                lemma_correction(
                    &known.hist,
                    known.board.stm,
                    known.board.pawn_key,
                    known.ss@[ply + 7].cont_idx,
                );
                lemma_static(
                    sh,
                    g,
                    hit,
                    known.hist.correction_of(
                        known.board.stm,
                        known.board.pawn_key,
                        known.ss@[ply + 7].cont_idx,
                    ),
                    node.static_eval,
                );
            }
            lemma_path_same(&known, &o, ply);
            assert(is_node_at(sh, g, hit, t, node));
        }
        self.credit_reply(&node, ply);
        assert(self.searched(&o, sh, ply as int, PV));
        if !PV && !node.in_check && node.excluded.is_none() && !is_mate(beta) {
            let ghost before = *self;
            let pruned = self.prune_node(sh, &node, alpha, beta, depth, cut_node, ply);
            proof {
                lemma_extended(&*self, &before, &o, sh, ply as int, PV);
            }
            let ghost spared = *self;
            proof {
                lemma_path_same(&before, &o, ply);
                assert(game_of(&before.board) == g);
                assert(pruned is None && !self.stopped ==> stands_up(sh, g, node, t));
            }
            if let Some(v) = pruned {
                proof {
                    if !self.stopped {
                        assert(game_of(&before.board) == g);
                        lemma_path_same(&before, &o, ply);
                        lemma_node_pruned(sh, g, hit, t, node, v);
                    }
                }
                return v;
            }
            if depth >= PROBCUT_DEPTH && node.eval != VALUE_NONE {
                let ghost before = *self;
                let cut = self.probcut(sh, &node, Ghost(alpha), beta, depth, cut_node, ply);
                proof {
                    lemma_extended(&*self, &before, &o, sh, ply as int, PV);
                }
                proof {
                    lemma_path_same(&before, &o, ply);
                    assert(game_of(&before.board) == g);
                }
                if let Some(v) = cut {
                    proof {
                        if !self.stopped {
                            lemma_node_pruned(sh, g, hit, t, node, v);
                        }
                    }
                    return v;
                }
            }
        }
        proof {
            if !self.stopped && t.may_prune(node) && !t.tries_cut(node) {
                lemma_uncut(sh, g, node, t);
            }
        }
        let ghost spared = *self;
        // Internal iterative reduction.
        let mut depth: i32 = depth;
        if depth >= IIR_DEPTH && node.tt_move.is_none() && ply != 0 {
            depth = depth - if PV {
                2
            } else {
                1
            };
            if depth <= 0 {
                let ghost before = *self;
                let v = self.qsearch::<PV>(sh, alpha, beta, ply);
                proof {
                    lemma_then(&*self, &before, &o, sh, ply as int, PV);
                    if !self.stopped {
                        assert(game_of(&before.board) == g);
                        let u = Task { line: self.line_at(ply as int, PV), ..t };
                        assert(depth == iir_depth(u, node));
                        assert(u.pv || u == t);
                        lemma_node_moves(sh, g, hit, u, node, v);
                    }
                }
                return v;
            }
        }
        self.board.update_check_squares(sh.tables);
        let ghost before = *self;
        assert(self.searched(&o, sh, ply as int, PV));
        let v = self.search_moves::<PV>(sh, &node, alpha, beta, depth, cut_node, ply);
        proof {
            if !self.stopped {
                assert(game_of(&before.board) == g);
                lemma_path_same(&before, &o, ply);
                let u = Task { line: self.line_at(ply as int, PV), ..t };
                assert(depth == iir_depth(u, node));
                assert(u.pv || u == t);
                let x = before.task(
                    alpha,
                    beta,
                    depth,
                    ply,
                    PV,
                    cut_node,
                    self.line_at(ply as int, PV),
                );
                assert(ply == 0 ==> before.best_move == o.best_move);
                assert(x.known == u.known);
                assert(x == Task { depth, ..u });
                lemma_node_moves(sh, g, hit, u, node, v);
                if ply == 0 && v > alpha {
                    let (ts, h) = choose|ts: Seq<Trial>, h: HistView| #[trigger]
                        self.is_left_by(&before, sh, node, x, ts, h, v);
                    assert(x == u);
                    assert(is_led_by(sh, g, node, u, ts, self.best_move, v));
                }
            }
            if ply == 0 && o.has_candidate() {
                let m = choose|m: Move| #[trigger]
                    is_candidate(&o.board, o.ss@[8].excluded, o.root_excluded@, m);
                assert(is_candidate(
                    &before.board,
                    before.ss@[8].excluded,
                    before.root_excluded@,
                    m,
                ));
                assert(gen_of(&before.board, GEN_CAPTURES) == gen_of(&o.board, GEN_CAPTURES));
            }
            lemma_other_same(&before.board, &o.board, o.ss@[ply + 8].excluded);
            if is_mated(&o.board) || is_stalemated(&o.board) {
                assert forall|m: Move| !#[trigger] before.board.legal_here(m) by {
                    assert(!o.board.legal_here(m));
                }
            }
            lemma_then(&*self, &before, &o, sh, ply as int, PV);
        }
        v
    }

    /// Searches the position to `depth` with the window from `alpha` to `beta`.
    pub(crate) fn search<const PV: bool>(
        &mut self,
        sh: &Shared,
        alpha: i32,
        beta: i32,
        depth: i32,
        cut_node: bool,
        ply: usize,
    ) -> (r: i32)
        requires
            old(self).ready(sh, alpha, beta, depth, ply, PV),
        ensures
            final(self).searched(old(self), sh, ply as int, PV),
            final(self).looks_first(old(self), sh),
            // A node that is decided at sight counts nothing, and between two looks it
            // does not stop.
            ply > 0 && (ply == 246 || is_drawn(&old(self).board, ply as int) || (depth > 0
                && low_end(alpha, ply) >= high_end(beta, ply))) ==> final(self).nodes == old(
                self).nodes && (old(self).nodes % CHECK_INTERVAL != 0 ==> final(self).stopped
                == old(self).stopped),
            -SCORE_LIMIT <= r <= SCORE_LIMIT,
            old(self).stopped ==> r == DRAW,
            ply == 0 ==> final(self).leads_with_best(old(self), alpha, r),
            0 < ply && (ply < 246 || depth > 0) && !final(self).stopped && is_drawn(
                &old(self).board,
                ply as int,
            ) ==> r == DRAW,
            ply == 246 && !final(self).stopped && (depth <= 0 || !is_drawn(
                &old(self).board,
                ply as int,
            )) ==> r == old(self).static_value(*sh.net, ply as int),
            (PV || (depth > 0 && sh.tt.has_nothing(old(self).board.key))) && ply < 246 && !final(
                self).stopped && old(self).whole(ply) && is_mated(&old(self).board) && (ply == 0 || (
            !is_drawn(&old(self).board, ply as int) && alpha < 31999 - ply))
                ==> r == mated_in(ply),
            ply == 0 && old(self).whole(ply) && is_stalemated(&old(self).board) ==> r == DRAW,
            0 < ply < 246 && depth > 0 && !final(self).stopped && !is_drawn(
                &old(self).board,
                ply as int,
            ) ==> {
                let low = low_end(alpha, ply);
                if low >= high_end(beta, ply) {
                    r == low
                } else {
                    !PV && !old(self).whole(ply) ==> final(self).tests(old(self), low, ply, r)
                }
            },
            // Every score has its reason.
            !final(self).stopped ==> search_worth(
                sh,
                game_of(&old(self).board),
                old(self).task(
                    alpha,
                    beta,
                    depth,
                    ply,
                    PV,
                    cut_node,
                    final(self).line_at(ply as int, PV),
                ),
                r,
            ),
            depth > 0 && !old(self).whole(ply) ==> final(self).ss@[ply + 8].static_eval == old(
                self).ss@[ply + 8].static_eval,
            // The best move of the root is the one that its trials leave in front.
            ply == 0 && !final(self).stopped && r > alpha ==> exists|node: Node, ts: Seq<Trial>|
                #[trigger]
                is_led_by(
                    sh,
                    game_of(&old(self).board),
                    node,
                    old(self).task(
                        alpha,
                        beta,
                        depth,
                        ply,
                        PV,
                        cut_node,
                        final(self).line_at(ply as int, PV),
                    ),
                    ts,
                    final(self).best_move,
                    r,
                ),
        decreases 247 - ply, plies_of(depth), 6int,
    {
        let ghost o = *self;
        let ghost g = game_of(&self.board);
        let ghost t = self.task(alpha, beta, depth, ply, PV, cut_node, Seq::empty());
        proof {
            lemma_drawn_game(&self.board, ply as int);
        }
        if depth <= 0 {
            let v = self.qsearch::<PV>(sh, alpha, beta, ply);
            proof {
                if !self.stopped {
                    lemma_search_worth(
                        sh,
                        g,
                        None,
                        Task { line: self.line_at(ply as int, PV), ..t },
                        v,
                    );
                }
            }
            return v;
        }
        if PV {
            self.pv_len[ply] = 0;
            assert(self.row(ply as int) =~= Seq::empty());
        }
        if self.check_stop(sh) {
            return DRAW;
        }
        let mut low: i32 = alpha;
        let mut high: i32 = beta;
        if ply != 0 {
            if self.is_draw(sh, ply) {
                proof {
                    lemma_search_worth(
                        sh,
                        g,
                        None,
                        Task { line: self.line_at(ply as int, PV), ..t },
                        DRAW,
                    );
                }
                return DRAW;
            }
            if ply >= MAX_PLY {
                let v = self.evaluate(sh, ply);
                proof {
                    lemma_search_worth(
                        sh,
                        g,
                        None,
                        Task { line: self.line_at(ply as int, PV), ..t },
                        v,
                    );
                }
                return v;
            }
            // Mate distance pruning: no line from here can beat a mate already
            // found closer to the root.
            low = greater(alpha, mated_in(ply));
            high = lesser(beta, mate_in(ply + 1));
            if low >= high {
                proof {
                    lemma_search_worth(
                        sh,
                        g,
                        None,
                        Task { line: self.line_at(ply as int, PV), ..t },
                        low,
                    );
                }
                return low;
            }
        }
        // A singular search re-enters this node with one move removed. It must not
        // see the table entry it is testing, and must not write one back.
        let hit = if self.ss[ply + OFF].excluded.is_none() {
            sh.tt.probe(self.board.key)
        } else {
            None
        };
        let ghost before = *self;
        let v = self.node_search::<PV>(sh, hit, low, high, depth, cut_node, ply);
        proof {
            assert(before.searched(&o, sh, ply as int, PV));
            lemma_then(&*self, &before, &o, sh, ply as int, PV);
            if !self.stopped {
                lemma_path_same(&before, &o, ply);
                let u = Task { line: self.line_at(ply as int, PV), ..t };
                assert(before.task(
                    low,
                    high,
                    depth,
                    ply,
                    PV,
                    cut_node,
                    self.line_at(ply as int, PV),
                ) == (Task { alpha: low, beta: high, ..u }));
                lemma_search_worth(sh, g, hit, u, v);
            }
        }
        v
    }
}

} // verus!
