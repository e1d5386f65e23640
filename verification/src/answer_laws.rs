//! How the threads agree on a move, in scores and depths, and how it is told.

use vstd::prelude::*;

use crate::answer::{
    Progress, best_answer, bestmove_text, countable, info_text, is_voter, lowest_score,
    moves_line, tally, vote, vote_base, votes_first, votes_for, wins,
};
use crate::attacks::Tables;
use crate::board::Board;


use crate::notation::{move_name, move_to_string};
use crate::score::score_to_uci;
use crate::searcher::{RootLine, Searcher};
use crate::text::decimal;
use crate::types::Move;

verus! {

/// `low` is the least score of the searchers that completed an iteration.
pub open spec fn is_lowest(ss: Seq<Searcher>, low: int) -> bool {
    &&& exists|i: int|
        0 <= i < ss.len() && (#[trigger] ss[i]).completed_depth > 0 && ss[i].final_score == low
    &&& forall|i: int|
        0 <= i < ss.len() && (#[trigger] ss[i]).completed_depth > 0 ==> ss[i].final_score >= low
}

proof fn lemma_lowest_is(ss: Seq<Searcher>, k: int)
    requires
        0 <= k <= ss.len(),
    ensures
        match lowest_score(ss, k) {
            Some(x) => (exists|i: int|
                0 <= i < k && (#[trigger] ss[i]).completed_depth > 0 && ss[i].final_score == x) && (forall|
                i: int,
            |
                0 <= i < k && (#[trigger] ss[i]).completed_depth > 0 ==> ss[i].final_score >= x),
            None => forall|i: int| 0 <= i < k ==> (#[trigger] ss[i]).completed_depth <= 0,
        },
    decreases k,
{
    if k > 0 {
        lemma_lowest_is(ss, k - 1);
        let s = ss[k - 1];
        if lowest_score(ss, k) == Some(s.final_score as int) && s.completed_depth > 0 {
            assert(ss[k - 1].final_score == s.final_score);
        } else if let Some(x) = lowest_score(ss, k - 1) {
            let i = choose|i: int|
                0 <= i < k - 1 && (#[trigger] ss[i]).completed_depth > 0 && ss[i].final_score == x;
            assert(ss[i].final_score == x);
        }
    }
}

proof fn lemma_base(ss: Seq<Searcher>, low: int)
    requires
        is_lowest(ss, low),
    ensures
        vote_base(ss) == low,
{
    lemma_lowest_is(ss, ss.len() as int);
    let i = choose|i: int|
        0 <= i < ss.len() && (#[trigger] ss[i]).completed_depth > 0 && ss[i].final_score == low;
    assert(ss[i].completed_depth > 0);
}

/// What the first `k` searchers give to `m`: each that completed an iteration with this
/// move, 14 and as many as its score is above the lowest, for every ply of its depth.
pub open spec fn backing(ss: Seq<Searcher>, m: Move, low: int, k: int) -> int
    decreases k,
{
    if k <= 0 {
        0
    } else {
        let s = ss[k - 1];
        backing(ss, m, low, k - 1) + (if s.completed_depth > 0 && s.final_move == m && m.0 != 0 {
            s.completed_depth * (s.final_score - low + 14)
        } else {
            0
        })
    }
}

proof fn lemma_backing(ss: Seq<Searcher>, m: Move, low: int, k: int)
    requires
        m.0 != 0,
    ensures
        votes_for(ss, m, low, k) == backing(ss, m, low, k),
    decreases k,
{
    if k > 0 {
        lemma_backing(ss, m, low, k - 1);
        let s = ss[k - 1];
        assert(s.completed_depth * (s.final_score - low + 14) == (s.final_score - low + 14)
            * s.completed_depth) by (nonlinear_arith);
    }
}

/// Law: no move has more backing than the one that is voted for.
pub proof fn the_most_backed_move_is_played(searchers: &[Searcher], low: int, i: int, r: Option<Move>)
    requires
        countable(searchers@),
        call_ensures(vote, (searchers,), r),
        is_lowest(searchers@, low),
        0 <= i < searchers@.len(),
        searchers@[i].completed_depth > 0,
        searchers@[i].final_move.0 != 0,
    ensures
        r is Some,
        backing(searchers@, searchers@[i].final_move, low, searchers@.len() as int) <= backing(
            searchers@,
            r->0,
            low,
            searchers@.len() as int,
        ),
        exists|j: int|
            0 <= j < searchers@.len() && (#[trigger] searchers@[j]).completed_depth > 0
                && searchers@[j].final_move == r->0,
{
    let ss = searchers@;
    lemma_base(ss, low);
    assert(is_voter(ss[i]));
    let w = choose|w: int| #[trigger] wins(ss, w) && ss[w].final_move == r->0;
    assert(is_voter(ss[w]));
    let f = lemma_first_voter(ss, i);
    assert(votes_first(ss, f));
    lemma_backing(ss, ss[i].final_move, low, ss.len() as int);
    lemma_backing(ss, ss[w].final_move, low, ss.len() as int);
}

proof fn lemma_first_voter(ss: Seq<Searcher>, i: int) -> (f: int)
    requires
        0 <= i < ss.len(),
        is_voter(ss[i]),
    ensures
        votes_first(ss, f),
        ss[f].final_move == ss[i].final_move,
    decreases i,
{
    if exists|j: int| 0 <= j < i && #[trigger] is_voter(ss[j]) && ss[j].final_move == ss[i].final_move {
        let j = choose|j: int|
            0 <= j < i && #[trigger] is_voter(ss[j]) && ss[j].final_move == ss[i].final_move;
        lemma_first_voter(ss, j)
    } else {
        i
    }
}

/// Law: of two threads that disagree, the one with the greater product of depth and score
/// wins, the score counted from 14 below the lower of the two; of equals the second.
pub proof fn the_stronger_of_two_wins(searchers: &[Searcher], r: Option<Move>)
    requires
        countable(searchers@),
        searchers@.len() == 2,
        call_ensures(vote, (searchers,), r),
        searchers@[0].completed_depth > 0,
        searchers@[1].completed_depth > 0,
        searchers@[0].final_move.0 != 0,
        searchers@[1].final_move.0 != 0,
        searchers@[0].final_move != searchers@[1].final_move,
    ensures
        ({
            let (a, b) = (searchers@[0], searchers@[1]);
            let low = if a.final_score < b.final_score {
                a.final_score as int
            } else {
                b.final_score as int
            };
            r == Some(
                if a.completed_depth * (a.final_score - low + 14) > b.completed_depth * (b.final_score
                    - low + 14) {
                    a.final_move
                } else {
                    b.final_move
                },
            )
        }),
{
    let ss = searchers@;
    let (a, b) = (ss[0], ss[1]);
    let low = if a.final_score < b.final_score {
        a.final_score as int
    } else {
        b.final_score as int
    };
    assert(is_lowest(ss, low)) by {
        if a.final_score < b.final_score {
            assert(ss[0].final_score == low);
        } else {
            assert(ss[1].final_score == low);
        }
    }
    lemma_base(ss, low);
    assert(is_voter(ss[0]) && is_voter(ss[1]));
    let w = choose|w: int| #[trigger] wins(ss, w) && Some(ss[w].final_move) == r;
    lemma_backing(ss, a.final_move, low, 2);
    lemma_backing(ss, b.final_move, low, 2);
    reveal_with_fuel(backing, 3);
    assert(votes_first(ss, 0));
    assert(votes_first(ss, 1));
    assert(w == 0 || w == 1);
    assert(tally(ss, a.final_move) == a.completed_depth * (a.final_score - low + 14));
    assert(tally(ss, b.final_move) == b.completed_depth * (b.final_score - low + 14));
}

/// Law: a single thread, or several lines, play the main thread's own move, and without
/// one its last complete answer.
pub proof fn the_main_thread_answers_alone(searchers: &[Searcher], multipv: usize, b: Board, tables: Tables, r: Move)
    requires
        countable(searchers@),
        b.wf(),
        searchers@.len() > 0,
        searchers@.len() == 1 || multipv > 1,
        call_ensures(best_answer, (searchers, multipv, &b, &tables), r),
    ensures
        searchers@[0].best_move.0 != 0 ==> r == searchers@[0].best_move,
        searchers@[0].best_move.0 == 0 && searchers@[0].final_move.0 != 0 ==> r
            == searchers@[0].final_move,
{
}

/// Law: otherwise the vote decides.
pub proof fn the_threads_answer_together(
    searchers: &[Searcher],
    multipv: usize,
    b: Board,
    tables: Tables,
    low: int,
    i: int,
    r: Move,
)
    requires
        countable(searchers@),
        b.wf(),
        searchers@.len() > 1,
        multipv <= 1,
        call_ensures(best_answer, (searchers, multipv, &b, &tables), r),
        is_lowest(searchers@, low),
        0 <= i < searchers@.len(),
        searchers@[i].completed_depth > 0,
        searchers@[i].final_move.0 != 0,
    ensures
        backing(searchers@, searchers@[i].final_move, low, searchers@.len() as int) <= backing(
            searchers@,
            r,
            low,
            searchers@.len() as int,
        ),
{
    let ss = searchers@;
    lemma_base(ss, low);
    assert(is_voter(ss[i]));
    let w = choose|w: int| #[trigger] wins(ss, w) && ss[w].final_move == r;
    assert(is_voter(ss[w]));
    let f = lemma_first_voter(ss, i);
    assert(votes_first(ss, f));
    lemma_backing(ss, ss[i].final_move, low, ss.len() as int);
    lemma_backing(ss, ss[w].final_move, low, ss.len() as int);
}

/// Law: the answer is told by name, with the expected reply where there is one.
pub proof fn the_answer_is_told_by_name(best: Move, reply: Move, alone: String, both: String, name: String, answer: String)
    requires
        call_ensures(bestmove_text, (best, None), alone),
        call_ensures(bestmove_text, (best, Some(reply)), both),
        call_ensures(move_to_string, (best,), name),
        call_ensures(move_to_string, (reply,), answer),
    ensures
        alone@ == seq!['b', 'e', 's', 't', 'm', 'o', 'v', 'e', ' '] + name@,
        both@ == alone@ + (seq![' ', 'p', 'o', 'n', 'd', 'e', 'r', ' '] + answer@),
{
    reveal_strlit("bestmove ");
    reveal_strlit(" ponder ");
    assert("bestmove "@ =~= seq!['b', 'e', 's', 't', 'm', 'o', 'v', 'e', ' ']);
    assert(" ponder "@ =~= seq![' ', 'p', 'o', 'n', 'd', 'e', 'r', ' ']);
    assert(alone@ =~= "bestmove "@ + name@);
    assert(both@ =~= alone@ + (" ponder "@ + answer@));
}

/// Law: one more move of a line is told after a blank.
pub proof fn a_line_is_told_move_by_move(ms: Seq<Move>, m: Move)
    ensures
        moves_line(seq![m]) == move_name(m),
        ms.len() > 0 ==> moves_line(ms.push(m)) == moves_line(ms) + seq![' '] + move_name(m),
{
    reveal_strlit(" ");
    assert(" "@ =~= seq![' ']);
    assert(ms.push(m).drop_last() =~= ms);
}

/// Law: a line tells its depth, at least that as the deepest ply seen, its number where
/// there are several, its score, the nodes in all and in a second, the filling of the
/// table in thousandths, the time in milliseconds and its moves.
pub proof fn what_a_line_tells(
    p: Progress,
    l: RootLine,
    index: usize,
    several: bool,
    score: String,
    seen: nat,
    rate: nat,
    r: String,
)
    requires
        0 <= p.depth,
        p.nodes <= 18_000_000_000_000_000,
        l.score > i32::MIN,
        index < u32::MAX,
        call_ensures(score_to_uci, (l.score,), score),
        call_ensures(info_text, (&p, &l, index, several), r),
        seen >= p.depth && seen >= l.sel_depth && (seen == p.depth || seen == l.sel_depth),
        p.elapsed > 0 ==> rate * p.elapsed <= 1000 * p.nodes < (rate + 1) * p.elapsed,
        p.elapsed == 0 ==> rate == 1000 * p.nodes,
    ensures
        r@ == "info depth "@ + decimal(p.depth as nat) + " seldepth "@ + decimal(seen) + (if several {
            " multipv "@ + decimal((index + 1) as nat)
        } else {
            Seq::empty()
        }) + " score "@ + score@ + " nodes "@ + decimal(p.nodes as nat) + " nps "@ + decimal(rate)
            + " hashfull "@ + decimal(p.hashfull as nat) + " time "@ + decimal(p.elapsed as nat)
            + " pv "@ + (if l.pv@.len() == 0 {
            move_name(l.mv)
        } else {
            moves_line(l.pv@)
        }),
{
    let e = if p.elapsed < 1 {
        1
    } else {
        p.elapsed as int
    };
    let n = p.nodes * 1000;
    assert(n / e == rate) by (nonlinear_arith)
        requires
            e > 0,
            rate * e <= n < (rate + 1) * e,
    ;
}

} // verus!
