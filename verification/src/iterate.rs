//! Iterative deepening with aspiration windows.

use vstd::prelude::*;
use crate::attacks::line;
use crate::board::{Board, BoardView};

use crate::history::{NULL_CONT, clamp_to, magnitude_of, trunc, trunc_div};
use crate::movegen::{GEN_ALL, GEN_CAPTURES, MoveList, gen_of, generate, moves_of};
use crate::movegen_laws::{generated_exactly_legal, lemma_board_gen};
use crate::nnue::{Network, delta, evaluable};
use crate::node::Node;
use crate::params::{ASPIRATION_DELTA, ASP_MIN_DEPTH};
use crate::play::same_game;
use crate::position::legal;

use crate::score::{INFINITE, MATE, SCORE_LIMIT, greater, is_mate, lesser};
use crate::search::{has_room, is_candidate, is_led_by, lemma_then};
use crate::searcher::{
    RootLine, Searcher, Stack, add_capped, does_as_told, legal_line, lemma_told_nothing,
    lemma_told_twice, listed_at, pos_of,
};
use crate::start::lemma_clone;
use crate::timing::{Limits, Shared, answer_is_known, max_of, may_be_set_after};
use crate::tt::VALUE_NONE;
use crate::types::{DEEPEST, MAX_PLY, Move};
use crate::worth::{
    Game, Path, Task, Trial, game_of, is_sane, is_score, is_window, scores_stay_in_range,
    search_worth,
};

verus! {

broadcast use lemma_told_nothing;

/// A line that can be played from `b`, its first move in front.
pub open spec fn playable(b: BoardView, l: RootLine) -> bool {
    &&& legal_line(pos_of(b), l.pv@)
    &&& l.mv == Move::none() || legal(b.q, b.stm, b.ep, l.mv)
    &&& l.mv.compact()
    &&& l.pv@.len() > 0 ==> l.pv@[0] == l.mv
    &&& -SCORE_LIMIT <= l.score <= SCORE_LIMIT
}

/// Playable lines, best first, each with a move of its own in front.
pub open spec fn ranked(b: BoardView, ls: Seq<RootLine>) -> bool {
    &&& forall|i: int| 0 <= i < ls.len() ==> playable(b, #[trigger] ls[i])
    &&& forall|i: int, j: int|
        0 <= i < j < ls.len() ==> (#[trigger] ls[i]).score >= (#[trigger] ls[j]).score
    &&& forall|i: int, j: int|
        0 <= i < j < ls.len() ==> differ(#[trigger] ls[i], #[trigger] ls[j])
}

/// Lines that lead anywhere begin with different moves.
pub open spec fn differ(a: RootLine, b: RootLine) -> bool {
    a.pv@.len() > 0 && b.pv@.len() > 0 ==> a.mv != b.mv
}

/// The lines with one more, behind all that score at least as much.
pub open spec fn placed(ls: Seq<RootLine>, l: RootLine) -> Seq<RootLine>
    decreases ls.len(),
{
    if ls.len() == 0 || ls.last().score >= l.score {
        ls.push(l)
    } else {
        placed(ls.drop_last(), l).push(ls.last())
    }
}

/// Lines in the order of their scores, and among equals as they were found.
pub open spec fn ranking(found: Seq<RootLine>) -> Seq<RootLine>
    decreases found.len(),
{
    if found.len() == 0 {
        Seq::empty()
    } else {
        placed(ranking(found.drop_last()), found.last())
    }
}

proof fn lemma_placed(ls: Seq<RootLine>, l: RootLine, k: int)
    requires
        0 <= k <= ls.len(),
        forall|i: int| 0 <= i < k ==> (#[trigger] ls[i]).score >= l.score,
        forall|i: int| k <= i < ls.len() ==> (#[trigger] ls[i]).score < l.score,
    ensures
        ls.insert(k, l) == placed(ls, l),
    decreases ls.len(),
{
    if k == ls.len() {
        assert(ls.insert(k, l) =~= ls.push(l));
        if ls.len() > 0 {
            assert(ls[ls.len() - 1].score >= l.score);
        }
    } else {
        let us = ls.drop_last();
        assert(ls[ls.len() - 1].score < l.score);
        assert forall|i: int| 0 <= i < k implies (#[trigger] us[i]).score >= l.score by {
            assert(us[i] == ls[i]);
        }
        assert forall|i: int| k <= i < us.len() implies (#[trigger] us[i]).score < l.score by {
            assert(us[i] == ls[i]);
        }
        lemma_placed(us, l, k);
        assert(ls.insert(k, l) =~= us.insert(k, l).push(ls.last()));
    }
}

/// What is ranked was found.
proof fn lemma_ranking_of(found: Seq<RootLine>, i: int) -> (j: int)
    requires
        0 <= i < ranking(found).len(),
    ensures
        0 <= j < found.len(),
        ranking(found)[i] == found[j],
    decreases found.len(),
{
    let before = ranking(found.drop_last());
    let k = lemma_placed_of(before, found.last(), i);
    if k < 0 {
        found.len() - 1
    } else {
        let j = lemma_ranking_of(found.drop_last(), k);
        assert(found.drop_last()[j] == found[j]);
        j
    }
}

/// What is placed stood there before, or is new.
proof fn lemma_placed_of(ls: Seq<RootLine>, l: RootLine, i: int) -> (k: int)
    requires
        0 <= i < placed(ls, l).len(),
    ensures
        k < ls.len(),
        if k < 0 {
            placed(ls, l)[i] == l
        } else {
            placed(ls, l)[i] == ls[k]
        },
    decreases ls.len(),
{
    if ls.len() == 0 || ls.last().score >= l.score {
        if i < ls.len() {
            i
        } else {
            -1
        }
    } else {
        let before = placed(ls.drop_last(), l);
        if i < before.len() {
            let k = lemma_placed_of(ls.drop_last(), l, i);
            if k >= 0 {
                assert(ls.drop_last()[k] == ls[k]);
            }
            k
        } else {
            ls.len() - 1
        }
    }
}

/// Puts a line behind all that score at least as much.
fn place(lines: &mut Vec<RootLine>, line: RootLine, Ghost(b): Ghost<BoardView>)
    requires
        ranked(b, old(lines)@),
        playable(b, line),
        forall|i: int| 0 <= i < old(lines)@.len() ==> differ(#[trigger] old(lines)@[i], line),
    ensures
        ranked(b, final(lines)@),
        final(lines)@ == placed(old(lines)@, line),
        final(lines)@.len() == old(lines)@.len() + 1,
        forall|i: int| 0 <= i < final(lines)@.len() ==> (#[trigger] final(lines)@[i]) == line || old(
            lines,
        )@.contains(final(lines)@[i]),
        all_lead_on(old(lines)@) && leads_on(line) ==> all_lead_on(final(lines)@),
{
    let mut k: usize = 0;
    while k < lines.len() && lines[k].score >= line.score
        invariant
            k <= lines@.len(),
            forall|i: int| 0 <= i < k ==> (#[trigger] lines@[i]).score >= line.score,
        decreases lines@.len() - k,
    {
        k += 1;
    }
    let ghost before = lines@;
    lines.insert(k, line);
    proof {
        let after = lines@;
        assert(after == before.insert(k as int, line));
        assert forall|i: int| k <= i < before.len() implies (#[trigger] before[i]).score
            < line.score by {
            if i > k {
                assert(before[k as int].score >= before[i].score);
            }
        }
        lemma_placed(before, line, k as int);
        assert forall|i: int| 0 <= i < after.len() implies (#[trigger] after[i]) == line
            || before.contains(after[i]) by {
            if i < k {
                assert(after[i] == before[i]);
            } else if i > k {
                assert(after[i] == before[i - 1]);
            }
        }
        assert forall|i: int, j: int| 0 <= i < j < after.len() implies differ(
            #[trigger] after[i],
            #[trigger] after[j],
        ) by {
            if i < k {
                assert(after[i] == before[i]);
            } else if i > k {
                assert(after[i] == before[i - 1]);
            }
            if j < k {
                assert(after[j] == before[j]);
            } else if j > k {
                assert(after[j] == before[j - 1]);
            }
        }
        assert forall|i: int| 0 <= i < after.len() implies playable(b, #[trigger] after[i]) by {
            if i < k {
                assert(after[i] == before[i]);
            } else if i > k {
                assert(after[i] == before[i - 1]);
            }
        }
        if all_lead_on(before) && leads_on(line) {
            assert forall|i: int| 0 <= i < after.len() implies leads_on(#[trigger] after[i]) by {
                if i < k {
                    assert(after[i] == before[i]);
                } else if i > k {
                    assert(after[i] == before[i - 1]);
                }
            }
        }
        assert forall|i: int, j: int| 0 <= i < j < after.len() implies (#[trigger] after[i]).score
            >= (#[trigger] after[j]).score by {
            let x = if i <= k {
                i
            } else {
                i - 1
            };
            let y = if j <= k {
                j
            } else {
                j - 1
            };
            if i < k {
                assert(after[i] == before[i]);
            } else if i > k {
                assert(after[i] == before[i - 1]);
            }
            if j < k {
                assert(after[j] == before[j]);
            } else if j > k {
                assert(after[j] == before[j - 1]);
                if k < before.len() {
                    assert(before[k as int].score < line.score);
                    assert(before[j - 1].score <= before[k as int].score);
                }
            }
        }
    }
}

/// The window of the first search of a line: narrow around its previous score once
/// there is one to speak of. Returns the window and the step by which it widens.
pub fn first_window(depth: i32, prev_score: i32) -> (r: (i32, i32, i32))
    requires
        -SCORE_LIMIT <= prev_score <= SCORE_LIMIT,
    ensures
        r.2 == 10 + prev_score * prev_score / 12000,
        depth >= 4 ==> r.0 == greater((prev_score - r.2) as i32, (-INFINITE) as i32) && r.1 == lesser(
            (prev_score + r.2) as i32,
            INFINITE,
        ),
        depth < 4 ==> r.0 == -INFINITE && r.1 == INFINITE,
        -INFINITE <= r.0 < r.1 <= INFINITE,
        10 <= r.2 <= 200_000,
{
    assert(0 <= prev_score * prev_score <= 1_296_000_000) by (nonlinear_arith)
        requires
            -36000 <= prev_score <= 36000,
    ;
    assert(prev_score * prev_score >= 12000 * (prev_score - 3000)) by (nonlinear_arith);
    assert(prev_score * prev_score >= 12000 * (-prev_score - 3000)) by (nonlinear_arith);
    let delta: i32 = ASPIRATION_DELTA + prev_score * prev_score / 12000;
    if depth >= ASP_MIN_DEPTH {
        (greater(prev_score - delta, -INFINITE), lesser(prev_score + delta, INFINITE), delta)
    } else {
        (-INFINITE, INFINITE, delta)
    }
}

/// The next window after the score `s`, and the depth to search it at; `None` where
/// `s` lies inside the window, or beyond a side of it that is open already.
///
/// On a fail high the position is better than believed and the move is usually
/// obvious, so the next search is allowed to give up a ply; on a fail low it is
/// not, because a refutation has to be found.
pub open spec fn widened(s: i32, alpha: i32, beta: i32, delta: i32, fail_depth: i32, depth: i32) -> Option<
    (i32, i32, i32),
> {
    if s <= alpha && alpha > -INFINITE {
        Some(
            (
                greater((s - delta) as i32, (-INFINITE) as i32),
                trunc(alpha + beta, 2) as i32,
                depth,
            ),
        )
    } else if s > alpha && s >= beta && beta < INFINITE {
        Some(
            (
                alpha,
                lesser((s + delta) as i32, INFINITE),
                greater(greater((fail_depth - 1) as i32, (depth - 2) as i32), 1),
            ),
        )
    } else {
        None
    }
}

pub fn widen(s: i32, alpha: i32, beta: i32, delta: i32, fail_depth: i32, depth: i32) -> (r: Option<
    (i32, i32, i32),
>)
    requires
        -SCORE_LIMIT <= s <= SCORE_LIMIT,
        -INFINITE <= alpha < beta <= INFINITE,
        10 <= delta <= 2_000_000,
        1 <= fail_depth <= depth <= 10_000,
    ensures
        r == widened(s, alpha, beta, delta, fail_depth, depth),
        r matches Some((a, b, d)) ==> -INFINITE <= a < b <= INFINITE && 1 <= d <= depth && (a
            < alpha || (a == alpha && b > beta)),
{
    if s <= alpha && alpha > -INFINITE {
        Some((greater(s - delta, -INFINITE), trunc_div(alpha + beta, 2), depth))
    } else if s > alpha && s >= beta && beta < INFINITE {
        Some(
            (
                alpha,
                lesser(s + delta, INFINITE),
                greater(greater(fail_depth - 1, depth - 2), 1),
            ),
        )
    } else {
        None
    }
}

/// The candidates of the root depend on the position and the claims only.
proof fn lemma_candidate_same(a: &Searcher, b: &Searcher)
    requires
        same_game(a.board@, b.board@),
        a.ss@[8].excluded == b.ss@[8].excluded,
        a.root_excluded == b.root_excluded,
    ensures
        b.has_candidate() ==> a.has_candidate(),
        has_room(&b.board) == has_room(&a.board),
{
    assert(gen_of(&a.board, GEN_CAPTURES) == gen_of(&b.board, GEN_CAPTURES));
    if b.has_candidate() {
        let m = choose|m: Move| #[trigger]
            is_candidate(&b.board, b.ss@[8].excluded, b.root_excluded@, m);
        assert(is_candidate(&a.board, a.ss@[8].excluded, a.root_excluded@, m));
    }
}

/// As long as fewer moves are claimed than there are, one is left to look at.
proof fn lemma_unclaimed(s: &Searcher)
    requires
        s.board.wf(),
        s.whole(0),
        s.root_excluded@.len() < listed_at(pos_of(s.board@)).len(),
    ensures
        s.has_candidate(),
{
    let ms = listed_at(pos_of(s.board@));
    let claims = s.root_excluded@;
    lemma_board_gen(&s.board, GEN_ALL);
    generated_exactly_legal(gen_of(&s.board, GEN_ALL));
    if forall|m: Move| #[trigger] ms.contains(m) ==> claims.contains(m) {
        ms.unique_seq_to_set();
        claims.lemma_cardinality_of_set();
        assert(ms.to_set().subset_of(claims.to_set())) by {
            assert forall|m: Move| ms.to_set().contains(m) implies claims.to_set().contains(m) by {
                assert(ms.contains(m));
            }
        }
        vstd::set_lib::lemma_len_subset(ms.to_set(), claims.to_set());
    } else {
        let m = choose|m: Move| #[trigger] ms.contains(m) && !claims.contains(m);
        assert(legal(s.board.q(), s.board.stm, s.board.ep, m));
        assert(m != Move::none());
        assert(is_candidate(&s.board, s.ss@[8].excluded, claims, m));
    }
}

/// A line with a move in front, unless every score lies beyond being mated.
pub open spec fn leads_on(l: RootLine) -> bool {
    l.pv@.len() > 0 || l.score <= -INFINITE
}

pub open spec fn all_lead_on(ls: Seq<RootLine>) -> bool {
    forall|i: int| 0 <= i < ls.len() ==> leads_on(#[trigger] ls[i])
}

/// Lines that can be played in a position can be played on every board with it.
proof fn lemma_ranked_same(a: BoardView, b: BoardView, ls: Seq<RootLine>)
    requires
        ranked(a, ls),
        a.q == b.q,
        a.stm == b.stm,
        a.ep == b.ep,
    ensures
        ranked(b, ls),
{
    assert(pos_of(a) == pos_of(b));
    assert forall|i: int| 0 <= i < ls.len() implies playable(b, #[trigger] ls[i]) by {
        assert(playable(a, ls[i]));
    }
}

/// The greatest depth of a search.
pub open spec fn depth_limit(l: Limits) -> int {
    match l.depth {
        Some(d) => max_of(d as int, 0),
        None => MAX_PLY - 1,
    }
}

/// One search of a line: its window, the step by which that widens, its depth and the
/// best move before it; and what it found.
pub struct Attempt {
    pub alpha: i32,
    pub beta: i32,
    pub delta: i32,
    pub depth: i32,
    pub hint: Move,
    pub score: i32,
    pub best: Move,
    pub line: Seq<Move>,
}

/// The search from the root of an iteration to `depth`.
pub open spec fn root_task(depth: i32, claimed: Seq<Move>, a: Attempt) -> Task {
    Task {
        alpha: a.alpha,
        beta: a.beta,
        depth: a.depth,
        ply: 0,
        pv: true,
        cut_node: false,
        excluded: Move::none(),
        known: VALUE_NONE,
        claimed,
        hint: Some(a.hint),
        path: Path {
            trail: Seq::new(8, |i: int| NULL_CONT),
            evals: Seq::new(8, |i: int| VALUE_NONE),
            passed: false,
            root_depth: depth,
        },
        line: a.line,
    }
}

/// The first search of a line that scored `prev_score` before.
pub open spec fn opens_with(depth: i32, prev_score: i32, hint: Move, a: Attempt) -> bool {
    &&& a.depth == depth
    &&& a.hint == hint
    &&& a.delta == 10 + prev_score * prev_score / 12000
    &&& a.alpha == if depth >= 4 {
        greater((prev_score - a.delta) as i32, (-INFINITE) as i32)
    } else {
        (-INFINITE) as i32
    }
    &&& a.beta == if depth >= 4 {
        lesser((prev_score + a.delta) as i32, INFINITE)
    } else {
        INFINITE
    }
}

/// The search after one whose score lies outside the window. A fail high gives up a ply,
/// two at most, and a fail low takes them back.
pub open spec fn follows_on(depth: i32, a: Attempt, b: Attempt) -> bool {
    &&& widened(a.score, a.alpha, a.beta, a.delta, a.depth, depth) == Some(
        (b.alpha, b.beta, b.depth),
    )
    &&& b.delta == stretched(a.delta)
    &&& b.hint == a.best
}

/// The next step.
pub open spec fn stretched(delta: i32) -> int {
    if delta < 1_000_000 {
        delta + delta / 3
    } else {
        delta as int
    }
}

/// The search was made and found that, with the move in front that its trials leave
/// there.
pub open spec fn is_made(sh: &Shared, g: Game, claimed: Seq<Move>, depth: i32, a: Attempt) -> bool {
    &&& search_worth(sh, g, root_task(depth, claimed, a), a.score)
    &&& a.score > a.alpha ==> exists|node: Node, ts: Seq<Trial>| #[trigger]
        is_led_by(sh, g, node, root_task(depth, claimed, a), ts, a.best, a.score)
}

/// These searches were made one after the other.
pub open spec fn are_made(
    sh: &Shared,
    g: Game,
    claimed: Seq<Move>,
    depth: i32,
    prev_score: i32,
    hint: Move,
    ws: Seq<Attempt>,
) -> bool {
    &&& ws.len() > 0
    &&& opens_with(depth, prev_score, hint, ws[0])
    &&& forall|i: int| 0 <= i < ws.len() ==> is_made(sh, g, claimed, depth, #[trigger] ws[i])
    &&& forall|i: int, j: int|
        0 <= i && j == i + 1 && j < ws.len() ==> follows_on(
            depth,
            #[trigger] ws[i],
            #[trigger] ws[j],
        )
}

/// These searches find the line: the score of the last one lies inside its window, or
/// beyond a side that is open.
pub open spec fn is_found_by(
    sh: &Shared,
    g: Game,
    claimed: Seq<Move>,
    depth: i32,
    prev_score: i32,
    hint: Move,
    ws: Seq<Attempt>,
    score: i32,
    best: Move,
    line: Seq<Move>,
) -> bool {
    let a = ws.last();
    &&& are_made(sh, g, claimed, depth, prev_score, hint, ws)
    &&& widened(a.score, a.alpha, a.beta, a.delta, a.depth, depth) is None
    &&& score == a.score
    &&& best == a.best
    &&& line == a.line
}

/// A search to `depth` besides the claimed moves finds this score, move and line.
#[verifier::opaque]
pub open spec fn is_found(
    sh: &Shared,
    g: Game,
    claimed: Seq<Move>,
    depth: i32,
    prev_score: i32,
    hint: Move,
    score: i32,
    best: Move,
    line: Seq<Move>,
) -> bool {
    exists|ws: Seq<Attempt>| #[trigger]
        is_found_by(sh, g, claimed, depth, prev_score, hint, ws, score, best, line)
}

/// The line is what a search to `depth` finds besides the claimed moves.
pub open spec fn is_line_found(
    sh: &Shared,
    g: Game,
    claimed: Seq<Move>,
    depth: i32,
    prev_score: i32,
    hint: Move,
    l: RootLine,
) -> bool {
    is_found(sh, g, claimed, depth, prev_score, hint, l.score, l.mv, l.pv@)
}

/// The moves that these lines claim.
pub open spec fn claims_of(found: Seq<RootLine>) -> Seq<Move> {
    Seq::new(found.len(), |i: int| found[i].mv)
}

/// What line `k` scored before.
pub open spec fn prev_score_of(prev: Seq<RootLine>, k: int) -> i32 {
    if k < prev.len() {
        prev[k].score
    } else {
        0
    }
}

/// The move to try first in line `k`: that of the line before, or of the only line.
pub open spec fn hint_for(prev: Seq<RootLine>, first: Move, count: int, k: int) -> Move {
    if k < prev.len() {
        prev[k].mv
    } else if count > 1 {
        Move::none()
    } else {
        first
    }
}

/// These lines are found one after the other, each without the moves of those before it.
#[verifier::opaque]
pub open spec fn are_found(
    sh: &Shared,
    g: Game,
    depth: i32,
    prev: Seq<RootLine>,
    first: Move,
    count: int,
    found: Seq<RootLine>,
) -> bool {
    forall|k: int|
        0 <= k < found.len() ==> is_line_found(
            sh,
            g,
            claims_of(found.take(k)),
            depth,
            prev_score_of(prev, k),
            hint_for(prev, first, count, k),
            #[trigger] found[k],
        )
}

/// An iteration to `depth` finds these lines.
pub open spec fn is_iteration(
    sh: &Shared,
    g: Game,
    depth: i32,
    prev: Seq<RootLine>,
    first: Move,
    count: int,
    found: Seq<RootLine>,
) -> bool {
    found.len() == count && are_found(sh, g, depth, prev, first, count, found)
}

/// These are the lines after iterations up to `depth`, with `first` as the first move of
/// the list.
#[verifier::opaque]
pub open spec fn all_searched_to(
    sh: &Shared,
    g: Game,
    first: Move,
    count: int,
    depth: i32,
    ls: Seq<RootLine>,
) -> bool
    decreases depth,
{
    if depth <= 0 {
        ls.len() == 0
    } else {
        exists|prev: Seq<RootLine>, found: Seq<RootLine>| #[trigger]
            is_iteration(sh, g, depth, prev, first, count, found) && ls == ranking(found)
                && all_searched_to(sh, g, first, count, (depth - 1) as i32, prev)
    }
}

proof fn lemma_iterated(
    sh: &Shared,
    g: Game,
    first: Move,
    count: int,
    depth: i32,
    prev: Seq<RootLine>,
    found: Seq<RootLine>,
)
    requires
        depth > 0,
        is_iteration(sh, g, depth, prev, first, count, found),
        all_searched_to(sh, g, first, count, (depth - 1) as i32, prev),
    ensures
        all_searched_to(sh, g, first, count, depth, ranking(found)),
{
    reveal(all_searched_to);
}

proof fn lemma_found_none(
    sh: &Shared,
    g: Game,
    depth: i32,
    prev: Seq<RootLine>,
    first: Move,
    count: int,
)
    ensures
        are_found(sh, g, depth, prev, first, count, Seq::empty()),
        claims_of(Seq::empty()) == Seq::<Move>::empty(),
        ranking(Seq::empty()) == Seq::<RootLine>::empty(),
{
    reveal(are_found);
    assert(claims_of(Seq::empty()) =~= Seq::<Move>::empty());
}

/// One line more.
proof fn lemma_found_more(
    sh: &Shared,
    g: Game,
    depth: i32,
    prev: Seq<RootLine>,
    first: Move,
    count: int,
    found: Seq<RootLine>,
    l: RootLine,
)
    requires
        are_found(sh, g, depth, prev, first, count, found),
        is_line_found(
            sh,
            g,
            claims_of(found),
            depth,
            prev_score_of(prev, found.len() as int),
            hint_for(prev, first, count, found.len() as int),
            l,
        ),
    ensures
        are_found(sh, g, depth, prev, first, count, found.push(l)),
        claims_of(found.push(l)) == claims_of(found).push(l.mv),
        ranking(found.push(l)) == placed(ranking(found), l),
{
    reveal(are_found);
    let us = found.push(l);
    assert forall|k: int| 0 <= k < us.len() implies is_line_found(
        sh,
        g,
        claims_of(us.take(k)),
        depth,
        prev_score_of(prev, k),
        hint_for(prev, first, count, k),
        #[trigger] us[k],
    ) by {
        assert(us.take(k) =~= found.take(k));
        if k < found.len() {
            assert(us[k] == found[k]);
        } else {
            assert(found.take(k) =~= found);
        }
    }
    assert(claims_of(us) =~= claims_of(found).push(l.mv));
    assert(us.drop_last() =~= found);
}

/// Every line has claimed its move.
proof fn lemma_claimed(found: Seq<RootLine>, i: int)
    requires
        0 <= i < ranking(found).len(),
    ensures
        claims_of(found).contains(ranking(found)[i].mv),
{
    let j = lemma_ranking_of(found, i);
    assert(claims_of(found)[j] == found[j].mv);
}

/// Does the clock govern the search?
pub open spec fn has_clock(l: Limits) -> bool {
    l.has_time || l.movetime is Some
}

/// `s` was reported with the iteration to `d` complete.
pub open spec fn is_reported<R: Fn(&Searcher, i32)>(report: R, s: Searcher, d: i32) -> bool {
    s.completed_depth == d && call_ensures(report, (&s, d), ())
}

/// `s`, reported with the iteration to `d` complete, is left for a deeper one: the
/// search has no end or is pondering, or the answer is not known and the time is not up.
pub open spec fn is_left<R: Fn(&Searcher, i32), T: Fn(&Searcher, i32) -> bool>(
    sh: &Shared,
    g: Game,
    root_moves: Seq<Move>,
    report: R,
    time_is_up: T,
    d: i32,
    s: Searcher,
) -> bool {
    &&& is_reported(report, s, d)
    &&& s.root_moves@ == root_moves
    &&& all_searched_to(sh, g, root_moves[0], s.line_count(), d, s.lines@)
    &&& s.lines@.len() > 0 && s.final_score == s.lines@[0].score
    &&& sh.limits.infinite || may_be_set_after(sh.pondering, true) || (!knows(s) && (has_clock(
        sh.limits,
    ) ==> call_ensures(time_is_up, (&s, d), false)))
}

/// There is something to do after an iteration to `d`.
pub open spec fn goes_on<R: Fn(&Searcher, i32), T: Fn(&Searcher, i32) -> bool>(
    sh: &Shared,
    g: Game,
    root_moves: Seq<Move>,
    report: R,
    time_is_up: T,
    d: i32,
) -> bool {
    exists|s: Searcher| #[trigger] is_left(sh, g, root_moves, report, time_is_up, d, s)
}

/// A single legal move needs no more thought, and a forced mate found within the
/// depth is the answer.
pub open spec fn knows(s: Searcher) -> bool {
    (s.root_moves@.len() == 1 && s.completed_depth >= 4) || (is_mate(s.final_score)
        && s.completed_depth >= MATE - magnitude_of(s.final_score as int) + 4)
}

/// The task of a search from the root.
proof fn lemma_root_task(s: &Searcher, depth: i32, a: Attempt)
    requires
        forall|i: int| 0 <= i < 8 ==> (#[trigger] s.ss@[i]).is_blank(),
        s.whole(0),
        s.root_depth == depth,
        a.hint == s.best_move,
    ensures
        s.task(a.alpha, a.beta, a.depth, 0, true, false, a.line) == root_task(
            depth,
            s.root_excluded@,
            a,
        ),
{
    let p = s.path(0);
    let q = root_task(depth, s.root_excluded@, a).path;
    assert(p.trail =~= q.trail);
    assert(p.evals =~= q.evals);
    assert(s.ss@[7].is_blank());
}

/// A search from the root was made.
proof fn lemma_made(sh: &Shared, o: &Searcher, n: &Searcher, depth: i32, a: Attempt)
    requires
        forall|i: int| 0 <= i < 8 ==> (#[trigger] o.ss@[i]).is_blank(),
        o.whole(0),
        o.root_depth == depth,
        a.hint == o.best_move,
        a.best == n.best_move,
        a.line == n.row(0),
        search_worth(
            sh,
            game_of(&o.board),
            o.task(a.alpha, a.beta, a.depth, 0, true, false, n.line_at(0, true)),
            a.score,
        ),
        a.score > a.alpha ==> exists|node: Node, ts: Seq<Trial>| #[trigger]
            is_led_by(
                sh,
                game_of(&o.board),
                node,
                o.task(a.alpha, a.beta, a.depth, 0, true, false, n.line_at(0, true)),
                ts,
                n.best_move,
                a.score,
            ),
    ensures
        is_made(sh, game_of(&o.board), o.root_excluded@, depth, a),
{
    lemma_root_task(o, depth, a);
    assert(n.line_at(0, true) == a.line);
    let t = o.task(a.alpha, a.beta, a.depth, 0, true, false, n.line_at(0, true));
    assert(t == root_task(depth, o.root_excluded@, a));
    if a.score > a.alpha {
        let (node, ts) = choose|node: Node, ts: Seq<Trial>| #[trigger]
            is_led_by(sh, game_of(&o.board), node, t, ts, n.best_move, a.score);
        assert(is_led_by(
            sh,
            game_of(&o.board),
            node,
            root_task(depth, o.root_excluded@, a),
            ts,
            a.best,
            a.score,
        ));
    }
}

impl Searcher {
    /// Everything is ready for a search from the root.
    pub open spec fn rooted(&self, n: Network) -> bool {
        &&& self.fit(n, 0)
        &&& self.whole(0)
        &&& 0 <= self.root_depth <= DEEPEST
        &&& forall|i: int| 0 <= i < 8 ==> (#[trigger] self.ss@[i]).is_blank()
    }

    /// Searches one line of an iteration: a narrow window around the line's
    /// previous score, widened on each failure.
    fn search_line(&mut self, sh: &Shared, depth: i32, prev_score: i32) -> (r: i32)
        requires
            old(self).rooted(*sh.net),
            sh.ok(),
            1 <= depth <= DEEPEST,
            -SCORE_LIMIT <= prev_score <= SCORE_LIMIT,
            old(self).root_depth == depth,
        ensures
            final(self).searched(old(self), sh, 0, true),
            final(self).looks_first(old(self), sh),
            -SCORE_LIMIT <= r <= SCORE_LIMIT,
            final(self).row(0).len() > 0 ==> final(self).row(0)[0] == final(self).best_move && !old(
                self).root_excluded@.contains(final(self).best_move) && (final(self).stopped || final(
                self).best_score == r),
            // Where there is a move to look at, there is a line, unless every score
            // lies beyond being mated.
            !final(self).stopped && has_room(&old(self).board) && old(self).has_candidate() ==> final(
                self).counted(old(self)) && (final(self).row(0).len() > 0 || r <= -INFINITE),
            !final(self).stopped ==> is_found(
                sh,
                game_of(&old(self).board),
                old(self).root_excluded@,
                depth,
                prev_score,
                old(self).best_move,
                r,
                final(self).best_move,
                final(self).row(0),
            ),
    {
        let ghost o = *self;
        let (first_alpha, first_beta, first_delta) = first_window(depth, prev_score);
        let mut alpha: i32 = first_alpha;
        let mut beta: i32 = first_beta;
        let mut delta: i32 = first_delta;
        let mut fail_depth: i32 = depth;
        let ghost mut ws: Seq<Attempt> = Seq::empty();
        let mut s = self.search::<true>(sh, alpha, beta, fail_depth, false, 0);
        proof {
            let a = Attempt {
                alpha,
                beta,
                delta,
                depth: fail_depth,
                hint: o.best_move,
                score: s,
                best: self.best_move,
                line: self.row(0),
            };
            ws = ws.push(a);
            if !self.stopped {
                lemma_made(sh, &o, &*self, depth, a);
            }
        }
        while !self.stopped
            invariant
                o == *old(self),
                o.board.placed(),
                self.searched(&o, sh, 0, true),
                self.looks_first(&o, sh),
                0 <= self.root_depth <= DEEPEST,
                sh.ok(),
                1 <= fail_depth <= depth <= DEEPEST,
                -INFINITE <= alpha < beta <= INFINITE,
                10 <= delta <= 2_000_000,
                -SCORE_LIMIT <= s <= SCORE_LIMIT,
                self.row(0).len() > 0 ==> self.row(0)[0] == self.best_move
                    && !o.root_excluded@.contains(self.best_move) && (self.stopped
                    || self.best_score == s),
                !self.stopped && has_room(&o.board) && o.has_candidate() ==> self.counted(&o) && (s
                    > alpha ==> self.row(0).len() > 0),
                o.whole(0),
                fail_depth >= depth - 2,
                o.root_depth == depth,
                forall|i: int| 0 <= i < 8 ==> (#[trigger] o.ss@[i]).is_blank(),
                !self.stopped ==> are_made(
                    sh,
                    game_of(&o.board),
                    o.root_excluded@,
                    depth,
                    prev_score,
                    o.best_move,
                    ws,
                ) && ws.last() == (Attempt {
                    alpha,
                    beta,
                    delta,
                    depth: fail_depth,
                    hint: ws.last().hint,
                    score: s,
                    best: self.best_move,
                    line: self.row(0),
                }),
            decreases alpha + 32001, 32001 - beta,
        {
            match widen(s, alpha, beta, delta, fail_depth, depth) {
                None => {
                    proof {
                        reveal(is_found);
                        assert(is_found_by(
                            sh,
                            game_of(&o.board),
                            o.root_excluded@,
                            depth,
                            prev_score,
                            o.best_move,
                            ws,
                            s,
                            self.best_move,
                            self.row(0),
                        ));
                    }
                    return s;
                },
                Some((a, b, d)) => {
                    alpha = a;
                    beta = b;
                    fail_depth = d;
                },
            }
            // A step this wide opens either side at once, and need not grow.
            if delta < 1_000_000 {
                delta = delta + delta / 3;
            }
            let ghost before = *self;
            s = self.search::<true>(sh, alpha, beta, fail_depth, false, 0);
            proof {
                lemma_then(&*self, &before, &o, sh, 0, true);
                lemma_candidate_same(&before, &o);
                assert(game_of(&before.board) == game_of(&o.board));
                let a = Attempt {
                    alpha,
                    beta,
                    delta,
                    depth: fail_depth,
                    hint: before.best_move,
                    score: s,
                    best: self.best_move,
                    line: self.row(0),
                };
                assert forall|i: int| 0 <= i < 8 implies (#[trigger] before.ss@[i]).is_blank() by {
                    assert(before.ss@[i] == o.ss@[i]);
                }
                if !self.stopped {
                    lemma_made(sh, &before, &*self, depth, a);
                    let us = ws.push(a);
                    assert forall|i: int, j: int|
                        0 <= i && j == i + 1 && j < us.len() implies follows_on(
                        depth,
                        #[trigger] us[i],
                        #[trigger] us[j],
                    ) by {
                        assert(us[i] == ws[i]);
                        if j < ws.len() {
                            assert(us[j] == ws[j]);
                        }
                    }
                    assert forall|i: int| 0 <= i < us.len() implies is_made(
                        sh,
                        game_of(&o.board),
                        o.root_excluded@,
                        depth,
                        #[trigger] us[i],
                    ) by {
                        if i < ws.len() {
                            assert(us[i] == ws[i]);
                        }
                    }
                    assert(us[0] == ws[0]);
                    ws = us;
                }
            }
        }
        s
    }

    /// Takes the position to search. Only the reporting thread searches more than
    /// one line.
    pub fn prepare(&mut self, board: &Board, multipv: usize)
        requires
            old(self).tables_ok(),
            board.wf(),
        ensures
            final(self).tables_ok(),
            final(self).board@ == board@,
            final(self).board.wf(),
            final(self).multipv == if old(self).id == 0 && multipv > 1 {
                multipv
            } else {
                1
            },
            // Nothing else is touched.
            *final(self) == (Searcher {
                board: final(self).board,
                multipv: final(self).multipv,
                ..*old(self)
            }),
    {
        self.board = board.clone();
        proof {
            lemma_clone(*board, self.board);
        }
        self.multipv = if self.id == 0 && multipv > 1 {
            multipv
        } else {
            1
        };
    }

    /// Forgets the last search and lists the root moves. Says whether there are
    /// any.
    fn begin(&mut self, sh: &Shared) -> (r: bool)
        requires
            old(self).tables_ok(),
            old(self).eval.shaped(),
            old(self).board.wf(),
            evaluable(old(self).board.q()),
            sh.ok(),
        ensures
            final(self).rooted(*sh.net),
            final(self).board == old(self).board,
            final(self).hist == old(self).hist,
            final(self).id == old(self).id,
            final(self).multipv == old(self).multipv,
            final(self).root_moves@ == moves_of(gen_of(&old(self).board, GEN_ALL)),
            r == (final(self).root_moves@.len() > 0),
            final(self).best_move == if r {
                final(self).root_moves@[0]
            } else {
                Move::none()
            },
            r ==> old(self).board.legal_here(final(self).best_move),
            final(self).best_score == 0,
            final(self).final_move == Move::none(),
            final(self).final_score == 0,
            final(self).completed_depth == 0,
            !final(self).stopped,
            final(self).pv_idx == 0,
            final(self).root_excluded@.len() == 0,
            final(self).lines@.len() == 0,
            final(self).nodes == 0,
            final(self).stability == 0,
            final(self).last_best == Move::none(),
            final(self).extra_nodes == 0,
            forall|i: int| 0 <= i < 262 ==> (#[trigger] final(self).ss@[i]).is_blank(),
    {
        let blank = Stack::default();
        self.nodes = 0;
        self.shared_nodes = 0;
        self.sel_depth = 0;
        self.stopped = false;
        self.completed_depth = 0;
        self.root_depth = 0;
        self.best_score = 0;
        self.final_move = Move::none();
        self.final_score = 0;
        self.pv_idx = 0;
        self.stability = 0;
        self.last_best = Move::none();
        self.extra_nodes = 0;
        self.root_excluded = Vec::new();
        self.lines = Vec::new();
        self.eval.reset(sh.net, &self.board);
        self.ss = vec![blank; 262];
        let mut list = MoveList::new();
        generate::<GEN_ALL>(&self.board, sh.tables, &mut list);
        assert(list@ =~= moves_of(gen_of(&self.board, GEN_ALL)));
        proof {
            lemma_board_gen(&self.board, GEN_ALL);
            generated_exactly_legal(gen_of(&self.board, GEN_ALL));
        }
        self.root_moves = list.moves;
        self.root_nodes = vec![0u64; self.root_moves.len()];
        self.best_move = Move::none();
        if self.root_moves.len() == 0 {
            return false;
        }
        let m = self.root_moves[0];
        assert(moves_of(gen_of(&self.board, GEN_ALL)).contains(m));
        self.best_move = m;
        true
    }

    /// How many lines an iteration searches: no more than there are root moves, at
    /// least one.
    pub open spec fn line_count(&self) -> int {
        clamp_to(
            self.multipv as int,
            1,
            if self.root_moves@.len() < 1 {
                1
            } else {
                self.root_moves@.len() as int
            },
        )
    }

    /// The state between two iterations.
    pub open spec fn settled(&self, n: Network) -> bool {
        &&& self.rooted(n)
        &&& ranked(self.board@, self.lines@)
        &&& 0 <= self.completed_depth <= DEEPEST
        &&& -SCORE_LIMIT <= self.final_score <= SCORE_LIMIT
        &&& self.best_move == Move::none() || self.board.legal_here(self.best_move)
        &&& self.best_move.compact()
        &&& self.stability <= 7
        &&& self.root_moves@ == listed_at(pos_of(self.board@))
        &&& has_room(&self.board) ==> all_lead_on(self.lines@)
        &&& has_room(&self.board) && self.completed_depth > 0 ==> self.nodes > 0
        &&& self.completed_depth > 0 ==> {
            &&& self.lines@.len() == self.line_count()
            &&& self.final_score == self.lines@[0].score
            &&& self.final_move == self.lines@[0].mv
        }
        &&& self.completed_depth == 0 ==> self.lines@.len() == 0 && self.final_move
            == Move::none() && self.final_score == 0
    }

    /// What an iteration leaves alone.
    pub open spec fn same_session(&self, o: &Searcher) -> bool {
        &&& same_game(self.board@, o.board@)
        &&& self.id == o.id
        &&& self.multipv == o.multipv
        &&& self.root_moves == o.root_moves
    }

    /// The line found at the root, as it stands.
    fn current_line(&self, score: i32) -> (r: RootLine)
        requires
            self.tables_ok(),
        ensures
            r.mv == self.best_move,
            r.score == score,
            r.pv@ == self.row(0),
            r.sel_depth == self.sel_depth,
    {
        RootLine { mv: self.best_move, score, pv: self.row_found(), sel_depth: self.sel_depth }
    }

    /// The variation of the last search from the root.
    fn row_found(&self) -> (r: Vec<Move>)
        requires
            self.tables_ok(),
        ensures
            r@ == self.row(0),
    {
        let mut out: Vec<Move> = Vec::new();
        let n = self.pv_len[0];
        assert(self.pv_len@[0] + 0 <= 247);
        let mut i: usize = 0;
        while i < n
            invariant
                i <= n,
                n == self.pv_len@[0],
                n <= 247,
                self.pv@.len() == 61504,
                out@ == self.pv@.subrange(0, i as int),
            decreases n - i,
        {
            out.push(self.pv[i]);
            i += 1;
            assert(out@ =~= self.pv@.subrange(0, i as int));
        }
        assert(self.row(0) =~= self.pv@.subrange(0, n as int));
        out
    }

    /// The principal variation of the last completed iteration.
    pub fn pv(&self) -> (r: Vec<Move>)
        ensures
            r@ == if self.lines@.len() > 0 {
                self.lines@[0].pv@
            } else {
                Seq::empty()
            },
    {
        let mut out: Vec<Move> = Vec::new();
        if self.lines.len() > 0 {
            let n = self.lines[0].pv.len();
            let mut i: usize = 0;
            while i < n
                invariant
                    self.lines@.len() > 0,
                    n == self.lines@[0].pv@.len(),
                    i <= n,
                    out@ == self.lines@[0].pv@.take(i as int),
                decreases n - i,
            {
                out.push(self.lines[0].pv[i]);
                i += 1;
                assert(out@ =~= self.lines@[0].pv@.take(i as int));
            }
            assert(out@ =~= self.lines@[0].pv@);
        }
        out
    }

    /// The lines of the last *completed* iteration, best first.
    pub fn lines(&self) -> (r: &[RootLine])
        ensures
            r@ == self.lines@,
    {
        self.lines.as_slice()
    }

    /// One iteration: every line to `depth`. Says whether it was completed; one
    /// that is stopped publishes nothing but the best move so far.
    #[verifier::rlimit(40)]
    pub fn deepen(&mut self, sh: &Shared, depth: i32) -> (r: bool)
        requires
            old(self).settled(*sh.net),
            sh.ok(),
            1 <= depth <= DEEPEST,
            old(self).completed_depth == depth - 1,
            old(self).root_moves@.len() > 0,
            !old(self).stopped,
            old(self).line_count() == 1 ==> old(self).best_move == hint_for(
                old(self).lines@,
                old(self).root_moves@[0],
                1,
                0,
            ),
        ensures
            final(self).settled(*sh.net),
            final(self).same_session(old(self)),
            r == !final(self).stopped,
            final(self).stops_duly(old(self), sh),
            final(self).looks_first(old(self), sh),
            // The lines are found one after the other, and ranked.
            r ==> exists|found: Seq<RootLine>| #[trigger]
                is_iteration(
                    sh,
                    game_of(&old(self).board),
                    depth,
                    old(self).lines@,
                    old(self).root_moves@[0],
                    old(self).line_count(),
                    found,
                ) && final(self).lines@ == ranking(found),
            r ==> final(self).best_move == final(self).final_move,
            final(self).completed_depth == if r {
                depth
            } else {
                old(self).completed_depth
            },
            !r ==> final(self).lines == old(self).lines && final(self).final_move == old(
                self).final_move && final(self).final_score == old(self).final_score,
            old(self).line_count() == 1 && old(self).best_move != Move::none() ==> final(
                self).best_move != Move::none(),
            r ==> final(self).stability == if final(self).best_move == old(self).last_best {
                if old(self).stability < 7 {
                    old(self).stability + 1
                } else {
                    7
                }
            } else {
                0
            } && final(self).last_best == final(self).best_move,
    {
        let ghost o = *self;
        let mpv: usize = if self.multipv < 1 {
            1
        } else if self.multipv > self.root_moves.len() {
            self.root_moves.len()
        } else {
            self.multipv
        };
        assert(mpv == self.line_count());
        self.root_depth = depth;
        self.root_excluded = Vec::new();
        let mut cur: Vec<RootLine> = Vec::new();
        let ghost mut found: Seq<RootLine> = Seq::empty();
        let ghost first = o.root_moves@[0];
        proof {
            lemma_found_none(
                sh,
                game_of(&o.board),
                depth,
                o.lines@,
                first,
                mpv as int,
            );
        }
        let mut k: usize = 0;
        while k < mpv && !self.stopped
            invariant
                k <= mpv,
                mpv == o.line_count(),
                1 <= depth <= DEEPEST,
                sh.ok(),
                o == *old(self),
                o.settled(*sh.net),
                self.rooted(*sh.net),
                self.same_session(&o),
                self.lines == o.lines,
                self.final_move == o.final_move,
                self.final_score == o.final_score,
                self.completed_depth == o.completed_depth,
                self.stability == o.stability,
                self.last_best == o.last_best,
                ranked(self.board@, cur@),
                self.root_depth == depth,
                first == o.root_moves@[0],
                mpv == 1 ==> o.best_move == hint_for(o.lines@, first, 1, 0),
                mpv == 1 && k == 0 ==> self.best_move == o.best_move,
                are_found(sh, game_of(&o.board), depth, o.lines@, first, mpv as int, found),
                cur@ == ranking(found),
                found.len() == cur@.len(),
                self.root_excluded@ == claims_of(found),
                has_room(&o.board) ==> all_lead_on(cur@),
                has_room(&o.board) && !self.stopped && k > 0 ==> self.nodes > 0,
                self.nodes >= o.nodes,
                !o.stopped,
                self.stops_duly(&o, sh),
                k > 0 ==> self.looks_first(&o, sh),
                k == 0 ==> self.nodes == o.nodes,
                self.root_excluded@.len() == cur@.len(),
                o.root_moves@.len() > 0,
                cur@.len() == if self.stopped {
                    k - 1
                } else {
                    k as int
                },
                self.best_move == Move::none() || self.board.legal_here(self.best_move),
                mpv == 1 && o.best_move != Move::none() ==> self.best_move != Move::none(),
                !self.stopped && k > 0 ==> self.best_move == cur@[0].mv,
                self.stopped ==> k > 0,
            decreases mpv - k,
        {
            let ghost before = *self;
            self.pv_idx = k;
            self.sel_depth = 0;
            let mut prev_score: i32 = 0;
            let mut prev_move = Move::none();
            if k < self.lines.len() {
                assert(playable(o.board@, self.lines@[k as int]));
                prev_score = self.lines[k].score;
                prev_move = self.lines[k].mv;
            }
            if mpv > 1 {
                // The root takes its hash move from the best move, so this is how
                // each line gets its own answer from the previous iteration tried
                // first. At one line the best move already is that answer, and has
                // to keep evolving across the searches of the iteration.
                self.best_move = prev_move;
            }
            let start_nodes = self.nodes;
            let ghost ready = *self;
            proof {
                lemma_unclaimed(&*self);
                assert(gen_of(&self.board, GEN_CAPTURES) == gen_of(&o.board, GEN_CAPTURES));
            }
            let score = self.search_line(sh, depth, prev_score);
            proof {
                lemma_told_twice(&*self, &ready, &o, sh);
            }
            if k > 0 {
                self.extra_nodes = add_capped(self.extra_nodes, self.nodes - start_nodes);
            }
            if !self.stopped {
                let line = self.current_line(score);
                let ghost l = line;
                proof {
                    assert(pos_of(self.board@) == pos_of(ready.board@));
                    assert(playable(self.board@, line));
                    assert forall|i: int| 0 <= i < cur@.len() implies differ(#[trigger] cur@[i], l) by {
                        lemma_claimed(found, i);
                    }
                    lemma_ranked_same(before.board@, self.board@, cur@);
                }
                let ghost earlier = cur@;
                self.root_excluded.push(self.best_move);
                place(&mut cur, line, Ghost(self.board@));
                proof {
                    assert(game_of(&ready.board) == game_of(&o.board));
                    assert(found.len() == k);
                    assert(prev_score == prev_score_of(o.lines@, k as int));
                    assert(ready.best_move == hint_for(o.lines@, first, mpv as int, k as int));
                    lemma_found_more(
                        sh,
                        game_of(&o.board),
                        depth,
                        o.lines@,
                        first,
                        mpv as int,
                        found,
                        l,
                    );
                    found = found.push(l);
                }
                // A later line can outscore an earlier one: the windows are seeded
                // per line and the table moves underneath them.
                if mpv > 1 {
                    self.best_move = cur[0].mv;
                    self.best_score = cur[0].score;
                }
                assert(playable(self.board@, cur@[0]));
            } else {
                proof {
                    lemma_ranked_same(before.board@, self.board@, cur@);
                }
            }
            k += 1;
        }
        self.pv_idx = 0;
        proof {
            lemma_ranked_same(o.board@, self.board@, o.lines@);
            assert(gen_of(&self.board, GEN_CAPTURES) == gen_of(&o.board, GEN_CAPTURES));
        }
        if self.stopped {
            // The answer is line one's, never whichever line the stop happened to
            // land in. With nothing finished this leaves the partial result of
            // line one alone.
            if cur.len() > 0 {
                assert(playable(self.board@, cur@[0]));
                self.best_move = cur[0].mv;
                self.best_score = cur[0].score;
            }
            return false;
        }
        assert(is_iteration(
            sh,
            game_of(&o.board),
            depth,
            o.lines@,
            first,
            o.line_count(),
            found,
        ));
        self.lines = cur;
        self.completed_depth = depth;
        self.final_move = self.best_move;
        self.final_score = self.lines[0].score;
        assert(playable(self.board@, self.lines@[0]));
        self.stability = if self.best_move == self.last_best {
            if self.stability < 7 {
                self.stability + 1
            } else {
                7
            }
        } else {
            0
        };
        self.last_best = self.best_move;
        true
    }

    /// Searches ever deeper until a limit is reached, the answer is known, or the
    /// time is up.
    ///
    /// After each iteration `report` is told how deep the search has come. Where
    /// there is a clock, `time_is_up` is asked whether to leave it at that.
    pub fn iterate<R: Fn(&Searcher, i32), T: Fn(&Searcher, i32) -> bool>(
        &mut self,
        sh: &Shared,
        report: R,
        time_is_up: T,
    )
        requires
            old(self).tables_ok(),
            old(self).eval.shaped(),
            old(self).board.wf(),
            evaluable(old(self).board.q()),
            sh.ok(),
            sh.limits.depth matches Some(d) ==> d <= DEEPEST,
            forall|s: &Searcher, d: i32| #[trigger] call_requires(report, (s, d)),
            forall|s: &Searcher, d: i32| #[trigger] call_requires(time_is_up, (s, d)),
        ensures
            final(self).settled(*sh.net),
            final(self).eval.shaped(),
            same_game(final(self).board@, old(self).board@),
            final(self).id == old(self).id,
            final(self).multipv == old(self).multipv,
            final(self).root_moves@ == moves_of(gen_of(&old(self).board, GEN_ALL)),
            // Without a legal move there is nothing to find.
            final(self).root_moves@.len() == 0 ==> final(self).best_move == Move::none() && final(
                self).completed_depth == 0,
            // With one line to find there is always a best move.
            final(self).root_moves@.len() > 0 && final(self).line_count() == 1 ==> old(
                self).board.legal_here(final(self).best_move),
            final(self).completed_depth <= depth_limit(sh.limits),
            // What is claimed for a depth was searched to that depth.
            final(self).root_moves@.len() > 0 ==> all_searched_to(
                sh,
                game_of(&old(self).board),
                final(self).root_moves@[0],
                final(self).line_count(),
                final(self).completed_depth,
                final(self).lines@,
            ),
            final(self).completed_depth > 0 && !final(self).stopped ==> final(self).best_move == final(
                self).final_move,
            // An unlimited search ends at the greatest depth or when it is stopped.
            final(self).root_moves@.len() > 0 && sh.limits.infinite && !final(self).stopped ==> final(
                self).completed_depth == depth_limit(sh.limits),
            // Otherwise it ends early only once the answer is known, or, where a clock
            // governs it, when the time is said to be up.
            final(self).root_moves@.len() > 0 && !final(self).stopped && final(self).completed_depth
                < depth_limit(sh.limits) ==> may_be_set_after(sh.pondering, false) && (knows(
                *final(self),
            ) || (has_clock(sh.limits) && call_ensures(
                time_is_up,
                (&*final(self), final(self).completed_depth),
                true,
            ))),
            // And it went on only from iterations after which none of this held.
            forall|d: i32| 1 <= d < final(self).completed_depth ==> #[trigger] goes_on(
                sh,
                game_of(&old(self).board),
                final(self).root_moves@,
                report,
                time_is_up,
                d,
            ),
            // What is complete was reported.
            final(self).completed_depth > 0 ==> exists|s: Searcher| #[trigger]
                is_reported(report, s, final(self).completed_depth) && s.lines == final(self).lines,
            // It stops where it is told to. Neither the clock nor a count of nodes tells
            // it to before one iteration is complete.
            final(self).stopped ==> Searcher::may_be_told(
                sh,
                final(self).id,
                final(self).completed_depth > 0,
            ),
            final(self).stopped && (final(self).id != 0 || final(self).completed_depth == 0)
                ==> sh.may_be_asked(true),
            // Nothing is complete where it was told to stop at the start.
            final(self).completed_depth > 0 ==> Searcher::may_go_on(sh, final(self).id, false),
    {
        let ghost start = *self;
        let any = self.begin(sh);
        proof {
            self.eval.nnue.lemma_shaped(*sh.net);
        }
        if !any {
            return;
        }
        let max_depth: i32 = match sh.limits.depth {
            Some(d) => greater(d, 0),
            None => MAX_PLY as i32 - 1,
        };
        let mut depth: i32 = 1;
        proof {
            reveal(all_searched_to);
        }
        while depth <= max_depth
            invariant
                1 <= depth <= max_depth + 1,
                max_depth == depth_limit(sh.limits),
                0 <= max_depth <= DEEPEST,
                sh.ok(),
                start == *old(self),
                all_searched_to(
                    sh,
                    game_of(&start.board),
                    self.root_moves@[0],
                    self.line_count(),
                    self.completed_depth,
                    self.lines@,
                ),
                depth == 1 ==> self.best_move == self.root_moves@[0],
                depth > 1 ==> self.best_move == self.final_move,
                depth == 1 ==> self.nodes == 0,
                depth > 1 ==> Searcher::may_go_on(sh, self.id, false),
                self.settled(*sh.net),
                self.completed_depth == depth - 1,
                self.eval.shaped(),
                !self.stopped,
                same_game(self.board@, start.board@),
                self.id == start.id,
                self.multipv == start.multipv,
                self.root_moves@ == moves_of(gen_of(&start.board, GEN_ALL)),
                self.root_moves@.len() > 0,
                self.line_count() == 1 ==> self.best_move != Move::none(),
                forall|s: &Searcher, d: i32| #[trigger] call_requires(report, (s, d)),
                forall|s: &Searcher, d: i32| #[trigger] call_requires(time_is_up, (s, d)),
                forall|d: i32| 1 <= d < depth ==> #[trigger] goes_on(
                    sh,
                    game_of(&start.board),
                    self.root_moves@,
                    report,
                    time_is_up,
                    d,
                ),
                depth > 1 ==> exists|s: Searcher| #[trigger]
                    is_reported(report, s, self.completed_depth) && s.lines == self.lines,
            decreases max_depth - depth + 1,
        {
            let ghost before = *self;
            let completed = self.deepen(sh, depth);
            assert(game_of(&before.board) == game_of(&start.board));
            proof {
                if completed {
                    let found = choose|found: Seq<RootLine>| #[trigger]
                        is_iteration(
                            sh,
                            game_of(&before.board),
                            depth,
                            before.lines@,
                            before.root_moves@[0],
                            before.line_count(),
                            found,
                        ) && self.lines@ == ranking(found);
                    lemma_iterated(
                        sh,
                        game_of(&start.board),
                        before.root_moves@[0],
                        before.line_count(),
                        depth,
                        before.lines@,
                        found,
                    );
                }
            }
            proof {
                self.eval.nnue.lemma_shaped(*sh.net);
            }
            if !completed {
                proof {
                    reveal(does_as_told);
                }
                return;
            }
            let ghost ended = *self;
            report(&*self, depth);
            assert(is_reported(report, ended, ended.completed_depth));
            if !sh.limits.infinite && !sh.is_pondering() {
                if answer_is_known(self.root_moves.len(), depth, self.final_score) {
                    return;
                }
                if sh.limits.has_time || sh.limits.movetime.is_some() {
                    if time_is_up(&*self, depth) {
                        return;
                    }
                }
                self.root_nodes = vec![0u64; self.root_moves.len()];
            }
            assert(is_left(
                sh,
                game_of(&start.board),
                self.root_moves@,
                report,
                time_is_up,
                depth,
                ended,
            ));
            assert(is_reported(report, ended, self.completed_depth) && ended.lines == self.lines);
            depth += 1;
        }
    }
}

/// Where the table holds scores between being mated and mating only, so do the lines.
proof fn lemma_lines_range(sh: &Shared, g: Game, first: Move, count: int, depth: i32, ls: Seq<RootLine>, i: int)
    requires
        is_sane(sh),
        all_searched_to(sh, g, first, count, depth, ls),
        0 <= i < ls.len(),
    ensures
        is_score(ls[i].score as int),
    decreases depth,
{
    let (prev, found) = lemma_iteration(sh, g, first, count, depth, ls);
    let k = lemma_ranking_of(found, i);
    if k < prev.len() {
        lemma_lines_range(sh, g, first, count, (depth - 1) as i32, prev, k);
    }
    let claimed = claims_of(found.take(k));
    let l = found[k];
    let p = prev_score_of(prev, k);
    let h = hint_for(prev, first, count, k);
    assert(is_line_found(sh, g, claimed, depth, p, h, l)) by {
        reveal(are_found);
    }
    reveal(is_found);
    let ws = choose|ws: Seq<Attempt>| #[trigger]
        is_found_by(sh, g, claimed, depth, p, h, ws, l.score, l.mv, l.pv@);
    lemma_windows(sh, g, claimed, depth, p, h, ws, ws.len() - 1);
    let a = ws[ws.len() - 1];
    assert(is_made(sh, g, claimed, depth, a));
    scores_stay_in_range(sh, g, root_task(depth, claimed, a), a.score);
}

proof fn lemma_iteration(sh: &Shared, g: Game, first: Move, count: int, depth: i32, ls: Seq<RootLine>) -> (x: (
    Seq<RootLine>,
    Seq<RootLine>,
))
    requires
        all_searched_to(sh, g, first, count, depth, ls),
        ls.len() > 0,
    ensures
        depth > 0,
        is_iteration(sh, g, depth, x.0, first, count, x.1),
        ls == ranking(x.1),
        all_searched_to(sh, g, first, count, (depth - 1) as i32, x.0),
{
    reveal(all_searched_to);
    choose|prev: Seq<RootLine>, found: Seq<RootLine>| #[trigger]
        is_iteration(sh, g, depth, prev, first, count, found) && ls == ranking(found)
            && all_searched_to(sh, g, first, count, (depth - 1) as i32, prev)
}

/// Law: where the table holds scores between being mated and mating only, every line
/// of a position with room has a move in front and a score between those, and no two lines
/// have the same move.
pub proof fn the_lines_differ(
    sh: &Shared,
    g: Game,
    b: BoardView,
    first: Move,
    count: int,
    depth: i32,
    ls: Seq<RootLine>,
)
    requires
        is_sane(sh),
        all_searched_to(sh, g, first, count, depth, ls),
        ranked(b, ls),
        all_lead_on(ls),
    ensures
        forall|i: int|
            0 <= i < ls.len() ==> is_score((#[trigger] ls[i]).score as int) && ls[i].pv@.len() > 0,
        forall|i: int, j: int|
            0 <= i < j < ls.len() ==> (#[trigger] ls[i]).mv != (#[trigger] ls[j]).mv,
{
    assert forall|i: int| 0 <= i < ls.len() implies is_score((#[trigger] ls[i]).score as int)
        && ls[i].pv@.len() > 0 by {
        lemma_lines_range(sh, g, first, count, depth, ls, i);
        assert(leads_on(ls[i]));
    }
    assert forall|i: int, j: int| 0 <= i < j < ls.len() implies (#[trigger] ls[i]).mv
        != (#[trigger] ls[j]).mv by {
        assert(differ(ls[i], ls[j]));
    }
}

/// The windows of these searches are windows.
proof fn lemma_windows(
    sh: &Shared,
    g: Game,
    claimed: Seq<Move>,
    depth: i32,
    prev_score: i32,
    hint: Move,
    ws: Seq<Attempt>,
    i: int,
)
    requires
        are_made(sh, g, claimed, depth, prev_score, hint, ws),
        -SCORE_LIMIT <= prev_score <= SCORE_LIMIT,
        is_sane(sh),
        0 <= i < ws.len(),
    ensures
        is_window(ws[i].alpha, ws[i].beta),
        10 <= ws[i].delta <= 2_000_000,
    decreases i,
{
    if i == 0 {
        let p = prev_score;
        assert(0 <= p * p <= 1_296_000_000) by (nonlinear_arith)
            requires
                -36000 <= p <= 36000,
        ;
        assert(p * p >= 12000 * (p - 3000)) by (nonlinear_arith);
        assert(p * p >= 12000 * (-p - 3000)) by (nonlinear_arith);
        assert(opens_with(depth, prev_score, hint, ws[0]));
    } else {
        lemma_windows(sh, g, claimed, depth, prev_score, hint, ws, i - 1);
        let a = ws[i - 1];
        let b = ws[i];
        assert(is_made(sh, g, claimed, depth, a));
        scores_stay_in_range(sh, g, root_task(depth, claimed, a), a.score);
        assert(follows_on(depth, a, b));
    }
}

} // verus!
