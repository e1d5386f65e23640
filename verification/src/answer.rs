//! The answer of a search: the vote of its threads, the reply to ponder on, and
//! how both are told.

use vstd::prelude::*;
use vstd::string::*;
use crate::attacks::Tables;
use crate::board::{Board, Undo};
use crate::iterate::{playable, ranked};
use crate::movegen::{GEN_ALL, MoveList, gen_of, generate, moves_of};
use crate::movegen_laws::{generated_exactly_legal, lemma_board_gen};
use crate::notation::{move_name, move_to_string};



use crate::score::{SCORE_LIMIT, score_text, score_to_uci};
use crate::searcher::{RootLine, Searcher, listed_at, pos_after, pos_of};
use crate::start::lemma_clone;
use crate::text::{decimal, push_decimal};
use crate::types::{DEEPEST, Move};

verus! {

// -- the vote ---------------------------------------------------------------------

/// A searcher that has something to say.
pub open spec fn is_voter(s: Searcher) -> bool {
    s.completed_depth > 0 && s.final_move != Move::none()
}

/// The lowest score among the first `k` searchers with a completed iteration.
pub open spec fn lowest_score(ss: Seq<Searcher>, k: int) -> Option<int>
    decreases k,
{
    if k <= 0 {
        None
    } else {
        let rest = lowest_score(ss, k - 1);
        let s = ss[k - 1];
        if s.completed_depth > 0 && (rest matches Some(r) ==> s.final_score < r) {
            Some(s.final_score as int)
        } else {
            rest
        }
    }
}

/// The score that votes are counted from.
pub open spec fn vote_base(ss: Seq<Searcher>) -> int {
    match lowest_score(ss, ss.len() as int) {
        Some(x) => x,
        None => 0,
    }
}

/// A vote counts for more the deeper the iteration that it comes from and the
/// better its score.
pub open spec fn vote_weight(s: Searcher, base: int) -> int {
    (s.final_score - base + 14) * s.completed_depth
}

/// The votes of the first `k` searchers for `m`.
pub open spec fn votes_for(ss: Seq<Searcher>, m: Move, base: int, k: int) -> int
    decreases k,
{
    if k <= 0 {
        0
    } else {
        votes_for(ss, m, base, k - 1) + if is_voter(ss[k - 1]) && ss[k - 1].final_move == m {
            vote_weight(ss[k - 1], base)
        } else {
            0
        }
    }
}

pub open spec fn tally(ss: Seq<Searcher>, m: Move) -> int {
    votes_for(ss, m, vote_base(ss), ss.len() as int)
}

/// The first to vote for its move.
pub open spec fn votes_first(ss: Seq<Searcher>, i: int) -> bool {
    &&& 0 <= i < ss.len()
    &&& is_voter(ss[i])
    &&& forall|j: int|
        0 <= j < i ==> !(#[trigger] is_voter(ss[j]) && ss[j].final_move == ss[i].final_move)
}

/// The move first voted for by `w` has the most votes, and of those with as many it
/// was named last.
pub open spec fn wins(ss: Seq<Searcher>, w: int) -> bool {
    &&& votes_first(ss, w)
    &&& forall|j: int| #[trigger]
        votes_first(ss, j) ==> {
            let t = tally(ss, ss[j].final_move);
            let best = tally(ss, ss[w].final_move);
            t < best || (t == best && j <= w)
        }
}

/// Scores and depths as searches leave them.
pub open spec fn countable(ss: Seq<Searcher>) -> bool {
    &&& ss.len() <= 1_000_000
    &&& forall|i: int|
        0 <= i < ss.len() ==> -SCORE_LIMIT <= (#[trigger] ss[i]).final_score <= SCORE_LIMIT && 0
            <= ss[i].completed_depth <= DEEPEST
}

proof fn lemma_lowest(ss: Seq<Searcher>, k: int)
    requires
        countable(ss),
        0 <= k <= ss.len(),
    ensures
        lowest_score(ss, k) matches Some(x) ==> -SCORE_LIMIT <= x <= SCORE_LIMIT,
        forall|i: int|
            0 <= i < k && (#[trigger] ss[i]).completed_depth > 0 ==> (lowest_score(
                ss,
                k,
            ) matches Some(x) && x <= ss[i].final_score),
    decreases k,
{
    if k > 0 {
        lemma_lowest(ss, k - 1);
        assert(countable(ss) ==> -SCORE_LIMIT <= ss[k - 1].final_score <= SCORE_LIMIT);
    }
}

fn find_base(searchers: &[Searcher]) -> (r: i32)
    requires
        countable(searchers@),
    ensures
        r == vote_base(searchers@),
        -SCORE_LIMIT <= r <= SCORE_LIMIT,
{
    let mut low: Option<i32> = None;
    let mut i: usize = 0;
    while i < searchers.len()
        invariant
            i <= searchers@.len(),
            countable(searchers@),
            match low {
                Some(x) => lowest_score(searchers@, i as int) == Some(x as int) && -SCORE_LIMIT
                    <= x <= SCORE_LIMIT,
                None => lowest_score(searchers@, i as int) is None,
            },
        decreases searchers@.len() - i,
    {
        let s = &searchers[i];
        assert(searchers@[i as int].final_score <= SCORE_LIMIT);
        if s.completed_depth > 0 {
            match low {
                Some(x) => {
                    if s.final_score < x {
                        low = Some(s.final_score);
                    }
                },
                None => {
                    low = Some(s.final_score);
                },
            }
        }
        i += 1;
    }
    match low {
        Some(x) => x,
        None => 0,
    }
}

fn count_votes(searchers: &[Searcher], m: Move, base: i32) -> (r: i64)
    requires
        countable(searchers@),
        base == vote_base(searchers@),
        -SCORE_LIMIT <= base <= SCORE_LIMIT,
    ensures
        r == tally(searchers@, m),
{
    let mut total: i64 = 0;
    let mut i: usize = 0;
    while i < searchers.len()
        invariant
            i <= searchers@.len(),
            countable(searchers@),
            -SCORE_LIMIT <= base <= SCORE_LIMIT,
            total == votes_for(searchers@, m, base as int, i as int),
            -600_000_000 * i <= total <= 600_000_000 * i,
        decreases searchers@.len() - i,
    {
        let s = &searchers[i];
        assert(-SCORE_LIMIT <= searchers@[i as int].final_score <= SCORE_LIMIT);
        if s.completed_depth > 0 && !s.final_move.is_none() && s.final_move == m {
            let x: i64 = s.final_score as i64 - base as i64 + 14;
            let d: i64 = s.completed_depth as i64;
            assert(-600_000_000 <= x * d <= 600_000_000) by (nonlinear_arith)
                requires
                    -72_000 <= x <= 72_014,
                    0 <= d <= 8_077,
            ;
            total = total + x * d;
        }
        i += 1;
    }
    total
}

fn is_first_vote(searchers: &[Searcher], i: usize) -> (r: bool)
    requires
        i < searchers@.len(),
    ensures
        r == votes_first(searchers@, i as int),
{
    let m = searchers[i].final_move;
    if searchers[i].completed_depth <= 0 || m.is_none() {
        return false;
    }
    let mut j: usize = 0;
    while j < i
        invariant
            j <= i < searchers@.len(),
            m == searchers@[i as int].final_move,
            is_voter(searchers@[i as int]),
            forall|k: int|
                0 <= k < j ==> !(#[trigger] is_voter(searchers@[k]) && searchers@[k].final_move
                    == m),
        decreases i - j,
    {
        let s = &searchers[j];
        if s.completed_depth > 0 && !s.final_move.is_none() && s.final_move == m {
            assert(is_voter(searchers@[j as int]));
            return false;
        }
        j += 1;
    }
    true
}

/// Lets the threads vote. Helpers often see something the main thread missed,
/// which is most of what searching the same position on many threads is worth.
pub fn vote(searchers: &[Searcher]) -> (r: Option<Move>)
    requires
        countable(searchers@),
    ensures
        match r {
            Some(m) => exists|w: int| #[trigger] wins(searchers@, w) && searchers@[w].final_move
                == m,
            None => forall|i: int| 0 <= i < searchers@.len() ==> !is_voter(#[trigger] searchers@[i]),
        },
{
    let ghost ss = searchers@;
    let base = find_base(searchers);
    let mut best: Option<(Move, i64)> = None;
    let ghost mut winner: int = 0;
    let mut i: usize = 0;
    while i < searchers.len()
        invariant
            i <= searchers@.len(),
            ss == searchers@,
            countable(ss),
            base == vote_base(ss),
            -SCORE_LIMIT <= base <= SCORE_LIMIT,
            match best {
                Some((m, w)) => votes_first(ss, winner) && ss[winner].final_move == m && w == tally(
                    ss,
                    m,
                ) && winner < i && forall|j: int| #[trigger]
                    votes_first(ss, j) && j < i ==> {
                        let t = tally(ss, ss[j].final_move);
                        t < w || (t == w && j <= winner)
                    },
                None => forall|j: int| 0 <= j < i ==> !is_voter(#[trigger] ss[j]),
            },
        decreases searchers@.len() - i,
    {
        proof {
            if best is None && is_voter(ss[i as int]) {
                assert(votes_first(ss, i as int));
            }
        }
        if is_first_vote(searchers, i) {
            let m = searchers[i].final_move;
            let w = count_votes(searchers, m, base);
            let better = match best {
                Some((_, top)) => w >= top,
                None => true,
            };
            if better {
                proof {
                    if best is None {
                        assert forall|j: int| #[trigger] votes_first(ss, j) && j < i + 1 implies j
                            == i by {
                            if j < i {
                                assert(!is_voter(ss[j]));
                            }
                        }
                    }
                    winner = i as int;
                }
                best = Some((m, w));
            }
        }
        i += 1;
    }
    match best {
        Some((m, _)) => {
            proof {
                assert(wins(ss, winner));
            }
            Some(m)
        },
        None => None,
    }
}

/// The move to play: the vote of the threads, or the main thread's own under
/// several lines, where it has to be the move on the first line shown; then the
/// main thread's last complete answer; then the first legal move, so that there is
/// an answer wherever there is a move.
pub fn best_answer(searchers: &[Searcher], multipv: usize, board: &Board, t: &Tables) -> (r: Move)
    requires
        searchers@.len() > 0,
        countable(searchers@),
        board.wf(),
    ensures
        ({
            let own = searchers@[0].best_move;
            let last = searchers@[0].final_move;
            let listed = moves_of(gen_of(board, GEN_ALL));
            let asks = searchers@.len() > 1 && multipv <= 1;
            let voted = exists|i: int|
                0 <= i < searchers@.len() && is_voter(#[trigger] searchers@[i]);
            if asks && voted {
                exists|w: int| #[trigger] wins(searchers@, w) && searchers@[w].final_move == r
            } else if own != Move::none() {
                r == own
            } else if last != Move::none() {
                r == last
            } else if listed.len() > 0 {
                r == listed[0]
            } else {
                r == Move::none()
            }
        }),
{
    let mut best = searchers[0].best_move;
    if searchers.len() > 1 && multipv <= 1 {
        if let Some(m) = vote(searchers) {
            proof {
                let w = choose|w: int| #[trigger] wins(searchers@, w) && searchers@[w].final_move
                    == m;
                assert(is_voter(searchers@[w]));
            }
            best = m;
        }
    }
    if best.is_none() {
        best = searchers[0].final_move;
    }
    if best.is_none() {
        let mut list = MoveList::new();
        generate::<GEN_ALL>(board, t, &mut list);
        assert(list@ =~= moves_of(gen_of(board, GEN_ALL)));
        if list.len() > 0 {
            best = list.get(0);
        }
    }
    best
}

/// Law: where the threads have only legal moves to offer, the answer is legal
/// wherever there is a legal move to generate.
pub proof fn the_answer_is_legal(ss: Seq<Searcher>, board: &Board, r: Move, w: int)
    requires
        board.wf(),
        ss.len() > 0,
        forall|i: int|
            0 <= i < ss.len() ==> {
                &&& (#[trigger] ss[i]).best_move == Move::none() || board.legal_here(ss[i].best_move)
                &&& ss[i].final_move == Move::none() || board.legal_here(ss[i].final_move)
            },
        (wins(ss, w) && r == ss[w].final_move) || (r == ss[0].best_move && r != Move::none()) || (r
            == ss[0].final_move && r != Move::none()) || (moves_of(gen_of(board, GEN_ALL)).len() > 0
            && r == moves_of(gen_of(board, GEN_ALL))[0]),
    ensures
        board.legal_here(r),
{
    lemma_board_gen(board, GEN_ALL);
    generated_exactly_legal(gen_of(board, GEN_ALL));
    let listed = moves_of(gen_of(board, GEN_ALL));
    if listed.len() > 0 && r == listed[0] {
        assert(listed.contains(r));
    }
    if wins(ss, w) {
        assert(is_voter(ss[w]));
    }
}

// -- the reply --------------------------------------------------------------------------

/// A searcher whose first line starts with `best`.
pub open spec fn expects(s: Searcher, best: Move) -> bool {
    &&& s.completed_depth > 0
    &&& s.lines@.len() > 0
    &&& s.lines@[0].mv == best
    &&& s.lines@[0].pv@.len() > 0
    &&& s.lines@[0].pv@[0] == best
}

/// The reply that the first searcher with `best` in front expects, if it is legal:
/// what to ponder on.
pub fn ponder_reply(searchers: &[Searcher], board: &Board, t: &Tables, best: Move) -> (r: Option<Move>)
    requires
        board.wf(),
        forall|i: int|
            0 <= i < searchers@.len() ==> ranked(board@, (#[trigger] searchers@[i]).lines@),
    ensures
        r is Some ==> exists|i: int|
            0 <= i < searchers@.len() && expects(#[trigger] searchers@[i], best),
        forall|i: int|
            0 <= i < searchers@.len() && expects(#[trigger] searchers@[i], best) && (forall|j: int|
                0 <= j < i ==> !expects(#[trigger] searchers@[j], best)) ==> {
                let pv = searchers@[i].lines@[0].pv@;
                r == if pv.len() >= 2 && listed_at(pos_after(pos_of(board@), best)).contains(pv[1]) {
                    Some(pv[1])
                } else {
                    None
                }
            },
{
    let mut i: usize = 0;
    while i < searchers.len()
        invariant
            i <= searchers@.len(),
            board.wf(),
            forall|k: int|
                0 <= k < searchers@.len() ==> ranked(board@, (#[trigger] searchers@[k]).lines@),
            forall|k: int| 0 <= k < i ==> !expects(#[trigger] searchers@[k], best),
        decreases searchers@.len() - i,
    {
        let s = &searchers[i];
        if s.completed_depth > 0 && s.lines.len() > 0 && s.lines[0].mv == best
            && s.lines[0].pv.len() > 0 && s.lines[0].pv[0] == best {
            assert(expects(searchers@[i as int], best));
            assert(playable(board@, searchers@[i as int].lines@[0]));
            if s.lines[0].pv.len() < 2 {
                return None;
            }
            let candidate = s.lines[0].pv[1];
            let mut after = board.clone();
            proof {
                lemma_clone(*board, after);
            }
            let mut undo = Undo::default();
            let ghost copy = after;
            assert(copy.legal_here(best));
            after.make_move(t, best, &mut undo);
            assert(pos_of(after@) == pos_after(pos_of(board@), best));
            let mut list = MoveList::new();
            generate::<GEN_ALL>(&after, t, &mut list);
            assert(list@ =~= moves_of(gen_of(&after, GEN_ALL)));
            if lists_move(&list, candidate) {
                return Some(candidate);
            }
            return None;
        }
        i += 1;
    }
    None
}

/// Is `m` in the list?
pub fn lists_move(list: &MoveList, m: Move) -> (r: bool)
    requires
        list.ok(),
    ensures
        r == list@.contains(m),
{
    let mut i: usize = 0;
    while i < list.len()
        invariant
            i <= list@.len(),
            forall|k: int| 0 <= k < i ==> #[trigger] list@[k] != m,
        decreases list@.len() - i,
    {
        if list.get(i) == m {
            assert(list@[i as int] == m);
            return true;
        }
        i += 1;
    }
    false
}

// -- the text ---------------------------------------------------------------------------

/// `bestmove M`, with `ponder R` where there is a reply.
pub open spec fn bestmove_line(best: Move, reply: Option<Move>) -> Seq<char> {
    "bestmove "@ + move_name(best) + match reply {
        Some(m) => " ponder "@ + move_name(m),
        None => Seq::empty(),
    }
}

pub fn bestmove_text(best: Move, reply: Option<Move>) -> (r: String)
    ensures
        r@ == bestmove_line(best, reply),
{
    let mut out = "bestmove ".to_string();
    out.append(move_to_string(best).as_str());
    if let Some(m) = reply {
        out.append(" ponder ");
        out.append(move_to_string(m).as_str());
    }
    assert(out@ =~= bestmove_line(best, reply));
    out
}

/// Moves with a blank between them.
pub open spec fn moves_line(ms: Seq<Move>) -> Seq<char>
    decreases ms.len(),
{
    if ms.len() == 0 {
        Seq::empty()
    } else if ms.len() == 1 {
        move_name(ms[0])
    } else {
        moves_line(ms.drop_last()) + " "@ + move_name(ms.last())
    }
}

fn push_moves(out: &mut String, ms: &Vec<Move>)
    ensures
        final(out)@ == old(out)@ + moves_line(ms@),
{
    let ghost before = out@;
    let mut i: usize = 0;
    while i < ms.len()
        invariant
            i <= ms@.len(),
            out@ == before + moves_line(ms@.take(i as int)),
        decreases ms@.len() - i,
    {
        if i > 0 {
            out.append(" ");
        }
        out.append(move_to_string(ms[i]).as_str());
        proof {
            let done = ms@.take(i as int);
            let more = ms@.take(i + 1);
            assert(more.drop_last() =~= done);
            assert(more.last() == ms@[i as int]);
            assert(out@ =~= before + moves_line(more));
        }
        i += 1;
    }
    assert(ms@.take(ms@.len() as int) =~= ms@);
}

/// What is told of a search while it runs.
pub struct Progress {
    pub depth: i32,
    pub nodes: u64,
    pub hashfull: usize,
    pub elapsed: u64,
}

/// One `info` line: line number `index` of an iteration, numbered where there are
/// several.
pub open spec fn info_line(p: Progress, l: RootLine, index: int, several: bool) -> Seq<char> {
    "info depth "@ + decimal(p.depth as nat) + " seldepth "@ + decimal(
        if l.sel_depth < p.depth {
            p.depth as nat
        } else {
            l.sel_depth as nat
        },
    ) + (if several {
        " multipv "@ + decimal((index + 1) as nat)
    } else {
        Seq::empty()
    }) + " score "@ + score_text(l.score as int) + " nodes "@ + decimal(p.nodes as nat) + " nps "@
        + decimal(
        (p.nodes * 1000 / (if p.elapsed < 1 {
            1
        } else {
            p.elapsed as int
        })) as nat,
    ) + " hashfull "@ + decimal(p.hashfull as nat) + " time "@ + decimal(p.elapsed as nat) + " pv "@
        + (if l.pv@.len() == 0 {
        move_name(l.mv)
    } else {
        moves_line(l.pv@)
    })
}

pub fn info_text(p: &Progress, l: &RootLine, index: usize, several: bool) -> (r: String)
    requires
        p.depth >= 0,
        p.nodes <= 18_000_000_000_000_000,
        l.score > i32::MIN,
        index < u32::MAX,
    ensures
        r@ == info_line(*p, *l, index as int, several),
{
    let mut out = "info depth ".to_string();
    push_decimal(&mut out, p.depth as u64);
    out.append(" seldepth ");
    let seen: u64 = if l.sel_depth < p.depth as usize {
        p.depth as u64
    } else {
        l.sel_depth as u64
    };
    push_decimal(&mut out, seen);
    if several {
        out.append(" multipv ");
        push_decimal(&mut out, index as u64 + 1);
    }
    out.append(" score ");
    out.append(score_to_uci(l.score).as_str());
    out.append(" nodes ");
    push_decimal(&mut out, p.nodes);
    out.append(" nps ");
    let ms: u64 = if p.elapsed < 1 {
        1
    } else {
        p.elapsed
    };
    push_decimal(&mut out, p.nodes * 1000 / ms);
    out.append(" hashfull ");
    push_decimal(&mut out, p.hashfull as u64);
    out.append(" time ");
    push_decimal(&mut out, p.elapsed);
    out.append(" pv ");
    if l.pv.len() == 0 {
        out.append(move_to_string(l.mv).as_str());
    } else {
        push_moves(&mut out, &l.pv);
    }
    assert(out@ =~= info_line(*p, *l, index as int, several));
    out
}

} // verus!
