//! What the split of the clock promises, in milliseconds of the clock itself.

use vstd::prelude::*;




use crate::timing::{
    Limits, answer_is_known, clock_reading, max_of, min_of, out_of_budget, soft_share,
    time_limits,
};
use crate::types::Color;

verus! {

/// The time on the clock of `stm`.
pub open spec fn own_time(limits: Limits, stm: Color) -> int {
    if stm == Color::White {
        limits.time[0] as int
    } else {
        limits.time[1] as int
    }
}

/// What `stm` is given for each move.
pub open spec fn own_inc(limits: Limits, stm: Color) -> int {
    if stm == Color::White {
        limits.inc[0] as int
    } else {
        limits.inc[1] as int
    }
}

/// `stm` plays on a clock, and nothing fixes the time of this move.
pub open spec fn on_the_clock(limits: Limits) -> bool {
    limits.movetime is None && limits.has_time
}

proof fn lemma_quotient(a: int, b: int, q: int)
    requires
        a >= 0,
        b > 0,
        q == a / b,
    ensures
        0 <= q <= a,
        q * b <= a < (q + 1) * b,
{
    assert(0 <= q <= a && q * b <= a < (q + 1) * b) by (nonlinear_arith)
        requires
            a >= 0,
            b > 0,
            q == a / b,
    ;
}

/// A quotient does not grow with its divisor, and does not shrink with its dividend.
proof fn lemma_quotients(a: int, a2: int, b: int)
    requires
        0 <= a <= a2,
        b > 0,
    ensures
        a / b <= a2 / b,
{
    assert(a / b <= a2 / b) by (nonlinear_arith)
        requires
            0 <= a <= a2,
            b > 0,
    ;
}

/// Law: without increment, spending the soft budget on each of the next `mtg` moves
/// up to the time control stays within the clock, and leaves less than a
/// millisecond for each move unspent.
pub proof fn the_clock_lasts_to_the_control(limits: Limits, stm: Color, overhead: i64, mtg: i64, r: (u64, u64))
    requires
        call_ensures(time_limits, (&limits, stm, overhead), r),
        on_the_clock(limits),
        own_inc(limits, stm) == 0,
        limits.movestogo == Some(mtg),
        1 <= mtg <= 40,
    ensures
        r.0 == 1 || r.0 * mtg <= own_time(limits, stm) - overhead,
        mtg >= 2 ==> own_time(limits, stm) - overhead < (r.0 + 1) * mtg,
{
    let u = max_of(own_time(limits, stm) - overhead, 1);
    let m = mtg as int;
    lemma_quotient(u, m, u / m);
    assert(soft_share(limits, stm, overhead as int) == u / m);
    if m >= 2 {
        assert(u / m <= u / 2) by (nonlinear_arith)
            requires
                u >= 1,
                m >= 2,
        ;
        assert(u / 2 <= max_of(u * 4 / 5, 1));
    }
    let s = r.0 as int;
    if u / m >= 1 {
        assert(s <= u / m);
        assert(s * m <= (u / m) * m) by (nonlinear_arith)
            requires
                s <= u / m,
                m >= 1,
        ;
    } else {
        assert(u < 2 * m) by (nonlinear_arith)
            requires
                u < (u / m + 1) * m,
                u / m <= 0,
                m >= 1,
        ;
    }
    assert((s + 1) * m >= (u / m + 1) * m || m < 2) by (nonlinear_arith)
        requires
            s >= u / m || m < 2,
            m >= 1,
    ;
}

/// Law: a control more than forty moves away is played for as if it were forty away.
pub proof fn a_far_control_counts_forty(limits: Limits, near: Limits, stm: Color, overhead: i64, r: (u64, u64), rn: (u64, u64))
    requires
        call_ensures(time_limits, (&limits, stm, overhead), r),
        call_ensures(time_limits, (&near, stm, overhead), rn),
        on_the_clock(limits) && on_the_clock(near),
        own_time(limits, stm) == own_time(near, stm),
        own_inc(limits, stm) == own_inc(near, stm),
        near.movestogo == Some(40i64),
        limits.movestogo matches Some(mtg) && mtg >= 40,
    ensures
        r == rn,
{
}

/// Law: without a time control and without increment, a move takes a
/// twenty-second part of the clock, and at most five times that.
pub proof fn a_move_takes_a_share(limits: Limits, stm: Color, overhead: i64, r: (u64, u64))
    requires
        call_ensures(time_limits, (&limits, stm, overhead), r),
        on_the_clock(limits),
        own_inc(limits, stm) == 0,
        limits.movestogo is None || limits.movestogo->0 <= 0,
    ensures
        own_time(limits, stm) - overhead >= 22 ==> r.0 * 22 <= own_time(limits, stm) - overhead < (
        r.0 + 1) * 22 && r.1 == 5 * r.0,
        own_time(limits, stm) - overhead < 22 ==> r.0 == 1 && r.1 == 1,
{
    let u = max_of(own_time(limits, stm) - overhead, 1);
    assert(soft_share(limits, stm, overhead as int) == u / 22);
}

/// Law: the longest think before a time control is five times the soft budget, but
/// no more than half of the clock.
pub proof fn a_control_leaves_half(limits: Limits, stm: Color, overhead: i64, mtg: i64, r: (u64, u64))
    requires
        call_ensures(time_limits, (&limits, stm, overhead), r),
        on_the_clock(limits),
        own_inc(limits, stm) == 0,
        limits.movestogo == Some(mtg),
        mtg >= 2,
        own_time(limits, stm) - overhead >= 40,
    ensures
        r.1 <= 5 * r.0,
        2 * r.1 <= own_time(limits, stm) - overhead,
        r.1 == 5 * r.0 || own_time(limits, stm) - overhead <= 2 * r.1 + 1,
{
    let u = max_of(own_time(limits, stm) - overhead, 1);
    let m = min_of(mtg as int, 40);
    lemma_quotient(u, m, u / m);
    assert(soft_share(limits, stm, overhead as int) == u / m);
    assert(1 <= u / m <= u / 2) by (nonlinear_arith)
        requires
            u >= 40,
            2 <= m <= 40,
    ;
}

/// Law: out of every 100 ms of increment 72 are spent at once.
pub proof fn most_of_the_increment_is_spent(limits: Limits, more: Limits, stm: Color, overhead: i64, k: int, r: (u64, u64), rm: (u64, u64))
    requires
        call_ensures(time_limits, (&limits, stm, overhead), r),
        call_ensures(time_limits, (&more, stm, overhead), rm),
        on_the_clock(limits) && on_the_clock(more),
        own_time(limits, stm) == own_time(more, stm),
        limits.movestogo == more.movestogo,
        k >= 0,
        own_inc(limits, stm) >= 0,
        own_inc(more, stm) == own_inc(limits, stm) + 100 * k,
        r.0 > 1,
        5 * rm.0 <= 4 * (own_time(limits, stm) - overhead) - 5,
    ensures
        rm.0 == r.0 + 72 * k,
        rm.1 >= r.1,
{
    let u = max_of(own_time(limits, stm) - overhead, 1);
    let i = own_inc(limits, stm);
    assert(u * 4 / 5 >= 1);
    assert(rm.0 < u * 4 / 5);
    let s = soft_share(limits, stm, overhead as int);
    let s2 = soft_share(more, stm, overhead as int);
    assert((i + 100 * k) * 72 / 100 == i * 72 / 100 + 72 * k);
    assert(s2 == s + 72 * k);
}

/// Law: a budget is at least a millisecond; the soft one never exceeds four fifths
/// and the hard one nine tenths of what is left on the clock, and the hard one is
/// never the smaller.
pub proof fn the_clock_is_never_used_up(limits: Limits, stm: Color, overhead: i64, r: (u64, u64))
    requires
        call_ensures(time_limits, (&limits, stm, overhead), r),
        on_the_clock(limits),
    ensures
        1 <= r.0 <= r.1,
        r.0 == 1 || 5 * r.0 <= 4 * (own_time(limits, stm) - overhead),
        r.1 == 1 || 10 * r.1 <= 9 * (own_time(limits, stm) - overhead),
{
}

/// Law: more time on the clock gives no smaller budgets.
pub proof fn more_time_is_no_less(limits: Limits, more: Limits, stm: Color, overhead: i64, r: (u64, u64), rm: (u64, u64))
    requires
        call_ensures(time_limits, (&limits, stm, overhead), r),
        call_ensures(time_limits, (&more, stm, overhead), rm),
        on_the_clock(limits) && on_the_clock(more),
        own_time(limits, stm) <= own_time(more, stm),
        own_inc(limits, stm) <= own_inc(more, stm),
        limits.movestogo == more.movestogo,
    ensures
        r.0 <= rm.0,
        r.1 <= rm.1,
{
    let u = max_of(own_time(limits, stm) - overhead, 1);
    let u2 = max_of(own_time(more, stm) - overhead, 1);
    match limits.movestogo {
        Some(mtg) if mtg > 0 => {
            lemma_quotients(u, u2, min_of(mtg as int, 40));
        },
        _ => {},
    }
}

/// Law: an overhead held back is time that is not on the clock.
pub proof fn the_overhead_is_held_back(limits: Limits, less: Limits, stm: Color, overhead: i64, r: (u64, u64), rl: (u64, u64))
    requires
        call_ensures(time_limits, (&limits, stm, overhead), r),
        call_ensures(time_limits, (&less, stm, 0), rl),
        on_the_clock(limits) && on_the_clock(less),
        own_time(less, stm) == own_time(limits, stm) - overhead,
        own_inc(limits, stm) == own_inc(less, stm),
        limits.movestogo == less.movestogo,
    ensures
        r == rl,
{
}

/// Law: only the clock of the side to move counts.
pub proof fn the_other_clock_does_not_matter(limits: Limits, other: Limits, stm: Color, overhead: i64, r: (u64, u64), ro: (u64, u64))
    requires
        call_ensures(time_limits, (&limits, stm, overhead), r),
        call_ensures(time_limits, (&other, stm, overhead), ro),
        limits.movetime == other.movetime,
        limits.has_time == other.has_time,
        limits.movestogo == other.movestogo,
        own_time(limits, stm) == own_time(other, stm),
        own_inc(limits, stm) == own_inc(other, stm),
    ensures
        r == ro,
{
}

/// Law: a fixed time for the move is used whole but for the overhead, whatever the
/// clocks say, and is no less than a millisecond.
pub proof fn a_fixed_time_is_used(limits: Limits, stm: Color, overhead: i64, mt: i64, r: (u64, u64))
    requires
        call_ensures(time_limits, (&limits, stm, overhead), r),
        limits.movetime == Some(mt),
    ensures
        r.0 == r.1,
        mt > overhead ==> r.0 + overhead == mt,
        mt <= overhead ==> r.0 == 1,
{
}

/// Law: without a clock the time is never up.
pub proof fn no_clock_no_limit(limits: Limits, stm: Color, overhead: i64, r: (u64, u64), ms: u64)
    requires
        call_ensures(time_limits, (&limits, stm, overhead), r),
        limits.movetime is None,
        !limits.has_time,
    ensures
        ms <= r.0,
        ms <= r.1,
{
}

/// Law: the clock stands still while pondering, starts from zero when pondering ends
/// and gains a millisecond with every million nanoseconds.
pub proof fn the_clock_starts_after_pondering(since: u64, end: u64, k: u64, r: u64, rp: u64)
    requires
        call_ensures(clock_reading, (false, since, end), r),
        call_ensures(clock_reading, (true, since, end), rp),
        end + 1_000_000 * k <= since < end + 1_000_000 * (k + 1),
    ensures
        r == k,
        rp == 0,
{
}

/// Law: a search that has completed an iteration is out of budget once its hard
/// budget has passed, unless it is to go on without end or still ponders, or once
/// its nodes are spent; before it has completed one it never is.
pub proof fn a_search_ends_with_its_budget(
    infinite: bool,
    pondering: bool,
    elapsed: u64,
    hard_ms: u64,
    node_limit: Option<u64>,
    nodes: u64,
    r: bool,
    early: bool,
)
    requires
        call_ensures(out_of_budget, (true, infinite, pondering, elapsed, hard_ms, node_limit, nodes), r),
        call_ensures(
            out_of_budget,
            (false, infinite, pondering, elapsed, hard_ms, node_limit, nodes),
            early,
        ),
    ensures
        !early,
        hard_ms <= elapsed && !infinite && !pondering ==> r,
        node_limit is Some && node_limit->0 <= nodes ==> r,
        (elapsed < hard_ms || infinite || pondering) && (node_limit is None || nodes
            < node_limit->0) ==> !r,
{
}

/// Law: an only move needs no more than four plies, a mate found in `n` plies is the
/// answer once the search is four plies deeper than it, and no other score ends a search.
pub proof fn when_the_answer_is_known(root_moves: usize, depth: i32, score: i32, r: bool)
    requires
        call_ensures(answer_is_known, (root_moves, depth, score), r),
        score > i32::MIN,
    ensures
        root_moves == 1 && depth >= 4 ==> r,
        forall|n: int|
            0 <= n <= 246 && (score == 32000 - n || score == n - 32000) && root_moves != 1 ==> (r <==> depth
                >= #[trigger] (n + 4)),
        -31754 < score < 31754 && (root_moves != 1 || depth < 4) ==> !r,
{
}

} // verus!
