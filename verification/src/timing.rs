//! Limits of a search: the clock, its budget, and when to stop.

use vstd::prelude::*;
use crate::history::{clamp_to, magnitude_of, trunc};
use crate::nnue::{Network, share};
use crate::attacks::Tables;
use crate::params::{TM_HARD_DIV, TM_HARD_MULT, TM_INC_NUM, TM_MIN_DEPTH, TM_SOFT_DIV};
use crate::score::{LmrTable, MATE, MATE_IN_MAX, is_mate};
use crate::tt::Tt;
use crate::types::Color;
use std::sync::atomic::{AtomicBool, AtomicU64, Ordering};
use std::time::Instant;

verus! {

/// How often the clock and the stop flag are polled, in nodes.
pub const CHECK_INTERVAL: u64 = 512;

/// What a search is allowed.
#[derive(Clone, Copy)]
pub struct Limits {
    pub time: [i64; 2],
    pub inc: [i64; 2],
    pub movestogo: Option<i64>,
    pub movetime: Option<i64>,
    pub depth: Option<i32>,
    pub nodes: Option<u64>,
    pub infinite: bool,
    pub ponder: bool,
    pub has_time: bool,
}

impl Default for Limits {
    fn default() -> (r: Limits)
        ensures
            r == Limits::nothing(),
    {
        let r = Limits {
            time: [0, 0],
            inc: [0, 0],
            movestogo: None,
            movetime: None,
            depth: None,
            nodes: None,
            infinite: false,
            ponder: false,
            has_time: false,
        };
        assert(r.time@ =~= Limits::nothing().time@);
        assert(r.inc@ =~= Limits::nothing().inc@);
        r
    }
}

impl Limits {
    /// No limit given.
    pub open spec fn nothing() -> Limits {
        Limits {
            time: [0i64, 0i64],
            inc: [0i64, 0i64],
            movestogo: None,
            movetime: None,
            depth: None,
            nodes: None,
            infinite: false,
            ponder: false,
            has_time: false,
        }
    }
}

// -- time management --------------------------------------------------------

pub open spec fn min_of(a: int, b: int) -> int {
    if a < b {
        a
    } else {
        b
    }
}

pub open spec fn max_of(a: int, b: int) -> int {
    if a < b {
        b
    } else {
        a
    }
}

/// The time that can be spent at all, in milliseconds.
pub open spec fn usable_time(limits: Limits, stm: Color, overhead: int) -> int {
    max_of(limits.time[stm.idx() as int] - overhead, 1)
}

/// The soft budget before it is clamped: a share of the clock and most of the
/// increment.
pub open spec fn soft_share(limits: Limits, stm: Color, overhead: int) -> int {
    let usable = usable_time(limits, stm, overhead);
    let share = match limits.movestogo {
        Some(mtg) if mtg > 0 => usable / min_of(mtg as int, 40),
        _ => usable / 22,
    };
    share + trunc(limits.inc[stm.idx() as int] * 72, 100)
}

/// The soft budget, checked between iterations.
pub open spec fn soft_budget(limits: Limits, stm: Color, overhead: int) -> int {
    let usable = usable_time(limits, stm, overhead);
    clamp_to(soft_share(limits, stm, overhead), 1, max_of(usable * 4 / 5, 1))
}

/// The hard budget, checked inside the search.
pub open spec fn hard_budget(limits: Limits, stm: Color, overhead: int) -> int {
    let usable = usable_time(limits, stm, overhead);
    let part = match limits.movestogo {
        Some(mtg) if mtg > 0 => usable / 2,
        _ => usable / 3,
    };
    let hard = min_of(part, soft_share(limits, stm, overhead) * 5);
    max_of(clamp_to(hard, 1, max_of(usable * 9 / 10, 1)), soft_budget(limits, stm, overhead))
}

fn wide_trunc(a: i128, b: i128) -> (r: i128)
    requires
        b > 0,
        a > i128::MIN,
    ensures
        r == trunc(a as int, b as int),
{
    if a >= 0 {
        a / b
    } else {
        -((-a) / b)
    }
}

fn wide_max(a: i128, b: i128) -> (r: i128)
    ensures
        r == max_of(a as int, b as int),
{
    if a < b {
        b
    } else {
        a
    }
}

fn wide_min(a: i128, b: i128) -> (r: i128)
    ensures
        r == min_of(a as int, b as int),
{
    if a < b {
        a
    } else {
        b
    }
}

fn wide_clamp(x: i128, lo: i128, hi: i128) -> (r: i128)
    ensures
        r == clamp_to(x as int, lo as int, hi as int),
{
    if x < lo {
        lo
    } else if x > hi {
        hi
    } else {
        x
    }
}

/// Splits the clock into a soft budget (checked between iterations) and a hard
/// one (checked inside the search).
pub fn time_limits(limits: &Limits, stm: Color, overhead: i64) -> (r: (u64, u64))
    ensures
        limits.movetime matches Some(mt) ==> r.0 == max_of(mt - overhead, 1) && r.1 == r.0,
        limits.movetime is None && !limits.has_time ==> r.0 == u64::MAX && r.1 == u64::MAX,
        limits.movetime is None && limits.has_time ==> r.0 == soft_budget(
            *limits,
            stm,
            overhead as int,
        ) && r.1 == hard_budget(*limits, stm, overhead as int),
        r.0 <= r.1,
{
    // A wider integer has room for whatever the clocks say.
    if let Some(mt) = limits.movetime {
        let t = wide_max(mt as i128 - overhead as i128, 1) as u64;
        return (t, t);
    }
    if !limits.has_time {
        return (u64::MAX, u64::MAX);
    }
    let usable: i128 = wide_max(limits.time[stm.idx()] as i128 - overhead as i128, 1);
    let inc: i128 = limits.inc[stm.idx()] as i128;
    let num: i128 = TM_INC_NUM as i128;
    let mult: i128 = TM_HARD_MULT as i128;
    assert(num == 72 && mult == 5);
    assert(inc * num == inc * 72) by (nonlinear_arith)
        requires
            num == 72,
    ;
    let more: i128 = wide_trunc(inc * num, 100);
    let soft: i128;
    let part: i128;
    match limits.movestogo {
        Some(mtg) if mtg > 0 => {
            let mtg: i128 = wide_min(mtg as i128, 40);
            assert(0 <= usable / mtg <= usable) by (nonlinear_arith)
                requires
                    usable >= 0,
                    mtg >= 1,
            ;
            soft = usable / mtg + more;
            part = usable / 2;
        },
        _ => {
            soft = usable / TM_SOFT_DIV as i128 + more;
            part = usable / TM_HARD_DIV as i128;
        },
    }
    assert(soft * mult == soft * 5) by (nonlinear_arith)
        requires
            mult == 5,
    ;
    let hard: i128 = wide_min(part, soft * mult);
    let soft: i128 = wide_clamp(soft, 1, wide_max(usable * 4 / 5, 1));
    let hard: i128 = wide_max(wide_clamp(hard, 1, wide_max(usable * 9 / 10, 1)), soft);
    (soft as u64, hard as u64)
}

// -- the clock -----------------------------------------------------------------------

#[verifier::external_type_specification]
#[verifier::external_body]
pub struct ExInstant(Instant);

/// Nanoseconds since `start`: `Instant::elapsed`, as whole nanoseconds. It is
/// what the machine's clock says at the time of the call, so nothing is claimed of
/// the number.
#[verifier::external_body]
fn ns_since(start: &Instant) -> u64 {
    start.elapsed().as_nanos() as u64
}

/// The clock may show `ns` nanoseconds since `start`.
pub closed spec fn may_have_passed(start: &Instant, ns: u64) -> bool {
    call_ensures(ns_since, (start,), ns)
}

/// A load of the flag `a` may give `v`.
pub open spec fn may_be_set(a: &AtomicBool, v: bool) -> bool {
    call_ensures(AtomicBool::load, (a, Ordering::Relaxed), v)
}

/// The same after what the thread that set it had done before.
pub open spec fn may_be_set_after(a: &AtomicBool, v: bool) -> bool {
    call_ensures(AtomicBool::load, (a, Ordering::Acquire), v)
}

/// A load of the number `a` may give `v`.
pub open spec fn may_be(a: &AtomicU64, v: u64) -> bool {
    call_ensures(AtomicU64::load, (a, Ordering::Relaxed), v)
}

/// The same after what the thread that put it there had done before.
pub open spec fn may_be_after(a: &AtomicU64, v: u64) -> bool {
    call_ensures(AtomicU64::load, (a, Ordering::Acquire), v)
}

/// `n` is added to the number `a`, which was `was`.
pub open spec fn is_added(a: &AtomicU64, n: u64, was: u64) -> bool {
    call_ensures(AtomicU64::fetch_add, (a, n, Ordering::Relaxed), was)
}

/// State shared between the searchers of one search and the front end.
pub struct Shared<'a> {
    pub tables: &'a Tables,
    pub net: &'a Network,
    pub lmr: &'a LmrTable,
    pub tt: &'a Tt,
    pub stop: &'a AtomicBool,
    pub pondering: &'a AtomicBool,
    /// When pondering ended, in nanoseconds since `start`; 0 without pondering.
    pub ponder_end: &'a AtomicU64,
    pub finished: AtomicBool,
    pub nodes: AtomicU64,
    pub start: Instant,
    pub soft_ms: u64,
    pub hard_ms: u64,
    pub limits: Limits,
}

/// The clock of a search, in milliseconds: at rest while pondering, then counting from
/// the end of it. Both times are nanoseconds since the start.
pub open spec fn reading(pondering: bool, since_start: u64, ponder_end: u64) -> int {
    if pondering || since_start < ponder_end {
        0
    } else {
        (since_start - ponder_end) / 1_000_000
    }
}

/// What that clock shows.
pub fn clock_reading(pondering: bool, since_start: u64, ponder_end: u64) -> (r: u64)
    ensures
        r == reading(pondering, since_start, ponder_end),
{
    if pondering || since_start < ponder_end {
        0
    } else {
        (since_start - ponder_end) / 1_000_000
    }
}

/// Out of time or nodes, but never before one iteration is complete.
pub open spec fn is_spent(
    searched: bool,
    infinite: bool,
    pondering: bool,
    elapsed: u64,
    hard_ms: u64,
    node_limit: Option<u64>,
    nodes: u64,
) -> bool {
    searched && ((!infinite && !pondering && elapsed >= hard_ms) || (node_limit matches Some(n)
        && nodes >= n))
}

/// Is a search that owns the clock out of time or nodes? Never before one
/// iteration is complete.
pub fn out_of_budget(
    searched: bool,
    infinite: bool,
    pondering: bool,
    elapsed: u64,
    hard_ms: u64,
    node_limit: Option<u64>,
    nodes: u64,
) -> (r: bool)
    ensures
        r == is_spent(searched, infinite, pondering, elapsed, hard_ms, node_limit, nodes),
{
    let over_time = searched && !infinite && !pondering && elapsed >= hard_ms;
    let over_nodes = searched && match node_limit {
        Some(n) => nodes >= n,
        None => false,
    };
    over_time || over_nodes
}

/// Is the answer known after an iteration to `depth`, whatever the clock says?
pub fn answer_is_known(root_moves: usize, depth: i32, score: i32) -> (r: bool)
    requires
        score > i32::MIN,
    ensures
        r == ((root_moves == 1 && depth >= 4) || (is_mate(score) && depth >= MATE - magnitude_of(
            score as int,
        ) + 4)),
{
    let size: i32 = if score < 0 {
        -score
    } else {
        score
    };
    // A single legal move needs no more thought, and a forced mate found within
    // the remaining depth is the answer.
    (root_moves == 1 && depth >= TM_MIN_DEPTH) || (size >= MATE_IN_MAX && depth >= MATE - size + 4)
}

impl Shared<'_> {
    pub open spec fn ok(&self) -> bool {
        self.net.ok()
    }

    pub fn is_pondering(&self) -> (r: bool)
        ensures
            may_be_set_after(self.pondering, r),
    {
        self.pondering.load(Ordering::Acquire)
    }

    /// The flags may say that the search is asked to stop, or not: the front end's
    /// is read first, and the searchers' own only where that is not set.
    pub open spec fn may_be_asked(&self, asked: bool) -> bool {
        (asked && may_be_set(self.stop, true)) || (may_be_set(self.stop, false) && may_be_set(
            &self.finished,
            asked,
        ))
    }

    /// Has anybody asked the search to stop?
    pub fn asked_to_stop(&self) -> (r: bool)
        ensures
            self.may_be_asked(r),
    {
        self.stop.load(Ordering::Relaxed) || self.finished.load(Ordering::Relaxed)
    }

    /// Hands `n` more nodes to the shared count.
    pub fn count_nodes(&self, n: u64)
        ensures
            exists|was: u64| #[trigger] is_added(&self.nodes, n, was),
    {
        let was = self.nodes.fetch_add(n, Ordering::Relaxed);
        assert(is_added(&self.nodes, n, was));
    }

    pub fn total_nodes(&self) -> (r: u64)
        ensures
            may_be(&self.nodes, r),
    {
        self.nodes.load(Ordering::Relaxed)
    }

    fn ponder_mark(&self) -> (r: u64)
        ensures
            may_be_after(self.ponder_end, r),
    {
        self.ponder_end.load(Ordering::Acquire)
    }

    /// The search may find itself pondering or not, so long after its start and
    /// with that mark for the end of pondering.
    pub open spec fn may_stand_at(&self, pondering: bool, since_start: u64, ponder_end: u64) -> bool {
        &&& may_be_set_after(self.pondering, pondering)
        &&& may_have_passed(&self.start, since_start)
        &&& may_be_after(self.ponder_end, ponder_end)
    }

    /// The clock of the search may show `ms`.
    pub open spec fn may_show(&self, ms: u64) -> bool {
        exists|p: bool, s: u64, e: u64| #[trigger]
            self.may_stand_at(p, s, e) && ms == reading(p, s, e)
    }

    /// What the clock of the search shows.
    pub fn elapsed_ms(&self) -> (r: u64)
        ensures
            self.may_show(r),
    {
        let pondering = self.is_pondering();
        let since_start = ns_since(&self.start);
        let ponder_end = self.ponder_mark();
        assert(self.may_stand_at(pondering, since_start, ponder_end));
        clock_reading(pondering, since_start, ponder_end)
    }
}

} // verus!
