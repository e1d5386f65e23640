//! Scores: mates, their table form, and the formulas that prune and reduce.

use vstd::prelude::*;
use crate::history::{clamp_to, magnitude_of, trunc, trunc_div};
use crate::params::{
    EVAL_FIFTY_SCALE, HIST_BONUS_OFF, HIST_BONUS_SLOPE, HIST_MALUS_OFF, HIST_MALUS_SLOPE,
    LMP_BASE, LMR_CAPT_DIV, LMR_HIST_DIV, NMP_BASE, NMP_DEPTH_DIV, NMP_EVAL_DIV, NMP_EVAL_MAX,
    OPP_HIST_MAX, OPP_HIST_MIN, OPP_HIST_MUL, OPP_HIST_OFF, PROBCUT_IMPROVING, PROBCUT_MARGIN,
    RAZOR_BASE, RAZOR_DEPTH, RAZOR_SLOPE, RFP_DEPTH, RFP_MARGIN, SE_DOUBLE_MARGIN,
};
use crate::text::{decimal_int, push_decimal_int};
use crate::tt::{BOUND_EXACT, BOUND_LOWER, BOUND_UPPER, VALUE_NONE};


verus! {

pub const MATE: i32 = 32000;

/// Scores from here on are mates within the horizon.
pub const MATE_IN_MAX: i32 = 31754;

pub const INFINITE: i32 = 32001;

pub const DRAW: i32 = 0;

/// No search returns a score beyond this.
pub const SCORE_LIMIT: i32 = 36000;

// -- mates ------------------------------------------------------------------------

#[verifier::allow_in_spec]
pub fn mate_in(ply: usize) -> i32
    requires
        ply <= i32::MAX,
    returns
        (32000 - ply) as i32,
{
    MATE - ply as i32
}

#[verifier::allow_in_spec]
pub fn mated_in(ply: usize) -> i32
    requires
        ply <= i32::MAX,
    returns
        (ply - 32000) as i32,
{
    -MATE + ply as i32
}

/// A mate score counts plies from the root; in the table it counts them from the
/// position.
pub open spec fn table_score(s: int, ply: int) -> int {
    if s >= MATE_IN_MAX {
        s + ply
    } else if s <= -MATE_IN_MAX {
        s - ply
    } else {
        s
    }
}

pub open spec fn node_score(s: int, ply: int) -> int {
    if s >= MATE_IN_MAX {
        s - ply
    } else if s <= -MATE_IN_MAX {
        s + ply
    } else {
        s
    }
}

pub fn score_to_tt(s: i32, ply: usize) -> (r: i32)
    requires
        i32::MIN <= table_score(s as int, ply as int) <= i32::MAX,
    ensures
        r == table_score(s as int, ply as int),
{
    if s >= MATE_IN_MAX {
        s + ply as i32
    } else if s <= -MATE_IN_MAX {
        s - ply as i32
    } else {
        s
    }
}

pub fn score_from_tt(s: i32, ply: usize) -> (r: i32)
    requires
        is_mate(s) ==> ply <= i32::MAX,
    ensures
        r == node_score(s as int, ply as int),
{
    if s >= MATE_IN_MAX {
        s - ply as i32
    } else if s <= -MATE_IN_MAX {
        s + ply as i32
    } else {
        s
    }
}

/// Law: a score read back at the ply it was stored at is the same.
pub proof fn table_score_round_trip(s: int, ply: int)
    requires
        ply >= 0,
    ensures
        node_score(table_score(s, ply), ply) == s,
{
}

/// `cp N` or `mate N`.
pub open spec fn score_text(score: int) -> Seq<char> {
    if magnitude_of(score) >= MATE_IN_MAX {
        let mates = trunc(MATE - magnitude_of(score) + 1, 2);
        "mate "@ + decimal_int(
            if score > 0 {
                mates
            } else {
                -mates
            },
        )
    } else {
        "cp "@ + decimal_int(score)
    }
}

/// `cp N` or `mate N`, the way `info score` wants it.
pub fn score_to_uci(score: i32) -> (r: String)
    requires
        score > i32::MIN,
    ensures
        r@ == score_text(score as int),
{
    let size: i64 = if score < 0 {
        -(score as i64)
    } else {
        score as i64
    };
    if size >= MATE_IN_MAX as i64 {
        let plies: i64 = MATE as i64 - size + 1;
        let mates: i64 = if plies >= 0 {
            plies / 2
        } else {
            -((-plies) / 2)
        };
        let mut out = "mate ".to_string();
        push_decimal_int(
            &mut out,
            if score > 0 {
                mates
            } else {
                -mates
            },
        );
        out
    } else {
        let mut out = "cp ".to_string();
        push_decimal_int(&mut out, score as i64);
        out
    }
}

// -- history bonuses ----------------------------------------------------------------

/// How much the opponent's last quiet move is credited, given the static
/// evaluation before it was answered and after.
///
/// Both arguments are side-to-move-relative, so they are from *opposite*
/// points of view: a large positive sum means both sides believe they stand
/// better, which is only possible if the move between them lost ground. The
/// leading minus turns that into a malus, and the offset is added after the
/// clamp so that a neutral swing still leaves a small positive tempo bonus.
pub fn opp_swing_bonus(prev_eval: i32, static_eval: i32) -> (r: i32)
    requires
        -165_191_049 <= prev_eval + static_eval <= 165_191_049,
    ensures
        r == clamp_to(-13 * (prev_eval + static_eval), -1556, 1478) + 596,
{
    let x: i32 = -OPP_HIST_MUL * (prev_eval + static_eval);
    let c: i32 = if x < OPP_HIST_MIN {
        OPP_HIST_MIN
    } else if x > OPP_HIST_MAX {
        OPP_HIST_MAX
    } else {
        x
    };
    c + OPP_HIST_OFF
}

/// The credit of a move that failed high at `depth`.
pub fn history_bonus(depth: i32) -> (r: i32)
    requires
        -15_675_062 <= depth <= 15_675_063,
    ensures
        r == clamp_to(137 * depth - 118, 0, 1900),
        0 <= r <= 1900,
{
    let x: i32 = HIST_BONUS_SLOPE * depth - HIST_BONUS_OFF;
    if x < 0 {
        0
    } else if x > 1900 {
        1900
    } else {
        x
    }
}

/// The debit of the moves tried before it.
pub fn history_malus(depth: i32) -> (r: i32)
    requires
        -14_412_641 <= depth <= 14_412_641,
    ensures
        r == clamp_to(149 * depth - 55, 0, 1400),
        0 <= r <= 1400,
{
    let x: i32 = HIST_MALUS_SLOPE * depth - HIST_MALUS_OFF;
    if x < 0 {
        0
    } else if x > 1400 {
        1400
    } else {
        x
    }
}

// -- table cutoffs -------------------------------------------------------------------

/// Does a stored score decide a node with this window?
#[verifier::allow_in_spec]
pub fn decides(bound: u8, s: i32, alpha: i32, beta: i32) -> bool
    returns
        bound == BOUND_EXACT || (bound == BOUND_LOWER && s >= beta) || (bound == BOUND_UPPER && s
            <= alpha),
{
    bound == BOUND_EXACT || (bound == BOUND_LOWER && s >= beta) || (bound == BOUND_UPPER && s
        <= alpha)
}

/// Is a stored score a better estimate of a node than `eval`: does its bound point
/// the right way?
#[verifier::allow_in_spec]
pub fn improves(bound: u8, s: i32, eval: i32) -> bool
    returns
        bound == BOUND_EXACT || (bound == BOUND_LOWER && s > eval) || (bound == BOUND_UPPER && s
            < eval),
{
    bound == BOUND_EXACT || (bound == BOUND_LOWER && s > eval) || (bound == BOUND_UPPER && s < eval)
}

/// Is a stored evaluation an evaluation?
#[verifier::allow_in_spec]
pub fn is_eval(e: i32) -> bool
    returns
        e != VALUE_NONE && -MATE_IN_MAX < e && e < MATE_IN_MAX,
{
    e != VALUE_NONE && -MATE_IN_MAX < e && e < MATE_IN_MAX
}

#[verifier::allow_in_spec]
pub fn is_mate(s: i32) -> bool
    returns
        s >= MATE_IN_MAX || s <= -MATE_IN_MAX,
{
    s >= MATE_IN_MAX || s <= -MATE_IN_MAX
}

#[verifier::allow_in_spec]
pub fn greater(a: i32, b: i32) -> i32
    returns
        (if a < b {
            b
        } else {
            a
        }),
{
    if a < b {
        b
    } else {
        a
    }
}

#[verifier::allow_in_spec]
pub fn lesser(a: i32, b: i32) -> i32
    returns
        (if b < a {
            b
        } else {
            a
        }),
{
    if b < a {
        b
    } else {
        a
    }
}

// -- the evaluation of a node -----------------------------------------------------------

/// The raw evaluation damped by the fifty-move counter, so that a line that makes
/// progress is preferred. The product is taken in 32-bit arithmetic.
pub open spec fn damped(raw: i32, halfmove: u16) -> int {
    trunc(wrap32(raw * (214 - halfmove)), 214)
}

/// A sum in 32-bit two's complement.
pub open spec fn wrap32(x: int) -> int {
    (x + 0x8000_0000) % 0x1_0000_0000 - 0x8000_0000
}

/// The damped evaluation, corrected, and kept clear of the mate scores.
pub open spec fn adjusted(raw: i32, halfmove: u16, correction: int) -> int {
    clamp_to(damped(raw, halfmove) + correction, -31753, 31753)
}

pub fn adjust(raw: i32, halfmove: u16, correction: i32) -> (r: i32)
    requires
        -32 <= correction <= 32,
    ensures
        r == adjusted(raw, halfmove, correction as int),
        -MATE_IN_MAX < r < MATE_IN_MAX,
{
    let left: i64 = EVAL_FIFTY_SCALE as i64 - halfmove as i64;
    assert(-0x1_0000_0000_0000 <= raw * left <= 0x1_0000_0000_0000) by (nonlinear_arith)
        requires
            -0x8000_0000 <= raw <= 0x7FFF_FFFF,
            -65535 <= left <= 214,
    ;
    let wide: i64 = raw as i64 * left;
    let low: i64 = (wide + 0x8000_0000 + 0x1000_0000_0000_0000) % 0x1_0000_0000 - 0x8000_0000;
    assert(low == wrap32(raw * (214 - halfmove)));
    let v: i64 = if low >= 0 {
        low / 214
    } else {
        -((-low) / 214)
    };
    let c: i64 = v + correction as i64;
    if c < -31753 {
        -31753
    } else if c > 31753 {
        31753
    } else {
        c as i32
    }
}

// -- pruning and reduction -----------------------------------------------------------

pub open spec fn one_if(b: bool) -> int {
    if b {
        1
    } else {
        0
    }
}

fn as_one(b: bool) -> (r: i32)
    ensures
        r == one_if(b),
{
    if b {
        1
    } else {
        0
    }
}

/// Reverse futility: so far above beta that the node is returned at once, and
/// with which score.
pub fn reverse_futility(eval: i32, beta: i32, depth: i32, improving: bool) -> (r: Option<i32>)
    requires
        eval >= i32::MIN + 372,
        i32::MIN < eval - beta <= i32::MAX,
        1 <= depth,
    ensures
        r is Some <==> depth <= 6 && eval - 62 * (depth - one_if(improving)) >= beta,
        r matches Some(v) ==> v == beta + trunc(eval - beta, 3) && beta <= v <= eval,
{
    if depth <= RFP_DEPTH && eval - RFP_MARGIN * (depth - as_one(improving)) >= beta {
        Some(beta + trunc_div(eval - beta, 3))
    } else {
        None
    }
}

/// Razoring: so far below alpha that only quiescence can save the node.
#[verifier::allow_in_spec]
pub fn razors(eval: i32, alpha: i32, depth: i32) -> bool
    requires
        eval <= i32::MAX - 1634,
        depth <= 3 ==> i32::MIN <= 442 * depth && i32::MIN <= eval + 308 + 442 * depth,
    returns
        depth <= 3 && eval + 308 + 442 * depth < alpha,
{
    depth <= RAZOR_DEPTH && eval + RAZOR_BASE + RAZOR_SLOPE * depth < alpha
}

/// By how much a null move search is reduced.
pub fn null_reduction(depth: i32, eval: i32, beta: i32) -> (r: i32)
    requires
        3 <= depth,
        0 <= eval - beta <= i32::MAX,
    ensures
        r == 5 + depth / 3 + if (eval - beta) / 217 < 3 {
            (eval - beta) / 217
        } else {
            3
        },
        5 <= r,
{
    let extra: i32 = (eval - beta) / NMP_EVAL_DIV;
    NMP_BASE + depth / NMP_DEPTH_DIV + lesser(extra, NMP_EVAL_MAX)
}

/// The raised beta of ProbCut.
pub fn probcut_beta(beta: i32, improving: bool) -> (r: i32)
    requires
        beta <= i32::MAX - 209,
    ensures
        r == beta + 209 - 52 * one_if(improving),
{
    beta + PROBCUT_MARGIN - PROBCUT_IMPROVING * as_one(improving)
}

/// Late move pruning: enough moves have been tried at this depth.
pub fn late_enough(moves: i32, depth: i32, improving: bool) -> (r: bool)
    requires
        0 <= depth <= 46_340,
    ensures
        r == (moves >= (3 + depth * depth) / (2 - one_if(improving))),
{
    assert(0 <= depth * depth <= 2_147_395_600) by (nonlinear_arith)
        requires
            0 <= depth <= 46_340,
    ;
    moves >= (LMP_BASE + depth * depth) / (2 - as_one(improving))
}

/// The reduction of a late move, before it is limited by the depth.
pub open spec fn reduction_of(
    base: int,
    pv: bool,
    cut_node: bool,
    tt_pv: bool,
    improving: bool,
    gives_check: bool,
    quiet: bool,
    hist_score: int,
    busy: bool,
) -> int {
    base + one_if(!pv) + one_if(cut_node) - one_if(tt_pv) - one_if(improving) - one_if(gives_check)
        - clamp_to(
        trunc(
            hist_score,
            if quiet {
                5956
            } else {
                5679
            },
        ),
        -2,
        2,
    ) + one_if(busy)
}

pub fn late_reduction(
    base: i32,
    pv: bool,
    cut_node: bool,
    tt_pv: bool,
    improving: bool,
    gives_check: bool,
    quiet: bool,
    hist_score: i32,
    busy: bool,
) -> (r: i32)
    requires
        0 <= base <= 1000,
        hist_score > i32::MIN,
    ensures
        r == reduction_of(
            base as int,
            pv,
            cut_node,
            tt_pv,
            improving,
            gives_check,
            quiet,
            hist_score as int,
            busy,
        ),
        -10 <= r <= 1010,
{
    let div: i32 = if quiet {
        LMR_HIST_DIV
    } else {
        LMR_CAPT_DIV
    };
    let h: i32 = trunc_div(hist_score, div);
    let h: i32 = if h < -2 {
        -2
    } else if h > 2 {
        2
    } else {
        h
    };
    base + as_one(!pv) + as_one(cut_node) - as_one(tt_pv) - as_one(improving) - as_one(gives_check)
        - h + as_one(busy)
}

/// The depth of a reduced search: at least one, at most the full depth.
pub open spec fn depth_reduced(new_depth: int, r: int) -> int {
    clamp_to(
        new_depth - r,
        1,
        if new_depth < 1 {
            1
        } else {
            new_depth
        },
    )
}

pub fn reduced_depth(new_depth: i32, r: i32) -> (d: i32)
    requires
        i32::MIN <= new_depth - r <= i32::MAX,
    ensures
        d == depth_reduced(new_depth as int, r as int),
        1 <= d,
        d <= 1 || d <= new_depth,
{
    let top: i32 = greater(new_depth, 1);
    let d: i32 = new_depth - r;
    if d < 1 {
        1
    } else if d > top {
        top
    } else {
        d
    }
}

/// How a node extends the hash move after a singular search that gave `score`: by one
/// or two plies where nothing else comes close, not at all or negatively where it does.
/// None where several moves beat beta.
pub open spec fn extension_after(
    score: i32,
    singular_beta: i32,
    beta: i32,
    tt_score: i32,
    pv: bool,
    cut_node: bool,
) -> Option<i32> {
    if score < singular_beta {
        Some(
            if !pv && score < singular_beta - 11 {
                2i32
            } else {
                1
            },
        )
    } else if singular_beta >= beta {
        None
    } else if tt_score >= beta {
        Some((-2) as i32)
    } else if cut_node {
        Some((-1) as i32)
    } else {
        Some(0)
    }
}

pub fn singular_extension(
    score: i32,
    singular_beta: i32,
    beta: i32,
    tt_score: i32,
    pv: bool,
    cut_node: bool,
) -> (r: Option<i32>)
    requires
        singular_beta >= i32::MIN + 11,
    ensures
        r == extension_after(score, singular_beta, beta, tt_score, pv, cut_node),
        r matches Some(e) ==> -2 <= e <= 2,
{
    if score < singular_beta {
        if !pv && score < singular_beta - SE_DOUBLE_MARGIN {
            Some(2)
        } else {
            Some(1)
        }
    } else if singular_beta >= beta {
        None
    } else if tt_score >= beta {
        Some(-2)
    } else if cut_node {
        Some(-1)
    } else {
        Some(0)
    }
}

/// What a node without any move searched is worth.
pub fn bare_node(excluded: bool, in_check: bool, alpha: i32, ply: usize) -> (r: i32)
    requires
        ply <= i32::MAX,
    ensures
        r == if excluded {
            alpha
        } else if in_check {
            mated_in(ply)
        } else {
            DRAW
        },
{
    if excluded {
        alpha
    } else if in_check {
        mated_in(ply)
    } else {
        DRAW
    }
}

/// The bound of a finished node.
pub open spec fn bound_of(best: i32, beta: i32, alpha: i32, lined: bool) -> u8 {
    if best >= beta {
        BOUND_LOWER
    } else if lined && best > alpha {
        BOUND_EXACT
    } else {
        BOUND_UPPER
    }
}

/// Which that is.
pub fn node_bound(best: i32, beta: i32, orig_alpha: i32, pv: bool, has_best: bool) -> (r: u8)
    ensures
        r == bound_of(best, beta, orig_alpha, pv && has_best),
        r < 4,
{
    if best >= beta {
        BOUND_LOWER
    } else if pv && has_best && best > orig_alpha {
        BOUND_EXACT
    } else {
        BOUND_UPPER
    }
}

/// The late move reduction table: `[depth][move number]`.
pub struct LmrTable {
    rows: Vec<i32>,
}

impl LmrTable {
    #[verifier::type_invariant]
    spec fn sized(&self) -> bool {
        self.rows@.len() == 16384 && forall|i: int|
            0 <= i < 16384 ==> 0 <= #[trigger] self.rows@[i] <= 64
    }

    pub closed spec fn entries(&self) -> Seq<i32> {
        self.rows@
    }

    /// Takes a table of 64 rows of 256 reductions, each between 0 and 64.
    pub fn from_rows(rows: Vec<i32>) -> (r: Option<LmrTable>)
        ensures
            r is Some <==> rows@.len() == 16384 && forall|i: int|
                0 <= i < 16384 ==> 0 <= #[trigger] rows@[i] <= 64,
            r matches Some(t) ==> t.entries() == rows@,
    {
        if rows.len() != 16384 {
            return None;
        }
        let mut i: usize = 0;
        while i < 16384
            invariant
                i <= 16384,
                rows@.len() == 16384,
                forall|k: int| 0 <= k < i ==> 0 <= #[trigger] rows@[k] <= 64,
            decreases 16384 - i,
        {
            if rows[i] < 0 || rows[i] > 64 {
                return None;
            }
            i += 1;
        }
        Some(LmrTable { rows })
    }

    /// The reduction of move number `moves` at `depth`.
    pub fn lmr(&self, depth: i32, moves: i32) -> (r: i32)
        ensures
            r == self.entries()[clamp_to(depth as int, 0, 63) * 256 + clamp_to(
                moves as int,
                0,
                255,
            )],
            0 <= r <= 64,
    {
        proof {
            use_type_invariant(self);
        }
        let d: usize = if depth < 0 {
            0
        } else if depth > 63 {
            63
        } else {
            depth as usize
        };
        let m: usize = if moves < 0 {
            0
        } else if moves > 255 {
            255
        } else {
            moves as usize
        };
        self.rows[d * 256 + m]
    }
}

} // verus!
