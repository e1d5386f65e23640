//! What the history tables give back of what they are told.

use vstd::prelude::*;

use crate::board::Board;
use crate::history::{
    CORR_GRAIN, Histories, blended, capture_at, clamp_to, cont_cell, cont_index, gravity_of,
    gravity_stays_bounded, lemma_correction, magnitude_of, main_cell, pawn_cell, trunc,
    victim_axis,
};
use crate::params::{CORR_CONT_W, CORR_PAWN_W};
use crate::types::{Color, Move, Piece, PieceType, Square};

verus! {

/// `after` is an entry `before` that a bonus has pulled towards the end of the range it points
/// to: the full bonus leads to that end, and a smaller one is added while the
/// entry gives up that share of itself, fractions dropped.
pub open spec fn is_pulled(before: int, bonus: int, after: int) -> bool {
    let given_up = before + bonus - after;
    &&& bonus >= 16384 ==> after == 16384
    &&& bonus <= -16384 ==> after == -16384
    &&& 0 <= bonus < 16384 && before >= 0 ==> 16384 * given_up <= before * bonus < 16384 * (given_up
        + 1)
    &&& 0 <= bonus < 16384 && before < 0 ==> 16384 * -given_up <= -before * bonus < 16384 * (
    -given_up + 1)
    &&& -16384 < bonus < 0 && before >= 0 ==> 16384 * given_up <= before * -bonus < 16384 * (
    given_up + 1)
    &&& -16384 < bonus < 0 && before < 0 ==> 16384 * -given_up <= before * bonus < 16384 * (
    -given_up + 1)
}

pub proof fn lemma_is_pulled(before: int, bonus: int)
    requires
        -16384 <= before <= 16384,
    ensures
        is_pulled(before, bonus, gravity_of(before, bonus)),
        -16384 <= gravity_of(before, bonus) <= 16384,
{
    gravity_stays_bounded(before, bonus);
    let b = clamp_to(bonus, -16384, 16384);
    let w = magnitude_of(b);
    let p = before * w;
    if w == 16384 {
        assert(trunc(before * 16384, 16384) == before);
    } else {
        assert(-before * bonus == -(before * bonus)) by (nonlinear_arith);
        assert(before * -bonus == -(before * bonus)) by (nonlinear_arith);
        assert(if before >= 0 {
            p >= 0
        } else {
            p <= 0
        }) by (nonlinear_arith)
            requires
                p == before * w,
                w >= 0,
        ;
        assert(p == if bonus >= 0 {
            before * bonus
        } else {
            before * -bonus
        });
    }
}

/// Law: an update of the main history moves the score of that side's moves between those
/// squares, as the bonus pulls it, and no other score.
pub proof fn a_main_update_moves_one_score(
    h: &mut Histories,
    c: Color,
    m: Move,
    bonus: i32,
    c2: Color,
    m2: Move,
    before: i32,
    after: i32,
)
    requires
        h.ok(),
        m.from().valid(),
        m.to().valid(),
        m2.from().valid(),
        m2.to().valid(),
        call_ensures(Histories::update_main, (h, c, m, bonus), ()),
        call_ensures(Histories::main_score, (&*old(h), c2, m2), before),
        call_ensures(Histories::main_score, (&*final(h), c2, m2), after),
    ensures
        c2 == c && m2.from() == m.from() && m2.to() == m.to() ==> is_pulled(
            before as int,
            bonus as int,
            after as int,
        ),
        !(c2 == c && m2.from() == m.from() && m2.to() == m.to()) ==> after == before,
{
    lemma_is_pulled(old(h).main@[main_cell(c, m)] as int, bonus as int);
}

/// Law: the same of the history by pawn structure, of which keys share a part when they
/// agree modulo 512.
pub proof fn a_pawn_update_moves_one_score(
    h: &mut Histories,
    key: u64,
    p: Piece,
    to: Square,
    bonus: i32,
    key2: u64,
    p2: Piece,
    to2: Square,
    before: i32,
    after: i32,
)
    requires
        h.ok(),
        p.valid(),
        to.valid(),
        p2.valid(),
        to2.valid(),
        call_ensures(Histories::update_pawn, (h, key, p, to, bonus), ()),
        call_ensures(Histories::pawn_score, (&*old(h), key2, p2, to2), before),
        call_ensures(Histories::pawn_score, (&*final(h), key2, p2, to2), after),
    ensures
        key2 % 512 == key % 512 && p2 == p && to2 == to ==> is_pulled(
            before as int,
            bonus as int,
            after as int,
        ),
        !(key2 % 512 == key % 512 && p2 == p && to2 == to) ==> after == before,
{
    lemma_is_pulled(old(h).pawn@[pawn_cell(key, p, to)] as int, bonus as int);
}

/// Law: the same of the capture history.
pub proof fn a_capture_update_moves_one_score(
    h: &mut Histories,
    p: Piece,
    to: Square,
    victim: PieceType,
    bonus: i32,
    p2: Piece,
    to2: Square,
    victim2: PieceType,
    before: i32,
    after: i32,
)
    requires
        h.ok(),
        p.valid(),
        to.valid(),
        p2.valid(),
        to2.valid(),
        call_ensures(Histories::update_capture, (h, p, to, victim, bonus), ()),
        call_ensures(Histories::capture_score, (&*old(h), p2, to2, victim2), before),
        call_ensures(Histories::capture_score, (&*final(h), p2, to2, victim2), after),
    ensures
        p2 == p && to2 == to && victim2 == victim ==> is_pulled(
            before as int,
            bonus as int,
            after as int,
        ),
        !(p2 == p && to2 == to && victim2 == victim) ==> after == before,
{
    lemma_is_pulled(old(h).capture@[capture_at(p, to, victim)] as int, bonus as int);
}

/// Law: the same of the continuation history.
pub proof fn a_continuation_update_moves_one_score(
    h: &mut Histories,
    plane: usize,
    p: Piece,
    to: Square,
    bonus: i32,
    plane2: usize,
    p2: Piece,
    to2: Square,
    before: i32,
    after: i32,
)
    requires
        h.ok(),
        plane < 1600,
        plane2 < 1600,
        p.valid(),
        to.valid(),
        p2.valid(),
        to2.valid(),
        call_ensures(Histories::update_cont, (h, plane, p, to, bonus), ()),
        call_ensures(Histories::cont_score, (&*old(h), plane2, p2, to2), before),
        call_ensures(Histories::cont_score, (&*final(h), plane2, p2, to2), after),
    ensures
        plane2 == plane && p2 == p && to2 == to ==> is_pulled(
            before as int,
            bonus as int,
            after as int,
        ),
        !(plane2 == plane && p2 == p && to2 == to) ==> after == before,
{
    lemma_is_pulled(old(h).cont@[cont_cell(plane as int, p, to)] as int, bonus as int);
}

/// Law: a counter move set is the one read back, and no other changes.
pub proof fn a_counter_move_is_kept(
    h: &mut Histories,
    plane: usize,
    m: Move,
    other: usize,
    before: Move,
    after: Move,
    kept: Move,
)
    requires
        h.ok(),
        plane < 1600,
        other < 1600,
        m.compact(),
        call_ensures(Histories::set_counter_move, (h, plane, m), ()),
        call_ensures(Histories::counter_move, (&*final(h), plane), kept),
        call_ensures(Histories::counter_move, (&*old(h), other), before),
        call_ensures(Histories::counter_move, (&*final(h), other), after),
    ensures
        kept == m,
        other != plane ==> after == before,
{
}

/// Law: each piece and destination has a plane of its own.
pub proof fn planes_are_distinct(p: Piece, to: Square, p2: Piece, to2: Square, r: usize, r2: usize)
    requires
        p.valid(),
        to.valid(),
        p2.valid(),
        to2.valid(),
        call_ensures(cont_index, (p, to), r),
        call_ensures(cont_index, (p2, to2), r2),
    ensures
        r < 1600,
        r == r2 ==> p == p2 && to == to2,
{
}

/// Law: a capture is filed under its victim, and a promotion without one apart from all
/// victims that there are.
pub proof fn victims_are_told_apart(captured: Piece, r: PieceType)
    requires
        captured.valid() || captured == Piece::none(),
        call_ensures(victim_axis, (captured,), r),
    ensures
        captured.0 < 16 ==> r.idx() == captured.0 % 8,
        captured.0 == 16 ==> r == PieceType::King,
{
}

/// Law: a blank memory corrects nothing. A correction is three parts what the pawn
/// structure and two parts what the last move says, in 256ths, with fractions dropped;
/// after a pass the move says nothing.
pub proof fn a_correction_is_a_weighted_mean(h: Histories, b: Board, prev: usize, p: int, k: int, r: i32)
    requires
        h.ok(),
        prev <= 1600,
        call_ensures(Histories::correction, (&h, &b, prev), r),
        p == h.pawn_corr@[(if b.stm == Color::White { 0int } else { 16384 }) + b.pawn_key % 16384],
        k == if prev == 1600 {
            0
        } else {
            h.cont_corr@[2 * prev + (if b.stm == Color::White { 0int } else { 1 })] as int
        },
    ensures
        3 * p + 2 * k >= 0 ==> 1280 * r <= 3 * p + 2 * k < 1280 * (r + 1),
        3 * p + 2 * k < 0 ==> 1280 * (r - 1) < 3 * p + 2 * k <= 1280 * r,
        h.blank() ==> r == 0,
{
    lemma_correction(&h, b.stm, b.pawn_key, prev);
    assert(CORR_GRAIN * (CORR_PAWN_W + CORR_CONT_W) == 1280);
}

/// `after` is a correction `before` drawn towards a difference of `diff`, by `weight` parts in
/// 256, in 256ths and within 32 either way.
pub open spec fn is_drawn_to(before: int, diff: int, weight: int, after: int) -> bool {
    let sum = before * (256 - weight) + diff * 256 * weight;
    &&& -8192 <= after <= 8192
    &&& 0 <= sum < 256 * 8192 ==> 256 * after <= sum < 256 * (after + 1)
    &&& -256 * 8192 < sum <= 0 ==> 256 * (after - 1) < sum <= 256 * after
    &&& sum >= 256 * 8192 ==> after == 8192
    &&& sum <= -256 * 8192 ==> after == -8192
}

pub proof fn lemma_drawn_to(before: int, diff: int, depth: int)
    requires
        depth >= -1,
    ensures
        is_drawn_to(
            before,
            diff,
            if depth < 15 {
                depth + 1
            } else {
                16
            },
            blended(before, diff, depth),
        ),
{
}

/// Law: a deeper search draws a correction further towards the difference that it found, by
/// one part in 256 for each ply and one more, sixteen at most. Only the pawn structure
/// and the last move of the board are told.
pub proof fn a_correction_is_drawn_to_the_difference(
    h: &mut Histories,
    b: Board,
    prev: usize,
    diff: i32,
    depth: i32,
    i: int,
    j: int,
)
    requires
        h.ok(),
        prev <= 1600,
        -523_807 <= diff <= 523_807,
        -1 <= depth < i32::MAX,
        call_ensures(Histories::update_correction, (h, &b, prev, diff, depth), ()),
        0 <= i < 32768,
        0 <= j < 3200,
    ensures
        ({
            let weight = if depth < 15 {
                depth + 1
            } else {
                16
            };
            let side = if b.stm == Color::White {
                0int
            } else {
                1
            };
            &&& if i == 16384 * side + b.pawn_key % 16384 {
                is_drawn_to(
                    old(h).pawn_corr@[i] as int,
                    diff as int,
                    weight,
                    final(h).pawn_corr@[i] as int,
                )
            } else {
                final(h).pawn_corr@[i] == old(h).pawn_corr@[i]
            }
            &&& if prev != 1600 && j == 2 * prev + side {
                is_drawn_to(
                    old(h).cont_corr@[j] as int,
                    diff as int,
                    weight,
                    final(h).cont_corr@[j] as int,
                )
            } else {
                final(h).cont_corr@[j] == old(h).cont_corr@[j]
            }
        }),
{
    lemma_drawn_to(old(h).pawn_corr@[i] as int, diff as int, depth as int);
    lemma_drawn_to(old(h).cont_corr@[j] as int, diff as int, depth as int);
}

/// Law: a cleared memory says nothing of any move.
pub proof fn a_cleared_memory_is_blank(
    h: &mut Histories,
    c: Color,
    m: Move,
    key: u64,
    p: Piece,
    victim: PieceType,
    plane: usize,
    own: i32,
    pawn: i32,
    capture: i32,
    cont: i32,
    counter: Move,
)
    requires
        m.from().valid(),
        m.to().valid(),
        p.valid(),
        plane < 1600,
        call_ensures(Histories::clear, (h,), ()),
        call_ensures(Histories::main_score, (&*final(h), c, m), own),
        call_ensures(Histories::pawn_score, (&*final(h), key, p, m.to()), pawn),
        call_ensures(Histories::capture_score, (&*final(h), p, m.to(), victim), capture),
        call_ensures(Histories::cont_score, (&*final(h), plane, p, m.to()), cont),
        call_ensures(Histories::counter_move, (&*final(h), plane), counter),
    ensures
        own == 0,
        pawn == 0,
        capture == 0,
        cont == 0,
        counter.0 == 0,
{
    assert(0 <= main_cell(c, m) < 20000);
    assert(0 <= pawn_cell(key, p, m.to()) < 819200);
    assert(0 <= capture_at(p, m.to(), victim) < 12800);
    assert(0 <= cont_cell(plane as int, p, m.to()) < 2560000);
}

} // verus!
