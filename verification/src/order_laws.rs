//! In which order moves come, and what the search learns from them.

use vstd::prelude::*;

use crate::movegen_laws::generated_exactly_legal;
use crate::attacks::Tables;
use crate::board::{Board, BoardView};
use crate::history::{
    Conts, HistView, Histories, NULL_CONT, capture_at, capture_cells_are_distinct, clamp_to,
    cont_cell, conts_ok, gravity_of, main_cell, pawn_cell,
};
use crate::history_laws::{is_pulled, lemma_is_pulled};
use crate::movegen::{GEN_CAPTURES, GEN_QUIETS, MoveList, gen_of, moves_of, swapped};
use crate::movepick::{
    MovePicker, a_run_goes_by_stages, all_legal, capture_cell, in_tail, is_full_run, is_noisy,
    mvv, mvv_of, victim_by,
};

use crate::position::{king_of, lemma_king_of, lemma_piece, promo_open, reaches};
use crate::rules::{a_pawn_becomes_what_is_missing, check_is_a_struck_king, is_missing, is_struck};
use crate::score::adjust;
use crate::searcher::{
    Searcher, captures_debited, conts_credited, cutoff_recorded, quiet_credited, quiets_debited,
};
use crate::see::{LEAST_THRESHOLD, see_ge};

use crate::types::{Color, Move, Piece, PieceType, Square};

verus! {

/// Law: picking the best brings a move with the greatest score to the front, the first of
/// several, and swaps it with the one that stood there.
pub proof fn the_best_move_is_picked(l: &mut MoveList, start: usize, i: int, r: Move)
    requires
        l.ok(),
        start < l@.len(),
        start <= i < l@.len(),
        call_ensures(MoveList::pick_best, (l, start), r),
    ensures
        final(l)@.len() == old(l)@.len(),
        r == final(l)@[start as int],
        final(l).scores@[start as int] >= old(l).scores@[i],
        old(l).scores@[i] == final(l).scores@[start as int] ==> exists|k: int|
            start <= k <= i && #[trigger] old(l)@[k] == r,
        forall|k: int| 0 <= k < start ==> #[trigger] final(l)@[k] == old(l)@[k],
{
    let best = choose|best: int| #[trigger]
        old(l).is_best(start as int, best) && final(l)@ == swapped(old(l)@, start as int, best)
            && final(l).scores@ == swapped(old(l).scores@, start as int, best);
    assert(final(l).scores@[start as int] == old(l).scores@[best]);
    assert(old(l)@[best] == r);
    if i < best {
        assert(old(l).scores@[i] < old(l).scores@[best]);
    }
}

/// The move takes something or promotes.
pub open spec fn is_forcing(q: Seq<Piece>, m: Move) -> bool {
    q[m.to().0 as int].0 < 16 || m.0 / 16384 % 8 != 0 || m.0 / 131072 % 2 == 1
}

/// Law: a picker out of check starts with the hash move; captures and promotions that
/// lose nothing come before all quiet moves, and those that lose after them; among the
/// quiet moves the killers come first, then the counter move.
pub proof fn in_which_order_moves_come(
    ps: Seq<MovePicker>,
    ms: Seq<Move>,
    b: Board,
    tables: Tables,
    h: Histories,
    c: Conts,
    tt: Move,
    killers: [Move; 2],
    counter: Move,
    i: int,
    j: int,
    sound_i: bool,
    sound_j: bool,
)
    requires
        b.wf(),
        !is_struck(b.q(), b.stm),
        call_ensures(MovePicker::new, (tt, killers, counter, false), ps[0]),
        ps[0].writes_compactly(),
        ps[0].roomy(&b),
        is_full_run(ps, ms, &b, &h, &c, false),
        0 <= i < ms.len(),
        0 <= j < ms.len(),
        ms[i] != ms[j],
        call_ensures(see_ge, (&b, &tables, ms[i], 0), sound_i),
        call_ensures(see_ge, (&b, &tables, ms[j], 0), sound_j),
    ensures
        ms[i] == tt ==> i < j,
        ms[j] != tt && is_forcing(b.q(), ms[i]) && sound_i && !is_forcing(b.q(), ms[j]) ==> i < j,
        ms[j] != tt && !is_forcing(b.q(), ms[i]) && is_forcing(b.q(), ms[j]) && !sound_j ==> i < j,
        ms[j] != tt && ms[i] == killers[0] && !is_forcing(b.q(), ms[i]) && !is_forcing(b.q(), ms[j])
            ==> i < j,
        ms[j] != tt && ms[j] != killers[0] && ms[i] == killers[1] && !is_forcing(b.q(), ms[i])
            && !is_forcing(b.q(), ms[j]) ==> i < j,
        ms[j] != tt && ms[j] != killers[0] && ms[j] != killers[1] && ms[i] == counter && !is_forcing(
            b.q(),
            ms[i],
        ) && !is_forcing(b.q(), ms[j]) ==> i < j,
{
    lemma_king_of(b.q(), b.stm);
    check_is_a_struck_king(b.q(), b.stm, king_of(b.q(), b.stm));
    a_run_goes_by_stages(ps, ms, &b, &h, &c);
    assert(ms.contains(ms[i]) && ms.contains(ms[j]));
    lemma_forcing(b, ms[i]);
    lemma_forcing(b, ms[j]);
    if j < i {
        assert(ps[0].rank_of(&b, ms[j]) <= ps[0].rank_of(&b, ms[i]));
    }
}

proof fn lemma_forcing(b: Board, m: Move)
    requires
        b.wf(),
        b.legal_here(m),
    ensures
        is_forcing(b.q(), m) == is_noisy(b.q(), m),
        b.legal_here(m) ==> reaches(b.q(), b.stm, b.ep, m),
{
    lemma_piece(b.q()[m.to().0 as int]);
}

/// Law: captures and promotions that lose nothing come by what they win, sixteen times,
/// and their history; the other quiet moves by their history, with squares, pawns and
/// each of the four moves before.
pub proof fn captures_come_by_their_victims(
    ps: Seq<MovePicker>,
    ms: Seq<Move>,
    b: Board,
    tables: Tables,
    h: Histories,
    c: Conts,
    tt: Move,
    killers: [Move; 2],
    counter: Move,
    i: int,
    j: int,
    win_i: i32,
    win_j: i32,
    cell_i: (Piece, Square, PieceType),
    cell_j: (Piece, Square, PieceType),
    hist_i: i32,
    hist_j: i32,
)
    requires
        b.wf(),
        h.ok(),
        !is_struck(b.q(), b.stm),
        call_ensures(MovePicker::new, (tt, killers, counter, false), ps[0]),
        ps[0].writes_compactly(),
        ps[0].roomy(&b),
        is_full_run(ps, ms, &b, &h, &c, false),
        0 <= i < j < ms.len(),
        ms[i] != tt,
        ms[j] != tt,
        is_forcing(b.q(), ms[i]),
        is_forcing(b.q(), ms[j]),
        call_ensures(see_ge, (&b, &tables, ms[i], 0), true),
        call_ensures(see_ge, (&b, &tables, ms[j], 0), true),
        call_ensures(mvv, (&b, ms[i]), win_i),
        call_ensures(mvv, (&b, ms[j]), win_j),
        call_ensures(capture_cell, (&b, ms[i]), cell_i),
        call_ensures(capture_cell, (&b, ms[j]), cell_j),
        call_ensures(Histories::capture_score, (&h, cell_i.0, cell_i.1, cell_i.2), hist_i),
        call_ensures(Histories::capture_score, (&h, cell_j.0, cell_j.1, cell_j.2), hist_j),
    ensures
        16 * win_i + hist_i >= 16 * win_j + hist_j,
{
    lemma_king_of(b.q(), b.stm);
    check_is_a_struck_king(b.q(), b.stm, king_of(b.q(), b.stm));
    a_run_goes_by_stages(ps, ms, &b, &h, &c);
    assert(ms.contains(ms[i]) && ms.contains(ms[j]));
    lemma_forcing(b, ms[i]);
    lemma_forcing(b, ms[j]);
    assert(ps[0].rank_of(&b, ms[i]) == 1);
    assert(ps[0].rank_of(&b, ms[j]) == 1);
}

/// What the tables say of a quiet move after up to four moves, of which a pass says nothing.
pub open spec fn is_quiet_history(b: Board, h: Histories, c: Conts, m: Move, total: int) -> bool {
    exists|own: i32, pawn: i32, one: i32, two: i32, three: i32, four: i32|
        #![trigger is_sum_of(total, own, pawn, one, two, three, four)]
        {
            let p = b.mailbox[m.from().0 as int];
            &&& is_sum_of(total, own, pawn, one, two, three, four)
            &&& call_ensures(Histories::main_score, (&h, b.stm, m), own)
            &&& call_ensures(Histories::pawn_score, (&h, b.pawn_key, p, m.to()), pawn)
            &&& if c[0] == 1600 { one == 0 } else { call_ensures(Histories::cont_score, (&h, c[0], p, m.to()), one) }
            &&& if c[1] == 1600 { two == 0 } else { call_ensures(Histories::cont_score, (&h, c[1], p, m.to()), two) }
            &&& if c[2] == 1600 { three == 0 } else {
                call_ensures(Histories::cont_score, (&h, c[2], p, m.to()), three)
            }
            &&& if c[3] == 1600 { four == 0 } else {
                call_ensures(Histories::cont_score, (&h, c[3], p, m.to()), four)
            }
        }
}

pub open spec fn is_sum_of(total: int, own: i32, pawn: i32, one: i32, two: i32, three: i32, four: i32) -> bool {
    total == own + pawn + one + two + three + four
}

/// Law: quiet moves other than the hash move, the killers and the counter move come by
/// their history.
pub proof fn quiet_moves_come_by_their_history(
    ps: Seq<MovePicker>,
    ms: Seq<Move>,
    b: Board,
    h: Histories,
    c: Conts,
    tt: Move,
    killers: [Move; 2],
    counter: Move,
    i: int,
    j: int,
    total_i: int,
    total_j: int,
)
    requires
        b.wf(),
        h.ok(),
        !is_struck(b.q(), b.stm),
        call_ensures(MovePicker::new, (tt, killers, counter, false), ps[0]),
        ps[0].writes_compactly(),
        ps[0].roomy(&b),
        is_full_run(ps, ms, &b, &h, &c, false),
        0 <= i < j < ms.len(),
        ms[i] != tt && ms[i] != killers[0] && ms[i] != killers[1] && ms[i] != counter,
        ms[j] != tt && ms[j] != killers[0] && ms[j] != killers[1] && ms[j] != counter,
        !is_forcing(b.q(), ms[i]),
        !is_forcing(b.q(), ms[j]),
        is_quiet_history(b, h, c, ms[i], total_i),
        is_quiet_history(b, h, c, ms[j], total_j),
    ensures
        total_i >= total_j,
{
    lemma_king_of(b.q(), b.stm);
    check_is_a_struck_king(b.q(), b.stm, king_of(b.q(), b.stm));
    a_run_goes_by_stages(ps, ms, &b, &h, &c);
    assert(ms.contains(ms[i]) && ms.contains(ms[j]));
    lemma_forcing(b, ms[i]);
    lemma_forcing(b, ms[j]);
    assert(ps[0].rank_of(&b, ms[i]) == 5);
    assert(ps[0].rank_of(&b, ms[j]) == 5);
    lemma_quiet_history(b, h, c, ms[i], total_i);
    lemma_quiet_history(b, h, c, ms[j], total_j);
}

proof fn lemma_quiet_history(b: Board, h: Histories, c: Conts, m: Move, total: int)
    requires
        is_quiet_history(b, h, c, m, total),
    ensures
        total == MovePicker::quiet_order(b.q(), b.stm, b.pawn_key, &h, c, m),
{
    reveal_with_fuel(MovePicker::cont_sum, 5);
}

/// Law: among the ways out of check the hash move comes before any capture or promotion, and
/// any of those before every quiet move.
pub proof fn in_which_order_evasions_come(b: Board, h: Histories, c: Conts, tt: Move, m: Move, x: Move)
    requires
        b.wf(),
        h.ok(),
        conts_ok(c),
        b.legal_here(m),
        b.legal_here(x),
        m != tt,
        x != tt,
        is_forcing(b.q(), m),
        !is_forcing(b.q(), x),
    ensures
        MovePicker::evasion_order(b.q(), b.stm, b.pawn_key, &h, c, tt, tt)
            > MovePicker::evasion_order(b.q(), b.stm, b.pawn_key, &h, c, tt, m),
        MovePicker::evasion_order(b.q(), b.stm, b.pawn_key, &h, c, tt, m)
            > MovePicker::evasion_order(b.q(), b.stm, b.pawn_key, &h, c, tt, x),
{
    lemma_forcing(b, m);
    lemma_forcing(b, x);
    let q = b.q();
    reveal_with_fuel(MovePicker::cont_sum, 5);
    lemma_piece(q[m.from().0 as int]);
    lemma_piece(q[x.from().0 as int]);
    lemma_piece(q[m.to().0 as int]);
    let px = q[x.from().0 as int];
    let f = x.from().0 as int;
    let t = x.to().0 as int;
    assert(0 <= main_cell(b.stm, x) < 20000);
    assert(0 <= pawn_cell(b.pawn_key, px, x.to()) < 819200);
    assert forall|k: int| 0 <= k < 4 && c[k] != 1600 implies -16384
        <= h.cont@[#[trigger] cont_cell(c[k] as int, px, x.to())] <= 16384 by {
        assert(c[k] <= 1600);
        assert(0 <= cont_cell(c[k] as int, px, x.to()) < 2560000);
    }
    if c[0] != 1600 {
        assert(-16384 <= h.cont@[cont_cell(c[0] as int, px, x.to())] <= 16384);
    }
    if c[1] != 1600 {
        assert(-16384 <= h.cont@[cont_cell(c[1] as int, px, x.to())] <= 16384);
    }
    if c[2] != 1600 {
        assert(-16384 <= h.cont@[cont_cell(c[2] as int, px, x.to())] <= 16384);
    }
    if c[3] != 1600 {
        assert(-16384 <= h.cont@[cont_cell(c[3] as int, px, x.to())] <= 16384);
    }
    assert(0 <= capture_at(q[m.from().0 as int], m.to(), victim_by(q, m)) < 12800);
    assert(-100 <= mvv_of(q, m) <= 1898);
}

// -- what is learnt ------------------------------------------------------------------

/// The credit for failing high at `depth`: 137 for each ply less 118, between 0 and 1900.
pub open spec fn is_credit(depth: int, bonus: int) -> bool {
    0 <= bonus <= 1900 && (bonus == 137 * depth - 118 || (bonus == 0 && 137 * depth <= 118) || (bonus == 1900
        && 137 * depth >= 2018))
}

/// The debit of what was tried before: 149 for each ply less 55, between 0 and 1400.
pub open spec fn is_debit(depth: int, malus: int) -> bool {
    0 <= malus <= 1400 && (malus == 149 * depth - 55 || (malus == 0 && 149 * depth <= 55) || (malus == 1400
        && 149 * depth >= 1455))
}

/// Law: a quiet move that fails high before any other is credited by its squares, in full
/// with the pawns; it becomes the first killer and the counter move to the last move. No
/// other score by squares changes.
pub proof fn a_quiet_move_that_fails_high_is_credited(
    s: &mut Searcher,
    best: Move,
    depth: i32,
    ply: usize,
    killers: [Move; 2],
    none: Vec<Move>,
    bonus: int,
    other: Move,
)
    requires
        s.tables_ok(),
        s.board.wf(),
        s.board.legal_here(best),
        best.compact(),
        killers[0].compact(),
        killers[1].compact(),
        -10_000 <= depth <= 10_000,
        ply <= 250,
        none@.len() == 0,
        !is_forcing(s.board.q(), best),
        is_credit(depth as int, bonus),
        other.from().valid(),
        other.to().valid(),
        call_ensures(Searcher::update_histories, (s, best, depth, ply, killers, &none, &none), ()),
    ensures
        ({
            let side = if old(s).board.stm == Color::White { 0int } else { 10000 };
            let cell = side + 100 * best.from().0 + best.to().0;
            let elsewhere = side + 100 * other.from().0 + other.to().0;
            let last = old(s).ss@[ply + 7].cont_idx;
            &&& is_pulled(old(s).hist.main@[cell] as int, bonus, final(s).hist.main@[cell] as int)
            &&& elsewhere != cell ==> final(s).hist.main@[elsewhere] == old(s).hist.main@[elsewhere]
            &&& last != 1600 ==> final(s).hist.counter@[last as int] == best
            &&& final(s).ss@[ply + 8].killers[0] == best
            &&& killers[0] != best ==> final(s).ss@[ply + 8].killers[1] == killers[0]
            &&& final(s).hist.capture@ == old(s).hist.capture@
        }),
{
    let b = old(s).board;
    lemma_forcing(b, best);
    let h = old(s).hist@;
    let c = old(s).planes(ply as int);
    let cell = main_cell(b.stm, best);
    lemma_is_pulled(h.main[cell] as int, bonus);
    assert(bonus == clamp_to(137 * depth - 118, 0, 1900));
    assert(final(s).hist@ == cutoff_recorded(h, b@, c, best, depth as int, none@, none@));
    let last = old(s).ss@[ply + 7].cont_idx;
    assert(c[0] == last);
    assert(old(s).ss@[ply + 7].ok());
    assert(final(s).hist.main@ == h.main.update(cell, gravity_of(h.main[cell] as int, bonus) as i16));
}

/// Law: each further quiet move that was tried before the one that fails high is debited
/// by its squares.
pub proof fn a_quiet_move_that_failed_is_debited(
    s: &mut Searcher,
    n: &mut Searcher,
    best: Move,
    depth: i32,
    ply: usize,
    killers: [Move; 2],
    tried: Vec<Move>,
    more: Vec<Move>,
    captures: Vec<Move>,
    m: Move,
    malus: int,
    other: Move,
)
    requires
        s.tables_ok(),
        s.board.wf(),
        s.board.legal_here(best),
        best.compact(),
        killers[0].compact(),
        killers[1].compact(),
        -10_000 <= depth <= 10_000,
        ply <= 250,
        all_legal(&s.board, tried@),
        all_legal(&s.board, captures@),
        s.board.legal_here(m),
        m != best,
        more@ == tried@.push(m),
        *old(n) == *old(s),
        !is_forcing(s.board.q(), best),
        is_debit(depth as int, malus),
        other.from().valid(),
        other.to().valid(),
        call_ensures(Searcher::update_histories, (s, best, depth, ply, killers, &tried, &captures), ()),
        call_ensures(Searcher::update_histories, (n, best, depth, ply, killers, &more, &captures), ()),
    ensures
        ({
            let side = if old(s).board.stm == Color::White { 0int } else { 10000 };
            let cell = side + 100 * m.from().0 + m.to().0;
            let elsewhere = side + 100 * other.from().0 + other.to().0;
            &&& is_pulled(final(s).hist.main@[cell] as int, -malus, final(n).hist.main@[cell] as int)
            &&& elsewhere != cell ==> final(n).hist.main@[elsewhere] == final(s).hist.main@[elsewhere]
        }),
{
    let b = old(s).board;
    lemma_forcing(b, best);
    let h = old(s).hist@;
    let c = old(s).planes(ply as int);
    let cell = main_cell(b.stm, m);
    assert(malus == clamp_to(149 * depth - 55, 0, 1400));
    let bonus = clamp_to(137 * depth - 118, 0, 1900);
    let credited = quiet_credited(h, b@, c, best, bonus);
    let start = if c[0] == NULL_CONT {
        credited
    } else {
        HistView { counter: credited.counter.update(c[0] as int, best), ..credited }
    };
    let k = tried@.len() as int;
    let one = quiets_debited(start, b@, c, tried@, best, malus, k);
    let two = quiets_debited(start, b@, c, more@, best, malus, k + 1);
    lemma_debited_prefix(start, b@, c, tried@, m, best, malus, k);
    assert(two == quiet_credited(one, b@, c, m, -malus));
    lemma_captures_keep_main(one, b@, captures@, best, malus, captures@.len() as int);
    lemma_captures_keep_main(two, b@, captures@, best, malus, captures@.len() as int);
    assert(final(s).hist@.main == one.main);
    assert(final(n).hist@.main == two.main);
    assert(final(s).tables_ok());
    assert(0 <= cell < 20000);
    lemma_is_pulled(one.main[cell] as int, -malus);
}

proof fn lemma_debited_prefix(h: HistView, b: BoardView, c: Conts, ms: Seq<Move>, m: Move, best: Move, malus: int, k: int)
    requires
        0 <= k <= ms.len(),
    ensures
        quiets_debited(h, b, c, ms.push(m), best, malus, k) == quiets_debited(h, b, c, ms, best, malus, k),
    decreases k,
{
    if k > 0 {
        lemma_debited_prefix(h, b, c, ms, m, best, malus, k - 1);
    }
}

proof fn lemma_captures_keep_main(h: HistView, b: BoardView, ms: Seq<Move>, best: Move, malus: int, k: int)
    ensures
        captures_debited(h, b, ms, best, malus, k).main == h.main,
    decreases k,
{
    if k > 0 {
        lemma_captures_keep_main(h, b, ms, best, malus, k - 1);
    }
}

/// Law: crediting a quiet move credits it in full after each of the last two moves, and
/// by half after the fourth and sixth.
pub proof fn older_moves_count_half(s: &mut Searcher, m: Move, bonus: i32, ply: usize, k: int, before: i32, after: i32)
    requires
        s.tables_ok(),
        s.board.wf(),
        s.board.legal_here(m),
        0 <= bonus <= 16_000,
        ply <= 250,
        0 <= k < 4,
        call_ensures(Searcher::update_quiet_histories, (s, m, bonus, ply), ()),
        ({
            let c = [
                old(s).ss@[ply + 7].cont_idx,
                old(s).ss@[ply + 6].cont_idx,
                old(s).ss@[ply + 4].cont_idx,
                old(s).ss@[ply + 2].cont_idx,
            ];
            let p = old(s).board.mailbox[m.from().0 as int];
            &&& c[k] != 1600
            &&& forall|i: int| 0 <= i < 4 && i != k ==> #[trigger] c[i] != c[k]
            &&& call_ensures(Histories::cont_score, (&old(s).hist, c[k], p, m.to()), before)
            &&& call_ensures(Histories::cont_score, (&final(s).hist, c[k], p, m.to()), after)
        }),
    ensures
        k < 2 ==> is_pulled(before as int, bonus as int, after as int),
        k >= 2 ==> is_pulled(before as int, bonus as int / 2, after as int),
{
    let c = old(s).planes(ply as int);
    let p = old(s).board.q()[m.from().0 as int];
    lemma_piece(p);
    let h = old(s).hist@.cont;
    assert(old(s).ss@[ply + 7].ok() && old(s).ss@[ply + 6].ok() && old(s).ss@[ply + 4].ok() && old(
        s,
    ).ss@[ply + 2].ok());
    reveal_with_fuel(conts_credited, 5);
    let cell = cont_cell(c[k] as int, p, m.to());
    assert(0 <= cell < 2560000);
    assert forall|i: int| 0 <= i < 4 && i != k implies #[trigger] cont_cell(c[i] as int, p, m.to()) != cell by {
        assert(c[i] != c[k]);
    }
    assert(cont_cell(c[0] as int, p, m.to()) == cell <==> k == 0);
    assert(cont_cell(c[1] as int, p, m.to()) == cell <==> k == 1);
    assert(cont_cell(c[2] as int, p, m.to()) == cell <==> k == 2);
    assert(cont_cell(c[3] as int, p, m.to()) == cell <==> k == 3);
    assert(0 <= cont_cell(c[0] as int, p, m.to()));
    lemma_is_pulled(h[cell] as int, bonus as int);
    lemma_is_pulled(h[cell] as int, bonus as int / 2);
    assert(final(s).hist@.cont == conts_credited(h, c, p, m.to(), bonus as int, 4));
}

/// Law: the best promotion is the first of queen, marshal, cardinal, rook, bishop and
/// knight that the side is missing.
pub proof fn the_best_promotion_is_the_first_missing(s: Searcher, r: Option<PieceType>)
    requires
        s.board.wf(),
        call_ensures(Searcher::best_promo, (&s,), r),
    ensures
        ({
            let (q, c) = (s.board.q(), s.board.stm);
            r == if is_missing(q, c, 4) {
                Some(PieceType::Queen)
            } else if is_missing(q, c, 5) {
                Some(PieceType::Marshal)
            } else if is_missing(q, c, 6) {
                Some(PieceType::Cardinal)
            } else if is_missing(q, c, 3) {
                Some(PieceType::Rook)
            } else if is_missing(q, c, 2) {
                Some(PieceType::Bishop)
            } else if is_missing(q, c, 1) {
                Some(PieceType::Knight)
            } else {
                None
            }
        }),
{
    let (q, c) = (s.board.q(), s.board.stm);
    a_pawn_becomes_what_is_missing(q, c, PieceType::Queen);
    a_pawn_becomes_what_is_missing(q, c, PieceType::Marshal);
    a_pawn_becomes_what_is_missing(q, c, PieceType::Cardinal);
    a_pawn_becomes_what_is_missing(q, c, PieceType::Rook);
    a_pawn_becomes_what_is_missing(q, c, PieceType::Bishop);
    a_pawn_becomes_what_is_missing(q, c, PieceType::Knight);
    a_pawn_becomes_what_is_missing(q, c, PieceType::Pawn);
    a_pawn_becomes_what_is_missing(q, c, PieceType::King);
    assert(promo_open(q, c, PieceType::Queen) == is_missing(q, c, 4));
    assert(promo_open(q, c, PieceType::Marshal) == is_missing(q, c, 5));
    assert(promo_open(q, c, PieceType::Cardinal) == is_missing(q, c, 6));
    assert(promo_open(q, c, PieceType::Rook) == is_missing(q, c, 3));
    assert(promo_open(q, c, PieceType::Bishop) == is_missing(q, c, 2));
    assert(promo_open(q, c, PieceType::Knight) == is_missing(q, c, 1));
}

/// Law: crediting a capture or promotion pulls its score by mover, square and victim, and
/// no other.
pub proof fn a_capture_is_credited(s: &mut Searcher, m: Move, bonus: i32, cell: (Piece, Square, PieceType), p: Piece, to: Square, victim: PieceType, before: i32, after: i32)
    requires
        s.tables_ok(),
        s.board.wf(),
        s.board.legal_here(m),
        call_ensures(Searcher::update_capture_history, (s, m, bonus), ()),
        call_ensures(capture_cell, (&s.board, m), cell),
        p.valid(),
        to.valid(),
        call_ensures(Histories::capture_score, (&old(s).hist, p, to, victim), before),
        call_ensures(Histories::capture_score, (&final(s).hist, p, to, victim), after),
    ensures
        (p, to, victim) == cell ==> is_pulled(before as int, bonus as int, after as int),
        (p, to, victim) != cell ==> after == before,
        final(s).hist.main@ == old(s).hist.main@,
{
    let b = old(s).board;
    let at = capture_at(cell.0, cell.1, cell.2);
    lemma_piece(cell.0);
    assert(0 <= at < 12800);
    lemma_is_pulled(old(s).hist.capture@[at] as int, bonus as int);
    if capture_at(p, to, victim) == at {
        capture_cells_are_distinct(p, to, victim, cell.0, cell.1, cell.2);
    }
}

/// Law: a search looks back on the moves one, two, four and six plies ago.
pub proof fn which_moves_are_looked_back_on(s: Searcher, ply: usize, r: Conts)
    requires
        s.tables_ok(),
        ply <= 250,
        call_ensures(Searcher::conts, (&s, ply), r),
    ensures
        r[0] == s.ss@[ply + 7].cont_idx,
        r[1] == s.ss@[ply + 6].cont_idx,
        r[2] == s.ss@[ply + 4].cont_idx,
        r[3] == s.ss@[ply + 2].cont_idx,
{
}

/// Law: the search believes the network as the fifty-move count and the corrections for
/// the pawns and the last move have it.
pub proof fn what_the_search_believes(s: Searcher, raw: i32, ply: usize, c: i32, e: i32, r: i32)
    requires
        s.tables_ok(),
        ply <= 250,
        call_ensures(Searcher::adjust_eval, (&s, raw, ply), r),
        call_ensures(Histories::correction, (&s.hist, &s.board, s.ss@[ply + 7].cont_idx), c),
        call_ensures(adjust, (raw, s.board.halfmove, c), e),
    ensures
        r == e,
{
}

/// Law: quiescence looks at captures and promotions that lose nothing, and its relative
/// against a raised beta at those that win the threshold; both without killers.
pub proof fn which_pickers_there_are(tt: Move, in_check: bool, threshold: i32, full: MovePicker, quick: MovePicker, raised: MovePicker)
    requires
        threshold >= LEAST_THRESHOLD,
        call_ensures(MovePicker::new, (tt, [Move(0u32), Move(0u32)], Move(0u32), in_check), full),
        call_ensures(MovePicker::new_qsearch, (tt, in_check), quick),
        call_ensures(MovePicker::new_probcut, (tt, threshold), raised),
    ensures
        full.tt_move == tt && quick.tt_move == tt && raised.tt_move == tt,
        !full.noisy_only && quick.noisy_only && raised.noisy_only,
        quick.stage == full.stage,
        full.see_threshold == 0 && quick.see_threshold == 0 && raised.see_threshold == threshold,
        quick.killers[0].0 == 0 && quick.killers[1].0 == 0 && quick.counter.0 == 0,
{
}

/// Law: what a new picker will hand out, out of check: every legal move; where quiet
/// moves are skipped, the hash move, captures and promotions; in quiescence captures and
/// promotions that lose nothing; and against a raised beta those that win the threshold.
pub proof fn what_a_picker_will_hand_out(
    b: Board,
    tables: Tables,
    tt: Move,
    killers: [Move; 2],
    counter: Move,
    threshold: i32,
    full: MovePicker,
    quick: MovePicker,
    raised: MovePicker,
    m: Move,
    sound: bool,
    wins: bool,
)
    requires
        b.wf(),
        threshold >= LEAST_THRESHOLD,
        call_ensures(MovePicker::new, (tt, killers, counter, false), full),
        call_ensures(MovePicker::new_qsearch, (tt, false), quick),
        call_ensures(MovePicker::new_probcut, (tt, threshold), raised),
        tt.compact(),
        killers[0].compact(),
        killers[1].compact(),
        counter.compact(),
        m.compact(),
        b.legal_here(m) ==> call_ensures(see_ge, (&b, &tables, m, 0), sound),
        b.legal_here(m) ==> call_ensures(see_ge, (&b, &tables, m, threshold), wins),
    ensures
        full.to_come(&b, false, m) <==> b.legal_here(m),
        full.to_come(&b, true, m) <==> b.legal_here(m) && (m == tt || is_forcing(b.q(), m)),
        quick.to_come(&b, false, m) <==> b.legal_here(m) && is_forcing(b.q(), m) && sound,
        raised.to_come(&b, false, m) <==> b.legal_here(m) && is_forcing(b.q(), m) && wins,
{
    generated_exactly_legal(gen_of(&b, GEN_CAPTURES));
    generated_exactly_legal(gen_of(&b, GEN_QUIETS));
    assert(!in_tail(full.bad@, full.bad_idx as int, m));
    assert(moves_of(gen_of(&b, GEN_CAPTURES)).contains(m) <==> b.legal_here(m) && is_noisy(b.q(), m));
    assert(moves_of(gen_of(&b, GEN_QUIETS)).contains(m) <==> b.legal_here(m) && !is_noisy(b.q(), m));
    if b.legal_here(m) {
        lemma_forcing(b, m);
    }
}

/// Law: asked for the next move, a picker with room hands out one that is to come and
/// takes it off, and nothing only where none is to come.
pub proof fn the_next_move_is_one_to_come(
    p: &mut MovePicker,
    b: Board,
    tables: Tables,
    h: Histories,
    c: Conts,
    skip: bool,
    r: Option<Move>,
    x: Move,
)
    requires
        b.wf(),
        h.ok(),
        conts_ok(c),
        p.serves(&b),
        p.roomy(&b),
        call_ensures(MovePicker::next, (p, &b, &tables, &h, &c, skip), r),
    ensures
        r matches Some(m) ==> old(p).to_come(&b, skip, m) && (final(p).to_come(&b, skip, x) <==> old(p).to_come(
            &b,
            skip,
            x,
        ) && x != m),
        r is None ==> !old(p).to_come(&b, skip, x),
{
    reveal(MovePicker::is_next);
}

} // verus!
