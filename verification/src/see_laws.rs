//! What the exchange value promises, by who guards the square.

use vstd::prelude::*;

use crate::squareset::{bit, group_bits, lemma_bits_equal};
use crate::geometry::{king_att, knight_att, on_ray, pawn_att};
use crate::attacks::Tables;
use crate::board::Board;


use crate::play::lemma_moved;
use crate::position::{
    attacker, col_at, is_placement, lemma_occ_of, lemma_piece, lemma_piece_on, moved, occ_of,
    reaches,
};
use crate::rules::{
    hits, is_after, is_own, lemma_may_move, lemma_moved_is_after, lemma_number, may_move,
    move_number, pieces_attack_as_they_strike,
};
use crate::see::{
    any_strikes, can_take, cheapest, exchange, first_striker, is_first_striker,
    lemma_exchange_bounds, lemma_without, piece_value, see_ge, see_value, standing_value, strikes,
    taken_value, without,
};
use crate::types::{Color, Move, Piece, PieceType};

verus! {

broadcast use {group_bits, lemma_occ_of};

/// The worth of a piece by the number of its type.
pub open spec fn worth_of(kind: int) -> int {
    if kind == 0 {
        100
    } else if kind == 1 {
        298
    } else if kind == 2 {
        345
    } else if kind == 3 {
        542
    } else if kind == 4 {
        999
    } else if kind == 5 {
        860
    } else if kind == 6 {
        703
    } else {
        0
    }
}

/// `c`'s piece on `a` guards `s`.
pub open spec fn guards(q: Seq<Piece>, c: Color, s: int, a: int) -> bool {
    is_own(q, c, a) && hits(q, a, s)
}

/// What a move takes: the victim, and what a pawn gains by turning into something.
pub open spec fn gain_of(q: Seq<Piece>, t: int, kind: int, passing: bool) -> int {
    (if passing {
        100
    } else if q[t].0 < 16 {
        worth_of(q[t].0 as int % 8)
    } else {
        0
    }) + (if kind == 0 {
        0
    } else {
        worth_of(kind) - 100
    })
}

/// What then stands to be lost.
pub open spec fn stake_of(q: Seq<Piece>, f: int, kind: int) -> int {
    if kind == 0 {
        worth_of(q[f].0 as int % 8)
    } else {
        worth_of(kind)
    }
}

/// `m` is the move from `f` to `t` that the rules allow on `b`, and leads to `q2`.
pub open spec fn plays_to(
    b: Board,
    m: Move,
    f: int,
    t: int,
    kind: int,
    passing: bool,
    q2: Seq<Piece>,
) -> bool {
    &&& b.wf()
    &&& 0 <= f < 100
    &&& 0 <= t < 100
    &&& 0 <= kind < 8
    &&& m.0 == move_number(f, t, kind, passing)
    &&& may_move(b.q(), b.stm, b.ep, f, t, kind, passing)
    &&& is_after(b.q(), b.stm, f, t, kind, passing, q2)
}

/// The move in the terms of exchanges.
proof fn lemma_plays_to(b: Board, m: Move, f: int, t: int, kind: int, passing: bool, q2: Seq<Piece>)
    requires
        plays_to(b, m, f, t, kind, passing, q2),
    ensures
        reaches(b.q(), b.stm, b.ep, m),
        m.to().0 == t,
        m.from().0 == f,
        moved(b.q(), b.stm, m) == q2,
        is_placement(q2),
        taken_value(b.q(), m) == gain_of(b.q(), t, kind, passing),
        standing_value(b.q(), m) == stake_of(b.q(), f, kind),
        is_own(q2, b.stm, t),
        0 <= stake_of(b.q(), f, kind) <= 999,
        -100 <= gain_of(b.q(), t, kind, passing) <= 2000,
        forall|a: int|
            #![trigger q2[a]]
            0 <= a < 100 && q2[a].0 < 16 && a != t ==> q2[a] == b.q()[a],
        q2[f].0 == 16,
        !is_own(b.q(), b.stm, t),
{
    let q = b.q();
    lemma_may_move(q, b.stm, b.ep, m, f, t, kind, passing);
    lemma_moved(q, b.stm, b.ep, m);
    lemma_moved_is_after(q, b.stm, b.ep, m, f, t, kind, passing, q2);
    lemma_piece(q[t]);
    lemma_piece(q[f]);
    lemma_number(m, f, t, kind, passing);
    if q[t].valid() {
        assert(piece_value(q[t]) == worth_of(q[t].0 as int % 8));
    }
    assert(piece_value(q[f]) == worth_of(q[f].0 as int % 8));
    assert(see_value(m.promo_kind()) == worth_of(kind));
}

/// Who can take on `t` once `gone` squares are empty is who guards it then.
proof fn lemma_takers(q: Seq<Piece>, q3: Seq<Piece>, t: int, side: Color, a: int)
    requires
        is_placement(q),
        is_placement(q3),
        0 <= t < 100,
        forall|x: int|
            #![trigger q3[x]]
            0 <= x < 100 && q3[x].0 < 16 && x != t ==> q3[x] == q[x],
        !(col_at(q, t, side) && attacker(q, occ_of(q3), t, t)),
    ensures
        a != t ==> (bit(occ_of(q3), a) && attacker(q, occ_of(q3), t, a) && col_at(q, a, side)
            <==> guards(q3, side, t, a)),
        a == t ==> !(bit(occ_of(q3), a) && attacker(q, occ_of(q3), t, a) && col_at(q, a, side)),
{
    if 0 <= a < 100 && a != t {
        pieces_attack_as_they_strike(q3, a, t);
        if q3[a].0 < 16 {
            assert(q3[a] == q[a]);
        }
    }
}

/// No piece attacks the square it stands on.
proof fn lemma_not_itself(q: Seq<Piece>, occ: u128, t: int)
    ensures
        !attacker(q, occ, t, t),
{
    reveal(on_ray);
    reveal(knight_att);
    reveal(king_att);
    reveal(pawn_att);
}

proof fn lemma_least(q: Seq<Piece>, to: int, occ: u128, side: Color, pt: PieceType, lo: int, a: int)
    requires
        strikes(q, to, occ, side, pt, a),
        lo <= a,
        forall|b: int| #![trigger strikes(q, to, occ, side, pt, b)] b < lo ==> !strikes(q, to, occ, side, pt, b),
    ensures
        is_first_striker(q, to, occ, side, pt, first_striker(q, to, occ, side, pt)),
    decreases a - lo,
{
    if strikes(q, to, occ, side, pt, lo) {
        assert(is_first_striker(q, to, occ, side, pt, lo));
    } else {
        lemma_least(q, to, occ, side, pt, lo + 1, a);
    }
}

/// The piece that takes first stands there, and none that can take is worth less.
proof fn lemma_cheapest(q: Seq<Piece>, to: int, occ: u128, side: Color)
    requires
        is_placement(q),
    ensures
        match cheapest(q, to, occ, side) {
            Some(pt) => {
                let a = first_striker(q, to, occ, side, pt);
                &&& pt != PieceType::King
                &&& strikes(q, to, occ, side, pt, a)
                &&& 0 <= a < 100
                &&& can_take(q, to, occ, side)
                &&& forall|x: int|
                    bit(occ, x) && #[trigger] attacker(q, occ, to, x) && col_at(q, x, side)
                        && q[x].0 % 8 != 7 ==> see_value(pt) <= worth_of(q[x].0 as int % 8)
            },
            None => forall|x: int|
                bit(occ, x) && #[trigger] attacker(q, occ, to, x) && col_at(q, x, side)
                    ==> q[x].0 % 8 == 7,
        },
{
    match cheapest(q, to, occ, side) {
        Some(pt) => {
            let s = choose|s: int| #[trigger] strikes(q, to, occ, side, pt, s);
            lemma_least(q, to, occ, side, pt, 0, s);
            let a = first_striker(q, to, occ, side, pt);
            lemma_piece_on(q, a, side, pt);
            assert(attacker(q, occ, to, a));
        },
        None => {},
    }
    assert forall|x: int|
        bit(occ, x) && #[trigger] attacker(q, occ, to, x) && col_at(q, x, side) && q[x].0 % 8
            != 7 implies (cheapest(q, to, occ, side) matches Some(pt) && see_value(pt) <= worth_of(
        q[x].0 as int % 8,
    )) by {
        lemma_piece_on(q, x, side, q[x].kind());
        assert(strikes(q, to, occ, side, q[x].kind(), x));
        assert(any_strikes(q, to, occ, side, q[x].kind()));
    }
}

/// Law: a move wins no more than it takes, and loses no more than it puts at stake.
pub proof fn an_exchange_is_bounded(
    b: Board,
    tables: Tables,
    m: Move,
    f: int,
    t: int,
    kind: int,
    passing: bool,
    q2: Seq<Piece>,
    threshold: i32,
    r: bool,
)
    requires
        plays_to(b, m, f, t, kind, passing, q2),
        call_ensures(see_ge, (&b, &tables, m, threshold), r),
        threshold >= -1_000_000,
    ensures
        threshold > gain_of(b.q(), t, kind, passing) ==> !r,
        threshold <= gain_of(b.q(), t, kind, passing) - stake_of(b.q(), f, kind) ==> r,
{
    lemma_plays_to(b, m, f, t, kind, passing, q2);
    lemma_exchange_bounds(b.q(), t, occ_of(q2), b.stm.flip(), stake_of(b.q(), f, kind));
}

/// Law: a move to a square that no enemy guards afterwards wins exactly what it takes.
pub proof fn an_unguarded_square_costs_nothing(
    b: Board,
    tables: Tables,
    m: Move,
    f: int,
    t: int,
    kind: int,
    passing: bool,
    q2: Seq<Piece>,
    threshold: i32,
    r: bool,
)
    requires
        plays_to(b, m, f, t, kind, passing, q2),
        call_ensures(see_ge, (&b, &tables, m, threshold), r),
        threshold >= -1_000_000,
        forall|a: int| !#[trigger] guards(q2, b.stm.flip(), t, a),
    ensures
        r <==> gain_of(b.q(), t, kind, passing) >= threshold,
{
    lemma_plays_to(b, m, f, t, kind, passing, q2);
    let q = b.q();
    let them = b.stm.flip();
    let occ = occ_of(q2);
    lemma_not_itself(q, occ, t);
    assert(!can_take(q, t, occ, them)) by {
        assert forall|a: int| bit(occ, a) && #[trigger] attacker(q, occ, t, a) implies !col_at(
            q,
            a,
            them,
        ) by {
            lemma_takers(q, q2, t, them, a);
            assert(!guards(q2, them, t, a));
        }
    }
}

/// Law: on a square that an enemy piece guards, a king aside, a move loses what it puts
/// at stake against that piece: whoever takes first is worth no more.
pub proof fn a_guard_takes_what_is_worth_more(
    b: Board,
    tables: Tables,
    m: Move,
    f: int,
    t: int,
    kind: int,
    passing: bool,
    q2: Seq<Piece>,
    a: int,
    threshold: i32,
    r: bool,
)
    requires
        plays_to(b, m, f, t, kind, passing, q2),
        call_ensures(see_ge, (&b, &tables, m, threshold), r),
        threshold >= -1_000_000,
        guards(q2, b.stm.flip(), t, a),
        q2[a].0 % 8 != 7,
        threshold > gain_of(b.q(), t, kind, passing) - stake_of(b.q(), f, kind) + worth_of(
            q2[a].0 as int % 8,
        ),
    ensures
        !r,
{
    lemma_plays_to(b, m, f, t, kind, passing, q2);
    let q = b.q();
    let them = b.stm.flip();
    let occ = occ_of(q2);
    let v = stake_of(q, f, kind);
    assert(a != t);
    lemma_not_itself(q, occ, t);
    lemma_takers(q, q2, t, them, a);
    assert(q2[a] == q[a]);
    lemma_cheapest(q, t, occ, them);
    let pt = cheapest(q, t, occ, them)->0;
    let s = first_striker(q, t, occ, them, pt);
    lemma_without(occ, s);
    lemma_exchange_bounds(q, t, without(occ, s), b.stm, see_value(pt) as int);
    assert(see_value(pt) <= worth_of(q[a].0 as int % 8));
    assert(exchange(q, t, occ, them, v) >= v - see_value(pt));
}

/// The board without the piece on `a`.
pub open spec fn lifted(q: Seq<Piece>, a: int) -> Seq<Piece> {
    q.update(a, Piece(16))
}

proof fn lemma_lifted(q2: Seq<Piece>, a: int)
    requires
        is_placement(q2),
        0 <= a < 100,
        bit(occ_of(q2), a),
    ensures
        is_placement(lifted(q2, a)),
        occ_of(lifted(q2, a)) == without(occ_of(q2), a),
{
    let q3 = lifted(q2, a);
    lemma_without(occ_of(q2), a);
    assert forall|i: int| bit(occ_of(q3), i) == bit(without(occ_of(q2), a), i) by {}
    lemma_bits_equal(occ_of(q3), without(occ_of(q2), a));
}

/// Law: where an enemy piece other than the king guards the square, and once any guard has
/// taken nothing of the own side can take back, the moved piece is lost.
pub proof fn an_unsupported_piece_is_lost(
    b: Board,
    tables: Tables,
    m: Move,
    f: int,
    t: int,
    kind: int,
    passing: bool,
    q2: Seq<Piece>,
    a: int,
    threshold: i32,
    r: bool,
)
    requires
        plays_to(b, m, f, t, kind, passing, q2),
        call_ensures(see_ge, (&b, &tables, m, threshold), r),
        threshold >= -1_000_000,
        guards(q2, b.stm.flip(), t, a),
        q2[a].0 % 8 != 7,
        forall|g: int, x: int|
            guards(q2, b.stm.flip(), t, g) && x != t ==> !#[trigger] guards(
                lifted(q2, g),
                b.stm,
                t,
                x,
            ),
    ensures
        r <==> gain_of(b.q(), t, kind, passing) - stake_of(b.q(), f, kind) >= threshold,
{
    lemma_plays_to(b, m, f, t, kind, passing, q2);
    let q = b.q();
    let us = b.stm;
    let them = us.flip();
    let occ = occ_of(q2);
    let v = stake_of(q, f, kind);
    lemma_not_itself(q, occ, t);
    lemma_takers(q, q2, t, them, a);
    assert(q2[a] == q[a]);
    lemma_cheapest(q, t, occ, them);
    let pt = cheapest(q, t, occ, them)->0;
    let s = first_striker(q, t, occ, them, pt);
    lemma_without(occ, s);
    lemma_piece_on(q, s, them, pt);
    lemma_takers(q, q2, t, them, s);
    assert(guards(q2, them, t, s));
    lemma_lifted(q2, s);
    let q3 = lifted(q2, s);
    let occ3 = without(occ, s);
    assert(!can_take(q, t, occ3, us)) by {
        assert forall|x: int| bit(occ3, x) && #[trigger] attacker(q, occ3, t, x) implies !col_at(
            q,
            x,
            us,
        ) by {
            lemma_takers(q, q3, t, us, x);
            if x != t {
                assert(!guards(q3, us, t, x));
            }
        }
    }
    assert(exchange(q, t, occ3, us, see_value(pt) as int) == 0);
    assert(exchange(q, t, occ, them, v) == if v > 0 { v } else { 0 });
}

/// Law: where every enemy guard is worth at least `dear`, and once any of them has taken,
/// a piece worth at most `cheap`, not the king, can take back, the move loses no more than its
/// stake with `cheap` given and `dear` won.
pub proof fn a_supported_piece_is_avenged(
    b: Board,
    tables: Tables,
    m: Move,
    f: int,
    t: int,
    kind: int,
    passing: bool,
    q2: Seq<Piece>,
    dear: int,
    cheap: int,
    threshold: i32,
    r: bool,
)
    requires
        plays_to(b, m, f, t, kind, passing, q2),
        call_ensures(see_ge, (&b, &tables, m, threshold), r),
        threshold >= -1_000_000,
        forall|g: int| #[trigger]
            guards(q2, b.stm.flip(), t, g) ==> q2[g].0 % 8 != 7 && worth_of(q2[g].0 as int % 8)
                >= dear,
        forall|g: int| #[trigger]
            guards(q2, b.stm.flip(), t, g) ==> exists|x: int|
                x != t && #[trigger] guards(lifted(q2, g), b.stm, t, x) && q2[x].0 % 8 != 7
                    && worth_of(q2[x].0 as int % 8) <= cheap,
        threshold <= gain_of(b.q(), t, kind, passing),
        threshold <= gain_of(b.q(), t, kind, passing) - stake_of(b.q(), f, kind) + dear - cheap,
    ensures
        r,
{
    lemma_plays_to(b, m, f, t, kind, passing, q2);
    let q = b.q();
    let us = b.stm;
    let them = us.flip();
    let occ = occ_of(q2);
    let v = stake_of(q, f, kind);
    lemma_not_itself(q, occ, t);
    assert forall|g: int| bit(occ, g) && #[trigger] attacker(q, occ, t, g) && col_at(
        q,
        g,
        them,
    ) implies guards(q2, them, t, g) && q2[g] == q[g] by {
        lemma_takers(q, q2, t, them, g);
    }
    lemma_cheapest(q, t, occ, them);
    if can_take(q, t, occ, them) {
        let g = choose|g: int| bit(occ, g) && #[trigger] attacker(q, occ, t, g) && col_at(q, g, them);
        assert(guards(q2, them, t, g));
        let pt = cheapest(q, t, occ, them)->0;
        let s = first_striker(q, t, occ, them, pt);
        lemma_without(occ, s);
        lemma_piece_on(q, s, them, pt);
        assert(guards(q2, them, t, s));
        lemma_lifted(q2, s);
        let q3 = lifted(q2, s);
        let occ3 = without(occ, s);
        let x = choose|x: int|
            x != t && #[trigger] guards(q3, us, t, x) && q2[x].0 % 8 != 7 && worth_of(
                q2[x].0 as int % 8,
            ) <= cheap;
        lemma_not_itself(q, occ3, t);
        assert(q3[x] == q2[x]);
        assert(q2[x] == q[x]);
        lemma_takers(q, q3, t, us, x);
        lemma_cheapest(q, t, occ3, us);
        let pt3 = cheapest(q, t, occ3, us)->0;
        let s3 = first_striker(q, t, occ3, us, pt3);
        lemma_without(occ3, s3);
        lemma_exchange_bounds(q, t, without(occ3, s3), them, see_value(pt3) as int);
        assert(see_value(pt3) <= cheap);
        assert(see_value(pt) == worth_of(q[s].0 as int % 8));
        assert(exchange(q, t, occ3, us, see_value(pt) as int) >= see_value(pt) - see_value(pt3));
    }
}

/// Law: where the enemy king alone guards the square, it takes only what is not
/// supported.
pub proof fn a_king_takes_only_what_is_unsupported(
    b: Board,
    tables: Tables,
    m: Move,
    f: int,
    t: int,
    kind: int,
    passing: bool,
    q2: Seq<Piece>,
    k: int,
    threshold: i32,
    r: bool,
)
    requires
        plays_to(b, m, f, t, kind, passing, q2),
        call_ensures(see_ge, (&b, &tables, m, threshold), r),
        threshold >= -1_000_000,
        guards(q2, b.stm.flip(), t, k),
        forall|g: int| #[trigger] guards(q2, b.stm.flip(), t, g) ==> q2[g].0 % 8 == 7,
    ensures
        (exists|x: int| x != t && #[trigger] guards(q2, b.stm, t, x)) ==> (r <==> gain_of(
            b.q(),
            t,
            kind,
            passing,
        ) >= threshold),
        !(exists|x: int| x != t && #[trigger] guards(q2, b.stm, t, x)) ==> (r <==> gain_of(
            b.q(),
            t,
            kind,
            passing,
        ) - stake_of(b.q(), f, kind) >= threshold),
{
    lemma_plays_to(b, m, f, t, kind, passing, q2);
    let q = b.q();
    let us = b.stm;
    let them = us.flip();
    let occ = occ_of(q2);
    lemma_not_itself(q, occ, t);
    assert forall|g: int| bit(occ, g) && #[trigger] attacker(q, occ, t, g) && col_at(
        q,
        g,
        them,
    ) implies guards(q2, them, t, g) && q2[g] == q[g] by {
        lemma_takers(q, q2, t, them, g);
    }
    lemma_takers(q, q2, t, them, k);
    lemma_cheapest(q, t, occ, them);
    assert(can_take(q, t, occ, them));
    match cheapest(q, t, occ, them) {
        Some(pt) => {
            let s = first_striker(q, t, occ, them, pt);
            lemma_piece_on(q, s, them, pt);
            assert(guards(q2, them, t, s));
        },
        None => {},
    }
    if exists|x: int| x != t && #[trigger] guards(q2, us, t, x) {
        let x = choose|x: int| x != t && #[trigger] guards(q2, us, t, x);
        assert(q2[x] == q[x]);
        lemma_takers(q, q2, t, us, x);
        assert(can_take(q, t, occ, us));
    } else {
        assert(!can_take(q, t, occ, us)) by {
            assert forall|x: int| bit(occ, x) && #[trigger] attacker(q, occ, t, x) implies !col_at(
                q,
                x,
                us,
            ) by {
                lemma_takers(q, q2, t, us, x);
                if x != t {
                    assert(!guards(q2, us, t, x));
                }
            }
        }
    }
}

} // verus!
