//! The generated moves are the legal ones, each once.

use vstd::prelude::*;
use crate::board::Board;
use crate::geometry::{king_att, lemma_rook_sym, pawn_att};
use crate::legal::{evades, no_en_passant_out_of_double_check, pin_allows, pin_and_evasion_rules};
use crate::movegen::{
    Gen, capture_step, double_check, eligible, emitted, evasion, gen_of, king, lemma_att_board,
    lemma_reach_set, lemma_stage_set, moves_of, outcomes, plain, promoting, promotions, reach,
    reach_set, stage_moves, stage_set, wanted, wants_noisy, wants_quiet, yields,
};

use crate::position::{
    ep_real, forward_of, has_kings, in_check_at, is_checker, is_placement, king_of, legal,
    lemma_king_of, lemma_occ_of, lemma_piece, lemma_piece_on, occ_at, occ_of, pawns_inside,
    piece_on, promo_open, reaches,
};
use crate::squareset::{group_bits, lemma_squares_members, squares};
use crate::types::{Move, PieceType, Square, move_fields_determine, promo_max, rel_rank};

verus! {

broadcast use {group_bits, lemma_occ_of};

/// A position that can arise.
pub open spec fn gen_ok(g: Gen) -> bool {
    &&& is_placement(g.q)
    &&& has_kings(g.q)
    &&& pawns_inside(g.q)
    &&& !in_check_at(g.q, g.us.flip())
    &&& g.ep == Square::none() || ep_real(g.q, g.us, g.ep.0 as int)
}

proof fn lemma_add_contains(a: Seq<Move>, b: Seq<Move>, m: Move)
    ensures
        (a + b).contains(m) <==> a.contains(m) || b.contains(m),
{
    let c = a + b;
    if c.contains(m) {
        let i = choose|i: int| 0 <= i < c.len() && c[i] == m;
        if i < a.len() {
            assert(a[i] == m);
        } else {
            assert(b[i - a.len()] == m);
        }
    }
    if a.contains(m) {
        let i = choose|i: int| 0 <= i < a.len() && a[i] == m;
        assert(c[i] == m);
    }
    if b.contains(m) {
        let i = choose|i: int| 0 <= i < b.len() && b[i] == m;
        assert(c[a.len() + i] == m);
    }
}

proof fn lemma_add_distinct(a: Seq<Move>, b: Seq<Move>)
    requires
        a.no_duplicates(),
        b.no_duplicates(),
        forall|m: Move| a.contains(m) ==> !#[trigger] b.contains(m),
    ensures
        (a + b).no_duplicates(),
{
    let c = a + b;
    assert forall|i: int, j: int| 0 <= i < c.len() && 0 <= j < c.len() && i != j implies c[i]
        != c[j] by {
        if i < a.len() {
            assert(a.contains(a[i]));
        } else {
            assert(b.contains(b[i - a.len()]));
        }
        if j < a.len() {
            assert(a.contains(a[j]));
        } else {
            assert(b.contains(b[j - a.len()]));
        }
    }
}

/// A move built from its fields has them.
proof fn lemma_fields(f: int, t: int, p: int, ep: bool)
    requires
        0 <= f < 128,
        0 <= t < 128,
        0 <= p < 8,
    ensures
        ({
            let m = Move::fields(f, t, p, ep);
            &&& m.compact()
            &&& m.from().0 == f
            &&& m.to().0 == t
            &&& m.promo_bits() == p
            &&& m.is_en_passant() == ep
        }),
{
}

/// What a single move is, given its fields.
proof fn lemma_is_fields(m: Move, f: int, t: int, p: int, ep: bool)
    requires
        0 <= f < 128,
        0 <= t < 128,
        0 <= p < 8,
    ensures
        m == Move::fields(f, t, p, ep) <==> m.compact() && m.from().0 == f && m.to().0 == t
            && m.promo_bits() == p && m.is_en_passant() == ep,
{
    lemma_fields(f, t, p, ep);
    if m.compact() && m.from().0 == f && m.to().0 == t && m.promo_bits() == p
        && m.is_en_passant() == ep {
        move_fields_determine(m, Move::fields(f, t, p, ep));
    }
}

/// `m` goes from `f` to `t`, not en passant.
pub open spec fn goes(m: Move, f: int, t: int) -> bool {
    m.compact() && m.from().0 == f && m.to().0 == t && !m.is_en_passant()
}

proof fn lemma_promoting(g: Gen, f: int, t: int, pt: PieceType, m: Move)
    requires
        0 <= f < 100,
        0 <= t < 100,
    ensures
        promoting(g, f, t, pt).contains(m) <==> goes(m, f, t) && m.promo_bits() == pt.idx()
            && promo_open(g.q, g.us, pt),
        promoting(g, f, t, pt).no_duplicates(),
{
    lemma_is_fields(m, f, t, pt.idx() as int, false);
    let s = promoting(g, f, t, pt);
    if promo_open(g.q, g.us, pt) {
        assert(s[0] == Move::fields(f, t, pt.idx() as int, false));
    }
}

proof fn lemma_promotions(g: Gen, f: int, t: int)
    requires
        0 <= f < 100,
        0 <= t < 100,
    ensures
        forall|m: Move| #[trigger]
            promotions(g, f, t).contains(m) <==> goes(m, f, t) && m.is_promotion() && promo_open(
                g.q,
                g.us,
                m.promo_kind(),
            ),
        promotions(g, f, t).no_duplicates(),
{
    let k = promoting(g, f, t, PieceType::Knight);
    let b = promoting(g, f, t, PieceType::Bishop);
    let r = promoting(g, f, t, PieceType::Rook);
    let q = promoting(g, f, t, PieceType::Queen);
    let h = promoting(g, f, t, PieceType::Marshal);
    let c = promoting(g, f, t, PieceType::Cardinal);
    let s2 = k + b;
    let s3 = s2 + r;
    let s4 = s3 + q;
    let s5 = s4 + h;
    assert forall|m: Move|
        (k.contains(m) ==> m.promo_bits() == 1) && (#[trigger] b.contains(m) ==> m.promo_bits()
            == 2) && (#[trigger] s2.contains(m) ==> m.promo_bits() <= 2) by {
        lemma_promoting(g, f, t, PieceType::Knight, m);
        lemma_promoting(g, f, t, PieceType::Bishop, m);
        lemma_add_contains(k, b, m);
    }
    lemma_promoting(g, f, t, PieceType::Knight, Move::none());
    lemma_promoting(g, f, t, PieceType::Bishop, Move::none());
    lemma_promoting(g, f, t, PieceType::Rook, Move::none());
    lemma_promoting(g, f, t, PieceType::Queen, Move::none());
    lemma_promoting(g, f, t, PieceType::Marshal, Move::none());
    lemma_promoting(g, f, t, PieceType::Cardinal, Move::none());
    lemma_add_distinct(k, b);
    assert forall|m: Move|
        (#[trigger] r.contains(m) ==> m.promo_bits() == 3) && (#[trigger] s3.contains(m)
            ==> m.promo_bits() <= 3) by {
        lemma_promoting(g, f, t, PieceType::Rook, m);
        lemma_add_contains(s2, r, m);
    }
    lemma_add_distinct(s2, r);
    assert forall|m: Move|
        (#[trigger] q.contains(m) ==> m.promo_bits() == 4) && (#[trigger] s4.contains(m)
            ==> m.promo_bits() <= 4) by {
        lemma_promoting(g, f, t, PieceType::Queen, m);
        lemma_add_contains(s3, q, m);
    }
    lemma_add_distinct(s3, q);
    assert forall|m: Move|
        (#[trigger] h.contains(m) ==> m.promo_bits() == 5) && (#[trigger] s5.contains(m)
            ==> m.promo_bits() <= 5) by {
        lemma_promoting(g, f, t, PieceType::Marshal, m);
        lemma_add_contains(s4, h, m);
    }
    lemma_add_distinct(s4, h);
    assert forall|m: Move| #[trigger] c.contains(m) implies m.promo_bits() == 6 by {
        lemma_promoting(g, f, t, PieceType::Cardinal, m);
    }
    lemma_add_distinct(s5, c);
    assert forall|m: Move| #[trigger]
        promotions(g, f, t).contains(m) <==> goes(m, f, t) && m.is_promotion() && promo_open(
            g.q,
            g.us,
            m.promo_kind(),
        ) by {
        lemma_add_contains(k, b, m);
        lemma_add_contains(s2, r, m);
        lemma_add_contains(s3, q, m);
        lemma_add_contains(s4, h, m);
        lemma_add_contains(s5, c, m);
        lemma_promoting(g, f, t, PieceType::Knight, m);
        lemma_promoting(g, f, t, PieceType::Bishop, m);
        lemma_promoting(g, f, t, PieceType::Rook, m);
        lemma_promoting(g, f, t, PieceType::Queen, m);
        lemma_promoting(g, f, t, PieceType::Marshal, m);
        lemma_promoting(g, f, t, PieceType::Cardinal, m);
        if promo_open(g.q, g.us, m.promo_kind()) {
            assert(promo_max(m.promo_kind()) > 0);
        }
    }
}

proof fn lemma_outcomes(g: Gen, f: int, t: int, capture: bool)
    requires
        0 <= f < 100,
        0 <= t < 100,
    ensures
        forall|m: Move| #[trigger]
            outcomes(g, f, t, capture).contains(m) <==> goes(m, f, t) && (if m.is_promotion() {
                rel_rank(g.us, t) >= 7 && wants_noisy(g) && promo_open(g.q, g.us, m.promo_kind())
            } else {
                rel_rank(g.us, t) <= 8 && (if capture {
                    wants_noisy(g)
                } else {
                    wants_quiet(g)
                })
            }),
        outcomes(g, f, t, capture).no_duplicates(),
{
    let rr = rel_rank(g.us, t);
    let first = if rr <= 8 && (if capture {
        wants_noisy(g)
    } else {
        wants_quiet(g)
    }) {
        seq![plain(f, t)]
    } else {
        Seq::empty()
    };
    let second = if rr >= 7 && wants_noisy(g) {
        promotions(g, f, t)
    } else {
        Seq::empty()
    };
    lemma_promotions(g, f, t);
    assert forall|m: Move| #[trigger] first.contains(m) <==> goes(m, f, t) && !m.is_promotion()
        && first.len() == 1 by {
        lemma_is_fields(m, f, t, 0, false);
        if first.len() == 1 {
            assert(first[0] == plain(f, t));
        }
    }
    assert forall|m: Move| first.contains(m) implies !#[trigger] second.contains(m) by {
        if second.contains(m) {
            assert(promotions(g, f, t).contains(m));
        }
    }
    lemma_add_distinct(first, second);
    assert forall|m: Move| #[trigger]
        outcomes(g, f, t, capture).contains(m) <==> goes(m, f, t) && (if m.is_promotion() {
            rr >= 7 && wants_noisy(g) && promo_open(g.q, g.us, m.promo_kind())
        } else {
            rr <= 8 && (if capture {
                wants_noisy(g)
            } else {
                wants_quiet(g)
            })
        }) by {
        lemma_add_contains(first, second, m);
        assert(promotions(g, f, t).contains(m) <==> goes(m, f, t) && m.is_promotion()
            && promo_open(g.q, g.us, m.promo_kind()));
    }
}

/// The square that a stage made the move of.
pub open spec fn key_square(stage: int, m: Move) -> int {
    if stage < 5 {
        m.to().0 as int
    } else {
        m.from().0 as int
    }
}

/// What a stage makes of a square, move by move.
pub open spec fn yielded(g: Gen, stage: int, x: int, m: Move) -> bool {
    let up = forward_of(g.us);
    m.compact() && key_square(stage, m) == x && if stage == 0 {
        goes(m, king(g), x) && !m.is_promotion() && legal(g.q, g.us, g.ep, m)
    } else if stage == 2 {
        goes(m, x - 2 * up, x) && !m.is_promotion() && pin_allows(g.q, g.us, x - 2 * up, x)
    } else if stage == 1 || stage == 3 || stage == 4 {
        let f = if stage == 1 {
            x - up
        } else {
            x - capture_step(g.us, stage == 3)
        };
        goes(m, f, x) && pin_allows(g.q, g.us, f, x) && if m.is_promotion() {
            rel_rank(g.us, x) >= 7 && wants_noisy(g) && promo_open(g.q, g.us, m.promo_kind())
        } else {
            rel_rank(g.us, x) <= 8 && (if stage != 1 {
                wants_noisy(g)
            } else {
                wants_quiet(g)
            })
        }
    } else if stage == 5 {
        m.from().0 == x && m.to() == g.ep && m.is_en_passant() && !m.is_promotion() && legal(
            g.q,
            g.us,
            g.ep,
            m,
        )
    } else {
        goes(m, x, m.to().0 as int) && !m.is_promotion() && reach(g, x, m.to().0 as int)
    }
}

proof fn lemma_yields(g: Gen, stage: int, x: int)
    requires
        gen_ok(g),
        0 <= stage <= 5 || 11 <= stage < 17,
        eligible(g, stage, x),
    ensures
        forall|m: Move| #[trigger] yields(g, stage, x).contains(m) <==> yielded(g, stage, x, m),
        yields(g, stage, x).no_duplicates(),
{
    let up = forward_of(g.us);
    let k = king(g);
    let s = yields(g, stage, x);
    lemma_king_of(g.q, g.us);
    if stage == 0 {
        let p = plain(k, x);
        assert forall|m: Move| #[trigger] s.contains(m) <==> yielded(g, stage, x, m) by {
            lemma_is_fields(m, k, x, 0, false);
            lemma_fields(k, x, 0, false);
            if legal(g.q, g.us, g.ep, p) {
                assert(s[0] == p);
            }
        }
    } else if stage == 1 {
        assert(piece_on(g.q, x - up, g.us, PieceType::Pawn));
        lemma_outcomes(g, x - up, x, false);
        assert forall|m: Move| #[trigger] s.contains(m) <==> yielded(g, stage, x, m) by {
            assert(outcomes(g, x - up, x, false).contains(m) ==> goes(m, x - up, x));
        }
    } else if stage == 2 {
        let f = x - 2 * up;
        assert(piece_on(g.q, f, g.us, PieceType::Pawn));
        assert forall|m: Move| #[trigger] s.contains(m) <==> yielded(g, stage, x, m) by {
            lemma_is_fields(m, f, x, 0, false);
            if pin_allows(g.q, g.us, f, x) {
                assert(s[0] == plain(f, x));
            }
        }
    } else if stage == 3 || stage == 4 {
        let f = x - capture_step(g.us, stage == 3);
        assert(piece_on(g.q, f, g.us, PieceType::Pawn));
        lemma_outcomes(g, f, x, true);
        assert forall|m: Move| #[trigger] s.contains(m) <==> yielded(g, stage, x, m) by {
            assert(outcomes(g, f, x, true).contains(m) ==> goes(m, f, x));
        }
    } else if stage == 5 {
        let e = g.ep.0 as int;
        let p = Move::fields(x, e, 0, true);
        assert forall|m: Move| #[trigger] s.contains(m) <==> yielded(g, stage, x, m) by {
            lemma_is_fields(m, x, e, 0, true);
            if legal(g.q, g.us, g.ep, p) {
                assert(s[0] == p);
            }
        }
    } else {
        let to = squares(reach_set(g, x));
        lemma_squares_members(reach_set(g, x));
        assert forall|i: int| 0 <= i < to.len() implies 0 <= #[trigger] to[i] < 100 && reach(
            g,
            x,
            to[i],
        ) by {
            assert(to.contains(to[i]));
            lemma_reach_set(g, x, to[i]);
        }
        assert forall|m: Move| #[trigger] s.contains(m) <==> yielded(g, stage, x, m) by {
            if s.contains(m) {
                let i = choose|i: int| 0 <= i < s.len() && s[i] == m;
                assert(m == plain(x, to[i]));
                lemma_is_fields(m, x, to[i], 0, false);
            }
            if yielded(g, stage, x, m) {
                let t = m.to().0 as int;
                lemma_reach_set(g, x, t);
                assert(to.contains(t));
                let i = choose|i: int| 0 <= i < to.len() && to[i] == t;
                lemma_is_fields(m, x, t, 0, false);
                assert(s[i] == m);
            }
        }
        assert forall|i: int, j: int| 0 <= i < s.len() && 0 <= j < s.len() && i != j implies s[i]
            != s[j] by {
            lemma_fields(x, to[i], 0, false);
            lemma_fields(x, to[j], 0, false);
            assert(s[i] == plain(x, to[i]) && s[j] == plain(x, to[j]));
            if i < j {
                assert(to[i] < to[j]);
            } else {
                assert(to[j] < to[i]);
            }
        }
    }
}

proof fn lemma_emitted(g: Gen, stage: int, xs: Seq<int>)
    requires
        gen_ok(g),
        0 <= stage <= 5 || 11 <= stage < 17,
        forall|i: int| 0 <= i < xs.len() ==> eligible(g, stage, #[trigger] xs[i]),
        forall|i: int, j: int| 0 <= i < j < xs.len() ==> xs[i] < xs[j],
    ensures
        forall|m: Move| #[trigger]
            emitted(g, stage, xs).contains(m) <==> xs.contains(key_square(stage, m)) && yielded(
                g,
                stage,
                key_square(stage, m),
                m,
            ),
        emitted(g, stage, xs).no_duplicates(),
    decreases xs.len(),
{
    if xs.len() > 0 {
        let x = xs[0];
        let rest = xs.drop_first();
        assert forall|i: int| 0 <= i < rest.len() implies eligible(g, stage, #[trigger] rest[i]) by {
            assert(rest[i] == xs[i + 1]);
        }
        lemma_emitted(g, stage, rest);
        lemma_yields(g, stage, x);
        let a = yields(g, stage, x);
        let b = emitted(g, stage, rest);
        assert(!rest.contains(x));
        assert forall|m: Move| a.contains(m) implies !#[trigger] b.contains(m) by {
            assert(yielded(g, stage, x, m));
        }
        lemma_add_distinct(a, b);
        assert forall|m: Move| #[trigger]
            emitted(g, stage, xs).contains(m) <==> xs.contains(key_square(stage, m)) && yielded(
                g,
                stage,
                key_square(stage, m),
                m,
            ) by {
            lemma_add_contains(a, b, m);
            let y = key_square(stage, m);
            assert(a.contains(m) <==> yielded(g, stage, x, m));
            if xs.contains(y) && y != x {
                let i = choose|i: int| 0 <= i < xs.len() && xs[i] == y;
                assert(rest[i - 1] == y);
            }
            if rest.contains(y) {
                let i = choose|i: int| 0 <= i < rest.len() && rest[i] == y;
                assert(xs[i + 1] == y);
            }
        }
    }
}

proof fn lemma_stage_moves(g: Gen, stage: int)
    requires
        gen_ok(g),
        0 <= stage <= 5 || 11 <= stage < 17,
    ensures
        forall|m: Move| #[trigger]
            stage_moves(g, stage).contains(m) <==> eligible(g, stage, key_square(stage, m))
                && yielded(g, stage, key_square(stage, m), m),
        stage_moves(g, stage).no_duplicates(),
{
    reveal(stage_moves);
    let x = stage_set(g, stage);
    let xs = squares(x);
    lemma_squares_members(x);
    assert forall|i: int| 0 <= i < xs.len() implies eligible(g, stage, #[trigger] xs[i]) by {
        assert(xs.contains(xs[i]));
        lemma_stage_set(g, stage, xs[i]);
    }
    lemma_emitted(g, stage, xs);
    assert forall|m: Move| #[trigger]
        stage_moves(g, stage).contains(m) <==> eligible(g, stage, key_square(stage, m)) && yielded(
            g,
            stage,
            key_square(stage, m),
            m,
        ) by {
        lemma_stage_set(g, stage, key_square(stage, m));
    }
}

/// The stage in which a legal move is generated.
pub open spec fn stage_of(g: Gen, m: Move) -> int {
    let f = m.from().0 as int;
    let t = m.to().0 as int;
    if m.is_en_passant() {
        5
    } else if g.q[f].kind() == PieceType::King {
        0
    } else if g.q[f].kind() == PieceType::Pawn {
        if occ_at(g.q, t) {
            if t - f == capture_step(g.us, true) {
                3
            } else {
                4
            }
        } else if t == f + forward_of(g.us) {
            1
        } else {
            2
        }
    } else {
        10 + g.q[f].kind().idx()
    }
}

/// A move of a stage is a legal and wanted one, and of no other stage.
#[verifier::spinoff_prover]
#[verifier::rlimit(40)]
proof fn lemma_stage_sound(g: Gen, stage: int, m: Move)
    requires
        gen_ok(g),
        0 <= stage <= 5 || 11 <= stage < 17,
        stage == 0 || !double_check(g),
        eligible(g, stage, key_square(stage, m)),
        yielded(g, stage, key_square(stage, m), m),
    ensures
        m.compact(),
        legal(g.q, g.us, g.ep, m),
        wanted(g, m),
        stage_of(g, m) == stage,
{
    let q = g.q;
    let us = g.us;
    let f = m.from().0 as int;
    let t = m.to().0 as int;
    lemma_king_of(q, us);
    lemma_piece_on(q, f, us, PieceType::Pawn);
    lemma_piece_on(q, f, us, PieceType::King);
    lemma_piece_on(q, f, us, PieceType::numbered(stage - 10));
    lemma_piece(q[t]);
    lemma_piece(q[f]);
    if stage == 0 {
        reveal(king_att);
        assert(f == king(g));
    } else if stage == 5 {
    } else {
        assert(evades(q, us, t));
        assert(f != king_of(q, us));
        if stage == 3 || stage == 4 {
            reveal(pawn_att);
        } else if stage > 5 {
            lemma_att_board(q[f].kind(), f, occ_of(q), t);
        }
        assert(reaches(q, us, g.ep, m));
        pin_and_evasion_rules(q, us, g.ep, m);
    }
}

/// Every legal and wanted move is generated in its stage.
#[verifier::spinoff_prover]
#[verifier::rlimit(40)]
proof fn lemma_stage_complete(g: Gen, m: Move)
    requires
        gen_ok(g),
        m.compact(),
        legal(g.q, g.us, g.ep, m),
        wanted(g, m),
    ensures
        ({
            let s = stage_of(g, m);
            &&& 0 <= s <= 5 || 11 <= s < 17
            &&& eligible(g, s, key_square(s, m))
            &&& yielded(g, s, key_square(s, m), m)
            &&& s == 0 || s == 5 || !double_check(g)
        }),
{
    let q = g.q;
    let us = g.us;
    let f = m.from().0 as int;
    let t = m.to().0 as int;
    let s = stage_of(g, m);
    lemma_king_of(q, us);
    lemma_piece_on(q, f, us, PieceType::Pawn);
    lemma_piece_on(q, f, us, PieceType::King);
    lemma_piece_on(q, f, us, q[f].kind());
    lemma_piece(q[t]);
    lemma_piece(q[f]);
    if m.is_en_passant() {
        lemma_rook_sym(f, 0, t);
        lemma_rook_sym(t, 0, f);
    } else if q[f].kind() == PieceType::King {
        assert(f == king(g));
    } else {
        assert(f != king(g));
        pin_and_evasion_rules(q, us, g.ep, m);
        assert(evades(q, us, t));
        assert(evasion(g, t));
        assert(!double_check(g));
        reveal(pawn_att);
        if q[f].kind() == PieceType::Pawn {
            assert(rel_rank(us, t) <= 9);
        }
    }
}

/// Law: the generated moves are the legal moves of the wanted sort, written
/// compactly, each exactly once.
pub proof fn generated_exactly_legal(g: Gen)
    requires
        gen_ok(g),
    ensures
        forall|m: Move| #[trigger]
            moves_of(g).contains(m) <==> m.compact() && legal(g.q, g.us, g.ep, m) && wanted(g, m),
        moves_of(g).no_duplicates(),
{
    lemma_generated(g);
    assert forall|m: Move| #[trigger] moves_of(g).contains(m) <==> m.compact() && legal(
        g.q,
        g.us,
        g.ep,
        m,
    ) && wanted(g, m) by {
        if legal(g.q, g.us, g.ep, m) && m.is_en_passant() && double_check(g) {
            let (x, y) = choose|x: int, y: int| #[trigger]
                is_checker(g.q, g.us, x) && #[trigger] is_checker(g.q, g.us, y) && x != y;
            no_en_passant_out_of_double_check(g.q, g.us, g.ep, m, x, y);
        }
    }
}

/// The same, stage by stage: out of a double check only the king's stage is
/// generated.
proof fn lemma_generated(g: Gen)
    requires
        gen_ok(g),
    ensures
        forall|m: Move| #[trigger]
            moves_of(g).contains(m) <==> m.compact() && legal(g.q, g.us, g.ep, m) && wanted(g, m)
                && !(double_check(g) && m.is_en_passant()),
        moves_of(g).no_duplicates(),
{
    let s0 = stage_moves(g, 0);
    let s1 = stage_moves(g, 1);
    let s2 = stage_moves(g, 2);
    let s3 = stage_moves(g, 3);
    let s4 = stage_moves(g, 4);
    let s5 = stage_moves(g, 5);
    let k = stage_moves(g, 11);
    let b = stage_moves(g, 12);
    let r = stage_moves(g, 13);
    let q = stage_moves(g, 14);
    let h = stage_moves(g, 15);
    let c = stage_moves(g, 16);
    let a2 = s1 + s2;
    let a3 = a2 + s3;
    let a4 = a3 + s4;
    let a5 = a4 + s5;
    let ak = a5 + k;
    let ab = ak + b;
    let ar = ab + r;
    let aq = ar + q;
    let ah = aq + h;
    let ac = ah + c;
    lemma_stage_moves(g, 0);
    lemma_stage_moves(g, 1);
    lemma_stage_moves(g, 2);
    lemma_stage_moves(g, 3);
    lemma_stage_moves(g, 4);
    lemma_stage_moves(g, 5);
    lemma_stage_moves(g, 11);
    lemma_stage_moves(g, 12);
    lemma_stage_moves(g, 13);
    lemma_stage_moves(g, 14);
    lemma_stage_moves(g, 15);
    lemma_stage_moves(g, 16);
    assert forall|m: Move| #[trigger] s0.contains(m) implies stage_of(g, m) == 0 && m.compact()
        && legal(g.q, g.us, g.ep, m) && wanted(g, m) && !m.is_en_passant() by {
        lemma_stage_sound(g, 0, m);
    }
    if double_check(g) {
        assert(moves_of(g) =~= s0);
        assert forall|m: Move| #[trigger]
            moves_of(g).contains(m) <==> m.compact() && legal(g.q, g.us, g.ep, m) && wanted(g, m)
                && !m.is_en_passant() by {
            if m.compact() && legal(g.q, g.us, g.ep, m) && wanted(g, m) && !m.is_en_passant() {
                lemma_stage_complete(g, m);
            }
        }
    } else {
        lemma_stage_split(g, s1, 1);
        lemma_stage_split(g, s2, 2);
        lemma_join(g, s1, s2, 1, 2);
        lemma_stage_split(g, s3, 3);
        lemma_join(g, a2, s3, 2, 3);
        lemma_stage_split(g, s4, 4);
        lemma_join(g, a3, s4, 3, 4);
        lemma_stage_split(g, s5, 5);
        lemma_join(g, a4, s5, 4, 5);
        lemma_stage_split(g, k, 11);
        lemma_join(g, a5, k, 5, 11);
        lemma_stage_split(g, b, 12);
        lemma_join(g, ak, b, 11, 12);
        lemma_stage_split(g, r, 13);
        lemma_join(g, ab, r, 12, 13);
        lemma_stage_split(g, q, 14);
        lemma_join(g, ar, q, 13, 14);
        lemma_stage_split(g, h, 15);
        lemma_join(g, aq, h, 14, 15);
        lemma_stage_split(g, c, 16);
        lemma_join(g, ah, c, 15, 16);
        assert forall|m: Move| s0.contains(m) implies !#[trigger] ac.contains(m) by {
            if ac.contains(m) {
                assert(in_stages(g, m, 1, 16));
            }
        }
        lemma_add_distinct(s0, ac);
        assert(moves_of(g) == s0 + ac);
        assert forall|m: Move| #[trigger]
            moves_of(g).contains(m) <==> m.compact() && legal(g.q, g.us, g.ep, m) && wanted(
                g,
                m,
            ) by {
            lemma_add_contains(s0, ac, m);
            if ac.contains(m) {
                assert(in_stages(g, m, 1, 16));
            }
            if m.compact() && legal(g.q, g.us, g.ep, m) && wanted(g, m) {
                lemma_stage_complete(g, m);
                if stage_of(g, m) != 0 {
                    assert(in_stages(g, m, 1, 16));
                    assert(ac.contains(m));
                }
            }
        }
    }
}

/// A legal and wanted move of one of the stages `lo` to `hi`.
spec fn in_stages(g: Gen, m: Move, lo: int, hi: int) -> bool {
    m.compact() && legal(g.q, g.us, g.ep, m) && wanted(g, m) && lo <= stage_of(g, m) <= hi
}

/// `s` holds the moves of the stages `lo` to `hi`.
spec fn holds_stages(g: Gen, s: Seq<Move>, lo: int, hi: int) -> bool {
    s.no_duplicates() && forall|m: Move| #[trigger] s.contains(m) <==> in_stages(g, m, lo, hi)
}

proof fn lemma_stage_split(g: Gen, s: Seq<Move>, stage: int)
    requires
        gen_ok(g),
        !double_check(g),
        1 <= stage <= 5 || 11 <= stage < 17,
        s == stage_moves(g, stage),
    ensures
        holds_stages(g, s, stage, stage),
{
    lemma_stage_moves(g, stage);
    assert forall|m: Move| #[trigger] s.contains(m) <==> in_stages(g, m, stage, stage) by {
        if s.contains(m) {
            lemma_stage_sound(g, stage, m);
        }
        if in_stages(g, m, stage, stage) {
            lemma_stage_complete(g, m);
        }
    }
}

proof fn lemma_join(g: Gen, a: Seq<Move>, b: Seq<Move>, hi: int, stage: int)
    requires
        gen_ok(g),
        holds_stages(g, a, 1, hi),
        holds_stages(g, b, stage, stage),
        1 <= hi < stage,
        hi == stage - 1 || (hi == 5 && stage == 11),
    ensures
        holds_stages(g, a + b, 1, stage),
{
    assert forall|m: Move| a.contains(m) implies !#[trigger] b.contains(m) by {
        assert(in_stages(g, m, 1, hi));
    }
    lemma_add_distinct(a, b);
    assert forall|m: Move| #[trigger] (a + b).contains(m) <==> in_stages(g, m, 1, stage) by {
        lemma_add_contains(a, b, m);
        assert(a.contains(m) <==> in_stages(g, m, 1, hi));
        assert(b.contains(m) <==> in_stages(g, m, stage, stage));
        let s = stage_of(g, m);
        if in_stages(g, m, 1, stage) {
            lemma_stage_complete(g, m);
            assert(1 <= s <= stage);
            assert(s <= 5 || 11 <= s);
            assert(s <= hi || s == stage);
            assert(a.contains(m) || b.contains(m));
        }
        if a.contains(m) || b.contains(m) {
            assert(in_stages(g, m, 1, hi) || in_stages(g, m, stage, stage));
            assert(1 <= s <= stage);
        }
    }
}

/// A board in play is a position that can arise.
pub proof fn lemma_board_gen(b: &Board, mode: u8)
    requires
        b.wf(),
    ensures
        gen_ok(gen_of(b, mode)),
{
}

} // verus!
