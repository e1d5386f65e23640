//! Static exchange evaluation.

use vstd::prelude::*;
use crate::attacks::{Tables, bishop_attacks, rook_attacks};
use crate::board::{Board, lemma_attack_view};
use crate::geometry::{
    between_sq, bishop_att, dir, is_diagonal, is_straight, lemma_dir, lemma_leap_between,
    lemma_rook_is_line, lemma_rook_sym, on_ray, pawn_att, rook_att,
};
use crate::legal::{clear_between, leaps, lemma_att_parts, lemma_between, lemma_occ_after};
use crate::params::{
    VAL_BISHOP, VAL_CARDINAL, VAL_KNIGHT, VAL_MARSHAL, VAL_PAWN, VAL_QUEEN, VAL_ROOK,
};
use crate::play::lemma_moved;
use crate::position::{
    attacker, col_at, diagonal_kind, lemma_occ_of, lemma_piece, lemma_piece_on, moved, occ_at,
    occ_of, piece_on, reaches, straight_kind,
};
use crate::squareset::{
    SquareSet, bit, group_bits, lemma_bits_equal, lemma_squares_members, squares,
};
use crate::types::{Color, Move, Piece, PieceType, Square};

verus! {

broadcast use {group_bits, lemma_occ_of};

/// Exchange value of a piece type, in centipawns.
///
/// The king is 0: it can only ever be the final attacker, and that case is
/// handled explicitly at the bottom of the loop rather than by arithmetic.
#[verifier::allow_in_spec]
pub fn see_value(pt: PieceType) -> i32
    returns
        (match pt {
            PieceType::Pawn => VAL_PAWN,
            PieceType::Knight => VAL_KNIGHT,
            PieceType::Bishop => VAL_BISHOP,
            PieceType::Rook => VAL_ROOK,
            PieceType::Queen => VAL_QUEEN,
            PieceType::Marshal => VAL_MARSHAL,
            PieceType::Cardinal => VAL_CARDINAL,
            PieceType::King => 0i32,
        }),
{
    match pt {
        PieceType::Pawn => VAL_PAWN,
        PieceType::Knight => VAL_KNIGHT,
        PieceType::Bishop => VAL_BISHOP,
        PieceType::Rook => VAL_ROOK,
        PieceType::Queen => VAL_QUEEN,
        PieceType::Marshal => VAL_MARSHAL,
        PieceType::Cardinal => VAL_CARDINAL,
        PieceType::King => 0,
    }
}

/// The value of what stands on a square, 0 for nothing.
pub open spec fn piece_value(p: Piece) -> int {
    if p.valid() {
        see_value(p.kind()) as int
    } else {
        0
    }
}

fn value_of(p: Piece) -> (r: i32)
    requires
        p.valid() || p == Piece::none(),
    ensures
        r == piece_value(p),
        0 <= r <= 999,
{
    if p.is_none() {
        0
    } else {
        see_value(p.piece_type())
    }
}

// -- exchanges as a game ------------------------------------------------------------

/// `side`'s piece of type `pt` on `a`, one of those still in `occ`, can take on `to`.
pub open spec fn strikes(q: Seq<Piece>, to: int, occ: u128, side: Color, pt: PieceType, a: int) -> bool {
    bit(occ, a) && attacker(q, occ, to, a) && piece_on(q, a, side, pt)
}

pub open spec fn any_strikes(q: Seq<Piece>, to: int, occ: u128, side: Color, pt: PieceType) -> bool {
    exists|a: int| #[trigger] strikes(q, to, occ, side, pt, a)
}

/// Can `side` take on `to` at all?
pub open spec fn can_take(q: Seq<Piece>, to: int, occ: u128, side: Color) -> bool {
    exists|a: int| bit(occ, a) && #[trigger] attacker(q, occ, to, a) && col_at(q, a, side)
}

/// The cheapest type with which `side` can take on `to`, the king aside.
pub open spec fn cheapest(q: Seq<Piece>, to: int, occ: u128, side: Color) -> Option<PieceType> {
    if any_strikes(q, to, occ, side, PieceType::Pawn) {
        Some(PieceType::Pawn)
    } else if any_strikes(q, to, occ, side, PieceType::Knight) {
        Some(PieceType::Knight)
    } else if any_strikes(q, to, occ, side, PieceType::Bishop) {
        Some(PieceType::Bishop)
    } else if any_strikes(q, to, occ, side, PieceType::Rook) {
        Some(PieceType::Rook)
    } else if any_strikes(q, to, occ, side, PieceType::Cardinal) {
        Some(PieceType::Cardinal)
    } else if any_strikes(q, to, occ, side, PieceType::Marshal) {
        Some(PieceType::Marshal)
    } else if any_strikes(q, to, occ, side, PieceType::Queen) {
        Some(PieceType::Queen)
    } else {
        None
    }
}

pub open spec fn is_first_striker(
    q: Seq<Piece>,
    to: int,
    occ: u128,
    side: Color,
    pt: PieceType,
    a: int,
) -> bool {
    strikes(q, to, occ, side, pt, a) && forall|b: int|
        #![trigger strikes(q, to, occ, side, pt, b)]
        b < a ==> !strikes(q, to, occ, side, pt, b)
}

/// The lowest square from which `side` can take with a piece of type `pt`.
pub open spec fn first_striker(q: Seq<Piece>, to: int, occ: u128, side: Color, pt: PieceType) -> int {
    choose|a: int| is_first_striker(q, to, occ, side, pt, a)
}

pub open spec fn without(occ: u128, a: int) -> u128 {
    occ & !(1u128 << (a as u128))
}

/// What `side` gains by taking the piece of value `v` on `to`, when both sides
/// take with the cheapest piece or stop, and a king takes only what is not
/// defended.
pub open spec fn exchange(q: Seq<Piece>, to: int, occ: u128, side: Color, v: int) -> int
    decreases squares(occ).len(),
{
    if !can_take(q, to, occ, side) {
        0
    } else {
        match cheapest(q, to, occ, side) {
            None => if can_take(q, to, occ, side.flip()) {
                0
            } else {
                v
            },
            Some(pt) => {
                let a = first_striker(q, to, occ, side, pt);
                proof {
                    lemma_without(occ, a);
                }
                if !bit(occ, a) {
                    0
                } else {
                    let rest = exchange(q, to, without(occ, a), side.flip(), see_value(pt) as int);
                    if v - rest > 0 {
                        v - rest
                    } else {
                        0
                    }
                }
            },
        }
    }
}

pub proof fn lemma_without(occ: u128, a: int)
    ensures
        bit(occ, a) ==> squares(without(occ, a)).len() < squares(occ).len(),
        bit(occ, a) ==> forall|i: int| #[trigger] bit(without(occ, a), i) <==> bit(occ, i) && i != a,
{
    if bit(occ, a) {
        let y = without(occ, a);
        assert forall|i: int| #[trigger] bit(y, i) <==> bit(occ, i) && i != a by {}
        let s = squares(occ);
        let r = squares(y);
        lemma_squares_members(occ);
        lemma_squares_members(y);
        assert(s.contains(a));
        let k = choose|k: int| 0 <= k < s.len() && s[k] == a;
        let cut = s.remove(k);
        assert forall|i: int| #[trigger] r.contains(i) implies cut.contains(i) by {
            assert(s.contains(i));
            let j = choose|j: int| 0 <= j < s.len() && s[j] == i;
            if j < k {
                assert(cut[j] == i);
            } else {
                assert(cut[j - 1] == i);
            }
        }
        lemma_fewer(r, cut);
    }
}

/// An ascending row whose members all occur in another is no longer than it.
pub proof fn lemma_fewer(r: Seq<int>, s: Seq<int>)
    requires
        forall|i: int| #[trigger] r.contains(i) ==> s.contains(i),
        forall|i: int, j: int| 0 <= i < j < r.len() ==> r[i] < r[j],
    ensures
        r.len() <= s.len(),
    decreases r.len(),
{
    if r.len() > 0 {
        let x = r.last();
        assert(r.contains(x));
        let k = choose|k: int| 0 <= k < s.len() && s[k] == x;
        let r1 = r.drop_last();
        let s1 = s.remove(k);
        assert forall|i: int| #[trigger] r1.contains(i) implies s1.contains(i) by {
            let j = choose|j: int| 0 <= j < r1.len() && r1[j] == i;
            assert(r[j] == i && r[j] < x);
            assert(r.contains(i));
            let l = choose|l: int| 0 <= l < s.len() && s[l] == i;
            if l < k {
                assert(s1[l] == i);
            } else {
                assert(s1[l - 1] == i);
            }
        }
        lemma_fewer(r1, s1);
    }
}

/// No exchange gains less than nothing or more than the piece at stake.
pub proof fn lemma_exchange_bounds(q: Seq<Piece>, to: int, occ: u128, side: Color, v: int)
    requires
        v >= 0,
    ensures
        0 <= exchange(q, to, occ, side, v) <= v,
    decreases squares(occ).len(),
{
    if can_take(q, to, occ, side) {
        match cheapest(q, to, occ, side) {
            None => {},
            Some(pt) => {
                let a = first_striker(q, to, occ, side, pt);
                lemma_without(occ, a);
                if bit(occ, a) {
                    lemma_exchange_bounds(
                        q,
                        to,
                        without(occ, a),
                        side.flip(),
                        see_value(pt) as int,
                    );
                }
            },
        }
    }
}

/// The least threshold of an exchange: more below, what a move takes at once might not
/// be measured against it.
pub const LEAST_THRESHOLD: i32 = -2_147_481_749;

/// What `m` takes at once: the victim, and the upgrade of a promotion.
pub open spec fn taken_value(q: Seq<Piece>, m: Move) -> int {
    if m.is_en_passant() {
        VAL_PAWN as int
    } else if m.is_promotion() {
        piece_value(q[m.to().0 as int]) + see_value(m.promo_kind()) - VAL_PAWN
    } else {
        piece_value(q[m.to().0 as int])
    }
}

/// The value of the piece that then stands on the destination.
pub open spec fn standing_value(q: Seq<Piece>, m: Move) -> int {
    if m.is_en_passant() {
        VAL_PAWN as int
    } else if m.is_promotion() {
        see_value(m.promo_kind()) as int
    } else {
        piece_value(q[m.from().0 as int])
    }
}

/// The exchange value of `m`: what it takes less what the opponent then gains.
pub open spec fn see(q: Seq<Piece>, us: Color, m: Move) -> int {
    taken_value(q, m) - exchange(
        q,
        m.to().0 as int,
        occ_of(moved(q, us, m)),
        us.flip(),
        standing_value(q, m),
    )
}

// -- attackers as pieces leave ---------------------------------------------------------

/// When an attacker leaves, what it screened is what stands behind it on its line.
proof fn lemma_reveal(q: Seq<Piece>, to: int, occ: u128, x: int, a: int)
    requires
        bit(occ, x),
        attacker(q, occ, to, x),
        q[x].kind() != PieceType::King,
        a != x,
    ensures
        attacker(q, without(occ, x), to, a) <==> attacker(q, occ, to, a) || (0 <= a < 100
            && q[a].valid() && ((reveals_diagonal(q[x].kind()) && diagonal_kind(q[a].kind())
            && bishop_att(to, without(occ, x), a)) || (reveals_straight(q[x].kind())
            && straight_kind(q[a].kind()) && rook_att(to, without(occ, x), a)))),
{
    let occ1 = without(occ, x);
    lemma_without(occ, x);
    lemma_att_parts(q[a], a, occ, to);
    lemma_att_parts(q[a], a, occ1, to);
    lemma_att_parts(q[x], x, occ, to);
    lemma_attack_view(q, occ1, to, a);
    assert(clear_between(to, a, occ) ==> clear_between(to, a, occ1));
    if attacker(q, occ1, to, a) && !attacker(q, occ, to, a) {
        let u = choose|u: int| #[trigger] between_sq(to, a, u) && bit(occ, u);
        assert(!bit(occ1, u));
        assert(u == x);
        lemma_between(to, a, x);
        lemma_rook_is_line(to, occ1, a);
        lemma_dir(to, x);
        if leaps(q[x], x, to) {
            if q[x].kind() == PieceType::Pawn {
                assert(is_diagonal(dir(to, x))) by {
                    reveal(pawn_att);
                    reveal(dir);
                    reveal(on_ray);
                }
            } else {
                lemma_rook_sym(x, occ, to);
                lemma_leap_between(to, x, x);
                assert(false);
            }
        }
        lemma_rook_sym(to, occ1, a);
        lemma_rook_sym(a, occ1, to);
        assert(!leaps(q[a], a, to));
        assert(is_straight(dir(to, a)) || is_diagonal(dir(to, a)));
        if rook_att(to, occ1, a) && straight_kind(q[a].kind()) {
            assert(is_straight(dir(to, x)));
            assert(reveals_straight(q[x].kind()));
        } else {
            assert(bishop_att(to, occ1, a) && diagonal_kind(q[a].kind()));
            assert(is_diagonal(dir(to, x)));
            assert(reveals_diagonal(q[x].kind()));
        }
    }
}

/// Types whose departure can reveal a slider on a diagonal.
pub open spec fn reveals_diagonal(pt: PieceType) -> bool {
    pt == PieceType::Pawn || pt == PieceType::Bishop || pt == PieceType::Cardinal || pt
        == PieceType::Queen
}

/// Types whose departure can reveal a slider on a file or rank.
pub open spec fn reveals_straight(pt: PieceType) -> bool {
    pt == PieceType::Rook || pt == PieceType::Marshal || pt == PieceType::Queen
}

/// Diagonal riders of both colours: the pieces a bishop-line reveal can find.
fn diagonal_riders(b: &Board) -> (r: SquareSet)
    requires
        b.placed(),
    ensures
        forall|a: int| #[trigger]
            r.contains(a) <==> occ_at(b.q(), a) && diagonal_kind(b.q()[a].kind()),
{
    b.pieces(PieceType::Bishop) | b.pieces(PieceType::Queen) | b.pieces(PieceType::Cardinal)
}

/// Straight riders of both colours: the pieces a rook-line reveal can find.
fn straight_riders(b: &Board) -> (r: SquareSet)
    requires
        b.placed(),
    ensures
        forall|a: int| #[trigger]
            r.contains(a) <==> occ_at(b.q(), a) && straight_kind(b.q()[a].kind()),
{
    b.pieces(PieceType::Rook) | b.pieces(PieceType::Queen) | b.pieces(PieceType::Marshal)
}

/// The attackers still on the board.
spec fn tracks(q: Seq<Piece>, to: int, occ: u128, attackers: SquareSet) -> bool {
    forall|a: int|
        #![trigger bit(attackers.0, a)]
        bit(occ, a) ==> bit(attackers.0, a) == attacker(q, occ, to, a)
}

/// The lowest square of `mine` with a piece of type `pt`.
fn first_of(
    b: &Board,
    mine: SquareSet,
    pt: PieceType,
    Ghost(to): Ghost<int>,
    Ghost(occ): Ghost<u128>,
    Ghost(side): Ghost<Color>,
) -> (r: Option<Square>)
    requires
        b.placed(),
        forall|a: int| #[trigger]
            mine.contains(a) <==> bit(occ, a) && attacker(b.q(), occ, to, a) && col_at(
                b.q(),
                a,
                side,
            ),
    ensures
        match r {
            None => !any_strikes(b.q(), to, occ, side, pt),
            Some(s) => s.0 < 100 && any_strikes(b.q(), to, occ, side, pt) && is_first_striker(
                b.q(),
                to,
                occ,
                side,
                pt,
                s.0 as int,
            ),
        },
{
    let ghost q = b.q();
    let set = mine & b.pieces(pt);
    proof {
        assert forall|a: int| #[trigger] strikes(q, to, occ, side, pt, a) <==> set.contains(a) by {
            lemma_piece_on(q, a, side, pt);
        }
    }
    if set.any() {
        let s = set.lsb();
        assert(strikes(q, to, occ, side, pt, s.0 as int));
        Some(s)
    } else {
        None
    }
}

/// The cheapest attacker in `mine`: its type and the square it stands on.
fn least_attacker(
    b: &Board,
    mine: SquareSet,
    Ghost(to): Ghost<int>,
    Ghost(occ): Ghost<u128>,
    Ghost(side): Ghost<Color>,
) -> (r: Option<(PieceType, Square)>)
    requires
        b.placed(),
        forall|a: int| #[trigger]
            mine.contains(a) <==> bit(occ, a) && attacker(b.q(), occ, to, a) && col_at(
                b.q(),
                a,
                side,
            ),
    ensures
        match r {
            None => cheapest(b.q(), to, occ, side) is None,
            Some((pt, s)) => cheapest(b.q(), to, occ, side) == Some(pt) && s.0 < 100
                && is_first_striker(b.q(), to, occ, side, pt, s.0 as int) && pt != PieceType::King,
        },
{
    match first_of(b, mine, PieceType::Pawn, Ghost(to), Ghost(occ), Ghost(side)) {
        Some(s) => return Some((PieceType::Pawn, s)),
        None => {},
    }
    match first_of(b, mine, PieceType::Knight, Ghost(to), Ghost(occ), Ghost(side)) {
        Some(s) => return Some((PieceType::Knight, s)),
        None => {},
    }
    match first_of(b, mine, PieceType::Bishop, Ghost(to), Ghost(occ), Ghost(side)) {
        Some(s) => return Some((PieceType::Bishop, s)),
        None => {},
    }
    match first_of(b, mine, PieceType::Rook, Ghost(to), Ghost(occ), Ghost(side)) {
        Some(s) => return Some((PieceType::Rook, s)),
        None => {},
    }
    match first_of(b, mine, PieceType::Cardinal, Ghost(to), Ghost(occ), Ghost(side)) {
        Some(s) => return Some((PieceType::Cardinal, s)),
        None => {},
    }
    match first_of(b, mine, PieceType::Marshal, Ghost(to), Ghost(occ), Ghost(side)) {
        Some(s) => return Some((PieceType::Marshal, s)),
        None => {},
    }
    match first_of(b, mine, PieceType::Queen, Ghost(to), Ghost(occ), Ghost(side)) {
        Some(s) => Some((PieceType::Queen, s)),
        None => None,
    }
}

/// Does `m` win at least `threshold` by exchanges on its destination?
#[verifier::spinoff_prover]
#[verifier::rlimit(60)]
pub fn see_ge(b: &Board, t: &Tables, m: Move, threshold: i32) -> (r: bool)
    requires
        b.wf(),
        reaches(b.q(), b.stm, b.ep, m),
        taken_value(b.q(), m) - threshold <= i32::MAX,
    ensures
        r == (see(b.q(), b.stm, m) >= threshold),
{
    let ghost q = b.q();
    let us = b.stm;
    let from = m.from();
    let to = m.to();
    let ghost x = to.0 as int;
    let moved_piece = b.piece_at(from);
    let target = b.piece_at(to);
    proof {
        lemma_moved(q, us, b.ep, m);
        lemma_piece(moved_piece);
        lemma_piece(target);
    }
    let captured_value: i32;
    let moving_value: i32;
    let mut occ = b.occupied();
    if m.is_en_passant() {
        let cap = Board::ep_victim(us, to);
        captured_value = VAL_PAWN;
        moving_value = VAL_PAWN;
        occ = occ - SquareSet::from_square(cap);
    } else if m.is_promotion() {
        // The piece left standing on `to` is the promoted one, so that is what
        // a recapture wins and what the swap-off must value.
        let promo = see_value(m.promo());
        captured_value = value_of(target) + promo - VAL_PAWN;
        moving_value = promo;
    } else {
        // A move that stays a pawn inside the optional promotion zone lands
        // here, and that is correct: the piece standing on `to` afterwards *is*
        // a pawn.
        captured_value = value_of(target);
        moving_value = value_of(moved_piece);
    }
    let mut swap: i32 = captured_value - threshold;
    let ghost occ0 = occ_of(moved(q, us, m));
    proof {
        lemma_exchange_bounds(q, x, occ0, us.flip(), moving_value as int);
    }
    if swap < 0 {
        return false;
    }
    let ghost bound = swap as int;
    swap = moving_value - swap;
    if swap <= 0 {
        return true;
    }
    occ = (occ - SquareSet::from_square(from)) | SquareSet::from_square(to);
    proof {
        assert forall|u: int| bit(occ.0, u) == bit(occ0, u) by {
            lemma_occ_after(q, us, b.ep, m, u);
        }
        lemma_bits_equal(occ.0, occ0);
    }
    let mut attackers = b.attackers_to(t, to, occ);
    let mut stm = us;
    let mut result = true;
    let ghost goal = see(q, us, m) >= threshold;
    let ghost mut v: int = moving_value as int;
    loop
        invariant_except_break
            result ==> 1 <= swap <= v && (goal <==> exchange(q, x, occ.0, stm.flip(), v) <= v
                - swap),
            !result ==> 0 <= swap < v && (goal <==> exchange(q, x, occ.0, stm.flip(), v) >= v
                - swap),
        invariant
            b.wf(),
            q == b.q(),
            to.valid(),
            x == to.0,
            tracks(q, x, occ.0, attackers),
            0 <= v <= 999,
            goal == (see(b.q(), b.stm, m) >= threshold),
        ensures
            result == goal,
        decreases squares(occ.0).len(),
    {
        stm = stm.flip();
        attackers = attackers & occ;
        let mine = attackers & b.colors(stm);
        proof {
            assert forall|a: int| #[trigger] mine.contains(a) <==> bit(occ.0, a) && attacker(
                q,
                occ.0,
                x,
                a,
            ) && col_at(q, a, stm) by {}
        }
        if mine.is_empty() {
            proof {
                assert(!can_take(q, x, occ.0, stm)) by {
                    assert forall|a: int| bit(occ.0, a) && #[trigger] attacker(
                        q,
                        occ.0,
                        x,
                        a,
                    ) implies !col_at(q, a, stm) by {
                        assert(!mine.contains(a));
                    }
                }
            }
            break;
        }
        proof {
            let a = choose|a: int| #[trigger] mine.contains(a);
            assert(bit(occ.0, a) && attacker(q, occ.0, x, a) && col_at(q, a, stm));
            assert(can_take(q, x, occ.0, stm));
        }
        result = !result;
        match least_attacker(b, mine, Ghost(x), Ghost(occ.0), Ghost(stm)) {
            Some((pt, s)) => {
                let ghost a = s.0 as int;
                proof {
                    let f = first_striker(q, x, occ.0, stm, pt);
                    assert(is_first_striker(q, x, occ.0, stm, pt, f));
                    assert(f == a);
                    lemma_without(occ.0, a);
                    lemma_exchange_bounds(
                        q,
                        x,
                        without(occ.0, a),
                        stm.flip(),
                        see_value(pt) as int,
                    );
                    lemma_piece_on(q, a, stm, pt);
                }
                swap = see_value(pt) - swap;
                let least: i32 = if result {
                    1
                } else {
                    0
                };
                if swap < least {
                    return result;
                }
                let ghost before = occ.0;
                occ = occ - SquareSet::from_square(s);
                proof {
                    assert forall|i: int| bit(occ.0, i) == bit(without(before, a), i) by {}
                    lemma_bits_equal(occ.0, without(before, a));
                }
                // Reveal riders behind the piece that just left. Computed from
                // `to` against the updated occupancy, so it is correct whether
                // the capturer rode or leapt to get here.
                let ghost att0 = attackers;
                if pt == PieceType::Pawn || pt == PieceType::Bishop || pt == PieceType::Cardinal
                    || pt == PieceType::Queen {
                    attackers = attackers | (bishop_attacks(t, to, occ) & diagonal_riders(b));
                }
                if pt == PieceType::Rook || pt == PieceType::Marshal || pt == PieceType::Queen {
                    attackers = attackers | (rook_attacks(t, to, occ) & straight_riders(b));
                }
                proof {
                    assert forall|c: int|
                        #![trigger bit(attackers.0, c)]
                        bit(occ.0, c) implies bit(attackers.0, c) == attacker(
                        q,
                        occ.0,
                        x,
                        c,
                    ) by {
                        lemma_reveal(q, x, before, a, c);
                        assert(bit(att0.0, c) == attacker(q, before, x, c));
                    }
                    v = see_value(pt) as int;
                }
            },
            None => {
                // Only the king is left: it may capture only if the square is
                // then undefended.
                let others = attackers & occ & b.colors(stm.flip());
                let defended = others.any();
                proof {
                    if defended {
                        let c = choose|c: int| #[trigger] others.contains(c);
                        assert(bit(occ.0, c) && attacker(q, occ.0, x, c) && col_at(
                            q,
                            c,
                            stm.flip(),
                        ));
                    } else {
                        assert forall|c: int| bit(occ.0, c) && #[trigger] attacker(
                            q,
                            occ.0,
                            x,
                            c,
                        ) implies !col_at(q, c, stm.flip()) by {
                            assert(!others.contains(c));
                        }
                    }
                }
                return if defended {
                    !result
                } else {
                    result
                };
            },
        }
    }
    result
}

} // verus!
