//! Attack generation: leaper tables, rank lookup, and ray attacks for sliders.
//!
//! Everything is built once at start-up into one immutable table block, which
//! every function that needs attacks takes by reference.

use vstd::prelude::*;
use crate::geometry::{
    between_sq, bishop_att, bishop_line, dir, dist, fl, is_dir, is_straight, king_att, knight_att,
    lemma_dir, lemma_ray_board, lemma_ray_climb, lemma_ray_order, lemma_ray_trans,
    lemma_rook_is_line, line_sq, on_ray, opp, pawn_att, rk, rook_att, rook_line, slides, type_att,
};
use crate::see::lemma_fewer;
use crate::squareset::{
    SquareSet, bit, group_bits, lemma_bit_low_mask, lemma_bits_equal, lemma_squares_members,
    squares,
};
use crate::types::{Color, PieceType, Square};
use crate::zobrist::{draw, Zobrist};

verus! {

broadcast use group_bits;

/// North, and the other five directions that the ray lookups use.
pub const N: usize = 0;

pub const NE: usize = 1;

pub const SE: usize = 3;

pub const S: usize = 4;

pub const SW: usize = 5;

pub const NW: usize = 7;

/// File component of `k` steps in direction `d`.
spec fn step_f(d: int, k: int) -> int {
    if d == 1 || d == 2 || d == 3 {
        k
    } else if d == 5 || d == 6 || d == 7 {
        -k
    } else {
        0
    }
}

/// Rank component of `k` steps in direction `d`.
spec fn step_r(d: int, k: int) -> int {
    if d == 0 || d == 1 || d == 7 {
        k
    } else if d == 3 || d == 4 || d == 5 {
        -k
    } else {
        0
    }
}

/// One step in direction `d`, as a change of file and of rank.
fn delta(d: usize) -> (r: (i32, i32))
    requires
        d < 8,
    ensures
        r.0 == step_f(d as int, 1),
        r.1 == step_r(d as int, 1),
{
    let df: i32 = if d == 1 || d == 2 || d == 3 {
        1
    } else if d == 5 || d == 6 || d == 7 {
        -1
    } else {
        0
    };
    let dr: i32 = if d == 0 || d == 1 || d == 7 {
        1
    } else if d == 3 || d == 4 || d == 5 {
        -1
    } else {
        0
    };
    (df, dr)
}

fn on_board(f: i32, r: i32) -> (b: bool)
    ensures
        b == (0 <= f < 10 && 0 <= r < 10),
{
    0 <= f && f < 10 && 0 <= r && r < 10
}

fn sq_at(f: i32, r: i32) -> (s: Square)
    requires
        0 <= f < 10,
        0 <= r < 10,
    ensures
        s.0 == r * 10 + f,
        s.valid(),
        fl(s.0 as int) == f,
        rk(s.0 as int) == r,
{
    Square::from_file_rank(f as u8, r as u8)
}

/// The square `k` steps away from `s` in direction `d` is at distance `k` on
/// the ray, and it is the only one.
proof fn lemma_step(s: int, d: int, k: int, p: int)
    requires
        0 <= s < 100,
        is_dir(d),
        k >= 1,
        0 <= p < 100,
        fl(p) == fl(s) + step_f(d, k),
        rk(p) == rk(s) + step_r(d, k),
    ensures
        on_ray(s, d, p),
        dist(s, p) == k,
        forall|t: int| #[trigger] on_ray(s, d, t) && dist(s, t) == k ==> t == p,
{
    reveal(on_ray);
}

/// Nothing lies on a ray at or beyond the distance at which it left the board.
proof fn lemma_step_off(s: int, d: int, k: int)
    requires
        0 <= s < 100,
        is_dir(d),
        k >= 1,
        !(0 <= fl(s) + step_f(d, k) < 10 && 0 <= rk(s) + step_r(d, k) < 10),
    ensures
        forall|t: int| #[trigger] on_ray(s, d, t) ==> dist(s, t) < k,
{
    reveal(on_ray);
}

proof fn lemma_ray_dist(s: int, d: int, t: int)
    requires
        on_ray(s, d, t),
    ensures
        dist(s, t) >= 1,
        dist(s, t) < 10,
{
    reveal(on_ray);
}

/// Squares attacked in direction `d` from `sq`, stopping on (and including) the
/// first occupied square.
fn ray_attacks(sq: Square, d: usize, occ: SquareSet) -> (res: SquareSet)
    requires
        sq.valid(),
        d < 8,
    ensures
        forall|t: int| #[trigger] res.contains(t) <==> slides(sq.0 as int, d as int, occ.0, t),
{
    let ghost s = sq.0 as int;
    let ghost di = d as int;
    let mut res = SquareSet::empty();
    let (df, dr) = delta(d);
    let mut f: i32 = sq.file() as i32 + df;
    let mut r: i32 = sq.rank() as i32 + dr;
    let ghost mut k: int = 1;
    proof {
        assert forall|t: int| on_ray(s, di, t) implies dist(s, t) >= 1 by {
            lemma_ray_dist(s, di, t);
        }
    }
    while on_board(f, r)
        invariant
            s == sq.0,
            di == d,
            sq.valid(),
            is_dir(di),
            df == step_f(di, 1),
            dr == step_r(di, 1),
            k >= 1,
            k <= 10,
            f == fl(s) + step_f(di, k),
            r == rk(s) + step_r(di, k),
            forall|t: int| #[trigger] res.contains(t) <==> on_ray(s, di, t) && dist(s, t) < k,
            forall|u: int| #[trigger] on_ray(s, di, u) && dist(s, u) < k ==> !bit(occ.0, u),
        decreases 11 - k,
    {
        let p = sq_at(f, r);
        let ghost before = res;
        proof {
            lemma_step(s, di, k, p.0 as int);
            lemma_ray_dist(s, di, p.0 as int);
        }
        res.set(p);
        proof {
            assert forall|t: int| #[trigger] res.contains(t) <==> on_ray(s, di, t) && dist(s, t)
                < k + 1 by {
                assert(res.contains(t) <==> before.contains(t) || t == p.0);
            }
        }
        if occ.has(p) {
            proof {
                assert forall|t: int| #[trigger] res.contains(t) <==> slides(s, di, occ.0, t) by {
                    if res.contains(t) {
                        assert forall|u: int| #[trigger] on_ray(s, di, u) && on_ray(
                            u,
                            di,
                            t,
                        ) implies !bit(occ.0, u) by {
                            lemma_ray_trans(s, di, u, t);
                        }
                    }
                    if slides(s, di, occ.0, t) && dist(s, t) > k {
                        lemma_ray_order(s, di, p.0 as int, t);
                        assert(on_ray(s, di, p.0 as int) && on_ray(p.0 as int, di, t));
                    }
                }
            }
            return res;
        }
        f = f + df;
        r = r + dr;
        proof {
            assert forall|u: int| #[trigger] on_ray(s, di, u) && dist(s, u) < k + 1 implies !bit(
                occ.0,
                u,
            ) by {
                if dist(s, u) == k {
                    assert(u == p.0);
                }
            }
            k = k + 1;
        }
    }
    proof {
        lemma_step_off(s, di, k);
        assert forall|t: int| #[trigger] res.contains(t) <==> slides(s, di, occ.0, t) by {
            if on_ray(s, di, t) {
                assert(dist(s, t) < k);
                assert forall|u: int| #[trigger] on_ray(s, di, u) && on_ray(u, di, t) implies !bit(
                    occ.0,
                    u,
                ) by {
                    lemma_ray_trans(s, di, u, t);
                }
            }
        }
    }
    res
}

/// Squares attacked along the straight (or the diagonal) directions from `sq`.
fn sliding_attacks(sq: Square, straight: bool, occ: SquareSet) -> (res: SquareSet)
    requires
        sq.valid(),
    ensures
        straight ==> forall|t: int| #[trigger]
            res.contains(t) <==> rook_att(sq.0 as int, occ.0, t),
        !straight ==> forall|t: int| #[trigger]
            res.contains(t) <==> bishop_att(sq.0 as int, occ.0, t),
{
    if straight {
        ray_attacks(sq, 0, occ) | ray_attacks(sq, 2, occ) | ray_attacks(sq, 4, occ) | ray_attacks(
            sq,
            6,
            occ,
        )
    } else {
        ray_attacks(sq, 1, occ) | ray_attacks(sq, 3, occ) | ray_attacks(sq, 5, occ) | ray_attacks(
            sq,
            7,
            occ,
        )
    }
}

/// Adds the square at offset (`df`, `dr`) from `sq`, if it is on the board.
fn add_leap(set: &mut SquareSet, sq: Square, df: i32, dr: i32)
    requires
        sq.valid(),
        -2 <= df <= 2,
        -2 <= dr <= 2,
    ensures
        forall|t: int| #[trigger]
            final(set).contains(t) <==> old(set).contains(t) || (0 <= t < 100 && fl(t) == fl(
                sq.0 as int,
            ) + df && rk(t) == rk(sq.0 as int) + dr),
{
    let f: i32 = sq.file() as i32 + df;
    let r: i32 = sq.rank() as i32 + dr;
    if on_board(f, r) {
        set.set(sq_at(f, r));
    }
}

fn knight_from(sq: Square) -> (res: SquareSet)
    requires
        sq.valid(),
    ensures
        forall|t: int| #[trigger] res.contains(t) <==> knight_att(sq.0 as int, t),
{
    reveal(knight_att);
    let mut set = SquareSet::empty();
    add_leap(&mut set, sq, 1, 2);
    add_leap(&mut set, sq, 2, 1);
    add_leap(&mut set, sq, 2, -1);
    add_leap(&mut set, sq, 1, -2);
    add_leap(&mut set, sq, -1, -2);
    add_leap(&mut set, sq, -2, -1);
    add_leap(&mut set, sq, -2, 1);
    add_leap(&mut set, sq, -1, 2);
    set
}

fn king_from(sq: Square) -> (res: SquareSet)
    requires
        sq.valid(),
    ensures
        forall|t: int| #[trigger] res.contains(t) <==> king_att(sq.0 as int, t),
{
    reveal(king_att);
    let mut set = SquareSet::empty();
    add_leap(&mut set, sq, 0, 1);
    add_leap(&mut set, sq, 1, 1);
    add_leap(&mut set, sq, 1, 0);
    add_leap(&mut set, sq, 1, -1);
    add_leap(&mut set, sq, 0, -1);
    add_leap(&mut set, sq, -1, -1);
    add_leap(&mut set, sq, -1, 0);
    add_leap(&mut set, sq, -1, 1);
    set
}

fn pawn_from(c: Color, sq: Square) -> (res: SquareSet)
    requires
        sq.valid(),
    ensures
        forall|t: int| #[trigger] res.contains(t) <==> pawn_att(c, sq.0 as int, t),
{
    reveal(pawn_att);
    let res = SquareSet::from_square(sq).pawn_attacks(c);
    proof {
        let s = sq.0 as int;
        assert forall|t: int| #[trigger] res.contains(t) <==> pawn_att(c, s, t) by {
            assert(0 <= t < 128 || !res.contains(t));
        }
    }
    res
}

/// Is file `f` reached along a rank from `file` when the files in `occ` are
/// occupied?
pub open spec fn rank_reach(file: int, occ: u128, f: int) -> bool {
    0 <= f < 10 && f != file && forall|g: int|
        (file < g < f || f < g < file) ==> !#[trigger] bit(occ, g)
}

/// One entry of the rank table.
fn rank_entry(file: u8, occ: u128) -> (e: u16)
    requires
        file < 10,
    ensures
        forall|f: int| #[trigger] bit(e as u128, f) <==> rank_reach(file as int, occ, f),
{
    let mut a: u128 = 0;
    let mut f: u8 = file;
    let mut open = true;
    while f > 0 && open
        invariant
            file < 10,
            f <= file,
            forall|h: int| #[trigger] bit(a, h) <==> f <= h < file && 0 <= h,
            open ==> forall|g: int| f <= g < file ==> !#[trigger] bit(occ, g),
            !open ==> bit(occ, f as int) && f < file,
            forall|g: int| f < g < file ==> !#[trigger] bit(occ, g),
        decreases f,
    {
        f = f - 1;
        a = a | (1u128 << (f as u128));
        if SquareSet(occ).has(Square(f)) {
            open = false;
        }
    }
    let ghost low = a;
    proof {
        assert forall|h: int| #[trigger] bit(low, h) <==> h < file && rank_reach(
            file as int,
            occ,
            h,
        ) by {
            if h < file && rank_reach(file as int, occ, h) && h < f {
                assert(!bit(occ, f as int));
            }
        }
    }
    let mut f: u8 = file;
    let mut open = true;
    while f < 9 && open
        invariant
            file < 10,
            file <= f < 10,
            forall|h: int| #[trigger] bit(a, h) <==> bit(low, h) || file < h <= f,
            forall|h: int| #[trigger] bit(low, h) ==> h < file,
            open ==> forall|g: int| file < g <= f ==> !#[trigger] bit(occ, g),
            !open ==> bit(occ, f as int) && file < f,
            forall|g: int| file < g < f ==> !#[trigger] bit(occ, g),
        decreases 10 - f,
    {
        f = f + 1;
        a = a | (1u128 << (f as u128));
        if SquareSet(occ).has(Square(f)) {
            open = false;
        }
    }
    proof {
        assert forall|h: int| #[trigger] bit(a, h) <==> rank_reach(file as int, occ, h) by {
            if h > file && rank_reach(file as int, occ, h) && h > f {
                assert(!bit(occ, f as int));
            }
            assert(bit(low, h) <==> h < file && rank_reach(file as int, occ, h));
        }
        assert forall|h: int| #[trigger] bit(a >> 10u128, h) == bit(0, h) by {
            assert(bit(a >> 10u128, h) ==> bit(a, h + 10));
        }
        lemma_bits_equal(a >> 10u128, 0);
        assert(a >> 10u128 == 0 ==> a < 1024) by (bit_vector);
    }
    a as u16
}

/// With a single blocker the reach ends there.
proof fn lemma_slides_single(s: int, d: int, occ: u128, b: int, t: int)
    requires
        forall|i: int| #[trigger] bit(occ, i) <==> i == b,
    ensures
        slides(s, d, occ, t) == (on_ray(s, d, t) && !(on_ray(s, d, b) && on_ray(b, d, t))),
{
    if on_ray(s, d, t) && !(on_ray(s, d, b) && on_ray(b, d, t)) {
        assert forall|u: int| #[trigger] on_ray(s, d, u) && on_ray(u, d, t) implies !bit(
            occ,
            u,
        ) by {}
    }
    if slides(s, d, occ, t) && on_ray(s, d, b) && on_ray(b, d, t) {
        assert(bit(occ, b));
    }
}

proof fn lemma_slides_none(s: int, d: int, t: int)
    ensures
        slides(s, d, 0, t) == on_ray(s, d, t),
{
}

/// Where the reaches of two aligned squares meet.
proof fn lemma_meet(a: int, b: int, t: int, d: int, e: int)
    requires
        0 <= a < 100,
        0 <= b < 100,
        dir(a, b) >= 0,
        is_dir(d),
        is_dir(e),
        is_straight(d) == is_straight(dir(a, b)),
        is_straight(e) == is_straight(dir(a, b)),
        on_ray(a, d, t),
        on_ray(b, e, t),
    ensures
        line_sq(a, b, t),
        !(on_ray(a, d, b) && on_ray(b, d, t)) && !(on_ray(b, e, a) && on_ray(a, e, t))
            ==> between_sq(a, b, t),
{
    reveal(on_ray);
    reveal(dir);
}

proof fn lemma_meet_back(a: int, b: int, t: int)
    requires
        dir(a, b) >= 0,
    ensures
        between_sq(a, b, t) ==> on_ray(b, opp(dir(a, b)), t) && !(on_ray(a, dir(a, b), b) && on_ray(
            b,
            dir(a, b),
            t,
        )) && !(on_ray(b, opp(dir(a, b)), a) && on_ray(a, opp(dir(a, b)), t)),
        line_sq(a, b, t) ==> t == a || t == b || on_ray(b, dir(a, b), t) || on_ray(
            b,
            opp(dir(a, b)),
            t,
        ),
        between_sq(a, b, t) ==> t != a && t != b,
{
    reveal(on_ray);
    reveal(dir);
}

/// What the pair tables hold for two squares: the squares strictly between them
/// and the whole line through them, both empty if they are not aligned.
fn pair_entry(sa: Square, sb: Square) -> (r: (SquareSet, SquareSet))
    requires
        sa.valid(),
        sb.valid(),
    ensures
        forall|t: int| #[trigger] r.0.contains(t) <==> between_sq(sa.0 as int, sb.0 as int, t),
        forall|t: int| #[trigger] r.1.contains(t) <==> line_sq(sa.0 as int, sb.0 as int, t),
{
    let ghost a = sa.0 as int;
    let ghost b = sb.0 as int;
    let mut btw = SquareSet::empty();
    let mut lin = SquareSet::empty();
    proof {
        lemma_dir(a, b);
        lemma_rook_is_line(a, 0, b);
        }
    let full_straight = sliding_attacks(sa, true, SquareSet::empty());
    let full_diag = sliding_attacks(sa, false, SquareSet::empty());
    let straight = full_straight.has(sb);
    if straight || full_diag.has(sb) {
        let full = if straight {
            full_straight
        } else {
            full_diag
        };
        let one_a = SquareSet::from_square(sa);
        let one_b = SquareSet::from_square(sb);
        let from_a = sliding_attacks(sa, straight, one_b);
        let from_b = sliding_attacks(sb, straight, one_a);
        let full_b = sliding_attacks(sb, straight, SquareSet::empty());
        btw = from_a & from_b;
        lin = (full & full_b) | one_a | one_b;
        proof {
                    let d0 = dir(a, b);
            assert(is_straight(d0) == straight);
            assert forall|t: int| #[trigger] btw.contains(t) <==> between_sq(a, b, t) by {
                if btw.contains(t) {
                    let d = lemma_pick(a, one_b.0, t, straight);
                    let e = lemma_pick(b, one_a.0, t, straight);
                    lemma_slides_single(a, d, one_b.0, b, t);
                    lemma_slides_single(b, e, one_a.0, a, t);
                    lemma_meet(a, b, t, d, e);
                }
                if between_sq(a, b, t) {
                    lemma_meet_back(a, b, t);
                    lemma_slides_single(a, d0, one_b.0, b, t);
                    lemma_slides_single(b, opp(d0), one_a.0, a, t);
                }
            }
            assert forall|t: int| #[trigger] lin.contains(t) <==> line_sq(a, b, t) by {
                if full.contains(t) && full_b.contains(t) {
                    let d = lemma_pick(a, 0, t, straight);
                    let e = lemma_pick(b, 0, t, straight);
                    lemma_meet(a, b, t, d, e);
                }
                if line_sq(a, b, t) {
                    lemma_meet_back(a, b, t);
                    lemma_slides_none(a, d0, t);
                    lemma_slides_none(a, opp(d0), t);
                    lemma_slides_none(b, d0, t);
                    lemma_slides_none(b, opp(d0), t);
                }
            }
        }
    }
    (btw, lin)
}

/// The direction in which a slider reaches `t`.
proof fn lemma_pick(s: int, occ: u128, t: int, straight: bool) -> (d: int)
    requires
        straight ==> rook_att(s, occ, t),
        !straight ==> bishop_att(s, occ, t),
    ensures
        is_dir(d),
        is_straight(d) == straight,
        slides(s, d, occ, t),
{
    if straight {
        if slides(s, 0, occ, t) {
            0
        } else if slides(s, 2, occ, t) {
            2
        } else if slides(s, 4, occ, t) {
            4
        } else {
            6
        }
    } else {
        if slides(s, 1, occ, t) {
            1
        } else if slides(s, 3, occ, t) {
            3
        } else if slides(s, 5, occ, t) {
            5
        } else {
            7
        }
    }
}

/// The attack tables and the hash keys.
pub struct Tables {
    knight: Vec<SquareSet>,
    king: Vec<SquareSet>,
    pawn: Vec<SquareSet>,
    ray: Vec<SquareSet>,
    rank: Vec<u16>,
    rook_empty: Vec<SquareSet>,
    bishop_empty: Vec<SquareSet>,
    between: Vec<SquareSet>,
    line: Vec<SquareSet>,
    zobrist: Zobrist,
}

impl Tables {
    /// Every entry is what the geometry of the board says it is.
    #[verifier::type_invariant]
    spec fn inv(self) -> bool {
        &&& self.knight.len() == 100
        &&& self.king.len() == 100
        &&& self.pawn.len() == 200
        &&& self.ray.len() == 800
        &&& self.rank.len() == 10240
        &&& self.rook_empty.len() == 100
        &&& self.bishop_empty.len() == 100
        &&& self.between.len() == 10000
        &&& self.line.len() == 10000
        &&& forall|s: int, t: int| #![trigger bit(self.knight[s].0, t)]
            0 <= s < 100 ==> bit(self.knight[s].0, t) == knight_att(s, t)
        &&& forall|s: int, t: int| #![trigger bit(self.king[s].0, t)]
            0 <= s < 100 ==> bit(self.king[s].0, t) == king_att(s, t)
        &&& forall|s: int, t: int| #![trigger bit(self.pawn[s].0, t)]
            0 <= s < 100 ==> bit(self.pawn[s].0, t) == pawn_att(Color::White, s, t)
        &&& forall|s: int, t: int| #![trigger bit(self.pawn[s].0, t)]
            100 <= s < 200 ==> bit(self.pawn[s].0, t) == pawn_att(Color::Black, s - 100, t)
        &&& forall|i: int, t: int| #![trigger bit(self.ray[i].0, t)]
            0 <= i < 800 ==> bit(self.ray[i].0, t) == on_ray(i % 100, i / 100, t)
        &&& forall|i: int, f: int| #![trigger bit(self.rank[i] as u128, f)]
            0 <= i < 10240 ==> bit(self.rank[i] as u128, f) == rank_reach(
                i / 1024,
                (i % 1024) as u128,
                f,
            )
        &&& forall|s: int, t: int| #![trigger bit(self.rook_empty[s].0, t)]
            0 <= s < 100 ==> bit(self.rook_empty[s].0, t) == rook_line(s, t)
        &&& forall|s: int, t: int| #![trigger bit(self.bishop_empty[s].0, t)]
            0 <= s < 100 ==> bit(self.bishop_empty[s].0, t) == bishop_line(s, t)
        &&& forall|i: int, t: int| #![trigger bit(self.between[i].0, t)]
            0 <= i < 10000 ==> bit(self.between[i].0, t) == between_sq(i / 100, i % 100, t)
        &&& forall|i: int, t: int| #![trigger bit(self.line[i].0, t)]
            0 <= i < 10000 ==> bit(self.line[i].0, t) == line_sq(i / 100, i % 100, t)
    }

    /// What a knight attacks from `s`.
    pub closed spec fn knight_entry(&self, s: int) -> SquareSet {
        self.knight@[s]
    }

    /// What a king attacks from `s`.
    pub closed spec fn king_entry(&self, s: int) -> SquareSet {
        self.king@[s]
    }

    /// What a pawn attacks: a white one from `i`, a black one from `i - 100`.
    pub closed spec fn pawn_entry(&self, i: int) -> SquareSet {
        self.pawn@[i]
    }

    /// Ray `i / 100` from square `i % 100`.
    pub closed spec fn ray_entry(&self, i: int) -> SquareSet {
        self.ray@[i]
    }

    /// The files reached along a rank from file `i / 1024` with `i % 1024` on it.
    pub closed spec fn rank_entry_at(&self, i: int) -> u16 {
        self.rank@[i]
    }

    /// What a rook attacks from `s` on an empty board.
    pub closed spec fn rook_entry(&self, s: int) -> SquareSet {
        self.rook_empty@[s]
    }

    /// What a bishop attacks from `s` on an empty board.
    pub closed spec fn bishop_entry(&self, s: int) -> SquareSet {
        self.bishop_empty@[s]
    }

    /// The squares between `i / 100` and `i % 100`.
    pub closed spec fn between_entry(&self, i: int) -> SquareSet {
        self.between@[i]
    }

    /// The line through `i / 100` and `i % 100`.
    pub closed spec fn line_entry(&self, i: int) -> SquareSet {
        self.line@[i]
    }

    /// The hash keys.
    pub closed spec fn keys(&self) -> Zobrist {
        self.zobrist
    }

    /// The tables hold what the geometry of the board says, and the keys are the
    /// draws of their stream.
    pub open spec fn exact(&self) -> bool {
        &&& forall|s: int, t: int| #![trigger bit(self.knight_entry(s).0, t)]
            0 <= s < 100 ==> bit(self.knight_entry(s).0, t) == knight_att(s, t)
        &&& forall|s: int, t: int| #![trigger bit(self.king_entry(s).0, t)]
            0 <= s < 100 ==> bit(self.king_entry(s).0, t) == king_att(s, t)
        &&& forall|s: int, t: int| #![trigger bit(self.pawn_entry(s).0, t)]
            0 <= s < 100 ==> bit(self.pawn_entry(s).0, t) == pawn_att(Color::White, s, t)
        &&& forall|s: int, t: int| #![trigger bit(self.pawn_entry(s).0, t)]
            100 <= s < 200 ==> bit(self.pawn_entry(s).0, t) == pawn_att(Color::Black, s - 100, t)
        &&& forall|i: int, t: int| #![trigger bit(self.ray_entry(i).0, t)]
            0 <= i < 800 ==> bit(self.ray_entry(i).0, t) == on_ray(i % 100, i / 100, t)
        &&& forall|i: int, f: int| #![trigger bit(self.rank_entry_at(i) as u128, f)]
            0 <= i < 10240 ==> bit(self.rank_entry_at(i) as u128, f) == rank_reach(
                i / 1024,
                (i % 1024) as u128,
                f,
            )
        &&& forall|s: int, t: int| #![trigger bit(self.rook_entry(s).0, t)]
            0 <= s < 100 ==> bit(self.rook_entry(s).0, t) == rook_line(s, t)
        &&& forall|s: int, t: int| #![trigger bit(self.bishop_entry(s).0, t)]
            0 <= s < 100 ==> bit(self.bishop_entry(s).0, t) == bishop_line(s, t)
        &&& forall|i: int, t: int| #![trigger bit(self.between_entry(i).0, t)]
            0 <= i < 10000 ==> bit(self.between_entry(i).0, t) == between_sq(i / 100, i % 100, t)
        &&& forall|i: int, t: int| #![trigger bit(self.line_entry(i).0, t)]
            0 <= i < 10000 ==> bit(self.line_entry(i).0, t) == line_sq(i / 100, i % 100, t)
        &&& forall|i: int| 0 <= i < 1701 ==> #[trigger] self.keys().key_at(i) == draw(i)
    }

    /// Builds every table.
    pub fn new() -> (r: Tables)
        ensures
            r.exact(),
    {
        let (knight, king, pawn) = Tables::leaper_tables();
        let (ray, rook_empty, bishop_empty) = Tables::ray_tables();
        let rank = Tables::rank_table();
        let (between, line) = Tables::pair_tables();
        Tables {
            knight,
            king,
            pawn,
            ray,
            rank,
            rook_empty,
            bishop_empty,
            between,
            line,
            zobrist: Zobrist::new(),
        }
    }

    fn leaper_tables() -> (r: (Vec<SquareSet>, Vec<SquareSet>, Vec<SquareSet>))
        ensures
            r.0.len() == 100,
            r.1.len() == 100,
            r.2.len() == 200,
            forall|s: int, t: int| #![trigger bit(r.0[s].0, t)]
                0 <= s < 100 ==> bit(r.0[s].0, t) == knight_att(s, t),
            forall|s: int, t: int| #![trigger bit(r.1[s].0, t)]
                0 <= s < 100 ==> bit(r.1[s].0, t) == king_att(s, t),
            forall|s: int, t: int| #![trigger bit(r.2[s].0, t)]
                0 <= s < 100 ==> bit(r.2[s].0, t) == pawn_att(Color::White, s, t),
            forall|s: int, t: int| #![trigger bit(r.2[s].0, t)]
                100 <= s < 200 ==> bit(r.2[s].0, t) == pawn_att(Color::Black, s - 100, t),
    {
        let mut knight: Vec<SquareSet> = Vec::new();
        let mut king: Vec<SquareSet> = Vec::new();
        let mut pawn: Vec<SquareSet> = Vec::new();
        let mut i: u8 = 0;
        while i < 100
            invariant
                i <= 100,
                knight.len() == i,
                king.len() == i,
                pawn.len() == i,
                forall|s: int, t: int| #![trigger bit(knight[s].0, t)]
                    0 <= s < i ==> bit(knight[s].0, t) == knight_att(s, t),
                forall|s: int, t: int| #![trigger bit(king[s].0, t)]
                    0 <= s < i ==> bit(king[s].0, t) == king_att(s, t),
                forall|s: int, t: int| #![trigger bit(pawn[s].0, t)]
                    0 <= s < i ==> bit(pawn[s].0, t) == pawn_att(Color::White, s, t),
            decreases 100 - i,
        {
            let s = Square(i);
            knight.push(knight_from(s));
            king.push(king_from(s));
            pawn.push(pawn_from(Color::White, s));
            i = i + 1;
        }
        let mut i: u8 = 0;
        while i < 100
            invariant
                i <= 100,
                pawn.len() == 100 + i,
                forall|s: int, t: int| #![trigger bit(pawn[s].0, t)]
                    0 <= s < 100 ==> bit(pawn[s].0, t) == pawn_att(Color::White, s, t),
                forall|s: int, t: int| #![trigger bit(pawn[s].0, t)]
                    100 <= s < 100 + i ==> bit(pawn[s].0, t) == pawn_att(
                        Color::Black,
                        s - 100,
                        t,
                    ),
            decreases 100 - i,
        {
            pawn.push(pawn_from(Color::Black, Square(i)));
            i = i + 1;
        }
        (knight, king, pawn)
    }

    fn ray_tables() -> (r: (Vec<SquareSet>, Vec<SquareSet>, Vec<SquareSet>))
        ensures
            r.0.len() == 800,
            r.1.len() == 100,
            r.2.len() == 100,
            forall|i: int, t: int| #![trigger bit(r.0[i].0, t)]
                0 <= i < 800 ==> bit(r.0[i].0, t) == on_ray(i % 100, i / 100, t),
            forall|s: int, t: int| #![trigger bit(r.1[s].0, t)]
                0 <= s < 100 ==> bit(r.1[s].0, t) == rook_line(s, t),
            forall|s: int, t: int| #![trigger bit(r.2[s].0, t)]
                0 <= s < 100 ==> bit(r.2[s].0, t) == bishop_line(s, t),
    {
        let mut ray: Vec<SquareSet> = Vec::new();
        let mut i: usize = 0;
        while i < 800
            invariant
                i <= 800,
                ray.len() == i,
                forall|j: int, t: int| #![trigger bit(ray[j].0, t)]
                    0 <= j < i ==> bit(ray[j].0, t) == on_ray(j % 100, j / 100, t),
            decreases 800 - i,
        {
            let set = ray_attacks(Square((i % 100) as u8), i / 100, SquareSet::empty());
            proof {
                assert forall|t: int| #[trigger] set.contains(t) <==> on_ray(
                    i as int % 100,
                    i as int / 100,
                    t,
                ) by {
                    lemma_slides_none(i as int % 100, i as int / 100, t);
                }
            }
            ray.push(set);
            i = i + 1;
        }
        let mut rook_empty: Vec<SquareSet> = Vec::new();
        let mut bishop_empty: Vec<SquareSet> = Vec::new();
        let mut i: u8 = 0;
        while i < 100
            invariant
                i <= 100,
                rook_empty.len() == i,
                bishop_empty.len() == i,
                forall|s: int, t: int| #![trigger bit(rook_empty[s].0, t)]
                    0 <= s < i ==> bit(rook_empty[s].0, t) == rook_line(s, t),
                forall|s: int, t: int| #![trigger bit(bishop_empty[s].0, t)]
                    0 <= s < i ==> bit(bishop_empty[s].0, t) == bishop_line(s, t),
            decreases 100 - i,
        {
                    let a = sliding_attacks(Square(i), true, SquareSet::empty());
            let b = sliding_attacks(Square(i), false, SquareSet::empty());
            proof {
                assert forall|t: int| #[trigger] a.contains(t) <==> rook_line(i as int, t) by {
                    lemma_rook_is_line(i as int, 0, t);
                }
                assert forall|t: int| #[trigger] b.contains(t) <==> bishop_line(i as int, t) by {
                    lemma_rook_is_line(i as int, 0, t);
                }
            }
            rook_empty.push(a);
            bishop_empty.push(b);
            i = i + 1;
        }
        (ray, rook_empty, bishop_empty)
    }

    fn rank_table() -> (rank: Vec<u16>)
        ensures
            rank.len() == 10240,
            forall|i: int, f: int| #![trigger bit(rank[i] as u128, f)]
                0 <= i < 10240 ==> bit(rank[i] as u128, f) == rank_reach(
                    i / 1024,
                    (i % 1024) as u128,
                    f,
                ),
    {
        let mut rank: Vec<u16> = Vec::new();
        let mut i: usize = 0;
        while i < 10240
            invariant
                i <= 10240,
                rank.len() == i,
                forall|j: int, f: int| #![trigger bit(rank[j] as u128, f)]
                    0 <= j < i ==> bit(rank[j] as u128, f) == rank_reach(
                        j / 1024,
                        (j % 1024) as u128,
                        f,
                    ),
            decreases 10240 - i,
        {
            rank.push(rank_entry((i / 1024) as u8, (i % 1024) as u128));
            i = i + 1;
        }
        rank
    }

    fn pair_tables() -> (r: (Vec<SquareSet>, Vec<SquareSet>))
        ensures
            r.0.len() == 10000,
            r.1.len() == 10000,
            forall|i: int, t: int| #![trigger bit(r.0[i].0, t)]
                0 <= i < 10000 ==> bit(r.0[i].0, t) == between_sq(i / 100, i % 100, t),
            forall|i: int, t: int| #![trigger bit(r.1[i].0, t)]
                0 <= i < 10000 ==> bit(r.1[i].0, t) == line_sq(i / 100, i % 100, t),
    {
        let mut between: Vec<SquareSet> = Vec::new();
        let mut line: Vec<SquareSet> = Vec::new();
        let mut i: usize = 0;
        while i < 10000
            invariant
                i <= 10000,
                between.len() == i,
                line.len() == i,
                forall|j: int, t: int| #![trigger bit(between[j].0, t)]
                    0 <= j < i ==> bit(between[j].0, t) == between_sq(j / 100, j % 100, t),
                forall|j: int, t: int| #![trigger bit(line[j].0, t)]
                    0 <= j < i ==> bit(line[j].0, t) == line_sq(j / 100, j % 100, t),
            decreases 10000 - i,
        {
            let (b, l) = pair_entry(Square((i / 100) as u8), Square((i % 100) as u8));
            between.push(b);
            line.push(l);
            i = i + 1;
        }
        (between, line)
    }

    /// The hash keys.
    pub fn zobrist(&self) -> (z: &Zobrist)
        ensures
            *z == self.keys(),
    {
        &self.zobrist
    }
}

/// Builds the tables that the rest of the engine works from.
pub fn init() -> (t: Tables)
    ensures
        t.exact(),
{
    Tables::new()
}

/// Ray `d` from `sq` up to the first blocker, for a direction in which square
/// numbers grow.
fn ray_pos(d: usize, sq: Square, occ: SquareSet, t: &Tables) -> (r: SquareSet)
    requires
        sq.valid(),
        d == 0 || d == 1 || d == 7,
    ensures
        forall|u: int| #[trigger] r.contains(u) <==> slides(sq.0 as int, d as int, occ.0, u),
{
    proof {
        use_type_invariant(t);
    }
    let ghost s = sq.0 as int;
    let ghost di = d as int;
    let r = t.ray[d * 100 + sq.idx()];
    proof {
        let i = d * 100 + s;
        assert(i % 100 == s && i / 100 == di);
        assert forall|u: int| #[trigger] r.contains(u) <==> on_ray(s, di, u) by {
            assert(bit(t.ray[i].0, u) == on_ray(i % 100, i / 100, u));
        }
    }
    let blockers = r & occ;
    if blockers.any() {
        let b = blockers.lsb();
        proof {
            lemma_ray_board(s, di, b.0 as int);
        }
        let beyond = t.ray[d * 100 + b.idx()];
        let res = r - beyond;
        proof {
            let i = d * 100 + b.0;
            assert(i % 100 == b.0 && i / 100 == di);
            assert forall|u: int| #[trigger] res.contains(u) <==> slides(s, di, occ.0, u) by {
                assert(bit(t.ray[i].0, u) == on_ray(i % 100, i / 100, u));
                assert(res.contains(u) == (r.contains(u) && !beyond.contains(u)));
                assert(beyond.contains(u) == on_ray(b.0 as int, di, u));
                assert(res.contains(u) == (on_ray(s, di, u) && !on_ray(b.0 as int, di, u)));
                if on_ray(s, di, u) {
                    lemma_ray_climb(s, di, b.0 as int, u);
                    if !on_ray(b.0 as int, di, u) {
                        assert forall|w: int| #[trigger] on_ray(s, di, w) && on_ray(
                            w,
                            di,
                            u,
                        ) implies !bit(occ.0, w) by {
                            lemma_ray_climb(s, di, w, u);
                            lemma_ray_board(s, di, w);
                            assert(w < b.0);
                            assert(!blockers.contains(w));
                        }
                        assert(slides(s, di, occ.0, u));
                    } else {
                        assert(on_ray(s, di, b.0 as int) && bit(occ.0, b.0 as int));
                        assert(!slides(s, di, occ.0, u));
                    }
                }
            }
        }
        res
    } else {
        proof {
            assert forall|u: int| on_ray(s, di, u) implies slides(s, di, occ.0, u) by {
                assert forall|w: int| #[trigger] on_ray(s, di, w) && on_ray(
                    w,
                    di,
                    u,
                ) implies !bit(occ.0, w) by {
                    assert(!blockers.contains(w));
                }
            }
        }
        r
    }
}

/// Ray `d` from `sq` up to the first blocker, for a direction in which square
/// numbers shrink.
fn ray_neg(d: usize, sq: Square, occ: SquareSet, t: &Tables) -> (r: SquareSet)
    requires
        sq.valid(),
        d == 3 || d == 4 || d == 5,
    ensures
        forall|u: int| #[trigger] r.contains(u) <==> slides(sq.0 as int, d as int, occ.0, u),
{
    proof {
        use_type_invariant(t);
    }
    let ghost s = sq.0 as int;
    let ghost di = d as int;
    let r = t.ray[d * 100 + sq.idx()];
    proof {
        let i = d * 100 + s;
        assert(i % 100 == s && i / 100 == di);
        assert forall|u: int| #[trigger] r.contains(u) <==> on_ray(s, di, u) by {
            assert(bit(t.ray[i].0, u) == on_ray(i % 100, i / 100, u));
        }
    }
    let blockers = r & occ;
    if blockers.any() {
        let b = blockers.msb();
        proof {
            lemma_ray_board(s, di, b.0 as int);
        }
        let beyond = t.ray[d * 100 + b.idx()];
        let res = r - beyond;
        proof {
            let i = d * 100 + b.0;
            assert(i % 100 == b.0 && i / 100 == di);
            assert forall|u: int| #[trigger] res.contains(u) <==> slides(s, di, occ.0, u) by {
                assert(bit(t.ray[i].0, u) == on_ray(i % 100, i / 100, u));
                assert(res.contains(u) == (r.contains(u) && !beyond.contains(u)));
                assert(beyond.contains(u) == on_ray(b.0 as int, di, u));
                assert(res.contains(u) == (on_ray(s, di, u) && !on_ray(b.0 as int, di, u)));
                if on_ray(s, di, u) {
                    lemma_ray_climb(s, di, b.0 as int, u);
                    if !on_ray(b.0 as int, di, u) {
                        assert forall|w: int| #[trigger] on_ray(s, di, w) && on_ray(
                            w,
                            di,
                            u,
                        ) implies !bit(occ.0, w) by {
                            lemma_ray_climb(s, di, w, u);
                            lemma_ray_board(s, di, w);
                            assert(w > b.0);
                            assert(!blockers.contains(w));
                        }
                        assert(slides(s, di, occ.0, u));
                    } else {
                        assert(on_ray(s, di, b.0 as int) && bit(occ.0, b.0 as int));
                        assert(!slides(s, di, occ.0, u));
                    }
                }
            }
        }
        res
    } else {
        proof {
            assert forall|u: int| on_ray(s, di, u) implies slides(s, di, occ.0, u) by {
                assert forall|w: int| #[trigger] on_ray(s, di, w) && on_ray(
                    w,
                    di,
                    u,
                ) implies !bit(occ.0, w) by {
                    assert(!blockers.contains(w));
                }
            }
        }
        r
    }
}

/// A horizontal reach read off the ten bits of the rank.
proof fn lemma_horizontal(s: int, occ: u128, ten: u128, t: int)
    requires
        0 <= s < 100,
        forall|g: int| 0 <= g < 10 ==> #[trigger] bit(ten, g) == bit(occ, g + 10 * rk(s)),
    ensures
        (slides(s, 2, occ, t) || slides(s, 6, occ, t)) <==> 0 <= t < 100 && rk(t) == rk(s)
            && rank_reach(fl(s), ten, fl(t)),
{
    let base = 10 * rk(s);
    if slides(s, 2, occ, t) {
        reveal(on_ray);
        assert forall|g: int| (fl(s) < g < fl(t) || fl(t) < g < fl(s)) implies !#[trigger] bit(
            ten,
            g,
        ) by {
            assert(on_ray(s, 2, base + g) && on_ray(base + g, 2, t));
        }
    }
    if slides(s, 6, occ, t) {
        reveal(on_ray);
        assert forall|g: int| (fl(s) < g < fl(t) || fl(t) < g < fl(s)) implies !#[trigger] bit(
            ten,
            g,
        ) by {
            assert(on_ray(s, 6, base + g) && on_ray(base + g, 6, t));
        }
    }
    if 0 <= t < 100 && rk(t) == rk(s) && rank_reach(fl(s), ten, fl(t)) {
        if fl(s) < fl(t) {
            assert(on_ray(s, 2, t)) by {
                reveal(on_ray);
            }
            assert forall|u: int| #[trigger] on_ray(s, 2, u) && on_ray(u, 2, t) implies !bit(
                occ,
                u,
            ) by {
                reveal(on_ray);
                assert(u == base + fl(u));
                assert(!bit(ten, fl(u)));
            }
        } else {
            assert(on_ray(s, 6, t)) by {
                reveal(on_ray);
            }
            assert forall|u: int| #[trigger] on_ray(s, 6, u) && on_ray(u, 6, t) implies !bit(
                occ,
                u,
            ) by {
                reveal(on_ray);
                assert(u == base + fl(u));
                assert(!bit(ten, fl(u)));
            }
        }
    }
}

/// The horizontal part of a rook's attacks, by table lookup.
fn rank_attacks(t: &Tables, sq: Square, occ: SquareSet) -> (r: SquareSet)
    requires
        sq.valid(),
    ensures
        forall|u: int| #[trigger]
            r.contains(u) <==> slides(sq.0 as int, 2, occ.0, u) || slides(sq.0 as int, 6, occ.0, u),
{
    proof {
        use_type_invariant(t);
    }
    let ghost s = sq.0 as int;
    let shift: u128 = sq.rank() as u128 * 10;
    let o: u128 = occ.0;
    let ten: u128 = (o >> shift) & 0x3ffu128;
    assert(ten < 1024) by (bit_vector)
        requires
            ten == (o >> shift) & 0x3ffu128,
    ;
    let i: usize = sq.file() as usize * 1024 + ten as usize;
    let e: u16 = t.rank[i];
    let r = SquareSet((e as u128) << shift);
    proof {
        assert(i as int / 1024 == fl(s) && i as int % 1024 == ten);
        assert forall|g: int| 0 <= g < 10 implies #[trigger] bit(ten, g) == bit(
            occ.0,
            g + 10 * rk(s),
        ) by {
            assert(0x3ffu128 == (1u128 << 10u128) - 1) by (bit_vector);
            lemma_bit_low_mask(10, g);
        }
        assert forall|u: int| #[trigger] r.contains(u) <==> slides(s, 2, occ.0, u) || slides(
            s,
            6,
            occ.0,
            u,
        ) by {
            lemma_horizontal(s, occ.0, ten, u);
            assert(bit(t.rank[i as int] as u128, u - shift) == rank_reach(
                i as int / 1024,
                (i as int % 1024) as u128,
                u - shift,
            ));
        }
    }
    r
}

pub fn rook_attacks(t: &Tables, sq: Square, occ: SquareSet) -> (r: SquareSet)
    requires
        sq.valid(),
    ensures
        forall|u: int| #[trigger] r.contains(u) <==> rook_att(sq.0 as int, occ.0, u),
{
    rank_attacks(t, sq, occ) | ray_pos(N, sq, occ, t) | ray_neg(S, sq, occ, t)
}

pub fn bishop_attacks(t: &Tables, sq: Square, occ: SquareSet) -> (r: SquareSet)
    requires
        sq.valid(),
    ensures
        forall|u: int| #[trigger] r.contains(u) <==> bishop_att(sq.0 as int, occ.0, u),
{
    ray_pos(NE, sq, occ, t) | ray_pos(NW, sq, occ, t) | ray_neg(SE, sq, occ, t) | ray_neg(
        SW,
        sq,
        occ,
        t,
    )
}

/// The straight lines through `sq` on an empty board.
pub fn rook_rays(t: &Tables, sq: Square) -> (r: SquareSet)
    requires
        sq.valid(),
    ensures
        forall|u: int| #[trigger] r.contains(u) <==> rook_line(sq.0 as int, u),
{
    proof {
        use_type_invariant(t);
    }
    t.rook_empty[sq.idx()]
}

/// The diagonals through `sq` on an empty board.
pub fn bishop_rays(t: &Tables, sq: Square) -> (r: SquareSet)
    requires
        sq.valid(),
    ensures
        forall|u: int| #[trigger] r.contains(u) <==> bishop_line(sq.0 as int, u),
{
    proof {
        use_type_invariant(t);
    }
    t.bishop_empty[sq.idx()]
}

pub fn queen_attacks(t: &Tables, sq: Square, occ: SquareSet) -> (r: SquareSet)
    requires
        sq.valid(),
    ensures
        forall|u: int| #[trigger]
            r.contains(u) <==> type_att(PieceType::Queen, sq.0 as int, occ.0, u),
{
    rook_attacks(t, sq, occ) | bishop_attacks(t, sq, occ)
}

pub fn marshal_attacks(t: &Tables, sq: Square, occ: SquareSet) -> (r: SquareSet)
    requires
        sq.valid(),
    ensures
        forall|u: int| #[trigger]
            r.contains(u) <==> type_att(PieceType::Marshal, sq.0 as int, occ.0, u),
{
    rook_attacks(t, sq, occ) | knight_attacks(t, sq)
}

pub fn cardinal_attacks(t: &Tables, sq: Square, occ: SquareSet) -> (r: SquareSet)
    requires
        sq.valid(),
    ensures
        forall|u: int| #[trigger]
            r.contains(u) <==> type_att(PieceType::Cardinal, sq.0 as int, occ.0, u),
{
    bishop_attacks(t, sq, occ) | knight_attacks(t, sq)
}

pub fn knight_attacks(t: &Tables, sq: Square) -> (r: SquareSet)
    requires
        sq.valid(),
    ensures
        forall|u: int| #[trigger] r.contains(u) <==> knight_att(sq.0 as int, u),
{
    proof {
        use_type_invariant(t);
    }
    t.knight[sq.idx()]
}

pub fn king_attacks(t: &Tables, sq: Square) -> (r: SquareSet)
    requires
        sq.valid(),
    ensures
        forall|u: int| #[trigger] r.contains(u) <==> king_att(sq.0 as int, u),
{
    proof {
        use_type_invariant(t);
    }
    t.king[sq.idx()]
}

pub fn pawn_attacks(t: &Tables, c: Color, sq: Square) -> (r: SquareSet)
    requires
        sq.valid(),
    ensures
        forall|u: int| #[trigger] r.contains(u) <==> pawn_att(c, sq.0 as int, u),
{
    proof {
        use_type_invariant(t);
    }
    t.pawn[c.idx() * 100 + sq.idx()]
}

/// Attacks of a non-pawn piece type.
pub fn piece_attacks(t: &Tables, pt: PieceType, sq: Square, occ: SquareSet) -> (r: SquareSet)
    requires
        sq.valid(),
    ensures
        forall|u: int| #[trigger] r.contains(u) <==> type_att(pt, sq.0 as int, occ.0, u),
{
    match pt {
        PieceType::Knight => knight_attacks(t, sq),
        PieceType::Bishop => bishop_attacks(t, sq, occ),
        PieceType::Rook => rook_attacks(t, sq, occ),
        PieceType::Queen => queen_attacks(t, sq, occ),
        PieceType::Marshal => marshal_attacks(t, sq, occ),
        PieceType::Cardinal => cardinal_attacks(t, sq, occ),
        PieceType::King => king_attacks(t, sq),
        PieceType::Pawn => SquareSet::empty(),
    }
}

/// Squares strictly between two aligned squares; empty if they are not aligned.
pub fn between(t: &Tables, a: Square, b: Square) -> (r: SquareSet)
    requires
        a.valid(),
        b.valid(),
    ensures
        forall|u: int| #[trigger] r.contains(u) <==> between_sq(a.0 as int, b.0 as int, u),
{
    proof {
        use_type_invariant(t);
        let i = a.0 * 100 + b.0;
        assert(i / 100 == a.0 && i % 100 == b.0);
    }
    t.between[a.idx() * 100 + b.idx()]
}

/// The whole line through two aligned squares; empty if they are not aligned.
pub fn line(t: &Tables, a: Square, b: Square) -> (r: SquareSet)
    requires
        a.valid(),
        b.valid(),
    ensures
        forall|u: int| #[trigger] r.contains(u) <==> line_sq(a.0 as int, b.0 as int, u),
{
    proof {
        use_type_invariant(t);
        let i = a.0 * 100 + b.0;
        assert(i / 100 == a.0 && i % 100 == b.0);
    }
    t.line[a.idx() * 100 + b.idx()]
}

pub fn aligned(t: &Tables, a: Square, b: Square, c: Square) -> (r: bool)
    requires
        a.valid(),
        b.valid(),
        c.valid(),
    ensures
        r == line_sq(a.0 as int, b.0 as int, c.0 as int),
{
    line(t, a, b).has(c)
}

/// The squares between two aligned squares in ascending order.
spec fn path(a: int, b: int) -> Seq<int> {
    let d = dir(a, b);
    let lo = if a < b {
        a
    } else {
        b
    };
    let n = (dist(a, b) - 1) as nat;
    if d == 0 || d == 4 {
        Seq::new(n, |k: int| lo + 10 * (k + 1))
    } else if d == 1 || d == 5 {
        Seq::new(n, |k: int| lo + 11 * (k + 1))
    } else if d == 2 || d == 6 {
        Seq::new(n, |k: int| lo + (k + 1))
    } else {
        Seq::new(n, |k: int| lo + 9 * (k + 1))
    }
}

/// Which way the path runs, seen from its lower end.
proof fn lemma_path_end(a: int, b: int)
    requires
        0 <= a < 100,
        0 <= b < 100,
        dir(a, b) >= 0,
    ensures
        ({
            let d = dir(a, b);
            let lo = if a < b {
                a
            } else {
                b
            };
            let hi = if a < b {
                b
            } else {
                a
            };
            let n = dist(a, b);
            &&& is_dir(d)
            &&& n >= 1
            &&& (a < b) == (d < 3 || d == 7)
            &&& fl(hi) == fl(lo) + n * toward(d)
            &&& rk(hi) == rk(lo) + if d == 2 || d == 6 {
                0
            } else {
                n
            }
        }),
{
    reveal(dir);
    reveal(on_ray);
}

/// By how much the file changes from a square of the path to the next one up.
spec fn toward(d: int) -> int {
    if d == 0 || d == 4 {
        0
    } else if d == 3 || d == 7 {
        -1
    } else {
        1
    }
}

#[verifier::rlimit(60)]
proof fn lemma_path_in(a: int, b: int, k: int)
    requires
        0 <= a < 100,
        0 <= b < 100,
        dir(a, b) >= 0,
        0 <= k < dist(a, b) - 1,
    ensures
        between_sq(a, b, path(a, b)[k]),
{
    lemma_path_end(a, b);
    let d = dir(a, b);
    let lo = if a < b {
        a
    } else {
        b
    };
    let u = path(a, b)[k];
    if d == 0 || d == 4 {
        assert(u == lo + 10 * (k + 1));
        assert(fl(u) == fl(lo) && rk(u) == rk(lo) + k + 1);
    } else if d == 1 || d == 5 {
        assert(u == lo + 11 * (k + 1));
        assert(fl(u) == fl(lo) + k + 1 && rk(u) == rk(lo) + k + 1);
    } else if d == 2 || d == 6 {
        assert(u == lo + (k + 1));
        assert(fl(u) == fl(lo) + k + 1 && rk(u) == rk(lo));
    } else {
        assert(u == lo + 9 * (k + 1));
        assert(fl(u) == fl(lo) - (k + 1) && rk(u) == rk(lo) + k + 1);
    }
    reveal(on_ray);
}

#[verifier::rlimit(60)]
proof fn lemma_path_all(a: int, b: int, u: int)
    requires
        0 <= a < 100,
        0 <= b < 100,
        dir(a, b) >= 0,
        between_sq(a, b, u),
    ensures
        path(a, b).contains(u),
{
    lemma_path_end(a, b);
    let d = dir(a, b);
    let lo = if a < b {
        a
    } else {
        b
    };
    let k = dist(lo, u) - 1;
    reveal(on_ray);
    assert(u == 10 * rk(u) + fl(u) && lo == 10 * rk(lo) + fl(lo));
    if d == 0 || d == 4 {
        assert(u == lo + 10 * (k + 1));
    } else if d == 1 || d == 5 {
        assert(u == lo + 11 * (k + 1));
    } else if d == 2 || d == 6 {
        assert(u == lo + (k + 1));
    } else {
        assert(u == lo + 9 * (k + 1));
    }
    assert(0 <= k < dist(a, b) - 1);
    assert(path(a, b)[k] == u);
}

proof fn lemma_path(a: int, b: int)
    requires
        0 <= a < 100,
        0 <= b < 100,
        dir(a, b) >= 0,
    ensures
        path(a, b).len() == dist(a, b) - 1,
        forall|i: int, j: int| 0 <= i < j < path(a, b).len() ==> path(a, b)[i] < path(a, b)[j],
        forall|k: int| 0 <= k < path(a, b).len() ==> between_sq(a, b, #[trigger] path(a, b)[k]),
        forall|u: int| #[trigger] between_sq(a, b, u) ==> path(a, b).contains(u),
{
    lemma_path_end(a, b);
    assert forall|k: int| 0 <= k < path(a, b).len() implies between_sq(
        a,
        b,
        #[trigger] path(a, b)[k],
    ) by {
        lemma_path_in(a, b, k);
    }
    assert forall|u: int| #[trigger] between_sq(a, b, u) implies path(a, b).contains(u) by {
        lemma_path_all(a, b, u);
    }
}

/// Law: between two aligned squares lie as many squares as a king has to cross, and
/// between others none.
pub proof fn between_counts(a: int, b: int, x: u128)
    requires
        0 <= a < 100,
        0 <= b < 100,
        forall|u: int| #[trigger] bit(x, u) <==> between_sq(a, b, u),
    ensures
        squares(x).len() == if dir(a, b) >= 0 {
            dist(a, b) - 1
        } else {
            0
        },
{
    lemma_squares_members(x);
    if dir(a, b) >= 0 {
        lemma_path(a, b);
        let p = path(a, b);
        assert forall|i: int| #[trigger] p.contains(i) implies squares(x).contains(i) by {
            let k = choose|k: int| 0 <= k < p.len() && p[k] == i;
            assert(bit(x, i));
        }
        assert forall|i: int| #[trigger] squares(x).contains(i) implies p.contains(i) by {
            assert(bit(x, i));
        }
        lemma_fewer(p, squares(x));
        lemma_fewer(squares(x), p);
    } else {
        reveal(on_ray);
        if squares(x).len() > 0 {
            let u = squares(x)[0];
            assert(squares(x).contains(u));
            assert(between_sq(a, b, u));
        }
    }
}

} // verus!
