//! Evaluation by a small neural network: `(1600 -> 1408) x 2 -> 8`, with the
//! clipped square as activation.
//!
//! The hidden layer is kept up to date move by move. What it holds is a sum over
//! the pieces on the board, so a move adds a few rows of weights and takes a few
//! away; sums are taken modulo 2 to the 16th.

use vstd::prelude::*;
use crate::board::{Board, Dirty};

use crate::history::{clamp_to, trunc};
use crate::play::{dirty_for, lemma_moved};
use crate::position::{
    arriving, ep_real, has_kings, is_placement, king_of, lemma_king_of, lemma_occ_of, lemma_piece,
    moved, occ_of, reaches, victim_of,
};
use crate::squareset::{group_bits, squares};
use crate::types::{Color, Move, Piece, PieceType, Square};

verus! {

broadcast use {group_bits, lemma_occ_of};

// -- architecture -----------------------------------------------------------

/// Neurons in the hidden layer, per perspective.
pub const HIDDEN: usize = 1408;

/// Inputs per perspective: 2 (own, enemy) x 8 piece types x 100 squares.
pub const INPUTS: usize = 1600;

/// Bytes of a network file: the 16-bit weights, rounded up to a multiple of 64.
pub const NET_LEN: usize = 4553536;

/// Accumulators, one per search ply.
const SLOTS: usize = 262;

/// The weights.
pub struct Network {
    /// `[input][neuron]`
    pub feature_weights: Vec<i16>,
    pub feature_bias: Vec<i16>,
    /// `[bucket][side to move, then the other][neuron]`
    pub output_weights: Vec<i16>,
    pub output_bias: Vec<i16>,
}

/// The little-endian 16-bit number at position `i` of a row of them.
pub open spec fn word_at(bytes: Seq<u8>, i: int) -> int {
    let x = bytes[2 * i] + 256 * bytes[2 * i + 1];
    if x >= 32768 {
        x - 65536
    } else {
        x
    }
}

/// Reads `n` numbers, from number `start` on.
fn read_words(bytes: &[u8], start: usize, n: usize) -> (r: Vec<i16>)
    requires
        2 * (start + n) <= bytes@.len(),
        start + n <= 4000000,
    ensures
        r@.len() == n,
        forall|i: int| 0 <= i < n ==> #[trigger] r@[i] == word_at(bytes@, start + i),
{
    let mut v: Vec<i16> = Vec::with_capacity(n);
    let mut i: usize = 0;
    while i < n
        invariant
            i <= n,
            start + n <= 4000000,
            2 * (start + n) <= bytes@.len(),
            v@.len() == i,
            forall|k: int| 0 <= k < i ==> #[trigger] v@[k] == word_at(bytes@, start + k),
        decreases n - i,
    {
        let at = 2 * (start + i);
        let x: i32 = bytes[at] as i32 + 256 * bytes[at + 1] as i32;
        v.push(
            if x >= 32768 {
                (x - 65536) as i16
            } else {
                x as i16
            },
        );
        i += 1;
    }
    v
}

impl Network {
    pub open spec fn ok(&self) -> bool {
        &&& self.feature_weights@.len() == 2252800
        &&& self.feature_bias@.len() == 1408
        &&& self.output_weights@.len() == 22528
        &&& self.output_bias@.len() == 8
    }

    /// Reads a network from the bytes of its file: the feature weights, the
    /// feature bias, the output weights and the output bias, one after the other.
    pub fn from_bytes(bytes: &[u8]) -> (r: Option<Network>)
        ensures
            r is Some <==> bytes@.len() == NET_LEN,
            r matches Some(n) ==> {
                &&& n.ok()
                &&& forall|i: int|
                    0 <= i < 2252800 ==> #[trigger] n.feature_weights@[i] == word_at(bytes@, i)
                &&& forall|i: int|
                    0 <= i < 1408 ==> #[trigger] n.feature_bias@[i] == word_at(
                        bytes@,
                        2252800 + i,
                    )
                &&& forall|i: int|
                    0 <= i < 22528 ==> #[trigger] n.output_weights@[i] == word_at(
                        bytes@,
                        2254208 + i,
                    )
                &&& forall|i: int|
                    0 <= i < 8 ==> #[trigger] n.output_bias@[i] == word_at(bytes@, 2276736 + i)
            },
    {
        if bytes.len() != NET_LEN {
            return None;
        }
        Some(
            Network {
                feature_weights: read_words(bytes, 0, 2252800),
                feature_bias: read_words(bytes, 2252800, 1408),
                output_weights: read_words(bytes, 2254208, 22528),
                output_bias: read_words(bytes, 2276736, 8),
            },
        )
    }
}

// -- features ---------------------------------------------------------------

pub open spec fn oriented(perspective: Color, s: int) -> int {
    match perspective {
        Color::White => s,
        Color::Black => (9 - s / 10) * 10 + s % 10,
    }
}

/// A square as `perspective` sees it.
fn orient(perspective: Color, sq: Square) -> (r: usize)
    requires
        sq.valid(),
    ensures
        r == oriented(perspective, sq.0 as int),
        r < 100,
{
    let s = sq.idx();
    match perspective {
        Color::White => s,
        Color::Black => (9 - s / 10) * 10 + s % 10,
    }
}

pub open spec fn mirrored(perspective: Color, ksq: int) -> bool {
    oriented(perspective, ksq) % 10 > 4
}

/// Whether `perspective`'s features are file-mirrored, its king being on `ksq`.
///
/// A perspective whose own king stands on files f-j sees the board reflected left
/// to right, so the two halves of the board share one set of weights. A king move
/// across the centre file therefore cannot be applied as a delta: see
/// [`NnueState::push`], which refreshes that perspective from the board instead.
pub fn perspective_mirror(perspective: Color, ksq: Square) -> (r: bool)
    requires
        ksq.valid(),
    ensures
        r == mirrored(perspective, ksq.0 as int),
{
    orient(perspective, ksq) % 10 > 4
}

/// A square as `perspective` sees it, mirrored or not.
pub open spec fn turned(perspective: Color, mirror: bool, sq: int) -> int {
    let s = oriented(perspective, sq);
    if mirror {
        s / 10 * 10 + 9 - s % 10
    } else {
        s
    }
}

/// Turning takes ranks to ranks and files to files.
pub proof fn lemma_turned(c: Color, mirror: bool, s: int)
    requires
        0 <= s < 100,
    ensures
        0 <= turned(c, mirror, s) < 100,
        turned(c, mirror, s) / 10 == match c {
            Color::White => s / 10,
            Color::Black => 9 - s / 10,
        },
        turned(c, mirror, s) % 10 == if mirror {
            9 - s % 10
        } else {
            s % 10
        },
{
    let o = oriented(c, s);
    assert(o % 10 == s % 10);
    assert(0 <= o < 100);
    if mirror {
        assert((o / 10 * 10 + (9 - o % 10)) / 10 == o / 10);
        assert((o / 10 * 10 + (9 - o % 10)) % 10 == 9 - o % 10);
    }
}

/// The input that a piece on a square switches on.
pub open spec fn feature(perspective: Color, mirror: bool, p: Piece, sq: int) -> int {
    (if p.col() == perspective {
        0int
    } else {
        800
    }) + 100 * p.kind().idx() + turned(perspective, mirror, sq)
}

pub fn feature_index(perspective: Color, mirror: bool, p: Piece, sq: Square) -> (r: usize)
    requires
        p.valid(),
        sq.valid(),
    ensures
        r == feature(perspective, mirror, p, sq.0 as int),
        r < INPUTS,
{
    let mut s = orient(perspective, sq);
    if mirror {
        s = s / 10 * 10 + 9 - s % 10;
    }
    let own: usize = if p.color() == perspective {
        0
    } else {
        800
    };
    own + 100 * p.piece_type().idx() + s
}

/// Law: different pieces and squares switch on different inputs.
pub proof fn features_are_distinct(c: Color, mirror: bool, p: Piece, s: int, p2: Piece, s2: int)
    requires
        p.valid(),
        p2.valid(),
        0 <= s < 100,
        0 <= s2 < 100,
        feature(c, mirror, p, s) == feature(c, mirror, p2, s2),
    ensures
        p == p2,
        s == s2,
{
    lemma_piece(p);
    lemma_piece(p2);
    lemma_turned(c, mirror, s);
    lemma_turned(c, mirror, s2);
    let (x, x2) = (turned(c, mirror, s), turned(c, mirror, s2));
    let (k, k2) = (p.kind().idx() as int, p2.kind().idx() as int);
    assert(0 <= k < 8 && 0 <= k2 < 8);
    assert((p.col() == c) == (p2.col() == c));
    assert(100 * k + x == 100 * k2 + x2);
    assert(k == k2 && x == x2);
    assert(p.0 / 8 == p2.0 / 8 && p.0 % 8 == p2.0 % 8);
    assert(p.0 == p2.0);
    assert(s / 10 == s2 / 10 && s % 10 == s2 % 10);
}

/// The mirror of `c`'s perspective on a placement.
pub open spec fn mirror_of(q: Seq<Piece>, c: Color) -> bool {
    mirrored(c, king_of(q, c))
}

/// Is input `f` switched on for `c`?
pub open spec fn is_active(q: Seq<Piece>, c: Color, f: int) -> bool {
    exists|s: int| 0 <= s < 100 && #[trigger] q[s].valid() && feature(c, mirror_of(q, c), q[s], s) == f
}

/// `v` holds the number `f`.
pub open spec fn lists(v: Seq<usize>, f: int) -> bool {
    exists|i: int| 0 <= i < v.len() && v[i] == f
}

/// The piece and square that input `f` stands for.
fn input_site(c: Color, mirror: bool, f: usize) -> (r: (Piece, Square))
    requires
        f < 1600,
    ensures
        r.0.valid(),
        r.1.valid(),
        feature(c, mirror, r.0, r.1.0 as int) == f,
{
    let own = f / 800;
    let kind = f % 800 / 100;
    let rank = f % 100 / 10;
    let file = f % 10;
    assert(f == 800 * own + 100 * kind + 10 * rank + file);
    let y: u8 = match c {
        Color::White => rank as u8,
        Color::Black => 9 - rank as u8,
    };
    let x: u8 = if mirror {
        9 - file as u8
    } else {
        file as u8
    };
    let side = if own == 0 {
        c
    } else {
        c.flip()
    };
    let p = Piece::new(side, PieceType::from_idx(kind));
    let s = Square::from_file_rank(x, y);
    proof {
        let o = oriented(c, s.0 as int);
        assert(o == 10 * rank + x);
        assert(o / 10 == rank && o % 10 == x);
    }
    (p, s)
}

/// The active inputs of one perspective, ascending.
fn active_for(b: &Board, c: Color) -> (r: Vec<usize>)
    requires
        b.placed(),
        has_kings(b.q()),
    ensures
        forall|i: int, j: int| 0 <= i < j < r@.len() ==> r@[i] < r@[j],
        forall|f: int| #[trigger] is_active(b.q(), c, f) <==> lists(r@, f),
{
    let ghost q = b.q();
    proof {
        lemma_king_of(q, c);
    }
    let mirror = perspective_mirror(c, b.king_sq(c));
    let mut out: Vec<usize> = Vec::new();
    let mut f: usize = 0;
    while f < INPUTS
        invariant
            f <= 1600,
            b.placed(),
            q == b.q(),
            mirror == mirror_of(q, c),
            forall|i: int| 0 <= i < out@.len() ==> #[trigger] out@[i] < f,
            forall|i: int, j: int| 0 <= i < j < out@.len() ==> out@[i] < out@[j],
            forall|g: int| 0 <= g < f ==> (#[trigger] is_active(q, c, g) <==> lists(out@, g)),
        decreases 1600 - f,
    {
        let (p, s) = input_site(c, mirror, f);
        let here = b.piece_at(s) == p;
        let ghost before = out@;
        if here {
            out.push(f);
        }
        proof {
            lemma_site(q, c, p, s.0 as int, f as int);
            lemma_lists(before, out@, f as int, here);
        }
        f += 1;
    }
    proof {
        assert forall|g: int| #[trigger] is_active(q, c, g) <==> lists(out@, g) by {
            if is_active(q, c, g) {
                let s = choose|s: int|
                    0 <= s < 100 && #[trigger] q[s].valid() && feature(c, mirror_of(q, c), q[s], s)
                        == g;
                lemma_piece(q[s]);
                assert(0 <= g < 1600);
            }
            if lists(out@, g) {
                let i = choose|i: int| 0 <= i < out@.len() && out@[i] == g;
                assert(0 <= g < 1600);
            }
        }
    }
    out
}

/// An input is on exactly if its piece stands on its square.
proof fn lemma_site(q: Seq<Piece>, c: Color, p: Piece, s: int, f: int)
    requires
        q.len() == 100,
        p.valid(),
        0 <= s < 100,
        feature(c, mirror_of(q, c), p, s) == f,
    ensures
        is_active(q, c, f) == (q[s] == p),
{
    if q[s] == p {
        assert(q[s].valid());
    }
    if is_active(q, c, f) {
        let s2 = choose|s2: int|
            0 <= s2 < 100 && #[trigger] q[s2].valid() && feature(c, mirror_of(q, c), q[s2], s2)
                == f;
        features_are_distinct(c, mirror_of(q, c), p, s, q[s2], s2);
    }
}

proof fn lemma_lists(before: Seq<usize>, after: Seq<usize>, f: int, here: bool)
    requires
        0 <= f <= usize::MAX,
        after == if here {
            before.push(f as usize)
        } else {
            before
        },
        forall|i: int| 0 <= i < before.len() ==> #[trigger] before[i] < f,
    ensures
        lists(after, f) == here,
        forall|g: int| g != f ==> #[trigger] lists(after, g) == lists(before, g),
{
    if here {
        assert(after[before.len() as int] == f);
    }
    assert forall|g: int| g != f implies #[trigger] lists(after, g) == lists(before, g) by {
        if lists(before, g) {
            let i = choose|i: int| 0 <= i < before.len() && before[i] == g;
            assert(after[i] == g);
        }
        if lists(after, g) {
            let i = choose|i: int| 0 <= i < after.len() && after[i] == g;
            assert(before[i] == g);
        }
    }
}

/// The active features of the side to move and of the other side, each sorted.
pub fn active_features(b: &Board) -> (r: (Vec<usize>, Vec<usize>))
    requires
        b.placed(),
        has_kings(b.q()),
    ensures
        forall|i: int, j: int| 0 <= i < j < r.0@.len() ==> r.0@[i] < r.0@[j],
        forall|i: int, j: int| 0 <= i < j < r.1@.len() ==> r.1@[i] < r.1@[j],
        forall|f: int| #[trigger] is_active(b.q(), b.stm, f) <==> lists(r.0@, f),
        forall|f: int| #[trigger] is_active(b.q(), b.stm.flip(), f) <==> lists(r.1@, f),
{
    (active_for(b, b.stm), active_for(b, b.stm.flip()))
}

// -- the network as arithmetic --------------------------------------------------

/// A sum in 16-bit and in 32-bit two's complement.
pub open spec fn wrap16(x: int) -> int {
    (x + 32768) % 65536 - 32768
}

pub open spec fn wrap32(x: int) -> int {
    (x + 0x8000_0000) % 0x1_0000_0000 - 0x8000_0000
}

/// What the content of square `s` adds to neuron `j`.
pub open spec fn share(n: Network, c: Color, mirror: bool, p: Piece, s: int, j: int) -> int {
    if p.valid() {
        n.feature_weights@[feature(c, mirror, p, s) * 1408 + j] as int
    } else {
        0
    }
}

/// What the first `k` squares add to neuron `j`.
pub open spec fn shares(n: Network, q: Seq<Piece>, c: Color, mirror: bool, j: int, k: int) -> int
    decreases k,
{
    if k <= 0 {
        0
    } else {
        shares(n, q, c, mirror, j, k - 1) + share(n, c, mirror, q[k - 1], k - 1, j)
    }
}

/// Neuron `j` before activation, as `c` sees the placement.
#[verifier::opaque]
pub open spec fn neuron(n: Network, q: Seq<Piece>, c: Color, j: int) -> int {
    wrap16(n.feature_bias@[j] + shares(n, q, c, mirror_of(q, c), j, 100))
}

/// The activation: clipped to 0..255, squared.
pub open spec fn activated(x: int) -> int {
    clamp_to(x, 0, 255) * clamp_to(x, 0, 255)
}

/// The weighted sum of the first `k` activations of one half.
pub open spec fn output_sum(n: Network, q: Seq<Piece>, c: Color, row: int, k: int) -> int
    decreases k,
{
    if k <= 0 {
        0
    } else {
        output_sum(n, q, c, row, k - 1) + activated(neuron(n, q, c, k - 1))
            * n.output_weights@[row + k - 1]
    }
}

/// The output row for a number of pieces.
pub open spec fn bucket_of(q: Seq<Piece>) -> int {
    (squares(occ_of(q)).len() - 2) / 5
}

/// A placement has few enough pieces for the output rows.
pub open spec fn evaluable(q: Seq<Piece>) -> bool {
    2 <= squares(occ_of(q)).len() <= 41
}

/// The evaluation of a placement for the side to move, in centipawns. Feature
/// weights are scaled by 255 and output weights by 64; 400 turns the network's
/// output into centipawns.
pub open spec fn value_for(n: Network, q: Seq<Piece>, stm: Color) -> int {
    let b = bucket_of(q);
    let sum = wrap32(
        output_sum(n, q, stm, b * 2816, 1408) + output_sum(n, q, stm.flip(), b * 2816 + 1408, 1408),
    );
    trunc(wrap32((trunc(sum, 255) + n.output_bias@[b]) * 400), 16320)
}

pub proof fn lemma_shares_update(n: Network, q: Seq<Piece>, c: Color, mirror: bool, j: int, s: int, p: Piece, k: int)
    requires
        0 <= s < q.len(),
        0 <= k <= q.len(),
    ensures
        shares(n, q.update(s, p), c, mirror, j, k) == shares(n, q, c, mirror, j, k) + if s < k {
            share(n, c, mirror, p, s, j) - share(n, c, mirror, q[s], s, j)
        } else {
            0
        },
    decreases k,
{
    if k > 0 {
        lemma_shares_update(n, q, c, mirror, j, s, p, k - 1);
    }
}

// -- moves as deltas --------------------------------------------------------------

/// `d` turns `q0` into `q1`: what it takes off stands there, what it puts on finds
/// an empty square.
pub open spec fn leads(q0: Seq<Piece>, d: Dirty, q1: Seq<Piece>) -> bool {
    let (p0, s0) = d.sub[0];
    let (p1, s1) = d.sub[1];
    let (pa, sa) = d.add[0];
    let r0 = if d.n_sub >= 1 {
        q0.update(s0.0 as int, Piece::none())
    } else {
        q0
    };
    let r1 = if d.n_sub >= 2 {
        r0.update(s1.0 as int, Piece::none())
    } else {
        r0
    };
    &&& d.n_sub <= 2
    &&& d.n_add <= 1
    &&& q0.len() == 100
    &&& d.n_sub >= 1 ==> s0.valid() && p0.valid() && q0[s0.0 as int] == p0
    &&& d.n_sub >= 2 ==> s1.valid() && p1.valid() && r0[s1.0 as int] == p1
    &&& d.n_add >= 1 ==> sa.valid() && pa.valid() && r1[sa.0 as int] == Piece::none()
    &&& q1 == if d.n_add >= 1 {
        r1.update(sa.0 as int, pa)
    } else {
        r1
    }
}

/// The deltas of a move lead from the placement before it to the one after.
pub proof fn lemma_dirty_leads(q: Seq<Piece>, us: Color, ep: Square, m: Move, d: Dirty)
    requires
        is_placement(q),
        reaches(q, us, ep, m),
        m.is_en_passant() ==> ep_real(q, us, ep.0 as int),
        dirty_for(d, q, us, m),
    ensures
        leads(q, d, moved(q, us, m)),
{
    lemma_moved(q, us, ep, m);
    lemma_piece(q[m.to().0 as int]);
    let f = m.from().0 as int;
    let t = m.to().0 as int;
    let q1 = moved(q, us, m);
    if m.is_en_passant() {
        let v = victim_of(us, t);
        assert(q1 =~= q.update(f, Piece::none()).update(v, Piece::none()).update(t, q[f]));
    } else if q[t] != Piece::none() {
        assert(q1 =~= q.update(t, Piece::none()).update(f, Piece::none()).update(
            t,
            arriving(q, us, m),
        ));
    }
}

/// What the deltas of a move add to neuron `j`.
pub open spec fn delta(n: Network, c: Color, mirror: bool, d: Dirty, j: int) -> int {
    (if d.n_add >= 1 {
        share(n, c, mirror, d.add[0].0, d.add[0].1.0 as int, j)
    } else {
        0
    }) - (if d.n_sub >= 1 {
        share(n, c, mirror, d.sub[0].0, d.sub[0].1.0 as int, j)
    } else {
        0
    }) - (if d.n_sub >= 2 {
        share(n, c, mirror, d.sub[1].0, d.sub[1].1.0 as int, j)
    } else {
        0
    })
}

proof fn lemma_leads_shares(n: Network, q0: Seq<Piece>, d: Dirty, q1: Seq<Piece>, c: Color, mirror: bool, j: int)
    requires
        leads(q0, d, q1),
    ensures
        shares(n, q1, c, mirror, j, 100) == shares(n, q0, c, mirror, j, 100) + delta(
            n,
            c,
            mirror,
            d,
            j,
        ),
{
    let (p0, s0) = d.sub[0];
    let (p1, s1) = d.sub[1];
    let (pa, sa) = d.add[0];
    let r0 = if d.n_sub >= 1 {
        q0.update(s0.0 as int, Piece::none())
    } else {
        q0
    };
    let r1 = if d.n_sub >= 2 {
        r0.update(s1.0 as int, Piece::none())
    } else {
        r0
    };
    if d.n_sub >= 1 {
        lemma_shares_update(n, q0, c, mirror, j, s0.0 as int, Piece::none(), 100);
    }
    if d.n_sub >= 2 {
        lemma_shares_update(n, r0, c, mirror, j, s1.0 as int, Piece::none(), 100);
    }
    if d.n_add >= 1 {
        lemma_shares_update(n, r1, c, mirror, j, sa.0 as int, pa, 100);
    }
}

// -- accumulators -----------------------------------------------------------

/// One accumulator per search ply and perspective, with what is needed to bring it
/// up to date.
pub struct NnueState {
    /// `[ply][perspective][neuron]`
    acc: Vec<i16>,
    /// `[ply][perspective]`: the mirror that the accumulator is built with.
    mirror: Vec<bool>,
    /// `[ply][perspective]`: whether the accumulator has been brought up to date.
    computed: Vec<bool>,
    /// `[ply]`: the move that led here, as feature deltas.
    dirty: Vec<Dirty>,
    top: usize,
    /// The placements from the root to the top.
    boards: Ghost<Seq<Seq<Piece>>>,
}

/// Row `r` of the accumulators holds the neurons of `q` as `c` sees it.
spec fn row_holds(acc: Seq<i16>, r: int, n: Network, q: Seq<Piece>, c: Color) -> bool {
    forall|j: int| 0 <= j < 1408 ==> #[trigger] acc[r * 1408 + j] == neuron(n, q, c, j)
}

impl NnueState {
    spec fn sized(&self) -> bool {
        &&& self.acc@.len() == 737792
        &&& self.mirror@.len() == 524
        &&& self.computed@.len() == 524
        &&& self.dirty@.len() == 262
        &&& self.top < 262
        &&& self.boards@.len() == self.top + 1
    }

    spec fn entry_ok(&self, n: Network, i: int, c: Color) -> bool {
        let r = 2 * i + c.idx();
        &&& self.mirror@[r] == mirror_of(self.boards@[i], c)
        &&& self.computed@[r] ==> row_holds(self.acc@, r, n, self.boards@[i], c)
        &&& !self.computed@[r] ==> i > 0 && self.mirror@[r - 2] == self.mirror@[r] && leads(
            self.boards@[i - 1],
            self.dirty@[i],
            self.boards@[i],
        )
    }

    /// Every accumulator is up to date or can be brought up to date.
    pub closed spec fn ok(&self, n: Network) -> bool {
        &&& self.sized()
        &&& n.ok()
        &&& forall|i: int, c: Color| 0 <= i <= self.top ==> #[trigger] self.entry_ok(n, i, c)
        &&& forall|i: int| 0 <= i <= self.top ==> (#[trigger] self.boards@[i]).len() == 100
    }

    /// How many moves have been recorded since the root.
    pub closed spec fn height(&self) -> int {
        self.top as int
    }

    /// The placements recorded, from the root to the top.
    pub closed spec fn path(&self) -> Seq<Seq<Piece>> {
        self.boards@
    }

    pub fn new() -> (r: NnueState)
        ensures
            r.shaped(),
    {
        let none = Dirty::default();
        NnueState {
            acc: vec![0i16; 737792],
            mirror: vec![false; 524],
            computed: vec![false; 524],
            dirty: vec![none; 262],
            top: 0,
            boards: Ghost(Seq::empty().push(Seq::empty())),
        }
    }

    /// The tables have their sizes; nothing need be recorded.
    pub closed spec fn shaped(&self) -> bool {
        self.sized()
    }

    /// A state in use has its tables.
    pub proof fn lemma_shaped(&self, n: Network)
        requires
            self.ok(n),
        ensures
            self.shaped(),
    {
    }

    /// Builds row `2 * at + c` from the board.
    fn refresh_side(&mut self, n: &Network, b: &Board, at: usize, c: Color)
        requires
            old(self).sized(),
            n.ok(),
            at < 262,
            b.placed(),
            has_kings(b.q()),
        ensures
            final(self).sized(),
            final(self).top == old(self).top,
            final(self).boards == old(self).boards,
            final(self).dirty == old(self).dirty,
            row_holds(final(self).acc@, 2 * at + c.idx(), *n, b.q(), c),
            final(self).mirror@ == old(self).mirror@.update(2 * at + c.idx(), mirror_of(b.q(), c)),
            final(self).computed@ == old(self).computed@.update(2 * at + c.idx(), true),
            forall|r: int, j: int|
                0 <= r < 524 && r != 2 * at + c.idx() && 0 <= j < 1408
                    ==> #[trigger] final(self).acc@[r * 1408 + j] == old(self).acc@[r * 1408 + j],
    {
        let ghost q = b.q();
        proof {
            lemma_king_of(q, c);
        }
        let mirror = perspective_mirror(c, b.king_sq(c));
        let row = 2 * at + c.idx();
        let base = row * HIDDEN;
        let ghost acc0 = self.acc@;
        let mut j: usize = 0;
        while j < HIDDEN
            invariant
                j <= 1408,
                n.ok(),
                row < 524,
                base == row * 1408,
                self.acc@.len() == 737792,
                self.mirror == old(self).mirror,
                self.computed == old(self).computed,
                self.dirty == old(self).dirty,
                self.top == old(self).top,
                self.boards == old(self).boards,
                forall|k: int| 0 <= k < j ==> #[trigger] self.acc@[base + k] == n.feature_bias@[k],
                forall|i: int|
                    0 <= i < 737792 && !(base <= i < base + 1408) ==> #[trigger] self.acc@[i]
                        == acc0[i],
            decreases 1408 - j,
        {
            self.acc[base + j] = n.feature_bias[j];
            j += 1;
        }
        proof {
            assert forall|k: int| 0 <= k < 1408 implies #[trigger] self.acc@[base + k] == wrap16(
                n.feature_bias@[k] + shares(*n, q, c, mirror, k, 0),
            ) by {}
        }
        let mut s: u8 = 0;
        while s < 100
            invariant
                s <= 100,
                n.ok(),
                b.placed(),
                q == b.q(),
                row < 524,
                base == row * 1408,
                self.acc@.len() == 737792,
                self.mirror == old(self).mirror,
                self.computed == old(self).computed,
                self.dirty == old(self).dirty,
                self.top == old(self).top,
                self.boards == old(self).boards,
                forall|k: int|
                    0 <= k < 1408 ==> #[trigger] self.acc@[base + k] == wrap16(
                        n.feature_bias@[k] + shares(*n, q, c, mirror, k, s as int),
                    ),
                forall|i: int|
                    0 <= i < 737792 && !(base <= i < base + 1408) ==> #[trigger] self.acc@[i]
                        == acc0[i],
            decreases 100 - s,
        {
            let p = b.piece_at(Square(s));
            if !p.is_none() {
                self.add_row(n, base, feature_index(c, mirror, p, Square(s)));
            }
            s += 1;
        }
        proof {
            reveal(neuron);
            assert forall|k: int| 0 <= k < 1408 implies #[trigger] self.acc@[row * 1408 + k]
                == neuron(*n, q, c, k) by {
                assert(self.acc@[base + k] == neuron(*n, q, c, k));
            }
            assert forall|r: int, j: int|
                0 <= r < 524 && r != row && 0 <= j < 1408 implies #[trigger] self.acc@[r * 1408 + j]
                == acc0[r * 1408 + j] by {
                let i = r * 1408 + j;
                assert(0 <= i < 737792 && !(base <= i < base + 1408));
            }
        }
        self.mirror[row] = mirror;
        self.computed[row] = true;
    }

    /// Adds the weights of input `f` to the row that starts at `base`.
    fn add_row(&mut self, n: &Network, base: usize, f: usize)
        requires
            n.ok(),
            f < 1600,
            base + 1408 <= 737792,
            old(self).acc@.len() == 737792,
        ensures
            final(self).acc@.len() == 737792,
            final(self).mirror == old(self).mirror,
            final(self).computed == old(self).computed,
            final(self).dirty == old(self).dirty,
            final(self).top == old(self).top,
            final(self).boards == old(self).boards,
            forall|k: int|
                0 <= k < 1408 ==> #[trigger] final(self).acc@[base + k] == wrap16(
                    old(self).acc@[base + k] + n.feature_weights@[f * 1408 + k],
                ),
            forall|i: int|
                0 <= i < 737792 && !(base <= i < base + 1408) ==> #[trigger] final(self).acc@[i]
                    == old(self).acc@[i],
    {
        let ghost acc0 = self.acc@;
        let mut j: usize = 0;
        while j < HIDDEN
            invariant
                j <= 1408,
                n.ok(),
                f < 1600,
                base + 1408 <= 737792,
                self.acc@.len() == 737792,
                self.mirror == old(self).mirror,
                self.computed == old(self).computed,
                self.dirty == old(self).dirty,
                self.top == old(self).top,
                self.boards == old(self).boards,
                forall|k: int|
                    0 <= k < j ==> #[trigger] self.acc@[base + k] == wrap16(
                        acc0[base + k] + n.feature_weights@[f * 1408 + k],
                    ),
                forall|i: int|
                    0 <= i < 737792 && !(base <= i < base + j) ==> #[trigger] self.acc@[i]
                        == acc0[i],
            decreases 1408 - j,
        {
            let x = self.acc[base + j].wrapping_add(n.feature_weights[f * HIDDEN + j]);
            assert(acc0[base + j] == self.acc@[base + j]);
            self.acc[base + j] = x;
            j += 1;
        }
    }

    /// Starts again from a board.
    pub fn reset(&mut self, n: &Network, b: &Board)
        requires
            old(self).shaped(),
            n.ok(),
            b.placed(),
            has_kings(b.q()),
        ensures
            final(self).ok(*n),
            final(self).height() == 0,
            final(self).path() == seq![b.q()],
    {
        self.top = 0;
        self.boards = Ghost(Seq::empty().push(b.q()));
        self.refresh_side(n, b, 0, Color::White);
        let ghost mid = *self;
        self.refresh_side(n, b, 0, Color::Black);
        proof {
            assert(row_holds(self.acc@, 0, *n, b.q(), Color::White)) by {
                assert forall|j: int| 0 <= j < 1408 implies #[trigger] self.acc@[0 * 1408 + j]
                    == neuron(*n, b.q(), Color::White, j) by {
                    assert(self.acc@[0 * 1408 + j] == mid.acc@[0 * 1408 + j]);
                }
            }
            assert(self.entry_ok(*n, 0, Color::White));
            assert(self.entry_ok(*n, 0, Color::Black));
            assert forall|i: int, c: Color| 0 <= i <= self.top implies #[trigger] self.entry_ok(
                *n,
                i,
                c,
            ) by {
                match c {
                    Color::White => {},
                    Color::Black => {},
                }
            }
        }
    }

    /// Records the position after a move. `b` is the board *after* it.
    pub fn push(&mut self, n: &Network, b: &Board, d: &Dirty)
        requires
            old(self).ok(*n),
            old(self).height() < 261,
            b.placed(),
            has_kings(b.q()),
            leads(old(self).path().last(), *d, b.q()),
        ensures
            final(self).ok(*n),
            final(self).height() == old(self).height() + 1,
            final(self).path() == old(self).path().push(b.q()),
    {
        let ghost was = *self;
        let prev = self.top;
        proof {
            lemma_king_of(b.q(), Color::White);
            lemma_king_of(b.q(), Color::Black);
            assert(self.entry_ok(*n, prev as int, Color::White));
            assert(self.entry_ok(*n, prev as int, Color::Black));
        }
        self.top = prev + 1;
        self.boards = Ghost(self.boards@.push(b.q()));
        self.dirty[prev + 1] = *d;
        let w = 2 * (prev + 1);
        self.computed[w] = false;
        self.computed[w + 1] = false;
        self.mirror[w] = perspective_mirror(Color::White, b.king_sq(Color::White));
        self.mirror[w + 1] = perspective_mirror(Color::Black, b.king_sq(Color::Black));
        assert(self.sized());
        assert(self.boards@[prev as int] == was.boards@[prev as int]);
        if self.mirror[w] != self.mirror[w - 2] {
            self.refresh_side(n, b, prev + 1, Color::White);
        }
        let ghost mid = *self;
        if self.mirror[w + 1] != self.mirror[w - 1] {
            self.refresh_side(n, b, prev + 1, Color::Black);
        }
        proof {
            let top = self.top as int;
            assert forall|r: int, j: int| 0 <= r < w && 0 <= j < 1408 implies #[trigger] self.acc@[r
                * 1408 + j] == was.acc@[r * 1408 + j] by {
                assert(self.acc@[r * 1408 + j] == mid.acc@[r * 1408 + j]);
            }
            assert forall|r: int| 0 <= r < w implies #[trigger] self.mirror@[r] == was.mirror@[r]
                && self.computed@[r] == was.computed@[r] by {}
            assert forall|i: int, c: Color| 0 <= i <= top implies #[trigger] self.entry_ok(
                *n,
                i,
                c,
            ) by {
                if i < top {
                    assert(was.entry_ok(*n, i, c));
                    assert(self.boards@[i] == was.boards@[i]);
                    let r = 2 * i + c.idx();
                    if self.computed@[r] {
                        assert forall|j: int| 0 <= j < 1408 implies #[trigger] self.acc@[r * 1408
                            + j] == neuron(*n, self.boards@[i], c, j) by {
                            assert(was.acc@[r * 1408 + j] == neuron(*n, was.boards@[i], c, j));
                        }
                    }
                    if i > 0 {
                        assert(self.boards@[i - 1] == was.boards@[i - 1]);
                    }
                } else {
                    match c {
                        Color::White => {
                            if self.computed@[w as int] {
                                assert forall|j: int| 0 <= j < 1408 implies #[trigger] self.acc@[w
                                    * 1408 + j] == neuron(*n, b.q(), c, j) by {
                                    assert(self.acc@[w * 1408 + j] == mid.acc@[w * 1408 + j]);
                                }
                            }
                        },
                        Color::Black => {},
                    }
                }
            }
        }
    }

    /// Records a passed turn: no piece moves, but the stack still grows.
    pub fn push_null(&mut self, n: &Network)
        requires
            old(self).ok(*n),
            old(self).height() < 261,
        ensures
            final(self).ok(*n),
            final(self).height() == old(self).height() + 1,
            final(self).path() == old(self).path().push(old(self).path().last()),
    {
        let ghost was = *self;
        let prev = self.top;
        proof {
            assert(self.entry_ok(*n, prev as int, Color::White));
            assert(self.entry_ok(*n, prev as int, Color::Black));
        }
        self.top = prev + 1;
        self.boards = Ghost(self.boards@.push(self.boards@.last()));
        self.dirty[prev + 1] = Dirty::default();
        let w = 2 * (prev + 1);
        self.computed[w] = false;
        self.computed[w + 1] = false;
        let m = self.mirror[w - 2];
        self.mirror[w] = m;
        let m = self.mirror[w - 1];
        self.mirror[w + 1] = m;
        proof {
            let top = self.top as int;
            assert(leads(self.boards@[top - 1], self.dirty@[top], self.boards@[top]));
            assert forall|i: int, c: Color| 0 <= i <= top implies #[trigger] self.entry_ok(
                *n,
                i,
                c,
            ) by {
                if i < top {
                    assert(was.entry_ok(*n, i, c));
                    assert(self.boards@[i] == was.boards@[i]);
                    if i > 0 {
                        assert(self.boards@[i - 1] == was.boards@[i - 1]);
                    }
                }
            }
        }
    }

    /// Takes the last record off.
    pub fn pop(&mut self, n: &Network)
        requires
            old(self).ok(*n),
            old(self).height() > 0,
        ensures
            final(self).ok(*n),
            final(self).height() == old(self).height() - 1,
            final(self).path() == old(self).path().drop_last(),
    {
        let ghost was = *self;
        self.top = self.top - 1;
        self.boards = Ghost(self.boards@.drop_last());
        proof {
            assert forall|i: int, c: Color| 0 <= i <= self.top implies #[trigger] self.entry_ok(
                *n,
                i,
                c,
            ) by {
                assert(was.entry_ok(*n, i, c));
                assert(self.boards@[i] == was.boards@[i]);
                if i > 0 {
                    assert(self.boards@[i - 1] == was.boards@[i - 1]);
                }
            }
            assert forall|i: int| 0 <= i <= self.top implies (#[trigger] self.boards@[i]).len()
                == 100 by {
                assert(self.boards@[i] == was.boards@[i]);
            }
        }
    }

    /// Writes row `row` from the row two before it and one move's deltas.
    fn apply_deltas(&mut self, n: &Network, row: usize, d: Dirty, c: Color, mirror: bool)
        requires
            n.ok(),
            2 <= row < 524,
            old(self).acc@.len() == 737792,
            d.n_add <= 1,
            d.n_sub <= 2,
            d.n_add >= 1 ==> d.add[0].0.valid() && d.add[0].1.valid(),
            d.n_sub >= 1 ==> d.sub[0].0.valid() && d.sub[0].1.valid(),
            d.n_sub >= 2 ==> d.sub[1].0.valid() && d.sub[1].1.valid(),
        ensures
            final(self).acc@.len() == 737792,
            final(self).mirror == old(self).mirror,
            final(self).computed == old(self).computed,
            final(self).dirty == old(self).dirty,
            final(self).top == old(self).top,
            final(self).boards == old(self).boards,
            forall|k: int|
                0 <= k < 1408 ==> #[trigger] final(self).acc@[row * 1408 + k] == wrap16(
                    old(self).acc@[(row - 2) * 1408 + k] + delta(*n, c, mirror, d, k),
                ),
            forall|r: int, k: int|
                0 <= r < 524 && r != row && 0 <= k < 1408 ==> #[trigger] final(self).acc@[r * 1408
                    + k] == old(self).acc@[r * 1408 + k],
    {
        let dst = row * HIDDEN;
        let src = (row - 2) * HIDDEN;
        let fa: usize = if d.n_add >= 1 {
            feature_index(c, mirror, d.add[0].0, d.add[0].1)
        } else {
            0
        };
        let f0: usize = if d.n_sub >= 1 {
            feature_index(c, mirror, d.sub[0].0, d.sub[0].1)
        } else {
            0
        };
        let f1: usize = if d.n_sub >= 2 {
            feature_index(c, mirror, d.sub[1].0, d.sub[1].1)
        } else {
            0
        };
        let ghost acc0 = self.acc@;
        let mut j: usize = 0;
        while j < HIDDEN
            invariant
                j <= 1408,
                n.ok(),
                fa < 1600,
                f0 < 1600,
                f1 < 1600,
                2 <= row < 524,
                dst == row * 1408,
                src == (row - 2) * 1408,
                self.acc@.len() == 737792,
                self.mirror == old(self).mirror,
                self.computed == old(self).computed,
                self.dirty == old(self).dirty,
                self.top == old(self).top,
                self.boards == old(self).boards,
                d.n_add >= 1 ==> d.add[0].0.valid() && fa == feature(
                    c,
                    mirror,
                    d.add[0].0,
                    d.add[0].1.0 as int,
                ),
                d.n_sub >= 1 ==> d.sub[0].0.valid() && f0 == feature(
                    c,
                    mirror,
                    d.sub[0].0,
                    d.sub[0].1.0 as int,
                ),
                d.n_sub >= 2 ==> d.sub[1].0.valid() && f1 == feature(
                    c,
                    mirror,
                    d.sub[1].0,
                    d.sub[1].1.0 as int,
                ),
                forall|k: int|
                    0 <= k < j ==> #[trigger] self.acc@[dst + k] == wrap16(
                        acc0[src + k] + delta(*n, c, mirror, d, k),
                    ),
                forall|x: int|
                    0 <= x < 737792 && !(dst <= x < dst + j) ==> #[trigger] self.acc@[x] == acc0[x],
            decreases 1408 - j,
        {
            let x = self.acc[src + j];
            assert(x == acc0[src + j]);
            let a: i16 = if d.n_add >= 1 {
                n.feature_weights[fa * HIDDEN + j]
            } else {
                0
            };
            let s0: i16 = if d.n_sub >= 1 {
                n.feature_weights[f0 * HIDDEN + j]
            } else {
                0
            };
            let s1: i16 = if d.n_sub >= 2 {
                n.feature_weights[f1 * HIDDEN + j]
            } else {
                0
            };
            assert(a - s0 - s1 == delta(*n, c, mirror, d, j as int));
            self.acc[dst + j] = mix(x, a, s0, s1);
            j += 1;
        }
        proof {
            assert forall|k: int| 0 <= k < 1408 implies #[trigger] self.acc@[row * 1408 + k]
                == wrap16(acc0[(row - 2) * 1408 + k] + delta(*n, c, mirror, d, k)) by {
                assert(self.acc@[dst + k] == wrap16(acc0[src + k] + delta(*n, c, mirror, d, k)));
            }
            assert forall|r: int, k: int|
                0 <= r < 524 && r != row && 0 <= k < 1408 implies #[trigger] self.acc@[r * 1408 + k]
                == acc0[r * 1408 + k] by {
                let x = r * 1408 + k;
                assert(0 <= x < 737792 && !(dst <= x < dst + 1408));
            }
        }
    }

    /// Brings ply `i` up to date from the ply before it.
    fn update_side(&mut self, n: &Network, i: usize, c: Color)
        requires
            old(self).ok(*n),
            0 < i <= old(self).top,
            old(self).computed@[2 * i + c.idx() - 2],
            !old(self).computed@[2 * i + c.idx()],
        ensures
            final(self).ok(*n),
            final(self).top == old(self).top,
            final(self).boards == old(self).boards,
            final(self).computed@ == old(self).computed@.update(2 * i + c.idx(), true),
    {
        let ghost was = *self;
        proof {
            assert(self.entry_ok(*n, i as int, c));
            assert(self.entry_ok(*n, i - 1, c));
        }
        let row = 2 * i + c.idx();
        let mirror = self.mirror[row];
        let d = self.dirty[i];
        self.apply_deltas(n, row, d, c, mirror);
        proof {
            lemma_row_updated(
                *n,
                was.acc@,
                self.acc@,
                row as int,
                was.boards@[i - 1],
                d,
                was.boards@[i as int],
                c,
                mirror,
            );
        }
        self.computed[row] = true;
        proof {
            assert forall|e: int, o: Color| 0 <= e <= self.top implies #[trigger] self.entry_ok(
                *n,
                e,
                o,
            ) by {
                assert(was.entry_ok(*n, e, o));
                let r = 2 * e + o.idx();
                if r == row {
                    assert(o == c) by {
                        match o {
                            Color::White => {},
                            Color::Black => {},
                        }
                    }
                    assert(e == i);
                } else if was.computed@[r] {
                    assert(row_holds(self.acc@, r, *n, self.boards@[e], o)) by {
                        assert forall|k: int| 0 <= k < 1408 implies #[trigger] self.acc@[r * 1408
                            + k] == neuron(*n, self.boards@[e], o, k) by {
                            assert(was.acc@[r * 1408 + k] == neuron(*n, was.boards@[e], o, k));
                        }
                    }
                }
            }
        }
    }

    /// Replays pending deltas for one perspective from the nearest computed
    /// accumulator below the top.
    fn ensure(&mut self, n: &Network, c: Color)
        requires
            old(self).ok(*n),
        ensures
            final(self).ok(*n),
            final(self).top == old(self).top,
            final(self).boards == old(self).boards,
            final(self).computed@[2 * final(self).top + c.idx()],
            forall|r: int| 0 <= r < 524 && old(self).computed@[r] ==> #[trigger] final(self).computed@[r],
    {
        let top = self.top;
        let mut i = top;
        while !self.computed[2 * i + c.idx()]
            invariant
                self.ok(*n),
                top == self.top,
                i <= top,
                *self == *old(self),
                forall|k: int| i < k <= top ==> !#[trigger] self.computed@[2 * k + c.idx()],
            decreases i,
        {
            proof {
                assert(self.entry_ok(*n, i as int, c));
            }
            i = i - 1;
            assert forall|k: int| i < k <= top implies !#[trigger] self.computed@[2 * k
                + c.idx()] by {}
        }
        while i < top
            invariant
                self.ok(*n),
                top == self.top,
                self.boards == old(self).boards,
                i <= top,
                self.computed@[2 * i + c.idx()],
                forall|k: int| i < k <= top ==> !#[trigger] self.computed@[2 * k + c.idx()],
                forall|r: int| 0 <= r < 524 && old(self).computed@[r] ==> #[trigger] self.computed@[r],
            decreases top - i,
        {
            let ghost mid = self.computed@;
            i = i + 1;
            assert(!self.computed@[2 * i + c.idx()]);
            self.update_side(n, i, c);
            assert forall|k: int| i < k <= top implies !#[trigger] self.computed@[2 * k
                + c.idx()] by {
                assert(!mid[2 * k + c.idx()]);
            }
        }
    }

    /// The weighted activations of one perspective of the top, with output weights
    /// from `row` on.
    fn ensure_flatten(&mut self, n: &Network, c: Color, row: usize) -> (r: i32)
        requires
            old(self).ok(*n),
            row + 1408 <= 22528,
        ensures
            final(self).ok(*n),
            final(self).top == old(self).top,
            final(self).boards == old(self).boards,
            r == wrap32(output_sum(*n, old(self).boards@.last(), c, row as int, 1408)),
    {
        self.ensure(n, c);
        let at = 2 * self.top + c.idx();
        proof {
            assert(self.entry_ok(*n, self.top as int, c));
        }
        flatten(&self.acc, at, n, row, Ghost(self.boards@.last()), c)
    }

    /// The evaluation of the position on top.
    pub fn evaluate(&mut self, n: &Network, b: &Board) -> (r: i32)
        requires
            old(self).ok(*n),
            b.placed(),
            evaluable(b.q()),
            b.q() == old(self).path().last(),
        ensures
            final(self).ok(*n),
            final(self).height() == old(self).height(),
            final(self).path() == old(self).path(),
            r == value_for(*n, b.q(), b.stm),
            -131586 <= r <= 131586,
    {
        let bucket = output_bucket(b);
        let us = self.ensure_flatten(n, b.stm, bucket * 2816);
        let them = self.ensure_flatten(n, b.stm.flip(), bucket * 2816 + HIDDEN);
        finish(n, b, us, them)
    }
}

proof fn lemma_wrap16(a: int, b: int)
    ensures
        wrap16(wrap16(a) + b) == wrap16(a + b),
{
}

/// The neurons after a move come from those before it by the move's deltas.
proof fn lemma_row_updated(
    n: Network,
    acc0: Seq<i16>,
    acc1: Seq<i16>,
    row: int,
    q0: Seq<Piece>,
    d: Dirty,
    q1: Seq<Piece>,
    c: Color,
    mirror: bool,
)
    requires
        leads(q0, d, q1),
        mirror_of(q0, c) == mirror,
        mirror_of(q1, c) == mirror,
        row_holds(acc0, row - 2, n, q0, c),
        forall|k: int|
            0 <= k < 1408 ==> #[trigger] acc1[row * 1408 + k] == wrap16(
                acc0[(row - 2) * 1408 + k] + delta(n, c, mirror, d, k),
            ),
    ensures
        row_holds(acc1, row, n, q1, c),
{
    assert forall|k: int| 0 <= k < 1408 implies #[trigger] acc1[row * 1408 + k] == neuron(
        n,
        q1,
        c,
        k,
    ) by {
        assert(acc0[(row - 2) * 1408 + k] == neuron(n, q0, c, k));
        lemma_leads_shares(n, q0, d, q1, c, mirror, k);
        reveal(neuron);
        lemma_wrap16(
            n.feature_bias@[k] + shares(n, q0, c, mirror, k, 100),
            delta(n, c, mirror, d, k),
        );
    }
}

/// A neuron after one input comes on and two go off.
fn mix(x: i16, a: i16, s0: i16, s1: i16) -> (r: i16)
    ensures
        r == wrap16(x + (a - s0 - s1)),
{
    let y = x.wrapping_add(a);
    assert(y == wrap16(x + a));
    let z = y.wrapping_sub(s0);
    assert(z == wrap16(x + a - s0));
    z.wrapping_sub(s1)
}

/// The output layer on one row of activations.
fn flatten(acc: &Vec<i16>, at: usize, n: &Network, row: usize, Ghost(q): Ghost<Seq<Piece>>, c: Color) -> (r: i32)
    requires
        acc@.len() == 737792 || acc@.len() == 1408,
        (at + 1) * 1408 <= acc@.len(),
        n.ok(),
        row + 1408 <= 22528,
        row_holds(acc@, at as int, *n, q, c),
    ensures
        r == wrap32(output_sum(*n, q, c, row as int, 1408)),
{
    let base = at * HIDDEN;
    let mut sum: i32 = 0;
    let mut j: usize = 0;
    while j < HIDDEN
        invariant
            j <= 1408,
            acc@.len() == 737792 || acc@.len() == 1408,
            base == at * 1408,
            base + 1408 <= acc@.len(),
            n.ok(),
            row + 1408 <= 22528,
            row_holds(acc@, at as int, *n, q, c),
            sum == wrap32(output_sum(*n, q, c, row as int, j as int)),
        decreases 1408 - j,
    {
        let a = acc[base + j];
        assert(acc@[at * 1408 + j] == neuron(*n, q, c, j as int));
        let v: i32 = if a < 0 {
            0
        } else if a > 255 {
            255
        } else {
            a as i32
        };
        let w = n.output_weights[row + j] as i32;
        assert(0 <= v * v <= 65025) by (nonlinear_arith)
            requires
                0 <= v <= 255,
        ;
        let sq: i32 = v * v;
        assert(-2130739200 <= sq * w <= 2130739200) by (nonlinear_arith)
            requires
                0 <= sq <= 65025,
                -32768 <= w <= 32768,
        ;
        assert(sq == activated(neuron(*n, q, c, j as int)));
        assert(output_sum(*n, q, c, row as int, j + 1) == output_sum(
            *n,
            q,
            c,
            row as int,
            j as int,
        ) + sq * w);
        sum = sum.wrapping_add(sq * w);
        j += 1;
    }
    sum
}

pub fn output_bucket(b: &Board) -> (r: usize)
    requires
        b.placed(),
        evaluable(b.q()),
    ensures
        r == bucket_of(b.q()),
        r < 8,
{
    let count = b.piece_count() as usize;
    (count - 2) / 5
}

/// A 32-bit value from a wider one, dropping the high bits.
fn narrow(x: i64) -> (r: i32)
    requires
        -0x1000_0000_0000_0000 <= x <= 0x1000_0000_0000_0000,
    ensures
        r == wrap32(x as int),
{
    let y: i64 = (x + 0x8000_0000 + 0x1000_0000_0000_0000) % 0x1_0000_0000;
    (y - 0x8000_0000) as i32
}

/// The two halves of the output layer as an evaluation.
fn finish(n: &Network, b: &Board, us: i32, them: i32) -> (r: i32)
    requires
        n.ok(),
        b.placed(),
        evaluable(b.q()),
        us == wrap32(output_sum(*n, b.q(), b.stm, bucket_of(b.q()) * 2816, 1408)),
        them == wrap32(output_sum(*n, b.q(), b.stm.flip(), bucket_of(b.q()) * 2816 + 1408, 1408)),
    ensures
        r == value_for(*n, b.q(), b.stm),
        -131586 <= r <= 131586,
{
    let bucket = output_bucket(b);
    let sum = us.wrapping_add(them);
    proof {
        let x = output_sum(*n, b.q(), b.stm, bucket_of(b.q()) * 2816, 1408);
        let y = output_sum(*n, b.q(), b.stm.flip(), bucket_of(b.q()) * 2816 + 1408, 1408);
        assert(sum == wrap32(x + y));
    }
    let wide: i64 = if sum >= 0 {
        sum as i64 / 255
    } else {
        -(-(sum as i64) / 255)
    };
    assert(wide == trunc(sum as int, 255));
    let out = narrow((wide + n.output_bias[bucket] as i64) * 400);
    let wide: i64 = out as i64;
    if wide >= 0 {
        (wide / 16320) as i32
    } else {
        (-((-wide) / 16320)) as i32
    }
}

/// A full recomputation of the evaluation.
pub fn evaluate_scratch(n: &Network, b: &Board) -> (r: i32)
    requires
        n.ok(),
        b.placed(),
        has_kings(b.q()),
        evaluable(b.q()),
    ensures
        r == value_for(*n, b.q(), b.stm),
        -131586 <= r <= 131586,
{
    let mut state = NnueState::new();
    state.reset(n, b);
    state.evaluate(n, b)
}

} // verus!
