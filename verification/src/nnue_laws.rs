//! What the network computes, in numbers, on networks simple enough to say.

use vstd::prelude::*;

use crate::play::made;
use crate::eval::EvalState;
use crate::squareset::squares_from;
use crate::board::{Board, Undo};
use crate::history::clamp_to;
use crate::nnue::{
    Network, activated, active_features, bucket_of, evaluable, evaluate_scratch, feature,
    feature_index, is_active, lemma_dirty_leads, lemma_turned, lists, mirror_of, mirrored, neuron,
    oriented, output_bucket, output_sum, perspective_mirror, shares, turned, value_for, word_at,
};
use crate::position::{
    is_placement, king_of, king_on, lemma_king_is, lemma_king_of, lemma_occ_of, occ_of, reaches,
};
use crate::rules::is_own;
use crate::types::{Color, Move, Piece, Square};

verus! {

/// The input that the piece on `s` switches on for `c`, whose king is on `k`: own pieces
/// before the enemy's, by type, then by square, the board turned so that `c` plays up it
/// and its king is on one of the five left files.
pub open spec fn input_number(q: Seq<Piece>, c: Color, k: int, s: int) -> int {
    let side = if is_own(q, c, s) {
        0int
    } else {
        800
    };
    let rank = if c == Color::White {
        s / 10
    } else {
        9 - s / 10
    };
    let file = if k % 10 <= 4 {
        s % 10
    } else {
        9 - s % 10
    };
    side + 100 * (q[s].0 as int % 8) + 10 * rank + file
}

/// The weights `g` of the inputs that the first `n` squares switch on, together.
pub open spec fn lit_sum(q: Seq<Piece>, c: Color, k: int, g: spec_fn(int) -> int, n: int) -> int
    decreases n,
{
    if n <= 0 {
        0
    } else if q[n - 1].0 < 16 {
        lit_sum(q, c, k, g, n - 1) + g(input_number(q, c, k, n - 1))
    } else {
        lit_sum(q, c, k, g, n - 1)
    }
}

/// Law: a side sees the board mirrored when its king stands on one of the five right
/// files. An input is numbered by the side of its piece, its type and its square as
/// the side sees it, rank by rank.
pub proof fn inputs_are_numbered_by_piece_and_square(
    c: Color,
    p: Piece,
    s: Square,
    k: Square,
    mirror: bool,
    r: usize,
)
    requires
        p.valid(),
        s.valid(),
        k.valid(),
        call_ensures(perspective_mirror, (c, k), mirror),
        call_ensures(feature_index, (c, mirror, p, s), r),
    ensures
        mirror <==> k.0 % 10 >= 5,
        forall|q: Seq<Piece>| #[trigger]
            q[s.0 as int] == p ==> r == input_number(q, c, k.0 as int, s.0 as int),
{
    let o = oriented(c, k.0 as int);
    assert(o % 10 == k.0 as int % 10);
    assert forall|q: Seq<Piece>| #[trigger] q[s.0 as int] == p implies r == input_number(
        q,
        c,
        k.0 as int,
        s.0 as int,
    ) by {
        lemma_input_number(q, c, k.0 as int, s.0 as int);
    }
}

proof fn lemma_input_number(q: Seq<Piece>, c: Color, k: int, s: int)
    requires
        0 <= s < 100,
        0 <= k < 100,
        q[s].valid(),
    ensures
        feature(c, mirrored(c, k), q[s], s) == input_number(q, c, k, s),
        0 <= input_number(q, c, k, s) < 1600,
{
    let mirror = mirrored(c, k);
    lemma_turned(c, mirror, s);
    let o = oriented(c, k);
    assert(o % 10 == k % 10);
    let x = turned(c, mirror, s);
    assert(x == x / 10 * 10 + x % 10);
    let kd = q[s].kind().idx() as int;
    assert(kd == q[s].0 as int % 8);
}

/// Every neuron has the weights `g` and the bias `beta`.
pub open spec fn same_neurons(n: Network, g: spec_fn(int) -> int, beta: int) -> bool {
    &&& forall|i: int, j: int|
        0 <= i < 1600 && 0 <= j < 1408 ==> #[trigger] n.feature_weights@[i * 1408 + j] == g(i)
    &&& forall|j: int| 0 <= j < 1408 ==> #[trigger] n.feature_bias@[j] == beta
}

/// Row `b` of the output weighs every neuron of the side to move with `w`, every one of the
/// other with `v`, and adds `bias`.
pub open spec fn same_outputs(n: Network, b: int, w: int, v: int, bias: int) -> bool {
    &&& forall|j: int|
        b * 2816 <= j < b * 2816 + 1408 ==> #[trigger] n.output_weights@[j] == w
    &&& forall|j: int|
        b * 2816 + 1408 <= j < b * 2816 + 2816 ==> #[trigger] n.output_weights@[j] == v
    &&& n.output_bias@[b] == bias
}

proof fn lemma_lit_shares(n: Network, q: Seq<Piece>, c: Color, k: int, g: spec_fn(int) -> int, beta: int, j: int, m: int)
    requires
        same_neurons(n, g, beta),
        is_placement(q),
        0 <= k < 100,
        0 <= j < 1408,
        0 <= m <= 100,
    ensures
        shares(n, q, c, mirrored(c, k), j, m) == lit_sum(q, c, k, g, m),
    decreases m,
{
    if m > 0 {
        lemma_lit_shares(n, q, c, k, g, beta, j, m - 1);
        if q[m - 1].valid() {
            lemma_input_number(q, c, k, m - 1);
            let i = input_number(q, c, k, m - 1);
            assert(n.feature_weights@[i * 1408 + j] == g(i));
        }
    }
}

/// A neuron's output: nothing below 0, the square up to 255, and no more above.
pub open spec fn is_output(x: int, a: int) -> bool {
    &&& x <= 0 ==> a == 0
    &&& 0 <= x <= 255 ==> a == x * x
    &&& x >= 255 ==> a == 65025
}

proof fn lemma_square(x: int, a: int)
    requires
        is_output(x, a),
    ensures
        activated(x) == a,
{
    let c = clamp_to(x, 0, 255);
    assert(c * c == a) by (nonlinear_arith)
        requires
            is_output(x, a),
            c == if x < 0 {
                0
            } else if x > 255 {
                255
            } else {
                x
            },
    ;
}

proof fn lemma_same_sum(n: Network, q: Seq<Piece>, c: Color, row: int, x: int, w: int, a: int, m: int)
    requires
        0 <= m <= 1408,
        forall|j: int| 0 <= j < 1408 ==> #[trigger] neuron(n, q, c, j) == x,
        forall|j: int| row <= j < row + 1408 ==> #[trigger] n.output_weights@[j] == w,
        is_output(x, a),
    ensures
        output_sum(n, q, c, row, m) == m * (a * w),
    decreases m,
{
    if m > 0 {
        lemma_same_sum(n, q, c, row, x, w, a, m - 1);
        assert(neuron(n, q, c, m - 1) == x);
        assert(n.output_weights@[row + m - 1] == w);
        lemma_square(x, a);
        assert((m - 1) * (a * w) + a * w == m * (a * w)) by (nonlinear_arith);
    } else {
        assert(0 * (a * w) == 0) by (nonlinear_arith);
    }
}

proof fn lemma_equal_neurons(
    n: Network,
    q: Seq<Piece>,
    us: Color,
    g: spec_fn(int) -> int,
    beta: int,
    w: int,
    v: int,
    bias: int,
    mine: int,
    theirs: int,
    x: int,
    y: int,
    ax: int,
    ay: int,
)
    requires
        n.ok(),
        is_placement(q),
        evaluable(q),
        same_neurons(n, g, beta),
        same_outputs(n, bucket_of(q), w, v, bias),
        0 <= w <= 4,
        0 <= v <= 4,
        king_on(q, us, mine),
        king_on(q, us.flip(), theirs),
        x == beta + lit_sum(q, us, mine, g, 100),
        y == beta + lit_sum(q, us.flip(), theirs, g, 100),
        -32768 <= x <= 32767,
        -32768 <= y <= 32767,
        is_output(x, ax),
        is_output(y, ay),
    ensures
        ({
            let sum = 1408 * (ax * w + ay * v) / 255 + bias;
            value_for(n, q, us) == if sum >= 0 {
                sum * 400 / 16320
            } else {
                -(-sum * 400 / 16320)
            }
        }),
{
    let row = bucket_of(q);
    let them = us.flip();
    lemma_king_is(q, us, mine);
    lemma_king_is(q, them, theirs);
    assert forall|j: int| 0 <= j < 1408 implies #[trigger] neuron(n, q, us, j) == x by {
        reveal(neuron);
        lemma_lit_shares(n, q, us, mine, g, beta, j, 100);
        assert(n.feature_bias@[j] == beta);
    }
    assert forall|j: int| 0 <= j < 1408 implies #[trigger] neuron(n, q, them, j) == y by {
        reveal(neuron);
        lemma_lit_shares(n, q, them, theirs, g, beta, j, 100);
        assert(n.feature_bias@[j] == beta);
    }
    lemma_same_sum(n, q, us, row * 2816, x, w, ax, 1408);
    lemma_same_sum(n, q, them, row * 2816 + 1408, y, v, ay, 1408);
    assert(0 <= ax <= 65025) by (nonlinear_arith)
        requires
            is_output(x, ax),
    ;
    assert(0 <= ay <= 65025) by (nonlinear_arith)
        requires
            is_output(y, ay),
    ;
    assert(0 <= ax * w <= 65025 * 4) by (nonlinear_arith)
        requires
            0 <= ax <= 65025,
            0 <= w <= 4,
    ;
    assert(0 <= ay * v <= 65025 * 4) by (nonlinear_arith)
        requires
            0 <= ay <= 65025,
            0 <= v <= 4,
    ;
    let total = 1408 * (ax * w + ay * v);
    assert(-32768 <= bias <= 32767);
    assert(0 <= total / 255 <= 2872320);
}

/// Law: a network of equal neurons. What a side sees is the bias and the weights of the
/// inputs that are lit for it; it is squared between 0 and 255; the outputs of the side
/// to move and of the other are weighed by the row for the number of pieces; and what
/// they come to is divided by 255, shifted by the row's bias and scaled by 400 in 16320.
pub proof fn a_network_of_equal_neurons(
    n: Network,
    b: Board,
    g: spec_fn(int) -> int,
    beta: int,
    w: int,
    v: int,
    bias: int,
    count: u32,
    row: int,
    mine: int,
    theirs: int,
    x: int,
    y: int,
    ax: int,
    ay: int,
    r: i32,
)
    requires
        n.ok(),
        b.wf(),
        evaluable(b.q()),
        call_ensures(evaluate_scratch, (&n, &b), r),
        call_ensures(Board::piece_count, (&b,), count),
        5 * row + 2 <= count <= 5 * row + 6,
        same_neurons(n, g, beta),
        same_outputs(n, row, w, v, bias),
        0 <= w <= 4,
        0 <= v <= 4,
        king_on(b.q(), b.stm, mine),
        king_on(b.q(), b.stm.flip(), theirs),
        x == beta + lit_sum(b.q(), b.stm, mine, g, 100),
        y == beta + lit_sum(b.q(), b.stm.flip(), theirs, g, 100),
        -32768 <= x <= 32767,
        -32768 <= y <= 32767,
        is_output(x, ax),
        is_output(y, ay),
    ensures
        ({
            let sum = 1408 * (ax * w + ay * v) / 255 + bias;
            r == if sum >= 0 {
                sum * 400 / 16320
            } else {
                -(-sum * 400 / 16320)
            }
        }),
{
    assert(bucket_of(b.q()) == row);
    lemma_equal_neurons(n, b.q(), b.stm, g, beta, w, v, bias, mine, theirs, x, y, ax, ay);
}

/// Law: the activation is quadratic in its range and constant outside. With no feature
/// weights, every feature bias `x`, and output weights 1 for the side to move and 0 for the
/// other, without bias, the evaluation is 1408 squares of `x` divided by 255 and
/// scaled by 400 in 16320; below 0 it is nothing, and above 255 what it is at 255.
pub proof fn the_activation_is_a_clipped_square(n: Network, b: Board, x: int, r: i32)
    requires
        n.ok(),
        b.wf(),
        evaluable(b.q()),
        call_ensures(evaluate_scratch, (&n, &b), r),
        forall|i: int| 0 <= i < 2252800 ==> #[trigger] n.feature_weights@[i] == 0,
        forall|i: int| 0 <= i < 1408 ==> #[trigger] n.feature_bias@[i] == x,
        forall|i: int|
            0 <= i < 22528 ==> #[trigger] n.output_weights@[i] == if i / 1408 % 2 == 0 {
                1int
            } else {
                0
            },
        forall|i: int| 0 <= i < 8 ==> #[trigger] n.output_bias@[i] == 0,
    ensures
        0 <= x <= 255 ==> r == 1408 * (x * x) / 255 * 400 / 16320,
        x < 0 ==> r == 0,
        x > 255 ==> r == 1408 * 65025 / 255 * 400 / 16320,
{
    let q = b.q();
    let g = |i: int| 0int;
    let us = b.stm;
    lemma_king_of(q, us);
    lemma_king_of(q, us.flip());
    let (mine, theirs) = (king_of(q, us), king_of(q, us.flip()));
    lemma_nothing_lit(q, us, mine, 100);
    lemma_nothing_lit(q, us.flip(), theirs, 100);
    assert(-32768 <= x <= 32767) by {
        assert(n.feature_bias@[0] == x);
    }
    let a = if x < 0 {
        0
    } else if x > 255 {
        65025
    } else {
        x * x
    };
    assert(is_output(x, a)) by (nonlinear_arith)
        requires
            a == if x < 0 {
                0
            } else if x > 255 {
                65025
            } else {
                x * x
            },
    ;
    let row = bucket_of(q);
    assert(same_outputs(n, row, 1, 0, 0)) by {
        assert forall|j: int|
            row * 2816 <= j < row * 2816 + 1408 implies #[trigger] n.output_weights@[j] == 1 by {
            assert(j / 1408 == 2 * row);
        }
        assert forall|j: int|
            row * 2816 + 1408 <= j < row * 2816 + 2816 implies #[trigger] n.output_weights@[j]
            == 0 by {
            assert(j / 1408 == 2 * row + 1);
        }
    }
    lemma_equal_neurons(n, q, us, g, x, 1, 0, 0, mine, theirs, x, x, a, a);
    assert(a * 1 + a * 0 == a);
}

proof fn lemma_nothing_lit(q: Seq<Piece>, c: Color, k: int, n: int)
    ensures
        lit_sum(q, c, k, |i: int| 0int, n) == 0,
    decreases n,
{
    if n > 0 {
        lemma_nothing_lit(q, c, k, n - 1);
    }
}

/// The pieces on the squares from `lo` on.
pub open spec fn pieces_from(q: Seq<Piece>, lo: int) -> int
    decreases 100 - lo,
{
    if lo >= 100 {
        0
    } else {
        pieces_from(q, lo + 1) + if q[lo].0 < 16 {
            1int
        } else {
            0
        }
    }
}

pub proof fn lemma_pieces_from(q: Seq<Piece>, lo: int)
    requires
        q.len() == 100,
        0 <= lo <= 128,
    ensures
        squares_from(occ_of(q), lo).len() == pieces_from(q, lo),
    decreases 128 - lo,
{
    if lo < 128 {
        lemma_pieces_from(q, lo + 1);
        lemma_occ_of(q, lo);
    }
}

/// Law: a board counts the squares that hold a piece, and the output row changes with
/// every fifth piece: two to six pieces have the first row, seven to eleven the
/// second, and so on.
pub proof fn five_pieces_share_a_row(b: Board, count: u32, row: usize)
    requires
        b.wf(),
        evaluable(b.q()),
        call_ensures(Board::piece_count, (&b,), count),
        call_ensures(output_bucket, (&b,), row),
    ensures
        count == pieces_from(b.mailbox@, 0),
        5 * row + 2 <= count <= 5 * row + 6,
        row < 8,
{
    lemma_pieces_from(b.q(), 0);
}

/// Law: the inputs lit for the two sides are those of the pieces on the board, in
/// ascending order.
pub proof fn the_lit_inputs_are_the_pieces(b: Board, mine: int, theirs: int, f: int, r: (Vec<usize>, Vec<usize>))
    requires
        b.wf(),
        king_on(b.q(), b.stm, mine),
        king_on(b.q(), b.stm.flip(), theirs),
        call_ensures(active_features, (&b,), r),
    ensures
        (exists|i: int| 0 <= i < r.0@.len() && #[trigger] r.0@[i] == f) <==> exists|s: int|
            0 <= s < 100 && b.mailbox[s].0 < 16 && f == #[trigger] input_number(
                b.mailbox@,
                b.stm,
                mine,
                s,
            ),
        (exists|i: int| 0 <= i < r.1@.len() && #[trigger] r.1@[i] == f) <==> exists|s: int|
            0 <= s < 100 && b.mailbox[s].0 < 16 && f == #[trigger] input_number(
                b.mailbox@,
                b.stm.flip(),
                theirs,
                s,
            ),
        forall|i: int, j: int| 0 <= i < j < r.0@.len() ==> r.0@[i] < r.0@[j],
        forall|i: int, j: int| 0 <= i < j < r.1@.len() ==> r.1@[i] < r.1@[j],
{
    let q = b.q();
    lemma_king_is(q, b.stm, mine);
    lemma_king_is(q, b.stm.flip(), theirs);
    lemma_active(q, b.stm, mine, f);
    lemma_active(q, b.stm.flip(), theirs, f);
    assert(is_active(q, b.stm, f) <==> lists(r.0@, f));
    assert(is_active(q, b.stm.flip(), f) <==> lists(r.1@, f));
}

proof fn lemma_active(q: Seq<Piece>, c: Color, k: int, f: int)
    requires
        is_placement(q),
        king_of(q, c) == k,
        0 <= k < 100,
    ensures
        is_active(q, c, f) <==> exists|s: int|
            0 <= s < 100 && q[s].0 < 16 && f == #[trigger] input_number(q, c, k, s),
{
    assert forall|s: int| 0 <= s < 100 && q[s].0 < 16 implies #[trigger] input_number(q, c, k, s)
        == feature(c, mirrored(c, k), q[s], s) by {
        lemma_input_number(q, c, k, s);
    }
    if is_active(q, c, f) {
        let s = choose|s: int|
            0 <= s < 100 && #[trigger] q[s].valid() && feature(c, mirror_of(q, c), q[s], s) == f;
        assert(f == input_number(q, c, k, s));
    }
    if exists|s: int| 0 <= s < 100 && q[s].0 < 16 && f == #[trigger] input_number(q, c, k, s) {
        let s = choose|s: int|
            0 <= s < 100 && q[s].0 < 16 && f == #[trigger] input_number(q, c, k, s);
        assert(q[s].valid());
    }
}

/// Law: a network file is its weights in order, each a 16-bit number with its low byte
/// first: a hundred squares by sixteen pieces by 1408 feature weights, 1408 feature
/// biases, eight rows of twice 1408 output weights and eight output biases.
pub proof fn a_network_file_is_its_weights(bytes: &[u8], i: int, r: Option<Network>)
    requires
        call_ensures(Network::from_bytes, (bytes,), r),
    ensures
        r is Some <==> bytes@.len() == 4553536,
        r matches Some(n) ==> {
            &&& 0 <= i < 2252800 ==> n.feature_weights@[i] as int % 65536 == bytes@[2 * i] + 256
                * bytes@[2 * i + 1]
            &&& 2252800 <= i < 2254208 ==> n.feature_bias@[i - 2252800] as int % 65536 == bytes@[2
                * i] + 256 * bytes@[2 * i + 1]
            &&& 2254208 <= i < 2276736 ==> n.output_weights@[i - 2254208] as int % 65536 == bytes@[2
                * i] + 256 * bytes@[2 * i + 1]
            &&& 2276736 <= i < 2276744 ==> n.output_bias@[i - 2276736] as int % 65536 == bytes@[2
                * i] + 256 * bytes@[2 * i + 1]
        },
{
    if let Some(n) = r {
        if 0 <= i < 2252800 {
            assert(n.feature_weights@[i] == word_at(bytes@, i));
        } else if 2252800 <= i < 2254208 {
            assert(n.feature_bias@[i - 2252800] == word_at(bytes@, 2252800 + (i - 2252800)));
        } else if 2254208 <= i < 2276736 {
            assert(n.output_weights@[i - 2254208] == word_at(bytes@, 2254208 + (i - 2254208)));
        } else if 2276736 <= i < 2276744 {
            assert(n.output_bias@[i - 2276736] == word_at(bytes@, 2276736 + (i - 2276736)));
        }
    }
}

/// Law: followed through a move and back, an evaluation is what a full recomputation
/// gives, before, after and again.
pub proof fn following_a_move_is_recomputing(
    n: Network,
    b: Board,
    after: Board,
    u: Undo,
    m: Move,
    s0: &mut EvalState,
    s1: &mut EvalState,
    s2: &mut EvalState,
    s3: &mut EvalState,
    s4: &mut EvalState,
    s5: &mut EvalState,
    first: i32,
    second: i32,
    third: i32,
    scratch: i32,
    scratch_after: i32,
)
    requires
        n.ok(),
        b.wf(),
        after.wf(),
        evaluable(b.q()),
        evaluable(after.q()),
        reaches(b.q(), b.stm, b.ep, m),
        made(b, m, after, u, true),
        s0.shaped(),
        call_ensures(EvalState::reset, (s0, &n, &b), ()),
        *old(s1) == *final(s0),
        call_ensures(EvalState::evaluate, (s1, &n, &b), first),
        *old(s2) == *final(s1),
        call_ensures(EvalState::push, (s2, &n, &after, &u.dirty), ()),
        *old(s3) == *final(s2),
        call_ensures(EvalState::evaluate, (s3, &n, &after), second),
        *old(s4) == *final(s3),
        call_ensures(EvalState::pop, (s4, &n), ()),
        *old(s5) == *final(s4),
        call_ensures(EvalState::evaluate, (s5, &n, &b), third),
        call_ensures(evaluate_scratch, (&n, &b), scratch),
        call_ensures(evaluate_scratch, (&n, &after), scratch_after),
    ensures
        first == scratch,
        second == scratch_after,
        third == scratch,
{
    lemma_dirty_leads(b.q(), b.stm, b.ep, m, u.dirty);
    assert(final(s0).path() == seq![b.q()]);
    assert(final(s2).path() == seq![b.q()].push(after.q()));
    assert(final(s4).path() =~= seq![b.q()]);
}

} // verus!
