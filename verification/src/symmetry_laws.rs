//! The two sides are alike: with the board turned round and the colours exchanged,
//! nothing changes for the side to move.

use vstd::prelude::*;

use crate::board::Board;
use crate::nnue::{
    Network, bucket_of, evaluable, evaluate_scratch, lemma_turned, mirror_of, neuron, oriented,
    output_sum, share, shares, turned,
};
use crate::nnue_laws::{lemma_pieces_from, pieces_from};
use crate::position::{
    is_placement, king_of, king_on, lemma_king_is, lemma_king_of, lemma_piece, piece_on,
};

use crate::types::{Color, Piece, PieceType};

verus! {

/// The square on the same file, counted from the other end.
pub open spec fn opposite(s: int) -> int {
    (9 - s / 10) * 10 + s % 10
}

/// The same piece of the other side.
pub open spec fn exchanged(p: Piece) -> Piece {
    if p.0 < 8 {
        Piece((p.0 + 8) as u8)
    } else if p.0 < 16 {
        Piece((p.0 - 8) as u8)
    } else {
        p
    }
}

/// `q` turned round, with the colours exchanged.
pub open spec fn turned_round(q: Seq<Piece>) -> Seq<Piece> {
    Seq::new(100, |s: int| exchanged(q[opposite(s)]))
}

proof fn lemma_opposite(s: int)
    requires
        0 <= s < 100,
    ensures
        0 <= opposite(s) < 100,
        opposite(opposite(s)) == s,
        opposite(s) % 10 == s % 10,
        opposite(s) / 10 == 9 - s / 10,
{
}

proof fn lemma_king_turned(q: Seq<Piece>, c: Color, k: int)
    requires
        is_placement(q),
        king_on(q, c, k),
    ensures
        is_placement(turned_round(q)),
        king_on(turned_round(q), c.flip(), opposite(k)),
{
    let t = turned_round(q);
    lemma_opposite(k);
    assert forall|i: int| 0 <= i < 100 implies (#[trigger] t[i]).valid() || t[i] == Piece::none() by {
        lemma_opposite(i);
    }
    assert(t[opposite(k)] == exchanged(q[k]));
    assert forall|j: int| #[trigger] piece_on(t, j, c.flip(), PieceType::King) implies j == opposite(
        k,
    ) by {
        lemma_opposite(j);
        assert(piece_on(q, opposite(j), c, PieceType::King));
    }
}

proof fn lemma_share_turned(n: Network, q: Seq<Piece>, c: Color, mirror: bool, j: int, s: int)
    requires
        is_placement(q),
        0 <= s < 100,
    ensures
        share(n, c.flip(), mirror, turned_round(q)[s], s, j) == share(
            n,
            c,
            mirror,
            q[opposite(s)],
            opposite(s),
            j,
        ),
{
    lemma_opposite(s);
    let p = q[opposite(s)];
    lemma_piece(p);
    lemma_piece(exchanged(p));
    lemma_turned(c, mirror, opposite(s));
    lemma_turned(c.flip(), mirror, s);
    let (x, y) = (turned(c.flip(), mirror, s), turned(c, mirror, opposite(s)));
    assert(x / 10 == y / 10 && x % 10 == y % 10);
}

/// The ranks come in the other order, and each adds what it did.
proof fn lemma_shares_turned(n: Network, q: Seq<Piece>, c: Color, mirror: bool, j: int, k: int)
    requires
        is_placement(q),
        0 <= k <= 10,
    ensures
        shares(n, turned_round(q), c.flip(), mirror, j, 10 * k) == shares(n, q, c, mirror, j, 100) - shares(
            n,
            q,
            c,
            mirror,
            j,
            100 - 10 * k,
        ),
    decreases k,
{
    if k > 0 {
        lemma_shares_turned(n, q, c, mirror, j, k - 1);
        let t = turned_round(q);
        let lo = 10 * (k - 1);
        let at = 100 - 10 * k;
        assert forall|f: int| 0 <= f < 10 implies #[trigger] share(
            n,
            c.flip(),
            mirror,
            t[lo + f],
            lo + f,
            j,
        ) == share(n, c, mirror, q[at + f], at + f, j) by {
            lemma_share_turned(n, q, c, mirror, j, lo + f);
            assert(opposite(lo + f) == at + f);
        }
        lemma_ten(n, t, c.flip(), mirror, j, lo);
        lemma_ten(n, q, c, mirror, j, at);
        assert(share(n, c.flip(), mirror, t[lo + 0], lo + 0, j) == share(n, c, mirror, q[at + 0], at + 0, j));
        assert(share(n, c.flip(), mirror, t[lo + 1], lo + 1, j) == share(n, c, mirror, q[at + 1], at + 1, j));
        assert(share(n, c.flip(), mirror, t[lo + 2], lo + 2, j) == share(n, c, mirror, q[at + 2], at + 2, j));
        assert(share(n, c.flip(), mirror, t[lo + 3], lo + 3, j) == share(n, c, mirror, q[at + 3], at + 3, j));
        assert(share(n, c.flip(), mirror, t[lo + 4], lo + 4, j) == share(n, c, mirror, q[at + 4], at + 4, j));
        assert(share(n, c.flip(), mirror, t[lo + 5], lo + 5, j) == share(n, c, mirror, q[at + 5], at + 5, j));
        assert(share(n, c.flip(), mirror, t[lo + 6], lo + 6, j) == share(n, c, mirror, q[at + 6], at + 6, j));
        assert(share(n, c.flip(), mirror, t[lo + 7], lo + 7, j) == share(n, c, mirror, q[at + 7], at + 7, j));
        assert(share(n, c.flip(), mirror, t[lo + 8], lo + 8, j) == share(n, c, mirror, q[at + 8], at + 8, j));
        assert(share(n, c.flip(), mirror, t[lo + 9], lo + 9, j) == share(n, c, mirror, q[at + 9], at + 9, j));
    }
}

/// What ten squares add.
proof fn lemma_ten(n: Network, q: Seq<Piece>, c: Color, mirror: bool, j: int, lo: int)
    requires
        0 <= lo,
    ensures
        shares(n, q, c, mirror, j, lo + 10) == shares(n, q, c, mirror, j, lo) + share(
            n,
            c,
            mirror,
            q[lo + 0],
            lo + 0,
            j,
        ) + share(n, c, mirror, q[lo + 1], lo + 1, j) + share(n, c, mirror, q[lo + 2], lo + 2, j) + share(
            n,
            c,
            mirror,
            q[lo + 3],
            lo + 3,
            j,
        ) + share(n, c, mirror, q[lo + 4], lo + 4, j) + share(n, c, mirror, q[lo + 5], lo + 5, j) + share(
            n,
            c,
            mirror,
            q[lo + 6],
            lo + 6,
            j,
        ) + share(n, c, mirror, q[lo + 7], lo + 7, j) + share(n, c, mirror, q[lo + 8], lo + 8, j) + share(
            n,
            c,
            mirror,
            q[lo + 9],
            lo + 9,
            j,
        ),
{
    reveal_with_fuel(shares, 11);
}

proof fn lemma_neuron_turned(n: Network, q: Seq<Piece>, c: Color, k: int, j: int)
    requires
        is_placement(q),
        king_on(q, c, k),
    ensures
        neuron(n, turned_round(q), c.flip(), j) == neuron(n, q, c, j),
{
    reveal(neuron);
    let t = turned_round(q);
    lemma_king_turned(q, c, k);
    lemma_king_is(q, c, k);
    lemma_king_is(t, c.flip(), opposite(k));
    lemma_opposite(k);
    let (a, b) = (oriented(c, k), oriented(c.flip(), opposite(k)));
    assert(a % 10 == k % 10 && b % 10 == k % 10);
    assert(mirror_of(t, c.flip()) == mirror_of(q, c));
    lemma_shares_turned(n, q, c, mirror_of(q, c), j, 10);
    assert(shares(n, q, c, mirror_of(q, c), j, 0) == 0);
}

proof fn lemma_sum_turned(n: Network, q: Seq<Piece>, c: Color, k: int, row: int, m: int)
    requires
        is_placement(q),
        king_on(q, c, k),
    ensures
        output_sum(n, turned_round(q), c.flip(), row, m) == output_sum(n, q, c, row, m),
    decreases m,
{
    if m > 0 {
        lemma_sum_turned(n, q, c, k, row, m - 1);
        lemma_neuron_turned(n, q, c, k, m - 1);
    }
}

/// 1 where a piece stands.
spec fn stands_at(q: Seq<Piece>, s: int) -> int {
    if q[s].0 < 16 {
        1
    } else {
        0
    }
}

/// How many pieces ten squares hold.
proof fn lemma_ten_pieces(q: Seq<Piece>, lo: int)
    requires
        0 <= lo <= 90,
    ensures
        pieces_from(q, lo) == pieces_from(q, lo + 10) + stands_at(q, lo) + stands_at(q, lo + 1) + stands_at(
            q,
            lo + 2,
        ) + stands_at(q, lo + 3) + stands_at(q, lo + 4) + stands_at(q, lo + 5) + stands_at(q, lo + 6)
            + stands_at(q, lo + 7) + stands_at(q, lo + 8) + stands_at(q, lo + 9),
{
    assert(pieces_from(q, lo) == pieces_from(q, lo + 1) + stands_at(q, lo));
    assert(pieces_from(q, lo + 1) == pieces_from(q, lo + 2) + stands_at(q, lo + 1));
    assert(pieces_from(q, lo + 2) == pieces_from(q, lo + 3) + stands_at(q, lo + 2));
    assert(pieces_from(q, lo + 3) == pieces_from(q, lo + 4) + stands_at(q, lo + 3));
    assert(pieces_from(q, lo + 4) == pieces_from(q, lo + 5) + stands_at(q, lo + 4));
    assert(pieces_from(q, lo + 5) == pieces_from(q, lo + 6) + stands_at(q, lo + 5));
    assert(pieces_from(q, lo + 6) == pieces_from(q, lo + 7) + stands_at(q, lo + 6));
    assert(pieces_from(q, lo + 7) == pieces_from(q, lo + 8) + stands_at(q, lo + 7));
    assert(pieces_from(q, lo + 8) == pieces_from(q, lo + 9) + stands_at(q, lo + 8));
    assert(pieces_from(q, lo + 9) == pieces_from(q, lo + 10) + stands_at(q, lo + 9));
}

proof fn lemma_stands_turned(q: Seq<Piece>, s: int)
    requires
        is_placement(q),
        0 <= s < 100,
    ensures
        stands_at(turned_round(q), s) == stands_at(q, opposite(s)),
{
    lemma_opposite(s);
}

proof fn lemma_pieces_turned(q: Seq<Piece>, k: int)
    requires
        is_placement(q),
        0 <= k <= 10,
    ensures
        pieces_from(turned_round(q), 100 - 10 * k) == pieces_from(q, 0) - pieces_from(q, 10 * k),
    decreases k,
{
    let t = turned_round(q);
    if k > 0 {
        lemma_pieces_turned(q, k - 1);
        let lo = 10 * (k - 1);
        let at = 100 - 10 * k;
        assert forall|f: int| 0 <= f < 10 implies #[trigger] stands_at(t, at + f) == stands_at(q, lo + f) by {
            lemma_stands_turned(q, at + f);
            assert(opposite(at + f) == lo + f);
        }
        lemma_ten_pieces(t, at);
        lemma_ten_pieces(q, lo);
        assert(stands_at(t, at + 0) == stands_at(q, lo + 0));
    } else {
        assert(pieces_from(t, 100) == 0);
    }
}

/// Law: the network has no colour: a position is worth to White what the same position
/// turned round, with the colours exchanged, is worth to Black.
pub proof fn the_evaluation_knows_no_colour(n: Network, b: Board, t: Board, r: i32, rt: i32)
    requires
        n.ok(),
        b.wf(),
        t.wf(),
        evaluable(b.q()),
        evaluable(t.q()),
        t.mailbox@ == turned_round(b.mailbox@),
        t.stm != b.stm,
        call_ensures(evaluate_scratch, (&n, &b), r),
        call_ensures(evaluate_scratch, (&n, &t), rt),
    ensures
        r == rt,
{
    let q = b.q();
    let us = b.stm;
    lemma_king_of(q, us);
    lemma_king_of(q, us.flip());
    lemma_pieces_from(q, 0);
    lemma_pieces_from(t.q(), 0);
    lemma_pieces_turned(q, 10);
    assert(pieces_from(q, 100) == 0);
    assert(bucket_of(t.q()) == bucket_of(q));
    let row = bucket_of(q) * 2816;
    lemma_sum_turned(n, q, us, king_of(q, us), row, 1408);
    lemma_sum_turned(n, q, us.flip(), king_of(q, us.flip()), row + 1408, 1408);
    assert(us.flip().flip() == us);
}

} // verus!
