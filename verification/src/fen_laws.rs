//! What a position text says: written down rank by rank, a position is read back.

use vstd::prelude::*;

use crate::attacks::Tables;
use crate::board::Board;
use crate::fen::{
    FenError, ascii_bytes, bare, digit_run, fen_position, fen_side, lemma_digit_run,
    piece_of_char, place,
};
use crate::position::{
    ep_real, has_kings, is_placement, kind_at, king_of, king_on, lemma_king_of, pawns_inside,
    piece_on,
};
use crate::rules::{
    ahead, check_is_a_struck_king, first_of, is_struck, rank_for, stands, stands_twice,
};
use crate::start::start_placement;
use crate::text::{all_digits, decimal, digits_value, is_digit, number, words};
use crate::text_laws::{
    a_number_is_its_digits, digit_char, file_char, lemma_decimal, letter_of, rank_chars,
};
use crate::types::{Color, Piece, PieceType, Square, square_text};

verus! {

/// How many squares of rank `r` are empty from file `f` on without a break.
pub open spec fn gap_at(q: Seq<Piece>, r: int, f: int) -> int
    decreases 10 - f,
{
    if f >= 10 || q[10 * r + f].0 != 16 {
        0
    } else {
        1 + gap_at(q, r, f + 1)
    }
}

/// A count of empty squares, from 1 to 10.
pub open spec fn gap_text(n: int) -> Seq<char> {
    if n == 10 {
        seq!['1', '0']
    } else {
        seq![digit_char(n)]
    }
}

pub proof fn lemma_gap(q: Seq<Piece>, r: int, f: int)
    ensures
        gap_at(q, r, f) >= 0,
        f <= 10 ==> f + gap_at(q, r, f) <= 10,
        f < 10 && q[10 * r + f].0 == 16 ==> gap_at(q, r, f) >= 1,
        forall|i: int| f <= i < f + gap_at(q, r, f) ==> #[trigger] q[10 * r + i].0 == 16,
        0 <= f && f + gap_at(q, r, f) < 10 ==> q[10 * r + f + gap_at(q, r, f)].0 != 16,
    decreases 10 - f,
{
    if f < 10 {
        lemma_gap(q, r, f + 1);
    }
}

/// Rank `r` from file `f` on: the letters of its pieces, with the counts of the empty squares
/// between them.
pub open spec fn rank_text(q: Seq<Piece>, r: int, f: int) -> Seq<char>
    decreases 10 - f,
{
    if f >= 10 {
        Seq::empty()
    } else if q[10 * r + f].0 < 16 {
        seq![letter_of(q[10 * r + f].0 as int)] + rank_text(q, r, f + 1)
    } else {
        proof {
            lemma_gap(q, r, f);
        }
        let n = gap_at(q, r, f);
        if n < 1 {
            Seq::empty()
        } else {
            gap_text(n) + rank_text(q, r, f + n)
        }
    }
}

/// The ranks from `r` down, with slashes between them.
pub open spec fn board_text(q: Seq<Piece>, r: int) -> Seq<char>
    decreases r,
{
    if r <= 0 {
        rank_text(q, r, 0)
    } else {
        rank_text(q, r, 0) + (seq!['/'] + board_text(q, r - 1))
    }
}

/// The placement as far as it is written before file `f` of rank `r`.
spec fn read_so_far(q: Seq<Piece>, r: int, f: int) -> Seq<Piece> {
    Seq::new(
        100,
        |i: int|
            if i / 10 > r || (i / 10 == r && i % 10 < f) {
                q[i]
            } else {
                Piece::none()
            },
    )
}

proof fn lemma_letter(p: Piece)
    requires
        p.valid(),
    ensures
        piece_of_char(letter_of(p.0 as int)) == Some(p),
        letter_of(p.0 as int) != '/',
        !is_digit(letter_of(p.0 as int)),
{
    let c = letter_of(p.0 as int);
    assert(p.letter() as u32 == c as u32);
    assert forall|x: Piece| #[trigger] x.valid() && x.letter() as u32 == c as u32 implies x == p by {
        assert(x.letter() as u32 == letter_of(x.0 as int) as u32);
        assert(x.0 == p.0);
    }
}

proof fn lemma_gap_text(n: int, tail: Seq<char>)
    requires
        1 <= n <= 10,
        tail.len() > 0 ==> !is_digit(tail[0]),
    ensures
        ({
            let s = gap_text(n) + tail;
            let k = digit_run(s);
            &&& s.len() > 0
            &&& is_digit(s[0])
            &&& s[0] != '/'
            &&& k == gap_text(n).len()
            &&& digits_value(s.take(k)) == n
            &&& s.skip(k) == tail
        }),
{
    let s = gap_text(n) + tail;
    lemma_digit_run(s);
    let g = gap_text(n);
    let k = g.len() as int;
    assert(all_digits(g) && digits_value(g) == n) by {
        if n == 10 {
            assert(g.drop_last() =~= seq!['1']);
            assert(g.drop_last().drop_last() =~= Seq::empty());
            assert(digits_value(Seq::<char>::empty()) == 0);
            assert(digits_value(g.drop_last()) == 1);
        } else {
            assert(g.drop_last() =~= Seq::empty());
            assert(digits_value(Seq::<char>::empty()) == 0);
        }
    }
    assert forall|i: int| 0 <= i < k implies is_digit(#[trigger] s[i]) by {
        assert(s[i] == g[i]);
    }
    if digit_run(s) < k {
        assert(is_digit(s[digit_run(s)]));
    }
    if digit_run(s) > k {
        assert(is_digit(s[k]));
        assert(s[k] == tail[0]);
    }
    assert(s.take(k) =~= g);
    assert(s.skip(k) =~= tail);
}

proof fn lemma_rank_text(q: Seq<Piece>, r: int, f: int, tail: Seq<char>)
    requires
        is_placement(q),
        0 <= r < 10,
        0 <= f <= 10,
        tail.len() > 0 ==> !is_digit(tail[0]),
    ensures
        place(rank_text(q, r, f) + tail, f, r, read_so_far(q, r, f)) == place(
            tail,
            10,
            r,
            read_so_far(q, r, 10),
        ),
    decreases 10 - f,
{
    if f == 10 {
        assert(rank_text(q, r, f) + tail =~= tail);
    } else if q[10 * r + f].0 < 16 {
        let p = q[10 * r + f];
        lemma_letter(p);
        lemma_rank_text(q, r, f + 1, tail);
        let s = rank_text(q, r, f) + tail;
        assert(s[0] == letter_of(p.0 as int));
        assert(s.drop_first() =~= rank_text(q, r, f + 1) + tail);
        assert(read_so_far(q, r, f).update(r * 10 + f, p) =~= read_so_far(q, r, f + 1));
    } else {
        lemma_gap(q, r, f);
        let n = gap_at(q, r, f);
        let more = rank_text(q, r, f + n) + tail;
        if f + n < 10 {
            lemma_letter(q[10 * r + f + n]);
            assert(more[0] == letter_of(q[10 * r + (f + n)].0 as int));
        } else {
            assert(more =~= tail);
        }
        lemma_gap_text(n, more);
        lemma_rank_text(q, r, f + n, tail);
        let s = rank_text(q, r, f) + tail;
        assert(s =~= gap_text(n) + more);
        assert(read_so_far(q, r, f) =~= read_so_far(q, r, f + n)) by {
            assert forall|i: int| 0 <= i < 100 implies #[trigger] read_so_far(q, r, f)[i] == read_so_far(
                q,
                r,
                f + n,
            )[i] by {
                if i / 10 == r && f <= i % 10 < f + n {
                    assert(q[10 * r + i % 10].0 == 16);
                    assert(i == 10 * r + i % 10);
                }
            }
        }
    }
}

proof fn lemma_board_text(q: Seq<Piece>, r: int)
    requires
        is_placement(q),
        0 <= r < 10,
    ensures
        place(board_text(q, r), 0, r, read_so_far(q, r, 0)) == Ok::<Seq<Piece>, FenError>(q),
    decreases r,
{
    if r == 0 {
        let none = Seq::<char>::empty();
        lemma_rank_text(q, 0, 0, none);
        assert(board_text(q, 0) =~= rank_text(q, 0, 0) + none);
        assert(read_so_far(q, 0, 10) =~= q);
    } else {
        let tail = seq!['/'] + board_text(q, r - 1);
        lemma_rank_text(q, r, 0, tail);
        lemma_board_text(q, r - 1);
        assert(tail.drop_first() =~= board_text(q, r - 1));
        assert(read_so_far(q, r, 10) =~= read_so_far(q, r - 1, 0));
    }
}

/// Law: every placement, written down from the tenth rank to the first, is read back from the
/// board field.
pub proof fn a_written_board_is_read_back(q: Seq<Piece>)
    requires
        is_placement(q),
    ensures
        place(board_text(q, 9), 0, 9, bare()) == Ok::<Seq<Piece>, FenError>(q),
{
    lemma_board_text(q, 9);
    assert(read_so_far(q, 9, 0) =~= bare());
}

/// The board field of the text writes `q`, and the second names the side to move.
pub open spec fn writes(w: Seq<Seq<char>>, q: Seq<Piece>, stm: Color) -> bool {
    &&& w.len() >= 2
    &&& w[0] == board_text(q, 9)
    &&& w[1] == seq![if stm == Color::White { 'w' } else { 'b' }]
}

/// Law: a position with one king each, no pawn on an end rank and the side not to move out of
/// check is read back from its text: the pieces, the side to move, the fifty-move count of the
/// fifth field, and from the full move number of the sixth the plies before it.
pub proof fn a_written_position_is_read_back(
    tables: Tables,
    text: &str,
    q: Seq<Piece>,
    stm: Color,
    half: nat,
    full: nat,
    kw: int,
    kb: int,
    r: Result<Board, String>,
)
    requires
        is_placement(q),
        writes(words(text@), q, stm),
        king_on(q, Color::White, kw),
        king_on(q, Color::Black, kb),
        pawns_inside(q),
        !is_struck(q, stm.flip()),
        call_ensures(Board::from_fen, (&tables, text), r),
    ensures
        r matches Ok(b) && {
            &&& b.mailbox@ == q
            &&& b.stm == stm
            &&& b.hist@ == seq![b.key]
            &&& words(text@).len() == 6 && words(text@)[4] == decimal(half) && half <= 65535
                ==> b.halfmove == half && b.plies_from_null == half
            &&& words(text@).len() == 6 && words(text@)[5] == decimal(full) && 1 <= full <= 32767
                ==> b.game_ply == 2 * (full - 1) + (if stm == Color::White { 0int } else { 1 })
            &&& words(text@).len() < 5 ==> b.halfmove == 0 && b.game_ply == (if stm
                == Color::White { 0int } else { 1 })
            &&& words(text@).len() < 4 || words(text@)[3] == seq!['-'] ==> b.ep.0 == 100
        },
{
    let w = words(text@);
    a_written_board_is_read_back(q);
    assert(has_kings(q));
    let k = if stm.flip() == Color::White { kw } else { kb };
    check_is_a_struck_king(q, stm.flip(), k);
    assert(w[1][0] == if stm == Color::White { 'w' } else { 'b' });
    assert(fen_side(w[1]) == stm);
    assert(fen_position(text@) is Ok);
    reveal_strlit("-");
    assert("-"@ =~= seq!['-']);
    if w.len() == 6 && w[4] == decimal(half) {
        lemma_decimal(half);
    }
    if w.len() == 6 && w[5] == decimal(full) {
        lemma_decimal(full);
    }
}

/// Law: the en passant field is kept where it names the square behind an enemy pawn that
/// can just have moved there in two steps, with an own pawn beside it, and else dropped.
pub proof fn a_written_en_passant_square_is_read_back(
    tables: Tables,
    text: &str,
    q: Seq<Piece>,
    stm: Color,
    s: Square,
    r: Result<Board, String>,
)
    requires
        is_placement(q),
        s.valid(),
        writes(words(text@), q, stm),
        words(text@).len() >= 4,
        words(text@)[3] == seq![file_char(s.0 as int % 10)] + rank_chars(s.0 as int / 10),
        call_ensures(Board::from_fen, (&tables, text), r),
        r is Ok,
    ensures
        ({
            let e = s.0 as int;
            let pawn = e - ahead(stm);
            let mine = first_of(stm);
            let foe = first_of(stm.flip());
            if rank_for(stm, e) == 7 && q[e].0 == 16 && q[e + ahead(stm)].0 == 16 && q[pawn].0 == foe
                && ((e % 10 > 0 && q[pawn - 1].0 == mine) || (e % 10 < 9 && q[pawn + 1].0 == mine)) {
                r->Ok_0.ep == s
            } else {
                r->Ok_0.ep.0 == 100
            }
        }),
{
    let w = words(text@);
    a_written_board_is_read_back(q);
    assert(w[1][0] == if stm == Color::White { 'w' } else { 'b' });
    assert(fen_side(w[1]) == stm);
    reveal_strlit("-");
    assert(w[3].len() >= 2);
    assert("-"@.len() == 1);
    lemma_square_bytes(s);
    let e = s.0 as int;
    let pawn = e - ahead(stm);
    reveal(crate::geometry::pawn_att);
    if rank_for(stm, e) == 7 {
        if e % 10 > 0 && q[pawn - 1].0 == first_of(stm) {
            assert(crate::geometry::pawn_att(stm.flip(), e, pawn - 1) && piece_on(
                q,
                pawn - 1,
                stm,
                PieceType::Pawn,
            ));
        }
        if e % 10 < 9 && q[pawn + 1].0 == first_of(stm) {
            assert(crate::geometry::pawn_att(stm.flip(), e, pawn + 1) && piece_on(
                q,
                pawn + 1,
                stm,
                PieceType::Pawn,
            ));
        }
    }
    if ep_real(q, stm, e) {
        let a = choose|a: int| #[trigger]
            crate::geometry::pawn_att(stm.flip(), e, a) && piece_on(q, a, stm, PieceType::Pawn);
        assert(a == pawn - 1 || a == pawn + 1);
    }
}

proof fn lemma_square_bytes(s: Square)
    requires
        s.valid(),
    ensures
        square_text(
            ascii_bytes(seq![file_char(s.0 as int % 10)] + rank_chars(s.0 as int / 10)),
        ) == Some(s),
{
    let t = seq![file_char(s.0 as int % 10)] + rank_chars(s.0 as int / 10);
    let b = ascii_bytes(t);
    assert(b[0] == 97 + s.0 % 10);
    if s.0 as int / 10 == 9 {
        assert(t[1] == '1' && t[2] == '0');
        assert(b[1] == 49 && b[2] == 48);
    } else {
        assert(t[1] == digit_char(s.0 as int / 10 + 1));
        assert(b[1] == 49 + s.0 / 10);
        assert(b.len() == 2);
    }
}

/// Law: what is no position is refused with its reason: too few fields, a side without exactly
/// one king, a pawn on an end rank, or the side not to move in check.
pub proof fn a_refused_position_has_a_reason(
    tables: Tables,
    text: &str,
    q: Seq<Piece>,
    stm: Color,
    i: int,
    r: Result<Board, String>,
)
    requires
        is_placement(q),
        0 <= i < 100,
        call_ensures(Board::from_fen, (&tables, text), r),
    ensures
        words(text@).len() < 2 ==> r is Err,
        writes(words(text@), q, stm) && (q[i].0 == 0 || q[i].0 == 8) && (i < 10 || i >= 90)
            ==> r is Err,
        writes(words(text@), q, stm) && (!stands(q, 7) || stands_twice(q, 7) || !stands(q, 15)
            || stands_twice(q, 15)) ==> r is Err,
        writes(words(text@), q, stm) && is_struck(q, stm.flip()) ==> r is Err,
{
    let w = words(text@);
    if writes(w, q, stm) {
        a_written_board_is_read_back(q);
        assert(w[1][0] == if stm == Color::White { 'w' } else { 'b' });
        assert(fen_side(w[1]) == stm);
        if has_kings(q) {
            lemma_king_of(q, Color::White);
            lemma_king_of(q, Color::Black);
            assert(q[king_of(q, Color::White)].0 == 7);
            assert(q[king_of(q, Color::Black)].0 == 15);
            assert forall|x: int| 0 <= x < 100 && #[trigger] q[x].0 == 7 implies x == king_of(
                q,
                Color::White,
            ) by {
                assert(piece_on(q, x, Color::White, PieceType::King));
            }
            assert forall|x: int| 0 <= x < 100 && #[trigger] q[x].0 == 15 implies x == king_of(
                q,
                Color::Black,
            ) by {
                assert(piece_on(q, x, Color::Black, PieceType::King));
            }
            check_is_a_struck_king(q, stm.flip(), king_of(q, stm.flip()));
        }
        if (q[i].0 == 0 || q[i].0 == 8) && (i < 10 || i >= 90) {
            assert(kind_at(q, i, PieceType::Pawn));
        }
    }
}

/// Law: the game starts with the rooks in White's corners, the other pieces on the second
/// rank between them and the pawns on the third, Black's facing them, and White to move.
pub proof fn how_a_game_starts(tables: Tables, b: Board, s: int)
    requires
        call_ensures(Board::startpos, (&tables,), b),
        0 <= s < 100,
    ensures
        b.stm == Color::White,
        b.ep.0 == 100,
        b.halfmove == 0,
        b.game_ply == 0,
        b.mailbox[0].0 == 3 && b.mailbox[9].0 == 3,
        b.mailbox[11].0 == 1 && b.mailbox[18].0 == 1,
        b.mailbox[12].0 == 2 && b.mailbox[17].0 == 2,
        b.mailbox[13].0 == 4 && b.mailbox[14].0 == 7,
        b.mailbox[15].0 == 5 && b.mailbox[16].0 == 6,
        20 <= s < 30 ==> b.mailbox[s].0 == 0,
        30 <= s < 70 || 1 <= s <= 8 || s == 10 || s == 19 ==> b.mailbox[s].0 == 16,
        s >= 70 ==> b.mailbox[s].0 == if b.mailbox[(9 - s / 10) * 10 + s % 10].0 == 16 {
            16
        } else {
            b.mailbox[(9 - s / 10) * 10 + s % 10].0 + 8
        },
{
    assert(b.mailbox@ == start_placement());
    let t = (9 - s / 10) * 10 + s % 10;
    assert(s >= 70 ==> 0 <= t < 30 && t / 10 == 9 - s / 10 && t % 10 == s % 10);
}

/// Law: the second field names Black to move where it starts with a `b`, and White with
/// anything else.
pub proof fn who_is_to_move(tables: Tables, text: &str, r: Result<Board, String>)
    requires
        call_ensures(Board::from_fen, (&tables, text), r),
        r is Ok,
    ensures
        words(text@).len() >= 2,
        words(text@)[1].len() > 0 && words(text@)[1][0] == 'b' ==> r->Ok_0.stm == Color::Black,
        words(text@)[1].len() == 0 || words(text@)[1][0] != 'b' ==> r->Ok_0.stm == Color::White,
{
}

/// Law: a count that is no number, or none at all, reads as 0, and a full move number of
/// 0 as 1.
pub proof fn counts_have_defaults(tables: Tables, text: &str, i: int, r: Result<Board, String>)
    requires
        call_ensures(Board::from_fen, (&tables, text), r),
        r is Ok,
    ensures
        words(text@).len() >= 5 && 0 <= i < words(text@)[4].len() && !is_digit(words(text@)[4][i]) && words(
            text@,
        )[4][i] != '+' ==> r->Ok_0.halfmove == 0,
        words(text@).len() == 6 && words(text@)[5] == seq!['0'] ==> r->Ok_0.game_ply == (if r->Ok_0.stm
            == Color::White { 0int } else { 1 }),
{
    let w = words(text@);
    if w.len() >= 5 && 0 <= i < w[4].len() && !is_digit(w[4][i]) && w[4][i] != '+' {
        if i > 0 {
            assert(w[4].drop_first()[i - 1] == w[4][i]);
        }
        assert(number(w[4], false) is None);
    }
    if w.len() == 6 && w[5] == seq!['0'] {
        a_number_is_its_digits(0, 0);
        lemma_decimal(0);
    }
}

/// Law: a slash too many or too few, a rank of the wrong width, a letter that is no piece
/// or an empty run of none is no board.
pub proof fn a_broken_board_is_refused(s: Seq<char>, file: int, rank: int, q: Seq<Piece>)
    requires
        0 <= file <= 10,
        0 <= rank <= 9,
        q.len() == 100,
    ensures
        s.len() == 0 && (rank > 0 || file < 10) ==> place(s, file, rank, q) == Err::<Seq<Piece>, FenError>(
            FenError::BoardSize,
        ),
        s.len() > 0 && s[0] == '/' && rank == 0 ==> place(s, file, rank, q) == Err::<Seq<Piece>, FenError>(
            FenError::TooManyRanks,
        ),
        s.len() > 0 && s[0] == '/' && rank > 0 && file < 10 ==> place(s, file, rank, q) == Err::<
            Seq<Piece>,
            FenError,
        >(FenError::RankWidth),
        s.len() > 0 && s[0] == '0' && (s.len() == 1 || !is_digit(s[1])) ==> place(s, file, rank, q) == Err::<
            Seq<Piece>,
            FenError,
        >(FenError::EmptyRun),
        s.len() > 0 && file == 10 && s[0] != '/' ==> place(s, file, rank, q) is Err,
        s.len() > 0 && s[0] != '/' && !is_digit(s[0]) && (forall|p: int|
            0 <= p < 16 ==> #[trigger] letter_of(p) as u32 != s[0] as u32) ==> place(s, file, rank, q) == Err::<
            Seq<Piece>,
            FenError,
        >(FenError::PieceLetter),
        forall|p: int|
            0 <= p < 16 && s.len() > 0 && file == 10 && s[0] == #[trigger] letter_of(p) ==> place(
                s,
                file,
                rank,
                q,
            ) == Err::<Seq<Piece>, FenError>(FenError::RankTooLong),
{
    if s.len() > 0 && is_digit(s[0]) {
        lemma_digit_run(s);
    }
    assert forall|x: Piece| #[trigger] x.valid() implies x.letter() as u32 == letter_of(
        x.0 as int,
    ) as u32 by {}
    assert forall|p: int| 0 <= p < 16 && s.len() > 0 && file == 10 && s[0] == #[trigger] letter_of(
        p,
    ) implies place(s, file, rank, q) == Err::<Seq<Piece>, FenError>(FenError::RankTooLong) by {
        lemma_letter(Piece(p as u8));
    }
    if s.len() > 0 && s[0] == '0' && (s.len() == 1 || !is_digit(s[1])) {
        assert(digit_run(s) == 1) by {
            if digit_run(s) > 1 {
                assert(is_digit(s[1]));
            }
        }
        let t = s.take(1);
        assert(t.drop_last() =~= Seq::empty());
        assert(digits_value(Seq::<char>::empty()) == 0);
        assert(t.last() == '0');
        assert(digits_value(t) == 0);
    }
}

/// Law: each reason is told in its own words.
pub proof fn reasons_are_told_in_words(e: FenError, r: String)
    requires
        call_ensures(FenError::message, (e,), r),
    ensures
        e == FenError::TooFewFields ==> r@ == "FEN needs at least a board and a side to move"@,
        e == FenError::TooManyRanks ==> r@ == "too many ranks"@,
        e == FenError::RankWidth ==> r@ == "rank is not ten squares wide"@,
        e == FenError::EmptyRun ==> r@ == "bad empty-square run"@,
        e == FenError::PieceLetter ==> r@ == "bad piece letter"@,
        e == FenError::RankTooLong ==> r@ == "rank too long"@,
        e == FenError::BoardSize ==> r@ == "board needs ten ranks of ten squares"@,
        e == FenError::Kings ==> r@ == "each side needs exactly one king"@,
        e == FenError::EndRankPawn ==> r@ == "pawn on the first or last rank"@,
        e == FenError::OpponentInCheck ==> r@ == "side not to move is in check"@,
{
}

/// Law: a board that is whole is refused with the first of these that is wrong: the
/// kings, a pawn on an end rank, the side not to move in check.
pub proof fn a_refusal_says_why(tables: Tables, text: &str, q: Seq<Piece>, stm: Color, i: int, kw: int, kb: int, r: Result<Board, String>)
    requires
        is_placement(q),
        0 <= i < 100,
        writes(words(text@), q, stm),
        call_ensures(Board::from_fen, (&tables, text), r),
    ensures
        !stands(q, 7) || stands_twice(q, 7) || !stands(q, 15) || stands_twice(q, 15) ==> r is Err
            && r->Err_0@ == "each side needs exactly one king"@,
        king_on(q, Color::White, kw) && king_on(q, Color::Black, kb) && (q[i].0 == 0 || q[i].0 == 8) && (i < 10
            || i >= 90) ==> r is Err && r->Err_0@ == "pawn on the first or last rank"@,
        king_on(q, Color::White, kw) && king_on(q, Color::Black, kb) && pawns_inside(q) && is_struck(
            q,
            stm.flip(),
        ) ==> r is Err && r->Err_0@ == "side not to move is in check"@,
{
    let w = words(text@);
    a_refused_position_has_a_reason(tables, text, q, stm, i, r);
    a_written_board_is_read_back(q);
    assert(w[1][0] == if stm == Color::White { 'w' } else { 'b' });
    assert(fen_side(w[1]) == stm);
    if !stands(q, 7) || stands_twice(q, 7) || !stands(q, 15) || stands_twice(q, 15) {
        if has_kings(q) {
            lemma_king_of(q, Color::White);
            lemma_king_of(q, Color::Black);
            assert(q[king_of(q, Color::White)].0 == 7);
            assert(q[king_of(q, Color::Black)].0 == 15);
            assert forall|x: int| 0 <= x < 100 && #[trigger] q[x].0 == 7 implies x == king_of(
                q,
                Color::White,
            ) by {
                assert(piece_on(q, x, Color::White, PieceType::King));
            }
            assert forall|x: int| 0 <= x < 100 && #[trigger] q[x].0 == 15 implies x == king_of(
                q,
                Color::Black,
            ) by {
                assert(piece_on(q, x, Color::Black, PieceType::King));
            }
        }
        assert(!has_kings(q));
    }
    if king_on(q, Color::White, kw) && king_on(q, Color::Black, kb) {
        assert(has_kings(q));
        let k = if stm.flip() == Color::White { kw } else { kb };
        check_is_a_struck_king(q, stm.flip(), k);
        if (q[i].0 == 0 || q[i].0 == 8) && (i < 10 || i >= 90) {
            assert(kind_at(q, i, PieceType::Pawn));
        }
    }
}

} // verus!
