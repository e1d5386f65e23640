//! Reading positions from their textual notation.

use vstd::prelude::*;
use crate::attacks::{Tables, pawn_attacks};
use crate::board::Board;
use crate::geometry::pawn_att;
use crate::position::{
    attacker, col_at, count_of, ep_part, ep_real, has_kings, in_check_at, kind_at, king_of,
    king_on, lemma_occ_of, lemma_piece, lemma_set_of, lemma_xor, occ_of, pawn_key_of,
    pawns_inside, piece_on, placement_key, position_key, set_of, side_part,
};
use crate::squareset::{SquareSet, group_bits, lemma_squares_members, squares};
use crate::text::{
    digits_value, is_digit, number_in, parse_unsigned, split_words, views, word_is, words,
};
use crate::types::{Color, Piece, PieceType, Square, square_text};
use crate::zobrist::side_key;

verus! {

broadcast use {group_bits, lemma_occ_of};

pub const STARTPOS: &'static str =
    "r8r/1nbqkcabn1/pppppppppp/10/10/10/10/PPPPPPPPPP/1NBQKCABN1/R8R w - - 0 1";

/// Why a text is no position.
#[derive(Clone, Copy, PartialEq, Eq, Structural, Debug)]
pub enum FenError {
    TooFewFields,
    TooManyRanks,
    RankWidth,
    EmptyRun,
    PieceLetter,
    RankTooLong,
    BoardSize,
    Kings,
    EndRankPawn,
    OpponentInCheck,
}

impl FenError {
    pub open spec fn text(self) -> Seq<char> {
        match self {
            FenError::TooFewFields => "FEN needs at least a board and a side to move"@,
            FenError::TooManyRanks => "too many ranks"@,
            FenError::RankWidth => "rank is not ten squares wide"@,
            FenError::EmptyRun => "bad empty-square run"@,
            FenError::PieceLetter => "bad piece letter"@,
            FenError::RankTooLong => "rank too long"@,
            FenError::BoardSize => "board needs ten ranks of ten squares"@,
            FenError::Kings => "each side needs exactly one king"@,
            FenError::EndRankPawn => "pawn on the first or last rank"@,
            FenError::OpponentInCheck => "side not to move is in check"@,
        }
    }

    pub fn message(self) -> (r: String)
        ensures
            r@ == self.text(),
    {
        match self {
            FenError::TooFewFields => "FEN needs at least a board and a side to move".to_string(),
            FenError::TooManyRanks => "too many ranks".to_string(),
            FenError::RankWidth => "rank is not ten squares wide".to_string(),
            FenError::EmptyRun => "bad empty-square run".to_string(),
            FenError::PieceLetter => "bad piece letter".to_string(),
            FenError::RankTooLong => "rank too long".to_string(),
            FenError::BoardSize => "board needs ten ranks of ten squares".to_string(),
            FenError::Kings => "each side needs exactly one king".to_string(),
            FenError::EndRankPawn => "pawn on the first or last rank".to_string(),
            FenError::OpponentInCheck => "side not to move is in check".to_string(),
        }
    }
}

/// What a position text says.
pub struct FenPosition {
    pub q: Seq<Piece>,
    pub stm: Color,
    pub ep: Square,
    pub halfmove: u16,
    pub game_ply: u16,
}

/// The piece that `c` writes.
pub open spec fn piece_of_char(c: char) -> Option<Piece> {
    if exists|p: Piece| #[trigger] p.valid() && p.letter() as u32 == c as u32 {
        Some(choose|p: Piece| #[trigger] p.valid() && p.letter() as u32 == c as u32)
    } else {
        None
    }
}

/// How many digits `s` starts with.
pub open spec fn digit_run(s: Seq<char>) -> int
    decreases s.len(),
{
    if s.len() == 0 || !is_digit(s[0]) {
        0
    } else {
        1 + digit_run(s.drop_first())
    }
}

pub proof fn lemma_digit_run(s: Seq<char>)
    ensures
        0 <= digit_run(s) <= s.len(),
        s.len() > 0 && is_digit(s[0]) ==> digit_run(s) >= 1,
        forall|k: int| 0 <= k < digit_run(s) ==> is_digit(#[trigger] s[k]),
        digit_run(s) < s.len() ==> !is_digit(s[digit_run(s)]),
    decreases s.len(),
{
    if s.len() > 0 && is_digit(s[0]) {
        let t = s.drop_first();
        lemma_digit_run(t);
        assert forall|k: int| 0 <= k < digit_run(s) implies is_digit(#[trigger] s[k]) by {
            if k > 0 {
                assert(s[k] == t[k - 1]);
            }
        }
        if digit_run(s) < s.len() {
            assert(s[digit_run(s)] == t[digit_run(t)]);
        }
    }
}

/// Reads the board field: ranks from the tenth down, separated by slashes, each a
/// row of piece letters and counts of empty squares. `file` and `rank` say where
/// the next square is, `q` what has been placed.
pub open spec fn place(s: Seq<char>, file: int, rank: int, q: Seq<Piece>) -> Result<
    Seq<Piece>,
    FenError,
>
    decreases s.len(),
{
    if s.len() == 0 {
        if rank != 0 || file != 10 {
            Err(FenError::BoardSize)
        } else {
            Ok(q)
        }
    } else if s[0] == '/' {
        if rank == 0 {
            Err(FenError::TooManyRanks)
        } else if file != 10 {
            Err(FenError::RankWidth)
        } else {
            place(s.drop_first(), 0, rank - 1, q)
        }
    } else if is_digit(s[0]) {
        proof {
            lemma_digit_run(s);
        }
        let n = digits_value(s.take(digit_run(s)));
        if n == 0 || file + n > 10 {
            Err(FenError::EmptyRun)
        } else {
            place(s.skip(digit_run(s)), file + n, rank, q)
        }
    } else {
        match piece_of_char(s[0]) {
            None => Err(FenError::PieceLetter),
            Some(p) => if file > 9 {
                Err(FenError::RankTooLong)
            } else {
                place(s.drop_first(), file + 1, rank, q.update(rank * 10 + file, p))
            },
        }
    }
}

/// The empty placement.
pub open spec fn bare() -> Seq<Piece> {
    Seq::new(100, |i: int| Piece::none())
}

/// The characters as bytes; anything outside ASCII becomes 255.
pub open spec fn ascii_bytes(s: Seq<char>) -> Seq<u8> {
    Seq::new(
        s.len(),
        |i: int|
            if (s[i] as u32) < 128 {
                (s[i] as u32) as u8
            } else {
                255u8
            },
    )
}

/// The side to move.
pub open spec fn fen_side(w: Seq<char>) -> Color {
    if w.len() > 0 && w[0] == 'b' {
        Color::Black
    } else {
        Color::White
    }
}

/// The en passant square, kept only where a capture is at hand.
pub open spec fn fen_ep(q: Seq<Piece>, stm: Color, w: Seq<Seq<char>>) -> Square {
    if w.len() > 3 && w[3] != "-"@ {
        match square_text(ascii_bytes(w[3])) {
            Some(s) => if ep_real(q, stm, s.0 as int) {
                s
            } else {
                Square::none()
            },
            None => Square::none(),
        }
    } else {
        Square::none()
    }
}

/// The number in field `i`, or `default` where there is none.
pub open spec fn fen_number(w: Seq<Seq<char>>, i: int, default: int) -> int {
    if w.len() > i {
        match number_in(w[i], false, 0, 65535) {
            Some(n) => n,
            None => default,
        }
    } else {
        default
    }
}

/// Plies played before full move `n`, modulo 2 to the 16th.
pub open spec fn fen_ply(n: int, stm: Color) -> u16 {
    let full = if n < 1 {
        1
    } else {
        n
    };
    (((full - 1) * 2 + if stm == Color::Black {
        1int
    } else {
        0
    }) % 65536) as u16
}

/// What a text says, or what is wrong with it.
pub open spec fn fen_position(text: Seq<char>) -> Result<FenPosition, FenError> {
    let w = words(text);
    if w.len() < 2 {
        Err(FenError::TooFewFields)
    } else {
        match place(w[0], 0, 9, bare()) {
            Err(e) => Err(e),
            Ok(q) => {
                let stm = fen_side(w[1]);
                if !has_kings(q) {
                    Err(FenError::Kings)
                } else if !pawns_inside(q) {
                    Err(FenError::EndRankPawn)
                } else if in_check_at(q, stm.flip()) {
                    Err(FenError::OpponentInCheck)
                } else {
                    Ok(
                        FenPosition {
                            q,
                            stm,
                            ep: fen_ep(q, stm, w),
                            halfmove: fen_number(w, 4, 0) as u16,
                            game_ply: fen_ply(fen_number(w, 5, 1), stm),
                        },
                    )
                }
            },
        }
    }
}

/// The piece that a character writes.
fn piece_from_char(c: char) -> (r: Option<Piece>)
    ensures
        r == piece_of_char(c),
        r matches Some(p) ==> p.valid(),
{
    let n = c as u32;
    if n >= 128 {
        assert forall|p: Piece| #[trigger] p.valid() implies p.letter() as u32 != c as u32 by {
            assert(p.letter() < 128);
        }
        return None;
    }
    let r = Piece::from_char(n as u8);
    proof {
        match r {
            Some(p) => {
                assert(p.valid() && p.letter() as u32 == c as u32);
                let p2 = choose|p: Piece| #[trigger] p.valid() && p.letter() as u32 == c as u32;
                assert(p2.letter() == p.letter());
                assert(p2 == p) by {
                    lemma_piece(p);
                    lemma_piece(p2);
                }
            },
            None => {
                assert forall|p: Piece| #[trigger] p.valid() implies p.letter() as u32
                    != c as u32 by {}
            },
        }
    }
    r
}

/// The characters of a word as bytes.
pub fn word_bytes(w: &Vec<char>) -> (r: Vec<u8>)
    ensures
        r@ == ascii_bytes(w@),
{
    let mut out: Vec<u8> = Vec::new();
    let mut i: usize = 0;
    while i < w.len()
        invariant
            i <= w.len(),
            out@ == ascii_bytes(w@).take(i as int),
        decreases w.len() - i,
    {
        let n = w[i] as u32;
        out.push(
            if n < 128 {
                n as u8
            } else {
                255
            },
        );
        i = i + 1;
        assert(ascii_bytes(w@).take(i as int) =~= ascii_bytes(w@).take(i - 1).push(
            ascii_bytes(w@)[i - 1],
        ));
    }
    assert(ascii_bytes(w@).take(i as int) =~= ascii_bytes(w@));
    out
}

/// Reads field `i` as a number, or takes the default.
fn field_number(words: &Vec<Vec<char>>, i: usize, default: u16) -> (r: u16)
    ensures
        r == fen_number(views(words@), i as int, default as int),
{
    if words.len() > i {
        match parse_unsigned(&words[i], 65535) {
            Some(n) => n as u16,
            None => default,
        }
    } else {
        default
    }
}

/// One king is one member of the set of kings.
proof fn lemma_one_king(q: Seq<Piece>, c: Color)
    ensures
        count_of(q, Piece::of(c, PieceType::King)) == 1 <==> exists|k: int| #[trigger]
            king_on(q, c, k),
{
    let x = set_of(q, Piece::of(c, PieceType::King));
    let s = squares(x);
    lemma_squares_members(x);
    assert forall|i: int| #[trigger] piece_on(q, i, c, PieceType::King) <==> s.contains(i) by {
        lemma_set_of(q, Piece::of(c, PieceType::King), i);
    }
    if s.len() == 1 {
        assert(s.contains(s[0]));
        assert(king_on(q, c, s[0])) by {
            assert forall|j: int| #[trigger] piece_on(q, j, c, PieceType::King) implies j
                == s[0] by {
                assert(s.contains(j));
            }
        }
    }
    if exists|k: int| #[trigger] king_on(q, c, k) {
        let k = choose|k: int| #[trigger] king_on(q, c, k);
        assert(s.contains(k));
        if s.len() > 1 {
            assert(s.contains(s[0]) && s.contains(s[1]));
            assert(piece_on(q, s[0], c, PieceType::King) && piece_on(q, s[1], c, PieceType::King));
            assert(s[0] != s[1]);
        }
    }
}

impl Board {
    /// Fills an empty board from the board field.
    fn place_pieces(&mut self, t: &Tables, field: &Vec<char>) -> (r: Result<(), FenError>)
        requires
            old(self).placed(),
            old(self).q() == bare(),
        ensures
            r matches Err(e) ==> place(field@, 0, 9, bare()) == Err::<Seq<Piece>, FenError>(e),
            r is Ok ==> {
                &&& place(field@, 0, 9, bare()) == Ok::<Seq<Piece>, FenError>(final(self).q())
                &&& final(self).placed()
                &&& final(self).key_rest() == old(self).key_rest()
                &&& final(self).pawn_key_rest() == old(self).pawn_key_rest()
                &&& final(self).same_rest(old(self))
            },
    {
        let ghost start = *self;
        let mut file: u8 = 0;
        let mut rank: u8 = 9;
        let mut i: usize = 0;
        assert(field@.skip(0) =~= field@);
        while i < field.len()
            invariant
                i <= field.len(),
                file <= 10,
                rank <= 9,
                self.placed(),
                self.key_rest() == start.key_rest(),
                self.pawn_key_rest() == start.pawn_key_rest(),
                self.same_rest(&start),
                place(field@, 0, 9, bare()) == place(
                    field@.skip(i as int),
                    file as int,
                    rank as int,
                    self.q(),
                ),
                forall|j: int|
                    #![trigger self.q()[j]]
                    0 <= j < 100 && (j < rank * 10 || (j / 10 == rank && j % 10 >= file))
                        ==> self.q()[j] == Piece::none(),
            decreases field.len() - i,
        {
            let ghost rest = field@.skip(i as int);
            let ch = field[i];
            assert(rest[0] == ch);
            if ch == '/' {
                if rank == 0 {
                    return Err(FenError::TooManyRanks);
                }
                if file != 10 {
                    return Err(FenError::RankWidth);
                }
                rank = rank - 1;
                file = 0;
                assert(rest.drop_first() =~= field@.skip(i + 1));
                i = i + 1;
            } else if ch as u32 >= 48 && ch as u32 <= 57 {
                let mut n: u32 = 0;
                let ghost from = i;
                proof {
                    lemma_digit_run(rest);
                    assert(digits_value(rest.take(0)) == 0);
                }
                while i < field.len() && field[i] as u32 >= 48 && field[i] as u32 <= 57
                    invariant
                        from <= i <= field.len(),
                        rest == field@.skip(from as int),
                        n <= 100,
                        i - from <= digit_run(rest) <= rest.len(),
                        forall|k: int| 0 <= k < digit_run(rest) ==> is_digit(#[trigger] rest[k]),
                        digit_run(rest) < rest.len() ==> !is_digit(rest[digit_run(rest)]),
                        n < 100 ==> n == digits_value(rest.take(i - from)),
                        n == 100 ==> digits_value(rest.take(i - from)) >= 100,
                    decreases field.len() - i,
                {
                    let ghost pre = rest.take(i - from);
                    let d = field[i] as u32 - 48;
                    proof {
                        assert(rest[i - from] == field@[i as int]);
                        assert(rest.take(i - from + 1).drop_last() =~= pre);
                        assert(rest.take(i - from + 1).last() == field@[i as int]);
                    }
                    n = n * 10 + d;
                    if n > 100 {
                        n = 100;
                    }
                    i = i + 1;
                }
                proof {
                    if i < field.len() {
                        assert(rest[i - from] == field@[i as int]);
                    }
                    assert(i - from == digit_run(rest));
                    assert(rest.skip(i - from) =~= field@.skip(i as int));
                }
                if n == 0 || file as u32 + n > 10 {
                    return Err(FenError::EmptyRun);
                }
                file = file + n as u8;
            } else {
                match piece_from_char(ch) {
                    None => {
                        return Err(FenError::PieceLetter);
                    },
                    Some(p) => {
                        if file > 9 {
                            return Err(FenError::RankTooLong);
                        }
                        let sq = Square::from_file_rank(file, rank);
                        let ghost before = self.q();
                        assert(before[sq.0 as int] == Piece::none());
                        self.put(t, p, sq);
                        file = file + 1;
                        assert(rest.drop_first() =~= field@.skip(i + 1));
                        i = i + 1;
                        assert forall|j: int|
                            #![trigger self.q()[j]]
                            0 <= j < 100 && (j < rank * 10 || (j / 10 == rank && j % 10
                                >= file)) implies self.q()[j] == Piece::none() by {
                            assert(before[j] == Piece::none());
                        }
                    },
                }
            }
        }
        assert(field@.skip(i as int).len() == 0);
        if rank != 0 || file != 10 {
            return Err(FenError::BoardSize);
        }
        Ok(())
    }

    /// Reads a position.
    #[verifier::spinoff_prover]
    #[verifier::rlimit(40)]
    pub fn from_fen(t: &Tables, fen: &str) -> (r: Result<Board, String>)
        ensures
            r matches Err(e) ==> fen_position(fen@) is Err && e@ == fen_position(fen@)->Err_0.text(),
            r matches Ok(b) ==> {
                &&& fen_position(fen@) is Ok
                &&& b.wf()
                &&& b.check_square_info()
                &&& b.q() == fen_position(fen@)->Ok_0.q
                &&& b.stm == fen_position(fen@)->Ok_0.stm
                &&& b.ep == fen_position(fen@)->Ok_0.ep
                &&& b.halfmove == fen_position(fen@)->Ok_0.halfmove
                &&& b.plies_from_null == b.halfmove
                &&& b.game_ply == fen_position(fen@)->Ok_0.game_ply
                &&& b.hist@ == seq![b.key]
            },
    {
        let mut b = Board::empty();
        let parts = split_words(fen);
        let ghost w = words(fen@);
        assert(views(parts@).len() == parts.len());
        if parts.len() < 2 {
            return Err(FenError::TooFewFields.message());
        }
        assert(w[0] == parts@[0]@);
        assert(w[1] == parts@[1]@);
        assert(b.q() =~= bare());
        proof {
            lemma_xor(placement_key(b.q()), 0, 0);
            lemma_xor(0, 0, 0);
        }
        match b.place_pieces(t, &parts[0]) {
            Err(e) => {
                return Err(e.message());
            },
            Ok(()) => {},
        }
        let ghost q = b.q();
        proof {
            lemma_xor_zero(b.key, placement_key(q), b.pawn_key, pawn_key_of(q));
        }
        let black = parts[1].len() > 0 && parts[1][0] == 'b';
        b.stm = if black {
            Color::Black
        } else {
            Color::White
        };
        proof {
            lemma_xor(placement_key(q), side_key(), 0);
            lemma_xor(placement_key(q), 0, side_part(b.stm));
        }
        if black {
            b.key = b.key ^ t.zobrist().side();
        }
        assert(b.key == position_key(q, Square::none(), b.stm));
        // Field 3 is castling availability, always "-". Whatever is there is
        // ignored.
        if parts.len() > 3 && !word_is(&parts[3], "-") {
            let bytes = word_bytes(&parts[3]);
            match Square::parse(bytes.as_slice()) {
                Some(ep) => {
                    if b.ep_target_is_real(t, ep) {
                        b.ep = ep;
                        proof {
                            lemma_xor(placement_key(q), side_part(b.stm), ep_part(ep));
                            lemma_xor(placement_key(q), 0, 0);
                        }
                        b.key = b.key ^ t.zobrist().ep(ep);
                    }
                },
                None => {},
            }
        }
        assert(b.ep == fen_ep(q, b.stm, w));
        assert(b.keyed());
        b.halfmove = field_number(&parts, 4, 0);
        let fullmove = field_number(&parts, 5, 1);
        let full: u32 = if fullmove < 1 {
            1
        } else {
            fullmove as u32
        };
        let plies: u32 = (full - 1) * 2 + if black {
            1
        } else {
            0
        };
        b.game_ply = (plies % 65536) as u16;
        b.plies_from_null = b.halfmove;
        proof {
            lemma_one_king(q, Color::White);
            lemma_one_king(q, Color::Black);
        }
        if b.colored(Color::White, PieceType::King).count() != 1 || b.colored(
            Color::Black,
            PieceType::King,
        ).count() != 1 {
            return Err(FenError::Kings.message());
        }
        // A pawn can never stand on the first or last rank: promotion on the
        // last rank is mandatory and no pawn ever moves backwards.
        let stray = b.pieces(PieceType::Pawn) & (SquareSet::rank(0) | SquareSet::rank(9));
        if stray.any() {
            proof {
                let i = choose|i: int| #[trigger] stray.contains(i);
                assert(kind_at(q, i, PieceType::Pawn));
            }
            return Err(FenError::EndRankPawn.message());
        }
        assert(pawns_inside(q)) by {
            assert forall|i: int| #[trigger] kind_at(q, i, PieceType::Pawn) implies 10 <= i
                < 90 by {
                assert(!stray.contains(i));
            }
        }
        b.update_check_info(t);
        b.update_check_squares(t);
        // The side not to move may not be in check.
        let them = b.stm.flip();
        let checks = b.attackers_to(t, b.king_sq(them), b.occupied()) & b.colors(b.stm);
        if checks.any() {
            proof {
                let a = choose|a: int| #[trigger] checks.contains(a);
                assert(attacker(q, occ_of(q), king_of(q, them), a) && col_at(q, a, them.flip()));
            }
            return Err(FenError::OpponentInCheck.message());
        }
        assert(!in_check_at(q, them)) by {
            if in_check_at(q, them) {
                let a = choose|a: int| #[trigger]
                    attacker(q, occ_of(q), king_of(q, them), a) && col_at(q, a, them.flip());
                assert(checks.contains(a));
            }
        }
        b.hist.push(b.key);
        Ok(b)
    }

    /// Validation of a supplied en passant target.
    fn ep_target_is_real(&self, t: &Tables, ep: Square) -> (r: bool)
        requires
            self.placed(),
            ep.valid(),
        ensures
            r == ep_real(self.q(), self.stm, ep.0 as int),
    {
        let us = self.stm;
        if ep.relative_rank(us) != 6 {
            return false;
        }
        if !self.piece_at(ep).is_none() {
            return false;
        }
        let land = Square(
            if us == Color::White {
                ep.0 - 10
            } else {
                ep.0 + 10
            },
        );
        if self.piece_at(land) != Piece::new(us.flip(), PieceType::Pawn) {
            return false;
        }
        let orig = Square(
            if us == Color::White {
                ep.0 + 10
            } else {
                ep.0 - 10
            },
        );
        if !self.piece_at(orig).is_none() {
            return false;
        }
        let ready = pawn_attacks(t, us.flip(), ep) & self.colored(us, PieceType::Pawn);
        let r = ready.any();
        proof {
            let e = ep.0 as int;
            if r {
                let a = choose|a: int| #[trigger] ready.contains(a);
                assert(pawn_att(us.flip(), e, a) && piece_on(self.q(), a, us, PieceType::Pawn));
            } else {
                assert forall|a: int| #[trigger] pawn_att(us.flip(), e, a) implies !piece_on(
                    self.q(),
                    a,
                    us,
                    PieceType::Pawn,
                ) by {
                    assert(!ready.contains(a));
                }
            }
        }
        r
    }
}

proof fn lemma_xor_zero(a: u64, b: u64, c: u64, d: u64)
    ensures
        a ^ b == 0 ==> a == b,
        c ^ d == 0 ==> c == d,
{
    assert((a ^ b == 0 ==> a == b) && (c ^ d == 0 ==> c == d)) by (bit_vector);
}

} // verus!
