//! Basic newtypes: colours, piece types, pieces, squares and moves.

use vstd::prelude::*;

verus! {

/// Hard ceiling on search depth / ply indices.
pub const MAX_PLY: usize = 246;

/// The deepest search that can be asked for: a margin that grows with the square of
/// the depth would not fit beyond.
pub const DEEPEST: i32 = 8_077;

#[derive(Clone, Copy, PartialEq, Eq, Structural, Debug, Hash)]
pub enum Color {
    White,
    Black,
}

impl Color {
    /// The other side.
    #[verifier::allow_in_spec]
    pub fn flip(self) -> Color
        returns
            (match self {
                Color::White => Color::Black,
                Color::Black => Color::White,
            }),
    {
        match self {
            Color::White => Color::Black,
            Color::Black => Color::White,
        }
    }

    /// 0 for White, 1 for Black.
    #[verifier::allow_in_spec]
    pub fn idx(self) -> usize
        returns
            (match self {
                Color::White => 0usize,
                Color::Black => 1usize,
            }),
    {
        match self {
            Color::White => 0,
            Color::Black => 1,
        }
    }

    /// The inverse of `idx`; every index but 0 reads as Black.
    #[verifier::allow_in_spec]
    pub fn from_idx(i: usize) -> Color
        returns
            (if i == 0 {
                Color::White
            } else {
                Color::Black
            }),
    {
        if i == 0 {
            Color::White
        } else {
            Color::Black
        }
    }
}

/// The eight Grand Chess piece types.
///
/// Marshal is rook+knight and Cardinal is bishop+knight. Diagonal sliders are
/// bishop, queen and cardinal; straight sliders are rook, queen and marshal.
#[derive(Clone, Copy, PartialEq, Eq, Structural, Debug)]
pub enum PieceType {
    Pawn,
    Knight,
    Bishop,
    Rook,
    Queen,
    Marshal,
    Cardinal,
    King,
}

/// The six types a pawn may become, in roughly descending value order.
pub const PROMO_TYPES: [PieceType; 6] = [
    PieceType::Queen,
    PieceType::Marshal,
    PieceType::Cardinal,
    PieceType::Rook,
    PieceType::Bishop,
    PieceType::Knight,
];

impl PieceType {
    #[verifier::allow_in_spec]
    pub fn idx(self) -> usize
        returns
            (match self {
                PieceType::Pawn => 0usize,
                PieceType::Knight => 1usize,
                PieceType::Bishop => 2usize,
                PieceType::Rook => 3usize,
                PieceType::Queen => 4usize,
                PieceType::Marshal => 5usize,
                PieceType::Cardinal => 6usize,
                PieceType::King => 7usize,
            }),
    {
        match self {
            PieceType::Pawn => 0,
            PieceType::Knight => 1,
            PieceType::Bishop => 2,
            PieceType::Rook => 3,
            PieceType::Queen => 4,
            PieceType::Marshal => 5,
            PieceType::Cardinal => 6,
            PieceType::King => 7,
        }
    }

    /// The type numbered `i`; `King` beyond the end of the numbering.
    pub open spec fn numbered(i: int) -> PieceType {
        if i == 0 {
            PieceType::Pawn
        } else if i == 1 {
            PieceType::Knight
        } else if i == 2 {
            PieceType::Bishop
        } else if i == 3 {
            PieceType::Rook
        } else if i == 4 {
            PieceType::Queen
        } else if i == 5 {
            PieceType::Marshal
        } else if i == 6 {
            PieceType::Cardinal
        } else {
            PieceType::King
        }
    }

    /// The inverse of `idx`.
    pub fn from_idx(i: usize) -> (r: PieceType)
        requires
            i < 8,
        ensures
            r == PieceType::numbered(i as int),
            r.idx() == i,
    {
        match i {
            0 => PieceType::Pawn,
            1 => PieceType::Knight,
            2 => PieceType::Bishop,
            3 => PieceType::Rook,
            4 => PieceType::Queen,
            5 => PieceType::Marshal,
            6 => PieceType::Cardinal,
            _ => PieceType::King,
        }
    }

    /// The serialized letter, lowercase.
    ///
    /// Two of these cross the traditional names: the Marshal is written `c`
    /// (chancellor) and the Cardinal `a` (archbishop), and the traditional `m`
    /// appears nowhere in any serialized form.
    #[verifier::allow_in_spec]
    pub fn to_char(self) -> u8
        returns
            (match self {
                PieceType::Pawn => 112u8,
                PieceType::Knight => 110u8,
                PieceType::Bishop => 98u8,
                PieceType::Rook => 114u8,
                PieceType::Queen => 113u8,
                PieceType::Marshal => 99u8,
                PieceType::Cardinal => 97u8,
                PieceType::King => 107u8,
            }),
    {
        match self {
            PieceType::Pawn => 112u8,
            PieceType::Knight => 110u8,
            PieceType::Bishop => 98u8,
            PieceType::Rook => 114u8,
            PieceType::Queen => 113u8,
            PieceType::Marshal => 99u8,
            PieceType::Cardinal => 97u8,
            PieceType::King => 107u8,
        }
    }

    /// The inverse of `to_char`, case-insensitive: the type whose letter is
    /// `c`, or `c` lowered; `None` exactly when there is no such type.
    pub fn from_char(c: u8) -> (r: Option<PieceType>)
        ensures
            r matches Some(pt) ==> pt.to_char() == ascii_lower(c),
            r is None ==> forall|pt: PieceType| pt.to_char() != ascii_lower(c),
    {
        match lower_byte(c) {
            112u8 => Some(PieceType::Pawn),
            110u8 => Some(PieceType::Knight),
            98u8 => Some(PieceType::Bishop),
            114u8 => Some(PieceType::Rook),
            113u8 => Some(PieceType::Queen),
            99u8 => Some(PieceType::Marshal),
            97u8 => Some(PieceType::Cardinal),
            107u8 => Some(PieceType::King),
            _ => None,
        }
    }
}

/// The ASCII lowercase of a byte; every byte that is no uppercase letter is
/// left alone.
pub open spec fn ascii_lower(c: u8) -> u8 {
    if 65 <= c <= 90 {
        (c + 32) as u8
    } else {
        c
    }
}

pub fn lower_byte(c: u8) -> (r: u8)
    ensures
        r == ascii_lower(c),
{
    if 65 <= c && c <= 90 {
        c + 32
    } else {
        c
    }
}

/// How many of each type a side may have on the board at once.
///
/// A pawn may promote only to a type its side is currently missing relative to
/// these maxima. Pawn and King sit at 0, so neither can ever be promoted to.
#[verifier::allow_in_spec]
pub fn promo_max(pt: PieceType) -> u32
    returns
        (match pt {
            PieceType::Pawn => 0u32,
            PieceType::Knight => 2u32,
            PieceType::Bishop => 2u32,
            PieceType::Rook => 2u32,
            PieceType::Queen => 1u32,
            PieceType::Marshal => 1u32,
            PieceType::Cardinal => 1u32,
            PieceType::King => 0u32,
        }),
{
    match pt {
        PieceType::Pawn => 0,
        PieceType::Knight => 2,
        PieceType::Bishop => 2,
        PieceType::Rook => 2,
        PieceType::Queen => 1,
        PieceType::Marshal => 1,
        PieceType::Cardinal => 1,
        PieceType::King => 0,
    }
}

/// A coloured piece, encoded as `8 * color + piece_type`; `Piece::none()` is 16.
#[derive(Clone, Copy, PartialEq, Eq, Structural, Debug)]
pub struct Piece(pub u8);

impl Default for Piece {
    fn default() -> (r: Piece)
        ensures
            r == Piece::none(),
    {
        Piece::none()
    }
}

impl Piece {
    /// No piece.
    #[verifier::allow_in_spec]
    pub fn none() -> Piece
        returns
            Piece(16u8),
    {
        Piece(16u8)
    }

    /// A real piece, as opposed to `NONE` or a byte that encodes nothing.
    pub open spec fn valid(self) -> bool {
        self.0 < 16
    }

    pub open spec fn is(self, c: Color, pt: PieceType) -> bool {
        self == Piece::of(c, pt)
    }

    pub open spec fn of(c: Color, pt: PieceType) -> Piece {
        Piece((c.idx() * 8 + pt.idx()) as u8)
    }

    /// The colour of a real piece.
    pub open spec fn col(self) -> Color {
        if self.0 < 8 {
            Color::White
        } else {
            Color::Black
        }
    }

    /// The type of a real piece.
    pub open spec fn kind(self) -> PieceType {
        PieceType::numbered(self.0 as int % 8)
    }

    pub fn new(c: Color, pt: PieceType) -> (r: Piece)
        ensures
            r == Piece::of(c, pt),
            r.valid(),
            r.col() == c,
            r.kind() == pt,
    {
        Piece((c.idx() * 8 + pt.idx()) as u8)
    }

    pub fn color(self) -> (r: Color)
        requires
            self.valid(),
        ensures
            r == self.col(),
    {
        Color::from_idx((self.0 / 8) as usize)
    }

    pub fn piece_type(self) -> (r: PieceType)
        requires
            self.valid(),
        ensures
            r == self.kind(),
    {
        PieceType::from_idx((self.0 % 8) as usize)
    }

    #[verifier::allow_in_spec]
    pub fn is_none(self) -> bool
        returns
            self == Piece::none(),
    {
        self.0 == 16
    }

    #[verifier::allow_in_spec]
    pub fn idx(self) -> usize
        returns
            self.0 as usize,
    {
        self.0 as usize
    }

    /// The letter of a piece, uppercase for White, and `.` for `NONE`.
    pub fn to_char(self) -> (r: u8)
        requires
            self.valid() || self == Piece::none(),
        ensures
            r == self.letter(),
    {
        if self.is_none() {
            return 46u8;
        }
        let c = self.piece_type().to_char();
        if self.color() == Color::White {
            c - 32
        } else {
            c
        }
    }

    pub open spec fn letter(self) -> u8 {
        if self == Piece::none() {
            46u8
        } else if self.col() == Color::White {
            (self.kind().to_char() - 32) as u8
        } else {
            self.kind().to_char()
        }
    }

    /// The piece written `c`: uppercase is White, anything else Black. `None`
    /// exactly when `c` is no piece letter.
    pub fn from_char(c: u8) -> (r: Option<Piece>)
        ensures
            r matches Some(p) ==> p.valid() && p.letter() == c,
            r is None ==> forall|p: Piece| p.valid() ==> p.letter() != c,
    {
        let color = if 65 <= c && c <= 90 {
            Color::White
        } else {
            Color::Black
        };
        match PieceType::from_char(c) {
            Some(pt) => Some(Piece::new(color, pt)),
            None => {
                assert forall|p: Piece| p.valid() implies p.letter() != c by {
                    let k = p.kind();
                    assert(k.to_char() != ascii_lower(c));
                }
                None
            },
        }
    }
}

/// A board square in rank-major, a1 = 0 numbering.
#[derive(Clone, Copy, PartialEq, Eq, Structural, Debug, Hash, Default)]
pub struct Square(pub u8);

impl Square {
    /// No square.
    #[verifier::allow_in_spec]
    pub fn none() -> Square
        returns
            Square(100u8),
    {
        Square(100u8)
    }

    pub open spec fn valid(self) -> bool {
        self.0 < 100
    }

    /// `file` and `rank` are both 0-based; rank 0 is rank 1.
    pub fn from_file_rank(file: u8, rank: u8) -> (r: Square)
        requires
            file < 10,
            rank < 10,
        ensures
            r.0 == rank * 10 + file,
            r.valid(),
            r.file() == file,
            r.rank() == rank,
    {
        Square(rank * 10 + file)
    }

    #[verifier::allow_in_spec]
    pub fn file(self) -> u8
        returns
            (self.0 % 10) as u8,
    {
        self.0 % 10
    }

    #[verifier::allow_in_spec]
    pub fn rank(self) -> u8
        returns
            (self.0 / 10) as u8,
    {
        self.0 / 10
    }

    #[verifier::allow_in_spec]
    pub fn idx(self) -> usize
        returns
            self.0 as usize,
    {
        self.0 as usize
    }

    /// Rank as seen by `c` (0 = that side's first rank).
    pub fn relative_rank(self, c: Color) -> (r: u8)
        requires
            self.valid(),
        ensures
            r == rel_rank(c, self.0 as int),
            r < 10,
    {
        match c {
            Color::White => self.rank(),
            Color::Black => 9 - self.rank(),
        }
    }
}

/// The rank of square number `s` counted from `c`'s own side.
pub open spec fn rel_rank(c: Color, s: int) -> int {
    match c {
        Color::White => s / 10,
        Color::Black => 9 - s / 10,
    }
}

/// The square written at the start of `s` and how many bytes it takes: a file
/// letter `a` to `j`, then `10` or a digit 1 to 9.
pub open spec fn square_prefix(s: Seq<u8>) -> Option<(Square, usize)> {
    if s.len() < 2 || s[0] < 97 || s[0] > 106 {
        None
    } else if s[1] == 49 && s.len() > 2 && s[2] == 48 {
        Some((Square((90 + s[0] - 97) as u8), 3usize))
    } else if 49 <= s[1] <= 57 {
        Some((Square(((s[1] - 49) * 10 + s[0] - 97) as u8), 2usize))
    } else {
        None
    }
}

/// The square that `s` as a whole writes.
pub open spec fn square_text(s: Seq<u8>) -> Option<Square> {
    match square_prefix(s) {
        Some((sq, n)) => if n == s.len() {
            Some(sq)
        } else {
            None
        },
        None => None,
    }
}

impl Square {
    /// Parses a square at the start of `s`, returning it and the bytes consumed.
    ///
    /// Ranks may be two digits, so squares are not fixed width and the caller
    /// cannot slice at a known offset.
    pub fn parse_prefix(s: &[u8]) -> (r: Option<(Square, usize)>)
        ensures
            r == square_prefix(s@),
            r matches Some((sq, n)) ==> sq.valid() && n <= s@.len(),
    {
        if s.len() < 2 {
            return None;
        }
        if s[0] < 97 || s[0] > 106 {
            return None;
        }
        let file: u8 = s[0] - 97;
        if s[1] == 49 && s.len() > 2 && s[2] == 48 {
            Some((Square::from_file_rank(file, 9), 3))
        } else if 49 <= s[1] && s[1] <= 57 {
            Some((Square::from_file_rank(file, s[1] - 49), 2))
        } else {
            None
        }
    }

    /// Parses a square that must consume all of `s`.
    pub fn parse(s: &[u8]) -> (r: Option<Square>)
        ensures
            r == square_text(s@),
            r matches Some(sq) ==> sq.valid(),
    {
        match Square::parse_prefix(s) {
            Some((sq, n)) => {
                if n == s.len() {
                    Some(sq)
                } else {
                    None
                }
            },
            None => None,
        }
    }
}

/// A move: seven bits of source square, seven of destination, three of
/// promotion type (0 for none) and one en passant flag.
#[derive(Clone, Copy, PartialEq, Eq, Structural, Debug)]
pub struct Move(pub u32);

impl Move {
    /// No move.
    #[verifier::allow_in_spec]
    pub fn none() -> Move
        returns
            Move(0u32),
    {
        Move(0u32)
    }

    /// A distinct non-move used as a null-move marker in the search stack.
    #[verifier::allow_in_spec]
    pub fn null() -> Move
        returns
            Move(0xFFFF_FFFFu32),
    {
        Move(0xFFFF_FFFFu32)
    }

    /// The move with the given fields.
    pub open spec fn fields(from: int, to: int, promo: int, ep: bool) -> Move {
        Move((from + 128 * to + 16384 * promo + if ep {
            131072int
        } else {
            0
        }) as u32)
    }

    /// Nothing is set outside the four fields.
    pub open spec fn compact(self) -> bool {
        self.0 < 262144
    }

    pub fn new(from: Square, to: Square) -> (r: Move)
        requires
            from.0 < 128,
            to.0 < 128,
        ensures
            r == Move::fields(from.0 as int, to.0 as int, 0, false),
            r.compact(),
            r.from() == from,
            r.to() == to,
            r.promo_bits() == 0,
            !r.is_en_passant(),
    {
        Move(from.0 as u32 + to.0 as u32 * 128)
    }

    pub fn promotion(from: Square, to: Square, promo: PieceType) -> (r: Move)
        requires
            from.0 < 128,
            to.0 < 128,
            promo != PieceType::Pawn,
            promo != PieceType::King,
        ensures
            r == Move::fields(from.0 as int, to.0 as int, promo.idx() as int, false),
            r.compact(),
            r.from() == from,
            r.to() == to,
            r.promo_bits() == promo.idx(),
            !r.is_en_passant(),
    {
        Move(from.0 as u32 + to.0 as u32 * 128 + promo.idx() as u32 * 16384)
    }

    pub fn en_passant(from: Square, to: Square) -> (r: Move)
        requires
            from.0 < 128,
            to.0 < 128,
        ensures
            r == Move::fields(from.0 as int, to.0 as int, 0, true),
            r.compact(),
            r.from() == from,
            r.to() == to,
            r.promo_bits() == 0,
            r.is_en_passant(),
    {
        Move(from.0 as u32 + to.0 as u32 * 128 + 131072)
    }

    #[verifier::allow_in_spec]
    pub fn from(self) -> Square
        returns
            Square((self.0 % 128) as u8),
    {
        Square((self.0 % 128) as u8)
    }

    #[verifier::allow_in_spec]
    pub fn to(self) -> Square
        returns
            Square((self.0 / 128 % 128) as u8),
    {
        Square((self.0 / 128 % 128) as u8)
    }

    #[verifier::allow_in_spec]
    pub fn promo_bits(self) -> u8
        returns
            (self.0 / 16384 % 8) as u8,
    {
        (self.0 / 16384 % 8) as u8
    }

    #[verifier::allow_in_spec]
    pub fn is_promotion(self) -> bool
        returns
            self.promo_bits() != 0,
    {
        self.promo_bits() != 0
    }

    /// The promotion field as a type.
    pub open spec fn promo_kind(self) -> PieceType {
        PieceType::numbered(self.promo_bits() as int)
    }

    pub fn promo(self) -> (r: PieceType)
        ensures
            r == self.promo_kind(),
            r.idx() == self.promo_bits(),
    {
        PieceType::from_idx(self.promo_bits() as usize)
    }

    #[verifier::allow_in_spec]
    pub fn is_en_passant(self) -> bool
        returns
            self.0 / 131072 % 2 == 1,
    {
        self.0 / 131072 % 2 == 1
    }

    #[verifier::allow_in_spec]
    pub fn is_none(self) -> bool
        returns
            self == Move::none(),
    {
        self.0 == 0
    }
}

/// Law: a compact move is determined by its four fields.
pub proof fn move_fields_determine(a: Move, b: Move)
    requires
        a.compact(),
        b.compact(),
        a.from() == b.from(),
        a.to() == b.to(),
        a.promo_bits() == b.promo_bits(),
        a.is_en_passant() == b.is_en_passant(),
    ensures
        a == b,
{
}

} // verus!
