//! What words, numbers, squares and moves look like, character by character.

use vstd::prelude::*;

use crate::notation::{
    move_to_string, rank_picture, set_picture, set_to_string, square_name, square_to_string,
};
use crate::squareset::{SquareSet, bit};
use crate::text::{
    all_digits, chars_of, decimal, decimal_int, digits_value, is_digit, is_space, lemma_word_len,
    parse_signed, parse_unsigned, push_decimal_int, space, split_words, views, word_is, word_len,
    words,
};
use crate::types::{Move, Piece, PieceType, Square};

verus! {

// -- words ---------------------------------------------------------------------------

/// Law: blanks, tabs and line ends are spaces; letters, digits and signs are not.
pub proof fn what_is_a_space(c: char, r: bool)
    requires
        call_ensures(space, (c,), r),
    ensures
        c == ' ' || c == '\t' || c == '\n' || c == '\r' ==> r,
        33 <= c as u32 <= 126 ==> !r,
{
}

/// Law: an empty text has no words, one without spaces is a word, and the words of two
/// texts with a space between them are those of the one and then those of the other.
pub proof fn a_space_parts_words(a: Seq<char>, b: Seq<char>, c: char, gap: bool)
    requires
        call_ensures(space, (c,), gap),
        gap,
    ensures
        words(Seq::empty()) == Seq::<Seq<char>>::empty(),
        a.len() > 0 && (forall|i: int| 0 <= i < a.len() ==> !is_space(#[trigger] a[i])) ==> words(a)
            == seq![a],
        words(a.push(c) + b) == words(a) + words(b),
{
    lemma_parts(a, b, c);
}

pub proof fn lemma_parts(a: Seq<char>, b: Seq<char>, c: char)
    requires
        is_space(c),
    ensures
        words(Seq::empty()) == Seq::<Seq<char>>::empty(),
        a.len() > 0 && (forall|i: int| 0 <= i < a.len() ==> !is_space(#[trigger] a[i])) ==> words(a)
            == seq![a],
        words(a.push(c) + b) == words(a) + words(b),
{
    if a.len() > 0 && (forall|i: int| 0 <= i < a.len() ==> !is_space(#[trigger] a[i])) {
        lemma_word_len(a);
        assert(word_len(a) == a.len());
        assert(a.take(a.len() as int) =~= a);
        assert(a.skip(a.len() as int) =~= Seq::empty());
        assert(!is_space(a[0]));
        assert(words(a) == seq![a] + words(Seq::empty()));
        assert(seq![a] + Seq::<Seq<char>>::empty() =~= seq![a]);
    }
    lemma_words_join(a, b, c);
}

proof fn lemma_words_join(a: Seq<char>, b: Seq<char>, c: char)
    requires
        is_space(c),
    ensures
        words(a.push(c) + b) == words(a) + words(b),
    decreases a.len(),
{
    let s = a.push(c) + b;
    if a.len() == 0 {
        assert(s[0] == c);
        assert(s.drop_first() =~= b);
        assert(words(a) + words(b) =~= words(b));
    } else if is_space(a[0]) {
        assert(s[0] == a[0]);
        assert(s.drop_first() =~= a.drop_first().push(c) + b);
        lemma_words_join(a.drop_first(), b, c);
    } else {
        assert(s[0] == a[0]);
        lemma_word_len(a);
        lemma_word_len(s);
        let n = word_len(a);
        let k = word_len(s);
        if k < n {
            assert(s[k] == a[k]);
            assert(false);
        }
        if n < k {
            assert(!is_space(s[n]));
            assert(s[n] == if n < a.len() {
                a[n]
            } else {
                c
            });
            assert(false);
        }
        assert(s.take(n) =~= a.take(n));
        assert(s.skip(n) =~= a.skip(n).push(c) + b);
        lemma_words_join(a.skip(n), b, c);
        assert(words(a) + words(b) =~= seq![a.take(n)] + (words(a.skip(n)) + words(b)));
    }
}

/// Law: splitting a text gives its words.
pub proof fn a_text_is_split_at_spaces(
    text: &str,
    a: &str,
    b: &str,
    c: char,
    gap: bool,
    r: Vec<Vec<char>>,
    ra: Vec<Vec<char>>,
    rb: Vec<Vec<char>>,
)
    requires
        call_ensures(split_words, (text,), r),
        call_ensures(split_words, (a,), ra),
        call_ensures(split_words, (b,), rb),
        call_ensures(space, (c,), gap),
        gap,
        text@ == a@.push(c) + b@,
    ensures
        views(r@) == views(ra@) + views(rb@),
        a@.len() == 0 ==> ra@.len() == 0,
        a@.len() > 0 && (forall|i: int| 0 <= i < a@.len() ==> 33 <= #[trigger] a@[i] as u32 <= 126)
            ==> views(ra@) == seq![a@],
{
    a_space_parts_words(a@, b@, c, gap);
    if a@.len() == 0 {
        assert(a@ =~= Seq::empty());
        assert(views(ra@).len() == ra@.len());
    }
}

// -- numbers -------------------------------------------------------------------------

/// The character of a digit.
pub open spec fn digit_char(d: int) -> char {
    if d == 0 {
        '0'
    } else if d == 1 {
        '1'
    } else if d == 2 {
        '2'
    } else if d == 3 {
        '3'
    } else if d == 4 {
        '4'
    } else if d == 5 {
        '5'
    } else if d == 6 {
        '6'
    } else if d == 7 {
        '7'
    } else if d == 8 {
        '8'
    } else {
        '9'
    }
}

/// Law: a number below ten is its digit, and ten times a number and a digit is the
/// number followed by the digit.
pub proof fn a_number_is_its_digits(n: nat, d: nat)
    requires
        d < 10,
    ensures
        decimal(d) == seq![digit_char(d as int)],
        n > 0 ==> decimal(10 * n + d) == decimal(n).push(digit_char(d as int)),
{
    assert(((48 + d) as u8) as char == digit_char(d as int));
    if n > 0 {
        assert((10 * n + d) / 10 == n);
        assert((10 * n + d) % 10 == d);
    }
}

pub proof fn lemma_decimal(n: nat)
    ensures
        decimal(n).len() > 0,
        all_digits(decimal(n)),
        digits_value(decimal(n)) == n,
        decimal(n)[0] != '+' && decimal(n)[0] != '-',
        decimal(n)[0] == '0' ==> n == 0,
    decreases n,
{
    if n >= 10 {
        lemma_decimal(n / 10);
        let s = decimal(n);
        assert(s.drop_last() =~= decimal(n / 10));
        let c = ((48 + n % 10) as u8) as char;
        assert(c as u32 == 48 + n % 10);
        assert(s[0] == decimal(n / 10)[0]);
    } else {
        let s = decimal(n);
        let c = ((48 + n) as u8) as char;
        assert(c as u32 == 48 + n);
        assert(s.drop_last() =~= Seq::empty());
        assert(digits_value(Seq::<char>::empty()) == 0);
    }
}

/// Law: a number written down is read back, where it is in range.
pub proof fn a_written_number_is_read_back(n: nat, s: Vec<char>, max: u64, r: Option<u64>)
    requires
        s@ == decimal(n),
        call_ensures(parse_unsigned, (&s, max), r),
    ensures
        n <= max ==> r == Some(n as u64),
        n > max ==> r is None,
{
    lemma_decimal(n);
}

/// Law: so is one with a sign.
pub proof fn a_written_signed_number_is_read_back(n: int, s: Vec<char>, max: i64, r: Option<i64>)
    requires
        max >= 0,
        s@ == decimal_int(n),
        call_ensures(parse_signed, (&s, max), r),
    ensures
        -max - 1 <= n <= max ==> r == Some(n as i64),
        !(-max - 1 <= n <= max) ==> r is None,
{
    if n < 0 {
        lemma_decimal((-n) as nat);
        assert(s@.drop_first() =~= decimal((-n) as nat));
        assert(s@[0] == '-');
    } else {
        lemma_decimal(n as nat);
    }
}

/// Law: a text with a character that is no digit, other than a sign in front, is no
/// number; neither is a minus sign read where none is allowed.
pub proof fn only_digits_make_a_number(s: Vec<char>, i: int, max: u64, r: Option<u64>)
    requires
        call_ensures(parse_unsigned, (&s, max), r),
        s@.len() == 0 || (0 <= i < s@.len() && !('0' as u32 <= s@[i] as u32 <= '9' as u32) && (i > 0
            || s@[i] != '+')),
    ensures
        r is None,
{
    if s@.len() > 0 {
        if i == 0 {
            assert(!is_digit(s@[0]));
        } else {
            assert(!is_digit(s@[i]));
            assert(s@.drop_first()[i - 1] == s@[i]);
        }
    }
}

/// Law: writing a number appends its text.
pub proof fn a_number_is_appended(s: &mut String, n: i64)
    requires
        n > i64::MIN,
        call_ensures(push_decimal_int, (s, n), ()),
    ensures
        n >= 0 ==> final(s)@ == old(s)@ + decimal(n as nat),
        n < 0 ==> final(s)@ == old(s)@ + (seq!['-'] + decimal((-n) as nat)),
{
}

// -- pieces and squares --------------------------------------------------------------

/// The letter of a piece by its number: capital for White.
pub open spec fn letter_of(p: int) -> char {
    if p == 0 {
        'P'
    } else if p == 1 {
        'N'
    } else if p == 2 {
        'B'
    } else if p == 3 {
        'R'
    } else if p == 4 {
        'Q'
    } else if p == 5 {
        'C'
    } else if p == 6 {
        'A'
    } else if p == 7 {
        'K'
    } else if p == 8 {
        'p'
    } else if p == 9 {
        'n'
    } else if p == 10 {
        'b'
    } else if p == 11 {
        'r'
    } else if p == 12 {
        'q'
    } else if p == 13 {
        'c'
    } else if p == 14 {
        'a'
    } else {
        'k'
    }
}

/// Law: a piece is written by its letter and read back from it, and no other byte
/// writes one.
pub proof fn pieces_have_letters(p: Piece, c: u8, w: u8, r: Option<Piece>)
    requires
        p.valid(),
        call_ensures(Piece::to_char, (p,), w),
        call_ensures(Piece::from_char, (c,), r),
    ensures
        w as char == letter_of(p.0 as int),
        c as char == letter_of(p.0 as int) ==> r == Some(p),
        r matches Some(x) ==> c as char == letter_of(x.0 as int) && x.0 < 16,
{
    assert(p.letter() as char == letter_of(p.0 as int));
    match r {
        Some(x) => {
            assert(x.letter() as char == letter_of(x.0 as int));
            if c as char == letter_of(p.0 as int) {
                assert(letter_of(x.0 as int) == letter_of(p.0 as int));
                assert(x.0 == p.0);
            }
        },
        None => {
            assert(p.letter() != c);
        },
    }
}

/// The letter of a file.
pub open spec fn file_char(f: int) -> char {
    if f == 0 {
        'a'
    } else if f == 1 {
        'b'
    } else if f == 2 {
        'c'
    } else if f == 3 {
        'd'
    } else if f == 4 {
        'e'
    } else if f == 5 {
        'f'
    } else if f == 6 {
        'g'
    } else if f == 7 {
        'h'
    } else if f == 8 {
        'i'
    } else {
        'j'
    }
}

/// The number of a rank, from `1` to `10`.
pub open spec fn rank_chars(r: int) -> Seq<char> {
    if r == 9 {
        seq!['1', '0']
    } else {
        seq![digit_char(r + 1)]
    }
}

/// Law: a square is named by its file from `a` to `j` and its rank from 1 to 10, and no
/// square by a dash.
pub proof fn squares_are_named_by_file_and_rank(s: Square, r: String, none: String)
    requires
        s.valid(),
        call_ensures(square_to_string, (s,), r),
        call_ensures(square_to_string, (Square::none(),), none),
    ensures
        r@ == seq![file_char(s.0 as int % 10)] + rank_chars(s.0 as int / 10),
        none@ == seq!['-'],
{
    lemma_square_name(s);
}

pub proof fn lemma_square_name(s: Square)
    requires
        s.valid(),
    ensures
        square_name(s) == seq![file_char(s.0 as int % 10)] + rank_chars(s.0 as int / 10),
{
    let n = (s.0 / 10 + 1) as nat;
    if n == 10 {
        a_number_is_its_digits(1, 0);
        a_number_is_its_digits(0, 1);
        assert(decimal(10) =~= seq!['1', '0']);
    } else {
        a_number_is_its_digits(0, n);
    }
    assert(((97 + s.0 % 10) as u8) as char == file_char(s.0 as int % 10));
}

/// Law: a square is read back from its name.
pub proof fn a_named_square_is_read_back(s: Square, bytes: &[u8], rest: Seq<u8>, r: Option<(Square, usize)>, whole: Option<Square>)
    requires
        s.valid(),
        call_ensures(Square::parse_prefix, (bytes,), r),
        call_ensures(Square::parse, (bytes,), whole),
        bytes@ == Seq::new(square_name(s).len(), |i: int| square_name(s)[i] as u8) + rest,
        rest.len() > 0 ==> !(48 <= rest[0] <= 57),
    ensures
        r == Some((s, square_name(s).len() as usize)),
        whole == if rest.len() == 0 {
            Some(s)
        } else {
            None
        },
{
    lemma_square_name(s);
    let name = square_name(s);
    let f = file_char(s.0 as int % 10);
    assert(f as u8 == 97 + s.0 % 10);
    assert(bytes@[0] == f as u8);
    if s.0 as int / 10 == 9 {
        assert(name[1] == '1' && name[2] == '0');
        assert(bytes@[1] == 49 && bytes@[2] == 48);
    } else {
        let d = digit_char(s.0 as int / 10 + 1);
        assert(name[1] == d);
        assert(d as u8 == 49 + s.0 / 10);
        assert(bytes@[1] == d as u8);
        assert(name.len() == 2);
        if bytes@.len() > 2 {
            assert(bytes@[2] == rest[0]);
        }
    }
}

/// Law: a move is named by its squares and, where it promotes, the small letter of what the
/// pawn becomes; no move by four zeros.
pub proof fn moves_are_named_by_their_squares(f: int, t: int, kind: int, m: Move, r: String, none: String)
    requires
        0 <= f < 100,
        0 <= t < 100,
        f != t,
        0 <= kind <= 6,
        m.0 == f + 128 * t + 16384 * kind,
        call_ensures(move_to_string, (m,), r),
        call_ensures(move_to_string, (Move::none(),), none),
    ensures
        r@ == seq![file_char(f % 10)] + rank_chars(f / 10) + (seq![file_char(t % 10)] + rank_chars(
            t / 10,
        )) + (if kind == 0 {
            Seq::<char>::empty()
        } else {
            seq![letter_of(kind + 8)]
        }),
        none@ == seq!['0', '0', '0', '0'],
{
    reveal_strlit("0000");
    assert("0000"@ =~= seq!['0', '0', '0', '0']);
    lemma_fields_of(f, t, kind, m);
    lemma_square_name(m.from());
    lemma_square_name(m.to());
    if kind != 0 {
        lemma_promotion_letter(kind);
    }
}

proof fn lemma_fields_of(f: int, t: int, kind: int, m: Move)
    requires
        0 <= f < 100,
        0 <= t < 100,
        f != t,
        0 <= kind <= 6,
        m.0 == f + 128 * t + 16384 * kind,
    ensures
        m.from() == Square(f as u8),
        m.to() == Square(t as u8),
        m.promo_bits() == kind,
        !m.is_none(),
{
}

proof fn lemma_promotion_letter(kind: int)
    requires
        1 <= kind <= 6,
    ensures
        PieceType::numbered(kind).to_char() as char == letter_of(kind + 8),
{
}

/// Law: the picture of a set is ten rows from the tenth rank down, each of ten marks with
/// a space behind and a line end, a cross where the square is in the set.
pub proof fn a_set_is_drawn_by_rank(set: SquareSet, r: String, row: int, file: int)
    requires
        call_ensures(set_to_string, (set,), r),
        0 <= row < 10,
        0 <= file < 10,
    ensures
        r@.len() == 210,
        r@[21 * (9 - row) + 2 * file] == if set.contains(10 * row + file) {
            'X'
        } else {
            '.'
        },
        r@[21 * (9 - row) + 2 * file + 1] == ' ',
        r@[21 * (9 - row) + 20] == '\n',
{
    lemma_set_picture(set.0, 9, row, file);
}

proof fn lemma_rank_picture(set: u128, r: int, f: int, file: int)
    requires
        0 <= f <= 10,
    ensures
        rank_picture(set, r, f).len() == 2 * (10 - f) + 1,
        f <= file < 10 ==> rank_picture(set, r, f)[2 * (file - f)] == if bit(set, r * 10 + file) {
            'X'
        } else {
            '.'
        },
        f <= file < 10 ==> rank_picture(set, r, f)[2 * (file - f) + 1] == ' ',
        rank_picture(set, r, f)[2 * (10 - f)] == '\n',
    decreases 10 - f,
{
    if f < 10 {
        lemma_rank_picture(set, r, f + 1, file);
    }
}

proof fn lemma_set_picture(set: u128, top: int, row: int, file: int)
    requires
        -1 <= top <= 9,
        0 <= file < 10,
    ensures
        set_picture(set, top).len() == 21 * (top + 1),
        0 <= row <= top ==> set_picture(set, top)[21 * (top - row) + 2 * file] == (if bit(
            set,
            10 * row + file,
        ) {
            'X'
        } else {
            '.'
        }) && set_picture(set, top)[21 * (top - row) + 2 * file + 1] == ' ' && set_picture(
            set,
            top,
        )[21 * (top - row) + 20] == '\n',
    decreases top + 1,
{
    if top >= 0 {
        lemma_set_picture(set, top - 1, row, file);
        lemma_rank_picture(set, top, 0, file);
    }
}

/// Law: beyond ASCII, too, only what separates words is a space.
pub proof fn which_other_characters_are_spaces(c: char, r: bool)
    requires
        call_ensures(space, (c,), r),
        c as u32 >= 127,
    ensures
        r <==> c as u32 == 0x85 || c as u32 == 0xA0 || c as u32 == 0x1680 || (0x2000 <= c as u32
            && c as u32 <= 0x200A) || c as u32 == 0x2028 || c as u32 == 0x2029 || c as u32 == 0x202F
            || c as u32 == 0x205F || c as u32 == 0x3000,
{
}

/// Law: a word spells a text where both have the same characters, and a text is its characters.
pub proof fn a_word_spells_a_text(w: Vec<char>, lit: &str, r: bool, chars: Vec<char>)
    requires
        call_ensures(word_is, (&w, lit), r),
        call_ensures(chars_of, (lit,), chars),
    ensures
        r <==> w@ == chars@,
        chars@ == lit@,
{
}

} // verus!
