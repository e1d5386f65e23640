//! Squares and moves as text.

use vstd::prelude::*;
use crate::squareset::{SquareSet, bit};
use crate::text::{decimal, push_char, push_decimal};
use crate::types::{Move, Square};

verus! {

/// A square's name: a dash for none, or a file letter and a rank number.
pub open spec fn square_name(s: Square) -> Seq<char> {
    if s == Square::none() {
        seq!['-']
    } else {
        seq![((97 + s.0 % 10) as u8) as char] + decimal((s.0 / 10 + 1) as nat)
    }
}

fn push_square(out: &mut String, s: Square)
    ensures
        final(out)@ == old(out)@ + square_name(s),
{
    let ghost before = out@;
    if s == Square::none() {
        push_char(out, '-');
        assert(out@ =~= before + square_name(s));
    } else {
        push_char(out, (97 + s.0 % 10) as char);
        push_decimal(out, s.0 as u64 / 10 + 1);
        assert(out@ =~= before + square_name(s));
    }
}

/// A square's name.
pub fn square_to_string(s: Square) -> (r: String)
    ensures
        r@ == square_name(s),
{
    let mut out = String::new();
    push_square(&mut out, s);
    assert(out@ =~= square_name(s));
    out
}

/// A move's name: its two squares and the letter of a promotion.
pub open spec fn move_name(m: Move) -> Seq<char> {
    if m.is_none() {
        "0000"@
    } else {
        square_name(m.from()) + square_name(m.to()) + if m.is_promotion() {
            seq![m.promo_kind().to_char() as char]
        } else {
            Seq::empty()
        }
    }
}

/// Long algebraic notation, e.g. `e7e8`, `e7e8c`, `e9e10a`.
pub fn move_to_string(m: Move) -> (r: String)
    ensures
        r@ == move_name(m),
{
    if m.is_none() {
        return "0000".to_string();
    }
    let mut out = String::new();
    push_square(&mut out, m.from());
    push_square(&mut out, m.to());
    if m.is_promotion() {
        push_char(&mut out, m.promo().to_char() as char);
    }
    assert(out@ =~= move_name(m));
    out
}

/// One rank of a set, as a row of crosses and dots.
pub open spec fn rank_picture(set: u128, r: int, f: int) -> Seq<char>
    decreases 10 - f,
{
    if f >= 10 {
        seq!['\n']
    } else {
        seq![
            if bit(set, r * 10 + f) {
                'X'
            } else {
                '.'
            },
            ' ',
        ] + rank_picture(set, r, f + 1)
    }
}

/// The ranks from `r` down.
pub open spec fn set_picture(set: u128, r: int) -> Seq<char>
    decreases r + 1,
{
    if r < 0 {
        Seq::empty()
    } else {
        rank_picture(set, r, 0) + set_picture(set, r - 1)
    }
}

fn push_rank(out: &mut String, set: SquareSet, r: u8)
    requires
        r < 10,
    ensures
        final(out)@ == old(out)@ + rank_picture(set.0, r as int, 0),
{
    let ghost before = out@;
    let ghost all = before + rank_picture(set.0, r as int, 0);
    let mut f: u8 = 0;
    while f < 10
        invariant
            f <= 10,
            r < 10,
            out@ + rank_picture(set.0, r as int, f as int) == all,
        decreases 10 - f,
    {
        let ghost had = out@;
        let on = set.has(Square::from_file_rank(f, r));
        push_char(
            out,
            if on {
                'X'
            } else {
                '.'
            },
        );
        push_char(out, ' ');
        f += 1;
        assert(out@ + rank_picture(set.0, r as int, f as int) =~= had + rank_picture(
            set.0,
            r as int,
            f - 1,
        ));
    }
    let ghost had = out@;
    push_char(out, '\n');
    assert(out@ =~= had + rank_picture(set.0, r as int, 10));
}

/// A picture of a set: ten rows, the tenth rank first.
pub fn set_to_string(set: SquareSet) -> (r: String)
    ensures
        r@ == set_picture(set.0, 9),
{
    let mut out = String::new();
    let mut r: u8 = 10;
    assert(out@ + set_picture(set.0, 9) =~= set_picture(set.0, 9));
    while r > 0
        invariant
            r <= 10,
            out@ + set_picture(set.0, r - 1) == set_picture(set.0, 9),
        decreases r,
    {
        let ghost had = out@;
        r -= 1;
        push_rank(&mut out, set, r);
        assert(out@ + set_picture(set.0, r - 1) =~= had + set_picture(set.0, r as int));
    }
    assert(out@ + set_picture(set.0, -1) =~= out@);
    out
}

} // verus!
