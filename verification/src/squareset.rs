//! Square sets: a 128-bit set of board squares, one bit per square.
//!
//! Bit `i` corresponds to `Square(i)` in the rank-major a1 = 0 layout, so bits
//! of one rank are contiguous and ascending in file, and the stride between
//! ranks is ten.

use vstd::prelude::*;
use crate::types::{rel_rank, Color, Square};

verus! {

/// Is bit `i` of `x` set?
#[verifier::opaque]
pub open spec fn bit(x: u128, i: int) -> bool {
    0 <= i < 128 && x & (1u128 << (i as u128)) != 0
}

pub broadcast proof fn lemma_bit_range(x: u128, i: int)
    ensures
        #[trigger] bit(x, i) ==> 0 <= i < 128,
{
    reveal(bit);
}

pub broadcast proof fn lemma_bit_and(a: u128, b: u128, i: int)
    ensures
        #[trigger] bit(a & b, i) == (bit(a, i) && bit(b, i)),
{
    reveal(bit);
    let j = i as u128;
    assert(j < 128 ==> ((a & b) & (1u128 << j) != 0) == (a & (1u128 << j) != 0 && b & (1u128 << j)
        != 0)) by (bit_vector);
}

pub broadcast proof fn lemma_bit_or(a: u128, b: u128, i: int)
    ensures
        #[trigger] bit(a | b, i) == (bit(a, i) || bit(b, i)),
{
    reveal(bit);
    let j = i as u128;
    assert(((a | b) & (1u128 << j) != 0) == (a & (1u128 << j) != 0 || b & (1u128 << j) != 0))
        by (bit_vector);
}

pub broadcast proof fn lemma_bit_xor(a: u128, b: u128, i: int)
    ensures
        #[trigger] bit(a ^ b, i) == (bit(a, i) != bit(b, i)),
{
    reveal(bit);
    let j = i as u128;
    assert(j < 128 ==> ((a ^ b) & (1u128 << j) != 0) == ((a & (1u128 << j) != 0) != (b & (1u128
        << j) != 0))) by (bit_vector);
}

pub broadcast proof fn lemma_bit_not(a: u128, i: int)
    ensures
        #[trigger] bit(!a, i) == (0 <= i < 128 && !bit(a, i)),
{
    reveal(bit);
    let j = i as u128;
    assert(j < 128 ==> ((!a) & (1u128 << j) != 0) == (a & (1u128 << j) == 0)) by (bit_vector);
}

pub broadcast proof fn lemma_bit_zero(i: int)
    ensures
        !#[trigger] bit(0, i),
{
    reveal(bit);
    let j = i as u128;
    assert(0u128 & (1u128 << j) == 0) by (bit_vector);
}

pub broadcast proof fn lemma_bit_one(k: u128, i: int)
    ensures
        #[trigger] bit(1u128 << k, i) == (k < 128 && i == k),
{
    reveal(bit);
    let j = i as u128;
    assert(j < 128 ==> (((1u128 << k) & (1u128 << j) != 0) == (k == j))) by (bit_vector);
}

pub broadcast proof fn lemma_bit_shl(x: u128, k: u128, i: int)
    requires
        k < 128,
    ensures
        #[trigger] bit(x << k, i) == (i < 128 && bit(x, i - k)),
{
    reveal(bit);
    let j = i as u128;
    if 0 <= i < 128 {
        if i >= k {
            let d = (i - k) as u128;
            assert(k <= j && j < 128 && d == j - k ==> ((x << k) & (1u128 << j) != 0) == (x & (
            1u128 << d) != 0)) by (bit_vector);
        } else {
            assert(j < k && k < 128 ==> (x << k) & (1u128 << j) == 0) by (bit_vector);
        }
    }
}

pub broadcast proof fn lemma_bit_shr(x: u128, k: u128, i: int)
    requires
        k < 128,
    ensures
        #[trigger] bit(x >> k, i) == (0 <= i && bit(x, i + k)),
{
    reveal(bit);
    let j = i as u128;
    if 0 <= i < 128 {
        let d = (i + k) as u128;
        assert(k < 128 && j < 128 && d == j + k ==> ((x >> k) & (1u128 << j) != 0) == (d < 128 && x
            & (1u128 << d) != 0)) by (bit_vector);
    }
}

/// The low `k` bits set.
pub proof fn lemma_bit_low_mask(k: u128, i: int)
    requires
        k < 128,
    ensures
        (1u128 << k) >= 1,
        bit(((1u128 << k) - 1) as u128, i) == (0 <= i < k),
{
    reveal(bit);
    let j = i as u128;
    assert(k < 128 ==> (1u128 << k) >= 1) by (bit_vector);
    let m = ((1u128 << k) - 1) as u128;
    assert(k < 128 && j < 128 && m == (1u128 << k) - 1 ==> (m & (1u128 << j) != 0) == (j < k))
        by (bit_vector);
}

/// Some bit of a non-zero word is set.
pub proof fn lemma_some_bit(x: u128, hi: u128) -> (i: int)
    requires
        x != 0,
        hi <= 128,
        hi < 128 ==> x >> hi == 0,
    ensures
        bit(x, i),
    decreases hi,
{
    if hi == 0 {
        assert(x >> 0u128 == x) by (bit_vector);
        0
    } else {
        let h = (hi - 1) as u128;
        if bit(x, h as int) {
            h as int
        } else {
            reveal(bit);
            assert(x >> h == 0) by (bit_vector)
                requires
                    h < 128,
                    x & (1u128 << h) == 0,
                    h == 127 || x >> ((h + 1) as u128) == 0,
            ;
            lemma_some_bit(x, h)
        }
    }
}

/// Words with the same bits are equal.
pub proof fn lemma_bits_equal(a: u128, b: u128)
    requires
        forall|i: int| #![trigger bit(a, i)] #![trigger bit(b, i)] bit(a, i) == bit(b, i),
    ensures
        a == b,
{
    broadcast use lemma_bit_xor;

    if a != b {
        assert(a != b ==> a ^ b != 0) by (bit_vector);
        let i = lemma_some_bit(a ^ b, 128);
        assert(bit(a, i) == bit(b, i));
    }
}

pub broadcast group group_bits {
    lemma_bit_range,
    lemma_bit_and,
    lemma_bit_or,
    lemma_bit_xor,
    lemma_bit_not,
    lemma_bit_zero,
    lemma_bit_one,
    lemma_bit_shl,
    lemma_bit_shr,
}

// -- the members of a set, in ascending order --------------------------------

/// The set bits of `x` from bit `lo` up, in ascending order.
pub open spec fn squares_from(x: u128, lo: int) -> Seq<int>
    decreases 128 - lo,
{
    if lo >= 128 {
        Seq::empty()
    } else if bit(x, lo) {
        seq![lo] + squares_from(x, lo + 1)
    } else {
        squares_from(x, lo + 1)
    }
}

/// The set bits of `x` in ascending order.
pub open spec fn squares(x: u128) -> Seq<int> {
    squares_from(x, 0)
}

proof fn lemma_squares_skip(x: u128, lo: int, l: int)
    requires
        lo <= l <= 128,
        forall|j: int| lo <= j < l ==> !bit(x, j),
    ensures
        squares_from(x, lo) == squares_from(x, l),
    decreases l - lo,
{
    if lo < l {
        assert(!bit(x, lo));
        lemma_squares_skip(x, lo + 1, l);
    }
}

proof fn lemma_squares_agree(x: u128, y: u128, lo: int)
    requires
        forall|j: int| lo <= j ==> bit(x, j) == bit(y, j),
    ensures
        squares_from(x, lo) == squares_from(y, lo),
    decreases 128 - lo,
{
    if lo < 128 {
        assert(bit(x, lo) == bit(y, lo));
        lemma_squares_agree(x, y, lo + 1);
    }
}

proof fn lemma_squares_from_members(x: u128, lo: int)
    requires
        0 <= lo,
    ensures
        forall|i: int| #[trigger] squares_from(x, lo).contains(i) <==> lo <= i && bit(x, i),
        forall|a: int, b: int|
            0 <= a < b < squares_from(x, lo).len() ==> squares_from(x, lo)[a] < squares_from(
                x,
                lo,
            )[b],
    decreases 128 - lo,
{
    broadcast use lemma_bit_range;

    let s = squares_from(x, lo);
    if lo < 128 {
        lemma_squares_from_members(x, lo + 1);
        let t = squares_from(x, lo + 1);
        assert forall|i: int| #[trigger] s.contains(i) <==> lo <= i && bit(x, i) by {
            if bit(x, lo) {
                if s.contains(i) {
                    let k = choose|k: int| 0 <= k < s.len() && s[k] == i;
                    if k > 0 {
                        assert(t[k - 1] == i);
                        assert(t.contains(i));
                    }
                }
                if lo <= i && bit(x, i) {
                    if i == lo {
                        assert(s[0] == i);
                    } else {
                        assert(t.contains(i));
                        let k = choose|k: int| 0 <= k < t.len() && t[k] == i;
                        assert(s[k + 1] == i);
                    }
                }
            } else {
                assert(t.contains(i) <==> lo + 1 <= i && bit(x, i));
            }
        }
        assert forall|a: int, b: int| 0 <= a < b < s.len() implies s[a] < s[b] by {
            if bit(x, lo) {
                if a == 0 {
                    assert(s[b] == t[b - 1]);
                    assert(t.contains(s[b]));
                } else {
                    assert(s[a] == t[a - 1]);
                    assert(s[b] == t[b - 1]);
                }
            }
        }
    }
}

/// `squares` lists exactly the set bits, each once, ascending.
pub proof fn lemma_squares_members(x: u128)
    ensures
        forall|i: int| #[trigger] squares(x).contains(i) <==> bit(x, i),
        forall|a: int, b: int| 0 <= a < b < squares(x).len() ==> squares(x)[a] < squares(x)[b],
{
    lemma_squares_from_members(x, 0);
    broadcast use lemma_bit_range;

}

/// Taking the lowest bit off takes the first member off the list.
pub proof fn lemma_squares_pop(x: u128, l: int, y: u128)
    requires
        bit(x, l),
        forall|j: int| 0 <= j < l ==> !bit(x, j),
        forall|j: int| #[trigger] bit(y, j) == (bit(x, j) && j != l),
    ensures
        squares(x) == seq![l] + squares(y),
        squares(x).len() > 0,
        squares(x)[0] == l,
        squares(x).drop_first() == squares(y),
        squares(x).len() == squares(y).len() + 1,
{
    broadcast use lemma_bit_range;

    lemma_squares_skip(x, 0, l);
    assert forall|j: int| 0 <= j < l + 1 implies !bit(y, j) by {}
    lemma_squares_skip(y, 0, l + 1);
    assert forall|j: int| l + 1 <= j implies bit(x, j) == bit(y, j) by {}
    lemma_squares_agree(x, y, l + 1);
    assert(squares(x).drop_first() =~= squares(y));
}

pub proof fn lemma_squares_empty(x: u128)
    ensures
        squares(x).len() == 0 <==> x == 0,
{
    lemma_squares_members(x);
    broadcast use lemma_bit_zero;

    if x != 0 {
        let i = lemma_some_bit(x, 128);
        assert(squares(x).contains(i));
    } else if squares(0).len() != 0 {
        assert(squares(0).contains(squares(0)[0]));
    }
}

// -- the type -----------------------------------------------------------------

/// A set of squares.
#[derive(Clone, Copy, PartialEq, Eq, Structural, Debug, Default, Hash)]
pub struct SquareSet(pub u128);

/// Every square of the board: bits 0..100.
pub const BOARD_BITS: u128 = 0xF_FFFF_FFFF_FFFF_FFFF_FFFF_FFFF;

/// The ten squares of the first file.
pub const FILE_A_BITS: u128 = 0x4010_0401_0040_1004_0100_401;

/// The ten squares of the last file.
pub const FILE_J_BITS: u128 = 0x8020_0802_0080_2008_0200_80200;

pub proof fn lemma_board_bits(i: int)
    ensures
        bit(BOARD_BITS, i) == (0 <= i < 100),
{
    assert(BOARD_BITS == (1u128 << 100u128) - 1) by (bit_vector);
    lemma_bit_low_mask(100, i);
}

pub proof fn lemma_file_bits(i: int)
    ensures
        bit(FILE_A_BITS, i) == (0 <= i < 100 && i % 10 == 0),
        bit(FILE_J_BITS, i) == (0 <= i < 100 && i % 10 == 9),
{
    reveal(bit);
    let j = i as u128;
    assert(j < 128 ==> (FILE_A_BITS & (1u128 << j) != 0) == (j < 100 && j % 10 == 0))
        by (bit_vector);
    assert(j < 128 ==> (FILE_J_BITS & (1u128 << j) != 0) == (j < 100 && j % 10 == 9))
        by (bit_vector);
}

impl SquareSet {
    /// Is square number `i` in the set?
    #[verifier::inline]
    pub open spec fn contains(self, i: int) -> bool {
        bit(self.0, i)
    }

    /// Nothing outside the board is set.
    pub open spec fn on_board(self) -> bool {
        forall|i: int| #[trigger] bit(self.0, i) ==> i < 100
    }

    /// The members, ascending.
    pub open spec fn members(self) -> Seq<int> {
        squares(self.0)
    }

    #[verifier::allow_in_spec]
    pub fn empty() -> SquareSet
        returns
            SquareSet(0u128),
    {
        SquareSet(0)
    }

    /// Every square of the board.
    pub fn board() -> (r: SquareSet)
        ensures
            forall|i: int| #[trigger] r.contains(i) <==> 0 <= i < 100,
    {
        proof {
            assert forall|i: int| bit(BOARD_BITS, i) <==> 0 <= i < 100 by {
                lemma_board_bits(i);
            }
        }
        SquareSet(BOARD_BITS)
    }

    pub fn from_square(s: Square) -> (r: SquareSet)
        requires
            s.valid(),
        ensures
            forall|i: int| #[trigger] r.contains(i) <==> i == s.0,
    {
        broadcast use lemma_bit_one;

        SquareSet(1u128 << (s.0 as u128))
    }

    pub fn rank(r: u8) -> (s: SquareSet)
        requires
            r < 10,
        ensures
            forall|i: int| #[trigger] s.contains(i) <==> 0 <= i && i / 10 == r,
    {
        broadcast use lemma_bit_shl;

        proof {
            assert(0x3FFu128 == (1u128 << 10u128) - 1) by (bit_vector);
            assert forall|i: int| bit(0x3FFu128, i) <==> 0 <= i < 10 by {
                lemma_bit_low_mask(10, i);
            }
        }
        SquareSet(0x3FFu128 << ((r * 10) as u128))
    }

    pub fn file(f: u8) -> (s: SquareSet)
        requires
            f < 10,
        ensures
            forall|i: int| #[trigger] s.contains(i) <==> 0 <= i < 100 && i % 10 == f,
    {
        broadcast use lemma_bit_shl;

        proof {
            assert forall|i: int| bit(FILE_A_BITS, i) <==> 0 <= i < 100 && i % 10 == 0 by {
                lemma_file_bits(i);
            }
        }
        SquareSet(FILE_A_BITS << (f as u128))
    }

    /// Rank `r` counted from `c`'s own side of the board.
    pub fn relative_rank(c: Color, r: u8) -> (s: SquareSet)
        requires
            r < 10,
        ensures
            forall|i: int| #[trigger] s.contains(i) <==> 0 <= i < 100 && rel_rank(c, i) == r,
    {
        match c {
            Color::White => SquareSet::rank(r),
            Color::Black => SquareSet::rank(9 - r),
        }
    }

    pub fn is_empty(self) -> (r: bool)
        ensures
            r == (self.0 == 0),
            r <==> forall|i: int| !#[trigger] self.contains(i),
    {
        broadcast use lemma_bit_zero;

        proof {
            if self.0 != 0 {
                let i = lemma_some_bit(self.0, 128);
                assert(self.contains(i));
            }
        }
        self.0 == 0
    }

    pub fn any(self) -> (r: bool)
        ensures
            r == (self.0 != 0),
            r <==> exists|i: int| #[trigger] self.contains(i),
    {
        broadcast use lemma_bit_zero;

        proof {
            if self.0 != 0 {
                let i = lemma_some_bit(self.0, 128);
                assert(self.contains(i));
            }
        }
        self.0 != 0
    }

    /// How many squares are in the set.
    pub fn count(self) -> (r: u32)
        ensures
            r == self.members().len(),
    {
        let mut x = self;
        let mut n: u32 = 0;
        proof {
            lemma_squares_bound(self.0, 0);
        }
        while x.any()
            invariant
                n + squares(x.0).len() == squares(self.0).len(),
                squares(self.0).len() <= 128,
            decreases squares(x.0).len(),
        {
            x.pop();
            n += 1;
        }
        proof {
            lemma_squares_empty(x.0);
        }
        n
    }

    pub fn has(self, s: Square) -> (r: bool)
        requires
            s.0 < 128,
        ensures
            r == self.contains(s.0 as int),
    {
        proof {
            reveal(bit);
        }
        self.0 & (1u128 << (s.0 as u128)) != 0
    }

    pub fn set(&mut self, s: Square)
        requires
            s.0 < 128,
        ensures
            forall|i: int| #[trigger]
                final(self).contains(i) <==> old(self).contains(i) || i == s.0,
    {
        broadcast use group_bits;

        self.0 = self.0 | (1u128 << (s.0 as u128));
    }

    pub fn clear(&mut self, s: Square)
        requires
            s.0 < 128,
        ensures
            forall|i: int| #[trigger]
                final(self).contains(i) <==> old(self).contains(i) && i != s.0,
    {
        broadcast use group_bits;

        self.0 = self.0 & !(1u128 << (s.0 as u128));
    }

    /// Lowest set square; the set must be non-empty.
    pub fn lsb(self) -> (r: Square)
        requires
            self.0 != 0,
        ensures
            r.0 < 128,
            self.contains(r.0 as int),
            forall|j: int| 0 <= j < r.0 ==> !#[trigger] self.contains(j),
            r.0 == self.members()[0],
            self.members().len() > 0,
    {
        let x = self.0;
        let lo: u64 = (x & 0xFFFF_FFFF_FFFF_FFFF) as u64;
        let hi: u64 = (x >> 64) as u64;
        proof {
            lemma_halves(x, lo, hi);
        }
        let r: Square = if lo != 0 {
            Square(lo.trailing_zeros() as u8)
        } else {
            Square((64 + hi.trailing_zeros()) as u8)
        };
        proof {
            broadcast use vstd::std_specs::bits::axiom_u64_trailing_zeros;

            if lo != 0 {
                assert(vstd::std_specs::bits::u64_trailing_zeros(lo) < 64);
                assert forall|j: int| 0 <= j < r.0 implies !#[trigger] self.contains(j) by {
                    let k = j as u64;
                    assert((lo >> k) & 1u64 == 0u64);
                }
            } else {
                assert(vstd::std_specs::bits::u64_trailing_zeros(hi) < 64);
                assert forall|j: int| 0 <= j < r.0 implies !#[trigger] self.contains(j) by {
                    if j >= 64 {
                        let k = (j - 64) as u64;
                        assert((hi >> k) & 1u64 == 0u64);
                    } else {
                        let k = j as u64;
                        assert((0u64 >> k) & 1u64 == 0u64) by (bit_vector);
                    }
                }
            }
            lemma_squares_skip(x, 0, r.0 as int);
        }
        r
    }

    /// Highest set square; the set must be non-empty. Needed by the ray-based
    /// sliding attacks, which scan backwards along the four negative directions.
    pub fn msb(self) -> (r: Square)
        requires
            self.0 != 0,
        ensures
            r.0 < 128,
            self.contains(r.0 as int),
            forall|j: int| r.0 < j ==> !#[trigger] self.contains(j),
    {
        let x = self.0;
        let lo: u64 = (x & 0xFFFF_FFFF_FFFF_FFFF) as u64;
        let hi: u64 = (x >> 64) as u64;
        proof {
            lemma_halves(x, lo, hi);
        }
        broadcast use vstd::std_specs::bits::axiom_u64_leading_zeros;
        broadcast use lemma_bit_range;

        assert(forall|v: u64| #[trigger] (v & 1u64) != 0 ==> v & 1u64 == 1) by (bit_vector);
        if hi != 0 {
            let n: u32 = hi.leading_zeros();
            let r = Square((127 - n) as u8);
            proof {
                let k = (63 - n) as u64;
                assert((hi >> k) & 1u64 != 0);
                assert forall|j: int| r.0 < j implies !#[trigger] self.contains(j) by {
                    if j < 128 {
                        let k = (j - 64) as u64;
                        assert((hi >> k) & 1u64 == 0u64);
                    }
                }
            }
            r
        } else {
            let n: u32 = lo.leading_zeros();
            let r = Square((63 - n) as u8);
            proof {
                let k = (63 - n) as u64;
                assert((lo >> k) & 1u64 != 0);
                assert forall|j: int| r.0 < j implies !#[trigger] self.contains(j) by {
                    if j < 64 {
                        let k = j as u64;
                        assert((lo >> k) & 1u64 == 0u64);
                    } else if j < 128 {
                        let k = (j - 64) as u64;
                        assert((0u64 >> k) & 1u64 == 0u64) by (bit_vector);
                    }
                }
            }
            r
        }
    }

    /// Removes and returns the lowest set square.
    pub fn pop(&mut self) -> (r: Square)
        requires
            old(self).0 != 0,
        ensures
            r.0 < 128,
            old(self).contains(r.0 as int),
            forall|j: int| 0 <= j < r.0 ==> !#[trigger] old(self).contains(j),
            forall|j: int| #[trigger]
                final(self).contains(j) <==> old(self).contains(j) && j != r.0,
            old(self).members().len() > 0,
            r.0 == old(self).members()[0],
            final(self).members() == old(self).members().drop_first(),
            old(self).members() == seq![r.0 as int] + final(self).members(),
    {
        let s = self.lsb();
        let ghost x = self.0;
        let ghost l = s.0 as u128;
        proof {
            broadcast use group_bits;

            assert forall|i: int| bit(x & ((1u128 << l) - 1) as u128, i) == bit(0, i) by {
                lemma_bit_low_mask(l, i);
            }
            lemma_bits_equal(x & ((1u128 << l) - 1) as u128, 0);
            lemma_bit_low_mask(l, 0);
            let m = ((1u128 << l) - 1) as u128;
            reveal(bit);
            assert(x & ((x - 1) as u128) == x & !(1u128 << l)) by (bit_vector)
                requires
                    x != 0,
                    l < 128,
                    m == (1u128 << l) - 1,
                    x & m == 0,
                    x & (1u128 << l) != 0,
            ;
        }
        self.0 = self.0 & (self.0 - 1);
        proof {
            broadcast use group_bits;

            lemma_squares_pop(x, l as int, self.0);
        }
        s
    }

    /// The next square in ascending order, taken out of the set.
    pub fn next(&mut self) -> (r: Option<Square>)
        ensures
            r is None <==> old(self).0 == 0,
            r is None ==> *final(self) == *old(self),
            r matches Some(s) ==> s.0 < 128 && old(self).members() == seq![s.0 as int] + final(self).members(),
    {
        if self.0 == 0 {
            None
        } else {
            Some(self.pop())
        }
    }

    pub fn more_than_one(self) -> (r: bool)
        ensures
            r == (self.members().len() > 1),
    {
        if self.0 == 0 {
            proof {
                lemma_squares_empty(0);
            }
            false
        } else {
            let mut x = self;
            x.pop();
            proof {
                lemma_squares_empty(x.0);
            }
            x.0 != 0
        }
    }

    // The eight directional shifts. The board mask is applied wherever a square
    // can leave the top of the board; the southward shifts and `east`/`west`
    // cannot produce a bit above 99 from a clean input.
    pub fn north(self) -> (r: SquareSet)
        ensures
            forall|i: int| #[trigger] r.contains(i) <==> i < 100 && self.contains(i - 10),
    {
        broadcast use group_bits;

        proof {
            assert forall|i: int| bit(BOARD_BITS, i) <==> 0 <= i < 100 by {
                lemma_board_bits(i);
            }
        }
        SquareSet((self.0 << 10u128) & BOARD_BITS)
    }

    pub fn south(self) -> (r: SquareSet)
        ensures
            forall|i: int| #[trigger] r.contains(i) <==> 0 <= i && self.contains(i + 10),
    {
        broadcast use group_bits;

        SquareSet(self.0 >> 10u128)
    }

    pub fn east(self) -> (r: SquareSet)
        requires
            self.on_board(),
        ensures
            forall|i: int| #[trigger]
                r.contains(i) <==> self.contains(i - 1) && (i - 1) % 10 != 9,
    {
        broadcast use group_bits;

        proof {
            assert forall|i: int| #[trigger] bit(FILE_J_BITS, i) <==> 0 <= i < 100 && i % 10 == 9 by {
                lemma_file_bits(i);
            }
        }
        SquareSet((self.0 & !FILE_J_BITS) << 1u128)
    }

    pub fn west(self) -> (r: SquareSet)
        requires
            self.on_board(),
        ensures
            forall|i: int| #[trigger]
                r.contains(i) <==> 0 <= i && self.contains(i + 1) && (i + 1) % 10 != 0,
    {
        broadcast use group_bits;

        proof {
            assert forall|i: int| #[trigger] bit(FILE_A_BITS, i) <==> 0 <= i < 100 && i % 10 == 0 by {
                lemma_file_bits(i);
            }
        }
        SquareSet((self.0 & !FILE_A_BITS) >> 1u128)
    }

    pub fn north_east(self) -> (r: SquareSet)
        requires
            self.on_board(),
        ensures
            forall|i: int| #[trigger]
                r.contains(i) <==> i < 100 && self.contains(i - 11) && (i - 11) % 10 != 9,
    {
        broadcast use group_bits;

        proof {
            assert forall|i: int| #[trigger] bit(FILE_J_BITS, i) <==> 0 <= i < 100 && i % 10 == 9 by {
                lemma_file_bits(i);
            }
            assert forall|i: int| #[trigger] bit(BOARD_BITS, i) <==> 0 <= i < 100 by {
                lemma_board_bits(i);
            }
        }
        SquareSet(((self.0 & !FILE_J_BITS) << 11u128) & BOARD_BITS)
    }

    pub fn north_west(self) -> (r: SquareSet)
        requires
            self.on_board(),
        ensures
            forall|i: int| #[trigger]
                r.contains(i) <==> i < 100 && self.contains(i - 9) && (i - 9) % 10 != 0,
    {
        broadcast use group_bits;

        proof {
            assert forall|i: int| #[trigger] bit(FILE_A_BITS, i) <==> 0 <= i < 100 && i % 10 == 0 by {
                lemma_file_bits(i);
            }
            assert forall|i: int| #[trigger] bit(BOARD_BITS, i) <==> 0 <= i < 100 by {
                lemma_board_bits(i);
            }
        }
        SquareSet(((self.0 & !FILE_A_BITS) << 9u128) & BOARD_BITS)
    }

    pub fn south_east(self) -> (r: SquareSet)
        requires
            self.on_board(),
        ensures
            forall|i: int| #[trigger]
                r.contains(i) <==> 0 <= i && self.contains(i + 9) && (i + 9) % 10 != 9,
    {
        broadcast use group_bits;

        proof {
            assert forall|i: int| #[trigger] bit(FILE_J_BITS, i) <==> 0 <= i < 100 && i % 10 == 9 by {
                lemma_file_bits(i);
            }
        }
        SquareSet((self.0 & !FILE_J_BITS) >> 9u128)
    }

    pub fn south_west(self) -> (r: SquareSet)
        requires
            self.on_board(),
        ensures
            forall|i: int| #[trigger]
                r.contains(i) <==> 0 <= i && self.contains(i + 11) && (i + 11) % 10 != 0,
    {
        broadcast use group_bits;

        proof {
            assert forall|i: int| #[trigger] bit(FILE_A_BITS, i) <==> 0 <= i < 100 && i % 10 == 0 by {
                lemma_file_bits(i);
            }
        }
        SquareSet((self.0 & !FILE_A_BITS) >> 11u128)
    }

    /// One step forward for `c`.
    pub fn forward(self, c: Color) -> (r: SquareSet)
        ensures
            forall|i: int| #[trigger]
                r.contains(i) <==> match c {
                    Color::White => i < 100 && self.contains(i - 10),
                    Color::Black => 0 <= i && self.contains(i + 10),
                },
    {
        match c {
            Color::White => self.north(),
            Color::Black => self.south(),
        }
    }

    /// The squares attacked by pawns of colour `c` standing on this set.
    pub fn pawn_attacks(self, c: Color) -> (r: SquareSet)
        requires
            self.on_board(),
        ensures
            forall|i: int| #[trigger]
                r.contains(i) <==> match c {
                    Color::White => i < 100 && ((self.contains(i - 11) && (i - 11) % 10 != 9) || (
                    self.contains(i - 9) && (i - 9) % 10 != 0)),
                    Color::Black => 0 <= i && ((self.contains(i + 9) && (i + 9) % 10 != 9) || (
                    self.contains(i + 11) && (i + 11) % 10 != 0)),
                },
    {
        broadcast use group_bits;

        match c {
            Color::White => SquareSet(self.north_east().0 | self.north_west().0),
            Color::Black => SquareSet(self.south_east().0 | self.south_west().0),
        }
    }
}

/// The two halves of a word hold its bits.
proof fn lemma_halves(x: u128, lo: u64, hi: u64)
    requires
        lo == (x & 0xFFFF_FFFF_FFFF_FFFF) as u64,
        hi == (x >> 64) as u64,
    ensures
        forall|k: u64| k < 64 ==> (#[trigger] ((lo >> k) & 1u64) == 1u64) == bit(x, k as int),
        forall|k: u64| k < 64 ==> (#[trigger] ((hi >> k) & 1u64) == 1u64) == bit(x, k + 64),
        forall|j: int| 0 <= j < 64 ==> #[trigger] bit(x, j) == ((lo >> (j as u64)) & 1u64 == 1u64),
        forall|j: int|
            64 <= j < 128 ==> #[trigger] bit(x, j) == ((hi >> ((j - 64) as u64)) & 1u64 == 1u64),
        x != 0 ==> lo != 0 || hi != 0,
{
    reveal(bit);
    assert(x != 0 ==> lo != 0 || hi != 0) by (bit_vector)
        requires
            lo == (x & 0xFFFF_FFFF_FFFF_FFFF) as u64,
            hi == (x >> 64) as u64,
    ;
    assert forall|k: u64| k < 64 implies (#[trigger] ((lo >> k) & 1u64) == 1u64) == bit(
        x,
        k as int,
    ) by {
        let j = k as u128;
        assert(((lo >> k) & 1u64 == 1u64) == (x & (1u128 << j) != 0)) by (bit_vector)
            requires
                lo == (x & 0xFFFF_FFFF_FFFF_FFFF) as u64,
                k < 64,
                j == k as u128,
        ;
    }
    assert forall|k: u64| k < 64 implies (#[trigger] ((hi >> k) & 1u64) == 1u64) == bit(
        x,
        k + 64,
    ) by {
        let j = (k + 64) as u128;
        assert(((hi >> k) & 1u64 == 1u64) == (x & (1u128 << j) != 0)) by (bit_vector)
            requires
                hi == (x >> 64) as u64,
                k < 64,
                j == k + 64,
        ;
    }
    assert forall|j: int| 0 <= j < 64 implies #[trigger] bit(x, j) == ((lo >> (j as u64)) & 1u64
        == 1u64) by {
        let k = j as u64;
        assert(((lo >> k) & 1u64 == 1u64) == bit(x, k as int));
    }
    assert forall|j: int| 64 <= j < 128 implies #[trigger] bit(x, j) == ((hi >> ((j - 64) as u64))
        & 1u64 == 1u64) by {
        let k = (j - 64) as u64;
        assert(((hi >> k) & 1u64 == 1u64) == bit(x, k + 64));
    }
}

pub proof fn lemma_squares_bound(x: u128, lo: int)
    requires
        0 <= lo,
    ensures
        squares_from(x, lo).len() <= if lo <= 128 {
            128 - lo
        } else {
            0
        },
    decreases 128 - lo,
{
    if lo < 128 {
        lemma_squares_bound(x, lo + 1);
    }
}

// -- set operators --------------------------------------------------------------

impl core::ops::BitAnd for SquareSet {
    type Output = SquareSet;

    fn bitand(self, rhs: SquareSet) -> (r: SquareSet) {
        SquareSet(self.0 & rhs.0)
    }
}

impl vstd::std_specs::ops::BitAndSpecImpl for SquareSet {
    open spec fn obeys_bitand_spec() -> bool {
        true
    }

    open spec fn bitand_req(self, rhs: SquareSet) -> bool {
        true
    }

    open spec fn bitand_spec(self, rhs: SquareSet) -> SquareSet {
        SquareSet(self.0 & rhs.0)
    }
}

impl core::ops::BitOr for SquareSet {
    type Output = SquareSet;

    fn bitor(self, rhs: SquareSet) -> (r: SquareSet) {
        SquareSet(self.0 | rhs.0)
    }
}

impl vstd::std_specs::ops::BitOrSpecImpl for SquareSet {
    open spec fn obeys_bitor_spec() -> bool {
        true
    }

    open spec fn bitor_req(self, rhs: SquareSet) -> bool {
        true
    }

    open spec fn bitor_spec(self, rhs: SquareSet) -> SquareSet {
        SquareSet(self.0 | rhs.0)
    }
}

impl core::ops::BitXor for SquareSet {
    type Output = SquareSet;

    fn bitxor(self, rhs: SquareSet) -> (r: SquareSet) {
        SquareSet(self.0 ^ rhs.0)
    }
}

impl vstd::std_specs::ops::BitXorSpecImpl for SquareSet {
    open spec fn obeys_bitxor_spec() -> bool {
        true
    }

    open spec fn bitxor_req(self, rhs: SquareSet) -> bool {
        true
    }

    open spec fn bitxor_spec(self, rhs: SquareSet) -> SquareSet {
        SquareSet(self.0 ^ rhs.0)
    }
}

/// Complement *within the board*: the high 28 bits stay clear, so that `!x` can
/// be used as a target mask without a further mask at every call site.
impl core::ops::Not for SquareSet {
    type Output = SquareSet;

    fn not(self) -> (r: SquareSet) {
        SquareSet(!self.0 & BOARD_BITS)
    }
}

impl vstd::std_specs::ops::NotSpecImpl for SquareSet {
    open spec fn obeys_not_spec() -> bool {
        true
    }

    open spec fn not_req(self) -> bool {
        true
    }

    open spec fn not_spec(self) -> SquareSet {
        SquareSet(!self.0 & BOARD_BITS)
    }
}

/// Set difference, `a - b`.
impl core::ops::Sub for SquareSet {
    type Output = SquareSet;

    fn sub(self, rhs: SquareSet) -> (r: SquareSet) {
        SquareSet(self.0 & !rhs.0)
    }
}

impl vstd::std_specs::ops::SubSpecImpl for SquareSet {
    open spec fn obeys_sub_spec() -> bool {
        true
    }

    open spec fn sub_req(self, rhs: SquareSet) -> bool {
        true
    }

    open spec fn sub_spec(self, rhs: SquareSet) -> SquareSet {
        SquareSet(self.0 & !rhs.0)
    }
}

} // verus!
