//! Zobrist hashing: one 64-bit key per piece and square, per en passant square,
//! and for the side to move, drawn from a fixed splitmix stream.

use vstd::prelude::*;
use crate::types::{Piece, Square};

verus! {

/// One draw from the splitmix stream in state `z`.
pub open spec fn splitmix_mix(z: u64) -> u64 {
    let a = (z ^ (z >> 30u64)).wrapping_mul(0xBF58_476D_1CE4_E5B9u64);
    let b = (a ^ (a >> 27u64)).wrapping_mul(0x94D0_49BB_1331_11EBu64);
    b ^ (b >> 31u64)
}

/// The state of the stream after `n` steps.
pub open spec fn splitmix_state(n: int) -> u64
    decreases n,
{
    if n <= 0 {
        0x1234_5678_9ABC_DEF0u64
    } else {
        splitmix_state(n - 1).wrapping_add(0x9E37_79B9_7F4A_7C15u64)
    }
}

/// Draw number `n` of the stream, counting from 0.
pub open spec fn draw(n: int) -> u64 {
    splitmix_mix(splitmix_state(n + 1))
}

/// The key of piece `p` (0 to 15) on square `s`.
#[verifier::opaque]
pub open spec fn psq_key(p: int, s: int) -> u64 {
    draw(100 * p + s)
}

/// The key of en passant square `s`.
#[verifier::opaque]
pub open spec fn ep_key(s: int) -> u64 {
    draw(1600 + s)
}

/// The key of Black being to move.
#[verifier::opaque]
pub open spec fn side_key() -> u64 {
    draw(1700)
}

/// Advances the stream and draws from it.
fn splitmix(x: &mut u64) -> (r: u64)
    ensures
        *final(x) == (*old(x)).wrapping_add(0x9E37_79B9_7F4A_7C15u64),
        r == splitmix_mix(*final(x)),
{
    *x = x.wrapping_add(0x9E37_79B9_7F4A_7C15);
    let mut z = *x;
    z = (z ^ (z >> 30u64)).wrapping_mul(0xBF58_476D_1CE4_E5B9);
    z = (z ^ (z >> 27u64)).wrapping_mul(0x94D0_49BB_1331_11EB);
    z ^ (z >> 31u64)
}

/// The hash keys.
pub struct Zobrist {
    keys: Vec<u64>,
}

impl Zobrist {
    /// The keys are the first draws of the stream.
    #[verifier::type_invariant]
    spec fn inv(self) -> bool {
        &&& self.keys.len() == 1701
        &&& forall|i: int| 0 <= i < 1701 ==> #[trigger] self.keys[i] == draw(i)
    }

    /// Key number `i`: first those of the pieces, then those of the en passant
    /// squares, then that of the side to move.
    pub closed spec fn key_at(&self, i: int) -> u64 {
        self.keys@[i]
    }

    /// Draws the keys.
    pub fn new() -> (r: Zobrist)
        ensures
            forall|i: int| 0 <= i < 1701 ==> #[trigger] r.key_at(i) == draw(i),
    {
        let mut seed: u64 = 0x1234_5678_9ABC_DEF0;
        let mut keys: Vec<u64> = Vec::new();
        let mut i: usize = 0;
        while i < 1701
            invariant
                i <= 1701,
                keys.len() == i,
                seed == splitmix_state(i as int),
                forall|j: int| 0 <= j < i ==> #[trigger] keys[j] == draw(j),
            decreases 1701 - i,
        {
            let k = splitmix(&mut seed);
            assert(splitmix_state(i + 1) == splitmix_state(i as int).wrapping_add(
                0x9E37_79B9_7F4A_7C15u64,
            ));
            keys.push(k);
            i = i + 1;
        }
        Zobrist { keys }
    }

    /// The key of a piece on a square.
    pub fn psq(&self, p: Piece, s: Square) -> (r: u64)
        requires
            p.valid(),
            s.valid(),
        ensures
            r == psq_key(p.0 as int, s.0 as int),
    {
        proof {
            use_type_invariant(self);
            reveal(psq_key);
        }
        self.keys[p.idx() * 100 + s.idx()]
    }

    /// The key of an en passant square.
    pub fn ep(&self, s: Square) -> (r: u64)
        requires
            s.valid(),
        ensures
            r == ep_key(s.0 as int),
    {
        proof {
            use_type_invariant(self);
            reveal(ep_key);
        }
        self.keys[1600 + s.idx()]
    }

    /// The key of Black being to move.
    pub fn side(&self) -> (r: u64)
        ensures
            r == side_key(),
    {
        proof {
            use_type_invariant(self);
            reveal(side_key);
        }
        self.keys[1700]
    }
}

} // verus!
