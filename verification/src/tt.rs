//! Transposition table.
//!
//! The table is shared between threads without locks: each slot is two words, and
//! the first is the position key combined with the second, so that a torn pair
//! does not match. What a load returns is whatever another thread last left
//! there; every decision is taken on a copy of one bucket.

use vstd::prelude::*;
use crate::history::clamp_to;
use crate::position::lemma_xor;
use crate::types::Move;
use std::sync::atomic::{AtomicU64, AtomicU8, Ordering};

verus! {

pub const BOUND_NONE: u8 = 0;

pub const BOUND_UPPER: u8 = 1;

pub const BOUND_LOWER: u8 = 2;

pub const BOUND_EXACT: u8 = 3;

/// The evaluation that stands for "none"; no score lies beyond it.
pub const VALUE_NONE: i32 = 32002;

const ENTRIES_PER_BUCKET: usize = 4;

// -- one slot -----------------------------------------------------------------------

/// What a slot records.
#[derive(Clone, Copy)]
pub struct Hit {
    pub mv: Move,
    pub score: i32,
    pub eval: i32,
    pub depth: i32,
    pub bound: u8,
    pub was_pv: bool,
}

/// A signed 16-bit number as an unsigned one, and back.
pub open spec fn unsigned16(x: int) -> int {
    if x < 0 {
        x + 65536
    } else {
        x
    }
}

pub open spec fn signed16(x: int) -> int {
    if x >= 32768 {
        x - 65536
    } else {
        x
    }
}

/// The data word: 18 bits of move, 16 of score, 16 of evaluation, 8 of depth, 2 of
/// bound, the variation flag, and 3 of generation.
pub open spec fn packed(mv: int, score: int, eval: int, depth: int, bound: int, gen: int, pv: bool) -> int {
    mv + unsigned16(score) * 0x4_0000 + unsigned16(eval) * 0x4_0000_0000 + depth
        * 0x4_0000_0000_0000 + bound * 0x400_0000_0000_0000 + (if pv {
        0x1000_0000_0000_0000int
    } else {
        0
    }) + gen * 0x2000_0000_0000_0000
}

fn pack(mv: Move, score: i16, eval: i16, depth: u8, bound: u8, gen: u8, pv: bool) -> (r: u64)
    requires
        mv.compact(),
        bound < 4,
        gen < 8,
    ensures
        r == packed(mv.0 as int, score as int, eval as int, depth as int, bound as int, gen as int, pv),
{
    let s: u64 = if score < 0 {
        (score as i32 + 65536) as u64
    } else {
        score as u64
    };
    let e: u64 = if eval < 0 {
        (eval as i32 + 65536) as u64
    } else {
        eval as u64
    };
    let p: u64 = if pv {
        0x1000_0000_0000_0000
    } else {
        0
    };
    mv.0 as u64 + s * 0x4_0000 + e * 0x4_0000_0000 + depth as u64 * 0x4_0000_0000_0000
        + bound as u64 * 0x400_0000_0000_0000 + p + gen as u64 * 0x2000_0000_0000_0000
}

/// The generation of a data word.
#[verifier::allow_in_spec]
pub fn unpack_gen(d: u64) -> u8
    returns
        (d / 0x2000_0000_0000_0000) as u8,
{
    (d / 0x2000_0000_0000_0000) as u8
}

/// What a data word says.
pub open spec fn unpacked(d: u64) -> Hit {
    Hit {
        mv: Move((d % 0x4_0000) as u32),
        score: signed16((d / 0x4_0000 % 0x1_0000) as int) as i32,
        eval: signed16((d / 0x4_0000_0000 % 0x1_0000) as int) as i32,
        depth: (d / 0x4_0000_0000_0000 % 0x100) as i32,
        bound: (d / 0x400_0000_0000_0000 % 4) as u8,
        was_pv: d / 0x1000_0000_0000_0000 % 2 == 1,
    }
}

/// What holds of every reply of the table.
pub open spec fn hit_ok(h: Hit) -> bool {
    &&& h.mv.compact()
    &&& -32768 <= h.score <= 32767
    &&& -32768 <= h.eval <= 32767
    &&& 0 <= h.depth <= 255
    &&& h.bound <= 3
}

fn as_signed(x: u64) -> (r: i32)
    requires
        x < 65536,
    ensures
        r == signed16(x as int),
{
    if x >= 32768 {
        x as i32 - 65536
    } else {
        x as i32
    }
}

pub fn unpack(d: u64) -> (r: Hit)
    ensures
        r == unpacked(d),
        hit_ok(r),
{
    Hit {
        mv: Move((d % 0x4_0000) as u32),
        score: as_signed(d / 0x4_0000 % 0x1_0000),
        eval: as_signed(d / 0x4_0000_0000 % 0x1_0000),
        depth: (d / 0x4_0000_0000_0000 % 0x100) as i32,
        bound: (d / 0x400_0000_0000_0000 % 4) as u8,
        was_pv: d / 0x1000_0000_0000_0000 % 2 == 1,
    }
}

/// Law: reading a data word gives back what was written into it.
pub proof fn unpack_gives_back(d: u64, mv: Move, score: i16, eval: i16, depth: u8, bound: u8, gen: u8, pv: bool)
    requires
        mv.compact(),
        bound < 4,
        gen < 8,
        d == packed(mv.0 as int, score as int, eval as int, depth as int, bound as int, gen as int, pv),
    ensures
        unpacked(d) == (Hit {
            mv,
            score: score as i32,
            eval: eval as i32,
            depth: depth as i32,
            bound,
            was_pv: pv,
        }),
        d / 0x2000_0000_0000_0000 == gen,
{
    let m = mv.0 as int;
    let us = unsigned16(score as int);
    let ue = unsigned16(eval as int);
    let p: int = if pv {
        1
    } else {
        0
    };
    let h61 = gen as int;
    let h60 = p + 2 * h61;
    let h58 = bound + 4 * h60;
    let h50 = depth + 256 * h58;
    let h34 = ue + 65536 * h50;
    let h18 = us + 65536 * h34;
    let l34 = m + 0x4_0000 * us;
    let l50 = l34 + 0x4_0000_0000 * ue;
    let l58 = l50 + 0x4_0000_0000_0000 * depth;
    let l60 = l58 + 0x400_0000_0000_0000 * bound;
    let l61 = l60 + 0x1000_0000_0000_0000 * p;
    lemma_cut(d as int, m, 0x4_0000, h18);
    lemma_cut(d as int, l34, 0x4_0000_0000, h34);
    lemma_cut(d as int, l50, 0x4_0000_0000_0000, h50);
    lemma_cut(d as int, l58, 0x400_0000_0000_0000, h58);
    lemma_cut(d as int, l60, 0x1000_0000_0000_0000, h60);
    lemma_cut(d as int, l61, 0x2000_0000_0000_0000, h61);
    lemma_cut(h18, us, 65536, h34);
    lemma_cut(h34, ue, 65536, h50);
    lemma_cut(h50, depth as int, 256, h58);
    lemma_cut(h58, bound as int, 4, h60);
    lemma_cut(h60, p, 2, h61);
}

/// A number given by its quotient and remainder.
proof fn lemma_cut(d: int, low: int, b: int, high: int)
    requires
        d == low + b * high,
        0 <= low < b,
    ensures
        d / b == high,
        d % b == low,
{
    assert(b * high == high * b) by (nonlinear_arith);
    vstd::arithmetic::div_mod::lemma_fundamental_div_mod_converse(d, b, high, low);
}

/// A data word with its generation replaced.
pub open spec fn aged(d: u64, gen: int) -> int {
    d % 0x2000_0000_0000_0000 + gen * 0x2000_0000_0000_0000
}

// -- one bucket ---------------------------------------------------------------------

/// A copy of a bucket.
#[derive(Clone, Copy)]
pub struct Slots {
    pub key: [u64; 4],
    pub data: [u64; 4],
}

impl Slots {
    /// Slot `i` holds an entry for `key`.
    pub open spec fn matches_at(&self, i: int, key: u64) -> bool {
        self.key[i] ^ self.data[i] == key && self.data[i] != 0
    }

    /// The first slot with an entry for `key`.
    pub open spec fn found(&self, key: u64) -> Option<int> {
        if self.matches_at(0, key) {
            Some(0int)
        } else if self.matches_at(1, key) {
            Some(1)
        } else if self.matches_at(2, key) {
            Some(2)
        } else if self.matches_at(3, key) {
            Some(3)
        } else {
            None
        }
    }

    /// What the bucket says about `key`.
    pub open spec fn answer(&self, key: u64) -> Option<Hit> {
        match self.found(key) {
            Some(i) => Some(unpacked(self.data[i])),
            None => None,
        }
    }

    /// Finds the entry for `key`.
    pub fn find(&self, key: u64) -> (r: Option<usize>)
        ensures
            match r {
                Some(i) => i < 4 && self.found(key) == Some(i as int),
                None => self.found(key) is None,
            },
    {
        let mut i: usize = 0;
        while i < ENTRIES_PER_BUCKET
            invariant
                i <= 4,
                forall|j: int| 0 <= j < i ==> !#[trigger] self.matches_at(j, key),
            decreases 4 - i,
        {
            if self.key[i] ^ self.data[i] == key && self.data[i] != 0 {
                assert(self.matches_at(i as int, key));
                return Some(i);
            }
            i += 1;
        }
        None
    }

    /// Slot `i` is empty or holds an entry for `key`.
    pub open spec fn takes_at(&self, i: int, key: u64) -> bool {
        self.data[i] == 0 || self.key[i] ^ self.data[i] == key
    }

    /// How much slot `i` is worth keeping: its depth, less three for each
    /// generation of age.
    pub open spec fn worth(&self, i: int, gen: int) -> int {
        unpacked(self.data[i]).depth - (gen + 8 - unpack_gen(self.data[i])) % 8 * 3
    }

    /// Slot `i` is the one to write: the first that is empty or holds `key`, or
    /// else the first of those least worth keeping.
    pub open spec fn is_target(&self, i: int, key: u64, gen: int) -> bool {
        &&& 0 <= i < 4
        &&& if self.takes_at(i, key) {
            forall|j: int| 0 <= j < i ==> !#[trigger] self.takes_at(j, key)
        } else {
            &&& forall|j: int| 0 <= j < 4 ==> !#[trigger] self.takes_at(j, key)
            &&& forall|j: int| 0 <= j < 4 ==> self.worth(i, gen) <= #[trigger] self.worth(j, gen)
            &&& forall|j: int| 0 <= j < i ==> self.worth(i, gen) < #[trigger] self.worth(j, gen)
        }
    }

    /// Chooses the slot to write.
    pub fn target(&self, key: u64, gen: u8) -> (r: usize)
        requires
            gen < 8,
        ensures
            self.is_target(r as int, key, gen as int),
    {
        let mut slot: usize = 0;
        let mut worst: i32 = i32::MAX;
        let mut i: usize = 0;
        while i < ENTRIES_PER_BUCKET
            invariant
                i <= 4,
                gen < 8,
                slot < 4,
                i == 0 ==> worst == i32::MAX && slot == 0,
                i > 0 ==> slot < i && worst == self.worth(slot as int, gen as int),
                forall|j: int| 0 <= j < i ==> !#[trigger] self.takes_at(j, key),
                forall|j: int| 0 <= j < i ==> worst <= #[trigger] self.worth(j, gen as int),
                forall|j: int| 0 <= j < slot ==> worst < #[trigger] self.worth(j, gen as int),
            decreases 4 - i,
        {
            let data = self.data[i];
            if data == 0 || self.key[i] ^ data == key {
                assert(self.takes_at(i as int, key));
                return i;
            }
            assert(!self.takes_at(i as int, key));
            // Prefer to overwrite shallow and stale entries.
            let age: i32 = (gen as i32 + 8 - unpack_gen(data) as i32) % 8 * 3;
            let value: i32 = unpack(data).depth - age;
            assert(value == self.worth(i as int, gen as int));
            if value < worst {
                worst = value;
                slot = i;
            }
            i += 1;
        }
        slot
    }

    /// A deeper entry for the same position is kept, unless the new one is exact
    /// or noticeably deeper, or the old one is from an earlier search.
    pub open spec fn keeps(&self, i: int, key: u64, depth: int, bound: u8, gen: int) -> bool {
        &&& self.takes_at(i, key)
        &&& self.data[i] != 0
        &&& bound != BOUND_EXACT
        &&& depth + 4 < unpacked(self.data[i]).depth
        &&& unpack_gen(self.data[i]) == gen
    }

    /// The move to record: a missing one does not wipe out the one recorded for
    /// the same position.
    pub open spec fn move_for(&self, i: int, key: u64, mv: Move) -> Move {
        if mv.is_none() && self.key[i] ^ self.data[i] == key {
            unpacked(self.data[i]).mv
        } else {
            mv
        }
    }

    /// The data word that a store writes into slot `i`.
    pub open spec fn word_for(
        &self,
        i: int,
        key: u64,
        mv: Move,
        score: int,
        eval: int,
        depth: int,
        bound: u8,
        gen: int,
        pv: bool,
    ) -> int {
        packed(
            self.move_for(i, key, mv).0 as int,
            clamp_to(score, -32002, 32002),
            clamp_to(eval, -32002, 32002),
            clamp_to(depth, 0, 255),
            bound as int,
            gen,
            pv,
        )
    }

    /// `p` is what a store comes to: the slot and its two new words, or nothing.
    pub open spec fn plans_store(
        &self,
        key: u64,
        mv: Move,
        score: i32,
        eval: i32,
        depth: i32,
        bound: u8,
        gen: u8,
        was_pv: bool,
        p: Option<(usize, u64, u64)>,
    ) -> bool {
        match p {
            None => exists|i: int| #[trigger]
                self.is_target(i, key, gen as int) && self.keeps(
                    i,
                    key,
                    depth as int,
                    bound,
                    gen as int,
                ),
            Some((slot, k, d)) => {
                &&& self.is_target(slot as int, key, gen as int)
                &&& slot < 4
                &&& !self.keeps(slot as int, key, depth as int, bound, gen as int)
                &&& d == self.word_for(
                    slot as int,
                    key,
                    mv,
                    score as int,
                    eval as int,
                    depth as int,
                    bound,
                    gen as int,
                    was_pv,
                )
                &&& k == key ^ d
            },
        }
    }

    /// Decides a store: the slot and its two new words, or nothing.
    pub fn plan_store(
        &self,
        key: u64,
        mv: Move,
        score: i32,
        eval: i32,
        depth: i32,
        bound: u8,
        gen: u8,
        was_pv: bool,
    ) -> (r: Option<(usize, u64, u64)>)
        requires
            mv.compact(),
            bound < 4,
            gen < 8,
            depth <= i32::MAX - 4,
        ensures
            self.plans_store(key, mv, score, eval, depth, bound, gen, was_pv, r),
    {
        let slot = self.target(key, gen);
        let data = self.data[slot];
        let same = self.key[slot] ^ data == key;
        if (data == 0 || same) && data != 0 && bound != BOUND_EXACT && depth + 4 < unpack(data).depth
            && unpack_gen(data) == gen {
            return None;
        }
        let mv = if mv.is_none() && same {
            unpack(data).mv
        } else {
            mv
        };
        // `VALUE_NONE` is an eval-only sentinel, not a mate score. It must
        // survive a store so readers cannot mistake it for a mate.
        let word = pack(
            mv,
            clamp16(score),
            clamp16(eval),
            if depth < 0 {
                0
            } else if depth > 255 {
                255
            } else {
                depth as u8
            },
            bound,
            gen,
            was_pv,
        );
        Some((slot, key ^ word, word))
    }

    /// What a probe in generation `gen` writes back: the entry it found, made
    /// young again where it was of another generation.
    pub open spec fn refreshed(&self, key: u64, gen: u8) -> Option<(usize, u64, u64)> {
        match self.found(key) {
            Some(i) => if unpack_gen(self.data[i]) != gen {
                let d = aged(self.data[i], gen as int) as u64;
                Some((i as usize, key ^ d, d))
            } else {
                None
            },
            None => None,
        }
    }

    /// Decides the refreshing of slot `i`, where `key` was found: the slot's two
    /// new words, or nothing. A useful entry so survives replacement.
    pub fn plan_refresh(&self, i: usize, key: u64, gen: u8) -> (r: Option<(usize, u64, u64)>)
        requires
            i < 4,
            self.found(key) == Some(i as int),
            gen < 8,
        ensures
            r == self.refreshed(key, gen),
    {
        let data = self.data[i];
        if unpack_gen(data) != gen {
            let nd: u64 = data % 0x2000_0000_0000_0000 + gen as u64 * 0x2000_0000_0000_0000;
            Some((i, key ^ nd, nd))
        } else {
            None
        }
    }
}

fn clamp16(x: i32) -> (r: i16)
    ensures
        r == clamp_to(x as int, -32002, 32002),
{
    if x < -VALUE_NONE {
        -32002
    } else if x > VALUE_NONE {
        32002
    } else {
        x as i16
    }
}

/// Law: what a store wrote, a probe of the same position gives back, with the
/// score and evaluation within the clamp. (A word of all zeros stands for an empty
/// slot.)
pub proof fn store_then_probe(
    s: Slots,
    after: Slots,
    slot: int,
    key: u64,
    mv: Move,
    score: i32,
    eval: i32,
    depth: i32,
    bound: u8,
    gen: u8,
    pv: bool,
    d: u64,
)
    requires
        mv.compact(),
        bound < 4,
        gen < 8,
        s.is_target(slot, key, gen as int),
        d == s.word_for(slot, key, mv, score as int, eval as int, depth as int, bound, gen as int, pv),
        d != 0,
        after.key@ == s.key@.update(slot, key ^ d),
        after.data@ == s.data@.update(slot, d),
    ensures
        after.answer(key) == Some(
            Hit {
                mv: s.move_for(slot, key, mv),
                score: clamp_to(score as int, -32002, 32002) as i32,
                eval: clamp_to(eval as int, -32002, 32002) as i32,
                depth: clamp_to(depth as int, 0, 255) as i32,
                bound,
                was_pv: pv,
            },
        ),
{
    lemma_xor(key, d, 0);
    assert(after.matches_at(slot, key));
    assert forall|j: int| 0 <= j < slot implies !#[trigger] after.matches_at(j, key) by {
        assert(!s.takes_at(j, key));
        assert(after.key[j] == s.key[j] && after.data[j] == s.data[j]);
    }
    assert(after.found(key) == Some(slot));
    unpack_gives_back(
        d,
        s.move_for(slot, key, mv),
        clamp_to(score as int, -32002, 32002) as i16,
        clamp_to(eval as int, -32002, 32002) as i16,
        clamp_to(depth as int, 0, 255) as u8,
        bound,
        gen,
        pv,
    );
}

/// Law: refreshing the generation of an entry keeps everything else, and a probe
/// of its position still finds it.
pub proof fn refresh_keeps_the_entry(d: u64, gen: u8, nd: u64)
    requires
        gen < 8,
        nd == aged(d, gen as int),
    ensures
        unpacked(nd) == unpacked(d),
        nd / 0x2000_0000_0000_0000 == gen,
{
    let low = (d % 0x2000_0000_0000_0000) as int;
    lemma_cut(nd as int, low, 0x2000_0000_0000_0000, gen as int);
    lemma_low_field(d as int, 0x4_0000, 0x800_0000_0000);
    lemma_low_field(nd as int, 0x4_0000, 0x800_0000_0000);
    lemma_low_field(d as int, 0x4_0000_0000, 0x800_0000);
    lemma_low_field(nd as int, 0x4_0000_0000, 0x800_0000);
    lemma_low_field(d as int, 0x4_0000_0000_0000, 0x800);
    lemma_low_field(nd as int, 0x4_0000_0000_0000, 0x800);
    lemma_low_field(d as int, 0x400_0000_0000_0000, 8);
    lemma_low_field(nd as int, 0x400_0000_0000_0000, 8);
    lemma_low_field(d as int, 0x1000_0000_0000_0000, 2);
    lemma_low_field(nd as int, 0x1000_0000_0000_0000, 2);
    let x = low / 0x4_0000;
    lemma_mod_part(d as int / 0x4_0000, x, 65536, 0x800_0000);
    lemma_mod_part(nd as int / 0x4_0000, x, 65536, 0x800_0000);
    let x = low / 0x4_0000_0000;
    lemma_mod_part(d as int / 0x4_0000_0000, x, 65536, 0x800);
    lemma_mod_part(nd as int / 0x4_0000_0000, x, 65536, 0x800);
    let x = low / 0x4_0000_0000_0000;
    lemma_mod_part(d as int / 0x4_0000_0000_0000, x, 256, 8);
    lemma_mod_part(nd as int / 0x4_0000_0000_0000, x, 256, 8);
    let x = low / 0x400_0000_0000_0000;
    lemma_mod_part(d as int / 0x400_0000_0000_0000, x, 4, 2);
    lemma_mod_part(nd as int / 0x400_0000_0000_0000, x, 4, 2);
    lemma_mod_part(d as int, low, 0x4_0000, 0x800_0000_0000);
    lemma_mod_part(nd as int, low, 0x4_0000, 0x800_0000_0000);
}

/// `n` is `s` with the planned words written, if there are any.
pub open spec fn is_carried_out(s: Slots, p: Option<(usize, u64, u64)>, n: Slots) -> bool {
    match p {
        Some((slot, k, d)) => {
            &&& n.key@ == s.key@.update(slot as int, k)
            &&& n.data@ == s.data@.update(slot as int, d)
        },
        None => n == s,
    }
}

/// Law: a probe leaves its own answer as it is, and makes it young. (An entry that
/// is all zeros but for its generation would become an empty slot.)
pub proof fn a_probe_keeps_the_answer(s: Slots, n: Slots, key: u64, gen: u8)
    requires
        gen < 8,
        s.found(key) matches Some(i) ==> s.data[i] % 0x2000_0000_0000_0000 != 0,
        is_carried_out(s, s.refreshed(key, gen), n),
    ensures
        n.answer(key) == s.answer(key),
        n.found(key) == s.found(key),
        s.found(key) matches Some(i) ==> unpack_gen(n.data[i]) == gen,
{
    if let Some(i) = s.found(key) {
        if unpack_gen(s.data[i]) != gen {
            let nd = aged(s.data[i], gen as int) as u64;
            assert(aged(s.data[i], gen as int) < 0x1_0000_0000_0000_0000);
            refresh_keeps_the_entry(s.data[i], gen, nd);
            lemma_xor(key, nd, 0);
            assert(n.data[i] == nd && n.key[i] == key ^ nd);
            assert(s.data[i] != 0);
            assert(unpack_gen(nd) == gen);
            assert(n.matches_at(i, key));
            assert forall|j: int| 0 <= j < i implies !#[trigger] n.matches_at(j, key) by {
                assert(n.key[j] == s.key[j] && n.data[j] == s.data[j]);
                assert(!s.matches_at(j, key));
            }
        }
    }
}

/// An empty bucket, and what stores with a bound and probes make of one: entries have
/// a bound, and no slot is empty before one that is not.
pub open spec fn is_tidy(s: Slots) -> bool {
    &&& forall|i: int|
        0 <= i < 4 && #[trigger] s.data[i] != 0 ==> unpacked(s.data[i]).bound != 0
    &&& forall|i: int, j: int|
        0 <= i < j < 4 && #[trigger] s.data[j] != 0 ==> #[trigger] s.data[i] != 0
}

/// Law: a bucket with nothing in it is tidy.
pub proof fn an_empty_bucket_is_tidy(s: Slots)
    requires
        forall|i: int| 0 <= i < 4 ==> #[trigger] s.data[i] == 0,
    ensures
        is_tidy(s),
{
}

/// Law: a store with a bound leaves a tidy bucket tidy.
pub proof fn a_store_keeps_the_bucket_tidy(
    s: Slots,
    n: Slots,
    key: u64,
    mv: Move,
    score: i32,
    eval: i32,
    depth: i32,
    bound: u8,
    gen: u8,
    pv: bool,
    p: Option<(usize, u64, u64)>,
)
    requires
        is_tidy(s),
        mv.compact(),
        1 <= bound < 4,
        gen < 8,
        s.plans_store(key, mv, score, eval, depth, bound, gen, pv, p),
        is_carried_out(s, p, n),
    ensures
        is_tidy(n),
{
    if let Some((slot, k, d)) = p {
        let m = s.move_for(slot as int, key, mv);
        unpack_gives_back(
            d,
            m,
            clamp_to(score as int, -32002, 32002) as i16,
            clamp_to(eval as int, -32002, 32002) as i16,
            clamp_to(depth as int, 0, 255) as u8,
            bound,
            gen,
            pv,
        );
        assert(unpacked(0).bound == 0);
        assert(n.data[slot as int] == d && d != 0);
        assert forall|i: int| 0 <= i < 4 && #[trigger] n.data[i] != 0 implies unpacked(
            n.data[i],
        ).bound != 0 by {
            if i != slot {
                assert(n.data[i] == s.data[i]);
            }
        }
        assert forall|i: int, j: int|
            0 <= i < j < 4 && #[trigger] n.data[j] != 0 implies #[trigger] n.data[i] != 0 by {
            if i != slot {
                assert(n.data[i] == s.data[i]);
                if j != slot {
                    assert(n.data[j] == s.data[j]);
                } else {
                    assert(!s.takes_at(i, key));
                }
            }
        }
    }
}

/// An entry with a bound is more than its generation.
proof fn lemma_bounded(d: u64)
    requires
        unpacked(d).bound != 0,
    ensures
        d % 0x2000_0000_0000_0000 != 0,
{
    if d % 0x2000_0000_0000_0000 == 0 {
        refresh_keeps_the_entry(d, 0, 0);
        assert(unpacked(0).bound == 0);
    }
}

/// Law: a probe leaves a tidy bucket tidy and its own answer as it is, and makes
/// the entry young.
pub proof fn a_probe_keeps_the_bucket_tidy(s: Slots, n: Slots, key: u64, gen: u8)
    requires
        is_tidy(s),
        gen < 8,
        is_carried_out(s, s.refreshed(key, gen), n),
    ensures
        is_tidy(n),
        n.answer(key) == s.answer(key),
        n.found(key) == s.found(key),
        s.found(key) matches Some(i) ==> unpack_gen(n.data[i]) == gen,
{
    if let Some(i) = s.found(key) {
        lemma_bounded(s.data[i]);
        a_probe_keeps_the_answer(s, n, key, gen);
        if unpack_gen(s.data[i]) != gen {
            let nd = aged(s.data[i], gen as int) as u64;
            assert(aged(s.data[i], gen as int) < 0x1_0000_0000_0000_0000);
            refresh_keeps_the_entry(s.data[i], gen, nd);
            assert(unpacked(0).bound == 0);
            assert(n.data[i] == nd && nd != 0);
            assert forall|k: int| 0 <= k < 4 && k != i implies #[trigger] n.data[k]
                == s.data[k] by {}
        }
    }
}

/// Law: where a probe finds an entry in a tidy bucket, a store for the position that
/// follows it keeps a noticeably deeper entry unless the new one is exact, and
/// replaces it otherwise; only a missing move is kept.
pub proof fn a_found_entry_is_kept_or_replaced(
    s: Slots,
    probed: Slots,
    n: Slots,
    key: u64,
    mv: Move,
    score: i32,
    eval: i32,
    depth: i32,
    bound: u8,
    gen: u8,
    pv: bool,
    p: Option<(usize, u64, u64)>,
    old: Hit,
)
    requires
        is_tidy(s),
        mv.compact(),
        1 <= bound < 4,
        gen < 8,
        s.answer(key) == Some(old),
        is_carried_out(s, s.refreshed(key, gen), probed),
        probed.plans_store(key, mv, score, eval, depth, bound, gen, pv, p),
        is_carried_out(probed, p, n),
    ensures
        n.answer(key) == Some(
            if bound != BOUND_EXACT && depth + 4 < old.depth {
                old
            } else {
                Hit {
                    mv: if mv.is_none() {
                        old.mv
                    } else {
                        mv
                    },
                    score: clamp_to(score as int, -32002, 32002) as i32,
                    eval: clamp_to(eval as int, -32002, 32002) as i32,
                    depth: clamp_to(depth as int, 0, 255) as i32,
                    bound,
                    was_pv: pv,
                }
            },
        ),
        is_tidy(n),
{
    a_probe_keeps_the_bucket_tidy(s, probed, key, gen);
    a_store_keeps_the_bucket_tidy(
        probed,
        n,
        key,
        mv,
        score,
        eval,
        depth,
        bound,
        gen,
        pv,
        p,
    );
    let i = s.found(key)->0;
    a_store_keeps_or_replaces(
        probed,
        n,
        key,
        mv,
        score,
        eval,
        depth,
        bound,
        gen,
        pv,
        p,
        old,
        i,
    );
}

/// Law: a store for a position that is stored already, in the generation of its
/// entry, keeps a noticeably deeper entry unless the new one is exact, and replaces
/// it otherwise; only a missing move is kept.
pub proof fn a_store_keeps_or_replaces(
    s: Slots,
    n: Slots,
    key: u64,
    mv: Move,
    score: i32,
    eval: i32,
    depth: i32,
    bound: u8,
    gen: u8,
    pv: bool,
    p: Option<(usize, u64, u64)>,
    old: Hit,
    i: int,
)
    requires
        mv.compact(),
        1 <= bound < 4,
        gen < 8,
        s.found(key) == Some(i),
        s.answer(key) == Some(old),
        unpack_gen(s.data[i]) == gen,
        is_tidy(s),
        s.plans_store(key, mv, score, eval, depth, bound, gen, pv, p),
        is_carried_out(s, p, n),
    ensures
        n.answer(key) == Some(
            if bound != BOUND_EXACT && depth + 4 < old.depth {
                old
            } else {
                Hit {
                    mv: if mv.is_none() {
                        old.mv
                    } else {
                        mv
                    },
                    score: clamp_to(score as int, -32002, 32002) as i32,
                    eval: clamp_to(eval as int, -32002, 32002) as i32,
                    depth: clamp_to(depth as int, 0, 255) as i32,
                    bound,
                    was_pv: pv,
                }
            },
        ),
{
    assert(s.takes_at(i, key));
    assert forall|j: int| 0 <= j < i implies !#[trigger] s.takes_at(j, key) by {
        assert(s.data[j] != 0);
        assert(!s.matches_at(j, key));
    }
    assert forall|k: int| #[trigger] s.is_target(k, key, gen as int) implies k == i by {
        if s.takes_at(k, key) {
            if i < k {
                assert(!s.takes_at(i, key));
            }
        }
    }
    match p {
        None => {},
        Some((slot, k, d)) => {
            assert(slot == i);
            assert(d >= bound * 0x400_0000_0000_0000);
            store_then_probe(
                s,
                n,
                slot as int,
                key,
                mv,
                score,
                eval,
                depth,
                bound,
                gen,
                pv,
                d,
            );
        },
    }
}

/// Cutting off the low `b` commutes with keeping what lies below `b * c`.
proof fn lemma_low_field(d: int, b: int, c: int)
    requires
        d >= 0,
        b > 0,
        c > 0,
        b * c == 0x2000_0000_0000_0000,
    ensures
        (d / b) % c == (d % 0x2000_0000_0000_0000) / b,
{
    vstd::arithmetic::div_mod::lemma_breakdown(d, b, c);
    let x = (d / b) % c;
    let y = d % b;
    lemma_cut(b * x + y, y, b, x);
}

/// A remainder by `b` can be taken from the remainder by `b * c`.
proof fn lemma_mod_part(d: int, x: int, b: int, c: int)
    requires
        d >= 0,
        b > 0,
        c > 0,
        x == d % (b * c),
    ensures
        d % b == x % b,
{
    vstd::arithmetic::div_mod::lemma_mod_mod(d, b, c);
}

// -- the table ----------------------------------------------------------------------

/// A load of `a` may give `v`. Which of the words ever put there it gives is
/// between the threads.
pub open spec fn may_load(a: &AtomicU64, v: u64) -> bool {
    call_ensures(AtomicU64::load, (a, Ordering::Relaxed), v)
}

/// `v` is handed to `a` to hold.
pub open spec fn is_saved(a: &AtomicU64, v: u64) -> bool {
    call_ensures(AtomicU64::store, (a, v, Ordering::Relaxed), ())
}

/// `a` is made to hold 0.
pub open spec fn starts_empty(a: AtomicU64) -> bool {
    call_ensures(AtomicU64::new, (0u64,), a)
}

struct Bucket {
    key: [AtomicU64; 4],
    data: [AtomicU64; 4],
}

fn load(a: &AtomicU64) -> (r: u64)
    ensures
        may_load(a, r),
{
    a.load(Ordering::Relaxed)
}

fn save(a: &AtomicU64, v: u64)
    ensures
        is_saved(a, v),
{
    a.store(v, Ordering::Relaxed)
}

fn empty_word() -> (r: AtomicU64)
    ensures
        starts_empty(r),
{
    AtomicU64::new(0)
}

impl Bucket {
    /// Reading the bucket word by word may give `s`.
    spec fn may_read(&self, s: Slots) -> bool {
        forall|i: int| #![trigger s.key[i]] #![trigger s.data[i]]
            0 <= i < 4 ==> may_load(&self.key[i], s.key[i]) && may_load(&self.data[i], s.data[i])
    }

    /// The words `k` and `d` are handed to slot `slot`.
    spec fn is_written(&self, slot: int, k: u64, d: u64) -> bool {
        is_saved(&self.key[slot], k) && is_saved(&self.data[slot], d)
    }

    /// Every slot is made empty.
    spec fn is_new(&self) -> bool {
        forall|i: int| #![trigger self.key[i]] #![trigger self.data[i]]
            0 <= i < 4 ==> starts_empty(self.key[i]) && starts_empty(self.data[i])
    }

    fn new() -> (r: Bucket)
        ensures
            r.is_new(),
    {
        Bucket {
            key: [empty_word(), empty_word(), empty_word(), empty_word()],
            data: [empty_word(), empty_word(), empty_word(), empty_word()],
        }
    }

    /// A copy of the bucket, word by word.
    fn slots(&self) -> (r: Slots)
        ensures
            self.may_read(r),
    {
        Slots {
            key: [load(&self.key[0]), load(&self.key[1]), load(&self.key[2]), load(&self.key[3])],
            data: [
                load(&self.data[0]),
                load(&self.data[1]),
                load(&self.data[2]),
                load(&self.data[3]),
            ],
        }
    }

    fn write(&self, slot: usize, k: u64, d: u64)
        requires
            slot < 4,
        ensures
            self.is_written(slot as int, k, d),
    {
        save(&self.data[slot], d);
        save(&self.key[slot], k);
    }
}

/// The shared table.
pub struct Tt {
    buckets: Vec<Bucket>,
    generation: AtomicU8,
}

pub open spec fn power_of_two(n: int) -> bool
    decreases n,
{
    n == 1 || (n > 1 && n % 2 == 0 && power_of_two(n / 2))
}

/// The greatest power of two no greater than `n`.
fn power_below(n: usize) -> (r: usize)
    requires
        n >= 1,
    ensures
        power_of_two(r as int),
        1 <= r <= n < 2 * r,
{
    let mut p: usize = 1;
    while p <= n / 2
        invariant
            1 <= p <= n,
            power_of_two(p as int),
        decreases n - p,
    {
        p = p * 2;
    }
    p
}

/// `n` empty buckets.
fn empty_buckets(n: usize) -> (r: Vec<Bucket>)
    ensures
        r@.len() == n,
        forall|i: int| 0 <= i < n ==> (#[trigger] r@[i]).is_new(),
{
    let mut v: Vec<Bucket> = Vec::with_capacity(n);
    let mut i: usize = 0;
    while i < n
        invariant
            i <= n,
            v@.len() == i,
            forall|j: int| 0 <= j < i ==> (#[trigger] v@[j]).is_new(),
        decreases n - i,
    {
        v.push(Bucket::new());
        i += 1;
    }
    v
}

impl Tt {
    #[verifier::type_invariant]
    spec fn shaped(&self) -> bool {
        self.buckets@.len() > 0
    }

    /// How many buckets there are.
    pub closed spec fn size(&self) -> nat {
        self.buckets@.len()
    }

    /// Every slot is made empty.
    pub closed spec fn is_new(&self) -> bool {
        forall|i: int| 0 <= i < self.buckets@.len() ==> (#[trigger] self.buckets@[i]).is_new()
    }

    /// The count of searches starts at 0.
    pub closed spec fn counts_anew(&self) -> bool {
        call_ensures(AtomicU8::new, (0u8,), self.generation)
    }

    /// The count of searches goes on from that of `o`.
    pub closed spec fn counts_on(&self, o: &Tt) -> bool {
        self.generation == o.generation
    }

    /// The bucket for a position.
    spec fn bucket_for(&self, key: u64) -> Bucket {
        self.buckets@[key as int % self.buckets@.len() as int]
    }

    /// Reading bucket `i` may give `s`.
    pub closed spec fn may_read_at(&self, i: int, s: Slots) -> bool {
        self.buckets@[i].may_read(s)
    }

    /// Reading the bucket for `key` may give `s`.
    pub closed spec fn may_read(&self, key: u64, s: Slots) -> bool {
        self.bucket_for(key).may_read(s)
    }

    /// The words `k` and `d` are handed to slot `slot` of the bucket for `key`.
    pub closed spec fn is_written(&self, key: u64, slot: int, k: u64, d: u64) -> bool {
        self.bucket_for(key).is_written(slot, k, d)
    }

    /// Every slot of bucket `i` is handed zeros.
    pub closed spec fn is_emptied(&self, i: int) -> bool {
        &&& self.buckets@[i].is_written(0, 0, 0)
        &&& self.buckets@[i].is_written(1, 0, 0)
        &&& self.buckets@[i].is_written(2, 0, 0)
        &&& self.buckets@[i].is_written(3, 0, 0)
    }

    /// A probe of `key` may find `hit`: the answer of the bucket as it may read.
    pub open spec fn may_find(&self, key: u64, hit: Option<Hit>) -> bool {
        exists|s: Slots| #[trigger] self.may_read(key, s) && hit == s.answer(key)
    }

    /// A store of this entry is made: the words that the bucket as it was read calls
    /// for are handed to its slot.
    #[verifier::opaque]
    pub open spec fn records(
        &self,
        key: u64,
        mv: Move,
        score: i32,
        eval: i32,
        depth: i32,
        bound: u8,
        was_pv: bool,
    ) -> bool {
        exists|s: Slots, g: u8, p: Option<(usize, u64, u64)>|
            self.may_read(key, s) && self.may_be_in(g) && #[trigger] s.plans_store(
                key,
                mv,
                score,
                eval,
                depth,
                bound,
                g,
                was_pv,
                p,
            ) && (p matches Some((slot, k, d)) ==> self.is_written(key, slot as int, k, d))
    }

    /// Nothing is stored for `key`.
    pub open spec fn has_nothing(&self, key: u64) -> bool {
        forall|hit: Option<Hit>| #[trigger] self.may_find(key, hit) ==> hit is None
    }

    /// A load of the count of searches may give `c`.
    pub closed spec fn may_count(&self, c: u8) -> bool {
        call_ensures(AtomicU8::load, (&self.generation, Ordering::Relaxed), c)
    }

    /// The count of searches is handed 0.
    pub closed spec fn is_recounted(&self) -> bool {
        call_ensures(AtomicU8::store, (&self.generation, 0u8, Ordering::Relaxed), ())
    }

    /// One is added to the count of searches, which was `c`.
    pub closed spec fn is_counted(&self, c: u8) -> bool {
        call_ensures(AtomicU8::fetch_add, (&self.generation, 1u8, Ordering::Relaxed), c)
    }

    /// The generation may be `g`: the low three bits of the count of searches.
    pub open spec fn may_be_in(&self, g: u8) -> bool {
        exists|c: u8| #[trigger] self.may_count(c) && g == c % 8
    }

    /// A table of at most `mb` megabytes.
    pub fn new(mb: usize) -> (r: Tt)
        requires
            mb * 0x4000 <= usize::MAX,
        ensures
            power_of_two(r.size() as int),
            ({
                let want = (if mb < 1 { 1 } else { mb as int }) * 0x4000;
                r.size() <= want < 2 * r.size()
            }),
            r.is_new(),
            r.counts_anew(),
    {
        let mb = if mb < 1 {
            1
        } else {
            mb
        };
        let n = power_below(mb * 0x4000);
        Tt { buckets: empty_buckets(n), generation: AtomicU8::new(0) }
    }

    /// Replaces the table by an empty one of at most `mb` megabytes.
    pub fn resize(&mut self, mb: usize)
        requires
            mb * 0x4000 <= usize::MAX,
        ensures
            power_of_two(final(self).size() as int),
            ({
                let want = (if mb < 1 { 1 } else { mb as int }) * 0x4000;
                final(self).size() <= want < 2 * final(self).size()
            }),
            final(self).is_new(),
            final(self).counts_on(old(self)),
    {
        let mb = if mb < 1 {
            1
        } else {
            mb
        };
        let n = power_below(mb * 0x4000);
        let fresh = empty_buckets(n);
        self.buckets = fresh;
    }

    /// Empties every slot and starts counting searches anew.
    pub fn clear(&self)
        ensures
            forall|i: int| 0 <= i < self.size() ==> #[trigger] self.is_emptied(i),
            self.is_recounted(),
    {
        let n = self.buckets.len();
        let mut i: usize = 0;
        while i < n
            invariant
                n == self.buckets@.len(),
                i <= n,
                forall|j: int| 0 <= j < i ==> #[trigger] self.is_emptied(j),
            decreases n - i,
        {
            self.buckets[i].write(0, 0, 0);
            self.buckets[i].write(1, 0, 0);
            self.buckets[i].write(2, 0, 0);
            self.buckets[i].write(3, 0, 0);
            i += 1;
        }
        self.generation.store(0, Ordering::Relaxed);
    }

    /// Starts a new generation, so that older entries age.
    pub fn new_search(&self)
        ensures
            exists|c: u8| #[trigger] self.is_counted(c),
    {
        let before = self.generation.fetch_add(1, Ordering::Relaxed);
        assert(self.is_counted(before));
    }

    fn count(&self) -> (r: u8)
        ensures
            self.may_count(r),
    {
        self.generation.load(Ordering::Relaxed)
    }

    fn gen(&self) -> (r: u8)
        ensures
            r < 8,
            self.may_be_in(r),
    {
        self.count() % 8
    }

    fn bucket(&self, key: u64) -> (r: &Bucket)
        ensures
            *r == self.bucket_for(key),
    {
        proof {
            use_type_invariant(self);
        }
        let n = self.buckets.len();
        &self.buckets[(key % n as u64) as usize]
    }

    /// Looks a position up, and keeps what it finds young.
    ///
    /// The answer is that of the bucket as it was read. What a read gives is
    /// between the threads that write there.
    pub fn probe(&self, key: u64) -> (r: Option<Hit>)
        ensures
            r matches Some(h) ==> hit_ok(h),
            self.may_find(key, r),
            exists|s: Slots| #[trigger]
                self.may_read(key, s) && r == s.answer(key) && (r is Some ==> exists|g: u8|
                    #[trigger]
                    self.may_be_in(g) && (s.refreshed(key, g) matches Some((slot, k, d))
                        ==> self.is_written(key, slot as int, k, d))),
    {
        let b = self.bucket(key);
        let slots = b.slots();
        assert(self.may_read(key, slots));
        match slots.find(key) {
            Some(i) => {
                let gen = self.gen();
                if let Some((slot, k, d)) = slots.plan_refresh(i, key, gen) {
                    b.write(slot, k, d);
                }
                Some(unpack(slots.data[i]))
            },
            None => None,
        }
    }

    /// Records what a search found about a position, as the bucket as it was read
    /// has it.
    pub fn store(
        &self,
        key: u64,
        mv: Move,
        score: i32,
        eval: i32,
        depth: i32,
        bound: u8,
        was_pv: bool,
    )
        requires
            mv.compact(),
            bound < 4,
            depth <= i32::MAX - 4,
        ensures
            self.records(key, mv, score, eval, depth, bound, was_pv),
    {
        let b = self.bucket(key);
        let gen = self.gen();
        let slots = b.slots();
        assert(self.may_read(key, slots));
        let plan = slots.plan_store(key, mv, score, eval, depth, bound, gen, was_pv);
        match plan {
            Some((slot, k, d)) => {
                b.write(slot, k, d);
            },
            None => {},
        }
        proof {
            reveal(Tt::records);
        }
    }

    /// Permille of the table that has been written this generation, by the first
    /// thousand buckets as they were read.
    pub fn hashfull(&self) -> (r: usize)
        ensures
            r <= 1000,
            exists|s: Seq<Slots>, g: u8|
                self.may_be_in(g) && s.len() == (if self.size() < 1000 {
                    self.size()
                } else {
                    1000
                }) && (forall|i: int| 0 <= i < s.len() ==> #[trigger] self.may_read_at(i, s[i])) && r
                    == #[trigger] permille_fresh(s, g),
    {
        proof {
            use_type_invariant(self);
        }
        let gen = self.gen();
        let n: usize = if self.buckets.len() < 1000 {
            self.buckets.len()
        } else {
            1000
        };
        let mut copies: Vec<Slots> = Vec::with_capacity(n);
        let mut i: usize = 0;
        while i < n
            invariant
                n <= self.buckets@.len(),
                i <= n,
                copies@.len() == i,
                forall|j: int| 0 <= j < i ==> #[trigger] self.may_read_at(j, copies@[j]),
            decreases n - i,
        {
            copies.push(self.buckets[i].slots());
            i += 1;
        }
        share_fresh(copies.as_slice(), gen)
    }
}

/// Law: a position has the bucket whose number is the remainder of its key, so that
/// keys are spread over all of them.
pub proof fn keys_are_spread_over_the_buckets(t: Tt, key: u64, s: Slots)
    requires
        t.size() > 0,
    ensures
        t.may_read(key, s) <==> t.may_read_at(key as int % t.size() as int, s),
        0 <= key as int % (t.size() as int) < t.size(),
{
    assert(0 <= key as int % (t.size() as int) < t.size())
        by (nonlinear_arith)
        requires
            t.size() > 0,
    ;
}

/// How many slots of these buckets were written in generation `gen`.
pub open spec fn count_fresh(s: Seq<Slots>, gen: u8) -> int
    decreases s.len(),
{
    if s.len() == 0 {
        0
    } else {
        let b = s.last();
        count_fresh(s.drop_last(), gen) + b.is_fresh(0, gen) + b.is_fresh(1, gen) + b.is_fresh(
            2,
            gen,
        ) + b.is_fresh(3, gen)
    }
}

/// The same in thousandths of all their slots.
pub open spec fn permille_fresh(s: Seq<Slots>, gen: u8) -> int {
    count_fresh(s, gen) * 1000 / (s.len() * 4) as int
}

/// The share of slots written in generation `gen`, in thousandths.
pub fn share_fresh(s: &[Slots], gen: u8) -> (r: usize)
    requires
        0 < s@.len() <= 1000,
    ensures
        r == permille_fresh(s@, gen),
        r <= 1000,
{
    let n = s.len();
    let mut used: usize = 0;
    let mut i: usize = 0;
    while i < n
        invariant
            n == s@.len(),
            n <= 1000,
            i <= n,
            used <= 4 * i,
            used == count_fresh(s@.take(i as int), gen),
        decreases n - i,
    {
        assert(s@.take(i + 1).drop_last() =~= s@.take(i as int));
        used = used + s[i].fresh(gen);
        i += 1;
    }
    assert(s@.take(n as int) =~= s@);
    permille(used, n)
}

/// `used` of `n` buckets of four, in thousandths.
fn permille(used: usize, n: usize) -> (r: usize)
    requires
        0 < n <= 1000,
        used <= 4 * n,
    ensures
        r == used * 1000 / (n * 4),
        r <= 1000,
{
    let r = used * 1000 / (n * 4);
    proof {
        let d = n * 4;
        assert(used * 1000 / d as int <= 1000) by (nonlinear_arith)
            requires
                d > 0,
                0 <= used <= d,
        ;
    }
    r
}

impl Slots {
    pub open spec fn is_fresh(&self, i: int, gen: u8) -> int {
        if self.data[i] != 0 && unpack_gen(self.data[i]) == gen {
            1
        } else {
            0
        }
    }

    /// How many slots were written in generation `gen`.
    pub fn fresh(&self, gen: u8) -> (r: usize)
        ensures
            r == self.is_fresh(0, gen) + self.is_fresh(1, gen) + self.is_fresh(2, gen)
                + self.is_fresh(3, gen),
            r <= 4,
    {
        let mut used: usize = 0;
        if self.data[0] != 0 && unpack_gen(self.data[0]) == gen {
            used += 1;
        }
        if self.data[1] != 0 && unpack_gen(self.data[1]) == gen {
            used += 1;
        }
        if self.data[2] != 0 && unpack_gen(self.data[2]) == gen {
            used += 1;
        }
        if self.data[3] != 0 && unpack_gen(self.data[3]) == gen {
            used += 1;
        }
        used
    }
}

} // verus!
