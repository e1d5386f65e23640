//! The opening book: the file format, the runtime probe, and the choice.
//!
//! The book exists to make games **varied**, not strong. Grand Chess has no
//! opening theory to draw on, and an engine with a deterministic search plays
//! the same game every time; a book is where the variety comes from.

use vstd::prelude::*;
use vstd::slice::slice_subrange;
use vstd::string::*;
use crate::answer::lists_move;
use crate::attacks::Tables;
use crate::board::Board;
use crate::movegen::{GEN_ALL, MoveList, gen_of, generate, moves_of};
use crate::notation::{move_name, move_to_string};
use crate::score::{MATE, score_text, score_to_uci};
use crate::text::{decimal, decimal_int, push_char, push_decimal, push_decimal_int};
use crate::types::Move;

verus! {

pub const ENTRY_SIZE: usize = 16;

pub const HEADER_SIZE: usize = 32;

/// `MBCABOOK`.
pub const BOOK_MAGIC: [u8; 8] = [77, 66, 67, 65, 66, 79, 79, 75];

pub const BOOK_VERSION: u16 = 1;

// -- numbers in bytes ---------------------------------------------------------------

/// The number in the `n` bytes from `at` on, the lowest byte first.
pub open spec fn le(s: Seq<u8>, at: int, n: int) -> nat
    decreases n,
{
    if n <= 0 {
        0
    } else {
        (s[at] + 256 * le(s, at + 1, n - 1)) as nat
    }
}

/// The greatest number in `n` bytes, plus one.
pub open spec fn le_top(n: int) -> nat
    decreases n,
{
    if n <= 0 {
        1
    } else {
        256 * le_top(n - 1)
    }
}

proof fn lemma_le(s: Seq<u8>, at: int, n: int)
    requires
        0 <= n,
    ensures
        le(s, at, n) < le_top(n),
    decreases n,
{
    if n > 0 {
        lemma_le(s, at + 1, n - 1);
    }
}

/// A number of two bytes with a sign.
pub open spec fn with_sign(x: int) -> int {
    if x >= 32768 {
        x - 65536
    } else {
        x
    }
}

/// Reads the number in the `n` bytes from `at` on.
fn read_le(bytes: &[u8], at: usize, n: usize) -> (r: u64)
    requires
        n <= 8,
        at + n <= bytes@.len(),
    ensures
        r == le(bytes@, at as int, n as int),
        r < le_top(n as int),
{
    let len = bytes.len();
    let mut acc: u64 = 0;
    let mut k: usize = n;
    assert(le_top(8) == 0x1_0000_0000_0000_0000) by {
        reveal_with_fuel(le_top, 9);
    }
    while k > 0
        invariant
            k <= n <= 8,
            at + n <= len,
            len == bytes@.len(),
            acc == le(bytes@, at + k, n - k),
            acc < le_top(n - k),
            le_top(8) == 0x1_0000_0000_0000_0000,
        decreases k,
    {
        k -= 1;
        proof {
            lemma_top(n - k);
            lemma_le(bytes@, at + k, n - k);
        }
        acc = acc * 256 + bytes[at + k] as u64;
    }
    acc
}

proof fn lemma_top(n: int)
    requires
        0 <= n <= 8,
    ensures
        le_top(n) <= le_top(8),
    decreases 8 - n,
{
    if n < 8 {
        lemma_top(n + 1);
    }
}

// -- entries ------------------------------------------------------------------------

#[derive(Clone, Copy, PartialEq, Eq, Structural, Debug)]
pub struct Entry {
    pub key: u64,
    pub mv: u32,
    pub weight: u16,
    pub score: i16,
}

impl Default for Entry {
    fn default() -> (r: Entry)
        ensures
            r == (Entry { key: 0, mv: 0, weight: 0, score: 0 }),
    {
        Entry { key: 0, mv: 0, weight: 0, score: 0 }
    }
}

/// The entry in the sixteen bytes from `at` on.
pub open spec fn entry_at(s: Seq<u8>, at: int) -> Entry {
    Entry {
        key: le(s, at, 8) as u64,
        mv: le(s, at + 8, 4) as u32,
        weight: le(s, at + 12, 2) as u16,
        score: with_sign(le(s, at + 14, 2) as int) as i16,
    }
}

/// Could `mv` be a move at all, ignoring the position?
pub open spec fn could_be_move(mv: u32) -> bool {
    let m = Move(mv);
    &&& mv < 262144
    &&& mv != 0
    &&& m.from().0 < 100
    &&& m.to().0 < 100
    &&& m.promo_bits() <= 6
}

fn read_entry(b: &[u8], at: usize) -> (r: Entry)
    requires
        at + 16 <= b@.len(),
    ensures
        r == entry_at(b@, at as int),
{
    let len = b.len();
    proof {
        reveal_with_fuel(le_top, 5);
    }
    let score = read_le(b, at + 14, 2);
    Entry {
        key: read_le(b, at, 8),
        mv: read_le(b, at + 8, 4) as u32,
        weight: read_le(b, at + 12, 2) as u16,
        score: if score >= 32768 {
            (score as i32 - 65536) as i16
        } else {
            score as i16
        },
    }
}

impl Entry {
    pub fn from_bytes(b: &[u8]) -> (r: Entry)
        requires
            b@.len() >= 16,
        ensures
            r == entry_at(b@, 0),
    {
        read_entry(b, 0)
    }

    pub fn mov(&self) -> (r: Move)
        ensures
            r == Move(self.mv),
    {
        Move(self.mv)
    }

    /// Whether `mv` could be a move at all, ignoring the position.
    pub fn valid_move(&self) -> (r: bool)
        ensures
            r == could_be_move(self.mv),
    {
        let m = self.mov();
        self.mv < 262144 && self.mv != 0 && m.from().0 < 100 && m.to().0 < 100 && m.promo_bits()
            <= 6
    }

    /// Ascending by position, then by move.
    pub open spec fn before(self, o: Entry) -> bool {
        self.key < o.key || (self.key == o.key && self.mv < o.mv)
    }

    fn comes_before(&self, o: &Entry) -> (r: bool)
        ensures
            r == self.before(*o),
    {
        self.key < o.key || (self.key == o.key && self.mv < o.mv)
    }

    pub open spec fn same_place(self, o: Entry) -> bool {
        self.key == o.key && self.mv == o.mv
    }
}

// -- errors ---------------------------------------------------------------------------

/// Why something is not a book.
pub enum BookError {
    Short { len: usize },
    BadMagic,
    Version { version: u16 },
    EntrySize { size: u16 },
    Flags { flags: u32 },
    Count { count: usize, len: usize },
    Order { at: usize },
    Duplicate { key: u64, mv: u32 },
    NotAMove { key: u64, mv: u32 },
    BadScore { key: u64, score: i16 },
}

/// A hexadecimal digit.
pub open spec fn hex_digit(d: int) -> char {
    if d < 10 {
        (48 + d) as u8 as char
    } else {
        (87 + d) as u8 as char
    }
}

/// A number in hexadecimal digits, as many as it takes.
pub open spec fn hex(n: nat) -> Seq<char>
    decreases n,
{
    if n < 16 {
        seq![hex_digit(n as int)]
    } else {
        hex(n / 16).push(hex_digit((n % 16) as int))
    }
}

/// A number in `width` hexadecimal digits.
pub open spec fn hex_padded(n: nat, width: int) -> Seq<char>
    decreases width,
{
    if width <= 0 {
        Seq::empty()
    } else {
        hex_padded(n / 16, width - 1).push(hex_digit((n % 16) as int))
    }
}

fn push_hex_digit(out: &mut String, d: u8)
    requires
        d < 16,
    ensures
        final(out)@ == old(out)@.push(hex_digit(d as int)),
{
    if d < 10 {
        push_char(out, (48 + d) as char);
    } else {
        push_char(out, (87 + d) as char);
    }
}

fn push_hex(out: &mut String, n: u64)
    ensures
        final(out)@ == old(out)@ + hex(n as nat),
    decreases n,
{
    let ghost before = out@;
    if n >= 16 {
        push_hex(out, n / 16);
    }
    push_hex_digit(out, (n % 16) as u8);
    assert(out@ =~= before + hex(n as nat));
}

fn push_hex_padded(out: &mut String, n: u64, width: u8)
    ensures
        final(out)@ == old(out)@ + hex_padded(n as nat, width as int),
    decreases width,
{
    let ghost before = out@;
    if width > 0 {
        push_hex_padded(out, n / 16, width - 1);
        push_hex_digit(out, (n % 16) as u8);
    }
    assert(out@ =~= before + hex_padded(n as nat, width as int));
}

impl BookError {
    /// The error in words.
    pub open spec fn text(self) -> Seq<char> {
        match self {
            BookError::Short { len } => decimal(len as nat) + " bytes is shorter than a header"@,
            BookError::BadMagic => "not a book file (bad magic)"@,
            BookError::Version { version } => "version "@ + decimal(version as nat)
                + ", expected 1"@,
            BookError::EntrySize { size } => "entry size "@ + decimal(size as nat)
                + ", expected 16"@,
            BookError::Flags { flags } => "reserved flags are 0x"@ + hex(flags as nat)
                + ", expected 0"@,
            BookError::Count { count, len } => "header claims "@ + decimal(count as nat)
                + " entries ("@ + (if count * 16 + 32 <= usize::MAX {
                decimal((count * 16 + 32) as nat) + " bytes"@
            } else {
                "more bytes than fit in a `usize`"@
            }) + ") but the file is "@ + decimal(len as nat) + " bytes"@,
            BookError::Order { at } => "entries "@ + decimal(at as nat) + " and "@ + decimal(
                (at + 1) as nat,
            ) + " are out of order or duplicated"@,
            BookError::Duplicate { key, mv } => "duplicate entry for key "@ + hex_padded(
                key as nat,
                16,
            ) + " move "@ + move_name(Move(mv)),
            BookError::NotAMove { key, mv } => "key "@ + hex_padded(key as nat, 16) + " has 0x"@
                + hex(mv as nat) + ", which is not a move"@,
            BookError::BadScore { key, score } => "key "@ + hex_padded(key as nat, 16)
                + " has score "@ + decimal_int(score as int),
        }
    }

    pub fn message(&self) -> (r: String)
        requires
            *self matches BookError::Order { at } ==> at < usize::MAX,
        ensures
            r@ == self.text(),
    {
        let mut out = String::new();
        match self {
            BookError::Short { len } => {
                push_decimal(&mut out, *len as u64);
                out.append(" bytes is shorter than a header");
            },
            BookError::BadMagic => {
                out.append("not a book file (bad magic)");
            },
            BookError::Version { version } => {
                out.append("version ");
                push_decimal(&mut out, *version as u64);
                out.append(", expected 1");
            },
            BookError::EntrySize { size } => {
                out.append("entry size ");
                push_decimal(&mut out, *size as u64);
                out.append(", expected 16");
            },
            BookError::Flags { flags } => {
                out.append("reserved flags are 0x");
                push_hex(&mut out, *flags as u64);
                out.append(", expected 0");
            },
            BookError::Count { count, len } => {
                out.append("header claims ");
                push_decimal(&mut out, *count as u64);
                out.append(" entries (");
                match file_size(*count) {
                    Some(n) => {
                        push_decimal(&mut out, n as u64);
                        out.append(" bytes");
                    },
                    None => {
                        out.append("more bytes than fit in a `usize`");
                    },
                }
                out.append(") but the file is ");
                push_decimal(&mut out, *len as u64);
                out.append(" bytes");
            },
            BookError::Order { at } => {
                out.append("entries ");
                push_decimal(&mut out, *at as u64);
                out.append(" and ");
                push_decimal(&mut out, (*at + 1) as u64);
                out.append(" are out of order or duplicated");
            },
            BookError::Duplicate { key, mv } => {
                out.append("duplicate entry for key ");
                push_hex_padded(&mut out, *key, 16);
                out.append(" move ");
                out.append(move_to_string(Move(*mv)).as_str());
            },
            BookError::NotAMove { key, mv } => {
                out.append("key ");
                push_hex_padded(&mut out, *key, 16);
                out.append(" has 0x");
                push_hex(&mut out, *mv as u64);
                out.append(", which is not a move");
            },
            BookError::BadScore { key, score } => {
                out.append("key ");
                push_hex_padded(&mut out, *key, 16);
                out.append(" has score ");
                push_decimal_int(&mut out, *score as i64);
            },
        }
        assert(out@ =~= self.text());
        out
    }
}

/// The size of a file of `count` entries, if a `usize` holds it.
fn file_size(count: usize) -> (r: Option<usize>)
    ensures
        match r {
            Some(n) => n == count * 16 + 32,
            None => count * 16 + 32 > usize::MAX,
        },
{
    match count.checked_mul(ENTRY_SIZE) {
        Some(n) => n.checked_add(HEADER_SIZE),
        None => None,
    }
}

// -- the book -------------------------------------------------------------------------

/// What is wrong with an entry on its own.
pub open spec fn flaw_of(e: Entry) -> Option<BookError> {
    if !could_be_move(e.mv) {
        Some(BookError::NotAMove { key: e.key, mv: e.mv })
    } else if e.score < -MATE || e.score > MATE {
        Some(BookError::BadScore { key: e.key, score: e.score })
    } else {
        None
    }
}

/// What is wrong with the first bad entry from `k` on.
pub open spec fn first_flaw(s: Seq<Entry>, k: int) -> Option<BookError>
    decreases s.len() - k,
{
    if k < 0 || k >= s.len() {
        None
    } else if flaw_of(s[k]) is Some {
        flaw_of(s[k])
    } else {
        first_flaw(s, k + 1)
    }
}

/// Strictly ascending.
pub open spec fn in_order(s: Seq<Entry>) -> bool {
    forall|i: int, j: int| 0 <= i < j < s.len() ==> (#[trigger] s[i]).before(#[trigger] s[j])
}

/// The first entry from `k` on that does not come before the next.
pub open spec fn first_disorder(s: Seq<Entry>, k: int) -> Option<int>
    decreases s.len() - k,
{
    if k < 0 || k + 1 >= s.len() {
        None
    } else if !s[k].before(s[k + 1]) {
        Some(k)
    } else {
        first_disorder(s, k + 1)
    }
}

/// The entries for `key`, in their order.
pub open spec fn run_of(s: Seq<Entry>, key: u64) -> Seq<Entry>
    decreases s.len(),
{
    if s.len() == 0 {
        Seq::empty()
    } else if s.last().key == key {
        run_of(s.drop_last(), key).push(s.last())
    } else {
        run_of(s.drop_last(), key)
    }
}

/// Entries that stand together are the run.
proof fn lemma_run(s: Seq<Entry>, key: u64, lo: int, hi: int)
    requires
        0 <= lo <= hi <= s.len(),
        forall|i: int| 0 <= i < s.len() ==> ((#[trigger] s[i]).key == key <==> lo <= i < hi),
    ensures
        run_of(s, key) == s.subrange(lo, hi),
    decreases s.len(),
{
    if s.len() > 0 {
        let t = s.drop_last();
        let n = s.len() - 1;
        assert(s[n] == s.last());
        assert forall|i: int| 0 <= i < t.len() implies ((#[trigger] t[i]).key == key <==> lo <= i
            < hi) by {
            assert(t[i] == s[i]);
        }
        if hi == s.len() && lo < hi {
            lemma_run(t, key, lo, hi - 1);
            assert(t.subrange(lo, hi - 1).push(s.last()) =~= s.subrange(lo, hi));
        } else if hi == s.len() {
            lemma_run(t, key, lo - 1, hi - 1);
            assert(t.subrange(lo - 1, hi - 1) =~= s.subrange(lo, hi));
        } else {
            lemma_run(t, key, lo, hi);
            assert(t.subrange(lo, hi) =~= s.subrange(lo, hi));
        }
    } else {
        assert(s.subrange(lo, hi) =~= Seq::empty());
    }
}

/// The lengths of the runs of these keys, added up.
pub open spec fn sum_of_runs(s: Seq<Entry>, keys: Seq<u64>) -> nat
    decreases keys.len(),
{
    if keys.len() == 0 {
        0
    } else {
        sum_of_runs(s, keys.drop_last()) + run_of(s, keys.last()).len()
    }
}

/// One entry more is one more in the run of its key, and in no other.
proof fn lemma_sum_more(s: Seq<Entry>, keys: Seq<u64>)
    requires
        s.len() > 0,
        keys.no_duplicates(),
    ensures
        sum_of_runs(s, keys) == sum_of_runs(s.drop_last(), keys) + if keys.contains(s.last().key) {
            1nat
        } else {
            0
        },
    decreases keys.len(),
{
    if keys.len() > 0 {
        let rest = keys.drop_last();
        lemma_sum_more(s, rest);
        let k = s.last().key;
        if keys.last() == k {
            assert(keys[keys.len() - 1] == k);
            if rest.contains(k) {
                let i = choose|i: int| 0 <= i < rest.len() && rest[i] == k;
                assert(keys[i] == k);
            }
        } else {
            if keys.contains(k) {
                let i = choose|i: int| 0 <= i < keys.len() && keys[i] == k;
                assert(rest[i] == k);
            }
            if rest.contains(k) {
                let i = choose|i: int| 0 <= i < rest.len() && rest[i] == k;
                assert(keys[i] == k);
            }
        }
    }
}

/// Law: the runs of all the keys of a book, each taken once, make up the book, and
/// the keys with a run are just these.
pub proof fn the_runs_make_up_the_book(s: Seq<Entry>, keys: Seq<u64>)
    requires
        keys.no_duplicates(),
        forall|i: int| 0 <= i < s.len() ==> keys.contains((#[trigger] s[i]).key),
    ensures
        sum_of_runs(s, keys) == s.len(),
        forall|k: u64| (#[trigger] run_of(s, k)).len() > 0 <==> s.map_values(
            |e: Entry| e.key,
        ).to_set().contains(k),
    decreases s.len(),
{
    let ks = s.map_values(|e: Entry| e.key);
    if s.len() == 0 {
        lemma_no_runs(s, keys);
    } else {
        let t = s.drop_last();
        let n = s.len() - 1;
        assert(s[n] == s.last());
        assert forall|i: int| 0 <= i < t.len() implies keys.contains((#[trigger] t[i]).key) by {
            assert(t[i] == s[i]);
        }
        the_runs_make_up_the_book(t, keys);
        lemma_sum_more(s, keys);
        let kt = t.map_values(|e: Entry| e.key);
        assert forall|k: u64| (#[trigger] run_of(s, k)).len() > 0 <==> ks.to_set().contains(k) by {
            assert(run_of(t, k).len() > 0 <==> kt.to_set().contains(k));
            if ks.contains(k) {
                let i = choose|i: int| 0 <= i < ks.len() && ks[i] == k;
                if i < n {
                    assert(kt[i] == k);
                }
            }
            if kt.contains(k) {
                let i = choose|i: int| 0 <= i < kt.len() && kt[i] == k;
                assert(ks[i] == k);
            }
            if s.last().key == k {
                assert(ks[n] == k);
            }
        }
    }
}

proof fn lemma_no_runs(s: Seq<Entry>, keys: Seq<u64>)
    requires
        s.len() == 0,
    ensures
        sum_of_runs(s, keys) == 0,
    decreases keys.len(),
{
    if keys.len() > 0 {
        lemma_no_runs(s, keys.drop_last());
    }
}

pub struct Book {
    pub entries: Vec<Entry>,
}

/// All the entries of a book file.
pub open spec fn entries_in(s: Seq<u8>) -> Seq<Entry> {
    Seq::new(((s.len() - 32) / 16) as nat, |i: int| entry_at(s, 32 + 16 * i))
}

/// What is wrong with a book file, if anything.
pub open spec fn file_error(s: Seq<u8>) -> Option<BookError> {
    let count = le(s, 24, 8) as u64 as usize;
    if s.len() < 32 {
        Some(BookError::Short { len: s.len() as usize })
    } else if s.subrange(0, 8) != BOOK_MAGIC@ {
        Some(BookError::BadMagic)
    } else if le(s, 8, 2) != 1 {
        Some(BookError::Version { version: le(s, 8, 2) as u16 })
    } else if le(s, 10, 2) != 16 {
        Some(BookError::EntrySize { size: le(s, 10, 2) as u16 })
    } else if le(s, 12, 4) != 0 {
        Some(BookError::Flags { flags: le(s, 12, 4) as u32 })
    } else if count * 16 + 32 != s.len() {
        Some(BookError::Count { count, len: s.len() as usize })
    } else if first_disorder(entries_in(s), 0) is Some {
        Some(BookError::Order { at: first_disorder(entries_in(s), 0)->Some_0 as usize })
    } else {
        first_flaw(entries_in(s), 0)
    }
}

impl Book {
    /// The entries are in order and each could be played somewhere.
    pub open spec fn ok(&self) -> bool {
        in_order(self.entries@) && forall|i: int|
            0 <= i < self.entries@.len() ==> flaw_of(#[trigger] self.entries@[i]) is None
    }

    pub fn is_empty(&self) -> (r: bool)
        ensures
            r == (self.entries@.len() == 0),
    {
        self.entries.len() == 0
    }

    pub fn len(&self) -> (r: usize)
        ensures
            r == self.entries@.len(),
    {
        self.entries.len()
    }

    /// How many distinct positions the book covers.
    pub fn positions(&self) -> (r: usize)
        requires
            self.ok(),
        ensures
            r == self.entries@.map_values(|e: Entry| e.key).to_set().len(),
    {
        let ghost keys = self.entries@.map_values(|e: Entry| e.key);
        let mut n: usize = 0;
        let mut i: usize = 0;
        assert(keys.take(0).to_set() =~= Set::<u64>::empty());
        while i < self.entries.len()
            invariant
                i <= self.entries@.len(),
                n <= i,
                self.ok(),
                keys == self.entries@.map_values(|e: Entry| e.key),
                keys.take(i as int).to_set().finite(),
                n == keys.take(i as int).to_set().len(),
            decreases self.entries@.len() - i,
        {
            let fresh = i == 0 || self.entries[i - 1].key != self.entries[i].key;
            proof {
                let done = keys.take(i as int);
                let more = keys.take(i + 1);
                assert(more =~= done.push(keys[i as int]));
                assert(more.to_set() =~= done.to_set().insert(keys[i as int])) by {
                    assert forall|x: u64| #[trigger] more.to_set().contains(x) implies done.to_set().insert(
                        keys[i as int],
                    ).contains(x) by {
                        let k = choose|k: int| 0 <= k < more.len() && more[k] == x;
                        if k < i {
                            assert(done[k] == x);
                        }
                    }
                    assert forall|x: u64| #[trigger]
                        done.to_set().insert(keys[i as int]).contains(x) implies more.to_set().contains(
                        x,
                    ) by {
                        if x == keys[i as int] {
                            assert(more[i as int] == x);
                        } else {
                            let k = choose|k: int| 0 <= k < done.len() && done[k] == x;
                            assert(more[k] == x);
                        }
                    }
                }
                if fresh {
                    assert(!done.to_set().contains(keys[i as int])) by {
                        if done.to_set().contains(keys[i as int]) {
                            let k = choose|k: int| 0 <= k < done.len() && done[k] == keys[i as int];
                            assert(self.entries@[k].before(self.entries@[i as int]));
                            if k < i - 1 {
                                assert(self.entries@[k].before(self.entries@[i - 1]));
                            }
                            assert(self.entries@[i - 1].before(self.entries@[i as int]));
                        }
                    }
                } else {
                    assert(done[i - 1] == keys[i as int]);
                }
            }
            if fresh {
                n += 1;
            }
            i += 1;
        }
        assert(keys.take(keys.len() as int) =~= keys);
        n
    }

    /// Looks for the first bad entry.
    fn check_entries(entries: &Vec<Entry>) -> (r: Option<BookError>)
        ensures
            r == first_flaw(entries@, 0),
            r is None ==> forall|i: int|
                0 <= i < entries@.len() ==> flaw_of(#[trigger] entries@[i]) is None,
            r matches Some(e) ==> e !is Order,
    {
        let mut i: usize = 0;
        while i < entries.len()
            invariant
                i <= entries@.len(),
                first_flaw(entries@, 0) == first_flaw(entries@, i as int),
                forall|k: int| 0 <= k < i ==> flaw_of(#[trigger] entries@[k]) is None,
            decreases entries@.len() - i,
        {
            let e = entries[i];
            if !e.valid_move() {
                return Some(BookError::NotAMove { key: e.key, mv: e.mv });
            }
            if (e.score as i32) < -MATE || e.score as i32 > MATE {
                return Some(BookError::BadScore { key: e.key, score: e.score });
            }
            i += 1;
        }
        None
    }

    fn find_disorder(entries: &Vec<Entry>) -> (r: Option<usize>)
        ensures
            match r {
                Some(i) => first_disorder(entries@, 0) == Some(i as int) && i + 1 < entries@.len(),
                None => first_disorder(entries@, 0) is None && in_order(entries@),
            },
    {
        let mut i: usize = 0;
        while i < entries.len() && i + 1 < entries.len()
            invariant
                i <= entries@.len(),
                first_disorder(entries@, 0) == first_disorder(entries@, i as int),
                forall|a: int, b: int|
                    0 <= a < b <= i && b < entries@.len() ==> (#[trigger] entries@[a]).before(
                        #[trigger] entries@[b],
                    ),
            decreases entries@.len() - i,
        {
            if !entries[i].comes_before(&entries[i + 1]) {
                return Some(i);
            }
            proof {
                assert forall|a: int, b: int| 0 <= a < b <= i + 1 implies (
                #[trigger] entries@[a]).before(#[trigger] entries@[b]) by {
                    if b == i + 1 && a < i {
                        assert(entries@[a].before(entries@[i as int]));
                    }
                }
            }
            i += 1;
        }
        None
    }

    /// Decodes a book, rejecting anything that must not be trusted.
    fn decode(bytes: &[u8]) -> (r: Result<Book, BookError>)
        ensures
            match r {
                Ok(b) => file_error(bytes@) is None && b.entries@ == entries_in(bytes@) && b.ok(),
                Err(e) => file_error(bytes@) == Some(e),
            },
            r matches Err(BookError::Order { at }) ==> at < usize::MAX,
    {
        if bytes.len() < HEADER_SIZE {
            return Err(BookError::Short { len: bytes.len() });
        }
        proof {
            reveal_with_fuel(le_top, 5);
        }
        let mut k: usize = 0;
        while k < 8
            invariant
                k <= 8,
                bytes@.len() >= 32,
                forall|i: int| 0 <= i < k ==> #[trigger] bytes@[i] == BOOK_MAGIC@[i],
            decreases 8 - k,
        {
            if bytes[k] != BOOK_MAGIC[k] {
                assert(bytes@.subrange(0, 8)[k as int] != BOOK_MAGIC@[k as int]);
                return Err(BookError::BadMagic);
            }
            k += 1;
        }
        assert(bytes@.subrange(0, 8) =~= BOOK_MAGIC@);
        let version = read_le(bytes, 8, 2);
        if version != BOOK_VERSION as u64 {
            return Err(BookError::Version { version: version as u16 });
        }
        let size = read_le(bytes, 10, 2);
        if size != ENTRY_SIZE as u64 {
            return Err(BookError::EntrySize { size: size as u16 });
        }
        let flags = read_le(bytes, 12, 4);
        if flags != 0 {
            return Err(BookError::Flags { flags: flags as u32 });
        }
        let count = read_le(bytes, 24, 8) as usize;
        let fits = match file_size(count) {
            Some(n) => n == bytes.len(),
            None => false,
        };
        if !fits {
            return Err(BookError::Count { count, len: bytes.len() });
        }
        let mut entries: Vec<Entry> = Vec::new();
        let len = bytes.len();
        let mut i: usize = 0;
        while i < count
            invariant
                i <= count,
                count * 16 + 32 == len,
                len == bytes@.len(),
                entries@.len() == i,
                forall|j: int| 0 <= j < i ==> #[trigger] entries@[j] == entry_at(bytes@, 32 + 16 * j),
            decreases count - i,
        {
            entries.push(read_entry(bytes, HEADER_SIZE + ENTRY_SIZE * i));
            i += 1;
        }
        assert(entries@ =~= entries_in(bytes@));
        if let Some(at) = Book::find_disorder(&entries) {
            return Err(BookError::Order { at });
        }
        if let Some(e) = Book::check_entries(&entries) {
            return Err(e);
        }
        Ok(Book { entries })
    }

    /// Decodes a book, rejecting anything that must not be trusted.
    pub fn from_bytes(bytes: &[u8]) -> (r: Result<Book, String>)
        ensures
            match r {
                Ok(b) => file_error(bytes@) is None && b.entries@ == entries_in(bytes@) && b.ok(),
                Err(e) => file_error(bytes@) matches Some(x) && e@ == x.text(),
            },
    {
        match Book::decode(bytes) {
            Ok(b) => Ok(b),
            Err(e) => Err(e.message()),
        }
    }
}

// -- building ---------------------------------------------------------------------------

/// Ascending, with repetitions.
pub open spec fn sorted(s: Seq<Entry>) -> bool {
    forall|i: int, j: int| 0 <= i < j < s.len() ==> !(#[trigger] s[j]).before(#[trigger] s[i])
}

/// The first entry from `k` on whose position and move are those of the next.
pub open spec fn first_repeat(s: Seq<Entry>, k: int) -> Option<BookError>
    decreases s.len() - k,
{
    if k < 0 || k + 1 >= s.len() {
        None
    } else if s[k].same_place(s[k + 1]) {
        Some(BookError::Duplicate { key: s[k].key, mv: s[k].mv })
    } else {
        first_repeat(s, k + 1)
    }
}

/// What is wrong with sorted entries, if anything.
pub open spec fn set_error(s: Seq<Entry>) -> Option<BookError> {
    if first_repeat(s, 0) is Some {
        first_repeat(s, 0)
    } else {
        first_flaw(s, 0)
    }
}

/// `t` is `s` sorted.
pub open spec fn sorts(s: Seq<Entry>, t: Seq<Entry>) -> bool {
    sorted(t) && t.to_multiset() == s.to_multiset()
}

/// Law: sorting entries loses none and adds none.
pub proof fn sorting_keeps_the_entries(s: Seq<Entry>, t: Seq<Entry>, e: Entry)
    requires
        sorts(s, t),
    ensures
        t.contains(e) <==> s.contains(e),
        t.len() == s.len(),
{
    s.to_multiset_ensures();
    t.to_multiset_ensures();
    assert(s.to_multiset().count(e) == t.to_multiset().count(e));
}

/// Merges two sorted halves.
fn merge(a: &Vec<Entry>, b: &Vec<Entry>) -> (r: Vec<Entry>)
    requires
        sorted(a@),
        sorted(b@),
    ensures
        sorts(a@ + b@, r@),
{
    broadcast use vstd::multiset::group_multiset_axioms;

    let mut out: Vec<Entry> = Vec::new();
    let mut i: usize = 0;
    let mut j: usize = 0;
    proof {
        assert(out@.to_multiset() =~= a@.take(0).to_multiset().add(b@.take(0).to_multiset())) by {
            assert(a@.take(0) =~= Seq::<Entry>::empty());
            assert(b@.take(0) =~= Seq::<Entry>::empty());
            a@.take(0).to_multiset_ensures();
            b@.take(0).to_multiset_ensures();
            out@.to_multiset_ensures();
        }
    }
    while i < a.len() || j < b.len()
        invariant
            i <= a@.len(),
            j <= b@.len(),
            sorted(a@),
            sorted(b@),
            sorted(out@),
            out@.len() == i + j,
            forall|k: int, l: int|
                0 <= k < out@.len() && i <= l < a@.len() ==> !(#[trigger] a@[l]).before(
                    #[trigger] out@[k],
                ),
            forall|k: int, l: int|
                0 <= k < out@.len() && j <= l < b@.len() ==> !(#[trigger] b@[l]).before(
                    #[trigger] out@[k],
                ),
            out@.to_multiset() == a@.take(i as int).to_multiset().add(
                b@.take(j as int).to_multiset(),
            ),
        decreases a@.len() - i + b@.len() - j,
    {
        broadcast use vstd::multiset::group_multiset_axioms;

        let from_b = i >= a.len() || (j < b.len() && b[j].comes_before(&a[i]));
        let ghost before = out@;
        if from_b {
            let e = b[j];
            out.push(e);
            proof {
                lemma_push_sorted(before, e);
                lemma_take_more(b@, j as int);
                before.to_multiset_ensures();
                assert(out@.to_multiset() =~= a@.take(i as int).to_multiset().add(
                    b@.take(j + 1).to_multiset(),
                ));
                assert forall|l: int| i <= l < a@.len() implies !(#[trigger] a@[l]).before(e) by {
                    assert(b@[j as int].before(a@[i as int]));
                    if l > i {
                        assert(!a@[l].before(a@[i as int]));
                    }
                }
                assert forall|l: int| j < l < b@.len() implies !(#[trigger] b@[l]).before(e) by {
                    assert(!b@[l].before(b@[j as int]));
                }
            }
            j += 1;
        } else {
            let e = a[i];
            out.push(e);
            proof {
                lemma_push_sorted(before, e);
                lemma_take_more(a@, i as int);
                before.to_multiset_ensures();
                assert(out@.to_multiset() =~= a@.take(i + 1).to_multiset().add(
                    b@.take(j as int).to_multiset(),
                ));
                assert forall|l: int| j <= l < b@.len() implies !(#[trigger] b@[l]).before(e) by {
                    assert(!b@[j as int].before(a@[i as int]));
                    if l > j {
                        assert(!b@[l].before(b@[j as int]));
                    }
                }
                assert forall|l: int| i < l < a@.len() implies !(#[trigger] a@[l]).before(e) by {
                    assert(!a@[l].before(a@[i as int]));
                }
            }
            i += 1;
        }
    }
    proof {
        assert(a@.take(a@.len() as int) =~= a@);
        assert(b@.take(b@.len() as int) =~= b@);
        vstd::seq_lib::lemma_multiset_commutative(a@, b@);
    }
    out
}

proof fn lemma_push_sorted(s: Seq<Entry>, e: Entry)
    requires
        sorted(s),
        forall|k: int| 0 <= k < s.len() ==> !e.before(#[trigger] s[k]),
    ensures
        sorted(s.push(e)),
{
    let t = s.push(e);
    assert forall|i: int, j: int| 0 <= i < j < t.len() implies !(#[trigger] t[j]).before(
        #[trigger] t[i],
    ) by {
        assert(t[i] == s[i]);
        if j < s.len() {
            assert(t[j] == s[j]);
        }
    }
}

proof fn lemma_take_more(s: Seq<Entry>, i: int)
    requires
        0 <= i < s.len(),
    ensures
        s.take(i + 1).to_multiset() == s.take(i).to_multiset().insert(s[i]),
{
    assert(s.take(i + 1) =~= s.take(i).push(s[i]));
    s.take(i).to_multiset_ensures();
}

/// Sorts the entries from `from` up to `to`.
fn sort_range(v: &Vec<Entry>, from: usize, to: usize) -> (r: Vec<Entry>)
    requires
        from <= to <= v@.len(),
    ensures
        sorts(v@.subrange(from as int, to as int), r@),
    decreases to - from,
{
    if to - from <= 1 {
        let mut out: Vec<Entry> = Vec::new();
        if from < to {
            out.push(v[from]);
        }
        assert(out@ =~= v@.subrange(from as int, to as int));
        return out;
    }
    let mid = from + (to - from) / 2;
    let a = sort_range(v, from, mid);
    let b = sort_range(v, mid, to);
    let r = merge(&a, &b);
    proof {
        let x = v@.subrange(from as int, mid as int);
        let y = v@.subrange(mid as int, to as int);
        assert(v@.subrange(from as int, to as int) =~= x + y);
        vstd::seq_lib::lemma_multiset_commutative(x, y);
        vstd::seq_lib::lemma_multiset_commutative(a@, b@);
    }
    r
}

impl Book {
    /// Looks for the first repeated entry.
    fn find_repeat(entries: &Vec<Entry>) -> (r: Option<BookError>)
        requires
            sorted(entries@),
        ensures
            r == first_repeat(entries@, 0),
            r is None ==> in_order(entries@),
            r matches Some(e) ==> e !is Order,
    {
        let mut i: usize = 0;
        while i < entries.len() && i + 1 < entries.len()
            invariant
                i <= entries@.len(),
                sorted(entries@),
                first_repeat(entries@, 0) == first_repeat(entries@, i as int),
                forall|a: int, b: int|
                    0 <= a < b <= i && b < entries@.len() ==> (#[trigger] entries@[a]).before(
                        #[trigger] entries@[b],
                    ),
            decreases entries@.len() - i,
        {
            let e = entries[i];
            let f = entries[i + 1];
            if e.key == f.key && e.mv == f.mv {
                return Some(BookError::Duplicate { key: e.key, mv: e.mv });
            }
            proof {
                assert(!entries@[i + 1].before(entries@[i as int]));
                assert forall|a: int, b: int| 0 <= a < b <= i + 1 implies (
                #[trigger] entries@[a]).before(#[trigger] entries@[b]) by {
                    if b == i + 1 && a < i {
                        assert(entries@[a].before(entries@[i as int]));
                    }
                }
            }
            i += 1;
        }
        None
    }

    /// Validates and sorts a set of entries into a book.
    pub fn build(entries: Vec<Entry>) -> (r: Result<Book, String>)
        ensures
            exists|t: Seq<Entry>| #[trigger]
                sorts(entries@, t) && match r {
                    Ok(b) => set_error(t) is None && b.entries@ == t && b.ok(),
                    Err(e) => set_error(t) matches Some(x) && e@ == x.text(),
                },
    {
        let ghost given = entries@;
        let n = entries.len();
        let list = sort_range(&entries, 0, n);
        assert(entries@.subrange(0, n as int) =~= given);
        let ghost t = list@;
        assert(sorts(given, t));
        if let Some(e) = Book::find_repeat(&list) {
            return Err(e.message());
        }
        if let Some(e) = Book::check_entries(&list) {
            return Err(e.message());
        }
        Ok(Book { entries: list })
    }

    /// Every entry for `key`, in file order. Empty on a miss.
    pub fn get(&self, key: u64) -> (r: &[Entry])
        requires
            self.ok(),
        ensures
            exists|lo: int, hi: int|
                {
                    &&& 0 <= lo <= hi <= self.entries@.len()
                    &&& r@ == #[trigger] self.entries@.subrange(lo, hi)
                    &&& forall|i: int|
                        0 <= i < self.entries@.len() ==> ((#[trigger] self.entries@[i]).key == key
                            <==> lo <= i < hi)
                },
            r@ == run_of(self.entries@, key),
    {
        let n = self.entries.len();
        let mut lo: usize = 0;
        let mut top: usize = n;
        while lo < top
            invariant
                lo <= top <= n,
                n == self.entries@.len(),
                self.ok(),
                forall|i: int| 0 <= i < lo ==> (#[trigger] self.entries@[i]).key < key,
                forall|i: int| top <= i < n ==> (#[trigger] self.entries@[i]).key >= key,
            decreases top - lo,
        {
            let mid = lo + (top - lo) / 2;
            if self.entries[mid].key < key {
                proof {
                    assert forall|i: int| 0 <= i < mid + 1 implies (
                    #[trigger] self.entries@[i]).key < key by {
                        if i < mid {
                            assert(self.entries@[i].before(self.entries@[mid as int]));
                        }
                    }
                }
                lo = mid + 1;
            } else {
                proof {
                    assert forall|i: int| mid <= i < n implies (#[trigger] self.entries@[i]).key
                        >= key by {
                        if i > mid {
                            assert(self.entries@[mid as int].before(self.entries@[i]));
                        }
                    }
                }
                top = mid;
            }
        }
        let mut hi: usize = lo;
        while hi < n && self.entries[hi].key == key
            invariant
                lo <= hi <= n,
                n == self.entries@.len(),
                self.ok(),
                forall|i: int| lo <= i < hi ==> (#[trigger] self.entries@[i]).key == key,
            decreases n - hi,
        {
            hi += 1;
        }
        proof {
            assert forall|i: int| 0 <= i < n implies ((#[trigger] self.entries@[i]).key == key
                <==> lo <= i < hi) by {
                if i > hi {
                    assert(self.entries@[hi as int].before(self.entries@[i]));
                }
            }
            assert(self.entries@.subrange(lo as int, hi as int).len() == hi - lo);
            lemma_run(self.entries@, key, lo as int, hi as int);
        }
        slice_subrange(self.entries.as_slice(), lo, hi)
    }

    /// The entries for `b`, split by whether their move is actually legal in it.
    pub fn probe(&self, b: &Board, t: &Tables) -> (r: Probe)
        requires
            self.ok(),
            b.wf(),
        ensures
            r.legal@ == self.entries@.filter(|e: Entry| e.key == b.key && plays(b, e)),
            r.illegal@ == self.entries@.filter(|e: Entry| e.key == b.key && !plays(b, e)),
    {
        let mut list = MoveList::new();
        generate::<GEN_ALL>(b, t, &mut list);
        assert(list@ =~= moves_of(gen_of(b, GEN_ALL)));
        let ghost all = self.entries@;
        let ghost good = |e: Entry| e.key == b.key && plays(b, e);
        let ghost bad = |e: Entry| e.key == b.key && !plays(b, e);
        let run = self.get(b.key);
        let ghost (lo, hi) = choose|lo: int, hi: int|
            {
                &&& 0 <= lo <= hi <= self.entries@.len()
                &&& run@ == #[trigger] self.entries@.subrange(lo, hi)
                &&& forall|i: int|
                    0 <= i < self.entries@.len() ==> ((#[trigger] self.entries@[i]).key == b.key
                        <==> lo <= i < hi)
            };
        let mut legal: Vec<Entry> = Vec::new();
        let mut illegal: Vec<Entry> = Vec::new();
        proof {
            lemma_filter_none(all, good, lo);
            lemma_filter_none(all, bad, lo);
        }
        let n = run.len();
        let mut i: usize = 0;
        while i < n
            invariant
                i <= n,
                n == run@.len(),
                list.ok(),
                list@ == moves_of(gen_of(b, GEN_ALL)),
                all == self.entries@,
                0 <= lo <= hi <= all.len(),
                run@ == all.subrange(lo, hi),
                forall|k: int| lo <= k < hi ==> (#[trigger] all[k]).key == b.key,
                good == (|e: Entry| e.key == b.key && plays(b, e)),
                bad == (|e: Entry| e.key == b.key && !plays(b, e)),
                legal@ == all.take(lo + i).filter(good),
                illegal@ == all.take(lo + i).filter(bad),
            decreases n - i,
        {
            let e = run[i];
            proof {
                assert(e == all[lo + i]);
                lemma_filter_step(all, good, lo + i);
                lemma_filter_step(all, bad, lo + i);
            }
            if e.valid_move() && lists_move(&list, e.mov()) {
                legal.push(e);
            } else {
                illegal.push(e);
            }
            i += 1;
        }
        proof {
            lemma_filter_rest(all, good, hi);
            lemma_filter_rest(all, bad, hi);
        }
        Probe { legal, illegal }
    }
}

/// Is the entry's move one that can be played on `b`?
pub open spec fn plays(b: &Board, e: Entry) -> bool {
    could_be_move(e.mv) && moves_of(gen_of(b, GEN_ALL)).contains(Move(e.mv))
}

proof fn lemma_filter_step(s: Seq<Entry>, f: spec_fn(Entry) -> bool, i: int)
    requires
        0 <= i < s.len(),
    ensures
        s.take(i + 1).filter(f) == if f(s[i]) {
            s.take(i).filter(f).push(s[i])
        } else {
            s.take(i).filter(f)
        },
{
    reveal(Seq::filter);
    let t = s.take(i + 1);
    assert(t.drop_last() =~= s.take(i));
    assert(t.last() == s[i]);
}

proof fn lemma_filter_none(s: Seq<Entry>, f: spec_fn(Entry) -> bool, k: int)
    requires
        0 <= k <= s.len(),
        forall|i: int| 0 <= i < k ==> !f(#[trigger] s[i]),
    ensures
        s.take(k).filter(f) == Seq::<Entry>::empty(),
    decreases k,
{
    reveal(Seq::filter);
    if k > 0 {
        lemma_filter_none(s, f, k - 1);
        lemma_filter_step(s, f, k - 1);
    }
}

proof fn lemma_filter_rest(s: Seq<Entry>, f: spec_fn(Entry) -> bool, k: int)
    requires
        0 <= k <= s.len(),
        forall|i: int| k <= i < s.len() ==> !f(#[trigger] s[i]),
    ensures
        s.take(k).filter(f) == s.filter(f),
    decreases s.len() - k,
{
    if k < s.len() {
        lemma_filter_step(s, f, k);
        lemma_filter_rest(s, f, k + 1);
    } else {
        assert(s.take(k) =~= s);
    }
}

/// The result of looking one position up.
pub struct Probe {
    /// Entries whose move is legal in the position, in file order.
    pub legal: Vec<Entry>,
    /// Entries whose move is not. Never non-empty without a bug somewhere.
    pub illegal: Vec<Entry>,
}

// -- the choice ---------------------------------------------------------------------------

/// The move a probe chose, and enough context to explain the choice.
pub struct Choice {
    pub entry: Entry,
    /// The entry's weight after `variety` was applied.
    pub weight: u32,
    /// The sum over the run, so `weight / total` is the probability.
    pub total: u32,
    /// How many legal entries were in play.
    pub moves: usize,
}

/// The sum of the first `k` weights.
pub open spec fn weight_sum(w: Seq<u32>, k: int) -> int
    decreases k,
{
    if k <= 0 {
        0
    } else {
        weight_sum(w, k - 1) + w[k - 1]
    }
}

/// `i` is the first entry with the greatest weight.
pub open spec fn heaviest(s: Seq<Entry>, i: int) -> bool {
    &&& 0 <= i < s.len()
    &&& forall|j: int| 0 <= j < s.len() ==> (#[trigger] s[j]).weight <= s[i].weight
    &&& forall|j: int| 0 <= j < i ==> (#[trigger] s[j]).weight < s[i].weight
}

/// Applies `BookVariety` to a run of weights, where that takes whole numbers only.
///
/// `variety` is a percentage of the emitted temperature. 100 leaves the weights
/// exactly as the book has them. 0 is deterministic: all weight on the best move.
/// Without any weight nothing is playable. `None` is for every other variety,
/// which raises the weights to a fractional power.
pub fn apply_variety(legal: &[Entry], variety: i32) -> (r: Option<Vec<u32>>)
    ensures
        ({
            let blank = forall|i: int|
                0 <= i < legal@.len() ==> (#[trigger] legal@[i]).weight == 0;
            &&& r is None <==> !blank && variety > 0 && variety != 100
            &&& r matches Some(w) ==> {
                &&& w@.len() == legal@.len()
                &&& blank ==> forall|i: int| 0 <= i < w@.len() ==> #[trigger] w@[i] == 0
                &&& !blank && variety == 100 ==> forall|i: int|
                    0 <= i < w@.len() ==> #[trigger] w@[i] == legal@[i].weight
                &&& !blank && variety <= 0 ==> forall|i: int|
                    0 <= i < w@.len() ==> #[trigger] w@[i] == if heaviest(legal@, i) {
                        1u32
                    } else {
                        0
                    }
            }
        }),
{
    let n = legal.len();
    let mut best: usize = 0;
    let mut i: usize = 0;
    while i < n
        invariant
            i <= n,
            n == legal@.len(),
            i > 0 ==> best < i,
            forall|j: int| 0 <= j < i ==> (#[trigger] legal@[j]).weight <= legal@[best as int].weight,
            forall|j: int|
                0 <= j < best ==> (#[trigger] legal@[j]).weight < legal@[best as int].weight,
            i == 0 ==> best == 0,
        decreases n - i,
    {
        if legal[i].weight > legal[best].weight {
            best = i;
        }
        i += 1;
    }
    let blank = n == 0 || legal[best].weight == 0;
    proof {
        if !blank {
            assert(legal@[best as int].weight != 0);
            assert(heaviest(legal@, best as int));
        }
    }
    if !blank && variety > 0 && variety != 100 {
        return None;
    }
    let mut out: Vec<u32> = Vec::new();
    let mut i: usize = 0;
    while i < n
        invariant
            i <= n,
            n == legal@.len(),
            out@.len() == i,
            !blank ==> heaviest(legal@, best as int),
            forall|k: int|
                0 <= k < i ==> #[trigger] out@[k] == if blank {
                    0
                } else if variety == 100 {
                    legal@[k].weight as u32
                } else if k == best {
                    1
                } else {
                    0
                },
        decreases n - i,
    {
        let w: u32 = if blank {
            0
        } else if variety == 100 {
            legal[i].weight as u32
        } else if i == best {
            1
        } else {
            0
        };
        out.push(w);
        i += 1;
    }
    proof {
        if !blank && variety <= 0 {
            assert forall|k: int| 0 <= k < out@.len() implies #[trigger] out@[k] == if heaviest(
                legal@,
                k,
            ) {
                1u32
            } else {
                0
            } by {
                if heaviest(legal@, k) && k != best {
                    assert(legal@[k].weight <= legal@[best as int].weight);
                    assert(legal@[best as int].weight <= legal@[k].weight);
                }
            }
        }
    }
    Some(out)
}

/// The sum of the weights, if a `u32` holds it.
pub fn total_weight(weights: &[u32]) -> (r: Option<u32>)
    ensures
        match r {
            Some(t) => t == weight_sum(weights@, weights@.len() as int),
            None => weight_sum(weights@, weights@.len() as int) > u32::MAX,
        },
{
    let n = weights.len();
    let mut total: u32 = 0;
    let mut i: usize = 0;
    while i < n
        invariant
            i <= n,
            n == weights@.len(),
            total == weight_sum(weights@, i as int),
        decreases n - i,
    {
        match total.checked_add(weights[i]) {
            Some(t) => {
                total = t;
            },
            None => {
                proof {
                    lemma_sum_grows(weights@, i + 1, n as int);
                }
                return None;
            },
        }
        i += 1;
    }
    Some(total)
}

proof fn lemma_sum_grows(w: Seq<u32>, a: int, b: int)
    requires
        0 <= a <= b <= w.len(),
    ensures
        weight_sum(w, a) <= weight_sum(w, b),
    decreases b - a,
{
    if a < b {
        lemma_sum_grows(w, a, b - 1);
    }
}

/// Chooses one entry by weight: the one that `draw`, a number below the sum of the
/// weights, falls to. `None` when nothing is playable. What has no weight is never
/// chosen.
pub fn choose_entry(legal: &[Entry], weights: &[u32], draw: u32) -> (r: Option<Choice>)
    requires
        legal@.len() == weights@.len(),
        weight_sum(weights@, weights@.len() as int) <= u32::MAX,
        weight_sum(weights@, weights@.len() as int) > 0 ==> draw < weight_sum(
            weights@,
            weights@.len() as int,
        ),
    ensures
        r is None <==> weight_sum(weights@, weights@.len() as int) == 0,
        r matches Some(c) ==> {
            &&& c.total == weight_sum(weights@, weights@.len() as int)
            &&& c.moves == legal@.len()
            &&& c.weight > 0
            &&& exists|i: int|
                {
                    &&& 0 <= i < legal@.len()
                    &&& c.entry == #[trigger] legal@[i]
                    &&& c.weight == weights@[i]
                    &&& weight_sum(weights@, i) <= draw < weight_sum(weights@, i + 1)
                }
        },
{
    let total = match total_weight(weights) {
        Some(t) => t,
        None => {
            return None;
        },
    };
    if total == 0 {
        return None;
    }
    let n = weights.len();
    let moves = legal.len();
    let mut left: u32 = draw;
    let mut i: usize = 0;
    while i < n
        invariant
            i <= n,
            n == weights@.len(),
            moves == n,
            legal@.len() == n,
            total == weight_sum(weights@, n as int),
            draw < total,
            left == draw - weight_sum(weights@, i as int),
        decreases n - i,
    {
        let w = weights[i];
        if left < w {
            assert(weight_sum(weights@, i + 1) == weight_sum(weights@, i as int) + w);
            let entry = legal[i];
            assert(entry == legal@[i as int]);
            return Some(Choice { entry, weight: w, total, moves });
        }
        left = left - w;
        i += 1;
    }
    None
}

/// Law: every draw below the sum falls to exactly one entry.
pub proof fn a_draw_falls_to_one(w: Seq<u32>, draw: int, i: int, j: int)
    requires
        0 <= i < w.len(),
        0 <= j < w.len(),
        weight_sum(w, i) <= draw < weight_sum(w, i + 1),
        weight_sum(w, j) <= draw < weight_sum(w, j + 1),
    ensures
        i == j,
{
    if i < j {
        lemma_sum_grows(w, i + 1, j);
    }
    if j < i {
        lemma_sum_grows(w, j + 1, i);
    }
}

/// `cp N` or `mate N`, for the score of one book entry.
pub fn score_string(score: i16) -> (r: String)
    ensures
        r@ == score_text(score as int),
{
    score_to_uci(score as i32)
}

} // verus!
