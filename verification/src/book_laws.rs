//! What a book file holds and what is played from it, byte by byte and draw by draw.

use vstd::prelude::*;

use crate::text::{decimal, decimal_int};
use crate::notation::move_name;
use crate::attacks::Tables;
use crate::board::Board;
use crate::book::{
    BOOK_MAGIC, Book, BookError, Choice, Entry, Probe, a_draw_falls_to_one, apply_variety,
    choose_entry, could_be_move, entries_in, entry_at, first_disorder, first_flaw, first_repeat,
    flaw_of, heaviest, hex, hex_digit, hex_padded, le, plays, score_string, set_error, sorted,
    sorts, total_weight, weight_sum,
};
use crate::movegen::{GEN_ALL, gen_of, moves_of};
use crate::movegen_laws::generated_exactly_legal;
use crate::position::legal;
use crate::score::score_to_uci;
use crate::types::Move;

verus! {

/// `e` is written in the sixteen bytes from `at` on: the key in eight, the move in four,
/// the weight in two and the score in two, lowest byte first.
pub open spec fn is_written_at(s: Seq<u8>, at: int, e: Entry) -> bool {
    &&& e.key == s[at] + 256 * s[at + 1] + 65536 * s[at + 2] + 16777216 * s[at + 3] + 4294967296
        * s[at + 4] + 1099511627776 * s[at + 5] + 281474976710656 * s[at + 6] + 72057594037927936
        * s[at + 7]
    &&& e.mv == s[at + 8] + 256 * s[at + 9] + 65536 * s[at + 10] + 16777216 * s[at + 11]
    &&& e.weight == s[at + 12] + 256 * s[at + 13]
    &&& e.score as int % 65536 == s[at + 14] + 256 * s[at + 15]
}

proof fn lemma_written(s: Seq<u8>, at: int)
    requires
        0 <= at,
        at + 16 <= s.len(),
    ensures
        is_written_at(s, at, entry_at(s, at)),
{
    reveal_with_fuel(le, 9);
}

/// Law: an entry is read from its sixteen bytes.
pub proof fn an_entry_is_sixteen_bytes(b: &[u8], r: Entry)
    requires
        b@.len() >= 16,
        call_ensures(Entry::from_bytes, (b,), r),
    ensures
        is_written_at(b@, 0, r),
{
    lemma_written(b@, 0);
}

/// `mv` is the number of some move: two squares of the board, perhaps a promotion, and
/// nothing else.
pub open spec fn numbers_a_move(mv: u32) -> bool {
    0 < mv < 262144 && mv % 128 < 100 && mv / 128 % 128 < 100 && mv / 16384 % 8 < 7
}

/// Law: an entry's move is taken for one where its number is that of some move.
pub proof fn an_entry_may_hold_a_move(e: Entry, r: bool, m: Move)
    requires
        call_ensures(Entry::valid_move, (&e,), r),
        call_ensures(Entry::mov, (&e,), m),
    ensures
        r <==> numbers_a_move(e.mv),
        m.0 == e.mv,
{
}

/// An entry that a book may hold.
pub open spec fn is_sane(e: Entry) -> bool {
    numbers_a_move(e.mv) && -32000 <= e.score <= 32000
}

/// Entries in ascending order of key and then of move, none twice.
pub open spec fn ascends(s: Seq<Entry>) -> bool {
    forall|i: int, j: int|
        0 <= i < j < s.len() ==> (#[trigger] s[i]).key < (#[trigger] s[j]).key || (s[i].key
            == s[j].key && s[i].mv < s[j].mv)
}

proof fn lemma_no_flaw(s: Seq<Entry>, k: int)
    requires
        0 <= k <= s.len(),
    ensures
        first_flaw(s, k) is None <==> forall|i: int| k <= i < s.len() ==> is_sane(#[trigger] s[i]),
    decreases s.len() - k,
{
    if k < s.len() {
        lemma_no_flaw(s, k + 1);
        assert(flaw_of(s[k]) is None <==> is_sane(s[k]));
    }
}

proof fn lemma_no_disorder(s: Seq<Entry>, k: int)
    requires
        0 <= k <= s.len(),
        ascends(s),
    ensures
        first_disorder(s, k) is None,
    decreases s.len() - k,
{
    if k + 1 < s.len() {
        assert(s[k].before(s[k + 1]));
        lemma_no_disorder(s, k + 1);
    }
}

/// The header of a book file: eight letters, version 1, entries of sixteen bytes and no flags.
pub open spec fn is_header(s: Seq<u8>) -> bool {
    &&& s[0] as char == 'M' && s[1] as char == 'B' && s[2] as char == 'C' && s[3] as char == 'A'
    &&& s[4] as char == 'B' && s[5] as char == 'O' && s[6] as char == 'O' && s[7] as char == 'K'
    &&& s[8] == 1 && s[9] == 0
    &&& s[10] == 16 && s[11] == 0
    &&& s[12] == 0 && s[13] == 0 && s[14] == 0 && s[15] == 0
}

/// The number of entries that the header ends with.
pub open spec fn header_count(s: Seq<u8>) -> int {
    s[24] + 256 * s[25] + 65536 * s[26] + 16777216 * s[27] + 4294967296 * s[28] + 1099511627776
        * s[29] + 281474976710656 * s[30] + 72057594037927936 * s[31]
}

proof fn lemma_header(s: Seq<u8>)
    requires
        s.len() >= 32,
    ensures
        is_header(s) <==> s.subrange(0, 8) == BOOK_MAGIC@ && le(s, 8, 2) == 1 && le(s, 10, 2) == 16
            && le(s, 12, 4) == 0,
        le(s, 24, 8) == header_count(s),
{
    reveal_with_fuel(le, 9);
    let t = s.subrange(0, 8);
    assert(BOOK_MAGIC@ =~= seq![77u8, 66u8, 67u8, 65u8, 66u8, 79u8, 79u8, 75u8]);
    if is_header(s) {
        assert(t =~= BOOK_MAGIC@);
    }
    if t == BOOK_MAGIC@ {
        assert(t[0] == s[0] && t[1] == s[1] && t[2] == s[2] && t[3] == s[3]);
        assert(t[4] == s[4] && t[5] == s[5] && t[6] == s[6] && t[7] == s[7]);
    }
}

/// Law: a file is a book where its header says how many entries it holds and they are
/// sane and in ascending order, and only then; the book has those entries.
pub proof fn a_book_is_its_file(bytes: &[u8], count: int, entries: Seq<Entry>, r: Result<Book, String>)
    requires
        call_ensures(Book::from_bytes, (bytes,), r),
        bytes@.len() == 32 + 16 * count,
        0 <= count <= usize::MAX,
        entries.len() == count,
        forall|i: int| 0 <= i < count ==> is_written_at(bytes@, 32 + 16 * i, #[trigger] entries[i]),
    ensures
        is_header(bytes@) && header_count(bytes@) == count && ascends(entries) && (forall|i: int|
            0 <= i < count ==> is_sane(#[trigger] entries[i])) ==> r is Ok,
        r matches Ok(b) ==> {
            &&& b.entries@ == entries
            &&& is_header(bytes@)
            &&& header_count(bytes@) as u64 as usize == count
            &&& ascends(entries)
            &&& forall|i: int| 0 <= i < count ==> is_sane(#[trigger] entries[i])
        },
{
    let s = bytes@;
    let all = entries_in(s);
    assert(all.len() == count);
    assert(all =~= entries) by {
        assert forall|i: int| 0 <= i < count implies #[trigger] all[i] == entries[i] by {
            lemma_written(s, 32 + 16 * i);
            assert(is_written_at(s, 32 + 16 * i, entries[i]));
        }
    }
    lemma_header(s);
    lemma_no_flaw(all, 0);
    if ascends(all) {
        lemma_no_disorder(all, 0);
    }
    if r is Ok {
        let b = r->Ok_0;
        assert(b.ok());
        assert forall|i: int, j: int| 0 <= i < j < all.len() implies (#[trigger] all[i]).key < (
        #[trigger] all[j]).key || (all[i].key == all[j].key && all[i].mv < all[j].mv) by {
            assert(b.entries@[i].before(b.entries@[j]));
        }
    }
}

/// Law: a file that is no header and whole entries is no book.
pub proof fn a_torn_file_is_no_book(bytes: &[u8], r: Result<Book, String>)
    requires
        call_ensures(Book::from_bytes, (bytes,), r),
        bytes@.len() < 32 || (bytes@.len() - 32) % 16 != 0,
    ensures
        r is Err,
{
}

proof fn lemma_no_repeat(s: Seq<Entry>, k: int)
    requires
        0 <= k <= s.len(),
        sorted(s),
    ensures
        first_repeat(s, k) is None <==> forall|i: int, j: int|
            k <= i < j < s.len() ==> !((#[trigger] s[i]).key == (#[trigger] s[j]).key && s[i].mv
                == s[j].mv),
    decreases s.len() - k,
{
    if k + 1 < s.len() {
        lemma_no_repeat(s, k + 1);
        if first_repeat(s, k) is None {
            assert forall|i: int, j: int| k <= i < j < s.len() implies !((#[trigger] s[i]).key == (
            #[trigger] s[j]).key && s[i].mv == s[j].mv) by {
                if i == k && j > k + 1 {
                    assert(!s[j].before(s[k + 1]));
                    assert(!s[k + 1].before(s[k]));
                    if s[k].key == s[j].key && s[k].mv == s[j].mv {
                        assert(s[k].same_place(s[k + 1]));
                    }
                }
            }
        } else if s[k].same_place(s[k + 1]) {
            assert(s[k].key == s[k + 1].key && s[k].mv == s[k + 1].mv);
        }
    }
}

/// Law: a book can be built from entries exactly where all are sane and no move occurs
/// twice for a position; it has the same entries in ascending order.
pub proof fn a_book_is_built_from_its_entries(entries: Vec<Entry>, r: Result<Book, String>)
    requires
        call_ensures(Book::build, (entries,), r),
    ensures
        r is Ok <==> (forall|i: int| 0 <= i < entries@.len() ==> is_sane(#[trigger] entries@[i])) && (forall|
            i: int,
            j: int,
        |
            0 <= i < j < entries@.len() ==> !((#[trigger] entries@[i]).key == (
            #[trigger] entries@[j]).key && entries@[i].mv == entries@[j].mv)),
        r matches Ok(b) ==> ascends(b.entries@) && b.entries@.to_multiset() == entries@.to_multiset(),
{
    let t = choose|t: Seq<Entry>| #[trigger]
        sorts(entries@, t) && match r {
            Ok(b) => set_error(t) is None && b.entries@ == t && b.ok(),
            Err(e) => set_error(t) matches Some(x) && e@ == x.text(),
        };
    lemma_no_repeat(t, 0);
    lemma_no_flaw(t, 0);
    lemma_same_entries(entries@, t);
    lemma_same_entries(t, entries@);
    if r is Ok {
        let b = r->Ok_0;
        assert forall|i: int, j: int| 0 <= i < j < t.len() implies (#[trigger] t[i]).key < (
        #[trigger] t[j]).key || (t[i].key == t[j].key && t[i].mv < t[j].mv) by {
            assert(b.entries@[i].before(b.entries@[j]));
        }
    }
}

/// No move occurs twice for a position.
pub open spec fn all_apart(s: Seq<Entry>) -> bool {
    forall|i: int, j: int|
        0 <= i < j < s.len() ==> !((#[trigger] s[i]).key == (#[trigger] s[j]).key && s[i].mv
            == s[j].mv)
}

/// What holds of all entries, or of all pairs of them, holds in any order.
proof fn lemma_same_entries(s: Seq<Entry>, t: Seq<Entry>)
    requires
        s.to_multiset() == t.to_multiset(),
    ensures
        (forall|i: int| 0 <= i < s.len() ==> is_sane(#[trigger] s[i])) ==> (forall|i: int|
            0 <= i < t.len() ==> is_sane(#[trigger] t[i])),
        all_apart(s) ==> all_apart(t),
{
    broadcast use vstd::multiset::group_multiset_axioms;
    s.to_multiset_ensures();
    t.to_multiset_ensures();
    assert forall|i: int| 0 <= i < t.len() implies s.contains(#[trigger] t[i]) by {
        assert(t.contains(t[i]));
        assert(t.to_multiset().count(t[i]) > 0);
    }
    if all_apart(s) {
        assert forall|i: int, j: int| 0 <= i < j < t.len() implies !((#[trigger] t[i]).key == (
        #[trigger] t[j]).key && t[i].mv == t[j].mv) by {
            let (x, y) = (t[i], t[j]);
            if x.key == y.key && x.mv == y.mv {
                let a = choose|a: int| 0 <= a < s.len() && s[a] == x;
                let b = choose|b: int| 0 <= b < s.len() && s[b] == y;
                if a < b {
                    assert(!(s[a].key == s[b].key && s[a].mv == s[b].mv));
                } else if b < a {
                    assert(!(s[b].key == s[a].key && s[b].mv == s[a].mv));
                }
                assert(x == y);
                lemma_twice(t, i, j);
                lemma_once(s, a);
            }
        }
    }
}

/// What occurs at two places counts twice.
proof fn lemma_twice(t: Seq<Entry>, i: int, j: int)
    requires
        0 <= i < j < t.len(),
        t[i] == t[j],
    ensures
        t.to_multiset().count(t[i]) >= 2,
{
    broadcast use vstd::multiset::group_multiset_axioms;
    t.to_multiset_ensures();
    let u = t.remove(j);
    u.to_multiset_ensures();
    assert(u[i] == t[i]);
    assert(u.contains(t[i]));
    assert(u.to_multiset().count(t[i]) > 0);
    assert(u.insert(j, t[j]) =~= t);
    vstd::seq_lib::to_multiset_insert(u, j, t[j]);
    assert(t.to_multiset().count(t[i]) == u.to_multiset().count(t[i]) + 1);
}

/// What is apart from all others counts once.
proof fn lemma_once(s: Seq<Entry>, a: int)
    requires
        all_apart(s),
        0 <= a < s.len(),
    ensures
        s.to_multiset().count(s[a]) <= 1,
{
    broadcast use vstd::multiset::group_multiset_axioms;
    s.to_multiset_ensures();
    let u = s.remove(a);
    u.to_multiset_ensures();
    assert(u.to_multiset() =~= s.to_multiset().remove(s[a]));
    if u.to_multiset().count(s[a]) > 0 {
        assert(u.contains(s[a]));
        let k = choose|k: int| 0 <= k < u.len() && u[k] == s[a];
        let b = if k < a { k } else { k + 1 };
        assert(s[b] == s[a]);
        if a < b {
            assert(!(s[a].key == s[b].key && s[a].mv == s[b].mv));
        } else {
            assert(!(s[b].key == s[a].key && s[b].mv == s[a].mv));
        }
    }
}

/// Law: looking a key up gives its entries, all of them and in their order, and no others.
pub proof fn a_key_is_looked_up(book: Book, key: u64, r: &[Entry], e: Entry)
    requires
        book.ok(),
        call_ensures(Book::get, (&book, key), r),
    ensures
        r@.contains(e) <==> book.entries@.contains(e) && e.key == key,
        ascends(r@),
{
    let s = book.entries@;
    let (lo, hi) = choose|lo: int, hi: int|
        {
            &&& 0 <= lo <= hi <= s.len()
            &&& r@ == #[trigger] s.subrange(lo, hi)
            &&& forall|i: int|
                0 <= i < s.len() ==> ((#[trigger] s[i]).key == key <==> lo <= i < hi)
        };
    if r@.contains(e) {
        let i = choose|i: int| 0 <= i < r@.len() && r@[i] == e;
        assert(s[lo + i] == e);
    }
    if s.contains(e) && e.key == key {
        let i = choose|i: int| 0 <= i < s.len() && s[i] == e;
        assert(r@[i - lo] == e);
    }
    assert forall|i: int, j: int| 0 <= i < j < r@.len() implies (#[trigger] r@[i]).key < (
    #[trigger] r@[j]).key || (r@[i].key == r@[j].key && r@[i].mv < r@[j].mv) by {
        assert(s[lo + i].before(s[lo + j]));
    }
}

/// Law: a position's playable entries are those with its key whose move is legal there,
/// and the rest of those with its key are set apart.
pub proof fn a_position_is_looked_up(book: Book, b: Board, tables: Tables, r: Probe, e: Entry)
    requires
        book.ok(),
        b.wf(),
        call_ensures(Book::probe, (&book, &b, &tables), r),
    ensures
        r.legal@.contains(e) <==> book.entries@.contains(e) && e.key == b.key && legal(
            b.q(),
            b.stm,
            b.ep,
            Move(e.mv),
        ),
        r.illegal@.contains(e) <==> book.entries@.contains(e) && e.key == b.key && !legal(
            b.q(),
            b.stm,
            b.ep,
            Move(e.mv),
        ),
{
    let s = book.entries@;
    let good = |e: Entry| e.key == b.key && plays(&b, e);
    let bad = |e: Entry| e.key == b.key && !plays(&b, e);
    generated_exactly_legal(gen_of(&b, GEN_ALL));
    assert(moves_of(gen_of(&b, GEN_ALL)).contains(Move(e.mv)) <==> Move(e.mv).compact() && legal(
        b.q(),
        b.stm,
        b.ep,
        Move(e.mv),
    ));
    assert(r.legal@ == s.filter(good));
    assert(r.illegal@ == s.filter(bad));
    if s.contains(e) {
        let i = choose|i: int| 0 <= i < s.len() && s[i] == e;
        assert(flaw_of(s[i]) is None);
        assert(could_be_move(e.mv));
    }
    lemma_filter_contains(s, good, e);
    lemma_filter_contains(s, bad, e);
}

proof fn lemma_filter_contains(s: Seq<Entry>, f: spec_fn(Entry) -> bool, e: Entry)
    ensures
        s.filter(f).contains(e) <==> s.contains(e) && f(e),
    decreases s.len(),
{
    reveal(Seq::filter);
    if s.len() > 0 {
        let t = s.drop_last();
        lemma_filter_contains(t, f, e);
        let g = t.filter(f);
        if s.contains(e) && f(e) {
            let i = choose|i: int| 0 <= i < s.len() && s[i] == e;
            if i < t.len() {
                assert(t[i] == e);
                let k = choose|k: int| 0 <= k < g.len() && g[k] == e;
                assert(s.filter(f)[k] == e);
            } else {
                assert(s.filter(f).last() == e);
            }
        }
        if s.filter(f).contains(e) {
            let k = choose|k: int| 0 <= k < s.filter(f).len() && s.filter(f)[k] == e;
            if k < g.len() {
                assert(g[k] == e);
                let i = choose|i: int| 0 <= i < t.len() && t[i] == e;
                assert(s[i] == e);
            } else {
                assert(s.last() == e);
            }
        }
    }
}

// -- the choice ----------------------------------------------------------------------

/// Law: full variety plays by the weights of the book, none plays the heaviest entry, the
/// first of several, and without any weight nothing is played.
pub proof fn variety_runs_from_the_best_to_the_book(legal: &[Entry], i: int, full: Option<Vec<u32>>, none: Option<Vec<u32>>)
    requires
        call_ensures(apply_variety, (legal, 100), full),
        call_ensures(apply_variety, (legal, 0), none),
        0 <= i < legal@.len(),
    ensures
        full matches Some(w) && w@.len() == legal@.len() && w@[i] == legal@[i].weight,
        none matches Some(w) && w@.len() == legal@.len() && (w@[i] > 0 <==> legal@[i].weight > 0 && (
        forall|j: int|
            0 <= j < legal@.len() ==> (#[trigger] legal@[j]).weight <= legal@[i].weight && (j < i
                ==> legal@[j].weight < legal@[i].weight))),
{
    let blank = forall|i: int| 0 <= i < legal@.len() ==> (#[trigger] legal@[i]).weight == 0;
    if blank {
        assert(legal@[i].weight == 0);
    } else {
        let k = choose|k: int| 0 <= k < legal@.len() && (#[trigger] legal@[k]).weight != 0;
        if heaviest(legal@, i) {
            assert(legal@[k].weight <= legal@[i].weight);
        }
    }
}

/// Law: an entry is chosen by as many draws as it has weight: the first by the first
/// draws, and the others as if it were not there by the draws after them.
pub proof fn an_entry_is_chosen_by_its_weight(
    legal: &[Entry],
    weights: &[u32],
    draw: u32,
    rest: &[Entry],
    others: &[u32],
    r: Option<Choice>,
    later: Option<Choice>,
)
    requires
        legal@.len() == weights@.len(),
        legal@.len() > 0,
        weight_sum(weights@, weights@.len() as int) <= u32::MAX,
        draw < weight_sum(weights@, weights@.len() as int),
        rest@ == legal@.drop_first(),
        others@ == weights@.drop_first(),
        call_ensures(choose_entry, (legal, weights, draw), r),
        call_ensures(choose_entry, (rest, others, (draw - weights@[0]) as u32), later),
    ensures
        r is Some,
        draw < weights@[0] ==> r->0.entry == legal@[0] && r->0.weight == weights@[0],
        draw >= weights@[0] ==> later is Some && r->0.entry == later->0.entry && r->0.weight
            == later->0.weight && r->0.total == later->0.total + weights@[0],
        r->0.weight > 0,
        r->0.moves == legal@.len(),
{
    let w = weights@;
    let n = w.len() as int;
    let i = choose|i: int|
        {
            &&& 0 <= i < legal@.len()
            &&& r->0.entry == #[trigger] legal@[i]
            &&& r->0.weight == w[i]
            &&& weight_sum(w, i) <= draw < weight_sum(w, i + 1)
        };
    assert(weight_sum(w, 1) == weight_sum(w, 0) + w[0]);
    assert(weight_sum(w, 0) == 0);
    if draw < w[0] {
        a_draw_falls_to_one(w, draw as int, i, 0);
    } else {
        lemma_sum_rest(w, n - 1);
        let d = draw - w[0];
        let k = choose|k: int|
            {
                &&& 0 <= k < rest@.len()
                &&& later->0.entry == #[trigger] rest@[k]
                &&& later->0.weight == others@[k]
                &&& weight_sum(others@, k) <= d < weight_sum(others@, k + 1)
            };
        lemma_sum_rest(w, k);
        lemma_sum_rest(w, k + 1);
        a_draw_falls_to_one(w, draw as int, i, k + 1);
    }
}

proof fn lemma_sum_rest(w: Seq<u32>, k: int)
    requires
        0 <= k < w.len(),
    ensures
        weight_sum(w, k + 1) == w[0] + weight_sum(w.drop_first(), k),
    decreases k,
{
    if k > 0 {
        lemma_sum_rest(w, k - 1);
    } else {
        assert(weight_sum(w, 0) == 0);
    }
}

/// Law: one more weight adds itself to the sum, and nothing weighs nothing.
pub proof fn weights_add_up(weights: &[u32], more: &[u32], x: u32, r: Option<u32>, rm: Option<u32>)
    requires
        more@ == weights@.push(x),
        call_ensures(total_weight, (weights,), r),
        call_ensures(total_weight, (more,), rm),
    ensures
        weights@.len() == 0 ==> r == Some(0u32),
        r matches Some(t) ==> (if t + x <= u32::MAX {
            rm == Some((t + x) as u32)
        } else {
            rm is None
        }),
        r is None ==> rm is None,
{
    lemma_sum_prefix(weights@, x, weights@.len() as int);
}

proof fn lemma_sum_prefix(w: Seq<u32>, x: u32, k: int)
    requires
        0 <= k <= w.len(),
    ensures
        weight_sum(w.push(x), k) == weight_sum(w, k),
    decreases k,
{
    if k > 0 {
        lemma_sum_prefix(w, x, k - 1);
    }
}

/// Law: a book counts its entries, and its positions once each.
pub proof fn a_book_counts_its_entries(book: Book, n: usize, none: bool, positions: usize)
    requires
        book.ok(),
        call_ensures(Book::len, (&book,), n),
        call_ensures(Book::is_empty, (&book,), none),
        call_ensures(Book::positions, (&book,), positions),
    ensures
        n == book.entries@.len(),
        none <==> n == 0,
        positions <= n,
        n > 0 ==> positions > 0,
        (forall|i: int, j: int| 0 <= i < j < n ==> (#[trigger] book.entries@[i]).key < (#[trigger] book.entries@[j]).key)
            ==> positions == n,
        (forall|i: int| 0 <= i < n ==> (#[trigger] book.entries@[i]).key == book.entries@[0].key) && n > 0
            ==> positions == 1,
{
    let keys = book.entries@.map_values(|e: Entry| e.key);
    keys.lemma_cardinality_of_set();
    if n > 0 {
        assert(keys[0] == book.entries@[0].key);
        assert(keys.to_set().contains(keys[0]));
        assert(keys.to_set().finite());
        if keys.to_set().len() == 0 {
            keys.to_set().lemma_len0_is_empty();
        }
    }
    if forall|i: int, j: int| 0 <= i < j < n ==> (#[trigger] book.entries@[i]).key < (#[trigger] book.entries@[j]).key {
        assert(keys.no_duplicates()) by {
            assert forall|i: int, j: int| 0 <= i < keys.len() && 0 <= j < keys.len() && i != j implies keys[i]
                != keys[j] by {
                assert(keys[i] == book.entries@[i].key && keys[j] == book.entries@[j].key);
            }
        }
        keys.unique_seq_to_set();
    }
    if (forall|i: int| 0 <= i < n ==> (#[trigger] book.entries@[i]).key == book.entries@[0].key) && n > 0 {
        let one = Set::<u64>::empty().insert(keys[0]);
        assert(keys.to_set() =~= one) by {
            assert forall|x: u64| keys.to_set().contains(x) implies one.contains(x) by {
                let i = choose|i: int| 0 <= i < keys.len() && keys[i] == x;
                assert(book.entries@[i].key == book.entries@[0].key);
            }
        }
        assert(one.len() == 1);
    }
}

/// Law: a book's score is told as any other.
pub proof fn a_book_score_is_told_as_any_other(score: i16, r: String, other: String)
    requires
        call_ensures(score_string, (score,), r),
        call_ensures(score_to_uci, (score as i32,), other),
    ensures
        r@ == other@,
{
}

/// Law: hexadecimal digits, as many as it takes or as many as are asked for.
pub proof fn a_number_in_hexadecimal(n: nat, d: nat, width: int)
    requires
        d < 16,
        width > 0,
    ensures
        hex(d) == hex_padded(d, 1),
        n > 0 ==> hex(16 * n + d) == hex(n) + hex(d),
        hex_padded(16 * n + d, width) == hex_padded(n, width - 1) + hex(d),
        hex_padded(n, width).len() == width,
        d < 10 ==> hex(d)[0] as u32 == '0' as u32 + d,
        d >= 10 ==> hex(d)[0] as u32 == 'a' as u32 + d - 10,
{
    assert((16 * n + d) / 16 == n);
    assert((16 * n + d) % 16 == d);
    assert(hex_padded(d / 16, 0) =~= Seq::empty());
    assert(d % 16 == d);
    assert(hex_padded(d, 1) =~= seq![hex_digit(d as int)]);
    if n > 0 {
        assert(hex(16 * n + d) =~= hex(n) + hex(d));
    }
    assert(hex_padded(16 * n + d, width) =~= hex_padded(n, width - 1) + hex(d));
    lemma_padded_len(n, width);
}

proof fn lemma_padded_len(n: nat, width: int)
    requires
        width >= 0,
    ensures
        hex_padded(n, width).len() == width,
    decreases width,
{
    if width > 0 {
        lemma_padded_len(n / 16, width - 1);
    }
}

/// Law: what is wrong with a book is told with the numbers that are.
pub proof fn what_is_wrong_with_a_book_is_told(e: BookError, r: String)
    requires
        call_ensures(BookError::message, (&e,), r),
    ensures
        e matches BookError::Short { len } ==> r@ == decimal(len as nat) + " bytes is shorter than a header"@,
        e is BadMagic ==> r@ == "not a book file (bad magic)"@,
        e matches BookError::Version { version } ==> r@ == "version "@ + decimal(version as nat) + ", expected 1"@,
        e matches BookError::EntrySize { size } ==> r@ == "entry size "@ + decimal(size as nat) + ", expected 16"@,
        e matches BookError::Flags { flags } ==> r@ == "reserved flags are 0x"@ + hex(flags as nat)
            + ", expected 0"@,
        e matches BookError::Order { at } ==> r@ == "entries "@ + decimal(at as nat) + " and "@ + decimal(
            (at + 1) as nat,
        ) + " are out of order or duplicated"@,
        e matches BookError::Duplicate { key, mv } ==> r@ == "duplicate entry for key "@ + hex_padded(
            key as nat,
            16,
        ) + " move "@ + move_name(Move(mv)),
        e matches BookError::NotAMove { key, mv } ==> r@ == "key "@ + hex_padded(key as nat, 16) + " has 0x"@
            + hex(mv as nat) + ", which is not a move"@,
        e matches BookError::BadScore { key, score } ==> r@ == "key "@ + hex_padded(key as nat, 16)
            + " has score "@ + decimal_int(score as int),
{
}

} // verus!
