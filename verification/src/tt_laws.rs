//! What the table gives back of what it is told, and what it gives up.

use vstd::prelude::*;

use crate::history::clamp_to;
use crate::position::{lemma_xor, moved};
use crate::tt::{
    Hit, Slots, Tt, count_fresh, permille_fresh, power_of_two, refresh_keeps_the_entry,
    share_fresh, store_then_probe, unpack, unpack_gen, unpack_gives_back, unpacked,
};
use crate::types::Move;

verus! {

/// Slot `i` of `s` holds an entry for `key`.
pub open spec fn is_for(s: Slots, i: int, key: u64) -> bool {
    0 <= i < 4 && s.data[i] != 0 && s.key[i] ^ s.data[i] == key
}

/// Law: a bucket finds the first entry for a key, and none exactly where there is none.
pub proof fn a_bucket_finds_the_first_entry(s: Slots, key: u64, j: int, r: Option<usize>)
    requires
        call_ensures(Slots::find, (&s, key), r),
    ensures
        r matches Some(i) ==> is_for(s, i as int, key) && (is_for(s, j, key) ==> i <= j),
        r is None ==> !is_for(s, j, key),
{
    assert(0 <= j < 4 ==> (is_for(s, j, key) == s.matches_at(j, key)));
}

/// Law: what a store writes is found again: the score and the evaluation, the depth, the
/// bound, the move and the mark of a variation. A store without a move keeps the one known for
/// the position.
pub proof fn a_stored_entry_is_found_again(
    s: Slots,
    n: Slots,
    key: u64,
    mv: Move,
    score: i32,
    eval: i32,
    depth: i32,
    bound: u8,
    gen: u8,
    pv: bool,
    slot: usize,
    k: u64,
    d: u64,
    before: Hit,
    r: Option<usize>,
    h: Hit,
    g: u8,
)
    requires
        mv.compact(),
        1 <= bound < 4,
        gen < 8,
        -32002 <= score <= 32002,
        -32002 <= eval <= 32002,
        0 <= depth <= 255,
        call_ensures(
            Slots::plan_store,
            (&s, key, mv, score, eval, depth, bound, gen, pv),
            Some((slot, k, d)),
        ),
        slot < 4,
        n.key@ == s.key@.update(slot as int, k),
        n.data@ == s.data@.update(slot as int, d),
        call_ensures(unpack, (s.data[slot as int],), before),
        call_ensures(Slots::find, (&n, key), r),
        call_ensures(unpack, (n.data[r->0 as int],), h),
        call_ensures(unpack_gen, (n.data[r->0 as int],), g),
    ensures
        r == Some(slot),
        h.score == score,
        h.eval == eval,
        h.depth == depth,
        h.bound == bound,
        h.was_pv == pv,
        g == gen,
        mv.0 != 0 ==> h.mv == mv,
        mv.0 == 0 && is_for(s, slot as int, key) ==> h.mv == before.mv,
        mv.0 == 0 && s.data[slot as int] == 0 && key != 0 && s.key[slot as int] == 0 ==> h.mv.0 == 0,
{
    assert(s.plans_store(key, mv, score, eval, depth, bound, gen, pv, Some((slot, k, d))));
    let at = slot as int;
    let moved = s.move_for(at, key, mv);
    assert(moved.compact());
    assert(d >= bound * 0x400_0000_0000_0000);
    assert(d != 0);
    store_then_probe(s, n, at, key, mv, score, eval, depth, bound, gen, pv, d);
    unpack_gives_back(d, moved, score as i16, eval as i16, depth as u8, bound, gen, pv);
    assert(n.answer(key) is Some);
    lemma_xor(key, d, 0);
    assert(n.matches_at(at, key));
    assert forall|j: int| 0 <= j < at implies !#[trigger] n.matches_at(j, key) by {
        assert(!s.takes_at(j, key));
        assert(n.key[j] == s.key[j] && n.data[j] == s.data[j]);
    }
    assert(n.found(key) == Some(at));
    if mv.0 == 0 && s.data[at] == 0 && key != 0 && s.key[at] == 0 {
        lemma_xor(0, 0, 0);
    }
}

/// Law: scores and evaluations beyond 32002 are stored as that, depths beyond 255 as 255 and
/// below 0 as 0.
pub proof fn what_does_not_fit_is_cut_off(
    s: Slots,
    key: u64,
    mv: Move,
    score: i32,
    eval: i32,
    depth: i32,
    bound: u8,
    gen: u8,
    pv: bool,
    slot: usize,
    k: u64,
    d: u64,
    h: Hit,
)
    requires
        mv.compact(),
        bound < 4,
        gen < 8,
        depth <= i32::MAX - 4,
        call_ensures(
            Slots::plan_store,
            (&s, key, mv, score, eval, depth, bound, gen, pv),
            Some((slot, k, d)),
        ),
        call_ensures(unpack, (d,), h),
    ensures
        score > 32002 ==> h.score == 32002,
        score < -32002 ==> h.score == -32002,
        eval > 32002 ==> h.eval == 32002,
        eval < -32002 ==> h.eval == -32002,
        depth > 255 ==> h.depth == 255,
        depth < 0 ==> h.depth == 0,
{
    assert(s.plans_store(key, mv, score, eval, depth, bound, gen, pv, Some((slot, k, d))));
    let moved = s.move_for(slot as int, key, mv);
    assert(moved.compact());
    unpack_gives_back(
        d,
        moved,
        clamp_to(score as int, -32002, 32002) as i16,
        clamp_to(eval as int, -32002, 32002) as i16,
        clamp_to(depth as int, 0, 255) as u8,
        bound,
        gen,
        pv,
    );
}

/// Law: a store goes to the first slot that is empty or already holds the position. Where
/// there is none, it takes the place of the shallowest entry, each search since an entry
/// was last met counting as three plies, and of the first of these.
#[verifier::spinoff_prover]
pub proof fn the_least_useful_entry_gives_way(
    s: Slots,
    key: u64,
    gen: u8,
    r: usize,
    j: int,
    hr: Hit,
    hj: Hit,
    gr: u8,
    gj: u8,
)
    requires
        gen < 8,
        call_ensures(Slots::target, (&s, key, gen), r),
        0 <= j < 4,
        r < 4,
        call_ensures(unpack, (s.data[r as int],), hr),
        call_ensures(unpack, (s.data[j],), hj),
        call_ensures(unpack_gen, (s.data[r as int],), gr),
        call_ensures(unpack_gen, (s.data[j],), gj),
    ensures
        s.data[j] == 0 || is_for(s, j, key) ==> r <= j && (s.data[r as int] == 0 || is_for(
            s,
            r as int,
            key,
        )),
        s.data[r as int] != 0 && !is_for(s, r as int, key) ==> {
            let age_r = (gen - gr) % 8;
            let age_j = (gen - gj) % 8;
            &&& hr.depth - 3 * age_r <= hj.depth - 3 * age_j
            &&& j < r ==> hr.depth - 3 * age_r < hj.depth - 3 * age_j
        },
{
    assert(s.is_target(r as int, key, gen as int));
    assert(is_for(s, j, key) || s.data[j] == 0 <==> s.takes_at(j, key));
    assert(is_for(s, r as int, key) || s.data[r as int] == 0 <==> s.takes_at(r as int, key));
    if s.takes_at(j, key) && j < r {
        assert(!s.takes_at(j, key));
    }
    lemma_worth(s, r as int, gen, hr, gr);
    lemma_worth(s, j, gen, hj, gj);
}

proof fn lemma_worth(s: Slots, i: int, gen: u8, h: Hit, g: u8)
    requires
        0 <= i < 4,
        call_ensures(unpack, (s.data[i],), h),
        call_ensures(unpack_gen, (s.data[i],), g),
    ensures
        s.worth(i, gen as int) == h.depth - 3 * ((gen - g) % 8),
{
    assert(h == unpacked(s.data[i]));
    assert((gen + 8 - g) % 8 == (gen - g) % 8);
}

/// Law: a store is dropped exactly where the position is held from this search more than
/// four plies deeper, and the new entry is not exact.
pub proof fn a_deeper_entry_is_kept(
    s: Slots,
    key: u64,
    mv: Move,
    score: i32,
    eval: i32,
    depth: i32,
    bound: u8,
    gen: u8,
    pv: bool,
    t: usize,
    h: Hit,
    g: u8,
    r: Option<(usize, u64, u64)>,
)
    requires
        mv.compact(),
        bound < 4,
        gen < 8,
        depth <= i32::MAX - 4,
        call_ensures(Slots::target, (&s, key, gen), t),
        t < 4,
        call_ensures(unpack, (s.data[t as int],), h),
        call_ensures(unpack_gen, (s.data[t as int],), g),
        call_ensures(Slots::plan_store, (&s, key, mv, score, eval, depth, bound, gen, pv), r),
    ensures
        r is None <==> is_for(s, t as int, key) && h.depth > depth + 4 && g == gen && bound != 3,
        r matches Some((slot, k, d)) ==> slot == t && k ^ d == key,
{
    assert(s.plans_store(key, mv, score, eval, depth, bound, gen, pv, r));
    assert forall|i: int| #[trigger] s.is_target(i, key, gen as int) implies i == t by {
        lemma_one_target(s, key, gen as int, i, t as int);
    }
    if let Some((slot, k, d)) = r {
        lemma_xor(key, d, 0);
    }
}

proof fn lemma_one_target(s: Slots, key: u64, gen: int, i: int, t: int)
    requires
        s.is_target(i, key, gen),
        s.is_target(t, key, gen),
    ensures
        i == t,
{
    if i != t {
        assert(s.takes_at(i, key) == s.takes_at(t, key));
        assert(!s.takes_at(i, key));
        assert(s.worth(i, gen) <= s.worth(t, gen));
        assert(s.worth(t, gen) <= s.worth(i, gen));
    }
}

/// Slot `i` was written in generation `gen`.
pub open spec fn is_young(s: Slots, i: int, gen: u8) -> bool {
    s.data[i] != 0 && unpack_gen(s.data[i]) == gen
}

/// The slots of these buckets that were.
pub open spec fn young_in(s: Seq<Slots>, gen: u8) -> int
    decreases s.len(),
{
    if s.len() == 0 {
        0
    } else {
        let b = s.last();
        young_in(s.drop_last(), gen) + (if is_young(b, 0, gen) { 1int } else { 0 }) + (if is_young(
            b,
            1,
            gen,
        ) { 1int } else { 0 }) + (if is_young(b, 2, gen) { 1int } else { 0 }) + (if is_young(b, 3, gen) {
            1int
        } else {
            0
        })
    }
}

proof fn lemma_young(s: Seq<Slots>, gen: u8)
    ensures
        young_in(s, gen) == count_fresh(s, gen),
        0 <= young_in(s, gen) <= 4 * s.len(),
    decreases s.len(),
{
    if s.len() > 0 {
        lemma_young(s.drop_last(), gen);
    }
}

/// Law: the share of a sample written in a generation is the thousandths of its slots,
/// four to a bucket, that were, fractions dropped.
pub proof fn the_share_is_in_thousandths(s: &[Slots], gen: u8, r: usize)
    requires
        0 < s@.len() <= 1000,
        call_ensures(share_fresh, (s, gen), r),
    ensures
        4 * s@.len() * r <= 1000 * young_in(s@, gen) < 4 * s@.len() * (r + 1),
{
    lemma_young(s@, gen);
    let d = (s@.len() * 4) as int;
    let u = young_in(s@, gen) * 1000;
    assert(d * (u / d) <= u < d * (u / d + 1)) by (nonlinear_arith)
        requires
            d > 0,
    ;
    assert(r == u / d);
    assert(4 * s@.len() * r == d * r) by (nonlinear_arith)
        requires
            d == s@.len() * 4,
    ;
    assert(4 * s@.len() * (r + 1) == d * (r + 1)) by (nonlinear_arith)
        requires
            d == s@.len() * 4,
    ;
}

/// Law: a table of `mb` megabytes, one at least, has as many buckets of 64 bytes as fit,
/// rounded down to a power of two, and finds nothing in any.
pub proof fn a_table_fits_its_size(mb: usize, t: Tt)
    requires
        mb * 0x4000 <= usize::MAX,
        call_ensures(Tt::new, (mb,), t),
    ensures
        ({
            let bytes = (if mb == 0 { 1int } else { mb as int }) * 1048576;
            64 * t.size() <= bytes < 128 * t.size()
        }),
        power_of_two(t.size() as int),
{
    let mb = if mb < 1 { 1 } else { mb as int };
    let want = mb * 0x4000;
    assert(t.size() <= want < 2 * t.size());
    assert(mb * 1048576 == 64 * want);
}

/// Law: meeting an entry of an earlier search makes it one of this search, and changes
/// nothing else of it; an entry of this search is left alone.
pub proof fn a_met_entry_is_made_young(s: Slots, i: usize, key: u64, gen: u8, r: Option<(usize, u64, u64)>, g: u8, before: Hit, after: Hit, ng: u8)
    requires
        i < 4,
        s.found(key) == Some(i as int),
        gen < 8,
        call_ensures(Slots::plan_refresh, (&s, i, key, gen), r),
        call_ensures(unpack_gen, (s.data[i as int],), g),
        call_ensures(unpack, (s.data[i as int],), before),
        r matches Some((slot, k, d)) ==> call_ensures(unpack, (d,), after) && call_ensures(unpack_gen, (d,), ng),
    ensures
        r is None <==> g == gen,
        r matches Some((slot, k, d)) ==> slot == i && k ^ d == key && ng == gen && after.mv == before.mv
            && after.score == before.score && after.eval == before.eval && after.depth == before.depth
            && after.bound == before.bound && after.was_pv == before.was_pv,
{
    if let Some((slot, k, d)) = r {
        refresh_keeps_the_entry(s.data[i as int], gen, d);
        lemma_xor(key, d, 0);
    }
}

/// Law: a probe answers with an entry for the key in the bucket as it was read, or with
/// nothing where that holds none.
pub proof fn a_probe_answers_from_the_bucket(t: Tt, key: u64, r: Option<Hit>) -> (s: Slots)
    requires
        call_ensures(Tt::probe, (&t, key), r),
    ensures
        t.may_read(key, s),
        r matches Some(h) ==> exists|i: int| #[trigger] is_for(s, i, key) && h == unpacked(s.data[i]),
        r is None ==> forall|i: int| !#[trigger] is_for(s, i, key),
{
    let s = choose|s: Slots| #[trigger] t.may_read(key, s) && r == s.answer(key);
    assert forall|i: int| #[trigger] is_for(s, i, key) implies 0 <= i < 4 && s.matches_at(i, key) by {}
    if r is Some {
        let i = s.found(key)->0;
        assert(is_for(s, i, key) && r->0 == unpacked(s.data[i]));
    }
    s
}

/// Law: storing an exact score writes it into the bucket, whatever stood there.
pub proof fn an_exact_score_is_always_stored(
    t: Tt,
    key: u64,
    mv: Move,
    score: i32,
    eval: i32,
    depth: i32,
    pv: bool,
)
    requires
        mv.compact(),
        -32002 <= score <= 32002,
        -32002 <= eval <= 32002,
        0 <= depth <= 255,
        call_ensures(Tt::store, (&t, key, mv, score, eval, depth, 3u8, pv), ()),
    ensures
        exists|slot: int, k: u64, d: u64| #[trigger]
            t.is_written(key, slot, k, d) && 0 <= slot < 4 && k ^ d == key && unpacked(d).score == score && unpacked(
                d,
            ).eval == eval && unpacked(d).depth == depth && unpacked(d).bound == 3 && unpacked(d).was_pv == pv && (
            mv.0 != 0 ==> unpacked(d).mv == mv),
{
    reveal(Tt::records);
    let (s, g, p) = choose|s: Slots, g: u8, p: Option<(usize, u64, u64)>|
        t.may_read(key, s) && t.may_be_in(g) && #[trigger] s.plans_store(
            key,
            mv,
            score,
            eval,
            depth,
            3u8,
            g,
            pv,
            p,
        ) && (p matches Some((slot, k, d)) ==> t.is_written(key, slot as int, k, d));
    assert(p is Some);
    let (slot, k, d) = p->0;
    lemma_xor(key, d, 0);
    let moved = s.move_for(slot as int, key, mv);
    assert(moved.compact());
    assert(g < 8);
    unpack_gives_back(d, moved, score as i16, eval as i16, depth as u8, 3, g, pv);
    assert(t.is_written(key, slot as int, k, d));
}

/// Law: the filling of a table is that of its first thousand buckets, or of all where
/// there are fewer.
pub proof fn the_filling_is_sampled(t: Tt, r: usize) -> (x: (Seq<Slots>, u8))
    requires
        call_ensures(Tt::hashfull, (&t,), r),
        t.size() > 0,
    ensures
        t.may_be_in(x.1),
        x.0.len() == if t.size() < 1000 { t.size() as int } else { 1000 },
        forall|i: int| 0 <= i < x.0.len() ==> #[trigger] t.may_read_at(i, x.0[i]),
        4 * x.0.len() * r <= 1000 * young_in(x.0, x.1) < 4 * x.0.len() * (r + 1),
{
    let (s, g) = choose|s: Seq<Slots>, g: u8|
        t.may_be_in(g) && s.len() == (if t.size() < 1000 {
            t.size()
        } else {
            1000
        }) && (forall|i: int| 0 <= i < s.len() ==> #[trigger] t.may_read_at(i, s[i])) && r
            == #[trigger] permille_fresh(s, g);
    lemma_young(s, g);
    let d = (s.len() * 4) as int;
    let u = young_in(s, g) * 1000;
    assert(d * (u / d) <= u < d * (u / d + 1)) by (nonlinear_arith)
        requires
            d > 0,
    ;
    assert(r == u / d);
    assert(4 * s.len() * r == d * r) by (nonlinear_arith)
        requires
            d == s.len() * 4,
    ;
    assert(4 * s.len() * (r + 1) == d * (r + 1)) by (nonlinear_arith)
        requires
            d == s.len() * 4,
    ;
    (s, g)
}

} // verus!
