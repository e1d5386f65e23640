//! The UCI front end: what its commands say.

use vstd::prelude::*;
use vstd::string::*;
use crate::attacks::Tables;
use crate::board::{Board, Undo};
use crate::fen::fen_position;
use crate::geometry::pawn_att;
use crate::history::clamp_to;
use crate::movegen::{GEN_ALL, MoveList, gen_of, generate};
use crate::movegen_laws::{generated_exactly_legal, lemma_board_gen};
use crate::notation::{move_name, move_to_string, square_name};
use crate::play::made;
use crate::position::{col_at, ep_real, legal, pushes};
use crate::searcher::{Pos, listed_at, pos_of};
use crate::start::start_placement;
use crate::text::{
    chars_of, decimal, is_space, number_in, parse_signed, parse_unsigned, push_char, space, views,
    word_is,
};
use crate::timing::Limits;
use crate::types::{Color, Move, Square, move_fields_determine};

verus! {

pub const NAME: &'static str = "mbca-10x10";

pub const VERSION: &'static str = "0.1";

pub const AUTHOR: &'static str = "Tord";

pub const VARIANT: &'static str = "grand";

pub const MAX_THREADS: usize = 64;

pub const MAX_MULTIPV: usize = 256;

pub const DEFAULT_OWN_BOOK: bool = true;

pub const DEFAULT_BOOK_MAX_PLY: u16 = 16;

pub const MAX_BOOK_MAX_PLY: u16 = 40;

pub const DEFAULT_BOOK_VARIETY: i32 = 100;

pub const MAX_BOOK_VARIETY: i32 = 400;

// -- words ----------------------------------------------------------------------------

/// A letter `A` to `Z` as a small letter; everything else as it is.
pub open spec fn lower_char(c: char) -> char {
    if 65 <= c as u32 <= 90 {
        ((c as u32 + 32) as u8) as char
    } else {
        c
    }
}

pub open spec fn lower(s: Seq<char>) -> Seq<char> {
    Seq::new(s.len(), |i: int| lower_char(s[i]))
}

fn to_lower(s: &Vec<char>) -> (r: Vec<char>)
    ensures
        r@ == lower(s@),
{
    let mut out: Vec<char> = Vec::new();
    let mut i: usize = 0;
    while i < s.len()
        invariant
            i <= s@.len(),
            out@.len() == i,
            forall|k: int| 0 <= k < i ==> #[trigger] out@[k] == lower_char(s@[k]),
        decreases s@.len() - i,
    {
        let c = s[i];
        let n = c as u32;
        if n >= 65 && n <= 90 {
            out.push((n as u8 + 32) as char);
        } else {
            out.push(c);
        }
        i += 1;
    }
    assert(out@ =~= lower(s@));
    out
}

/// Words with a blank between them.
pub open spec fn joined(w: Seq<Seq<char>>) -> Seq<char>
    decreases w.len(),
{
    if w.len() == 0 {
        Seq::empty()
    } else if w.len() == 1 {
        w[0]
    } else {
        joined(w.drop_last()) + seq![' '] + w.last()
    }
}

/// Joins the words from `from` up to `to`.
fn join(w: &[Vec<char>], from: usize, to: usize) -> (r: Vec<char>)
    requires
        from <= to <= w@.len(),
    ensures
        r@ == joined(views(w@).subrange(from as int, to as int)),
{
    let ghost all = views(w@);
    let mut out: Vec<char> = Vec::new();
    let mut i: usize = from;
    while i < to
        invariant
            from <= i <= to <= w@.len(),
            all == views(w@),
            out@ == joined(all.subrange(from as int, i as int)),
        decreases to - i,
    {
        let ghost before = out@;
        if i > from {
            out.push(' ');
        }
        let mut k: usize = 0;
        let ghost lead = out@;
        while k < w[i].len()
            invariant
                i < w@.len(),
                k <= w@[i as int]@.len(),
                out@ == lead + w@[i as int]@.take(k as int),
            decreases w@[i as int]@.len() - k,
        {
            out.push(w[i][k]);
            k += 1;
            assert(out@ =~= lead + w@[i as int]@.take(k as int));
        }
        proof {
            let done = all.subrange(from as int, i as int);
            let more = all.subrange(from as int, i + 1);
            assert(more.drop_last() =~= done);
            assert(more.last() == w@[i as int]@);
            assert(w@[i as int]@.take(w@[i as int]@.len() as int) =~= w@[i as int]@);
            assert(out@ =~= joined(more));
        }
        i += 1;
    }
    out
}

/// The place of the first `word` from `k` on, or the number of words.
pub open spec fn place_of(w: Seq<Seq<char>>, word: Seq<char>, k: int) -> int
    decreases w.len() - k,
{
    if k >= w.len() || w[k] == word {
        if k < w.len() {
            k
        } else {
            w.len() as int
        }
    } else {
        place_of(w, word, k + 1)
    }
}

fn find_word(w: &[Vec<char>], word: &str) -> (r: usize)
    ensures
        r == place_of(views(w@), word@, 0),
        r <= w@.len(),
{
    let n = w.len();
    let mut i: usize = 0;
    while i < n
        invariant
            i <= n,
            n == w@.len(),
            place_of(views(w@), word@, 0) == place_of(views(w@), word@, i as int),
        decreases n - i,
    {
        assert(views(w@)[i as int] == w@[i as int]@);
        if word_is(&w[i], word) {
            return i;
        }
        i += 1;
    }
    n
}

fn string_of(s: &Vec<char>) -> (r: String)
    ensures
        r@ == s@,
{
    let mut out = String::new();
    let mut i: usize = 0;
    while i < s.len()
        invariant
            i <= s@.len(),
            out@ == s@.take(i as int),
        decreases s@.len() - i,
    {
        push_char(&mut out, s[i]);
        i += 1;
        assert(out@ =~= s@.take(i as int));
    }
    assert(s@.take(s@.len() as int) =~= s@);
    out
}

/// A text without the spaces around it.
#[verifier::opaque]
pub open spec fn trimmed(s: Seq<char>) -> Seq<char>
    decreases s.len(),
{
    if s.len() > 0 && is_space(s[0]) {
        trimmed(s.drop_first())
    } else if s.len() > 0 && is_space(s.last()) {
        trimmed(s.drop_last())
    } else {
        s
    }
}

/// A space at either end can be left out, and without one nothing is left out.
proof fn lemma_trim(s: Seq<char>, lo: int, hi: int)
    requires
        0 <= lo < hi <= s.len(),
    ensures
        is_space(s[lo]) ==> trimmed(s.subrange(lo, hi)) == trimmed(s.subrange(lo + 1, hi)),
        !is_space(s[lo]) && is_space(s[hi - 1]) ==> trimmed(s.subrange(lo, hi)) == trimmed(
            s.subrange(lo, hi - 1),
        ),
        !is_space(s[lo]) && !is_space(s[hi - 1]) ==> trimmed(s.subrange(lo, hi)) == s.subrange(
            lo,
            hi,
        ),
{
    reveal(trimmed);
    let t = s.subrange(lo, hi);
    assert(t[0] == s[lo] && t.last() == s[hi - 1]);
    assert(t.drop_first() =~= s.subrange(lo + 1, hi));
    assert(t.drop_last() =~= s.subrange(lo, hi - 1));
}

fn trim(s: &Vec<char>) -> (r: Vec<char>)
    ensures
        r@ == trimmed(s@),
{
    let mut lo: usize = 0;
    let mut hi: usize = s.len();
    assert(s@.subrange(0, hi as int) =~= s@);
    while lo < hi && space(s[lo])
        invariant
            lo <= hi <= s@.len(),
            trimmed(s@) == trimmed(s@.subrange(lo as int, hi as int)),
        decreases hi - lo,
    {
        proof {
            lemma_trim(s@, lo as int, hi as int);
        }
        lo += 1;
    }
    while lo < hi && space(s[hi - 1])
        invariant
            lo <= hi <= s@.len(),
            lo < hi ==> !is_space(s@[lo as int]),
            trimmed(s@) == trimmed(s@.subrange(lo as int, hi as int)),
        decreases hi - lo,
    {
        proof {
            lemma_trim(s@, lo as int, hi as int);
        }
        hi -= 1;
    }
    proof {
        if lo < hi {
            lemma_trim(s@, lo as int, hi as int);
        } else {
            reveal(trimmed);
        }
    }
    let mut out: Vec<char> = Vec::new();
    let mut i: usize = lo;
    while i < hi
        invariant
            lo <= i <= hi <= s@.len(),
            out@ == s@.subrange(lo as int, i as int),
        decreases hi - i,
    {
        out.push(s[i]);
        i += 1;
        assert(out@ =~= s@.subrange(lo as int, i as int));
    }
    out
}

// -- commands -------------------------------------------------------------------------

/// What a line asks for, by its first word.
#[derive(Clone, Copy, PartialEq, Eq, Structural, Debug)]
pub enum Command {
    Nothing,
    Uci,
    IsReady,
    NewGame,
    SetOption,
    Position,
    Go,
    Stop,
    PonderHit,
    Quit,
}

pub open spec fn command_in(w: Seq<Seq<char>>) -> Command {
    if w.len() == 0 {
        Command::Nothing
    } else if w[0] == "uci"@ {
        Command::Uci
    } else if w[0] == "isready"@ {
        Command::IsReady
    } else if w[0] == "ucinewgame"@ {
        Command::NewGame
    } else if w[0] == "setoption"@ {
        Command::SetOption
    } else if w[0] == "position"@ {
        Command::Position
    } else if w[0] == "go"@ {
        Command::Go
    } else if w[0] == "stop"@ {
        Command::Stop
    } else if w[0] == "ponderhit"@ {
        Command::PonderHit
    } else if w[0] == "quit"@ {
        Command::Quit
    } else {
        Command::Nothing
    }
}

pub fn command(w: &[Vec<char>]) -> (r: Command)
    ensures
        r == command_in(views(w@)),
{
    if w.len() == 0 {
        return Command::Nothing;
    }
    let c = &w[0];
    assert(views(w@)[0] == w@[0]@);
    if word_is(c, "uci") {
        Command::Uci
    } else if word_is(c, "isready") {
        Command::IsReady
    } else if word_is(c, "ucinewgame") {
        Command::NewGame
    } else if word_is(c, "setoption") {
        Command::SetOption
    } else if word_is(c, "position") {
        Command::Position
    } else if word_is(c, "go") {
        Command::Go
    } else if word_is(c, "stop") {
        Command::Stop
    } else if word_is(c, "ponderhit") {
        Command::PonderHit
    } else if word_is(c, "quit") {
        Command::Quit
    } else {
        Command::Nothing
    }
}

// -- moves ------------------------------------------------------------------------------

/// The first listed move from `k` on with this name.
pub open spec fn first_named(ms: Seq<Move>, s: Seq<char>, k: int) -> Option<Move>
    decreases ms.len() - k,
{
    if k < 0 || k >= ms.len() {
        None
    } else if move_name(ms[k]) == s {
        Some(ms[k])
    } else {
        first_named(ms, s, k + 1)
    }
}

/// The legal move of a position that `s` names.
pub open spec fn move_named(p: Pos, s: Seq<char>) -> Option<Move> {
    first_named(listed_at(p), s, 0)
}

fn named_move(b: &Board, t: &Tables, s: &Vec<char>) -> (r: Option<Move>)
    requires
        b.wf(),
    ensures
        r == move_named(pos_of(b@), s@),
        r matches Some(m) ==> b.legal_here(m) && m.compact() && move_name(m) == s@,
{
    let mut list = MoveList::new();
    generate::<GEN_ALL>(b, t, &mut list);
    let ghost ms = listed_at(pos_of(b@));
    assert(list@ =~= ms);
    proof {
        lemma_board_gen(b, GEN_ALL);
        generated_exactly_legal(gen_of(b, GEN_ALL));
    }
    let mut i: usize = 0;
    while i < list.len()
        invariant
            i <= list@.len(),
            list.ok(),
            ms == list@,
            ms == listed_at(pos_of(b@)),
            first_named(ms, s@, 0) == first_named(ms, s@, i as int),
            forall|m: Move| #[trigger]
                ms.contains(m) ==> m.compact() && legal(b.q(), b.stm, b.ep, m),
        decreases list@.len() - i,
    {
        let m = list.get(i);
        if word_is(s, move_to_string(m).as_str()) {
            assert(ms.contains(m));
            return Some(m);
        }
        i += 1;
    }
    None
}

/// Parses a move against the legal move list.
pub fn parse_move(b: &Board, t: &Tables, s: &str) -> (r: Option<Move>)
    requires
        b.wf(),
    ensures
        r == move_named(pos_of(b@), s@),
        r matches Some(m) ==> b.legal_here(m) && m.compact() && move_name(m) == s@,
{
    let word = chars_of(s);
    named_move(b, t, &word)
}

/// A name's letters and digits, square by square.
proof fn lemma_square_name(s: Square)
    requires
        s.valid(),
    ensures
        ({
            let n = square_name(s);
            &&& n.len() == if s.0 / 10 == 9 {
                3int
            } else {
                2
            }
            &&& n[0] as u32 == 97 + s.0 % 10
            &&& n[1] as u32 == if s.0 / 10 == 9 {
                49int
            } else {
                49 + s.0 / 10
            }
            &&& s.0 / 10 == 9 ==> n[2] as u32 == 48
        }),
{
    reveal_with_fuel(decimal, 3);
    let k = (s.0 / 10 + 1) as nat;
    if k < 10 {
        assert(decimal(k).len() == 1);
    } else {
        assert(k == 10);
        assert(decimal(1).len() == 1);
        assert(decimal(10) == decimal(1).push('0'));
    }
}

/// Law: the legal moves of a position have different names.
pub proof fn names_tell_moves_apart(p: Pos, a: Move, b: Move)
    requires
        p.ep == Square::none() || ep_real(p.q, p.stm, p.ep.0 as int),
        a.compact(),
        b.compact(),
        legal(p.q, p.stm, p.ep, a),
        legal(p.q, p.stm, p.ep, b),
        move_name(a) == move_name(b),
    ensures
        a == b,
{
    let n = move_name(a);
    let af = square_name(a.from());
    let at = square_name(a.to());
    let bf = square_name(b.from());
    let bt = square_name(b.to());
    lemma_square_name(a.from());
    lemma_square_name(a.to());
    lemma_square_name(b.from());
    lemma_square_name(b.to());
    assert(!a.is_none() && !b.is_none());
    assert(n[0] == af[0] && n[0] == bf[0]);
    assert(n[1] == af[1] && n[1] == bf[1]);
    // The third character tells a two-digit rank from the next square.
    assert(af.len() == bf.len()) by {
        if af.len() == 3 {
            assert(n[2] == af[2]);
            if bf.len() == 2 {
                assert(n[2] == bt[0]);
            }
        } else if bf.len() == 3 {
            assert(n[2] == bf[2]);
            assert(n[2] == at[0]);
        }
    }
    assert(a.from() == b.from());
    let k = af.len() as int;
    assert(n[k] == at[0] && n[k] == bt[0]);
    assert(n[k + 1] == at[1] && n[k + 1] == bt[1]);
    let ap = seq![a.promo_kind().to_char() as char];
    let bp = seq![b.promo_kind().to_char() as char];
    assert(at.len() == bt.len()) by {
        if at.len() == 3 && bt.len() == 2 {
            assert(n[k + 2] == at[2]);
            assert(b.is_promotion());
            assert(n[k + 2] == bp[0]);
        }
        if at.len() == 2 && bt.len() == 3 {
            assert(n[k + 2] == bt[2]);
            assert(a.is_promotion());
            assert(n[k + 2] == ap[0]);
        }
    }
    assert(a.to() == b.to());
    let l = k + at.len() as int;
    assert(a.is_promotion() == b.is_promotion()) by {
        assert(n.len() == l + if a.is_promotion() {
            1int
        } else {
            0
        });
    }
    if a.is_promotion() {
        assert(n[l] == ap[0] && n[l] == bp[0]);
        assert(a.promo_kind() == b.promo_kind());
    }
    assert(a.promo_bits() == b.promo_bits());
    if a.is_en_passant() != b.is_en_passant() {
        lemma_only_en_passant(p, a.from().0 as int, a.to().0 as int);
    }
    move_fields_determine(a, b);
}

/// A pawn reaches the en passant square in one way only.
proof fn lemma_only_en_passant(p: Pos, f: int, t: int)
    requires
        p.ep == Square::none() || ep_real(p.q, p.stm, p.ep.0 as int),
    ensures
        p.ep.0 == t && pawn_att(p.stm, f, t) && p.ep != Square::none() ==> !pushes(
            p.q,
            p.stm,
            f,
            t,
        ) && !col_at(p.q, t, p.stm.flip()),
{
    reveal(pawn_att);
}

/// Law: the name of a listed move is read back as that move.
pub proof fn a_named_move_is_read_back(b: &Board, m: Move)
    requires
        b.wf(),
        listed_at(pos_of(b@)).contains(m),
    ensures
        move_named(pos_of(b@), move_name(m)) == Some(m),
{
    let p = pos_of(b@);
    lemma_board_gen(b, GEN_ALL);
    generated_exactly_legal(gen_of(b, GEN_ALL));
    lemma_first_named(p, m, 0);
}

proof fn lemma_first_named(p: Pos, m: Move, k: int)
    requires
        p.ep == Square::none() || ep_real(p.q, p.stm, p.ep.0 as int),
        forall|x: Move| #[trigger]
            listed_at(p).contains(x) ==> x.compact() && legal(p.q, p.stm, p.ep, x),
        0 <= k,
        exists|i: int| k <= i < listed_at(p).len() && #[trigger] listed_at(p)[i] == m,
    ensures
        first_named(listed_at(p), move_name(m), k) == Some(m),
    decreases listed_at(p).len() - k,
{
    let ms = listed_at(p);
    let i = choose|i: int| k <= i < ms.len() && #[trigger] ms[i] == m;
    assert(ms.contains(ms[i]));
    assert(ms.contains(ms[k]));
    if move_name(ms[k]) == move_name(m) {
        names_tell_moves_apart(p, ms[k], m);
    } else {
        assert(i > k);
        lemma_first_named(p, m, k + 1);
    }
}

// -- position -----------------------------------------------------------------------------

/// `b1` is `b0` after the move that `s` names.
pub open spec fn plays_word(b0: Board, s: Seq<char>, b1: Board) -> bool {
    exists|m: Move, u: Undo|
        move_named(pos_of(b0@), s) == Some(m) && #[trigger] made(b0, m, b1, u, true)
}

/// The boards of a game, one for each word played and the one it starts from.
pub open spec fn is_game(bs: Seq<Board>, w: Seq<Seq<char>>) -> bool {
    &&& bs.len() == w.len() + 1
    &&& forall|i: int| 0 <= i < w.len() ==> plays_word(#[trigger] bs[i], w[i], bs[i + 1])
}

/// What a `position` command comes to.
pub enum Setup {
    /// Neither `startpos` nor `fen`.
    Nothing,
    /// The text is no position, and why.
    BadFen(String),
    /// The word that is no legal move.
    IllegalMove(String),
    Ready(Board),
}

/// Where the moves of a `position` command start, if they do: after `startpos`, or
/// at the first `moves` after a position text.
pub open spec fn setup_end(w: Seq<Seq<char>>) -> int {
    if w[0] == "startpos"@ {
        1
    } else {
        place_of(w, "moves"@, 0)
    }
}

/// The moves of a `position` command.
pub open spec fn setup_moves(w: Seq<Seq<char>>) -> Seq<Seq<char>> {
    let i = setup_end(w);
    if i < w.len() && w[i] == "moves"@ {
        w.skip(i + 1)
    } else {
        Seq::empty()
    }
}

/// `b` is the board that the moves of a `position` command start from.
pub open spec fn setup_start(w: Seq<Seq<char>>, b: Board) -> bool {
    &&& b.wf()
    &&& b.hist@ == seq![b.key]
    &&& if w[0] == "startpos"@ {
        &&& b.q() == start_placement()
        &&& b.stm == Color::White
        &&& b.ep == Square::none()
        &&& b.halfmove == 0
        &&& b.game_ply == 0
        &&& b.plies_from_null == 0
    } else {
        &&& fen_position(setup_fen(w)) matches Ok(p)
        &&& b.q() == p.q
        &&& b.stm == p.stm
        &&& b.ep == p.ep
        &&& b.halfmove == p.halfmove
        &&& b.game_ply == p.game_ply
        &&& b.plies_from_null == p.halfmove
    }
}

/// The position text of a `position fen` command: all up to `moves`.
pub open spec fn setup_fen(w: Seq<Seq<char>>) -> Seq<char> {
    joined(w.subrange(1, place_of(w, "moves"@, 0)))
}

/// Replays `[startpos | fen ...] [moves ...]`.
pub fn set_position(t: &Tables, tokens: &[Vec<char>]) -> (r: Setup)
    ensures
        ({
            let w = views(tokens@);
            let known = w.len() > 0 && (w[0] == "startpos"@ || w[0] == "fen"@);
            let broken = known && w[0] != "startpos"@ && fen_position(setup_fen(w)) is Err;
            let moves = setup_moves(w);
            match r {
                Setup::Nothing => !known,
                Setup::BadFen(e) => broken && e@ == fen_position(setup_fen(w))->Err_0.text(),
                Setup::IllegalMove(s) => known && !broken && exists|bs: Seq<Board>, k: int|
                    {
                        &&& 0 <= k < moves.len()
                        &&& #[trigger] is_game(bs, moves.take(k))
                        &&& setup_start(w, bs[0])
                        &&& move_named(pos_of(bs.last()@), moves[k]) is None
                        &&& s@ == moves[k]
                    },
                Setup::Ready(b) => known && !broken && b.wf() && exists|bs: Seq<Board>|
                    {
                        &&& #[trigger] is_game(bs, moves)
                        &&& setup_start(w, bs[0])
                        &&& bs.last() == b
                    },
            }
        }),
{
    let ghost w = views(tokens@);
    let n = tokens.len();
    if n == 0 {
        return Setup::Nothing;
    }
    assert(w[0] == tokens@[0]@);
    proof {
        reveal_strlit("startpos");
        reveal_strlit("fen");
        reveal_strlit("moves");
        assert("startpos"@ != "fen"@) by {
            assert("startpos"@.len() != "fen"@.len());
        }
        assert("moves"@ != "fen"@) by {
            assert("moves"@.len() != "fen"@.len());
        }
    }
    let mut i: usize;
    let mut board: Board;
    if word_is(&tokens[0], "startpos") {
        board = Board::startpos(t);
        i = 1;
    } else if word_is(&tokens[0], "fen") {
        let end = find_word(tokens, "moves");
        proof {
            lemma_place_after(w, "moves"@);
        }
        let fen = join(tokens, 1, end);
        match Board::from_fen(t, string_of(&fen).as_str()) {
            Ok(b) => {
                board = b;
                i = end;
            },
            Err(e) => {
                return Setup::BadFen(e);
            },
        }
    } else {
        return Setup::Nothing;
    }
    assert(i == setup_end(w));
    assert(setup_start(w, board));
    let ghost moves = setup_moves(w);
    let ghost mut bs: Seq<Board> = seq![board];
    let has_moves = i < n && word_is(&tokens[i], "moves");
    proof {
        if i < n {
            assert(w[i as int] == tokens@[i as int]@);
        }
        assert(is_game(bs, moves.take(0)));
    }
    if has_moves {
        let first: usize = i + 1;
        i = first;
        while i < n
            invariant
                first <= i <= n,
                n == tokens@.len(),
                w == views(tokens@),
                w.len() == n,
                moves == w.skip(first as int),
                is_game(bs, moves.take(i - first)),
                setup_start(w, bs[0]),
                bs.last() == board,
                board.wf(),
                moves == setup_moves(w),
                w[0] == "startpos"@ || w[0] == "fen"@,
                w[0] != "startpos"@ ==> fen_position(setup_fen(w)) is Ok,
            decreases n - i,
        {
            let ghost k = i - first;
            assert(moves[k] == tokens@[i as int]@);
            match named_move(&board, t, &tokens[i]) {
                Some(m) => {
                    let ghost before = board;
                    let mut undo = Undo::default();
                    board.make_move(t, m, &mut undo);
                    proof {
                        assert(plays_word(before, moves[k], board)) by {
                            assert(made(before, m, board, undo, true));
                        }
                        let old_bs = bs;
                        bs = bs.push(board);
                        let more = moves.take(k + 1);
                        assert forall|x: int| 0 <= x < more.len() implies plays_word(
                            #[trigger] bs[x],
                            more[x],
                            bs[x + 1],
                        ) by {
                            if x < k {
                                assert(moves.take(k)[x] == more[x]);
                                assert(plays_word(old_bs[x], moves.take(k)[x], old_bs[x + 1]));
                            }
                        }
                        assert(is_game(bs, moves.take(k + 1)));
                    }
                },
                None => {
                    return Setup::IllegalMove(string_of(&tokens[i]));
                },
            }
            i += 1;
        }
    }
    proof {
        assert(moves.take(moves.len() as int) =~= moves);
    }
    Setup::Ready(board)
}

/// A word that is not the first one is found later, or not at all.
proof fn lemma_place_after(w: Seq<Seq<char>>, word: Seq<char>)
    requires
        w.len() > 0,
        w[0] != word,
    ensures
        1 <= place_of(w, word, 0) <= w.len(),
{
    reveal_with_fuel(place_of, 2);
    lemma_place(w, word, 1);
}

proof fn lemma_place(w: Seq<Seq<char>>, word: Seq<char>, k: int)
    requires
        0 <= k <= w.len(),
    ensures
        k <= place_of(w, word, k) <= w.len(),
    decreases w.len() - k,
{
    if k < w.len() && w[k] != word {
        lemma_place(w, word, k + 1);
    }
}

// -- go -----------------------------------------------------------------------------------

/// The number in word `i`, or 0.
pub open spec fn number_at(w: Seq<Seq<char>>, i: int) -> int {
    if i < w.len() {
        match number_in(w[i], true, i64::MIN as int, i64::MAX as int) {
            Some(x) => x,
            None => 0,
        }
    } else {
        0
    }
}

fn read_number(w: &[Vec<char>], i: usize) -> (r: i64)
    ensures
        r == number_at(views(w@), i as int),
{
    if i < w.len() {
        assert(views(w@)[i as int] == w@[i as int]@);
        match parse_signed(&w[i], i64::MAX) {
            Some(x) => x,
            None => 0,
        }
    } else {
        0
    }
}

/// The limits with what word `i`, and perhaps the number after it, says.
pub open spec fn limits_with(w: Seq<Seq<char>>, i: int, l: Limits) -> Limits {
    let n = number_at(w, i + 1);
    if w[i] == "wtime"@ {
        Limits { time: [n as i64, l.time[1]], has_time: true, ..l }
    } else if w[i] == "btime"@ {
        Limits { time: [l.time[0], n as i64], has_time: true, ..l }
    } else if w[i] == "winc"@ {
        Limits { inc: [n as i64, l.inc[1]], ..l }
    } else if w[i] == "binc"@ {
        Limits { inc: [l.inc[0], n as i64], ..l }
    } else if w[i] == "movestogo"@ {
        Limits { movestogo: Some(n as i64), ..l }
    } else if w[i] == "movetime"@ {
        Limits { movetime: Some(n as i64), ..l }
    } else if w[i] == "depth"@ {
        Limits { depth: Some(clamp_to(n, 1, 246) as i32), ..l }
    } else if w[i] == "nodes"@ {
        Limits {
            nodes: Some(
                if n < 0 {
                    0
                } else {
                    n as u64
                },
            ),
            ..l
        }
    } else if w[i] == "infinite"@ {
        Limits { infinite: true, ..l }
    } else if w[i] == "ponder"@ {
        Limits { ponder: true, ..l }
    } else {
        l
    }
}

/// Does a word take the next one for its number?
pub open spec fn takes_number(s: Seq<char>) -> bool {
    s == "wtime"@ || s == "btime"@ || s == "winc"@ || s == "binc"@ || s == "movestogo"@ || s
        == "movetime"@ || s == "depth"@ || s == "nodes"@
}

/// The limits once the words from `i` on are read.
pub open spec fn limits_from(w: Seq<Seq<char>>, i: int, l: Limits) -> Limits
    decreases w.len() + 1 - i,
{
    if i < 0 || i >= w.len() {
        l
    } else {
        limits_from(
            w,
            if takes_number(w[i]) {
                i + 2
            } else {
                i + 1
            },
            limits_with(w, i, l),
        )
    }
}

/// Reads the words after `go`. The depth is clamped rather than cast: an unreadable
/// or negative number reads as 0, and a search to depth 0 returns no move.
pub fn parse_go(w: &[Vec<char>]) -> (r: Limits)
    ensures
        r == limits_from(views(w@), 0, Limits::nothing()),
        r.depth matches Some(d) ==> 1 <= d <= 246,
{
    let ghost all = views(w@);
    let count = w.len();
    let mut l = Limits::default();
    let mut i: usize = 0;
    while i < count
        invariant
            i <= count,
            count == w@.len(),
            all == views(w@),
            limits_from(all, 0, Limits::nothing()) == limits_from(all, i as int, l),
            l.depth matches Some(d) ==> 1 <= d <= 246,
        decreases count - i,
    {
        let word = &w[i];
        assert(all[i as int] == word@);
        let n = read_number(w, i + 1);
        let ghost before = l;
        let mut numbered = true;
        if word_is(word, "wtime") {
            l.time = [n, l.time[1]];
            l.has_time = true;
        } else if word_is(word, "btime") {
            l.time = [l.time[0], n];
            l.has_time = true;
        } else if word_is(word, "winc") {
            l.inc = [n, l.inc[1]];
        } else if word_is(word, "binc") {
            l.inc = [l.inc[0], n];
        } else if word_is(word, "movestogo") {
            l.movestogo = Some(n);
        } else if word_is(word, "movetime") {
            l.movetime = Some(n);
        } else if word_is(word, "depth") {
            l.depth = Some(
                if n < 1 {
                    1
                } else if n > 246 {
                    246
                } else {
                    n as i32
                },
            );
        } else if word_is(word, "nodes") {
            l.nodes = Some(
                if n < 0 {
                    0
                } else {
                    n as u64
                },
            );
        } else {
            numbered = false;
            if word_is(word, "infinite") {
                l.infinite = true;
            } else if word_is(word, "ponder") {
                l.ponder = true;
            }
        }
        proof {
            let want = limits_with(all, i as int, before);
            assert(l.time@ =~= want.time@);
            assert(l.inc@ =~= want.inc@);
            assert(l == want);
            assert(numbered == takes_number(all[i as int]));
            let next = if numbered {
                i + 2
            } else {
                i + 1
            };
            assert(limits_from(all, i as int, before) == limits_from(all, next, l));
            if next > count {
                assert(limits_from(all, next, l) == l);
                assert(limits_from(all, count as int, l) == l);
            }
        }
        i += 1;
        if numbered && i < count {
            i += 1;
        }
    }
    l
}

// -- options ------------------------------------------------------------------------------

/// What a `setoption` command changes.
pub enum Change {
    Nothing,
    Hash(usize),
    Threads(usize),
    MoveOverhead(i64),
    MultiPv(usize),
    Ponder(bool),
    ClearHash,
    OwnBook(bool),
    BookFile(String),
    BookMaxPly(u16),
    BookVariety(i32),
    BookSeed(u64),
    /// Not this engine's game.
    OtherVariant(String),
}

/// The words that switch something on or off; everything else leaves it alone.
pub open spec fn check_value(s: Seq<char>, current: bool) -> bool {
    let v = lower(trimmed(s));
    if v == "true"@ || v == "1"@ || v == "yes"@ || v == "on"@ {
        true
    } else if v == "false"@ || v == "0"@ || v == "no"@ || v == "off"@ {
        false
    } else {
        current
    }
}

fn check_word(value: &Vec<char>, current: bool) -> (r: bool)
    ensures
        r == check_value(value@, current),
{
    let v = to_lower(&trim(value));
    if word_is(&v, "true") || word_is(&v, "1") || word_is(&v, "yes") || word_is(&v, "on") {
        true
    } else if word_is(&v, "false") || word_is(&v, "0") || word_is(&v, "no") || word_is(&v, "off") {
        false
    } else {
        current
    }
}

/// A `type check` value. Anything unrecognised leaves the option alone.
pub fn parse_check(value: &str, current: bool) -> (r: bool)
    ensures
        r == check_value(value@, current),
{
    let v = chars_of(value);
    check_word(&v, current)
}

/// A number without a sign, up to `hi`.
pub open spec fn count_in(s: Seq<char>, hi: int) -> Option<int> {
    number_in(s, false, 0, hi)
}

/// Does the option `name` with `value` come to `c`? `ponder` and `own_book` are how
/// those options stand, which a value that is neither of a switch's leaves alone.
pub open spec fn comes_to(
    name: Seq<char>,
    value: Seq<char>,
    ponder: bool,
    own_book: bool,
    c: Change,
) -> bool {
    if name == "hash"@ {
        match count_in(value, usize::MAX as int) {
            Some(n) => c == Change::Hash(clamp_to(n, 1, 65536) as usize),
            None => c is Nothing,
        }
    } else if name == "threads"@ {
        match count_in(value, usize::MAX as int) {
            Some(n) => c == Change::Threads(clamp_to(n, 1, 64) as usize),
            None => c is Nothing,
        }
    } else if name == "move overhead"@ {
        match number_in(value, true, i64::MIN as int, i64::MAX as int) {
            Some(n) => c == Change::MoveOverhead(clamp_to(n, 0, 5000) as i64),
            None => c is Nothing,
        }
    } else if name == "multipv"@ {
        match count_in(value, usize::MAX as int) {
            Some(n) => c == Change::MultiPv(clamp_to(n, 1, 256) as usize),
            None => c is Nothing,
        }
    } else if name == "ponder"@ {
        c == Change::Ponder(check_value(value, ponder))
    } else if name == "clear hash"@ {
        c is ClearHash
    } else if name == "ownbook"@ {
        c == Change::OwnBook(check_value(value, own_book))
    } else if name == "bookfile"@ {
        c matches Change::BookFile(s) && s@ == value
    } else if name == "bookmaxply"@ {
        match count_in(value, 65535) {
            Some(n) => c == Change::BookMaxPly(clamp_to(n, 0, 40) as u16),
            None => c is Nothing,
        }
    } else if name == "bookvariety"@ {
        match number_in(value, true, i32::MIN as int, i32::MAX as int) {
            Some(n) => c == Change::BookVariety(clamp_to(n, 0, 400) as i32),
            None => c is Nothing,
        }
    } else if name == "bookseed"@ {
        // Zero keeps the stream seeded from the clock.
        match count_in(value, u64::MAX as int) {
            Some(n) => if n != 0 {
                c == Change::BookSeed(n as u64)
            } else {
                c is Nothing
            },
            None => c is Nothing,
        }
    } else if name == "uci_variant"@ && lower(value) != "grand"@ {
        c matches Change::OtherVariant(s) && s@ == value
    } else {
        c is Nothing
    }
}

fn clamp_size(n: u64, lo: usize, hi: usize) -> (r: usize)
    requires
        lo <= hi,
    ensures
        r == clamp_to(n as int, lo as int, hi as int),
{
    if n < lo as u64 {
        lo
    } else if n > hi as u64 {
        hi
    } else {
        n as usize
    }
}

fn clamp_long(n: i64, lo: i64, hi: i64) -> (r: i64)
    requires
        lo <= hi,
    ensures
        r == clamp_to(n as int, lo as int, hi as int),
{
    if n < lo {
        lo
    } else if n > hi {
        hi
    } else {
        n
    }
}

fn book_change(name: &Vec<char>, value: &Vec<char>, own_book: bool) -> (r: Option<Change>)
    ensures
        match r {
            Some(c) => forall|p: bool| #[trigger] comes_to(name@, value@, p, own_book, c),
            None => name@ != "ownbook"@ && name@ != "bookfile"@ && name@ != "bookmaxply"@ && name@
                != "bookvariety"@ && name@ != "bookseed"@,
        },
{
    proof {
        lemma_option_names();
    }
    if word_is(name, "ownbook") {
        Some(Change::OwnBook(check_word(value, own_book)))
    } else if word_is(name, "bookfile") {
        Some(Change::BookFile(string_of(value)))
    } else if word_is(name, "bookmaxply") {
        match parse_unsigned(value, 65535) {
            Some(n) => Some(Change::BookMaxPly(clamp_size(n, 0, MAX_BOOK_MAX_PLY as usize) as u16)),
            None => Some(Change::Nothing),
        }
    } else if word_is(name, "bookvariety") {
        match parse_signed(value, i32::MAX as i64) {
            Some(n) => Some(
                Change::BookVariety(clamp_long(n, 0, MAX_BOOK_VARIETY as i64) as i32),
            ),
            None => Some(Change::Nothing),
        }
    } else if word_is(name, "bookseed") {
        match parse_unsigned(value, u64::MAX) {
            Some(n) => if n != 0 {
                Some(Change::BookSeed(n))
            } else {
                Some(Change::Nothing)
            },
            None => Some(Change::Nothing),
        }
    } else {
        None
    }
}

/// The options have different names.
pub proof fn lemma_option_names()
    ensures
        "hash"@.len() == 4,
        "threads"@.len() == 7,
        "move overhead"@.len() == 13,
        "multipv"@.len() == 7,
        "ponder"@.len() == 6,
        "clear hash"@.len() == 10,
        "ownbook"@.len() == 7,
        "bookfile"@.len() == 8,
        "bookmaxply"@.len() == 10,
        "bookvariety"@.len() == 11,
        "bookseed"@.len() == 8,
        "uci_variant"@.len() == 11,
        "threads"@ != "multipv"@,
        "threads"@ != "ownbook"@,
        "multipv"@ != "ownbook"@,
        "clear hash"@ != "bookmaxply"@,
        "bookfile"@ != "bookseed"@,
        "bookvariety"@ != "uci_variant"@,
{
    reveal_strlit("hash");
    reveal_strlit("threads");
    reveal_strlit("move overhead");
    reveal_strlit("multipv");
    reveal_strlit("ponder");
    reveal_strlit("clear hash");
    reveal_strlit("ownbook");
    reveal_strlit("bookfile");
    reveal_strlit("bookmaxply");
    reveal_strlit("bookvariety");
    reveal_strlit("bookseed");
    reveal_strlit("uci_variant");
    assert("threads"@[0] == 't' && "multipv"@[0] == 'm' && "ownbook"@[0] == 'o');
    assert("clear hash"@[0] == 'c' && "bookmaxply"@[0] == 'b');
    assert("bookfile"@[4] == 'f' && "bookseed"@[4] == 's');
    assert("bookvariety"@[0] == 'b' && "uci_variant"@[0] == 'u');
}

/// Reads one option. `name` is in small letters; `ponder` and `own_book` are how
/// those options stand.
pub fn option_change(name: &Vec<char>, value: &Vec<char>, ponder: bool, own_book: bool) -> (r: Change)
    ensures
        comes_to(name@, value@, ponder, own_book, r),
{
    proof {
        lemma_option_names();
    }
    if word_is(name, "hash") {
        match parse_unsigned(value, usize::MAX as u64) {
            Some(n) => Change::Hash(clamp_size(n, 1, 65536)),
            None => Change::Nothing,
        }
    } else if word_is(name, "threads") {
        match parse_unsigned(value, usize::MAX as u64) {
            Some(n) => Change::Threads(clamp_size(n, 1, MAX_THREADS)),
            None => Change::Nothing,
        }
    } else if word_is(name, "move overhead") {
        match parse_signed(value, i64::MAX) {
            Some(n) => Change::MoveOverhead(clamp_long(n, 0, 5000)),
            None => Change::Nothing,
        }
    } else if word_is(name, "multipv") {
        match parse_unsigned(value, usize::MAX as u64) {
            Some(n) => Change::MultiPv(clamp_size(n, 1, MAX_MULTIPV)),
            None => Change::Nothing,
        }
    } else if word_is(name, "ponder") {
        Change::Ponder(check_word(value, ponder))
    } else if word_is(name, "clear hash") {
        Change::ClearHash
    } else {
        match book_change(name, value, own_book) {
            Some(c) => c,
            None => {
                let variant = to_lower(value);
                if word_is(name, "uci_variant") && !word_is(&variant, VARIANT) {
                    Change::OtherVariant(string_of(value))
                } else {
                    Change::Nothing
                }
            },
        }
    }
}

/// The name and the value in a `setoption` command: what stands between `name` and
/// `value`, in small letters, and what follows `value`. Nothing where there is no
/// name before the value.
pub open spec fn option_in(w: Seq<Seq<char>>) -> Option<(Seq<char>, Seq<char>)> {
    let n = place_of(w, "name"@, 0);
    let v = place_of(w, "value"@, 0);
    if n >= w.len() || n + 1 > v {
        None
    } else {
        Some(
            (
                lower(joined(w.subrange(n + 1, v))),
                if v < w.len() {
                    joined(w.skip(v + 1))
                } else {
                    Seq::empty()
                },
            ),
        )
    }
}

/// Reads a `setoption` command. `ponder` and `own_book` are how those options
/// stand.
pub fn set_option(w: &[Vec<char>], ponder: bool, own_book: bool) -> (r: Change)
    ensures
        match option_in(views(w@)) {
            Some((name, value)) => comes_to(name, value, ponder, own_book, r),
            None => r is Nothing,
        },
{
    let count = w.len();
    let n = find_word(w, "name");
    let v = find_word(w, "value");
    if n >= count || n + 1 > v {
        return Change::Nothing;
    }
    let name = to_lower(&join(w, n + 1, v));
    let value = if v < count {
        join(w, v + 1, count)
    } else {
        Vec::new()
    };
    proof {
        let all = views(w@);
        if v < count {
            assert(all.subrange(v + 1, count as int) =~= all.skip(v + 1));
        } else {
            assert(value@ =~= Seq::empty());
        }
    }
    option_change(&name, &value, ponder, own_book)
}

/// The options that are only numbers and switches.
#[derive(Clone, Copy)]
pub struct Settings {
    pub move_overhead: i64,
    pub multipv: usize,
    pub ponder: bool,
    pub own_book: bool,
    pub book_max_ply: u16,
    pub book_variety: i32,
}

impl Default for Settings {
    fn default() -> (r: Settings)
        ensures
            r.in_range(),
            r.move_overhead == 30,
            r.multipv == 1,
            !r.ponder,
            r.own_book,
            r.book_max_ply == 16,
            r.book_variety == 100,
    {
        Settings {
            move_overhead: 30,
            multipv: 1,
            ponder: false,
            own_book: DEFAULT_OWN_BOOK,
            book_max_ply: DEFAULT_BOOK_MAX_PLY,
            book_variety: DEFAULT_BOOK_VARIETY,
        }
    }
}

impl Settings {
    pub open spec fn in_range(&self) -> bool {
        &&& 0 <= self.move_overhead <= 5000
        &&& 1 <= self.multipv <= 256
        &&& self.book_max_ply <= 40
        &&& 0 <= self.book_variety <= 400
    }

    /// The settings after a change; the changes that are more than numbers leave
    /// them as they are.
    pub open spec fn changed(self, c: Change) -> Settings {
        match c {
            Change::MoveOverhead(v) => Settings { move_overhead: v, ..self },
            Change::MultiPv(v) => Settings { multipv: v, ..self },
            Change::Ponder(v) => Settings { ponder: v, ..self },
            Change::OwnBook(v) => Settings { own_book: v, ..self },
            Change::BookMaxPly(v) => Settings { book_max_ply: v, ..self },
            Change::BookVariety(v) => Settings { book_variety: v, ..self },
            _ => self,
        }
    }

    pub fn apply(&mut self, c: &Change)
        ensures
            *final(self) == old(self).changed(*c),
    {
        match c {
            Change::MoveOverhead(v) => {
                self.move_overhead = *v;
            },
            Change::MultiPv(v) => {
                self.multipv = *v;
            },
            Change::Ponder(v) => {
                self.ponder = *v;
            },
            Change::OwnBook(v) => {
                self.own_book = *v;
            },
            Change::BookMaxPly(v) => {
                self.book_max_ply = *v;
            },
            Change::BookVariety(v) => {
                self.book_variety = *v;
            },
            _ => {},
        }
    }

    /// May the book answer a `go`?
    pub fn may_use_book(&self, limits: &Limits, game_ply: u16) -> (r: bool)
        ensures
            r == (self.own_book && !limits.infinite && !limits.ponder && game_ply
                <= self.book_max_ply),
    {
        self.own_book && !limits.infinite && !limits.ponder && game_ply <= self.book_max_ply
    }
}

/// Law: no `setoption` command takes the settings out of their ranges.
pub proof fn options_stay_in_range(s: Settings, name: Seq<char>, value: Seq<char>, c: Change)
    requires
        s.in_range(),
        comes_to(name, value, s.ponder, s.own_book, c),
    ensures
        s.changed(c).in_range(),
{
    lemma_option_names();
}

} // verus!
