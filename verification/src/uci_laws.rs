//! What the words of the protocol mean.

use vstd::prelude::*;

use crate::fen::fen_position;
use crate::attacks::Tables;
use crate::board::{Board, Undo};

use crate::movegen::{GEN_ALL, gen_of, moves_of};
use crate::movegen_laws::generated_exactly_legal;

use crate::notation::move_name;
use crate::play::made;
use crate::position::{legal, moved};
use crate::searcher::{listed_at, pos_of};

use crate::text::{decimal, decimal_int, is_space, number, views, words};
use crate::text_laws::{lemma_decimal, lemma_parts};
use crate::timing::Limits;
use crate::types::{Color, Move};
use crate::uci::{
    Change, Command, Settings, Setup, a_named_move_is_read_back, command, is_game, joined,
    lemma_option_names, limits_from, limits_with, lower, move_named, number_at, option_change,
    option_in, parse_check, parse_go, parse_move, place_of, plays_word, set_option, set_position,
    setup_fen, setup_moves, setup_start, takes_number, trimmed,
};

verus! {

// -- commands ------------------------------------------------------------------------

/// Law: a line is the command that its first word names, and a line without words or with
/// another first word asks for nothing.
pub proof fn a_line_is_told_by_its_first_word(w: &[Vec<char>], r: Command)
    requires
        call_ensures(command, (w,), r),
    ensures
        w@.len() == 0 ==> r == Command::Nothing,
        w@.len() > 0 ==> {
            let c = w@[0]@;
            &&& r == Command::Uci <==> c == "uci"@
            &&& r == Command::IsReady <==> c == "isready"@
            &&& r == Command::NewGame <==> c == "ucinewgame"@
            &&& r == Command::SetOption <==> c == "setoption"@
            &&& r == Command::Position <==> c == "position"@
            &&& r == Command::Go <==> c == "go"@
            &&& r == Command::Stop <==> c == "stop"@
            &&& r == Command::PonderHit <==> c == "ponderhit"@
            &&& r == Command::Quit <==> c == "quit"@
        },
{
    if w@.len() > 0 {
        assert(views(w@)[0] == w@[0]@);
    }
    reveal_strlit("uci");
    reveal_strlit("isready");
    reveal_strlit("ucinewgame");
    reveal_strlit("setoption");
    reveal_strlit("position");
    reveal_strlit("go");
    reveal_strlit("stop");
    reveal_strlit("ponderhit");
    reveal_strlit("quit");
    assert("uci"@.len() == 3 && "isready"@.len() == 7 && "ucinewgame"@.len() == 10);
    assert("setoption"@.len() == 9 && "position"@.len() == 8 && "go"@.len() == 2);
    assert("stop"@.len() == 4 && "ponderhit"@.len() == 9 && "quit"@.len() == 4);
    assert("setoption"@[0] == 's' && "ponderhit"@[0] == 'p');
    assert("stop"@[0] == 's' && "quit"@[0] == 'q');
}

// -- moves ---------------------------------------------------------------------------

/// Law: a legal move is read from its name, and a text that names none is no move.
pub proof fn a_move_is_read_from_its_name(b: Board, tables: Tables, s: &str, m: Move, r: Option<Move>)
    requires
        b.wf(),
        m.compact(),
        legal(b.q(), b.stm, b.ep, m),
        call_ensures(parse_move, (&b, &tables, s), r),
    ensures
        s@ == move_name(m) ==> r == Some(m),
        r is None ==> s@ != move_name(m),
        r matches Some(x) ==> legal(b.q(), b.stm, b.ep, x) && move_name(x) == s@,
{
    generated_exactly_legal(gen_of(&b, GEN_ALL));
    assert(moves_of(gen_of(&b, GEN_ALL)).contains(m));
    assert(listed_at(pos_of(b@)) == moves_of(gen_of(&b, GEN_ALL)));
    a_named_move_is_read_back(&b, m);
}

// -- go ------------------------------------------------------------------------------

/// The words of a `go` command that take the next one for their number.
pub open spec fn wants_number(s: Seq<char>) -> bool {
    s == "wtime"@ || s == "btime"@ || s == "winc"@ || s == "binc"@ || s == "movestogo"@ || s
        == "movetime"@ || s == "depth"@ || s == "nodes"@
}

/// Read from word `i` on, each with its number, the words come out even.
pub open spec fn comes_out_even(w: Seq<Seq<char>>, i: int) -> bool
    decreases w.len() + 1 - i,
{
    if i >= w.len() {
        i == w.len()
    } else if wants_number(w[i]) {
        comes_out_even(w, i + 2)
    } else {
        comes_out_even(w, i + 1)
    }
}

proof fn lemma_go_prefix(a: Seq<Seq<char>>, b: Seq<Seq<char>>, i: int, l: Limits)
    requires
        0 <= i <= a.len(),
        comes_out_even(a, i),
    ensures
        limits_from(a + b, i, l) == limits_from(a + b, a.len() as int, limits_from(a, i, l)),
    decreases a.len() - i,
{
    let w = a + b;
    if i < a.len() {
        assert(w[i] == a[i]);
        assert(takes_number(a[i]) == wants_number(a[i]));
        if wants_number(a[i]) {
            assert(i + 2 <= a.len()) by {
                if i + 2 > a.len() {
                    assert(!comes_out_even(a, i + 2));
                }
            }
            assert(w[i + 1] == a[i + 1]);
            assert(number_at(w, i + 1) == number_at(a, i + 1));
            assert(limits_with(w, i, l) == limits_with(a, i, l));
            lemma_go_prefix(a, b, i + 2, limits_with(a, i, l));
        } else {
            assert(limits_with(w, i, l) == limits_with(a, i, l));
            lemma_go_prefix(a, b, i + 1, limits_with(a, i, l));
        }
    }
}

proof fn lemma_go_words()
    ensures
        "wtime"@ != "btime"@,
        "wtime"@ != "winc"@,
        "wtime"@ != "binc"@,
        "wtime"@ != "movestogo"@,
        "wtime"@ != "movetime"@,
        "wtime"@ != "depth"@,
        "wtime"@ != "nodes"@,
        "btime"@ != "winc"@,
        "btime"@ != "binc"@,
        "btime"@ != "movestogo"@,
        "btime"@ != "movetime"@,
        "btime"@ != "depth"@,
        "btime"@ != "nodes"@,
        "winc"@ != "binc"@,
        "winc"@ != "movestogo"@,
        "winc"@ != "movetime"@,
        "winc"@ != "depth"@,
        "winc"@ != "nodes"@,
        "binc"@ != "movestogo"@,
        "binc"@ != "movetime"@,
        "binc"@ != "depth"@,
        "binc"@ != "nodes"@,
        "movestogo"@ != "movetime"@,
        "movestogo"@ != "depth"@,
        "movestogo"@ != "nodes"@,
        "movetime"@ != "depth"@,
        "movetime"@ != "nodes"@,
        "depth"@ != "nodes"@,
        !wants_number("infinite"@),
        !wants_number("ponder"@),
        "infinite"@ != "ponder"@,
{
    reveal_strlit("wtime");
    reveal_strlit("btime");
    reveal_strlit("winc");
    reveal_strlit("binc");
    reveal_strlit("movestogo");
    reveal_strlit("movetime");
    reveal_strlit("depth");
    reveal_strlit("nodes");
    reveal_strlit("infinite");
    reveal_strlit("ponder");
    assert("wtime"@.len() == 5 && "btime"@.len() == 5 && "depth"@.len() == 5 && "nodes"@.len() == 5);
    assert("winc"@.len() == 4 && "binc"@.len() == 4);
    assert("movestogo"@.len() == 9 && "movetime"@.len() == 8);
    assert("infinite"@.len() == 8 && "ponder"@.len() == 6);
    assert("wtime"@[0] == 'w' && "btime"@[0] == 'b' && "depth"@[0] == 'd' && "nodes"@[0] == 'n');
    assert("winc"@[0] == 'w' && "binc"@[0] == 'b');
    assert("movetime"@[0] == 'm' && "infinite"@[0] == 'i');
}

/// Law: a bare `go` sets no limit.
pub proof fn a_bare_go_sets_no_limit(w: &[Vec<char>], r: Limits)
    requires
        w@.len() == 0,
        call_ensures(parse_go, (w,), r),
    ensures
        r.time[0] == 0 && r.time[1] == 0 && r.inc[0] == 0 && r.inc[1] == 0,
        r.movestogo is None && r.movetime is None && r.depth is None && r.nodes is None,
        !r.infinite && !r.ponder && !r.has_time,
{
    assert(views(w@).len() == 0);
}

/// Law: one more word and its number at the end of a `go` command sets that limit, and
/// leaves the others: the clocks and increments of the two sides, the moves to the time
/// control, the time for the move, the depth, from 1 to 246, and the nodes, from 0.
pub proof fn one_more_limit(w: &[Vec<char>], more: &[Vec<char>], word: Seq<char>, n: i64, r: Limits, rm: Limits)
    requires
        n > i64::MIN,
        comes_out_even(views(w@), 0),
        views(more@) == views(w@) + seq![word, decimal_int(n as int)],
        call_ensures(parse_go, (w,), r),
        call_ensures(parse_go, (more,), rm),
    ensures
        word == "wtime"@ ==> rm == (Limits { time: [n, r.time[1]], has_time: true, ..r }),
        word == "btime"@ ==> rm == (Limits { time: [r.time[0], n], has_time: true, ..r }),
        word == "winc"@ ==> rm == (Limits { inc: [n, r.inc[1]], ..r }),
        word == "binc"@ ==> rm == (Limits { inc: [r.inc[0], n], ..r }),
        word == "movestogo"@ ==> rm == (Limits { movestogo: Some(n), ..r }),
        word == "movetime"@ ==> rm == (Limits { movetime: Some(n), ..r }),
        word == "depth"@ && 1 <= n <= 246 ==> rm == (Limits { depth: Some(n as i32), ..r }),
        word == "depth"@ && n < 1 ==> rm == (Limits { depth: Some(1), ..r }),
        word == "depth"@ && n > 246 ==> rm == (Limits { depth: Some(246), ..r }),
        word == "nodes"@ && n >= 0 ==> rm == (Limits { nodes: Some(n as u64), ..r }),
        word == "nodes"@ && n < 0 ==> rm == (Limits { nodes: Some(0), ..r }),
{
    let a = views(w@);
    let b = seq![word, decimal_int(n as int)];
    let all = a + b;
    lemma_go_prefix(a, b, 0, Limits::nothing());
    lemma_go_words();
    let k = a.len() as int;
    assert(all[k] == word);
    assert(all[k + 1] == decimal_int(n as int));
    if n < 0 {
        lemma_decimal((-n) as nat);
        assert(all[k + 1].drop_first() =~= decimal((-n) as nat));
    } else {
        lemma_decimal(n as nat);
    }
    assert(number_at(all, k + 1) == n);
    if wants_number(word) {
        assert(takes_number(word));
        assert(limits_from(all, k, r) == limits_from(all, k + 2, limits_with(all, k, r)));
        assert(limits_from(all, k + 2, limits_with(all, k, r)) == limits_with(all, k, r));
    }
}

/// Law: `infinite` and `ponder` need no number.
pub proof fn one_more_switch(w: &[Vec<char>], more: &[Vec<char>], word: Seq<char>, r: Limits, rm: Limits)
    requires
        comes_out_even(views(w@), 0),
        views(more@) == views(w@) + seq![word],
        call_ensures(parse_go, (w,), r),
        call_ensures(parse_go, (more,), rm),
    ensures
        word == "infinite"@ ==> rm == (Limits { infinite: true, ..r }),
        word == "ponder"@ ==> rm == (Limits { ponder: true, ..r }),
{
    let a = views(w@);
    let b = seq![word];
    let all = a + b;
    lemma_go_prefix(a, b, 0, Limits::nothing());
    lemma_go_words();
    let k = a.len() as int;
    assert(all[k] == word);
    if word == "infinite"@ || word == "ponder"@ {
        assert(limits_from(all, k, r) == limits_from(all, k + 1, limits_with(all, k, r)));
        assert(limits_from(all, k + 1, limits_with(all, k, r)) == limits_with(all, k, r));
    }
}

// -- options -------------------------------------------------------------------------

/// Law: an option with a number takes it within its range: 1 to 65536 megabytes, 1 to 64
/// threads, up to 5000 ms of overhead, 1 to 256 lines, up to 40 plies of book and a
/// variety up to 400; a seed of 0 is none.
pub proof fn a_number_option_is_kept_in_range(
    name: Vec<char>,
    value: Vec<char>,
    n: nat,
    ponder: bool,
    own_book: bool,
    r: Change,
)
    requires
        call_ensures(option_change, (&name, &value, ponder, own_book), r),
        value@ == decimal(n),
        n <= 65535,
    ensures
        name@ == "hash"@ ==> r == Change::Hash(if n < 1 { 1 } else { n as usize }),
        name@ == "threads"@ ==> r == Change::Threads(
            if n < 1 {
                1
            } else if n > 64 {
                64
            } else {
                n as usize
            },
        ),
        name@ == "move overhead"@ ==> r == Change::MoveOverhead(
            if n > 5000 {
                5000
            } else {
                n as i64
            },
        ),
        name@ == "multipv"@ ==> r == Change::MultiPv(
            if n < 1 {
                1
            } else if n > 256 {
                256
            } else {
                n as usize
            },
        ),
        name@ == "bookmaxply"@ ==> r == Change::BookMaxPly(
            if n > 40 {
                40
            } else {
                n as u16
            },
        ),
        name@ == "bookvariety"@ ==> r == Change::BookVariety(
            if n > 400 {
                400
            } else {
                n as i32
            },
        ),
        name@ == "bookseed"@ && n > 0 ==> r == Change::BookSeed(n as u64),
        name@ == "bookseed"@ && n == 0 ==> r is Nothing,
{
    lemma_decimal(n);
    lemma_option_names();
    assert(number(value@, false) == Some(n as int));
    assert(number(value@, true) == Some(n as int));
}

/// Law: more memory than 65536 megabytes is not taken.
pub proof fn memory_is_bounded(name: Vec<char>, value: Vec<char>, n: nat, ponder: bool, own_book: bool, r: Change)
    requires
        call_ensures(option_change, (&name, &value, ponder, own_book), r),
        name@ == "hash"@,
        value@ == decimal(n),
        65536 <= n <= usize::MAX,
    ensures
        r == Change::Hash(65536),
{
    lemma_decimal(n);
    lemma_option_names();
    assert(number(value@, false) == Some(n as int));
}

/// Law: a switch is turned by its words, in small or capital letters, and left alone by
/// any other.
pub proof fn a_switch_is_turned_by_its_words(value: &str, current: bool, r: bool)
    requires
        call_ensures(parse_check, (value, current), r),
    ensures
        value@ == "true"@ || value@ == "on"@ || value@ == "yes"@ || value@ == "1"@ || value@
            == "TRUE"@ || value@ == "On"@ ==> r,
        value@ == "false"@ || value@ == "off"@ || value@ == "no"@ || value@ == "0"@ || value@
            == "FALSE"@ || value@ == "Off"@ ==> !r,
        value@.len() == 0 || value@.len() > 5 && (forall|i: int|
            0 <= i < value@.len() ==> !is_space(#[trigger] value@[i])) ==> r == current,
{
    reveal_strlit("true");
    reveal_strlit("on");
    reveal_strlit("yes");
    reveal_strlit("1");
    reveal_strlit("TRUE");
    reveal_strlit("On");
    reveal_strlit("false");
    reveal_strlit("off");
    reveal_strlit("no");
    reveal_strlit("0");
    reveal_strlit("FALSE");
    reveal_strlit("Off");
    reveal(trimmed);
    let v = value@;
    if value@.len() == 0 || (forall|i: int|
        0 <= i < value@.len() ==> !is_space(#[trigger] value@[i])) {
        if v.len() > 0 {
            assert(!is_space(v[0]));
            assert(!is_space(v[v.len() - 1]));
        }
        assert(trimmed(v) == v);
        assert(lower(v).len() == v.len());
    }
    if v == "true"@ || v == "TRUE"@ {
        assert(v.len() == 4);
        assert(lower(v) =~= "true"@);
    }
    if v == "on"@ || v == "On"@ {
        assert(v.len() == 2);
        assert(lower(v) =~= "on"@);
    }
    if v == "yes"@ {
        assert(v.len() == 3);
        assert(lower(v) =~= "yes"@);
    }
    if v == "1"@ {
        assert(v.len() == 1);
        assert(lower(v) =~= "1"@);
    }
    if v == "false"@ || v == "FALSE"@ {
        assert(v.len() == 5);
        assert(lower(v) =~= "false"@);
        assert("true"@.len() == 4 && "1"@.len() == 1 && "yes"@.len() == 3 && "on"@.len() == 2);
    }
    if v == "off"@ || v == "Off"@ {
        assert(v.len() == 3);
        assert(lower(v) =~= "off"@);
        assert("yes"@[0] == 'y' && "off"@[0] == 'o');
    }
    if v == "no"@ {
        assert(v.len() == 2);
        assert(lower(v) =~= "no"@);
        assert("on"@[0] == 'o' && "no"@[0] == 'n');
    }
    if v == "0"@ {
        assert(v.len() == 1);
        assert(lower(v) =~= "0"@);
        assert("1"@[0] == '1' && "0"@[0] == '0');
    }
}

/// Law: the book answers only where it is switched on, as long as the game is within its
/// plies, and never an endless search or one that ponders.
pub proof fn when_the_book_answers(s: Settings, limits: Limits, game_ply: u16, r: bool)
    requires
        call_ensures(Settings::may_use_book, (&s, &limits, game_ply), r),
    ensures
        !s.own_book || limits.infinite || limits.ponder || game_ply > s.book_max_ply ==> !r,
        s.own_book && !limits.infinite && !limits.ponder && game_ply <= s.book_max_ply ==> r,
{
}

/// Law: a change of one setting changes that one.
pub proof fn a_change_changes_one_setting(s: &mut Settings, c: Change)
    requires
        call_ensures(Settings::apply, (s, &c), ()),
    ensures
        final(s).move_overhead == if c is MoveOverhead { c->MoveOverhead_0 } else { old(s).move_overhead },
        final(s).multipv == if c is MultiPv { c->MultiPv_0 } else { old(s).multipv },
        final(s).ponder == if c is Ponder { c->Ponder_0 } else { old(s).ponder },
        final(s).own_book == if c is OwnBook { c->OwnBook_0 } else { old(s).own_book },
        final(s).book_max_ply == if c is BookMaxPly { c->BookMaxPly_0 } else { old(s).book_max_ply },
        final(s).book_variety == if c is BookVariety { c->BookVariety_0 } else { old(s).book_variety },
{
}

// -- position ------------------------------------------------------------------------

/// Law: `position startpos` is the start of a game, and a command with neither `startpos`
/// nor `fen` in front is nothing.
pub proof fn a_game_starts_from_startpos(tables: Tables, w: &[Vec<char>], start: Board, r: Setup)
    requires
        w@.len() == 1,
        call_ensures(set_position, (&tables, w), r),
        call_ensures(Board::startpos, (&tables,), start),
    ensures
        w@[0]@ == "startpos"@ ==> r is Ready && r->Ready_0.mailbox@ == start.mailbox@
            && r->Ready_0.stm == start.stm && r->Ready_0.ep == start.ep && r->Ready_0.halfmove
            == start.halfmove && r->Ready_0.key == start.key,
        w@[0]@ != "startpos"@ && w@[0]@ != "fen"@ ==> r is Nothing,
{
    let all = views(w@);
    assert(all.len() == 1 && all[0] == w@[0]@);
    if all[0] == "startpos"@ {
        assert(setup_moves(all).len() == 0);
        match r {
            Setup::Ready(b) => {
                let bs = choose|bs: Seq<Board>|
                    {
                        &&& #[trigger] is_game(bs, setup_moves(all))
                        &&& setup_start(all, bs[0])
                        &&& bs.last() == b
                    };
                assert(bs.len() == 1);
                assert(bs[0] == b);
            },
            _ => {},
        }
    }
}

/// Law: `position startpos moves` and a move is the start of a game with that move
/// played, where the move is legal, and is refused with that word where it names no legal
/// move.
pub proof fn a_move_is_played_from_the_start(
    tables: Tables,
    w: &[Vec<char>],
    start: Board,
    m: Move,
    r: Setup,
)
    requires
        w@.len() == 3,
        w@[0]@ == "startpos"@,
        w@[1]@ == "moves"@,
        call_ensures(set_position, (&tables, w), r),
        call_ensures(Board::startpos, (&tables,), start),
    ensures
        m.compact() && legal(start.q(), start.stm, start.ep, m) && w@[2]@ == move_name(m) ==> r is Ready
            && r->Ready_0.mailbox@ == moved(start.q(), start.stm, m) && r->Ready_0.stm
            == Color::Black,
        !(r is Ready) ==> r is IllegalMove && r->IllegalMove_0@ == w@[2]@,
{
    let all = views(w@);
    assert(all.len() == 3 && all[0] == w@[0]@ && all[1] == w@[1]@ && all[2] == w@[2]@);
    let ms = setup_moves(all);
    assert(ms =~= seq![w@[2]@]);
    match r {
        Setup::Ready(b) => {
            let bs = choose|bs: Seq<Board>|
                {
                    &&& #[trigger] is_game(bs, ms)
                    &&& setup_start(all, bs[0])
                    &&& bs.last() == b
                };
            assert(plays_word(bs[0], ms[0], bs[1]));
            let (x, u) = choose|x: Move, u: Undo|
                move_named(pos_of(bs[0]@), ms[0]) == Some(x) && #[trigger] made(bs[0], x, bs[1], u, true);
            if m.compact() && legal(start.q(), start.stm, start.ep, m) && w@[2]@ == move_name(m) {
                generated_exactly_legal(gen_of(&bs[0], GEN_ALL));
                assert(moves_of(gen_of(&bs[0], GEN_ALL)).contains(m));
                assert(listed_at(pos_of(bs[0]@)) == moves_of(gen_of(&bs[0], GEN_ALL)));
                a_named_move_is_read_back(&bs[0], m);
            }
        },
        Setup::IllegalMove(s) => {
            let (bs, k) = choose|bs: Seq<Board>, k: int|
                {
                    &&& 0 <= k < ms.len()
                    &&& #[trigger] is_game(bs, ms.take(k))
                    &&& setup_start(all, bs[0])
                    &&& move_named(pos_of(bs.last()@), ms[k]) is None
                    &&& s@ == ms[k]
                };
            assert(k == 0);
            assert(ms.take(0).len() == 0);
            assert(bs.len() == 1);
            if m.compact() && legal(start.q(), start.stm, start.ep, m) && w@[2]@ == move_name(m) {
                generated_exactly_legal(gen_of(&bs[0], GEN_ALL));
                assert(moves_of(gen_of(&bs[0], GEN_ALL)).contains(m));
                assert(listed_at(pos_of(bs[0]@)) == moves_of(gen_of(&bs[0], GEN_ALL)));
                a_named_move_is_read_back(&bs[0], m);
            }
        },
        _ => {},
    }
}

/// Law: a `setoption` command with one word for the name and one for the value changes
/// that option, whatever letters the name is written in; without a name it changes
/// nothing.
pub proof fn an_option_is_set_by_name_and_value(w: &[Vec<char>], name: Vec<char>, value: Vec<char>, ponder: bool, own_book: bool, n: nat, r: Change)
    requires
        w@.len() == 4,
        w@[0]@ == "name"@,
        w@[2]@ == "value"@,
        w@[1]@ != "value"@,
        w@[3]@ == decimal(n),
        n <= 65535,
        call_ensures(set_option, (w, ponder, own_book), r),
    ensures
        w@[1]@ == "Threads"@ || w@[1]@ == "threads"@ ==> r == Change::Threads(
            if n < 1 {
                1
            } else if n > 64 {
                64
            } else {
                n as usize
            },
        ),
        w@[1]@ == "Hash"@ || w@[1]@ == "hash"@ ==> r == Change::Hash(if n < 1 { 1 } else { n as usize }),
        w@[1]@ == "MultiPV"@ ==> r == Change::MultiPv(
            if n < 1 {
                1
            } else if n > 256 {
                256
            } else {
                n as usize
            },
        ),
{
    let all = views(w@);
    assert(all.len() == 4 && all[0] == w@[0]@ && all[1] == w@[1]@ && all[2] == w@[2]@ && all[3]
        == w@[3]@);
    reveal_strlit("name");
    reveal_strlit("value");
    assert("name"@.len() == 4 && "value"@.len() == 5);
    assert(place_of(all, "name"@, 0) == 0);
    reveal_with_fuel(place_of, 4);
    assert(place_of(all, "value"@, 0) == 2);
    assert(all.subrange(1, 2) =~= seq![w@[1]@]);
    assert(all.skip(3) =~= seq![w@[3]@]);
    assert(option_in(all) == Some((lower(w@[1]@), w@[3]@)));
    lemma_decimal(n);
    lemma_option_names();
    assert(number(w@[3]@, false) == Some(n as int));
    reveal_strlit("Threads");
    reveal_strlit("threads");
    reveal_strlit("Hash");
    reveal_strlit("hash");
    reveal_strlit("MultiPV");
    reveal_strlit("multipv");
    if w@[1]@ == "Threads"@ || w@[1]@ == "threads"@ {
        assert(lower(w@[1]@) =~= "threads"@);
    }
    if w@[1]@ == "Hash"@ || w@[1]@ == "hash"@ {
        assert(lower(w@[1]@) =~= "hash"@);
    }
    if w@[1]@ == "MultiPV"@ {
        assert(lower(w@[1]@) =~= "multipv"@);
    }
}

/// Law: without a name nothing is set.
pub proof fn an_option_without_a_name_is_nothing(w: &[Vec<char>], ponder: bool, own_book: bool, r: Change)
    requires
        forall|i: int| 0 <= i < w@.len() ==> (#[trigger] w@[i])@ != "name"@,
        call_ensures(set_option, (w, ponder, own_book), r),
    ensures
        r is Nothing,
{
    let all = views(w@);
    lemma_no_place(all, "name"@, 0);
}

proof fn lemma_no_place(w: Seq<Seq<char>>, word: Seq<char>, k: int)
    requires
        0 <= k <= w.len(),
        forall|i: int| k <= i < w.len() ==> #[trigger] w[i] != word,
    ensures
        place_of(w, word, k) == w.len(),
    decreases w.len() - k,
{
    if k < w.len() {
        lemma_no_place(w, word, k + 1);
    }
}

/// Law: spaces around the value of a switch do not matter.
pub proof fn spaces_around_a_switch_do_not_matter(value: &str, before: &str, behind: &str, current: bool, r: bool, rb: bool, ra: bool)
    requires
        before@ == seq![' '] + value@,
        behind@ == value@.push(' '),
        call_ensures(parse_check, (value, current), r),
        call_ensures(parse_check, (before, current), rb),
        call_ensures(parse_check, (behind, current), ra),
    ensures
        rb == r,
        ra == r,
{
    lemma_trim_before(value@);
    lemma_trim_behind(value@);
}

proof fn lemma_trim_before(s: Seq<char>)
    ensures
        trimmed(seq![' '] + s) == trimmed(s),
{
    reveal(trimmed);
    let t = seq![' '] + s;
    assert(t[0] == ' ');
    assert(t.drop_first() =~= s);
}

proof fn lemma_trim_behind(s: Seq<char>)
    ensures
        trimmed(s.push(' ')) == trimmed(s),
    decreases s.len(),
{
    reveal(trimmed);
    let t = s.push(' ');
    if s.len() > 0 && is_space(s[0]) {
        lemma_trim_behind(s.drop_first());
        assert(t[0] == s[0]);
        assert(t.drop_first() =~= s.drop_first().push(' '));
    } else if s.len() > 0 {
        assert(t[0] == s[0]);
        assert(t.last() == ' ');
        assert(t.drop_last() =~= s);
    } else {
        assert(t.drop_first() =~= s);
    }
}

/// Every word has a character, and none is a space.
pub open spec fn are_words(ws: Seq<Seq<char>>) -> bool {
    forall|k: int, i: int| #![trigger ws[k][i]]
        0 <= k < ws.len() && 0 <= i < ws[k].len() ==> !is_space(ws[k][i])
}

proof fn lemma_words_joined(ws: Seq<Seq<char>>)
    requires
        are_words(ws),
        forall|k: int| 0 <= k < ws.len() ==> (#[trigger] ws[k]).len() > 0,
    ensures
        words(joined(ws)) == ws,
    decreases ws.len(),
{
    if ws.len() == 0 {
        assert(words(Seq::<char>::empty()) =~= ws);
    } else if ws.len() == 1 {
        let a = ws[0];
        assert forall|i: int| 0 <= i < a.len() implies !is_space(#[trigger] a[i]) by {
            assert(!is_space(ws[0][i]));
        }
        lemma_parts(a, Seq::empty(), ' ');
        assert(seq![a] =~= ws);
    } else {
        let us = ws.drop_last();
        let a = ws.last();
        assert forall|k: int, i: int| #![trigger us[k][i]]
            0 <= k < us.len() && 0 <= i < us[k].len() implies !is_space(us[k][i]) by {
            assert(us[k] == ws[k]);
            assert(!is_space(ws[k][i]));
        }
        assert forall|k: int| 0 <= k < us.len() implies (#[trigger] us[k]).len() > 0 by {
            assert(us[k] == ws[k]);
        }
        lemma_words_joined(us);
        assert forall|i: int| 0 <= i < a.len() implies !is_space(#[trigger] a[i]) by {
            assert(!is_space(ws[ws.len() - 1][i]));
        }
        assert(ws[ws.len() - 1].len() > 0);
        lemma_parts(joined(us), a, ' ');
        lemma_parts(a, Seq::empty(), ' ');
        assert(joined(us) + seq![' '] + a =~= joined(us).push(' ') + a);
        assert(us + seq![a] =~= ws);
    }
}

/// Law: `position fen` sets up the position that the words after it write down, if they do.
pub proof fn a_game_starts_from_a_position(tables: Tables, w: &[Vec<char>], text: &str, r: Setup, f: Result<Board, String>)
    requires
        w@.len() >= 1,
        w@[0]@ == "fen"@,
        call_ensures(set_position, (&tables, w), r),
        call_ensures(Board::from_fen, (&tables, text), f),
        words(text@) == views(w@).skip(1),
        are_words(views(w@)),
        forall|k: int| 0 <= k < w@.len() ==> (#[trigger] views(w@)[k]).len() > 0 && views(w@)[k] != "moves"@,
    ensures
        f is Err ==> r is BadFen && r->BadFen_0@ == f->Err_0@,
        f matches Ok(b) ==> r is Ready && r->Ready_0.mailbox@ == b.mailbox@ && r->Ready_0.stm == b.stm && r->Ready_0.ep == b.ep
            && r->Ready_0.halfmove == b.halfmove && r->Ready_0.game_ply == b.game_ply && r->Ready_0.key == b.key,
{
    let all = views(w@);
    assert(all[0] == w@[0]@);
    reveal_strlit("fen");
    reveal_strlit("startpos");
    assert("fen"@.len() == 3 && "startpos"@.len() == 8);
    lemma_no_place(all, "moves"@, 0);
    let rest = all.subrange(1, all.len() as int);
    assert(rest =~= all.skip(1));
    assert forall|k: int, i: int| #![trigger rest[k][i]]
        0 <= k < rest.len() && 0 <= i < rest[k].len() implies !is_space(rest[k][i]) by {
        assert(!is_space(all[k + 1][i]));
    }
    assert forall|k: int| 0 <= k < rest.len() implies (#[trigger] rest[k]).len() > 0 by {
        assert(all[k + 1].len() > 0);
    }
    lemma_words_joined(rest);
    assert(words(setup_fen(all)) == words(text@));
    assert(fen_position(setup_fen(all)) == fen_position(text@));
    assert(setup_moves(all).len() == 0);
    match r {
        Setup::Ready(b) => {
            let bs = choose|bs: Seq<Board>|
                {
                    &&& #[trigger] is_game(bs, setup_moves(all))
                    &&& setup_start(all, bs[0])
                    &&& bs.last() == b
                };
            assert(bs.len() == 1);
            assert(bs[0] == b);
        },
        _ => {},
    }
}

} // verus!
