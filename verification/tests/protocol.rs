use mbca_grand::attacks::init;
use mbca_grand::board::Board;
use mbca_grand::notation::square_to_string;
use mbca_grand::text::split_words;
use mbca_grand::timing::Limits;
use mbca_grand::types::Color;
use mbca_grand::uci::{
    command, parse_check, parse_go, set_option, set_position, Change, Command, Settings, Setup, AUTHOR, NAME, VARIANT,
    VERSION,
};

fn option(line: &str) -> Change {
    set_option(&split_words(line), false, true)
}

#[test]
fn commands_go_by_their_first_word() {
    for (line, want) in [
        ("uci", Command::Uci),
        ("  isready\n", Command::IsReady),
        ("ucinewgame", Command::NewGame),
        ("setoption name Hash value 3", Command::SetOption),
        ("position startpos", Command::Position),
        ("go depth 3", Command::Go),
        ("stop", Command::Stop),
        ("ponderhit", Command::PonderHit),
        ("quit", Command::Quit),
        ("", Command::Nothing),
        ("   ", Command::Nothing),
        ("xyzzy uci", Command::Nothing),
        ("UCI", Command::Nothing),
    ] {
        assert_eq!(command(&split_words(line)), want, "{line}");
    }
    assert_eq!((NAME, VERSION, AUTHOR, VARIANT), ("mbca-10x10", "0.1", "Tord", "grand"));
}

#[test]
fn check_values_are_read() {
    for s in ["true", "1", "yes", "on", " TRUE ", "On"] {
        assert!(parse_check(s, false), "{s}");
    }
    for s in ["false", "0", "no", "off", "\tNo\n"] {
        assert!(!parse_check(s, true), "{s}");
    }
    for s in ["", "maybe", "2", "t rue"] {
        assert!(parse_check(s, true) && !parse_check(s, false), "{s}");
    }
}

#[test]
fn go_words_become_limits() {
    let l = parse_go(&split_words("wtime 1000 btime 2000 winc 10 binc 20 movestogo 7"));
    assert_eq!(l.time, [1000, 2000]);
    assert_eq!(l.inc, [10, 20]);
    assert_eq!(l.movestogo, Some(7));
    assert!(l.has_time && !l.infinite && !l.ponder);
    let l = parse_go(&split_words("movetime 55 nodes 99 infinite ponder"));
    assert_eq!((l.movetime, l.nodes), (Some(55), Some(99)));
    assert!(l.infinite && l.ponder && !l.has_time);
}

#[test]
fn go_numbers_are_clamped_or_zero() {
    let depth = |s: &str| parse_go(&split_words(s)).depth;
    assert_eq!(depth("depth 12"), Some(12));
    assert_eq!(depth("depth 0"), Some(1));
    assert_eq!(depth("depth -4"), Some(1));
    assert_eq!(depth("depth many"), Some(1));
    assert_eq!(depth("depth"), Some(1));
    assert_eq!(depth("depth 1000"), Some(246));
    assert_eq!(parse_go(&split_words("nodes -5")).nodes, Some(0));
    assert_eq!(parse_go(&split_words("wtime -5")).time, [-5, 0]);
    assert_eq!(parse_go(&split_words("wtime 9223372036854775808")).time, [0, 0]);
    // A word after a keyword is its number, whatever it is.
    let l = parse_go(&split_words("wtime infinite"));
    assert!(!l.infinite && l.has_time);
    let l: Limits = parse_go(&split_words("nonsense depth 3"));
    assert_eq!(l.depth, Some(3));
}

#[test]
fn positions_are_set_up() {
    let t = init();
    let ready = |s: &str| match set_position(&t, &split_words(s)) {
        Setup::Ready(b) => b,
        _ => panic!("{s}"),
    };
    let b = ready("startpos");
    assert_eq!(b.key, Board::startpos(&t).key);
    let b = ready("startpos moves b2c4 b9c7");
    assert_eq!(b.game_ply, 2);
    assert_eq!(b.stm, Color::White);
    assert_eq!(b.hist.len(), 3);
    let b = ready("fen 9k/10/10/10/10/3p6/10/4P5/K9/10 w - - 3 7 moves e3e5");
    assert_eq!(square_to_string(b.ep), "e4");
    assert_eq!(b.stm, Color::Black);
    let b = ready("startpos nonsense b2c4");
    assert_eq!(b.game_ply, 0);
}

#[test]
fn positions_that_cannot_be_set_up_say_why() {
    let t = init();
    match set_position(&t, &split_words("fen 10/10 w")) {
        Setup::BadFen(e) => assert_eq!(e, "board needs ten ranks of ten squares"),
        _ => panic!(),
    }
    match set_position(&t, &split_words("fen")) {
        Setup::BadFen(e) => assert_eq!(e, "FEN needs at least a board and a side to move"),
        _ => panic!(),
    }
    match set_position(&t, &split_words("startpos moves b2c4 b2c4 i9h7")) {
        Setup::IllegalMove(s) => assert_eq!(s, "b2c4"),
        _ => panic!(),
    }
    assert!(matches!(set_position(&t, &split_words("")), Setup::Nothing));
    assert!(matches!(set_position(&t, &split_words("moves b2c4")), Setup::Nothing));
}

#[test]
fn options_are_read_and_clamped() {
    assert!(matches!(option("setoption name Hash value 128"), Change::Hash(128)));
    assert!(matches!(option("setoption name hash value 0"), Change::Hash(1)));
    assert!(matches!(option("setoption name HASH value 99999999"), Change::Hash(65536)));
    assert!(matches!(option("setoption name Hash value x"), Change::Nothing));
    assert!(matches!(option("setoption name Hash value -1"), Change::Nothing));
    assert!(matches!(option("setoption name Threads value 200"), Change::Threads(64)));
    assert!(matches!(option("setoption name Move Overhead value -3"), Change::MoveOverhead(0)));
    assert!(matches!(option("setoption name Move Overhead value 70"), Change::MoveOverhead(70)));
    assert!(matches!(option("setoption name MultiPV value 300"), Change::MultiPv(256)));
    assert!(matches!(option("setoption name Ponder value true"), Change::Ponder(true)));
    assert!(matches!(option("setoption name Ponder value ?"), Change::Ponder(false)));
    assert!(matches!(option("setoption name Clear Hash"), Change::ClearHash));
    assert!(matches!(option("setoption name OwnBook value off"), Change::OwnBook(false)));
    assert!(matches!(option("setoption name OwnBook"), Change::OwnBook(true)));
    // A value that is neither leaves the switch as it stands.
    let maybe = split_words("setoption name OwnBook value maybe");
    assert!(matches!(set_option(&maybe, false, false), Change::OwnBook(false)));
    assert!(matches!(set_option(&maybe, false, true), Change::OwnBook(true)));
    assert!(matches!(option("setoption name BookMaxPly value 50"), Change::BookMaxPly(40)));
    assert!(matches!(option("setoption name BookMaxPly value 70000"), Change::Nothing));
    assert!(matches!(option("setoption name BookVariety value -7"), Change::BookVariety(0)));
    assert!(matches!(option("setoption name BookSeed value 42"), Change::BookSeed(42)));
    assert!(matches!(option("setoption name BookSeed value 0"), Change::Nothing));
    assert!(matches!(option("setoption name UCI_Variant value Grand"), Change::Nothing));
    assert!(matches!(option("setoption name Unknown value 1"), Change::Nothing));
    assert!(matches!(option("setoption value 1"), Change::Nothing));
    assert!(matches!(option("setoption value 1 name Hash"), Change::Nothing));
    match option("setoption name BookFile value /a b/c.bin") {
        Change::BookFile(s) => assert_eq!(s, "/a b/c.bin"),
        _ => panic!(),
    }
    match option("setoption name UCI_Variant value chess") {
        Change::OtherVariant(s) => assert_eq!(s, "chess"),
        _ => panic!(),
    }
}

#[test]
fn settings_follow_the_options_within_their_ranges() {
    let mut s = Settings::default();
    assert_eq!((s.move_overhead, s.multipv, s.book_max_ply, s.book_variety), (30, 1, 16, 100));
    for line in [
        "setoption name Move Overhead value 9000",
        "setoption name MultiPV value 4",
        "setoption name BookMaxPly value 8",
        "setoption name BookVariety value 900",
        "setoption name Ponder value yes",
        "setoption name OwnBook value no",
        "setoption name Hash value 64",
    ] {
        s.apply(&option(line));
    }
    assert_eq!((s.move_overhead, s.multipv, s.book_max_ply, s.book_variety), (5000, 4, 8, 400));
    assert!(s.ponder && !s.own_book);
}

#[test]
fn the_book_answers_early_and_timed_games_only() {
    let s = Settings::default();
    let plain = Limits::default();
    assert!(s.may_use_book(&plain, 16));
    assert!(!s.may_use_book(&plain, 17));
    assert!(!s.may_use_book(&parse_go(&split_words("infinite")), 0));
    assert!(!s.may_use_book(&parse_go(&split_words("ponder wtime 1")), 0));
    let mut off = s;
    off.own_book = false;
    assert!(!off.may_use_book(&plain, 0));
}
