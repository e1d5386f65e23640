use mbca_grand::answer::{best_answer, bestmove_text, info_text, lists_move, ponder_reply, vote, Progress};
use mbca_grand::attacks::{init, Tables};
use mbca_grand::board::{Board, Undo};
use mbca_grand::fen::STARTPOS;
use mbca_grand::iterate::{first_window, widen};
use mbca_grand::movegen::{generate, MoveList, GEN_ALL};
use mbca_grand::nnue::{Network, NET_LEN};
use mbca_grand::notation::move_to_string;
use mbca_grand::score::{score_to_uci, LmrTable, INFINITE};
use mbca_grand::searcher::{RootLine, Searcher};
use mbca_grand::timing::{Limits, Shared};
use mbca_grand::tt::Tt;
use mbca_grand::types::{Move, Square};
use mbca_grand::uci::parse_move;
use std::sync::atomic::{AtomicBool, AtomicU64};
use std::time::Instant;

fn reductions() -> LmrTable {
    let mut rows = vec![0i32; 64 * 256];
    for d in 1..64usize {
        for m in 1..256usize {
            let x = 0.87 + (d as f64).ln() * (m as f64).ln() / 2.31;
            rows[d * 256 + m] = x as i32;
        }
    }
    LmrTable::from_rows(rows).unwrap()
}

/// A network that knows nothing but small numbers.
fn network() -> Network {
    let mut bytes = vec![0u8; NET_LEN];
    let mut x: u32 = 12345;
    for i in 0..NET_LEN / 2 {
        x = x.wrapping_mul(1664525).wrapping_add(1013904223);
        let v = ((x >> 24) % 5) as i16 - 2;
        bytes[2 * i..2 * i + 2].copy_from_slice(&v.to_le_bytes());
    }
    Network::from_bytes(&bytes).unwrap()
}

fn search_with(t: &Tables, fen: &str, limits: Limits, multipv: usize, stopped: bool) -> (Searcher, Board, Vec<i32>) {
    let b = Board::from_fen(t, fen).unwrap();
    let net = network();
    let lmr = reductions();
    let tt = Tt::new(1);
    let (stop, pondering, end) = (AtomicBool::new(stopped), AtomicBool::new(false), AtomicU64::new(0));
    let sh = Shared {
        tables: t,
        net: &net,
        lmr: &lmr,
        tt: &tt,
        stop: &stop,
        pondering: &pondering,
        ponder_end: &end,
        finished: AtomicBool::new(false),
        nodes: AtomicU64::new(0),
        start: Instant::now(),
        soft_ms: u64::MAX,
        hard_ms: u64::MAX,
        limits,
    };
    let mut s = Searcher::new(0, t);
    s.prepare(&b, multipv);
    let told = std::cell::RefCell::new(Vec::new());
    s.iterate(&sh, |_: &Searcher, d: i32| told.borrow_mut().push(d), |_: &Searcher, _: i32| false);
    (s, b, told.into_inner())
}

fn search(t: &Tables, fen: &str, depth: i32) -> (Searcher, Board, Vec<i32>) {
    let mut l = Limits::default();
    l.depth = Some(depth);
    search_with(t, fen, l, 1, false)
}

fn legal(b: &Board, t: &Tables) -> Vec<Move> {
    let mut list = MoveList::new();
    generate::<GEN_ALL>(b, t, &mut list);
    list.as_slice().to_vec()
}

fn playable(b: &Board, t: &Tables, pv: &[Move]) -> bool {
    let mut b = b.clone();
    for &m in pv {
        if !legal(&b, t).contains(&m) {
            return false;
        }
        let mut u = Undo::default();
        b.make_move(t, m, &mut u);
    }
    true
}

const MATE_IN_ONE: &str = "k9/7Q2/1K8/10/10/10/10/10/10/10 w - - 0 1";
const MATED: &str = "k8Q/10/1K8/10/10/10/10/10/10/10 b - - 0 1";
const STALEMATE: &str = "k9/2Q7/10/10/10/10/10/10/10/K9 b - - 0 1";

#[test]
fn a_mate_in_one_is_found_and_played() {
    let t = init();
    let (s, mut b, _) = search(&t, MATE_IN_ONE, 4);
    assert_eq!(s.final_score, 31999);
    assert_eq!(score_to_uci(s.final_score), "mate 1");
    let mut u = Undo::default();
    b.make_move(&t, s.best_move, &mut u);
    assert!(b.in_check() && legal(&b, &t).is_empty());
}

#[test]
fn being_mated_is_seen_from_afar() {
    let t = init();
    // Whatever Black plays, White mates on the next move.
    let (s, _, _) = search(&t, "1k8/7Q2/1K8/10/10/10/10/10/10/10 b - - 0 1", 12);
    assert!(s.final_score <= -31990, "{}", s.final_score);
}

#[test]
fn a_draw_in_hand_is_worth_a_draw() {
    let t = init();
    // The king takes the queen, and only the kings are left.
    let (s, b, _) = search(&t, "9k/10/10/10/10/10/10/10/1q8/K9 w - - 0 1", 4);
    assert_eq!(legal(&b, &t).len(), 1);
    assert_eq!(s.final_score, 0);
    assert_eq!(move_to_string(s.best_move), "a1b2");
    // Beside losing moves there is one that draws.
    let (s, b, _) = search(&t, "9k/10/10/10/10/10/10/1r8/1K8/10 w - - 0 1", 6);
    assert!(legal(&b, &t).len() > 1);
    assert!(s.final_score >= 0, "{}", s.final_score);
}

#[test]
fn a_search_without_moves_finds_nothing() {
    let t = init();
    for fen in [MATED, STALEMATE] {
        let (s, b, told) = search(&t, fen, 3);
        assert!(legal(&b, &t).is_empty());
        assert!(s.best_move.is_none() && s.final_move.is_none());
        assert_eq!(s.completed_depth, 0);
        assert!(told.is_empty() && s.lines().is_empty());
    }
}

#[test]
fn a_search_leaves_the_game_where_it_was() {
    let t = init();
    let (s, b, told) = search(&t, STARTPOS, 4);
    assert_eq!(s.board.key, b.key);
    assert_eq!(s.board.hist, b.hist);
    assert_eq!(s.board.stm, b.stm);
    assert_eq!(s.board.halfmove, b.halfmove);
    assert_eq!(told, [1, 2, 3, 4]);
    assert_eq!(s.completed_depth, 4);
    assert!(s.nodes > 65);
}

#[test]
fn the_principal_variation_can_be_played() {
    let t = init();
    let (s, b, _) = search(&t, STARTPOS, 5);
    let line = &s.lines()[0];
    assert!(!line.pv.is_empty());
    assert_eq!(line.pv[0], s.best_move);
    assert_eq!(line.mv, s.best_move);
    assert_eq!(line.score, s.final_score);
    assert!(playable(&b, &t, &line.pv));
    assert_eq!(s.pv(), line.pv);
}

#[test]
fn the_line_goes_on_after_the_best_move() {
    let t = init();
    for depth in 2..=6 {
        let (s, b, _) = search(&t, STARTPOS, depth);
        let pv = s.pv();
        assert_eq!(pv[0], s.best_move);
        assert!(pv.len() >= 2, "{}", pv.len());
        assert!(playable(&b, &t, &pv));
        assert_eq!(ponder_reply(&[s], &b, &t, pv[0]), Some(pv[1]));
    }
}

#[test]
fn the_best_of_several_mates_is_played() {
    let t = init();
    // The rook on the ninth rank shuts the king in; only the other one mates at once.
    let (s, mut b, _) = search(&t, "9k/R9/10/10/10/10/10/10/1R8/K9 w - - 0 1", 5);
    assert_eq!(move_to_string(s.best_move), "b2b10");
    assert_eq!((s.final_score, s.pv().len()), (31999, 1));
    let mut u = Undo::default();
    b.make_move(&t, s.best_move, &mut u);
    assert!(b.in_check() && legal(&b, &t).is_empty());
}

#[test]
fn any_depth_can_be_asked_for() {
    let t = init();
    let (s, _, depths) = search(&t, STARTPOS, 0);
    assert_eq!((s.completed_depth, depths.len()), (0, 0));
    assert!(s.pv().is_empty());
    let (s, _, _) = search(&t, STARTPOS, -7);
    assert_eq!((s.completed_depth, s.final_score), (0, 0));
    // Nothing but the kings: the search of a drawn game is short at any depth.
    let (s, _, _) = search(&t, "k9/10/10/10/10/10/10/10/10/9K w - - 0 1", 1000);
    assert_eq!(s.completed_depth, 1000);
    let (s, _, _) = search(&t, "k9/10/10/10/10/10/10/10/10/9K w - - 0 1", 300);
    assert_eq!(s.completed_depth, 300);
}

#[test]
fn several_lines_are_ranked_and_different() {
    let t = init();
    let mut l = Limits::default();
    l.depth = Some(4);
    let (s, b, _) = search_with(&t, STARTPOS, l, 3, false);
    assert_eq!(s.lines().len(), 3);
    for (i, x) in s.lines().iter().enumerate() {
        assert!(playable(&b, &t, &x.pv));
        for y in &s.lines()[..i] {
            assert!(y.score >= x.score);
            assert_ne!(x.mv, y.mv);
        }
    }
    assert_eq!(s.best_move, s.lines()[0].mv);
}

#[test]
fn there_are_no_more_lines_than_moves() {
    let t = init();
    let fen = "k9/10/1R8/10/10/10/10/10/10/K9 b - - 0 1";
    let n = legal(&Board::from_fen(&t, fen).unwrap(), &t).len();
    let mut l = Limits::default();
    l.depth = Some(3);
    let (s, _, _) = search_with(&t, fen, l, 200, false);
    assert_eq!(s.lines().len(), n);
}

#[test]
fn a_single_reply_is_the_only_line() {
    let t = init();
    let mut l = Limits::default();
    l.depth = Some(1);
    let (s, _, told) = search_with(&t, "k9/10/10/10/10/10/10/10/10/1R7K b - - 0 1", l, 4, false);
    assert_eq!(s.lines().len(), 1);
    assert_eq!(s.lines()[0].mv, Move::new(Square(90), Square(80)));
    assert_eq!(s.final_move, s.lines()[0].mv);
    assert_eq!((s.completed_depth, s.stopped), (1, false));
    assert_eq!(told, vec![1]);
}

#[test]
fn no_limit_stops_the_first_iteration() {
    let t = init();
    let mut l = Limits::default();
    l.nodes = Some(0);
    let (s, _, told) = search_with(&t, STARTPOS, l, 1, false);
    assert!(s.completed_depth >= 1);
    assert_eq!(told[0], 1);
    assert_eq!(s.lines().len(), 1);
}

#[test]
fn a_mate_on_the_hundredth_ply_is_a_mate() {
    let t = init();
    // The queen mates with the move that runs out the counter; any other draws.
    let (s, _, _) = search(&t, "k9/7Q2/1K8/10/10/10/10/10/10/10 w - - 99 80", 3);
    assert_eq!(s.final_score, 31999);
}

#[test]
fn a_stopped_search_still_has_a_move() {
    let t = init();
    let mut l = Limits::default();
    l.infinite = true;
    let (s, b, told) = search_with(&t, STARTPOS, l, 1, true);
    assert_eq!(s.completed_depth, 0);
    assert!(told.is_empty());
    assert_eq!(s.best_move, legal(&b, &t)[0]);
}

#[test]
fn a_node_limit_stops_the_search() {
    let t = init();
    let mut l = Limits::default();
    l.nodes = Some(1);
    let (s, _, _) = search_with(&t, STARTPOS, l, 1, false);
    assert!(s.completed_depth >= 1);
    assert!(s.completed_depth < 20);
}

#[test]
fn a_single_reply_needs_little_thought() {
    let t = init();
    let (s, b, _) = search(&t, "k9/2R7/10/10/10/10/10/10/10/K9 b - - 0 1", 20);
    assert_eq!(legal(&b, &t).len(), 1);
    assert_eq!(s.completed_depth, 4);
}

#[test]
fn a_short_mate_ends_the_search() {
    let t = init();
    let (s, _, _) = search(&t, MATE_IN_ONE, 30);
    assert_eq!(s.completed_depth, 5);
}

#[test]
fn the_clock_is_asked_after_each_iteration() {
    let t = init();
    let b = Board::startpos(&t);
    let net = network();
    let lmr = reductions();
    let tt = Tt::new(1);
    let (stop, pondering, end) = (AtomicBool::new(false), AtomicBool::new(false), AtomicU64::new(0));
    let mut limits = Limits::default();
    limits.movetime = Some(1_000_000);
    let sh = Shared {
        tables: &t,
        net: &net,
        lmr: &lmr,
        tt: &tt,
        stop: &stop,
        pondering: &pondering,
        ponder_end: &end,
        finished: AtomicBool::new(false),
        nodes: AtomicU64::new(0),
        start: Instant::now(),
        soft_ms: 1_000_000,
        hard_ms: 1_000_000,
        limits,
    };
    let mut s = Searcher::new(0, &t);
    s.prepare(&b, 1);
    s.iterate(&sh, |_: &Searcher, _: i32| {}, |_: &Searcher, d: i32| d >= 3);
    assert_eq!(s.completed_depth, 3);
    // The same searcher searches again.
    s.prepare(&b, 1);
    s.iterate(&sh, |_: &Searcher, _: i32| {}, |_: &Searcher, d: i32| d >= 2);
    assert_eq!(s.completed_depth, 2);
    s.clear();
    assert_eq!(s.nodes, 0);
    assert!(s.best_move.is_none());
}

#[test]
fn the_clock_runs_and_rests() {
    let t = init();
    let net = network();
    let lmr = reductions();
    let tt = Tt::new(1);
    let (stop, pondering, end) = (AtomicBool::new(false), AtomicBool::new(false), AtomicU64::new(0));
    let sh = Shared {
        tables: &t,
        net: &net,
        lmr: &lmr,
        tt: &tt,
        stop: &stop,
        pondering: &pondering,
        ponder_end: &end,
        finished: AtomicBool::new(false),
        nodes: AtomicU64::new(0),
        start: Instant::now(),
        soft_ms: 1,
        hard_ms: 1,
        limits: Limits::default(),
    };
    while sh.start.elapsed().as_millis() < 12 {}
    assert!(sh.elapsed_ms() >= 12);
    pondering.store(true, std::sync::atomic::Ordering::SeqCst);
    assert_eq!(sh.elapsed_ms(), 0);
    sh.count_nodes(5);
    sh.count_nodes(6);
    assert_eq!(sh.total_nodes(), 11);
    assert!(!sh.asked_to_stop());
    stop.store(true, std::sync::atomic::Ordering::SeqCst);
    assert!(sh.asked_to_stop());
}

#[test]
fn windows_open_step_by_step() {
    assert_eq!(first_window(3, 500), (-INFINITE, INFINITE, 30));
    assert_eq!(first_window(4, 500), (470, 530, 30));
    assert_eq!(first_window(9, 0), (-10, 10, 10));
    assert_eq!(widen(0, -10, 10, 10, 5, 5), None);
    assert_eq!(widen(-10, -10, 10, 10, 5, 5), Some((-20, 0, 5)));
    assert_eq!(widen(15, -10, 10, 10, 5, 5), Some((-10, 25, 4)));
    assert_eq!(widen(15, -10, 10, 10, 3, 5), Some((-10, 25, 3)));
    assert_eq!(widen(-INFINITE, -INFINITE, 10, 10, 5, 5), None);
    assert_eq!(widen(-31999, -31995, 10, 13, 5, 5), Some((-INFINITE, -15992, 5)));
}

fn voter(t: &Tables, id: usize, depth: i32, score: i32, m: Move) -> Searcher {
    let mut s = Searcher::new(id, t);
    s.completed_depth = depth;
    s.final_score = score;
    s.final_move = m;
    s.best_move = m;
    s
}

#[test]
fn the_threads_vote() {
    let t = init();
    let (a, b) = (Move::new(Square(11), Square(32)), Move::new(Square(18), Square(37)));
    // Fourteen for each ply, and the score above the lowest.
    let pool = vec![voter(&t, 0, 5, 10, a), voter(&t, 1, 6, 12, b), voter(&t, 2, 0, 900, a)];
    assert_eq!(vote(&pool), Some(b));
    let pool = vec![voter(&t, 0, 5, 10, a), voter(&t, 1, 6, 10, b), voter(&t, 2, 2, 10, a)];
    assert_eq!(vote(&pool), Some(a));
    // As many votes: the one named last.
    let pool = vec![voter(&t, 0, 5, 10, a), voter(&t, 1, 5, 10, b)];
    assert_eq!(vote(&pool), Some(b));
    assert_eq!(vote(&[voter(&t, 0, 0, 0, a)]), None);
    let board = Board::startpos(&t);
    assert_eq!(best_answer(&pool, 1, &board, &t), b);
    assert_eq!(best_answer(&pool, 2, &board, &t), a);
}

#[test]
fn there_is_an_answer_wherever_there_is_a_move() {
    let t = init();
    let board = Board::startpos(&t);
    let none = vec![voter(&t, 0, 0, 0, Move::none())];
    assert_eq!(best_answer(&none, 1, &board, &t), legal(&board, &t)[0]);
    let mut last = voter(&t, 0, 3, 0, Move::new(Square(11), Square(32)));
    last.best_move = Move::none();
    assert_eq!(best_answer(&[last], 1, &board, &t), Move::new(Square(11), Square(32)));
    let mated = Board::from_fen(&t, MATED).unwrap();
    assert!(best_answer(&none, 1, &mated, &t).is_none());
}

#[test]
fn the_expected_reply_is_pondered_on() {
    let t = init();
    let board = Board::startpos(&t);
    let a = parse_move(&board, &t, "b2c4").unwrap();
    let mut after = board.clone();
    let mut u = Undo::default();
    after.make_move(&t, a, &mut u);
    let r = parse_move(&after, &t, "i9h7").unwrap();
    let mut s = voter(&t, 0, 5, 10, a);
    s.lines = vec![RootLine { mv: a, score: 10, pv: vec![a, r], sel_depth: 7 }];
    assert_eq!(ponder_reply(&[s], &board, &t, a), Some(r));
    let mut s = voter(&t, 0, 5, 10, a);
    s.lines = vec![RootLine { mv: a, score: 10, pv: vec![a], sel_depth: 7 }];
    assert_eq!(ponder_reply(&[s], &board, &t, a), None);
    assert_eq!(ponder_reply(&[voter(&t, 0, 5, 10, a)], &board, &t, a), None);
    assert_eq!(bestmove_text(a, Some(r)), "bestmove b2c4 ponder i9h7");
    assert_eq!(bestmove_text(a, None), "bestmove b2c4");
    assert_eq!(bestmove_text(Move::none(), None), "bestmove 0000");
    let mut list = MoveList::new();
    generate::<GEN_ALL>(&board, &t, &mut list);
    assert!(lists_move(&list, a) && !lists_move(&list, r));
}

#[test]
fn progress_is_told_in_one_line() {
    let (a, b) = (Move::new(Square(11), Square(32)), Move::new(Square(88), Square(67)));
    let line = RootLine { mv: a, score: 35, pv: vec![a, b], sel_depth: 12 };
    let p = Progress { depth: 9, nodes: 4000, hashfull: 17, elapsed: 20 };
    assert_eq!(
        info_text(&p, &line, 1, true),
        "info depth 9 seldepth 12 multipv 2 score cp 35 nodes 4000 nps 200000 hashfull 17 time 20 pv b2c4 i9h7"
    );
    let line = RootLine { mv: a, score: -31998, pv: vec![], sel_depth: 3 };
    let p = Progress { depth: 9, nodes: 7, hashfull: 0, elapsed: 0 };
    assert_eq!(
        info_text(&p, &line, 0, false),
        "info depth 9 seldepth 9 score mate -1 nodes 7 nps 7000 hashfull 0 time 0 pv b2c4"
    );
    assert_eq!(move_to_string(b), "i9h7");
}
