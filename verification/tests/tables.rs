use mbca_grand::attacks::{init, Tables};
use mbca_grand::board::{Board, Undo};
use mbca_grand::fen::STARTPOS;
use mbca_grand::history::{cont_index, Histories, NULL_CONT};
use mbca_grand::movegen::{generate, is_quiet, MoveList, GEN_ALL, GEN_CAPTURES};
use mbca_grand::movepick::{mvv, MovePicker};
use mbca_grand::node::{does_better, drop_quiet, judge_noisy, look_at, quiets_are_futile, recall, Verdict};
use mbca_grand::score::{
    adjust, bare_node, decides, history_bonus, history_malus, improves, late_enough, late_reduction, node_bound,
    null_reduction, opp_swing_bonus, probcut_beta, razors, reduced_depth, reverse_futility, score_from_tt,
    score_to_tt, score_to_uci, singular_extension, LmrTable, MATE,
};
use mbca_grand::see::{see_ge, see_value};
use mbca_grand::timing::{answer_is_known, clock_reading, out_of_budget, time_limits, Limits};
use mbca_grand::tt::{share_fresh, unpack, Hit, Slots, Tt, BOUND_EXACT, BOUND_LOWER, BOUND_UPPER, VALUE_NONE};
use mbca_grand::types::{Color, Move, Piece, PieceType, Square};
use mbca_grand::uci::parse_move;

fn board(t: &Tables, fen: &str) -> Board {
    Board::from_fen(t, fen).unwrap()
}

fn listed(b: &Board, t: &Tables) -> Vec<Move> {
    let mut list = MoveList::new();
    generate::<GEN_ALL>(b, t, &mut list);
    list.as_slice().to_vec()
}

fn sorted(mut v: Vec<Move>) -> Vec<u32> {
    v.sort_by_key(|m| m.0);
    v.iter().map(|m| m.0).collect()
}

const BUSY: &str = "r8r/1nbqkcab2/p1pppppp1p/1p6n1/8p1/2P2P4/2N2A4/PP1PP1PPPP/3QKC1BN1/R1B6R w - - 4 9";

#[test]
fn exchanges_are_counted() {
    let t = init();
    // A pawn takes a defended knight: it wins a knight for a pawn.
    let b = board(&t, "9k/10/10/4p5/3n6/4P5/10/10/10/K9 w - - 0 1");
    let m = parse_move(&b, &t, "e5d6").unwrap();
    let worth = see_value(PieceType::Knight) - see_value(PieceType::Pawn);
    assert!(see_ge(&b, &t, m, worth) && !see_ge(&b, &t, m, worth + 1));
    // A rook takes a defended pawn: it loses a rook for a pawn.
    let b = board(&t, "9k/10/10/4p5/3p6/10/10/3R6/10/K9 w - - 0 1");
    let m = parse_move(&b, &t, "d3d6").unwrap();
    let worth = see_value(PieceType::Pawn) - see_value(PieceType::Rook);
    assert!(see_ge(&b, &t, m, worth) && !see_ge(&b, &t, m, worth + 1));
    // An undefended queen.
    let b = board(&t, "9k/10/10/10/3q6/10/10/3R6/10/K9 w - - 0 1");
    let m = parse_move(&b, &t, "d3d6").unwrap();
    assert!(see_ge(&b, &t, m, 999) && !see_ge(&b, &t, m, 1000));
    assert_eq!(mvv(&b, m), 999);
}

#[test]
fn the_picker_hands_out_every_move_once() {
    let t = init();
    let h = Histories::new();
    let conts = [NULL_CONT; 4];
    for fen in [STARTPOS, BUSY] {
        let b = board(&t, fen);
        let all = listed(&b, &t);
        let mut mp = MovePicker::new(all[5], [all[7], all[9]], all[3], false);
        let mut got = Vec::new();
        while let Some(m) = mp.next(&b, &t, &h, &conts, false) {
            got.push(m);
        }
        assert_eq!(got[0], all[5]);
        assert_eq!(sorted(got), sorted(all));
    }
}

#[test]
fn the_picker_goes_stage_by_stage() {
    let t = init();
    let mut h = Histories::new();
    let conts = [NULL_CONT; 4];
    let b = board(&t, BUSY);
    let all = listed(&b, &t);
    let quiets: Vec<Move> = all.iter().copied().filter(|&m| is_quiet(&b, m)).collect();
    let (killer, liked) = (quiets[2], quiets[5]);
    h.update_main(b.stm, liked, 500);
    let mut mp = MovePicker::new(Move::none(), [killer, Move::none()], Move::none(), false);
    let mut stages = Vec::new();
    let mut seen = Vec::new();
    while let Some(m) = mp.next(&b, &t, &h, &conts, false) {
        let stage = if is_quiet(&b, m) {
            1
        } else if see_ge(&b, &t, m, 0) {
            0
        } else {
            2
        };
        assert_eq!(mp.in_bad_captures(), stage == 2);
        stages.push(stage);
        if stage == 1 {
            seen.push(m);
        }
    }
    assert!(stages.windows(2).all(|w| w[0] <= w[1]));
    assert_eq!(seen[0], killer);
    assert_eq!(seen[1], liked);
}

#[test]
fn the_picker_has_room_for_many_winning_captures() {
    let t = init();
    // Eighteen knights, each between eight queens, but for two rooks by the king.
    let mut rows = Vec::new();
    for r in (0..10usize).rev() {
        let mut row = String::new();
        for f in 0..10usize {
            row.push_str(match (f, r) {
                (0, 0) => "K",
                (9, 9) => "k",
                (0, 1) | (1, 0) => "R",
                _ if (f + r) % 2 == 1 => "q",
                _ if (2..8).contains(&f) && (2..8).contains(&r) => "N",
                _ => "1",
            });
        }
        rows.push(row);
    }
    let b = board(&t, &format!("{} w - - 0 1", rows.join("/")));
    let all = listed(&b, &t);
    assert!(all.iter().filter(|&&m| !is_quiet(&b, m)).count() >= 142);
    let mut mp = MovePicker::new(Move::none(), [Move::none(); 2], Move::none(), false);
    let mut got = Vec::new();
    while let Some(m) = mp.next(&b, &t, &Histories::new(), &[NULL_CONT; 4], false) {
        got.push(m);
    }
    assert_eq!(sorted(got), sorted(all));
    assert!(mp.next(&b, &t, &Histories::new(), &[NULL_CONT; 4], false).is_none());
}

#[test]
fn the_picker_hands_out_every_evasion() {
    let t = init();
    let h = Histories::new();
    let b = board(&t, "4r4k/10/10/10/10/3N6/10/4K5/10/10 w - - 0 1");
    let all = listed(&b, &t);
    let mut mp = MovePicker::new(Move::none(), [Move::none(); 2], Move::none(), true);
    let mut got = Vec::new();
    while let Some(m) = mp.next(&b, &t, &h, &[NULL_CONT; 4], true) {
        got.push(m);
    }
    assert_eq!(sorted(got), sorted(all.clone()));
    // A hash move that is legal comes first.
    let mut mp = MovePicker::new(all[1], [Move::none(); 2], Move::none(), true);
    assert_eq!(mp.next(&b, &t, &h, &[NULL_CONT; 4], true), Some(all[1]));
}

#[test]
fn quiescence_sees_the_noisy_moves_only() {
    let t = init();
    let h = Histories::new();
    let b = board(&t, BUSY);
    let mut noisy = MoveList::new();
    generate::<GEN_CAPTURES>(&b, &t, &mut noisy);
    let mut mp = MovePicker::new_qsearch(Move::none(), false);
    let mut got = Vec::new();
    while let Some(m) = mp.next(&b, &t, &h, &[NULL_CONT; 4], true) {
        assert!(see_ge(&b, &t, m, 0));
        got.push(m);
    }
    let want: Vec<Move> = noisy.as_slice().iter().copied().filter(|&m| see_ge(&b, &t, m, 0)).collect();
    assert_eq!(sorted(got), sorted(want));
}

#[test]
fn history_moves_toward_its_bonus_and_stays_bounded() {
    let mut h = Histories::new();
    let m = Move::new(Square(11), Square(32));
    h.update_main(Color::White, m, 1000);
    assert_eq!(h.main_score(Color::White, m), 1000);
    assert_eq!(h.main_score(Color::Black, m), 0);
    h.update_main(Color::White, m, 1000);
    assert_eq!(h.main_score(Color::White, m), 1939);
    for _ in 0..500 {
        h.update_main(Color::White, m, 1_000_000);
    }
    assert_eq!(h.main_score(Color::White, m), 16384);
    for _ in 0..500 {
        h.update_main(Color::White, m, -30_000);
    }
    assert_eq!(h.main_score(Color::White, m), -16384);
    h.clear();
    assert_eq!(h.main_score(Color::White, m), 0);
}

#[test]
fn history_cells_are_distinct() {
    let mut h = Histories::new();
    let (p, q) = (Piece::new(Color::White, PieceType::Knight), Piece::new(Color::Black, PieceType::Knight));
    h.update_capture(p, Square(5), PieceType::Pawn, 100);
    assert_eq!(h.capture_score(p, Square(5), PieceType::Pawn), 100);
    assert_eq!(h.capture_score(p, Square(5), PieceType::King), 0);
    assert_eq!(h.capture_score(p, Square(6), PieceType::Pawn), 0);
    assert_eq!(h.capture_score(q, Square(5), PieceType::Pawn), 0);
    let plane = cont_index(q, Square(7));
    h.update_cont(plane, p, Square(5), 64);
    assert_eq!(h.cont_score(plane, p, Square(5)), 64);
    h.set_counter_move(plane, Move::new(Square(1), Square(2)));
    assert_eq!(h.counter_move(plane), Move::new(Square(1), Square(2)));
    h.update_pawn(77, p, Square(9), -5);
    assert_eq!(h.pawn_score(77, p, Square(9)), -5);
}

#[test]
fn the_correction_learns_the_difference() {
    let t = init();
    let b = Board::startpos(&t);
    let mut h = Histories::new();
    assert_eq!(h.correction(&b, NULL_CONT), 0);
    for _ in 0..300 {
        h.update_correction(&b, NULL_CONT, 100, 20);
    }
    let c = h.correction(&b, NULL_CONT);
    assert!(c > 0 && c <= 32, "{c}");
    for _ in 0..300 {
        h.update_correction(&b, NULL_CONT, -100, 20);
    }
    assert!(h.correction(&b, NULL_CONT) < 0);
}

#[test]
fn a_stored_entry_is_found_again() {
    let tt = Tt::new(1);
    tt.new_search();
    let m = Move::new(Square(11), Square(32));
    assert!(tt.probe(0xDEAD_BEEF).is_none());
    tt.store(0xDEAD_BEEF, m, -123, 45, 7, BOUND_LOWER, true);
    let h: Hit = tt.probe(0xDEAD_BEEF).unwrap();
    assert_eq!((h.mv, h.score, h.eval, h.depth, h.bound, h.was_pv), (m, -123, 45, 7, BOUND_LOWER, true));
    assert!(tt.probe(0xDEAD_BEE0).is_none());
    // A later search still finds it, and a store without a move keeps the move.
    tt.new_search();
    assert!(tt.probe(0xDEAD_BEEF).is_some());
    tt.store(0xDEAD_BEEF, Move::none(), 9, 9, 9, BOUND_EXACT, false);
    let h = tt.probe(0xDEAD_BEEF).unwrap();
    assert_eq!((h.mv, h.score, h.depth), (m, 9, 9));
    tt.clear();
    assert!(tt.probe(0xDEAD_BEEF).is_none());
    assert!(tt.hashfull() <= 1000);
}

#[test]
fn a_resized_table_is_empty() {
    let mut tt = Tt::new(1);
    for key in 0..500 {
        tt.store(key, Move::none(), 1, 1, 1, BOUND_EXACT, false);
    }
    tt.resize(2);
    assert_eq!(tt.hashfull(), 0);
    for key in 0..500 {
        assert!(tt.probe(key).is_none());
    }
    tt.store(7, Move::none(), 3, 4, 5, BOUND_UPPER, false);
    assert_eq!(tt.probe(7).unwrap().score, 3);
}

#[test]
fn an_entry_survives_packing() {
    let empty = Slots { key: [0; 4], data: [0; 4] };
    let m = Move::promotion(Square(84), Square(94), PieceType::Queen);
    let (slot, k, d) = empty.plan_store(99, m, -32000, 31000, 200, BOUND_UPPER, 5, false).unwrap();
    assert_eq!(slot, 0);
    assert_eq!(k ^ d, 99);
    let h = unpack(d);
    assert_eq!((h.mv, h.score, h.eval, h.depth, h.bound, h.was_pv), (m, -32000, 31000, 200, BOUND_UPPER, false));
    let mut s = empty;
    s.key[0] = k;
    s.data[0] = d;
    assert_eq!(s.find(99), Some(0));
    assert_eq!(s.find(98), None);
    assert_eq!(s.fresh(5), 1);
    assert_eq!(s.fresh(4), 0);
}

#[test]
fn a_found_entry_is_made_young_again() {
    let empty = Slots { key: [0; 4], data: [0; 4] };
    let (_, k, d) = empty.plan_store(99, Move::none(), 7, 8, 20, BOUND_EXACT, 5, true).unwrap();
    let s = Slots { key: [0, k, 0, 0], data: [0, d, 0, 0] };
    assert_eq!(s.find(99), Some(1));
    assert!(s.plan_refresh(1, 99, 5).is_none());
    let (slot, nk, nd) = s.plan_refresh(1, 99, 6).unwrap();
    assert_eq!((slot, nk ^ nd), (1, 99));
    assert_eq!(nd - d, 1 << 61);
    let h = unpack(nd);
    assert_eq!((h.score, h.eval, h.depth, h.bound, h.was_pv), (7, 8, 20, BOUND_EXACT, true));
}

#[test]
fn the_share_of_fresh_slots_is_told_in_thousandths() {
    let empty = Slots { key: [0; 4], data: [0; 4] };
    let (_, k, d) = empty.plan_store(99, Move::none(), 7, 8, 20, BOUND_EXACT, 5, true).unwrap();
    let one = Slots { key: [k, 0, 0, 0], data: [d, 0, 0, 0] };
    let all = Slots { key: [k; 4], data: [d; 4] };
    assert_eq!(share_fresh(&[empty], 5), 0);
    assert_eq!(share_fresh(&[one], 5), 250);
    assert_eq!(share_fresh(&[one], 4), 0);
    assert_eq!(share_fresh(&[one, empty, empty], 5), 83);
    assert_eq!(share_fresh(&[all, all], 5), 1000);
    let tt = Tt::new(1);
    for key in 0..500 {
        tt.store(key, Move::none(), 1, 1, 1, BOUND_EXACT, false);
    }
    assert_eq!(tt.hashfull(), 125);
}

#[test]
fn a_shallow_bound_does_not_displace_a_deep_entry() {
    let empty = Slots { key: [0; 4], data: [0; 4] };
    let (_, k, d) = empty.plan_store(99, Move::none(), 1, 1, 20, BOUND_EXACT, 5, false).unwrap();
    let s = Slots { key: [k, 0, 0, 0], data: [d, 0, 0, 0] };
    assert!(s.plan_store(99, Move::none(), 2, 2, 10, BOUND_LOWER, 5, false).is_none());
    assert!(s.plan_store(99, Move::none(), 2, 2, 10, BOUND_EXACT, 5, false).is_some());
    assert!(s.plan_store(99, Move::none(), 2, 2, 17, BOUND_LOWER, 5, false).is_some());
}

#[test]
fn a_bucket_fills_from_the_front() {
    let mut s = Slots { key: [0; 4], data: [0; 4] };
    let m = Move::new(Square(11), Square(32));
    for (i, key) in [70u64, 71, 72, 73].into_iter().enumerate() {
        let (slot, k, d) = s.plan_store(key, m, 1, 1, 10 + i as i32, BOUND_LOWER, 2, false).unwrap();
        assert_eq!(slot, i);
        s.key[slot] = k;
        s.data[slot] = d;
    }
    // A full bucket gives up its shallowest entry.
    let (slot, _, _) = s.plan_store(74, m, 1, 1, 3, BOUND_LOWER, 2, false).unwrap();
    assert_eq!(slot, 0);
    // A later search finds an entry and makes it young; then a shallow bound does not displace it.
    let (slot, k, d) = s.plan_refresh(s.find(73).unwrap(), 73, 3).unwrap();
    s.key[slot] = k;
    s.data[slot] = d;
    assert!(s.plan_store(73, Move::none(), 5, 6, 8, BOUND_UPPER, 3, true).is_none());
    let (slot, k, d) = s.plan_store(73, Move::none(), 5, 6, 9, BOUND_UPPER, 3, true).unwrap();
    s.key[slot] = k;
    s.data[slot] = d;
    let h = unpack(s.data[s.find(73).unwrap()]);
    assert_eq!((h.mv, h.score, h.eval, h.depth, h.bound, h.was_pv), (m, 5, 6, 9, BOUND_UPPER, true));
}

#[test]
fn scores_of_any_size_go_through_the_table() {
    assert_eq!(score_to_tt(i32::MAX - 9, 9), i32::MAX);
    assert_eq!(score_from_tt(i32::MAX, 9), i32::MAX - 9);
    assert_eq!(score_from_tt(i32::MIN, 9), i32::MIN + 9);
    assert_eq!(score_to_tt(5, 123_456), 5);
    assert!(answer_is_known(20, 300, i32::MAX));
    assert!(!answer_is_known(20, 300, 31_000));
}

#[test]
fn mate_scores_go_through_the_table() {
    for s in [0, 500, -500, 31753, 31999, -31999, 31800, -31900] {
        for ply in [0, 1, 17, 200] {
            assert_eq!(score_from_tt(score_to_tt(s, ply), ply), s);
        }
    }
    assert_eq!(score_to_tt(31990, 7), 31997);
    assert_eq!(score_to_tt(-31990, 7), -31997);
    assert_eq!(score_to_tt(100, 7), 100);
}

#[test]
fn scores_are_written_for_the_protocol() {
    assert_eq!(score_to_uci(0), "cp 0");
    assert_eq!(score_to_uci(-31753), "cp -31753");
    assert_eq!(score_to_uci(31754), "mate 123");
    assert_eq!(score_to_uci(MATE - 1), "mate 1");
    assert_eq!(score_to_uci(MATE - 2), "mate 1");
    assert_eq!(score_to_uci(MATE - 3), "mate 2");
    assert_eq!(score_to_uci(-MATE + 2), "mate -1");
    assert_eq!(score_to_uci(-MATE), "mate 0");
}

#[test]
fn bonuses_follow_their_formulas() {
    assert_eq!(history_bonus(1), 19);
    assert_eq!(history_bonus(5), 567);
    assert_eq!(history_bonus(100), 1900);
    assert_eq!(history_malus(1), 94);
    assert_eq!(history_malus(50), 1400);
    assert_eq!(opp_swing_bonus(0, 0), 596);
    assert_eq!(opp_swing_bonus(20, 30), 596 - 650);
    assert_eq!(opp_swing_bonus(2000, 0), 596 - 1556);
    assert_eq!(opp_swing_bonus(-2000, 0), 596 + 1478);
}

#[test]
fn margins_follow_their_formulas() {
    assert_eq!(reverse_futility(500, 100, 3, false), Some(233));
    assert_eq!(reverse_futility(285, 100, 3, false), None);
    assert_eq!(reverse_futility(285, 100, 3, true), Some(161));
    assert_eq!(reverse_futility(5000, 100, 7, false), None);
    assert!(razors(0, 1193, 2) && !razors(0, 1192, 2) && !razors(0, 30000, 4));
    assert_eq!(null_reduction(9, 100, 100), 8);
    assert_eq!(null_reduction(9, 534, 100), 10);
    assert_eq!(null_reduction(9, 5000, 100), 11);
    assert_eq!((probcut_beta(10, false), probcut_beta(10, true)), (219, 167));
    assert!(late_enough(6, 3, false) && !late_enough(5, 3, false) && !late_enough(11, 3, true));
    assert_eq!(late_reduction(3, true, false, true, true, true, true, 0, false), 0);
    assert_eq!(late_reduction(3, false, true, false, false, false, true, -20_000, true), 8);
    assert_eq!(late_reduction(3, false, true, false, false, false, false, 5679, true), 5);
    assert_eq!((reduced_depth(7, 3), reduced_depth(7, 9), reduced_depth(7, -3), reduced_depth(-1, 0)), (4, 1, 7, 1));
    assert!(quiets_are_futile(false, 0, 362, 2) && !quiets_are_futile(false, 0, 361, 2));
    assert!(!quiets_are_futile(true, 0, 5000, 2) && !quiets_are_futile(false, 0, 5000, 9));
    assert!(does_better(5, 4, 9) && !does_better(5, 6, 1) && does_better(5, VALUE_NONE, 4));
    assert!(does_better(5, VALUE_NONE, VALUE_NONE));
}

#[test]
fn a_singular_move_is_extended() {
    assert_eq!(singular_extension(80, 100, 300, 120, false, false), Some(2));
    assert_eq!(singular_extension(95, 100, 300, 120, false, false), Some(1));
    assert_eq!(singular_extension(80, 100, 300, 120, true, false), Some(1));
    assert_eq!(singular_extension(100, 100, 100, 120, false, false), None);
    assert_eq!(singular_extension(100, 100, 110, 120, false, false), Some(-2));
    assert_eq!(singular_extension(100, 100, 300, 120, false, true), Some(-1));
    assert_eq!(singular_extension(100, 100, 300, 120, false, false), Some(0));
}

#[test]
fn nodes_are_bounded_and_decided() {
    assert_eq!(bare_node(false, true, 5, 7), -31993);
    assert_eq!(bare_node(false, false, 5, 7), 0);
    assert_eq!(bare_node(true, true, 5, 7), 5);
    assert_eq!(node_bound(10, 10, 0, true, true), BOUND_LOWER);
    assert_eq!(node_bound(5, 10, 0, true, true), BOUND_EXACT);
    assert_eq!(node_bound(5, 10, 0, false, true), BOUND_UPPER);
    assert_eq!(node_bound(0, 10, 0, true, true), BOUND_UPPER);
    assert!(decides(BOUND_EXACT, 5, 0, 10) && !decides(BOUND_LOWER, 5, 0, 10) && decides(BOUND_LOWER, 10, 0, 10));
    assert!(decides(BOUND_UPPER, 0, 0, 10) && !decides(BOUND_UPPER, 5, 0, 10));
    assert!(improves(BOUND_LOWER, 5, 4) && !improves(BOUND_LOWER, 4, 4) && improves(BOUND_UPPER, 3, 4));
    let hit = Hit { mv: Move(300), score: 31990, eval: 4, depth: 9, bound: BOUND_LOWER, was_pv: true };
    let n = recall(&Some(hit), None, Move::none(), false, 5);
    assert_eq!((n.tt_move, n.tt_score, n.tt_depth, n.tt_pv), (Move(300), 31985, 9, true));
    let n = recall(&Some(hit), Some(Move(77)), Move::none(), true, 0);
    assert_eq!(n.tt_move, Move(77));
    let n = recall(&None, Some(Move(77)), Move::none(), true, 0);
    assert_eq!((n.tt_move, n.tt_score, n.tt_depth), (Move(77), VALUE_NONE, -1));
}

#[test]
fn moves_are_judged_before_they_are_searched() {
    let t = init();
    let h = Histories::new();
    let mut b = board(&t, "9k/10/10/4p5/3p6/10/10/3R6/10/K9 w - - 0 1");
    b.update_check_squares(&t);
    let conts = [NULL_CONT; 4];
    let take = parse_move(&b, &t, "d3d6").unwrap();
    let f = look_at(&b, &t, &h, &conts, take);
    assert!(!f.quiet && !f.gives_check && f.hist_score == 0 && f.victim == PieceType::Pawn);
    let mut node = recall(&None, None, Move::none(), false, 3);
    node.eval = 0;
    node.static_eval = 0;
    // The rook for a pawn is too much at depth 4, not at depth 5.
    let judge = |alpha: i32, depth: i32, bad: bool| {
        judge_noisy(&b, &t, take, false, &node, false, bad, alpha, depth, depth, PieceType::Pawn, 0)
    };
    assert_eq!(judge(0, 4, false), Verdict::Skip);
    assert_eq!(judge(0, 5, false), Verdict::Try);
    assert_eq!(judge(5000, 5, true), Verdict::Stop(63 + 91 * 5));
    assert_eq!(judge(5000, 5, false), Verdict::Raise(139 + 151 * 5 + 100));
    let quiet = parse_move(&b, &t, "d3d4").unwrap();
    let f = look_at(&b, &t, &h, &conts, quiet);
    assert!(f.quiet && f.victim == PieceType::King);
    assert!(!drop_quiet(&b, &t, quiet, false, 5, 3, 0));
    assert!(drop_quiet(&b, &t, quiet, true, 5, 3, 0));
    assert!(drop_quiet(&b, &t, quiet, false, 2, 3, -7159));
    assert!(!drop_quiet(&b, &t, quiet, false, 2, 3, -7158));
}

#[test]
fn evaluations_are_damped_and_corrected() {
    assert_eq!(adjust(1000, 0, 0), 1000);
    assert_eq!(adjust(1000, 0, 7), 1007);
    assert_eq!(adjust(1000, 107, 0), 500);
    assert_eq!(adjust(-1000, 107, 1), -499);
    assert_eq!(adjust(100_000, 0, 0), 31753);
    assert_eq!(adjust(-100_000, 0, 0), -31753);
}

#[test]
fn reductions_come_from_their_table() {
    let mut rows = vec![0; 64 * 256];
    rows[5 * 256 + 9] = 3;
    rows[63 * 256 + 255] = 64;
    let t = LmrTable::from_rows(rows.clone()).unwrap();
    assert_eq!(t.lmr(5, 9), 3);
    assert_eq!(t.lmr(9, 5), 0);
    assert_eq!(t.lmr(1000, 1000), 64);
    assert_eq!(t.lmr(-3, -3), 0);
    rows[7] = 65;
    assert!(LmrTable::from_rows(rows).is_none());
    assert!(LmrTable::from_rows(vec![0; 5]).is_none());
}

#[test]
fn the_clock_is_split() {
    let mut l = Limits::default();
    assert_eq!(time_limits(&l, Color::White, 30), (u64::MAX, u64::MAX));
    l.movetime = Some(1000);
    assert_eq!(time_limits(&l, Color::White, 30), (970, 970));
    l.movetime = Some(10);
    assert_eq!(time_limits(&l, Color::White, 30), (1, 1));
    let mut l = Limits::default();
    l.has_time = true;
    l.time = [60_000, 10];
    l.inc = [1000, 0];
    assert_eq!(time_limits(&l, Color::White, 30), (3445, 17225));
    assert_eq!(time_limits(&l, Color::Black, 30), (1, 1));
    l.movestogo = Some(10);
    assert_eq!(time_limits(&l, Color::White, 30), (6717, 29985));
    // However large the clock, there is room to divide it.
    l.time[0] = i64::MAX;
    l.inc[0] = 0;
    assert_eq!(time_limits(&l, Color::White, 7), (922_337_203_685_477_580, 4_611_686_018_427_387_900));
}

#[test]
fn budgets_and_known_answers_end_a_search() {
    assert!(out_of_budget(true, false, false, 10, 10, None, 0));
    assert!(!out_of_budget(false, false, false, 10, 10, Some(0), 5));
    assert!(!out_of_budget(true, true, false, 10, 10, None, 0));
    assert!(!out_of_budget(true, false, true, 10, 10, None, 0));
    assert!(out_of_budget(true, true, true, 0, 10, Some(5), 5));
    assert!(!out_of_budget(true, true, true, 0, 10, Some(6), 5));
    assert!(answer_is_known(1, 4, 0) && !answer_is_known(1, 3, 0) && !answer_is_known(2, 50, 0));
    assert!(answer_is_known(9, 7, 31997) && !answer_is_known(9, 6, 31997) && answer_is_known(9, 7, -31997));
    assert_eq!(clock_reading(true, 50_000_000, 0), 0);
    assert_eq!(clock_reading(false, 50_000_000, 20_000_000), 30);
    assert_eq!(clock_reading(false, 10_000_000, 20_000_000), 0);
    // Only whole milliseconds since the end of pondering count.
    assert_eq!(clock_reading(false, 2_100_000, 1_900_000), 0);
    assert_eq!(clock_reading(false, 2_900_000, 1_900_000), 1);
}

#[test]
fn an_undo_remembers_what_was_captured() {
    let t = init();
    let mut b = board(&t, "9k/10/10/4p5/3p6/10/10/3R6/10/K9 w - - 0 1");
    let m = parse_move(&b, &t, "d3d6").unwrap();
    let mut u = Undo::default();
    b.make_move(&t, m, &mut u);
    assert_eq!(u.captured, Piece::new(Color::Black, PieceType::Pawn));
    assert_eq!(b.halfmove, 0);
}
