use mbca_grand::attacks::{init, Tables};
use mbca_grand::board::{Board, Undo};
use mbca_grand::fen::STARTPOS;
use mbca_grand::movegen::{generate, is_capture, is_quiet, MoveList, GEN_ALL, GEN_CAPTURES, GEN_QUIETS};
use mbca_grand::notation::{move_to_string, set_to_string, square_to_string};
use mbca_grand::squareset::SquareSet;
use mbca_grand::types::{Color, Move, Piece, PieceType, Square};
use mbca_grand::uci::parse_move;

fn board(t: &Tables, fen: &str) -> Board {
    Board::from_fen(t, fen).unwrap()
}

fn moves(b: &Board, t: &Tables) -> Vec<Move> {
    let mut list = MoveList::new();
    generate::<GEN_ALL>(b, t, &mut list);
    list.as_slice().to_vec()
}

fn names(b: &Board, t: &Tables) -> Vec<String> {
    let mut v: Vec<String> = moves(b, t).iter().map(|&m| move_to_string(m)).collect();
    v.sort();
    v
}

fn play(b: &mut Board, t: &Tables, s: &str) -> (Move, Undo) {
    let m = parse_move(b, t, s).unwrap();
    let mut u = Undo::default();
    b.make_move(t, m, &mut u);
    (m, u)
}

fn perft(b: &mut Board, t: &Tables, depth: u32) -> u64 {
    let list = moves(b, t);
    if depth == 1 {
        return list.len() as u64;
    }
    let mut n = 0;
    for m in list {
        let mut u = Undo::default();
        b.make_move(t, m, &mut u);
        n += perft(b, t, depth - 1);
        b.unmake_move(t, m, &u);
    }
    n
}

fn same(a: &Board, b: &Board) -> bool {
    (0..100u8).all(|i| a.piece_at(Square(i)) == b.piece_at(Square(i)))
        && a.stm == b.stm
        && a.ep == b.ep
        && a.halfmove == b.halfmove
        && a.plies_from_null == b.plies_from_null
        && a.game_ply == b.game_ply
        && a.key == b.key
        && a.pawn_key == b.pawn_key
        && a.checkers == b.checkers
        && a.blockers == b.blockers
        && a.check_squares == b.check_squares
        && a.hist == b.hist
}

const BUSY: &str = "r8r/1nbqkcab2/p1pppppp1p/1p6n1/8p1/2P2P4/2N2A4/PP1PP1PPPP/3QKC1BN1/R1B6R w - - 4 9";
const ENDING: &str = "9k/P9/10/10/10/3pP5/10/10/K9/10 b - e4 0 1";

#[test]
fn the_start_position_has_sixty_five_moves() {
    let t = init();
    let b = board(&t, STARTPOS);
    assert_eq!(moves(&b, &t).len(), 65);
}

#[test]
fn startpos_is_what_its_text_says() {
    let t = init();
    assert!(same(&Board::startpos(&t), &board(&t, STARTPOS)));
}

#[test]
fn perft_of_the_start_position() {
    let t = init();
    let mut b = Board::startpos(&t);
    assert_eq!(perft(&mut b, &t, 1), 65);
    assert_eq!(perft(&mut b, &t, 2), 4225);
    assert_eq!(perft(&mut b, &t, 3), 259514);
}

#[test]
fn every_bad_position_text_is_refused_with_its_reason() {
    let t = init();
    let err = |s: &str| Board::from_fen(&t, s).err().unwrap();
    assert_eq!(err(""), "FEN needs at least a board and a side to move");
    assert_eq!(err("k9/10"), "FEN needs at least a board and a side to move");
    assert_eq!(err("k9/10/10/10/10/10/10/10/10/K9/10 w"), "too many ranks");
    assert_eq!(err("k8/10/10/10/10/10/10/10/10/K9 w"), "rank is not ten squares wide");
    assert_eq!(err("k9/11/10/10/10/10/10/10/10/K9 w"), "bad empty-square run");
    assert_eq!(err("k8x/10/10/10/10/10/10/10/10/K9 w"), "bad piece letter");
    assert_eq!(err("kpppppppppp/10/10/10/10/10/10/10/10/K9 w"), "rank too long");
    assert_eq!(err("k9/10/10/10/10/10/10/10/K9 w"), "board needs ten ranks of ten squares");
    assert_eq!(err("k9/10/10/10/10/10/10/10/10/10 w"), "each side needs exactly one king");
    assert_eq!(err("k8P/10/10/10/10/10/10/10/10/K9 w"), "pawn on the first or last rank");
    assert_eq!(err("k8R/10/10/10/10/10/10/10/10/K9 w"), "side not to move is in check");
}

#[test]
fn the_counters_of_a_position_text_are_read() {
    let t = init();
    let b = board(&t, "k9/10/10/10/10/10/10/10/10/K9 b - - 12 34");
    assert_eq!(b.stm, Color::Black);
    assert_eq!(b.halfmove, 12);
    assert_eq!(b.game_ply, 67);
}

#[test]
fn an_en_passant_square_counts_only_if_it_can_be_used() {
    let t = init();
    let b = board(&t, "9k/10/10/10/3pP5/10/10/10/K9/10 b - e5 0 1");
    assert!(b.ep == Square::none());
    let mut b = board(&t, "9k/10/10/10/10/3p6/10/4P5/K9/10 w - - 0 1");
    play(&mut b, &t, "e3e5");
    assert_eq!(square_to_string(b.ep), "e4");
    assert!(names(&b, &t).contains(&"d5e4".to_string()));
    let (m, _) = play(&mut b, &t, "d5e4");
    assert!(m.is_en_passant());
    assert!(b.piece_at(Square(44)).is_none());
    assert_eq!(b.piece_count(), 3);
}

#[test]
fn taking_a_move_back_restores_the_board() {
    let t = init();
    for fen in [STARTPOS, BUSY, ENDING] {
        let mut b = board(&t, fen);
        let before = b.clone();
        for m in moves(&b, &t) {
            let mut u = Undo::default();
            b.make_move(&t, m, &mut u);
            assert_ne!(b.key, before.key);
            b.update_check_squares(&t);
            b.unmake_move(&t, m, &u);
            assert!(same(&b, &before), "{}", move_to_string(m));
        }
    }
}

#[test]
fn taking_a_move_back_without_check_squares_leaves_the_game() {
    let t = init();
    let mut b = board(&t, BUSY);
    let before = b.clone();
    for m in moves(&b, &t) {
        let mut u = Undo::default();
        b.make_move_without_check_squares(&t, m, &mut u);
        b.unmake_move_without_check_squares(&t, m, &u);
        assert!(same(&b, &before), "{}", move_to_string(m));
    }
}

#[test]
fn taking_a_passed_turn_back_restores_the_board() {
    let t = init();
    let mut b = board(&t, BUSY);
    let before = b.clone();
    let mut u = Undo::default();
    b.make_null(&t, &mut u);
    assert_eq!(b.stm, Color::Black);
    assert_eq!(b.plies_from_null, 0);
    assert_ne!(b.key, before.key);
    b.unmake_null(&u);
    assert!(same(&b, &before));
}

#[test]
fn two_ways_to_a_position_give_one_key() {
    let t = init();
    let mut a = Board::startpos(&t);
    let mut b = Board::startpos(&t);
    for s in ["b2c4", "b9c7", "i2h4", "i9h7"] {
        play(&mut a, &t, s);
    }
    for s in ["i2h4", "i9h7", "b2c4", "b9c7"] {
        play(&mut b, &t, s);
    }
    assert_eq!(a.key, b.key);
    assert_eq!(a.pawn_key, b.pawn_key);
}

#[test]
fn generation_and_the_legality_test_agree() {
    let t = init();
    for fen in [STARTPOS, BUSY, ENDING] {
        let b = board(&t, fen);
        let listed = moves(&b, &t);
        let mut n = 0;
        for from in 0..100u8 {
            for to in 0..100u8 {
                if from == to {
                    continue;
                }
                let (f, g) = (Square(from), Square(to));
                let mut candidates = vec![Move::new(f, g), Move::en_passant(f, g)];
                for pt in [PieceType::Queen, PieceType::Knight, PieceType::Marshal] {
                    candidates.push(Move::promotion(f, g, pt));
                }
                for m in candidates {
                    if b.is_pseudo_legal(&t, m) {
                        assert!(listed.contains(&m), "{}", move_to_string(m));
                        n += 1;
                    }
                }
            }
        }
        assert!(n > 0);
        for m in listed {
            assert!(b.is_pseudo_legal(&t, m));
            assert!(b.is_legal(&t, m));
        }
    }
}

#[test]
fn a_generated_list_has_no_move_twice_and_splits_in_two() {
    let t = init();
    let b = board(&t, BUSY);
    let all = moves(&b, &t);
    for (i, m) in all.iter().enumerate() {
        assert!(!all[..i].contains(m));
    }
    let mut noisy = MoveList::new();
    generate::<GEN_CAPTURES>(&b, &t, &mut noisy);
    let mut quiet = MoveList::new();
    generate::<GEN_QUIETS>(&b, &t, &mut quiet);
    assert_eq!(noisy.len() + quiet.len(), all.len());
    for i in 0..quiet.len() {
        assert!(is_quiet(&b, quiet.get(i)));
        assert!(!is_capture(&b, quiet.get(i)));
    }
    for i in 0..noisy.len() {
        assert!(!is_quiet(&b, noisy.get(i)));
    }
}

#[test]
fn giving_check_is_foreseen() {
    let t = init();
    for fen in [BUSY, "3k6/10/10/10/2N2R4/10/10/10/4K5/10 w - - 0 1"] {
        let mut b = board(&t, fen);
        b.update_check_squares(&t);
        let mut checks = 0;
        for m in moves(&b, &t) {
            let says = b.gives_check(&t, m);
            let mut u = Undo::default();
            b.make_move(&t, m, &mut u);
            assert_eq!(says, b.in_check(), "{}", move_to_string(m));
            checks += says as u32;
            b.unmake_move(&t, m, &u);
        }
        assert!(fen == BUSY || checks > 0);
    }
}

#[test]
fn pinned_pieces_and_evasions_obey_the_king() {
    let t = init();
    // The knight on e5 is pinned, the king is not in check.
    let b = board(&t, "4r4k/10/10/10/10/4N5/10/4K5/10/10 w - - 0 1");
    assert!(!names(&b, &t).iter().any(|s| s.starts_with("e5")));
    // In check by the rook: block, capture or move.
    let b = board(&t, "4r4k/10/10/10/10/3N6/10/4K5/10/10 w - - 0 1");
    assert!(b.in_check());
    for s in names(&b, &t) {
        assert!(s.starts_with("e3") || s == "d5e7", "{s}");
    }
}

#[test]
fn no_en_passant_capture_answers_a_double_check() {
    let t = init();
    // The rook on a1 and the knight on b8 both give check.
    let b = board(&t, "k9/10/1N8/10/10/3pP5/10/10/10/R8K b - e4 0 1");
    assert_eq!(b.checkers.count(), 2);
    let list = moves(&b, &t);
    assert!(!list.is_empty());
    assert!(list.iter().all(|m| !m.is_en_passant() && square_to_string(m.from()) == "a10"));
}

#[test]
fn a_pawn_promotes_only_to_what_is_missing() {
    let t = init();
    // Nothing to promote to but a queen.
    let b = board(&t, "9k/P9/10/10/10/10/10/10/RR1NNBBCA1/K9 w - - 0 1");
    let n: Vec<String> = names(&b, &t).into_iter().filter(|s| s.starts_with("a9")).collect();
    assert_eq!(n, ["a9a10q"]);
    assert!(b.promo_available(Color::White, PieceType::Queen));
    assert!(!b.promo_available(Color::White, PieceType::Rook));
    // On the eighth rank promotion is a choice.
    let b = board(&t, "9k/10/10/P9/10/10/10/10/RR1NNBBCA1/K9 w - - 0 1");
    let n: Vec<String> = names(&b, &t).into_iter().filter(|s| s.starts_with("a7")).collect();
    assert_eq!(n, ["a7a8", "a7a8q"]);
    let quiet = parse_move(&b, &t, "a7a8").unwrap();
    let promotion = parse_move(&b, &t, "a7a8q").unwrap();
    assert!(is_quiet(&b, quiet) && !is_capture(&b, quiet));
    assert!(!is_quiet(&b, promotion) && is_capture(&b, promotion));
    // With everything in place a pawn on the ninth rank cannot move.
    let b = board(&t, "9k/P9/10/10/10/10/10/10/RRQNNBBCA1/K9 w - - 0 1");
    assert!(!names(&b, &t).iter().any(|s| s.starts_with("a9")));
}

#[test]
fn repetition_and_dead_positions_are_draws() {
    let t = init();
    let mut b = Board::startpos(&t);
    for s in ["b2c4", "b9c7", "c4b2", "c7b9"] {
        assert!(!b.has_repetition(10));
        play(&mut b, &t, s);
    }
    assert!(b.has_repetition(4));
    assert!(!b.has_repetition(3));
    assert!(board(&t, "k9/10/10/10/10/10/10/10/10/K9 w").insufficient_material());
    assert!(!board(&t, "k9/10/10/10/10/10/10/10/10/K8R w").insufficient_material());
}

#[test]
fn attacks_stop_at_the_first_piece() {
    let t = init();
    let occ = SquareSet::from_square(Square(7)) | SquareSet::from_square(Square(40));
    let r = mbca_grand::attacks::rook_attacks(&t, Square(0), occ);
    assert_eq!(r.count(), 7 + 4);
    assert!(r.has(Square(7)) && !r.has(Square(8)) && r.has(Square(40)) && !r.has(Square(50)));
    let q = mbca_grand::attacks::queen_attacks(&t, Square(0), occ);
    assert_eq!(q.count(), 7 + 4 + 9);
    let m = mbca_grand::attacks::marshal_attacks(&t, Square(0), occ);
    assert_eq!(m.count(), 7 + 4 + 2);
    assert_eq!(mbca_grand::attacks::between(&t, Square(0), Square(4)).count(), 3);
    assert!(mbca_grand::attacks::aligned(&t, Square(0), Square(11), Square(99)));
    assert!(!mbca_grand::attacks::aligned(&t, Square(0), Square(11), Square(98)));
}

#[test]
fn as_many_squares_lie_between_as_a_king_crosses() {
    let t = init();
    for a in 0..100i32 {
        for b in 0..100i32 {
            let (df, dr) = ((a % 10 - b % 10).abs(), (a / 10 - b / 10).abs());
            let straight = a != b && (df == 0 || dr == 0 || df == dr);
            let n = if straight { df.max(dr) - 1 } else { 0 };
            assert_eq!(mbca_grand::attacks::between(&t, Square(a as u8), Square(b as u8)).count() as i32, n);
        }
    }
}

#[test]
fn squares_moves_and_sets_are_written() {
    assert_eq!(square_to_string(Square(0)), "a1");
    assert_eq!(square_to_string(Square(99)), "j10");
    assert_eq!(square_to_string(Square::none()), "-");
    assert_eq!(move_to_string(Move::none()), "0000");
    assert_eq!(move_to_string(Move::new(Square(4), Square(94))), "e1e10");
    let m = Move::promotion(Square(84), Square(94), PieceType::Cardinal);
    assert_eq!(move_to_string(m), "e9e10a");
    let row = ". . . . . . . . . . \n";
    let want = row.repeat(9) + "X . . . . . . . . . \n";
    assert_eq!(set_to_string(SquareSet::from_square(Square(0))), want);
}

#[test]
fn move_names_are_read_back() {
    let t = init();
    for fen in [STARTPOS, BUSY, "9k/P9/10/10/10/10/10/10/10/K9 w - - 0 1"] {
        let b = board(&t, fen);
        for m in moves(&b, &t) {
            assert_eq!(parse_move(&b, &t, &move_to_string(m)), Some(m));
        }
        assert_eq!(parse_move(&b, &t, "e5e5"), None);
        assert_eq!(parse_move(&b, &t, ""), None);
    }
}

#[test]
fn the_fields_of_a_move_are_kept_apart() {
    let m = Move::promotion(Square(73), Square(84), PieceType::Queen);
    assert_eq!((m.from(), m.to()), (Square(73), Square(84)));
    assert_eq!(m.promo(), PieceType::Queen);
    assert!(m.is_promotion() && !m.is_en_passant());
    let e = Move::en_passant(Square(54), Square(65));
    assert!(e.is_en_passant() && !e.is_promotion());
    assert_ne!(e, Move::new(Square(54), Square(65)));
}

#[test]
fn pieces_are_read_and_written() {
    for c in *b"PNBRQCAKpnbrqcak" {
        assert_eq!(Piece::from_char(c).unwrap().to_char(), c);
    }
    assert_eq!(Piece::from_char(b'C'), Some(Piece::new(Color::White, PieceType::Marshal)));
    assert_eq!(Piece::from_char(b'a'), Some(Piece::new(Color::Black, PieceType::Cardinal)));
    assert!(Piece::from_char(b'x').is_none());
    assert_eq!(Square::parse(b"j10"), Some(Square(99)));
    assert_eq!(Square::parse(b"k1"), None);
    assert_eq!(Square::parse(b"a11"), None);
    assert_eq!(Square::parse(b"a0"), None);
}
