use mbca_grand::attacks::{init, Tables};
use mbca_grand::board::{Board, Undo};
use mbca_grand::eval::EvalState;
use mbca_grand::movegen::{generate, MoveList, GEN_ALL};
use mbca_grand::nnue::{
    active_features, evaluate_scratch, feature_index, output_bucket, perspective_mirror, Network, NET_LEN,
};
use mbca_grand::types::{Color, Piece, PieceType, Square};

fn network(seed: u32, spread: u32) -> Network {
    let mut bytes = vec![0u8; NET_LEN];
    let mut x: u32 = seed;
    for i in 0..NET_LEN / 2 {
        x = x.wrapping_mul(1664525).wrapping_add(1013904223);
        let v = ((x >> 16) % (2 * spread + 1)) as i32 - spread as i32;
        bytes[2 * i..2 * i + 2].copy_from_slice(&(v as i16).to_le_bytes());
    }
    Network::from_bytes(&bytes).unwrap()
}

fn moves(b: &Board, t: &Tables) -> MoveList {
    let mut list = MoveList::new();
    generate::<GEN_ALL>(b, t, &mut list);
    list
}

#[test]
fn a_network_has_one_size() {
    assert!(Network::from_bytes(&[]).is_none());
    assert!(Network::from_bytes(&vec![0; NET_LEN - 1]).is_none());
    let mut bytes = vec![0; NET_LEN];
    bytes[0] = 0xFE;
    bytes[1] = 0xFF;
    bytes[4553486] = 5;
    let n = Network::from_bytes(&bytes).unwrap();
    assert_eq!(n.feature_weights[0], -2);
    assert_eq!(n.output_bias[7], 5);
}

#[test]
fn a_network_file_is_the_weights_up_to_a_multiple_of_64() {
    let weights: usize = 2 * (1600 * 1408 + 1408 + 8 * 2 * 1408 + 8);
    assert_eq!(weights, 4553488);
    assert_eq!(weights.div_ceil(64) * 64, 4553536);
    assert!(Network::from_bytes(&vec![0; 4553536]).is_some());
    for n in [4553488, 4553535, 4553537, 4553600] {
        assert!(Network::from_bytes(&vec![0; n]).is_none());
    }
}

#[test]
fn the_incremental_evaluation_is_the_full_one() {
    let t = init();
    let n = network(7, 40);
    let mut b = Board::startpos(&t);
    let mut e = EvalState::new();
    e.reset(&n, &b);
    assert_eq!(e.evaluate(&n, &b), evaluate_scratch(&n, &b));
    let mut x: u32 = 99;
    let mut line = Vec::new();
    for _ in 0..60 {
        let list = moves(&b, &t);
        if list.len() == 0 {
            break;
        }
        x = x.wrapping_mul(1664525).wrapping_add(1013904223);
        let m = list.get((x >> 8) as usize % list.len());
        let mut u = Undo::default();
        b.make_move(&t, m, &mut u);
        e.push(&n, &b, &u.dirty);
        if x % 3 != 0 {
            assert_eq!(e.evaluate(&n, &b), evaluate_scratch(&n, &b));
        }
        line.push((m, u));
    }
    assert!(line.len() > 30);
    e.push_null(&n);
    e.pop(&n);
    while let Some((m, u)) = line.pop() {
        e.pop(&n);
        b.unmake_move(&t, m, &u);
        assert_eq!(e.evaluate(&n, &b), evaluate_scratch(&n, &b));
    }
}

#[test]
fn an_evaluation_is_for_the_side_to_move() {
    let t = init();
    let mut bytes = vec![0u8; NET_LEN];
    // Only the bias of the bucket of thirty-five to forty pieces or more.
    let at = 4553472 + 2 * 7;
    bytes[at..at + 2].copy_from_slice(&163i16.to_le_bytes());
    let n = Network::from_bytes(&bytes).unwrap();
    let b = Board::startpos(&t);
    assert_eq!(b.piece_count(), 40);
    assert_eq!(output_bucket(&b), 7);
    assert_eq!(evaluate_scratch(&n, &b), 163 * 400 / 16320);
    let b = Board::from_fen(&t, "k9/10/10/10/10/10/10/10/10/K9 w").unwrap();
    assert_eq!(output_bucket(&b), 0);
    assert_eq!(evaluate_scratch(&n, &b), 0);
}

#[test]
fn both_sides_see_the_start_position_alike() {
    let t = init();
    let n = network(3, 40);
    let w = Board::startpos(&t);
    let mut b = Board::startpos(&t);
    let mut u = Undo::default();
    b.make_null(&t, &mut u);
    assert_eq!(evaluate_scratch(&n, &w), evaluate_scratch(&n, &b));
}

#[test]
fn features_are_distinct_and_mirrored() {
    let t = init();
    let b = Board::startpos(&t);
    let (mut white, mut black) = active_features(&b);
    assert_eq!((white.len(), black.len()), (40, 40));
    white.sort();
    black.sort();
    assert_eq!(white, black);
    for i in 1..40 {
        assert!(white[i - 1] < white[i]);
    }
    let king = Piece::new(Color::White, PieceType::King);
    let left = perspective_mirror(Color::White, Square(4));
    let right = perspective_mirror(Color::White, Square(5));
    assert_ne!(left, right);
    assert_eq!(
        feature_index(Color::White, left, king, Square(4)),
        feature_index(Color::White, right, king, Square(5))
    );
}
