use mbca_grand::attacks::init;
use mbca_grand::board::Board;
use mbca_grand::book::{
    apply_variety, choose_entry, score_string, total_weight, Book, Entry, BOOK_MAGIC, ENTRY_SIZE, HEADER_SIZE,
};
use mbca_grand::types::{Move, Square};
use mbca_grand::uci::parse_move;

fn entry(key: u64, mv: u32, weight: u16, score: i16) -> Entry {
    Entry { key, mv, weight, score }
}

fn some_move(k: u8) -> u32 {
    Move::new(Square(k), Square(k + 1)).0
}

fn file(entries: &[Entry]) -> Vec<u8> {
    let mut v = Vec::new();
    v.extend_from_slice(&BOOK_MAGIC);
    v.extend_from_slice(&1u16.to_le_bytes());
    v.extend_from_slice(&16u16.to_le_bytes());
    v.extend_from_slice(&0u32.to_le_bytes());
    v.extend_from_slice(&[0u8; 8]);
    v.extend_from_slice(&(entries.len() as u64).to_le_bytes());
    assert_eq!(v.len(), HEADER_SIZE);
    for e in entries {
        v.extend_from_slice(&e.key.to_le_bytes());
        v.extend_from_slice(&e.mv.to_le_bytes());
        v.extend_from_slice(&e.weight.to_le_bytes());
        v.extend_from_slice(&e.score.to_le_bytes());
    }
    v
}

fn error(bytes: &[u8]) -> String {
    Book::from_bytes(bytes).err().unwrap()
}

#[test]
fn an_entry_is_sixteen_bytes() {
    let e = entry(0x0123_4567_89AB_CDEF, 0x0001_0203, 0xBEEF, -2);
    let bytes = file(&[e]);
    assert_eq!(bytes.len(), HEADER_SIZE + ENTRY_SIZE);
    assert_eq!(Entry::from_bytes(&bytes[HEADER_SIZE..]), e);
    assert_eq!(Entry::default(), entry(0, 0, 0, 0));
    assert_eq!(&BOOK_MAGIC, b"MBCABOOK");
}

#[test]
fn a_book_file_is_read() {
    let es = [entry(1, some_move(3), 5, 0), entry(1, some_move(4), 6, 7), entry(9, some_move(0), 1, -40)];
    let b = Book::from_bytes(&file(&es)).unwrap();
    assert_eq!(b.len(), 3);
    assert!(!b.is_empty());
    assert_eq!(b.positions(), 2);
    assert_eq!(b.get(1), &es[0..2]);
    assert_eq!(b.get(9), &es[2..3]);
    assert!(b.get(2).is_empty() && b.get(0).is_empty() && b.get(10).is_empty());
    assert!(Book::from_bytes(&file(&[])).unwrap().is_empty());
}

#[test]
fn every_fault_of_a_book_file_is_named() {
    let good = file(&[entry(1, some_move(3), 5, 0)]);
    assert_eq!(error(&good[..31]), "31 bytes is shorter than a header");
    let mut v = good.clone();
    v[0] = b'X';
    assert_eq!(error(&v), "not a book file (bad magic)");
    let mut v = good.clone();
    v[8] = 2;
    assert_eq!(error(&v), "version 2, expected 1");
    let mut v = good.clone();
    v[10] = 24;
    assert_eq!(error(&v), "entry size 24, expected 16");
    let mut v = good.clone();
    v[13] = 0x1A;
    assert_eq!(error(&v), "reserved flags are 0x1a00, expected 0");
    let mut v = good.clone();
    v[24] = 3;
    assert_eq!(error(&v), "header claims 3 entries (80 bytes) but the file is 48 bytes");
    let mut v = good.clone();
    v[31] = 0xFF;
    assert_eq!(
        error(&v),
        "header claims 18374686479671623681 entries (more bytes than fit in a `usize`) but the file is 48 bytes"
    );
    let two = [entry(2, some_move(3), 5, 0), entry(1, some_move(3), 5, 0)];
    assert_eq!(error(&file(&two)), "entries 0 and 1 are out of order or duplicated");
    let two = [entry(1, some_move(3), 5, 0), entry(1, some_move(3), 6, 0)];
    assert_eq!(error(&file(&two)), "entries 0 and 1 are out of order or duplicated");
    assert_eq!(error(&file(&[entry(0xAB, 0, 5, 0)])), "key 00000000000000ab has 0x0, which is not a move");
    assert_eq!(
        error(&file(&[entry(0xAB, 0x40001, 5, 0)])),
        "key 00000000000000ab has 0x40001, which is not a move"
    );
    assert_eq!(
        error(&file(&[entry(0xAB, some_move(1), 5, -32001)])),
        "key 00000000000000ab has score -32001"
    );
}

#[test]
fn impossible_moves_are_known() {
    assert!(entry(0, some_move(0), 0, 0).valid_move());
    assert!(!entry(0, 0, 0, 0).valid_move());
    assert!(!entry(0, 100, 0, 0).valid_move());
    assert!(!entry(0, 100 * 128, 0, 0).valid_move());
    assert!(!entry(0, some_move(0) + 7 * 16384, 0, 0).valid_move());
    assert!(!entry(0, some_move(0) + (1 << 18), 0, 0).valid_move());
    assert_eq!(entry(0, 1234, 0, 0).mov(), Move(1234));
}

#[test]
fn building_sorts_and_keeps_every_entry() {
    let mut es = Vec::new();
    for k in 0..50u64 {
        es.push(entry((k * 37) % 11, some_move((k % 9) as u8) + ((k / 9) as u32) * 128, k as u16, 0));
    }
    let b = Book::build(es.clone()).unwrap();
    assert_eq!(b.len(), 50);
    assert_eq!(b.positions(), 11);
    // The runs of all the keys make up the book.
    assert_eq!((0..11).map(|k| b.get(k).len()).sum::<usize>(), 50);
    assert!(b.get(11).is_empty());
    for e in &es {
        assert!(b.get(e.key).contains(e));
    }
    let mut last = (0, 0);
    for e in &b.entries {
        assert!((e.key, e.mv) > last);
        last = (e.key, e.mv);
    }
}

#[test]
fn building_refuses_what_reading_would() {
    let e = entry(0x10, Move::new(Square(11), Square(32)).0, 1, 0);
    assert_eq!(
        Book::build(vec![e, entry(3, some_move(1), 1, 1), e]).err().unwrap(),
        "duplicate entry for key 0000000000000010 move b2c4"
    );
    assert_eq!(
        Book::build(vec![entry(1, 0, 1, 0)]).err().unwrap(),
        "key 0000000000000001 has 0x0, which is not a move"
    );
    assert_eq!(
        Book::build(vec![entry(1, some_move(2), 1, 32001)]).err().unwrap(),
        "key 0000000000000001 has score 32001"
    );
    assert!(Book::build(vec![]).unwrap().is_empty());
}

#[test]
fn a_probe_parts_the_legal_from_the_rest() {
    let t = init();
    let b = Board::startpos(&t);
    let good = parse_move(&b, &t, "b2c4").unwrap().0;
    let bad = Move::new(Square(11), Square(33)).0;
    let book = Book::build(vec![
        entry(b.key, good, 10, 3),
        entry(b.key, bad, 20, 3),
        entry(b.key ^ 1, good, 30, 3),
    ])
    .unwrap();
    let p = book.probe(&b, &t);
    assert_eq!(p.legal, [entry(b.key, good, 10, 3)]);
    assert_eq!(p.illegal, [entry(b.key, bad, 20, 3)]);
}

#[test]
fn variety_shapes_the_weights() {
    let es = [entry(1, 1, 7, 0), entry(1, 2, 9, 0), entry(1, 3, 9, 0), entry(1, 4, 0, 0)];
    assert_eq!(apply_variety(&es, 100), Some(vec![7, 9, 9, 0]));
    assert_eq!(apply_variety(&es, 0), Some(vec![0, 1, 0, 0]));
    assert_eq!(apply_variety(&es, 200), None);
    assert_eq!(apply_variety(&[entry(1, 1, 0, 0)], 200), Some(vec![0]));
    assert_eq!(apply_variety(&[], 50), Some(vec![]));
    assert_eq!(total_weight(&[7, 9, 9, 0]), Some(25));
    assert_eq!(total_weight(&[u32::MAX, 1]), None);
}

#[test]
fn every_draw_falls_to_one_entry_by_weight() {
    let es = [entry(1, 1, 2, 0), entry(1, 2, 0, 0), entry(1, 3, 3, 0)];
    let w = [2, 0, 3];
    let picks: Vec<u32> = (0..5).map(|d| choose_entry(&es, &w, d).unwrap().entry.mv).collect();
    assert_eq!(picks, [1, 1, 3, 3, 3]);
    let c = choose_entry(&es, &w, 4).unwrap();
    assert_eq!((c.weight, c.total, c.moves), (3, 5, 3));
    assert!(choose_entry(&es, &[0, 0, 0], 0).is_none());
}

#[test]
fn book_scores_are_written_like_search_scores() {
    assert_eq!(score_string(-12), "cp -12");
    assert_eq!(score_string(31997), "mate 2");
}
