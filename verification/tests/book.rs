use othello::board::{Move, Turn};
use othello::strategy::book::{binary_search, Book, Transform, END_BYTE, PASS_BYTE};

// A block: the count, then the records, each the byte of a move, a score and
// the offset of the block of the replies.
fn block(records: &[(u8, f64, u64)]) -> Vec<u8> {
    let mut v = Vec::new();
    v.extend_from_slice(&(records.len() as u64).to_be_bytes());
    for &(mv, score, next) in records {
        v.extend_from_slice(&[0u8; 7]);
        v.push(mv);
        v.extend_from_slice(&score.to_bits().to_be_bytes());
        v.extend_from_slice(&next.to_be_bytes());
    }
    v
}

fn size(records: usize) -> u64 {
    8 + 24 * records as u64
}

// The first move, three replies to it, and one reply to the first of them.
//   offset 0:   C4 -> block at `b1`
//   `b1`:       C3 (-1.5) -> block at `b2`, C5 (2.0), E3 (0.5)
//   `b2`:       D3 (1.0)
// The block `b2` lies far from the start, so that its offset takes more
// than one byte.
fn small_book() -> Vec<u8> {
    let b1 = size(1);
    let gap = 300u64;
    let b2 = b1 + size(3) + gap;
    let mut v = block(&[(0x23, 0.0, b1)]);
    v.extend(block(&[(0x22, -1.5, b2), (0x24, 2.0, 0), (0x42, 0.5, 0)]));
    v.extend(vec![0xaau8; gap as usize]);
    v.extend(block(&[(0x32, 1.0, 0)]));
    v
}

#[test]
fn the_first_move_is_always_the_same() {
    for color in [Turn::Black, Turn::White] {
        let mut book = Book::new(small_book());
        assert!(!book.is_runout());
        assert_eq!(book.gen(color, None), Some((Move::Put { x: 2, y: 3 }, true)));
        book.reset();
        assert_eq!(book.gen(color, None), Some((Move::Put { x: 2, y: 3 }, true)));
    }
    // A book that ends with the first move says so.
    let mut book = Book::new(block(&[(0x23, 0.0, 0)]));
    assert_eq!(book.gen(Turn::Black, None), Some((Move::Put { x: 2, y: 3 }, false)));
    assert!(book.is_runout());
    assert_eq!(book.gen(Turn::White, Some(Move::Put { x: 2, y: 2 })), None);
}

#[test]
fn a_book_without_data_has_nothing_to_say() {
    for data in [vec![], vec![0u8; 8], vec![0u8; 7], vec![0, 0, 0, 0, 0, 0, 0, 1], block(&[])] {
        let mut book = Book::new(data);
        assert!(book.is_runout());
        assert_eq!(book.gen(Turn::Black, None), None);
        assert!(!book.go(Move::Put { x: 2, y: 3 }));
        book.reset();
        assert!(book.is_runout());
    }
    // A count that the data do not hold.
    let mut data = block(&[(0x23, 0.0, 0)]);
    data[7] = 2;
    assert!(Book::new(data).is_runout());
}

#[test]
fn the_book_follows_the_game() {
    let mut book = Book::new(small_book());
    assert!(book.go(Move::Put { x: 2, y: 3 }));
    // The reply C3 leads on, to a block far into the data.
    assert!(book.go(Move::Put { x: 2, y: 2 }));
    // The one reply there is D3, and the book ends with it.
    assert_eq!(book.gen(Turn::Black, None).map(|r| r.0), Some(Move::Put { x: 2, y: 3 }));
    let mut book = Book::new(small_book());
    assert!(book.go(Move::Put { x: 2, y: 3 }));
    assert_eq!(
        book.gen(Turn::Black, Some(Move::Put { x: 2, y: 2 })),
        Some((Move::Put { x: 3, y: 2 }, false))
    );
    assert!(book.is_runout());
    assert_eq!(book.gen(Turn::White, Some(Move::Put { x: 4, y: 2 })), None);
}

#[test]
fn a_move_that_the_book_does_not_hold_ends_it() {
    let mut book = Book::new(small_book());
    assert!(book.go(Move::Put { x: 2, y: 3 }));
    assert!(!book.go(Move::Put { x: 5, y: 5 }));
    assert!(book.is_runout());
    assert!(!book.go(Move::Put { x: 2, y: 2 }));
    // A reply without replies of its own ends the book too.
    let mut book = Book::new(small_book());
    assert!(book.go(Move::Put { x: 2, y: 3 }));
    assert!(!book.go(Move::Put { x: 2, y: 4 }));
    assert!(book.is_runout());
    // And so does a pass.
    let mut book = Book::new(small_book());
    assert!(book.go(Move::Put { x: 2, y: 3 }));
    assert!(!book.go(Move::Pass));
    assert!(book.is_runout());
    assert_eq!(book.gen(Turn::Black, Some(Move::Put { x: 2, y: 2 })), None);
    book.reset();
    assert!(!book.is_runout());
}

#[test]
fn the_reply_is_one_of_the_records() {
    let replies = [Move::Put { x: 2, y: 2 }, Move::Put { x: 2, y: 4 }, Move::Put { x: 4, y: 2 }];
    let mut seen = [false; 3];
    for _ in 0..200 {
        let mut book = Book::new(small_book());
        let (mv, more) = book.gen(Turn::White, Some(Move::Put { x: 2, y: 3 })).unwrap();
        let i = replies.iter().position(|r| *r == mv).unwrap();
        seen[i] = true;
        assert_eq!(more, i == 0);
        assert_eq!(book.is_runout(), i != 0);
    }
    // White likes the least score best: C3 comes wherever it was looked at.
    assert!(seen[0]);
    let mut seen = [false; 3];
    for _ in 0..200 {
        let mut book = Book::new(small_book());
        let (mv, _) = book.gen(Turn::Black, Some(Move::Put { x: 2, y: 3 })).unwrap();
        seen[replies.iter().position(|r| *r == mv).unwrap()] = true;
    }
    // Black likes the greatest score best: C5.
    assert!(seen[1]);
}

#[test]
fn the_best_record_of_those_looked_at() {
    let mut book = Book::new(small_book());
    assert!(book.go(Move::Put { x: 2, y: 3 }));
    // Scores: -1.5, 2.0, 0.5.
    assert_eq!(book.pick(Turn::Black, &vec![0, 1, 2]), 1);
    assert_eq!(book.pick(Turn::White, &vec![0, 1, 2]), 0);
    assert_eq!(book.pick(Turn::Black, &vec![0, 2]), 2);
    assert_eq!(book.pick(Turn::White, &vec![1, 2]), 2);
    assert_eq!(book.pick(Turn::Black, &vec![0]), 0);
    assert_eq!(book.pick(Turn::White, &vec![1, 1, 1]), 1);
    assert_eq!(book.pick(Turn::Black, &vec![2, 0, 2, 0]), 2);
}

#[test]
fn scores_are_ordered_as_numbers() {
    let scores = [
        f64::NEG_INFINITY,
        -1.0e300,
        -2.5,
        -1.0,
        -1.0e-300,
        -0.0,
        1.0e-300,
        0.25,
        1.0,
        3.0e17,
        f64::INFINITY,
    ];
    let records: Vec<(u8, f64, u64)> =
        scores.iter().enumerate().map(|(i, s)| (0x10 + i as u8, *s, 0)).collect();
    let next = size(1);
    let mut data = block(&[(0x23, 0.0, next)]);
    data.extend(block(&records));
    let mut book = Book::new(data);
    assert!(book.go(Move::Put { x: 2, y: 3 }));
    for i in 0..scores.len() as u64 {
        for j in 0..scores.len() as u64 {
            let black = book.pick(Turn::Black, &vec![i, j]);
            let white = book.pick(Turn::White, &vec![i, j]);
            // Of two that are liked the same, the one looked at last is taken.
            let expect_black = if scores[i as usize] <= scores[j as usize] { j } else { i };
            let expect_white = if scores[i as usize] >= scores[j as usize] { j } else { i };
            assert_eq!(black, expect_black);
            assert_eq!(white, expect_white);
        }
    }
}

#[test]
fn zero_and_minus_zero_are_liked_the_same() {
    let next = size(1);
    let mut data = block(&[(0x23, 0.0, next)]);
    data.extend(block(&[(0x10, 0.0, 0), (0x11, -0.0, 0)]));
    let mut book = Book::new(data);
    assert!(book.go(Move::Put { x: 2, y: 3 }));
    assert_eq!(book.pick(Turn::Black, &vec![0, 1]), 1);
    assert_eq!(book.pick(Turn::Black, &vec![1, 0]), 0);
    assert_eq!(book.pick(Turn::White, &vec![0, 1]), 1);
    assert_eq!(book.pick(Turn::White, &vec![1, 0]), 0);
}

#[test]
fn the_end_of_a_line() {
    let next = size(1);
    let mut data = block(&[(0x23, 0.0, next)]);
    data.extend(block(&[(END_BYTE, 0.0, 0)]));
    let mut book = Book::new(data);
    assert_eq!(book.gen(Turn::White, Some(Move::Put { x: 2, y: 3 })), None);
    assert!(book.is_runout());
    // A pass in the book is a reply, but the book ends with it.
    let mut data = block(&[(0x23, 0.0, next)]);
    data.extend(block(&[(PASS_BYTE, 0.0, 0)]));
    let mut book = Book::new(data);
    assert_eq!(book.gen(Turn::White, Some(Move::Put { x: 2, y: 3 })), Some((Move::Pass, false)));
    assert!(book.is_runout());
}

#[test]
fn offsets_that_lead_nowhere_end_the_book() {
    for next in [7u64, 100_000, u64::MAX, u64::MAX - 7, size(1) + 1] {
        let mut data = block(&[(0x23, 0.0, next)]);
        data.extend(block(&[(0x22, 0.0, 0)]));
        let mut book = Book::new(data);
        assert!(!book.go(Move::Put { x: 2, y: 3 }));
        assert!(book.is_runout());
    }
    // A block whose count says more records than there are data.
    let mut data = block(&[(0x23, 0.0, size(1))]);
    let mut reply = block(&[(0x22, 0.0, 0)]);
    reply[0] = 0x7f;
    data.extend(reply);
    let mut book = Book::new(data);
    assert!(!book.go(Move::Put { x: 2, y: 3 }));
}

#[test]
fn the_board_may_lie_four_ways() {
    // The first move of a game and what C3, a reply on the book's board, is
    // on the board as it is played on.
    let cases = [
        (Move::Put { x: 2, y: 3 }, Move::Put { x: 2, y: 2 }, Move::Put { x: 3, y: 2 }),
        (Move::Put { x: 3, y: 2 }, Move::Put { x: 2, y: 2 }, Move::Put { x: 2, y: 3 }),
        (Move::Put { x: 5, y: 4 }, Move::Put { x: 5, y: 5 }, Move::Put { x: 4, y: 5 }),
        (Move::Put { x: 4, y: 5 }, Move::Put { x: 5, y: 5 }, Move::Put { x: 5, y: 4 }),
    ];
    for (first, second, third) in cases {
        let mut book = Book::new(small_book());
        assert!(book.go(first));
        assert_eq!(book.gen(Turn::Black, Some(second)), Some((third, false)));
    }
}

#[test]
fn the_table_maps_there_and_back() {
    for (x, y) in [(2u8, 3u8), (3, 2), (5, 4), (4, 5), (0, 0), (7, 1)] {
        let mut t = Transform::new();
        assert_eq!(t.get(0x23), 0);
        t.init(x, y);
        for a in 0..8u8 {
            for b in 0..8u8 {
                let v = a * 16 + b;
                let w = t.get(v);
                assert!(w / 16 < 8 && w % 16 < 8);
                assert_eq!(t.inv(w), v);
                assert_eq!(t.get(t.inv(v)), v);
            }
        }
        assert_eq!(t.get(PASS_BYTE), PASS_BYTE);
        assert_eq!(t.inv(t.get(PASS_BYTE)), PASS_BYTE);
    }
    let mut t = Transform::new();
    t.init(2, 3);
    assert_eq!(t.get(0x23), 0x23);
    assert_eq!(t.get(0x07), 0x07);
    t.init(3, 2);
    assert_eq!(t.get(0x32), 0x23);
    assert_eq!(t.get(0x07), 0x70);
    t.init(5, 4);
    assert_eq!(t.get(0x54), 0x23);
    assert_eq!(t.get(0x00), 0x77);
    t.init(4, 5);
    assert_eq!(t.get(0x45), 0x23);
    assert_eq!(t.get(0x01), 0x67);
    // A byte that is no move is left as it was.
    assert_eq!(t.get(0x0f), 0);
    assert_eq!(t.get(END_BYTE), 0);
}

#[test]
fn records_with_the_same_byte_are_all_found() {
    let keys = [0x10u8, 0x20, 0x20, 0x20, 0x30, 0x31, 0x31, 0x55];
    let records: Vec<(u8, f64, u64)> = keys.iter().map(|k| (*k, 0.0, 0)).collect();
    let data = block(&records);
    let last = keys.len() as u64 - 1;
    assert_eq!(binary_search(&data, 8, 0, last, 0x10), Some((0, 0)));
    assert_eq!(binary_search(&data, 8, 0, last, 0x20), Some((1, 3)));
    assert_eq!(binary_search(&data, 8, 0, last, 0x30), Some((4, 4)));
    assert_eq!(binary_search(&data, 8, 0, last, 0x31), Some((5, 6)));
    assert_eq!(binary_search(&data, 8, 0, last, 0x55), Some((7, 7)));
    assert_eq!(binary_search(&data, 8, 0, last, 0x00), None);
    assert_eq!(binary_search(&data, 8, 0, last, 0x15), None);
    assert_eq!(binary_search(&data, 8, 0, last, 0x40), None);
    assert_eq!(binary_search(&data, 8, 0, last, 0xff), None);
    // Within a part of the block only.
    assert_eq!(binary_search(&data, 8, 2, 5, 0x20), Some((2, 3)));
    assert_eq!(binary_search(&data, 8, 2, 5, 0x31), Some((5, 5)));
    assert_eq!(binary_search(&data, 8, 2, 5, 0x10), None);
    assert_eq!(binary_search(&data, 8, 4, 4, 0x30), Some((4, 4)));
    assert_eq!(binary_search(&data, 8, 4, 4, 0x31), None);
    for k in 0..=255u8 {
        let found = binary_search(&data, 8, 0, last, k);
        let first = keys.iter().position(|x| *x == k);
        let end = keys.iter().rposition(|x| *x == k);
        assert_eq!(found, first.map(|f| (f as u64, end.unwrap() as u64)));
    }
}

#[test]
fn of_records_with_the_same_byte_the_first_leads_on() {
    let b1 = size(2);
    let mut data = block(&[(0x23, 0.0, b1), (0x23, 0.0, 0)]);
    data.extend(block(&[(0x22, 0.0, 0)]));
    let mut book = Book::new(data);
    assert!(book.go(Move::Put { x: 2, y: 3 }));
    let mut data = block(&[(0x23, 0.0, 0), (0x23, 0.0, b1)]);
    data.extend(block(&[(0x22, 0.0, 0)]));
    let mut book = Book::new(data);
    assert!(!book.go(Move::Put { x: 2, y: 3 }));
}
