use othello::board::{
    flip_turn, make_board, snapshot, turn_to_tile, BitBoard, Board, Move, MoveError, Tile, Turn,
    VecBoard,
};

fn tiles<B: Board>(board: &B) -> Vec<Tile> {
    let mut v = Vec::new();
    for y in 0..8u8 {
        for x in 0..8u8 {
            v.push(board.get(x, y));
        }
    }
    v
}

fn opening_put<B: Board>(mut board: B) {
    assert_eq!(board.get_turn(), Turn::Black);
    assert_eq!(board.get(3, 4), Tile::Black);
    assert_eq!(board.get(4, 3), Tile::Black);
    assert_eq!(board.get(3, 3), Tile::White);
    assert_eq!(board.get(4, 4), Tile::White);
    assert_eq!(board.apply_move(Move::Put { x: 2, y: 3 }), Ok(()));
    assert_eq!(board.get(2, 3), Tile::Black);
    assert_eq!(board.get(3, 3), Tile::Black);
    assert_eq!(board.count(Tile::Black), 4);
    assert_eq!(board.count(Tile::White), 1);
    assert_eq!(board.count(Tile::Empty), 59);
    assert_eq!(board.count_both(), 5);
    assert_eq!(board.get_turn(), Turn::White);
}

#[test]
fn opening_put_on_mask_board() {
    opening_put(BitBoard::new());
}

#[test]
fn opening_put_on_tile_board() {
    opening_put(VecBoard::new());
}

fn pass_keeps_discs<B: Board>(mut board: B) {
    let before = tiles(&board);
    let both = board.count_both();
    assert_eq!(board.apply_move(Move::Pass), Ok(()));
    assert_eq!(board.get_turn(), Turn::White);
    assert_eq!(tiles(&board), before);
    assert_eq!(board.count_both(), both);
    assert_eq!(board.apply_move(Move::Pass), Ok(()));
    assert_eq!(board.get_turn(), Turn::Black);
    assert_eq!(tiles(&board), before);
}

#[test]
fn pass_keeps_discs_on_mask_board() {
    pass_keeps_discs(BitBoard::new());
}

#[test]
fn pass_keeps_discs_on_tile_board() {
    pass_keeps_discs(VecBoard::new());
}

fn refused_moves<B: Board>(mut board: B) {
    let before = tiles(&board);
    // A cell that holds a disc of the other side, and one of the mover's own.
    assert_eq!(board.apply_move(Move::Put { x: 3, y: 3 }), Err(MoveError::AlreadyOccupied));
    assert_eq!(board.apply_move(Move::Put { x: 4, y: 3 }), Err(MoveError::AlreadyOccupied));
    assert_eq!(tiles(&board), before);
    assert_eq!(board.get_turn(), Turn::Black);
    // Empty cells from which nothing is captured.
    assert_eq!(board.apply_move(Move::Put { x: 0, y: 0 }), Err(MoveError::NoCaptures));
    assert_eq!(board.apply_move(Move::Put { x: 2, y: 2 }), Err(MoveError::NoCaptures));
    assert_eq!(tiles(&board), before);
    assert_eq!(board.get_turn(), Turn::Black);
    assert_eq!(board.count_both(), 4);
}

#[test]
fn refused_moves_on_mask_board() {
    refused_moves(BitBoard::new());
}

#[test]
fn refused_moves_on_tile_board() {
    refused_moves(VecBoard::new());
}

fn no_capture_round_the_edge<B: Board>(mut board: B) {
    // The cell after the last of a row is the first of the next row.
    board.set(7, 0, Tile::White);
    board.set(0, 1, Tile::Black);
    board.set(0, 3, Tile::White);
    board.set(7, 2, Tile::Black);
    let before = tiles(&board);
    assert_eq!(board.apply_move(Move::Put { x: 6, y: 0 }), Err(MoveError::NoCaptures));
    assert_eq!(board.apply_move(Move::Put { x: 1, y: 3 }), Err(MoveError::NoCaptures));
    assert_eq!(tiles(&board), before);
}

#[test]
fn no_capture_round_the_edge_on_mask_board() {
    no_capture_round_the_edge(BitBoard::new());
}

#[test]
fn no_capture_round_the_edge_on_tile_board() {
    no_capture_round_the_edge(VecBoard::new());
}

fn captures_in_all_directions<B: Board>(mut board: B) {
    // White discs all round (3, 3), black discs behind them.
    for y in 0..8u8 {
        for x in 0..8u8 {
            board.set(x, y, Tile::Empty);
        }
    }
    let dirs: [(i8, i8); 8] = [(-1, -1), (0, -1), (1, -1), (-1, 0), (1, 0), (-1, 1), (0, 1), (1, 1)];
    for (dx, dy) in dirs.iter() {
        board.set((3 + dx) as u8, (3 + dy) as u8, Tile::White);
        board.set((3 + 2 * dx) as u8, (3 + 2 * dy) as u8, Tile::Black);
    }
    // One more white disc to the right, so that the run there is two long.
    board.set(5, 3, Tile::White);
    board.set(6, 3, Tile::Black);
    assert_eq!(board.count(Tile::White), 9);
    assert_eq!(board.count(Tile::Black), 8);
    assert_eq!(board.apply_move(Move::Put { x: 3, y: 3 }), Ok(()));
    assert_eq!(board.count(Tile::White), 0);
    assert_eq!(board.count(Tile::Black), 18);
    assert_eq!(board.count_both(), 18);
    assert_eq!(board.get_turn(), Turn::White);
}

#[test]
fn captures_in_all_directions_on_mask_board() {
    captures_in_all_directions(BitBoard::new());
}

#[test]
fn captures_in_all_directions_on_tile_board() {
    captures_in_all_directions(VecBoard::new());
}

#[test]
fn white_captures_too() {
    let mut a = BitBoard::new();
    let mut b = VecBoard::new();
    a.set_turn(Turn::White);
    b.set_turn(Turn::White);
    assert_eq!(a.apply_move(Move::Put { x: 4, y: 2 }), Ok(()));
    assert_eq!(b.apply_move(Move::Put { x: 4, y: 2 }), Ok(()));
    assert_eq!(a.get(4, 3), Tile::White);
    assert_eq!(a.count(Tile::White), 4);
    assert_eq!(a.count(Tile::Black), 1);
    assert_eq!(a.get_turn(), Turn::Black);
    assert_eq!(tiles(&a), tiles(&b));
}

#[test]
fn a_put_adds_one_disc_and_two_for_the_mover() {
    let mut board = make_board();
    let mut moves = 0;
    loop {
        let turn = board.get_turn();
        let (me, op) = turn_to_tile(turn);
        let mut played = false;
        'cells: for y in 0..8u8 {
            for x in 0..8u8 {
                let mut next = board;
                let both = board.count_both();
                let mine = board.count(me);
                let theirs = board.count(op);
                if next.apply_move(Move::Put { x, y }).is_ok() {
                    assert_eq!(next.count_both(), both + 1);
                    assert!(next.count(me) >= mine + 2);
                    assert!(next.count(op) + 1 <= theirs);
                    board = next;
                    played = true;
                    break 'cells;
                } else {
                    assert_eq!(next.bitboard(), board.bitboard());
                    assert_eq!(next.get_turn(), board.get_turn());
                }
            }
        }
        if !played {
            break;
        }
        moves += 1;
    }
    assert!(moves > 10);
}

#[test]
fn both_boards_play_the_same_game() {
    let mut a = BitBoard::new();
    let mut b = VecBoard::new();
    let mut passes = 0;
    let mut turns = 0;
    while passes < 2 {
        let mut played = false;
        // Take the last cell that the rules allow, to go another way than the first.
        for i in (0..64u8).rev() {
            let mv = Move::Put { x: i % 8, y: i / 8 };
            let mut a2 = a;
            let ra = a2.apply_move(mv);
            let mut b2 = b.clone();
            let rb = b2.apply_move(mv);
            assert_eq!(ra, rb);
            if ra.is_ok() {
                a = a2;
                b = b2;
                played = true;
                break;
            }
        }
        if played {
            passes = 0;
        } else {
            passes += 1;
            assert_eq!(a.apply_move(Move::Pass), Ok(()));
            assert_eq!(b.apply_move(Move::Pass), Ok(()));
        }
        assert_eq!(tiles(&a), tiles(&b));
        assert_eq!(a.get_turn(), b.get_turn());
        assert_eq!(a.bitboard(), b.bitboard());
        assert_eq!(a.count_both(), b.count_both());
        turns += 1;
    }
    assert!(turns > 20);
}

#[test]
fn masks_of_the_opening() {
    let a = BitBoard::new();
    let b = VecBoard::new();
    assert_eq!(a.bitboard(), (0x0000_0008_1000_0000, 0x0000_0010_0800_0000));
    assert_eq!(b.bitboard(), (0x0000_0008_1000_0000, 0x0000_0010_0800_0000));
    let c = snapshot(&b);
    assert_eq!(c.bitboard(), a.bitboard());
    assert_eq!(c.get_turn(), Turn::Black);
}

#[test]
fn set_and_get_every_cell() {
    let mut a = BitBoard::new();
    let mut b = VecBoard::new();
    for y in 0..8u8 {
        for x in 0..8u8 {
            let t = match (x + 2 * y) % 3 {
                0 => Tile::Empty,
                1 => Tile::Black,
                _ => Tile::White,
            };
            a.set(x, y, t);
            b.set(x, y, t);
        }
    }
    for y in 0..8u8 {
        for x in 0..8u8 {
            let t = match (x + 2 * y) % 3 {
                0 => Tile::Empty,
                1 => Tile::Black,
                _ => Tile::White,
            };
            assert_eq!(a.get(x, y), t);
            assert_eq!(b.get(x, y), t);
        }
    }
    assert_eq!(a.count(Tile::Empty) + a.count(Tile::Black) + a.count(Tile::White), 64);
    assert_eq!(a.count(Tile::Black), b.count(Tile::Black));
    assert_eq!(a.count(Tile::White), b.count(Tile::White));
    assert_eq!(a.count(Tile::Empty), b.count(Tile::Empty));
    assert_eq!(a.count_both(), a.count(Tile::Black) + a.count(Tile::White));
    assert_eq!(a.bitboard(), b.bitboard());
    // A disc of one colour takes the place of a disc of the other.
    a.set(1, 0, Tile::White);
    assert_eq!(a.get(1, 0), Tile::White);
    let (black, white) = a.bitboard();
    assert_eq!(black & white, 0);
}

#[test]
fn reset_puts_the_opening_back() {
    let mut a = BitBoard::new();
    let mut b = VecBoard::new();
    assert_eq!(a.apply_move(Move::Put { x: 2, y: 3 }), Ok(()));
    assert_eq!(b.apply_move(Move::Put { x: 2, y: 3 }), Ok(()));
    a.reset();
    b.reset();
    assert_eq!(tiles(&a), tiles(&BitBoard::new()));
    assert_eq!(tiles(&b), tiles(&BitBoard::new()));
    assert_eq!(a.get_turn(), Turn::Black);
    assert_eq!(b.get_turn(), Turn::Black);
    assert_eq!(a.count_both(), 4);
}

#[test]
fn turns_and_their_discs() {
    assert_eq!(flip_turn(Turn::Black), Turn::White);
    assert_eq!(flip_turn(Turn::White), Turn::Black);
    assert_eq!(turn_to_tile(Turn::Black), (Tile::Black, Tile::White));
    assert_eq!(turn_to_tile(Turn::White), (Tile::White, Tile::Black));
}

#[test]
fn walk_counts_the_captured_discs() {
    let mut board = BitBoard::new();
    board.set(5, 3, Tile::White);
    board.set(4, 3, Tile::White);
    board.set(6, 3, Tile::Black);
    // From (2, 3) to the right: three white discs, then a black one.
    assert_eq!(board.walk(Turn::Black, 2, 3, 2), 3);
    // To the left there is nothing.
    assert_eq!(board.walk(Turn::Black, 2, 3, 0), 0);
    // For White the run to the right is not of the other side's discs.
    assert_eq!(board.walk(Turn::White, 2, 3, 2), 0);
}
