use othello::board::{BitBoard, Board, Move, Tile, Turn, VecBoard};
use othello::strategy::util::{iter_moves, list_legal, list_moves, putable, MoveIter};

fn all_moves(mut it: MoveIter) -> Vec<Move> {
    let mut v = Vec::new();
    while let Some(mv) = it.next() {
        v.push(mv);
    }
    v
}

#[test]
fn moves_of_the_opening() {
    let board = BitBoard::new();
    let it = iter_moves(&board, Turn::Black);
    assert_eq!(it.count_moves(), 4);
    assert_eq!(
        all_moves(it),
        vec![
            Move::Put { x: 3, y: 2 },
            Move::Put { x: 2, y: 3 },
            Move::Put { x: 5, y: 4 },
            Move::Put { x: 4, y: 5 },
        ]
    );
    let it = iter_moves(&board, Turn::White);
    assert_eq!(
        all_moves(it),
        vec![
            Move::Put { x: 4, y: 2 },
            Move::Put { x: 5, y: 3 },
            Move::Put { x: 2, y: 4 },
            Move::Put { x: 3, y: 5 },
        ]
    );
    assert_eq!(list_legal(&VecBoard::new(), Turn::Black).len(), 4);
}

#[test]
fn the_moves_can_be_taken_twice() {
    let board = BitBoard::new();
    let first = all_moves(MoveIter::new(&board, Turn::Black));
    let second = all_moves(MoveIter::new(&board, Turn::Black));
    assert_eq!(first, second);
    let mut it = iter_moves(&board, Turn::Black);
    for _ in 0..4 {
        assert!(it.next().is_some());
    }
    assert_eq!(it.next(), None);
    assert_eq!(it.next(), None);
    assert_eq!(it.count_moves(), 4);
}

fn check_against_rules<B: Board>(board: &B) {
    for turn in [Turn::Black, Turn::White] {
        let listed = all_moves(iter_moves(board, turn));
        let mut expected = Vec::new();
        for i in 0..64u8 {
            let (x, y) = (i % 8, i / 8);
            let mut copy = othello::board::snapshot(board);
            copy.set_turn(turn);
            let legal = copy.apply_move(Move::Put { x, y }).is_ok();
            assert_eq!(putable(board, x, y, turn), legal);
            if legal {
                assert_eq!(board.get(x, y), Tile::Empty);
                expected.push(Move::Put { x, y });
            }
        }
        assert_eq!(listed, expected);
        assert_eq!(iter_moves(board, turn).count_moves() as usize, expected.len());
        assert_eq!(listed.is_empty(), expected.is_empty());
    }
}

#[test]
fn the_list_is_the_legal_moves_all_through_a_game() {
    let mut board = BitBoard::new();
    let mut passes = 0;
    let mut n = 0u32;
    while passes < 2 {
        check_against_rules(&board);
        let moves = list_moves(&board);
        assert!(!moves.is_empty());
        // Go through the moves in turn, so that the games differ from move to move.
        let mv = moves[(n as usize * 7 + 3) % moves.len()];
        if mv == Move::Pass {
            passes += 1;
        } else {
            passes = 0;
        }
        assert_eq!(board.apply_move(mv), Ok(()));
        n += 1;
    }
    check_against_rules(&board);
    assert!(board.count_both() > 40);
}

#[test]
fn runs_to_the_left_and_upwards_count() {
    // A White disc with a Black one to its right: Black may put a disc to its left.
    let mut board = BitBoard::new();
    for y in 0..8u8 {
        for x in 0..8u8 {
            board.set(x, y, Tile::Empty);
        }
    }
    board.set(4, 4, Tile::White);
    board.set(5, 4, Tile::Black);
    assert_eq!(all_moves(iter_moves(&board, Turn::Black)), vec![Move::Put { x: 3, y: 4 }]);
    board.set(5, 4, Tile::Empty);
    board.set(4, 5, Tile::Black);
    assert_eq!(all_moves(iter_moves(&board, Turn::Black)), vec![Move::Put { x: 4, y: 3 }]);
    check_against_rules(&board);
}

#[test]
fn no_move_round_the_edge() {
    let mut board = VecBoard::new();
    for y in 0..8u8 {
        for x in 0..8u8 {
            board.set(x, y, Tile::Empty);
        }
    }
    board.set(7, 0, Tile::White);
    board.set(0, 1, Tile::Black);
    board.set(0, 3, Tile::White);
    board.set(7, 2, Tile::Black);
    assert_eq!(all_moves(iter_moves(&board, Turn::Black)), vec![]);
    assert_eq!(all_moves(iter_moves(&board, Turn::White)), vec![]);
    assert_eq!(list_moves(&board), vec![Move::Pass]);
    assert!(!putable(&board, 6, 0, Turn::Black));
    check_against_rules(&board);
}

#[test]
fn a_run_of_six_is_found() {
    let mut board = BitBoard::new();
    for y in 0..8u8 {
        for x in 0..8u8 {
            board.set(x, y, Tile::Empty);
        }
    }
    for x in 1..7u8 {
        board.set(x, 2, Tile::White);
    }
    board.set(7, 2, Tile::Black);
    assert_eq!(all_moves(iter_moves(&board, Turn::Black)), vec![Move::Put { x: 0, y: 2 }]);
    assert!(putable(&board, 0, 2, Turn::Black));
    let mut next = board;
    assert_eq!(next.apply_move(Move::Put { x: 0, y: 2 }), Ok(()));
    assert_eq!(next.count(Tile::Black), 8);
    assert_eq!(next.count(Tile::White), 0);
    check_against_rules(&board);
}

#[test]
fn an_occupied_cell_is_no_move() {
    let board = BitBoard::new();
    assert!(!putable(&board, 3, 3, Turn::Black));
    assert!(!putable(&board, 4, 3, Turn::Black));
    assert!(putable(&board, 2, 3, Turn::Black));
    assert!(!putable(&board, 2, 3, Turn::White));
}
