use othello::board::{BitBoard, Board, Move, Tile, Turn, VecBoard};
use othello::options::Opts;
use othello::strategy::search::{alphabeta, putnum_check, stable_check, Evaluator, Searcher};

fn with_depth(depth: u32) -> Opts {
    Opts {
        port: 3000,
        host: String::from("localhost"),
        name: String::from("client"),
        ending_turns: 12,
        ending_opt: false,
        depth,
        selfmatch: false,
    }
}

fn empty_board() -> BitBoard {
    let mut board = BitBoard::new();
    for y in 0..8u8 {
        for x in 0..8u8 {
            board.set(x, y, Tile::Empty);
        }
    }
    board
}

fn rows_of_black(rows: u8) -> BitBoard {
    let mut board = empty_board();
    for y in 0..rows {
        for x in 0..8u8 {
            board.set(x, y, Tile::Black);
        }
    }
    board
}

#[test]
fn worth_of_the_cells() {
    let e = Evaluator::new();
    assert_eq!(e.eval_one_place(0, 0), 45);
    assert_eq!(e.eval_one_place(7, 0), 45);
    assert_eq!(e.eval_one_place(0, 7), 45);
    assert_eq!(e.eval_one_place(7, 7), 45);
    assert_eq!(e.eval_one_place(1, 0), -11);
    assert_eq!(e.eval_one_place(0, 1), -11);
    assert_eq!(e.eval_one_place(1, 1), -16);
    assert_eq!(e.eval_one_place(6, 6), -16);
    assert_eq!(e.eval_one_place(2, 0), 4);
    assert_eq!(e.eval_one_place(2, 2), 2);
    assert_eq!(e.eval_one_place(3, 1), -3);
    assert_eq!(e.eval_one_place(3, 3), 0);
    assert_eq!(e.eval_one_place(4, 4), 0);
    assert_eq!(e.eval_one_place(2, 3), -1);
    assert_eq!(e.eval_one_place(5, 2), 2);
    let mut sum = 0;
    for y in 0..8u8 {
        for x in 0..8u8 {
            assert_eq!(e.eval_one_place(x, y), e.eval_one_place(7 - x, y));
            assert_eq!(e.eval_one_place(x, y), e.eval_one_place(x, 7 - y));
            assert_eq!(e.eval_one_place(x, y), e.eval_one_place(y, x));
            sum += e.eval_one_place(x, y);
        }
    }
    assert_eq!(sum, 20);
}

#[test]
fn score_of_the_opening() {
    let mut e = Evaluator::new();
    assert_eq!(e.evaluate(&BitBoard::new()), 0);
    assert_eq!(e.evaluate(&VecBoard::new()), 0);
    assert_eq!(e.eval_place(&BitBoard::new()), 0);
    assert_eq!(e.eval_putnum(&BitBoard::new()), 0);
}

#[test]
fn score_early_in_the_game() {
    let mut board = BitBoard::new();
    assert_eq!(board.apply_move(Move::Put { x: 2, y: 3 }), Ok(()));
    let mut e = Evaluator::new();
    assert_eq!(e.eval_place(&board), -1);
    assert_eq!(e.eval_putnum(&board), 0);
    assert_eq!(e.evaluate(&board), -1);

    // A corner: 45 for the place and 5 for the one stable disc.
    let mut board = BitBoard::new();
    board.set(0, 0, Tile::Black);
    let mut e = Evaluator::new();
    assert_eq!(e.eval_place(&board), 45);
    assert_eq!(e.eval_stable(&board), 1);
    assert_eq!(e.eval_putnum(&board), 0);
    let mut e = Evaluator::new();
    assert_eq!(e.evaluate(&board), 50);

    // The same for White counts against.
    let mut board = VecBoard::new();
    board.set(7, 7, Tile::White);
    let mut e = Evaluator::new();
    assert_eq!(e.evaluate(&board), -50);

    // Moves count four times: Black has one, White has none.
    let mut board = empty_board();
    board.set(3, 3, Tile::White);
    board.set(4, 3, Tile::Black);
    assert_eq!(putnum_check(&board, Turn::Black), 1);
    assert_eq!(putnum_check(&board, Turn::White), 1);
    board.set(3, 3, Tile::Empty);
    board.set(0, 3, Tile::White);
    board.set(1, 3, Tile::Black);
    board.set(4, 3, Tile::Empty);
    // Black cannot capture the disc on the edge; White can capture Black's.
    assert_eq!(putnum_check(&board, Turn::Black), 0);
    assert_eq!(putnum_check(&board, Turn::White), 1);
    let mut e = Evaluator::new();
    // Places: Black on (1, 3) is -3, White on (0, 3) is -1, so -3 + 1; moves 0 - 1.
    assert_eq!(e.evaluate(&board), -2 + 4 * -1);
}

#[test]
fn score_in_the_middle_of_the_game() {
    let board = rows_of_black(3);
    assert_eq!(board.count_both(), 24);
    let mut e = Evaluator::new();
    assert_eq!(e.eval_place(&board), 20);
    assert_eq!(e.eval_stable(&board), 24);
    let mut e = Evaluator::new();
    assert_eq!(e.evaluate(&board), 2 * 20 + 5 * 24);
}

#[test]
fn score_late_in_the_game() {
    let board = rows_of_black(6);
    assert_eq!(board.count_both(), 48);
    let mut e = Evaluator::new();
    assert_eq!(e.eval_place(&board), 8);
    let mut e = Evaluator::new();
    assert_eq!(e.evaluate(&board), 2 * 8 + 8 * 48);
    // Moves no longer count: one White disc that Black could capture changes
    // the places only.
    let mut board = rows_of_black(6);
    board.set(3, 6, Tile::White);
    board.set(3, 5, Tile::Black);
    assert!(putnum_check(&board, Turn::Black) > 0);
    let mut e = Evaluator::new();
    let stable = {
        let mut f = Evaluator::new();
        f.eval_stable(&board)
    };
    assert_eq!(e.evaluate(&board), 2 * (8 + 3) + 8 * stable);
}

#[test]
fn the_phases_begin_at_twenty_and_at_forty_four_discs() {
    // 19 and 20 discs, 43 and 44: a White disc in the middle has moves count or not.
    for (n, early, late) in [(19u8, true, false), (20, false, false), (43, false, false), (44, false, true)] {
        let mut board = empty_board();
        let mut k = 0u8;
        'fill: for y in 0..8u8 {
            for x in 0..8u8 {
                if k == n {
                    break 'fill;
                }
                board.set(x, y, Tile::Black);
                k += 1;
            }
        }
        assert_eq!(board.count_both(), n as u32);
        let mut e = Evaluator::new();
        let place = e.eval_place(&board);
        let stable = e.eval_stable(&board);
        let moves = e.eval_putnum(&board);
        let mut e = Evaluator::new();
        let score = e.evaluate(&board);
        if early {
            assert_eq!(score, place + 5 * stable + 4 * moves);
        } else if late {
            assert_eq!(score, 2 * place + 8 * stable);
        } else {
            assert_eq!(score, 2 * place + 5 * stable + moves);
        }
    }
}

#[test]
fn stable_discs_are_remembered() {
    let mut board = BitBoard::new();
    board.set(0, 0, Tile::Black);
    board.set(1, 0, Tile::Black);
    let (first, n1) = stable_check(&board, Tile::Black, 0);
    assert_eq!(first, 0b11);
    assert_eq!(n1, 2);
    // The disc is gone from the board, but not from what is remembered.
    board.set(1, 0, Tile::Empty);
    let (second, n2) = stable_check(&board, Tile::Black, first);
    assert_eq!(second & first, first);
    assert!(n2 >= n1);
    let (fresh, n3) = stable_check(&board, Tile::Black, 0);
    assert_eq!(fresh, 0b1);
    assert_eq!(n3, 1);
    // An evaluator remembers in the same way, until it is reset.
    let mut with_two = BitBoard::new();
    with_two.set(0, 0, Tile::Black);
    with_two.set(1, 0, Tile::Black);
    let mut e = Evaluator::new();
    assert_eq!(e.eval_stable(&with_two), 2);
    assert_eq!(e.eval_stable(&board), 2);
    e.reset();
    assert_eq!(e.eval_stable(&board), 1);
}

#[test]
fn stable_discs_never_get_fewer_through_a_game() {
    let mut board = BitBoard::new();
    let mut black = 0u64;
    let mut white = 0u64;
    let mut nb = 0;
    let mut nw = 0;
    let mut passes = 0;
    let mut n = 0usize;
    while passes < 2 {
        let moves = othello::strategy::util::list_moves(&board);
        let mv = moves[(n * 5 + 1) % moves.len()];
        if mv == Move::Pass {
            passes += 1;
        } else {
            passes = 0;
        }
        assert_eq!(board.apply_move(mv), Ok(()));
        let (b2, c2) = stable_check(&board, Tile::Black, black);
        let (w2, d2) = stable_check(&board, Tile::White, white);
        assert_eq!(b2 & black, black);
        assert_eq!(w2 & white, white);
        assert!(c2 >= nb);
        assert!(d2 >= nw);
        assert_eq!(c2, b2.count_ones());
        assert_eq!(d2, w2.count_ones());
        black = b2;
        white = w2;
        nb = c2;
        nw = d2;
        n += 1;
    }
    assert!(nb + nw > 0);
}

#[test]
fn stable_discs_of_a_full_board() {
    let board = rows_of_black(8);
    assert_eq!(stable_check(&board, Tile::Black, 0), (u64::MAX, 64));
    assert_eq!(stable_check(&board, Tile::White, 0), (0, 0));
    assert_eq!(stable_check(&empty_board(), Tile::Black, 0), (0, 0));
}

#[test]
fn a_disc_on_the_edge_needs_a_stable_disc_somewhere() {
    // A full row with a White disc in each corner: no Black disc of it is
    // stable while nothing is known to be.
    let mut board = empty_board();
    board.set(0, 0, Tile::White);
    board.set(7, 0, Tile::White);
    for x in 1..7u8 {
        board.set(x, 0, Tile::Black);
    }
    assert_eq!(stable_check(&board, Tile::Black, 0).1, 0);
    assert_eq!(stable_check(&board, Tile::White, 0).1, 2);
    // With one disc known to be stable, the full row keeps them all.
    let known = 1u64 << 63;
    let (mask, n) = stable_check(&board, Tile::Black, known);
    assert_eq!(mask, known | 0b0111_1110);
    assert_eq!(n, 7);
}

#[test]
fn search_of_depth_none_passes() {
    let mut s = Searcher::new(&with_depth(0));
    assert_eq!(s.search(&BitBoard::new()), Move::Pass);
}

#[test]
fn search_keeps_the_first_of_equal_moves() {
    let mut s = Searcher::new(&with_depth(1));
    assert_eq!(s.search(&BitBoard::new()), Move::Put { x: 3, y: 2 });
    s.reset();
    assert_eq!(s.search(&VecBoard::new()), Move::Put { x: 3, y: 2 });
}

#[test]
fn search_takes_the_corner() {
    // Black can take the corner (0, 0) or a cell of little worth.
    let mut board = empty_board();
    board.set(1, 0, Tile::White);
    board.set(2, 0, Tile::Black);
    board.set(4, 3, Tile::White);
    board.set(5, 3, Tile::Black);
    for depth in 1..4 {
        let mut s = Searcher::new(&with_depth(depth));
        assert_eq!(s.search(&board), Move::Put { x: 0, y: 0 });
    }
}

#[test]
fn search_passes_where_no_disc_can_be_put() {
    let mut board = empty_board();
    board.set(0, 3, Tile::White);
    board.set(1, 3, Tile::Black);
    for depth in 1..4 {
        let mut s = Searcher::new(&with_depth(depth));
        assert_eq!(s.search(&board), Move::Pass);
    }
    board.set_turn(Turn::White);
    let mut s = Searcher::new(&with_depth(2));
    assert_eq!(s.search(&board), Move::Put { x: 2, y: 3 });
}

#[test]
fn search_plays_moves_that_the_rules_allow() {
    let mut board = BitBoard::new();
    let mut black = Searcher::new(&with_depth(3));
    let mut white = Searcher::new(&with_depth(2));
    let mut passes = 0;
    let mut turns = 0;
    while passes < 2 && turns < 16 {
        let mv = if board.get_turn() == Turn::Black {
            black.search(&board)
        } else {
            white.search(&board)
        };
        let can_put = !othello::strategy::util::list_legal(&board, board.get_turn()).is_empty();
        assert_eq!(mv == Move::Pass, !can_put);
        assert_eq!(board.apply_move(mv), Ok(()));
        if mv == Move::Pass {
            passes += 1;
        } else {
            passes = 0;
        }
        turns += 1;
    }
    assert!(board.count_both() >= 16);
}

#[test]
fn the_value_of_a_search_of_depth_none_is_the_score() {
    let mut board = BitBoard::new();
    board.set(0, 0, Tile::Black);
    let mut e = Evaluator::new();
    assert_eq!(
        alphabeta(&mut e, &board, Turn::Black, 0, i32::MIN, i32::MAX, None),
        (50, Move::Pass)
    );
    let mut e = Evaluator::new();
    assert_eq!(
        alphabeta(&mut e, &board, Turn::White, 0, i32::MIN, i32::MAX, Some(Move::Put { x: 1, y: 1 })),
        (-50, Move::Put { x: 1, y: 1 })
    );
}

#[test]
fn the_value_of_a_search_of_one_move() {
    // Black to move takes the greatest score, White the least.
    let mut board = empty_board();
    board.set(1, 0, Tile::White);
    board.set(2, 0, Tile::Black);
    board.set(4, 3, Tile::White);
    board.set(5, 3, Tile::Black);
    let mut best = i32::MIN;
    for mv in othello::strategy::util::list_legal(&board, Turn::Black) {
        let mut next = board;
        assert_eq!(next.apply_move(mv), Ok(()));
        let mut e = Evaluator::new();
        let v = e.evaluate(&next);
        if v > best {
            best = v;
        }
    }
    let mut e = Evaluator::new();
    let (value, mv) = alphabeta(&mut e, &board, Turn::Black, 1, i32::MIN, i32::MAX, None);
    assert_eq!(mv, Move::Put { x: 0, y: 0 });
    assert_eq!(value, best);
}
