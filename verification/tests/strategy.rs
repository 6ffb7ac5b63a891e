use othello::board::{BitBoard, Board, Move, Tile, Turn, VecBoard};
use othello::options::Opts;
use othello::strategy::util::{list_legal, putable};
use othello::strategy::{
    make_learner, make_strategy, MainStrategy, MainStrategyState, RandomStrategy,
    SometimesRandomStrategy, Strategy,
};

fn settings(depth: u32, ending_turns: u32) -> Opts {
    Opts {
        port: 3000,
        host: String::from("localhost"),
        name: String::from("client"),
        ending_turns,
        ending_opt: false,
        depth,
        selfmatch: false,
    }
}

fn book_of(records: &[(u8, f64, u64)]) -> Vec<u8> {
    let mut v = Vec::new();
    v.extend_from_slice(&(records.len() as u64).to_be_bytes());
    for &(mv, score, next) in records {
        v.extend_from_slice(&[0u8; 7]);
        v.push(mv);
        v.extend_from_slice(&score.to_bits().to_be_bytes());
        v.extend_from_slice(&next.to_be_bytes());
    }
    v
}

// C4, then C3 for White, then D3 for Black; nothing after that.
fn line_book() -> Vec<u8> {
    let b1 = 32u64;
    let b2 = 64u64;
    let mut v = book_of(&[(0x23, 0.0, b1)]);
    v.extend(book_of(&[(0x22, 0.0, b2)]));
    v.extend(book_of(&[(0x32, 0.0, 0)]));
    v
}

fn nearly_full_board(empties: u32) -> BitBoard {
    let mut board = BitBoard::new();
    let mut n = 0usize;
    let mut passes = 0;
    while board.count(Tile::Empty) > empties && passes < 2 {
        let moves = othello::strategy::util::list_moves(&board);
        let mv = moves[(n * 7 + 2) % moves.len()];
        if mv == Move::Pass {
            passes += 1;
        } else {
            passes = 0;
        }
        board.apply_move(mv).unwrap();
        n += 1;
    }
    board
}

#[test]
fn a_move_by_chance_is_a_legal_move() {
    let board = BitBoard::new();
    let mut first = None;
    let mut differ = false;
    for _ in 0..40 {
        let mut s = RandomStrategy::new();
        let mv = s.play(&board, None, 1000);
        match mv {
            Move::Put { x, y } => assert!(putable(&board, x, y, Turn::Black)),
            Move::Pass => panic!("there are moves"),
        }
        // The same player plays the same move in the same position.
        assert_eq!(s.play(&board, None, 1000), mv);
        match first {
            None => first = Some(mv),
            Some(f) => differ = differ || f != mv,
        }
    }
    // The order of the cells is drawn by chance: not every player plays the same.
    assert!(differ);
}

#[test]
fn a_move_by_chance_is_a_pass_where_no_disc_can_be_put() {
    let mut board = VecBoard::new();
    for y in 0..8u8 {
        for x in 0..8u8 {
            board.set(x, y, Tile::Black);
        }
    }
    let mut s = RandomStrategy::new();
    assert_eq!(s.play(&board, None, 0), Move::Pass);
    board.set(0, 0, Tile::Empty);
    assert_eq!(s.play(&board, Some(Move::Pass), 0), Move::Pass);
    board.set(1, 0, Tile::White);
    s.reset();
    s.go(&board, None, Move::Pass);
    assert_eq!(s.play(&board, Some(Move::Pass), 0), Move::Put { x: 0, y: 0 });
}

#[test]
fn without_a_book_the_player_searches() {
    let mut s = make_strategy(&settings(1, 12), vec![]);
    assert_eq!(s.current_state(), MainStrategyState::Book);
    assert_eq!(s.play(&BitBoard::new(), None, 1000), Move::Put { x: 3, y: 2 });
    assert_eq!(s.current_state(), MainStrategyState::Search);
    assert_eq!(s.play(&BitBoard::new(), None, 1000), Move::Put { x: 3, y: 2 });
    s.reset();
    assert_eq!(s.current_state(), MainStrategyState::Book);
}

#[test]
fn the_player_goes_by_the_book_while_it_lasts() {
    // As Black: the first move, then the reply to White's reply.
    let mut s = MainStrategy::new(&settings(1, 12), line_book());
    let mut board = BitBoard::new();
    let mv = s.play(&board, None, 1000);
    assert_eq!(mv, Move::Put { x: 2, y: 3 });
    assert_eq!(s.current_state(), MainStrategyState::Book);
    board.apply_move(mv).unwrap();
    let reply = Move::Put { x: 2, y: 2 };
    board.apply_move(reply).unwrap();
    let mv = s.play(&board, Some(reply), 1000);
    assert_eq!(mv, Move::Put { x: 3, y: 2 });
    // The book ends with that move.
    assert_eq!(s.current_state(), MainStrategyState::Search);
    board.apply_move(mv).unwrap();
    // From here on the moves are the search's.
    let reply = list_legal(&board, Turn::White)[0];
    board.apply_move(reply).unwrap();
    let mv = s.play(&board, Some(reply), 1000);
    assert_eq!(board.apply_move(mv), Ok(()));
    assert_eq!(s.current_state(), MainStrategyState::Search);
}

#[test]
fn the_player_for_white_goes_by_the_book_too() {
    let mut s = make_strategy(&settings(1, 12), line_book());
    let mut board = BitBoard::new();
    let first = Move::Put { x: 2, y: 3 };
    board.apply_move(first).unwrap();
    let mv = s.play(&board, Some(first), 1000);
    assert_eq!(mv, Move::Put { x: 2, y: 2 });
    assert_eq!(s.current_state(), MainStrategyState::Book);
    // A move that the book does not hold: the player searches.
    board.apply_move(mv).unwrap();
    let other = Move::Put { x: 1, y: 1 };
    assert_ne!(other, Move::Put { x: 3, y: 2 });
    let mut again = board;
    if again.apply_move(other).is_ok() {
        let mv = s.play(&again, Some(other), 1000);
        assert_eq!(s.current_state(), MainStrategyState::Search);
        assert_eq!(again.apply_move(mv), Ok(()));
    }
}

#[test]
fn the_book_is_left_behind_when_moves_are_noted_that_it_does_not_hold() {
    let board = BitBoard::new();
    let mut s = make_strategy(&settings(1, 12), line_book());
    s.go(&board, None, Move::Put { x: 2, y: 3 });
    assert_eq!(s.current_state(), MainStrategyState::Book);
    s.go(&board, Some(Move::Put { x: 2, y: 2 }), Move::Put { x: 3, y: 2 });
    assert_eq!(s.current_state(), MainStrategyState::Search);
    let mut s = make_strategy(&settings(1, 12), line_book());
    s.go(&board, None, Move::Put { x: 5, y: 4 });
    s.go(&board, Some(Move::Put { x: 0, y: 0 }), Move::Put { x: 1, y: 1 });
    assert_eq!(s.current_state(), MainStrategyState::Search);
    s.go(&board, Some(Move::Put { x: 0, y: 0 }), Move::Put { x: 1, y: 1 });
    assert_eq!(s.current_state(), MainStrategyState::Search);
}

#[test]
fn with_few_cells_left_the_game_is_read_out() {
    let board = nearly_full_board(6);
    assert!(board.count(Tile::Empty) <= 6);
    let mut s = make_strategy(&settings(1, 12), vec![]);
    let mv = s.play(&board, Some(Move::Pass), 1000);
    assert_eq!(s.current_state(), MainStrategyState::Ending);
    let mut next = board;
    assert_eq!(next.apply_move(mv), Ok(()));
    // Without a move before, the game is read out all the same.
    let mut s = make_strategy(&settings(1, 12), vec![]);
    assert_eq!(s.play(&board, None, 1000), mv);
    assert_eq!(s.current_state(), MainStrategyState::Ending);
    // The player stays with the read-out.
    let reply = othello::strategy::util::list_moves(&next)[0];
    next.apply_move(reply).unwrap();
    let mv = s.play(&next, Some(reply), 1000);
    assert_eq!(next.apply_move(mv), Ok(()));
    assert_eq!(s.current_state(), MainStrategyState::Ending);
    s.go(&next, Some(Move::Pass), Move::Pass);
    assert_eq!(s.current_state(), MainStrategyState::Ending);
}

#[test]
fn the_setting_says_when_the_read_out_begins() {
    let board = nearly_full_board(6);
    let discs = board.count_both();
    // One cell more would have to be empty: the player still searches.
    let mut s = make_strategy(&settings(1, 64 - discs - 1), vec![]);
    let mv = s.play(&board, Some(Move::Pass), 1000);
    assert_eq!(s.current_state(), MainStrategyState::Search);
    let mut next = board;
    assert_eq!(next.apply_move(mv), Ok(()));
    let mut s = make_strategy(&settings(1, 64 - discs), vec![]);
    s.play(&board, Some(Move::Pass), 1000);
    assert_eq!(s.current_state(), MainStrategyState::Ending);
}

#[test]
fn the_learner_plays_by_chance_or_not_as_the_number_says() {
    let board = BitBoard::new();
    // In the opening a number below 25 means a move by chance.
    let mut differ = false;
    for _ in 0..40 {
        let mut s = make_learner(&settings(1, 12), line_book());
        let mv = s.play_with(24, &board, None, 1000);
        let mut next = board;
        assert_eq!(next.apply_move(mv), Ok(()));
        differ = differ || mv != Move::Put { x: 2, y: 3 };
    }
    assert!(differ);
    for draw in [25, 60, 99] {
        let mut s = SometimesRandomStrategy::new(&settings(1, 12), line_book());
        assert_eq!(s.play_with(draw, &board, None, 1000), Move::Put { x: 2, y: 3 });
    }
    // Past the book a number below 9 means a move by chance.
    for draw in [9, 10, 99] {
        let mut s = make_learner(&settings(1, 12), vec![]);
        assert_eq!(s.play_with(99, &board, None, 1000), Move::Put { x: 3, y: 2 });
        assert_eq!(s.play_with(draw, &board, None, 1000), Move::Put { x: 3, y: 2 });
    }
    let mut s = make_learner(&settings(1, 12), vec![]);
    for _ in 0..20 {
        let mv = s.play(&board, None, 1000);
        let mut next = board;
        assert_eq!(next.apply_move(mv), Ok(()));
    }
    s.go(&board, None, Move::Put { x: 2, y: 3 });
    s.reset();
}

#[test]
fn a_move_that_cannot_be_played_has_the_player_play_by_chance() {
    // The book replies to C4 with A1, where White cannot put a disc.
    let mut data = book_of(&[(0x23, 0.0, 32)]);
    data.extend(book_of(&[(0x00, 0.0, 0)]));
    let mut s = make_strategy(&settings(1, 12), data);
    let mut board = BitBoard::new();
    let first = Move::Put { x: 2, y: 3 };
    board.apply_move(first).unwrap();
    let mv = s.play(&board, Some(first), 1000);
    assert_eq!(s.current_state(), MainStrategyState::Random);
    assert_ne!(mv, Move::Put { x: 0, y: 0 });
    assert_eq!(board.apply_move(mv), Ok(()));
    // The player stays with that.
    let reply = list_legal(&board, Turn::Black)[0];
    board.apply_move(reply).unwrap();
    let mv = s.play(&board, Some(reply), 1000);
    assert_eq!(s.current_state(), MainStrategyState::Random);
    assert_eq!(board.apply_move(mv), Ok(()));
    s.go(&board, Some(reply), mv);
    assert_eq!(s.current_state(), MainStrategyState::Random);
    s.reset();
    assert_eq!(s.current_state(), MainStrategyState::Book);

    // A search that looks no move ahead passes, which cannot be played here.
    let mut s = make_strategy(&settings(0, 12), vec![]);
    let board = BitBoard::new();
    let mv = s.play(&board, None, 1000);
    assert_eq!(s.current_state(), MainStrategyState::Random);
    let mut next = board;
    assert_eq!(next.apply_move(mv), Ok(()));
    assert_ne!(mv, Move::Pass);
}

#[test]
fn every_move_of_the_player_can_be_played() {
    for depth in 0..3 {
        let mut black = make_strategy(&settings(depth, 8), line_book());
        let mut white = make_strategy(&settings(depth, 8), vec![]);
        let mut board = BitBoard::new();
        let mut last = None;
        let mut passes = 0;
        while passes < 2 {
            let turn = board.get_turn();
            let mv = if turn == Turn::Black {
                black.play(&board, last, 1000)
            } else {
                white.play(&board, last, 1000)
            };
            let can_put = !list_legal(&board, turn).is_empty();
            assert_eq!(mv == Move::Pass, !can_put);
            assert_eq!(board.apply_move(mv), Ok(()));
            if mv == Move::Pass {
                passes += 1;
            } else {
                passes = 0;
            }
            last = Some(mv);
        }
        assert!(board.count_both() > 10);
    }
}
