use othello::board::{BitBoard, Board, Move, Tile};
use othello::matcher::{do_match, encode_record, play_match, MatchResult};
use othello::options::Opts;
use othello::strategy::{make_learner, RandomStrategy};

fn replay(res: &MatchResult) {
    let mut board = BitBoard::new();
    for mv in res.moves.iter() {
        assert_eq!(board.apply_move(*mv), Ok(()));
    }
    assert_eq!(board.count(Tile::Black), res.black);
    assert_eq!(board.count(Tile::White), res.white);
    let n = res.moves.len();
    assert!(n >= 2);
    assert_eq!(res.moves[n - 1], Move::Pass);
    assert_eq!(res.moves[n - 2], Move::Pass);
    // Before the end no two passes follow one another.
    for i in 0..n - 2 {
        assert!(res.moves[i] != Move::Pass || res.moves[i + 1] != Move::Pass);
    }
    assert!(res.black + res.white <= 64);
    assert!(res.black + res.white > 4);
}

#[test]
fn a_game_of_moves_by_chance() {
    for _ in 0..5 {
        let res = play_match(RandomStrategy::new(), RandomStrategy::new()).unwrap();
        replay(&res);
        let res = do_match(RandomStrategy::new(), RandomStrategy::new()).unwrap();
        replay(&res);
    }
}

#[test]
fn a_game_of_learners() {
    let opts = Opts {
        port: 3000,
        host: String::from("localhost"),
        name: String::from("client"),
        ending_turns: 6,
        ending_opt: true,
        depth: 1,
        selfmatch: true,
    };
    let res = do_match(make_learner(&opts, vec![]), make_learner(&opts, vec![])).unwrap();
    replay(&res);
    let bytes = encode_record(&res.moves, res.black, res.white);
    assert_eq!(bytes.len(), 64);
    assert_eq!(bytes[62] as u32, res.black);
    assert_eq!(bytes[63] as u32, res.white);
}

#[test]
fn the_record_of_a_game() {
    let moves = vec![
        Move::Put { x: 2, y: 3 },
        Move::Put { x: 2, y: 2 },
        Move::Pass,
        Move::Put { x: 7, y: 7 },
        Move::Put { x: 0, y: 0 },
    ];
    let bytes = encode_record(&moves, 40, 24);
    let mut expected = vec![0x23u8, 0x22, 0x88, 0x77, 0x00];
    expected.resize(62, 0xff);
    expected.push(40);
    expected.push(24);
    assert_eq!(bytes, expected);
}

#[test]
fn the_record_of_no_moves_and_of_too_many() {
    let bytes = encode_record(&vec![], 2, 2);
    let mut expected = vec![0xffu8; 62];
    expected.push(2);
    expected.push(2);
    assert_eq!(bytes, expected);

    let moves: Vec<Move> = (0..70u8).map(|i| Move::Put { x: i % 8, y: (i / 8) % 8 }).collect();
    let bytes = encode_record(&moves, 64, 0);
    assert_eq!(bytes.len(), 64);
    for i in 0..60usize {
        assert_eq!(bytes[i], ((i % 8) * 16 + (i / 8) % 8) as u8);
    }
    assert_eq!(bytes[60], 0xff);
    assert_eq!(bytes[61], 0xff);
    assert_eq!(bytes[62], 64);
    assert_eq!(bytes[63], 0);
    // Sixty moves fill the room for moves exactly.
    let bytes = encode_record(&moves[..60].to_vec(), 300, 257);
    assert_eq!(bytes[59], (3 * 16 + 7) as u8);
    assert_eq!(bytes[60], 0xff);
    assert_eq!(bytes[62], 44);
    assert_eq!(bytes[63], 1);
}
