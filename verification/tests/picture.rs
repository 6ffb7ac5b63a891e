use othello::board::{BitBoard, Board, Move, Tile, VecBoard};
use othello::picture::{digit_text, push_decimal, tile_text};

#[test]
fn moves_in_words() {
    assert_eq!(Move::Pass.to_string(), "Pass");
    assert_eq!(Move::Put { x: 2, y: 3 }.to_string(), "Put (2, 3)");
    assert_eq!(Move::Put { x: 0, y: 7 }.to_string(), "Put (0, 7)");
    assert_eq!(Move::Put { x: 10, y: 255 }.to_string(), "Put (10, 255)");
    assert_eq!(Move::Put { x: 100, y: 99 }.to_string(), "Put (100, 99)");
}

#[test]
fn numbers_in_digits() {
    for n in 0..=255u8 {
        let mut s = String::from("n=");
        push_decimal(&mut s, n);
        assert_eq!(s, format!("n={}", n));
    }
    assert_eq!(digit_text(0), "0");
    assert_eq!(digit_text(9), "9");
    assert_eq!(tile_text(Tile::Empty), " ");
    assert_eq!(tile_text(Tile::Black), "x");
    assert_eq!(tile_text(Tile::White), "o");
}

#[test]
fn the_picture_of_the_opening() {
    let expected = "  A B C D E F G H\n\
                    1  | | | | | | | \n --+-+-+-+-+-+-+-\n\
                    2  | | | | | | | \n --+-+-+-+-+-+-+-\n\
                    3  | | | | | | | \n --+-+-+-+-+-+-+-\n\
                    4  | | |o|x| | | \n --+-+-+-+-+-+-+-\n\
                    5  | | |x|o| | | \n --+-+-+-+-+-+-+-\n\
                    6  | | | | | | | \n --+-+-+-+-+-+-+-\n\
                    7  | | | | | | | \n --+-+-+-+-+-+-+-\n\
                    8  | | | | | | | \n";
    assert_eq!(BitBoard::new().pretty_print(), expected);
    assert_eq!(VecBoard::new().pretty_print(), expected);
}

#[test]
fn the_picture_of_a_board_with_discs_on_its_edges() {
    let mut board = BitBoard::new();
    board.set(0, 0, Tile::Black);
    board.set(7, 0, Tile::White);
    board.set(0, 7, Tile::White);
    board.set(7, 7, Tile::Black);
    let text = board.pretty_print();
    let lines: Vec<&str> = text.split('\n').collect();
    assert_eq!(lines.len(), 17);
    assert_eq!(lines[0], "  A B C D E F G H");
    assert_eq!(lines[1], "1 x| | | | | | |o");
    assert_eq!(lines[2], " --+-+-+-+-+-+-+-");
    assert_eq!(lines[15], "8 o| | | | | | |x");
    assert_eq!(lines[16], "");
}
