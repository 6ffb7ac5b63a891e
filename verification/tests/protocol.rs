use othello::board::Move;
use othello::protocol::{parse_move, serialize_move};

#[test]
fn moves_as_text() {
    assert_eq!(serialize_move(Move::Pass), "PASS");
    assert_eq!(serialize_move(Move::Put { x: 0, y: 0 }), "A1");
    assert_eq!(serialize_move(Move::Put { x: 7, y: 7 }), "H8");
    assert_eq!(serialize_move(Move::Put { x: 2, y: 3 }), "C4");
    assert_eq!(serialize_move(Move::Put { x: 5, y: 0 }), "F1");
}

#[test]
fn text_as_moves() {
    assert_eq!(parse_move("PASS"), Some(Move::Pass));
    assert_eq!(parse_move("A1"), Some(Move::Put { x: 0, y: 0 }));
    assert_eq!(parse_move("H8"), Some(Move::Put { x: 7, y: 7 }));
    assert_eq!(parse_move("C4"), Some(Move::Put { x: 2, y: 3 }));
    assert_eq!(parse_move("C4 and more"), Some(Move::Put { x: 2, y: 3 }));
    assert_eq!(parse_move(""), None);
    assert_eq!(parse_move("C"), None);
    assert_eq!(parse_move("I1"), None);
    assert_eq!(parse_move("A9"), None);
    assert_eq!(parse_move("A0"), None);
    assert_eq!(parse_move("@1"), None);
    assert_eq!(parse_move("a1"), None);
    assert_eq!(parse_move("1A"), None);
    assert_eq!(parse_move("PASSX"), None);
    assert_eq!(parse_move("pass"), None);
    assert_eq!(parse_move("\u{141}1"), None);
}

#[test]
fn every_move_is_read_as_it_was_written() {
    assert_eq!(parse_move(&serialize_move(Move::Pass)), Some(Move::Pass));
    for x in 0..8u8 {
        for y in 0..8u8 {
            let mv = Move::Put { x, y };
            let text = serialize_move(mv);
            assert_eq!(text.len(), 2);
            assert_eq!(parse_move(&text), Some(mv));
        }
    }
}
