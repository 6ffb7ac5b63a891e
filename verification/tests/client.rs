use othello::board::{BitBoard, Board, Move, Tile, Turn};
use othello::client::{
    greeting_from, number, opposing_from, read_line, replying_from, same_text, Action, Command,
    Phase, Session,
};
use othello::strategy::RandomStrategy;

fn caps(groups: &[Option<&str>]) -> Option<Vec<Option<String>>> {
    Some(groups.iter().map(|g| g.map(String::from)).collect())
}

#[test]
fn numbers_are_read() {
    assert_eq!(number("0"), Some(0));
    assert_eq!(number("7"), Some(7));
    assert_eq!(number("60000"), Some(60000));
    assert_eq!(number("-1"), Some(-1));
    assert_eq!(number("-0"), Some(0));
    assert_eq!(number("007"), Some(7));
    assert_eq!(number("2147483647"), Some(i32::MAX));
    assert_eq!(number("-2147483648"), Some(i32::MIN));
    assert_eq!(number("2147483648"), None);
    assert_eq!(number("-2147483649"), None);
    assert_eq!(number("99999999999999999999999"), None);
    assert_eq!(number(""), None);
    assert_eq!(number("-"), None);
    assert_eq!(number("+5"), None);
    assert_eq!(number("12a"), None);
    assert_eq!(number("1 2"), None);
    assert_eq!(number("--1"), None);
    assert_eq!(number("\u{0663}"), None);
}

#[test]
fn texts_are_compared() {
    assert!(same_text("BLACK", "BLACK"));
    assert!(same_text("", ""));
    assert!(!same_text("BLACK", "WHITE"));
    assert!(!same_text("BLACK", "BLACKS"));
    assert!(!same_text("BLAC", "BLACK"));
}

#[test]
fn the_lines_of_the_server() {
    assert_eq!(read_line(Phase::Waiting, "BYE\n"), Command::Bye);
    assert_eq!(read_line(Phase::Waiting, "BYE"), Command::Bye);
    assert_eq!(read_line(Phase::Waiting, "BYE now"), Command::Bye);
    assert_eq!(read_line(Phase::Waiting, "BYEBYE"), Command::Invalid);
    assert_eq!(
        read_line(Phase::Waiting, "START BLACK someone 60000\n"),
        Command::Start { color: Turn::Black, time: 60000 }
    );
    assert_eq!(
        read_line(Phase::Waiting, "START WHITE x 5 and more"),
        Command::Start { color: Turn::White, time: 5 }
    );
    assert_eq!(read_line(Phase::Waiting, "START GREEN someone 60000\n"), Command::Invalid);
    assert_eq!(read_line(Phase::Waiting, "START BLACK 60000\n"), Command::Invalid);
    assert_eq!(read_line(Phase::Waiting, "START BLACK a 99999999999\n"), Command::Invalid);
    assert_eq!(read_line(Phase::Waiting, " START BLACK a 1\n"), Command::Invalid);
    assert_eq!(read_line(Phase::Waiting, "MOVE A1\n"), Command::Invalid);
    assert_eq!(read_line(Phase::Waiting, "\n"), Command::Invalid);

    assert_eq!(read_line(Phase::Listening, "MOVE C4\n"), Command::Moved(Move::Put { x: 2, y: 3 }));
    assert_eq!(read_line(Phase::Listening, "MOVE H8"), Command::Moved(Move::Put { x: 7, y: 7 }));
    assert_eq!(read_line(Phase::Listening, "MOVE PASS\n"), Command::Moved(Move::Pass));
    assert_eq!(read_line(Phase::Listening, "MOVE I1\n"), Command::Invalid);
    assert_eq!(read_line(Phase::Listening, "MOVE A9\n"), Command::Invalid);
    assert_eq!(read_line(Phase::Listening, "MOVE\n"), Command::Invalid);
    assert_eq!(read_line(Phase::Listening, "END WIN 40 24 well played\n"), Command::End);
    assert_eq!(read_line(Phase::Listening, "END lose 1 63\n"), Command::End);
    assert_eq!(read_line(Phase::Listening, "END Tie 32 32"), Command::End);
    assert_eq!(read_line(Phase::Listening, "END WON 40 24\n"), Command::Invalid);
    assert_eq!(read_line(Phase::Listening, "END WIN 40\n"), Command::Invalid);
    assert_eq!(read_line(Phase::Listening, "ACK 10\n"), Command::Invalid);
    assert_eq!(read_line(Phase::Listening, "BYE\n"), Command::Invalid);

    assert_eq!(read_line(Phase::Replying, "ACK 59000\n"), Command::Ack(59000));
    assert_eq!(read_line(Phase::Replying, "ACK -20\n"), Command::Ack(-20));
    assert_eq!(read_line(Phase::Replying, "ACK\n"), Command::Invalid);
    assert_eq!(read_line(Phase::Replying, "ACK 99999999999\n"), Command::Invalid);
    assert_eq!(read_line(Phase::Replying, "END WIN 40 24\n"), Command::End);
    assert_eq!(read_line(Phase::Replying, "MOVE C4\n"), Command::Invalid);

    assert_eq!(read_line(Phase::Closed, "BYE\n"), Command::Invalid);
    assert_eq!(read_line(Phase::Closed, "START BLACK a 1\n"), Command::Invalid);
}

#[test]
fn what_the_patterns_find_is_read() {
    assert_eq!(greeting_from(caps(&[Some("BYE")]), None), Command::Bye);
    assert_eq!(
        greeting_from(caps(&[Some("BYE")]), caps(&[None, Some("BLACK"), Some("a"), Some("1")])),
        Command::Bye
    );
    assert_eq!(
        greeting_from(None, caps(&[None, Some("BLACK"), Some("a"), Some("12")])),
        Command::Start { color: Turn::Black, time: 12 }
    );
    assert_eq!(
        greeting_from(None, caps(&[None, Some("WHITE"), None, Some("12")])),
        Command::Start { color: Turn::White, time: 12 }
    );
    assert_eq!(
        greeting_from(None, caps(&[None, Some("anything"), Some("a"), Some("0")])),
        Command::Start { color: Turn::White, time: 0 }
    );
    assert_eq!(greeting_from(None, caps(&[None, Some("BLACK"), Some("a"), None])), Command::Invalid);
    assert_eq!(greeting_from(None, caps(&[None, None, Some("a"), Some("1")])), Command::Invalid);
    assert_eq!(greeting_from(None, caps(&[None, Some("BLACK"), Some("a")])), Command::Invalid);
    assert_eq!(greeting_from(None, caps(&[None, Some("BLACK"), Some("a"), Some("x")])), Command::Invalid);
    assert_eq!(greeting_from(None, caps(&[])), Command::Invalid);
    assert_eq!(greeting_from(None, None), Command::Invalid);

    assert_eq!(opposing_from(caps(&[Some("END")]), None), Command::End);
    assert_eq!(opposing_from(caps(&[]), caps(&[None, Some("C4")])), Command::End);
    assert_eq!(opposing_from(None, caps(&[None, Some("C4")])), Command::Moved(Move::Put { x: 2, y: 3 }));
    assert_eq!(opposing_from(None, caps(&[None, Some("PASS")])), Command::Moved(Move::Pass));
    assert_eq!(opposing_from(None, caps(&[None, Some("Z9")])), Command::Invalid);
    assert_eq!(opposing_from(None, caps(&[None, None])), Command::Invalid);
    assert_eq!(opposing_from(None, caps(&[Some("C4")])), Command::Invalid);
    assert_eq!(opposing_from(None, None), Command::Invalid);

    assert_eq!(replying_from(caps(&[None, Some("15")]), None), Command::Ack(15));
    assert_eq!(replying_from(caps(&[None, Some("-3")]), caps(&[])), Command::Ack(-3));
    assert_eq!(replying_from(caps(&[None, Some("x")]), caps(&[])), Command::Invalid);
    assert_eq!(replying_from(caps(&[None, None]), caps(&[])), Command::Invalid);
    assert_eq!(replying_from(caps(&[]), caps(&[])), Command::Invalid);
    assert_eq!(replying_from(None, caps(&[])), Command::End);
    assert_eq!(replying_from(None, None), Command::Invalid);
}

fn position<B: Board>(board: &B) -> (u64, u64, Turn) {
    let (b, w) = board.bitboard();
    (b, w, board.get_turn())
}

#[test]
fn a_game_as_black() {
    let mut s = Session::new(BitBoard::new(), RandomStrategy::new());
    assert_eq!(s.phase(), Phase::Waiting);
    let action = s.on_line("START BLACK someone 60000\n");
    let mv = match action {
        Action::Send(mv) => mv,
        _ => panic!("the player has the first move"),
    };
    assert_eq!(s.phase(), Phase::Replying);
    let mut board = BitBoard::new();
    assert_eq!(board.apply_move(mv), Ok(()));
    assert_eq!(position(s.board()), position(&board));
    assert_eq!(s.on_line("ACK 59000\n"), Action::Wait);
    assert_eq!(s.phase(), Phase::Listening);
    // The opponent's move, and the player's answer to it.
    let reply = othello::strategy::util::list_legal(&board, Turn::White)[0];
    assert_eq!(board.apply_move(reply), Ok(()));
    let line = format!("MOVE {}\n", othello::protocol::serialize_move(reply));
    let mv = match s.on_line(&line) {
        Action::Send(mv) => mv,
        _ => panic!("the player answers"),
    };
    assert_eq!(board.apply_move(mv), Ok(()));
    assert_eq!(position(s.board()), position(&board));
    assert_eq!(s.phase(), Phase::Replying);
    // The game ends in place of the answer.
    assert_eq!(s.on_line("END WIN 40 24 done\n"), Action::Wait);
    assert_eq!(s.phase(), Phase::Waiting);
    assert_eq!(s.on_line("BYE\n"), Action::Close);
    assert_eq!(s.phase(), Phase::Closed);
    assert_eq!(s.on_line("START BLACK someone 60000\n"), Action::Close);
    assert_eq!(s.phase(), Phase::Closed);
}

#[test]
fn a_game_as_white() {
    let mut s = Session::new(BitBoard::new(), RandomStrategy::new());
    assert_eq!(s.on_line("START WHITE someone 1000\n"), Action::Wait);
    assert_eq!(s.phase(), Phase::Listening);
    let mv = match s.on_line("MOVE C4\n") {
        Action::Send(mv) => mv,
        _ => panic!("the player answers"),
    };
    let mut board = BitBoard::new();
    assert_eq!(board.apply_move(Move::Put { x: 2, y: 3 }), Ok(()));
    assert_eq!(board.apply_move(mv), Ok(()));
    assert_eq!(position(s.board()), position(&board));
    assert_eq!(s.on_line("ACK 900\n"), Action::Wait);
    assert_eq!(s.on_line("END LOSE 10 54\n"), Action::Wait);
    assert_eq!(s.phase(), Phase::Waiting);
    // The next game starts on a fresh board.
    assert_eq!(s.on_line("START WHITE someone 1000\n"), Action::Wait);
    assert_eq!(position(s.board()), position(&BitBoard::new()));
    assert_eq!(s.board().count(Tile::Black), 2);
}

#[test]
fn the_conversation_ends_on_what_is_not_expected() {
    // A move that the rules do not allow.
    let mut s = Session::new(BitBoard::new(), RandomStrategy::new());
    assert_eq!(s.on_line("START WHITE someone 1000\n"), Action::Wait);
    assert_eq!(s.on_line("MOVE A1\n"), Action::Close);
    assert_eq!(s.phase(), Phase::Closed);
    assert_eq!(position(s.board()), position(&BitBoard::new()));
    // A line that is no command, in each phase.
    let mut s = Session::new(BitBoard::new(), RandomStrategy::new());
    assert_eq!(s.on_line("HELLO\n"), Action::Close);
    let mut s = Session::new(BitBoard::new(), RandomStrategy::new());
    assert_eq!(s.on_line("START WHITE someone 1000\n"), Action::Wait);
    assert_eq!(s.on_line("ACK 5\n"), Action::Close);
    let mut s = Session::new(BitBoard::new(), RandomStrategy::new());
    assert!(matches!(s.on_line("START BLACK someone 1000\n"), Action::Send(_)));
    assert_eq!(s.on_line("MOVE C4\n"), Action::Close);
    // Commands that do not come from lines.
    let mut s = Session::new(BitBoard::new(), RandomStrategy::new());
    assert_eq!(s.on_command(Command::Start { color: Turn::White, time: 1 }), Action::Wait);
    assert_eq!(s.on_command(Command::Moved(Move::Put { x: 9, y: 0 })), Action::Close);
    let mut s = Session::new(BitBoard::new(), RandomStrategy::new());
    assert_eq!(s.on_command(Command::Ack(3)), Action::Close);
    assert_eq!(s.on_command(Command::Bye), Action::Close);
}
