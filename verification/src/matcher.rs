//! Games that two players play against each other, and the record that is
//! kept of them.

use vstd::prelude::*;
use crate::board::{Board, Move, MoveError, Tile, Turn, make_board};
use crate::chance::coin;
use crate::rules::{
    Position, count_tiles, lemma_put_counts, move_ok, opening_cells, play, tile_at,
};
use crate::strategy::Strategy;

verus! {

/// A game that has been played to its end.
pub struct MatchResult {
    /// The moves in the order in which they were played, Black's first.
    pub moves: Vec<Move>,
    /// The number of black discs at the end.
    pub black: u32,
    /// The number of white discs at the end.
    pub white: u32,
}

/// The position at the start of a game.
pub open spec fn opening() -> Position {
    Position { cells: opening_cells(), turn: Turn::Black }
}

/// The position that the first `n` of the moves lead to from `pos`, if
/// they all are within the rules.
pub open spec fn replay(pos: Position, moves: Seq<Move>, n: int) -> Option<Position>
    decreases n,
{
    if n <= 0 {
        Some(pos)
    } else {
        match replay(pos, moves, n - 1) {
            Some(p) => if move_ok(p, moves[n - 1]) {
                Some(play(p, moves[n - 1]))
            } else {
                None
            },
            None => None,
        }
    }
}

/// Whether the moves are a whole game: they follow the rules from the
/// opening on, and the game has ended with the first pass of each side in
/// a row.
pub open spec fn whole_game(moves: Seq<Move>) -> bool {
    &&& moves.len() >= 2
    &&& replay(opening(), moves, moves.len() as int) is Some
    &&& moves[moves.len() - 1] == Move::Pass
    &&& moves[moves.len() - 2] == Move::Pass
    &&& forall|i: int|
        0 <= i < moves.len() - 2 ==> !(#[trigger] moves[i] == Move::Pass && moves[i + 1]
            == Move::Pass)
}

/// The time that a player is told it has left for a game against itself.
pub const MATCH_TIME: i32 = 60000;

/// The move before the one of index `n`, if there is one.
pub open spec fn last_of(moves: Seq<Move>, n: int) -> Option<Move> {
    if 0 < n <= moves.len() {
        Some(moves[n - 1])
    } else {
        None
    }
}

/// Whether the move of index `i` is the move of a player in its turn.
/// `seats` tells for every number of moves made who is to move next and
/// who is the other player. The player to move may play the move in the
/// position that the moves before it lead to; after it the players have
/// changed places.
pub open spec fn turn_ok<S: Strategy>(moves: Seq<Move>, seats: Seq<(S, S)>, i: int) -> bool {
    &&& replay(opening(), moves, i) is Some
    &&& seats[i].0.may_play(
        replay(opening(), moves, i)->0,
        last_of(moves, i),
        MATCH_TIME,
        moves[i],
        seats[i + 1].1,
    )
    &&& seats[i + 1].0 == seats[i].1
}

/// Whether the moves are the moves of a game between the players `a0`, who
/// has Black, and `b0`, with `seats` for who is to move and who is the
/// other before the first move and after each move.
pub open spec fn played<S: Strategy>(a0: S, b0: S, moves: Seq<Move>, seats: Seq<(S, S)>) -> bool {
    &&& seats.len() == moves.len() + 1
    &&& seats[0] == (a0, b0)
    &&& forall|i: int| 0 <= i < moves.len() ==> #[trigger] turn_ok(moves, seats, i)
}

/// The error that a move which the rules do not allow is refused with.
pub open spec fn refusal(pos: Position, mv: Move) -> MoveError {
    if mv matches Move::Put { x, y } && tile_at(pos.cells, x as int, y as int) != Tile::Empty {
        MoveError::AlreadyOccupied
    } else {
        MoveError::NoCaptures
    }
}

/// Whether a game has ended as `r` says after the moves `moves`, which have
/// left `a` as the player to move. A game that has ended well is a whole
/// game, with its moves and the numbers of discs at its end. A game has
/// ended with an error where the player to move may play a move that the
/// rules do not allow; the error says why they do not.
pub open spec fn ended<S: Strategy>(
    moves: Seq<Move>,
    a: S,
    r: Result<MatchResult, MoveError>,
) -> bool {
    &&& replay(opening(), moves, moves.len() as int) is Some
    &&& match r {
        Ok(res) => {
            &&& res.moves@ == moves
            &&& whole_game(moves)
            &&& res.black == count_tiles(
                replay(opening(), moves, moves.len() as int)->0.cells,
                Tile::Black,
            )
            &&& res.white == count_tiles(
                replay(opening(), moves, moves.len() as int)->0.cells,
                Tile::White,
            )
        },
        Err(e) => exists|mv: Move, after: S| #[trigger]
            a.may_play(
                replay(opening(), moves, moves.len() as int)->0,
                last_of(moves, moves.len() as int),
                MATCH_TIME,
                mv,
                after,
            ) && !move_ok(replay(opening(), moves, moves.len() as int)->0, mv) && e == refusal(
                replay(opening(), moves, moves.len() as int)->0,
                mv,
            ),
    }
}

/// Whether `r` is how a game between the players `black` and `white` may
/// end: both get ready for the game, then they move in turn from the
/// opening on, each as it may play, until both pass or one of them makes a
/// move that the rules do not allow.
pub open spec fn match_of<S: Strategy>(
    black: S,
    white: S,
    r: Result<MatchResult, MoveError>,
) -> bool {
    exists|a0: S, b0: S, moves: Seq<Move>, seats: Seq<(S, S)>|
        black.may_reset(a0) && white.may_reset(b0) && #[trigger] played(a0, b0, moves, seats)
            && ended(moves, seats[moves.len() as int].0, r)
}

/// Plays a game between two players, the first of which has Black, until
/// both pass. An error comes back as soon as a player puts a disc where
/// the rules do not allow it; the game that comes back else is a whole
/// game with the numbers of discs at its end. See [`match_of`].
pub fn play_match<S: Strategy>(black: S, white: S) -> (r: Result<MatchResult, MoveError>)
    ensures
        match_of(black, white, r),
{
    let mut board = make_board();
    let mut turnplayer = black;
    let mut opponent = white;
    turnplayer.reset();
    opponent.reset();
    let ghost a0 = turnplayer;
    let ghost b0 = opponent;
    let ghost mut seats: Seq<(S, S)> = seq![(a0, b0)];
    let mut last_move: Option<Move> = None;
    let mut pass_count: u8 = 0;
    let mut moves: Vec<Move> = Vec::new();
    proof {
        board.lemma_cells();
    }
    while pass_count < 2
        invariant
            pass_count <= 2,
            board@.cells.len() == 64,
            last_move == last_of(moves@, moves.len() as int),
            forall|i: int| 0 <= i < moves.len() ==> (#[trigger] moves[i]).on_board(),
            replay(opening(), moves@, moves.len() as int) == Some(board@),
            played(a0, b0, moves@, seats),
            seats[moves.len() as int] == (turnplayer, opponent),
            black.may_reset(a0),
            white.may_reset(b0),
            pass_count >= 1 ==> moves.len() >= 1 && moves[moves.len() - 1] == Move::Pass,
            pass_count >= 2 ==> moves.len() >= 2 && moves[moves.len() - 2] == Move::Pass,
            pass_count == 0 ==> moves.len() == 0 || moves[moves.len() - 1] != Move::Pass,
            forall|i: int|
                0 <= i < moves.len() - 1 && i != moves.len() - pass_count ==> !(
                #[trigger] moves[i] == Move::Pass && moves[i + 1] == Move::Pass),
        decreases count_tiles(board@.cells, Tile::Empty), 2 - pass_count,
    {
        let ghost mover = turnplayer;
        let mv = turnplayer.play(&board, last_move, MATCH_TIME);
        let ghost before = board@;
        let ghost so_far = moves@;
        match board.apply_move(mv) {
            Ok(()) => {},
            Err(e) => {
                proof {
                    assert(mover.may_play(
                        before,
                        last_of(so_far, so_far.len() as int),
                        MATCH_TIME,
                        mv,
                        turnplayer,
                    ));
                    assert(ended(so_far, mover, Err::<MatchResult, MoveError>(e)));
                }
                return Err(e);
            },
        }
        if mv == Move::Pass {
            pass_count += 1;
        } else {
            pass_count = 0;
            proof {
                lemma_put_counts(before.cells, before.turn, mv->x as int, mv->y as int);
            }
        }
        moves.push(mv);
        proof {
            board.lemma_cells();
            let n = so_far.len() as int;
            let older = seats;
            seats = seats.push((opponent, turnplayer));
            lemma_replay_prefix(opening(), so_far, moves@, n);
            assert(board@ == play(before, mv));
            assert forall|i: int| 0 <= i < moves.len() implies #[trigger] turn_ok(
                moves@,
                seats,
                i,
            ) by {
                if i < n {
                    assert(turn_ok(so_far, older, i));
                    lemma_replay_prefix(opening(), so_far, moves@, i);
                    assert(last_of(moves@, i) == last_of(so_far, i));
                    assert(seats[i] == older[i] && seats[i + 1] == older[i + 1]);
                } else {
                    assert(last_of(moves@, n) == last_of(so_far, n));
                    assert(seats[n] == (mover, opponent));
                }
            }
        }
        last_move = Some(mv);
        core::mem::swap(&mut turnplayer, &mut opponent);
    }
    let black_count = board.count(Tile::Black);
    let white_count = board.count(Tile::White);
    let r = Ok(MatchResult { moves, black: black_count, white: white_count });
    proof {
        assert(ended(r->Ok_0.moves@, turnplayer, r));
    }
    r
}

/// What the first moves lead to does not depend on the moves after them.
pub proof fn lemma_replay_prefix(pos: Position, a: Seq<Move>, b: Seq<Move>, n: int)
    requires
        0 <= n <= a.len() <= b.len(),
        forall|i: int| 0 <= i < n ==> a[i] == b[i],
    ensures
        replay(pos, a, n) == replay(pos, b, n),
    decreases n,
{
    if n > 0 {
        lemma_replay_prefix(pos, a, b, n - 1);
    }
}

/// A game between players that only ever play what the rules allow ends
/// well.
pub proof fn lemma_fair_match<S: Strategy>(black: S, white: S, r: Result<MatchResult, MoveError>)
    requires
        forall|s: S, pos: Position, last_move: Option<Move>, time: i32, mv: Move, after: S|
            #[trigger] s.may_play(pos, last_move, time, mv, after) ==> move_ok(pos, mv),
        match_of(black, white, r),
    ensures
        r is Ok,
{
}

/// Plays a game between two players; which of them has Black is drawn by
/// chance. See [`play_match`].
pub fn do_match<S: Strategy>(strategy1: S, strategy2: S) -> (r: Result<MatchResult, MoveError>)
    ensures
        match_of(strategy1, strategy2, r) || match_of(strategy2, strategy1, r),
{
    if coin() {
        play_match(strategy2, strategy1)
    } else {
        play_match(strategy1, strategy2)
    }
}

/// The byte that a move is recorded as: the column in the high half and
/// the row in the low, and one byte of its own for a pass.
pub open spec fn record_byte(mv: Move) -> u8 {
    match mv {
        Move::Pass => 0x88u8,
        Move::Put { x, y } => (x * 16 + y) as u8,
    }
}

/// The 64 bytes that a game is recorded as: the bytes of up to sixty moves,
/// filled up to 62 bytes with one that stands for no move, and the numbers
/// of black and of white discs at the end.
pub open spec fn record(moves: Seq<Move>, black: u32, white: u32) -> Seq<u8> {
    Seq::new(
        64,
        |i: int|
            if i < 60 && i < moves.len() {
                record_byte(moves[i])
            } else if i < 62 {
                0xffu8
            } else if i == 62 {
                (black % 256) as u8
            } else {
                (white % 256) as u8
            },
    )
}

/// The bytes that a game is recorded as; see [`record`].
pub fn encode_record(moves: &Vec<Move>, black: u32, white: u32) -> (buf: Vec<u8>)
    requires
        forall|i: int| 0 <= i < moves.len() ==> (#[trigger] moves[i]).on_board(),
    ensures
        buf@ == record(moves@, black, white),
{
    let mut buf: Vec<u8> = Vec::with_capacity(64);
    let mut i: usize = 0;
    while i < 60 && i < moves.len()
        invariant
            i <= 60,
            i <= moves.len(),
            buf.len() == i,
            forall|j: int| 0 <= j < moves.len() ==> (#[trigger] moves[j]).on_board(),
            forall|j: int| 0 <= j < i ==> #[trigger] buf[j] == record(moves@, black, white)[j],
        decreases 60 - i,
    {
        match moves[i] {
            Move::Pass => {
                buf.push(0x88);
            },
            Move::Put { x, y } => {
                buf.push(x * 16 + y);
            },
        }
        i += 1;
    }
    while i < 62
        invariant
            i <= 62,
            i >= 60 || i >= moves.len(),
            buf.len() == i,
            forall|j: int| 0 <= j < i ==> #[trigger] buf[j] == record(moves@, black, white)[j],
        decreases 62 - i,
    {
        buf.push(0xff);
        i += 1;
    }
    buf.push((black % 256) as u8);
    buf.push((white % 256) as u8);
    assert(buf@ =~= record(moves@, black, white));
    buf
}

} // verus!
