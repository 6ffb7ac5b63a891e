//! The conversation with a game server, line by line.
//!
//! The server starts a game with `START`, the colour, the opponent's name
//! and a time; it tells the opponent's moves with `MOVE`, answers the
//! player's own moves with `ACK` and the time that is left, ends a game with
//! `END` and the conversation with `BYE`. What to do on a line depends on
//! what the player is waiting for.

use vstd::prelude::*;
use vstd::string::StrSliceExecFns;
use regex::Regex;
use crate::board::{Board, Move, Turn};
use crate::protocol::{parse_move, text_move};
use crate::rules::{Position, move_ok, opening_cells, play};
use crate::strategy::Strategy;

verus! {

/// What the groups of a pattern match in a text, by the rules of the
/// `regex` crate: nothing where the pattern is not found or is no pattern,
/// and else, for the whole match and for every group in turn, the text that
/// it matched, if it took part in the match.
pub uninterp spec fn regex_captures(pattern: Seq<char>, text: Seq<char>) -> Option<
    Seq<Option<Seq<char>>>,
>;

/// `regex::Regex::new` on the pattern and `Regex::captures` on the text:
/// the texts that the groups matched, as the crate finds them. A pattern
/// that the crate refuses matches nothing.
#[verifier::external_body]
fn captures(pattern: &str, text: &str) -> (r: Option<Vec<Option<String>>>)
    ensures
        r.deep_view() == regex_captures(pattern@, text@),
{
    match Regex::new(pattern) {
        Ok(re) => re.captures(text).map(
            |c| c.iter().map(|m| m.map(|m| m.as_str().to_string())).collect(),
        ),
        Err(_) => None,
    }
}

/// The line that ends the conversation.
pub const BYE: &'static str = "^BYE(?:$|\\s)";

/// The line that starts a game: the colour, the opponent's name, the time.
pub const START: &'static str = "^START (BLACK|WHITE) (\\S+) (\\d+)";

/// The line that ends a game.
pub const END: &'static str = "^END ((?i)WIN|LOSE|TIE) (\\d+) (\\d+)(.*)";

/// The line that tells the opponent's move.
pub const MOVE: &'static str = "^MOVE (PASS|[A-H][1-8])";

/// The line that answers the player's own move: the time that is left.
pub const ACK: &'static str = "^ACK (-?\\d+)";

/// What the server says with a line.
#[derive(Copy, Clone, Debug, PartialEq, Eq, Structural)]
pub enum Command {
    /// The conversation is over.
    Bye,
    /// A game starts; the player has the colour and the time.
    Start { color: Turn, time: i32 },
    /// The game is over.
    End,
    /// The opponent has played the move.
    Moved(Move),
    /// The player's move has arrived, and this much time is left.
    Ack(i32),
    /// Anything else.
    Invalid,
}

/// The value of a decimal digit, or 10 for any other character.
pub open spec fn digit_of(c: char) -> int {
    if c == '0' {
        0
    } else if c == '1' {
        1
    } else if c == '2' {
        2
    } else if c == '3' {
        3
    } else if c == '4' {
        4
    } else if c == '5' {
        5
    } else if c == '6' {
        6
    } else if c == '7' {
        7
    } else if c == '8' {
        8
    } else if c == '9' {
        9
    } else {
        10
    }
}

/// Whether the characters from index `from` up to index `n` are decimal
/// digits.
pub open spec fn all_digits(s: Seq<char>, from: int, n: int) -> bool {
    forall|i: int| from <= i < n ==> digit_of(#[trigger] s[i]) < 10
}

/// The number that the decimal digits from index `from` up to index `n`
/// stand for.
pub open spec fn digits_value(s: Seq<char>, from: int, n: int) -> int
    decreases n - from,
{
    if n <= from {
        0
    } else {
        digits_value(s, from, n - 1) * 10 + digit_of(s[n - 1])
    }
}

/// The number that a text stands for: decimal digits, with a minus sign
/// before them or without, that stand for a number of 32 bits.
pub open spec fn number_of(s: Seq<char>) -> Option<int> {
    let from: int = if s.len() > 0 && s[0] == '-' {
        1
    } else {
        0
    };
    let v = if from == 1 {
        -digits_value(s, from, s.len() as int)
    } else {
        digits_value(s, from, s.len() as int)
    };
    if from < s.len() && all_digits(s, from, s.len() as int) && i32::MIN <= v <= i32::MAX {
        Some(v)
    } else {
        None
    }
}

fn digit(c: char) -> (d: u8)
    ensures
        d == digit_of(c),
{
    match c {
        '0' => 0,
        '1' => 1,
        '2' => 2,
        '3' => 3,
        '4' => 4,
        '5' => 5,
        '6' => 6,
        '7' => 7,
        '8' => 8,
        '9' => 9,
        _ => 10,
    }
}

/// The digits of a larger number stand for no less.
pub proof fn lemma_digits_grow(s: Seq<char>, from: int, a: int, b: int)
    requires
        from <= a <= b,
        all_digits(s, from, b),
    ensures
        0 <= digits_value(s, from, a) <= digits_value(s, from, b),
    decreases b - a,
{
    if a < b {
        lemma_digits_grow(s, from, a, b - 1);
        lemma_digits_nonneg(s, from, b - 1);
        assert(digit_of(s[b - 1]) < 10);
    } else {
        lemma_digits_nonneg(s, from, a);
    }
}

/// Digits stand for no negative number.
pub proof fn lemma_digits_nonneg(s: Seq<char>, from: int, n: int)
    requires
        all_digits(s, from, n),
    ensures
        0 <= digits_value(s, from, n),
    decreases n - from,
{
    if n > from {
        lemma_digits_nonneg(s, from, n - 1);
        assert(digit_of(s[n - 1]) < 10);
    }
}

/// Reads a number; see [`number_of`].
pub fn number(s: &str) -> (r: Option<i32>)
    ensures
        r matches Some(v) ==> number_of(s@) == Some(v as int),
        r is None ==> number_of(s@) is None,
{
    let len = s.unicode_len();
    if len == 0 {
        return None;
    }
    let negative = s.get_char(0) == '-';
    let from: usize = if negative {
        1
    } else {
        0
    };
    if from >= len {
        return None;
    }
    let mut v: i64 = 0;
    let mut i: usize = from;
    while i < len
        invariant
            from <= i <= len,
            len == s@.len(),
            from == (if s@.len() > 0 && s@[0] == '-' {
                1int
            } else {
                0int
            }),
            all_digits(s@, from as int, i as int),
            v == digits_value(s@, from as int, i as int),
            0 <= v <= 0x8000_0000,
        decreases len - i,
    {
        let d = digit(s.get_char(i));
        if d >= 10 {
            return None;
        }
        let next = v * 10 + d as i64;
        if next > 0x8000_0000 {
            proof {
                // The digits that follow cannot make the number smaller.
                if all_digits(s@, from as int, len as int) {
                    lemma_digits_grow(s@, from as int, i + 1, len as int);
                }
            }
            return None;
        }
        v = next;
        i += 1;
    }
    if negative {
        Some((-v) as i32)
    } else if v > 0x7fff_ffff {
        None
    } else {
        Some(v as i32)
    }
}

/// Whether two texts are made of the same characters.
pub fn same_text(a: &str, b: &str) -> (r: bool)
    ensures
        r == (a@ == b@),
{
    let n = a.unicode_len();
    if n != b.unicode_len() {
        return false;
    }
    let mut i: usize = 0;
    while i < n
        invariant
            i <= n,
            n == a@.len(),
            n == b@.len(),
            forall|j: int| 0 <= j < i ==> a@[j] == b@[j],
        decreases n - i,
    {
        if a.get_char(i) != b.get_char(i) {
            return false;
        }
        i += 1;
    }
    assert(a@ =~= b@);
    true
}

/// The text that the group `i` matched, if there is such a group and it
/// took part in the match.
pub open spec fn group(caps: Seq<Option<Seq<char>>>, i: int) -> Option<Seq<char>> {
    if 0 <= i < caps.len() {
        caps[i]
    } else {
        None
    }
}

/// What a line says to a player that waits for a game, by what the
/// patterns of the last line and of the start of a game find in it.
pub open spec fn greeting_of(
    bye: Option<Seq<Option<Seq<char>>>>,
    start: Option<Seq<Option<Seq<char>>>>,
) -> Command {
    if bye is Some {
        Command::Bye
    } else {
        match start {
            Some(caps) => match (group(caps, 1), group(caps, 3)) {
                (Some(color), Some(time)) => match number_of(time) {
                    Some(t) => Command::Start {
                        color: if color == seq!['B', 'L', 'A', 'C', 'K'] {
                            Turn::Black
                        } else {
                            Turn::White
                        },
                        time: t as i32,
                    },
                    None => Command::Invalid,
                },
                _ => Command::Invalid,
            },
            None => Command::Invalid,
        }
    }
}

/// What a line says to a player that waits for the opponent's move, by
/// what the patterns of the end of a game and of a move find in it.
pub open spec fn opposing_of(
    end: Option<Seq<Option<Seq<char>>>>,
    moved: Option<Seq<Option<Seq<char>>>>,
) -> Command {
    if end is Some {
        Command::End
    } else {
        match moved {
            Some(caps) => match group(caps, 1) {
                Some(text) => match text_move(text) {
                    Some(mv) => Command::Moved(mv),
                    None => Command::Invalid,
                },
                None => Command::Invalid,
            },
            None => Command::Invalid,
        }
    }
}

/// What a line says to a player that waits for the answer to its move, by
/// what the patterns of the answer and of the end of a game find in it.
pub open spec fn replying_of(
    ack: Option<Seq<Option<Seq<char>>>>,
    end: Option<Seq<Option<Seq<char>>>>,
) -> Command {
    match ack {
        Some(caps) => match group(caps, 1) {
            Some(time) => match number_of(time) {
                Some(t) => Command::Ack(t as i32),
                None => Command::Invalid,
            },
            None => Command::Invalid,
        },
        None => if end is Some {
            Command::End
        } else {
            Command::Invalid
        },
    }
}

/// The text that the group `i` matched, if any.
fn group_text(caps: &Vec<Option<String>>, i: usize) -> (r: Option<&String>)
    ensures
        match r {
            Some(s) => group(caps.deep_view(), i as int) == Some(s@),
            None => group(caps.deep_view(), i as int) is None,
        },
{
    if i < caps.len() {
        assert(caps.deep_view()[i as int] == caps[i as int].deep_view());
        caps[i].as_ref()
    } else {
        None
    }
}

/// What a line says to a player that waits for a game; see
/// [`greeting_of`].
pub fn greeting_from(bye: Option<Vec<Option<String>>>, start: Option<Vec<Option<String>>>) -> (r:
    Command)
    ensures
        r == greeting_of(bye.deep_view(), start.deep_view()),
{
    if bye.is_some() {
        return Command::Bye;
    }
    match start {
        Some(caps) => {
            let color = group_text(&caps, 1);
            let time = group_text(&caps, 3);
            match (color, time) {
                (Some(color), Some(time)) => match number(time.as_str()) {
                    Some(t) => {
                        proof {
                            reveal_strlit("BLACK");
                            assert("BLACK"@ =~= seq!['B', 'L', 'A', 'C', 'K']);
                        }
                        let black = same_text(color.as_str(), "BLACK");
                        Command::Start {
                            color: if black {
                                Turn::Black
                            } else {
                                Turn::White
                            },
                            time: t,
                        }
                    },
                    None => Command::Invalid,
                },
                _ => Command::Invalid,
            }
        },
        None => Command::Invalid,
    }
}

/// What a line says to a player that waits for the opponent's move; see
/// [`opposing_of`].
pub fn opposing_from(end: Option<Vec<Option<String>>>, moved: Option<Vec<Option<String>>>) -> (r:
    Command)
    ensures
        r == opposing_of(end.deep_view(), moved.deep_view()),
        r matches Command::Moved(mv) ==> mv.on_board(),
{
    if end.is_some() {
        return Command::End;
    }
    match moved {
        Some(caps) => match group_text(&caps, 1) {
            Some(text) => match parse_move(text.as_str()) {
                Some(mv) => Command::Moved(mv),
                None => Command::Invalid,
            },
            None => Command::Invalid,
        },
        None => Command::Invalid,
    }
}

/// What a line says to a player that waits for the answer to its move; see
/// [`replying_of`].
pub fn replying_from(ack: Option<Vec<Option<String>>>, end: Option<Vec<Option<String>>>) -> (r:
    Command)
    ensures
        r == replying_of(ack.deep_view(), end.deep_view()),
{
    match ack {
        Some(caps) => match group_text(&caps, 1) {
            Some(time) => match number(time.as_str()) {
                Some(t) => Command::Ack(t),
                None => Command::Invalid,
            },
            None => Command::Invalid,
        },
        None => if end.is_some() {
            Command::End
        } else {
            Command::Invalid
        },
    }
}

/// What the player is waiting for.
#[derive(Copy, Clone, Debug, PartialEq, Eq, Structural)]
pub enum Phase {
    /// For a game to start.
    Waiting,
    /// For the opponent's move.
    Listening,
    /// For the answer to its own move.
    Replying,
    /// For nothing: the conversation is over.
    Closed,
}

/// What the player does on a line.
#[derive(Copy, Clone, Debug, PartialEq, Eq, Structural)]
pub enum Action {
    /// It sends the move and waits for the next line.
    Send(Move),
    /// It waits for the next line.
    Wait,
    /// It ends the conversation.
    Close,
}

/// What a line says to a player in the given phase.
pub open spec fn said(phase: Phase, line: Seq<char>) -> Command {
    match phase {
        Phase::Waiting => greeting_of(regex_captures(BYE@, line), regex_captures(START@, line)),
        Phase::Listening => opposing_of(regex_captures(END@, line), regex_captures(MOVE@, line)),
        Phase::Replying => replying_of(regex_captures(ACK@, line), regex_captures(END@, line)),
        Phase::Closed => Command::Invalid,
    }
}

/// Reads a line as a player in the given phase reads it.
pub fn read_line(phase: Phase, line: &str) -> (r: Command)
    ensures
        r == said(phase, line@),
        r matches Command::Moved(mv) ==> mv.on_board(),
{
    match phase {
        Phase::Waiting => greeting_from(captures(BYE, line), captures(START, line)),
        Phase::Listening => opposing_from(captures(END, line), captures(MOVE, line)),
        Phase::Replying => replying_from(captures(ACK, line), captures(END, line)),
        Phase::Closed => Command::Invalid,
    }
}

/// Where a conversation stands.
pub struct SessionView {
    /// What the player is waiting for.
    pub phase: Phase,
    /// The player's colour in the game.
    pub color: Turn,
    /// The time that the player has left.
    pub time: i32,
    /// The position of the game.
    pub board: Position,
}

/// The position after a move of the player itself: a move that the rules
/// do not allow leaves the position as it is.
pub open spec fn after_own(pos: Position, mv: Move) -> Position {
    if move_ok(pos, mv) {
        play(pos, mv)
    } else {
        pos
    }
}

/// Whether a player that stands at `v` has made its move from the position
/// `pos` by sending `action` and standing at `w`: it sends a move, plays it
/// on its board and waits for the answer.
pub open spec fn moves_from(v: SessionView, pos: Position, action: Action, w: SessionView) -> bool {
    &&& action matches Action::Send(mv)
    &&& mv.on_board()
    &&& w.phase == Phase::Replying
    &&& w.color == v.color
    &&& w.time == v.time
    &&& w.board.cells == after_own(pos, mv).cells
    &&& w.board.turn == after_own(pos, mv).turn
}

/// The same, but for the phase.
pub open spec fn stays(v: SessionView, phase: Phase, w: SessionView) -> bool {
    &&& w.phase == phase
    &&& w.color == v.color
    &&& w.time == v.time
    &&& w.board.cells == v.board.cells
    &&& w.board.turn == v.board.turn
}

/// Whether a player that stands at `v` and is told `cmd` may do `action`
/// and stand at `w` afterwards.
///
/// Waiting for a game, it takes colour and time from the start of a game
/// and sets up the board; with Black it moves at once, with White it waits
/// for the opponent's move. Waiting for the opponent's move, it plays the
/// move on its board and answers with its own. Waiting for the answer to
/// its move, it takes the time from it. The end of a game has it wait for
/// the next game. On anything else it ends the conversation.
pub open spec fn follows(v: SessionView, cmd: Command, action: Action, w: SessionView) -> bool {
    let opening = Position { cells: opening_cells(), turn: Turn::Black };
    match (v.phase, cmd) {
        (Phase::Waiting, Command::Start { color, time }) => {
            let started = SessionView { phase: v.phase, color, time, board: opening };
            if color == Turn::Black {
                moves_from(started, opening, action, w)
            } else {
                action == Action::Wait && stays(started, Phase::Listening, w)
            }
        },
        (Phase::Listening, Command::End) => action == Action::Wait && stays(v, Phase::Waiting, w),
        (Phase::Listening, Command::Moved(mv)) => if mv.on_board() && move_ok(v.board, mv) {
            moves_from(v, play(v.board, mv), action, w)
        } else {
            action == Action::Close && stays(v, Phase::Closed, w)
        },
        (Phase::Replying, Command::Ack(t)) => action == Action::Wait && stays(
            SessionView { phase: v.phase, color: v.color, time: t, board: v.board },
            Phase::Listening,
            w,
        ),
        (Phase::Replying, Command::End) => action == Action::Wait && stays(v, Phase::Waiting, w),
        _ => action == Action::Close && stays(v, Phase::Closed, w),
    }
}

/// A conversation with a game server: the board, the player and what the
/// player is waiting for.
pub struct Session<B: Board, S: Strategy> {
    board: B,
    strategy: S,
    color: Turn,
    time: i32,
    phase: Phase,
}

impl<B: Board, S: Strategy> Session<B, S> {
    /// Where the conversation stands.
    pub closed spec fn view(&self) -> SessionView {
        SessionView { phase: self.phase, color: self.color, time: self.time, board: self.board@ }
    }

    /// A conversation that waits for its first game.
    pub fn new(board: B, strategy: S) -> (s: Self)
        ensures
            s@.phase == Phase::Waiting,
            s@.color == Turn::Black,
            s@.time == 0,
            s@.board == board@,
    {
        Session { board, strategy, color: Turn::Black, time: 0, phase: Phase::Waiting }
    }

    /// What the player is waiting for.
    pub fn phase(&self) -> (p: Phase)
        ensures
            p == self@.phase,
    {
        self.phase
    }

    /// The board of the game.
    pub fn board(&self) -> (b: &B)
        ensures
            b@ == self@.board,
    {
        &self.board
    }

    /// The player's move from the position of the board.
    fn my_turn(&mut self, last_move: Option<Move>) -> (action: Action)
        requires
            last_move matches Some(m) ==> m.on_board(),
        ensures
            moves_from(old(self)@, old(self)@.board, action, final(self)@),
    {
        let mv = self.strategy.play(&self.board, last_move, self.time);
        let played = self.board.apply_move(mv);
        self.phase = Phase::Replying;
        Action::Send(mv)
    }

    /// What the player does when it is told `cmd`; see [`follows`].
    pub fn on_command(&mut self, cmd: Command) -> (action: Action)
        ensures
            follows(old(self)@, cmd, action, final(self)@),
    {
        match (self.phase, cmd) {
            (Phase::Waiting, Command::Start { color, time }) => {
                self.color = color;
                self.time = time;
                self.board.reset();
                self.strategy.reset();
                if color == Turn::Black {
                    self.my_turn(None)
                } else {
                    self.phase = Phase::Listening;
                    Action::Wait
                }
            },
            (Phase::Listening, Command::End) => {
                self.phase = Phase::Waiting;
                Action::Wait
            },
            (Phase::Listening, Command::Moved(mv)) => {
                let ok = match mv {
                    Move::Pass => true,
                    Move::Put { x, y } => x < 8 && y < 8,
                };
                if !ok {
                    self.phase = Phase::Closed;
                    return Action::Close;
                }
                match self.board.apply_move(mv) {
                    Ok(()) => self.my_turn(Some(mv)),
                    Err(_) => {
                        self.phase = Phase::Closed;
                        Action::Close
                    },
                }
            },
            (Phase::Replying, Command::Ack(t)) => {
                self.time = t;
                self.phase = Phase::Listening;
                Action::Wait
            },
            (Phase::Replying, Command::End) => {
                self.phase = Phase::Waiting;
                Action::Wait
            },
            _ => {
                self.phase = Phase::Closed;
                Action::Close
            },
        }
    }

    /// What the player does on a line of the server: it reads the line as
    /// its phase has it and does as [`follows`] says.
    pub fn on_line(&mut self, line: &str) -> (action: Action)
        ensures
            follows(old(self)@, said(old(self)@.phase, line@), action, final(self)@),
    {
        let cmd = read_line(self.phase, line);
        self.on_command(cmd)
    }
}

} // verus!
