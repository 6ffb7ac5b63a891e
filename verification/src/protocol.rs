//! Moves as the text that is exchanged with a game server: `PASS` for a
//! pass, and for a disc the letter of its column, `A` to `H`, followed by
//! the digit of its row, `1` to `8`.

use vstd::prelude::*;
use vstd::string::StringExecFns;
use crate::board::Move;

verus! {

/// The letter of a column.
pub open spec fn column_char(x: int) -> char {
    if x == 0 {
        'A'
    } else if x == 1 {
        'B'
    } else if x == 2 {
        'C'
    } else if x == 3 {
        'D'
    } else if x == 4 {
        'E'
    } else if x == 5 {
        'F'
    } else if x == 6 {
        'G'
    } else {
        'H'
    }
}

/// The digit of a row.
pub open spec fn row_char(y: int) -> char {
    if y == 0 {
        '1'
    } else if y == 1 {
        '2'
    } else if y == 2 {
        '3'
    } else if y == 3 {
        '4'
    } else if y == 4 {
        '5'
    } else if y == 5 {
        '6'
    } else if y == 6 {
        '7'
    } else {
        '8'
    }
}

/// The text of a move.
pub open spec fn move_text(mv: Move) -> Seq<char> {
    match mv {
        Move::Pass => seq!['P', 'A', 'S', 'S'],
        Move::Put { x, y } => seq![column_char(x as int), row_char(y as int)],
    }
}

/// The column that a letter names, or 8 for any other character.
pub open spec fn column_of(c: char) -> int {
    if c == 'A' {
        0
    } else if c == 'B' {
        1
    } else if c == 'C' {
        2
    } else if c == 'D' {
        3
    } else if c == 'E' {
        4
    } else if c == 'F' {
        5
    } else if c == 'G' {
        6
    } else if c == 'H' {
        7
    } else {
        8
    }
}

/// The row that a digit names, or 8 for any other character.
pub open spec fn row_of(c: char) -> int {
    if c == '1' {
        0
    } else if c == '2' {
        1
    } else if c == '3' {
        2
    } else if c == '4' {
        3
    } else if c == '5' {
        4
    } else if c == '6' {
        5
    } else if c == '7' {
        6
    } else if c == '8' {
        7
    } else {
        8
    }
}

/// The move that a text stands for: a pass for `PASS`, and else the disc
/// that the first two characters name, if they name a column and a row.
pub open spec fn text_move(s: Seq<char>) -> Option<Move> {
    if s == seq!['P', 'A', 'S', 'S'] {
        Some(Move::Pass)
    } else if s.len() >= 2 && column_of(s[0]) < 8 && row_of(s[1]) < 8 {
        Some(Move::Put { x: column_of(s[0]) as u8, y: row_of(s[1]) as u8 })
    } else {
        None
    }
}

/// The column that a letter names, or 8.
fn column(c: char) -> (x: u8)
    ensures
        x == column_of(c),
{
    match c {
        'A' => 0,
        'B' => 1,
        'C' => 2,
        'D' => 3,
        'E' => 4,
        'F' => 5,
        'G' => 6,
        'H' => 7,
        _ => 8,
    }
}

/// The row that a digit names, or 8.
fn row(c: char) -> (y: u8)
    ensures
        y == row_of(c),
{
    match c {
        '1' => 0,
        '2' => 1,
        '3' => 2,
        '4' => 3,
        '5' => 4,
        '6' => 5,
        '7' => 6,
        '8' => 7,
        _ => 8,
    }
}

/// Reads a move from its text.
pub fn parse_move(mv: &str) -> (r: Option<Move>)
    ensures
        r == text_move(mv@),
        r matches Some(m) ==> m.on_board(),
{
    let n = mv.unicode_len();
    if n == 4 && mv.get_char(0) == 'P' && mv.get_char(1) == 'A' && mv.get_char(2) == 'S'
        && mv.get_char(3) == 'S' {
        assert(mv@ =~= seq!['P', 'A', 'S', 'S']);
        return Some(Move::Pass);
    }
    if n >= 2 {
        let x = column(mv.get_char(0));
        let y = row(mv.get_char(1));
        if x <= 7 && y <= 7 {
            return Some(Move::Put { x, y });
        }
    }
    None
}

/// The letter of a column as a text.
fn column_text(x: u8) -> (s: &'static str)
    requires
        x < 8,
    ensures
        s@ == seq![column_char(x as int)],
{
    proof {
        reveal_strlit("A");
        reveal_strlit("B");
        reveal_strlit("C");
        reveal_strlit("D");
        reveal_strlit("E");
        reveal_strlit("F");
        reveal_strlit("G");
        reveal_strlit("H");
    }
    let s = match x {
        0 => "A",
        1 => "B",
        2 => "C",
        3 => "D",
        4 => "E",
        5 => "F",
        6 => "G",
        _ => "H",
    };
    assert(s@ =~= seq![column_char(x as int)]);
    s
}

/// The digit of a row as a text.
fn row_text(y: u8) -> (s: &'static str)
    requires
        y < 8,
    ensures
        s@ == seq![row_char(y as int)],
{
    proof {
        reveal_strlit("1");
        reveal_strlit("2");
        reveal_strlit("3");
        reveal_strlit("4");
        reveal_strlit("5");
        reveal_strlit("6");
        reveal_strlit("7");
        reveal_strlit("8");
    }
    let s = match y {
        0 => "1",
        1 => "2",
        2 => "3",
        3 => "4",
        4 => "5",
        5 => "6",
        6 => "7",
        _ => "8",
    };
    assert(s@ =~= seq![row_char(y as int)]);
    s
}

/// Writes a move as its text.
pub fn serialize_move(mv: Move) -> (s: String)
    requires
        mv.on_board(),
    ensures
        s@ == move_text(mv),
{
    match mv {
        Move::Pass => {
            proof {
                reveal_strlit("PASS");
            }
            let s = String::from_str("PASS");
            assert(s@ =~= seq!['P', 'A', 'S', 'S']);
            s
        },
        Move::Put { x, y } => {
            let s = String::from_str(column_text(x)).concat(row_text(y));
            assert(s@ =~= seq![column_char(x as int), row_char(y as int)]);
            s
        },
    }
}

/// A move written and read again is the move.
pub proof fn lemma_text_round_trip(mv: Move)
    requires
        mv.on_board(),
    ensures
        text_move(move_text(mv)) == Some(mv),
{
    match mv {
        Move::Pass => {},
        Move::Put { x, y } => {
            let s = move_text(mv);
            assert(s.len() == 2);
            assert(s[0] == column_char(x as int));
            assert(s[1] == row_char(y as int));
            assert(!(s =~= seq!['P', 'A', 'S', 'S']));
        },
    }
}

} // verus!
