//! Boards and moves as text for people to read.

use vstd::prelude::*;
use vstd::string::StringExecFns;
use crate::board::{Move, Tile};
use crate::rules::tile_at;

verus! {

/// The character of a digit.
pub open spec fn digit_char(d: int) -> char {
    if d == 0 {
        '0'
    } else if d == 1 {
        '1'
    } else if d == 2 {
        '2'
    } else if d == 3 {
        '3'
    } else if d == 4 {
        '4'
    } else if d == 5 {
        '5'
    } else if d == 6 {
        '6'
    } else if d == 7 {
        '7'
    } else if d == 8 {
        '8'
    } else {
        '9'
    }
}

/// A number in decimal digits.
pub open spec fn decimal(n: nat) -> Seq<char>
    decreases n,
{
    if n < 10 {
        seq![digit_char(n as int)]
    } else {
        decimal(n / 10) + seq![digit_char((n % 10) as int)]
    }
}

/// The move in words: `Pass`, or `Put` with the column and the row in
/// brackets.
pub open spec fn move_words(mv: Move) -> Seq<char> {
    match mv {
        Move::Pass => seq!['P', 'a', 's', 's'],
        Move::Put { x, y } => seq!['P', 'u', 't', ' ', '('] + decimal(x as nat) + seq![',', ' ']
            + decimal(y as nat) + seq![')'],
    }
}

/// The character that a tile is drawn as.
pub open spec fn tile_char(t: Tile) -> char {
    match t {
        Tile::Empty => ' ',
        Tile::Black => 'x',
        Tile::White => 'o',
    }
}

/// The first line of the picture of a board: the letters of the columns.
pub open spec fn heading() -> Seq<char> {
    seq![
        ' ', ' ', 'A', ' ', 'B', ' ', 'C', ' ', 'D', ' ', 'E', ' ', 'F', ' ', 'G', ' ', 'H', '\n',
    ]
}

/// The line between two rows of the picture, with the line breaks before
/// and after it.
pub open spec fn ruler() -> Seq<char> {
    seq![
        '\n', ' ', '-', '-', '+', '-', '+', '-', '+', '-', '+', '-', '+', '-', '+', '-', '+', '-',
        '\n',
    ]
}

/// The first `n` cells of the row `y` as they are drawn: the characters of
/// their tiles with a bar between neighbours.
pub open spec fn drawn_cells(cells: Seq<Tile>, y: int, n: int) -> Seq<char>
    decreases n,
{
    if n <= 0 {
        Seq::empty()
    } else if n < 8 {
        drawn_cells(cells, y, n - 1) + seq![tile_char(tile_at(cells, n - 1, y)), '|']
    } else {
        drawn_cells(cells, y, n - 1) + seq![tile_char(tile_at(cells, n - 1, y))]
    }
}

/// The row `y` as it is drawn: the digit of the row, a blank, the cells, and
/// the line to the next row or, after the last row, a line break.
pub open spec fn drawn_row(cells: Seq<Tile>, y: int) -> Seq<char> {
    seq![digit_char(y + 1), ' '] + drawn_cells(cells, y, 8) + if y < 7 {
        ruler()
    } else {
        seq!['\n']
    }
}

/// The first `n` rows as they are drawn.
pub open spec fn drawn_rows(cells: Seq<Tile>, n: int) -> Seq<char>
    decreases n,
{
    if n <= 0 {
        Seq::empty()
    } else {
        drawn_rows(cells, n - 1) + drawn_row(cells, n - 1)
    }
}

/// The picture of a board: the letters of the columns and the eight rows.
pub open spec fn picture(cells: Seq<Tile>) -> Seq<char> {
    heading() + drawn_rows(cells, 8)
}

/// A digit as a text.
pub fn digit_text(d: u8) -> (s: &'static str)
    requires
        d < 10,
    ensures
        s@ == seq![digit_char(d as int)],
{
    proof {
        reveal_strlit("0");
        reveal_strlit("1");
        reveal_strlit("2");
        reveal_strlit("3");
        reveal_strlit("4");
        reveal_strlit("5");
        reveal_strlit("6");
        reveal_strlit("7");
        reveal_strlit("8");
        reveal_strlit("9");
    }
    let s = match d {
        0 => "0",
        1 => "1",
        2 => "2",
        3 => "3",
        4 => "4",
        5 => "5",
        6 => "6",
        7 => "7",
        8 => "8",
        _ => "9",
    };
    assert(s@ =~= seq![digit_char(d as int)]);
    s
}

/// Adds a number in decimal digits to a text.
pub fn push_decimal(s: &mut String, n: u8)
    ensures
        final(s)@ == old(s)@ + decimal(n as nat),
{
    let ghost start = s@;
    if n >= 100 {
        s.append(digit_text(n / 100));
        s.append(digit_text((n / 10) % 10));
        s.append(digit_text(n % 10));
        proof {
            let h = (n / 100) as nat;
            let t = (n / 10) as nat;
            assert(decimal(h) == seq![digit_char(h as int)]);
            assert(decimal(t) == decimal(h) + seq![digit_char((t % 10) as int)]);
            assert(decimal(n as nat) == decimal(t) + seq![digit_char((n % 10) as int)]);
            assert(s@ =~= start + decimal(n as nat));
        }
    } else if n >= 10 {
        s.append(digit_text(n / 10));
        s.append(digit_text(n % 10));
        proof {
            let t = (n / 10) as nat;
            assert(decimal(t) == seq![digit_char(t as int)]);
            assert(decimal(n as nat) == decimal(t) + seq![digit_char((n % 10) as int)]);
            assert(s@ =~= start + decimal(n as nat));
        }
    } else {
        s.append(digit_text(n));
    }
}

/// A tile as the text that it is drawn as.
pub fn tile_text(t: Tile) -> (s: &'static str)
    ensures
        s@ == seq![tile_char(t)],
{
    proof {
        reveal_strlit(" ");
        reveal_strlit("x");
        reveal_strlit("o");
    }
    let s = match t {
        Tile::Empty => " ",
        Tile::Black => "x",
        Tile::White => "o",
    };
    assert(s@ =~= seq![tile_char(t)]);
    s
}

impl Move {
    /// The move in words.
    pub fn to_string(&self) -> (s: String)
        ensures
            s@ == move_words(*self),
    {
        match *self {
            Move::Pass => {
                proof {
                    reveal_strlit("Pass");
                }
                let s = String::from_str("Pass");
                assert(s@ =~= seq!['P', 'a', 's', 's']);
                s
            },
            Move::Put { x, y } => {
                proof {
                    reveal_strlit("Put (");
                    reveal_strlit(", ");
                    reveal_strlit(")");
                }
                let mut s = String::from_str("Put (");
                assert(s@ =~= seq!['P', 'u', 't', ' ', '(']);
                push_decimal(&mut s, x);
                s.append(", ");
                push_decimal(&mut s, y);
                s.append(")");
                assert(s@ =~= move_words(*self));
                s
            },
        }
    }
}

} // verus!
