//! The board: what a cell holds, whose turn it is, and how a move changes
//! both. Two boards are offered, one that keeps a tile per cell and one that
//! keeps a bit per cell and colour.

use vstd::prelude::*;
use vstd::string::StringExecFns;
use crate::picture::{
    digit_char, digit_text, drawn_cells, drawn_row, drawn_rows, heading, picture, ruler,
    tile_text,
};
use crate::bits::{bit, bv_single_steps, count_bits, group_bits, lemma_bit_test, lemma_or_zero};
use crate::rules::{
    Position, along, captured, captures, captures_upto, cell, count_discs, count_tiles, count_upto,
    dir_dx, dir_dy, disc, flipped_in, flipped_upto, lemma_captured, lemma_turned_end,
    lemma_turned_next, lemma_turned_start, lemma_turned_step, turned, move_ok, on_board,
    opening_cells, other, play, put, ray_pos, seen, tile_at,
};

verus! {

broadcast use group_bits;

/// What a cell holds.
#[derive(Copy, Clone, Debug, PartialEq, Eq, Structural)]
pub enum Tile {
    Empty,
    Black,
    White,
}

/// The side to move.
#[derive(Copy, Clone, Debug, PartialEq, Eq, Structural)]
pub enum Turn {
    Black,
    White,
}

/// A move: a pass, or a disc put on the cell `(x, y)`.
#[derive(Copy, Clone, Debug, PartialEq, Eq, Structural)]
pub enum Move {
    Pass,
    Put { x: u8, y: u8 },
}

impl Move {
    /// A pass, or a cell of the board.
    pub open spec fn on_board(self) -> bool {
        match self {
            Move::Pass => true,
            Move::Put { x, y } => x < 8 && y < 8,
        }
    }
}

/// The tiles that a pair of masks stands for: a cell is black where the
/// first mask has its bit, white where only the second has it, and empty
/// otherwise.
pub open spec fn mask_cells(black: u64, white: u64) -> Seq<Tile> {
    Seq::new(
        64,
        |i: int|
            if bit(black, i) {
                Tile::Black
            } else if bit(white, i) {
                Tile::White
            } else {
                Tile::Empty
            },
    )
}

/// The mask with the single bit of the cell `(x, y)`.
pub fn idx(x: u8, y: u8) -> (m: u64)
    requires
        x < 8,
        y < 8,
    ensures
        m == 1u64 << (cell(x as int, y as int) as u64),
        m != 0,
        forall|i: int| bit(m, i) == (i == cell(x as int, y as int)),
{
    let s: u64 = (x as u64) | ((y as u64) << 3);
    assert(s == y * 8 + x && 1u64 << s != 0) by (bit_vector)
        requires
            s == (x as u64) | ((y as u64) << 3),
            x < 8,
            y < 8,
    ;
    1 << s
}

/// The other side.
pub fn flip_turn(turn: Turn) -> (r: Turn)
    ensures
        r == crate::rules::other(turn),
{
    match turn {
        Turn::Black => Turn::White,
        Turn::White => Turn::Black,
    }
}

/// The disc of the side to move, and the disc of the other side.
pub fn turn_to_tile(turn: Turn) -> (r: (Tile, Tile))
    ensures
        r.0 == crate::rules::disc(turn),
        r.1 == crate::rules::disc(crate::rules::other(turn)),
{
    match turn {
        Turn::Black => (Tile::Black, Tile::White),
        Turn::White => (Tile::White, Tile::Black),
    }
}

/// Why a disc could not be put on a cell.
#[derive(Copy, Clone, Debug, PartialEq, Eq, Structural)]
pub enum MoveError {
    /// The cell already holds a disc.
    AlreadyOccupied,
    /// The disc would capture nothing.
    NoCaptures,
}

/// Whether the two masks hold exactly the black and the white cells.
pub open spec fn masks_of(cells: Seq<Tile>, black: u64, white: u64) -> bool {
    &&& black & white == 0
    &&& forall|i: int| 0 <= i < 64 ==> (#[trigger] bit(black, i) <==> cells[i] == Tile::Black)
    &&& forall|i: int| 0 <= i < 64 ==> (#[trigger] bit(white, i) <==> cells[i] == Tile::White)
}

/// A board of 8 by 8 cells with a side to move.
pub trait Board: Sized {
    /// The tiles, cell `(x, y)` at index `y * 8 + x`, and the side to move.
    spec fn view(&self) -> Position;

    /// A board has 64 cells.
    proof fn lemma_cells(&self)
        ensures
            self@.cells.len() == 64,
    ;

    /// Puts the four discs of the opening back and gives Black the move.
    fn reset(&mut self)
        ensures
            final(self)@.cells == opening_cells(),
            final(self)@.turn == Turn::Black,
    ;

/// What the cell `(x, y)` holds.
    fn get(&self, x: u8, y: u8) -> (t: Tile)
        requires
            x < 8,
            y < 8,
        ensures
            t == tile_at(self@.cells, x as int, y as int),
    ;

/// Makes the cell `(x, y)` hold `tile`.
    fn set(&mut self, x: u8, y: u8, tile: Tile)
        requires
            x < 8,
            y < 8,
        ensures
            final(self)@.cells == old(self)@.cells.update(cell(x as int, y as int), tile),
            final(self)@.turn == old(self)@.turn,
    ;

/// The side to move.
    fn get_turn(&self) -> (t: Turn)
        ensures
            t == self@.turn,
    ;

/// Gives `turn` the move.
    fn set_turn(&mut self, turn: Turn)
        ensures
            final(self)@.cells == old(self)@.cells,
            final(self)@.turn == turn,
    ;

    /// The number of cells that hold `tile`.
    fn count(&self, tile: Tile) -> (n: u32)
        ensures
            n == count_tiles(self@.cells, tile),
    {
        proof {
            self.lemma_cells();
        }
        let mut result: u32 = 0;
        let mut y: u8 = 0;
        while y < 8
            invariant
                y <= 8,
                result == count_upto(self@.cells, tile, y * 8),
            decreases 8 - y,
        {
            let mut x: u8 = 0;
            while x < 8
                invariant
                    y < 8,
                    x <= 8,
                    result == count_upto(self@.cells, tile, y * 8 + x),
                decreases 8 - x,
            {
                proof {
                    lemma_count_bound(self@.cells, tile, y * 8 + x);
                }
                if self.get(x, y) == tile {
                    result += 1;
                }
                x += 1;
            }
            y += 1;
        }
        result
    }

    /// The number of discs on the board.
    fn count_both(&self) -> (n: u32)
        ensures
            n == count_discs(self@.cells),
    {
        proof {
            self.lemma_cells();
        }
        let mut result: u32 = 0;
        let mut y: u8 = 0;
        while y < 8
            invariant
                y <= 8,
                result == count_upto(self@.cells, Tile::Black, y * 8) + count_upto(
                    self@.cells,
                    Tile::White,
                    y * 8,
                ),
            decreases 8 - y,
        {
            let mut x: u8 = 0;
            while x < 8
                invariant
                    y < 8,
                    x <= 8,
                    result == count_upto(self@.cells, Tile::Black, y * 8 + x) + count_upto(
                        self@.cells,
                        Tile::White,
                        y * 8 + x,
                    ),
                decreases 8 - x,
            {
                proof {
                    lemma_count_bound(self@.cells, Tile::Black, y * 8 + x);
                    lemma_count_bound(self@.cells, Tile::White, y * 8 + x);
                }
                if self.get(x, y) != Tile::Empty {
                    result += 1;
                }
                x += 1;
            }
            y += 1;
        }
        result
    }

    /// The black cells and the white cells, each as a mask.
    fn bitboard(&self) -> (m: (u64, u64))
        ensures
            masks_of(self@.cells, m.0, m.1),
    ;

    /// The number of opposing discs that a disc of `turn` on `(x, y)` would
    /// capture in the direction numbered `d`, found by walking the cells.
    fn walk(&self, turn: Turn, x: u8, y: u8, d: u8) -> (n: u8)
        requires
            x < 8,
            y < 8,
            d < 8,
        ensures
            n == captured(self@.cells, turn, x as int, y as int, dir_dx(d as int), dir_dy(d as int)),
    {
        let (me, op) = turn_to_tile(turn);
        let (dx, dy) = dir_step(d);
        let ghost cells = self@.cells;
        let ghost xi = x as int;
        let ghost yi = y as int;
        let mut k: u8 = 0;
        loop
            invariant
                k <= 7,
                x < 8,
                y < 8,
                d < 8,
                xi == x,
                yi == y,
                cells == self@.cells,
                dx == dir_dx(d as int),
                dy == dir_dy(d as int),
                me == disc(turn),
                op == disc(other(turn)),
                forall|j: int| 1 <= j <= k ==> #[trigger] seen(cells, xi, yi, dx as int, dy as int, j) == op,
                k > 0 ==> on_board(along(xi, dx as int, k as int), along(yi, dy as int, k as int)),
            decreases 7 - k,
        {
            let cx: i8 = step_from(x, dx, k);
            let cy: i8 = step_from(y, dy, k);
            if cx < 0 || cx > 7 || cy < 0 || cy > 7 {
                proof {
                    lemma_captured(cells, turn, xi, yi, dx as int, dy as int, k as int);
                }
                return 0;
            }
            let t = self.get(cx as u8, cy as u8);
            if t == op {
                k += 1;
            } else {
                proof {
                    lemma_captured(cells, turn, xi, yi, dx as int, dy as int, k as int);
                }
                if t == me {
                    return k;
                } else {
                    return 0;
                }
            }
        }
    }

    /// Plays a move for the side to move. A pass only hands the move over. A
    /// disc is put where the cell is empty and the disc captures something;
    /// otherwise the board stays as it was and the error says which of the
    /// two failed.
    fn apply_move(&mut self, mv: Move) -> (r: Result<(), MoveError>)
        requires
            mv.on_board(),
        ensures
            r is Ok <==> move_ok(old(self)@, mv),
            r is Ok ==> final(self)@.cells == play(old(self)@, mv).cells && final(self)@.turn
                == play(old(self)@, mv).turn,
            r is Err ==> final(self)@.cells == old(self)@.cells && final(self)@.turn == old(self)@.turn,
            r == Err::<(), MoveError>(MoveError::AlreadyOccupied) <==> (mv matches Move::Put {
                x,
                y,
            } && tile_at(old(self)@.cells, x as int, y as int) != Tile::Empty),
    {
        proof {
            self.lemma_cells();
        }
        let turn = self.get_turn();
        match mv {
            Move::Pass => {
                self.set_turn(flip_turn(turn));
                Ok(())
            },
            Move::Put { x, y } => {
                let (me, _) = turn_to_tile(turn);
                if self.get(x, y) != Tile::Empty {
                    return Err(MoveError::AlreadyOccupied);
                }
                let ghost cells = self@.cells;
                let ghost xi = x as int;
                let ghost yi = y as int;
                // How far the capture reaches in each direction, on the board as it is.
                let mut reach: Vec<u8> = Vec::new();
                let mut take_flg = false;
                let mut d: u8 = 0;
                while d < 8
                    invariant
                        d <= 8,
                        x < 8,
                        y < 8,
                        reach.len() == d,
                        forall|e: int|
                            0 <= e < d ==> #[trigger] reach[e] == captured(
                                self@.cells,
                                turn,
                                x as int,
                                y as int,
                                dir_dx(e),
                                dir_dy(e),
                            ),
                        take_flg == captures_upto(self@.cells, turn, x as int, y as int, d as int),
                    decreases 8 - d,
                {
                    let n = self.walk(turn, x, y, d);
                    if n > 0 {
                        take_flg = true;
                    }
                    reach.push(n);
                    d += 1;
                }
                if !take_flg {
                    return Err(MoveError::NoCaptures);
                }
                proof {
                    lemma_turned_start(cells, turn, xi, yi);
                }
                let mut d: u8 = 0;
                while d < 8
                    invariant
                        d <= 8,
                        x < 8,
                        y < 8,
                        xi == x,
                        yi == y,
                        reach.len() == 8,
                        forall|e: int|
                            0 <= e < 8 ==> #[trigger] reach[e] == captured(
                                cells,
                                turn,
                                xi,
                                yi,
                                dir_dx(e),
                                dir_dy(e),
                            ),
                        me == disc(turn),
                        self@.turn == turn,
                        self@.cells == turned(cells, turn, xi, yi, d as int, 0),
                    decreases 8 - d,
                {
                    let n = reach[d as usize];
                    let (dx, dy) = dir_step(d);
                    let mut k: u8 = 0;
                    proof {
                        lemma_captured_bound(cells, turn, xi, yi, dir_dx(d as int), dir_dy(d as int));
                    }
                    while k < n
                        invariant
                            k <= n <= 6,
                            d < 8,
                            x < 8,
                            y < 8,
                            xi == x,
                            yi == y,
                            dx == dir_dx(d as int),
                            dy == dir_dy(d as int),
                            forall|j: int|
                                1 <= j <= n ==> on_board(
                                    #[trigger] along(xi, dx as int, j),
                                    along(yi, dy as int, j),
                                ),
                            me == disc(turn),
                            self@.turn == turn,
                            self@.cells == turned(cells, turn, xi, yi, d as int, k as int),
                        decreases n - k,
                    {
                        proof {
                            assert(on_board(
                                along(xi, dx as int, k + 1),
                                along(yi, dy as int, k + 1),
                            ));
                            lemma_turned_step(cells, turn, xi, yi, d as int, k as int);
                        }
                        k += 1;
                        let cx = offset(x, dx, k);
                        let cy = offset(y, dy, k);
                        self.set(cx, cy, me);
                    }
                    proof {
                        lemma_turned_next(cells, turn, xi, yi, d as int);
                    }
                    d += 1;
                }
                proof {
                    lemma_turned_end(cells, turn, xi, yi);
                }
                self.set(x, y, me);
                self.set_turn(flip_turn(turn));
                Ok(())
            },
        }
    }

    /// The board as a picture: the letters of the columns, then the eight
    /// rows, each with its digit, a black disc drawn as `x` and a white one
    /// as `o`, and lines between the cells and between the rows.
    fn pretty_print(&self) -> (s: String)
        ensures
            s@ == picture(self@.cells),
    {
        proof {
            reveal_strlit("  A B C D E F G H\n");
        }
        let ghost cells = self@.cells;
        let mut result = String::from_str("  A B C D E F G H\n");
        assert(result@ =~= heading());
        let mut y: u8 = 0;
        while y < 8
            invariant
                y <= 8,
                cells == self@.cells,
                result@ == heading() + drawn_rows(cells, y as int),
            decreases 8 - y,
        {
            proof {
                reveal_strlit(" ");
                reveal_strlit("\n --+-+-+-+-+-+-+-\n");
                reveal_strlit("\n");
            }
            let ghost before = result@;
            result.append(digit_text(y + 1));
            result.append(" ");
            let ghost label = result@;
            assert(label =~= before + seq![digit_char(y + 1), ' ']);
            let mut x: u8 = 0;
            while x < 8
                invariant
                    x <= 8,
                    y < 8,
                    cells == self@.cells,
                    result@ == label + drawn_cells(cells, y as int, x as int),
                decreases 8 - x,
            {
                proof {
                    reveal_strlit("|");
                }
                result.append(tile_text(self.get(x, y)));
                if x < 7 {
                    result.append("|");
                }
                proof {
                    assert(result@ =~= label + drawn_cells(cells, y as int, x + 1));
                }
                x += 1;
            }
            if y < 7 {
                result.append("\n --+-+-+-+-+-+-+-\n");
                assert(result@ =~= label + drawn_cells(cells, y as int, 8) + ruler());
            } else {
                result.append("\n");
                assert(result@ =~= label + drawn_cells(cells, y as int, 8) + seq!['\n']);
            }
            proof {
                assert(result@ =~= before + drawn_row(cells, y as int));
                assert(result@ =~= heading() + drawn_rows(cells, y + 1));
            }
            y += 1;
        }
        result
    }
}

/// The steps along x and y of the direction numbered `d`.
pub fn dir_step(d: u8) -> (s: (i8, i8))
    requires
        d < 8,
    ensures
        s.0 == dir_dx(d as int),
        s.1 == dir_dy(d as int),
{
    match d {
        0 => (-1, 0),
        1 => (0, -1),
        2 => (1, 0),
        3 => (0, 1),
        4 => (-1, -1),
        5 => (1, -1),
        6 => (-1, 1),
        _ => (1, 1),
    }
}

/// The coordinate `k` steps of `d` away from `a`, where that is on the board.
fn offset(a: u8, d: i8, k: u8) -> (r: u8)
    requires
        -1 <= d <= 1,
        0 <= along(a as int, d as int, k as int) < 8,
        a < 8,
        k < 8,
    ensures
        r == along(a as int, d as int, k as int),
{
    if d > 0 {
        a + k
    } else if d < 0 {
        a - k
    } else {
        a
    }
}

/// A capture stays on the board: it is at most six discs long, and every
/// captured disc and the disc that ends the run lie on the board.
pub proof fn lemma_captured_bound(cells: Seq<Tile>, turn: Turn, x: int, y: int, dx: int, dy: int)
    requires
        on_board(x, y),
        crate::rules::is_dir(dx, dy),
    ensures
        0 <= captured(cells, turn, x, y, dx, dy) <= 6,
        forall|j: int|
            1 <= j <= captured(cells, turn, x, y, dx, dy) ==> on_board(
                #[trigger] along(x, dx, j),
                along(y, dy, j),
            ),
{
    let n = captured(cells, turn, x, y, dx, dy);
    crate::rules::lemma_run_nonneg(cells, disc(other(turn)), x + dx, y + dy, dx, dy);
    if n > 0 {
        assert(on_board(along(x, dx, n + 1), along(y, dy, n + 1)));
        assert forall|j: int| 1 <= j <= n implies on_board(
            #[trigger] along(x, dx, j),
            along(y, dy, j),
        ) by {}
    }
}

/// The coordinate one step further than `k` steps of `d` away from `a`.
fn step_from(a: u8, d: i8, k: u8) -> (r: i8)
    requires
        -1 <= d <= 1,
        a < 8,
        k <= 7,
    ensures
        r == along(a as int, d as int, k + 1),
{
    if d > 0 {
        a as i8 + k as i8 + 1
    } else if d < 0 {
        a as i8 - k as i8 - 1
    } else {
        a as i8
    }
}

/// Among the first `n` cells at most `n` hold a given tile.
pub proof fn lemma_count_bound(cells: Seq<Tile>, tile: Tile, n: int)
    requires
        0 <= n,
    ensures
        count_upto(cells, tile, n) <= n,
    decreases n,
{
    if n > 0 {
        lemma_count_bound(cells, tile, n - 1);
    }
}

/// A mask has as many bits among its first `n` as there are cells among the
/// first `n` that hold the tile whose cells the mask marks.
pub proof fn lemma_count_mask(cells: Seq<Tile>, tile: Tile, m: u64, n: nat)
    requires
        n <= 64,
        forall|i: int| 0 <= i < 64 ==> (#[trigger] bit(m, i) <==> cells[i] == tile),
    ensures
        count_bits(m, n) == count_upto(cells, tile, n as int),
    decreases n,
{
    if n > 0 {
        lemma_count_mask(cells, tile, m, (n - 1) as nat);
    }
}

/// The bits of two masks that share none add up.
pub proof fn lemma_count_union(a: u64, b: u64, n: nat)
    requires
        n <= 64,
        forall|i: int| 0 <= i < 64 ==> !(#[trigger] bit(a, i) && bit(b, i)),
    ensures
        count_bits(a | b, n) == count_bits(a, n) + count_bits(b, n),
    decreases n,
{
    if n > 0 {
        lemma_count_union(a, b, (n - 1) as nat);
    }
}

/// The mask `m` moved one step in the direction numbered `d`, without the
/// bits that the step would take over an edge of the board.
pub open spec fn step_spec(m: u64, d: int) -> u64 {
    if d == 0 {
        (m >> 1) & 0x7f7f7f7f7f7f7f7fu64
    } else if d == 1 {
        (m >> 8) & 0x00ffffffffffffffu64
    } else if d == 2 {
        (m << 1) & 0xfefefefefefefefeu64
    } else if d == 3 {
        (m << 8) & 0xffffffffffffff00u64
    } else if d == 4 {
        (m >> 9) & 0x007f7f7f7f7f7f7fu64
    } else if d == 5 {
        (m >> 7) & 0x00fefefefefefefeu64
    } else if d == 6 {
        (m << 7) & 0x7f7f7f7f7f7f7f00u64
    } else {
        (m << 9) & 0xfefefefefefefe00u64
    }
}

/// The mask moved one step in the direction numbered `d`; see [`step_spec`].
fn step(m: u64, d: u8) -> (r: u64)
    requires
        d < 8,
    ensures
        r == step_spec(m, d as int),
{
    match d {
        0 => (m >> 1) & 0x7f7f7f7f7f7f7f7f,
        1 => (m >> 8) & 0x00ffffffffffffff,
        2 => (m << 1) & 0xfefefefefefefefe,
        3 => (m << 8) & 0xffffffffffffff00,
        4 => (m >> 9) & 0x007f7f7f7f7f7f7f,
        5 => (m >> 7) & 0x00fefefefefefefe,
        6 => (m << 7) & 0x7f7f7f7f7f7f7f00,
        _ => (m << 9) & 0xfefefefefefefe00,
    }
}

/// The single bit of a cell, or no bit for a place off the board.
pub open spec fn cell_mask(x: int, y: int) -> u64 {
    if on_board(x, y) {
        1u64 << (cell(x, y) as u64)
    } else {
        0
    }
}

/// One step takes the bit of a cell to the bit of the next cell in that
/// direction, and to nothing where the board ends.
pub proof fn lemma_step_cell(x: int, y: int, d: int)
    requires
        0 <= d < 8,
        on_board(x, y),
    ensures
        step_spec(cell_mask(x, y), d) == cell_mask(x + dir_dx(d), y + dir_dy(d)),
{
    {
        let c = cell(x, y) as u64;
        assert(c % 8 == x && c / 8 == y);
        bv_single_steps(c);
        let nx = x + dir_dx(d);
        let ny = y + dir_dy(d);
        if on_board(nx, ny) {
            assert(cell(nx, ny) == c + dir_dx(d) + 8 * dir_dy(d));
        }
        assert(cell_mask(x, y) == 1u64 << c);
        if d == 0 && on_board(nx, ny) {
            assert((c - 1) as u64 == cell(nx, ny) as u64);
            assert(step_spec(cell_mask(x, y), d) == 1u64 << ((c - 1) as u64));
        }
        if d == 1 && on_board(nx, ny) {
            assert((c - 8) as u64 == cell(nx, ny) as u64);
            assert(step_spec(cell_mask(x, y), d) == 1u64 << ((c - 8) as u64));
        }
        if d == 2 && on_board(nx, ny) {
            assert((c + 1) as u64 == cell(nx, ny) as u64);
            assert(step_spec(cell_mask(x, y), d) == 1u64 << ((c + 1) as u64));
        }
        if d == 3 && on_board(nx, ny) {
            assert((c + 8) as u64 == cell(nx, ny) as u64);
            assert(step_spec(cell_mask(x, y), d) == 1u64 << ((c + 8) as u64));
        }
        if d == 4 && on_board(nx, ny) {
            assert((c - 9) as u64 == cell(nx, ny) as u64);
            assert(step_spec(cell_mask(x, y), d) == 1u64 << ((c - 9) as u64));
        }
        if d == 5 && on_board(nx, ny) {
            assert((c - 7) as u64 == cell(nx, ny) as u64);
            assert(step_spec(cell_mask(x, y), d) == 1u64 << ((c - 7) as u64));
        }
        if d == 6 && on_board(nx, ny) {
            assert((c + 7) as u64 == cell(nx, ny) as u64);
            assert(step_spec(cell_mask(x, y), d) == 1u64 << ((c + 7) as u64));
        }
        if d == 7 && on_board(nx, ny) {
            assert((c + 9) as u64 == cell(nx, ny) as u64);
            assert(step_spec(cell_mask(x, y), d) == 1u64 << ((c + 9) as u64));
        }
    }
}

/// A bit of `t` added to a mask within `t` leaves it within `t`, and not
/// empty.
proof fn bv_ray(r: u64, t: u64, c: u64)
    by (bit_vector)
    requires
        c < 64,
        r & t == r,
        (1u64 << c) & t != 0,
    ensures
        (r | (1u64 << c)) & t == r | (1u64 << c),
        r | (1u64 << c) != 0,
{
}

/// The union of two masks within `t` is within `t`.
proof fn bv_union_within(a: u64, b: u64, t: u64)
    by (bit_vector)
    requires
        a & t == a,
        b & t == b,
    ensures
        (a | b) & t == a | b,
        0u64 & t == 0u64,
{
}

/// A mask that shares nothing with a union shares nothing with its parts.
proof fn bv_vacant(b: u64, w: u64, m: u64)
    by (bit_vector)
    requires
        (b | w) & m == 0,
    ensures
        m & b == 0,
        m & w == 0,
{
}

/// An intersection does not depend on the order of the masks.
proof fn bv_commute(a: u64, b: u64)
    by (bit_vector)
    ensures
        a & b == b & a,
{
}

/// After a move no cell is both black and white: the mover gains the new
/// disc `m` and the captured discs `r`, which the other side loses.
proof fn bv_put(b: u64, w: u64, m: u64, r: u64)
    by (bit_vector)
    requires
        b & w == 0,
        m & b == 0,
        m & w == 0,
        r & w == r,
    ensures
        (b | (m | r)) & (w ^ r) == 0,
        (w ^ r) & (b | (m | r)) == 0,
{
}

/// The side to move's mask and the other side's.
pub open spec fn own_mask(black: u64, white: u64, turn: Turn) -> u64 {
    if turn == Turn::Black {
        black
    } else {
        white
    }
}

/// The discs that a disc put on `(x, y)` captures in the direction numbered
/// `d`, as a mask.
#[verifier::rlimit(40)]
fn capture_ray(black: u64, white: u64, turn: Turn, x: u8, y: u8, d: u8) -> (r: u64)
    requires
        x < 8,
        y < 8,
        d < 8,
        black & white == 0,
    ensures
        forall|i: int|
            0 <= i < 64 ==> (#[trigger] bit(r, i) <==> flipped_in(
                mask_cells(black, white),
                turn,
                x as int,
                y as int,
                dir_dx(d as int),
                dir_dy(d as int),
                i % 8,
                i / 8,
            )),
        r & own_mask(black, white, other(turn)) == r,
        (r == 0) == (captured(
            mask_cells(black, white),
            turn,
            x as int,
            y as int,
            dir_dx(d as int),
            dir_dy(d as int),
        ) == 0),
{
    let (taker, taken) = if turn == Turn::Black {
        (black, white)
    } else {
        (white, black)
    };
    let ghost cells = mask_cells(black, white);
    let ghost dx = dir_dx(d as int);
    let ghost dy = dir_dy(d as int);
    let ghost xi = x as int;
    let ghost yi = y as int;
    let mv = idx(x, y);
    let mut r: u64 = 0;
    let mut moo: u64 = step(mv, d);
    let ghost mut k: int = 0;
    proof {
        lemma_step_cell(xi, yi, d as int);
        lemma_or_zero(taken, taken);
        assert forall|i: int| 0 <= i < 64 implies !(bit(black, i) && bit(white, i)) by {
            lemma_disjoint_bits(black, white, i);
        }
    }
    while moo & taken != 0
        invariant
            0 <= k <= 7,
            x < 8,
            y < 8,
            d < 8,
            xi == x,
            yi == y,
            dx == dir_dx(d as int),
            dy == dir_dy(d as int),
            cells == mask_cells(black, white),
            taker == own_mask(black, white, turn),
            taken == own_mask(black, white, other(turn)),
            forall|i: int| 0 <= i < 64 ==> !(bit(black, i) && bit(white, i)),
            forall|j: int| 1 <= j <= k ==> #[trigger] seen(cells, xi, yi, dx, dy, j) == disc(other(turn)),
            moo == cell_mask(along(xi, dx, k + 1), along(yi, dy, k + 1)),
            forall|i: int|
                0 <= i < 64 ==> (#[trigger] bit(r, i) <==> 1 <= ray_pos(xi, yi, dx, dy, i % 8, i / 8)
                    <= k),
            r & taken == r,
            (r == 0) == (k == 0),
        decreases 8 - k,
    {
        let ghost nx = along(xi, dx, k + 1);
        let ghost ny = along(yi, dy, k + 1);
        proof {
            lemma_or_zero(taken, taken);
            assert(on_board(nx, ny));
            lemma_bit_test(taken, cell(nx, ny) as u64);
            bv_ray(r, taken, cell(nx, ny) as u64);
            lemma_step_cell(nx, ny, d as int);
            assert(seen(cells, xi, yi, dx, dy, k + 1) == disc(other(turn)));
        }
        r = r | moo;
        moo = step(moo, d);
        proof {
            k = k + 1;
        }
    }
    proof {
        let nx = along(xi, dx, k + 1);
        let ny = along(yi, dy, k + 1);
        lemma_or_zero(taker, taker);
        if on_board(nx, ny) {
            lemma_bit_test(taken, cell(nx, ny) as u64);
            lemma_bit_test(taker, cell(nx, ny) as u64);
        }
        lemma_captured(cells, turn, xi, yi, dx, dy, k);
        bv_union_within(r, r, taken);
    }
    if moo & taker != 0 {
        r
    } else {
        0
    }
}

/// A board that keeps one mask per colour.
#[derive(Clone, Copy, Debug)]
pub struct BitBoard {
    turn: Turn,
    black: u64,
    white: u64,
}

impl BitBoard {
    /// No cell is both black and white.
    #[verifier::type_invariant]
    spec fn disjoint(self) -> bool {
        self.black & self.white == 0
    }

    /// The board at the start of a game, with Black to move.
    pub fn new() -> (b: BitBoard)
        ensures
            b@.cells == opening_cells(),
            b@.turn == Turn::Black,
    {
        let black: u64 = 0x00_00_00_08_10_00_00_00u64;
        let white: u64 = 0x00_00_00_10_08_00_00_00u64;
        assert(black & white == 0 && black == (1u64 << 28) | (1u64 << 35) && white == (1u64 << 27)
            | (1u64 << 36)) by (bit_vector)
            requires
                black == 0x00_00_00_08_10_00_00_00u64,
                white == 0x00_00_00_10_08_00_00_00u64,
        ;
        let b = BitBoard { turn: Turn::Black, black, white };
        assert(b@.cells =~= opening_cells());
        b
    }
}

/// A cell given to one colour, or to none, is still not both black and
/// white.
proof fn bv_set(b: u64, w: u64, i: u64)
    by (bit_vector)
    requires
        b & w == 0,
    ensures
        (b | i) & (w & !i) == 0,
        (b & !i) & (w | i) == 0,
        (b & !i) & (w & !i) == 0,
{
}

/// No cell is marked in both of two masks that have no common bit.
pub proof fn lemma_disjoint_bits(a: u64, b: u64, i: int)
    requires
        a & b == 0,
    ensures
        !(bit(a, i) && bit(b, i)),
{
    assert(bit(a & b, i) == (bit(a, i) && bit(b, i)));
}

impl Board for BitBoard {
    closed spec fn view(&self) -> Position {
        Position { cells: mask_cells(self.black, self.white), turn: self.turn }
    }

    proof fn lemma_cells(&self) {
    }

    fn reset(&mut self) {
        *self = BitBoard::new();
    }

    fn get(&self, x: u8, y: u8) -> (t: Tile) {
        let i = idx(x, y);
        proof {
            crate::bits::lemma_bit_test(self.black, cell(x as int, y as int) as u64);
            crate::bits::lemma_bit_test(self.white, cell(x as int, y as int) as u64);
        }
        if self.black & i != 0 {
            Tile::Black
        } else if self.white & i != 0 {
            Tile::White
        } else {
            Tile::Empty
        }
    }

    fn set(&mut self, x: u8, y: u8, tile: Tile) {
        let i = idx(x, y);
        proof {
            use_type_invariant(&*self);
            bv_set(self.black, self.white, i);
            assert forall|j: int| 0 <= j < 64 implies !(bit(self.black, j) && bit(self.white, j)) by {
                lemma_disjoint_bits(self.black, self.white, j);
            }
        }
        match tile {
            Tile::Black => {
                *self = BitBoard { turn: self.turn, black: self.black | i, white: self.white & !i };
            },
            Tile::White => {
                *self = BitBoard { turn: self.turn, black: self.black & !i, white: self.white | i };
            },
            Tile::Empty => {
                *self = BitBoard { turn: self.turn, black: self.black & !i, white: self.white & !i };
            },
        }
        assert(self@.cells =~= old(self)@.cells.update(cell(x as int, y as int), tile));
    }

    fn get_turn(&self) -> (t: Turn) {
        self.turn
    }

    fn set_turn(&mut self, turn: Turn) {
        proof {
            use_type_invariant(&*self);
        }
        self.turn = turn;
    }

    fn bitboard(&self) -> (m: (u64, u64)) {
        proof {
            use_type_invariant(self);
            assert forall|j: int| 0 <= j < 64 implies !(bit(self.black, j) && bit(self.white, j)) by {
                lemma_disjoint_bits(self.black, self.white, j);
            }
        }
        (self.black, self.white)
    }

    fn apply_move(&mut self, mv: Move) -> (r: Result<(), MoveError>) {
        proof {
            use_type_invariant(&*self);
        }
        match mv {
            Move::Pass => {
                self.turn = flip_turn(self.turn);
                Ok(())
            },
            Move::Put { x, y } => {
                let turn = self.turn;
                let black = self.black;
                let white = self.white;
                let ghost cells = mask_cells(black, white);
                let ghost xi = x as int;
                let ghost yi = y as int;
                let place = idx(x, y);
                proof {
                    lemma_bit_test(black | white, cell(xi, yi) as u64);
                    assert forall|j: int| 0 <= j < 64 implies !(bit(black, j) && bit(white, j)) by {
                        lemma_disjoint_bits(black, white, j);
                    }
                }
                if (black | white) & place != 0 {
                    return Err(MoveError::AlreadyOccupied);
                }
                let mut result: u64 = 0;
                let mut d: u8 = 0;
                proof {
                    lemma_or_zero(own_mask(black, white, other(turn)), 0);
                }
                while d < 8
                    invariant
                        d <= 8,
                        x < 8,
                        y < 8,
                        xi == x,
                        yi == y,
                        black & white == 0,
                        cells == mask_cells(black, white),
                        forall|i: int|
                            0 <= i < 64 ==> (#[trigger] bit(result, i) <==> flipped_upto(
                                cells,
                                turn,
                                xi,
                                yi,
                                i % 8,
                                i / 8,
                                d as int,
                            )),
                        result & own_mask(black, white, other(turn)) == result,
                        (result == 0) == !captures_upto(cells, turn, xi, yi, d as int),
                    decreases 8 - d,
                {
                    let r = capture_ray(black, white, turn, x, y, d);
                    proof {
                        lemma_or_zero(result, r);
                        bv_union_within(result, r, own_mask(black, white, other(turn)));
                    }
                    result = result | r;
                    d += 1;
                }
                if result == 0 {
                    return Err(MoveError::NoCaptures);
                }
                proof {
                    lemma_bit_test(black, cell(xi, yi) as u64);
                    lemma_bit_test(white, cell(xi, yi) as u64);
                    lemma_or_zero(place, place);
                    assert(place & black == 0 && place & white == 0) by {
                        bv_vacant(black, white, place);
                    }
                    if turn == Turn::Black {
                        bv_put(black, white, place, result);
                    } else {
                        bv_commute(black, white);
                        bv_put(white, black, place, result);
                    }
                }
                let ghost taken = own_mask(black, white, other(turn));
                assert forall|i: int| 0 <= i < 64 && bit(result, i) implies bit(taken, i) by {
                    assert(bit(result & taken, i) == (bit(result, i) && bit(taken, i)));
                }
                if turn == Turn::Black {
                    *self = BitBoard {
                        turn: Turn::White,
                        black: black | (place | result),
                        white: white ^ result,
                    };
                } else {
                    *self = BitBoard {
                        turn: Turn::Black,
                        black: black ^ result,
                        white: white | (place | result),
                    };
                }
                assert(self@.cells =~= put(cells, turn, xi, yi));
                Ok(())
            },
        }
    }

    fn count(&self, tile: Tile) -> (n: u32) {
        proof {
            use_type_invariant(self);
            assert forall|j: int| 0 <= j < 64 implies !(bit(self.black, j) && bit(self.white, j)) by {
                lemma_disjoint_bits(self.black, self.white, j);
            }
        }
        match tile {
            Tile::Black => {
                proof {
                    lemma_count_mask(self@.cells, Tile::Black, self.black, 64);
                }
                self.black.count_ones()
            },
            Tile::White => {
                proof {
                    lemma_count_mask(self@.cells, Tile::White, self.white, 64);
                }
                self.white.count_ones()
            },
            Tile::Empty => {
                proof {
                    lemma_count_mask(self@.cells, Tile::Empty, !(self.black | self.white), 64);
                }
                (!(self.black | self.white)).count_ones()
            },
        }
    }

    fn count_both(&self) -> (n: u32) {
        proof {
            use_type_invariant(self);
            assert forall|j: int| 0 <= j < 64 implies !(bit(self.black, j) && bit(self.white, j)) by {
                lemma_disjoint_bits(self.black, self.white, j);
            }
            lemma_count_mask(self@.cells, Tile::Black, self.black, 64);
            lemma_count_mask(self@.cells, Tile::White, self.white, 64);
            lemma_count_union(self.black, self.white, 64);
        }
        (self.black | self.white).count_ones()
    }
}

/// A board that keeps one tile per cell.
#[derive(Debug)]
pub struct VecBoard {
    turn: Turn,
    board: Vec<Tile>,
}

impl VecBoard {
    /// There are 64 cells.
    #[verifier::type_invariant]
    spec fn full(self) -> bool {
        self.board.len() == 64
    }

    /// The board at the start of a game, with Black to move.
    pub fn new() -> (b: VecBoard)
        ensures
            b@.cells == opening_cells(),
            b@.turn == Turn::Black,
    {
        let mut board: Vec<Tile> = Vec::new();
        let mut i: u8 = 0;
        while i < 64
            invariant
                i <= 64,
                board.len() == i,
                forall|j: int| 0 <= j < i ==> #[trigger] board[j] == opening_cells()[j],
            decreases 64 - i,
        {
            if i == 27 || i == 36 {
                board.push(Tile::White);
            } else if i == 28 || i == 35 {
                board.push(Tile::Black);
            } else {
                board.push(Tile::Empty);
            }
            i += 1;
        }
        let b = VecBoard { turn: Turn::Black, board };
        assert(b@.cells =~= opening_cells());
        b
    }
}

impl Clone for VecBoard {
    fn clone(&self) -> (r: Self)
        ensures
            r@.cells == self@.cells,
            r@.turn == self@.turn,
    {
        proof {
            use_type_invariant(self);
        }
        let mut board: Vec<Tile> = Vec::new();
        let mut i: usize = 0;
        while i < 64
            invariant
                i <= 64,
                self.board.len() == 64,
                board.len() == i,
                forall|j: int| 0 <= j < i ==> #[trigger] board[j] == self.board[j],
            decreases 64 - i,
        {
            board.push(self.board[i]);
            i += 1;
        }
        let r = VecBoard { turn: self.turn, board };
        assert(r@.cells =~= self@.cells);
        r
    }
}

impl Board for VecBoard {
    closed spec fn view(&self) -> Position {
        Position {
            cells: Seq::new(
                64,
                |i: int|
                    if i < self.board.len() {
                        self.board[i]
                    } else {
                        Tile::Empty
                    },
            ),
            turn: self.turn,
        }
    }

    proof fn lemma_cells(&self) {
    }

    fn reset(&mut self) {
        *self = VecBoard::new();
    }

    fn get(&self, x: u8, y: u8) -> (t: Tile) {
        proof {
            use_type_invariant(self);
        }
        let pos = (y * 8 + x) as usize;
        self.board[pos]
    }

    fn set(&mut self, x: u8, y: u8, tile: Tile) {
        proof {
            use_type_invariant(&*self);
        }
        let pos = (y * 8 + x) as usize;
        self.board[pos] = tile;
        assert(self@.cells =~= old(self)@.cells.update(cell(x as int, y as int), tile));
    }

    fn get_turn(&self) -> (t: Turn) {
        self.turn
    }

    fn set_turn(&mut self, turn: Turn) {
        proof {
            use_type_invariant(&*self);
        }
        self.turn = turn;
    }

    fn bitboard(&self) -> (m: (u64, u64)) {
        let mut black: u64 = 0;
        let mut white: u64 = 0;
        let mut y: u8 = 0;
        while y < 8
            invariant
                y <= 8,
                forall|i: int|
                    0 <= i < 64 ==> (#[trigger] bit(black, i) <==> i < y * 8 && self@.cells[i]
                        == Tile::Black),
                forall|i: int|
                    0 <= i < 64 ==> (#[trigger] bit(white, i) <==> i < y * 8 && self@.cells[i]
                        == Tile::White),
            decreases 8 - y,
        {
            let mut x: u8 = 0;
            while x < 8
                invariant
                    y < 8,
                    x <= 8,
                    forall|i: int|
                        0 <= i < 64 ==> (#[trigger] bit(black, i) <==> i < y * 8 + x
                            && self@.cells[i] == Tile::Black),
                    forall|i: int|
                        0 <= i < 64 ==> (#[trigger] bit(white, i) <==> i < y * 8 + x
                            && self@.cells[i] == Tile::White),
                decreases 8 - x,
            {
                match self.get(x, y) {
                    Tile::Black => {
                        black = black | idx(x, y);
                    },
                    Tile::White => {
                        white = white | idx(x, y);
                    },
                    Tile::Empty => (),
                }
                x += 1;
            }
            y += 1;
        }
        proof {
            assert forall|i: int| 0 <= i < 64 implies !bit(black & white, i) by {}
            crate::bits::lemma_no_bit_zero(black & white);
        }
        (black, white)
    }
}

/// A mask board with the tiles and the side to move of any board.
pub fn snapshot<B: Board>(board: &B) -> (r: BitBoard)
    ensures
        r@.cells == board@.cells,
        r@.turn == board@.turn,
{
    proof {
        board.lemma_cells();
    }
    let (black, white) = board.bitboard();
    let r = BitBoard { turn: board.get_turn(), black, white };
    assert(r@.cells =~= board@.cells);
    r
}

/// A fresh board at the start of a game.
pub fn make_board() -> (b: BitBoard)
    ensures
        b@.cells == opening_cells(),
        b@.turn == Turn::Black,
{
    BitBoard::new()
}

} // verus!
