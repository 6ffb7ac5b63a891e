//! The rules of the game, stated over a plain sequence of 64 tiles.
//!
//! A cell `(x, y)` has the index `y * 8 + x`. Everything here is ghost: the
//! boards of this crate say in their contracts what they do to such a
//! sequence.

use vstd::prelude::*;
use crate::board::{Move, Tile, Turn};

verus! {

/// The abstract state of a game: 64 tiles and the side to move.
pub struct Position {
    /// What the cells hold, the cell `(x, y)` at index `y * 8 + x`.
    pub cells: Seq<Tile>,
    /// The side to move.
    pub turn: Turn,
}

/// Whether `(x, y)` is a cell of the board.
pub open spec fn on_board(x: int, y: int) -> bool {
    0 <= x < 8 && 0 <= y < 8
}

/// The index of the cell `(x, y)`.
pub open spec fn cell(x: int, y: int) -> int {
    y * 8 + x
}

/// What the cell `(x, y)` holds.
pub open spec fn tile_at(cells: Seq<Tile>, x: int, y: int) -> Tile {
    cells[cell(x, y)]
}

/// The other side.
pub open spec fn other(turn: Turn) -> Turn {
    match turn {
        Turn::Black => Turn::White,
        Turn::White => Turn::Black,
    }
}

/// The disc of a side.
pub open spec fn disc(turn: Turn) -> Tile {
    match turn {
        Turn::Black => Tile::Black,
        Turn::White => Tile::White,
    }
}

/// One of the eight directions, as a step of -1, 0 or 1 along each axis.
pub open spec fn is_dir(dx: int, dy: int) -> bool {
    -1 <= dx <= 1 && -1 <= dy <= 1 && (dx != 0 || dy != 0)
}

/// The coordinate reached from `a` after `k` steps of `d`.
pub open spec fn along(a: int, d: int, k: int) -> int {
    if d > 0 {
        a + k
    } else if d < 0 {
        a - k
    } else {
        a
    }
}

/// How many steps are left before a walk from `(x, y)` leaves the board.
pub open spec fn room(x: int, y: int, dx: int, dy: int) -> int {
    if dx > 0 {
        8 - x
    } else if dx < 0 {
        x + 1
    } else if dy > 0 {
        8 - y
    } else {
        y + 1
    }
}

/// The number of consecutive discs `who` met from `(x, y)` itself onward in
/// the direction `(dx, dy)`.
pub open spec fn run_len(cells: Seq<Tile>, who: Tile, x: int, y: int, dx: int, dy: int) -> int
    decreases room(x, y, dx, dy),
{
    if is_dir(dx, dy) && on_board(x, y) && tile_at(cells, x, y) == who {
        1 + run_len(cells, who, x + dx, y + dy, dx, dy)
    } else {
        0
    }
}

/// The number of discs that `turn` captures in the direction `(dx, dy)` by
/// putting a disc on `(x, y)`: the run of opposing discs next to `(x, y)`,
/// where one of the mover's own discs ends it, and none otherwise.
pub open spec fn captured(cells: Seq<Tile>, turn: Turn, x: int, y: int, dx: int, dy: int) -> int {
    let n = run_len(cells, disc(other(turn)), x + dx, y + dy, dx, dy);
    let ex = along(x, dx, n + 1);
    let ey = along(y, dy, n + 1);
    if n > 0 && on_board(ex, ey) && tile_at(cells, ex, ey) == disc(turn) {
        n
    } else {
        0
    }
}

/// The distance of a number from 0.
pub open spec fn abs(a: int) -> int {
    if a < 0 {
        -a
    } else {
        a
    }
}

/// The number of steps of `(dx, dy)` that lead from `(x, y)` to `(cx, cy)`,
/// or 0 where no positive number of steps does.
pub open spec fn ray_pos(x: int, y: int, dx: int, dy: int, cx: int, cy: int) -> int {
    let k = if cx != x {
        abs(cx - x)
    } else {
        abs(cy - y)
    };
    if k >= 1 && cx == along(x, dx, k) && cy == along(y, dy, k) {
        k
    } else {
        0
    }
}

/// Whether the disc on `(cx, cy)` is among those captured in the direction
/// `(dx, dy)`.
pub open spec fn flipped_in(
    cells: Seq<Tile>,
    turn: Turn,
    x: int,
    y: int,
    dx: int,
    dy: int,
    cx: int,
    cy: int,
) -> bool {
    1 <= ray_pos(x, y, dx, dy, cx, cy) <= captured(cells, turn, x, y, dx, dy)
}

/// The step along the x axis of the direction numbered `d`, for `d` in `0..8`.
pub open spec fn dir_dx(d: int) -> int {
    if d == 0 || d == 4 || d == 6 {
        -1
    } else if d == 2 || d == 5 || d == 7 {
        1
    } else {
        0
    }
}

/// The step along the y axis of the direction numbered `d`, for `d` in `0..8`.
pub open spec fn dir_dy(d: int) -> int {
    if d == 1 || d == 4 || d == 5 {
        -1
    } else if d == 3 || d == 6 || d == 7 {
        1
    } else {
        0
    }
}

/// Whether the disc on `(cx, cy)` is captured, in the first `n` directions,
/// when `turn` puts a disc on `(x, y)`.
pub open spec fn flipped_upto(
    cells: Seq<Tile>,
    turn: Turn,
    x: int,
    y: int,
    cx: int,
    cy: int,
    n: int,
) -> bool
    decreases n,
{
    if n <= 0 {
        false
    } else {
        flipped_upto(cells, turn, x, y, cx, cy, n - 1) || flipped_in(
            cells,
            turn,
            x,
            y,
            dir_dx(n - 1),
            dir_dy(n - 1),
            cx,
            cy,
        )
    }
}

/// Whether the disc on `(cx, cy)` is captured when `turn` puts a disc on
/// `(x, y)`.
pub open spec fn flipped(cells: Seq<Tile>, turn: Turn, x: int, y: int, cx: int, cy: int) -> bool {
    flipped_upto(cells, turn, x, y, cx, cy, 8)
}

/// Whether a disc put on `(x, y)` captures anything in the first `n`
/// directions.
pub open spec fn captures_upto(cells: Seq<Tile>, turn: Turn, x: int, y: int, n: int) -> bool
    decreases n,
{
    if n <= 0 {
        false
    } else {
        captures_upto(cells, turn, x, y, n - 1) || captured(
            cells,
            turn,
            x,
            y,
            dir_dx(n - 1),
            dir_dy(n - 1),
        ) > 0
    }
}

/// Whether a disc put on `(x, y)` captures anything.
pub open spec fn captures(cells: Seq<Tile>, turn: Turn, x: int, y: int) -> bool {
    captures_upto(cells, turn, x, y, 8)
}

/// Whether `turn` may put a disc on `(x, y)`: the cell is empty and the disc
/// captures at least one opposing disc.
pub open spec fn legal(cells: Seq<Tile>, turn: Turn, x: int, y: int) -> bool {
    on_board(x, y) && tile_at(cells, x, y) == Tile::Empty && captures(cells, turn, x, y)
}

/// The tiles after `turn` has put a disc on `(x, y)`: the new disc, the
/// captured discs turned over, and every other cell as it was.
pub open spec fn put(cells: Seq<Tile>, turn: Turn, x: int, y: int) -> Seq<Tile> {
    Seq::new(
        64,
        |i: int|
            if i == cell(x, y) || flipped(cells, turn, x, y, i % 8, i / 8) {
                disc(turn)
            } else {
                cells[i]
            },
    )
}

/// Whether the move is within the rules in the position.
pub open spec fn move_ok(pos: Position, mv: Move) -> bool {
    match mv {
        Move::Pass => true,
        Move::Put { x, y } => legal(pos.cells, pos.turn, x as int, y as int),
    }
}

/// The position after a move that is within the rules.
pub open spec fn play(pos: Position, mv: Move) -> Position {
    match mv {
        Move::Pass => Position { cells: pos.cells, turn: other(pos.turn) },
        Move::Put { x, y } => Position {
            cells: put(pos.cells, pos.turn, x as int, y as int),
            turn: other(pos.turn),
        },
    }
}

/// The number of cells among the first `n` that hold `tile`.
pub open spec fn count_upto(cells: Seq<Tile>, tile: Tile, n: int) -> nat
    decreases n,
{
    if n <= 0 {
        0
    } else {
        count_upto(cells, tile, n - 1) + if cells[n - 1] == tile {
            1nat
        } else {
            0nat
        }
    }
}

/// The number of cells that hold `tile`.
pub open spec fn count_tiles(cells: Seq<Tile>, tile: Tile) -> nat {
    count_upto(cells, tile, 64)
}

/// The number of discs on the board, of either colour.
pub open spec fn count_discs(cells: Seq<Tile>) -> nat {
    count_tiles(cells, Tile::Black) + count_tiles(cells, Tile::White)
}

/// The tiles at the start of a game.
pub open spec fn opening_cells() -> Seq<Tile> {
    Seq::new(
        64,
        |i: int|
            if i == 27 || i == 36 {
                Tile::White
            } else if i == 28 || i == 35 {
                Tile::Black
            } else {
                Tile::Empty
            },
    )
}

/// The move that puts a disc on the cell of index `i`.
pub open spec fn cell_move(i: int) -> Move {
    Move::Put { x: (i % 8) as u8, y: (i / 8) as u8 }
}

/// The discs that `turn` may put on the cells of index `i` and more, in the
/// order of the cells.
pub open spec fn legal_moves_from(cells: Seq<Tile>, turn: Turn, i: int) -> Seq<Move>
    decreases 64 - i,
{
    if i < 0 || i >= 64 {
        Seq::empty()
    } else if legal(cells, turn, i % 8, i / 8) {
        seq![cell_move(i)] + legal_moves_from(cells, turn, i + 1)
    } else {
        legal_moves_from(cells, turn, i + 1)
    }
}

/// Every disc that `turn` may put on the board, in the order of the cells.
/// Where there is none, the side has to pass.
pub open spec fn legal_moves(cells: Seq<Tile>, turn: Turn) -> Seq<Move> {
    legal_moves_from(cells, turn, 0)
}

/// The moves that a side has to choose from: the discs that it may put
/// on the board, or the pass alone where there is none.
pub open spec fn choices(pos: Position) -> Seq<Move> {
    let m = legal_moves(pos.cells, pos.turn);
    if m.len() == 0 {
        seq![Move::Pass]
    } else {
        m
    }
}

/// Whether the side to move may play the move: a disc where the rules allow
/// it, and a pass only where they allow no disc anywhere.
pub open spec fn playable(pos: Position, mv: Move) -> bool {
    match mv {
        Move::Pass => legal_moves(pos.cells, pos.turn).len() == 0,
        Move::Put { x, y } => legal(pos.cells, pos.turn, x as int, y as int),
    }
}

/// Every listed move puts a disc on a cell where the rules allow it.
pub proof fn lemma_legal_moves(cells: Seq<Tile>, turn: Turn, i: int, j: int)
    requires
        0 <= j < legal_moves_from(cells, turn, i).len(),
    ensures
        legal_moves_from(cells, turn, i)[j] matches Move::Put { x, y } && legal(
            cells,
            turn,
            x as int,
            y as int,
        ),
    decreases 64 - i,
{
    if 0 <= i < 64 {
        if legal(cells, turn, i % 8, i / 8) {
            if j > 0 {
                lemma_legal_moves(cells, turn, i + 1, j - 1);
            }
        } else {
            lemma_legal_moves(cells, turn, i + 1, j);
        }
    }
}

/// Every move that a side has to choose from is within the rules.
pub proof fn lemma_choices(pos: Position, j: int)
    requires
        0 <= j < choices(pos).len(),
    ensures
        move_ok(pos, choices(pos)[j]),
        choices(pos)[j] matches Move::Put { x, y } ==> x < 8 && y < 8,
{
    if legal_moves(pos.cells, pos.turn).len() > 0 {
        lemma_legal_moves(pos.cells, pos.turn, 0, j);
    }
}

/// The tile met `j` steps of `(dx, dy)` away from `(x, y)`; beyond the edge
/// of the board nothing is met.
pub open spec fn seen(cells: Seq<Tile>, x: int, y: int, dx: int, dy: int, j: int) -> Tile {
    if on_board(along(x, dx, j), along(y, dy, j)) {
        tile_at(cells, along(x, dx, j), along(y, dy, j))
    } else {
        Tile::Empty
    }
}

/// A walk that meets `k` discs of one colour and then anything else has met
/// a run of exactly `k`.
pub proof fn lemma_run_exact(
    cells: Seq<Tile>,
    who: Tile,
    x: int,
    y: int,
    dx: int,
    dy: int,
    k: int,
)
    requires
        is_dir(dx, dy),
        who != Tile::Empty,
        0 <= k,
        forall|j: int| 1 <= j <= k ==> #[trigger] seen(cells, x, y, dx, dy, j) == who,
        seen(cells, x, y, dx, dy, k + 1) != who,
    ensures
        run_len(cells, who, x + dx, y + dy, dx, dy) == k,
    decreases k,
{
    assert(along(x, dx, 1) == x + dx && along(y, dy, 1) == y + dy);
    if k == 0 {
    } else {
        assert(seen(cells, x, y, dx, dy, 1) == who);
        assert forall|j: int| 1 <= j <= k - 1 implies #[trigger] seen(
            cells,
            x + dx,
            y + dy,
            dx,
            dy,
            j,
        ) == who by {
            assert(seen(cells, x, y, dx, dy, j + 1) == who);
        }
        assert(seen(cells, x + dx, y + dy, dx, dy, k) == seen(cells, x, y, dx, dy, k + 1));
        lemma_run_exact(cells, who, x + dx, y + dy, dx, dy, k - 1);
    }
}

/// What a disc captures in one direction, told from a walk: after `k`
/// opposing discs, the run is captured where the next tile is the mover's.
pub proof fn lemma_captured(cells: Seq<Tile>, turn: Turn, x: int, y: int, dx: int, dy: int, k: int)
    requires
        is_dir(dx, dy),
        0 <= k,
        forall|j: int| 1 <= j <= k ==> #[trigger] seen(cells, x, y, dx, dy, j) == disc(other(turn)),
        seen(cells, x, y, dx, dy, k + 1) != disc(other(turn)),
    ensures
        captured(cells, turn, x, y, dx, dy) == (if k > 0 && seen(cells, x, y, dx, dy, k + 1)
            == disc(turn) {
            k
        } else {
            0
        }),
{
    lemma_run_exact(cells, disc(other(turn)), x, y, dx, dy, k);
}

/// A run has no negative length.
pub proof fn lemma_run_nonneg(cells: Seq<Tile>, who: Tile, x: int, y: int, dx: int, dy: int)
    ensures
        0 <= run_len(cells, who, x, y, dx, dy) <= 8,
        is_dir(dx, dy) && on_board(x, y) ==> run_len(cells, who, x, y, dx, dy) <= room(x, y, dx, dy),
    decreases room(x, y, dx, dy),
{
    if is_dir(dx, dy) && on_board(x, y) && tile_at(cells, x, y) == who {
        lemma_run_nonneg(cells, who, x + dx, y + dy, dx, dy);
    }
}

/// The tiles while the captured discs are being turned over one by one:
/// those of the first `d` directions are done, and of the direction
/// numbered `d` the first `k`.
pub open spec fn turned(cells: Seq<Tile>, turn: Turn, x: int, y: int, d: int, k: int) -> Seq<Tile> {
    Seq::new(
        64,
        |i: int|
            if flipped_upto(cells, turn, x, y, i % 8, i / 8, d) || 1 <= ray_pos(
                x,
                y,
                dir_dx(d),
                dir_dy(d),
                i % 8,
                i / 8,
            ) <= k {
                disc(turn)
            } else {
                cells[i]
            },
    )
}

/// Before any disc is turned over the tiles are as they were.
pub proof fn lemma_turned_start(cells: Seq<Tile>, turn: Turn, x: int, y: int)
    requires
        cells.len() == 64,
    ensures
        turned(cells, turn, x, y, 0, 0) == cells,
{
    assert(turned(cells, turn, x, y, 0, 0) =~= cells);
}

/// Turning over the next disc of a direction.
#[verifier::rlimit(40)]
pub proof fn lemma_turned_step(cells: Seq<Tile>, turn: Turn, x: int, y: int, d: int, k: int)
    requires
        0 <= d < 8,
        0 <= k,
        on_board(x, y),
        on_board(along(x, dir_dx(d), k + 1), along(y, dir_dy(d), k + 1)),
    ensures
        turned(cells, turn, x, y, d, k).update(
            cell(along(x, dir_dx(d), k + 1), along(y, dir_dy(d), k + 1)),
            disc(turn),
        ) == turned(cells, turn, x, y, d, k + 1),
{
    let dx = dir_dx(d);
    let dy = dir_dy(d);
    let c = cell(along(x, dx, k + 1), along(y, dy, k + 1));
    let a = turned(cells, turn, x, y, d, k).update(c, disc(turn));
    let b = turned(cells, turn, x, y, d, k + 1);
    assert forall|i: int| 0 <= i < 64 implies a[i] == b[i] by {
        let p = ray_pos(x, y, dx, dy, i % 8, i / 8);
        if i == c {
            assert(i % 8 == along(x, dx, k + 1) && i / 8 == along(y, dy, k + 1));
            assert(p == k + 1);
        } else {
            assert(p != k + 1);
        }
    }
    assert(a =~= b);
}

/// With every captured disc of a direction turned over, the next direction
/// begins.
pub proof fn lemma_turned_next(cells: Seq<Tile>, turn: Turn, x: int, y: int, d: int)
    requires
        0 <= d < 8,
    ensures
        turned(cells, turn, x, y, d, captured(cells, turn, x, y, dir_dx(d), dir_dy(d))) == turned(
            cells,
            turn,
            x,
            y,
            d + 1,
            0,
        ),
{
    assert(turned(cells, turn, x, y, d, captured(cells, turn, x, y, dir_dx(d), dir_dy(d))) =~= turned(
        cells,
        turn,
        x,
        y,
        d + 1,
        0,
    ));
}

/// With the captured discs of all directions turned over, the new disc
/// completes the move.
pub proof fn lemma_turned_end(cells: Seq<Tile>, turn: Turn, x: int, y: int)
    requires
        on_board(x, y),
    ensures
        turned(cells, turn, x, y, 8, 0).update(cell(x, y), disc(turn)) == put(cells, turn, x, y),
{
    assert(turned(cells, turn, x, y, 8, 0).update(cell(x, y), disc(turn)) =~= put(cells, turn, x, y));
}

/// A walk that meets `k` discs of `who` and then anything else, or the
/// edge, has met a run of exactly `k`.
pub proof fn lemma_run_counts(
    cells: Seq<Tile>,
    who: Tile,
    x: int,
    y: int,
    dx: int,
    dy: int,
    k: int,
)
    requires
        is_dir(dx, dy),
        0 <= k,
        forall|j: int|
            0 <= j < k ==> on_board(#[trigger] along(x, dx, j), along(y, dy, j)) && tile_at(
                cells,
                along(x, dx, j),
                along(y, dy, j),
            ) == who,
    ensures
        run_len(cells, who, x, y, dx, dy) >= k,
        !(on_board(along(x, dx, k), along(y, dy, k)) && tile_at(
            cells,
            along(x, dx, k),
            along(y, dy, k),
        ) == who) ==> run_len(cells, who, x, y, dx, dy) == k,
    decreases k,
{
    assert(along(x, dx, 0) == x && along(y, dy, 0) == y);
    lemma_run_nonneg(cells, who, x, y, dx, dy);
    if k > 0 {
        assert(on_board(along(x, dx, 0), along(y, dy, 0)));
        assert forall|j: int| 0 <= j < k - 1 implies on_board(
            #[trigger] along(x + dx, dx, j),
            along(y + dy, dy, j),
        ) && tile_at(cells, along(x + dx, dx, j), along(y + dy, dy, j)) == who by {
            assert(along(x + dx, dx, j) == along(x, dx, j + 1));
            assert(along(y + dy, dy, j) == along(y, dy, j + 1));
            assert(on_board(along(x, dx, j + 1), along(y, dy, j + 1)));
        }
        assert(along(x + dx, dx, k - 1) == along(x, dx, k));
        assert(along(y + dy, dy, k - 1) == along(y, dy, k));
        lemma_run_counts(cells, who, x + dx, y + dy, dx, dy, k - 1);
    }
}

/// The first cells of a run hold its disc.
pub proof fn lemma_run_cells(cells: Seq<Tile>, who: Tile, x: int, y: int, dx: int, dy: int, j: int)
    requires
        0 <= j < run_len(cells, who, x, y, dx, dy),
    ensures
        on_board(along(x, dx, j), along(y, dy, j)),
        tile_at(cells, along(x, dx, j), along(y, dy, j)) == who,
    decreases j,
{
    if j > 0 {
        lemma_run_cells(cells, who, x + dx, y + dy, dx, dy, j - 1);
        assert(along(x + dx, dx, j - 1) == along(x, dx, j));
        assert(along(y + dy, dy, j - 1) == along(y, dy, j));
    }
}

/// A captured disc is one of the other side's.
pub proof fn lemma_flipped_tile(
    cells: Seq<Tile>,
    turn: Turn,
    x: int,
    y: int,
    cx: int,
    cy: int,
    n: int,
)
    requires
        0 <= n <= 8,
        flipped_upto(cells, turn, x, y, cx, cy, n),
    ensures
        on_board(cx, cy),
        tile_at(cells, cx, cy) == disc(other(turn)),
        cx != x || cy != y,
    decreases n,
{
    let d = n - 1;
    let dx = dir_dx(d);
    let dy = dir_dy(d);
    if n > 0 && flipped_in(cells, turn, x, y, dx, dy, cx, cy) {
        let k = ray_pos(x, y, dx, dy, cx, cy);
        lemma_run_cells(cells, disc(other(turn)), x + dx, y + dy, dx, dy, k - 1);
        assert(along(x + dx, dx, k - 1) == cx && along(y + dy, dy, k - 1) == cy);
    } else {
        lemma_flipped_tile(cells, turn, x, y, cx, cy, n - 1);
    }
}

/// A move that captures turns over the disc next to the new one in some
/// direction.
pub proof fn lemma_captures_some(cells: Seq<Tile>, turn: Turn, x: int, y: int, n: int) -> (d: int)
    requires
        0 <= n <= 8,
        captures_upto(cells, turn, x, y, n),
    ensures
        0 <= d < n,
        captured(cells, turn, x, y, dir_dx(d), dir_dy(d)) > 0,
        flipped_upto(cells, turn, x, y, x + dir_dx(d), y + dir_dy(d), n),
    decreases n,
{
    if captured(cells, turn, x, y, dir_dx(n - 1), dir_dy(n - 1)) > 0 {
        let dx = dir_dx(n - 1);
        let dy = dir_dy(n - 1);
        assert(ray_pos(x, y, dx, dy, x + dx, y + dy) == 1);
        n - 1
    } else {
        lemma_captures_some(cells, turn, x, y, n - 1)
    }
}

/// How a legal move changes the number of cells that hold a given tile,
/// among the first `n` cells: one empty cell less, at least two of the
/// mover's discs more for the new disc and a captured one, and of the other
/// side's at least the captured one less.
pub proof fn lemma_put_count_upto(cells: Seq<Tile>, turn: Turn, x: int, y: int, f: int, n: int)
    requires
        cells.len() == 64,
        legal(cells, turn, x, y),
        0 <= f < 64,
        flipped(cells, turn, x, y, f % 8, f / 8),
        0 <= n <= 64,
    ensures
        count_upto(put(cells, turn, x, y), Tile::Empty, n) == count_upto(cells, Tile::Empty, n) - (
        if cell(x, y) < n {
            1int
        } else {
            0int
        }),
        count_upto(put(cells, turn, x, y), disc(turn), n) >= count_upto(cells, disc(turn), n) + (
        if cell(x, y) < n {
            1int
        } else {
            0int
        }) + (if f < n {
            1int
        } else {
            0int
        }),
        count_upto(put(cells, turn, x, y), disc(other(turn)), n) <= count_upto(
            cells,
            disc(other(turn)),
            n,
        ) - (if f < n {
            1int
        } else {
            0int
        }),
    decreases n,
{
    if n > 0 {
        lemma_put_count_upto(cells, turn, x, y, f, n - 1);
        let i = n - 1;
        if flipped(cells, turn, x, y, i % 8, i / 8) {
            lemma_flipped_tile(cells, turn, x, y, i % 8, i / 8, 8);
        }
        lemma_flipped_tile(cells, turn, x, y, f % 8, f / 8, 8);
    }
}

/// Every cell is empty, black or white.
pub proof fn lemma_count_total(cells: Seq<Tile>, n: int)
    requires
        0 <= n,
    ensures
        count_upto(cells, Tile::Empty, n) + count_upto(cells, Tile::Black, n) + count_upto(
            cells,
            Tile::White,
            n,
        ) == n,
    decreases n,
{
    if n > 0 {
        lemma_count_total(cells, n - 1);
    }
}

/// A disc put on the board within the rules fills one cell more; the mover
/// has at least two discs more, the new one and a captured one, and the
/// other side at least one less.
pub proof fn lemma_put_counts(cells: Seq<Tile>, turn: Turn, x: int, y: int)
    requires
        cells.len() == 64,
        legal(cells, turn, x, y),
    ensures
        count_tiles(put(cells, turn, x, y), Tile::Empty) == count_tiles(cells, Tile::Empty) - 1,
        count_discs(put(cells, turn, x, y)) == count_discs(cells) + 1,
        count_tiles(put(cells, turn, x, y), disc(turn)) >= count_tiles(cells, disc(turn)) + 2,
        count_tiles(put(cells, turn, x, y), disc(other(turn))) <= count_tiles(
            cells,
            disc(other(turn)),
        ) - 1,
{
    let d = lemma_captures_some(cells, turn, x, y, 8);
    let fx = x + dir_dx(d);
    let fy = y + dir_dy(d);
    lemma_flipped_tile(cells, turn, x, y, fx, fy, 8);
    let f = cell(fx, fy);
    assert(f % 8 == fx && f / 8 == fy);
    lemma_put_count_upto(cells, turn, x, y, f, 64);
    lemma_count_total(cells, 64);
    lemma_count_total(put(cells, turn, x, y), 64);
}

/// A pass leaves every disc where it is and hands the move over.
pub proof fn lemma_pass(pos: Position)
    ensures
        play(pos, Move::Pass).cells == pos.cells,
        play(pos, Move::Pass).turn == other(pos.turn),
        other(play(pos, Move::Pass).turn) == pos.turn,
        count_tiles(play(pos, Move::Pass).cells, Tile::Black) == count_tiles(pos.cells, Tile::Black),
        count_tiles(play(pos, Move::Pass).cells, Tile::White) == count_tiles(pos.cells, Tile::White),
        count_discs(play(pos, Move::Pass).cells) == count_discs(pos.cells),
{
}

/// The listed moves are the legal ones: a cell of the board is the target
/// of a listed move exactly where the rules allow a disc on it, so that the
/// list is empty exactly where no disc can be put, and no listed move goes
/// to a cell that holds a disc.
pub proof fn lemma_legal_moves_complete(cells: Seq<Tile>, turn: Turn, i: int, c: int)
    requires
        0 <= i <= c < 64,
    ensures
        legal(cells, turn, c % 8, c / 8) <==> legal_moves_from(cells, turn, i).contains(
            cell_move(c),
        ),
    decreases 64 - i,
{
    let rest = legal_moves_from(cells, turn, i + 1);
    let all = legal_moves_from(cells, turn, i);
    if i < c {
        lemma_legal_moves_complete(cells, turn, i + 1, c);
        if legal(cells, turn, i % 8, i / 8) {
            assert(all == seq![cell_move(i)] + rest);
            assert(cell_move(i) != cell_move(c));
            if rest.contains(cell_move(c)) {
                let j = choose|j: int| 0 <= j < rest.len() && rest[j] == cell_move(c);
                assert(all[j + 1] == cell_move(c));
            }
            if all.contains(cell_move(c)) {
                let j = choose|j: int| 0 <= j < all.len() && all[j] == cell_move(c);
                assert(rest[j - 1] == cell_move(c));
            }
        }
    } else {
        if legal(cells, turn, c % 8, c / 8) {
            assert(all[0] == cell_move(c));
        } else {
            lemma_legal_moves_later(cells, turn, i + 1, c);
        }
    }
}

/// The moves listed from a cell on go to that cell or a later one.
pub proof fn lemma_legal_moves_later(cells: Seq<Tile>, turn: Turn, i: int, c: int)
    requires
        0 <= c < i,
    ensures
        !legal_moves_from(cells, turn, i).contains(cell_move(c)),
    decreases 64 - i,
{
    if i < 64 {
        lemma_legal_moves_later(cells, turn, i + 1, c);
        let rest = legal_moves_from(cells, turn, i + 1);
        let all = legal_moves_from(cells, turn, i);
        if all.contains(cell_move(c)) {
            let j = choose|j: int| 0 <= j < all.len() && all[j] == cell_move(c);
            if legal(cells, turn, i % 8, i / 8) {
                assert(cell_move(i) != cell_move(c));
                assert(rest[j - 1] == cell_move(c));
            }
        }
    }
}

/// The list of moves is the list of the legal moves: every move on it puts
/// a disc on an empty cell of the board where the rules allow it, and the
/// list is empty exactly where the rules allow no disc anywhere.
pub proof fn lemma_move_list(cells: Seq<Tile>, turn: Turn)
    ensures
        forall|j: int|
            0 <= j < legal_moves(cells, turn).len() ==> (#[trigger] legal_moves(cells, turn)[j]
                matches Move::Put { x, y } && legal(cells, turn, x as int, y as int) && tile_at(
                cells,
                x as int,
                y as int,
            ) == Tile::Empty),
        legal_moves(cells, turn).len() == 0 <==> forall|x: int, y: int|
            on_board(x, y) ==> !#[trigger] legal(cells, turn, x, y),
{
    assert forall|j: int| 0 <= j < legal_moves(cells, turn).len() implies (#[trigger] legal_moves(
        cells,
        turn,
    )[j] matches Move::Put { x, y } && legal(cells, turn, x as int, y as int) && tile_at(
        cells,
        x as int,
        y as int,
    ) == Tile::Empty) by {
        lemma_legal_moves(cells, turn, 0, j);
    }
    if legal_moves(cells, turn).len() == 0 {
        assert forall|x: int, y: int| on_board(x, y) implies !#[trigger] legal(cells, turn, x, y) by {
            let c = cell(x, y);
            assert(c % 8 == x && c / 8 == y);
            lemma_legal_moves_complete(cells, turn, 0, c);
        }
    } else {
        lemma_legal_moves(cells, turn, 0, 0);
    }
}

/// There are no more moves than cells.
pub proof fn lemma_legal_moves_len(cells: Seq<Tile>, turn: Turn, i: int)
    requires
        0 <= i <= 64,
    ensures
        legal_moves_from(cells, turn, i).len() <= 64 - i,
    decreases 64 - i,
{
    if i < 64 {
        lemma_legal_moves_len(cells, turn, i + 1);
    }
}

/// Every move that a side has to choose from may be played.
pub proof fn lemma_choices_playable(pos: Position, j: int)
    requires
        0 <= j < choices(pos).len(),
    ensures
        playable(pos, choices(pos)[j]),
{
    if legal_moves(pos.cells, pos.turn).len() > 0 {
        lemma_legal_moves(pos.cells, pos.turn, 0, j);
    }
}

} // verus!
