//! Scoring a position and searching a few moves ahead.

use vstd::prelude::*;
use crate::bits::{bit, group_bits, lemma_bit_test, popcount};
use crate::board::{BitBoard, Board, Move, Tile, Turn, dir_step, idx, snapshot};
use crate::options::Opts;
use crate::rules::{
    Position, along, cell, choices, count_discs, dir_dx, dir_dy, is_dir, legal_moves,
    lemma_choices, lemma_choices_playable, lemma_legal_moves_len, lemma_run_counts, on_board,
    play, playable, tile_at,
};
use crate::strategy::util::{iter_moves, list_moves};
use crate::strategy::stability::{
    axis_ok, closed, corner_dir, corner_x, corner_y, edge_stable, edge_stable_upto, holds_seed,
    lemma_count_add, lemma_count_max, lemma_count_subset, lemma_settles_more, lemma_stable_unique,
    lemma_within_step, on_run, ray_full, settles, stable_mask, stable_set, subset, upper, within,
};

verus! {

broadcast use group_bits;

/// The coordinate `k` steps of `d` away from `a`, on the board or off it.
fn coord(a: u8, d: i8, k: u8) -> (r: i8)
    requires
        -1 <= d <= 1,
        a < 8,
        k <= 8,
    ensures
        r == along(a as int, d as int, k as int),
{
    if d > 0 {
        a as i8 + k as i8
    } else if d < 0 {
        a as i8 - k as i8
    } else {
        a as i8
    }
}

/// Adds to `fixed` the run of discs `color` that starts on `(cx, cy)` and
/// goes in the direction numbered `d`.
#[verifier::rlimit(40)]
fn mark_run<B: Board>(board: &B, color: Tile, fixed: u64, cx: u8, cy: u8, d: u8) -> (r: u64)
    requires
        cx < 8,
        cy < 8,
        d < 8,
    ensures
        forall|i: int|
            0 <= i < 64 ==> #[trigger] bit(r, i) == (bit(fixed, i) || on_run(
                board@.cells,
                color,
                cx as int,
                cy as int,
                dir_dx(d as int),
                dir_dy(d as int),
                i % 8,
                i / 8,
            )),
{
    let (dx, dy) = dir_step(d);
    let ghost cells = board@.cells;
    let ghost x0 = cx as int;
    let ghost y0 = cy as int;
    let mut r = fixed;
    let mut k: u8 = 0;
    loop
        invariant
            k <= 8,
            cx < 8,
            cy < 8,
            d < 8,
            x0 == cx,
            y0 == cy,
            cells == board@.cells,
            dx == dir_dx(d as int),
            dy == dir_dy(d as int),
            forall|j: int|
                0 <= j < k ==> on_board(
                    #[trigger] along(x0, dx as int, j),
                    along(y0, dy as int, j),
                ) && tile_at(cells, along(x0, dx as int, j), along(y0, dy as int, j)) == color,
            forall|i: int|
                0 <= i < 64 ==> #[trigger] bit(r, i) == (bit(fixed, i) || within(
                    x0,
                    y0,
                    dx as int,
                    dy as int,
                    k as int,
                    i % 8,
                    i / 8,
                )),
        decreases 8 - k,
    {
        proof {
            lemma_run_counts(cells, color, x0, y0, dx as int, dy as int, k as int);
        }
        if k >= 8 {
            assert(!on_board(along(x0, dx as int, 8), along(y0, dy as int, 8)));
            return r;
        }
        let px = coord(cx, dx, k);
        let py = coord(cy, dy, k);
        if px < 0 || px > 7 || py < 0 || py > 7 {
            return r;
        }
        if board.get(px as u8, py as u8) != color {
            return r;
        }
        let here = idx(px as u8, py as u8);
        proof {
            assert forall|i: int| 0 <= i < 64 implies #[trigger] bit(r | here, i) == (bit(fixed, i)
                || within(x0, y0, dx as int, dy as int, k + 1, i % 8, i / 8)) by {
                lemma_within_step(x0, y0, dx as int, dy as int, k as int, i % 8, i / 8);
                assert((i == cell(px as int, py as int)) == (i % 8 == px && i / 8 == py));
            }
        }
        r = r | here;
        k += 1;
    }
}

/// Whether every cell from the neighbour of `(x, y)` onward in the
/// direction `(dx, dy)` holds a disc.
fn ray_filled<B: Board>(board: &B, x: u8, y: u8, dx: i8, dy: i8) -> (r: bool)
    requires
        x < 8,
        y < 8,
        is_dir(dx as int, dy as int),
    ensures
        r == ray_full(board@.cells, x + dx, y + dy, dx as int, dy as int),
{
    let ghost cells = board@.cells;
    let mut k: u8 = 1;
    loop
        invariant
            1 <= k <= 8,
            x < 8,
            y < 8,
            is_dir(dx as int, dy as int),
            cells == board@.cells,
            ray_full(cells, x + dx, y + dy, dx as int, dy as int) == ray_full(
                cells,
                along(x as int, dx as int, k as int),
                along(y as int, dy as int, k as int),
                dx as int,
                dy as int,
            ),
        decreases 8 - k,
    {
        if k >= 8 {
            return true;
        }
        let px = coord(x, dx, k);
        let py = coord(y, dy, k);
        if px < 0 || px > 7 || py < 0 || py > 7 {
            return true;
        }
        if board.get(px as u8, py as u8) == Tile::Empty {
            return false;
        }
        proof {
            assert(along(x as int, dx as int, k + 1) == px + dx);
            assert(along(y as int, dy as int, k + 1) == py + dy);
        }
        k += 1;
    }
}

/// A mask shares a bit with the union of two masks where it shares one with
/// either; with every bit to share, it does unless it is empty.
proof fn bv_axis(f: u64, a: u64, b: u64)
    by (bit_vector)
    ensures
        (f & (a | b) != 0) == (f & a != 0 || f & b != 0),
        (f & (0xffffffffffffffffu64 | b) != 0) == (f != 0),
        (f & (a | 0xffffffffffffffffu64) != 0) == (f != 0),
{
}

/// The mask of the neighbour of `(x, y)` in the direction `(dx, dy)`; every
/// bit where the neighbour is beyond the edge.
fn neighbour(x: u8, y: u8, dx: i8, dy: i8) -> (m: u64)
    requires
        x < 8,
        y < 8,
        -1 <= dx <= 1,
        -1 <= dy <= 1,
    ensures
        on_board(x + dx, y + dy) ==> m == 1u64 << (cell(x + dx, y + dy) as u64),
        !on_board(x + dx, y + dy) ==> m == 0xffffffffffffffffu64,
{
    let px = x as i8 + dx;
    let py = y as i8 + dy;
    if 0 <= px && px <= 7 && 0 <= py && py <= 7 {
        idx(px as u8, py as u8)
    } else {
        0xffffffffffffffff
    }
}

/// Whether the line numbered `a` through `(x, y)` keeps the disc on it.
fn axis_holds<B: Board>(board: &B, fixed: u64, x: u8, y: u8, a: u8) -> (r: bool)
    requires
        x < 8,
        y < 8,
        a < 4,
    ensures
        r == axis_ok(board@.cells, fixed, x as int, y as int, a as int),
{
    let (dx, dy) = match a {
        0 => (1i8, 0i8),
        1 => (1i8, 1i8),
        2 => (0i8, 1i8),
        _ => (-1i8, 1i8),
    };
    let i1 = neighbour(x, y, dx, dy);
    let i2 = neighbour(x, y, -dx, -dy);
    proof {
        bv_axis(fixed, i1, i2);
        if on_board(x + dx, y + dy) {
            lemma_bit_test(fixed, cell(x + dx, y + dy) as u64);
        }
        if on_board(x - dx, y - dy) {
            lemma_bit_test(fixed, cell(x - dx, y - dy) as u64);
        }
    }
    if fixed & (i1 | i2) != 0 {
        return true;
    }
    ray_filled(board, x, y, dx, dy) && ray_filled(board, x, y, -dx, -dy)
}

/// Whether the disc on `(x, y)` is one of `color` that no line through it
/// can turn over.
fn settled<B: Board>(board: &B, color: Tile, fixed: u64, x: u8, y: u8) -> (r: bool)
    requires
        x < 8,
        y < 8,
    ensures
        r == settles(board@.cells, color, fixed, x as int, y as int),
{
    board.get(x, y) == color && axis_holds(board, fixed, x, y, 0) && axis_holds(
        board,
        fixed,
        x,
        y,
        1,
    ) && axis_holds(board, fixed, x, y, 2) && axis_holds(board, fixed, x, y, 3)
}

/// The corner and the direction of the `c`-th walk along an edge.
fn corner_walk(c: u8) -> (r: (u8, u8, u8))
    requires
        c < 8,
    ensures
        r.0 == corner_x(c as int),
        r.1 == corner_y(c as int),
        r.2 == corner_dir(c as int),
{
    match c {
        0 => (0, 0, 2),
        1 => (7, 0, 0),
        2 => (0, 7, 2),
        3 => (7, 7, 0),
        4 => (0, 0, 3),
        5 => (0, 7, 1),
        6 => (7, 0, 3),
        _ => (7, 7, 1),
    }
}

/// Whether `(x, y)` comes before `(px, py)` where the columns are gone
/// through one after the other, each from its first row to its last.
pub open spec fn before(x: int, y: int, px: int, py: int) -> bool {
    x < px || (x == px && y < py)
}

/// The stable discs of `color`, as a mask, and their number. `fixedcache`
/// holds discs that are taken to be stable from the start; the result
/// holds them all, so that from one call to the next, each with the result
/// of the one before, the number never falls.
pub fn stable_check<B: Board>(board: &B, color: Tile, fixedcache: u64) -> (r: (u64, u32))
    ensures
        stable_set(board@.cells, color, fixedcache, r.0),
        r.0 == stable_mask(board@.cells, color, fixedcache),
        r.1 == popcount(r.0),
        subset(fixedcache, r.0),
        r.1 >= popcount(fixedcache),
{
    let ghost cells = board@.cells;
    let mut fixed = fixedcache;
    // The runs along the edges, from each corner both ways.
    let mut c: u8 = 0;
    while c < 8
        invariant
            c <= 8,
            cells == board@.cells,
            forall|i: int|
                0 <= i < 64 ==> #[trigger] bit(fixed, i) == (bit(fixedcache, i) || edge_stable_upto(
                    cells,
                    color,
                    i % 8,
                    i / 8,
                    c as int,
                )),
        decreases 8 - c,
    {
        let (cx, cy, d) = corner_walk(c);
        fixed = mark_run(board, color, fixed, cx, cy, d);
        c += 1;
    }
    proof {
        assert forall|x: int, y: int|
            on_board(x, y) && #[trigger] edge_stable(cells, color, x, y) implies bit(
            fixed,
            cell(x, y),
        ) by {
            assert(cell(x, y) % 8 == x && cell(x, y) / 8 == y);
        }
        assert(holds_seed(cells, color, fixedcache, fixed));
        assert forall|s: u64| #[trigger] upper(cells, color, fixedcache, s) implies subset(
            fixed,
            s,
        ) by {
            assert forall|i: int| 0 <= i < 64 && bit(fixed, i) implies bit(s, i) by {
                if !bit(fixedcache, i) {
                    assert(edge_stable(cells, color, i % 8, i / 8));
                    assert(cell(i % 8, i / 8) == i);
                }
            }
        }
        lemma_count_max(fixed, 64);
    }
    // Inward from there, until a whole pass finds nothing new.
    let mut changed = true;
    while changed
        invariant
            cells == board@.cells,
            holds_seed(cells, color, fixedcache, fixed),
            forall|s: u64| #[trigger] upper(cells, color, fixedcache, s) ==> subset(fixed, s),
            popcount(fixed) <= 64,
            !changed ==> closed(cells, color, fixed),
        decreases 64 - popcount(fixed) + if changed { 1int } else { 0int },
    {
        changed = false;
        let ghost start = fixed;
        let mut x: u8 = 0;
        while x < 8
            invariant
                x <= 8,
                cells == board@.cells,
                holds_seed(cells, color, fixedcache, fixed),
                forall|s: u64| #[trigger] upper(cells, color, fixedcache, s) ==> subset(fixed, s),
                popcount(fixed) <= 64,
                !changed ==> fixed == start,
                changed ==> popcount(fixed) > popcount(start),
                !changed ==> forall|px: int, py: int|
                    on_board(px, py) && before(px, py, x as int, 0) && #[trigger] settles(
                        cells,
                        color,
                        fixed,
                        px,
                        py,
                    ) ==> bit(fixed, cell(px, py)),
            decreases 8 - x,
        {
            let mut y: u8 = 0;
            while y < 8
                invariant
                    x < 8,
                    y <= 8,
                    cells == board@.cells,
                    holds_seed(cells, color, fixedcache, fixed),
                    forall|s: u64|
                        #[trigger] upper(cells, color, fixedcache, s) ==> subset(fixed, s),
                    popcount(fixed) <= 64,
                    !changed ==> fixed == start,
                    changed ==> popcount(fixed) > popcount(start),
                    !changed ==> forall|px: int, py: int|
                        on_board(px, py) && before(px, py, x as int, y as int) && #[trigger] settles(
                            cells,
                            color,
                            fixed,
                            px,
                            py,
                        ) ==> bit(fixed, cell(px, py)),
                decreases 8 - y,
            {
                let here = idx(x, y);
                proof {
                    lemma_bit_test(fixed, cell(x as int, y as int) as u64);
                }
                if fixed & here == 0 && settled(board, color, fixed, x, y) {
                    let ghost prev = fixed;
                    fixed = fixed | here;
                    changed = true;
                    proof {
                        lemma_grown(cells, color, fixedcache, prev, x as int, y as int);
                        lemma_count_add(prev, cell(x as int, y as int) as u64, 64);
                        lemma_count_max(fixed, 64);
                    }
                }
                y += 1;
            }
            x += 1;
        }
    }
    proof {
        assert(stable_set(cells, color, fixedcache, fixed));
        let m = stable_mask(cells, color, fixedcache);
        assert(stable_set(cells, color, fixedcache, m));
        lemma_stable_unique(cells, color, fixedcache, fixed, m);
        lemma_count_subset(fixedcache, fixed, 64);
    }
    (fixed, fixed.count_ones())
}

/// A disc that settles joins the stable discs: the mask still holds the
/// seed, and is still within every mask that stability spreads no further
/// from.
proof fn lemma_grown(cells: Seq<Tile>, color: Tile, seed: u64, fixed: u64, x: int, y: int)
    requires
        on_board(x, y),
        settles(cells, color, fixed, x, y),
        holds_seed(cells, color, seed, fixed),
        forall|s: u64| #[trigger] upper(cells, color, seed, s) ==> subset(fixed, s),
    ensures
        holds_seed(cells, color, seed, fixed | (1u64 << (cell(x, y) as u64))),
        forall|s: u64|
            #[trigger] upper(cells, color, seed, s) ==> subset(
                fixed | (1u64 << (cell(x, y) as u64)),
                s,
            ),
{
    let grown = fixed | (1u64 << (cell(x, y) as u64));
    assert(subset(seed, grown)) by {
        assert forall|i: int| 0 <= i < 64 && bit(seed, i) implies bit(grown, i) by {
            assert(bit(fixed, i));
        }
    }
    assert forall|s: u64| #[trigger] upper(cells, color, seed, s) implies subset(grown, s) by {
        assert(subset(fixed, s));
        lemma_settles_more(cells, color, fixed, s, x, y);
        assert(bit(s, cell(x, y)));
    }
}

/// What a disc is worth by the cell it lies on, row by row: much in a
/// corner, less than nothing next to one, little in the middle.
pub open spec fn weights() -> Seq<int> {
    seq![
        45int, -11int, 4int, -1int, -1int, 4int, -11int, 45int,
        -11int, -16int, -1int, -3int, -3int, -1int, -16int, -11int,
        4int, -1int, 2int, -1int, -1int, 2int, -1int, 4int,
        -1int, -3int, -1int, 0int, 0int, -1int, -3int, -1int,
        -1int, -3int, -1int, 0int, 0int, -1int, -3int, -1int,
        4int, -1int, 2int, -1int, -1int, 2int, -1int, 4int,
        -11int, -16int, -1int, -3int, -3int, -1int, -16int, -11int,
        45int, -11int, 4int, -1int, -1int, 4int, -11int, 45int,
    ]
}

/// The worth of the discs on the first `n` cells: Black's count for,
/// White's against.
pub open spec fn positional_upto(cells: Seq<Tile>, n: int) -> int
    decreases n,
{
    if n <= 0 {
        0
    } else {
        positional_upto(cells, n - 1) + match cells[n - 1] {
            Tile::Black => weights()[n - 1],
            Tile::White => -weights()[n - 1],
            Tile::Empty => 0,
        }
    }
}

/// The worth of the discs by where they lie: Black's count for, White's
/// against.
pub open spec fn positional(cells: Seq<Tile>) -> int {
    positional_upto(cells, 64)
}

/// The score of a position from the number of discs, the worth of their
/// places, the lead in stable discs and the lead in moves, each of the last
/// three Black's less White's. Stability weighs more and the choice of
/// moves less as the board fills.
pub open spec fn score(discs: int, place: int, stable: int, moves: int) -> int {
    if discs < 20 {
        place + 5 * stable + 4 * moves
    } else if discs < 44 {
        2 * place + 5 * stable + moves
    } else {
        2 * place + 8 * stable
    }
}

/// The stable discs that the evaluator remembers after it has looked at a
/// position: Black's and White's, each grown from what it remembered
/// before.
pub open spec fn seen_stable(caches: (u64, u64), cells: Seq<Tile>) -> (u64, u64) {
    (stable_mask(cells, Tile::Black, caches.0), stable_mask(cells, Tile::White, caches.1))
}

/// The score that the evaluator gives a position, given the stable discs
/// that it remembers. More is better for Black.
pub open spec fn evaluation(caches: (u64, u64), cells: Seq<Tile>) -> int {
    let next = seen_stable(caches, cells);
    score(
        count_discs(cells) as int,
        positional(cells),
        popcount(next.0) - popcount(next.1),
        legal_moves(cells, Turn::Black).len() - legal_moves(cells, Turn::White).len(),
    )
}

/// No cell is worth more than 45 either way.
pub proof fn lemma_positional_bound(cells: Seq<Tile>, n: int)
    requires
        0 <= n <= 64,
    ensures
        -45 * n <= positional_upto(cells, n) <= 45 * n,
    decreases n,
{
    if n > 0 {
        lemma_positional_bound(cells, n - 1);
        assert(-45 <= weights()[n - 1] <= 45);
    }
}

/// The number of discs that `turn` may put on the board.
pub fn putnum_check<B: Board>(board: &B, turn: Turn) -> (n: i32)
    ensures
        n == legal_moves(board@.cells, turn).len(),
        0 <= n <= 64,
{
    let it = iter_moves(board, turn);
    proof {
        lemma_count_max(it.mask(), 64);
    }
    it.count_moves() as i32
}

/// Scores positions, and remembers from one position to the next which
/// discs it found stable.
pub struct Evaluator {
    fixed_cache_black: u64,
    fixed_cache_white: u64,
}

impl Evaluator {
    /// The stable discs that are remembered: Black's and White's.
    pub closed spec fn caches(&self) -> (u64, u64) {
        (self.fixed_cache_black, self.fixed_cache_white)
    }

    /// An evaluator that remembers nothing.
    pub fn new() -> (e: Evaluator)
        ensures
            e.caches() == (0u64, 0u64),
    {
        Evaluator { fixed_cache_black: 0, fixed_cache_white: 0 }
    }

    /// Forgets the stable discs. To be called before another game is looked
    /// at.
    pub fn reset(&mut self)
        ensures
            final(self).caches() == (0u64, 0u64),
    {
        self.fixed_cache_black = 0;
        self.fixed_cache_white = 0;
    }

    /// The score of the position; more is better for Black.
    pub fn evaluate<B: Board>(&mut self, board: &B) -> (r: i32)
        ensures
            r == evaluation(old(self).caches(), board@.cells),
            final(self).caches() == seen_stable(old(self).caches(), board@.cells),
            -7000 <= r <= 7000,
    {
        let count = board.count_both();
        let bs = self.eval_place(board);
        let ss = self.eval_stable(board);
        let cs = self.eval_putnum(board);
        if count < 20 {
            bs + 5 * ss + 4 * cs
        } else if count < 44 {
            2 * bs + 5 * ss + cs
        } else {
            2 * bs + 8 * ss
        }
    }

    /// The worth of the discs by where they lie.
    pub fn eval_place<B: Board>(&self, board: &B) -> (r: i32)
        ensures
            r == positional(board@.cells),
            -2880 <= r <= 2880,
    {
        let mut result: i32 = 0;
        let mut y: u8 = 0;
        while y < 8
            invariant
                y <= 8,
                result == positional_upto(board@.cells, y * 8),
            decreases 8 - y,
        {
            let mut x: u8 = 0;
            while x < 8
                invariant
                    y < 8,
                    x <= 8,
                    result == positional_upto(board@.cells, y * 8 + x),
                decreases 8 - x,
            {
                proof {
                    lemma_positional_bound(board@.cells, y * 8 + x);
                }
                let t = board.get(x, y);
                if t == Tile::Black {
                    result += self.eval_one_place(x, y);
                } else if t == Tile::White {
                    result -= self.eval_one_place(x, y);
                }
                x += 1;
            }
            y += 1;
        }
        proof {
            lemma_positional_bound(board@.cells, 64);
        }
        result
    }

    /// What a disc on `(x, y)` is worth.
    pub fn eval_one_place(&self, x: u8, y: u8) -> (r: i32)
        requires
            x < 8,
            y < 8,
        ensures
            r == weights()[cell(x as int, y as int)],
            -45 <= r <= 45,
    {
        let table: [i32; 64] = [
            45, -11, 4, -1, -1, 4, -11, 45,
            -11, -16, -1, -3, -3, -1, -16, -11,
            4, -1, 2, -1, -1, 2, -1, 4,
            -1, -3, -1, 0, 0, -1, -3, -1,
            -1, -3, -1, 0, 0, -1, -3, -1,
            4, -1, 2, -1, -1, 2, -1, 4,
            -11, -16, -1, -3, -3, -1, -16, -11,
            45, -11, 4, -1, -1, 4, -11, 45,
        ];
        let i: usize = (y as usize) * 8 + (x as usize);
        table[i]
    }

    /// Black's stable discs less White's; both are remembered.
    pub fn eval_stable<B: Board>(&mut self, board: &B) -> (r: i32)
        ensures
            final(self).caches() == seen_stable(old(self).caches(), board@.cells),
            r == popcount(final(self).caches().0) - popcount(final(self).caches().1),
            -64 <= r <= 64,
    {
        let (fb2, bc) = stable_check(board, Tile::Black, self.fixed_cache_black);
        let (fw2, wc) = stable_check(board, Tile::White, self.fixed_cache_white);
        proof {
            lemma_count_max(fb2, 64);
            lemma_count_max(fw2, 64);
        }
        self.fixed_cache_black = fb2;
        self.fixed_cache_white = fw2;
        (bc as i32) - (wc as i32)
    }

    /// Black's moves less White's.
    pub fn eval_putnum<B: Board>(&self, board: &B) -> (r: i32)
        ensures
            r == legal_moves(board@.cells, Turn::Black).len() - legal_moves(
                board@.cells,
                Turn::White,
            ).len(),
            -64 <= r <= 64,
    {
        putnum_check(board, Turn::Black) - putnum_check(board, Turn::White)
    }
}

/// What a search hands back: the value found, the move to play for it,
/// and the stable discs that the evaluator remembers afterwards.
pub struct Found {
    pub value: int,
    pub mv: Move,
    pub caches: (u64, u64),
}

/// The value of a position where the search looks no further: the score,
/// seen from the side that the search is for.
pub open spec fn leaf(caches: (u64, u64), pos: Position, me: Turn, first: Option<Move>) -> Found {
    let e = evaluation(caches, pos.cells);
    Found {
        value: if me == Turn::Black {
            e
        } else {
            -e
        },
        mv: match first {
            Some(m) => m,
            None => Move::Pass,
        },
        caches: seen_stable(caches, pos.cells),
    }
}

/// What the search finds in a position, looking `depth` moves ahead for the
/// side `me` within the bounds `alpha` and `beta`. `first` is the move that
/// led here from where the search began, if one did. The side `me` takes
/// the greatest value and the other side the least; a side that can put no
/// disc passes, and the pass counts as a move. The moves are tried in the
/// order of the cells, and the evaluator carries what it remembers from one
/// to the next.
pub open spec fn ab(
    caches: (u64, u64),
    pos: Position,
    me: Turn,
    depth: nat,
    alpha: int,
    beta: int,
    first: Option<Move>,
) -> Found
    decreases depth, 1nat, 0nat,
{
    if depth == 0 {
        leaf(caches, pos, me, first)
    } else {
        ab_moves(
            caches,
            pos,
            me,
            depth,
            alpha,
            beta,
            first,
            choices(pos),
            0,
            match first {
                Some(m) => m,
                None => Move::Pass,
            },
        )
    }
}

/// What the search finds in a position once the first `i` of its moves have
/// been tried, with the bounds as they stand and `best` for the move that
/// the bound on the mover's side came from. A move whose value is better
/// for the mover than that bound moves the bound and takes the place of
/// `best`, so that of moves with the same value the first is kept; once the
/// bounds meet, the rest is cut off.
pub open spec fn ab_moves(
    caches: (u64, u64),
    pos: Position,
    me: Turn,
    depth: nat,
    alpha: int,
    beta: int,
    first: Option<Move>,
    moves: Seq<Move>,
    i: nat,
    best: Move,
) -> Found
    decreases depth, 0nat, moves.len() - i,
{
    if depth == 0 || i >= moves.len() {
        Found {
            value: if pos.turn == me {
                alpha
            } else {
                beta
            },
            mv: best,
            caches,
        }
    } else {
        let sub = ab(
            caches,
            play(pos, moves[i as int]),
            me,
            (depth - 1) as nat,
            alpha,
            beta,
            match first {
                Some(m) => Some(m),
                None => Some(moves[i as int]),
            },
        );
        if pos.turn == me {
            let better = alpha < sub.value;
            let alpha2 = if better {
                sub.value
            } else {
                alpha
            };
            if alpha2 >= beta {
                Found { value: beta, mv: sub.mv, caches: sub.caches }
            } else {
                ab_moves(
                    sub.caches,
                    pos,
                    me,
                    depth,
                    alpha2,
                    beta,
                    first,
                    moves,
                    i + 1,
                    if better {
                        sub.mv
                    } else {
                        best
                    },
                )
            }
        } else {
            let better = sub.value < beta;
            let beta2 = if better {
                sub.value
            } else {
                beta
            };
            if alpha >= beta2 {
                Found { value: alpha, mv: sub.mv, caches: sub.caches }
            } else {
                ab_moves(
                    sub.caches,
                    pos,
                    me,
                    depth,
                    alpha,
                    beta2,
                    first,
                    moves,
                    i + 1,
                    if better {
                        sub.mv
                    } else {
                        best
                    },
                )
            }
        }
    }
}

/// Searches `depth` moves ahead for the side `mycolor`; see [`ab`].
pub fn alphabeta(
    evaluator: &mut Evaluator,
    board: &BitBoard,
    mycolor: Turn,
    depth: u32,
    alpha: i32,
    beta: i32,
    mv: Option<Move>,
) -> (r: (i32, Move))
    ensures
        r.0 == ab(
            old(evaluator).caches(),
            board@,
            mycolor,
            depth as nat,
            alpha as int,
            beta as int,
            mv,
        ).value,
        r.1 == ab(
            old(evaluator).caches(),
            board@,
            mycolor,
            depth as nat,
            alpha as int,
            beta as int,
            mv,
        ).mv,
        final(evaluator).caches() == ab(
            old(evaluator).caches(),
            board@,
            mycolor,
            depth as nat,
            alpha as int,
            beta as int,
            mv,
        ).caches,
    decreases depth,
{
    let start = match mv {
        Some(m) => m,
        None => Move::Pass,
    };
    if depth == 0 {
        let ev = evaluator.evaluate(board);
        let ev = if mycolor == Turn::Black {
            ev
        } else {
            -ev
        };
        return (ev, start);
    }
    let mut lo = alpha;
    let mut hi = beta;
    let mine = board.get_turn() == mycolor;
    let moves = list_moves(board);
    let mut result_mv = start;
    let ghost goal = ab(
        old(evaluator).caches(),
        board@,
        mycolor,
        depth as nat,
        alpha as int,
        beta as int,
        mv,
    );
    let mut i: usize = 0;
    while i < moves.len()
        invariant
            i <= moves.len(),
            depth > 0,
            moves@ == choices(board@),
            mine == (board@.turn == mycolor),
            goal == ab(
                old(evaluator).caches(),
                board@,
                mycolor,
                depth as nat,
                alpha as int,
                beta as int,
                mv,
            ),
            goal == ab_moves(
                evaluator.caches(),
                board@,
                mycolor,
                depth as nat,
                lo as int,
                hi as int,
                mv,
                moves@,
                i as nat,
                result_mv,
            ),
        decreases moves.len() - i,
    {
        let mv2 = moves[i];
        let nmv = match mv {
            Some(m) => Some(m),
            None => Some(mv2),
        };
        proof {
            lemma_choices(board@, i as int);
        }
        let mut board2 = *board;
        let applied = board2.apply_move(mv2);
        assert(applied is Ok);
        assert(board2@ == play(board@, mv2));
        let (av, mv3) = alphabeta(evaluator, &board2, mycolor, depth - 1, lo, hi, nmv);
        if mine {
            if lo < av {
                lo = av;
                result_mv = mv3;
            }
            if lo >= hi {
                return (hi, mv3);
            }
        } else {
            if av < hi {
                hi = av;
                result_mv = mv3;
            }
            if lo >= hi {
                return (lo, mv3);
            }
        }
        i += 1;
    }
    if mine {
        (lo, result_mv)
    } else {
        (hi, result_mv)
    }
}

/// Chooses moves by searching a fixed number of moves ahead.
pub struct Searcher {
    evaluator: Evaluator,
    depth: u32,
}

impl Searcher {
    /// The stable discs that the evaluator remembers.
    pub closed spec fn caches(&self) -> (u64, u64) {
        self.evaluator.caches()
    }

    /// How many moves the search looks ahead.
    pub closed spec fn depth(&self) -> nat {
        self.depth as nat
    }

    /// A searcher that looks as far ahead as the settings say.
    pub fn new(opts: &Opts) -> (s: Searcher)
        ensures
            s.depth() == opts.depth,
            s.caches() == (0u64, 0u64),
    {
        let evaluator = Evaluator::new();
        Searcher { evaluator, depth: opts.depth }
    }

    /// The move that the search finds best for the side to move.
    pub fn search<B: Board>(&mut self, board: &B) -> (mv: Move)
        ensures
            mv.on_board(),
            old(self).depth() > 0 ==> playable(board@, mv),
            mv == ab(
                old(self).caches(),
                board@,
                board@.turn,
                old(self).depth(),
                i32::MIN as int,
                i32::MAX as int,
                None,
            ).mv,
            final(self).caches() == ab(
                old(self).caches(),
                board@,
                board@.turn,
                old(self).depth(),
                i32::MIN as int,
                i32::MAX as int,
                None,
            ).caches,
            final(self).depth() == old(self).depth(),
    {
        let depth = self.depth;
        let mycolor = board.get_turn();
        let copy = snapshot(board);
        proof {
            board.lemma_cells();
            copy.lemma_cells();
            assert(copy@ == board@);
        }
        proof {
            lemma_ab_on_board(
                self.evaluator.caches(),
                board@,
                mycolor,
                depth as nat,
                i32::MIN as int,
                i32::MAX as int,
                None,
            );
            if depth > 0 {
                lemma_search_playable(self.evaluator.caches(), board@, depth as nat);
            }
        }
        let (_, mv) = alphabeta(
            &mut self.evaluator,
            &copy,
            mycolor,
            depth,
            i32::MIN,
            i32::MAX,
            None,
        );
        mv
    }

    /// Forgets what the evaluator remembers. To be called before another
    /// game.
    pub fn reset(&mut self)
        ensures
            final(self).caches() == (0u64, 0u64),
            final(self).depth() == old(self).depth(),
    {
        self.evaluator.reset();
    }
}

/// The move that a search finds is a pass or goes to a cell of the board.
pub proof fn lemma_ab_on_board(
    caches: (u64, u64),
    pos: Position,
    me: Turn,
    depth: nat,
    alpha: int,
    beta: int,
    first: Option<Move>,
)
    requires
        first matches Some(m) ==> m.on_board(),
    ensures
        ab(caches, pos, me, depth, alpha, beta, first).mv.on_board(),
    decreases depth, 1nat, 0nat,
{
    if depth > 0 {
        lemma_ab_moves_on_board(
            caches,
            pos,
            me,
            depth,
            alpha,
            beta,
            first,
            choices(pos),
            0,
            match first {
                Some(m) => m,
                None => Move::Pass,
            },
        );
    }
}

/// The same of a search that has tried the first `i` moves.
pub proof fn lemma_ab_moves_on_board(
    caches: (u64, u64),
    pos: Position,
    me: Turn,
    depth: nat,
    alpha: int,
    beta: int,
    first: Option<Move>,
    moves: Seq<Move>,
    i: nat,
    best: Move,
)
    requires
        first matches Some(m) ==> m.on_board(),
        best.on_board(),
        moves == choices(pos),
    ensures
        ab_moves(caches, pos, me, depth, alpha, beta, first, moves, i, best).mv.on_board(),
    decreases depth, 0nat, moves.len() - i,
{
    if depth > 0 && i < moves.len() {
        lemma_choices(pos, i as int);
        let next = match first {
            Some(m) => Some(m),
            None => Some(moves[i as int]),
        };
        lemma_ab_on_board(caches, play(pos, moves[i as int]), me, (depth - 1) as nat, alpha, beta, next);
        let sub = ab(caches, play(pos, moves[i as int]), me, (depth - 1) as nat, alpha, beta, next);
        if pos.turn == me {
            let better = alpha < sub.value;
            let alpha2 = if better {
                sub.value
            } else {
                alpha
            };
            if alpha2 < beta {
                lemma_ab_moves_on_board(
                    sub.caches,
                    pos,
                    me,
                    depth,
                    alpha2,
                    beta,
                    first,
                    moves,
                    i + 1,
                    if better {
                        sub.mv
                    } else {
                        best
                    },
                );
            }
        } else {
            let better = sub.value < beta;
            let beta2 = if better {
                sub.value
            } else {
                beta
            };
            if alpha < beta2 {
                lemma_ab_moves_on_board(
                    sub.caches,
                    pos,
                    me,
                    depth,
                    alpha,
                    beta2,
                    first,
                    moves,
                    i + 1,
                    if better {
                        sub.mv
                    } else {
                        best
                    },
                );
            }
        }
    }
}

/// No score is far from 0.
pub proof fn lemma_evaluation_bound(caches: (u64, u64), cells: Seq<Tile>)
    ensures
        -7000 <= evaluation(caches, cells) <= 7000,
{
    let next = seen_stable(caches, cells);
    lemma_positional_bound(cells, 64);
    lemma_count_max(next.0, 64);
    lemma_count_max(next.1, 64);
    lemma_legal_moves_len(cells, Turn::Black, 0);
    lemma_legal_moves_len(cells, Turn::White, 0);
}

/// Below the first move of a search, the move that comes back is that
/// first move.
pub proof fn lemma_ab_first(
    caches: (u64, u64),
    pos: Position,
    me: Turn,
    depth: nat,
    alpha: int,
    beta: int,
    m: Move,
)
    ensures
        ab(caches, pos, me, depth, alpha, beta, Some(m)).mv == m,
    decreases depth, 1nat, 0nat,
{
    if depth > 0 {
        lemma_ab_moves_first(caches, pos, me, depth, alpha, beta, m, choices(pos), 0);
    }
}

/// The same of a search that has tried the first `i` moves.
pub proof fn lemma_ab_moves_first(
    caches: (u64, u64),
    pos: Position,
    me: Turn,
    depth: nat,
    alpha: int,
    beta: int,
    m: Move,
    moves: Seq<Move>,
    i: nat,
)
    ensures
        ab_moves(caches, pos, me, depth, alpha, beta, Some(m), moves, i, m).mv == m,
    decreases depth, 0nat, moves.len() - i,
{
    if depth > 0 && i < moves.len() {
        let next = play(pos, moves[i as int]);
        lemma_ab_first(caches, next, me, (depth - 1) as nat, alpha, beta, m);
        let sub = ab(caches, next, me, (depth - 1) as nat, alpha, beta, Some(m));
        if pos.turn == me {
            let alpha2 = if alpha < sub.value {
                sub.value
            } else {
                alpha
            };
            if alpha2 < beta {
                lemma_ab_moves_first(sub.caches, pos, me, depth, alpha2, beta, m, moves, i + 1);
            }
        } else {
            let beta2 = if sub.value < beta {
                sub.value
            } else {
                beta
            };
            if alpha < beta2 {
                lemma_ab_moves_first(sub.caches, pos, me, depth, alpha, beta2, m, moves, i + 1);
            }
        }
    }
}

/// The least number of 32 bits never comes back as a value unless it went
/// in as the upper bound.
pub proof fn lemma_ab_above(
    caches: (u64, u64),
    pos: Position,
    me: Turn,
    depth: nat,
    alpha: int,
    beta: int,
    first: Option<Move>,
)
    requires
        beta > i32::MIN,
    ensures
        ab(caches, pos, me, depth, alpha, beta, first).value > i32::MIN,
    decreases depth, 1nat, 0nat,
{
    if depth == 0 {
        lemma_evaluation_bound(caches, pos.cells);
    } else {
        lemma_ab_moves_above(
            caches,
            pos,
            me,
            depth,
            alpha,
            beta,
            first,
            choices(pos),
            0,
            match first {
                Some(m) => m,
                None => Move::Pass,
            },
        );
    }
}

/// The same of a search that has tried the first `i` moves.
pub proof fn lemma_ab_moves_above(
    caches: (u64, u64),
    pos: Position,
    me: Turn,
    depth: nat,
    alpha: int,
    beta: int,
    first: Option<Move>,
    moves: Seq<Move>,
    i: nat,
    best: Move,
)
    requires
        depth > 0,
        beta > i32::MIN,
        pos.turn == me ==> alpha > i32::MIN || i < moves.len(),
    ensures
        ab_moves(caches, pos, me, depth, alpha, beta, first, moves, i, best).value > i32::MIN,
    decreases depth, 0nat, moves.len() - i,
{
    if i < moves.len() {
        let next = play(pos, moves[i as int]);
        let f = match first {
            Some(m) => Some(m),
            None => Some(moves[i as int]),
        };
        lemma_ab_above(caches, next, me, (depth - 1) as nat, alpha, beta, f);
        let sub = ab(caches, next, me, (depth - 1) as nat, alpha, beta, f);
        if pos.turn == me {
            let better = alpha < sub.value;
            let alpha2 = if better {
                sub.value
            } else {
                alpha
            };
            if alpha2 < beta {
                lemma_ab_moves_above(
                    sub.caches,
                    pos,
                    me,
                    depth,
                    alpha2,
                    beta,
                    first,
                    moves,
                    i + 1,
                    if better {
                        sub.mv
                    } else {
                        best
                    },
                );
            }
        } else {
            let better = sub.value < beta;
            let beta2 = if better {
                sub.value
            } else {
                beta
            };
            if alpha < beta2 {
                lemma_ab_moves_above(
                    sub.caches,
                    pos,
                    me,
                    depth,
                    alpha,
                    beta2,
                    first,
                    moves,
                    i + 1,
                    if better {
                        sub.mv
                    } else {
                        best
                    },
                );
            }
        }
    }
}

/// Where a search for the side to move begins, the move that comes back is
/// one of the moves that the side has to choose from.
pub proof fn lemma_ab_moves_root(
    caches: (u64, u64),
    pos: Position,
    depth: nat,
    alpha: int,
    beta: int,
    i: nat,
    best: Move,
)
    requires
        depth > 0,
        beta > i32::MIN,
        i <= choices(pos).len(),
        alpha > i32::MIN || i < choices(pos).len(),
        alpha > i32::MIN ==> choices(pos).contains(best),
    ensures
        choices(pos).contains(
            ab_moves(caches, pos, pos.turn, depth, alpha, beta, None, choices(pos), i, best).mv,
        ),
    decreases choices(pos).len() - i,
{
    let moves = choices(pos);
    if i < moves.len() {
        let next = play(pos, moves[i as int]);
        let f = Some(moves[i as int]);
        lemma_ab_above(caches, next, pos.turn, (depth - 1) as nat, alpha, beta, f);
        lemma_ab_first(caches, next, pos.turn, (depth - 1) as nat, alpha, beta, moves[i as int]);
        let sub = ab(caches, next, pos.turn, (depth - 1) as nat, alpha, beta, f);
        assert(moves.contains(moves[i as int]));
        let better = alpha < sub.value;
        let alpha2 = if better {
            sub.value
        } else {
            alpha
        };
        if alpha2 < beta {
            lemma_ab_moves_root(
                sub.caches,
                pos,
                depth,
                alpha2,
                beta,
                i + 1,
                if better {
                    sub.mv
                } else {
                    best
                },
            );
        }
    }
}

/// A search that looks at least one move ahead finds a move that the side
/// to move may play.
pub proof fn lemma_search_playable(caches: (u64, u64), pos: Position, depth: nat)
    requires
        depth > 0,
    ensures
        playable(
            pos,
            ab(caches, pos, pos.turn, depth, i32::MIN as int, i32::MAX as int, None).mv,
        ),
{
    lemma_ab_moves_root(caches, pos, depth, i32::MIN as int, i32::MAX as int, 0, Move::Pass);
    let mv = ab(caches, pos, pos.turn, depth, i32::MIN as int, i32::MAX as int, None).mv;
    let j = choose|j: int| 0 <= j < choices(pos).len() && choices(pos)[j] == mv;
    lemma_choices_playable(pos, j);
}

} // verus!
