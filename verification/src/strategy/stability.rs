//! Which discs can never be turned over again.
//!
//! Discs on an edge are stable where they belong to an unbroken run of one
//! colour that starts in a corner. From there stability spreads: a disc is
//! stable where, on each of the four lines through it, a neighbour is
//! stable already or the whole line is full.

use vstd::prelude::*;
use crate::bits::{
    bit, count_bits, group_bits, lemma_no_bit_zero, lemma_same_bits, popcount,
};
use crate::board::Tile;
use crate::rules::{
    along, cell, dir_dx, dir_dy, is_dir, on_board, ray_pos, room, run_len, tile_at,
};

verus! {

broadcast use group_bits;

/// Every bit of `a` is a bit of `b`.
pub open spec fn subset(a: u64, b: u64) -> bool {
    forall|i: int| 0 <= i < 64 ==> (#[trigger] bit(a, i) ==> bit(b, i))
}

/// Whether `(x, y)` belongs to the run of discs `who` that starts on
/// `(cx, cy)` and goes in the direction `(dx, dy)`.
pub open spec fn on_run(
    cells: Seq<Tile>,
    who: Tile,
    cx: int,
    cy: int,
    dx: int,
    dy: int,
    x: int,
    y: int,
) -> bool {
    if x == cx && y == cy {
        run_len(cells, who, cx, cy, dx, dy) > 0
    } else {
        1 <= ray_pos(cx, cy, dx, dy, x, y) < run_len(cells, who, cx, cy, dx, dy)
    }
}

/// The eight ways to walk along an edge from a corner: the corner's x.
pub open spec fn corner_x(c: int) -> int {
    if c == 0 || c == 2 || c == 4 || c == 5 {
        0
    } else {
        7
    }
}

/// The eight ways to walk along an edge from a corner: the corner's y.
pub open spec fn corner_y(c: int) -> int {
    if c == 0 || c == 1 || c == 4 || c == 6 {
        0
    } else {
        7
    }
}

/// The eight ways to walk along an edge from a corner: the number of the
/// direction.
pub open spec fn corner_dir(c: int) -> int {
    if c == 0 || c == 2 {
        2
    } else if c == 1 || c == 3 {
        0
    } else if c == 4 || c == 6 {
        3
    } else {
        1
    }
}

/// Whether `(x, y)` belongs to one of the first `n` runs of `who` along an
/// edge from a corner.
pub open spec fn edge_stable_upto(cells: Seq<Tile>, who: Tile, x: int, y: int, n: int) -> bool
    decreases n,
{
    if n <= 0 {
        false
    } else {
        edge_stable_upto(cells, who, x, y, n - 1) || on_run(
            cells,
            who,
            corner_x(n - 1),
            corner_y(n - 1),
            dir_dx(corner_dir(n - 1)),
            dir_dy(corner_dir(n - 1)),
            x,
            y,
        )
    }
}

/// Whether `(x, y)` lies on an edge within an unbroken run of `who` that
/// starts in a corner of that edge.
pub open spec fn edge_stable(cells: Seq<Tile>, who: Tile, x: int, y: int) -> bool {
    edge_stable_upto(cells, who, x, y, 8)
}

/// Whether every cell from `(x, y)` itself onward in the direction
/// `(dx, dy)` holds a disc.
pub open spec fn ray_full(cells: Seq<Tile>, x: int, y: int, dx: int, dy: int) -> bool
    decreases room(x, y, dx, dy),
{
    if is_dir(dx, dy) && on_board(x, y) {
        tile_at(cells, x, y) != Tile::Empty && ray_full(cells, x + dx, y + dy, dx, dy)
    } else {
        true
    }
}

/// Whether every cell of the line through `(x, y)` along `(dx, dy)`, but for
/// `(x, y)` itself, holds a disc.
pub open spec fn line_full(cells: Seq<Tile>, x: int, y: int, dx: int, dy: int) -> bool {
    ray_full(cells, x + dx, y + dy, dx, dy) && ray_full(cells, x - dx, y - dy, -dx, -dy)
}

/// The four lines through a cell, each by the number of one of its two
/// directions.
pub open spec fn axis_dir(a: int) -> int {
    if a == 0 {
        2
    } else if a == 1 {
        7
    } else if a == 2 {
        3
    } else {
        6
    }
}

/// Whether the line numbered `a` through `(x, y)` cannot turn the disc on
/// `(x, y)` over, given the stable discs `fixed`: a neighbour on that line
/// is stable, or the line is full. A neighbour beyond the edge counts as
/// stable as soon as any disc is.
pub open spec fn axis_ok(cells: Seq<Tile>, fixed: u64, x: int, y: int, a: int) -> bool {
    let dx = dir_dx(axis_dir(a));
    let dy = dir_dy(axis_dir(a));
    ||| on_board(x + dx, y + dy) && bit(fixed, cell(x + dx, y + dy))
    ||| on_board(x - dx, y - dy) && bit(fixed, cell(x - dx, y - dy))
    ||| (!on_board(x + dx, y + dy) || !on_board(x - dx, y - dy)) && fixed != 0
    ||| line_full(cells, x, y, dx, dy)
}

/// Whether the disc on `(x, y)` is one of `who` that none of the four lines
/// through it can turn over, given the stable discs `fixed`.
pub open spec fn settles(cells: Seq<Tile>, who: Tile, fixed: u64, x: int, y: int) -> bool {
    &&& tile_at(cells, x, y) == who
    &&& axis_ok(cells, fixed, x, y, 0)
    &&& axis_ok(cells, fixed, x, y, 1)
    &&& axis_ok(cells, fixed, x, y, 2)
    &&& axis_ok(cells, fixed, x, y, 3)
}

/// Whether the mask `s` holds what is known to be stable before stability
/// spreads: the bits of `seed` and the runs along the edges.
pub open spec fn holds_seed(cells: Seq<Tile>, who: Tile, seed: u64, s: u64) -> bool {
    &&& subset(seed, s)
    &&& forall|x: int, y: int|
        on_board(x, y) && #[trigger] edge_stable(cells, who, x, y) ==> bit(s, cell(x, y))
}

/// Whether stability cannot spread from the mask `s` any further.
pub open spec fn closed(cells: Seq<Tile>, who: Tile, s: u64) -> bool {
    forall|x: int, y: int|
        on_board(x, y) && #[trigger] settles(cells, who, s, x, y) ==> bit(s, cell(x, y))
}

/// Whether the mask `s` holds the seed and the edge runs and everything
/// that stability spreads to from there.
pub open spec fn upper(cells: Seq<Tile>, who: Tile, seed: u64, s: u64) -> bool {
    holds_seed(cells, who, seed, s) && closed(cells, who, s)
}

/// Whether `r` is the mask of the stable discs of `who`, given the discs
/// `seed` that are taken to be stable from the start: the smallest mask
/// that holds the seed and the runs along the edges and that stability
/// spreads no further from.
pub open spec fn stable_set(cells: Seq<Tile>, who: Tile, seed: u64, r: u64) -> bool {
    &&& upper(cells, who, seed, r)
    &&& forall|s: u64| #[trigger] upper(cells, who, seed, s) ==> subset(r, s)
}

/// The mask of the stable discs of `who`, given the discs `seed` that are
/// taken to be stable from the start.
pub open spec fn stable_mask(cells: Seq<Tile>, who: Tile, seed: u64) -> u64 {
    choose|r: u64| stable_set(cells, who, seed, r)
}

/// There is one mask of stable discs.
pub proof fn lemma_stable_unique(cells: Seq<Tile>, who: Tile, seed: u64, a: u64, b: u64)
    requires
        stable_set(cells, who, seed, a),
        stable_set(cells, who, seed, b),
    ensures
        a == b,
{
    assert(upper(cells, who, seed, a));
    assert(upper(cells, who, seed, b));
    assert(subset(a, b));
    assert(subset(b, a));
    lemma_same_bits(a, b);
}

/// A line that keeps a disc with fewer stable discs keeps it with more.
pub proof fn lemma_settles_more(cells: Seq<Tile>, who: Tile, f: u64, s: u64, x: int, y: int)
    requires
        subset(f, s),
        on_board(x, y),
        settles(cells, who, f, x, y),
    ensures
        settles(cells, who, s, x, y),
{
    if s == 0 {
        assert forall|i: int| 0 <= i < 64 implies !bit(f, i) by {
            if bit(f, i) {
                assert(bit(s, i));
            }
        }
        lemma_no_bit_zero(f);
    }
    assert forall|a: int| 0 <= a < 4 && axis_ok(cells, f, x, y, a) implies axis_ok(
        cells,
        s,
        x,
        y,
        a,
    ) by {
        let dx = dir_dx(axis_dir(a));
        let dy = dir_dy(axis_dir(a));
        if on_board(x + dx, y + dy) && bit(f, cell(x + dx, y + dy)) {
            assert(bit(s, cell(x + dx, y + dy)));
        }
        if on_board(x - dx, y - dy) && bit(f, cell(x - dx, y - dy)) {
            assert(bit(s, cell(x - dx, y - dy)));
        }
    }
}

/// A mask within another has no more bits.
pub proof fn lemma_count_subset(a: u64, b: u64, n: nat)
    requires
        subset(a, b),
        n <= 64,
    ensures
        count_bits(a, n) <= count_bits(b, n),
    decreases n,
{
    if n > 0 {
        lemma_count_subset(a, b, (n - 1) as nat);
        if bit(a, n - 1) {
            assert(bit(b, n - 1));
        }
    }
}

/// A new bit is one bit more.
pub proof fn lemma_count_add(m: u64, c: u64, n: nat)
    requires
        c < 64,
        n <= 64,
        !bit(m, c as int),
    ensures
        count_bits(m | (1u64 << c), n) == count_bits(m, n) + if c < n {
            1nat
        } else {
            0nat
        },
    decreases n,
{
    if n > 0 {
        lemma_count_add(m, c, (n - 1) as nat);
    }
}

/// A mask has at most 64 bits.
pub proof fn lemma_count_max(m: u64, n: nat)
    ensures
        count_bits(m, n) <= n,
    decreases n,
{
    if n > 0 {
        lemma_count_max(m, (n - 1) as nat);
    }
}

/// Whether `(x, y)` is one of the first `k` cells of the walk that starts
/// on `(cx, cy)` and goes in the direction `(dx, dy)`.
pub open spec fn within(cx: int, cy: int, dx: int, dy: int, k: int, x: int, y: int) -> bool {
    if x == cx && y == cy {
        k > 0
    } else {
        1 <= ray_pos(cx, cy, dx, dy, x, y) < k
    }
}

/// The walk's next cell is the one more that lies within its first `k + 1`.
pub proof fn lemma_within_step(cx: int, cy: int, dx: int, dy: int, k: int, x: int, y: int)
    requires
        is_dir(dx, dy),
        0 <= k,
    ensures
        within(cx, cy, dx, dy, k + 1, x, y) == (within(cx, cy, dx, dy, k, x, y) || (x == along(
            cx,
            dx,
            k,
        ) && y == along(cy, dy, k))),
{
}

/// Stable discs stay stable: the mask of the stable discs holds every disc
/// that was taken to be stable from the start, so that it has no fewer
/// bits. From one position of a game to the next, each with the mask of
/// the one before, the number of stable discs never falls.
pub proof fn lemma_stable_grows(cells: Seq<Tile>, who: Tile, seed: u64, r: u64)
    requires
        stable_set(cells, who, seed, r),
    ensures
        subset(seed, r),
        popcount(r) >= popcount(seed),
{
    lemma_count_subset(seed, r, 64);
}

} // verus!
