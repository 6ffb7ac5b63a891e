//! Which moves the rules allow: one cell at a time, and all cells at once.

use vstd::prelude::*;
use crate::bits::{bit, count_bits, group_bits, lemma_inner_masks, popcount};
use crate::board::{Board, Move, Tile, Turn};
use crate::rules::{
    playable,
    along, captured, captures, captures_upto, cell, cell_move, choices, dir_dx, dir_dy, disc,
    legal, legal_moves, legal_moves_from, lemma_run_nonneg, on_board, other, run_len, tile_at,
};

verus! {

broadcast use group_bits;

/// Whether `turn` may put a disc on `(x, y)`.
pub fn putable<B: Board>(board: &B, x: u8, y: u8, turn: Turn) -> (r: bool)
    requires
        x < 8,
        y < 8,
    ensures
        r == legal(board@.cells, turn, x as int, y as int),
{
    if board.get(x, y) != Tile::Empty {
        return false;
    }
    let mut d: u8 = 0;
    while d < 8
        invariant
            d <= 8,
            x < 8,
            y < 8,
            tile_at(board@.cells, x as int, y as int) == Tile::Empty,
            !captures_upto(board@.cells, turn, x as int, y as int, d as int),
        decreases 8 - d,
    {
        if board.walk(turn, x, y, d) > 0 {
            assert(captures_upto(board@.cells, turn, x as int, y as int, d + 1));
            proof {
                lemma_captures_more(board@.cells, turn, x as int, y as int, d + 1, 8);
            }
            return true;
        }
        d += 1;
    }
    false
}

/// What captures in some of the first `a` directions captures in some of
/// the first `b`, for `a <= b`.
pub proof fn lemma_captures_more(cells: Seq<Tile>, turn: Turn, x: int, y: int, a: int, b: int)
    requires
        a <= b,
        captures_upto(cells, turn, x, y, a),
    ensures
        captures_upto(cells, turn, x, y, b),
    decreases b - a,
{
    if a < b {
        lemma_captures_more(cells, turn, x, y, a, b - 1);
    }
}

/// The step in cell indices of the direction numbered `d`.
pub open spec fn dir_delta(d: int) -> int {
    dir_dx(d) + 8 * dir_dy(d)
}

/// Whether `(x, y)` has a neighbour on the board both ways along the
/// direction numbered `d`.
pub open spec fn is_inner(d: int, x: int, y: int) -> bool {
    on_board(x, y) && on_board(x + dir_dx(d), y + dir_dy(d)) && on_board(
        x - dir_dx(d),
        y - dir_dy(d),
    )
}

/// The mask of the cells that have a neighbour both ways along the
/// direction numbered `d`.
pub open spec fn inner_mask(d: int) -> u64 {
    if d == 0 || d == 2 {
        0x7e7e7e7e7e7e7e7eu64
    } else if d == 1 || d == 3 {
        0x00ffffffffffff00u64
    } else {
        0x007e7e7e7e7e7e00u64
    }
}

/// The mask of the cells that have a neighbour both ways along the
/// direction numbered `d`.
fn inner(d: u8) -> (r: u64)
    requires
        d < 8,
    ensures
        r == inner_mask(d as int),
{
    match d {
        0 | 2 => 0x7e7e7e7e7e7e7e7e,
        1 | 3 => 0x00ffffffffffff00,
        _ => 0x007e7e7e7e7e7e00,
    }
}

/// The inner mask of a direction has the bits of the inner cells.
pub proof fn lemma_inner(d: int, x: int, y: int)
    requires
        0 <= d < 8,
        on_board(x, y),
    ensures
        bit(inner_mask(d), cell(x, y)) == is_inner(d, x, y),
{
    lemma_inner_masks(cell(x, y));
}

/// The mask whose bit `i` is the bit of `m` one step further in the
/// direction numbered `d`, as far as cell indices go.
fn pull(m: u64, d: u8) -> (r: u64)
    requires
        d < 8,
    ensures
        forall|i: int| 0 <= i < 64 ==> #[trigger] bit(r, i) == bit(m, i + dir_delta(d as int)),
{
    match d {
        0 => m << 1,
        1 => m << 8,
        2 => m >> 1,
        3 => m >> 8,
        4 => m << 9,
        5 => m << 7,
        6 => m >> 7,
        _ => m >> 9,
    }
}

/// Whether, going from the cell of index `i` by steps of `delta`, at least
/// one and at most `m` cells of `area` come first, `i` among them, and a
/// cell of `taker` next.
pub open spec fn reaches(taker: u64, area: u64, delta: int, m: nat, i: int) -> bool
    decreases m,
{
    bit(area, i) && (bit(taker, i + delta) || (m > 1 && reaches(
        taker,
        area,
        delta,
        (m - 1) as nat,
        i + delta,
    )))
}

/// What is reached within `m` cells is reached within `m + 1`.
pub proof fn lemma_reaches_more(taker: u64, area: u64, delta: int, m: nat, i: int)
    requires
        reaches(taker, area, delta, m, i),
    ensures
        reaches(taker, area, delta, m + 1, i),
    decreases m,
{
    if !bit(taker, i + delta) {
        lemma_reaches_more(taker, area, delta, (m - 1) as nat, i + delta);
    }
}

/// The cells next to which, in the direction numbered `d`, a run of discs
/// of `taken` starts that a disc of `taker` ends: the cells where a disc of
/// `taker` would capture in that direction, whatever they hold.
fn targets(taker: u64, taken: u64, d: u8) -> (r: u64)
    requires
        d < 8,
    ensures
        forall|i: int|
            0 <= i < 64 ==> #[trigger] bit(r, i) == reaches(
                taker,
                taken & inner_mask(d as int),
                dir_delta(d as int),
                6,
                i + dir_delta(d as int),
            ),
{
    let area = taken & inner(d);
    let ghost delta = dir_delta(d as int);
    let mut t: u64 = area & pull(taker, d);
    let mut n: u8 = 0;
    assert forall|i: int| 0 <= i < 64 implies #[trigger] bit(t, i) == reaches(
        taker,
        area,
        delta,
        1,
        i,
    ) by {}
    while n < 5
        invariant
            n <= 5,
            d < 8,
            delta == dir_delta(d as int),
            area == taken & inner_mask(d as int),
            forall|i: int|
                0 <= i < 64 ==> #[trigger] bit(t, i) == reaches(
                    taker,
                    area,
                    delta,
                    (n + 1) as nat,
                    i,
                ),
        decreases 5 - n,
    {
        let p = pull(t, d);
        let ghost t0 = t;
        t = t | (area & p);
        proof {
            assert forall|i: int| 0 <= i < 64 implies #[trigger] bit(t, i) == reaches(
                taker,
                area,
                delta,
                (n + 2) as nat,
                i,
            ) by {
                lemma_pulled_reach(taker, area, delta, (n + 1) as nat, i, t0);
            }
        }
        n += 1;
    }
    let r = pull(t, d);
    proof {
        assert forall|i: int| 0 <= i < 64 implies #[trigger] bit(r, i) == reaches(
            taker,
            area,
            delta,
            6,
            i + delta,
        ) by {
            lemma_reaches_range(taker, area, delta, 6, i + delta);
        }
    }
    r
}

/// Nothing is reached from an index that is no cell.
pub proof fn lemma_reaches_range(taker: u64, area: u64, delta: int, m: nat, i: int)
    ensures
        reaches(taker, area, delta, m, i) ==> 0 <= i < 64,
{
}

/// One more round of the fill: a cell is reached within `m + 1` cells where
/// it is reached within `m`, or where it lies in the area and the next cell
/// is reached within `m`.
pub proof fn lemma_pulled_reach(taker: u64, area: u64, delta: int, m: nat, i: int, t: u64)
    requires
        m >= 1,
        forall|j: int| 0 <= j < 64 ==> #[trigger] bit(t, j) == reaches(taker, area, delta, m, j),
    ensures
        reaches(taker, area, delta, m + 1, i) == (reaches(taker, area, delta, m, i) || (bit(area, i)
            && bit(t, i + delta))),
{
    lemma_reaches_range(taker, area, delta, m, i + delta);
    if reaches(taker, area, delta, m, i) {
        lemma_reaches_more(taker, area, delta, m, i);
    }
    if bit(area, i) && bit(taker, i + delta) {
        assert(reaches(taker, area, delta, 1, i));
        lemma_reaches_upto(taker, area, delta, 1, m, i);
    }
}

/// What is reached within `a` cells is reached within `b`, for `a <= b`.
pub proof fn lemma_reaches_upto(taker: u64, area: u64, delta: int, a: nat, b: nat, i: int)
    requires
        a <= b,
        reaches(taker, area, delta, a, i),
    ensures
        reaches(taker, area, delta, b, i),
    decreases b - a,
{
    if a < b {
        lemma_reaches_upto(taker, area, delta, a, (b - 1) as nat, i);
        lemma_reaches_more(taker, area, delta, (b - 1) as nat, i);
    }
}

/// What the fill finds is what the rules say: going from a cell whose
/// neighbour against the direction is on the board, the fill reaches within
/// `m` cells exactly where a run of opposing discs of at most `m` starts
/// that one of the mover's discs ends.
pub proof fn lemma_reaches_run(
    cells: Seq<Tile>,
    turn: Turn,
    taker: u64,
    taken: u64,
    d: int,
    m: nat,
    x: int,
    y: int,
)
    requires
        0 <= d < 8,
        m >= 1,
        cells.len() == 64,
        on_board(x, y),
        on_board(x - dir_dx(d), y - dir_dy(d)),
        forall|i: int| 0 <= i < 64 ==> #[trigger] bit(taker, i) == (cells[i] == disc(turn)),
        forall|i: int| 0 <= i < 64 ==> #[trigger] bit(taken, i) == (cells[i] == disc(other(turn))),
    ensures
        reaches(taker, taken & inner_mask(d), dir_delta(d), m, cell(x, y)) == ({
            let n = run_len(cells, disc(other(turn)), x, y, dir_dx(d), dir_dy(d));
            1 <= n <= m && on_board(along(x, dir_dx(d), n), along(y, dir_dy(d), n)) && tile_at(
                cells,
                along(x, dir_dx(d), n),
                along(y, dir_dy(d), n),
            ) == disc(turn)
        }),
    decreases m,
{
    let dx = dir_dx(d);
    let dy = dir_dy(d);
    let op = disc(other(turn));
    let area = taken & inner_mask(d);
    let i = cell(x, y);
    let n = run_len(cells, op, x, y, dx, dy);
    lemma_inner(d, x, y);
    lemma_run_nonneg(cells, op, x + dx, y + dy, dx, dy);
    assert(bit(area, i) == (bit(taken, i) && bit(inner_mask(d), i)));
    if tile_at(cells, x, y) == op {
        let n1 = run_len(cells, op, x + dx, y + dy, dx, dy);
        assert(n == 1 + n1);
        if on_board(x + dx, y + dy) {
            assert(i + dir_delta(d) == cell(x + dx, y + dy));
            assert(along(x, dx, 1) == x + dx && along(y, dy, 1) == y + dy);
            if tile_at(cells, x + dx, y + dy) == disc(turn) {
                assert(n1 == 0);
            } else {
                if m > 1 {
                    lemma_reaches_run(cells, turn, taker, taken, d, (m - 1) as nat, x + dx, y + dy);
                    assert(along(x + dx, dx, n1) == along(x, dx, n) && along(y + dy, dy, n1)
                        == along(y, dy, n));
                } else {
                    if n1 == 0 {
                        assert(n == 1);
                    }
                }
            }
        } else {
            assert(n1 == 0);
            assert(along(x, dx, 1) == x + dx && along(y, dy, 1) == y + dy);
        }
    }
}

/// The fill finds the cells where a disc captures: on a cell of the board
/// the fill of a direction reaches the next cell exactly where a disc put
/// on the cell captures in that direction.
pub proof fn lemma_reaches_captured(
    cells: Seq<Tile>,
    turn: Turn,
    taker: u64,
    taken: u64,
    d: int,
    x: int,
    y: int,
)
    requires
        0 <= d < 8,
        cells.len() == 64,
        on_board(x, y),
        forall|i: int| 0 <= i < 64 ==> #[trigger] bit(taker, i) == (cells[i] == disc(turn)),
        forall|i: int| 0 <= i < 64 ==> #[trigger] bit(taken, i) == (cells[i] == disc(other(turn))),
    ensures
        reaches(taker, taken & inner_mask(d), dir_delta(d), 6, cell(x, y) + dir_delta(d)) == (
        captured(cells, turn, x, y, dir_dx(d), dir_dy(d)) > 0),
{
    let dx = dir_dx(d);
    let dy = dir_dy(d);
    let area = taken & inner_mask(d);
    let j = cell(x, y) + dir_delta(d);
    let n = run_len(cells, disc(other(turn)), x + dx, y + dy, dx, dy);
    lemma_run_nonneg(cells, disc(other(turn)), x + dx, y + dy, dx, dy);
    if on_board(x + dx, y + dy) {
        lemma_reaches_run(cells, turn, taker, taken, d, 6, x + dx, y + dy);
        assert(along(x + dx, dx, n) == along(x, dx, n + 1) && along(y + dy, dy, n) == along(
            y,
            dy,
            n + 1,
        ));
    } else {
        assert(n == 0);
        if 0 <= j < 64 {
            lemma_inner(d, j % 8, j / 8);
            assert(cell(j % 8, j / 8) == j);
            assert(!is_inner(d, j % 8, j / 8));
            assert(bit(area, j) == (bit(taken, j) && bit(inner_mask(d), j)));
        }
    }
}

/// Whether the fill of one of the first `n` directions reaches the cell
/// next to the cell of index `i`.
pub open spec fn reached_upto(taker: u64, taken: u64, i: int, n: int) -> bool
    decreases n,
{
    if n <= 0 {
        false
    } else {
        reached_upto(taker, taken, i, n - 1) || reaches(
            taker,
            taken & inner_mask(n - 1),
            dir_delta(n - 1),
            6,
            i + dir_delta(n - 1),
        )
    }
}

/// On a cell of the board the fills of the first `n` directions reach a
/// neighbour exactly where a disc put on the cell captures in one of them.
pub proof fn lemma_reached_captures(
    cells: Seq<Tile>,
    turn: Turn,
    taker: u64,
    taken: u64,
    x: int,
    y: int,
    n: int,
)
    requires
        0 <= n <= 8,
        cells.len() == 64,
        on_board(x, y),
        forall|i: int| 0 <= i < 64 ==> #[trigger] bit(taker, i) == (cells[i] == disc(turn)),
        forall|i: int| 0 <= i < 64 ==> #[trigger] bit(taken, i) == (cells[i] == disc(other(turn))),
    ensures
        reached_upto(taker, taken, cell(x, y), n) == captures_upto(cells, turn, x, y, n),
    decreases n,
{
    if n > 0 {
        lemma_reached_captures(cells, turn, taker, taken, x, y, n - 1);
        lemma_reaches_captured(cells, turn, taker, taken, n - 1, x, y);
    }
}

/// The moves onto the cells of index `i` and more that have their bit in
/// the mask, in the order of the cells.
pub open spec fn mask_moves_from(bits: u64, i: int) -> Seq<Move>
    decreases 64 - i,
{
    if i < 0 || i >= 64 {
        Seq::empty()
    } else if bit(bits, i) {
        seq![cell_move(i)] + mask_moves_from(bits, i + 1)
    } else {
        mask_moves_from(bits, i + 1)
    }
}

/// A mask of the legal cells lists the legal moves.
pub proof fn lemma_mask_moves(cells: Seq<Tile>, turn: Turn, bits: u64, i: int)
    requires
        forall|j: int| 0 <= j < 64 ==> #[trigger] bit(bits, j) == legal(cells, turn, j % 8, j / 8),
    ensures
        mask_moves_from(bits, i) == legal_moves_from(cells, turn, i),
    decreases 64 - i,
{
    if 0 <= i < 64 {
        lemma_mask_moves(cells, turn, bits, i + 1);
    }
}

/// A mask lists as many moves from a cell on as it has bits from there on.
pub proof fn lemma_mask_moves_len(bits: u64, i: int)
    requires
        0 <= i <= 64,
    ensures
        mask_moves_from(bits, i).len() == popcount(bits) - count_bits(bits, i as nat),
    decreases 64 - i,
{
    if i < 64 {
        lemma_mask_moves_len(bits, i + 1);
    }
}

/// The legal moves of a side, to be taken one after the other in the order
/// of the cells.
pub struct MoveIter {
    bits: u64,
    iter: usize,
}

impl MoveIter {
    /// The mask of all the cells that the moves go to.
    pub closed spec fn mask(&self) -> u64 {
        self.bits
    }

    /// The index of the first cell that has not been looked at yet.
    pub closed spec fn cursor(&self) -> int {
        self.iter as int
    }

    /// The moves that are still to come.
    pub open spec fn remaining(&self) -> Seq<Move> {
        mask_moves_from(self.mask(), self.cursor())
    }

    /// All the discs that `turn` may put on the board.
    pub fn new<B: Board>(board: &B, turn: Turn) -> (it: MoveIter)
        ensures
            it.cursor() == 0,
            forall|i: int|
                0 <= i < 64 ==> #[trigger] bit(it.mask(), i) == legal(
                    board@.cells,
                    turn,
                    i % 8,
                    i / 8,
                ),
            it.remaining() == legal_moves(board@.cells, turn),
    {
        let (black, white) = board.bitboard();
        let (taker, taken) = if turn == Turn::Black {
            (black, white)
        } else {
            (white, black)
        };
        let ghost cells = board@.cells;
        proof {
            board.lemma_cells();
        }
        let mut takable: u64 = 0;
        let mut d: u8 = 0;
        while d < 8
            invariant
                d <= 8,
                forall|i: int|
                    0 <= i < 64 ==> #[trigger] bit(takable, i) == reached_upto(
                        taker,
                        taken,
                        i,
                        d as int,
                    ),
            decreases 8 - d,
        {
            let t = targets(taker, taken, d);
            takable = takable | t;
            d += 1;
        }
        takable = takable & !(black | white);
        proof {
            assert forall|i: int| 0 <= i < 64 implies #[trigger] bit(takable, i) == legal(
                cells,
                turn,
                i % 8,
                i / 8,
            ) by {
                assert(cell(i % 8, i / 8) == i);
                lemma_reached_captures(cells, turn, taker, taken, i % 8, i / 8, 8);
            }
            lemma_mask_moves(cells, turn, takable, 0);
        }
        MoveIter { bits: takable, iter: 0 }
    }

    /// The number of moves, taken or not.
    pub fn count_moves(&self) -> (n: u32)
        ensures
            n == popcount(self.mask()),
            n == mask_moves_from(self.mask(), 0).len(),
    {
        proof {
            lemma_mask_moves_len(self.bits, 0);
        }
        self.bits.count_ones()
    }

    /// The next move, if one is left.
    pub fn next(&mut self) -> (r: Option<Move>)
        ensures
            final(self).mask() == old(self).mask(),
            match r {
                Some(mv) => old(self).remaining() == seq![mv] + final(self).remaining(),
                None => old(self).remaining().len() == 0 && final(self).remaining().len() == 0,
            },
    {
        while self.iter < 64
            invariant
                self.bits == old(self).bits,
                mask_moves_from(self.bits, self.iter as int) == old(self).remaining(),
            decreases 64 - self.iter,
        {
            let i = self.iter;
            let here: u64 = 1u64 << (i as u64);
            proof {
                crate::bits::lemma_bit_test(self.bits, i as u64);
            }
            self.iter += 1;
            if self.bits & here != 0 {
                return Some(Move::Put { x: (i % 8) as u8, y: (i / 8) as u8 });
            }
        }
        None
    }
}

/// All the discs that `turn` may put on the board.
pub fn iter_moves<B: Board>(board: &B, turn: Turn) -> (it: MoveIter)
    ensures
        it.cursor() == 0,
        forall|i: int|
            0 <= i < 64 ==> #[trigger] bit(it.mask(), i) == legal(board@.cells, turn, i % 8, i / 8),
        it.remaining() == legal_moves(board@.cells, turn),
{
    MoveIter::new(board, turn)
}

/// The discs that `turn` may put on the board, in the order of the cells.
pub fn list_legal<B: Board>(board: &B, turn: Turn) -> (v: Vec<Move>)
    ensures
        v@ == legal_moves(board@.cells, turn),
{
    let mut it = iter_moves(board, turn);
    let ghost all = it.remaining();
    let mut v: Vec<Move> = Vec::new();
    loop
        invariant
            all == legal_moves(board@.cells, turn),
            all == v@ + it.remaining(),
        decreases it.remaining().len(),
    {
        match it.next() {
            None => {
                assert(v@ + it.remaining() =~= v@);
                return v;
            },
            Some(mv) => {
                proof {
                    assert(v@.push(mv) + it.remaining() =~= all);
                }
                v.push(mv);
            },
        }
    }
}

/// The moves that the side to move has to choose from: the discs that it
/// may put on the board, in the order of the cells, or the pass alone where
/// there is none.
pub fn list_moves<B: Board>(board: &B) -> (v: Vec<Move>)
    ensures
        v@ == choices(board@),
        v.len() >= 1,
{
    let mut v = list_legal(board, board.get_turn());
    if v.len() == 0 {
        v.push(Move::Pass);
        assert(v@ =~= seq![Move::Pass]);
    }
    v
}

/// Whether the side to move may play the move: a disc where the rules allow
/// it, and a pass only where they allow no disc anywhere.
pub fn is_playable<B: Board>(board: &B, mv: Move) -> (r: bool)
    ensures
        r == playable(board@, mv),
        r ==> mv.on_board(),
{
    let turn = board.get_turn();
    match mv {
        Move::Pass => iter_moves(board, turn).count_moves() == 0,
        Move::Put { x, y } => x < 8 && y < 8 && putable(board, x, y, turn),
    }
}

} // verus!
