//! The opening book: lines of play recorded ahead of the game.
//!
//! The book is a sequence of bytes. A block is a count of eight bytes
//! followed by that many records of 24 bytes; a record is seven bytes of
//! padding, the byte of a move, eight bytes of a score and the eight bytes
//! of the offset at which the block of the replies begins, 0 where there is
//! none. Numbers are written with their highest byte first. The records of
//! a block are sorted by the byte of their move. The first block begins at
//! offset 0.

use vstd::prelude::*;
use byteorder::{BigEndian, ByteOrder};
use crate::board::{Move, Turn};
use crate::chance::{sample_u64, weak_rng};

verus! {

/// The number that eight bytes stand for, the highest byte first, read at
/// the offset `at`.
pub open spec fn be_u64(s: Seq<u8>, at: int) -> int {
    s[at] * 0x100_0000_0000_0000 + s[at + 1] * 0x1_0000_0000_0000 + s[at + 2] * 0x100_0000_0000 + s[at
        + 3] * 0x1_0000_0000 + s[at + 4] * 0x100_0000 + s[at + 5] * 0x1_0000 + s[at + 6] * 0x100 + s[at
        + 7]
}

/// `byteorder::BigEndian::read_u64` on the bytes from the offset `at` on: by
/// its documentation and its source, the number that the first eight of
/// them stand for, the highest byte first. It panics on fewer than eight
/// bytes, which the precondition leaves out.
#[verifier::external_body]
fn read_u64_at(data: &Vec<u8>, at: usize) -> (r: u64)
    requires
        at + 8 <= data@.len(),
    ensures
        r == be_u64(data@, at as int),
{
    BigEndian::read_u64(&data[at..])
}

/// The byte of a move: the column in the high half, the row in the low.
pub open spec fn move_byte(x: int, y: int) -> int {
    x * 16 + y
}

/// The byte that stands for a pass.
pub const PASS_BYTE: u8 = 0x88;

/// The byte that ends a line of the book.
pub const END_BYTE: u8 = 0xff;

/// The four ways in which the board can be turned or mirrored so that the
/// first move of a game comes to lie where the book has it: as it is, with
/// the axes swapped, turned half round, and both.
pub open spec fn symmetry(x: int, y: int) -> int {
    if x == 2 && y == 3 {
        0
    } else if x == 3 && y == 2 {
        1
    } else if x == 5 && y == 4 {
        2
    } else {
        3
    }
}

/// The byte of the cell that the symmetry `kind` takes `(x, y)` to.
pub open spec fn image(kind: int, x: int, y: int) -> int {
    if kind == 0 {
        move_byte(x, y)
    } else if kind == 1 {
        move_byte(y, x)
    } else if kind == 2 {
        move_byte(7 - x, 7 - y)
    } else {
        move_byte(7 - y, 7 - x)
    }
}

/// Whether the byte is that of a move onto the board.
pub open spec fn is_cell_byte(v: int) -> bool {
    0 <= v < 128 && v % 16 < 8
}

/// The table of a symmetry laid over an older table: the bytes of the cells
/// and of the pass are mapped, every other byte is left as it was.
pub open spec fn table_of(kind: int, older: Seq<u8>) -> Seq<u8> {
    Seq::new(
        256,
        |v: int|
            if is_cell_byte(v) {
                image(kind, v / 16, v % 16) as u8
            } else if v == 0x88 {
                0x88u8
            } else {
                older[v]
            },
    )
}

/// Maps the bytes of moves between the board as it is played on and the
/// board as the book has it.
pub struct Transform {
    table: Vec<u8>,
}

impl Transform {
    /// The table has an entry for every byte.
    #[verifier::type_invariant]
    spec fn full(self) -> bool {
        self.table.len() == 256
    }

    /// The table: what each byte is mapped to.
    pub closed spec fn view(&self) -> Seq<u8> {
        Seq::new(
            256,
            |v: int|
                if v < self.table.len() {
                    self.table[v]
                } else {
                    0u8
                },
        )
    }

    /// A table that maps every byte to 0.
    pub fn new() -> (t: Transform)
        ensures
            t@ == Seq::new(256, |v: int| 0u8),
    {
        let mut table: Vec<u8> = Vec::new();
        let mut i: usize = 0;
        while i < 256
            invariant
                i <= 256,
                table.len() == i,
                forall|j: int| 0 <= j < i ==> #[trigger] table[j] == 0,
            decreases 256 - i,
        {
            table.push(0u8);
            i += 1;
        }
        let t = Transform { table };
        assert(t@ =~= Seq::new(256, |v: int| 0u8));
        t
    }

    /// Sets the table by the first move of the game, which is one of four
    /// and says how the board lies against the book's.
    pub fn init(&mut self, x: u8, y: u8)
        ensures
            final(self)@ == table_of(symmetry(x as int, y as int), old(self)@),
        no_unwind
    {
        proof {
            use_type_invariant(&*self);
        }
        let kind: u8 = if x == 2 && y == 3 {
            0
        } else if x == 3 && y == 2 {
            1
        } else if x == 5 && y == 4 {
            2
        } else {
            3
        };
        let ghost older = self@;
        let mut a: u8 = 0;
        while a < 8
            invariant
                a <= 8,
                kind == symmetry(x as int, y as int),
                self.table.len() == 256,
                forall|v: int|
                    0 <= v < 256 ==> #[trigger] self.table[v] == (if is_cell_byte(v) && v / 16 < a {
                        image(kind as int, v / 16, v % 16) as u8
                    } else {
                        older[v]
                    }),
            decreases 8 - a,
        {
            let mut b: u8 = 0;
            while b < 8
                invariant
                    a < 8,
                    b <= 8,
                    kind == symmetry(x as int, y as int),
                    self.table.len() == 256,
                    forall|v: int|
                        0 <= v < 256 ==> #[trigger] self.table[v] == (if is_cell_byte(v) && (v / 16
                            < a || (v / 16 == a && v % 16 < b)) {
                            image(kind as int, v / 16, v % 16) as u8
                        } else {
                            older[v]
                        }),
                decreases 8 - b,
            {
                let to: u8 = if kind == 0 {
                    a * 16 + b
                } else if kind == 1 {
                    b * 16 + a
                } else if kind == 2 {
                    (7 - a) * 16 + (7 - b)
                } else {
                    (7 - b) * 16 + (7 - a)
                };
                self.table[(a * 16 + b) as usize] = to;
                b += 1;
            }
            a += 1;
        }
        self.table[0x88] = 0x88;
        assert(self@ =~= table_of(symmetry(x as int, y as int), older));
    }

    /// From the board as it is played on to the board as the book has it.
    pub fn get(&self, v: u8) -> (r: u8)
        ensures
            r == self@[v as int],
    {
        proof {
            use_type_invariant(self);
        }
        self.table[v as usize]
    }

    /// From the board as the book has it to the board as it is played on.
    pub fn inv(&self, v: u8) -> (r: u8)
        ensures
            r == self@[v as int],
    {
        proof {
            use_type_invariant(self);
        }
        self.table[v as usize]
    }
}

/// Mapped there and back, the byte of every move onto the board and the
/// byte of the pass are what they were, whichever of the four first moves
/// set the table.
pub proof fn lemma_transform_round_trip(kind: int, older: Seq<u8>, v: int)
    requires
        0 <= kind < 4,
        is_cell_byte(v) || v == 0x88,
    ensures
        table_of(kind, older)[table_of(kind, older)[v] as int] == v,
        is_cell_byte(v) ==> is_cell_byte(table_of(kind, older)[v] as int),
{
    let t = table_of(kind, older);
    if is_cell_byte(v) {
        let x = v / 16;
        let y = v % 16;
        lemma_image(kind, x, y);
        let w = image(kind, x, y);
        assert(t[v] == w as u8);
        lemma_image(kind, w / 16, w % 16);
        assert(t[w] == image(kind, w / 16, w % 16) as u8);
    }
}

/// The image of a cell is the byte of a cell, and the image of the image is
/// the cell itself.
pub proof fn lemma_image(kind: int, x: int, y: int)
    requires
        0 <= kind < 4,
        0 <= x < 8,
        0 <= y < 8,
    ensures
        is_cell_byte(image(kind, x, y)),
        image(kind, image(kind, x, y) / 16, image(kind, x, y) % 16) == move_byte(x, y),
        move_byte(x, y) / 16 == x,
        move_byte(x, y) % 16 == y,
{
    let w = image(kind, x, y);
    if kind == 0 {
        assert(w / 16 == x && w % 16 == y);
    } else if kind == 1 {
        assert(w / 16 == y && w % 16 == x);
    } else if kind == 2 {
        assert(w / 16 == 7 - x && w % 16 == 7 - y);
    } else {
        assert(w / 16 == 7 - y && w % 16 == 7 - x);
    }
}

/// The byte of the move of the record `i` of the block whose records begin
/// at the offset `block`.
pub open spec fn key_at(data: Seq<u8>, block: int, i: int) -> u8 {
    data[block + 24 * i + 7]
}

/// Whether the records `lo` up to `hi` of the block are sorted by the byte
/// of their move.
pub open spec fn sorted(data: Seq<u8>, block: int, lo: int, hi: int) -> bool {
    forall|i: int, j: int|
        lo <= i <= j < hi ==> #[trigger] key_at(data, block, i) <= #[trigger] key_at(data, block, j)
}

/// Where a search by halves among the records `lo` up to `hi` ends that
/// looks for the first record whose byte is `v` or more.
pub open spec fn lower(data: Seq<u8>, block: int, lo: int, hi: int, v: u8) -> int
    decreases hi - lo,
{
    if lo >= hi {
        lo
    } else {
        let mid = lo + (hi - lo) / 2;
        if key_at(data, block, mid) < v {
            lower(data, block, mid + 1, hi, v)
        } else {
            lower(data, block, lo, mid, v)
        }
    }
}

/// Where a search by halves among the records `lo` up to `hi` ends that
/// looks for the first record whose byte is more than `v`.
pub open spec fn upper(data: Seq<u8>, block: int, lo: int, hi: int, v: u8) -> int
    decreases hi - lo,
{
    if lo >= hi {
        lo
    } else {
        let mid = lo + (hi - lo) / 2;
        if key_at(data, block, mid) <= v {
            upper(data, block, mid + 1, hi, v)
        } else {
            upper(data, block, lo, mid, v)
        }
    }
}

/// The records of the block whose byte is `v`, as the first and the last of
/// their indices, where the two searches by halves find any among the
/// records `first` to `last`.
pub open spec fn matches(data: Seq<u8>, block: int, first: int, last: int, v: u8) -> Option<
    (int, int),
> {
    let lo = lower(data, block, first, last + 1, v);
    let hi = upper(data, block, first, last + 1, v);
    if lo < hi && key_at(data, block, lo) == v {
        Some((lo, hi - 1))
    } else {
        None
    }
}

/// In a sorted block the search by halves finds the first record whose
/// byte is `v` or more.
pub proof fn lemma_lower(data: Seq<u8>, block: int, lo: int, hi: int, v: u8)
    requires
        lo <= hi,
        sorted(data, block, lo, hi),
    ensures
        lo <= lower(data, block, lo, hi, v) <= hi,
        forall|j: int| lo <= j < lower(data, block, lo, hi, v) ==> #[trigger] key_at(data, block, j) < v,
        forall|j: int|
            lower(data, block, lo, hi, v) <= j < hi ==> #[trigger] key_at(data, block, j) >= v,
    decreases hi - lo,
{
    if lo < hi {
        let mid = lo + (hi - lo) / 2;
        if key_at(data, block, mid) < v {
            lemma_lower(data, block, mid + 1, hi, v);
            assert forall|j: int| lo <= j < lower(data, block, lo, hi, v) implies #[trigger] key_at(
                data,
                block,
                j,
            ) < v by {
                if j <= mid {
                    assert(key_at(data, block, j) <= key_at(data, block, mid));
                }
            }
        } else {
            lemma_lower(data, block, lo, mid, v);
            assert forall|j: int| lower(data, block, lo, hi, v) <= j < hi implies #[trigger] key_at(
                data,
                block,
                j,
            ) >= v by {
                if j >= mid {
                    assert(key_at(data, block, mid) <= key_at(data, block, j));
                }
            }
        }
    }
}

/// In a sorted block the search by halves finds the first record whose
/// byte is more than `v`.
pub proof fn lemma_upper(data: Seq<u8>, block: int, lo: int, hi: int, v: u8)
    requires
        lo <= hi,
        sorted(data, block, lo, hi),
    ensures
        lo <= upper(data, block, lo, hi, v) <= hi,
        forall|j: int| lo <= j < upper(data, block, lo, hi, v) ==> #[trigger] key_at(data, block, j) <= v,
        forall|j: int|
            upper(data, block, lo, hi, v) <= j < hi ==> #[trigger] key_at(data, block, j) > v,
    decreases hi - lo,
{
    if lo < hi {
        let mid = lo + (hi - lo) / 2;
        if key_at(data, block, mid) <= v {
            lemma_upper(data, block, mid + 1, hi, v);
            assert forall|j: int| lo <= j < upper(data, block, lo, hi, v) implies #[trigger] key_at(
                data,
                block,
                j,
            ) <= v by {
                if j <= mid {
                    assert(key_at(data, block, j) <= key_at(data, block, mid));
                }
            }
        } else {
            lemma_upper(data, block, lo, mid, v);
            assert forall|j: int| upper(data, block, lo, hi, v) <= j < hi implies #[trigger] key_at(
                data,
                block,
                j,
            ) > v by {
                if j >= mid {
                    assert(key_at(data, block, mid) <= key_at(data, block, j));
                }
            }
        }
    }
}

/// In a sorted block the two searches find exactly the records whose byte
/// is `v`: all of them, however many share the byte, and nothing where
/// there is none.
pub proof fn lemma_matches(data: Seq<u8>, block: int, first: int, last: int, v: u8, j: int)
    requires
        first <= last + 1,
        sorted(data, block, first, last + 1),
        first <= j <= last,
    ensures
        key_at(data, block, j) == v <==> (matches(data, block, first, last, v) matches Some(r)
            && r.0 <= j <= r.1),
{
    lemma_lower(data, block, first, last + 1, v);
    lemma_upper(data, block, first, last + 1, v);
    let lo = lower(data, block, first, last + 1, v);
    let hi = upper(data, block, first, last + 1, v);
    if lo < hi {
        assert(key_at(data, block, lo) >= v);
        assert(key_at(data, block, lo) <= v);
    }
    if key_at(data, block, j) == v {
        assert(lo <= j < hi);
    }
    if lo <= j < hi {
        assert(key_at(data, block, j) >= v);
        assert(key_at(data, block, j) <= v);
    }
}

/// Looks among the records `orig_first` to `orig_last` of a block for those
/// whose byte is `v`, by two searches by halves, one for the first of them
/// and one for the last.
pub fn binary_search(book: &Vec<u8>, block: u64, orig_first: u64, orig_last: u64, v: u8) -> (r:
    Option<(u64, u64)>)
    requires
        orig_first <= orig_last,
        block + 24 * (orig_last + 1) <= book@.len(),
    ensures
        match matches(book@, block as int, orig_first as int, orig_last as int, v) {
            Some(m) => r == Some((m.0 as u64, m.1 as u64)) && orig_first <= m.0 <= m.1 <= orig_last,
            None => r is None,
        },
{
    let ghost data = book@;
    let ghost b = block as int;
    let ghost end = orig_last + 1;
    let len = book.len();
    let mut lo: u64 = orig_first;
    let mut hi: u64 = orig_last + 1;
    while lo < hi
        invariant
            orig_first <= lo <= hi <= orig_last + 1,
            block + 24 * (orig_last + 1) <= book@.len() <= usize::MAX,
            data == book@,
            b == block,
            end == orig_last + 1,
            lower(data, b, orig_first as int, end, v) == lower(data, b, lo as int, hi as int, v),
        decreases hi - lo,
    {
        let mid = lo + (hi - lo) / 2;
        let vv = book[(block + 24 * mid + 7) as usize];
        if vv < v {
            lo = mid + 1;
        } else {
            hi = mid;
        }
    }
    let found = lo;
    let mut lo2: u64 = orig_first;
    let mut hi2: u64 = orig_last + 1;
    while lo2 < hi2
        invariant
            orig_first <= lo2 <= hi2 <= orig_last + 1,
            block + 24 * (orig_last + 1) <= book@.len() <= usize::MAX,
            data == book@,
            b == block,
            end == orig_last + 1,
            upper(data, b, orig_first as int, end, v) == upper(data, b, lo2 as int, hi2 as int, v),
        decreases hi2 - lo2,
    {
        let mid = lo2 + (hi2 - lo2) / 2;
        let vv = book[(block + 24 * mid + 7) as usize];
        if vv <= v {
            lo2 = mid + 1;
        } else {
            hi2 = mid;
        }
    }
    if found < lo2 && book[(block + 24 * found + 7) as usize] == v {
        Some((found, lo2 - 1))
    } else {
        None
    }
}

/// The number by which a score is ordered, from the number `bits` that its
/// eight bytes stand for. The bytes are those of a floating-point number;
/// read as a sign and a magnitude they order as the numbers do, with zero
/// and minus zero the same. Bytes that stand for no number come after
/// every number on their side of zero.
pub open spec fn score_key(bits: int) -> int {
    if bits >= 0x8000_0000_0000_0000 {
        -(bits - 0x8000_0000_0000_0000)
    } else {
        bits
    }
}

/// The score of the record `i` of the block whose records begin at the
/// offset `block`; more is better for Black.
pub open spec fn score_at(data: Seq<u8>, block: int, i: int) -> int {
    score_key(be_u64(data, block + 24 * i + 8))
}

/// The offset of the block of the replies to the record `i`, 0 where there
/// is none.
pub open spec fn next_at(data: Seq<u8>, block: int, i: int) -> int {
    be_u64(data, block + 24 * i + 16)
}

/// The block whose count lies at the offset `ptr`, as the offset of its
/// first record and the index of its last, if one lies there that has a
/// record and that the data hold in full.
pub open spec fn block_at(data: Seq<u8>, ptr: int) -> Option<(int, int)> {
    if 0 <= ptr && ptr + 8 <= data.len() && be_u64(data, ptr) >= 1 && ptr + 8 + 24 * be_u64(
        data,
        ptr,
    ) <= data.len() {
        Some((ptr + 8, be_u64(data, ptr) - 1))
    } else {
        None
    }
}

/// Where the book stands in a game.
pub struct BookState {
    /// The bytes of the book.
    pub data: Seq<u8>,
    /// The offset of the first record of the block that the game has come
    /// to.
    pub block: int,
    /// The index of the first record to choose from.
    pub first: int,
    /// The index of the last record to choose from.
    pub last: int,
    /// Whether no move has been played yet.
    pub opening: bool,
    /// The table that maps the bytes of moves.
    pub table: Seq<u8>,
    /// Whether the book has nothing more to say.
    pub runout: bool,
}

/// The book at the start of a game.
pub open spec fn start(data: Seq<u8>, table: Seq<u8>) -> BookState {
    match block_at(data, 0) {
        Some(b) => BookState {
            data,
            block: b.0,
            first: 0,
            last: b.1,
            opening: true,
            table,
            runout: false,
        },
        None => BookState { data, block: 0, first: 0, last: 0, opening: true, table, runout: true },
    }
}

/// The state with nothing more to say.
pub open spec fn exhausted(s: BookState) -> BookState {
    BookState {
        data: s.data,
        block: s.block,
        first: s.first,
        last: s.last,
        opening: s.opening,
        table: s.table,
        runout: true,
    }
}

/// The table after the move: set by the first move of a game, and as it
/// was after any other.
pub open spec fn table_after(s: BookState, x: int, y: int) -> Seq<u8> {
    if s.opening {
        table_of(symmetry(x, y), s.table)
    } else {
        s.table
    }
}

/// The book after a move has been played. A pass, and a move that the
/// block does not hold, leave the book with nothing more to say; so does a
/// record without replies. Else the book goes on to the block of the
/// replies to the first record of the move.
pub open spec fn after(s: BookState, mv: Move) -> BookState {
    if s.runout {
        s
    } else {
        match mv {
            Move::Pass => exhausted(s),
            Move::Put { x, y } => {
                let table = table_after(s, x as int, y as int);
                let s1 = BookState {
                    data: s.data,
                    block: s.block,
                    first: s.first,
                    last: s.last,
                    opening: false,
                    table,
                    runout: false,
                };
                match matches(s.data, s.block, s.first, s.last, table[move_byte(x as int, y as int)]) {
                    None => exhausted(s1),
                    Some(m) => {
                        let ptr = next_at(s.data, s.block, m.0);
                        if ptr == 0 {
                            exhausted(s1)
                        } else {
                            match block_at(s.data, ptr) {
                                None => exhausted(s1),
                                Some(b) => BookState {
                                    data: s.data,
                                    block: b.0,
                                    first: 0,
                                    last: b.1,
                                    opening: false,
                                    table,
                                    runout: false,
                                },
                            }
                        }
                    },
                }
            },
        }
    }
}

/// Whether, for the side `color`, the score `b` is at least as good as the
/// score `a`.
pub open spec fn no_worse(color: Turn, a: int, b: int) -> bool {
    if color == Turn::Black {
        a <= b
    } else {
        a >= b
    }
}

/// The record that the side `color` likes best among the first `n` of the
/// records looked at; of records that it likes the same, the one looked at
/// last.
pub open spec fn favourite(data: Seq<u8>, block: int, color: Turn, samples: Seq<u64>, n: int) -> int
    decreases n,
{
    if n <= 1 {
        samples[0] as int
    } else {
        let prev = favourite(data, block, color, samples, n - 1);
        let cur = samples[n - 1] as int;
        if no_worse(color, score_at(data, block, prev), score_at(data, block, cur)) {
            cur
        } else {
            prev
        }
    }
}

/// The move that a byte of the book stands for once it has been mapped to
/// the board as it is played on.
pub open spec fn byte_move(ret: u8) -> Move {
    if ret == 0x88 {
        Move::Pass
    } else {
        Move::Put { x: ((ret / 16) % 8) as u8, y: (ret % 8) as u8 }
    }
}

/// The book's reply by the record `next`, and the book after it: nothing
/// and nothing more to say where the record ends the line, else the
/// record's move, mapped to the board as it is played on, with the word
/// whether the book goes on after it.
pub open spec fn reply_with(s: BookState, next: int) -> (Option<(Move, bool)>, BookState) {
    let byte = key_at(s.data, s.block, next);
    if byte == 0xff {
        (None, exhausted(s))
    } else {
        let mv2 = byte_move(s.table[byte as int]);
        let s2 = after(s, mv2);
        (Some((mv2, !s2.runout)), s2)
    }
}

/// Whether the book, asked in the state `s` for a move after `last_move`,
/// may hand back `r` and be in the state `s2` afterwards. Nothing comes
/// from a book that has nothing more to say, before the call or after
/// `last_move`. The first move of a game is always the same. After another
/// move the book replies by one of the records of the block that the game
/// has come to.
pub open spec fn gen_yields(
    s: BookState,
    last_move: Option<Move>,
    r: Option<(Move, bool)>,
    s2: BookState,
) -> bool {
    if s.runout {
        r is None && s2 == s
    } else {
        match last_move {
            None => r == Some(
                (Move::Put { x: 2, y: 3 }, !after(s, Move::Put { x: 2, y: 3 }).runout),
            ) && s2 == after(s, Move::Put { x: 2, y: 3 }),
            Some(mv) => {
                let s1 = after(s, mv);
                if s1.runout {
                    r is None && s2 == s1
                } else {
                    exists|next: int|
                        s1.first <= next <= s1.last && r == (#[trigger] reply_with(s1, next)).0
                            && s2 == reply_with(s1, next).1
                }
            },
        }
    }
}

/// The number by which the score with the given bytes is ordered.
fn order_key(bits: u64) -> (k: i64)
    ensures
        k == score_key(bits as int),
{
    if bits >= 0x8000_0000_0000_0000 {
        -((bits - 0x8000_0000_0000_0000) as i64)
    } else {
        bits as i64
    }
}

/// The block whose count lies at the offset `ptr`, if one lies there.
fn enter(data: &Vec<u8>, ptr: u64) -> (r: Option<(u64, u64)>)
    ensures
        match block_at(data@, ptr as int) {
            Some(b) => r == Some((b.0 as u64, b.1 as u64)) && b.0 + 24 * (b.1 + 1) <= data@.len(),
            None => r is None,
        },
{
    let len = data.len();
    if len < 8 || ptr > (len - 8) as u64 {
        return None;
    }
    let at = ptr as usize;
    let count = read_u64_at(data, at);
    if count == 0 {
        return None;
    }
    let room = ((len - 8 - at) / 24) as u64;
    if count > room {
        return None;
    }
    Some((ptr + 8, count - 1))
}

/// The opening book and the place that a game has come to in it.
pub struct Book {
    book: Vec<u8>,
    block: u64,
    first: u64,
    last: u64,
    opening: bool,
    transform: Transform,
    runout: bool,
}

impl Book {
    /// While the book has something to say, the records to choose from lie
    /// within the data.
    #[verifier::type_invariant]
    spec fn in_data(self) -> bool {
        !self.runout ==> self.first <= self.last && self.block + 24 * (self.last + 1)
            <= self.book.len()
    }

    /// Where the book stands.
    pub closed spec fn view(&self) -> BookState {
        BookState {
            data: self.book@,
            block: self.block as int,
            first: self.first as int,
            last: self.last as int,
            opening: self.opening,
            table: self.transform@,
            runout: self.runout,
        }
    }

    /// Whether the book has nothing more to say.
    pub fn is_runout(&self) -> (r: bool)
        ensures
            r == self@.runout,
    {
        self.runout
    }

    /// A book of the given bytes at the start of a game. Bytes that hold no
    /// first block make a book that has nothing to say.
    pub fn new(data: Vec<u8>) -> (b: Book)
        ensures
            b@ == start(data@, Seq::new(256, |v: int| 0u8)),
    {
        let transform = Transform::new();
        let (block, first, last, runout) = Self::init_cursor(&data);
        Book { book: data, block, first, last, opening: true, transform, runout }
    }

    /// Back to the start of a game.
    pub fn reset(&mut self)
        ensures
            final(self)@ == start(old(self)@.data, old(self)@.table),
    {
        proof {
            use_type_invariant(&*self);
        }
        let (block, first, last, runout) = Self::init_cursor(&self.book);
        self.runout = true;
        self.block = block;
        self.first = first;
        self.last = last;
        self.opening = true;
        self.runout = runout;
    }

    /// The first block: where its records begin, the first and the last
    /// index to choose from, and whether there is none.
    fn init_cursor(book: &Vec<u8>) -> (r: (u64, u64, u64, bool))
        ensures
            match block_at(book@, 0) {
                Some(b) => r == (b.0 as u64, 0u64, b.1 as u64, false) && b.0 + 24 * (b.1 + 1)
                    <= book@.len(),
                None => r == (0u64, 0u64, 0u64, true),
            },
    {
        match enter(book, 0) {
            Some((block, last)) => (block, 0, last, false),
            None => (0, 0, 0, true),
        }
    }

    /// The record that the side `color` likes best among those looked at,
    /// given by their indices; of records that it likes the same, the one
    /// looked at last.
    pub fn pick(&self, color: Turn, samples: &Vec<u64>) -> (r: u64)
        requires
            !self@.runout,
            samples.len() >= 1,
            forall|j: int|
                0 <= j < samples.len() ==> self@.first <= #[trigger] samples[j] <= self@.last,
        ensures
            r == favourite(self@.data, self@.block, color, samples@, samples.len() as int),
            self@.first <= r <= self@.last,
    {
        proof {
            use_type_invariant(self);
        }
        let len = self.book.len();
        let mut idx: u64 = samples[0];
        let mut mx: i64 = order_key(read_u64_at(&self.book, (self.block + idx * 24 + 8) as usize));
        let mut n: usize = 1;
        while n < samples.len()
            invariant
                1 <= n <= samples.len(),
                !self.runout,
                self.first <= self.last,
                self.block + 24 * (self.last + 1) <= self.book.len() <= usize::MAX,
                forall|j: int|
                    0 <= j < samples.len() ==> self.first <= #[trigger] samples[j] <= self.last,
                idx == favourite(self.book@, self.block as int, color, samples@, n as int),
                self.first <= idx <= self.last,
                mx == score_at(self.book@, self.block as int, idx as int),
            decreases samples.len() - n,
        {
            let i = samples[n];
            let v = order_key(read_u64_at(&self.book, (self.block + i * 24 + 8) as usize));
            let take = if color == Turn::Black {
                mx <= v
            } else {
                mx >= v
            };
            if take {
                idx = i;
                mx = v;
            }
            n += 1;
        }
        idx
    }

    /// The book's reply by the record `next`; see [`reply_with`].
    pub fn reply_from(&mut self, next: u64) -> (r: Option<(Move, bool)>)
        requires
            !old(self)@.runout,
            old(self)@.first <= next <= old(self)@.last,
        ensures
            r == reply_with(old(self)@, next as int).0,
            final(self)@ == reply_with(old(self)@, next as int).1,
    {
        proof {
            use_type_invariant(&*self);
        }
        let len = self.book.len();
        let ret = self.book[(self.block + next * 24 + 7) as usize];
        if ret == END_BYTE {
            self.runout = true;
            return None;
        }
        let ret = self.transform.inv(ret);
        let mv2 = if ret == PASS_BYTE {
            Move::Pass
        } else {
            Move::Put { x: (ret / 16) % 8, y: ret % 8 }
        };
        let rb = self.go(mv2);
        Some((mv2, rb))
    }

    /// The book's move after `last_move`, or its first move of the game
    /// where there is none, with the word whether the book goes on after
    /// it. Nothing where the book has nothing more to say, before the call
    /// or after `last_move`, or where the record chosen ends the line. The
    /// first move of a game is always the same. After another move the
    /// book looks at records of the block by chance, more of them the
    /// larger the block and at most fifty, and replies by the one that
    /// `color` likes best; a single record is taken as it is.
    pub fn gen(&mut self, color: Turn, last_move: Option<Move>) -> (r: Option<(Move, bool)>)
        requires
            last_move matches Some(mv) ==> mv.on_board(),
        ensures
            gen_yields(old(self)@, last_move, r, final(self)@),
            r matches Some(m) ==> m.0.on_board(),
    {
        if self.runout {
            return None;
        }
        match last_move {
            None => {
                let mv = Move::Put { x: 2, y: 3 };
                let nx = self.go(mv);
                Some((mv, nx))
            },
            Some(mv) => {
                if !self.go(mv) {
                    return None;
                }
                proof {
                    use_type_invariant(&*self);
                }
                let first = self.first;
                let last = self.last;
                let next = if first == last {
                    first
                } else {
                    let len = self.book.len();
                    let wide = 4 * (last - first);
                    let num = if wide < 50 {
                        wide
                    } else {
                        50
                    };
                    let mut rng = weak_rng();
                    let mut samples: Vec<u64> = Vec::new();
                    let mut n: u64 = 0;
                    while n < num
                        invariant
                            first < last < u64::MAX,
                            samples.len() == n,
                            n <= num <= 50,
                            forall|j: int|
                                0 <= j < samples.len() ==> first <= #[trigger] samples[j] <= last,
                        decreases num - n,
                    {
                        let i = sample_u64(&mut rng, first, last + 1);
                        samples.push(i);
                        n += 1;
                    }
                    self.pick(color, &samples)
                };
                let ghost s1 = self@;
                let r = self.reply_from(next);
                assert(r == reply_with(s1, next as int).0);
                r
            },
        }
    }

    /// Takes note of a move that has been played: the book as it is
    /// [`after`] the move. Says whether the book goes on.
    pub fn go(&mut self, last_move: Move) -> (r: bool)
        requires
            last_move.on_board(),
        ensures
            final(self)@ == after(old(self)@, last_move),
            r == !final(self)@.runout,
    {
        proof {
            use_type_invariant(&*self);
        }
        if self.runout {
            return false;
        }
        match last_move {
            Move::Pass => {
                self.runout = true;
                false
            },
            Move::Put { x, y } => {
                let block = self.block;
                let first = self.first;
                let last = self.last;
                if self.opening {
                    self.transform.init(x, y);
                    self.opening = false;
                }
                let len = self.book.len();
                let v = self.transform.get(x * 16 + y);
                let pli = binary_search(&self.book, block, first, last, v);
                match pli {
                    None => {
                        self.runout = true;
                        false
                    },
                    Some((idx, _)) => {
                        let nblock = read_u64_at(&self.book, (block + 24 * idx + 16) as usize);
                        if nblock == 0 {
                            self.runout = true;
                            return false;
                        }
                        match enter(&self.book, nblock) {
                            None => {
                                self.runout = true;
                                false
                            },
                            Some((b, l)) => {
                                self.runout = true;
                                self.block = b;
                                self.first = 0;
                                self.last = l;
                                self.runout = false;
                                true
                            },
                        }
                    },
                }
            },
        }
    }
}

} // verus!
