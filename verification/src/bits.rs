//! Bit-level facts about 64-bit masks, stated once so that the rest of the
//! crate can reason about masks cell by cell.

use vstd::prelude::*;

verus! {

/// Whether bit `i` of the mask `m` is set. No bit is set outside `0..64`.
#[verifier::opaque]
pub open spec fn bit(m: u64, i: int) -> bool {
    0 <= i < 64 && (m >> (i as u64)) & 1 == 1
}

/// The number of set bits among the lowest `n` bits of `m`.
pub open spec fn count_bits(m: u64, n: nat) -> nat
    decreases n,
{
    if n == 0 {
        0
    } else {
        count_bits(m, (n - 1) as nat) + if bit(m, n - 1) {
            1nat
        } else {
            0nat
        }
    }
}

/// The number of set bits of `m`.
pub open spec fn popcount(m: u64) -> nat {
    count_bits(m, 64)
}

/// `u64::count_ones`, which std documents as the number of ones in the binary
/// representation of its argument.
pub assume_specification[ u64::count_ones ](m: u64) -> (r: u32)
    ensures
        r == popcount(m),
;

/// The operations on masks, read at one bit.
proof fn bv_bit_ops(a: u64, b: u64, i: u64)
    by (bit_vector)
    requires
        i < 64,
    ensures
        ((a | b) >> i) & 1 == 1 <==> ((a >> i) & 1 == 1 || (b >> i) & 1 == 1),
        ((a & b) >> i) & 1 == 1 <==> ((a >> i) & 1 == 1 && (b >> i) & 1 == 1),
        ((a ^ b) >> i) & 1 == 1 <==> (((a >> i) & 1 == 1) != ((b >> i) & 1 == 1)),
        ((!a) >> i) & 1 == 1 <==> !((a >> i) & 1 == 1),
        (a & (1u64 << i)) != 0 <==> (a >> i) & 1 == 1,
        ((1u64 << i) & a) != 0 <==> (a >> i) & 1 == 1,
        (0u64 >> i) & 1 == 0,
{
}

/// The bits of a mask of one bit.
proof fn bv_bit_single(i: u64, j: u64)
    by (bit_vector)
    requires
        i < 64,
        j < 64,
    ensures
        ((1u64 << j) >> i) & 1 == 1 <==> i == j,
        (1u64 << j) != 0,
{
}

/// The bits of a shifted mask.
proof fn bv_bit_shift(a: u64, s: u64, i: u64)
    by (bit_vector)
    requires
        i < 64,
        s < 64,
    ensures
        ((a >> s) >> i) & 1 == 1 <==> (i + s < 64 && (a >> ((i + s) as u64)) & 1 == 1),
        ((a << s) >> i) & 1 == 1 <==> (i >= s && (a >> ((i - s) as u64)) & 1 == 1),
{
}

/// What the empty mask does in a union and in an intersection.
proof fn bv_zero(a: u64, b: u64)
    by (bit_vector)
    ensures
        (a | b) == 0 <==> (a == 0 && b == 0),
        0u64 & a == 0,
        a & 0u64 == 0,
        a | 0u64 == a,
        0u64 | a == a,
{
}

/// A union has the bits of both masks.
pub broadcast proof fn lemma_bit_or(a: u64, b: u64, i: int)
    ensures
        #[trigger] bit(a | b, i) == (bit(a, i) || bit(b, i)),
{
    reveal(bit);
    if 0 <= i < 64 {
        bv_bit_ops(a, b, i as u64);
    }
}

/// An intersection has the bits that both masks have.
pub broadcast proof fn lemma_bit_and(a: u64, b: u64, i: int)
    ensures
        #[trigger] bit(a & b, i) == (bit(a, i) && bit(b, i)),
{
    reveal(bit);
    if 0 <= i < 64 {
        bv_bit_ops(a, b, i as u64);
    }
}

/// An exclusive union has the bits that one mask has and the other has
/// not.
pub broadcast proof fn lemma_bit_xor(a: u64, b: u64, i: int)
    ensures
        #[trigger] bit(a ^ b, i) == (0 <= i < 64 && bit(a, i) != bit(b, i)),
{
    reveal(bit);
    if 0 <= i < 64 {
        bv_bit_ops(a, b, i as u64);
    }
}

/// A complement has the bits that the mask has not.
pub broadcast proof fn lemma_bit_not(a: u64, i: int)
    ensures
        #[trigger] bit(!a, i) == (0 <= i < 64 && !bit(a, i)),
{
    reveal(bit);
    if 0 <= i < 64 {
        bv_bit_ops(a, a, i as u64);
    }
}

/// Only the indices `0..64` have a bit.
pub broadcast proof fn lemma_bit_range(m: u64, i: int)
    ensures
        #[trigger] bit(m, i) ==> 0 <= i < 64,
{
    reveal(bit);
}

/// The empty mask has no bit.
pub broadcast proof fn lemma_bit_zero(i: int)
    ensures
        !#[trigger] bit(0u64, i),
{
    reveal(bit);
    if 0 <= i < 64 {
        bv_bit_ops(0, 0, i as u64);
    }
}

/// The mask `1 << j` has bit `j` and no other.
pub broadcast proof fn lemma_bit_single(j: u64, i: int)
    requires
        j < 64,
    ensures
        #[trigger] bit(1u64 << j, i) == (i == j),
        (1u64 << j) != 0,
{
    reveal(bit);
    if 0 <= i < 64 {
        bv_bit_single(i as u64, j);
    } else {
        bv_bit_single(0, j);
    }
}

/// Testing a mask against `1 << j` reads bit `j`.
pub proof fn lemma_bit_test(a: u64, j: u64)
    requires
        j < 64,
    ensures
        ((a & (1u64 << j)) != 0) == bit(a, j as int),
        (((1u64 << j) & a) != 0) == bit(a, j as int),
{
    reveal(bit);
    bv_bit_ops(a, a, j);
}

/// Shifting right by `s` moves bit `i + s` to bit `i`.
pub broadcast proof fn lemma_bit_shr(a: u64, s: u64, i: int)
    requires
        s < 64,
    ensures
        #[trigger] bit(a >> s, i) == (0 <= i && bit(a, i + s)),
{
    reveal(bit);
    if 0 <= i < 64 {
        bv_bit_shift(a, s, i as u64);
    }
}

/// Shifting left by `s` moves bit `i - s` to bit `i`.
pub broadcast proof fn lemma_bit_shl(a: u64, s: u64, i: int)
    requires
        s < 64,
    ensures
        #[trigger] bit(a << s, i) == (i < 64 && bit(a, i - s)),
{
    reveal(bit);
    if 0 <= i < 64 {
        bv_bit_shift(a, s, i as u64);
    }
}

/// A union is empty exactly when both parts are, and the empty mask adds
/// and shares nothing.
pub proof fn lemma_or_zero(a: u64, b: u64)
    ensures
        ((a | b) == 0) == (a == 0 && b == 0),
        0u64 & a == 0,
        a & 0u64 == 0,
        a | 0u64 == a,
        0u64 | a == a,
{
    bv_zero(a, b);
}

/// What the operations on masks do bit by bit.
pub broadcast group group_bits {
    lemma_bit_range,
    lemma_bit_or,
    lemma_bit_and,
    lemma_bit_xor,
    lemma_bit_not,
    lemma_bit_zero,
    lemma_bit_single,
    lemma_bit_shr,
    lemma_bit_shl,
}

/// The bits of the masks that leave out edges of the board.
proof fn bv_edge_masks(i: u64)
    by (bit_vector)
    requires
        i < 64,
    ensures
        (0x7e7e7e7e7e7e7e7eu64 >> i) & 1 == 1 <==> (i % 8 != 0 && i % 8 != 7),
        (0x00ffffffffffff00u64 >> i) & 1 == 1 <==> (i / 8 != 0 && i / 8 != 7),
        (0x007e7e7e7e7e7e00u64 >> i) & 1 == 1 <==> (i % 8 != 0 && i % 8 != 7 && i / 8 != 0 && i / 8
            != 7),
{
}

/// Where the single bit `c` goes by a shift of one cell in each of the eight
/// directions, with the mask that drops what would cross an edge.
#[verifier::rlimit(40)]
pub proof fn bv_single_steps(c: u64)
    by (bit_vector)
    requires
        c < 64,
    ensures
        ((1u64 << c) >> 1) & 0x7f7f7f7f7f7f7f7fu64 == (if c % 8 != 0 {
            1u64 << ((c - 1) as u64)
        } else {
            0u64
        }),
        ((1u64 << c) >> 8) & 0x00ffffffffffffffu64 == (if c / 8 != 0 {
            1u64 << ((c - 8) as u64)
        } else {
            0u64
        }),
        ((1u64 << c) << 1) & 0xfefefefefefefefeu64 == (if c % 8 != 7 {
            1u64 << ((c + 1) as u64)
        } else {
            0u64
        }),
        ((1u64 << c) << 8) & 0xffffffffffffff00u64 == (if c / 8 != 7 {
            1u64 << ((c + 8) as u64)
        } else {
            0u64
        }),
        ((1u64 << c) >> 9) & 0x007f7f7f7f7f7f7fu64 == (if c % 8 != 0 && c / 8 != 0 {
            1u64 << ((c - 9) as u64)
        } else {
            0u64
        }),
        ((1u64 << c) >> 7) & 0x00fefefefefefefeu64 == (if c % 8 != 7 && c / 8 != 0 {
            1u64 << ((c - 7) as u64)
        } else {
            0u64
        }),
        ((1u64 << c) << 7) & 0x7f7f7f7f7f7f7f00u64 == (if c % 8 != 0 && c / 8 != 7 {
            1u64 << ((c + 7) as u64)
        } else {
            0u64
        }),
        ((1u64 << c) << 9) & 0xfefefefefefefe00u64 == (if c % 8 != 7 && c / 8 != 7 {
            1u64 << ((c + 9) as u64)
        } else {
            0u64
        }),
{
}

/// A mask that is not empty has a bit.
#[verifier::rlimit(40)]
proof fn bv_some_bit(a: u64)
    by (bit_vector)
    requires
        a != 0,
    ensures
        (a >> 0u64) & 1 == 1 || (a >> 1u64) & 1 == 1 || (a >> 2u64) & 1 == 1
            || (a >> 3u64) & 1 == 1 || (a >> 4u64) & 1 == 1 || (a >> 5u64) & 1 == 1
            || (a >> 6u64) & 1 == 1 || (a >> 7u64) & 1 == 1 || (a >> 8u64) & 1 == 1
            || (a >> 9u64) & 1 == 1 || (a >> 10u64) & 1 == 1 || (a >> 11u64) & 1 == 1
            || (a >> 12u64) & 1 == 1 || (a >> 13u64) & 1 == 1 || (a >> 14u64) & 1 == 1
            || (a >> 15u64) & 1 == 1 || (a >> 16u64) & 1 == 1 || (a >> 17u64) & 1 == 1
            || (a >> 18u64) & 1 == 1 || (a >> 19u64) & 1 == 1 || (a >> 20u64) & 1 == 1
            || (a >> 21u64) & 1 == 1 || (a >> 22u64) & 1 == 1 || (a >> 23u64) & 1 == 1
            || (a >> 24u64) & 1 == 1 || (a >> 25u64) & 1 == 1 || (a >> 26u64) & 1 == 1
            || (a >> 27u64) & 1 == 1 || (a >> 28u64) & 1 == 1 || (a >> 29u64) & 1 == 1
            || (a >> 30u64) & 1 == 1 || (a >> 31u64) & 1 == 1 || (a >> 32u64) & 1 == 1
            || (a >> 33u64) & 1 == 1 || (a >> 34u64) & 1 == 1 || (a >> 35u64) & 1 == 1
            || (a >> 36u64) & 1 == 1 || (a >> 37u64) & 1 == 1 || (a >> 38u64) & 1 == 1
            || (a >> 39u64) & 1 == 1 || (a >> 40u64) & 1 == 1 || (a >> 41u64) & 1 == 1
            || (a >> 42u64) & 1 == 1 || (a >> 43u64) & 1 == 1 || (a >> 44u64) & 1 == 1
            || (a >> 45u64) & 1 == 1 || (a >> 46u64) & 1 == 1 || (a >> 47u64) & 1 == 1
            || (a >> 48u64) & 1 == 1 || (a >> 49u64) & 1 == 1 || (a >> 50u64) & 1 == 1
            || (a >> 51u64) & 1 == 1 || (a >> 52u64) & 1 == 1 || (a >> 53u64) & 1 == 1
            || (a >> 54u64) & 1 == 1 || (a >> 55u64) & 1 == 1 || (a >> 56u64) & 1 == 1
            || (a >> 57u64) & 1 == 1 || (a >> 58u64) & 1 == 1 || (a >> 59u64) & 1 == 1
            || (a >> 60u64) & 1 == 1 || (a >> 61u64) & 1 == 1 || (a >> 62u64) & 1 == 1
            || (a >> 63u64) & 1 == 1,
{
}

/// A mask without any bit is the empty mask.
pub proof fn lemma_no_bit_zero(a: u64)
    requires
        forall|i: int| 0 <= i < 64 ==> !bit(a, i),
    ensures
        a == 0,
{
    reveal(bit);
    if a != 0 {
        bv_some_bit(a);
        assert(
            bit(a, 0) || bit(a, 1) || bit(a, 2) || bit(a, 3)
            || bit(a, 4) || bit(a, 5) || bit(a, 6) || bit(a, 7)
            || bit(a, 8) || bit(a, 9) || bit(a, 10) || bit(a, 11)
            || bit(a, 12) || bit(a, 13) || bit(a, 14) || bit(a, 15)
            || bit(a, 16) || bit(a, 17) || bit(a, 18) || bit(a, 19)
            || bit(a, 20) || bit(a, 21) || bit(a, 22) || bit(a, 23)
            || bit(a, 24) || bit(a, 25) || bit(a, 26) || bit(a, 27)
            || bit(a, 28) || bit(a, 29) || bit(a, 30) || bit(a, 31)
            || bit(a, 32) || bit(a, 33) || bit(a, 34) || bit(a, 35)
            || bit(a, 36) || bit(a, 37) || bit(a, 38) || bit(a, 39)
            || bit(a, 40) || bit(a, 41) || bit(a, 42) || bit(a, 43)
            || bit(a, 44) || bit(a, 45) || bit(a, 46) || bit(a, 47)
            || bit(a, 48) || bit(a, 49) || bit(a, 50) || bit(a, 51)
            || bit(a, 52) || bit(a, 53) || bit(a, 54) || bit(a, 55)
            || bit(a, 56) || bit(a, 57) || bit(a, 58) || bit(a, 59)
            || bit(a, 60) || bit(a, 61) || bit(a, 62) || bit(a, 63)
        );
    }
}

/// Two masks with the same bits are the same mask.
pub proof fn lemma_same_bits(a: u64, b: u64)
    requires
        forall|i: int| 0 <= i < 64 ==> bit(a, i) == bit(b, i),
    ensures
        a == b,
{
    assert forall|i: int| 0 <= i < 64 implies !bit(a ^ b, i) by {
        lemma_bit_xor(a, b, i);
    }
    lemma_no_bit_zero(a ^ b);
    bv_xor_zero(a, b);
}

/// Masks whose exclusive union is empty are the same.
proof fn bv_xor_zero(a: u64, b: u64)
    by (bit_vector)
    requires
        a ^ b == 0,
    ensures
        a == b,
{
}

/// The bits of the masks that leave out the edges of the board: the first
/// and the last column, the first and the last row, and all four.
pub proof fn lemma_inner_masks(i: int)
    requires
        0 <= i < 64,
    ensures
        bit(0x7e7e7e7e7e7e7e7eu64, i) == (i % 8 != 0 && i % 8 != 7),
        bit(0x00ffffffffffff00u64, i) == (i / 8 != 0 && i / 8 != 7),
        bit(0x007e7e7e7e7e7e00u64, i) == (i % 8 != 0 && i % 8 != 7 && i / 8 != 0 && i / 8 != 7),
{
    reveal(bit);
    bv_edge_masks(i as u64);
}

} // verus!
