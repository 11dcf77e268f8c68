//! Bit-level model of 64-bit blocks, and the facts about it that the
//! weights code relies on.
use vstd::prelude::*;
use vstd::arithmetic::div_mod::lemma_fundamental_div_mod_converse;

verus! {

/// Whether bit `i` (counted from the least significant end) of `x` is set.
pub open spec fn bit_of(x: u64, i: u64) -> bool {
    (x >> i) & 1u64 == 1u64
}

/// The bits held by a sequence of 64-bit blocks: block 0 first, and within
/// each block the least significant bit first.
pub open spec fn bits_of(blocks: Seq<u64>) -> Seq<bool> {
    Seq::new(64 * blocks.len(), |p: int| bit_of(blocks[p / 64], (p % 64) as u64))
}

/// The number of set bits of `x` at positions below `k`.
pub open spec fn ones_below(x: u64, k: nat) -> nat
    decreases k,
{
    if k == 0 {
        0
    } else {
        ones_below(x, (k - 1) as nat) + if bit_of(x, (k - 1) as u64) {
            1nat
        } else {
            0nat
        }
    }
}

/// The number of `true` entries among the first `k` entries of `s`.
pub open spec fn count_true(s: Seq<bool>, k: int) -> nat
    decreases k,
{
    if k <= 0 {
        0
    } else {
        count_true(s, k - 1) + if s[k - 1] {
            1nat
        } else {
            0nat
        }
    }
}

/// The total number of set bits in the first `b` blocks.
pub open spec fn blocks_ones(blocks: Seq<u64>, b: int) -> nat
    decreases b,
{
    if b <= 0 {
        0
    } else {
        blocks_ones(blocks, b - 1) + ones_below(blocks[b - 1], 64)
    }
}

/// `u64::count_ones`: the number of ones in the binary representation of `x`.
#[verifier::external_body]
pub(crate) fn block_count_ones(x: u64) -> (r: u32)
    ensures
        r as nat == ones_below(x, 64),
{
    x.count_ones()
}

pub proof fn lemma_bit_or(x: u64, m: u64, i: u64)
    by (bit_vector)
    requires
        i < 64,
    ensures
        bit_of(x | m, i) == (bit_of(x, i) || bit_of(m, i)),
{
}

pub proof fn lemma_bit_and(x: u64, m: u64, i: u64)
    by (bit_vector)
    requires
        i < 64,
    ensures
        bit_of(x & m, i) == (bit_of(x, i) && bit_of(m, i)),
{
}

pub proof fn lemma_bit_not(x: u64, i: u64)
    by (bit_vector)
    requires
        i < 64,
    ensures
        bit_of(!x, i) == !bit_of(x, i),
{
}

pub proof fn lemma_bit_all_ones(i: u64)
    by (bit_vector)
    requires
        i < 64,
    ensures
        bit_of(0xffff_ffff_ffff_ffffu64, i),
        !bit_of(0u64, i),
{
}

/// The mask `u64::MAX << lo` holds exactly the bits at positions `lo` and above.
pub proof fn lemma_bit_high_mask(lo: u64, i: u64)
    by (bit_vector)
    requires
        lo < 64,
        i < 64,
    ensures
        bit_of(0xffff_ffff_ffff_ffffu64 << lo, i) == (i >= lo),
{
}

/// The mask `1 << n` holds exactly the bit at position `n`.
pub proof fn lemma_bit_single(n: u64, i: u64)
    by (bit_vector)
    requires
        n < 64,
        i < 64,
    ensures
        bit_of(1u64 << n, i) == (i == n),
{
}

/// A bit read through `!= 0` is the same bit.
pub proof fn lemma_bit_nonzero(x: u64, i: u64)
    by (bit_vector)
    requires
        i < 64,
        (x >> i) & 1u64 != 0u64,
    ensures
        bit_of(x, i),
{
}

/// A block is zero exactly when none of its bits is set.
pub proof fn lemma_zero_block(x: u64)
    ensures
        x == 0 <==> forall|i: u64| i < 64 ==> !#[trigger] bit_of(x, i),
{
    if x != 0 {
        lemma_nonzero_has_bit(x);
    } else {
        assert forall|i: u64| i < 64 implies !#[trigger] bit_of(x, i) by {
            lemma_bit_all_ones(i);
        }
    }
}

proof fn lemma_nonzero_has_bit(x: u64)
    requires
        x != 0,
    ensures
        exists|i: u64| i < 64 && bit_of(x, i),
    decreases x,
{
    if x & 1u64 == 1u64 {
        assert(bit_of(x, 0u64)) by (bit_vector)
            requires
                x & 1u64 == 1u64,
        ;
    } else {
        let y = x >> 1u64;
        assert(y != 0 && y < x) by (bit_vector)
            requires
                x != 0,
                x & 1u64 != 1u64,
                y == x >> 1u64,
        ;
        lemma_nonzero_has_bit(y);
        let j = choose|j: u64| j < 64 && bit_of(y, j);
        assert(j < 63 && bit_of(x, (j + 1) as u64)) by (bit_vector)
            requires
                j < 64,
                y == x >> 1u64,
                (y >> j) & 1u64 == 1u64,
        ;
    }
}

/// Position `p` of the bit sequence is bit `p % 64` of block `p / 64`.
pub proof fn lemma_bits_index(blocks: Seq<u64>, b: int, i: int)
    requires
        0 <= b < blocks.len(),
        0 <= i < 64,
    ensures
        (64 * b + i) / 64 == b,
        (64 * b + i) % 64 == i,
        0 <= 64 * b + i < bits_of(blocks).len(),
        bits_of(blocks)[64 * b + i] == bit_of(blocks[b], i as u64),
{
    lemma_fundamental_div_mod_converse(64 * b + i, 64, b, i);
}

/// Counting the bits of block `b` one position at a time.
pub proof fn lemma_count_in_block(blocks: Seq<u64>, b: int, k: int)
    requires
        0 <= b < blocks.len(),
        0 <= k <= 64,
    ensures
        count_true(bits_of(blocks), 64 * b + k) == count_true(bits_of(blocks), 64 * b)
            + ones_below(blocks[b], k as nat),
    decreases k,
{
    if k > 0 {
        lemma_count_in_block(blocks, b, k - 1);
        lemma_bits_index(blocks, b, k - 1);
    }
}

/// The set bits of the first `b` blocks, counted position by position.
pub proof fn lemma_count_blocks(blocks: Seq<u64>, b: int)
    requires
        0 <= b <= blocks.len(),
    ensures
        count_true(bits_of(blocks), 64 * b) == blocks_ones(blocks, b),
    decreases b,
{
    if b > 0 {
        lemma_count_blocks(blocks, b - 1);
        lemma_count_in_block(blocks, b - 1, 64);
    }
}

/// Masking away the bits below `r` removes exactly the set bits below `r`.
pub proof fn lemma_ones_high_mask(x: u64, r: u64, k: nat)
    requires
        r < 64,
        k <= 64,
    ensures
        ones_below(x & (0xffff_ffff_ffff_ffffu64 << r), k) + ones_below(x, if k < r {
            k
        } else {
            r as nat
        }) == ones_below(x, k),
    decreases k,
{
    if k > 0 {
        lemma_ones_high_mask(x, r, (k - 1) as nat);
        let i = (k - 1) as u64;
        lemma_bit_and(x, 0xffff_ffff_ffff_ffffu64 << r, i);
        lemma_bit_high_mask(r, i);
    }
}

/// The set bits of the first `j` blocks are no more than those of the first `k`, for `j <= k`.
pub proof fn lemma_blocks_ones_monotone(blocks: Seq<u64>, j: int, k: int)
    requires
        0 <= j <= k,
    ensures
        blocks_ones(blocks, j) <= blocks_ones(blocks, k),
    decreases k - j,
{
    if j < k {
        lemma_blocks_ones_monotone(blocks, j, k - 1);
    }
}

} // verus!
