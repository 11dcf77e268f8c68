//! Binary weights stored as a string of bits in 64-bit blocks.
//!
//! This is used as an efficient way to represent a filter: in the histogram
//! code a weight of 1 for a frame means that the frame is kept, and a weight
//! of 0 means that it is dropped.
//!
//! Each block is little-endian: the weight for position `64 * b + i` is bit
//! `i` (counted from the least significant end) of block `b`.
use vstd::prelude::*;
use vstd::arithmetic::div_mod::lemma_fundamental_div_mod;

use crate::bits::{bit_of, bits_of, blocks_ones, count_true, ones_below, block_count_ones, lemma_bit_all_ones, lemma_bit_and, lemma_bit_not, lemma_bit_or, lemma_bit_high_mask, lemma_bit_single, lemma_bits_index, lemma_count_blocks, lemma_count_in_block, lemma_ones_high_mask, lemma_blocks_ones_monotone, lemma_zero_block, lemma_bit_nonzero};

verus! {

/// The number of weights held by one block.
pub const BLOCK_SIZE: usize = 64;

/// The number of blocks used for `len` weights: enough to hold them all, and
/// never fewer than one.
pub open spec fn blocks_for(len: nat) -> nat {
    let full = if len % 64 == 0 {
        len / 64
    } else {
        len / 64 + 1
    };
    if full == 0 {
        1
    } else {
        full
    }
}

/// The blocks of two arrays combined pairwise by bitwise AND, as far as the
/// shorter list reaches.
pub open spec fn and_blocks(x: Seq<u64>, y: Seq<u64>) -> Seq<u64> {
    Seq::new(
        if x.len() <= y.len() {
            x.len()
        } else {
            y.len()
        },
        |b: int| x[b] & y[b],
    )
}

/// An array of binary weights, stored as bits in 64-bit blocks.
#[derive(Clone, Debug)]
pub struct Weights {
    raw_weights: Vec<u64>,
    len: usize,
}

impl View for Weights {
    type V = Seq<bool>;

    /// Every bit held by the blocks, including any bits past the nominal length.
    open spec fn view(&self) -> Seq<bool> {
        bits_of(self.blocks())
    }
}

impl Weights {
    /// The raw blocks.
    pub closed spec fn blocks(&self) -> Seq<u64> {
        self.raw_weights@
    }

    /// The nominal number of weights.
    pub closed spec fn size(&self) -> nat {
        self.len as nat
    }

    /// The positions that hold weights: those below the nominal length, as
    /// far as the blocks reach.
    pub open spec fn counted_len(&self) -> int {
        if self.size() <= 64 * self.blocks().len() {
            self.size() as int
        } else {
            (64 * self.blocks().len()) as int
        }
    }

    /// Create an array of all-one weights.
    pub fn ones(len: usize) -> (w: Weights)
        ensures
            w.blocks().len() == blocks_for(len as nat),
            w.size() == len,
            forall|b: int| 0 <= b < w.blocks().len() ==> w.blocks()[b] == u64::MAX,
            forall|p: int| 0 <= p < w@.len() ==> w@[p],
    {
        let array_size: usize = if len % BLOCK_SIZE == 0 {
            len / BLOCK_SIZE
        } else {
            len / BLOCK_SIZE + 1
        };
        let n: usize = if array_size > 1 {
            array_size
        } else {
            1
        };
        let raw_weights: Vec<u64> = vec![u64::MAX; n];
        let w = Weights { raw_weights, len };
        proof {
            assert forall|b: int| 0 <= b < w.blocks().len() implies w.blocks()[b] == u64::MAX by {
                assert(cloned(u64::MAX, w.raw_weights@[b]));
            }
            assert forall|p: int| 0 <= p < w@.len() implies w@[p] by {
                lemma_bit_all_ones((p % 64) as u64);
            }
        }
        w
    }

    /// Create an array of all-zero weights.
    pub fn zeros(len: usize) -> (w: Weights)
        ensures
            w.blocks().len() == blocks_for(len as nat),
            w.size() == len,
            forall|b: int| 0 <= b < w.blocks().len() ==> w.blocks()[b] == 0,
            forall|p: int| 0 <= p < w@.len() ==> !w@[p],
    {
        let array_size: usize = if len % BLOCK_SIZE == 0 {
            len / BLOCK_SIZE
        } else {
            len / BLOCK_SIZE + 1
        };
        let n: usize = if array_size > 1 {
            array_size
        } else {
            1
        };
        let raw_weights: Vec<u64> = vec![0u64; n];
        let w = Weights { raw_weights, len };
        proof {
            assert forall|b: int| 0 <= b < w.blocks().len() implies w.blocks()[b] == 0 by {
                assert(cloned(0u64, w.raw_weights@[b]));
            }
            assert forall|p: int| 0 <= p < w@.len() implies !w@[p] by {
                lemma_bit_all_ones((p % 64) as u64);
            }
        }
        w
    }
    /// Set the weights at positions `start` (inclusive) to `end` (exclusive)
    /// to `set_to`, leaving every other position as it was.
    pub fn set_range(&mut self, start: usize, end: usize, set_to: bool)
        requires
            start / 64 == end / 64 ==> start / 64 < old(self).blocks().len(),
            start / 64 != end / 64 ==> start <= end && end <= 64 * old(self).blocks().len(),
        ensures
            final(self).blocks().len() == old(self).blocks().len(),
            final(self).size() == old(self).size(),
            forall|p: int|
                0 <= p < final(self)@.len() ==> #[trigger] final(self)@[p] == if start <= p < end {
                    set_to
                } else {
                    old(self)@[p]
                },
    {
        let ghost old_blocks = self.raw_weights@;
        let n: usize = self.raw_weights.len();
        // the range may contain partial and full blocks:
        //
        // |  x--|-----|-----|---x |
        //
        // the partial blocks at either end are set through a bit mask, and
        // the full blocks in between are set whole.
        let lower_bit_offset: usize = start % BLOCK_SIZE;
        let upper_bit_offset: usize = end % BLOCK_SIZE;
        proof {
            lemma_fundamental_div_mod(start as int, 64);
            lemma_fundamental_div_mod(end as int, 64);
        }

        // if all weights are within one block, set them through one mask
        if start / BLOCK_SIZE == end / BLOCK_SIZE {
            let block: usize = start / BLOCK_SIZE;
            // mask with 1s in bits [lo, hi)
            let mask: u64 = (u64::MAX << (lower_bit_offset as u64)) & !(u64::MAX << (
            upper_bit_offset as u64));
            let old_block: u64 = self.raw_weights[block];
            let new_block: u64 = if set_to {
                old_block | mask
            } else {
                old_block & !mask
            };
            self.raw_weights.set(block, new_block);
            proof {
                assert forall|p: int| 0 <= p < self@.len() implies #[trigger] self@[p] == if start
                    <= p < end {
                    set_to
                } else {
                    bits_of(old_blocks)[p]
                } by {
                    lemma_fundamental_div_mod(p, 64);
                    let j = p / 64;
                    let i = (p % 64) as u64;
                    if j == block {
                        lemma_bit_and(
                            u64::MAX << (lower_bit_offset as u64),
                            !(u64::MAX << (upper_bit_offset as u64)),
                            i,
                        );
                        lemma_bit_high_mask(lower_bit_offset as u64, i);
                        lemma_bit_not(u64::MAX << (upper_bit_offset as u64), i);
                        lemma_bit_high_mask(upper_bit_offset as u64, i);
                        lemma_bit_or(old_block, mask, i);
                        lemma_bit_and(old_block, !mask, i);
                        lemma_bit_not(mask, i);
                    }
                }
            }
            return;
        }
        // round start up to the nearest block
        let first_block: usize = if lower_bit_offset == 0 {
            start
        } else {
            start + (BLOCK_SIZE - lower_bit_offset)
        };
        // round end down to the nearest block
        let last_block: usize = if upper_bit_offset == 0 {
            end
        } else {
            end - upper_bit_offset
        };

        // set bits individually where the range does not cover a full block
        if lower_bit_offset != 0 {
            // mask with 1s from the lower bit offset to the top of the block
            let first_block_mask: u64 = u64::MAX << (lower_bit_offset as u64);
            let b: u64 = self.raw_weights[start / BLOCK_SIZE];
            let nb: u64 = if set_to {
                b | first_block_mask
            } else {
                b & !first_block_mask
            };
            self.raw_weights.set(start / BLOCK_SIZE, nb);
        }
        let ghost after_first = self.raw_weights@;
        if upper_bit_offset != 0 {
            // mask with 1s from the bottom of the block to the upper bit offset
            let last_block_mask: u64 = !(u64::MAX << (upper_bit_offset as u64));
            let b: u64 = self.raw_weights[end / BLOCK_SIZE];
            let nb: u64 = if set_to {
                b | last_block_mask
            } else {
                b & !last_block_mask
            };
            self.raw_weights.set(end / BLOCK_SIZE, nb);
        }
        let ghost partial = self.raw_weights@;

        // set the full blocks in one assignment each
        let value: u64 = if set_to {
            u64::MAX
        } else {
            0
        };
        let lo: usize = first_block / BLOCK_SIZE;
        let hi: usize = last_block / BLOCK_SIZE;
        let mut k: usize = lo;
        while k < hi
            invariant
                lo <= k <= hi,
                hi <= n,
                self.raw_weights@.len() == n,
                self.len == old(self).len,
                forall|j: int|
                    0 <= j < n ==> #[trigger] self.raw_weights@[j] == if lo <= j < k {
                        value
                    } else {
                        partial[j]
                    },
            decreases hi - k,
        {
            self.raw_weights.set(k, value);
            k += 1;
        }
        proof {
            assert forall|p: int| 0 <= p < self@.len() implies #[trigger] self@[p] == if start
                <= p < end {
                set_to
            } else {
                bits_of(old_blocks)[p]
            } by {
                lemma_fundamental_div_mod(p, 64);
                let j = p / 64;
                let i = (p % 64) as u64;
                if lo <= j < hi {
                    lemma_bit_all_ones(i);
                } else if j == start / 64 && lower_bit_offset != 0 {
                    let m = u64::MAX << (lower_bit_offset as u64);
                    lemma_bit_high_mask(lower_bit_offset as u64, i);
                    lemma_bit_or(old_blocks[j], m, i);
                    lemma_bit_and(old_blocks[j], !m, i);
                    lemma_bit_not(m, i);
                } else if j == end / 64 && upper_bit_offset != 0 {
                    let m = !(u64::MAX << (upper_bit_offset as u64));
                    lemma_bit_high_mask(upper_bit_offset as u64, i);
                    lemma_bit_not(u64::MAX << (upper_bit_offset as u64), i);
                    lemma_bit_or(old_blocks[j], m, i);
                    lemma_bit_and(old_blocks[j], !m, i);
                    lemma_bit_not(m, i);
                }
            }
        }
    }
    /// Count the ones among the positions below the nominal length.
    pub fn count(&self) -> (c: u32)
        requires
            count_true(self@, self.counted_len()) <= u32::MAX,
        ensures
            c == count_true(self@, self.counted_len()),
    {
        let n: usize = self.raw_weights.len();
        // the blocks wholly below the nominal length, and the positions of
        // the block after them that are still below it
        let full: usize = if self.len / BLOCK_SIZE < n {
            self.len / BLOCK_SIZE
        } else {
            n
        };
        let rem: usize = if self.len / BLOCK_SIZE < n {
            self.len % BLOCK_SIZE
        } else {
            0
        };
        proof {
            lemma_fundamental_div_mod(self.len as int, 64);
            assert(self.counted_len() == 64 * full + rem);
            lemma_count_blocks(self.raw_weights@, full as int);
            if rem > 0 {
                lemma_count_in_block(self.raw_weights@, full as int, rem as int);
            }
        }
        let mut count: u32 = 0;
        let mut k: usize = 0;
        while k < full
            invariant
                k <= full <= n,
                n == self.raw_weights@.len(),
                blocks_ones(self.raw_weights@, full as int) <= u32::MAX,
                count == blocks_ones(self.raw_weights@, k as int),
            decreases full - k,
        {
            proof {
                lemma_blocks_ones_monotone(self.raw_weights@, k + 1, full as int);
            }
            count = count + block_count_ones(self.raw_weights[k]);
            k += 1;
        }
        if rem != 0 {
            // the ones of the last block below the nominal length: all its
            // ones less those at or past it
            let last_block: u64 = self.raw_weights[full];
            let overhang: u64 = last_block & (u64::MAX << (rem as u64));
            proof {
                lemma_ones_high_mask(last_block, rem as u64, 64);
            }
            let low: u32 = block_count_ones(last_block) - block_count_ones(overhang);
            count = count + low;
        }
        count
    }

    /// Get the position of the first one below the nominal length, if there
    /// is any.
    pub fn get_first_one(&self) -> (r: Option<usize>)
        ensures
            r is None <==> forall|p: int| 0 <= p < self.counted_len() ==> !#[trigger] self@[p],
            r matches Some(q) ==> {
                &&& q < self.counted_len()
                &&& self@[q as int]
                &&& forall|p: int| 0 <= p < q ==> !#[trigger] self@[p]
            },
    {
        let n: usize = self.raw_weights.len();
        let len: usize = self.len;
        // the blocks holding a position below the nominal length
        let below: usize = if len % BLOCK_SIZE == 0 {
            len / BLOCK_SIZE
        } else {
            len / BLOCK_SIZE + 1
        };
        let kmax: usize = if below < n {
            below
        } else {
            n
        };
        proof {
            lemma_fundamental_div_mod(len as int, 64);
            assert(self.counted_len() <= 64 * kmax);
        }
        let mut k: usize = 0;
        while k < kmax
            invariant
                k <= kmax <= n,
                kmax <= below,
                n == self.raw_weights@.len(),
                len == self.len,
                64 * (below - 1) < len || below == 0,
                self.counted_len() <= 64 * kmax,
                forall|p: int| 0 <= p < 64 * k ==> !#[trigger] self@[p],
            decreases kmax - k,
        {
            let block: u64 = self.raw_weights[k];
            let base: usize = k * BLOCK_SIZE;
            if block != 0 {
                proof {
                    vstd::std_specs::bits::axiom_u64_trailing_zeros(block);
                }
                // the blocks are little-endian, so the lowest set bit comes first
                let tz: u32 = block.trailing_zeros();
                proof {
                    lemma_bits_index(self.raw_weights@, k as int, tz as int);
                    assert(bit_of(block, tz as u64));
                    assert(self@[64 * k + tz]);
                    assert forall|p: int| 0 <= p < 64 * k + tz implies !#[trigger] self@[p] by {
                        if p >= 64 * k {
                            lemma_bits_index(self.raw_weights@, k as int, p - 64 * k);
                        }
                    }
                }
                // a first one at or past the nominal length is no weight
                if (tz as usize) < len - base {
                    return Some(base + tz as usize);
                } else {
                    return None;
                }
            }
            proof {
                lemma_zero_block(block);
                assert forall|p: int| 0 <= p < 64 * (k + 1) implies !#[trigger] self@[p] by {
                    if p >= 64 * k {
                        lemma_bits_index(self.raw_weights@, k as int, p - 64 * k);
                    }
                }
            }
            k += 1;
        }
        None
    }

    /// Get the position of the last one below the nominal length, if there
    /// is any.
    pub fn get_last_one(&self) -> (r: Option<usize>)
        ensures
            r is None <==> forall|p: int| 0 <= p < self.counted_len() ==> !#[trigger] self@[p],
            r matches Some(q) ==> {
                &&& q < self.counted_len()
                &&& self@[q as int]
                &&& forall|p: int| q < p < self.counted_len() ==> !#[trigger] self@[p]
            },
    {
        let n: usize = self.raw_weights.len();
        // the positions below `limit` hold weights
        proof {
            lemma_fundamental_div_mod(self.len as int, 64);
        }
        let limit: usize = if self.len / BLOCK_SIZE < n {
            self.len
        } else {
            n * BLOCK_SIZE
        };
        proof {
            lemma_fundamental_div_mod(self.len as int, 64);
            lemma_fundamental_div_mod(limit as int, 64);
            assert(limit == self.counted_len());
        }
        // the blocks holding a position below `limit`
        let mut k: usize = if limit % BLOCK_SIZE == 0 {
            limit / BLOCK_SIZE
        } else {
            limit / BLOCK_SIZE + 1
        };
        while k > 0
            invariant
                k <= n,
                n == self.raw_weights@.len(),
                limit == self.counted_len(),
                k > 0 ==> 64 * (k - 1) < limit,
                forall|p: int| 64 * k <= p < limit ==> !#[trigger] self@[p],
            decreases k,
        {
            let block: u64 = self.raw_weights[k - 1];
            let avail: usize = limit - (k - 1) * BLOCK_SIZE;
            // only the positions of this block below `limit` count
            let value: u64 = if avail < BLOCK_SIZE {
                block & !(u64::MAX << (avail as u64))
            } else {
                block
            };
            proof {
                assert forall|i: u64| i < 64 implies #[trigger] bit_of(value, i) == (bit_of(block, i)
                    && i < avail) by {
                    if avail < 64 {
                        lemma_bit_and(block, !(u64::MAX << (avail as u64)), i);
                        lemma_bit_not(u64::MAX << (avail as u64), i);
                        lemma_bit_high_mask(avail as u64, i);
                    }
                }
            }
            if value != 0 {
                proof {
                    vstd::std_specs::bits::axiom_u64_leading_zeros(value);
                }
                let lz: u32 = value.leading_zeros();
                let ghost h: int = 63 - lz;
                let ghost p: int = 64 * (k - 1) + h;
                proof {
                    lemma_bits_index(self.raw_weights@, k - 1, h);
                    lemma_bit_nonzero(value, (63 - lz) as u64);
                    assert(bit_of(value, h as u64));
                    assert(bit_of(block, h as u64) && h < avail);
                    assert(self@[p]);
                    assert forall|p2: int| p < p2 < limit implies !#[trigger] self@[p2] by {
                        if p2 < 64 * k {
                            let i = p2 - 64 * (k - 1);
                            lemma_bits_index(self.raw_weights@, k - 1, i);
                            assert(((value >> (i as u64)) & 1u64) == 0u64);
                            assert(!bit_of(value, i as u64));
                        }
                    }
                }
                // the highest set bit of a little-endian block is its last one
                return Some((k - 1) * BLOCK_SIZE + (63 - lz as usize));
            }
            proof {
                lemma_zero_block(value);
                assert forall|p: int| 64 * (k - 1) <= p < limit implies !#[trigger] self@[p] by {
                    if p < 64 * k {
                        let i = p - 64 * (k - 1);
                        lemma_bits_index(self.raw_weights@, k - 1, i);
                        assert(!bit_of(value, i as u64));
                    }
                }
            }
            k -= 1;
        }
        None
    }

    /// The raw blocks.
    pub fn raw_weights(&self) -> (r: &[u64])
        ensures
            r@ == self.blocks(),
    {
        self.raw_weights.as_slice()
    }

    /// The nominal number of weights.
    pub fn len(&self) -> (r: usize)
        ensures
            r == self.size(),
    {
        self.len
    }

    /// The weight at `index`.
    pub fn get(&self, index: usize) -> (r: bool)
        requires
            index < self@.len(),
        ensures
            r == self@[index as int],
    {
        (self.raw_weights[index / BLOCK_SIZE] >> ((index % BLOCK_SIZE) as u64)) & 1 == 1
    }

    /// Create a weights array from its raw blocks; its nominal length is every
    /// bit of every block.
    pub fn from_raw(raw_weights: Vec<u64>) -> (w: Weights)
        requires
            64 * raw_weights.len() <= usize::MAX,
        ensures
            w.blocks() == raw_weights@,
            w.size() == 64 * raw_weights.len(),
    {
        let len: usize = raw_weights.len() * 64;
        Weights { raw_weights, len }
    }

    /// Set the weight at `index` to `set_to`.
    pub fn set_weight(&mut self, index: usize, set_to: bool)
        requires
            index < old(self)@.len(),
        ensures
            final(self).blocks().len() == old(self).blocks().len(),
            final(self).size() == old(self).size(),
            final(self)@ == old(self)@.update(index as int, set_to),
    {
        let ghost old_blocks = self.raw_weights@;
        let block: usize = index / BLOCK_SIZE;
        let bit: u64 = 1u64 << ((index % BLOCK_SIZE) as u64);
        let b: u64 = self.raw_weights[block];
        let nb: u64 = if set_to {
            b | bit
        } else {
            b & !bit
        };
        self.raw_weights.set(block, nb);
        proof {
            lemma_fundamental_div_mod(index as int, 64);
            assert forall|p: int| 0 <= p < self@.len() implies #[trigger] self@[p]
                == bits_of(old_blocks).update(index as int, set_to)[p] by {
                lemma_fundamental_div_mod(p, 64);
                let i = (p % 64) as u64;
                if p / 64 == block {
                    lemma_bit_single((index % 64) as u64, i);
                    lemma_bit_or(b, bit, i);
                    lemma_bit_and(b, !bit, i);
                    lemma_bit_not(bit, i);
                }
            }
            assert(self@ =~= bits_of(old_blocks).update(index as int, set_to));
        }
    }
}

/// Two weights arrays are equal when their raw blocks are equal.
impl PartialEq for Weights {
    fn eq(&self, other: &Self) -> (r: bool) {
        let n: usize = self.raw_weights.len();
        if n != other.raw_weights.len() {
            return false;
        }
        let mut k: usize = 0;
        while k < n
            invariant
                k <= n,
                n == self.raw_weights@.len(),
                n == other.raw_weights@.len(),
                forall|j: int| 0 <= j < k ==> self.raw_weights@[j] == other.raw_weights@[j],
            decreases n - k,
        {
            if self.raw_weights[k] != other.raw_weights[k] {
                return false;
            }
            k += 1;
        }
        proof {
            assert(self.raw_weights@ =~= other.raw_weights@);
        }
        true
    }
}

impl vstd::std_specs::cmp::PartialEqSpecImpl for Weights {
    open spec fn obeys_eq_spec() -> bool {
        true
    }

    open spec fn eq_spec(&self, other: &Weights) -> bool {
        self.blocks() == other.blocks()
    }
}

/// The weights that are one in both arrays: the blocks are combined pairwise,
/// as far as the shorter of the two reaches, and the nominal length is that
/// of the left-hand side.
impl core::ops::BitAnd for Weights {
    type Output = Weights;

    fn bitand(self, rhs: Weights) -> (w: Weights)
        ensures
            w.size() == self.size(),
            w.blocks() == and_blocks(self.blocks(), rhs.blocks()),
            w.blocks().len() == if self.blocks().len() <= rhs.blocks().len() {
                self.blocks().len()
            } else {
                rhs.blocks().len()
            },
            forall|b: int|
                0 <= b < w.blocks().len() ==> #[trigger] w.blocks()[b] == self.blocks()[b]
                    & rhs.blocks()[b],
            forall|p: int| 0 <= p < w@.len() ==> #[trigger] w@[p] == (self@[p] && rhs@[p]),
    {
        let n: usize = if self.raw_weights.len() <= rhs.raw_weights.len() {
            self.raw_weights.len()
        } else {
            rhs.raw_weights.len()
        };
        let mut raw_weights: Vec<u64> = Vec::new();
        let mut k: usize = 0;
        while k < n
            invariant
                k <= n,
                n <= self.raw_weights@.len(),
                n <= rhs.raw_weights@.len(),
                raw_weights@.len() == k,
                forall|j: int|
                    0 <= j < k ==> #[trigger] raw_weights@[j] == self.raw_weights@[j]
                        & rhs.raw_weights@[j],
            decreases n - k,
        {
            raw_weights.push(self.raw_weights[k] & rhs.raw_weights[k]);
            k += 1;
        }
        let w = Weights { raw_weights, len: self.len };
        proof {
            assert(w.blocks() =~= and_blocks(self.blocks(), rhs.blocks()));
            assert forall|p: int| 0 <= p < w@.len() implies #[trigger] w@[p] == (self@[p]
                && rhs@[p]) by {
                lemma_fundamental_div_mod(p, 64);
                let j = p / 64;
                lemma_bit_and(self.raw_weights@[j], rhs.raw_weights@[j], (p % 64) as u64);
            }
        }
        w
    }
}

/// Every weight flipped.
impl core::ops::Not for Weights {
    type Output = Weights;

    fn not(self) -> (w: Weights)
        ensures
            w.size() == self.size(),
            w.blocks().len() == self.blocks().len(),
            forall|b: int| 0 <= b < w.blocks().len() ==> #[trigger] w.blocks()[b] == !self.blocks()[b],
            forall|p: int| 0 <= p < w@.len() ==> #[trigger] w@[p] == !self@[p],
    {
        let n: usize = self.raw_weights.len();
        let mut raw_weights: Vec<u64> = Vec::new();
        let mut k: usize = 0;
        while k < n
            invariant
                k <= n,
                n == self.raw_weights@.len(),
                raw_weights@.len() == k,
                forall|j: int| 0 <= j < k ==> #[trigger] raw_weights@[j] == !self.raw_weights@[j],
            decreases n - k,
        {
            raw_weights.push(!self.raw_weights[k]);
            k += 1;
        }
        let w = Weights { raw_weights, len: self.len };
        proof {
            assert forall|p: int| 0 <= p < w@.len() implies #[trigger] w@[p] == !self@[p] by {
                lemma_fundamental_div_mod(p, 64);
                lemma_bit_not(self.raw_weights@[p / 64], (p % 64) as u64);
            }
        }
        w
    }
}

/// The result of `&` is stated by the impl's own `ensures` above; no spec
/// function describes it, so this impl claims nothing further.
impl vstd::std_specs::ops::BitAndSpecImpl for Weights {
    open spec fn obeys_bitand_spec() -> bool {
        false
    }

    open spec fn bitand_req(self, rhs: Weights) -> bool {
        true
    }

    open spec fn bitand_spec(self, rhs: Weights) -> Weights {
        self
    }
}

/// The result of `!` is stated by the impl's own `ensures` above; no spec
/// function describes it, so this impl claims nothing further.
impl vstd::std_specs::ops::NotSpecImpl for Weights {
    open spec fn obeys_not_spec() -> bool {
        false
    }

    open spec fn not_req(self) -> bool {
        true
    }

    open spec fn not_spec(self) -> Weights {
        self
    }
}

proof fn lemma_count_all(s: Seq<bool>, k: int, v: bool)
    requires
        0 <= k <= s.len(),
        forall|p: int| 0 <= p < k ==> s[p] == v,
    ensures
        count_true(s, k) == if v {
            k
        } else {
            0
        },
    decreases k,
{
    if k > 0 {
        lemma_count_all(s, k - 1, v);
    }
}

proof fn lemma_count_complement(a: Seq<bool>, b: Seq<bool>, k: int)
    requires
        0 <= k,
        forall|p: int| 0 <= p < k ==> #[trigger] b[p] == !a[p],
    ensures
        count_true(a, k) + count_true(b, k) == k,
    decreases k,
{
    if k > 0 {
        lemma_count_complement(a, b, k - 1);
        assert(b[k - 1] == !a[k - 1]);
    }
}

/// For the blocks made for a nominal length, `count` counts exactly the
/// nominal positions.
pub proof fn law_counted_len_is_size(w: Weights)
    requires
        w.blocks().len() == blocks_for(w.size()),
    ensures
        w.counted_len() == w.size(),
        w.counted_len() <= w@.len(),
{
    lemma_fundamental_div_mod(w.size() as int, 64);
}

/// An array of all-one weights of length `len` counts `len` ones.
pub proof fn law_ones_count(w: Weights)
    requires
        w.blocks().len() == blocks_for(w.size()),
        forall|p: int| 0 <= p < w@.len() ==> w@[p],
    ensures
        count_true(w@, w.counted_len()) == w.size(),
{
    law_counted_len_is_size(w);
    lemma_count_all(w@, w.counted_len(), true);
}

/// An array of all-zero weights counts no ones.
pub proof fn law_zeros_count(w: Weights)
    requires
        forall|p: int| 0 <= p < w@.len() ==> !w@[p],
    ensures
        count_true(w@, w.counted_len()) == 0,
{
    let k = w.counted_len();
    if k > 0 {
        lemma_count_all(w@, k, false);
    }
}

/// The ones of an array and the ones of its negation add up to the number of
/// positions below the nominal length.
pub proof fn law_count_complement(w: Weights, v: Weights)
    requires
        v.size() == w.size(),
        v.blocks().len() == w.blocks().len(),
        forall|p: int| 0 <= p < w@.len() ==> #[trigger] v@[p] == !w@[p],
    ensures
        v.counted_len() == w.counted_len(),
        count_true(v@, v.counted_len()) + count_true(w@, w.counted_len()) == w.counted_len(),
{
    let k = w.counted_len();
    assert forall|p: int| 0 <= p < k implies #[trigger] v@[p] == !w@[p] by {
        assert(p < w@.len());
    }
    lemma_count_complement(w@, v@, k);
}

/// Negating an array twice gives back its blocks.
pub proof fn law_not_not(w: Weights, v: Weights, u: Weights)
    requires
        v.blocks().len() == w.blocks().len(),
        forall|b: int| 0 <= b < v.blocks().len() ==> #[trigger] v.blocks()[b] == !w.blocks()[b],
        u.blocks().len() == v.blocks().len(),
        forall|b: int| 0 <= b < u.blocks().len() ==> #[trigger] u.blocks()[b] == !v.blocks()[b],
    ensures
        u.blocks() == w.blocks(),
{
    assert forall|b: int| 0 <= b < u.blocks().len() implies u.blocks()[b] == w.blocks()[b] by {
        let x = w.blocks()[b];
        assert(!(!x) == x) by (bit_vector);
        assert(v.blocks()[b] == !x);
    }
    assert(u.blocks() =~= w.blocks());
}

/// `&` does not depend on the order of its operands: `a & b` and `b & a`
/// have the same blocks (and, as `&` keeps the left length, the same length
/// when `a` and `b` have one).
pub proof fn law_and_commutes(a: Weights, b: Weights)
    ensures
        and_blocks(a.blocks(), b.blocks()) == and_blocks(b.blocks(), a.blocks()),
{
    assert forall|k: int| 0 <= k < and_blocks(a.blocks(), b.blocks()).len() implies #[trigger] and_blocks(
        a.blocks(),
        b.blocks(),
    )[k] == and_blocks(b.blocks(), a.blocks())[k] by {
        let x = a.blocks()[k];
        let y = b.blocks()[k];
        assert(x & y == y & x) by (bit_vector);
    }
    assert(and_blocks(a.blocks(), b.blocks()) =~= and_blocks(b.blocks(), a.blocks()));
}

/// An array of all-one weights with as many blocks is an identity for `&`:
/// `w & Weights::ones(len)` gives back the blocks of `w`, for the blocks
/// made for `w`'s length.
pub proof fn law_and_ones(w: Weights, o: Weights)
    requires
        o.blocks().len() == w.blocks().len(),
        forall|k: int| 0 <= k < o.blocks().len() ==> #[trigger] o.blocks()[k] == u64::MAX,
    ensures
        and_blocks(w.blocks(), o.blocks()) == w.blocks(),
{
    assert forall|k: int| 0 <= k < w.blocks().len() implies #[trigger] and_blocks(
        w.blocks(),
        o.blocks(),
    )[k] == w.blocks()[k] by {
        let x = w.blocks()[k];
        assert(o.blocks()[k] == u64::MAX);
        assert(x & 0xffff_ffff_ffff_ffffu64 == x) by (bit_vector);
    }
    assert(and_blocks(w.blocks(), o.blocks()) =~= w.blocks());
}

} // verus!
