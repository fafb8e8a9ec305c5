//! Alignment of the blocks of the buddy allocator.
//!
//! A block is naturally aligned if it lies at a multiple of its own size from the base of
//! the managed region. Allocating and freeing keep every free block naturally aligned, and
//! so does adding a region that starts at a multiple of the largest block size. Adding a
//! region that starts anywhere else does not: of two regions of 256 pages, one at page 0 and
//! one at page 257, the second gives a block of 256 pages at page 257.
use vstd::arithmetic::div_mod::{
    lemma_fundamental_div_mod, lemma_mod_add_multiples_vanish, lemma_mod_multiples_basic,
};
use vstd::bits::{
    lemma_u64_low_bits_mask_is_mod, lemma_u64_pow2_no_overflow, lemma_u64_shl_is_mul,
    low_bits_mask,
};
use vstd::prelude::*;

use super::buddy::{
    block_bytes, lemma_block_bytes, lemma_buddy_adjacent, order_for, page_shift, position,
    BuddyModel, ORDER_LIMIT,
};
use super::{PageSize, KERNEL_TAG};

verus! {

/// A number has no bit set below bit `shift` if and only if it is a multiple of the number
/// that has bit `shift` alone set.
pub proof fn lemma_mask_is_multiple(x: u64, shift: u64)
    requires
        shift <= 47,
    ensures
        (x & (((1u64 << shift) - 1) as u64) == 0) == (x % (1u64 << shift) == 0),
        (1u64 << shift) > 0,
{
    lemma_u64_pow2_no_overflow(shift as nat);
    lemma_u64_shl_is_mul(1, shift);
    lemma_u64_low_bits_mask_is_mod(x, shift as nat);
    assert(low_bits_mask(shift as nat) as u64 == ((1u64 << shift) - 1) as u64);
}

/// A multiple of the size of a block is a multiple of the size of each smaller block.
pub proof fn lemma_finer(page_size: PageSize, x: int, low: nat, high: nat)
    requires
        low <= high <= ORDER_LIMIT,
        x % (block_bytes(page_size, high) as int) == 0,
    ensures
        x % (block_bytes(page_size, low) as int) == 0,
    decreases high - low,
{
    if low < high {
        let below = (high - 1) as nat;
        lemma_block_bytes(page_size, below);
        let b = block_bytes(page_size, below) as int;
        let q = x / (2 * b);
        lemma_fundamental_div_mod(x, 2 * b);
        assert(x == (2 * q) * b) by (nonlinear_arith)
            requires
                x == (2 * b) * q,
        ;
        lemma_mod_multiples_basic(2 * q, b);
        lemma_finer(page_size, x, low, below);
    }
}

/// The lower of a naturally aligned block and its buddy is naturally aligned as a block of
/// the next order, and the buddy is naturally aligned.
pub proof fn lemma_merged(page_size: PageSize, offset: u64, order: nat)
    requires
        order < ORDER_LIMIT,
        offset < KERNEL_TAG,
        offset % block_bytes(page_size, order) == 0,
    ensures
        (offset ^ block_bytes(page_size, order)) % block_bytes(page_size, order) == 0,
        (if offset <= offset ^ block_bytes(page_size, order) {
            offset
        } else {
            offset ^ block_bytes(page_size, order)
        }) % block_bytes(page_size, (order + 1) as nat) == 0,
{
    let shift = (page_shift(page_size) + order) as u64;
    let size = block_bytes(page_size, order);
    let buddy = offset ^ size;
    let lower = if offset <= buddy {
        offset
    } else {
        buddy
    };
    lemma_mask_is_multiple(offset, shift);
    assert(buddy & (((1u64 << shift) - 1) as u64) == 0 && lower & (((1u64 << ((shift + 1) as u64))
        - 1) as u64) == 0) by (bit_vector)
        requires
            shift <= 46,
            size == 1u64 << shift,
            offset & (((1u64 << shift) - 1) as u64) == 0,
            buddy == offset ^ size,
            lower == (if offset <= buddy {
                offset
            } else {
                buddy
            }),
    ;
    lemma_mask_is_multiple(buddy, shift);
    lemma_mask_is_multiple(lower, (shift + 1) as u64);
}

impl BuddyModel {
    /// Whether the block at `block` lies at a multiple of the size of a block of order
    /// `order` from the base.
    pub open spec fn aligned_at(self, block: u64, order: nat) -> bool {
        (block - self.base) % (self.bytes(order) as int) == 0
    }

    /// Whether every free block is naturally aligned: it lies at a multiple of its own
    /// size from the base.
    pub open spec fn naturally_aligned(self) -> bool {
        forall|order: int, index: int|
            self.holds(order, index) ==> self.aligned_at(
                #[trigger] self.block(order, index),
                order as nat,
            )
    }

    /// Pushing a naturally aligned block keeps the free blocks naturally aligned.
    pub proof fn lemma_push_aligned(self, order: int, block: u64)
        requires
            0 <= order < self.lists.len(),
            self.naturally_aligned(),
            self.aligned_at(block, order as nat),
        ensures
            self.push(order, block).naturally_aligned(),
    {
        let after = self.push(order, block);
        assert forall|o: int, i: int| after.holds(o, i) implies after.aligned_at(
            #[trigger] after.block(o, i),
            o as nat,
        ) by {
            if !(o == order && i == self.lists[order].len()) {
                assert(self.holds(o, i) && self.block(o, i) == after.block(o, i));
            }
        }
    }

    /// Removing a free block keeps the free blocks naturally aligned.
    pub proof fn lemma_remove_aligned(self, order: int, index: int)
        requires
            self.holds(order, index),
            self.naturally_aligned(),
        ensures
            self.remove(order, index).naturally_aligned(),
    {
        let after = self.remove(order, index);
        assert forall|o: int, i: int| after.holds(o, i) implies after.aligned_at(
            #[trigger] after.block(o, i),
            o as nat,
        ) by {
            if o == order && i >= index {
                assert(self.holds(o, i + 1) && self.block(o, i + 1) == after.block(o, i));
            } else {
                assert(self.holds(o, i) && self.block(o, i) == after.block(o, i));
            }
        }
    }

    /// Splitting a naturally aligned block keeps the free blocks naturally aligned, and
    /// the part that stays out is naturally aligned.
    pub proof fn lemma_split_aligned(self, block: u64, from: nat, to: nat)
        requires
            to <= from < self.lists.len() <= ORDER_LIMIT,
            self.end < KERNEL_TAG,
            self.in_bounds(from, block),
            self.naturally_aligned(),
            self.aligned_at(block, from),
        ensures
            self.split(block, from, to).naturally_aligned(),
            self.aligned_at(block, to),
        decreases from,
    {
        if from > to {
            let below = (from - 1) as nat;
            lemma_block_bytes(self.page_size, below);
            lemma_finer(self.page_size, block - self.base, below, from);
            let upper = (block + self.bytes(below)) as u64;
            lemma_mod_add_multiples_vanish(block - self.base, self.bytes(below) as int);
            self.lemma_push_aligned(below as int, upper);
            self.push(below as int, upper).lemma_split_aligned(block, below, to);
        }
    }

    /// Where every free block is naturally aligned, the block of an allocation is
    /// naturally aligned, and so is every free block after the allocation. If the base of
    /// the managed region is a multiple of the block's size too, so is the address of the
    /// allocation.
    pub proof fn lemma_allocate_aligned(self, num_pages: usize)
        requires
            self.well_formed(),
            self.naturally_aligned(),
        ensures
            self.allocate(num_pages).0.naturally_aligned(),
            self.allocate(num_pages).1 is Ok ==> self.aligned_at(
                self.allocate(num_pages).1->Ok_0,
                order_for(num_pages as u64),
            ),
            self.allocate(num_pages).1 is Ok && self.base % self.bytes(
                order_for(num_pages as u64),
            ) == 0 ==> self.allocate(num_pages).1->Ok_0 % self.bytes(order_for(num_pages as u64))
                == 0,
    {
        let order = order_for(num_pages as u64);
        if self.allocate(num_pages).1 is Ok {
            self.lemma_first_fit(order);
            let actual = self.first_fit(order) as int;
            let last = self.lists[actual].len() - 1;
            let block = self.lists[actual].last();
            assert(self.holds(actual, last) && self.block(actual, last) == block);
            self.lemma_remove_aligned(actual, last);
            self.remove(actual, last).lemma_split_aligned(block, actual as nat, order);
            lemma_block_bytes(self.page_size, order);
            if self.base % self.bytes(order) == 0 {
                let size = self.bytes(order) as int;
                lemma_fundamental_div_mod(self.base as int, size);
                lemma_fundamental_div_mod(block - self.base, size);
                let sum = self.base as int / size + (block - self.base) / size;
                assert(block == sum * size) by (nonlinear_arith)
                    requires
                        self.base == size * (self.base as int / size),
                        block - self.base == size * ((block - self.base) / size),
                        sum == self.base as int / size + (block - self.base) / size,
                ;
                lemma_mod_multiples_basic(sum, size);
            }
        }
    }

    /// Merging a naturally aligned block with its free buddies keeps the free blocks
    /// naturally aligned.
    pub proof fn lemma_coalesce_aligned(self, block: u64, order: nat)
        requires
            self.well_formed(),
            order < self.lists.len(),
            self.base <= block < KERNEL_TAG,
            self.naturally_aligned(),
            self.aligned_at(block, order),
        ensures
            self.coalesce(block, order).naturally_aligned(),
        decreases self.lists.len() - order,
    {
        let buddy = self.buddy_of(block, order);
        let at = position(self.lists[order as int], buddy);
        Self::lemma_position(self.lists[order as int], buddy);
        if order + 1 < self.lists.len() && at < self.lists[order as int].len() {
            let offset = (block - self.base) as u64;
            lemma_block_bytes(self.page_size, order);
            lemma_buddy_adjacent(
                offset,
                self.bytes(order),
                (page_shift(self.page_size) + order) as u64,
            );
            lemma_merged(self.page_size, offset, order);
            assert(self.holds(order as int, at) && self.block(order as int, at) == buddy);
            assert(self.in_bounds(order, buddy));
            self.lemma_remove(order as int, at);
            self.lemma_remove_aligned(order as int, at);
            let lower = if block <= buddy {
                block
            } else {
                buddy
            };
            self.remove(order as int, at).lemma_coalesce_aligned(lower, order + 1);
        } else {
            self.lemma_push_aligned(order as int, block);
        }
    }

    /// Freeing a naturally aligned block keeps the free blocks naturally aligned.
    pub proof fn lemma_free_aligned(self, pages: u64, num_pages: usize)
        requires
            self.well_formed(),
            self.naturally_aligned(),
            self.aligned_at(pages, order_for(num_pages as u64)),
        ensures
            self.free(pages, num_pages).0.naturally_aligned(),
    {
        if self.free(pages, num_pages).1 is Ok {
            self.lemma_coalesce_aligned(pages, order_for(num_pages as u64));
        }
    }

    /// Adding a range that starts at a multiple of the size of the largest block from the
    /// base keeps the free blocks naturally aligned.
    pub proof fn lemma_seed_aligned(self, start: u64, remaining: u64, order: nat)
        requires
            order < self.lists.len() <= ORDER_LIMIT,
            self.base <= start,
            start + remaining < KERNEL_TAG,
            self.naturally_aligned(),
            self.aligned_at(start, order),
        ensures
            self.seed(start, remaining, order).naturally_aligned(),
        decreases order, remaining,
    {
        lemma_block_bytes(self.page_size, order);
        if remaining >= self.bytes(order) && self.bytes(order) > 0 {
            self.lemma_push_aligned(order as int, start);
            lemma_mod_add_multiples_vanish(start - self.base, self.bytes(order) as int);
            self.push(order as int, start).lemma_seed_aligned(
                (start + self.bytes(order)) as u64,
                (remaining - self.bytes(order)) as u64,
                order,
            );
        } else if order > 0 {
            lemma_finer(self.page_size, start - self.base, (order - 1) as nat, order);
            self.lemma_seed_aligned(start, remaining, (order - 1) as nat);
        }
    }
}

} // verus!
