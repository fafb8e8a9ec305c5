//! Buddy allocator for pages.
//!
//! For each order `k` the allocator keeps a stack of free blocks of `2^k` pages. The
//! allocator holds the addresses of the blocks, not the memory itself: what it decides is
//! which block an allocation gets and where a freed block goes.
use vstd::prelude::*;

use super::{Error, PageAllocator, PageSize, PhysicalAddress, KERNEL_TAG};

verus! {

/// The largest number of orders that an allocator can have.
pub const ORDER_LIMIT: usize = 32;

/// The number of address bits inside a page of size `page_size`.
pub open spec fn page_shift(page_size: PageSize) -> nat {
    match page_size {
        PageSize::FourKiB => 12,
        PageSize::SixteenKiB => 14,
    }
}

/// The number of bytes in a block of order `order`: `2^order` pages.
pub open spec fn block_bytes(page_size: PageSize, order: nat) -> u64 {
    1u64 << ((page_shift(page_size) + order) as u64)
}

/// The number of pages in a block of order `order`.
pub open spec fn block_pages(order: nat) -> nat {
    (1u64 << (order as u64)) as nat
}

/// The order of the smallest block that holds `num_pages` pages, tried from `order` on; 64
/// if there is none.
pub open spec fn order_from(num_pages: u64, order: nat) -> nat
    decreases 64 - order,
{
    if order >= 64 || (1u64 << (order as u64)) >= num_pages {
        order
    } else {
        order_from(num_pages, order + 1)
    }
}

/// The order of the smallest block that holds `num_pages` pages; 64 if there is none.
pub open spec fn order_for(num_pages: u64) -> nat {
    order_from(num_pages, 0)
}

/// A block of the order that is found for a number of pages holds as many pages.
pub proof fn lemma_order_holds(num_pages: u64, order: nat)
    requires
        order_from(num_pages, order) < 64,
    ensures
        block_pages(order_from(num_pages, order)) >= num_pages,
    decreases 64 - order,
{
    if !(order >= 64 || (1u64 << (order as u64)) >= num_pages) {
        lemma_order_holds(num_pages, order + 1);
    }
}

/// The index of the first occurrence of `block` in `list`, or the length of `list` if it
/// does not occur.
pub open spec fn position(list: Seq<u64>, block: u64) -> int
    decreases list.len(),
{
    if list.len() == 0 {
        0
    } else if list[0] == block {
        0
    } else {
        1 + position(list.skip(1), block)
    }
}

/// The number of pages in the blocks of `lists` from order `order` on.
pub open spec fn pages_from(lists: Seq<Seq<u64>>, order: nat) -> nat
    decreases lists.len() - order,
{
    if order >= lists.len() {
        0
    } else {
        lists[order as int].len() * block_pages(order) + pages_from(lists, order + 1)
    }
}

/// What a buddy allocator holds: for each order the stack of its free blocks, each block
/// by its start address, with the top of the stack last.
pub struct BuddyModel {
    /// The size of a page.
    pub page_size: PageSize,
    /// The start of the region that the allocator manages.
    pub base: u64,
    /// The end of the region that the allocator manages.
    pub end: u64,
    /// The free blocks of each order.
    pub lists: Seq<Seq<u64>>,
}

impl BuddyModel {
    /// The number of bytes in a block of order `order`.
    pub open spec fn bytes(self, order: nat) -> u64 {
        block_bytes(self.page_size, order)
    }

    /// Whether the list of order `order` has a block at index `index`.
    pub open spec fn holds(self, order: int, index: int) -> bool {
        0 <= order < self.lists.len() && 0 <= index < self.lists[order].len()
    }

    /// The block at index `index` of the list of order `order`.
    pub open spec fn block(self, order: int, index: int) -> u64 {
        self.lists[order][index]
    }

    /// Whether a block of order `order` at `block` lies in the managed region and starts
    /// at a page boundary.
    pub open spec fn in_bounds(self, order: nat, block: u64) -> bool {
        &&& self.base <= block
        &&& block + self.bytes(order) <= self.end
        &&& block % (self.page_size.spec_bytes() as u64) == 0
    }

    /// Whether no free block reaches into `[low, high)`.
    pub open spec fn free_of(self, low: int, high: int) -> bool {
        forall|order: int, index: int|
            self.holds(order, index) ==> (#[trigger] self.block(order, index)) + self.bytes(
                order as nat,
            ) <= low || high <= self.block(order, index)
    }

    /// Whether the address `address` lies in a free block.
    pub open spec fn is_free(self, address: int) -> bool {
        exists|order: int, index: int|
            self.holds(order, index) && (#[trigger] self.block(order, index)) <= address
                < self.block(order, index) + self.bytes(order as nat)
    }

    /// The invariant of the free lists: every free block lies in the managed region and
    /// starts at a page boundary, and no two free blocks overlap.
    pub open spec fn well_formed(self) -> bool {
        &&& 1 <= self.lists.len() <= ORDER_LIMIT
        &&& self.base <= self.end < KERNEL_TAG
        &&& self.base % (self.page_size.spec_bytes() as u64) == 0
        &&& forall|order: int, index: int|
            self.holds(order, index) ==> self.in_bounds(
                order as nat,
                #[trigger] self.block(order, index),
            )
        &&& forall|o1: int, i1: int, o2: int, i2: int|
            self.holds(o1, i1) && self.holds(o2, i2) && !(o1 == o2 && i1 == i2) ==> (
            #[trigger] self.block(o1, i1)) + self.bytes(o1 as nat) <= (#[trigger] self.block(
                o2,
                i2,
            )) || self.block(o2, i2) + self.bytes(o2 as nat) <= self.block(o1, i1)
    }

    /// Whether `other` manages the same region with the same page size and the same number
    /// of orders.
    pub open spec fn same_region(self, other: BuddyModel) -> bool {
        &&& self.page_size == other.page_size
        &&& self.base == other.base
        &&& self.end == other.end
        &&& self.lists.len() == other.lists.len()
    }

    /// The number of pages that are free.
    pub open spec fn total_pages_free(self) -> nat {
        pages_from(self.lists, 0)
    }

    /// The lists with `block` pushed on the stack of order `order`.
    pub open spec fn push(self, order: int, block: u64) -> BuddyModel {
        BuddyModel { lists: self.lists.update(order, self.lists[order].push(block)), ..self }
    }

    /// The lists without the block at index `index` of order `order`.
    pub open spec fn remove(self, order: int, index: int) -> BuddyModel {
        BuddyModel { lists: self.lists.update(order, self.lists[order].remove(index)), ..self }
    }

    /// The first order from `order` on that has a free block, or the number of orders if
    /// none has.
    pub open spec fn first_fit(self, order: nat) -> nat
        decreases self.lists.len() - order,
    {
        if order >= self.lists.len() || self.lists[order as int].len() > 0 {
            order
        } else {
            self.first_fit(order + 1)
        }
    }

    /// The lists after the block at `block`, of order `from`, has been split down to order
    /// `to`: the upper half of each split is pushed at its order, and the lowest part of
    /// order `to` stays out.
    pub open spec fn split(self, block: u64, from: nat, to: nat) -> BuddyModel
        decreases from,
    {
        if from <= to {
            self
        } else {
            self.push(
                from - 1,
                (block + self.bytes((from - 1) as nat)) as u64,
            ).split(block, (from - 1) as nat, to)
        }
    }

    /// What an allocation of `num_pages` pages does: the lists after it and its result.
    ///
    /// The block comes from the top of the first non-empty stack of an order that is
    /// large enough, and is split down to the order of the request.
    pub open spec fn allocate(self, num_pages: usize) -> (BuddyModel, Result<u64, Error>) {
        let order = order_for(num_pages as u64);
        if num_pages == 0 {
            (self, Err(Error::InvalidSize))
        } else if order >= self.lists.len() || self.first_fit(order) >= self.lists.len() {
            (self, Err(Error::OutOfMemory))
        } else {
            let actual = self.first_fit(order) as int;
            let block = self.lists[actual].last();
            (self.remove(actual, self.lists[actual].len() - 1).split(block, actual as nat, order), Ok(block))
        }
    }

    /// The buddy of the block of order `order` at `block`: the block of the same order
    /// whose offset from the base differs in the one bit of the block's size.
    pub open spec fn buddy_of(self, block: u64, order: nat) -> u64 {
        (self.base + (((block - self.base) as u64) ^ self.bytes(order))) as u64
    }

    /// The lists after the block of order `order` at `block` has been freed: while the
    /// block's buddy is free the two are merged into a block of the next order, and the
    /// block that is left is pushed at its order.
    pub open spec fn coalesce(self, block: u64, order: nat) -> BuddyModel
        decreases self.lists.len() - order,
    {
        let buddy = self.buddy_of(block, order);
        let at = position(self.lists[order as int], buddy);
        if order + 1 < self.lists.len() && at < self.lists[order as int].len() {
            self.remove(order as int, at).coalesce(
                if block <= buddy {
                    block
                } else {
                    buddy
                },
                order + 1,
            )
        } else {
            self.push(order as int, block)
        }
    }

    /// What freeing `num_pages` pages at `pages` does: the lists after it and its result.
    ///
    /// A block that is null, that does not lie in the managed region at a page boundary,
    /// or that reaches into free memory is refused as unknown.
    pub open spec fn free(self, pages: u64, num_pages: usize) -> (BuddyModel, Result<(), Error>) {
        let order = order_for(num_pages as u64);
        if pages == 0 {
            (self, Err(Error::UnknownPtr))
        } else if num_pages == 0 {
            (self, Err(Error::InvalidSize))
        } else if pages < self.base || pages >= self.end {
            (self, Err(Error::UnknownPtr))
        } else if order >= self.lists.len() {
            (self, Err(Error::InvalidSize))
        } else if !self.in_bounds(order, pages) || !self.free_of(
            pages as int,
            pages + self.bytes(order),
        ) {
            (self, Err(Error::UnknownPtr))
        } else {
            (self.coalesce(pages, order), Ok(()))
        }
    }
}

/// What is known of the size of a block of an order within the limit.
pub proof fn lemma_block_bytes(page_size: PageSize, order: nat)
    requires
        order <= ORDER_LIMIT,
    ensures
        block_bytes(page_size, order) >= page_size.spec_bytes(),
        block_bytes(page_size, order) % (page_size.spec_bytes() as u64) == 0,
        block_bytes(page_size, order) == page_size.spec_bytes() * block_pages(order),
        block_bytes(page_size, order) <= 0x4000_0000_0000,
        block_bytes(page_size, order + 1) == 2 * block_bytes(page_size, order),
        block_pages(order + 1) == 2 * block_pages(order),
        block_pages(order) >= 1,
{
    let k = order as u64;
    assert((1u64 << (12u64 + k)) >= 0x1000 && (1u64 << (12u64 + k)) % 0x1000 == 0 && (1u64 << (
    12u64 + k)) == 0x1000 * (1u64 << k) && (1u64 << (12u64 + k)) <= 0x4000_0000_0000 && (1u64 << (
    12u64 + k + 1)) == 2 * (1u64 << (12u64 + k)) && (1u64 << (k + 1)) == 2 * (1u64 << k) && (1u64
        << k) >= 1) by (bit_vector)
        requires
            k <= 32,
    ;
    assert((1u64 << (14u64 + k)) >= 0x4000 && (1u64 << (14u64 + k)) % 0x4000 == 0 && (1u64 << (
    14u64 + k)) == 0x4000 * (1u64 << k) && (1u64 << (14u64 + k)) <= 0x4000_0000_0000 && (1u64 << (
    14u64 + k + 1)) == 2 * (1u64 << (14u64 + k)) && (1u64 << (k + 1)) == 2 * (1u64 << k) && (1u64
        << k) >= 1) by (bit_vector)
        requires
            k <= 32,
    ;
}

/// The buddy of a block lies one block size above or below the block.
pub proof fn lemma_buddy_adjacent(offset: u64, size: u64, shift: u64)
    requires
        shift <= 46,
        size == 1u64 << shift,
        offset < 0xffff_0000_0000_0000,
    ensures
        (offset ^ size) == offset + size || (offset ^ size) + size == offset,
{
    assert((offset ^ size) == offset + size || (offset ^ size) + size == offset) by (bit_vector)
        requires
            shift <= 46,
            size == 1u64 << shift,
            offset < 0xffff_0000_0000_0000,
    ;
}

/// The sum of two multiples of the page size is a multiple of the page size.
pub proof fn lemma_aligned_sum(page_size: PageSize, a: u64, b: u64)
    requires
        a % (page_size.spec_bytes() as u64) == 0,
        b % (page_size.spec_bytes() as u64) == 0,
        a < KERNEL_TAG,
        b <= 0x4000_0000_0000,
    ensures
        ((a + b) as u64) % (page_size.spec_bytes() as u64) == 0,
{
    match page_size {
        PageSize::FourKiB => {
            assert(((a + b) as u64) % 0x1000 == 0) by (bit_vector)
                requires
                    a % 0x1000 == 0,
                    b % 0x1000 == 0,
                    a < 0xffff_0000_0000_0000,
                    b <= 0x4000_0000_0000,
            ;
        },
        PageSize::SixteenKiB => {
            assert(((a + b) as u64) % 0x4000 == 0) by (bit_vector)
                requires
                    a % 0x4000 == 0,
                    b % 0x4000 == 0,
                    a < 0xffff_0000_0000_0000,
                    b <= 0x4000_0000_0000,
            ;
        },
    }
}

/// The pages of the lists change by the pages of the blocks that one list gains or loses.
pub proof fn lemma_pages_update(lists: Seq<Seq<u64>>, order: int, list: Seq<u64>, from: nat)
    requires
        0 <= order < lists.len(),
    ensures
        pages_from(lists.update(order, list), from) == (if from <= order {
            pages_from(lists, from) + list.len() * block_pages(order as nat) - lists[order].len()
                * block_pages(order as nat)
        } else {
            pages_from(lists, from) as int
        }),
    decreases lists.len() - from,
{
    if from < lists.len() {
        lemma_pages_update(lists, order, list, from + 1);
    }
}

impl BuddyModel {
    /// A range that is not empty and of which no address is free is a range that no free block
    /// reaches into.
    pub proof fn lemma_free_of(self, low: int, high: int)
        requires
            self.well_formed(),
            low < high,
            forall|address: int| low <= address < high ==> !self.is_free(address),
        ensures
            self.free_of(low, high),
    {
        assert forall|o: int, i: int| self.holds(o, i) implies (#[trigger] self.block(o, i))
            + self.bytes(o as nat) <= low || high <= self.block(o, i) by {
            lemma_block_bytes(self.page_size, o as nat);
            let b = self.block(o, i);
            if !(b + self.bytes(o as nat) <= low || high <= b) {
                let witness = if b >= low {
                    b as int
                } else {
                    low
                };
                assert(self.is_free(witness));
            }
        }
    }

    /// Pushing a block that lies in the managed region and in no free block keeps the
    /// invariant, and adds the block's pages.
    pub proof fn lemma_push(self, order: int, block: u64)
        requires
            self.well_formed(),
            0 <= order < self.lists.len(),
            self.in_bounds(order as nat, block),
            self.free_of(block as int, block + self.bytes(order as nat)),
        ensures
            self.push(order, block).well_formed(),
            self.push(order, block).total_pages_free() == self.total_pages_free() + block_pages(
                order as nat,
            ),
            forall|low: int, high: int|
                self.free_of(low, high) && (block + self.bytes(order as nat) <= low || high
                    <= block) ==> #[trigger] self.push(order, block).free_of(low, high),
            forall|address: int|
                #[trigger] self.push(order, block).is_free(address) <==> (self.is_free(address)
                    || block <= address < block + self.bytes(order as nat)),
    {
        let after = self.push(order, block);
        lemma_block_bytes(self.page_size, order as nat);
        assert forall|o: int, i: int| after.holds(o, i) implies (if o == order && i
            == self.lists[order].len() {
            after.block(o, i) == block
        } else {
            self.holds(o, i) && after.block(o, i) == self.block(o, i)
        }) by {}
        assert forall|o: int, i: int| after.holds(o, i) implies after.in_bounds(
            o as nat,
            #[trigger] after.block(o, i),
        ) by {
            if !(o == order && i == self.lists[order].len()) {
                assert(self.in_bounds(o as nat, self.block(o, i)));
            }
        }
        assert forall|o1: int, i1: int, o2: int, i2: int|
            after.holds(o1, i1) && after.holds(o2, i2) && !(o1 == o2 && i1 == i2) implies (
        #[trigger] after.block(o1, i1)) + after.bytes(o1 as nat) <= (#[trigger] after.block(o2, i2))
            || after.block(o2, i2) + after.bytes(o2 as nat) <= after.block(o1, i1) by {
            let new1 = o1 == order && i1 == self.lists[order].len();
            let new2 = o2 == order && i2 == self.lists[order].len();
            if new1 {
                assert(self.block(o2, i2) == after.block(o2, i2));
            } else if new2 {
                assert(self.block(o1, i1) == after.block(o1, i1));
            } else {
                assert(self.block(o1, i1) == after.block(o1, i1));
                assert(self.block(o2, i2) == after.block(o2, i2));
            }
        }
        lemma_pages_update(self.lists, order, self.lists[order].push(block), 0);
        assert((self.lists[order].len() + 1) * block_pages(order as nat) == self.lists[order].len()
            * block_pages(order as nat) + block_pages(order as nat)) by (nonlinear_arith);
        assert forall|low: int, high: int|
            self.free_of(low, high) && (block + self.bytes(order as nat) <= low || high
                <= block) implies #[trigger] after.free_of(low, high) by {
            assert forall|o: int, i: int| after.holds(o, i) implies (#[trigger] after.block(o, i))
                + after.bytes(o as nat) <= low || high <= after.block(o, i) by {
                if !(o == order && i == self.lists[order].len()) {
                    assert(self.block(o, i) == after.block(o, i));
                }
            }
        }
        assert forall|address: int| #[trigger]
            after.is_free(address) <==> (self.is_free(address) || block <= address < block
                + self.bytes(order as nat)) by {
            if after.is_free(address) {
                let (o, i) = choose|o: int, i: int|
                    after.holds(o, i) && (#[trigger] after.block(o, i)) <= address < after.block(
                        o,
                        i,
                    ) + after.bytes(o as nat);
                if !(o == order && i == self.lists[order].len()) {
                    assert(self.holds(o, i) && self.block(o, i) == after.block(o, i));
                }
            }
            if self.is_free(address) {
                let (o, i) = choose|o: int, i: int|
                    self.holds(o, i) && (#[trigger] self.block(o, i)) <= address < self.block(
                        o,
                        i,
                    ) + self.bytes(o as nat);
                assert(after.holds(o, i) && after.block(o, i) == self.block(o, i));
            }
            if block <= address < block + self.bytes(order as nat) {
                let i = self.lists[order].len() as int;
                assert(after.holds(order, i) && after.block(order, i) == block);
            }
        }
    }

    /// Removing a free block keeps the invariant, takes the block's pages away, and leaves
    /// the block's range free of free blocks.
    pub proof fn lemma_remove(self, order: int, index: int)
        requires
            self.well_formed(),
            self.holds(order, index),
        ensures
            self.remove(order, index).well_formed(),
            self.remove(order, index).total_pages_free() + block_pages(order as nat)
                == self.total_pages_free(),
            self.remove(order, index).free_of(
                self.block(order, index) as int,
                self.block(order, index) + self.bytes(order as nat),
            ),
            forall|low: int, high: int|
                self.free_of(low, high) ==> #[trigger] self.remove(order, index).free_of(
                    low,
                    high,
                ),
            forall|address: int|
                #[trigger] self.remove(order, index).is_free(address) <==> self.is_free(address)
                    && !(self.block(order, index) <= address < self.block(order, index)
                    + self.bytes(order as nat)),
    {
        let after = self.remove(order, index);
        let gone = self.block(order, index);
        assert forall|o: int, i: int| after.holds(o, i) implies (if o == order && i >= index {
            self.holds(o, i + 1) && after.block(o, i) == self.block(o, i + 1)
        } else {
            self.holds(o, i) && after.block(o, i) == self.block(o, i)
        }) by {}
        assert forall|o: int, i: int| after.holds(o, i) implies after.in_bounds(
            o as nat,
            #[trigger] after.block(o, i),
        ) by {
            if o == order && i >= index {
                assert(self.in_bounds(o as nat, self.block(o, i + 1)));
            } else {
                assert(self.in_bounds(o as nat, self.block(o, i)));
            }
        }
        assert forall|o1: int, i1: int, o2: int, i2: int|
            after.holds(o1, i1) && after.holds(o2, i2) && !(o1 == o2 && i1 == i2) implies (
        #[trigger] after.block(o1, i1)) + after.bytes(o1 as nat) <= (#[trigger] after.block(o2, i2))
            || after.block(o2, i2) + after.bytes(o2 as nat) <= after.block(o1, i1) by {
            let j1 = if o1 == order && i1 >= index {
                i1 + 1
            } else {
                i1
            };
            let j2 = if o2 == order && i2 >= index {
                i2 + 1
            } else {
                i2
            };
            assert(self.block(o1, j1) == after.block(o1, i1));
            assert(self.block(o2, j2) == after.block(o2, i2));
        }
        lemma_pages_update(self.lists, order, self.lists[order].remove(index), 0);
        assert((self.lists[order].len() - 1) * block_pages(order as nat) + block_pages(
            order as nat,
        ) == self.lists[order].len() * block_pages(order as nat)) by (nonlinear_arith);
        assert forall|o: int, i: int| after.holds(o, i) implies (#[trigger] after.block(o, i))
            + after.bytes(o as nat) <= gone || gone + self.bytes(order as nat) <= after.block(
            o,
            i,
        ) by {
            let j = if o == order && i >= index {
                i + 1
            } else {
                i
            };
            assert(self.block(o, j) == after.block(o, i));
            assert(self.block(order, index) == gone);
        }
        assert forall|low: int, high: int| self.free_of(low, high) implies #[trigger] after.free_of(
            low,
            high,
        ) by {
            assert forall|o: int, i: int| after.holds(o, i) implies (#[trigger] after.block(o, i))
                + after.bytes(o as nat) <= low || high <= after.block(o, i) by {
                let j = if o == order && i >= index {
                    i + 1
                } else {
                    i
                };
                assert(self.block(o, j) == after.block(o, i));
            }
        }
        assert forall|address: int| #[trigger]
            after.is_free(address) <==> self.is_free(address) && !(gone <= address < gone
                + self.bytes(order as nat)) by {
            if after.is_free(address) {
                let (o, i) = choose|o: int, i: int|
                    after.holds(o, i) && (#[trigger] after.block(o, i)) <= address < after.block(
                        o,
                        i,
                    ) + after.bytes(o as nat);
                let j = if o == order && i >= index {
                    i + 1
                } else {
                    i
                };
                assert(self.holds(o, j) && self.block(o, j) == after.block(o, i));
            }
            if self.is_free(address) && !(gone <= address < gone + self.bytes(order as nat)) {
                let (o, j) = choose|o: int, j: int|
                    self.holds(o, j) && (#[trigger] self.block(o, j)) <= address < self.block(o, j)
                        + self.bytes(o as nat);
                let i = if o == order && j > index {
                    j - 1
                } else {
                    j
                };
                assert(after.holds(o, i) && after.block(o, i) == self.block(o, j));
            }
        }
    }

    /// Splitting a block that lies in the managed region and in no free block keeps the
    /// invariant, frees all of the block but its lowest part, and leaves that part free of
    /// free blocks.
    pub proof fn lemma_split(self, block: u64, from: nat, to: nat)
        requires
            self.well_formed(),
            to <= from < self.lists.len(),
            self.in_bounds(from, block),
            self.free_of(block as int, block + self.bytes(from)),
        ensures
            self.split(block, from, to).well_formed(),
            self.split(block, from, to).free_of(block as int, block + self.bytes(to)),
            self.split(block, from, to).total_pages_free() + block_pages(to)
                == self.total_pages_free() + block_pages(from),
            self.split(block, from, to).same_region(self),
            self.in_bounds(to, block),
            forall|address: int|
                #[trigger] self.split(block, from, to).is_free(address) <==> self.is_free(address)
                    || block + self.bytes(to) <= address < block + self.bytes(from),
            forall|low: int, high: int|
                self.free_of(low, high) && (block + self.bytes(from) <= low || high <= block)
                    ==> #[trigger] self.split(block, from, to).free_of(low, high),
        decreases from,
    {
        if from > to {
            let lower = (from - 1) as nat;
            lemma_block_bytes(self.page_size, lower);
            let upper_half = (block + self.bytes(lower)) as u64;
            assert(self.in_bounds(lower, upper_half)) by {
                lemma_aligned_sum(self.page_size, block, self.bytes(lower));
            }
            assert(self.free_of(upper_half as int, upper_half + self.bytes(lower))) by {
                assert forall|o: int, i: int| self.holds(o, i) implies (#[trigger] self.block(o, i))
                    + self.bytes(o as nat) <= upper_half || upper_half + self.bytes(lower)
                    <= self.block(o, i) by {}
            }
            self.lemma_push(lower as int, upper_half);
            let next = self.push(lower as int, upper_half);
            assert(next.free_of(block as int, block + next.bytes(lower)));
            next.lemma_split(block, lower, to);
            assert forall|low: int, high: int|
                self.free_of(low, high) && (block + self.bytes(from) <= low || high
                    <= block) implies #[trigger] self.split(block, from, to).free_of(low, high) by {
                assert(next.free_of(low, high));
            }
        }
    }

    /// Where a block is found in a list, the block is there; where it is not found, it is
    /// nowhere in the list.
    pub proof fn lemma_position(list: Seq<u64>, block: u64)
        ensures
            0 <= position(list, block) <= list.len(),
            position(list, block) < list.len() ==> list[position(list, block)] == block,
            forall|i: int| 0 <= i < position(list, block) ==> list[i] != block,
        decreases list.len(),
    {
        if list.len() > 0 && list[0] != block {
            Self::lemma_position(list.skip(1), block);
            assert forall|i: int| 0 <= i < position(list, block) implies list[i] != block by {
                if i > 0 {
                    assert(list.skip(1)[i - 1] == list[i]);
                }
            }
        }
    }

    /// Freeing a block that lies in the managed region and in no free block keeps the
    /// invariant, and makes exactly the block's range free in addition to what was free.
    pub proof fn lemma_coalesce(self, block: u64, order: nat)
        requires
            self.well_formed(),
            order < self.lists.len(),
            self.in_bounds(order, block),
            self.free_of(block as int, block + self.bytes(order)),
        ensures
            self.coalesce(block, order).well_formed(),
            self.coalesce(block, order).same_region(self),
            self.coalesce(block, order).total_pages_free() == self.total_pages_free()
                + block_pages(order),
            forall|address: int|
                #[trigger] self.coalesce(block, order).is_free(address) <==> self.is_free(address)
                    || block <= address < block + self.bytes(order),
            forall|low: int, high: int|
                low < high && self.free_of(low, high) && (block + self.bytes(order) <= low || high
                    <= block) ==> #[trigger] self.coalesce(block, order).free_of(low, high),
        decreases self.lists.len() - order,
    {
        let buddy = self.buddy_of(block, order);
        let list = self.lists[order as int];
        let at = position(list, buddy);
        let size = self.bytes(order);
        Self::lemma_position(list, buddy);
        lemma_block_bytes(self.page_size, order);
        if order + 1 < self.lists.len() && at < list.len() {
            assert(self.holds(order as int, at) && self.block(order as int, at) == buddy);
            assert(self.in_bounds(order, buddy));
            lemma_buddy_adjacent(
                (block - self.base) as u64,
                size,
                (page_shift(self.page_size) + order) as u64,
            );
            self.lemma_remove(order as int, at);
            let rest = self.remove(order as int, at);
            let merged = if block <= buddy {
                block
            } else {
                buddy
            };
            assert(rest.free_of(merged as int, merged + rest.bytes(order + 1))) by {
                assert(rest.free_of(block as int, block + size));
                assert(rest.free_of(buddy as int, buddy + size));
                assert forall|o: int, i: int| rest.holds(o, i) implies (#[trigger] rest.block(o, i))
                    + rest.bytes(o as nat) <= merged || merged + rest.bytes(order + 1)
                    <= rest.block(o, i) by {
                    lemma_block_bytes(self.page_size, o as nat);
                }
            }
            rest.lemma_coalesce(merged, order + 1);
            lemma_block_bytes(self.page_size, order + 1);
            assert forall|low: int, high: int|
                low < high && self.free_of(low, high) && (block + self.bytes(order) <= low || high
                    <= block) implies #[trigger] self.coalesce(block, order).free_of(low, high) by {
                assert(rest.free_of(low, high));
                assert(self.block(order as int, at) + self.bytes(order) <= low || high
                    <= self.block(order as int, at));
                assert(merged + rest.bytes(order + 1) <= low || high <= merged);
                assert(rest.coalesce(merged, order + 1).free_of(low, high));
            }
        } else {
            self.lemma_push(order as int, block);
        }
    }

    /// An allocation keeps the invariant. Where it succeeds, the block that it hands out
    /// lies in the managed region, was free before and is not free after, nothing else
    /// changes from free to allocated or back, and the free pages are fewer by the pages
    /// of the block. Where it fails, nothing changes.
    pub proof fn lemma_allocate(self, num_pages: usize)
        requires
            self.well_formed(),
        ensures
            self.allocate(num_pages).0.well_formed(),
            self.allocate(num_pages).0.same_region(self),
            self.allocate(num_pages).1 is Err ==> self.allocate(num_pages).0 == self,
            self.allocate(num_pages).1 is Ok ==> {
                let after = self.allocate(num_pages).0;
                let block = self.allocate(num_pages).1->Ok_0;
                let order = order_for(num_pages as u64);
                &&& order < self.lists.len()
                &&& self.in_bounds(order, block)
                &&& after.free_of(block as int, block + self.bytes(order))
                &&& after.total_pages_free() + block_pages(order) == self.total_pages_free()
                &&& forall|address: int|
                    #[trigger] after.is_free(address) <==> self.is_free(address) && !(block
                        <= address < block + self.bytes(order))
                &&& forall|low: int, high: int|
                    self.free_of(low, high) ==> #[trigger] after.free_of(low, high)
            },
    {
        let order = order_for(num_pages as u64);
        if num_pages != 0 && order < self.lists.len() && self.first_fit(order) < self.lists.len() {
            self.lemma_first_fit(order);
            let actual = self.first_fit(order);
            let top = self.lists[actual as int].len() - 1;
            let block = self.lists[actual as int].last();
            assert(self.holds(actual as int, top) && self.block(actual as int, top) == block);
            self.lemma_remove(actual as int, top);
            let rest = self.remove(actual as int, top);
            assert(rest.in_bounds(actual, block));
            rest.lemma_split(block, actual, order);
            let after = rest.split(block, actual, order);
            assert forall|address: int| #[trigger]
                after.is_free(address) <==> self.is_free(address) && !(block <= address < block
                    + self.bytes(order)) by {
                assert(after.is_free(address) <==> rest.is_free(address) || block + self.bytes(
                    order,
                ) <= address < block + self.bytes(actual));
                assert(rest.is_free(address) <==> self.is_free(address) && !(block <= address
                    < block + self.bytes(actual)));
                if block <= address < block + self.bytes(actual) {
                    assert(self.is_free(address));
                }
            }
            assert forall|low: int, high: int| self.free_of(low, high) implies #[trigger] after.free_of(
                low,
                high,
            ) by {
                assert(rest.free_of(low, high));
                assert(self.block(actual as int, top) + self.bytes(actual) <= low || high
                    <= self.block(actual as int, top));
            }
        }
    }

    /// Where pages are free in the lists from an order on, one of those lists has a block.
    pub proof fn lemma_some_fit(self, order: nat)
        requires
            pages_from(self.lists, order) > 0,
        ensures
            self.first_fit(order) < self.lists.len(),
        decreases self.lists.len() - order,
    {
        if order < self.lists.len() && self.lists[order as int].len() == 0 {
            assert(self.lists[order as int].len() * block_pages(order) == 0) by (nonlinear_arith)
                requires
                    self.lists[order as int].len() == 0,
            ;
            self.lemma_some_fit(order + 1);
        }
    }

    /// A request for one page is granted where a page is free, and takes one page.
    pub proof fn lemma_allocate_one(self)
        requires
            self.well_formed(),
        ensures
            self.total_pages_free() >= 1 ==> self.allocate(1).1 is Ok && self.allocate(
                1,
            ).0.total_pages_free() == self.total_pages_free() - 1 && self.allocate(1).1->Ok_0
                < self.end,
            self.allocate(1).0.total_pages_free() + 1 >= self.total_pages_free(),
    {
        assert((1u64 << 0u64) == 1) by (bit_vector);
        assert(order_for(1) == 0);
        self.lemma_allocate(1);
        lemma_block_bytes(self.page_size, 0);
        if self.total_pages_free() >= 1 {
            self.lemma_some_fit(0);
        }
    }

    /// The first fit from an order on is an order from there on, and a list with a free
    /// block if it is an order at all.
    pub proof fn lemma_first_fit(self, order: nat)
        ensures
            order <= self.first_fit(order),
            self.first_fit(order) < self.lists.len() ==> self.lists[self.first_fit(
                order,
            ) as int].len() > 0,
            forall|k: int| order <= k < self.first_fit(order) && k < self.lists.len() ==> (
            #[trigger] self.lists[k]).len() == 0,
        decreases self.lists.len() - order,
    {
        if order < self.lists.len() && self.lists[order as int].len() == 0 {
            self.lemma_first_fit(order + 1);
        }
    }

    /// Freeing keeps the invariant. Where it succeeds, the block's range is free after it,
    /// nothing else changes from free to allocated or back, and the free pages are more by
    /// the pages of the block. Where it fails, nothing changes.
    pub proof fn lemma_free(self, pages: u64, num_pages: usize)
        requires
            self.well_formed(),
        ensures
            self.free(pages, num_pages).0.well_formed(),
            self.free(pages, num_pages).0.same_region(self),
            self.free(pages, num_pages).1 is Err ==> self.free(pages, num_pages).0 == self,
            self.free(pages, num_pages).1 is Ok ==> {
                let after = self.free(pages, num_pages).0;
                let order = order_for(num_pages as u64);
                &&& after.total_pages_free() == self.total_pages_free() + block_pages(order)
                &&& forall|address: int|
                    #[trigger] after.is_free(address) <==> self.is_free(address) || pages
                        <= address < pages + self.bytes(order)
                &&& forall|low: int, high: int|
                    low < high && self.free_of(low, high) && (pages + self.bytes(order) <= low
                        || high <= pages) ==> #[trigger] after.free_of(low, high)
            },
    {
        if self.free(pages, num_pages).1 is Ok {
            self.lemma_coalesce(pages, order_for(num_pages as u64));
        }
    }

    /// Freeing a block right after it has been
    /// allocated succeeds, and leaves as many pages free as were free before the
    /// allocation, and the same addresses.
    pub proof fn lemma_allocate_then_free(self, num_pages: usize)
        requires
            self.well_formed(),
            self.base > 0,
            self.allocate(num_pages).1 is Ok,
        ensures
            ({
                let after = self.allocate(num_pages).0;
                let block = self.allocate(num_pages).1->Ok_0;
                &&& after.free(block, num_pages).1 is Ok
                &&& after.free(block, num_pages).0.total_pages_free() == self.total_pages_free()
                &&& forall|address: int|
                    #[trigger] after.free(block, num_pages).0.is_free(address) <==> self.is_free(
                        address,
                    )
            }),
    {
        let after = self.allocate(num_pages).0;
        let block = self.allocate(num_pages).1->Ok_0;
        let order = order_for(num_pages as u64);
        self.lemma_allocate(num_pages);
        lemma_block_bytes(self.page_size, order);
        after.lemma_free(block, num_pages);
        assert forall|address: int| #[trigger]
            after.free(block, num_pages).0.is_free(address) <==> self.is_free(address) by {
            if block <= address < block + self.bytes(order) {
                let actual = self.first_fit(order);
                self.lemma_first_fit(order);
                let top = self.lists[actual as int].len() - 1;
                assert(self.holds(actual as int, top));
                assert(self.block(actual as int, top) == block);
                lemma_block_sizes_ordered(self.page_size, order, actual);
            }
        }
    }

    /// Freeing a block that has just been freed is refused
    /// as unknown, and changes nothing. So is freeing any block of which a part is free.
    pub proof fn lemma_double_free(self, pages: u64, num_pages: usize)
        requires
            self.well_formed(),
            self.free(pages, num_pages).1 is Ok,
        ensures
            self.free(pages, num_pages).0.free(pages, num_pages) == (
                self.free(pages, num_pages).0,
                Err::<(), Error>(Error::UnknownPtr),
            ),
    {
        let after = self.free(pages, num_pages).0;
        let order = order_for(num_pages as u64);
        self.lemma_free(pages, num_pages);
        lemma_block_bytes(self.page_size, order);
        assert(after.is_free(pages as int));
        after.lemma_free_part_refused(pages, num_pages, pages as int);
    }

    /// Freeing a block of which some address is free is refused as unknown.
    pub proof fn lemma_free_part_refused(self, pages: u64, num_pages: usize, address: int)
        requires
            self.is_free(address),
            pages <= address < pages + self.bytes(order_for(num_pages as u64)),
            num_pages > 0,
            order_for(num_pages as u64) < self.lists.len(),
            pages != 0,
        ensures
            self.free(pages, num_pages) == (self, Err::<(), Error>(Error::UnknownPtr)),
    {
        let order = order_for(num_pages as u64);
        let (o, i) = choose|o: int, i: int|
            self.holds(o, i) && (#[trigger] self.block(o, i)) <= address < self.block(o, i)
                + self.bytes(o as nat);
        if self.free_of(pages as int, pages + self.bytes(order)) {
            assert(self.block(o, i) + self.bytes(o as nat) <= pages || pages + self.bytes(order)
                <= self.block(o, i));
        }
    }
}

/// The number of pages of the blocks of the allocations `live`, each given by the address of
/// its block and the number of pages that were asked for.
pub open spec fn live_pages(live: Seq<(u64, usize)>) -> nat
    decreases live.len(),
{
    if live.len() == 0 {
        0
    } else {
        block_pages(order_for(live.last().1 as u64)) + live_pages(live.drop_last())
    }
}

/// The pages of allocations without one of them are fewer by the pages of that one.
pub proof fn lemma_live_pages_remove(live: Seq<(u64, usize)>, index: int)
    requires
        0 <= index < live.len(),
    ensures
        live_pages(live.remove(index)) + block_pages(order_for(live[index].1 as u64))
            == live_pages(live),
    decreases live.len(),
{
    if index == live.len() - 1 {
        assert(live.remove(index) =~= live.drop_last());
    } else {
        lemma_live_pages_remove(live.drop_last(), index);
        assert(live.remove(index).drop_last() =~= live.drop_last().remove(index));
        assert(live.remove(index).last() == live.last());
    }
}

impl BuddyModel {
    /// Whether `live` can be the allocations that have been made and not freed: each is a
    /// block of the managed region that no free block reaches into, and no two overlap.
    pub open spec fn accounts_for(self, live: Seq<(u64, usize)>) -> bool {
        &&& forall|i: int|
            0 <= i < live.len() ==> {
                let order = order_for((#[trigger] live[i]).1 as u64);
                &&& live[i].1 > 0
                &&& order < self.lists.len()
                &&& self.in_bounds(order, live[i].0)
                &&& self.free_of(live[i].0 as int, live[i].0 + self.bytes(order))
            }
        &&& forall|i: int, j: int|
            0 <= i < j < live.len() ==> (#[trigger] live[i]).0 + self.bytes(
                order_for(live[i].1 as u64),
            ) <= (#[trigger] live[j]).0 || live[j].0 + self.bytes(order_for(live[j].1 as u64))
                <= live[i].0
    }

    /// An allocation that succeeds adds its block to the allocations, and the pages that
    /// are free and the pages of the allocations are as many together as before.
    pub proof fn lemma_allocate_accounted(self, live: Seq<(u64, usize)>, num_pages: usize)
        requires
            self.well_formed(),
            self.accounts_for(live),
            self.allocate(num_pages).1 is Ok,
        ensures
            self.allocate(num_pages).0.accounts_for(
                live.push((self.allocate(num_pages).1->Ok_0, num_pages)),
            ),
            self.allocate(num_pages).0.total_pages_free() + live_pages(
                live.push((self.allocate(num_pages).1->Ok_0, num_pages)),
            ) == self.total_pages_free() + live_pages(live),
    {
        let after = self.allocate(num_pages).0;
        let block = self.allocate(num_pages).1->Ok_0;
        let order = order_for(num_pages as u64);
        let now = live.push((block, num_pages));
        self.lemma_allocate(num_pages);
        self.lemma_first_fit(order);
        let actual = self.first_fit(order);
        let top = self.lists[actual as int].len() - 1;
        assert(self.holds(actual as int, top) && self.block(actual as int, top) == block);
        lemma_block_sizes_ordered(self.page_size, order, actual);
        assert(now.drop_last() =~= live);
        assert forall|i: int| 0 <= i < now.len() implies {
            let o = order_for((#[trigger] now[i]).1 as u64);
            &&& now[i].1 > 0
            &&& o < after.lists.len()
            &&& after.in_bounds(o, now[i].0)
            &&& after.free_of(now[i].0 as int, now[i].0 + after.bytes(o))
        } by {
            if i < live.len() {
                assert(now[i] == live[i]);
                let o = order_for(live[i].1 as u64);
                assert(self.free_of(live[i].0 as int, live[i].0 + self.bytes(o)));
            }
        }
        assert forall|i: int, j: int| 0 <= i < j < now.len() implies (#[trigger] now[i]).0
            + after.bytes(order_for(now[i].1 as u64)) <= (#[trigger] now[j]).0 || now[j].0
            + after.bytes(order_for(now[j].1 as u64)) <= now[i].0 by {
            assert(now[i] == live[i]);
            if j < live.len() {
                assert(now[j] == live[j]);
            } else {
                let o = order_for(live[i].1 as u64);
                assert(self.free_of(live[i].0 as int, live[i].0 + self.bytes(o)));
                assert(self.block(actual as int, top) + self.bytes(actual) <= live[i].0
                    || live[i].0 + self.bytes(o) <= self.block(actual as int, top));
            }
        }
    }

    /// Each allocation can be freed, whatever the order; freeing it takes its block from
    /// the allocations, and the pages that are free and the pages of the allocations are
    /// as many together as before.
    pub proof fn lemma_free_accounted(self, live: Seq<(u64, usize)>, index: int)
        requires
            self.well_formed(),
            self.base > 0,
            self.accounts_for(live),
            0 <= index < live.len(),
        ensures
            self.free(live[index].0, live[index].1).1 is Ok,
            self.free(live[index].0, live[index].1).0.accounts_for(live.remove(index)),
            self.free(live[index].0, live[index].1).0.total_pages_free() + live_pages(
                live.remove(index),
            ) == self.total_pages_free() + live_pages(live),
    {
        let block = live[index].0;
        let num_pages = live[index].1;
        let order = order_for(num_pages as u64);
        let after = self.free(block, num_pages).0;
        let rest = live.remove(index);
        lemma_block_bytes(self.page_size, order);
        self.lemma_free(block, num_pages);
        lemma_live_pages_remove(live, index);
        assert forall|i: int| 0 <= i < rest.len() implies {
            let o = order_for((#[trigger] rest[i]).1 as u64);
            &&& rest[i].1 > 0
            &&& o < after.lists.len()
            &&& after.in_bounds(o, rest[i].0)
            &&& after.free_of(rest[i].0 as int, rest[i].0 + after.bytes(o))
        } by {
            let k = if i < index {
                i
            } else {
                i + 1
            };
            assert(rest[i] == live[k]);
            let o = order_for(live[k].1 as u64);
            lemma_block_bytes(self.page_size, o);
            assert(self.free_of(live[k].0 as int, live[k].0 + self.bytes(o)));
            if k < index {
                assert(live[k].0 + self.bytes(o) <= live[index].0 || live[index].0 + self.bytes(
                    order,
                ) <= live[k].0);
            } else {
                assert(live[index].0 + self.bytes(order) <= live[k].0 || live[k].0 + self.bytes(o)
                    <= live[index].0);
            }
        }
        assert forall|i: int, j: int| 0 <= i < j < rest.len() implies (#[trigger] rest[i]).0
            + after.bytes(order_for(rest[i].1 as u64)) <= (#[trigger] rest[j]).0 || rest[j].0
            + after.bytes(order_for(rest[j].1 as u64)) <= rest[i].0 by {
            let a = if i < index {
                i
            } else {
                i + 1
            };
            let b = if j < index {
                j
            } else {
                j + 1
            };
            assert(rest[i] == live[a]);
            assert(rest[j] == live[b]);
        }
    }
}

impl BuddyModel {
    /// The allocator after the requests `requests` for pages have been served one after the
    /// other, with the allocations that they gave, in their order; `None` if one of the
    /// requests was refused.
    pub open spec fn allocate_all(self, requests: Seq<usize>) -> Option<
        (BuddyModel, Seq<(u64, usize)>),
    >
        decreases requests.len(),
    {
        if requests.len() == 0 {
            Some((self, Seq::empty()))
        } else {
            match self.allocate_all(requests.drop_last()) {
                None => None,
                Some((before, live)) => match before.allocate(requests.last()) {
                    (after, Ok(block)) => Some((after, live.push((block, requests.last())))),
                    _ => None,
                },
            }
        }
    }

    /// The allocator after the allocations `live` have been freed one after the other, in
    /// the order that `picks` gives: each pick is the index, among the allocations that are
    /// left, of the allocation to free next. `None` if the allocator refused to free one of
    /// them, or `picks` picks none that is left.
    pub open spec fn free_all(self, live: Seq<(u64, usize)>, picks: Seq<int>) -> Option<BuddyModel>
        decreases live.len(),
    {
        if live.len() == 0 {
            Some(self)
        } else if picks.len() == 0 || !(0 <= picks[0] < live.len()) {
            None
        } else {
            match self.free(live[picks[0]].0, live[picks[0]].1) {
                (after, Ok(_)) => after.free_all(live.remove(picks[0]), picks.skip(1)),
                _ => None,
            }
        }
    }

    /// Allocations that succeed one after the other are accounted for: the pages that are
    /// free after them and the pages that they hold are as many together as were free
    /// before.
    pub proof fn lemma_allocate_all(self, requests: Seq<usize>)
        requires
            self.well_formed(),
            self.allocate_all(requests) is Some,
        ensures
            self.allocate_all(requests).unwrap().0.well_formed(),
            self.allocate_all(requests).unwrap().0.same_region(self),
            self.allocate_all(requests).unwrap().0.accounts_for(
                self.allocate_all(requests).unwrap().1,
            ),
            self.allocate_all(requests).unwrap().1.len() == requests.len(),
            self.allocate_all(requests).unwrap().0.total_pages_free() + live_pages(
                self.allocate_all(requests).unwrap().1,
            ) == self.total_pages_free(),
        decreases requests.len(),
    {
        if requests.len() > 0 {
            self.lemma_allocate_all(requests.drop_last());
            let (before, live) = self.allocate_all(requests.drop_last())->0;
            before.lemma_allocate(requests.last());
            before.lemma_allocate_accounted(live, requests.last());
        }
    }

    /// Allocations that are accounted for can be freed one after the other in any order:
    /// the allocator refuses none, and the pages that are free afterwards are the pages
    /// that were free and the pages that the allocations held.
    pub proof fn lemma_free_all(self, live: Seq<(u64, usize)>, picks: Seq<int>)
        requires
            self.well_formed(),
            self.base > 0,
            self.accounts_for(live),
            picks.len() == live.len(),
            forall|k: int| 0 <= k < picks.len() ==> 0 <= #[trigger] picks[k] < picks.len() - k,
        ensures
            self.free_all(live, picks) is Some,
            self.free_all(live, picks)->0.well_formed(),
            self.free_all(live, picks)->0.total_pages_free() == self.total_pages_free()
                + live_pages(live),
        decreases live.len(),
    {
        if live.len() > 0 {
            let index = picks[0];
            self.lemma_free_accounted(live, index);
            self.lemma_free(live[index].0, live[index].1);
            let after = self.free(live[index].0, live[index].1).0;
            let rest = picks.skip(1);
            assert forall|k: int| 0 <= k < rest.len() implies 0 <= #[trigger] rest[k] < rest.len()
                - k by {
                assert(rest[k] == picks[k + 1]);
            }
            after.lemma_free_all(live.remove(index), rest);
        }
    }

    /// Whatever the requests that the allocator has served one after the other, once each
    /// of the allocations has been freed, in any order, as many pages are free as were
    /// free before the first request.
    pub proof fn lemma_round_trip(self, requests: Seq<usize>, picks: Seq<int>)
        requires
            self.well_formed(),
            self.base > 0,
            self.allocate_all(requests) is Some,
            picks.len() == requests.len(),
            forall|k: int| 0 <= k < picks.len() ==> 0 <= #[trigger] picks[k] < picks.len() - k,
        ensures
            self.allocate_all(requests).unwrap().0.free_all(
                self.allocate_all(requests).unwrap().1,
                picks,
            ) is Some,
            self.allocate_all(requests).unwrap().0.free_all(
                self.allocate_all(requests).unwrap().1,
                picks,
            )->0.total_pages_free() == self.total_pages_free(),
    {
        self.lemma_allocate_all(requests);
        let (after, live) = self.allocate_all(requests)->0;
        after.lemma_free_all(live, picks);
    }
}

/// A block of a larger order is at least as large.
pub proof fn lemma_block_sizes_ordered(page_size: PageSize, low: nat, high: nat)
    requires
        low <= high <= ORDER_LIMIT,
    ensures
        block_bytes(page_size, low) <= block_bytes(page_size, high),
{
    let a = low as u64;
    let b = high as u64;
    assert((1u64 << (12u64 + a)) <= (1u64 << (12u64 + b)) && (1u64 << (14u64 + a)) <= (1u64 << (
    14u64 + b))) by (bit_vector)
        requires
            a <= b <= 32,
    ;
}


impl BuddyModel {
    /// The lists after the range of `remaining` bytes at `start` has been added: the range
    /// is cut into blocks from its start on, the largest blocks first, from order `order`
    /// down, and what is left at the end of it and is less than a page stays out.
    pub open spec fn seed(self, start: u64, remaining: u64, order: nat) -> BuddyModel
        decreases order, remaining,
    {
        if remaining >= self.bytes(order) && self.bytes(order) > 0 {
            self.push(order as int, start).seed(
                (start + self.bytes(order)) as u64,
                (remaining - self.bytes(order)) as u64,
                order,
            )
        } else if order == 0 {
            self
        } else {
            self.seed(start, remaining, (order - 1) as nat)
        }
    }

    /// Adding a range that lies in the managed region and in no free block keeps the
    /// invariant, and makes exactly the whole pages of the range free in addition to what
    /// was free.
    pub proof fn lemma_seed(self, start: u64, remaining: u64, order: nat)
        requires
            self.well_formed(),
            order < self.lists.len(),
            self.base <= start,
            start + remaining <= self.end,
            start % (self.page_size.spec_bytes() as u64) == 0,
            self.free_of(start as int, start + remaining),
        ensures
            self.seed(start, remaining, order).well_formed(),
            self.seed(start, remaining, order).same_region(self),
            forall|address: int|
                #[trigger] self.seed(start, remaining, order).is_free(address) ==> self.is_free(
                    address,
                ) || start <= address < start + remaining,
            forall|address: int|
                self.is_free(address) ==> #[trigger] self.seed(start, remaining, order).is_free(
                    address,
                ),
            forall|low: int, high: int|
                self.free_of(low, high) && (start + remaining <= low || high <= start)
                    ==> #[trigger] self.seed(start, remaining, order).free_of(low, high),
        decreases order, remaining,
    {
        lemma_block_bytes(self.page_size, order);
        let size = self.bytes(order);
        if remaining >= size {
            assert(self.free_of(start as int, start + size)) by {
                assert forall|o: int, i: int| self.holds(o, i) implies (#[trigger] self.block(o, i))
                    + self.bytes(o as nat) <= start || start + size <= self.block(o, i) by {}
            }
            self.lemma_push(order as int, start);
            let next = self.push(order as int, start);
            let next_start = (start + size) as u64;
            lemma_aligned_sum(self.page_size, start, size);
            assert(next.free_of(next_start as int, next_start + (remaining - size)));
            next.lemma_seed(next_start, (remaining - size) as u64, order);
            let after = next.seed(next_start, (remaining - size) as u64, order);
            assert forall|low: int, high: int|
                self.free_of(low, high) && (start + remaining <= low || high
                    <= start) implies #[trigger] self.seed(start, remaining, order).free_of(
                low,
                high,
            ) by {
                assert(next.free_of(low, high));
            }
        } else if order > 0 {
            self.lemma_seed(start, remaining, (order - 1) as nat);
        }
    }

    /// Adding a range frees all of its whole pages: the free pages are more by the number
    /// of whole pages in the range.
    pub proof fn lemma_seed_pages(self, start: u64, remaining: u64, order: nat)
        requires
            order < self.lists.len() <= ORDER_LIMIT,
        ensures
            self.seed(start, remaining, order).total_pages_free() == self.total_pages_free()
                + remaining / (self.page_size.spec_bytes() as u64),
        decreases order, remaining,
    {
        lemma_block_bytes(self.page_size, order);
        let size = self.bytes(order);
        let page = self.page_size.spec_bytes() as u64;
        if remaining >= size {
            let next = self.push(order as int, start);
            lemma_pages_update(self.lists, order as int, self.lists[order as int].push(start), 0);
            assert((self.lists[order as int].len() + 1) * block_pages(order)
                == self.lists[order as int].len() * block_pages(order) + block_pages(order))
                by (nonlinear_arith);
            next.lemma_seed_pages((start + size) as u64, (remaining - size) as u64, order);
            assert(remaining / page == (remaining - size) as u64 / page + block_pages(order))
                by (nonlinear_arith)
                requires
                    size == page * block_pages(order),
                    remaining >= size,
                    page > 0,
            ;
        } else if order > 0 {
            self.lemma_seed_pages(start, remaining, (order - 1) as nat);
        } else {
            assert(1u64 << 0u64 == 1) by (bit_vector);
            assert(size == page) by (nonlinear_arith)
                requires
                    size == page * block_pages(order),
                    block_pages(order) == 1,
            ;
            assert(remaining / page == 0) by (nonlinear_arith)
                requires
                    remaining < page,
                    page > 0,
            ;
        }
    }
}

/// Page allocator that uses the buddy memory allocation algorithm to allocate pages of
/// physical memory.
///
/// `MAX_ORDER` is the number of orders: the largest block that the allocator manages has
/// `2^(MAX_ORDER - 1)` pages.
pub struct BuddyPageAllocator<const MAX_ORDER: usize> {
    base_addr: u64,
    end_addr: u64,
    page_size: PageSize,
    free_blocks: Vec<Vec<u64>>,
}

impl<const MAX_ORDER: usize> View for BuddyPageAllocator<MAX_ORDER> {
    type V = BuddyModel;

    closed spec fn view(&self) -> BuddyModel {
        BuddyModel {
            page_size: self.page_size,
            base: self.base_addr,
            end: self.end_addr,
            lists: Seq::new(self.free_blocks@.len(), |order: int| self.free_blocks@[order]@),
        }
    }
}

/// The number of address bits inside a page of size `page_size`.
fn shift_of(page_size: PageSize) -> (shift: u64)
    ensures
        shift == page_shift(page_size),
{
    match page_size {
        PageSize::FourKiB => 12,
        PageSize::SixteenKiB => 14,
    }
}

/// The order of the smallest block that holds `num_pages` pages; 64 if there is none.
fn order_of(num_pages: usize) -> (order: usize)
    ensures
        order == order_for(num_pages as u64),
        order <= 64,
{
    let n = num_pages as u64;
    let mut order: u64 = 0;
    while order < 64 && (1u64 << order) < n
        invariant
            order <= 64,
            order_from(n, order as nat) == order_for(n),
        decreases 64 - order,
    {
        order = order + 1;
    }
    order as usize
}

/// The index of the first occurrence of `block` in `list`, or the length of `list`.
fn position_of(list: &Vec<u64>, block: u64) -> (index: usize)
    ensures
        index == position(list@, block),
{
    let mut index: usize = 0;
    proof {
        assert(list@.skip(0) =~= list@);
    }
    while index < list.len() && list[index] != block
        invariant
            index <= list@.len(),
            position(list@, block) == index + position(list@.skip(index as int), block),
        decreases list@.len() - index,
    {
        proof {
            assert(list@.skip(index as int).skip(1) =~= list@.skip(index as int + 1));
        }
        index = index + 1;
    }
    index
}

impl<const MAX_ORDER: usize> BuddyPageAllocator<MAX_ORDER> {
    /// The invariant of the allocator: that of its free lists, with one list for each of
    /// the `MAX_ORDER` orders, over a region that does not start at address zero.
    pub closed spec fn consistent(&self) -> bool {
        &&& self@.well_formed()
        &&& self.free_blocks@.len() == MAX_ORDER
        &&& self.base_addr > 0
    }

    /// What the invariant says, over the view.
    pub proof fn lemma_consistent(&self)
        requires
            self.consistent(),
        ensures
            self@.well_formed(),
            self@.lists.len() == MAX_ORDER,
            self@.base > 0,
    {
    }

    /// Create a new allocator that will allocate memory from the region at `memory_start`
    /// of length `memory_length` bytes.
    /// The memory start address must be page aligned, and the region must contain a whole
    /// number of pages and lie in the physical address space.
    /// The allocator will start with no actual memory in the free pool, memory must be
    /// added with [`Self::add_memory_region`].
    pub fn new(page_size: PageSize, memory_start: u64, memory_length: usize) -> (allocator: Self)
        requires
            1 <= MAX_ORDER <= ORDER_LIMIT,
            memory_start > 0,
            memory_start % (page_size.spec_bytes() as u64) == 0,
            memory_length % page_size.spec_bytes() == 0,
            memory_start + memory_length < KERNEL_TAG,
        ensures
            allocator.consistent(),
            allocator@.page_size == page_size,
            allocator@.base == memory_start,
            allocator@.end == memory_start + memory_length,
            allocator@.lists == Seq::new(MAX_ORDER as nat, |order: int| Seq::<u64>::empty()),
            allocator@.total_pages_free() == 0,
            forall|address: int| !allocator@.is_free(address),
    {
        let mut free_blocks: Vec<Vec<u64>> = Vec::new();
        let mut order: usize = 0;
        while order < MAX_ORDER
            invariant
                order <= MAX_ORDER,
                free_blocks@.len() == order,
                forall|k: int| 0 <= k < order ==> (#[trigger] free_blocks@[k])@.len() == 0,
            decreases MAX_ORDER - order,
        {
            free_blocks.push(Vec::new());
            order = order + 1;
        }
        let allocator = Self {
            base_addr: memory_start,
            end_addr: memory_start + memory_length as u64,
            page_size,
            free_blocks,
        };
        proof {
            assert(allocator@.lists =~~= Seq::new(MAX_ORDER as nat, |order: int| Seq::<u64>::empty()));
            lemma_no_pages(allocator@.lists, 0);
        }
        allocator
    }

    /// The number of bytes in a block of order `order`.
    fn block_size(&self, order: usize) -> (size: u64)
        requires
            order <= ORDER_LIMIT,
        ensures
            size == self@.bytes(order as nat),
    {
        1u64 << (shift_of(self.page_size) + order as u64)
    }

    /// Pop the next free block of order `order` if one exists.
    fn pop_free(&mut self, order: usize) -> (block: Option<u64>)
        requires
            order < old(self).free_blocks@.len(),
        ensures
            final(self).free_blocks@.len() == old(self).free_blocks@.len(),
            old(self)@.lists[order as int].len() == 0 ==> block is None && final(self)@ == old(
                self,
            )@,
            old(self)@.lists[order as int].len() > 0 ==> block == Some(
                old(self)@.lists[order as int].last(),
            ) && final(self)@ == old(self)@.remove(
                order as int,
                old(self)@.lists[order as int].len() - 1,
            ),
    {
        let block = self.free_blocks[order].pop();
        proof {
            let before = old(self)@;
            if before.lists[order as int].len() > 0 {
                let expected = before.remove(order as int, before.lists[order as int].len() - 1);
                assert(self@.lists =~~= expected.lists);
            } else {
                assert(self@.lists =~~= before.lists);
            }
        }
        block
    }

    /// Push the newly freed block of order `order` into the free list.
    fn push_free(&mut self, order: usize, block: u64)
        requires
            order < old(self).free_blocks@.len(),
        ensures
            final(self).free_blocks@.len() == old(self).free_blocks@.len(),
            final(self)@ == old(self)@.push(order as int, block),
    {
        self.free_blocks[order].push(block);
        proof {
            assert(self@.lists =~~= old(self)@.push(order as int, block).lists);
        }
    }

    /// Remove the block `buddy` from the free list of order `order` if it is there.
    fn try_remove_buddy(&mut self, order: usize, buddy: u64) -> (removed: bool)
        requires
            order < old(self).free_blocks@.len(),
        ensures
            final(self).free_blocks@.len() == old(self).free_blocks@.len(),
            removed == (position(old(self)@.lists[order as int], buddy) < old(
                self,
            )@.lists[order as int].len()),
            removed ==> final(self)@ == old(self)@.remove(
                order as int,
                position(old(self)@.lists[order as int], buddy),
            ),
            !removed ==> final(self)@ == old(self)@,
    {
        let index = position_of(&self.free_blocks[order], buddy);
        if index < self.free_blocks[order].len() {
            self.free_blocks[order].remove(index);
            proof {
                assert(self@.lists =~~= old(self)@.remove(order as int, index as int).lists);
            }
            true
        } else {
            proof {
                assert(self@.lists =~~= old(self)@.lists);
            }
            false
        }
    }

    /// Whether the block `block` is in the free list of order `order`.
    pub fn block_in_free_list(&self, order: usize, block: u64) -> (found: bool)
        requires
            self.consistent(),
            order < MAX_ORDER,
        ensures
            found == self@.lists[order as int].contains(block),
    {
        let index = position_of(&self.free_blocks[order], block);
        proof {
            BuddyModel::lemma_position(self@.lists[order as int], block);
        }
        index < self.free_blocks[order].len()
    }

    /// The number of blocks in the free list of order `order`.
    pub fn count_in_free_list(&self, order: usize) -> (count: usize)
        requires
            self.consistent(),
            order < MAX_ORDER,
        ensures
            count == self@.lists[order as int].len(),
    {
        self.free_blocks[order].len()
    }

    /// The number of pages that are free; the largest number there is where that is less.
    pub fn total_pages_free(&self) -> (total: usize)
        requires
            self.consistent(),
        ensures
            self@.total_pages_free() <= usize::MAX ==> total == self@.total_pages_free(),
            self@.total_pages_free() > usize::MAX ==> total == usize::MAX,
    {
        let mut total: u128 = 0;
        let mut order: usize = MAX_ORDER;
        while order > 0
            invariant
                self.consistent(),
                order <= MAX_ORDER,
                total == pages_from(self@.lists, order as nat),
                total <= (MAX_ORDER - order) * 0x1_0000_0000_0000_0000_0000_0000,
            decreases order,
        {
            order = order - 1;
            let count = self.free_blocks[order].len() as u128;
            proof {
                lemma_block_bytes(self.page_size, order as nat);
                assert((1u64 << (order as u64)) <= 0x1_0000_0000u64) by (bit_vector)
                    requires
                        order <= 32,
                ;
                assert(self@.lists[order as int].len() * block_pages(order as nat)
                    <= 0x1_0000_0000_0000_0000_0000_0000) by (nonlinear_arith)
                    requires
                        self@.lists[order as int].len() <= 0xffff_ffff_ffff_ffff,
                        block_pages(order as nat) <= 0x1_0000_0000,
                ;
            }
            let pages = (1u64 << (order as u64)) as u128;
            total = total + count * pages;
        }
        if total > usize::MAX as u128 {
            usize::MAX
        } else {
            total as usize
        }
    }

    /// Whether a free block reaches into `[low, high)`.
    fn overlaps_free(&self, low: u64, high: u64) -> (overlaps: bool)
        requires
            self.consistent(),
        ensures
            overlaps == !self@.free_of(low as int, high as int),
    {
        let mut order: usize = 0;
        while order < MAX_ORDER
            invariant
                self.consistent(),
                order <= MAX_ORDER,
                forall|o: int, i: int|
                    0 <= o < order && self@.holds(o, i) ==> (#[trigger] self@.block(o, i))
                        + self@.bytes(o as nat) <= low || high <= self@.block(o, i),
            decreases MAX_ORDER - order,
        {
            let size = self.block_size(order);
            let mut index: usize = 0;
            while index < self.free_blocks[order].len()
                invariant
                    self.consistent(),
                    order < MAX_ORDER,
                    size == self@.bytes(order as nat),
                    index <= self@.lists[order as int].len(),
                    forall|o: int, i: int|
                        0 <= o < order && self@.holds(o, i) ==> (#[trigger] self@.block(o, i))
                            + self@.bytes(o as nat) <= low || high <= self@.block(o, i),
                    forall|i: int|
                        0 <= i < index ==> (#[trigger] self@.block(order as int, i)) + size <= low
                            || high <= self@.block(order as int, i),
                decreases self@.lists[order as int].len() - index,
            {
                let block = self.free_blocks[order][index];
                proof {
                    assert(self@.holds(order as int, index as int));
                    assert(self@.block(order as int, index as int) == block);
                    assert(self@.in_bounds(order as nat, block));
                }
                if !(block + size <= low || high <= block) {
                    return true;
                }
                index = index + 1;
            }
            order = order + 1;
        }
        false
    }

    /// Split the block `block` of order `current_order` down to `desired_order`: the upper
    /// half of each split goes to the free list of its order.
    fn split_block_to_size(&mut self, block: u64, current_order: usize, desired_order: usize)
        requires
            old(self).free_blocks@.len() == MAX_ORDER,
            MAX_ORDER <= ORDER_LIMIT,
            desired_order <= current_order < MAX_ORDER,
            block + old(self)@.bytes(current_order as nat) < KERNEL_TAG,
        ensures
            final(self).free_blocks@.len() == MAX_ORDER,
            final(self)@ == old(self)@.split(block, current_order as nat, desired_order as nat),
    {
        let mut order = current_order;
        while order > desired_order
            invariant
                self.free_blocks@.len() == MAX_ORDER,
                MAX_ORDER <= ORDER_LIMIT,
                desired_order <= order <= current_order < MAX_ORDER,
                self@.page_size == old(self)@.page_size,
                block + self@.bytes(order as nat) < KERNEL_TAG,
                self@.split(block, order as nat, desired_order as nat) == old(self)@.split(
                    block,
                    current_order as nat,
                    desired_order as nat,
                ),
            decreases order,
        {
            order = order - 1;
            proof {
                lemma_block_bytes(self@.page_size, order as nat);
            }
            let new_block = block + self.block_size(order);
            self.push_free(order, new_block);
        }
    }

    /// The buddy of the block `block` of order `order`.
    fn buddy_of(&self, block: u64, order: usize) -> (buddy: u64)
        requires
            self.consistent(),
            order < MAX_ORDER,
            self@.in_bounds(order as nat, block),
        ensures
            buddy == self@.buddy_of(block, order as nat),
    {
        let offset = block - self.base_addr;
        let size = self.block_size(order);
        proof {
            lemma_block_bytes(self.page_size, order as nat);
            lemma_buddy_adjacent(offset, size, (page_shift(self.page_size) + order) as u64);
        }
        self.base_addr + (offset ^ size)
    }

    /// Adds a region of memory to the pool of memory managed by the allocator.
    /// The region does not need to be aligned: its start is moved up to a page boundary, and
    /// what is left at its end and is less than a page stays out.
    /// The region must be within the range that is managed by the allocator.
    /// Returns `false`, and adds nothing, if the region is too small to be used, or if
    /// part of its pages is free memory of the allocator already.
    ///
    /// # Arguments
    /// - `region_start`: the address of the beginning of the region.
    /// - `region_length`: the length of the region in bytes.
    pub fn add_memory_region(&mut self, region_start: u64, region_length: usize) -> (added: bool)
        requires
            old(self).consistent(),
            region_length > 0,
            old(self)@.base <= region_start < old(self)@.end,
            region_start + region_length <= old(self)@.end,
        ensures
            final(self).consistent(),
            final(self)@.same_region(old(self)@),
            added == (spec_align_up(region_start, old(self)@.page_size)
                + old(self)@.page_size.spec_bytes() <= region_start + region_length && old(
                self,
            )@.free_of(
                spec_align_up(region_start, old(self)@.page_size) as int,
                region_start + region_length,
            )),
            !added ==> final(self)@ == old(self)@,
            added ==> final(self)@ == old(self)@.seed(
                spec_align_up(region_start, old(self)@.page_size),
                (region_start + region_length - spec_align_up(
                    region_start,
                    old(self)@.page_size,
                )) as u64,
                (MAX_ORDER - 1) as nat,
            ),
            added ==> final(self)@.total_pages_free() == old(self)@.total_pages_free() + (
            region_start + region_length - spec_align_up(region_start, old(self)@.page_size)) / (
            old(self)@.page_size.spec_bytes() as int),
            forall|address: int|
                #[trigger] final(self)@.is_free(address) ==> old(self)@.is_free(address)
                    || region_start <= address < region_start + region_length,
            forall|address: int|
                old(self)@.is_free(address) ==> #[trigger] final(self)@.is_free(address),
    {
        let page_len = self.page_size.bytes() as u64;
        let region_end = region_start + region_length as u64;
        let start = align_up_to_page(region_start, self.page_size);
        if start > region_end || region_end - start < page_len {
            return false;
        }
        if self.overlaps_free(start, region_end) {
            return false;
        }
        let ghost before = self@;
        proof {
            before.lemma_seed(start, (region_end - start) as u64, (MAX_ORDER - 1) as nat);
            before.lemma_seed_pages(start, (region_end - start) as u64, (MAX_ORDER - 1) as nat);
        }
        self.seed_blocks(start, region_end - start);
        true
    }

    /// Cuts the range of `remaining` bytes at `start` into blocks, the largest first, and
    /// pushes each on the free list of its order.
    fn seed_blocks(&mut self, start: u64, remaining: u64)
        requires
            old(self).free_blocks@.len() == MAX_ORDER,
            1 <= MAX_ORDER <= ORDER_LIMIT,
            start + remaining < KERNEL_TAG,
        ensures
            final(self).free_blocks@.len() == MAX_ORDER,
            final(self).base_addr == old(self).base_addr,
            final(self)@ == old(self)@.seed(start, remaining, (MAX_ORDER - 1) as nat),
    {
        let mut block_start = start;
        let mut remaining_bytes = remaining;
        let mut order = MAX_ORDER - 1;
        loop
            invariant
                self.free_blocks@.len() == MAX_ORDER,
                self.base_addr == old(self).base_addr,
                1 <= MAX_ORDER <= ORDER_LIMIT,
                order < MAX_ORDER,
                self@.page_size == old(self)@.page_size,
                block_start + remaining_bytes < KERNEL_TAG,
                self@.seed(block_start, remaining_bytes, order as nat) == old(self)@.seed(
                    start,
                    remaining,
                    (MAX_ORDER - 1) as nat,
                ),
            decreases order, remaining_bytes,
        {
            proof {
                lemma_block_bytes(self@.page_size, order as nat);
            }
            let block_len = self.block_size(order);
            if remaining_bytes >= block_len {
                self.push_free(order, block_start);
                remaining_bytes = remaining_bytes - block_len;
                block_start = block_start + block_len;
            } else if order == 0 {
                return ;
            } else {
                order = order - 1;
            }
        }
    }
}

/// The lists of an allocator without blocks hold no pages.
proof fn lemma_no_pages(lists: Seq<Seq<u64>>, order: nat)
    requires
        forall|k: int| 0 <= k < lists.len() ==> (#[trigger] lists[k]).len() == 0,
    ensures
        pages_from(lists, order) == 0,
    decreases lists.len() - order,
{
    if order < lists.len() {
        lemma_no_pages(lists, order + 1);
        assert(lists[order as int].len() * block_pages(order) == 0) by (nonlinear_arith)
            requires
                lists[order as int].len() == 0,
        ;
    }
}

/// The first page boundary at or after `address`.
pub open spec fn spec_align_up(address: u64, page_size: PageSize) -> u64 {
    let page = page_size.spec_bytes() as u64;
    if address % page == 0 {
        address
    } else {
        (address + (page - address % page)) as u64
    }
}

/// The first page boundary at or after `address`.
fn align_up_to_page(address: u64, page_size: PageSize) -> (aligned: u64)
    requires
        address < KERNEL_TAG,
    ensures
        aligned == spec_align_up(address, page_size),
        aligned % (page_size.spec_bytes() as u64) == 0,
        address <= aligned < address + page_size.spec_bytes(),
{
    let page = page_size.bytes() as u64;
    let rest = address % page;
    if rest == 0 {
        address
    } else {
        let aligned = address + (page - rest);
        assert(aligned % page == 0) by (nonlinear_arith)
            requires
                aligned == address + (page - rest),
                rest == address % page,
                page > 0,
        ;
        aligned
    }
}

impl<const MAX_ORDER: usize> PageAllocator for BuddyPageAllocator<MAX_ORDER> {
    open spec fn well_formed(&self) -> bool {
        self.consistent()
    }

    open spec fn spec_page_size(&self) -> PageSize {
        self@.page_size
    }

    open spec fn is_free(&self, address: int) -> bool {
        self@.is_free(address)
    }

    open spec fn spare_pages(&self) -> nat {
        if self@.end <= 0x1_0000_0000_0000 {
            self@.total_pages_free()
        } else {
            0
        }
    }

    fn page_size(&self) -> (size: PageSize) {
        self.page_size
    }

    /// Allocate `num_pages` of memory: a block whose number of pages is the smallest power
    /// of two that is no less than `num_pages`.
    ///
    /// # Errors
    /// - [`Error::InvalidSize`] if `num_pages` is zero.
    /// - [`Error::OutOfMemory`] if no free block is large enough, or the allocator has no
    ///   order for such a block.
    fn allocate(&mut self, num_pages: usize) -> (r: Result<PhysicalAddress, Error>)
        ensures
            final(self)@ == old(self)@.allocate(num_pages).0,
            match old(self)@.allocate(num_pages).1 {
                Ok(block) => r is Ok && r->Ok_0.addr() == block,
                Err(e) => r == Err::<PhysicalAddress, Error>(e),
            },
    {
        proof {
            old(self)@.lemma_allocate(num_pages);
            if num_pages == 1 {
                old(self)@.lemma_allocate_one();
            }
        }
        if num_pages == 0 {
            return Err(Error::InvalidSize);
        }
        let order = order_of(num_pages);
        if order >= MAX_ORDER {
            return Err(Error::OutOfMemory);
        }
        let mut actual_order = order;
        while actual_order < MAX_ORDER && self.free_blocks[actual_order].len() == 0
            invariant
                self.consistent(),
                self == old(self),
                order <= actual_order <= MAX_ORDER,
                self@.first_fit(actual_order as nat) == self@.first_fit(order as nat),
            decreases MAX_ORDER - actual_order,
        {
            actual_order = actual_order + 1;
        }
        if actual_order >= MAX_ORDER {
            return Err(Error::OutOfMemory);
        }
        let ghost before = self@;
        let free_block = match self.pop_free(actual_order) {
            Some(block) => block,
            None => {
                return Err(Error::OutOfMemory);
            },
        };
        proof {
            let top = before.lists[actual_order as int].len() - 1;
            assert(before.holds(actual_order as int, top));
            assert(before.block(actual_order as int, top) == free_block);
            assert(before.in_bounds(actual_order as nat, free_block));
        }
        self.split_block_to_size(free_block, actual_order, order);
        Ok(PhysicalAddress::new(free_block))
    }

    /// Free the pages pointed to by `pages` that points to a region of `num_pages`.
    ///
    /// While the block's buddy is free, the two are merged into a block of the next order.
    ///
    /// # Errors
    /// - [`Error::UnknownPtr`] if `pages` is null, does not lie in the managed region at a
    ///   page boundary, or reaches into free memory (as a block that is freed twice does).
    /// - [`Error::InvalidSize`] if `num_pages` is zero or more than the largest block.
    fn free(&mut self, pages: PhysicalAddress, num_pages: usize) -> (r: Result<(), Error>)
        ensures
            final(self)@ == old(self)@.free(pages.addr(), num_pages).0,
            r == old(self)@.free(pages.addr(), num_pages).1,
    {
        let block = pages.to_addr();
        proof {
            old(self)@.lemma_free(block, num_pages);
            if old(self)@.free(block, num_pages).1 is Ok {
                lemma_order_holds(num_pages as u64, 0);
                lemma_block_bytes(self.page_size, order_for(num_pages as u64));
                assert(num_pages * self.page_size.spec_bytes() <= block_pages(
                    order_for(num_pages as u64),
                ) * self.page_size.spec_bytes()) by (nonlinear_arith)
                    requires
                        num_pages <= block_pages(order_for(num_pages as u64)),
                ;
            }
        }
        if block == 0 {
            return Err(Error::UnknownPtr);
        }
        if num_pages == 0 {
            return Err(Error::InvalidSize);
        }
        if block < self.base_addr || block >= self.end_addr {
            return Err(Error::UnknownPtr);
        }
        let order = order_of(num_pages);
        if order >= MAX_ORDER {
            return Err(Error::InvalidSize);
        }
        let size = self.block_size(order);
        proof {
            lemma_block_bytes(self.page_size, order as nat);
        }
        if size > self.end_addr - block || block % (self.page_size.bytes() as u64) != 0 {
            return Err(Error::UnknownPtr);
        }
        if self.overlaps_free(block, block + size) {
            return Err(Error::UnknownPtr);
        }
        self.coalesce(block, order);
        Ok(())
    }
}

impl<const MAX_ORDER: usize> BuddyPageAllocator<MAX_ORDER> {
    /// Puts the block `block` of order `order` back: while the block's buddy is free the
    /// two are merged into a block of the next order, and the block that is left is pushed
    /// on the free list of its order.
    fn coalesce(&mut self, block: u64, order: usize)
        requires
            old(self).consistent(),
            order < MAX_ORDER,
            old(self)@.in_bounds(order as nat, block),
            old(self)@.free_of(block as int, block + old(self)@.bytes(order as nat)),
        ensures
            final(self).free_blocks@.len() == MAX_ORDER,
            final(self).base_addr == old(self).base_addr,
            final(self)@ == old(self)@.coalesce(block, order as nat),
    {
        let mut current = block;
        let mut level = order;
        loop
            invariant
                self.consistent(),
                self.base_addr == old(self).base_addr,
                level < MAX_ORDER,
                self@.in_bounds(level as nat, current),
                self@.free_of(current as int, current + self@.bytes(level as nat)),
                self@.coalesce(current, level as nat) == old(self)@.coalesce(block, order as nat),
            decreases MAX_ORDER - level,
        {
            let ghost before = self@;
            let ghost freed = current;
            proof {
                lemma_block_bytes(self.page_size, level as nat);
                BuddyModel::lemma_position(
                    before.lists[level as int],
                    before.buddy_of(current, level as nat),
                );
            }
            let buddy = self.buddy_of(current, level);
            if level + 1 < MAX_ORDER && self.try_remove_buddy(level, buddy) {
                proof {
                    let at = position(before.lists[level as int], buddy);
                    let size = before.bytes(level as nat);
                    assert(before.holds(level as int, at) && before.block(level as int, at)
                        == buddy);
                    assert(before.in_bounds(level as nat, buddy));
                    before.lemma_remove(level as int, at);
                    lemma_buddy_adjacent(
                        (current - before.base) as u64,
                        size,
                        (page_shift(before.page_size) + level) as u64,
                    );
                    lemma_block_bytes(self.page_size, (level + 1) as nat);
                    assert(self@.free_of(freed as int, freed + size));
                    assert(self@.free_of(buddy as int, buddy + size));
                }
                if buddy < current {
                    current = buddy;
                }
                level = level + 1;
                proof {
                    assert(self@.free_of(current as int, current + self@.bytes(level as nat))) by {
                        assert forall|o: int, i: int| self@.holds(o, i) implies (
                        #[trigger] self@.block(o, i)) + self@.bytes(o as nat) <= current || current
                            + self@.bytes(level as nat) <= self@.block(o, i) by {
                            lemma_block_bytes(self.page_size, o as nat);
                        }
                    }
                }
            } else {
                self.push_free(level, current);
                return ;
            }
        }
    }
}

} // verus!
