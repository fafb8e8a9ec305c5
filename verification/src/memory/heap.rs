//! Heap allocator for arbitrary sized allocations.
//!
//! The allocator keeps one list of free blocks, which it takes from a page allocator. It
//! holds what the headers of its blocks say: the address and the size of each free block,
//! and for each allocation the block that it came from. The memory of the blocks is not
//! touched here.
use vstd::prelude::*;

use super::{Error as MemoryError, PageAllocator, PageSize, PhysicalAddress};

verus! {

/// Whether `align` is a power of two.
pub open spec fn is_power_of_two(align: u64) -> bool {
    align > 0 && align & ((align - 1) as u64) == 0
}

/// Whether `address` is a multiple of `align`, a power of two: none of the address bits
/// below the one bit of `align` is set.
pub open spec fn is_aligned(address: u64, align: u64) -> bool {
    address & ((align - 1) as u64) == 0
}

/// The padding between the start of a block at `block` and the header of an allocation
/// whose payload is to be aligned to `align`, a power of two: the distance from the end of
/// a header at the start of the block to the next multiple of `align`.
pub open spec fn padding_for(block: u64, align: u64) -> u64 {
    (((align - (((block + 16) as u64) & ((align - 1) as u64))) as u64) & ((align - 1) as u64))
}

/// What is known of the padding of an allocation in a block that starts at a multiple of
/// eight, for an alignment that is a power of two.
pub proof fn lemma_padding(block: u64, align: u64)
    requires
        is_power_of_two(align),
        align <= 0x4000,
        block % 8 == 0,
        block < 0x8000_0000_0000_0000,
    ensures
        is_aligned((block + 16 + padding_for(block, align)) as u64, align),
        padding_for(block, align) % 8 == 0,
        padding_for(block, align) < align,
        align <= 8 ==> padding_for(block, align) == 0,
        align > 8 ==> padding_for(block, align) <= align - 8,
{
    let p = padding_for(block, align);
    assert((((block + 16 + p) as u64) & ((align - 1) as u64) == 0) && p % 8 == 0 && p < align && (
    align <= 8 ==> p == 0) && (align > 8 ==> p <= align - 8)) by (bit_vector)
        requires
            align > 0,
            align & ((align - 1) as u64) == 0,
            align <= 0x4000,
            block % 8 == 0,
            block < 0x8000_0000_0000_0000,
            p == (((align - (((block + 16) as u64) & ((align - 1) as u64))) as u64) & ((align
                - 1) as u64)),
    ;
}

/// The number of bytes of the header of an allocation.
pub const ALLOCATED_HEADER_SIZE: u64 = 16;

/// The number of bytes of the header of a free block.
pub const FREE_HEADER_SIZE: u64 = 16;

/// The alignment of the headers.
pub const HEADER_ALIGN: u64 = 8;

/// Smallest number of pages that will be added to the heap when it runs out of free blocks.
/// Large allocations may request more pages than this.
pub const MIN_PAGE_ALLOCATION: u64 = 4;

/// The largest alignment that an allocation can ask for: one page of the larger size.
pub const MAX_ALIGN: u64 = 0x4000;

/// The address that blocks must end before.
pub const ADDRESS_LIMIT: u64 = 0x8000_0000_0000_0000;

/// The size and the alignment of an allocation.
#[derive(Debug, Clone, Copy, PartialEq, Eq, Structural)]
pub struct Layout {
    size: usize,
    align: usize,
}

impl Layout {
    /// The number of bytes of the allocation.
    pub closed spec fn spec_size(&self) -> usize {
        self.size
    }

    /// The alignment of the allocation.
    pub closed spec fn spec_align(&self) -> usize {
        self.align
    }

    /// Whether the alignment is a power of two of at most [`MAX_ALIGN`].
    pub open spec fn well_formed(&self) -> bool {
        is_power_of_two(self.spec_align() as u64) && self.spec_align() <= MAX_ALIGN
    }

    /// The layout of `size` bytes aligned to `align`, if `align` is a power of two of at
    /// most [`MAX_ALIGN`].
    pub fn from_size_align(size: usize, align: usize) -> (r: Option<Layout>)
        ensures
            r is Some <==> is_power_of_two(align as u64) && align <= MAX_ALIGN,
            r is Some ==> r->0.spec_size() == size && r->0.spec_align() == align
                && r->0.well_formed(),
    {
        let a = align as u64;
        if a > 0 && a <= MAX_ALIGN && a & (a - 1) == 0 {
            Some(Layout { size, align })
        } else {
            None
        }
    }

    /// The number of bytes of the allocation.
    pub fn size(&self) -> (size: usize)
        ensures
            size == self.spec_size(),
    {
        self.size
    }

    /// The alignment of the allocation.
    pub fn align(&self) -> (align: usize)
        ensures
            align == self.spec_align(),
    {
        self.align
    }
}

/// The first multiple of `align`, a power of two, at or after `offset`.
pub open spec fn spec_align_up(offset: u64, align: u64) -> u64 {
    ((offset + align - 1) as u64) & !((align - 1) as u64)
}

/// The first multiple of `align`, a power of two, at or after `offset`.
pub fn align_up(offset: u64, align: u64) -> (aligned: u64)
    requires
        is_power_of_two(align),
        offset + align <= u64::MAX,
    ensures
        aligned == spec_align_up(offset, align),
        is_aligned(aligned, align),
        offset <= aligned < offset + align,
{
    let aligned = (offset + align - 1) & !(align - 1);
    assert(aligned & ((align - 1) as u64) == 0 && offset <= aligned && aligned < offset + align)
        by (bit_vector)
        requires
            align > 0,
            align & ((align - 1) as u64) == 0,
            offset + align <= 0xffff_ffff_ffff_ffff,
            aligned == ((offset + align - 1) as u64) & !((align - 1) as u64),
    ;
    aligned
}

/// The most padding that an allocation of the layout `layout` can need between the start
/// of its block and its header.
pub open spec fn spec_header_padding_max(layout: Layout) -> u64 {
    if layout.spec_align() <= HEADER_ALIGN {
        0
    } else {
        (layout.spec_align() - HEADER_ALIGN) as u64
    }
}

/// The most padding that an allocation of the layout `layout` can need between the start
/// of its block and its header: none for an alignment that the header has anyway, and else
/// what is left of the alignment after the alignment of the header.
pub fn header_padding_max(layout: Layout) -> (padding: u64)
    requires
        layout.well_formed(),
    ensures
        padding == spec_header_padding_max(layout),
{
    if layout.align as u64 <= HEADER_ALIGN {
        0
    } else {
        layout.align as u64 - HEADER_ALIGN
    }
}

/// The size of the block that an allocation of the layout `layout` asks for: a header, the
/// most padding and the payload. `None` if that is not less than [`ADDRESS_LIMIT`].
pub open spec fn required_block_size(layout: Layout) -> Option<u64> {
    if 16 + spec_header_padding_max(layout) + layout.spec_size() < ADDRESS_LIMIT {
        Some((16 + spec_header_padding_max(layout) + layout.spec_size()) as u64)
    } else {
        None
    }
}

/// A free block of the heap.
#[derive(Debug, Clone, Copy, PartialEq, Eq, Structural)]
pub struct FreeBlock {
    /// The address of the block.
    pub addr: u64,
    /// The number of bytes of the block.
    pub size: u64,
}

/// What the header of an allocation says.
#[derive(Debug, Clone, Copy, PartialEq, Eq, Structural)]
pub struct Allocation {
    /// The address of the payload, which follows the header.
    pub payload: u64,
    /// The number of bytes of the block that belong to the allocation.
    pub size: u64,
    /// The address of the block that the allocation came from.
    pub block: u64,
}

/// What a heap holds.
pub struct HeapModel {
    /// Whether the heap has been given a page allocator.
    pub initialized: bool,
    /// The free blocks, with the head of the list last.
    pub free: Seq<FreeBlock>,
    /// The allocations that have not been freed.
    pub live: Seq<Allocation>,
}

/// The index of the free block that an allocation in need of `desired` bytes takes: the
/// block nearest to the head of the list that is large enough, or -1 if none is.
pub open spec fn fit_index(free: Seq<FreeBlock>, desired: u64) -> int
    decreases free.len(),
{
    if free.len() == 0 {
        -1
    } else if free.last().size >= desired {
        free.len() - 1
    } else {
        fit_index(free.drop_last(), desired)
    }
}

/// The index of the first allocation whose payload is at `payload`, or the number of
/// allocations if there is none.
pub open spec fn header_index(live: Seq<Allocation>, payload: u64) -> int
    decreases live.len(),
{
    if live.len() == 0 {
        0
    } else if live[0].payload == payload {
        0
    } else {
        1 + header_index(live.skip(1), payload)
    }
}

/// The number of pages that the heap asks the page allocator for when no free block holds
/// `required` bytes.
pub open spec fn pages_for(required: u64, page_size: PageSize) -> u64 {
    let page = page_size.spec_bytes() as u64;
    let count = (required + page - 1) / (page as int);
    if count < MIN_PAGE_ALLOCATION {
        MIN_PAGE_ALLOCATION
    } else {
        count as u64
    }
}

/// The block that the pages at `pages` make which the heap asks the page allocator for
/// when no free block holds `required` bytes.
pub open spec fn page_block(pages: u64, required: u64, page_size: PageSize) -> FreeBlock {
    FreeBlock {
        addr: pages,
        size: (pages_for(required, page_size) * page_size.spec_bytes()) as u64,
    }
}

impl HeapModel {
    /// Whether `after` and `result` are the heap and the result of an allocation of the
    /// layout `layout` that has been placed in the fresh block `block`, which overlaps no
    /// block of the heap.
    pub open spec fn placed_in_pages(
        self,
        block: FreeBlock,
        layout: Layout,
        after: HeapModel,
        result: Option<u64>,
    ) -> bool {
        &&& self.unused(block.addr as int, block.addr + block.size)
        &&& after == self.place(block, layout).0
        &&& result == Some(self.place(block, layout).1)
    }

    /// Whether no block of the heap, free or allocated, reaches into `[low, high)`.
    pub open spec fn unused(self, low: int, high: int) -> bool {
        &&& forall|i: int|
            0 <= i < self.free.len() ==> (#[trigger] self.free[i]).addr + self.free[i].size <= low
                || high <= self.free[i].addr
        &&& forall|j: int|
            0 <= j < self.live.len() ==> (#[trigger] self.live[j]).block + self.live[j].size
                <= low || high <= self.live[j].block
    }

    /// Whether the address `address` lies in a free block.
    pub open spec fn is_free(self, address: int) -> bool {
        exists|i: int|
            0 <= i < self.free.len() && (#[trigger] self.free[i]).addr <= address
                < self.free[i].addr + self.free[i].size
    }

    /// The invariant of the heap: every block starts at a multiple of eight and ends
    /// before [`ADDRESS_LIMIT`], the payload of an allocation lies in its block behind a
    /// header, and no two blocks overlap.
    pub open spec fn well_formed(self) -> bool {
        &&& forall|i: int|
            0 <= i < self.free.len() ==> {
                &&& (#[trigger] self.free[i]).addr % 8 == 0
                &&& self.free[i].addr > 0
                &&& self.free[i].size > 0
                &&& self.free[i].addr + self.free[i].size < ADDRESS_LIMIT
            }
        &&& forall|j: int|
            0 <= j < self.live.len() ==> {
                &&& (#[trigger] self.live[j]).block % 8 == 0
                &&& self.live[j].block > 0
                &&& self.live[j].block + 16 <= self.live[j].payload
                &&& self.live[j].payload <= self.live[j].block + self.live[j].size
                &&& self.live[j].block + self.live[j].size < ADDRESS_LIMIT
            }
        &&& forall|i: int, k: int|
            0 <= i < k < self.free.len() ==> (#[trigger] self.free[i]).addr + self.free[i].size
                <= (#[trigger] self.free[k]).addr || self.free[k].addr + self.free[k].size
                <= self.free[i].addr
        &&& forall|j: int, k: int|
            0 <= j < k < self.live.len() ==> (#[trigger] self.live[j]).block + self.live[j].size
                <= (#[trigger] self.live[k]).block || self.live[k].block + self.live[k].size
                <= self.live[j].block
        &&& forall|i: int, j: int|
            0 <= i < self.free.len() && 0 <= j < self.live.len() ==> (
            #[trigger] self.free[i]).addr + self.free[i].size <= (#[trigger] self.live[j]).block
                || self.live[j].block + self.live[j].size <= self.free[i].addr
    }

    /// The heap without the free block at index `index`.
    pub open spec fn take(self, index: int) -> HeapModel {
        HeapModel { free: self.free.remove(index), ..self }
    }

    /// The heap after an allocation of the layout `layout` has been placed in the block
    /// `block`, which is not on the free list, and the address of the allocation's payload.
    ///
    /// The header follows the padding at the start of the block and the payload follows
    /// the header. What is left of the block behind the payload goes back to the free list
    /// if it is larger than the header of a free block, from the next multiple of eight on.
    pub open spec fn place(self, block: FreeBlock, layout: Layout) -> (HeapModel, u64) {
        let padding = padding_for(block.addr, layout.spec_align() as u64);
        let actual = (16 + padding + layout.spec_size()) as u64;
        let rest_offset = spec_align_up(actual, HEADER_ALIGN);
        let allocation = Allocation {
            payload: (block.addr + padding + 16) as u64,
            size: actual,
            block: block.addr,
        };
        (
            HeapModel {
                free: if block.size - actual > FREE_HEADER_SIZE {
                    self.free.push(
                        FreeBlock {
                            addr: (block.addr + rest_offset) as u64,
                            size: (block.size - rest_offset) as u64,
                        },
                    )
                } else {
                    self.free
                },
                live: self.live.push(allocation),
                ..self
            },
            allocation.payload,
        )
    }

    /// Whether the allocation at `payload` can be freed with the layout `layout`: the heap
    /// has a header for it, and the size that the header claims is one that an allocation
    /// of that layout can have. The null pointer can always be freed.
    pub open spec fn can_dealloc(self, payload: u64, layout: Layout) -> bool {
        payload == 0 || {
            let index = header_index(self.live, payload);
            &&& index < self.live.len()
            &&& 16 + layout.spec_size() <= self.live[index].size
            &&& self.live[index].size <= spec_header_padding_max(layout) + 16
                + layout.spec_size()
            &&& !self.is_free(self.live[index].block as int)
        }
    }

    /// The heap after the allocation at `payload` has been freed: its block is the head of
    /// the free list, with the size that the header claimed. Freeing the null pointer
    /// changes nothing.
    pub open spec fn dealloc(self, payload: u64) -> HeapModel {
        if payload == 0 {
            self
        } else {
            let index = header_index(self.live, payload);
            HeapModel {
                free: self.free.push(
                    FreeBlock { addr: self.live[index].block, size: self.live[index].size },
                ),
                live: self.live.remove(index),
                ..self
            }
        }
    }

    /// Where a header is found, it is the header of the payload; where none is found, no
    /// allocation has the payload.
    pub proof fn lemma_header_index(live: Seq<Allocation>, payload: u64)
        ensures
            0 <= header_index(live, payload) <= live.len(),
            header_index(live, payload) < live.len() ==> live[header_index(
                live,
                payload,
            )].payload == payload,
            forall|j: int| 0 <= j < header_index(live, payload) ==> live[j].payload != payload,
        decreases live.len(),
    {
        if live.len() > 0 && live[0].payload != payload {
            Self::lemma_header_index(live.skip(1), payload);
            assert forall|j: int| 0 <= j < header_index(live, payload) implies live[j].payload
                != payload by {
                if j > 0 {
                    assert(live.skip(1)[j - 1] == live[j]);
                }
            }
        }
    }

    /// Where a fit is found, it is large enough, and no block nearer to the head of the
    /// list is.
    pub proof fn lemma_fit_index(free: Seq<FreeBlock>, desired: u64)
        ensures
            -1 <= fit_index(free, desired) < free.len(),
            fit_index(free, desired) >= 0 ==> free[fit_index(free, desired)].size >= desired,
            forall|i: int| fit_index(free, desired) < i < free.len() ==> free[i].size < desired,
        decreases free.len(),
    {
        if free.len() > 0 && free.last().size < desired {
            Self::lemma_fit_index(free.drop_last(), desired);
            assert forall|i: int| fit_index(free, desired) < i < free.len() implies free[i].size
                < desired by {
                if i < free.len() - 1 {
                    assert(free.drop_last()[i] == free[i]);
                }
            }
        }
    }

    /// Taking a free block off the list keeps the invariant, and leaves the block's range
    /// unused.
    pub proof fn lemma_take(self, index: int)
        requires
            self.well_formed(),
            0 <= index < self.free.len(),
        ensures
            self.take(index).well_formed(),
            self.take(index).unused(
                self.free[index].addr as int,
                self.free[index].addr + self.free[index].size,
            ),
    {
        let after = self.take(index);
        assert forall|i: int| 0 <= i < after.free.len() implies after.free[i] == self.free[if i
            < index {
            i
        } else {
            i + 1
        }] by {}
        assert forall|i: int, k: int| 0 <= i < k < after.free.len() implies (
        #[trigger] after.free[i]).addr + after.free[i].size <= (#[trigger] after.free[k]).addr
            || after.free[k].addr + after.free[k].size <= after.free[i].addr by {
            let i0 = if i < index {
                i
            } else {
                i + 1
            };
            let k0 = if k < index {
                k
            } else {
                k + 1
            };
            assert(after.free[i] == self.free[i0]);
            assert(after.free[k] == self.free[k0]);
        }
        assert forall|i: int, j: int|
            0 <= i < after.free.len() && 0 <= j < after.live.len() implies (
        #[trigger] after.free[i]).addr + after.free[i].size <= (#[trigger] after.live[j]).block
            || after.live[j].block + after.live[j].size <= after.free[i].addr by {
            let i0 = if i < index {
                i
            } else {
                i + 1
            };
            assert(after.free[i] == self.free[i0]);
        }
        assert forall|i: int| 0 <= i < after.free.len() implies (#[trigger] after.free[i]).addr
            + after.free[i].size <= self.free[index].addr || self.free[index].addr
            + self.free[index].size <= after.free[i].addr by {
            let i0 = if i < index {
                i
            } else {
                i + 1
            };
            assert(after.free[i] == self.free[i0]);
            if i0 < index {
                assert(self.free[i0].addr + self.free[i0].size <= self.free[index].addr
                    || self.free[index].addr + self.free[index].size <= self.free[i0].addr);
            } else {
                assert(self.free[index].addr + self.free[index].size <= self.free[i0].addr
                    || self.free[i0].addr + self.free[i0].size <= self.free[index].addr);
            }
        }
        assert forall|i: int| 0 <= i < after.free.len() implies {
            &&& (#[trigger] after.free[i]).addr % 8 == 0
            &&& after.free[i].addr > 0
            &&& after.free[i].size > 0
            &&& after.free[i].addr + after.free[i].size < ADDRESS_LIMIT
        } by {
            let i0 = if i < index {
                i
            } else {
                i + 1
            };
            assert(after.free[i] == self.free[i0]);
        }
    }

    /// Placing an allocation in a block that is large enough and that no block of the heap
    /// overlaps keeps the invariant; the payload has the alignment that was asked for and
    /// lies in the block with all of its bytes; and the allocation can be freed with its
    /// layout.
    pub proof fn lemma_place(self, block: FreeBlock, layout: Layout)
        requires
            self.well_formed(),
            layout.well_formed(),
            required_block_size(layout) is Some,
            block.size >= required_block_size(layout)->0,
            block.addr % 8 == 0,
            block.addr > 0,
            block.addr + block.size < ADDRESS_LIMIT,
            self.unused(block.addr as int, block.addr + block.size),
        ensures
            self.place(block, layout).0.well_formed(),
            is_aligned(self.place(block, layout).1, layout.spec_align() as u64),
            block.addr + 16 <= self.place(block, layout).1,
            self.place(block, layout).1 + layout.spec_size() <= block.addr + block.size,
            self.place(block, layout).1 != 0,
            self.place(block, layout).0.can_dealloc(self.place(block, layout).1, layout),
            forall|low: int, high: int|
                self.unused(low, high) && (block.addr + block.size <= low || high <= block.addr)
                    ==> #[trigger] self.place(block, layout).0.unused(low, high),
    {
        let align = layout.spec_align() as u64;
        let padding = padding_for(block.addr, align);
        lemma_padding(block.addr, align);
        let actual = (16 + padding + layout.spec_size()) as u64;
        let rest_offset = spec_align_up(actual, HEADER_ALIGN);
        assert(rest_offset & 7 == 0 && actual <= rest_offset && rest_offset < actual + 8
            && rest_offset % 8 == 0) by (bit_vector)
            requires
                actual < 0x8000_0000_0000_0000,
                rest_offset == ((actual + 8u64 - 1) as u64) & !((8u64 - 1) as u64),
        ;
        let after = self.place(block, layout).0;
        let payload = self.place(block, layout).1;
        let last = self.live.len() as int;
        assert(after.live[last].payload == payload);
        assert forall|j: int| 0 <= j < after.live.len() && j != last implies after.live[j]
            == self.live[j] by {}
        assert forall|i: int| 0 <= i < self.free.len() implies after.free[i] == self.free[i] by {}
        // No other allocation has the same payload: the payload lies in the new block.
        assert forall|j: int| 0 <= j < last implies self.live[j].payload != payload by {
            assert(self.live[j].block + self.live[j].size <= block.addr || block.addr + block.size
                <= self.live[j].block);
        }
        Self::lemma_header_index(after.live, payload);
        assert(header_index(after.live, payload) == last) by {
            let found = header_index(after.live, payload);
            if found < last {
                assert(after.live[found] == self.live[found]);
            }
        }
        assert(!after.is_free(block.addr as int)) by {
            if after.is_free(block.addr as int) {
                let i = choose|i: int|
                    0 <= i < after.free.len() && (#[trigger] after.free[i]).addr <= block.addr
                        < after.free[i].addr + after.free[i].size;
                if i < self.free.len() {
                    assert(after.free[i] == self.free[i]);
                }
            }
        }
        assert forall|low: int, high: int|
            self.unused(low, high) && (block.addr + block.size <= low || high
                <= block.addr) implies #[trigger] after.unused(low, high) by {
            assert forall|i: int| 0 <= i < after.free.len() implies (#[trigger] after.free[i]).addr
                + after.free[i].size <= low || high <= after.free[i].addr by {
                if i < self.free.len() {
                    assert(after.free[i] == self.free[i]);
                }
            }
            assert forall|j: int| 0 <= j < after.live.len() implies (
            #[trigger] after.live[j]).block + after.live[j].size <= low || high
                <= after.live[j].block by {
                if j < last {
                    assert(after.live[j] == self.live[j]);
                }
            }
        }
    }

    /// The header of a payload is found at the same index after another allocation has
    /// been added behind the allocations.
    pub proof fn lemma_header_index_push(live: Seq<Allocation>, payload: u64, added: Allocation)
        requires
            header_index(live, payload) < live.len(),
        ensures
            header_index(live.push(added), payload) == header_index(live, payload),
        decreases live.len(),
    {
        Self::lemma_header_index(live, payload);
        if live[0].payload != payload {
            Self::lemma_header_index_push(live.skip(1), payload, added);
            assert(live.push(added).skip(1) =~= live.skip(1).push(added));
        }
    }

    /// The header of a payload is found, and is the same, after the header of another
    /// payload has been removed.
    pub proof fn lemma_header_index_remove(live: Seq<Allocation>, payload: u64, index: int)
        requires
            header_index(live, payload) < live.len(),
            0 <= index < live.len(),
            live[index].payload != payload,
        ensures
            0 <= header_index(live.remove(index), payload) < live.remove(index).len(),
            live.remove(index)[header_index(live.remove(index), payload)] == live[header_index(
                live,
                payload,
            )],
        decreases live.len(),
    {
        Self::lemma_header_index(live, payload);
        Self::lemma_header_index(live.remove(index), payload);
        let found = header_index(live, payload);
        if index == 0 {
            assert(live.remove(0) =~= live.skip(1));
            assert(live.skip(1)[found - 1] == live[found]);
        } else if live[0].payload != payload {
            Self::lemma_header_index_remove(live.skip(1), payload, index - 1);
            Self::lemma_header_index(live.skip(1), payload);
            assert(live.remove(index).skip(1) =~= live.skip(1).remove(index - 1));
            assert(live.remove(index)[0] == live[0]);
            let below = header_index(live.skip(1).remove(index - 1), payload);
            assert(live.remove(index)[below + 1] == live.skip(1).remove(index - 1)[below]);
            assert(live.skip(1)[found - 1] == live[found]);
        } else {
            assert(live.remove(index)[0] == live[0]);
        }
    }

    /// An allocation stays where it is, free of free blocks, in a heap that holds it and
    /// keeps its invariant.
    proof fn lemma_not_free(self, index: int)
        requires
            self.well_formed(),
            0 <= index < self.live.len(),
        ensures
            !self.is_free(self.live[index].block as int),
    {
        if self.is_free(self.live[index].block as int) {
            let i = choose|i: int|
                0 <= i < self.free.len() && (#[trigger] self.free[i]).addr
                    <= self.live[index].block < self.free[i].addr + self.free[i].size;
            assert(self.free[i].addr + self.free[i].size <= self.live[index].block
                || self.live[index].block + self.live[index].size <= self.free[i].addr);
        }
    }

    /// An allocation that can be freed stays so while the heap places other allocations
    /// and frees other allocations, in any order: it can be freed after a free block has
    /// been taken off the list, after another allocation has been placed in a block that
    /// is large enough and that no block of the heap overlaps, and after another
    /// allocation has been freed.
    pub proof fn lemma_allocation_kept(
        self,
        payload: u64,
        layout: Layout,
        taken: int,
        block: FreeBlock,
        placed: Layout,
        freed: u64,
        freed_layout: Layout,
    )
        requires
            self.well_formed(),
            payload != 0,
            self.can_dealloc(payload, layout),
        ensures
            0 <= taken < self.free.len() ==> self.take(taken).can_dealloc(payload, layout),
            placed.well_formed() && required_block_size(placed) is Some && block.size
                >= required_block_size(placed)->0 && block.addr % 8 == 0 && block.addr > 0
                && block.addr + block.size < ADDRESS_LIMIT && self.unused(
                block.addr as int,
                block.addr + block.size,
            ) ==> self.place(block, placed).0.can_dealloc(payload, layout),
            freed != payload && freed != 0 && self.can_dealloc(freed, freed_layout)
                ==> self.dealloc(freed).can_dealloc(payload, layout),
    {
        let index = header_index(self.live, payload);
        Self::lemma_header_index(self.live, payload);
        if 0 <= taken < self.free.len() {
            self.lemma_take(taken);
            self.take(taken).lemma_not_free(index);
        }
        if placed.well_formed() && required_block_size(placed) is Some && block.size
            >= required_block_size(placed)->0 && block.addr % 8 == 0 && block.addr > 0 && block.addr
            + block.size < ADDRESS_LIMIT && self.unused(block.addr as int, block.addr + block.size) {
            let after = self.place(block, placed).0;
            self.lemma_place(block, placed);
            Self::lemma_header_index_push(self.live, payload, after.live.last());
            assert(after.live =~= self.live.push(after.live.last()));
            assert(after.live[index] == self.live[index]);
            after.lemma_not_free(index);
        }
        if freed != payload && freed != 0 && self.can_dealloc(freed, freed_layout) {
            let gone = header_index(self.live, freed);
            Self::lemma_header_index(self.live, freed);
            Self::lemma_header_index_remove(self.live, payload, gone);
            self.lemma_dealloc(freed, freed_layout);
            let after = self.dealloc(freed);
            after.lemma_not_free(header_index(after.live, payload));
        }
    }

    /// Freeing an allocation that can be freed keeps the invariant and returns the
    /// allocation's block to the head of the free list; the allocation cannot be freed
    /// again.
    pub proof fn lemma_dealloc(self, payload: u64, layout: Layout)
        requires
            self.well_formed(),
            self.can_dealloc(payload, layout),
            payload != 0,
        ensures
            self.dealloc(payload).well_formed(),
            self.dealloc(payload).free.len() == self.free.len() + 1,
            self.dealloc(payload).free.last().addr == self.live[header_index(
                self.live,
                payload,
            )].block,
            self.dealloc(payload).live.len() + 1 == self.live.len(),
            !self.dealloc(payload).can_dealloc(payload, layout),
            forall|other: Layout| !self.dealloc(payload).can_dealloc(payload, other),
    {
        let index = header_index(self.live, payload);
        Self::lemma_header_index(self.live, payload);
        let after = self.dealloc(payload);
        let gone = self.live[index];
        assert forall|j: int| 0 <= j < after.live.len() implies after.live[j] == self.live[if j
            < index {
            j
        } else {
            j + 1
        }] by {}
        assert forall|i: int| 0 <= i < self.free.len() implies after.free[i] == self.free[i] by {}
        assert(after.free[self.free.len() as int] == FreeBlock { addr: gone.block, size: gone.size });
        assert forall|j: int, k: int| 0 <= j < k < after.live.len() implies (
        #[trigger] after.live[j]).block + after.live[j].size <= (#[trigger] after.live[k]).block
            || after.live[k].block + after.live[k].size <= after.live[j].block by {
            let j0 = if j < index {
                j
            } else {
                j + 1
            };
            let k0 = if k < index {
                k
            } else {
                k + 1
            };
            assert(after.live[j] == self.live[j0]);
            assert(after.live[k] == self.live[k0]);
        }
        assert forall|i: int, j: int|
            0 <= i < after.free.len() && 0 <= j < after.live.len() implies (
        #[trigger] after.free[i]).addr + after.free[i].size <= (#[trigger] after.live[j]).block
            || after.live[j].block + after.live[j].size <= after.free[i].addr by {
            let j0 = if j < index {
                j
            } else {
                j + 1
            };
            assert(after.live[j] == self.live[j0]);
            if i < self.free.len() {
                assert(after.free[i] == self.free[i]);
            } else {
                if j0 < index {
                    assert(self.live[j0].block + self.live[j0].size <= self.live[index].block
                        || self.live[index].block + self.live[index].size <= self.live[j0].block);
                } else {
                    assert(self.live[index].block + self.live[index].size <= self.live[j0].block
                        || self.live[j0].block + self.live[j0].size <= self.live[index].block);
                }
            }
        }
        assert forall|i: int, k: int| 0 <= i < k < after.free.len() implies (
        #[trigger] after.free[i]).addr + after.free[i].size <= (#[trigger] after.free[k]).addr
            || after.free[k].addr + after.free[k].size <= after.free[i].addr by {
            assert(after.free[i] == self.free[i]);
            if k < self.free.len() {
                assert(after.free[k] == self.free[k]);
            } else {
                assert(self.free[i].addr + self.free[i].size <= self.live[index].block
                    || self.live[index].block + self.live[index].size <= self.free[i].addr);
            }
        }
        assert forall|j: int| 0 <= j < after.live.len() implies {
            &&& (#[trigger] after.live[j]).block % 8 == 0
            &&& after.live[j].block > 0
            &&& after.live[j].block + 16 <= after.live[j].payload
            &&& after.live[j].payload <= after.live[j].block + after.live[j].size
            &&& after.live[j].block + after.live[j].size < ADDRESS_LIMIT
        } by {
            let j0 = if j < index {
                j
            } else {
                j + 1
            };
            assert(after.live[j] == self.live[j0]);
        }
        assert forall|i: int| 0 <= i < after.free.len() implies {
            &&& (#[trigger] after.free[i]).addr % 8 == 0
            &&& after.free[i].addr > 0
            &&& after.free[i].size > 0
            &&& after.free[i].addr + after.free[i].size < ADDRESS_LIMIT
        } by {
            if i < self.free.len() {
                assert(after.free[i] == self.free[i]);
            }
        }
        // No allocation that is left has the payload: it lay in the block that is free now.
        Self::lemma_header_index(after.live, payload);
        let found = header_index(after.live, payload);
        if found < after.live.len() {
            let j0 = if found < index {
                found
            } else {
                found + 1
            };
            assert(after.live[found] == self.live[j0]);
            if j0 < index {
                assert(self.live[j0].block + self.live[j0].size <= self.live[index].block
                    || self.live[index].block + self.live[index].size <= self.live[j0].block);
            } else {
                assert(self.live[index].block + self.live[index].size <= self.live[j0].block
                    || self.live[j0].block + self.live[j0].size <= self.live[index].block);
            }
            assert(false);
        }
    }
}

/// A heap allocator for arbitrary sized allocations.
///
/// The allocator uses a basic free list algorithm.
pub struct HeapAllocator {
    initialized: bool,
    free_list: Vec<FreeBlock>,
    headers: Vec<Allocation>,
}

impl View for HeapAllocator {
    type V = HeapModel;

    closed spec fn view(&self) -> HeapModel {
        HeapModel { initialized: self.initialized, free: self.free_list@, live: self.headers@ }
    }
}

impl HeapAllocator {
    /// The invariant of the heap.
    pub open spec fn well_formed(&self) -> bool {
        self@.well_formed()
    }

    /// Create a new allocator that creates a heap in pages that a page allocator provides.
    pub fn new() -> (heap: Self)
        ensures
            heap.well_formed(),
            heap@.initialized,
            heap@.free.len() == 0,
            heap@.live.len() == 0,
    {
        Self { initialized: true, free_list: Vec::new(), headers: Vec::new() }
    }

    /// Create a new allocator that has not yet been assigned to a page allocator.
    /// Call [`Self::init`] to finish initialization.
    ///
    /// If used before initialization, the allocator will just return `None`.
    pub fn new_uninit() -> (heap: Self)
        ensures
            heap.well_formed(),
            !heap@.initialized,
            heap@.free.len() == 0,
            heap@.live.len() == 0,
    {
        Self { initialized: false, free_list: Vec::new(), headers: Vec::new() }
    }

    /// Finish initializing an allocator constructed with [`Self::new_uninit`].
    pub fn init(&mut self)
        ensures
            final(self)@ == (HeapModel { initialized: true, ..old(self)@ }),
    {
        self.initialized = true;
    }

    /// Takes the first block that is large enough off the free list, if there is one.
    pub fn try_remove_fit(&mut self, desired_size: u64) -> (block: Option<FreeBlock>)
        ensures
            fit_index(old(self)@.free, desired_size) < 0 ==> block is None && final(self)@ == old(self)@,
            fit_index(old(self)@.free, desired_size) >= 0 ==> block == Some(
                old(self)@.free[fit_index(old(self)@.free, desired_size)],
            ) && final(self)@ == old(self)@.take(fit_index(old(self)@.free, desired_size)),
    {
        proof {
            HeapModel::lemma_fit_index(self@.free, desired_size);
        }
        let mut index = self.free_list.len();
        proof {
            assert(self.free_list@.subrange(0, index as int) =~= self.free_list@);
        }
        while index > 0
            invariant
                self == old(self),
                index <= self.free_list@.len(),
                fit_index(self.free_list@.subrange(0, index as int), desired_size) == fit_index(
                    self.free_list@,
                    desired_size,
                ),
            decreases index,
        {
            index = index - 1;
            proof {
                let upto = self.free_list@.subrange(0, index as int + 1);
                assert(upto.last() == self.free_list@[index as int]);
                assert(upto.drop_last() =~= self.free_list@.subrange(0, index as int));
            }
            if self.free_list[index].size >= desired_size {
                let block = self.free_list.remove(index);
                return Some(block);
            }
        }
        None
    }

    /// Puts a block at the head of the free list.
    fn push_free_block(&mut self, block: FreeBlock)
        ensures
            final(self)@ == (HeapModel { free: old(self)@.free.push(block), ..old(self)@ }),
    {
        self.free_list.push(block);
    }

    /// Whether the address `ptr` lies in a free block.
    pub fn is_free(&self, ptr: u64) -> (free: bool)
        requires
            self.well_formed(),
        ensures
            free == self@.is_free(ptr as int),
    {
        let mut index: usize = 0;
        while index < self.free_list.len()
            invariant
                self.well_formed(),
                index <= self.free_list@.len(),
                forall|i: int|
                    0 <= i < index ==> !((#[trigger] self@.free[i]).addr <= ptr < self@.free[i].addr
                        + self@.free[i].size),
            decreases self.free_list@.len() - index,
        {
            let block = self.free_list[index];
            assert(self@.free[index as int] == block);
            if ptr >= block.addr && ptr < block.addr + block.size {
                return true;
            }
            index = index + 1;
        }
        false
    }

    /// Whether no block of the heap reaches into `[low, high)`.
    fn is_unused(&self, low: u64, high: u64) -> (unused: bool)
        requires
            self.well_formed(),
        ensures
            unused == self@.unused(low as int, high as int),
    {
        let mut index: usize = 0;
        while index < self.free_list.len()
            invariant
                self.well_formed(),
                index <= self.free_list@.len(),
                forall|i: int|
                    0 <= i < index ==> (#[trigger] self@.free[i]).addr + self@.free[i].size <= low
                        || high <= self@.free[i].addr,
            decreases self.free_list@.len() - index,
        {
            let block = self.free_list[index];
            assert(self@.free[index as int] == block);
            if !(block.addr + block.size <= low || high <= block.addr) {
                return false;
            }
            index = index + 1;
        }
        let mut index: usize = 0;
        while index < self.headers.len()
            invariant
                self.well_formed(),
                index <= self.headers@.len(),
                forall|i: int|
                    0 <= i < self@.free.len() ==> (#[trigger] self@.free[i]).addr
                        + self@.free[i].size <= low || high <= self@.free[i].addr,
                forall|j: int|
                    0 <= j < index ==> (#[trigger] self@.live[j]).block + self@.live[j].size <= low
                        || high <= self@.live[j].block,
            decreases self.headers@.len() - index,
        {
            let header = self.headers[index];
            assert(self@.live[index as int] == header);
            if !(header.block + header.size <= low || high <= header.block) {
                return false;
            }
            index = index + 1;
        }
        true
    }

    /// Places an allocation of the layout `layout` in the block `block`, which is not on
    /// the free list, and returns the address of the allocation's payload.
    pub fn place(&mut self, block: FreeBlock, layout: Layout) -> (payload: u64)
        requires
            old(self).well_formed(),
            layout.well_formed(),
            required_block_size(layout) is Some,
            block.size >= required_block_size(layout)->0,
            block.addr % 8 == 0,
            block.addr > 0,
            block.addr + block.size < ADDRESS_LIMIT,
            old(self)@.unused(block.addr as int, block.addr + block.size),
        ensures
            final(self).well_formed(),
            (final(self)@, payload) == old(self)@.place(block, layout),
            is_aligned(payload, layout.spec_align() as u64),
            payload != 0,
            final(self)@.can_dealloc(payload, layout),
    {
        proof {
            old(self)@.lemma_place(block, layout);
            lemma_padding(block.addr, layout.spec_align() as u64);
        }
        let align = layout.align as u64;
        let header_end = block.addr + 16;
        let low_bits = header_end & (align - 1);
        assert(low_bits <= align - 1) by (bit_vector)
            requires
                align > 0,
                low_bits == header_end & ((align - 1) as u64),
        ;
        assert(8u64 & ((8u64 - 1) as u64) == 0) by (bit_vector);
        let padding = (align - low_bits) & (align - 1);
        let actual_block_size = 16 + padding + layout.size as u64;
        if block.size - actual_block_size > FREE_HEADER_SIZE {
            let rest_offset = align_up(actual_block_size, HEADER_ALIGN);
            assert(rest_offset < actual_block_size + 8);
            self.push_free_block(
                FreeBlock { addr: block.addr + rest_offset, size: block.size - rest_offset },
            );
        }
        let payload = block.addr + padding + 16;
        self.headers.push(Allocation { payload, size: actual_block_size, block: block.addr });
        proof {
            assert(self@.free =~= old(self)@.place(block, layout).0.free);
            assert(self@.live =~= old(self)@.place(block, layout).0.live);
        }
        payload
    }

    /// Allocates memory of the layout `layout`, with pages from `page_allocator` where no
    /// free block is large enough. Returns the address of the payload, or `None` where no
    /// memory can be had.
    ///
    /// The allocation goes in the first free block that is large enough. If there is none,
    /// the heap asks the page allocator for the pages that hold the allocation, four at
    /// least, and the allocator's answer decides as [`HeapAllocator::place_in_pages`] says.
    /// The page allocator is left as it is where a free block is large enough, where the
    /// heap has not been initialized, and where the allocation is too large for any block;
    /// it never gains free memory.
    ///
    /// The alignment must not be greater than one page.
    pub fn allocate<PA: PageAllocator>(&mut self, page_allocator: &mut PA, layout: Layout) -> (r:
        Option<u64>)
        requires
            old(self).well_formed(),
            old(page_allocator).well_formed(),
            layout.well_formed(),
            layout.spec_align() <= old(page_allocator).spec_page_size().spec_bytes(),
        ensures
            final(self).well_formed(),
            final(page_allocator).well_formed(),
            final(page_allocator).spec_page_size() == old(page_allocator).spec_page_size(),
            forall|address: int|
                #[trigger] final(page_allocator).is_free(address) ==> old(page_allocator).is_free(
                    address,
                ),
            (match required_block_size(layout) {
                None => true,
                Some(required) => fit_index(old(self)@.free, required) >= 0 || !old(self)@.initialized,
            }) ==> *final(page_allocator) == *old(page_allocator),
            r is Some ==> is_aligned(r->0, layout.spec_align() as u64),
            r is Some ==> r->0 != 0,
            r is Some ==> final(self)@.can_dealloc(r->0, layout),
            match required_block_size(layout) {
                None => r is None && final(self)@ == old(self)@,
                Some(required) => {
                    let fit = fit_index(old(self)@.free, required);
                    if fit >= 0 {
                        (final(self)@, r) == (
                            old(self)@.take(fit).place(old(self)@.free[fit], layout).0,
                            Some(old(self)@.take(fit).place(old(self)@.free[fit], layout).1),
                        )
                    } else if !old(self)@.initialized {
                        r is None && final(self)@ == old(self)@
                    } else {
                        ||| r is None && final(self)@ == old(self)@
                        ||| exists|pages: u64|
                            old(self)@.placed_in_pages(
                                #[trigger] page_block(
                                    pages,
                                    required,
                                    old(page_allocator).spec_page_size(),
                                ),
                                layout,
                                final(self)@,
                                r,
                            )
                    }
                },
            },
    {
        let padding_max = header_padding_max(layout);
        if layout.size as u64 >= ADDRESS_LIMIT - 16 - padding_max {
            return None;
        }
        let required_block_size = 16 + padding_max + layout.size as u64;
        let ghost before = self@;
        proof {
            HeapModel::lemma_fit_index(before.free, required_block_size);
        }
        match self.try_remove_fit(required_block_size) {
            Some(block) => {
                proof {
                    let fit = fit_index(before.free, required_block_size);
                    before.lemma_take(fit);
                }
                Some(self.place(block, layout))
            },
            None => {
                if !self.initialized {
                    return None;
                }
                let page_size = page_allocator.page_size();
                let page_count = Self::page_count(required_block_size, page_size);
                if page_count > usize::MAX as u64 {
                    return None;
                }
                let allocation = page_allocator.allocate(page_count as usize);
                self.place_in_pages(allocation, page_size, layout)
            },
        }
    }

    /// The number of pages that the heap asks the page allocator for when no free block
    /// holds `required` bytes.
    fn page_count(required: u64, page_size: PageSize) -> (count: u64)
        requires
            required < ADDRESS_LIMIT,
        ensures
            count == pages_for(required, page_size),
            count * page_size.spec_bytes() >= required,
            count * page_size.spec_bytes() <= required + 4 * page_size.spec_bytes(),
    {
        let page = page_size.bytes() as u64;
        let count = (required + page - 1) / page;
        let page_count = if count < MIN_PAGE_ALLOCATION {
            MIN_PAGE_ALLOCATION
        } else {
            count
        };
        assert(page_count * page >= required) by (nonlinear_arith)
            requires
                page_count >= (required + page - 1) / (page as int),
                page > 0,
        ;
        assert(page_count * page <= required + 4 * page) by (nonlinear_arith)
            requires
                page_count == (required + page - 1) / (page as int) || page_count == 4,
                page > 0,
        ;
        page_count
    }

    /// Places an allocation of the layout `layout` in the pages that the page allocator
    /// has answered the heap's request with (`allocation`), which was for the pages that
    /// hold the allocation, four at least.
    ///
    /// The pages become one block of the heap if they lie below [`ADDRESS_LIMIT`] and
    /// overlap no block that the heap knows, and the block is split as
    /// [`HeapModel::place`] says. Else, and where the allocator did not provide the pages,
    /// nothing changes and `None` is returned.
    pub fn place_in_pages(
        &mut self,
        allocation: Result<PhysicalAddress, MemoryError>,
        page_size: PageSize,
        layout: Layout,
    ) -> (r: Option<u64>)
        requires
            old(self).well_formed(),
            layout.well_formed(),
            layout.spec_align() <= page_size.spec_bytes(),
            required_block_size(layout) is Some,
            allocation is Ok ==> allocation->Ok_0.addr() != 0 && allocation->Ok_0.addr() % (
            page_size.spec_bytes() as u64) == 0,
        ensures
            final(self).well_formed(),
            r is Some ==> is_aligned(r->0, layout.spec_align() as u64),
            r is Some ==> r->0 != 0,
            r is Some ==> final(self)@.can_dealloc(r->0, layout),
            match allocation {
                Err(_) => r is None && final(self)@ == old(self)@,
                Ok(pages) => {
                    let block = page_block(
                        pages.addr(),
                        required_block_size(layout)->0,
                        page_size,
                    );
                    if block.addr + block.size < ADDRESS_LIMIT && old(self)@.unused(
                        block.addr as int,
                        block.addr + block.size,
                    ) {
                        (final(self)@, r) == (
                            old(self)@.place(block, layout).0,
                            Some(old(self)@.place(block, layout).1),
                        )
                    } else {
                        r is None && final(self)@ == old(self)@
                    }
                },
            },
    {
        let required_block_size = 16 + header_padding_max(layout) + layout.size as u64;
        let page = page_size.bytes() as u64;
        let page_count = Self::page_count(required_block_size, page_size);
        let total_block_size = page_count * page;
        match allocation {
            Err(_) => None,
            Ok(pages) => {
                let addr = pages.to_addr();
                if addr >= ADDRESS_LIMIT || total_block_size >= ADDRESS_LIMIT - addr {
                    return None;
                }
                if !self.is_unused(addr, addr + total_block_size) {
                    return None;
                }
                let block = FreeBlock { addr, size: total_block_size };
                proof {
                    assert(block == page_block(addr, required_block_size, page_size));
                    if page_size == PageSize::FourKiB {
                        assert(addr % 8 == 0) by (bit_vector)
                            requires
                                addr % 0x1000 == 0,
                        ;
                    } else {
                        assert(addr % 8 == 0) by (bit_vector)
                            requires
                                addr % 0x4000 == 0,
                        ;
                    }
                }
                Some(self.place(block, layout))
            },
        }
    }

    /// Whether the allocation at `ptr` can be freed with the layout `layout`.
    pub fn can_dealloc(&self, ptr: u64, layout: Layout) -> (can: bool)
        requires
            self.well_formed(),
            layout.well_formed(),
        ensures
            can == self@.can_dealloc(ptr, layout),
    {
        if ptr == 0 {
            return true;
        }
        let index = self.header_position(ptr);
        if index >= self.headers.len() {
            return false;
        }
        let header = self.headers[index];
        assert(self@.live[index as int] == header);
        if layout.size as u64 >= ADDRESS_LIMIT {
            return false;
        }
        let min_size = 16 + layout.size as u64;
        let max_size = header_padding_max(layout) + min_size;
        min_size <= header.size && header.size <= max_size && !self.is_free(header.block)
    }

    /// The index of the header of the allocation at `ptr`, or the number of headers.
    fn header_position(&self, ptr: u64) -> (index: usize)
        ensures
            index == header_index(self@.live, ptr),
    {
        let mut index: usize = 0;
        proof {
            assert(self.headers@.skip(0) =~= self.headers@);
        }
        while index < self.headers.len() && self.headers[index].payload != ptr
            invariant
                index <= self.headers@.len(),
                header_index(self.headers@, ptr) == index + header_index(
                    self.headers@.skip(index as int),
                    ptr,
                ),
            decreases self.headers@.len() - index,
        {
            proof {
                assert(self.headers@.skip(index as int).skip(1) =~= self.headers@.skip(
                    index as int + 1,
                ));
            }
            index = index + 1;
        }
        index
    }

    /// Frees the allocation at `ptr`, which was allocated with the layout `layout`: the
    /// allocation's block goes back to the head of the free list. Freeing the null pointer
    /// does nothing.
    ///
    /// The allocation must be one that can be freed ([`HeapModel::can_dealloc`]): the heap
    /// must have handed it out with such a layout, and it must not have been freed since.
    /// [`HeapAllocator::try_dealloc`] tests this first.
    pub fn dealloc(&mut self, ptr: u64, layout: Layout)
        requires
            old(self).well_formed(),
            layout.well_formed(),
            old(self)@.can_dealloc(ptr, layout),
        ensures
            final(self).well_formed(),
            final(self)@ == old(self)@.dealloc(ptr),
    {
        if ptr != 0 {
            proof {
                old(self)@.lemma_dealloc(ptr, layout);
                HeapModel::lemma_header_index(self@.live, ptr);
            }
            let index = self.header_position(ptr);
            let header = self.headers.remove(index);
            self.push_free_block(FreeBlock { addr: header.block, size: header.size });
        }
    }

    /// Frees the allocation at `ptr` if it can be freed with the layout `layout`, and says
    /// whether it did.
    pub fn try_dealloc(&mut self, ptr: u64, layout: Layout) -> (freed: bool)
        requires
            old(self).well_formed(),
            layout.well_formed(),
        ensures
            final(self).well_formed(),
            freed == old(self)@.can_dealloc(ptr, layout),
            freed ==> final(self)@ == old(self)@.dealloc(ptr),
            !freed ==> final(self)@ == old(self)@,
    {
        if self.can_dealloc(ptr, layout) {
            self.dealloc(ptr, layout);
            true
        } else {
            false
        }
    }
}

} // verus!
