//! Memory subsystem.
//!
//! The memory subsystem consists of:
//! - the physical page allocator
//! - the kernel page tables
//! - the heap
use vstd::prelude::*;
use vstd::string::StringSliceAdditionalSpecFns;

use crate::memory::buddy::spec_align_up;
use crate::memory::page_table::{
    lemma_tables_needed, tables_needed, Error as PageTableError, MapBlockSize, MemoryKind,
    MemoryProperties, Obstacle, Shareability, ADDRESS_SPACE_SIZE,
};
use crate::memory::subtract_ranges::{
    covered, difference, in_range, lemma_difference, ordered_disjoint, range_end,
};
use crate::memory::{
    subtract_ranges, BuddyPageAllocator, Error as MemoryError, HeapAllocator, PageAllocator,
    PageSize, PageTables, PhysicalAddress, VirtualAddress, KERNEL_TAG,
};
use crate::platform::device_tree::fdt::TokenView;
use crate::platform::device_tree::iter::{named_nodes, registers_from};
use crate::platform::device_tree::{
    address_cells_or_default, find_node, first_named, lemma_names_differ, name_is,
    size_cells_or_default, DeviceTree,
};

verus! {

/// The page allocator of the platform.
pub type PlatformPageAllocator = BuddyPageAllocator<16>;

/// The number of bytes of a block of the kernel's mappings: 1 GiB.
pub const KERNEL_BLOCK_SIZE: u64 = 0x4000_0000;

/// The memory subsystem.
pub struct MemorySystem {
    /// The physical page allocator.
    pub page_allocator: PlatformPageAllocator,
    /// The kernel's own page tables, which map the addresses that carry the kernel tag.
    pub kernel_page_tables: PageTables,
    /// The heap.
    pub heap: HeapAllocator,
}

/// What keeps the memory subsystem from coming up.
#[derive(Debug, Clone, Copy)]
#[allow(inconsistent_fields)]
pub enum InitError {
    /// The device tree does not describe the memory as it is expected to.
    DeviceTree {
        /// What is wrong with the device tree.
        cause: &'static str,
    },
    /// The memory cannot be managed.
    Memory {
        /// Why not.
        source: MemoryError,
    },
    /// The memory cannot be mapped.
    PageTables {
        /// Why not.
        source: PageTableError,
    },
}

/// The range of the memory that the tree with the tokens `tokens` describes: the one
/// region of the `reg` property of the one node called `memory` under the root. `None` if
/// there is no such node, or more than one, or it has no `reg` property, or the property
/// has no region, or more than one.
pub open spec fn memory_range(tokens: Seq<TokenView>) -> Option<(u64, u64)> {
    match find_node(tokens, "/".spec_bytes(), 0, (None, None)) {
        None => None,
        Some((inside, cells)) => {
            let nodes = named_nodes(
                inside,
                "memory".spec_bytes(),
                (Some(address_cells_or_default(cells)), Some(size_cells_or_default(cells))),
            );
            if nodes.len() != 1 {
                None
            } else {
                let index = first_named(nodes[0].properties, "reg".spec_bytes());
                if index >= nodes[0].properties.len() {
                    None
                } else {
                    let regions = registers_from(
                        nodes[0].properties[index].1,
                        0,
                        nodes[0].address_cells as nat,
                        nodes[0].size_cells as nat,
                    );
                    if regions.len() != 1 {
                        None
                    } else {
                        Some(regions[0])
                    }
                }
            }
        },
    }
}

/// Reads the range of the memory from the device tree.
pub fn find_memory_range(dt: &DeviceTree) -> (r: Option<(u64, u64)>)
    ensures
        r == memory_range(dt.tokens()),
{
    let mut nodes = match dt.iter_nodes_named("/".as_bytes(), "memory".as_bytes()) {
        Some(nodes) => nodes,
        None => {
            return None;
        },
    };
    let ghost all_nodes = nodes.nodes();
    let memory_node = match nodes.next() {
        Some(node) => node,
        None => {
            return None;
        },
    };
    if nodes.next().is_some() {
        return None;
    }
    proof {
        assert(all_nodes.skip(1).len() == 0);
        assert(all_nodes.len() == 1);
        assert(memory_node@ == all_nodes[0]);
    }
    let mut properties = memory_node.properties;
    let ghost all = properties.properties();
    let ghost mut skipped: int = 0;
    proof {
        assert(all.skip(0) =~= all);
    }
    loop
        invariant
            properties.well_formed(),
            all == all_nodes[0].properties,
            all_nodes.len() == 1,
            properties.address_cells() == all_nodes[0].address_cells,
            properties.size_cells() == all_nodes[0].size_cells,
            0 <= skipped <= all.len(),
            properties.properties() == all.skip(skipped),
            first_named(all, "reg".spec_bytes()) == skipped + first_named(
                all.skip(skipped),
                "reg".spec_bytes(),
            ),
            match find_node(dt.tokens(), "/".spec_bytes(), 0, (None, None)) {
                None => false,
                Some((inside, cells)) => all_nodes == named_nodes(
                    inside,
                    "memory".spec_bytes(),
                    (Some(address_cells_or_default(cells)), Some(size_cells_or_default(cells))),
                ),
            },
        decreases all.len() - skipped,
    {
        match properties.next() {
            None => {
                return None;
            },
            Some((name, value)) => {
                assert(all.skip(skipped)[0] == all[skipped]);
                if name_is(name, "reg") {
                    proof {
                        lemma_names_differ();
                    }
                    let registers = match value.into_reg() {
                        Some(registers) => registers,
                        None => {
                            return None;
                        },
                    };
                    let mut regions = registers.iter();
                    let range = match regions.next() {
                        Some(range) => range,
                        None => {
                            return None;
                        },
                    };
                    if regions.next().is_some() {
                        return None;
                    }
                    return Some(range);
                }
                proof {
                    assert(all.skip(skipped).skip(1) =~= all.skip(skipped + 1));
                    skipped = skipped + 1;
                }
            },
        }
    }
}

/// Whether the memory subsystem can manage the memory of `length` bytes at `start`: the
/// memory starts at a 1-GiB boundary that is not zero, is a whole number of 4-KiB pages,
/// and lies in the 48-bit address space.
pub open spec fn range_usable(start: u64, length: u64) -> bool {
    &&& start > 0
    &&& length > 0
    &&& start % KERNEL_BLOCK_SIZE == 0
    &&& length % 0x1000 == 0
    &&& start + length <= ADDRESS_SPACE_SIZE
    &&& length <= usize::MAX
}

/// The properties of the mapping of the memory: normal memory that the kernel can write
/// and execute.
pub open spec fn ram_properties() -> MemoryProperties {
    MemoryProperties {
        kind: MemoryKind::Normal,
        user_space_access: false,
        writable: true,
        executable: true,
        shareability: Shareability::Global,
    }
}

/// The properties of the mapping of the addresses below the memory: device memory that
/// the kernel can write.
pub open spec fn device_properties() -> MemoryProperties {
    MemoryProperties {
        kind: MemoryKind::Device,
        user_space_access: false,
        writable: true,
        executable: false,
        shareability: Shareability::Global,
    }
}

/// The number of bytes of address space that an entry of a root table covers.
pub const ROOT_SPAN: u64 = 0x80_0000_0000;

/// The number of whole pages of 4 KiB in the region `region`.
pub open spec fn region_pages(region: (u64, usize)) -> int {
    (region.0 + region.1 - spec_align_up(region.0, PageSize::FourKiB)) / 0x1000
}

/// The number of pages that are free once the regions `regions` have been added to the
/// page allocator.
pub open spec fn seeded_pages(regions: Seq<(u64, usize)>) -> int
    decreases regions.len(),
{
    if regions.len() == 0 {
        0
    } else {
        seeded_pages(regions.drop_last()) + region_pages(regions.last())
    }
}

/// The number of tables that the kernel's mappings of the memory of `length` bytes at
/// `start` and of the addresses below it take pages for, in tables of which only the root
/// is there: one for each entry of the root table from the first down to the one of the
/// memory's last block.
pub open spec fn tables_for_memory(start: u64, length: u64) -> nat {
    tables_needed(
        0,
        1,
        PageSize::FourKiB,
        start as int,
        blocks_for(length) * KERNEL_BLOCK_SIZE,
    ) + tables_needed(0, 1, PageSize::FourKiB, 0, start - start % ROOT_SPAN)
}

/// The number of 1-GiB blocks that hold `length` bytes.
pub open spec fn blocks_for(length: u64) -> int {
    (length + KERNEL_BLOCK_SIZE - 1) / (KERNEL_BLOCK_SIZE as int)
}

/// Initialize the memory subsystem: the page allocator for the memory that the device
/// tree describes, without the regions `reserved_regions` (the kernel's image and the
/// device tree blob, in the order of their addresses); the kernel page tables, with their
/// root table at `root_table_address`, which map the memory and the addresses below it to
/// themselves in 1-GiB blocks; and the heap.
///
/// # Errors
/// - [`InitError::DeviceTree`] if the device tree does not describe one range of memory,
///   the range cannot be managed ([`range_usable`]), or the reserved regions are out of
///   order.
/// - [`InitError::Memory`] with `OutOfMemory` if no memory is left, and with `InvalidSize`
///   if a region that is left holds no whole page.
/// - [`InitError::PageTables`] with `Allocator` and `OutOfMemory` if the memory that is left
///   holds fewer pages than the mappings need tables ([`tables_for_memory`]).
///
/// In every other case the memory subsystem comes up.
pub fn init(
    dt: &DeviceTree,
    reserved_regions: Vec<(u64, usize)>,
    root_table_address: PhysicalAddress,
) -> (r: Result<MemorySystem, InitError>)
    requires
        0 < root_table_address.addr() < ADDRESS_SPACE_SIZE,
        root_table_address.addr() % 0x1000 == 0,
    ensures
        match memory_range(dt.tokens()) {
            None => r is Err && r->Err_0 is DeviceTree,
            Some((start, length)) => {
                if !range_usable(start, length) || !ordered_disjoint(reserved_regions@) {
                    r is Err && r->Err_0 is DeviceTree
                } else {
                    let regions = difference((start, length as usize), reserved_regions@);
                    if regions.len() == 0 {
                        r is Err && r->Err_0 is Memory && r->Err_0->Memory_source
                            == MemoryError::OutOfMemory
                    } else if exists|k: int|
                        0 <= k < regions.len() && !holds_page(#[trigger] regions[k]) {
                        r is Err && r->Err_0 is Memory && r->Err_0->Memory_source
                            == MemoryError::InvalidSize
                    } else if seeded_pages(regions) < tables_for_memory(start, length) {
                        r is Err && r->Err_0 is PageTables && r->Err_0->PageTables_source
                            is Allocator && r->Err_0->PageTables_source->Allocator_source
                            == MemoryError::OutOfMemory
                    } else {
                        r is Ok
                    }
                }
            },
        },
        r is Ok ==> {
            let system = r->Ok_0;
            let start = memory_range(dt.tokens()).unwrap().0;
            let length = memory_range(dt.tokens()).unwrap().1;
            &&& range_usable(start, length)
            &&& system.page_allocator.consistent()
            &&& system.page_allocator.spec_page_size() == PageSize::FourKiB
            &&& forall|address: int|
                #[trigger] system.page_allocator.is_free(address) ==> start <= address < start
                    + length && !covered(reserved_regions@, address)
            &&& system.kernel_page_tables.well_formed()
            &&& system.kernel_page_tables.spec_high_tag()
            &&& system.kernel_page_tables.spec_root_address() == root_table_address.addr()
            &&& forall|i: int|
                0 <= i < blocks_for(length) * KERNEL_BLOCK_SIZE
                    ==> #[trigger] system.kernel_page_tables.mapping(
                    (KERNEL_TAG + start + i) as u64,
                ) == Some((start + i, ram_properties().spec_encode()))
            &&& forall|i: int|
                0 <= i < start ==> #[trigger] system.kernel_page_tables.mapping(
                    (KERNEL_TAG + i) as u64,
                ) == Some((i, device_properties().spec_encode()))
            &&& system.heap.well_formed()
            &&& system.heap@.initialized
            &&& system.heap@.free.len() == 0
            &&& system.heap@.live.len() == 0
        },
{
    let page_size = PageSize::FourKiB;
    let (memory_start, memory_length) = match find_memory_range(dt) {
        Some(range) => range,
        None => {
            return Err(InitError::DeviceTree { cause: "device tree has one memory range" });
        },
    };
    if memory_start == 0 || memory_length == 0 || memory_start % KERNEL_BLOCK_SIZE != 0
        || memory_length % 0x1000 != 0 || memory_start > ADDRESS_SPACE_SIZE || memory_length
        > ADDRESS_SPACE_SIZE - memory_start || memory_length > usize::MAX as u64 {
        return Err(InitError::DeviceTree { cause: "memory range can be managed" });
    }
    if !regions_ordered(&reserved_regions) {
        return Err(InitError::DeviceTree { cause: "reserved regions are in order" });
    }
    let whole = (memory_start, memory_length as usize);
    let ghost reserved = reserved_regions@;
    let memory_regions = subtract_ranges(whole, reserved_regions).collect();
    proof {
        lemma_difference(whole, reserved);
        lemma_tagged(memory_start);
        lemma_tagged(0);
    }
    let mut pa = PlatformPageAllocator::new(page_size, memory_start, memory_length as usize);
    if memory_regions.len() == 0 {
        return Err(InitError::Memory { source: MemoryError::OutOfMemory });
    }
    let mut index: usize = 0;
    proof {
        assert forall|address: int| #[trigger] pa@.is_free(address) implies covered(
            memory_regions@.take(0),
            address,
        ) by {}
    }
    while index < memory_regions.len()
        invariant
            index <= memory_regions@.len(),
            regions_added(&pa, memory_regions@, index as int, whole, reserved),
            memory_regions@ == difference(whole, reserved),
            ordered_disjoint(memory_regions@),
            whole == (memory_start, memory_length as usize),
            whole.0 + whole.1 <= ADDRESS_SPACE_SIZE,
            forall|k: int| 0 <= k < memory_regions@.len() ==> (#[trigger] memory_regions@[k]).1 > 0,
            forall|k: int|
                0 <= k < memory_regions@.len() ==> whole.0 <= (#[trigger] memory_regions@[k]).0
                    && memory_regions@[k].0 + memory_regions@[k].1 <= range_end(whole),
            forall|x: int|
                covered(memory_regions@, x) <==> (in_range(whole, x) && !covered(reserved, x)),
            pa.consistent(),
            memory_range(dt.tokens()) == Some((memory_start, memory_length)),
            range_usable(memory_start, memory_length),
            ordered_disjoint(reserved),
            reserved == reserved_regions@,
            forall|k: int| 0 <= k < index ==> holds_page(#[trigger] memory_regions@[k]),
            pa@.total_pages_free() == seeded_pages(memory_regions@.take(index as int)),
        decreases memory_regions@.len() - index,
    {
        if !add_region(&mut pa, &memory_regions, index, Ghost(whole), Ghost(reserved)) {
            assert(!holds_page(memory_regions@[index as int]));
            return Err(InitError::Memory { source: MemoryError::InvalidSize });
        }
        proof {
            assert(memory_regions@.take(index + 1).drop_last() =~= memory_regions@.take(
                index as int,
            ));
        }
        index = index + 1;
    }
    proof {
        assert(memory_regions@.take(memory_regions@.len() as int) =~= memory_regions@);
    }
    let tables = count_tables(
        memory_start,
        (memory_length + KERNEL_BLOCK_SIZE - 1) / KERNEL_BLOCK_SIZE * KERNEL_BLOCK_SIZE,
    ) + count_tables(0, memory_start - memory_start % ROOT_SPAN);
    if (pa.total_pages_free() as u64) < tables {
        return Err(
            InitError::PageTables {
                source: PageTableError::Allocator { source: MemoryError::OutOfMemory },
            },
        );
    }
    let ghost seeded = pa;
    let heap = HeapAllocator::new();
    let pt = match map_kernel(&mut pa, root_table_address, memory_start, memory_length) {
        Ok(tables) => tables,
        Err(source) => {
            return Err(InitError::PageTables { source });
        },
    };
    proof {
        assert forall|address: int| #[trigger] pa.is_free(address) implies memory_start <= address
            < memory_start + memory_length && !covered(reserved, address) by {
            assert(seeded.is_free(address));
            assert(covered(memory_regions@, address));
        }
    }
    Ok(MemorySystem { page_allocator: pa, kernel_page_tables: pt, heap })
}

/// The number of entries of a root table of 4-KiB pages that the `length` bytes from the
/// offset `start` on reach into.
fn count_tables(start: u64, length: u64) -> (count: u64)
    requires
        start + length <= ADDRESS_SPACE_SIZE,
    ensures
        count == tables_needed(0, 1, PageSize::FourKiB, start as int, length as int),
        count <= 514,
{
    let mut count: u64 = 0;
    let mut done: u64 = 0;
    while done < length
        invariant
            done <= length,
            start + length <= ADDRESS_SPACE_SIZE,
            count + tables_needed(0, 1, PageSize::FourKiB, start + done, length - done)
                == tables_needed(0, 1, PageSize::FourKiB, start as int, length as int),
            count * ROOT_SPAN <= start % ROOT_SPAN + done + ROOT_SPAN - 1,
            done < length ==> count * ROOT_SPAN <= start % ROOT_SPAN + done,
            0 < done < length ==> (start + done) % (ROOT_SPAN as int) == 0,
        decreases length - done,
    {
        let current = start + done;
        let within = current % ROOT_SPAN;
        let room = ROOT_SPAN - within;
        let part = if length - done < room {
            length - done
        } else {
            room
        };
        proof {
            lemma_tables_needed(
                0,
                1,
                PageSize::FourKiB,
                current as int,
                length - done,
                within as int,
                part as int,
            );
        }
        count = count + 1;
        done = done + part;
    }
    count
}

/// Maps the memory of `length` bytes at `start`, rounded up to blocks of 1 GiB, and the
/// addresses below it to themselves in new kernel tables with the root table at
/// `root_table_address`: the memory as normal memory, the addresses below it as device
/// memory.
///
/// # Errors
/// `Allocator` if the page allocator has fewer pages to spare than the mappings need
/// tables ([`tables_for_memory`]).
fn map_kernel(
    pa: &mut PlatformPageAllocator,
    root_table_address: PhysicalAddress,
    start: u64,
    length: u64,
) -> (r: Result<PageTables, PageTableError>)
    requires
        old(pa).consistent(),
        old(pa).spec_page_size() == PageSize::FourKiB,
        range_usable(start, length),
        0 < root_table_address.addr() < ADDRESS_SPACE_SIZE,
        root_table_address.addr() % 0x1000 == 0,
    ensures
        final(pa).consistent(),
        final(pa).spec_page_size() == PageSize::FourKiB,
        forall|address: int| #[trigger] final(pa).is_free(address) ==> old(pa).is_free(address),
        old(pa).spare_pages() >= tables_for_memory(start, length) ==> r is Ok,
        r is Err ==> r->Err_0 is Allocator,
        r is Ok ==> {
            let tables = r->Ok_0;
            &&& tables.well_formed()
            &&& tables.spec_high_tag()
            &&& tables.spec_root_address() == root_table_address.addr()
            &&& forall|i: int|
                0 <= i < blocks_for(length) * KERNEL_BLOCK_SIZE ==> #[trigger] tables.mapping(
                    (KERNEL_TAG + start + i) as u64,
                ) == Some((start + i, ram_properties().spec_encode()))
            &&& forall|i: int|
                0 <= i < start ==> #[trigger] tables.mapping((KERNEL_TAG + i) as u64) == Some(
                    (i, device_properties().spec_encode()),
                )
        },
{
    let page_size = PageSize::FourKiB;
    let mut pt = PageTables::from_existing(page_size, root_table_address, true);
    let ghost empty = pt;
    let block_size = MapBlockSize::largest_supported_block_size(page_size);
    let blocks = (length + KERNEL_BLOCK_SIZE - 1) / KERNEL_BLOCK_SIZE;
    let shared = start % ROOT_SPAN;
    let below = start - shared;
    proof {
        lemma_blocks_fit(start, length);
        lemma_tagged(start);
        lemma_tagged(below);
        lemma_tagged(0);
        lemma_below(start);
    }
    let ram = MemoryProperties {
        kind: MemoryKind::Normal,
        user_space_access: false,
        writable: true,
        executable: true,
        shareability: Shareability::Global,
    };
    if let Err(source) = pt.map(
        pa,
        VirtualAddress::new(start | KERNEL_TAG),
        PhysicalAddress::new(start),
        blocks as usize,
        block_size,
        &ram,
    ) {
        proof {
            lemma_allocator_error(
                &empty,
                (start | KERNEL_TAG) as u64,
                blocks * KERNEL_BLOCK_SIZE,
                block_size,
                source,
            );
        }
        return Err(source);
    }
    let ghost with_memory = pt;
    let device = MemoryProperties {
        kind: MemoryKind::Device,
        user_space_access: false,
        writable: true,
        executable: false,
        shareability: Shareability::Global,
    };
    if shared > 0 {
        proof {
            assert(with_memory.obstacle_at((start | KERNEL_TAG) as u64, block_size) is None) by {
                assert(with_memory.obstacle_at(((start | KERNEL_TAG) + 0) as u64, block_size)
                    is None);
            }
            assert forall|i: int| 0 <= i < shared implies #[trigger] with_memory.obstacle_at(
                ((below | KERNEL_TAG) + i) as u64,
                block_size,
            ) is None by {
                let beside = ((below | KERNEL_TAG) + i) as u64;
                assert(beside % ADDRESS_SPACE_SIZE == below + i);
                assert((start | KERNEL_TAG) % ADDRESS_SPACE_SIZE == start);
                let span = ROOT_SPAN as int;
                let entry = start as int / span;
                vstd::arithmetic::div_mod::lemma_fundamental_div_mod(start as int, span);
                assert(span * entry == entry * span) by (nonlinear_arith);
                vstd::arithmetic::div_mod::lemma_fundamental_div_mod_converse(
                    below + i,
                    span,
                    entry,
                    i,
                );
                assert(with_memory.spec_page_size() == PageSize::FourKiB);
                with_memory.lemma_reachable_beside(
                    (start | KERNEL_TAG) as u64,
                    beside,
                    block_size,
                );
            }
        }
        if let Err(source) = pt.map(
            pa,
            VirtualAddress::new(below | KERNEL_TAG),
            PhysicalAddress::new(below),
            (shared / KERNEL_BLOCK_SIZE) as usize,
            block_size,
            &device,
        ) {
            proof {
                assert(false);
            }
            return Err(source);
        }
    }
    let ghost with_shared = pt;
    if below > 0 {
        if let Err(source) = pt.map(
            pa,
            VirtualAddress::new(KERNEL_TAG),
            PhysicalAddress::new(0),
            (below / KERNEL_BLOCK_SIZE) as usize,
            block_size,
            &device,
        ) {
            proof {
                lemma_allocator_error(&with_shared, KERNEL_TAG, below as int, block_size, source);
            }
            return Err(source);
        }
    }
    proof {
        assert forall|i: int|
            0 <= i < blocks_for(length) * KERNEL_BLOCK_SIZE implies #[trigger] pt.mapping(
            (KERNEL_TAG + start + i) as u64,
        ) == Some((start + i, ram_properties().spec_encode())) by {
            let address = (KERNEL_TAG + start + i) as u64;
            assert(address == ((start | KERNEL_TAG) + i) as u64);
            assert(with_memory.mapping(address) == Some(
                (start + i, ram_properties().spec_encode()),
            ));
            assert(address % ADDRESS_SPACE_SIZE == start + i);
            assert(with_shared.mapping(address) == with_memory.mapping(address));
            assert(pt.mapping(address) == with_shared.mapping(address));
        }
        assert forall|i: int| 0 <= i < start implies #[trigger] pt.mapping(
            (KERNEL_TAG + i) as u64,
        ) == Some((i, device_properties().spec_encode())) by {
            let address = (KERNEL_TAG + i) as u64;
            assert(address % ADDRESS_SPACE_SIZE == i);
            if i >= below {
                assert(address == ((below | KERNEL_TAG) + (i - below)) as u64);
                assert(with_shared.mapping(address) == Some(
                    (below + (i - below), device_properties().spec_encode()),
                ));
                assert(pt.mapping(address) == with_shared.mapping(address));
            } else {
                assert(address == (KERNEL_TAG + i) as u64);
            }
        }
    }
    Ok(pt)
}

/// Whether the regions `regions` are ordered by start and do not overlap.
fn regions_ordered(regions: &Vec<(u64, usize)>) -> (ordered: bool)
    ensures
        ordered == ordered_disjoint(regions@),
{
    let mut i: usize = 1;
    while i < regions.len()
        invariant
            1 <= i,
            forall|a: int, b: int|
                0 <= a < b < regions@.len() && b < i ==> range_end(#[trigger] regions@[a]) <= (
                #[trigger] regions@[b]).0,
        decreases regions@.len() - i,
    {
        let mut j: usize = 0;
        while j < i
            invariant
                j <= i < regions@.len(),
                forall|a: int, b: int|
                    0 <= a < b < regions@.len() && b < i ==> range_end(#[trigger] regions@[a]) <= (
                    #[trigger] regions@[b]).0,
                forall|a: int| 0 <= a < j ==> range_end(#[trigger] regions@[a]) <= regions@[i as int].0,
            decreases i - j,
        {
            let end = regions[j].0.saturating_add(regions[j].1 as u64);
            if end > regions[i].0 {
                return false;
            }
            j = j + 1;
        }
        i = i + 1;
    }
    true
}

/// Whether the region `region` holds a whole page of 4 KiB.
pub open spec fn holds_page(region: (u64, usize)) -> bool {
    spec_align_up(region.0, PageSize::FourKiB) + 0x1000 <= region.0 + region.1
}

/// Whether the allocator `pa` manages `whole` and holds as free memory only memory of
/// the first `count` of the regions `regions`, which is memory of `whole` outside of the
/// regions `reserved`.
pub open spec fn regions_added(
    pa: &PlatformPageAllocator,
    regions: Seq<(u64, usize)>,
    count: int,
    whole: (u64, usize),
    reserved: Seq<(u64, usize)>,
) -> bool {
    &&& pa@.page_size == PageSize::FourKiB
    &&& pa@.base == whole.0
    &&& pa@.end == whole.0 + whole.1
    &&& forall|address: int|
        #[trigger] pa@.is_free(address) ==> covered(regions.take(count), address)
}

/// Adds the region at `index` of `regions` to the allocator. Returns whether the region
/// could be used.
fn add_region(
    pa: &mut PlatformPageAllocator,
    regions: &Vec<(u64, usize)>,
    index: usize,
    Ghost(whole): Ghost<(u64, usize)>,
    Ghost(reserved): Ghost<Seq<(u64, usize)>>,
) -> (added: bool)
    requires
        old(pa).consistent(),
        index < regions@.len(),
        regions@ == difference(whole, reserved),
        ordered_disjoint(regions@),
        whole.0 + whole.1 <= ADDRESS_SPACE_SIZE,
        forall|k: int| 0 <= k < regions@.len() ==> (#[trigger] regions@[k]).1 > 0,
        forall|k: int|
            0 <= k < regions@.len() ==> whole.0 <= (#[trigger] regions@[k]).0 && regions@[k].0
                + regions@[k].1 <= range_end(whole),
        forall|x: int| covered(regions@, x) <==> (in_range(whole, x) && !covered(reserved, x)),
        regions_added(old(pa), regions@, index as int, whole, reserved),
    ensures
        final(pa).consistent(),
        added == holds_page(regions@[index as int]),
        added ==> regions_added(final(pa), regions@, index + 1, whole, reserved),
        added ==> final(pa)@.total_pages_free() == old(pa)@.total_pages_free() + region_pages(
            regions@[index as int],
        ),
        final(pa)@.same_region(old(pa)@),
{
    let (region_start, region_length) = regions[index];
    proof {
        let region = regions@[index as int];
        assert(region.1 > 0);
        assert forall|address: int|
            region_start <= address < region_start + region_length implies !pa@.is_free(
            address,
        ) by {
            if pa@.is_free(address) {
                let earlier = regions@.take(index as int);
                let k = choose|k: int|
                    0 <= k < earlier.len() && in_range(#[trigger] earlier[k], address);
                assert(earlier[k] == regions@[k]);
                assert(range_end(regions@[k]) <= regions@[index as int].0);
            }
        }
        pa.lemma_consistent();
        if spec_align_up(region_start, PageSize::FourKiB) < region_start + region_length {
            pa@.lemma_free_of(
                spec_align_up(region_start, PageSize::FourKiB) as int,
                region_start + region_length,
            );
        }
    }
    let added = pa.add_memory_region(region_start, region_length);
    proof {
        assert forall|address: int| #[trigger] pa@.is_free(address) implies covered(
            regions@.take(index + 1),
            address,
        ) by {
            let now = regions@.take(index + 1);
            if old(pa)@.is_free(address) {
                let earlier = regions@.take(index as int);
                let k = choose|k: int| 0 <= k < earlier.len() && in_range(#[trigger] earlier[k], address);
                assert(now[k] == earlier[k]);
                assert(in_range(now[k], address));
            } else {
                assert(now[index as int] == regions@[index as int]);
                assert(in_range(now[index as int], address));
            }
        }
    }
    added
}

/// The 1-GiB blocks that hold a range that can be managed lie in the 48-bit address
/// space, and so do the blocks below the range; there is a block of either kind, and there
/// are fewer than 2^32 of them.
proof fn lemma_blocks_fit(start: u64, length: u64)
    requires
        range_usable(start, length),
    ensures
        1 <= blocks_for(length) <= 0x4_0000,
        start + blocks_for(length) * KERNEL_BLOCK_SIZE <= ADDRESS_SPACE_SIZE,
        1 <= start / KERNEL_BLOCK_SIZE <= 0x4_0000,
        (start / KERNEL_BLOCK_SIZE) * KERNEL_BLOCK_SIZE == start,
{
    let block = KERNEL_BLOCK_SIZE as int;
    let blocks = blocks_for(length);
    let below = start as int / block;
    vstd::arithmetic::div_mod::lemma_fundamental_div_mod(start as int, block);
    vstd::arithmetic::div_mod::lemma_fundamental_div_mod(length + block - 1, block);
    assert(block * below == below * block) by (nonlinear_arith);
    assert(block * blocks == blocks * block) by (nonlinear_arith);
    assert(below + blocks <= 0x4_0000 && blocks >= 1 && below >= 1) by (nonlinear_arith)
        requires
            below * block + length <= 0x4_0000 * block,
            blocks * block <= length + block - 1,
            blocks * block > length - 1,
            below * block > 0,
            length > 0,
            block == 0x4000_0000,
    ;
    assert((below + blocks) * block <= 0x4_0000 * block) by (nonlinear_arith)
        requires
            below + blocks <= 0x4_0000,
            block > 0,
    ;
    assert((below + blocks) * block == below * block + blocks * block) by (nonlinear_arith);
}

/// A mapping in tables in which no larger block stands in the way of any address fails
/// for want of a page for a table only.
proof fn lemma_allocator_error(
    tables: &PageTables,
    virtual_start: u64,
    length: int,
    size: MapBlockSize,
    error: PageTableError,
)
    requires
        forall|address: u64| #[trigger] tables.obstacle_at(address, size) != Some(Obstacle::Larger),
        error is AlreadyMapped || error is Allocator,
        error is AlreadyMapped ==> tables.stopped_by_block(virtual_start, length, size, error),
    ensures
        error is Allocator,
{
    if error is AlreadyMapped {
        let at = error->AlreadyMapped_address.addr() - virtual_start;
        assert(tables.obstacle_at((virtual_start + at) as u64, size) == Some(Obstacle::Larger));
    }
}

/// The part of a multiple of 1 GiB below its entry of the root table, and the part in
/// the entry, are multiples of 1 GiB.
proof fn lemma_below(start: u64)
    requires
        start % KERNEL_BLOCK_SIZE == 0,
        start <= ADDRESS_SPACE_SIZE,
    ensures
        (start % ROOT_SPAN) % KERNEL_BLOCK_SIZE == 0,
        ((start - start % ROOT_SPAN) as u64) % KERNEL_BLOCK_SIZE == 0,
        ((start - start % ROOT_SPAN) as u64) % ROOT_SPAN == 0,
        (start % ROOT_SPAN) / KERNEL_BLOCK_SIZE * KERNEL_BLOCK_SIZE == start % ROOT_SPAN,
        ((start - start % ROOT_SPAN) as u64) / KERNEL_BLOCK_SIZE * KERNEL_BLOCK_SIZE == start
            - start % ROOT_SPAN,
        (start % ROOT_SPAN) / KERNEL_BLOCK_SIZE <= 512,
        ((start - start % ROOT_SPAN) as u64) / KERNEL_BLOCK_SIZE <= 0x4_0000,
{
    assert(start % 0x4000_0000 == 0 && start <= 0x1_0000_0000_0000 ==> (start % 0x80_0000_0000)
        % 0x4000_0000 == 0 && ((start - start % 0x80_0000_0000) as u64) % 0x4000_0000 == 0 && ((
    start - start % 0x80_0000_0000) as u64) % 0x80_0000_0000 == 0 && (start % 0x80_0000_0000)
        / 0x4000_0000 * 0x4000_0000 == start % 0x80_0000_0000 && ((start - start
        % 0x80_0000_0000) as u64) / 0x4000_0000 * 0x4000_0000 == (start - start
        % 0x80_0000_0000) as u64 && (start % 0x80_0000_0000) / 0x4000_0000 <= 512 && ((start
        - start % 0x80_0000_0000) as u64) / 0x4000_0000 <= 0x4_0000) by (bit_vector);
}

/// The address with the kernel tag of a 48-bit address is the address plus the tag; it
/// carries the kernel tag, and is a multiple of 1 GiB if the address is.
proof fn lemma_tagged(address: u64)
    requires
        address <= ADDRESS_SPACE_SIZE,
    ensures
        address < ADDRESS_SPACE_SIZE ==> address | KERNEL_TAG == address + KERNEL_TAG,
        address < ADDRESS_SPACE_SIZE ==> crate::memory::has_kernel_tag(address | KERNEL_TAG),
        address < ADDRESS_SPACE_SIZE ==> (address | KERNEL_TAG) % ADDRESS_SPACE_SIZE == address,
        address % KERNEL_BLOCK_SIZE == 0 ==> (address | KERNEL_TAG) % KERNEL_BLOCK_SIZE == 0,
        address % KERNEL_BLOCK_SIZE == 0 ==> address % 0x1000 == 0,
        KERNEL_TAG % ADDRESS_SPACE_SIZE == 0,
{
    assert((address < 0x1_0000_0000_0000 ==> (address | 0xffff_0000_0000_0000) == address
        + 0xffff_0000_0000_0000 && (address | 0xffff_0000_0000_0000) & 0xffff_0000_0000_0000
        == 0xffff_0000_0000_0000 && (address | 0xffff_0000_0000_0000) % 0x1_0000_0000_0000
        == address) && (address % 0x4000_0000 == 0 ==> (address | 0xffff_0000_0000_0000)
        % 0x4000_0000 == 0 && address % 0x1000 == 0) && 0xffff_0000_0000_0000u64
        % 0x1_0000_0000_0000 == 0) by (bit_vector);
}

} // verus!
