//! Page tables data structure.
//!
//! A [`PageTables`] value holds the tree of translation tables of one address space: the
//! entries of each table, word for word as the hardware reads them, and the tables that
//! the entries point to. A table owns the tables below it, so no table has two parents. The
//! memory of the tables is not touched here: whoever owns it writes the entries there.
use vstd::arithmetic::div_mod::{
    lemma_add_mod_noop, lemma_fundamental_div_mod, lemma_fundamental_div_mod_converse,
    lemma_mod_add_multiples_vanish, lemma_small_mod, lemma_sub_mod_noop,
};
use vstd::prelude::*;

use super::{
    has_kernel_tag, Error as MemoryError, PageAllocator, PageSize, PhysicalAddress,
    VirtualAddress,
};
use crate::bits::{bit_range_u64, spec_bit_range};

verus! {

/// Defines required cache coherence for memory shared across different cores.
#[derive(Clone, Copy, Debug, PartialEq, Eq, Structural)]
pub enum Shareability {
    /// The memory is not shared, each core can have its own cache.
    Local,
    /// The memory is shared between cores in the same cluster, so inner caches must stay
    /// coherent.
    Cluster,
    /// The memory is shared between all cores in the system, so all (inner and outer) caches
    /// must stay coherent.
    Global,
}

impl Shareability {
    /// The bits that stand for the shareability in a table entry.
    pub open spec fn spec_encode(&self) -> u64 {
        match self {
            Shareability::Local => 0b00,
            Shareability::Global => 0b10,
            Shareability::Cluster => 0b11,
        }
    }

    /// The bits that stand for the shareability in a table entry.
    pub fn encode(&self) -> (bits: u64)
        ensures
            bits == self.spec_encode(),
    {
        match self {
            Shareability::Local => 0b00,
            Shareability::Global => 0b10,
            Shareability::Cluster => 0b11,
        }
    }

    /// The shareability that the bits `value` stand for, if any.
    pub fn from_bits(value: u64) -> (r: Option<Shareability>)
        ensures
            r is Some <==> (value == 0b00 || value == 0b10 || value == 0b11),
            r is Some ==> r->0.spec_encode() == value,
    {
        match value {
            0b00 => Some(Shareability::Local),
            0b10 => Some(Shareability::Global),
            0b11 => Some(Shareability::Cluster),
            _ => None,
        }
    }
}

impl Default for Shareability {
    fn default() -> (s: Self)
        ensures
            s == Shareability::Global,
    {
        Shareability::Global
    }
}

/// Types of caching available for memory operations.
#[derive(Clone, Copy, Debug, PartialEq, Eq, Structural)]
pub enum MemoryKind {
    /// "Normal" cached memory.
    Normal,
    /// Device memory that is uncached with strict access order (no gathering, reordering or
    /// early write acknowledgement). Ideal for memory mapped I/O.
    Device,
}

/// The correct value that must be written to the Memory Attribute Indirection Register
/// (`MAIR_EL1`) for [`MemoryProperties`] to correctly encode the meaning of [`MemoryKind`].
///
/// Each byte in the MAIR maps to a [`MemoryKind`].
///
/// | Index | [`MemoryKind`] | Byte Value | Description |
/// |-------|----------------|------------|-------------|
/// |  `0`  | [`MemoryKind::Device`] |  `0b0000_0000`   | Device-nGnRE memory |
/// |  `1`  | [`MemoryKind::Normal`] |  `0b1111_1111`   | Normal memory, write back, read/write allocate, non-transient cache for inner and outer sharing. |
pub const MAIR_VALUE: u64 = 0x0000_0000_0000_ff00;

impl MemoryKind {
    /// The index into the memory attribute indirection register that stands for the kind.
    pub open spec fn spec_encode(&self) -> u64 {
        match self {
            MemoryKind::Device => 0b000,
            MemoryKind::Normal => 0b001,
        }
    }

    /// The index into the memory attribute indirection register that stands for the kind.
    pub fn encode(&self) -> (bits: u64)
        ensures
            bits == self.spec_encode(),
    {
        match self {
            MemoryKind::Device => 0b000,
            MemoryKind::Normal => 0b001,
        }
    }

    /// The kind of memory that the index `value` stands for, if any.
    pub fn from_bits(value: u64) -> (r: Option<MemoryKind>)
        ensures
            r is Some <==> (value == 0b000 || value == 0b001),
            r is Some ==> r->0.spec_encode() == value,
    {
        match value {
            0b000 => Some(MemoryKind::Device),
            0b001 => Some(MemoryKind::Normal),
            _ => None,
        }
    }
}

impl Default for MemoryKind {
    fn default() -> (k: Self)
        ensures
            k == MemoryKind::Normal,
    {
        MemoryKind::Normal
    }
}

/// The properties given to a particular memory mapping.
#[derive(Clone, Copy, Debug, PartialEq, Eq, Structural)]
pub struct MemoryProperties {
    /// Determines cachability and load/store requirements.
    pub kind: MemoryKind,
    /// Enables access to this memory from user space (EL0).
    pub user_space_access: bool,
    /// Enable writes to this memory.
    pub writable: bool,
    /// Instructions can be fetched from this memory.
    pub executable: bool,
    /// Required cache coherence across cores for this memory.
    pub shareability: Shareability,
}

/// The bit of a flag: one if the flag is set.
pub open spec fn flag_bit(flag: bool) -> u64 {
    if flag {
        1
    } else {
        0
    }
}

/// The bit of a flag: one if the flag is set.
fn bit_of(flag: bool) -> (b: u64)
    ensures
        b == flag_bit(flag),
{
    if flag {
        1
    } else {
        0
    }
}

/// The bits of a table entry that hold the properties of a mapping.
pub const PROPERTY_BITS: u64 = 0x0060_0000_0000_03dc;

impl MemoryProperties {
    /// The bits that stand for the properties in a table entry: never-execute for both
    /// privilege levels (bits 54 and 53), shareability (bits 9 and 8), read-only (bit 7),
    /// access from user space (bit 6) and the kind of memory (bits 4 to 2).
    pub open spec fn spec_encode(&self) -> u64 {
        (flag_bit(!self.executable) << 54) | (flag_bit(!self.executable) << 53) | (
        self.shareability.spec_encode() << 8) | (flag_bit(!self.writable) << 7) | (flag_bit(
            self.user_space_access,
        ) << 6) | (self.kind.spec_encode() << 2)
    }

    /// The bits that stand for the properties in a table entry.
    pub fn encode(&self) -> (bits: u64)
        ensures
            bits == self.spec_encode(),
            bits & !PROPERTY_BITS == 0,
    {
        let x = bit_of(!self.executable);
        let s = self.shareability.encode();
        let w = bit_of(!self.writable);
        let u = bit_of(self.user_space_access);
        let k = self.kind.encode();
        let bits = (x << 54) | (x << 53) | (s << 8) | (w << 7) | (u << 6) | (k << 2);
        assert(bits & !0x0060_0000_0000_03dcu64 == 0) by (bit_vector)
            requires
                x <= 1,
                s <= 3,
                w <= 1,
                u <= 1,
                k <= 1,
                bits == (x << 54) | (x << 53) | (s << 8) | (w << 7) | (u << 6) | (k << 2),
        ;
        bits
    }

    /// The properties that the bits of the table entry `raw_entry` stand for, if its
    /// shareability and its kind of memory are known ones.
    pub fn decode(raw_entry: u64) -> (r: Option<Self>)
        ensures
            r is Some <==> (Shareability::from_bits_known((raw_entry >> 8) & 0b11)
                && MemoryKind::from_bits_known((raw_entry >> 2) & 0b111)),
            r is Some ==> {
                &&& r->0.executable == (((raw_entry >> 54) & 0x1) == 0)
                &&& r->0.shareability.spec_encode() == (raw_entry >> 8) & 0b11
                &&& r->0.writable == (((raw_entry >> 7) & 0x1) == 0)
                &&& r->0.user_space_access == (((raw_entry >> 6) & 0x1) == 1)
                &&& r->0.kind.spec_encode() == (raw_entry >> 2) & 0b111
            },
    {
        let shareability = match Shareability::from_bits((raw_entry >> 8) & 0b11) {
            Some(s) => s,
            None => {
                return None;
            },
        };
        let kind = match MemoryKind::from_bits((raw_entry >> 2) & 0b111) {
            Some(k) => k,
            None => {
                return None;
            },
        };
        Some(
            Self {
                executable: ((raw_entry >> 54) & 0x1) == 0,
                shareability,
                writable: ((raw_entry >> 7) & 0x1) == 0,
                user_space_access: ((raw_entry >> 6) & 0x1) == 1,
                kind,
            },
        )
    }
}

impl Shareability {
    /// Whether the bits `value` stand for a shareability.
    pub open spec fn from_bits_known(value: u64) -> bool {
        value == 0b00 || value == 0b10 || value == 0b11
    }
}

impl MemoryKind {
    /// Whether the index `value` stands for a kind of memory.
    pub open spec fn from_bits_known(value: u64) -> bool {
        value == 0b000 || value == 0b001
    }
}

impl Default for MemoryProperties {
    fn default() -> (p: Self)
        ensures
            p == (MemoryProperties {
                kind: MemoryKind::Normal,
                user_space_access: false,
                writable: false,
                executable: false,
                shareability: Shareability::Global,
            }),
    {
        MemoryProperties {
            kind: MemoryKind::Normal,
            user_space_access: false,
            writable: false,
            executable: false,
            shareability: Shareability::Global,
        }
    }
}

/// The size of the granule used in a mapping operation.
#[derive(PartialEq, Eq, Clone, Copy, Debug, Structural)]
pub enum MapBlockSize {
    /// Maps by single pages.
    Page,
    /// Maps by small blocks in the Level 2 table.
    /// (2MiB with 4KiB pages, 32MiB with 16KiB pages)
    SmallBlock,
    /// Maps by big blocks in the Level 1 table.
    /// (1GiB with 4KiB pages, not available with 16KiB pages)
    LargeBlock,
}

/// The number of entries in a table of pages of the size `page_size`.
pub open spec fn entries_per_page(page_size: PageSize) -> nat {
    match page_size {
        PageSize::FourKiB => 512,
        PageSize::SixteenKiB => 2048,
    }
}

/// The number of bytes of address space that one entry of a table at level `level` covers.
pub open spec fn entry_span(level: nat, page_size: PageSize) -> int {
    match page_size {
        PageSize::FourKiB => if level == 0 {
            0x80_0000_0000
        } else if level == 1 {
            0x4000_0000
        } else if level == 2 {
            0x20_0000
        } else {
            0x1000
        },
        PageSize::SixteenKiB => if level == 0 {
            0x8000_0000_0000
        } else if level == 1 {
            0x10_0000_0000
        } else if level == 2 {
            0x200_0000
        } else {
            0x4000
        },
    }
}

/// The number of bytes of address space that a table at level `level` covers: all of the
/// 48-bit address space at level 0, and what an entry of the level above covers otherwise.
pub open spec fn table_span(level: nat, page_size: PageSize) -> int {
    if level == 0 {
        0x1_0000_0000_0000
    } else {
        entry_span((level - 1) as nat, page_size)
    }
}

/// The level of the tables in which a block of the size `size` is mapped.
pub open spec fn level_of(size: MapBlockSize) -> nat {
    match size {
        MapBlockSize::Page => 3,
        MapBlockSize::SmallBlock => 2,
        MapBlockSize::LargeBlock => 1,
    }
}

/// Whether the hardware has blocks of the size `size` with pages of the size `page_size`.
pub open spec fn size_supported(size: MapBlockSize, page_size: PageSize) -> bool {
    !(size == MapBlockSize::LargeBlock && page_size == PageSize::SixteenKiB)
}

impl MapBlockSize {
    /// Returns the largest block size supported by the hardware for a given page size.
    pub fn largest_supported_block_size(page_size: PageSize) -> (size: Self)
        ensures
            size == (match page_size {
                PageSize::FourKiB => MapBlockSize::LargeBlock,
                PageSize::SixteenKiB => MapBlockSize::SmallBlock,
            }),
            size_supported(size, page_size),
    {
        match page_size {
            PageSize::FourKiB => MapBlockSize::LargeBlock,
            PageSize::SixteenKiB => MapBlockSize::SmallBlock,
        }
    }

    /// Returns the length in pages of this block size.
    /// Returns None if the block size is not supported in the current page size.
    pub fn length_in_pages(&self, page_size: PageSize) -> (r: Option<u64>)
        ensures
            r is Some <==> size_supported(*self, page_size),
            r is Some ==> r->0 * page_size.spec_bytes() == entry_span(level_of(*self), page_size),
    {
        let entries: u64 = match page_size {
            PageSize::FourKiB => 512,
            PageSize::SixteenKiB => 2048,
        };
        match self {
            MapBlockSize::Page => Some(1),
            MapBlockSize::SmallBlock => Some(entries),
            MapBlockSize::LargeBlock => match page_size {
                PageSize::FourKiB => Some(entries * entries),
                PageSize::SixteenKiB => None,
            },
        }
    }

    /// Returns the length in bytes of this block size.
    /// Returns None if the block size is not supported in the current page size.
    pub fn length_in_bytes(&self, page_size: PageSize) -> (r: Option<u64>)
        ensures
            r is Some <==> size_supported(*self, page_size),
            r is Some ==> r->0 == entry_span(level_of(*self), page_size),
    {
        match self.length_in_pages(page_size) {
            Some(pages) => Some(pages * page_size.bytes() as u64),
            None => None,
        }
    }
}

/// Errors that could arise in page table operations.
#[derive(Debug, Clone, Copy)]
#[allow(inconsistent_fields)]
pub enum Error {
    /// Address was expected to be mapped, but was not.
    NotMapped {
        /// Address that was not mapped in the region.
        address: VirtualAddress,
    },
    /// Address was mapped and cannot be remapped, for example because it was previously
    /// mapped with a larger block size.
    AlreadyMapped {
        /// Address that was already mapped in the region.
        address: VirtualAddress,
    },
    /// Error occurred in page allocator.
    Allocator {
        /// Cause of the error.
        source: MemoryError,
    },
    /// A mapping was requested that is too small or too large for the system.
    InvalidCount,
    /// Virtual address has the wrong tag value for the table.
    InvalidTag {
        /// Address that was invalid.
        value: VirtualAddress,
    },
    /// Address is improperly aligned for the requested block size.
    InvalidAlignment {
        /// Address that was unaligned (physical or virtual).
        value: u64,
    },
}

/// The bits of a table entry that hold the address of what the entry points to.
pub const ENTRY_ADDRESS_MASK: u64 = 0x0000_ffff_ffff_f000;

/// The access flag of a table entry.
pub const ACCESS_FLAG: u64 = 0x400;

/// The first address that is not a 48-bit address.
pub const ADDRESS_SPACE_SIZE: u64 = 0x1_0000_0000_0000;

/// An entry of a translation table.
#[derive(Eq, PartialEq, Debug, Clone, Copy, Structural)]
pub struct Entry(pub u64);

/// What an entry of a translation table stands for.
#[derive(Clone, Copy)]
pub enum DecodedEntry {
    /// Nothing is mapped.
    Empty,
    /// The table of the next level, at the address.
    Table(PhysicalAddress),
    /// A block of memory, at the address.
    Block(PhysicalAddress),
    /// A page of memory, at the address.
    Page(PhysicalAddress),
}

/// The kinds of entries of a translation table.
pub enum EntryKind {
    /// Nothing is mapped.
    Empty,
    /// The table of the next level.
    Table,
    /// A block of memory.
    Block,
    /// A page of memory.
    Page,
    /// Bits that stand for nothing at the entry's level.
    Invalid,
}

/// The kind of the entry `raw` in a table at level `level`.
pub open spec fn entry_kind(raw: u64, level: nat) -> EntryKind {
    let low = raw & 0b11;
    if low == 0b00 {
        EntryKind::Empty
    } else if low == 0b11 {
        if level == 3 {
            EntryKind::Page
        } else {
            EntryKind::Table
        }
    } else if low == 0b01 && level <= 2 {
        EntryKind::Block
    } else {
        EntryKind::Invalid
    }
}

/// The address that the entry `raw` points to.
pub open spec fn entry_address(raw: u64) -> u64 {
    raw & ENTRY_ADDRESS_MASK
}

/// The entry for the table of the next level at `address`.
pub open spec fn table_entry(address: u64) -> u64 {
    0b11 | (address & ENTRY_ADDRESS_MASK)
}

/// The entry for a block of memory at `address` with the properties `properties`.
pub open spec fn block_entry(address: u64, properties: u64) -> u64 {
    0b01 | address | properties | ACCESS_FLAG
}

/// The entry for a page of memory at `address` with the properties `properties`.
pub open spec fn page_entry(address: u64, properties: u64) -> u64 {
    0b11 | address | properties | ACCESS_FLAG
}

/// What the entries that are made stand for: an entry for a table, a block or a page
/// points to the address that it was made for, and an entry for a block or a page holds
/// the property bits that it was made with.
pub proof fn lemma_entries(address: u64, properties: u64)
    requires
        address < ADDRESS_SPACE_SIZE,
        address & 0xfff == 0,
        properties & !PROPERTY_BITS == 0,
    ensures
        table_entry(address) & 0b11 == 0b11,
        entry_address(table_entry(address)) == address,
        block_entry(address, properties) & 0b11 == 0b01,
        entry_address(block_entry(address, properties)) == address,
        page_entry(address, properties) & 0b11 == 0b11,
        entry_address(page_entry(address, properties)) == address,
        block_entry(address, properties) & PROPERTY_BITS == properties,
        page_entry(address, properties) & PROPERTY_BITS == properties,
        0u64 & 0b11 == 0,
{
    assert((0b11 | (address & 0x0000_ffff_ffff_f000u64)) & 0b11 == 0b11 && (0b11 | (address
        & 0x0000_ffff_ffff_f000u64)) & 0x0000_ffff_ffff_f000u64 == address && (0b01 | address
        | properties | 0x400u64) & 0b11 == 0b01 && (0b01 | address | properties | 0x400u64)
        & 0x0000_ffff_ffff_f000u64 == address && (0b11 | address | properties | 0x400u64) & 0b11
        == 0b11 && (0b11 | address | properties | 0x400u64) & 0x0000_ffff_ffff_f000u64 == address
        && (0b01 | address | properties | 0x400u64) & 0x0060_0000_0000_03dcu64 == properties && (
    0b11 | address | properties | 0x400u64) & 0x0060_0000_0000_03dcu64 == properties && 0u64 & 0b11
        == 0) by (bit_vector)
        requires
            address < 0x1_0000_0000_0000u64,
            address & 0xfff == 0,
            properties & !0x0060_0000_0000_03dcu64 == 0,
    ;
}

impl Entry {
    /// Constructs a page table entry that is unoccupied.
    pub fn empty() -> (e: Self)
        ensures
            e.0 == 0,
    {
        Self(0)
    }

    /// Construct a page table entry pointing to a lower table.
    pub fn for_table(table_address: PhysicalAddress) -> (e: Self)
        requires
            table_address.addr() & 0xfff == 0,
        ensures
            e.0 == table_entry(table_address.addr()),
    {
        let address = table_address.to_addr();
        Self(0b11 | (address & ENTRY_ADDRESS_MASK))
    }

    /// Construct a page table entry pointing to a memory block.
    pub fn for_block(base_address: PhysicalAddress, properties: &MemoryProperties) -> (e: Self)
        requires
            base_address.addr() & 0xfff == 0,
        ensures
            e.0 == block_entry(base_address.addr(), properties.spec_encode()),
    {
        let address = base_address.to_addr();
        Self(0b01 | address | properties.encode() | ACCESS_FLAG)
    }

    /// Construct a page table entry pointing to a memory page.
    pub fn for_page(base_address: PhysicalAddress, properties: &MemoryProperties) -> (e: Self)
        requires
            base_address.addr() & 0xfff == 0,
        ensures
            e.0 == page_entry(base_address.addr(), properties.spec_encode()),
    {
        let address = base_address.to_addr();
        Self(0b11 | address | properties.encode() | ACCESS_FLAG)
    }

    /// What the entry stands for in a table at level `occuring_at_level`.
    pub fn decode(self, occuring_at_level: u8) -> (d: DecodedEntry)
        requires
            !(entry_kind(self.0, occuring_at_level as nat) is Invalid),
        ensures
            match entry_kind(self.0, occuring_at_level as nat) {
                EntryKind::Empty => d is Empty,
                EntryKind::Table => d is Table && d->Table_0.addr() == entry_address(self.0),
                EntryKind::Block => d is Block && d->Block_0.addr() == entry_address(self.0),
                EntryKind::Page => d is Page && d->Page_0.addr() == entry_address(self.0),
                EntryKind::Invalid => false,
            },
            entry_address(self.0) < ADDRESS_SPACE_SIZE,
    {
        let raw = self.0;
        let bits = raw & ENTRY_ADDRESS_MASK;
        assert(bits < 0x1_0000_0000_0000u64) by (bit_vector)
            requires
                bits == raw & 0x0000_ffff_ffff_f000u64,
        ;
        let low = raw & 0b11;
        assert(low <= 3) by (bit_vector)
            requires
                low == raw & 0b11,
        ;
        let address = PhysicalAddress::new(bits);
        if low == 0b00 {
            DecodedEntry::Empty
        } else if low == 0b11 {
            if occuring_at_level == 3 {
                DecodedEntry::Page(address)
            } else {
                DecodedEntry::Table(address)
            }
        } else {
            DecodedEntry::Block(address)
        }
    }
}

/// The index into the table at `level` for the address `address`: the bits of the address
/// that select an entry at that level. Level 4 stands for the offset in a page.
pub open spec fn spec_index_for_level(address: u64, level: nat, page_size: PageSize) -> u64 {
    match page_size {
        PageSize::FourKiB => if level == 0 {
            spec_bit_range(address, 47, 39)
        } else if level == 1 {
            spec_bit_range(address, 38, 30)
        } else if level == 2 {
            spec_bit_range(address, 29, 21)
        } else if level == 3 {
            spec_bit_range(address, 20, 12)
        } else {
            spec_bit_range(address, 11, 0)
        },
        PageSize::SixteenKiB => if level == 0 {
            spec_bit_range(address, 47, 47)
        } else if level == 1 {
            spec_bit_range(address, 46, 36)
        } else if level == 2 {
            spec_bit_range(address, 35, 25)
        } else if level == 3 {
            spec_bit_range(address, 24, 14)
        } else {
            spec_bit_range(address, 13, 0)
        },
    }
}

/// Returns the index into the page table at `level` for `address` given the current
/// `page_size`. Level 4 stands for the offset in a page.
pub fn index_for_level(address: VirtualAddress, level: u8, page_size: PageSize) -> (index: usize)
    requires
        level <= 4,
    ensures
        index == spec_index_for_level(address.addr(), level as nat, page_size),
        level <= 3 ==> index == (address.addr() % (table_span(level as nat, page_size) as u64))
            / (entry_span(level as nat, page_size) as u64),
        level <= 3 ==> index < entries_per_page(page_size),
{
    let addr = address.to_addr();
    let (msb, lsb): (usize, usize) = match page_size {
        PageSize::FourKiB => match level {
            0 => (47, 39),
            1 => (38, 30),
            2 => (29, 21),
            3 => (20, 12),
            _ => (11, 0),
        },
        PageSize::SixteenKiB => match level {
            0 => (47, 47),
            1 => (46, 36),
            2 => (35, 25),
            3 => (24, 14),
            _ => (13, 0),
        },
    };
    let index = bit_range_u64(addr, msb, lsb);
    proof {
        lemma_index_bits(addr);
    }
    index as usize
}

/// The bits of an address that select an entry of a table are the quotient of the
/// address's offset in the table by what an entry covers, and the bits below 14 are the
/// offset in a page.
pub proof fn lemma_index_bits(a: u64)
    ensures
        spec_bit_range(a, 47, 39) == (a % 0x1_0000_0000_0000) / 0x80_0000_0000,
        spec_bit_range(a, 38, 30) == (a % 0x80_0000_0000) / 0x4000_0000,
        spec_bit_range(a, 29, 21) == (a % 0x4000_0000) / 0x20_0000,
        spec_bit_range(a, 20, 12) == (a % 0x20_0000) / 0x1000,
        spec_bit_range(a, 11, 0) == a % 0x1000,
        spec_bit_range(a, 47, 47) == (a % 0x1_0000_0000_0000) / 0x8000_0000_0000,
        spec_bit_range(a, 46, 36) == (a % 0x8000_0000_0000) / 0x10_0000_0000,
        spec_bit_range(a, 35, 25) == (a % 0x10_0000_0000) / 0x200_0000,
        spec_bit_range(a, 24, 14) == (a % 0x200_0000) / 0x4000,
        spec_bit_range(a, 13, 0) == a % 0x4000,
        spec_bit_range(a, 47, 39) < 512,
        spec_bit_range(a, 38, 30) < 512,
        spec_bit_range(a, 29, 21) < 512,
        spec_bit_range(a, 20, 12) < 512,
        spec_bit_range(a, 47, 47) < 2,
        spec_bit_range(a, 46, 36) < 2048,
        spec_bit_range(a, 35, 25) < 2048,
        spec_bit_range(a, 24, 14) < 2048,
{
    assert(((1u64 << 9u64) - 1) as u64 == 0x1ff && ((1u64 << 12u64) - 1) as u64 == 0xfff && ((1u64
        << 1u64) - 1) as u64 == 0x1 && ((1u64 << 11u64) - 1) as u64 == 0x7ff && ((1u64 << 14u64)
        - 1) as u64 == 0x3fff) by (bit_vector);
    assert((a >> 39u64) & 0x1ff == (a % 0x1_0000_0000_0000) / 0x80_0000_0000 && (a >> 30u64) & 0x1ff
        == (a % 0x80_0000_0000) / 0x4000_0000 && (a >> 21u64) & 0x1ff == (a % 0x4000_0000)
        / 0x20_0000 && (a >> 12u64) & 0x1ff == (a % 0x20_0000) / 0x1000 && (a >> 0u64) & 0xfff == a
        % 0x1000 && (a >> 47u64) & 0x1 == (a % 0x1_0000_0000_0000) / 0x8000_0000_0000 && (a
        >> 36u64) & 0x7ff == (a % 0x8000_0000_0000) / 0x10_0000_0000 && (a >> 25u64) & 0x7ff == (a
        % 0x10_0000_0000) / 0x200_0000 && (a >> 14u64) & 0x7ff == (a % 0x200_0000) / 0x4000 && (a
        >> 0u64) & 0x3fff == a % 0x4000 && (a >> 39u64) & 0x1ff < 512 && (a >> 30u64) & 0x1ff < 512
        && (a >> 21u64) & 0x1ff < 512 && (a >> 12u64) & 0x1ff < 512 && (a >> 47u64) & 0x1 < 2 && (a
        >> 36u64) & 0x7ff < 2048 && (a >> 25u64) & 0x7ff < 2048 && (a >> 14u64) & 0x7ff < 2048)
        by (bit_vector);
}

/// The number of pages represented by a single page table entry at `level` given
/// `page_size`: what the entry covers, in pages.
pub open spec fn spec_pages_per_entry(level: nat, page_size: PageSize) -> int {
    entry_span(level, page_size) / (page_size.spec_bytes() as int)
}

/// Returns the number of pages represented by a single page table entry at `level` given
/// `page_size`.
pub fn pages_per_entry(level: u8, page_size: PageSize) -> (pages: u64)
    requires
        level <= 3,
    ensures
        pages == spec_pages_per_entry(level as nat, page_size),
{
    match page_size {
        PageSize::FourKiB => match level {
            0 => 0x800_0000,
            1 => 0x4_0000,
            2 => 512,
            _ => 1,
        },
        PageSize::SixteenKiB => match level {
            0 => 0x2_0000_0000,
            1 => 0x40_0000,
            2 => 2048,
            _ => 1,
        },
    }
}

/// The number of bytes of address space that one entry of a table at level `level` covers.
fn span_of_entry(level: u8, page_size: PageSize) -> (span: u64)
    requires
        level <= 3,
    ensures
        span == entry_span(level as nat, page_size),
{
    match page_size {
        PageSize::FourKiB => match level {
            0 => 0x80_0000_0000,
            1 => 0x4000_0000,
            2 => 0x20_0000,
            _ => 0x1000,
        },
        PageSize::SixteenKiB => match level {
            0 => 0x8000_0000_0000,
            1 => 0x10_0000_0000,
            2 => 0x200_0000,
            _ => 0x4000,
        },
    }
}

/// Whether a table at level `level` can hold entries for blocks of memory.
pub open spec fn blocks_at(level: nat, page_size: PageSize) -> bool {
    match page_size {
        PageSize::FourKiB => level == 1 || level == 2,
        PageSize::SixteenKiB => level == 2,
    }
}

/// A translation table: its entries, and the tables that its entries point to.
pub struct Table {
    address: u64,
    entries: Vec<u64>,
    children: Vec<Option<Table>>,
}

impl Table {
    /// The physical address of the table.
    pub closed spec fn spec_address(&self) -> u64 {
        self.address
    }

    /// The entries of the table.
    pub closed spec fn spec_entries(&self) -> Seq<u64> {
        self.entries@
    }

    /// The tables that the entries of the table point to.
    pub closed spec fn spec_children(&self) -> Seq<Option<Table>> {
        self.children@
    }

    /// The number of the tables that the entries from `from` on point to, each with the
    /// tables below it.
    pub open spec fn tables_below(&self, level: nat, from: nat) -> nat
        decreases 4 - level, self.spec_children().len() - from,
    {
        if level >= 3 || from >= self.spec_children().len() {
            0
        } else {
            (match self.spec_children()[from as int] {
                Some(child) => child.table_count(level + 1),
                None => 0,
            }) + self.tables_below(level, from + 1)
        }
    }

    /// The number of the tables of the tree: this table and the tables below it.
    pub open spec fn table_count(&self, level: nat) -> nat
        decreases 4 - level, self.spec_children().len() + 1,
    {
        if level > 3 {
            1
        } else {
            1 + self.tables_below(level, 0)
        }
    }

    /// The number of the tables that the entries from `from` on point to, each with the
    /// tables below it, of which `allocator` does not hold all of the page as free.
    pub open spec fn kept_below<PA: PageAllocator>(
        &self,
        level: nat,
        from: nat,
        page: int,
        allocator: PA,
    ) -> nat
        decreases 4 - level, self.spec_children().len() - from,
    {
        if level >= 3 || from >= self.spec_children().len() {
            0
        } else {
            (match self.spec_children()[from as int] {
                Some(child) => child.kept_count(level + 1, page, allocator),
                None => 0,
            }) + self.kept_below(level, from + 1, page, allocator)
        }
    }

    /// The number of the tables of the tree of which `allocator` does not hold all of the
    /// page as free, where a page has `page` bytes.
    pub open spec fn kept_count<PA: PageAllocator>(&self, level: nat, page: int, allocator: PA) -> nat
        decreases 4 - level, self.spec_children().len() + 1,
    {
        (if page_free(allocator, self.spec_address() as int, page) {
            0nat
        } else {
            1nat
        }) + (if level > 3 {
            0
        } else {
            self.kept_below(level, 0, page, allocator)
        })
    }

    /// An allocator that holds as free what another holds as free keeps no more of the
    /// pages of the tables that the entries from `from` on point to.
    pub proof fn lemma_kept_below_fewer<PA: PageAllocator>(
        &self,
        level: nat,
        from: nat,
        page: int,
        before: PA,
        after: PA,
    )
        requires
            forall|address: int| before.is_free(address) ==> #[trigger] after.is_free(address),
        ensures
            self.kept_below(level, from, page, after) <= self.kept_below(
                level,
                from,
                page,
                before,
            ),
        decreases 4 - level, self.spec_children().len() - from,
    {
        if !(level >= 3 || from >= self.spec_children().len()) {
            match self.spec_children()[from as int] {
                Some(child) => {
                    child.lemma_kept_count_fewer(level + 1, page, before, after);
                },
                None => {},
            }
            self.lemma_kept_below_fewer(level, from + 1, page, before, after);
        }
    }

    /// An allocator that holds as free what another holds as free keeps no more of the
    /// pages of the tables of the tree.
    pub proof fn lemma_kept_count_fewer<PA: PageAllocator>(
        &self,
        level: nat,
        page: int,
        before: PA,
        after: PA,
    )
        requires
            forall|address: int| before.is_free(address) ==> #[trigger] after.is_free(address),
        ensures
            self.kept_count(level, page, after) <= self.kept_count(level, page, before),
        decreases 4 - level, self.spec_children().len() + 1,
    {
        if level <= 3 {
            self.lemma_kept_below_fewer(level, 0, page, before, after);
        }
        if page_free(before, self.spec_address() as int, page) {
            assert forall|a: int|
                self.spec_address() <= a < self.spec_address() + page implies #[trigger] after.is_free(
                a,
            ) by {
                assert(before.is_free(a));
            }
        }
    }

    /// Whether the byte at `address` lies in the page of a table of the tree, where a
    /// page has `page` bytes.
    pub open spec fn in_tables(&self, level: nat, page: int, address: int) -> bool
        decreases 4 - level,
    {
        ||| self.spec_address() <= address < self.spec_address() + page
        ||| level < 3 && exists|i: int|
            0 <= i < self.spec_children().len() && (#[trigger] self.spec_children()[i]) is Some
                && self.spec_children()[i]->0.in_tables(level + 1, page, address)
    }

    /// The invariant of a table at level `level`: the table lies at a 4-KiB boundary of
    /// the 48-bit address space; it has as many entries as fit a page; an entry for a table
    /// points to the table that the table holds in the entry's place, which is a table of
    /// the next level; the table holds no table in any other place; and there are entries
    /// for blocks only at the levels that have blocks.
    pub open spec fn well_formed(&self, level: nat, page_size: PageSize) -> bool
        decreases 4 - level,
    {
        &&& level <= 3
        &&& 0 < self.spec_address() < ADDRESS_SPACE_SIZE
        &&& self.spec_address() & 0xfff == 0
        &&& self.spec_entries().len() == entries_per_page(page_size)
        &&& self.spec_children().len() == entries_per_page(page_size)
        &&& forall|i: int|
            0 <= i < entries_per_page(page_size) ==> match entry_kind(
                #[trigger] self.spec_entries()[i],
                level,
            ) {
                EntryKind::Empty => self.spec_children()[i] is None,
                EntryKind::Table => {
                    &&& self.spec_children()[i] is Some
                    &&& self.spec_children()[i]->0.spec_address() == entry_address(
                        self.spec_entries()[i],
                    )
                    &&& self.spec_children()[i]->0.well_formed(level + 1, page_size)
                },
                EntryKind::Block => blocks_at(level, page_size) && self.spec_children()[i] is None,
                EntryKind::Page => self.spec_children()[i] is None,
                EntryKind::Invalid => false,
            }
    }

    /// What the table maps the offset `offset` of the address space that it covers to, if
    /// anything: the physical address, and the property bits of the entry that maps it.
    pub open spec fn resolve(&self, level: nat, offset: int, page_size: PageSize) -> Option<
        (int, u64),
    >
        decreases 4 - level,
    {
        if level > 3 || offset < 0 || offset >= table_span(level, page_size) {
            None
        } else {
            let span = entry_span(level, page_size);
            let index = offset / span;
            let raw = self.spec_entries()[index];
            match entry_kind(raw, level) {
                EntryKind::Empty => None,
                EntryKind::Invalid => None,
                EntryKind::Table => match self.spec_children()[index] {
                    Some(child) => child.resolve(level + 1, offset % span, page_size),
                    None => None,
                },
                EntryKind::Block => Some((entry_address(raw) + offset % span, raw & PROPERTY_BITS)),
                EntryKind::Page => Some((entry_address(raw) + offset % span, raw & PROPERTY_BITS)),
            }
        }
    }

    /// The physical address of the table.
    pub fn address(&self) -> (address: u64)
        ensures
            address == self.spec_address(),
    {
        self.address
    }

    /// The entries of the table, as the memory at the table's address is to hold them.
    pub fn entries(&self) -> (entries: &Vec<u64>)
        ensures
            entries@ == self.spec_entries(),
    {
        &self.entries
    }

    /// The table that the entry at `index` points to, if the entry points to a table.
    pub fn child(&self, index: usize) -> (child: Option<&Table>)
        requires
            index < self.spec_children().len(),
        ensures
            child is Some == self.spec_children()[index as int] is Some,
            child is Some ==> *child->0 == self.spec_children()[index as int]->0,
    {
        match &self.children[index] {
            Some(table) => Some(table),
            None => None,
        }
    }

    /// The table of level `level` that is made in the page that the page allocator has
    /// answered the request for a table's page with (`allocation`), and the entry that
    /// points to it.
    ///
    /// # Errors
    /// `Allocator` with the allocator's error if it did not provide the page, and with
    /// `OutOfMemory` if the page lies outside of the 48-bit address space.
    pub fn for_allocation(
        allocation: Result<PhysicalAddress, MemoryError>,
        page_size: PageSize,
        level: u8,
    ) -> (r: Result<(Table, u64), Error>)
        requires
            1 <= level <= 3,
            allocation is Ok ==> allocation->Ok_0.addr() != 0 && allocation->Ok_0.addr() % (
            page_size.spec_bytes() as u64) == 0,
        ensures
            match allocation {
                Err(e) => r is Err && r->Err_0 is Allocator && r->Err_0->Allocator_source == e,
                Ok(pages) => if pages.addr() >= ADDRESS_SPACE_SIZE {
                    r is Err && r->Err_0 is Allocator && r->Err_0->Allocator_source
                        == MemoryError::OutOfMemory
                } else {
                    &&& r is Ok
                    &&& r.unwrap().0.well_formed(level as nat, page_size)
                    &&& r.unwrap().0.spec_address() == pages.addr()
                    &&& forall|offset: int|
                        r.unwrap().0.resolve(level as nat, offset, page_size) is None
                    &&& forall|end_level: nat, offset: int| #[trigger]
                        r.unwrap().0.obstacle(level as nat, end_level, offset, page_size) != Some(
                            Obstacle::Larger,
                        )
                    &&& r.unwrap().1 == table_entry(pages.addr())
                    &&& entry_address(r.unwrap().1) == pages.addr()
                    &&& entry_kind(r.unwrap().1, (level - 1) as nat) is Table
                },
            },
    {
        match allocation {
            Err(source) => Err(Error::Allocator { source }),
            Ok(pages) => {
                let table_address = pages.to_addr();
                if table_address >= ADDRESS_SPACE_SIZE {
                    return Err(Error::Allocator { source: MemoryError::OutOfMemory });
                }
                proof {
                    lemma_page_multiple(table_address, page_size);
                    lemma_low_bits(table_address);
                    assert(0u64 & !0x0060_0000_0000_03dcu64 == 0) by (bit_vector);
                    lemma_entries(table_address, 0);
                }
                let entry = 0b11 | (table_address & ENTRY_ADDRESS_MASK);
                Ok((Table::empty(pages, page_size, level), entry))
            },
        }
    }

    /// A table without mappings at the physical address `address`.
    pub fn empty(address: PhysicalAddress, page_size: PageSize, level: u8) -> (table: Table)
        requires
            level <= 3,
            0 < address.addr() < ADDRESS_SPACE_SIZE,
            address.addr() & 0xfff == 0,
        ensures
            table.well_formed(level as nat, page_size),
            table.spec_address() == address.addr(),
            forall|offset: int| table.resolve(level as nat, offset, page_size) is None,
            forall|end_level: nat, offset: int| #[trigger]
                table.obstacle(level as nat, end_level, offset, page_size) != Some(
                    Obstacle::Larger,
                ),
    {
        let count: usize = match page_size {
            PageSize::FourKiB => 512,
            PageSize::SixteenKiB => 2048,
        };
        let mut entries: Vec<u64> = Vec::new();
        let mut children: Vec<Option<Table>> = Vec::new();
        let mut i: usize = 0;
        while i < count
            invariant
                i <= count,
                count == entries_per_page(page_size),
                entries@.len() == i,
                children@.len() == i,
                forall|k: int| 0 <= k < i ==> entries@[k] == 0,
                forall|k: int| 0 <= k < i ==> children@[k] is None,
            decreases count - i,
        {
            entries.push(0);
            children.push(None);
            i = i + 1;
        }
        let table = Table { address: address.to_addr(), entries, children };
        proof {
            assert(0u64 & 0xfff == 0 && 0u64 & !0x0060_0000_0000_03dcu64 == 0) by (bit_vector);
            lemma_entries(0, 0);
            assert forall|offset: int| table.resolve(
                level as nat,
                offset,
                page_size,
            ) is None by {
                if 0 <= offset < table_span(level as nat, page_size) {
                    lemma_index_in_table(level as nat, offset, page_size);
                }
            }
        }
        table
    }
}

/// The entry of an offset in a table is one of the table's entries.
pub proof fn lemma_index_in_table(level: nat, offset: int, page_size: PageSize)
    requires
        level <= 3,
        0 <= offset < table_span(level, page_size),
    ensures
        0 <= offset / entry_span(level, page_size) < entries_per_page(page_size),
        0 <= offset % entry_span(level, page_size) < entry_span(level, page_size),
        level < 3 ==> table_span(level + 1, page_size) == entry_span(level, page_size),
{
}

/// What is known of the spans of the entries of two levels of which the second is not
/// above the first: the span of the lower level divides that of the upper, and an offset
/// that is a multiple of the lower span stays so within an entry of the upper level.
pub proof fn lemma_spans(level: nat, end_level: nat, page_size: PageSize, x: u64)
    requires
        level <= end_level <= 3,
        x % (entry_span(end_level, page_size) as u64) == 0,
    ensures
        entry_span(end_level, page_size) >= 0x1000,
        entry_span(level, page_size) >= entry_span(end_level, page_size),
        entry_span(level, page_size) <= table_span(level, page_size),
        table_span(level, page_size) <= ADDRESS_SPACE_SIZE,
        (x % (entry_span(level, page_size) as u64)) % (entry_span(end_level, page_size) as u64)
            == 0,
        (entry_span(level, page_size) - x % (entry_span(level, page_size) as u64)) % entry_span(
            end_level,
            page_size,
        ) == 0,
        x % 0x1000 == 0,
{
    assert((x % 0x1000 == 0 ==> (x % 0x1000) % 0x1000 == 0 && (0x1000 - x % 0x1000) % 0x1000 == 0
        && x % 0x1000 == 0)
        && (x % 0x4000 == 0 ==> (x % 0x4000) % 0x4000 == 0 && (0x4000 - x % 0x4000) % 0x4000 == 0
        && x % 0x1000 == 0)
        && (x % 0x1000 == 0 ==> (x % 0x20_0000) % 0x1000 == 0 && (0x20_0000 - x % 0x20_0000) % 0x1000 == 0
        && x % 0x1000 == 0)
        && (x % 0x20_0000 == 0 ==> (x % 0x20_0000) % 0x20_0000 == 0 && (0x20_0000 - x % 0x20_0000) % 0x20_0000 == 0
        && x % 0x1000 == 0)
        && (x % 0x4000 == 0 ==> (x % 0x200_0000) % 0x4000 == 0 && (0x200_0000 - x % 0x200_0000) % 0x4000 == 0
        && x % 0x1000 == 0)
        && (x % 0x200_0000 == 0 ==> (x % 0x200_0000) % 0x200_0000 == 0 && (0x200_0000 - x % 0x200_0000) % 0x200_0000 == 0
        && x % 0x1000 == 0)
        && (x % 0x1000 == 0 ==> (x % 0x4000_0000) % 0x1000 == 0 && (0x4000_0000 - x % 0x4000_0000) % 0x1000 == 0
        && x % 0x1000 == 0)
        && (x % 0x20_0000 == 0 ==> (x % 0x4000_0000) % 0x20_0000 == 0 && (0x4000_0000 - x % 0x4000_0000) % 0x20_0000 == 0
        && x % 0x1000 == 0)
        && (x % 0x4000_0000 == 0 ==> (x % 0x4000_0000) % 0x4000_0000 == 0 && (0x4000_0000 - x % 0x4000_0000) % 0x4000_0000 == 0
        && x % 0x1000 == 0)
        && (x % 0x4000 == 0 ==> (x % 0x10_0000_0000) % 0x4000 == 0 && (0x10_0000_0000 - x % 0x10_0000_0000) % 0x4000 == 0
        && x % 0x1000 == 0)
        && (x % 0x200_0000 == 0 ==> (x % 0x10_0000_0000) % 0x200_0000 == 0 && (0x10_0000_0000 - x % 0x10_0000_0000) % 0x200_0000 == 0
        && x % 0x1000 == 0)
        && (x % 0x10_0000_0000 == 0 ==> (x % 0x10_0000_0000) % 0x10_0000_0000 == 0 && (0x10_0000_0000 - x % 0x10_0000_0000) % 0x10_0000_0000 == 0
        && x % 0x1000 == 0)
        && (x % 0x1000 == 0 ==> (x % 0x80_0000_0000) % 0x1000 == 0 && (0x80_0000_0000 - x % 0x80_0000_0000) % 0x1000 == 0
        && x % 0x1000 == 0)
        && (x % 0x20_0000 == 0 ==> (x % 0x80_0000_0000) % 0x20_0000 == 0 && (0x80_0000_0000 - x % 0x80_0000_0000) % 0x20_0000 == 0
        && x % 0x1000 == 0)
        && (x % 0x4000_0000 == 0 ==> (x % 0x80_0000_0000) % 0x4000_0000 == 0 && (0x80_0000_0000 - x % 0x80_0000_0000) % 0x4000_0000 == 0
        && x % 0x1000 == 0)
        && (x % 0x80_0000_0000 == 0 ==> (x % 0x80_0000_0000) % 0x80_0000_0000 == 0 && (0x80_0000_0000 - x % 0x80_0000_0000) % 0x80_0000_0000 == 0
        && x % 0x1000 == 0)
        && (x % 0x4000 == 0 ==> (x % 0x8000_0000_0000) % 0x4000 == 0 && (0x8000_0000_0000 - x % 0x8000_0000_0000) % 0x4000 == 0
        && x % 0x1000 == 0)
        && (x % 0x200_0000 == 0 ==> (x % 0x8000_0000_0000) % 0x200_0000 == 0 && (0x8000_0000_0000 - x % 0x8000_0000_0000) % 0x200_0000 == 0
        && x % 0x1000 == 0)
        && (x % 0x10_0000_0000 == 0 ==> (x % 0x8000_0000_0000) % 0x10_0000_0000 == 0 && (0x8000_0000_0000 - x % 0x8000_0000_0000) % 0x10_0000_0000 == 0
        && x % 0x1000 == 0)
        && (x % 0x8000_0000_0000 == 0 ==> (x % 0x8000_0000_0000) % 0x8000_0000_0000 == 0 && (0x8000_0000_0000 - x % 0x8000_0000_0000) % 0x8000_0000_0000 == 0
        && x % 0x1000 == 0)) by (bit_vector);
}

/// An address that is a multiple of 4 KiB has none of its low twelve bits set.
pub proof fn lemma_low_bits(address: u64)
    requires
        address % 0x1000 == 0,
    ensures
        address & 0xfff == 0,
{
    assert(address & 0xfff == 0) by (bit_vector)
        requires
            address % 0x1000 == 0,
    ;
}

/// Sums and differences of multiples of a span are multiples of the span, and a multiple
/// that is not zero is at least the span.
pub proof fn lemma_multiples(span: int, a: int, b: int)
    requires
        span > 0,
        a % span == 0,
        b % span == 0,
        0 <= a,
        0 <= b,
    ensures
        (a + b) % span == 0,
        (a + span) % span == 0,
        a > b ==> (a - b) % span == 0 && a - b >= span,
        a > 0 ==> a >= span,
{
    lemma_small_mod(0, span as nat);
    lemma_add_mod_noop(a, b, span);
    lemma_sub_mod_noop(a, b, span);
    lemma_mod_add_multiples_vanish(a, span);
    if a > b && a - b < span {
        lemma_small_mod((a - b) as nat, span as nat);
    }
    if a > 0 && a < span {
        lemma_small_mod(a as nat, span as nat);
    }
}

impl Table {
    /// Whether the table has the same entry, and the same table below it, as `other` in
    /// every place but `index`.
    pub open spec fn same_but(&self, other: &Table, index: int) -> bool {
        &&& self.spec_address() == other.spec_address()
        &&& self.spec_entries().len() == other.spec_entries().len()
        &&& self.spec_children().len() == other.spec_children().len()
        &&& forall|i: int|
            0 <= i < self.spec_entries().len() && i != index ==> self.spec_entries()[i]
                == other.spec_entries()[i] && self.spec_children()[i] == other.spec_children()[i]
    }

    /// Whether the entry at `index` and what the table holds below it fit a table at level
    /// `level`.
    pub open spec fn entry_fits(&self, index: int, level: nat, page_size: PageSize) -> bool {
        match entry_kind(self.spec_entries()[index], level) {
            EntryKind::Empty => self.spec_children()[index] is None,
            EntryKind::Table => {
                &&& level < 3
                &&& self.spec_children()[index] is Some
                &&& self.spec_children()[index]->0.spec_address() == entry_address(
                    self.spec_entries()[index],
                )
                &&& self.spec_children()[index]->0.well_formed(level + 1, page_size)
            },
            EntryKind::Block => blocks_at(level, page_size) && self.spec_children()[index] is None,
            EntryKind::Page => self.spec_children()[index] is None,
            EntryKind::Invalid => false,
        }
    }

    /// A table that differs from a well-formed table in one place, where its entry fits,
    /// is well formed, and maps every offset outside that entry as the other table does.
    pub proof fn lemma_changed_entry(&self, before: &Table, index: int, level: nat, page_size: PageSize)
        requires
            before.well_formed(level, page_size),
            self.same_but(before, index),
            0 <= index < entries_per_page(page_size),
            self.entry_fits(index, level, page_size),
        ensures
            self.well_formed(level, page_size),
            forall|offset: int|
                0 <= offset && offset / entry_span(level, page_size) != index
                    ==> #[trigger] self.resolve(level, offset, page_size) == before.resolve(
                    level,
                    offset,
                    page_size,
                ),
            forall|offset: int| offset < 0 ==> #[trigger] self.resolve(level, offset, page_size)
                == before.resolve(level, offset, page_size),
    {
        assert forall|i: int| 0 <= i < entries_per_page(page_size) implies match entry_kind(
            #[trigger] self.spec_entries()[i],
            level,
        ) {
            EntryKind::Empty => self.spec_children()[i] is None,
            EntryKind::Table => {
                &&& self.spec_children()[i] is Some
                &&& self.spec_children()[i]->0.spec_address() == entry_address(
                    self.spec_entries()[i],
                )
                &&& self.spec_children()[i]->0.well_formed(level + 1, page_size)
            },
            EntryKind::Block => blocks_at(level, page_size) && self.spec_children()[i] is None,
            EntryKind::Page => self.spec_children()[i] is None,
            EntryKind::Invalid => false,
        } by {
            if i != index {
                assert(self.spec_entries()[i] == before.spec_entries()[i]);
                assert(self.spec_children()[i] == before.spec_children()[i]);
            }
        }
        assert forall|offset: int|
            0 <= offset && offset / entry_span(level, page_size)
                != index implies #[trigger] self.resolve(level, offset, page_size)
            == before.resolve(level, offset, page_size) by {
            if offset < table_span(level, page_size) {
                lemma_index_in_table(level, offset, page_size);
            }
        }
    }

    /// What a table maps the offsets of one entry to: the memory behind the block or page
    /// of the entry, and nothing for an empty entry.
    pub proof fn lemma_terminal_entry(&self, index: int, level: nat, page_size: PageSize)
        requires
            level <= 3,
            0 <= index,
            (index + 1) * entry_span(level, page_size) <= table_span(level, page_size),
        ensures
            forall|offset: int|
                index * entry_span(level, page_size) <= offset < (index + 1) * entry_span(
                    level,
                    page_size,
                ) ==> #[trigger] self.resolve(level, offset, page_size) == (match entry_kind(
                    self.spec_entries()[index],
                    level,
                ) {
                    EntryKind::Empty => None,
                    EntryKind::Invalid => None,
                    EntryKind::Table => match self.spec_children()[index] {
                        Some(child) => child.resolve(
                            level + 1,
                            offset - index * entry_span(level, page_size),
                            page_size,
                        ),
                        None => None,
                    },
                    _ => Some(
                        (
                            entry_address(self.spec_entries()[index]) + offset - index
                                * entry_span(level, page_size),
                            self.spec_entries()[index] & PROPERTY_BITS,
                        ),
                    ),
                }),
    {
        let span = entry_span(level, page_size);
        assert forall|offset: int| index * span <= offset < (index + 1) * span implies
            #[trigger] self.resolve(level, offset, page_size) == (match entry_kind(
            self.spec_entries()[index],
            level,
        ) {
            EntryKind::Empty => None,
            EntryKind::Invalid => None,
            EntryKind::Table => match self.spec_children()[index] {
                Some(child) => child.resolve(level + 1, offset - index * span, page_size),
                None => None,
            },
            _ => Some(
                (
                    entry_address(self.spec_entries()[index]) + offset - index * span,
                    self.spec_entries()[index] & PROPERTY_BITS,
                ),
            ),
        }) by {
            assert(0 <= index * span) by (nonlinear_arith)
                requires
                    index >= 0,
                    span > 0,
            ;
            assert((index + 1) * span == index * span + span) by (nonlinear_arith);
            lemma_fundamental_div_mod_converse(offset, span, index, offset - index * span);
        }
    }

    /// Writes the entries of the blocks of `length` bytes from the offset `start` on: with
    /// properties, entries for the memory of `length` bytes at `physical_start`; without,
    /// empty entries.
    fn write_entries(
        &mut self,
        level: u8,
        start: u64,
        physical_start: u64,
        length: u64,
        properties: Option<u64>,
        page_size: PageSize,
    )
        requires
            old(self).well_formed(level as nat, page_size),
            blocks_at(level as nat, page_size) || level == 3,
            start % (entry_span(level as nat, page_size) as u64) == 0,
            physical_start % (entry_span(level as nat, page_size) as u64) == 0,
            length % (entry_span(level as nat, page_size) as u64) == 0,
            start + length <= table_span(level as nat, page_size),
            physical_start + length <= ADDRESS_SPACE_SIZE,
            properties is Some ==> properties->0 & !PROPERTY_BITS == 0,
        ensures
            final(self).well_formed(level as nat, page_size),
            final(self).spec_address() == old(self).spec_address(),
            forall|offset: int|
                start <= offset < start + length ==> #[trigger] final(self).resolve(
                    level as nat,
                    offset,
                    page_size,
                ) == (if properties is Some {
                    Some((physical_start + offset - start, properties->0))
                } else {
                    None
                }),
            forall|offset: int|
                !(start <= offset < start + length) ==> #[trigger] final(self).resolve(
                    level as nat,
                    offset,
                    page_size,
                ) == old(self).resolve(level as nat, offset, page_size),
    {
        let span = span_of_entry(level, page_size);
        let mut done: u64 = 0;
        proof {
            lemma_spans(level as nat, level as nat, page_size, start);
            lemma_small_mod(0, span as nat);
        }
        while done < length
            invariant
                self.well_formed(level as nat, page_size),
                self.spec_address() == old(self).spec_address(),
                blocks_at(level as nat, page_size) || level == 3,
                level <= 3,
                span == entry_span(level as nat, page_size),
                span >= 0x1000,
                start % span == 0,
                physical_start % span == 0,
                length % span == 0,
                done % span == 0,
                done <= length,
                start + length <= table_span(level as nat, page_size),
                table_span(level as nat, page_size) <= ADDRESS_SPACE_SIZE,
                physical_start + length <= ADDRESS_SPACE_SIZE,
                properties is Some ==> properties->0 & !PROPERTY_BITS == 0,
                forall|offset: int|
                    start <= offset < start + done ==> #[trigger] self.resolve(
                        level as nat,
                        offset,
                        page_size,
                    ) == (if properties is Some {
                        Some((physical_start + offset - start, properties->0))
                    } else {
                        None
                    }),
                forall|offset: int|
                    !(start <= offset < start + done) ==> #[trigger] self.resolve(
                        level as nat,
                        offset,
                        page_size,
                    ) == old(self).resolve(level as nat, offset, page_size),
            decreases length - done,
        {
            let current = start + done;
            let index = (current / span) as usize;
            let address = physical_start + done;
            let ghost before = *self;
            proof {
                lemma_multiples(span as int, start as int, done as int);
                lemma_multiples(span as int, physical_start as int, done as int);
                lemma_multiples(span as int, length as int, done as int);
                lemma_multiples(span as int, done as int, 0);
                lemma_index_in_table(level as nat, current as int, page_size);
                lemma_spans(level as nat, level as nat, page_size, address);
                lemma_low_bits(address);
                lemma_fundamental_div_mod(current as int, span as int);
            }
            let raw = match properties {
                Some(bits) => {
                    proof {
                        lemma_entries(address, bits);
                    }
                    if level == 3 {
                        0b11 | address | bits | ACCESS_FLAG
                    } else {
                        0b01 | address | bits | ACCESS_FLAG
                    }
                },
                None => {
                    proof {
                        assert(0u64 & 0b11 == 0) by (bit_vector);
                    }
                    0
                },
            };
            self.entries[index] = raw;
            self.children[index] = None;
            done = done + span;
            proof {
                assert(self.same_but(&before, index as int));
                self.lemma_changed_entry(&before, index as int, level as nat, page_size);
                assert(index * span == current) by (nonlinear_arith)
                    requires
                        current == span * (current / span) + current % span,
                        current % span == 0,
                        index == current / span,
                ;
                assert((index + 1) * span == current + span) by (nonlinear_arith)
                    requires
                        index * span == current,
                ;
                self.lemma_terminal_entry(index as int, level as nat, page_size);
                assert forall|offset: int| start <= offset < start + done implies #[trigger] self.resolve(
                    level as nat,
                    offset,
                    page_size,
                ) == (if properties is Some {
                    Some((physical_start + offset - start, properties->0))
                } else {
                    None
                }) by {
                    if offset < current {
                        lemma_other_entry(current as int, span as int, offset);
                        assert(self.resolve(level as nat, offset, page_size) == before.resolve(
                            level as nat,
                            offset,
                            page_size,
                        ));
                    }
                }
                assert forall|offset: int|
                    !(start <= offset < start + done) implies #[trigger] self.resolve(
                    level as nat,
                    offset,
                    page_size,
                ) == old(self).resolve(level as nat, offset, page_size) by {
                    if 0 <= offset {
                        lemma_other_entry(current as int, span as int, offset);
                    }
                    assert(self.resolve(level as nat, offset, page_size) == before.resolve(
                        level as nat,
                        offset,
                        page_size,
                    ));
                }
            }
        }
    }
}

/// An offset outside of the entry that starts at `current` lies in another entry.
pub proof fn lemma_other_entry(current: int, span: int, offset: int)
    requires
        span > 0,
        0 <= current,
        current % span == 0,
        0 <= offset,
        !(current <= offset < current + span),
    ensures
        offset / span != current / span,
{
    lemma_fundamental_div_mod(current, span);
    lemma_fundamental_div_mod(offset, span);
    let q = current / span;
    if offset / span == q {
        assert(span * q == current);
        assert(offset == span * q + offset % span);
        assert(0 <= offset % span < span) by (nonlinear_arith)
            requires
                span > 0,
        ;
    }
}

/// An address that is a multiple of the page size is a multiple of 4 KiB.
pub proof fn lemma_page_multiple(address: u64, page_size: PageSize)
    requires
        address % (page_size.spec_bytes() as u64) == 0,
    ensures
        address % 0x1000 == 0,
{
    match page_size {
        PageSize::FourKiB => {},
        PageSize::SixteenKiB => {
            assert(address % 0x1000 == 0) by (bit_vector)
                requires
                    address % 0x4000 == 0,
            ;
        },
    }
}

/// An entry of a table lies in what the table covers.
pub proof fn lemma_entry_in_table(level: nat, index: int, page_size: PageSize)
    requires
        level <= 3,
        0 <= index,
        index * entry_span(level, page_size) < table_span(level, page_size),
    ensures
        (index + 1) * entry_span(level, page_size) <= table_span(level, page_size),
{
    let span = entry_span(level, page_size);
    let table = table_span(level, page_size);
    let count = table / span;
    assert(table == count * span);
    assert(index < count) by (nonlinear_arith)
        requires
            index * span < count * span,
            span > 0,
    ;
    assert((index + 1) * span <= count * span) by (nonlinear_arith)
        requires
            index + 1 <= count,
            span > 0,
    ;
}

/// An offset outside of the entry `index` lies in another entry.
pub proof fn lemma_outside_entry(index: int, span: int, offset: int)
    requires
        span > 0,
        0 <= offset,
        !(index * span <= offset < (index + 1) * span),
    ensures
        offset / span != index,
{
    lemma_fundamental_div_mod(offset, span);
    if offset / span == index {
        assert(span * index == index * span) by (nonlinear_arith);
        assert((index + 1) * span == index * span + span) by (nonlinear_arith);
        assert(0 <= offset % span < span) by (nonlinear_arith)
            requires
                span > 0,
        ;
    }
}

/// The number of pages that a table takes.
pub const TABLE_PAGES: usize = 1;

/// The number of pages that the page allocator is asked for where a table is missing: the
/// one page that the entries of a table fill.
pub fn pages_for_table(page_size: PageSize) -> (pages: usize)
    ensures
        pages == TABLE_PAGES,
        pages * page_size.spec_bytes() == entries_per_page(page_size) * 8,
{
    TABLE_PAGES
}

/// The number of tables below a table at level `level` that the entries of level
/// `end_level` for the `length` bytes from the offset `start` on need: for each entry of
/// the table that the range reaches into, the table that the entry points to and the
/// tables that the part of the range in that entry needs below it.
pub open spec fn tables_needed(
    level: nat,
    end_level: nat,
    page_size: PageSize,
    start: int,
    length: int,
) -> nat
    decreases 4 - level, length,
{
    if level >= end_level || level >= 3 || length <= 0 || start < 0 {
        0
    } else {
        let span = entry_span(level, page_size);
        let within = start % span;
        let part = if length < span - within {
            length
        } else {
            span - within
        };
        1 + tables_needed(level + 1, end_level, page_size, within, part) + tables_needed(
            level,
            end_level,
            page_size,
            start + part,
            length - part,
        )
    }
}

/// The tables that a range needs are the table of the first entry that it reaches
/// into, the tables that its part in that entry needs below, and the tables that the rest
/// of it needs.
pub proof fn lemma_tables_needed(
    level: nat,
    end_level: nat,
    page_size: PageSize,
    start: int,
    length: int,
    within: int,
    part: int,
)
    requires
        level < end_level <= 3,
        0 <= start,
        0 < length,
        within == start % entry_span(level, page_size),
        part == (if length < entry_span(level, page_size) - within {
            length
        } else {
            entry_span(level, page_size) - within
        }),
    ensures
        tables_needed(level, end_level, page_size, start, length) == 1 + tables_needed(
            level + 1,
            end_level,
            page_size,
            within,
            part,
        ) + tables_needed(level, end_level, page_size, start + part, length - part),
        tables_needed(level, end_level, page_size, start + length, 0) == 0,
{
}

/// Whether `allocator` holds every byte of the page of `page` bytes at `address` as free.
pub open spec fn page_free<PA: PageAllocator>(allocator: PA, address: int, page: int) -> bool {
    forall|a: int| address <= a < address + page ==> #[trigger] allocator.is_free(a)
}

/// What keeps a walk of the tables from reaching the entry of a level for an address.
#[derive(Clone, Copy, PartialEq, Eq, Debug, Structural)]
pub enum Obstacle {
    /// A table on the way is missing.
    Missing,
    /// A block of a level above is in the way.
    Larger,
}

impl Table {
    /// What keeps the walk from this table, at level `level`, to the entry of level
    /// `end_level` for the offset `offset` from getting there, if anything: the first
    /// entry on the way that points to no table.
    pub open spec fn obstacle(&self, level: nat, end_level: nat, offset: int, page_size: PageSize)
        -> Option<Obstacle>
        decreases 4 - level,
    {
        if level >= end_level || level > 3 || offset < 0 || offset >= table_span(level, page_size) {
            None
        } else {
            let span = entry_span(level, page_size);
            let index = offset / span;
            match entry_kind(self.spec_entries()[index], level) {
                EntryKind::Table => match self.spec_children()[index] {
                    Some(child) => child.obstacle(level + 1, end_level, offset % span, page_size),
                    None => None,
                },
                EntryKind::Empty => Some(Obstacle::Missing),
                _ => Some(Obstacle::Larger),
            }
        }
    }

    /// What stands in the way of the offsets of one entry: nothing that does not stand in
    /// the way in the table that the entry points to, a missing table for an empty entry,
    /// and a block for any other entry.
    pub proof fn lemma_obstacle_entry(
        &self,
        index: int,
        level: nat,
        end_level: nat,
        page_size: PageSize,
    )
        requires
            level < end_level <= 3,
            0 <= index,
            (index + 1) * entry_span(level, page_size) <= table_span(level, page_size),
        ensures
            forall|offset: int|
                index * entry_span(level, page_size) <= offset < (index + 1) * entry_span(
                    level,
                    page_size,
                ) ==> #[trigger] self.obstacle(level, end_level, offset, page_size)
                    == (match entry_kind(self.spec_entries()[index], level) {
                    EntryKind::Table => match self.spec_children()[index] {
                        Some(child) => child.obstacle(
                            level + 1,
                            end_level,
                            offset - index * entry_span(level, page_size),
                            page_size,
                        ),
                        None => None,
                    },
                    EntryKind::Empty => Some(Obstacle::Missing),
                    _ => Some(Obstacle::Larger),
                }),
    {
        let span = entry_span(level, page_size);
        assert forall|offset: int| index * span <= offset < (index + 1) * span implies
            #[trigger] self.obstacle(level, end_level, offset, page_size) == (match entry_kind(
            self.spec_entries()[index],
            level,
        ) {
            EntryKind::Table => match self.spec_children()[index] {
                Some(child) => child.obstacle(
                    level + 1,
                    end_level,
                    offset - index * span,
                    page_size,
                ),
                None => None,
            },
            EntryKind::Empty => Some(Obstacle::Missing),
            _ => Some(Obstacle::Larger),
        }) by {
            assert(0 <= index * span) by (nonlinear_arith)
                requires
                    index >= 0,
                    span > 0,
            ;
            assert((index + 1) * span == index * span + span) by (nonlinear_arith);
            lemma_fundamental_div_mod_converse(offset, span, index, offset - index * span);
        }
    }

    /// In a table that differs from another in one place, the same stands in the way of
    /// every offset outside of that entry.
    pub proof fn lemma_obstacle_outside(
        &self,
        before: &Table,
        index: int,
        level: nat,
        end_level: nat,
        page_size: PageSize,
    )
        requires
            level <= 3,
            before.well_formed(level, page_size),
            self.same_but(before, index),
        ensures
            forall|offset: int|
                offset < 0 || offset / entry_span(level, page_size) != index
                    ==> #[trigger] self.obstacle(level, end_level, offset, page_size)
                    == before.obstacle(level, end_level, offset, page_size),
    {
        assert forall|offset: int|
            offset < 0 || offset / entry_span(level, page_size)
                != index implies #[trigger] self.obstacle(level, end_level, offset, page_size)
            == before.obstacle(level, end_level, offset, page_size) by {
            if 0 <= offset < table_span(level, page_size) {
                lemma_index_in_table(level, offset, page_size);
            }
        }
    }

    /// The same stands in the way in two tables with the same entries and the same tables
    /// below them.
    pub proof fn lemma_obstacle_same(
        &self,
        other: &Table,
        level: nat,
        end_level: nat,
        page_size: PageSize,
    )
        requires
            self.spec_entries() == other.spec_entries(),
            self.spec_children() == other.spec_children(),
        ensures
            forall|offset: int| #[trigger]
                self.obstacle(level, end_level, offset, page_size) == other.obstacle(
                    level,
                    end_level,
                    offset,
                    page_size,
                ),
    {
    }

    /// Whether nothing stands in the way to the entries of level `end_level` for the
    /// offsets from `start` up to `end`.
    pub open spec fn clear(
        &self,
        level: nat,
        end_level: nat,
        page_size: PageSize,
        start: int,
        end: int,
    ) -> bool {
        forall|offset: int|
            start <= offset < end ==> #[trigger] self.obstacle(level, end_level, offset, page_size)
                is None
    }

    /// Whether the table has the obstacles of `before` but for missing tables that have
    /// been made: what stands in the way of an offset stood in its way before, and a
    /// block that stood in the way of an offset still does.
    pub open spec fn cleared_from(
        &self,
        before: &Table,
        level: nat,
        end_level: nat,
        page_size: PageSize,
    ) -> bool {
        &&& forall|offset: int| #[trigger]
            self.obstacle(level, end_level, offset, page_size) is None || self.obstacle(
                level,
                end_level,
                offset,
                page_size,
            ) == before.obstacle(level, end_level, offset, page_size)
        &&& forall|offset: int|
            #[trigger] before.obstacle(level, end_level, offset, page_size) == Some(
                Obstacle::Larger,
            ) ==> self.obstacle(level, end_level, offset, page_size) == Some(Obstacle::Larger)
    }

    /// Whether `error` reports the first block that stands in the way to the entries of
    /// level `end_level` for the offsets from `start` up to `end`: a block stands in the
    /// way of the offset that the error's address is from `virtual_base`, and no block
    /// stands in the way of the offsets before it.
    pub open spec fn stopped_by_block(
        &self,
        level: nat,
        end_level: nat,
        page_size: PageSize,
        start: int,
        end: int,
        virtual_base: int,
        error: Error,
    ) -> bool {
        let at = match error {
            Error::AlreadyMapped { address } => address.addr() - virtual_base,
            _ => -1,
        };
        &&& start <= at < end
        &&& self.obstacle(level, end_level, at, page_size) == Some(Obstacle::Larger)
        &&& forall|offset: int|
            start <= offset < at ==> #[trigger] self.obstacle(level, end_level, offset, page_size)
                != Some(Obstacle::Larger)
    }

    /// One entry of a walk that maps: where the table below the entry `index` has the
    /// obstacles that stood in the way of the entry's offsets but for missing tables that
    /// have been made, the table has the obstacles that it had at first but for such
    /// tables; and where nothing stands in the way of the part of a range that lies in the
    /// entry, nor of the range before that part, nothing stands in the way of the range up
    /// to the end of the part.
    proof fn lemma_obstacle_mapped(
        &self,
        before: &Table,
        initial: &Table,
        child: &Table,
        index: int,
        level: nat,
        end_level: nat,
        page_size: PageSize,
        start: int,
        current: int,
        within: int,
        part: int,
        reached: bool,
    )
        requires
            level < end_level <= 3,
            0 <= index,
            0 <= start <= current,
            index * entry_span(level, page_size) == current - within,
            0 <= within,
            0 < part,
            within + part <= entry_span(level, page_size),
            (index + 1) * entry_span(level, page_size) <= table_span(level, page_size),
            before.well_formed(level, page_size),
            self.same_but(before, index),
            entry_kind(self.spec_entries()[index], level) is Table,
            self.spec_children()[index] == Some(*child),
            forall|offset: int|
                index * entry_span(level, page_size) <= offset < (index + 1) * entry_span(
                    level,
                    page_size,
                ) ==> {
                    let below = child.obstacle(
                        level + 1,
                        end_level,
                        offset - index * entry_span(level, page_size),
                        page_size,
                    );
                    let was = #[trigger] before.obstacle(level, end_level, offset, page_size);
                    &&& below is None || below == was
                    &&& was == Some(Obstacle::Larger) ==> below == Some(Obstacle::Larger)
                },
            before.cleared_from(initial, level, end_level, page_size),
            before.clear(level, end_level, page_size, start, current),
            reached ==> child.clear(level + 1, end_level, page_size, within, within + part),
        ensures
            self.cleared_from(initial, level, end_level, page_size),
            reached ==> self.clear(level, end_level, page_size, start, current + part),
    {
        let span = entry_span(level, page_size);
        self.lemma_obstacle_entry(index, level, end_level, page_size);
        self.lemma_obstacle_outside(before, index, level, end_level, page_size);
        assert((index + 1) * span == index * span + span) by (nonlinear_arith);
        assert forall|offset: int| #[trigger]
            self.obstacle(level, end_level, offset, page_size) is None || self.obstacle(
                level,
                end_level,
                offset,
                page_size,
            ) == initial.obstacle(level, end_level, offset, page_size) by {
            let was = before.obstacle(level, end_level, offset, page_size);
            if index * span <= offset < (index + 1) * span {
                assert(self.obstacle(level, end_level, offset, page_size) == child.obstacle(
                    level + 1,
                    end_level,
                    offset - index * span,
                    page_size,
                ));
            } else if 0 <= offset {
                lemma_outside_entry(index, span, offset);
            }
        }
        assert forall|offset: int|
            #[trigger] initial.obstacle(level, end_level, offset, page_size) == Some(
                Obstacle::Larger,
            ) implies self.obstacle(level, end_level, offset, page_size) == Some(
            Obstacle::Larger,
        ) by {
            let was = before.obstacle(level, end_level, offset, page_size);
            if index * span <= offset < (index + 1) * span {
                assert(self.obstacle(level, end_level, offset, page_size) == child.obstacle(
                    level + 1,
                    end_level,
                    offset - index * span,
                    page_size,
                ));
            } else if 0 <= offset {
                lemma_outside_entry(index, span, offset);
            }
        }
        if reached {
            assert forall|offset: int| start <= offset < current + part implies
                #[trigger] self.obstacle(level, end_level, offset, page_size) is None by {
                let was = before.obstacle(level, end_level, offset, page_size);
                if index * span <= offset {
                    assert(self.obstacle(level, end_level, offset, page_size) == child.obstacle(
                        level + 1,
                        end_level,
                        offset - index * span,
                        page_size,
                    ));
                    if within <= offset - index * span {
                        assert(child.obstacle(
                            level + 1,
                            end_level,
                            offset - index * span,
                            page_size,
                        ) is None);
                    }
                } else {
                    lemma_outside_entry(index, span, offset);
                }
            }
        }
    }

    /// Where nothing stood in the way of a range at first, nothing stands in the way of
    /// its part in an entry in the table that the entry points to.
    proof fn lemma_clear_below(
        &self,
        initial: &Table,
        child: &Table,
        index: int,
        level: nat,
        end_level: nat,
        page_size: PageSize,
        start: int,
        end: int,
        current: int,
        within: int,
        part: int,
    )
        requires
            level < end_level <= 3,
            0 <= index,
            0 <= start <= current,
            current + part <= end,
            index * entry_span(level, page_size) == current - within,
            0 <= within,
            0 < part,
            within + part <= entry_span(level, page_size),
            (index + 1) * entry_span(level, page_size) <= table_span(level, page_size),
            self.well_formed(level, page_size),
            self.cleared_from(initial, level, end_level, page_size),
            initial.clear(level, end_level, page_size, start, end),
            self.spec_children()[index] is Some ==> self.spec_children()[index] == Some(*child),
        ensures
            self.spec_children()[index] is Some,
            child.clear(level + 1, end_level, page_size, within, within + part),
    {
        let span = entry_span(level, page_size);
        self.lemma_obstacle_entry(index, level, end_level, page_size);
        assert((index + 1) * span == index * span + span) by (nonlinear_arith);
        lemma_index_in_table(level, current, page_size);
        assert(initial.obstacle(level, end_level, current, page_size) is None);
        assert(self.obstacle(level, end_level, current, page_size) is None);
        assert forall|below: int| within <= below < within + part implies #[trigger] child.obstacle(
            level + 1,
            end_level,
            below,
            page_size,
        ) is None by {
            let offset = index * span + below;
            assert(initial.obstacle(level, end_level, offset, page_size) is None);
            assert(self.obstacle(level, end_level, offset, page_size) is None);
        }
    }

    /// The table below an entry, after a part of a range has been mapped in it, has the
    /// obstacles that stood in the way of the entry's offsets but for missing tables that
    /// have been made: where the table was there before, and where it has been made for
    /// an empty entry.
    proof fn lemma_obstacle_below(
        &self,
        child: &Table,
        child_before: &Table,
        index: int,
        level: nat,
        end_level: nat,
        page_size: PageSize,
    )
        requires
            level < end_level <= 3,
            0 <= index,
            (index + 1) * entry_span(level, page_size) <= table_span(level, page_size),
            child.cleared_from(child_before, level + 1, end_level, page_size),
            match entry_kind(self.spec_entries()[index], level) {
                EntryKind::Table => self.spec_children()[index] == Some(*child_before),
                EntryKind::Empty => forall|offset: int| #[trigger]
                    child_before.obstacle(level + 1, end_level, offset, page_size) != Some(
                        Obstacle::Larger,
                    ),
                _ => false,
            },
        ensures
            forall|offset: int|
                index * entry_span(level, page_size) <= offset < (index + 1) * entry_span(
                    level,
                    page_size,
                ) ==> {
                    let below = child.obstacle(
                        level + 1,
                        end_level,
                        offset - index * entry_span(level, page_size),
                        page_size,
                    );
                    let was = #[trigger] self.obstacle(level, end_level, offset, page_size);
                    &&& below is None || below == was
                    &&& was == Some(Obstacle::Larger) ==> below == Some(Obstacle::Larger)
                },
    {
        let span = entry_span(level, page_size);
        self.lemma_obstacle_entry(index, level, end_level, page_size);
        assert forall|offset: int| index * span <= offset < (index + 1) * span implies {
            let below = child.obstacle(level + 1, end_level, offset - index * span, page_size);
            let was = #[trigger] self.obstacle(level, end_level, offset, page_size);
            &&& below is None || below == was
            &&& was == Some(Obstacle::Larger) ==> below == Some(Obstacle::Larger)
        } by {
            let below = child.obstacle(level + 1, end_level, offset - index * span, page_size);
            let old_below = child_before.obstacle(
                level + 1,
                end_level,
                offset - index * span,
                page_size,
            );
            assert(below is None || below == old_below);
            assert(old_below == Some(Obstacle::Larger) ==> below == Some(Obstacle::Larger));
        }
    }

    /// An obstacle in the table below an entry is an obstacle of the table as it was at
    /// first; and the first block in the way in the table below is the first block in the
    /// way in the table as it was at first, where no block stood in the way before the
    /// part of the range that lies in the entry.
    proof fn lemma_obstacle_blocked(
        &self,
        initial: &Table,
        child_before: &Table,
        index: int,
        level: nat,
        end_level: nat,
        page_size: PageSize,
        start: int,
        end: int,
        current: int,
        within: int,
        part: int,
        virtual_base: int,
        error: Error,
    )
        requires
            level < end_level <= 3,
            0 <= index,
            0 <= start <= current,
            current + part <= end,
            index * entry_span(level, page_size) == current - within,
            0 <= within,
            0 < part,
            within + part <= entry_span(level, page_size),
            (index + 1) * entry_span(level, page_size) <= table_span(level, page_size),
            self.cleared_from(initial, level, end_level, page_size),
            self.clear(level, end_level, page_size, start, current),
            match entry_kind(self.spec_entries()[index], level) {
                EntryKind::Table => self.spec_children()[index] == Some(*child_before),
                EntryKind::Empty => forall|offset: int| #[trigger]
                    child_before.obstacle(level + 1, end_level, offset, page_size) != Some(
                        Obstacle::Larger,
                    ),
                _ => false,
            },
            !child_before.clear(level + 1, end_level, page_size, within, within + part),
            error is AlreadyMapped ==> child_before.stopped_by_block(
                level + 1,
                end_level,
                page_size,
                within,
                within + part,
                virtual_base + current - within,
                error,
            ),
        ensures
            !initial.clear(level, end_level, page_size, start, end),
            error is AlreadyMapped ==> initial.stopped_by_block(
                level,
                end_level,
                page_size,
                start,
                end,
                virtual_base,
                error,
            ),
    {
        let span = entry_span(level, page_size);
        self.lemma_obstacle_entry(index, level, end_level, page_size);
        assert((index + 1) * span == index * span + span) by (nonlinear_arith);
        let below = choose|below: int|
            within <= below < within + part && (#[trigger] child_before.obstacle(
                level + 1,
                end_level,
                below,
                page_size,
            )) is Some;
        let found = index * span + below;
        assert(self.obstacle(level, end_level, found, page_size) is Some);
        assert(initial.obstacle(level, end_level, found, page_size) is Some);
        if error is AlreadyMapped {
            let at = error->AlreadyMapped_address.addr() - virtual_base;
            let at_below = at - index * span;
            assert(child_before.obstacle(level + 1, end_level, at_below, page_size) == Some(
                Obstacle::Larger,
            ));
            assert(self.obstacle(level, end_level, at, page_size) == Some(Obstacle::Larger));
            assert forall|offset: int| start <= offset < at implies #[trigger] initial.obstacle(
                level,
                end_level,
                offset,
                page_size,
            ) != Some(Obstacle::Larger) by {
                if current <= offset {
                    assert(child_before.obstacle(
                        level + 1,
                        end_level,
                        offset - index * span,
                        page_size,
                    ) != Some(Obstacle::Larger));
                    assert(self.obstacle(level, end_level, offset, page_size) != Some(
                        Obstacle::Larger,
                    ));
                } else {
                    assert(self.obstacle(level, end_level, offset, page_size) is None);
                }
            }
        }
    }

    /// Whether `error` reports the first obstacle on the way to the entries of level
    /// `end_level` for the offsets from `start` up to `end`: an obstacle stands in the way
    /// of the offset that the error's address is from `virtual_base`, the error is of the
    /// obstacle's kind, and nothing stands in the way of the offsets before it.
    pub open spec fn stopped_at(
        &self,
        level: nat,
        end_level: nat,
        page_size: PageSize,
        start: int,
        end: int,
        virtual_base: int,
        error: Error,
    ) -> bool {
        let at = match error {
            Error::NotMapped { address } => address.addr() - virtual_base,
            Error::AlreadyMapped { address } => address.addr() - virtual_base,
            _ => -1,
        };
        &&& error is NotMapped || error is AlreadyMapped
        &&& start <= at < end
        &&& self.obstacle(level, end_level, at, page_size) == Some(
            if error is NotMapped {
                Obstacle::Missing
            } else {
                Obstacle::Larger
            },
        )
        &&& forall|offset: int|
            start <= offset < at ==> #[trigger] self.obstacle(level, end_level, offset, page_size)
                is None
    }

    /// The first obstacle in the table below an entry is the first obstacle in the table,
    /// where nothing stood in the way before the part of the range that lies in the entry.
    proof fn lemma_obstacle_stopped(
        &self,
        child: &Table,
        index: int,
        level: nat,
        end_level: nat,
        page_size: PageSize,
        start: int,
        end: int,
        current: int,
        within: int,
        part: int,
        virtual_base: int,
        error: Error,
    )
        requires
            level < end_level <= 3,
            0 <= index,
            0 <= start <= current,
            current + part <= end,
            index * entry_span(level, page_size) == current - within,
            0 <= within,
            0 < part,
            within + part <= entry_span(level, page_size),
            forall|offset: int|
                index * entry_span(level, page_size) <= offset < (index + 1) * entry_span(
                    level,
                    page_size,
                ) ==> #[trigger] self.obstacle(level, end_level, offset, page_size)
                    == child.obstacle(
                    level + 1,
                    end_level,
                    offset - index * entry_span(level, page_size),
                    page_size,
                ),
            forall|offset: int|
                start <= offset < current ==> #[trigger] self.obstacle(
                    level,
                    end_level,
                    offset,
                    page_size,
                ) is None,
            child.stopped_at(
                level + 1,
                end_level,
                page_size,
                within,
                within + part,
                virtual_base + current - within,
                error,
            ),
        ensures
            self.stopped_at(level, end_level, page_size, start, end, virtual_base, error),
    {
        let span = entry_span(level, page_size);
        assert((index + 1) * span == index * span + span) by (nonlinear_arith);
        let at = match error {
            Error::NotMapped { address } => address.addr() - virtual_base,
            Error::AlreadyMapped { address } => address.addr() - virtual_base,
            _ => -1,
        };
        let below = at - index * span;
        assert(self.obstacle(level, end_level, at, page_size) == child.obstacle(
            level + 1,
            end_level,
            below,
            page_size,
        ));
        assert forall|offset: int| start <= offset < at implies #[trigger] self.obstacle(
            level,
            end_level,
            offset,
            page_size,
        ) is None by {
            if current <= offset {
                assert(child.obstacle(level + 1, end_level, offset - index * span, page_size)
                    is None);
            }
        }
    }

    /// One entry of a walk that unmaps: where the table below the entry `index` has the
    /// same obstacles as before, so has the table; and where nothing stood in the way of
    /// the part of a range that lies in the entry, nor of the range before that part,
    /// nothing stood in the way of the range up to the end of the part.
    proof fn lemma_obstacle_stepped(
        &self,
        before: &Table,
        initial: &Table,
        child: &Table,
        child_before: &Table,
        index: int,
        level: nat,
        end_level: nat,
        page_size: PageSize,
        start: int,
        current: int,
        within: int,
        part: int,
        reached: bool,
    )
        requires
            level < end_level <= 3,
            0 <= index,
            0 <= start <= current,
            index * entry_span(level, page_size) == current - within,
            0 <= within,
            0 < part,
            within + part <= entry_span(level, page_size),
            (index + 1) * entry_span(level, page_size) <= table_span(level, page_size),
            before.well_formed(level, page_size),
            self.same_but(before, index),
            self.spec_entries()[index] == before.spec_entries()[index],
            entry_kind(before.spec_entries()[index], level) is Table,
            self.spec_children()[index] == Some(*child),
            before.spec_children()[index] == Some(*child_before),
            forall|offset: int| #[trigger]
                child.obstacle(level + 1, end_level, offset, page_size) == child_before.obstacle(
                    level + 1,
                    end_level,
                    offset,
                    page_size,
                ),
            forall|offset: int| #[trigger]
                before.obstacle(level, end_level, offset, page_size) == initial.obstacle(
                    level,
                    end_level,
                    offset,
                    page_size,
                ),
            forall|offset: int|
                start <= offset < current ==> #[trigger] initial.obstacle(
                    level,
                    end_level,
                    offset,
                    page_size,
                ) is None,
            reached ==> forall|offset: int|
                within <= offset < within + part ==> #[trigger] child_before.obstacle(
                    level + 1,
                    end_level,
                    offset,
                    page_size,
                ) is None,
        ensures
            forall|offset: int| #[trigger]
                self.obstacle(level, end_level, offset, page_size) == initial.obstacle(
                    level,
                    end_level,
                    offset,
                    page_size,
                ),
            forall|offset: int|
                index * entry_span(level, page_size) <= offset < (index + 1) * entry_span(
                    level,
                    page_size,
                ) ==> #[trigger] initial.obstacle(level, end_level, offset, page_size)
                    == child_before.obstacle(
                    level + 1,
                    end_level,
                    offset - index * entry_span(level, page_size),
                    page_size,
                ),
            reached ==> forall|offset: int|
                start <= offset < current + part ==> #[trigger] initial.obstacle(
                    level,
                    end_level,
                    offset,
                    page_size,
                ) is None,
    {
        let span = entry_span(level, page_size);
        self.lemma_obstacle_entry(index, level, end_level, page_size);
        before.lemma_obstacle_entry(index, level, end_level, page_size);
        self.lemma_obstacle_outside(before, index, level, end_level, page_size);
        assert((index + 1) * span == index * span + span) by (nonlinear_arith);
        assert forall|offset: int| #[trigger]
            self.obstacle(level, end_level, offset, page_size) == initial.obstacle(
                level,
                end_level,
                offset,
                page_size,
            ) by {
            if index * span <= offset < (index + 1) * span {
                assert(self.obstacle(level, end_level, offset, page_size) == child.obstacle(
                    level + 1,
                    end_level,
                    offset - index * span,
                    page_size,
                ));
                assert(before.obstacle(level, end_level, offset, page_size)
                    == child_before.obstacle(level + 1, end_level, offset - index * span, page_size));
            } else if 0 <= offset {
                lemma_outside_entry(index, span, offset);
            }
            assert(before.obstacle(level, end_level, offset, page_size) == initial.obstacle(
                level,
                end_level,
                offset,
                page_size,
            ));
        }
        assert forall|offset: int| index * span <= offset < (index + 1) * span implies
            #[trigger] initial.obstacle(level, end_level, offset, page_size)
            == child_before.obstacle(level + 1, end_level, offset - index * span, page_size) by {
            assert(before.obstacle(level, end_level, offset, page_size) == initial.obstacle(
                level,
                end_level,
                offset,
                page_size,
            ));
        }
        if reached {
            assert forall|offset: int| start <= offset < current + part implies
                #[trigger] initial.obstacle(level, end_level, offset, page_size) is None by {
                if current <= offset {
                    assert(child_before.obstacle(
                        level + 1,
                        end_level,
                        offset - index * span,
                        page_size,
                    ) is None);
                }
            }
        }
    }
}

/// What a range of address space is mapped to.
pub enum Target {
    /// The memory that starts at the physical address, with the property bits.
    Memory(int, u64),
    /// Nothing.
    Nothing,
}

impl Target {
    /// What the byte at `delta` bytes from the start of the range is mapped to: its
    /// physical address and the property bits of its mapping.
    pub open spec fn at(self, delta: int) -> Option<(int, u64)> {
        match self {
            Target::Memory(physical_start, properties) => Some(
                (physical_start + delta, properties),
            ),
            Target::Nothing => None,
        }
    }
}

impl Table {
    /// Whether the table maps the offsets from `start` up to `end` to `target`, and every
    /// other offset as `before` does.
    pub open spec fn changed_from(
        &self,
        before: &Table,
        level: nat,
        page_size: PageSize,
        start: int,
        end: int,
        target: Target,
    ) -> bool {
        &&& forall|offset: int|
            start <= offset < end ==> #[trigger] self.resolve(level, offset, page_size)
                == target.at(offset - start)
        &&& forall|offset: int|
            !(start <= offset < end) ==> #[trigger] self.resolve(level, offset, page_size)
                == before.resolve(level, offset, page_size)
    }

    /// One entry of a walk: where the table below the entry `index` has got the part of a
    /// range that lies in the entry, and the range before that part was mapped already,
    /// the range up to the end of the part is mapped.
    proof fn lemma_entry_stepped(
        &self,
        before: &Table,
        initial: &Table,
        child: &Table,
        child_before: &Table,
        index: int,
        level: nat,
        page_size: PageSize,
        start: int,
        current: int,
        within: int,
        part: int,
        target: Target,
    )
        requires
            level < 3,
            0 <= index,
            0 <= start <= current,
            index * entry_span(level, page_size) == current - within,
            0 <= within,
            0 < part,
            within + part <= entry_span(level, page_size),
            (index + 1) * entry_span(level, page_size) <= table_span(level, page_size),
            self.same_but(before, index),
            entry_kind(self.spec_entries()[index], level) is Table,
            self.spec_children()[index] == Some(*child),
            before.changed_from(initial, level, page_size, start, current, target),
            child.changed_from(
                child_before,
                level + 1,
                page_size,
                within,
                within + part,
                match target {
                    Target::Memory(physical_start, properties) => Target::Memory(
                        physical_start + current - start,
                        properties,
                    ),
                    Target::Nothing => Target::Nothing,
                },
            ),
            forall|offset: int|
                index * entry_span(level, page_size) <= offset < (index + 1) * entry_span(
                    level,
                    page_size,
                ) ==> #[trigger] before.resolve(level, offset, page_size) == child_before.resolve(
                    level + 1,
                    offset - index * entry_span(level, page_size),
                    page_size,
                ),
            forall|offset: int|
                0 <= offset && offset / entry_span(level, page_size) != index
                    ==> #[trigger] self.resolve(level, offset, page_size) == before.resolve(
                    level,
                    offset,
                    page_size,
                ),
            forall|offset: int| offset < 0 ==> #[trigger] self.resolve(level, offset, page_size)
                == before.resolve(level, offset, page_size),
        ensures
            self.changed_from(initial, level, page_size, start, current + part, target),
    {
        let span = entry_span(level, page_size);
        self.lemma_terminal_entry(index, level, page_size);
        assert((index + 1) * span == index * span + span) by (nonlinear_arith);
        assert forall|offset: int| start <= offset < current + part implies #[trigger] self.resolve(
            level,
            offset,
            page_size,
        ) == target.at(offset - start) by {
            if index * span <= offset {
                let inner = child.resolve(level + 1, offset - index * span, page_size);
                assert(self.resolve(level, offset, page_size) == inner);
                if offset < current {
                    assert(inner == child_before.resolve(
                        level + 1,
                        offset - index * span,
                        page_size,
                    ));
                    assert(before.resolve(level, offset, page_size) == inner);
                }
            } else {
                lemma_outside_entry(index, span, offset);
                assert(self.resolve(level, offset, page_size) == before.resolve(
                    level,
                    offset,
                    page_size,
                ));
            }
        }
        assert forall|offset: int| !(start <= offset < current + part) implies #[trigger] self.resolve(
            level,
            offset,
            page_size,
        ) == initial.resolve(level, offset, page_size) by {
            if index * span <= offset < (index + 1) * span {
                let inner = child.resolve(level + 1, offset - index * span, page_size);
                assert(self.resolve(level, offset, page_size) == inner);
                assert(inner == child_before.resolve(level + 1, offset - index * span, page_size));
                assert(before.resolve(level, offset, page_size) == inner);
            } else if 0 <= offset {
                lemma_outside_entry(index, span, offset);
            }
            assert(self.resolve(level, offset, page_size) == before.resolve(
                level,
                offset,
                page_size,
            ));
        }
    }

    /// Maps the `length` bytes of address space from the offset `start` of the table on
    /// to the memory at `physical_start`, in blocks of the level `end_level`, and makes
    /// the tables on the way there that are missing.
    ///
    /// On an error the table may hold a part of the mapping.
    #[verifier::rlimit(100)]
    fn map_step<PA: PageAllocator>(
        &mut self,
        level: u8,
        end_level: u8,
        start: u64,
        physical_start: u64,
        length: u64,
        properties: u64,
        page_size: PageSize,
        page_allocator: &mut PA,
        virtual_base: u64,
    ) -> (r: Result<(), Error>)
        requires
            old(self).well_formed(level as nat, page_size),
            level <= end_level <= 3,
            blocks_at(end_level as nat, page_size) || end_level == 3,
            start % (entry_span(end_level as nat, page_size) as u64) == 0,
            length % (entry_span(end_level as nat, page_size) as u64) == 0,
            length > 0,
            start + length <= table_span(level as nat, page_size),
            virtual_base + table_span(level as nat, page_size) <= u64::MAX + 1,
            physical_start % (entry_span(end_level as nat, page_size) as u64) == 0,
            physical_start + length <= ADDRESS_SPACE_SIZE,
            properties & !PROPERTY_BITS == 0,
            old(page_allocator).well_formed(),
            old(page_allocator).spec_page_size() == page_size,
        ensures
            final(self).well_formed(level as nat, page_size),
            final(self).spec_address() == old(self).spec_address(),
            final(page_allocator).well_formed(),
            final(page_allocator).spec_page_size() == page_size,
            forall|address: int|
                #[trigger] final(page_allocator).is_free(address) ==> old(page_allocator).is_free(
                    address,
                ),
            r is Ok ==> final(self).changed_from(
                old(self),
                level as nat,
                page_size,
                start as int,
                start + length,
                Target::Memory(physical_start as int, properties),
            ),
            r is Err ==> r->Err_0 is AlreadyMapped || r->Err_0 is Allocator,
            final(self).cleared_from(old(self), level as nat, end_level as nat, page_size),
            r is Ok ==> final(self).clear(
                level as nat,
                end_level as nat,
                page_size,
                start as int,
                start + length,
            ),
            r is Err ==> !old(self).clear(
                level as nat,
                end_level as nat,
                page_size,
                start as int,
                start + length,
            ),
            r is Err && r->Err_0 is AlreadyMapped ==> old(self).stopped_by_block(
                level as nat,
                end_level as nat,
                page_size,
                start as int,
                start + length,
                virtual_base as int,
                r->Err_0,
            ),
            final(page_allocator).spare_pages() + tables_needed(
                level as nat,
                end_level as nat,
                page_size,
                start as int,
                length as int,
            ) >= old(page_allocator).spare_pages(),
            r is Err && r->Err_0 is Allocator ==> old(page_allocator).spare_pages()
                < tables_needed(
                level as nat,
                end_level as nat,
                page_size,
                start as int,
                length as int,
            ),
            old(self).clear(
                level as nat,
                end_level as nat,
                page_size,
                start as int,
                start + length,
            ) ==> *final(page_allocator) == *old(page_allocator),
        decreases 4 - level,
    {
        let ghost target = Target::Memory(physical_start as int, properties);
        if level == end_level {
            self.write_entries(level, start, physical_start, length, Some(properties), page_size);
            return Ok(());
        }
        let span = span_of_entry(level, page_size);
        let mut done: u64 = 0;
        proof {
            lemma_spans(level as nat, end_level as nat, page_size, start);
            lemma_small_mod(0, entry_span(end_level as nat, page_size) as nat);
        }
        while done < length
            invariant
                self.well_formed(level as nat, page_size),
                self.spec_address() == old(self).spec_address(),
                level < end_level <= 3,
                blocks_at(end_level as nat, page_size) || end_level == 3,
                span == entry_span(level as nat, page_size),
                target == Target::Memory(physical_start as int, properties),
                start % (entry_span(end_level as nat, page_size) as u64) == 0,
                length % (entry_span(end_level as nat, page_size) as u64) == 0,
                done % (entry_span(end_level as nat, page_size) as u64) == 0,
                done <= length,
                start + length <= table_span(level as nat, page_size),
                table_span(level as nat, page_size) <= ADDRESS_SPACE_SIZE,
                virtual_base + table_span(level as nat, page_size) <= u64::MAX + 1,
                physical_start % (entry_span(end_level as nat, page_size) as u64) == 0,
                physical_start + length <= ADDRESS_SPACE_SIZE,
                properties & !PROPERTY_BITS == 0,
                page_allocator.well_formed(),
                page_allocator.spec_page_size() == page_size,
                forall|address: int|
                    #[trigger] page_allocator.is_free(address) ==> old(page_allocator).is_free(
                        address,
                    ),
                self.changed_from(
                    old(self),
                    level as nat,
                    page_size,
                    start as int,
                    start + done,
                    target,
                ),
                self.cleared_from(old(self), level as nat, end_level as nat, page_size),
                self.clear(level as nat, end_level as nat, page_size, start as int, start + done),
                page_allocator.spare_pages() + tables_needed(
                    level as nat,
                    end_level as nat,
                    page_size,
                    start as int,
                    length as int,
                ) >= old(page_allocator).spare_pages() + tables_needed(
                    level as nat,
                    end_level as nat,
                    page_size,
                    start + done,
                    length - done,
                ),
                old(self).clear(
                    level as nat,
                    end_level as nat,
                    page_size,
                    start as int,
                    start + length,
                ) ==> *page_allocator == *old(page_allocator),
            decreases length - done,
        {
            let current = start + done;
            let index = (current / span) as usize;
            let within = current % span;
            let room = span - within;
            let part = if length - done < room {
                length - done
            } else {
                room
            };
            let ghost before = *self;
            proof {
                let block = entry_span(end_level as nat, page_size);
                lemma_multiples(block, start as int, done as int);
                lemma_multiples(block, length as int, done as int);
                lemma_multiples(block, physical_start as int, done as int);
                lemma_spans(level as nat, end_level as nat, page_size, current);
                lemma_index_in_table(level as nat, current as int, page_size);
                lemma_fundamental_div_mod(current as int, span as int);
                assert(index * span == current - within) by (nonlinear_arith)
                    requires
                        current == span * (current / span) + current % span,
                        within == current % span,
                        index == current / span,
                ;
                lemma_multiples(block, room as int, 0);
                lemma_multiples(block, done as int, part as int);
                lemma_entry_in_table(level as nat, index as int, page_size);
                before.lemma_terminal_entry(index as int, level as nat, page_size);
                before.lemma_obstacle_entry(
                    index as int,
                    level as nat,
                    end_level as nat,
                    page_size,
                );
                lemma_tables_needed(
                    level as nat,
                    end_level as nat,
                    page_size,
                    current as int,
                    length - done,
                    within as int,
                    part as int,
                );
            }
            let ghost spare_before = page_allocator.spare_pages();
            let raw = self.entries[index];
            let mut child = match self.children[index].take() {
                Some(child) => child,
                None => match Entry(raw).decode(level) {
                    DecodedEntry::Empty => {
                        let allocation = page_allocator.allocate(pages_for_table(page_size));
                        proof {
                            assert(self.spec_children() =~= before.spec_children());
                            self.lemma_obstacle_same(
                                &before,
                                level as nat,
                                end_level as nat,
                                page_size,
                            );
                            assert(old(self).obstacle(
                                level as nat,
                                end_level as nat,
                                current as int,
                                page_size,
                            ) is Some);
                        }
                        match Table::for_allocation(allocation, page_size, level + 1) {
                            Ok((table, entry)) => {
                                self.entries[index] = entry;
                                table
                            },
                            Err(e) => {
                                return Err(e);
                            },
                        }
                    },
                    _ => {
                        proof {
                            assert(self.spec_children() =~= before.spec_children());
                            self.lemma_obstacle_same(
                                &before,
                                level as nat,
                                end_level as nat,
                                page_size,
                            );
                            assert(before.obstacle(
                                level as nat,
                                end_level as nat,
                                current as int,
                                page_size,
                            ) == Some(Obstacle::Larger));
                            assert(old(self).obstacle(
                                level as nat,
                                end_level as nat,
                                current as int,
                                page_size,
                            ) == Some(Obstacle::Larger));
                        }
                        return Err(
                            Error::AlreadyMapped {
                                address: VirtualAddress::new(virtual_base + current),
                            },
                        );
                    },
                },
            };
            let ghost child_before = child;
            let ghost spare_below = page_allocator.spare_pages();
            proof {
                assert(spare_below + 1 >= spare_before);
                if old(self).clear(
                    level as nat,
                    end_level as nat,
                    page_size,
                    start as int,
                    start + length,
                ) {
                    before.lemma_clear_below(
                        old(self),
                        &child_before,
                        index as int,
                        level as nat,
                        end_level as nat,
                        page_size,
                        start as int,
                        start + length,
                        current as int,
                        within as int,
                        part as int,
                    );
                }
            }
            let result = child.map_step(
                level + 1,
                end_level,
                within,
                physical_start + done,
                part,
                properties,
                page_size,
                page_allocator,
                virtual_base + current - within,
            );
            self.children[index] = Some(child);
            proof {
                assert(self.same_but(&before, index as int));
                self.lemma_changed_entry(&before, index as int, level as nat, page_size);
                before.lemma_obstacle_below(
                    &child,
                    &child_before,
                    index as int,
                    level as nat,
                    end_level as nat,
                    page_size,
                );
                self.lemma_obstacle_mapped(
                    &before,
                    old(self),
                    &child,
                    index as int,
                    level as nat,
                    end_level as nat,
                    page_size,
                    start as int,
                    current as int,
                    within as int,
                    part as int,
                    result is Ok,
                );
            }
            if let Err(e) = result {
                proof {
                    before.lemma_obstacle_blocked(
                        old(self),
                        &child_before,
                        index as int,
                        level as nat,
                        end_level as nat,
                        page_size,
                        start as int,
                        start + length,
                        current as int,
                        within as int,
                        part as int,
                        virtual_base as int,
                        e,
                    );
                }
                return Err(e);
            }
            done = done + part;
            proof {
                self.lemma_entry_stepped(
                    &before,
                    old(self),
                    &child,
                    &child_before,
                    index as int,
                    level as nat,
                    page_size,
                    start as int,
                    current as int,
                    within as int,
                    part as int,
                    target,
                );
            }
        }
        Ok(())
    }

    /// Unmaps the `length` bytes of address space from the offset `start` of the table
    /// on, in blocks of the level `end_level`.
    ///
    /// On an error a part of the range may be unmapped.
    #[verifier::rlimit(40)]
    fn unmap_step(
        &mut self,
        level: u8,
        end_level: u8,
        start: u64,
        length: u64,
        page_size: PageSize,
        virtual_base: u64,
    ) -> (r: Result<(), Error>)
        requires
            old(self).well_formed(level as nat, page_size),
            level <= end_level <= 3,
            blocks_at(end_level as nat, page_size) || end_level == 3,
            start % (entry_span(end_level as nat, page_size) as u64) == 0,
            length % (entry_span(end_level as nat, page_size) as u64) == 0,
            length > 0,
            start + length <= table_span(level as nat, page_size),
            virtual_base + table_span(level as nat, page_size) <= u64::MAX + 1,
        ensures
            final(self).well_formed(level as nat, page_size),
            final(self).spec_address() == old(self).spec_address(),
            r is Ok ==> final(self).changed_from(
                old(self),
                level as nat,
                page_size,
                start as int,
                start + length,
                Target::Nothing,
            ),
            forall|offset: int| #[trigger]
                final(self).obstacle(level as nat, end_level as nat, offset, page_size) == old(
                    self,
                ).obstacle(level as nat, end_level as nat, offset, page_size),
            r is Ok ==> forall|offset: int|
                start <= offset < start + length ==> #[trigger] old(self).obstacle(
                    level as nat,
                    end_level as nat,
                    offset,
                    page_size,
                ) is None,
            r is Err ==> old(self).stopped_at(
                level as nat,
                end_level as nat,
                page_size,
                start as int,
                start + length,
                virtual_base as int,
                r->Err_0,
            ),
        decreases 4 - level,
    {
        let ghost target = Target::Nothing;
        if level == end_level {
            self.write_entries(level, start, 0, length, None, page_size);
            return Ok(());
        }
        let span = span_of_entry(level, page_size);
        let mut done: u64 = 0;
        proof {
            lemma_spans(level as nat, end_level as nat, page_size, start);
            lemma_small_mod(0, entry_span(end_level as nat, page_size) as nat);
        }
        while done < length
            invariant
                self.well_formed(level as nat, page_size),
                self.spec_address() == old(self).spec_address(),
                level < end_level <= 3,
                blocks_at(end_level as nat, page_size) || end_level == 3,
                span == entry_span(level as nat, page_size),
                target == Target::Nothing,
                start % (entry_span(end_level as nat, page_size) as u64) == 0,
                length % (entry_span(end_level as nat, page_size) as u64) == 0,
                done % (entry_span(end_level as nat, page_size) as u64) == 0,
                done <= length,
                start + length <= table_span(level as nat, page_size),
                table_span(level as nat, page_size) <= ADDRESS_SPACE_SIZE,
                virtual_base + table_span(level as nat, page_size) <= u64::MAX + 1,
                self.changed_from(
                    old(self),
                    level as nat,
                    page_size,
                    start as int,
                    start + done,
                    target,
                ),
                forall|offset: int| #[trigger]
                    self.obstacle(level as nat, end_level as nat, offset, page_size) == old(
                        self,
                    ).obstacle(level as nat, end_level as nat, offset, page_size),
                forall|offset: int|
                    start <= offset < start + done ==> #[trigger] old(self).obstacle(
                        level as nat,
                        end_level as nat,
                        offset,
                        page_size,
                    ) is None,
            decreases length - done,
        {
            let current = start + done;
            let index = (current / span) as usize;
            let within = current % span;
            let room = span - within;
            let part = if length - done < room {
                length - done
            } else {
                room
            };
            let ghost before = *self;
            proof {
                let block = entry_span(end_level as nat, page_size);
                lemma_multiples(block, start as int, done as int);
                lemma_multiples(block, length as int, done as int);
                lemma_spans(level as nat, end_level as nat, page_size, current);
                lemma_index_in_table(level as nat, current as int, page_size);
                lemma_fundamental_div_mod(current as int, span as int);
                assert(index * span == current - within) by (nonlinear_arith)
                    requires
                        current == span * (current / span) + current % span,
                        within == current % span,
                        index == current / span,
                ;
                lemma_multiples(block, room as int, 0);
                lemma_multiples(block, done as int, part as int);
                lemma_entry_in_table(level as nat, index as int, page_size);
                before.lemma_terminal_entry(index as int, level as nat, page_size);
                before.lemma_obstacle_entry(
                    index as int,
                    level as nat,
                    end_level as nat,
                    page_size,
                );
            }
            let raw = self.entries[index];
            let mut child = match self.children[index].take() {
                Some(child) => child,
                None => match Entry(raw).decode(level) {
                    DecodedEntry::Empty => {
                        proof {
                            assert(self.spec_children() =~= before.spec_children());
                            self.lemma_obstacle_same(
                                &before,
                                level as nat,
                                end_level as nat,
                                page_size,
                            );
                            assert(before.obstacle(
                                level as nat,
                                end_level as nat,
                                current as int,
                                page_size,
                            ) == Some(Obstacle::Missing));
                        }
                        return Err(
                            Error::NotMapped { address: VirtualAddress::new(virtual_base + current) },
                        );
                    },
                    _ => {
                        proof {
                            assert(self.spec_children() =~= before.spec_children());
                            self.lemma_obstacle_same(
                                &before,
                                level as nat,
                                end_level as nat,
                                page_size,
                            );
                            assert(before.obstacle(
                                level as nat,
                                end_level as nat,
                                current as int,
                                page_size,
                            ) == Some(Obstacle::Larger));
                        }
                        return Err(
                            Error::AlreadyMapped {
                                address: VirtualAddress::new(virtual_base + current),
                            },
                        );
                    },
                },
            };
            let ghost child_before = child;
            let result = child.unmap_step(
                level + 1,
                end_level,
                within,
                part,
                page_size,
                virtual_base + current - within,
            );
            self.children[index] = Some(child);
            proof {
                assert(self.same_but(&before, index as int));
                self.lemma_changed_entry(&before, index as int, level as nat, page_size);
                self.lemma_obstacle_stepped(
                    &before,
                    old(self),
                    &child,
                    &child_before,
                    index as int,
                    level as nat,
                    end_level as nat,
                    page_size,
                    start as int,
                    current as int,
                    within as int,
                    part as int,
                    result is Ok,
                );
            }
            if let Err(e) = result {
                proof {
                    old(self).lemma_obstacle_stopped(
                        &child_before,
                        index as int,
                        level as nat,
                        end_level as nat,
                        page_size,
                        start as int,
                        start + length,
                        current as int,
                        within as int,
                        part as int,
                        virtual_base as int,
                        e,
                    );
                }
                return Err(e);
            }
            done = done + part;
            proof {
                self.lemma_entry_stepped(
                    &before,
                    old(self),
                    &child,
                    &child_before,
                    index as int,
                    level as nat,
                    page_size,
                    start as int,
                    current as int,
                    within as int,
                    part as int,
                    target,
                );
            }
        }
        Ok(())
    }
}

/// The offset of an address in an entry of a table is its offset in the table that the
/// entry points to, and is what is left of the address under the mask of the entry's span.
pub proof fn lemma_nested_offset(level: nat, page_size: PageSize, a: u64)
    requires
        level <= 3,
    ensures
        (a % (table_span(level, page_size) as u64)) % (entry_span(level, page_size) as u64) == a
            % (entry_span(level, page_size) as u64),
        a & ((entry_span(level, page_size) - 1) as u64) == a % (entry_span(
            level,
            page_size,
        ) as u64),
{
    assert((a % 0x1_0000_0000_0000) % 0x80_0000_0000 == a % 0x80_0000_0000 && a & 0x7f_ffff_ffff == a % 0x80_0000_0000
        && (a % 0x80_0000_0000) % 0x4000_0000 == a % 0x4000_0000 && a & 0x3fff_ffff == a % 0x4000_0000
        && (a % 0x4000_0000) % 0x20_0000 == a % 0x20_0000 && a & 0x1f_ffff == a % 0x20_0000
        && (a % 0x20_0000) % 0x1000 == a % 0x1000 && a & 0xfff == a % 0x1000
        && (a % 0x1_0000_0000_0000) % 0x8000_0000_0000 == a % 0x8000_0000_0000 && a & 0x7fff_ffff_ffff == a % 0x8000_0000_0000
        && (a % 0x8000_0000_0000) % 0x10_0000_0000 == a % 0x10_0000_0000 && a & 0xf_ffff_ffff == a % 0x10_0000_0000
        && (a % 0x10_0000_0000) % 0x200_0000 == a % 0x200_0000 && a & 0x1ff_ffff == a % 0x200_0000
        && (a % 0x200_0000) % 0x4000 == a % 0x4000 && a & 0x3fff == a % 0x4000) by (bit_vector);
}

/// The low 48 bits of an address that lies some bytes behind another, short of the end of
/// the 48-bit address space, lie as many bytes behind the low 48 bits of the other.
pub proof fn lemma_offset(va: u64, i: int)
    requires
        0 <= i,
        va % ADDRESS_SPACE_SIZE + i < ADDRESS_SPACE_SIZE,
    ensures
        va + i <= u64::MAX,
        ((va + i) as u64) % ADDRESS_SPACE_SIZE == va % ADDRESS_SPACE_SIZE + i,
{
    let size = ADDRESS_SPACE_SIZE as int;
    lemma_fundamental_div_mod(va as int, size);
    let q = va as int / size;
    let r = va as int % size;
    assert(q <= 0xffff);
    assert(size * q == q * size) by (nonlinear_arith);
    lemma_fundamental_div_mod_converse(va + i, size, q, r + i);
}

/// An address carries the kernel tag exactly if its top sixteen bits, as a number, are
/// all ones.
pub proof fn lemma_kernel_tag(address: u64)
    ensures
        has_kernel_tag(address) == (address / ADDRESS_SPACE_SIZE == 0xffff),
{
    assert((address & 0xffff_0000_0000_0000 == 0xffff_0000_0000_0000) == (address
        / 0x1_0000_0000_0000 == 0xffff)) by (bit_vector);
}

/// A page table data structure.
///
/// This structure manages the entire tree of tables.
pub struct PageTables {
    root: Table,
    page_size: PageSize,
    /// true => pointers must have `0xffff` tag, false => must have `0x0000` tag.
    high_tag: bool,
}

impl PageTables {
    /// The size of the pages of the tables.
    pub closed spec fn spec_page_size(&self) -> PageSize {
        self.page_size
    }

    /// Whether the tables map addresses that carry the kernel tag.
    pub closed spec fn spec_high_tag(&self) -> bool {
        self.high_tag
    }

    /// The root table.
    pub closed spec fn spec_root(&self) -> Table {
        self.root
    }

    /// The physical address of the root table.
    pub closed spec fn spec_root_address(&self) -> u64 {
        self.root.spec_address()
    }

    /// The invariant of the tables: that of the root table, at level 0.
    pub closed spec fn well_formed(&self) -> bool {
        self.root.well_formed(0, self.page_size)
    }

    /// What the tables map the virtual address `address` to, if anything: the physical
    /// address, and the property bits of the mapping ([`MemoryProperties::spec_encode`]).
    /// An address whose tag is not the one of the tables is not mapped.
    pub closed spec fn mapping(&self, address: u64) -> Option<(int, u64)> {
        if has_kernel_tag(address) != self.high_tag {
            None
        } else {
            self.root.resolve(0, (address % ADDRESS_SPACE_SIZE) as int, self.page_size)
        }
    }

    /// The physical address that the tables map the virtual address `address` to, if any.
    pub open spec fn translate(&self, address: u64) -> Option<int> {
        match self.mapping(address) {
            Some(mapped) => Some(mapped.0),
            None => None,
        }
    }

    /// The property bits with which the tables map the virtual address `address`, if they
    /// map it.
    pub open spec fn properties_at(&self, address: u64) -> Option<u64> {
        match self.mapping(address) {
            Some(mapped) => Some(mapped.1),
            None => None,
        }
    }

    /// What keeps a walk of the tables from reaching the entry of a block of the size
    /// `size` for the virtual address `address`, if anything.
    pub closed spec fn obstacle_at(&self, address: u64, size: MapBlockSize) -> Option<Obstacle> {
        self.root.obstacle(
            0,
            level_of(size),
            (address % ADDRESS_SPACE_SIZE) as int,
            self.page_size,
        )
    }

    /// Whether nothing keeps a walk of the tables from reaching the entries of the blocks of
    /// the size `size` for the `length` bytes at `virtual_start`.
    pub open spec fn reachable(&self, virtual_start: u64, length: int, size: MapBlockSize) -> bool {
        forall|i: int|
            0 <= i < length ==> #[trigger] self.obstacle_at((virtual_start + i) as u64, size)
                is None
    }

    /// Whether `error` reports the first obstacle on the way to the entries of the blocks
    /// of the size `size` for the `length` bytes at `virtual_start`: the error names the
    /// first address of the range that an obstacle stands in the way of, and is of the
    /// obstacle's kind, `NotMapped` for a missing table and `AlreadyMapped` for a larger
    /// block.
    pub open spec fn stopped(&self, virtual_start: u64, length: int, size: MapBlockSize, error: Error)
        -> bool {
        let at = match error {
            Error::NotMapped { address } => address.addr() - virtual_start,
            Error::AlreadyMapped { address } => address.addr() - virtual_start,
            _ => -1,
        };
        &&& error is NotMapped || error is AlreadyMapped
        &&& 0 <= at < length
        &&& self.obstacle_at((virtual_start + at) as u64, size) == Some(
            if error is NotMapped {
                Obstacle::Missing
            } else {
                Obstacle::Larger
            },
        )
        &&& self.reachable(virtual_start, at, size)
    }

    /// The number of tables, at most, that a mapping of the `length` bytes at
    /// `virtual_start` in blocks of the size `size` takes pages for: the number that it
    /// takes where no table below the root is there yet.
    pub open spec fn tables_for(&self, virtual_start: u64, length: int, size: MapBlockSize) -> nat {
        tables_needed(
            0,
            level_of(size),
            self.spec_page_size(),
            (virtual_start % ADDRESS_SPACE_SIZE) as int,
            length,
        )
    }

    /// Whether `error` reports the first block that stands in the way to the entries of
    /// the blocks of the size `size` for the `length` bytes at `virtual_start`: the error
    /// names the first address of the range that a larger block stands in the way of.
    pub open spec fn stopped_by_block(
        &self,
        virtual_start: u64,
        length: int,
        size: MapBlockSize,
        error: Error,
    ) -> bool {
        let at = match error {
            Error::AlreadyMapped { address } => address.addr() - virtual_start,
            _ => -1,
        };
        &&& 0 <= at < length
        &&& self.obstacle_at((virtual_start + at) as u64, size) == Some(Obstacle::Larger)
        &&& forall|i: int|
            0 <= i < at ==> #[trigger] self.obstacle_at((virtual_start + i) as u64, size) != Some(
                Obstacle::Larger,
            )
    }

    /// Whether the tables map the `length` bytes at `virtual_start` to the memory at
    /// `physical_start`, byte for byte, with the property bits `properties`.
    pub open spec fn maps(&self, virtual_start: u64, physical_start: u64, length: int, properties: u64)
        -> bool {
        forall|i: int|
            0 <= i < length ==> #[trigger] self.mapping((virtual_start + i) as u64) == Some(
                (physical_start + i, properties),
            )
    }

    /// Whether the tables map none of the `length` bytes at `virtual_start`.
    pub open spec fn maps_nothing(&self, virtual_start: u64, length: int) -> bool {
        forall|i: int| 0 <= i < length ==> #[trigger] self.mapping((virtual_start + i) as u64) is None
    }

    /// Whether the tables map every address as `before` does, but for the addresses whose
    /// low 48 bits lie in the `length` bytes from those of `virtual_start` on.
    pub open spec fn same_outside(&self, before: &PageTables, virtual_start: u64, length: int)
        -> bool {
        forall|address: u64|
            !(virtual_start % ADDRESS_SPACE_SIZE <= address % ADDRESS_SPACE_SIZE < virtual_start
                % ADDRESS_SPACE_SIZE + length) ==> #[trigger] self.mapping(address)
                == before.mapping(address)
    }

    /// Mapping a range and unmapping it again are inverse to each other: in tables that
    /// map a range, each address of the range translates to the address that lies as far
    /// into the memory; once the range has been unmapped no address of it translates to
    /// anything; and every other address is mapped as it was before the range was mapped.
    /// Unmapping a range in blocks of the size that it has been mapped with reports no
    /// obstacle, since nothing stands in the way of a range that has been mapped.
    pub proof fn lemma_map_then_unmap(
        before: &PageTables,
        mapped: &PageTables,
        unmapped: &PageTables,
        virtual_start: u64,
        physical_start: u64,
        length: int,
        properties: u64,
        size: MapBlockSize,
        error: Error,
    )
        requires
            mapped.maps(virtual_start, physical_start, length, properties),
            mapped.same_outside(before, virtual_start, length),
            unmapped.maps_nothing(virtual_start, length),
            unmapped.same_outside(mapped, virtual_start, length),
        ensures
            forall|i: int|
                0 <= i < length ==> #[trigger] mapped.translate((virtual_start + i) as u64) == Some(
                    physical_start + i,
                ),
            forall|i: int|
                0 <= i < length ==> #[trigger] unmapped.translate((virtual_start + i) as u64)
                    is None,
            unmapped.same_outside(before, virtual_start, length),
            mapped.reachable(virtual_start, length, size) ==> !mapped.stopped(
                virtual_start,
                length,
                size,
                error,
            ),
    {
        assert forall|i: int| 0 <= i < length implies #[trigger] mapped.translate(
            (virtual_start + i) as u64,
        ) == Some(physical_start + i) by {
            assert(mapped.mapping((virtual_start + i) as u64) == Some(
                (physical_start + i, properties),
            ));
        }
        assert forall|i: int| 0 <= i < length implies #[trigger] unmapped.translate(
            (virtual_start + i) as u64,
        ) is None by {
            assert(unmapped.mapping((virtual_start + i) as u64) is None);
        }
    }

    /// Whether a mapping of `count` blocks of the size `size` at `virtual_start` lies in the
    /// 48-bit address space, and `count` blocks at `physical_start` do.
    pub open spec fn count_valid(&self, virtual_start: u64, physical_start: u64, count: usize, size: MapBlockSize) -> bool {
        &&& count > 0
        &&& virtual_start % ADDRESS_SPACE_SIZE + count * entry_span(
            level_of(size),
            self.spec_page_size(),
        ) <= ADDRESS_SPACE_SIZE
        &&& physical_start + count * entry_span(level_of(size), self.spec_page_size())
            <= ADDRESS_SPACE_SIZE
    }

    /// Whether `address` is a multiple of the size of a block of the size `size`.
    pub open spec fn aligned(&self, address: u64, size: MapBlockSize) -> bool {
        address % (entry_span(level_of(size), self.spec_page_size()) as u64) == 0
    }

    /// The page tables without mappings, for addresses without the kernel tag, whose root
    /// table lies in the page that the page allocator has answered the request for it
    /// with (`allocation`).
    ///
    /// # Errors
    /// The allocator's error if it did not provide the page, and `OutOfMemory` if the page
    /// lies outside of the 48-bit address space.
    pub fn with_root(page_size: PageSize, allocation: Result<PhysicalAddress, MemoryError>) -> (r:
        Result<Self, MemoryError>)
        requires
            allocation is Ok ==> allocation->Ok_0.addr() != 0 && allocation->Ok_0.addr() % (
            page_size.spec_bytes() as u64) == 0,
        ensures
            match allocation {
                Err(e) => r is Err && r->Err_0 == e,
                Ok(root) => if root.addr() >= ADDRESS_SPACE_SIZE {
                    r is Err && r->Err_0 == MemoryError::OutOfMemory
                } else {
                    &&& r is Ok
                    &&& r->Ok_0.well_formed()
                    &&& r->Ok_0.spec_page_size() == page_size
                    &&& !r->Ok_0.spec_high_tag()
                    &&& r->Ok_0.spec_root_address() == root.addr()
                    &&& forall|address: u64| r->Ok_0.mapping(address) is None
                    &&& forall|address: u64, size: MapBlockSize| #[trigger]
                        r->Ok_0.obstacle_at(address, size) != Some(Obstacle::Larger)
                },
            },
    {
        match allocation {
            Err(e) => Err(e),
            Ok(root) => {
                if root.to_addr() >= ADDRESS_SPACE_SIZE {
                    Err(MemoryError::OutOfMemory)
                } else {
                    Ok(Self::from_existing(page_size, root, false))
                }
            },
        }
    }

    /// Create a new page tables structure that has no mappings, and that maps addresses
    /// without the kernel tag. The root table takes a page from `page_allocator`: the
    /// allocator is asked for the page of one table ([`pages_for_table`]), and its answer
    /// decides as [`PageTables::with_root`] says. The tables are made where the allocator
    /// has a page to spare ([`PageAllocator::spare_pages`]).
    ///
    /// # Errors
    /// - Returns an error if the page allocator fails to allocate the root table, or hands
    ///   out a page outside of the 48-bit address space.
    pub fn empty<PA: PageAllocator>(page_allocator: &mut PA) -> (r: Result<Self, MemoryError>)
        requires
            old(page_allocator).well_formed(),
        ensures
            final(page_allocator).well_formed(),
            final(page_allocator).spec_page_size() == old(page_allocator).spec_page_size(),
            r is Ok ==> {
                &&& r->Ok_0.well_formed()
                &&& r->Ok_0.spec_page_size() == old(page_allocator).spec_page_size()
                &&& !r->Ok_0.spec_high_tag()
                &&& r->Ok_0.spec_root_address() != 0
                &&& r->Ok_0.spec_root_address() < ADDRESS_SPACE_SIZE
                &&& r->Ok_0.spec_root_address() % (
                old(page_allocator).spec_page_size().spec_bytes() as u64) == 0
                &&& forall|address: u64| r->Ok_0.mapping(address) is None
                &&& forall|address: u64, size: MapBlockSize| #[trigger]
                    r->Ok_0.obstacle_at(address, size) != Some(Obstacle::Larger)
            },
            r is Err ==> r->Err_0 == MemoryError::InvalidSize || r->Err_0
                == MemoryError::OutOfMemory,
            old(page_allocator).spare_pages() >= 1 ==> r is Ok,
            old(page_allocator).spare_pages() >= 1 ==> final(page_allocator).spare_pages()
                == old(page_allocator).spare_pages() - 1,
            final(page_allocator).spare_pages() + 1 >= old(page_allocator).spare_pages(),
            forall|address: int|
                #[trigger] final(page_allocator).is_free(address) ==> old(page_allocator).is_free(
                    address,
                ),
    {
        let page_size = page_allocator.page_size();
        let allocation = page_allocator.allocate(pages_for_table(page_size));
        Self::with_root(page_size, allocation)
    }

    /// Make a [`PageTables`] instance for the root table at `root_table_address`, which is
    /// taken to hold no mappings.
    /// If `high_tag` is true, these tables will be for mapping addresses starting with
    /// `0xffff`, i.e. the TTBR1 table.
    ///
    /// The root table address must not be null, and must be aligned to the size of a page.
    pub fn from_existing(page_size: PageSize, root_table_address: PhysicalAddress, high_tag: bool) -> (tables:
        Self)
        requires
            0 < root_table_address.addr() < ADDRESS_SPACE_SIZE,
            root_table_address.addr() % (page_size.spec_bytes() as u64) == 0,
        ensures
            tables.well_formed(),
            tables.spec_page_size() == page_size,
            tables.spec_high_tag() == high_tag,
            tables.spec_root_address() == root_table_address.addr(),
            forall|address: u64| tables.mapping(address) is None,
            forall|address: u64, size: MapBlockSize| #[trigger]
                tables.obstacle_at(address, size) != Some(Obstacle::Larger),
    {
        proof {
            lemma_page_multiple(root_table_address.addr(), page_size);
            lemma_low_bits(root_table_address.addr());
        }
        Self { root: Table::empty(root_table_address, page_size, 0), page_size, high_tag }
    }

    /// The root table, from which every table of the tree is reached.
    pub fn root(&self) -> (root: &Table)
        ensures
            *root == self.spec_root(),
            root.spec_address() == self.spec_root_address(),
            self.well_formed() ==> root.well_formed(0, self.spec_page_size()),
    {
        &self.root
    }

    /// Get the physical address of the root table.
    pub fn physical_address(&self) -> (address: PhysicalAddress)
        requires
            self.well_formed(),
        ensures
            address.addr() == self.spec_root_address(),
    {
        PhysicalAddress::new(self.root.address)
    }

    /// Returns true if these tables are for "high tag" pointers, i.e. pointers where the top
    /// 16 bits are `0xffff`.
    pub fn high_tag(&self) -> (tag: bool)
        ensures
            tag == self.spec_high_tag(),
    {
        self.high_tag
    }

    /// The number of bytes of `count` blocks of the size `size`, if the blocks at
    /// `virtual_start` and at `physical_start` lie in the 48-bit address space.
    fn length_of(&self, virtual_start: u64, physical_start: u64, count: usize, size: MapBlockSize) -> (r:
        Option<u64>)
        requires
            size_supported(size, self.spec_page_size()),
            physical_start <= ADDRESS_SPACE_SIZE,
        ensures
            r is Some <==> self.count_valid(virtual_start, physical_start, count, size),
            r is Some ==> r->0 == count * entry_span(level_of(size), self.spec_page_size()),
            r is Some ==> r->0 > 0,
    {
        let block = match size.length_in_bytes(self.page_size) {
            Some(block) => block,
            None => {
                return None;
            },
        };
        proof {
            lemma_spans(level_of(size), level_of(size), self.page_size, 0);
        }
        if count == 0 || count as u64 > ADDRESS_SPACE_SIZE / block {
            proof {
                if count > 0 {
                    assert(count * block > ADDRESS_SPACE_SIZE) by (nonlinear_arith)
                        requires
                            count > ADDRESS_SPACE_SIZE / block,
                            block > 0,
                    ;
                }
            }
            return None;
        }
        assert(count * block <= ADDRESS_SPACE_SIZE) by (nonlinear_arith)
            requires
                count <= ADDRESS_SPACE_SIZE / block,
                block > 0,
        ;
        assert(count * block > 0) by (nonlinear_arith)
            requires
                count > 0,
                block > 0,
        ;
        let length = count as u64 * block;
        if length > ADDRESS_SPACE_SIZE - virtual_start % ADDRESS_SPACE_SIZE || length
            > ADDRESS_SPACE_SIZE - physical_start {
            return None;
        }
        Some(length)
    }

    /// Map a region of virtual addresses to a region of physical addresses in these page
    /// tables with the given `properties`. The tables that the mapping needs and that are
    /// missing take their pages from `page_allocator`.
    ///
    /// Both start pointers must be aligned to the `size` required alignment.
    /// The region will be of `count` blocks of the size `size`, which the page size must
    /// have.
    ///
    /// # Errors
    /// - [`Error::InvalidTag`] if the virtual pointer has the wrong tag for this table.
    /// - [`Error::InvalidCount`] if `count` is zero or the region does not lie in the 48-bit
    ///   address space.
    /// - [`Error::InvalidAlignment`] if a start pointer is not aligned to the block size.
    ///
    /// With one of these three no entry is written and no page is asked for.
    ///
    /// If one of these errors occurs, the region may be partially mapped in the table:
    /// - [`Error::AlreadyMapped`] if part of the region has already been mapped with a
    ///   larger block size: the error names the first address of the region that such a
    ///   block stands in the way of.
    /// - [`Error::Allocator`] if an error occurs trying to allocate new tables.
    ///
    /// Neither occurs where every table on the way to the blocks of the region is there
    /// already ([`PageTables::reachable`]): the page allocator is then left as it is. After
    /// a mapping has succeeded every such table is there.
    ///
    /// Where a table is missing the page allocator is asked for the page of one table
    /// ([`pages_for_table`]), and its answer decides as [`Table::for_allocation`] says. The
    /// mapping asks for [`PageTables::tables_for`] pages at most, so `Allocator` does not
    /// occur where the allocator has as many pages to spare
    /// ([`PageAllocator::spare_pages`]).
    pub fn map<PA: PageAllocator>(
        &mut self,
        page_allocator: &mut PA,
        virtual_start: VirtualAddress,
        physical_start: PhysicalAddress,
        count: usize,
        size: MapBlockSize,
        properties: &MemoryProperties,
    ) -> (r: Result<(), Error>)
        requires
            old(self).well_formed(),
            old(page_allocator).well_formed(),
            old(page_allocator).spec_page_size() == old(self).spec_page_size(),
            size_supported(size, old(self).spec_page_size()),
        ensures
            final(self).well_formed(),
            final(self).spec_page_size() == old(self).spec_page_size(),
            final(self).spec_high_tag() == old(self).spec_high_tag(),
            final(self).spec_root_address() == old(self).spec_root_address(),
            final(page_allocator).well_formed(),
            final(page_allocator).spec_page_size() == old(page_allocator).spec_page_size(),
            forall|address: int|
                #[trigger] final(page_allocator).is_free(address) ==> old(page_allocator).is_free(
                    address,
                ),
            if has_kernel_tag(virtual_start.addr()) != old(self).spec_high_tag() {
                r is Err && r->Err_0 is InvalidTag && r->Err_0->InvalidTag_value == virtual_start
                    && *final(self) == *old(self) && *final(page_allocator) == *old(page_allocator)
            } else if !old(self).count_valid(
                virtual_start.addr(),
                physical_start.addr(),
                count,
                size,
            ) {
                r is Err && r->Err_0 is InvalidCount && *final(self) == *old(self) && *final(page_allocator) == *old(page_allocator)
            } else if !old(self).aligned(virtual_start.addr(), size) {
                r is Err && r->Err_0 is InvalidAlignment && r->Err_0->InvalidAlignment_value
                    == virtual_start.addr() && *final(self) == *old(self) && *final(page_allocator) == *old(page_allocator)
            } else if !old(self).aligned(physical_start.addr(), size) {
                r is Err && r->Err_0 is InvalidAlignment && r->Err_0->InvalidAlignment_value
                    == physical_start.addr() && *final(self) == *old(self) && *final(page_allocator) == *old(page_allocator)
            } else {
                match r {
                    Ok(_) => {
                        &&& final(self).maps(
                            virtual_start.addr(),
                            physical_start.addr(),
                            count * entry_span(level_of(size), old(self).spec_page_size()),
                            properties.spec_encode(),
                        )
                        &&& final(self).same_outside(
                            old(self),
                            virtual_start.addr(),
                            count * entry_span(level_of(size), old(self).spec_page_size()),
                        )
                        &&& final(self).reachable(
                            virtual_start.addr(),
                            count * entry_span(level_of(size), old(self).spec_page_size()),
                            size,
                        )
                    },
                    Err(e) => {
                        &&& e is AlreadyMapped || e is Allocator
                        &&& !old(self).reachable(
                            virtual_start.addr(),
                            count * entry_span(level_of(size), old(self).spec_page_size()),
                            size,
                        )
                        &&& e is AlreadyMapped ==> old(self).stopped_by_block(
                            virtual_start.addr(),
                            count * entry_span(level_of(size), old(self).spec_page_size()),
                            size,
                            e,
                        )
                        &&& e is Allocator ==> old(page_allocator).spare_pages() < old(
                            self,
                        ).tables_for(
                            virtual_start.addr(),
                            count * entry_span(level_of(size), old(self).spec_page_size()),
                            size,
                        )
                    },
                }
            },
            final(page_allocator).spare_pages() + old(self).tables_for(
                virtual_start.addr(),
                count * entry_span(level_of(size), old(self).spec_page_size()),
                size,
            ) >= old(page_allocator).spare_pages(),
            old(self).reachable(
                virtual_start.addr(),
                count * entry_span(level_of(size), old(self).spec_page_size()),
                size,
            ) ==> *final(page_allocator) == *old(page_allocator),
            forall|address: u64| #[trigger]
                final(self).obstacle_at(address, size) is None || final(self).obstacle_at(
                    address,
                    size,
                ) == old(self).obstacle_at(address, size),
    {
        if virtual_start.is_in_kernel_space() != self.high_tag {
            return Err(Error::InvalidTag { value: virtual_start });
        }
        let va = virtual_start.to_addr();
        let pa = physical_start.to_addr();
        if pa > ADDRESS_SPACE_SIZE {
            return Err(Error::InvalidCount);
        }
        let length = match self.length_of(va, pa, count, size) {
            Some(length) => length,
            None => {
                return Err(Error::InvalidCount);
            },
        };
        let end_level: u8 = match size {
            MapBlockSize::Page => 3,
            MapBlockSize::SmallBlock => 2,
            MapBlockSize::LargeBlock => 1,
        };
        let block = span_of_entry(end_level, self.page_size);
        if va % block != 0 {
            return Err(Error::InvalidAlignment { value: va });
        }
        if pa % block != 0 {
            return Err(Error::InvalidAlignment { value: pa });
        }
        let start = va % ADDRESS_SPACE_SIZE;
        let bits = properties.encode();
        proof {
            lemma_start_aligned(va, end_level as nat, self.page_size);
            lemma_count_multiple(count as int, block as int);
        }
        let ghost before = *self;
        let result = self.root.map_step(
            0,
            end_level,
            start,
            pa,
            length,
            bits,
            self.page_size,
            page_allocator,
            va - start,
        );
        proof {
            if before.reachable(va, length as int, size) {
                before.lemma_clear(va, length as int, size);
            }
            match result {
                Ok(_) => {
                    self.lemma_translated(
                        &before,
                        va,
                        length,
                        Target::Memory(pa as int, properties.spec_encode()),
                    );
                    self.lemma_reachable(va, length as int, size);
                },
                Err(e) => {
                    before.lemma_blocked(va, length as int, size, e);
                },
            }
        }
        result
    }

    /// Unmap a region of `count` blocks of the size `size` at `virtual_start` in these page
    /// tables.
    ///
    /// # Errors
    /// - [`Error::InvalidTag`] if the virtual pointer has the wrong tag for this table.
    /// - [`Error::InvalidCount`] if `count` is zero or the region does not lie in the 48-bit
    ///   address space.
    /// - [`Error::InvalidAlignment`] if the start pointer is not aligned to the block size.
    ///
    /// If one of these errors occurs, the region may be partially unmapped in the table:
    /// - [`Error::NotMapped`] if the region contains a part for which there is no table.
    /// - [`Error::AlreadyMapped`] if part of the region is mapped with a larger block size.
    ///
    /// The error names the first address of the region that a missing table or a larger
    /// block stands in the way of ([`PageTables::stopped`]); the unmapping succeeds where
    /// there is no such address ([`PageTables::reachable`]).
    pub fn unmap(&mut self, virtual_start: VirtualAddress, count: usize, size: MapBlockSize) -> (r:
        Result<(), Error>)
        requires
            old(self).well_formed(),
            size_supported(size, old(self).spec_page_size()),
        ensures
            final(self).well_formed(),
            final(self).spec_page_size() == old(self).spec_page_size(),
            final(self).spec_high_tag() == old(self).spec_high_tag(),
            final(self).spec_root_address() == old(self).spec_root_address(),
            if has_kernel_tag(virtual_start.addr()) != old(self).spec_high_tag() {
                r is Err && r->Err_0 is InvalidTag && r->Err_0->InvalidTag_value == virtual_start
                    && *final(self) == *old(self)
            } else if !old(self).count_valid(virtual_start.addr(), 0, count, size) {
                r is Err && r->Err_0 is InvalidCount && *final(self) == *old(self)
            } else if !old(self).aligned(virtual_start.addr(), size) {
                r is Err && r->Err_0 is InvalidAlignment && r->Err_0->InvalidAlignment_value
                    == virtual_start.addr() && *final(self) == *old(self)
            } else {
                match r {
                    Ok(_) => {
                        &&& old(self).reachable(
                            virtual_start.addr(),
                            count * entry_span(level_of(size), old(self).spec_page_size()),
                            size,
                        )
                        &&& final(self).maps_nothing(
                            virtual_start.addr(),
                            count * entry_span(level_of(size), old(self).spec_page_size()),
                        )
                        &&& final(self).same_outside(
                            old(self),
                            virtual_start.addr(),
                            count * entry_span(level_of(size), old(self).spec_page_size()),
                        )
                    },
                    Err(e) => old(self).stopped(
                        virtual_start.addr(),
                        count * entry_span(level_of(size), old(self).spec_page_size()),
                        size,
                        e,
                    ),
                }
            },
            forall|address: u64| #[trigger]
                final(self).obstacle_at(address, size) == old(self).obstacle_at(address, size),
    {
        if virtual_start.is_in_kernel_space() != self.high_tag {
            return Err(Error::InvalidTag { value: virtual_start });
        }
        let va = virtual_start.to_addr();
        let length = match self.length_of(va, 0, count, size) {
            Some(length) => length,
            None => {
                return Err(Error::InvalidCount);
            },
        };
        let end_level: u8 = match size {
            MapBlockSize::Page => 3,
            MapBlockSize::SmallBlock => 2,
            MapBlockSize::LargeBlock => 1,
        };
        let block = span_of_entry(end_level, self.page_size);
        if va % block != 0 {
            return Err(Error::InvalidAlignment { value: va });
        }
        let start = va % ADDRESS_SPACE_SIZE;
        proof {
            lemma_start_aligned(va, end_level as nat, self.page_size);
            lemma_count_multiple(count as int, block as int);
        }
        let ghost before = *self;
        let result = self.root.unmap_step(0, end_level, start, length, self.page_size, va - start);
        proof {
            match result {
                Ok(_) => {
                    self.lemma_translated(&before, va, length, Target::Nothing);
                    before.lemma_reachable(va, length as int, size);
                },
                Err(e) => {
                    before.lemma_stopped(va, length as int, size, e);
                },
            }
        }
        result
    }

    /// Where nothing stands in the way of the addresses of a range, nothing stands in the
    /// way of the offsets of the range in the root table.
    proof fn lemma_clear(&self, va: u64, length: int, size: MapBlockSize)
        requires
            va % ADDRESS_SPACE_SIZE + length <= ADDRESS_SPACE_SIZE,
            self.reachable(va, length, size),
        ensures
            self.root.clear(
                0,
                level_of(size),
                self.page_size,
                (va % ADDRESS_SPACE_SIZE) as int,
                va % ADDRESS_SPACE_SIZE + length,
            ),
    {
        let start = (va % ADDRESS_SPACE_SIZE) as int;
        assert forall|offset: int| start <= offset < start + length implies #[trigger] self.root.obstacle(
            0,
            level_of(size),
            offset,
            self.page_size,
        ) is None by {
            lemma_offset(va, offset - start);
            assert(self.obstacle_at((va + (offset - start)) as u64, size) is None);
        }
    }

    /// Nothing stands in the way to a block of 1 GiB for an address that shares its entry
    /// in the root table with an address that nothing stands in the way of: only the
    /// table that the entry points to can be missing.
    pub proof fn lemma_reachable_beside(&self, reached: u64, beside: u64, size: MapBlockSize)
        requires
            level_of(size) == 1,
            self.obstacle_at(reached, size) is None,
            (reached % ADDRESS_SPACE_SIZE) / (entry_span(0, self.spec_page_size()) as u64) == (
            beside % ADDRESS_SPACE_SIZE) / (entry_span(0, self.spec_page_size()) as u64),
        ensures
            self.obstacle_at(beside, size) is None,
    {
        let span = entry_span(0, self.page_size);
        let a = (reached % ADDRESS_SPACE_SIZE) as int;
        let b = (beside % ADDRESS_SPACE_SIZE) as int;
        let index = a / span;
        lemma_fundamental_div_mod(a, span);
        lemma_fundamental_div_mod(b, span);
        assert(span * index == index * span) by (nonlinear_arith);
        assert((index + 1) * span == index * span + span) by (nonlinear_arith);
        lemma_index_in_table(0, a, self.page_size);
        lemma_entry_in_table(0, index, self.page_size);
        self.root.lemma_obstacle_entry(index, 0, 1, self.page_size);
        assert(self.root.obstacle(0, 1, a, self.page_size) is None);
        match self.root.spec_children()[index] {
            Some(child) => {
                assert(child.obstacle(1, 1, b - index * span, self.page_size) is None);
            },
            None => {},
        }
    }

    /// Where nothing stands in the way of the offsets of a range in the root table,
    /// nothing stands in the way of the addresses of the range.
    proof fn lemma_reachable(&self, va: u64, length: int, size: MapBlockSize)
        requires
            va % ADDRESS_SPACE_SIZE + length <= ADDRESS_SPACE_SIZE,
            forall|offset: int|
                va % ADDRESS_SPACE_SIZE <= offset < va % ADDRESS_SPACE_SIZE + length
                    ==> #[trigger] self.root.obstacle(0, level_of(size), offset, self.page_size)
                    is None,
        ensures
            self.reachable(va, length, size),
    {
        let start = (va % ADDRESS_SPACE_SIZE) as int;
        assert forall|i: int| 0 <= i < length implies #[trigger] self.obstacle_at(
            (va + i) as u64,
            size,
        ) is None by {
            lemma_offset(va, i);
            assert(self.root.obstacle(0, level_of(size), start + i, self.page_size) is None);
        }
    }

    /// Where something stands in the way of an offset of a range in the root table,
    /// something stands in the way of an address of the range; and where an error reports
    /// the first block in the way of the offsets, it reports the first block in the way of
    /// the addresses.
    proof fn lemma_blocked(&self, va: u64, length: int, size: MapBlockSize, error: Error)
        requires
            va % ADDRESS_SPACE_SIZE + length <= ADDRESS_SPACE_SIZE,
            !self.root.clear(
                0,
                level_of(size),
                self.page_size,
                (va % ADDRESS_SPACE_SIZE) as int,
                va % ADDRESS_SPACE_SIZE + length,
            ),
            error is AlreadyMapped ==> self.root.stopped_by_block(
                0,
                level_of(size),
                self.page_size,
                (va % ADDRESS_SPACE_SIZE) as int,
                va % ADDRESS_SPACE_SIZE + length,
                va - va % ADDRESS_SPACE_SIZE,
                error,
            ),
        ensures
            !self.reachable(va, length, size),
            error is AlreadyMapped ==> self.stopped_by_block(va, length, size, error),
    {
        let start = (va % ADDRESS_SPACE_SIZE) as int;
        let found = choose|offset: int|
            start <= offset < start + length && (#[trigger] self.root.obstacle(
                0,
                level_of(size),
                offset,
                self.page_size,
            )) is Some;
        lemma_offset(va, found - start);
        assert(self.obstacle_at((va + (found - start)) as u64, size) is Some);
        if error is AlreadyMapped {
            let at = error->AlreadyMapped_address.addr() - va;
            lemma_offset(va, at);
            assert forall|i: int| 0 <= i < at implies #[trigger] self.obstacle_at(
                (va + i) as u64,
                size,
            ) != Some(Obstacle::Larger) by {
                lemma_offset(va, i);
                assert(self.root.obstacle(0, level_of(size), start + i, self.page_size) != Some(
                    Obstacle::Larger,
                ));
            }
        }
    }

    /// Where an error reports the first obstacle for the offsets of a range in the root
    /// table, it reports the first obstacle for the addresses of the range.
    proof fn lemma_stopped(&self, va: u64, length: int, size: MapBlockSize, error: Error)
        requires
            va % ADDRESS_SPACE_SIZE + length <= ADDRESS_SPACE_SIZE,
            self.root.stopped_at(
                0,
                level_of(size),
                self.page_size,
                (va % ADDRESS_SPACE_SIZE) as int,
                va % ADDRESS_SPACE_SIZE + length,
                va - va % ADDRESS_SPACE_SIZE,
                error,
            ),
        ensures
            self.stopped(va, length, size, error),
    {
        let start = (va % ADDRESS_SPACE_SIZE) as int;
        let at = match error {
            Error::NotMapped { address } => address.addr() - va,
            Error::AlreadyMapped { address } => address.addr() - va,
            _ => -1,
        };
        lemma_offset(va, at);
        assert(self.root.obstacle(0, level_of(size), start + at, self.page_size) is Some);
        self.lemma_reachable(va, at, size);
    }

    /// What a change of the root table is for virtual addresses: where the root table maps
    /// the offsets of the range at `va` to `target` and the other offsets as before, the
    /// tables map the addresses of the range to `target` and the other addresses as before.
    proof fn lemma_translated(&self, before: &PageTables, va: u64, length: u64, target: Target)
        requires
            self.page_size == before.page_size,
            self.high_tag == before.high_tag,
            has_kernel_tag(va) == self.high_tag,
            va % ADDRESS_SPACE_SIZE + length <= ADDRESS_SPACE_SIZE,
            self.root.changed_from(
                &before.root,
                0,
                self.page_size,
                (va % ADDRESS_SPACE_SIZE) as int,
                va % ADDRESS_SPACE_SIZE + length,
                target,
            ),
        ensures
            forall|i: int|
                0 <= i < length ==> #[trigger] self.mapping((va + i) as u64) == target.at(i),
            forall|address: u64|
                !(va % ADDRESS_SPACE_SIZE <= address % ADDRESS_SPACE_SIZE < va % ADDRESS_SPACE_SIZE
                    + length) ==> #[trigger] self.mapping(address) == before.mapping(address),
    {
        let start = (va % ADDRESS_SPACE_SIZE) as int;
        lemma_kernel_tag(va);
        assert forall|i: int| 0 <= i < length implies #[trigger] self.mapping((va + i) as u64)
            == target.at(i) by {
            let address = (va + i) as u64;
            lemma_kernel_tag(address);
            assert(address % ADDRESS_SPACE_SIZE == start + i);
            assert(self.root.resolve(0, start + i, self.page_size) == target.at(start + i - start));
        }
        assert forall|address: u64|
            !(va % ADDRESS_SPACE_SIZE <= address % ADDRESS_SPACE_SIZE < va % ADDRESS_SPACE_SIZE
                + length) implies #[trigger] self.mapping(address) == before.mapping(
            address,
        ) by {
            if has_kernel_tag(address) == self.high_tag {
                let offset = (address % ADDRESS_SPACE_SIZE) as int;
                assert(self.root.resolve(0, offset, self.page_size) == before.root.resolve(
                    0,
                    offset,
                    self.page_size,
                ));
            }
        }
    }

    /// Compute the physical address that these page tables map the virtual address `p` to.
    /// Returns `None` if there is no mapping for this address.
    pub fn physical_address_of(&self, p: VirtualAddress) -> (r: Option<PhysicalAddress>)
        requires
            self.well_formed(),
        ensures
            self.translate(p.addr()) is None ==> r is None,
            self.translate(p.addr()) is Some ==> r is Some && r->0.addr() == self.translate(
                p.addr(),
            )->0,
    {
        if p.is_in_kernel_space() != self.high_tag {
            return None;
        }
        let address = p.to_addr();
        let mut level: u8 = 0;
        let mut table = &self.root;
        while level <= 3
            invariant
                level <= 4,
                level <= 3 ==> table.well_formed(level as nat, self.page_size),
                level <= 3 ==> table.resolve(
                    level as nat,
                    (address % (table_span(level as nat, self.page_size) as u64)) as int,
                    self.page_size,
                ) == self.mapping(address),
                level > 3 ==> self.mapping(address) is None,
                address == p.addr(),
            decreases 4 - level,
        {
            let index = index_for_level(p, level, self.page_size);
            let entry = Entry(table.entries[index]);
            proof {
                lemma_nested_offset(level as nat, self.page_size, address);
                lemma_spans(level as nat, level as nat, self.page_size, 0);
            }
            match entry.decode(level) {
                DecodedEntry::Empty => {
                    return None;
                },
                DecodedEntry::Table(_) => {
                    match &table.children[index] {
                        Some(child) => {
                            table = child;
                        },
                        None => {
                            return None;
                        },
                    }
                    level = level + 1;
                },
                DecodedEntry::Block(base) => {
                    let offset = address & (span_of_entry(level, self.page_size) - 1);
                    return Some(PhysicalAddress::new(base.to_addr() + offset));
                },
                DecodedEntry::Page(base) => {
                    let offset = address & (span_of_entry(level, self.page_size) - 1);
                    return Some(PhysicalAddress::new(base.to_addr() + offset));
                },
            }
        }
        None
    }

    /// Gives the pages of the tables back to `page_allocator`: the page of each table of
    /// the tree is freed, the tables below a table before the table itself. Returns the
    /// number of tables whose page the allocator did not take back.
    ///
    /// The allocator holds as free what it held as free before. Of the pages of the tables
    /// it holds all as free but as many as it refused, at most; where it refused none, it
    /// holds the page of every table of the tree as free.
    pub fn release<PA: PageAllocator>(self, page_allocator: &mut PA) -> (refused: usize)
        requires
            self.well_formed(),
            old(page_allocator).well_formed(),
        ensures
            final(page_allocator).well_formed(),
            final(page_allocator).spec_page_size() == old(page_allocator).spec_page_size(),
            refused <= self.spec_root().table_count(0),
            refused < usize::MAX ==> self.spec_root().kept_count(
                0,
                old(page_allocator).spec_page_size().spec_bytes() as int,
                *final(page_allocator),
            ) <= refused,
            forall|address: int|
                old(page_allocator).is_free(address) ==> #[trigger] final(page_allocator).is_free(
                    address,
                ),
            refused == 0 ==> forall|address: int|
                self.spec_root().in_tables(
                    0,
                    old(page_allocator).spec_page_size().spec_bytes() as int,
                    address,
                ) ==> #[trigger] final(page_allocator).is_free(address),
    {
        drop_table(self.root, 0, self.page_size, page_allocator)
    }
}

/// Gives the pages of `table` and of the tables below it back to `page_allocator`: the
/// tables that the entries point to first, from the last entry to the first, then the
/// table itself. Returns the number of tables whose page the allocator did not take back.
fn drop_table<PA: PageAllocator>(table: Table, level: u8, page_size: PageSize, page_allocator: &mut PA) -> (refused:
    usize)
    requires
        table.well_formed(level as nat, page_size),
        old(page_allocator).well_formed(),
    ensures
        final(page_allocator).well_formed(),
        final(page_allocator).spec_page_size() == old(page_allocator).spec_page_size(),
        refused <= table.table_count(level as nat),
        refused < usize::MAX ==> table.kept_count(
            level as nat,
            old(page_allocator).spec_page_size().spec_bytes() as int,
            *final(page_allocator),
        ) <= refused,
        forall|address: int|
            old(page_allocator).is_free(address) ==> #[trigger] final(page_allocator).is_free(
                address,
            ),
        refused == 0 ==> forall|address: int|
            table.in_tables(
                level as nat,
                old(page_allocator).spec_page_size().spec_bytes() as int,
                address,
            ) ==> #[trigger] final(page_allocator).is_free(address),
    decreases 4 - level,
{
    let mut refused: usize = 0;
    let mut children = table.children;
    let ghost all = children@;
    let ghost page = page_allocator.spec_page_size().spec_bytes() as int;
    proof {
        assert forall|i: int| 0 <= i < all.len() && all[i] is Some implies level < 3 && (
        #[trigger] all[i])->0.well_formed((level + 1) as nat, page_size) by {
            let raw = table.spec_entries()[i];
            assert(entry_kind(raw, level as nat) is Table);
        }
    }
    while children.len() > 0
        invariant
            level <= 3,
            all == table.spec_children(),
            page == old(page_allocator).spec_page_size().spec_bytes(),
            children@.len() <= all.len(),
            children@ == all.subrange(0, children@.len() as int),
            forall|i: int|
                0 <= i < all.len() && all[i] is Some ==> level < 3 && (#[trigger] all[i])->0.well_formed(
                    (level + 1) as nat,
                    page_size,
                ),
            page_allocator.well_formed(),
            page_allocator.spec_page_size() == old(page_allocator).spec_page_size(),
            refused <= table.tables_below(level as nat, children@.len() as nat),
            refused < usize::MAX ==> table.kept_below(
                level as nat,
                children@.len() as nat,
                page,
                *page_allocator,
            ) <= refused,
            forall|address: int|
                old(page_allocator).is_free(address) ==> #[trigger] page_allocator.is_free(
                    address,
                ),
            refused == 0 ==> forall|i: int, address: int|
                children@.len() <= i < all.len() && all[i] is Some && (#[trigger] all[i]->0.in_tables(
                    (level + 1) as nat,
                    page,
                    address,
                )) ==> page_allocator.is_free(address),
        decreases children@.len(),
    {
        let ghost last = children@.len() - 1;
        let ghost before = *page_allocator;
        let ghost so_far = refused;
        let child = children.pop();
        if let Some(Some(next_table)) = child {
            assert(all[last] == Some(next_table));
            let below = drop_table(next_table, level + 1, page_size, page_allocator);
            refused = refused.saturating_add(below);
            proof {
                table.lemma_kept_below_fewer(
                    level as nat,
                    (last + 1) as nat,
                    page,
                    before,
                    *page_allocator,
                );
                if refused == 0 {
                    assert forall|i: int, address: int|
                        last <= i < all.len() && all[i] is Some && (#[trigger] all[i]->0.in_tables(
                            (level + 1) as nat,
                            page,
                            address,
                        )) implies page_allocator.is_free(address) by {
                        if i > last {
                            assert(before.is_free(address));
                        }
                    }
                }
            }
        } else {
            assert(all[last] is None);
        }
    }
    let ghost emptied = *page_allocator;
    let ghost below = refused;
    if page_allocator.free(PhysicalAddress::new(table.address), 1).is_err() {
        refused = refused.saturating_add(1);
    }
    proof {
        table.lemma_kept_below_fewer(level as nat, 0, page, emptied, *page_allocator);
        if refused == 0 {
            assert forall|address: int|
                table.in_tables(level as nat, page, address) implies #[trigger] page_allocator.is_free(
                address,
            ) by {
                if !(table.spec_address() <= address < table.spec_address() + page) {
                    let i = choose|i: int|
                        0 <= i < all.len() && (#[trigger] all[i]) is Some && all[i]->0.in_tables(
                            (level + 1) as nat,
                            page,
                            address,
                        );
                    assert(emptied.is_free(address));
                }
            }
        }
    }
    refused
}

/// The offset of an aligned address in the address space is aligned.
proof fn lemma_start_aligned(va: u64, end_level: nat, page_size: PageSize)
    requires
        end_level <= 3,
        va % (entry_span(end_level, page_size) as u64) == 0,
    ensures
        (va % ADDRESS_SPACE_SIZE) % (entry_span(end_level, page_size) as u64) == 0,
        va - va % ADDRESS_SPACE_SIZE + ADDRESS_SPACE_SIZE <= u64::MAX + 1,
{
    assert((va % 0x1000 == 0 ==> (va % 0x1_0000_0000_0000) % 0x1000 == 0)
        && (va % 0x4000 == 0 ==> (va % 0x1_0000_0000_0000) % 0x4000 == 0)
        && (va % 0x20_0000 == 0 ==> (va % 0x1_0000_0000_0000) % 0x20_0000 == 0)
        && (va % 0x200_0000 == 0 ==> (va % 0x1_0000_0000_0000) % 0x200_0000 == 0)
        && (va % 0x4000_0000 == 0 ==> (va % 0x1_0000_0000_0000) % 0x4000_0000 == 0)
        && (va % 0x10_0000_0000 == 0 ==> (va % 0x1_0000_0000_0000) % 0x10_0000_0000 == 0)
        && (va % 0x80_0000_0000 == 0 ==> (va % 0x1_0000_0000_0000) % 0x80_0000_0000 == 0)
        && (va % 0x8000_0000_0000 == 0 ==> (va % 0x1_0000_0000_0000) % 0x8000_0000_0000 == 0)
        && va - va % 0x1_0000_0000_0000 + 0x1_0000_0000_0000 <= 0xffff_ffff_ffff_ffff + 1)
        by (bit_vector);
}

/// A number of whole blocks is a multiple of the size of a block.
proof fn lemma_count_multiple(count: int, block: int)
    requires
        block > 0,
        count >= 0,
    ensures
        (count * block) % block == 0,
{
    vstd::arithmetic::div_mod::lemma_mod_multiples_basic(count, block);
}

} // verus!
