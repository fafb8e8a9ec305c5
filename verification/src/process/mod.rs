//! Processes (and threads).
use vstd::prelude::*;

use crate::bits::{
    bit_range_u64, lemma_bit_range_bound, lemma_low_masks, set_bit_range_u64, spec_bit_range,
    spec_set_bit_range,
};
use crate::memory::asid_pool::spec_allocate;
use crate::memory::{AddressSpaceId, AddressSpaceIdPool, PageTables};

pub mod thread;

pub use thread::{Id as ThreadId, Thread};

verus! {

/// A unique id for a process.
pub type Id = crate::collections::Handle;

/// A user-space process.
pub struct Process {
    /// The id of this process.
    pub id: Id,
    /// The supervisor process for this process.
    pub supervisor: Id,
    /// The threads running in this process.
    pub threads: Vec<ThreadId>,
    /// The page tables that map this process' virtual memory space.
    pub page_tables: PageTables,
    /// The current address space ID and its generation.
    pub address_space_id: (Option<AddressSpaceId>, u32),
    /// True if this process has driver-level access to the kernel.
    pub is_driver: bool,
    /// True if this process is privileged (can send messages outside of its supervisor).
    pub is_privileged: bool,
    /// True if this process is a supervisor.
    /// Child processes spawned by this process will have it as their supervisor, rather
    /// than inheriting this process' supervisor.
    pub is_supervisor: bool,
}

impl Process {
    /// Whether the address space ID of the process is one of the generation `generation`.
    pub open spec fn has_current_id(&self, generation: u32) -> bool {
        self.address_space_id.0 is Some && self.address_space_id.1 == generation
    }

    /// Get or allocate an address space ID for this process.
    /// Returns true if a new generation has occured.
    ///
    /// A process whose ID is of the pool's generation keeps it. Any other process gets a new
    /// ID from the pool, with the generation that the pool has then.
    pub fn get_address_space_id(&mut self, pool: &mut AddressSpaceIdPool) -> (r: (
        AddressSpaceId,
        bool,
    ))
        requires
            old(pool).well_formed(),
        ensures
            final(pool).well_formed(),
            final(self).id == old(self).id,
            final(self).page_tables == old(self).page_tables,
            final(self).threads == old(self).threads,
            final(self).has_current_id(final(pool).generation()),
            final(self).address_space_id.0 == Some(r.0),
            old(self).has_current_id(old(pool).generation()) ==> {
                &&& r == (old(self).address_space_id.0->0, false)
                &&& final(self).address_space_id == old(self).address_space_id
                &&& final(pool).used() == old(pool).used()
                &&& final(pool).generation() == old(pool).generation()
            },
            !old(self).has_current_id(old(pool).generation()) ==> {
                &&& (final(pool).used(), final(pool).generation(), r.0) == spec_allocate(
                    old(pool).used(),
                    old(pool).generation(),
                )
                &&& r.1 == (final(pool).generation() != old(self).address_space_id.1)
            },
    {
        let (asid, generation) = self.address_space_id;
        if generation == pool.current_generation() {
            if let Some(i) = asid {
                return (i, false);
            }
        }
        let new = pool.allocate();
        self.address_space_id = (Some(new.0), new.1);
        (new.0, new.1 != generation)
    }
}

/// A value for a TTBR*_EL* register, holding the base address for the current page
/// translation table.
#[derive(Debug, Clone, Copy, PartialEq, Eq, Structural)]
pub struct TranslationTableBaseRegister(pub u64);

impl TranslationTableBaseRegister {
    /// The register value for the tables at `base_address` in the address space `asid`:
    /// the identifier in the bits 63 to 48, the bits 47 to 1 of the address in place, and
    /// the bit 0 if the translations are common to the cores.
    pub open spec fn spec_new(asid: u16, base_address: u64, common: bool) -> u64 {
        spec_set_bit_range(
            spec_set_bit_range(
                spec_set_bit_range(0, 63, 48, asid as u64),
                47,
                1,
                base_address >> 1,
            ),
            0,
            0,
            if common {
                1
            } else {
                0
            },
        )
    }

    /// The register value for the tables at `base_address` in the address space `asid`.
    pub fn new(asid: u16, base_address: u64, common: bool) -> (ttbr: Self)
        ensures
            ttbr.0 == Self::spec_new(asid, base_address, common),
    {
        let value = set_bit_range_u64(0, 63, 48, asid as u64);
        let value = set_bit_range_u64(value, 47, 1, base_address >> 1);
        let value = set_bit_range_u64(
            value,
            0,
            0,
            if common {
                1
            } else {
                0
            },
        );
        Self(value)
    }

    /// The address space identifier (bits 63 to 48).
    pub fn asid(&self) -> (asid: u16)
        ensures
            asid == spec_bit_range(self.0, 63, 48),
    {
        let field = bit_range_u64(self.0, 63, 48);
        proof {
            lemma_bit_range_bound(self.0, 63, 48);
            lemma_low_masks();
        }
        field as u16
    }

    /// The bits 47 to 1 of the base address of the tables.
    pub fn baddr(&self) -> (field: u64)
        ensures
            field == spec_bit_range(self.0, 47, 1),
    {
        bit_range_u64(self.0, 47, 1)
    }
}

/// The maintenance of the translation lookaside buffer that follows a switch of tables.
#[derive(Debug, Clone, Copy, PartialEq, Eq, Structural)]
pub enum TlbFlush {
    /// Flush every entry of EL1.
    All,
    /// Flush the entries of one address space.
    AddressSpace(AddressSpaceId),
}

/// A switch of the tables of EL0, for the caller to perform: the value to write to
/// `TTBR0_EL1`, and then the flush to make.
#[derive(Debug, Clone, Copy, PartialEq, Eq, Structural)]
pub struct ContextSwitch {
    /// The value to write to `TTBR0_EL1`.
    pub ttbr0: TranslationTableBaseRegister,
    /// The flush to make after the write.
    pub flush: TlbFlush,
}

/// Switch to a new set of page tables in EL0, where `TTBR0_EL1` holds `current_ttbr`.
/// If `full_flush` is true, then all EL0 TLB entries will be flushed, otherwise only
/// entries for the previous address space ID will be flushed.
///
/// Nothing is to be done if the register holds the value for the new tables already and no
/// full flush is asked for. The page tables must map addresses without the kernel tag.
pub fn switch_el0_context(
    new_page_tables: &PageTables,
    new_address_space_id: AddressSpaceId,
    full_flush: bool,
    current_ttbr: TranslationTableBaseRegister,
) -> (r: Option<ContextSwitch>)
    requires
        new_page_tables.well_formed(),
        !new_page_tables.spec_high_tag(),
    ensures
        ({
            let new_ttbr = TranslationTableBaseRegister::spec_new(
                new_address_space_id,
                new_page_tables.spec_root_address(),
                false,
            );
            if new_ttbr != current_ttbr.0 || full_flush {
                r == Some(
                    ContextSwitch {
                        ttbr0: TranslationTableBaseRegister(new_ttbr),
                        flush: if full_flush {
                            TlbFlush::All
                        } else {
                            TlbFlush::AddressSpace(spec_bit_range(current_ttbr.0, 63, 48) as u16)
                        },
                    },
                )
            } else {
                r is None
            }
        }),
{
    let new_ttbr = TranslationTableBaseRegister::new(
        new_address_space_id,
        new_page_tables.physical_address().to_addr(),
        false,
    );
    if new_ttbr.0 != current_ttbr.0 || full_flush {
        let flush = if full_flush {
            TlbFlush::All
        } else {
            TlbFlush::AddressSpace(current_ttbr.asid())
        };
        Some(ContextSwitch { ttbr0: new_ttbr, flush })
    } else {
        None
    }
}

/// Whether `thread` is one of the threads `threads`.
pub fn has_thread(threads: &Vec<ThreadId>, thread: ThreadId) -> (has: bool)
    ensures
        has == threads@.contains(thread),
{
    let mut i: usize = 0;
    while i < threads.len()
        invariant
            i <= threads@.len(),
            forall|k: int| 0 <= k < i ==> threads@[k] != thread,
        decreases threads@.len() - i,
    {
        if threads[i] == thread {
            return true;
        }
        i = i + 1;
    }
    false
}

/// The index of the process that the thread `thread` belongs to: of the first of
/// `processes` that has the thread among its threads. `None` if the thread belongs to no
/// process, as a kernel thread does.
pub fn process_of(processes: &Vec<Process>, thread: ThreadId) -> (r: Option<usize>)
    ensures
        r is Some ==> r->0 < processes@.len() && processes@[r->0 as int].threads@.contains(
            thread,
        ) && forall|i: int| 0 <= i < r->0 ==> !(#[trigger] processes@[i]).threads@.contains(thread),
        r is None ==> forall|i: int|
            0 <= i < processes@.len() ==> !(#[trigger] processes@[i]).threads@.contains(thread),
{
    let mut index: usize = 0;
    while index < processes.len()
        invariant
            index <= processes@.len(),
            forall|i: int| 0 <= i < index ==> !(#[trigger] processes@[i]).threads@.contains(thread),
        decreases processes@.len() - index,
    {
        if has_thread(&processes[index].threads, thread) {
            return Some(index);
        }
        index = index + 1;
    }
    None
}

} // verus!
