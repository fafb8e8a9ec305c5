//! Allocation of address space identifiers.
use vstd::prelude::*;

use crate::collections::handle_allocator::{first_free, lemma_first_free, lemma_first_free_is};
use crate::collections::{HandleAllocator, HandleAllocatorError};

verus! {

/// Represents an Address Space Identifier (ASID).
///
/// ASIDs are 16-bit values used by a system to tag and identify different
/// process address spaces. The value `0` is reserved to indicate an invalid
/// or "no ASID".
pub type AddressSpaceId = u16;

/// The generation after `generation`: the next number, and zero after the largest.
pub open spec fn next_generation(generation: u32) -> u32 {
    if generation == u32::MAX {
        0
    } else {
        (generation + 1) as u32
    }
}

/// What an allocation does, where `used` says of each identifier, from identifier 1 on,
/// whether it is allocated: which identifiers are allocated after it, the generation after
/// it, and the identifier that it hands out.
///
/// The identifier is the least one that is free. If none is free, all are freed, the
/// generation changes to the next, and the identifier is 1.
pub open spec fn spec_allocate(used: Seq<bool>, generation: u32) -> (Seq<bool>, u32, u16) {
    let first = first_free(used);
    if first < used.len() {
        (used.update(first, true), generation, (first + 1) as u16)
    } else {
        (
            Seq::new(used.len(), |i: int| false).update(0, true),
            next_generation(generation),
            1,
        )
    }
}

/// What `count` allocations in a row do: which identifiers are allocated after them, the
/// generation after them, and the pairs of identifier and generation that they hand out,
/// in order.
pub open spec fn spec_allocations(used: Seq<bool>, generation: u32, count: nat) -> (
    Seq<bool>,
    u32,
    Seq<(u16, u32)>,
)
    decreases count,
{
    if count == 0 {
        (used, generation, Seq::empty())
    } else {
        let before = spec_allocations(used, generation, (count - 1) as nat);
        let last = spec_allocate(before.0, before.1);
        (last.0, last.1, before.2.push((last.2, last.1)))
    }
}

/// `AddressSpaceIdPool` manages a pool of ASIDs (16-bit integers) using a `HandleAllocator`
/// and a generation counter. The generation counter ensures that ASIDs can be
/// recycled without confusion. Each time the pool runs out of ASIDs, it resets
/// (frees all allocated ASIDs) and increments the generation counter, making all
/// previously issued ASIDs from prior generations invalid.
///
/// # Behavior
/// - If no ASIDs are available when allocating:
///   1. The allocator is reset (all ASIDs freed).
///   2. The generation counter is incremented.
///   3. The first available ASID in the new generation is returned.
pub struct AddressSpaceIdPool {
    /// The current generation count. This value is incremented whenever
    /// the pool runs out of ASIDs and resets.
    generation: u32,
    /// The underlying handle allocator that manages ASID allocation.
    allocator: HandleAllocator,
}

impl Default for AddressSpaceIdPool {
    fn default() -> (pool: Self)
        ensures
            pool.well_formed(),
            pool.generation() == 0,
            pool.used() == Seq::new(u16::MAX as nat, |i: int| false),
    {
        Self::new(u16::MAX)
    }
}

impl AddressSpaceIdPool {
    /// Of each identifier, from identifier 1 on, whether it is allocated.
    pub closed spec fn used(&self) -> Seq<bool> {
        self.allocator@
    }

    /// The current generation.
    pub closed spec fn generation(&self) -> u32 {
        self.generation
    }

    /// The invariant of the pool: there is an identifier, and every identifier is a 16-bit
    /// number.
    pub closed spec fn well_formed(&self) -> bool {
        &&& self.allocator.well_formed()
        &&& self.allocator.spec_max_handle() <= u16::MAX
    }

    /// The number of identifiers is a 16-bit number that is not zero.
    pub proof fn lemma_size(&self)
        requires
            self.well_formed(),
        ensures
            1 <= self.used().len() <= u16::MAX,
    {
        self.allocator.lemma_view_len();
    }

    /// Creates a new ASID pool, for the identifiers from 1 to `max_asid`.
    pub fn new(max_asid: u16) -> (pool: Self)
        requires
            max_asid >= 1,
        ensures
            pool.well_formed(),
            pool.generation() == 0,
            pool.used() == Seq::new(max_asid as nat, |i: int| false),
    {
        AddressSpaceIdPool { generation: 0, allocator: HandleAllocator::new(max_asid as u32) }
    }

    /// Allocates a new ASID and returns it along with the current generation count.
    ///
    /// If no ASIDs are available, the pool is reset (all allocated ASIDs are freed),
    /// the generation is incremented, and then the first ASID of the new generation
    /// is returned.
    ///
    /// # Returns
    ///
    /// `(asid, generation)` where:
    /// - `asid` is a 16-bit integer representing the allocated ASID.
    /// - `generation` is the 32-bit integer representing the current generation.
    ///
    /// # Guarantees
    ///
    /// - The returned `asid` will never be `0`.
    /// - Each `asid` is unique until the pool is reset.
    /// - The `generation` value changes each time the pool resets.
    pub fn allocate(&mut self) -> (r: (AddressSpaceId, u32))
        requires
            old(self).well_formed(),
        ensures
            final(self).well_formed(),
            (final(self).used(), final(self).generation(), r.0) == spec_allocate(
                old(self).used(),
                old(self).generation(),
            ),
            r.1 == final(self).generation(),
            1 <= r.0 <= old(self).used().len(),
            r.1 == old(self).generation() ==> !old(self).used()[r.0 - 1],
            r.1 != old(self).generation() ==> forall|i: int|
                0 <= i < old(self).used().len() ==> old(self).used()[i],
    {
        proof {
            self.allocator.lemma_view_len();
            lemma_first_free(self.allocator@);
        }
        if let Some(handle) = self.allocator.next_handle() {
            return (handle as u16, self.generation);
        }
        self.allocator.reset();
        self.generation = self.generation.wrapping_add(1);
        proof {
            self.allocator.lemma_view_len();
            lemma_first_free_is(self.allocator@, 0);
        }
        match self.allocator.next_handle() {
            Some(handle) => (handle as u16, self.generation),
            None => (1, self.generation),
        }
    }

    /// Frees a previously allocated ASID.
    ///
    /// # Arguments
    ///
    /// * `asid` - A 16-bit ASID that was previously returned by `allocate`.
    ///
    /// # Returns
    ///
    /// - `Ok(())` if the ASID was successfully freed.
    /// - `Err(Error)` if the ASID was out of bounds or not allocated.
    ///
    /// # Notes
    ///
    /// This function does not reset the generation. Freed ASIDs can be reused
    /// within the same generation.
    pub fn free(&mut self, asid: AddressSpaceId) -> (r: Result<(), HandleAllocatorError>)
        requires
            old(self).well_formed(),
        ensures
            final(self).well_formed(),
            final(self).generation() == old(self).generation(),
            r == (if asid == 0 || asid > old(self).used().len() {
                Err::<(), HandleAllocatorError>(HandleAllocatorError::OutOfBounds)
            } else if !old(self).used()[asid - 1] {
                Err::<(), HandleAllocatorError>(HandleAllocatorError::NotAllocated)
            } else {
                Ok::<(), HandleAllocatorError>(())
            }),
            r is Err ==> final(self).used() == old(self).used(),
            r is Ok ==> final(self).used() == old(self).used().update(asid - 1, false),
    {
        self.allocator.free_handle(asid as u32)
    }

    /// Returns the current generation count.
    ///
    /// This can be useful to detect when a pool reset (and generation increment) has
    /// occurred.
    pub fn current_generation(&self) -> (generation: u32)
        ensures
            generation == self.generation(),
    {
        self.generation
    }
}

/// The identifiers of a generation are distinct: the first allocations from a new pool,
/// as many as there are identifiers, hand out the identifiers in order, each once, in generation
/// zero.
pub proof fn lemma_first_generation(max_asid: nat, count: nat)
    requires
        1 <= max_asid <= u16::MAX,
        count <= max_asid,
    ensures
        spec_allocations(Seq::new(max_asid, |i: int| false), 0, count).0 == Seq::new(
            max_asid,
            |i: int| i < count,
        ),
        spec_allocations(Seq::new(max_asid, |i: int| false), 0, count).1 == 0,
        spec_allocations(Seq::new(max_asid, |i: int| false), 0, count).2 == Seq::new(
            count,
            |i: int| ((i + 1) as u16, 0u32),
        ),
    decreases count,
{
    let fresh = Seq::new(max_asid, |i: int| false);
    if count == 0 {
        assert(fresh =~= Seq::new(max_asid, |i: int| i < 0));
        assert(Seq::<(u16, u32)>::empty() =~= Seq::new(0, |i: int| ((i + 1) as u16, 0u32)));
    } else {
        lemma_first_generation(max_asid, (count - 1) as nat);
        let before = spec_allocations(fresh, 0, (count - 1) as nat);
        lemma_first_free_is(before.0, count - 1);
        let last = spec_allocate(before.0, before.1);
        assert(last.0 =~= Seq::new(max_asid, |i: int| i < count));
        assert(before.2.push((last.2, last.1)) =~= Seq::new(
            count,
            |i: int| ((i + 1) as u16, 0u32),
        ));
    }
}

/// A pool that is exhausted starts a new generation: the allocation that follows as many
/// allocations as a new pool has identifiers is in a later generation.
pub proof fn lemma_next_generation(max_asid: nat)
    requires
        1 <= max_asid <= u16::MAX,
    ensures
        spec_allocations(Seq::new(max_asid, |i: int| false), 0, max_asid + 1).2[max_asid as int]
            == (1u16, 1u32),
        spec_allocations(Seq::new(max_asid, |i: int| false), 0, max_asid + 1).1 > 0,
{
    let fresh = Seq::new(max_asid, |i: int| false);
    lemma_first_generation(max_asid, max_asid);
    let before = spec_allocations(fresh, 0, max_asid);
    lemma_first_free_is(before.0, max_asid as int);
}

} // verus!
