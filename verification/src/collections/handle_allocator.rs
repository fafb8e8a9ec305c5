//! Allocation of handles: small numbers that stand for objects.
use vstd::prelude::*;

verus! {

/// Errors that can occur when freeing a handle from a [`HandleAllocator`].
#[derive(Debug, Clone, Copy, PartialEq, Eq, Structural)]
pub enum Error {
    /// The handle was not allocated by this allocator.
    NotAllocated,
    /// The handle was out of the bounds of values used by this allocator.
    OutOfBounds,
}

/// The number of bits in a word of the bit set.
pub const WORD_BITS: u32 = 64;

/// Whether bit `bit` of `word` is set.
pub open spec fn bit_set(word: u64, bit: u64) -> bool {
    (word >> bit) & 1 == 1
}

/// The index of the first handle that is free in `used`, or the length of `used` if none
/// is, where `used` says of each handle, from handle 1 on, whether it is allocated.
pub open spec fn first_free(used: Seq<bool>) -> int
    decreases used.len(),
{
    if used.len() == 0 {
        0
    } else if !used[0] {
        0
    } else {
        1 + first_free(used.skip(1))
    }
}

/// The first free handle is free, and the handles before it are allocated.
pub proof fn lemma_first_free(used: Seq<bool>)
    ensures
        0 <= first_free(used) <= used.len(),
        first_free(used) < used.len() ==> !used[first_free(used)],
        forall|i: int| 0 <= i < first_free(used) ==> used[i],
    decreases used.len(),
{
    if used.len() > 0 && used[0] {
        lemma_first_free(used.skip(1));
        assert forall|i: int| 0 <= i < first_free(used) implies used[i] by {
            if i > 0 {
                assert(used.skip(1)[i - 1] == used[i]);
            }
        }
    }
}

/// An index of which the handle is free and before which every handle is allocated is the
/// index of the first free handle.
pub proof fn lemma_first_free_is(used: Seq<bool>, index: int)
    requires
        0 <= index <= used.len(),
        index < used.len() ==> !used[index],
        forall|i: int| 0 <= i < index ==> used[i],
    ensures
        first_free(used) == index,
{
    lemma_first_free(used);
    let found = first_free(used);
    if found < index {
        assert(used[found]);
    } else if found > index {
        assert(used[index]);
    }
}

/// What setting and clearing one bit of a word does to the bits of the word.
pub proof fn lemma_bit_update(word: u64, bit: u64, other: u64)
    requires
        bit < 64,
        other < 64,
    ensures
        bit_set(word | (1u64 << bit), other) == (other == bit || bit_set(word, other)),
        bit_set(word & !(1u64 << bit), other) == (other != bit && bit_set(word, other)),
        (word & (1u64 << bit) != 0) == bit_set(word, bit),
        !bit_set(0, other),
{
    assert(((((word | (1u64 << bit)) >> other) & 1 == 1) == (other == bit || (word >> other) & 1
        == 1)) && ((((word & !(1u64 << bit)) >> other) & 1 == 1) == (other != bit && (word
        >> other) & 1 == 1)) && ((word & (1u64 << bit) != 0) == ((word >> bit) & 1 == 1)) && (0u64
        >> other) & 1 != 1) by (bit_vector)
        requires
            bit < 64,
            other < 64,
    ;
}

/// A bit of the complement of a word is set exactly if the bit of the word is not. A word
/// that is not all ones has a complement that is not zero, and every bit of a word that is
/// all ones is set.
pub proof fn lemma_complement(word: u64, bit: u64)
    requires
        bit < 64,
    ensures
        bit_set(!word, bit) == !bit_set(word, bit),
        ((!word >> bit) & 1 == 0) == bit_set(word, bit),
        word != u64::MAX ==> !word != 0,
        word == u64::MAX ==> bit_set(word, bit),
{
    assert((((!word >> bit) & 1 == 1) == ((word >> bit) & 1 != 1)) && (((!word >> bit) & 1 == 0)
        == ((word >> bit) & 1 == 1)) && (word != 0xffff_ffff_ffff_ffffu64 ==> !word != 0) && (word
        == 0xffff_ffff_ffff_ffffu64 ==> (word >> bit) & 1 == 1)) by (bit_vector)
        requires
            bit < 64,
    ;
}

/// A handle allocator implemented using a fixed-size bit set.
///
/// Handles are the indices into the bit set plus one, i.e. handles range from `1` to
/// `max_handle`.
pub struct HandleAllocator {
    /// Vector of words representing the bits.
    bits: Vec<u64>,
    /// The total number of bits in the bit set.
    max_handle: u32,
}

impl View for HandleAllocator {
    type V = Seq<bool>;

    /// Of each handle, from handle 1 on, whether it is allocated.
    closed spec fn view(&self) -> Seq<bool> {
        Seq::new(
            self.max_handle as nat,
            |i: int| bit_set(self.bits@[i / (WORD_BITS as int)], (i % (WORD_BITS as int)) as u64),
        )
    }
}

impl HandleAllocator {
    /// The invariant of the allocator: there is a handle, and there is a bit for each.
    pub closed spec fn well_formed(&self) -> bool {
        &&& self.max_handle >= 1
        &&& self.bits@.len() * WORD_BITS > self.max_handle
        &&& self.bits@.len() * WORD_BITS <= self.max_handle + 2 * WORD_BITS
    }

    /// The largest handle.
    pub closed spec fn spec_max_handle(&self) -> u32 {
        self.max_handle
    }

    /// There is an entry in the view for each handle.
    pub proof fn lemma_view_len(&self)
        ensures
            self@.len() == self.spec_max_handle(),
            self.well_formed() ==> self@.len() >= 1,
    {
    }

    /// Creates a new allocator for the handles from 1 to `max_handle`, of which none is
    /// allocated.
    pub fn new(max_handle: u32) -> (allocator: Self)
        requires
            max_handle >= 1,
        ensures
            allocator.well_formed(),
            allocator.spec_max_handle() == max_handle,
            allocator@ == Seq::new(max_handle as nat, |i: int| false),
    {
        let num_words = (max_handle as u64 + 1 + 63) / 64;
        let mut bits: Vec<u64> = Vec::new();
        let mut word: u64 = 0;
        while word < num_words
            invariant
                word <= num_words,
                bits@.len() == word,
                forall|k: int| 0 <= k < word ==> bits@[k] == 0,
            decreases num_words - word,
        {
            bits.push(0);
            word = word + 1;
        }
        let allocator = Self { bits, max_handle };
        proof {
            assert forall|i: int| 0 <= i < max_handle implies !(#[trigger] allocator@[i]) by {
                lemma_bit_update(0, 0, (i % 64) as u64);
            }
            assert(allocator@ =~= Seq::new(max_handle as nat, |i: int| false));
        }
        allocator
    }

    /// The largest handle.
    pub fn max_handle(&self) -> (max: u32)
        ensures
            max == self.spec_max_handle(),
    {
        self.max_handle
    }

    /// Allocates the next available handle.
    ///
    /// Scans the bit set to find the first zero bit, sets it to one,
    /// and returns its index plus one as the allocated handle.
    ///
    /// # Returns
    ///
    /// * `Some(handle)` - The allocated handle: the least handle that was free.
    /// * `None` - If no handles are available.
    pub fn next_handle(&mut self) -> (r: Option<u32>)
        requires
            old(self).well_formed(),
        ensures
            final(self).well_formed(),
            final(self).spec_max_handle() == old(self).spec_max_handle(),
            first_free(old(self)@) >= old(self)@.len() ==> r is None && final(self)@ == old(
                self,
            )@,
            first_free(old(self)@) < old(self)@.len() ==> r == Some(
                (first_free(old(self)@) + 1) as u32,
            ) && final(self)@ == old(self)@.update(first_free(old(self)@), true),
    {
        let mut word_index: usize = 0;
        while word_index < self.bits.len()
            invariant
                self == old(self),
                self.well_formed(),
                word_index <= self.bits@.len(),
                forall|i: int|
                    0 <= i < self.max_handle && i < word_index * 64 ==> #[trigger] self@[i],
            decreases self.bits@.len() - word_index,
        {
            let current = self.bits[word_index];
            if current != u64::MAX {
                let zero_bit = (!current).trailing_zeros();
                proof {
                    vstd::std_specs::bits::axiom_u64_trailing_zeros(!current);
                    lemma_complement(current, 0);
                }
                let bit_index = word_index as u64 * 64 + zero_bit as u64;
                proof {
                    let z = zero_bit as u64;
                    assert(!bit_set(current, z)) by {
                        lemma_complement(current, z);
                    }
                    assert forall|j: u64| j < z implies bit_set(current, j) by {
                        assert((!current >> j) & 1u64 == 0u64);
                        lemma_complement(current, j);
                    }
                    assert forall|i: int|
                        0 <= i < self.max_handle && i < bit_index implies #[trigger] self@[i] by {
                        if i >= word_index * 64 {
                            assert(i / 64 == word_index);
                            assert(bit_set(current, (i % 64) as u64));
                        }
                    }
                }
                if bit_index >= self.max_handle as u64 {
                    proof {
                        lemma_first_free_is(self@, self@.len() as int);
                    }
                    return None;
                }
                let mask = 1u64 << zero_bit;
                self.bits[word_index] = current | mask;
                proof {
                    let z = zero_bit as u64;
                    let index = bit_index as int;
                    assert(index / 64 == word_index && index % 64 == z);
                    assert(!(old(self)@[index]));
                    lemma_first_free_is(old(self)@, index);
                    assert forall|i: int| 0 <= i < self.max_handle implies #[trigger] self@[i]
                        == old(self)@.update(index, true)[i] by {
                        if i / 64 == word_index {
                            lemma_bit_update(current, z, (i % 64) as u64);
                        }
                    }
                    assert(self@ =~= old(self)@.update(index, true));
                }
                return Some((bit_index + 1) as u32);
            }
            proof {
                assert forall|i: int|
                    0 <= i < self.max_handle && i < (word_index + 1) * 64 implies #[trigger] self@[i] by {
                    if i >= word_index * 64 {
                        assert(i / 64 == word_index);
                        let j = (i % 64) as u64;
                        lemma_complement(current, j);
                    }
                }
            }
            word_index = word_index + 1;
        }
        proof {
            lemma_first_free_is(self@, self@.len() as int);
        }
        None
    }

    /// Frees a previously allocated handle.
    ///
    /// Clears the bit corresponding to the given handle.
    /// Returns an error if the handle was not allocated or is out of bounds.
    ///
    /// # Errors
    /// - [`Error::OutOfBounds`] if the handle is outside of the range of handles managed by
    ///   this allocator.
    /// - [`Error::NotAllocated`] if the handle was already free.
    pub fn free_handle(&mut self, handle: u32) -> (r: Result<(), Error>)
        requires
            old(self).well_formed(),
        ensures
            final(self).well_formed(),
            final(self).spec_max_handle() == old(self).spec_max_handle(),
            r == (if handle == 0 || handle > old(self)@.len() {
                Err::<(), Error>(Error::OutOfBounds)
            } else if !old(self)@[handle - 1] {
                Err::<(), Error>(Error::NotAllocated)
            } else {
                Ok::<(), Error>(())
            }),
            r is Err ==> final(self)@ == old(self)@,
            r is Ok ==> final(self)@ == old(self)@.update(handle - 1, false),
    {
        if handle == 0 {
            return Err(Error::OutOfBounds);
        }
        let index = handle - 1;
        if index >= self.max_handle {
            return Err(Error::OutOfBounds);
        }
        let word_index = (index / WORD_BITS) as usize;
        let bit_index = (index % WORD_BITS) as u64;
        let mask = 1u64 << bit_index;
        let current = self.bits[word_index];
        proof {
            lemma_bit_update(current, bit_index, bit_index);
        }
        if current & mask == 0 {
            return Err(Error::NotAllocated);
        }
        self.bits[word_index] = current & !mask;
        proof {
            assert forall|i: int| 0 <= i < self.max_handle implies #[trigger] self@[i] == old(
                self,
            )@.update(index as int, false)[i] by {
                if i / 64 == word_index {
                    lemma_bit_update(current, bit_index, (i % 64) as u64);
                }
            }
            assert(self@ =~= old(self)@.update(index as int, false));
        }
        Ok(())
    }

    /// Frees all allocated handles in the allocator, causing them to all be invalid.
    ///
    /// Whoever holds a handle must have a way to tell that it has been invalidated: a
    /// generation counter, for one.
    pub fn reset(&mut self)
        requires
            old(self).well_formed(),
        ensures
            final(self).well_formed(),
            final(self).spec_max_handle() == old(self).spec_max_handle(),
            final(self)@ == Seq::new(old(self)@.len(), |i: int| false),
    {
        let mut word: usize = 0;
        while word < self.bits.len()
            invariant
                self.well_formed(),
                self.max_handle == old(self).max_handle,
                self.bits@.len() == old(self).bits@.len(),
                word <= self.bits@.len(),
                forall|k: int| 0 <= k < word ==> self.bits@[k] == 0,
            decreases self.bits@.len() - word,
        {
            self.bits[word] = 0;
            word = word + 1;
        }
        proof {
            assert forall|i: int| 0 <= i < self.max_handle implies !(#[trigger] self@[i]) by {
                lemma_bit_update(0, 0, (i % 64) as u64);
            }
            assert(self@ =~= Seq::new(old(self)@.len(), |i: int| false));
        }
    }
}

/// No handle is handed out twice: a handle that is handed out was free, and is allocated
/// afterwards; so a handle that is handed out is none of the handles that have been handed
/// out and not freed since. In particular two allocations in a row give two handles.
pub proof fn lemma_handles_unique(used: Seq<bool>)
    requires
        first_free(used) < used.len(),
        first_free(used.update(first_free(used), true)) < used.len(),
    ensures
        !used[first_free(used)],
        used.update(first_free(used), true)[first_free(used)],
        first_free(used.update(first_free(used), true)) != first_free(used),
        first_free(used.update(first_free(used), true)) > first_free(used),
{
    lemma_first_free(used);
    let first = first_free(used);
    let after = used.update(first, true);
    lemma_first_free(after);
    let second = first_free(after);
    if second < first {
        assert(used[second]);
        assert(after[second] == used[second]);
    }
}

/// What `count` allocations in a row do to the handles `used`, of which none is freed in
/// between: the handles afterwards, and the handles that the allocations gave, in their
/// order. `None` if the handles run out.
pub open spec fn allocate_many(used: Seq<bool>, count: nat) -> Option<(Seq<bool>, Seq<int>)>
    decreases count,
{
    if count == 0 {
        Some((used, Seq::empty()))
    } else {
        match allocate_many(used, (count - 1) as nat) {
            None => None,
            Some((before, handles)) => if first_free(before) < before.len() {
                Some(
                    (
                        before.update(first_free(before), true),
                        handles.push(first_free(before) + 1),
                    ),
                )
            } else {
                None
            },
        }
    }
}

/// Allocations in a row give handles that are all different: each is greater than the one
/// before it; each was free before the first allocation and is allocated after the last.
pub proof fn lemma_handles_distinct(used: Seq<bool>, count: nat)
    requires
        allocate_many(used, count) is Some,
    ensures
        allocate_many(used, count).unwrap().0.len() == used.len(),
        allocate_many(used, count).unwrap().1.len() == count,
        forall|i: int, j: int|
            0 <= i < j < count ==> allocate_many(used, count).unwrap().1[i] < allocate_many(
                used,
                count,
            ).unwrap().1[j],
        forall|i: int|
            0 <= i < count ==> {
                let handle = #[trigger] allocate_many(used, count).unwrap().1[i];
                &&& 1 <= handle <= used.len()
                &&& !used[handle - 1]
                &&& allocate_many(used, count).unwrap().0[handle - 1]
            },
        forall|k: int|
            0 <= k < used.len() && used[k] ==> #[trigger] allocate_many(used, count).unwrap().0[k],
        count > 0 ==> first_free(allocate_many(used, count).unwrap().0) >= allocate_many(
            used,
            count,
        ).unwrap().1.last(),
    decreases count,
{
    if count > 0 {
        lemma_handles_distinct(used, (count - 1) as nat);
        let (before, handles) = allocate_many(used, (count - 1) as nat)->0;
        let (after, all) = allocate_many(used, count)->0;
        let first = first_free(before);
        lemma_first_free(before);
        lemma_first_free(after);
        assert(all.drop_last() =~= handles);
        assert forall|i: int, j: int| 0 <= i < j < count implies all[i] < all[j] by {
            assert(all[i] == handles[i]);
            if j < count - 1 {
                assert(all[j] == handles[j]);
            } else {
                assert(handles[i] <= handles.last());
            }
        }
        assert forall|i: int| 0 <= i < count implies {
            let handle = #[trigger] all[i];
            &&& 1 <= handle <= used.len()
            &&& !used[handle - 1]
            &&& after[handle - 1]
        } by {
            if i < count - 1 {
                assert(all[i] == handles[i]);
            } else if used[first] {
                assert(before[first]);
            }
        }
        if first_free(after) < first + 1 {
            let second = first_free(after);
            if second < first {
                assert(before[second]);
                assert(after[second] == before[second]);
            }
        }
    }
}

} // verus!
