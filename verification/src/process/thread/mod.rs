//! Threads
use std::sync::Arc;
use vstd::prelude::*;

use crate::bits::{
    bit, bit_range_u64, lemma_bit_range_bound, lemma_low_masks, set_bit, set_bit_range_u64,
    spec_bit, spec_bit_range, spec_set_bit_range,
};
use crate::collections::arc_swap::share;
use crate::collections::HandleMap;
use crate::memory::VirtualAddress;

pub mod scheduler;

pub use crate::exceptions::Registers;

verus! {

/// An unique ID for a thread.
pub type Id = u32;

/// The largest possible thread ID in the system.
pub const MAX_THREAD_ID: u32 = 0xffff;

/// The value of the SPSR (Saved Program Status) register.
#[derive(Debug, Clone, Copy, PartialEq, Eq, Structural)]
pub struct SavedProgramStatus(pub u64);

impl SavedProgramStatus {
    /// Negative Condition Flag
    pub fn n(&self) -> (set: bool)
        ensures
            set == spec_bit(self.0, 31),
    {
        bit(self.0, 31)
    }

    /// Zero Condition Flag
    pub fn z(&self) -> (set: bool)
        ensures
            set == spec_bit(self.0, 30),
    {
        bit(self.0, 30)
    }

    /// Carry Condition Flag
    pub fn c(&self) -> (set: bool)
        ensures
            set == spec_bit(self.0, 29),
    {
        bit(self.0, 29)
    }

    /// Overflow Condition Flag
    pub fn v(&self) -> (set: bool)
        ensures
            set == spec_bit(self.0, 28),
    {
        bit(self.0, 28)
    }

    /// Debug Exception Mask
    pub fn d(&self) -> (set: bool)
        ensures
            set == spec_bit(self.0, 9),
    {
        bit(self.0, 9)
    }

    /// System Error Exception Mask
    pub fn a(&self) -> (set: bool)
        ensures
            set == spec_bit(self.0, 8),
    {
        bit(self.0, 8)
    }

    /// IRQ Exception Mask
    pub fn i(&self) -> (set: bool)
        ensures
            set == spec_bit(self.0, 7),
    {
        bit(self.0, 7)
    }

    /// FIQ Exception Mask
    pub fn f(&self) -> (set: bool)
        ensures
            set == spec_bit(self.0, 6),
    {
        bit(self.0, 6)
    }

    /// Sets the IRQ Exception Mask
    pub fn set_i(&mut self, masked: bool)
        ensures
            final(self).0 == spec_set_bit_range(
                old(self).0,
                7,
                7,
                if masked {
                    1
                } else {
                    0
                },
            ),
    {
        self.0 = set_bit(self.0, 7, masked);
    }

    /// Execution State and Exception Level
    pub fn el(&self) -> (level: u8)
        ensures
            level == spec_bit_range(self.0, 3, 2),
    {
        let field = bit_range_u64(self.0, 3, 2);
        proof {
            lemma_bit_range_bound(self.0, 3, 2);
            lemma_low_masks();
        }
        field as u8
    }

    /// Sets the Execution State and Exception Level
    pub fn set_el(&mut self, level: u8)
        ensures
            final(self).0 == spec_set_bit_range(old(self).0, 3, 2, level as u64),
    {
        self.0 = set_bit_range_u64(self.0, 3, 2, level as u64);
    }

    /// Stack Pointer Selector
    pub fn sp(&self) -> (set: bool)
        ensures
            set == spec_bit(self.0, 0),
    {
        bit(self.0, 0)
    }

    /// Sets the Stack Pointer Selector
    pub fn set_sp(&mut self, own: bool)
        ensures
            final(self).0 == spec_set_bit_range(
                old(self).0,
                0,
                0,
                if own {
                    1
                } else {
                    0
                },
            ),
    {
        self.0 = set_bit(self.0, 0, own);
    }

    /// Creates a suitable SPSR value for a thread running at EL0 (using the `SP_EL0` stack
    /// pointer).
    pub fn initial_for_el0() -> (spsr: SavedProgramStatus)
        ensures
            spsr.0 == 0,
    {
        SavedProgramStatus(0)
    }

    /// Creates a suitable SPSR value for a thread running at EL1 with its own stack using
    /// the `SP_EL0` stack pointer: the exception level is 1, and no other bit is set.
    pub fn initial_for_el1() -> (spsr: SavedProgramStatus)
        ensures
            spsr.0 == 0b0100,
    {
        let mut spsr = SavedProgramStatus(0);
        spsr.set_el(1);
        proof {
            lemma_low_masks();
            assert((0u64 & !(3u64 << 2u64)) | ((1u64 << 2u64) & (3u64 << 2u64)) == 0b0100)
                by (bit_vector);
        }
        spsr
    }
}

/// Processor state of a thread.
#[derive(Debug, Clone, Copy)]
pub struct ProcessorState {
    /// The current program status register value.
    pub spsr: SavedProgramStatus,
    /// The current program counter.
    pub program_counter: VirtualAddress,
    /// The current stack pointer.
    pub stack_pointer: VirtualAddress,
    /// The current value of the `xN` registers.
    pub registers: Registers,
}

impl ProcessorState {
    /// Create a zeroed processor state that is valid for the idle thread.
    /// This is valid because the idle thread will always be saved before it is resumed,
    /// capturing the current execution state in the kernel.
    ///
    /// This should only be used for idle threads.
    pub fn new_for_idle_thread() -> (state: Self)
        ensures
            state.spsr.0 == 0,
            state.program_counter.addr() == 0,
            state.stack_pointer.addr() == 0,
            forall|i: int| 0 <= i < 31 ==> state.registers.x@[i] == 0,
    {
        Self {
            spsr: SavedProgramStatus(0),
            program_counter: VirtualAddress::new(0),
            stack_pointer: VirtualAddress::new(0),
            registers: Registers::zeroed(),
        }
    }
}

/// Execution state of a thread.
#[derive(Copy, Clone, Debug, PartialEq, Eq, Structural)]
pub enum State {
    /// Thread is currently executing or could currently execute.
    Running,
    /// Thread is blocked.
    Blocked,
}

impl State {
    /// The number that stands for the state.
    pub open spec fn spec_into_integer(self) -> u8 {
        match self {
            State::Running => 0,
            State::Blocked => 1,
        }
    }

    /// The number that stands for the state.
    pub fn into_integer(self) -> (value: u8)
        ensures
            value == self.spec_into_integer(),
    {
        match self {
            State::Running => 0,
            State::Blocked => 1,
        }
    }

    /// The state that the number `value` stands for, if any.
    pub fn from_integer(value: u8) -> (state: Option<State>)
        ensures
            state is Some <==> value <= 1,
            state is Some ==> state->0.spec_into_integer() == value,
    {
        match value {
            0 => Some(State::Running),
            1 => Some(State::Blocked),
            _ => None,
        }
    }
}

/// The properties of a thread, packed in a word: the state in the bits 8 to 0.
#[derive(Copy, Clone, Debug, PartialEq, Eq, Structural)]
pub struct ThreadProperties(pub u64);

impl ThreadProperties {
    /// The state that the properties `properties` hold: blocked if the state bits spell
    /// one, running if they spell anything else.
    pub open spec fn spec_state_of(properties: u64) -> State {
        if spec_bit_range(properties, 8, 0) == 1 {
            State::Blocked
        } else {
            State::Running
        }
    }

    /// The properties of a thread in the state `state`.
    pub fn new(state: State) -> (properties: Self)
        ensures
            properties.0 == state.spec_into_integer(),
            Self::spec_state_of(properties.0) == state,
    {
        let mut s = Self(0);
        s.set_state(state);
        proof {
            let value = state.spec_into_integer() as u64;
            lemma_low_masks();
            assert((0u64 & !(0x1ffu64 << 0u64)) | ((value << 0u64) & (0x1ffu64 << 0u64)) == value
                && (value >> 0u64) & 0x1ff == value) by (bit_vector)
                requires
                    value <= 1,
            ;
        }
        s
    }

    /// The state of the thread.
    pub fn state(&self) -> (state: State)
        ensures
            state == Self::spec_state_of(self.0),
    {
        if bit_range_u64(self.0, 8, 0) == 1 {
            State::Blocked
        } else {
            State::Running
        }
    }

    /// Sets the state of the thread.
    pub fn set_state(&mut self, state: State)
        ensures
            final(self).0 == spec_set_bit_range(
                old(self).0,
                8,
                0,
                state.spec_into_integer() as u64,
            ),
    {
        self.0 = set_bit_range_u64(self.0, 8, 0, state.into_integer() as u64);
    }
}

/// A single thread of execution in a user-space process.
#[derive(Debug, Clone, Copy)]
pub struct Thread {
    /// The unique id for this thread.
    pub id: Id,
    /// Thread status, etc
    pub properties: ThreadProperties,
    /// The current processor state of the thread.
    pub processor_state: ProcessorState,
}

impl Thread {
    /// The state of the thread.
    pub open spec fn spec_state(&self) -> State {
        ThreadProperties::spec_state_of(self.properties.0)
    }

    /// A thread with the id `id` in the state `state`.
    pub fn with_id(id: Id, state: State, processor_state: ProcessorState) -> (thread: Thread)
        ensures
            thread.id == id,
            thread.spec_state() == state,
            thread.processor_state == processor_state,
    {
        Thread { id, properties: ThreadProperties::new(state), processor_state }
    }

    /// Create a new Thread in the store `store`, with the least handle of the store that
    /// is free as its id.
    ///
    /// Returns `None`, and leaves the store as it is, if there are no thread IDs left.
    pub fn new(
        store: &mut HandleMap<Thread>,
        initial_state: State,
        initial_processor_state: ProcessorState,
    ) -> (r: Option<Arc<Thread>>)
        requires
            old(store).well_formed(),
        ensures
            final(store).well_formed(),
            r is None ==> crate::collections::handle_allocator::first_free(old(store).handles())
                >= old(store).handles().len() && final(store).handles() == old(store).handles()
                && forall|handle: Id| final(store).spec_get(handle) == old(store).spec_get(handle),
            r is Some ==> {
                let id = (crate::collections::handle_allocator::first_free(old(store).handles())
                    + 1) as u32;
                &&& crate::collections::handle_allocator::first_free(old(store).handles()) < old(
                    store,
                ).handles().len()
                &&& final(store).handles() == old(store).handles().update(id - 1, true)
                &&& r->0.id == id
                &&& r->0.spec_state() == initial_state
                &&& r->0.processor_state == initial_processor_state
                &&& final(store).spec_get(id) == r
                &&& forall|handle: Id|
                    handle != id ==> #[trigger] final(store).spec_get(handle) == old(
                        store,
                    ).spec_get(handle)
            },
    {
        proof {
            crate::collections::handle_allocator::lemma_first_free(store.handles());
            store.lemma_handles_len();
        }
        let id = match store.next_handle() {
            Some(id) => id,
            None => {
                return None;
            },
        };
        let thread = Arc::new(Thread::with_id(id, initial_state, initial_processor_state));
        store.store(id, share(&thread));
        Some(thread)
    }

    /// Load current thread state.
    pub fn state(&self) -> (state: State)
        ensures
            state == self.spec_state(),
    {
        self.properties.state()
    }

    /// The thread in the state `state`.
    pub fn in_state(&self, state: State) -> (thread: Thread)
        ensures
            thread.id == self.id,
            thread.processor_state == self.processor_state,
            thread.spec_state() == state,
    {
        Thread {
            id: self.id,
            properties: ThreadProperties::new(state),
            processor_state: self.processor_state,
        }
    }
}

/// Whether the store `threads` holds a thread with the id `id` that is running.
pub open spec fn is_running(threads: &HandleMap<Thread>, id: Id) -> bool {
    threads.spec_get(id) is Some && threads.spec_get(id)->0.spec_state() == State::Running
}

/// Puts the thread with the id `id` in the state `state`. Returns whether the store holds
/// such a thread.
pub fn set_thread_state(threads: &mut HandleMap<Thread>, id: Id, state: State) -> (found: bool)
    requires
        old(threads).well_formed(),
    ensures
        final(threads).well_formed(),
        final(threads).handles() == old(threads).handles(),
        found == old(threads).spec_get(id) is Some,
        found ==> final(threads).spec_get(id) is Some && final(threads).spec_get(id)->0.id == old(
            threads,
        ).spec_get(id)->0.id && final(threads).spec_get(id)->0.spec_state() == state
            && final(threads).spec_get(id)->0.processor_state == old(threads).spec_get(
            id,
        )->0.processor_state,
        !found ==> final(threads).spec_get(id) is None,
        forall|other: Id|
            other != id ==> #[trigger] final(threads).spec_get(other) == old(threads).spec_get(
                other,
            ),
{
    match threads.get(id) {
        Some(thread) => {
            proof {
                threads.lemma_get_in_range(id);
            }
            threads.store(id, Arc::new(thread.in_state(state)));
            true
        },
        None => false,
    }
}

} // verus!
