//! Thread switching mechanism.
use std::sync::Arc;
use vstd::prelude::*;

use crate::collections::handle_allocator::lemma_first_free_is;
use crate::collections::HandleMap;
use crate::memory::AddressSpaceIdPool;
use crate::platform::cpu::{CoreInfo, Id as CpuId};
use crate::process::thread::scheduler::{initial_state, RoundRobinScheduler};
use crate::process::thread::{Id as ThreadId, ProcessorState, State, Thread, MAX_THREAD_ID};

verus! {

/// The thread subsystem.
pub struct ThreadSystem {
    /// The threads of the system, by their ids.
    pub threads: HandleMap<Thread>,
    /// The scheduler.
    pub scheduler: RoundRobinScheduler,
    /// The pool of address space identifiers.
    pub asid_pool: AddressSpaceIdPool,
}

/// The CPUs of the cores `cores` with their idle threads: the core at index `i` has the
/// thread with the id `i + 1`.
pub open spec fn idle_threads(cores: Seq<CoreInfo>) -> Seq<(CpuId, ThreadId)> {
    Seq::new(cores.len(), |i: int| (cores[i].id, (i + 1) as u32))
}

/// Initialize the thread subsystem for the cores `cores`: a store of threads that holds
/// an idle thread for each core, which is running and whose processor state is zero; a
/// scheduler in which each core has its idle thread as current thread and an empty queue;
/// and a pool of address space identifiers of which none is allocated.
///
/// Returns `None` if there are more cores than thread ids.
pub fn init(cores: &Vec<CoreInfo>) -> (r: Option<ThreadSystem>)
    ensures
        r is Some <==> cores@.len() <= MAX_THREAD_ID,
        r is Some ==> {
            let system = r->0;
            &&& system.threads.well_formed()
            &&& system.scheduler.well_formed()
            &&& system.asid_pool.well_formed()
            &&& system.asid_pool.generation() == 0
            &&& (system.scheduler.queues(), system.scheduler.current_threads()) == initial_state(
                idle_threads(cores@),
            )
            &&& system.scheduler.each_in_one_place()
            &&& forall|i: int|
                0 <= i < cores@.len() ==> {
                    let thread = #[trigger] system.threads.spec_get((i + 1) as u32);
                    &&& thread is Some
                    &&& thread->0.id == i + 1
                    &&& thread->0.spec_state() == State::Running
                    &&& thread->0.processor_state.spsr.0 == 0
                }
        },
{
    let mut threads: HandleMap<Thread> = HandleMap::new(MAX_THREAD_ID);
    let mut init_threads: Vec<(CpuId, ThreadId)> = Vec::new();
    let mut index: usize = 0;
    proof {
        threads.lemma_handles_len();
        lemma_first_free_is(threads.handles(), 0);
    }
    while index < cores.len()
        invariant
            index <= cores@.len(),
            index <= MAX_THREAD_ID,
            threads.well_formed(),
            threads.handles() == Seq::new(MAX_THREAD_ID as nat, |i: int| i < index),
            init_threads@ == idle_threads(cores@.take(index as int)),
            forall|i: int|
                0 <= i < index ==> {
                    let thread = #[trigger] threads.spec_get((i + 1) as u32);
                    &&& thread is Some
                    &&& thread->0.id == i + 1
                    &&& thread->0.spec_state() == State::Running
                    &&& thread->0.processor_state.spsr.0 == 0
                },
        decreases cores@.len() - index,
    {
        proof {
            lemma_first_free_is(
                threads.handles(),
                if index < MAX_THREAD_ID {
                    index as int
                } else {
                    MAX_THREAD_ID as int
                },
            );
        }
        let idle_thread = match Thread::new(
            &mut threads,
            State::Running,
            ProcessorState::new_for_idle_thread(),
        ) {
            Some(thread) => thread,
            None => {
                return None;
            },
        };
        init_threads.push((cores[index].id, idle_thread.id));
        proof {
            assert(threads.handles() =~= Seq::new(MAX_THREAD_ID as nat, |i: int| i < index + 1));
            assert(init_threads@ =~= idle_threads(cores@.take(index + 1)));
        }
        index = index + 1;
    }
    proof {
        assert(cores@.take(cores@.len() as int) =~= cores@);
    }
    let scheduler = RoundRobinScheduler::new(init_threads);
    Some(ThreadSystem { threads, scheduler, asid_pool: AddressSpaceIdPool::new(u16::MAX) })
}

/// Saves the processor state `state`, which the caller has read from the registers, into
/// the thread that is current on the CPU `cpu`. Returns the id of that thread, or `None`,
/// with nothing changed, if the scheduler has no current thread for the CPU or the store
/// holds no such thread.
pub fn save_current_thread_state(system: &mut ThreadSystem, cpu: CpuId, state: ProcessorState) -> (saved:
    Option<ThreadId>)
    requires
        old(system).threads.well_formed(),
    ensures
        final(system).threads.well_formed(),
        final(system).scheduler == old(system).scheduler,
        final(system).asid_pool == old(system).asid_pool,
        final(system).threads.handles() == old(system).threads.handles(),
        saved is Some <==> old(system).scheduler.current_threads().dom().contains(cpu) && old(
            system,
        ).threads.spec_get(old(system).scheduler.current_threads()[cpu]) is Some,
        saved is Some ==> {
            let id = old(system).scheduler.current_threads()[cpu];
            &&& saved == Some(id)
            &&& final(system).threads.spec_get(id) is Some
            &&& final(system).threads.spec_get(id)->0.processor_state == state
            &&& final(system).threads.spec_get(id)->0.id == old(system).threads.spec_get(id)->0.id
            &&& final(system).threads.spec_get(id)->0.properties == old(system).threads.spec_get(
                id,
            )->0.properties
        },
        forall|other: ThreadId|
            saved != Some(other) ==> #[trigger] final(system).threads.spec_get(other) == old(
                system,
            ).threads.spec_get(other),
{
    let id = match system.scheduler.current_thread(cpu) {
        Some(id) => id,
        None => {
            return None;
        },
    };
    match system.threads.get(id) {
        Some(thread) => {
            proof {
                system.threads.lemma_get_in_range(id);
            }
            system.threads.store(
                id,
                Arc::new(
                    Thread { id: thread.id, properties: thread.properties, processor_state: state },
                ),
            );
            Some(id)
        },
        None => None,
    }
}

/// The processor state of the thread that is current on the CPU `cpu`, which the caller
/// writes to the registers. `None` if the scheduler has no current thread for the CPU or
/// the store holds no such thread.
pub fn restore_current_thread_state(system: &ThreadSystem, cpu: CpuId) -> (r: Option<
    (ThreadId, ProcessorState),
>)
    requires
        system.threads.well_formed(),
    ensures
        r is Some <==> system.scheduler.current_threads().dom().contains(cpu)
            && system.threads.spec_get(system.scheduler.current_threads()[cpu]) is Some,
        r is Some ==> r.unwrap().0 == system.scheduler.current_threads()[cpu] && r.unwrap().1
            == system.threads.spec_get(system.scheduler.current_threads()[cpu])->0.processor_state,
{
    let id = match system.scheduler.current_thread(cpu) {
        Some(id) => id,
        None => {
            return None;
        },
    };
    match system.threads.get(id) {
        Some(thread) => Some((id, thread.processor_state)),
        None => None,
    }
}

} // verus!
