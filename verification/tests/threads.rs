use kernel_core::boot;
use kernel_core::collections::HandleMap;
use kernel_core::exceptions::interrupt::handler::{Action, Error, Handler};
use kernel_core::exceptions::Registers;
use kernel_core::memory::{
    AddressSpaceIdPool, PageSize, PageTables, PhysicalAddress, VirtualAddress,
};
use kernel_core::platform::cpu::CoreInfo;
use kernel_core::platform::timer::SystemTimer;
use kernel_core::process::thread::scheduler::RoundRobinScheduler;
use kernel_core::process::thread::{
    set_thread_state, ProcessorState, SavedProgramStatus, State, Thread, ThreadProperties,
    MAX_THREAD_ID,
};
use kernel_core::process::{
    has_thread, process_of, switch_el0_context, ContextSwitch, Process, TlbFlush,
    TranslationTableBaseRegister,
};
use std::sync::Arc;

/// A timer that raises a fixed interrupt.
struct FixedTimer {
    interrupt: u32,
}

impl SystemTimer for FixedTimer {
    fn interrupt_id(&self) -> u32 {
        self.interrupt
    }

    fn reset(&self) -> u32 {
        1000
    }
}

#[test]
fn unknown_interrupt() {
    let unknown_id = 1000;
    let timer = FixedTimer { interrupt: 30 };
    let h = Handler::new(&timer);
    let res = h.process_interrupts(Some(unknown_id));
    assert!(matches!(res, Err(Error::UnknownInterrupt(id)) if id == unknown_id));
}

#[test]
fn run_scheduler_on_timer_interrupt() {
    let timer_id = 30;
    let timer = FixedTimer { interrupt: timer_id };
    let h = Handler::new(&timer);
    let mut acknowledgements = vec![Some(timer_id), None].into_iter();
    let mut time_slices = 0;
    let mut resets = 0;
    let mut finished = Vec::new();
    loop {
        let acknowledged = acknowledgements.next().expect("one acknowledgement per step");
        match h.process_interrupts(acknowledged).expect("handle interrupt") {
            Action::Finished => break,
            Action::NextTimeSlice { finish } => {
                time_slices += 1;
                resets += 1;
                finished.push(finish);
            }
        }
    }
    assert_eq!(time_slices, 1);
    assert_eq!(resets, 1);
    assert_eq!(finished, vec![timer_id]);
    assert!(acknowledgements.next().is_none());
}

#[test]
fn handler_decides_for_each_answer_of_the_controller() {
    let h = Handler::new(&FixedTimer { interrupt: 27 });
    assert_eq!(h.process_interrupts(None), Ok(Action::Finished));
    assert_eq!(
        h.process_interrupts(Some(27)),
        Ok(Action::NextTimeSlice { finish: 27 })
    );
    assert_eq!(h.process_interrupts(Some(30)), Err(Error::UnknownInterrupt(30)));
    assert_eq!(h.process_interrupts(Some(0)), Err(Error::UnknownInterrupt(0)));
}

fn idle_state() -> ProcessorState {
    ProcessorState::new_for_idle_thread()
}

fn same_state(a: &ProcessorState, b: &ProcessorState) -> bool {
    a.spsr == b.spsr
        && a.program_counter == b.program_counter
        && a.stack_pointer == b.stack_pointer
        && a.registers.x == b.registers.x
}

/// A store with the threads 1 (idle), 2, 3 and 4, and a scheduler for CPU 0 with the idle
/// thread current and the others queued in order.
fn three_threads() -> (HandleMap<Thread>, RoundRobinScheduler) {
    let mut threads = HandleMap::new(16);
    for expected in 1..=4 {
        let thread = Thread::new(&mut threads, State::Running, idle_state()).unwrap();
        assert_eq!(thread.id, expected);
    }
    let mut scheduler = RoundRobinScheduler::new(vec![(0, 1)]);
    for id in 2..=4 {
        assert!(scheduler.enqueue(0, id));
    }
    (threads, scheduler)
}

fn slices(scheduler: &mut RoundRobinScheduler, threads: &HandleMap<Thread>, n: usize) -> Vec<u32> {
    (0..n)
        .map(|_| {
            scheduler.next_time_slice(0, threads);
            scheduler.current_thread(0).unwrap()
        })
        .collect()
}

#[test]
fn running_threads_take_turns_in_the_order_of_the_queue() {
    let (threads, mut scheduler) = three_threads();
    assert_eq!(scheduler.current_thread(0), Some(1));
    assert_eq!(
        slices(&mut scheduler, &threads, 9),
        vec![2, 3, 4, 1, 2, 3, 4, 1, 2]
    );
}

#[test]
fn a_blocked_thread_is_skipped_and_kept() {
    let (mut threads, mut scheduler) = three_threads();
    assert!(set_thread_state(&mut threads, 3, State::Blocked));
    assert_eq!(slices(&mut scheduler, &threads, 6), vec![2, 4, 1, 2, 4, 1]);
    assert!(set_thread_state(&mut threads, 3, State::Running));
    let next = slices(&mut scheduler, &threads, 8);
    assert_eq!(next.iter().filter(|id| **id == 3).count(), 2);
    let mut once = next[..4].to_vec();
    once.sort_unstable();
    assert_eq!(once, vec![1, 2, 3, 4]);
    assert_eq!(next[..4], next[4..]);
}

#[test]
fn the_current_thread_stays_where_no_other_can_run() {
    let (mut threads, mut scheduler) = three_threads();
    for id in 2..=4 {
        assert!(set_thread_state(&mut threads, id, State::Blocked));
    }
    assert_eq!(slices(&mut scheduler, &threads, 3), vec![1, 1, 1]);
    assert!(set_thread_state(&mut threads, 1, State::Blocked));
    assert_eq!(slices(&mut scheduler, &threads, 2), vec![1, 1]);
    assert!(set_thread_state(&mut threads, 4, State::Running));
    assert_eq!(slices(&mut scheduler, &threads, 3), vec![4, 4, 4]);
    let mut alone = RoundRobinScheduler::new(vec![(7, 1)]);
    alone.next_time_slice(7, &threads);
    assert_eq!(alone.current_thread(7), Some(1));
}

#[test]
fn threads_that_the_store_lacks_do_not_run() {
    let (mut threads, mut scheduler) = three_threads();
    assert!(scheduler.enqueue(0, 9));
    assert_eq!(slices(&mut scheduler, &threads, 5), vec![2, 3, 4, 1, 2]);
    assert!(threads.remove(3).is_some());
    assert_eq!(slices(&mut scheduler, &threads, 4), vec![4, 1, 2, 4]);
}

#[test]
fn each_cpu_has_a_queue_of_its_own() {
    let mut threads = HandleMap::new(16);
    for _ in 0..6 {
        Thread::new(&mut threads, State::Running, idle_state()).unwrap();
    }
    let mut scheduler = RoundRobinScheduler::new(vec![(0, 1), (1, 2), (0x1_0000_0000, 3)]);
    assert!(scheduler.has_cpu(0));
    assert!(scheduler.has_cpu(1));
    assert!(scheduler.has_cpu(0x1_0000_0000));
    assert!(!scheduler.has_cpu(2));
    assert_eq!(scheduler.current_thread(0), Some(1));
    assert_eq!(scheduler.current_thread(1), Some(2));
    assert_eq!(scheduler.current_thread(0x1_0000_0000), Some(3));
    assert_eq!(scheduler.current_thread(2), None);
    assert!(!scheduler.enqueue(2, 4));
    assert!(scheduler.enqueue(1, 4));
    assert!(scheduler.enqueue(1, 5));
    scheduler.next_time_slice(2, &threads);
    scheduler.next_time_slice(0, &threads);
    assert_eq!(scheduler.current_thread(0), Some(1));
    assert_eq!(scheduler.current_thread(1), Some(2));
    scheduler.next_time_slice(1, &threads);
    assert_eq!(scheduler.current_thread(1), Some(4));
    scheduler.next_time_slice(1, &threads);
    assert_eq!(scheduler.current_thread(1), Some(5));
    scheduler.next_time_slice(1, &threads);
    assert_eq!(scheduler.current_thread(1), Some(2));
    assert_eq!(scheduler.current_thread(0x1_0000_0000), Some(3));
}

#[test]
fn threads_get_the_least_free_id() {
    let mut threads: HandleMap<Thread> = HandleMap::new(3);
    let mut state = idle_state();
    state.program_counter = VirtualAddress::new(0x40_0000);
    state.registers = Registers::from_args(&[1, 2, 3]);
    let first = Thread::new(&mut threads, State::Blocked, state).unwrap();
    assert_eq!(first.id, 1);
    assert_eq!(first.state(), State::Blocked);
    assert!(same_state(&first.processor_state, &state));
    assert!(Arc::ptr_eq(&first, &threads.get(1).unwrap()));
    let second = Thread::new(&mut threads, State::Running, idle_state()).unwrap();
    assert_eq!(second.id, 2);
    assert_eq!(second.state(), State::Running);
    assert_eq!(Thread::new(&mut threads, State::Running, idle_state()).unwrap().id, 3);
    assert!(Thread::new(&mut threads, State::Running, idle_state()).is_none());
    assert!(threads.remove(2).is_some());
    assert_eq!(Thread::new(&mut threads, State::Running, idle_state()).unwrap().id, 2);

    assert!(set_thread_state(&mut threads, 1, State::Running));
    let changed = threads.get(1).unwrap();
    assert_eq!(changed.state(), State::Running);
    assert_eq!(changed.id, 1);
    assert!(same_state(&changed.processor_state, &state));
    assert_eq!(first.state(), State::Blocked);
    assert!(!set_thread_state(&mut threads, 7, State::Running));
    assert!(!set_thread_state(&mut threads, 0, State::Running));

    let thread = Thread::with_id(9, State::Blocked, idle_state());
    assert_eq!((thread.id, thread.state()), (9, State::Blocked));
    let running = thread.in_state(State::Running);
    assert_eq!((running.id, running.state()), (9, State::Running));
    assert_eq!(MAX_THREAD_ID, 0xffff);
}

#[test]
fn thread_states_are_kept_in_the_low_bits() {
    assert_eq!(State::Running.into_integer(), 0);
    assert_eq!(State::Blocked.into_integer(), 1);
    assert_eq!(State::from_integer(0), Some(State::Running));
    assert_eq!(State::from_integer(1), Some(State::Blocked));
    assert_eq!(State::from_integer(2), None);
    assert_eq!(State::from_integer(255), None);
    assert_eq!(ThreadProperties::new(State::Running).0, 0);
    assert_eq!(ThreadProperties::new(State::Blocked).0, 1);
    let mut properties = ThreadProperties(0xffff_0000_0000_0e00);
    assert_eq!(properties.state(), State::Running);
    properties.set_state(State::Blocked);
    assert_eq!(properties.0, 0xffff_0000_0000_0e01);
    assert_eq!(properties.state(), State::Blocked);
    properties.set_state(State::Running);
    assert_eq!(properties.0, 0xffff_0000_0000_0e00);
    assert_eq!(ThreadProperties(0x101).state(), State::Running);
    assert_eq!(ThreadProperties(0x201).state(), State::Blocked);
}

#[test]
fn saved_program_status_fields() {
    let all = SavedProgramStatus(u64::MAX);
    assert!(all.n() && all.z() && all.c() && all.v() && all.d() && all.a() && all.i() && all.f());
    assert!(all.sp());
    assert_eq!(all.el(), 3);
    let none = SavedProgramStatus(0);
    assert!(!(none.n() || none.z() || none.c() || none.v() || none.d() || none.a()));
    assert!(!(none.i() || none.f() || none.sp()));
    assert!(SavedProgramStatus(1 << 31).n());
    assert!(SavedProgramStatus(1 << 30).z());
    assert!(SavedProgramStatus(1 << 29).c());
    assert!(SavedProgramStatus(1 << 28).v());
    assert!(SavedProgramStatus(1 << 9).d());
    assert!(SavedProgramStatus(1 << 8).a());
    assert!(SavedProgramStatus(1 << 7).i());
    assert!(SavedProgramStatus(1 << 6).f());
    assert!(!SavedProgramStatus(!(1 << 7)).i());
    assert_eq!(SavedProgramStatus(0b1000).el(), 2);
    let mut spsr = SavedProgramStatus::initial_for_el0();
    assert_eq!(spsr.0, 0);
    spsr.set_i(true);
    assert_eq!(spsr.0, 0x80);
    spsr.set_el(3);
    assert_eq!(spsr.0, 0x8c);
    spsr.set_el(1);
    assert_eq!(spsr.0, 0x84);
    spsr.set_sp(true);
    assert_eq!(spsr.0, 0x85);
    spsr.set_i(false);
    spsr.set_sp(false);
    assert_eq!(spsr.0, 0x04);
    assert_eq!(SavedProgramStatus::initial_for_el1().0, 0b0100);
    assert_eq!(SavedProgramStatus::initial_for_el1().el(), 1);
    let idle = ProcessorState::new_for_idle_thread();
    assert_eq!(idle.spsr.0, 0);
    assert_eq!(idle.program_counter.to_addr(), 0);
    assert_eq!(idle.stack_pointer.to_addr(), 0);
    assert_eq!(idle.registers.x, [0; 31]);
}

fn cores(n: u64) -> Vec<CoreInfo<'static>> {
    (0..n)
        .map(|i| CoreInfo { id: i * 0x100, enable_method: b"psci\0" })
        .collect()
}

#[test]
fn thread_system_starts_with_an_idle_thread_for_each_core() {
    let mut system = boot::thread::init(&cores(4)).unwrap();
    for i in 0..4u64 {
        let id = i as u32 + 1;
        assert_eq!(system.scheduler.current_thread(i * 0x100), Some(id));
        let thread = system.threads.get(id).unwrap();
        assert_eq!(thread.id, id);
        assert_eq!(thread.state(), State::Running);
        assert!(same_state(&thread.processor_state, &idle_state()));
    }
    assert!(system.threads.get(5).is_none());
    assert!(!system.scheduler.has_cpu(1));
    system.scheduler.next_time_slice(0x100, &system.threads);
    assert_eq!(system.scheduler.current_thread(0x100), Some(2));
    assert_eq!(system.asid_pool.current_generation(), 0);
    assert_eq!(system.asid_pool.allocate(), (1, 0));
    assert_eq!(Thread::new(&mut system.threads, State::Running, idle_state()).unwrap().id, 5);
    assert!(boot::thread::init(&Vec::new()).is_some());
    assert!(boot::thread::init(&cores(0xffff)).is_some());
    assert!(boot::thread::init(&cores(0x1_0000)).is_none());
}

#[test]
fn the_state_of_the_current_thread_is_saved_and_restored() {
    let mut system = boot::thread::init(&cores(2)).unwrap();
    let mut state = idle_state();
    state.spsr = SavedProgramStatus::initial_for_el1();
    state.program_counter = VirtualAddress::new(0xffff_0000_4008_0000);
    state.stack_pointer = VirtualAddress::new(0xffff_0000_4100_0000);
    state.registers.x[30] = 77;
    assert_eq!(boot::thread::save_current_thread_state(&mut system, 0x100, state), Some(2));
    let (id, restored) = boot::thread::restore_current_thread_state(&system, 0x100).unwrap();
    assert_eq!(id, 2);
    assert!(same_state(&restored, &state));
    assert_eq!(restored.registers.x[30], 77);
    let (id, restored) = boot::thread::restore_current_thread_state(&system, 0).unwrap();
    assert_eq!(id, 1);
    assert!(same_state(&restored, &idle_state()));
    assert_eq!(system.threads.get(2).unwrap().state(), State::Running);
    assert_eq!(boot::thread::save_current_thread_state(&mut system, 5, state), None);
    assert!(boot::thread::restore_current_thread_state(&system, 5).is_none());
    assert!(system.threads.remove(1).is_some());
    assert_eq!(boot::thread::save_current_thread_state(&mut system, 0, state), None);
    assert!(boot::thread::restore_current_thread_state(&system, 0).is_none());
    assert!(system.threads.get(1).is_none());
}

fn process(tables: PageTables) -> Process {
    Process {
        id: 1,
        supervisor: 0,
        threads: vec![5],
        page_tables: tables,
        address_space_id: (None, 0),
        is_driver: false,
        is_privileged: false,
        is_supervisor: false,
    }
}

#[test]
fn a_process_keeps_its_address_space_for_a_generation() {
    let tables = PageTables::from_existing(PageSize::FourKiB, PhysicalAddress::new(0x8_0000), false);
    let mut pool = AddressSpaceIdPool::new(2);
    let mut first = process(tables);
    assert_eq!(first.get_address_space_id(&mut pool), (1, false));
    assert_eq!(first.address_space_id, (Some(1), 0));
    assert_eq!(first.get_address_space_id(&mut pool), (1, false));
    let tables = PageTables::from_existing(PageSize::FourKiB, PhysicalAddress::new(0x9_0000), false);
    let mut second = process(tables);
    assert_eq!(second.get_address_space_id(&mut pool), (2, false));
    let tables = PageTables::from_existing(PageSize::FourKiB, PhysicalAddress::new(0xa_0000), false);
    let mut third = process(tables);
    assert_eq!(third.get_address_space_id(&mut pool), (1, true));
    assert_eq!(third.address_space_id, (Some(1), 1));
    assert_eq!(pool.current_generation(), 1);
    assert_eq!(first.get_address_space_id(&mut pool), (2, true));
    assert_eq!(first.address_space_id, (Some(2), 1));
    assert_eq!(first.get_address_space_id(&mut pool), (2, false));
    assert_eq!(third.get_address_space_id(&mut pool), (1, false));
    assert_eq!(first.threads, vec![5]);
}

#[test]
fn tables_are_switched_where_they_differ() {
    let tables = PageTables::from_existing(PageSize::FourKiB, PhysicalAddress::new(0x4123_4000), false);
    let ttbr = TranslationTableBaseRegister::new(7, 0x4123_4000, false);
    assert_eq!(ttbr.0, 0x0007_0000_4123_4000);
    assert_eq!(ttbr.asid(), 7);
    assert_eq!(ttbr.baddr(), 0x4123_4000 >> 1);
    assert_eq!(TranslationTableBaseRegister::new(0xffff, 0xffff_ffff_ffff, true).0, u64::MAX);
    assert_eq!(TranslationTableBaseRegister::new(0, 0, true).0, 1);
    assert_eq!(switch_el0_context(&tables, 7, false, ttbr), None);
    assert_eq!(
        switch_el0_context(&tables, 7, true, ttbr),
        Some(ContextSwitch { ttbr0: ttbr, flush: TlbFlush::All })
    );
    assert_eq!(
        switch_el0_context(&tables, 8, false, ttbr),
        Some(ContextSwitch {
            ttbr0: TranslationTableBaseRegister(0x0008_0000_4123_4000),
            flush: TlbFlush::AddressSpace(7),
        })
    );
    assert_eq!(
        switch_el0_context(&tables, 7, false, TranslationTableBaseRegister(0x0003_0000_5000_0000)),
        Some(ContextSwitch { ttbr0: ttbr, flush: TlbFlush::AddressSpace(3) })
    );
}

#[test]
fn a_thread_has_one_place_in_the_scheduler() {
    let (threads, mut scheduler) = three_threads();
    for id in 1..=4 {
        assert!(scheduler.has_thread(id));
        assert!(!scheduler.enqueue(0, id));
    }
    assert!(!scheduler.has_thread(5));
    assert_eq!(slices(&mut scheduler, &threads, 8), vec![2, 3, 4, 1, 2, 3, 4, 1]);
    for id in 1..=4 {
        assert!(scheduler.has_thread(id));
        assert!(!scheduler.enqueue(0, id));
    }
    assert_eq!(slices(&mut scheduler, &threads, 4), vec![2, 3, 4, 1]);

    let mut scheduler = RoundRobinScheduler::new(vec![(0, 1), (1, 2)]);
    assert!(scheduler.has_thread(1));
    assert!(scheduler.has_thread(2));
    assert!(!scheduler.enqueue(1, 1));
    assert!(!scheduler.enqueue(0, 2));
    assert!(scheduler.enqueue(0, 3));
    assert!(!scheduler.enqueue(1, 3));
    assert!(!scheduler.enqueue(0, 3));
    assert!(!scheduler.enqueue(2, 4));
    assert!(!scheduler.has_thread(4));
    assert!(scheduler.enqueue(1, 4));
    assert!(scheduler.has_thread(4));
}

#[test]
fn the_later_idle_thread_of_a_cpu_counts() {
    let mut scheduler = RoundRobinScheduler::new(vec![(0, 1), (0, 2)]);
    assert_eq!(scheduler.current_thread(0), Some(2));
    assert!(scheduler.has_thread(2));
    assert!(!scheduler.has_thread(1));
    assert!(scheduler.enqueue(0, 1));
    assert!(!scheduler.enqueue(0, 1));
}

#[test]
fn a_thread_is_found_in_its_process() {
    let tables = |root: u64| {
        PageTables::from_existing(PageSize::FourKiB, PhysicalAddress::new(root), false)
    };
    let mut first = process(tables(0x8_0000));
    first.threads = vec![5, 6];
    let mut second = process(tables(0x9_0000));
    second.threads = Vec::new();
    let mut third = process(tables(0xa_0000));
    third.threads = vec![7, 6];
    let processes = vec![first, second, third];
    assert_eq!(process_of(&processes, 5), Some(0));
    assert_eq!(process_of(&processes, 6), Some(0));
    assert_eq!(process_of(&processes, 7), Some(2));
    assert_eq!(process_of(&processes, 8), None);
    assert_eq!(process_of(&Vec::new(), 5), None);
    assert!(has_thread(&processes[2].threads, 6));
    assert!(!has_thread(&processes[2].threads, 5));
    assert!(!has_thread(&processes[1].threads, 0));
}
