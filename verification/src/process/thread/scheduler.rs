//! Thread scheduler implementation.
use crossbeam::queue::SegQueue;
use hashbrown::HashMap;
use vstd::prelude::*;

use super::{is_running, Id as ThreadId, State, Thread};
use crate::collections::HandleMap;
use crate::process::has_thread;
use crate::platform::cpu::Id as CpuId;

verus! {

/// The run queues of the CPUs: for each CPU a queue of the ids of threads that wait for
/// the CPU, in a hash map by the CPU's id.
#[verifier::external_body]
pub struct RunQueues {
    queues: HashMap<CpuId, SegQueue<ThreadId>>,
}

/// What run queues hold: for each CPU that has a queue the thread ids in its queue, with
/// the head of the queue first.
pub uninterp spec fn queue_contents(queues: RunQueues) -> Map<CpuId, Seq<ThreadId>>;

/// The current threads of the CPUs: for each CPU the id of the thread that runs on it, in
/// a hash map by the CPU's id.
#[verifier::external_body]
pub struct CurrentThreads {
    threads: HashMap<CpuId, ThreadId>,
}

/// What the current threads hold: for each CPU that has one the id of its current thread.
pub uninterp spec fn current_contents(threads: CurrentThreads) -> Map<CpuId, ThreadId>;

/// Run queues for no CPU.
pub open spec fn no_queues() -> Map<CpuId, Seq<ThreadId>> {
    Map::empty()
}

/// Current threads for no CPU.
pub open spec fn no_threads() -> Map<CpuId, ThreadId> {
    Map::empty()
}

/// Calls `hashbrown::HashMap::new`, which makes an empty map.
#[verifier::external_body]
fn new_run_queues() -> (queues: RunQueues)
    ensures
        queue_contents(queues) == no_queues(),
{
    RunQueues { queues: HashMap::new() }
}

/// Calls `hashbrown::HashMap::insert` with a queue from `crossbeam::queue::SegQueue::new`:
/// the map then holds an empty queue for the key, in place of what it held for it.
#[verifier::external_body]
fn add_run_queue(queues: &mut RunQueues, cpu: CpuId)
    ensures
        queue_contents(*final(queues)) == queue_contents(*old(queues)).insert(cpu, Seq::empty()),
{
    queues.queues.insert(cpu, SegQueue::new());
}

/// Calls `hashbrown::HashMap::contains_key`, which says whether the map holds a value for
/// the key.
#[verifier::external_body]
fn has_run_queue(queues: &RunQueues, cpu: CpuId) -> (has: bool)
    ensures
        has == queue_contents(*queues).dom().contains(cpu),
{
    queues.queues.contains_key(&cpu)
}

/// Calls `crossbeam::queue::SegQueue::len` on the queue that `hashbrown::HashMap::index`
/// gives for the key: the number of elements in the queue. The index panics without a
/// value for the key.
#[verifier::external_body]
fn run_queue_len(queues: &RunQueues, cpu: CpuId) -> (len: usize)
    requires
        queue_contents(*queues).dom().contains(cpu),
    ensures
        len == queue_contents(*queues)[cpu].len(),
{
    queues.queues[&cpu].len()
}

/// Calls `crossbeam::queue::SegQueue::pop` on the queue that `hashbrown::HashMap::index`
/// gives for the key: the element at the head of the queue leaves the queue and is
/// returned, and an empty queue gives `None`. The index panics without a value for the
/// key.
#[verifier::external_body]
fn run_queue_pop(queues: &mut RunQueues, cpu: CpuId) -> (thread: Option<ThreadId>)
    requires
        queue_contents(*old(queues)).dom().contains(cpu),
    ensures
        queue_contents(*old(queues))[cpu].len() == 0 ==> thread is None && queue_contents(
            *final(queues),
        ) == queue_contents(*old(queues)),
        queue_contents(*old(queues))[cpu].len() > 0 ==> thread == Some(
            queue_contents(*old(queues))[cpu][0],
        ) && queue_contents(*final(queues)) == queue_contents(*old(queues)).insert(
            cpu,
            queue_contents(*old(queues))[cpu].skip(1),
        ),
{
    queues.queues[&cpu].pop()
}

/// Calls `crossbeam::queue::SegQueue::push` on the queue that `hashbrown::HashMap::index`
/// gives for the key: the element joins the queue at its tail. The index panics without a
/// value for the key.
#[verifier::external_body]
fn run_queue_push(queues: &mut RunQueues, cpu: CpuId, thread: ThreadId)
    requires
        queue_contents(*old(queues)).dom().contains(cpu),
    ensures
        queue_contents(*final(queues)) == queue_contents(*old(queues)).insert(
            cpu,
            queue_contents(*old(queues))[cpu].push(thread),
        ),
{
    queues.queues[&cpu].push(thread)
}

/// Calls `hashbrown::HashMap::new`, which makes an empty map.
#[verifier::external_body]
fn new_current_threads() -> (threads: CurrentThreads)
    ensures
        current_contents(threads) == no_threads(),
{
    CurrentThreads { threads: HashMap::new() }
}

/// Calls `hashbrown::HashMap::insert`: the map then holds the value for the key, and what
/// it held for the key before is returned.
#[verifier::external_body]
fn set_current_thread(threads: &mut CurrentThreads, cpu: CpuId, thread: ThreadId) -> (previous:
    Option<ThreadId>)
    ensures
        current_contents(*final(threads)) == current_contents(*old(threads)).insert(cpu, thread),
        current_contents(*old(threads)).dom().contains(cpu) ==> previous == Some(
            current_contents(*old(threads))[cpu],
        ),
        !current_contents(*old(threads)).dom().contains(cpu) ==> previous is None,
{
    threads.threads.insert(cpu, thread)
}

/// Calls `hashbrown::HashMap::get`, which gives the value that the map holds for the key,
/// if any.
#[verifier::external_body]
fn get_current_thread(threads: &CurrentThreads, cpu: CpuId) -> (thread: Option<ThreadId>)
    ensures
        current_contents(*threads).dom().contains(cpu) ==> thread == Some(
            current_contents(*threads)[cpu],
        ),
        !current_contents(*threads).dom().contains(cpu) ==> thread is None,
{
    threads.threads.get(&cpu).copied()
}

/// The index of the first thread in `queue` that `running` holds of, or the length of
/// `queue` if there is none.
pub open spec fn first_running(queue: Seq<ThreadId>, running: spec_fn(ThreadId) -> bool) -> int
    decreases queue.len(),
{
    if queue.len() == 0 {
        0
    } else if running(queue[0]) {
        0
    } else {
        1 + first_running(queue.skip(1), running)
    }
}

/// What a time slice does to the queue of a CPU and to its current thread, where `running`
/// says which threads are running.
///
/// The first running thread of the queue becomes the current thread; the threads before
/// it, which are not running, go to the tail of the queue in their order, and the thread
/// that was current goes behind them. Without a running thread in the queue, nothing
/// changes.
pub open spec fn next_slice(
    queue: Seq<ThreadId>,
    current: ThreadId,
    running: spec_fn(ThreadId) -> bool,
) -> (Seq<ThreadId>, ThreadId) {
    let first = first_running(queue, running);
    if first < queue.len() {
        (queue.skip(first + 1) + queue.take(first) + seq![current], queue[first])
    } else {
        (queue, current)
    }
}

/// What `count` time slices in a row do to the queue of a CPU and to its current thread.
pub open spec fn next_slices(
    queue: Seq<ThreadId>,
    current: ThreadId,
    running: spec_fn(ThreadId) -> bool,
    count: nat,
) -> (Seq<ThreadId>, ThreadId)
    decreases count,
{
    if count == 0 {
        (queue, current)
    } else {
        let before = next_slices(queue, current, running, (count - 1) as nat);
        next_slice(before.0, before.1, running)
    }
}

/// The first running thread of a queue is running, and the threads before it are not.
pub proof fn lemma_first_running(queue: Seq<ThreadId>, running: spec_fn(ThreadId) -> bool)
    ensures
        0 <= first_running(queue, running) <= queue.len(),
        first_running(queue, running) < queue.len() ==> running(
            queue[first_running(queue, running)],
        ),
        forall|i: int| 0 <= i < first_running(queue, running) ==> !running(queue[i]),
    decreases queue.len(),
{
    if queue.len() > 0 && !running(queue[0]) {
        lemma_first_running(queue.skip(1), running);
        assert forall|i: int| 0 <= i < first_running(queue, running) implies !running(
            queue[i],
        ) by {
            if i > 0 {
                assert(queue.skip(1)[i - 1] == queue[i]);
            }
        }
    }
}

/// An index at which a thread is running and before which no thread is running is the
/// index of the first running thread.
pub proof fn lemma_first_running_is(
    queue: Seq<ThreadId>,
    running: spec_fn(ThreadId) -> bool,
    index: int,
)
    requires
        0 <= index <= queue.len(),
        index < queue.len() ==> running(queue[index]),
        forall|i: int| 0 <= i < index ==> !running(queue[i]),
    ensures
        first_running(queue, running) == index,
{
    lemma_first_running(queue, running);
    let found = first_running(queue, running);
    if found < index {
        assert(!running(queue[found]));
    } else if found > index {
        assert(!running(queue[index]));
    }
}

/// One time slice of a queue of running threads: with only running threads in the queue,
/// the head of the queue becomes current and the thread that was current goes to the tail.
pub proof fn lemma_round_robin_step(
    queue: Seq<ThreadId>,
    current: ThreadId,
    running: spec_fn(ThreadId) -> bool,
)
    requires
        queue.len() > 0,
        running(queue[0]),
    ensures
        next_slice(queue, current, running) == (queue.skip(1).push(current), queue[0]),
{
    lemma_first_running_is(queue, running, 0);
    assert(queue.skip(1) + queue.take(0) + seq![current] =~= queue.skip(1).push(current));
}

/// Running threads take turns: with `k` running threads in the queue and a running current
/// thread, `count` time slices, for `count` up to `k`, make the threads of the queue
/// current one after the other in the order of the queue, and `k + 1` time slices bring
/// the CPU back to where it was.
pub proof fn lemma_round_robin(
    queue: Seq<ThreadId>,
    current: ThreadId,
    running: spec_fn(ThreadId) -> bool,
    count: nat,
)
    requires
        running(current),
        forall|i: int| 0 <= i < queue.len() ==> running(#[trigger] queue[i]),
        1 <= count <= queue.len() + 1,
    ensures
        count <= queue.len() ==> next_slices(queue, current, running, count) == (
            queue.skip(count as int) + seq![current] + queue.take(count - 1),
            queue[count - 1],
        ),
        count == queue.len() + 1 ==> next_slices(queue, current, running, count) == (
            queue,
            current,
        ),
    decreases count,
{
    if queue.len() == 0 {
        lemma_first_running_is(queue, running, 0);
        assert(next_slices(queue, current, running, 0) == (queue, current));
    } else if count == 1 {
        lemma_round_robin_step(queue, current, running);
        assert(next_slices(queue, current, running, 0) == (queue, current));
        assert(queue.skip(1) + seq![current] + queue.take(0) =~= queue.skip(1).push(current));
    } else {
        lemma_round_robin(queue, current, running, (count - 1) as nat);
        let before = next_slices(queue, current, running, (count - 1) as nat);
        let n = (count - 1) as int;
        assert(before.0 == queue.skip(n) + seq![current] + queue.take(n - 1));
        assert(before.0.len() > 0);
        if count <= queue.len() {
            assert(before.0[0] == queue[n]);
            lemma_round_robin_step(before.0, before.1, running);
            assert(before.0.skip(1).push(before.1) =~= queue.skip(count as int) + seq![current]
                + queue.take(count - 1));
        } else {
            assert(before.0[0] == current);
            lemma_round_robin_step(before.0, before.1, running);
            assert(before.0.skip(1).push(before.1) =~= queue);
        }
    }
}

/// A time slice drops no thread, blocked or not. The threads of the
/// queue and the current thread are the same threads before and after, each as often.
pub proof fn lemma_slice_keeps_threads(
    queue: Seq<ThreadId>,
    current: ThreadId,
    running: spec_fn(ThreadId) -> bool,
)
    ensures
        next_slice(queue, current, running).0.push(
            next_slice(queue, current, running).1,
        ).to_multiset() == queue.push(current).to_multiset(),
        first_running(queue, running) < queue.len() ==> running(
            next_slice(queue, current, running).1,
        ),
{
    lemma_first_running(queue, running);
    let first = first_running(queue, running);
    if first < queue.len() {
        let after = next_slice(queue, current, running);
        let a = queue.take(first);
        let b = seq![queue[first]];
        let c = queue.skip(first + 1);
        let d = seq![current];
        assert(queue.push(current) =~= a + b + c + d);
        assert(after.0.push(after.1) =~= c + a + d + b);
        vstd::seq_lib::lemma_multiset_commutative(a + b + c, d);
        vstd::seq_lib::lemma_multiset_commutative(a + b, c);
        vstd::seq_lib::lemma_multiset_commutative(a, b);
        vstd::seq_lib::lemma_multiset_commutative(c + a + d, b);
        vstd::seq_lib::lemma_multiset_commutative(c + a, d);
        vstd::seq_lib::lemma_multiset_commutative(c, a);
        assert((a + b + c + d).to_multiset() =~= (c + a + d + b).to_multiset());
    }
}

/// The places of a CPU: the threads of its queue, from the head on, and behind them its
/// current thread.
pub open spec fn places_of(
    queues: Map<CpuId, Seq<ThreadId>>,
    currents: Map<CpuId, ThreadId>,
    cpu: CpuId,
) -> Seq<ThreadId> {
    queues[cpu].push(currents[cpu])
}

/// Whether the thread `thread` has a place: whether it is in the queue of a CPU or the
/// current thread of a CPU.
pub open spec fn placed(
    queues: Map<CpuId, Seq<ThreadId>>,
    currents: Map<CpuId, ThreadId>,
    thread: ThreadId,
) -> bool {
    exists|cpu: CpuId|
        queues.dom().contains(cpu) && (#[trigger] places_of(queues, currents, cpu)).contains(
            thread,
        )
}

/// Whether each thread is in one place at most: no thread is twice among the places of a
/// CPU, and no thread is among the places of two CPUs.
pub open spec fn in_one_place(
    queues: Map<CpuId, Seq<ThreadId>>,
    currents: Map<CpuId, ThreadId>,
) -> bool {
    &&& forall|cpu: CpuId|
        queues.dom().contains(cpu) ==> (#[trigger] places_of(queues, currents, cpu)).no_duplicates()
    &&& forall|first: CpuId, second: CpuId, thread: ThreadId|
        queues.dom().contains(first) && queues.dom().contains(second) && first != second
            && #[trigger] places_of(queues, currents, first).contains(thread)
            ==> !#[trigger] places_of(queues, currents, second).contains(thread)
}

/// A time slice moves no thread to or from the places of a CPU: the threads that have a
/// place are the same before and after, and each is in one place at most after the time
/// slice if it was before.
pub proof fn lemma_slice_keeps_places(
    queues: Map<CpuId, Seq<ThreadId>>,
    currents: Map<CpuId, ThreadId>,
    cpu: CpuId,
    running: spec_fn(ThreadId) -> bool,
)
    requires
        queues.dom().contains(cpu),
    ensures
        ({
            let next = next_slice(queues[cpu], currents[cpu], running);
            let after_queues = queues.insert(cpu, next.0);
            let after_currents = currents.insert(cpu, next.1);
            &&& forall|thread: ThreadId|
                placed(after_queues, after_currents, thread) == placed(queues, currents, thread)
            &&& in_one_place(queues, currents) ==> in_one_place(after_queues, after_currents)
        }),
{
    let next = next_slice(queues[cpu], currents[cpu], running);
    let after_queues = queues.insert(cpu, next.0);
    let after_currents = currents.insert(cpu, next.1);
    let before = places_of(queues, currents, cpu);
    let after = places_of(after_queues, after_currents, cpu);
    lemma_slice_keeps_threads(queues[cpu], currents[cpu], running);
    before.to_multiset_ensures();
    after.to_multiset_ensures();
    assert(after =~= next.0.push(next.1));
    assert(after.to_multiset() == before.to_multiset());
    assert forall|thread: ThreadId| after.contains(thread) == before.contains(thread) by {
        assert(after.to_multiset().count(thread) == before.to_multiset().count(thread));
    }
    assert forall|other: CpuId| other != cpu implies #[trigger] places_of(
        after_queues,
        after_currents,
        other,
    ) == places_of(queues, currents, other) by {}
    assert forall|thread: ThreadId|
        placed(after_queues, after_currents, thread) == placed(queues, currents, thread) by {
        if placed(queues, currents, thread) {
            let at = choose|at: CpuId|
                queues.dom().contains(at) && (#[trigger] places_of(queues, currents, at)).contains(
                    thread,
                );
            assert(places_of(after_queues, after_currents, at).contains(thread));
            assert(after_queues.dom().contains(at));
        }
        if placed(after_queues, after_currents, thread) {
            let at = choose|at: CpuId|
                after_queues.dom().contains(at) && (#[trigger] places_of(
                    after_queues,
                    after_currents,
                    at,
                )).contains(thread);
            assert(places_of(queues, currents, at).contains(thread));
            assert(queues.dom().contains(at));
        }
    }
    if in_one_place(queues, currents) {
        assert(before.no_duplicates());
        before.lemma_multiset_has_no_duplicates();
        after.lemma_multiset_has_no_duplicates_conv();
        assert forall|at: CpuId| after_queues.dom().contains(at) implies (#[trigger] places_of(
            after_queues,
            after_currents,
            at,
        )).no_duplicates() by {
            if at != cpu {
                assert(queues.dom().contains(at));
                assert(places_of(queues, currents, at).no_duplicates());
            }
        }
        assert forall|first: CpuId, second: CpuId, thread: ThreadId|
            after_queues.dom().contains(first) && after_queues.dom().contains(second) && first
                != second && #[trigger] places_of(after_queues, after_currents, first).contains(
                thread,
            ) implies !#[trigger] places_of(after_queues, after_currents, second).contains(
            thread,
        ) by {
            assert(queues.dom().contains(first) && queues.dom().contains(second));
            assert(places_of(queues, currents, first).contains(thread));
            assert(!places_of(queues, currents, second).contains(thread));
        }
    }
}

/// A thread without a place that joins the queue of a CPU has a place, and no other
/// thread gains or loses one; each thread is in one place at most afterwards if it was
/// before.
pub proof fn lemma_enqueue_places(
    queues: Map<CpuId, Seq<ThreadId>>,
    currents: Map<CpuId, ThreadId>,
    cpu: CpuId,
    thread: ThreadId,
)
    requires
        queues.dom().contains(cpu),
        !placed(queues, currents, thread),
    ensures
        ({
            let after_queues = queues.insert(cpu, queues[cpu].push(thread));
            &&& forall|other: ThreadId|
                placed(after_queues, currents, other) == (other == thread || placed(
                    queues,
                    currents,
                    other,
                ))
            &&& in_one_place(queues, currents) ==> in_one_place(after_queues, currents)
        }),
{
    let after_queues = queues.insert(cpu, queues[cpu].push(thread));
    let before = places_of(queues, currents, cpu);
    let after = places_of(after_queues, currents, cpu);
    let length = queues[cpu].len() as int;
    assert(after.len() == before.len() + 1);
    assert forall|i: int| 0 <= i < after.len() implies #[trigger] after[i] == (if i < length {
        before[i]
    } else if i == length {
        thread
    } else {
        before[length]
    }) by {}
    assert forall|other: ThreadId| after.contains(other) == (other == thread || before.contains(
        other,
    )) by {
        if after.contains(other) {
            let i = choose|i: int| 0 <= i < after.len() && after[i] == other;
            if i < length {
                assert(before[i] == other);
            } else if i > length {
                assert(before[length] == other);
            }
        }
        if before.contains(other) {
            let i = choose|i: int| 0 <= i < before.len() && before[i] == other;
            if i < length {
                assert(after[i] == other);
            } else {
                assert(after[length + 1] == other);
            }
        }
        assert(after[length] == thread);
    }
    assert forall|at: CpuId| at != cpu implies #[trigger] places_of(after_queues, currents, at)
        == places_of(queues, currents, at) by {}
    assert forall|other: ThreadId|
        placed(after_queues, currents, other) == (other == thread || placed(
            queues,
            currents,
            other,
        )) by {
        if placed(queues, currents, other) {
            let at = choose|at: CpuId|
                queues.dom().contains(at) && (#[trigger] places_of(queues, currents, at)).contains(
                    other,
                );
            assert(places_of(after_queues, currents, at).contains(other));
            assert(after_queues.dom().contains(at));
        }
        if placed(after_queues, currents, other) && other != thread {
            let at = choose|at: CpuId|
                after_queues.dom().contains(at) && (#[trigger] places_of(
                    after_queues,
                    currents,
                    at,
                )).contains(other);
            assert(places_of(queues, currents, at).contains(other));
            assert(queues.dom().contains(at));
        }
        assert(places_of(after_queues, currents, cpu).contains(thread));
        assert(after_queues.dom().contains(cpu));
    }
    if in_one_place(queues, currents) {
        assert(!before.contains(thread));
        assert(before.no_duplicates());
        assert forall|i: int, j: int|
            0 <= i < after.len() && 0 <= j < after.len() && i != j implies after[i]
            != after[j] by {
            let a = if i < length {
                i
            } else {
                length
            };
            let b = if j < length {
                j
            } else {
                length
            };
            if i != length && j != length {
                assert(before[a] != before[b]);
            } else if i == length {
                assert(before.contains(before[b]));
            } else {
                assert(before.contains(before[a]));
            }
        }
        assert forall|at: CpuId| after_queues.dom().contains(at) implies (#[trigger] places_of(
            after_queues,
            currents,
            at,
        )).no_duplicates() by {
            if at != cpu {
                assert(queues.dom().contains(at));
                assert(places_of(queues, currents, at).no_duplicates());
            }
        }
        assert forall|first: CpuId, second: CpuId, other: ThreadId|
            after_queues.dom().contains(first) && after_queues.dom().contains(second) && first
                != second && #[trigger] places_of(after_queues, currents, first).contains(
                other,
            ) implies !#[trigger] places_of(after_queues, currents, second).contains(other) by {
            assert(queues.dom().contains(first) && queues.dom().contains(second));
            if other == thread {
                if first == cpu {
                    assert(!placed(queues, currents, thread));
                    assert(!places_of(queues, currents, second).contains(thread));
                } else {
                    assert(places_of(queues, currents, first).contains(thread));
                    assert(placed(queues, currents, thread));
                }
            } else {
                assert(places_of(queues, currents, first).contains(other));
                assert(!places_of(queues, currents, second).contains(other));
            }
        }
    }
}

/// A simple round-robin thread scheduler.
pub struct RoundRobinScheduler {
    queues: RunQueues,
    current_threads: CurrentThreads,
    placed: Vec<ThreadId>,
}

/// The queues and the current threads of a scheduler for the CPUs `cpus`, each with its
/// idle thread: each CPU has an empty queue and its idle thread as current thread. Of two
/// entries for one CPU the later one counts.
pub open spec fn initial_state(cpus: Seq<(CpuId, ThreadId)>) -> (
    Map<CpuId, Seq<ThreadId>>,
    Map<CpuId, ThreadId>,
)
    decreases cpus.len(),
{
    if cpus.len() == 0 {
        (Map::empty(), Map::empty())
    } else {
        let before = initial_state(cpus.drop_last());
        (before.0.insert(cpus.last().0, Seq::empty()), before.1.insert(cpus.last().0, cpus.last().1))
    }
}

/// What the initial state holds: a queue and a current thread for the CPU of each entry
/// and for no other; each queue is empty, and the current thread of a CPU is the idle
/// thread of an entry for that CPU.
pub proof fn lemma_initial_state(cpus: Seq<(CpuId, ThreadId)>)
    ensures
        initial_state(cpus).0.dom() =~= initial_state(cpus).1.dom(),
        forall|i: int|
            0 <= i < cpus.len() ==> initial_state(cpus).0.dom().contains((#[trigger] cpus[i]).0),
        forall|cpu: CpuId| #[trigger]
            initial_state(cpus).0.dom().contains(cpu) ==> initial_state(cpus).0[cpu].len() == 0
                && exists|i: int|
                0 <= i < cpus.len() && (#[trigger] cpus[i]).0 == cpu && cpus[i].1 == initial_state(
                    cpus,
                ).1[cpu],
    decreases cpus.len(),
{
    if cpus.len() > 0 {
        let before = cpus.drop_last();
        let last = cpus.len() - 1;
        lemma_initial_state(before);
        assert forall|i: int| 0 <= i < cpus.len() implies initial_state(cpus).0.dom().contains(
            (#[trigger] cpus[i]).0,
        ) by {
            if i < last {
                assert(before[i] == cpus[i]);
            }
        }
        assert forall|cpu: CpuId| #[trigger]
            initial_state(cpus).0.dom().contains(cpu) implies initial_state(cpus).0[cpu].len() == 0
            && exists|i: int|
            0 <= i < cpus.len() && (#[trigger] cpus[i]).0 == cpu && cpus[i].1 == initial_state(
                cpus,
            ).1[cpu] by {
            if cpu == cpus.last().0 {
                assert(cpus[last].0 == cpu && cpus[last].1 == initial_state(cpus).1[cpu]);
            } else {
                assert(initial_state(before).0.dom().contains(cpu));
                let i = choose|i: int|
                    0 <= i < before.len() && (#[trigger] before[i]).0 == cpu && before[i].1
                        == initial_state(before).1[cpu];
                assert(cpus[i] == before[i]);
                assert(cpus[i].0 == cpu && cpus[i].1 == initial_state(cpus).1[cpu]);
            }
        }
    }
}

/// In the initial state for idle threads that differ from each other each thread is in
/// one place at most.
pub proof fn lemma_initial_places(cpus: Seq<(CpuId, ThreadId)>)
    requires
        forall|i: int, j: int| 0 <= i < j < cpus.len() ==> cpus[i].1 != cpus[j].1,
    ensures
        in_one_place(initial_state(cpus).0, initial_state(cpus).1),
{
    let queues = initial_state(cpus).0;
    let currents = initial_state(cpus).1;
    lemma_initial_state(cpus);
    assert forall|cpu: CpuId| queues.dom().contains(cpu) implies #[trigger] places_of(
        queues,
        currents,
        cpu,
    ) =~= seq![currents[cpu]] by {}
    assert forall|first: CpuId, second: CpuId, thread: ThreadId|
        queues.dom().contains(first) && queues.dom().contains(second) && first != second
            && #[trigger] places_of(queues, currents, first).contains(
            thread,
        ) implies !#[trigger] places_of(queues, currents, second).contains(thread) by {
        let i = choose|i: int|
            0 <= i < cpus.len() && (#[trigger] cpus[i]).0 == first && cpus[i].1 == currents[first];
        let j = choose|j: int|
            0 <= j < cpus.len() && (#[trigger] cpus[j]).0 == second && cpus[j].1
                == currents[second];
        assert(places_of(queues, currents, first)[0] == currents[first]);
        assert(places_of(queues, currents, second)[0] == currents[second]);
        assert(i != j);
        if i < j {
            assert(cpus[i].1 != cpus[j].1);
        } else {
            assert(cpus[j].1 != cpus[i].1);
        }
    }
}

impl RoundRobinScheduler {
    /// The queue of each CPU, with the head of the queue first.
    pub closed spec fn queues(&self) -> Map<CpuId, Seq<ThreadId>> {
        queue_contents(self.queues)
    }

    /// The current thread of each CPU.
    pub closed spec fn current_threads(&self) -> Map<CpuId, ThreadId> {
        current_contents(self.current_threads)
    }

    /// The places of the CPU `cpu`: the threads of its queue, from the head on, and behind
    /// them its current thread.
    pub open spec fn places(&self, cpu: CpuId) -> Seq<ThreadId> {
        places_of(self.queues(), self.current_threads(), cpu)
    }

    /// Whether the scheduler holds the thread `thread`: whether it is in the queue of a CPU
    /// or the current thread of a CPU.
    pub open spec fn holds(&self, thread: ThreadId) -> bool {
        placed(self.queues(), self.current_threads(), thread)
    }

    /// Whether each thread that the scheduler holds is in exactly one place: in one queue
    /// once, or the current thread of one CPU.
    pub open spec fn each_in_one_place(&self) -> bool {
        in_one_place(self.queues(), self.current_threads())
    }

    /// Whether the scheduler's list of its threads names the threads that it holds.
    pub closed spec fn lists_its_threads(&self) -> bool {
        forall|thread: ThreadId| self.placed@.contains(thread) <==> self.holds(thread)
    }

    /// The invariant of the scheduler: the CPUs that have a queue are those that have a
    /// current thread, and the scheduler's list of its threads names the threads that it
    /// holds.
    pub open spec fn well_formed(&self) -> bool {
        &&& self.queues().dom() =~= self.current_threads().dom()
        &&& self.lists_its_threads()
    }

    /// Create a new scheduler.
    ///
    /// The vector `cpus` contains a set of CPU id, idle thread pairs for each core in the
    /// system. Each idle thread must be distinct, and will run first: where the idle
    /// threads differ from each other, each thread of the scheduler is in exactly one
    /// place.
    pub fn new(cpus: Vec<(CpuId, ThreadId)>) -> (scheduler: Self)
        ensures
            scheduler.well_formed(),
            (scheduler.queues(), scheduler.current_threads()) == initial_state(cpus@),
            (forall|i: int, j: int| 0 <= i < j < cpus@.len() ==> cpus@[i].1 != cpus@[j].1)
                ==> scheduler.each_in_one_place(),
    {
        let mut queues = new_run_queues();
        let mut current_threads = new_current_threads();
        let mut i: usize = 0;
        while i < cpus.len()
            invariant
                i <= cpus@.len(),
                (queue_contents(queues), current_contents(current_threads)) == initial_state(
                    cpus@.take(i as int),
                ),
                queue_contents(queues).dom() =~= current_contents(current_threads).dom(),
            decreases cpus@.len() - i,
        {
            let (cpu, idle_thread) = cpus[i];
            add_run_queue(&mut queues, cpu);
            let _previous = set_current_thread(&mut current_threads, cpu, idle_thread);
            proof {
                let upto = cpus@.take(i as int + 1);
                assert(upto.drop_last() =~= cpus@.take(i as int));
                assert(upto.last() == cpus@[i as int]);
            }
            i = i + 1;
        }
        proof {
            assert(cpus@.take(cpus@.len() as int) =~= cpus@);
            lemma_initial_state(cpus@);
        }
        let ghost all_queues = queue_contents(queues);
        let ghost currents = current_contents(current_threads);
        let mut listed: Vec<ThreadId> = Vec::new();
        let mut i: usize = 0;
        while i < cpus.len()
            invariant
                i <= cpus@.len(),
                currents == current_contents(current_threads),
                forall|thread: ThreadId|
                    listed@.contains(thread) <==> exists|j: int|
                        0 <= j < i && currents.dom().contains((#[trigger] cpus@[j]).0)
                            && currents[cpus@[j].0] == thread && cpus@[j].1 == thread,
            decreases cpus@.len() - i,
        {
            let (cpu, idle_thread) = cpus[i];
            let ghost before = listed@;
            if get_current_thread(&current_threads, cpu) == Some(idle_thread) {
                listed.push(idle_thread);
                proof {
                    assert(listed@.last() == idle_thread);
                    assert forall|thread: ThreadId| listed@.contains(thread) implies exists|j: int|
                        0 <= j < i + 1 && currents.dom().contains((#[trigger] cpus@[j]).0)
                            && currents[cpus@[j].0] == thread && cpus@[j].1 == thread by {
                        let at = choose|at: int| 0 <= at < listed@.len() && listed@[at] == thread;
                        if at < before.len() {
                            assert(before[at] == thread);
                            assert(before.contains(thread));
                        } else {
                            assert(currents.dom().contains(cpus@[i as int].0));
                            assert(currents[cpus@[i as int].0] == thread && cpus@[i as int].1
                                == thread);
                        }
                    }
                    assert forall|thread: ThreadId|
                        (exists|j: int|
                            0 <= j < i + 1 && currents.dom().contains((#[trigger] cpus@[j]).0)
                                && currents[cpus@[j].0] == thread && cpus@[j].1
                                == thread) implies listed@.contains(thread) by {
                        let j = choose|j: int|
                            0 <= j < i + 1 && currents.dom().contains((#[trigger] cpus@[j]).0)
                                && currents[cpus@[j].0] == thread && cpus@[j].1 == thread;
                        if j < i {
                            assert(before.contains(thread));
                            let at = choose|at: int| 0 <= at < before.len() && before[at] == thread;
                            assert(listed@[at] == thread);
                        } else {
                            assert(listed@[listed@.len() - 1] == thread);
                        }
                    }
                }
            } else {
                proof {
                    assert forall|thread: ThreadId|
                        (exists|j: int|
                            0 <= j < i + 1 && currents.dom().contains((#[trigger] cpus@[j]).0)
                                && currents[cpus@[j].0] == thread && cpus@[j].1
                                == thread) implies listed@.contains(thread) by {
                        let j = choose|j: int|
                            0 <= j < i + 1 && currents.dom().contains((#[trigger] cpus@[j]).0)
                                && currents[cpus@[j].0] == thread && cpus@[j].1 == thread;
                        assert(j < i);
                    }
                }
            }
            i = i + 1;
        }
        let scheduler = RoundRobinScheduler { queues, current_threads, placed: listed };
        proof {
            assert forall|cpu: CpuId| all_queues.dom().contains(cpu) implies #[trigger] places_of(
                all_queues,
                currents,
                cpu,
            ) =~= seq![currents[cpu]] by {}
            assert forall|thread: ThreadId| scheduler.placed@.contains(thread) implies placed(
                all_queues,
                currents,
                thread,
            ) by {
                let j = choose|j: int|
                    0 <= j < cpus@.len() && currents.dom().contains((#[trigger] cpus@[j]).0)
                        && currents[cpus@[j].0] == thread && cpus@[j].1 == thread;
                assert(all_queues.dom().contains(cpus@[j].0));
                assert(places_of(all_queues, currents, cpus@[j].0)[0] == thread);
            }
            assert forall|thread: ThreadId|
                placed(all_queues, currents, thread) implies scheduler.placed@.contains(
                thread,
            ) by {
                let cpu = choose|cpu: CpuId|
                    all_queues.dom().contains(cpu) && (#[trigger] places_of(
                        all_queues,
                        currents,
                        cpu,
                    )).contains(thread);
                assert(places_of(all_queues, currents, cpu)[0] == currents[cpu]);
                let j = choose|j: int|
                    0 <= j < cpus@.len() && (#[trigger] cpus@[j]).0 == cpu && cpus@[j].1
                        == currents[cpu];
                assert(currents.dom().contains(cpus@[j].0) && currents[cpus@[j].0] == thread
                    && cpus@[j].1 == thread);
            }
            if forall|i: int, j: int| 0 <= i < j < cpus@.len() ==> cpus@[i].1 != cpus@[j].1 {
                lemma_initial_places(cpus@);
            }
        }
        scheduler
    }

    /// Whether the scheduler holds the thread `thread`.
    pub fn has_thread(&self, thread: ThreadId) -> (has: bool)
        requires
            self.well_formed(),
        ensures
            has == self.holds(thread),
    {
        has_thread(&self.placed, thread)
    }

    /// Whether the scheduler knows the CPU `cpu`.
    pub fn has_cpu(&self, cpu: CpuId) -> (has: bool)
        ensures
            has == self.queues().dom().contains(cpu),
    {
        has_run_queue(&self.queues, cpu)
    }

    /// Get the thread that currently runs on the CPU `cpu`, if the scheduler knows the CPU.
    pub fn current_thread(&self, cpu: CpuId) -> (thread: Option<ThreadId>)
        ensures
            self.current_threads().dom().contains(cpu) ==> thread == Some(
                self.current_threads()[cpu],
            ),
            !self.current_threads().dom().contains(cpu) ==> thread is None,
    {
        get_current_thread(&self.current_threads, cpu)
    }

    /// Puts the thread `thread` at the tail of the queue of the CPU `cpu`. Returns whether
    /// it did: it does so if the scheduler knows the CPU and does not hold the thread
    /// already, and else nothing changes. The thread is the one that the scheduler holds in
    /// addition afterwards, and each thread is in exactly one place if it was before.
    pub fn enqueue(&mut self, cpu: CpuId, thread: ThreadId) -> (queued: bool)
        requires
            old(self).well_formed(),
        ensures
            final(self).well_formed(),
            queued == (old(self).queues().dom().contains(cpu) && !old(self).holds(thread)),
            final(self).current_threads() == old(self).current_threads(),
            queued ==> final(self).queues() == old(self).queues().insert(
                cpu,
                old(self).queues()[cpu].push(thread),
            ),
            !queued ==> final(self).queues() == old(self).queues(),
            forall|other: ThreadId|
                final(self).holds(other) == (old(self).holds(other) || (queued && other
                    == thread)),
            old(self).each_in_one_place() ==> final(self).each_in_one_place(),
    {
        if !has_run_queue(&self.queues, cpu) {
            return false;
        }
        if has_thread(&self.placed, thread) {
            return false;
        }
        let ghost listed = self.placed@;
        proof {
            assert(old(self).lists_its_threads());
            assert(!listed.contains(thread));
            assert(!old(self).holds(thread));
        }
        run_queue_push(&mut self.queues, cpu, thread);
        self.placed.push(thread);
        proof {
            lemma_enqueue_places(old(self).queues(), old(self).current_threads(), cpu, thread);
            assert forall|other: ThreadId| self.placed@.contains(other) == (other == thread
                || listed.contains(other)) by {
                assert(self.placed@.last() == thread);
                if listed.contains(other) {
                    let at = choose|at: int| 0 <= at < listed.len() && listed[at] == other;
                    assert(self.placed@[at] == other);
                }
                if self.placed@.contains(other) && other != thread {
                    let at = choose|at: int|
                        0 <= at < self.placed@.len() && self.placed@[at] == other;
                    assert(listed[at] == other);
                }
            }
            assert forall|other: ThreadId| self.placed@.contains(other) == self.holds(other) by {
                assert(listed.contains(other) == old(self).holds(other));
            }
        }
        true
    }

    /// Update the scheduler for a new time slice on the CPU `cpu`, potentially scheduling a
    /// new current thread. The threads that `threads` holds as running are the running
    /// ones. A CPU that the scheduler does not know is passed over.
    pub fn next_time_slice(&mut self, cpu: CpuId, threads: &HandleMap<Thread>)
        requires
            old(self).well_formed(),
            threads.well_formed(),
        ensures
            final(self).well_formed(),
            !old(self).queues().dom().contains(cpu) ==> final(self).queues() == old(self).queues()
                && final(self).current_threads() == old(self).current_threads(),
            old(self).queues().dom().contains(cpu) ==> {
                let next = next_slice(
                    old(self).queues()[cpu],
                    old(self).current_threads()[cpu],
                    |id: ThreadId| is_running(threads, id),
                );
                &&& final(self).queues() == old(self).queues().insert(cpu, next.0)
                &&& final(self).current_threads() == old(self).current_threads().insert(
                    cpu,
                    next.1,
                )
            },
            forall|thread: ThreadId| final(self).holds(thread) == old(self).holds(thread),
            old(self).each_in_one_place() ==> final(self).each_in_one_place(),
    {
        if !has_run_queue(&self.queues, cpu) {
            return ;
        }
        let ghost queue = self.queues()[cpu];
        let ghost current = self.current_threads()[cpu];
        let ghost running = |id: ThreadId| is_running(threads, id);
        let length = run_queue_len(&self.queues, cpu);
        let mut tried: usize = 0;
        proof {
            assert(queue.skip(0) + queue.take(0) =~= queue);
            assert(self.queues() =~= old(self).queues().insert(cpu, queue));
        }
        while tried < length
            invariant
                tried <= length,
                length == queue.len(),
                queue == old(self).queues()[cpu],
                current == old(self).current_threads()[cpu],
                old(self).queues().dom().contains(cpu),
                old(self).well_formed(),
                running == (|id: ThreadId| is_running(threads, id)),
                threads.well_formed(),
                self.placed == old(self).placed,
                self.current_threads() == old(self).current_threads(),
                self.queues() == old(self).queues().insert(
                    cpu,
                    queue.skip(tried as int) + queue.take(tried as int),
                ),
                forall|i: int| 0 <= i < tried ==> !running(queue[i]),
            decreases length - tried,
        {
            let ghost now = queue.skip(tried as int) + queue.take(tried as int);
            match run_queue_pop(&mut self.queues, cpu) {
                Some(id) => {
                    assert(id == queue[tried as int]);
                    let is_running = match threads.get(id) {
                        Some(thread) => thread.state() == State::Running,
                        None => false,
                    };
                    assert(is_running == running(id));
                    if is_running {
                        let previous = set_current_thread(&mut self.current_threads, cpu, id);
                        let last_thread = match previous {
                            Some(last) => last,
                            None => id,
                        };
                        run_queue_push(&mut self.queues, cpu, last_thread);
                        proof {
                            lemma_first_running_is(queue, running, tried as int);
                            assert(now.skip(1).push(current) =~= queue.skip(tried as int + 1)
                                + queue.take(tried as int) + seq![current]);
                            assert(self.queues() =~= old(self).queues().insert(
                                cpu,
                                next_slice(queue, current, running).0,
                            ));
                            assert(self.current_threads().dom() =~= old(
                                self,
                            ).current_threads().dom());
                            assert(self.current_threads() == old(self).current_threads().insert(
                                cpu,
                                next_slice(queue, current, running).1,
                            ));
                            lemma_slice_keeps_places(
                                old(self).queues(),
                                old(self).current_threads(),
                                cpu,
                                running,
                            );
                            assert forall|thread: ThreadId|
                                self.holds(thread) == old(self).holds(thread) by {}
                            assert forall|thread: ThreadId|
                                self.placed@.contains(thread) == self.holds(thread) by {
                                assert(old(self).placed@.contains(thread) == old(self).holds(
                                    thread,
                                ));
                            }
                        }
                        return ;
                    }
                    run_queue_push(&mut self.queues, cpu, id);
                    proof {
                        assert(now.skip(1).push(id) =~= queue.skip(tried as int + 1) + queue.take(
                            tried as int + 1,
                        ));
                        assert(self.queues() =~= old(self).queues().insert(
                            cpu,
                            queue.skip(tried as int + 1) + queue.take(tried as int + 1),
                        ));
                    }
                },
                None => {
                    proof {
                        assert(false);
                    }
                    return ;
                },
            }
            tried = tried + 1;
        }
        proof {
            lemma_first_running_is(queue, running, queue.len() as int);
            assert(queue.skip(length as int) + queue.take(length as int) =~= queue);
            assert(self.queues() =~= old(self).queues().insert(cpu, queue));
            assert(self.queues() =~= old(self).queues());
            assert forall|thread: ThreadId|
                self.placed@.contains(thread) == self.holds(thread) by {
                assert(old(self).placed@.contains(thread) == old(self).holds(thread));
            }
        }
    }
}

} // verus!
