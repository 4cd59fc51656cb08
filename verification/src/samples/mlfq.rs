//! A multi-level feedback queue scheduler over a table of processes.

#![allow(non_snake_case)]

use vstd::prelude::*;

verus! {

/// A process of the table.
#[derive(Copy, Clone)]
pub struct Process {
    pub id: i32,
    pub burstTime: i32,
    pub priority: i32,
    pub arrivalTime: i32,
    pub isCompleted: i32,
}

/// A queue of processes, given by their index in the process table. It
/// holds ten slots and does not wrap around: the slots from `front` to
/// `rear` hold the queue, and both are -1 when it is empty.
pub struct Queue {
    pub processes: Vec<usize>,
    pub front: i32,
    pub rear: i32,
}

/// A queue as the contracts speak of it.
pub struct QueueModel {
    pub slots: Seq<usize>,
    pub front: i32,
    pub rear: i32,
}

/// The capacity of a queue.
pub const MAX_PROCESSES: i32 = 10;

/// The error of adding to a queue whose last slot is taken.
#[derive(Copy, Clone, Debug, PartialEq, Eq, Structural)]
pub struct QueueFull;

/// Why a scheduler run stops early.
#[derive(Copy, Clone, Debug, PartialEq, Eq, Structural)]
pub enum RunError {
    /// A process found the queue it was to join full.
    QueueFull,
    /// The time or a priority left the range of `i32`.
    Overflow,
}

impl Queue {
    /// The queue as the contracts speak of it.
    pub open spec fn model(&self) -> QueueModel {
        QueueModel { slots: self.processes@, front: self.front, rear: self.rear }
    }
}

impl QueueModel {
    /// The queue has ten slots, and its ends are both -1 or lie in order
    /// within the slots.
    pub open spec fn wf(self) -> bool {
        &&& self.slots.len() == 10
        &&& (self.front == -1 && self.rear == -1) || (0 <= self.front <= self.rear <= 9)
    }

    /// The queued process indices, first to last.
    pub open spec fn contents(self) -> Seq<usize> {
        if self.front == -1 {
            Seq::empty()
        } else {
            self.slots.subrange(self.front as int, self.rear + 1)
        }
    }

    /// Whether another process may be added: the last slot is free.
    pub open spec fn is_full(self) -> bool {
        self.rear == 9
    }

    /// The queue after adding `p` at the end; the queue must not be full.
    pub open spec fn pushed(self, p: usize) -> QueueModel {
        QueueModel {
            slots: self.slots.update(self.rear + 1, p),
            front: if self.front == -1 { 0 } else { self.front },
            rear: (self.rear + 1) as i32,
        }
    }

    /// The queue after taking its first process; the queue must not be empty.
    pub open spec fn popped(self) -> QueueModel {
        if self.front == self.rear {
            QueueModel { slots: self.slots, front: -1i32, rear: -1i32 }
        } else {
            QueueModel { slots: self.slots, front: (self.front + 1) as i32, rear: self.rear }
        }
    }
}

/// Adding a process to a queue that is not full puts it last; taking the
/// first process of a non-empty queue removes it from the front.
pub proof fn lemma_queue_fifo(q: QueueModel, p: usize)
    requires
        q.wf(),
    ensures
        !q.is_full() ==> q.pushed(p).wf() && q.pushed(p).contents() == q.contents().push(p),
        q.contents().len() > 0 ==> q.popped().wf() && q.popped().contents() == q.contents().drop_first(),
        (q.contents().len() == 0) == (q.front == -1),
{
    if !q.is_full() {
        assert(q.pushed(p).contents() =~= q.contents().push(p));
    }
    if q.contents().len() > 0 {
        assert(q.popped().contents() =~= q.contents().drop_first());
    }
}

/// The queue after a sequence of operations: `Some(p)` adds `p`, `None`
/// takes the first process.
pub open spec fn apply_ops(q: QueueModel, ops: Seq<Option<usize>>) -> QueueModel
    decreases ops.len(),
{
    if ops.len() == 0 {
        q
    } else {
        let q1 = apply_ops(q, ops.drop_last());
        match ops.last() {
            Some(p) => q1.pushed(p),
            None => q1.popped(),
        }
    }
}

/// Whether every operation of the sequence can be made: no addition finds
/// the queue full and no removal finds it empty.
pub open spec fn ops_apply(q: QueueModel, ops: Seq<Option<usize>>) -> bool
    decreases ops.len(),
{
    if ops.len() == 0 {
        true
    } else {
        let q1 = apply_ops(q, ops.drop_last());
        &&& ops_apply(q, ops.drop_last())
        &&& match ops.last() {
            Some(_) => !q1.is_full(),
            None => q1.front != -1,
        }
    }
}

/// The processes the operations add, in order.
pub open spec fn added(ops: Seq<Option<usize>>) -> Seq<usize>
    decreases ops.len(),
{
    if ops.len() == 0 {
        Seq::empty()
    } else {
        match ops.last() {
            Some(p) => added(ops.drop_last()).push(p),
            None => added(ops.drop_last()),
        }
    }
}

/// How many removals the operations make.
pub open spec fn removals(ops: Seq<Option<usize>>) -> int
    decreases ops.len(),
{
    if ops.len() == 0 {
        0
    } else {
        removals(ops.drop_last()) + (if ops.last() is None { 1int } else { 0int })
    }
}

/// After operations that can all be made, the queue holds what it held and
/// what was added, less as many from the front as were removed; it is empty
/// exactly when there were as many removals as processes held and added.
pub proof fn lemma_queue_ops(q: QueueModel, ops: Seq<Option<usize>>)
    requires
        q.wf(),
        ops_apply(q, ops),
    ensures
        apply_ops(q, ops).wf(),
        0 <= removals(ops) <= q.contents().len() + added(ops).len(),
        apply_ops(q, ops).contents() == (q.contents() + added(ops)).skip(removals(ops)),
        (apply_ops(q, ops).front == -1) == (removals(ops) == q.contents().len() + added(ops).len()),
    decreases ops.len(),
{
    lemma_queue_fifo(q, 0);
    if ops.len() > 0 {
        let init = ops.drop_last();
        lemma_queue_ops(q, init);
        let q1 = apply_ops(q, init);
        let all1 = q.contents() + added(init);
        match ops.last() {
            Some(p) => {
                lemma_queue_fifo(q1, p);
                assert(added(ops) == added(init).push(p));
                assert(q.contents() + added(ops) =~= all1.push(p));
                assert(all1.push(p).skip(removals(ops)) =~= all1.skip(removals(ops)).push(p));
                lemma_queue_fifo(q1.pushed(p), p);
            },
            None => {
                lemma_queue_fifo(q1, 0);
                assert(all1.skip(removals(init)).drop_first() =~= all1.skip(removals(init) + 1));
                lemma_queue_fifo(q1.popped(), 0);
            },
        }
    }
}

/// The operations that add the given processes, in order.
pub open spec fn push_ops(added: Seq<usize>) -> Seq<Option<usize>> {
    Seq::new(added.len(), |i: int| Some(added[i]))
}

/// `j` removals.
pub open spec fn pop_ops(j: nat) -> Seq<Option<usize>> {
    Seq::new(j, |i: int| None::<usize>)
}

proof fn lemma_pushes_from_empty(q: QueueModel, procs: Seq<usize>, m: int)
    requires
        q.wf(),
        q.front == -1,
        procs.len() <= 10,
        0 <= m <= procs.len(),
    ensures
        ops_apply(q, push_ops(procs.take(m))),
        apply_ops(q, push_ops(procs.take(m))).rear == m - 1,
        added(push_ops(procs.take(m))) == procs.take(m),
        removals(push_ops(procs.take(m))) == 0,
    decreases m,
{
    let ops = push_ops(procs.take(m));
    if m > 0 {
        lemma_pushes_from_empty(q, procs, m - 1);
        let init = push_ops(procs.take(m - 1));
        assert(ops.drop_last() =~= init);
        assert(ops.last() == Some(procs[m - 1]));
        assert(procs.take(m - 1).push(procs[m - 1]) =~= procs.take(m));
    } else {
        assert(ops =~= Seq::<Option<usize>>::empty());
        assert(procs.take(0) =~= Seq::<usize>::empty());
    }
}

proof fn lemma_pops_after_pushes(q: QueueModel, procs: Seq<usize>, t: nat)
    requires
        q.wf(),
        q.front == -1,
        procs.len() <= 10,
        t <= procs.len(),
    ensures
        ops_apply(q, push_ops(procs) + pop_ops(t)),
        added(push_ops(procs) + pop_ops(t)) == procs,
        removals(push_ops(procs) + pop_ops(t)) == t,
    decreases t,
{
    let ops = push_ops(procs) + pop_ops(t);
    if t > 0 {
        lemma_pops_after_pushes(q, procs, (t - 1) as nat);
        let init = push_ops(procs) + pop_ops((t - 1) as nat);
        assert(ops.drop_last() =~= init);
        assert(ops.last() is None);
        lemma_queue_ops(q, init);
        lemma_queue_fifo(q, 0);
    } else {
        assert(ops =~= push_ops(procs));
        assert(procs.take(procs.len() as int) =~= procs);
        lemma_pushes_from_empty(q, procs, procs.len() as int);
    }
}

/// An empty queue to which the processes `procs`, at most ten, are added
/// and from which then `j` of them are taken, `j` no more than were added,
/// can make every operation; it then holds the processes added after the
/// first `j`, and it is empty exactly when `j` is the number added.
pub proof fn lemma_is_empty_after_pushes_and_pops(q: QueueModel, procs: Seq<usize>, j: nat)
    requires
        q.wf(),
        q.front == -1,
        procs.len() <= 10,
        j <= procs.len(),
    ensures
        ops_apply(q, push_ops(procs) + pop_ops(j)),
        apply_ops(q, push_ops(procs) + pop_ops(j)).contents() == procs.skip(j as int),
        (apply_ops(q, push_ops(procs) + pop_ops(j)).front == -1) == (j == procs.len()),
{
    lemma_pops_after_pushes(q, procs, j);
    lemma_queue_ops(q, push_ops(procs) + pop_ops(j));
    lemma_queue_fifo(q, 0);
    assert(q.contents() + procs =~= procs);
}

/// Empties the queue.
pub fn initializeQueue(q: &mut Queue)
    ensures
        final(q).front == -1,
        final(q).rear == -1,
        final(q).processes@ == old(q).processes@,
{
    q.front = -1;
    q.rear = -1;
}

/// 1 when the queue is empty, 0 otherwise.
pub fn isEmpty(q: &Queue) -> (r: i32)
    ensures
        r == (if q.front == -1 { 1i32 } else { 0i32 }),
{
    if q.front == -1 {
        1
    } else {
        0
    }
}

/// Adds process `p` at the end of the queue; `QueueFull` when the last slot
/// is taken, leaving the queue unchanged.
pub fn enqueue(q: &mut Queue, p: usize) -> (r: Result<(), QueueFull>)
    requires
        old(q).model().wf(),
    ensures
        old(q).model().is_full() ==> r is Err && final(q).model() == old(q).model(),
        !old(q).model().is_full() ==> r is Ok && final(q).model() == old(q).model().pushed(p),
{
    if q.rear == MAX_PROCESSES - 1 {
        return Err(QueueFull);
    }
    if isEmpty(q) != 0 {
        q.front = 0;
    }
    q.rear = q.rear + 1;
    q.processes.set(q.rear as usize, p);
    Ok(())
}

/// Takes the first process of the queue; `None` when it is empty.
pub fn dequeue(q: &mut Queue) -> (r: Option<usize>)
    requires
        old(q).model().wf(),
    ensures
        old(q).model().contents().len() == 0 ==> r is None && final(q).model() == old(q).model(),
        old(q).model().contents().len() > 0 ==> r == Some(old(q).model().contents()[0])
            && final(q).model() == old(q).model().popped(),
{
    if isEmpty(q) != 0 {
        return None;
    }
    let p = q.processes[q.front as usize];
    if q.front == q.rear {
        q.rear = -1;
        q.front = q.rear;
    } else {
        q.front = q.front + 1;
    }
    Some(p)
}

/// The three queues, from the highest priority (level 0) to the lowest.
pub struct Scheduler {
    pub queue0: Queue,
    pub queue1: Queue,
    pub queue2: Queue,
}

impl Scheduler {
    /// The queues as the contracts speak of them, level 0 first.
    pub open spec fn models(&self) -> Seq<QueueModel> {
        seq![self.queue0.model(), self.queue1.model(), self.queue2.model()]
    }

    /// Three queues of ten slots each, all empty.
    pub fn new() -> (r: Scheduler)
        ensures
            forall|i: int| 0 <= i < 3 ==> (#[trigger] r.models()[i]).wf() && r.models()[i].contents().len() == 0,
    {
        Scheduler {
            queue0: Queue { processes: vec![0; 10], front: -1, rear: -1 },
            queue1: Queue { processes: vec![0; 10], front: -1, rear: -1 },
            queue2: Queue { processes: vec![0; 10], front: -1, rear: -1 },
        }
    }

    fn is_level_empty(&self, i: i32) -> (r: bool)
        requires
            0 <= i < 3,
        ensures
            r == (self.models()[i as int].front == -1),
    {
        if i == 0 {
            isEmpty(&self.queue0) != 0
        } else if i == 1 {
            isEmpty(&self.queue1) != 0
        } else {
            isEmpty(&self.queue2) != 0
        }
    }

    fn initialize_level(&mut self, i: i32)
        requires
            0 <= i < 3,
            old(self).models()[i as int].slots.len() == 10,
        ensures
            final(self).models() == old(self).models().update(
                i as int,
                QueueModel { slots: old(self).models()[i as int].slots, front: -1i32, rear: -1i32 },
            ),
    {
        if i == 0 {
            initializeQueue(&mut self.queue0);
        } else if i == 1 {
            initializeQueue(&mut self.queue1);
        } else {
            initializeQueue(&mut self.queue2);
        }
        assert(self.models() =~= old(self).models().update(
            i as int,
            QueueModel { slots: old(self).models()[i as int].slots, front: -1i32, rear: -1i32 },
        ));
    }

    fn dequeue_level(&mut self, i: i32) -> (r: Option<usize>)
        requires
            0 <= i < 3,
            old(self).models()[i as int].wf(),
        ensures
            old(self).models()[i as int].contents().len() == 0 ==> r is None && final(self).models()
                == old(self).models(),
            old(self).models()[i as int].contents().len() > 0 ==> r == Some(
                old(self).models()[i as int].contents()[0],
            ) && final(self).models() == old(self).models().update(
                i as int,
                old(self).models()[i as int].popped(),
            ),
    {
        let r = if i == 0 {
            dequeue(&mut self.queue0)
        } else if i == 1 {
            dequeue(&mut self.queue1)
        } else {
            dequeue(&mut self.queue2)
        };
        assert(old(self).models()[i as int].contents().len() > 0 ==> self.models() =~= old(self).models().update(
            i as int,
            old(self).models()[i as int].popped(),
        ));
        assert(old(self).models()[i as int].contents().len() == 0 ==> self.models() =~= old(self).models());
        r
    }

    fn enqueue_level(&mut self, i: i32, p: usize) -> (r: Result<(), QueueFull>)
        requires
            0 <= i < 3,
            old(self).models()[i as int].wf(),
        ensures
            old(self).models()[i as int].is_full() ==> r is Err && final(self).models() == old(self).models(),
            !old(self).models()[i as int].is_full() ==> r is Ok && final(self).models()
                == old(self).models().update(i as int, old(self).models()[i as int].pushed(p)),
    {
        let r = if i == 0 {
            enqueue(&mut self.queue0, p)
        } else if i == 1 {
            enqueue(&mut self.queue1, p)
        } else {
            enqueue(&mut self.queue2, p)
        };
        assert(!old(self).models()[i as int].is_full() ==> self.models() =~= old(self).models().update(
            i as int,
            old(self).models()[i as int].pushed(p),
        ));
        assert(old(self).models()[i as int].is_full() ==> self.models() =~= old(self).models());
        r
    }
}

/// A process made ready to be scheduled: priority 0, not completed.
pub open spec fn made_ready(pr: Process) -> Process {
    Process { priority: 0, isCompleted: 0, ..pr }
}

/// How many processes `initializeScheduler` prepares: all `numProcesses`,
/// but at most eleven, the eleventh being the one that finds the queue full.
pub open spec fn prepared_count(numProcesses: i32) -> int {
    if numProcesses <= 0 {
        0
    } else if numProcesses <= 10 {
        numProcesses as int
    } else {
        11
    }
}

/// Empties the three queues, then makes the first `numProcesses` processes
/// ready and queues them, in order, at level 0. `QueueFull` when there are
/// more than ten: the eleventh is made ready but finds the queue full.
pub fn initializeScheduler(
    queues: &mut Scheduler,
    processes: &mut Vec<Process>,
    numProcesses: i32,
) -> (r: Result<(), QueueFull>)
    requires
        numProcesses <= old(processes)@.len(),
        forall|i: int| 0 <= i < 3 ==> (#[trigger] old(queues).models()[i]).slots.len() == 10,
    ensures
        r is Ok == (numProcesses <= 10),
        forall|i: int| 0 <= i < 3 ==> (#[trigger] final(queues).models()[i]).wf(),
        final(queues).models()[0].contents() == Seq::new(
            (if numProcesses <= 0 { 0 } else if numProcesses <= 10 { numProcesses as int } else { 10 }) as nat,
            |k: int| k as usize,
        ),
        final(queues).models()[0].front == (if numProcesses <= 0 { -1i32 } else { 0i32 }),
        final(queues).models()[0].rear == (if numProcesses <= 0 { -1i32 } else if numProcesses <= 10 {
            (numProcesses - 1) as i32
        } else {
            9i32
        }),
        final(queues).models()[1].front == -1 && final(queues).models()[1].rear == -1,
        final(queues).models()[2].front == -1 && final(queues).models()[2].rear == -1,
        final(queues).models()[1].contents().len() == 0,
        final(queues).models()[2].contents().len() == 0,
        final(processes)@.len() == old(processes)@.len(),
        forall|k: int| 0 <= k < old(processes)@.len() ==> #[trigger] final(processes)@[k] == if k < prepared_count(numProcesses) {
            made_ready(old(processes)@[k])
        } else {
            old(processes)@[k]
        },
{
    let mut i: i32 = 0;
    while i < 3
        invariant
            0 <= i <= 3,
            forall|j: int| 0 <= j < 3 ==> (#[trigger] queues.models()[j]).slots.len() == 10,
            forall|j: int| 0 <= j < i ==> (#[trigger] queues.models()[j]).front == -1 && queues.models()[j].rear == -1,
        decreases 3 - i,
    {
        queues.initialize_level(i);
        i = i + 1;
    }
    let ghost orig = processes@;
    if numProcesses <= 0 {
        assert(queues.models()[0].contents() =~= Seq::<usize>::empty());
        return Ok(());
    }
    let n = numProcesses as usize;
    let mut i_0: usize = 0;
    assert(queues.models()[0].contents() =~= Seq::new(0, |k: int| k as usize));
    while i_0 < n
        invariant
            i_0 <= n,
            n == numProcesses,
            n <= orig.len(),
            orig == old(processes)@,
            i_0 <= 10,
            processes@.len() == orig.len(),
            forall|j: int| 0 <= j < 3 ==> (#[trigger] queues.models()[j]).wf(),
            queues.models()[0].contents() == Seq::new(i_0 as nat, |k: int| k as usize),
            queues.models()[0].rear == i_0 - 1,
            queues.models()[0].front == (if i_0 == 0 { -1i32 } else { 0i32 }),
            queues.models()[1].front == -1 && queues.models()[1].rear == -1,
            queues.models()[2].front == -1 && queues.models()[2].rear == -1,
            queues.models()[1].contents().len() == 0,
            queues.models()[2].contents().len() == 0,
            forall|k: int| 0 <= k < orig.len() ==> #[trigger] processes@[k] == if k < i_0 {
                made_ready(orig[k])
            } else {
                orig[k]
            },
        decreases n - i_0,
    {
        let pr = processes[i_0];
        processes.set(i_0, Process { priority: 0, isCompleted: 0, ..pr });
        assert(forall|k: int| 0 <= k < orig.len() ==> #[trigger] processes@[k] == if k < i_0 + 1 {
            made_ready(orig[k])
        } else {
            orig[k]
        });
        let ghost before = queues.models();
        proof {
            lemma_queue_fifo(before[0], i_0);
        }
        match queues.enqueue_level(0, i_0) {
            Ok(()) => {},
            Err(e) => {
                assert(queues.models()[0].contents() =~= Seq::new(10, |k: int| k as usize));
                return Err(e);
            },
        }
        assert(queues.models()[0].contents() =~= Seq::new((i_0 + 1) as nat, |k: int| k as usize));
        i_0 = i_0 + 1;
    }
    Ok(())
}

/// What the scheduler reports while it runs.
#[derive(Copy, Clone, Debug, PartialEq, Eq, Structural)]
pub enum SchedEvent {
    /// At `time`, process `id` of queue level `queue` runs for `slice` units.
    Running { time: i32, id: i32, queue: i32, slice: i32 },
    /// At `time`, process `id` has completed.
    Completed { time: i32, id: i32 },
    /// At `time`, process `id` moved down to queue level `queue`.
    Moved { time: i32, id: i32, queue: i32 },
}

/// The state of a scheduler run, as the contracts speak of it.
pub struct RunState {
    /// The three queues, level 0 first.
    pub queues: Seq<QueueModel>,
    /// The process table.
    pub procs: Seq<Process>,
    /// The current time.
    pub time: i32,
    /// What has been reported so far.
    pub events: Seq<SchedEvent>,
    /// Whether no process has run in the current round.
    pub all_completed: bool,
    /// Why the run stopped early, if it did.
    pub stopped: Option<RunError>,
}

/// Three queues, each well formed, that hold only indices of the table.
pub open spec fn state_wf(st: RunState) -> bool {
    &&& st.queues.len() == 3
    &&& forall|i: int| 0 <= i < 3 ==> (#[trigger] st.queues[i]).wf()
    &&& forall|i: int, k: int|
        0 <= i < 3 && 0 <= k < st.queues[i].contents().len() ==> #[trigger] st.queues[i].contents()[k]
            < st.procs.len()
}

/// How long a process runs: what remains of its burst, at most 4 units.
pub open spec fn time_slice(pr: Process) -> int {
    if pr.burstTime < 4 {
        pr.burstTime as int
    } else {
        4
    }
}

/// One turn at queue level `i`: the first process of the queue is taken; a
/// completed one is skipped; any other runs for its time slice, then
/// completes when nothing of its burst remains, and otherwise moves down a
/// level (at level 2 it stays) and is queued again. The run stops with
/// `Overflow` where the new time, or a raised priority, leaves `i32`.
pub open spec fn step(st: RunState, i: int) -> RunState {
    let q = st.queues[i];
    let p = q.contents()[0];
    let queues1 = st.queues.update(i, q.popped());
    let pr = st.procs[p as int];
    if pr.isCompleted != 0 {
        RunState { queues: queues1, ..st }
    } else {
        let slice = time_slice(pr);
        let events1 = st.events.push(
            SchedEvent::Running { time: st.time, id: pr.id, queue: i as i32, slice: slice as i32 },
        );
        if !(i32::MIN <= st.time + slice <= i32::MAX) {
            RunState {
                queues: queues1,
                events: events1,
                all_completed: false,
                stopped: Some(RunError::Overflow),
                ..st
            }
        } else {
            let time = (st.time + slice) as i32;
            let burst = (pr.burstTime - slice) as i32;
            if burst <= 0 {
                RunState {
                    queues: queues1,
                    procs: st.procs.update(p as int, Process { burstTime: burst, isCompleted: 1, ..pr }),
                    time,
                    events: events1.push(SchedEvent::Completed { time, id: pr.id }),
                    all_completed: false,
                    stopped: st.stopped,
                }
            } else if i < 2 && pr.priority + 1 > i32::MAX {
                RunState {
                    queues: queues1,
                    procs: st.procs.update(p as int, Process { burstTime: burst, ..pr }),
                    time,
                    events: events1,
                    all_completed: false,
                    stopped: Some(RunError::Overflow),
                }
            } else {
                let pr2 = if i < 2 {
                    Process { burstTime: burst, priority: (pr.priority + 1) as i32, ..pr }
                } else {
                    Process { burstTime: burst, ..pr }
                };
                let target = if i < 2 { i + 1 } else { i };
                let tq = queues1[target];
                if tq.is_full() {
                    RunState {
                        queues: queues1,
                        procs: st.procs.update(p as int, pr2),
                        time,
                        events: events1,
                        all_completed: false,
                        stopped: Some(RunError::QueueFull),
                    }
                } else {
                    RunState {
                        queues: queues1.update(target, tq.pushed(p)),
                        procs: st.procs.update(p as int, pr2),
                        time,
                        events: if i < 2 {
                            events1.push(SchedEvent::Moved { time, id: pr.id, queue: (i + 1) as i32 })
                        } else {
                            events1
                        },
                        all_completed: false,
                        stopped: st.stopped,
                    }
                }
            }
        }
    }
}

/// What a queued process weighs towards the end of a level: what is left of
/// its burst, and one more for each turn.
pub open spec fn entry_weight(pr: Process) -> nat {
    if pr.isCompleted != 0 {
        1
    } else if pr.burstTime > 0 {
        (pr.burstTime + 2) as nat
    } else {
        2
    }
}

/// The total weight of the queued processes.
pub open spec fn weight(entries: Seq<usize>, procs: Seq<Process>) -> nat
    decreases entries.len(),
{
    if entries.len() == 0 {
        0
    } else {
        entry_weight(procs[entries[0] as int]) + weight(entries.drop_first(), procs)
    }
}

/// The weight of the queue at level `i`.
pub open spec fn level_weight(st: RunState, i: int) -> nat {
    weight(st.queues[i].contents(), st.procs)
}

proof fn lemma_weight_push(entries: Seq<usize>, procs: Seq<Process>, x: usize)
    ensures
        weight(entries.push(x), procs) == weight(entries, procs) + entry_weight(procs[x as int]),
    decreases entries.len(),
{
    if entries.len() > 0 {
        assert(entries.push(x).drop_first() =~= entries.drop_first().push(x));
        assert(entries.push(x)[0] == entries[0]);
        lemma_weight_push(entries.drop_first(), procs, x);
    } else {
        assert(entries.push(x).drop_first() =~= Seq::<usize>::empty());
        assert(entries.push(x)[0] == x);
        assert(weight(entries.push(x).drop_first(), procs) == 0);
    }
}

proof fn lemma_weight_lighter(entries: Seq<usize>, procs: Seq<Process>, p: int, pr2: Process)
    requires
        0 <= p < procs.len(),
        entry_weight(pr2) <= entry_weight(procs[p]),
        forall|k: int| 0 <= k < entries.len() ==> #[trigger] entries[k] < procs.len(),
    ensures
        weight(entries, procs.update(p, pr2)) <= weight(entries, procs),
    decreases entries.len(),
{
    if entries.len() > 0 {
        assert(entries[0] < procs.len());
        assert forall|k: int| 0 <= k < entries.drop_first().len() implies #[trigger] entries.drop_first()[k] < procs.len() by {
            assert(entries.drop_first()[k] == entries[k + 1]);
        }
        lemma_weight_lighter(entries.drop_first(), procs, p, pr2);
    }
}

/// A turn lightens the queue of its level.
proof fn lemma_step_decreases(st: RunState, i: int)
    requires
        state_wf(st),
        0 <= i < 3,
        st.queues[i].front != -1,
    ensures
        level_weight(step(st, i), i) < level_weight(st, i),
{
    let q = st.queues[i];
    lemma_queue_fifo(q, 0);
    let c = q.contents();
    let p = c[0];
    assert(p < st.procs.len());
    let rest = c.drop_first();
    let pr = st.procs[p as int];
    let after = step(st, i);
    assert(weight(c, st.procs) == entry_weight(pr) + weight(rest, st.procs));
    if pr.isCompleted != 0 {
        assert(after.queues[i].contents() == rest);
    } else {
        let slice = time_slice(pr);
        let burst = (pr.burstTime - slice) as i32;
        let pr2 = after.procs[p as int];
        assert(after.procs == st.procs.update(p as int, pr2));
        assert(entry_weight(pr2) <= entry_weight(pr));
        assert forall|k: int| 0 <= k < rest.len() implies #[trigger] rest[k] < st.procs.len() by {
            assert(rest[k] == c[k + 1]);
        }
        lemma_weight_lighter(rest, st.procs, p as int, pr2);
        if after.queues[i].contents() != rest {
            assert(burst > 0 && i == 2 && !q.popped().is_full() && i32::MIN <= st.time + slice <= i32::MAX);
            assert(entry_weight(pr2) + 4 <= entry_weight(pr));
            lemma_queue_fifo(q.popped(), p);
            assert(after.queues[i].contents() == rest.push(p));
            lemma_weight_push(rest, after.procs, p);
        } else {
            assert(after.queues[i].contents() == rest);
        }
    }
}

/// A turn keeps the state well formed, and touches only the queue of its
/// level and the one a moved process joins.
proof fn lemma_step_wf(st: RunState, i: int)
    requires
        state_wf(st),
        0 <= i < 3,
        st.queues[i].front != -1,
    ensures
        state_wf(step(st, i)),
        step(st, i).procs.len() == st.procs.len(),
        forall|k: int| 0 <= k < i ==> #[trigger] step(st, i).queues[k] == st.queues[k],
        st.stopped is Some ==> step(st, i).stopped is Some,
{
    let q = st.queues[i];
    lemma_queue_fifo(q, 0);
    let p = q.contents()[0];
    assert(p < st.procs.len());
    let after = step(st, i);
    let popped = q.popped();
    assert(popped.contents() == q.contents().drop_first());
    let queues1 = st.queues.update(i, popped);
    assert forall|j: int| 0 <= j < 3 implies (#[trigger] queues1[j]).wf() by {}
    assert forall|j: int, k: int| 0 <= j < 3 && 0 <= k < queues1[j].contents().len()
        implies #[trigger] queues1[j].contents()[k] < st.procs.len() by {
        if j == i {
            assert(queues1[j].contents()[k] == q.contents()[k + 1]);
        }
    }
    let target = if i < 2 { i + 1 } else { i };
    let tq = queues1[target];
    if !tq.is_full() {
        lemma_queue_fifo(tq, p);
        let queues2 = queues1.update(target, tq.pushed(p));
        assert forall|j: int, k: int| 0 <= j < 3 && 0 <= k < queues2[j].contents().len()
            implies #[trigger] queues2[j].contents()[k] < st.procs.len() by {
            if j == target {
                assert(queues2[j].contents() == tq.contents().push(p));
                if k < tq.contents().len() {
                    assert(queues2[j].contents()[k] == queues1[j].contents()[k]);
                }
            }
        }
        assert forall|j: int| 0 <= j < 3 implies (#[trigger] queues2[j]).wf() by {}
    }
}

/// The turns at level `i` until its queue is empty or a process finds the
/// queue it joins full.
pub open spec fn drain(st: RunState, i: int) -> RunState
    decreases level_weight(st, i),
    when state_wf(st) && 0 <= i < 3
    via drain_decreases
{
    if st.stopped is Some || st.queues[i].front == -1 {
        st
    } else {
        drain(step(st, i), i)
    }
}

#[via_fn]
proof fn drain_decreases(st: RunState, i: int) {
    if !(st.stopped is Some || st.queues[i].front == -1) {
        lemma_step_decreases(st, i);
    }
}

/// Draining level `i` ends with its queue empty, unless it failed, keeps the
/// state well formed and leaves the levels above alone.
proof fn lemma_drain(st: RunState, i: int)
    requires
        state_wf(st),
        0 <= i < 3,
    ensures
        state_wf(drain(st, i)),
        drain(st, i).procs.len() == st.procs.len(),
        drain(st, i).stopped is Some || drain(st, i).queues[i].front == -1,
        forall|k: int| 0 <= k < i ==> #[trigger] drain(st, i).queues[k] == st.queues[k],
        st.stopped is Some ==> drain(st, i) == st,
        st.queues[i].front == -1 ==> drain(st, i) == st,
    decreases level_weight(st, i),
{
    if !(st.stopped is Some || st.queues[i].front == -1) {
        lemma_step_decreases(st, i);
        lemma_step_wf(st, i);
        lemma_drain(step(st, i), i);
    }
}

/// The levels from `i` down, each drained in turn.
pub open spec fn drain_rest(st: RunState, i: int) -> RunState
    decreases 3 - i,
{
    if i >= 3 || i < 0 {
        st
    } else {
        drain_rest(drain(st, i), i + 1)
    }
}

proof fn lemma_drain_rest(st: RunState, i: int)
    requires
        state_wf(st),
        0 <= i <= 3,
    ensures
        state_wf(drain_rest(st, i)),
        drain_rest(st, i).procs.len() == st.procs.len(),
        drain_rest(st, i).stopped is None ==> forall|k: int| i <= k < 3 ==> (#[trigger] drain_rest(st, i).queues[k]).front == -1,
        forall|k: int| 0 <= k < i ==> #[trigger] drain_rest(st, i).queues[k] == st.queues[k],
        st.stopped is Some ==> drain_rest(st, i) == st,
        (forall|k: int| i <= k < 3 ==> (#[trigger] st.queues[k]).front == -1) ==> drain_rest(st, i) == st,
    decreases 3 - i,
{
    if i < 3 {
        lemma_drain(st, i);
        let d = drain(st, i);
        lemma_drain_rest(d, i + 1);
        if drain_rest(st, i).stopped is None {
            assert(d.stopped is None) by {
                if d.stopped is Some {
                    lemma_drain_rest(d, i + 1);
                }
            }
        }
    }
}

/// One round: every level drained in turn, starting with no process run.
pub open spec fn pass(st: RunState) -> RunState {
    drain_rest(RunState { all_completed: true, ..st }, 0)
}

/// Whether every queue is empty.
pub open spec fn queues_empty(st: RunState) -> bool {
    forall|k: int| 0 <= k < 3 ==> (#[trigger] st.queues[k]).front == -1
}

proof fn lemma_pass(st: RunState)
    requires
        state_wf(st),
    ensures
        state_wf(pass(st)),
        pass(st).procs.len() == st.procs.len(),
        pass(st).stopped is None ==> queues_empty(pass(st)),
        queues_empty(st) && st.stopped is None ==> pass(st).all_completed && pass(st).stopped is None,
{
    let s0 = RunState { all_completed: true, ..st };
    lemma_drain_rest(s0, 0);
}

/// Rounds until a round in which no process ran, or a failure. The first
/// round empties every queue, so there are at most two.
pub open spec fn run(st: RunState) -> RunState
    decreases (if queues_empty(st) { 0int } else { 1int }),
    when state_wf(st)
    via run_decreases
{
    let s1 = pass(st);
    if s1.stopped is Some || s1.all_completed {
        s1
    } else {
        run(s1)
    }
}

#[via_fn]
proof fn run_decreases(st: RunState) {
    lemma_run_measure(st);
}

/// After a round that ran a process and did not fail, every queue is empty,
/// while before it some queue was not.
proof fn lemma_run_measure(st: RunState)
    requires
        state_wf(st),
    ensures
        !(pass(st).stopped is Some || pass(st).all_completed) ==> queues_empty(pass(st)) && !queues_empty(st),
{
    lemma_pass(st);
    let s1 = pass(st);
    if !(s1.stopped is Some || s1.all_completed) {
        assert(!queues_empty(st) || st.stopped is Some);
        if st.stopped is Some {
            lemma_drain_rest(RunState { all_completed: true, ..st }, 0);
        }
    }
}

/// A run that does not stop early leaves every queue empty, and it ends with
/// a round in which no process ran.
pub proof fn lemma_run_empties_queues(st: RunState)
    requires
        state_wf(st),
    ensures
        run(st).stopped is None ==> queues_empty(run(st)) && run(st).all_completed,
{
    lemma_pass(st);
    let s1 = pass(st);
    if !(s1.stopped is Some || s1.all_completed) {
        lemma_pass(s1);
        assert(run(s1) == pass(s1));
    }
}

/// Process `p` is completed, or waits in some queue.
pub open spec fn done_or_queued(st: RunState, p: int) -> bool {
    ||| st.procs[p].isCompleted != 0
    ||| exists|i: int, k: int|
        0 <= i < 3 && 0 <= k < st.queues[i].contents().len() && #[trigger] st.queues[i].contents()[k] == p
}

proof fn lemma_step_keeps_done_or_queued(st: RunState, i: int, p: int)
    requires
        state_wf(st),
        0 <= i < 3,
        st.queues[i].front != -1,
        0 <= p < st.procs.len(),
        done_or_queued(st, p),
        step(st, i).stopped is None,
    ensures
        done_or_queued(step(st, i), p),
{
    let q = st.queues[i];
    lemma_queue_fifo(q, 0);
    let c = q.contents();
    let f = c[0];
    assert(f < st.procs.len());
    let after = step(st, i);
    let popped = q.popped();
    assert(popped.contents() == c.drop_first());
    let queues1 = st.queues.update(i, popped);
    let pr = st.procs[f as int];
    let target = if i < 2 { i + 1 } else { i };
    let tq = queues1[target];
    lemma_queue_fifo(tq, f);
    assert(after.procs[p].isCompleted != 0 || after.procs[p] == st.procs[p] || p == f);
    if st.procs[p].isCompleted != 0 {
        assert(after.procs[p].isCompleted != 0);
    } else {
        let (i2, k) = choose|i2: int, k: int|
            0 <= i2 < 3 && 0 <= k < st.queues[i2].contents().len() && #[trigger] st.queues[i2].contents()[k] == p;
        if i2 == i && k == 0 {
            if pr.isCompleted == 0 && after.procs[p].isCompleted == 0 {
                assert(after.queues[target] == tq.pushed(f));
                assert(after.queues[target].contents() == tq.contents().push(f));
                assert(after.queues[target].contents()[tq.contents().len() as int] == p);
            }
        } else if i2 == i {
            assert(queues1[i].contents()[k - 1] == p);
            if after.queues[i] == queues1[i] {
                assert(after.queues[i].contents()[k - 1] == p);
            } else {
                assert(after.queues[i].contents() == queues1[i].contents().push(f));
                assert(after.queues[i].contents()[k - 1] == p);
            }
        } else {
            assert(queues1[i2] == st.queues[i2]);
            if after.queues[i2] == queues1[i2] {
                assert(after.queues[i2].contents()[k] == p);
            } else {
                assert(i2 == target);
                assert(after.queues[i2].contents() == queues1[i2].contents().push(f));
                assert(after.queues[i2].contents()[k] == p);
            }
        }
    }
}

proof fn lemma_drain_keeps_done_or_queued(st: RunState, i: int, p: int)
    requires
        state_wf(st),
        0 <= i < 3,
        0 <= p < st.procs.len(),
        done_or_queued(st, p),
    ensures
        drain(st, i).stopped is None ==> done_or_queued(drain(st, i), p),
    decreases level_weight(st, i),
{
    if !(st.stopped is Some || st.queues[i].front == -1) {
        lemma_step_decreases(st, i);
        lemma_step_wf(st, i);
        let next = step(st, i);
        lemma_drain(next, i);
        if next.stopped is None {
            lemma_step_keeps_done_or_queued(st, i, p);
            lemma_drain_keeps_done_or_queued(next, i, p);
        }
    }
}

proof fn lemma_drain_rest_keeps_done_or_queued(st: RunState, i: int, p: int)
    requires
        state_wf(st),
        0 <= i <= 3,
        0 <= p < st.procs.len(),
        done_or_queued(st, p),
    ensures
        drain_rest(st, i).stopped is None ==> done_or_queued(drain_rest(st, i), p),
    decreases 3 - i,
{
    if i < 3 {
        lemma_drain(st, i);
        let d = drain(st, i);
        lemma_drain_rest(d, i + 1);
        if d.stopped is None {
            lemma_drain_keeps_done_or_queued(st, i, p);
            lemma_drain_rest_keeps_done_or_queued(d, i + 1, p);
        }
    }
}

/// A run that does not stop early completes every process that was queued
/// when it started.
pub proof fn lemma_run_completes_queued(st: RunState, p: int)
    requires
        state_wf(st),
        0 <= p < st.procs.len(),
        done_or_queued(st, p),
    ensures
        run(st).stopped is None ==> run(st).procs[p].isCompleted != 0,
{
    let s0 = RunState { all_completed: true, ..st };
    assert(done_or_queued(s0, p) == done_or_queued(st, p));
    lemma_pass(st);
    lemma_drain_rest_keeps_done_or_queued(s0, 0, p);
    let s1 = pass(st);
    if s1.stopped is None {
        assert(done_or_queued(s1, p));
        assert(queues_empty(s1));
        assert(s1.procs[p].isCompleted != 0);
        if !s1.all_completed {
            lemma_pass(s1);
            lemma_drain_rest(RunState { all_completed: true, ..s1 }, 0);
            assert(run(s1) == pass(s1));
            assert(pass(s1).procs == s1.procs);
        }
    }
}

/// The state at the start of a round: no process has run in it yet.
pub open spec fn fresh_round(st: RunState) -> RunState {
    RunState { all_completed: true, ..st }
}

/// `inv` holds after every turn taken from a state where it holds, and at
/// the start of every round.
pub open spec fn kept_by_turns(inv: spec_fn(RunState) -> bool) -> bool {
    &&& forall|st: RunState, i: int|
        #![trigger step(st, i), inv(st)]
        inv(st) && state_wf(st) && 0 <= i < 3 && st.queues[i].front != -1 && st.stopped is None
            ==> inv(step(st, i))
    &&& forall|st: RunState| #![trigger fresh_round(st)] inv(st) ==> inv(fresh_round(st))
}

proof fn lemma_drain_keeps(inv: spec_fn(RunState) -> bool, st: RunState, i: int)
    requires
        kept_by_turns(inv),
        inv(st),
        state_wf(st),
        0 <= i < 3,
    ensures
        inv(drain(st, i)),
    decreases level_weight(st, i),
{
    lemma_drain(st, i);
    if !(st.stopped is Some || st.queues[i].front == -1) {
        lemma_step_decreases(st, i);
        lemma_step_wf(st, i);
        let next = step(st, i);
        assert(inv(next));
        lemma_drain_keeps(inv, next, i);
    }
}

proof fn lemma_drain_rest_keeps(inv: spec_fn(RunState) -> bool, st: RunState, i: int)
    requires
        kept_by_turns(inv),
        inv(st),
        state_wf(st),
        0 <= i <= 3,
    ensures
        inv(drain_rest(st, i)),
    decreases 3 - i,
{
    if i < 3 {
        lemma_drain(st, i);
        lemma_drain_keeps(inv, st, i);
        lemma_drain_rest_keeps(inv, drain(st, i), i + 1);
    }
}

proof fn lemma_run_keeps(inv: spec_fn(RunState) -> bool, st: RunState)
    requires
        kept_by_turns(inv),
        inv(st),
        state_wf(st),
    ensures
        inv(run(st)),
    decreases (if queues_empty(st) { 0int } else { 1int }),
{
    let s0 = fresh_round(st);
    assert(inv(s0));
    lemma_drain_rest_keeps(inv, s0, 0);
    lemma_pass(st);
    lemma_run_measure(st);
    let s1 = pass(st);
    if !(s1.stopped is Some || s1.all_completed) {
        lemma_run_keeps(inv, s1);
    }
}

/// Every queued process index is below `n`.
pub open spec fn queued_below(st: RunState, n: int) -> bool {
    forall|i: int, k: int|
        0 <= i < 3 && 0 <= k < st.queues[i].contents().len() ==> #[trigger] st.queues[i].contents()[k] < n
}

proof fn lemma_step_queued_below(st: RunState, i: int, n: int)
    requires
        state_wf(st),
        queued_below(st, n),
        0 <= i < 3,
        st.queues[i].front != -1,
    ensures
        queued_below(step(st, i), n),
{
    let q = st.queues[i];
    lemma_queue_fifo(q, 0);
    let p = q.contents()[0];
    assert(p < n);
    let popped = q.popped();
    assert(popped.contents() == q.contents().drop_first());
    let queues1 = st.queues.update(i, popped);
    assert forall|j: int, k: int| 0 <= j < 3 && 0 <= k < queues1[j].contents().len()
        implies #[trigger] queues1[j].contents()[k] < n by {
        if j == i {
            assert(queues1[j].contents()[k] == q.contents()[k + 1]);
        }
    }
    let target = if i < 2 { i + 1 } else { i };
    let tq = queues1[target];
    if !tq.is_full() {
        lemma_queue_fifo(tq, p);
        let queues2 = queues1.update(target, tq.pushed(p));
        assert forall|j: int, k: int| 0 <= j < 3 && 0 <= k < queues2[j].contents().len()
            implies #[trigger] queues2[j].contents()[k] < n by {
            if j == target {
                assert(queues2[j].contents() == tq.contents().push(p));
                if k < tq.contents().len() {
                    assert(queues2[j].contents()[k] == queues1[j].contents()[k]);
                }
            }
        }
    }
}

/// The bursts of the first `n` processes added up.
pub open spec fn burst_sum(procs: Seq<Process>, n: int) -> int
    decreases n,
{
    if n <= 0 {
        0
    } else {
        burst_sum(procs, n - 1) + procs[n - 1].burstTime
    }
}

proof fn lemma_burst_sum_update(procs: Seq<Process>, n: int, p: int, pr2: Process)
    requires
        0 <= p < procs.len(),
        n <= procs.len(),
    ensures
        burst_sum(procs.update(p, pr2), n) == burst_sum(procs, n) + (if p < n {
            pr2.burstTime - procs[p].burstTime
        } else {
            0
        }),
    decreases n,
{
    if n > 0 {
        lemma_burst_sum_update(procs, n - 1, p, pr2);
    }
}

proof fn lemma_burst_sum_zero(procs: Seq<Process>, n: int)
    requires
        n <= procs.len(),
        forall|k: int| 0 <= k < n ==> #[trigger] procs[k].burstTime == 0,
    ensures
        burst_sum(procs, n) == 0,
    decreases n,
{
    if n > 0 {
        lemma_burst_sum_zero(procs, n - 1);
    }
}

/// A process still to run has some burst left; a completed one has none.
pub open spec fn settled(pr: Process) -> bool {
    ||| pr.isCompleted == 0 && pr.burstTime >= 1
    ||| pr.isCompleted == 1 && pr.burstTime == 0
}

/// The first `n` processes are settled, they alone are queued, and the time
/// plus what is left of their bursts is `total`.
pub open spec fn burst_inv(st: RunState, n: int, total: int) -> bool {
    &&& 0 <= n <= st.procs.len()
    &&& queued_below(st, n)
    &&& forall|k: int| 0 <= k < n ==> #[trigger] settled(st.procs[k])
    &&& st.time + burst_sum(st.procs, n) == total
}

proof fn lemma_step_burst_inv(st: RunState, i: int, n: int, total: int)
    requires
        state_wf(st),
        burst_inv(st, n, total),
        0 <= i < 3,
        st.queues[i].front != -1,
    ensures
        burst_inv(step(st, i), n, total),
{
    lemma_step_wf(st, i);
    lemma_step_queued_below(st, i, n);
    let q = st.queues[i];
    lemma_queue_fifo(q, 0);
    let p = q.contents()[0];
    assert(p < n);
    let pr = st.procs[p as int];
    assert(settled(pr));
    let after = step(st, i);
    if pr.isCompleted == 0 && i32::MIN <= st.time + time_slice(pr) <= i32::MAX {
        let pr2 = after.procs[p as int];
        assert(after.procs == st.procs.update(p as int, pr2));
        assert(pr2.burstTime == pr.burstTime - time_slice(pr));
        lemma_burst_sum_update(st.procs, n, p as int, pr2);
        assert forall|k: int| 0 <= k < n implies #[trigger] settled(after.procs[k]) by {
            if k != p {
                assert(after.procs[k] == st.procs[k]);
            }
        }
    } else {
        assert(after.procs == st.procs);
    }
}

/// A run that does not stop early ends at the time it started plus the
/// bursts of the first `n` processes, all of them queued and still to run
/// at the start, and each of them completes with nothing left of its burst.
pub proof fn lemma_run_time_is_total_burst(st: RunState, n: int)
    requires
        state_wf(st),
        0 <= n <= st.procs.len(),
        queued_below(st, n),
        forall|k: int| 0 <= k < n ==> (#[trigger] st.procs[k]).isCompleted == 0 && st.procs[k].burstTime >= 1,
        forall|k: int| 0 <= k < n ==> #[trigger] done_or_queued(st, k),
    ensures
        run(st).stopped is None ==> run(st).time == st.time + burst_sum(st.procs, n),
        run(st).stopped is None ==> forall|k: int|
            0 <= k < n ==> (#[trigger] run(st).procs[k]).isCompleted == 1 && run(st).procs[k].burstTime == 0,
{
    let total = st.time + burst_sum(st.procs, n);
    let inv = |s: RunState| burst_inv(s, n, total);
    assert forall|s: RunState, i: int|
        #![trigger step(s, i), inv(s)]
        inv(s) && state_wf(s) && 0 <= i < 3 && s.queues[i].front != -1 && s.stopped is None
            implies inv(step(s, i)) by {
        lemma_step_burst_inv(s, i, n, total);
    }
    assert forall|s: RunState| #![trigger fresh_round(s)] inv(s) implies inv(fresh_round(s)) by {
        assert(queued_below(fresh_round(s), n) == queued_below(s, n));
    }
    assert forall|k: int| 0 <= k < n implies #[trigger] settled(st.procs[k]) by {}
    assert(inv(st));
    lemma_run_keeps(inv, st);
    let fin = run(st);
    assert(burst_inv(fin, n, total));
    if fin.stopped is None {
        assert forall|k: int| 0 <= k < n implies (#[trigger] fin.procs[k]).isCompleted == 1
            && fin.procs[k].burstTime == 0 by {
            lemma_run_completes_queued(st, k);
            assert(settled(fin.procs[k]));
        }
        lemma_burst_sum_zero(fin.procs, n);
    }
}

/// Some queued process has not completed.
pub open spec fn waiting(st: RunState) -> bool {
    exists|i: int, k: int|
        0 <= i < 3 && 0 <= k < st.queues[i].contents().len()
            && st.procs[#[trigger] st.queues[i].contents()[k] as int].isCompleted == 0
}

/// The last report is the completion of a process at time `t`.
pub open spec fn ends_with_completion_at(events: Seq<SchedEvent>, t: int) -> bool {
    events.len() > 0 && (events.last() matches SchedEvent::Completed { time, .. } && time == t)
}

/// The run stopped early, or a queued process has not completed, or the last
/// report is the completion of a process at the current time.
pub open spec fn last_report_inv(st: RunState) -> bool {
    ||| st.stopped is Some
    ||| waiting(st)
    ||| ends_with_completion_at(st.events, st.time as int)
}

proof fn lemma_step_last_report(st: RunState, i: int)
    requires
        state_wf(st),
        last_report_inv(st),
        0 <= i < 3,
        st.queues[i].front != -1,
        st.stopped is None,
    ensures
        last_report_inv(step(st, i)),
{
    let q = st.queues[i];
    lemma_queue_fifo(q, 0);
    let c = q.contents();
    let p = c[0];
    let pr = st.procs[p as int];
    let after = step(st, i);
    let popped = q.popped();
    assert(popped.contents() == c.drop_first());
    let queues1 = st.queues.update(i, popped);
    if pr.isCompleted != 0 {
        if waiting(st) {
            let (i2, k2) = choose|i2: int, k2: int|
                0 <= i2 < 3 && 0 <= k2 < st.queues[i2].contents().len()
                    && st.procs[#[trigger] st.queues[i2].contents()[k2] as int].isCompleted == 0;
            if i2 == i {
                assert(k2 != 0);
                assert(after.queues[i].contents()[k2 - 1] == c[k2]);
                assert(after.procs[after.queues[i].contents()[k2 - 1] as int].isCompleted == 0);
            } else {
                assert(after.queues[i2] == st.queues[i2]);
                assert(after.procs[after.queues[i2].contents()[k2] as int].isCompleted == 0);
            }
        }
    } else if after.stopped is None && !ends_with_completion_at(after.events, after.time as int) {
        let target = if i < 2 { i + 1 } else { i };
        let tq = queues1[target];
        lemma_queue_fifo(tq, p);
        assert(after.queues[target] == tq.pushed(p));
        assert(after.queues[target].contents() == tq.contents().push(p));
        let k = tq.contents().len() as int;
        assert(after.queues[target].contents()[k] == p);
        assert(after.procs[after.queues[target].contents()[k] as int].isCompleted == 0);
    }
}

/// A run that does not stop early, of processes that are all queued and
/// still to run, at least one of them, reports last the completion of a
/// process, at the time the start time and their bursts add up to.
pub proof fn lemma_run_reports_completion_last(st: RunState, n: int)
    requires
        state_wf(st),
        1 <= n <= st.procs.len(),
        queued_below(st, n),
        forall|k: int| 0 <= k < n ==> (#[trigger] st.procs[k]).isCompleted == 0 && st.procs[k].burstTime >= 1,
        forall|k: int| 0 <= k < n ==> #[trigger] done_or_queued(st, k),
    ensures
        run(st).stopped is None ==> ends_with_completion_at(run(st).events, st.time + burst_sum(st.procs, n)),
{
    assert(done_or_queued(st, 0));
    assert(st.procs[0].isCompleted == 0);
    assert(waiting(st));
    let inv = |s: RunState| last_report_inv(s);
    assert forall|s: RunState, i: int|
        #![trigger step(s, i), inv(s)]
        inv(s) && state_wf(s) && 0 <= i < 3 && s.queues[i].front != -1 && s.stopped is None
            implies inv(step(s, i)) by {
        lemma_step_last_report(s, i);
    }
    assert forall|s: RunState| #![trigger fresh_round(s)] inv(s) implies inv(fresh_round(s)) by {
        if waiting(s) {
            let (i2, k2) = choose|i2: int, k2: int|
                0 <= i2 < 3 && 0 <= k2 < s.queues[i2].contents().len()
                    && s.procs[#[trigger] s.queues[i2].contents()[k2] as int].isCompleted == 0;
            assert(fresh_round(s).procs[fresh_round(s).queues[i2].contents()[k2] as int].isCompleted == 0);
        }
    }
    lemma_run_keeps(inv, st);
    let fin = run(st);
    lemma_run_empties_queues(st);
    lemma_run_time_is_total_burst(st, n);
    if fin.stopped is None {
        assert(!waiting(fin));
    }
}

proof fn lemma_burst_sum_bounds(procs: Seq<Process>, n: int, p: int)
    requires
        0 <= n <= procs.len(),
        forall|k: int| 0 <= k < n ==> (#[trigger] procs[k]).burstTime >= 0,
    ensures
        0 <= p < n ==> procs[p].burstTime <= burst_sum(procs, n),
        burst_sum(procs, n) >= 0,
        (forall|k: int| 0 <= k < n ==> (#[trigger] procs[k]).burstTime <= 8) ==> burst_sum(procs, n) <= 8 * n,
    decreases n,
{
    if n > 0 {
        lemma_burst_sum_bounds(procs, n - 1, p);
    }
}

/// Where a process whose burst was 1 to 8 units (`o` is how it started)
/// stands in a run: still to run, with all of its burst left; moved down
/// with 4 units done; or completed, at priority 1 when it was moved down and
/// 0 otherwise.
pub open spec fn short_stage(pr: Process, o: Process) -> bool {
    &&& pr.id == o.id
    &&& pr.arrivalTime == o.arrivalTime
    &&& 1 <= o.burstTime <= 8
    &&& {
        ||| pr.isCompleted == 0 && pr.priority == 0 && pr.burstTime == o.burstTime
        ||| pr.isCompleted == 0 && pr.priority == 1 && o.burstTime > 4 && pr.burstTime == o.burstTime - 4
        ||| pr.isCompleted == 1 && pr.burstTime == 0 && pr.priority == (if o.burstTime > 4 { 1i32 } else { 0i32 })
    }
}

/// Whether a process has not run yet.
pub open spec fn unrun(pr: Process) -> bool {
    pr.isCompleted == 0 && pr.priority == 0
}

/// How many of the first `n` processes have not run yet.
pub open spec fn unrun_count(procs: Seq<Process>, n: int) -> int
    decreases n,
{
    if n <= 0 {
        0
    } else {
        unrun_count(procs, n - 1) + (if unrun(procs[n - 1]) { 1int } else { 0int })
    }
}

proof fn lemma_unrun_count(procs: Seq<Process>, n: int, p: int, pr2: Process)
    requires
        0 <= p < n <= procs.len(),
    ensures
        unrun_count(procs.update(p, pr2), n) == unrun_count(procs, n) - (if unrun(procs[p]) { 1int } else { 0int })
            + (if unrun(pr2) { 1int } else { 0int }),
        unrun(procs[p]) ==> unrun_count(procs, n) >= 1,
        unrun_count(procs, n) >= 0,
    decreases n,
{
    if p < n - 1 {
        lemma_unrun_count(procs, n - 1, p, pr2);
    } else {
        assert(procs.update(p, pr2).subrange(0, n - 1) =~= procs.subrange(0, n - 1));
        lemma_unrun_count_prefix(procs, procs.update(p, pr2), n - 1);
        lemma_unrun_count_nonneg(procs, n - 1);
    }
}

proof fn lemma_unrun_count_prefix(a: Seq<Process>, b: Seq<Process>, n: int)
    requires
        0 <= n <= a.len(),
        n <= b.len(),
        a.subrange(0, n) == b.subrange(0, n),
    ensures
        unrun_count(a, n) == unrun_count(b, n),
    decreases n,
{
    if n > 0 {
        assert(a[n - 1] == a.subrange(0, n)[n - 1]);
        assert(b[n - 1] == b.subrange(0, n)[n - 1]);
        assert(a.subrange(0, n - 1) =~= a.subrange(0, n).subrange(0, n - 1));
        assert(b.subrange(0, n - 1) =~= b.subrange(0, n).subrange(0, n - 1));
        lemma_unrun_count_prefix(a, b, n - 1);
    }
}

proof fn lemma_unrun_count_nonneg(procs: Seq<Process>, n: int)
    ensures
        unrun_count(procs, n) >= 0,
    decreases n,
{
    if n > 0 {
        lemma_unrun_count_nonneg(procs, n - 1);
    }
}

/// The state of a run of at most ten processes whose bursts were 1 to 8
/// units (`orig`): every process is at one of its stages, no process that
/// has not run waits at level 2, and levels 1 and 2 have room for every
/// process still to run.
pub open spec fn short_inv(st: RunState, orig: Seq<Process>, n: int) -> bool {
    &&& 0 <= n <= 10
    &&& n <= st.procs.len()
    &&& st.procs.len() == orig.len()
    &&& st.stopped is None
    &&& queued_below(st, n)
    &&& forall|k: int| 0 <= k < n ==> #[trigger] short_stage(st.procs[k], orig[k])
    &&& forall|k: int| 0 <= k < st.queues[2].contents().len() ==> !unrun(#[trigger] st.procs[st.queues[2].contents()[k] as int])
    &&& (st.queues[1].rear + 1) + (st.queues[2].rear + 1) + unrun_count(st.procs, n) <= n
    &&& st.time + burst_sum(st.procs, n) == burst_sum(orig, n)
    &&& burst_sum(orig, n) <= 80
}

proof fn lemma_step_short_inv(st: RunState, i: int, orig: Seq<Process>, n: int)
    requires
        state_wf(st),
        short_inv(st, orig, n),
        0 <= i < 3,
        st.queues[i].front != -1,
    ensures
        short_inv(step(st, i), orig, n),
{
    lemma_step_wf(st, i);
    lemma_step_queued_below(st, i, n);
    let q = st.queues[i];
    lemma_queue_fifo(q, 0);
    let c = q.contents();
    let p = c[0];
    assert(p < n);
    let pr = st.procs[p as int];
    assert(short_stage(pr, orig[p as int]));
    let after = step(st, i);
    let popped = q.popped();
    assert(popped.contents() == c.drop_first());
    let queues1 = st.queues.update(i, popped);
    assert(popped.rear <= q.rear);
    assert forall|k: int| 0 <= k < n implies (#[trigger] st.procs[k]).burstTime >= 0 by {
        assert(short_stage(st.procs[k], orig[k]));
    }
    lemma_burst_sum_bounds(st.procs, n, p as int);
    lemma_unrun_count(st.procs, n, p as int, pr);
    if i == 2 {
        assert(st.queues[2].contents()[0] == p);
        assert(!unrun(st.procs[st.queues[2].contents()[0] as int]));
    }
    if pr.isCompleted == 0 {
        let slice = time_slice(pr);
        assert(st.time + slice <= 80);
        let pr2 = after.procs[p as int];
        assert(after.procs == st.procs.update(p as int, pr2));
        lemma_unrun_count(st.procs, n, p as int, pr2);
        lemma_burst_sum_update(st.procs, n, p as int, pr2);
        assert(short_stage(pr2, orig[p as int]));
        assert(!unrun(pr2));
        assert forall|k: int| 0 <= k < n implies #[trigger] short_stage(after.procs[k], orig[k]) by {
            if k != p {
                assert(after.procs[k] == st.procs[k]);
            }
        }
        let target = if i < 2 { i + 1 } else { i };
        let tq = queues1[target];
        if pr.burstTime > 4 {
            assert(unrun(pr));
            assert(tq.rear <= 8);
            lemma_queue_fifo(tq, p);
        }
        assert forall|k: int| 0 <= k < after.queues[2].contents().len() implies !unrun(
            #[trigger] after.procs[after.queues[2].contents()[k] as int],
        ) by {
            let e = after.queues[2].contents()[k];
            if e != p {
                assert(after.procs[e as int] == st.procs[e as int]);
                if after.queues[2] == queues1[2] {
                    if i == 2 {
                        assert(e == c[k + 1]);
                    } else {
                        assert(e == st.queues[2].contents()[k]);
                    }
                } else {
                    assert(after.queues[2] == tq.pushed(p));
                    lemma_queue_fifo(tq, p);
                    assert(after.queues[2].contents() == tq.contents().push(p));
                    if i == 2 {
                        assert(e == c[k + 1]);
                    } else {
                        assert(e == st.queues[2].contents()[k]);
                    }
                }
            }
        }
    } else {
        assert(after.procs == st.procs);
        assert forall|k: int| 0 <= k < after.queues[2].contents().len() implies !unrun(
            #[trigger] after.procs[after.queues[2].contents()[k] as int],
        ) by {
            if i == 2 {
                assert(after.queues[2].contents()[k] == c[k + 1]);
            } else {
                assert(after.queues[2] == st.queues[2]);
            }
        }
    }
}

/// At most ten processes, each with a burst of 1 to 8 units, all queued at
/// level 0 and ready at time 0, run to completion: the run does not stop
/// early, ends with every queue empty at the time the bursts add up to, and
/// leaves each process completed with nothing left of its burst, at priority
/// 1 when its burst was over 4 units (it was moved down once) and 0
/// otherwise, with its id and arrival time unchanged.
pub proof fn lemma_short_bursts_run_to_completion(st: RunState, n: int)
    requires
        state_wf(st),
        st.stopped is None,
        st.time == 0,
        0 <= n <= 10,
        n <= st.procs.len(),
        st.queues[0].contents() == Seq::new(n as nat, |k: int| k as usize),
        st.queues[1].front == -1,
        st.queues[2].front == -1,
        forall|k: int|
            0 <= k < n ==> (#[trigger] st.procs[k]).isCompleted == 0 && st.procs[k].priority == 0
                && 1 <= st.procs[k].burstTime <= 8,
    ensures
        run(st).stopped is None,
        queues_empty(run(st)),
        run(st).time == burst_sum(st.procs, n),
        run(st).procs.len() == st.procs.len(),
        forall|k: int| 0 <= k < n ==> {
            &&& (#[trigger] run(st).procs[k]).isCompleted == 1
            &&& run(st).procs[k].burstTime == 0
            &&& run(st).procs[k].priority == (if st.procs[k].burstTime > 4 { 1i32 } else { 0i32 })
            &&& run(st).procs[k].id == st.procs[k].id
            &&& run(st).procs[k].arrivalTime == st.procs[k].arrivalTime
        },
{
    let orig = st.procs;
    assert forall|i: int, k: int| 0 <= i < 3 && 0 <= k < st.queues[i].contents().len()
        implies #[trigger] st.queues[i].contents()[k] < n by {
        assert(i == 0);
    }
    assert forall|k: int| 0 <= k < n implies (#[trigger] orig[k]).burstTime >= 0 by {}
    lemma_burst_sum_bounds(orig, n, 0);
    assert forall|k: int| 0 <= k < n implies #[trigger] short_stage(st.procs[k], orig[k]) by {}
    lemma_unrun_count_nonneg(st.procs, n);
    assert(unrun_count(st.procs, n) <= n) by {
        lemma_unrun_count_le(st.procs, n);
    }
    let inv = |s: RunState| short_inv(s, orig, n);
    assert(inv(st));
    assert forall|s: RunState, i: int|
        #![trigger step(s, i), inv(s)]
        inv(s) && state_wf(s) && 0 <= i < 3 && s.queues[i].front != -1 && s.stopped is None
            implies inv(step(s, i)) by {
        lemma_step_short_inv(s, i, orig, n);
    }
    assert forall|s: RunState| #![trigger fresh_round(s)] inv(s) implies inv(fresh_round(s)) by {
        assert(queued_below(fresh_round(s), n) == queued_below(s, n));
    }
    lemma_run_keeps(inv, st);
    let fin = run(st);
    assert(short_inv(fin, orig, n));
    lemma_run_empties_queues(st);
    assert forall|k: int| 0 <= k < n implies #[trigger] done_or_queued(st, k) by {
        assert(st.queues[0].contents()[k] == k);
    }
    lemma_run_time_is_total_burst(st, n);
    assert forall|k: int| 0 <= k < n implies {
        &&& (#[trigger] fin.procs[k]).isCompleted == 1
        &&& fin.procs[k].burstTime == 0
        &&& fin.procs[k].priority == (if st.procs[k].burstTime > 4 { 1i32 } else { 0i32 })
        &&& fin.procs[k].id == st.procs[k].id
        &&& fin.procs[k].arrivalTime == st.procs[k].arrivalTime
    } by {
        assert(short_stage(fin.procs[k], orig[k]));
    }
}

proof fn lemma_unrun_count_le(procs: Seq<Process>, n: int)
    requires
        n >= 0,
    ensures
        unrun_count(procs, n) <= n,
    decreases n,
{
    if n > 0 {
        lemma_unrun_count_le(procs, n - 1);
    }
}

/// One turn at queue level `i`, whatever the level. The first queued process
/// is taken off the queue. A completed one is skipped: nothing is reported
/// and nothing else changes. Any other is reported running at the current
/// time, at level `i`, for `min(burst, 4)` units. Unless the run stops, the
/// time then advances by exactly that slice and the burst shrinks by it; a
/// process with nothing left is reported completed at the new time; one with
/// something left at level 0 or 1 goes one level down, one priority up, is
/// queued last at level `i + 1`, and is reported moved to level `i + 1`; one
/// at level 2 is queued last at level 2 again, with nothing more reported.
pub proof fn lemma_turn(st: RunState, i: int)
    requires
        state_wf(st),
        0 <= i < 3,
        st.queues[i].front != -1,
        st.stopped is None,
    ensures
        ({
            let p = st.queues[i].contents()[0];
            let pr = st.procs[p as int];
            let after = step(st, i);
            let s = if pr.burstTime < 4 { pr.burstTime as int } else { 4int };
            let running = SchedEvent::Running { time: st.time, id: pr.id, queue: i as i32, slice: s as i32 };
            &&& pr.isCompleted != 0 ==> {
                &&& after.events == st.events
                &&& after.time == st.time
                &&& after.procs == st.procs
                &&& after.stopped is None
                &&& after.queues[i].contents() == st.queues[i].contents().drop_first()
            }
            &&& pr.isCompleted == 0 ==> {
                &&& s <= 4
                &&& after.events.len() > st.events.len()
                &&& after.events.take(st.events.len() as int) == st.events
                &&& after.events[st.events.len() as int] == running
            }
            &&& pr.isCompleted == 0 && after.stopped is None ==> {
                &&& after.time == st.time + s
                &&& after.procs.len() == st.procs.len()
                &&& after.procs[p as int].burstTime == pr.burstTime - s
                &&& after.procs[p as int].id == pr.id
                &&& after.procs[p as int].arrivalTime == pr.arrivalTime
                &&& forall|k: int| 0 <= k < st.procs.len() && k != p ==> #[trigger] after.procs[k] == st.procs[k]
            }
            &&& pr.isCompleted == 0 && after.stopped is None && pr.burstTime - s <= 0 ==> {
                &&& after.procs[p as int].isCompleted == 1
                &&& after.events == st.events.push(running).push(
                    SchedEvent::Completed { time: after.time, id: pr.id },
                )
                &&& after.queues[i].contents() == st.queues[i].contents().drop_first()
            }
            &&& pr.isCompleted == 0 && after.stopped is None && pr.burstTime - s > 0 && i < 2 ==> {
                &&& after.procs[p as int].isCompleted == 0
                &&& after.procs[p as int].priority == pr.priority + 1
                &&& after.events == st.events.push(running).push(
                    SchedEvent::Moved { time: after.time, id: pr.id, queue: (i + 1) as i32 },
                )
                &&& after.queues[i].contents() == st.queues[i].contents().drop_first()
                &&& after.queues[i + 1].contents() == st.queues[i + 1].contents().push(p)
            }
            &&& pr.isCompleted == 0 && after.stopped is None && pr.burstTime - s > 0 && i == 2 ==> {
                &&& after.procs[p as int].isCompleted == 0
                &&& after.procs[p as int].priority == pr.priority
                &&& after.events == st.events.push(running)
                &&& after.queues[2].contents() == st.queues[2].contents().drop_first().push(p)
            }
        }),
{
    let q = st.queues[i];
    lemma_queue_fifo(q, 0);
    let p = q.contents()[0];
    assert(p < st.procs.len());
    let popped = q.popped();
    let queues1 = st.queues.update(i, popped);
    let target = if i < 2 { i + 1 } else { i };
    let tq = queues1[target];
    lemma_queue_fifo(tq, p);
    let pr = st.procs[p as int];
    let after = step(st, i);
    if pr.isCompleted == 0 {
        let s = if pr.burstTime < 4 { pr.burstTime as int } else { 4int };
        assert(s == time_slice(pr));
        let running = SchedEvent::Running { time: st.time, id: pr.id, queue: i as i32, slice: s as i32 };
        let events1 = st.events.push(running);
        assert(events1.take(st.events.len() as int) =~= st.events);
        assert(events1.push(SchedEvent::Completed { time: after.time, id: pr.id }).take(st.events.len() as int) =~= st.events);
        if i < 2 {
            assert(events1.push(SchedEvent::Moved { time: after.time, id: pr.id, queue: (i + 1) as i32 }).take(
                st.events.len() as int,
            ) =~= st.events);
        }
    }
}

/// Every report that a run adds is about a turn of at most 4 units: each
/// `Running` event of the run's reports has a slice of at most 4, when every
/// `Running` event reported before it did.
pub proof fn lemma_run_slices_at_most_four(st: RunState)
    requires
        state_wf(st),
        forall|k: int| 0 <= k < st.events.len() ==> (#[trigger] st.events[k] matches SchedEvent::Running { slice, .. } ==> slice <= 4),
    ensures
        forall|k: int| 0 <= k < run(st).events.len() ==> (#[trigger] run(st).events[k] matches SchedEvent::Running { slice, .. } ==> slice <= 4),
{
    let inv = |s: RunState| forall|k: int| 0 <= k < s.events.len() ==> (#[trigger] s.events[k] matches SchedEvent::Running { slice, .. } ==> slice <= 4);
    assert forall|s: RunState, i: int|
        #![trigger step(s, i), inv(s)]
        inv(s) && state_wf(s) && 0 <= i < 3 && s.queues[i].front != -1 && s.stopped is None
            implies inv(step(s, i)) by {
        lemma_turn(s, i);
        let after = step(s, i);
        assert forall|k: int| 0 <= k < after.events.len() implies (#[trigger] after.events[k] matches SchedEvent::Running { slice, .. } ==> slice <= 4) by {
            if k < s.events.len() {
                assert(after.events.take(s.events.len() as int)[k] == after.events[k]);
            }
        }
    }
    assert forall|s: RunState| #![trigger fresh_round(s)] inv(s) implies inv(fresh_round(s)) by {
        assert(fresh_round(s).events == s.events);
    }
    lemma_run_keeps(inv, st);
}

/// The run state that the scheduler's variables stand for, before any failure.
pub open spec fn exec_state(
    queues: Seq<QueueModel>,
    procs: Seq<Process>,
    time: i32,
    events: Seq<SchedEvent>,
    all_completed: bool,
) -> RunState {
    RunState { queues, procs, time, events, all_completed, stopped: None }
}

/// The state a run starts from: time 0, nothing reported.
pub open spec fn initial_state(queues: Seq<QueueModel>, procs: Seq<Process>) -> RunState {
    exec_state(queues, procs, 0, Seq::empty(), true)
}

/// Runs the queued processes, level by level, in rounds: at each level, the
/// first process is taken and, unless completed, runs for up to 4 units; it
/// completes when its burst is used up, and otherwise moves down a level (it
/// stays at the last) and is queued again. Rounds go on until one runs no
/// process. Returns what is reported, in order, and why the run stopped
/// early, if it did: `QueueFull` when a process finds the queue it is to join
/// full, `Overflow` when the time or a priority would leave `i32`.
pub fn runMLFQScheduler(
    queues: &mut Scheduler,
    processes: &mut Vec<Process>,
    numProcesses: i32,
) -> (r: (Vec<SchedEvent>, Result<(), RunError>))
    requires
        state_wf(initial_state(old(queues).models(), old(processes)@)),
    ensures
        ({
            let fin = run(initial_state(old(queues).models(), old(processes)@));
            &&& final(queues).models() == fin.queues
            &&& final(processes)@ == fin.procs
            &&& r.0@ == fin.events
            &&& match r.1 {
                Ok(()) => fin.stopped is None,
                Err(e) => fin.stopped == Some(e),
            }
        }),
{
    let ghost init = initial_state(queues.models(), processes@);
    let mut events: Vec<SchedEvent> = Vec::new();
    let mut currentTime: i32 = 0;
    loop
        invariant
            state_wf(exec_state(queues.models(), processes@, currentTime, events@, true)),
            run(exec_state(queues.models(), processes@, currentTime, events@, true)) == run(init),
            init == initial_state(old(queues).models(), old(processes)@),
        decreases (if queues_empty(exec_state(queues.models(), processes@, currentTime, events@, true)) {
            0int
        } else {
            1int
        }),
    {
        let ghost outer = exec_state(queues.models(), processes@, currentTime, events@, true);
        proof {
            lemma_run_measure(outer);
        }
        let mut allCompleted: i32 = 1;
        let mut i: i32 = 0;
        while i < 3
            invariant
                0 <= i <= 3,
                state_wf(outer),
                state_wf(exec_state(queues.models(), processes@, currentTime, events@, allCompleted != 0)),
                drain_rest(exec_state(queues.models(), processes@, currentTime, events@, allCompleted != 0), i as int)
                    == pass(outer),
                run(outer) == run(init),
                init == initial_state(old(queues).models(), old(processes)@),
            decreases 3 - i,
        {
            while !queues.is_level_empty(i)
                invariant
                    0 <= i < 3,
                    state_wf(outer),
                    state_wf(exec_state(queues.models(), processes@, currentTime, events@, allCompleted != 0)),
                    drain_rest(exec_state(queues.models(), processes@, currentTime, events@, allCompleted != 0), i as int)
                        == pass(outer),
                    run(outer) == run(init),
                    init == initial_state(old(queues).models(), old(processes)@),
                decreases level_weight(exec_state(queues.models(), processes@, currentTime, events@, allCompleted != 0), i as int),
            {
                let ghost cur = exec_state(queues.models(), processes@, currentTime, events@, allCompleted != 0);
                proof {
                    lemma_queue_fifo(cur.queues[i as int], 0);
                    lemma_step_decreases(cur, i as int);
                    lemma_step_wf(cur, i as int);
                    assert(drain(cur, i as int) == drain(step(cur, i as int), i as int));
                    assert(drain_rest(cur, i as int) == drain_rest(step(cur, i as int), i as int));
                }
                let ghost next = step(cur, i as int);
                let p = queues.dequeue_level(i).unwrap();
                let pr = processes[p];
                if pr.isCompleted != 0 {
                    assert(exec_state(queues.models(), processes@, currentTime, events@, allCompleted != 0) == next);
                    continue;
                }
                allCompleted = 0;
                let timeSlice: i32 = if pr.burstTime < 4 { pr.burstTime } else { 4 };
                events.push(SchedEvent::Running { time: currentTime, id: pr.id, queue: i, slice: timeSlice });
                let stop: Option<RunError> = match currentTime.checked_add(timeSlice) {
                    None => Some(RunError::Overflow),
                    Some(t) => {
                        currentTime = t;
                        let burst = pr.burstTime - timeSlice;
                        if burst <= 0 {
                            processes.set(p, Process { burstTime: burst, isCompleted: 1, ..pr });
                            events.push(SchedEvent::Completed { time: currentTime, id: pr.id });
                            None
                        } else if i < 2 {
                            match pr.priority.checked_add(1) {
                                None => {
                                    processes.set(p, Process { burstTime: burst, ..pr });
                                    Some(RunError::Overflow)
                                },
                                Some(raised) => {
                                    processes.set(p, Process { burstTime: burst, priority: raised, ..pr });
                                    match queues.enqueue_level(i + 1, p) {
                                        Ok(()) => {
                                            events.push(SchedEvent::Moved { time: currentTime, id: pr.id, queue: i + 1 });
                                            None
                                        },
                                        Err(QueueFull) => Some(RunError::QueueFull),
                                    }
                                },
                            }
                        } else {
                            processes.set(p, Process { burstTime: burst, ..pr });
                            match queues.enqueue_level(i, p) {
                                Ok(()) => None,
                                Err(QueueFull) => Some(RunError::QueueFull),
                            }
                        }
                    },
                };
                match stop {
                    Some(e) => {
                        proof {
                            assert(next.stopped == Some(e));
                            assert(queues.models() == next.queues);
                            assert(processes@ == next.procs);
                            assert(events@ == next.events);
                            lemma_drain_rest(next, i as int);
                            lemma_pass(outer);
                            assert(pass(outer) == next);
                            assert(run(outer) == next);
                        }
                        return (events, Err(e));
                    },
                    None => {
                        assert(exec_state(queues.models(), processes@, currentTime, events@, allCompleted != 0) == next);
                    },
                }
            }
            proof {
                let cur = exec_state(queues.models(), processes@, currentTime, events@, allCompleted != 0);
                lemma_drain(cur, i as int);
            }
            i = i + 1;
        }
        let ghost done = exec_state(queues.models(), processes@, currentTime, events@, allCompleted != 0);
        proof {
            lemma_pass(outer);
            assert(done == pass(outer));
            assert(run(outer) == (if done.all_completed { done } else { run(done) }));
        }
        if allCompleted != 0 {
            return (events, Ok(()));
        }
        proof {
            let again = exec_state(queues.models(), processes@, currentTime, events@, true);
            assert(RunState { all_completed: true, ..done } == RunState { all_completed: true, ..again });
            assert(pass(done) == pass(again));
            assert(run(done) == run(again));
        }
    }
}

} // verus!
