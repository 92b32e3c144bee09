use vstd::prelude::*;
use crate::syscall::wrapping_inc;

verus! {

/// Number of task slots in the scheduler.
pub const MAX_TASKS: usize = 32;

/// Identifier of a task; identifiers are handed out from 1 upward.
#[derive(Clone, Copy, Debug, PartialEq, Eq, Structural)]
pub struct TaskId(pub u64);

/// Life-cycle state of a task.
#[derive(Clone, Copy, Debug, PartialEq, Eq, Structural)]
pub enum TaskState {
    Ready,
    Running,
    Blocked,
    Exited,
}

/// What the scheduler keeps for each task.
#[derive(Clone, Copy, Debug, PartialEq, Eq, Structural)]
pub struct TaskControlBlock {
    pub id: TaskId,
    pub state: TaskState,
    /// Timer ticks the task has spent running.
    pub ticks: u64,
}

/// A task is runnable when it is ready or running.
pub open spec fn is_active(slot: Option<TaskControlBlock>) -> bool {
    slot matches Some(t) && (t.state == TaskState::Ready || t.state == TaskState::Running)
}

/// A slot holds a ready task.
pub open spec fn is_ready(slot: Option<TaskControlBlock>) -> bool {
    slot matches Some(t) && t.state == TaskState::Ready
}

/// A slot holds a running task.
pub open spec fn is_running(slot: Option<TaskControlBlock>) -> bool {
    slot matches Some(t) && t.state == TaskState::Running
}

/// Number of runnable tasks in a slot table.
pub open spec fn active_count(s: Seq<Option<TaskControlBlock>>) -> nat
    decreases s.len(),
{
    if s.len() == 0 {
        0
    } else {
        active_count(s.drop_last()) + if is_active(s.last()) { 1nat } else { 0nat }
    }
}

/// Index of the first empty slot at or after `i`, or the table length.
pub open spec fn first_free(s: Seq<Option<TaskControlBlock>>, i: int) -> int
    decreases s.len() - i,
{
    if i >= s.len() {
        s.len() as int
    } else if s[i] is None {
        i
    } else {
        first_free(s, i + 1)
    }
}

/// The table after the running task in slot `c`, if any, has been charged
/// one tick and put back to ready.
pub open spec fn charged(s: Seq<Option<TaskControlBlock>>, c: int) -> Seq<Option<TaskControlBlock>> {
    if is_running(s[c]) {
        let t = s[c]->Some_0;
        s.update(c, Some(TaskControlBlock { id: t.id, state: TaskState::Ready, ticks: (t.ticks + 1) as u64 }))
    } else {
        s
    }
}

/// Slot reached from `c` after `offset` steps round the table.
pub open spec fn slot_after(c: int, offset: int) -> int {
    (c + offset) % (MAX_TASKS as int)
}

/// The first offset in `o..=MAX_TASKS` whose slot after `c` holds a ready
/// task, or `MAX_TASKS + 1` when there is none.
pub open spec fn next_ready(s: Seq<Option<TaskControlBlock>>, c: int, o: int) -> int
    decreases MAX_TASKS + 1 - o,
{
    if o > MAX_TASKS {
        MAX_TASKS + 1
    } else if is_ready(s[slot_after(c, o)]) {
        o
    } else {
        next_ready(s, c, o + 1)
    }
}

/// The same table with the task in slot `k` made running.
pub open spec fn started(s: Seq<Option<TaskControlBlock>>, k: int) -> Seq<Option<TaskControlBlock>> {
    let t = s[k]->Some_0;
    s.update(k, Some(TaskControlBlock { id: t.id, state: TaskState::Running, ticks: t.ticks }))
}

/// What `Scheduler::spawn` does: the first empty slot gets a new ready task
/// with the next identifier, which is returned; with no empty slot nothing
/// changes and the result is `None`.
pub open spec fn spawn_outcome(before: Scheduler, after: Scheduler, r: Option<TaskId>) -> bool {
    let s = before.slots();
    let f = first_free(s, 0);
    &&& after.current_slot() == before.current_slot()
    &&& if f < MAX_TASKS {
        &&& r == Some(TaskId(before.next_id_value()))
        &&& after.slots() == s.update(
            f,
            Some(TaskControlBlock { id: TaskId(before.next_id_value()), state: TaskState::Ready, ticks: 0 }),
        )
        &&& after.next_id_value() == before.next_id_value() + 1
        &&& active_count(after.slots()) == active_count(s) + 1
    } else {
        &&& r is None
        &&& after.slots() == s
        &&& after.next_id_value() == before.next_id_value()
    }
}

/// What `Scheduler::tick` does (see there).
pub open spec fn tick_outcome(before: Scheduler, after: Scheduler) -> bool {
    let c = before.current_slot();
    let t = charged(before.slots(), c);
    let o = next_ready(t, c, 1);
    &&& after.next_id_value() == before.next_id_value()
    &&& if o <= MAX_TASKS {
        &&& after.slots() == started(t, slot_after(c, o))
        &&& after.current_slot() == slot_after(c, o)
    } else {
        &&& after.slots() == t
        &&& after.current_slot() == c
    }
}

/// What `Scheduler::tick` needs: the running task can be charged a tick.
pub open spec fn tick_allowed(s: Scheduler) -> bool {
    is_running(s.slots()[s.current_slot()]) ==> s.slots()[s.current_slot()]->Some_0.ticks < u64::MAX
}

/// A fixed-size round-robin scheduler.
#[derive(Clone, Copy, Debug)]
pub struct Scheduler {
    tasks: [Option<TaskControlBlock>; MAX_TASKS],
    next_id: u64,
    current: usize,
}

impl Scheduler {
    /// The task slots.
    pub closed spec fn slots(&self) -> Seq<Option<TaskControlBlock>> {
        self.tasks@
    }

    /// The identifier that the next spawned task gets.
    pub closed spec fn next_id_value(&self) -> u64 {
        self.next_id
    }

    /// The slot that was scheduled last.
    pub closed spec fn current_slot(&self) -> int {
        self.current as int
    }

    /// Well-formedness: identifiers are distinct, below `next_id` and at
    /// least 1, and only the current slot may hold a running task.
    pub open spec fn wf(&self) -> bool {
        &&& self.slots().len() == MAX_TASKS
        &&& 0 <= self.current_slot() < MAX_TASKS
        &&& self.next_id_value() >= 1
        &&& forall|i: int|
            0 <= i < MAX_TASKS && (#[trigger] self.slots()[i]) is Some ==> {
                let t = self.slots()[i]->Some_0;
                1 <= t.id.0 < self.next_id_value()
            }
        &&& forall|i: int, j: int|
            0 <= i < MAX_TASKS && 0 <= j < MAX_TASKS && i != j && (#[trigger] self.slots()[i]) is Some
                && (#[trigger] self.slots()[j]) is Some ==> self.slots()[i]->Some_0.id != self.slots()[j]->Some_0.id
        &&& forall|i: int| 0 <= i < MAX_TASKS && is_running(#[trigger] self.slots()[i]) ==> i == self.current_slot()
    }

    /// An empty scheduler whose first task will get identifier 1.
    pub fn new() -> (r: Self)
        ensures
            r.wf(),
            r.slots() == Seq::new(MAX_TASKS as nat, |i: int| None::<TaskControlBlock>),
            r.next_id_value() == 1,
            r.current_slot() == 0,
    {
        let r = Scheduler { tasks: [None; MAX_TASKS], next_id: 1, current: 0 };
        assert(r.slots() =~= Seq::new(MAX_TASKS as nat, |i: int| None::<TaskControlBlock>));
        r
    }

    /// The task in slot `i`, if any.
    pub fn slot(&self, i: usize) -> (r: Option<TaskControlBlock>)
        requires
            i < MAX_TASKS,
        ensures
            r == self.slots()[i as int],
    {
        self.tasks[i]
    }

    /// The slot that was scheduled last.
    pub fn current(&self) -> (r: usize)
        ensures
            r == self.current_slot(),
    {
        self.current
    }

    /// The identifier that the next spawned task gets.
    pub fn next_task_id(&self) -> (r: u64)
        ensures
            r == self.next_id_value(),
    {
        self.next_id
    }

    /// Puts a new ready task into the first empty slot and returns its
    /// identifier; returns `None`, and changes nothing, when every slot is
    /// taken.
    pub fn spawn(&mut self) -> (r: Option<TaskId>)
        requires
            old(self).wf(),
            first_free(old(self).slots(), 0) < MAX_TASKS ==> old(self).next_id_value() < u64::MAX,
        ensures
            final(self).wf(),
            spawn_outcome(*old(self), *final(self), r),
    {
        let ghost s = self.slots();
        let mut slot: usize = 0;
        while slot < MAX_TASKS
            invariant
                self.wf(),
                self.slots() == s,
                s == old(self).slots(),
                self.next_id == old(self).next_id,
                self.current == old(self).current,
                slot <= MAX_TASKS,
                first_free(s, 0) == first_free(s, slot as int),
                first_free(s, 0) < MAX_TASKS ==> self.next_id < u64::MAX,
            decreases MAX_TASKS - slot,
        {
            if self.tasks[slot].is_none() {
                let id = TaskId(self.next_id);
                self.next_id = self.next_id + 1;
                let tcb = TaskControlBlock { id, state: TaskState::Ready, ticks: 0 };
                self.tasks[slot] = Some(tcb);
                proof {
                    lemma_active_count_update(s, slot as int, Some(tcb));
                }
                return Some(id);
            }
            slot = slot + 1;
        }
        None
    }

    /// One timer tick: the running task, if any, is charged a tick and put
    /// back to ready; then the first ready task after the current slot, going
    /// round the table and ending with the current slot itself, is made
    /// running and becomes current.  With no ready task, nothing is started.
    pub fn tick(&mut self)
        requires
            old(self).wf(),
            tick_allowed(*old(self)),
        ensures
            final(self).wf(),
            tick_outcome(*old(self), *final(self)),
            is_running(old(self).slots()[old(self).current_slot()]) ==> final(self).slots()[old(
                self,
            ).current_slot()]->Some_0.ticks == old(self).slots()[old(self).current_slot()]->Some_0.ticks + 1,
            forall|i: int|
                0 <= i < MAX_TASKS && (#[trigger] old(self).slots()[i]) is Some && !(i == old(self).current_slot()
                    && is_running(old(self).slots()[i])) ==> final(self).slots()[i] is Some
                    && final(self).slots()[i]->Some_0.ticks == old(self).slots()[i]->Some_0.ticks,
            active_count(final(self).slots()) == active_count(old(self).slots()),
            active_count(old(self).slots()) > 0 ==> is_running(final(self).slots()[final(self).current_slot()]),
    {
        let c = self.current;
        let ghost s0 = self.slots();
        match self.tasks[c] {
            Some(task) => {
                if task.state == TaskState::Running {
                    let charged_task = TaskControlBlock { id: task.id, state: TaskState::Ready, ticks: task.ticks + 1 };
                    self.tasks[c] = Some(charged_task);
                    proof {
                        lemma_active_count_update(s0, c as int, Some(charged_task));
                    }
                }
            },
            None => {},
        }
        let ghost t = self.slots();
        proof {
            assert(t == charged(s0, c as int));
            assert forall|i: int| 0 <= i < MAX_TASKS implies !is_running(#[trigger] t[i]) by {
                if i != c {
                    assert(t[i] == s0[i]);
                }
            }
            if active_count(s0) > 0 {
                let k = lemma_some_active(t);
                lemma_reach_slot(t, c as int, k);
            }
        }
        let mut offset: usize = 1;
        while offset <= MAX_TASKS
            invariant
                1 <= offset <= MAX_TASKS + 1,
                old(self).wf(),
                tick_allowed(*old(self)),
                c == old(self).current,
                0 <= c < MAX_TASKS,
                self.current == c,
                self.next_id == old(self).next_id,
                self.slots() == t,
                t == charged(old(self).slots(), c as int),
                t.len() == MAX_TASKS,
                active_count(t) == active_count(old(self).slots()),
                next_ready(t, c as int, 1) == next_ready(t, c as int, offset as int),
                forall|i: int| 0 <= i < MAX_TASKS ==> !is_running(#[trigger] t[i]),
                forall|i: int| 0 <= i < MAX_TASKS && (#[trigger] t[i]) is Some ==> {
                    let x = t[i]->Some_0;
                    1 <= x.id.0 < self.next_id
                },
                forall|i: int, j: int|
                    0 <= i < MAX_TASKS && 0 <= j < MAX_TASKS && i != j && (#[trigger] t[i]) is Some
                        && (#[trigger] t[j]) is Some ==> t[i]->Some_0.id != t[j]->Some_0.id,
                active_count(old(self).slots()) > 0 ==> next_ready(t, c as int, 1) <= MAX_TASKS,
            decreases MAX_TASKS + 1 - offset,
        {
            let slot = (c + offset) % MAX_TASKS;
            match self.tasks[slot] {
                Some(task) => {
                    if task.state == TaskState::Ready {
                        let started_task = TaskControlBlock { id: task.id, state: TaskState::Running, ticks: task.ticks };
                        self.tasks[slot] = Some(started_task);
                        self.current = slot;
                        proof {
                            lemma_active_count_update(t, slot as int, Some(started_task));
                            assert(self.slots() == started(t, slot as int));
                            assert forall|i: int| 0 <= i < MAX_TASKS && (#[trigger] self.slots()[i]) is Some implies {
                                let x = self.slots()[i]->Some_0;
                                1 <= x.id.0 < self.next_id
                            } by {
                                assert(t[i] is Some);
                            }
                            assert forall|i: int, j: int|
                                0 <= i < MAX_TASKS && 0 <= j < MAX_TASKS && i != j && (#[trigger] self.slots()[i]) is Some
                                    && (#[trigger] self.slots()[j]) is Some implies self.slots()[i]->Some_0.id != self.slots()[j]->Some_0.id by {
                                assert(t[i] is Some && t[j] is Some);
                            }
                            assert forall|i: int| 0 <= i < MAX_TASKS && is_running(#[trigger] self.slots()[i]) implies i == self.current_slot() by {
                                if i != slot {
                                    assert(self.slots()[i] == t[i]);
                                }
                            }
                            assert(tick_outcome(*old(self), *self));
                            lemma_tick_charges(*old(self), *self);
                        }
                        return;
                    }
                },
                None => {},
            }
            offset = offset + 1;
        }
        proof {
            assert(tick_outcome(*old(self), *self));
            lemma_tick_charges(*old(self), *self);
        }
    }

    /// Number of tasks that are ready or running.
    pub fn ready_count(&self) -> (r: usize)
        requires
            self.wf(),
        ensures
            r == active_count(self.slots()),
    {
        let ghost s = self.slots();
        let mut count: usize = 0;
        let mut i: usize = 0;
        while i < MAX_TASKS
            invariant
                self.wf(),
                s == self.slots(),
                i <= MAX_TASKS,
                count == active_count(s.take(i as int)),
                count <= i,
            decreases MAX_TASKS - i,
        {
            proof {
                assert(s.take(i as int + 1).drop_last() =~= s.take(i as int));
                assert(s.take(i as int + 1).last() == s[i as int]);
            }
            match self.tasks[i] {
                Some(task) => {
                    if task.state == TaskState::Ready || task.state == TaskState::Running {
                        count = count + 1;
                    }
                },
                None => {},
            }
            i = i + 1;
        }
        assert(s.take(MAX_TASKS as int) =~= s);
        count
    }
}

/// Some slot of a table with a runnable task holds one.
proof fn lemma_some_active(s: Seq<Option<TaskControlBlock>>) -> (k: int)
    requires
        active_count(s) > 0,
    ensures
        0 <= k < s.len(),
        is_active(s[k]),
    decreases s.len(),
{
    if is_active(s.last()) {
        s.len() - 1
    } else {
        let k = lemma_some_active(s.drop_last());
        assert(s.drop_last()[k] == s[k]);
        k
    }
}

/// Going round the table from `c` reaches every ready slot.
proof fn lemma_reach_slot(s: Seq<Option<TaskControlBlock>>, c: int, k: int)
    requires
        s.len() == MAX_TASKS,
        0 <= c < MAX_TASKS,
        0 <= k < MAX_TASKS,
        is_active(s[k]),
        forall|i: int| 0 <= i < MAX_TASKS ==> !is_running(#[trigger] s[i]),
    ensures
        next_ready(s, c, 1) <= MAX_TASKS,
{
    let o = if k > c { k - c } else { k - c + MAX_TASKS };
    assert(slot_after(c, o) == k);
    assert(is_ready(s[k])) by {
        assert(!is_running(s[k]));
    }
    lemma_next_ready_bound(s, c, 1, o);
}

proof fn lemma_next_ready_bound(s: Seq<Option<TaskControlBlock>>, c: int, o: int, o2: int)
    requires
        1 <= o <= o2 <= MAX_TASKS,
        is_ready(s[slot_after(c, o2)]),
    ensures
        next_ready(s, c, o) <= o2,
    decreases o2 - o,
{
    if o < o2 && !is_ready(s[slot_after(c, o)]) {
        lemma_next_ready_bound(s, c, o + 1, o2);
    }
}


/// Replacing one slot changes the runnable count by the difference of the
/// two slots.
proof fn lemma_active_count_update(s: Seq<Option<TaskControlBlock>>, i: int, v: Option<TaskControlBlock>)
    requires
        0 <= i < s.len(),
    ensures
        active_count(s.update(i, v)) + (if is_active(s[i]) { 1int } else { 0int })
            == active_count(s) + (if is_active(v) { 1int } else { 0int }),
    decreases s.len(),
{
    let t = s.update(i, v);
    if i == s.len() - 1 {
        assert(t.drop_last() =~= s.drop_last());
    } else {
        assert(t.drop_last() =~= s.drop_last().update(i, v));
        lemma_active_count_update(s.drop_last(), i, v);
    }
}

/// Creates the idle task and then the first kernel task; each identifier is
/// `None` when no slot was left for it.
pub fn init(scheduler: &mut Scheduler) -> (r: (Option<TaskId>, Option<TaskId>))
    requires
        old(scheduler).wf(),
        ({
            let f = first_free(old(scheduler).slots(), 0);
            f < MAX_TASKS ==> {
                &&& old(scheduler).next_id_value() < u64::MAX
                &&& first_free(old(scheduler).slots(), f + 1) < MAX_TASKS
                    ==> old(scheduler).next_id_value() + 1 < u64::MAX
            }
        }),
    ensures
        final(scheduler).wf(),
        exists|mid: Scheduler| spawn_outcome(*old(scheduler), mid, r.0) && spawn_outcome(mid, *final(scheduler), r.1),
{
    let ghost before = *scheduler;
    let idle = scheduler.spawn();
    let ghost mid = *scheduler;
    proof {
        lemma_first_free_bounds(before.slots(), 0);
        if first_free(before.slots(), 0) < MAX_TASKS {
            lemma_first_free_after_fill(before.slots(), mid.slots());
        }
    }
    let bootstrap = scheduler.spawn();
    let r = (idle, bootstrap);
    assert(spawn_outcome(*old(scheduler), mid, r.0) && spawn_outcome(mid, *scheduler, r.1));
    r
}

/// One scheduler tick from the timer interrupt: counts it (wrapping, as the
/// counter is a free-running atomic) and lets the scheduler switch tasks.
pub fn on_timer_tick(scheduler: &mut Scheduler, schedule_ticks: &mut u64)
    requires
        old(scheduler).wf(),
        tick_allowed(*old(scheduler)),
    ensures
        final(scheduler).wf(),
        tick_outcome(*old(scheduler), *final(scheduler)),
        *final(schedule_ticks) == wrapping_inc(*old(schedule_ticks)),
{
    *schedule_ticks = schedule_ticks.wrapping_add(1);
    scheduler.tick();
}

/// Spawns a kernel task.
pub fn spawn_kernel_task(scheduler: &mut Scheduler) -> (r: Option<TaskId>)
    requires
        old(scheduler).wf(),
        first_free(old(scheduler).slots(), 0) < MAX_TASKS ==> old(scheduler).next_id_value() < u64::MAX,
    ensures
        final(scheduler).wf(),
        spawn_outcome(*old(scheduler), *final(scheduler), r),
{
    scheduler.spawn()
}

/// Number of tasks that are ready or running.
pub fn ready_tasks(scheduler: &Scheduler) -> (r: usize)
    requires
        scheduler.wf(),
    ensures
        r == active_count(scheduler.slots()),
{
    scheduler.ready_count()
}

/// After the first empty slot is filled, the next empty slot is the first
/// one after it.
proof fn lemma_first_free_after_fill(s: Seq<Option<TaskControlBlock>>, t: Seq<Option<TaskControlBlock>>)
    requires
        first_free(s, 0) < s.len(),
        t.len() == s.len(),
        t[first_free(s, 0)] is Some,
        forall|i: int| 0 <= i < s.len() && i != first_free(s, 0) ==> t[i] == s[i],
    ensures
        first_free(t, 0) == first_free(s, first_free(s, 0) + 1),
{
    lemma_first_free_bounds(s, 0);
    lemma_first_free_prefix(s, t, 0);
}

/// Bounds of `first_free`.
pub proof fn lemma_first_free_bounds(s: Seq<Option<TaskControlBlock>>, i: int)
    requires
        0 <= i <= s.len(),
    ensures
        i <= first_free(s, i) <= s.len(),
        first_free(s, i) < s.len() ==> s[first_free(s, i)] is None,
        forall|j: int| i <= j < first_free(s, i) ==> s[j] is Some,
    decreases s.len() - i,
{
    if i < s.len() && s[i] is Some {
        lemma_first_free_bounds(s, i + 1);
    }
}

proof fn lemma_first_free_prefix(s: Seq<Option<TaskControlBlock>>, t: Seq<Option<TaskControlBlock>>, i: int)
    requires
        0 <= i <= first_free(s, 0),
        first_free(s, 0) < s.len(),
        first_free(s, i) == first_free(s, 0),
        t.len() == s.len(),
        t[first_free(s, 0)] is Some,
        forall|j: int| 0 <= j < s.len() && j != first_free(s, 0) ==> t[j] == s[j],
    ensures
        first_free(t, i) == first_free(s, first_free(s, 0) + 1),
    decreases s.len() - i,
{
    let f = first_free(s, 0);
    if i < f {
        lemma_first_free_prefix(s, t, i + 1);
    } else {
        lemma_first_free_same(s, t, f + 1);
    }
}

proof fn lemma_first_free_same(s: Seq<Option<TaskControlBlock>>, t: Seq<Option<TaskControlBlock>>, i: int)
    requires
        0 <= i,
        t.len() == s.len(),
        forall|j: int| i <= j < s.len() ==> t[j] == s[j],
    ensures
        first_free(t, i) == first_free(s, i),
    decreases s.len() - i,
{
    if i < s.len() {
        lemma_first_free_same(s, t, i + 1);
    }
}

/// A spawned task's identifier is new: it is larger than the identifier of
/// every task already in the table, so it differs from all of them.
pub proof fn lemma_spawned_id_is_fresh(before: Scheduler, after: Scheduler, id: TaskId, i: int)
    requires
        before.wf(),
        spawn_outcome(before, after, Some(id)),
        0 <= i < MAX_TASKS,
        before.slots()[i] is Some,
    ensures
        before.slots()[i]->Some_0.id.0 < id.0,
        after.next_id_value() == id.0 + 1,
{
    lemma_first_free_bounds(before.slots(), 0);
}

/// A tick neither creates nor removes tasks, and keeps every task's
/// identifier in its slot.
pub proof fn lemma_tick_keeps_tasks(before: Scheduler, after: Scheduler, i: int)
    requires
        before.wf(),
        tick_outcome(before, after),
        0 <= i < MAX_TASKS,
    ensures
        after.slots()[i] is Some <==> before.slots()[i] is Some,
        before.slots()[i] is Some ==> after.slots()[i]->Some_0.id == before.slots()[i]->Some_0.id,
{
    let c = before.current_slot();
    let t = charged(before.slots(), c);
    assert(t[i] is Some <==> before.slots()[i] is Some);
    assert(before.slots()[i] is Some ==> t[i]->Some_0.id == before.slots()[i]->Some_0.id);
    lemma_next_ready_found(t, c, 1);
}

/// Round robin: when a tick finds a ready task in another slot than the
/// current one, the current slot does not keep the processor.
pub proof fn lemma_tick_moves_on(before: Scheduler, after: Scheduler, k: int)
    requires
        before.wf(),
        tick_outcome(before, after),
        0 <= k < MAX_TASKS,
        k != before.current_slot(),
        is_ready(before.slots()[k]),
    ensures
        after.current_slot() != before.current_slot(),
        is_running(after.slots()[after.current_slot()]),
{
    let c = before.current_slot();
    let t = charged(before.slots(), c);
    assert(t[k] == before.slots()[k]);
    let o = if k > c { k - c } else { k - c + MAX_TASKS };
    assert(slot_after(c, o) == k);
    assert(o < MAX_TASKS);
    lemma_next_ready_bound(t, c, 1, o);
    let n = next_ready(t, c, 1);
    lemma_next_ready_found(t, c, 1);
    assert(1 <= n < MAX_TASKS);
    assert(slot_after(c, n) != c);
}

proof fn lemma_next_ready_found(s: Seq<Option<TaskControlBlock>>, c: int, o: int)
    requires
        1 <= o <= MAX_TASKS + 1,
    ensures
        o <= next_ready(s, c, o) <= MAX_TASKS + 1,
        next_ready(s, c, o) <= MAX_TASKS ==> is_ready(s[slot_after(c, next_ready(s, c, o))]),
        forall|o2: int| o <= o2 < next_ready(s, c, o) ==> !is_ready(#[trigger] s[slot_after(c, o2)]),
    decreases MAX_TASKS + 1 - o,
{
    if o <= MAX_TASKS && !is_ready(s[slot_after(c, o)]) {
        lemma_next_ready_found(s, c, o + 1);
    }
}

/// Whatever state a tick leaves, from a well-formed scheduler: the
/// scheduler stays well-formed (so at most one task runs, in the current
/// slot), the number of ready or running tasks is the same, and if any task
/// was runnable the current slot now runs one.
pub proof fn lemma_tick_laws(before: Scheduler, after: Scheduler)
    requires
        before.wf(),
        tick_outcome(before, after),
    ensures
        after.wf(),
        active_count(after.slots()) == active_count(before.slots()),
        active_count(before.slots()) > 0 ==> is_running(after.slots()[after.current_slot()]),
{
    let s = before.slots();
    let c = before.current_slot();
    let t = charged(s, c);
    if is_running(s[c]) {
        let x = s[c]->Some_0;
        lemma_active_count_update(s, c, Some(TaskControlBlock { id: x.id, state: TaskState::Ready, ticks: (x.ticks + 1) as u64 }));
    }
    assert(active_count(t) == active_count(s));
    assert forall|i: int| 0 <= i < MAX_TASKS implies !is_running(#[trigger] t[i]) by {
        if i != c {
            assert(t[i] == s[i]);
        }
    }
    assert forall|i: int| 0 <= i < MAX_TASKS implies (#[trigger] t[i] is Some) == (s[i] is Some)
        && (s[i] is Some ==> t[i]->Some_0.id == s[i]->Some_0.id) by {
    }
    lemma_next_ready_found(t, c, 1);
    let o = next_ready(t, c, 1);
    if active_count(s) > 0 {
        let k = lemma_some_active(t);
        lemma_reach_slot(t, c, k);
    }
    if o <= MAX_TASKS {
        let k = slot_after(c, o);
        let x = t[k]->Some_0;
        let v = Some(TaskControlBlock { id: x.id, state: TaskState::Running, ticks: x.ticks });
        lemma_active_count_update(t, k, v);
        let a = after.slots();
        assert(a == t.update(k, v));
        assert forall|i: int| 0 <= i < MAX_TASKS && (#[trigger] a[i]) is Some implies {
            let y = a[i]->Some_0;
            1 <= y.id.0 < after.next_id_value()
        } by {
            assert(s[i] is Some);
        }
        assert forall|i: int, j: int|
            0 <= i < MAX_TASKS && 0 <= j < MAX_TASKS && i != j && (#[trigger] a[i]) is Some && (#[trigger] a[j]) is Some
                implies a[i]->Some_0.id != a[j]->Some_0.id by {
            assert(s[i] is Some && s[j] is Some);
        }
        assert forall|i: int| 0 <= i < MAX_TASKS && is_running(#[trigger] a[i]) implies i == after.current_slot() by {
            if i != k {
                assert(a[i] == t[i]);
            }
        }
    } else {
        let a = after.slots();
        assert forall|i: int| 0 <= i < MAX_TASKS && (#[trigger] a[i]) is Some implies {
            let y = a[i]->Some_0;
            1 <= y.id.0 < after.next_id_value()
        } by {
            assert(s[i] is Some);
        }
        assert forall|i: int, j: int|
            0 <= i < MAX_TASKS && 0 <= j < MAX_TASKS && i != j && (#[trigger] a[i]) is Some && (#[trigger] a[j]) is Some
                implies a[i]->Some_0.id != a[j]->Some_0.id by {
            assert(s[i] is Some && s[j] is Some);
        }
    }
}

/// Whatever state a spawn leaves, from a well-formed scheduler: the
/// scheduler stays well-formed (identifiers distinct and below the next
/// one), and a new task's identifier is larger than every identifier
/// already in the table, so identifiers are never reused.
pub proof fn lemma_spawn_laws(before: Scheduler, after: Scheduler, r: Option<TaskId>)
    requires
        before.wf(),
        spawn_outcome(before, after, r),
    ensures
        after.wf(),
        r matches Some(id) ==> forall|i: int|
            0 <= i < MAX_TASKS && (#[trigger] before.slots()[i]) is Some ==> before.slots()[i]->Some_0.id.0 < id.0,
{
    let s = before.slots();
    lemma_first_free_bounds(s, 0);
    let f = first_free(s, 0);
    if f < MAX_TASKS {
        let a = after.slots();
        assert forall|i: int| 0 <= i < MAX_TASKS && (#[trigger] a[i]) is Some implies {
            let y = a[i]->Some_0;
            1 <= y.id.0 < after.next_id_value()
        } by {
            if i != f {
                assert(a[i] == s[i]);
            }
        }
        assert forall|i: int, j: int|
            0 <= i < MAX_TASKS && 0 <= j < MAX_TASKS && i != j && (#[trigger] a[i]) is Some && (#[trigger] a[j]) is Some
                implies a[i]->Some_0.id != a[j]->Some_0.id by {
            if i != f && j != f {
                assert(a[i] == s[i] && a[j] == s[j]);
            } else if i == f {
                assert(a[j] == s[j]);
            } else {
                assert(a[i] == s[i]);
            }
        }
        assert forall|i: int| 0 <= i < MAX_TASKS && is_running(#[trigger] a[i]) implies i == after.current_slot() by {
            if i != f {
                assert(a[i] == s[i]);
            }
        }
    }
}

/// Charging: a tick that finds a running task in the current slot leaves
/// that task with one more tick than before, and it changes the ticks of no
/// other task; no slot gains or loses its task.
pub proof fn lemma_tick_charges(before: Scheduler, after: Scheduler)
    requires
        before.wf(),
        tick_allowed(before),
        tick_outcome(before, after),
    ensures
        ({
            let c = before.current_slot();
            is_running(before.slots()[c]) ==> {
                &&& after.slots()[c] is Some
                &&& after.slots()[c]->Some_0.ticks == before.slots()[c]->Some_0.ticks + 1
            }
        }),
        forall|i: int|
            0 <= i < MAX_TASKS ==> {
                &&& ((#[trigger] after.slots()[i]) is Some <==> before.slots()[i] is Some)
                &&& (before.slots()[i] is Some && !(i == before.current_slot() && is_running(before.slots()[i])))
                    ==> after.slots()[i]->Some_0.ticks == before.slots()[i]->Some_0.ticks
            },
{
    let s = before.slots();
    let c = before.current_slot();
    let t = charged(s, c);
    lemma_next_ready_found(t, c, 1);
    let o = next_ready(t, c, 1);
    assert forall|i: int| 0 <= i < MAX_TASKS implies (#[trigger] t[i] is Some) == (s[i] is Some)
        && (s[i] is Some && !(i == c && is_running(s[i])) ==> t[i]->Some_0.ticks == s[i]->Some_0.ticks) by {
        if i != c {
            assert(t[i] == s[i]);
        }
    }
    if is_running(s[c]) {
        assert(t[c]->Some_0.ticks == s[c]->Some_0.ticks + 1);
    }
    if o <= MAX_TASKS {
        let k = slot_after(c, o);
        assert forall|i: int| 0 <= i < MAX_TASKS implies (#[trigger] after.slots()[i] is Some) == (t[i] is Some)
            && (t[i] is Some ==> after.slots()[i]->Some_0.ticks == t[i]->Some_0.ticks) by {
            if i != k {
                assert(after.slots()[i] == t[i]);
            }
        }
    }
}

/// Round robin, stated on the slots before the tick: when some task is
/// ready or running, the tick makes current the first slot after the
/// current one, going round the table, that holds a ready task, or the
/// current slot itself when no other slot does (its task having been ready
/// or running); that slot's task is then the one running.  When no task is
/// ready or running, the current slot stays and nothing runs.
pub proof fn lemma_tick_round_robin(before: Scheduler, after: Scheduler)
    requires
        before.wf(),
        tick_outcome(before, after),
    ensures
        (exists|k: int| 0 <= k < MAX_TASKS && is_active(#[trigger] before.slots()[k])) ==> exists|o: int|
            #![trigger slot_after(before.current_slot(), o)]
            1 <= o <= MAX_TASKS && {
                let k = slot_after(before.current_slot(), o);
                &&& after.current_slot() == k
                &&& is_running(after.slots()[k])
                &&& (is_ready(before.slots()[k]) || (o == MAX_TASKS && is_running(before.slots()[k])))
                &&& forall|o2: int|
                    1 <= o2 < o ==> !is_ready(
                        #[trigger] before.slots()[(before.current_slot() + o2) % (MAX_TASKS as int)],
                    )
            },
        !(exists|k: int| 0 <= k < MAX_TASKS && is_active(#[trigger] before.slots()[k])) ==> {
            &&& after.current_slot() == before.current_slot()
            &&& forall|k: int| 0 <= k < MAX_TASKS ==> !is_running(#[trigger] after.slots()[k])
        },
{
    let s = before.slots();
    let c = before.current_slot();
    let t = charged(s, c);
    assert forall|i: int| 0 <= i < MAX_TASKS implies !is_running(#[trigger] t[i]) && (is_active(t[i]) == is_active(s[i])) by {
        if i != c {
            assert(t[i] == s[i]);
        }
    }
    lemma_next_ready_found(t, c, 1);
    let o = next_ready(t, c, 1);
    if exists|k: int| 0 <= k < MAX_TASKS && is_active(#[trigger] s[k]) {
        let k = choose|k: int| 0 <= k < MAX_TASKS && is_active(#[trigger] s[k]);
        lemma_reach_slot(t, c, k);
        let j = slot_after(c, o);
        assert(after.current_slot() == j);
        assert(after.slots()[j] == started(t, j)[j]);
        if o < MAX_TASKS {
            assert(j != c);
            assert(t[j] == s[j]);
        }
        assert forall|o2: int| 1 <= o2 < o implies !is_ready(#[trigger] s[(c + o2) % (MAX_TASKS as int)]) by {
            assert(!is_ready(t[slot_after(c, o2)]));
            assert((c + o2) % (MAX_TASKS as int) != c);
        }
        assert(1 <= o <= MAX_TASKS && {
            let k = slot_after(c, o);
            &&& after.current_slot() == k
            &&& is_running(after.slots()[k])
            &&& (is_ready(s[k]) || (o == MAX_TASKS && is_running(s[k])))
            &&& forall|o2: int| 1 <= o2 < o ==> !is_ready(#[trigger] s[(c + o2) % (MAX_TASKS as int)])
        });
    } else {
        if o <= MAX_TASKS {
            assert(is_ready(t[slot_after(c, o)]));
            assert(is_active(s[slot_after(c, o)]));
        }
        assert forall|k: int| 0 <= k < MAX_TASKS implies !is_running(#[trigger] after.slots()[k]) by {
            assert(after.slots()[k] == t[k]);
        }
    }
}

/// Spawning, stated on the slots: a task is created exactly when some slot
/// is empty; it goes into the lowest-numbered empty slot, as a ready task
/// with no ticks and the next identifier, which is returned; every other
/// slot keeps its contents.  With no empty slot nothing changes.
pub proof fn lemma_spawn_lowest_free_slot(before: Scheduler, after: Scheduler, r: Option<TaskId>)
    requires
        before.wf(),
        spawn_outcome(before, after, r),
    ensures
        r is Some <==> exists|i: int| 0 <= i < MAX_TASKS && (#[trigger] before.slots()[i]) is None,
        r matches Some(id) ==> {
            &&& id.0 == before.next_id_value()
            &&& after.next_id_value() == before.next_id_value() + 1
            &&& exists|f: int|
                0 <= f < MAX_TASKS && before.slots()[f] is None && (forall|j: int|
                    0 <= j < f ==> (#[trigger] before.slots()[j]) is Some) && after.slots()[f] == Some(
                    TaskControlBlock { id, state: TaskState::Ready, ticks: 0 },
                ) && (forall|j: int| 0 <= j < MAX_TASKS && j != f ==> #[trigger] after.slots()[j] == before.slots()[j])
        },
        r is None ==> after.slots() == before.slots() && after.next_id_value() == before.next_id_value(),
{
    let s = before.slots();
    lemma_first_free_bounds(s, 0);
    let f = first_free(s, 0);
    if f < MAX_TASKS {
        assert(s[f] is None);
        let id = r->Some_0;
        assert(forall|j: int| 0 <= j < f ==> (#[trigger] s[j]) is Some);
        assert(forall|j: int| 0 <= j < MAX_TASKS && j != f ==> #[trigger] after.slots()[j] == s[j]);
        assert(after.slots()[f] == Some(TaskControlBlock { id, state: TaskState::Ready, ticks: 0 }));
    } else {
        assert forall|i: int| 0 <= i < MAX_TASKS implies (#[trigger] s[i]) is Some by {
        }
    }
}

} // verus!
