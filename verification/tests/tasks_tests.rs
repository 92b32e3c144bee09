use orbit::tasks::{
    init, on_timer_tick, ready_tasks, spawn_kernel_task, Scheduler, TaskControlBlock, TaskId, TaskState,
    MAX_TASKS,
};

fn running_slots(s: &Scheduler) -> Vec<usize> {
    (0..MAX_TASKS).filter(|&i| matches!(s.slot(i), Some(t) if t.state == TaskState::Running)).collect()
}

#[test]
fn spawn_hands_out_increasing_ids_in_the_first_free_slots() {
    let mut s = Scheduler::new();
    assert_eq!(s.spawn(), Some(TaskId(1)));
    assert_eq!(spawn_kernel_task(&mut s), Some(TaskId(2)));
    assert_eq!(s.slot(0), Some(TaskControlBlock { id: TaskId(1), state: TaskState::Ready, ticks: 0 }));
    assert_eq!(s.slot(1), Some(TaskControlBlock { id: TaskId(2), state: TaskState::Ready, ticks: 0 }));
    assert_eq!(s.slot(2), None);
    assert_eq!(s.next_task_id(), 3);
    assert_eq!(ready_tasks(&s), 2);
}

#[test]
fn spawn_fails_when_every_slot_is_taken() {
    let mut s = Scheduler::new();
    for i in 0..MAX_TASKS {
        assert_eq!(s.spawn(), Some(TaskId(i as u64 + 1)));
    }
    assert_eq!(s.ready_count(), MAX_TASKS);
    assert_eq!(s.spawn(), None);
    assert_eq!(s.next_task_id(), MAX_TASKS as u64 + 1);
    assert_eq!(s.ready_count(), MAX_TASKS);
}

#[test]
fn init_creates_the_idle_and_the_kernel_task() {
    let mut s = Scheduler::new();
    assert_eq!(init(&mut s), (Some(TaskId(1)), Some(TaskId(2))));
    assert_eq!(ready_tasks(&s), 2);
}

#[test]
fn tick_goes_round_robin() {
    let mut s = Scheduler::new();
    s.spawn();
    s.spawn();
    s.spawn();
    // slot 0 is current but not running: the search starts after it
    s.tick();
    assert_eq!(s.current(), 1);
    assert_eq!(running_slots(&s), vec![1]);
    s.tick();
    assert_eq!(s.current(), 2);
    assert_eq!(s.slot(1).unwrap().ticks, 1);
    assert_eq!(s.slot(1).unwrap().state, TaskState::Ready);
    s.tick();
    assert_eq!(s.current(), 0);
    s.tick();
    assert_eq!(s.current(), 1);
    assert_eq!(s.slot(1).unwrap().ticks, 1);
    assert_eq!(s.slot(2).unwrap().ticks, 1);
    assert_eq!(s.slot(0).unwrap().ticks, 1);
    assert_eq!(running_slots(&s), vec![1]);
}

#[test]
fn tick_keeps_the_ready_count() {
    let mut s = Scheduler::new();
    for _ in 0..5 {
        s.spawn();
    }
    for _ in 0..12 {
        s.tick();
        assert_eq!(s.ready_count(), 5);
        assert_eq!(running_slots(&s).len(), 1);
    }
}

#[test]
fn a_lone_task_keeps_running() {
    let mut s = Scheduler::new();
    s.spawn();
    s.tick();
    assert_eq!(s.current(), 0);
    assert_eq!(running_slots(&s), vec![0]);
    s.tick();
    assert_eq!(s.current(), 0);
    assert_eq!(s.slot(0).unwrap().ticks, 1);
    assert_eq!(running_slots(&s), vec![0]);
}

#[test]
fn tick_without_tasks_changes_nothing() {
    let mut s = Scheduler::new();
    s.tick();
    assert_eq!(s.current(), 0);
    assert_eq!(s.ready_count(), 0);
    assert!(running_slots(&s).is_empty());
}

#[test]
fn timer_tick_counts_and_wraps() {
    let mut s = Scheduler::new();
    s.spawn();
    let mut ticks: u64 = 0;
    on_timer_tick(&mut s, &mut ticks);
    assert_eq!(ticks, 1);
    assert_eq!(running_slots(&s), vec![0]);
    let mut ticks: u64 = u64::MAX;
    on_timer_tick(&mut s, &mut ticks);
    assert_eq!(ticks, 0);
}
