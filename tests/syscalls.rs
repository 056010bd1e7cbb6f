use os_sync::info::{TaskInfo, TimeVal, MAX_SYSCALL_NUM};
use os_sync::manager::TaskStatus;
use os_sync::process::{
    mutex_lock_retry, sys_condvar_create, sys_condvar_signal, sys_condvar_wait,
    sys_enable_deadlock_detect, sys_mutex_create, sys_mutex_lock, sys_mutex_unlock,
    sys_semaphore_create, sys_semaphore_down, sys_semaphore_up, sys_sleep, sys_yield, Next,
    Process, SysOutcome, DEAD,
};

fn ok(next: Next, wake: Option<usize>) -> SysOutcome {
    SysOutcome { ret: 0, next, wake }
}

#[test]
fn create_returns_consecutive_handles() {
    let mut p = Process::new(1);
    assert_eq!(sys_mutex_create(&mut p, true), 0);
    assert_eq!(sys_mutex_create(&mut p, false), 1);
    assert_eq!(sys_semaphore_create(&mut p, 3), 0);
    assert_eq!(sys_condvar_create(&mut p), 0);
    assert_eq!(sys_condvar_create(&mut p), 1);
    assert_eq!(p.tracker().resource_count_exec(), 3);
    assert_eq!(p.tracker().capacity_of(2), 3);
}

#[test]
fn blocking_mutex_hands_off_to_first_waiter() {
    let mut p = Process::new(3);
    let m = sys_mutex_create(&mut p, true) as usize;
    assert_eq!(sys_mutex_lock(&mut p, 0, m), ok(Next::Resume, None));
    assert_eq!(sys_mutex_lock(&mut p, 1, m), ok(Next::Block, None));
    assert_eq!(sys_mutex_lock(&mut p, 2, m), ok(Next::Block, None));
    assert_eq!(sys_mutex_unlock(&mut p, 0, m), ok(Next::Resume, Some(1)));
    assert_eq!(p.tracker().alloc_of(1, 0), 1);
    assert_eq!(sys_mutex_unlock(&mut p, 1, m), ok(Next::Resume, Some(2)));
    assert_eq!(sys_mutex_unlock(&mut p, 2, m), ok(Next::Resume, None));
    assert_eq!(p.tracker().avail_of(0), 1);
}

#[test]
fn spin_mutex_asks_to_retry() {
    let mut p = Process::new(2);
    let m = sys_mutex_create(&mut p, false) as usize;
    assert_eq!(sys_mutex_lock(&mut p, 0, m), ok(Next::Resume, None));
    assert_eq!(sys_mutex_lock(&mut p, 1, m), ok(Next::Retry, None));
    assert_eq!(mutex_lock_retry(&mut p, 1, m), ok(Next::Retry, None));
    assert_eq!(sys_mutex_unlock(&mut p, 0, m), ok(Next::Resume, None));
    assert_eq!(mutex_lock_retry(&mut p, 1, m), ok(Next::Resume, None));
    assert_eq!(p.tracker().alloc_of(1, 0), 1);
}

#[test]
fn crossed_mutexes_report_dead() {
    let mut p = Process::new(2);
    let a = sys_mutex_create(&mut p, true) as usize;
    let b = sys_mutex_create(&mut p, true) as usize;
    assert_eq!(sys_enable_deadlock_detect(&mut p, 1), 0);
    assert_eq!(sys_mutex_lock(&mut p, 0, a), ok(Next::Resume, None));
    assert_eq!(sys_mutex_lock(&mut p, 1, b), ok(Next::Resume, None));
    assert_eq!(sys_mutex_lock(&mut p, 0, b), ok(Next::Block, None));
    let before = p.tracker().clone();
    let o = sys_mutex_lock(&mut p, 1, a);
    assert_eq!(o.ret, DEAD);
    assert_eq!(o.next, Next::Resume);
    assert_eq!(p.tracker(), &before);
}

#[test]
fn crossed_mutexes_block_without_detection() {
    let mut p = Process::new(2);
    let a = sys_mutex_create(&mut p, true) as usize;
    let b = sys_mutex_create(&mut p, true) as usize;
    assert_eq!(sys_mutex_lock(&mut p, 0, a), ok(Next::Resume, None));
    assert_eq!(sys_mutex_lock(&mut p, 1, b), ok(Next::Resume, None));
    assert_eq!(sys_mutex_lock(&mut p, 0, b), ok(Next::Block, None));
    assert_eq!(sys_mutex_lock(&mut p, 1, a), ok(Next::Block, None));
}

#[test]
fn enable_detection_needs_a_resource_and_a_flag() {
    let mut p = Process::new(2);
    assert_eq!(sys_enable_deadlock_detect(&mut p, 1), -1);
    sys_semaphore_create(&mut p, 2);
    assert_eq!(sys_enable_deadlock_detect(&mut p, 2), -1);
    assert_eq!(sys_enable_deadlock_detect(&mut p, 1), 0);
    assert!(p.tracker().is_enabled());
    assert_eq!(p.tracker().task_count_exec(), 2);
    assert_eq!(sys_enable_deadlock_detect(&mut p, 0), 0);
    assert!(!p.tracker().is_enabled());
}

#[test]
fn semaphore_parks_and_wakes_in_order() {
    let mut p = Process::new(3);
    let s = sys_semaphore_create(&mut p, 1) as usize;
    assert_eq!(sys_semaphore_down(&mut p, 0, s), ok(Next::Resume, None));
    assert_eq!(sys_semaphore_down(&mut p, 1, s), ok(Next::Block, None));
    assert_eq!(sys_semaphore_down(&mut p, 2, s), ok(Next::Block, None));
    assert_eq!(sys_semaphore_up(&mut p, 0, s), ok(Next::Resume, Some(1)));
    assert_eq!(sys_semaphore_up(&mut p, 1, s), ok(Next::Resume, Some(2)));
    assert_eq!(sys_semaphore_up(&mut p, 2, s), ok(Next::Resume, None));
    assert_eq!(p.tracker().avail_of(0), 1);
}

#[test]
fn semaphore_deadlock_is_reported() {
    let mut p = Process::new(2);
    let s = sys_semaphore_create(&mut p, 1) as usize;
    let t = sys_semaphore_create(&mut p, 1) as usize;
    assert_eq!(sys_enable_deadlock_detect(&mut p, 1), 0);
    assert_eq!(sys_semaphore_down(&mut p, 0, s), ok(Next::Resume, None));
    assert_eq!(sys_semaphore_down(&mut p, 1, t), ok(Next::Resume, None));
    assert_eq!(sys_semaphore_down(&mut p, 0, t), ok(Next::Block, None));
    assert_eq!(sys_semaphore_down(&mut p, 1, s).ret, DEAD);
}

#[test]
fn unknown_handles_are_refused() {
    let mut p = Process::new(1);
    assert_eq!(sys_mutex_lock(&mut p, 0, 0).ret, -1);
    assert_eq!(sys_mutex_unlock(&mut p, 0, 0).ret, -1);
    assert_eq!(mutex_lock_retry(&mut p, 0, 0).ret, -1);
    assert_eq!(sys_semaphore_down(&mut p, 0, 0).ret, -1);
    assert_eq!(sys_semaphore_up(&mut p, 0, 0).ret, -1);
    assert_eq!(sys_condvar_signal(&mut p, 0).ret, -1);
    assert_eq!(sys_condvar_wait(&mut p, 0, 0, 0).ret, -1);
}

#[test]
fn condvar_wait_releases_mutex_and_signal_wakes() {
    let mut p = Process::new(3);
    let m = sys_mutex_create(&mut p, true) as usize;
    let c = sys_condvar_create(&mut p) as usize;
    assert_eq!(sys_condvar_signal(&mut p, c), ok(Next::Resume, None));
    assert_eq!(sys_mutex_lock(&mut p, 0, m), ok(Next::Resume, None));
    assert_eq!(sys_mutex_lock(&mut p, 1, m), ok(Next::Block, None));
    // task 0 waits: the mutex passes to task 1
    assert_eq!(sys_condvar_wait(&mut p, 0, c, m), ok(Next::Block, Some(1)));
    assert_eq!(p.tracker().alloc_of(1, 0), 1);
    assert_eq!(p.tracker().alloc_of(0, 0), 0);
    assert_eq!(sys_condvar_signal(&mut p, c), ok(Next::Resume, Some(0)));
    assert_eq!(sys_condvar_signal(&mut p, c), ok(Next::Resume, None));
}

#[test]
fn sleep_yield_and_time() {
    assert_eq!(sys_sleep(1500, 250), 1750);
    assert_eq!(sys_yield(), ok(Next::Yield, None));
    assert_eq!(TimeVal::from_us(1_234_567), TimeVal { sec: 1, usec: 234_567 });
    assert_eq!(TimeVal::from_us(999_999), TimeVal { sec: 0, usec: 999_999 });
}

#[test]
fn task_info_keeps_last_count_per_call() {
    let counts = vec![(64usize, 3u32), (93, 1), (64, 5), (MAX_SYSCALL_NUM, 9)];
    let info = TaskInfo::new(TaskStatus::Running, &counts, 42);
    assert_eq!(info.status, TaskStatus::Running);
    assert_eq!(info.time, 42);
    assert_eq!(info.syscall_times[64], 5);
    assert_eq!(info.syscall_times[93], 1);
    assert_eq!(info.syscall_times[0], 0);
    assert_eq!(info.syscall_times.iter().map(|&c| c as u64).sum::<u64>(), 6);
}

#[test]
fn threads_are_counted() {
    let mut p = Process::new(1);
    assert_eq!(p.add_thread(), 1);
    assert_eq!(p.thread_count(), 2);
}
