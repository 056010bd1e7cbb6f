use os_sync::manager::{Task, TaskManager, BIG_STRIDE};

fn with_stride(tid: usize, stride: u64) -> Task {
    Task { tid, stride, priority: 16 }
}

#[test]
fn fifo_order_is_kept() {
    let mut m = TaskManager::new();
    m.add(Task::new(10, 16));
    m.add(Task::new(11, 16));
    m.add(Task::new(12, 16));
    assert_eq!(m.len(), 3);
    assert_eq!(m.fetch().map(|t| t.tid), Some(10));
    assert_eq!(m.fetch().map(|t| t.tid), Some(11));
    assert_eq!(m.fetch().map(|t| t.tid), Some(12));
    assert_eq!(m.fetch(), None);
}

#[test]
fn stride_order_is_ascending() {
    let mut m = TaskManager::new();
    m.add(with_stride(0, 30));
    m.add(with_stride(1, 10));
    m.add(with_stride(2, 20));
    assert_eq!(m.stride_fetch().map(|t| t.stride), Some(10));
    assert_eq!(m.stride_fetch().map(|t| t.stride), Some(20));
    assert_eq!(m.stride_fetch().map(|t| t.stride), Some(30));
    assert_eq!(m.stride_fetch(), None);
}

#[test]
fn equal_strides_leave_in_queue_order() {
    let mut m = TaskManager::new();
    m.add(with_stride(7, 5));
    m.add(with_stride(3, 5));
    m.add(with_stride(9, 1));
    m.add(with_stride(1, 5));
    assert_eq!(m.stride_fetch().map(|t| t.tid), Some(9));
    assert_eq!(m.stride_fetch().map(|t| t.tid), Some(7));
    assert_eq!(m.stride_fetch().map(|t| t.tid), Some(3));
    assert_eq!(m.stride_fetch().map(|t| t.tid), Some(1));
}

#[test]
fn empty_queue_gives_nothing() {
    let mut m = TaskManager::new();
    assert_eq!(m.fetch(), None);
    assert_eq!(m.stride_fetch(), None);
    assert_eq!(m.len(), 0);
}

#[test]
fn stride_advances_by_pass() {
    let mut t = Task::new(1, 16);
    assert_eq!(t.stride, 0);
    assert_eq!(t.pass(), BIG_STRIDE / 16);
    assert_eq!(t.pass(), 65536);
    t.advance_stride();
    t.advance_stride();
    assert_eq!(t.stride, 131072);
    let low = Task::new(2, 2);
    assert_eq!(low.pass(), 524288);
}
