//! Values a task reads about itself: the time, and its own statistics.
use vstd::prelude::*;
use crate::manager::TaskStatus;

verus! {

/// Number of system call numbers counted per task.
pub const MAX_SYSCALL_NUM: usize = 500;

/// Microseconds in a second.
pub const USEC_PER_SEC: usize = 1_000_000;

/// A time split into whole seconds and the microseconds beyond them.
#[derive(Clone, Copy, Debug, PartialEq, Eq, Structural)]
pub struct TimeVal {
    pub sec: usize,
    pub usec: usize,
}

impl TimeVal {
    /// Splits `us` microseconds into seconds and microseconds.
    pub fn from_us(us: usize) -> (t: TimeVal)
        ensures
            t.sec == us / USEC_PER_SEC,
            t.usec == us % USEC_PER_SEC,
            t.usec < USEC_PER_SEC,
            t.sec * USEC_PER_SEC + t.usec == us,
    {
        let t = TimeVal { sec: us / USEC_PER_SEC, usec: us % USEC_PER_SEC };
        proof {
            assert(t.sec * USEC_PER_SEC + t.usec == us) by (nonlinear_arith)
                requires
                    t.sec == us / 1_000_000usize,
                    t.usec == us % 1_000_000usize,
            ;
        }
        t
    }
}

/// The count recorded for system call `k` among the first `n` pairs of `counts`:
/// the last pair that names `k` wins, and no pair means zero.
pub open spec fn count_for(counts: Seq<(usize, u32)>, k: int, n: int) -> u32
    decreases n,
{
    if n <= 0 {
        0
    } else if counts[n - 1].0 == k {
        counts[n - 1].1
    } else {
        count_for(counts, k, n - 1)
    }
}

/// A table indexed by system call number holding the count `counts` records for
/// each number; pairs naming a number past the table are left out.
pub fn syscall_table(counts: &Vec<(usize, u32)>) -> (table: [u32; MAX_SYSCALL_NUM])
    ensures
        forall|k: int|
            0 <= k < MAX_SYSCALL_NUM ==> #[trigger] table@[k] == count_for(
                counts@,
                k,
                counts@.len() as int,
            ),
{
    let mut table = [0u32; MAX_SYSCALL_NUM];
    let mut i: usize = 0;
    proof {
        assert forall|k: int| 0 <= k < MAX_SYSCALL_NUM implies #[trigger] table@[k] == count_for(
            counts@,
            k,
            0,
        ) by {}
    }
    while i < counts.len()
        invariant
            i <= counts.len(),
            table@.len() == MAX_SYSCALL_NUM,
            forall|k: int|
                0 <= k < MAX_SYSCALL_NUM ==> #[trigger] table@[k] == count_for(
                    counts@,
                    k,
                    i as int,
                ),
        decreases counts.len() - i,
    {
        let (id, cnt) = counts[i];
        if id < MAX_SYSCALL_NUM {
            table[id] = cnt;
        }
        i = i + 1;
    }
    table
}

/// What a task reports about itself.
pub struct TaskInfo {
    pub status: TaskStatus,
    pub syscall_times: [u32; MAX_SYSCALL_NUM],
    pub time: usize,
}

impl TaskInfo {
    /// Gathers `status`, the per-call `counts` as (call number, count) pairs, and
    /// `time`. Pairs naming a call number past the table are left out.
    pub fn new(status: TaskStatus, counts: &Vec<(usize, u32)>, time: usize) -> (info: TaskInfo)
        ensures
            info.status == status,
            info.time == time,
            forall|k: int|
                0 <= k < MAX_SYSCALL_NUM ==> #[trigger] info.syscall_times@[k] == count_for(
                    counts@,
                    k,
                    counts@.len() as int,
                ),
    {
        let table = syscall_table(counts);
        TaskInfo { status, syscall_times: table, time }
    }
}

} // verus!
