//! The ready queue: FIFO and stride-ordered dispatch.
use vstd::prelude::*;

verus! {

/// Numerator of the stride pass: a task of priority `p` advances by `BIG_STRIDE / p`.
pub const BIG_STRIDE: u64 = 0x100000;

/// Scheduling state of a task; a task is in exactly one of them.
#[derive(Clone, Copy, Debug, PartialEq, Eq, Structural)]
pub enum TaskStatus {
    Ready,
    Running,
    Blocked,
    Exited,
}

/// A runnable task as the ready queue sees it.
#[derive(Clone, Copy, Debug, PartialEq, Eq, Structural)]
pub struct Task {
    pub tid: usize,
    pub stride: u64,
    pub priority: u64,
}

impl Task {
    /// A task that has not run yet.
    pub fn new(tid: usize, priority: u64) -> (t: Task)
        ensures
            t == (Task { tid, stride: 0, priority }),
    {
        Task { tid, stride: 0, priority }
    }

    /// How far the stride advances each time the task is dispatched.
    pub fn pass(&self) -> (p: u64)
        requires
            self.priority > 0,
        ensures
            p == BIG_STRIDE / self.priority,
    {
        BIG_STRIDE / self.priority
    }

    /// Advances the stride by one pass, after the task has run.
    pub fn advance_stride(&mut self)
        requires
            old(self).priority > 0,
            old(self).stride + BIG_STRIDE / old(self).priority <= u64::MAX,
        ensures
            *final(self) == (Task {
                stride: (old(self).stride + BIG_STRIDE / old(self).priority) as u64,
                ..*old(self)
            }),
    {
        let p = self.pass();
        self.stride = self.stride + p;
    }
}

/// Index `i` holds the smallest stride of `q`, and no earlier entry has it.
pub open spec fn first_min_stride(q: Seq<Task>, i: int) -> bool {
    &&& 0 <= i < q.len()
    &&& forall|j: int| 0 <= j < q.len() ==> q[i].stride <= #[trigger] q[j].stride
    &&& forall|j: int| 0 <= j < i ==> q[i].stride < #[trigger] q[j].stride
}

/// The ready queue. A deployment dispatches with either `fetch` or `stride_fetch`,
/// not both.
pub struct TaskManager {
    ready_queue: std::collections::VecDeque<Task>,
}

impl View for TaskManager {
    type V = Seq<Task>;

    closed spec fn view(&self) -> Seq<Task> {
        self.ready_queue@
    }
}

impl TaskManager {
    /// An empty ready queue.
    pub fn new() -> (m: Self)
        ensures
            m@ == Seq::<Task>::empty(),
    {
        TaskManager { ready_queue: std::collections::VecDeque::new() }
    }

    /// Appends `task` at the tail.
    pub fn add(&mut self, task: Task)
        ensures
            final(self)@ == old(self)@.push(task),
    {
        self.ready_queue.push_back(task);
    }

    /// Removes and returns the head; `None` on an empty queue.
    pub fn fetch(&mut self) -> (t: Option<Task>)
        ensures
            old(self)@.len() == 0 ==> t.is_none() && final(self)@ == old(self)@,
            old(self)@.len() > 0 ==> t == Some(old(self)@[0]) && final(self)@ == old(self)@.drop_first(),
    {
        let t = self.ready_queue.pop_front();
        proof {
            if old(self)@.len() > 0 {
                assert(old(self)@.drop_first() =~= old(self)@.subrange(1, old(self)@.len() as int));
            }
        }
        t
    }

    /// Removes and returns the task with the smallest stride, the earliest queued among
    /// equals; `None` on an empty queue.
    pub fn stride_fetch(&mut self) -> (t: Option<Task>)
        ensures
            old(self)@.len() == 0 ==> t.is_none() && final(self)@ == old(self)@,
            old(self)@.len() > 0 ==> exists|i: int|
                #[trigger] first_min_stride(old(self)@, i) && t == Some(old(self)@[i])
                    && final(self)@ == old(self)@.remove(i),
    {
        let n = self.ready_queue.len();
        if n == 0 {
            return None;
        }
        let mut best: usize = 0;
        let mut i: usize = 1;
        while i < n
            invariant
                n == self.ready_queue@.len(),
                self.ready_queue@ == old(self)@,
                1 <= i <= n,
                best < i,
                forall|j: int| 0 <= j < i ==> self.ready_queue@[best as int].stride <= #[trigger] self.ready_queue@[j].stride,
                forall|j: int| 0 <= j < best ==> self.ready_queue@[best as int].stride < #[trigger] self.ready_queue@[j].stride,
            decreases n - i,
        {
            if self.ready_queue[i].stride < self.ready_queue[best].stride {
                best = i;
            }
            i = i + 1;
        }
        let t = self.ready_queue.remove(best);
        proof {
            assert(first_min_stride(old(self)@, best as int));
        }
        t
    }

    /// Number of queued tasks.
    pub fn len(&self) -> (n: usize)
        ensures
            n == self@.len(),
    {
        self.ready_queue.len()
    }
}

} // verus!
