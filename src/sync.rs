//! Blocking primitives: mutexes, counting semaphores and condition variables,
//! each with a FIFO wait list of task handles.
use vstd::prelude::*;

verus! {

/// How a mutex waits when it is held.
#[derive(Clone, Copy, Debug, PartialEq, Eq, Structural)]
pub enum MutexKind {
    /// The caller keeps its context and yields between attempts.
    Spin,
    /// The caller is parked on the wait list.
    Blocking,
}

/// Result of an attempt to acquire a primitive.
#[derive(Clone, Copy, Debug, PartialEq, Eq, Structural)]
pub enum Acquire {
    /// The caller holds it now.
    Granted,
    /// The caller joined the wait list and must be blocked until woken.
    Parked,
    /// The caller must yield and try again.
    Busy,
}

/// `new` is `old` after task `tid` tried to lock it, with answer `a`: a free mutex is
/// granted; a held blocking one parks the caller at the tail of the wait list; a held
/// spin one is left as it was.
pub open spec fn lock_step(old: Mutex, tid: usize, a: Acquire, new: Mutex) -> bool {
    &&& new.kind() == old.kind()
    &&& new.resource() == old.resource()
    &&& new.is_locked()
    &&& !old.is_locked() ==> a == Acquire::Granted && new.waiters() == old.waiters()
    &&& old.is_locked() && old.kind() == MutexKind::Blocking ==> a == Acquire::Parked
        && new.waiters() == old.waiters().push(tid)
    &&& old.is_locked() && old.kind() == MutexKind::Spin ==> a == Acquire::Busy && new.waiters()
        == old.waiters()
}

/// `new` is `old` after an unlock that woke `woken`: with a task waiting, ownership
/// passes to the head of the wait list; otherwise the mutex is free.
pub open spec fn unlock_step(old: Mutex, woken: Option<usize>, new: Mutex) -> bool {
    &&& new.kind() == old.kind()
    &&& new.resource() == old.resource()
    &&& old.waiters().len() > 0 ==> woken == Some(old.waiters()[0]) && new.is_locked()
        && new.waiters() == old.waiters().drop_first()
    &&& old.waiters().len() == 0 ==> woken.is_none() && !new.is_locked() && new.waiters()
        == old.waiters()
}

/// `new` is `old` after task `tid` asked for a unit, with answer `a`.
pub open spec fn down_step(old: Semaphore, tid: usize, a: Acquire, new: Semaphore) -> bool {
    &&& new.resource() == old.resource()
    &&& old.count() > 0 ==> a == Acquire::Granted && new.count() == old.count() - 1
        && new.waiters() == old.waiters()
    &&& old.count() == 0 ==> a == Acquire::Parked && new.count() == 0 && new.waiters()
        == old.waiters().push(tid)
}

/// `new` is `old` after a unit came back and woke `woken`.
pub open spec fn up_step(old: Semaphore, woken: Option<usize>, new: Semaphore) -> bool {
    &&& new.resource() == old.resource()
    &&& old.waiters().len() > 0 ==> woken == Some(old.waiters()[0]) && new.count() == old.count()
        && new.waiters() == old.waiters().drop_first()
    &&& old.waiters().len() == 0 ==> woken.is_none() && new.count() == old.count() + 1
        && new.waiters() == old.waiters()
}

/// `new` is `old` after a signal that woke `woken`.
pub open spec fn signal_step(old: Condvar, woken: Option<usize>, new: Condvar) -> bool {
    &&& old.waiters().len() > 0 ==> woken == Some(old.waiters()[0]) && new.waiters()
        == old.waiters().drop_first()
    &&& old.waiters().len() == 0 ==> woken.is_none() && new.waiters() == old.waiters()
}

/// The answer `lock` gives on `m`.
pub open spec fn lock_answer(m: Mutex) -> Acquire {
    if !m.is_locked() {
        Acquire::Granted
    } else if m.kind() == MutexKind::Blocking {
        Acquire::Parked
    } else {
        Acquire::Busy
    }
}

/// The task `unlock` wakes on `m`.
pub open spec fn unlock_woken(m: Mutex) -> Option<usize> {
    if m.waiters().len() > 0 {
        Some(m.waiters()[0])
    } else {
        None
    }
}

/// The answer `down` gives on `s`.
pub open spec fn down_answer(s: Semaphore) -> Acquire {
    if s.count() > 0 {
        Acquire::Granted
    } else {
        Acquire::Parked
    }
}

/// The task `up` wakes on `s`.
pub open spec fn up_woken(s: Semaphore) -> Option<usize> {
    if s.waiters().len() > 0 {
        Some(s.waiters()[0])
    } else {
        None
    }
}

/// The task `signal` wakes on `c`.
pub open spec fn signal_woken(c: Condvar) -> Option<usize> {
    if c.waiters().len() > 0 {
        Some(c.waiters()[0])
    } else {
        None
    }
}

/// A mutex guarding one unit of a tracked resource.
pub struct Mutex {
    kind: MutexKind,
    locked: bool,
    wait_queue: std::collections::VecDeque<usize>,
    res: usize,
}

impl Mutex {
    pub closed spec fn kind(&self) -> MutexKind {
        self.kind
    }

    pub closed spec fn is_locked(&self) -> bool {
        self.locked
    }

    /// Parked tasks, first to be served first.
    pub closed spec fn waiters(&self) -> Seq<usize> {
        self.wait_queue@
    }

    /// Handle of the tracked resource this mutex stands for.
    pub closed spec fn resource(&self) -> usize {
        self.res
    }

    /// A free mutex for resource `res`.
    pub fn new(kind: MutexKind, res: usize) -> (m: Self)
        ensures
            m.kind() == kind,
            !m.is_locked(),
            m.waiters() == Seq::<usize>::empty(),
            m.resource() == res,
    {
        Mutex { kind, locked: false, wait_queue: std::collections::VecDeque::new(), res }
    }

    /// Handle of the tracked resource this mutex stands for.
    pub fn resource_id(&self) -> (r: usize)
        ensures
            r == self.resource(),
    {
        self.res
    }

    /// Task `tid` tries to take the mutex: a free one is granted; a held blocking one
    /// parks the caller at the tail of the wait list; a held spin one leaves all as it was.
    pub fn lock(&mut self, tid: usize) -> (a: Acquire)
        ensures
            lock_step(*old(self), tid, a, *final(self)),
    {
        if !self.locked {
            self.locked = true;
            return Acquire::Granted;
        }
        match self.kind {
            MutexKind::Spin => Acquire::Busy,
            MutexKind::Blocking => {
                self.wait_queue.push_back(tid);
                Acquire::Parked
            },
        }
    }

    /// Gives the mutex up. With a task waiting, ownership passes straight to the head
    /// of the wait list, which is returned to be woken; otherwise the mutex is free.
    pub fn unlock(&mut self) -> (woken: Option<usize>)
        ensures
            unlock_step(*old(self), woken, *final(self)),
    {
        let w = self.wait_queue.pop_front();
        match w {
            Some(t) => {
                self.locked = true;
                proof {
                    assert(self.wait_queue@ =~= old(self).waiters().drop_first());
                }
                Some(t)
            },
            None => {
                self.locked = false;
                None
            },
        }
    }
}

/// A counting semaphore over the units of a tracked resource.
pub struct Semaphore {
    count: usize,
    wait_queue: std::collections::VecDeque<usize>,
    res: usize,
}

impl Semaphore {
    /// Free units.
    pub closed spec fn count(&self) -> usize {
        self.count
    }

    /// Parked tasks, first to be served first.
    pub closed spec fn waiters(&self) -> Seq<usize> {
        self.wait_queue@
    }

    /// Handle of the tracked resource this semaphore stands for.
    pub closed spec fn resource(&self) -> usize {
        self.res
    }

    /// A semaphore with `count` free units of resource `res`.
    pub fn new(count: usize, res: usize) -> (s: Self)
        ensures
            s.count() == count,
            s.waiters() == Seq::<usize>::empty(),
            s.resource() == res,
    {
        Semaphore { count, wait_queue: std::collections::VecDeque::new(), res }
    }

    /// Handle of the tracked resource this semaphore stands for.
    pub fn resource_id(&self) -> (r: usize)
        ensures
            r == self.resource(),
    {
        self.res
    }

    /// Free units, as a value.
    pub fn available(&self) -> (c: usize)
        ensures
            c == self.count(),
    {
        self.count
    }

    /// Task `tid` takes a unit if one is free, else joins the tail of the wait list.
    pub fn down(&mut self, tid: usize) -> (a: Acquire)
        ensures
            down_step(*old(self), tid, a, *final(self)),
    {
        if self.count > 0 {
            self.count = self.count - 1;
            Acquire::Granted
        } else {
            self.wait_queue.push_back(tid);
            Acquire::Parked
        }
    }

    /// Returns a unit: it goes straight to the head of the wait list, which is returned
    /// to be woken, or, with nobody waiting, back to the free count.
    pub fn up(&mut self) -> (woken: Option<usize>)
        requires
            old(self).waiters().len() == 0 ==> old(self).count() < usize::MAX,
        ensures
            up_step(*old(self), woken, *final(self)),
    {
        let w = self.wait_queue.pop_front();
        match w {
            Some(t) => {
                proof {
                    assert(self.wait_queue@ =~= old(self).waiters().drop_first());
                }
                Some(t)
            },
            None => {
                self.count = self.count + 1;
                None
            },
        }
    }

    /// Whether `up` has somewhere to put the unit.
    pub fn can_up(&self) -> (b: bool)
        ensures
            b == (self.waiters().len() > 0 || self.count() < usize::MAX),
    {
        self.wait_queue.len() > 0 || self.count < usize::MAX
    }
}

/// A condition variable: a FIFO list of tasks waiting to be signalled.
pub struct Condvar {
    wait_queue: std::collections::VecDeque<usize>,
}

impl Condvar {
    /// Waiting tasks, first to be signalled first.
    pub closed spec fn waiters(&self) -> Seq<usize> {
        self.wait_queue@
    }

    pub fn new() -> (c: Self)
        ensures
            c.waiters() == Seq::<usize>::empty(),
    {
        Condvar { wait_queue: std::collections::VecDeque::new() }
    }

    /// Task `tid` joins the tail of the wait list.
    pub fn wait(&mut self, tid: usize)
        ensures
            final(self).waiters() == old(self).waiters().push(tid),
    {
        self.wait_queue.push_back(tid);
    }

    /// Wakes exactly one waiter, the one that waited longest; `None` if nobody waits.
    pub fn signal(&mut self) -> (woken: Option<usize>)
        ensures
            signal_step(*old(self), woken, *final(self)),
    {
        let w = self.wait_queue.pop_front();
        proof {
            if old(self).waiters().len() > 0 {
                assert(self.wait_queue@ =~= old(self).waiters().drop_first());
            }
        }
        w
    }
}

} // verus!
